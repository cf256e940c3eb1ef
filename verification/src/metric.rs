//! The metric snapshot model: one metric's identity, kind, tags and typed
//! value, together with the spec-level quantities the encoder is proved
//! against (weight totals, weighted sums, cumulative bucket counts).

use vstd::prelude::*;
use crate::num::{Num, num_le, num_lt, pow10, MAX_SCALE};

verus! {

/// Whether a value is total current state or a delta. Only absolute metrics
/// are encoded; incremental ones are skipped.
#[derive(Clone, Copy, PartialEq, Eq, Structural, Debug)]
pub enum MetricKind {
    Absolute,
    Incremental,
}

impl MetricKind {
    pub open spec fn spec_is_absolute(self) -> bool {
        self is Absolute
    }

    pub fn is_absolute(&self) -> (r: bool)
        ensures
            r == self.spec_is_absolute(),
    {
        match self {
            MetricKind::Absolute => true,
            MetricKind::Incremental => false,
        }
    }
}

/// How a client-side distribution is to be exposed.
#[derive(Clone, Copy, PartialEq, Eq, Structural, Debug)]
pub enum StatisticKind {
    Histogram,
    Summary,
}

/// A metric's typed value.
#[derive(Clone, Debug)]
pub enum MetricValue {
    Counter { value: Num },
    Gauge { value: Num },
    /// Only the cardinality is exposed, never the members.
    StringSet { values: Vec<String> },
    /// Raw weighted samples: `sample_rates[i]` observations of `values[i]`.
    Distribution { values: Vec<Num>, sample_rates: Vec<u64>, statistic: StatisticKind },
    /// `counts[i]` is the number of samples in bucket `i` (not cumulative);
    /// `count` is the already-cumulative total.
    AggregatedHistogram { buckets: Vec<Num>, counts: Vec<u64>, count: u64, sum: Num },
    AggregatedSummary { quantiles: Vec<Num>, values: Vec<Num>, count: u64, sum: Num },
}

/// One metric snapshot, read exactly once per encode call.
#[derive(Clone, Debug)]
pub struct Metric {
    pub name: String,
    pub namespace: Option<String>,
    /// Seconds; carried through but not rendered by the text collector.
    pub timestamp: Option<i64>,
    pub tags: Option<Vec<(String, String)>>,
    pub kind: MetricKind,
    pub value: MetricValue,
}

// --- spec-level aggregation quantities --------------------------------------

/// Total weight of a sample set.
pub open spec fn sum_rates(rates: Seq<u64>) -> int
    decreases rates.len(),
{
    if rates.len() == 0 {
        0
    } else {
        sum_rates(rates.drop_last()) + rates.last()
    }
}

/// Largest scale used by a value sequence; the common scale of their sums.
pub open spec fn max_scale(values: Seq<Num>) -> nat
    decreases values.len(),
{
    if values.len() == 0 {
        0
    } else {
        let m = max_scale(values.drop_last());
        if values.last().scale as nat > m {
            values.last().scale as nat
        } else {
            m
        }
    }
}

/// Weighted sum of the samples, as a mantissa at scale `s`:
/// `sum_i values[i] * rates[i] * 10^s`.
pub open spec fn wsum(values: Seq<Num>, rates: Seq<u64>, s: nat) -> int
    decreases values.len(),
{
    if values.len() == 0 {
        0
    } else {
        wsum(values.drop_last(), rates.drop_last(), s) + values.last().mant * pow10(
            (s - values.last().scale) as nat,
        ) * rates.last()
    }
}

/// Every prefix of the weighted sum stays within an `i64` mantissa; what the
/// accumulator needs in order not to overflow.
pub open spec fn wsum_fits(values: Seq<Num>, rates: Seq<u64>, s: nat) -> bool {
    forall|k: int|
        0 <= k <= values.len() ==> -(i64::MAX as int) <= #[trigger] wsum(
            values.take(k),
            rates.take(k),
            s,
        ) <= i64::MAX as int
}

/// Cumulative count for an upper bound `b`: the total weight of all samples
/// `<= b`.
pub open spec fn hist_count(values: Seq<Num>, rates: Seq<u64>, b: Num) -> int
    decreases values.len(),
{
    if values.len() == 0 {
        0
    } else {
        hist_count(values.drop_last(), rates.drop_last(), b) + if num_le(values.last(), b) {
            rates.last() as int
        } else {
            0
        }
    }
}

/// Strictly ascending bucket bounds.
pub open spec fn ascending(buckets: Seq<Num>) -> bool {
    forall|i: int, j: int| 0 <= i < j < buckets.len() ==> num_lt(#[trigger] buckets[i], #[trigger] buckets[j])
}

pub open spec fn all_wf(values: Seq<Num>) -> bool {
    forall|i: int| 0 <= i < values.len() ==> (#[trigger] values[i]).wf()
}

impl MetricValue {
    /// The shape invariants a metric carries at the encoder's boundary:
    /// parallel arrays of one length, well-formed numbers, ascending bounds,
    /// unique set members, and totals that fit an `i64` mantissa.
    pub open spec fn wf(self) -> bool {
        match self {
            MetricValue::Counter { value } => value.wf(),
            MetricValue::Gauge { value } => value.wf(),
            MetricValue::StringSet { values } => values@.len() <= i64::MAX && (forall|i: int, j: int|
                0 <= i < j < values@.len() ==> values@[i]@ != values@[j]@),
            MetricValue::Distribution { values, sample_rates, statistic } => {
                &&& values@.len() == sample_rates@.len()
                &&& all_wf(values@)
                &&& sum_rates(sample_rates@) <= i64::MAX
                &&& wsum_fits(values@, sample_rates@, max_scale(values@))
            },
            MetricValue::AggregatedHistogram { buckets, counts, count, sum } => {
                &&& buckets@.len() == counts@.len()
                &&& all_wf(buckets@)
                &&& ascending(buckets@)
                &&& (forall|i: int| 0 <= i < counts@.len() ==> #[trigger] counts@[i] <= i64::MAX)
                &&& count <= i64::MAX
                &&& sum.wf()
            },
            MetricValue::AggregatedSummary { quantiles, values, count, sum } => {
                &&& quantiles@.len() == values@.len()
                &&& all_wf(quantiles@)
                &&& all_wf(values@)
                &&& count <= i64::MAX
                &&& sum.wf()
            },
        }
    }
}

impl Metric {
    pub open spec fn wf(self) -> bool {
        self.value.wf()
    }

    /// The timestamp handed to the emitter: seconds, or zero when absent.
    pub open spec fn spec_timestamp(self) -> int {
        match self.timestamp {
            Option::Some(t) => t as int,
            Option::None => 0,
        }
    }
}

// --- lemmas about the aggregation quantities --------------------------------

pub proof fn lemma_sum_rates_nonneg(rates: Seq<u64>)
    ensures
        sum_rates(rates) >= 0,
    decreases rates.len(),
{
    if rates.len() > 0 {
        lemma_sum_rates_nonneg(rates.drop_last());
    }
}

/// A prefix never weighs more than the whole.
pub proof fn lemma_sum_rates_take(rates: Seq<u64>, k: int)
    requires
        0 <= k <= rates.len(),
    ensures
        sum_rates(rates.take(k)) <= sum_rates(rates),
    decreases rates.len() - k,
{
    if k == rates.len() {
        assert(rates.take(k) =~= rates);
    } else {
        lemma_sum_rates_take(rates, k + 1);
        assert(rates.take(k + 1).drop_last() =~= rates.take(k));
        assert(rates.take(k + 1).last() == rates[k]);
    }
}

/// Cumulative counts lie between zero and the total weight.
pub proof fn lemma_hist_count_bounds(values: Seq<Num>, rates: Seq<u64>, b: Num)
    requires
        values.len() == rates.len(),
    ensures
        0 <= hist_count(values, rates, b) <= sum_rates(rates),
    decreases values.len(),
{
    if values.len() > 0 {
        lemma_hist_count_bounds(values.drop_last(), rates.drop_last(), b);
    }
}

/// A larger bound never counts less: the cumulative property.
pub proof fn lemma_hist_count_monotone(values: Seq<Num>, rates: Seq<u64>, b1: Num, b2: Num)
    requires
        values.len() == rates.len(),
        num_le(b1, b2),
    ensures
        hist_count(values, rates, b1) <= hist_count(values, rates, b2),
    decreases values.len(),
{
    if values.len() > 0 {
        lemma_hist_count_monotone(values.drop_last(), rates.drop_last(), b1, b2);
        if num_le(values.last(), b1) {
            crate::num::lemma_num_le_trans(values.last(), b1, b2);
        }
    }
}

/// The common scale dominates every element's scale.
pub proof fn lemma_max_scale_ge(values: Seq<Num>, i: int)
    requires
        0 <= i < values.len(),
    ensures
        values[i].scale as nat <= max_scale(values),
    decreases values.len(),
{
    if i < values.len() - 1 {
        lemma_max_scale_ge(values.drop_last(), i);
    }
}

} // verus!
