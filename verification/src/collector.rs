//! The sample emitter interface and the value-shape dispatcher: which samples
//! a metric turns into, and the reference text renderer that accumulates them
//! into wire-format lines.
//!
//! The emitter trait carries two abstract views: the samples emitted so far
//! and the rendered text. Every `emit` appends exactly one sample and its
//! line, so the dispatcher's contract pins, shape by shape, the whole sample
//! sequence and the whole text an encode call appends.

use vstd::prelude::*;
use crate::num::{Num, spec_fmt};
use crate::metric::{
    Metric, MetricValue, MetricKind, StatisticKind, hist_count, sum_rates, wsum, max_scale,
    ascending, all_wf, wsum_fits, lemma_sum_rates_nonneg, lemma_sum_rates_take, lemma_hist_count_bounds,
    lemma_hist_count_monotone,
};
use crate::render::{tags_text, compose_name, encode_namespace, render_tags};
use crate::stats::{DistributionStatistic, stat_ok, distribution_statistic};

verus! {

/// One fully resolved sample: everything the emitter is handed.
#[verifier::ext_equal]
pub struct SampleData {
    pub timestamp: int,
    pub name: Seq<char>,
    pub suffix: Seq<char>,
    pub value: Num,
    pub tags: Option<Seq<(Seq<char>, Seq<char>)>>,
    pub extra: Option<(Seq<char>, Seq<char>)>,
}

pub open spec fn extra_view(extra: Option<(&str, String)>) -> Option<(Seq<char>, Seq<char>)> {
    match extra {
        Option::Some((k, v)) => Option::Some((k@, v@)),
        Option::None => Option::None,
    }
}

/// The text line one sample renders to: name, suffix, tag list, one space,
/// the value, one newline. The timestamp is carried but not rendered.
pub open spec fn line_of(s: SampleData) -> Seq<char> {
    s.name + s.suffix + tags_text(s.tags, s.extra) + " "@ + spec_fmt(s.value) + "\n"@
}

pub open spec fn render_lines(ss: Seq<SampleData>) -> Seq<char>
    decreases ss.len(),
{
    if ss.len() == 0 {
        Seq::empty()
    } else {
        render_lines(ss.drop_last()) + line_of(ss.last())
    }
}

pub proof fn lemma_render_push(ss: Seq<SampleData>, s: SampleData)
    ensures
        render_lines(ss.push(s)) == render_lines(ss) + line_of(s),
{
    assert(ss.push(s).drop_last() =~= ss);
    assert(ss.push(s).last() == s);
}

pub proof fn lemma_render_one(s: SampleData)
    ensures
        render_lines(seq![s]) == line_of(s),
{
    let ss = seq![s];
    assert(ss.drop_last() =~= Seq::<SampleData>::empty());
    assert(render_lines(Seq::<SampleData>::empty()) == Seq::<char>::empty());
    assert(ss.last() == s);
    assert(Seq::<char>::empty() + line_of(s) =~= line_of(s));
}

/// A sample emitter. `emitted` is the sample history, `out` the rendered
/// text; each `emit` appends one sample and its rendered line.
pub trait MetricCollector: Sized {
    spec fn emitted(&self) -> Seq<SampleData>;

    spec fn out(&self) -> Seq<char>;

    fn new() -> (r: Self)
        ensures
            r.emitted() == Seq::<SampleData>::empty(),
            r.out() == Seq::<char>::empty(),
    ;

    fn emit(
        &mut self,
        timestamp: i64,
        name: &str,
        suffix: &str,
        value: Num,
        tags: &Option<Vec<(String, String)>>,
        extra: Option<(&str, String)>,
    )
        requires
            value.wf(),
        ensures
            ({
                let s = SampleData {
                    timestamp: timestamp as int,
                    name: name@,
                    suffix: suffix@,
                    value,
                    tags: tags.deep_view(),
                    extra: extra_view(extra),
                };
                final(self).emitted() == old(self).emitted().push(s) && final(self).out()
                    == old(self).out() + line_of(s)
            }),
    ;
}

/// The reference text renderer: accumulates lines into a growable buffer.
pub struct StringCollector {
    pub result: String,
    pub history: Ghost<Seq<SampleData>>,
}

impl MetricCollector for StringCollector {
    open spec fn emitted(&self) -> Seq<SampleData> {
        self.history@
    }

    open spec fn out(&self) -> Seq<char> {
        self.result@
    }

    fn new() -> (r: Self) {
        StringCollector { result: String::new(), history: Ghost(Seq::empty()) }
    }

    fn emit(
        &mut self,
        timestamp: i64,
        name: &str,
        suffix: &str,
        value: Num,
        tags: &Option<Vec<(String, String)>>,
        extra: Option<(&str, String)>,
    ) {
        let ghost s = SampleData {
            timestamp: timestamp as int,
            name: name@,
            suffix: suffix@,
            value,
            tags: tags.deep_view(),
            extra: extra_view(extra),
        };
        self.result.append(name);
        self.result.append(suffix);
        let t = render_tags(tags, extra);
        self.result.append(t.as_str());
        self.result.append(" ");
        let vt = value.to_text();
        self.result.append(vt.as_str());
        self.result.append("\n");
        proof {
            assert(self.result@ =~= old(self).result@ + line_of(s));
        }
        self.history = Ghost(self.history@.push(s));
    }
}

/// The wire-format type declared for each value shape.
pub open spec fn metric_type_text(v: MetricValue) -> Seq<char> {
    match v {
        MetricValue::Counter { .. } => "counter"@,
        MetricValue::Gauge { .. } => "gauge"@,
        MetricValue::StringSet { .. } => "gauge"@,
        MetricValue::Distribution { statistic, .. } => if statistic is Histogram {
            "histogram"@
        } else {
            "summary"@
        },
        MetricValue::AggregatedHistogram { .. } => "histogram"@,
        MetricValue::AggregatedSummary { .. } => "summary"@,
    }
}

/// The HELP/TYPE preamble; the bare name doubles as its own description.
pub open spec fn header_text(ns: Option<Seq<char>>, name: Seq<char>, v: MetricValue) -> Seq<
    char,
> {
    let full = compose_name(ns, '_', name);
    "# HELP "@ + full + " "@ + name + "\n"@ + "# TYPE "@ + full + " "@ + metric_type_text(v)
        + "\n"@
}

impl StringCollector {
    /// Append the rendered tag list for a tag map and an optional synthesized
    /// pair.
    pub fn encode_tags(
        &mut self,
        tags: &Option<Vec<(String, String)>>,
        extra: Option<(&str, String)>,
    )
        ensures
            final(self).result@ == old(self).result@ + tags_text(
                tags.deep_view(),
                extra_view(extra),
            ),
            final(self).emitted() == old(self).emitted(),
    {
        let t = render_tags(tags, extra);
        self.result.append(t.as_str());
    }

    /// Append the HELP/TYPE header lines for a metric.
    pub fn encode_header(&mut self, namespace: Option<&str>, metric: &Metric)
        ensures
            final(self).result@ == old(self).result@ + header_text(
                namespace.deep_view(),
                metric.name@,
                metric.value,
            ),
            final(self).emitted() == old(self).emitted(),
    {
        let fullname = encode_namespace(namespace, '_', metric.name.as_str());
        let tname: &str = match &metric.value {
            MetricValue::Counter { .. } => "counter",
            MetricValue::Gauge { .. } => "gauge",
            MetricValue::StringSet { .. } => "gauge",
            MetricValue::Distribution { statistic, .. } => match statistic {
                StatisticKind::Histogram => "histogram",
                StatisticKind::Summary => "summary",
            },
            MetricValue::AggregatedHistogram { .. } => "histogram",
            MetricValue::AggregatedSummary { .. } => "summary",
        };
        self.result.append("# HELP ");
        self.result.append(fullname.as_str());
        self.result.append(" ");
        self.result.append(metric.name.as_str());
        self.result.append("\n");
        self.result.append("# TYPE ");
        self.result.append(fullname.as_str());
        self.result.append(" ");
        self.result.append(tname);
        self.result.append("\n");
        proof {
            assert(tname@ == metric_type_text(metric.value));
            assert(self.result@ =~= old(self).result@ + header_text(
                namespace.deep_view(),
                metric.name@,
                metric.value,
            ));
        }
    }
}

// --- the samples each value shape produces -----------------------------------

pub open spec fn sample(
    ts: int,
    name: Seq<char>,
    tags: Option<Seq<(Seq<char>, Seq<char>)>>,
    suffix: Seq<char>,
    value: Num,
    extra: Option<(Seq<char>, Seq<char>)>,
) -> SampleData {
    SampleData { timestamp: ts, name, suffix, value, tags, extra }
}

/// A counter or gauge: one unsuffixed raw-value sample.
pub open spec fn single_value_samples(
    ts: int,
    name: Seq<char>,
    tags: Option<Seq<(Seq<char>, Seq<char>)>>,
    value: Num,
) -> Seq<SampleData> {
    seq![sample(ts, name, tags, ""@, value, Option::None)]
}

/// What a set exposes: its cardinality, or zero once expired.
pub open spec fn set_value(card: int, expired: bool) -> Num {
    Num { mant: if expired { 0 } else { card as i64 }, scale: 0u32 }
}

/// The per-bound bucket samples of a client-side distribution.
pub open spec fn hist_bucket_samples(
    ts: int,
    name: Seq<char>,
    tags: Option<Seq<(Seq<char>, Seq<char>)>>,
    buckets: Seq<Num>,
    values: Seq<Num>,
    rates: Seq<u64>,
) -> Seq<SampleData> {
    Seq::new(
        buckets.len(),
        |j: int|
            sample(
                ts,
                name,
                tags,
                "_bucket"@,
                Num { mant: hist_count(values, rates, buckets[j]) as i64, scale: 0u32 },
                Option::Some(("le"@, spec_fmt(buckets[j]))),
            ),
    )
}

/// A distribution exposed as a histogram: one cumulative sample per bound,
/// the +Inf sentinel carrying the total weight, then `_sum` and `_count`.
pub open spec fn hist_samples(
    ts: int,
    name: Seq<char>,
    tags: Option<Seq<(Seq<char>, Seq<char>)>>,
    buckets: Seq<Num>,
    values: Seq<Num>,
    rates: Seq<u64>,
) -> Seq<SampleData> {
    hist_bucket_samples(ts, name, tags, buckets, values, rates).push(
        sample(
            ts,
            name,
            tags,
            "_bucket"@,
            Num { mant: sum_rates(rates) as i64, scale: 0u32 },
            Option::Some(("le"@, "+Inf"@)),
        ),
    ).push(
        sample(
            ts,
            name,
            tags,
            "_sum"@,
            Num { mant: wsum(values, rates, max_scale(values)) as i64, scale: max_scale(values) as u32 },
            Option::None,
        ),
    ).push(
        sample(
            ts,
            name,
            tags,
            "_count"@,
            Num { mant: sum_rates(rates) as i64, scale: 0u32 },
            Option::None,
        ),
    )
}

/// A pre-aggregated histogram: per-bucket counts pass through verbatim, only
/// the +Inf sentinel uses the already-cumulative total.
pub open spec fn agg_hist_samples(
    ts: int,
    name: Seq<char>,
    tags: Option<Seq<(Seq<char>, Seq<char>)>>,
    buckets: Seq<Num>,
    counts: Seq<u64>,
    count: u64,
    sum: Num,
) -> Seq<SampleData> {
    Seq::new(
        buckets.len(),
        |j: int|
            sample(
                ts,
                name,
                tags,
                "_bucket"@,
                Num { mant: counts[j] as i64, scale: 0u32 },
                Option::Some(("le"@, spec_fmt(buckets[j]))),
            ),
    ).push(
        sample(
            ts,
            name,
            tags,
            "_bucket"@,
            Num { mant: count as i64, scale: 0u32 },
            Option::Some(("le"@, "+Inf"@)),
        ),
    ).push(sample(ts, name, tags, "_sum"@, sum, Option::None)).push(
        sample(ts, name, tags, "_count"@, Num { mant: count as i64, scale: 0u32 }, Option::None),
    )
}

/// A pre-aggregated summary passes through unmodified.
pub open spec fn agg_summary_samples(
    ts: int,
    name: Seq<char>,
    tags: Option<Seq<(Seq<char>, Seq<char>)>>,
    quantiles: Seq<Num>,
    values: Seq<Num>,
    count: u64,
    sum: Num,
) -> Seq<SampleData> {
    Seq::new(
        quantiles.len(),
        |j: int|
            sample(
                ts,
                name,
                tags,
                ""@,
                values[j],
                Option::Some(("quantile"@, spec_fmt(quantiles[j]))),
            ),
    ).push(sample(ts, name, tags, "_sum"@, sum, Option::None)).push(
        sample(ts, name, tags, "_count"@, Num { mant: count as i64, scale: 0u32 }, Option::None),
    )
}

/// The per-quantile samples of a summary statistic.
pub open spec fn summary_quantile_samples(
    ts: int,
    name: Seq<char>,
    tags: Option<Seq<(Seq<char>, Seq<char>)>>,
    st: DistributionStatistic,
) -> Seq<SampleData> {
    Seq::new(
        st.quantiles@.len(),
        |j: int|
            sample(
                ts,
                name,
                tags,
                ""@,
                st.quantiles@[j].1,
                Option::Some(("quantile"@, spec_fmt(st.quantiles@[j].0))),
            ),
    )
}

/// A distribution exposed as a summary, when the statistic routine returned.
pub open spec fn summary_stat_samples(
    ts: int,
    name: Seq<char>,
    tags: Option<Seq<(Seq<char>, Seq<char>)>>,
    st: DistributionStatistic,
) -> Seq<SampleData> {
    summary_quantile_samples(ts, name, tags, st).push(
        sample(ts, name, tags, "_sum"@, st.sum, Option::None),
    ).push(
        sample(
            ts,
            name,
            tags,
            "_count"@,
            Num { mant: st.count as i64, scale: 0u32 },
            Option::None,
        ),
    ).push(sample(ts, name, tags, "_min"@, st.min, Option::None)).push(
        sample(ts, name, tags, "_max"@, st.max, Option::None),
    ).push(sample(ts, name, tags, "_avg"@, st.avg, Option::None))
}

/// The degenerate-but-valid frame for a summary over no samples.
pub open spec fn summary_empty_samples(
    ts: int,
    name: Seq<char>,
    tags: Option<Seq<(Seq<char>, Seq<char>)>>,
) -> Seq<SampleData> {
    seq![
        sample(ts, name, tags, "_sum"@, Num { mant: 0, scale: 0u32 }, Option::None),
        sample(ts, name, tags, "_count"@, Num { mant: 0, scale: 0u32 }, Option::None),
    ]
}

/// The collector gained exactly the samples `ss` and their rendered lines.
pub open spec fn encode_post<C: MetricCollector>(post: C, pre: C, ss: Seq<SampleData>) -> bool {
    &&& post.emitted() == pre.emitted() + ss
    &&& post.out() == pre.out() + render_lines(ss)
}

/// Cumulative weight of all samples at or below one bound.
fn bucket_count(values: &Vec<Num>, rates: &Vec<u64>, b: Num) -> (r: u64)
    requires
        values@.len() == rates@.len(),
        all_wf(values@),
        b.wf(),
        sum_rates(rates@) <= i64::MAX,
    ensures
        r == hist_count(values@, rates@, b),
{
    let mut cnt: u64 = 0;
    let mut i: usize = 0;
    proof {
        assert(values@.take(0) =~= Seq::<Num>::empty());
        assert(rates@.take(0) =~= Seq::<u64>::empty());
    }
    while i < values.len()
        invariant
            i <= values@.len(),
            values@.len() == rates@.len(),
            all_wf(values@),
            b.wf(),
            sum_rates(rates@) <= i64::MAX,
            cnt == hist_count(values@.take(i as int), rates@.take(i as int), b),
        decreases values@.len() - i,
    {
        proof {
            assert(values@.take(i + 1).drop_last() =~= values@.take(i as int));
            assert(rates@.take(i + 1).drop_last() =~= rates@.take(i as int));
            assert(values@.take(i + 1).last() == values@[i as int]);
            assert(rates@.take(i + 1).last() == rates@[i as int]);
            lemma_hist_count_bounds(values@.take(i + 1), rates@.take(i + 1), b);
            lemma_sum_rates_take(rates@, i + 1);
            lemma_sum_rates_nonneg(rates@.take(i + 1));
        }
        if crate::num::le(values[i], b) {
            cnt = cnt + rates[i];
        }
        i = i + 1;
    }
    proof {
        assert(values@.take(values@.len() as int) =~= values@);
        assert(rates@.take(rates@.len() as int) =~= rates@);
    }
    cnt
}


/// Emit one unsuffixed raw-value sample: the counter/gauge/set frame.
fn emit_single<C: MetricCollector>(
    c: &mut C,
    timestamp: i64,
    name: &str,
    tags: &Option<Vec<(String, String)>>,
    value: Num,
)
    requires
        value.wf(),
    ensures
        encode_post(
            *final(c),
            *old(c),
            single_value_samples(timestamp as int, name@, tags.deep_view(), value),
        ),
{
    let ghost e0 = c.emitted();
    let ghost o0 = c.out();
    c.emit(timestamp, name, "", value, tags, Option::None);
    proof {
        let ss = single_value_samples(timestamp as int, name@, tags.deep_view(), value);
        assert(c.emitted() =~= e0 + ss);
        lemma_render_one(ss.last());
        assert(ss =~= seq![ss.last()]);
        assert(c.out() =~= o0 + render_lines(ss));
    }
}

/// Emit the histogram frame of a client-side distribution: a cumulative
/// bucket sample per bound, the +Inf sentinel, `_sum` and `_count`.
fn encode_hist_frame<C: MetricCollector>(
    c: &mut C,
    timestamp: i64,
    name: &str,
    tags: &Option<Vec<(String, String)>>,
    buckets: &Vec<Num>,
    values: &Vec<Num>,
    rates: &Vec<u64>,
)
    requires
        all_wf(buckets@),
        values@.len() == rates@.len(),
        all_wf(values@),
        sum_rates(rates@) <= i64::MAX,
        wsum_fits(values@, rates@, max_scale(values@)),
    ensures
        encode_post(
            *final(c),
            *old(c),
            hist_samples(timestamp as int, name@, tags.deep_view(), buckets@, values@, rates@),
        ),
{
    let ghost ts = timestamp as int;
    let ghost nm = name@;
    let ghost tg = tags.deep_view();
    let ghost e0 = c.emitted();
    let ghost o0 = c.out();
    let total = crate::stats::weight_total(rates);
    proof {
        lemma_sum_rates_nonneg(rates@);
    }
    let sum = crate::stats::weighted_sum(values, rates);
    let ghost bs = hist_bucket_samples(ts, nm, tg, buckets@, values@, rates@);
    let mut j: usize = 0;
    proof {
        assert(bs.take(0) =~= Seq::<SampleData>::empty());
        assert(c.emitted() =~= e0 + bs.take(0));
        assert(c.out() =~= o0 + render_lines(bs.take(0)));
    }
    while j < buckets.len()
        invariant
            j <= buckets@.len(),
            all_wf(buckets@),
            values@.len() == rates@.len(),
            all_wf(values@),
            sum_rates(rates@) <= i64::MAX,
            bs == hist_bucket_samples(ts, nm, tg, buckets@, values@, rates@),
            nm == name@,
            ts == timestamp as int,
            tg == tags.deep_view(),
            c.emitted() == e0 + bs.take(j as int),
            c.out() == o0 + render_lines(bs.take(j as int)),
        decreases buckets@.len() - j,
    {
        let b = buckets[j];
        let cnt = bucket_count(values, rates, b);
        proof {
            lemma_hist_count_bounds(values@, rates@, b);
        }
        c.emit(
            timestamp,
            name,
            "_bucket",
            Num { mant: cnt as i64, scale: 0 },
            tags,
            Option::Some(("le", b.to_text())),
        );
        proof {
            assert(bs.take(j + 1).drop_last() =~= bs.take(j as int));
            assert(bs.take(j + 1).last() == bs[j as int]);
            assert(c.emitted() =~= e0 + bs.take(j + 1));
            assert(c.out() =~= o0 + render_lines(bs.take(j + 1)));
        }
        j = j + 1;
    }
    proof {
        assert(bs.take(buckets@.len() as int) =~= bs);
    }
    c.emit(
        timestamp,
        name,
        "_bucket",
        Num { mant: total as i64, scale: 0 },
        tags,
        Option::Some(("le", "+Inf".to_owned())),
    );
    c.emit(timestamp, name, "_sum", sum, tags, Option::None);
    c.emit(timestamp, name, "_count", Num { mant: total as i64, scale: 0 }, tags, Option::None);
    proof {
        let ss = hist_samples(ts, nm, tg, buckets@, values@, rates@);
        let a = sample(
            ts,
            nm,
            tg,
            "_bucket"@,
            Num { mant: sum_rates(rates@) as i64, scale: 0u32 },
            Option::Some(("le"@, "+Inf"@)),
        );
        let b2 = sample(
            ts,
            nm,
            tg,
            "_sum"@,
            Num {
                mant: wsum(values@, rates@, max_scale(values@)) as i64,
                scale: max_scale(values@) as u32,
            },
            Option::None,
        );
        let c2 = sample(
            ts,
            nm,
            tg,
            "_count"@,
            Num { mant: sum_rates(rates@) as i64, scale: 0u32 },
            Option::None,
        );
        assert(ss == bs.push(a).push(b2).push(c2));
        lemma_render_push(bs, a);
        lemma_render_push(bs.push(a), b2);
        lemma_render_push(bs.push(a).push(b2), c2);
        assert(c.emitted() =~= e0 + ss);
        assert(c.out() =~= o0 + render_lines(ss));
    }
}

/// Emit the per-quantile samples of a summary statistic.
fn emit_quantile_samples<C: MetricCollector>(
    c: &mut C,
    timestamp: i64,
    name: &str,
    tags: &Option<Vec<(String, String)>>,
    st: &DistributionStatistic,
)
    requires
        forall|j: int|
            0 <= j < st.quantiles@.len() ==> (#[trigger] st.quantiles@[j]).0.wf()
                && st.quantiles@[j].1.wf(),
    ensures
        encode_post(
            *final(c),
            *old(c),
            summary_quantile_samples(timestamp as int, name@, tags.deep_view(), *st),
        ),
{
    let ghost ts = timestamp as int;
    let ghost nm = name@;
    let ghost tg = tags.deep_view();
    let ghost e0 = c.emitted();
    let ghost o0 = c.out();
    let ghost qs = summary_quantile_samples(ts, nm, tg, *st);
    let mut j: usize = 0;
    proof {
        assert(qs.take(0) =~= Seq::<SampleData>::empty());
        assert(c.emitted() =~= e0 + qs.take(0));
        assert(c.out() =~= o0 + render_lines(qs.take(0)));
    }
    while j < st.quantiles.len()
        invariant
            j <= st.quantiles@.len(),
            forall|j2: int|
                0 <= j2 < st.quantiles@.len() ==> (#[trigger] st.quantiles@[j2]).0.wf()
                    && st.quantiles@[j2].1.wf(),
            qs == summary_quantile_samples(ts, nm, tg, *st),
            nm == name@,
            ts == timestamp as int,
            tg == tags.deep_view(),
            c.emitted() == e0 + qs.take(j as int),
            c.out() == o0 + render_lines(qs.take(j as int)),
        decreases st.quantiles@.len() - j,
    {
        let (q, v) = st.quantiles[j];
        c.emit(timestamp, name, "", v, tags, Option::Some(("quantile", q.to_text())));
        proof {
            assert(qs.take(j + 1).drop_last() =~= qs.take(j as int));
            assert(qs.take(j + 1).last() == qs[j as int]);
            assert(c.emitted() =~= e0 + qs.take(j + 1));
            assert(c.out() =~= o0 + render_lines(qs.take(j + 1)));
        }
        j = j + 1;
    }
    proof {
        assert(qs.take(st.quantiles@.len() as int) =~= qs);
    }
}

/// Emit the summary frame of a client-side distribution: quantile samples and
/// the statistic totals, or the zero-valued degenerate frame when the samples
/// carry no weight.
#[verifier::rlimit(100)]
fn encode_summary_frame<C: MetricCollector>(
    c: &mut C,
    timestamp: i64,
    name: &str,
    tags: &Option<Vec<(String, String)>>,
    values: &Vec<Num>,
    rates: &Vec<u64>,
    quantiles: &Vec<Num>,
)
    requires
        values@.len() == rates@.len(),
        all_wf(values@),
        all_wf(quantiles@),
        sum_rates(rates@) <= i64::MAX,
        wsum_fits(values@, rates@, max_scale(values@)),
    ensures
        ({
            let ts = timestamp as int;
            let nm = name@;
            let tg = tags.deep_view();
            if sum_rates(rates@) == 0 {
                encode_post(*final(c), *old(c), summary_empty_samples(ts, nm, tg))
            } else {
                exists|st: DistributionStatistic|
                    #[trigger] stat_ok(values@, rates@, quantiles@, st) && encode_post(
                        *final(c),
                        *old(c),
                        summary_stat_samples(ts, nm, tg, st),
                    )
            }
        }),
{
    let ghost ts = timestamp as int;
    let ghost nm = name@;
    let ghost tg = tags.deep_view();
    let ghost e0 = c.emitted();
    let ghost o0 = c.out();
    let st_opt = distribution_statistic(values, rates, quantiles);
    proof {
        lemma_sum_rates_nonneg(rates@);
    }
    match st_opt {
        Option::Some(st) => {
            proof {
                assert forall|j2: int| 0 <= j2 < st.quantiles@.len() implies (#[trigger] st
                    .quantiles@[j2]).0.wf() && st.quantiles@[j2].1.wf() by {
                    assert(st.quantiles@[j2].0 == quantiles@[j2]);
                }
            }
            emit_quantile_samples(c, timestamp, name, tags, &st);
            let ghost qs = summary_quantile_samples(ts, nm, tg, st);
            c.emit(timestamp, name, "_sum", st.sum, tags, Option::None);
            c.emit(
                timestamp,
                name,
                "_count",
                Num { mant: st.count as i64, scale: 0 },
                tags,
                Option::None,
            );
            c.emit(timestamp, name, "_min", st.min, tags, Option::None);
            c.emit(timestamp, name, "_max", st.max, tags, Option::None);
            c.emit(timestamp, name, "_avg", st.avg, tags, Option::None);
            proof {
                let ss = summary_stat_samples(ts, nm, tg, st);
                let s1 = sample(ts, nm, tg, "_sum"@, st.sum, Option::None);
                let s2 = sample(
                    ts,
                    nm,
                    tg,
                    "_count"@,
                    Num { mant: st.count as i64, scale: 0u32 },
                    Option::None,
                );
                let s3 = sample(ts, nm, tg, "_min"@, st.min, Option::None);
                let s4 = sample(ts, nm, tg, "_max"@, st.max, Option::None);
                let s5 = sample(ts, nm, tg, "_avg"@, st.avg, Option::None);
                assert(ss == qs.push(s1).push(s2).push(s3).push(s4).push(s5));
                lemma_render_push(qs, s1);
                lemma_render_push(qs.push(s1), s2);
                lemma_render_push(qs.push(s1).push(s2), s3);
                lemma_render_push(qs.push(s1).push(s2).push(s3), s4);
                lemma_render_push(qs.push(s1).push(s2).push(s3).push(s4), s5);
                assert(c.emitted() =~= e0 + ss);
                assert(c.out() =~= o0 + render_lines(ss));
                assert(stat_ok(values@, rates@, quantiles@, st) && encode_post(*c, *old(c), ss));
            }
        },
        Option::None => {
            c.emit(timestamp, name, "_sum", Num { mant: 0, scale: 0 }, tags, Option::None);
            c.emit(timestamp, name, "_count", Num { mant: 0, scale: 0 }, tags, Option::None);
            proof {
                let ss = summary_empty_samples(ts, nm, tg);
                assert(ss.drop_last() =~= seq![ss[0]]);
                lemma_render_one(ss[0]);
                assert(ss.last() == ss[1]);
                assert(c.emitted() =~= e0 + ss);
                assert(c.out() =~= o0 + render_lines(ss));
            }
        },
    }
}

/// Emit a pre-aggregated histogram: per-bucket counts verbatim, the +Inf
/// sentinel from the cumulative total, then `_sum` and `_count`.
fn encode_agg_hist_frame<C: MetricCollector>(
    c: &mut C,
    timestamp: i64,
    name: &str,
    tags: &Option<Vec<(String, String)>>,
    buckets: &Vec<Num>,
    counts: &Vec<u64>,
    count: u64,
    sum: Num,
)
    requires
        buckets@.len() == counts@.len(),
        all_wf(buckets@),
        forall|i: int| 0 <= i < counts@.len() ==> #[trigger] counts@[i] <= i64::MAX,
        count <= i64::MAX,
        sum.wf(),
    ensures
        encode_post(
            *final(c),
            *old(c),
            agg_hist_samples(
                timestamp as int,
                name@,
                tags.deep_view(),
                buckets@,
                counts@,
                count,
                sum,
            ),
        ),
{
    let ghost ts = timestamp as int;
    let ghost nm = name@;
    let ghost tg = tags.deep_view();
    let ghost e0 = c.emitted();
    let ghost o0 = c.out();
    let ghost bs = Seq::new(
        buckets@.len(),
        |j: int|
            sample(
                ts,
                nm,
                tg,
                "_bucket"@,
                Num { mant: counts@[j] as i64, scale: 0u32 },
                Option::Some(("le"@, spec_fmt(buckets@[j]))),
            ),
    );
    let mut j: usize = 0;
    proof {
        assert(bs.take(0) =~= Seq::<SampleData>::empty());
        assert(c.emitted() =~= e0 + bs.take(0));
        assert(c.out() =~= o0 + render_lines(bs.take(0)));
    }
    while j < buckets.len()
        invariant
            j <= buckets@.len(),
            buckets@.len() == counts@.len(),
            all_wf(buckets@),
            forall|i: int| 0 <= i < counts@.len() ==> #[trigger] counts@[i] <= i64::MAX,
            bs == Seq::new(
                buckets@.len(),
                |j2: int|
                    sample(
                        ts,
                        nm,
                        tg,
                        "_bucket"@,
                        Num { mant: counts@[j2] as i64, scale: 0u32 },
                        Option::Some(("le"@, spec_fmt(buckets@[j2]))),
                    ),
            ),
            nm == name@,
            ts == timestamp as int,
            tg == tags.deep_view(),
            c.emitted() == e0 + bs.take(j as int),
            c.out() == o0 + render_lines(bs.take(j as int)),
        decreases buckets@.len() - j,
    {
        let b = buckets[j];
        let cnt = counts[j];
        c.emit(
            timestamp,
            name,
            "_bucket",
            Num { mant: cnt as i64, scale: 0 },
            tags,
            Option::Some(("le", b.to_text())),
        );
        proof {
            assert(bs.take(j + 1).drop_last() =~= bs.take(j as int));
            assert(bs.take(j + 1).last() == bs[j as int]);
            assert(c.emitted() =~= e0 + bs.take(j + 1));
            assert(c.out() =~= o0 + render_lines(bs.take(j + 1)));
        }
        j = j + 1;
    }
    proof {
        assert(bs.take(buckets@.len() as int) =~= bs);
    }
    c.emit(
        timestamp,
        name,
        "_bucket",
        Num { mant: count as i64, scale: 0 },
        tags,
        Option::Some(("le", "+Inf".to_owned())),
    );
    c.emit(timestamp, name, "_sum", sum, tags, Option::None);
    c.emit(timestamp, name, "_count", Num { mant: count as i64, scale: 0 }, tags, Option::None);
    proof {
        let ss = agg_hist_samples(ts, nm, tg, buckets@, counts@, count, sum);
        let a = sample(
            ts,
            nm,
            tg,
            "_bucket"@,
            Num { mant: count as i64, scale: 0u32 },
            Option::Some(("le"@, "+Inf"@)),
        );
        let b2 = sample(ts, nm, tg, "_sum"@, sum, Option::None);
        let c2 = sample(
            ts,
            nm,
            tg,
            "_count"@,
            Num { mant: count as i64, scale: 0u32 },
            Option::None,
        );
        assert(ss == bs.push(a).push(b2).push(c2));
        lemma_render_push(bs, a);
        lemma_render_push(bs.push(a), b2);
        lemma_render_push(bs.push(a).push(b2), c2);
        assert(c.emitted() =~= e0 + ss);
        assert(c.out() =~= o0 + render_lines(ss));
    }
}

/// Emit a pre-aggregated summary unmodified: one sample per quantile pair,
/// then `_sum` and `_count`.
fn encode_agg_summary_frame<C: MetricCollector>(
    c: &mut C,
    timestamp: i64,
    name: &str,
    tags: &Option<Vec<(String, String)>>,
    quantiles: &Vec<Num>,
    values: &Vec<Num>,
    count: u64,
    sum: Num,
)
    requires
        quantiles@.len() == values@.len(),
        all_wf(quantiles@),
        all_wf(values@),
        count <= i64::MAX,
        sum.wf(),
    ensures
        encode_post(
            *final(c),
            *old(c),
            agg_summary_samples(
                timestamp as int,
                name@,
                tags.deep_view(),
                quantiles@,
                values@,
                count,
                sum,
            ),
        ),
{
    let ghost ts = timestamp as int;
    let ghost nm = name@;
    let ghost tg = tags.deep_view();
    let ghost e0 = c.emitted();
    let ghost o0 = c.out();
    let ghost qs = Seq::new(
        quantiles@.len(),
        |j: int|
            sample(
                ts,
                nm,
                tg,
                ""@,
                values@[j],
                Option::Some(("quantile"@, spec_fmt(quantiles@[j]))),
            ),
    );
    let mut j: usize = 0;
    proof {
        assert(qs.take(0) =~= Seq::<SampleData>::empty());
        assert(c.emitted() =~= e0 + qs.take(0));
        assert(c.out() =~= o0 + render_lines(qs.take(0)));
    }
    while j < quantiles.len()
        invariant
            j <= quantiles@.len(),
            quantiles@.len() == values@.len(),
            all_wf(quantiles@),
            all_wf(values@),
            qs == Seq::new(
                quantiles@.len(),
                |j2: int|
                    sample(
                        ts,
                        nm,
                        tg,
                        ""@,
                        values@[j2],
                        Option::Some(("quantile"@, spec_fmt(quantiles@[j2]))),
                    ),
            ),
            nm == name@,
            ts == timestamp as int,
            tg == tags.deep_view(),
            c.emitted() == e0 + qs.take(j as int),
            c.out() == o0 + render_lines(qs.take(j as int)),
        decreases quantiles@.len() - j,
    {
        let q = quantiles[j];
        let v = values[j];
        c.emit(timestamp, name, "", v, tags, Option::Some(("quantile", q.to_text())));
        proof {
            assert(qs.take(j + 1).drop_last() =~= qs.take(j as int));
            assert(qs.take(j + 1).last() == qs[j as int]);
            assert(c.emitted() =~= e0 + qs.take(j + 1));
            assert(c.out() =~= o0 + render_lines(qs.take(j + 1)));
        }
        j = j + 1;
    }
    proof {
        assert(qs.take(quantiles@.len() as int) =~= qs);
    }
    c.emit(timestamp, name, "_sum", sum, tags, Option::None);
    c.emit(timestamp, name, "_count", Num { mant: count as i64, scale: 0 }, tags, Option::None);
    proof {
        let ss = agg_summary_samples(ts, nm, tg, quantiles@, values@, count, sum);
        let s1 = sample(ts, nm, tg, "_sum"@, sum, Option::None);
        let s2 = sample(
            ts,
            nm,
            tg,
            "_count"@,
            Num { mant: count as i64, scale: 0u32 },
            Option::None,
        );
        assert(ss == qs.push(s1).push(s2));
        lemma_render_push(qs, s1);
        lemma_render_push(qs.push(s1), s2);
        assert(c.emitted() =~= e0 + ss);
        assert(c.out() =~= o0 + render_lines(ss));
    }
}

/// Walk one metric's value and emit its samples: nothing for an incremental
/// metric; one raw sample for counters, gauges and sets; cumulative bucket
/// frames for histograms; quantile frames for summaries.
pub fn encode_metric<C: MetricCollector>(
    c: &mut C,
    namespace: Option<&str>,
    buckets: &Vec<Num>,
    quantiles: &Vec<Num>,
    expired: bool,
    metric: &Metric,
)
    requires
        metric.wf(),
        all_wf(buckets@),
        ascending(buckets@),
        all_wf(quantiles@),
    ensures
        ({
            let ts = metric.spec_timestamp();
            let nm = compose_name(namespace.deep_view(), '_', metric.name@);
            let tg = metric.tags.deep_view();
            match metric.kind {
                MetricKind::Incremental => final(c).emitted() == old(c).emitted()
                    && final(c).out() == old(c).out(),
                MetricKind::Absolute => match metric.value {
                    MetricValue::Counter { value } => encode_post(
                        *final(c),
                        *old(c),
                        single_value_samples(ts, nm, tg, value),
                    ),
                    MetricValue::Gauge { value } => encode_post(
                        *final(c),
                        *old(c),
                        single_value_samples(ts, nm, tg, value),
                    ),
                    MetricValue::StringSet { values } => encode_post(
                        *final(c),
                        *old(c),
                        single_value_samples(ts, nm, tg, set_value(values@.len() as int, expired)),
                    ),
                    MetricValue::Distribution { values, sample_rates, statistic } => match statistic {
                        StatisticKind::Histogram => encode_post(
                            *final(c),
                            *old(c),
                            hist_samples(ts, nm, tg, buckets@, values@, sample_rates@),
                        ),
                        StatisticKind::Summary => if sum_rates(sample_rates@) == 0 {
                            encode_post(*final(c), *old(c), summary_empty_samples(ts, nm, tg))
                        } else {
                            exists|st: DistributionStatistic|
                                #[trigger] stat_ok(values@, sample_rates@, quantiles@, st)
                                    && encode_post(
                                    *final(c),
                                    *old(c),
                                    summary_stat_samples(ts, nm, tg, st),
                                )
                        },
                    },
                    MetricValue::AggregatedHistogram { buckets: mb, counts, count, sum } => encode_post(
                        *final(c),
                        *old(c),
                        agg_hist_samples(ts, nm, tg, mb@, counts@, count, sum),
                    ),
                    MetricValue::AggregatedSummary { quantiles: mq, values, count, sum } => encode_post(
                        *final(c),
                        *old(c),
                        agg_summary_samples(ts, nm, tg, mq@, values@, count, sum),
                    ),
                },
            }
        }),
{
    let name_string = encode_namespace(namespace, '_', metric.name.as_str());
    let name = name_string.as_str();
    let timestamp: i64 = match &metric.timestamp {
        Option::Some(t) => *t,
        Option::None => 0,
    };
    if metric.kind.is_absolute() {
        let tags = &metric.tags;
        match &metric.value {
            MetricValue::Counter { value } => {
                emit_single(c, timestamp, name, tags, *value);
            },
            MetricValue::Gauge { value } => {
                emit_single(c, timestamp, name, tags, *value);
            },
            MetricValue::StringSet { values } => {
                let card = values.len();
                let v = if expired {
                    Num { mant: 0, scale: 0 }
                } else {
                    Num { mant: card as i64, scale: 0 }
                };
                proof {
                    assert(v == set_value(card as int, expired));
                }
                emit_single(c, timestamp, name, tags, v);
            },
            MetricValue::Distribution { values, sample_rates, statistic: StatisticKind::Histogram } => {
                encode_hist_frame(c, timestamp, name, tags, buckets, values, sample_rates);
            },
            MetricValue::Distribution { values, sample_rates, statistic: StatisticKind::Summary } => {
                encode_summary_frame(c, timestamp, name, tags, values, sample_rates, quantiles);
            },
            MetricValue::AggregatedHistogram { buckets: mb, counts, count, sum } => {
                encode_agg_hist_frame(c, timestamp, name, tags, mb, counts, *count, *sum);
            },
            MetricValue::AggregatedSummary { quantiles: mq, values, count, sum } => {
                encode_agg_summary_frame(c, timestamp, name, tags, mq, values, *count, *sum);
            },
        }
    }
}


/// Histogram cumulative property: along ascending bounds the emitted bucket
/// values never decrease, and the +Inf sentinel carries the total weight of
/// all samples.
pub proof fn lemma_histogram_cumulative(
    ts: int,
    name: Seq<char>,
    tags: Option<Seq<(Seq<char>, Seq<char>)>>,
    buckets: Seq<Num>,
    values: Seq<Num>,
    rates: Seq<u64>,
    i: int,
    j: int,
)
    requires
        ascending(buckets),
        values.len() == rates.len(),
        sum_rates(rates) <= i64::MAX,
        0 <= i <= j < buckets.len(),
    ensures
        ({
            let ss = hist_samples(ts, name, tags, buckets, values, rates);
            &&& ss[i].value.mant <= ss[j].value.mant
            &&& ss[j].value.mant <= ss[buckets.len() as int].value.mant
            &&& ss[buckets.len() as int].value == (Num {
                mant: sum_rates(rates) as i64,
                scale: 0u32,
            })
        }),
{
    lemma_hist_count_bounds(values, rates, buckets[i]);
    lemma_hist_count_bounds(values, rates, buckets[j]);
    if i < j {
        assert(crate::num::num_lt(buckets[i], buckets[j]));
        crate::num::lemma_num_le_total(buckets[i], buckets[j]);
        lemma_hist_count_monotone(values, rates, buckets[i], buckets[j]);
    }
}

/// Re-encoding is deterministic, and tag order cannot show through: two
/// samples that differ only in the order of their tag pairs render to the
/// same line.
pub proof fn lemma_line_order_independent(s1: SampleData, s2: SampleData)
    requires
        s1.tags is Some,
        s2.tags is Some,
        s1.tags.unwrap().to_multiset() == s2.tags.unwrap().to_multiset(),
        s1.name == s2.name,
        s1.suffix == s2.suffix,
        s1.value == s2.value,
        s1.extra == s2.extra,
    ensures
        line_of(s1) == line_of(s2),
{
    crate::render::lemma_tags_order_independent(s1.tags.unwrap(), s2.tags.unwrap(), s1.extra);
}

} // verus!
