//! The weighted-statistic routine behind summary encoding: total weight,
//! weighted sum, minimum, maximum, average, and per-quantile values over a
//! weighted sample set. The encoder treats it as a collaborator and depends
//! only on the boundary stated here: exact totals and extrema, an average
//! within one unit in the last place of the true quotient, and quantile
//! values drawn from the samples themselves.

use vstd::prelude::*;
use crate::num::{Num, num_le, pow10, abs_mant, MAX_SCALE, le, pow10_u64};
use crate::num::{lemma_pow10_pos, lemma_pow10_monotone, lemma_pow10_18};
use crate::metric::{
    sum_rates, max_scale, wsum, wsum_fits, all_wf, lemma_sum_rates_nonneg, lemma_sum_rates_take,
    lemma_max_scale_ge,
};

verus! {

/// The statistics computed over one weighted sample set.
pub struct DistributionStatistic {
    /// `(quantile, value)` pairs, one per requested quantile.
    pub quantiles: Vec<(Num, Num)>,
    pub sum: Num,
    pub count: u64,
    pub min: Num,
    pub max: Num,
    pub avg: Num,
}

/// Smallest value among samples with positive weight, earliest on ties.
pub open spec fn min_sample(values: Seq<Num>, rates: Seq<u64>) -> Option<Num>
    decreases values.len(),
{
    if values.len() == 0 {
        Option::None
    } else {
        let m = min_sample(values.drop_last(), rates.drop_last());
        if rates.last() == 0 {
            m
        } else {
            match m {
                Option::None => Option::Some(values.last()),
                Option::Some(x) => if num_le(x, values.last()) {
                    Option::Some(x)
                } else {
                    Option::Some(values.last())
                },
            }
        }
    }
}

/// Largest value among samples with positive weight, earliest on ties.
pub open spec fn max_sample(values: Seq<Num>, rates: Seq<u64>) -> Option<Num>
    decreases values.len(),
{
    if values.len() == 0 {
        Option::None
    } else {
        let m = max_sample(values.drop_last(), rates.drop_last());
        if rates.last() == 0 {
            m
        } else {
            match m {
                Option::None => Option::Some(values.last()),
                Option::Some(x) => if num_le(values.last(), x) {
                    Option::Some(x)
                } else {
                    Option::Some(values.last())
                },
            }
        }
    }
}

/// The division identity at `avg`'s scale, with a remainder smaller than the
/// divisor; the scale was extended until the division came out exact, the
/// scale cap was reached, or the mantissa ran out of room for another digit.
pub open spec fn div_rem_ok(avg: Num, sum: Num, count: u64, rem: int) -> bool {
    &&& avg.mant * count + rem == sum.mant * pow10((avg.scale - sum.scale) as nat)
    &&& if sum.mant >= 0 {
        0 <= rem < count
    } else {
        -(count as int) < rem <= 0
    }
    &&& (rem == 0 || avg.scale == MAX_SCALE || abs_mant(avg.mant as int) > (i64::MAX - 9) / 10)
}

/// `avg` is the quotient `sum / count` carried out to `avg.scale` digits.
pub open spec fn avg_ok(avg: Num, sum: Num, count: u64) -> bool {
    &&& avg.wf()
    &&& avg.scale >= sum.scale
    &&& exists|rem: int| #[trigger] div_rem_ok(avg, sum, count, rem)
}

/// What the routine promises of a returned statistic.
pub open spec fn stat_ok(
    values: Seq<Num>,
    rates: Seq<u64>,
    qs: Seq<Num>,
    st: DistributionStatistic,
) -> bool {
    &&& st.count == sum_rates(rates)
    &&& st.sum == (Num { mant: wsum(values, rates, max_scale(values)) as i64, scale: max_scale(values) as u32 })
    &&& st.sum.wf()
    &&& Option::Some(st.min) == min_sample(values, rates)
    &&& Option::Some(st.max) == max_sample(values, rates)
    &&& st.min.wf()
    &&& st.max.wf()
    &&& avg_ok(st.avg, st.sum, st.count)
    &&& st.quantiles@.len() == qs.len()
    &&& (forall|j: int| 0 <= j < qs.len() ==> (#[trigger] st.quantiles@[j]).0 == qs[j])
    &&& (forall|j: int|
        0 <= j < qs.len() ==> (#[trigger] st.quantiles@[j]).1.wf() && exists|i: int|
            0 <= i < values.len() && rates[i] > 0 && values[i] == st.quantiles@[j].1)
}

/// Total weight of the samples.
pub fn weight_total(rates: &Vec<u64>) -> (r: u64)
    requires
        sum_rates(rates@) <= i64::MAX,
    ensures
        r == sum_rates(rates@),
{
    let mut total: u64 = 0;
    let mut i: usize = 0;
    while i < rates.len()
        invariant
            i <= rates@.len(),
            sum_rates(rates@) <= i64::MAX,
            total == sum_rates(rates@.take(i as int)),
        decreases rates@.len() - i,
    {
        proof {
            assert(rates@.take(i + 1).drop_last() =~= rates@.take(i as int));
            assert(rates@.take(i + 1).last() == rates@[i as int]);
            lemma_sum_rates_take(rates@, i + 1);
            lemma_sum_rates_nonneg(rates@.take(i as int));
        }
        total = total + rates[i];
        i = i + 1;
    }
    proof {
        assert(rates@.take(rates@.len() as int) =~= rates@);
    }
    total
}

/// The common scale of a value sequence.
pub fn common_scale(values: &Vec<Num>) -> (r: u32)
    requires
        all_wf(values@),
    ensures
        r as nat == max_scale(values@),
        r <= MAX_SCALE,
{
    let mut r: u32 = 0;
    let mut i: usize = 0;
    while i < values.len()
        invariant
            i <= values@.len(),
            all_wf(values@),
            r as nat == max_scale(values@.take(i as int)),
            r <= MAX_SCALE,
        decreases values@.len() - i,
    {
        proof {
            assert(values@.take(i + 1).drop_last() =~= values@.take(i as int));
            assert(values@.take(i + 1).last() == values@[i as int]);
        }
        if values[i].scale > r {
            r = values[i].scale;
        }
        i = i + 1;
    }
    proof {
        assert(values@.take(values@.len() as int) =~= values@);
    }
    r
}

/// The weighted sum of the samples, at their common scale.
pub fn weighted_sum(values: &Vec<Num>, rates: &Vec<u64>) -> (r: Num)
    requires
        values@.len() == rates@.len(),
        all_wf(values@),
        wsum_fits(values@, rates@, max_scale(values@)),
    ensures
        r == (Num { mant: wsum(values@, rates@, max_scale(values@)) as i64, scale: max_scale(values@) as u32 }),
        r.wf(),
{
    let ghost gs = max_scale(values@);
    let s = common_scale(values);
    let mut acc: i64 = 0;
    let mut i: usize = 0;
    proof {
        assert(values@.take(0) =~= Seq::<Num>::empty());
        assert(rates@.take(0) =~= Seq::<u64>::empty());
    }
    while i < values.len()
        invariant
            i <= values@.len(),
            values@.len() == rates@.len(),
            all_wf(values@),
            wsum_fits(values@, rates@, gs),
            gs == max_scale(values@),
            s as nat == gs,
            s <= MAX_SCALE,
            acc == wsum(values@.take(i as int), rates@.take(i as int), gs),
        decreases values@.len() - i,
    {
        let v = values[i];
        let w = rates[i];
        proof {
            lemma_max_scale_ge(values@, i as int);
            lemma_pow10_monotone((s - v.scale) as nat, 18);
            lemma_pow10_18();
        }
        let p = pow10_u64(s - v.scale);
        proof {
            crate::num::lemma_mul_bound(
                v.mant as int,
                p as int,
                i64::MAX as int,
                pow10(18) as int,
            );
        }
        let t1: i128 = (v.mant as i128) * (p as i128);
        proof {
            assert(values@.take(i + 1).drop_last() =~= values@.take(i as int));
            assert(rates@.take(i + 1).drop_last() =~= rates@.take(i as int));
            assert(values@.take(i + 1).last() == values@[i as int]);
            assert(rates@.take(i + 1).last() == rates@[i as int]);
            assert(wsum(values@.take(i + 1), rates@.take(i + 1), gs) == wsum(
                values@.take(i as int),
                rates@.take(i as int),
                gs,
            ) + v.mant * pow10((gs - v.scale) as nat) * w);
            assert(t1 * w == wsum(values@.take(i + 1), rates@.take(i + 1), gs) - wsum(
                values@.take(i as int),
                rates@.take(i as int),
                gs,
            ));
        }
        let t: i128 = t1 * (w as i128);
        let n: i128 = (acc as i128) + t;
        proof {
            assert(n == wsum(values@.take(i + 1), rates@.take(i + 1), gs));
            assert(-(i64::MAX as int) <= n <= i64::MAX as int);
        }
        acc = n as i64;
        i = i + 1;
    }
    proof {
        assert(values@.take(values@.len() as int) =~= values@);
        assert(rates@.take(rates@.len() as int) =~= rates@);
    }
    Num { mant: acc, scale: s }
}

/// Divide a decimal by a whole count, extending the scale while digits remain
/// and the mantissa has room.
pub fn div_decimal(sum: Num, count: u64) -> (r: Num)
    requires
        sum.wf(),
        0 < count <= i64::MAX,
    ensures
        avg_ok(r, sum, count),
{
    let neg = sum.mant < 0;
    let a: u64 = if neg {
        (-sum.mant) as u64
    } else {
        sum.mant as u64
    };
    let mut q: u64 = a / count;
    let mut rem: u64 = a % count;
    let mut s: u32 = sum.scale;
    proof {
        assert(q * count + rem == a * pow10((s - sum.scale) as nat)) by {
            vstd::arithmetic::div_mod::lemma_fundamental_div_mod(a as int, count as int);
            assert(pow10(0) == 1);
            assert(a * 1 == a) by (nonlinear_arith);
        }
    }
    while rem != 0 && s < MAX_SCALE && q <= ((i64::MAX as u64) - 9) / 10
        invariant
            sum.scale <= s <= MAX_SCALE,
            rem < count,
            q <= i64::MAX as u64,
            count > 0,
            q * count + rem == a * pow10((s - sum.scale) as nat),
        decreases MAX_SCALE - s,
    {
        let r10: u128 = (rem as u128) * 10;
        let d128: u128 = r10 / (count as u128);
        let r128: u128 = r10 % (count as u128);
        proof {
            vstd::arithmetic::div_mod::lemma_fundamental_div_mod(r10 as int, count as int);
            assert(r10 == count * d128 + r128);
            assert(count * d128 == d128 * count) by (nonlinear_arith);
            assert(d128 * count + r128 == r10);
            assert(r10 < 10 * count) by (nonlinear_arith)
                requires
                    rem < count,
                    r10 == rem * 10,
            ;
            assert(d128 <= 9) by (nonlinear_arith)
                requires
                    d128 * count + r128 == r10,
                    r128 >= 0,
                    r10 < 10 * count,
                    count > 0,
                    d128 >= 0,
            ;
            assert(r128 < count);
        }
        let d: u64 = d128 as u64;
        let r2: u64 = r128 as u64;
        proof {
            assert(q * 10 <= i64::MAX - 9) by (nonlinear_arith)
                requires
                    q <= ((i64::MAX as u64) - 9) / 10,
            ;
            assert((q * 10 + d) * count + r2 == a * pow10((s + 1 - sum.scale) as nat))
                by (nonlinear_arith)
                requires
                    q * count + rem == a * pow10((s - sum.scale) as nat),
                    d * count + r2 == rem * 10,
                    pow10((s + 1 - sum.scale) as nat) == 10 * pow10((s - sum.scale) as nat),
                    s >= sum.scale,
            ;
        }
        q = q * 10 + d;
        rem = r2;
        s = s + 1;
    }
    let m: i64 = if neg {
        -(q as i64)
    } else {
        q as i64
    };
    let r = Num { mant: m, scale: s };
    proof {
        let k = (s - sum.scale) as nat;
        assert(abs_mant(m as int) == q);
        if neg {
            let remw: int = -(rem as int);
            assert(m == -(q as int));
            assert(sum.mant == -(a as int));
            assert(m * count + remw == sum.mant * pow10(k)) by (nonlinear_arith)
                requires
                    q * count + rem == a * pow10(k),
                    m == -(q as int),
                    sum.mant == -(a as int),
                    remw == -(rem as int),
            ;
            assert(div_rem_ok(r, sum, count, remw));
            assert(avg_ok(r, sum, count));
        } else {
            let remw: int = rem as int;
            assert(m * count + remw == sum.mant * pow10(k));
            assert(div_rem_ok(r, sum, count, remw));
            assert(avg_ok(r, sum, count));
        }
    }
    r
}

// --- quantile selection -----------------------------------------------------

/// Every pair is one of the positive-weight samples.
pub open spec fn from_samples(pairs: Seq<(Num, u64)>, values: Seq<Num>, rates: Seq<u64>) -> bool {
    forall|k: int|
        0 <= k < pairs.len() ==> exists|i: int|
            0 <= i < values.len() && (#[trigger] pairs[k]).0 == values[i] && pairs[k].1 == rates[i]
                && rates[i] > 0
}

fn positive_pairs(values: &Vec<Num>, rates: &Vec<u64>) -> (r: Vec<(Num, u64)>)
    requires
        values@.len() == rates@.len(),
    ensures
        from_samples(r@, values@, rates@),
        sum_rates(rates@) > 0 ==> r@.len() > 0,
{
    let mut r: Vec<(Num, u64)> = Vec::new();
    let mut i: usize = 0;
    while i < values.len()
        invariant
            i <= values@.len(),
            values@.len() == rates@.len(),
            from_samples(r@, values@, rates@),
            r@.len() == 0 ==> sum_rates(rates@.take(i as int)) == 0,
        decreases values@.len() - i,
    {
        proof {
            assert(rates@.take(i + 1).drop_last() =~= rates@.take(i as int));
            assert(rates@.take(i + 1).last() == rates@[i as int]);
        }
        if rates[i] > 0 {
            r.push((values[i], rates[i]));
        }
        i = i + 1;
    }
    proof {
        assert(rates@.take(rates@.len() as int) =~= rates@);
    }
    r
}

/// Order pairs by value, smallest first; the result draws its elements from
/// the input.
fn sort_pairs(v: Vec<(Num, u64)>) -> (r: Vec<(Num, u64)>)
    requires
        forall|k: int| 0 <= k < v@.len() ==> (#[trigger] v@[k]).0.wf(),
    ensures
        r@.len() == v@.len(),
        forall|k: int| 0 <= k < r@.len() ==> v@.contains(#[trigger] r@[k]),
{
    let ghost orig = v@;
    let mut src = v;
    let mut out: Vec<(Num, u64)> = Vec::new();
    proof {
        assert forall|k: int| 0 <= k < src@.len() implies orig.contains(#[trigger] src@[k]) by {
            assert(orig[k] == src@[k]);
        }
    }
    while src.len() > 0
        invariant
            out@.len() + src@.len() == orig.len(),
            forall|k: int| 0 <= k < src@.len() ==> orig.contains(#[trigger] src@[k]),
            forall|k: int| 0 <= k < out@.len() ==> orig.contains(#[trigger] out@[k]),
            forall|k: int| 0 <= k < src@.len() ==> (#[trigger] src@[k]).0.wf(),
        decreases src@.len(),
    {
        let mut m: usize = 0;
        let mut j: usize = 1;
        while j < src.len()
            invariant
                m < j,
                j <= src@.len(),
                src@.len() > 0,
                forall|k: int| 0 <= k < src@.len() ==> (#[trigger] src@[k]).0.wf(),
            decreases src@.len() - j,
        {
            if le(src[j].0, src[m].0) {
                m = j;
            }
            j = j + 1;
        }
        let ghost src0 = src@;
        let ghost out0 = out@;
        let x = src.remove(m);
        out.push(x);
        proof {
            assert forall|k: int| 0 <= k < src@.len() implies orig.contains(
                #[trigger] src@[k],
            ) by {
                if k < m {
                    assert(src@[k] == src0[k]);
                } else {
                    assert(src@[k] == src0[k + 1]);
                }
            }
            assert forall|k: int| 0 <= k < out@.len() implies orig.contains(
                #[trigger] out@[k],
            ) by {
                if k < out0.len() {
                    assert(out@[k] == out0[k]);
                } else {
                    assert(out@[k] == src0[m as int]);
                }
            }
            assert forall|k: int| 0 <= k < src@.len() implies (#[trigger] src@[k]).0.wf() by {
                if k < m {
                    assert(src@[k] == src0[k]);
                } else {
                    assert(src@[k] == src0[k + 1]);
                }
            }
        }
    }
    out
}

/// The value covering the given rank in the weight-expanded ordering.
fn select_rank(sorted: &Vec<(Num, u64)>, rank: u64) -> (r: Num)
    requires
        sorted@.len() > 0,
    ensures
        exists|k: int| 0 <= k < sorted@.len() && (#[trigger] sorted@[k]).0 == r,
{
    let mut rr = rank;
    let mut i: usize = 0;
    while i < sorted.len()
        invariant
            i <= sorted@.len(),
        decreases sorted@.len() - i,
    {
        if rr < sorted[i].1 {
            return sorted[i].0;
        }
        rr = rr - sorted[i].1;
        i = i + 1;
    }
    sorted[sorted.len() - 1].0
}

/// The zero-based rank targeted by a quantile over `total` observations:
/// `round(q * (total - 1))`, clamped into range.
fn quantile_rank(q: Num, total: u64) -> (r: u64)
    requires
        q.wf(),
        total > 0,
    ensures
        r < total,
{
    if q.mant <= 0 {
        return 0;
    }
    let den = pow10_u64(q.scale);
    let half = den / 2;
    proof {
        lemma_pow10_pos(q.scale as nat);
        crate::num::lemma_mul_bound(
            q.mant as int,
            (total - 1) as int,
            i64::MAX as int,
            u64::MAX as int,
        );
    }
    let n: u128 = (q.mant as u128) * ((total - 1) as u128) + (half as u128);
    let r128: u128 = n / (den as u128);
    if r128 > (total - 1) as u128 {
        total - 1
    } else {
        r128 as u64
    }
}

/// Smallest and largest positive-weight sample values.
fn min_max(values: &Vec<Num>, rates: &Vec<u64>) -> (r: Option<(Num, Num)>)
    requires
        values@.len() == rates@.len(),
        all_wf(values@),
    ensures
        match r {
            Option::Some(p) => Option::Some(p.0) == min_sample(values@, rates@) && Option::Some(
                p.1,
            ) == max_sample(values@, rates@) && p.0.wf() && p.1.wf(),
            Option::None => min_sample(values@, rates@) is None && max_sample(values@, rates@) is None,
        },
{
    let mut cur: Option<(Num, Num)> = Option::None;
    let mut i: usize = 0;
    proof {
        assert(values@.take(0) =~= Seq::<Num>::empty());
        assert(rates@.take(0) =~= Seq::<u64>::empty());
    }
    while i < values.len()
        invariant
            i <= values@.len(),
            values@.len() == rates@.len(),
            all_wf(values@),
            match cur {
                Option::Some(p) => Option::Some(p.0) == min_sample(
                    values@.take(i as int),
                    rates@.take(i as int),
                ) && Option::Some(p.1) == max_sample(values@.take(i as int), rates@.take(i as int))
                    && p.0.wf() && p.1.wf(),
                Option::None => min_sample(values@.take(i as int), rates@.take(i as int)) is None
                    && max_sample(values@.take(i as int), rates@.take(i as int)) is None,
            },
        decreases values@.len() - i,
    {
        proof {
            assert(values@.take(i + 1).drop_last() =~= values@.take(i as int));
            assert(rates@.take(i + 1).drop_last() =~= rates@.take(i as int));
            assert(values@.take(i + 1).last() == values@[i as int]);
            assert(rates@.take(i + 1).last() == rates@[i as int]);
        }
        if rates[i] > 0 {
            let v = values[i];
            cur = match cur {
                Option::None => Option::Some((v, v)),
                Option::Some((mn, mx)) => {
                    let nmn = if le(mn, v) {
                        mn
                    } else {
                        v
                    };
                    let nmx = if le(v, mx) {
                        mx
                    } else {
                        v
                    };
                    Option::Some((nmn, nmx))
                },
            };
        }
        i = i + 1;
    }
    proof {
        assert(values@.take(values@.len() as int) =~= values@);
        assert(rates@.take(rates@.len() as int) =~= rates@);
    }
    cur
}

/// Positive total weight guarantees extrema exist.
proof fn lemma_extrema_exist(values: Seq<Num>, rates: Seq<u64>)
    requires
        values.len() == rates.len(),
        sum_rates(rates) > 0,
    ensures
        min_sample(values, rates) is Some,
        max_sample(values, rates) is Some,
    decreases values.len(),
{
    if values.len() > 0 {
        if rates.last() == 0 {
            lemma_extrema_exist(values.drop_last(), rates.drop_last());
        }
    }
}

/// Compute the statistics over one weighted sample set; nothing is returned
/// when the samples carry no weight at all.
pub fn distribution_statistic(
    values: &Vec<Num>,
    sample_rates: &Vec<u64>,
    quantiles: &Vec<Num>,
) -> (r: Option<DistributionStatistic>)
    requires
        values@.len() == sample_rates@.len(),
        all_wf(values@),
        all_wf(quantiles@),
        sum_rates(sample_rates@) <= i64::MAX,
        wsum_fits(values@, sample_rates@, max_scale(values@)),
    ensures
        r is Some <==> sum_rates(sample_rates@) > 0,
        match r {
            Option::Some(st) => stat_ok(values@, sample_rates@, quantiles@, st),
            Option::None => true,
        },
{
    let total = weight_total(sample_rates);
    proof {
        lemma_sum_rates_nonneg(sample_rates@);
    }
    if total == 0 {
        return Option::None;
    }
    let sum = weighted_sum(values, sample_rates);
    proof {
        lemma_extrema_exist(values@, sample_rates@);
    }
    let mm = min_max(values, sample_rates);
    let (mn, mx) = match mm {
        Option::Some(p) => p,
        Option::None => (Num { mant: 0, scale: 0 }, Num { mant: 0, scale: 0 }),
    };
    let avg = div_decimal(sum, total);
    let pairs = positive_pairs(values, sample_rates);
    let sorted = sort_pairs(pairs);
    let ghost vs = values@;
    let ghost rs = sample_rates@;
    proof {
        assert(sorted@.len() > 0);
        assert(from_samples(sorted@, vs, rs)) by {
            assert forall|k: int| 0 <= k < sorted@.len() implies exists|i: int|
                0 <= i < vs.len() && (#[trigger] sorted@[k]).0 == vs[i] && sorted@[k].1 == rs[i]
                    && rs[i] > 0 by {
                assert(pairs@.contains(sorted@[k]));
                let k2 = choose|k2: int| 0 <= k2 < pairs@.len() && pairs@[k2] == sorted@[k];
                assert(exists|i: int|
                    0 <= i < vs.len() && (#[trigger] pairs@[k2]).0 == vs[i] && pairs@[k2].1 == rs[i]
                        && rs[i] > 0);
            }
        }
    }
    let mut qv: Vec<(Num, Num)> = Vec::new();
    let mut j: usize = 0;
    while j < quantiles.len()
        invariant
            j <= quantiles@.len(),
            all_wf(quantiles@),
            all_wf(vs),
            sorted@.len() > 0,
            from_samples(sorted@, vs, rs),
            qv@.len() == j,
            forall|k: int| 0 <= k < j ==> (#[trigger] qv@[k]).0 == quantiles@[k],
            forall|k: int|
                0 <= k < j ==> (#[trigger] qv@[k]).1.wf() && exists|i: int|
                    0 <= i < vs.len() && rs[i] > 0 && vs[i] == qv@[k].1,
            total > 0,
        decreases quantiles@.len() - j,
    {
        let rank = quantile_rank(quantiles[j], total);
        let v = select_rank(&sorted, rank);
        proof {
            let k = choose|k: int| 0 <= k < sorted@.len() && (#[trigger] sorted@[k]).0 == v;
            assert(exists|i: int|
                0 <= i < vs.len() && (#[trigger] sorted@[k]).0 == vs[i] && sorted@[k].1 == rs[i]
                    && rs[i] > 0);
        }
        qv.push((quantiles[j], v));
        j = j + 1;
    }
    let st = DistributionStatistic { quantiles: qv, sum, count: total, min: mn, max: mx, avg };
    Option::Some(st)
}

} // verus!
