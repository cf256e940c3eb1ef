//! Decimal numbers: the numeric values carried by metric samples.
//!
//! A `Num` is `mant / 10^scale`. The type covers every value the wire format
//! has to print (bucket bounds, quantiles, sums, counts) while staying within
//! integer arithmetic, so ordering, accumulation and text rendering are all
//! proved. Rendering strips trailing fractional zeros, which gives the compact
//! form the format asks for: an integral value never prints a decimal point.

use vstd::prelude::*;

verus! {

/// Largest scale (number of fractional digits) a well-formed `Num` may carry.
/// `10^18` still fits in an `i64`/`u64`, so cross-multiplied comparisons fit
/// in an `i128`.
pub const MAX_SCALE: u32 = 18;

/// A decimal number `mant / 10^scale`.
#[derive(Clone, Copy, PartialEq, Eq, Structural, Debug)]
pub struct Num {
    pub mant: i64,
    pub scale: u32,
}

pub open spec fn pow10(e: nat) -> nat
    decreases e,
{
    if e == 0 {
        1
    } else {
        10 * pow10((e - 1) as nat)
    }
}

pub proof fn lemma_pow10_pos(e: nat)
    ensures
        pow10(e) >= 1,
    decreases e,
{
    if e > 0 {
        lemma_pow10_pos((e - 1) as nat);
    }
}

pub proof fn lemma_pow10_monotone(a: nat, b: nat)
    requires
        a <= b,
    ensures
        pow10(a) <= pow10(b),
    decreases b,
{
    if a < b {
        lemma_pow10_monotone(a, (b - 1) as nat);
        lemma_pow10_pos((b - 1) as nat);
    }
}

pub proof fn lemma_pow10_18()
    ensures
        pow10(18) == 1000000000000000000,
{
    reveal_with_fuel(pow10, 19);
}

impl Num {
    /// Well-formed numbers: the scale is capped so comparisons cannot
    /// overflow, and the mantissa can be negated.
    pub open spec fn wf(self) -> bool {
        self.scale <= MAX_SCALE && self.mant != i64::MIN
    }

    pub fn new(mant: i64, scale: u32) -> (r: Num)
        requires
            scale <= MAX_SCALE,
            mant != i64::MIN,
        ensures
            r == (Num { mant, scale }),
            r.wf(),
    {
        Num { mant, scale }
    }

}

/// `a <= b` as values: compare the mantissas brought to a common scale.
pub open spec fn num_le(a: Num, b: Num) -> bool {
    a.mant * pow10(b.scale as nat) <= b.mant * pow10(a.scale as nat)
}

pub open spec fn num_lt(a: Num, b: Num) -> bool {
    !num_le(b, a)
}

/// Equal as values (representations may differ, e.g. `10/10^0` and `100/10^1`).
pub open spec fn num_eq(a: Num, b: Num) -> bool {
    a.mant * pow10(b.scale as nat) == b.mant * pow10(a.scale as nat)
}

pub proof fn lemma_mul_bound(x: int, y: int, a: int, b: int)
    by (nonlinear_arith)
    requires
        -a <= x <= a,
        0 <= y <= b,
        0 <= a,
    ensures
        -(a * b) <= x * y <= a * b,
{
}

proof fn lemma_cross_trans(am: int, pa: int, bm: int, pb: int, cm: int, pc: int)
    by (nonlinear_arith)
    requires
        pa >= 1,
        pb >= 1,
        pc >= 1,
        am * pb <= bm * pa,
        bm * pc <= cm * pb,
    ensures
        am * pc <= cm * pa,
{
}

/// The value order is transitive.
pub proof fn lemma_num_le_trans(a: Num, b: Num, c: Num)
    requires
        num_le(a, b),
        num_le(b, c),
    ensures
        num_le(a, c),
{
    lemma_pow10_pos(a.scale as nat);
    lemma_pow10_pos(b.scale as nat);
    lemma_pow10_pos(c.scale as nat);
    lemma_cross_trans(
        a.mant as int,
        pow10(a.scale as nat) as int,
        b.mant as int,
        pow10(b.scale as nat) as int,
        c.mant as int,
        pow10(c.scale as nat) as int,
    );
}

/// Any two values are comparable.
pub proof fn lemma_num_le_total(a: Num, b: Num)
    ensures
        num_le(a, b) || num_le(b, a),
{
}

pub fn pow10_u64(e: u32) -> (r: u64)
    requires
        e <= MAX_SCALE,
    ensures
        r == pow10(e as nat),
{
    let mut r: u64 = 1;
    let mut i: u32 = 0;
    while i < e
        invariant
            i <= e <= MAX_SCALE,
            r == pow10(i as nat),
        decreases e - i,
    {
        proof {
            lemma_pow10_monotone((i + 1) as nat, 18);
            lemma_pow10_18();
        }
        r = r * 10;
        i = i + 1;
    }
    r
}

/// Decide `num_le` executably.
pub fn le(a: Num, b: Num) -> (r: bool)
    requires
        a.wf(),
        b.wf(),
    ensures
        r == num_le(a, b),
{
    let pa = pow10_u64(a.scale);
    let pb = pow10_u64(b.scale);
    proof {
        lemma_pow10_monotone(a.scale as nat, 18);
        lemma_pow10_monotone(b.scale as nat, 18);
        lemma_pow10_18();
        lemma_mul_bound(a.mant as int, pb as int, i64::MAX as int, pow10(18) as int);
        lemma_mul_bound(b.mant as int, pa as int, i64::MAX as int, pow10(18) as int);
    }
    let l: i128 = (a.mant as i128) * (pb as i128);
    let r: i128 = (b.mant as i128) * (pa as i128);
    l <= r
}

/// Decide `num_lt` executably.
pub fn lt(a: Num, b: Num) -> (r: bool)
    requires
        a.wf(),
        b.wf(),
    ensures
        r == num_lt(a, b),
{
    !le(b, a)
}

// --- text rendering -------------------------------------------------------

pub open spec fn abs_mant(m: int) -> nat {
    if m < 0 {
        (-m) as nat
    } else {
        m as nat
    }
}

/// Mantissa after stripping trailing zero fractional digits.
pub open spec fn strip_m(a: nat, s: nat) -> nat
    decreases s,
{
    if s > 0 && a % 10 == 0 {
        strip_m(a / 10, (s - 1) as nat)
    } else {
        a
    }
}

/// Scale after stripping trailing zero fractional digits.
pub open spec fn strip_s(a: nat, s: nat) -> nat
    decreases s,
{
    if s > 0 && a % 10 == 0 {
        strip_s(a / 10, (s - 1) as nat)
    } else {
        s
    }
}

pub open spec fn digit_char(d: nat) -> char {
    if d == 0 {
        '0'
    } else if d == 1 {
        '1'
    } else if d == 2 {
        '2'
    } else if d == 3 {
        '3'
    } else if d == 4 {
        '4'
    } else if d == 5 {
        '5'
    } else if d == 6 {
        '6'
    } else if d == 7 {
        '7'
    } else if d == 8 {
        '8'
    } else {
        '9'
    }
}

/// Decimal digits of `a`, most significant first, at least one digit.
pub open spec fn dec_digits(a: nat) -> Seq<char>
    decreases a,
{
    if a < 10 {
        seq![digit_char(a)]
    } else {
        dec_digits(a / 10).push(digit_char(a % 10))
    }
}

/// Exactly `s` digits of `a`, most significant first, zero-padded on the left.
pub open spec fn frac_digits(a: nat, s: nat) -> Seq<char>
    decreases s,
{
    if s == 0 {
        Seq::empty()
    } else {
        frac_digits(a / 10, (s - 1) as nat).push(digit_char(a % 10))
    }
}

/// The text of a `Num`: sign, integer digits, and a fractional part only when
/// one remains after stripping trailing zeros. `10/10^1` renders as "1",
/// `100/10^1` as "10", `-11/10^1` as "-1.1", `1/10^2` as "0.01".
pub open spec fn spec_fmt(n: Num) -> Seq<char> {
    let a0 = abs_mant(n.mant as int);
    let a = strip_m(a0, n.scale as nat);
    let s = strip_s(a0, n.scale as nat);
    let sign: Seq<char> = if n.mant < 0 {
        seq!['-']
    } else {
        Seq::empty()
    };
    if s == 0 {
        sign + dec_digits(a)
    } else {
        sign + dec_digits(a / pow10(s)) + seq!['.'] + frac_digits(a % pow10(s), s)
    }
}

/// Relies on `String::push`: appends exactly the given character.
#[verifier::external_body]
pub(crate) fn push_char(s: &mut String, c: char)
    ensures
        final(s)@ == old(s)@.push(c),
{
    s.push(c);
}

fn digit_to_char(d: u64) -> (c: char)
    requires
        d < 10,
    ensures
        c == digit_char(d as nat),
{
    if d == 0 {
        '0'
    } else if d == 1 {
        '1'
    } else if d == 2 {
        '2'
    } else if d == 3 {
        '3'
    } else if d == 4 {
        '4'
    } else if d == 5 {
        '5'
    } else if d == 6 {
        '6'
    } else if d == 7 {
        '7'
    } else if d == 8 {
        '8'
    } else {
        '9'
    }
}

fn push_digits(out: &mut String, a: u64)
    ensures
        final(out)@ == old(out)@ + dec_digits(a as nat),
    decreases a,
{
    if a < 10 {
        push_char(out, digit_to_char(a));
        assert(final(out)@ =~= old(out)@ + dec_digits(a as nat));
    } else {
        push_digits(out, a / 10);
        push_char(out, digit_to_char(a % 10));
        assert(final(out)@ =~= old(out)@ + dec_digits(a as nat));
    }
}

fn push_frac(out: &mut String, a: u64, s: u32)
    ensures
        final(out)@ == old(out)@ + frac_digits(a as nat, s as nat),
    decreases s,
{
    if s == 0 {
        assert(final(out)@ =~= old(out)@ + frac_digits(a as nat, 0));
    } else {
        push_frac(out, a / 10, s - 1);
        push_char(out, digit_to_char(a % 10));
        assert(final(out)@ =~= old(out)@ + frac_digits(a as nat, s as nat));
    }
}

impl Num {
    /// Render the number as its compact decimal text.
    pub fn to_text(self) -> (r: String)
        requires
            self.wf(),
        ensures
            r@ == spec_fmt(self),
    {
        let ghost a0 = abs_mant(self.mant as int);
        let neg = self.mant < 0;
        let mut a: u64 = if neg {
            (-self.mant) as u64
        } else {
            self.mant as u64
        };
        let mut s: u32 = self.scale;
        while s > 0 && a % 10 == 0
            invariant
                s <= MAX_SCALE,
                strip_m(a0, self.scale as nat) == strip_m(a as nat, s as nat),
                strip_s(a0, self.scale as nat) == strip_s(a as nat, s as nat),
            decreases s,
        {
            a = a / 10;
            s = s - 1;
        }
        let mut out = String::new();
        if neg {
            push_char(&mut out, '-');
        }
        if s == 0 {
            push_digits(&mut out, a);
        } else {
            let p = pow10_u64(s);
            proof {
                lemma_pow10_pos(s as nat);
            }
            push_digits(&mut out, a / p);
            push_char(&mut out, '.');
            push_frac(&mut out, a % p, s);
        }
        proof {
            assert(out@ =~= spec_fmt(self));
        }
        out
    }
}

/// Appending a trailing fractional zero to a representation does not change
/// its text: `mant * 10` at `scale + 1` renders as `mant` at `scale` does.
/// In particular an integral value never shows a decimal point.
pub proof fn lemma_fmt_collapses_trailing_zero(n: Num, w: Num)
    requires
        n.wf(),
        w.wf(),
        w.scale == n.scale + 1,
        w.mant == n.mant * 10,
    ensures
        spec_fmt(w) == spec_fmt(n),
{
    let a0 = abs_mant(n.mant as int);
    let w0 = abs_mant(w.mant as int);
    assert(w0 == a0 * 10) by (nonlinear_arith)
        requires
            w.mant == n.mant * 10,
            a0 == abs_mant(n.mant as int),
            w0 == abs_mant(w.mant as int),
    ;
    assert((a0 * 10) % 10 == 0 && (a0 * 10) / 10 == a0) by (nonlinear_arith);
    assert(strip_m(w0, w.scale as nat) == strip_m(a0, n.scale as nat));
    assert(strip_s(w0, w.scale as nat) == strip_s(a0, n.scale as nat));
    assert((w.mant < 0) == (n.mant < 0)) by (nonlinear_arith)
        requires
            w.mant == n.mant * 10,
    ;
}

} // verus!
