//! Exact decimal numbers: a signed mantissa together with a count of
//! fractional digits. A value is kept canonical (no trailing zero in the
//! fractional digits, and zero has scale zero), so two equal values are
//! field-for-field equal.

use vstd::prelude::*;
use vstd::arithmetic::power::{pow, lemma_pow_adds, lemma_pow_positive, lemma_pow0, lemma_pow1};
use vstd::arithmetic::mul::lemma_mul_equality_converse;
use vstd::arithmetic::div_mod::{
    lemma_fundamental_div_mod, lemma_fundamental_div_mod_converse, lemma_div_pos_is_pos,
    lemma_div_nonincreasing,
};

verus! {

/// Largest mantissa magnitude a decimal may carry.
pub const MANT_CAP: i128 = 1_000_000_000_000_000_000;

/// Largest number of fractional digits a decimal may carry.
pub const SCALE_CAP: u32 = 18;

/// Ten raised to the given power.
pub open spec fn pow10(e: nat) -> int {
    pow(10, e)
}

pub proof fn lemma_pow10_pos(e: nat)
    ensures
        pow10(e) >= 1,
{
    lemma_pow_positive(10, e);
}

/// The concrete value of `10^36`, by unfolding the power function.
pub proof fn lemma_pow10_36_value()
    ensures
        pow10(36) == 1_000_000_000_000_000_000_000_000_000_000_000_000,
{
    reveal_with_fuel(pow, 40);
}

/// The concrete value of `10^37`, by unfolding the power function.
pub proof fn lemma_pow10_37_value()
    ensures
        pow10(37) == 10_000_000_000_000_000_000_000_000_000_000_000_000,
{
    reveal_with_fuel(pow, 40);
}

/// `10` is `pow(10, 1)`.
proof fn lemma_pow10_unit()
    ensures
        pow(10, 1nat) == 10,
{
    lemma_pow1(10);
}

/// `pow10` on the first few exponents, as executable code.
pub fn pow10_exec(e: u32) -> (r: i128)
    requires
        e <= 36,
    ensures
        r == pow10(e as nat),
        r >= 1,
{
    let mut i: u32 = 0;
    let mut acc: i128 = 1;
    proof {
        lemma_pow0(10);
        lemma_pow10_36_value();
    }
    while i < e
        invariant
            i <= e <= 36,
            acc == pow10(i as nat),
            1 <= acc <= pow10(36),
        decreases e - i,
    {
        proof {
            lemma_pow10_pos(i as nat);
            lemma_pow_adds(10, i as nat, 1nat);
            lemma_pow_adds(10, (i + 1) as nat, (36 - i - 1) as nat);
            lemma_pow10_pos((36 - i - 1) as nat);
            lemma_pow10_unit();
            lemma_pow10_36_value();
            assert(pow10((i + 1) as nat) * pow10((36 - i - 1) as nat) == pow10(36));
            assert(pow10((i + 1) as nat) <= pow10(36)) by (nonlinear_arith)
                requires
                    pow10((i + 1) as nat) * pow10((36 - i - 1) as nat) == pow10(36),
                    pow10((i + 1) as nat) >= 1,
                    pow10((36 - i - 1) as nat) >= 1,
            ;
        }
        acc = acc * 10;
        i = i + 1;
    }
    acc
}

/// An exact decimal: the value `m / 10^s`.
#[derive(Clone, Copy, PartialEq, Eq, Structural, Debug)]
pub struct Dec {
    /// Mantissa.
    pub m: i128,
    /// Scale: the number of fractional digits.
    pub s: u32,
}

impl Dec {
    /// The numerator of the value, as a mathematical integer.
    pub open spec fn num(self) -> int {
        self.m as int
    }

    /// The denominator of the value: ten to the scale.
    pub open spec fn den(self) -> int {
        pow10(self.s as nat)
    }

    /// Bounds: mantissa magnitude and scale within the caps.
    pub open spec fn bounded(self) -> bool {
        &&& -MANT_CAP <= self.m <= MANT_CAP
        &&& self.s <= SCALE_CAP
    }

    /// Canonical form: no trailing fractional zero, and zero has scale zero.
    pub open spec fn canonical(self) -> bool {
        &&& (self.s > 0 ==> self.m % 10 != 0)
        &&& (self.m == 0 ==> self.s == 0)
    }

    /// A well-formed decimal is bounded and canonical.
    pub open spec fn wf(self) -> bool {
        self.bounded() && self.canonical()
    }

    /// Both decimals denote the same value.
    pub open spec fn same_value(self, other: Dec) -> bool {
        self.num() * other.den() == other.num() * self.den()
    }

}

/// Two well-formed decimals with the same value are equal.
pub proof fn lemma_canonical_unique(a: Dec, b: Dec)
    requires
        a.wf(),
        b.wf(),
        a.same_value(b),
    ensures
        a == b,
{
    if a.s == b.s {
        lemma_pow10_pos(a.s as nat);
        assert(pow10(a.s as nat) * a.m == pow10(a.s as nat) * b.m) by (nonlinear_arith)
            requires a.m * pow10(a.s as nat) == b.m * pow10(a.s as nat);
        lemma_mul_equality_converse(pow10(a.s as nat), a.m as int, b.m as int);
    } else {
        let (lo, hi) = if a.s < b.s { (a, b) } else { (b, a) };
        // lo.m * pow10(hi.s) == hi.m * pow10(lo.s), with lo.s < hi.s
        assert(lo.m * pow10(hi.s as nat) == hi.m * pow10(lo.s as nat));
        let d = (hi.s - lo.s) as nat;
        lemma_pow_adds(10, lo.s as nat, d);
        assert(pow10(hi.s as nat) == pow10(lo.s as nat) * pow10(d));
        lemma_pow10_pos(lo.s as nat);
        lemma_pow10_pos(d);
        assert(pow10(lo.s as nat) * (lo.m * pow10(d)) == pow10(lo.s as nat) * hi.m)
            by (nonlinear_arith)
            requires
                lo.m * pow10(hi.s as nat) == hi.m * pow10(lo.s as nat),
                pow10(hi.s as nat) == pow10(lo.s as nat) * pow10(d),
        ;
        lemma_mul_equality_converse(
            pow10(lo.s as nat),
            lo.m as int * pow10(d),
            hi.m as int,
        );
        assert(hi.m == lo.m * pow10(d));
        if lo.m == 0 {
            assert(hi.m == 0) by (nonlinear_arith)
                requires hi.m == lo.m * pow10(d), lo.m == 0int;
            assert(hi.s == 0 && lo.s == 0);
            assert(false);
        } else {
            // d >= 1, so 10 divides hi.m, contradicting canonicity of hi.
            lemma_pow_adds(10, 1nat, (d - 1) as nat);
            lemma_pow10_unit();
            assert(pow10(d) == 10 * pow10((d - 1) as nat));
            assert(hi.m == (lo.m * pow10((d - 1) as nat)) * 10) by (nonlinear_arith)
                requires hi.m == lo.m * (10 * pow10((d - 1) as nat));
            assert(hi.m % 10 == 0) by (nonlinear_arith)
                requires hi.m == (lo.m * pow10((d - 1) as nat)) * 10;
            lemma_pow10_pos(d);
            assert(hi.m != 0) by (nonlinear_arith)
                requires hi.m == lo.m * pow10(d), lo.m != 0, pow10(d) >= 1;
            assert(hi.s > 0);
            assert(false);
        }
    }
}

/// The canonical (mantissa magnitude, scale) pair of `mag / 10^s`:
/// trailing fractional zeros stripped, and zero at scale zero.
pub open spec fn canon_mag(mag: int, s: nat) -> (int, nat)
    decreases s,
{
    if s > 0 && mag % 10 == 0 {
        canon_mag(mag / 10, (s - 1) as nat)
    } else if mag == 0 {
        (0, 0)
    } else {
        (mag, s)
    }
}

/// The canonical decimal with value `sign * mag / 10^s`.
pub open spec fn canon_dec(neg: bool, mag: int, s: nat) -> Dec {
    let m = canon_mag(mag, s).0;
    Dec { m: (if neg { -m } else { m }) as i128, s: canon_mag(mag, s).1 as u32 }
}

/// The canonical decimal denotes the value it was built from, is well
/// formed, and keeps the sign.
pub proof fn lemma_canon_dec_value(neg: bool, mag: int, s: nat)
    requires
        0 <= mag <= MANT_CAP,
        s <= SCALE_CAP,
    ensures
        canon_dec(neg, mag, s).wf(),
        canon_dec(neg, mag, s).num() * pow10(s) == (if neg {
            -mag
        } else {
            mag
        }) * canon_dec(neg, mag, s).den(),
        canon_dec(neg, mag, s).m > 0 <==> (!neg && mag > 0),
        canon_dec(neg, mag, s).m < 0 <==> (neg && mag > 0),
    decreases s,
{
    if s > 0 && mag % 10 == 0 {
        lemma_fundamental_div_mod(mag, 10);
        lemma_canon_dec_value(neg, mag / 10, (s - 1) as nat);
        assert(canon_mag(mag, s) == canon_mag(mag / 10, (s - 1) as nat));
        let cd = canon_dec(neg, mag / 10, (s - 1) as nat);
        assert(canon_dec(neg, mag, s) == cd);
        lemma_pow_adds(10, (s - 1) as nat, 1nat);
        lemma_pow10_unit();
        lemma_pow10_pos((s - 1) as nat);
        assert(mag / 10 >= 0) by (nonlinear_arith)
            requires mag == 10 * (mag / 10), mag >= 0;
        assert(mag / 10 <= mag) by (nonlinear_arith)
            requires mag == 10 * (mag / 10), mag >= 0;
        assert(cd.num() * pow10(s) == (if neg { -mag } else { mag }) * cd.den())
            by (nonlinear_arith)
            requires
                cd.num() * pow10((s - 1) as nat) == (if neg { -(mag / 10) } else { mag / 10 })
                    * cd.den(),
                pow10(s) == pow10((s - 1) as nat) * 10,
                mag == 10 * (mag / 10),
        ;
        assert(mag / 10 > 0 <==> mag > 0) by (nonlinear_arith)
            requires mag == 10 * (mag / 10);
    } else {
        lemma_pow10_pos(s);
    }
}

/// Builds the canonical decimal with value `sign * mag / 10^s`.
pub fn canon(neg: bool, mag: i128, s: u32) -> (r: Dec)
    requires
        0 <= mag <= MANT_CAP,
        s <= SCALE_CAP,
    ensures
        r.wf(),
        r == canon_dec(neg, mag as int, s as nat),
        r.num() * pow10(s as nat) == (if neg { -mag } else { mag as int }) * r.den(),
        r.m > 0 <==> (!neg && mag > 0),
        r.m < 0 <==> (neg && mag > 0),
{
    let mut mm = mag;
    let mut ss = s;
    while ss > 0 && mm % 10 == 0
        invariant
            0 <= mm <= MANT_CAP,
            ss <= s,
            mm * pow10(s as nat) == mag * pow10(ss as nat),
            mm == 0 ==> mag == 0,
            mm > 0 <==> mag > 0,
            canon_mag(mag as int, s as nat) == canon_mag(mm as int, ss as nat),
        decreases ss,
    {
        proof {
            lemma_fundamental_div_mod(mm as int, 10);
            lemma_pow_adds(10, (ss - 1) as nat, 1nat);
            lemma_pow10_unit();
            assert(pow10(ss as nat) == pow10((ss - 1) as nat) * 10);
            lemma_pow10_pos((ss - 1) as nat);
            lemma_pow10_pos(s as nat);
            assert((mm / 10) * pow10(s as nat) == mag * pow10((ss - 1) as nat))
                by (nonlinear_arith)
                requires
                    mm == 10 * (mm / 10),
                    mm * pow10(s as nat) == mag * pow10(ss as nat),
                    pow10(ss as nat) == pow10((ss - 1) as nat) * 10,
            ;
            assert(mm / 10 > 0 <==> mm > 0) by (nonlinear_arith)
                requires mm == 10 * (mm / 10);
        }
        mm = mm / 10;
        ss = ss - 1;
    }
    let r = if mm == 0 {
        Dec { m: 0, s: 0 }
    } else if neg {
        Dec { m: -mm, s: ss }
    } else {
        Dec { m: mm, s: ss }
    };
    proof {
        lemma_pow10_pos(ss as nat);
        lemma_pow10_pos(s as nat);
        if mm == 0 {
            assert(mag * pow10(ss as nat) == 0);
            assert(mag == 0) by (nonlinear_arith)
                requires mag * pow10(ss as nat) == 0, pow10(ss as nat) >= 1, mag >= 0;
        } else if neg {
            assert((-mm) * pow10(s as nat) == (-mag) * pow10(ss as nat)) by (nonlinear_arith)
                requires mm * pow10(s as nat) == mag * pow10(ss as nat);
        }
    }
    r
}

/// The integer part of `a * 10^s / d`.
pub open spec fn floor_at(a: int, d: int, s: nat) -> int {
    (a * pow10(s)) / d
}

/// Climbs from scale `s` to the largest scale not above eighteen at
/// which the integer part still fits the mantissa cap.
pub open spec fn fit_scale_up(a: int, d: int, s: nat) -> nat
    decreases 18 - s,
{
    if s >= 18 {
        18
    } else if floor_at(a, d, (s + 1) as nat) > MANT_CAP {
        s
    } else {
        fit_scale_up(a, d, (s + 1) as nat)
    }
}

/// The scale `a / d` is rounded at: the largest scale not above
/// eighteen at which the mantissa fits the cap.
pub open spec fn quant_scale(a: int, d: int) -> nat {
    fit_scale_up(a, d, 0)
}

/// The rounded mantissa magnitude of `a / d` at its quantization
/// scale: half away from zero, except that in the corner where rounding
/// up would just exceed the cap the value is truncated instead.
pub open spec fn quant_mag(a: int, d: int) -> int {
    let s = quant_scale(a, d);
    let q = floor_at(a, d, s);
    if 2 * ((a * pow10(s)) % d) >= d && q < MANT_CAP {
        q + 1
    } else {
        q
    }
}

/// Quantization fails: even the integer part of the magnitude exceeds
/// the cap.
pub open spec fn quant_overflows(a: int, d: int) -> bool {
    floor_at(a, d, 0) > MANT_CAP
}

/// The integer part at the climbed-to scale stays within the cap.
proof fn lemma_fit_scale_up_bounds(a: int, d: int, s: nat)
    requires
        a >= 0,
        d > 0,
        floor_at(a, d, s) <= MANT_CAP,
        s <= 18,
    ensures
        s <= fit_scale_up(a, d, s) <= 18,
        floor_at(a, d, fit_scale_up(a, d, s)) <= MANT_CAP,
    decreases 18 - s,
{
    if s >= 18 {
    } else if floor_at(a, d, (s + 1) as nat) > MANT_CAP {
    } else {
        lemma_fit_scale_up_bounds(a, d, (s + 1) as nat);
    }
}

/// When quantization does not overflow, the rounded mantissa magnitude
/// is within the cap and nonnegative.
pub proof fn lemma_quant_mag_bounds(a: int, d: int)
    requires
        a >= 0,
        d > 0,
        !quant_overflows(a, d),
    ensures
        0 <= quant_mag(a, d) <= MANT_CAP,
        quant_scale(a, d) <= 18,
{
    lemma_fit_scale_up_bounds(a, d, 0);
    let s = quant_scale(a, d);
    lemma_pow10_pos(s);
    assert(a * pow10(s) >= 0) by (nonlinear_arith)
        requires a >= 0, pow10(s) >= 1;
    lemma_div_pos_is_pos(a * pow10(s), d);
}

/// The magnitude of a possibly negative numerator.
pub open spec fn mag_of(n: int) -> int {
    if n >= 0 {
        n
    } else {
        -n
    }
}

/// The signed rounded mantissa of `n / d`.
pub open spec fn quant_signed(n: int, d: int) -> int {
    if n >= 0 {
        quant_mag(n, d)
    } else {
        -quant_mag(-n, d)
    }
}

/// The canonical decimal that quantizing `n / d` yields.
pub open spec fn quant_dec(n: int, d: int) -> Dec {
    canon_dec(n < 0, quant_mag(mag_of(n), d), quant_scale(mag_of(n), d))
}

/// The quantized mantissa is within one ulp of the exact quotient at
/// the quantization scale: `|quant_mag(a, d) * d - a * 10^s| < d`.
pub proof fn lemma_quant_mag_close(a: int, d: int)
    requires
        a >= 0,
        d > 0,
    ensures
        quant_mag(a, d) * d - a * pow10(quant_scale(a, d)) < d,
        a * pow10(quant_scale(a, d)) - quant_mag(a, d) * d < d,
{
    let s = quant_scale(a, d);
    let x = a * pow10(s);
    lemma_pow10_pos(s);
    assert(x >= 0) by (nonlinear_arith)
        requires a >= 0, pow10(s) >= 1, x == a * pow10(s);
    lemma_fundamental_div_mod(x, d);
    let q = x / d;
    let r = x % d;
    assert(x == d * q + r);
    if 2 * r >= d && q < MANT_CAP {
        assert((q + 1) * d - x == d - r) by (nonlinear_arith)
            requires x == d * q + r;
    } else {
        assert(x - q * d == r) by (nonlinear_arith)
            requires x == d * q + r;
    }
}

/// Rounds `n / d` at the largest scale not above eighteen at which the
/// mantissa fits the cap, half away from zero (truncating in the corner
/// where rounding up would just exceed the cap), and returns the
/// canonical decimal. Returns `None` exactly when even the integer part
/// of the magnitude exceeds the cap.
#[verifier::loop_isolation(false)]
pub fn quantize(n: i128, d: i128) -> (res: Option<Dec>)
    requires
        0 < d <= pow10(37),
        -pow10(37) <= n <= pow10(37),
    ensures
        res is None <==> quant_overflows(mag_of(n as int), d as int),
        res matches Some(v) ==> {
            &&& v.wf()
            &&& v == quant_dec(n as int, d as int)
            &&& v.num() * pow10(quant_scale(mag_of(n as int), d as int)) == quant_signed(
                n as int,
                d as int,
            ) * v.den()
            &&& (v.m > 0 <==> quant_signed(n as int, d as int) > 0)
            &&& (v.m < 0 <==> quant_signed(n as int, d as int) < 0)
        },
{
    proof {
        lemma_pow10_37_value();
        lemma_pow0(10);
    }
    let neg = n < 0;
    let a: i128 = if neg { -n } else { n };
    let ghost am: int = a as int;
    let mut m: i128 = a / d;
    let mut r: i128 = a % d;
    let mut s: u32 = 0;
    proof {
        lemma_fundamental_div_mod(am, d as int);
        assert(m * d + r == am * pow10(0)) by (nonlinear_arith)
            requires
                am == d * m + r,
                pow10(0) == 1,
        ;
        lemma_floor_at_converse(am, d as int, m as int, r as int, 0);
    }
    if m > MANT_CAP {
        return None;
    }
    while s < 18
        invariant
            0 < d <= pow10(37),
            0 <= am <= pow10(37),
            s <= 18,
            m * d + r == am * pow10(s as nat),
            0 <= r < d,
            0 <= m <= MANT_CAP,
            quant_scale(am, d as int) == fit_scale_up(am, d as int, s as nat),
        decreases 18 - s,
    {
        proof {
            lemma_pow10_37_value();
        }
        let r10: i128 = r * 10;
        proof {
            lemma_div_pos_is_pos(r10 as int, d as int);
            lemma_div_nonincreasing(r10 as int, d as int);
        }
        let m2: i128 = m * 10 + r10 / d;
        let r2: i128 = r10 % d;
        proof {
            lemma_fundamental_div_mod(r10 as int, d as int);
            lemma_pow_adds(10, s as nat, 1nat);
            lemma_pow10_unit();
            assert(m2 * d + r2 == am * pow10((s + 1) as nat)) by (nonlinear_arith)
                requires
                    m * d + r == am * pow10(s as nat),
                    r10 == r * 10,
                    r10 == d * (r10 / d) + r10 % d,
                    m2 == m * 10 + r10 / d,
                    r2 == r10 % d,
                    pow10((s + 1) as nat) == pow10(s as nat) * 10,
            ;
            lemma_floor_at_converse(am, d as int, m2 as int, r2 as int, (s + 1) as nat);
        }
        if m2 > MANT_CAP {
            break;
        }
        m = m2;
        r = r2;
        s = s + 1;
    }
    proof {
        lemma_floor_at_converse(am, d as int, m as int, r as int, s as nat);
        assert(s as nat == quant_scale(am, d as int));
    }
    if 2 * r >= d && m < MANT_CAP {
        m = m + 1;
    }
    Some(canon(neg, m, s))
}

/// Division facts at a given scale, from the invariant shape.
proof fn lemma_floor_at_converse(a: int, d: int, m: int, r: int, s: nat)
    requires
        d > 0,
        a >= 0,
        m * d + r == a * pow10(s),
        0 <= r < d,
    ensures
        floor_at(a, d, s) == m,
        (a * pow10(s)) % d == r,
{
    lemma_fundamental_div_mod_converse(a * pow10(s), d, m, r);
}

/// A decimal digit character.
pub open spec fn is_digit_char(c: char) -> bool {
    48 <= c as int <= 57
}

/// The numeric value of a digit character.
pub open spec fn digit_of(c: char) -> int {
    c as int - 48
}

/// Every character of the sequence is a digit.
pub open spec fn all_digits(s: Seq<char>) -> bool {
    forall|i: int| 0 <= i < s.len() ==> is_digit_char(#[trigger] s[i])
}

/// The integer a digit sequence denotes, most significant digit first.
pub open spec fn digits_val(s: Seq<char>) -> int
    decreases s.len(),
{
    if s.len() == 0 {
        0
    } else {
        digits_val(s.drop_last()) * 10 + digit_of(s.last())
    }
}

/// The index of the first `'.'`, or the length if there is none.
pub open spec fn first_dot(s: Seq<char>) -> int
    decreases s.len(),
{
    if s.len() == 0 {
        0
    } else if s[0] == '.' {
        0
    } else {
        1 + first_dot(s.skip(1))
    }
}

/// The text after an optional leading sign.
pub open spec fn dec_body(s: Seq<char>) -> Seq<char> {
    if s.len() > 0 && (s[0] == '+' || s[0] == '-') {
        s.skip(1)
    } else {
        s
    }
}

/// Whether the text carries a leading minus sign.
pub open spec fn dec_neg(s: Seq<char>) -> bool {
    s.len() > 0 && s[0] == '-'
}

/// The digits before the dot.
pub open spec fn int_digits(s: Seq<char>) -> Seq<char> {
    let b = dec_body(s);
    b.take(first_dot(b))
}

/// The digits after the dot, empty if there is no dot.
pub open spec fn frac_digits(s: Seq<char>) -> Seq<char> {
    let b = dec_body(s);
    let f = first_dot(b);
    if f < b.len() {
        b.skip(f + 1)
    } else {
        Seq::empty()
    }
}

/// Well-formed decimal text: an optional sign, at least one integer
/// digit, and, if a dot is present, at least one fractional digit.
pub open spec fn dec_str_wf(s: Seq<char>) -> bool {
    let b = dec_body(s);
    let f = first_dot(b);
    &&& f > 0
    &&& all_digits(b.take(f))
    &&& (f < b.len() ==> f + 1 < b.len() && all_digits(b.skip(f + 1)))
}

/// The magnitude of the mantissa the text denotes.
pub open spec fn dec_str_mag(s: Seq<char>) -> int {
    digits_val(int_digits(s) + frac_digits(s))
}

/// The scale the text denotes: the number of fractional digits.
pub open spec fn dec_str_scale(s: Seq<char>) -> int {
    frac_digits(s).len() as int
}

/// The text fits the mantissa and scale caps.
pub open spec fn dec_str_in_range(s: Seq<char>) -> bool {
    dec_str_mag(s) <= MANT_CAP && dec_str_scale(s) <= SCALE_CAP
}

/// The signed integer value of the mantissa the text denotes.
pub open spec fn dec_str_signed_mag(s: Seq<char>) -> int {
    if dec_neg(s) {
        -dec_str_mag(s)
    } else {
        dec_str_mag(s)
    }
}

/// `first_dot` is the least index holding a dot.
pub proof fn lemma_first_dot(s: Seq<char>)
    ensures
        0 <= first_dot(s) <= s.len(),
        first_dot(s) < s.len() ==> s[first_dot(s)] == '.',
        forall|k: int| 0 <= k < first_dot(s) ==> #[trigger] s[k] != '.',
    decreases s.len(),
{
    if s.len() == 0 {
    } else if s[0] == '.' {
    } else {
        lemma_first_dot(s.skip(1));
        let f = first_dot(s);
        assert(forall|k: int| 1 <= k < f ==> #[trigger] s[k] == s.skip(1)[k - 1]);
    }
}

/// Appending a digit multiplies the value by ten and adds the digit.
pub proof fn lemma_digits_val_push(s: Seq<char>, c: char)
    ensures
        digits_val(s.push(c)) == digits_val(s) * 10 + digit_of(c),
{
    assert(s.push(c).drop_last() =~= s);
    assert(s.push(c).last() == c);
}

/// A digit sequence denotes a nonnegative integer.
pub proof fn lemma_digits_val_nonneg(s: Seq<char>)
    requires
        all_digits(s),
    ensures
        digits_val(s) >= 0,
    decreases s.len(),
{
    if s.len() > 0 {
        assert(all_digits(s.drop_last()));
        lemma_digits_val_nonneg(s.drop_last());
        assert(digits_val(s.drop_last()) * 10 >= 0) by (nonlinear_arith)
            requires digits_val(s.drop_last()) >= 0;
        assert(is_digit_char(s.last()));
    }
}

/// The value of concatenated digit sequences.
pub proof fn lemma_digits_val_append(a: Seq<char>, b: Seq<char>)
    ensures
        digits_val(a + b) == digits_val(a) * pow10(b.len()) + digits_val(b),
    decreases b.len(),
{
    if b.len() == 0 {
        assert(a + b =~= a);
        lemma_pow0(10);
    } else {
        lemma_digits_val_append(a, b.drop_last());
        assert((a + b).drop_last() =~= a + b.drop_last());
        assert((a + b).last() == b.last());
        lemma_pow_adds(10, (b.len() - 1) as nat, 1nat);
        lemma_pow10_unit();
        let va = digits_val(a);
        let vd = digits_val(b.drop_last());
        let p = pow10((b.len() - 1) as nat);
        assert((va * p + vd) * 10 + digit_of(b.last()) == va * (p * 10) + (vd * 10 + digit_of(
            b.last(),
        ))) by (nonlinear_arith);
    }
}

/// The concrete values of the first few powers of ten.
pub proof fn lemma_pow10_small()
    ensures
        pow10(0) == 1,
        pow10(1) == 10,
        pow10(2) == 100,
        pow10(3) == 1000,
        pow10(4) == 10000,
{
    reveal_with_fuel(pow, 6);
}

/// A digit sequence's value is below ten to its length.
pub proof fn lemma_digits_val_bound(s: Seq<char>)
    requires
        all_digits(s),
    ensures
        digits_val(s) < pow10(s.len()),
    decreases s.len(),
{
    if s.len() == 0 {
        lemma_pow0(10);
    } else {
        assert(all_digits(s.drop_last()));
        lemma_digits_val_bound(s.drop_last());
        lemma_pow_adds(10, (s.len() - 1) as nat, 1nat);
        lemma_pow10_unit();
        assert(digits_val(s.drop_last()) * 10 + digit_of(s.last()) < pow10((s.len() - 1) as nat)
            * 10) by (nonlinear_arith)
            requires
                digits_val(s.drop_last()) < pow10((s.len() - 1) as nat),
                digit_of(s.last()) <= 9,
        ;
    }
}

/// A digit prefix bounds the whole sequence's value from below.
pub proof fn lemma_digits_val_prefix(w: Seq<char>, j: int)
    requires
        all_digits(w),
        0 <= j <= w.len(),
    ensures
        digits_val(w) >= digits_val(w.take(j)),
{
    let a = w.take(j);
    let b = w.skip(j);
    assert(w =~= a + b);
    lemma_digits_val_append(a, b);
    assert(all_digits(a));
    assert(all_digits(b));
    lemma_digits_val_nonneg(a);
    lemma_digits_val_nonneg(b);
    lemma_pow10_pos(b.len());
    assert(digits_val(a) * pow10(b.len()) >= digits_val(a)) by (nonlinear_arith)
        requires digits_val(a) >= 0, pow10(b.len()) >= 1;
}

/// Parses decimal text into its canonical exact decimal. Returns
/// `None` exactly when the text is not well formed or the denoted
/// value does not fit the mantissa and scale caps.
#[verifier::loop_isolation(false)]
pub fn parse_decimal(s: &str) -> (res: Option<Dec>)
    ensures
        res is Some <==> dec_str_wf(s@) && dec_str_in_range(s@),
        res matches Some(v) ==> {
            &&& v.wf()
            &&& v == canon_dec(dec_neg(s@), dec_str_mag(s@), dec_str_scale(s@) as nat)
            &&& v.num() * pow10(dec_str_scale(s@) as nat) == dec_str_signed_mag(s@) * v.den()
            &&& (v.m > 0 <==> dec_str_signed_mag(s@) > 0)
            &&& (v.m < 0 <==> dec_str_signed_mag(s@) < 0)
        },
{
    let n = s.unicode_len();
    let ghost b = dec_body(s@);
    let mut off: usize = 0;
    let mut neg = false;
    if n > 0 {
        let c0 = s.get_char(0);
        if c0 == '-' {
            neg = true;
            off = 1;
        } else if c0 == '+' {
            off = 1;
        }
    }
    proof {
        assert(b =~= s@.skip(off as int));
        assert(neg == dec_neg(s@));
        lemma_first_dot(b);
    }
    let ghost fd = first_dot(b);
    let mut mag: i128 = 0;
    let mut seen_dot = false;
    let mut frac_count: u32 = 0;
    let mut j: usize = off;
    let ghost mut acc: Seq<char> = Seq::empty();
    proof {
        assert(acc =~= b.take(0));
    }
    while j < n
        invariant
            off <= j <= n,
            !seen_dot ==> {
                &&& acc =~= b.take(j - off)
                &&& j - off <= fd
                &&& frac_count == 0
            },
            seen_dot ==> {
                &&& 0 < fd < b.len()
                &&& fd + 1 <= j - off
                &&& acc =~= b.take(fd) + b.subrange(fd + 1, j - off)
                &&& frac_count == j - off - fd - 1
            },
            frac_count <= SCALE_CAP,
            all_digits(acc),
            mag == digits_val(acc),
            0 <= mag <= MANT_CAP,
        decreases n - j,
    {
        let c = s.get_char(j);
        let u = c as u32;
        let ghost rel = j - off;
        proof {
            lemma_first_dot(b);
            assert(b[rel] == s@[j as int]);
        }
        if 48 <= u && u <= 57 {
            if seen_dot && frac_count == SCALE_CAP {
                // A nineteenth fractional digit: the scale is out of range.
                proof {
                    assert(dec_str_scale(s@) == b.len() - fd - 1);
                    assert(dec_str_scale(s@) > SCALE_CAP);
                }
                return None;
            }
            let d = (u - 48) as i128;
            let mag2 = mag * 10 + d;
            proof {
                lemma_digits_val_push(acc, c);
                assert(acc.push(c) =~= (if seen_dot {
                    b.take(fd) + b.subrange(fd + 1, rel + 1)
                } else {
                    b.take(rel + 1)
                }));
            }
            if mag2 > MANT_CAP {
                // The mantissa is out of range wherever the dot may be.
                proof {
                    lemma_mag_overflow(s@, b, fd, rel, acc.push(c), seen_dot);
                }
                return None;
            }
            mag = mag2;
            if seen_dot {
                frac_count = frac_count + 1;
            }
            proof {
                acc = acc.push(c);
            }
        } else if c == '.' {
            if j == off {
                // A dot with no integer digit before it.
                proof {
                    assert(fd == 0);
                }
                return None;
            }
            if seen_dot {
                // A second dot: the fractional digits would hold a dot.
                proof {
                    assert(b[rel] == '.');
                    assert(!is_digit_char(b[rel]));
                    assert(fd < rel < b.len());
                    assert(b.skip(fd + 1)[rel - fd - 1] == b[rel]);
                    assert(!all_digits(b.skip(fd + 1)));
                }
                return None;
            }
            proof {
                assert(fd == rel);
            }
            seen_dot = true;
            proof {
                assert(acc =~= b.take(fd) + b.subrange(fd + 1, fd + 1));
            }
        } else {
            // Not a digit and not a dot: the text is not well formed.
            proof {
                assert(!is_digit_char(b[rel]) && b[rel] != '.');
                assert(fd != rel);
                if rel < fd {
                    assert(b.take(fd)[rel] == b[rel]);
                    assert(!is_digit_char(b.take(fd)[rel]));
                    assert(!all_digits(b.take(fd)));
                }
                if rel > fd {
                    assert(b.skip(fd + 1)[rel - fd - 1] == b[rel]);
                    assert(!all_digits(b.skip(fd + 1)));
                }
            }
            return None;
        }
        j = j + 1;
    }
    if j == off {
        // Empty body: no digits at all.
        proof {
            assert(b.len() == 0);
            assert(fd == 0);
        }
        return None;
    }
    if !seen_dot {
        proof {
            assert(j - off == b.len());
            assert(fd == b.len());
            assert(acc =~= int_digits(s@) + frac_digits(s@));
            assert(fd > 0);
            assert(dec_str_wf(s@));
            assert(dec_str_scale(s@) == 0);
        }
        let r = canon(neg, mag, 0);
        proof {
            lemma_pow0(10);
        }
        return Some(r);
    }
    if frac_count == 0 {
        // A trailing dot with no fractional digit.
        proof {
            assert(fd + 1 == b.len());
            assert(!dec_str_wf(s@));
        }
        return None;
    }
    proof {
        assert(b.subrange(fd + 1, b.len() as int) =~= b.skip(fd + 1));
        assert(acc =~= int_digits(s@) + frac_digits(s@));
        assert(all_digits(b.take(fd))) by {
            assert(forall|k: int| 0 <= k < fd ==> acc[k] == #[trigger] b.take(fd)[k]);
        }
        assert(all_digits(b.skip(fd + 1))) by {
            assert(forall|k: int| 0 <= k < b.len() - fd - 1 ==> acc[fd + k] == #[trigger] b.skip(
                fd + 1,
            )[k]);
        }
        assert(dec_str_wf(s@));
        assert(dec_str_scale(s@) == frac_count);
    }
    let r = canon(neg, mag, frac_count);
    Some(r)
}

/// If an all-digit prefix of the denoted mantissa already exceeds the
/// cap, the denoted mantissa does too, whenever the text is well formed.
proof fn lemma_mag_overflow(
    s: Seq<char>,
    b: Seq<char>,
    fd: int,
    rel: int,
    pref: Seq<char>,
    seen_dot: bool,
)
    requires
        b == dec_body(s),
        fd == first_dot(b),
        0 <= rel < b.len(),
        !seen_dot ==> rel + 1 <= fd && pref == b.take(rel + 1),
        seen_dot ==> fd < rel + 1 <= b.len() && pref == b.take(fd) + b.subrange(fd + 1, rel + 1),
        all_digits(pref),
        digits_val(pref) > MANT_CAP,
    ensures
        dec_str_wf(s) ==> dec_str_mag(s) > MANT_CAP,
{
    if dec_str_wf(s) {
        lemma_first_dot(b);
        let whole = int_digits(s) + frac_digits(s);
        assert(all_digits(whole)) by {
            let ip = int_digits(s);
            let fp = frac_digits(s);
            assert(forall|k: int| 0 <= k < ip.len() ==> whole[k] == #[trigger] ip[k]);
            assert(forall|k: int| 0 <= k < fp.len() ==> whole[ip.len() + k] == #[trigger] fp[k]);
        }
        let plen = pref.len() as int;
        assert(pref =~= whole.take(plen)) by {
            if !seen_dot {
                assert(forall|k: int| 0 <= k < plen ==> pref[k] == #[trigger] whole[k]);
            } else {
                assert(forall|k: int| 0 <= k < plen ==> pref[k] == #[trigger] whole[k]);
            }
        }
        lemma_digits_val_prefix(whole, plen);
    }
}

} // verus!
