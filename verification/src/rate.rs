//! Exchange rates: an ordered currency pair with a strictly positive
//! exact rational factor, meaning one unit of the base is `num / den`
//! units of the counter. A stored quote of `q` units of a currency per
//! euro expands into the pair euro-to-currency with factor `q` and
//! currency-to-euro with the exact reciprocal of `q`.

use vstd::prelude::*;
use crate::currency::{Currency, Money, EUR_CODE};
use vstd::arithmetic::power::pow;
use crate::decimal::{
    Dec, pow10, pow10_exec, parse_decimal, quantize, quant_scale, quant_signed, quant_overflows,
    quant_dec, quant_mag, mag_of, dec_str_wf, dec_str_in_range, dec_str_signed_mag, dec_str_scale,
    lemma_pow10_pos, lemma_pow10_36_value, MANT_CAP, SCALE_CAP,
};

verus! {

/// Why a stored quote cannot be decoded into exchange rates.
#[derive(Clone, Copy, PartialEq, Eq, Structural, Debug)]
pub enum RateError {
    /// The quote text is not an exact positive decimal in range.
    MalformedRate,
    /// The two currencies of the pair are the same.
    SameCurrency,
}

/// The euro, as the spec-level constant currency.
pub open spec fn spec_eur() -> Currency {
    Currency { code: EUR_CODE, minor_units: 2 }
}

/// A directional exchange rate: one unit of `base` is `num / den`
/// units of `counter`.
#[derive(Clone, Copy, PartialEq, Eq, Structural, Debug)]
pub struct ExchangeRate {
    /// The currency one unit of which is priced.
    pub base: Currency,
    /// The currency the price is denominated in.
    pub counter: Currency,
    /// The numerator of the factor.
    pub num: i128,
    /// The denominator of the factor.
    pub den: i128,
}

impl ExchangeRate {
    /// A well-formed rate: a strictly positive factor within the caps,
    /// between two distinct currencies.
    pub open spec fn wf(self) -> bool {
        &&& 0 < self.num <= MANT_CAP
        &&& 0 < self.den <= MANT_CAP
        &&& self.base.code != self.counter.code
    }

    /// Builds a rate from a decimal factor. Fails with `SameCurrency`
    /// exactly when the two currencies carry one code, and with
    /// `MalformedRate` exactly when the factor is not strictly positive.
    pub fn new(base: Currency, counter: Currency, factor: Dec) -> (r: Result<
        ExchangeRate,
        RateError,
    >)
        requires
            factor.wf(),
        ensures
            r is Ok <==> base.code != counter.code && factor.m > 0,
            r matches Ok(er) ==> er == (ExchangeRate {
                base,
                counter,
                num: factor.m,
                den: (pow10(factor.s as nat) as i128),
            }) && er.wf(),
            r matches Err(e) ==> (e == RateError::SameCurrency <==> base.code == counter.code),
    {
        if base.code == counter.code {
            return Err(RateError::SameCurrency);
        }
        if !(factor.m > 0) {
            return Err(RateError::MalformedRate);
        }
        let den = pow10_exec(factor.s);
        proof {
            crate::decimal::lemma_pow10_36_value();
            crate::decimal::lemma_pow10_small();
            lemma_pow10_le_cap(factor.s as nat);
        }
        Ok(ExchangeRate { base, counter, num: factor.m, den })
    }

    /// The rate in the opposite direction: the exact reciprocal factor.
    pub fn inverse(&self) -> (r: ExchangeRate)
        requires
            self.wf(),
        ensures
            r == (ExchangeRate {
                base: self.counter,
                counter: self.base,
                num: self.den,
                den: self.num,
            }),
            r.wf(),
    {
        ExchangeRate { base: self.counter, counter: self.base, num: self.den, den: self.num }
    }

    /// The exact rational the converted amount rounds from: the money
    /// amount times the factor, as a numerator over `den_product`.
    pub open spec fn num_product(self, m: Money) -> int {
        m.amount.num() * self.num
    }

    /// The denominator of the exact converted value.
    pub open spec fn den_product(self, m: Money) -> int {
        m.amount.den() * self.den
    }

    /// The scale the converted amount is rounded at.
    pub open spec fn converted_scale(self, m: Money) -> nat {
        quant_scale(mag_of(self.num_product(m)), self.den_product(m))
    }

    /// The signed mantissa that converting `m` by this rate yields: the
    /// exact product of amount and factor, rounded at the largest scale
    /// not above eighteen at which the mantissa fits the cap.
    pub open spec fn converted_mantissa(self, m: Money) -> int {
        quant_signed(self.num_product(m), self.den_product(m))
    }

    /// The conversion overflows: even the integer part of the converted
    /// magnitude exceeds the cap.
    pub open spec fn convert_overflows(self, m: Money) -> bool {
        quant_overflows(mag_of(self.num_product(m)), self.den_product(m))
    }

    /// The money that applying this rate to `m` yields.
    pub open spec fn apply_spec(self, m: Money) -> Money {
        Money {
            amount: quant_dec(self.num_product(m), self.den_product(m)),
            currency: self.counter,
        }
    }

    /// Applies the rate to an amount of the base currency, yielding the
    /// amount of the counter currency: the exact product of amount and
    /// factor, rounded half away from zero at the largest scale not
    /// above eighteen at which the mantissa fits the cap. Returns
    /// `None` exactly when even the integer part does not fit.
    pub fn convert(&self, m: Money) -> (r: Option<Money>)
        requires
            self.wf(),
            m.wf(),
            m.currency.code == self.base.code,
        ensures
            r is None <==> self.convert_overflows(m),
            r matches Some(v) ==> {
                &&& v.wf()
                &&& v == self.apply_spec(m)
                &&& v.currency == self.counter
                &&& v.amount.num() * pow10(self.converted_scale(m)) == self.converted_mantissa(
                    m,
                ) * v.amount.den()
                &&& (v.amount.m > 0 <==> self.converted_mantissa(m) > 0)
                &&& (v.amount.m < 0 <==> self.converted_mantissa(m) < 0)
            },
    {
        proof {
            lemma_pow10_36_value();
            crate::decimal::lemma_pow10_37_value();
            lemma_pow10_le_cap(m.amount.s as nat);
            lemma_cap_squared();
        }
        let aden = pow10_exec(m.amount.s);
        proof {
            assert(-pow10(36) <= m.amount.m * self.num <= pow10(36)) by (nonlinear_arith)
                requires
                    -MANT_CAP <= m.amount.m <= MANT_CAP,
                    0 < self.num <= MANT_CAP,
                    MANT_CAP * MANT_CAP == pow10(36),
            ;
            assert(0 < aden * self.den <= pow10(36)) by (nonlinear_arith)
                requires
                    0 < aden <= MANT_CAP,
                    0 < self.den <= MANT_CAP,
                    MANT_CAP * MANT_CAP == pow10(36),
            ;
        }
        let n: i128 = m.amount.m * self.num;
        let d: i128 = aden * self.den;
        match quantize(n, d) {
            Some(v) => Some(Money { amount: v, currency: self.counter }),
            None => None,
        }
    }
}

/// Ten to a power within the scale cap stays within the mantissa cap.
pub proof fn lemma_pow10_le_cap(e: nat)
    requires
        e <= 18,
    ensures
        1 <= pow10(e) <= MANT_CAP,
        pow10(18) == MANT_CAP,
{
    lemma_pow10_pos(e);
    vstd::arithmetic::power::lemma_pow_adds(10, e, (18 - e) as nat);
    lemma_pow10_pos((18 - e) as nat);
    lemma_pow10_18_value();
    assert(pow10(e) * pow10((18 - e) as nat) == pow10(18));
    assert(pow10(e) <= pow10(18)) by (nonlinear_arith)
        requires
            pow10(e) * pow10((18 - e) as nat) == pow10(18),
            pow10(e) >= 1,
            pow10((18 - e) as nat) >= 1,
    ;
}

/// The concrete value of `10^18`, by unfolding the power function.
pub proof fn lemma_pow10_18_value()
    ensures
        pow10(18) == 1_000_000_000_000_000_000,
{
    reveal_with_fuel(pow, 20);
}

/// `MANT_CAP * MANT_CAP` is `10^36`.
pub proof fn lemma_cap_squared()
    ensures
        MANT_CAP * MANT_CAP == pow10(36),
{
    lemma_pow10_36_value();
    assert(MANT_CAP * MANT_CAP == 1_000_000_000_000_000_000_000_000_000_000_000_000)
        by (nonlinear_arith);
}

/// Decodes quote text for a currency into the two directional rates:
/// euro-to-currency carrying the quote exactly, and currency-to-euro
/// carrying its exact reciprocal. Fails with `MalformedRate` exactly
/// when the text is not an exact strictly positive decimal within the
/// caps, and with `SameCurrency` exactly when the currency is the euro.
pub fn decode_quote(currency: Currency, raw_text: &str) -> (r: Result<
    (ExchangeRate, ExchangeRate),
    RateError,
>)
    ensures
        r is Ok <==> {
            &&& dec_str_wf(raw_text@)
            &&& dec_str_in_range(raw_text@)
            &&& dec_str_signed_mag(raw_text@) > 0
            &&& currency.code != EUR_CODE
        },
        r matches Ok((to_eur, from_eur)) ==> {
            &&& from_eur.wf()
            &&& to_eur.wf()
            &&& from_eur.base == spec_eur()
            &&& from_eur.counter == currency
            &&& from_eur.num * pow10(dec_str_scale(raw_text@) as nat) == dec_str_signed_mag(
                raw_text@,
            ) * from_eur.den
            &&& to_eur == from_eur.inverse_spec()
        },
        r matches Err(e) ==> (e == RateError::MalformedRate <==> !(dec_str_wf(raw_text@)
            && dec_str_in_range(raw_text@) && dec_str_signed_mag(raw_text@) > 0)),
{
    let q = match parse_decimal(raw_text) {
        Some(v) => v,
        None => {
            return Err(RateError::MalformedRate);
        },
    };
    if !(q.m > 0) {
        proof {
            lemma_pow10_pos(q.s as nat);
            lemma_pow10_pos(dec_str_scale(raw_text@) as nat);
            let sm = dec_str_signed_mag(raw_text@);
            assert(!(sm > 0)) by (nonlinear_arith)
                requires
                    q.m * pow10(dec_str_scale(raw_text@) as nat) == sm * pow10(q.s as nat),
                    q.m <= 0,
                    pow10(q.s as nat) >= 1,
                    pow10(dec_str_scale(raw_text@) as nat) >= 1,
            ;
        }
        return Err(RateError::MalformedRate);
    }
    if currency.code == EUR_CODE {
        proof {
            lemma_pow10_pos(q.s as nat);
            lemma_pow10_pos(dec_str_scale(raw_text@) as nat);
            let sm = dec_str_signed_mag(raw_text@);
            assert(sm > 0) by (nonlinear_arith)
                requires
                    q.m * pow10(dec_str_scale(raw_text@) as nat) == sm * pow10(q.s as nat),
                    q.m > 0,
                    pow10(q.s as nat) >= 1,
                    pow10(dec_str_scale(raw_text@) as nat) >= 1,
            ;
        }
        return Err(RateError::SameCurrency);
    }
    let eur_currency = crate::currency::eur();
    let from_eur = match ExchangeRate::new(eur_currency, currency, q) {
        Ok(er) => er,
        Err(_) => {
            proof {
                assert(false);
            }
            return Err(RateError::MalformedRate);
        },
    };
    let to_eur = from_eur.inverse();
    proof {
        lemma_pow10_pos(q.s as nat);
        lemma_pow10_pos(dec_str_scale(raw_text@) as nat);
        lemma_pow10_le_cap(q.s as nat);
        let sm = dec_str_signed_mag(raw_text@);
        assert(sm > 0) by (nonlinear_arith)
            requires
                q.m * pow10(dec_str_scale(raw_text@) as nat) == sm * pow10(q.s as nat),
                q.m > 0,
                pow10(q.s as nat) >= 1,
                pow10(dec_str_scale(raw_text@) as nat) >= 1,
        ;
    }
    Ok((to_eur, from_eur))
}

impl ExchangeRate {
    /// The inverse at the spec level.
    pub open spec fn inverse_spec(self) -> ExchangeRate {
        ExchangeRate { base: self.counter, counter: self.base, num: self.den, den: self.num }
    }
}

/// The two rates a quote decodes to are exact reciprocals: the product
/// of their factors is one. This holds for any pair in which one rate
/// is the other's inverse, so in particular for every pair that
/// `decode_quote` yields from a positive quote.
pub proof fn lemma_quote_rates_reciprocal(to_eur: ExchangeRate, from_eur: ExchangeRate)
    requires
        to_eur == from_eur.inverse_spec(),
    ensures
        to_eur.num * from_eur.num == to_eur.den * from_eur.den,
{
    assert(to_eur.num * from_eur.num == to_eur.den * from_eur.den) by (nonlinear_arith)
        requires
            to_eur.num == from_eur.den,
            to_eur.den == from_eur.num,
    ;
}

/// Conversion symmetry: converting a positive amount by a rate and
/// then converting the result back by the rate's exact reciprocal
/// yields an amount within a small rounding-bounded tolerance of the
/// original — at most one rounding ulp from each of the two
/// quantizations, so below `1/p2 + (den/num)/p1`, where `p1` and `p2`
/// are ten to the two quantization scales. The bound is stated by
/// cross multiplication over the exact integer values.
#[verifier::rlimit(100)]
pub proof fn lemma_round_trip_tolerance(r: ExchangeRate, m: Money)
    requires
        r.wf(),
        m.wf(),
        m.amount.m > 0,
        !r.convert_overflows(m),
        !r.inverse_spec().convert_overflows(r.apply_spec(m)),
    ensures
        ({
            let mid = r.apply_spec(m);
            let back = r.inverse_spec().apply_spec(mid);
            let p1 = pow10(quant_scale(mag_of(r.num_product(m)), r.den_product(m)));
            let p2 = pow10(
                quant_scale(
                    mag_of(r.inverse_spec().num_product(mid)),
                    r.inverse_spec().den_product(mid),
                ),
            );
            let diff = back.amount.num() * m.amount.den() - m.amount.num() * back.amount.den();
            &&& back.wf()
            &&& back.currency == r.base
            &&& diff * (r.num * p1 * p2) < back.amount.den() * m.amount.den() * (r.num * p1
                + r.den * p2)
            &&& (-diff) * (r.num * p1 * p2) < back.amount.den() * m.amount.den() * (r.num * p1
                + r.den * p2)
        }),
{
    let a0 = m.amount.num();
    let b0 = m.amount.den();
    let rn = r.num as int;
    let rd = r.den as int;
    let n1 = r.num_product(m);
    let d1 = r.den_product(m);
    lemma_pow10_pos(m.amount.s as nat);
    assert(n1 > 0) by (nonlinear_arith)
        requires n1 == a0 * rn, a0 > 0, rn > 0;
    assert(d1 > 0) by (nonlinear_arith)
        requires d1 == b0 * rd, b0 >= 1, rd > 0;
    assert(mag_of(n1) == n1);
    let s1 = quant_scale(n1, d1);
    let p1 = pow10(s1);
    let q1 = quant_mag(n1, d1);
    crate::decimal::lemma_quant_mag_bounds(n1, d1);
    crate::decimal::lemma_quant_mag_close(n1, d1);
    crate::decimal::lemma_canon_dec_value(false, q1, s1);
    let mid = r.apply_spec(m);
    let c1 = mid.amount;
    assert(c1 == crate::decimal::canon_dec(false, q1, s1));
    let c1n = c1.num();
    let c1d = c1.den();
    lemma_pow10_pos(s1);
    lemma_pow10_pos(c1.s as nat);
    assert(c1n >= 0);
    // [R1] and the first rounding error.
    assert(c1n * p1 == q1 * c1d);
    let e1 = q1 * d1 - n1 * p1;
    assert(-d1 < e1 && e1 < d1);
    // The back conversion.
    let rb = r.inverse_spec();
    let n2 = rb.num_product(mid);
    let d2 = rb.den_product(mid);
    assert(n2 == c1n * rd && d2 == c1d * rn);
    assert(n2 >= 0) by (nonlinear_arith)
        requires n2 == c1n * rd, c1n >= 0, rd > 0;
    assert(d2 > 0) by (nonlinear_arith)
        requires d2 == c1d * rn, c1d >= 1, rn > 0;
    assert(mag_of(n2) == n2);
    let s2 = quant_scale(n2, d2);
    let p2 = pow10(s2);
    let q2 = quant_mag(n2, d2);
    crate::decimal::lemma_quant_mag_bounds(n2, d2);
    crate::decimal::lemma_quant_mag_close(n2, d2);
    crate::decimal::lemma_canon_dec_value(false, q2, s2);
    let back = rb.apply_spec(mid);
    let b = back.amount;
    assert(b == crate::decimal::canon_dec(false, q2, s2));
    let bn = b.num();
    let bd = b.den();
    lemma_pow10_pos(s2);
    lemma_pow10_pos(b.s as nat);
    assert(bn * p2 == q2 * bd);
    let e2 = q2 * d2 - n2 * p2;
    assert(-d2 < e2 && e2 < d2);
    // (I): the back step's exact relation, scaled by b0 * p1.
    let kk = b0 * p1;
    assert(kk >= 1) by (nonlinear_arith)
        requires kk == b0 * p1, b0 >= 1, p1 >= 1;
    assert(bn * p2 * d2 == (q2 * bd) * d2) by (nonlinear_arith)
        requires bn * p2 == q2 * bd;
    assert((q2 * bd) * d2 == bd * (n2 * p2 + e2)) by (nonlinear_arith)
        requires q2 * d2 == n2 * p2 + e2;
    assert(bn * p2 * d2 == bd * (n2 * p2) + bd * e2) by (nonlinear_arith)
        requires bn * p2 * d2 == bd * (n2 * p2 + e2);
    assert((bn * p2 * d2) * kk == (bd * (n2 * p2)) * kk + (bd * e2) * kk) by (nonlinear_arith)
        requires bn * p2 * d2 == bd * (n2 * p2) + bd * e2;
    // (II): the first step's exact relation, scaled by bd * p2.
    let ll = bd * p2;
    assert(ll >= 1) by (nonlinear_arith)
        requires ll == bd * p2, bd >= 1, p2 >= 1;
    assert(c1n * p1 * d1 == (q1 * c1d) * d1) by (nonlinear_arith)
        requires c1n * p1 == q1 * c1d;
    assert((q1 * c1d) * d1 == c1d * (n1 * p1 + e1)) by (nonlinear_arith)
        requires q1 * d1 == n1 * p1 + e1;
    assert(c1n * p1 * d1 == c1d * (n1 * p1) + c1d * e1) by (nonlinear_arith)
        requires c1n * p1 * d1 == c1d * (n1 * p1 + e1);
    assert((c1n * p1 * d1) * ll == (c1d * (n1 * p1)) * ll + (c1d * e1) * ll) by (nonlinear_arith)
        requires c1n * p1 * d1 == c1d * (n1 * p1) + c1d * e1;
    // Both scaled relations share their cross term.
    assert((bd * (n2 * p2)) * kk == (c1n * p1 * d1) * ll) by (nonlinear_arith)
        requires
            n2 == c1n * rd,
            d1 == b0 * rd,
            kk == b0 * p1,
            ll == bd * p2,
    ;
    // Combine into the master identity.
    let lhs = (bn * p2 * d2) * kk;
    assert(lhs == (c1d * (n1 * p1)) * ll + (c1d * e1) * ll + (bd * e2) * kk);
    // Identify the two sides with the goal's terms.
    let big = rn * p1 * p2;
    assert((bn * b0) * (big * c1d) == lhs) by (nonlinear_arith)
        requires
            lhs == (bn * p2 * d2) * kk,
            d2 == c1d * rn,
            kk == b0 * p1,
            big == rn * p1 * p2,
    ;
    assert((a0 * bd) * (big * c1d) == (c1d * (n1 * p1)) * ll) by (nonlinear_arith)
        requires
            n1 == a0 * rn,
            ll == bd * p2,
            big == rn * p1 * p2,
    ;
    let diff = bn * b0 - a0 * bd;
    assert(diff * (big * c1d) == (bn * b0) * (big * c1d) - (a0 * bd) * (big * c1d))
        by (nonlinear_arith)
        requires diff == bn * b0 - a0 * bd;
    assert(diff * (big * c1d) == (c1d * e1) * ll + (bd * e2) * kk);
    // Bound the two error terms.
    let bound = bd * b0 * (rn * p1 + rd * p2);
    assert((c1d * e1) * ll < c1d * d1 * ll && -((c1d * e1) * ll) < c1d * d1 * ll)
        by (nonlinear_arith)
        requires
            -d1 < e1 < d1,
            c1d >= 1,
            ll >= 1,
            d1 > 0,
    ;
    assert((bd * e2) * kk < bd * d2 * kk && -((bd * e2) * kk) < bd * d2 * kk) by (nonlinear_arith)
        requires
            -d2 < e2 < d2,
            bd >= 1,
            kk >= 1,
            d2 > 0,
    ;
    let xx = bd * b0;
    let aa = rn * p1;
    let bb2 = rd * p2;
    assert(bound == xx * (aa + bb2));
    assert(bound * c1d == (xx * aa) * c1d + (xx * bb2) * c1d) by (nonlinear_arith)
        requires bound == xx * (aa + bb2);
    assert(c1d * d1 * ll == (xx * bb2) * c1d) by (nonlinear_arith)
        requires
            d1 == b0 * rd,
            ll == bd * p2,
            xx == bd * b0,
            bb2 == rd * p2,
    ;
    assert(bd * d2 * kk == (xx * aa) * c1d) by (nonlinear_arith)
        requires
            d2 == c1d * rn,
            kk == b0 * p1,
            xx == bd * b0,
            aa == rn * p1,
    ;
    assert(c1d * d1 * ll + bd * d2 * kk == bound * c1d);
    assert(diff * (big * c1d) < bound * c1d && -(diff * (big * c1d)) < bound * c1d);
    assert(diff * big < bound && (-diff) * big < bound) by (nonlinear_arith)
        requires
            diff * (big * c1d) < bound * c1d,
            -(diff * (big * c1d)) < bound * c1d,
            c1d >= 1,
    ;
}

/// The per-request lookup context: the rates synthesized for one query,
/// searched by currency pair, with the last rate set for a pair
/// winning.
pub struct Exchange {
    /// The rates set so far.
    pub rates: Vec<ExchangeRate>,
}

/// The most recently set rate for the pair, if any.
pub open spec fn find_rate_in(rates: Seq<ExchangeRate>, base_code: u32, counter_code: u32) -> Option<
    ExchangeRate,
>
    decreases rates.len(),
{
    if rates.len() == 0 {
        None
    } else if rates.last().base.code == base_code && rates.last().counter.code == counter_code {
        Some(rates.last())
    } else {
        find_rate_in(rates.drop_last(), base_code, counter_code)
    }
}

impl Exchange {
    /// An empty context.
    pub fn new() -> (r: Exchange)
        ensures
            r.rates@ =~= Seq::<ExchangeRate>::empty(),
    {
        Exchange { rates: Vec::new() }
    }

    /// Sets a rate; a later rate for the same pair shadows an earlier
    /// one.
    pub fn set_rate(&mut self, rate: &ExchangeRate)
        ensures
            final(self).rates@ == old(self).rates@.push(*rate),
    {
        self.rates.push(*rate);
    }

    /// The rate most recently set for the pair, if any.
    pub fn get_rate(&self, base: &Currency, counter: &Currency) -> (r: Option<ExchangeRate>)
        ensures
            r == find_rate_in(self.rates@, base.code, counter.code),
    {
        let mut i: usize = self.rates.len();
        proof {
            assert(self.rates@.take(self.rates@.len() as int) =~= self.rates@);
        }
        while i > 0
            invariant
                0 <= i <= self.rates@.len(),
                find_rate_in(self.rates@, base.code, counter.code) == find_rate_in(
                    self.rates@.take(i as int),
                    base.code,
                    counter.code,
                ),
            decreases i,
        {
            let cand = &self.rates[i - 1];
            proof {
                assert(self.rates@.take(i as int).last() == self.rates@[i - 1]);
                assert(self.rates@.take(i as int).drop_last() =~= self.rates@.take(i - 1));
            }
            if cand.base.code == base.code && cand.counter.code == counter.code {
                proof {
                    assert(find_rate_in(self.rates@.take(i as int), base.code, counter.code)
                        == Some(self.rates@[i - 1]));
                }
                return Some(*cand);
            }
            i = i - 1;
        }
        proof {
            assert(self.rates@.take(0) =~= Seq::<ExchangeRate>::empty());
        }
        None
    }
}

/// Builds a lookup context holding all the given rates.
pub fn rates_to_exchange(rates: &Vec<ExchangeRate>) -> (r: Exchange)
    ensures
        r.rates@ == rates@,
{
    let mut exchange = Exchange::new();
    let mut i: usize = 0;
    while i < rates.len()
        invariant
            0 <= i <= rates@.len(),
            exchange.rates@ =~= rates@.take(i as int),
        decreases rates@.len() - i,
    {
        exchange.set_rate(&rates[i]);
        proof {
            assert(rates@.take(i as int).push(rates@[i as int]) =~= rates@.take(i + 1));
        }
        i = i + 1;
    }
    proof {
        assert(rates@.take(rates@.len() as int) =~= rates@);
    }
    exchange
}

} // verus!
