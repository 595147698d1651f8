//! The minimal money value objects: a currency is an ISO 4217
//! alphabetic code (packed into an integer) plus its minor-unit count,
//! and money is an exact decimal amount paired with a currency.

use vstd::prelude::*;
use crate::decimal::Dec;

verus! {

/// The packed code of `EUR`.
pub const EUR_CODE: u32 = 69 * 65536 + 85 * 256 + 82;

/// An ISO 4217 currency: a three-letter code packed into an integer,
/// and the number of minor units (decimal places) of the currency.
#[derive(Clone, Copy, PartialEq, Eq, Structural, Debug)]
pub struct Currency {
    /// The alphabetic code, packed: `c0 * 65536 + c1 * 256 + c2`.
    pub code: u32,
    /// The number of decimal places of the currency's minor unit.
    pub minor_units: u32,
}

impl Currency {
    /// Whether this currency is the euro.
    pub open spec fn is_eur(self) -> bool {
        self.code == EUR_CODE
    }
}

/// The euro.
pub fn eur() -> (r: Currency)
    ensures
        r.code == EUR_CODE,
        r.minor_units == 2,
{
    Currency { code: EUR_CODE, minor_units: 2 }
}

/// An uppercase letter's code, folding a lowercase letter.
pub open spec fn upper_code(c: char) -> int {
    if 97 <= c as int <= 122 {
        c as int - 32
    } else {
        c as int
    }
}

/// An alphabetic character, in either case.
pub open spec fn is_alpha(c: char) -> bool {
    (65 <= c as int <= 90) || (97 <= c as int <= 122)
}

/// Well-formed currency-code text: exactly three letters.
pub open spec fn code_str_wf(s: Seq<char>) -> bool {
    s.len() == 3 && is_alpha(s[0]) && is_alpha(s[1]) && is_alpha(s[2])
}

/// The packed code the text denotes, case folded to uppercase.
pub open spec fn code_of_str(s: Seq<char>) -> int {
    upper_code(s[0]) * 65536 + upper_code(s[1]) * 256 + upper_code(s[2])
}

/// The packed code of the literal `EUR` is `EUR_CODE`.
pub proof fn lemma_eur_code()
    ensures
        code_of_str("EUR"@) == EUR_CODE,
{
    reveal_strlit("EUR");
}

/// Packs three-letter code text, folding case. Returns `None` exactly
/// when the text is not three letters.
#[verifier::loop_isolation(false)]
pub fn pack_code(s: &str) -> (r: Option<u32>)
    ensures
        r is Some <==> code_str_wf(s@),
        r matches Some(v) ==> v == code_of_str(s@),
{
    if s.unicode_len() != 3 {
        return None;
    }
    let mut packed: u32 = 0;
    let mut i: usize = 0;
    while i < 3
        invariant
            0 <= i <= 3,
            s@.len() == 3,
            forall|k: int| 0 <= k < i ==> is_alpha(#[trigger] s@[k]),
            i == 0 ==> packed == 0,
            i == 1 ==> packed == upper_code(s@[0]) && packed <= 90,
            i == 2 ==> packed == upper_code(s@[0]) * 256 + upper_code(s@[1]) && packed <= 90 * 256
                + 90,
            i == 3 ==> packed == code_of_str(s@),
        decreases 3 - i,
    {
        let c = s.get_char(i);
        let u = c as u32;
        let folded: u32 = if 97 <= u && u <= 122 {
            u - 32
        } else {
            u
        };
        if !(65 <= folded && folded <= 90) {
            return None;
        }
        packed = packed * 256 + folded;
        i = i + 1;
    }
    Some(packed)
}

/// Parses and validates a currency code against a set of known
/// currencies.
#[derive(Clone, Copy, PartialEq, Eq, Structural, Debug)]
pub struct CurrencyParser;

impl CurrencyParser {
    /// Looks the code text up among the known currencies, folding case.
    /// Returns the first currency whose packed code matches, or `None`
    /// exactly when the text is not a three-letter code or no known
    /// currency carries it.
    #[verifier::loop_isolation(false)]
    pub fn parse_ref(&self, value: &str, known: &[Currency]) -> (r: Option<Currency>)
        ensures
            r is Some <==> code_str_wf(value@) && exists|k: int|
                0 <= k < known@.len() && #[trigger] known@[k].code == code_of_str(value@),
            r matches Some(c) ==> {
                &&& c.code == code_of_str(value@)
                &&& exists|k: int| 0 <= k < known@.len() && known@[k] == c
            },
    {
        let packed = match pack_code(value) {
            Some(p) => p,
            None => {
                return None;
            },
        };
        let mut i: usize = 0;
        while i < known.len()
            invariant
                0 <= i <= known@.len(),
                forall|k: int| 0 <= k < i ==> #[trigger] known@[k].code != packed,
            decreases known@.len() - i,
        {
            if known[i].code == packed {
                proof {
                    assert(known@[i as int].code == code_of_str(value@));
                }
                return Some(known[i]);
            }
            i = i + 1;
        }
        None
    }
}

/// An exact decimal amount of money in a given currency.
#[derive(Clone, Copy, PartialEq, Eq, Structural, Debug)]
pub struct Money {
    /// The amount.
    pub amount: Dec,
    /// The currency the amount is denominated in.
    pub currency: Currency,
}

impl Money {
    /// A well-formed money value carries a well-formed amount.
    pub open spec fn wf(self) -> bool {
        self.amount.wf()
    }

    /// Pairs an exact decimal amount with a currency.
    pub fn from_decimal(amount: Dec, currency: Currency) -> (r: Money)
        ensures
            r.amount == amount,
            r.currency == currency,
    {
        Money { amount, currency }
    }

    /// The amount.
    pub fn amount(&self) -> (r: Dec)
        ensures
            r == self.amount,
    {
        self.amount
    }

    /// The currency.
    pub fn currency(&self) -> (r: Currency)
        ensures
            r == self.currency,
    {
        self.currency
    }
}

} // verus!
