//! Calendar dates as ordinal day numbers. The store and the
//! interpolation engine work on the ordinal axis; the mapping from a
//! civil date to its ordinal is delegated to the `chrono` crate.

use vstd::prelude::*;
use chrono::Datelike;
use crate::decimal::{
    is_digit_char, all_digits, digits_val, lemma_digits_val_push, lemma_digits_val_bound,
    lemma_pow10_small, pow10,
};

verus! {

/// A calendar date as its proleptic-Gregorian ordinal: the count of
/// days with January 1 of year 1 as day 1.
#[derive(Clone, Copy, PartialEq, Eq, Structural, Debug)]
pub struct Day {
    /// The ordinal day number.
    pub ordinal: i32,
}

/// The ordinal day number of the civil date `(y, m, d)`, or nothing if
/// that triple is no valid date.
pub uninterp spec fn spec_day_number(y: int, m: int, d: int) -> Option<int>;

/// Relies on `chrono::NaiveDate::from_ymd_opt` and
/// `chrono::Datelike::num_days_from_ce`: the ordinal of a civil date in
/// the proleptic Gregorian calendar, a function of the date alone, with
/// January 1 of year 1 as day 1; `None` exactly on invalid dates.
#[verifier::external_body]
fn day_number_raw(y: i32, m: u32, d: u32) -> (r: Option<i32>)
    ensures
        r matches Some(o) ==> spec_day_number(y as int, m as int, d as int) == Some(o as int),
        r is None ==> spec_day_number(y as int, m as int, d as int) is None,
{
    chrono::NaiveDate::from_ymd_opt(y, m, d).map(|nd| nd.num_days_from_ce())
}

/// The calendar date `(y, m, d)` as a `Day`, or nothing if the triple
/// is no valid date.
pub fn day_from_ymd(y: i32, m: u32, d: u32) -> (r: Option<Day>)
    ensures
        r matches Some(day) ==> spec_day_number(y as int, m as int, d as int) == Some(
            day.ordinal as int,
        ),
        r is None <==> spec_day_number(y as int, m as int, d as int) is None,
{
    match day_number_raw(y, m, d) {
        Some(o) => Some(Day { ordinal: o }),
        None => None,
    }
}

/// Well-formed date text: `YYYY-MM-DD`, four, two and two digits.
pub open spec fn ymd_str_wf(s: Seq<char>) -> bool {
    &&& s.len() == 10
    &&& all_digits(s.subrange(0, 4))
    &&& s[4] == '-'
    &&& all_digits(s.subrange(5, 7))
    &&& s[7] == '-'
    &&& all_digits(s.subrange(8, 10))
}

/// The year the text denotes.
pub open spec fn ymd_str_year(s: Seq<char>) -> int {
    digits_val(s.subrange(0, 4))
}

/// The month the text denotes.
pub open spec fn ymd_str_month(s: Seq<char>) -> int {
    digits_val(s.subrange(5, 7))
}

/// The day of month the text denotes.
pub open spec fn ymd_str_day(s: Seq<char>) -> int {
    digits_val(s.subrange(8, 10))
}

/// Reads a fixed run of digits out of `s`, starting at `from`.
#[verifier::loop_isolation(false)]
fn read_digits(s: &str, from: usize, to: usize) -> (r: Option<u32>)
    requires
        from <= to <= s@.len(),
        to - from <= 4,
    ensures
        r is Some <==> all_digits(s@.subrange(from as int, to as int)),
        r matches Some(v) ==> v == digits_val(s@.subrange(from as int, to as int)) && v <= 9999,
{
    let mut acc: u32 = 0;
    let mut i = from;
    proof {
        lemma_pow10_small();
    }
    while i < to
        invariant
            from <= i <= to,
            all_digits(s@.subrange(from as int, i as int)),
            acc == digits_val(s@.subrange(from as int, i as int)),
            acc < pow10((i - from) as nat),
            acc <= 9999,
        decreases to - i,
    {
        proof {
            lemma_pow10_small();
            lemma_digits_val_bound(s@.subrange(from as int, i as int));
        }
        let c = s.get_char(i);
        let u = c as u32;
        if !(48 <= u && u <= 57) {
            proof {
                let whole = s@.subrange(from as int, to as int);
                assert(whole[i - from] == s@[i as int]);
                assert(!is_digit_char(whole[i - from]));
            }
            return None;
        }
        proof {
            lemma_digits_val_push(s@.subrange(from as int, i as int), s@[i as int]);
            assert(s@.subrange(from as int, i + 1) =~= s@.subrange(from as int, i as int).push(
                s@[i as int],
            ));
            lemma_digits_val_bound(s@.subrange(from as int, i + 1));
        }
        acc = acc * 10 + (u - 48);
        i = i + 1;
    }
    Some(acc)
}

/// Parses date text of the form `YYYY-MM-DD` into a `Day`. Returns
/// `None` exactly when the text is not in that form or the civil date
/// it denotes does not exist.
pub fn parse_ymd(s: &str) -> (r: Option<Day>)
    ensures
        r is Some <==> ymd_str_wf(s@) && spec_day_number(
            ymd_str_year(s@),
            ymd_str_month(s@),
            ymd_str_day(s@),
        ) is Some,
        r matches Some(day) ==> spec_day_number(
            ymd_str_year(s@),
            ymd_str_month(s@),
            ymd_str_day(s@),
        ) == Some(day.ordinal as int),
{
    let n = s.unicode_len();
    if n != 10 {
        return None;
    }
    if !(s.get_char(4) == '-') {
        return None;
    }
    if !(s.get_char(7) == '-') {
        return None;
    }
    let y = match read_digits(s, 0, 4) {
        Some(v) => v,
        None => {
            return None;
        },
    };
    let m = match read_digits(s, 5, 7) {
        Some(v) => v,
        None => {
            return None;
        },
    };
    let d = match read_digits(s, 8, 10) {
        Some(v) => v,
        None => {
            return None;
        },
    };
    day_from_ymd(y as i32, m, d)
}

} // verus!
