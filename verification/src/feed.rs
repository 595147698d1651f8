//! The ingestion pipeline: turns the raw daily rate feed — delimited
//! text with a header row, one row per date, one column per tracked
//! currency, and a fixed sentinel for "not available" — into the
//! populated, gap-free rate store.

use vstd::prelude::*;
use crate::currency::{code_of_str, code_str_wf, pack_code, Currency, EUR_CODE};
use crate::dates::{
    parse_ymd, spec_day_number, ymd_str_day, ymd_str_month, ymd_str_wf, ymd_str_year, Day,
};
use crate::decimal::{
    canon_dec, dec_neg, dec_str_in_range, dec_str_mag, dec_str_scale, dec_str_signed_mag,
    dec_str_wf, parse_decimal, Dec,
};
use crate::store::{cell_wf, first_row, lemma_first_row, ExchangeStore, RateRow, SyncError};

verus! {

/// The index of the first occurrence of the character, or the length.
pub open spec fn first_ch(s: Seq<char>, c: char) -> int
    decreases s.len(),
{
    if s.len() == 0 {
        0
    } else if s[0] == c {
        0
    } else {
        1 + first_ch(s.skip(1), c)
    }
}

/// `first_ch` is the least index holding the character.
pub proof fn lemma_first_ch(s: Seq<char>, c: char)
    ensures
        0 <= first_ch(s, c) <= s.len(),
        first_ch(s, c) < s.len() ==> s[first_ch(s, c)] == c,
        forall|k: int| 0 <= k < first_ch(s, c) ==> #[trigger] s[k] != c,
    decreases s.len(),
{
    if s.len() == 0 {
    } else if s[0] == c {
    } else {
        lemma_first_ch(s.skip(1), c);
        let f = first_ch(s, c);
        assert(forall|k: int| 1 <= k < f ==> #[trigger] s[k] == s.skip(1)[k - 1]);
    }
}

/// The fields the text splits into at the separator.
pub open spec fn split_spec(s: Seq<char>, sep: char) -> Seq<Seq<char>>
    decreases s.len(),
{
    let f = first_ch(s, sep);
    if 0 <= f < s.len() {
        seq![s.take(f)] + split_spec(s.skip(f + 1), sep)
    } else {
        seq![s]
    }
}

/// The views of a field list.
pub open spec fn views_of(v: Seq<String>) -> Seq<Seq<char>> {
    v.map_values(|t: String| t@)
}

/// Splits text at every occurrence of the separator; the fields joined
/// by the separator give the text back.
#[verifier::loop_isolation(false)]
pub fn split(s: &str, sep: char) -> (r: Vec<String>)
    ensures
        views_of(r@) == split_spec(s@, sep),
{
    let n = s.unicode_len();
    let mut out: Vec<String> = Vec::new();
    let mut st: usize = 0;
    proof {
        assert(s@.skip(0) =~= s@);
        assert(views_of(out@) =~= Seq::<Seq<char>>::empty());
        assert(Seq::<Seq<char>>::empty() + split_spec(s@, sep) =~= split_spec(s@, sep));
    }
    loop
        invariant
            st <= n,
            n == s@.len(),
            split_spec(s@, sep) == views_of(out@) + split_spec(s@.skip(st as int), sep),
        decreases n - st,
    {
        let mut j = st;
        while j < n && !(s.get_char(j) == sep)
            invariant
                st <= j <= n,
                forall|k: int| st <= k < j ==> s@[k] != sep,
            decreases n - j,
        {
            j = j + 1;
        }
        let ghost tail = s@.skip(st as int);
        proof {
            lemma_first_ch(tail, sep);
            assert(forall|k: int| 0 <= k < tail.len() ==> #[trigger] tail[k] == s@[k + st]);
            let f = first_ch(tail, sep);
            assert(f >= j - st) by {
                if f < j - st {
                    assert(tail[f] == sep);
                    assert(s@[f + st] != sep);
                }
            }
            if j < n {
                assert(tail[j - st] == sep);
                assert(f == j - st);
            } else {
                assert(f == tail.len());
            }
        }
        let piece = s.substring_char(st, j);
        out.push(piece.to_owned());
        proof {
            let f = first_ch(tail, sep);
            if j < n {
                assert(tail.take(f) =~= piece@);
                assert(tail.skip(f + 1) =~= s@.skip(j + 1));
                assert(split_spec(tail, sep) == seq![piece@] + split_spec(s@.skip(j + 1), sep));
                assert(views_of(out@) =~= views_of(out@.drop_last()).push(piece@));
                assert(views_of(out@) + split_spec(s@.skip(j + 1), sep) =~= views_of(
                    out@.drop_last(),
                ) + split_spec(tail, sep));
            } else {
                assert(tail =~= piece@);
                assert(split_spec(tail, sep) == seq![piece@]);
                assert(views_of(out@) =~= views_of(out@.drop_last()).push(piece@));
                assert(views_of(out@) =~= views_of(out@.drop_last()) + split_spec(tail, sep));
            }
        }
        if j == n {
            proof {
                assert(views_of(out@) == split_spec(s@, sep));
            }
            return out;
        }
        st = j + 1;
    }
}

/// The feed's sentinel for a missing quote.
pub open spec fn is_sentinel(t: Seq<char>) -> bool {
    t == "N/A"@
}

/// Whether the field is the missing-quote sentinel.
pub fn sentinel_exec(t: &str) -> (r: bool)
    ensures
        r == is_sentinel(t@),
{
    proof {
        reveal_strlit("N/A");
    }
    if t.unicode_len() != 3 {
        proof {
            assert(t@ != "N/A"@);
        }
        return false;
    }
    let ok = t.get_char(0) == 'N' && t.get_char(1) == '/' && t.get_char(2) == 'A';
    proof {
        if ok {
            assert(t@ =~= "N/A"@);
        } else {
            assert(t@ != "N/A"@);
        }
    }
    ok
}

/// A well-formed quote field: the sentinel, empty, or an exact strictly
/// positive decimal within the caps.
pub open spec fn cell_text_ok(t: Seq<char>) -> bool {
    is_sentinel(t) || t.len() == 0 || (dec_str_wf(t) && dec_str_in_range(t) && dec_str_signed_mag(
        t,
    ) > 0)
}

/// The cell a quote field denotes: nothing for the sentinel or an empty
/// field, else the canonical decimal the text denotes.
pub open spec fn cell_of_text(t: Seq<char>) -> Option<Dec> {
    if is_sentinel(t) || t.len() == 0 {
        None
    } else {
        Some(canon_dec(dec_neg(t), dec_str_mag(t), dec_str_scale(t) as nat))
    }
}

/// Parses one quote field. Fails exactly when the field is neither the
/// sentinel, nor empty, nor an exact strictly positive decimal within
/// the caps.
pub fn parse_cell(t: &str) -> (r: Result<Option<Dec>, SyncError>)
    ensures
        r is Ok <==> cell_text_ok(t@),
        r matches Ok(c) ==> c == cell_of_text(t@) && cell_wf(c),
        r matches Err(e) ==> e == SyncError::Seed,
{
    if sentinel_exec(t) {
        return Ok(None);
    }
    if t.unicode_len() == 0 {
        return Ok(None);
    }
    match parse_decimal(t) {
        Some(q) => {
            if q.m > 0 {
                proof {
                    crate::decimal::lemma_pow10_pos(q.s as nat);
                    crate::decimal::lemma_pow10_pos(dec_str_scale(t@) as nat);
                    let sm = dec_str_signed_mag(t@);
                    assert(sm > 0) by (nonlinear_arith)
                        requires
                            q.m * crate::decimal::pow10(dec_str_scale(t@) as nat) == sm
                                * crate::decimal::pow10(q.s as nat),
                            q.m > 0,
                            crate::decimal::pow10(q.s as nat) >= 1,
                            crate::decimal::pow10(dec_str_scale(t@) as nat) >= 1,
                    ;
                }
                Ok(Some(q))
            } else {
                proof {
                    crate::decimal::lemma_pow10_pos(q.s as nat);
                    crate::decimal::lemma_pow10_pos(dec_str_scale(t@) as nat);
                    let sm = dec_str_signed_mag(t@);
                    assert(!(sm > 0)) by (nonlinear_arith)
                        requires
                            q.m * crate::decimal::pow10(dec_str_scale(t@) as nat) == sm
                                * crate::decimal::pow10(q.s as nat),
                            q.m <= 0,
                            crate::decimal::pow10(q.s as nat) >= 1,
                            crate::decimal::pow10(dec_str_scale(t@) as nat) >= 1,
                    ;
                }
                Err(SyncError::Seed)
            }
        },
        None => Err(SyncError::Seed),
    }
}

/// The feed's lines: the text split at every newline.
pub open spec fn feed_lines(csv: Seq<char>) -> Seq<Seq<char>> {
    split_spec(csv, '\n')
}

/// The text of line `ln`, without a trailing carriage return.
pub open spec fn line_text(csv: Seq<char>, ln: int) -> Seq<char> {
    strip_cr_spec(feed_lines(csv)[ln])
}

/// The header fields: the first line split at every comma.
pub open spec fn header_fields_of(csv: Seq<char>) -> Seq<Seq<char>> {
    split_spec(line_text(csv, 0), ',')
}

/// The header names at least one field.
pub open spec fn header_nonempty(csv: Seq<char>) -> bool {
    line_text(csv, 0).len() > 0
}

/// The first header field carrying the currency code, or the length.
pub open spec fn first_code_col(fields: Seq<Seq<char>>, code: u32) -> int
    decreases fields.len(),
{
    if fields.len() == 0 {
        0
    } else if code_str_wf(fields[0]) && code_of_str(fields[0]) == code {
        0
    } else {
        1 + first_code_col(fields.skip(1), code)
    }
}

/// `first_code_col` is the least index carrying the code.
pub proof fn lemma_first_code_col(fields: Seq<Seq<char>>, code: u32)
    ensures
        0 <= first_code_col(fields, code) <= fields.len(),
        first_code_col(fields, code) < fields.len() ==> code_str_wf(
            fields[first_code_col(fields, code)],
        ) && code_of_str(fields[first_code_col(fields, code)]) == code,
        forall|k: int| 0 <= k < first_code_col(fields, code) ==> !(code_str_wf(#[trigger] fields[k])
            && code_of_str(fields[k]) == code),
    decreases fields.len(),
{
    if fields.len() == 0 {
    } else if code_str_wf(fields[0]) && code_of_str(fields[0]) == code {
    } else {
        lemma_first_code_col(fields.skip(1), code);
        let f = first_code_col(fields, code);
        assert(forall|k: int| 1 <= k < f ==> #[trigger] fields[k] == fields.skip(1)[k - 1]);
    }
}

/// A valid tracked currency set: euro free and duplicate free.
pub open spec fn currency_set_ok(currs: Seq<Currency>) -> bool {
    &&& forall|k: int| 0 <= k < currs.len() ==> (#[trigger] currs[k]).code != EUR_CODE
    &&& forall|i: int, j: int| 0 <= i < j < currs.len() ==> currs[i].code != currs[j].code
}

/// Every tracked currency has a header column.
pub open spec fn header_has_columns(csv: Seq<char>, currs: Seq<Currency>) -> bool {
    forall|k: int| 0 <= k < currs.len() ==> first_code_col(
        header_fields_of(csv),
        (#[trigger] currs[k]).code,
    ) < header_fields_of(csv).len()
}

/// The fields of a stripped data line.
pub open spec fn sline_fields(t: Seq<char>) -> Seq<Seq<char>> {
    split_spec(t, ',')
}

/// A well-formed data line: an existing date in the first field, and,
/// for every tracked currency, a well-formed quote field in its header
/// column.
pub open spec fn sline_ok(t: Seq<char>, currs: Seq<Currency>, hfields: Seq<Seq<char>>) -> bool {
    let fs = sline_fields(t);
    &&& ymd_str_wf(fs[0])
    &&& spec_day_number(ymd_str_year(fs[0]), ymd_str_month(fs[0]), ymd_str_day(fs[0])) is Some
    &&& forall|k: int| 0 <= k < currs.len() ==> {
        let col = first_code_col(hfields, (#[trigger] currs[k]).code);
        col < fs.len() && cell_text_ok(fs[col])
    }
}

/// The ordinal of the date a data line carries.
pub open spec fn sline_day(t: Seq<char>) -> int {
    let f0 = sline_fields(t)[0];
    spec_day_number(ymd_str_year(f0), ymd_str_month(f0), ymd_str_day(f0)).unwrap()
}

/// The cell the line carries for tracked currency number `k`.
pub open spec fn sline_cell(t: Seq<char>, currs: Seq<Currency>, hfields: Seq<Seq<char>>, k: int) -> Option<
    Dec,
> {
    cell_of_text(sline_fields(t)[first_code_col(hfields, currs[k].code)])
}

/// Line `ln` of the feed is blank after stripping.
pub open spec fn line_blank(csv: Seq<char>, ln: int) -> bool {
    line_text(csv, ln).len() == 0
}

/// Every data line of the feed is blank or well formed.
pub open spec fn feed_lines_ok(csv: Seq<char>, currs: Seq<Currency>) -> bool {
    forall|ln: int| 1 <= ln < feed_lines(csv).len() ==> #[trigger] line_blank(csv, ln) || sline_ok(
        line_text(csv, ln),
        currs,
        header_fields_of(csv),
    )
}

/// No two data lines carry one date.
pub open spec fn feed_days_distinct(csv: Seq<char>) -> bool {
    forall|i: int, j: int|
        1 <= i < j < feed_lines(csv).len() && !line_blank(csv, i) && !line_blank(csv, j)
            ==> #[trigger] sline_day(line_text(csv, i)) != #[trigger] sline_day(line_text(csv, j))
}

/// The feed has at least one data line.
pub open spec fn feed_has_data(csv: Seq<char>) -> bool {
    exists|ln: int| 1 <= ln < feed_lines(csv).len() && !(#[trigger] line_blank(csv, ln))
}

/// A well-formed feed for a valid currency set: a nonempty header
/// naming a column for every tracked currency, every data line blank or
/// well formed, no repeated date, and at least one data line.
pub open spec fn feed_wf(csv: Seq<char>, currs: Seq<Currency>) -> bool {
    &&& currency_set_ok(currs)
    &&& header_nonempty(csv)
    &&& header_has_columns(csv, currs)
    &&& feed_lines_ok(csv, currs)
    &&& feed_days_distinct(csv)
    &&& feed_has_data(csv)
}

/// Finds the first header column carrying the code, if any.
#[verifier::loop_isolation(false)]
fn find_code_col(fields: &Vec<String>, code: u32) -> (r: Option<usize>)
    ensures
        r matches Some(c) ==> c == first_code_col(views_of(fields@), code) && c < fields@.len(),
        r is None <==> first_code_col(views_of(fields@), code) == views_of(fields@).len(),
{
    proof {
        lemma_first_code_col(views_of(fields@), code);
    }
    let mut col: usize = 0;
    while col < fields.len()
        invariant
            0 <= col <= fields@.len(),
            forall|c: int| 0 <= c < col ==> !(code_str_wf(#[trigger] views_of(fields@)[c])
                && code_of_str(views_of(fields@)[c]) == code),
        decreases fields@.len() - col,
    {
        proof {
            assert(views_of(fields@)[col as int] == fields@[col as int]@);
        }
        match pack_code(fields[col].as_str()) {
            Some(p) => {
                if p == code {
                    proof {
                        let f = first_code_col(views_of(fields@), code);
                        if f < col {
                            assert(!(code_str_wf(views_of(fields@)[f]) && code_of_str(
                                views_of(fields@)[f],
                            ) == code));
                        }
                        if f > col {
                            assert(!(code_str_wf(views_of(fields@)[col as int]) && code_of_str(
                                views_of(fields@)[col as int],
                            ) == code));
                        }
                    }
                    return Some(col);
                }
            },
            None => {},
        }
        col = col + 1;
    }
    proof {
        let f = first_code_col(views_of(fields@), code);
        if f < fields@.len() {
            assert(!(code_str_wf(views_of(fields@)[f]) && code_of_str(views_of(fields@)[f])
                == code));
        }
    }
    None
}

/// Parses one stripped data line into its date and its cells, one per
/// tracked currency, read from the currency's header column. Fails
/// exactly when the line is not well formed.
#[verifier::loop_isolation(false)]
fn parse_feed_line(
    line: &str,
    currencies: &Vec<Currency>,
    colmap: &Vec<usize>,
    Ghost(hfields): Ghost<Seq<Seq<char>>>,
) -> (r: Result<(Day, Vec<Option<Dec>>), SyncError>)
    requires
        colmap@.len() == currencies@.len(),
        forall|k: int| 0 <= k < colmap@.len() ==> (#[trigger] colmap@[k]) == first_code_col(
            hfields,
            currencies@[k].code,
        ),
    ensures
        r is Ok <==> sline_ok(line@, currencies@, hfields),
        r matches Ok((day, cells)) ==> {
            &&& day.ordinal == sline_day(line@)
            &&& cells@.len() == currencies@.len()
            &&& forall|k: int| 0 <= k < currencies@.len() ==> (#[trigger] cells@[k]) == sline_cell(
                line@,
                currencies@,
                hfields,
                k,
            )
            &&& forall|k: int| 0 <= k < currencies@.len() ==> cell_wf(#[trigger] cells@[k])
        },
        r matches Err(e) ==> e == SyncError::Seed,
{
    let fields = split(line, ',');
    proof {
        assert(split_spec(line@, ',').len() >= 1);
        assert(fields@.len() == views_of(fields@).len());
        assert(views_of(fields@)[0] == fields@[0]@);
    }
    let day = match parse_ymd(fields[0].as_str()) {
        Some(day) => day,
        None => {
            return Err(SyncError::Seed);
        },
    };
    let width = currencies.len();
    let mut cells: Vec<Option<Dec>> = Vec::new();
    let mut k: usize = 0;
    while k < width
        invariant
            width == currencies@.len(),
            0 <= k <= width,
            cells@.len() == k,
            forall|j: int| 0 <= j < k ==> (#[trigger] cells@[j]) == sline_cell(
                line@,
                currencies@,
                hfields,
                j,
            ),
            forall|j: int| 0 <= j < k ==> cell_wf(#[trigger] cells@[j]),
            forall|j: int| 0 <= j < k ==> {
                let col = first_code_col(hfields, (#[trigger] currencies@[j]).code);
                col < sline_fields(line@).len() && cell_text_ok(sline_fields(line@)[col])
            },
        decreases width - k,
    {
        let col = colmap[k];
        if col >= fields.len() {
            return Err(SyncError::Seed);
        }
        proof {
            assert(views_of(fields@)[col as int] == fields@[col as int]@);
        }
        match parse_cell(fields[col].as_str()) {
            Ok(c) => {
                cells.push(c);
            },
            Err(e) => {
                return Err(e);
            },
        }
        k = k + 1;
    }
    Ok((day, cells))
}

/// Inserts a row into a date-sorted row list, keeping it sorted.
/// Fails exactly when a row with the same date is already present.
#[verifier::loop_isolation(false)]
fn insert_row(rows: &mut Vec<RateRow>, row: RateRow, Ghost(width): Ghost<int>) -> (r: Result<
    (),
    SyncError,
>)
    requires
        forall|i: int, j: int| 0 <= i < j < old(rows)@.len()
            ==> (#[trigger] old(rows)@[i]).day.ordinal < (#[trigger] old(rows)@[j]).day.ordinal,
        forall|i: int| 0 <= i < old(rows)@.len() ==> (#[trigger] old(rows)@[i]).wf(width),
        row.wf(width),
        !row.interpolated,
        forall|i: int| 0 <= i < old(rows)@.len() ==> !(#[trigger] old(rows)@[i]).interpolated,
    ensures
        r is Err <==> exists|i: int|
            0 <= i < old(rows)@.len() && (#[trigger] old(rows)@[i]).day.ordinal == row.day.ordinal,
        r is Err ==> final(rows)@ == old(rows)@,
        r matches Err(e) ==> e == SyncError::Seed,
        r is Ok ==> {
            &&& final(rows)@.len() == old(rows)@.len() + 1
            &&& forall|i: int, j: int| 0 <= i < j < final(rows)@.len()
                ==> (#[trigger] final(rows)@[i]).day.ordinal
                < (#[trigger] final(rows)@[j]).day.ordinal
            &&& forall|i: int| 0 <= i < final(rows)@.len() ==> (#[trigger] final(rows)@[i]).wf(
                width,
            )
            &&& forall|i: int| 0 <= i < final(rows)@.len()
                ==> !(#[trigger] final(rows)@[i]).interpolated
            // Every earlier row is still found at its date.
            &&& forall|d: int| first_row(old(rows)@, d) < old(rows)@.len() ==> first_row(
                final(rows)@,
                d,
            ) < final(rows)@.len() && final(rows)@[first_row(final(rows)@, d)] == old(rows)@[
                first_row(old(rows)@, d)
            ]
            // The new row is found at its date.
            &&& first_row(final(rows)@, row.day.ordinal as int) < final(rows)@.len()
            &&& final(rows)@[first_row(final(rows)@, row.day.ordinal as int)] == row
            // Nothing but the old rows and the new row is present.
            &&& forall|i: int| 0 <= i < final(rows)@.len() ==> (#[trigger] final(rows)@[i]) == row
                || exists|j: int| 0 <= j < old(rows)@.len() && old(rows)@[j] == final(rows)@[i]
        },
{
    let mut p: usize = 0;
    while p < rows.len() && rows[p].day.ordinal < row.day.ordinal
        invariant
            0 <= p <= rows@.len(),
            forall|k: int| 0 <= k < p ==> (#[trigger] rows@[k]).day.ordinal < row.day.ordinal,
        decreases rows@.len() - p,
    {
        p = p + 1;
    }
    if p < rows.len() && rows[p].day.ordinal == row.day.ordinal {
        return Err(SyncError::Seed);
    }
    proof {
        assert forall|i: int|
            0 <= i < rows@.len() implies (#[trigger] rows@[i]).day.ordinal
            != row.day.ordinal by {
            if i >= p && p < rows@.len() {
                if i > p {
                    assert(rows@[p as int].day.ordinal < rows@[i].day.ordinal);
                }
            }
        }
    }
    let ghost pre = rows@;
    rows.insert(p, row);
    proof {
        pre.insert_ensures(p as int, row);
        assert forall|i: int, j: int|
            0 <= i < j < rows@.len() implies (#[trigger] rows@[i]).day.ordinal
            < (#[trigger] rows@[j]).day.ordinal by {
            if j < p {
            } else if i < p && j == p {
                assert(rows@[i] == pre[i]);
            } else if i < p && j > p {
                assert(rows@[j] == pre[j - 1]);
                if j - 1 == p as int {
                    // rows@[j] is pre[p], which is above the new row.
                } else {
                }
                if p < pre.len() {
                    assert(pre[p as int].day.ordinal > row.day.ordinal);
                }
            } else if i == p {
                assert(rows@[j] == pre[j - 1]);
                assert(pre[p as int].day.ordinal > row.day.ordinal);
            } else {
                assert(rows@[i] == pre[i - 1]);
                assert(rows@[j] == pre[j - 1]);
            }
        }
        assert forall|i: int| 0 <= i < rows@.len() implies (#[trigger] rows@[i]).wf(width)
            && !rows@[i].interpolated by {
            if i < p {
                assert(rows@[i] == pre[i]);
            } else if i == p {
            } else {
                assert(rows@[i] == pre[i - 1]);
            }
        }
        assert forall|i: int| 0 <= i < rows@.len() implies (#[trigger] rows@[i]) == row || exists|
            j: int,
        | 0 <= j < pre.len() && pre[j] == rows@[i] by {
            if i < p {
                assert(pre[i] == rows@[i]);
            } else if i > p {
                assert(pre[i - 1] == rows@[i]);
            }
        }
        // Lookups by date: rows are found where `first_row` points.
        assert forall|d: int| first_row(pre, d) < pre.len() implies first_row(rows@, d)
            < rows@.len() && rows@[first_row(rows@, d)] == pre[first_row(pre, d)] by {
            lemma_first_row(pre, d);
            lemma_first_row(rows@, d);
            let fo = first_row(pre, d);
            let i = if fo < p { fo } else { fo + 1 };
            assert(rows@[i] == pre[fo]);
            lemma_row_found(rows@, i);
            let fn_ = first_row(rows@, d);
            assert(fn_ < rows@.len());
            assert(rows@[fn_].day.ordinal == d);
            // Uniqueness of the date among sorted rows.
            if fn_ != i {
                if fn_ < i {
                    assert(rows@[fn_].day.ordinal < rows@[i].day.ordinal);
                } else {
                    assert(rows@[i].day.ordinal < rows@[fn_].day.ordinal);
                }
            }
        }
        lemma_first_row(rows@, row.day.ordinal as int);
        lemma_row_found(rows@, p as int);
        {
            let fn_ = first_row(rows@, row.day.ordinal as int);
            assert(rows@[p as int] == row);
            if fn_ != p {
                if fn_ < p {
                    assert(rows@[fn_].day.ordinal < rows@[p as int].day.ordinal);
                } else {
                    assert(rows@[p as int].day.ordinal < rows@[fn_].day.ordinal);
                }
            }
        }
    }
    Ok(())
}

/// A row present at an index is found by `first_row`.
proof fn lemma_row_found(rows: Seq<RateRow>, i: int)
    requires
        0 <= i < rows.len(),
    ensures
        first_row(rows, rows[i].day.ordinal as int) < rows.len(),
        rows[first_row(rows, rows[i].day.ordinal as int)].day.ordinal == rows[i].day.ordinal,
{
    let d = rows[i].day.ordinal as int;
    lemma_first_row(rows, d);
    if first_row(rows, d) > i {
        assert(rows[i].day.ordinal != d);
    }
}

impl ExchangeStore {
    /// The store serves the feed: every data line has an observed row
    /// at the line's date carrying the line's parsed cells, and every
    /// observed row stems from some data line.
    pub open spec fn serves_feed(self, csv: Seq<char>, currs: Seq<Currency>) -> bool {
        &&& forall|ln: int|
            1 <= ln < feed_lines(csv).len() && !(#[trigger] line_blank(csv, ln)) ==> {
                let d = sline_day(line_text(csv, ln));
                &&& self.has_row(d)
                &&& !self.row_at(d).interpolated
                &&& forall|k: int| 0 <= k < currs.len() ==> self.row_at(d).cells@[k] == sline_cell(
                    line_text(csv, ln),
                    currs,
                    header_fields_of(csv),
                    k,
                )
            }
        &&& forall|d: int|
            #[trigger] self.has_row(d) && !self.row_at(d).interpolated ==> exists|ln: int|
                1 <= ln < feed_lines(csv).len() && !(#[trigger] line_blank(csv, ln)) && sline_day(
                    line_text(csv, ln),
                ) == d
    }

    /// The store holds exactly one observed row per data line of the
    /// feed, carrying the line's date and its parsed cells, and nothing
    /// else.
    pub open spec fn observed_rows_of_feed(self, csv: Seq<char>, currs: Seq<Currency>) -> bool {
        &&& self.currencies@ == currs
        &&& self.wf()
        &&& forall|i: int| 0 <= i < self.rows@.len() ==> !(#[trigger] self.rows@[i]).interpolated
        &&& forall|ln: int|
            1 <= ln < feed_lines(csv).len() && !(#[trigger] line_blank(csv, ln)) ==> {
                let d = sline_day(line_text(csv, ln));
                &&& self.has_row(d)
                &&& forall|k: int| 0 <= k < currs.len() ==> self.row_at(d).cells@[k] == sline_cell(
                    line_text(csv, ln),
                    currs,
                    header_fields_of(csv),
                    k,
                )
            }
        &&& forall|i: int| 0 <= i < self.rows@.len() ==> exists|ln: int|
            1 <= ln < feed_lines(csv).len() && !(#[trigger] line_blank(csv, ln)) && sline_day(
                line_text(csv, ln),
            ) == (#[trigger] self.rows@[i]).day.ordinal
    }

    /// Builds the store from the raw feed text: splits it into lines
    /// and fields, maps each tracked currency to its header column,
    /// parses every dated row as observed data, and precomputes one
    /// interpolated row for every missing date between the first and
    /// the last observed date, so the result has no gap within its
    /// bounds. Succeeds exactly on a well-formed feed; the observed
    /// rows of the result are exactly the feed's data lines with their
    /// parsed cells, so running it again on an extended feed yields the
    /// extended store, never duplicating or corrupting prior observed
    /// rows. Fails with `CouldNotRead` exactly when the currency set
    /// holds the euro or a duplicate; with `NoEcbHistory` exactly when
    /// the header is empty or the feed has no data line; and with
    /// `Seed` exactly when a tracked currency has no header column, a
    /// line is malformed, or a date repeats.
    #[verifier::loop_isolation(false)]
    pub fn sync(csv: &str, currencies: Vec<Currency>) -> (r: Result<
        (ExchangeStore, Day),
        SyncError,
    >)
        ensures
            r == Result::<(ExchangeStore, Day), SyncError>::Err(SyncError::CouldNotRead)
                <==> !currency_set_ok(currencies@),
            currency_set_ok(currencies@) ==> (r == Result::<(ExchangeStore, Day), SyncError>::Err(
                SyncError::NoEcbHistory,
            ) <==> (!header_nonempty(csv@) || (header_has_columns(csv@, currencies@)
                && !feed_has_data(csv@)))),
            currency_set_ok(currencies@) && header_nonempty(csv@) ==> (r == Result::<
                (ExchangeStore, Day),
                SyncError,
            >::Err(SyncError::Seed) <==> (!header_has_columns(csv@, currencies@) || !feed_lines_ok(
                csv@,
                currencies@,
            ) || !feed_days_distinct(csv@))),
            r is Ok <==> feed_wf(csv@, currencies@),
            r matches Ok((st, latest)) ==> {
                &&& st.wf()
                &&& st.currencies@ == currencies@
                &&& st.rows@.len() > 0
                &&& latest == st.rows@.last().day
                &&& !st.rows@[0].interpolated
                &&& !st.rows@.last().interpolated
                &&& st.rows@.len() == st.rows@.last().day.ordinal - st.rows@[0].day.ordinal + 1
                &&& forall|d: int|
                    st.rows@[0].day.ordinal <= d <= st.rows@.last().day.ordinal
                        ==> #[trigger] st.has_row(d)
                // The observed rows are exactly the feed's data lines
                // with their parsed cells; every other row is an
                // interpolated gap row.
                &&& st.serves_feed(csv@, currencies@)
                // The result is the gap-free materialization of the
                // observed rows of the feed, gap cells pinned to the
                // interpolation of their nearest observed neighbors.
                &&& exists|base: ExchangeStore| (#[trigger] base.observed_rows_of_feed(
                    csv@,
                    currencies@,
                )) && st.merged_from(base)
            },
    {
        // Validate the tracked currency set.
        let width = currencies.len();
        let mut a: usize = 0;
        while a < width
            invariant
                0 <= a <= width,
                forall|k: int| 0 <= k < a ==> (#[trigger] currencies@[k]).code != EUR_CODE,
                forall|i: int, j: int| 0 <= i < j < a ==> currencies@[i].code
                    != currencies@[j].code,
            decreases width - a,
        {
            if currencies[a].code == EUR_CODE {
                return Err(SyncError::CouldNotRead);
            }
            let mut b: usize = 0;
            while b < a
                invariant
                    0 <= b <= a < width,
                    forall|j: int| 0 <= j < b ==> currencies@[j].code != currencies@[a as int].code,
                decreases a - b,
            {
                if currencies[b].code == currencies[a].code {
                    return Err(SyncError::CouldNotRead);
                }
                b = b + 1;
            }
            a = a + 1;
        }
        proof {
            assert(currency_set_ok(currencies@));
        }
        let lines = split(csv, '\n');
        proof {
            assert(split_spec(csv@, '\n').len() >= 1);
            assert(lines@.len() == views_of(lines@).len());
            assert(views_of(lines@)[0] == lines@[0]@);
        }
        let header = strip_cr(&lines[0]);
        proof {
            assert(header@ == line_text(csv@, 0));
        }
        if header.as_str().unicode_len() == 0 {
            return Err(SyncError::NoEcbHistory);
        }
        let header_fields = split(header.as_str(), ',');
        let ghost hfields = header_fields_of(csv@);
        proof {
            assert(views_of(header_fields@) == hfields);
        }
        // Map each tracked currency to its header column.
        let mut colmap: Vec<usize> = Vec::new();
        let mut k: usize = 0;
        while k < width
            invariant
                0 <= k <= width,
                colmap@.len() == k,
                forall|i: int| 0 <= i < k ==> (#[trigger] colmap@[i]) == first_code_col(
                    hfields,
                    currencies@[i].code,
                ) && colmap@[i] < hfields.len(),
            decreases width - k,
        {
            match find_code_col(&header_fields, currencies[k].code) {
                Some(col) => {
                    colmap.push(col);
                },
                None => {
                    proof {
                        assert(!header_has_columns(csv@, currencies@));
                    }
                    return Err(SyncError::Seed);
                },
            }
            k = k + 1;
        }
        proof {
            assert forall|k2: int| 0 <= k2 < currencies@.len() implies first_code_col(
                header_fields_of(csv@),
                (#[trigger] currencies@[k2]).code,
            ) < header_fields_of(csv@).len() by {
                assert(colmap@[k2] == first_code_col(hfields, currencies@[k2].code) && colmap@[k2]
                    < hfields.len());
            }
            assert(header_has_columns(csv@, currencies@));
        }
        // Parse every data line as an observed row.
        let mut rows: Vec<RateRow> = Vec::new();
        let mut ln: usize = 1;
        while ln < lines.len()
            invariant
                1 <= ln <= lines@.len(),
                forall|i: int, j: int| 0 <= i < j < rows@.len()
                    ==> (#[trigger] rows@[i]).day.ordinal < (#[trigger] rows@[j]).day.ordinal,
                forall|i: int| 0 <= i < rows@.len() ==> (#[trigger] rows@[i]).wf(width as int),
                forall|i: int| 0 <= i < rows@.len() ==> !(#[trigger] rows@[i]).interpolated,
                forall|l: int| 1 <= l < ln ==> #[trigger] line_blank(csv@, l) || sline_ok(
                    line_text(csv@, l),
                    currencies@,
                    hfields,
                ),
                forall|l: int|
                    1 <= l < ln && !(#[trigger] line_blank(csv@, l)) ==> {
                        let d = sline_day(line_text(csv@, l));
                        &&& first_row(rows@, d) < rows@.len()
                        &&& rows@[first_row(rows@, d)].day.ordinal == d
                        &&& forall|k2: int| 0 <= k2 < width ==> rows@[first_row(
                            rows@,
                            d,
                        )].cells@[k2] == sline_cell(line_text(csv@, l), currencies@, hfields, k2)
                    },
                forall|i: int| 0 <= i < rows@.len() ==> exists|l: int|
                    1 <= l < ln && !(#[trigger] line_blank(csv@, l)) && sline_day(
                        line_text(csv@, l),
                    ) == (#[trigger] rows@[i]).day.ordinal,
                forall|l1: int, l2: int|
                    1 <= l1 < l2 < ln && !line_blank(csv@, l1) && !line_blank(csv@, l2)
                        ==> #[trigger] sline_day(line_text(csv@, l1)) != #[trigger] sline_day(
                        line_text(csv@, l2),
                    ),
            decreases lines@.len() - ln,
        {
            let line = strip_cr(&lines[ln]);
            proof {
                assert(views_of(lines@)[ln as int] == lines@[ln as int]@);
                assert(line@ == line_text(csv@, ln as int));
            }
            if line.as_str().unicode_len() == 0 {
                ln = ln + 1;
                continue ;
            }
            match parse_feed_line(line.as_str(), &currencies, &colmap, Ghost(hfields)) {
                Ok((day, cells)) => {
                    let row = RateRow { day, interpolated: false, cells };
                    let ghost pre_rows = rows@;
                    match insert_row(&mut rows, row, Ghost(width as int)) {
                        Ok(()) => {
                            proof {
                                // Every row still stems from a data line:
                                // the old ones by the old lines, the new
                                // one by this line.
                                assert forall|i: int| 0 <= i < rows@.len() implies exists|l: int|
                                    1 <= l < ln + 1 && !(#[trigger] line_blank(csv@, l))
                                        && sline_day(line_text(csv@, l)) == (#[trigger] rows@[
                                    i
                                ]).day.ordinal by {
                                    if rows@[i] == row {
                                        assert(1 <= ln < ln + 1 && !line_blank(csv@, ln as int)
                                            && sline_day(line_text(csv@, ln as int)) == rows@[
                                        i
                                        ].day.ordinal);
                                    } else {
                                        let j = choose|j: int|
                                            0 <= j < pre_rows.len() && pre_rows[j] == rows@[i];
                                        let l = choose|l: int|
                                            1 <= l < ln && !(#[trigger] line_blank(csv@, l))
                                                && sline_day(line_text(csv@, l)) == pre_rows[
                                            j
                                            ].day.ordinal;
                                        assert(1 <= l < ln + 1 && !line_blank(csv@, l)
                                            && sline_day(line_text(csv@, l)) == rows@[
                                        i
                                        ].day.ordinal);
                                    }
                                }
                                // No two lines so far carry one date.
                                assert forall|l1: int, l2: int|
                                    1 <= l1 < l2 < ln + 1 && !line_blank(csv@, l1) && !line_blank(
                                        csv@,
                                        l2,
                                    ) implies #[trigger] sline_day(line_text(csv@, l1))
                                    != #[trigger] sline_day(line_text(csv@, l2)) by {
                                    if l2 == ln {
                                        let d1 = sline_day(line_text(csv@, l1));
                                        assert(first_row(pre_rows, d1) < pre_rows.len());
                                        crate::store::lemma_first_row(pre_rows, d1);
                                        let fi = first_row(pre_rows, d1);
                                        assert(pre_rows[fi].day.ordinal == d1);
                                        if d1 == row.day.ordinal {
                                            assert(exists|i: int|
                                                0 <= i < pre_rows.len() && (#[trigger] pre_rows[
                                                i
                                                ]).day.ordinal == row.day.ordinal);
                                        }
                                    }
                                }
                            }
                        },
                        Err(e) => {
                            // A repeated date: the clashing row came
                            // from an earlier data line.
                            proof {
                                let i = choose|i: int|
                                    0 <= i < rows@.len() && (#[trigger] rows@[i]).day.ordinal
                                        == row.day.ordinal;
                                let l = choose|l: int|
                                    1 <= l < ln && !(#[trigger] line_blank(csv@, l)) && sline_day(
                                        line_text(csv@, l),
                                    ) == rows@[i].day.ordinal;
                                assert(sline_day(line_text(csv@, l)) == sline_day(
                                    line_text(csv@, ln as int),
                                ));
                                assert(!feed_days_distinct(csv@));
                                assert(feed_has_data(csv@));
                            }
                            return Err(e);
                        },
                    }
                    ln = ln + 1;
                },
                Err(e) => {
                    proof {
                        assert(feed_lines(csv@).len() == lines@.len());
                        assert(1 <= ln < feed_lines(csv@).len());
                        assert(!line_blank(csv@, ln as int));
                        assert(!sline_ok(line_text(csv@, ln as int), currencies@, hfields));
                        assert(!feed_lines_ok(csv@, currencies@));
                        assert(feed_has_data(csv@));
                    }
                    return Err(e);
                },
            }
        }
        if rows.len() == 0 {
            proof {
                assert forall|l: int|
                    1 <= l < feed_lines(csv@).len() implies #[trigger] line_blank(csv@, l) by {
                    if !line_blank(csv@, l) {
                        assert(first_row(rows@, sline_day(line_text(csv@, l))) < rows@.len());
                    }
                }
                assert(!feed_has_data(csv@));
            }
            return Err(SyncError::NoEcbHistory);
        }
        proof {
            assert(feed_has_data(csv@)) by {
                let l = choose|l: int|
                    1 <= l < lines@.len() && !(#[trigger] line_blank(csv@, l)) && sline_day(
                        line_text(csv@, l),
                    ) == rows@[0].day.ordinal;
                assert(1 <= l < feed_lines(csv@).len() && !line_blank(csv@, l));
            }
        }
        let base = ExchangeStore { currencies, rows };
        proof {
            assert(base.observed_rows_of_feed(csv@, base.currencies@));
            // Every interior date is bracketed by the first and last
            // rows, which are observed.
            assert forall|d: int|
                base.rows@[0].day.ordinal < d
                    < base.rows@.last().day.ordinal implies #[trigger] base.gap_bracketed(d) by {
                crate::interpolate::lemma_prev_obs_nearest(base.rows@, d);
                crate::interpolate::lemma_next_obs_nearest(base.rows@, d);
                assert(base.rows@[0].day.ordinal < d && !base.rows@[0].interpolated);
                assert(base.rows@[base.rows@.len() - 1].day.ordinal > d && !base.rows@[base.rows@.len()
                    - 1].interpolated);
            }
        }
        let full = match base.precompute() {
            Ok(full) => full,
            Err(_) => {
                proof {
                    assert(false);
                }
                return Err(SyncError::Seed);
            },
        };
        let latest = match full.get_latest_date() {
            Some(d) => d,
            None => {
                proof {
                    assert(false);
                }
                return Err(SyncError::CouldNotRead);
            },
        };
        proof {
            lemma_merged_serves_lines(full, base, csv@, base.currencies@);
        }
        Ok((full, latest))
    }
}

/// The gap-free materialization of the feed's observed rows serves
/// every data line as an observed row with the line's cells, marks
/// every other row interpolated, and keeps the observed bounds.
proof fn lemma_merged_serves_lines(
    st: ExchangeStore,
    base: ExchangeStore,
    csv: Seq<char>,
    currs: Seq<Currency>,
)
    requires
        base.observed_rows_of_feed(csv, currs),
        st.merged_from(base),
        base.rows@.len() > 0,
    ensures
        st.rows@.len() > 0,
        !st.rows@[0].interpolated,
        !st.rows@.last().interpolated,
        st.rows@.len() == st.rows@.last().day.ordinal - st.rows@[0].day.ordinal + 1,
        st.serves_feed(csv, currs),
{
    let first = base.rows@[0].day.ordinal as int;
    let last = base.rows@.last().day.ordinal as int;
    // The bounds rows of the merged store are base's own first and last.
    assert(st.rows@[0].day.ordinal == first);
    assert(st.rows@.last().day.ordinal == last);
    assert(base.merged_row_ok(first, st.rows@[0]));
    assert(base.has_row(first)) by {
        lemma_row_found_at(base.rows@, 0);
    }
    assert(base.merged_row_ok(last, st.rows@[st.rows@.len() - 1]));
    assert(base.rows@.last() == base.rows@[base.rows@.len() - 1]);
    assert(base.has_row(last)) by {
        lemma_row_found_at(base.rows@, base.rows@.len() - 1);
    }
    assert(base.row_at(first).model() == st.rows@[0].model());
    assert(base.row_at(last).model() == st.rows@[st.rows@.len() - 1].model());
    let ff = first_row(base.rows@, first);
    let fl = first_row(base.rows@, last);
    assert(0 <= ff < base.rows@.len() && 0 <= fl < base.rows@.len()) by {
        crate::store::lemma_first_row(base.rows@, first);
        crate::store::lemma_first_row(base.rows@, last);
    }
    assert(!base.rows@[ff].interpolated);
    assert(!base.rows@[fl].interpolated);
    assert(!base.row_at(first).interpolated);
    assert(!base.row_at(last).interpolated);
    // Data lines are served observed with their cells.
    assert forall|ln: int|
        1 <= ln < feed_lines(csv).len() && !(#[trigger] line_blank(csv, ln)) implies {
        let d = sline_day(line_text(csv, ln));
        &&& st.has_row(d)
        &&& !st.row_at(d).interpolated
        &&& forall|k: int| 0 <= k < currs.len() ==> st.row_at(d).cells@[k] == sline_cell(
            line_text(csv, ln),
            currs,
            header_fields_of(csv),
            k,
        )
    } by {
        let d = sline_day(line_text(csv, ln));
        assert(base.has_row(d));
        crate::store::lemma_first_row(base.rows@, d);
        let fb = first_row(base.rows@, d);
        assert(base.rows@[fb].day.ordinal == d);
        assert(first <= d <= last) by {
            if fb > 0 {
                assert(base.rows@[0].day.ordinal < base.rows@[fb].day.ordinal);
            }
            if fb < base.rows@.len() - 1 {
                assert(base.rows@[fb].day.ordinal < base.rows@[base.rows@.len()
                    - 1].day.ordinal);
            }
        }
        assert(st.has_row(d));
        let i = d - first;
        assert(st.rows@[i].day.ordinal == d);
        lemma_sorted_first_row_at(st.rows@, i);
        assert(st.row_at(d) == st.rows@[i]);
        assert(base.merged_row_ok(d, st.rows@[i]));
        assert(st.rows@[i].model() == base.row_at(d).model());
    }
    // Observed rows of the result come from data lines.
    assert forall|d: int|
        #[trigger] st.has_row(d) && !st.row_at(d).interpolated implies exists|ln: int|
        1 <= ln < feed_lines(csv).len() && !(#[trigger] line_blank(csv, ln)) && sline_day(
            line_text(csv, ln),
        ) == d by {
        crate::store::lemma_first_row(st.rows@, d);
        let f = first_row(st.rows@, d);
        assert(st.rows@[f].day.ordinal == d);
        assert(st.rows@[f].day.ordinal == first + f);
        assert(base.merged_row_ok(d, st.rows@[f]));
        if base.has_row(d) {
            crate::store::lemma_first_row(base.rows@, d);
            let fb = first_row(base.rows@, d);
            assert(base.rows@[fb].day.ordinal == d);
        } else {
            assert(st.rows@[f].interpolated);
        }
    }
}

/// On a strictly sorted row list, the row at an index is the one its
/// date finds.
proof fn lemma_sorted_first_row_at(rows: Seq<RateRow>, i: int)
    requires
        forall|a: int, b: int| 0 <= a < b < rows.len() ==> (#[trigger] rows[a]).day.ordinal
            < (#[trigger] rows[b]).day.ordinal,
        0 <= i < rows.len(),
    ensures
        first_row(rows, rows[i].day.ordinal as int) == i,
{
    let d = rows[i].day.ordinal as int;
    lemma_first_row(rows, d);
    let f = first_row(rows, d);
    if f > i {
        assert(rows[i].day.ordinal != d);
    }
    if f < i {
        assert(rows[f].day.ordinal < rows[i].day.ordinal);
    }
}

/// A row present at an index makes its date found.
proof fn lemma_row_found_at(rows: Seq<RateRow>, i: int)
    requires
        0 <= i < rows.len(),
    ensures
        first_row(rows, rows[i].day.ordinal as int) < rows.len(),
{
    let d = rows[i].day.ordinal as int;
    lemma_first_row(rows, d);
    if first_row(rows, d) > i {
        assert(rows[i].day.ordinal != d);
    }
}

/// Re-syncing from an extended feed neither duplicates nor corrupts
/// previously observed rows: if two stores serve two feeds with one
/// header, and every data line of the first feed is also a data line of
/// the second, then every observed row of the first store stands in the
/// second store unchanged — same date, same provenance, same cells.
pub proof fn lemma_resync_keeps_observed_rows(
    st1: ExchangeStore,
    st2: ExchangeStore,
    csv1: Seq<char>,
    csv2: Seq<char>,
    currs: Seq<Currency>,
)
    requires
        st1.serves_feed(csv1, currs),
        st2.serves_feed(csv2, currs),
        header_fields_of(csv1) == header_fields_of(csv2),
        forall|l1: int|
            1 <= l1 < feed_lines(csv1).len() && !(#[trigger] line_blank(csv1, l1)) ==> exists|
                l2: int,
            |
                1 <= l2 < feed_lines(csv2).len() && !(#[trigger] line_blank(csv2, l2)) && line_text(
                    csv2,
                    l2,
                ) == line_text(csv1, l1),
    ensures
        forall|d: int|
            #[trigger] st1.has_row(d) && !st1.row_at(d).interpolated ==> st2.has_row(d)
                && !st2.row_at(d).interpolated && (forall|k: int| 0 <= k < currs.len()
                ==> st2.row_at(d).cells@[k] == st1.row_at(d).cells@[k]),
{
    assert forall|d: int|
        #[trigger] st1.has_row(d) && !st1.row_at(d).interpolated implies st2.has_row(d)
        && !st2.row_at(d).interpolated && (forall|k: int| 0 <= k < currs.len() ==> st2.row_at(
        d,
    ).cells@[k] == st1.row_at(d).cells@[k]) by {
        let l1 = choose|l1: int|
            1 <= l1 < feed_lines(csv1).len() && !(#[trigger] line_blank(csv1, l1)) && sline_day(
                line_text(csv1, l1),
            ) == d;
        let l2 = choose|l2: int|
            1 <= l2 < feed_lines(csv2).len() && !(#[trigger] line_blank(csv2, l2)) && line_text(
                csv2,
                l2,
            ) == line_text(csv1, l1);
        assert(sline_day(line_text(csv2, l2)) == d);
        assert forall|k: int| 0 <= k < currs.len() implies st2.row_at(d).cells@[k] == st1.row_at(
            d,
        ).cells@[k] by {
            assert(st1.row_at(d).cells@[k] == sline_cell(
                line_text(csv1, l1),
                currs,
                header_fields_of(csv1),
                k,
            ));
            assert(st2.row_at(d).cells@[k] == sline_cell(
                line_text(csv2, l2),
                currs,
                header_fields_of(csv2),
                k,
            ));
        }
    }
}

/// Strips one trailing carriage return, if present.
fn strip_cr(s: &String) -> (r: String)
    ensures
        r@ == strip_cr_spec(s@),
{
    let n = s.as_str().unicode_len();
    if n > 0 && s.as_str().get_char(n - 1) == '\r' {
        let t = s.as_str().substring_char(0, n - 1);
        proof {
            assert(s@.subrange(0, s@.len() - 1) =~= s@.drop_last());
        }
        t.to_owned()
    } else {
        let t = s.as_str().substring_char(0, n);
        proof {
            assert(s@.subrange(0, s@.len() as int) =~= s@);
        }
        t.to_owned()
    }
}

/// The text without one trailing carriage return.
pub open spec fn strip_cr_spec(s: Seq<char>) -> Seq<char> {
    if s.len() > 0 && s.last() == '\r' {
        s.drop_last()
    } else {
        s
    }
}

} // verus!
