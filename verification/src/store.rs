//! The rate store: one row per calendar date, keyed by the date's
//! ordinal and strictly sorted by it, a provenance flag telling
//! observed rows from interpolated ones, and one nullable positive
//! decimal quote per tracked currency.

use vstd::prelude::*;
use crate::currency::{Currency, EUR_CODE};
use crate::dates::Day;
use crate::decimal::{Dec, pow10, MANT_CAP, SCALE_CAP};
use crate::rate::{ExchangeRate, spec_eur};

verus! {

/// Why syncing the store from a feed failed.
#[derive(Clone, Copy, PartialEq, Eq, Structural, Debug)]
pub enum SyncError {
    /// The feed text is not present or empty.
    NoEcbHistory,
    /// The handed-over rows do not form a valid store.
    CouldNotRead,
    /// Seeding failed: a malformed feed line, a duplicate date, or a
    /// value out of range.
    Seed,
    /// Fetching the feed failed; raised by the caller that fetches.
    Download,
}

/// Why opening a store from existing rows failed.
#[derive(Clone, Copy, PartialEq, Eq, Structural, Debug)]
pub enum InitError {
    /// The rows or the currency set do not form a valid store.
    CouldNotRead,
}

/// Why a lookup in the store failed.
#[derive(Clone, Copy, PartialEq, Eq, Structural, Debug)]
pub enum StoreError {
    /// No row, or no quote for a requested currency, at the date.
    NotFound,
    /// A requested currency is not tracked by the store.
    UnknownCurrency(Currency),
}

/// One stored row: a date, its provenance, and one optional quote per
/// tracked currency, positionally matching the store's currency list.
#[derive(Clone, Debug)]
pub struct RateRow {
    /// The date of the row.
    pub day: Day,
    /// Whether the row was synthesized by interpolation rather than
    /// observed in the feed.
    pub interpolated: bool,
    /// The quotes: `cells[k]` prices one euro in units of the store's
    /// currency number `k`, absent where the feed has no data.
    pub cells: Vec<Option<Dec>>,
}

/// A quote cell is well formed: a canonical, strictly positive decimal.
pub open spec fn cell_wf(c: Option<Dec>) -> bool {
    c matches Some(q) ==> q.wf() && q.m > 0
}

impl RateRow {
    /// All cells well formed and positionally matching `width`
    /// currencies.
    pub open spec fn wf(self, width: int) -> bool {
        &&& self.cells@.len() == width
        &&& forall|k: int| 0 <= k < width ==> cell_wf(#[trigger] self.cells@[k])
    }

    /// The row's content: date ordinal, provenance, and cells.
    pub open spec fn model(self) -> (int, bool, Seq<Option<Dec>>) {
        (self.day.ordinal as int, self.interpolated, self.cells@)
    }

    /// An owned copy of the row.
    pub fn duplicate(&self) -> (r: RateRow)
        ensures
            r.model() == self.model(),
    {
        let mut cells: Vec<Option<Dec>> = Vec::new();
        let mut k: usize = 0;
        proof {
            assert(cells@ =~= self.cells@.take(0));
        }
        while k < self.cells.len()
            invariant
                0 <= k <= self.cells@.len(),
                cells@ =~= self.cells@.take(k as int),
            decreases self.cells@.len() - k,
        {
            cells.push(self.cells[k]);
            proof {
                assert(self.cells@.take(k as int).push(self.cells@[k as int]) =~= self.cells@.take(
                    k + 1,
                ));
            }
            k = k + 1;
        }
        proof {
            assert(self.cells@.take(self.cells@.len() as int) =~= self.cells@);
        }
        RateRow { day: self.day, interpolated: self.interpolated, cells }
    }
}

/// A row sequence holds a row with the given date at the given index,
/// so `first_row` finds one.
pub proof fn lemma_row_present(rows: Seq<RateRow>, i: int)
    requires
        0 <= i < rows.len(),
    ensures
        first_row(rows, rows[i].day.ordinal as int) <= i,
{
    let d = rows[i].day.ordinal as int;
    lemma_first_row(rows, d);
    if first_row(rows, d) > i {
        assert(rows[i].day.ordinal != d);
    }
}

/// The first index whose currency carries the code, or the length.
pub open spec fn first_col(currs: Seq<Currency>, code: u32) -> int
    decreases currs.len(),
{
    if currs.len() == 0 {
        0
    } else if currs[0].code == code {
        0
    } else {
        1 + first_col(currs.skip(1), code)
    }
}

/// `first_col` is the least index carrying the code.
pub proof fn lemma_first_col(currs: Seq<Currency>, code: u32)
    ensures
        0 <= first_col(currs, code) <= currs.len(),
        first_col(currs, code) < currs.len() ==> currs[first_col(currs, code)].code == code,
        forall|k: int| 0 <= k < first_col(currs, code) ==> (#[trigger] currs[k]).code != code,
    decreases currs.len(),
{
    if currs.len() == 0 {
    } else if currs[0].code == code {
    } else {
        lemma_first_col(currs.skip(1), code);
        let f = first_col(currs, code);
        assert(forall|k: int| 1 <= k < f ==> #[trigger] currs[k] == currs.skip(1)[k - 1]);
    }
}

/// The first index whose row carries the date, or the length.
pub open spec fn first_row(rows: Seq<RateRow>, d: int) -> int
    decreases rows.len(),
{
    if rows.len() == 0 {
        0
    } else if rows[0].day.ordinal == d {
        0
    } else {
        1 + first_row(rows.skip(1), d)
    }
}

/// `first_row` is the least index carrying the date.
pub proof fn lemma_first_row(rows: Seq<RateRow>, d: int)
    ensures
        0 <= first_row(rows, d) <= rows.len(),
        first_row(rows, d) < rows.len() ==> rows[first_row(rows, d)].day.ordinal == d,
        forall|k: int| 0 <= k < first_row(rows, d) ==> (#[trigger] rows[k]).day.ordinal != d,
    decreases rows.len(),
{
    if rows.len() == 0 {
    } else if rows[0].day.ordinal == d {
    } else {
        lemma_first_row(rows.skip(1), d);
        let f = first_row(rows, d);
        assert(forall|k: int| 1 <= k < f ==> #[trigger] rows[k] == rows.skip(1)[k - 1]);
    }
}

/// The quote for the currency in a row's cells, if the currency is
/// tracked and the cell holds data.
pub open spec fn quote_in(cells: Seq<Option<Dec>>, currs: Seq<Currency>, c: Currency) -> Option<
    Dec,
> {
    let k = first_col(currs, c.code);
    if k < currs.len() && k < cells.len() && cells[k] is Some {
        cells[k]
    } else {
        None
    }
}

/// The currency-to-euro rate a quote expands to.
pub open spec fn to_eur_of(c: Currency, q: Dec) -> ExchangeRate {
    ExchangeRate { base: c, counter: spec_eur(), num: pow10(q.s as nat) as i128, den: q.m }
}

/// The euro-to-currency rate a quote expands to: the quote itself.
pub open spec fn from_eur_of(c: Currency, q: Dec) -> ExchangeRate {
    ExchangeRate { base: spec_eur(), counter: c, num: q.m, den: pow10(q.s as nat) as i128 }
}

/// The rates one requested currency contributes from a row: both
/// directions where a quote is present, nothing where the currency is
/// the euro or the cell is absent.
pub open spec fn rates_of_currency(
    cells: Seq<Option<Dec>>,
    currs: Seq<Currency>,
    c: Currency,
) -> Seq<ExchangeRate> {
    if c.code == EUR_CODE {
        Seq::empty()
    } else {
        match quote_in(cells, currs, c) {
            Some(q) => seq![to_eur_of(c, q), from_eur_of(c, q)],
            None => Seq::empty(),
        }
    }
}

/// The rates a row decodes to for the requested currencies, in request
/// order: for each currency with a present quote, the pair
/// currency-to-euro then euro-to-currency; absent quotes and the euro
/// are silently omitted.
pub open spec fn decode_row_spec(
    cells: Seq<Option<Dec>>,
    currs: Seq<Currency>,
    req: Seq<Currency>,
) -> Seq<ExchangeRate>
    decreases req.len(),
{
    if req.len() == 0 {
        Seq::empty()
    } else {
        rates_of_currency(cells, currs, req[0]) + decode_row_spec(cells, currs, req.skip(1))
    }
}

/// Appending a request appends its contribution.
pub proof fn lemma_decode_row_push(
    cells: Seq<Option<Dec>>,
    currs: Seq<Currency>,
    req: Seq<Currency>,
    c: Currency,
)
    ensures
        decode_row_spec(cells, currs, req.push(c)) == decode_row_spec(cells, currs, req)
            + rates_of_currency(cells, currs, c),
    decreases req.len(),
{
    if req.len() == 0 {
        assert(req.push(c)[0] == c);
        assert(req.push(c).skip(1) =~= Seq::<Currency>::empty());
        assert(decode_row_spec(cells, currs, Seq::<Currency>::empty())
            == Seq::<ExchangeRate>::empty());
        assert(decode_row_spec(cells, currs, req.push(c)) == rates_of_currency(cells, currs, c)
            + Seq::<ExchangeRate>::empty());
        assert(rates_of_currency(cells, currs, c) + Seq::<ExchangeRate>::empty()
            =~= rates_of_currency(cells, currs, c));
        assert(decode_row_spec(cells, currs, req) + rates_of_currency(cells, currs, c)
            =~= rates_of_currency(cells, currs, c));
    } else {
        lemma_decode_row_push(cells, currs, req.skip(1), c);
        assert(req.push(c).skip(1) =~= req.skip(1).push(c));
        assert(req.push(c)[0] == req[0]);
        let a = rates_of_currency(cells, currs, req[0]);
        let b = decode_row_spec(cells, currs, req.skip(1));
        let pc = rates_of_currency(cells, currs, c);
        assert(decode_row_spec(cells, currs, req.push(c)) == a + decode_row_spec(
            cells,
            currs,
            req.push(c).skip(1),
        ));
        assert(decode_row_spec(cells, currs, req.push(c).skip(1)) == b + pc);
        assert(decode_row_spec(cells, currs, req) == a + b);
        assert(a + (b + pc) =~= (a + b) + pc);
    }
}

/// A currency list and a row list that form a valid store: distinct
/// non-euro tracked currencies, rows strictly sorted by date, all rows
/// positionally matching the currency list with well-formed cells.
pub open spec fn store_parts_wf(currs: Seq<Currency>, rows: Seq<RateRow>) -> bool {
    &&& forall|k: int| 0 <= k < currs.len() ==> (#[trigger] currs[k]).code != EUR_CODE
    &&& forall|i: int, j: int| 0 <= i < j < currs.len() ==> currs[i].code != currs[j].code
    &&& forall|i: int, j: int| 0 <= i < j < rows.len() ==> (#[trigger] rows[i]).day.ordinal
        < (#[trigger] rows[j]).day.ordinal
    &&& forall|i: int| 0 <= i < rows.len() ==> (#[trigger] rows[i]).wf(currs.len() as int)
}

/// The local store of daily currency-to-euro quotes.
pub struct ExchangeStore {
    /// The tracked currencies, one cell column each; the euro is not
    /// among them, since quotes are euro denominated.
    pub currencies: Vec<Currency>,
    /// The rows, strictly sorted by date.
    pub rows: Vec<RateRow>,
}

impl ExchangeStore {
    /// The number of tracked currencies.
    pub open spec fn width(self) -> int {
        self.currencies@.len() as int
    }

    /// The store invariant: distinct non-euro tracked currencies, rows
    /// strictly sorted by date (so dates are unique), all rows well
    /// formed.
    pub open spec fn wf(self) -> bool {
        store_parts_wf(self.currencies@, self.rows@)
    }

    /// There is a row at the date.
    pub open spec fn has_row(self, d: int) -> bool {
        first_row(self.rows@, d) < self.rows@.len()
    }

    /// The row at the date.
    pub open spec fn row_at(self, d: int) -> RateRow {
        self.rows@[first_row(self.rows@, d)]
    }

    /// There is an observed row at the date.
    pub open spec fn has_observed_row(self, d: int) -> bool {
        self.has_row(d) && !self.row_at(d).interpolated
    }

    /// The column index of a currency, if it is tracked.
    pub fn col_of(&self, code: u32) -> (r: Option<usize>)
        ensures
            r matches Some(k) ==> k == first_col(self.currencies@, code) && k
                < self.currencies@.len(),
            r is None <==> first_col(self.currencies@, code) == self.currencies@.len(),
    {
        proof {
            lemma_first_col(self.currencies@, code);
        }
        let mut i: usize = 0;
        while i < self.currencies.len()
            invariant
                0 <= i <= self.currencies@.len(),
                forall|k: int| 0 <= k < i ==> (#[trigger] self.currencies@[k]).code != code,
            decreases self.currencies@.len() - i,
        {
            proof {
                lemma_first_col(self.currencies@, code);
            }
            if self.currencies[i].code == code {
                proof {
                    let f = first_col(self.currencies@, code);
                    assert(f <= i);
                    assert(f >= i) by {
                        if f < i {
                            assert(self.currencies@[f].code != code);
                            assert(self.currencies@[f].code == code);
                        }
                    }
                }
                return Some(i);
            }
            i = i + 1;
        }
        proof {
            lemma_first_col(self.currencies@, code);
            let f = first_col(self.currencies@, code);
            if f < self.currencies@.len() {
                assert(self.currencies@[f].code != code);
                assert(self.currencies@[f].code == code);
            }
        }
        None
    }

    /// The index of the row at the date, if there is one.
    pub fn row_index_of(&self, on: Day) -> (r: Option<usize>)
        ensures
            r matches Some(i) ==> i == first_row(self.rows@, on.ordinal as int) && i
                < self.rows@.len(),
            r is None <==> !self.has_row(on.ordinal as int),
    {
        proof {
            lemma_first_row(self.rows@, on.ordinal as int);
        }
        let mut i: usize = 0;
        while i < self.rows.len()
            invariant
                0 <= i <= self.rows@.len(),
                forall|k: int| 0 <= k < i ==> (#[trigger] self.rows@[k]).day.ordinal != on.ordinal,
            decreases self.rows@.len() - i,
        {
            proof {
                lemma_first_row(self.rows@, on.ordinal as int);
            }
            if self.rows[i].day.ordinal == on.ordinal {
                proof {
                    let f = first_row(self.rows@, on.ordinal as int);
                    if f < i {
                        assert(self.rows@[f].day.ordinal != on.ordinal);
                    }
                    if f > i {
                        assert(self.rows@[i as int].day.ordinal != on.ordinal);
                    }
                }
                return Some(i);
            }
            i = i + 1;
        }
        proof {
            lemma_first_row(self.rows@, on.ordinal as int);
            let f = first_row(self.rows@, on.ordinal as int);
            if f < self.rows@.len() {
                assert(self.rows@[f].day.ordinal != on.ordinal);
            }
        }
        None
    }

    /// The most recent row's date, or nothing if the store is empty.
    pub fn get_latest_date(&self) -> (r: Option<Day>)
        ensures
            r is None <==> self.rows@.len() == 0,
            r matches Some(d) ==> self.rows@.len() > 0 && d == self.rows@.last().day,
    {
        if self.rows.len() == 0 {
            None
        } else {
            Some(self.rows[self.rows.len() - 1].day)
        }
    }

    /// The earliest row's date, or nothing if the store is empty.
    pub fn get_first_date(&self) -> (r: Option<Day>)
        ensures
            r is None <==> self.rows@.len() == 0,
            r matches Some(d) ==> self.rows@.len() > 0 && d == self.rows@[0].day,
    {
        if self.rows.len() == 0 {
            None
        } else {
            Some(self.rows[0].day)
        }
    }

    /// Decodes one row into bidirectional rates for the requested
    /// currencies: for each currency whose quote is present, the pair
    /// currency-to-euro then euro-to-currency; the euro and absent
    /// quotes are omitted, which is not an error.
    pub fn decode_row(&self, row: &RateRow, req: &[Currency]) -> (r: Vec<ExchangeRate>)
        requires
            self.wf(),
            row.wf(self.width()),
        ensures
            r@ == decode_row_spec(row.cells@, self.currencies@, req@),
            forall|k: int| 0 <= k < r@.len() ==> (#[trigger] r@[k]).wf(),
    {
        let mut out: Vec<ExchangeRate> = Vec::new();
        let mut i: usize = 0;
        proof {
            assert(req@.take(0) =~= Seq::<Currency>::empty());
        }
        while i < req.len()
            invariant
                self.wf(),
                row.wf(self.width()),
                0 <= i <= req@.len(),
                out@ == decode_row_spec(row.cells@, self.currencies@, req@.take(i as int)),
                forall|k: int| 0 <= k < out@.len() ==> (#[trigger] out@[k]).wf(),
            decreases req@.len() - i,
        {
            let c = req[i];
            proof {
                lemma_decode_row_push(
                    row.cells@,
                    self.currencies@,
                    req@.take(i as int),
                    req@[i as int],
                );
                assert(req@.take(i as int).push(req@[i as int]) =~= req@.take(i + 1));
            }
            if c.code != EUR_CODE {
                match self.col_of(c.code) {
                    Some(k) => {
                        if k < row.cells.len() {
                            match &row.cells[k] {
                                Some(q) => {
                                    proof {
                                        crate::rate::lemma_pow10_le_cap(q.s as nat);
                                        lemma_first_col(self.currencies@, c.code);
                                    }
                                    let den = crate::decimal::pow10_exec(q.s);
                                    let to_eur = ExchangeRate {
                                        base: c,
                                        counter: crate::currency::eur(),
                                        num: den,
                                        den: q.m,
                                    };
                                    let from_eur = ExchangeRate {
                                        base: crate::currency::eur(),
                                        counter: c,
                                        num: q.m,
                                        den,
                                    };
                                    out.push(to_eur);
                                    out.push(from_eur);
                                    proof {
                                        assert(out@ =~= decode_row_spec(
                                            row.cells@,
                                            self.currencies@,
                                            req@.take(i as int),
                                        ) + rates_of_currency(row.cells@, self.currencies@, c));
                                    }
                                },
                                None => {
                                    proof {
                                        assert(out@ =~= out@ + rates_of_currency(
                                            row.cells@,
                                            self.currencies@,
                                            c,
                                        ));
                                    }
                                },
                            }
                        } else {
                            proof {
                                assert(false);
                            }
                        }
                    },
                    None => {
                        proof {
                            lemma_first_col(self.currencies@, c.code);
                            assert(out@ =~= out@ + rates_of_currency(
                                row.cells@,
                                self.currencies@,
                                c,
                            ));
                        }
                    },
                }
            } else {
                proof {
                    assert(out@ =~= out@ + rates_of_currency(row.cells@, self.currencies@, c));
                }
            }
            i = i + 1;
        }
        proof {
            assert(req@.take(req@.len() as int) =~= req@);
        }
        out
    }
}

/// The first requested currency that is neither the euro nor tracked,
/// as an index into the request, or the request's length.
pub open spec fn first_untracked(currs: Seq<Currency>, req: Seq<Currency>) -> int
    decreases req.len(),
{
    if req.len() == 0 {
        0
    } else if req[0].code != EUR_CODE && first_col(currs, req[0].code) == currs.len() {
        0
    } else {
        1 + first_untracked(currs, req.skip(1))
    }
}

/// `first_untracked` is the least index of an untracked request.
pub proof fn lemma_first_untracked(currs: Seq<Currency>, req: Seq<Currency>)
    ensures
        0 <= first_untracked(currs, req) <= req.len(),
        first_untracked(currs, req) < req.len() ==> {
            let c = req[first_untracked(currs, req)];
            c.code != EUR_CODE && first_col(currs, c.code) == currs.len()
        },
        forall|k: int| 0 <= k < first_untracked(currs, req) ==> ((#[trigger] req[k]).code
            == EUR_CODE || first_col(currs, req[k].code) < currs.len()),
    decreases req.len(),
{
    if req.len() == 0 {
    } else if req[0].code != EUR_CODE && first_col(currs, req[0].code) == currs.len() {
    } else {
        lemma_first_untracked(currs, req.skip(1));
        lemma_first_col(currs, req[0].code);
        let f = first_untracked(currs, req);
        assert(forall|k: int| 1 <= k < f ==> #[trigger] req[k] == req.skip(1)[k - 1]);
    }
}

impl ExchangeStore {
    /// All requested non-euro currencies have a present quote in the
    /// row's cells.
    pub open spec fn quotes_present(self, row: RateRow, req: Seq<Currency>) -> bool {
        forall|j: int| 0 <= j < req.len() && (#[trigger] req[j]).code != EUR_CODE ==> quote_in(
            row.cells@,
            self.currencies@,
            req[j],
        ) is Some
    }

    /// Every requested non-euro currency is tracked.
    pub open spec fn all_tracked(self, req: Seq<Currency>) -> bool {
        first_untracked(self.currencies@, req) == req.len()
    }

    /// Finds the first requested currency that is untracked, if any.
    fn find_untracked(&self, req: &[Currency]) -> (r: Option<Currency>)
        ensures
            r is None <==> self.all_tracked(req@),
            r matches Some(c) ==> first_untracked(self.currencies@, req@) < req@.len() && c
                == req@[first_untracked(self.currencies@, req@)],
    {
        proof {
            lemma_first_untracked(self.currencies@, req@);
        }
        let mut j: usize = 0;
        while j < req.len()
            invariant
                0 <= j <= req@.len(),
                forall|k: int| 0 <= k < j ==> ((#[trigger] req@[k]).code == EUR_CODE || first_col(
                    self.currencies@,
                    req@[k].code,
                ) < self.currencies@.len()),
            decreases req@.len() - j,
        {
            proof {
                lemma_first_untracked(self.currencies@, req@);
            }
            let c = req[j];
            if c.code != EUR_CODE {
                match self.col_of(c.code) {
                    Some(_) => {},
                    None => {
                        proof {
                            let f = first_untracked(self.currencies@, req@);
                            if f < j {
                                assert(req@[f].code == EUR_CODE || first_col(
                                    self.currencies@,
                                    req@[f].code,
                                ) < self.currencies@.len());
                            }
                            if f > j {
                                assert(req@[j as int].code == EUR_CODE || first_col(
                                    self.currencies@,
                                    req@[j as int].code,
                                ) < self.currencies@.len());
                            }
                        }
                        return Some(c);
                    },
                }
            }
            j = j + 1;
        }
        proof {
            lemma_first_untracked(self.currencies@, req@);
            let f = first_untracked(self.currencies@, req@);
            if f < req@.len() {
                assert(req@[f].code == EUR_CODE || first_col(self.currencies@, req@[f].code)
                    < self.currencies@.len());
            }
        }
        None
    }

    /// Checks that every requested non-euro currency has a present
    /// quote in the row.
    pub(crate) fn quotes_present_exec(&self, row: &RateRow, req: &[Currency]) -> (r: bool)
        requires
            self.wf(),
            row.wf(self.width()),
        ensures
            r == self.quotes_present(*row, req@),
    {
        let mut j: usize = 0;
        while j < req.len()
            invariant
                self.wf(),
                row.wf(self.width()),
                0 <= j <= req@.len(),
                forall|k: int| 0 <= k < j && (#[trigger] req@[k]).code != EUR_CODE ==> quote_in(
                    row.cells@,
                    self.currencies@,
                    req@[k],
                ) is Some,
            decreases req@.len() - j,
        {
            let c = req[j];
            if c.code != EUR_CODE {
                let present = match self.col_of(c.code) {
                    Some(k) => row.cells[k].is_some(),
                    None => false,
                };
                if !present {
                    return false;
                }
            }
            j = j + 1;
        }
        true
    }

    /// The rates of the requested currencies against the euro on the
    /// given date, from the observed row at that date alone. Fails with
    /// `UnknownCurrency` exactly when a requested non-euro currency is
    /// not tracked, naming the first such; otherwise fails with
    /// `NotFound` exactly when there is no observed row at the date or
    /// a requested currency's quote is absent that day.
    pub fn lookup_exact(&self, on: Day, req: &[Currency]) -> (r: Result<
        Vec<ExchangeRate>,
        StoreError,
    >)
        requires
            self.wf(),
        ensures
            !self.all_tracked(req@) <==> r == Result::<Vec<ExchangeRate>, StoreError>::Err(
                StoreError::UnknownCurrency(req@[first_untracked(self.currencies@, req@)]),
            ),
            self.all_tracked(req@) ==> {
                &&& (r is Ok <==> self.has_observed_row(on.ordinal as int) && self.quotes_present(
                    self.row_at(on.ordinal as int),
                    req@,
                ))
                &&& (r matches Err(e) ==> e == StoreError::NotFound)
            },
            r matches Ok(rates) ==> {
                &&& rates@ == decode_row_spec(
                    self.row_at(on.ordinal as int).cells@,
                    self.currencies@,
                    req@,
                )
                &&& forall|k: int| 0 <= k < rates@.len() ==> (#[trigger] rates@[k]).wf()
            },
    {
        if let Some(c) = self.find_untracked(req) {
            return Err(StoreError::UnknownCurrency(c));
        }
        let i = match self.row_index_of(on) {
            Some(i) => i,
            None => {
                return Err(StoreError::NotFound);
            },
        };
        if self.rows[i].interpolated {
            return Err(StoreError::NotFound);
        }
        let row = &self.rows[i];
        if !self.quotes_present_exec(row, req) {
            return Err(StoreError::NotFound);
        }
        Ok(self.decode_row(row, req))
    }

    /// Like `lookup_exact`, but reads the row at the date whatever its
    /// provenance. It does not synthesize a row: for a date with no row
    /// at all the caller interpolates instead.
    pub fn lookup_with_fallback(&self, on: Day, req: &[Currency]) -> (r: Result<
        Vec<ExchangeRate>,
        StoreError,
    >)
        requires
            self.wf(),
        ensures
            !self.all_tracked(req@) <==> r == Result::<Vec<ExchangeRate>, StoreError>::Err(
                StoreError::UnknownCurrency(req@[first_untracked(self.currencies@, req@)]),
            ),
            self.all_tracked(req@) ==> {
                &&& (r is Ok <==> self.has_row(on.ordinal as int) && self.quotes_present(
                    self.row_at(on.ordinal as int),
                    req@,
                ))
                &&& (r matches Err(e) ==> e == StoreError::NotFound)
            },
            r matches Ok(rates) ==> {
                &&& rates@ == decode_row_spec(
                    self.row_at(on.ordinal as int).cells@,
                    self.currencies@,
                    req@,
                )
                &&& forall|k: int| 0 <= k < rates@.len() ==> (#[trigger] rates@[k]).wf()
            },
    {
        if let Some(c) = self.find_untracked(req) {
            return Err(StoreError::UnknownCurrency(c));
        }
        let i = match self.row_index_of(on) {
            Some(i) => i,
            None => {
                return Err(StoreError::NotFound);
            },
        };
        let row = &self.rows[i];
        if !self.quotes_present_exec(row, req) {
            return Err(StoreError::NotFound);
        }
        Ok(self.decode_row(row, req))
    }
}

/// Whether a cell is well formed, as executable code.
fn cell_wf_exec(c: &Option<Dec>) -> (r: bool)
    ensures
        r == cell_wf(*c),
{
    match c {
        Some(q) => q.m > 0 && q.m <= MANT_CAP && q.s <= SCALE_CAP && (q.s == 0 || q.m % 10 != 0),
        None => true,
    }
}

impl ExchangeStore {
    /// Builds a store from existing rows, validating everything the
    /// store relies on: a duplicate-free non-euro currency set, rows
    /// strictly sorted by date, and well-formed positive quotes, one
    /// cell per tracked currency. Fails exactly when the handed-over
    /// parts do not form a valid store.
    pub fn open(currencies: Vec<Currency>, rows: Vec<RateRow>) -> (r: Result<
        ExchangeStore,
        InitError,
    >)
        ensures
            r is Ok <==> store_parts_wf(currencies@, rows@),
            r matches Ok(st) ==> {
                &&& st.wf()
                &&& st.currencies@ == currencies@
                &&& st.rows@ == rows@
            },
            r matches Err(e) ==> e == InitError::CouldNotRead,
    {
        let width = currencies.len();
        let mut a: usize = 0;
        while a < width
            invariant
                width == currencies@.len(),
                0 <= a <= width,
                forall|k: int| 0 <= k < a ==> (#[trigger] currencies@[k]).code != EUR_CODE,
                forall|i: int, j: int| 0 <= i < j < a ==> currencies@[i].code
                    != currencies@[j].code,
            decreases width - a,
        {
            if currencies[a].code == EUR_CODE {
                return Err(InitError::CouldNotRead);
            }
            let mut b: usize = 0;
            while b < a
                invariant
                    0 <= b <= a < width,
                    width == currencies@.len(),
                    forall|j: int| 0 <= j < b ==> currencies@[j].code != currencies@[a as int].code,
                decreases a - b,
            {
                if currencies[b].code == currencies[a].code {
                    return Err(InitError::CouldNotRead);
                }
                b = b + 1;
            }
            a = a + 1;
        }
        let mut i: usize = 0;
        while i < rows.len()
            invariant
                width == currencies@.len(),
                0 <= i <= rows@.len(),
                forall|k: int| 0 <= k < i ==> (#[trigger] rows@[k]).wf(width as int),
                forall|k: int| 0 < k < i ==> (#[trigger] rows@[k - 1]).day.ordinal < rows@[
                    k
                ].day.ordinal,
            decreases rows@.len() - i,
        {
            if i > 0 && !(rows[i - 1].day.ordinal < rows[i].day.ordinal) {
                return Err(InitError::CouldNotRead);
            }
            let row = &rows[i];
            if row.cells.len() != width {
                return Err(InitError::CouldNotRead);
            }
            let mut k: usize = 0;
            while k < width
                invariant
                    width == currencies@.len(),
                    i < rows@.len(),
                    rows@[i as int].cells@.len() == width,
                    row == rows@[i as int],
                    0 <= k <= width,
                    forall|j: int| 0 <= j < k ==> cell_wf(#[trigger] rows@[i as int].cells@[j]),
                decreases width - k,
            {
                if !cell_wf_exec(&row.cells[k]) {
                    return Err(InitError::CouldNotRead);
                }
                k = k + 1;
            }
            i = i + 1;
        }
        proof {
            assert forall|x: int, y: int|
                0 <= x < y < rows@.len() implies (#[trigger] rows@[x]).day.ordinal
                < (#[trigger] rows@[y]).day.ordinal by {
            lemma_sorted_pair_adj(rows@, x, y);
            }
        }
        Ok(ExchangeStore { currencies, rows })
    }
}

/// Strict order between two positions from order on adjacent pairs.
proof fn lemma_sorted_pair_adj(rows: Seq<RateRow>, i: int, j: int)
    requires
        forall|k: int| 0 < k < rows.len() ==> (#[trigger] rows[k - 1]).day.ordinal < rows[
            k
        ].day.ordinal,
        0 <= i < j < rows.len(),
    ensures
        rows[i].day.ordinal < rows[j].day.ordinal,
    decreases j - i,
{
    if i + 1 == j {
        assert(rows[j - 1].day.ordinal < rows[j].day.ordinal);
    } else {
        lemma_sorted_pair_adj(rows, i, j - 1);
        assert(rows[j - 1].day.ordinal < rows[j].day.ordinal);
    }
}

} // verus!
