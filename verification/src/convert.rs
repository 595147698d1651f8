//! The conversion engine: resolves a conversion request into a
//! converted amount using the direct euro-endpoint path or the
//! euro-bridged path, reading rates from the store, with optional
//! interpolation fallback for dates that have no row.

use vstd::prelude::*;
use crate::currency::{Currency, Money, EUR_CODE, eur};
use crate::dates::Day;
use crate::decimal::{
    lemma_canon_dec_value, lemma_quant_mag_bounds, mag_of, pow10, quant_dec, quant_scale, Dec,
    MANT_CAP,
};
use crate::interpolate::{cell_synth, prev_obs, next_obs};
use crate::rate::{ExchangeRate, find_rate_in, rates_to_exchange};
use crate::store::{
    decode_row_spec, first_col, first_untracked, from_eur_of, quote_in, rates_of_currency,
    to_eur_of, ExchangeStore, RateRow, StoreError,
};

verus! {

/// Why a conversion request failed.
#[derive(Clone, Copy, PartialEq, Eq, Structural, Debug)]
pub enum ConversionError {
    /// The store's data is unusable for this request in an unexpected
    /// way.
    MalformedExchangeStore,
    /// No rate is available for the requested date.
    NoExchangeRate(Day),
    /// A requested currency is not tracked by the store.
    InvalidCurrency(Currency),
    /// Source and target currency are the same: there is nothing to
    /// convert.
    SameCurrency,
    /// A computed amount falls outside the representable range.
    Overflow,
}

impl ExchangeStore {
    /// The currencies whose quotes a request for this pair needs.
    pub open spec fn req_of(self, from: Currency, to: Currency) -> Seq<Currency> {
        if from.code == EUR_CODE {
            seq![to]
        } else if to.code == EUR_CODE {
            seq![from]
        } else {
            seq![from, to]
        }
    }

    /// The quote the engine uses for a currency on a date: the quote of
    /// the row at the date (only an observed row without fallback), or,
    /// with fallback and no row at all, the quote interpolated from the
    /// nearest observed neighbors.
    pub open spec fn used_quote(self, d: int, fallback: bool, c: Currency) -> Option<Dec> {
        if self.has_row(d) {
            if !self.row_at(d).interpolated || fallback {
                quote_in(self.row_at(d).cells@, self.currencies@, c)
            } else {
                None
            }
        } else if fallback && prev_obs(self.rows@, d) is Some && next_obs(self.rows@, d) is Some {
            let p = prev_obs(self.rows@, d).unwrap();
            let n = next_obs(self.rows@, d).unwrap();
            let col = first_col(self.currencies@, c.code);
            if col < self.width() && col < p.cells@.len() && col < n.cells@.len() {
                cell_synth(
                    p.cells@[col],
                    n.cells@[col],
                    p.day.ordinal as int,
                    n.day.ordinal as int,
                    d,
                )
            } else {
                None
            }
        } else {
            None
        }
    }

    /// Every rate the request needs is available on the date.
    pub open spec fn rates_available(self, m: Money, to: Currency, d: int, fallback: bool) -> bool {
        let from = m.currency;
        &&& (from.code != EUR_CODE ==> self.used_quote(d, fallback, from) is Some)
        &&& (to.code != EUR_CODE ==> self.used_quote(d, fallback, to) is Some)
    }

    /// The first rate the conversion applies.
    pub open spec fn first_rate(self, m: Money, to: Currency, d: int, fallback: bool) -> ExchangeRate {
        let from = m.currency;
        if from.code == EUR_CODE {
            from_eur_of(to, self.used_quote(d, fallback, to).unwrap())
        } else {
            to_eur_of(from, self.used_quote(d, fallback, from).unwrap())
        }
    }

    /// The conversion's arithmetic overflows: a rounded amount falls
    /// outside the representable range at some step.
    pub open spec fn convert_overflow(self, m: Money, to: Currency, d: int, fallback: bool) -> bool {
        let from = m.currency;
        let r1 = self.first_rate(m, to, d, fallback);
        if from.code == EUR_CODE || to.code == EUR_CODE {
            r1.convert_overflows(m)
        } else {
            r1.convert_overflows(m) || {
                let mid = r1.apply_spec(m);
                !r1.convert_overflows(m) && from_eur_of(
                    to,
                    self.used_quote(d, fallback, to).unwrap(),
                ).convert_overflows(mid)
            }
        }
    }

    /// The converted money: the exact amount-times-factor products,
    /// each rounded at the largest scale at which its mantissa fits,
    /// denominated in the caller's target currency.
    pub open spec fn convert_value(self, m: Money, to: Currency, d: int, fallback: bool) -> Money {
        let from = m.currency;
        let r1 = self.first_rate(m, to, d, fallback);
        if from.code == EUR_CODE || to.code == EUR_CODE {
            Money { amount: r1.apply_spec(m).amount, currency: to }
        } else {
            let mid = r1.apply_spec(m);
            Money {
                amount: from_eur_of(to, self.used_quote(d, fallback, to).unwrap()).apply_spec(
                    mid,
                ).amount,
                currency: to,
            }
        }
    }

    /// Converts an amount into the target currency using the rates on
    /// the given date: directly for a euro endpoint, else bridged over
    /// the euro with two multiplications. A same-currency request is
    /// rejected; an untracked currency is rejected whatever the date;
    /// without fallback only an observed row serves the date, with
    /// fallback the row of any provenance, or, for a date with no row
    /// inside the observed bounds, a row interpolated on demand.
    pub fn convert(&self, from_amount: Money, to_currency: &Currency, on_date: Day, fallback: bool) -> (r:
        Result<Money, ConversionError>)
        requires
            self.wf(),
            from_amount.wf(),
        ensures
            from_amount.currency.code == to_currency.code <==> r == Result::<
                Money,
                ConversionError,
            >::Err(ConversionError::SameCurrency),
            from_amount.currency.code != to_currency.code ==> {
                let req = self.req_of(from_amount.currency, *to_currency);
                let d = on_date.ordinal as int;
                &&& (!self.all_tracked(req) <==> r == Result::<Money, ConversionError>::Err(
                    ConversionError::InvalidCurrency(req[first_untracked(self.currencies@, req)]),
                ))
                &&& self.all_tracked(req) ==> {
                    &&& (r is Ok <==> self.rates_available(from_amount, *to_currency, d, fallback)
                        && !self.convert_overflow(from_amount, *to_currency, d, fallback))
                    &&& (r == Result::<Money, ConversionError>::Err(ConversionError::Overflow)
                        <==> self.rates_available(from_amount, *to_currency, d, fallback)
                        && self.convert_overflow(from_amount, *to_currency, d, fallback))
                    &&& (r == Result::<Money, ConversionError>::Err(
                        ConversionError::NoExchangeRate(on_date),
                    ) <==> !self.rates_available(from_amount, *to_currency, d, fallback))
                    &&& (r matches Ok(out) ==> out == self.convert_value(
                        from_amount,
                        *to_currency,
                        d,
                        fallback,
                    ) && out.wf() && out.currency == *to_currency)
                }
            },
    {
        let from = from_amount.currency();
        if from.code == to_currency.code {
            return Err(ConversionError::SameCurrency);
        }
        let mut req: Vec<Currency> = Vec::new();
        if from.code == EUR_CODE {
            req.push(*to_currency);
        } else if to_currency.code == EUR_CODE {
            req.push(from);
        } else {
            req.push(from);
            req.push(*to_currency);
        }
        proof {
            assert(req@ =~= self.req_of(from, *to_currency));
        }
        let ghost d = on_date.ordinal as int;
        let ghost mut used_cells: Seq<Option<Dec>> = Seq::empty();
        let rates: Vec<ExchangeRate>;
        if !fallback {
            match self.lookup_exact(on_date, req.as_slice()) {
                Ok(rs) => {
                    rates = rs;
                    proof {
                        used_cells = self.row_at(d).cells@;
                        self.lemma_row_path_facts(d, fallback, from, *to_currency);
                    }
                },
                Err(StoreError::UnknownCurrency(c)) => {
                    return Err(ConversionError::InvalidCurrency(c));
                },
                Err(StoreError::NotFound) => {
                    return Err(ConversionError::NoExchangeRate(on_date));
                },
            }
        } else {
            match self.lookup_with_fallback(on_date, req.as_slice()) {
                Ok(rs) => {
                    rates = rs;
                    proof {
                        used_cells = self.row_at(d).cells@;
                        self.lemma_row_path_facts(d, fallback, from, *to_currency);
                    }
                },
                Err(StoreError::UnknownCurrency(c)) => {
                    return Err(ConversionError::InvalidCurrency(c));
                },
                Err(StoreError::NotFound) => {
                    if let Some(_) = self.row_index_of(on_date) {
                        // The date has a row, but a needed quote is
                        // absent that day.
                        return Err(ConversionError::NoExchangeRate(on_date));
                    }
                    let (pi, ni) = match self.find_neighbors(on_date) {
                        Ok(pair) => pair,
                        Err(_) => {
                            return Err(ConversionError::NoExchangeRate(on_date));
                        },
                    };
                    proof {
                        crate::interpolate::lemma_prev_obs_nearest(self.rows@, d);
                        crate::interpolate::lemma_next_obs_nearest(self.rows@, d);
                    }
                    let row = self.interpolate_row(&self.rows[pi], &self.rows[ni], on_date);
                    proof {
                        self.lemma_synth_quotes(
                            self.rows@[pi as int],
                            self.rows@[ni as int],
                            d,
                            row,
                            from,
                        );
                        self.lemma_synth_quotes(
                            self.rows@[pi as int],
                            self.rows@[ni as int],
                            d,
                            row,
                            *to_currency,
                        );
                    }
                    if !self.quotes_present_exec(&row, req.as_slice()) {
                        return Err(ConversionError::NoExchangeRate(on_date));
                    }
                    rates = self.decode_row(&row, req.as_slice());
                    proof {
                        used_cells = row.cells@;
                        if from.code != EUR_CODE {
                            assert(req@[0] == from);
                            assert(quote_in(row.cells@, self.currencies@, from) is Some);
                        }
                        if to_currency.code != EUR_CODE {
                            let j: int = if from.code == EUR_CODE {
                                0
                            } else {
                                1
                            };
                            assert(req@[j] == *to_currency);
                            assert(quote_in(row.cells@, self.currencies@, *to_currency) is Some);
                        }
                    }
                },
            }
        }
        proof {
            assert(rates@ == decode_row_spec(used_cells, self.currencies@, req@));
            assert(from.code != EUR_CODE ==> quote_in(used_cells, self.currencies@, from)
                == self.used_quote(d, fallback, from));
            assert(to_currency.code != EUR_CODE ==> quote_in(used_cells, self.currencies@, *to_currency)
                == self.used_quote(d, fallback, *to_currency));
            assert(self.rates_available(from_amount, *to_currency, d, fallback));
            assert(from.code != EUR_CODE ==> (self.used_quote(d, fallback, from) matches Some(q)
                ==> q.wf() && q.m > 0));
            assert(to_currency.code != EUR_CODE ==> (self.used_quote(d, fallback, *to_currency)
                matches Some(q) ==> q.wf() && q.m > 0));
        }
        let exchange = rates_to_exchange(&rates);
        if from.code == EUR_CODE || to_currency.code == EUR_CODE {
            let eur_currency = eur();
            let rate_opt = if to_currency.code == EUR_CODE {
                exchange.get_rate(&from, &eur_currency)
            } else {
                exchange.get_rate(&eur_currency, to_currency)
            };
            proof {
                self.lemma_one_currency_rates(used_cells, req@, from, *to_currency, d, fallback);
            }
            let rate = match rate_opt {
                Some(rate) => rate,
                None => {
                    proof {
                        assert(false);
                    }
                    return Err(ConversionError::NoExchangeRate(on_date));
                },
            };
            proof {
                if to_currency.code == EUR_CODE {
                    let q = self.used_quote(d, fallback, from).unwrap();
                    assert(rate == to_eur_of(from, q));
                    crate::rate::lemma_pow10_le_cap(q.s as nat);
                    assert(rate.wf());
                } else {
                    let q = self.used_quote(d, fallback, *to_currency).unwrap();
                    assert(rate == from_eur_of(*to_currency, q));
                    crate::rate::lemma_pow10_le_cap(q.s as nat);
                    assert(rate.wf());
                }
            }
            match rate.convert(from_amount) {
                Some(out) => Ok(Money::from_decimal(out.amount(), *to_currency)),
                None => Err(ConversionError::Overflow),
            }
        } else {
            proof {
                self.lemma_two_currency_rates(used_cells, req@, from, *to_currency, d, fallback);
            }
            let rate1 = match exchange.get_rate(&from, &eur()) {
                Some(rate) => rate,
                None => {
                    proof {
                        assert(false);
                    }
                    return Err(ConversionError::NoExchangeRate(on_date));
                },
            };
            proof {
                let qf = self.used_quote(d, fallback, from).unwrap();
                assert(rate1 == to_eur_of(from, qf));
                crate::rate::lemma_pow10_le_cap(qf.s as nat);
                assert(rate1.wf());
            }
            let mid = match rate1.convert(from_amount) {
                Some(mid) => mid,
                None => {
                    return Err(ConversionError::Overflow);
                },
            };
            let rate2 = match exchange.get_rate(&eur(), to_currency) {
                Some(rate) => rate,
                None => {
                    proof {
                        assert(false);
                    }
                    return Err(ConversionError::NoExchangeRate(on_date));
                },
            };
            proof {
                let qt = self.used_quote(d, fallback, *to_currency).unwrap();
                assert(rate2 == from_eur_of(*to_currency, qt));
                crate::rate::lemma_pow10_le_cap(qt.s as nat);
                assert(rate2.wf());
            }
            match rate2.convert(mid) {
                Some(out) => Ok(Money::from_decimal(out.amount(), *to_currency)),
                None => Err(ConversionError::Overflow),
            }
        }
    }

    /// The synthesized row's quote for a currency is the engine's
    /// on-demand interpolated quote.
    proof fn lemma_synth_quotes(
        self,
        prev: RateRow,
        next: RateRow,
        d: int,
        row: RateRow,
        c: Currency,
    )
        requires
            self.wf(),
            !self.has_row(d),
            prev_obs(self.rows@, d) == Some(prev),
            next_obs(self.rows@, d) == Some(next),
            prev.wf(self.width()),
            next.wf(self.width()),
            row.cells@.len() == self.width(),
            forall|k: int| 0 <= k < self.width() ==> crate::store::cell_wf(#[trigger] row.cells@[k]),
            forall|k: int| 0 <= k < self.width() ==> row.cells@[k] == cell_synth(
                #[trigger] prev.cells@[k],
                next.cells@[k],
                prev.day.ordinal as int,
                next.day.ordinal as int,
                d,
            ),
        ensures
            quote_in(row.cells@, self.currencies@, c) == self.used_quote(d, true, c),
            quote_in(row.cells@, self.currencies@, c) matches Some(q) ==> q.wf() && q.m > 0,
    {
        crate::store::lemma_first_col(self.currencies@, c.code);
        let col = first_col(self.currencies@, c.code);
        if col < self.width() {
            assert(row.cells@[col] == cell_synth(
                prev.cells@[col],
                next.cells@[col],
                prev.day.ordinal as int,
                next.day.ordinal as int,
                d,
            ));
            assert(crate::store::cell_wf(row.cells@[col]));
        }
    }

    /// For a row-backed lookup with all quotes present, the engine's
    /// used quotes are the row's, present and well formed.
    proof fn lemma_row_path_facts(self, d: int, fallback: bool, from: Currency, to: Currency)
        requires
            self.wf(),
            from.code != to.code,
            self.has_row(d),
            !self.row_at(d).interpolated || fallback,
            self.quotes_present(self.row_at(d), self.req_of(from, to)),
        ensures
            from.code != EUR_CODE ==> self.used_quote(d, fallback, from) == quote_in(
                self.row_at(d).cells@,
                self.currencies@,
                from,
            ) && self.used_quote(d, fallback, from) is Some,
            to.code != EUR_CODE ==> self.used_quote(d, fallback, to) == quote_in(
                self.row_at(d).cells@,
                self.currencies@,
                to,
            ) && self.used_quote(d, fallback, to) is Some,
            from.code != EUR_CODE ==> (self.used_quote(d, fallback, from) matches Some(q) ==> q.wf()
                && q.m > 0),
            to.code != EUR_CODE ==> (self.used_quote(d, fallback, to) matches Some(q) ==> q.wf()
                && q.m > 0),
    {
        let req = self.req_of(from, to);
        if from.code != EUR_CODE {
            assert(req[0] == from);
            assert(quote_in(self.row_at(d).cells@, self.currencies@, from) is Some);
            self.lemma_row_quote_wf(d, fallback, from);
        }
        if to.code != EUR_CODE {
            let j: int = if from.code == EUR_CODE {
                0
            } else {
                1
            };
            assert(req[j] == to);
            assert(quote_in(self.row_at(d).cells@, self.currencies@, to) is Some);
            self.lemma_row_quote_wf(d, fallback, to);
        }
    }

    /// Any quote the engine uses is well formed and strictly positive:
    /// a stored quote by the store invariant, an interpolated quote by
    /// the quantizer's range conditions.
    pub proof fn lemma_used_quote_wf(self, d: int, fallback: bool, c: Currency)
        requires
            self.wf(),
        ensures
            self.used_quote(d, fallback, c) matches Some(q) ==> q.wf() && q.m > 0,
    {
        if self.used_quote(d, fallback, c) is Some {
            if self.has_row(d) {
                self.lemma_row_quote_wf(d, fallback, c);
            } else {
                let p = prev_obs(self.rows@, d).unwrap();
                let n = next_obs(self.rows@, d).unwrap();
                let col = first_col(self.currencies@, c.code);
                let y1 = p.cells@[col].unwrap();
                let y2 = n.cells@[col].unwrap();
                let n3 = crate::interpolate::interp_num(
                    y1,
                    y2,
                    p.day.ordinal as int,
                    n.day.ordinal as int,
                    d,
                );
                let d3 = crate::interpolate::interp_den(
                    y1,
                    y2,
                    p.day.ordinal as int,
                    n.day.ordinal as int,
                );
                assert(crate::interpolate::interp_in_range(
                    y1,
                    y2,
                    p.day.ordinal as int,
                    n.day.ordinal as int,
                    d,
                ));
                crate::interpolate::lemma_prev_obs_nearest(self.rows@, d);
                crate::interpolate::lemma_next_obs_nearest(self.rows@, d);
                crate::decimal::lemma_pow10_pos(y1.s as nat);
                crate::decimal::lemma_pow10_pos(y2.s as nat);
                assert(d3 > 0) by (nonlinear_arith)
                    requires
                        d3 == y1.den() * y2.den() * ((n.day.ordinal as int) - (
                        p.day.ordinal as int)),
                        y1.den() >= 1,
                        y2.den() >= 1,
                        p.day.ordinal < n.day.ordinal,
                ;
                // A negative numerator cannot round to a positive quote.
                if n3 < 0 {
                    lemma_quant_mag_bounds(-n3, d3);
                }
                assert(n3 >= 0);
                lemma_quant_mag_bounds(n3, d3);
                lemma_canon_dec_value(
                    false,
                    crate::decimal::quant_mag(n3, d3),
                    quant_scale(n3, d3),
                );
                assert(self.used_quote(d, fallback, c).unwrap() == quant_dec(n3, d3));
            }
        }
    }

    /// A quote read from a stored row is well formed and positive.
    proof fn lemma_row_quote_wf(self, d: int, fallback: bool, c: Currency)
        requires
            self.wf(),
            self.has_row(d),
        ensures
            self.used_quote(d, fallback, c) matches Some(q) ==> q.wf() && q.m > 0,
    {
        crate::store::lemma_first_row(self.rows@, d);
        crate::store::lemma_first_col(self.currencies@, c.code);
        let row = self.row_at(d);
        assert(row.wf(self.width()));
        let col = first_col(self.currencies@, c.code);
        if 0 <= col < self.width() {
            assert(crate::store::cell_wf(row.cells@[col]));
        }
    }

    /// For a one-currency request whose quote is present, the decoded
    /// rates resolve the euro pair in both directions.
    proof fn lemma_one_currency_rates(
        self,
        cells: Seq<Option<Dec>>,
        req: Seq<Currency>,
        from: Currency,
        to: Currency,
        d: int,
        fallback: bool,
    )
        requires
            from.code == EUR_CODE || to.code == EUR_CODE,
            from.code != to.code,
            req == self.req_of(from, to),
            from.code != EUR_CODE ==> quote_in(cells, self.currencies@, from) == self.used_quote(
                d,
                fallback,
                from,
            ) && self.used_quote(d, fallback, from) is Some,
            to.code != EUR_CODE ==> quote_in(cells, self.currencies@, to) == self.used_quote(
                d,
                fallback,
                to,
            ) && self.used_quote(d, fallback, to) is Some,
        ensures
            to.code == EUR_CODE ==> find_rate_in(
                decode_row_spec(cells, self.currencies@, req),
                from.code,
                EUR_CODE,
            ) == Some(to_eur_of(from, self.used_quote(d, fallback, from).unwrap())),
            to.code != EUR_CODE ==> find_rate_in(
                decode_row_spec(cells, self.currencies@, req),
                EUR_CODE,
                to.code,
            ) == Some(from_eur_of(to, self.used_quote(d, fallback, to).unwrap())),
    {
        reveal_with_fuel(decode_row_spec, 4);
        reveal_with_fuel(find_rate_in, 6);
        let c = if to.code == EUR_CODE {
            from
        } else {
            to
        };
        let q = quote_in(cells, self.currencies@, c).unwrap();
        let rates = decode_row_spec(cells, self.currencies@, req);
        assert(req.skip(1) =~= Seq::<Currency>::empty());
        assert(decode_row_spec(cells, self.currencies@, Seq::<Currency>::empty())
            == Seq::<ExchangeRate>::empty());
        assert(rates_of_currency(cells, self.currencies@, c) =~= seq![
            to_eur_of(c, q),
            from_eur_of(c, q),
        ]);
        assert(rates =~= seq![to_eur_of(c, q), from_eur_of(c, q)]);
        assert(rates.last() == from_eur_of(c, q));
        assert(rates.drop_last().last() == to_eur_of(c, q));
        assert(rates.drop_last().drop_last() =~= Seq::<ExchangeRate>::empty());
        if to.code == EUR_CODE {
            assert(from_eur_of(c, q).base.code == EUR_CODE);
            assert(find_rate_in(rates, from.code, EUR_CODE) == find_rate_in(
                rates.drop_last(),
                from.code,
                EUR_CODE,
            ));
        }
    }

    /// For a two-currency request whose quotes are present, the decoded
    /// rates resolve the source-to-euro and euro-to-target pairs.
    proof fn lemma_two_currency_rates(
        self,
        cells: Seq<Option<Dec>>,
        req: Seq<Currency>,
        from: Currency,
        to: Currency,
        d: int,
        fallback: bool,
    )
        requires
            from.code != EUR_CODE,
            to.code != EUR_CODE,
            from.code != to.code,
            req == self.req_of(from, to),
            quote_in(cells, self.currencies@, from) == self.used_quote(d, fallback, from)
                && self.used_quote(d, fallback, from) is Some,
            quote_in(cells, self.currencies@, to) == self.used_quote(d, fallback, to)
                && self.used_quote(d, fallback, to) is Some,
        ensures
            find_rate_in(decode_row_spec(cells, self.currencies@, req), from.code, EUR_CODE)
                == Some(to_eur_of(from, self.used_quote(d, fallback, from).unwrap())),
            find_rate_in(decode_row_spec(cells, self.currencies@, req), EUR_CODE, to.code) == Some(
                from_eur_of(to, self.used_quote(d, fallback, to).unwrap()),
            ),
    {
        reveal_with_fuel(decode_row_spec, 4);
        reveal_with_fuel(find_rate_in, 6);
        let qf = quote_in(cells, self.currencies@, from).unwrap();
        let qt = quote_in(cells, self.currencies@, to).unwrap();
        let rates = decode_row_spec(cells, self.currencies@, req);
        assert(req[0] == from && req.skip(1)[0] == to);
        assert(req.skip(1).skip(1) =~= Seq::<Currency>::empty());
        assert(decode_row_spec(cells, self.currencies@, Seq::<Currency>::empty())
            == Seq::<ExchangeRate>::empty());
        assert(rates_of_currency(cells, self.currencies@, from) =~= seq![
            to_eur_of(from, qf),
            from_eur_of(from, qf),
        ]);
        assert(rates_of_currency(cells, self.currencies@, to) =~= seq![
            to_eur_of(to, qt),
            from_eur_of(to, qt),
        ]);
        assert(rates =~= seq![
            to_eur_of(from, qf),
            from_eur_of(from, qf),
            to_eur_of(to, qt),
            from_eur_of(to, qt),
        ]);
        assert(rates.last() == from_eur_of(to, qt));
        assert(rates.drop_last().last() == to_eur_of(to, qt));
        assert(rates.drop_last().drop_last().last() == from_eur_of(from, qf));
        assert(rates.drop_last().drop_last().drop_last().last() == to_eur_of(from, qf));
        assert(rates.drop_last().drop_last().drop_last().drop_last()
            =~= Seq::<ExchangeRate>::empty());
    }

    /// Observed quotes are served with no precision loss: for any date
    /// and currency whose stored quote is present, the euro-to-currency
    /// rate that a lookup decodes carries the raw stored quote exactly,
    /// mantissa and scale, and the currency-to-euro rate carries its
    /// exact reciprocal.
    pub proof fn lemma_lookup_keeps_quote_exactly(self, d: int, c: Currency)
        requires
            self.wf(),
            c.code != EUR_CODE,
            self.has_row(d),
            quote_in(self.row_at(d).cells@, self.currencies@, c) is Some,
        ensures
            ({
                let q = quote_in(self.row_at(d).cells@, self.currencies@, c).unwrap();
                let rates = decode_row_spec(self.row_at(d).cells@, self.currencies@, seq![c]);
                &&& find_rate_in(rates, EUR_CODE, c.code) == Some(from_eur_of(c, q))
                &&& from_eur_of(c, q).num == q.m
                &&& from_eur_of(c, q).den == crate::decimal::pow10(q.s as nat)
                &&& find_rate_in(rates, c.code, EUR_CODE) == Some(to_eur_of(c, q))
                &&& to_eur_of(c, q) == from_eur_of(c, q).inverse_spec()
            }),
    {
        reveal_with_fuel(decode_row_spec, 4);
        reveal_with_fuel(find_rate_in, 6);
        self.lemma_row_quote_wf(d, true, c);
        let cells = self.row_at(d).cells@;
        let q = quote_in(cells, self.currencies@, c).unwrap();
        let req: Seq<Currency> = seq![c];
        let rates = decode_row_spec(cells, self.currencies@, req);
        assert(req.skip(1) =~= Seq::<Currency>::empty());
        assert(decode_row_spec(cells, self.currencies@, Seq::<Currency>::empty())
            == Seq::<ExchangeRate>::empty());
        assert(rates_of_currency(cells, self.currencies@, c) =~= seq![
            to_eur_of(c, q),
            from_eur_of(c, q),
        ]);
        assert(rates =~= seq![to_eur_of(c, q), from_eur_of(c, q)]);
        assert(rates.last() == from_eur_of(c, q));
        assert(rates.drop_last().last() == to_eur_of(c, q));
        assert(rates.drop_last().drop_last() =~= Seq::<ExchangeRate>::empty());
        assert(from_eur_of(c, q).base.code == EUR_CODE);
        assert(find_rate_in(rates, c.code, EUR_CODE) == find_rate_in(
            rates.drop_last(),
            c.code,
            EUR_CODE,
        ));
        crate::rate::lemma_pow10_le_cap(q.s as nat);
    }

    /// Converts using the rate on the given date alone. If the date has
    /// no observed row, or a needed quote is absent that day, it fails
    /// with `NoExchangeRate`.
    pub fn convert_on_date(&self, from_amount: Money, to_currency: &Currency, on_date: Day) -> (r:
        Result<Money, ConversionError>)
        requires
            self.wf(),
            from_amount.wf(),
        ensures
            r == self.convert_result(from_amount, *to_currency, on_date, false),
    {
        self.convert(from_amount, to_currency, on_date, false)
    }

    /// Converts using the date's rate, interpolating the rate on demand
    /// if the date has no row but lies between observed dates. For a
    /// date out of those bounds it fails with `NoExchangeRate`.
    pub fn convert_on_date_with_fallback(
        &self,
        from_amount: Money,
        to_currency: &Currency,
        on_date: Day,
    ) -> (r: Result<Money, ConversionError>)
        requires
            self.wf(),
            from_amount.wf(),
        ensures
            r == self.convert_result(from_amount, *to_currency, on_date, true),
    {
        self.convert(from_amount, to_currency, on_date, true)
    }

    /// Conversion symmetry at the engine level, over the euro-endpoint
    /// path: converting a positive amount of a non-euro currency to the
    /// euro and the result back on one date uses one stored quote and
    /// its exact reciprocal, so the round-tripped amount differs from
    /// the original by less than one rounding ulp per quantization —
    /// below `1/p2 + (1/quote)/p1`, with `p1`, `p2` ten to the two
    /// quantization scales, stated by cross multiplication over the
    /// exact integer values.
    pub proof fn lemma_convert_round_trip(
        self,
        m: Money,
        eur_currency: Currency,
        on_date: Day,
        fallback: bool,
    )
        requires
            self.wf(),
            m.wf(),
            m.amount.m > 0,
            m.currency.code != EUR_CODE,
            eur_currency.code == EUR_CODE,
            self.convert_result(m, eur_currency, on_date, fallback) is Ok,
            self.convert_result(
                self.convert_result(m, eur_currency, on_date, fallback)->Ok_0,
                m.currency,
                on_date,
                fallback,
            ) is Ok,
        ensures
            ({
                let d = on_date.ordinal as int;
                let q = self.used_quote(d, fallback, m.currency).unwrap();
                let r = to_eur_of(m.currency, q);
                let mid = r.apply_spec(m);
                let out1 = self.convert_result(m, eur_currency, on_date, fallback)->Ok_0;
                let back = self.convert_result(out1, m.currency, on_date, fallback)->Ok_0;
                let p1 = pow10(quant_scale(mag_of(r.num_product(m)), r.den_product(m)));
                let p2 = pow10(
                    quant_scale(
                        mag_of(r.inverse_spec().num_product(mid)),
                        r.inverse_spec().den_product(mid),
                    ),
                );
                let diff = back.amount.num() * m.amount.den() - m.amount.num()
                    * back.amount.den();
                &&& back.currency == m.currency
                &&& diff * (r.num * p1 * p2) < back.amount.den() * m.amount.den() * (r.num * p1
                    + r.den * p2)
                &&& (-diff) * (r.num * p1 * p2) < back.amount.den() * m.amount.den() * (r.num
                    * p1 + r.den * p2)
            }),
    {
        let d = on_date.ordinal as int;
        let q = self.used_quote(d, fallback, m.currency).unwrap();
        let r = to_eur_of(m.currency, q);
        let out1 = self.convert_result(m, eur_currency, on_date, fallback)->Ok_0;
        let back = self.convert_result(out1, m.currency, on_date, fallback)->Ok_0;
        self.lemma_used_quote_wf(d, fallback, m.currency);
        crate::rate::lemma_pow10_le_cap(q.s as nat);
        assert(r.wf());
        // The first conversion applies the to-euro rate to `m`.
        assert(out1 == self.convert_value(m, eur_currency, d, fallback));
        assert(out1.amount == r.apply_spec(m).amount);
        assert(out1.currency == eur_currency);
        let mid = r.apply_spec(m);
        // The way back applies the exact reciprocal to the same amount.
        assert(r.inverse_spec() == from_eur_of(m.currency, q));
        assert(back == self.convert_value(out1, m.currency, d, fallback));
        assert(back.amount == from_eur_of(m.currency, q).apply_spec(out1).amount);
        assert(from_eur_of(m.currency, q).num_product(out1) == r.inverse_spec().num_product(mid));
        assert(from_eur_of(m.currency, q).den_product(out1) == r.inverse_spec().den_product(mid));
        assert(back.amount == r.inverse_spec().apply_spec(mid).amount);
        assert(!r.convert_overflows(m));
        assert(!self.convert_overflow(out1, m.currency, d, fallback));
        assert(!r.inverse_spec().convert_overflows(mid));
        crate::rate::lemma_round_trip_tolerance(r, m);
    }

    /// What a conversion returns, as a function of the request.
    pub open spec fn convert_result(self, m: Money, to: Currency, on_date: Day, fallback: bool) -> Result<
        Money,
        ConversionError,
    > {
        let d = on_date.ordinal as int;
        let req = self.req_of(m.currency, to);
        if m.currency.code == to.code {
            Err(ConversionError::SameCurrency)
        } else if !self.all_tracked(req) {
            Err(ConversionError::InvalidCurrency(req[first_untracked(self.currencies@, req)]))
        } else if !self.rates_available(m, to, d, fallback) {
            Err(ConversionError::NoExchangeRate(on_date))
        } else if self.convert_overflow(m, to, d, fallback) {
            Err(ConversionError::Overflow)
        } else {
            Ok(self.convert_value(m, to, d, fallback))
        }
    }
}

} // verus!
