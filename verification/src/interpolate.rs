//! The interpolation engine: fills a missing date from its nearest
//! observed neighbors by linear interpolation on the ordinal-day axis,
//! anchored on observed rows only, so synthesized rows never feed later
//! synthesis.

use vstd::prelude::*;
use crate::currency::Currency;
use crate::dates::Day;
use crate::decimal::{
    Dec, pow10, pow10_exec, quantize, quant_scale, quant_signed, quant_overflows, quant_dec,
    mag_of, lemma_pow10_pos, lemma_pow10_37_value, MANT_CAP, SCALE_CAP,
};
use crate::rate::lemma_pow10_le_cap;
use crate::store::{ExchangeStore, RateRow, cell_wf, first_row, lemma_first_row, lemma_row_present};

verus! {

/// Why a date could not be interpolated.
#[derive(Clone, Copy, PartialEq, Eq, Structural, Debug)]
pub enum InterpolationError {
    /// The date precedes the first observed date or follows the last.
    OutOfBounds,
}

/// The numerator of the exact interpolated quote at `x3`, between the
/// quotes `y1` at `x1` and `y2` at `x2`:
/// `y3 = (y1 * (x2 - x3) + y2 * (x3 - x1)) / (x2 - x1)`.
pub open spec fn interp_num(y1: Dec, y2: Dec, x1: int, x2: int, x3: int) -> int {
    y1.num() * y2.den() * (x2 - x3) + y2.num() * y1.den() * (x3 - x1)
}

/// The denominator of the exact interpolated quote.
pub open spec fn interp_den(y1: Dec, y2: Dec, x1: int, x2: int) -> int {
    y1.den() * y2.den() * (x2 - x1)
}

/// A numerator or denominator fits the quantizer's domain.
pub open spec fn fits_quant(x: int) -> bool {
    -pow10(37) <= x <= pow10(37)
}

/// The exact interpolated rational fits the quantizer and rounds to a
/// representable, strictly positive quote.
pub open spec fn interp_in_range(y1: Dec, y2: Dec, x1: int, x2: int, x3: int) -> bool {
    let n3 = interp_num(y1, y2, x1, x2, x3);
    let d3 = interp_den(y1, y2, x1, x2);
    &&& fits_quant(n3)
    &&& fits_quant(d3)
    &&& !quant_overflows(mag_of(n3), d3)
    &&& quant_signed(n3, d3) > 0
}

/// The cell synthesized between two neighbor cells: the quantized exact
/// interpolation where both neighbors have a quote and the value is
/// representable as a positive quote, nothing otherwise — an
/// out-of-range value is skipped like an absent quote, not an error.
pub open spec fn cell_synth(
    c1: Option<Dec>,
    c2: Option<Dec>,
    x1: int,
    x2: int,
    x3: int,
) -> Option<Dec> {
    match (c1, c2) {
        (Some(y1), Some(y2)) => {
            if interp_in_range(y1, y2, x1, x2, x3) {
                Some(quant_dec(interp_num(y1, y2, x1, x2, x3), interp_den(y1, y2, x1, x2)))
            } else {
                None
            }
        },
        _ => None,
    }
}

/// Interpolates one cell: the quantized quote, or `None` for a skipped
/// cell — a neighbor quote absent, or the value out of range.
fn interp_cell(c1: &Option<Dec>, c2: &Option<Dec>, x1: i32, x2: i32, x3: i32) -> (r: Option<Dec>)
    requires
        cell_wf(*c1),
        cell_wf(*c2),
        x1 < x3 < x2,
    ensures
        r == cell_synth(*c1, *c2, x1 as int, x2 as int, x3 as int),
        cell_wf(r),
{
    let y1 = match c1 {
        Some(y) => *y,
        None => {
            return None;
        },
    };
    let y2 = match c2 {
        Some(y) => *y,
        None => {
            return None;
        },
    };
    proof {
        lemma_pow10_37_value();
        lemma_pow10_le_cap(y1.s as nat);
        lemma_pow10_le_cap(y2.s as nat);
        crate::rate::lemma_cap_squared();
    }
    let b1 = pow10_exec(y1.s);
    let b2 = pow10_exec(y2.s);
    let dx21: i128 = (x2 as i128) - (x1 as i128);
    let dx23: i128 = (x2 as i128) - (x3 as i128);
    let dx31: i128 = (x3 as i128) - (x1 as i128);
    proof {
        assert(0 < y1.m * b2 <= pow10(36)) by (nonlinear_arith)
            requires
                0 < y1.m <= MANT_CAP,
                0 < b2 <= MANT_CAP,
                MANT_CAP * MANT_CAP == pow10(36),
        ;
        assert(0 < y2.m * b1 <= pow10(36)) by (nonlinear_arith)
            requires
                0 < y2.m <= MANT_CAP,
                0 < b1 <= MANT_CAP,
                MANT_CAP * MANT_CAP == pow10(36),
        ;
        assert(0 < b1 * b2 <= pow10(36)) by (nonlinear_arith)
            requires
                0 < b1 <= MANT_CAP,
                0 < b2 <= MANT_CAP,
                MANT_CAP * MANT_CAP == pow10(36),
        ;
        lemma_pow10_36_37();
    }
    let t1: i128 = y1.m * b2;
    let t2: i128 = y2.m * b1;
    let bb: i128 = b1 * b2;
    let n3: i128 = match term_times(t1, dx23) {
        Some(v1) => match term_times(t2, dx31) {
            Some(v2) => {
                if v1 <= QUANT_LIMIT && v2 <= QUANT_LIMIT && v1 + v2 <= QUANT_LIMIT {
                    v1 + v2
                } else {
                    proof {
                        lemma_sum_exceeds(
                            t1 as int,
                            dx23 as int,
                            t2 as int,
                            dx31 as int,
                            v1 as int,
                            v2 as int,
                        );
                    }
                    return None;
                }
            },
            None => {
                proof {
                    lemma_term_overflow(t2 as int, dx31 as int, t1 as int, dx23 as int);
                }
                return None;
            },
        },
        None => {
            proof {
                lemma_term_overflow(t1 as int, dx23 as int, t2 as int, dx31 as int);
            }
            return None;
        },
    };
    let d3: i128 = match term_times(bb, dx21) {
        Some(v) => {
            if v <= QUANT_LIMIT {
                v
            } else {
                return None;
            }
        },
        None => {
            proof {
                assert(bb * dx21 > pow10(37)) by (nonlinear_arith)
                    requires
                        bb * dx21 > 170_141_183_460_469_231_731_687_303_715_884_105_727int,
                        pow10(37) == 10_000_000_000_000_000_000_000_000_000_000_000_000,
                ;
            }
            return None;
        },
    };
    match quantize(n3, d3) {
        Some(q) => {
            if q.m > 0 {
                Some(q)
            } else {
                None
            }
        },
        None => None,
    }
}

/// The quantizer's domain bound, `10^37`.
pub const QUANT_LIMIT: i128 = 10_000_000_000_000_000_000_000_000_000_000_000_000;

/// `10^36` is below `10^37`.
proof fn lemma_pow10_36_37()
    ensures
        pow10(36) < pow10(37),
        pow10(37) == QUANT_LIMIT,
{
    crate::decimal::lemma_pow10_36_value();
    lemma_pow10_37_value();
}

/// A positive term times a positive span, checked.
fn term_times(t: i128, dx: i128) -> (r: Option<i128>)
    requires
        t > 0,
        dx > 0,
    ensures
        r matches Some(v) ==> v == t * dx && v > 0,
        r is None ==> t * dx > 170_141_183_460_469_231_731_687_303_715_884_105_727int,
{
    let r = t.checked_mul(dx);
    proof {
        if t * dx <= 170_141_183_460_469_231_731_687_303_715_884_105_727int {
            assert(t * dx > 0) by (nonlinear_arith)
                requires t > 0, dx > 0;
        }
    }
    r
}

/// If one positive term of the sum is out of the quantizer's range,
/// the whole numerator is.
proof fn lemma_term_overflow(ta: int, dxa: int, tb: int, dxb: int)
    requires
        ta > 0,
        dxa > 0,
        tb > 0,
        dxb > 0,
        ta * dxa > 170_141_183_460_469_231_731_687_303_715_884_105_727int,
    ensures
        ta * dxa + tb * dxb > pow10(37),
{
    lemma_pow10_37_value();
    assert(tb * dxb > 0) by (nonlinear_arith)
        requires tb > 0, dxb > 0;
}

/// If the guarded sum check fails, the exact numerator is out of the
/// quantizer's range.
proof fn lemma_sum_exceeds(ta: int, dxa: int, tb: int, dxb: int, va: int, vb: int)
    requires
        ta > 0,
        dxa > 0,
        tb > 0,
        dxb > 0,
        va == ta * dxa,
        vb == tb * dxb,
        !(va <= QUANT_LIMIT && vb <= QUANT_LIMIT && va + vb <= QUANT_LIMIT),
    ensures
        ta * dxa + tb * dxb > pow10(37),
{
    lemma_pow10_37_value();
    assert(va > 0) by (nonlinear_arith)
        requires ta > 0, dxa > 0, va == ta * dxa;
    assert(vb > 0) by (nonlinear_arith)
        requires tb > 0, dxb > 0, vb == tb * dxb;
}

impl ExchangeStore {
    /// Synthesizes the interpolated row at `on` from the two neighbor
    /// rows: per currency, the linear interpolation of the two quotes
    /// on the ordinal-day axis, skipped — left absent, not an error —
    /// where either quote is absent or the value falls out of range.
    pub fn interpolate_row(&self, prev: &RateRow, next: &RateRow, on: Day) -> (row: RateRow)
        requires
            self.wf(),
            prev.wf(self.width()),
            next.wf(self.width()),
            prev.day.ordinal < on.ordinal < next.day.ordinal,
        ensures
            row.day == on,
            row.interpolated,
            row.wf(self.width()),
            forall|k: int| 0 <= k < self.width() ==> row.cells@[k] == cell_synth(
                #[trigger] prev.cells@[k],
                next.cells@[k],
                prev.day.ordinal as int,
                next.day.ordinal as int,
                on.ordinal as int,
            ),
    {
        let width = self.currencies.len();
        let mut cells: Vec<Option<Dec>> = Vec::new();
        let mut k: usize = 0;
        while k < width
            invariant
                self.wf(),
                prev.wf(self.width()),
                next.wf(self.width()),
                prev.day.ordinal < on.ordinal < next.day.ordinal,
                width == self.width(),
                0 <= k <= width,
                cells@.len() == k,
                forall|j: int| 0 <= j < k ==> cells@[j] == cell_synth(
                    #[trigger] prev.cells@[j],
                    next.cells@[j],
                    prev.day.ordinal as int,
                    next.day.ordinal as int,
                    on.ordinal as int,
                ),
                forall|j: int| 0 <= j < k ==> cell_wf(#[trigger] cells@[j]),
            decreases width - k,
        {
            let cell = interp_cell(
                &prev.cells[k],
                &next.cells[k],
                prev.day.ordinal,
                next.day.ordinal,
                on.ordinal,
            );
            cells.push(cell);
            k = k + 1;
        }
        RateRow { day: on, interpolated: true, cells }
    }
}

/// The nearest observed row strictly before the date, scanning from
/// the end; on a date-sorted sequence this is the closest one.
pub open spec fn prev_obs(rows: Seq<RateRow>, d: int) -> Option<RateRow>
    decreases rows.len(),
{
    if rows.len() == 0 {
        None
    } else if rows.last().day.ordinal < d && !rows.last().interpolated {
        Some(rows.last())
    } else {
        prev_obs(rows.drop_last(), d)
    }
}

/// The nearest observed row strictly after the date, scanning from the
/// front; on a date-sorted sequence this is the closest one.
pub open spec fn next_obs(rows: Seq<RateRow>, d: int) -> Option<RateRow>
    decreases rows.len(),
{
    if rows.len() == 0 {
        None
    } else if rows[0].day.ordinal > d && !rows[0].interpolated {
        Some(rows[0])
    } else {
        next_obs(rows.skip(1), d)
    }
}

/// Interpolation monotonicity: for neighbors at `x1 < x3 < x2` with
/// unequal quotes `y1` and `y2`, the exact interpolated quote at `x3`
/// lies strictly between `y1` and `y2` (an endpoint is reached only at
/// that endpoint's own date, which the bounds exclude). The
/// comparisons are stated by cross multiplication: `u / v < w / z`
/// with positive `v`, `z` is `u * z < w * v`.
#[verifier::rlimit(100)]
pub proof fn lemma_interpolation_strictly_between(y1: Dec, y2: Dec, x1: int, x2: int, x3: int)
    requires
        x1 < x3 < x2,
        y1.num() * y2.den() != y2.num() * y1.den(),
    ensures
        interp_den(y1, y2, x1, x2) > 0,
        y1.num() * y2.den() < y2.num() * y1.den() ==> interp_num(y1, y2, x1, x2, x3) * y1.den()
            > y1.num() * interp_den(y1, y2, x1, x2) && interp_num(y1, y2, x1, x2, x3) * y2.den()
            < y2.num() * interp_den(y1, y2, x1, x2),
        y1.num() * y2.den() > y2.num() * y1.den() ==> interp_num(y1, y2, x1, x2, x3) * y1.den()
            < y1.num() * interp_den(y1, y2, x1, x2) && interp_num(y1, y2, x1, x2, x3) * y2.den()
            > y2.num() * interp_den(y1, y2, x1, x2),
{
    let a1 = y1.num();
    let b1 = y1.den();
    let a2 = y2.num();
    let b2 = y2.den();
    let n3 = interp_num(y1, y2, x1, x2, x3);
    let d3 = interp_den(y1, y2, x1, x2);
    lemma_pow10_pos(y1.s as nat);
    lemma_pow10_pos(y2.s as nat);
    assert(d3 > 0) by (nonlinear_arith)
        requires
            d3 == b1 * b2 * (x2 - x1),
            b1 >= 1,
            b2 >= 1,
            x2 - x1 > 0,
    ;
    let u = x2 - x3;
    let v = x3 - x1;
    let ta = a1 * b2;
    let tb = a2 * b1;
    let cc = b1 * b2;
    assert(d3 == cc * u + cc * v) by (nonlinear_arith)
        requires
            d3 == b1 * b2 * (x2 - x1),
            cc == b1 * b2,
            u == x2 - x3,
            v == x3 - x1,
    ;
    assert(ta * b1 == a1 * cc) by (nonlinear_arith)
        requires
            ta == a1 * b2,
            cc == b1 * b2,
    ;
    assert(tb * b2 == a2 * cc) by (nonlinear_arith)
        requires
            tb == a2 * b1,
            cc == b1 * b2,
    ;
    assert(n3 * b1 == (ta * u) * b1 + (tb * v) * b1) by (nonlinear_arith)
        requires
            n3 == ta * u + tb * v,
    ;
    assert(a1 * d3 == a1 * (cc * u) + a1 * (cc * v)) by (nonlinear_arith)
        requires
            d3 == cc * u + cc * v,
    ;
    assert((ta * u) * b1 == a1 * (cc * u)) by (nonlinear_arith)
        requires
            ta * b1 == a1 * cc,
    ;
    assert(a1 * (cc * v) == (ta * v) * b1) by (nonlinear_arith)
        requires
            ta * b1 == a1 * cc,
    ;
    assert((tb * v) * b1 - (ta * v) * b1 == b1 * v * (tb - ta)) by (nonlinear_arith);
    assert(n3 * b1 - a1 * d3 == b1 * v * (tb - ta));
    assert(a2 * d3 == a2 * (cc * u) + a2 * (cc * v)) by (nonlinear_arith)
        requires
            d3 == cc * u + cc * v,
    ;
    assert(n3 * b2 == (ta * u) * b2 + (tb * v) * b2) by (nonlinear_arith)
        requires
            n3 == ta * u + tb * v,
    ;
    assert(a2 * (cc * v) == (tb * v) * b2) by (nonlinear_arith)
        requires
            tb * b2 == a2 * cc,
    ;
    assert(a2 * (cc * u) == (tb * u) * b2) by (nonlinear_arith)
        requires
            tb * b2 == a2 * cc,
    ;
    assert((tb * u) * b2 - (ta * u) * b2 == b2 * u * (tb - ta)) by (nonlinear_arith);
    assert(a2 * d3 - n3 * b2 == b2 * u * (tb - ta));
    assert(n3 * b1 - a1 * d3 == b1 * (x3 - x1) * (a2 * b1 - a1 * b2)) by (nonlinear_arith)
        requires
            n3 * b1 - a1 * d3 == b1 * v * (tb - ta),
            v == x3 - x1,
            tb == a2 * b1,
            ta == a1 * b2,
    ;
    assert(a2 * d3 - n3 * b2 == b2 * (x2 - x3) * (a2 * b1 - a1 * b2)) by (nonlinear_arith)
        requires
            a2 * d3 - n3 * b2 == b2 * u * (tb - ta),
            u == x2 - x3,
            tb == a2 * b1,
            ta == a1 * b2,
    ;
    if a1 * b2 < a2 * b1 {
        assert(b1 * (x3 - x1) * (a2 * b1 - a1 * b2) > 0) by (nonlinear_arith)
            requires
                b1 >= 1,
                x3 - x1 > 0,
                a2 * b1 - a1 * b2 > 0,
        ;
        assert(b2 * (x2 - x3) * (a2 * b1 - a1 * b2) > 0) by (nonlinear_arith)
            requires
                b2 >= 1,
                x2 - x3 > 0,
                a2 * b1 - a1 * b2 > 0,
        ;
    } else {
        assert(b1 * (x3 - x1) * (a2 * b1 - a1 * b2) < 0) by (nonlinear_arith)
            requires
                b1 >= 1,
                x3 - x1 > 0,
                a2 * b1 - a1 * b2 < 0,
        ;
        assert(b2 * (x2 - x3) * (a2 * b1 - a1 * b2) < 0) by (nonlinear_arith)
            requires
                b2 >= 1,
                x2 - x3 > 0,
                a2 * b1 - a1 * b2 < 0,
        ;
    }
}

/// A date-sorted row sequence.
pub open spec fn rows_sorted(rows: Seq<RateRow>) -> bool {
    forall|i: int, j: int| 0 <= i < j < rows.len() ==> (#[trigger] rows[i]).day.ordinal
        < (#[trigger] rows[j]).day.ordinal
}

/// On a sorted sequence, `prev_obs` is the observed row before the
/// date that lies closest to it, and it exists whenever any observed
/// row lies before the date.
pub proof fn lemma_prev_obs_nearest(rows: Seq<RateRow>, d: int)
    requires
        rows_sorted(rows),
    ensures
        prev_obs(rows, d) matches Some(r) ==> r.day.ordinal < d && !r.interpolated && exists|i: int|
            0 <= i < rows.len() && rows[i] == r,
        forall|i: int|
            0 <= i < rows.len() && (#[trigger] rows[i]).day.ordinal < d && !rows[i].interpolated
                ==> (prev_obs(rows, d) matches Some(r) && rows[i].day.ordinal <= r.day.ordinal),
    decreases rows.len(),
{
    if rows.len() == 0 {
    } else if rows.last().day.ordinal < d && !rows.last().interpolated {
        let r = rows.last();
        assert(rows[rows.len() - 1] == r);
        assert forall|i: int|
            0 <= i < rows.len() && (#[trigger] rows[i]).day.ordinal < d
                && !rows[i].interpolated implies rows[i].day.ordinal <= r.day.ordinal by {
            if i < rows.len() - 1 {
                assert(rows[i].day.ordinal < rows[rows.len() - 1].day.ordinal);
            }
        }
    } else {
        let dl = rows.drop_last();
        assert(forall|i: int| 0 <= i < dl.len() ==> #[trigger] dl[i] == rows[i]);
        lemma_prev_obs_nearest(dl, d);
        assert forall|i: int|
            0 <= i < rows.len() && (#[trigger] rows[i]).day.ordinal < d
                && !rows[i].interpolated implies (prev_obs(rows, d) matches Some(r)
            && rows[i].day.ordinal <= r.day.ordinal) by {
            assert(i < rows.len() - 1);
            assert(dl[i] == rows[i]);
        }
    }
}

/// On a sorted sequence, `next_obs` is the observed row after the date
/// that lies closest to it, and it exists whenever any observed row
/// lies after the date.
pub proof fn lemma_next_obs_nearest(rows: Seq<RateRow>, d: int)
    requires
        rows_sorted(rows),
    ensures
        next_obs(rows, d) matches Some(r) ==> r.day.ordinal > d && !r.interpolated && exists|i: int|
            0 <= i < rows.len() && rows[i] == r,
        forall|i: int|
            0 <= i < rows.len() && (#[trigger] rows[i]).day.ordinal > d && !rows[i].interpolated
                ==> (next_obs(rows, d) matches Some(r) && r.day.ordinal <= rows[i].day.ordinal),
    decreases rows.len(),
{
    if rows.len() == 0 {
    } else if rows[0].day.ordinal > d && !rows[0].interpolated {
        let r = rows[0];
        assert forall|i: int|
            0 <= i < rows.len() && (#[trigger] rows[i]).day.ordinal > d
                && !rows[i].interpolated implies r.day.ordinal <= rows[i].day.ordinal by {
            if i > 0 {
                assert(rows[0].day.ordinal < rows[i].day.ordinal);
            }
        }
    } else {
        let sk = rows.skip(1);
        assert(forall|i: int| 0 <= i < sk.len() ==> #[trigger] sk[i] == rows[i + 1]);
        lemma_next_obs_nearest(sk, d);
        assert forall|i: int|
            0 <= i < rows.len() && (#[trigger] rows[i]).day.ordinal > d
                && !rows[i].interpolated implies (next_obs(rows, d) matches Some(r)
            && r.day.ordinal <= rows[i].day.ordinal) by {
            assert(i >= 1);
            assert(sk[i - 1] == rows[i]);
        }
    }
}

impl ExchangeStore {
    /// Finds the nearest observed rows strictly before and strictly
    /// after the date, as indices into the rows. Fails with
    /// `OutOfBounds` exactly when either side has no observed row.
    pub fn find_neighbors(&self, on: Day) -> (r: Result<(usize, usize), InterpolationError>)
        requires
            self.wf(),
        ensures
            r is Ok <==> prev_obs(self.rows@, on.ordinal as int) is Some && next_obs(
                self.rows@,
                on.ordinal as int,
            ) is Some,
            r matches Ok((i, j)) ==> {
                &&& i < self.rows@.len() && j < self.rows@.len()
                &&& prev_obs(self.rows@, on.ordinal as int) == Some(self.rows@[i as int])
                &&& next_obs(self.rows@, on.ordinal as int) == Some(self.rows@[j as int])
            },
            r matches Err(e) ==> e == InterpolationError::OutOfBounds,
    {
        let d = on.ordinal;
        let mut i: usize = self.rows.len();
        proof {
            assert(self.rows@.take(self.rows@.len() as int) =~= self.rows@);
        }
        let prev_idx: usize;
        loop
            invariant
                d == on.ordinal,
                0 <= i <= self.rows@.len(),
                prev_obs(self.rows@, d as int) == prev_obs(self.rows@.take(i as int), d as int),
            ensures
                i > 0,
                i <= self.rows@.len(),
                prev_obs(self.rows@, d as int) == Some(self.rows@[i - 1]),
            decreases i,
        {
            if i == 0 {
                proof {
                    assert(self.rows@.take(0) =~= Seq::<RateRow>::empty());
                    assert(prev_obs(Seq::<RateRow>::empty(), d as int) is None);
                    assert(prev_obs(self.rows@, d as int) is None);
                }
                return Err(InterpolationError::OutOfBounds);
            }
            let cand = &self.rows[i - 1];
            proof {
                assert(self.rows@.take(i as int).last() == self.rows@[i - 1]);
                assert(self.rows@.take(i as int).drop_last() =~= self.rows@.take(i - 1));
            }
            if cand.day.ordinal < d && !cand.interpolated {
                break;
            }
            i = i - 1;
        }
        prev_idx = i - 1;
        let mut j: usize = 0;
        proof {
            assert(self.rows@.skip(0) =~= self.rows@);
        }
        let next_idx: usize;
        loop
            invariant
                d == on.ordinal,
                0 <= j <= self.rows@.len(),
                next_obs(self.rows@, d as int) == next_obs(self.rows@.skip(j as int), d as int),
                prev_obs(self.rows@, d as int) == Some(self.rows@[prev_idx as int]),
                prev_idx < self.rows@.len(),
            ensures
                j < self.rows@.len(),
                next_obs(self.rows@, d as int) == Some(self.rows@[j as int]),
                prev_obs(self.rows@, d as int) == Some(self.rows@[prev_idx as int]),
                prev_idx < self.rows@.len(),
            decreases self.rows@.len() - j,
        {
            if j == self.rows.len() {
                proof {
                    assert(self.rows@.skip(j as int) =~= Seq::<RateRow>::empty());
                    assert(next_obs(Seq::<RateRow>::empty(), d as int) is None);
                    assert(next_obs(self.rows@, d as int) is None);
                }
                return Err(InterpolationError::OutOfBounds);
            }
            let cand = &self.rows[j];
            proof {
                assert(self.rows@.skip(j as int)[0] == self.rows@[j as int]);
                assert(self.rows@.skip(j as int).skip(1) =~= self.rows@.skip(j + 1));
            }
            if cand.day.ordinal > d && !cand.interpolated {
                break;
            }
            j = j + 1;
        }
        next_idx = j;
        Ok((prev_idx, next_idx))
    }
}

impl ExchangeStore {
    /// A date strictly inside the store's bounds can be served: it has
    /// a row, or observed rows bracket it on both sides.
    pub open spec fn gap_bracketed(self, d: int) -> bool {
        self.has_row(d) || (prev_obs(self.rows@, d) is Some && next_obs(self.rows@, d) is Some)
    }

    /// Every date strictly between the first and the last row can be
    /// served: present, or bracketed by observed rows.
    pub open spec fn gaps_bracketed(self) -> bool {
        self.rows@.len() > 0 ==> forall|d: int|
            self.rows@[0].day.ordinal < d < self.rows@.last().day.ordinal
                ==> #[trigger] self.gap_bracketed(d)
    }

    /// What a row of the precomputed store must hold for its date: the
    /// store's own row where one exists, else the row interpolated from
    /// the nearest observed neighbors, cell by cell.
    pub open spec fn merged_row_ok(self, d: int, out_row: RateRow) -> bool {
        &&& out_row.day.ordinal == d
        &&& if self.has_row(d) {
            out_row.model() == self.row_at(d).model()
        } else {
            &&& out_row.interpolated
            &&& prev_obs(self.rows@, d) is Some
            &&& next_obs(self.rows@, d) is Some
            &&& forall|k: int| 0 <= k < self.width() ==> out_row.cells@[k] == cell_synth(
                #[trigger] prev_obs(self.rows@, d).unwrap().cells@[k],
                next_obs(self.rows@, d).unwrap().cells@[k],
                prev_obs(self.rows@, d).unwrap().day.ordinal as int,
                next_obs(self.rows@, d).unwrap().day.ordinal as int,
                d,
            )
        }
    }

    /// The store is the gap-free materialization of `base`: one row per
    /// date between base's first and last row, base's own rows kept with
    /// their content, and an interpolated row at every other date.
    pub open spec fn merged_from(self, base: ExchangeStore) -> bool {
        &&& self.wf()
        &&& self.currencies@ == base.currencies@
        &&& (self.rows@.len() == 0 <==> base.rows@.len() == 0)
        &&& base.rows@.len() > 0 ==> {
            let first = base.rows@[0].day.ordinal as int;
            let last = base.rows@.last().day.ordinal as int;
            &&& self.rows@.len() == last - first + 1
            &&& forall|i: int| 0 <= i < self.rows@.len() ==> (#[trigger] self.rows@[i]).day.ordinal
                == first + i
            &&& forall|i: int| 0 <= i < self.rows@.len() ==> base.merged_row_ok(
                first + i,
                #[trigger] self.rows@[i],
            )
            &&& forall|d: int| first <= d <= last ==> #[trigger] self.has_row(d)
        }
    }

    /// Materializes one row for every calendar date between the store's
    /// first and last row: dates that already have a row keep it
    /// unchanged, and every other date gets a row interpolated from its
    /// nearest observed neighbors, so the result has no gap within its
    /// bounds. Fails exactly when some date inside the bounds has no
    /// row and no observed rows bracketing it.
    #[verifier::loop_isolation(false)]
    pub fn precompute(&self) -> (r: Result<ExchangeStore, InterpolationError>)
        requires
            self.wf(),
        ensures
            r is Ok <==> self.gaps_bracketed(),
            r matches Err(e) ==> e == InterpolationError::OutOfBounds,
            r matches Ok(st) ==> st.merged_from(*self),
    {
        let currencies = self.duplicate_currencies();
        if self.rows.len() == 0 {
            return Ok(ExchangeStore { currencies, rows: Vec::new() });
        }
        let first: i32 = self.rows[0].day.ordinal;
        let last: i32 = self.rows[self.rows.len() - 1].day.ordinal;
        proof {
            if self.rows@.len() > 1 {
                assert(self.rows@[0].day.ordinal < self.rows@[self.rows@.len() - 1].day.ordinal);
            }
        }
        let mut out: Vec<RateRow> = Vec::new();
        let mut idx: usize = 0;
        let mut d: i64 = first as i64;
        while d <= last as i64
            invariant
                first as int <= d <= last as int + 1,
                0 <= idx <= self.rows@.len(),
                forall|k: int| 0 <= k < idx ==> (#[trigger] self.rows@[k]).day.ordinal < d,
                idx < self.rows@.len() ==> self.rows@[idx as int].day.ordinal >= d,
                out@.len() == d - first,
                forall|i: int| 0 <= i < out@.len() ==> (#[trigger] out@[i]).day.ordinal == first
                    + i,
                forall|i: int| 0 <= i < out@.len() ==> self.merged_row_ok(
                    first + i,
                    #[trigger] out@[i],
                ),
                forall|i: int| 0 <= i < out@.len() ==> (#[trigger] out@[i]).wf(self.width()),
                forall|dd: int| first < dd < d ==> #[trigger] self.gap_bracketed(dd),
            decreases last - d + 1,
        {
            let day_i32: i32 = d as i32;
            let takes = idx < self.rows.len() && self.rows[idx].day.ordinal == day_i32;
            if takes {
                let row = self.rows[idx].duplicate();
                proof {
                    lemma_row_present(self.rows@, idx as int);
                    lemma_first_row(self.rows@, d as int);
                    let f = first_row(self.rows@, d as int);
                    if f < idx {
                        assert(self.rows@[f].day.ordinal < d);
                        assert(self.rows@[f].day.ordinal == d);
                    }
                    assert(f == idx);
                    assert(self.has_row(d as int));
                    assert(self.merged_row_ok(d as int, row));
                }
                out.push(row);
                idx = idx + 1;
            } else {
                proof {
                    lemma_no_row_here(self.rows@, idx as int, d as int);
                    assert(!self.has_row(d as int));
                    // The gap lies strictly inside the bounds.
                    assert(idx >= 1) by {
                        if idx == 0 {
                            assert(self.rows@[0].day.ordinal >= d);
                            assert(self.rows@[0].day.ordinal == first);
                        }
                    }
                    assert(first < d);
                    assert(d < last) by {
                        assert(idx < self.rows@.len()) by {
                            if idx == self.rows@.len() {
                                assert(self.rows@[self.rows@.len() - 1].day.ordinal < d);
                            }
                        }
                        assert(self.rows@[idx as int].day.ordinal > d);
                        if idx < self.rows@.len() - 1 {
                            assert(self.rows@[idx as int].day.ordinal < self.rows@[self.rows@.len()
                                - 1].day.ordinal);
                        }
                    }
                }
                let (pi, ni) = match self.find_neighbors(Day { ordinal: day_i32 }) {
                    Ok(pair) => pair,
                    Err(_) => {
                        proof {
                            assert(!self.gap_bracketed(d as int));
                        }
                        return Err(InterpolationError::OutOfBounds);
                    },
                };
                proof {
                    lemma_prev_obs_nearest(self.rows@, d as int);
                    lemma_next_obs_nearest(self.rows@, d as int);
                }
                let row = self.interpolate_row(
                    &self.rows[pi],
                    &self.rows[ni],
                    Day { ordinal: day_i32 },
                );
                proof {
                    assert(self.merged_row_ok(d as int, row));
                    assert(self.gap_bracketed(d as int));
                }
                out.push(row);
            }
            d = d + 1;
        }
        let st = ExchangeStore { currencies, rows: out };
        proof {
            assert forall|dd: int|
                first as int <= dd <= last as int implies #[trigger] st.has_row(dd) by {
                let i = dd - first;
                assert(st.rows@[i].day.ordinal == dd);
                lemma_row_present(st.rows@, i);
            }
            assert(st.wf());
        }
        Ok(st)
    }

    /// An owned copy of the tracked currency list.
    fn duplicate_currencies(&self) -> (r: Vec<Currency>)
        ensures
            r@ == self.currencies@,
    {
        let mut out: Vec<Currency> = Vec::new();
        let mut k: usize = 0;
        proof {
            assert(out@ =~= self.currencies@.take(0));
        }
        while k < self.currencies.len()
            invariant
                0 <= k <= self.currencies@.len(),
                out@ =~= self.currencies@.take(k as int),
            decreases self.currencies@.len() - k,
        {
            out.push(self.currencies[k]);
            proof {
                assert(self.currencies@.take(k as int).push(self.currencies@[k as int])
                    =~= self.currencies@.take(k + 1));
            }
            k = k + 1;
        }
        proof {
            assert(self.currencies@.take(self.currencies@.len() as int) =~= self.currencies@);
        }
        out
    }
}

/// If every row before `idx` has a date below `d` and the row at `idx`
/// (if any) has a date above `d`, no row carries `d`.
proof fn lemma_no_row_here(rows: Seq<RateRow>, idx: int, d: int)
    requires
        forall|i: int, j: int| 0 <= i < j < rows.len() ==> (#[trigger] rows[i]).day.ordinal
            < (#[trigger] rows[j]).day.ordinal,
        0 <= idx <= rows.len(),
        forall|k: int| 0 <= k < idx ==> (#[trigger] rows[k]).day.ordinal < d,
        idx < rows.len() ==> rows[idx].day.ordinal != d && rows[idx].day.ordinal >= d,
    ensures
        first_row(rows, d) == rows.len(),
{
    lemma_first_row(rows, d);
    let f = first_row(rows, d);
    if f < rows.len() {
        assert(rows[f].day.ordinal == d);
        assert(f >= idx);
        if f > idx {
            assert(rows[idx as int].day.ordinal < rows[f].day.ordinal);
        }
        assert(false);
    }
}

} // verus!