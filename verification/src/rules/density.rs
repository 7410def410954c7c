//! Windowed density, and the thickness it implies.
use crate::design::{layer_exists, Design};
use crate::geom::{centre, centre_of, in_domain, max_int, min_int, Bbox, Point, MAX_ABS_DBU};
use crate::grid::floor_div;
use crate::model::{LayerId, LayerRef, PolyId, StrId};
use crate::number::Number;
use crate::report::{
    all_found, all_runs, ended, lemma_next_row, record_run, LimitSense, Measurement, Outcome,
    RowResult, RuleRun, Severity, Violation, Violations,
};
use crate::ruleset::RuleHead;
use crate::store::GeometryStore;
use vstd::arithmetic::power2::pow2;
use vstd::prelude::*;

verus! {

/// A calibrated first-order thickness model for one layer: a linear response
/// of finished thickness to local density.
#[derive(Clone, Copy, Debug, PartialEq, Eq, Structural)]
pub struct CmpModel {
    /// Density the process is calibrated at.
    pub target_density: Number,
    pub nominal_thickness: i64,
    /// Thickness change for a density one full unit above target, of either
    /// sign.
    pub thickness_sensitivity: i64,
    /// Excursion from nominal that is a violation.
    pub max_abs_thickness_delta: i64,
}

/// Windowed density. An absent bound means not checked.
pub struct DensityCmpTable {
    pub head: RuleHead,
    pub layer: Vec<LayerRef>,
    /// Window extent, and the step between window positions. A step smaller than the
    /// window overlaps deliberately: a violation straddling two windows that do not
    /// overlap appears in neither.
    pub window: Vec<(i64, i64)>,
    pub step: Vec<(i64, i64)>,
    pub min_density: Vec<Option<Number>>,
    pub max_density: Vec<Option<Number>>,
    /// Largest density difference permitted between adjacent windows.
    pub max_neighbour_delta: Vec<Option<Number>>,
    pub cmp: Vec<Option<CmpModel>>,
    /// Whether a window clipped by the die edge is evaluated against its
    /// clipped area, or skipped.
    ///
    /// Skipping leaves a strip along the die edge unchecked unless the steps cover
    /// both edges exactly; [`DensityCmpTable::first_strip`] finds a row that does, and
    /// [`crate::ruleset::RuleSet::from_deck_over`] refuses a deck that has one.
    pub include_partial_windows: Vec<bool>,
}

/// How many window positions a span holds at a given step.
pub open spec fn position_count(span: int, step: int) -> int {
    if span <= 0 { 0 } else { (span - 1) / step + 1 }
}

/// How many window positions a span holds at a given step. The window after
/// the last would start at or past the far edge.
pub fn positions(span: i64, step: i64) -> (r: usize)
    requires
        step > 0,
        position_count(span as int, step as int) <= usize::MAX,
    ensures
        r == position_count(span as int, step as int),
{
    if span <= 0 {
        return 0;
    }
    let q: i64 = (span - 1) / step;
    assert(q >= 0) by {
        vstd::arithmetic::div_mod::lemma_div_pos_is_pos(span - 1, step as int);
    }
    assert(q <= span - 1) by {
        vstd::arithmetic::div_mod::lemma_div_is_ordered_by_denominator(span - 1, 1, step as int);
        vstd::arithmetic::div_mod::lemma_div_basics((span - 1) as int);
    }
    q as usize + 1
}

/// One window position starts inside the span.
pub proof fn lemma_position_inside(i: int, span: int, step: int)
    requires
        step > 0,
        0 <= i < position_count(span, step),
    ensures
        0 <= i * step < span,
{
    let q = (span - 1) / step;
    vstd::arithmetic::div_mod::lemma_fundamental_div_mod(span - 1, step);
    assert(0 <= i * step <= q * step) by (nonlinear_arith)
        requires
            0 <= i <= q,
            step > 0,
    ;
    assert(q * step == step * q) by (nonlinear_arith);
}

/// Window `(i, j)` of a grid, before it is clipped to the die.
pub open spec fn full_window(
    die: Bbox,
    i: int,
    j: int,
    window: (i64, i64),
    step: (i64, i64),
) -> Bbox {
    Bbox {
        xlo: (die.xlo + i * step.0) as i64,
        ylo: (die.ylo + j * step.1) as i64,
        xhi: (die.xlo + i * step.0 + window.0) as i64,
        yhi: (die.ylo + j * step.1 + window.1) as i64,
    }
}

/// Window `(i, j)` of a grid, clipped to the die.
pub open spec fn clipped_window(
    die: Bbox,
    i: int,
    j: int,
    window: (i64, i64),
    step: (i64, i64),
) -> Bbox {
    full_window(die, i, j, window, step).clip(die)
}

/// Whether a window and a step can be laid over a die.
pub open spec fn layout_ok(die: Bbox, window: (i64, i64), step: (i64, i64)) -> bool {
    &&& die.wf()
    &&& 0 < window.0 <= MAX_ABS_DBU
    &&& 0 < window.1 <= MAX_ABS_DBU
    &&& 0 < step.0 <= MAX_ABS_DBU
    &&& 0 < step.1 <= MAX_ABS_DBU
}

pub open spec fn columns(die: Bbox, step: (i64, i64)) -> int {
    position_count(die.xhi - die.xlo, step.0 as int)
}

pub open spec fn lines(die: Bbox, step: (i64, i64)) -> int {
    position_count(die.yhi - die.ylo, step.1 as int)
}

/// Window `(i, j)` of one grid, and the same window clipped to the die.
///
/// The clip is what makes a density a fraction: clipping the numerator and not
/// the denominator is how a density would leave `0 ..= 1`.
pub fn window_boxes(die: Bbox, at: (usize, usize), window: (i64, i64), step: (i64, i64)) -> (r: (
    Bbox,
    Bbox,
))
    requires
        layout_ok(die, window, step),
        at.0 < columns(die, step),
        at.1 < lines(die, step),
    ensures
        r.0 == full_window(die, at.0 as int, at.1 as int, window, step),
        r.1 == clipped_window(die, at.0 as int, at.1 as int, window, step),
        r.1.wf(),
        r.1.xlo < r.1.xhi,
        r.1.ylo < r.1.yhi,
        r.0.xlo == r.1.xlo,
        r.0.ylo == r.1.ylo,
{
    proof {
        lemma_position_inside(at.0 as int, die.xhi - die.xlo, step.0 as int);
        lemma_position_inside(at.1 as int, die.yhi - die.ylo, step.1 as int);
        assert(at.0 <= at.0 * step.0) by (nonlinear_arith)
            requires
                step.0 >= 1,
                at.0 >= 0,
        ;
        assert(at.1 <= at.1 * step.1) by (nonlinear_arith)
            requires
                step.1 >= 1,
                at.1 >= 0,
        ;
    }
    let xlo: i64 = die.xlo + at.0 as i64 * step.0;
    let ylo: i64 = die.ylo + at.1 as i64 * step.1;
    let full = Bbox { xlo, ylo, xhi: xlo + window.0, yhi: ylo + window.1 };
    let clipped = Bbox {
        xlo,
        ylo,
        xhi: if full.xhi < die.xhi { full.xhi } else { die.xhi },
        yhi: if full.yhi < die.yhi { full.yhi } else { die.yhi },
    };
    assert(clipped == full.clip(die));
    (full, clipped)
}

fn clamp_index(v: i64, lo: usize, count: usize) -> (r: usize)
    requires
        lo <= count,
        count <= 0x400_0000_0000,
    ensures
        lo <= r <= count,
        r == (if v < lo { lo as int } else if v > count { count as int } else { v as int }),
{
    if v < lo as i64 {
        lo
    } else if v > count as i64 {
        count
    } else {
        v as usize
    }
}

/// The half-open range of window positions one rectangle can contribute area
/// to: those whose far edge is past `lo` and whose near edge is before `hi`.
pub fn window_span(lo: i64, hi: i64, origin: i64, window: i64, step: i64, count: usize) -> (r: (
    usize,
    usize,
))
    requires
        in_domain(lo as int),
        in_domain(hi as int),
        in_domain(origin as int),
        lo <= hi,
        0 < window <= MAX_ABS_DBU,
        0 < step <= MAX_ABS_DBU,
        count <= 0x400_0000_0000,
    ensures
        r.0 <= r.1 <= count,
        forall|i: int|
            #![trigger i * step]
            0 <= i < count ==> (r.0 <= i < r.1 <==> origin + i * step + window > lo && origin + i
                * step < hi),
{
    let first: i64 = floor_div(lo - window - origin, step) + 1;
    let end: i64 = -floor_div(origin - hi, step);
    let a: usize = clamp_index(first, 0, count);
    let b: usize = clamp_index(end, a, count);
    proof {
        assert forall|i: int|
            #![trigger i * step]
            0 <= i < count implies (a <= i < b <==> origin + i * step + window > lo && origin + i
            * step < hi) by {
            lemma_above((lo - window - origin) as int, step as int, i);
            lemma_below((hi - origin) as int, step as int, i);
            assert((-(hi - origin)) == origin - hi);
        }
    }
    (a, b)
}

/// `i` past the floor of `v / step` is `i * step` past `v`.
proof fn lemma_above(v: int, step: int, i: int)
    requires
        step > 0,
    ensures
        i >= v / step + 1 <==> i * step > v,
        i <= v / step <==> i * step <= v,
{
    vstd::arithmetic::div_mod::lemma_fundamental_div_mod(v, step);
    let q = v / step;
    let m = v % step;
    assert(i >= q + 1 ==> i * step > v) by (nonlinear_arith)
        requires
            v == step * q + m,
            m < step,
            step > 0,
    ;
    assert(i <= q ==> i * step <= v) by (nonlinear_arith)
        requires
            v == step * q + m,
            0 <= m,
            step > 0,
    ;
}

/// `i` before the ceiling of `v / step` is `i * step` before `v`.
proof fn lemma_below(v: int, step: int, i: int)
    requires
        step > 0,
    ensures
        i < -((-v) / step) <==> i * step < v,
        i >= -((-v) / step) <==> i * step >= v,
{
    lemma_above(-v, step, -i);
    assert((-i) * step == -(i * step)) by (nonlinear_arith);
}

/// The half-open range of window positions whose clipped span one interval
/// touches, boundary included. `far` is the die's far edge: an interval
/// starting beyond it touches no window at all.
pub fn window_touch_span(
    lo: i64,
    hi: i64,
    origin: i64,
    far: i64,
    window: i64,
    step: i64,
    count: usize,
) -> (r: (usize, usize))
    requires
        in_domain(lo as int),
        in_domain(hi as int),
        in_domain(origin as int),
        in_domain(far as int),
        lo <= hi,
        0 < window <= MAX_ABS_DBU,
        0 < step <= MAX_ABS_DBU,
        count <= 0x400_0000_0000,
    ensures
        r.0 <= r.1 <= count,
        forall|i: int|
            #![trigger i * step]
            0 <= i < count ==> (r.0 <= i < r.1 <==> origin + i * step + window >= lo && origin + i
                * step <= hi && lo <= far),
{
    if lo > far {
        return (count, count);
    }
    let first: i64 = -floor_div(window + origin - lo, step);
    let end: i64 = floor_div(hi - origin, step) + 1;
    let a: usize = clamp_index(first, 0, count);
    let b: usize = clamp_index(end, a, count);
    proof {
        assert forall|i: int|
            #![trigger i * step]
            0 <= i < count implies (a <= i < b <==> origin + i * step + window >= lo && origin + i
            * step <= hi && lo <= far) by {
            lemma_below((lo - window - origin) as int, step as int, i);
            assert(-(lo - window - origin) == window + origin - lo);
            lemma_above((hi - origin) as int, step as int, i);
        }
    }
    (a, b)
}

/// The value of a row-major grid at column `a` of line `b`.
pub open spec fn grid_at<T>(s: Seq<T>, nx: int, a: int, b: int) -> T {
    s[b * nx + a]
}

proof fn lemma_grid_slot(nx: int, ny: int, a: int, b: int)
    by (nonlinear_arith)
    requires
        0 <= a < nx,
        0 <= b < ny,
    ensures
        0 <= b * nx + a < nx * ny,
        0 <= b * nx <= nx * ny,
{
}

proof fn lemma_grid_distinct(nx: int, a: int, b: int, c: int, d: int)
    requires
        0 <= a < nx,
        0 <= c < nx,
        b * nx + a == d * nx + c,
    ensures
        a == c,
        b == d,
{
    assert(b == d) by (nonlinear_arith)
        requires
            0 <= a < nx,
            0 <= c < nx,
            b * nx + a == d * nx + c,
    ;
}

/// Row-major order, read back: the column and line of slot `b * nx + a`.
proof fn lemma_grid_split(nx: int, a: int, b: int)
    requires
        0 <= a < nx,
        0 <= b,
    ensures
        (b * nx + a) % nx == a,
        (b * nx + a) / nx == b,
{
    vstd::arithmetic::div_mod::lemma_fundamental_div_mod_converse(b * nx + a, nx, b, a);
}

/// The lowest of the first `n` rows whose box reaches a window, or the largest
/// number where none does.
pub open spec fn lowest_touching(boxes: Seq<Bbox>, first_row: u32, win: Bbox, n: nat) -> u32
    decreases n,
{
    if n == 0 {
        u32::MAX
    } else {
        let before = lowest_touching(boxes, first_row, win, (n - 1) as nat);
        if before != u32::MAX {
            before
        } else if boxes[n - 1].meets(win) {
            (first_row + n - 1) as u32
        } else {
            u32::MAX
        }
    }
}

/// The polygon row every window of one grid is attributed to: the lowest row
/// whose bounding box reaches the window clipped to the die, as a scan over the
/// rows would find it.
pub fn window_owners_into(
    boxes: &Vec<Bbox>,
    first_row: u32,
    die: Bbox,
    window: (i64, i64),
    step: (i64, i64),
    grid: (usize, usize),
    out: &mut Vec<u32>,
)
    requires
        layout_ok(die, window, step),
        grid.0 == columns(die, step),
        grid.1 == lines(die, step),
        grid.0 * grid.1 <= usize::MAX,
        forall|k: int| 0 <= k < boxes@.len() ==> (#[trigger] boxes@[k]).wf(),
        first_row + boxes@.len() < u32::MAX,
    ensures
        final(out)@.len() == grid.0 * grid.1,
        forall|a: int, b: int|
            0 <= a < grid.0 && 0 <= b < grid.1 ==> #[trigger] grid_at(
                final(out)@,
                grid.0 as int,
                a,
                b,
            ) == lowest_touching(
                boxes@,
                first_row,
                clipped_window(die, a, b, window, step),
                boxes@.len(),
            ),
{
    let (nx, ny) = grid;
    let count: usize = nx * ny;
    out.clear();
    let mut s: usize = 0;
    while s < count
        invariant
            s <= count,
            out@.len() == s,
            forall|k: int| 0 <= k < s ==> #[trigger] out@[k] == u32::MAX,
        decreases count - s,
    {
        out.push(u32::MAX);
        s = s + 1;
    }
    proof {
        assert forall|a: int, b: int| 0 <= a < nx && 0 <= b < ny implies #[trigger] grid_at(
            out@,
            nx as int,
            a,
            b,
        ) == u32::MAX by {
            lemma_grid_slot(nx as int, ny as int, a, b);
        }
        lemma_column_bound(die.xhi - die.xlo, step.0 as int);
        lemma_column_bound(die.yhi - die.ylo, step.1 as int);
    }
    let mut k: usize = 0;
    while k < boxes.len()
        invariant
            layout_ok(die, window, step),
            grid == (nx, ny),
            nx == columns(die, step),
            ny == lines(die, step),
            count == nx * ny,
            nx <= 0x400_0000_0000,
            ny <= 0x400_0000_0000,
            forall|k: int| 0 <= k < boxes@.len() ==> (#[trigger] boxes@[k]).wf(),
            first_row + boxes@.len() < u32::MAX,
            k <= boxes@.len(),
            out@.len() == count,
            forall|a: int, b: int|
                0 <= a < nx && 0 <= b < ny ==> #[trigger] grid_at(out@, nx as int, a, b)
                    == lowest_touching(
                    boxes@,
                    first_row,
                    clipped_window(die, a, b, window, step),
                    k as nat,
                ),
        decreases boxes@.len() - k,
    {
        let bbox = boxes[k];
        assert(boxes@[k as int].wf());
        let row: u32 = first_row + k as u32;
        let ghost before = out@;
        claim_windows(bbox, row, die, window, step, grid, out);
        proof {
            assert forall|a: int, b: int| 0 <= a < nx && 0 <= b < ny implies #[trigger] grid_at(
                out@,
                nx as int,
                a,
                b,
            ) == lowest_touching(
                boxes@,
                first_row,
                clipped_window(die, a, b, window, step),
                (k + 1) as nat,
            ) by {
                assert(grid_at(before, nx as int, a, b) == lowest_touching(
                    boxes@,
                    first_row,
                    clipped_window(die, a, b, window, step),
                    k as nat,
                ));
                let win = clipped_window(die, a, b, window, step);
                assert(row == first_row + k);
                assert(boxes@[k as int] == bbox);
                assert(grid_at(out@, grid.0 as int, a, b) == (if grid_at(
                    before,
                    grid.0 as int,
                    a,
                    b,
                ) == u32::MAX && bbox.meets(win) {
                    row
                } else {
                    grid_at(before, grid.0 as int, a, b)
                }));
                assert(lowest_touching(boxes@, first_row, win, (k + 1) as nat) == (
                if lowest_touching(boxes@, first_row, win, k as nat) != u32::MAX {
                    lowest_touching(boxes@, first_row, win, k as nat)
                } else if boxes@[k as int].meets(win) {
                    (first_row + k) as u32
                } else {
                    u32::MAX
                }));
            }
        }
        k = k + 1;
    }
}

proof fn lemma_column_bound(span: int, step: int)
    requires
        span <= 0x200_0000_0000,
        step > 0,
    ensures
        position_count(span, step) <= 0x200_0000_0000,
{
    if span > 0 {
        vstd::arithmetic::div_mod::lemma_fundamental_div_mod(span - 1, step);
        let q = (span - 1) / step;
        let m = (span - 1) % step;
        assert(q <= span - 1) by (nonlinear_arith)
            requires
                span - 1 == step * q + m,
                m >= 0,
                step >= 1,
                span >= 1,
        ;
    }
}

/// Whether a box reaches a clipped window, as two one-axis tests.
proof fn lemma_touch(bbox: Bbox, die: Bbox, a: int, b: int, window: (i64, i64), step: (i64, i64))
    requires
        layout_ok(die, window, step),
        bbox.wf(),
        0 <= a < columns(die, step),
        0 <= b < lines(die, step),
    ensures
        bbox.meets(clipped_window(die, a, b, window, step)) <==> (die.xlo + a * step.0 + window.0
            >= bbox.xlo && die.xlo + a * step.0 <= bbox.xhi && bbox.xlo <= die.xhi) && (die.ylo + b
            * step.1 + window.1 >= bbox.ylo && die.ylo + b * step.1 <= bbox.yhi && bbox.ylo
            <= die.yhi),
{
    lemma_position_inside(a, die.xhi - die.xlo, step.0 as int);
    lemma_position_inside(b, die.yhi - die.ylo, step.1 as int);
}

/// Attribute to one row every unclaimed window its box reaches.
fn claim_windows(
    bbox: Bbox,
    row: u32,
    die: Bbox,
    window: (i64, i64),
    step: (i64, i64),
    grid: (usize, usize),
    out: &mut Vec<u32>,
)
    requires
        layout_ok(die, window, step),
        grid.0 == columns(die, step),
        grid.1 == lines(die, step),
        grid.0 <= 0x400_0000_0000,
        grid.1 <= 0x400_0000_0000,
        grid.0 * grid.1 <= usize::MAX,
        bbox.wf(),
        old(out)@.len() == grid.0 * grid.1,
    ensures
        final(out)@.len() == old(out)@.len(),
        forall|a: int, b: int|
            0 <= a < grid.0 && 0 <= b < grid.1 ==> #[trigger] grid_at(
                final(out)@,
                grid.0 as int,
                a,
                b,
            ) == (if grid_at(old(out)@, grid.0 as int, a, b) == u32::MAX && bbox.meets(
                clipped_window(die, a, b, window, step),
            ) {
                row
            } else {
                grid_at(old(out)@, grid.0 as int, a, b)
            }),
{
    let (nx, ny) = grid;
    let (i0, i1) = window_touch_span(
        bbox.xlo,
        bbox.xhi,
        die.xlo,
        die.xhi,
        window.0,
        step.0,
        nx,
    );
    let (j0, j1) = window_touch_span(
        bbox.ylo,
        bbox.yhi,
        die.ylo,
        die.yhi,
        window.1,
        step.1,
        ny,
    );
    let ghost start = out@;
    let mut j: usize = j0;
    while j < j1
        invariant
            i0 <= i1 <= nx,
            j0 <= j <= j1 <= ny,
            nx == grid.0,
            ny == grid.1,
            grid.0 * grid.1 <= usize::MAX,
            out@.len() == nx * ny,
            start.len() == nx * ny,
            forall|a: int, b: int|
                0 <= a < nx && 0 <= b < ny ==> #[trigger] grid_at(out@, nx as int, a, b) == (
                if grid_at(start, nx as int, a, b) == u32::MAX && i0 <= a < i1 && j0 <= b < j {
                    row
                } else {
                    grid_at(start, nx as int, a, b)
                }),
        decreases j1 - j,
    {
        let mut i: usize = i0;
        while i < i1
            invariant
                i0 <= i <= i1 <= nx,
                j0 <= j < j1 <= ny,
                nx == grid.0,
                ny == grid.1,
                grid.0 * grid.1 <= usize::MAX,
                out@.len() == nx * ny,
                start.len() == nx * ny,
                forall|a: int, b: int|
                    0 <= a < nx && 0 <= b < ny ==> #[trigger] grid_at(out@, nx as int, a, b) == (
                    if grid_at(start, nx as int, a, b) == u32::MAX && i0 <= a < i1 && j0 <= b && (b
                        < j || (b == j && a < i)) {
                        row
                    } else {
                        grid_at(start, nx as int, a, b)
                    }),
            decreases i1 - i,
        {
            proof {
                lemma_grid_slot(nx as int, ny as int, i as int, j as int);
            }
            let slot: usize = j * nx + i;
            let ghost before = out@;
            assert(grid_at(before, nx as int, i as int, j as int) == before[slot as int]);
            if out[slot] == u32::MAX {
                out.set(slot, row);
            }
            proof {
                assert forall|a: int, b: int| 0 <= a < nx && 0 <= b < ny implies #[trigger] grid_at(
                    out@,
                    nx as int,
                    a,
                    b,
                ) == (if grid_at(start, nx as int, a, b) == u32::MAX && i0 <= a < i1 && j0 <= b && (
                b < j || (b == j && a < i + 1)) {
                    row
                } else {
                    grid_at(start, nx as int, a, b)
                }) by {
                    lemma_grid_slot(nx as int, ny as int, a, b);
                    assert(grid_at(before, nx as int, a, b) == before[b * nx + a]);
                    if b * nx + a == slot {
                        lemma_grid_distinct(nx as int, a, b, i as int, j as int);
                    }
                }
            }
            i = i + 1;
        }
        j = j + 1;
    }
    proof {
        assert forall|a: int, b: int| 0 <= a < nx && 0 <= b < ny implies #[trigger] grid_at(
            out@,
            nx as int,
            a,
            b,
        ) == (if grid_at(start, nx as int, a, b) == u32::MAX && bbox.meets(
            clipped_window(die, a, b, window, step),
        ) {
            row
        } else {
            grid_at(start, nx as int, a, b)
        }) by {
            lemma_touch(bbox, die, a, b, window, step);
            assert(i0 <= a < i1 <==> die.xlo + a * step.0 + window.0 >= bbox.xlo && die.xlo + a
                * step.0 <= bbox.xhi && bbox.xlo <= die.xhi);
            assert(j0 <= b < j1 <==> die.ylo + b * step.1 + window.1 >= bbox.ylo && die.ylo + b
                * step.1 <= bbox.yhi && bbox.ylo <= die.yhi);
        }
    }
}

/// How long two closed intervals run side by side.
pub open spec fn shared(alo: int, ahi: int, blo: int, bhi: int) -> int {
    let run = min_int(ahi, bhi) - max_int(alo, blo);
    if run < 0 { 0 } else { run }
}

/// The area a rectangle has inside a window.
pub open spec fn area_inside(rect: Bbox, win: Bbox) -> int {
    shared(rect.xlo as int, rect.xhi as int, win.xlo as int, win.xhi as int) * shared(
        rect.ylo as int,
        rect.yhi as int,
        win.ylo as int,
        win.yhi as int,
    )
}

/// The area a list of disjoint rectangles covers of a window.
pub open spec fn covered(rects: Seq<Bbox>, win: Bbox) -> int
    decreases rects.len(),
{
    if rects.len() == 0 {
        0
    } else {
        covered(rects.drop_last(), win) + area_inside(rects.last(), win)
    }
}

fn clipped_area(rect: Bbox, win: Bbox) -> (r: i128)
    requires
        rect.wf(),
        win.wf(),
    ensures
        r == area_inside(rect, win),
        0 <= r <= 0x4_0000_0000_0000_0000_0000,
{
    let x0: i64 = if rect.xlo < win.xlo { win.xlo } else { rect.xlo };
    let x1: i64 = if rect.xhi < win.xhi { rect.xhi } else { win.xhi };
    let y0: i64 = if rect.ylo < win.ylo { win.ylo } else { rect.ylo };
    let y1: i64 = if rect.yhi < win.yhi { rect.yhi } else { win.yhi };
    let w: i128 = if x1 < x0 { 0 } else { (x1 - x0) as i128 };
    let h: i128 = if y1 < y0 { 0 } else { (y1 - y0) as i128 };
    assert(0 <= w * h <= 0x4_0000_0000_0000_0000_0000) by (nonlinear_arith)
        requires
            0 <= w <= 0x200_0000_0000,
            0 <= h <= 0x200_0000_0000,
    ;
    w * h
}

/// A rectangle outside a window's span along one axis has no area inside it.
proof fn lemma_no_area(rect: Bbox, die: Bbox, a: int, b: int, window: (i64, i64), step: (i64, i64))
    requires
        layout_ok(die, window, step),
        rect.wf(),
        0 <= a < columns(die, step),
        0 <= b < lines(die, step),
        !(die.xlo + a * step.0 + window.0 > rect.xlo && die.xlo + a * step.0 < rect.xhi) || !(die.ylo
            + b * step.1 + window.1 > rect.ylo && die.ylo + b * step.1 < rect.yhi),
    ensures
        area_inside(rect, clipped_window(die, a, b, window, step)) == 0,
{
    lemma_position_inside(a, die.xhi - die.xlo, step.0 as int);
    lemma_position_inside(b, die.yhi - die.ylo, step.1 as int);
    let win = clipped_window(die, a, b, window, step);
    let w = shared(rect.xlo as int, rect.xhi as int, win.xlo as int, win.xhi as int);
    let h = shared(rect.ylo as int, rect.yhi as int, win.ylo as int, win.yhi as int);
    assert(w == 0 || h == 0);
    assert(w * h == 0) by (nonlinear_arith)
        requires
            w == 0 || h == 0,
    ;
}

/// Add one rectangle's area to every window it reaches.
fn add_rect(
    rect: Bbox,
    die: Bbox,
    window: (i64, i64),
    step: (i64, i64),
    nx: usize,
    ny: usize,
    areas: &mut Vec<i128>,
    Ghost(bound): Ghost<int>,
)
    requires
        layout_ok(die, window, step),
        nx == columns(die, step),
        ny == lines(die, step),
        nx <= 0x400_0000_0000,
        ny <= 0x400_0000_0000,
        nx * ny <= usize::MAX,
        rect.wf(),
        old(areas)@.len() == nx * ny,
        0 <= bound <= 0xFFFF_FFFF * 0x4_0000_0000_0000_0000_0000,
        forall|a: int, b: int|
            0 <= a < nx && 0 <= b < ny ==> 0 <= #[trigger] grid_at(old(areas)@, nx as int, a, b)
                <= bound,
    ensures
        final(areas)@.len() == nx * ny,
        forall|a: int, b: int|
            0 <= a < nx && 0 <= b < ny ==> #[trigger] grid_at(final(areas)@, nx as int, a, b)
                == grid_at(old(areas)@, nx as int, a, b) + area_inside(
                rect,
                clipped_window(die, a, b, window, step),
            ),
        forall|a: int, b: int|
            0 <= a < nx && 0 <= b < ny ==> 0 <= #[trigger] grid_at(final(areas)@, nx as int, a, b)
                <= bound + 0x4_0000_0000_0000_0000_0000,
{
    let (i0, i1) = window_span(rect.xlo, rect.xhi, die.xlo, window.0, step.0, nx);
    let (j0, j1) = window_span(rect.ylo, rect.yhi, die.ylo, window.1, step.1, ny);
    let ghost start = areas@;
    let mut j: usize = j0;
    while j < j1
        invariant
            layout_ok(die, window, step),
            nx == columns(die, step),
            ny == lines(die, step),
            nx * ny <= usize::MAX,
            rect.wf(),
            i0 <= i1 <= nx,
            j0 <= j <= j1 <= ny,
            areas@.len() == nx * ny,
            start.len() == nx * ny,
            0 <= bound <= 0xFFFF_FFFF * 0x4_0000_0000_0000_0000_0000,
            forall|a: int, b: int|
                0 <= a < nx && 0 <= b < ny ==> 0 <= #[trigger] grid_at(start, nx as int, a, b)
                    <= bound,
            forall|a: int, b: int|
                0 <= a < nx && 0 <= b < ny ==> #[trigger] grid_at(areas@, nx as int, a, b)
                    == grid_at(start, nx as int, a, b) + (if i0 <= a < i1 && j0 <= b < j {
                    area_inside(rect, clipped_window(die, a, b, window, step))
                } else {
                    0
                }),
        decreases j1 - j,
    {
        let mut i: usize = i0;
        while i < i1
            invariant
                layout_ok(die, window, step),
                nx == columns(die, step),
                ny == lines(die, step),
                nx * ny <= usize::MAX,
                rect.wf(),
                i0 <= i <= i1 <= nx,
                j0 <= j < j1 <= ny,
                areas@.len() == nx * ny,
                start.len() == nx * ny,
                0 <= bound <= 0xFFFF_FFFF * 0x4_0000_0000_0000_0000_0000,
                forall|a: int, b: int|
                    0 <= a < nx && 0 <= b < ny ==> 0 <= #[trigger] grid_at(start, nx as int, a, b)
                        <= bound,
                forall|a: int, b: int|
                    0 <= a < nx && 0 <= b < ny ==> #[trigger] grid_at(areas@, nx as int, a, b)
                        == grid_at(start, nx as int, a, b) + (if i0 <= a < i1 && j0 <= b && (b < j
                        || (b == j && a < i)) {
                        area_inside(rect, clipped_window(die, a, b, window, step))
                    } else {
                        0
                    }),
            decreases i1 - i,
        {
            let (_, win) = window_boxes(die, (i, j), window, step);
            let area: i128 = clipped_area(rect, win);
            proof {
                lemma_grid_slot(nx as int, ny as int, i as int, j as int);
            }
            let slot: usize = j * nx + i;
            let ghost before = areas@;
            assert(grid_at(before, nx as int, i as int, j as int) == before[slot as int]);
            assert(grid_at(start, nx as int, i as int, j as int) <= bound);
            let now: i128 = areas[slot] + area;
            areas.set(slot, now);
            proof {
                assert forall|a: int, b: int| 0 <= a < nx && 0 <= b < ny implies #[trigger] grid_at(
                    areas@,
                    nx as int,
                    a,
                    b,
                ) == grid_at(start, nx as int, a, b) + (if i0 <= a < i1 && j0 <= b && (b < j || (b
                    == j && a < i + 1)) {
                    area_inside(rect, clipped_window(die, a, b, window, step))
                } else {
                    0
                }) by {
                    lemma_grid_slot(nx as int, ny as int, a, b);
                    assert(grid_at(before, nx as int, a, b) == before[b * nx + a]);
                    if b * nx + a == slot {
                        lemma_grid_distinct(nx as int, a, b, i as int, j as int);
                    }
                }
            }
            i = i + 1;
        }
        j = j + 1;
    }
    proof {
        assert forall|a: int, b: int| 0 <= a < nx && 0 <= b < ny implies #[trigger] grid_at(
            areas@,
            nx as int,
            a,
            b,
        ) == grid_at(start, nx as int, a, b) + area_inside(
            rect,
            clipped_window(die, a, b, window, step),
        ) && 0 <= area_inside(rect, clipped_window(die, a, b, window, step))
            <= 0x4_0000_0000_0000_0000_0000 by {
            assert(i0 <= a < i1 <==> die.xlo + a * step.0 + window.0 > rect.xlo && die.xlo + a
                * step.0 < rect.xhi);
            assert(j0 <= b < j1 <==> die.ylo + b * step.1 + window.1 > rect.ylo && die.ylo + b
                * step.1 < rect.yhi);
            if !(i0 <= a < i1 && j0 <= b < j1) {
                lemma_no_area(rect, die, a, b, window, step);
            } else {
                lemma_area_bound(rect, die, a, b, window, step);
            }
        }
    }
}

proof fn lemma_area_bound(
    rect: Bbox,
    die: Bbox,
    a: int,
    b: int,
    window: (i64, i64),
    step: (i64, i64),
)
    requires
        layout_ok(die, window, step),
        rect.wf(),
        0 <= a < columns(die, step),
        0 <= b < lines(die, step),
    ensures
        0 <= area_inside(rect, clipped_window(die, a, b, window, step))
            <= 0x4_0000_0000_0000_0000_0000,
{
    let win = clipped_window(die, a, b, window, step);
    let w = shared(rect.xlo as int, rect.xhi as int, win.xlo as int, win.xhi as int);
    let h = shared(rect.ylo as int, rect.yhi as int, win.ylo as int, win.yhi as int);
    assert(0 <= w <= 0x200_0000_0000 && 0 <= h <= 0x200_0000_0000);
    assert(0 <= w * h <= 0x4_0000_0000_0000_0000_0000) by (nonlinear_arith)
        requires
            0 <= w <= 0x200_0000_0000,
            0 <= h <= 0x200_0000_0000,
    ;
}

/// The covered area of every window of one grid.
fn window_areas(
    rects: &Vec<Bbox>,
    die: Bbox,
    window: (i64, i64),
    step: (i64, i64),
    nx: usize,
    ny: usize,
) -> (areas: Vec<i128>)
    requires
        layout_ok(die, window, step),
        nx == columns(die, step),
        ny == lines(die, step),
        nx * ny <= usize::MAX,
        rects@.len() <= 0xFFFF_FFFF,
        forall|k: int| 0 <= k < rects@.len() ==> (#[trigger] rects@[k]).wf(),
    ensures
        areas@.len() == nx * ny,
        forall|a: int, b: int|
            0 <= a < nx && 0 <= b < ny ==> #[trigger] grid_at(areas@, nx as int, a, b) == covered(
                rects@,
                clipped_window(die, a, b, window, step),
            ),
        forall|a: int, b: int|
            0 <= a < nx && 0 <= b < ny ==> 0 <= #[trigger] grid_at(areas@, nx as int, a, b)
                <= 0x1_0000_0000 * 0x4_0000_0000_0000_0000_0000,
{
    let count: usize = nx * ny;
    let mut areas: Vec<i128> = Vec::new();
    let mut s: usize = 0;
    while s < count
        invariant
            s <= count,
            areas@.len() == s,
            forall|k: int| 0 <= k < s ==> #[trigger] areas@[k] == 0,
        decreases count - s,
    {
        areas.push(0);
        s = s + 1;
    }
    proof {
        assert forall|a: int, b: int| 0 <= a < nx && 0 <= b < ny implies #[trigger] grid_at(
            areas@,
            nx as int,
            a,
            b,
        ) == covered(rects@.take(0), clipped_window(die, a, b, window, step)) && grid_at(
            areas@,
            nx as int,
            a,
            b,
        ) == 0 by {
            lemma_grid_slot(nx as int, ny as int, a, b);
        }
        lemma_column_bound(die.xhi - die.xlo, step.0 as int);
        lemma_column_bound(die.yhi - die.ylo, step.1 as int);
    }
    let mut k: usize = 0;
    while k < rects.len()
        invariant
            layout_ok(die, window, step),
            nx == columns(die, step),
            ny == lines(die, step),
            nx <= 0x400_0000_0000,
            ny <= 0x400_0000_0000,
            nx * ny <= usize::MAX,
            rects@.len() <= 0xFFFF_FFFF,
            forall|k: int| 0 <= k < rects@.len() ==> (#[trigger] rects@[k]).wf(),
            k <= rects@.len(),
            areas@.len() == nx * ny,
            forall|a: int, b: int|
                0 <= a < nx && 0 <= b < ny ==> #[trigger] grid_at(areas@, nx as int, a, b)
                    == covered(rects@.take(k as int), clipped_window(die, a, b, window, step)),
            forall|a: int, b: int|
                0 <= a < nx && 0 <= b < ny ==> 0 <= #[trigger] grid_at(areas@, nx as int, a, b)
                    <= k * 0x4_0000_0000_0000_0000_0000,
        decreases rects@.len() - k,
    {
        assert(rects@[k as int].wf());
        let ghost before = areas@;
        add_rect(
            rects[k],
            die,
            window,
            step,
            nx,
            ny,
            &mut areas,
            Ghost(k * 0x4_0000_0000_0000_0000_0000),
        );
        proof {
            let now = rects@.take(k + 1);
            assert(now.drop_last() =~= rects@.take(k as int));
            assert(now.last() == rects@[k as int]);
            assert forall|a: int, b: int| 0 <= a < nx && 0 <= b < ny implies #[trigger] grid_at(
                areas@,
                nx as int,
                a,
                b,
            ) == covered(now, clipped_window(die, a, b, window, step)) by {
                assert(grid_at(before, nx as int, a, b) == covered(
                    rects@.take(k as int),
                    clipped_window(die, a, b, window, step),
                ));
            }
        }
        k = k + 1;
    }
    assert(rects@.take(k as int) =~= rects@);
    areas
}

/// One density rule row, resolved to the layer it reads.
pub struct DensityRow {
    pub die: Bbox,
    pub layer: LayerId,
    pub window: (i64, i64),
    pub step: (i64, i64),
    pub min: Option<Number>,
    pub max: Option<Number>,
    pub delta: Option<Number>,
    pub model: Option<CmpModel>,
    pub partial: bool,
    pub rule: StrId,
    pub severity: Severity,
}

/// The excursion from nominal thickness a density predicts, in whole database
/// units, saturated at the coordinate domain so that an unbounded one violates
/// every limit.
pub open spec fn excursion(model: CmpModel, density: Number) -> i64 {
    let raw = Number::of_spec(model.thickness_sensitivity as int).times_spec(
        density.minus_spec(model.target_density),
    ).magnitude_spec();
    let top = Number { bits: 0x4270_0000_0000_0000 };
    let held = if raw.lt(top) { raw } else { top };
    (crate::number::magnitude(held.pattern()) / pow2(1074)) as i64
}

impl DensityRow {
    pub open spec fn wf(&self) -> bool {
        &&& layout_ok(self.die, self.window, self.step)
        &&& self.nx() <= usize::MAX
        &&& self.ny() <= usize::MAX
        &&& self.nx() * self.ny() <= usize::MAX
    }

    pub open spec fn nx(&self) -> int {
        columns(self.die, self.step)
    }

    pub open spec fn ny(&self) -> int {
        lines(self.die, self.step)
    }

    pub open spec fn count(&self) -> int {
        self.nx() * self.ny()
    }

    /// Window `s` in row-major order, clipped to the die.
    pub open spec fn clipped(&self, s: int) -> Bbox {
        clipped_window(self.die, s % self.nx(), s / self.nx(), self.window, self.step)
    }

    pub open spec fn full(&self, s: int) -> Bbox {
        full_window(self.die, s % self.nx(), s / self.nx(), self.window, self.step)
    }

    /// Whether window `s` is evaluated.
    pub open spec fn counted(&self, s: int) -> bool {
        self.partial || self.die.holds(self.full(s))
    }

    /// The density of window `s`.
    pub open spec fn density(&self, rects: Seq<Bbox>, s: int) -> Number {
        Number::of_spec(covered(rects, self.clipped(s))).over_spec(
            Number::of_spec(self.clipped(s).spec_area()),
        )
    }

    /// The polygon window `s` is attributed to: the lowest one reaching it, or
    /// the layer's lowest where none does.
    pub open spec fn owner(&self, store: &GeometryStore, s: int) -> PolyId {
        let lo = store.row_lo(self.layer.0 as int);
        let hi = store.row_hi(self.layer.0 as int);
        let boxes = store.bbox@.subrange(lo, hi);
        let low = lowest_touching(boxes, lo as u32, self.clipped(s), boxes.len());
        if low != u32::MAX {
            PolyId(low)
        } else if lo < hi {
            PolyId(lo as u32)
        } else {
            PolyId(0)
        }
    }

    pub open spec fn violation(
        &self,
        store: &GeometryStore,
        s: int,
        measured: Measurement,
        limit: Measurement,
    ) -> Violation {
        Violation {
            rule: self.rule,
            layer: self.layer,
            severity: self.severity,
            at: centre_of(self.clipped(s)),
            measured,
            limit,
            shapes: (self.owner(store, s), None),
        }
    }

    /// What a bound on window `s` reports.
    pub open spec fn bound_found(
        &self,
        store: &GeometryStore,
        s: int,
        measured: Measurement,
        limit: Measurement,
        sense: LimitSense,
    ) -> Seq<Violation> {
        if self.counted(s) && measured.breaks(limit, sense) {
            seq![self.violation(store, s, measured, limit)]
        } else {
            Seq::empty()
        }
    }

    /// What window `s` reports: its floor, its ceiling, then its thickness.
    pub open spec fn window_found(&self, store: &GeometryStore, rects: Seq<Bbox>, s: int) -> Seq<
        Violation,
    > {
        let value = self.density(rects, s);
        let under = match self.min {
            Some(m) => self.bound_found(
                store,
                s,
                Measurement::Ratio(value),
                Measurement::Ratio(m),
                LimitSense::Minimum,
            ),
            None => Seq::empty(),
        };
        let over = match self.max {
            Some(m) => self.bound_found(
                store,
                s,
                Measurement::Ratio(value),
                Measurement::Ratio(m),
                LimitSense::Maximum,
            ),
            None => Seq::empty(),
        };
        let thick = match self.model {
            Some(m) => self.bound_found(
                store,
                s,
                Measurement::Length(excursion(m, value)),
                Measurement::Length(m.max_abs_thickness_delta),
                LimitSense::Maximum,
            ),
            None => Seq::empty(),
        };
        under + over + thick
    }

    /// What the windows below `n` report, row-major from the die's lower left.
    pub open spec fn windows_found(&self, store: &GeometryStore, rects: Seq<Bbox>, n: nat) -> Seq<
        Violation,
    >
        decreases n,
    {
        if n == 0 {
            Seq::empty()
        } else {
            self.windows_found(store, rects, (n - 1) as nat) + self.window_found(
                store,
                rects,
                n - 1,
            )
        }
    }

    /// How many of the windows below `n` are evaluated.
    pub open spec fn counted_to(&self, n: nat) -> int
        decreases n,
    {
        if n == 0 {
            0
        } else {
            self.counted_to((n - 1) as nat) + if self.counted(n - 1) { 1int } else { 0 }
        }
    }

    /// The window ahead of `s` along x; the last column is its own neighbour.
    pub open spec fn right_of(&self, s: int) -> int {
        if s % self.nx() + 1 < self.nx() { s + 1 } else { s }
    }

    /// The window ahead of `s` along y; the last line is its own neighbour.
    pub open spec fn above(&self, s: int) -> int {
        if s / self.nx() + 1 < self.ny() { s + self.nx() } else { s }
    }

    /// What the gradient from window `s` to `t` reports. A window that is skipped has
    /// no gradient to its neighbours.
    pub open spec fn gap_found(
        &self,
        store: &GeometryStore,
        rects: Seq<Bbox>,
        limit: Number,
        s: int,
        t: int,
    ) -> Seq<Violation> {
        let gap = Measurement::Ratio(
            self.density(rects, s).minus_spec(self.density(rects, t)).magnitude_spec(),
        );
        if self.counted(s) && self.counted(t) && gap.breaks(
            Measurement::Ratio(limit),
            LimitSense::Maximum,
        ) {
            seq![self.violation(store, s, gap, Measurement::Ratio(limit))]
        } else {
            Seq::empty()
        }
    }

    /// What the gradients of the windows below `n` report. Two neighbours per
    /// window, the ones ahead of it, so each adjacent pair is examined once.
    pub open spec fn gaps_found(
        &self,
        store: &GeometryStore,
        rects: Seq<Bbox>,
        limit: Number,
        n: nat,
    ) -> Seq<Violation>
        decreases n,
    {
        if n == 0 {
            Seq::empty()
        } else {
            let s = n - 1;
            self.gaps_found(store, rects, limit, s as nat) + self.gap_found(
                store,
                rects,
                limit,
                s,
                self.right_of(s),
            ) + self.gap_found(store, rects, limit, s, self.above(s))
        }
    }

    /// Everything a row reports: every window, then every gradient.
    pub open spec fn found(&self, store: &GeometryStore, rects: Seq<Bbox>) -> Seq<Violation> {
        let n = self.count() as nat;
        self.windows_found(store, rects, n) + match self.delta {
            Some(limit) => self.gaps_found(store, rects, limit, n),
            None => Seq::empty(),
        }
    }

    pub open spec fn result(&self, store: &GeometryStore, rects: Seq<Bbox>) -> RowResult {
        RowResult {
            outcome: Outcome::Ran,
            examined: self.counted_to(self.count() as nat) as u64,
            found: self.found(store, rects),
        }
    }
}

fn excursion_of(model: CmpModel, density: Number) -> (r: i64)
    ensures
        r == excursion(model, density),
{
    let raw = Number::of(model.thickness_sensitivity as i128).times(
        density.minus(model.target_density),
    ).absolute();
    let top = Number { bits: 0x4270_0000_0000_0000 };
    let held = if raw.less(top) { raw } else { top };
    proof {
        raw.lemma_order(top);
    }
    held.whole() as i64
}

/// Where slot `s` stands when it is `i` columns into line `j`.
proof fn lemma_slot(row: &DensityRow, s: int, i: int, j: int)
    requires
        row.wf(),
        0 <= i < row.nx(),
        0 <= j < row.ny(),
        s == j * row.nx() + i,
    ensures
        s % row.nx() == i,
        s / row.nx() == j,
        0 <= s < row.count(),
        row.right_of(s) == (if i + 1 < row.nx() { s + 1 } else { s }),
        row.above(s) == (if j + 1 < row.ny() { s + row.nx() } else { s }),
        0 <= row.right_of(s) < row.count(),
        0 <= row.above(s) < row.count(),
{
    lemma_grid_split(row.nx(), i, j);
    lemma_grid_slot(row.nx(), row.ny(), i, j);
    if i + 1 < row.nx() {
        lemma_grid_slot(row.nx(), row.ny(), i + 1, j);
    }
    if j + 1 < row.ny() {
        lemma_grid_slot(row.nx(), row.ny(), i, j + 1);
        assert((j + 1) * row.nx() == j * row.nx() + row.nx()) by (nonlinear_arith);
    }
}

/// A grid with a window in it has a column and a line.
proof fn lemma_sides(row: &DensityRow)
    requires
        row.wf(),
    ensures
        row.count() >= 0,
        row.count() > 0 ==> row.nx() > 0 && row.ny() > 0,
        row.count() == 0 ==> row.nx() == 0 || row.ny() == 0,
        row.nx() >= 0,
        row.ny() >= 0,
{
    let nx = row.nx();
    let ny = row.ny();
    if row.die.xhi > row.die.xlo {
        vstd::arithmetic::div_mod::lemma_div_pos_is_pos(
            row.die.xhi - row.die.xlo - 1,
            row.step.0 as int,
        );
    }
    if row.die.yhi > row.die.ylo {
        vstd::arithmetic::div_mod::lemma_div_pos_is_pos(
            row.die.yhi - row.die.ylo - 1,
            row.step.1 as int,
        );
    }
    assert(nx * ny >= 0 && (nx * ny > 0 ==> nx > 0 && ny > 0) && (nx * ny == 0 ==> nx == 0 || ny
        == 0)) by (nonlinear_arith)
        requires
            nx >= 0,
            ny >= 0,
    ;
}

/// The row-major step from one window to the next.
fn advance(i: usize, j: usize, nx: usize, ny: usize) -> (r: (usize, usize))
    requires
        i < nx,
        j < ny,
    ensures
        r.1 * nx + r.0 == j * nx + i + 1,
        r.0 < nx,
        r.1 <= ny,
        j * nx + i + 1 < nx * ny ==> r.1 < ny,
{
    proof {
        assert((j + 1) * nx == j * nx + nx) by (nonlinear_arith);
        if j + 1 == ny && i + 1 == nx {
            assert(nx * ny == (j + 1) * nx) by (nonlinear_arith)
                requires
                    j + 1 == ny,
            ;
        }
    }
    if i + 1 == nx {
        (0, j + 1)
    } else {
        (i + 1, j)
    }
}

/// One bound on one window.
fn push_bound(
    row: &DensityRow,
    at: Point,
    owner: PolyId,
    counted: bool,
    measured: Measurement,
    limit: Measurement,
    sense: LimitSense,
    out: &mut Violations,
    Ghost(store): Ghost<&GeometryStore>,
    Ghost(s): Ghost<int>,
)
    requires
        at == centre_of(row.clipped(s)),
        owner == row.owner(store, s),
        counted == row.counted(s),
    ensures
        final(out)@ == old(out)@ + row.bound_found(store, s, measured, limit, sense),
{
    if counted && measured.violates(limit, sense) {
        out.push(
            Violation {
                rule: row.rule,
                layer: row.layer,
                severity: row.severity,
                at,
                measured,
                limit,
                shapes: (owner, None),
            },
        );
    }
    assert(out@ =~= old(out)@ + row.bound_found(store, s, measured, limit, sense));
}

/// Every bound on one window.
fn push_window(
    row: &DensityRow,
    at: Point,
    owner: PolyId,
    counted: bool,
    value: Number,
    out: &mut Violations,
    Ghost(store): Ghost<&GeometryStore>,
    Ghost(rects): Ghost<Seq<Bbox>>,
    Ghost(s): Ghost<int>,
)
    requires
        at == centre_of(row.clipped(s)),
        owner == row.owner(store, s),
        counted == row.counted(s),
        value == row.density(rects, s),
    ensures
        final(out)@ == old(out)@ + row.window_found(store, rects, s),
{
    let measured = Measurement::Ratio(value);
    let ghost first = out@;
    if let Some(min) = row.min {
        push_bound(
            row,
            at,
            owner,
            counted,
            measured,
            Measurement::Ratio(min),
            LimitSense::Minimum,
            out,
            Ghost(store),
            Ghost(s),
        );
    }
    if let Some(max) = row.max {
        push_bound(
            row,
            at,
            owner,
            counted,
            measured,
            Measurement::Ratio(max),
            LimitSense::Maximum,
            out,
            Ghost(store),
            Ghost(s),
        );
    }
    if let Some(model) = row.model {
        let length: i64 = excursion_of(model, value);
        push_bound(
            row,
            at,
            owner,
            counted,
            Measurement::Length(length),
            Measurement::Length(model.max_abs_thickness_delta),
            LimitSense::Maximum,
            out,
            Ghost(store),
            Ghost(s),
        );
    }
    assert(out@ =~= first + row.window_found(store, rects, s));
}

/// One gradient between adjacent windows.
fn push_gap(
    row: &DensityRow,
    at: Point,
    owner: PolyId,
    counted: bool,
    here: Number,
    ahead: Number,
    limit: Number,
    out: &mut Violations,
    Ghost(store): Ghost<&GeometryStore>,
    Ghost(rects): Ghost<Seq<Bbox>>,
    Ghost(s): Ghost<int>,
    Ghost(t): Ghost<int>,
)
    requires
        at == centre_of(row.clipped(s)),
        owner == row.owner(store, s),
        counted == (row.counted(s) && row.counted(t)),
        here == row.density(rects, s),
        ahead == row.density(rects, t),
    ensures
        final(out)@ == old(out)@ + row.gap_found(store, rects, limit, s, t),
{
    let measured = Measurement::Ratio(here.minus(ahead).absolute());
    if counted && measured.violates(Measurement::Ratio(limit), LimitSense::Maximum) {
        out.push(
            Violation {
                rule: row.rule,
                layer: row.layer,
                severity: row.severity,
                at,
                measured,
                limit: Measurement::Ratio(limit),
                shapes: (owner, None),
            },
        );
    }
    assert(out@ =~= old(out)@ + row.gap_found(store, rects, limit, s, t));
}

/// The owner of one window, or the row a window holding no geometry falls back
/// to.
fn owner_or(low: u32, fallback: u32) -> (r: PolyId)
    ensures
        r.0 == (if low != u32::MAX { low } else { fallback }),
{
    if low != u32::MAX {
        PolyId(low)
    } else {
        PolyId(fallback)
    }
}

/// Every window of one row against its bounds, row-major; hands back the
/// densities and how many windows were evaluated.
fn push_windows(
    row: &DensityRow,
    rects: &Vec<Bbox>,
    areas: &Vec<i128>,
    owners: &Vec<u32>,
    fallback: u32,
    nx: usize,
    ny: usize,
    out: &mut Violations,
    Ghost(store): Ghost<&GeometryStore>,
) -> (r: (Vec<Number>, u64))
    requires
        row.wf(),
        nx == row.nx(),
        ny == row.ny(),
        areas@.len() == row.count(),
        owners@.len() == row.count(),
        forall|s: int|
            0 <= s < row.count() ==> #[trigger] areas@[s] == covered(rects@, row.clipped(s)) && 0
                <= areas@[s],
        forall|s: int|
            0 <= s < row.count() ==> row.owner(store, s).0 == (if #[trigger] owners@[s]
                != u32::MAX {
                owners@[s]
            } else {
                fallback
            }),
    ensures
        r.0@.len() == row.count(),
        forall|s: int| 0 <= s < row.count() ==> #[trigger] r.0@[s] == row.density(rects@, s),
        r.1 == row.counted_to(row.count() as nat),
        final(out)@ == old(out)@ + row.windows_found(store, rects@, row.count() as nat),
{
    let ghost first = out@;
    let count: usize = areas.len();
    let mut density: Vec<Number> = Vec::new();
    let mut examined: u64 = 0;
    let mut s: usize = 0;
    let mut i: usize = 0;
    let mut j: usize = 0;
    proof {
        lemma_sides(row);
    }
    assert(out@ =~= first + row.windows_found(store, rects@, 0));
    while s < count
        invariant
            row.wf(),
            nx == row.nx(),
            ny == row.ny(),
            count == row.count(),
            count == nx * ny,
            areas@.len() == row.count(),
            owners@.len() == row.count(),
            forall|s: int|
                0 <= s < row.count() ==> #[trigger] areas@[s] == covered(rects@, row.clipped(s))
                    && 0 <= areas@[s],
            forall|s: int|
                0 <= s < row.count() ==> row.owner(store, s).0 == (if #[trigger] owners@[s]
                    != u32::MAX {
                    owners@[s]
                } else {
                    fallback
                }),
            s <= count,
            s == j * nx + i,
            s < count ==> i < nx && j < ny,
            density@.len() == s,
            forall|k: int| 0 <= k < s ==> #[trigger] density@[k] == row.density(rects@, k),
            examined == row.counted_to(s as nat),
            examined <= s,
            out@ == first + row.windows_found(store, rects@, s as nat),
        decreases count - s,
    {
        proof {
            lemma_slot(row, s as int, i as int, j as int);
            assert(areas@[s as int] == covered(rects@, row.clipped(s as int)));
            assert(row.owner(store, s as int).0 == (if owners@[s as int] != u32::MAX {
                owners@[s as int]
            } else {
                fallback
            }));
        }
        let (full, clipped) = window_boxes(row.die, (i, j), row.window, row.step);
        let counted: bool = row.partial || row.die.contains(full);
        let value: Number = Number::of(areas[s]).over(Number::of(clipped.area()));
        density.push(value);
        if counted {
            examined = examined + 1;
        }
        push_window(
            row,
            centre(clipped),
            owner_or(owners[s], fallback),
            counted,
            value,
            out,
            Ghost(store),
            Ghost(rects@),
            Ghost(s as int),
        );
        assert(out@ =~= first + row.windows_found(store, rects@, (s + 1) as nat));
        let (a, b) = advance(i, j, nx, ny);
        i = a;
        j = b;
        s = s + 1;
    }
    (density, examined)
}

/// The two gradients of one window: against the one to its right, then the one
/// above it.
fn push_window_gaps(
    row: &DensityRow,
    limit: Number,
    density: &Vec<Number>,
    owner: PolyId,
    at: (usize, usize),
    s: usize,
    sides: (usize, usize),
    out: &mut Violations,
    Ghost(store): Ghost<&GeometryStore>,
    Ghost(rects): Ghost<Seq<Bbox>>,
)
    requires
        row.wf(),
        sides.0 == row.nx(),
        sides.1 == row.ny(),
        at.0 < sides.0,
        at.1 < sides.1,
        s == at.1 * sides.0 + at.0,
        density@.len() == row.count(),
        forall|k: int| 0 <= k < row.count() ==> #[trigger] density@[k] == row.density(rects, k),
        owner == row.owner(store, s as int),
    ensures
        final(out)@ == old(out)@ + row.gap_found(
            store,
            rects,
            limit,
            s as int,
            row.right_of(s as int),
        ) + row.gap_found(store, rects, limit, s as int, row.above(s as int)),
{
    proof {
        lemma_slot(row, s as int, at.0 as int, at.1 as int);
    }
    let (full, clipped) = window_boxes(row.die, at, row.window, row.step);
    let middle = centre(clipped);
    let right: usize = if at.0 + 1 < sides.0 { s + 1 } else { s };
    let beside = (if at.0 + 1 < sides.0 { at.0 + 1 } else { at.0 }, at.1);
    let over = (at.0, if at.1 + 1 < sides.1 { at.1 + 1 } else { at.1 });
    let above: usize = if at.1 + 1 < sides.1 { s + sides.0 } else { s };
    proof {
        assert((at.1 + 1) * sides.0 == at.1 * sides.0 + sides.0) by (nonlinear_arith);
        lemma_slot(row, right as int, beside.0 as int, beside.1 as int);
        lemma_slot(row, above as int, over.0 as int, over.1 as int);
    }
    let (full_right, _) = window_boxes(row.die, beside, row.window, row.step);
    let (full_above, _) = window_boxes(row.die, over, row.window, row.step);
    let here: bool = row.partial || row.die.contains(full);
    let there: bool = row.partial || row.die.contains(full_right);
    let higher: bool = row.partial || row.die.contains(full_above);
    push_gap(
        row,
        middle,
        owner,
        here && there,
        density[s],
        density[right],
        limit,
        out,
        Ghost(store),
        Ghost(rects),
        Ghost(s as int),
        Ghost(right as int),
    );
    push_gap(
        row,
        middle,
        owner,
        here && higher,
        density[s],
        density[above],
        limit,
        out,
        Ghost(store),
        Ghost(rects),
        Ghost(s as int),
        Ghost(above as int),
    );
}

/// The gradient between every pair of adjacent windows of one row.
fn push_gaps(
    row: &DensityRow,
    limit: Number,
    density: &Vec<Number>,
    owners: &Vec<u32>,
    fallback: u32,
    nx: usize,
    ny: usize,
    out: &mut Violations,
    Ghost(store): Ghost<&GeometryStore>,
    Ghost(rects): Ghost<Seq<Bbox>>,
)
    requires
        row.wf(),
        nx == row.nx(),
        ny == row.ny(),
        density@.len() == row.count(),
        owners@.len() == row.count(),
        forall|s: int| 0 <= s < row.count() ==> #[trigger] density@[s] == row.density(rects, s),
        forall|s: int|
            0 <= s < row.count() ==> row.owner(store, s).0 == (if #[trigger] owners@[s]
                != u32::MAX {
                owners@[s]
            } else {
                fallback
            }),
    ensures
        final(out)@ == old(out)@ + row.gaps_found(store, rects, limit, row.count() as nat),
{
    let ghost first = out@;
    let count: usize = density.len();
    let mut s: usize = 0;
    let mut i: usize = 0;
    let mut j: usize = 0;
    proof {
        lemma_sides(row);
    }
    assert(out@ =~= first + row.gaps_found(store, rects, limit, 0));
    while s < count
        invariant
            row.wf(),
            nx == row.nx(),
            ny == row.ny(),
            count == row.count(),
            count == nx * ny,
            density@.len() == row.count(),
            owners@.len() == row.count(),
            forall|s: int|
                0 <= s < row.count() ==> #[trigger] density@[s] == row.density(rects, s),
            forall|s: int|
                0 <= s < row.count() ==> row.owner(store, s).0 == (if #[trigger] owners@[s]
                    != u32::MAX {
                    owners@[s]
                } else {
                    fallback
                }),
            s <= count,
            s == j * nx + i,
            s < count ==> i < nx && j < ny,
            out@ == first + row.gaps_found(store, rects, limit, s as nat),
        decreases count - s,
    {
        proof {
            lemma_slot(row, s as int, i as int, j as int);
            assert(row.owner(store, s as int).0 == (if owners@[s as int] != u32::MAX {
                owners@[s as int]
            } else {
                fallback
            }));
        }
        push_window_gaps(
            row,
            limit,
            density,
            owner_or(owners[s], fallback),
            (i, j),
            s,
            (nx, ny),
            out,
            Ghost(store),
            Ghost(rects),
        );
        assert(out@ =~= first + row.gaps_found(store, rects, limit, (s + 1) as nat));
        let (a, b) = advance(i, j, nx, ny);
        i = a;
        j = b;
        s = s + 1;
    }
}

/// A copy of one layer's polygon boxes.
fn layer_boxes(store: &GeometryStore, lo: u32, hi: u32) -> (r: Vec<Bbox>)
    requires
        store.wf(),
        lo <= hi <= store.polys(),
    ensures
        r@ == store.bbox@.subrange(lo as int, hi as int),
{
    let mut r: Vec<Bbox> = Vec::new();
    let mut p: u32 = lo;
    while p < hi
        invariant
            store.wf(),
            lo <= p <= hi <= store.polys(),
            r@.len() == p - lo,
            forall|k: int| 0 <= k < r@.len() ==> #[trigger] r@[k] == store.bbox@[lo + k],
        decreases hi - p,
    {
        r.push(store.bbox[p as usize]);
        p = p + 1;
    }
    assert(r@ =~= store.bbox@.subrange(lo as int, hi as int));
    r
}

/// Run one resolved row, and hand back how many windows were evaluated.
fn check_density_row(
    store: &GeometryStore,
    row: &DensityRow,
    rects: &Vec<Bbox>,
    out: &mut Violations,
) -> (examined: u64)
    requires
        store.wf(),
        row.wf(),
        row.layer.0 < store.layers(),
        rects@.len() <= 0xFFFF_FFFF,
        forall|k: int| 0 <= k < rects@.len() ==> (#[trigger] rects@[k]).wf(),
    ensures
        examined == row.result(store, rects@).examined,
        final(out)@ == old(out)@ + row.found(store, rects@),
{
    let ghost first = out@;
    proof {
        lemma_sides(row);
    }
    let nx: usize = positions(row.die.xhi - row.die.xlo, row.step.0);
    let ny: usize = positions(row.die.yhi - row.die.ylo, row.step.1);
    let areas = window_areas(rects, row.die, row.window, row.step, nx, ny);
    let (lo, hi) = store.polys_on_layer(row.layer);
    let boxes = layer_boxes(store, lo, hi);
    let fallback: u32 = if lo < hi { lo } else { 0 };
    let mut owners: Vec<u32> = Vec::new();
    assert forall|k: int| 0 <= k < boxes@.len() implies (#[trigger] boxes@[k]).wf() by {
        assert(store.bbox@[lo + k].wf());
    }
    window_owners_into(&boxes, lo, row.die, row.window, row.step, (nx, ny), &mut owners);
    proof {
        assert forall|s: int| 0 <= s < row.count() implies #[trigger] areas@[s] == covered(
            rects@,
            row.clipped(s),
        ) && 0 <= areas@[s] by {
            lemma_slot_of(row, s);
            assert(grid_at(areas@, nx as int, s % row.nx(), s / row.nx()) == areas@[s]);
        }
        assert forall|s: int| 0 <= s < row.count() implies row.owner(store, s).0 == (
        if #[trigger] owners@[s] != u32::MAX {
            owners@[s]
        } else {
            fallback
        }) by {
            lemma_slot_of(row, s);
            assert(grid_at(owners@, nx as int, s % row.nx(), s / row.nx()) == owners@[s]);
        }
    }
    let (density, examined) = push_windows(
        row,
        rects,
        &areas,
        &owners,
        fallback,
        nx,
        ny,
        out,
        Ghost(store),
    );
    if let Some(limit) = row.delta {
        push_gaps(
            row,
            limit,
            &density,
            &owners,
            fallback,
            nx,
            ny,
            out,
            Ghost(store),
            Ghost(rects@),
        );
    }
    assert(out@ =~= first + row.found(store, rects@));
    examined
}

/// The column and line of slot `s`.
pub proof fn lemma_slot_of(row: &DensityRow, s: int)
    requires
        row.wf(),
        0 <= s < row.count(),
    ensures
        0 <= s % row.nx() < row.nx(),
        0 <= s / row.nx() < row.ny(),
        (s / row.nx()) * row.nx() + s % row.nx() == s,
{
    lemma_sides(row);
    let nx = row.nx();
    let ny = row.ny();
    vstd::arithmetic::div_mod::lemma_fundamental_div_mod(s, nx);
    vstd::arithmetic::div_mod::lemma_mod_bound(s, nx);
    let q = s / nx;
    let m = s % nx;
    assert(nx * q == q * nx) by (nonlinear_arith);
    assert(0 <= q < ny) by (nonlinear_arith)
        requires
            s == q * nx + m,
            0 <= m < nx,
            0 <= s < nx * ny,
            nx > 0,
    ;
}

impl DensityCmpTable {
    pub open spec fn wf(&self) -> bool {
        &&& self.head.wf()
        &&& self.layer@.len() == self.head.rows()
        &&& self.window@.len() == self.head.rows()
        &&& self.step@.len() == self.head.rows()
        &&& self.min_density@.len() == self.head.rows()
        &&& self.max_density@.len() == self.head.rows()
        &&& self.max_neighbour_delta@.len() == self.head.rows()
        &&& self.cmp@.len() == self.head.rows()
        &&& self.include_partial_windows@.len() == self.head.rows()
    }

    /// Whether row `r` can be laid over a layout at all.
    pub open spec fn runnable(&self, design: Design, r: int) -> bool {
        &&& self.layer@[r] is Base
        &&& self.window@[r].0 > 0
        &&& self.window@[r].1 > 0
        &&& self.step@[r].0 > 0
        &&& self.step@[r].1 > 0
        &&& merged_layer(design, self.layer@[r]) is Some
    }

    /// Row `r`, resolved.
    pub open spec fn resolved(&self, die: Bbox, r: int) -> DensityRow {
        DensityRow {
            die,
            layer: self.layer@[r]->Base_0,
            window: self.window@[r],
            step: self.step@[r],
            min: self.min_density@[r],
            max: self.max_density@[r],
            delta: self.max_neighbour_delta@[r],
            model: self.cmp@[r],
            partial: self.include_partial_windows@[r],
            rule: self.head.rule@[r],
            severity: self.head.severity@[r],
        }
    }

    /// Whether every row that runs names a layer the store has, and lays a grid
    /// the machine can index.
    pub open spec fn fits(&self, design: Design, die: Bbox) -> bool {
        forall|r: int|
            0 <= r < self.head.rows() ==> layer_exists(
                design.store,
                #[trigger] self.layer@[r],
            ) && (self.runnable(design, r) ==> self.resolved(die, r).wf())
    }
}

/// A layer's covered region, where it is a base layer the kernel could merge.
pub open spec fn merged_layer(design: Design, layer: LayerRef) -> Option<Vec<Bbox>> {
    match layer {
        LayerRef::Base(id) => design.derived.merged@[id.0 as int],
        LayerRef::Named(_) => None,
    }
}

fn merged_of<'a>(design: Design<'a>, layer: LayerRef) -> (r: Option<(LayerId, &'a Vec<Bbox>)>)
    requires
        design.wf(),
        layer_exists(design.store, layer),
    ensures
        r is Some <==> merged_layer(design, layer) is Some,
        r is Some ==> layer == LayerRef::Base((r->0).0)
            && *(r->0).1 == merged_layer(design, layer)->0
            && (*(r->0).1)@.len() <= 0xFFFF_FFFF && forall|k: int|
            0 <= k < (*(r->0).1)@.len() ==> (#[trigger] (*(r->0).1)@[k]).wf(),
{
    match layer {
        LayerRef::Base(id) => match &design.derived.merged[id.0 as usize] {
            Some(rects) => Some((id, rects)),
            None => None,
        },
        LayerRef::Named(_) => None,
    }
}

/// What row `r` of a density table finds.
pub open spec fn density_result(
    design: Design,
    die: Bbox,
    table: &DensityCmpTable,
    r: int,
) -> RowResult {
    if table.runnable(design, r) {
        table.resolved(die, r).result(design.store, merged_layer(design, table.layer@[r])->0@)
    } else {
        ended(Outcome::Refused)
    }
}

pub open spec fn density_results(design: Design, die: Bbox, table: &DensityCmpTable) -> Seq<
    RowResult,
> {
    Seq::new(table.head.rule@.len(), |r: int| density_result(design, die, table, r))
}

/// Density of every window, and the thickness the model predicts from it.
///
/// A row over a derived layer, over a layer that cannot be merged, or with a
/// window or step that is not positive is refused. `examined` is the number of
/// windows evaluated, which tells a clean run from a step that produced no
/// window at all.
pub fn check_density_cmp(
    design: Design,
    die: Bbox,
    table: &DensityCmpTable,
    out: &mut Violations,
    runs: &mut Vec<RuleRun>,
)
    requires
        design.wf(),
        die.wf(),
        table.wf(),
        table.fits(design, die),
    ensures
        final(out)@ == old(out)@ + all_found(density_results(design, die, table)),
        final(runs)@ == old(runs)@ + all_runs(
            table.head.rule@,
            density_results(design, die, table),
        ),
{
    let ghost results = density_results(design, die, table);
    let rows: usize = table.head.len();
    let ghost first = out@;
    let ghost begun = runs@;
    assert(out@ =~= first + all_found(results.take(0)));
    assert(runs@ =~= begun + all_runs(table.head.rule@, results.take(0)));
    for row in 0..rows
        invariant
            design.wf(),
            die.wf(),
            table.wf(),
            table.fits(design, die),
            rows == table.head.rows(),
            results == density_results(design, die, table),
            out@ == first + all_found(results.take(int_of(row))),
            runs@ == begun + all_runs(table.head.rule@, results.take(int_of(row))),
    {
        let rule = table.head.rule[row];
        let window = table.window[row];
        let step = table.step[row];
        let before: usize = out.len();
        let ghost r = int_of(row);
        assert(layer_exists(design.store, table.layer@[r]));
        let positive: bool = window.0 > 0 && window.1 > 0 && step.0 > 0 && step.1 > 0;
        match merged_of(design, table.layer[row]) {
            Some((layer, rects)) if positive => {
                let resolved = DensityRow {
                    die,
                    layer,
                    window,
                    step,
                    min: table.min_density[row],
                    max: table.max_density[row],
                    delta: table.max_neighbour_delta[row],
                    model: table.cmp[row],
                    partial: table.include_partial_windows[row],
                    rule,
                    severity: table.head.severity[row],
                };
                assert(resolved == table.resolved(die, r));
                assert(table.runnable(design, r));
                let examined: u64 = check_density_row(design.store, &resolved, rects, out);
                record_run(runs, out, before, rule, Outcome::Ran, examined);
            },
            _ => {
                record_run(runs, out, before, rule, Outcome::Refused, 0);
            },
        }
        proof {
            lemma_next_row(table.head.rule@, results, r);
            assert(out@ =~= first + all_found(results.take(r + 1)));
            assert(runs@ =~= begun + all_runs(table.head.rule@, results.take(r + 1)));
        }
    }
    assert(results.take(int_of(rows)) =~= results);
}

/// A machine count as a mathematical one.
pub open spec fn int_of(n: usize) -> int {
    n as int
}

} // verus!
