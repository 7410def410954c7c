//! What a window can be covered by.
use crate::design::{layer_exists, Design};
use crate::geom::{cell_covered, covers_cell, disjoint, share_area, Bbox};
use crate::number::{Number, ONE};
use crate::rounding::{lemma_of_keeps_order, lemma_quotient_is_a_fraction};
use crate::report::{Measurement, Outcome};
use crate::rules::density::{
    covered, density_result, lemma_position_inside, lemma_slot_of, merged_layer, shared,
    DensityCmpTable, DensityRow,
};
use crate::store::GeometryStore;
use vstd::arithmetic::power2::{lemma_pow2_adds, pow2};
use vstd::prelude::*;

verus! {

/// How many rectangles cover a unit cell.
spec fn cell(rects: Seq<Bbox>, x: int, y: int) -> int
    decreases rects.len(),
{
    if rects.len() == 0 {
        0
    } else {
        cell(rects.drop_last(), x, y) + if covers_cell(rects.last(), x, y) { 1int } else { 0 }
    }
}

/// What rectangles cover of one unit column, from `lo` to `hi`.
spec fn column(rects: Seq<Bbox>, x: int, lo: int, hi: int) -> int
    decreases rects.len(),
{
    if rects.len() == 0 {
        0
    } else {
        let last = rects.last();
        column(rects.drop_last(), x, lo, hi) + if last.xlo <= x < last.xhi {
            shared(last.ylo as int, last.yhi as int, lo, hi)
        } else {
            0
        }
    }
}

/// What rectangles cover of a box given by its sides.
spec fn covered_in(rects: Seq<Bbox>, xlo: int, xhi: int, ylo: int, yhi: int) -> int
    decreases rects.len(),
{
    if rects.len() == 0 {
        0
    } else {
        let last = rects.last();
        covered_in(rects.drop_last(), xlo, xhi, ylo, yhi) + shared(
            last.xlo as int,
            last.xhi as int,
            xlo,
            xhi,
        ) * shared(last.ylo as int, last.yhi as int, ylo, yhi)
    }
}

proof fn lemma_drop(rects: Seq<Bbox>)
    requires
        disjoint(rects),
        rects.len() > 0,
    ensures
        disjoint(rects.drop_last()),
{
    let t = rects.drop_last();
    assert forall|i: int, j: int| 0 <= i < j < t.len() implies !share_area(
        #[trigger] t[i],
        #[trigger] t[j],
    ) by {
        assert(!share_area(rects[i], rects[j]));
    }
}

/// A cell that no rectangle of a list covers counts none.
proof fn lemma_bare(rects: Seq<Bbox>, x: int, y: int)
    requires
        forall|i: int| 0 <= i < rects.len() ==> !covers_cell(#[trigger] rects[i], x, y),
    ensures
        cell(rects, x, y) == 0,
    decreases rects.len(),
{
    if rects.len() > 0 {
        let t = rects.drop_last();
        assert forall|i: int| 0 <= i < t.len() implies !covers_cell(#[trigger] t[i], x, y) by {
            assert(!covers_cell(rects[i], x, y));
        }
        assert(!covers_cell(rects[rects.len() - 1], x, y));
        lemma_bare(t, x, y);
    }
}

/// Disjoint rectangles cover a cell at most once.
proof fn lemma_cell(rects: Seq<Bbox>, x: int, y: int)
    requires
        disjoint(rects),
    ensures
        0 <= cell(rects, x, y) <= 1,
        cell(rects, x, y) == 1 <==> cell_covered(rects, x, y),
    decreases rects.len(),
{
    if rects.len() > 0 {
        let t = rects.drop_last();
        lemma_drop(rects);
        lemma_cell(t, x, y);
        if covers_cell(rects.last(), x, y) {
            assert forall|i: int| 0 <= i < t.len() implies !covers_cell(#[trigger] t[i], x, y) by {
                assert(!share_area(rects[i], rects[rects.len() - 1]));
            }
            lemma_bare(t, x, y);
            assert(covers_cell(rects[rects.len() - 1], x, y));
        } else {
            if cell_covered(t, x, y) {
                let i = choose|i: int| 0 <= i < t.len() && covers_cell(#[trigger] t[i], x, y);
                assert(covers_cell(rects[i], x, y));
            }
            if cell_covered(rects, x, y) {
                let i = choose|i: int|
                    0 <= i < rects.len() && covers_cell(#[trigger] rects[i], x, y);
                assert(covers_cell(t[i], x, y));
            }
        }
    }
}

/// One unit more of a column adds what covers that cell.
proof fn lemma_taller(rects: Seq<Bbox>, x: int, lo: int, hi: int)
    requires
        lo <= hi,
        forall|i: int| 0 <= i < rects.len() ==> (#[trigger] rects[i]).wf(),
    ensures
        column(rects, x, lo, hi + 1) == column(rects, x, lo, hi) + cell(rects, x, hi),
    decreases rects.len(),
{
    if rects.len() > 0 {
        assert(rects[rects.len() - 1].wf());
        assert forall|i: int| 0 <= i < rects.drop_last().len() implies (
        #[trigger] rects.drop_last()[i]).wf() by {
            assert(rects[i].wf());
        }
        lemma_taller(rects.drop_last(), x, lo, hi);
    }
}

/// A column is covered for at most its height.
proof fn lemma_column(rects: Seq<Bbox>, x: int, lo: int, hi: int)
    requires
        lo <= hi,
        disjoint(rects),
        forall|i: int| 0 <= i < rects.len() ==> (#[trigger] rects[i]).wf(),
    ensures
        0 <= column(rects, x, lo, hi) <= hi - lo,
    decreases hi - lo,
{
    if lo == hi {
        lemma_no_column(rects, x, lo);
    } else {
        lemma_column(rects, x, lo, hi - 1);
        lemma_taller(rects, x, lo, hi - 1);
        lemma_cell(rects, x, hi - 1);
    }
}

proof fn lemma_no_column(rects: Seq<Bbox>, x: int, lo: int)
    ensures
        column(rects, x, lo, lo) == 0,
    decreases rects.len(),
{
    if rects.len() > 0 {
        lemma_no_column(rects.drop_last(), x, lo);
    }
}

/// One unit more of a box's width adds a column.
proof fn lemma_wider(rects: Seq<Bbox>, xlo: int, xhi: int, ylo: int, yhi: int)
    requires
        xlo <= xhi,
        forall|i: int| 0 <= i < rects.len() ==> (#[trigger] rects[i]).wf(),
    ensures
        covered_in(rects, xlo, xhi + 1, ylo, yhi) == covered_in(rects, xlo, xhi, ylo, yhi)
            + column(rects, xhi, ylo, yhi),
    decreases rects.len(),
{
    if rects.len() > 0 {
        let last = rects.last();
        assert(rects[rects.len() - 1].wf());
        assert forall|i: int| 0 <= i < rects.drop_last().len() implies (
        #[trigger] rects.drop_last()[i]).wf() by {
            assert(rects[i].wf());
        }
        lemma_wider(rects.drop_last(), xlo, xhi, ylo, yhi);
        let a = shared(last.xlo as int, last.xhi as int, xlo, xhi);
        let b = shared(last.xlo as int, last.xhi as int, xlo, xhi + 1);
        let h = shared(last.ylo as int, last.yhi as int, ylo, yhi);
        let more = if last.xlo <= xhi < last.xhi { 1int } else { 0int };
        assert(b == a + more);
        assert(b * h == a * h + more * h) by (nonlinear_arith)
            requires
                b == a + more,
        ;
        assert(more * h == (if more == 1 { h } else { 0 })) by (nonlinear_arith)
            requires
                more == 0 || more == 1,
        ;
    }
}

/// Disjoint rectangles cover a box for at most its area.
proof fn lemma_box(rects: Seq<Bbox>, xlo: int, xhi: int, ylo: int, yhi: int)
    requires
        xlo <= xhi,
        ylo <= yhi,
        disjoint(rects),
        forall|i: int| 0 <= i < rects.len() ==> (#[trigger] rects[i]).wf(),
    ensures
        0 <= covered_in(rects, xlo, xhi, ylo, yhi) <= (xhi - xlo) * (yhi - ylo),
    decreases xhi - xlo,
{
    if xlo == xhi {
        lemma_no_box(rects, xlo, ylo, yhi);
        assert((xhi - xlo) * (yhi - ylo) == 0) by (nonlinear_arith)
            requires
                xhi == xlo,
        ;
    } else {
        lemma_box(rects, xlo, xhi - 1, ylo, yhi);
        lemma_wider(rects, xlo, xhi - 1, ylo, yhi);
        lemma_column(rects, xhi - 1, ylo, yhi);
        assert((xhi - xlo) * (yhi - ylo) == (xhi - 1 - xlo) * (yhi - ylo) + (yhi - ylo))
            by (nonlinear_arith);
    }
}

proof fn lemma_no_box(rects: Seq<Bbox>, xlo: int, ylo: int, yhi: int)
    ensures
        covered_in(rects, xlo, xlo, ylo, yhi) == 0,
    decreases rects.len(),
{
    if rects.len() > 0 {
        lemma_no_box(rects.drop_last(), xlo, ylo, yhi);
        let last = rects.last();
        let h = shared(last.ylo as int, last.yhi as int, ylo, yhi);
        assert(shared(last.xlo as int, last.xhi as int, xlo, xlo) == 0);
        assert(0 * h == 0);
    }
}

proof fn lemma_same_cover(rects: Seq<Bbox>, win: Bbox)
    ensures
        covered(rects, win) == covered_in(
            rects,
            win.xlo as int,
            win.xhi as int,
            win.ylo as int,
            win.yhi as int,
        ),
    decreases rects.len(),
{
    if rects.len() > 0 {
        lemma_same_cover(rects.drop_last(), win);
    }
}

/// Disjoint rectangles cover a window for at most its area.
pub proof fn lemma_cover_is_at_most_the_window(rects: Seq<Bbox>, win: Bbox)
    requires
        win.wf(),
        disjoint(rects),
        forall|i: int| 0 <= i < rects.len() ==> (#[trigger] rects[i]).wf(),
    ensures
        0 <= covered(rects, win) <= win.spec_area(),
{
    lemma_same_cover(rects, win);
    lemma_box(rects, win.xlo as int, win.xhi as int, win.ylo as int, win.yhi as int);
}

/// Whether two lists of boxes cover the same cells of a box given by its sides.
spec fn cover_alike(
    a: Seq<Bbox>,
    b: Seq<Bbox>,
    xlo: int,
    xhi: int,
    ylo: int,
    yhi: int,
) -> bool {
    forall|x: int, y: int|
        xlo <= x < xhi && ylo <= y < yhi ==> #[trigger] cell_covered(a, x, y) == cell_covered(
            b,
            x,
            y,
        )
}

proof fn lemma_alike_column(a: Seq<Bbox>, b: Seq<Bbox>, x: int, lo: int, hi: int)
    requires
        lo <= hi,
        disjoint(a),
        disjoint(b),
        forall|i: int| 0 <= i < a.len() ==> (#[trigger] a[i]).wf(),
        forall|i: int| 0 <= i < b.len() ==> (#[trigger] b[i]).wf(),
        cover_alike(a, b, x, x + 1, lo, hi),
    ensures
        column(a, x, lo, hi) == column(b, x, lo, hi),
    decreases hi - lo,
{
    if lo == hi {
        lemma_no_column(a, x, lo);
        lemma_no_column(b, x, lo);
    } else {
        lemma_alike_column(a, b, x, lo, hi - 1);
        lemma_taller(a, x, lo, hi - 1);
        lemma_taller(b, x, lo, hi - 1);
        lemma_cell(a, x, hi - 1);
        lemma_cell(b, x, hi - 1);
        assert(cell_covered(a, x, hi - 1) == cell_covered(b, x, hi - 1));
    }
}

proof fn lemma_alike_box(a: Seq<Bbox>, b: Seq<Bbox>, xlo: int, xhi: int, ylo: int, yhi: int)
    requires
        xlo <= xhi,
        ylo <= yhi,
        disjoint(a),
        disjoint(b),
        forall|i: int| 0 <= i < a.len() ==> (#[trigger] a[i]).wf(),
        forall|i: int| 0 <= i < b.len() ==> (#[trigger] b[i]).wf(),
        cover_alike(a, b, xlo, xhi, ylo, yhi),
    ensures
        covered_in(a, xlo, xhi, ylo, yhi) == covered_in(b, xlo, xhi, ylo, yhi),
    decreases xhi - xlo,
{
    if xlo == xhi {
        lemma_no_box(a, xlo, ylo, yhi);
        lemma_no_box(b, xlo, ylo, yhi);
    } else {
        lemma_alike_box(a, b, xlo, xhi - 1, ylo, yhi);
        lemma_wider(a, xlo, xhi - 1, ylo, yhi);
        lemma_wider(b, xlo, xhi - 1, ylo, yhi);
        lemma_alike_column(a, b, xhi - 1, ylo, yhi);
    }
}

/// Two lists of disjoint boxes that cover the same cells of a window cover as much of
/// it.
pub proof fn lemma_same_region_same_cover(a: Seq<Bbox>, b: Seq<Bbox>, win: Bbox)
    requires
        win.wf(),
        disjoint(a),
        disjoint(b),
        forall|i: int| 0 <= i < a.len() ==> (#[trigger] a[i]).wf(),
        forall|i: int| 0 <= i < b.len() ==> (#[trigger] b[i]).wf(),
        forall|x: int, y: int|
            win.xlo <= x < win.xhi && win.ylo <= y < win.yhi ==> #[trigger] cell_covered(a, x, y)
                == cell_covered(b, x, y),
    ensures
        covered(a, win) == covered(b, win),
{
    lemma_same_cover(a, win);
    lemma_same_cover(b, win);
    lemma_alike_box(a, b, win.xlo as int, win.xhi as int, win.ylo as int, win.yhi as int);
}

/// A window has area, all of it in the layout's domain.
pub proof fn lemma_window_in_die(row: &DensityRow, s: int)
    requires
        row.wf(),
        0 <= s < row.count(),
    ensures
        row.clipped(s).wf(),
        row.clipped(s).xlo < row.clipped(s).xhi,
        row.clipped(s).ylo < row.clipped(s).yhi,
{
    lemma_slot_of(row, s);
    let (i, j) = (s % row.nx(), s / row.nx());
    lemma_position_inside(i, row.die.xhi - row.die.xlo, row.step.0 as int);
    lemma_position_inside(j, row.die.yhi - row.die.ylo, row.step.1 as int);
}

/// Every window's density is a fraction between zero and one.
pub proof fn lemma_density_is_a_fraction(row: &DensityRow, rects: Seq<Bbox>, s: int)
    requires
        row.wf(),
        0 <= s < row.count(),
        disjoint(rects),
        forall|i: int| 0 <= i < rects.len() ==> (#[trigger] rects[i]).wf(),
    ensures
        (Number { bits: 0 }).le(row.density(rects, s)),
        row.density(rects, s).le(Number { bits: ONE }),
{
    lemma_window_in_die(row, s);
    let win = row.clipped(s);
    lemma_cover_is_at_most_the_window(rects, win);
    let (w, h) = (win.xhi - win.xlo, win.yhi - win.ylo);
    vstd::arithmetic::power2::lemma2_to64();
    vstd::arithmetic::power2::lemma2_to64_rest();
    lemma_pow2_adds(50, 50);
    assert(0 < w * h <= pow2(100)) by (nonlinear_arith)
        requires
            0 < w <= pow2(50),
            0 < h <= pow2(50),
            pow2(100) == pow2(50) * pow2(50),
    ;
    lemma_of_keeps_order(covered(rects, win), win.spec_area());
    lemma_quotient_is_a_fraction(
        Number::of_spec(covered(rects, win)),
        Number::of_spec(win.spec_area()),
    );
}

/// The ratio of every window a density row reports is a fraction between zero and
/// one, whatever the layout: a window that breaks a bound by its density measures no
/// less than nothing and no more than all of it.
pub proof fn lemma_reported_ratios_are_fractions(
    design: Design,
    table: &DensityCmpTable,
    die: Bbox,
    r: int,
)
    requires
        design.wf(),
        table.fits(design, die),
        0 <= r < table.head.rows(),
        table.runnable(design, r),
    ensures
        ({
            let row = table.resolved(die, r);
            let found = row.windows_found(
                design.store,
                merged_layer(design, table.layer@[r])->0@,
                row.count() as nat,
            );
            forall|i: int|
                0 <= i < found.len() && (#[trigger] found[i]).measured is Ratio ==> is_fraction(
                    found[i].measured->Ratio_0,
                )
        }),
{
    let row = table.resolved(die, r);
    assert(layer_exists(design.store, table.layer@[r]));
    let l = table.layer@[r]->Base_0.0 as int;
    assert(design.derived.merged@[l] is Some);
    let rects = merged_layer(design, table.layer@[r])->0@;
    lemma_windows_are_fractions(&row, design.store, rects, row.count() as nat);
}

/// Whether a number is between zero and one.
pub open spec fn is_fraction(v: Number) -> bool {
    (Number { bits: 0 }).le(v) && v.le(Number { bits: ONE })
}

proof fn lemma_windows_are_fractions(
    row: &DensityRow,
    store: &GeometryStore,
    rects: Seq<Bbox>,
    n: nat,
)
    requires
        row.wf(),
        n <= row.count(),
        disjoint(rects),
        forall|i: int| 0 <= i < rects.len() ==> (#[trigger] rects[i]).wf(),
    ensures
        ({
            let found = row.windows_found(store, rects, n);
            forall|i: int|
                0 <= i < found.len() && (#[trigger] found[i]).measured is Ratio ==> is_fraction(
                    found[i].measured->Ratio_0,
                )
        }),
    decreases n,
{
    if n > 0 {
        lemma_windows_are_fractions(row, store, rects, (n - 1) as nat);
        lemma_density_is_a_fraction(row, rects, n - 1);
        let before = row.windows_found(store, rects, (n - 1) as nat);
        let here = row.window_found(store, rects, n - 1);
        let found = row.windows_found(store, rects, n);
        assert(found == before + here);
        assert forall|i: int|
            0 <= i < found.len() && (#[trigger] found[i]).measured is Ratio implies is_fraction(
            found[i].measured->Ratio_0,
        ) by {
            if i < before.len() {
                assert(found[i] == before[i]);
            } else {
                assert(found[i] == here[i - before.len()]);
            }
        }
    }
}

/// A floor above one, where clipped windows are evaluated too and there is no other
/// bound, reports every window once: each is short of the floor, at a ratio between
/// zero and one.
pub proof fn lemma_floor_above_one_reports_every_window(
    design: Design,
    table: &DensityCmpTable,
    die: Bbox,
    r: int,
)
    requires
        design.wf(),
        table.fits(design, die),
        0 <= r < table.head.rows(),
        table.runnable(design, r),
        table.include_partial_windows@[r],
        table.min_density@[r] is Some,
        (Number { bits: ONE }).lt(table.min_density@[r]->0),
        table.max_density@[r] is None,
        table.max_neighbour_delta@[r] is None,
        table.resolved(die, r).model is None,
    ensures
        ({
            let row = table.resolved(die, r);
            let result = density_result(design, die, table, r);
            let rects = merged_layer(design, table.layer@[r])->0@;
            &&& result.outcome == Outcome::Ran
            &&& result.examined == row.count()
            &&& result.found.len() == row.count()
            &&& forall|s: int|
                0 <= s < row.count() ==> (#[trigger] result.found[s]).measured
                    == Measurement::Ratio(row.density(rects, s)) && is_fraction(
                    row.density(rects, s),
                )
        }),
{
    let row = table.resolved(die, r);
    assert(layer_exists(design.store, table.layer@[r]));
    let l = table.layer@[r]->Base_0.0 as int;
    assert(design.derived.merged@[l] is Some);
    let rects = merged_layer(design, table.layer@[r])->0@;
    let n = row.count() as nat;
    lemma_every_window(&row, design.store, rects, n);
    assert(row.found(design.store, rects) =~= row.windows_found(design.store, rects, n));
    assert forall|s: int| 0 <= s < row.count() implies is_fraction(
        #[trigger] row.density(rects, s),
    ) by {
        lemma_density_is_a_fraction(&row, rects, s);
    }
}

proof fn lemma_every_window(row: &DensityRow, store: &GeometryStore, rects: Seq<Bbox>, n: nat)
    requires
        row.wf(),
        n <= row.count(),
        disjoint(rects),
        forall|i: int| 0 <= i < rects.len() ==> (#[trigger] rects[i]).wf(),
        row.partial,
        row.min is Some,
        (Number { bits: ONE }).lt(row.min->0),
        row.max is None,
        row.model is None,
    ensures
        row.counted_to(n) == n,
        row.windows_found(store, rects, n).len() == n,
        forall|s: int|
            0 <= s < n ==> (#[trigger] row.windows_found(store, rects, n)[s]).measured
                == Measurement::Ratio(row.density(rects, s)),
    decreases n,
{
    if n > 0 {
        let s = n - 1;
        lemma_every_window(row, store, rects, s as nat);
        lemma_density_is_a_fraction(row, rects, s);
        let before = row.windows_found(store, rects, s as nat);
        let here = row.window_found(store, rects, s);
        let value = Measurement::Ratio(row.density(rects, s));
        assert(value.below(Measurement::Ratio(row.min->0)));
        assert(here =~= seq![row.violation(store, s, value, Measurement::Ratio(row.min->0))]);
        let found = row.windows_found(store, rects, n);
        assert(found == before + here);
        assert forall|k: int| 0 <= k < n implies (#[trigger] found[k]).measured
            == Measurement::Ratio(row.density(rects, k)) by {
            if k < s {
                assert(found[k] == before[k]);
            } else {
                assert(found[k] == here[0]);
            }
        }
    }
}

} // verus!
