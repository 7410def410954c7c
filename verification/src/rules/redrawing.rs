//! A density is of the region a layer covers, not of how it is drawn.
use crate::design::{
    cell_drawn, cell_in, cell_inside, layer_exists, polygon_rings, Design, LayerShapes,
};
use crate::geom::{cell_covered, in_domain, Bbox};
use crate::number::Number;
use crate::report::Violation;
use crate::rules::coverage::{lemma_same_region_same_cover, lemma_window_in_die};
use crate::rules::density::{
    density_result, lemma_slot_of, merged_layer, DensityCmpTable, DensityRow,
};
use crate::store::GeometryStore;
use vstd::prelude::*;

verus! {

/// Violations that differ in the polygon they name, if at all.
pub open spec fn same_but_shapes(v: Violation, w: Violation) -> bool {
    v == (Violation { shapes: v.shapes, ..w })
}

/// Violations that correspond, each differing in the polygon it names if at all.
pub open spec fn correspond(a: Seq<Violation>, b: Seq<Violation>) -> bool {
    &&& a.len() == b.len()
    &&& forall|i: int| 0 <= i < a.len() ==> same_but_shapes(#[trigger] a[i], b[i])
}

proof fn lemma_join(a: Seq<Violation>, b: Seq<Violation>, c: Seq<Violation>, d: Seq<Violation>)
    requires
        correspond(a, b),
        correspond(c, d),
    ensures
        correspond(a + c, b + d),
{
    assert forall|i: int| 0 <= i < (a + c).len() implies same_but_shapes(
        #[trigger] (a + c)[i],
        (b + d)[i],
    ) by {
        if i < a.len() {
            assert(same_but_shapes(a[i], b[i]));
        } else {
            assert(same_but_shapes(c[i - a.len()], d[i - a.len()]));
        }
    }
}

/// Whether two lists of boxes give every window of a row the same density.
spec fn dense_alike(row: &DensityRow, x: Seq<Bbox>, y: Seq<Bbox>) -> bool {
    forall|s: int| 0 <= s < row.count() ==> #[trigger] row.density(x, s) == row.density(y, s)
}

proof fn lemma_windows(
    row: &DensityRow,
    a: &GeometryStore,
    b: &GeometryStore,
    x: Seq<Bbox>,
    y: Seq<Bbox>,
    n: nat,
)
    requires
        dense_alike(row, x, y),
        n <= row.count(),
    ensures
        correspond(row.windows_found(a, x, n), row.windows_found(b, y, n)),
    decreases n,
{
    if n > 0 {
        let m = (n - 1) as nat;
        lemma_windows(row, a, b, x, y, m);
        assert(row.density(x, n - 1) == row.density(y, n - 1));
        assert(correspond(row.window_found(a, x, n - 1), row.window_found(b, y, n - 1)));
        lemma_join(
            row.windows_found(a, x, m),
            row.windows_found(b, y, m),
            row.window_found(a, x, n - 1),
            row.window_found(b, y, n - 1),
        );
    }
}

/// The windows ahead of a window are windows of the row.
proof fn lemma_ahead(row: &DensityRow, s: int)
    requires
        row.wf(),
        0 <= s < row.count(),
    ensures
        0 <= row.right_of(s) < row.count(),
        0 <= row.above(s) < row.count(),
{
    lemma_slot_of(row, s);
    let (nx, ny) = (row.nx(), row.ny());
    let (q, m) = (s / nx, s % nx);
    assert(q * nx + nx <= nx * ny) by (nonlinear_arith)
        requires
            q < ny,
            nx > 0,
    ;
    if q + 1 < ny {
        assert(q * nx + nx + nx <= nx * ny) by (nonlinear_arith)
            requires
                q + 1 < ny,
                nx > 0,
        ;
    }
}

proof fn lemma_gaps(
    row: &DensityRow,
    a: &GeometryStore,
    b: &GeometryStore,
    x: Seq<Bbox>,
    y: Seq<Bbox>,
    limit: Number,
    n: nat,
)
    requires
        row.wf(),
        dense_alike(row, x, y),
        n <= row.count(),
    ensures
        correspond(row.gaps_found(a, x, limit, n), row.gaps_found(b, y, limit, n)),
    decreases n,
{
    if n > 0 {
        let m = (n - 1) as nat;
        let s = n - 1;
        lemma_gaps(row, a, b, x, y, limit, m);
        lemma_ahead(row, s);
        let (f, g) = (row.gaps_found(a, x, limit, m), row.gaps_found(b, y, limit, m));
        let (t, u) = (row.right_of(s), row.above(s));
        assert(row.density(x, s) == row.density(y, s));
        assert(row.density(x, t) == row.density(y, t));
        assert(row.density(x, u) == row.density(y, u));
        let (p, q) = (row.gap_found(a, x, limit, s, t), row.gap_found(b, y, limit, s, t));
        assert(correspond(p, q));
        lemma_join(f, g, p, q);
        let (v, w) = (row.gap_found(a, x, limit, s, u), row.gap_found(b, y, limit, s, u));
        assert(correspond(v, w));
        lemma_join(f + p, g + q, v, w);
    }
}

/// Whether two layers draw the same region: every unit cell in one is in the other.
pub open spec fn draw_alike(a: LayerShapes, b: LayerShapes) -> bool {
    forall|x: int, y: int|
        in_domain(x) && in_domain(y) ==> #[trigger] cell_drawn(a, x, y) == cell_drawn(b, x, y)
}

/// What a polygon covers is a matter of its rings.
proof fn lemma_same_rings(a: LayerShapes, i: int, b: LayerShapes, j: int, x: int, y: int)
    requires
        a.wf(),
        b.wf(),
        0 <= i < a.boxes@.len(),
        0 <= j < b.boxes@.len(),
        polygon_rings(a, i) == polygon_rings(b, j),
        cell_in(a, i, x, y),
    ensures
        cell_in(b, j, x, y),
{
    let (p, q) = (polygon_rings(a, i), polygon_rings(b, j));
    assert(a.ring_lo(i) < a.ring_hi(i) && b.ring_lo(j) < b.ring_hi(j));
    assert(p[0] == a.outer(i) && q[0] == b.outer(j));
    assert(p.len() == a.ring_hi(i) - a.ring_lo(i) && q.len() == b.ring_hi(j) - b.ring_lo(j));
    assert forall|k: int| b.ring_lo(j) < k < b.ring_hi(j) implies !cell_inside(
        #[trigger] b.rings@[k]@,
        x,
        y,
    ) by {
        let m = k - b.ring_lo(j);
        assert(q[m] == b.rings@[b.ring_lo(j) + m]@);
        assert(p[m] == a.rings@[a.ring_lo(i) + m]@);
        assert(!cell_inside(a.rings@[a.ring_lo(i) + m]@, x, y));
    }
}

/// A layer to which one of its own polygons is added a second time draws the same
/// region.
pub proof fn lemma_drawn_twice(a: LayerShapes, b: LayerShapes, of: int)
    requires
        a.wf(),
        b.wf(),
        0 <= of < a.boxes@.len(),
        b.boxes@.len() == a.boxes@.len() + 1,
        forall|i: int|
            0 <= i < a.boxes@.len() ==> #[trigger] polygon_rings(b, i) == polygon_rings(a, i),
        polygon_rings(b, a.boxes@.len() as int) == polygon_rings(a, of),
    ensures
        draw_alike(a, b),
{
    let n = a.boxes@.len() as int;
    assert forall|x: int, y: int| in_domain(x) && in_domain(y) implies #[trigger] cell_drawn(a, x, y)
        == cell_drawn(b, x, y) by {
        if cell_drawn(a, x, y) {
            let i = choose|i: int| 0 <= i < n && #[trigger] cell_in(a, i, x, y);
            assert(polygon_rings(b, i) == polygon_rings(a, i));
            lemma_same_rings(a, i, b, i, x, y);
        }
        if cell_drawn(b, x, y) {
            let i = choose|i: int| 0 <= i < n + 1 && #[trigger] cell_in(b, i, x, y);
            let j = if i == n { of } else { i };
            assert(polygon_rings(b, i) == polygon_rings(a, j));
            lemma_same_rings(b, i, a, j, x, y);
        }
    }
}

/// Two designs whose layer draws the same region report the same densities, window
/// by window, however the region is drawn: a polygon drawn a second time changes
/// nothing but which polygon a violation may name.
pub proof fn lemma_redrawn_layer_has_the_same_density(
    a: Design,
    b: Design,
    die: Bbox,
    table: &DensityCmpTable,
    r: int,
)
    requires
        a.wf(),
        b.wf(),
        table.fits(a, die),
        table.fits(b, die),
        0 <= r < table.head.rows(),
        table.runnable(a, r) == table.runnable(b, r),
        table.runnable(a, r) ==> draw_alike(
            a.derived.validated@[table.layer@[r]->Base_0.0 as int]->0,
            b.derived.validated@[table.layer@[r]->Base_0.0 as int]->0,
        ),
    ensures
        ({
            let (x, y) = (density_result(a, die, table, r), density_result(b, die, table, r));
            &&& x.outcome == y.outcome
            &&& x.examined == y.examined
            &&& correspond(x.found, y.found)
        }),
{
    if table.runnable(a, r) {
        let row = table.resolved(die, r);
        assert(layer_exists(a.store, table.layer@[r]));
        assert(layer_exists(b.store, table.layer@[r]));
        let l = table.layer@[r]->Base_0.0 as int;
        assert(a.derived.merged@[l] is Some && b.derived.merged@[l] is Some);
        let x = (merged_layer(a, table.layer@[r])->0)@;
        let y = (merged_layer(b, table.layer@[r])->0)@;
        let (v, w) = (a.derived.validated@[l]->0, b.derived.validated@[l]->0);
        assert forall|s: int| 0 <= s < row.count() implies #[trigger] row.density(x, s)
            == row.density(y, s) by {
            let win = row.clipped(s);
            lemma_window_in_die(&row, s);
            assert forall|cx: int, cy: int|
                win.xlo <= cx < win.xhi && win.ylo <= cy < win.yhi implies #[trigger] cell_covered(
                x,
                cx,
                cy,
            ) == cell_covered(y, cx, cy) by {
                assert(cell_covered(x, cx, cy) == cell_drawn(v, cx, cy));
                assert(cell_covered(y, cx, cy) == cell_drawn(w, cx, cy));
            }
            lemma_same_region_same_cover(x, y, win);
        }
        let n = row.count() as nat;
        lemma_windows(&row, a.store, b.store, x, y, n);
        match row.delta {
            Some(limit) => {
                lemma_gaps(&row, a.store, b.store, x, y, limit, n);
                lemma_join(
                    row.windows_found(a.store, x, n),
                    row.windows_found(b.store, y, n),
                    row.gaps_found(a.store, x, limit, n),
                    row.gaps_found(b.store, y, limit, n),
                );
            },
            None => {
                assert(row.found(a.store, x) =~= row.windows_found(a.store, x, n));
                assert(row.found(b.store, y) =~= row.windows_found(b.store, y, n));
            },
        }
    }
}

} // verus!
