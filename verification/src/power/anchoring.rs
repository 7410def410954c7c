//! Where each rail of a supply grid is held.
use crate::model::PolyId;
use crate::number::{lemma_magnitude_increases, Number, INFINITE};
use crate::power::network::PowerGrid;
use crate::power::process::{Contacts, Process};
use crate::power::rails::{best_to, is_supply_grid, Rails};
use crate::power::taps::answers;
use crate::power::wiring::{centre_taps, lemma_wired_len, wired_taps, Wiring};
use crate::store::GeometryStore;
use vstd::prelude::*;

verus! {

/// The height of a shape's layer.
pub open spec fn height_at(store: &GeometryStore, process: Process, poly: PolyId) -> Number {
    process.height(store.layer@[poly.0 as int])
}

/// The area of a shape's box.
pub open spec fn box_at(store: &GeometryStore, poly: PolyId) -> int {
    store.bbox@[poly.0 as int].spec_area()
}

/// Whether no shape of a list is on higher metal than shape `at`, none of the same height
/// has a larger box, and none of the same height and box comes before it.
pub open spec fn is_highest(
    store: &GeometryStore,
    process: Process,
    shapes: Seq<PolyId>,
    n: nat,
    at: int,
) -> bool {
    let (height, area) = (
        height_at(store, process, shapes[at]).value(),
        box_at(store, shapes[at]),
    );
    forall|i: int|
        0 <= i < n ==> {
            let other = #[trigger] shapes[i];
            let h = height_at(store, process, other).value();
            ||| h < height
            ||| h == height && box_at(store, other) < area
            ||| h == height && box_at(store, other) == area && at <= i
        }
}

/// The best of some shapes is one of them, on the highest metal, and of those the one
/// with the largest box.
proof fn lemma_best(store: &GeometryStore, process: Process, shapes: Seq<PolyId>, n: nat)
    requires
        0 < n <= shapes.len(),
        forall|i: int|
            0 <= i < n ==> height_at(store, process, #[trigger] shapes[i]).finite() && box_at(
                store,
                shapes[i],
            ) >= 0,
    ensures
        ({
            let best = best_to(store, process, shapes, n);
            &&& 0 <= best.row < n
            &&& best.height == height_at(store, process, shapes[best.row])
            &&& best.area == box_at(store, shapes[best.row])
            &&& is_highest(store, process, shapes, n, best.row)
        }),
    decreases n,
{
    let last = shapes[n - 1];
    let h = height_at(store, process, last);
    assert(h.finite());
    if n == 1 {
        reveal_with_fuel(best_to, 2);
        let floor = Number { bits: 0xFFF0_0000_0000_0000 };
        assert(floor.pattern() == INFINITE && floor.negative());
        lemma_magnitude_increases(h.pattern(), INFINITE as int);
        assert(floor.lt(h));
    } else {
        lemma_best(store, process, shapes, (n - 1) as nat);
        let before = best_to(store, process, shapes, (n - 1) as nat);
        assert(height_at(store, process, shapes[before.row]).finite());
        let best = best_to(store, process, shapes, n);
        let (top, area) = (
            height_at(store, process, shapes[best.row]).value(),
            box_at(store, shapes[best.row]),
        );
        assert forall|i: int| 0 <= i < n implies ({
            let other = #[trigger] shapes[i];
            let h = height_at(store, process, other).value();
            ||| h < top
            ||| h == top && box_at(store, other) < area
            ||| h == top && box_at(store, other) == area && best.row <= i
        }) by {
            if i < n - 1 {
                assert(is_highest(store, process, shapes, (n - 1) as nat, before.row));
            }
        }
    }
}

proof fn lemma_source(rails: Rails, req_node: Seq<u32>, n: nat, k: int) -> (j: int)
    requires
        0 <= k < n,
        rails.shapes_of(k).len() > 0,
    ensures
        rails.voltages_to(n).len() == rails.sources_to(req_node, n).len(),
        0 <= j < rails.sources_to(req_node, n).len(),
        rails.sources_to(req_node, n)[j] == req_node[rails.anchor(k)],
        rails.voltages_to(n)[j] == rails.intent.supply_voltage@[k],
    decreases n,
{
    lemma_source_lens(rails, req_node, (n - 1) as nat);
    let before = rails.sources_to(req_node, (n - 1) as nat);
    if k == n - 1 {
        before.len() as int
    } else {
        lemma_source(rails, req_node, (n - 1) as nat, k)
    }
}

proof fn lemma_source_lens(rails: Rails, req_node: Seq<u32>, n: nat)
    ensures
        rails.voltages_to(n).len() == rails.sources_to(req_node, n).len(),
    decreases n,
{
    if n > 0 {
        lemma_source_lens(rails, req_node, (n - 1) as nat);
    }
}

/// A rail's shapes stand together in the shape list.
proof fn lemma_shape_at(rails: Rails, n: nat, k: int, i: int)
    requires
        0 <= k < n,
        0 <= i < rails.shapes_of(k).len(),
    ensures
        0 <= rails.start(k) + i < rails.shapes_to(n).len(),
        rails.shapes_to(n)[rails.start(k) + i] == rails.shapes_of(k)[i],
    decreases n,
{
    if k < n - 1 {
        lemma_shape_at(rails, (n - 1) as nat, k, i);
    }
}

/// A rail that has a shape is held at its declared voltage, at a node of its own on the
/// highest metal it has: no conducting shape of the rail is on a higher layer than the
/// one it is held at, and none of the same height has a larger box.
pub proof fn lemma_rail_is_held_at_its_highest_metal(
    rails: Rails,
    contacts: &Contacts,
    w: &Wiring,
    out: &PowerGrid,
    k: int,
) -> (j: int)
    requires
        rails.wf(),
        is_supply_grid(rails, contacts, w, out),
        0 <= k < rails.count(),
        rails.shapes_of(k).len() > 0,
        forall|i: int|
            0 <= i < rails.shapes_of(k).len() ==> height_at(
                rails.store,
                rails.process,
                #[trigger] rails.shapes_of(k)[i],
            ).finite(),
    ensures
        0 <= j < out.source_node@.len(),
        out.source_voltage@[j] == rails.intent.supply_voltage@[k],
        out.source_node@[j] < out.node_poly@.len(),
        ({
            let shapes = rails.shapes_of(k);
            exists|at: int|
                0 <= at < shapes.len() && out.node_poly@[out.source_node@[j] as int]
                    == shapes[at] && #[trigger] is_highest(
                    rails.store,
                    rails.process,
                    shapes,
                    shapes.len(),
                    at,
                )
        }),
{
    let shapes = rails.shapes_of(k);
    let n = rails.count() as nat;
    rails.lemma_shapes(n);
    assert forall|i: int| 0 <= i < shapes.len() implies height_at(
        rails.store,
        rails.process,
        #[trigger] shapes[i],
    ).finite() && box_at(rails.store, shapes[i]) >= 0 by {
        assert(height_at(rails.store, rails.process, rails.shapes_of(k)[i]).finite());
        lemma_shape_at(rails, n, k, i);
        let poly = rails.shapes_to(n)[rails.start(k) + i];
        assert(poly.0 < rails.store.polys());
        let b = rails.store.bbox@[poly.0 as int];
        assert(b.wf());
        assert(b.spec_area() >= 0) by (nonlinear_arith)
            requires
                b.spec_area() == (b.xhi - b.xlo) * (b.yhi - b.ylo),
                b.xlo <= b.xhi,
                b.ylo <= b.yhi,
        ;
    }
    lemma_best(rails.store, rails.process, shapes, shapes.len());
    let best = best_to(rails.store, rails.process, shapes, shapes.len());
    let req = w.taps.req_node@;
    let j = lemma_source(rails, req, n, k);
    let q = rails.anchor(k);
    lemma_shape_at(rails, n, k, best.row);
    let wired = wired_taps(rails.store, w.shapes@, w.metal@, w.via@);
    lemma_wired_len(rails.store, w.shapes@, w.metal@, w.via@);
    let request = w.taps.request@;
    assert(request == wired + rails.taps_to(n));
    assert(q < w.shapes@.len());
    assert(wired[q] == centre_taps(rails.store, w.shapes@)[q]);
    assert(answers(request, w.taps.node@, req, q));
    let node = w.taps.node@[req[q] as int];
    assert(node == centre_taps(rails.store, w.shapes@)[q]);
    assert(w.shapes@.len() <= 0xFFFF_FFFF);
    assert(node.shape == q);
    assert(out.node_poly@[req[q] as int] == w.shapes@[q]);
    assert(w.shapes@[q] == shapes[best.row]);
    j
}

} // verus!
