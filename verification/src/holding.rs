//! Which polygons of a layer hold a point.
use crate::design::{ring_edges, LayerShapes};
use crate::distance::{point_dist2, seg_dist2};
use crate::geom::{Bbox, Point};
use crate::parting::{lemma_parted, lemma_through};
use crate::ring::{
    edge_of, in_region, inside, inside_ring, lemma_region_in_box, on_segment, point_in_region,
    ring_wf,
};
use vstd::prelude::*;

verus! {

/// Whether a polygon holds a point: inside its outer ring or on it, and inside none
/// of its holes.
pub open spec fn holds(shapes: LayerShapes, i: int, p: Point) -> bool {
    &&& in_region(shapes.outer(i), p)
    &&& forall|k: int|
        shapes.ring_lo(i) < k < shapes.ring_hi(i) ==> !inside(#[trigger] shapes.rings@[k]@, p)
}

/// Whether some polygon of a layer holds a point.
pub open spec fn held(shapes: LayerShapes, p: Point) -> bool {
    exists|i: int| 0 <= i < shapes.boxes@.len() && #[trigger] holds(shapes, i, p)
}

/// Every edge of every ring is among a layer's edges.
proof fn lemma_edge_listed(rings: Seq<Vec<Point>>, k: int, j: int) -> (e: int)
    requires
        0 <= k < rings.len(),
        0 <= j < rings[k]@.len(),
    ensures
        0 <= e < ring_edges(rings).len(),
        ring_edges(rings)[e] == edge_of(rings[k]@, j),
    decreases rings.len(),
{
    let rest = rings.drop_last();
    let last = rings.last()@;
    let own = Seq::new(last.len(), |i: int| edge_of(last, i));
    let all = ring_edges(rings);
    assert(all == ring_edges(rest) + own);
    if k == rings.len() - 1 {
        let e = ring_edges(rest).len() + j;
        assert(all[e as int] == own[j]);
        e as int
    } else {
        let e = lemma_edge_listed(rest, k, j);
        assert(all[e] == ring_edges(rest)[e]);
        e
    }
}

/// Where a polygon holds one of two points and not the other, an edge of the layer
/// is as near to each of them as they are to each other.
pub proof fn lemma_leaves(shapes: LayerShapes, i: int, p: Point, q: Point) -> (e: int)
    requires
        shapes.wf(),
        0 <= i < shapes.boxes@.len(),
        holds(shapes, i, p),
        !holds(shapes, i, q),
    ensures
        0 <= e < ring_edges(shapes.rings@).len(),
        seg_dist2(p, ring_edges(shapes.rings@)[e]) <= point_dist2(p, q),
        seg_dist2(q, ring_edges(shapes.rings@)[e]) <= point_dist2(p, q),
{
    let lo = shapes.ring_lo(i);
    assert(shapes.ring_lo(i) < shapes.ring_hi(i) <= shapes.rings@.len());
    let outer = shapes.outer(i);
    let (dx, dy) = (q.x - p.x, q.y - p.y);
    assert((-dx) * (-dx) == dx * dx && (-dy) * (-dy) == dy * dy) by (nonlinear_arith);
    assert(dx * dx >= 0 && dy * dy >= 0) by (nonlinear_arith);
    if in_region(outer, q) {
        let k = choose|k: int|
            shapes.ring_lo(i) < k < shapes.ring_hi(i) && inside(#[trigger] shapes.rings@[k]@, q);
        let j = lemma_parted(shapes.rings@[k]@, p, q);
        lemma_edge_listed(shapes.rings@, k, j)
    } else if inside(outer, p) {
        let j = lemma_parted(outer, p, q);
        lemma_edge_listed(shapes.rings@, lo, j)
    } else {
        let j = choose|j: int| 0 <= j < outer.len() && on_segment(#[trigger] edge_of(outer, j), p);
        lemma_through(edge_of(outer, j), p, p);
        lemma_through(edge_of(outer, j), q, p);
        assert(point_dist2(p, p) == 0) by (nonlinear_arith)
            requires
                point_dist2(p, p) == (p.x - p.x) * (p.x - p.x) + (p.y - p.y) * (p.y - p.y),
        ;
        lemma_edge_listed(shapes.rings@, lo, j)
    }
}

proof fn lemma_rings_wf(shapes: LayerShapes, k: int)
    requires
        shapes.wf(),
        0 <= k < shapes.rings@.len(),
    ensures
        ring_wf(shapes.rings@[k]@),
{
    let ring = shapes.rings@[k]@;
    assert forall|j: int| 0 <= j < ring.len() implies (#[trigger] ring[j]).wf() by {
        assert(shapes.rings@[k]@[j].wf());
    }
}

/// Whether a polygon holds a point.
fn polygon_holds(shapes: &LayerShapes, i: u32, p: Point) -> (r: bool)
    requires
        shapes.wf(),
        i < shapes.boxes@.len(),
        p.wf(),
    ensures
        r == holds(*shapes, i as int, p),
{
    assert(shapes.ring_lo(i as int) < shapes.ring_hi(i as int) <= shapes.rings@.len());
    let starts: usize = shapes.ring_start.len();
    assert(i + 1 < starts);
    let lo: u32 = shapes.ring_start[i as usize];
    let hi: u32 = shapes.ring_start[i as usize + 1];
    proof {
        lemma_rings_wf(*shapes, lo as int);
    }
    if !point_in_region(&shapes.rings[lo as usize], p) {
        return false;
    }
    let mut k: u32 = lo + 1;
    while k < hi
        invariant
            shapes.wf(),
            p.wf(),
            i < shapes.boxes@.len(),
            lo == shapes.ring_lo(i as int),
            hi == shapes.ring_hi(i as int),
            lo < k <= hi <= shapes.rings@.len(),
            forall|j: int| lo < j < k ==> !inside(#[trigger] shapes.rings@[j]@, p),
        decreases hi - k,
    {
        proof {
            lemma_rings_wf(*shapes, k as int);
        }
        if inside_ring(&shapes.rings[k as usize], p) {
            return false;
        }
        k = k + 1;
    }
    true
}

/// Whether a list names every polygon of a layer that holds a point of a box.
pub open spec fn names_holders(shapes: LayerShapes, b: Bbox, list: Seq<u32>) -> bool {
    &&& forall|k: int| 0 <= k < list.len() ==> (#[trigger] list[k]) < shapes.boxes@.len()
    &&& forall|i: int, p: Point|
        0 <= i < shapes.boxes@.len() && b.has(p.x as int, p.y as int) && #[trigger] holds(
            shapes,
            i,
            p,
        ) ==> list.contains(i as u32)
}

/// The polygons that may hold a point of a box.
pub fn holders(shapes: &LayerShapes, b: Bbox) -> (r: Vec<u32>)
    requires
        shapes.wf(),
    ensures
        names_holders(*shapes, b, r@),
{
    let mut r: Vec<u32> = Vec::new();
    let mut i: usize = 0;
    while i < shapes.boxes.len()
        invariant
            shapes.wf(),
            i <= shapes.boxes@.len(),
            forall|k: int| 0 <= k < r@.len() ==> (#[trigger] r@[k]) < i,
            forall|k: int|
                0 <= k < i && b.meets(#[trigger] shapes.boxes@[k]) ==> r@.contains(k as u32),
        decreases shapes.boxes@.len() - i,
    {
        proof {
            lemma_few_polygons(*shapes, i as int);
        }
        let ghost was = r@;
        if b.overlaps(shapes.boxes[i]) {
            r.push(i as u32);
            assert(r@[was.len() as int] == i as u32);
            assert forall|k: int| 0 <= k < i && b.meets(#[trigger] shapes.boxes@[k]) implies r@.contains(
                k as u32,
            ) by {
                let at = choose|at: int| 0 <= at < was.len() && was[at] == k as u32;
                assert(r@[at] == k as u32);
            }
        }
        i = i + 1;
    }
    assert forall|i: int, p: Point|
        0 <= i < shapes.boxes@.len() && b.has(p.x as int, p.y as int) && #[trigger] holds(
            *shapes,
            i,
            p,
        ) implies r@.contains(i as u32) by {
        let own = shapes.boxes@[i];
        let ring = shapes.outer(i);
        assert forall|j: int| 0 <= j < ring.len() implies own.has(
            (#[trigger] ring[j]).x as int,
            ring[j].y as int,
        ) by {
            assert(shapes.boxes@[i].has(shapes.outer(i)[j].x as int, shapes.outer(i)[j].y as int));
        }
        lemma_region_in_box(ring, own, p);
        assert(b.meets(shapes.boxes@[i]));
    }
    r
}

/// A layer has fewer polygons than its ring index can count.
proof fn lemma_few_polygons(shapes: LayerShapes, i: int)
    requires
        shapes.wf(),
        0 <= i <= shapes.boxes@.len(),
    ensures
        i <= shapes.ring_start@[i] <= 0xFFFF_FFFF,
    decreases i,
{
    if i > 0 {
        lemma_few_polygons(shapes, i - 1);
        assert(shapes.ring_lo(i - 1) < shapes.ring_hi(i - 1));
    }
}

/// Whether a polygon holds a point of a box, given the box's holders.
pub fn holds_point(shapes: &LayerShapes, b: Bbox, list: &Vec<u32>, p: Point) -> (r: bool)
    requires
        shapes.wf(),
        p.wf(),
        names_holders(*shapes, b, list@),
        b.has(p.x as int, p.y as int),
    ensures
        r == held(*shapes, p),
{
    let mut k: usize = 0;
    while k < list.len()
        invariant
            shapes.wf(),
            p.wf(),
            names_holders(*shapes, b, list@),
            b.has(p.x as int, p.y as int),
            k <= list@.len(),
            forall|j: int| 0 <= j < k ==> !holds(*shapes, #[trigger] list@[j] as int, p),
        decreases list@.len() - k,
    {
        assert(list@[k as int] < shapes.boxes@.len());
        if polygon_holds(shapes, list[k], p) {
            return true;
        }
        k = k + 1;
    }
    assert forall|i: int| 0 <= i < shapes.boxes@.len() implies !#[trigger] holds(*shapes, i, p) by {
        if holds(*shapes, i, p) {
            lemma_few_polygons(*shapes, i);
            let at = choose|at: int| 0 <= at < list@.len() && list@[at] == i as u32;
            assert(!holds(*shapes, list@[at] as int, p));
        }
    }
    false
}

} // verus!
