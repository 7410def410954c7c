//! The furthest point of a region from its ties.
use crate::design::{base_layer, layer_exists, ring_edges, Design, LayerShapes};
use crate::distance::{
    is_root, is_root_up, isqrt, isqrt_ceil, lemma_one_root, lemma_one_root_up, lemma_prune,
    lemma_seg_dist2_positive, point_dist2, point_seg_dist2, point_seg_dist2_down, seg_dist2,
    seg_dist2_down,
};
use crate::geom::{in_domain, Bbox, Point, Seg, MAX_ABS_DBU};
use crate::grid::{segs_wf, SegGrid};
use crate::holding::{held, holders, holds, holds_point, lemma_leaves, names_holders};
use crate::model::{LayerId, LayerRef, PolyId, StrId};
use crate::report::{
    all_found, all_runs, ended, lemma_push_result, record_run, Measurement, Outcome, RowResult,
    RuleRun, Severity, Violation, Violations,
};
use crate::ring::{
    edge_of, in_region, lemma_region_in_box, next_of, point_in_region, ring_edge, ring_wf,
};
use crate::rules::supply::layer_len;
use crate::ruleset::RuleHead;
use crate::store::GeometryStore;
use vstd::prelude::*;

verus! {

/// The edges of a tie layer.
pub open spec fn tie_edges(ties: LayerShapes) -> Seq<Seg> {
    ring_edges(ties.rings@)
}

/// Whether some edge of a tie is within a squared distance of a point.
pub open spec fn near(ties: LayerShapes, p: Point, d2: int) -> bool {
    exists|i: int|
        0 <= i < tie_edges(ties).len() && #[trigger] seg_dist2(p, tie_edges(ties)[i]) <= d2
}

/// Whether a squared distance is that of a point to the nearest edge of a tie.
pub open spec fn at_edge_distance(ties: LayerShapes, p: Point, d2: int) -> bool {
    near(ties, p, d2) && forall|i: int|
        0 <= i < tie_edges(ties).len() ==> #[trigger] seg_dist2(p, tie_edges(ties)[i]) >= d2
}

/// The squared distance from a point to the nearest edge of a tie.
pub open spec fn edge_dist2(ties: LayerShapes, p: Point) -> int {
    choose|d2: int| at_edge_distance(ties, p, d2)
}

/// Whether a point is in a tie, or within a squared distance of one.
pub open spec fn within(ties: LayerShapes, p: Point, d2: int) -> bool {
    held(ties, p) && 0 <= d2 || near(ties, p, d2)
}

/// Whether a squared distance is that of a point to its nearest tie: none where a
/// tie holds the point.
pub open spec fn at_distance(ties: LayerShapes, p: Point, d2: int) -> bool {
    if held(ties, p) { d2 == 0 } else { at_edge_distance(ties, p, d2) }
}

/// The points of a region: its vertices, and everything its ring encloses.
pub open spec fn region_point(ring: Seq<Point>, p: Point) -> bool {
    ring.contains(p) || in_region(ring, p)
}

/// Whether every point of a region is in a tie, or within a squared distance of one.
pub open spec fn all_within(ties: LayerShapes, ring: Seq<Point>, d2: int) -> bool {
    forall|x: Point| #[trigger] region_point(ring, x) && x.wf() ==> within(ties, x, d2)
}

/// The squared distance from a point to its nearest tie.
pub open spec fn tie_dist2(ties: LayerShapes, p: Point) -> int {
    if held(ties, p) { 0 } else { edge_dist2(ties, p) }
}

proof fn lemma_edge_dist2(ties: LayerShapes, p: Point, d2: int)
    requires
        at_edge_distance(ties, p, d2),
    ensures
        edge_dist2(ties, p) == d2,
{
    let e = edge_dist2(ties, p);
    let edges = tie_edges(ties);
    assert(at_edge_distance(ties, p, e));
    let i = choose|i: int| 0 <= i < edges.len() && #[trigger] seg_dist2(p, edges[i]) <= d2;
    let j = choose|j: int| 0 <= j < edges.len() && #[trigger] seg_dist2(p, edges[j]) <= e;
    assert(seg_dist2(p, edges[i]) >= e);
    assert(seg_dist2(p, edges[j]) >= d2);
}

/// The square root of a squared distance, rounded down.
pub open spec fn root_of(d2: int) -> int {
    choose|r: int| is_root(d2, r)
}

/// The square root of a squared distance, rounded up.
pub open spec fn root_up(d2: int) -> int {
    choose|r: int| is_root_up(d2, r)
}

/// The furthest point found so far, and its squared distance.
pub ghost struct Furthest {
    pub at: Point,
    pub d2: int,
}

/// A block of integer points, closed on both ends.
pub ghost struct Block {
    pub xlo: int,
    pub ylo: int,
    pub xhi: int,
    pub yhi: int,
}

impl Block {
    /// The point a block is probed at.
    pub open spec fn middle(self) -> Point {
        Point {
            x: (self.xlo + (self.xhi - self.xlo) / 2) as i64,
            y: (self.ylo + (self.yhi - self.ylo) / 2) as i64,
        }
    }

    /// Whether the block is of points a layout can hold.
    pub open spec fn bounded(self) -> bool {
        &&& in_domain(self.xlo)
        &&& in_domain(self.ylo)
        &&& in_domain(self.xhi)
        &&& in_domain(self.yhi)
    }

    /// Whether a point is in the block.
    pub open spec fn has(self, p: Point) -> bool {
        self.xlo <= p.x <= self.xhi && self.ylo <= p.y <= self.yhi
    }

    /// The squared distance from a point of the block to its furthest corner.
    pub open spec fn reach2(self, p: Point) -> int {
        let rx = if self.xhi - p.x > p.x - self.xlo { self.xhi - p.x } else { p.x - self.xlo };
        let ry = if self.yhi - p.y > p.y - self.ylo { self.yhi - p.y } else { p.y - self.ylo };
        rx * rx + ry * ry
    }

    /// Whether the probe shows that no point of the block is further than the furthest
    /// found: the probe is near enough to a tie, or it is in one and no edge reaches
    /// the block.
    pub open spec fn pruned(self, ties: LayerShapes, best: Furthest) -> bool {
        let here = self.middle();
        let slack = root_of(best.d2) - root_up(self.reach2(here));
        ||| slack >= 0 && tie_dist2(ties, here) < slack * slack
        ||| held(ties, here) && edge_dist2(ties, here) > self.reach2(here)
    }
}

/// The first of a ring's first `n` vertices as far from a tie as any of them.
pub open spec fn furthest_vertex(ties: LayerShapes, ring: Seq<Point>, n: nat) -> Furthest
    decreases n,
{
    if n == 0 {
        Furthest { at: ring[0], d2: -1 }
    } else {
        let best = furthest_vertex(ties, ring, (n - 1) as nat);
        let d2 = tie_dist2(ties, ring[n - 1]);
        if d2 > best.d2 { Furthest { at: ring[n - 1], d2 } } else { best }
    }
}

/// What searching a block makes of the furthest point found before it: the block
/// is probed at its middle, and where it may still hold a further point it is
/// quartered and the quarters are searched, the upper right one first.
pub open spec fn search(
    ties: LayerShapes,
    ring: Seq<Point>,
    b: Block,
    best: Furthest,
) -> Furthest
    decreases (b.xhi - b.xlo) + (b.yhi - b.ylo),
{
    let here = b.middle();
    let d2 = tie_dist2(ties, here);
    if b.xlo > b.xhi || b.ylo > b.yhi || b.pruned(ties, best) {
        best
    } else {
        let found = if d2 > best.d2 && in_region(ring, here) {
            Furthest { at: here, d2 }
        } else {
            best
        };
        let cx = b.xlo + (b.xhi - b.xlo) / 2;
        let cy = b.ylo + (b.yhi - b.ylo) / 2;
        if cx == b.xhi && cy == b.yhi {
            found
        } else {
            let upper_right = if cx < b.xhi && cy < b.yhi {
                search(ties, ring, Block { xlo: cx + 1, ylo: cy + 1, ..b }, found)
            } else {
                found
            };
            let upper_left = if cy < b.yhi {
                search(ties, ring, Block { ylo: cy + 1, xhi: cx, ..b }, upper_right)
            } else {
                upper_right
            };
            let lower_right = if cx < b.xhi {
                search(ties, ring, Block { xlo: cx + 1, yhi: cy, ..b }, upper_left)
            } else {
                upper_left
            };
            search(ties, ring, Block { xhi: cx, yhi: cy, ..b }, lower_right)
        }
    }
}

/// The point of a region furthest from any tie and that distance squared, resolved
/// only above `floor`: the furthest vertex, and what a search of the region's box
/// makes of it.
pub open spec fn furthest(
    ties: LayerShapes,
    ring: Seq<Point>,
    bbox: Bbox,
    floor: int,
) -> Furthest {
    let vertex = furthest_vertex(ties, ring, ring.len());
    search(
        ties,
        ring,
        Block {
            xlo: bbox.xlo as int,
            ylo: bbox.ylo as int,
            xhi: bbox.xhi as int,
            yhi: bbox.yhi as int,
        },
        Furthest { d2: if vertex.d2 > floor { vertex.d2 } else { floor }, ..vertex },
    )
}

/// One axis-aligned block of integer points, closed on both ends: the unit of
/// work of the search.
#[derive(Clone, Copy)]
struct Cell {
    xlo: i64,
    ylo: i64,
    xhi: i64,
    yhi: i64,
    /// The tie nearest the parent block's probe.
    hint: u32,
}

impl Cell {
    spec fn wf(self, count: int) -> bool {
        &&& in_domain(self.xlo as int)
        &&& in_domain(self.ylo as int)
        &&& in_domain(self.xhi as int)
        &&& in_domain(self.yhi as int)
        &&& self.xlo <= self.xhi
        &&& self.ylo <= self.yhi
        &&& self.hint < count
    }

    spec fn block(self) -> Block {
        Block {
            xlo: self.xlo as int,
            ylo: self.ylo as int,
            xhi: self.xhi as int,
            yhi: self.yhi as int,
        }
    }

    /// Whether the block is sound and lies in a box.
    spec fn fits(self, count: int, b: Bbox) -> bool {
        self.wf(count) && b.xlo <= self.xlo && self.xhi <= b.xhi && b.ylo <= self.ylo && self.yhi <= b.yhi
    }

    spec fn points(self) -> int {
        (self.xhi - self.xlo + 1) * (self.yhi - self.ylo + 1)
    }
}

/// What searching every block of a stack makes of the furthest point found, the
/// last block first.
spec fn search_all(
    ties: LayerShapes,
    ring: Seq<Point>,
    stack: Seq<Cell>,
    best: Furthest,
) -> Furthest
    decreases stack.len(),
{
    if stack.len() == 0 {
        best
    } else {
        search_all(
            ties,
            ring,
            stack.drop_last(),
            search(ties, ring, stack.last().block(), best),
        )
    }
}

proof fn lemma_search_push(
    ties: LayerShapes,
    ring: Seq<Point>,
    stack: Seq<Cell>,
    c: Cell,
    best: Furthest,
)
    ensures
        search_all(ties, ring, stack.push(c), best) == search_all(
            ties,
            ring,
            stack,
            search(ties, ring, c.block(), best),
        ),
{
    assert(stack.push(c).drop_last() =~= stack);
}

/// What is left to search: falls with every block popped, split or not.
spec fn weight(stack: Seq<Cell>) -> int
    decreases stack.len(),
{
    if stack.len() == 0 {
        0
    } else {
        weight(stack.drop_last()) + 2 * stack.last().points() - 1
    }
}

proof fn lemma_weight_push(stack: Seq<Cell>, c: Cell)
    ensures
        weight(stack.push(c)) == weight(stack) + 2 * c.points() - 1,
{
    assert(stack.push(c).drop_last() =~= stack);
}

proof fn lemma_weight_positive(stack: Seq<Cell>, count: int)
    requires
        forall|i: int| 0 <= i < stack.len() ==> (#[trigger] stack[i]).wf(count),
    ensures
        weight(stack) >= 0,
    decreases stack.len(),
{
    if stack.len() > 0 {
        let rest = stack.drop_last();
        assert forall|i: int| 0 <= i < rest.len() implies (#[trigger] rest[i]).wf(count) by {
            assert(stack[i].wf(count));
        }
        lemma_weight_positive(rest, count);
        lemma_points_positive(stack.last(), count);
    }
}

proof fn lemma_points_positive(c: Cell, count: int)
    requires
        c.wf(count),
    ensures
        c.points() >= 1,
{
    let (w, h) = (c.xhi - c.xlo + 1, c.yhi - c.ylo + 1);
    assert(w * h >= 1) by (nonlinear_arith)
        requires
            w >= 1,
            h >= 1,
    ;
}

/// Whether no point of a block can be further from a tie than the best found.
fn prunes(root: i64, reach: i64, d2: i128) -> (r: bool)
    requires
        0 <= root <= 0x2000_0000_0000,
        0 <= reach <= 0x2000_0000_0001,
        0 <= d2,
    ensures
        r == (root >= reach && d2 < (root - reach) * (root - reach)),
{
    let slack: i128 = (root - reach) as i128;
    if slack < 0 {
        return false;
    }
    assert(0 <= slack * slack <= 0x2000_0000_0000 * 0x2000_0000_0000) by (nonlinear_arith)
        requires
            0 <= slack <= 0x2000_0000_0000,
    ;
    d2 < slack * slack
}

proof fn lemma_within_grows(ties: LayerShapes, p: Point, a: int, b: int)
    requires
        within(ties, p, a),
        0 <= a <= b,
    ensures
        within(ties, p, b),
{
    if near(ties, p, a) {
        let edges = tie_edges(ties);
        let i = choose|i: int| 0 <= i < edges.len() && #[trigger] seg_dist2(p, edges[i]) <= a;
        assert(seg_dist2(p, tie_edges(ties)[i]) <= b);
    }
}

/// A number that is not negative has a root.
proof fn lemma_has_root(v: int)
    requires
        v >= 0,
    ensures
        is_root(v, root_of(v)),
    decreases v,
{
    assert(is_root(0, 0));
    if v > 0 {
        lemma_has_root(v - 1);
        let r = root_of(v - 1);
        if (r + 1) * (r + 1) <= v {
            assert((r + 2) * (r + 2) > (r + 1) * (r + 1)) by (nonlinear_arith)
                requires
                    r >= 0,
            ;
            assert(is_root(v, r + 1));
        } else {
            assert(is_root(v, r));
        }
    }
}

proof fn lemma_has_root_up(v: int)
    requires
        v >= 0,
    ensures
        is_root_up(v, root_up(v)),
{
    lemma_has_root(v);
    let r = root_of(v);
    if r * r == v {
        assert(r > 0 ==> (r - 1) * (r - 1) < r * r) by (nonlinear_arith);
        assert(is_root_up(v, r));
    } else {
        assert((r + 1 - 1) * (r + 1 - 1) == r * r) by (nonlinear_arith);
        assert(is_root_up(v, r + 1));
    }
}

/// A probe within reach of the whole block, or in a tie that covers it, clears every
/// point of it.
proof fn lemma_pruned(ties: LayerShapes, b: Block, best: Furthest, x: Point)
    requires
        ties.wf(),
        tie_edges(ties).len() > 0,
        best.d2 >= 0,
        b.bounded(),
        b.has(x),
        b.pruned(ties, best),
    ensures
        within(ties, x, best.d2),
{
    let here = b.middle();
    let edges = tie_edges(ties);
    let (dx, dy) = (x.x - here.x, x.y - here.y);
    let rx = if b.xhi - here.x > here.x - b.xlo { b.xhi - here.x } else { here.x - b.xlo };
    let ry = if b.yhi - here.y > here.y - b.ylo { b.yhi - here.y } else { here.y - b.ylo };
    assert(dx * dx <= rx * rx) by (nonlinear_arith)
        requires
            -rx <= dx <= rx,
    ;
    assert(dy * dy <= ry * ry) by (nonlinear_arith)
        requires
            -ry <= dy <= ry,
    ;
    assert(dx * dx >= 0 && dy * dy >= 0) by (nonlinear_arith);
    assert(point_dist2(here, x) <= b.reach2(here));
    lemma_has_root(best.d2);
    lemma_has_root_up(b.reach2(here));
    let root = root_of(best.d2);
    let reach = root_up(b.reach2(here));
    lemma_nearest_edge(ties, here);
    if held(ties, here) {
        let i = choose|i: int| 0 <= i < ties.boxes@.len() && #[trigger] holds(ties, i, here);
        if !holds(ties, i, x) {
            let e = lemma_leaves(ties, i, here, x);
            assert(seg_dist2(here, edges[e]) >= edge_dist2(ties, here));
            assert(reach <= root && reach * reach <= best.d2) by (nonlinear_arith)
                requires
                    root - reach >= 0,
                    0 <= reach,
                    root * root <= best.d2,
            ;
            assert(seg_dist2(x, tie_edges(ties)[e]) <= best.d2);
        }
    } else {
        let d2 = edge_dist2(ties, here);
        let i = choose|i: int| 0 <= i < edges.len() && #[trigger] seg_dist2(here, edges[i]) <= d2;
        lemma_prune(here, x, edges[i], root, reach);
        assert(seg_dist2(x, tie_edges(ties)[i]) <= best.d2);
    }
}

/// What a search leaves behind: the best before it or a further point of the
/// region, and no region point of the block further than that.
pub open spec fn searched(
    ties: LayerShapes,
    ring: Seq<Point>,
    b: Block,
    best: Furthest,
    r: Furthest,
) -> bool {
    &&& r == best || r.d2 > best.d2 && r.at.wf() && in_region(ring, r.at) && at_distance(
        ties,
        r.at,
        r.d2,
    )
    &&& forall|x: Point| #[trigger] in_region(ring, x) && b.has(x) ==> within(ties, x, r.d2)
}

proof fn lemma_search(ties: LayerShapes, ring: Seq<Point>, b: Block, best: Furthest)
    requires
        ties.wf(),
        tie_edges(ties).len() > 0,
        best.d2 >= 0,
        b.bounded(),
    ensures
        searched(ties, ring, b, best, search(ties, ring, b, best)),
    decreases (b.xhi - b.xlo) + (b.yhi - b.ylo),
{
    let r = search(ties, ring, b, best);
    let here = b.middle();
    let d2 = tie_dist2(ties, here);
    if b.xlo > b.xhi || b.ylo > b.yhi {
    } else if b.pruned(ties, best) {
        assert forall|x: Point| #[trigger] in_region(ring, x) && b.has(x) implies within(
            ties,
            x,
            r.d2,
        ) by {
            lemma_pruned(ties, b, best, x);
        }
    } else {
        lemma_nearest_tie(ties, here);
        let found = if d2 > best.d2 && in_region(ring, here) {
            Furthest { at: here, d2 }
        } else {
            best
        };
        let cx = b.xlo + (b.xhi - b.xlo) / 2;
        let cy = b.ylo + (b.yhi - b.ylo) / 2;
        if cx == b.xhi && cy == b.yhi {
            assert forall|x: Point| #[trigger] in_region(ring, x) && b.has(x) implies within(
                ties,
                x,
                r.d2,
            ) by {
                assert(x == here);
                lemma_within_grows(ties, x, d2, r.d2);
            }
        } else {
            let q1 = Block { xlo: cx + 1, ylo: cy + 1, ..b };
            let q2 = Block { ylo: cy + 1, xhi: cx, ..b };
            let q3 = Block { xlo: cx + 1, yhi: cy, ..b };
            let q4 = Block { xhi: cx, yhi: cy, ..b };
            let f1 = if cx < b.xhi && cy < b.yhi { search(ties, ring, q1, found) } else { found };
            let f2 = if cy < b.yhi { search(ties, ring, q2, f1) } else { f1 };
            let f3 = if cx < b.xhi { search(ties, ring, q3, f2) } else { f2 };
            if cx < b.xhi && cy < b.yhi {
                lemma_search(ties, ring, q1, found);
            }
            if cy < b.yhi {
                lemma_search(ties, ring, q2, f1);
            }
            if cx < b.xhi {
                lemma_search(ties, ring, q3, f2);
            }
            lemma_search(ties, ring, q4, f3);
            assert forall|x: Point| #[trigger] in_region(ring, x) && b.has(x) implies within(
                ties,
                x,
                r.d2,
            ) by {
                if x.x > cx && x.y > cy {
                    assert(q1.has(x));
                    lemma_within_grows(ties, x, f1.d2, r.d2);
                } else if x.y > cy {
                    assert(q2.has(x));
                    lemma_within_grows(ties, x, f2.d2, r.d2);
                } else if x.x > cx {
                    assert(q3.has(x));
                    lemma_within_grows(ties, x, f3.d2, r.d2);
                } else {
                    assert(q4.has(x));
                }
            }
        }
    }
}

proof fn lemma_furthest_vertex(ties: LayerShapes, ring: Seq<Point>, n: nat)
    requires
        tie_edges(ties).len() > 0,
        0 < n <= ring.len(),
    ensures
        ({
            let f = furthest_vertex(ties, ring, n);
            &&& ring.contains(f.at)
            &&& f.d2 >= 0
            &&& at_distance(ties, f.at, f.d2)
            &&& forall|i: int| 0 <= i < n ==> within(ties, #[trigger] ring[i], f.d2)
        }),
    decreases n,
{
    let last = ring[n - 1];
    let f = furthest_vertex(ties, ring, n);
    lemma_nearest_tie(ties, last);
    let d2 = tie_dist2(ties, last);
    lemma_not_negative(ties, last, d2);
    assert(ring.contains(last));
    if n > 1 {
        lemma_furthest_vertex(ties, ring, (n - 1) as nat);
    }
    let best = furthest_vertex(ties, ring, (n - 1) as nat);
    assert forall|i: int| 0 <= i < n implies within(ties, #[trigger] ring[i], f.d2) by {
        if i < n - 1 {
            lemma_within_grows(ties, ring[i], best.d2, f.d2);
        } else {
            lemma_within_grows(ties, ring[i], d2, f.d2);
        }
    }
}

proof fn lemma_not_negative(ties: LayerShapes, p: Point, d2: int)
    requires
        at_distance(ties, p, d2),
    ensures
        d2 >= 0,
{
    if !held(ties, p) {
        let edges = tie_edges(ties);
        let i = choose|i: int| 0 <= i < edges.len() && #[trigger] seg_dist2(p, edges[i]) <= d2;
        lemma_seg_dist2_positive(p, edges[i]);
    }
}

/// The furthest point of a region is a point of it, and no point of the region is
/// further from its nearest tie: the search finds the true maximum wherever that is
/// above the floor.
pub proof fn lemma_furthest_is_the_maximum(
    ties: LayerShapes,
    ring: Seq<Point>,
    bbox: Bbox,
    floor: int,
)
    requires
        ring_wf(ring),
        ring.len() > 0,
        bbox.wf(),
        forall|i: int|
            0 <= i < ring.len() ==> bbox.has((#[trigger] ring[i]).x as int, ring[i].y as int),
        ties.wf(),
        tie_edges(ties).len() > 0,
    ensures
        ({
            let f = furthest(ties, ring, bbox, floor);
            &&& f.at.wf()
            &&& 0 <= f.d2
            &&& floor <= f.d2
            &&& f.d2 > floor ==> region_point(ring, f.at) && at_distance(ties, f.at, f.d2)
            &&& all_within(ties, ring, f.d2)
        }),
{
    let vertex = furthest_vertex(ties, ring, ring.len());
    lemma_furthest_vertex(ties, ring, ring.len());
    let best = Furthest { d2: if vertex.d2 > floor { vertex.d2 } else { floor }, ..vertex };
    let b = Block {
        xlo: bbox.xlo as int,
        ylo: bbox.ylo as int,
        xhi: bbox.xhi as int,
        yhi: bbox.yhi as int,
    };
    lemma_search(ties, ring, b, best);
    let f = furthest(ties, ring, bbox, floor);
    let k = choose|k: int| 0 <= k < ring.len() && ring[k] == vertex.at;
    assert(ring[k].wf());
    assert forall|x: Point| #[trigger] region_point(ring, x) && x.wf() implies within(
        ties,
        x,
        f.d2,
    ) by {
        if in_region(ring, x) {
            lemma_region_in_box(ring, bbox, x);
            assert(b.has(x));
        } else {
            let i = choose|i: int| 0 <= i < ring.len() && ring[i] == x;
            assert(within(ties, ring[i], vertex.d2));
            lemma_within_grows(ties, x, vertex.d2, f.d2);
        }
    }
}

/// The squared distance from a block's probe to its furthest corner, and its root
/// rounded up.
fn reach_of(c: Cell, here: Point, Ghost(count): Ghost<int>) -> (r: (i128, i64))
    requires
        c.wf(count),
        c.xlo <= here.x <= c.xhi,
        c.ylo <= here.y <= c.yhi,
    ensures
        r.0 == c.block().reach2(here),
        0 <= r.1 <= 0x2000_0000_0001,
        is_root_up(r.0 as int, r.1 as int),
{
    let rx: i64 = if c.xhi - here.x > here.x - c.xlo { c.xhi - here.x } else { here.x - c.xlo };
    let ry: i64 = if c.yhi - here.y > here.y - c.ylo { c.yhi - here.y } else { here.y - c.ylo };
    assert(0 <= rx * rx <= 0x200_0000_0000 * 0x200_0000_0000) by (nonlinear_arith)
        requires
            0 <= rx <= 0x200_0000_0000,
    ;
    assert(0 <= ry * ry <= 0x200_0000_0000 * 0x200_0000_0000) by (nonlinear_arith)
        requires
            0 <= ry <= 0x200_0000_0000,
    ;
    let reach2: i128 = rx as i128 * rx as i128 + ry as i128 * ry as i128;
    (reach2, isqrt_ceil(reach2))
}

/// What searching the quarters of a block makes of the furthest point found.
spec fn quarters(
    ties: LayerShapes,
    ring: Seq<Point>,
    b: Block,
    cx: int,
    cy: int,
    best: Furthest,
) -> Furthest {
    let upper_right = if cx < b.xhi && cy < b.yhi {
        search(ties, ring, Block { xlo: cx + 1, ylo: cy + 1, ..b }, best)
    } else {
        best
    };
    let upper_left = if cy < b.yhi {
        search(ties, ring, Block { ylo: cy + 1, xhi: cx, ..b }, upper_right)
    } else {
        upper_right
    };
    let lower_right = if cx < b.xhi {
        search(ties, ring, Block { xlo: cx + 1, yhi: cy, ..b }, upper_left)
    } else {
        upper_left
    };
    search(ties, ring, Block { xhi: cx, yhi: cy, ..b }, lower_right)
}

/// Push the blocks a block quarters into.
fn split(
    stack: &mut Vec<Cell>,
    c: Cell,
    cx: i64,
    cy: i64,
    hint: u32,
    Ghost(bbox): Ghost<Bbox>,
    Ghost(count): Ghost<int>,
)
    requires
        c.fits(count, bbox),
        hint < count,
        c.xlo <= cx <= c.xhi,
        c.ylo <= cy <= c.yhi,
        cx < c.xhi || cy < c.yhi,
        forall|i: int|
            0 <= i < old(stack)@.len() ==> (#[trigger] old(stack)@[i]).fits(count, bbox),
    ensures
        forall|i: int|
            0 <= i < final(stack)@.len() ==> (#[trigger] final(stack)@[i]).fits(count, bbox),
        weight(final(stack)@) < weight(old(stack)@) + 2 * c.points() - 1,
        forall|ties: LayerShapes, ring: Seq<Point>, best: Furthest| #[trigger]
            search_all(ties, ring, final(stack)@, best) == search_all(
                ties,
                ring,
                old(stack)@,
                quarters(ties, ring, c.block(), cx as int, cy as int, best),
            ),
{
    let ghost start = stack@;
    let a = Cell { xlo: c.xlo, ylo: c.ylo, xhi: cx, yhi: cy, hint };
    let wide: bool = cx < c.xhi;
    let tall: bool = cy < c.yhi;
    proof {
        let (w, h) = (c.xhi - c.xlo + 1, c.yhi - c.ylo + 1);
        let (w1, h1) = (cx - c.xlo + 1, cy - c.ylo + 1);
        assert(
            w * h == w1 * h1 + (w - w1) * h1 + w1 * (h - h1) + (w - w1) * (h - h1)
        ) by (nonlinear_arith);
        assert(w == w1 ==> (w - w1) * h1 == 0 && (w - w1) * (h - h1) == 0) by (nonlinear_arith);
        assert(h == h1 ==> w1 * (h - h1) == 0 && (w - w1) * (h - h1) == 0) by (nonlinear_arith);
        lemma_weight_push(start, a);
    }
    stack.push(a);
    let ghost s1 = stack@;
    assert forall|ties: LayerShapes, ring: Seq<Point>, best: Furthest| #[trigger]
        search_all(ties, ring, s1, best) == search_all(
        ties,
        ring,
        start,
        search(ties, ring, a.block(), best),
    ) by {
        lemma_search_push(ties, ring, start, a, best);
    }
    assert(s1[start.len() as int] == a);
    if wide {
        let b = Cell { xlo: cx + 1, ylo: c.ylo, xhi: c.xhi, yhi: cy, hint };
        proof {
            lemma_weight_push(s1, b);
        }
        stack.push(b);
        assert forall|ties: LayerShapes, ring: Seq<Point>, best: Furthest| #[trigger]
            search_all(ties, ring, stack@, best) == search_all(
            ties,
            ring,
            s1,
            search(ties, ring, b.block(), best),
        ) by {
            lemma_search_push(ties, ring, s1, b, best);
        }
        assert(stack@[s1.len() as int] == b);
    }
    let ghost s2 = stack@;
    if tall {
        let d = Cell { xlo: c.xlo, ylo: cy + 1, xhi: cx, yhi: c.yhi, hint };
        proof {
            lemma_weight_push(s2, d);
        }
        stack.push(d);
        assert forall|ties: LayerShapes, ring: Seq<Point>, best: Furthest| #[trigger]
            search_all(ties, ring, stack@, best) == search_all(
            ties,
            ring,
            s2,
            search(ties, ring, d.block(), best),
        ) by {
            lemma_search_push(ties, ring, s2, d, best);
        }
        assert(stack@[s2.len() as int] == d);
    }
    let ghost s3 = stack@;
    if wide && tall {
        let e = Cell { xlo: cx + 1, ylo: cy + 1, xhi: c.xhi, yhi: c.yhi, hint };
        proof {
            lemma_weight_push(s3, e);
        }
        stack.push(e);
        assert forall|ties: LayerShapes, ring: Seq<Point>, best: Furthest| #[trigger]
            search_all(ties, ring, stack@, best) == search_all(
            ties,
            ring,
            s3,
            search(ties, ring, e.block(), best),
        ) by {
            lemma_search_push(ties, ring, s3, e, best);
        }
        assert(stack@[s3.len() as int] == e);
    }
    proof {
        let end = stack@;
        let q = c.block();
        assert(a.block() == (Block { xhi: cx as int, yhi: cy as int, ..q }));
        assert forall|ties: LayerShapes, ring: Seq<Point>, best: Furthest| #[trigger]
            search_all(ties, ring, end, best) == search_all(
            ties,
            ring,
            start,
            quarters(ties, ring, q, cx as int, cy as int, best),
        ) by {
            let b1 = if wide && tall {
                search(ties, ring, Block { xlo: cx + 1, ylo: cy + 1, ..q }, best)
            } else {
                best
            };
            assert(search_all(ties, ring, end, best) == search_all(ties, ring, s3, b1));
            let b2 = if tall {
                search(ties, ring, Block { ylo: cy + 1, xhi: cx as int, ..q }, b1)
            } else {
                b1
            };
            assert(search_all(ties, ring, s3, b1) == search_all(ties, ring, s2, b2));
            let b3 = if wide {
                search(ties, ring, Block { xlo: cx + 1, yhi: cy as int, ..q }, b2)
            } else {
                b2
            };
            assert(search_all(ties, ring, s2, b2) == search_all(ties, ring, s1, b3));
        }
        assert forall|i: int| 0 <= i < end.len() implies (#[trigger] end[i]).fits(
            count,
            bbox,
        ) by {
            if i < start.len() {
                assert(end[i] == start[i]);
            }
        }
    }
}

/// An edge near enough to a block's probe clears the block.
proof fn lemma_hint_clears(
    ties: LayerShapes,
    b: Block,
    tie: int,
    reach: int,
    root: int,
    best: Furthest,
)
    requires
        0 <= tie < tie_edges(ties).len(),
        is_root(best.d2, root),
        is_root_up(b.reach2(b.middle()), reach),
        root >= reach,
        seg_dist2(b.middle(), tie_edges(ties)[tie]) < (root - reach) * (root - reach),
    ensures
        b.pruned(ties, best),
{
    let here = b.middle();
    lemma_one_root(best.d2, root, root_of(best.d2));
    lemma_one_root_up(b.reach2(here), reach, root_up(b.reach2(here)));
    lemma_nearest_edge(ties, here);
    lemma_seg_dist2_positive(here, tie_edges(ties)[tie]);
}

/// What a probe decides of a block.
proof fn lemma_probed(
    ties: LayerShapes,
    b: Block,
    inner: bool,
    e2: int,
    reach: int,
    root: int,
    best: Furthest,
)
    requires
        inner == held(ties, b.middle()),
        at_edge_distance(ties, b.middle(), e2),
        is_root(best.d2, root),
        is_root_up(b.reach2(b.middle()), reach),
    ensures
        ({
            let d2 = if inner { 0 } else { e2 };
            &&& tie_dist2(ties, b.middle()) == d2
            &&& b.pruned(ties, best) == (root >= reach && d2 < (root - reach) * (root - reach)
                || inner && e2 > b.reach2(b.middle()))
        }),
{
    let here = b.middle();
    lemma_one_root(best.d2, root, root_of(best.d2));
    lemma_one_root_up(b.reach2(here), reach, root_up(b.reach2(here)));
    lemma_edge_dist2(ties, here, e2);
}

/// Some edge is the nearest.
proof fn lemma_nearest_edge(ties: LayerShapes, p: Point)
    requires
        tie_edges(ties).len() > 0,
    ensures
        at_edge_distance(ties, p, edge_dist2(ties, p)),
{
    let edges = tie_edges(ties);
    let i = lemma_nearest_of(edges, p, edges.len() as int);
    assert(seg_dist2(p, tie_edges(ties)[i]) <= seg_dist2(p, edges[i]));
    assert(at_edge_distance(ties, p, seg_dist2(p, edges[i])));
}

/// Some tie is the nearest.
proof fn lemma_nearest_tie(ties: LayerShapes, p: Point)
    requires
        tie_edges(ties).len() > 0,
    ensures
        at_distance(ties, p, tie_dist2(ties, p)),
        within(ties, p, tie_dist2(ties, p)),
        tie_dist2(ties, p) >= 0,
{
    lemma_nearest_edge(ties, p);
    lemma_not_negative(ties, p, tie_dist2(ties, p));
}

proof fn lemma_nearest_of(edges: Seq<Seg>, p: Point, n: int) -> (i: int)
    requires
        0 < n <= edges.len(),
    ensures
        0 <= i < n,
        forall|k: int| 0 <= k < n ==> #[trigger] seg_dist2(p, edges[k]) >= seg_dist2(p, edges[i]),
    decreases n,
{
    if n == 1 {
        0
    } else {
        let i = lemma_nearest_of(edges, p, n - 1);
        if seg_dist2(p, edges[n - 1]) < seg_dist2(p, edges[i]) {
            n - 1
        } else {
            i
        }
    }
}

/// The point of one region furthest from any tie, and that distance squared,
/// resolved only above `floor`.
///
/// The returned distance is the true maximum over the region's integer points
/// whenever that maximum exceeds `floor`, and is `floor` otherwise. Branch and bound,
/// seeded from the vertices: a vertex scan alone misses the maximum of a long region
/// tied at both ends. A block is dropped only where its probe is short of the
/// furthest distance by more than its reach, so that it holds no point that is
/// further, or where a tie covers all of it.
pub fn furthest_from_taps(
    ring: &Vec<Point>,
    bbox: Bbox,
    floor: i128,
    ties: &LayerShapes,
    grid: &SegGrid,
) -> (r: (Point, i128))
    requires
        ring_wf(ring@),
        ring@.len() > 0,
        bbox.wf(),
        forall|i: int|
            0 <= i < ring@.len() ==> bbox.has((#[trigger] ring@[i]).x as int, ring@[i].y as int),
        -1 <= floor <= 0x1_0000_0000_0000_0000_0000,
        ties.wf(),
        grid.wf(),
        grid.taps@ == tie_edges(*ties),
        grid.taps@.len() > 0,
    ensures
        r.0.wf(),
        0 <= r.1 <= 0x8_0000_0000_0000_0000_0000,
        r.1 >= floor,
        r.1 > floor ==> region_point(ring@, r.0) && at_distance(*ties, r.0, r.1 as int),
        all_within(*ties, ring@, r.1 as int),
        (Furthest { at: r.0, d2: r.1 as int }) == furthest(*ties, ring@, bbox, floor as int),
{
    let ghost count = grid.taps@.len() as int;
    let list = holders(ties, bbox);
    let mut at: Point = ring[0];
    let mut best: i128 = -1;
    let mut hint: u32 = 0;
    let mut v: usize = 0;
    while v < ring.len()
        invariant
            ring_wf(ring@),
            forall|i: int|
                0 <= i < ring@.len() ==> bbox.has(
                    (#[trigger] ring@[i]).x as int,
                    ring@[i].y as int,
                ),
            ties.wf(),
            names_holders(*ties, bbox, list@),
            grid.wf(),
            grid.taps@ == tie_edges(*ties),
            count == grid.taps@.len(),
            count > 0,
            v <= ring@.len(),
            hint < count,
            -1 <= best <= 0x8_0000_0000_0000_0000_0000,
            v > 0 ==> best >= 0,
            (Furthest { at, d2: best as int }) == furthest_vertex(*ties, ring@, v as nat),
        decreases ring@.len() - v,
    {
        let here = ring[v];
        assert(ring@[v as int].wf());
        let (tap, e) = edge_probe(ties, grid, here);
        let d: i128 = if holds_point(ties, bbox, &list, here) { 0 } else { e };
        proof {
            lemma_edge_dist2(*ties, here, e as int);
        }
        if d > best {
            best = d;
            at = here;
            hint = tap;
        }
        v = v + 1;
    }
    let mut worst: i128 = if best > floor { best } else { floor };
    let mut root: i64 = isqrt(worst);
    let mut stack: Vec<Cell> = Vec::new();
    let first = Cell { xlo: bbox.xlo, ylo: bbox.ylo, xhi: bbox.xhi, yhi: bbox.yhi, hint };
    stack.push(first);
    proof {
        let none: Seq<Cell> = Seq::empty();
        lemma_search_push(*ties, ring@, none, first, Furthest { at, d2: worst as int });
        assert(stack@ =~= none.push(first));
    }
    while stack.len() > 0
        invariant
            ring_wf(ring@),
            ring@.len() > 0,
            ties.wf(),
            names_holders(*ties, bbox, list@),
            grid.wf(),
            grid.taps@ == tie_edges(*ties),
            count == grid.taps@.len(),
            count > 0,
            0 <= worst <= 0x8_0000_0000_0000_0000_0000,
            is_root(worst as int, root as int),
            0 <= root <= 0x2000_0000_0000,
            forall|i: int| 0 <= i < stack@.len() ==> (#[trigger] stack@[i]).fits(count, bbox),
            search_all(*ties, ring@, stack@, Furthest { at, d2: worst as int }) == furthest(
                *ties,
                ring@,
                bbox,
                floor as int,
            ),
        decreases weight(stack@),
    {
        let ghost whole = stack@;
        proof {
            assert(whole[whole.len() - 1].fits(count, bbox));
            assert forall|i: int| 0 <= i < whole.drop_last().len() implies (
            #[trigger] whole.drop_last()[i]).wf(count) by {
                assert(whole[i].fits(count, bbox));
            }
            lemma_weight_positive(whole.drop_last(), count);
            lemma_points_positive(whole.last(), count);
        }
        let c = stack.pop().unwrap();
        assert(stack@ =~= whole.drop_last());
        let here = Point { x: c.xlo + (c.xhi - c.xlo) / 2, y: c.ylo + (c.yhi - c.ylo) / 2 };
        assert(here == c.block().middle());
        assert(grid.taps@[c.hint as int].wf());
        let hinted: i128 = point_seg_dist2(here, grid.taps[c.hint as usize]);
        let (reach2, reach) = reach_of(c, here, Ghost(count));
        if prunes(root, reach, hinted) {
            proof {
                lemma_hint_clears(
                    *ties,
                    c.block(),
                    c.hint as int,
                    reach as int,
                    root as int,
                    Furthest { at, d2: worst as int },
                );
            }
        } else {
            let (tap, e) = edge_probe(ties, grid, here);
            let inner: bool = holds_point(ties, bbox, &list, here);
            let d: i128 = if inner { 0 } else { e };
            proof {
                lemma_probed(
                    *ties,
                    c.block(),
                    inner,
                    e as int,
                    reach as int,
                    root as int,
                    Furthest { at, d2: worst as int },
                );
            }
            if !prunes(root, reach, d) && !(inner && e > reach2) {
                if d > worst && point_in_region(ring, here) {
                    worst = d;
                    root = isqrt(worst);
                    at = here;
                }
                if here.x < c.xhi || here.y < c.yhi {
                    split(&mut stack, c, here.x, here.y, tap, Ghost(bbox), Ghost(count));
                    proof {
                        assert forall|i: int| 0 <= i < stack@.len() implies (
                        #[trigger] stack@[i]).wf(count) by {
                            assert(stack@[i].fits(count, bbox));
                        }
                        lemma_weight_positive(stack@, count);
                    }
                }
            }
        }
    }
    proof {
        lemma_furthest_is_the_maximum(*ties, ring@, bbox, floor as int);
    }
    (at, worst)
}

/// The edge of a tie nearest a point, and how far it is.
fn edge_probe(ties: &LayerShapes, grid: &SegGrid, here: Point) -> (r: (u32, i128))
    requires
        grid.wf(),
        grid.taps@ == tie_edges(*ties),
        grid.taps@.len() > 0,
        here.wf(),
    ensures
        r.0 < grid.taps@.len(),
        at_edge_distance(*ties, here, r.1 as int),
        0 <= r.1 <= 0x8_0000_0000_0000_0000_0000,
{
    let tap: u32 = grid.nearest(here);
    assert(grid.taps@[tap as int].wf());
    let d: i128 = point_seg_dist2(here, grid.taps[tap as usize]);
    assert(seg_dist2(here, tie_edges(*ties)[tap as int]) <= d);
    (tap, d)
}

/// A point in a tied region too far from the nearest tie.
pub struct MissingTieTable {
    pub head: RuleHead,
    /// The region that must be tied throughout.
    pub region: Vec<LayerRef>,
    /// What counts as a tie.
    pub tap: Vec<LayerRef>,
    /// Furthest any point of the region may be from a tie.
    pub max_distance: Vec<i64>,
}

impl MissingTieTable {
    pub open spec fn wf(&self, store: &GeometryStore) -> bool {
        &&& self.head.wf()
        &&& self.region@.len() == self.head.rows()
        &&& self.tap@.len() == self.head.rows()
        &&& self.max_distance@.len() == self.head.rows()
        &&& forall|i: int|
            0 <= i < self.region@.len() ==> layer_exists(store, #[trigger] self.region@[i])
        &&& forall|i: int|
            0 <= i < self.tap@.len() ==> layer_exists(store, #[trigger] self.tap@[i])
        &&& forall|i: int|
            0 <= i < self.max_distance@.len() ==> 0 <= #[trigger] self.max_distance@[i]
                <= MAX_ABS_DBU
    }
}

/// The ties a row measures to: a validated base layer's, or a derived layer's;
/// `None` where neither can be had.
pub open spec fn tie_shapes(design: Design, tap: LayerRef) -> Option<LayerShapes> {
    match tap {
        LayerRef::Base(l) => design.derived.validated@[l.0 as int],
        LayerRef::Named(name) => design.derived.lookup(name),
    }
}

/// Whether a number is the least squared distance from a point to an edge of a tie,
/// each rounded down.
pub open spec fn is_floored(ties: LayerShapes, p: Point, d2: int) -> bool {
    &&& exists|i: int|
        0 <= i < tie_edges(ties).len() && #[trigger] seg_dist2_down(p, tie_edges(ties)[i]) == d2
    &&& forall|i: int|
        0 <= i < tie_edges(ties).len() ==> #[trigger] seg_dist2_down(p, tie_edges(ties)[i]) >= d2
}

/// How far a point is from the nearest edge of a tie, in whole units, rounded down.
pub open spec fn whole_distance(ties: LayerShapes, p: Point) -> int {
    root_of(choose|d2: int| is_floored(ties, p, d2))
}

/// How far a point is from the nearest edge of a tie, in whole units.
fn measure(ties: &LayerShapes, grid: &SegGrid, at: Point) -> (r: i64)
    requires
        grid.wf(),
        grid.taps@ == tie_edges(*ties),
        grid.taps@.len() > 0,
        at.wf(),
    ensures
        r == whole_distance(*ties, at),
{
    assert(grid.taps@[0].wf());
    let mut least: i128 = point_seg_dist2_down(at, grid.taps[0]);
    let ghost mut of: int = 0;
    let mut i: usize = 1;
    while i < grid.taps.len()
        invariant
            grid.wf(),
            grid.taps@ == tie_edges(*ties),
            at.wf(),
            1 <= i <= grid.taps@.len(),
            0 <= of < i,
            least == seg_dist2_down(at, grid.taps@[of]),
            0 <= least <= 0x8_0000_0000_0000_0000_0000,
            forall|k: int| 0 <= k < i ==> #[trigger] seg_dist2_down(at, grid.taps@[k]) >= least,
        decreases grid.taps@.len() - i,
    {
        assert(grid.taps@[i as int].wf());
        let d: i128 = point_seg_dist2_down(at, grid.taps[i]);
        if d < least {
            least = d;
            proof {
                of = i as int;
            }
        }
        i = i + 1;
    }
    let root: i64 = isqrt(least);
    proof {
        let edges = tie_edges(*ties);
        assert(seg_dist2_down(at, edges[of]) == least);
        assert(is_floored(*ties, at, least as int));
        let other = choose|d2: int| is_floored(*ties, at, d2);
        let j = choose|j: int|
            0 <= j < edges.len() && #[trigger] seg_dist2_down(at, edges[j]) == other;
        assert(seg_dist2_down(at, edges[j]) >= least);
        lemma_one_root(least as int, root as int, root_of(least as int));
    }
    root
}

/// What region `p` reports: its furthest point, where that is further from a tie
/// than the limit.
///
/// With no tie on the layer at all, a region is untied everywhere and reports
/// the largest length there is, at its first vertex.
pub open spec fn tie_report(
    store: &GeometryStore,
    ties: LayerShapes,
    limit: i64,
    rule: StrId,
    severity: Severity,
    p: int,
) -> Seq<Violation> {
    let far = furthest(ties, store.ring(p), store.bbox@[p], limit * limit);
    let (at, measured, reported) = if tie_edges(ties).len() == 0 {
        (store.vertex_at(p, 0), MAX_ABS_DBU, limit < MAX_ABS_DBU)
    } else {
        (far.at, whole_distance(ties, far.at) as i64, far.d2 > limit * limit)
    };
    if reported {
        seq![
            Violation {
                rule,
                layer: store.layer@[p],
                severity,
                at,
                measured: Measurement::Length(measured),
                limit: Measurement::Length(limit),
                shapes: (PolyId(p as u32), None),
            },
        ]
    } else {
        Seq::empty()
    }
}

/// What the regions of the rows `lo .. hi` report, in row order.
pub open spec fn tie_reports(
    store: &GeometryStore,
    ties: LayerShapes,
    limit: i64,
    rule: StrId,
    severity: Severity,
    lo: int,
    hi: int,
) -> Seq<Violation>
    decreases hi - lo,
{
    if hi <= lo {
        Seq::empty()
    } else {
        tie_reports(store, ties, limit, rule, severity, lo, hi - 1) + tie_report(
            store,
            ties,
            limit,
            rule,
            severity,
            hi - 1,
        )
    }
}

/// How one row of a missing-tie table ends.
pub open spec fn missing_tie_row(design: Design, table: &MissingTieTable, row: int) -> RowResult {
    match (table.region@[row], tie_shapes(design, table.tap@[row])) {
        (LayerRef::Base(region), Some(ties)) => RowResult {
            outcome: Outcome::Ran,
            examined: layer_len(design.store, region) as u64,
            found: tie_reports(
                design.store,
                ties,
                table.max_distance@[row],
                table.head.rule@[row],
                table.head.severity@[row],
                design.store.row_lo(region.0 as int),
                design.store.row_hi(region.0 as int),
            ),
        },
        _ => ended(Outcome::Refused),
    }
}

/// How each row of a missing-tie table ends.
pub open spec fn missing_tie_results(design: Design, table: &MissingTieTable) -> Seq<RowResult> {
    Seq::new(table.head.rule@.len(), |row: int| missing_tie_row(design, table, row))
}

/// A tied region is reported exactly where a point of it is in no tie and further
/// than the limit from all of them, and then at a furthest one: no point of the
/// region has a greater distance. A region every point of which is in a tie or
/// within the limit of one reports nothing.
pub proof fn lemma_tie_report_is_exact(
    store: &GeometryStore,
    ties: LayerShapes,
    limit: i64,
    rule: StrId,
    severity: Severity,
    p: int,
)
    requires
        store.wf(),
        0 <= p < store.polys(),
        0 <= limit <= MAX_ABS_DBU,
        ties.wf(),
        tie_edges(ties).len() > 0,
    ensures
        ({
            let found = tie_report(store, ties, limit, rule, severity, p);
            let ring = store.ring(p);
            &&& found.len() == 0 <==> all_within(ties, ring, limit * limit)
            &&& found.len() > 0 ==> found.len() == 1 && region_point(ring, found[0].at)
                && all_within(ties, ring, tie_dist2(ties, found[0].at))
        }),
{
    let ring = store.ring(p);
    let bbox = store.bbox@[p];
    assert(0 <= limit * limit) by (nonlinear_arith)
        requires
            0 <= limit,
    ;
    assert forall|i: int| 0 <= i < ring.len() implies bbox.has(
        (#[trigger] ring[i]).x as int,
        ring[i].y as int,
    ) by {
        assert(ring[i] == store.vertex_at(p, i));
    }
    lemma_furthest_is_the_maximum(ties, ring, bbox, limit * limit);
    let far = furthest(ties, ring, bbox, limit * limit);
    if far.d2 > limit * limit {
        lemma_at_distance(ties, far.at, far.d2);
        if all_within(ties, ring, limit * limit) {
            assert(within(ties, far.at, limit * limit));
            let edges = tie_edges(ties);
            let i = choose|i: int|
                0 <= i < edges.len() && #[trigger] seg_dist2(far.at, edges[i]) <= limit * limit;
            assert(seg_dist2(far.at, tie_edges(ties)[i]) >= far.d2);
        }
    }
}

proof fn lemma_at_distance(ties: LayerShapes, p: Point, d2: int)
    requires
        at_distance(ties, p, d2),
    ensures
        tie_dist2(ties, p) == d2,
{
    if !held(ties, p) {
        lemma_edge_dist2(ties, p, d2);
    }
}

fn gather_edges(shapes: &LayerShapes) -> (r: Vec<Seg>)
    requires
        shapes.wf(),
    ensures
        r@ == ring_edges(shapes.rings@),
        segs_wf(r@),
        r@.len() <= 0xFFFF_FFFF,
{
    let mut r: Vec<Seg> = Vec::new();
    let mut i: usize = 0;
    assert(r@ =~= ring_edges(shapes.rings@.take(0)));
    while i < shapes.rings.len()
        invariant
            shapes.wf(),
            i <= shapes.rings@.len(),
            r@ == ring_edges(shapes.rings@.take(i as int)),
            segs_wf(r@),
        decreases shapes.rings@.len() - i,
    {
        let ring = &shapes.rings[i];
        let ghost before = r@;
        let ghost edges = Seq::new(ring@.len(), |k: int| edge_of(ring@, k));
        let mut j: usize = 0;
        assert(r@ =~= before + edges.take(0));
        while j < ring.len()
            invariant
                shapes.wf(),
                i < shapes.rings@.len(),
                ring@ == shapes.rings@[i as int]@,
                edges == Seq::new(ring@.len(), |k: int| edge_of(ring@, k)),
                j <= ring@.len(),
                r@ == before + edges.take(j as int),
                segs_wf(r@),
            decreases ring@.len() - j,
        {
            let e = ring_edge(ring, j);
            let ghost was = r@;
            assert(shapes.rings@[i as int]@[j as int].wf());
            assert(shapes.rings@[i as int]@[next_of(ring@.len() as int, j as int)].wf());
            r.push(e);
            assert(edges[j as int] == e);
            assert(r@ =~= before + edges.take(j + 1));
            j = j + 1;
        }
        proof {
            let now = shapes.rings@.take(i + 1);
            assert(now.drop_last() =~= shapes.rings@.take(i as int));
            assert(edges.take(j as int) =~= edges);
            assert(now.last()@ == ring@);
            assert(r@ =~= ring_edges(now));
        }
        i = i + 1;
    }
    assert(shapes.rings@.take(i as int) =~= shapes.rings@);
    r
}

/// The ties a row measures to.
fn tap_geometry<'a>(design: Design<'a>, tap: LayerRef) -> (r: Option<&'a LayerShapes>)
    requires
        design.wf(),
        layer_exists(design.store, tap),
    ensures
        r is Some <==> tie_shapes(design, tap) is Some,
        r is Some ==> *r->0 == tie_shapes(design, tap)->0 && (*r->0).wf(),
{
    match tap {
        LayerRef::Base(layer) => {
            let n: usize = design.derived.validated.len();
            assert(layer.0 < n);
            match &design.derived.validated[layer.0 as usize] {
                Some(shapes) => {
                    assert(design.derived.validated@[layer.0 as int] is Some);
                    Some(shapes)
                },
                None => None,
            }
        },
        LayerRef::Named(name) => {
            assert(design.derived.wf(design.store.layers()));
            design.derived.get(name)
        },
    }
}

/// Report one region.
fn push_tie_report(
    store: &GeometryStore,
    ties: &LayerShapes,
    grid: &Option<SegGrid>,
    limit: i64,
    rule: StrId,
    severity: Severity,
    p: u32,
    out: &mut Violations,
)
    requires
        store.wf(),
        p < store.polys(),
        0 <= limit <= MAX_ABS_DBU,
        ties.wf(),
        grid is Some <==> tie_edges(*ties).len() > 0,
        grid is Some ==> grid->0.wf() && grid->0.taps@ == tie_edges(*ties),
    ensures
        final(out)@ == old(out)@ + tie_report(store, *ties, limit, rule, severity, p as int),
{
    let layer = store.poly_layer(PolyId(p));
    assert(0 <= limit * limit <= 0x100_0000_0000 * 0x100_0000_0000) by (nonlinear_arith)
        requires
            0 <= limit <= 0x100_0000_0000,
    ;
    match grid {
        None => {
            if limit < MAX_ABS_DBU {
                let at = store.first_vertex(PolyId(p));
                out.push(
                    Violation {
                        rule,
                        layer,
                        severity,
                        at,
                        measured: Measurement::Length(MAX_ABS_DBU),
                        limit: Measurement::Length(limit),
                        shapes: (PolyId(p), None),
                    },
                );
            }
        },
        Some(g) => {
            let ring = store.poly_verts(PolyId(p));
            let bbox = store.poly_bbox(PolyId(p));
            let limit2: i128 = limit as i128 * limit as i128;
            assert forall|i: int| 0 <= i < ring@.len() implies bbox.has(
                (#[trigger] ring@[i]).x as int,
                ring@[i].y as int,
            ) by {
                assert(ring@[i] == store.vertex_at(p as int, i));
            }
            let (at, worst) = furthest_from_taps(&ring, bbox, limit2, ties, g);
            if worst > limit2 {
                let measured: i64 = measure(ties, g, at);
                out.push(
                    Violation {
                        rule,
                        layer,
                        severity,
                        at,
                        measured: Measurement::Length(measured),
                        limit: Measurement::Length(limit),
                        shapes: (PolyId(p), None),
                    },
                );
            }
        },
    }
    assert(out@ =~= old(out)@ + tie_report(store, *ties, limit, rule, severity, p as int));
}

fn check_tie_row(
    design: Design,
    region: LayerId,
    ties: &LayerShapes,
    limit: i64,
    rule: StrId,
    severity: Severity,
    out: &mut Violations,
) -> (examined: u64)
    requires
        design.wf(),
        region.0 < design.store.layers(),
        ties.wf(),
        0 <= limit <= MAX_ABS_DBU,
    ensures
        examined == layer_len(design.store, region),
        final(out)@ == old(out)@ + tie_reports(
            design.store,
            *ties,
            limit,
            rule,
            severity,
            design.store.row_lo(region.0 as int),
            design.store.row_hi(region.0 as int),
        ),
{
    let (lo, hi) = design.store.polys_on_layer(region);
    let edges = gather_edges(ties);
    let ghost first = out@;
    let grid: Option<SegGrid> = if edges.len() == 0 { None } else { Some(SegGrid::build(edges)) };
    let mut p: u32 = lo;
    assert(out@ =~= first + tie_reports(
        design.store,
        *ties,
        limit,
        rule,
        severity,
        lo as int,
        lo as int,
    ));
    while p < hi
        invariant
            design.wf(),
            ties.wf(),
            lo <= p <= hi <= design.store.polys(),
            0 <= limit <= MAX_ABS_DBU,
            grid is Some <==> tie_edges(*ties).len() > 0,
            grid is Some ==> grid->0.wf() && grid->0.taps@ == tie_edges(*ties),
            out@ == first + tie_reports(
                design.store,
                *ties,
                limit,
                rule,
                severity,
                lo as int,
                p as int,
            ),
        decreases hi - p,
    {
        push_tie_report(design.store, ties, &grid, limit, rule, severity, p, out);
        assert(out@ =~= first + tie_reports(
            design.store,
            *ties,
            limit,
            rule,
            severity,
            lo as int,
            p + 1,
        ));
        p = p + 1;
    }
    (hi - lo) as u64
}

/// Flag every region with a point further than `max_distance` from a tie. A point a
/// tie holds is at no distance from it.
///
/// The report marks the furthest point of the region, not a corner sample, and no
/// square root enters a verdict. A row examines the region's polygons; a row naming
/// a derived region, or ties nobody could evaluate, is refused.
pub fn check_missing_tie(
    design: Design,
    table: &MissingTieTable,
    out: &mut Violations,
    runs: &mut Vec<RuleRun>,
)
    requires
        design.wf(),
        table.wf(design.store),
    ensures
        final(out)@ == old(out)@ + all_found(missing_tie_results(design, table)),
        final(runs)@ == old(runs)@ + all_runs(
            table.head.rule@,
            missing_tie_results(design, table),
        ),
{
    let ghost results = missing_tie_results(design, table);
    let rows: usize = table.head.len();
    let mut row: usize = 0;
    assert(out@ =~= old(out)@ + all_found(results.take(0)));
    assert(runs@ =~= old(runs)@ + all_runs(table.head.rule@, results.take(0)));
    while row < rows
        invariant
            design.wf(),
            table.wf(design.store),
            rows == table.head.rule@.len(),
            row <= rows,
            results == missing_tie_results(design, table),
            out@ == old(out)@ + all_found(results.take(row as int)),
            runs@ == old(runs)@ + all_runs(table.head.rule@, results.take(row as int)),
        decreases rows - row,
    {
        let before: usize = out.len();
        let rule = table.head.rule[row];
        let severity = table.head.severity[row];
        let limit: i64 = table.max_distance[row];
        assert(layer_exists(design.store, table.region@[row as int]));
        assert(layer_exists(design.store, table.tap@[row as int]));
        assert(0 <= table.max_distance@[row as int] <= MAX_ABS_DBU);
        let ghost start = out@;
        let mut outcome = Outcome::Refused;
        let mut examined: u64 = 0;
        if let Some(region) = base_layer(table.region[row]) {
            if let Some(ties) = tap_geometry(design, table.tap[row]) {
                examined = check_tie_row(design, region, ties, limit, rule, severity, out);
                outcome = Outcome::Ran;
            }
        }
        record_run(runs, out, before, rule, outcome, examined);
        proof {
            let done = results.take(row as int);
            let r = missing_tie_row(design, table, row as int);
            assert(out@ =~= start + r.found);
            lemma_push_result(table.head.rule@, done, r);
            assert(results.take(row + 1) =~= done.push(r));
            assert(out@ =~= old(out)@ + all_found(done.push(r)));
            assert(runs@ =~= old(runs)@ + all_runs(table.head.rule@, done.push(r)));
        }
        row = row + 1;
    }
    assert(results.take(rows as int) =~= results);
}

} // verus!
