//! Exact predicates on closed rings of integer points.
use crate::geom::{max_int, min_int, Bbox, Point, Seg};
use vstd::prelude::*;

verus! {

/// Whether every vertex of a ring is a coordinate pair.
pub open spec fn ring_wf(ring: Seq<Point>) -> bool {
    forall|i: int| 0 <= i < ring.len() ==> (#[trigger] ring[i]).wf()
}

/// The vertex after `i`, wrapping.
pub open spec fn next_of(n: int, i: int) -> int {
    if i + 1 == n { 0 } else { i + 1 }
}

/// The closed edge leaving vertex `i`.
pub open spec fn edge_of(ring: Seq<Point>, i: int) -> Seg {
    Seg { a: ring[i], b: ring[next_of(ring.len() as int, i)] }
}

/// The closed edge from vertex `i` of a ring to the next one, wrapping.
pub fn ring_edge(ring: &Vec<Point>, i: usize) -> (r: Seg)
    requires
        i < ring@.len(),
    ensures
        r == edge_of(ring@, i as int),
{
    let last: usize = ring.len() - 1;
    let next: usize = if i == last { 0 } else { i + 1 };
    Seg { a: ring[i], b: ring[next] }
}

/// `(b - a) x (p - a)`: positive when `p` is left of the directed line.
pub open spec fn cross(a: Point, b: Point, p: Point) -> int {
    (b.x - a.x) * (p.y - a.y) - (b.y - a.y) * (p.x - a.x)
}

/// Bound on one product of coordinate differences.
pub const PRODUCT_BOUND: i128 = 0x4_0000_0000_0000_0000_0000;

proof fn lemma_product(u: int, v: int)
    by (nonlinear_arith)
    requires
        -0x200_0000_0000 <= u <= 0x200_0000_0000,
        -0x200_0000_0000 <= v <= 0x200_0000_0000,
    ensures
        -0x4_0000_0000_0000_0000_0000 <= u * v <= 0x4_0000_0000_0000_0000_0000,
{
}

/// Exact orientation of `p` against a directed segment.
pub fn side(a: Point, b: Point, p: Point) -> (r: i128)
    requires
        a.wf(),
        b.wf(),
        p.wf(),
    ensures
        r == cross(a, b, p),
        -2 * PRODUCT_BOUND <= r <= 2 * PRODUCT_BOUND,
{
    let u: i128 = (b.x - a.x) as i128;
    let v: i128 = (p.y - a.y) as i128;
    let w: i128 = (b.y - a.y) as i128;
    let z: i128 = (p.x - a.x) as i128;
    proof {
        lemma_product(u as int, v as int);
        lemma_product(w as int, z as int);
    }
    u * v - w * z
}

/// Twice the signed area of the first `n` edges' fan from the origin.
pub open spec fn doubled_area_to(ring: Seq<Point>, n: nat) -> int
    decreases n,
{
    if n == 0 {
        0
    } else {
        let e = edge_of(ring, n - 1);
        doubled_area_to(ring, (n - 1) as nat) + (e.a.x * e.b.y - e.b.x * e.a.y)
    }
}

/// Twice the signed area of a closed ring, positive when it winds
/// counter-clockwise.
pub open spec fn doubled_area(ring: Seq<Point>) -> int {
    doubled_area_to(ring, ring.len())
}

/// Twice the signed area of a closed ring.
pub fn area2(ring: &Vec<Point>) -> (r: i128)
    requires
        ring_wf(ring@),
        ring@.len() <= 0xFFFF_FFFF,
    ensures
        r == doubled_area(ring@),
        -(ring@.len() * PRODUCT_BOUND) <= r <= ring@.len() * PRODUCT_BOUND,
{
    let mut sum: i128 = 0;
    let mut i: usize = 0;
    while i < ring.len()
        invariant
            ring_wf(ring@),
            i <= ring@.len() <= 0xFFFF_FFFF,
            sum == doubled_area_to(ring@, i as nat),
            -(i * PRODUCT_BOUND) <= sum <= i * PRODUCT_BOUND,
        decreases ring@.len() - i,
    {
        let e = ring_edge(ring, i);
        proof {
            assert(e.a == ring@[i as int] && e.b == ring@[next_of(ring@.len() as int, i as int)]);
            assert(e.a.wf() && e.b.wf());
            assert(
                -0x1_0000_0000_0000_0000_0000 <= e.a.x * e.b.y <= 0x1_0000_0000_0000_0000_0000
            ) by (nonlinear_arith)
                requires
                    -0x100_0000_0000 <= e.a.x <= 0x100_0000_0000,
                    -0x100_0000_0000 <= e.b.y <= 0x100_0000_0000,
            ;
            assert(
                -0x1_0000_0000_0000_0000_0000 <= e.b.x * e.a.y <= 0x1_0000_0000_0000_0000_0000
            ) by (nonlinear_arith)
                requires
                    -0x100_0000_0000 <= e.b.x <= 0x100_0000_0000,
                    -0x100_0000_0000 <= e.a.y <= 0x100_0000_0000,
            ;
        }
        sum = sum + (e.a.x as i128 * e.b.y as i128 - e.b.x as i128 * e.a.y as i128);
        i = i + 1;
    }
    sum
}

/// Whether the ray from `p` towards `+x` crosses an edge, under the half-open
/// rule that counts a shared vertex once.
pub open spec fn crosses_ray(e: Seg, p: Point) -> bool {
    &&& (e.a.y > p.y) != (e.b.y > p.y)
    &&& (cross(e.a, e.b, p) > 0) == (e.b.y > e.a.y)
}

/// Parity of the crossings among the first `n` edges.
pub open spec fn odd_crossings(ring: Seq<Point>, p: Point, n: nat) -> bool
    decreases n,
{
    if n == 0 {
        false
    } else {
        odd_crossings(ring, p, (n - 1) as nat) != crosses_ray(edge_of(ring, n - 1), p)
    }
}

/// Whether a point is inside a ring, the boundary left to the crossing rule.
pub open spec fn inside(ring: Seq<Point>, p: Point) -> bool {
    ring.len() >= 3 && odd_crossings(ring, p, ring.len())
}

/// Whether a point lies strictly inside a closed ring: an even-odd ray cast,
/// exact, with the boundary left to the half-open crossing rule.
pub fn inside_ring(ring: &Vec<Point>, p: Point) -> (r: bool)
    requires
        ring_wf(ring@),
        p.wf(),
    ensures
        r == inside(ring@, p),
{
    if ring.len() < 3 {
        return false;
    }
    let mut odd: bool = false;
    let mut i: usize = 0;
    while i < ring.len()
        invariant
            ring_wf(ring@),
            p.wf(),
            i <= ring@.len(),
            odd == odd_crossings(ring@, p, i as nat),
        decreases ring@.len() - i,
    {
        let e = ring_edge(ring, i);
        assert(e.a == ring@[i as int] && e.b == ring@[next_of(ring@.len() as int, i as int)]);
        let s: i128 = side(e.a, e.b, p);
        let crossed: bool = ((e.a.y > p.y) != (e.b.y > p.y)) && ((s > 0) == (e.b.y > e.a.y));
        odd = odd != crossed;
        i = i + 1;
    }
    odd
}

/// Whether a point lies on a closed segment.
pub open spec fn on_segment(e: Seg, p: Point) -> bool {
    &&& cross(e.a, e.b, p) == 0
    &&& min_int(e.a.x as int, e.b.x as int) <= p.x <= max_int(e.a.x as int, e.b.x as int)
    &&& min_int(e.a.y as int, e.b.y as int) <= p.y <= max_int(e.a.y as int, e.b.y as int)
}

/// Whether a point lies on one of a ring's first `n` edges.
pub open spec fn on_edges(ring: Seq<Point>, p: Point, n: nat) -> bool {
    exists|i: int| 0 <= i < n && on_segment(#[trigger] edge_of(ring, i), p)
}

/// Whether a point is in the closed region a ring bounds.
pub open spec fn in_region(ring: Seq<Point>, p: Point) -> bool {
    ring.len() >= 3 && (on_edges(ring, p, ring.len()) || odd_crossings(ring, p, ring.len()))
}

fn touches(e: Seg, p: Point) -> (r: bool)
    requires
        e.wf(),
        p.wf(),
    ensures
        r == on_segment(e, p),
{
    let xlo: i64 = if e.a.x < e.b.x { e.a.x } else { e.b.x };
    let xhi: i64 = if e.a.x < e.b.x { e.b.x } else { e.a.x };
    let ylo: i64 = if e.a.y < e.b.y { e.a.y } else { e.b.y };
    let yhi: i64 = if e.a.y < e.b.y { e.b.y } else { e.a.y };
    xlo <= p.x && p.x <= xhi && ylo <= p.y && p.y <= yhi && side(e.a, e.b, p) == 0
}

/// Whether a point lies on an edge of a ring.
pub fn on_ring(ring: &Vec<Point>, p: Point) -> (r: bool)
    requires
        ring_wf(ring@),
        p.wf(),
    ensures
        r == on_edges(ring@, p, ring@.len()),
{
    let mut i: usize = 0;
    while i < ring.len()
        invariant
            ring_wf(ring@),
            p.wf(),
            i <= ring@.len(),
            forall|k: int| 0 <= k < i ==> !on_segment(#[trigger] edge_of(ring@, k), p),
        decreases ring@.len() - i,
    {
        let e = ring_edge(ring, i);
        assert(e.a == ring@[i as int] && e.b == ring@[next_of(ring@.len() as int, i as int)]);
        if touches(e, p) {
            assert(on_segment(edge_of(ring@, i as int), p));
            return true;
        }
        i = i + 1;
    }
    false
}

/// Whether a point lies in a closed ring, boundary included.
pub fn point_in_region(ring: &Vec<Point>, p: Point) -> (r: bool)
    requires
        ring_wf(ring@),
        p.wf(),
    ensures
        r == in_region(ring@, p),
{
    if ring.len() < 3 {
        return false;
    }
    let mut odd: bool = false;
    let mut i: usize = 0;
    while i < ring.len()
        invariant
            ring@.len() >= 3,
            ring_wf(ring@),
            p.wf(),
            i <= ring@.len(),
            !on_edges(ring@, p, i as nat),
            odd == odd_crossings(ring@, p, i as nat),
        decreases ring@.len() - i,
    {
        let e = ring_edge(ring, i);
        assert(e.a == ring@[i as int] && e.b == ring@[next_of(ring@.len() as int, i as int)]);
        if touches(e, p) {
            assert(on_segment(edge_of(ring@, i as int), p));
            return true;
        }
        let s: i128 = side(e.a, e.b, p);
        let crossed: bool = ((e.a.y > p.y) != (e.b.y > p.y)) && ((s > 0) == (e.b.y > e.a.y));
        odd = odd != crossed;
        i = i + 1;
        proof {
            if on_edges(ring@, p, i as nat) {
                let k = choose|k: int| 0 <= k < i && on_segment(#[trigger] edge_of(ring@, k), p);
                assert(k == i - 1);
            }
        }
    }
    odd
}

/// Whether two closed segments share a point: each straddles the other's line,
/// or an endpoint of one lies on the other.
pub open spec fn segs_meet(s: Seg, t: Seg) -> bool {
    let d1 = cross(t.a, t.b, s.a);
    let d2 = cross(t.a, t.b, s.b);
    let d3 = cross(s.a, s.b, t.a);
    let d4 = cross(s.a, s.b, t.b);
    ||| ((d1 > 0 && d2 < 0) || (d1 < 0 && d2 > 0)) && ((d3 > 0 && d4 < 0) || (d3 < 0 && d4 > 0))
    ||| on_segment(t, s.a)
    ||| on_segment(t, s.b)
    ||| on_segment(s, t.a)
    ||| on_segment(s, t.b)
}

/// Whether two closed segments share a point, touching included.
pub fn segments_intersect(s: Seg, t: Seg) -> (r: bool)
    requires
        s.wf(),
        t.wf(),
    ensures
        r == segs_meet(s, t),
{
    let d1: i128 = side(t.a, t.b, s.a);
    let d2: i128 = side(t.a, t.b, s.b);
    let d3: i128 = side(s.a, s.b, t.a);
    let d4: i128 = side(s.a, s.b, t.b);
    if ((d1 > 0 && d2 < 0) || (d1 < 0 && d2 > 0)) && ((d3 > 0 && d4 < 0) || (d3 < 0 && d4 > 0)) {
        return true;
    }
    touches(t, s.a) || touches(t, s.b) || touches(s, t.a) || touches(s, t.b)
}

/// Whether any edge of one ring meets any edge of the other.
pub open spec fn boundaries_meet(a: Seq<Point>, b: Seq<Point>) -> bool {
    exists|i: int, j: int|
        0 <= i < a.len() && 0 <= j < b.len() && segs_meet(
            #[trigger] edge_of(a, i),
            #[trigger] edge_of(b, j),
        )
}

/// Whether any edge of one ring meets any edge of the other, touching included.
pub fn rings_meet(a: &Vec<Point>, b: &Vec<Point>) -> (r: bool)
    requires
        ring_wf(a@),
        ring_wf(b@),
    ensures
        r == boundaries_meet(a@, b@),
{
    let mut i: usize = 0;
    while i < a.len()
        invariant
            ring_wf(a@),
            ring_wf(b@),
            i <= a@.len(),
            forall|k: int, j: int|
                0 <= k < i && 0 <= j < b@.len() ==> !segs_meet(
                    #[trigger] edge_of(a@, k),
                    #[trigger] edge_of(b@, j),
                ),
        decreases a@.len() - i,
    {
        let e = ring_edge(a, i);
        assert(e.a == a@[i as int] && e.b == a@[next_of(a@.len() as int, i as int)]);
        let mut j: usize = 0;
        while j < b.len()
            invariant
                ring_wf(b@),
                i < a@.len(),
                e == edge_of(a@, i as int),
                e.wf(),
                j <= b@.len(),
                forall|m: int| 0 <= m < j ==> !segs_meet(e, #[trigger] edge_of(b@, m)),
            decreases b@.len() - j,
        {
            let f = ring_edge(b, j);
            assert(f.a == b@[j as int] && f.b == b@[next_of(b@.len() as int, j as int)]);
            if segments_intersect(e, f) {
                assert(segs_meet(edge_of(a@, i as int), edge_of(b@, j as int)));
                return true;
            }
            j = j + 1;
        }
        i = i + 1;
    }
    false
}

/// Whether two polygons share a point. Rings whose boundaries do not meet are
/// nested or disjoint, so one vertex of each decides the rest; a run of under
/// three vertices bounds nothing.
pub open spec fn regions_meet(a: Seq<Point>, b: Seq<Point>) -> bool {
    &&& a.len() >= 3
    &&& b.len() >= 3
    &&& boundaries_meet(a, b) || in_region(b, a[0]) || in_region(a, b[0])
}

/// Whether two polygons share at least one point.
pub fn polys_meet(a: &Vec<Point>, b: &Vec<Point>) -> (r: bool)
    requires
        ring_wf(a@),
        ring_wf(b@),
    ensures
        r == regions_meet(a@, b@),
{
    if a.len() < 3 || b.len() < 3 {
        return false;
    }
    assert(a@[0].wf() && b@[0].wf());
    rings_meet(a, b) || point_in_region(b, a[0]) || point_in_region(a, b[0])
}

/// Parity of the edges among the first `n` whose ends straddle the ray's line.
spec fn odd_straddles(ring: Seq<Point>, p: Point, n: nat) -> bool
    decreases n,
{
    if n == 0 {
        false
    } else {
        let e = edge_of(ring, n - 1);
        odd_straddles(ring, p, (n - 1) as nat) != ((e.a.y > p.y) != (e.b.y > p.y))
    }
}

proof fn lemma_straddles(ring: Seq<Point>, p: Point, n: nat)
    requires
        n < ring.len(),
    ensures
        odd_straddles(ring, p, n) == ((ring[0].y > p.y) != (ring[n as int].y > p.y)),
    decreases n,
{
    if n > 0 {
        lemma_straddles(ring, p, (n - 1) as nat);
    }
}

/// An edge wholly right of a point crosses its ray exactly when it straddles.
pub proof fn lemma_right_edge(e: Seg, p: Point)
    requires
        p.x < e.a.x,
        p.x < e.b.x,
    ensures
        crosses_ray(e, p) == ((e.a.y > p.y) != (e.b.y > p.y)),
{
    let h = e.b.y - e.a.y;
    let t = p.y - e.a.y;
    let u = e.a.x - p.x;
    let v = e.b.x - p.x;
    let c = cross(e.a, e.b, p);
    assert(c == (h - t) * u + t * v) by (nonlinear_arith)
        requires
            c == (v - u) * t - h * (-u),
    ;
    if (e.a.y > p.y) != (e.b.y > p.y) {
        if h > 0 {
            assert(c > 0) by (nonlinear_arith)
                requires
                    c == (h - t) * u + t * v,
                    u > 0,
                    v > 0,
                    0 <= t < h,
            ;
        } else {
            assert(c <= 0) by (nonlinear_arith)
                requires
                    c == (h - t) * u + t * v,
                    u > 0,
                    v > 0,
                    h <= t <= 0,
            ;
        }
    }
}

/// An edge wholly left of a point never crosses its ray.
pub proof fn lemma_left_edge(e: Seg, p: Point)
    requires
        e.a.x < p.x,
        e.b.x < p.x,
    ensures
        !crosses_ray(e, p),
{
    let h = e.b.y - e.a.y;
    let t = p.y - e.a.y;
    let u = p.x - e.a.x;
    let v = p.x - e.b.x;
    let c = cross(e.a, e.b, p);
    assert(c == -((h - t) * u + t * v)) by (nonlinear_arith)
        requires
            c == (u - v) * t - h * u,
    ;
    if (e.a.y > p.y) != (e.b.y > p.y) {
        if h > 0 {
            assert(c < 0) by (nonlinear_arith)
                requires
                    c == -((h - t) * u + t * v),
                    u > 0,
                    v > 0,
                    0 <= t < h,
            ;
        } else {
            assert(c > 0) by (nonlinear_arith)
                requires
                    c == -((h - t) * u + t * v),
                    u > 0,
                    v > 0,
                    h <= t <= 0,
                    h < 0,
                    h < t || t < 0,
            ;
        }
    }
}

proof fn lemma_outside_parity(ring: Seq<Point>, b: Bbox, p: Point, n: nat)
    requires
        n <= ring.len(),
        forall|i: int|
            0 <= i < ring.len() ==> b.has((#[trigger] ring[i]).x as int, ring[i].y as int),
        !b.has(p.x as int, p.y as int),
    ensures
        p.x < b.xlo ==> odd_crossings(ring, p, n) == odd_straddles(ring, p, n),
        p.x >= b.xlo ==> !odd_crossings(ring, p, n),
    decreases n,
{
    if n > 0 {
        lemma_outside_parity(ring, b, p, (n - 1) as nat);
        let e = edge_of(ring, n - 1);
        assert(b.has(ring[n - 1].x as int, ring[n - 1].y as int));
        let m = next_of(ring.len() as int, n - 1);
        assert(b.has(ring[m].x as int, ring[m].y as int));
        if p.x < b.xlo {
            lemma_right_edge(e, p);
        } else if p.x > b.xhi {
            lemma_left_edge(e, p);
        }
    }
}

/// A point of a region is inside any box holding the region's vertices.
pub proof fn lemma_region_in_box(ring: Seq<Point>, b: Bbox, p: Point)
    requires
        forall|i: int|
            0 <= i < ring.len() ==> b.has((#[trigger] ring[i]).x as int, ring[i].y as int),
        in_region(ring, p),
    ensures
        b.has(p.x as int, p.y as int),
{
    if !b.has(p.x as int, p.y as int) {
        let n = ring.len();
        lemma_outside_parity(ring, b, p, n);
        if p.x < b.xlo {
            lemma_straddles(ring, p, (n - 1) as nat);
            let e = edge_of(ring, n - 1);
            assert(e.b == ring[0]);
        }
        assert(!odd_crossings(ring, p, n));
        assert(!on_edges(ring, p, n)) by {
            if on_edges(ring, p, n) {
                let i = choose|i: int| 0 <= i < n && on_segment(#[trigger] edge_of(ring, i), p);
                assert(b.has(ring[i].x as int, ring[i].y as int));
                let m = next_of(n as int, i);
                assert(b.has(ring[m].x as int, ring[m].y as int));
            }
        }
    }
}

/// Whether two polygons share a point does not depend on their order.
pub proof fn lemma_regions_meet_symmetric(a: Seq<Point>, b: Seq<Point>)
    ensures
        regions_meet(a, b) == regions_meet(b, a),
{
    if boundaries_meet(a, b) {
        let (i, j) = choose|i: int, j: int|
            0 <= i < a.len() && 0 <= j < b.len() && segs_meet(
                #[trigger] edge_of(a, i),
                #[trigger] edge_of(b, j),
            );
        assert(segs_meet(edge_of(b, j), edge_of(a, i)));
    }
    if boundaries_meet(b, a) {
        let (i, j) = choose|i: int, j: int|
            0 <= i < b.len() && 0 <= j < a.len() && segs_meet(
                #[trigger] edge_of(b, i),
                #[trigger] edge_of(a, j),
            );
        assert(segs_meet(edge_of(a, j), edge_of(b, i)));
    }
}

} // verus!
