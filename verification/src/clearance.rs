//! Whether the edges of a ring keep clear of a box, and what holds of the box then.
use crate::geom::{max_int, min_int, Bbox, Point, Seg};
use crate::ring::{
    cross, crosses_ray, edge_of, inside, lemma_left_edge, lemma_right_edge, next_of, odd_crossings,
    on_edges, on_segment, ring_edge, ring_wf, side,
};
use vstd::prelude::*;

verus! {

/// Which side of a directed segment the corners of a box are on.
pub open spec fn corner_sides(e: Seg, b: Bbox) -> Seq<int> {
    seq![
        cross(e.a, e.b, Point { x: b.xlo, y: b.ylo }),
        cross(e.a, e.b, Point { x: b.xhi, y: b.ylo }),
        cross(e.a, e.b, Point { x: b.xhi, y: b.yhi }),
        cross(e.a, e.b, Point { x: b.xlo, y: b.yhi }),
    ]
}

/// Whether a closed segment has no point in a closed box: it is off one side of the
/// box, or every corner is strictly on one side of it.
pub open spec fn misses(e: Seg, b: Bbox) -> bool {
    let s = corner_sides(e, b);
    ||| max_int(e.a.x as int, e.b.x as int) < b.xlo
    ||| min_int(e.a.x as int, e.b.x as int) > b.xhi
    ||| max_int(e.a.y as int, e.b.y as int) < b.ylo
    ||| min_int(e.a.y as int, e.b.y as int) > b.yhi
    ||| s[0] > 0 && s[1] > 0 && s[2] > 0 && s[3] > 0
    ||| s[0] < 0 && s[1] < 0 && s[2] < 0 && s[3] < 0
}

/// Whether no edge of a ring has a point in a closed box.
pub open spec fn clear_of(ring: Seq<Point>, b: Bbox) -> bool {
    forall|i: int| 0 <= i < ring.len() ==> misses(#[trigger] edge_of(ring, i), b)
}

/// Which side of a directed segment the corners of a box are on.
fn sides_of(e: Seg, b: Bbox) -> (r: (i128, i128, i128, i128))
    requires
        e.wf(),
        b.wf(),
    ensures
        r.0 == corner_sides(e, b)[0],
        r.1 == corner_sides(e, b)[1],
        r.2 == corner_sides(e, b)[2],
        r.3 == corner_sides(e, b)[3],
{
    (
        side(e.a, e.b, Point { x: b.xlo, y: b.ylo }),
        side(e.a, e.b, Point { x: b.xhi, y: b.ylo }),
        side(e.a, e.b, Point { x: b.xhi, y: b.yhi }),
        side(e.a, e.b, Point { x: b.xlo, y: b.yhi }),
    )
}

fn edge_misses(e: Seg, b: Bbox) -> (r: bool)
    requires
        e.wf(),
        b.wf(),
    ensures
        r == misses(e, b),
{
    if (e.a.x < b.xlo && e.b.x < b.xlo) || (e.a.x > b.xhi && e.b.x > b.xhi) {
        return true;
    }
    if (e.a.y < b.ylo && e.b.y < b.ylo) || (e.a.y > b.yhi && e.b.y > b.yhi) {
        return true;
    }
    let s = sides_of(e, b);
    (s.0 > 0 && s.1 > 0 && s.2 > 0 && s.3 > 0) || (s.0 < 0 && s.1 < 0 && s.2 < 0 && s.3 < 0)
}

/// Whether no edge of a ring has a point in a closed box.
pub fn ring_clear_of(ring: &Vec<Point>, b: Bbox) -> (r: bool)
    requires
        ring_wf(ring@),
        b.wf(),
    ensures
        r == clear_of(ring@, b),
{
    let mut i: usize = 0;
    while i < ring.len()
        invariant
            ring_wf(ring@),
            b.wf(),
            i <= ring@.len(),
            forall|k: int| 0 <= k < i ==> misses(#[trigger] edge_of(ring@, k), b),
        decreases ring@.len() - i,
    {
        let e = ring_edge(ring, i);
        assert(e.a == ring@[i as int] && e.b == ring@[next_of(ring@.len() as int, i as int)]);
        if !edge_misses(e, b) {
            assert(!misses(edge_of(ring@, i as int), b));
            return false;
        }
        i = i + 1;
    }
    true
}

/// A box on one side of a line is on that side with every point of it.
proof fn lemma_same_side(e: Seg, b: Bbox, p: Point)
    requires
        b.has(p.x as int, p.y as int),
    ensures
        ({
            let s = corner_sides(e, b);
            let c = cross(e.a, e.b, p);
            &&& s[0] > 0 && s[1] > 0 && s[2] > 0 && s[3] > 0 ==> c > 0
            &&& s[0] < 0 && s[1] < 0 && s[2] < 0 && s[3] < 0 ==> c < 0
        }),
{
    let (dx, dy) = (e.b.x - e.a.x, e.b.y - e.a.y);
    let c = cross(e.a, e.b, p);
    let (x, y) = (p.x - e.a.x, p.y - e.a.y);
    let (x0, x1) = (b.xlo - e.a.x, b.xhi - e.a.x);
    let (y0, y1) = (b.ylo - e.a.y, b.yhi - e.a.y);
    let s = corner_sides(e, b);
    assert(c == dx * y - dy * x);
    assert(s[0] == dx * y0 - dy * x0 && s[1] == dx * y0 - dy * x1);
    assert(s[2] == dx * y1 - dy * x1 && s[3] == dx * y1 - dy * x0);
    assert(dx >= 0 ==> dx * y0 <= dx * y && dx * y <= dx * y1) by (nonlinear_arith)
        requires
            y0 <= y <= y1,
    ;
    assert(dx <= 0 ==> dx * y1 <= dx * y && dx * y <= dx * y0) by (nonlinear_arith)
        requires
            y0 <= y <= y1,
    ;
    assert(dy >= 0 ==> dy * x0 <= dy * x && dy * x <= dy * x1) by (nonlinear_arith)
        requires
            x0 <= x <= x1,
    ;
    assert(dy <= 0 ==> dy * x1 <= dy * x && dy * x <= dy * x0) by (nonlinear_arith)
        requires
            x0 <= x <= x1,
    ;
}

/// An edge clear of a box crosses the rays of two points of the box on one level
/// alike.
proof fn lemma_level(e: Seg, b: Bbox, p: Point, q: Point)
    requires
        misses(e, b),
        b.has(p.x as int, p.y as int),
        b.has(q.x as int, q.y as int),
        p.y == q.y,
    ensures
        crosses_ray(e, p) == crosses_ray(e, q),
{
    lemma_same_side(e, b, p);
    lemma_same_side(e, b, q);
    if e.a.x < b.xlo && e.b.x < b.xlo {
        lemma_left_edge(e, p);
        lemma_left_edge(e, q);
    } else if e.a.x > b.xhi && e.b.x > b.xhi {
        lemma_right_edge(e, p);
        lemma_right_edge(e, q);
    }
}

/// Whether a vertex is on a level, and right of a point on it.
spec fn beyond(v: Point, q: Point) -> bool {
    v.y == q.y && v.x > q.x
}

/// An edge clear of a box crosses the rays of two points of the box one above the
/// other differently only by its ends on the upper level.
proof fn lemma_step_up(e: Seg, b: Bbox, p: Point, q: Point)
    requires
        misses(e, b),
        b.has(p.x as int, p.y as int),
        b.has(q.x as int, q.y as int),
        p.x == q.x,
        q.y == p.y + 1,
    ensures
        (crosses_ray(e, p) != crosses_ray(e, q)) == (beyond(e.a, q) != beyond(e.b, q)),
{
    lemma_same_side(e, b, p);
    lemma_same_side(e, b, q);
    let h = e.b.y - e.a.y;
    let (u, v) = (e.a.x - q.x, e.b.x - q.x);
    let c = cross(e.a, e.b, q);
    if e.a.x < b.xlo && e.b.x < b.xlo {
        lemma_left_edge(e, p);
        lemma_left_edge(e, q);
    } else if e.a.x > b.xhi && e.b.x > b.xhi {
        lemma_right_edge(e, p);
        lemma_right_edge(e, q);
    } else {
        let t = q.y - e.a.y;
        assert(c == (v - u) * t + h * u) by (nonlinear_arith)
            requires
                c == (v - u) * t - h * (-u),
        ;
        if q.y == e.a.y {
            assert(c == h * u) by (nonlinear_arith)
                requires
                    c == (v - u) * t + h * u,
                    t == 0,
            ;
            lemma_sign(h, u);
        }
        if q.y == e.b.y {
            assert(c == h * v) by (nonlinear_arith)
                requires
                    c == (v - u) * t + h * u,
                    t == h,
            ;
            lemma_sign(h, v);
        }
    }
}

proof fn lemma_sign(h: int, u: int)
    by (nonlinear_arith)
    ensures
        h > 0 ==> (h * u > 0 <==> u > 0),
        h < 0 ==> (h * u > 0 <==> u < 0),
        h > 0 ==> (h * u < 0 <==> u < 0),
        h < 0 ==> (h * u < 0 <==> u > 0),
        h == 0 ==> h * u == 0,
{
}

proof fn lemma_level_parity(ring: Seq<Point>, b: Bbox, p: Point, q: Point, n: nat)
    requires
        clear_of(ring, b),
        n <= ring.len(),
        b.has(p.x as int, p.y as int),
        b.has(q.x as int, q.y as int),
        p.y == q.y,
    ensures
        odd_crossings(ring, p, n) == odd_crossings(ring, q, n),
    decreases n,
{
    if n > 0 {
        lemma_level_parity(ring, b, p, q, (n - 1) as nat);
        lemma_level(edge_of(ring, n - 1), b, p, q);
    }
}

proof fn lemma_step_parity(ring: Seq<Point>, b: Bbox, p: Point, q: Point, n: nat)
    requires
        clear_of(ring, b),
        n <= ring.len(),
        b.has(p.x as int, p.y as int),
        b.has(q.x as int, q.y as int),
        p.x == q.x,
        q.y == p.y + 1,
    ensures
        (odd_crossings(ring, p, n) != odd_crossings(ring, q, n)) == (n > 0 && beyond(
            ring[0],
            q,
        ) != beyond(ring[next_of(ring.len() as int, n - 1)], q)),
    decreases n,
{
    if n > 0 {
        lemma_step_parity(ring, b, p, q, (n - 1) as nat);
        lemma_step_up(edge_of(ring, n - 1), b, p, q);
    }
}

/// A ring clear of a box has all of the box inside it or none: its parity is the
/// same at every point.
pub proof fn lemma_clear_of(ring: Seq<Point>, b: Bbox, p: Point, q: Point)
    requires
        clear_of(ring, b),
        b.has(p.x as int, p.y as int),
        b.has(q.x as int, q.y as int),
    ensures
        inside(ring, p) == inside(ring, q),
    decreases (if p.y < q.y { q.y - p.y } else { p.y - q.y }),
{
    let n = ring.len();
    if n == 0 {
    } else if p.y == q.y {
        lemma_level_parity(ring, b, p, q, n);
    } else if p.y < q.y {
        let up = Point { x: p.x, y: (p.y + 1) as i64 };
        lemma_step_parity(ring, b, p, up, n);
        lemma_clear_of(ring, b, up, q);
    } else {
        let up = Point { x: q.x, y: (q.y + 1) as i64 };
        lemma_step_parity(ring, b, q, up, n);
        lemma_clear_of(ring, b, p, up);
    }
}

/// A ring clear of a box has no edge through a point of it.
pub proof fn lemma_clear_points(ring: Seq<Point>, b: Bbox, p: Point)
    requires
        clear_of(ring, b),
        b.has(p.x as int, p.y as int),
    ensures
        !on_edges(ring, p, ring.len()),
{
    assert forall|i: int| 0 <= i < ring.len() implies !on_segment(
        #[trigger] edge_of(ring, i),
        p,
    ) by {
        assert(misses(edge_of(ring, i), b));
        lemma_same_side(edge_of(ring, i), b, p);
    }
}

} // verus!
