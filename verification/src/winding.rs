//! What the area of a ring is.
use crate::geom::{half_sum, Bbox, Point};
use crate::ring::{doubled_area, doubled_area_to, next_of};
use vstd::prelude::*;

verus! {

/// A rectangle walked counter-clockwise has twice its width times its height as its
/// doubled area, and walked the other way the same with a minus sign.
pub proof fn lemma_rectangle_area(ring: Seq<Point>)
    requires
        ring.len() == 4,
        ring[1].y == ring[0].y,
        ring[2].x == ring[1].x,
        ring[3].y == ring[2].y,
        ring[3].x == ring[0].x,
    ensures
        doubled_area(ring) == 2 * ((ring[2].x - ring[0].x) * (ring[2].y - ring[0].y)),
        doubled_area(ring.reverse()) == -doubled_area(ring),
{
    reveal_with_fuel(doubled_area_to, 5);
    let (a, b, c, d) = (
        ring[0].x as int,
        ring[0].y as int,
        ring[2].x as int,
        ring[2].y as int,
    );
    let back = ring.reverse();
    assert(back[0] == ring[3] && back[1] == ring[2] && back[2] == ring[1] && back[3] == ring[0]);
    assert(next_of(4, 0) == 1 && next_of(4, 1) == 2 && next_of(4, 2) == 3 && next_of(4, 3) == 0);
    assert((a * b - c * b) + (c * d - c * b) + (c * d - a * d) + (a * b - a * d) == 2 * ((c - a)
        * (d - b))) by (nonlinear_arith);
    assert((a * d - c * d) + (c * b - c * d) + (c * b - a * b) + (a * d - a * b) == -(2 * ((c - a)
        * (d - b)))) by (nonlinear_arith);
    assert(c * d - c * b == c * d - b * c) by (nonlinear_arith);
}

proof fn lemma_moved_area_to(a: Seq<Point>, b: Seq<Point>, dx: int, dy: int, n: nat)
    requires
        a.len() == b.len(),
        n <= a.len(),
        forall|i: int|
            0 <= i < a.len() ==> (#[trigger] b[i]).x == a[i].x + dx && b[i].y == a[i].y + dy,
    ensures
        doubled_area_to(b, n) == doubled_area_to(a, n) + (if n == 0 {
            0
        } else {
            let last = a[next_of(a.len() as int, n - 1)];
            dx * (last.y - a[0].y) - dy * (last.x - a[0].x)
        }),
    decreases n,
{
    if n > 0 {
        let m = (n - 1) as nat;
        lemma_moved_area_to(a, b, dx, dy, m);
        let len = a.len() as int;
        let (i, j) = (n - 1, next_of(len, n - 1));
        let (p, q) = (a[i], a[j]);
        assert(b[i].x == p.x + dx && b[j].x == q.x + dx);
        let (px, py, qx, qy) = (p.x as int, p.y as int, q.x as int, q.y as int);
        assert((px + dx) * (qy + dy) - (qx + dx) * (py + dy) == (px * qy - qx * py) + dx * (qy - py)
            - dy * (qx - px)) by (nonlinear_arith);
        let (ox, oy) = (a[0].x as int, a[0].y as int);
        assert(dx * (py - oy) + dx * (qy - py) == dx * (qy - oy) && dy * (px - ox) + dy * (qx - px)
            == dy * (qx - ox)) by (nonlinear_arith);
        if m == 0 {
            assert(dx * (py - oy) == 0 && dy * (px - ox) == 0) by (nonlinear_arith)
                requires
                    py == oy,
                    px == ox,
            ;
        } else {
            assert(next_of(len, m - 1) == m);
        }
    }
}

/// A ring moved as a whole keeps its area.
pub proof fn lemma_moving_keeps_the_area(a: Seq<Point>, b: Seq<Point>, dx: int, dy: int)
    requires
        a.len() == b.len(),
        forall|i: int|
            0 <= i < a.len() ==> (#[trigger] b[i]).x == a[i].x + dx && b[i].y == a[i].y + dy,
    ensures
        doubled_area(a) == doubled_area(b),
{
    lemma_moved_area_to(a, b, dx, dy, a.len());
    if a.len() > 0 {
        assert(next_of(a.len() as int, a.len() - 1) == 0);
        assert(dx * 0 == 0 && dy * 0 == 0);
    }
}

/// Half of a sum is the middle, rounded toward zero: the same distance from zero on
/// either side of it.
pub proof fn lemma_middle_rounds_toward_zero(a: int, b: int)
    ensures
        a + b >= 0 ==> 0 <= (a + b) - 2 * half_sum(a, b) <= 1,
        a + b <= 0 ==> -1 <= (a + b) - 2 * half_sum(a, b) <= 0,
        half_sum(-a, -b) == -half_sum(a, b),
        half_sum(a, b) == half_sum(b, a),
        a <= b ==> a <= half_sum(a, b) <= b,
{
}

/// Two boxes meet exactly where they share a point, and their shared part has exactly the
/// points both have.
pub proof fn lemma_boxes_meet_in_points(a: Bbox, b: Bbox, x: int, y: int)
    requires
        a.wf(),
        b.wf(),
    ensures
        a.meets(b) <==> exists|p: int, q: int| #[trigger] a.has(p, q) && b.has(p, q),
        a.clip(b).has(x, y) <==> a.has(x, y) && b.has(x, y),
        a.holds(b) <==> forall|p: int, q: int| #[trigger] b.has(p, q) ==> a.has(p, q),
{
    let c = a.clip(b);
    if a.meets(b) {
        assert(a.has(c.xlo as int, c.ylo as int) && b.has(c.xlo as int, c.ylo as int));
    }
    if forall|p: int, q: int| #[trigger] b.has(p, q) ==> a.has(p, q) {
        assert(b.has(b.xlo as int, b.ylo as int));
        assert(b.has(b.xhi as int, b.yhi as int));
    }
}

} // verus!
