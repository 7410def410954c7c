//! How near an edge runs to a point that a ring parts from another.
use crate::clearance::{clear_of, corner_sides, lemma_clear_of, misses};
use crate::distance::{along, lemma_place, length2, point_dist2, seg_dist2};
use crate::geom::{min_int, Bbox, Point, Seg};
use crate::ring::{cross, edge_of, inside, on_segment};
use vstd::prelude::*;

verus! {

spec fn flip(p: Point) -> Point {
    Point { x: p.y, y: p.x }
}

spec fn flip_seg(s: Seg) -> Seg {
    Seg { a: flip(s.a), b: flip(s.b) }
}

spec fn flip_box(b: Bbox) -> Bbox {
    Bbox { xlo: b.ylo, ylo: b.xlo, xhi: b.yhi, yhi: b.xhi }
}

proof fn lemma_flip_cross(s: Seg, p: Point)
    ensures
        cross(flip(s.a), flip(s.b), flip(p)) == -cross(s.a, s.b, p),
{
}

/// Swapping the axes keeps distances, and what a segment misses.
proof fn lemma_flip(s: Seg, x: Point, b: Bbox)
    ensures
        seg_dist2(flip(x), flip_seg(s)) == seg_dist2(x, s),
        misses(flip_seg(s), flip_box(b)) == misses(s, b),
{
    lemma_flip_cross(s, x);
    let c = cross(s.a, s.b, x);
    assert((-c) * (-c) == c * c) by (nonlinear_arith);
    let t = flip_seg(s);
    lemma_flip_cross(s, Point { x: b.xlo, y: b.ylo });
    lemma_flip_cross(s, Point { x: b.xhi, y: b.ylo });
    lemma_flip_cross(s, Point { x: b.xhi, y: b.yhi });
    lemma_flip_cross(s, Point { x: b.xlo, y: b.yhi });
    let (u, v) = (corner_sides(s, b), corner_sides(t, flip_box(b)));
    assert(v[0] == -u[0] && v[1] == -u[3] && v[2] == -u[2] && v[3] == -u[1]);
}

/// A coordinate within `r` of both ends of an interval has a square of at most
/// `r * r` to everything between.
proof fn lemma_far_square(w: int, r: int, k: int)
    by (nonlinear_arith)
    requires
        k >= 0,
        r >= 0,
        -(k * r) <= w <= k * r,
    ensures
        w * w <= (k * k) * (r * r),
        k == 1 ==> w * w <= r * r,
{
}

/// The place a segment crosses an upright line, seen from a point.
proof fn lemma_crossing(dx: int, dy: int, ux: int, uy: int, k: int)
    ensures
        dx * (dx * uy - dy * ux) == dx * (dx * uy - dy * k) - dy * (dx * (ux - k)),
        dx * (ux * dx + uy * dy) - k * (dx * dx + dy * dy) == (dx * (ux - k)) * dx + (dx * uy - dy
            * k) * dy,
{
    let (a, b) = (dx * uy - dy * ux, dx * uy - dy * k);
    assert(dy * ux - dy * k == dy * (ux - k)) by (nonlinear_arith);
    assert(dx * a == dx * b - dx * (dy * (ux - k))) by (nonlinear_arith)
        requires
            a == b - dy * (ux - k),
    ;
    let r = ux - k;
    assert(dx * (dy * r) == dy * (dx * r)) by (nonlinear_arith);
    let (p, q) = (dx * dx, dy * dy);
    assert(dx * (ux * dx + uy * dy) == ux * p + (dx * uy) * dy) by (nonlinear_arith)
        requires
            p == dx * dx,
    ;
    assert(k * (p + q) == k * p + k * q) by (nonlinear_arith);
    assert((dx * r) * dx == ux * p - k * p) by (nonlinear_arith)
        requires
            p == dx * dx,
            r == ux - k,
    ;
    assert((dx * uy - dy * k) * dy == (dx * uy) * dy - k * q) by (nonlinear_arith)
        requires
            q == dy * dy,
    ;
}

/// A segment that touches an upright line of points is no further from a point than
/// the line's ends are, measured axis by axis.
proof fn lemma_meets_upright(s: Seg, x: Point, b: Bbox, rx: int, ry: int)
    requires
        b.xlo == b.xhi,
        b.ylo <= b.yhi,
        !misses(s, b),
        rx >= 0,
        ry >= 0,
        -rx <= x.x - b.xlo <= rx,
        -ry <= x.y - b.ylo <= ry,
        -ry <= x.y - b.yhi <= ry,
    ensures
        seg_dist2(x, s) <= rx * rx + ry * ry,
{
    let (dx, dy) = (s.b.x - s.a.x, s.b.y - s.a.y);
    let d2 = rx * rx + ry * ry;
    let x0 = b.xlo as int;
    if dx == 0 && dy == 0 {
        let (wx, wy) = (s.a.x - x.x, s.a.y - x.y);
        assert(along(s, x) == 0) by (nonlinear_arith)
            requires
                along(s, x) == (x.x - s.a.x) * dx + (x.y - s.a.y) * dy,
                dx == 0,
                dy == 0,
        ;
        lemma_far_square(wx, rx, 1);
        lemma_far_square(wy, ry, 1);
    } else if dx == 0 {
        let lo = min_int(s.a.y as int, s.b.y as int);
        let py = if lo > b.ylo { lo } else { b.ylo as int };
        let (wx, wy) = (x.x - x0, x.y - py);
        let tn = (py - s.a.y) * dy;
        lemma_far_square(wx, rx, 1);
        lemma_far_square(wy, ry, 1);
        let l = length2(s);
        assert(l == dy * dy && l > 0) by (nonlinear_arith)
            requires
                l == dx * dx + dy * dy,
                dx == 0,
                dy != 0,
        ;
        let q = py - s.a.y;
        assert(0 <= tn <= l) by (nonlinear_arith)
            requires
                tn == q * dy,
                l == dy * dy,
                0 <= q <= dy || dy <= q <= 0,
        ;
        let (c, t) = (cross(s.a, s.b, x), along(s, x));
        let uy = x.y - s.a.y;
        assert(c == dx * wy - dy * wx) by (nonlinear_arith)
            requires
                c == dx * uy - dy * wx,
                dx == 0,
        ;
        assert(t - tn == wx * dx + wy * dy) by (nonlinear_arith)
            requires
                t == wx * dx + uy * dy,
                tn == q * dy,
                wy == uy - q,
        ;
        lemma_place(s, x, wx, wy, tn, 1, d2);
    } else {
        let (ux, uy, k) = (x.x - s.a.x, x.y - s.a.y, x0 - s.a.x);
        let (y0, y1) = (b.ylo - s.a.y, b.yhi - s.a.y);
        let (lo, hi) = (dx * y0 - dy * k, dx * y1 - dy * k);
        let m = corner_sides(s, b);
        assert(m[0] == lo && m[1] == lo && m[2] == hi && m[3] == hi);
        let l = length2(s);
        assert(l > 0) by (nonlinear_arith)
            requires
                l == dx * dx + dy * dy,
                dx != 0,
        ;
        let r = ux - k;
        let (vx, vy) = (dx * r, dx * uy - dy * k);
        assert(vy == dx * (uy - y0) + lo && vy == dx * (uy - y1) + hi) by (nonlinear_arith)
            requires
                vy == dx * uy - dy * k,
                lo == dx * y0 - dy * k,
                hi == dx * y1 - dy * k,
        ;
        let (a0, a1) = (uy - y0, uy - y1);
        lemma_crossing(dx, dy, ux, uy, k);
        let (c, t) = (cross(s.a, s.b, x), along(s, x));
        if dx > 0 {
            lemma_at_most(dx, r, rx);
            lemma_at_most(dx, a0, ry);
            lemma_at_most(dx, a1, ry);
            assert(lo <= hi) by (nonlinear_arith)
                requires
                    lo == dx * y0 - dy * k,
                    hi == dx * y1 - dy * k,
                    y0 <= y1,
                    dx > 0,
            ;
            assert(0 <= k * l <= l * dx) by (nonlinear_arith)
                requires
                    0 <= k <= dx,
                    l > 0,
            ;
            lemma_far_square(vx, rx, dx);
            lemma_far_square(vy, ry, dx);
            lemma_spread(dx, rx, ry);
            lemma_place(s, x, vx, vy, k * l, dx, d2);
        } else {
            let td = -dx;
            lemma_at_most(td, r, rx);
            lemma_at_most(td, a0, ry);
            lemma_at_most(td, a1, ry);
            assert(lo >= hi) by (nonlinear_arith)
                requires
                    lo == dx * y0 - dy * k,
                    hi == dx * y1 - dy * k,
                    y0 <= y1,
                    dx < 0,
            ;
            assert(td * r == -vx && td * a0 == -(dx * a0) && td * a1 == -(dx * a1))
                by (nonlinear_arith)
                requires
                    td == -dx,
                    vx == dx * r,
            ;
            assert(0 <= (-k) * l <= l * td) by (nonlinear_arith)
                requires
                    0 <= -k <= td,
                    l > 0,
            ;
            lemma_far_square(-vx, rx, td);
            lemma_far_square(-vy, ry, td);
            lemma_spread(td, rx, ry);
            assert(td * c == -(dx * c) && dx * (-vy) - dy * (-vx) == -(dx * vy - dy * vx))
                by (nonlinear_arith)
                requires
                    td == -dx,
            ;
            assert(td * t - (-k) * l == -(dx * t - k * l) && (-vx) * dx + (-vy) * dy == -(vx * dx
                + vy * dy)) by (nonlinear_arith)
                requires
                    td == -dx,
            ;
            lemma_place(s, x, -vx, -vy, (-k) * l, td, d2);
        }
    }
}

proof fn lemma_at_most(d: int, a: int, r: int)
    by (nonlinear_arith)
    requires
        d > 0,
    ensures
        a <= r ==> d * a <= d * r,
        a >= -r ==> d * a >= -(d * r),
{
}

proof fn lemma_spread(d: int, rx: int, ry: int)
    by (nonlinear_arith)
    ensures
        d * d * (rx * rx + ry * ry) == (d * d) * (rx * rx) + (d * d) * (ry * ry),
{
}

/// A segment through a point is no further from another point than the two are
/// apart.
pub proof fn lemma_through(s: Seg, x: Point, q: Point)
    requires
        on_segment(s, q),
    ensures
        seg_dist2(x, s) <= point_dist2(x, q),
{
    let b = Bbox { xlo: q.x, ylo: q.y, xhi: q.x, yhi: q.y };
    let (dx, dy) = (x.x - q.x, x.y - q.y);
    let (rx, ry) = (if dx < 0 { -dx } else { dx }, if dy < 0 { -dy } else { dy });
    lemma_meets_upright(s, x, b, rx, ry);
    lemma_abs_squares(x, q, rx, ry);
}

proof fn lemma_abs_squares(x: Point, q: Point, rx: int, ry: int)
    requires
        rx == x.x - q.x || rx == q.x - x.x,
        ry == x.y - q.y || ry == q.y - x.y,
    ensures
        point_dist2(x, q) == rx * rx + ry * ry,
        point_dist2(q, x) == rx * rx + ry * ry,
{
    let (dx, dy) = (q.x - x.x, q.y - x.y);
    assert((-dx) * (-dx) == dx * dx && (-dy) * (-dy) == dy * dy) by (nonlinear_arith);
}

/// Where a ring has one of two points inside it and not the other, an edge of it is
/// as near to each of them as they are to each other.
pub proof fn lemma_parted(ring: Seq<Point>, p: Point, q: Point) -> (i: int)
    requires
        inside(ring, p) != inside(ring, q),
    ensures
        0 <= i < ring.len(),
        seg_dist2(p, edge_of(ring, i)) <= point_dist2(p, q),
        seg_dist2(q, edge_of(ring, i)) <= point_dist2(p, q),
{
    let (dx, dy) = (p.x - q.x, p.y - q.y);
    let (rx, ry) = (if dx < 0 { -dx } else { dx }, if dy < 0 { -dy } else { dy });
    lemma_abs_squares(p, q, rx, ry);
    // The two are joined along one level and then one upright line.
    let turn = Point { x: q.x, y: p.y };
    let level = Bbox {
        xlo: if p.x < q.x { p.x } else { q.x },
        ylo: p.y,
        xhi: if p.x < q.x { q.x } else { p.x },
        yhi: p.y,
    };
    let upright = Bbox {
        xlo: q.x,
        ylo: if p.y < q.y { p.y } else { q.y },
        xhi: q.x,
        yhi: if p.y < q.y { q.y } else { p.y },
    };
    if inside(ring, p) != inside(ring, turn) {
        if clear_of(ring, level) {
            lemma_clear_of(ring, level, p, turn);
        }
        let i = choose|i: int|
            0 <= i < ring.len() && !misses(#[trigger] edge_of(ring, i), level);
        let e = edge_of(ring, i);
        lemma_flip(e, p, level);
        lemma_flip(e, q, level);
        lemma_meets_upright(flip_seg(e), flip(p), flip_box(level), ry, rx);
        lemma_meets_upright(flip_seg(e), flip(q), flip_box(level), ry, rx);
        i
    } else {
        if clear_of(ring, upright) {
            lemma_clear_of(ring, upright, turn, q);
        }
        let i = choose|i: int|
            0 <= i < ring.len() && !misses(#[trigger] edge_of(ring, i), upright);
        let e = edge_of(ring, i);
        lemma_meets_upright(e, p, upright, rx, ry);
        lemma_meets_upright(e, q, upright, rx, ry);
        i
    }
}

} // verus!
