//! Exact squared distances and integer roots.
use crate::geom::{max_int, min_int, Point, Seg};
use crate::ring::{cross, side};
use vstd::prelude::*;

verus! {

/// Squared distance between two points.
pub open spec fn point_dist2(p: Point, q: Point) -> int {
    (q.x - p.x) * (q.x - p.x) + (q.y - p.y) * (q.y - p.y)
}

/// Squared length of a segment.
pub open spec fn length2(s: Seg) -> int {
    point_dist2(s.a, s.b)
}

/// `(p - a) . (b - a)`.
pub open spec fn along(s: Seg, p: Point) -> int {
    (p.x - s.a.x) * (s.b.x - s.a.x) + (p.y - s.a.y) * (s.b.y - s.a.y)
}

/// Squared distance from a point to a closed segment, rounded down where the
/// nearest point of an oblique segment falls between coordinates.
pub open spec fn seg_dist2_down(p: Point, s: Seg) -> int {
    let l = length2(s);
    let t = along(s, p);
    if t <= 0 {
        point_dist2(p, s.a)
    } else if t >= l {
        point_dist2(p, s.b)
    } else {
        (cross(s.a, s.b, p) * cross(s.a, s.b, p)) / l
    }
}

/// Squared distance from a point to a closed segment, rounded up where the nearest
/// point of an oblique segment falls between coordinates: it is at most a whole number
/// exactly where the distance itself is.
pub open spec fn seg_dist2(p: Point, s: Seg) -> int {
    let l = length2(s);
    let t = along(s, p);
    let c2 = cross(s.a, s.b, p) * cross(s.a, s.b, p);
    if 0 < t < l && c2 % l != 0 {
        seg_dist2_down(p, s) + 1
    } else {
        seg_dist2_down(p, s)
    }
}

/// A whole number bounds the rounded distance exactly where it bounds the distance: off
/// the middle of a segment the square of the cross product over the squared length.
pub proof fn lemma_seg_dist2_is_exact(p: Point, s: Seg, d2: int)
    requires
        0 < along(s, p) < length2(s),
    ensures
        seg_dist2(p, s) <= d2 <==> cross(s.a, s.b, p) * cross(s.a, s.b, p) <= d2 * length2(s),
{
    let l = length2(s);
    let cc = cross(s.a, s.b, p) * cross(s.a, s.b, p);
    vstd::arithmetic::div_mod::lemma_fundamental_div_mod(cc, l);
    let (q, m) = (cc / l, cc % l);
    assert(q + 1 <= d2 ==> cc <= d2 * l) by (nonlinear_arith)
        requires
            cc == l * q + m,
            0 <= m < l,
    ;
    assert(q <= d2 && m == 0 ==> cc <= d2 * l) by (nonlinear_arith)
        requires
            cc == l * q + m,
            l > 0,
    ;
    assert(q > d2 ==> cc > d2 * l || m == 0 && cc >= d2 * l + l) by (nonlinear_arith)
        requires
            cc == l * q + m,
            m >= 0,
            l > 0,
    ;
    assert(q == d2 && m > 0 ==> cc > d2 * l) by (nonlinear_arith)
        requires
            cc == l * q + m,
    ;
}

/// A squared distance is never negative.
pub proof fn lemma_seg_dist2_positive(p: Point, s: Seg)
    ensures
        seg_dist2(p, s) >= 0,
{
    let c = cross(s.a, s.b, p);
    let (ax, ay, bx, by) = (s.a.x - p.x, s.a.y - p.y, s.b.x - p.x, s.b.y - p.y);
    assert(c * c >= 0 && ax * ax >= 0 && ay * ay >= 0 && bx * bx >= 0 && by * by >= 0)
        by (nonlinear_arith);
    if 0 < along(s, p) < length2(s) {
        vstd::arithmetic::div_mod::lemma_div_pos_is_pos(c * c, length2(s));
    }
}

/// Whether a segment runs along one axis.
pub open spec fn axis_parallel(s: Seg) -> bool {
    s.a.x == s.b.x || s.a.y == s.b.y
}

/// How far a coordinate is outside the closed interval two others span.
pub open spec fn gap(v: int, a: int, b: int) -> int {
    let lo = min_int(a, b);
    let hi = max_int(a, b);
    if v < lo { lo - v } else if v > hi { v - hi } else { 0 }
}

/// Squared distance from a point to a segment's bounding box.
pub open spec fn box_dist2(p: Point, s: Seg) -> int {
    let gx = gap(p.x as int, s.a.x as int, s.b.x as int);
    let gy = gap(p.y as int, s.a.y as int, s.b.y as int);
    gx * gx + gy * gy
}

proof fn lemma_square_bound(u: int)
    by (nonlinear_arith)
    requires
        -0x200_0000_0000 <= u <= 0x200_0000_0000,
    ensures
        0 <= u * u <= 0x4_0000_0000_0000_0000_0000,
{
}

pub fn dist2_points(p: Point, q: Point) -> (r: i128)
    requires
        p.wf(),
        q.wf(),
    ensures
        r == point_dist2(p, q),
        0 <= r <= 0x8_0000_0000_0000_0000_0000,
{
    let dx: i128 = (q.x - p.x) as i128;
    let dy: i128 = (q.y - p.y) as i128;
    proof {
        lemma_square_bound(dx as int);
        lemma_square_bound(dy as int);
    }
    dx * dx + dy * dy
}

/// `a * b / l`, rounded down, with its remainder.
fn mul_div(a: u128, b: u128, l: u128) -> (r: (u128, u128))
    requires
        b < l,
        l < 0x1000_0000_0000_0000_0000_0000_0000_0000,
        a < 0x1000_0000_0000_0000_0000_0000_0000_0000,
    ensures
        a * b == r.0 * l + r.1,
        r.1 < l,
        r.0 <= a,
    decreases a,
{
    if a == 0 {
        assert(0 * b == 0 && 0 * l == 0) by (nonlinear_arith);
        return (0, 0);
    }
    let h: u128 = a / 2;
    let (q, m) = mul_div(h, b, l);
    let mut q2: u128 = 2 * q;
    let mut m2: u128 = 2 * m + if a % 2 == 1 { b } else { 0 };
    proof {
        let odd = if a % 2 == 1 { b as int } else { 0int };
        assert(a * b == 2 * (h * b) + odd) by (nonlinear_arith)
            requires
                a == 2 * h + (if odd == 0 && a % 2 == 0 { 0int } else { 1int }) || a == 2 * h + 1
                    || a == 2 * h,
                odd == (if a % 2 == 1 { b as int } else { 0int }),
                h == a / 2,
        ;
        assert((2 * q) * l == 2 * (q * l)) by (nonlinear_arith);
    }
    if m2 >= l {
        assert((q2 + 1) * l == q2 * l + l) by (nonlinear_arith);
        m2 = m2 - l;
        q2 = q2 + 1;
    }
    if m2 >= l {
        assert((q2 + 1) * l == q2 * l + l) by (nonlinear_arith);
        m2 = m2 - l;
        q2 = q2 + 1;
    }
    proof {
        assert(q2 <= a) by (nonlinear_arith)
            requires
                a * b == q2 * l + m2,
                m2 >= 0,
                b < l,
                l > 0,
        ;
    }
    (q2, m2)
}

proof fn lemma_sum_of_squares(dx: int, dy: int, ux: int, uy: int)
    ensures
        (dx * uy - dy * ux) * (dx * uy - dy * ux) + (ux * dx + uy * dy) * (ux * dx + uy * dy) == (dx
            * dx + dy * dy) * (ux * ux + uy * uy),
{
    let (a, b, c, d) = (dx * uy, dy * ux, ux * dx, uy * dy);
    let (p, q, r, s) = (dx * dx, dy * dy, ux * ux, uy * uy);
    assert(a * b == c * d) by (nonlinear_arith)
        requires
            a == dx * uy,
            b == dy * ux,
            c == ux * dx,
            d == uy * dy,
    ;
    assert(a * a == p * s) by (nonlinear_arith)
        requires
            a == dx * uy,
            p == dx * dx,
            s == uy * uy,
    ;
    assert(b * b == q * r) by (nonlinear_arith)
        requires
            b == dy * ux,
            q == dy * dy,
            r == ux * ux,
    ;
    assert(c * c == p * r) by (nonlinear_arith)
        requires
            c == ux * dx,
            p == dx * dx,
            r == ux * ux,
    ;
    assert(d * d == q * s) by (nonlinear_arith)
        requires
            d == uy * dy,
            q == dy * dy,
            s == uy * uy,
    ;
    assert((a - b) * (a - b) == a * a - 2 * (a * b) + b * b) by (nonlinear_arith);
    assert((c + d) * (c + d) == c * c + 2 * (c * d) + d * d) by (nonlinear_arith);
    assert((p + q) * (r + s) == p * r + p * s + q * r + q * s) by (nonlinear_arith);
}

/// Lagrange's identity.
proof fn lemma_lagrange(s: Seg, p: Point)
    ensures
        cross(s.a, s.b, p) * cross(s.a, s.b, p) + along(s, p) * along(s, p) == length2(s)
            * point_dist2(p, s.a),
{
    let dx = s.b.x - s.a.x;
    let dy = s.b.y - s.a.y;
    let ux = p.x - s.a.x;
    let uy = p.y - s.a.y;
    lemma_sum_of_squares(dx, dy, ux, uy);
    assert((s.a.x - p.x) * (s.a.x - p.x) == ux * ux) by (nonlinear_arith)
        requires
            ux == p.x - s.a.x,
    ;
    assert((s.a.y - p.y) * (s.a.y - p.y) == uy * uy) by (nonlinear_arith)
        requires
            uy == p.y - s.a.y,
    ;
}

/// Squared distance from a point to a closed segment, rounded down and rounded up.
fn rounded_dist2(p: Point, s: Seg) -> (r: (i128, i128))
    requires
        p.wf(),
        s.wf(),
    ensures
        r.0 == seg_dist2_down(p, s),
        r.1 == seg_dist2(p, s),
        0 <= r.0 <= r.1 <= 0x8_0000_0000_0000_0000_0000,
{
    let l: i128 = dist2_points(s.a, s.b);
    let dx: i128 = (s.b.x - s.a.x) as i128;
    let dy: i128 = (s.b.y - s.a.y) as i128;
    let ux: i128 = (p.x - s.a.x) as i128;
    let uy: i128 = (p.y - s.a.y) as i128;
    proof {
        lemma_cross_bound(ux as int, dx as int);
        lemma_cross_bound(uy as int, dy as int);
    }
    let t: i128 = ux * dx + uy * dy;
    if t <= 0 {
        let d: i128 = dist2_points(p, s.a);
        return (d, d);
    }
    if t >= l {
        let d: i128 = dist2_points(p, s.b);
        return (d, d);
    }
    let signed: i128 = side(s.a, s.b, p);
    let c: u128 = if signed < 0 { (-signed) as u128 } else { signed as u128 };
    let ul: u128 = l as u128;
    let q0: u128 = c / ul;
    let r0: u128 = c % ul;
    let ghost far = point_dist2(p, s.a);
    let (q1, m1) = mul_div(c, r0, ul);
    proof {
        lemma_lagrange(s, p);
        let x = cross(s.a, s.b, p);
        assert(x * x == c * c) by (nonlinear_arith)
            requires
                c == x || c == -x,
        ;
        assert(c == q0 * ul + r0) by (nonlinear_arith)
            requires
                q0 == c / ul,
                r0 == c % ul,
                ul > 0,
        ;
        assert(c * c == (q0 * c + q1) * ul + m1) by (nonlinear_arith)
            requires
                c == q0 * ul + r0,
                c * r0 == q1 * ul + m1,
        ;
        let tt = along(s, p);
        assert(tt * tt >= 0) by (nonlinear_arith);
        lemma_square_bound(s.a.x - p.x);
        lemma_square_bound(s.a.y - p.y);
        assert(0 <= far <= 0x8_0000_0000_0000_0000_0000);
        assert(q0 * c >= 0 && q1 >= 0) by (nonlinear_arith)
            requires
                q0 >= 0,
                c >= 0,
                q1 >= 0,
        ;
        assert(q0 * c + q1 <= far && (m1 > 0 ==> q0 * c + q1 < far)) by (nonlinear_arith)
            requires
                (q0 * c + q1) * ul + m1 <= ul * far,
                m1 >= 0,
                ul > 0,
        ;
        let whole = q0 * c + q1;
        assert(c * c / (ul as int) == whole && (c * c) % (ul as int) == m1) by {
            vstd::arithmetic::div_mod::lemma_fundamental_div_mod_converse(
                (c * c) as int,
                ul as int,
                whole as int,
                m1 as int,
            );
        }
    }
    let down: i128 = (q0 * c + q1) as i128;
    (down, if m1 > 0 { down + 1 } else { down })
}

/// Squared distance from a point to a closed segment, rounded up.
pub fn point_seg_dist2(p: Point, s: Seg) -> (r: i128)
    requires
        p.wf(),
        s.wf(),
    ensures
        r == seg_dist2(p, s),
        0 <= r <= 0x8_0000_0000_0000_0000_0000,
{
    rounded_dist2(p, s).1
}

/// Squared distance from a point to a closed segment, rounded down.
pub fn point_seg_dist2_down(p: Point, s: Seg) -> (r: i128)
    requires
        p.wf(),
        s.wf(),
    ensures
        r == seg_dist2_down(p, s),
        0 <= r <= 0x8_0000_0000_0000_0000_0000,
{
    rounded_dist2(p, s).0
}

proof fn lemma_cross_bound(u: int, v: int)
    by (nonlinear_arith)
    requires
        -0x200_0000_0000 <= u <= 0x200_0000_0000,
        -0x200_0000_0000 <= v <= 0x200_0000_0000,
    ensures
        -0x4_0000_0000_0000_0000_0000 <= u * v <= 0x4_0000_0000_0000_0000_0000,
{
}

/// The largest integer whose square is at most `v`.
pub open spec fn is_root(v: int, r: int) -> bool {
    0 <= r && r * r <= v < (r + 1) * (r + 1)
}

/// A number has one root, rounded down.
pub proof fn lemma_one_root(v: int, a: int, b: int)
    requires
        is_root(v, a),
        is_root(v, b),
    ensures
        a == b,
{
    assert(a <= b && b <= a) by (nonlinear_arith)
        requires
            0 <= a,
            0 <= b,
            a * a <= v < (a + 1) * (a + 1),
            b * b <= v < (b + 1) * (b + 1),
    ;
}

/// The integer square root, rounded down.
pub fn isqrt(v: i128) -> (r: i64)
    requires
        0 <= v <= 0x400_0000_0000_0000_0000_0000,
    ensures
        is_root(v as int, r as int),
        r <= 0x2000_0000_0000,
{
    let mut lo: i64 = 0;
    let mut hi: i64 = 0x2000_0000_0001;
    assert(
        0x2000_0000_0001 * 0x2000_0000_0001 > 0x400_0000_0000_0000_0000_0000
    ) by (nonlinear_arith);
    while hi - lo > 1
        invariant
            0 <= lo < hi <= 0x2000_0000_0001,
            lo * lo <= v < hi * hi,
        decreases hi - lo,
    {
        let mid: i64 = lo + (hi - lo) / 2;
        assert(0 <= mid * mid <= 0x2000_0000_0001 * 0x2000_0000_0001) by (nonlinear_arith)
            requires
                0 <= mid <= 0x2000_0000_0001,
        ;
        if mid as i128 * mid as i128 <= v {
            lo = mid;
        } else {
            hi = mid;
        }
    }
    lo
}

/// Whether `r` is the smallest integer whose square is at least `v`.
pub open spec fn is_root_up(v: int, r: int) -> bool {
    0 <= r && v <= r * r && (r > 0 ==> (r - 1) * (r - 1) < v)
}

/// A number has one root, rounded up.
pub proof fn lemma_one_root_up(v: int, a: int, b: int)
    requires
        is_root_up(v, a),
        is_root_up(v, b),
    ensures
        a == b,
{
    assert(a <= b) by (nonlinear_arith)
        requires
            0 <= a,
            0 <= b,
            v <= b * b,
            a > 0 ==> (a - 1) * (a - 1) < v,
    ;
    assert(b <= a) by (nonlinear_arith)
        requires
            0 <= a,
            0 <= b,
            v <= a * a,
            b > 0 ==> (b - 1) * (b - 1) < v,
    ;
}

/// The smallest integer at least the square root of an area.
///
/// Rounded up, because rounding a bound down would prune away the maximum it is
/// meant to protect.
pub fn isqrt_ceil(v: i128) -> (r: i64)
    requires
        0 <= v <= 0x400_0000_0000_0000_0000_0000,
    ensures
        is_root_up(v as int, r as int),
        r <= 0x2000_0000_0001,
{
    let root: i64 = isqrt(v);
    assert(0 <= root * root <= 0x2000_0000_0000 * 0x2000_0000_0000) by (nonlinear_arith)
        requires
            0 <= root <= 0x2000_0000_0000,
    ;
    if root as i128 * root as i128 == v {
        assert(root > 0 ==> (root - 1) * (root - 1) < root * root) by (nonlinear_arith)
            requires
                root >= 0,
        ;
        root
    } else {
        root + 1
    }
}

/// An axis-parallel segment is its own bounding box.
pub proof fn lemma_axis_parallel_dist2(p: Point, s: Seg)
    requires
        axis_parallel(s),
    ensures
        seg_dist2(p, s) == box_dist2(p, s),
{
    let dx = s.b.x - s.a.x;
    let dy = s.b.y - s.a.y;
    let ux = p.x - s.a.x;
    let uy = p.y - s.a.y;
    let gx = gap(p.x as int, s.a.x as int, s.b.x as int);
    let gy = gap(p.y as int, s.a.y as int, s.b.y as int);
    assert(gx == gap(ux, 0, dx));
    assert(gy == gap(uy, 0, dy));
    lemma_negated_square(ux);
    lemma_negated_square(uy);
    lemma_negated_square(dx - ux);
    lemma_negated_square(dy - uy);
    assert(s.a.x - p.x == -ux && s.a.y - p.y == -uy);
    assert(s.b.x - p.x == dx - ux && s.b.y - p.y == dy - uy);
    let t = ux * dx + uy * dy;
    if dx == 0 && dy == 0 {
        assert(t == 0) by (nonlinear_arith)
            requires
                t == ux * dx + uy * dy,
                dx == 0,
                dy == 0,
        ;
    } else if dy == 0 {
        lemma_one_axis(ux, dx, uy);
        assert(t == ux * dx && dx * dx + dy * dy == dx * dx && dy * ux == 0) by (nonlinear_arith)
            requires
                t == ux * dx + uy * dy,
                dy == 0,
        ;
        assert(gy * gy == uy * uy);
    } else {
        lemma_one_axis(uy, dy, ux);
        assert(t == uy * dy && dx * dx + dy * dy == dy * dy && dx * uy == 0) by (nonlinear_arith)
            requires
                t == ux * dx + uy * dy,
                dx == 0,
        ;
        lemma_negated_square(dy * ux);
        assert(gx * gx == ux * ux);
    }
}

proof fn lemma_negated_square(u: int)
    by (nonlinear_arith)
    ensures
        (-u) * (-u) == u * u,
{
}

/// The one-axis form: a segment of signed length `d`, a point `u` along it and
/// `v` off it.
proof fn lemma_one_axis(u: int, d: int, v: int)
    requires
        d != 0,
    ensures
        u * d <= 0 ==> gap(u, 0, d) * gap(u, 0, d) == u * u,
        u * d >= d * d ==> gap(u, 0, d) * gap(u, 0, d) == (d - u) * (d - u),
        0 < u * d < d * d ==> gap(u, 0, d) == 0 && ((d * v) * (d * v)) / (d * d) == v * v,
        ((d * v) * (d * v)) % (d * d) == 0,
        d * d > 0,
{
    assert(d * d > 0) by (nonlinear_arith)
        requires
            d != 0,
    ;
    if d > 0 {
        assert(u * d <= 0 ==> u <= 0) by (nonlinear_arith)
            requires
                d > 0,
        ;
        assert(u * d >= d * d ==> u >= d) by (nonlinear_arith)
            requires
                d > 0,
        ;
        assert(u * d > 0 ==> u > 0) by (nonlinear_arith)
            requires
                d > 0,
        ;
        assert(u * d < d * d ==> u < d) by (nonlinear_arith)
            requires
                d > 0,
        ;
    } else {
        assert(u * d <= 0 ==> u >= 0) by (nonlinear_arith)
            requires
                d < 0,
        ;
        assert(u * d >= d * d ==> u <= d) by (nonlinear_arith)
            requires
                d < 0,
        ;
        assert(u * d > 0 ==> u < 0) by (nonlinear_arith)
            requires
                d < 0,
        ;
        assert(u * d < d * d ==> u > d) by (nonlinear_arith)
            requires
                d < 0,
        ;
    }
    assert((-u) * (-u) == u * u) by (nonlinear_arith);
    assert((u - d) * (u - d) == (d - u) * (d - u)) by (nonlinear_arith);
    assert((d * v) * (d * v) == (v * v) * (d * d)) by (nonlinear_arith);
    vstd::arithmetic::div_mod::lemma_div_multiples_vanish(v * v, d * d);
    vstd::arithmetic::div_mod::lemma_mod_multiples_basic(v * v, d * d);
    assert((v * v) * (d * d) == (d * d) * (v * v)) by (nonlinear_arith);
}

/// A segment no nearer than `g` along one axis is no nearer than `g`.
pub proof fn lemma_dist2_at_least(p: Point, s: Seg, g: int)
    requires
        g >= 0,
        gap(p.x as int, s.a.x as int, s.b.x as int) >= g || gap(
            p.y as int,
            s.a.y as int,
            s.b.y as int,
        ) >= g,
    ensures
        seg_dist2(p, s) >= g * g,
{
    let dx = s.b.x - s.a.x;
    let dy = s.b.y - s.a.y;
    let ux = p.x - s.a.x;
    let uy = p.y - s.a.y;
    let l = dx * dx + dy * dy;
    let t = ux * dx + uy * dy;
    let c = cross(s.a, s.b, p);
    assert(c == dx * uy - dy * ux);
    if t <= 0 || t >= l {
        let q = if t <= 0 { s.a } else { s.b };
        let wx = q.x - p.x;
        let wy = q.y - p.y;
        if g > 0 {
            if gap(p.x as int, s.a.x as int, s.b.x as int) >= g {
                lemma_beyond(wx, wy, g);
            } else {
                lemma_beyond(wy, wx, g);
            }
        } else {
            assert(wx * wx >= 0 && wy * wy >= 0 && g * g == 0) by (nonlinear_arith)
                requires
                    g == 0,
            ;
        }
    } else if g == 0 {
        assert(c * c >= 0) by (nonlinear_arith);
        vstd::arithmetic::div_mod::lemma_div_pos_is_pos(c * c, l);
        assert(g * g == 0) by (nonlinear_arith)
            requires
                g == 0,
        ;
    } else if gap(p.x as int, s.a.x as int, s.b.x as int) >= g {
        lemma_foot(dx, dy, ux, uy, l, t, c);
        lemma_foot_beyond(-ux, dx - ux, dx, t, l, g);
        lemma_foot_bound(dy, dx, c, l, g, -ux * l + t * dx);
    } else {
        lemma_foot(dx, dy, ux, uy, l, t, c);
        lemma_foot_beyond(-uy, dy - uy, dy, t, l, g);
        lemma_negated_square(dx);
        lemma_foot_bound(-dx, dy, c, l, g, -uy * l + t * dy);
    }
}

proof fn lemma_beyond(w: int, v: int, g: int)
    by (nonlinear_arith)
    requires
        g >= 0,
        w >= g || w <= -g,
    ensures
        w * w + v * v >= g * g,
{
}

proof fn lemma_foot(dx: int, dy: int, ux: int, uy: int, l: int, t: int, c: int)
    requires
        l == dx * dx + dy * dy,
        t == ux * dx + uy * dy,
        c == dx * uy - dy * ux,
    ensures
        -ux * l + t * dx == dy * c,
        -uy * l + t * dy == (-dx) * c,
{
    assert(-ux * l == -(ux * (dx * dx)) - ux * (dy * dy)) by (nonlinear_arith)
        requires
            l == dx * dx + dy * dy,
    ;
    assert(t * dx == ux * (dx * dx) + (uy * dy) * dx) by (nonlinear_arith)
        requires
            t == ux * dx + uy * dy,
    ;
    assert(dy * c == (uy * dy) * dx - ux * (dy * dy)) by (nonlinear_arith)
        requires
            c == dx * uy - dy * ux,
    ;
    assert(-uy * l == -(uy * (dx * dx)) - uy * (dy * dy)) by (nonlinear_arith)
        requires
            l == dx * dx + dy * dy,
    ;
    assert(t * dy == (ux * dx) * dy + uy * (dy * dy)) by (nonlinear_arith)
        requires
            t == ux * dx + uy * dy,
    ;
    assert((-dx) * c == (ux * dx) * dy - uy * (dx * dx)) by (nonlinear_arith)
        requires
            c == dx * uy - dy * ux,
    ;
}

/// Between two ends both at least `g` off, the foot is at least `g` off.
proof fn lemma_foot_beyond(a: int, b: int, d: int, t: int, l: int, g: int)
    requires
        b == a + d,
        0 < t < l,
        (a >= g && b >= g) || (a <= -g && b <= -g),
    ensures
        a * l + t * d >= g * l || a * l + t * d <= -(g * l),
{
    assert(a * l + t * d == a * (l - t) + b * t) by (nonlinear_arith)
        requires
            b == a + d,
    ;
    assert(g * (l - t) + g * t == g * l) by (nonlinear_arith);
    if a >= g && b >= g {
        assert(a * (l - t) >= g * (l - t) && b * t >= g * t) by (nonlinear_arith)
            requires
                a >= g,
                b >= g,
                0 < t < l,
        ;
    } else {
        assert(a * (l - t) <= -(g * (l - t)) && b * t <= -(g * t)) by (nonlinear_arith)
            requires
                a <= -g,
                b <= -g,
                0 < t < l,
        ;
    }
}

proof fn lemma_foot_bound(e: int, o: int, c: int, l: int, g: int, f: int)
    requires
        f == e * c,
        l == e * e + o * o,
        l > 0,
        g >= 0,
        f >= g * l || f <= -(g * l),
    ensures
        (c * c) / l >= g * g,
{
    let gl = g * l;
    assert(gl >= 0) by (nonlinear_arith)
        requires
            gl == g * l,
            g >= 0,
            l > 0,
    ;
    assert(gl * gl <= f * f) by (nonlinear_arith)
        requires
            f >= gl || f <= -gl,
            gl >= 0,
    ;
    assert(f * f == (e * e) * (c * c)) by (nonlinear_arith)
        requires
            f == e * c,
    ;
    assert((e * e) * (c * c) <= l * (c * c)) by (nonlinear_arith)
        requires
            l == e * e + o * o,
    ;
    assert(gl * gl == l * ((g * g) * l)) by (nonlinear_arith)
        requires
            gl == g * l,
    ;
    let (m, n) = ((g * g) * l, c * c);
    assert(m <= n) by (nonlinear_arith)
        requires
            l * m <= l * n,
            l > 0,
    ;
    vstd::arithmetic::div_mod::lemma_div_is_ordered(m, n, l);
    vstd::arithmetic::div_mod::lemma_div_multiples_vanish(g * g, l);
    assert((g * g) * l == l * (g * g)) by (nonlinear_arith);
}

/// Nothing within `reach` of a probe is further than the probe's own distance
/// plus the reach.
proof fn lemma_prune_along(p: Point, x: Point, s: Seg, root: int, reach: int)
    requires
        axis_parallel(s),
        reach >= 0,
        root >= reach,
        point_dist2(p, x) <= reach * reach,
        seg_dist2(p, s) <= (root - reach) * (root - reach),
    ensures
        seg_dist2(x, s) <= root * root,
{
    lemma_axis_parallel_dist2(p, s);
    lemma_axis_parallel_dist2(x, s);
    let (ux, uy) = (
        gap(p.x as int, s.a.x as int, s.b.x as int),
        gap(p.y as int, s.a.y as int, s.b.y as int),
    );
    let (wx, wy) = (
        gap(x.x as int, s.a.x as int, s.b.x as int),
        gap(x.y as int, s.a.y as int, s.b.y as int),
    );
    let vx = if x.x >= p.x { x.x - p.x } else { p.x - x.x };
    let vy = if x.y >= p.y { x.y - p.y } else { p.y - x.y };
    assert(0 <= wx <= ux + vx && 0 <= wy <= uy + vy);
    lemma_negated_square(x.x - p.x);
    lemma_negated_square(x.y - p.y);
    assert(vx * vx + vy * vy == point_dist2(p, x));
    let slack = root - reach;
    lemma_triangle(ux, uy, vx, vy, slack, reach);
    assert(wx * wx <= (ux + vx) * (ux + vx)) by (nonlinear_arith)
        requires
            0 <= wx <= ux + vx,
    ;
    assert(wy * wy <= (uy + vy) * (uy + vy)) by (nonlinear_arith)
        requires
            0 <= wy <= uy + vy,
    ;
}

/// The triangle inequality on squared lengths.
proof fn lemma_triangle(ux: int, uy: int, vx: int, vy: int, a: int, b: int)
    requires
        a >= 0,
        b >= 0,
        ux >= 0,
        uy >= 0,
        vx >= 0,
        vy >= 0,
        ux * ux + uy * uy <= a * a,
        vx * vx + vy * vy <= b * b,
    ensures
        (ux + vx) * (ux + vx) + (uy + vy) * (uy + vy) <= (a + b) * (a + b),
{
    let d = ux * vx + uy * vy;
    let k = ux * vy - uy * vx;
    let (m, n) = (ux * ux + uy * uy, vx * vx + vy * vy);
    lemma_sum_of_squares(ux, uy, vx, vy);
    assert(vx * ux + vy * uy == d) by (nonlinear_arith)
        requires
            d == ux * vx + uy * vy,
    ;
    assert(d * d <= m * n) by (nonlinear_arith)
        requires
            k * k + d * d == m * n,
    ;
    assert(m >= 0 && n >= 0) by (nonlinear_arith)
        requires
            m == ux * ux + uy * uy,
            n == vx * vx + vy * vy,
    ;
    let (aa, bb) = (a * a, b * b);
    assert(m * n <= aa * bb) by (nonlinear_arith)
        requires
            0 <= m <= aa,
            0 <= n <= bb,
    ;
    assert(aa * bb == (a * b) * (a * b)) by (nonlinear_arith)
        requires
            aa == a * a,
            bb == b * b,
    ;
    let ab = a * b;
    assert(ab >= 0) by (nonlinear_arith)
        requires
            ab == a * b,
            a >= 0,
            b >= 0,
    ;
    assert(d <= ab) by (nonlinear_arith)
        requires
            d * d <= ab * ab,
            ab >= 0,
    ;
    assert((ux + vx) * (ux + vx) + (uy + vy) * (uy + vy) == m + 2 * d + n) by (nonlinear_arith)
        requires
            m == ux * ux + uy * uy,
            n == vx * vx + vy * vy,
            d == ux * vx + uy * vy,
    ;
    assert((a + b) * (a + b) == aa + 2 * ab + bb) by (nonlinear_arith)
        requires
            aa == a * a,
            bb == b * b,
            ab == a * b,
    ;
}

/// A point's distance to the far end of a segment, from its cross and its run
/// along it.
proof fn lemma_far_end(s: Seg, p: Point)
    ensures
        cross(s.a, s.b, p) * cross(s.a, s.b, p) + (along(s, p) - length2(s)) * (along(s, p)
            - length2(s)) == length2(s) * point_dist2(p, s.b),
{
    let dx = s.b.x - s.a.x;
    let dy = s.b.y - s.a.y;
    let vx = p.x - s.b.x;
    let vy = p.y - s.b.y;
    lemma_sum_of_squares(dx, dy, vx, vy);
    assert((s.b.x - p.x) * (s.b.x - p.x) == vx * vx) by (nonlinear_arith)
        requires
            vx == p.x - s.b.x,
    ;
    assert((s.b.y - p.y) * (s.b.y - p.y) == vy * vy) by (nonlinear_arith)
        requires
            vy == p.y - s.b.y,
    ;
    assert(dx * vy - dy * vx == cross(s.a, s.b, p)) by (nonlinear_arith)
        requires
            dx == s.b.x - s.a.x,
            dy == s.b.y - s.a.y,
            vx == p.x - s.b.x,
            vy == p.y - s.b.y,
            cross(s.a, s.b, p) == (s.b.x - s.a.x) * (p.y - s.a.y) - (s.b.y - s.a.y) * (p.x
                - s.a.x),
    ;
    assert(vx * dx + vy * dy == along(s, p) - length2(s)) by (nonlinear_arith)
        requires
            dx == s.b.x - s.a.x,
            dy == s.b.y - s.a.y,
            vx == p.x - s.b.x,
            vy == p.y - s.b.y,
            along(s, p) == (p.x - s.a.x) * (s.b.x - s.a.x) + (p.y - s.a.y) * (s.b.y - s.a.y),
            length2(s) == (s.b.x - s.a.x) * (s.b.x - s.a.x) + (s.b.y - s.a.y) * (s.b.y - s.a.y),
    ;
}

/// The run along a segment of the place on it nearest to a point.
spec fn foot(s: Seg, p: Point) -> int {
    if along(s, p) <= 0 {
        0
    } else if along(s, p) >= length2(s) {
        length2(s)
    } else {
        along(s, p)
    }
}

/// The squared distance from a point to the place at run `t` along a segment,
/// times the segment's squared length.
spec fn scaled(s: Seg, p: Point, t: int) -> int {
    cross(s.a, s.b, p) * cross(s.a, s.b, p) + (along(s, p) - t) * (along(s, p) - t)
}

/// The rounded distance bounds the exact one.
proof fn lemma_scaled_at_foot(s: Seg, p: Point, d2: int)
    requires
        length2(s) > 0,
        seg_dist2(p, s) <= d2,
    ensures
        scaled(s, p, foot(s, p)) < length2(s) * (d2 + 1),
{
    let l = length2(s);
    let t = along(s, p);
    let c = cross(s.a, s.b, p);
    lemma_lagrange(s, p);
    lemma_far_end(s, p);
    assert(0 * 0 == 0) by (nonlinear_arith);
    if t <= 0 {
        let d = point_dist2(p, s.a);
        assert(l * d < l * (d2 + 1)) by (nonlinear_arith)
            requires
                d <= d2,
                l > 0,
        ;
    } else if t >= l {
        let d = point_dist2(p, s.b);
        assert(l * d < l * (d2 + 1)) by (nonlinear_arith)
            requires
                d <= d2,
                l > 0,
        ;
    } else {
        let cc = c * c;
        vstd::arithmetic::div_mod::lemma_fundamental_div_mod(cc, l);
        let q = cc / l;
        assert(cc < l * (d2 + 1)) by (nonlinear_arith)
            requires
                cc == l * q + cc % l,
                0 <= cc % l < l,
                q <= d2,
                l > 0,
        ;
    }
}

/// No place on a segment is nearer than the distance to it.
proof fn lemma_scaled_is_least(s: Seg, x: Point, t: int, r2: int)
    requires
        0 <= t <= length2(s),
        length2(s) > 0,
        scaled(s, x, t) <= length2(s) * r2,
    ensures
        seg_dist2(x, s) <= r2,
{
    let l = length2(s);
    let tx = along(s, x);
    let c = cross(s.a, s.b, x);
    let cc = c * c;
    lemma_lagrange(s, x);
    lemma_far_end(s, x);
    if tx <= 0 {
        let d = point_dist2(x, s.a);
        assert(tx * tx <= (tx - t) * (tx - t)) by (nonlinear_arith)
            requires
                tx <= 0,
                t >= 0,
        ;
        assert(d <= r2) by (nonlinear_arith)
            requires
                l * d <= l * r2,
                l > 0,
        ;
    } else if tx >= l {
        let d = point_dist2(x, s.b);
        assert((tx - l) * (tx - l) <= (tx - t) * (tx - t)) by (nonlinear_arith)
            requires
                tx >= l,
                t <= l,
        ;
        assert(d <= r2) by (nonlinear_arith)
            requires
                l * d <= l * r2,
                l > 0,
        ;
    } else {
        assert((tx - t) * (tx - t) >= 0) by (nonlinear_arith);
        assert(cc >= 0) by (nonlinear_arith)
            requires
                cc == c * c,
        ;
        lemma_seg_dist2_is_exact(x, s, r2);
        assert(l * r2 == r2 * l) by (nonlinear_arith);
    }
}

/// A segment that has a point within a squared distance of another point is no
/// further from it. The point is `w / td` short of `x`, and `tn / td` along.
pub proof fn lemma_place(s: Seg, x: Point, wx: int, wy: int, tn: int, td: int, d2: int)
    requires
        length2(s) > 0,
        td > 0,
        0 <= tn <= length2(s) * td,
        td * cross(s.a, s.b, x) == (s.b.x - s.a.x) * wy - (s.b.y - s.a.y) * wx,
        td * along(s, x) - tn == wx * (s.b.x - s.a.x) + wy * (s.b.y - s.a.y),
        wx * wx + wy * wy <= td * td * d2,
    ensures
        seg_dist2(x, s) <= d2,
{
    let (dx, dy) = (s.b.x - s.a.x, s.b.y - s.a.y);
    let l = length2(s);
    let c = cross(s.a, s.b, x);
    let tx = along(s, x);
    let f = foot(s, x);
    lemma_sum_of_squares(dx, dy, wx, wy);
    assert(l == dx * dx + dy * dy);
    let (u, v, ww) = (td * c, td * tx - tn, wx * wx + wy * wy);
    assert(u * u + v * v == l * ww);
    let k = td * (tx - f);
    assert(k * k <= v * v) by {
        if tx <= 0 {
            assert(k == td * tx);
            assert(v <= k && k <= 0) by (nonlinear_arith)
                requires
                    k == td * tx,
                    v == td * tx - tn,
                    tn >= 0,
                    td > 0,
                    tx <= 0,
            ;
        } else if tx >= l {
            assert(v >= k && k >= 0) by (nonlinear_arith)
                requires
                    k == td * (tx - l),
                    v == td * tx - tn,
                    tn <= l * td,
                    td > 0,
                    tx >= l,
            ;
        } else {
            assert(k == 0) by (nonlinear_arith)
                requires
                    k == td * (tx - f),
                    f == tx,
            ;
        }
        assert(k * k <= v * v) by (nonlinear_arith)
            requires
                v <= k <= 0 || 0 <= k <= v || k == 0,
        ;
    }
    let e = scaled(s, x, f);
    let tt = td * td;
    assert(u * u == tt * (c * c)) by (nonlinear_arith)
        requires
            u == td * c,
            tt == td * td,
    ;
    assert(k * k == tt * ((tx - f) * (tx - f))) by (nonlinear_arith)
        requires
            k == td * (tx - f),
            tt == td * td,
    ;
    assert(tt * e == tt * (c * c) + tt * ((tx - f) * (tx - f))) by (nonlinear_arith)
        requires
            e == c * c + (tx - f) * (tx - f),
    ;
    assert(l * ww <= l * (tt * d2)) by (nonlinear_arith)
        requires
            ww <= tt * d2,
            l > 0,
    ;
    assert(e <= l * d2) by (nonlinear_arith)
        requires
            tt * e <= l * (tt * d2),
            tt == td * td,
            td > 0,
    ;
    lemma_scaled_is_least(s, x, f, d2);
}

/// Nothing within `reach` of a probe is further than `root` where the probe's own
/// distance is short of the difference, whichever way the segment runs.
pub proof fn lemma_prune(p: Point, x: Point, s: Seg, root: int, reach: int)
    requires
        reach >= 0,
        root >= reach,
        point_dist2(p, x) <= reach * reach,
        seg_dist2(p, s) < (root - reach) * (root - reach),
    ensures
        seg_dist2(x, s) <= root * root,
{
    if length2(s) > 0 {
        lemma_prune_oblique(p, x, s, root, reach);
    } else {
        let (dx, dy) = (s.b.x - s.a.x, s.b.y - s.a.y);
        assert(dx == 0) by (nonlinear_arith)
            requires
                dx * dx + dy * dy <= 0,
        ;
        lemma_prune_along(p, x, s, root, reach);
    }
}

proof fn lemma_prune_oblique(p: Point, x: Point, s: Seg, root: int, reach: int)
    requires
        length2(s) > 0,
        reach >= 0,
        root >= reach,
        point_dist2(p, x) <= reach * reach,
        seg_dist2(p, s) < (root - reach) * (root - reach),
    ensures
        seg_dist2(x, s) <= root * root,
{
    let l = length2(s);
    let slack = root - reach;
    let dx = s.b.x - s.a.x;
    let dy = s.b.y - s.a.y;
    let t = foot(s, p);
    lemma_scaled_at_foot(s, p, slack * slack - 1);
    // In the frame of the segment the probe stands at `u`, the step to `x` is `v`.
    let (ux, uy) = (cross(s.a, s.b, p), along(s, p) - t);
    let (qx, qy) = (x.x - p.x, x.y - p.y);
    let (vx, vy) = (dx * qy - dy * qx, qx * dx + qy * dy);
    lemma_sum_of_squares(dx, dy, qx, qy);
    assert(cross(s.a, s.b, x) == ux + vx) by (nonlinear_arith)
        requires
            ux == dx * (p.y - s.a.y) - dy * (p.x - s.a.x),
            vx == dx * qy - dy * qx,
            qx == x.x - p.x,
            qy == x.y - p.y,
            cross(s.a, s.b, x) == dx * (x.y - s.a.y) - dy * (x.x - s.a.x),
    ;
    assert(along(s, x) - t == uy + vy) by (nonlinear_arith)
        requires
            uy == (p.x - s.a.x) * dx + (p.y - s.a.y) * dy - t,
            vy == qx * dx + qy * dy,
            qx == x.x - p.x,
            qy == x.y - p.y,
            along(s, x) == (x.x - s.a.x) * dx + (x.y - s.a.y) * dy,
    ;
    let (m, n) = (ux * ux + uy * uy, vx * vx + vy * vy);
    let far = reach * reach;
    let near = slack * slack;
    assert(m < l * near);
    let q2 = qx * qx + qy * qy;
    assert(n <= l * far) by (nonlinear_arith)
        requires
            n == l * q2,
            q2 <= far,
            l > 0,
    ;
    let d = ux * vx + uy * vy;
    let k = ux * vy - uy * vx;
    lemma_sum_of_squares(ux, uy, vx, vy);
    assert(d == vx * ux + vy * uy) by (nonlinear_arith)
        requires
            d == ux * vx + uy * vy,
    ;
    assert(k * k >= 0) by (nonlinear_arith);
    assert(m >= 0 && n >= 0) by (nonlinear_arith)
        requires
            m == ux * ux + uy * uy,
            n == vx * vx + vy * vy,
    ;
    let (lm, ln) = (l * near, l * far);
    assert(m * n <= lm * ln) by (nonlinear_arith)
        requires
            0 <= m <= lm,
            0 <= n <= ln,
    ;
    let e = l * (slack * reach);
    assert(lm * ln == e * e) by (nonlinear_arith)
        requires
            lm == l * (slack * slack),
            ln == l * (reach * reach),
            e == l * (slack * reach),
    ;
    assert(e >= 0) by (nonlinear_arith)
        requires
            e == l * (slack * reach),
            l > 0,
            slack >= 0,
            reach >= 0,
    ;
    assert(d <= e) by (nonlinear_arith)
        requires
            d * d <= e * e,
            e >= 0,
    ;
    assert((ux + vx) * (ux + vx) + (uy + vy) * (uy + vy) == m + n + 2 * d) by (nonlinear_arith)
        requires
            m == ux * ux + uy * uy,
            n == vx * vx + vy * vy,
            d == ux * vx + uy * vy,
    ;
    let r2 = root * root;
    assert(l * near + l * far + 2 * e == l * r2) by (nonlinear_arith)
        requires
            near == slack * slack,
            far == reach * reach,
            e == l * (slack * reach),
            r2 == root * root,
            slack == root - reach,
    ;
    assert(scaled(s, x, t) < l * r2);
    lemma_scaled_is_least(s, x, t, r2);
}

} // verus!
