//! A uniform grid over segments, answering exact nearest queries.
//!
//! A segment is filed under every cell its bounding box overlaps. A query scans
//! rings of cells outward from its own cell and stops once the best found is
//! closer than anything an unscanned cell could hold, so the answer is what an
//! exhaustive scan would give.
use crate::distance::{
    gap, isqrt, lemma_dist2_at_least, point_seg_dist2, seg_dist2,
};
use crate::geom::{in_domain, max_int, min_int, Point, Seg};
use vstd::prelude::*;

verus! {

/// Whether every segment of a list is in the coordinate domain.
pub open spec fn segs_wf(taps: Seq<Seg>) -> bool {
    forall|i: int| 0 <= i < taps.len() ==> (#[trigger] taps[i]).wf()
}

/// Whether segment `i` is the nearest to a point, the lowest index on a tie.
pub open spec fn is_nearest_tap(taps: Seq<Seg>, p: Point, i: int) -> bool {
    &&& 0 <= i < taps.len()
    &&& forall|j: int|
        0 <= j < taps.len() ==> seg_dist2(p, taps[i]) < #[trigger] seg_dist2(p, taps[j]) || (
        seg_dist2(p, taps[i]) == seg_dist2(p, taps[j]) && i <= j)
}

/// Floor division by a positive divisor.
pub fn floor_div(a: i64, b: i64) -> (r: i64)
    requires
        -0x1000_0000_0000_0000 <= a <= 0x1000_0000_0000_0000,
        0 < b <= 0x1000_0000_0000_0000,
    ensures
        r == a as int / b as int,
        a >= 0 ==> 0 <= r <= a,
        a < 0 ==> a <= r < 0,
{
    if a >= 0 {
        assert(0 <= a / b <= a) by (nonlinear_arith)
            requires
                a >= 0,
                b >= 1,
        ;
        a / b
    } else {
        let n: i64 = -a;
        let q: i64 = (n - 1) / b + 1;
        proof {
            let m = (n - 1) as int;
            let bb = b as int;
            vstd::arithmetic::div_mod::lemma_fundamental_div_mod(m, bb);
            let qq = m / bb;
            let rr = m % bb;
            assert(m == bb * qq + rr);
            assert(a == bb * (-(qq + 1)) + (bb - 1 - rr)) by (nonlinear_arith)
                requires
                    a == -(m + 1),
                    m == bb * qq + rr,
            ;
            assert(bb * (-(qq + 1)) == (-(qq + 1)) * bb) by (nonlinear_arith);
            vstd::arithmetic::div_mod::lemma_fundamental_div_mod_converse(
                a as int,
                bb,
                -(qq + 1),
                bb - 1 - rr,
            );
            assert(0 <= qq <= m) by (nonlinear_arith)
                requires
                    m == bb * qq + rr,
                    0 <= rr < bb,
                    bb >= 1,
                    m >= 0,
            ;
        }
        -q
    }
}

/// The grid over one list of segments.
pub struct SegGrid {
    pub taps: Vec<Seg>,
    pub origin: Point,
    pub cell: i64,
    pub nx: i64,
    pub ny: i64,
    /// `bucket[cy * nx + cx]` holds the segments touching cell `(cx, cy)`.
    pub bucket: Vec<Vec<u32>>,
}

/// The cell row or column a coordinate falls in.
pub open spec fn axis(v: int, origin: int, cell: int) -> int {
    (v - origin) / cell
}

impl SegGrid {
    pub open spec fn x_lo(&self, t: int) -> int {
        axis(
            min_int(self.taps@[t].a.x as int, self.taps@[t].b.x as int),
            self.origin.x as int,
            self.cell as int,
        )
    }

    pub open spec fn x_hi(&self, t: int) -> int {
        axis(
            max_int(self.taps@[t].a.x as int, self.taps@[t].b.x as int),
            self.origin.x as int,
            self.cell as int,
        )
    }

    pub open spec fn y_lo(&self, t: int) -> int {
        axis(
            min_int(self.taps@[t].a.y as int, self.taps@[t].b.y as int),
            self.origin.y as int,
            self.cell as int,
        )
    }

    pub open spec fn y_hi(&self, t: int) -> int {
        axis(
            max_int(self.taps@[t].a.y as int, self.taps@[t].b.y as int),
            self.origin.y as int,
            self.cell as int,
        )
    }

    /// Whether segment `t` touches a cell.
    pub open spec fn touches_cell(&self, t: int, cx: int, cy: int) -> bool {
        self.x_lo(t) <= cx <= self.x_hi(t) && self.y_lo(t) <= cy <= self.y_hi(t)
    }

    pub open spec fn slot(&self, cx: int, cy: int) -> int {
        cy * self.nx + cx
    }

    pub open spec fn in_grid(&self, cx: int, cy: int) -> bool {
        0 <= cx < self.nx && 0 <= cy < self.ny
    }

    /// The shape without the filing.
    pub open spec fn frame(&self) -> bool {
        &&& segs_wf(self.taps@)
        &&& self.taps@.len() <= 0xFFFF_FFFF
        &&& self.origin.wf()
        &&& 0 < self.cell <= 0x400_0000_0000
        &&& 1 <= self.nx <= 0x1_0000
        &&& 1 <= self.ny <= 0x1_0000
        &&& self.bucket@.len() == self.nx * self.ny
        &&& forall|t: int|
            0 <= t < self.taps@.len() ==> 0 <= self.x_lo(t) <= self.x_hi(t) < self.nx && 0
                <= self.y_lo(t) <= self.y_hi(t) < self.ny && #[trigger] self.taps@[t].wf()
        &&& forall|b: int, k: int|
            0 <= b < self.bucket@.len() && 0 <= k < self.bucket@[b]@.len() ==> (
            #[trigger] self.bucket@[b]@[k]) < self.taps@.len()
    }

    /// Whether segment `t` is filed under a cell.
    pub open spec fn filed(&self, t: int, cx: int, cy: int) -> bool {
        self.bucket@[self.slot(cx, cy)]@.contains(t as u32)
    }

    pub open spec fn wf(&self) -> bool {
        &&& self.frame()
        &&& forall|t: int, cx: int, cy: int|
            0 <= t < self.taps@.len() && self.touches_cell(t, cx, cy) ==> #[trigger] self.filed(
                t,
                cx,
                cy,
            )
    }
}

proof fn lemma_slot(nx: int, ny: int, cx: int, cy: int)
    by (nonlinear_arith)
    requires
        0 <= cx < nx,
        0 <= cy < ny,
    ensures
        0 <= cy * nx + cx < nx * ny,
{
}

/// Floor division is monotone, and bounded by its operands.
proof fn lemma_axis(u: int, v: int, origin: int, cell: int)
    requires
        cell > 0,
        u <= v,
    ensures
        axis(u, origin, cell) <= axis(v, origin, cell),
        axis(u, origin, cell) * cell <= u - origin < (axis(u, origin, cell) + 1) * cell,
{
    vstd::arithmetic::div_mod::lemma_div_is_ordered(u - origin, v - origin, cell);
    vstd::arithmetic::div_mod::lemma_fundamental_div_mod(u - origin, cell);
    let q = axis(u, origin, cell);
    assert(cell * q == q * cell) by (nonlinear_arith);
    assert((q + 1) * cell == q * cell + cell) by (nonlinear_arith);
}

fn lower(a: i64, b: i64) -> (r: i64)
    ensures
        r == min_int(a as int, b as int),
{
    if a < b { a } else { b }
}

fn higher(a: i64, b: i64) -> (r: i64)
    ensures
        r == max_int(a as int, b as int),
{
    if a < b { b } else { a }
}

/// The number of cells a span covers.
fn cells(span: i64, cell: i64, side: i64) -> (r: i64)
    requires
        1 <= span <= 0x400_0000_0000,
        1 <= cell <= 0x400_0000_0000,
        1 <= side <= 0x1_0000,
        span <= cell * side,
    ensures
        1 <= r <= side,
        r == (span - 1) / cell as int + 1,
{
    proof {
        let q = (span - 1) as int / cell as int;
        vstd::arithmetic::div_mod::lemma_fundamental_div_mod(span - 1, cell as int);
        let m = (span - 1) as int % cell as int;
        assert(0 <= q < side) by (nonlinear_arith)
            requires
                span - 1 == cell * q + m,
                0 <= m < cell,
                1 <= span <= cell * side,
                cell >= 1,
        ;
    }
    (span - 1) / cell + 1
}

/// The cell size that splits a span into at most `side` cells.
fn cell_for(span: i64, side: i64) -> (r: i64)
    requires
        1 <= span <= 0x400_0000_0000,
        1 <= side <= 0x1_0000,
    ensures
        1 <= r <= span,
        span <= r * side,
{
    let r: i64 = (span - 1) / side + 1;
    proof {
        vstd::arithmetic::div_mod::lemma_fundamental_div_mod(span - 1, side as int);
        let q = (span - 1) as int / side as int;
        let m = (span - 1) as int % side as int;
        assert(span <= (q + 1) * side && q + 1 <= span && q >= 0) by (nonlinear_arith)
            requires
                span - 1 == side * q + m,
                0 <= m < side,
                span >= 1,
                side >= 1,
        ;
    }
    r
}

impl SegGrid {
    fn cell_x(&self, v: i64) -> (r: i64)
        requires
            in_domain(v as int),
            self.origin.wf(),
            self.cell > 0,
            self.cell <= 0x400_0000_0000,
        ensures
            r == axis(v as int, self.origin.x as int, self.cell as int),
            -0x200_0000_0001 <= r <= 0x200_0000_0001,
    {
        proof {
            lemma_axis_range(v as int, self.origin.x as int, self.cell as int);
        }
        floor_div(v - self.origin.x, self.cell)
    }

    fn cell_y(&self, v: i64) -> (r: i64)
        requires
            in_domain(v as int),
            self.origin.wf(),
            self.cell > 0,
            self.cell <= 0x400_0000_0000,
        ensures
            r == axis(v as int, self.origin.y as int, self.cell as int),
            -0x200_0000_0001 <= r <= 0x200_0000_0001,
    {
        proof {
            lemma_axis_range(v as int, self.origin.y as int, self.cell as int);
        }
        floor_div(v - self.origin.y, self.cell)
    }

    /// Build the grid over a list of segments.
    pub fn build(taps: Vec<Seg>) -> (g: SegGrid)
        requires
            segs_wf(taps@),
            0 < taps@.len() <= 0xFFFF_FFFF,
        ensures
            g.wf(),
            g.taps@ == taps@,
    {
        let n: usize = taps.len();
        let first = taps[0];
        assert(taps@[0].wf());
        let mut xlo: i64 = lower(first.a.x, first.b.x);
        let mut xhi: i64 = higher(first.a.x, first.b.x);
        let mut ylo: i64 = lower(first.a.y, first.b.y);
        let mut yhi: i64 = higher(first.a.y, first.b.y);
        let mut i: usize = 1;
        while i < n
            invariant
                segs_wf(taps@),
                n == taps@.len(),
                1 <= i <= n,
                in_domain(xlo as int),
                in_domain(xhi as int),
                in_domain(ylo as int),
                in_domain(yhi as int),
                forall|t: int|
                    0 <= t < i ==> xlo <= (#[trigger] taps@[t]).a.x <= xhi && xlo <= taps@[t].b.x
                        <= xhi && ylo <= taps@[t].a.y <= yhi && ylo <= taps@[t].b.y <= yhi,
            decreases n - i,
        {
            let s = taps[i];
            assert(taps@[i as int].wf());
            xlo = lower(xlo, lower(s.a.x, s.b.x));
            xhi = higher(xhi, higher(s.a.x, s.b.x));
            ylo = lower(ylo, lower(s.a.y, s.b.y));
            yhi = higher(yhi, higher(s.a.y, s.b.y));
            i = i + 1;
        }
        assert(xlo <= taps@[0].a.x <= xhi && ylo <= taps@[0].a.y <= yhi);
        let span_x: i64 = xhi - xlo + 1;
        let span_y: i64 = yhi - ylo + 1;
        let root: i64 = isqrt((n / 16) as i128);
        assert(root <= 0x1_0000) by (nonlinear_arith)
            requires
                root * root <= n / 16,
                n <= 0xFFFF_FFFF,
                root >= 0,
        ;
        let side: i64 = if root < 1 { 1 } else { root };
        let cell: i64 = higher(cell_for(span_x, side), cell_for(span_y, side));
        proof {
            let (ca, cb) = (cell, side);
            assert forall|c: int| 1 <= c <= cell implies #[trigger] (c * side) <= cell * side by {
                assert(c * side <= cell * side) by (nonlinear_arith)
                    requires
                        1 <= c <= cell,
                        side >= 1,
                ;
            }
        }
        let nx: i64 = cells(span_x, cell, side);
        let ny: i64 = cells(span_y, cell, side);
        assert(1 <= nx * ny <= 0x1_0000 * 0x1_0000) by (nonlinear_arith)
            requires
                1 <= nx <= 0x1_0000,
                1 <= ny <= 0x1_0000,
        ;
        let count: u64 = nx as u64 * ny as u64;
        let mut bucket: Vec<Vec<u32>> = Vec::new();
        let mut b: u64 = 0;
        while b < count
            invariant
                b <= count,
                bucket@.len() == b,
                forall|k: int| 0 <= k < bucket@.len() ==> (#[trigger] bucket@[k])@.len() == 0,
            decreases count - b,
        {
            bucket.push(Vec::new());
            b = b + 1;
        }
        let mut g = SegGrid { taps, origin: Point { x: xlo, y: ylo }, cell, nx, ny, bucket };
        proof {
            assert forall|t: int| 0 <= t < g.taps@.len() implies 0 <= g.x_lo(t) <= g.x_hi(t) < g.nx
                && 0 <= g.y_lo(t) <= g.y_hi(t) < g.ny && #[trigger] g.taps@[t].wf() by {
                let s = g.taps@[t];
                lemma_cells_inside(s.a.x as int, s.b.x as int, xlo as int, xhi as int, cell as int);
                lemma_cells_inside(s.a.y as int, s.b.y as int, ylo as int, yhi as int, cell as int);
            }
            assert(g.frame());
        }
        let mut t: usize = 0;
        while t < n
            invariant
                g.frame(),
                g.taps@ == taps@,
                n == g.taps@.len(),
                t <= n,
                forall|s: int, cx: int, cy: int|
                    0 <= s < t && g.touches_cell(s, cx, cy) ==> #[trigger] g.filed(s, cx, cy),
            decreases n - t,
        {
            g.file(t);
            t = t + 1;
        }
        g
    }

    /// File one segment under every cell it touches.
    fn file(&mut self, t: usize)
        requires
            old(self).frame(),
            t < old(self).taps@.len(),
            forall|s: int, cx: int, cy: int|
                0 <= s < t && old(self).touches_cell(s, cx, cy) ==> #[trigger] old(self).filed(
                    s,
                    cx,
                    cy,
                ),
        ensures
            final(self).frame(),
            final(self).taps@ == old(self).taps@,
            forall|s: int, cx: int, cy: int|
                0 <= s <= t && final(self).touches_cell(s, cx, cy) ==> #[trigger] final(self).filed(
                    s,
                    cx,
                    cy,
                ),
    {
        let seg = self.taps[t];
        assert(self.taps@[t as int].wf());
        let x0: i64 = self.cell_x(lower(seg.a.x, seg.b.x));
        let x1: i64 = self.cell_x(higher(seg.a.x, seg.b.x));
        let y0: i64 = self.cell_y(lower(seg.a.y, seg.b.y));
        let y1: i64 = self.cell_y(higher(seg.a.y, seg.b.y));
        let mut cy: i64 = y0;
        while cy <= y1
            invariant
                self.frame(),
                self.taps@ == old(self).taps@,
                self.origin == old(self).origin,
                self.cell == old(self).cell,
                self.nx == old(self).nx,
                self.ny == old(self).ny,
                t < self.taps@.len(),
                x0 == self.x_lo(t as int),
                x1 == self.x_hi(t as int),
                y0 == self.y_lo(t as int),
                y1 == self.y_hi(t as int),
                0 <= x0 <= x1 < self.nx,
                0 <= y0 <= cy <= y1 + 1,
                y1 < self.ny,
                forall|s: int, a: int, b: int|
                    0 <= s < t && self.touches_cell(s, a, b) ==> #[trigger] self.filed(s, a, b),
                forall|a: int, b: int|
                    x0 <= a <= x1 && y0 <= b < cy ==> #[trigger] self.filed(t as int, a, b),
            decreases y1 + 1 - cy,
        {
            let mut cx: i64 = x0;
            while cx <= x1
                invariant
                    self.frame(),
                    self.taps@ == old(self).taps@,
                    self.origin == old(self).origin,
                    self.cell == old(self).cell,
                    self.nx == old(self).nx,
                    self.ny == old(self).ny,
                    t < self.taps@.len(),
                    x0 == self.x_lo(t as int),
                    x1 == self.x_hi(t as int),
                    y0 == self.y_lo(t as int),
                    y1 == self.y_hi(t as int),
                    0 <= x0 <= cx <= x1 + 1,
                    x1 < self.nx,
                    0 <= y0 <= cy <= y1 < self.ny,
                    forall|s: int, a: int, b: int|
                        0 <= s < t && self.touches_cell(s, a, b) ==> #[trigger] self.filed(s, a, b),
                    forall|a: int, b: int|
                        x0 <= a <= x1 && y0 <= b < cy ==> #[trigger] self.filed(t as int, a, b),
                    forall|a: int|
                        x0 <= a < cx ==> #[trigger] self.filed(t as int, a, cy as int),
                decreases x1 + 1 - cx,
            {
                self.put(t, cx, cy);
                cx = cx + 1;
            }
            cy = cy + 1;
        }
    }

    fn put(&mut self, t: usize, cx: i64, cy: i64)
        requires
            old(self).frame(),
            t < old(self).taps@.len(),
            0 <= cx < old(self).nx,
            0 <= cy < old(self).ny,
        ensures
            final(self).frame(),
            final(self).taps@ == old(self).taps@,
            final(self).origin == old(self).origin,
            final(self).cell == old(self).cell,
            final(self).nx == old(self).nx,
            final(self).ny == old(self).ny,
            final(self).filed(t as int, cx as int, cy as int),
            forall|s: int, a: int, b: int|
                old(self).in_grid(a, b)
                    && old(self).filed(s, a, b) ==> #[trigger] final(self).filed(
                    s,
                    a,
                    b,
                ),
    {
        proof {
            lemma_slot(self.nx as int, self.ny as int, cx as int, cy as int);
            assert(0 <= cy * self.nx + cx < self.nx * self.ny);
            assert(0 <= cy * self.nx <= 0x1_0000 * 0x1_0000) by (nonlinear_arith)
                requires
                    0 <= cy < 0x1_0000,
                    1 <= self.nx <= 0x1_0000,
            ;
        }
        let total: usize = self.bucket.len();
        assert(cy * self.nx + cx < total);
        let slot: usize = (cy * self.nx + cx) as usize;
        assert(slot == self.slot(cx as int, cy as int));
        let ghost before = self.bucket@;
        self.bucket[slot].push(t as u32);
        proof {
            assert(self.bucket@[slot as int]@ == before[slot as int]@.push(t as u32));
            assert(self.bucket@[slot as int]@[before[slot as int]@.len() as int] == t as u32);
            assert forall|s: int, a: int, b: int|
                old(self).in_grid(a, b) && old(self).filed(s, a, b) implies #[trigger] self.filed(
                s,
                a,
                b,
            ) by {
                lemma_slot(self.nx as int, self.ny as int, a, b);
                let k = old(self).slot(a, b);
                let x = choose|x: int| 0 <= x < before[k]@.len() && before[k]@[x] == s as u32;
                assert(self.bucket@[k]@[x] == s as u32);
            }
            assert forall|b: int, k: int|
                0 <= b < self.bucket@.len() && 0 <= k < self.bucket@[b]@.len() implies (
            #[trigger] self.bucket@[b]@[k]) < self.taps@.len() by {
                if b != slot || k < before[slot as int]@.len() {
                    assert(before[b]@[k] == self.bucket@[b]@[k]);
                }
            }
            assert forall|t: int| 0 <= t < self.taps@.len() implies 0 <= self.x_lo(t) <= self.x_hi(
                t,
            )
                < self.nx && 0 <= self.y_lo(t) <= self.y_hi(t) < self.ny
                && #[trigger] self.taps@[t].wf() by {
                assert(old(self).taps@[t].wf());
            }
        }
    }
}

proof fn lemma_axis_range(v: int, origin: int, cell: int)
    requires
        in_domain(v),
        in_domain(origin),
        cell > 0,
    ensures
        -0x200_0000_0001 <= axis(v, origin, cell) <= 0x200_0000_0001,
{
    lemma_axis(v, v, origin, cell);
    let q = axis(v, origin, cell);
    assert(-0x200_0000_0001 <= q <= 0x200_0000_0001) by (nonlinear_arith)
        requires
            q * cell <= v - origin < (q + 1) * cell,
            cell >= 1,
            -0x200_0000_0000 <= v - origin <= 0x200_0000_0000,
    ;
}

/// A coordinate pair inside an extent falls in the extent's own cells.
proof fn lemma_cells_inside(a: int, b: int, lo: int, hi: int, cell: int)
    requires
        cell > 0,
        lo <= a <= hi,
        lo <= b <= hi,
    ensures
        0 <= axis(min_int(a, b), lo, cell) <= axis(max_int(a, b), lo, cell) <= (hi - lo) / cell,
{
    lemma_axis(min_int(a, b), max_int(a, b), lo, cell);
    lemma_axis(max_int(a, b), hi, lo, cell);
    lemma_axis(lo, min_int(a, b), lo, cell);
    assert(axis(lo, lo, cell) == 0) by {
        vstd::arithmetic::div_mod::lemma_div_basics(cell);
    }
}

/// Whether a candidate is no worse than one segment: nearer, or as near with no
/// higher an index.
pub open spec fn no_worse(taps: Seq<Seg>, p: Point, best: Option<u32>, t: int) -> bool {
    best is Some && (seg_dist2(p, taps[best->0 as int]) < seg_dist2(p, taps[t]) || (seg_dist2(
        p,
        taps[best->0 as int],
    ) == seg_dist2(p, taps[t]) && best->0 <= t))
}

/// The best segment so far, and how far it is.
struct Best {
    tap: Option<u32>,
    dist2: i128,
}

impl Best {
    spec fn wf(&self, taps: Seq<Seg>, p: Point) -> bool {
        self.tap is Some ==> self.tap->0 < taps.len() && self.dist2 == seg_dist2(
            p,
            taps[self.tap->0 as int],
        )
    }

    /// Whether `self` is no worse than `other` against every segment.
    spec fn keeps(&self, taps: Seq<Seg>, p: Point, other: Best) -> bool {
        forall|t: int| no_worse(taps, p, other.tap, t) ==> #[trigger] no_worse(taps, p, self.tap, t)
    }
}

impl SegGrid {
    /// Whether every segment of a cell is no better than the best so far.
    spec fn cell_done(&self, p: Point, best: Best, cx: int, cy: int) -> bool {
        forall|k: int|
            0 <= k < self.bucket@[self.slot(cx, cy)]@.len() ==> #[trigger] no_worse(
                self.taps@,
                p,
                best.tap,
                self.bucket@[self.slot(cx, cy)]@[k] as int,
            )
    }

    /// Fold one cell's segments into the best so far.
    fn scan(&self, p: Point, cx: i64, cy: i64, best: Best) -> (r: Best)
        requires
            self.wf(),
            p.wf(),
            best.wf(self.taps@, p),
            self.in_grid(cx as int, cy as int),
        ensures
            r.wf(self.taps@, p),
            r.keeps(self.taps@, p, best),
            self.cell_done(p, r, cx as int, cy as int),
    {
        proof {
            lemma_slot(self.nx as int, self.ny as int, cx as int, cy as int);
            assert(0 <= cy * self.nx <= 0x1_0000 * 0x1_0000) by (nonlinear_arith)
                requires
                    0 <= cy < 0x1_0000,
                    1 <= self.nx <= 0x1_0000,
            ;
        }
        let total: usize = self.bucket.len();
        assert(cy * self.nx + cx < total);
        let slot: usize = (cy * self.nx + cx) as usize;
        let list = &self.bucket[slot];
        let mut r = best;
        let mut k: usize = 0;
        while k < list.len()
            invariant
                self.wf(),
                p.wf(),
                slot < self.bucket@.len(),
                slot == self.slot(cx as int, cy as int),
                list@ == self.bucket@[slot as int]@,
                k <= list@.len(),
                r.wf(self.taps@, p),
                r.keeps(self.taps@, p, best),
                forall|j: int|
                    0 <= j < k ==> #[trigger] no_worse(
                        self.taps@,
                        p,
                        r.tap,
                        self.bucket@[slot as int]@[j] as int,
                    ),
            decreases list@.len() - k,
        {
            let t: u32 = list[k];
            assert(self.bucket@[slot as int]@[k as int] < self.taps@.len());
            assert(self.taps@[t as int].wf());
            let d: i128 = point_seg_dist2(p, self.taps[t as usize]);
            let closer: bool = match r.tap {
                None => true,
                Some(b) => d < r.dist2 || (d == r.dist2 && t < b),
            };
            let ghost before = r;
            if closer {
                r = Best { tap: Some(t), dist2: d };
            }
            assert(r.keeps(self.taps@, p, before));
            k = k + 1;
        }
        r
    }

    /// The cell ring a block of Chebyshev radius `r` around `(px, py)` spans.
    spec fn in_block(px: int, py: int, r: int, cx: int, cy: int) -> bool {
        px - r <= cx <= px + r && py - r <= cy <= py + r
    }

    /// Fold the cells of one row between two columns.
    fn scan_row(&self, p: Point, cy: i64, from: i64, to: i64, best: Best) -> (r: Best)
        requires
            self.wf(),
            p.wf(),
            best.wf(self.taps@, p),
            0 <= cy < self.ny,
            0 <= from,
            to < self.nx,
        ensures
            r.wf(self.taps@, p),
            r.keeps(self.taps@, p, best),
            forall|cx: int| from <= cx <= to ==> #[trigger] self.cell_done(p, r, cx, cy as int),
    {
        let mut r = best;
        let mut cx: i64 = from;
        while cx <= to
            invariant
                self.wf(),
                p.wf(),
                0 <= cy < self.ny,
                0 <= from <= cx,
                to < self.nx <= 0x1_0000,
                r.wf(self.taps@, p),
                r.keeps(self.taps@, p, best),
                forall|a: int| from <= a < cx ==> #[trigger] self.cell_done(p, r, a, cy as int),
            decreases to + 1 - cx,
        {
            let ghost before = r;
            r = self.scan(p, cx, cy, r);
            proof {
                assert forall|a: int| from <= a < cx + 1 implies #[trigger] self.cell_done(
                    p,
                    r,
                    a,
                    cy as int,
                ) by {
                    if a < cx {
                        assert(self.cell_done(p, before, a, cy as int));
                    }
                }
            }
            cx = cx + 1;
        }
        r
    }

    /// Fold the cells at Chebyshev distance exactly `radius`.
    fn scan_ring(&self, p: Point, px: i64, py: i64, radius: i64, best: Best) -> (r: Best)
        requires
            self.wf(),
            p.wf(),
            best.wf(self.taps@, p),
            -0x200_0000_0001 <= px <= 0x200_0000_0001,
            -0x200_0000_0001 <= py <= 0x200_0000_0001,
            0 <= radius <= 0x800_0000_0000,
            forall|cx: int, cy: int|
                self.in_grid(cx, cy) && Self::in_block(px as int, py as int, radius - 1, cx, cy)
                    ==> #[trigger] self.cell_done(p, best, cx, cy),
        ensures
            r.wf(self.taps@, p),
            forall|cx: int, cy: int|
                self.in_grid(cx, cy) && Self::in_block(px as int, py as int, radius as int, cx, cy)
                    ==> #[trigger] self.cell_done(p, r, cx, cy),
    {
        let (x0, x1) = (px - radius, px + radius);
        let (y0, y1) = (py - radius, py + radius);
        let first: i64 = if y0 < 0 { 0 } else { y0 };
        let last: i64 = if y1 < self.ny - 1 { y1 } else { self.ny - 1 };
        let from: i64 = if x0 < 0 { 0 } else { x0 };
        let to: i64 = if x1 < self.nx - 1 { x1 } else { self.nx - 1 };
        let mut r = best;
        let mut cy: i64 = first;
        assert(r.keeps(self.taps@, p, best));
        while cy <= last
            invariant
                self.wf(),
                p.wf(),
                r.wf(self.taps@, p),
                r.keeps(self.taps@, p, best),
                x0 == px - radius,
                x1 == px + radius,
                y0 == py - radius,
                y1 == py + radius,
                radius >= 0,
                from == (if x0 < 0 { 0int } else { x0 as int }),
                to == (if x1 < self.nx - 1 { x1 as int } else { self.nx - 1 }),
                first == (if y0 < 0 { 0int } else { y0 as int }),
                last == (if y1 < self.ny - 1 { y1 as int } else { self.ny - 1 }),
                first <= cy,
                last < self.ny <= 0x1_0000,
                forall|a: int, b: int|
                    self.in_grid(a, b) && Self::in_block(px as int, py as int, radius as int, a, b)
                        && (b < cy || Self::in_block(px as int, py as int, radius - 1, a, b))
                        ==> #[trigger] self.cell_done(p, r, a, b),
            decreases last + 1 - cy,
        {
            let ghost before = r;
            if cy == y0 || cy == y1 {
                r = self.scan_row(p, cy, from, to, r);
            } else {
                if 0 <= x0 && x0 < self.nx {
                    r = self.scan(p, x0, cy, r);
                }
                let ghost middle = r;
                if 0 <= x1 && x1 < self.nx {
                    r = self.scan(p, x1, cy, r);
                }
                assert(r.keeps(self.taps@, p, middle));
            }
            proof {
                assert(r.keeps(self.taps@, p, before));
                assert forall|a: int, b: int|
                    self.in_grid(a, b) && Self::in_block(px as int, py as int, radius as int, a, b)
                        && (b < cy + 1 || Self::in_block(
                        px as int,
                        py as int,
                        radius - 1,
                        a,
                        b,
                    )) implies #[trigger] self.cell_done(p, r, a, b) by {
                    if b < cy || Self::in_block(px as int, py as int, radius - 1, a, b) {
                        assert(self.cell_done(p, before, a, b));
                    } else {
                        assert(b == cy);
                    }
                }
            }
            cy = cy + 1;
        }
        r
    }

    /// The nearest segment to a point, exactly; the lowest index on a tie.
    pub fn nearest(&self, p: Point) -> (r: u32)
        requires
            self.wf(),
            self.taps@.len() > 0,
            p.wf(),
        ensures
            is_nearest_tap(self.taps@, p, r as int),
    {
        let px: i64 = self.cell_x(p.x);
        let py: i64 = self.cell_y(p.y);
        // The first ring that reaches the grid, and the first that covers it.
        let ax: i64 = if px < 0 { -px } else if px > self.nx - 1 { px - (self.nx - 1) } else { 0 };
        let ay: i64 = if py < 0 { -py } else if py > self.ny - 1 { py - (self.ny - 1) } else { 0 };
        let mut radius: i64 = if ax < ay { ay } else { ax };
        let bx: i64 = higher(if px < 0 { -px } else { px }, higher(
            self.nx - 1 - px,
            px - (self.nx - 1),
        ));
        let by: i64 = higher(if py < 0 { -py } else { py }, higher(
            self.ny - 1 - py,
            py - (self.ny - 1),
        ));
        let limit: i64 = higher(bx, by);
        let mut best = Best { tap: None, dist2: 0 };
        while radius <= limit
            invariant
                self.wf(),
                self.taps@.len() > 0,
                p.wf(),
                px == axis(p.x as int, self.origin.x as int, self.cell as int),
                py == axis(p.y as int, self.origin.y as int, self.cell as int),
                -0x200_0000_0001 <= px <= 0x200_0000_0001,
                -0x200_0000_0001 <= py <= 0x200_0000_0001,
                0 <= radius <= limit + 1,
                limit <= 0x400_0000_0000,
                forall|cx: int, cy: int|
                    self.in_grid(cx, cy) ==> #[trigger] Self::in_block(
                        px as int,
                        py as int,
                        limit as int,
                        cx,
                        cy,
                    ),
                best.wf(self.taps@, p),
                forall|cx: int, cy: int|
                    self.in_grid(cx, cy) && Self::in_block(px as int, py as int, radius - 1, cx, cy)
                        ==> #[trigger] self.cell_done(p, best, cx, cy),
            decreases limit + 1 - radius,
        {
            best = self.scan_ring(p, px, py, radius, best);
            if let Some(b) = best.tap {
                assert(
                    0 <= radius * self.cell <= 0x400_0000_0000 * 0x400_0000_0000
                ) by (nonlinear_arith)
                    requires
                        0 <= radius <= 0x400_0000_0000,
                        0 < self.cell <= 0x400_0000_0000,
                ;
                let reach: i128 = radius as i128 * self.cell as i128;
                assert(reach < 0x1000_0000_0000 ==> 0 <= reach * reach <= 0x1000_0000_0000
                    * 0x1000_0000_0000) by (nonlinear_arith)
                    requires
                        reach >= 0,
                ;
                if reach < 0x1000_0000_0000 && best.dist2 <= reach * reach {
                    proof {
                        self.lemma_stop(p, px as int, py as int, radius as int, best);
                    }
                    return b;
                }
            }
            radius = radius + 1;
        }
        proof {
            self.lemma_covered(p, px as int, py as int, radius - 1, best);
        }
        proof {
            assert(no_worse(self.taps@, p, best.tap, 0));
            assert forall|j: int| 0 <= j < self.taps@.len() implies seg_dist2(
                p,
                self.taps@[best.tap->0 as int],
            ) < #[trigger] seg_dist2(p, self.taps@[j]) || (seg_dist2(
                p,
                self.taps@[best.tap->0 as int],
            ) == seg_dist2(p, self.taps@[j]) && best.tap->0 <= j) by {
                assert(no_worse(self.taps@, p, best.tap, j));
            }
        }
        match best.tap {
            Some(b) => b,
            None => 0,
        }
    }

    /// A segment with a cell in the scanned block is no better than the best.
    proof fn lemma_scanned(&self, p: Point, px: int, py: int, r: int, best: Best, t: int)
        requires
            self.wf(),
            0 <= t < self.taps@.len(),
            r >= 0,
            forall|cx: int, cy: int|
                self.in_grid(cx, cy)
                    && Self::in_block(px, py, r, cx, cy) ==> #[trigger] self.cell_done(
                    p,
                    best,
                    cx,
                    cy,
                ),
            self.x_lo(t) <= px + r,
            px - r <= self.x_hi(t),
            self.y_lo(t) <= py + r,
            py - r <= self.y_hi(t),
        ensures
            no_worse(self.taps@, p, best.tap, t),
    {
        assert(self.taps@[t].wf());
        let cx = max_int(self.x_lo(t), px - r);
        let cy = max_int(self.y_lo(t), py - r);
        assert(self.touches_cell(t, cx, cy));
        assert(self.filed(t, cx, cy));
        assert(self.cell_done(p, best, cx, cy));
        let list = self.bucket@[self.slot(cx, cy)]@;
        let k = choose|k: int| 0 <= k < list.len() && list[k] == t as u32;
        assert(no_worse(self.taps@, p, best.tap, self.bucket@[self.slot(cx, cy)]@[k] as int));
    }

    proof fn lemma_covered(&self, p: Point, px: int, py: int, r: int, best: Best)
        requires
            self.wf(),
            r >= 0,
            forall|cx: int, cy: int|
                self.in_grid(cx, cy) ==> #[trigger] Self::in_block(px, py, r, cx, cy),
            forall|cx: int, cy: int|
                self.in_grid(cx, cy)
                    && Self::in_block(px, py, r, cx, cy) ==> #[trigger] self.cell_done(
                    p,
                    best,
                    cx,
                    cy,
                ),
        ensures
            forall|t: int|
                0 <= t < self.taps@.len() ==> #[trigger] no_worse(self.taps@, p, best.tap, t),
    {
        assert forall|t: int| 0 <= t < self.taps@.len() implies #[trigger] no_worse(
            self.taps@,
            p,
            best.tap,
            t,
        ) by {
            assert(self.taps@[t].wf());
            assert(Self::in_block(px, py, r, self.x_lo(t), self.y_lo(t)));
            self.lemma_scanned(p, px, py, r, best, t);
        }
    }

    /// Once the best is within `r` cells, no unscanned segment beats it.
    proof fn lemma_stop(&self, p: Point, px: int, py: int, r: int, best: Best)
        requires
            self.wf(),
            p.wf(),
            r >= 0,
            px == axis(p.x as int, self.origin.x as int, self.cell as int),
            py == axis(p.y as int, self.origin.y as int, self.cell as int),
            best.tap is Some,
            best.wf(self.taps@, p),
            best.dist2 <= (r * self.cell) * (r * self.cell),
            forall|cx: int, cy: int|
                self.in_grid(cx, cy)
                    && Self::in_block(px, py, r, cx, cy) ==> #[trigger] self.cell_done(
                    p,
                    best,
                    cx,
                    cy,
                ),
        ensures
            is_nearest_tap(self.taps@, p, best.tap->0 as int),
    {
        let reach = r * self.cell;
        assert(reach >= 0) by (nonlinear_arith)
            requires
                reach == r * self.cell,
                r >= 0,
                self.cell > 0,
        ;
        assert forall|t: int| 0 <= t < self.taps@.len() implies seg_dist2(
            p,
            self.taps@[best.tap->0 as int],
        ) < #[trigger] seg_dist2(p, self.taps@[t]) || (seg_dist2(
            p,
            self.taps@[best.tap->0 as int],
        ) == seg_dist2(p, self.taps@[t]) && best.tap->0 <= t) by {
            assert(self.taps@[t].wf());
            let s = self.taps@[t];
            if self.x_lo(t) <= px + r && px - r <= self.x_hi(t) && self.y_lo(t) <= py + r && py - r
                <= self.y_hi(t) {
                self.lemma_scanned(p, px, py, r, best, t);
                assert(no_worse(self.taps@, p, best.tap, t));
            } else {
                lemma_beyond_block(
                    p.x as int,
                    s.a.x as int,
                    s.b.x as int,
                    self.origin.x as int,
                    self.cell as int,
                    r,
                );
                lemma_beyond_block(
                    p.y as int,
                    s.a.y as int,
                    s.b.y as int,
                    self.origin.y as int,
                    self.cell as int,
                    r,
                );
                lemma_dist2_at_least(p, s, reach + 1);
                assert((reach + 1) * (reach + 1) > reach * reach) by (nonlinear_arith)
                    requires
                        reach >= 0,
                ;
            }
        }
    }
}

/// Along one axis, an interval whose cells are all more than `r` from a
/// coordinate's cell is more than `r` cells away.
proof fn lemma_beyond_block(v: int, a: int, b: int, origin: int, cell: int, r: int)
    requires
        cell > 0,
        r >= 0,
    ensures
        axis(min_int(a, b), origin, cell) > axis(v, origin, cell) + r || axis(
            max_int(a, b),
            origin,
            cell,
        ) < axis(v, origin, cell) - r ==> gap(v, a, b) >= r * cell + 1,
{
    let q = axis(v, origin, cell);
    let lo = axis(min_int(a, b), origin, cell);
    let hi = axis(max_int(a, b), origin, cell);
    lemma_axis(v, v, origin, cell);
    lemma_axis(min_int(a, b), min_int(a, b), origin, cell);
    lemma_axis(max_int(a, b), max_int(a, b), origin, cell);
    if lo > q + r {
        assert(lo * cell >= (q + r + 1) * cell) by (nonlinear_arith)
            requires
                lo >= q + r + 1,
                cell > 0,
        ;
        assert((q + r + 1) * cell == (q + 1) * cell + r * cell) by (nonlinear_arith);
        assert(r * cell >= 0) by (nonlinear_arith)
            requires
                r >= 0,
                cell > 0,
        ;
    } else if hi < q - r {
        assert((hi + 1) * cell <= (q - r) * cell) by (nonlinear_arith)
            requires
                hi + 1 <= q - r,
                cell > 0,
        ;
        assert((q - r) * cell == q * cell - r * cell) by (nonlinear_arith);
        assert(r * cell >= 0) by (nonlinear_arith)
            requires
                r >= 0,
                cell > 0,
        ;
    }
}

} // verus!
