//! Integer plane geometry in database units.
use vstd::prelude::*;

verus! {

/// Largest magnitude a coordinate may have.
pub const MAX_ABS_DBU: i64 = 0x100_0000_0000;

/// Whether a value is a coordinate.
pub open spec fn in_domain(v: int) -> bool {
    -MAX_ABS_DBU <= v <= MAX_ABS_DBU
}

/// A point of the layout plane.
#[derive(Clone, Copy, Debug, PartialEq, Eq, Structural)]
pub struct Point {
    pub x: i64,
    pub y: i64,
}

impl Point {
    pub open spec fn wf(self) -> bool {
        in_domain(self.x as int) && in_domain(self.y as int)
    }
}

/// A directed segment.
#[derive(Clone, Copy, Debug, PartialEq, Eq, Structural)]
pub struct Seg {
    pub a: Point,
    pub b: Point,
}

impl Seg {
    pub open spec fn wf(self) -> bool {
        self.a.wf() && self.b.wf()
    }
}

/// A closed axis-aligned box.
#[derive(Clone, Copy, Debug, PartialEq, Eq, Structural)]
pub struct Bbox {
    pub xlo: i64,
    pub ylo: i64,
    pub xhi: i64,
    pub yhi: i64,
}

pub open spec fn max_int(a: int, b: int) -> int {
    if a < b { b } else { a }
}

pub open spec fn min_int(a: int, b: int) -> int {
    if a < b { a } else { b }
}

impl Bbox {
    /// In the coordinate domain, and running low to high.
    pub open spec fn wf(self) -> bool {
        &&& in_domain(self.xlo as int)
        &&& in_domain(self.ylo as int)
        &&& in_domain(self.xhi as int)
        &&& in_domain(self.yhi as int)
        &&& self.xlo <= self.xhi
        &&& self.ylo <= self.yhi
    }

    /// Whether a point lies in the closed box.
    pub open spec fn has(self, x: int, y: int) -> bool {
        self.xlo <= x <= self.xhi && self.ylo <= y <= self.yhi
    }

    /// Whether two closed boxes share a point.
    pub open spec fn meets(self, other: Bbox) -> bool {
        self.xlo <= other.xhi && other.xlo <= self.xhi && self.ylo <= other.yhi && other.ylo
            <= self.yhi
    }

    /// Whether the box holds every point of another.
    pub open spec fn holds(self, other: Bbox) -> bool {
        self.xlo <= other.xlo && other.xhi <= self.xhi && self.ylo <= other.ylo && other.yhi
            <= self.yhi
    }

    pub open spec fn spec_area(self) -> int {
        (self.xhi - self.xlo) * (self.yhi - self.ylo)
    }

    /// Shared part of two boxes; meaningful when they meet.
    pub open spec fn clip(self, other: Bbox) -> Bbox {
        Bbox {
            xlo: if self.xlo < other.xlo { other.xlo } else { self.xlo },
            ylo: if self.ylo < other.ylo { other.ylo } else { self.ylo },
            xhi: if self.xhi < other.xhi { self.xhi } else { other.xhi },
            yhi: if self.yhi < other.yhi { self.yhi } else { other.yhi },
        }
    }

    pub fn overlaps(self, other: Bbox) -> (r: bool)
        ensures
            r == self.meets(other),
    {
        self.xlo <= other.xhi && other.xlo <= self.xhi && self.ylo <= other.yhi && other.ylo
            <= self.yhi
    }

    pub fn contains(self, other: Bbox) -> (r: bool)
        ensures
            r == self.holds(other),
    {
        self.xlo <= other.xlo && other.xhi <= self.xhi && self.ylo <= other.ylo && other.yhi
            <= self.yhi
    }

    pub fn area(self) -> (r: i128)
        requires
            self.wf(),
        ensures
            r == self.spec_area(),
            0 <= r <= 0x400_0000_0000 * 0x400_0000_0000,
    {
        let w: i128 = (self.xhi - self.xlo) as i128;
        let h: i128 = (self.yhi - self.ylo) as i128;
        proof {
            assert(0 <= w * h <= 0x400_0000_0000 * 0x400_0000_0000) by (nonlinear_arith)
                requires
                    0 <= w <= 0x400_0000_0000,
                    0 <= h <= 0x400_0000_0000,
            ;
        }
        w * h
    }

}

/// Half of a sum, rounded toward zero.
pub open spec fn half_sum(a: int, b: int) -> int {
    if a + b >= 0 { (a + b) / 2 } else { -((-(a + b)) / 2) }
}

/// The centre of a box, each coordinate rounded toward zero.
pub open spec fn centre_of(b: Bbox) -> Point {
    Point {
        x: half_sum(b.xlo as int, b.xhi as int) as i64,
        y: half_sum(b.ylo as int, b.yhi as int) as i64,
    }
}

/// Half of a sum of two coordinates, rounded toward zero.
pub fn midpoint(a: i64, b: i64) -> (r: i64)
    requires
        in_domain(a as int),
        in_domain(b as int),
    ensures
        r == half_sum(a as int, b as int),
        a <= b ==> a <= r <= b,
        in_domain(r as int),
{
    let s: i64 = a + b;
    if s >= 0 { s / 2 } else { -((-s) / 2) }
}

/// The centre of a box: where a violation over a region marks.
pub fn centre(b: Bbox) -> (r: Point)
    requires
        b.wf(),
    ensures
        r == centre_of(b),
        r.wf(),
        b.has(r.x as int, r.y as int),
{
    Point { x: midpoint(b.xlo, b.xhi), y: midpoint(b.ylo, b.yhi) }
}

/// Whether two boxes share area; boxes that only touch do not.
pub open spec fn share_area(a: Bbox, b: Bbox) -> bool {
    a.clip(b).xlo < a.clip(b).xhi && a.clip(b).ylo < a.clip(b).yhi
}

/// No two boxes of a list share area.
pub open spec fn disjoint(rects: Seq<Bbox>) -> bool {
    forall|i: int, j: int|
        0 <= i < j < rects.len() ==> !share_area(#[trigger] rects[i], #[trigger] rects[j])
}

/// Whether a box covers the unit cell whose lower left is a point.
pub open spec fn covers_cell(rect: Bbox, x: int, y: int) -> bool {
    rect.xlo <= x < rect.xhi && rect.ylo <= y < rect.yhi
}

/// Whether some box of a list covers a unit cell.
pub open spec fn cell_covered(rects: Seq<Bbox>, x: int, y: int) -> bool {
    exists|i: int| 0 <= i < rects.len() && covers_cell(#[trigger] rects[i], x, y)
}

} // verus!
