//! Whether one region lies in another.
//!
//! A region is a list of rings, an outer one and then the holes in it.
use crate::clearance::{clear_of, lemma_clear_of, lemma_clear_points, ring_clear_of};
use crate::geom::{Bbox, Point};
use crate::ring::{in_region, lemma_region_in_box, on_edges, on_ring, point_in_region, ring_wf};
use vstd::prelude::*;

verus! {

/// Whether a point is inside a ring and on none of its edges.
pub open spec fn within_ring(ring: Seq<Point>, p: Point) -> bool {
    in_region(ring, p) && !on_edges(ring, p, ring.len())
}

/// Whether a region has a point, its boundary included.
pub open spec fn region_has(rings: Seq<Seq<Point>>, p: Point) -> bool {
    &&& in_region(rings[0], p)
    &&& forall|k: int| 1 <= k < rings.len() ==> !within_ring(#[trigger] rings[k], p)
}

/// Whether a region has a point off its boundary.
pub open spec fn region_has_inside(rings: Seq<Seq<Point>>, p: Point) -> bool {
    &&& within_ring(rings[0], p)
    &&& forall|k: int| 1 <= k < rings.len() ==> !in_region(#[trigger] rings[k], p)
}

/// Whether a point of a region is one of another: a point of the boundary is
/// anywhere in the other, and a point inside is inside it.
pub open spec fn fits_at(tap: Seq<Seq<Point>>, well: Seq<Seq<Point>>, p: Point) -> bool {
    &&& region_has(tap, p) ==> region_has(well, p)
    &&& region_has_inside(tap, p) ==> region_has_inside(well, p)
}

/// Whether a region lies in another with every point.
pub open spec fn lies_in(tap: Seq<Seq<Point>>, well: Seq<Seq<Point>>) -> bool {
    forall|p: Point| #[trigger] fits_at(tap, well, p)
}

/// Whether the part of a region in a box lies in another.
spec fn lies_in_part(tap: Seq<Seq<Point>>, well: Seq<Seq<Point>>, b: Bbox) -> bool {
    forall|p: Point| b.has(p.x as int, p.y as int) ==> #[trigger] fits_at(tap, well, p)
}

/// The rings of a region.
pub open spec fn rings_of(rings: Seq<Vec<Point>>) -> Seq<Seq<Point>> {
    Seq::new(rings.len(), |k: int| rings[k]@)
}

/// Whether a region can be asked about.
pub open spec fn region_wf(rings: Seq<Vec<Point>>) -> bool {
    &&& rings.len() > 0
    &&& forall|k: int| 0 <= k < rings.len() ==> ring_wf(#[trigger] rings[k]@)
}

spec fn all_clear(rings: Seq<Seq<Point>>, b: Bbox) -> bool {
    forall|k: int| 0 <= k < rings.len() ==> clear_of(#[trigger] rings[k], b)
}

/// A region clear of a box has all of the box inside it or none of it.
proof fn lemma_all_clear(rings: Seq<Seq<Point>>, b: Bbox, p: Point, q: Point)
    requires
        rings.len() > 0,
        all_clear(rings, b),
        b.has(p.x as int, p.y as int),
        b.has(q.x as int, q.y as int),
    ensures
        region_has(rings, p) == region_has(rings, q),
        region_has_inside(rings, p) == region_has(rings, q),
{
    assert forall|k: int| 0 <= k < rings.len() implies in_region(#[trigger] rings[k], p)
        == in_region(rings[k], q) && within_ring(rings[k], p) == in_region(rings[k], q)
        && within_ring(rings[k], q) == in_region(rings[k], q) by {
        assert(clear_of(rings[k], b));
        lemma_clear_of(rings[k], b, p, q);
        lemma_clear_points(rings[k], b, p);
        lemma_clear_points(rings[k], b, q);
    }
    assert(within_ring(rings[0], p) == in_region(rings[0], q));
}

fn region_clear(rings: &Vec<Vec<Point>>, b: Bbox) -> (r: bool)
    requires
        region_wf(rings@),
        b.wf(),
    ensures
        r == all_clear(rings_of(rings@), b),
{
    let ghost seen = rings_of(rings@);
    let mut k: usize = 0;
    while k < rings.len()
        invariant
            region_wf(rings@),
            b.wf(),
            seen == rings_of(rings@),
            k <= rings@.len(),
            forall|j: int| 0 <= j < k ==> clear_of(#[trigger] seen[j], b),
        decreases rings@.len() - k,
    {
        assert(ring_wf(rings@[k as int]@));
        assert(seen[k as int] == rings@[k as int]@);
        if !ring_clear_of(&rings[k], b) {
            assert(!clear_of(seen[k as int], b));
            return false;
        }
        k = k + 1;
    }
    true
}

/// Whether a region has a point, and whether off its boundary.
fn region_probe(rings: &Vec<Vec<Point>>, p: Point) -> (r: (bool, bool))
    requires
        region_wf(rings@),
        p.wf(),
    ensures
        r.0 == region_has(rings_of(rings@), p),
        r.1 == region_has_inside(rings_of(rings@), p),
{
    let ghost seen = rings_of(rings@);
    assert(ring_wf(rings@[0]@));
    assert(seen[0] == rings@[0]@);
    let mut closed: bool = point_in_region(&rings[0], p);
    let mut open: bool = closed && !on_ring(&rings[0], p);
    let mut k: usize = 1;
    while k < rings.len()
        invariant
            region_wf(rings@),
            p.wf(),
            seen == rings_of(rings@),
            1 <= k <= rings@.len(),
            closed == (in_region(seen[0], p) && forall|j: int|
                1 <= j < k ==> !within_ring(#[trigger] seen[j], p)),
            open == (within_ring(seen[0], p) && forall|j: int|
                1 <= j < k ==> !in_region(#[trigger] seen[j], p)),
        decreases rings@.len() - k,
    {
        assert(ring_wf(rings@[k as int]@));
        assert(seen[k as int] == rings@[k as int]@);
        if point_in_region(&rings[k], p) {
            open = false;
            assert(in_region(seen[k as int], p));
            if !on_ring(&rings[k], p) {
                closed = false;
                assert(within_ring(seen[k as int], p));
            }
        }
        k = k + 1;
    }
    (closed, open)
}

/// Whether the part of a region in a box lies in another, by quartering the box
/// until it is clear of one region's edges or is one point.
fn part_lies_in(tap: &Vec<Vec<Point>>, well: &Vec<Vec<Point>>, b: Bbox) -> (r: bool)
    requires
        region_wf(tap@),
        region_wf(well@),
        b.wf(),
    ensures
        r == lies_in_part(rings_of(tap@), rings_of(well@), b),
    decreases (b.xhi - b.xlo) + (b.yhi - b.ylo),
{
    let ghost (t, w) = (rings_of(tap@), rings_of(well@));
    let cx: i64 = b.xlo + (b.xhi - b.xlo) / 2;
    let cy: i64 = b.ylo + (b.yhi - b.ylo) / 2;
    let at = Point { x: cx, y: cy };
    let (of_tap, in_tap) = region_probe(tap, at);
    let (of_well, in_well) = region_probe(well, at);
    if (of_tap && !of_well) || (in_tap && !in_well) {
        assert(!fits_at(t, w, at));
        return false;
    }
    assert(fits_at(t, w, at));
    let well_clear: bool = region_clear(well, b);
    if well_clear && of_well {
        assert forall|p: Point| b.has(p.x as int, p.y as int) implies #[trigger] fits_at(
            t,
            w,
            p,
        ) by {
            lemma_all_clear(w, b, p, at);
        }
        return true;
    }
    let tap_clear: bool = region_clear(tap, b);
    if tap_clear && (!of_tap || well_clear) {
        assert forall|p: Point| b.has(p.x as int, p.y as int) implies #[trigger] fits_at(
            t,
            w,
            p,
        ) by {
            lemma_all_clear(t, b, p, at);
            lemma_all_clear(t, b, at, at);
            if well_clear {
                lemma_all_clear(w, b, p, at);
                lemma_all_clear(w, b, at, at);
            }
        }
        return true;
    }
    if cx == b.xhi && cy == b.yhi {
        assert forall|p: Point| b.has(p.x as int, p.y as int) implies #[trigger] fits_at(
            t,
            w,
            p,
        ) by {
            assert(p == at);
        }
        return true;
    }
    let q1 = Bbox { xlo: b.xlo, ylo: b.ylo, xhi: cx, yhi: cy };
    if !part_lies_in(tap, well, q1) {
        proof {
            lemma_part(t, w, b, q1);
        }
        return false;
    }
    if cx < b.xhi {
        let q2 = Bbox { xlo: cx + 1, ylo: b.ylo, xhi: b.xhi, yhi: cy };
        if !part_lies_in(tap, well, q2) {
            proof {
                lemma_part(t, w, b, q2);
            }
            return false;
        }
    }
    if cy < b.yhi {
        let q3 = Bbox { xlo: b.xlo, ylo: cy + 1, xhi: cx, yhi: b.yhi };
        if !part_lies_in(tap, well, q3) {
            proof {
                lemma_part(t, w, b, q3);
            }
            return false;
        }
    }
    if cx < b.xhi && cy < b.yhi {
        let q4 = Bbox { xlo: cx + 1, ylo: cy + 1, xhi: b.xhi, yhi: b.yhi };
        if !part_lies_in(tap, well, q4) {
            proof {
                lemma_part(t, w, b, q4);
            }
            return false;
        }
    }
    true
}

proof fn lemma_part(t: Seq<Seq<Point>>, w: Seq<Seq<Point>>, b: Bbox, q: Bbox)
    requires
        !lies_in_part(t, w, q),
        b.holds(q),
    ensures
        !lies_in_part(t, w, b),
{
    let p = choose|p: Point| q.has(p.x as int, p.y as int) && !#[trigger] fits_at(t, w, p);
    assert(b.has(p.x as int, p.y as int));
}

/// Whether a region lies in another, given a box around the first and one around the
/// second.
pub fn region_lies_in(
    tap: &Vec<Vec<Point>>,
    tap_box: Bbox,
    well: &Vec<Vec<Point>>,
    well_box: Bbox,
) -> (r: bool)
    requires
        region_wf(tap@),
        region_wf(well@),
        tap_box.wf(),
        forall|i: int|
            0 <= i < tap@[0]@.len() ==> tap_box.has(
                (#[trigger] tap@[0]@[i]).x as int,
                tap@[0]@[i].y as int,
            ),
        forall|i: int|
            0 <= i < well@[0]@.len() ==> well_box.has(
                (#[trigger] well@[0]@[i]).x as int,
                well@[0]@[i].y as int,
            ),
    ensures
        r == lies_in(rings_of(tap@), rings_of(well@)),
{
    let ghost (t, w) = (rings_of(tap@), rings_of(well@));
    assert(t[0] == tap@[0]@ && w[0] == well@[0]@);
    assert(ring_wf(tap@[0]@));
    if tap[0].len() > 0 {
        let first = tap[0][0];
        assert(tap@[0]@[0].wf());
        let (of_tap, _) = region_probe(tap, first);
        if of_tap {
            if first.x < well_box.xlo || first.x > well_box.xhi || first.y < well_box.ylo || first.y
                > well_box.yhi {
                proof {
                    if region_has(w, first) {
                        lemma_region_in_box(w[0], well_box, first);
                    }
                }
                assert(!fits_at(t, w, first));
                return false;
            }
            let (of_well, _) = region_probe(well, first);
            if !of_well {
                assert(!fits_at(t, w, first));
                return false;
            }
        }
    }
    let r: bool = part_lies_in(tap, well, tap_box);
    proof {
        if r {
            assert forall|p: Point| #[trigger] fits_at(t, w, p) by {
                if in_region(t[0], p) {
                    lemma_region_in_box(t[0], tap_box, p);
                }
            }
        } else {
            let p = choose|p: Point|
                tap_box.has(p.x as int, p.y as int) && !#[trigger] fits_at(t, w, p);
            assert(!fits_at(t, w, p));
        }
    }
    r
}

} // verus!
