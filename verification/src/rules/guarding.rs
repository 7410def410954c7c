//! What keeps a design from latching up, and what is reported where it does not.
use crate::design::Design;
use crate::geom::{Bbox, Point};
use crate::intent::IntentMap;
use crate::model::PolyId;
use crate::number::Number;
use crate::power::network::NetNetworks;
use crate::report::Measurement;
use crate::rules::latchup::{
    closest, member_boxes, nearest_spec, separation_spec, supply_boxes, LatchupRow,
};
use crate::store::GeometryStore;
use vstd::prelude::*;

verus! {

/// Whether a box grown by a distance on every side reaches another.
pub open spec fn reaches(a: Bbox, b: Bbox, d: int) -> bool {
    a.xlo - d <= b.xhi && b.xlo <= a.xhi + d && a.ylo - d <= b.yhi && b.ylo <= a.yhi + d
}

/// The nearest of some boxes is as near as the nearest of them: a ring grown by a
/// distance reaches one of them exactly where that distance is not below it, and there
/// is none exactly where there are no boxes.
pub proof fn lemma_nearest_supply_is_nearest(boxes: Seq<Bbox>, ring: Bbox, n: nat, d: int)
    requires
        n <= boxes.len(),
        d >= 0,
    ensures
        nearest_spec(boxes, ring, n) is Some <==> n > 0,
        nearest_spec(boxes, ring, n) is Some ==> (nearest_spec(boxes, ring, n)->0 <= d <==> exists|
            k: int,
        |
            0 <= k < n && reaches(ring, #[trigger] boxes[k], d)),
    decreases n,
{
    if n > 0 {
        let m = (n - 1) as nat;
        lemma_nearest_supply_is_nearest(boxes, ring, m, d);
        let gap = separation_spec(ring, boxes[m as int]);
        assert(gap <= d <==> reaches(ring, boxes[m as int], d));
        if nearest_spec(boxes, ring, n)->0 <= d {
            if gap <= d {
                assert(reaches(ring, boxes[m as int], d));
            } else {
                let k = choose|k: int| 0 <= k < m && reaches(ring, #[trigger] boxes[k], d);
                assert(0 <= k < n && reaches(ring, boxes[k], d));
            }
        } else if exists|k: int| 0 <= k < n && reaches(ring, #[trigger] boxes[k], d) {
            let k = choose|k: int| 0 <= k < n && reaches(ring, #[trigger] boxes[k], d);
            if k < m {
                assert(0 <= k < m && reaches(ring, boxes[k], d));
            }
        }
    }
}

/// Whether a box is that of a polygon of one of the first `n` declared supplies.
spec fn is_supply_box(design: Design, intent: &IntentMap, n: int, b: Bbox) -> bool {
    exists|s: int, i: int|
        0 <= s < n && 0 <= i < design.nets.members(intent.supply_net@[s].0 as int).len() && b
            == #[trigger] box_of(design, intent, s, i)
}

/// The boxes a ring is measured to are those of the declared supplies' polygons.
proof fn lemma_supply_boxes(design: Design, intent: &IntentMap, n: nat)
    requires
        n <= intent.supply_net@.len(),
    ensures
        forall|k: int|
            0 <= k < supply_boxes(design, intent, n).len() ==> is_supply_box(
                design,
                intent,
                n as int,
                #[trigger] supply_boxes(design, intent, n)[k],
            ),
        forall|s: int, i: int|
            0 <= s < n && 0 <= i < design.nets.members(intent.supply_net@[s].0 as int).len()
                ==> supply_boxes(design, intent, n).contains(
                #[trigger] box_of(design, intent, s, i),
            ),
    decreases n,
{
    if n > 0 {
        let m = (n - 1) as nat;
        lemma_supply_boxes(design, intent, m);
        let before = supply_boxes(design, intent, m);
        let members = design.nets.members(intent.supply_net@[m as int].0 as int);
        let own = member_boxes(design, members);
        let all = supply_boxes(design, intent, n);
        assert(all =~= before + own);
        assert forall|k: int| 0 <= k < all.len() implies is_supply_box(
            design,
            intent,
            n as int,
            #[trigger] all[k],
        ) by {
            if k < before.len() {
                assert(all[k] == before[k]);
                assert(is_supply_box(design, intent, m as int, before[k]));
                let (s, i) = choose|s: int, i: int|
                    0 <= s < m && 0 <= i < design.nets.members(
                        intent.supply_net@[s].0 as int,
                    ).len() && before[k] == #[trigger] box_of(design, intent, s, i);
                assert(all[k] == box_of(design, intent, s, i));
            } else {
                assert(all[k] == box_of(design, intent, m as int, k - before.len()));
            }
        }
        assert forall|s: int, i: int|
            0 <= s < n && 0 <= i < design.nets.members(
                intent.supply_net@[s].0 as int,
            ).len() implies all.contains(#[trigger] box_of(design, intent, s, i)) by {
            if s < m {
                assert(before.contains(box_of(design, intent, s, i)));
                let k = before.index_of(box_of(design, intent, s, i));
                assert(all[k] == before[k]);
            } else {
                assert(all[before.len() + i] == own[i]);
            }
        }
    }
}

/// The box of polygon `i` of declared supply `s`.
pub open spec fn box_of(design: Design, intent: &IntentMap, s: int, i: int) -> Bbox {
    design.store.bbox@[design.nets.members(intent.supply_net@[s].0 as int)[i].0 as int]
}

/// Whether a polygon of a declared supply is within a distance of a box.
pub open spec fn supply_within(design: Design, intent: &IntentMap, ring: Bbox, d: int) -> bool {
    exists|s: int, i: int|
        0 <= s < intent.supply_net@.len() && 0 <= i < design.nets.members(
            intent.supply_net@[s].0 as int,
        ).len() && reaches(ring, #[trigger] box_of(design, intent, s, i), d)
}

/// A guard ring is clean exactly where neither side of its box is below the required
/// width and some polygon of a declared supply is within the allowed distance of it; a
/// ring too thin on either side is reported with its shorter side.
pub proof fn lemma_guard_ring_is_judged(row: LatchupRow, p: int)
    requires
        row.wf(),
        row.design.store.bbox@[p].wf(),
        row.ring_lo() <= p < row.ring_hi(),
        0 <= row.table.max_tap_distance@[row.row as int],
        forall|s: int, i: int|
            0 <= s < row.intent.supply_net@.len() && 0 <= i < row.design.nets.members(
                row.intent.supply_net@[s].0 as int,
            ).len() ==> (#[trigger] box_of(row.design, row.intent, s, i)).wf(),
    ensures
        ({
            let b = row.design.store.bbox@[p];
            let least = row.table.min_guard_ring_width@[row.row as int];
            let far = row.table.max_tap_distance@[row.row as int];
            let thin = b.xhi - b.xlo < least || b.yhi - b.ylo < least;
            let near = supply_within(row.design, row.intent, b, far as int);
            let found = row.ring_found(p);
            &&& found.len() == (if thin { 1int } else { 0 }) + (if near { 0int } else { 1 })
            &&& thin ==> found[0].limit == Measurement::Length(least) && found[0].measured
                == Measurement::Length(
                (if b.xhi - b.xlo < b.yhi - b.ylo { b.xhi - b.xlo } else { b.yhi - b.ylo }) as i64,
            )
            &&& !near && row.intent.supply_net@.len() == 0 ==> found.last().measured
                == Measurement::Count(0)
            &&& forall|k: int|
                0 <= k < found.len() ==> (#[trigger] found[k]).shapes.0 == PolyId(p as u32)
        }),
{
    let b = row.design.store.bbox@[p];
    let far = row.table.max_tap_distance@[row.row as int] as int;
    let n = row.intent.supply_net@.len();
    let boxes = supply_boxes(row.design, row.intent, n);
    lemma_supply_boxes(row.design, row.intent, n);
    lemma_nearest_supply_is_nearest(boxes, b, boxes.len(), far);
    if supply_within(row.design, row.intent, b, far) {
        let (s, i) = choose|s: int, i: int|
            0 <= s < n && 0 <= i < row.design.nets.members(
                row.intent.supply_net@[s].0 as int,
            ).len() && reaches(b, #[trigger] box_of(row.design, row.intent, s, i), far);
        let one = box_of(row.design, row.intent, s, i);
        assert(boxes.contains(one));
        let k = boxes.index_of(one);
        assert(reaches(b, boxes[k], far));
    } else if exists|k: int| 0 <= k < boxes.len() && reaches(b, #[trigger] boxes[k], far) {
        let k = choose|k: int| 0 <= k < boxes.len() && reaches(b, #[trigger] boxes[k], far);
        assert(is_supply_box(row.design, row.intent, n as int, boxes[k]));
        let (s, i) = choose|s: int, i: int|
            0 <= s < n && 0 <= i < row.design.nets.members(
                row.intent.supply_net@[s].0 as int,
            ).len() && boxes[k] == #[trigger] box_of(row.design, row.intent, s, i);
        assert(reaches(b, box_of(row.design, row.intent, s, i), far));
    }
    assert forall|k: int| 0 <= k < boxes.len() implies (#[trigger] boxes[k]).wf() by {
        assert(is_supply_box(row.design, row.intent, n as int, boxes[k]));
        let (s, i) = choose|s: int, i: int|
            0 <= s < n && 0 <= i < row.design.nets.members(
                row.intent.supply_net@[s].0 as int,
            ).len() && boxes[k] == #[trigger] box_of(row.design, row.intent, s, i);
        assert(box_of(row.design, row.intent, s, i).wf());
    }
    lemma_gap_fits(boxes, b, boxes.len());
}

proof fn lemma_gap_fits(boxes: Seq<Bbox>, ring: Bbox, n: nat)
    requires
        n <= boxes.len(),
        ring.wf(),
        forall|k: int| 0 <= k < boxes.len() ==> (#[trigger] boxes[k]).wf(),
    ensures
        nearest_spec(boxes, ring, n) matches Some(g) ==> 0 <= g <= i64::MAX,
    decreases n,
{
    if n > 0 {
        lemma_gap_fits(boxes, ring, (n - 1) as nat);
        assert(boxes[n - 1].wf());
    }
}

/// A pad is reported where no discharge path leaves it, and where its best one is above
/// the allowed resistance, with that resistance; each net is judged at its first pad
/// only.
pub proof fn lemma_pad_is_judged(row: LatchupRow, p: int)
    ensures
        ({
            let limit = row.table.max_path_resistance@[row.row as int];
            let found = row.pad_found(p);
            &&& !row.first_pad(p) ==> found.len() == 0
            &&& row.first_pad(p) && row.path(p) is None ==> found.len() == 1 && found[0].measured
                == Measurement::Count(0) && found[0].limit == Measurement::Count(1)
            &&& row.first_pad(p) && row.path(p) is Some ==> {
                &&& found.len() == (if limit.lt(row.path(p)->0) { 1int } else { 0 })
                &&& found.len() == 1 ==> found[0].measured == Measurement::Resistance(
                    row.path(p)->0,
                ) && found[0].limit == Measurement::Resistance(limit)
            }
            &&& found.len() == 1 ==> found[0].shapes.0 == PolyId(p as u32)
        }),
{
}

/// Whether listed clamp `c` is what device `d` is, carries the event, holds its node low
/// enough, and costs `w`.
pub open spec fn protects(row: LatchupRow, d: int, c: int, w: Number) -> bool {
    &&& 0 <= d < row.design.devices.devices()
    &&& row.clamp_lo() <= c < row.clamp_hi()
    &&& row.table.clamp_model@[c] == row.design.devices.model@[d]
    &&& row.table.required_current@[row.row as int].le(row.table.clamp_capacity@[c])
    &&& row.table.clamp_voltage@[c].le(row.table.max_clamp_voltage@[row.row as int])
    &&& row.table.clamp_resistance@[c] == w
}

/// A clamp edge of the discharge graph is a device on the row's list that carries the
/// required current and clamps no higher than allowed; it joins the nets of two of its
/// terminals, at its own resistance.
pub proof fn lemma_only_a_fit_clamp_discharges(row: LatchupRow, u: u64, v: u64, w: Number)
    requires
        row.clamp_joins(u, v, w),
    ensures
        exists|d: int, c: int| #[trigger] protects(row, d, c, w),
{
    let (d, s, t) = choose|d: int, s: int, t: int| #[trigger] row.bridges(d, s, t, u, v, w);
    let c = row.clamp(d)->0;
    assert(row.qualifies(d));
    assert(exists|c: int| row.names(row.design.devices.model@[d], c));
    assert(row.names(row.design.devices.model@[d], c));
    assert(protects(row, d, c, w));
}

/// The terminal a device attaches to is one of the network's, and none of them has its
/// shape's centre nearer the device.
pub proof fn lemma_device_attaches_to_the_nearest(
    store: &GeometryStore,
    networks: &NetNetworks,
    r: int,
    marker: Point,
    n: nat,
) -> (at: int)
    requires
        n <= networks.terminals(r).len(),
    ensures
        closest(store, networks, r, marker, n) is Some <==> n > 0,
        n > 0 ==> ({
            let (best, held) = closest(store, networks, r, marker, n)->0;
            &&& 0 <= at < n
            &&& held == networks.terminals(r)[at]
            &&& best == away(store, networks, r, marker, at)
            &&& forall|k: int| 0 <= k < n ==> best <= #[trigger] away(store, networks, r, marker, k)
            &&& forall|k: int| 0 <= k < at ==> best < #[trigger] away(store, networks, r, marker, k)
        }),
    decreases n,
{
    if n == 0 {
        0
    } else {
        let m = (n - 1) as nat;
        let before = lemma_device_attaches_to_the_nearest(store, networks, r, marker, m);
        let d = away(store, networks, r, marker, m as int);
        match closest(store, networks, r, marker, m) {
            None => m as int,
            Some((best, _)) => if d < best { m as int } else { before },
        }
    }
}

/// How far a terminal's shape is from a point, squared, centre to point.
pub open spec fn away(
    store: &GeometryStore,
    networks: &NetNetworks,
    r: int,
    marker: Point,
    k: int,
) -> int {
    let b = store.bbox@[networks.shapes(r)[networks.terminals(r)[k] as int].0 as int];
    let c = crate::geom::centre_of(b);
    (marker.x - c.x) * (marker.x - c.x) + (marker.y - c.y) * (marker.y - c.y)
}

} // verus!
