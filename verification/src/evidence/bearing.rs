//! What the evidence a layout shows amounts to.
use crate::closeness::{
    approximates, high, lemma_itself, lemma_product, lemma_quotient, lemma_reduced, lemma_whole,
    low, moderate, unit,
};
use crate::evidence::esd::{
    direction_of, guards, is_gate, on_rail, pad_area, pad_side, pads_among, paths_of, paths_to, rail_side,
    ring_ratio, EsdClamp, IoPad,
};
use crate::evidence::grid::{
    dbu_um, equal, metal_edge, metal_from, metal_to, nodes_to, pairs_ending, pairs_of, sheet_of,
    via_ohms, Joined, LEAST_OHMS, Placed,
};
use crate::evidence::mesh::{
    place_of, share_of, span_of,
};
use crate::evidence::narrow::{carries_current, narrow_to};
use crate::evidence::netlist::{
    ExtractedNetlist, MosDevice, NetNames, OFF_NET, Technology,
};
use crate::evidence::p2p::{gates, net_ohms, over_to, wired_nets};
use crate::evidence::pins::unconnected_to;
use crate::evidence::names::{
    begins, holds, raised, stands_at,
};
use crate::evidence::rails::{
    ground_named, ground_to, power_to, rail_named, volts_named, PowerNetClassification, Rail,
};
use crate::evidence::substrate::{
    distance_nm, inset, pairs_to, pairs_with, severity_at, tap_of, taps_among, untapped, well_named,
    WellRegion, WellType,
};
use crate::evidence::worst::{resistance, worst_from, worst_to};
use crate::geom::{Bbox, Point};
use crate::model::LayerId;
use crate::number::{lemma_magnitude_increases, Number, HIDDEN, ONE};
use crate::order::{climbing, lemma_in_order};
use crate::ring::doubled_area;
use crate::rooting::lemma_hypotenuse;
use crate::store::GeometryStore;
use vstd::arithmetic::power2::{lemma_pow2_adds, lemma_pow2_pos, pow2};
use vstd::prelude::*;

verus! {

/// The distance between two places is Pythagoras': its square is the sum of the squares
/// of the two runs between them, in nanometres, to within the roundings.
pub proof fn lemma_distance_is_pythagorean(tech: &Technology, a: Point, b: Point)
    requires
        a.wf(),
        b.wf(),
        a.x != b.x,
        a.y != b.y,
        tech.dbu_nm.grounded(),
        moderate(tech.dbu_nm, 100),
    ensures
        ({
            let (r, d) = (distance_nm(tech, a, b).value(), tech.dbu_nm.value());
            let (x, y) = (b.x - a.x, b.y - a.y);
            let exact = (d * d) * (x * x + y * y);
            &&& distance_nm(tech, a, b).grounded()
            &&& (r * r) * low(8) <= exact * high(8)
            &&& exact * low(8) <= (r * r) * high(8)
        }),
        distance_nm(tech, a, b) == distance_nm(tech, b, a),
{
    let (u, d) = (unit(), tech.dbu_nm.value());
    let x: int = if a.x < b.x { b.x - a.x } else { a.x - b.x };
    let y: int = if a.y < b.y { b.y - a.y } else { a.y - b.y };
    vstd::arithmetic::power2::lemma2_to64();
    vstd::arithmetic::power2::lemma2_to64_rest();
    lemma_pow2_pos(1074);
    lemma_whole(x, 50);
    lemma_whole(y, 50);
    lemma_itself(tech.dbu_nm);
    lemma_product(Number::of_spec(x), tech.dbu_nm, 50, 100, x, 1, d, u, 1, 0);
    lemma_product(Number::of_spec(y), tech.dbu_nm, 50, 100, y, 1, d, u, 1, 0);
    let (p, q) = (
        Number::of_spec(x).times_spec(tech.dbu_nm),
        Number::of_spec(y).times_spec(tech.dbu_nm),
    );
    assert(1 * u == u);
    lemma_hypotenuse(p, q, 150, x * d, y * d, u, 2);
    let r = distance_nm(tech, a, b).value();
    let rr = r * r;
    let exact = (d * d) * (x * x + y * y);
    let (v, w) = (b.x - a.x, b.y - a.y);
    assert(v * v == x * x && w * w == y * y) by (nonlinear_arith)
        requires
            x == v || x == -v,
            y == w || y == -w,
    ;
    assert((x * d) * (x * d) + (y * d) * (y * d) == exact) by (nonlinear_arith)
        requires
            exact == (d * d) * (x * x + y * y),
    ;
    let (l, h, uu) = (low(8), high(8), u * u);
    assert((exact * u) * u == exact * uu) by (nonlinear_arith)
        requires
            uu == u * u,
    ;
    assert(uu > 0) by (nonlinear_arith)
        requires
            uu == u * u,
            u > 0,
    ;
    assert((rr * uu) * l == uu * (rr * l) && (rr * uu) * h == uu * (rr * h) && (exact * uu) * l
        == uu * (exact * l) && (exact * uu) * h == uu * (exact * h)) by (nonlinear_arith);
    let (e, f, g, i) = (rr * l, exact * h, exact * l, rr * h);
    assert((uu * e <= uu * f ==> e <= f) && (uu * g <= uu * i ==> g <= i)) by (nonlinear_arith)
        requires
            uu > 0,
    ;
}

/// A point inside a well is as far in as its nearest edge; one outside is not in at all.
pub proof fn lemma_inset_is_to_the_nearest_edge(well: Bbox, p: Point)
    ensures
        ({
            let (l, r, b, t) = (
                p.x - well.xlo,
                well.xhi - p.x,
                p.y - well.ylo,
                well.yhi - p.y,
            );
            let d = inset(well, p);
            &&& l >= 0 && r >= 0 && b >= 0 && t >= 0 ==> d <= l && d <= r && d <= b && d <= t && (d
                == l || d == r || d == b || d == t)
            &&& l < 0 || r < 0 || b < 0 || t < 0 ==> d == 0
        }),
{
}

/// A pair is never less severe than one further apart.
pub proof fn lemma_closer_pairs_are_no_less_severe(near: Number, far: Number)
    requires
        near.grounded(),
        far.grounded(),
        near.le(far),
    ensures
        severity_at(far) is High ==> severity_at(near) is High,
        severity_at(near) is Low ==> severity_at(far) is Low,
        severity_at(near) is High <==> near.lt(Number::of_spec(5_000)),
        severity_at(near) is Low <==> !near.lt(Number::of_spec(20_000)) && !near.lt(
            Number::of_spec(5_000),
        ),
{
    vstd::arithmetic::power2::lemma2_to64();
    vstd::arithmetic::power2::lemma2_to64_rest();
    vstd::arithmetic::power2::lemma_pow2_strictly_increases(50, 100);
    crate::rounding::lemma_of_keeps_order(5_000, 20_000);
}

/// Every pair of opposite transistors within fifty micrometres is a site, at its own
/// distance, and no pair beyond is.
pub proof fn lemma_close_pairs_are_sites(
    tech: &Technology,
    nmos: Seq<(int, Point)>,
    pmos: Seq<(int, Point)>,
    n: nat,
    i: int,
    j: int,
)
    requires
        n <= nmos.len(),
        0 <= i < n,
        0 <= j < pmos.len(),
    ensures
        !Number::of_spec(50_000).lt(distance_nm(tech, nmos[i].1, pmos[j].1)) ==> pairs_to(
            tech,
            nmos,
            pmos,
            n,
        ).contains((nmos[i].0, pmos[j].0, distance_nm(tech, nmos[i].1, pmos[j].1))),
        forall|k: int|
            0 <= k < pairs_to(tech, nmos, pmos, n).len() ==> !Number::of_spec(50_000).lt(
                (#[trigger] pairs_to(tech, nmos, pmos, n)[k]).2,
            ),
    decreases n,
{
    let m = (n - 1) as nat;
    let before = pairs_to(tech, nmos, pmos, m);
    let own = pairs_with(tech, nmos[m as int], pmos, pmos.len());
    let all = pairs_to(tech, nmos, pmos, n);
    lemma_close_pairs_with(tech, nmos[m as int], pmos, pmos.len(), j);
    if m > 0 {
        lemma_close_pairs_are_sites(
            tech,
            nmos,
            pmos,
            m,
            if i < m {
                i
            } else {
                m - 1
            },
            j,
        );
    }
    assert forall|k: int| 0 <= k < all.len() implies !Number::of_spec(50_000).lt(
        (#[trigger] all[k]).2,
    ) by {
        if k < before.len() {
            assert(all[k] == before[k]);
        } else {
            assert(all[k] == own[k - before.len()]);
        }
    }
    let site = (nmos[i].0, pmos[j].0, distance_nm(tech, nmos[i].1, pmos[j].1));
    if !Number::of_spec(50_000).lt(site.2) {
        if i == m {
            let k = own.index_of(site);
            assert(all[before.len() + k] == site);
        } else {
            let k = before.index_of(site);
            assert(all[k] == site);
        }
    }
}

proof fn lemma_close_pairs_with(
    tech: &Technology,
    nmos: (int, Point),
    pmos: Seq<(int, Point)>,
    n: nat,
    j: int,
)
    requires
        n <= pmos.len(),
        0 <= j < pmos.len(),
    ensures
        j < n && !Number::of_spec(50_000).lt(distance_nm(tech, nmos.1, pmos[j].1)) ==> pairs_with(
            tech,
            nmos,
            pmos,
            n,
        ).contains((nmos.0, pmos[j].0, distance_nm(tech, nmos.1, pmos[j].1))),
        forall|k: int|
            0 <= k < pairs_with(tech, nmos, pmos, n).len() ==> !Number::of_spec(50_000).lt(
                (#[trigger] pairs_with(tech, nmos, pmos, n)[k]).2,
            ),
    decreases n,
{
    if n > 0 {
        let m = (n - 1) as nat;
        lemma_close_pairs_with(tech, nmos, pmos, m, j);
        let before = pairs_with(tech, nmos, pmos, m);
        let all = pairs_with(tech, nmos, pmos, n);
        let site = (nmos.0, pmos[j].0, distance_nm(tech, nmos.1, pmos[j].1));
        if j < n && !Number::of_spec(50_000).lt(site.2) {
            if j == m {
                assert(all[before.len() as int] == site);
            } else {
                let k = before.index_of(site);
                assert(all[k] == site);
            }
        }
    }
}

/// A well is untapped exactly where it has no tap.
pub proof fn lemma_untapped_wells(wells: Seq<WellRegion>, n: nat, i: int)
    requires
        0 <= i < n <= wells.len() <= usize::MAX,
    ensures
        untapped(wells, n).contains(i as usize) <==> wells[i].taps@.len() == 0,
        forall|k: int| 0 <= k < untapped(wells, n).len() ==> #[trigger] untapped(wells, n)[k] < n,
    decreases n,
{
    let m = (n - 1) as nat;
    let before = untapped(wells, m);
    let all = untapped(wells, n);
    if m > 0 {
        lemma_untapped_wells(
            wells,
            m,
            if i < m {
                i
            } else {
                m - 1
            },
        );
    }
    if wells[m as int].taps@.len() == 0 {
        assert(all[before.len() as int] == m as usize);
    }
    if i < m {
        if before.contains(i as usize) {
            let k = before.index_of(i as usize);
            assert(all[k] == i as usize);
        } else if all.contains(i as usize) {
            let k = all.index_of(i as usize);
            assert(all[k] == i as usize);
            assert(k < before.len() ==> before[k] == i as usize);
        }
    } else if all.contains(i as usize) && wells[i].taps@.len() > 0 {
        let k = all.index_of(i as usize);
        assert(before[k] < m);
    }
}

/// A metal edge costs its layer's sheet resistance times its length over its width, to
/// within two roundings, where that is above the least an edge can cost.
pub proof fn lemma_rail_metal_costs_its_squares(
    tech: &Technology,
    layer: LayerId,
    from: int,
    to: int,
    a: Bbox,
    b: Bbox,
)
    requires
        sheet_of(tech, layer).grounded(),
        moderate(sheet_of(tech, layer), 200),
        ({
            let (length, width) = metal_edge(tech, layer, from, to, a, b).size->0;
            &&& length.grounded() && moderate(length, 200)
            &&& width.grounded() && moderate(width, 200)
        }),
        (Number { bits: LEAST_OHMS }).le(metal_edge(tech, layer, from, to, a, b).ohms),
        metal_edge(tech, layer, from, to, a, b).ohms != (Number { bits: LEAST_OHMS }),
    ensures
        ({
            let edge = metal_edge(tech, layer, from, to, a, b);
            let (length, width) = edge.size->0;
            &&& edge.from == from
            &&& edge.to == to
            &&& approximates(
                edge.ohms,
                sheet_of(tech, layer).value() * length.value(),
                unit() * width.value(),
                2,
            )
            &&& !width.lt(dbu_um(tech)) || dbu_um(tech).is_nan_spec()
            &&& !length.lt(dbu_um(tech)) || dbu_um(tech).is_nan_spec()
        }),
{
    let edge = metal_edge(tech, layer, from, to, a, b);
    let (length, width) = edge.size->0;
    let (s, u) = (sheet_of(tech, layer), unit());
    lemma_pow2_pos(1074);
    lemma_pow2_pos(874);
    lemma_itself(s);
    lemma_itself(length);
    lemma_itself(width);
    lemma_product(s, length, 200, 200, s.value(), u, length.value(), u, 0, 0);
    let n = s.value() * length.value();
    lemma_quotient(s.times_spec(length), width, 400, 200, n, u * u, width.value(), u, 1, 0);
    let ohms = s.times_spec(length).over_spec(width);
    assert((u * u) * width.value() == (u * width.value()) * u) by (nonlinear_arith);
    assert(n >= 0 && u * width.value() > 0) by (nonlinear_arith)
        requires
            n == s.value() * length.value(),
            s.value() >= 0,
            length.value() >= 0,
            width.value() > 0,
            u > 0,
    ;
    lemma_reduced(ohms, n, u * width.value(), u, 2);
}

/// Whether a node of a list is held at a voltage.
pub open spec fn holds_at(nodes: Seq<Placed>, i: int, nominal: Number) -> bool {
    0 <= i < nodes.len() && nodes[i].held && equal(nodes[i].nominal, nominal)
}

/// Each voltage a rail has is held at one node, the first that has it: every node has a
/// held one at its own voltage no later than itself, and no two held nodes share one.
pub proof fn lemma_each_voltage_is_held_once(
    ext: &ExtractedNetlist,
    cls: &PowerNetClassification,
    n: nat,
)
    requires
        n <= ext.net_of_poly@.len(),
        forall|net: u32|
            (#[trigger] cls.rail(net)) matches Some(rail) ==> !rail.0.is_nan_spec(),
    ensures
        ({
            let nodes = nodes_to(ext, cls, n);
            &&& forall|j: int|
                0 <= j < nodes.len() ==> !(#[trigger] nodes[j]).nominal.is_nan_spec() && exists|
                    i: int,
                |
                    i <= j && #[trigger] holds_at(nodes, i, nodes[j].nominal)
            &&& forall|i: int, j: int|
                0 <= i < j < nodes.len() && (#[trigger] nodes[i]).held && (
                #[trigger] nodes[j]).held ==> !equal(nodes[i].nominal, nodes[j].nominal)
        }),
    decreases n,
{
    if n > 0 {
        let m = (n - 1) as nat;
        lemma_each_voltage_is_held_once(ext, cls, m);
        let before = nodes_to(ext, cls, m);
        let nodes = nodes_to(ext, cls, n);
        assert forall|j: int| 0 <= j < nodes.len() implies !(
        #[trigger] nodes[j]).nominal.is_nan_spec() && exists|i: int|
            i <= j && #[trigger] holds_at(nodes, i, nodes[j].nominal) by {
            if j < before.len() {
                assert(nodes[j] == before[j]);
                let i = choose|i: int|
                    i <= j && #[trigger] holds_at(before, i, before[j].nominal);
                assert(nodes[i] == before[i]);
                assert(holds_at(nodes, i, nodes[j].nominal));
            } else {
                let net = ext.net_of_poly@[n - 1];
                assert(cls.rail(net) is Some);
                if nodes[j].held {
                    assert(holds_at(nodes, j, nodes[j].nominal));
                } else {
                    let i = choose|i: int|
                        0 <= i < before.len() && (#[trigger] before[i]).held && equal(
                            before[i].nominal,
                            nodes[j].nominal,
                        );
                    assert(nodes[i] == before[i]);
                    assert(holds_at(nodes, i, nodes[j].nominal));
                }
            }
        }
        assert forall|i: int, j: int|
            0 <= i < j < nodes.len() && (#[trigger] nodes[i]).held && (
            #[trigger] nodes[j]).held implies !equal(nodes[i].nominal, nodes[j].nominal) by {
            assert(nodes[i] == before[i]);
            if j < before.len() {
                assert(nodes[j] == before[j]);
            }
        }
    }
}

/// A stretch of a box has its share of the box's resistance: as much of it as of the
/// box's length, to within the roundings.
pub proof fn lemma_stretch_has_its_share(b: Bbox, ohms: Number, from: int, to: int)
    requires
        b.wf(),
        ohms.grounded(),
        moderate(ohms, 400),
        0 < to - from <= 0x1000_0000_0000,
        span_of(b).0 < span_of(b).1,
    ensures
        approximates(
            share_of(b, ohms, from, to),
            ohms.value() * (to - from),
            unit() * (span_of(b).1 - span_of(b).0),
            4,
        ),
{
    let (u, n, d) = (unit(), to - from, span_of(b).1 - span_of(b).0);
    vstd::arithmetic::power2::lemma2_to64();
    vstd::arithmetic::power2::lemma2_to64_rest();
    lemma_pow2_pos(1074);
    lemma_itself(ohms);
    lemma_whole(n, 50);
    lemma_whole(d, 50);
    lemma_product(ohms, Number::of_spec(n), 400, 50, ohms.value(), u, n, 1, 0, 1);
    assert(u * 1 == u);
    lemma_quotient(
        ohms.times_spec(Number::of_spec(n)),
        Number::of_spec(d),
        450,
        50,
        ohms.value() * n,
        u,
        d,
        1,
        2,
        1,
    );
    let e = ohms.value() * n;
    assert(e * 1 == e);
}

/// The worst of a network is not below the resistance of any pair of its terminals, nor
/// below what is already known, and is one of them.
pub proof fn lemma_worst_is_not_below_any_pair(
    a: Seq<Seq<Number>>,
    terms: Seq<u32>,
    known: Number,
    n: nat,
    x: int,
    y: int,
)
    requires
        n <= terms.len(),
        0 <= x < n,
        x < y < terms.len(),
        !known.is_nan_spec(),
    ensures
        !worst_to(a, terms, known, n).is_nan_spec(),
        !worst_to(a, terms, known, n).lt(known),
        !worst_to(a, terms, known, n).lt(resistance(a, terms[x] as int, terms[y] as int)),
    decreases n,
{
    let m = (n - 1) as nat;
    let before = worst_to(a, terms, known, m);
    if m > 0 {
        lemma_worst_is_not_below_any_pair(
            a,
            terms,
            known,
            m,
            if x < m {
                x
            } else {
                m - 1
            },
            if x < m {
                y
            } else {
                m as int
            },
        );
    }
    lemma_worst_from(a, terms, before, m as int, terms.len());
    if x < m {
        let r = resistance(a, terms[x] as int, terms[y] as int);
        lemma_not_below(worst_to(a, terms, known, n), before, r);
    }
    lemma_not_below(worst_to(a, terms, known, n), before, known);
}

proof fn lemma_not_below(a: Number, b: Number, c: Number)
    requires
        !a.is_nan_spec(),
        !b.is_nan_spec(),
        !a.lt(b),
        !b.lt(c),
    ensures
        !a.lt(c),
{
}

proof fn lemma_worst_from(
    a: Seq<Seq<Number>>,
    terms: Seq<u32>,
    known: Number,
    x: int,
    n: nat,
)
    requires
        n <= terms.len(),
        0 <= x,
        !known.is_nan_spec(),
    ensures
        !worst_from(a, terms, known, x, n).is_nan_spec(),
        !worst_from(a, terms, known, x, n).lt(known),
        forall|y: int|
            x < y < n ==> !worst_from(a, terms, known, x, n).lt(
                #[trigger] resistance(a, terms[x] as int, terms[y] as int),
            ),
    decreases n,
{
    if n > x + 1 {
        let m = (n - 1) as nat;
        lemma_worst_from(a, terms, known, x, m);
        let before = worst_from(a, terms, known, x, m);
        let now = worst_from(a, terms, known, x, n);
        let r = resistance(a, terms[x] as int, terms[m as int] as int);
        assert(!now.lt(before) && !now.lt(r) && !now.is_nan_spec());
        lemma_not_below(now, before, known);
        assert forall|y: int| x < y < n implies !now.lt(
            #[trigger] resistance(a, terms[x] as int, terms[y] as int),
        ) by {
            if y < m {
                lemma_not_below(now, before, resistance(a, terms[x] as int, terms[y] as int));
            }
        }
    }
}

/// A metal polygon is reported exactly where its net carries a transistor's current and
/// either side of its box is below the least width.
pub proof fn lemma_thin_metal_is_reported(
    store: &GeometryStore,
    tech: &Technology,
    ext: &ExtractedNetlist,
    metal: Seq<(LayerId, u32)>,
    n: nat,
    i: int,
)
    requires
        0 <= i < n <= metal.len(),
    ensures
        ({
            let p = metal[i].1 as int;
            let b = store.bbox@[p];
            let net = ext.net_of_poly@[p];
            let found = narrow_to(store, tech, ext, metal, None, n);
            &&& net != OFF_NET && carries_current(ext, net) && (b.xhi - b.xlo < tech.em_min_width
                || b.yhi - b.ylo < tech.em_min_width) ==> found.contains(metal[i].1)
        }),
        forall|k: int|
            0 <= k < narrow_to(store, tech, ext, metal, None, n).len() ==> ({
                let p = #[trigger] narrow_to(store, tech, ext, metal, None, n)[k];
                let b = store.bbox@[p as int];
                &&& carries_current(ext, ext.net_of_poly@[p as int])
                &&& b.xhi - b.xlo < tech.em_min_width || b.yhi - b.ylo < tech.em_min_width
            }),
    decreases n,
{
    let m = (n - 1) as nat;
    let before = narrow_to(store, tech, ext, metal, None, m);
    let all = narrow_to(store, tech, ext, metal, None, n);
    if m > 0 {
        lemma_thin_metal_is_reported(
            store,
            tech,
            ext,
            metal,
            m,
            if i < m {
                i
            } else {
                m - 1
            },
        );
    }
    if before.contains(metal[i].1) {
        let k = before.index_of(metal[i].1);
        assert(all[k] == metal[i].1);
    }
    if all.len() > before.len() {
        assert(all[before.len() as int] == metal[m as int].1);
    }
    assert forall|k: int| 0 <= k < all.len() implies ({
        let p = #[trigger] all[k];
        let b = store.bbox@[p as int];
        &&& carries_current(ext, ext.net_of_poly@[p as int])
        &&& b.xhi - b.xlo < tech.em_min_width || b.yhi - b.ylo < tech.em_min_width
    }) by {
        if k < before.len() {
            assert(all[k] == before[k]);
        }
    }
}

/// Whether a terminal of a device is on a net that is no rail.
pub open spec fn leaves_the_rails(cls: &PowerNetClassification, net: u32) -> bool {
    !on_rail(cls, net) && net != OFF_NET
}

/// A clamp's pad side is off the rails where any terminal of it is, and its rail side is
/// a rail where any terminal of it is on one.
pub proof fn lemma_clamp_joins_a_pad_to_a_rail(cls: &PowerNetClassification, d: &MosDevice)
    ensures
        leaves_the_rails(cls, d.source) || leaves_the_rails(cls, d.drain) || leaves_the_rails(
            cls,
            d.gate,
        ) || leaves_the_rails(cls, d.body) ==> leaves_the_rails(cls, pad_side(cls, d)),
        on_rail(cls, d.source) || on_rail(cls, d.drain) || on_rail(cls, d.gate) || on_rail(
            cls,
            d.body,
        ) ==> on_rail(cls, rail_side(cls, d)),
{
}

/// A pad that is no rail's own has a path through every clamp on its net, and a rail's
/// pad has none.
pub proof fn lemma_pad_has_a_path_through_each_clamp(
    pads: Seq<IoPad>,
    clamps: Seq<EsdClamp>,
    n: nat,
    i: int,
    c: int,
)
    requires
        0 <= i < n <= pads.len(),
        0 <= c < clamps.len(),
    ensures
        pads[i].direction is Unknown && clamps[c].pad_net == pads[i].net_id ==> paths_to(
            pads,
            clamps,
            n,
        ).contains((i, c)),
        forall|k: int|
            0 <= k < paths_to(pads, clamps, n).len() ==> ({
                let (p, q) = #[trigger] paths_to(pads, clamps, n)[k];
                &&& !(pads[p].direction is Power) && !(pads[p].direction is Ground)
                &&& clamps[q].pad_net == pads[p].net_id
            }),
    decreases n,
{
    let m = (n - 1) as nat;
    let before = paths_to(pads, clamps, m);
    let own = paths_of(m as int, pads, clamps, clamps.len());
    let all = paths_to(pads, clamps, n);
    lemma_paths_of(m as int, pads, clamps, clamps.len(), c);
    if m > 0 {
        lemma_pad_has_a_path_through_each_clamp(
            pads,
            clamps,
            m,
            if i < m {
                i
            } else {
                m - 1
            },
            c,
        );
    }
    assert forall|k: int| 0 <= k < all.len() implies ({
        let (p, q) = #[trigger] all[k];
        &&& !(pads[p].direction is Power) && !(pads[p].direction is Ground)
        &&& clamps[q].pad_net == pads[p].net_id
    }) by {
        if k < before.len() {
            assert(all[k] == before[k]);
        } else {
            assert(all[k] == own[k - before.len()]);
        }
    }
    if pads[i].direction is Unknown && clamps[c].pad_net == pads[i].net_id {
        if i == m {
            let k = own.index_of((i, c));
            assert(all[before.len() + k] == (i, c));
        } else {
            let k = before.index_of((i, c));
            assert(all[k] == (i, c));
        }
    }
}

proof fn lemma_paths_of(pad: int, pads: Seq<IoPad>, clamps: Seq<EsdClamp>, n: nat, c: int)
    requires
        n <= clamps.len(),
        0 <= c < clamps.len(),
    ensures
        c < n && pads[pad].direction is Unknown && clamps[c].pad_net == pads[pad].net_id
            ==> paths_of(pad, pads, clamps, n).contains((pad, c)),
        forall|k: int|
            0 <= k < paths_of(pad, pads, clamps, n).len() ==> ({
                let (p, q) = #[trigger] paths_of(pad, pads, clamps, n)[k];
                &&& p == pad
                &&& !(pads[p].direction is Power) && !(pads[p].direction is Ground)
                &&& clamps[q].pad_net == pads[p].net_id
            }),
    decreases n,
{
    if n > 0 {
        let m = (n - 1) as nat;
        lemma_paths_of(pad, pads, clamps, m, c);
        let before = paths_of(pad, pads, clamps, m);
        let all = paths_of(pad, pads, clamps, n);
        if c < n && pads[pad].direction is Unknown && clamps[c].pad_net == pads[pad].net_id {
            if c == m {
                assert(all[before.len() as int] == (pad, c));
            } else {
                let k = before.index_of((pad, c));
                assert(all[k] == (pad, c));
            }
        }
    }
}

/// How ring-like a polygon is, is the square of twice its box's width and height
/// together over its area, to within the roundings: a longer way round, or less area, is
/// more ring-like.
pub proof fn lemma_ring_ratio(store: &GeometryStore, p: int)
    requires
        store.bbox@[p].wf(),
        store.bbox@[p].xlo < store.bbox@[p].xhi,
        2 <= doubled_area(store.ring(p)) <= pow2(90),
    ensures
        ({
            let b = store.bbox@[p];
            let around = 2 * ((b.xhi - b.xlo) + (b.yhi - b.ylo));
            approximates(
                ring_ratio(store, p),
                around * around,
                doubled_area(store.ring(p)) / 2,
                7,
            )
        }),
{
    let b = store.bbox@[p];
    let s = (b.xhi - b.xlo) + (b.yhi - b.ylo);
    let area = doubled_area(store.ring(p)) / 2;
    vstd::arithmetic::power2::lemma2_to64();
    vstd::arithmetic::power2::lemma2_to64_rest();
    lemma_pow2_pos(1074);
    let two = Number { bits: 0x4000_0000_0000_0000 };
    let u = unit();
    lemma_two();
    lemma_itself(two);
    assert(approximates(two, 2, 1, 0)) by {
        assert(2 * u == 2 * u && u == 1 * u);
        lemma_reduced(two, 2, 1, u, 0);
    }
    lemma_whole(s, 50);
    let n = Number::of_spec(s);
    lemma_product(two, n, 1, 50, 2, 1, s, 1, 0, 1);
    let around = two.times_spec(n);
    lemma_product(around, around, 51, 51, 2 * s, 1, 2 * s, 1, 2, 2);
    lemma_whole(area, 90);
    let square = (2 * s) * (2 * s);
    lemma_quotient(
        around.times_spec(around),
        Number::of_spec(area),
        102,
        90,
        square,
        1,
        area,
        1,
        5,
        1,
    );
    assert(square * 1 == square && 1 * area == area && 1 * 1 == 1);
}

proof fn lemma_two()
    ensures
        (Number { bits: 0x4000_0000_0000_0000 }).grounded(),
        (Number { bits: 0x4000_0000_0000_0000 }).value() == 2 * unit(),
        moderate(Number { bits: 0x4000_0000_0000_0000 }, 1),
{
    vstd::arithmetic::power2::lemma2_to64();
    vstd::arithmetic::power2::lemma2_to64_rest();
    let k: int = 0x4000_0000_0000_0000;
    assert(k / (HIDDEN as int) == 1024);
    assert(k % (HIDDEN as int) == 0);
    lemma_pow2_adds(52, 1023);
    lemma_pow2_adds(1, 1074);
    vstd::arithmetic::power2::lemma_pow2_strictly_increases(1073, 1075);
}

/// Every net looked at whose worst resistance is above the limit is reported, and no
/// other is.
pub proof fn lemma_resistive_net_is_reported(
    store: &GeometryStore,
    tech: &Technology,
    ext: &ExtractedNetlist,
    ohms: Seq<Number>,
    n: nat,
    i: int,
)
    requires
        0 <= i < n <= wired_nets(store, ext, gates(store, tech)).len(),
    ensures
        ({
            let all = gates(store, tech);
            let net = wired_nets(store, ext, all)[i];
            tech.p2p_r_limit_ohm.lt(net_ohms(store, ext, all, ohms, net)) ==> over_to(
                store,
                tech,
                ext,
                ohms,
                n,
            ).contains(net)
        }),
        forall|k: int|
            0 <= k < over_to(store, tech, ext, ohms, n).len() ==> tech.p2p_r_limit_ohm.lt(
                net_ohms(
                    store,
                    ext,
                    gates(store, tech),
                    ohms,
                    #[trigger] over_to(store, tech, ext, ohms, n)[k],
                ),
            ),
    decreases n,
{
    let m = (n - 1) as nat;
    let all = gates(store, tech);
    let before = over_to(store, tech, ext, ohms, m);
    let now = over_to(store, tech, ext, ohms, n);
    let last = wired_nets(store, ext, all)[m as int];
    if m > 0 {
        lemma_resistive_net_is_reported(
            store,
            tech,
            ext,
            ohms,
            m,
            if i < m {
                i
            } else {
                m - 1
            },
        );
    }
    let net = wired_nets(store, ext, all)[i];
    if now.len() > before.len() {
        assert(now[before.len() as int] == last);
    }
    if i < m && before.contains(net) {
        let k = before.index_of(net);
        assert(now[k] == net);
    }
    assert forall|k: int| 0 <= k < now.len() implies tech.p2p_r_limit_ohm.lt(
        net_ohms(store, ext, all, ohms, #[trigger] now[k]),
    ) by {
        if k < before.len() {
            assert(now[k] == before[k]);
        }
    }
}

/// Every metal polygon on no net, or on a net no device is on, is reported, and no other
/// is.
pub proof fn lemma_loose_metal_is_reported(
    ext: &ExtractedNetlist,
    metal: Seq<(LayerId, u32)>,
    n: nat,
    i: int,
)
    requires
        0 <= i < n <= metal.len(),
    ensures
        ({
            let net = ext.net_of_poly@[metal[i].1 as int];
            net == OFF_NET || !ext.device_net(net) ==> unconnected_to(ext, metal, n).contains(
                metal[i],
            )
        }),
        forall|k: int|
            0 <= k < unconnected_to(ext, metal, n).len() ==> ({
                let net = ext.net_of_poly@[(#[trigger] unconnected_to(ext, metal, n)[k]).1 as int];
                net == OFF_NET || !ext.device_net(net)
            }),
    decreases n,
{
    let m = (n - 1) as nat;
    let before = unconnected_to(ext, metal, m);
    let now = unconnected_to(ext, metal, n);
    if m > 0 {
        lemma_loose_metal_is_reported(
            ext,
            metal,
            m,
            if i < m {
                i
            } else {
                m - 1
            },
        );
    }
    if now.len() > before.len() {
        assert(now[before.len() as int] == metal[m as int]);
    }
    if i < m && before.contains(metal[i]) {
        let k = before.index_of(metal[i]);
        assert(now[k] == metal[i]);
    }
    assert forall|k: int| 0 <= k < now.len() implies ({
        let net = ext.net_of_poly@[(#[trigger] now[k]).1 as int];
        net == OFF_NET || !ext.device_net(net)
    }) by {
        if k < before.len() {
            assert(now[k] == before[k]);
        }
    }
}

proof fn lemma_row_listed(cls: &PowerNetClassification, net: u32, n: nat)
    ensures
        n <= cls.ground_nets@.len() ==> (cls.ground_row(net, n) is Some <==> exists|k: int|
            0 <= k < n && (#[trigger] cls.ground_nets@[k]).0 == net),
        n <= cls.power_nets@.len() ==> (cls.power_row(net, n) is Some <==> exists|k: int|
            0 <= k < n && (#[trigger] cls.power_nets@[k]).0 == net),
        cls.ground_row(net, n) matches Some(k) ==> 0 <= k < n && cls.ground_nets@[k].0 == net,
        cls.power_row(net, n) matches Some(k) ==> 0 <= k < n && cls.power_nets@[k].0 == net,
    decreases n,
{
    if n > 0 {
        lemma_row_listed(cls, net, (n - 1) as nat);
    }
}

/// A net listed as a ground is a rail at zero volts, whatever else it is listed as; a net
/// listed as power alone is one at a voltage it is listed at; a net listed as neither is
/// no rail.
pub proof fn lemma_rail_voltage(cls: &PowerNetClassification, net: u32)
    ensures
        (exists|k: int|
            0 <= k < cls.ground_nets@.len() && (#[trigger] cls.ground_nets@[k]).0 == net)
            ==> cls.rail(net) is Some && (cls.rail(net)->0).0 == (Number { bits: 0 }),
        !cls.grounds(net) && (cls.rail(net) matches Some(rail)) ==> exists|k: int|
            0 <= k < cls.power_nets@.len() && (#[trigger] cls.power_nets@[k]).0 == net
                && (cls.rail(net)->0).0 == cls.power_nets@[k].2,
        cls.rail(net) is Some <==> cls.grounds(net) || cls.powers(net),
        cls.grounds(net) <==> exists|k: int|
            0 <= k < cls.ground_nets@.len() && (#[trigger] cls.ground_nets@[k]).0 == net,
        cls.powers(net) <==> exists|k: int|
            0 <= k < cls.power_nets@.len() && (#[trigger] cls.power_nets@[k]).0 == net,
{
    lemma_row_listed(cls, net, cls.ground_nets@.len());
    lemma_row_listed(cls, net, cls.power_nets@.len());
}

/// Where two boxes meet, the place one is tapped at lies in both of them along its own
/// long axis.
pub proof fn lemma_crossing_is_in_both_boxes(host: Bbox, other: Bbox)
    requires
        host.wf(),
        other.wf(),
        host.meets(other),
    ensures
        ({
            let t = place_of(host, other);
            let wide = host.xhi - host.xlo >= host.yhi - host.ylo;
            &&& wide ==> host.xlo <= t <= host.xhi && other.xlo <= t <= other.xhi
            &&& !wide ==> host.ylo <= t <= host.yhi && other.ylo <= t <= other.yhi
        }),
{
}

/// Every polygon that meets a well and is on a net taps it, and nothing else does.
pub proof fn lemma_tap_meets_its_well(
    store: &GeometryStore,
    tech: &Technology,
    ext: &ExtractedNetlist,
    well: Bbox,
    from: int,
    n: nat,
    i: int,
)
    requires
        0 <= i < n,
    ensures
        ({
            let (b, net) = (store.bbox@[from + i], ext.net_of_poly@[from + i]);
            well.xlo <= b.xhi && b.xlo <= well.xhi && well.ylo <= b.yhi && b.ylo <= well.yhi && net
                != OFF_NET ==> taps_among(store, tech, ext, well, from, n).contains(
                tap_of(tech, well, b, net),
            )
        }),
        (forall|k: int|
            0 <= k < n ==> !well.meets(#[trigger] store.bbox@[from + k]) || ext.net_of_poly@[from
                + k] == OFF_NET) ==> taps_among(store, tech, ext, well, from, n).len() == 0,
    decreases n,
{
    let m = (n - 1) as nat;
    let before = taps_among(store, tech, ext, well, from, m);
    let now = taps_among(store, tech, ext, well, from, n);
    if m > 0 {
        lemma_tap_meets_its_well(
            store,
            tech,
            ext,
            well,
            from,
            m,
            if i < m {
                i
            } else {
                m - 1
            },
        );
    }
    let p = from + m;
    if now.len() > before.len() {
        assert(now[before.len() as int] == tap_of(
            tech,
            well,
            store.bbox@[p],
            ext.net_of_poly@[p],
        ));
    }
    let own = tap_of(tech, well, store.bbox@[from + i], ext.net_of_poly@[from + i]);
    if i < m && before.contains(own) {
        let k = before.index_of(own);
        assert(now[k] == own);
    }
}

/// Every two nodes of one net that overlap on one layer are joined by metal.
pub proof fn lemma_overlapping_nodes_are_joined(
    store: &GeometryStore,
    tech: &Technology,
    ext: &ExtractedNetlist,
    nodes: Seq<Placed>,
    n: nat,
    i: int,
    j: int,
)
    requires
        0 <= i < j < nodes.len(),
        i < n <= nodes.len(),
        ext.net_of_poly@[nodes[i].poly] == ext.net_of_poly@[nodes[j].poly],
        store.layer@[nodes[i].poly] == store.layer@[nodes[j].poly],
        store.bbox@[nodes[i].poly].meets(store.bbox@[nodes[j].poly]),
    ensures
        metal_to(store, tech, ext, nodes, n).contains(
            metal_edge(
                tech,
                store.layer@[nodes[i].poly],
                i,
                j,
                store.bbox@[nodes[i].poly],
                store.bbox@[nodes[j].poly],
            ),
        ),
    decreases n,
{
    let m = (n - 1) as nat;
    let edge = metal_edge(
        tech,
        store.layer@[nodes[i].poly],
        i,
        j,
        store.bbox@[nodes[i].poly],
        store.bbox@[nodes[j].poly],
    );
    let before = metal_to(store, tech, ext, nodes, m);
    let own = metal_from(store, tech, ext, nodes, m as int, nodes.len());
    let now = metal_to(store, tech, ext, nodes, n);
    if i == m {
        lemma_joined_from(store, tech, ext, nodes, i, nodes.len(), j);
        let k = own.index_of(edge);
        assert(now[before.len() + k] == edge);
    } else {
        lemma_overlapping_nodes_are_joined(store, tech, ext, nodes, m, i, j);
        let k = before.index_of(edge);
        assert(now[k] == edge);
    }
}

proof fn lemma_joined_from(
    store: &GeometryStore,
    tech: &Technology,
    ext: &ExtractedNetlist,
    nodes: Seq<Placed>,
    i: int,
    n: nat,
    j: int,
)
    requires
        0 <= i < j < n <= nodes.len(),
        ext.net_of_poly@[nodes[i].poly] == ext.net_of_poly@[nodes[j].poly],
        store.layer@[nodes[i].poly] == store.layer@[nodes[j].poly],
        store.bbox@[nodes[i].poly].meets(store.bbox@[nodes[j].poly]),
    ensures
        metal_from(store, tech, ext, nodes, i, n).contains(
            metal_edge(
                tech,
                store.layer@[nodes[i].poly],
                i,
                j,
                store.bbox@[nodes[i].poly],
                store.bbox@[nodes[j].poly],
            ),
        ),
    decreases n,
{
    let m = (n - 1) as nat;
    let before = metal_from(store, tech, ext, nodes, i, m);
    let now = metal_from(store, tech, ext, nodes, i, n);
    let edge = metal_edge(
        tech,
        store.layer@[nodes[i].poly],
        i,
        j,
        store.bbox@[nodes[i].poly],
        store.bbox@[nodes[j].poly],
    );
    if j == m {
        assert(now[before.len() as int] == edge);
    } else {
        lemma_joined_from(store, tech, ext, nodes, i, m, j);
        let k = before.index_of(edge);
        assert(now[k] == edge);
    }
}

/// A polygon is a pad exactly where its box is at least as large as a pad and it is on a
/// net.
pub proof fn lemma_pads_are_large(
    store: &GeometryStore,
    ext: &ExtractedNetlist,
    least: int,
    from: int,
    n: nat,
    i: int,
)
    requires
        0 <= i < n,
    ensures
        ({
            let b = store.bbox@[from + i];
            (b.xhi - b.xlo) * (b.yhi - b.ylo) >= least && ext.net_of_poly@[from + i] != OFF_NET
                ==> pads_among(store, ext, least, from, n).contains(from + i)
        }),
        forall|k: int|
            0 <= k < pads_among(store, ext, least, from, n).len() ==> ({
                let p = #[trigger] pads_among(store, ext, least, from, n)[k];
                store.bbox@[p].spec_area() >= least && ext.net_of_poly@[p] != OFF_NET
            }),
    decreases n,
{
    let m = (n - 1) as nat;
    let before = pads_among(store, ext, least, from, m);
    let now = pads_among(store, ext, least, from, n);
    if m > 0 {
        lemma_pads_are_large(
            store,
            ext,
            least,
            from,
            m,
            if i < m {
                i
            } else {
                m - 1
            },
        );
    }
    if now.len() > before.len() {
        assert(now[before.len() as int] == from + m);
    }
    if i < m && before.contains(from + i) {
        let k = before.index_of(from + i);
        assert(now[k] == from + i);
    }
    assert forall|k: int| 0 <= k < now.len() implies ({
        let p = #[trigger] now[k];
        store.bbox@[p].spec_area() >= least && ext.net_of_poly@[p] != OFF_NET
    }) by {
        if k < before.len() {
            assert(now[k] == before[k]);
        }
    }
}

/// Every name that starts as a supply's does is a rail's, every name that starts as a
/// ground's does is a ground's, and no name is both a ground's and at a voltage.
pub proof fn lemma_names_tell_rails(upper: Seq<char>, globals: Seq<String>, name: Seq<char>)
    requires
        upper == raised(name),
    ensures
        begins(upper, "VDD"@) ==> volts_named(upper) is Some && !ground_named(upper)
            && rail_named(globals, name) is Power,
        begins(upper, "VSS"@) ==> ground_named(upper) && rail_named(globals, name) is Ground,
        ground_named(upper) ==> rail_named(globals, name) is Ground,
        !ground_named(upper) && volts_named(upper) is None ==> (rail_named(globals, name) is Ground
            <==> exists|i: int| 0 <= i < globals.len() && (#[trigger] globals[i])@ == name),
{
    reveal_strlit("VDD");
    reveal_strlit("VSS");
    reveal_strlit("GND");
    reveal_strlit("VGND");
    reveal_strlit("GROUND");
    reveal_strlit("DGND");
    reveal_strlit("AGND");
    if begins(upper, "VDD"@) {
        assert("VDD"@[1] == 'D');
        assert(upper[0] == 'V' && upper[1] == 'D') by {
            assert(stands_at(upper, "VDD"@, 0));
            assert(upper.subrange(0, 3)[0] == "VDD"@[0]);
            assert(upper.subrange(0, 3)[1] == "VDD"@[1]);
        }
        if begins(upper, "VSS"@) {
            assert(upper.subrange(0, 3)[1] == "VSS"@[1]);
        }
    }
}

/// A polygon guards exactly where its ring ratio is above fifty and its box holds another
/// polygon that is a transistor's gate.
pub proof fn lemma_guard_rings_ring_devices(
    store: &GeometryStore,
    tech: &Technology,
    ext: &ExtractedNetlist,
    p: int,
)
    ensures
        guards(store, tech, ext, p) <==> Number::of_spec(50).lt(ring_ratio(store, p)) && exists|
            q: int,
        |
            0 <= q < store.polys() && q != p && is_gate(store, tech, ext, q) && {
                let (a, b) = (store.bbox@[p], #[trigger] store.bbox@[q]);
                a.xlo <= b.xlo && b.xhi <= a.xhi && a.ylo <= b.ylo && b.yhi <= a.yhi
            },
{
}

/// A pad on a power net is a power pad even where the net is a ground too, and a pad on
/// neither is unknown.
pub proof fn lemma_pad_direction(cls: &PowerNetClassification, net: u32)
    ensures
        direction_of(cls, net) is Power <==> exists|k: int|
            0 <= k < cls.power_nets@.len() && (#[trigger] cls.power_nets@[k]).0 == net,
        direction_of(cls, net) is Ground ==> exists|k: int|
            0 <= k < cls.ground_nets@.len() && (#[trigger] cls.ground_nets@[k]).0 == net,
        direction_of(cls, net) is Unknown <==> (forall|k: int|
            0 <= k < cls.power_nets@.len() ==> (#[trigger] cls.power_nets@[k]).0 != net) && forall|
            k: int,
        |
            0 <= k < cls.ground_nets@.len() ==> (#[trigger] cls.ground_nets@[k]).0 != net,
{
    lemma_rail_voltage(cls, net);
}

proof fn lemma_ending(list: Seq<u32>, i: int, n: nat, ohms: Number, j: int)
    requires
        0 <= i < j < n <= list.len(),
    ensures
        pairs_ending(list, i, n, ohms).contains(
            (Joined { from: list[i] as int, to: list[j] as int, ohms, size: None }),
        ),
    decreases n,
{
    let m = (n - 1) as nat;
    let before = pairs_ending(list, i, m, ohms);
    let now = pairs_ending(list, i, n, ohms);
    let one = Joined { from: list[i] as int, to: list[j] as int, ohms, size: None };
    if j == m {
        assert(now[before.len() as int] == one);
    } else {
        lemma_ending(list, i, m, ohms, j);
        let k = before.index_of(one);
        assert(now[k] == one);
    }
}

/// A cut joins every two of the nodes it touches, at the cut's own resistance.
pub proof fn lemma_cut_joins_what_it_touches(list: Seq<u32>, n: nat, ohms: Number, i: int, j: int)
    requires
        0 <= i < j < list.len(),
        i < n <= list.len(),
    ensures
        pairs_of(list, n, ohms).contains(
            (Joined { from: list[i] as int, to: list[j] as int, ohms, size: None }),
        ),
    decreases n,
{
    let m = (n - 1) as nat;
    let before = pairs_of(list, m, ohms);
    let own = pairs_ending(list, m as int, list.len(), ohms);
    let now = pairs_of(list, n, ohms);
    let one = Joined { from: list[i] as int, to: list[j] as int, ohms, size: None };
    if i == m {
        lemma_ending(list, i, list.len(), ohms, j);
        let k = own.index_of(one);
        assert(now[before.len() + k] == one);
    } else {
        lemma_cut_joins_what_it_touches(list, m, ohms, i, j);
        let k = before.index_of(one);
        assert(now[k] == one);
    }
}

/// Each named net is listed as what its name says: a rail at its voltage, or a ground.
pub proof fn lemma_named_nets_are_listed(names: &NetNames, globals: Seq<String>, n: nat, i: int)
    requires
        0 <= i < n <= names.net@.len(),
    ensures
        rail_named(globals, names.name@[i]@) matches Rail::Power(v) ==> power_to(
            names,
            globals,
            n,
        ).contains((names.net@[i], names.name@[i]@, v)),
        rail_named(globals, names.name@[i]@) is Ground ==> ground_to(names, globals, n).contains(
            (names.net@[i], names.name@[i]@),
        ),
        (forall|k: int|
            0 <= k < n ==> rail_named(globals, (#[trigger] names.name@[k])@) is Signal)
            ==> power_to(names, globals, n).len() == 0 && ground_to(names, globals, n).len() == 0,
    decreases n,
{
    let m = (n - 1) as nat;
    if m > 0 {
        lemma_named_nets_are_listed(
            names,
            globals,
            m,
            if i < m {
                i
            } else {
                m - 1
            },
        );
    }
    let (p, q) = (power_to(names, globals, m), power_to(names, globals, n));
    let (g, h) = (ground_to(names, globals, m), ground_to(names, globals, n));
    match rail_named(globals, names.name@[i]@) {
        Rail::Power(v) => {
            let one = (names.net@[i], names.name@[i]@, v);
            if i == m {
                assert(q[p.len() as int] == one);
            } else {
                let k = p.index_of(one);
                assert(q[k] == one);
            }
        },
        Rail::Ground => {
            let one = (names.net@[i], names.name@[i]@);
            if i == m {
                assert(h[g.len() as int] == one);
            } else {
                let k = g.index_of(one);
                assert(h[k] == one);
            }
        },
        Rail::Signal => {},
    }
    assert(n > 0 ==> names.name@[m as int]@ == names.name@[n - 1]@);
}

/// A layer whose name holds a deep well's mark is a deep well's, whatever else it holds;
/// one that holds an n-well's and no deep one's is an n-well's.
pub proof fn lemma_deep_wells_come_first(lower: Seq<char>)
    ensures
        holds(lower, "dnw"@) ==> well_named(lower) == Some(WellType::DeepNwell),
        holds(lower, "nwell"@) ==> well_named(lower) == Some(WellType::Nwell) || well_named(lower)
            == Some(WellType::DeepNwell),
        holds(lower, "pwell"@) ==> well_named(lower) is Some,
        well_named(lower) == Some(WellType::Pwell) ==> !holds(lower, "nw"@) && !holds(
            lower,
            "nwell"@,
        ) && !holds(lower, "dnw"@),
{
}

/// A via has the resistance its layer states, or one ohm where the layer states none, and
/// never less than the least an edge can have.
pub proof fn lemma_via_has_its_stated_resistance(tech: &Technology, layer: LayerId)
    requires
        layer.0 < tech.electrics@.len(),
    ensures
        tech.electrics@[layer.0 as int] is None ==> via_ohms(tech, layer) == (Number {
            bits: ONE,
        }),
        tech.electrics@[layer.0 as int] matches Some(e) ==> {
            let least = Number { bits: LEAST_OHMS };
            &&& least.le(e.via_res_ohm) ==> via_ohms(tech, layer) == e.via_res_ohm
            &&& !least.le(e.via_res_ohm) ==> via_ohms(tech, layer) == least
        },
{
    lemma_magnitude_increases(LEAST_OHMS as int, ONE as int);
}

/// A pad is at least a hundred times as large as the middle one of the boxes, taken from
/// the smallest to the largest in whatever way: as many are no larger than it as come
/// before the middle, and the rest are no smaller.
pub proof fn lemma_pad_is_a_hundred_middle_boxes(areas: Seq<i128>, sorted: Seq<i128>)
    requires
        areas.len() > 0,
        sorted.to_multiset() == areas.to_multiset(),
        forall|i: int, j: int|
            0 <= i < j < sorted.len() ==> #[trigger] sorted[i] <= #[trigger] sorted[j],
    ensures
        ({
            let middle = sorted[areas.len() as int / 2];
            &&& middle > 0 ==> pad_area(areas) == 100 * middle
            &&& middle <= 0 ==> pad_area(areas) == 1
        }),
{
    assert(climbing(sorted));
    lemma_in_order(areas, sorted);
}

} // verus!
