//! What the rules over terminals and nets condemn, in terms of the terminals.
use crate::design::{kept, lemma_kept, net_violations, Design};
use crate::enclosing::lies_in;
use crate::facts::{attached, has_role, lemma_connected, NetFacts, RoleMask};
use crate::geom::Point;
use crate::model::{LayerId, LayerRef, NetId, PolyId, StrId, TerminalRole, NO_NET};
use crate::report::{Measurement, Severity};
use crate::ring::doubled_area;
use crate::rules::supply::{
    bridge_violation, carries_both, hard_of, held, is_far, joined_to_first, protected, touches, unprotected,
};
use crate::rules::topology::{
    driver_of, drivers, drives, gate_of, is_drain, only_gates, overdriven, reaches_device, unconnected_rows, untied_wells, well_region,
};
use crate::store::{ident, DeviceTable, GeometryStore};
use vstd::prelude::*;

verus! {

/// Whether the classification of the nets is that of the devices' terminals.
pub open spec fn classifies(design: Design, facts: &NetFacts) -> bool {
    &&& design.devices.terminal_role@.len() == design.devices.terminal_net@.len()
    &&& facts.role@.len() == design.nets.nets()
    &&& forall|net: int, role: TerminalRole|
        0 <= net < facts.role@.len() ==> (#[trigger] has_role(facts, net, role) <==> attached(
            design.devices,
            net,
            role,
            design.devices.terminal_net@.len() as int,
        ))
}

/// Whether terminal `t` of the devices is on a net.
pub open spec fn lands(design: Design, t: int, net: int) -> bool {
    0 <= t < design.devices.terminal_net@.len() && design.devices.terminal_net@[t].0 == net
}

proof fn lemma_masks(m: u8)
    by (bit_vector)
    ensures
        m == 0x01 <==> m & 0x01 != 0 && m & 0x02 == 0 && m & 0x04 == 0 && m & 0x08 == 0 && m & 0x10
            == 0 && m & 0x20 == 0 && m & 0x40 == 0 && m & 0x80 == 0,
{
}

/// A gate floats where terminals land on its net and every one of them is a gate; it is
/// held where a gate and a source land on its net and no drain does.
pub proof fn lemma_gates_float_or_are_held(design: Design, facts: &NetFacts, net: int)
    requires
        classifies(design, facts),
        0 <= net < facts.role@.len(),
    ensures
        only_gates(facts)(net) <==> (exists|t: int| #[trigger] lands(design, t, net)) && forall|
            t: int,
        | #[trigger]
            lands(design, t, net) ==> design.devices.terminal_role@[t] == TerminalRole::Gate,
        held(facts)(net) <==> (exists|t: int| #[trigger]
            lands(design, t, net) && design.devices.terminal_role@[t] == TerminalRole::Gate) && (
        exists|t: int| #[trigger]
            lands(design, t, net) && design.devices.terminal_role@[t] == TerminalRole::Source)
            && forall|t: int| #[trigger]
            lands(design, t, net) ==> design.devices.terminal_role@[t] != TerminalRole::Drain,
{
    let d = design.devices;
    let all = d.terminal_net@.len() as int;
    let m = facts.role@[net].0;
    lemma_masks(m);
    assert(has_role(facts, net, TerminalRole::Gate) <==> m & 0x01 != 0);
    assert(has_role(facts, net, TerminalRole::Source) <==> m & RoleMask::SOURCE != 0);
    assert(has_role(facts, net, TerminalRole::Drain) <==> m & RoleMask::DRAIN != 0);
    assert(has_role(facts, net, TerminalRole::Bulk) <==> m & RoleMask::BULK != 0);
    assert(has_role(facts, net, TerminalRole::Base) <==> m & RoleMask::BASE != 0);
    assert(has_role(facts, net, TerminalRole::Emitter) <==> m & RoleMask::EMITTER != 0);
    assert(has_role(facts, net, TerminalRole::Collector) <==> m & RoleMask::COLLECTOR != 0);
    assert forall|t: int| #[trigger] lands(design, t, net) implies has_role(
        facts,
        net,
        d.terminal_role@[t],
    ) by {
        assert(d.terminal_net@[t].0 == net);
        assert(attached(d, net, d.terminal_role@[t], all));
    }
    assert forall|role: TerminalRole| #[trigger] has_role(facts, net, role) implies exists|t: int|
        #[trigger] lands(design, t, net) && RoleMask::bit(d.terminal_role@[t]) == RoleMask::bit(
            role,
        ) by {
        assert(attached(d, net, role, all));
        let t = choose|t: int|
            0 <= t < all && (#[trigger] d.terminal_net@[t]).0 == net && RoleMask::bit(
                d.terminal_role@[t],
            ) == RoleMask::bit(role);
        assert(lands(design, t, net));
    }
    if only_gates(facts)(net) {
        assert(has_role(facts, net, TerminalRole::Gate));
        assert forall|t: int| #[trigger] lands(design, t, net) implies d.terminal_role@[t]
            == TerminalRole::Gate by {
            assert(has_role(facts, net, d.terminal_role@[t]));
        }
    } else if (exists|t: int| #[trigger] lands(design, t, net)) && forall|t: int| #[trigger]
        lands(design, t, net) ==> d.terminal_role@[t] == TerminalRole::Gate {
        let t = choose|t: int| #[trigger] lands(design, t, net);
        assert(has_role(facts, net, d.terminal_role@[t]));
        lemma_absent(design, facts, net);
    }
}

/// On a net that only gates land on, no other role is.
proof fn lemma_absent(design: Design, facts: &NetFacts, net: int)
    requires
        classifies(design, facts),
        0 <= net < facts.role@.len(),
        forall|t: int| #[trigger]
            lands(design, t, net) ==> design.devices.terminal_role@[t] == TerminalRole::Gate,
    ensures
        ({
            let m = facts.role@[net].0;
            &&& m & 0x02 == 0 && m & 0x04 == 0 && m & 0x08 == 0 && m & 0x10 == 0
            &&& m & 0x20 == 0 && m & 0x40 == 0 && m & 0x80 == 0
        }),
{
    let d = design.devices;
    let all = d.terminal_net@.len() as int;
    assert forall|role: TerminalRole| RoleMask::bit(role) != 0x01 implies !#[trigger] has_role(
        facts,
        net,
        role,
    ) by {
        if has_role(facts, net, role) {
            let t = choose|t: int|
                0 <= t < all && (#[trigger] d.terminal_net@[t]).0 == net && RoleMask::bit(
                    d.terminal_role@[t],
                ) == RoleMask::bit(role);
            assert(lands(design, t, net));
        }
    }
    assert(!has_role(facts, net, TerminalRole::Source));
    assert(!has_role(facts, net, TerminalRole::Drain));
    assert(!has_role(facts, net, TerminalRole::Bulk));
    assert(!has_role(facts, net, TerminalRole::Base));
    assert(!has_role(facts, net, TerminalRole::Emitter));
    assert(!has_role(facts, net, TerminalRole::Collector));
    assert(!has_role(facts, net, TerminalRole::Pin(0)));
}

/// A polygon is connected exactly where a terminal of some device lands on its net.
pub proof fn lemma_connected_polygon(design: Design, facts: &NetFacts, p: int)
    requires
        classifies(design, facts),
    ensures
        reaches_device(design, facts, p) <==> design.nets.net_of@[p].0 < design.nets.nets()
            && exists|t: int| #[trigger] lands(design, t, design.nets.net_of@[p].0 as int),
{
    let net = design.nets.net_of@[p].0 as int;
    if net < design.nets.nets() {
        lemma_connected(design.nets, design.devices, facts, net);
        if reaches_device(design, facts, p) {
            let t = choose|t: int|
                0 <= t < design.devices.terminal_net@.len() && (
                #[trigger] design.devices.terminal_net@[t]).0 == net;
            assert(lands(design, t, net));
        } else if exists|t: int| #[trigger] lands(design, t, net) {
            let t = choose|t: int| #[trigger] lands(design, t, net);
            assert(design.devices.terminal_net@[t].0 == net);
        }
    }
}

/// A net whose predicate holds, and that has a polygon, is reported at its first one.
proof fn lemma_net_listed(
    design: Design,
    nets: Seq<u32>,
    rule: StrId,
    severity: Severity,
    measured: Measurement,
    limit: Measurement,
    n: u32,
) -> (at: int)
    requires
        nets.contains(n),
        design.nets.members(n as int).len() > 0,
    ensures
        ({
            let found = net_violations(design, nets, rule, severity, measured, limit);
            0 <= at < found.len() && found[at].shapes.0 == design.nets.members(n as int)[0]
                && found[at].measured == measured && found[at].limit == limit && found[at].rule
                == rule
        }),
    decreases nets.len(),
{
    let before = nets.drop_last();
    let earlier = net_violations(design, before, rule, severity, measured, limit);
    if nets.last() == n {
        earlier.len() as int
    } else {
        let i = nets.index_of(n);
        assert(before[i] == n);
        lemma_net_listed(design, before, rule, severity, measured, limit, n)
    }
}

proof fn lemma_keeps(n: nat, keep: spec_fn(int) -> bool, k: u32)
    requires
        n <= 0x1_0000_0000,
        k < n,
        keep(k as int),
    ensures
        kept(n, keep).contains(k),
    decreases n,
{
    let m = (n - 1) as nat;
    if k == m {
        assert(kept(n, keep)[kept(m, keep).len() as int] == k);
    } else {
        lemma_keeps(m, keep, k);
        let i = kept(m, keep).index_of(k);
        assert(kept(n, keep)[i] == k);
    }
}

/// A rule that condemns the nets with a property reports each of them that has a
/// polygon, at its first one, and reports no other.
pub proof fn lemma_each_condemned_net_is_reported(
    design: Design,
    count: nat,
    keep: spec_fn(int) -> bool,
    rule: StrId,
    severity: Severity,
    measured: Measurement,
    limit: Measurement,
    n: u32,
) -> (at: int)
    requires
        count <= 0x1_0000_0000,
        n < count,
        design.nets.members(n as int).len() > 0,
    ensures
        ({
            let found = net_violations(
                design,
                kept(count, keep),
                rule,
                severity,
                measured,
                limit,
            );
            &&& keep(n as int) ==> 0 <= at < found.len() && found[at].shapes.0
                == design.nets.members(n as int)[0] && found[at].measured == measured
                && found[at].limit == limit && found[at].rule == rule
            &&& (forall|k: int| 0 <= k < count ==> !#[trigger] keep(k)) ==> found.len() == 0
        }),
{
    lemma_kept(count, keep);
    if forall|k: int| 0 <= k < count ==> !#[trigger] keep(k) {
        assert(kept(count, keep).len() == 0) by {
            if kept(count, keep).len() > 0 {
                assert(keep(kept(count, keep)[0] as int));
            }
        }
        assert(kept(count, keep) =~= Seq::empty());
    }
    if keep(n as int) {
        lemma_keeps(count, keep, n);
        lemma_net_listed(design, kept(count, keep), rule, severity, measured, limit, n)
    } else {
        0
    }
}

/// Whether terminal `t` is one of device `d`'s, and is on net `n`.
pub open spec fn holds_net(devices: &DeviceTable, d: int, t: int, n: int) -> bool {
    &&& 0 <= d < devices.devices()
    &&& devices.term_lo(d) <= t < devices.term_hi(d)
    &&& devices.terminal_net@[t].0 == n
}

/// A pad net is unprotected exactly where a pad polygon is on it and no device of a
/// listed model has a terminal on it.
pub proof fn lemma_pad_without_a_clamp(
    design: Design,
    pad: LayerId,
    clamps: Seq<StrId>,
    n: int,
)
    requires
        design.store.wf(),
        pad.0 < design.store.layers(),
        0 <= n < NO_NET,
    ensures
        unprotected(design, pad, clamps)(n) <==> (exists|p: int| #[trigger]
            is_drawn(design, pad, n, p)) && forall|d: int, t: int| #[trigger]
            holds_net(design.devices, d, t, n) ==> !clamps.contains(design.devices.model@[d]),
{
    lemma_touches(design, pad, n);
    let net = NetId(n as u32);
    assert forall|d: int, t: int| #[trigger] holds_net(design.devices, d, t, n) implies (
    unprotected(design, pad, clamps)(n) ==> !clamps.contains(design.devices.model@[d])) by {
        assert(design.devices.terminal_net@[t] == net);
        assert(design.devices.on_net(d, net));
    }
    if protected(design, clamps, n) {
        let d = choose|d: int|
            0 <= d < design.devices.devices() && design.devices.on_net(d, net)
                && clamps.contains(#[trigger] design.devices.model@[d]);
        let t = choose|t: int|
            design.devices.term_lo(d) <= t < design.devices.term_hi(d)
                && #[trigger] design.devices.terminal_net@[t] == net;
        assert(holds_net(design.devices, d, t, n));
    }
}

/// Whether polygon `p` is drawn on a layer and is on net `n`.
pub open spec fn is_drawn(design: Design, layer: LayerId, n: int, p: int) -> bool {
    &&& 0 <= p < design.store.polys()
    &&& design.store.layer@[p] == layer
    &&& design.nets.net_of@[p].0 == n
}

/// The rows before a layer's start are those of the layers before it.
proof fn lemma_row_of(store: &GeometryStore, p: int, rows: int) -> (l: int)
    requires
        store.wf(),
        0 <= rows <= store.layers(),
        0 <= p < store.layer_start@[rows],
    ensures
        0 <= l < rows,
        store.row_lo(l) <= p < store.row_hi(l),
    decreases rows,
{
    if p >= store.layer_start@[rows - 1] {
        rows - 1
    } else {
        lemma_row_of(store, p, rows - 1)
    }
}

/// A layer touches a net exactly where a polygon drawn on it is on the net.
pub proof fn lemma_touches(design: Design, layer: LayerId, n: int)
    requires
        design.store.wf(),
        layer.0 < design.store.layers(),
    ensures
        touches(design, layer, n) <==> exists|p: int| #[trigger] is_drawn(design, layer, n, p),
{
    let l = layer.0 as int;
    if touches(design, layer, n) {
        let p = choose|p: int|
            design.store.row_lo(l) <= p < design.store.row_hi(l)
                && #[trigger] design.nets.net_of@[p].0 == n;
        assert(ident(l) == l);
        assert(design.store.layer@[p].0 == ident(l));
        assert(design.store.row_hi(l) <= design.store.polys());
        assert(is_drawn(design, layer, n, p));
    }
    if exists|p: int| #[trigger] is_drawn(design, layer, n, p) {
        let p = choose|p: int| #[trigger] is_drawn(design, layer, n, p);
        let k = lemma_row_of(design.store, p, design.store.layers());
        assert(ident(k) == k);
        assert(design.store.layer@[p].0 == ident(k));
        assert(design.nets.net_of@[p].0 == n);
    }
}

/// A net is shorted exactly where a polygon drawn on each of the two tap layers is on it.
pub proof fn lemma_short_joins_both_taps(design: Design, a: LayerId, b: LayerId, n: int)
    requires
        design.store.wf(),
        a.0 < design.store.layers(),
        b.0 < design.store.layers(),
    ensures
        carries_both(design, a, b)(n) <==> (exists|p: int| #[trigger] is_drawn(design, a, n, p))
            && exists|p: int| #[trigger] is_drawn(design, b, n, p),
{
    lemma_touches(design, a, n);
    lemma_touches(design, b, n);
}

/// The conductors of a list are its polygons that are on no soft layer.
pub proof fn lemma_hard_is_not_soft(
    store: &GeometryStore,
    soft: Seq<LayerRef>,
    polys: Seq<PolyId>,
    i: int,
)
    requires
        0 <= i < polys.len(),
    ensures
        !soft.contains(LayerRef::Base(store.layer@[polys[i].0 as int])) ==> hard_of(
            store,
            soft,
            polys,
        ).contains(polys[i]),
        forall|k: int|
            0 <= k < hard_of(store, soft, polys).len() ==> !soft.contains(
                LayerRef::Base(
                    store.layer@[(#[trigger] hard_of(store, soft, polys)[k]).0 as int],
                ),
            ) && polys.contains(hard_of(store, soft, polys)[k]),
    decreases polys.len(),
{
    let before = polys.drop_last();
    let earlier = hard_of(store, soft, before);
    let hard = hard_of(store, soft, polys);
    if before.len() > 0 {
        lemma_hard_is_not_soft(
            store,
            soft,
            before,
            if i < before.len() {
                i
            } else {
                0
            },
        );
    }
    if hard.len() > earlier.len() {
        assert(hard[earlier.len() as int] == polys.last());
    }
    if i < before.len() && earlier.contains(before[i]) {
        let k = earlier.index_of(before[i]);
        assert(hard[k] == polys[i]);
    }
    assert forall|k: int| 0 <= k < hard.len() implies !soft.contains(
        LayerRef::Base(store.layer@[(#[trigger] hard[k]).0 as int]),
    ) && polys.contains(hard[k]) by {
        if k < earlier.len() {
            assert(hard[k] == earlier[k]);
            let q = before.index_of(earlier[k]);
            assert(before.contains(earlier[k]));
            assert(polys[q] == earlier[k]);
        } else {
            assert(polys[polys.len() - 1] == hard[k]);
        }
    }
}

proof fn lemma_two_kept(n: nat, keep: spec_fn(int) -> bool, a: u32, b: u32)
    requires
        n <= 0x1_0000_0000,
        a < n,
        b < n,
        a != b,
        keep(a as int),
        keep(b as int),
    ensures
        kept(n, keep).len() >= 2,
{
    lemma_keeps(n, keep, a);
    lemma_keeps(n, keep, b);
    let s = kept(n, keep);
    let (i, j) = (s.index_of(a), s.index_of(b));
    assert(s[i] == a && s[j] == b);
}

proof fn lemma_one_kept(n: nat, keep: spec_fn(int) -> bool, a: int)
    requires
        n <= 0x1_0000_0000,
        forall|k: int| 0 <= k < n && #[trigger] keep(k) ==> k == a,
    ensures
        kept(n, keep).len() <= 1,
    decreases n,
{
    if n > 0 {
        let m = (n - 1) as nat;
        lemma_one_kept(m, keep, a);
        if keep(m as int) {
            lemma_kept(m, keep);
            if kept(m, keep).len() > 0 {
                assert(keep(kept(m, keep)[0] as int));
            }
        }
    }
}

/// Two drains on one net whose devices have different gates fight over it; drains that
/// all answer to one gate are one driver, however many devices there are.
pub proof fn lemma_gates_fight_over_a_net(
    devices: &DeviceTable,
    d: int,
    t: int,
    e: int,
    s: int,
)
    requires
        is_drain(devices, d, t),
        is_drain(devices, e, s),
        devices.terminal_net@[t] == devices.terminal_net@[s],
        gate_of(devices, d) < NO_NET,
        gate_of(devices, e) < NO_NET,
    ensures
        ({
            let net = devices.terminal_net@[t].0;
            &&& gate_of(devices, d) != gate_of(devices, e) ==> drivers(devices, net) >= 2
            &&& (forall|f: int, u: int| #[trigger]
                is_drain(devices, f, u) && devices.terminal_net@[u].0 == net ==> gate_of(
                    devices,
                    f,
                ) == gate_of(devices, d)) ==> drivers(devices, net) == 1
        }),
{
    let net = devices.terminal_net@[t].0;
    let keep = driver_of(devices, net);
    let (a, b) = (gate_of(devices, d), gate_of(devices, e));
    assert(drives(devices, net, a));
    assert(drives(devices, net, b));
    assert(keep(a as int) && keep(b as int));
    let n = NO_NET as nat;
    lemma_kept(n, keep);
    lemma_keeps(n, keep, a);
    if a != b {
        lemma_two_kept(n, keep, a, b);
    }
    if forall|f: int, u: int| #[trigger]
        is_drain(devices, f, u) && devices.terminal_net@[u].0 == net ==> gate_of(devices, f)
            == gate_of(devices, d) {
        assert forall|k: int| 0 <= k < n && #[trigger] keep(k) implies k == a as int by {
            assert(drives(devices, net, k as u32));
        }
        lemma_one_kept(n, keep, a as int);
        assert(kept(n, keep).contains(a));
        assert(kept(n, keep).len() > 0);
    }
}

/// A net's conductors are reported exactly where one of them is not reached from the
/// first without the soft layers, with the first and one that is not reached.
pub proof fn lemma_parted_net_is_reported(
    store: &GeometryStore,
    hard: Seq<PolyId>,
    rule: StrId,
    severity: Severity,
)
    ensures
        ({
            let found = bridge_violation(store, hard, rule, severity);
            &&& found.len() == 1 <==> exists|j: int|
                0 <= j < hard.len() && !#[trigger] joined_to_first(store, hard, j)
            &&& found.len() <= 1
            &&& found.len() == 1 ==> found[0].shapes.0 == hard[0] && exists|j: int|
                0 <= j < hard.len() && !#[trigger] joined_to_first(store, hard, j)
                    && found[0].shapes.1 == Some(hard[j])
        }),
{
    if exists|j: int| 0 <= j < hard.len() && !#[trigger] joined_to_first(store, hard, j) {
        let j = choose|j: int| 0 <= j < hard.len() && !#[trigger] joined_to_first(store, hard, j);
        lemma_lowest_far(store, hard, j);
    }
}

proof fn lemma_lowest_far(store: &GeometryStore, hard: Seq<PolyId>, j: int)
    requires
        0 <= j < hard.len(),
        !joined_to_first(store, hard, j),
    ensures
        exists|k: int| is_far(store, hard, k),
    decreases j,
{
    if exists|k: int| 0 <= k < j && !#[trigger] joined_to_first(store, hard, k) {
        let k = choose|k: int| 0 <= k < j && !#[trigger] joined_to_first(store, hard, k);
        lemma_lowest_far(store, hard, k);
    } else {
        assert(is_far(store, hard, j));
    }
}

/// Every well no tap lies in is reported, and no other: a polygon wound the other way is
/// a hole and no well.
pub proof fn lemma_untied_well_is_reported(
    design: Design,
    layer: LayerId,
    taps: Seq<Seq<Seq<Point>>>,
    rule: StrId,
    severity: Severity,
    upto: int,
    p: int,
) -> (at: int)
    requires
        design.store.row_lo(layer.0 as int) <= p < upto <= u32::MAX,
    ensures
        ({
            let (lo, hi) = (
                design.store.row_lo(layer.0 as int),
                design.store.row_hi(layer.0 as int),
            );
            let found = untied_wells(design, layer, taps, rule, severity, upto);
            let loose = doubled_area(design.store.ring(p)) > 0 && forall|i: int|
                0 <= i < taps.len() ==> !lies_in(
                    #[trigger] taps[i],
                    well_region(design.store, lo, hi, p),
                );
            &&& loose ==> 0 <= at < found.len() && found[at].shapes.0 == PolyId(p as u32)
                && found[at].layer == layer && found[at].rule == rule
            &&& !loose ==> forall|k: int|
                0 <= k < found.len() ==> (#[trigger] found[k]).shapes.0 != PolyId(p as u32)
        }),
    decreases upto - design.store.row_lo(layer.0 as int),
{
    let lo = design.store.row_lo(layer.0 as int);
    let before = untied_wells(design, layer, taps, rule, severity, upto - 1);
    lemma_wells_before(design, layer, taps, rule, severity, upto - 1);
    if p == upto - 1 {
        before.len() as int
    } else {
        lemma_untied_well_is_reported(design, layer, taps, rule, severity, upto - 1, p)
    }
}

proof fn lemma_wells_before(
    design: Design,
    layer: LayerId,
    taps: Seq<Seq<Seq<Point>>>,
    rule: StrId,
    severity: Severity,
    upto: int,
)
    requires
        upto <= u32::MAX,
        0 <= design.store.row_lo(layer.0 as int),
    ensures
        forall|k: int|
            0 <= k < untied_wells(design, layer, taps, rule, severity, upto).len() ==> (
            #[trigger] untied_wells(design, layer, taps, rule, severity, upto)[k]).shapes.0.0
                < upto,
    decreases upto - design.store.row_lo(layer.0 as int),
{
    if upto > design.store.row_lo(layer.0 as int) {
        lemma_wells_before(design, layer, taps, rule, severity, upto - 1);
        let before = untied_wells(design, layer, taps, rule, severity, upto - 1);
        let now = untied_wells(design, layer, taps, rule, severity, upto);
        assert forall|k: int| 0 <= k < now.len() implies (#[trigger] now[k]).shapes.0.0 < upto by {
            if k < before.len() {
                assert(now[k] == before[k]);
            }
        }
    }
}

/// Every polygon of a looked-at layer that no terminal lands on the net of is reported,
/// and no connected one is.
pub proof fn lemma_unconnected_polygon_is_reported(
    design: Design,
    facts: &NetFacts,
    layer: LayerId,
    rule: StrId,
    severity: Severity,
    lo: int,
    hi: int,
    p: int,
) -> (at: int)
    requires
        0 <= lo <= p < hi <= u32::MAX,
    ensures
        ({
            let found = unconnected_rows(design, facts, layer, rule, severity, lo, hi);
            &&& !reaches_device(design, facts, p) ==> 0 <= at < found.len() && found[at].shapes.0
                == PolyId(p as u32) && found[at].rule == rule
            &&& forall|k: int|
                0 <= k < found.len() ==> (#[trigger] found[k]).shapes.0.0 < hi && !reaches_device(
                    design,
                    facts,
                    found[k].shapes.0.0 as int,
                )
        }),
    decreases hi - lo,
{
    let before = unconnected_rows(design, facts, layer, rule, severity, lo, hi - 1);
    let now = unconnected_rows(design, facts, layer, rule, severity, lo, hi);
    let earlier = if hi - 1 > lo {
        lemma_unconnected_polygon_is_reported(
            design,
            facts,
            layer,
            rule,
            severity,
            lo,
            hi - 1,
            if p < hi - 1 {
                p
            } else {
                hi - 2
            },
        )
    } else {
        0
    };
    assert forall|k: int| 0 <= k < now.len() implies (#[trigger] now[k]).shapes.0.0 < hi
        && !reaches_device(design, facts, now[k].shapes.0.0 as int) by {
        if k < before.len() {
            assert(now[k] == before[k]);
        }
    }
    if p == hi - 1 {
        before.len() as int
    } else {
        earlier
    }
}

/// Every net over-driven beyond what a row permits is reported with how many drive it,
/// and no other is.
pub proof fn lemma_overdriven_net_is_reported(
    design: Design,
    nets: Seq<u32>,
    max: u32,
    rule: StrId,
    severity: Severity,
    i: int,
) -> (at: int)
    requires
        0 <= i < nets.len(),
        design.nets.members(nets[i] as int).len() > 0,
    ensures
        ({
            let found = overdriven(design, nets, max, rule, severity);
            &&& drivers(design.devices, nets[i]) > max ==> 0 <= at < found.len()
                && found[at].measured == Measurement::Count(drivers(design.devices, nets[i]))
                && found[at].limit == Measurement::Count(max) && found[at].shapes.0
                == design.nets.members(nets[i] as int)[0]
            &&& (forall|k: int|
                0 <= k < nets.len() ==> drivers(design.devices, #[trigger] nets[k]) <= max)
                ==> found.len() == 0
        }),
    decreases nets.len(),
{
    let before = nets.drop_last();
    let earlier = overdriven(design, before, max, rule, severity);
    lemma_none_overdriven(design, nets, max, rule, severity);
    if i == nets.len() - 1 {
        earlier.len() as int
    } else {
        lemma_overdriven_net_is_reported(design, before, max, rule, severity, i)
    }
}

proof fn lemma_none_overdriven(
    design: Design,
    nets: Seq<u32>,
    max: u32,
    rule: StrId,
    severity: Severity,
)
    ensures
        (forall|k: int|
            0 <= k < nets.len() ==> drivers(design.devices, #[trigger] nets[k]) <= max)
            ==> overdriven(design, nets, max, rule, severity).len() == 0,
    decreases nets.len(),
{
    if nets.len() > 0 {
        let before = nets.drop_last();
        lemma_none_overdriven(design, before, max, rule, severity);
        if forall|k: int|
            0 <= k < nets.len() ==> drivers(design.devices, #[trigger] nets[k]) <= max {
            assert forall|k: int| 0 <= k < before.len() implies drivers(
                design.devices,
                #[trigger] before[k],
            ) <= max by {
                assert(before[k] == nets[k]);
            }
            assert(drivers(design.devices, nets[nets.len() - 1]) <= max);
        }
    }
}

} // verus!
