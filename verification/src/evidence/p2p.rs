//! Resistance between the points a net's devices attach at.
use crate::design::{kept, lemma_kept, lemma_kept_is};
use crate::evidence::finding::{Detail, ErcViolation};
use crate::evidence::mesh::{lemma_measures_one, measure_net, measures, net_size};
use crate::evidence::netlist::{is_device_net, ExtractedNetlist, MosRule, Technology, OFF_NET};
use crate::geom::Bbox;
use crate::model::{LayerId, PolyId};
use crate::number::Number;
use crate::order::{climbing, lemma_ordered, sort, Ranked};
use crate::store::GeometryStore;
use vstd::prelude::*;

verus! {

/// Flags every net whose worst pair of attach points is further apart than the
/// technology's limit.
pub struct PointToPointResistanceCheck;

/// Whether a polygon meets one on a layer.
pub open spec fn meets_layer(store: &GeometryStore, layer: LayerId, p: int) -> bool {
    exists|c: int|
        store.row_lo(layer.0 as int) <= c < store.row_hi(layer.0 as int) && store.bbox@[p].meets(
            #[trigger] store.bbox@[c],
        )
}

/// A rule's gate polygons among those below `n`.
pub open spec fn rule_gates(store: &GeometryStore, rule: MosRule, n: nat) -> Seq<u32>
    decreases n,
{
    if n == 0 || n <= store.row_lo(rule.gate_layer.0 as int) {
        Seq::empty()
    } else {
        let before = rule_gates(store, rule, (n - 1) as nat);
        if meets_layer(store, rule.channel_layer, n - 1) {
            before.push((n - 1) as u32)
        } else {
            before
        }
    }
}

/// Gate polygons of the first `n` rules.
pub open spec fn gates_to(store: &GeometryStore, rules: Seq<MosRule>, n: nat) -> Seq<u32>
    decreases n,
{
    if n == 0 {
        Seq::empty()
    } else {
        let rule = rules[n - 1];
        gates_to(store, rules, (n - 1) as nat) + rule_gates(
            store,
            rule,
            store.row_hi(rule.gate_layer.0 as int) as nat,
        )
    }
}

/// Every gate polygon, rule by rule: a polygon on a rule's gate layer that meets
/// one on its channel layer.
pub open spec fn gates(store: &GeometryStore, tech: &Technology) -> Seq<u32> {
    gates_to(store, tech.mos_rules@, tech.mos_rules@.len())
}

/// The boxes of a list of polygons.
pub open spec fn boxes_of(store: &GeometryStore, polys: Seq<u32>) -> Seq<Bbox> {
    Seq::new(polys.len(), |i: int| store.bbox@[polys[i] as int])
}

/// Whether a polygon is interconnect of a net.
pub open spec fn is_wire(ext: &ExtractedNetlist, gates: Seq<u32>, net: u32, p: int) -> bool {
    ext.net_of_poly@[p] == net && !gates.contains(p as u32)
}

/// The interconnect of a net: its polygons that are not gates. A gate's own
/// resistance is the device's.
pub open spec fn wires_of(
    store: &GeometryStore,
    ext: &ExtractedNetlist,
    gates: Seq<u32>,
    net: u32,
) -> Seq<u32> {
    kept(store.polys() as nat, |p: int| is_wire(ext, gates, net, p))
}

/// Whether a net has a device on it and interconnect of its own.
pub open spec fn is_wired(
    store: &GeometryStore,
    ext: &ExtractedNetlist,
    gates: Seq<u32>,
    net: u32,
) -> bool {
    &&& net != OFF_NET
    &&& ext.device_net(net)
    &&& wires_of(store, ext, gates, net).len() > 0
}

/// The nets that are looked at, ascending.
pub open spec fn wired_nets(
    store: &GeometryStore,
    ext: &ExtractedNetlist,
    gates: Seq<u32>,
) -> Seq<u32> {
    kept(OFF_NET as nat, |net: int| is_wired(store, ext, gates, net as u32))
}

/// The resistances of a list of polygons.
pub open spec fn ohms_of(ohms: Seq<Number>, polys: Seq<u32>) -> Seq<Number> {
    Seq::new(polys.len(), |i: int| ohms[polys[i] as int])
}

/// The worst resistance of a net.
pub open spec fn net_ohms(
    store: &GeometryStore,
    ext: &ExtractedNetlist,
    gates: Seq<u32>,
    ohms: Seq<Number>,
    net: u32,
) -> Number {
    let wires = wires_of(store, ext, gates, net);
    choose|r: Number|
        measures(boxes_of(store, wires), boxes_of(store, gates), ohms_of(ohms, wires), r)
}

/// The nets over the limit among the first `n`.
pub open spec fn over_to(
    store: &GeometryStore,
    tech: &Technology,
    ext: &ExtractedNetlist,
    ohms: Seq<Number>,
    n: nat,
) -> Seq<u32>
    decreases n,
{
    if n == 0 {
        Seq::empty()
    } else {
        let before = over_to(store, tech, ext, ohms, (n - 1) as nat);
        let all = gates(store, tech);
        let net = wired_nets(store, ext, all)[n - 1];
        if tech.p2p_r_limit_ohm.lt(net_ohms(store, ext, all, ohms, net)) {
            before.push(net)
        } else {
            before
        }
    }
}

/// The nets over the limit.
pub open spec fn nets_over(
    store: &GeometryStore,
    tech: &Technology,
    ext: &ExtractedNetlist,
    ohms: Seq<Number>,
) -> Seq<u32> {
    over_to(store, tech, ext, ohms, wired_nets(store, ext, gates(store, tech)).len())
}

/// Whether a finding is the one of a net, at its first polygon.
pub open spec fn reports_net(
    store: &GeometryStore,
    tech: &Technology,
    ext: &ExtractedNetlist,
    ohms: Seq<Number>,
    v: &ErcViolation,
    net: u32,
) -> bool {
    let all = gates(store, tech);
    let first = store.bbox@[wires_of(store, ext, all, net)[0] as int];
    &&& v.check@ == "p2p_resistance"@
    &&& v.detail is NetResistance
    &&& v.detail->net == net
    &&& v.detail->ohms == net_ohms(store, ext, all, ohms, net)
    &&& v.x == first.xlo
    &&& v.y == first.ylo
}

pub open spec fn report_nets(
    store: &GeometryStore,
    tech: &Technology,
    ext: &ExtractedNetlist,
    ohms: Seq<Number>,
    found: Seq<ErcViolation>,
    of: Seq<u32>,
) -> bool {
    &&& found.len() == of.len()
    &&& forall|i: int|
        0 <= i < found.len() ==> reports_net(
            store,
            tech,
            ext,
            ohms,
            #[trigger] &found[i],
            of[i],
        )
}

/// Whether a network of a size can be numbered, and its matrix held.
pub open spec fn numbers(size: int) -> bool {
    size < 0xFFFF_FFFF && 2 * size <= usize::MAX
}

/// Every net's network can be numbered.
pub open spec fn numberable(
    store: &GeometryStore,
    tech: &Technology,
    ext: &ExtractedNetlist,
) -> bool {
    let all = gates(store, tech);
    &&& all.len() < 0xFFFF_FFFF
    &&& forall|net: u32|
        numbers(
            net_size(
                boxes_of(store, #[trigger] wires_of(store, ext, all, net)),
                boxes_of(store, all),
            ) as int,
        )
}

fn on_layer(store: &GeometryStore, layer: LayerId, p: u32) -> (r: bool)
    requires
        store.wf(),
        layer.0 < store.layers(),
        p < store.polys(),
    ensures
        r == meets_layer(store, layer, p as int),
{
    let (lo, hi) = store.polys_on_layer(layer);
    let b = store.poly_bbox(PolyId(p));
    let mut c: u32 = lo;
    while c < hi
        invariant
            store.wf(),
            p < store.polys(),
            b == store.bbox@[p as int],
            lo == store.row_lo(layer.0 as int),
            hi == store.row_hi(layer.0 as int),
            lo <= c <= hi <= store.polys(),
            forall|k: int| lo <= k < c ==> !b.meets(#[trigger] store.bbox@[k]),
        decreases hi - c,
    {
        if b.overlaps(store.poly_bbox(PolyId(c))) {
            assert(b.meets(store.bbox@[c as int]));
            return true;
        }
        c = c + 1;
    }
    false
}

fn find_gates(store: &GeometryStore, tech: &Technology) -> (r: Vec<u32>)
    requires
        store.wf(),
        tech.wf(store),
    ensures
        r@ == gates(store, tech),
        forall|i: int| 0 <= i < r@.len() ==> (#[trigger] r@[i]) < store.polys(),
{
    let mut r: Vec<u32> = Vec::new();
    let mut n: usize = 0;
    while n < tech.mos_rules.len()
        invariant
            n <= tech.mos_rules@.len(),
            store.wf(),
            tech.wf(store),
            r@ == gates_to(store, tech.mos_rules@, n as nat),
            forall|i: int| 0 <= i < r@.len() ==> (#[trigger] r@[i]) < store.polys(),
        decreases tech.mos_rules@.len() - n,
    {
        let rule = tech.mos_rules[n];
        assert(tech.mos_rules@[n as int].gate_layer.0 < store.layers());
        let (lo, hi) = store.polys_on_layer(rule.gate_layer);
        let ghost before = r@;
        let mut g: u32 = lo;
        assert(r@ =~= before + rule_gates(store, rule, g as nat));
        while g < hi
            invariant
                store.wf(),
                rule.channel_layer.0 < store.layers(),
                lo == store.row_lo(rule.gate_layer.0 as int),
                lo <= g <= hi <= store.polys(),
                r@ == before + rule_gates(store, rule, g as nat),
                forall|i: int| 0 <= i < r@.len() ==> (#[trigger] r@[i]) < store.polys(),
            decreases hi - g,
        {
            if on_layer(store, rule.channel_layer, g) {
                r.push(g);
            }
            g = g + 1;
            assert(r@ =~= before + rule_gates(store, rule, g as nat));
        }
        n = n + 1;
    }
    r
}

/// Which polygons are gates.
fn mask_gates(gates: &Vec<u32>, polys: usize) -> (r: Vec<bool>)
    requires
        polys < 0xFFFF_FFFF,
        forall|i: int| 0 <= i < gates@.len() ==> (#[trigger] gates@[i]) < polys,
    ensures
        r@.len() == polys,
        forall|p: int| 0 <= p < polys ==> (#[trigger] r@[p]) == gates@.contains(p as u32),
{
    let mut r: Vec<bool> = Vec::new();
    let mut p: usize = 0;
    while p < polys
        invariant
            p <= polys,
            r@.len() == p,
            forall|k: int| 0 <= k < p ==> !(#[trigger] r@[k]),
        decreases polys - p,
    {
        r.push(false);
        p = p + 1;
    }
    let mut i: usize = 0;
    while i < gates.len()
        invariant
            i <= gates@.len(),
            polys < 0xFFFF_FFFF,
            r@.len() == polys,
            forall|i: int| 0 <= i < gates@.len() ==> (#[trigger] gates@[i]) < polys,
            forall|p: int|
                0 <= p < polys ==> (#[trigger] r@[p]) == gates@.take(i as int).contains(p as u32),
        decreases gates@.len() - i,
    {
        let ghost before = r@;
        let g: u32 = gates[i];
        r.set(g as usize, true);
        i = i + 1;
        proof {
            let now = gates@.take(i as int);
            let then = gates@.take(i - 1);
            assert(now =~= then.push(g));
            assert forall|p: int| 0 <= p < polys implies (#[trigger] r@[p]) == now.contains(
                p as u32,
            ) by {
                if p == g {
                    assert(now[i - 1] == p as u32);
                } else {
                    assert(before[p] == then.contains(p as u32));
                    if then.contains(p as u32) {
                        let k = choose|k: int| 0 <= k < then.len() && then[k] == p as u32;
                        assert(now[k] == p as u32);
                    }
                    if now.contains(p as u32) {
                        let k = choose|k: int| 0 <= k < now.len() && now[k] == p as u32;
                        assert(then[k] == p as u32);
                    }
                }
            }
        }
    }
    assert(gates@.take(i as int) =~= gates@);
    r
}

/// The polygons of one net.
fn find_wires(
    store: &GeometryStore,
    ext: &ExtractedNetlist,
    is_gate: &Vec<bool>,
    net: u32,
    Ghost(all): Ghost<Seq<u32>>,
) -> (r: Vec<u32>)
    requires
        store.wf(),
        ext.wf(store),
        is_gate@.len() == store.polys(),
        forall|p: int| 0 <= p < store.polys() ==> (#[trigger] is_gate@[p]) == all.contains(
            p as u32,
        ),
    ensures
        r@ == wires_of(store, ext, all, net),
        forall|i: int| 0 <= i < r@.len() ==> (#[trigger] r@[i]) < store.polys(),
{
    let ghost keep = |p: int| is_wire(ext, all, net, p);
    let mut r: Vec<u32> = Vec::new();
    let mut p: usize = 0;
    while p < ext.net_of_poly.len()
        invariant
            p <= ext.net_of_poly@.len() == store.polys() < 0xFFFF_FFFF,
            is_gate@.len() == store.polys(),
            forall|p: int|
                0 <= p < store.polys() ==> (#[trigger] is_gate@[p]) == all.contains(p as u32),
            keep == |p: int| is_wire(ext, all, net, p),
            r@ == kept(p as nat, keep),
            forall|i: int| 0 <= i < r@.len() ==> (#[trigger] r@[i]) < p,
        decreases ext.net_of_poly@.len() - p,
    {
        let gate: bool = is_gate[p];
        assert(gate == all.contains(p as u32));
        if ext.net_of_poly[p] == net && !gate {
            r.push(p as u32);
        }
        p = p + 1;
    }
    r
}

/// The nets that are looked at.
fn find_nets(
    store: &GeometryStore,
    ext: &ExtractedNetlist,
    is_gate: &Vec<bool>,
    Ghost(all): Ghost<Seq<u32>>,
) -> (r: Vec<u32>)
    requires
        store.wf(),
        ext.wf(store),
        is_gate@.len() == store.polys(),
        forall|p: int| 0 <= p < store.polys() ==> (#[trigger] is_gate@[p]) == all.contains(
            p as u32,
        ),
    ensures
        r@ == wired_nets(store, ext, all),
        forall|i: int| 0 <= i < r@.len() ==> is_wired(store, ext, all, #[trigger] r@[i]),
{
    let mut found: Vec<u32> = Vec::new();
    let mut p: usize = 0;
    while p < ext.net_of_poly.len()
        invariant
            p <= ext.net_of_poly@.len() == store.polys() < 0xFFFF_FFFF,
            is_gate@.len() == store.polys(),
            forall|p: int|
                0 <= p < store.polys() ==> (#[trigger] is_gate@[p]) == all.contains(p as u32),
            forall|i: int|
                0 <= i < found@.len() ==> is_wired(store, ext, all, #[trigger] found@[i]),
            forall|k: int|
                0 <= k < p && (#[trigger] ext.net_of_poly@[k]) != OFF_NET && ext.device_net(
                    ext.net_of_poly@[k],
                ) && !all.contains(k as u32) ==> found@.contains(ext.net_of_poly@[k]),
        decreases ext.net_of_poly@.len() - p,
    {
        let ghost before = found@;
        let net: u32 = ext.net_of_poly[p];
        let gate: bool = is_gate[p];
        assert(gate == all.contains(p as u32));
        if net != OFF_NET && !gate && is_device_net(ext, net) {
            found.push(net);
            proof {
                assert(found@[before.len() as int] == net);
                lemma_wire(store, ext, all, p as int);
            }
        }
        proof {
            assert forall|k: int|
                0 <= k < p + 1 && (#[trigger] ext.net_of_poly@[k]) != OFF_NET && ext.device_net(
                    ext.net_of_poly@[k],
                ) && !all.contains(k as u32) implies found@.contains(ext.net_of_poly@[k]) by {
                if k < p {
                    let i = choose|i: int|
                        0 <= i < before.len() && before[i] == ext.net_of_poly@[k];
                    assert(found@[i] == ext.net_of_poly@[k]);
                }
            }
        }
        p = p + 1;
    }
    let order = sort(&found);
    proof {
        lemma_ordered(found@);
        assert forall|i: int| 0 <= i < order@.len() implies is_wired(
            store,
            ext,
            all,
            #[trigger] order@[i],
        ) by {
            assert(found@.contains(order@[i]));
        }
    }
    let mut r: Vec<u32> = Vec::new();
    let mut k: usize = 0;
    while k < order.len()
        invariant
            k <= order@.len(),
            climbing(order@),
            forall|i: int|
                0 <= i < order@.len() ==> is_wired(store, ext, all, #[trigger] order@[i]),
            forall|i: int| 0 <= i < r@.len() ==> is_wired(store, ext, all, #[trigger] r@[i]),
            forall|i: int, j: int| 0 <= i < j < r@.len() ==> r@[i] < r@[j],
            k > 0 ==> r@.len() > 0 && r@.last() == order@[k - 1],
            k == 0 ==> r@.len() == 0,
            forall|x: int| 0 <= x < k ==> r@.contains(#[trigger] order@[x]),
        decreases order@.len() - k,
    {
        let net: u32 = order[k];
        let count: usize = r.len();
        let ghost before = r@;
        let fresh: bool = count == 0 || r[count - 1] != net;
        if fresh {
            r.push(net);
        }
        proof {
            if k > 0 {
                assert(order@[k - 1].rank() <= order@[k as int].rank());
            }
            assert forall|x: int| 0 <= x < k + 1 implies r@.contains(#[trigger] order@[x]) by {
                if x < k {
                    let i = choose|i: int| 0 <= i < before.len() && before[i] == order@[x];
                    assert(r@[i] == order@[x]);
                } else {
                    assert(r@[r@.len() - 1] == order@[x]);
                }
            }
        }
        k = k + 1;
    }
    proof {
        let keep = |net: int| is_wired(store, ext, all, net as u32);
        assert forall|net: u32| net < OFF_NET && #[trigger] keep(net as int) implies r@.contains(
            net,
        ) by {
            let wires = wires_of(store, ext, all, net);
            lemma_kept(store.polys() as nat, |p: int| is_wire(ext, all, net, p));
            assert(wires[0] < store.polys());
            let p = wires[0] as int;
            assert(ext.net_of_poly@[p] == net);
            assert(found@.contains(net));
            let i = choose|i: int| 0 <= i < found@.len() && found@[i] == net;
            assert(order@.contains(found@[i]));
            let x = choose|x: int| 0 <= x < order@.len() && order@[x] == net;
            assert(r@.contains(order@[x]));
        }
        lemma_kept_is(OFF_NET as nat, keep, r@);
    }
    r
}

/// A net with a polygon that is no gate has interconnect.
proof fn lemma_wire(store: &GeometryStore, ext: &ExtractedNetlist, all: Seq<u32>, p: int)
    requires
        0 <= p < store.polys(),
        !all.contains(p as u32),
    ensures
        wires_of(store, ext, all, ext.net_of_poly@[p]).len() > 0,
{
    let net = ext.net_of_poly@[p];
    let keep = |p: int| is_wire(ext, all, net, p);
    assert(keep(p));
    crate::design::lemma_kept_grows((p + 1) as nat, store.polys() as nat, keep);
}

fn take_boxes(store: &GeometryStore, polys: &Vec<u32>) -> (r: Vec<Bbox>)
    requires
        store.wf(),
        forall|i: int| 0 <= i < polys@.len() ==> (#[trigger] polys@[i]) < store.polys(),
    ensures
        r@ == boxes_of(store, polys@),
        forall|i: int| 0 <= i < r@.len() ==> (#[trigger] r@[i]).wf(),
{
    let ghost want = boxes_of(store, polys@);
    let mut r: Vec<Bbox> = Vec::new();
    let mut i: usize = 0;
    while i < polys.len()
        invariant
            i <= polys@.len(),
            store.wf(),
            forall|i: int| 0 <= i < polys@.len() ==> (#[trigger] polys@[i]) < store.polys(),
            want == boxes_of(store, polys@),
            r@ == want.take(i as int),
            forall|k: int| 0 <= k < r@.len() ==> (#[trigger] r@[k]).wf(),
        decreases polys@.len() - i,
    {
        assert(polys@[i as int] < store.polys());
        r.push(store.poly_bbox(PolyId(polys[i])));
        i = i + 1;
        assert(r@ =~= want.take(i as int));
    }
    assert(r@ =~= want);
    r
}

fn take_ohms(ohms: &Vec<Number>, polys: &Vec<u32>) -> (r: Vec<Number>)
    requires
        forall|i: int| 0 <= i < polys@.len() ==> (#[trigger] polys@[i]) < ohms@.len(),
    ensures
        r@ == ohms_of(ohms@, polys@),
{
    let ghost want = ohms_of(ohms@, polys@);
    let mut r: Vec<Number> = Vec::new();
    let mut i: usize = 0;
    while i < polys.len()
        invariant
            i <= polys@.len(),
            forall|i: int| 0 <= i < polys@.len() ==> (#[trigger] polys@[i]) < ohms@.len(),
            want == ohms_of(ohms@, polys@),
            r@ == want.take(i as int),
        decreases polys@.len() - i,
    {
        assert(polys@[i as int] < ohms@.len());
        r.push(ohms[polys[i] as usize]);
        i = i + 1;
        assert(r@ =~= want.take(i as int));
    }
    assert(r@ =~= want);
    r
}

impl PointToPointResistanceCheck {
    pub fn id(&self) -> (r: &'static str)
        ensures
            r@ == "p2p_resistance"@,
    {
        "p2p_resistance"
    }

    /// One finding per device net whose worst pair is over the limit, ascending
    /// by net. `ohms` is the resistance of each polygon by itself.
    pub fn check(
        &self,
        store: &GeometryStore,
        tech: &Technology,
        ext: &ExtractedNetlist,
        ohms: &Vec<Number>,
    ) -> (r: Vec<ErcViolation>)
        requires
            store.wf(),
            tech.wf(store),
            ext.wf(store),
            ohms@.len() == store.polys(),
            numberable(store, tech, ext),
        ensures
            report_nets(store, tech, ext, ohms@, r@, nets_over(store, tech, ext, ohms@)),
    {
        let all = find_gates(store, tech);
        let polys: usize = ext.net_of_poly.len();
        let is_gate = mask_gates(&all, polys);
        let attach = take_boxes(store, &all);
        let nets = find_nets(store, ext, &is_gate, Ghost(all@));
        let mut r: Vec<ErcViolation> = Vec::new();
        let mut n: usize = 0;
        while n < nets.len()
            invariant
                n <= nets@.len(),
                store.wf(),
                tech.wf(store),
                ext.wf(store),
                ohms@.len() == store.polys(),
                numberable(store, tech, ext),
                all@ == gates(store, tech),
                is_gate@.len() == store.polys(),
                forall|p: int|
                    0 <= p < store.polys() ==> (#[trigger] is_gate@[p]) == all@.contains(p as u32),
                attach@ == boxes_of(store, all@),
                forall|i: int| 0 <= i < attach@.len() ==> (#[trigger] attach@[i]).wf(),
                nets@ == wired_nets(store, ext, all@),
                forall|i: int| 0 <= i < nets@.len() ==> is_wired(
                    store,
                    ext,
                    all@,
                    #[trigger] nets@[i],
                ),
                report_nets(
                    store,
                    tech,
                    ext,
                    ohms@,
                    r@,
                    over_to(store, tech, ext, ohms@, n as nat),
                ),
            decreases nets@.len() - n,
        {
            let ghost was = r@;
            let ghost then = over_to(store, tech, ext, ohms@, n as nat);
            let net: u32 = nets[n];
            assert(is_wired(store, ext, all@, net));
            let wires = find_wires(store, ext, &is_gate, net, Ghost(all@));
            let boxes = take_boxes(store, &wires);
            let own = take_ohms(ohms, &wires);
            let worst = measure_net(&boxes, &attach, &own);
            proof {
                let chosen = net_ohms(store, ext, all@, ohms@, net);
                assert(measures(boxes@, attach@, own@, chosen));
                lemma_measures_one(boxes@, attach@, own@, worst, chosen);
            }
            if tech.p2p_r_limit_ohm.less(worst) {
                assert(wires@[0] < store.polys());
                let b = store.poly_bbox(PolyId(wires[0]));
                r.push(
                    ErcViolation {
                        check: "p2p_resistance".to_owned(),
                        detail: Detail::NetResistance { net, ohms: worst },
                        x: b.xlo,
                        y: b.ylo,
                    },
                );
            }
            proof {
                let now = over_to(store, tech, ext, ohms@, (n + 1) as nat);
                assert forall|i: int| 0 <= i < r@.len() implies reports_net(
                    store,
                    tech,
                    ext,
                    ohms@,
                    #[trigger] &r@[i],
                    now[i],
                ) by {
                    if i < was.len() {
                        assert(reports_net(store, tech, ext, ohms@, &was[i], then[i]));
                    }
                }
            }
            n = n + 1;
        }
        r
    }
}

} // verus!
