//! Where a rail's budget goes, and where it does not.
use crate::intent::nets_ascending;
use crate::model::NetId;
use crate::number::Number;
use crate::power::attach::{devices_on_spec, lemma_attach_points, marker_at};
use crate::power::network::PowerGrid;
use crate::power::process::Contacts;
use crate::power::rails::{is_supply_grid, load_on, Rails};
use crate::power::taps::{answers, resolves, Tap};
use crate::power::wiring::{
    lemma_nearest_shape_is_nearest, lemma_wired_len, wired_taps, Wiring,
};
use vstd::prelude::*;

verus! {

/// Whether a tap lands on rail `r`, which a device is on.
spec fn lands(rails: Rails, tap: Tap, r: int) -> bool {
    &&& devices_on_spec(rails.devices, rails.net(r)).len() > 0
    &&& rails.start(r) <= tap.shape < rails.start(r + 1)
}

/// Whether a tap lands on one of the first `n` rails.
spec fn is_on_a_rail(rails: Rails, tap: Tap, n: int) -> bool {
    exists|r: int| 0 <= r < n && #[trigger] lands(rails, tap, r)
}

/// The taps of the first rails come first.
proof fn lemma_taps_prefix(rails: Rails, k: nat, n: nat)
    requires
        k <= n,
    ensures
        rails.taps_to(k).len() <= rails.taps_to(n).len(),
        rails.shapes_to(k).len() <= rails.shapes_to(n).len(),
        forall|t: int|
            0 <= t < rails.taps_to(k).len() ==> (#[trigger] rails.taps_to(n)[t])
                == rails.taps_to(k)[t],
    decreases n,
{
    if k < n {
        lemma_taps_prefix(rails, k, (n - 1) as nat);
    }
}

/// A rail's shapes are its own.
proof fn lemma_rail_of(rails: Rails, n: nat, k: int, row: int)
    requires
        0 <= k < n <= 0xFFFF_FFFF,
        rails.start(k) <= row < rails.start(k + 1),
    ensures
        rails.rails_to(n).len() == rails.shapes_to(n).len(),
        rails.rails_to(n)[row] == k,
    decreases n,
{
    let m = (n - 1) as nat;
    lemma_rails_len(rails, m);
    if k < m {
        lemma_rail_of(rails, m, k, row);
        lemma_taps_prefix(rails, (k + 1) as nat, m);
    }
}

proof fn lemma_rails_len(rails: Rails, n: nat)
    ensures
        rails.rails_to(n).len() == rails.shapes_to(n).len(),
    decreases n,
{
    if n > 0 {
        lemma_rails_len(rails, (n - 1) as nat);
    }
}

/// Every load is asked for on a rail that a device is on.
proof fn lemma_loads_land(rails: Rails, base: int, n: nat)
    requires
        n <= rails.count(),
        0 <= base,
        base + rails.taps_to(rails.count() as nat).len() <= 0xFFFF_FFFF,
        rails.shapes().len() <= 0xFFFF_FFFF,
    ensures
        forall|j: int|
            0 <= j < rails.loads_to(n, base).len() ==> base <= (#[trigger] rails.loads_to(
                n,
                base,
            )[j]).0 < base + rails.taps_to(n).len() && is_on_a_rail(
                rails,
                rails.taps_to(rails.count() as nat)[rails.loads_to(n, base)[j].0 - base],
                n as int,
            ),
    decreases n,
{
    if n > 0 {
        let m = (n - 1) as nat;
        let at = m as int;
        let all = rails.taps_to(rails.count() as nat);
        lemma_loads_land(rails, base, m);
        lemma_taps_prefix(rails, m, n);
        lemma_taps_prefix(rails, n, rails.count() as nat);
        let before = rails.loads_to(m, base);
        let now = rails.loads_to(n, base);
        let on = devices_on_spec(rails.devices, rails.net(at));
        let shapes = rails.shapes_of(at);
        let first = base + rails.taps_to(m).len();
        if shapes.len() > 0 {
            assert(rails.taps_of(at).len() == on.len());
            lemma_attach_points(rails.devices, rails.net(at), on, first, on.len());
        }
        assert forall|j: int| 0 <= j < now.len() implies base <= (#[trigger] now[j]).0 < base
            + rails.taps_to(n).len() && is_on_a_rail(rails, all[now[j].0 - base], n as int) by {
            if j < before.len() {
                assert(now[j] == before[j]);
                let tap = all[before[j].0 - base];
                assert(is_on_a_rail(rails, tap, m as int));
                let r = choose|r: int| 0 <= r < m && #[trigger] lands(rails, tap, r);
                assert(lands(rails, tap, r));
            } else {
                let points = rails.points_of(at, base);
                assert(now[j].0 == points[j - before.len()]);
                let x = now[j].0 - first;
                assert(0 <= x < on.len());
                let tap = all[now[j].0 - base];
                assert(tap == rails.taps_to(n)[now[j].0 - base]);
                assert(tap == rails.taps_of(at)[x]);
                let marker = marker_at(rails.store, rails.devices, on[x] as int);
                lemma_nearest_shape_is_nearest(rails.store, shapes, marker);
                assert(rails.start(at + 1) == rails.start(at) + shapes.len());
                assert(lands(rails, tap, at));
            }
        }
    }
}

/// A node nothing is asked for at has no load.
proof fn lemma_no_load(loads: Seq<(u32, Number)>, req_node: Seq<u32>, node: int, n: nat)
    requires
        n <= loads.len(),
        forall|j: int| 0 <= j < n ==> req_node[(#[trigger] loads[j]).0 as int] != node,
    ensures
        load_on(loads, req_node, node, n) == (Number { bits: 0 }),
    decreases n,
{
    if n > 0 {
        lemma_no_load(loads, req_node, node, (n - 1) as nat);
        assert(req_node[loads[n - 1].0 as int] != node);
    }
}

/// A tap on a rail is not on a rail that no device is on.
proof fn lemma_other_rail(rails: Rails, tap: Tap, k: int)
    requires
        nets_ascending(rails.intent.supply_net@),
        rails.count() <= 0xFFFF_FFFF,
        0 <= k < rails.count(),
        devices_on_spec(rails.devices, rails.net(k)).len() == 0,
        is_on_a_rail(rails, tap, rails.count()),
    ensures
        rails.net(rails.rail_at(tap.shape as int)) != rails.net(k),
{
    let n = rails.count() as nat;
    let r = choose|r: int| 0 <= r < n && #[trigger] lands(rails, tap, r);
    lemma_rail_of(rails, n, r, tap.shape as int);
    if r < k {
        assert(rails.intent.supply_net@[r].0 < rails.intent.supply_net@[k].0);
    } else if k < r {
        assert(rails.intent.supply_net@[k].0 < rails.intent.supply_net@[r].0);
    }
}

/// No load is asked for at a node of a rail that no device is on.
proof fn lemma_loads_elsewhere(
    rails: Rails,
    wired: Seq<Tap>,
    node: Seq<Tap>,
    req_node: Seq<u32>,
    k: int,
    i: int,
)
    requires
        nets_ascending(rails.intent.supply_net@),
        rails.count() <= 0xFFFF_FFFF,
        0 <= k < rails.count(),
        devices_on_spec(rails.devices, rails.net(k)).len() == 0,
        wired.len() + rails.taps_to(rails.count() as nat).len() <= 0xFFFF_FFFF,
        rails.shapes().len() <= 0xFFFF_FFFF,
        resolves(wired + rails.taps_to(rails.count() as nat), node, req_node),
        0 <= i < node.len(),
        rails.net(rails.rail_at(node[i].shape as int)) == rails.net(k),
    ensures
        load_on(
            rails.loads_to(rails.count() as nat, wired.len() as int),
            req_node,
            i,
            rails.loads_to(rails.count() as nat, wired.len() as int).len(),
        ) == (Number { bits: 0 }),
{
    let n = rails.count() as nat;
    let base = wired.len() as int;
    let attached = rails.taps_to(n);
    let loads = rails.loads_to(n, base);
    lemma_loads_land(rails, base, n);
    assert forall|j: int| 0 <= j < loads.len() implies req_node[(#[trigger] loads[j]).0 as int]
        != i by {
        let q = loads[j].0 as int;
        let tap = attached[q - base];
        assert(answers(wired + attached, node, req_node, q));
        assert((wired + attached)[q] == tap);
        lemma_other_rail(rails, tap, k);
    }
    lemma_no_load(loads, req_node, i, loads.len());
}

/// A rail no device is on carries no load at any of its nodes, whatever its budget:
/// a stated budget that was not spread is exactly a load of zero.
pub proof fn lemma_untouched_rail_carries_nothing(
    rails: Rails,
    contacts: &Contacts,
    w: &Wiring,
    out: &PowerGrid,
    k: int,
    i: int,
)
    requires
        rails.wf(),
        is_supply_grid(rails, contacts, w, out),
        0 <= k < rails.count(),
        devices_on_spec(rails.devices, rails.net(k)).len() == 0,
        0 <= i < out.node_net@.len(),
        out.node_net@[i] == rails.net(k),
    ensures
        out.node_load@[i] == (Number { bits: 0 }),
{
    let wired = wired_taps(rails.store, w.shapes@, w.metal@, w.via@);
    lemma_wired_len(rails.store, w.shapes@, w.metal@, w.via@);
    assert(wired.len() == w.attach_base());
    rails.lemma_few();
    lemma_loads_elsewhere(rails, wired, w.taps.node@, w.taps.req_node@, k, i);
}

impl<'a> Rails<'a> {
    /// There are no more rails than nets.
    proof fn lemma_few(self)
        requires
            self.wf(),
        ensures
            self.count() <= 0xFFFF_FFFF,
    {
        if self.count() > 0 {
            lemma_climb(self.intent.supply_net@, self.count() - 1);
        }
    }
}

proof fn lemma_climb(nets: Seq<NetId>, k: int)
    requires
        nets_ascending(nets),
        0 <= k < nets.len(),
    ensures
        k <= nets[k].0,
    decreases k,
{
    if k > 0 {
        lemma_climb(nets, k - 1);
        assert(nets[k - 1].0 < nets[k].0);
    }
}

} // verus!
