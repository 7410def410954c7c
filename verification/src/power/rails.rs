//! The supply grid: the rails a design declares, extracted into one network.
use crate::geom::{in_domain, Point};
use crate::intent::IntentMap;
use crate::model::{LayerId, NetId, PolyId, SupplyRole};
use crate::number::{Number, ONE};
use crate::power::attach::{
    attach_points, devices_on, devices_on_spec, lemma_attach_points, net_taps, push_devices,
    rail_attach,
};
use crate::power::network::{climbs, PowerError, PowerGrid};
use crate::power::process::{
    conductor_mask, connections, lemma_links_of, links_of, metal_links, via_links, Contacts, Link,
    Process,
};
use crate::power::taps::{answers, tap_point, tap_point_spec, Tap, TapTable};
use crate::power::wiring::{
    conducting, keep_noded, lemma_conducting, lemma_noded, lemma_places, lemma_wired_len,
    links_name, noded, push_centres, push_conducting, push_ends, shape_table, shapes_distinct,
    shapes_in, wired_taps, Segment, Wiring,
};
use crate::store::{DeviceTable, GeometryStore, NetTable};
use vstd::prelude::*;

verus! {

/// Everything the supply grid is extracted from.
#[derive(Clone, Copy)]
pub struct Rails<'a> {
    pub store: &'a GeometryStore,
    pub nets: &'a NetTable,
    pub devices: &'a DeviceTable,
    pub intent: &'a IntentMap,
    pub process: Process<'a>,
}

impl<'a> Rails<'a> {
    pub open spec fn wf(self) -> bool {
        &&& self.store.wf()
        &&& self.nets.wf(self.store.polys())
        &&& self.devices.wf(self.store.polys())
        &&& self.intent.wf()
        &&& forall|k: int|
            0 <= k < self.count() ==> (#[trigger] self.intent.supply_net@[k]).0
                < self.nets.nets()
    }

    /// How many rails are declared.
    pub open spec fn count(self) -> int {
        self.intent.supply_net@.len() as int
    }

    pub open spec fn net(self, k: int) -> NetId {
        self.intent.supply_net@[k]
    }

    /// The conducting shapes of rail `k`.
    pub open spec fn shapes_of(self, k: int) -> Seq<PolyId> {
        conducting(self.store, self.process.connectivity, self.nets.members(self.net(k).0 as int))
    }

    /// The shapes of the first `n` rails, rail after rail.
    pub open spec fn shapes_to(self, n: nat) -> Seq<PolyId>
        decreases n,
    {
        if n == 0 {
            Seq::empty()
        } else {
            self.shapes_to((n - 1) as nat) + self.shapes_of(n - 1)
        }
    }

    /// The row of rail `k`'s first shape.
    pub open spec fn start(self, k: int) -> int {
        self.shapes_to(k as nat).len() as int
    }

    /// The rail of each shape of the first `n` rails.
    pub open spec fn rails_to(self, n: nat) -> Seq<u32>
        decreases n,
    {
        if n == 0 {
            Seq::empty()
        } else {
            self.rails_to((n - 1) as nat) + Seq::new(
                self.shapes_of(n - 1).len(),
                |i: int| (n - 1) as u32,
            )
        }
    }

    pub open spec fn shapes(self) -> Seq<PolyId> {
        self.shapes_to(self.count() as nat)
    }

    /// The rail a shape row belongs to.
    pub open spec fn rail_at(self, row: int) -> int {
        self.rails_to(self.count() as nat)[row] as int
    }

    /// The taps the devices of rail `k` make.
    pub open spec fn taps_of(self, k: int) -> Seq<Tap> {
        net_taps(self.store, self.devices, self.net(k), self.shapes_of(k), self.start(k))
    }

    /// The device taps of the first `n` rails.
    pub open spec fn taps_to(self, n: nat) -> Seq<Tap>
        decreases n,
    {
        if n == 0 {
            Seq::empty()
        } else {
            self.taps_to((n - 1) as nat) + self.taps_of(n - 1)
        }
    }

    /// A ground rail's load is negative: it injects into the rail.
    pub open spec fn sign(self, k: int) -> Number {
        match self.intent.supply_role@[k] {
            SupplyRole::Power => Number { bits: ONE },
            SupplyRole::Ground => Number { bits: 0xBFF0_0000_0000_0000 },
        }
    }

    pub open spec fn budget(self, k: int) -> Number {
        match self.intent.limits_spec(self.net(k)).budget_current_ua {
            Some(b) => b,
            None => Number { bits: 0 },
        }
    }

    /// The points rail `k`'s budget is shared over, as requests.
    pub open spec fn points_of(self, k: int, base: int) -> Seq<u32> {
        let on = devices_on_spec(self.devices, self.net(k));
        attach_points(
            self.devices,
            self.net(k),
            on,
            base + self.taps_to(k as nat).len(),
            on.len(),
        )
    }

    /// The loads of rail `k`: its budget in equal shares over its attach points.
    pub open spec fn loads_of(self, k: int, base: int) -> Seq<(u32, Number)> {
        if self.shapes_of(k).len() == 0 {
            Seq::empty()
        } else {
            let points = self.points_of(k, base);
            let share = self.sign(k).times_spec(self.budget(k)).over_spec(
                Number::of_spec(points.len() as int),
            );
            Seq::new(points.len(), |i: int| (points[i], share))
        }
    }

    /// The loads of the first `n` rails, rail after rail.
    pub open spec fn loads_to(self, n: nat, base: int) -> Seq<(u32, Number)>
        decreases n,
    {
        if n == 0 {
            Seq::empty()
        } else {
            self.loads_to((n - 1) as nat, base) + self.loads_of(n - 1, base)
        }
    }

    /// Where rail `k` is held: the shape with the greatest height, then area, of
    /// those first met.
    pub open spec fn anchor(self, k: int) -> int {
        self.start(k) + best_to(
            self.store,
            self.process,
            self.shapes_of(k),
            self.shapes_of(k).len(),
        ).row
    }

    /// The nodes the first `n` rails are held at: the centre tap of each anchor.
    /// A rail with no shape is held nowhere.
    pub open spec fn sources_to(self, req_node: Seq<u32>, n: nat) -> Seq<u32>
        decreases n,
    {
        if n == 0 {
            Seq::empty()
        } else {
            let before = self.sources_to(req_node, (n - 1) as nat);
            if self.shapes_of(n - 1).len() == 0 {
                before
            } else {
                before.push(req_node[self.anchor(n - 1)])
            }
        }
    }

    /// The voltages the first `n` rails are held at.
    pub open spec fn voltages_to(self, n: nat) -> Seq<Number>
        decreases n,
    {
        if n == 0 {
            Seq::empty()
        } else {
            let before = self.voltages_to((n - 1) as nat);
            if self.shapes_of(n - 1).len() == 0 {
                before
            } else {
                before.push(self.intent.supply_voltage@[n - 1])
            }
        }
    }
}

/// The best anchor found so far.
pub ghost struct Best {
    pub row: int,
    pub height: Number,
    pub area: int,
}

/// Whether one shape beats another as an anchor: higher metal first, then the
/// larger box.
pub open spec fn beats(height: Number, area: int, best: Best) -> bool {
    best.height.lt(height) || (best.height.le(height) && height.le(best.height) && best.area < area)
}

/// The best anchor of the first `n` shapes; the first of equal ones.
pub open spec fn best_to(
    store: &GeometryStore,
    process: Process,
    shapes: Seq<PolyId>,
    n: nat,
) -> Best
    decreases n,
{
    if n == 0 {
        Best { row: 0, height: Number { bits: 0xFFF0_0000_0000_0000 }, area: -1 }
    } else {
        let before = best_to(store, process, shapes, (n - 1) as nat);
        let poly = shapes[n - 1].0 as int;
        let height = process.height(store.layer@[poly]);
        let area = store.bbox@[poly].spec_area();
        if beats(height, area, before) {
            Best { row: n - 1, height, area }
        } else {
            before
        }
    }
}

/// The load of one node: what the first `n` loads put on it, added in order.
pub open spec fn load_on(loads: Seq<(u32, Number)>, req_node: Seq<u32>, node: int, n: nat) -> Number
    decreases n,
{
    if n == 0 {
        Number { bits: 0 }
    } else {
        let before = load_on(loads, req_node, node, (n - 1) as nat);
        if req_node[loads[n - 1].0 as int] == node {
            before.plus_spec(loads[n - 1].1)
        } else {
            before
        }
    }
}

/// The wiring of the rails.
pub open spec fn is_wiring(rails: Rails, contacts: &Contacts, w: &Wiring) -> bool {
    let connectivity = rails.process.connectivity;
    &&& w.shapes@ == rails.shapes()
    &&& w.metal@ == noded(rails.shapes(), metal_links(connectivity, contacts))
    &&& w.via@ == noded(rails.shapes(), via_links(connectivity, contacts))
    &&& w.wired(rails.store, rails.taps_to(rails.count() as nat))
}

/// The node columns are those of the wiring.
pub open spec fn nodes_tabulated(rails: Rails, w: &Wiring, out: &PowerGrid) -> bool {
    let node = w.taps.node@;
    let loads = rails.loads_to(rails.count() as nat, w.attach_base());
    &&& out.node_poly@ == Seq::new(node.len(), |i: int| w.shapes@[node[i].shape as int])
    &&& out.node_layer@ == Seq::new(
        node.len(),
        |i: int| rails.store.layer@[w.shapes@[node[i].shape as int].0 as int],
    )
    &&& out.node_net@ == Seq::new(
        node.len(),
        |i: int| rails.net(rails.rail_at(node[i].shape as int)),
    )
    &&& out.node_nominal@ == Seq::new(
        node.len(),
        |i: int| rails.intent.supply_voltage@[rails.rail_at(node[i].shape as int)],
    )
    &&& out.node_at@ == Seq::new(
        node.len(),
        |i: int|
            tap_point_spec(
                rails.store.bbox@[w.shapes@[node[i].shape as int].0 as int],
                node[i].along as int,
            ),
    )
    &&& out.node_load@ == Seq::new(
        node.len(),
        |i: int| load_on(loads, w.taps.req_node@, i, loads.len()),
    )
    &&& out.source_node@ == rails.sources_to(w.taps.req_node@, rails.count() as nat)
    &&& out.source_voltage@ == rails.voltages_to(rails.count() as nat)
}

/// The edge columns are a list of segments.
pub open spec fn edges_tabulated(segments: Seq<Segment>, out: &PowerGrid) -> bool {
    &&& out.edge_from@ == Seq::new(segments.len(), |i: int| segments[i].from)
    &&& out.edge_to@ == Seq::new(segments.len(), |i: int| segments[i].to)
    &&& out.edge_resistance@ == Seq::new(segments.len(), |i: int| segments[i].resistance)
    &&& out.edge_width@ == Seq::new(segments.len(), |i: int| segments[i].width)
    &&& out.edge_length@ == Seq::new(segments.len(), |i: int| segments[i].length)
    &&& out.edge_layer@ == Seq::new(segments.len(), |i: int| segments[i].layer)
    &&& out.edge_kind@ == Seq::new(segments.len(), |i: int| segments[i].kind)
}

/// The grid extracted from the rails.
pub open spec fn is_supply_grid(
    rails: Rails,
    contacts: &Contacts,
    w: &Wiring,
    out: &PowerGrid,
) -> bool {
    &&& is_wiring(rails, contacts, w)
    &&& nodes_tabulated(rails, w, out)
    &&& edges_tabulated(w.segments(rails.store, rails.process), out)
}

impl<'a> Rails<'a> {
    /// What the shape list is: polygons of the declared nets on conductor layers,
    /// none of them twice.
    pub proof fn lemma_shapes(self, n: nat)
        requires
            self.wf(),
            n <= self.count(),
        ensures
            self.rails_to(n).len() == self.shapes_to(n).len(),
            shapes_in(self.store, self.shapes_to(n)),
            shapes_distinct(self.shapes_to(n)),
            forall|i: int|
                0 <= i < self.shapes_to(n).len() ==> (#[trigger] self.rails_to(n)[i]) < n,
            forall|i: int|
                0 <= i < self.shapes_to(n).len() ==> self.nets.net_of@[(
                #[trigger] self.shapes_to(n)[i]).0 as int] == self.net(
                    self.rails_to(n)[i] as int,
                ),
            forall|i: int|
                0 <= i < self.shapes_to(n).len() ==> self.process.connectivity.conductors@.contains(
                    self.store.layer@[(#[trigger] self.shapes_to(n)[i]).0 as int],
                ),
        decreases n,
    {
        if n > 0 {
            let m = (n - 1) as nat;
            self.lemma_shapes(m);
            self.lemma_rail_count(m as int);
            let before = self.shapes_to(m);
            let rail = self.shapes_of(m as int);
            let now = self.shapes_to(n);
            let net = self.net(m as int);
            let members = self.nets.members(net.0 as int);
            assert(net.0 < self.nets.nets());
            lemma_conducting(self.store, self.process.connectivity, members);
            assert forall|i: int, j: int| 0 <= i < j < members.len() implies (
            #[trigger] members[i]).0 < (#[trigger] members[j]).0 by {
                assert(self.nets.members(net.0 as int)[i].0 < self.nets.members(
                    net.0 as int,
                )[j].0);
            }
            assert forall|i: int| 0 <= i < rail.len() implies (#[trigger] rail[i]).0
                < self.store.polys() && self.nets.net_of@[rail[i].0 as int] == net
                && self.process.connectivity.conductors@.contains(
                self.store.layer@[rail[i].0 as int],
            ) by {
                assert(rail.contains(rail[i]));
                let k = choose|k: int| 0 <= k < members.len() && members[k] == rail[i];
                assert(self.nets.net_of@[self.nets.members(net.0 as int)[k].0 as int].0 == net.0);
                assert(members[k] == self.nets.poly@[self.nets.poly_start@[net.0 as int] + k]);
            }
            assert forall|i: int| 0 <= i < now.len() implies (#[trigger] now[i]).0
                < self.store.polys() && self.rails_to(n)[i] < n
                    && self.nets.net_of@[now[i].0 as int]
                == self.net(self.rails_to(n)[i] as int)
                && self.process.connectivity.conductors@.contains(
                self.store.layer@[now[i].0 as int],
            ) by {
                if i < before.len() {
                    assert(before[i].0 < self.store.polys());
                    assert(self.rails_to(m)[i] < m);
                } else {
                    assert(now[i] == rail[i - before.len()]);
                }
            }
            assert forall|i: int, j: int| 0 <= i < j < now.len() implies #[trigger] now[i]
                != #[trigger] now[j] by {
                if j < before.len() {
                    assert(before[i] != before[j]);
                } else if i < before.len() {
                    assert(self.rails_to(m)[i] < m);
                    let x = self.rails_to(m)[i] as int;
                    assert(self.intent.supply_net@[x].0 < self.intent.supply_net@[m as int].0);
                    assert(self.nets.net_of@[before[i].0 as int] == self.net(x));
                    assert(now[j] == rail[j - before.len()]);
                } else {
                    assert(rail[i - before.len()].0 < rail[j - before.len()].0);
                }
            }
            assert forall|i: int| 0 <= i < now.len() implies (#[trigger] self.rails_to(n)[i])
                < n by {
                if i < before.len() {
                    assert(self.rails_to(m)[i] < m);
                }
            }
        }
    }

    proof fn lemma_prefix(self, k: nat, n: nat)
        requires
            k <= n,
        ensures
            self.shapes_to(k).len() <= self.shapes_to(n).len(),
            self.shapes_to(n).take(self.shapes_to(k).len() as int) == self.shapes_to(k),
            self.taps_to(k).len() <= self.taps_to(n).len(),
        decreases n,
    {
        if k < n {
            self.lemma_prefix(k, (n - 1) as nat);
            let m = (n - 1) as nat;
            let len = self.shapes_to(k).len() as int;
            assert(self.shapes_to(n).take(len) =~= self.shapes_to(m).take(len));
        } else {
            assert(self.shapes_to(n).take(self.shapes_to(k).len() as int) =~= self.shapes_to(k));
        }
    }

    /// Rail `k`'s shapes, within the list of all shapes.
    proof fn lemma_run(self, k: int)
        requires
            0 <= k < self.count(),
        ensures
            self.start(k) <= self.start(k + 1) <= self.shapes().len(),
            self.shapes().subrange(self.start(k), self.start(k + 1)) == self.shapes_of(k),
    {
        let n = self.count() as nat;
        self.lemma_prefix((k + 1) as nat, n);
        self.lemma_prefix(k as nat, (k + 1) as nat);
        let upto = self.shapes_to((k + 1) as nat);
        assert(self.shapes().take(upto.len() as int) == upto);
        assert(upto == self.shapes_to(k as nat) + self.shapes_of(k));
        assert forall|i: int| self.start(k) <= i < self.start(k + 1) implies #[trigger] self.shapes()[i]
            == upto[i] by {
            assert(self.shapes().take(upto.len() as int)[i] == upto[i]);
        }
        assert(self.shapes().subrange(self.start(k), self.start(k + 1)) =~= self.shapes_of(k));
    }

    /// The shapes of every rail, the rail of each, and each rail's first row.
    fn gather(self) -> (r: (Vec<PolyId>, Vec<u32>, Vec<usize>))
        requires
            self.wf(),
        ensures
            r.0@ == self.shapes(),
            r.1@ == self.rails_to(self.count() as nat),
            r.2@.len() == self.count() + 1,
            forall|k: int| 0 <= k <= self.count() ==> (#[trigger] r.2@[k]) == self.start(k),
    {
        let mask = conductor_mask(self.process.connectivity, self.store.layer_count());
        let rails: usize = self.intent.supply_net.len();
        let mut shapes: Vec<PolyId> = Vec::new();
        let mut rail_of: Vec<u32> = Vec::new();
        let mut start: Vec<usize> = Vec::new();
        start.push(0);
        let mut k: usize = 0;
        while k < rails
            invariant
                k <= rails == self.count(),
                self.wf(),
                mask@.len() == self.store.layers(),
                forall|l: int|
                    0 <= l < self.store.layers() ==> #[trigger] mask@[l]
                        == self.process.connectivity.conductors@.contains(LayerId(l as u32)),
                shapes@ == self.shapes_to(k as nat),
                rail_of@ == self.rails_to(k as nat),
                start@.len() == k + 1,
                forall|i: int| 0 <= i <= k ==> (#[trigger] start@[i]) == self.start(i),
            decreases rails - k,
        {
            let net = self.intent.supply_net[k];
            assert(self.intent.supply_net@[k as int].0 < self.nets.nets());
            let polys = self.nets.polys_of(net.0, Ghost(self.store.polys()));
            push_conducting(self.store, self.process.connectivity, &mask, &polys, &mut shapes);
            proof {
                self.lemma_shapes(k as nat);
                self.lemma_rail_count(k as int);
            }
            let total: usize = shapes.len();
            while rail_of.len() < total
                invariant
                    k < rails == self.count(),
                    k <= 0xFFFF_FFFF,
                    total == self.shapes_to((k + 1) as nat).len(),
                    self.rails_to(k as nat).len() <= rail_of@.len() <= total,
                    self.rails_to((k + 1) as nat).len() == total,
                    rail_of@ == self.rails_to((k + 1) as nat).take(rail_of@.len() as int),
                decreases total - rail_of@.len(),
            {
                rail_of.push(k as u32);
                assert(rail_of@ =~= self.rails_to((k + 1) as nat).take(rail_of@.len() as int));
            }
            assert(rail_of@ =~= self.rails_to((k + 1) as nat));
            start.push(total);
            k = k + 1;
        }
        (shapes, rail_of, start)
    }

    /// There are no more rails than nets.
    proof fn lemma_rail_count(self, k: int)
        requires
            self.wf(),
            0 <= k < self.count(),
        ensures
            k <= self.intent.supply_net@[k].0,
        decreases k,
    {
        if k > 0 {
            self.lemma_rail_count(k - 1);
            assert(self.intent.supply_net@[k - 1].0 < self.intent.supply_net@[k].0);
        }
    }
}

impl<'a> Rails<'a> {
    /// Every load names a device tap.
    proof fn lemma_loads(self, n: nat, base: int)
        requires
            0 <= base,
            base + self.taps_to(n).len() <= 0xFFFF_FFFF,
        ensures
            forall|i: int|
                0 <= i < self.loads_to(n, base).len() ==> (#[trigger] self.loads_to(n, base)[i]).0
                    < base + self.taps_to(n).len(),
        decreases n,
    {
        if n > 0 {
            let m = (n - 1) as nat;
            self.lemma_loads(m, base);
            let before = self.loads_to(m, base);
            let now = self.loads_to(n, base);
            let on = devices_on_spec(self.devices, self.net(m as int));
            if self.shapes_of(m as int).len() > 0 {
                assert(self.taps_of(m as int).len() == on.len());
                lemma_attach_points(
                    self.devices,
                    self.net(m as int),
                    on,
                    base + self.taps_to(m).len(),
                    on.len(),
                );
            }
            assert forall|i: int| 0 <= i < now.len() implies (#[trigger] now[i]).0 < base
                + self.taps_to(n).len() by {
                if i < before.len() {
                    assert(before[i].0 < base + self.taps_to(m).len());
                } else {
                    let points = self.points_of(m as int, base);
                    assert(now[i].0 == points[i - before.len()]);
                }
            }
        }
    }

    /// Ask for every device's tap, and share each rail's budget over them.
    fn attach(self, shapes: &Vec<PolyId>, start: &Vec<usize>, taps: &mut TapTable) -> (r: Vec<
        (u32, Number),
    >)
        requires
            self.wf(),
            shapes@ == self.shapes(),
            shapes@.len() < 0xFFFF_FFFF,
            start@.len() == self.count() + 1,
            forall|k: int| 0 <= k <= self.count() ==> (#[trigger] start@[k]) == self.start(k),
            old(taps).asks_of(shapes@.len() as int),
            old(taps).request@.len() + self.taps_to(self.count() as nat).len() < 0xFFFF_FFFF,
        ensures
            final(taps).request@ == old(taps).request@ + self.taps_to(self.count() as nat),
            final(taps).asks_of(shapes@.len() as int),
            r@ == self.loads_to(self.count() as nat, old(taps).request@.len() as int),
    {
        let ghost first = taps.request@;
        let ghost base = first.len() as int;
        let rails: usize = self.intent.supply_net.len();
        let mut loads: Vec<(u32, Number)> = Vec::new();
        proof {
            self.lemma_shapes(self.count() as nat);
        }
        let mut k: usize = 0;
        assert(taps.request@ =~= first + self.taps_to(0));
        while k < rails
            invariant
                k <= rails == self.count(),
                self.wf(),
                shapes@ == self.shapes(),
                shapes@.len() < 0xFFFF_FFFF,
                shapes_in(self.store, shapes@),
                start@.len() == self.count() + 1,
                forall|k: int| 0 <= k <= self.count() ==> (#[trigger] start@[k]) == self.start(k),
                taps.asks_of(shapes@.len() as int),
                base == first.len(),
                base + self.taps_to(self.count() as nat).len() < 0xFFFF_FFFF,
                taps.request@ == first + self.taps_to(k as nat),
                loads@ == self.loads_to(k as nat, base),
            decreases rails - k,
        {
            let from: usize = start[k];
            let to: usize = start[k + 1];
            let ghost before = loads@;
            proof {
                self.lemma_run(k as int);
                self.lemma_prefix((k + 1) as nat, self.count() as nat);
                assert(self.taps_to((k + 1) as nat) == self.taps_to(k as nat) + self.taps_of(
                    k as int,
                ));
                assert(self.loads_to((k + 1) as nat, base) == self.loads_to(k as nat, base)
                    + self.loads_of(k as int, base));
            }
            if from < to {
                let net = self.intent.supply_net[k];
                let on = devices_on(self.devices, net, Ghost(self.store.polys()));
                let at: u32 = taps.request.len() as u32;
                push_devices(self.store, self.devices, shapes, from, to, &on, taps);
                let points = rail_attach(self.devices, net, &on, at, Ghost(self.store.polys()));
                let sign = match self.intent.supply_role[k] {
                    SupplyRole::Power => Number { bits: ONE },
                    SupplyRole::Ground => Number { bits: 0xBFF0_0000_0000_0000 },
                };
                let budget = match self.intent.limits_of(net).budget_current_ua {
                    Some(b) => b,
                    None => Number { bits: 0 },
                };
                let share = sign.times(budget).over(Number::of(points.len() as i128));
                assert(points@ == self.points_of(k as int, base));
                let ghost all = self.loads_of(k as int, base);
                let mut i: usize = 0;
                assert(loads@ =~= before + all.take(0));
                while i < points.len()
                    invariant
                        i <= points@.len(),
                        all.len() == points@.len(),
                        forall|j: int|
                            0 <= j < all.len() ==> #[trigger] all[j] == (points@[j], share),
                        loads@ == before + all.take(i as int),
                    decreases points@.len() - i,
                {
                    loads.push((points[i], share));
                    i = i + 1;
                    assert(loads@ =~= before + all.take(i as int));
                }
                assert(all.take(i as int) =~= all);
            } else {
                assert(self.shapes_of(k as int).len() == 0);
                assert(self.taps_of(k as int) =~= Seq::<Tap>::empty());
                assert(loads@ =~= before + self.loads_of(k as int, base));
            }
            k = k + 1;
            assert(taps.request@ =~= first + self.taps_to(k as nat));
        }
        loads
    }

    /// The row of the anchor of the shapes `from .. to`.
    fn find_anchor(self, shapes: &Vec<PolyId>, from: usize, to: usize) -> (r: usize)
        requires
            self.wf(),
            shapes_in(self.store, shapes@),
            from < to <= shapes@.len(),
        ensures
            r == from + best_to(
                self.store,
                self.process,
                shapes@.subrange(from as int, to as int),
                (to - from) as nat,
            ).row,
            from <= r < to,
    {
        let ghost run = shapes@.subrange(from as int, to as int);
        let mut anchor: usize = from;
        let mut height = Number { bits: 0xFFF0_0000_0000_0000 };
        let mut area: i128 = -1;
        let mut i: usize = from;
        while i < to
            invariant
                self.wf(),
                shapes_in(self.store, shapes@),
                from <= i <= to <= shapes@.len(),
                from <= anchor < to,
                run == shapes@.subrange(from as int, to as int),
                ({
                    let best = best_to(self.store, self.process, run, (i - from) as nat);
                    best.row == anchor - from && best.height == height && best.area == area
                }),
            decreases to - i,
        {
            let poly = shapes[i];
            assert(run[i - from] == poly);
            let h = self.process.height_of(self.store.poly_layer(poly));
            let a: i128 = self.store.poly_bbox(poly).area();
            if height.less(h) || (height.at_most(h) && h.at_most(height) && area < a) {
                anchor = i;
                height = h;
                area = a;
            }
            i = i + 1;
        }
        anchor
    }

    /// Where the rails are held, and at what.
    fn sources(self, w: &Wiring, start: &Vec<usize>) -> (r: (Vec<u32>, Vec<Number>))
        requires
            self.wf(),
            w.shapes@ == self.shapes(),
            w.taps.finished(w.shapes@.len() as int),
            w.shapes@.len() <= w.taps.request@.len(),
            start@.len() == self.count() + 1,
            forall|k: int| 0 <= k <= self.count() ==> (#[trigger] start@[k]) == self.start(k),
        ensures
            r.0@ == self.sources_to(w.taps.req_node@, self.count() as nat),
            r.1@ == self.voltages_to(self.count() as nat),
    {
        let rails: usize = self.intent.supply_net.len();
        let mut node: Vec<u32> = Vec::new();
        let mut voltage: Vec<Number> = Vec::new();
        proof {
            self.lemma_shapes(self.count() as nat);
        }
        let mut k: usize = 0;
        while k < rails
            invariant
                k <= rails == self.count(),
                self.wf(),
                w.shapes@ == self.shapes(),
                shapes_in(self.store, w.shapes@),
                w.taps.finished(w.shapes@.len() as int),
                w.shapes@.len() <= w.taps.request@.len(),
                start@.len() == self.count() + 1,
                forall|k: int| 0 <= k <= self.count() ==> (#[trigger] start@[k]) == self.start(k),
                node@ == self.sources_to(w.taps.req_node@, k as nat),
                voltage@ == self.voltages_to(k as nat),
            decreases rails - k,
        {
            let from: usize = start[k];
            let to: usize = start[k + 1];
            proof {
                self.lemma_run(k as int);
            }
            if from < to {
                let anchor: usize = self.find_anchor(&w.shapes, from, to);
                node.push(w.taps.req_node[anchor]);
                voltage.push(self.intent.supply_voltage[k]);
            }
            k = k + 1;
        }
        (node, voltage)
    }

    /// A rail's anchor is one of its own shapes.
    proof fn lemma_anchor(self, k: int)
        requires
            0 <= k < self.count(),
            self.shapes_of(k).len() > 0,
        ensures
            self.start(k) <= self.anchor(k) < self.start(k + 1),
    {
        lemma_best(self.store, self.process, self.shapes_of(k), self.shapes_of(k).len());
        assert(self.shapes_to((k + 1) as nat) == self.shapes_to(k as nat) + self.shapes_of(k));
    }

    /// The sources are nodes of the first rails, ascending.
    proof fn lemma_sources(self, w: &Wiring, attached: Seq<Tap>, n: nat)
        requires
            self.wf(),
            n <= self.count(),
            w.shapes@ == self.shapes(),
            w.wired(self.store, attached),
        ensures
            climbs(self.sources_to(w.taps.req_node@, n)),
            forall|i: int|
                0 <= i < self.sources_to(w.taps.req_node@, n).len() ==> (
                #[trigger] self.sources_to(w.taps.req_node@, n)[i]) < w.taps.node@.len()
                    && w.taps.node@[self.sources_to(w.taps.req_node@, n)[i] as int].shape
                    < self.start(n as int),
            self.voltages_to(n).len() == self.sources_to(w.taps.req_node@, n).len(),
        decreases n,
    {
        if n > 0 {
            let m = (n - 1) as nat;
            self.lemma_sources(w, attached, m);
            self.lemma_run(m as int);
            let before = self.sources_to(w.taps.req_node@, m);
            let now = self.sources_to(w.taps.req_node@, n);
            if self.shapes_of(m as int).len() > 0 {
                self.lemma_anchor(m as int);
                let a = self.anchor(m as int);
                let at = w.taps.req_node@[a];
                let node = w.taps.node@;
                assert(answers(w.taps.request@, node, w.taps.req_node@, a));
                assert(w.taps.request@[a].shape == a);
                assert(node[at as int].shape == a);
                assert forall|i: int| 0 <= i < before.len() implies (#[trigger] before[i]) < at by {
                    let b = before[i] as int;
                    assert(node[b].shape < self.start(m as int));
                    if b > at {
                        assert(node[at as int].before(node[b]));
                    }
                }
            }
        }
    }
}

/// The best anchor is one of the shapes looked at.
proof fn lemma_best(store: &GeometryStore, process: Process, shapes: Seq<PolyId>, n: nat)
    ensures
        0 <= best_to(store, process, shapes, n).row,
        n > 0 ==> best_to(store, process, shapes, n).row < n,
        n == 0 ==> best_to(store, process, shapes, n).row == 0,
    decreases n,
{
    if n > 0 {
        lemma_best(store, process, shapes, (n - 1) as nat);
    }
}

/// Put each load on the node its request resolved to.
fn spread(loads: &Vec<(u32, Number)>, req_node: &Vec<u32>, nodes: usize) -> (r: Vec<Number>)
    requires
        forall|i: int| 0 <= i < loads@.len() ==> (#[trigger] loads@[i]).0 < req_node@.len(),
        forall|q: int| 0 <= q < req_node@.len() ==> (#[trigger] req_node@[q]) < nodes,
    ensures
        r@ == Seq::new(
            nodes as nat,
            |i: int| load_on(loads@, req_node@, i, loads@.len()),
        ),
{
    let mut r: Vec<Number> = Vec::new();
    let mut i: usize = 0;
    while i < nodes
        invariant
            i <= nodes,
            r@.len() == i,
            forall|k: int| 0 <= k < i ==> (#[trigger] r@[k]) == (Number { bits: 0 }),
        decreases nodes - i,
    {
        r.push(Number { bits: 0 });
        i = i + 1;
    }
    let mut n: usize = 0;
    while n < loads.len()
        invariant
            n <= loads@.len(),
            forall|i: int| 0 <= i < loads@.len() ==> (#[trigger] loads@[i]).0 < req_node@.len(),
            forall|q: int| 0 <= q < req_node@.len() ==> (#[trigger] req_node@[q]) < nodes,
            r@.len() == nodes,
            forall|k: int|
                0 <= k < nodes ==> (#[trigger] r@[k]) == load_on(loads@, req_node@, k, n as nat),
        decreases loads@.len() - n,
    {
        let load = loads[n];
        assert(loads@[n as int].0 < req_node@.len());
        let at: usize = req_node[load.0 as usize] as usize;
        let sum = r[at].plus(load.1);
        r.set(at, sum);
        n = n + 1;
    }
    assert(r@ =~= Seq::new(
        nodes as nat,
        |i: int| load_on(loads@, req_node@, i, loads@.len()),
    ));
    r
}

/// The links of a process, split into the two kinds, as the rails keep them.
fn wire(rails: Rails, contacts: &Contacts, shapes: Vec<PolyId>, start: &Vec<usize>) -> (r: (
    Wiring,
    Vec<(u32, Number)>,
))
    requires
        rails.wf(),
        contacts.fits(rails.process.connectivity),
        links_name(rails.store, metal_links(rails.process.connectivity, contacts)),
        links_name(rails.store, via_links(rails.process.connectivity, contacts)),
        rails.fits(contacts),
        shapes@ == rails.shapes(),
        start@.len() == rails.count() + 1,
        forall|k: int| 0 <= k <= rails.count() ==> (#[trigger] start@[k]) == rails.start(k),
    ensures
        is_wiring(rails, contacts, &r.0),
        r.1@ == rails.loads_to(rails.count() as nat, r.0.attach_base()),
        r.0.taps.request@.len() + r.0.metal@.len() + r.0.via@.len() < 0xFFFF_FFFF,
        forall|i: int| 0 <= i < r.1@.len() ==> (#[trigger] r.1@[i]).0 < r.0.taps.req_node@.len(),
{
    let store = rails.store;
    proof {
        rails.lemma_shapes(rails.count() as nat);
        lemma_noded(rails.shapes(), metal_links(rails.process.connectivity, contacts));
        lemma_noded(rails.shapes(), via_links(rails.process.connectivity, contacts));
    }
    let table = shape_table(store, &shapes);
    let links = connections(rails.process.connectivity, contacts);
    let metal = keep_noded(store, &table, &links.metal, Ghost(shapes@));
    let through = keep_noded(store, &table, &links.via, Ghost(shapes@));
    proof {
        lemma_kept_names(store, shapes@, links.metal@);
        lemma_kept_names(store, shapes@, links.via@);
        lemma_wired_len(store, shapes@, metal@, through@);
        lemma_places(store, table@, shapes@);
    }
    let mut taps = TapTable::new();
    push_centres(store, &shapes, &mut taps);
    push_ends(store, &table, &metal, &mut taps, Ghost(shapes@));
    push_ends(store, &table, &through, &mut taps, Ghost(shapes@));
    assert(taps.request@ =~= wired_taps(store, shapes@, metal@, through@));
    let loads = rails.attach(&shapes, start, &mut taps);
    let count: u32 = shapes.len() as u32;
    taps.finish(count);
    let w = Wiring { shapes, metal, via: through, taps };
    proof {
        rails.lemma_loads(rails.count() as nat, w.attach_base());
    }
    (w, loads)
}

proof fn lemma_kept_names(store: &GeometryStore, shapes: Seq<PolyId>, links: Seq<Link>)
    requires
        links_name(store, links),
    ensures
        links_name(store, noded(shapes, links)),
{
    lemma_noded(shapes, links);
    let now = noded(shapes, links);
    assert forall|i: int| 0 <= i < now.len() implies (#[trigger] now[i]).a.0 < store.polys()
        && now[i].b.0 < store.polys() by {
        assert(links.contains(now[i]));
        let k = choose|k: int| 0 <= k < links.len() && links[k] == now[i];
        assert(links[k].a.0 < store.polys());
    }
}

impl<'a> Rails<'a> {
    /// The taps asked for and the joints are few enough to number: a link asks for two
    /// taps and is a joint itself.
    pub open spec fn fits(self, contacts: &Contacts) -> bool {
        self.shapes().len() + 3 * metal_links(self.process.connectivity, contacts).len() + 3
            * via_links(self.process.connectivity, contacts).len() + self.taps_to(
            self.count() as nat,
        ).len() < 0xFFFF_FFFF
    }

    /// Every layer the wiring uses carries current, so it has a sheet resistance.
    proof fn lemma_priced(self, contacts: &Contacts, w: &Wiring)
        requires
            self.wf(),
            is_wiring(self, contacts, w),
            self.process.all_usable(),
        ensures
            w.priced(self.store, self.process),
    {
        let connectivity = self.process.connectivity;
        let carrying = connectivity.carrying();
        self.lemma_shapes(self.count() as nat);
        assert forall|layer: LayerId|
            connectivity.conductors@.contains(layer) || connectivity.via_cut@.contains(
                layer,
            ) implies #[trigger] self.process.usable(layer) by {
            if connectivity.conductors@.contains(layer) {
                let k = choose|k: int|
                    0 <= k < connectivity.conductors@.len() && connectivity.conductors@[k] == layer;
                assert(carrying[k] == layer);
            } else {
                let k = choose|k: int|
                    0 <= k < connectivity.via_cut@.len() && connectivity.via_cut@[k] == layer;
                assert(carrying[connectivity.conductors@.len() + k] == layer);
            }
        }
        lemma_layers(w.shapes@, connectivity.conductors@, contacts.touch@);
        lemma_layers(w.shapes@, connectivity.via_cut@, contacts.cut@);
        lemma_noded(w.shapes@, metal_links(connectivity, contacts));
        lemma_noded(w.shapes@, via_links(connectivity, contacts));
    }

    /// The columns of the nodes.
    fn tabulate(
        self,
        contacts: &Contacts,
        w: &Wiring,
        rail_of: &Vec<u32>,
        start: &Vec<usize>,
        loads: &Vec<(u32, Number)>,
        out: &mut PowerGrid,
    )
        requires
            self.wf(),
            is_wiring(self, contacts, w),
            rail_of@ == self.rails_to(self.count() as nat),
            start@.len() == self.count() + 1,
            forall|k: int| 0 <= k <= self.count() ==> (#[trigger] start@[k]) == self.start(k),
            loads@ == self.loads_to(self.count() as nat, w.attach_base()),
            forall|i: int| 0 <= i < loads@.len() ==> (#[trigger] loads@[i]).0 < w.taps.req_node@.len(),
            old(out).nodes() == 0,
            old(out).parallel(),
        ensures
            nodes_tabulated(self, w, final(out)),
            final(out).edge_from@ == old(out).edge_from@,
            final(out).edge_to@ == old(out).edge_to@,
            final(out).edge_resistance@ == old(out).edge_resistance@,
            final(out).edge_width@ == old(out).edge_width@,
            final(out).edge_length@ == old(out).edge_length@,
            final(out).edge_layer@ == old(out).edge_layer@,
            final(out).edge_kind@ == old(out).edge_kind@,
    {
        let ghost node = w.taps.node@;
        let ghost attached = self.taps_to(self.count() as nat);
        proof {
            self.lemma_shapes(self.count() as nat);
            w.lemma_nodes_in_domain(self.store, attached);
        }
        let n: usize = w.taps.node.len();
        let mut poly_col: Vec<PolyId> = Vec::new();
        let mut layer_col: Vec<LayerId> = Vec::new();
        let mut net_col: Vec<NetId> = Vec::new();
        let mut nominal: Vec<Number> = Vec::new();
        let mut at: Vec<Point> = Vec::new();
        let mut i: usize = 0;
        while i < n
            invariant
                i <= n == node.len(),
                node == w.taps.node@,
                self.wf(),
                w.shapes@ == self.shapes(),
                shapes_in(self.store, w.shapes@),
                rail_of@ == self.rails_to(self.count() as nat),
                rail_of@.len() == w.shapes@.len(),
                forall|r: int| 0 <= r < rail_of@.len() ==> (#[trigger] rail_of@[r]) < self.count(),
                forall|k: int|
                    0 <= k < node.len() ==> in_domain((#[trigger] node[k]).along as int)
                        && node[k].shape < w.shapes@.len(),
                poly_col@.len() == i,
                layer_col@.len() == i,
                net_col@.len() == i,
                nominal@.len() == i,
                at@.len() == i,
                forall|k: int|
                    0 <= k < i ==> (#[trigger] poly_col@[k]) == w.shapes@[node[k].shape as int],
                forall|k: int|
                    0 <= k < i ==> (#[trigger] layer_col@[k])
                        == self.store.layer@[w.shapes@[node[k].shape as int].0 as int],
                forall|k: int|
                    0 <= k < i ==> (#[trigger] net_col@[k]) == self.net(
                        self.rail_at(node[k].shape as int),
                    ),
                forall|k: int|
                    0 <= k < i ==> (#[trigger] nominal@[k])
                        == self.intent.supply_voltage@[self.rail_at(node[k].shape as int)],
                forall|k: int|
                    0 <= k < i ==> (#[trigger] at@[k]) == tap_point_spec(
                        self.store.bbox@[w.shapes@[node[k].shape as int].0 as int],
                        node[k].along as int,
                    ),
            decreases n - i,
        {
            let tap = w.taps.node[i];
            let poly = w.shapes[tap.shape as usize];
            let rail: usize = rail_of[tap.shape as usize] as usize;
            poly_col.push(poly);
            layer_col.push(self.store.poly_layer(poly));
            net_col.push(self.intent.supply_net[rail]);
            nominal.push(self.intent.supply_voltage[rail]);
            at.push(tap_point(self.store.poly_bbox(poly), tap.along));
            i = i + 1;
        }
        assert forall|q: int| 0 <= q < w.taps.req_node@.len() implies (
        #[trigger] w.taps.req_node@[q]) < n by {
            assert(answers(w.taps.request@, node, w.taps.req_node@, q));
        }
        let load = spread(loads, &w.taps.req_node, n);
        let (source_node, source_voltage) = self.sources(w, start);
        out.node_poly = poly_col;
        out.node_layer = layer_col;
        out.node_net = net_col;
        out.node_nominal = nominal;
        out.node_at = at;
        out.node_load = load;
        out.source_node = source_node;
        out.source_voltage = source_voltage;
        proof {
            assert(
                out.node_poly@ =~= Seq::new(node.len(), |i: int| w.shapes@[node[i].shape as int])
            );
            assert(out.node_layer@ =~= Seq::new(
                node.len(),
                |i: int| self.store.layer@[w.shapes@[node[i].shape as int].0 as int],
            ));
            assert(out.node_net@ =~= Seq::new(
                node.len(),
                |i: int| self.net(self.rail_at(node[i].shape as int)),
            ));
            assert(out.node_nominal@ =~= Seq::new(
                node.len(),
                |i: int| self.intent.supply_voltage@[self.rail_at(node[i].shape as int)],
            ));
            assert(out.node_at@ =~= Seq::new(
                node.len(),
                |i: int|
                    tap_point_spec(
                        self.store.bbox@[w.shapes@[node[i].shape as int].0 as int],
                        node[i].along as int,
                    ),
            ));
        }
    }
}

proof fn lemma_layers(shapes: Seq<PolyId>, layers: Seq<LayerId>, pairs: Seq<Vec<(u32, u32)>>)
    ensures
        forall|i: int|
            0 <= i < noded(shapes, links_of(layers, pairs, layers.len())).len() ==> layers.contains(
                (#[trigger] noded(shapes, links_of(layers, pairs, layers.len()))[i]).layer,
            ),
{
    let links = links_of(layers, pairs, layers.len());
    lemma_links_of(layers, pairs, layers.len());
    lemma_noded(shapes, links);
    assert forall|i: int| 0 <= i < noded(shapes, links).len() implies layers.contains(
        (#[trigger] noded(shapes, links)[i]).layer,
    ) by {
        assert(links.contains(noded(shapes, links)[i]));
        let k = choose|k: int| 0 <= k < links.len() && links[k] == noded(shapes, links)[i];
        assert(layers.contains(links[k].layer));
    }
}

/// The edge columns of a list of segments.
fn tabulate_edges(segments: &Vec<Segment>, out: &mut PowerGrid)
    requires
        old(out).edges() == 0,
        old(out).edge_to@.len() == 0,
        old(out).edge_resistance@.len() == 0,
        old(out).edge_width@.len() == 0,
        old(out).edge_length@.len() == 0,
        old(out).edge_layer@.len() == 0,
        old(out).edge_kind@.len() == 0,
    ensures
        edges_tabulated(segments@, final(out)),
        final(out).node_net@ == old(out).node_net@,
        final(out).node_at@ == old(out).node_at@,
        final(out).node_poly@ == old(out).node_poly@,
        final(out).node_layer@ == old(out).node_layer@,
        final(out).node_nominal@ == old(out).node_nominal@,
        final(out).node_load@ == old(out).node_load@,
        final(out).source_node@ == old(out).source_node@,
        final(out).source_voltage@ == old(out).source_voltage@,
{
    let n: usize = segments.len();
    let mut i: usize = 0;
    while i < n
        invariant
            i <= n == segments@.len(),
            out.edge_from@ =~= Seq::new(i as nat, |k: int| segments@[k].from),
            out.edge_to@ =~= Seq::new(i as nat, |k: int| segments@[k].to),
            out.edge_resistance@ =~= Seq::new(i as nat, |k: int| segments@[k].resistance),
            out.edge_width@ =~= Seq::new(i as nat, |k: int| segments@[k].width),
            out.edge_length@ =~= Seq::new(i as nat, |k: int| segments@[k].length),
            out.edge_layer@ =~= Seq::new(i as nat, |k: int| segments@[k].layer),
            out.edge_kind@ =~= Seq::new(i as nat, |k: int| segments@[k].kind),
            out.node_net@ == old(out).node_net@,
            out.node_at@ == old(out).node_at@,
            out.node_poly@ == old(out).node_poly@,
            out.node_layer@ == old(out).node_layer@,
            out.node_nominal@ == old(out).node_nominal@,
            out.node_load@ == old(out).node_load@,
            out.source_node@ == old(out).source_node@,
            out.source_voltage@ == old(out).source_voltage@,
        decreases n - i,
    {
        let s = segments[i];
        out.edge_from.push(s.from);
        out.edge_to.push(s.to);
        out.edge_resistance.push(s.resistance);
        out.edge_width.push(s.width);
        out.edge_length.push(s.length);
        out.edge_layer.push(s.layer);
        out.edge_kind.push(s.kind);
        i = i + 1;
    }
}

/// The inputs of an extraction, as one value.
pub open spec fn rails_of<'a>(
    store: &'a GeometryStore,
    nets: &'a NetTable,
    devices: &'a DeviceTable,
    intent: &'a IntentMap,
    process: Process<'a>,
) -> Rails<'a> {
    Rails { store, nets, devices, intent, process }
}

/// Extract the supply grid of a layout.
///
/// Only the nets the intent declares carry a grid: a signal net has no nominal to
/// measure a drop from. A polygon becomes a chain of nodes, cut where something
/// lands on it. A rail's budget is spread uniformly over its attach points; one
/// with none draws nothing here, which is reported elsewhere and is no error.
/// Nothing is written unless every layer that carries current has a usable sheet
/// resistance.
pub fn extract_into(
    store: &GeometryStore,
    nets: &NetTable,
    devices: &DeviceTable,
    intent: &IntentMap,
    process: Process,
    contacts: &Contacts,
    out: &mut PowerGrid,
) -> (r: Result<(), PowerError>)
    requires
        rails_of(store, nets, devices, intent, process).wf(),
        contacts.fits(process.connectivity),
        links_name(store, metal_links(process.connectivity, contacts)),
        links_name(store, via_links(process.connectivity, contacts)),
        rails_of(store, nets, devices, intent, process).fits(contacts),
    ensures
        r is Ok <==> process.all_usable(),
        r is Err ==> exists|k: int| #[trigger]
            process.first_unusable(k) && r->Err_0 == PowerError::NoSheetResistance(
                process.connectivity.carrying()[k],
            ),
        r is Err ==> final(out).nodes() == 0 && final(out).edges() == 0
            && final(out).source_node@.len() == 0,
        r is Ok ==> exists|w: Wiring| #[trigger]
            is_supply_grid(
                rails_of(store, nets, devices, intent, process),
                contacts,
                &w,
                final(out),
            ),
        final(out).wf(),
{
    *out = PowerGrid::default();
    match process.check_sheets() {
        Err(e) => {
            return Err(e);
        },
        Ok(_) => {},
    }
    let rails = Rails { store, nets, devices, intent, process };
    let (shapes, rail_of, start) = rails.gather();
    let (w, loads) = wire(rails, contacts, shapes, &start);
    let ghost attached = rails.taps_to(rails.count() as nat);
    proof {
        rails.lemma_priced(contacts, &w);
        w.lemma_segments(store, process, attached);
        rails.lemma_sources(&w, attached, rails.count() as nat);
    }
    rails.tabulate(contacts, &w, &rail_of, &start, &loads, out);
    let segments = w.all_segments(store, process, Ghost(attached));
    tabulate_edges(&segments, out);
    proof {
        assert(is_supply_grid(
            rails_of(store, nets, devices, intent, process),
            contacts,
            &w,
            out,
        ));
        lemma_noded(rails.shapes(), metal_links(process.connectivity, contacts));
        lemma_noded(rails.shapes(), via_links(process.connectivity, contacts));
        assert forall|e: int| 0 <= e < out.edges() implies (#[trigger] out.edge_from@[e])
            < out.nodes() by {
            assert(segments@[e].from < w.taps.node@.len());
        }
        assert forall|e: int| 0 <= e < out.edges() implies (#[trigger] out.edge_to@[e])
            < out.nodes() by {
            assert(segments@[e].to < w.taps.node@.len());
        }
    }
    Ok(())
}

} // verus!
