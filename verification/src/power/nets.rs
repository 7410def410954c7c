//! One resistor network per net, from geometry and sheet resistance alone.
use crate::design::kept;
use crate::geom::{in_domain, Point};
use crate::model::{LayerId, NetId, PolyId};
use crate::number::Number;
use crate::order::{in_order, lemma_ordered, sort, Ranked};
use crate::power::attach::{devices_on, net_taps, push_devices};
use crate::power::network::{climbs, NetNetworks, PowerError};
use crate::power::process::{
    conductor_mask, connections, lemma_links_of, metal_links, via_links, Contacts, Link, Process,
};
use crate::power::taps::{answers, tap_point, tap_point_spec, Tap, TapTable};
use crate::power::wiring::{
    conducting, lemma_conducting, lemma_wired_len, links_in, links_name, places, push_centres,
    push_conducting, push_ends, shapes_distinct, shapes_in, wired_taps, Segment, Wiring,
};
use crate::store::{is_csr, DeviceTable, GeometryStore, NetTable};
use vstd::prelude::*;

verus! {

impl Ranked for Link {
    open spec fn rank(self) -> int {
        (self.a.0 * 0x1_0000_0000 + self.b.0) * 0x1_0000_0000 + self.layer.0
    }

    proof fn lemma_rank_is_own(a: Link, b: Link) {
    }

    fn not_after(self, other: Link) -> (r: bool) {
        if self.a.0 != other.a.0 {
            self.a.0 < other.a.0
        } else if self.b.0 != other.b.0 {
            self.b.0 < other.b.0
        } else {
            self.layer.0 <= other.layer.0
        }
    }
}

/// The links of a list whose first end is on net `n`.
pub open spec fn links_on(nets: &NetTable, links: Seq<Link>, n: int) -> Seq<Link>
    decreases links.len(),
{
    if links.len() == 0 {
        Seq::empty()
    } else {
        let before = links_on(nets, links.drop_last(), n);
        if nets.net_of@[links.last().a.0 as int].0 == n {
            before.push(links.last())
        } else {
            before
        }
    }
}

/// Everything the networks are extracted from.
#[derive(Clone, Copy)]
pub struct Signals<'a> {
    pub store: &'a GeometryStore,
    pub nets: &'a NetTable,
    pub devices: &'a DeviceTable,
    pub process: Process<'a>,
}

impl<'a> Signals<'a> {
    pub open spec fn wf(self) -> bool {
        &&& self.store.wf()
        &&& self.nets.wf(self.store.polys())
        &&& self.devices.wf(self.store.polys())
    }

    /// Whether a polygon lies on a conductor layer.
    pub open spec fn conducts(self, p: PolyId) -> bool {
        self.process.connectivity.conductors@.contains(self.store.layer@[p.0 as int])
    }

    /// The two ends of every link on a net are conducting polygons of that net.
    pub open spec fn joined_within(self, links: Seq<Link>) -> bool {
        forall|i: int|
            0 <= i < links.len() && self.nets.net_of@[(#[trigger] links[i]).a.0 as int].0
                < self.nets.nets() ==> self.nets.net_of@[links[i].b.0 as int]
                == self.nets.net_of@[links[i].a.0 as int] && self.conducts(links[i].a)
                && self.conducts(links[i].b)
    }

    /// The conducting shapes of net `n`.
    pub open spec fn shapes_of(self, n: int) -> Seq<PolyId> {
        conducting(self.store, self.process.connectivity, self.nets.members(n))
    }

    /// The connections of net `n` within conductor layers, sorted.
    pub open spec fn metal_of(self, contacts: &Contacts, n: int) -> Seq<Link> {
        in_order(links_on(self.nets, metal_links(self.process.connectivity, contacts), n))
    }

    /// The connections of net `n` through cuts, sorted.
    pub open spec fn via_of(self, contacts: &Contacts, n: int) -> Seq<Link> {
        in_order(links_on(self.nets, via_links(self.process.connectivity, contacts), n))
    }

    /// The taps the devices of net `n` make.
    pub open spec fn taps_of(self, n: int) -> Seq<Tap> {
        net_taps(self.store, self.devices, NetId(n as u32), self.shapes_of(n), 0)
    }

    /// The wiring of net `n`.
    pub open spec fn is_row(self, contacts: &Contacts, n: int, w: &Wiring) -> bool {
        &&& w.shapes@ == self.shapes_of(n)
        &&& w.metal@ == self.metal_of(contacts, n)
        &&& w.via@ == self.via_of(contacts, n)
        &&& w.wired(self.store, self.taps_of(n))
    }

    /// How many taps net `n` asks for, and joints it has: a link asks for two taps and
    /// is a joint itself.
    pub open spec fn asked(self, contacts: &Contacts, n: int) -> nat {
        self.shapes_of(n).len() + 3 * self.metal_of(contacts, n).len() + 3 * self.via_of(
            contacts,
            n,
        ).len() + self.taps_of(n).len()
    }

    /// How many taps and joints the first `n` nets have.
    pub open spec fn asked_to(self, contacts: &Contacts, n: nat) -> nat
        decreases n,
    {
        if n == 0 {
            0
        } else {
            self.asked_to(contacts, (n - 1) as nat) + self.asked(contacts, n - 1)
        }
    }

    /// The networks have few enough nodes and edges to number.
    pub open spec fn fits(self, contacts: &Contacts) -> bool {
        self.asked_to(contacts, self.nets.nets() as nat) < 0xFFFF_FFFF
    }
}

/// Whether a device attaches at node `i`.
pub open spec fn tapped(w: &Wiring, i: int) -> bool {
    exists|q: int|
        w.attach_base() <= q < w.taps.req_node@.len() && (#[trigger] w.taps.req_node@[q]) == i
}

/// The nodes devices attach at, ascending: a node named twice would make one
/// probe appear twice.
pub open spec fn terminals_of(w: &Wiring) -> Seq<u32> {
    kept(w.taps.node@.len(), |i: int| tapped(w, i))
}

/// The columns of a set of networks.
pub ghost struct Columns {
    pub net: Seq<NetId>,
    pub node_end: Seq<u32>,
    pub node_at: Seq<Point>,
    pub node_poly: Seq<PolyId>,
    pub terminal_end: Seq<u32>,
    pub terminal: Seq<u32>,
    pub edge_end: Seq<u32>,
    pub edge_from: Seq<u32>,
    pub edge_to: Seq<u32>,
    pub edge_resistance: Seq<Number>,
}

/// No network at all.
pub open spec fn no_columns() -> Columns {
    Columns {
        net: Seq::empty(),
        node_end: Seq::empty(),
        node_at: Seq::empty(),
        node_poly: Seq::empty(),
        terminal_end: Seq::empty(),
        terminal: Seq::empty(),
        edge_end: Seq::empty(),
        edge_from: Seq::empty(),
        edge_to: Seq::empty(),
        edge_resistance: Seq::empty(),
    }
}

/// The positions of a wiring's nodes.
pub open spec fn points_of(store: &GeometryStore, w: &Wiring) -> Seq<Point> {
    Seq::new(
        w.taps.node@.len(),
        |i: int|
            tap_point_spec(
                store.bbox@[w.shapes@[w.taps.node@[i].shape as int].0 as int],
                w.taps.node@[i].along as int,
            ),
    )
}

/// The polygon of each of a wiring's nodes.
pub open spec fn polys_of(w: &Wiring) -> Seq<PolyId> {
    Seq::new(w.taps.node@.len(), |i: int| w.shapes@[w.taps.node@[i].shape as int])
}

/// The columns with one more network.
pub open spec fn with_row(
    before: Columns,
    store: &GeometryStore,
    net: NetId,
    w: &Wiring,
    segments: Seq<Segment>,
) -> Columns {
    let node_at = before.node_at + points_of(store, w);
    let terminal = before.terminal + terminals_of(w);
    let edge_from = before.edge_from + Seq::new(segments.len(), |i: int| segments[i].from);
    Columns {
        net: before.net.push(net),
        node_end: before.node_end.push(node_at.len() as u32),
        node_at,
        node_poly: before.node_poly + polys_of(w),
        terminal_end: before.terminal_end.push(terminal.len() as u32),
        terminal,
        edge_end: before.edge_end.push(edge_from.len() as u32),
        edge_from,
        edge_to: before.edge_to + Seq::new(segments.len(), |i: int| segments[i].to),
        edge_resistance: before.edge_resistance + Seq::new(
            segments.len(),
            |i: int| segments[i].resistance,
        ),
    }
}

impl<'a> Signals<'a> {
    /// The networks of the first `n` nets: one for each net with at least two
    /// attach points. A net with fewer has no pair to measure, and so no row.
    pub open spec fn columns_to(self, ws: Seq<Wiring>, n: nat) -> Columns
        decreases n,
    {
        if n == 0 {
            no_columns()
        } else {
            let before = self.columns_to(ws, (n - 1) as nat);
            let w = ws[n - 1];
            if terminals_of(&w).len() < 2 {
                before
            } else {
                with_row(
                    before,
                    self.store,
                    NetId((n - 1) as u32),
                    &w,
                    w.segments(self.store, self.process),
                )
            }
        }
    }

    /// One wiring per net, each that net's own.
    pub open spec fn are_rows(self, contacts: &Contacts, ws: Seq<Wiring>) -> bool {
        &&& ws.len() == self.nets.nets()
        &&& forall|n: int| 0 <= n < ws.len() ==> self.is_row(contacts, n, #[trigger] &ws[n])
    }
}

/// The table holds a set of columns; its offsets have a leading zero once there
/// is a row.
pub open spec fn tabulates(out: &NetNetworks, c: Columns) -> bool {
    &&& out.net@ == c.net
    &&& out.node_at@ == c.node_at
    &&& out.node_poly@ == c.node_poly
    &&& out.terminal@ == c.terminal
    &&& out.edge_from@ == c.edge_from
    &&& out.edge_to@ == c.edge_to
    &&& out.edge_resistance@ == c.edge_resistance
    &&& out.node_start@ == offsets(c.node_end)
    &&& out.terminal_start@ == offsets(c.terminal_end)
    &&& out.edge_start@ == offsets(c.edge_end)
}

pub open spec fn offsets(end: Seq<u32>) -> Seq<u32> {
    if end.len() == 0 { Seq::empty() } else { seq![0u32] + end }
}

/// The networks extracted from a layout.
pub open spec fn are_networks(
    signals: Signals,
    contacts: &Contacts,
    ws: Seq<Wiring>,
    out: &NetNetworks,
) -> bool {
    &&& signals.are_rows(contacts, ws)
    &&& tabulates(out, signals.columns_to(ws, signals.nets.nets() as nat))
}

/// The links of a net, each listed with its net.
proof fn lemma_links_on(nets: &NetTable, links: Seq<Link>, n: int)
    ensures
        links_on(nets, links, n).len() <= links.len(),
        forall|i: int|
            0 <= i < links_on(nets, links, n).len() ==> links.contains(
                #[trigger] links_on(nets, links, n)[i],
            ) && nets.net_of@[links_on(nets, links, n)[i].a.0 as int].0 == n,
    decreases links.len(),
{
    if links.len() > 0 {
        let rest = links.drop_last();
        lemma_links_on(nets, rest, n);
        let before = links_on(nets, rest, n);
        let now = links_on(nets, links, n);
        assert forall|i: int| 0 <= i < now.len() implies links.contains(#[trigger] now[i])
            && nets.net_of@[now[i].a.0 as int].0 == n by {
            if i < before.len() {
                assert(rest.contains(before[i]));
                let k = choose|k: int| 0 <= k < rest.len() && rest[k] == before[i];
                assert(links[k] == now[i]);
            } else {
                assert(links[links.len() - 1] == now[i]);
            }
        }
    }
}

impl<'a> Signals<'a> {
    /// What a net's shapes are: conducting polygons of the net, ascending.
    proof fn lemma_shapes(self, n: int)
        requires
            self.wf(),
            0 <= n < self.nets.nets(),
        ensures
            shapes_in(self.store, self.shapes_of(n)),
            shapes_distinct(self.shapes_of(n)),
            self.shapes_of(n).len() < 0xFFFF_FFFF,
            forall|i: int|
                0 <= i < self.shapes_of(n).len() ==> self.nets.net_of@[(
                #[trigger] self.shapes_of(n)[i]).0 as int].0 == n && self.conducts(
                    self.shapes_of(n)[i],
                ),
            forall|p: PolyId|
                p.0 < self.store.polys() && self.nets.net_of@[p.0 as int].0 == n && self.conducts(p)
                    ==> #[trigger] self.shapes_of(n).contains(p),
    {
        let members = self.nets.members(n);
        let shapes = self.shapes_of(n);
        lemma_conducting(self.store, self.process.connectivity, members);
        assert forall|i: int, j: int| 0 <= i < j < members.len() implies (#[trigger] members[i]).0
            < (#[trigger] members[j]).0 by {
            assert(self.nets.members(n)[i].0 < self.nets.members(n)[j].0);
        }
        assert forall|i: int| 0 <= i < shapes.len() implies (#[trigger] shapes[i]).0
            < self.store.polys() && self.nets.net_of@[shapes[i].0 as int].0 == n && self.conducts(
            shapes[i],
        ) by {
            assert(shapes.contains(shapes[i]));
            let k = choose|k: int| 0 <= k < members.len() && members[k] == shapes[i];
            assert(self.nets.net_of@[self.nets.members(n)[k].0 as int].0 == n);
            assert(members[k] == self.nets.poly@[self.nets.poly_start@[n] + k]);
        }
        assert forall|i: int, j: int| 0 <= i < j < shapes.len() implies #[trigger] shapes[i]
            != #[trigger] shapes[j] by {
            assert(shapes[i].0 < shapes[j].0);
        }
        assert forall|p: PolyId|
            p.0 < self.store.polys() && self.nets.net_of@[p.0 as int].0 == n && self.conducts(
                p,
            ) implies #[trigger] shapes.contains(p) by {
            assert(self.nets.net_of@[p.0 as int].0 < self.nets.nets());
            assert(members.contains(PolyId(p.0 as int as u32)));
            assert(PolyId(p.0) == p);
        }
        assert(self.nets.poly_start@[n + 1] <= 0xFFFF_FFFF);
        if shapes.len() > 0 {
            // Ascending polygon numbers below the polygon count.
            lemma_ascending_len(shapes, self.store.polys());
        }
    }

    /// A net's links join its own shapes.
    proof fn lemma_links(self, links: Seq<Link>, n: int)
        requires
            self.wf(),
            0 <= n < self.nets.nets(),
            links_name(self.store, links),
            self.joined_within(links),
        ensures
            links_name(self.store, in_order(links_on(self.nets, links, n))),
            links_in(self.shapes_of(n), in_order(links_on(self.nets, links, n))),
            forall|i: int|
                0 <= i < in_order(links_on(self.nets, links, n)).len() ==> links.contains(
                    #[trigger] in_order(links_on(self.nets, links, n))[i],
                ),
    {
        let on = links_on(self.nets, links, n);
        let row = in_order(on);
        lemma_links_on(self.nets, links, n);
        lemma_ordered(on);
        self.lemma_shapes(n);
        assert forall|i: int| 0 <= i < row.len() implies links.contains(#[trigger] row[i])
            && row[i].a.0 < self.store.polys() && row[i].b.0 < self.store.polys()
            && self.shapes_of(n).contains(row[i].a) && self.shapes_of(n).contains(row[i].b) by {
            assert(on.contains(row[i]));
            let j = choose|j: int| 0 <= j < on.len() && on[j] == row[i];
            assert(links.contains(on[j]));
            let k = choose|k: int| 0 <= k < links.len() && links[k] == on[j];
            assert(links[k].a.0 < self.store.polys());
            assert(self.nets.net_of@[links[k].a.0 as int].0 == n);
            assert(self.conducts(links[k].a) && self.conducts(links[k].b));
        }
    }
}

proof fn lemma_ascending_len(shapes: Seq<PolyId>, polys: int)
    requires
        forall|i: int, j: int|
            0 <= i < j < shapes.len() ==> (#[trigger] shapes[i]).0 < (#[trigger] shapes[j]).0,
        forall|i: int| 0 <= i < shapes.len() ==> (#[trigger] shapes[i]).0 < polys,
        shapes.len() > 0,
    ensures
        shapes.len() <= shapes.last().0 + 1,
        shapes.len() <= polys,
    decreases shapes.len(),
{
    let rest = shapes.drop_last();
    if rest.len() > 0 {
        assert forall|i: int, j: int| 0 <= i < j < rest.len() implies (#[trigger] rest[i]).0 < (
        #[trigger] rest[j]).0 by {
            assert(shapes[i].0 < shapes[j].0);
        }
        assert forall|i: int| 0 <= i < rest.len() implies (#[trigger] rest[i]).0 < polys by {
            assert(shapes[i].0 < polys);
        }
        lemma_ascending_len(rest, polys);
        assert(shapes[rest.len() - 1].0 < shapes[rest.len() as int].0);
    }
}

/// The links of each net, in list order.
fn bucket(
    store: &GeometryStore,
    nets: &NetTable,
    links: &Vec<Link>,
) -> (r: Vec<Vec<Link>>)
    requires
        nets.wf(store.polys()),
        links_name(store, links@),
    ensures
        r@.len() == nets.nets(),
        forall|n: int| 0 <= n < nets.nets() ==> (#[trigger] r@[n])@ == links_on(nets, links@, n),
{
    let count: usize = nets.net_count();
    let mut r: Vec<Vec<Link>> = Vec::new();
    let mut n: usize = 0;
    while n < count
        invariant
            n <= count,
            r@.len() == n,
            forall|k: int| 0 <= k < n ==> (#[trigger] r@[k])@ == Seq::<Link>::empty(),
        decreases count - n,
    {
        let none: Vec<Link> = Vec::new();
        assert(none@ =~= Seq::<Link>::empty());
        r.push(none);
        n = n + 1;
    }
    if count == 0 {
        return r;
    }
    assert(links@.take(0) =~= Seq::<Link>::empty());
    let mut i: usize = 0;
    while i < links.len()
        invariant
            i <= links@.len(),
            count == nets.nets() > 0,
            nets.wf(store.polys()),
            links_name(store, links@),
            r@.len() == count,
            forall|n: int|
                0 <= n < count ==> (#[trigger] r@[n])@ == links_on(nets, links@.take(i as int), n),
        decreases links@.len() - i,
    {
        let link = links[i];
        assert(links@[i as int].a.0 < store.polys());
        let net: usize = nets.net_of[link.a.0 as usize].0 as usize;
        let ghost before = r@;
        assert(links@.take(i + 1).drop_last() =~= links@.take(i as int));
        if net < count {
            r[net].push(link);
        }
        proof {
            assert forall|n: int| 0 <= n < count implies (#[trigger] r@[n])@ == links_on(
                nets,
                links@.take(i + 1),
                n,
            ) by {
                assert(before[n]@ == links_on(nets, links@.take(i as int), n));
            }
        }
        i = i + 1;
    }
    assert(links@.take(i as int) =~= links@);
    r
}

/// The nodes devices attach at, ascending.
fn terminals(w: &Wiring, Ghost(store): Ghost<&GeometryStore>, Ghost(attached): Ghost<Seq<Tap>>) -> (r:
    Vec<u32>)
    requires
        w.wired(store, attached),
    ensures
        r@ == terminals_of(w),
        climbs(r@),
        forall|i: int| 0 <= i < r@.len() ==> (#[trigger] r@[i]) < w.taps.node@.len(),
        r@.len() <= w.taps.node@.len(),
{
    let nodes: usize = w.taps.node.len();
    let requests: usize = w.taps.req_node.len();
    proof {
        lemma_wired_len(store, w.shapes@, w.metal@, w.via@);
    }
    assert(w.attach_base() <= requests);
    let base: usize = w.shapes.len() + 2 * w.metal.len() + 2 * w.via.len();
    let mut mark: Vec<bool> = Vec::new();
    let mut i: usize = 0;
    while i < nodes
        invariant
            i <= nodes,
            mark@.len() == i,
            forall|k: int| 0 <= k < i ==> !(#[trigger] mark@[k]),
        decreases nodes - i,
    {
        mark.push(false);
        i = i + 1;
    }
    let mut q: usize = base;
    while q < requests
        invariant
            base <= q <= requests == w.taps.req_node@.len(),
            nodes == w.taps.node@.len(),
            base == w.attach_base(),
            w.wired(store, attached),
            mark@.len() == nodes,
            forall|k: int|
                0 <= k < nodes ==> (#[trigger] mark@[k]) == exists|p: int|
                    base <= p < q && (#[trigger] w.taps.req_node@[p]) == k,
        decreases requests - q,
    {
        assert(answers(w.taps.request@, w.taps.node@, w.taps.req_node@, q as int));
        let at: usize = w.taps.req_node[q] as usize;
        let ghost before = mark@;
        mark.set(at, true);
        proof {
            assert forall|k: int| 0 <= k < nodes implies (#[trigger] mark@[k]) == exists|p: int|
                base <= p < q + 1 && (#[trigger] w.taps.req_node@[p]) == k by {
                if k == at {
                    assert(w.taps.req_node@[q as int] == k);
                } else if before[k] {
                    let p = choose|p: int|
                        base <= p < q && (#[trigger] w.taps.req_node@[p]) == k;
                    assert(w.taps.req_node@[p] == k);
                }
            }
        }
        q = q + 1;
    }
    let mut r: Vec<u32> = Vec::new();
    let mut k: usize = 0;
    let ghost keep = |i: int| tapped(w, i);
    while k < nodes
        invariant
            k <= nodes < 0xFFFF_FFFF,
            nodes == mark@.len(),
            keep == |i: int| tapped(w, i),
            forall|i: int| 0 <= i < nodes ==> (#[trigger] mark@[i]) == tapped(w, i),
            r@ == kept(k as nat, keep),
            climbs(r@),
            r@.len() <= k,
            forall|i: int| 0 <= i < r@.len() ==> (#[trigger] r@[i]) < k,
        decreases nodes - k,
    {
        assert(mark@[k as int] == tapped(w, k as int));
        if mark[k] {
            r.push(k as u32);
        }
        k = k + 1;
    }
    r
}

impl<'a> Signals<'a> {
    proof fn lemma_asked(self, contacts: &Contacts, m: nat, n: nat)
        requires
            m <= n,
        ensures
            self.asked_to(contacts, m) <= self.asked_to(contacts, n),
        decreases n,
    {
        if m < n {
            self.lemma_asked(contacts, m, (n - 1) as nat);
        }
    }

    /// Every polygon's row among its own net's shapes.
    fn place_shapes(self, mask: &Vec<bool>) -> (r: Vec<u32>)
        requires
            self.wf(),
            mask@.len() == self.store.layers(),
            forall|l: int|
                0 <= l < self.store.layers() ==> #[trigger] mask@[l]
                    == self.process.connectivity.conductors@.contains(LayerId(l as u32)),
        ensures
            forall|n: int|
                0 <= n < self.nets.nets() ==> places(r@, #[trigger] self.shapes_of(n)),
    {
        let polys: usize = self.store.layer.len();
        let count: usize = self.nets.net_count();
        let mut table: Vec<u32> = Vec::new();
        let mut p: usize = 0;
        while p < polys
            invariant
                p <= polys,
                table@.len() == p,
            decreases polys - p,
        {
            table.push(0);
            p = p + 1;
        }
        let mut n: usize = 0;
        while n < count
            invariant
                n <= count == self.nets.nets(),
                polys == self.store.polys(),
                self.wf(),
                mask@.len() == self.store.layers(),
                forall|l: int|
                    0 <= l < self.store.layers() ==> #[trigger] mask@[l]
                        == self.process.connectivity.conductors@.contains(LayerId(l as u32)),
                table@.len() == polys,
                forall|m: int| 0 <= m < n ==> places(table@, #[trigger] self.shapes_of(m)),
            decreases count - n,
        {
            let members = self.nets.polys_of(n as u32, Ghost(self.store.polys()));
            let mut shapes: Vec<PolyId> = Vec::new();
            push_conducting(self.store, self.process.connectivity, mask, &members, &mut shapes);
            assert(shapes@ =~= self.shapes_of(n as int));
            proof {
                self.lemma_shapes(n as int);
            }
            let mut i: usize = 0;
            while i < shapes.len()
                invariant
                    i <= shapes@.len() < 0xFFFF_FFFF,
                    n < count == self.nets.nets(),
                    polys == self.store.polys(),
                    self.wf(),
                    shapes@ == self.shapes_of(n as int),
                    shapes_in(self.store, shapes@),
                    shapes_distinct(shapes@),
                    forall|i: int|
                        0 <= i < shapes@.len() ==> self.nets.net_of@[(
                        #[trigger] shapes@[i]).0 as int].0 == n,
                    table@.len() == polys,
                    forall|m: int| 0 <= m < n ==> places(table@, #[trigger] self.shapes_of(m)),
                    forall|k: int| 0 <= k < i ==> table@[(#[trigger] shapes@[k]).0 as int] == k,
                decreases shapes@.len() - i,
            {
                let poly = shapes[i];
                let ghost before = table@;
                assert(shapes@[i as int].0 < self.store.polys());
                table.set(poly.0 as usize, i as u32);
                proof {
                    assert forall|m: int| 0 <= m < n implies places(
                        table@,
                        #[trigger] self.shapes_of(m),
                    ) by {
                        self.lemma_shapes(m);
                        let other = self.shapes_of(m);
                        assert(places(before, other));
                        assert forall|k: int| 0 <= k < other.len() implies (
                        #[trigger] other[k]).0 < table@.len() && table@[other[k].0 as int]
                            == k by {
                            assert(self.nets.net_of@[other[k].0 as int].0 == m);
                            assert(before[other[k].0 as int] == k);
                        }
                    }
                    assert forall|k: int| 0 <= k < i + 1 implies table@[(
                    #[trigger] shapes@[k]).0 as int] == k by {
                        if k < i {
                            assert(shapes@[k] != shapes@[i as int]);
                        }
                    }
                }
                i = i + 1;
            }
            assert(places(table@, self.shapes_of(n as int)));
            n = n + 1;
        }
        table
    }

    /// The wiring of one net.
    fn wire_row(
        self,
        contacts: &Contacts,
        mask: &Vec<bool>,
        table: &Vec<u32>,
        n: u32,
        on_metal: &Vec<Link>,
        on_cuts: &Vec<Link>,
    ) -> (w: Wiring)
        requires
            self.wf(),
            n < self.nets.nets(),
            links_name(self.store, metal_links(self.process.connectivity, contacts)),
            links_name(self.store, via_links(self.process.connectivity, contacts)),
            self.joined_within(metal_links(self.process.connectivity, contacts)),
            self.joined_within(via_links(self.process.connectivity, contacts)),
            self.asked(contacts, n as int) < 0xFFFF_FFFF,
            mask@.len() == self.store.layers(),
            forall|l: int|
                0 <= l < self.store.layers() ==> #[trigger] mask@[l]
                    == self.process.connectivity.conductors@.contains(LayerId(l as u32)),
            places(table@, self.shapes_of(n as int)),
            on_metal@ == links_on(
                self.nets,
                metal_links(self.process.connectivity, contacts),
                n as int,
            ),
            on_cuts@ == links_on(
                self.nets,
                via_links(self.process.connectivity, contacts),
                n as int,
            ),
        ensures
            self.is_row(contacts, n as int, &w),
            w.taps.request@.len() + w.metal@.len() + w.via@.len() == self.asked(contacts, n as int),
    {
        let store = self.store;
        let members = self.nets.polys_of(n, Ghost(store.polys()));
        let mut shapes: Vec<PolyId> = Vec::new();
        push_conducting(store, self.process.connectivity, mask, &members, &mut shapes);
        assert(shapes@ =~= self.shapes_of(n as int));
        let metal = sort(on_metal);
        let through = sort(on_cuts);
        proof {
            self.lemma_shapes(n as int);
            self.lemma_links(metal_links(self.process.connectivity, contacts), n as int);
            self.lemma_links(via_links(self.process.connectivity, contacts), n as int);
            lemma_wired_len(store, shapes@, metal@, through@);
        }
        let mut taps = TapTable::new();
        push_centres(store, &shapes, &mut taps);
        push_ends(store, table, &metal, &mut taps, Ghost(shapes@));
        push_ends(store, table, &through, &mut taps, Ghost(shapes@));
        let ghost wired = taps.request@;
        assert(wired =~= wired_taps(store, shapes@, metal@, through@));
        let count: usize = shapes.len();
        if count > 0 {
            let on = devices_on(self.devices, NetId(n), Ghost(store.polys()));
            assert(shapes@.subrange(0, shapes@.len() as int) =~= shapes@);
            push_devices(store, self.devices, &shapes, 0, count, &on, &mut taps);
        } else {
            assert(taps.request@ =~= wired + self.taps_of(n as int));
        }
        assert(taps.request@ == wired + self.taps_of(n as int));
        taps.finish(count as u32);
        Wiring { shapes, metal, via: through, taps }
    }

    /// Every layer a net's wiring uses carries current.
    proof fn lemma_priced(self, contacts: &Contacts, n: int, w: &Wiring)
        requires
            self.wf(),
            0 <= n < self.nets.nets(),
            self.is_row(contacts, n, w),
            self.process.all_usable(),
            links_name(self.store, metal_links(self.process.connectivity, contacts)),
            links_name(self.store, via_links(self.process.connectivity, contacts)),
            self.joined_within(metal_links(self.process.connectivity, contacts)),
            self.joined_within(via_links(self.process.connectivity, contacts)),
        ensures
            w.priced(self.store, self.process),
    {
        let connectivity = self.process.connectivity;
        let carrying = connectivity.carrying();
        self.lemma_shapes(n);
        assert forall|layer: LayerId|
            connectivity.conductors@.contains(layer) || connectivity.via_cut@.contains(
                layer,
            ) implies #[trigger] self.process.usable(layer) by {
            if connectivity.conductors@.contains(layer) {
                let k = choose|k: int|
                    0 <= k < connectivity.conductors@.len() && connectivity.conductors@[k] == layer;
                assert(carrying[k] == layer);
            } else {
                let k = choose|k: int|
                    0 <= k < connectivity.via_cut@.len() && connectivity.via_cut@[k] == layer;
                assert(carrying[connectivity.conductors@.len() + k] == layer);
            }
        }
        let metal = metal_links(connectivity, contacts);
        let cuts = via_links(connectivity, contacts);
        self.lemma_links(metal, n);
        self.lemma_links(cuts, n);
        lemma_links_of(connectivity.conductors@, contacts.touch@, connectivity.conductors@.len());
        lemma_links_of(connectivity.via_cut@, contacts.cut@, connectivity.via_cut@.len());
        assert forall|i: int| 0 <= i < w.metal@.len() implies self.process.usable(
            (#[trigger] w.metal@[i]).layer,
        ) by {
            assert(metal.contains(w.metal@[i]));
            let k = choose|k: int| 0 <= k < metal.len() && metal[k] == w.metal@[i];
            assert(connectivity.conductors@.contains(metal[k].layer));
        }
        assert forall|i: int| 0 <= i < w.via@.len() implies self.process.usable(
            (#[trigger] w.via@[i]).layer,
        ) by {
            assert(cuts.contains(w.via@[i]));
            let k = choose|k: int| 0 <= k < cuts.len() && cuts[k] == w.via@[i];
            assert(connectivity.via_cut@.contains(cuts[k].layer));
        }
        assert forall|i: int| 0 <= i < w.shapes@.len() implies self.process.usable(
            self.store.layer@[(#[trigger] w.shapes@[i]).0 as int],
        ) by {
            assert(self.conducts(self.shapes_of(n)[i]));
        }
    }
}

/// A table under construction: its offsets have their leading zero already.
pub open spec fn growing(out: &NetNetworks) -> bool {
    &&& out.wf()
    &&& is_csr(out.node_start@, out.rows(), out.node_at@.len() as int)
    &&& is_csr(out.terminal_start@, out.rows(), out.terminal@.len() as int)
    &&& is_csr(out.edge_start@, out.rows(), out.edge_from@.len() as int)
}

/// The table under construction holds a set of columns.
pub open spec fn grows_to(out: &NetNetworks, c: Columns) -> bool {
    &&& out.net@ == c.net
    &&& out.node_at@ == c.node_at
    &&& out.node_poly@ == c.node_poly
    &&& out.terminal@ == c.terminal
    &&& out.edge_from@ == c.edge_from
    &&& out.edge_to@ == c.edge_to
    &&& out.edge_resistance@ == c.edge_resistance
    &&& out.node_start@ == seq![0u32] + c.node_end
    &&& out.terminal_start@ == seq![0u32] + c.terminal_end
    &&& out.edge_start@ == seq![0u32] + c.edge_end
}

proof fn lemma_csr_push(start: Seq<u32>, rows: int, total: int, end: u32)
    requires
        is_csr(start, rows, total),
        rows >= 0,
        total <= end,
    ensures
        is_csr(start.push(end), rows + 1, end as int),
{
    let now = start.push(end);
    assert forall|i: int, j: int| 0 <= i <= j <= rows + 1 implies now[i] <= now[j] by {
        if j == rows + 1 && i <= rows {
            assert(start[i] <= start[rows]);
        }
    }
}

fn push_nodes(
    store: &GeometryStore,
    w: &Wiring,
    out: &mut NetNetworks,
    Ghost(attached): Ghost<Seq<Tap>>,
)
    requires
        store.wf(),
        w.wired(store, attached),
    ensures
        final(out).node_at@ == old(out).node_at@ + points_of(store, w),
        final(out).node_poly@ == old(out).node_poly@ + polys_of(w),
        final(out).net == old(out).net,
        final(out).node_start == old(out).node_start,
        final(out).terminal_start == old(out).terminal_start,
        final(out).terminal == old(out).terminal,
        final(out).edge_start == old(out).edge_start,
        final(out).edge_from == old(out).edge_from,
        final(out).edge_to == old(out).edge_to,
        final(out).edge_resistance == old(out).edge_resistance,
{
    proof {
        w.lemma_nodes_in_domain(store, attached);
    }
    let n: usize = w.taps.node.len();
    let mut i: usize = 0;
    assert(out.node_at@ =~= old(out).node_at@ + points_of(store, w).take(0));
    assert(out.node_poly@ =~= old(out).node_poly@ + polys_of(w).take(0));
    while i < n
        invariant
            i <= n == w.taps.node@.len(),
            store.wf(),
            w.wired(store, attached),
            forall|k: int|
                0 <= k < n ==> in_domain((#[trigger] w.taps.node@[k]).along as int)
                    && w.taps.node@[k].shape < w.shapes@.len(),
            out.node_at@ == old(out).node_at@ + points_of(store, w).take(i as int),
            out.node_poly@ == old(out).node_poly@ + polys_of(w).take(i as int),
            out.net == old(out).net,
            out.node_start == old(out).node_start,
            out.terminal_start == old(out).terminal_start,
            out.terminal == old(out).terminal,
            out.edge_start == old(out).edge_start,
            out.edge_from == old(out).edge_from,
            out.edge_to == old(out).edge_to,
            out.edge_resistance == old(out).edge_resistance,
        decreases n - i,
    {
        let tap = w.taps.node[i];
        let poly = w.shapes[tap.shape as usize];
        let at = tap_point(store.poly_bbox(poly), tap.along);
        out.node_poly.push(poly);
        out.node_at.push(at);
        i = i + 1;
        assert(out.node_at@ =~= old(out).node_at@ + points_of(store, w).take(i as int));
        assert(out.node_poly@ =~= old(out).node_poly@ + polys_of(w).take(i as int));
    }
    assert(points_of(store, w).take(i as int) =~= points_of(store, w));
    assert(polys_of(w).take(i as int) =~= polys_of(w));
}

fn push_edges(segments: &Vec<Segment>, out: &mut NetNetworks)
    ensures
        final(out).edge_from@ == old(out).edge_from@ + Seq::new(
            segments@.len(),
            |i: int| segments@[i].from,
        ),
        final(out).edge_to@ == old(out).edge_to@ + Seq::new(
            segments@.len(),
            |i: int| segments@[i].to,
        ),
        final(out).edge_resistance@ == old(out).edge_resistance@ + Seq::new(
            segments@.len(),
            |i: int| segments@[i].resistance,
        ),
        final(out).net == old(out).net,
        final(out).node_start == old(out).node_start,
        final(out).node_at == old(out).node_at,
        final(out).node_poly == old(out).node_poly,
        final(out).terminal_start == old(out).terminal_start,
        final(out).terminal == old(out).terminal,
        final(out).edge_start == old(out).edge_start,
{
    let n: usize = segments.len();
    let mut i: usize = 0;
    while i < n
        invariant
            i <= n == segments@.len(),
            out.edge_from@ =~= old(out).edge_from@ + Seq::new(i as nat, |k: int| segments@[k].from),
            out.edge_to@ =~= old(out).edge_to@ + Seq::new(i as nat, |k: int| segments@[k].to),
            out.edge_resistance@ =~= old(out).edge_resistance@ + Seq::new(
                i as nat,
                |k: int| segments@[k].resistance,
            ),
            out.net == old(out).net,
            out.node_start == old(out).node_start,
            out.node_at == old(out).node_at,
            out.node_poly == old(out).node_poly,
            out.terminal_start == old(out).terminal_start,
            out.terminal == old(out).terminal,
            out.edge_start == old(out).edge_start,
        decreases n - i,
    {
        let s = segments[i];
        out.edge_from.push(s.from);
        out.edge_to.push(s.to);
        out.edge_resistance.push(s.resistance);
        i = i + 1;
    }
}

/// Append one net's network.
fn push_row(
    store: &GeometryStore,
    net: u32,
    w: &Wiring,
    terminal: &Vec<u32>,
    segments: &Vec<Segment>,
    out: &mut NetNetworks,
    Ghost(attached): Ghost<Seq<Tap>>,
    Ghost(c): Ghost<Columns>,
)
    requires
        store.wf(),
        w.wired(store, attached),
        growing(old(out)),
        grows_to(old(out), c),
        old(out).rows() <= net < 0xFFFF_FFFE,
        forall|k: int| 0 <= k < old(out).rows() ==> (#[trigger] old(out).net@[k]).0 < net,
        old(out).taps_in(store.polys()),
        terminal@ == terminals_of(w),
        climbs(terminal@),
        forall|i: int| 0 <= i < terminal@.len() ==> (#[trigger] terminal@[i]) < w.taps.node@.len(),
        forall|i: int|
            0 <= i < segments@.len() ==> (#[trigger] segments@[i]).from < w.taps.node@.len()
                && segments@[i].to < w.taps.node@.len(),
        old(out).node_at@.len() + w.taps.node@.len() < 0xFFFF_FFFF,
        old(out).terminal@.len() + terminal@.len() <= 0xFFFF_FFFF,
        old(out).edge_from@.len() + segments@.len() <= 0xFFFF_FFFF,
    ensures
        growing(final(out)),
        grows_to(final(out), with_row(c, store, NetId(net), w, segments@)),
        final(out).taps_in(store.polys()),
{
    let ghost was = *out;
    out.net.push(NetId(net));
    push_nodes(store, w, out, Ghost(attached));
    let mut i: usize = 0;
    assert(out.terminal@ =~= was.terminal@ + terminal@.take(0));
    while i < terminal.len()
        invariant
            i <= terminal@.len(),
            out.terminal@ == was.terminal@ + terminal@.take(i as int),
            out.net@ == was.net@.push(NetId(net)),
            out.node_at@ == was.node_at@ + points_of(store, w),
            out.node_poly@ == was.node_poly@ + polys_of(w),
            out.node_start == was.node_start,
            out.terminal_start == was.terminal_start,
            out.edge_start == was.edge_start,
            out.edge_from == was.edge_from,
            out.edge_to == was.edge_to,
            out.edge_resistance == was.edge_resistance,
        decreases terminal@.len() - i,
    {
        out.terminal.push(terminal[i]);
        i = i + 1;
        assert(out.terminal@ =~= was.terminal@ + terminal@.take(i as int));
    }
    assert(terminal@.take(i as int) =~= terminal@);
    push_edges(segments, out);
    let nodes: u32 = out.node_at.len() as u32;
    let terminals: u32 = out.terminal.len() as u32;
    let edges: u32 = out.edge_from.len() as u32;
    out.node_start.push(nodes);
    out.terminal_start.push(terminals);
    out.edge_start.push(edges);
    proof {
        let rows = was.rows();
        lemma_csr_push(was.node_start@, rows, was.node_at@.len() as int, nodes);
        lemma_csr_push(was.terminal_start@, rows, was.terminal@.len() as int, terminals);
        lemma_csr_push(was.edge_start@, rows, was.edge_from@.len() as int, edges);
        let next = with_row(c, store, NetId(net), w, segments@);
        assert(out.node_start@ =~= seq![0u32] + next.node_end);
        assert(out.terminal_start@ =~= seq![0u32] + next.terminal_end);
        assert(out.edge_start@ =~= seq![0u32] + next.edge_end);
        assert forall|r: int| 0 <= r < out.rows() implies climbs(#[trigger] out.terminals(r))
            && (forall|k: int|
            0 <= k < out.terminals(r).len() ==> (#[trigger] out.terminals(r)[k]) < out.node_len(
                r,
            )) by {
            if r < rows {
                assert(was.terminal_start@[r] <= was.terminal_start@[r + 1]
                    <= was.terminal_start@[rows]);
                assert(out.terminals(r) =~= was.terminals(r));
                assert(out.node_len(r) == was.node_len(r));
                assert forall|k: int| 0 <= k < out.terminals(r).len() implies (
                #[trigger] out.terminals(r)[k]) < out.node_len(r) by {
                    assert(was.terminals(r)[k] < was.node_len(r));
                }
            } else {
                assert(out.terminals(r) =~= terminal@);
                assert(out.node_len(r) == w.taps.node@.len());
            }
        }
        assert forall|r: int, e: int|
            #![trigger out.edge_lo(r), out.edge_from@[e]]
            #![trigger out.edge_lo(r), out.edge_to@[e]]
            0 <= r < out.rows() && out.edge_lo(r) <= e < out.edge_hi(r) implies out.edge_from@[e]
            < out.node_len(r) && out.edge_to@[e] < out.node_len(r) by {
            if r < rows {
                assert(was.edge_start@[r + 1] <= was.edge_start@[rows]);
                assert(out.node_len(r) == was.node_len(r));
                assert(was.edge_lo(r) <= e < was.edge_hi(r));
                assert(was.edge_from@[e] < was.node_len(r));
            } else {
                let k = e - was.edge_from@.len();
                assert(segments@[k].from < w.taps.node@.len());
                assert(out.node_len(r) == w.taps.node@.len());
            }
        }
        w.lemma_nodes_in_domain(store, attached);
        assert forall|k: int| 0 <= k < out.node_poly@.len() implies (
        #[trigger] out.node_poly@[k]).0 < store.polys() by {
            if k < was.node_poly@.len() {
                assert(was.node_poly@[k].0 < store.polys());
            } else {
                let i = k - was.node_poly@.len();
                assert(w.taps.node@[i].shape < w.shapes@.len());
                assert(w.shapes@[w.taps.node@[i].shape as int].0 < store.polys());
            }
        }
        assert forall|i: int, j: int| 0 <= i < j < out.net@.len() implies out.net@[i].0
            < out.net@[j].0 by {
            if j < rows {
                assert(was.net@[i].0 < was.net@[j].0);
            } else {
                assert(was.net@[i].0 < net);
            }
        }
    }
}

/// The inputs of an extraction, as one value.
pub open spec fn signals_of<'a>(
    store: &'a GeometryStore,
    nets: &'a NetTable,
    devices: &'a DeviceTable,
    process: Process<'a>,
) -> Signals<'a> {
    Signals { store, nets, devices, process }
}

/// Extract one resistor network per net with at least two device attach points.
///
/// Rows come ascending by net, and within a row the connections are sorted, so
/// the result is a function of the layout and not of the order a scan ran in.
/// Design intent plays no part. Nothing is written unless every layer that
/// carries current has a usable sheet resistance.
pub fn extract_nets_into(
    store: &GeometryStore,
    nets: &NetTable,
    devices: &DeviceTable,
    process: Process,
    contacts: &Contacts,
    out: &mut NetNetworks,
) -> (r: Result<(), PowerError>)
    requires
        signals_of(store, nets, devices, process).wf(),
        contacts.fits(process.connectivity),
        links_name(store, metal_links(process.connectivity, contacts)),
        links_name(store, via_links(process.connectivity, contacts)),
        signals_of(store, nets, devices, process).joined_within(
            metal_links(process.connectivity, contacts),
        ),
        signals_of(store, nets, devices, process).joined_within(
            via_links(process.connectivity, contacts),
        ),
        signals_of(store, nets, devices, process).fits(contacts),
    ensures
        r is Ok <==> process.all_usable(),
        r is Err ==> exists|k: int| #[trigger]
            process.first_unusable(k) && r->Err_0 == PowerError::NoSheetResistance(
                process.connectivity.carrying()[k],
            ),
        r is Err ==> final(out).blank(),
        r is Ok ==> exists|ws: Seq<Wiring>| #[trigger]
            are_networks(signals_of(store, nets, devices, process), contacts, ws, final(out)),
        final(out).wf(),
        final(out).taps_in(store.polys()),
{
    *out = NetNetworks::default();
    match process.check_sheets() {
        Err(e) => {
            return Err(e);
        },
        Ok(_) => {},
    }
    let signals = Signals { store, nets, devices, process };
    let mask = conductor_mask(process.connectivity, store.layer_count());
    let table = signals.place_shapes(&mask);
    let links = connections(process.connectivity, contacts);
    let metal = bucket(store, nets, &links.metal);
    let through = bucket(store, nets, &links.via);
    let count: usize = nets.net_count();
    out.node_start.push(0);
    out.terminal_start.push(0);
    out.edge_start.push(0);
    let ghost mut ws: Seq<Wiring> = Seq::empty();
    proof {
        let c = no_columns();
        assert(out.node_start@ =~= seq![0u32] + c.node_end);
        assert(out.terminal_start@ =~= seq![0u32] + c.terminal_end);
        assert(out.edge_start@ =~= seq![0u32] + c.edge_end);
        assert(grows_to(out, signals.columns_to(ws, 0)));
    }
    let mut n: usize = 0;
    while n < count
        invariant
            n <= count == nets.nets(),
            signals == signals_of(store, nets, devices, process),
            signals.wf(),
            contacts.fits(process.connectivity),
            process.all_usable(),
            links_name(store, metal_links(process.connectivity, contacts)),
            links_name(store, via_links(process.connectivity, contacts)),
            signals.joined_within(metal_links(process.connectivity, contacts)),
            signals.joined_within(via_links(process.connectivity, contacts)),
            signals.fits(contacts),
            mask@.len() == store.layers(),
            forall|l: int|
                0 <= l < store.layers() ==> #[trigger] mask@[l]
                    == process.connectivity.conductors@.contains(LayerId(l as u32)),
            forall|n: int| 0 <= n < nets.nets() ==> places(table@, #[trigger] signals.shapes_of(n)),
            metal@.len() == nets.nets(),
            through@.len() == nets.nets(),
            forall|n: int|
                0 <= n < nets.nets() ==> (#[trigger] metal@[n])@ == links_on(
                    nets,
                    metal_links(process.connectivity, contacts),
                    n,
                ),
            forall|n: int|
                0 <= n < nets.nets() ==> (#[trigger] through@[n])@ == links_on(
                    nets,
                    via_links(process.connectivity, contacts),
                    n,
                ),
            growing(out),
            out.taps_in(store.polys()),
            out.rows() <= n,
            forall|k: int| 0 <= k < out.rows() ==> (#[trigger] out.net@[k]).0 < n,
            ws.len() == n,
            forall|m: int| 0 <= m < n ==> signals.is_row(contacts, m, #[trigger] &ws[m]),
            grows_to(out, signals.columns_to(ws, n as nat)),
            out.node_at@.len() <= signals.asked_to(contacts, n as nat),
            out.terminal@.len() <= signals.asked_to(contacts, n as nat),
            out.edge_from@.len() <= signals.asked_to(contacts, n as nat),
        decreases count - n,
    {
        proof {
            signals.lemma_asked(contacts, (n + 1) as nat, nets.nets() as nat);
        }
        assert(places(table@, signals.shapes_of(n as int)));
        let w = signals.wire_row(contacts, &mask, &table, n as u32, &metal[n], &through[n]);
        let ghost attached = signals.taps_of(n as int);
        let ghost before = ws;
        let ghost c = signals.columns_to(ws, n as nat);
        proof {
            ws = ws.push(w);
            lemma_columns(signals, before, ws, n as nat);
            assert forall|m: int| 0 <= m < n + 1 implies signals.is_row(
                contacts,
                m,
                #[trigger] &ws[m],
            ) by {
                if m < n {
                    assert(signals.is_row(contacts, m, &before[m]));
                }
            }
        }
        let terminal = terminals(&w, Ghost(store), Ghost(attached));
        if terminal.len() >= 2 {
            proof {
                signals.lemma_priced(contacts, n as int, &w);
                w.lemma_segments(store, process, attached);
            }
            let segments = w.all_segments(store, process, Ghost(attached));
            push_row(
                store,
                n as u32,
                &w,
                &terminal,
                &segments,
                out,
                Ghost(attached),
                Ghost(c),
            );
        }
        n = n + 1;
    }
    if out.net.len() == 0 {
        out.node_start = Vec::new();
        out.terminal_start = Vec::new();
        out.edge_start = Vec::new();
    }
    proof {
        let c = signals.columns_to(ws, nets.nets() as nat);
        assert(out.node_start@ =~= offsets(c.node_end));
        assert(out.terminal_start@ =~= offsets(c.terminal_end));
        assert(out.edge_start@ =~= offsets(c.edge_end));
        assert(are_networks(signals_of(store, nets, devices, process), contacts, ws, out));
    }
    Ok(())
}

/// The columns of the first nets depend on their own wirings alone.
proof fn lemma_columns(signals: Signals, a: Seq<Wiring>, b: Seq<Wiring>, n: nat)
    requires
        n <= a.len(),
        n <= b.len(),
        forall|i: int| 0 <= i < n ==> #[trigger] a[i] == b[i],
    ensures
        signals.columns_to(a, n) == signals.columns_to(b, n),
    decreases n,
{
    if n > 0 {
        lemma_columns(signals, a, b, (n - 1) as nat);
        assert(a[n - 1] == b[n - 1]);
    }
}

} // verus!
