//! Pad discharge paths and latch-up guard rings.
use crate::design::Design;
use crate::distance::{dist2_points, point_dist2};
use crate::geom::{centre, centre_of, max_int, min_int, Bbox, Point};
use crate::intent::{net_row, IntentMap};
use crate::model::{LayerId, NetId, PolyId, StrId, NO_NET};
use crate::number::Number;
use crate::paths::{find_key, lowest, lowest_cost, resistive, PathEdge};
use crate::power::sounding::{probe_rows, sounds};
use crate::power::network::NetNetworks;
use crate::report::{
    all_ended, all_found, all_runs, ended, lemma_all_ended, lemma_next_row, record_run,
    skip_rows, LimitSense, Measurement, Outcome, RowResult, RuleRun, SkipReason, Violation,
    Violations,
};
use crate::rules::electrical::probes_fit;
use crate::ruleset::RuleHead;
use crate::sorted::{ascending, sorted_distinct};
use crate::store::{is_csr, GeometryStore};
use vstd::prelude::*;

verus! {

/// Pad discharge paths and guard rings: two failures over one set of inputs.
pub struct EsdLatchupTable {
    pub head: RuleHead,
    /// Layer whose polygons are bond pads.
    pub pad: Vec<LayerId>,
    /// Layer whose polygons are guard rings.
    pub guard_ring: Vec<LayerId>,
    /// `clamp_*[clamp_start[i] .. clamp_start[i + 1]]` are row `i`'s acceptable
    /// clamps.
    pub clamp_start: Vec<u32>,
    pub clamp_model: Vec<StrId>,
    /// On-resistance, in ohms.
    pub clamp_resistance: Vec<Number>,
    /// Milliamps.
    pub clamp_capacity: Vec<Number>,
    /// Highest voltage the clamp lets the protected node reach, in millivolts.
    pub clamp_voltage: Vec<Number>,
    /// The discharge event a path must carry, in milliamps.
    pub required_current: Vec<Number>,
    /// Ohms.
    pub max_path_resistance: Vec<Number>,
    /// Millivolts.
    pub max_clamp_voltage: Vec<Number>,
    pub min_guard_ring_width: Vec<i64>,
    /// Furthest a guard ring may be from a supply.
    pub max_tap_distance: Vec<i64>,
}

impl EsdLatchupTable {
    pub open spec fn wf(&self, layers: int) -> bool {
        let rows = self.head.rows();
        let clamps = self.clamp_model@.len();
        &&& self.head.wf()
        &&& self.pad@.len() == rows
        &&& self.guard_ring@.len() == rows
        &&& self.required_current@.len() == rows
        &&& self.max_path_resistance@.len() == rows
        &&& self.max_clamp_voltage@.len() == rows
        &&& self.min_guard_ring_width@.len() == rows
        &&& self.max_tap_distance@.len() == rows
        &&& self.clamp_resistance@.len() == clamps
        &&& self.clamp_capacity@.len() == clamps
        &&& self.clamp_voltage@.len() == clamps
        &&& rows > 0 ==> is_csr(self.clamp_start@, rows, clamps as int)
        &&& forall|k: int|
            0 <= k < clamps ==> (#[trigger] self.clamp_resistance@[k]).grounded()
        &&& forall|r: int| 0 <= r < rows ==> (#[trigger] self.pad@[r]).0 < layers
        &&& forall|r: int| 0 <= r < rows ==> (#[trigger] self.guard_ring@[r]).0 < layers
    }
}

/// A point of the discharge graph: a net, and one terminal of its network.
///
/// A terminal and not a net, because two attach points of one net may have no
/// interconnect between them at all.
pub open spec fn key_of(net: u32, terminal: u32) -> u64 {
    (net * 0x1_0000_0000 + terminal) as u64
}

pub open spec fn key_net(key: u64) -> u32 {
    (key / 0x1_0000_0000) as u32
}

pub open spec fn key_terminal(key: u64) -> u32 {
    (key % 0x1_0000_0000) as u32
}

proof fn lemma_key(net: u32, terminal: u32)
    ensures
        key_net(key_of(net, terminal)) == net,
        key_terminal(key_of(net, terminal)) == terminal,
        key_of(net, terminal) == net * 0x1_0000_0000 + terminal,
{
}

proof fn lemma_key_back(key: u64)
    ensures
        key_of(key_net(key), key_terminal(key)) == key,
{
}

fn make_key(net: u32, terminal: u32) -> (r: u64)
    ensures
        r == key_of(net, terminal),
{
    net as u64 * 0x1_0000_0000 + terminal as u64
}

/// One row of the rule, with everything it reads.
#[derive(Clone, Copy)]
pub struct LatchupRow<'a> {
    pub design: Design<'a>,
    pub intent: &'a IntentMap,
    pub networks: &'a NetNetworks,
    pub probes: &'a Vec<Option<Vec<(u32, u32, Number)>>>,
    pub table: &'a EsdLatchupTable,
    pub row: usize,
}

/// The nearest of a network's first `n` terminals to a point, with its squared
/// distance; the earliest of equal ones.
pub open spec fn closest(
    store: &GeometryStore,
    networks: &NetNetworks,
    r: int,
    marker: Point,
    n: nat,
) -> Option<(int, u32)>
    decreases n,
{
    if n == 0 {
        None
    } else {
        let t = networks.terminals(r)[n - 1];
        let at = centre_of(store.bbox@[networks.shapes(r)[t as int].0 as int]);
        let d = point_dist2(at, marker);
        match closest(store, networks, r, marker, (n - 1) as nat) {
            None => Some((d, t)),
            Some((best, held)) => if d < best { Some((d, t)) } else { Some((best, held)) },
        }
    }
}

/// Which terminal of a net's network a device at a point attaches to; zero for
/// a net with no network.
pub open spec fn attach_spec(
    store: &GeometryStore,
    networks: &NetNetworks,
    net: NetId,
    marker: Point,
) -> u32 {
    match net_row(networks.net@, net) {
        None => 0,
        Some(r) => match closest(store, networks, r, marker, networks.terminals(r).len()) {
            Some((_, t)) => t,
            None => u32::MAX,
        },
    }
}

/// Which terminal of a net's network a device at a point attaches to.
fn attach_terminal(
    store: &GeometryStore,
    networks: &NetNetworks,
    net: NetId,
    marker: Point,
) -> (t: u32)
    requires
        store.wf(),
        networks.wf(),
        networks.taps_in(store.polys()),
        marker.wf(),
    ensures
        t == attach_spec(store, networks, net, marker),
{
    let row: u32 = match networks.row_of(net) {
        None => {
            return 0;
        },
        Some(row) => row,
    };
    let terminals = networks.terminals_of(row);
    let (_, polys) = networks.nodes_of(row);
    let ghost r = row as int;
    let mut nearest: i128 = 0;
    let mut winner: u32 = u32::MAX;
    let mut k: usize = 0;
    while k < terminals.len()
        invariant
            store.wf(),
            networks.wf(),
            networks.taps_in(store.polys()),
            marker.wf(),
            row < networks.rows(),
            r == row,
            terminals@ == networks.terminals(r),
            polys@ == networks.shapes(r),
            polys@.len() == networks.node_len(r),
            forall|k: int| 0 <= k < terminals@.len() ==> (#[trigger] terminals@[k])
                < networks.node_len(r),
            k <= terminals@.len(),
            k == 0 ==> winner == u32::MAX,
            k > 0 ==> closest(store, networks, r, marker, k as nat) == Some(
                (nearest as int, winner),
            ),
        decreases terminals@.len() - k,
    {
        let t: u32 = terminals[k];
        assert(terminals@[k as int] < networks.node_len(r));
        let poly: PolyId = polys[t as usize];
        assert(poly == networks.node_poly@[networks.node_lo(r) + t as int]);
        let here = centre(store.poly_bbox(poly));
        let d: i128 = dist2_points(here, marker);
        if k == 0 || d < nearest {
            nearest = d;
            winner = t;
        }
        k = k + 1;
    }
    winner
}

/// The ohms between two terminals of a probe list, from the first `n` probes.
pub open spec fn probe_between(
    list: Seq<(u32, u32, Number)>,
    a: u32,
    b: u32,
    n: nat,
) -> Option<Number>
    decreases n,
{
    if n == 0 {
        None
    } else {
        match probe_between(list, a, b, (n - 1) as nat) {
            Some(ohms) => Some(ohms),
            None => if list[n - 1].0 == a && list[n - 1].1 == b {
                Some(list[n - 1].2)
            } else {
                None
            },
        }
    }
}

impl<'a> LatchupRow<'a> {
    pub open spec fn wf(self) -> bool {
        &&& self.design.wf()
        &&& self.intent.wf()
        &&& self.networks.wf()
        &&& self.networks.taps_in(self.design.store.polys())
        &&& probes_fit(self.networks, self.probes@)
        &&& self.table.wf(self.design.store.layers())
        &&& self.row < self.table.head.rows()
    }

    pub open spec fn clamp_lo(self) -> int {
        self.table.clamp_start@[self.row as int] as int
    }

    pub open spec fn clamp_hi(self) -> int {
        self.table.clamp_start@[self.row + 1] as int
    }

    /// Clamp `c` is the row's first one of a model.
    pub open spec fn names(self, model: StrId, c: int) -> bool {
        &&& self.clamp_lo() <= c < self.clamp_hi()
        &&& self.table.clamp_model@[c] == model
        &&& forall|j: int|
            self.clamp_lo() <= j < c ==> #[trigger] self.table.clamp_model@[j] != model
    }

    /// The clamp a device is, where its model is on the row's list.
    pub open spec fn clamp(self, d: int) -> Option<int> {
        let model = self.design.devices.model@[d];
        if exists|c: int| self.names(model, c) {
            Some(choose|c: int| self.names(model, c))
        } else {
            None
        }
    }

    /// Whether a device is a clamp that carries the event and holds its node.
    pub open spec fn qualifies(self, d: int) -> bool {
        match self.clamp(d) {
            None => false,
            Some(c) => self.table.required_current@[self.row as int].le(
                self.table.clamp_capacity@[c],
            ) && self.table.clamp_voltage@[c].le(self.table.max_clamp_voltage@[self.row as int]),
        }
    }

    /// Where a device stands.
    pub open spec fn marker(self, d: int) -> Point {
        centre_of(self.design.store.bbox@[self.design.devices.marker@[d].0 as int])
    }

    /// The point of the graph terminal `s` of device `d` attaches to.
    pub open spec fn attached(self, d: int, s: int) -> u64 {
        let net = self.design.devices.nets_of(d)[s];
        key_of(
            net.0,
            attach_spec(self.design.store, self.networks, net, self.marker(d)),
        )
    }

    /// Two terminals of a qualifying clamp.
    pub open spec fn pair(self, d: int, s: int, t: int) -> bool {
        &&& 0 <= d < self.design.devices.devices()
        &&& self.qualifies(d)
        &&& 0 <= s < t < self.design.devices.nets_of(d).len()
    }

    /// The edge a clamp is between two of its terminals.
    pub open spec fn clamp_edge(self, d: int, s: int, t: int) -> PathEdge {
        PathEdge {
            a: self.attached(d, s),
            b: self.attached(d, t),
            ohms: self.table.clamp_resistance@[self.clamp(d)->0],
        }
    }

    /// Whether a qualifying clamp lands on a point.
    pub open spec fn is_point(self, key: u64) -> bool {
        exists|d: int, s: int, t: int| #[trigger] self.lands(d, s, t, key)
    }

    pub open spec fn lands(self, d: int, s: int, t: int, key: u64) -> bool {
        self.pair(d, s, t) && (self.clamp_edge(d, s, t).a == key || self.clamp_edge(d, s, t).b
            == key)
    }

    /// The probes of a net's network.
    pub open spec fn list(self, net: u32) -> Seq<(u32, u32, Number)> {
        match net_row(self.networks.net@, NetId(net)) {
            Some(r) => match self.probes@[r] {
                Some(list) => list@,
                None => Seq::empty(),
            },
            None => Seq::empty(),
        }
    }

    /// Whether a net's network, where it has one, could be probed and every probe of
    /// it is a resistance: finite, and with no minus sign.
    pub open spec fn probed(self, net: u32) -> bool {
        match net_row(self.networks.net@, NetId(net)) {
            Some(r) => self.probes@[r] is Some && forall|k: int|
                0 <= k < self.list(net).len() ==> (#[trigger] self.list(net)[k]).2.grounded(),
            None => true,
        }
    }

    /// Whether every net a qualifying clamp lands on could be probed to resistances.
    pub open spec fn solvable(self) -> bool {
        forall|key: u64| #[trigger] self.is_point(key) ==> self.probed(key_net(key))
    }

    /// Whether a qualifying clamp joins two points.
    pub open spec fn clamp_joins(self, u: u64, v: u64, w: Number) -> bool {
        exists|d: int, s: int, t: int| #[trigger] self.bridges(d, s, t, u, v, w)
    }

    pub open spec fn bridges(self, d: int, s: int, t: int, u: u64, v: u64, w: Number) -> bool {
        self.pair(d, s, t) && self.clamp_edge(d, s, t).joins(u, v) && self.clamp_edge(d, s, t).ohms
            == w
    }

    /// Whether a net's own interconnect joins two points on it.
    pub open spec fn wire_joins(self, u: u64, v: u64, w: Number) -> bool {
        &&& self.is_point(u)
        &&& self.is_point(v)
        &&& key_net(u) == key_net(v)
        &&& exists|k: int| #[trigger] self.wires(key_net(u), k, u, v, w)
    }

    pub open spec fn wires(self, net: u32, k: int, u: u64, v: u64, w: Number) -> bool {
        let list = self.list(net);
        &&& 0 <= k < list.len()
        &&& (PathEdge {
            a: key_of(net, list[k].0),
            b: key_of(net, list[k].1),
            ohms: list[k].2,
        }).joins(u, v)
        &&& list[k].2 == w
    }

    /// The edges of the row's discharge graph.
    pub open spec fn joined(self) -> spec_fn(u64, u64, Number) -> bool {
        |u: u64, v: u64, w: Number| self.clamp_joins(u, v, w) || self.wire_joins(u, v, w)
    }

    /// Interconnect between two terminals of one net; none where no path joins
    /// them.
    pub open spec fn interconnect(self, net: u32, a: u32, b: u32) -> Option<Number> {
        if a == b {
            Some(Number { bits: 0 })
        } else {
            let list = self.list(net);
            probe_between(
                list,
                if a < b { a } else { b },
                if a < b { b } else { a },
                list.len(),
            )
        }
    }

    /// What a discharge entering a net at a terminal costs to reach a point.
    pub open spec fn seed(self, net: u32, terminal: u32) -> spec_fn(u64) -> Option<Number> {
        |u: u64|
            if self.is_point(u) && key_net(u) == net {
                self.interconnect(net, terminal, key_terminal(u))
            } else {
                None
            }
    }

    /// Where a discharge is safe: on a declared supply.
    pub open spec fn goal(self) -> spec_fn(u64) -> bool {
        |u: u64| self.intent.supply_spec(NetId(key_net(u))) is Some
    }

    pub open spec fn pad_net(self, p: int) -> NetId {
        if self.design.nets.nets() > 0 { self.design.nets.net_of@[p] } else { NetId(NO_NET) }
    }

    pub open spec fn pad_lo(self) -> int {
        self.design.store.row_lo(self.table.pad@[self.row as int].0 as int)
    }

    pub open spec fn ring_lo(self) -> int {
        self.design.store.row_lo(self.table.guard_ring@[self.row as int].0 as int)
    }

    pub open spec fn pad_hi(self) -> int {
        self.design.store.row_hi(self.table.pad@[self.row as int].0 as int)
    }

    pub open spec fn ring_hi(self) -> int {
        self.design.store.row_hi(self.table.guard_ring@[self.row as int].0 as int)
    }

    /// Whether a pad polygon is the first one of its net.
    pub open spec fn first_pad(self, p: int) -> bool {
        &&& self.pad_net(p).0 != NO_NET
        &&& forall|q: int| self.pad_lo() <= q < p ==> #[trigger] self.pad_net(q) != self.pad_net(p)
    }

    /// The resistance of a pad's best discharge path.
    pub open spec fn path(self, p: int) -> Option<Number> {
        let net = self.pad_net(p);
        let entry = attach_spec(
            self.design.store,
            self.networks,
            net,
            centre_of(self.design.store.bbox@[p]),
        );
        lowest_cost(self.joined(), self.seed(net.0, entry), self.goal())
    }

    pub open spec fn violation(
        self,
        layer: LayerId,
        p: int,
        measured: Measurement,
        limit: Measurement,
    ) -> Violation {
        Violation {
            rule: self.table.head.rule@[self.row as int],
            layer,
            severity: self.table.head.severity@[self.row as int],
            at: self.design.store.vertex_at(p, 0),
            measured,
            limit,
            shapes: (PolyId(p as u32), None),
        }
    }

    /// What a quantity that may be absent reports: an absent one is none of a
    /// required one, never an infinite one.
    pub open spec fn against(
        self,
        layer: LayerId,
        p: int,
        measured: Option<Measurement>,
        limit: Measurement,
    ) -> Seq<Violation> {
        match measured {
            None => seq![
                self.violation(layer, p, Measurement::Count(0), Measurement::Count(1)),
            ],
            Some(measured) => if measured.breaks(limit, LimitSense::Maximum) {
                seq![self.violation(layer, p, measured, limit)]
            } else {
                Seq::empty()
            },
        }
    }

    /// What one pad polygon reports.
    pub open spec fn pad_found(self, p: int) -> Seq<Violation> {
        if self.first_pad(p) {
            let measured = match self.path(p) {
                Some(ohms) => Some(Measurement::Resistance(ohms)),
                None => None,
            };
            self.against(
                self.table.pad@[self.row as int],
                p,
                measured,
                Measurement::Resistance(self.table.max_path_resistance@[self.row as int]),
            )
        } else {
            Seq::empty()
        }
    }

    /// What the pad polygons before `p` report.
    pub open spec fn pads_found(self, p: int) -> Seq<Violation>
        decreases p - self.pad_lo(),
    {
        if p <= self.pad_lo() {
            Seq::empty()
        } else {
            self.pads_found(p - 1) + self.pad_found(p - 1)
        }
    }

    /// How many nets the pad polygons before `p` are on.
    pub open spec fn pads_counted(self, p: int) -> nat
        decreases p - self.pad_lo(),
    {
        if p <= self.pad_lo() {
            0
        } else {
            self.pads_counted(p - 1) + if self.first_pad(p - 1) {
                1nat
            } else {
                0
            }
        }
    }

    /// What one guard ring reports: its width, then its nearest supply.
    pub open spec fn ring_found(self, p: int) -> Seq<Violation> {
        let layer = self.table.guard_ring@[self.row as int];
        let b = self.design.store.bbox@[p];
        let width = Measurement::Length(min_int(b.xhi - b.xlo, b.yhi - b.ylo) as i64);
        let least = Measurement::Length(self.table.min_guard_ring_width@[self.row as int]);
        let narrow = if width.breaks(least, LimitSense::Minimum) {
            seq![self.violation(layer, p, width, least)]
        } else {
            Seq::empty()
        };
        let boxes = supply_boxes(self.design, self.intent, self.intent.supply_net@.len());
        let gap = match nearest_spec(boxes, b, boxes.len()) {
            Some(gap) => Some(Measurement::Length(gap as i64)),
            None => None,
        };
        narrow + self.against(
            layer,
            p,
            gap,
            Measurement::Length(self.table.max_tap_distance@[self.row as int]),
        )
    }

    /// What the guard rings before `p` report.
    pub open spec fn rings_found(self, p: int) -> Seq<Violation>
        decreases p - self.ring_lo(),
    {
        if p <= self.ring_lo() {
            Seq::empty()
        } else {
            self.rings_found(p - 1) + self.ring_found(p - 1)
        }
    }

    /// What the row finds.
    pub open spec fn result(self) -> RowResult {
        if self.solvable() {
            RowResult {
                outcome: Outcome::Ran,
                examined: (
                    self.pads_counted(self.pad_hi()) + self.ring_hi() - self.ring_lo()
                ) as u64,
                found: self.pads_found(self.pad_hi()) + self.rings_found(self.ring_hi()),
            }
        } else {
            ended(Outcome::Refused)
        }
    }
}

/// The boxes of a net's first `n` polygons.
pub open spec fn member_boxes(design: Design, members: Seq<PolyId>) -> Seq<Bbox> {
    Seq::new(members.len(), |i: int| design.store.bbox@[members[i].0 as int])
}

/// The boxes of the first `n` declared supplies' polygons.
pub open spec fn supply_boxes(design: Design, intent: &IntentMap, n: nat) -> Seq<Bbox>
    decreases n,
{
    if n == 0 {
        Seq::empty()
    } else {
        supply_boxes(design, intent, (n - 1) as nat) + member_boxes(
            design,
            design.nets.members(intent.supply_net@[n - 1].0 as int),
        )
    }
}

/// Rectilinear separation of two boxes; zero when they touch or overlap.
pub open spec fn separation_spec(a: Bbox, b: Bbox) -> int {
    max_int(
        max_int(max_int(b.xlo - a.xhi, a.xlo - b.xhi), 0),
        max_int(max_int(b.ylo - a.yhi, a.ylo - b.yhi), 0),
    )
}

/// Rectilinear separation of two boxes; zero when they touch or overlap.
pub fn separation(a: Bbox, b: Bbox) -> (r: i64)
    requires
        a.wf(),
        b.wf(),
    ensures
        r == separation_spec(a, b),
{
    let left: i64 = b.xlo - a.xhi;
    let right: i64 = a.xlo - b.xhi;
    let below: i64 = b.ylo - a.yhi;
    let above: i64 = a.ylo - b.yhi;
    let dx: i64 = if left < right { right } else { left };
    let dy: i64 = if below < above { above } else { below };
    let x: i64 = if dx < 0 { 0 } else { dx };
    let y: i64 = if dy < 0 { 0 } else { dy };
    if x < y {
        y
    } else {
        x
    }
}

/// Two boxes are within a distance of each other, grown by it on every side,
/// exactly when their separation is at most that distance.
pub proof fn lemma_separation_is_within(a: Bbox, b: Bbox, d: int)
    requires
        a.wf(),
        b.wf(),
        d >= 0,
    ensures
        separation_spec(a, b) <= d <==> (a.xlo - d <= b.xhi && b.xlo <= a.xhi + d && a.ylo - d
            <= b.yhi && b.ylo <= a.yhi + d),
        separation_spec(a, b) == separation_spec(b, a),
        separation_spec(a, b) == 0 <==> a.meets(b),
{
}

/// The separation from a ring to the nearest of the first `n` boxes.
pub open spec fn nearest_spec(boxes: Seq<Bbox>, ring: Bbox, n: nat) -> Option<int>
    decreases n,
{
    if n == 0 {
        None
    } else {
        let gap = separation_spec(ring, boxes[n - 1]);
        match nearest_spec(boxes, ring, (n - 1) as nat) {
            None => Some(gap),
            Some(best) => Some(min_int(best, gap)),
        }
    }
}

/// Distance from a guard ring to the nearest supply box; `None` where there is
/// none, which is an absent tap and not a far one.
pub fn nearest_supply(supply: &Vec<Bbox>, ring: Bbox) -> (r: Option<i64>)
    requires
        ring.wf(),
        forall|k: int| 0 <= k < supply@.len() ==> (#[trigger] supply@[k]).wf(),
    ensures
        r is Some <==> nearest_spec(supply@, ring, supply@.len()) is Some,
        r is Some ==> r->0 == nearest_spec(supply@, ring, supply@.len())->0,
{
    let mut best: Option<i64> = None;
    let mut k: usize = 0;
    while k < supply.len()
        invariant
            ring.wf(),
            forall|k: int| 0 <= k < supply@.len() ==> (#[trigger] supply@[k]).wf(),
            k <= supply@.len(),
            best is Some <==> nearest_spec(supply@, ring, k as nat) is Some,
            best is Some ==> best->0 == nearest_spec(supply@, ring, k as nat)->0,
        decreases supply@.len() - k,
    {
        assert(supply@[k as int].wf());
        let gap: i64 = separation(ring, supply[k]);
        best = match best {
            None => Some(gap),
            Some(b) => Some(if b < gap { b } else { gap }),
        };
        k = k + 1;
    }
    best
}

impl<'a> LatchupRow<'a> {
    fn find_clamp(&self, d: usize) -> (r: Option<usize>)
        requires
            self.wf(),
            d < self.design.devices.devices(),
        ensures
            r is Some <==> self.clamp(d as int) is Some,
            r is Some ==> self.clamp(d as int) == Some(r->0 as int) && r->0
                < self.table.clamp_model@.len(),
    {
        let model = self.design.devices.model[d];
        let lo: usize = self.table.clamp_start[self.row] as usize;
        let starts: usize = self.table.clamp_start.len();
        assert(self.row + 1 < starts);
        let hi: usize = self.table.clamp_start[self.row + 1] as usize;
        let mut c: usize = lo;
        while c < hi
            invariant
                self.wf(),
                model == self.design.devices.model@[d as int],
                lo == self.clamp_lo(),
                hi == self.clamp_hi(),
                lo <= c <= hi <= self.table.clamp_model@.len(),
                forall|j: int| lo <= j < c ==> #[trigger] self.table.clamp_model@[j] != model,
            decreases hi - c,
        {
            if self.table.clamp_model[c] == model {
                proof {
                    assert(self.names(model, c as int));
                    let k = choose|k: int| self.names(model, k);
                    assert(self.names(model, k));
                    assert(k == c);
                }
                return Some(c);
            }
            c = c + 1;
        }
        None
    }

    /// The points one device's terminals attach to.
    fn attach_device(&self, d: usize) -> (r: Vec<u64>)
        requires
            self.wf(),
            d < self.design.devices.devices(),
        ensures
            r@.len() == self.design.devices.nets_of(d as int).len(),
            forall|s: int| 0 <= s < r@.len() ==> #[trigger] r@[s] == self.attached(d as int, s),
    {
        let nets = self.design.devices.terminal_nets(d, Ghost(self.design.store.polys()));
        assert(self.design.devices.marker@[d as int].0 < self.design.store.polys());
        let marker = centre(self.design.store.poly_bbox(self.design.devices.marker[d]));
        let mut r: Vec<u64> = Vec::new();
        let mut s: usize = 0;
        while s < nets.len()
            invariant
                self.wf(),
                d < self.design.devices.devices(),
                nets@ == self.design.devices.nets_of(d as int),
                marker == self.marker(d as int),
                marker.wf(),
                s <= nets@.len(),
                r@.len() == s,
                forall|k: int| 0 <= k < s ==> #[trigger] r@[k] == self.attached(d as int, k),
            decreases nets@.len() - s,
        {
            let net = nets[s];
            let t: u32 = attach_terminal(self.design.store, self.networks, net, marker);
            r.push(make_key(net.0, t));
            s = s + 1;
        }
        r
    }

    /// Append the edges one qualifying clamp is.
    fn push_clamp(&self, d: usize, c: usize, edges: &mut Vec<PathEdge>)
        requires
            self.wf(),
            d < self.design.devices.devices(),
            self.clamp(d as int) == Some(c as int),
            c < self.table.clamp_model@.len(),
            self.qualifies(d as int),
            forall|e: int| 0 <= e < old(edges)@.len() ==> self.from_clamp(
                #[trigger] old(edges)@[e],
                d as int,
            ),
            forall|dd: int, s: int, t: int|
                dd < d && #[trigger] self.pair(dd, s, t) ==> old(edges)@.contains(
                    self.clamp_edge(dd, s, t),
                ),
        ensures
            forall|e: int| 0 <= e < final(edges)@.len() ==> self.from_clamp(
                #[trigger] final(edges)@[e],
                d + 1,
            ),
            forall|dd: int, s: int, t: int|
                dd < d + 1 && #[trigger] self.pair(dd, s, t) ==> final(edges)@.contains(
                    self.clamp_edge(dd, s, t),
                ),
    {
        let points = self.attach_device(d);
        let ohms = self.table.clamp_resistance[c];
        let ghost di = d as int;
        proof {
            assert forall|e: int| 0 <= e < edges@.len() implies self.from_clamp(
                #[trigger] edges@[e],
                d + 1,
            ) by {
                assert(self.from_clamp(edges@[e], di));
                let (x, s, t) = choose|x: int, s: int, t: int|
                    x < di && #[trigger] self.pair(x, s, t) && edges@[e] == self.clamp_edge(
                        x,
                        s,
                        t,
                    );
                assert(self.pair(x, s, t) && edges@[e] == self.clamp_edge(x, s, t));
            }
        }
        let mut a: usize = 0;
        while a < points.len()
            invariant
                self.wf(),
                di == d,
                d < self.design.devices.devices(),
                self.clamp(di) == Some(c as int),
                self.qualifies(di),
                ohms == self.table.clamp_resistance@[c as int],
                points@.len() == self.design.devices.nets_of(di).len(),
                forall|s: int|
                    0 <= s < points@.len() ==> #[trigger] points@[s] == self.attached(di, s),
                a <= points@.len(),
                forall|e: int| 0 <= e < edges@.len() ==> self.from_clamp(
                    #[trigger] edges@[e],
                    d + 1,
                ),
                forall|dd: int, s: int, t: int|
                    dd < di && #[trigger] self.pair(dd, s, t) ==> edges@.contains(
                        self.clamp_edge(dd, s, t),
                    ),
                forall|s: int, t: int|
                    s < a && #[trigger] self.pair(di, s, t) ==> edges@.contains(
                        self.clamp_edge(di, s, t),
                    ),
            decreases points@.len() - a,
        {
            let mut b: usize = a + 1;
            while b < points.len()
                invariant
                    self.wf(),
                    di == d,
                    d < self.design.devices.devices(),
                    self.clamp(di) == Some(c as int),
                    self.qualifies(di),
                    ohms == self.table.clamp_resistance@[c as int],
                    points@.len() == self.design.devices.nets_of(di).len(),
                    forall|s: int|
                        0 <= s < points@.len() ==> #[trigger] points@[s] == self.attached(di, s),
                    a < points@.len(),
                    a < b <= points@.len(),
                    forall|e: int|
                        0 <= e < edges@.len() ==> self.from_clamp(#[trigger] edges@[e], d + 1),
                    forall|dd: int, s: int, t: int|
                        dd < di && #[trigger] self.pair(dd, s, t) ==> edges@.contains(
                            self.clamp_edge(dd, s, t),
                        ),
                    forall|s: int, t: int|
                        (s < a || (s == a && t < b)) && #[trigger] self.pair(di, s, t)
                            ==> edges@.contains(self.clamp_edge(di, s, t)),
                decreases points@.len() - b,
            {
                let ghost before = edges@;
                let edge = PathEdge { a: points[a], b: points[b], ohms };
                edges.push(edge);
                proof {
                    assert(self.pair(di, a as int, b as int));
                    assert(edge == self.clamp_edge(di, a as int, b as int));
                    assert(edges@[before.len() as int] == edge);
                    assert forall|x: PathEdge| before.contains(x) implies edges@.contains(x) by {
                        let k = before.index_of(x);
                        assert(edges@[k] == x);
                    }
                    assert(edges@.contains(edge));
                    assert(self.from_clamp(edge, d + 1));
                    assert forall|e: int| 0 <= e < edges@.len() implies self.from_clamp(
                        #[trigger] edges@[e],
                        d + 1,
                    ) by {
                        if e < before.len() {
                            assert(edges@[e] == before[e]);
                        }
                    }
                }
                b = b + 1;
            }
            a = a + 1;
        }
    }

    /// Whether an edge is a clamp among the first `n` devices.
    pub open spec fn from_clamp(self, edge: PathEdge, n: int) -> bool {
        exists|d: int, s: int, t: int|
            d < n && #[trigger] self.pair(d, s, t) && edge == self.clamp_edge(d, s, t)
    }

    /// Every edge the row's qualifying clamps are.
    fn clamp_edges(&self) -> (edges: Vec<PathEdge>)
        requires
            self.wf(),
        ensures
            forall|e: int| 0 <= e < edges@.len() ==> self.from_clamp(
                #[trigger] edges@[e],
                self.design.devices.devices(),
            ),
            forall|d: int, s: int, t: int|
                #[trigger] self.pair(d, s, t) ==> edges@.contains(self.clamp_edge(d, s, t)),
    {
        let mut edges: Vec<PathEdge> = Vec::new();
        let devices: usize = self.design.devices.len();
        let mut d: usize = 0;
        while d < devices
            invariant
                self.wf(),
                devices == self.design.devices.devices(),
                d <= devices,
                forall|e: int|
                    0 <= e < edges@.len() ==> self.from_clamp(#[trigger] edges@[e], d as int),
                forall|dd: int, s: int, t: int|
                    dd < d && #[trigger] self.pair(dd, s, t) ==> edges@.contains(
                        self.clamp_edge(dd, s, t),
                    ),
            decreases devices - d,
        {
            let mut qualified: bool = false;
            if let Some(c) = self.find_clamp(d) {
                let carries: bool = self.table.required_current[self.row].at_most(
                    self.table.clamp_capacity[c],
                );
                let holds: bool = self.table.clamp_voltage[c].at_most(
                    self.table.max_clamp_voltage[self.row],
                );
                if carries && holds {
                    assert(self.qualifies(d as int));
                    self.push_clamp(d, c, &mut edges);
                    qualified = true;
                }
            }
            proof {
                if !qualified {
                    assert(!self.qualifies(d as int));
                    assert forall|e: int| 0 <= e < edges@.len() implies self.from_clamp(
                        #[trigger] edges@[e],
                        d + 1,
                    ) by {
                        assert(self.from_clamp(edges@[e], d as int));
                        let (x, s, t) = choose|x: int, s: int, t: int|
                            x < d && #[trigger] self.pair(x, s, t) && edges@[e]
                                == self.clamp_edge(x, s, t);
                        assert(self.pair(x, s, t) && edges@[e] == self.clamp_edge(x, s, t));
                    }
                }
            }
            d = d + 1;
        }
        edges
    }

    /// The points of the graph, ascending.
    fn points(&self, edges: &Vec<PathEdge>) -> (keys: Vec<u64>)
        requires
            self.wf(),
            forall|e: int| 0 <= e < edges@.len() ==> self.from_clamp(
                #[trigger] edges@[e],
                self.design.devices.devices(),
            ),
            forall|d: int, s: int, t: int|
                #[trigger] self.pair(d, s, t) ==> edges@.contains(self.clamp_edge(d, s, t)),
        ensures
            ascending(keys@),
            forall|key: u64| keys@.contains(key) <==> #[trigger] self.is_point(key),
    {
        let mut ends: Vec<u64> = Vec::new();
        let mut e: usize = 0;
        while e < edges.len()
            invariant
                e <= edges@.len(),
                ends@.len() == 2 * e,
                forall|k: int|
                    0 <= k < e ==> ends@[2 * k] == (#[trigger] edges@[k]).a && ends@[2 * k + 1]
                        == edges@[k].b,
                forall|i: int| 0 <= i < ends@.len() ==> #[trigger] ends@[i] == (if i % 2 == 0 {
                    edges@[i / 2].a
                } else {
                    edges@[i / 2].b
                }),
            decreases edges@.len() - e,
        {
            ends.push(edges[e].a);
            ends.push(edges[e].b);
            e = e + 1;
        }
        let keys = sorted_distinct(&ends);
        proof {
            assert forall|key: u64| keys@.contains(key) <==> #[trigger] self.is_point(key) by {
                if keys@.contains(key) {
                    assert(ends@.contains(key));
                    let i = ends@.index_of(key);
                    assert(ends@[i] == key);
                    let edge = edges@[i / 2];
                    assert(self.from_clamp(edges@[i / 2], self.design.devices.devices()));
                    let (d, s, t) = choose|d: int, s: int, t: int|
                        d < self.design.devices.devices() && #[trigger] self.pair(d, s, t) && edge
                            == self.clamp_edge(d, s, t);
                    assert(self.lands(d, s, t, key));
                }
                if self.is_point(key) {
                    let (d, s, t) = choose|d: int, s: int, t: int|
                        #[trigger] self.lands(d, s, t, key);
                    assert(self.pair(d, s, t));
                    let edge = self.clamp_edge(d, s, t);
                    assert(edges@.contains(edge));
                    let k = edges@.index_of(edge);
                    assert(edges@[k] == edge);
                    assert(ends@[2 * k] == edge.a && ends@[2 * k + 1] == edge.b);
                    if edge.a == key {
                        assert(ends@.contains(key));
                    } else {
                        assert(ends@[2 * k + 1] == key);
                        assert(ends@.contains(key));
                    }
                }
            }
        }
        keys
    }

    /// Whether an edge is a probe between two points of the graph.
    pub open spec fn from_wire(self, edge: PathEdge) -> bool {
        &&& self.wire_joins(edge.a, edge.b, edge.ohms)
    }

    /// The probe list of a point's net; `None` where its network could not be
    /// probed.
    fn probes_of(&self, net: u32) -> (r: Option<&'a Vec<(u32, u32, Number)>>)
        requires
            self.wf(),
        ensures
            match r {
                Some(list) => list@ == self.list(net),
                None => self.list(net).len() == 0,
            },
    {
        match self.networks.row_of(NetId(net)) {
            None => None,
            Some(r) => match &self.probes[r as usize] {
                Some(list) => Some(list),
                None => None,
            },
        }
    }

    fn is_probed(&self, net: u32) -> (r: bool)
        requires
            self.wf(),
        ensures
            r == self.probed(net),
    {
        match self.networks.row_of(NetId(net)) {
            None => true,
            Some(r) => match &self.probes[r as usize] {
                None => false,
                Some(list) => {
                    let mut k: usize = 0;
                    while k < list.len()
                        invariant
                            list@ == self.list(net),
                            net_row(self.networks.net@, NetId(net)) is Some,
                            k <= list@.len(),
                            forall|j: int|
                                0 <= j < k ==> (#[trigger] self.list(net)[j]).2.grounded(),
                        decreases list@.len() - k,
                    {
                        if !list[k].2.is_grounded() {
                            assert(!self.list(net)[k as int].2.grounded());
                            return false;
                        }
                        k = k + 1;
                    }
                    true
                },
            },
        }
    }

    /// Append every probe leaving one point for another point of its net.
    fn push_wires(&self, keys: &Vec<u64>, at: usize, edges: &mut Vec<PathEdge>)
        requires
            self.wf(),
            ascending(keys@),
            forall|key: u64| keys@.contains(key) <==> #[trigger] self.is_point(key),
            at < keys@.len(),
            self.probed(key_net(keys@[at as int])),
        ensures
            old(edges)@.len() <= final(edges)@.len(),
            forall|e: int|
                0 <= e < old(edges)@.len() ==> #[trigger] final(edges)@[e] == old(edges)@[e],
            forall|e: int|
                old(edges)@.len() <= e < final(edges)@.len() ==> self.from_wire(
                    #[trigger] final(edges)@[e],
                ),
            forall|k: int|
                0 <= k < self.list(key_net(keys@[at as int])).len() && #[trigger] self.leaves(
                    keys@[at as int],
                    k,
                ) ==> final(edges)@.contains(self.wire(keys@[at as int], k)),
    {
        let key: u64 = keys[at];
        let net: u32 = (key / 0x1_0000_0000) as u32;
        let terminal: u32 = (key % 0x1_0000_0000) as u32;
        let ghost list = self.list(net);
        let found = self.probes_of(net);
        proof {
            lemma_key_back(key);
            assert(keys@.contains(key));
        }
        if let Some(probes) = found {
            let mut k: usize = 0;
            while k < probes.len()
                invariant
                    self.wf(),
                    ascending(keys@),
                    forall|key: u64| keys@.contains(key) <==> #[trigger] self.is_point(key),
                    net == key_net(key),
                    terminal == key_terminal(key),
                    key_of(net, terminal) == key,
                    key == keys@[at as int],
                    self.is_point(key),
                    list == self.list(net),
                    probes@ == list,
                    k <= probes@.len(),
                    old(edges)@.len() <= edges@.len(),
                    forall|e: int|
                        0 <= e < old(edges)@.len() ==> #[trigger] edges@[e] == old(edges)@[e],
                    forall|e: int|
                        old(edges)@.len() <= e < edges@.len() ==> self.from_wire(
                            #[trigger] edges@[e],
                        ),
                    forall|j: int|
                        0 <= j < k && #[trigger] self.leaves(key, j) ==> edges@.contains(
                            self.wire(key, j),
                        ),
                decreases probes@.len() - k,
            {
                let probe = probes[k];
                let ghost before = edges@;
                let other: u64 = make_key(net, probe.1);
                proof {
                    lemma_key(net, probe.1);
                }
                if probe.0 == terminal && find_key(keys, other).is_some() {
                    let edge = PathEdge { a: key, b: other, ohms: probe.2 };
                    edges.push(edge);
                    proof {
                        assert(edges@[before.len() as int] == edge);
                        assert(self.is_point(other));
                        assert(self.wires(net, k as int, key, other, probe.2));
                        assert(self.wire_joins(key, other, probe.2));
                        assert(edge == self.wire(key, k as int));
                        assert(edges@.contains(edge));
                        assert forall|e: int| old(edges)@.len() <= e < edges@.len() implies self.from_wire(
                            #[trigger] edges@[e],
                        ) by {
                            if e < before.len() {
                                assert(edges@[e] == before[e]);
                            }
                        }
                        assert forall|x: PathEdge| before.contains(x) implies edges@.contains(
                            x,
                        ) by {
                            let i = before.index_of(x);
                            assert(edges@[i] == x);
                        }
                    }
                }
                k = k + 1;
            }
        }
    }

    /// Whether probe `k` of a point's net leaves it for another point.
    pub open spec fn leaves(self, key: u64, k: int) -> bool {
        let list = self.list(key_net(key));
        list[k].0 == key_terminal(key) && self.is_point(key_of(key_net(key), list[k].1))
    }

    /// The edge probe `k` of a point's net is from it.
    pub open spec fn wire(self, key: u64, k: int) -> PathEdge {
        let list = self.list(key_net(key));
        PathEdge { a: key, b: key_of(key_net(key), list[k].1), ohms: list[k].2 }
    }
}

/// Whether a list of edges is exactly what joins two points.
spec fn edges_are(joined: spec_fn(u64, u64, Number) -> bool, edges: Seq<PathEdge>) -> bool {
    forall|u: u64, v: u64, w: Number|
        #[trigger] joined(u, v, w) <==> exists|e: int|
            0 <= e < edges.len() && (#[trigger] edges[e]).joins(u, v) && edges[e].ohms == w
}

/// The row's discharge graph, ready to search.
struct ClampGraph {
    keys: Vec<u64>,
    edges: Vec<PathEdge>,
    goals: Vec<bool>,
}

impl ClampGraph {
    /// The graph holds exactly a row's points, edges and goals.
    spec fn of(&self, row: LatchupRow) -> bool {
        &&& ascending(self.keys@)
        &&& forall|key: u64| self.keys@.contains(key) <==> #[trigger] row.is_point(key)
        &&& edges_are(row.joined(), self.edges@)
        &&& forall|e: int|
            0 <= e < self.edges@.len() ==> self.keys@.contains((#[trigger] self.edges@[e]).a)
                && self.keys@.contains(self.edges@[e].b)
        &&& self.goals@.len() == self.keys@.len()
        &&& forall|i: int|
            0 <= i < self.keys@.len() ==> #[trigger] self.goals@[i] == row.goal()(self.keys@[i])
    }
}

impl<'a> LatchupRow<'a> {
    /// Every edge of the graph is a resistance.
    proof fn lemma_resistive(self, net: u32, terminal: u32)
        requires
            self.wf(),
            self.solvable(),
        ensures
            resistive(self.joined(), self.seed(net, terminal)),
    {
        let joined = self.joined();
        let seed = self.seed(net, terminal);
        assert forall|u: u64, v: u64, w: Number| #[trigger] joined(u, v, w) implies w.grounded() by {
            if self.clamp_joins(u, v, w) {
                let (d, s, t) = choose|d: int, s: int, t: int|
                    #[trigger] self.bridges(d, s, t, u, v, w);
                let c = self.clamp(d)->0;
                assert(self.names(self.design.devices.model@[d], c));
                assert(self.table.clamp_resistance@[c].grounded());
            } else {
                let k = choose|k: int| #[trigger] self.wires(key_net(u), k, u, v, w);
                self.lemma_list(key_net(u), k);
            }
        }
        assert forall|u: u64| (#[trigger] seed(u)) is Some implies (seed(u)->0).grounded() by {
            let b = key_terminal(u);
            assert(self.is_point(u));
            if terminal != b {
                let list = self.list(net);
                self.lemma_between(
                    net,
                    if terminal < b { terminal } else { b },
                    if terminal < b { b } else { terminal },
                    list.len(),
                );
            }
        }
    }

    proof fn lemma_list(self, net: u32, k: int)
        requires
            self.probed(net),
            0 <= k < self.list(net).len(),
        ensures
            self.list(net)[k].2.grounded(),
    {
    }

    proof fn lemma_between(self, net: u32, a: u32, b: u32, n: nat)
        requires
            self.probed(net),
            n <= self.list(net).len(),
        ensures
            probe_between(self.list(net), a, b, n) is Some ==> (probe_between(
                self.list(net),
                a,
                b,
                n,
            )->0).grounded(),
        decreases n,
    {
        if n > 0 {
            self.lemma_between(net, a, b, (n - 1) as nat);
            self.lemma_list(net, n - 1);
        }
    }

    /// Build the graph; `None` where a network the row's clamps land on could
    /// not be probed.
    fn resolve(&self) -> (r: Option<ClampGraph>)
        requires
            self.wf(),
        ensures
            r is Some <==> self.solvable(),
            r is Some ==> (r->0).of(*self),
    {
        let mut edges = self.clamp_edges();
        let keys = self.points(&edges);
        let ghost clamps = edges@;
        let mut goals: Vec<bool> = Vec::new();
        let mut i: usize = 0;
        while i < keys.len()
            invariant
                self.wf(),
                ascending(keys@),
                forall|key: u64| keys@.contains(key) <==> #[trigger] self.is_point(key),
                i <= keys@.len(),
                clamps.len() <= edges@.len(),
                forall|e: int| 0 <= e < clamps.len() ==> #[trigger] edges@[e] == clamps[e],
                forall|e: int|
                    clamps.len() <= e < edges@.len() ==> self.from_wire(#[trigger] edges@[e]),
                forall|j: int|
                    0 <= j < i ==> self.probed(key_net(#[trigger] keys@[j])),
                forall|j: int, k: int|
                    0 <= j < i && 0 <= k < self.list(key_net(keys@[j])).len()
                        && #[trigger] self.leaves(keys@[j], k) ==> edges@.contains(
                        self.wire(keys@[j], k),
                    ),
                goals@.len() == i,
                forall|j: int|
                    0 <= j < i ==> #[trigger] goals@[j] == self.goal()(keys@[j]),
            decreases keys@.len() - i,
        {
            let net: u32 = (keys[i] / 0x1_0000_0000) as u32;
            if !self.is_probed(net) {
                assert(keys@.contains(keys@[i as int]));
                assert(self.is_point(keys@[i as int]));
                return None;
            }
            let ghost before = edges@;
            self.push_wires(&keys, i, &mut edges);
            goals.push(self.intent.supply_of(NetId(net)).is_some());
            proof {
                assert forall|x: PathEdge| before.contains(x) implies edges@.contains(x) by {
                    let e = before.index_of(x);
                    assert(edges@[e] == before[e]);
                }
                assert forall|e: int| clamps.len() <= e < edges@.len() implies self.from_wire(
                    #[trigger] edges@[e],
                ) by {
                    if e < before.len() {
                        assert(edges@[e] == before[e]);
                    }
                }
                assert forall|j: int, k: int|
                    0 <= j < i + 1 && 0 <= k < self.list(key_net(keys@[j])).len()
                        && #[trigger] self.leaves(keys@[j], k) implies edges@.contains(
                    self.wire(keys@[j], k),
                ) by {
                    if j < i {
                        assert(before.contains(self.wire(keys@[j], k)));
                    }
                }
            }
            i = i + 1;
        }
        proof {
            assert(self.solvable()) by {
                assert forall|key: u64| #[trigger] self.is_point(key) implies self.probed(
                    key_net(key),
                ) by {
                    assert(keys@.contains(key));
                    let j = keys@.index_of(key);
                    assert(keys@[j] == key);
                }
            }
            self.lemma_edges(keys@, clamps, edges@);
        }
        let graph = ClampGraph { keys, edges, goals };
        Some(graph)
    }

    /// The edges collected are exactly the graph's.
    proof fn lemma_edges(self, keys: Seq<u64>, clamps: Seq<PathEdge>, edges: Seq<PathEdge>)
        requires
            self.wf(),
            forall|key: u64| keys.contains(key) <==> #[trigger] self.is_point(key),
            forall|e: int| 0 <= e < clamps.len() ==> self.from_clamp(
                #[trigger] clamps[e],
                self.design.devices.devices(),
            ),
            forall|d: int, s: int, t: int|
                #[trigger] self.pair(d, s, t) ==> clamps.contains(self.clamp_edge(d, s, t)),
            clamps.len() <= edges.len(),
            forall|e: int| 0 <= e < clamps.len() ==> #[trigger] edges[e] == clamps[e],
            forall|e: int|
                clamps.len() <= e < edges.len() ==> self.from_wire(#[trigger] edges[e]),
            forall|j: int, k: int|
                0 <= j < keys.len() && 0 <= k < self.list(key_net(keys[j])).len()
                    && #[trigger] self.leaves(keys[j], k) ==> edges.contains(
                    self.wire(keys[j], k),
                ),
        ensures
            edges_are(self.joined(), edges),
            forall|e: int|
                0 <= e < edges.len() ==> keys.contains((#[trigger] edges[e]).a) && keys.contains(
                    edges[e].b,
                ),
    {
        assert forall|e: int| 0 <= e < edges.len() implies keys.contains((#[trigger] edges[e]).a)
            && keys.contains(edges[e].b) by {
            if e < clamps.len() {
                assert(edges[e] == clamps[e]);
                assert(self.from_clamp(clamps[e], self.design.devices.devices()));
                let (d, s, t) = choose|d: int, s: int, t: int|
                    d < self.design.devices.devices() && #[trigger] self.pair(d, s, t) && clamps[e]
                        == self.clamp_edge(d, s, t);
                assert(self.lands(d, s, t, edges[e].a));
                assert(self.lands(d, s, t, edges[e].b));
                assert(self.is_point(edges[e].a) && self.is_point(edges[e].b));
            } else {
                assert(self.from_wire(edges[e]));
                assert(self.is_point(edges[e].a) && self.is_point(edges[e].b));
            }
        }
        let joined = self.joined();
        assert forall|u: u64, v: u64, w: Number|
            #[trigger] joined(u, v, w) <==> exists|e: int|
                0 <= e < edges.len() && (#[trigger] edges[e]).joins(u, v) && edges[e].ohms == w by {
            if self.clamp_joins(u, v, w) {
                let (d, s, t) = choose|d: int, s: int, t: int|
                    #[trigger] self.bridges(d, s, t, u, v, w);
                assert(self.pair(d, s, t));
                let edge = self.clamp_edge(d, s, t);
                let e = clamps.index_of(edge);
                assert(clamps.contains(edge));
                assert(clamps[e] == edge);
                assert(edges[e].joins(u, v) && edges[e].ohms == w);
            } else if self.wire_joins(u, v, w) {
                self.lemma_wire_kept(keys, edges, u, v, w);
            }
            if exists|e: int|
                0 <= e < edges.len() && (#[trigger] edges[e]).joins(u, v) && edges[e].ohms == w {
                let e = choose|e: int|
                    0 <= e < edges.len() && (#[trigger] edges[e]).joins(u, v) && edges[e].ohms == w;
                if e < clamps.len() {
                    assert(edges[e] == clamps[e]);
                    assert(self.from_clamp(clamps[e], self.design.devices.devices()));
                    let (d, s, t) = choose|d: int, s: int, t: int|
                        d < self.design.devices.devices() && #[trigger] self.pair(d, s, t)
                            && clamps[e] == self.clamp_edge(d, s, t);
                    assert(self.bridges(d, s, t, u, v, w));
                    assert(self.clamp_joins(u, v, w));
                } else {
                    assert(self.from_wire(edges[e]));
                    let edge = edges[e];
                    let net = key_net(edge.a);
                    let k = choose|k: int|
                        #[trigger] self.wires(net, k, edge.a, edge.b, edge.ohms);
                    assert(self.wires(net, k, u, v, w));
                    assert(self.wire_joins(u, v, w));
                }
            }
        }
    }

    proof fn lemma_wire_kept(
        self,
        keys: Seq<u64>,
        edges: Seq<PathEdge>,
        u: u64,
        v: u64,
        w: Number,
    )
        requires
            forall|key: u64| keys.contains(key) <==> #[trigger] self.is_point(key),
            forall|j: int, k: int|
                0 <= j < keys.len() && 0 <= k < self.list(key_net(keys[j])).len()
                    && #[trigger] self.leaves(keys[j], k) ==> edges.contains(
                    self.wire(keys[j], k),
                ),
            self.wire_joins(u, v, w),
        ensures
            exists|e: int|
                0 <= e < edges.len() && (#[trigger] edges[e]).joins(u, v) && edges[e].ohms == w,
    {
        let net = key_net(u);
        let k = choose|k: int| #[trigger] self.wires(net, k, u, v, w);
        let list = self.list(net);
        lemma_key(net, list[k].0);
        lemma_key(net, list[k].1);
        let from = key_of(net, list[k].0);
        assert(self.is_point(from));
        assert(keys.contains(from));
        let j = keys.index_of(from);
        assert(keys[j] == from);
        assert(self.leaves(keys[j], k));
        let edge = self.wire(keys[j], k);
        assert(edges.contains(edge));
        let e = edges.index_of(edge);
        assert(edges[e] == edge);
        assert(edges[e].joins(u, v));
    }

    fn find_interconnect(&self, net: u32, a: u32, b: u32) -> (r: Option<Number>)
        requires
            self.wf(),
            self.probed(net),
        ensures
            r == self.interconnect(net, a, b),
    {
        if a == b {
            return Some(Number { bits: 0 });
        }
        let lo: u32 = if a < b { a } else { b };
        let hi: u32 = if a < b { b } else { a };
        let found = self.probes_of(net);
        match found {
            None => None,
            Some(list) => {
                let mut r: Option<Number> = None;
                let mut k: usize = 0;
                while k < list.len()
                    invariant
                        k <= list@.len(),
                        r == probe_between(list@, lo, hi, k as nat),
                    decreases list@.len() - k,
                {
                    if r.is_none() && list[k].0 == lo && list[k].1 == hi {
                        r = Some(list[k].2);
                    }
                    k = k + 1;
                }
                r
            },
        }
    }

    /// Lowest total resistance from a terminal of a net to a declared supply.
    fn lowest_resistance(&self, graph: &ClampGraph, net: u32, entry: u32) -> (r: Option<Number>)
        requires
            self.wf(),
            self.solvable(),
            graph.of(*self),
        ensures
            r == lowest_cost(self.joined(), self.seed(net, entry), self.goal()),
    {
        let ghost seed = self.seed(net, entry);
        let mut seeds: Vec<Option<Number>> = Vec::new();
        let mut i: usize = 0;
        while i < graph.keys.len()
            invariant
                self.wf(),
                self.solvable(),
                graph.of(*self),
                seed == self.seed(net, entry),
                i <= graph.keys@.len(),
                seeds@.len() == i,
                forall|k: int| 0 <= k < i ==> #[trigger] seeds@[k] == seed(graph.keys@[k]),
            decreases graph.keys@.len() - i,
        {
            let key: u64 = graph.keys[i];
            proof {
                assert(graph.keys@.contains(key));
                assert(self.is_point(key));
            }
            let here: u32 = (key / 0x1_0000_0000) as u32;
            let terminal: u32 = (key % 0x1_0000_0000) as u32;
            let cost: Option<Number> = if here == net {
                self.find_interconnect(net, entry, terminal)
            } else {
                None
            };
            seeds.push(cost);
            i = i + 1;
        }
        proof {
            self.lemma_resistive(net, entry);
            assert forall|u: u64| (#[trigger] seed(u)) is Some implies graph.keys@.contains(u) by {
                assert(self.is_point(u));
            }
        }
        lowest(
            &graph.keys,
            &graph.edges,
            &seeds,
            &graph.goals,
            Ghost(self.joined()),
            Ghost(seed),
            Ghost(self.goal()),
        )
    }

    /// Report a quantity that may be absent against its maximum.
    fn report(
        &self,
        layer: LayerId,
        p: u32,
        measured: Option<Measurement>,
        limit: Measurement,
        out: &mut Violations,
    )
        requires
            self.wf(),
            p < self.design.store.polys(),
        ensures
            final(out)@ == old(out)@ + self.against(layer, p as int, measured, limit),
    {
        let poly = PolyId(p);
        let rule = self.table.head.rule[self.row];
        let severity = self.table.head.severity[self.row];
        let at = self.design.store.first_vertex(poly);
        match measured {
            None => {
                out.push(
                    Violation {
                        rule,
                        layer,
                        severity,
                        at,
                        measured: Measurement::Count(0),
                        limit: Measurement::Count(1),
                        shapes: (poly, None),
                    },
                );
            },
            Some(measured) => {
                if measured.violates(limit, LimitSense::Maximum) {
                    out.push(
                        Violation {
                            rule,
                            layer,
                            severity,
                            at,
                            measured,
                            limit,
                            shapes: (poly, None),
                        },
                    );
                }
            },
        }
        assert(out@ =~= old(out)@ + self.against(layer, p as int, measured, limit));
    }

    /// Whether a pad polygon is the first one of its net.
    fn is_first_pad(&self, p: u32) -> (r: bool)
        requires
            self.wf(),
            self.pad_lo() <= p < self.pad_hi(),
            self.design.nets.nets() > 0,
        ensures
            r == self.first_pad(p as int),
    {
        let net = self.design.nets.net_of[p as usize];
        if net.0 == NO_NET {
            return false;
        }
        let (lo, _) = self.design.store.polys_on_layer(self.table.pad[self.row]);
        let mut q: u32 = lo;
        while q < p
            invariant
                self.wf(),
                self.design.nets.nets() > 0,
                lo == self.pad_lo(),
                lo <= q <= p < self.design.store.polys(),
                net == self.pad_net(p as int),
                forall|k: int| lo <= k < q ==> #[trigger] self.pad_net(k) != net,
            decreases p - q,
        {
            if self.design.nets.net_of[q as usize] == net {
                assert(self.pad_net(q as int) == net);
                return false;
            }
            q = q + 1;
        }
        true
    }

    /// Every pad against its best discharge path; hands back how many nets were
    /// examined.
    fn check_pads(&self, graph: &ClampGraph, out: &mut Violations) -> (examined: u64)
        requires
            self.wf(),
            self.solvable(),
            graph.of(*self),
        ensures
            examined == self.pads_counted(self.pad_hi()),
            examined <= self.pad_hi() - self.pad_lo(),
            final(out)@ == old(out)@ + self.pads_found(self.pad_hi()),
    {
        let layer = self.table.pad[self.row];
        assert(self.table.pad@[self.row as int].0 < self.design.store.layers());
        let (lo, hi) = self.design.store.polys_on_layer(layer);
        let limit = Measurement::Resistance(self.table.max_path_resistance[self.row]);
        let extracted: bool = self.design.nets.net_count() > 0;
        let ghost first = out@;
        let mut examined: u64 = 0;
        let mut p: u32 = lo;
        assert(out@ =~= first + self.pads_found(lo as int));
        while p < hi
            invariant
                self.wf(),
                self.solvable(),
                graph.of(*self),
                layer == self.table.pad@[self.row as int],
                lo == self.pad_lo(),
                hi == self.pad_hi(),
                lo <= p <= hi <= self.design.store.polys(),
                limit == Measurement::Resistance(
                    self.table.max_path_resistance@[self.row as int],
                ),
                extracted == (self.design.nets.nets() > 0),
                examined == self.pads_counted(p as int),
                examined <= p - lo,
                out@ == first + self.pads_found(p as int),
            decreases hi - p,
        {
            if extracted && self.is_first_pad(p) {
                let net = self.design.nets.net_of[p as usize];
                let at = centre(self.design.store.poly_bbox(PolyId(p)));
                let entry: u32 = attach_terminal(self.design.store, self.networks, net, at);
                let measured: Option<Measurement> = match self.lowest_resistance(
                    graph,
                    net.0,
                    entry,
                ) {
                    Some(ohms) => Some(Measurement::Resistance(ohms)),
                    None => None,
                };
                self.report(layer, p, measured, limit, out);
                examined = examined + 1;
            } else {
                assert(!self.first_pad(p as int));
            }
            assert(out@ =~= first + self.pads_found(p + 1));
            p = p + 1;
        }
        examined
    }

    /// Every guard ring against its width and its nearest supply.
    fn check_rings(&self, boxes: &Vec<Bbox>, out: &mut Violations) -> (examined: u64)
        requires
            self.wf(),
            boxes@ == supply_boxes(self.design, self.intent, self.intent.supply_net@.len()),
            forall|k: int| 0 <= k < boxes@.len() ==> (#[trigger] boxes@[k]).wf(),
        ensures
            examined == self.ring_hi() - self.ring_lo(),
            final(out)@ == old(out)@ + self.rings_found(self.ring_hi()),
    {
        let layer = self.table.guard_ring[self.row];
        assert(self.table.guard_ring@[self.row as int].0 < self.design.store.layers());
        let (lo, hi) = self.design.store.polys_on_layer(layer);
        let least = Measurement::Length(self.table.min_guard_ring_width[self.row]);
        let limit = Measurement::Length(self.table.max_tap_distance[self.row]);
        let rule = self.table.head.rule[self.row];
        let severity = self.table.head.severity[self.row];
        let ghost first = out@;
        let mut p: u32 = lo;
        assert(out@ =~= first + self.rings_found(lo as int));
        while p < hi
            invariant
                self.wf(),
                boxes@ == supply_boxes(self.design, self.intent, self.intent.supply_net@.len()),
                forall|k: int| 0 <= k < boxes@.len() ==> (#[trigger] boxes@[k]).wf(),
                layer == self.table.guard_ring@[self.row as int],
                lo == self.ring_lo(),
                hi == self.ring_hi(),
                lo <= p <= hi <= self.design.store.polys(),
                least == Measurement::Length(self.table.min_guard_ring_width@[self.row as int]),
                limit == Measurement::Length(self.table.max_tap_distance@[self.row as int]),
                rule == self.table.head.rule@[self.row as int],
                severity == self.table.head.severity@[self.row as int],
                out@ == first + self.rings_found(p as int),
            decreases hi - p,
        {
            let ghost here = out@;
            let b = self.design.store.poly_bbox(PolyId(p));
            let across: i64 = b.xhi - b.xlo;
            let along: i64 = b.yhi - b.ylo;
            let width = Measurement::Length(if across < along { across } else { along });
            if width.violates(least, LimitSense::Minimum) {
                out.push(
                    Violation {
                        rule,
                        layer,
                        severity,
                        at: self.design.store.first_vertex(PolyId(p)),
                        measured: width,
                        limit: least,
                        shapes: (PolyId(p), None),
                    },
                );
            }
            let ghost narrow = if width.breaks(least, LimitSense::Minimum) {
                seq![self.violation(layer, p as int, width, least)]
            } else {
                Seq::empty()
            };
            assert(out@ =~= here + narrow);
            let gap: Option<Measurement> = match nearest_supply(boxes, b) {
                Some(gap) => Some(Measurement::Length(gap)),
                None => None,
            };
            self.report(layer, p, gap, limit, out);
            assert(out@ =~= here + (narrow + self.against(layer, p as int, gap, limit)));
            assert(out@ =~= here + self.ring_found(p as int));
            assert(out@ =~= first + self.rings_found(p + 1));
            p = p + 1;
        }
        (hi - lo) as u64
    }
}

/// Whether every declared supply is a net of a layout.
pub open spec fn supplies_in(intent: &IntentMap, nets: int) -> bool {
    forall|k: int| 0 <= k < intent.supply_net@.len() ==> (#[trigger] intent.supply_net@[k]).0 < nets
}

/// The boxes of every declared supply's polygons.
fn gather_supply_boxes(design: Design, intent: &IntentMap) -> (r: Vec<Bbox>)
    requires
        design.wf(),
        supplies_in(intent, design.nets.nets()),
    ensures
        r@ == supply_boxes(design, intent, intent.supply_net@.len()),
        forall|k: int| 0 <= k < r@.len() ==> (#[trigger] r@[k]).wf(),
{
    let mut r: Vec<Bbox> = Vec::new();
    let mut i: usize = 0;
    while i < intent.supply_net.len()
        invariant
            design.wf(),
            supplies_in(intent, design.nets.nets()),
            i <= intent.supply_net@.len(),
            r@ == supply_boxes(design, intent, i as nat),
            forall|k: int| 0 <= k < r@.len() ==> (#[trigger] r@[k]).wf(),
        decreases intent.supply_net@.len() - i,
    {
        let net = intent.supply_net[i];
        assert(intent.supply_net@[i as int].0 < design.nets.nets());
        let polys = design.nets.polys_of(net.0, Ghost(design.store.polys()));
        let ghost before = r@;
        let ghost whole = member_boxes(design, polys@);
        let mut k: usize = 0;
        while k < polys.len()
            invariant
                design.wf(),
                k <= polys@.len(),
                forall|j: int| 0 <= j < polys@.len() ==> (#[trigger] polys@[j]).0
                    < design.store.polys(),
                whole == member_boxes(design, polys@),
                r@ == before + whole.take(k as int),
                forall|j: int| 0 <= j < r@.len() ==> (#[trigger] r@[j]).wf(),
            decreases polys@.len() - k,
        {
            assert(polys@[k as int].0 < design.store.polys());
            r.push(design.store.poly_bbox(polys[k]));
            k = k + 1;
            assert(r@ =~= before + whole.take(k as int));
        }
        assert(whole.take(k as int) =~= whole);
        i = i + 1;
    }
    r
}

pub open spec fn esd_latchup_results(
    design: Design,
    intent: &IntentMap,
    networks: &NetNetworks,
    probes: &Vec<Option<Vec<(u32, u32, Number)>>>,
    table: &EsdLatchupTable,
) -> Seq<RowResult> {
    if !intent.usable() {
        all_ended(table.head.rule@.len(), Outcome::Skipped(SkipReason::NoDesignIntent))
    } else {
        Seq::new(
            table.head.rule@.len(),
            |row: int|
                (LatchupRow {
                    design,
                    intent,
                    networks,
                    probes,
                    table,
                    row: row as usize,
                }).result(),
        )
    }
}

/// Flag every pad without a qualifying discharge path, and every unguarded
/// injector.
///
/// The path is the lowest-resistance one from the pad's net to a declared
/// supply, over the clamps that carry the event and the interconnect between
/// the terminals it enters and leaves each net through. A pad with no path at
/// all is reported as none of a required one, not as an infinite one. A row
/// whose clamps land on a network that could not be probed, or that probes to what
/// is no resistance, is refused. Skipped without usable intent.
pub fn check_esd_latchup(
    design: Design,
    intent: &IntentMap,
    networks: &NetNetworks,
    table: &EsdLatchupTable,
    out: &mut Violations,
    runs: &mut Vec<RuleRun>,
)
    requires
        design.wf(),
        intent.wf(),
        supplies_in(intent, design.nets.nets()),
        networks.wf(),
        networks.taps_in(design.store.polys()),
        table.wf(design.store.layers()),
    ensures
        exists|probes: Vec<Option<Vec<(u32, u32, Number)>>>| #[trigger]
            sounds(networks, probes@) && final(out)@ == old(out)@ + all_found(
                esd_latchup_results(design, intent, networks, &probes, table),
            ) && final(runs)@ == old(runs)@ + all_runs(
                table.head.rule@,
                esd_latchup_results(design, intent, networks, &probes, table),
            ),
{
    let probes = probe_rows(networks);
    assert(sounds(networks, probes@));
    check_latchup_probes(design, intent, networks, &probes, table, out, runs);
}

/// The same over given probes: one list per network row, or `None` where the
/// network could not be probed.
pub fn check_latchup_probes(
    design: Design,
    intent: &IntentMap,
    networks: &NetNetworks,
    probes: &Vec<Option<Vec<(u32, u32, Number)>>>,
    table: &EsdLatchupTable,
    out: &mut Violations,
    runs: &mut Vec<RuleRun>,
)
    requires
        design.wf(),
        intent.wf(),
        supplies_in(intent, design.nets.nets()),
        networks.wf(),
        networks.taps_in(design.store.polys()),
        probes_fit(networks, probes@),
        table.wf(design.store.layers()),
    ensures
        final(out)@ == old(out)@ + all_found(
            esd_latchup_results(design, intent, networks, probes, table),
        ),
        final(runs)@ == old(runs)@ + all_runs(
            table.head.rule@,
            esd_latchup_results(design, intent, networks, probes, table),
        ),
{
    let ghost results = esd_latchup_results(design, intent, networks, probes, table);
    let ghost first = out@;
    let ghost begun = runs@;
    if !intent.is_usable() {
        skip_rows(&table.head, out, runs);
        proof {
            lemma_all_ended(
                table.head.rule@.len(),
                Outcome::Skipped(SkipReason::NoDesignIntent),
            );
            assert(out@ =~= first + all_found(results));
        }
        return;
    }
    let boxes = gather_supply_boxes(design, intent);
    let rows: usize = table.head.len();
    let mut row: usize = 0;
    assert(out@ =~= first + all_found(results.take(0)));
    assert(runs@ =~= begun + all_runs(table.head.rule@, results.take(0)));
    while row < rows
        invariant
            design.wf(),
            intent.wf(),
            intent.usable(),
            networks.wf(),
            networks.taps_in(design.store.polys()),
            probes_fit(networks, probes@),
                table.wf(design.store.layers()),
            boxes@ == supply_boxes(design, intent, intent.supply_net@.len()),
            forall|k: int| 0 <= k < boxes@.len() ==> (#[trigger] boxes@[k]).wf(),
            rows == table.head.rows(),
            row <= rows,
            results == esd_latchup_results(design, intent, networks, probes, table),
            out@ == first + all_found(results.take(row as int)),
            runs@ == begun + all_runs(table.head.rule@, results.take(row as int)),
        decreases rows - row,
    {
        let before: usize = out.len();
        let ghost start = out@;
        let rule = table.head.rule[row];
        let this = LatchupRow { design, intent, networks, probes, table, row };
        assert(results[row as int] == this.result());
        match this.resolve() {
            None => {
                record_run(runs, out, before, rule, Outcome::Refused, 0);
            },
            Some(graph) => {
                let pads: u64 = this.check_pads(&graph, out);
                let rings: u64 = this.check_rings(&boxes, out);
                assert(this.table.pad@[row as int].0 < design.store.layers());
                assert(this.table.guard_ring@[row as int].0 < design.store.layers());
                assert(out@ =~= start + this.result().found);
                record_run(runs, out, before, rule, Outcome::Ran, pads + rings);
            },
        }
        proof {
            lemma_next_row(table.head.rule@, results, row as int);
            assert(out@ =~= first + all_found(results.take(row + 1)));
            assert(runs@ =~= begun + all_runs(table.head.rule@, results.take(row + 1)));
        }
        row = row + 1;
    }
    assert(results.take(rows as int) =~= results);
}

} // verus!
