//! A coarse resistive grid of the rails: one node per polygon.
use crate::design::kept;
use crate::evidence::names::{decimal, numbered};
use crate::evidence::netlist::{ExtractedNetlist, Technology, OFF_NET};
use crate::evidence::rails::PowerNetClassification;
use crate::geom::{centre, centre_of, min_int, Bbox};
use crate::model::{LayerId, PolyId};
use crate::number::{Number, ONE};
use crate::store::GeometryStore;
use vstd::prelude::*;

verus! {

/// Sheet resistance where none is stated, in ohms per square.
pub const DEFAULT_SHEET: u64 = 0x3FB9_9999_9999_999A;

/// The least resistance an edge has.
pub const LEAST_OHMS: u64 = 0x3EB0_C6F7_A0B5_ED8D;

/// One thousand.
pub const THOUSAND: u64 = 0x408F_4000_0000_0000;

/// Two.
pub const TWO: u64 = 0x4000_0000_0000_0000;

/// The temperature assumed of an edge, in degrees Celsius.
pub const ROOM_CELSIUS: u64 = 0x4039_0000_0000_0000;

/// A node of the coarse grid: one polygon on a rail.
pub struct PowerNode {
    pub id: String,
    pub x: i64,
    pub y: i64,
    pub nominal_voltage_v: Number,
    pub fixed_voltage_v: Option<Number>,
    pub load_current_a: Number,
    pub check_ir_drop: bool,
}

/// What an edge of the coarse grid models.
#[derive(Clone, Copy, Debug, PartialEq, Eq, Structural)]
pub enum PowerEdgeKind {
    Metal { width_um: Number, thickness_um: Number },
    Via { cuts: u32 },
}

/// An edge of the coarse grid.
pub struct PowerEdge {
    pub id: String,
    pub from: usize,
    pub to: usize,
    pub resistance_ohm: Number,
    pub length_um: Number,
    pub kind: PowerEdgeKind,
    pub temperature_c: Number,
    pub max_current_density_a_per_um2: Option<Number>,
    pub max_current_per_cut_a: Option<Number>,
    pub blech_product_limit_a_per_um: Option<Number>,
    pub em_exempt: bool,
}

/// The coarse grid of a layout's rails.
pub struct RailGrid {
    pub nodes: Vec<PowerNode>,
    pub edges: Vec<PowerEdge>,
}

impl Default for RailGrid {
    fn default() -> (r: RailGrid)
        ensures
            r.nodes@.len() == 0,
            r.edges@.len() == 0,
    {
        RailGrid { nodes: Vec::new(), edges: Vec::new() }
    }
}

/// The larger of two numbers; the other where one is not a number.
pub open spec fn larger(a: Number, b: Number) -> Number {
    if a.is_nan_spec() {
        b
    } else if b.is_nan_spec() {
        a
    } else if a.lt(b) {
        b
    } else {
        a
    }
}

pub fn larger_of(a: Number, b: Number) -> (r: Number)
    ensures
        r == larger(a, b),
{
    if a.is_nan() {
        b
    } else if b.is_nan() {
        a
    } else if a.less(b) {
        b
    } else {
        a
    }
}

impl PowerNetClassification {
    /// The last of the first `n` power rows of a net.
    pub open spec fn power_row(&self, net: u32, n: nat) -> Option<int>
        decreases n,
    {
        if n == 0 {
            None
        } else if self.power_nets@[n - 1].0 == net {
            Some(n - 1)
        } else {
            self.power_row(net, (n - 1) as nat)
        }
    }

    /// The last of the first `n` ground rows of a net.
    pub open spec fn ground_row(&self, net: u32, n: nat) -> Option<int>
        decreases n,
    {
        if n == 0 {
            None
        } else if self.ground_nets@[n - 1].0 == net {
            Some(n - 1)
        } else {
            self.ground_row(net, (n - 1) as nat)
        }
    }

    /// The nominal voltage and name of a rail; a ground is at zero, whatever
    /// else it is listed as.
    pub open spec fn rail(&self, net: u32) -> Option<(Number, Seq<char>)> {
        match self.ground_row(net, self.ground_nets@.len()) {
            Some(k) => Some((Number { bits: 0 }, self.ground_nets@[k].1@)),
            None => match self.power_row(net, self.power_nets@.len()) {
                Some(k) => Some((self.power_nets@[k].2, self.power_nets@[k].1@)),
                None => None,
            },
        }
    }

    fn find_power(&self, net: u32) -> (r: Option<usize>)
        ensures
            r is Some <==> self.power_row(net, self.power_nets@.len()) is Some,
            r is Some ==> r->0 == self.power_row(net, self.power_nets@.len())->0 && r->0
                < self.power_nets@.len(),
    {
        let mut n: usize = self.power_nets.len();
        while n > 0
            invariant
                n <= self.power_nets@.len(),
                self.power_row(net, self.power_nets@.len()) == self.power_row(net, n as nat),
            decreases n,
        {
            if self.power_nets[n - 1].0 == net {
                return Some(n - 1);
            }
            n = n - 1;
        }
        None
    }

    fn find_ground(&self, net: u32) -> (r: Option<usize>)
        ensures
            r is Some <==> self.ground_row(net, self.ground_nets@.len()) is Some,
            r is Some ==> r->0 == self.ground_row(net, self.ground_nets@.len())->0 && r->0
                < self.ground_nets@.len(),
    {
        let mut n: usize = self.ground_nets.len();
        while n > 0
            invariant
                n <= self.ground_nets@.len(),
                self.ground_row(net, self.ground_nets@.len()) == self.ground_row(net, n as nat),
            decreases n,
        {
            if self.ground_nets[n - 1].0 == net {
                return Some(n - 1);
            }
            n = n - 1;
        }
        None
    }

    /// Whether a net is a ground.
    pub open spec fn grounds(&self, net: u32) -> bool {
        self.ground_row(net, self.ground_nets@.len()) is Some
    }

    /// Whether a net is a ground.
    pub fn is_ground_net(&self, net: u32) -> (r: bool)
        ensures
            r == self.grounds(net),
    {
        self.find_ground(net).is_some()
    }

    /// Whether a net is a power rail.
    pub open spec fn powers(&self, net: u32) -> bool {
        self.power_row(net, self.power_nets@.len()) is Some
    }

    /// Whether a net is a power rail.
    pub fn is_power_net(&self, net: u32) -> (r: bool)
        ensures
            r == self.powers(net),
    {
        self.find_power(net).is_some()
    }
}

/// A node as the layout gives it.
pub ghost struct Placed {
    pub poly: int,
    pub name: Seq<char>,
    pub nominal: Number,
    pub held: bool,
}

/// Whether two numbers are equal as numbers.
pub open spec fn equal(a: Number, b: Number) -> bool {
    a.le(b) && b.le(a)
}

/// Whether a node at a nominal voltage is already held.
pub open spec fn has_anchor(nodes: Seq<Placed>, nominal: Number) -> bool {
    exists|i: int|
        0 <= i < nodes.len() && (#[trigger] nodes[i]).held && equal(nodes[i].nominal, nominal)
}

/// The nodes of the first `n` polygons: those on a rail. The first at each
/// nominal voltage is held there.
pub open spec fn nodes_to(
    ext: &ExtractedNetlist,
    cls: &PowerNetClassification,
    n: nat,
) -> Seq<Placed>
    decreases n,
{
    if n == 0 {
        Seq::empty()
    } else {
        let before = nodes_to(ext, cls, (n - 1) as nat);
        let net = ext.net_of_poly@[n - 1];
        match cls.rail(net) {
            Some(rail) => if net == OFF_NET {
                before
            } else {
                before.push(
                    Placed {
                        poly: n - 1,
                        name: rail.1,
                        nominal: rail.0,
                        held: !has_anchor(before, rail.0),
                    },
                )
            },
            None => before,
        }
    }
}

/// Whether a node is the one of a placed polygon.
pub open spec fn is_node(store: &GeometryStore, node: &PowerNode, of: Placed) -> bool {
    let at = centre_of(store.bbox@[of.poly]);
    &&& node.id@ == of.name + "_p"@ + decimal(of.poly as nat)
    &&& node.x == at.x
    &&& node.y == at.y
    &&& node.nominal_voltage_v == of.nominal
    &&& node.fixed_voltage_v == (if of.held { Some(of.nominal) } else { None::<Number> })
    &&& node.load_current_a == Number { bits: 0 }
    &&& node.check_ir_drop
}

pub open spec fn are_nodes(store: &GeometryStore, nodes: Seq<PowerNode>, of: Seq<Placed>) -> bool {
    &&& nodes.len() == of.len()
    &&& forall|i: int| 0 <= i < nodes.len() ==> is_node(store, #[trigger] &nodes[i], of[i])
}

/// An edge as the layout gives it.
pub ghost struct Joined {
    pub from: int,
    pub to: int,
    pub ohms: Number,
    /// Length and width of a metal edge; none for a via.
    pub size: Option<(Number, Number)>,
}

/// Every pair of a list with its last entry second, in list order.
pub open spec fn pairs_ending(list: Seq<u32>, i: int, n: nat, ohms: Number) -> Seq<Joined>
    decreases n,
{
    if n == 0 || n <= i + 1 {
        Seq::empty()
    } else {
        pairs_ending(list, i, (n - 1) as nat, ohms).push(
            Joined { from: list[i] as int, to: list[n - 1] as int, ohms, size: None },
        )
    }
}

/// Every pair of the first `n` entries of a list with the later ones.
pub open spec fn pairs_of(list: Seq<u32>, n: nat, ohms: Number) -> Seq<Joined>
    decreases n,
{
    if n == 0 {
        Seq::empty()
    } else {
        pairs_of(list, (n - 1) as nat, ohms) + pairs_ending(list, n - 1, list.len(), ohms)
    }
}

/// Whether a cut touches a node on one of the layers it joins.
pub open spec fn cut_touches(
    store: &GeometryStore,
    nodes: Seq<Placed>,
    joins: Seq<LayerId>,
    cut: int,
) -> spec_fn(int) -> bool {
    |i: int|
        joins.contains(store.layer@[nodes[i].poly]) && store.bbox@[cut].meets(
            store.bbox@[nodes[i].poly],
        )
}

/// The edges a cut makes between the nodes it touches.
pub open spec fn cut_edges(
    store: &GeometryStore,
    nodes: Seq<Placed>,
    joins: Seq<LayerId>,
    cut: int,
    ohms: Number,
) -> Seq<Joined> {
    let list = kept(nodes.len(), cut_touches(store, nodes, joins, cut));
    pairs_of(list, list.len(), ohms)
}

/// The edges of the first `n` cuts from polygon `from` on.
pub open spec fn cuts_to(
    store: &GeometryStore,
    nodes: Seq<Placed>,
    joins: Seq<LayerId>,
    ohms: Number,
    from: int,
    n: nat,
) -> Seq<Joined>
    decreases n,
{
    if n == 0 {
        Seq::empty()
    } else {
        cuts_to(store, nodes, joins, ohms, from, (n - 1) as nat) + cut_edges(
            store,
            nodes,
            joins,
            from + n - 1,
            ohms,
        )
    }
}

/// The resistance of a via: one ohm where none is stated.
pub open spec fn via_ohms(tech: &Technology, layer: LayerId) -> Number {
    larger(
        match tech.electrics@[layer.0 as int] {
            Some(e) => e.via_res_ohm,
            None => Number { bits: ONE },
        },
        Number { bits: LEAST_OHMS },
    )
}

/// The via edges of the first `n` via layers.
pub open spec fn vias_to(
    store: &GeometryStore,
    tech: &Technology,
    nodes: Seq<Placed>,
    n: nat,
) -> Seq<Joined>
    decreases n,
{
    if n == 0 {
        Seq::empty()
    } else {
        let rule = &tech.vias@[n - 1];
        vias_to(store, tech, nodes, (n - 1) as nat) + cuts_to(
            store,
            nodes,
            rule.joins@,
            via_ohms(tech, rule.cut),
            store.row_lo(rule.cut.0 as int),
            (store.row_hi(rule.cut.0 as int) - store.row_lo(rule.cut.0 as int)) as nat,
        )
    }
}

pub open spec fn apart(a: int, b: int) -> int {
    if a < b { b - a } else { a - b }
}

/// Micrometres per database unit.
pub open spec fn dbu_um(tech: &Technology) -> Number {
    tech.dbu_nm.over_spec(Number { bits: THOUSAND })
}

/// The sheet resistance of a layer.
pub open spec fn sheet_of(tech: &Technology, layer: LayerId) -> Number {
    match tech.electrics@[layer.0 as int] {
        Some(e) => e.sheet_res_ohm_sq,
        None => Number { bits: DEFAULT_SHEET },
    }
}

/// The smaller dimension of a box.
pub open spec fn lesser_side(b: Bbox) -> int {
    min_int(b.xhi - b.xlo, b.yhi - b.ylo)
}

/// The metal between two overlapping polygons of one layer: centre to centre
/// long, and as wide as the narrower box, whose width is its smaller dimension.
pub open spec fn metal_edge(
    tech: &Technology,
    layer: LayerId,
    from: int,
    to: int,
    a: Bbox,
    b: Bbox,
) -> Joined {
    let unit = dbu_um(tech);
    let dx = Number::of_spec(apart(a.xlo + a.xhi, b.xlo + b.xhi)).times_spec(unit).over_spec(
        Number { bits: TWO },
    );
    let dy = Number::of_spec(apart(a.ylo + a.yhi, b.ylo + b.yhi)).times_spec(unit).over_spec(
        Number { bits: TWO },
    );
    let length = larger(dx.times_spec(dx).plus_spec(dy.times_spec(dy)).sqrt_spec(), unit);
    let width = larger(
        Number::of_spec(min_int(lesser_side(a), lesser_side(b))).times_spec(unit),
        unit,
    );
    Joined {
        from,
        to,
        ohms: larger(
            sheet_of(tech, layer).times_spec(length).over_spec(width),
            Number { bits: LEAST_OHMS },
        ),
        size: Some((length, width)),
    }
}

/// Whether two nodes are overlapping polygons of one net and layer.
pub open spec fn abut(
    store: &GeometryStore,
    ext: &ExtractedNetlist,
    nodes: Seq<Placed>,
    i: int,
    j: int,
) -> bool {
    let p = nodes[i].poly;
    let q = nodes[j].poly;
    &&& ext.net_of_poly@[p] == ext.net_of_poly@[q]
    &&& store.layer@[p] == store.layer@[q]
    &&& store.bbox@[p].meets(store.bbox@[q])
}

/// The metal edges from node `i` to those after it and below `n`.
pub open spec fn metal_from(
    store: &GeometryStore,
    tech: &Technology,
    ext: &ExtractedNetlist,
    nodes: Seq<Placed>,
    i: int,
    n: nat,
) -> Seq<Joined>
    decreases n,
{
    if n == 0 || n <= i + 1 {
        Seq::empty()
    } else {
        let before = metal_from(store, tech, ext, nodes, i, (n - 1) as nat);
        if abut(store, ext, nodes, i, n - 1) {
            before.push(
                metal_edge(
                    tech,
                    store.layer@[nodes[i].poly],
                    i,
                    n - 1,
                    store.bbox@[nodes[i].poly],
                    store.bbox@[nodes[n - 1].poly],
                ),
            )
        } else {
            before
        }
    }
}

/// The metal edges from the first `n` nodes.
pub open spec fn metal_to(
    store: &GeometryStore,
    tech: &Technology,
    ext: &ExtractedNetlist,
    nodes: Seq<Placed>,
    n: nat,
) -> Seq<Joined>
    decreases n,
{
    if n == 0 {
        Seq::empty()
    } else {
        metal_to(store, tech, ext, nodes, (n - 1) as nat) + metal_from(
            store,
            tech,
            ext,
            nodes,
            n - 1,
            nodes.len(),
        )
    }
}

/// Whether an edge is the one of a joined pair, numbered `k`.
pub open spec fn is_edge(edge: &PowerEdge, of: Joined, k: int) -> bool {
    &&& edge.from == of.from
    &&& edge.to == of.to
    &&& edge.resistance_ohm == of.ohms
    &&& edge.temperature_c == Number { bits: ROOM_CELSIUS }
    &&& edge.max_current_density_a_per_um2 is None
    &&& edge.max_current_per_cut_a is None
    &&& edge.blech_product_limit_a_per_um is None
    &&& !edge.em_exempt
    &&& match of.size {
        Some(size) => {
            &&& edge.id@ == "seg_e"@ + decimal(k as nat)
            &&& edge.length_um == size.0
            &&& edge.kind == (PowerEdgeKind::Metal {
                width_um: size.1,
                thickness_um: Number { bits: ONE },
            })
        },
        None => {
            &&& edge.id@ == "via_e"@ + decimal(k as nat)
            &&& edge.length_um == Number { bits: 0 }
            &&& edge.kind == (PowerEdgeKind::Via { cuts: 1 })
        },
    }
}

pub open spec fn are_edges(edges: Seq<PowerEdge>, of: Seq<Joined>) -> bool {
    &&& edges.len() == of.len()
    &&& forall|k: int| 0 <= k < edges.len() ==> is_edge(#[trigger] &edges[k], of[k], k)
}

/// The grid of a layout: nothing where there is no rail.
pub open spec fn is_rail_grid(
    store: &GeometryStore,
    tech: &Technology,
    ext: &ExtractedNetlist,
    cls: &PowerNetClassification,
    r: &RailGrid,
) -> bool {
    let nodes = nodes_to(ext, cls, store.polys() as nat);
    &&& are_nodes(store, r.nodes@, nodes)
    &&& are_edges(
        r.edges@,
        vias_to(store, tech, nodes, tech.vias@.len()) + metal_to(
            store,
            tech,
            ext,
            nodes,
            nodes.len(),
        ),
    )
}

/// Every node is one of the polygons, ascending.
proof fn lemma_nodes(ext: &ExtractedNetlist, cls: &PowerNetClassification, n: nat)
    ensures
        nodes_to(ext, cls, n).len() <= n,
        forall|i: int|
            0 <= i < nodes_to(ext, cls, n).len() ==> 0 <= (#[trigger] nodes_to(
                ext,
                cls,
                n,
            )[i]).poly < n,
    decreases n,
{
    if n > 0 {
        let m = (n - 1) as nat;
        lemma_nodes(ext, cls, m);
        let before = nodes_to(ext, cls, m);
        let now = nodes_to(ext, cls, n);
        assert forall|i: int| 0 <= i < now.len() implies 0 <= (#[trigger] now[i]).poly < n by {
            if i < before.len() {
                assert(0 <= before[i].poly < m);
            }
        }
    }
}

/// A layout with no rail has no node.
pub proof fn lemma_no_rail(ext: &ExtractedNetlist, cls: &PowerNetClassification, n: nat)
    requires
        cls.power_nets@.len() == 0,
        cls.ground_nets@.len() == 0,
    ensures
        nodes_to(ext, cls, n).len() == 0,
    decreases n,
{
    if n > 0 {
        lemma_no_rail(ext, cls, (n - 1) as nat);
    }
}

/// The polygons of the nodes, as a column.
spec fn lists(polys: Seq<u32>, nodes: Seq<Placed>) -> bool {
    &&& polys.len() == nodes.len()
    &&& forall|i: int| 0 <= i < polys.len() ==> (#[trigger] polys[i]) == nodes[i].poly
}

fn is_anchored(
    nodes: &Vec<PowerNode>,
    nominal: Number,
    Ghost(store): Ghost<&GeometryStore>,
    Ghost(of): Ghost<Seq<Placed>>,
) -> (r: bool)
    requires
        are_nodes(store, nodes@, of),
    ensures
        r == has_anchor(of, nominal),
{
    let mut i: usize = 0;
    while i < nodes.len()
        invariant
            i <= nodes@.len(),
            are_nodes(store, nodes@, of),
            forall|k: int|
                0 <= k < i ==> !((#[trigger] of[k]).held && equal(of[k].nominal, nominal)),
        decreases nodes@.len() - i,
    {
        let node = &nodes[i];
        assert(is_node(store, &nodes@[i as int], of[i as int]));
        let here = node.nominal_voltage_v;
        if node.fixed_voltage_v.is_some() && here.at_most(nominal) && nominal.at_most(here) {
            assert(of[i as int].held && equal(of[i as int].nominal, nominal));
            return true;
        }
        i = i + 1;
    }
    false
}

fn place_nodes(store: &GeometryStore, ext: &ExtractedNetlist, cls: &PowerNetClassification) -> (r: (
    Vec<PowerNode>,
    Vec<u32>,
))
    requires
        store.wf(),
        ext.wf(store),
    ensures
        are_nodes(store, r.0@, nodes_to(ext, cls, store.polys() as nat)),
        lists(r.1@, nodes_to(ext, cls, store.polys() as nat)),
{
    let polys: usize = ext.net_of_poly.len();
    let mut nodes: Vec<PowerNode> = Vec::new();
    let mut of: Vec<u32> = Vec::new();
    let mut p: usize = 0;
    while p < polys
        invariant
            p <= polys == store.polys(),
            store.wf(),
            ext.wf(store),
            are_nodes(store, nodes@, nodes_to(ext, cls, p as nat)),
            lists(of@, nodes_to(ext, cls, p as nat)),
        decreases polys - p,
    {
        let net: u32 = ext.net_of_poly[p];
        let ghost before = nodes_to(ext, cls, p as nat);
        let ghost was = nodes@;
        let rail: Option<(Number, String)> = match cls.find_ground(net) {
            Some(k) => Some((Number { bits: 0 }, cls.ground_nets[k].1.clone())),
            None => match cls.find_power(net) {
                Some(k) => Some((cls.power_nets[k].2, cls.power_nets[k].1.clone())),
                None => None,
            },
        };
        match rail {
            Some((nominal, name)) => {
                if net != OFF_NET {
                    let taken: bool = is_anchored(&nodes, nominal, Ghost(store), Ghost(before));
                    let at = centre(store.poly_bbox(PolyId(p as u32)));
                    let mut id = name;
                    id.append("_p");
                    let tail = numbered("", p as u64);
                    id.append(tail.as_str());
                    proof {
                        reveal_strlit("");
                        assert(tail@ =~= decimal(p as nat));
                    }
                    nodes.push(
                        PowerNode {
                            id,
                            x: at.x,
                            y: at.y,
                            nominal_voltage_v: nominal,
                            fixed_voltage_v: if taken { None } else { Some(nominal) },
                            load_current_a: Number { bits: 0 },
                            check_ir_drop: true,
                        },
                    );
                    of.push(p as u32);
                }
            },
            None => {},
        }
        proof {
            let now = nodes_to(ext, cls, (p + 1) as nat);
            assert forall|i: int| 0 <= i < nodes@.len() implies is_node(
                store,
                #[trigger] &nodes@[i],
                now[i],
            ) by {
                if i < was.len() {
                    assert(is_node(store, &was[i], before[i]));
                }
            }
        }
        p = p + 1;
    }
    (nodes, of)
}

fn via_edge(from: u32, to: u32, ohms: Number, k: usize) -> (r: PowerEdge)
    ensures
        is_edge(
            &r,
            (Joined { from: from as int, to: to as int, ohms, size: None }),
            k as int,
        ),
{
    PowerEdge {
        id: numbered("via_e", k as u64),
        from: from as usize,
        to: to as usize,
        resistance_ohm: ohms,
        length_um: Number { bits: 0 },
        kind: PowerEdgeKind::Via { cuts: 1 },
        temperature_c: Number { bits: ROOM_CELSIUS },
        max_current_density_a_per_um2: None,
        max_current_per_cut_a: None,
        blech_product_limit_a_per_um: None,
        em_exempt: false,
    }
}

/// One more edge of a list.
proof fn lemma_edge_pushed(edges: Seq<PowerEdge>, of: Seq<Joined>, edge: PowerEdge, joined: Joined)
    requires
        are_edges(edges, of),
        is_edge(&edge, joined, edges.len() as int),
    ensures
        are_edges(edges.push(edge), of.push(joined)),
{
    let now = edges.push(edge);
    assert forall|k: int| 0 <= k < now.len() implies is_edge(
        #[trigger] &now[k],
        of.push(joined)[k],
        k,
    ) by {
        if k < edges.len() {
            assert(is_edge(&edges[k], of[k], k));
        }
    }
}

fn push_pairs(
    list: &Vec<u32>,
    ohms: Number,
    edges: &mut Vec<PowerEdge>,
    Ghost(of): Ghost<Seq<Joined>>,
)
    requires
        are_edges(old(edges)@, of),
    ensures
        are_edges(final(edges)@, of + pairs_of(list@, list@.len(), ohms)),
{
    let count: usize = list.len();
    let mut i: usize = 0;
    assert(of + pairs_of(list@, 0, ohms) =~= of);
    while i < count
        invariant
            i <= count == list@.len(),
            are_edges(edges@, of + pairs_of(list@, i as nat, ohms)),
        decreases count - i,
    {
        let ghost before = of + pairs_of(list@, i as nat, ohms);
        let mut j: usize = i + 1;
        assert(before + pairs_ending(list@, i as int, j as nat, ohms) =~= before);
        while j < count
            invariant
                i < j <= count == list@.len(),
                are_edges(edges@, before + pairs_ending(list@, i as int, j as nat, ohms)),
            decreases count - j,
        {
            let ghost was = edges@;
            let ghost then = before + pairs_ending(list@, i as int, j as nat, ohms);
            let edge = via_edge(list[i], list[j], ohms, edges.len());
            let ghost joined = Joined {
                from: list@[i as int] as int,
                to: list@[j as int] as int,
                ohms,
                size: None,
            };
            proof {
                lemma_edge_pushed(was, then, edge, joined);
                assert(then.push(joined) =~= before + pairs_ending(
                    list@,
                    i as int,
                    (j + 1) as nat,
                    ohms,
                ));
            }
            edges.push(edge);
            j = j + 1;
        }
        assert(before + pairs_ending(list@, i as int, count as nat, ohms) =~= of + pairs_of(
            list@,
            (i + 1) as nat,
            ohms,
        ));
        i = i + 1;
    }
}

fn names_layer(joins: &Vec<LayerId>, layer: LayerId) -> (r: bool)
    ensures
        r == joins@.contains(layer),
{
    let mut i: usize = 0;
    while i < joins.len()
        invariant
            i <= joins@.len(),
            forall|k: int| 0 <= k < i ==> (#[trigger] joins@[k]) != layer,
        decreases joins@.len() - i,
    {
        if joins[i] == layer {
            assert(joins@[i as int] == layer);
            return true;
        }
        i = i + 1;
    }
    false
}

fn touched(
    store: &GeometryStore,
    polys: &Vec<u32>,
    joins: &Vec<LayerId>,
    cut: u32,
    Ghost(nodes): Ghost<Seq<Placed>>,
) -> (r: Vec<u32>)
    requires
        store.wf(),
        cut < store.polys(),
        lists(polys@, nodes),
        forall|i: int| 0 <= i < polys@.len() ==> (#[trigger] polys@[i]) < store.polys(),
        polys@.len() <= 0xFFFF_FFFF,
    ensures
        r@ == kept(nodes.len(), cut_touches(store, nodes, joins@, cut as int)),
{
    let bbox = store.poly_bbox(PolyId(cut));
    let count: usize = polys.len();
    let mut r: Vec<u32> = Vec::new();
    let mut i: usize = 0;
    while i < count
        invariant
            i <= count == polys@.len() <= 0xFFFF_FFFF,
            store.wf(),
            cut < store.polys(),
            bbox == store.bbox@[cut as int],
            lists(polys@, nodes),
            forall|i: int| 0 <= i < polys@.len() ==> (#[trigger] polys@[i]) < store.polys(),
            r@ == kept(i as nat, cut_touches(store, nodes, joins@, cut as int)),
        decreases count - i,
    {
        let poly = PolyId(polys[i]);
        assert(polys@[i as int] == nodes[i as int].poly);
        if names_layer(joins, store.poly_layer(poly)) && bbox.overlaps(store.poly_bbox(poly)) {
            r.push(i as u32);
        }
        i = i + 1;
    }
    r
}

fn push_vias(
    store: &GeometryStore,
    tech: &Technology,
    polys: &Vec<u32>,
    edges: &mut Vec<PowerEdge>,
    Ghost(nodes): Ghost<Seq<Placed>>,
)
    requires
        store.wf(),
        tech.wf(store),
        lists(polys@, nodes),
        forall|i: int| 0 <= i < polys@.len() ==> (#[trigger] polys@[i]) < store.polys(),
        polys@.len() <= 0xFFFF_FFFF,
        old(edges)@.len() == 0,
    ensures
        are_edges(final(edges)@, vias_to(store, tech, nodes, tech.vias@.len())),
{
    let mut n: usize = 0;
    while n < tech.vias.len()
        invariant
            n <= tech.vias@.len(),
            store.wf(),
            tech.wf(store),
            lists(polys@, nodes),
            forall|i: int| 0 <= i < polys@.len() ==> (#[trigger] polys@[i]) < store.polys(),
            polys@.len() <= 0xFFFF_FFFF,
            are_edges(edges@, vias_to(store, tech, nodes, n as nat)),
        decreases tech.vias@.len() - n,
    {
        let rule = &tech.vias[n];
        let cut = rule.cut;
        assert(tech.vias@[n as int].cut.0 < store.layers());
        let stated = match tech.electrics[cut.0 as usize] {
            Some(e) => e.via_res_ohm,
            None => Number { bits: ONE },
        };
        let ohms = larger_of(stated, Number { bits: LEAST_OHMS });
        let (lo, hi) = store.polys_on_layer(cut);
        let ghost before = vias_to(store, tech, nodes, n as nat);
        let mut p: u32 = lo;
        assert(before + cuts_to(store, nodes, rule.joins@, ohms, lo as int, 0) =~= before);
        while p < hi
            invariant
                lo <= p <= hi <= store.polys(),
                store.wf(),
                lists(polys@, nodes),
                forall|i: int| 0 <= i < polys@.len() ==> (#[trigger] polys@[i]) < store.polys(),
                polys@.len() <= 0xFFFF_FFFF,
                are_edges(
                    edges@,
                    before + cuts_to(
                        store,
                        nodes,
                        rule.joins@,
                        ohms,
                        lo as int,
                        (p - lo) as nat,
                    ),
                ),
            decreases hi - p,
        {
            let ghost then = before + cuts_to(
                store,
                nodes,
                rule.joins@,
                ohms,
                lo as int,
                (p - lo) as nat,
            );
            let list = touched(store, polys, &rule.joins, p, Ghost(nodes));
            push_pairs(&list, ohms, edges, Ghost(then));
            proof {
                assert(then + pairs_of(list@, list@.len(), ohms) =~= before + cuts_to(
                    store,
                    nodes,
                    rule.joins@,
                    ohms,
                    lo as int,
                    (p + 1 - lo) as nat,
                ));
            }
            p = p + 1;
        }
        n = n + 1;
    }
}

fn join_metal(
    tech: &Technology,
    sheet: Number,
    from: u32,
    to: u32,
    a: Bbox,
    b: Bbox,
    k: usize,
    Ghost(layer): Ghost<LayerId>,
) -> (r: PowerEdge)
    requires
        a.wf(),
        b.wf(),
        sheet == sheet_of(tech, layer),
    ensures
        is_edge(&r, metal_edge(tech, layer, from as int, to as int, a, b), k as int),
{
    let unit = tech.dbu_nm.over(Number { bits: THOUSAND });
    let ax: i64 = a.xlo + a.xhi;
    let bx: i64 = b.xlo + b.xhi;
    let ay: i64 = a.ylo + a.yhi;
    let by_: i64 = b.ylo + b.yhi;
    let x: i64 = if ax < bx { bx - ax } else { ax - bx };
    let y: i64 = if ay < by_ { by_ - ay } else { ay - by_ };
    let dx = Number::of(x as i128).times(unit).over(Number { bits: TWO });
    let dy = Number::of(y as i128).times(unit).over(Number { bits: TWO });
    let length = larger_of(dx.times(dx).plus(dy.times(dy)).sqrt(), unit);
    let wa: i64 = if a.xhi - a.xlo < a.yhi - a.ylo { a.xhi - a.xlo } else { a.yhi - a.ylo };
    let wb: i64 = if b.xhi - b.xlo < b.yhi - b.ylo { b.xhi - b.xlo } else { b.yhi - b.ylo };
    let narrow: i64 = if wa < wb { wa } else { wb };
    let width = larger_of(Number::of(narrow as i128).times(unit), unit);
    PowerEdge {
        id: numbered("seg_e", k as u64),
        from: from as usize,
        to: to as usize,
        resistance_ohm: larger_of(
            sheet.times(length).over(width),
            Number { bits: LEAST_OHMS },
        ),
        length_um: length,
        kind: PowerEdgeKind::Metal { width_um: width, thickness_um: Number { bits: ONE } },
        temperature_c: Number { bits: ROOM_CELSIUS },
        max_current_density_a_per_um2: None,
        max_current_per_cut_a: None,
        blech_product_limit_a_per_um: None,
        em_exempt: false,
    }
}

fn push_metal(
    store: &GeometryStore,
    tech: &Technology,
    ext: &ExtractedNetlist,
    polys: &Vec<u32>,
    edges: &mut Vec<PowerEdge>,
    Ghost(nodes): Ghost<Seq<Placed>>,
    Ghost(of): Ghost<Seq<Joined>>,
)
    requires
        store.wf(),
        tech.wf(store),
        ext.wf(store),
        lists(polys@, nodes),
        forall|i: int| 0 <= i < polys@.len() ==> (#[trigger] polys@[i]) < store.polys(),
        polys@.len() <= 0xFFFF_FFFF,
        are_edges(old(edges)@, of),
    ensures
        are_edges(final(edges)@, of + metal_to(store, tech, ext, nodes, nodes.len())),
{
    let count: usize = polys.len();
    let mut i: usize = 0;
    assert(of + metal_to(store, tech, ext, nodes, 0) =~= of);
    while i < count
        invariant
            i <= count == polys@.len() <= 0xFFFF_FFFF,
            store.wf(),
            tech.wf(store),
            ext.wf(store),
            lists(polys@, nodes),
            forall|i: int| 0 <= i < polys@.len() ==> (#[trigger] polys@[i]) < store.polys(),
            are_edges(edges@, of + metal_to(store, tech, ext, nodes, i as nat)),
        decreases count - i,
    {
        let p = PolyId(polys[i]);
        let a = store.poly_bbox(p);
        let layer = store.poly_layer(p);
        let net: u32 = ext.net_of_poly[p.0 as usize];
        let sheet = match tech.electrics[layer.0 as usize] {
            Some(e) => e.sheet_res_ohm_sq,
            None => Number { bits: DEFAULT_SHEET },
        };
        let ghost before = of + metal_to(store, tech, ext, nodes, i as nat);
        assert(nodes[i as int].poly == p.0);
        let mut j: usize = i + 1;
        assert(before + metal_from(store, tech, ext, nodes, i as int, j as nat) =~= before);
        while j < count
            invariant
                i < j <= count == polys@.len() <= 0xFFFF_FFFF,
                store.wf(),
                tech.wf(store),
                ext.wf(store),
                lists(polys@, nodes),
                forall|i: int| 0 <= i < polys@.len() ==> (#[trigger] polys@[i]) < store.polys(),
                p.0 == nodes[i as int].poly,
                p.0 < store.polys(),
                a == store.bbox@[p.0 as int],
                a.wf(),
                layer == store.layer@[p.0 as int],
                net == ext.net_of_poly@[p.0 as int],
                sheet == sheet_of(tech, layer),
                are_edges(
                    edges@,
                    before + metal_from(store, tech, ext, nodes, i as int, j as nat),
                ),
            decreases count - j,
        {
            let q = PolyId(polys[j]);
            let b = store.poly_bbox(q);
            assert(nodes[j as int].poly == q.0);
            let ghost then = before + metal_from(store, tech, ext, nodes, i as int, j as nat);
            if ext.net_of_poly[q.0 as usize] == net && store.poly_layer(q) == layer && a.overlaps(
                b,
            ) {
                let edge = join_metal(
                    tech,
                    sheet,
                    i as u32,
                    j as u32,
                    a,
                    b,
                    edges.len(),
                    Ghost(layer),
                );
                proof {
                    let joined = metal_edge(tech, layer, i as int, j as int, a, b);
                    lemma_edge_pushed(edges@, then, edge, joined);
                    assert(abut(store, ext, nodes, i as int, j as int));
                    assert(then.push(joined) =~= before + metal_from(
                        store,
                        tech,
                        ext,
                        nodes,
                        i as int,
                        (j + 1) as nat,
                    ));
                }
                edges.push(edge);
            } else {
                assert(!abut(store, ext, nodes, i as int, j as int));
            }
            j = j + 1;
        }
        assert(before + metal_from(store, tech, ext, nodes, i as int, count as nat) =~= of
            + metal_to(store, tech, ext, nodes, (i + 1) as nat));
        i = i + 1;
    }
}

/// Extract a coarse resistive grid of the rails: one node per polygon on a rail,
/// an edge per pair of nodes a cut joins, and an edge per pair of overlapping
/// polygons of one net and layer.
pub fn extract_power_grid(
    store: &GeometryStore,
    tech: &Technology,
    ext: &ExtractedNetlist,
    cls: &PowerNetClassification,
) -> (r: RailGrid)
    requires
        store.wf(),
        tech.wf(store),
        ext.wf(store),
    ensures
        is_rail_grid(store, tech, ext, cls, &r),
{
    let (nodes, polys) = place_nodes(store, ext, cls);
    let ghost of = nodes_to(ext, cls, store.polys() as nat);
    proof {
        lemma_nodes(ext, cls, store.polys() as nat);
        assert forall|i: int| 0 <= i < polys@.len() implies (#[trigger] polys@[i])
            < store.polys() by {
            assert(of[i].poly < store.polys());
        }
    }
    let mut edges: Vec<PowerEdge> = Vec::new();
    push_vias(store, tech, &polys, &mut edges, Ghost(of));
    push_metal(
        store,
        tech,
        ext,
        &polys,
        &mut edges,
        Ghost(of),
        Ghost(vias_to(store, tech, of, tech.vias@.len())),
    );
    RailGrid { nodes, edges }
}

} // verus!
