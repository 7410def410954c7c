//! The network tables: the supply grid, the per-net networks, a solution.
use crate::geom::Point;
use crate::intent::{find_net, net_row, nets_ascending, IntentMap};
use crate::model::{LayerId, NetId, PolyId};
use crate::number::{Number, ONE};
use crate::store::is_csr;
use vstd::prelude::*;
use vstd::slice::slice_subrange;

verus! {

/// Why a network could not be built or solved.
///
/// A grid that cannot be solved produces one of these, never a zero-drop
/// solution that reads as clean.
#[derive(Clone, Copy, Debug, PartialEq, Eq, Structural)]
pub enum PowerError {
    /// No node is held at a fixed voltage.
    Unanchored,
    /// A node in a connected part of the grid that no pad reaches.
    UnanchoredIsland(u32),
    /// An edge whose resistance is not positive and finite.
    BadResistance(u32),
    /// A layer carries current and the process gives it no usable sheet
    /// resistance.
    NoSheetResistance(LayerId),
    /// The solve did not reach its tolerance in this many iterations.
    NotConverged(u32),
    /// A node with a value that is not finite.
    NotFinite(u32),
}

/// What kind of conductor an edge models: metal is limited by current per unit
/// width, a via by current per cut.
#[derive(Clone, Copy, Debug, PartialEq, Eq, Structural)]
pub enum EdgeKind {
    Metal,
    Via { cuts: u32 },
}

/// A resistive network over layout.
pub struct PowerGrid {
    /// The net each node belongs to.
    pub node_net: Vec<NetId>,
    pub node_at: Vec<Point>,
    /// The polygon each node taps, and its layer.
    pub node_poly: Vec<PolyId>,
    pub node_layer: Vec<LayerId>,
    /// Millivolts with no interconnect loss.
    pub node_nominal: Vec<Number>,
    /// Microamps drawn at each node; negative injects.
    pub node_load: Vec<Number>,
    /// Nodes held at a fixed voltage, ascending.
    pub source_node: Vec<u32>,
    pub source_voltage: Vec<Number>,
    pub edge_from: Vec<u32>,
    pub edge_to: Vec<u32>,
    /// Ohms.
    pub edge_resistance: Vec<Number>,
    pub edge_width: Vec<i64>,
    pub edge_length: Vec<i64>,
    pub edge_layer: Vec<LayerId>,
    pub edge_kind: Vec<EdgeKind>,
}

/// Strictly ascending numbers.
pub open spec fn climbs(s: Seq<u32>) -> bool {
    forall|i: int, j: int| 0 <= i < j < s.len() ==> s[i] < s[j]
}

impl Default for PowerGrid {
    fn default() -> (r: PowerGrid)
        ensures
            r.wf(),
            r.nodes() == 0,
            r.edges() == 0,
            r.source_node@.len() == 0,
    {
        PowerGrid {
            node_net: Vec::new(),
            node_at: Vec::new(),
            node_poly: Vec::new(),
            node_layer: Vec::new(),
            node_nominal: Vec::new(),
            node_load: Vec::new(),
            source_node: Vec::new(),
            source_voltage: Vec::new(),
            edge_from: Vec::new(),
            edge_to: Vec::new(),
            edge_resistance: Vec::new(),
            edge_width: Vec::new(),
            edge_length: Vec::new(),
            edge_layer: Vec::new(),
            edge_kind: Vec::new(),
        }
    }
}

impl PowerGrid {
    pub open spec fn nodes(&self) -> int {
        self.node_net@.len() as int
    }

    pub open spec fn edges(&self) -> int {
        self.edge_from@.len() as int
    }

    /// Every node and edge column is as long as its table.
    pub open spec fn parallel(&self) -> bool {
        &&& self.node_at@.len() == self.nodes()
        &&& self.node_poly@.len() == self.nodes()
        &&& self.node_layer@.len() == self.nodes()
        &&& self.node_nominal@.len() == self.nodes()
        &&& self.node_load@.len() == self.nodes()
        &&& self.source_voltage@.len() == self.source_node@.len()
        &&& self.edge_to@.len() == self.edges()
        &&& self.edge_resistance@.len() == self.edges()
        &&& self.edge_width@.len() == self.edges()
        &&& self.edge_length@.len() == self.edges()
        &&& self.edge_layer@.len() == self.edges()
        &&& self.edge_kind@.len() == self.edges()
    }

    pub open spec fn wf(&self) -> bool {
        &&& self.parallel()
        &&& self.nodes() < 0xFFFF_FFFF
        &&& self.edges() < 0xFFFF_FFFF
        &&& climbs(self.source_node@)
        &&& forall|k: int|
            0 <= k < self.source_node@.len() ==> (#[trigger] self.source_node@[k]) < self.nodes()
        &&& forall|e: int| 0 <= e < self.edges() ==> (#[trigger] self.edge_from@[e]) < self.nodes()
        &&& forall|e: int| 0 <= e < self.edges() ==> (#[trigger] self.edge_to@[e]) < self.nodes()
    }

    pub fn node_count(&self) -> (r: usize)
        ensures
            r == self.nodes(),
    {
        self.node_net.len()
    }

    pub fn edge_count(&self) -> (r: usize)
        ensures
            r == self.edges(),
    {
        self.edge_from.len()
    }

    pub fn is_empty(&self) -> (r: bool)
        ensures
            r == (self.nodes() == 0),
    {
        self.node_net.len() == 0
    }

    /// The voltage a node is held at; `None` where it is an unknown.
    pub fn fixed_voltage(&self, node: u32) -> (r: Option<Number>)
        requires
            self.wf(),
        ensures
            r is Some <==> self.source_node@.contains(node),
            r is Some ==> r->0 == self.source_voltage@[self.source_node@.index_of(node)],
    {
        let mut lo: usize = 0;
        let mut hi: usize = self.source_node.len();
        while lo < hi
            invariant
                self.wf(),
                lo <= hi <= self.source_node@.len(),
                forall|k: int| 0 <= k < lo ==> (#[trigger] self.source_node@[k]) < node,
                forall|k: int|
                    hi <= k < self.source_node@.len() ==> (#[trigger] self.source_node@[k]) > node,
            decreases hi - lo,
        {
            let mid: usize = lo + (hi - lo) / 2;
            let here: u32 = self.source_node[mid];
            if here == node {
                assert(self.source_node@.index_of(node) == mid) by {
                    let k = self.source_node@.index_of(node);
                    assert(self.source_node@[mid as int] == node);
                    assert(self.source_node@[k] == node);
                }
                return Some(self.source_voltage[mid]);
            }
            if here < node {
                lo = mid + 1;
            } else {
                hi = mid;
            }
        }
        assert(!self.source_node@.contains(node)) by {
            if self.source_node@.contains(node) {
                let k = self.source_node@.index_of(node);
                assert(self.source_node@[k] == node);
            }
        }
        None
    }
}

/// One resistor network per net with at least two device attach points.
pub struct NetNetworks {
    /// The net each row belongs to, ascending.
    pub net: Vec<NetId>,
    /// `node_start[r] .. node_start[r + 1]` are row `r`'s nodes.
    pub node_start: Vec<u32>,
    pub node_at: Vec<Point>,
    pub node_poly: Vec<PolyId>,
    /// `terminal_start[r] .. terminal_start[r + 1]` are row `r`'s terminals, as
    /// node numbers within the row, ascending.
    pub terminal_start: Vec<u32>,
    pub terminal: Vec<u32>,
    /// `edge_start[r] .. edge_start[r + 1]` are row `r`'s edges, whose ends are
    /// node numbers within the row.
    pub edge_start: Vec<u32>,
    pub edge_from: Vec<u32>,
    pub edge_to: Vec<u32>,
    pub edge_resistance: Vec<Number>,
}

/// One row's run in an offset column. A row the column does not have is not
/// accepted: "carries nothing" and "does not exist" are different answers.
pub fn csr_run(start: &Vec<u32>, row: u32) -> (r: (usize, usize))
    requires
        row + 1 < start@.len(),
    ensures
        r.0 == start@[row as int],
        r.1 == start@[row + 1],
{
    let count: usize = start.len();
    assert(row + 1 < count);
    (start[row as usize] as usize, start[row as usize + 1] as usize)
}

impl Default for NetNetworks {
    fn default() -> (r: NetNetworks)
        ensures
            r.wf(),
            r.blank(),
    {
        NetNetworks {
            net: Vec::new(),
            node_start: Vec::new(),
            node_at: Vec::new(),
            node_poly: Vec::new(),
            terminal_start: Vec::new(),
            terminal: Vec::new(),
            edge_start: Vec::new(),
            edge_from: Vec::new(),
            edge_to: Vec::new(),
            edge_resistance: Vec::new(),
        }
    }
}

impl NetNetworks {
    pub open spec fn rows(&self) -> int {
        self.net@.len() as int
    }

    /// Every column is empty.
    pub open spec fn blank(&self) -> bool {
        &&& self.net@ == Seq::<NetId>::empty()
        &&& self.node_start@ == Seq::<u32>::empty()
        &&& self.node_at@ == Seq::<Point>::empty()
        &&& self.node_poly@ == Seq::<PolyId>::empty()
        &&& self.terminal_start@ == Seq::<u32>::empty()
        &&& self.terminal@ == Seq::<u32>::empty()
        &&& self.edge_start@ == Seq::<u32>::empty()
        &&& self.edge_from@ == Seq::<u32>::empty()
        &&& self.edge_to@ == Seq::<u32>::empty()
        &&& self.edge_resistance@ == Seq::<Number>::empty()
    }

    pub open spec fn node_lo(&self, r: int) -> int {
        self.node_start@[r] as int
    }

    pub open spec fn node_hi(&self, r: int) -> int {
        self.node_start@[r + 1] as int
    }

    /// How many nodes row `r` has.
    pub open spec fn node_len(&self, r: int) -> int {
        self.node_hi(r) - self.node_lo(r)
    }

    pub open spec fn points(&self, r: int) -> Seq<Point> {
        self.node_at@.subrange(self.node_lo(r), self.node_hi(r))
    }

    pub open spec fn shapes(&self, r: int) -> Seq<PolyId> {
        self.node_poly@.subrange(self.node_lo(r), self.node_hi(r))
    }

    pub open spec fn terminals(&self, r: int) -> Seq<u32> {
        self.terminal@.subrange(self.terminal_start@[r] as int, self.terminal_start@[r + 1] as int)
    }

    pub open spec fn edge_lo(&self, r: int) -> int {
        self.edge_start@[r] as int
    }

    pub open spec fn edge_hi(&self, r: int) -> int {
        self.edge_start@[r + 1] as int
    }

    pub open spec fn wf(&self) -> bool {
        &&& self.rows() < 0xFFFF_FFFF
        &&& nets_ascending(self.net@)
        &&& self.node_at@.len() < 0xFFFF_FFFF
        &&& self.node_poly@.len() == self.node_at@.len()
        &&& self.edge_to@.len() == self.edge_from@.len()
        &&& self.edge_resistance@.len() == self.edge_from@.len()
        &&& self.rows() > 0 ==> {
            &&& is_csr(self.node_start@, self.rows(), self.node_at@.len() as int)
            &&& is_csr(self.terminal_start@, self.rows(), self.terminal@.len() as int)
            &&& is_csr(self.edge_start@, self.rows(), self.edge_from@.len() as int)
        }
        &&& forall|r: int| 0 <= r < self.rows() ==> climbs(#[trigger] self.terminals(r))
        &&& forall|r: int, k: int|
            0 <= r < self.rows() && 0 <= k < self.terminals(r).len() ==> (
            #[trigger] self.terminals(r)[k]) < self.node_len(r)
        &&& forall|r: int, e: int|
            #![trigger self.edge_lo(r), self.edge_from@[e]]
            #![trigger self.edge_lo(r), self.edge_to@[e]]
            0 <= r < self.rows() && self.edge_lo(r) <= e < self.edge_hi(r) ==> self.edge_from@[e]
                < self.node_len(r) && self.edge_to@[e] < self.node_len(r)
    }

    /// No row has a node for every number.
    pub proof fn lemma_few_nodes(&self, r: int)
        requires
            self.wf(),
            0 <= r < self.rows(),
        ensures
            self.node_len(r) < 0xFFFF_FFFF,
    {
        assert(self.node_start@[r + 1] <= self.node_start@[self.rows()]);
    }

    /// Every node taps one of the first `polys` polygons.
    pub open spec fn taps_in(&self, polys: int) -> bool {
        forall|k: int| 0 <= k < self.node_poly@.len() ==> (#[trigger] self.node_poly@[k]).0 < polys
    }

    pub fn len(&self) -> (r: usize)
        ensures
            r == self.rows(),
    {
        self.net.len()
    }

    pub fn is_empty(&self) -> (r: bool)
        ensures
            r == (self.rows() == 0),
    {
        self.net.len() == 0
    }

    /// The row of a net; `None` where it has fewer than two attach points and
    /// so no network.
    pub fn row_of(&self, net: NetId) -> (r: Option<u32>)
        requires
            nets_ascending(self.net@),
            self.rows() < 0xFFFF_FFFF,
        ensures
            r is Some <==> self.net@.contains(net),
            r is Some ==> net_row(self.net@, net) == Some(r->0 as int) && r->0 < self.rows(),
    {
        match find_net(&self.net, net) {
            Some(row) => Some(row as u32),
            None => None,
        }
    }

    /// One row's nodes: where each is, and the polygon it taps.
    pub fn nodes_of(&self, row: u32) -> (r: (&[Point], &[PolyId]))
        requires
            self.wf(),
            row < self.rows(),
        ensures
            r.0@ == self.points(row as int),
            r.1@ == self.shapes(row as int),
            r.0@.len() == self.node_len(row as int),
            r.1@.len() == self.node_len(row as int),
    {
        let (from, to) = csr_run(&self.node_start, row);
        let points = slice_subrange(self.node_at.as_slice(), from, to);
        let shapes = slice_subrange(self.node_poly.as_slice(), from, to);
        (points, shapes)
    }

    /// One row's terminals, ascending.
    pub fn terminals_of(&self, row: u32) -> (r: &[u32])
        requires
            self.wf(),
            row < self.rows(),
        ensures
            r@ == self.terminals(row as int),
            climbs(r@),
            forall|k: int| 0 <= k < r@.len() ==> (#[trigger] r@[k]) < self.node_len(row as int),
    {
        let (from, to) = csr_run(&self.terminal_start, row);
        let r = slice_subrange(self.terminal.as_slice(), from, to);
        assert(r@ =~= self.terminals(row as int));
        r
    }

    /// One row's edges: both ends and the resistance.
    pub fn edges_of(&self, row: u32) -> (r: (&[u32], &[u32], &[Number]))
        requires
            self.wf(),
            row < self.rows(),
        ensures
            r.0@ == self.edge_from@.subrange(self.edge_lo(row as int), self.edge_hi(row as int)),
            r.1@ == self.edge_to@.subrange(self.edge_lo(row as int), self.edge_hi(row as int)),
            r.2@ == self.edge_resistance@.subrange(
                self.edge_lo(row as int),
                self.edge_hi(row as int),
            ),
            r.1@.len() == r.0@.len(),
            r.2@.len() == r.0@.len(),
            forall|k: int|
                0 <= k < r.0@.len() ==> (#[trigger] r.0@[k]) < self.node_len(row as int),
            forall|k: int|
                0 <= k < r.1@.len() ==> (#[trigger] r.1@[k]) < self.node_len(row as int),
    {
        let (from, to) = csr_run(&self.edge_start, row);
        let a = slice_subrange(self.edge_from.as_slice(), from, to);
        let b = slice_subrange(self.edge_to.as_slice(), from, to);
        let ohms = slice_subrange(self.edge_resistance.as_slice(), from, to);
        proof {
            assert(self.edge_lo(row as int) == from);
            assert forall|k: int| 0 <= k < a@.len() implies (#[trigger] a@[k]) < self.node_len(
                row as int,
            ) by {
                assert(a@[k] == self.edge_from@[from + k]);
            }
            assert forall|k: int| 0 <= k < b@.len() implies (#[trigger] b@[k]) < self.node_len(
                row as int,
            ) by {
                assert(b@[k] == self.edge_to@[from + k]);
            }
        }
        (a, b, ohms)
    }
}

/// The solved state of a grid: row `i` of a node column is node `i`, row `e` of
/// the branch column is edge `e`.
pub struct PowerSolution {
    /// Millivolts.
    pub node_voltage: Vec<Number>,
    /// Nominal minus solved, in millivolts, so a positive drop is a loss.
    pub node_drop: Vec<Number>,
    /// Microamps; positive runs from `edge_from` to `edge_to`.
    pub branch_current: Vec<Number>,
    pub iterations: u32,
    pub relative_residual: Number,
}

/// Whether every number of a column is finite.
pub open spec fn all_finite(s: Seq<Number>) -> bool {
    forall|i: int| 0 <= i < s.len() ==> (#[trigger] s[i]).finite()
}

/// Whether every number of a column is finite.
pub fn is_all_finite(v: &Vec<Number>) -> (r: bool)
    ensures
        r == all_finite(v@),
{
    let mut i: usize = 0;
    while i < v.len()
        invariant
            i <= v@.len(),
            forall|k: int| 0 <= k < i ==> (#[trigger] v@[k]).finite(),
        decreases v@.len() - i,
    {
        if !v[i].is_finite() {
            return false;
        }
        i = i + 1;
    }
    true
}

impl PowerSolution {
    /// Every value is finite and the columns match the grid.
    pub open spec fn consistent(&self, grid: &PowerGrid) -> bool {
        &&& self.node_voltage@.len() == grid.nodes()
        &&& self.node_drop@.len() == grid.nodes()
        &&& self.branch_current@.len() == grid.edges()
        &&& all_finite(self.node_voltage@)
        &&& all_finite(self.node_drop@)
        &&& all_finite(self.branch_current@)
        &&& self.relative_residual.finite()
    }

    /// True when every value is finite and the columns match the grid, which
    /// every rule reading a solution stands on.
    pub fn is_consistent_with(&self, grid: &PowerGrid) -> (r: bool)
        ensures
            r == self.consistent(grid),
    {
        self.node_voltage.len() == grid.node_count() && self.node_drop.len() == grid.node_count()
            && self.branch_current.len() == grid.edge_count() && is_all_finite(&self.node_voltage)
            && is_all_finite(&self.node_drop) && is_all_finite(&self.branch_current)
            && self.relative_residual.is_finite()
    }
}

/// A grid and its solution, borrowed together.
#[derive(Clone, Copy)]
pub struct Solved<'a> {
    pub grid: &'a PowerGrid,
    pub solution: &'a PowerSolution,
}

impl<'a> Solved<'a> {
    pub open spec fn wf(self) -> bool {
        self.grid.wf() && self.solution.consistent(self.grid)
    }
}

/// The manufacturing grid: database units per micrometre.
#[derive(Clone, Copy, Debug, PartialEq, Eq, Structural)]
pub struct Grid {
    pub dbu_per_um: u32,
}

impl Grid {
    /// A length in metres.
    pub open spec fn metres(self, length: i64) -> Number {
        Number::of_spec(length as int).over_spec(Number::of_spec(self.dbu_per_um * 1_000_000))
    }

    /// A length in metres.
    pub fn to_metres(self, length: i64) -> (r: Number)
        ensures
            r == self.metres(length),
    {
        Number::of(length as i128).over(Number::of(self.dbu_per_um as i128 * 1_000_000))
    }
}

/// The total load on one net over the first `n` nodes, summed in node order.
pub open spec fn load_to(grid: &PowerGrid, net: NetId, n: nat) -> Number
    decreases n,
{
    if n == 0 {
        Number { bits: 0 }
    } else {
        let weight = Number { bits: if grid.node_net@[n - 1] == net { ONE } else { 0 } };
        load_to(grid, net, (n - 1) as nat).plus_spec(weight.times_spec(grid.node_load@[n - 1]))
    }
}

/// Total load on one net, over every node of the grid.
fn load_on(grid: &PowerGrid, net: NetId) -> (r: Number)
    requires
        grid.wf(),
    ensures
        r == load_to(grid, net, grid.nodes() as nat),
{
    let mut sum = Number { bits: 0 };
    let mut n: usize = 0;
    while n < grid.node_net.len()
        invariant
            grid.wf(),
            n <= grid.nodes(),
            sum == load_to(grid, net, n as nat),
        decreases grid.nodes() - n,
    {
        let weight = Number { bits: if grid.node_net[n] == net { ONE } else { 0 } };
        sum = sum.plus(weight.times(grid.node_load[n]));
        n = n + 1;
    }
    sum
}

/// Whether limit row `k` states a budget that reached no node.
pub open spec fn budget_lost(grid: &PowerGrid, intent: &IntentMap, k: int) -> bool {
    &&& intent.limit@[k].budget_current_ua is Some
    &&& (intent.limit@[k].budget_current_ua->0).pattern() != 0
    &&& load_to(grid, intent.limit_net@[k], grid.nodes() as nat).pattern() == 0
}

/// Whether any stated budget reached no node.
pub open spec fn any_budget_lost(grid: &PowerGrid, intent: &IntentMap) -> bool {
    exists|k: int| 0 <= k < intent.limit_net@.len() && #[trigger] budget_lost(grid, intent, k)
}

/// Did a stated current budget fail to reach the solve?
///
/// True when some net states a non-zero budget and carries no load at all
/// across its nodes. The branch-current rules refuse then, because a zero
/// current passes every limit silently.
pub fn discarded_budget(grid: &PowerGrid, intent: &IntentMap) -> (r: bool)
    requires
        grid.wf(),
        intent.wf(),
    ensures
        r == any_budget_lost(grid, intent),
{
    let mut k: usize = 0;
    while k < intent.limit_net.len()
        invariant
            grid.wf(),
            intent.wf(),
            k <= intent.limit_net@.len(),
            forall|j: int| 0 <= j < k ==> !#[trigger] budget_lost(grid, intent, j),
        decreases intent.limit_net@.len() - k,
    {
        let stated = match intent.limit[k].budget_current_ua {
            Some(budget) => !budget.is_zero(),
            None => false,
        };
        if stated && load_on(grid, intent.limit_net[k]).is_zero() {
            assert(budget_lost(grid, intent, k as int));
            return true;
        }
        k = k + 1;
    }
    false
}

} // verus!
