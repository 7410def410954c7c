//! The linear system a supply grid poses, and the state its answer describes.
use crate::components::{components, connected};
use crate::design::{kept, lemma_kept};
use crate::number::{Number, ONE};
use crate::power::network::{PowerError, PowerGrid, PowerSolution};
use vstd::prelude::*;

verus! {

/// Microamps through one ohm per millivolt across it.
pub const UA_PER_MV_OHM: u64 = 0x408F_4000_0000_0000;

/// The unknown of a node that is held at a fixed voltage.
pub const NOT_AN_UNKNOWN: u32 = 0xFFFF_FFFF;

/// When an iterative solve stops.
#[derive(Clone, Copy, Debug, PartialEq, Eq, Structural)]
pub struct SolveConfig {
    /// The residual to reach, as a fraction of the initial one.
    pub relative_tolerance: Number,
    pub max_iterations: u32,
}

impl Default for SolveConfig {
    /// Far below any limit a deck states, so no verdict turns on the tolerance.
    fn default() -> (r: SolveConfig)
        ensures
            r.relative_tolerance.bits == 0x3DDB_7CDF_D9D7_BDBB,
            r.max_iterations == 20_000,
    {
        SolveConfig {
            relative_tolerance: Number { bits: 0x3DDB_7CDF_D9D7_BDBB },
            max_iterations: 20_000,
        }
    }
}

/// Number `k` is the first below `n` that a predicate picks.
pub open spec fn is_first(n: int, bad: spec_fn(int) -> bool, k: int) -> bool {
    &&& 0 <= k < n
    &&& bad(k)
    &&& forall|j: int| 0 <= j < k ==> !(#[trigger] bad(j))
}

/// The first number below `n` that a predicate picks.
pub open spec fn first_where(n: int, bad: spec_fn(int) -> bool) -> Option<int> {
    if exists|k: int| is_first(n, bad, k) {
        Some(choose|k: int| is_first(n, bad, k))
    } else {
        None
    }
}

proof fn lemma_first(n: int, bad: spec_fn(int) -> bool, k: int)
    requires
        is_first(n, bad, k),
    ensures
        first_where(n, bad) == Some(k),
{
    let c = choose|c: int| is_first(n, bad, c);
    assert(is_first(n, bad, c));
    assert(bad(c) && bad(k));
}

proof fn lemma_none(n: int, bad: spec_fn(int) -> bool)
    requires
        forall|j: int| 0 <= j < n ==> !(#[trigger] bad(j)),
    ensures
        first_where(n, bad) is None,
{
}

impl PowerGrid {
    /// Which two nodes each edge joins.
    pub open spec fn pairs(&self) -> Seq<(u32, u32)> {
        Seq::new(self.edges() as nat, |e: int| (self.edge_from@[e], self.edge_to@[e]))
    }

    pub open spec fn node_unusable(&self) -> spec_fn(int) -> bool {
        |n: int| !(self.node_nominal@[n].finite() && self.node_load@[n].finite())
    }

    pub open spec fn pad_unusable(&self) -> spec_fn(int) -> bool {
        |p: int| !self.source_voltage@[p].finite()
    }

    /// A resistance that is not positive and finite: a zero one in particular
    /// would short two nodes and remove a drop the design has.
    pub open spec fn edge_unusable(&self) -> spec_fn(int) -> bool {
        |e: int|
            !(Number { bits: 0 }.lt(self.edge_resistance@[e])
                && self.edge_resistance@[e].finite())
    }

    /// Whether a pad reaches a node.
    pub open spec fn anchored(&self, n: int) -> bool {
        exists|p: int|
            0 <= p < self.source_node@.len() && connected(
                self.pairs(),
                (#[trigger] self.source_node@[p]) as int,
                n,
            )
    }

    pub open spec fn adrift(&self) -> spec_fn(int) -> bool {
        |n: int| !self.anchored(n)
    }

    /// Why a grid cannot be solved: a value that is not finite, then an unusable
    /// resistance, then no pad at all, then a part no pad reaches.
    pub open spec fn fault(&self) -> Option<PowerError> {
        match first_where(self.nodes(), self.node_unusable()) {
            Some(n) => Some(PowerError::NotFinite(n as u32)),
            None => match first_where(self.source_node@.len() as int, self.pad_unusable()) {
                Some(p) => Some(PowerError::NotFinite(self.source_node@[p])),
                None => match first_where(self.edges(), self.edge_unusable()) {
                    Some(e) => Some(PowerError::BadResistance(e as u32)),
                    None => if self.source_node@.len() == 0 {
                        Some(PowerError::Unanchored)
                    } else {
                        match first_where(self.nodes(), self.adrift()) {
                            Some(n) => Some(PowerError::UnanchoredIsland(n as u32)),
                            None => None,
                        }
                    },
                },
            },
        }
    }

    fn find_adrift(&self) -> (r: Option<u32>)
        requires
            self.wf(),
        ensures
            r is Some ==> first_where(self.nodes(), self.adrift()) == Some(r->0 as int),
            r is None ==> first_where(self.nodes(), self.adrift()) is None,
    {
        let nodes: usize = self.node_net.len();
        let edges: usize = self.edge_from.len();
        let mut pairs: Vec<(u32, u32)> = Vec::new();
        let mut e: usize = 0;
        while e < edges
            invariant
                e <= edges == self.edges(),
                self.wf(),
                pairs@ == self.pairs().take(e as int),
            decreases edges - e,
        {
            pairs.push((self.edge_from[e], self.edge_to[e]));
            e = e + 1;
            assert(pairs@ =~= self.pairs().take(e as int));
        }
        assert(pairs@ =~= self.pairs());
        let label = components(nodes as u32, &pairs);
        let mut reached: Vec<bool> = Vec::new();
        let mut i: usize = 0;
        while i < nodes
            invariant
                i <= nodes,
                reached@.len() == i,
                forall|l: int| 0 <= l < i ==> !(#[trigger] reached@[l]),
            decreases nodes - i,
        {
            reached.push(false);
            i = i + 1;
        }
        let mut p: usize = 0;
        while p < self.source_node.len()
            invariant
                p <= self.source_node@.len(),
                self.wf(),
                nodes == self.nodes(),
                label@.len() == nodes,
                reached@.len() == nodes,
                forall|x: int| 0 <= x < nodes ==> (#[trigger] label@[x]) < nodes,
                forall|l: int|
                    0 <= l < nodes ==> (#[trigger] reached@[l]) == exists|q: int|
                        0 <= q < p && label@[(#[trigger] self.source_node@[q]) as int] == l,
            decreases self.source_node@.len() - p,
        {
            let pad: usize = self.source_node[p] as usize;
            let at: usize = label[pad] as usize;
            let ghost before = reached@;
            reached.set(at, true);
            proof {
                assert forall|l: int| 0 <= l < nodes implies (#[trigger] reached@[l]) == exists|
                    q: int,
                |
                    0 <= q < p + 1 && label@[(#[trigger] self.source_node@[q]) as int] == l by {
                    if l == at {
                        assert(label@[self.source_node@[p as int] as int] == l);
                    } else if before[l] {
                        let q = choose|q: int|
                            0 <= q < p && label@[(#[trigger] self.source_node@[q]) as int] == l;
                        assert(label@[self.source_node@[q] as int] == l);
                    }
                }
            }
            p = p + 1;
        }
        proof {
            assert forall|n: int| 0 <= n < nodes implies reached@[(#[trigger] label@[n]) as int]
                == self.anchored(n) by {
                if self.anchored(n) {
                    let q = choose|q: int|
                        0 <= q < self.source_node@.len() && connected(
                            self.pairs(),
                            (#[trigger] self.source_node@[q]) as int,
                            n,
                        );
                    assert(label@[self.source_node@[q] as int] == label@[n]);
                }
                if reached@[label@[n] as int] {
                    let q = choose|q: int|
                        0 <= q < self.source_node@.len() && label@[(
                        #[trigger] self.source_node@[q]) as int] == label@[n];
                    assert(connected(self.pairs(), self.source_node@[q] as int, n));
                }
            }
        }
        let mut n: usize = 0;
        while n < nodes
            invariant
                n <= nodes == self.nodes() < 0xFFFF_FFFF,
                label@.len() == nodes,
                reached@.len() == nodes,
                forall|x: int| 0 <= x < nodes ==> (#[trigger] label@[x]) < nodes,
                forall|n: int|
                    0 <= n < nodes ==> reached@[(#[trigger] label@[n]) as int] == self.anchored(n),
                forall|j: int| 0 <= j < n ==> !(#[trigger] (self.adrift())(j)),
            decreases nodes - n,
        {
            if !reached[label[n] as usize] {
                proof {
                    lemma_first(self.nodes(), self.adrift(), n as int);
                }
                return Some(n as u32);
            }
            n = n + 1;
        }
        proof {
            lemma_none(self.nodes(), self.adrift());
        }
        None
    }

    /// Refuse a grid that cannot be solved.
    pub fn check(&self) -> (r: Result<(), PowerError>)
        requires
            self.wf(),
        ensures
            r is Ok <==> self.fault() is None,
            r is Err ==> self.fault() == Some(r->Err_0),
    {
        let nodes: usize = self.node_net.len();
        let mut n: usize = 0;
        while n < nodes
            invariant
                n <= nodes == self.nodes(),
                self.wf(),
                forall|j: int| 0 <= j < n ==> !(#[trigger] (self.node_unusable())(j)),
            decreases nodes - n,
        {
            if !(self.node_nominal[n].is_finite() && self.node_load[n].is_finite()) {
                proof {
                    lemma_first(self.nodes(), self.node_unusable(), n as int);
                }
                return Err(PowerError::NotFinite(n as u32));
            }
            n = n + 1;
        }
        let pads: usize = self.source_node.len();
        let mut p: usize = 0;
        while p < pads
            invariant
                p <= pads == self.source_node@.len(),
                self.wf(),
                forall|j: int| 0 <= j < self.nodes() ==> !(#[trigger] (self.node_unusable())(j)),
                forall|j: int| 0 <= j < p ==> !(#[trigger] (self.pad_unusable())(j)),
            decreases pads - p,
        {
            if !self.source_voltage[p].is_finite() {
                proof {
                    lemma_none(self.nodes(), self.node_unusable());
                    lemma_first(pads as int, self.pad_unusable(), p as int);
                }
                return Err(PowerError::NotFinite(self.source_node[p]));
            }
            p = p + 1;
        }
        proof {
            lemma_none(self.nodes(), self.node_unusable());
            lemma_none(pads as int, self.pad_unusable());
        }
        let edges: usize = self.edge_from.len();
        let mut e: usize = 0;
        while e < edges
            invariant
                e <= edges == self.edges(),
                self.wf(),
                first_where(self.nodes(), self.node_unusable()) is None,
                first_where(self.source_node@.len() as int, self.pad_unusable()) is None,
                forall|j: int| 0 <= j < e ==> !(#[trigger] (self.edge_unusable())(j)),
            decreases edges - e,
        {
            let ohms = self.edge_resistance[e];
            if !(Number { bits: 0 }.less(ohms) && ohms.is_finite()) {
                proof {
                    lemma_first(self.edges(), self.edge_unusable(), e as int);
                }
                return Err(PowerError::BadResistance(e as u32));
            }
            e = e + 1;
        }
        proof {
            lemma_none(self.edges(), self.edge_unusable());
        }
        if pads == 0 {
            return Err(PowerError::Unanchored);
        }
        match self.find_adrift() {
            Some(n) => Err(PowerError::UnanchoredIsland(n)),
            None => Ok(()),
        }
    }

    /// Whether a node's voltage is an unknown.
    pub open spec fn floats(&self) -> spec_fn(int) -> bool {
        |n: int| !self.source_node@.contains(n as u32)
    }

    /// The nodes whose voltage is an unknown, ascending.
    pub open spec fn unknowns(&self) -> Seq<u32> {
        kept(self.nodes() as nat, self.floats())
    }

    /// The unknown of a node, which a pad has none of.
    pub open spec fn unknown(&self, n: int) -> u32 {
        if self.source_node@.contains(n as u32) {
            NOT_AN_UNKNOWN
        } else {
            kept(n as nat, self.floats()).len() as u32
        }
    }

    /// Where a node's voltage starts: a pad at what it is held at, and the rest
    /// at their nominal, which is where every drop is measured from.
    pub open spec fn start(&self, n: int) -> Number {
        if self.source_node@.contains(n as u32) {
            self.source_voltage@[self.source_node@.index_of(n as u32)]
        } else {
            self.node_nominal@[n]
        }
    }

    /// The conductance of an edge.
    pub open spec fn conductance(&self, e: int) -> Number {
        Number { bits: UA_PER_MV_OHM }.over_spec(self.edge_resistance@[e])
    }

    pub open spec fn from_unknown(&self, e: int) -> u32 {
        self.unknown(self.edge_from@[e] as int)
    }

    pub open spec fn to_unknown(&self, e: int) -> u32 {
        self.unknown(self.edge_to@[e] as int)
    }

    /// The right-hand side of unknown `i`: minus what its node draws, plus what
    /// the first `n` edges bring in from a fixed voltage at their other end.
    pub open spec fn rhs_to(&self, i: int, n: nat) -> Number
        decreases n,
    {
        if n == 0 {
            self.node_load@[self.unknowns()[i] as int].negated_spec()
        } else {
            let e = n - 1;
            let a = self.from_unknown(e);
            let b = self.to_unknown(e);
            let g = self.conductance(e);
            let before = self.rhs_to(i, e as nat);
            let first = if a == i {
                before.plus_spec(
                    g.times_spec(self.start(self.edge_to@[e] as int)).times_spec(
                        weight(a != NOT_AN_UNKNOWN && b == NOT_AN_UNKNOWN),
                    ),
                )
            } else {
                before
            };
            if b == i {
                first.plus_spec(
                    g.times_spec(self.start(self.edge_from@[e] as int)).times_spec(
                        weight(b != NOT_AN_UNKNOWN && a == NOT_AN_UNKNOWN),
                    ),
                )
            } else {
                first
            }
        }
    }

    /// The diagonal of unknown `i`: every conductance at its node, pads at the
    /// other end included.
    pub open spec fn diag_to(&self, i: int, n: nat) -> Number
        decreases n,
    {
        if n == 0 {
            Number { bits: 0 }
        } else {
            let e = n - 1;
            let g = self.conductance(e);
            let before = self.diag_to(i, e as nat);
            let first = if self.from_unknown(e) == i { before.plus_spec(g) } else { before };
            if self.to_unknown(e) == i { first.plus_spec(g) } else { first }
        }
    }

    /// The other entries of row `i`, one per edge to another unknown, in edge
    /// order. Parallel edges stay separate entries, whose sum is what counts.
    pub open spec fn off_to(&self, i: int, n: nat) -> Seq<(u32, Number)>
        decreases n,
    {
        if n == 0 {
            Seq::empty()
        } else {
            let e = n - 1;
            let a = self.from_unknown(e);
            let b = self.to_unknown(e);
            let g = self.conductance(e).negated_spec();
            let before = self.off_to(i, e as nat);
            if a == NOT_AN_UNKNOWN || b == NOT_AN_UNKNOWN {
                before
            } else {
                let first = if a == i { before.push((b, g)) } else { before };
                if b == i { first.push((a, g)) } else { first }
            }
        }
    }
}

/// One for a contribution that counts, zero for one that does not.
pub open spec fn weight(counts: bool) -> Number {
    Number { bits: if counts { ONE } else { 0 } }
}

/// The linear system over the unknown voltages. Pads are eliminated: they load
/// the diagonal and the right-hand side, and have no row.
pub struct System {
    /// The unknown of each node, and the node of each unknown.
    pub unknown_of_node: Vec<u32>,
    pub node_of_unknown: Vec<u32>,
    /// The voltages the iteration starts from, in unknown order.
    pub start: Vec<Number>,
    pub rhs: Vec<Number>,
    /// The matrix: a diagonal, its reciprocal, and each row's other entries.
    pub diag: Vec<Number>,
    pub inv_diag: Vec<Number>,
    pub off: Vec<Vec<(u32, Number)>>,
}

impl System {
    /// The system a grid poses.
    pub open spec fn poses(&self, grid: &PowerGrid) -> bool {
        let n = grid.unknowns().len();
        let edges = grid.edges() as nat;
        &&& self.node_of_unknown@ == grid.unknowns()
        &&& self.unknown_of_node@ == Seq::new(grid.nodes() as nat, |i: int| grid.unknown(i))
        &&& self.start@ == Seq::new(n, |i: int| grid.start(grid.unknowns()[i] as int))
        &&& self.rhs@ == Seq::new(n, |i: int| grid.rhs_to(i, edges))
        &&& self.diag@ == Seq::new(n, |i: int| grid.diag_to(i, edges))
        &&& self.inv_diag@ == Seq::new(
            n,
            |i: int| Number { bits: ONE }.over_spec(grid.diag_to(i, edges)),
        )
        &&& self.off@.len() == n
        &&& forall|i: int| 0 <= i < n ==> (#[trigger] self.off@[i])@ == grid.off_to(i, edges)
    }
}

/// Where a kept number stands among the kept ones.
proof fn lemma_kept_at(n: nat, keep: spec_fn(int) -> bool, k: int)
    requires
        n <= 0xFFFF_FFFF,
        0 <= k < n,
        keep(k),
    ensures
        kept(k as nat, keep).len() < kept(n, keep).len(),
        kept(n, keep)[kept(k as nat, keep).len() as int] == k,
    decreases n,
{
    if k < n - 1 {
        lemma_kept_at((n - 1) as nat, keep, k);
    }
}

impl PowerGrid {
    /// A node that is no pad has an unknown of its own.
    pub proof fn lemma_unknown(&self, n: int)
        requires
            self.wf(),
            0 <= n < self.nodes(),
        ensures
            self.source_node@.contains(n as u32) <==> self.unknown(n) == NOT_AN_UNKNOWN,
            !self.source_node@.contains(n as u32) ==> self.unknown(n) < self.unknowns().len()
                && self.unknowns()[self.unknown(n) as int] == n,
            self.unknowns().len() <= self.nodes(),
    {
        lemma_kept(self.nodes() as nat, self.floats());
        if !self.source_node@.contains(n as u32) {
            assert((self.floats())(n));
            lemma_kept_at(self.nodes() as nat, self.floats(), n);
        }
    }

    /// Where every node's voltage starts.
    pub fn starts(&self) -> (r: Vec<Number>)
        requires
            self.wf(),
        ensures
            r@ == Seq::new(self.nodes() as nat, |n: int| self.start(n)),
    {
        let nodes: usize = self.node_net.len();
        let mut r: Vec<Number> = Vec::new();
        let mut n: usize = 0;
        while n < nodes
            invariant
                n <= nodes == self.nodes(),
                self.wf(),
                r@.len() == n,
                forall|k: int| 0 <= k < n ==> (#[trigger] r@[k]) == self.node_nominal@[k],
            decreases nodes - n,
        {
            r.push(self.node_nominal[n]);
            n = n + 1;
        }
        let mut p: usize = 0;
        while p < self.source_node.len()
            invariant
                p <= self.source_node@.len(),
                nodes == self.nodes(),
                self.wf(),
                r@.len() == nodes,
                forall|k: int|
                    0 <= k < nodes ==> (#[trigger] r@[k]) == (if self.source_node@.take(
                        p as int,
                    ).contains(k as u32) {
                        self.source_voltage@[self.source_node@.index_of(k as u32)]
                    } else {
                        self.node_nominal@[k]
                    }),
            decreases self.source_node@.len() - p,
        {
            let pad: u32 = self.source_node[p];
            let ghost before = r@;
            r.set(pad as usize, self.source_voltage[p]);
            proof {
                let then = self.source_node@.take(p as int);
                let now = self.source_node@.take(p + 1);
                assert(now =~= then.push(pad));
                let own = self.source_node@.index_of(pad);
                assert(self.source_node@[p as int] == pad);
                assert(self.source_node@[own] == pad);
                assert(own == p);
                assert forall|k: int| 0 <= k < nodes implies (#[trigger] r@[k]) == (
                if now.contains(k as u32) {
                    self.source_voltage@[self.source_node@.index_of(k as u32)]
                } else {
                    self.node_nominal@[k]
                }) by {
                    if k == pad {
                        assert(now[p as int] == k as u32);
                    } else {
                        assert(before[k] == r@[k]);
                        if then.contains(k as u32) {
                            let x = choose|x: int| 0 <= x < then.len() && then[x] == k as u32;
                            assert(now[x] == k as u32);
                        }
                        if now.contains(k as u32) {
                            let x = choose|x: int| 0 <= x < now.len() && now[x] == k as u32;
                            assert(then[x] == k as u32);
                        }
                    }
                }
            }
            p = p + 1;
        }
        assert(self.source_node@.take(p as int) =~= self.source_node@);
        assert(r@ =~= Seq::new(self.nodes() as nat, |n: int| self.start(n)));
        r
    }

    /// The unknown of each node, and the node of each unknown.
    fn number_unknowns(&self) -> (r: (Vec<u32>, Vec<u32>))
        requires
            self.wf(),
        ensures
            r.0@ == Seq::new(self.nodes() as nat, |n: int| self.unknown(n)),
            r.1@ == self.unknowns(),
    {
        let nodes: usize = self.node_net.len();
        let mut unknown: Vec<u32> = Vec::new();
        let mut node: Vec<u32> = Vec::new();
        let mut n: usize = 0;
        while n < nodes
            invariant
                n <= nodes == self.nodes() < 0xFFFF_FFFF,
                self.wf(),
                unknown@.len() == n,
                forall|k: int| 0 <= k < n ==> (#[trigger] unknown@[k]) == self.unknown(k),
                node@ == kept(n as nat, self.floats()),
                node@.len() <= n,
            decreases nodes - n,
        {
            if self.fixed_voltage(n as u32).is_some() {
                unknown.push(NOT_AN_UNKNOWN);
            } else {
                unknown.push(node.len() as u32);
                node.push(n as u32);
            }
            n = n + 1;
        }
        assert(unknown@ =~= Seq::new(self.nodes() as nat, |n: int| self.unknown(n)));
        (unknown, node)
    }
}

fn weight_of(counts: bool) -> (r: Number)
    ensures
        r == weight(counts),
{
    Number { bits: if counts { ONE } else { 0 } }
}

/// Pose the linear system of a grid.
pub fn assemble(grid: &PowerGrid) -> (r: System)
    requires
        grid.wf(),
    ensures
        r.poses(grid),
{
    let volt = grid.starts();
    let (unknown_of_node, node_of_unknown) = grid.number_unknowns();
    let unknowns: usize = node_of_unknown.len();
    let edges: usize = grid.edge_from.len();
    proof {
        lemma_kept(grid.nodes() as nat, grid.floats());
    }
    let mut start: Vec<Number> = Vec::new();
    let mut rhs: Vec<Number> = Vec::new();
    let mut diag: Vec<Number> = Vec::new();
    let mut off: Vec<Vec<(u32, Number)>> = Vec::new();
    let mut i: usize = 0;
    while i < unknowns
        invariant
            i <= unknowns == grid.unknowns().len(),
            grid.wf(),
            node_of_unknown@ == grid.unknowns(),
            forall|k: int| 0 <= k < unknowns ==> (#[trigger] grid.unknowns()[k]) < grid.nodes(),
            volt@ == Seq::new(grid.nodes() as nat, |n: int| grid.start(n)),
            start@.len() == i,
            rhs@.len() == i,
            diag@.len() == i,
            off@.len() == i,
            forall|k: int|
                0 <= k < i ==> (#[trigger] start@[k]) == grid.start(grid.unknowns()[k] as int),
            forall|k: int| 0 <= k < i ==> (#[trigger] rhs@[k]) == grid.rhs_to(k, 0),
            forall|k: int| 0 <= k < i ==> (#[trigger] diag@[k]) == grid.diag_to(k, 0),
            forall|k: int| 0 <= k < i ==> (#[trigger] off@[k])@ == grid.off_to(k, 0),
        decreases unknowns - i,
    {
        let node: usize = node_of_unknown[i] as usize;
        assert(grid.unknowns()[i as int] < grid.nodes());
        start.push(volt[node]);
        rhs.push(grid.node_load[node].negated());
        diag.push(Number { bits: 0 });
        let none: Vec<(u32, Number)> = Vec::new();
        assert(none@ =~= grid.off_to(i as int, 0));
        off.push(none);
        i = i + 1;
    }
    let mut e: usize = 0;
    while e < edges
        invariant
            e <= edges == grid.edges(),
            unknowns == grid.unknowns().len(),
            grid.wf(),
            unknown_of_node@ == Seq::new(grid.nodes() as nat, |n: int| grid.unknown(n)),
            volt@ == Seq::new(grid.nodes() as nat, |n: int| grid.start(n)),
            rhs@.len() == unknowns,
            diag@.len() == unknowns,
            off@.len() == unknowns,
            forall|k: int| 0 <= k < unknowns ==> (#[trigger] rhs@[k]) == grid.rhs_to(k, e as nat),
            forall|k: int| 0 <= k < unknowns ==> (#[trigger] diag@[k]) == grid.diag_to(k, e as nat),
            forall|k: int| 0 <= k < unknowns ==> (#[trigger] off@[k])@ == grid.off_to(k, e as nat),
        decreases edges - e,
    {
        let from: usize = grid.edge_from[e] as usize;
        let to: usize = grid.edge_to[e] as usize;
        proof {
            grid.lemma_unknown(from as int);
            grid.lemma_unknown(to as int);
        }
        let g = Number { bits: UA_PER_MV_OHM }.over(grid.edge_resistance[e]);
        let minus = g.negated();
        let a: u32 = unknown_of_node[from];
        let b: u32 = unknown_of_node[to];
        let in_a: bool = a != NOT_AN_UNKNOWN;
        let in_b: bool = b != NOT_AN_UNKNOWN;
        let ghost rhs0 = rhs@;
        let ghost diag0 = diag@;
        let ghost off0 = off@;
        if in_a {
            let add = g.times(volt[to]).times(weight_of(in_a && !in_b));
            let sum = rhs[a as usize].plus(add);
            rhs.set(a as usize, sum);
            let load = diag[a as usize].plus(g);
            diag.set(a as usize, load);
        }
        if in_b {
            let add = g.times(volt[from]).times(weight_of(in_b && !in_a));
            let sum = rhs[b as usize].plus(add);
            rhs.set(b as usize, sum);
            let load = diag[b as usize].plus(g);
            diag.set(b as usize, load);
        }
        if in_a && in_b {
            off[a as usize].push((b, minus));
            off[b as usize].push((a, minus));
        }
        proof {
            assert forall|k: int| 0 <= k < unknowns implies (#[trigger] rhs@[k]) == grid.rhs_to(
                k,
                (e + 1) as nat,
            ) by {
                assert(rhs0[k] == grid.rhs_to(k, e as nat));
            }
            assert forall|k: int| 0 <= k < unknowns implies (#[trigger] diag@[k]) == grid.diag_to(
                k,
                (e + 1) as nat,
            ) by {
                assert(diag0[k] == grid.diag_to(k, e as nat));
            }
            assert forall|k: int| 0 <= k < unknowns implies (#[trigger] off@[k])@ == grid.off_to(
                k,
                (e + 1) as nat,
            ) by {
                assert(off0[k]@ == grid.off_to(k, e as nat));
            }
        }
        e = e + 1;
    }
    let mut inv_diag: Vec<Number> = Vec::new();
    let mut j: usize = 0;
    while j < unknowns
        invariant
            j <= unknowns,
            diag@.len() == unknowns,
            inv_diag@.len() == j,
            forall|k: int|
                0 <= k < j ==> (#[trigger] inv_diag@[k]) == (Number { bits: ONE }).over_spec(
                    diag@[k],
                ),
        decreases unknowns - j,
    {
        inv_diag.push(Number { bits: ONE }.over(diag[j]));
        j = j + 1;
    }
    let r = System { unknown_of_node, node_of_unknown, start, rhs, diag, inv_diag, off };
    proof {
        let n = grid.unknowns().len();
        let all = grid.edges() as nat;
        assert(r.start@ =~= Seq::new(n, |i: int| grid.start(grid.unknowns()[i] as int)));
        assert(r.rhs@ =~= Seq::new(n, |i: int| grid.rhs_to(i, all)));
        assert(r.diag@ =~= Seq::new(n, |i: int| grid.diag_to(i, all)));
        assert(r.inv_diag@ =~= Seq::new(
            n,
            |i: int| Number { bits: ONE }.over_spec(grid.diag_to(i, all)),
        ));
    }
    r
}

/// Check a grid and pose its linear system.
pub fn prepare(grid: &PowerGrid) -> (r: Result<System, PowerError>)
    requires
        grid.wf(),
    ensures
        r is Ok <==> grid.fault() is None,
        r is Err ==> grid.fault() == Some(r->Err_0),
        r is Ok ==> (r->Ok_0).poses(grid),
{
    match grid.check() {
        Err(e) => Err(e),
        Ok(_) => Ok(assemble(grid)),
    }
}

/// Whether an iteration that ended at a residual may be believed, and the
/// residual as a fraction of the initial one. What is not a number is refused.
pub open spec fn verdict_spec(
    config: SolveConfig,
    initial: Number,
    residual: Number,
    iterations: u32,
) -> Result<(u32, Number), PowerError> {
    if residual.le(initial.times_spec(config.relative_tolerance)) {
        Ok(
            (
                iterations,
                if (Number { bits: 0 }).lt(initial) {
                    residual.over_spec(initial)
                } else {
                    Number { bits: 0 }
                },
            ),
        )
    } else {
        Err(PowerError::NotConverged(config.max_iterations))
    }
}

/// The verdict on an iteration.
pub fn verdict(config: SolveConfig, initial: Number, residual: Number, iterations: u32) -> (r:
    Result<(u32, Number), PowerError>)
    ensures
        r == verdict_spec(config, initial, residual, iterations),
{
    let goal = initial.times(config.relative_tolerance);
    if !residual.at_most(goal) {
        return Err(PowerError::NotConverged(config.max_iterations));
    }
    let fraction = if (Number { bits: 0 }).less(initial) {
        residual.over(initial)
    } else {
        Number { bits: 0 }
    };
    Ok((iterations, fraction))
}

/// The solved voltage of a node: a pad keeps exactly what it is held at.
pub open spec fn voltage(grid: &PowerGrid, x: Seq<Number>, n: int) -> Number {
    if grid.source_node@.contains(n as u32) { grid.start(n) } else { x[grid.unknown(n) as int] }
}

/// The state an answer describes.
pub open spec fn describes(grid: &PowerGrid, x: Seq<Number>, out: &PowerSolution) -> bool {
    &&& out.node_voltage@ == Seq::new(grid.nodes() as nat, |n: int| voltage(grid, x, n))
    &&& out.node_drop@ == Seq::new(
        grid.nodes() as nat,
        |n: int| grid.node_nominal@[n].minus_spec(voltage(grid, x, n)),
    )
    &&& out.branch_current@ == Seq::new(
        grid.edges() as nat,
        |e: int|
            voltage(grid, x, grid.edge_from@[e] as int).minus_spec(
                voltage(grid, x, grid.edge_to@[e] as int),
            ).times_spec(grid.conductance(e)),
    )
}

impl PowerSolution {
    pub open spec fn node_lost(&self) -> spec_fn(int) -> bool {
        |n: int| !(self.node_voltage@[n].finite() && self.node_drop@[n].finite())
    }

    pub open spec fn branch_lost(&self) -> spec_fn(int) -> bool {
        |e: int| !self.branch_current@[e].finite()
    }

    /// The node to name when a value stopped being finite: the first such node,
    /// else the start of the first such branch, else node zero.
    pub open spec fn lost(&self, grid: &PowerGrid) -> u32 {
        match first_where(grid.nodes(), self.node_lost()) {
            Some(n) => n as u32,
            None => match first_where(grid.edges(), self.branch_lost()) {
                Some(e) => grid.edge_from@[e],
                None => 0,
            },
        }
    }

    fn find_lost(&self, grid: &PowerGrid) -> (r: u32)
        requires
            grid.wf(),
            self.node_voltage@.len() == grid.nodes(),
            self.node_drop@.len() == grid.nodes(),
            self.branch_current@.len() == grid.edges(),
        ensures
            r == self.lost(grid),
    {
        let nodes: usize = grid.node_net.len();
        let mut n: usize = 0;
        while n < nodes
            invariant
                n <= nodes == grid.nodes() < 0xFFFF_FFFF,
                self.node_voltage@.len() == nodes,
                self.node_drop@.len() == nodes,
                forall|j: int| 0 <= j < n ==> !(#[trigger] (self.node_lost())(j)),
            decreases nodes - n,
        {
            if !(self.node_voltage[n].is_finite() && self.node_drop[n].is_finite()) {
                proof {
                    lemma_first(grid.nodes(), self.node_lost(), n as int);
                }
                return n as u32;
            }
            n = n + 1;
        }
        proof {
            lemma_none(grid.nodes(), self.node_lost());
        }
        let edges: usize = grid.edge_from.len();
        let mut e: usize = 0;
        while e < edges
            invariant
                e <= edges == grid.edges(),
                first_where(grid.nodes(), self.node_lost()) is None,
                self.branch_current@.len() == edges,
                forall|j: int| 0 <= j < e ==> !(#[trigger] (self.branch_lost())(j)),
            decreases edges - e,
        {
            if !self.branch_current[e].is_finite() {
                proof {
                    lemma_first(grid.edges(), self.branch_lost(), e as int);
                }
                return grid.edge_from[e];
            }
            e = e + 1;
        }
        proof {
            lemma_none(grid.edges(), self.branch_lost());
        }
        0
    }
}

/// Turn the answer of a system into the state of its grid.
///
/// A value that stopped being finite is an error, so a solution this accepts is
/// one every rule may stand on.
pub fn finish(
    grid: &PowerGrid,
    system: &System,
    x: &Vec<Number>,
    iterations: u32,
    relative_residual: Number,
    out: &mut PowerSolution,
) -> (r: Result<(), PowerError>)
    requires
        grid.wf(),
        system.poses(grid),
        x@.len() == grid.unknowns().len(),
    ensures
        describes(grid, x@, final(out)),
        final(out).iterations == iterations,
        final(out).relative_residual == relative_residual,
        r is Ok <==> final(out).consistent(grid),
        r is Err ==> r->Err_0 == PowerError::NotFinite(final(out).lost(grid)),
{
    let nodes: usize = grid.node_net.len();
    let edges: usize = grid.edge_from.len();
    let mut volt = grid.starts();
    let mut n: usize = 0;
    while n < nodes
        invariant
            n <= nodes == grid.nodes(),
            grid.wf(),
            system.poses(grid),
            x@.len() == grid.unknowns().len(),
            volt@.len() == nodes,
            forall|k: int| 0 <= k < n ==> (#[trigger] volt@[k]) == voltage(grid, x@, k),
            forall|k: int| n <= k < nodes ==> (#[trigger] volt@[k]) == grid.start(k),
        decreases nodes - n,
    {
        proof {
            grid.lemma_unknown(n as int);
        }
        let unknown: u32 = system.unknown_of_node[n];
        if unknown != NOT_AN_UNKNOWN {
            volt.set(n, x[unknown as usize]);
        }
        n = n + 1;
    }
    let mut drop: Vec<Number> = Vec::new();
    let mut i: usize = 0;
    while i < nodes
        invariant
            i <= nodes == grid.nodes(),
            grid.wf(),
            volt@.len() == nodes,
            forall|k: int| 0 <= k < nodes ==> (#[trigger] volt@[k]) == voltage(grid, x@, k),
            drop@.len() == i,
            forall|k: int|
                0 <= k < i ==> (#[trigger] drop@[k]) == grid.node_nominal@[k].minus_spec(
                    voltage(grid, x@, k),
                ),
        decreases nodes - i,
    {
        drop.push(grid.node_nominal[i].minus(volt[i]));
        i = i + 1;
    }
    let mut current: Vec<Number> = Vec::new();
    let mut e: usize = 0;
    while e < edges
        invariant
            e <= edges == grid.edges(),
            nodes == grid.nodes(),
            grid.wf(),
            volt@.len() == nodes,
            forall|k: int| 0 <= k < nodes ==> (#[trigger] volt@[k]) == voltage(grid, x@, k),
            current@.len() == e,
            forall|k: int|
                0 <= k < e ==> (#[trigger] current@[k]) == voltage(
                    grid,
                    x@,
                    grid.edge_from@[k] as int,
                ).minus_spec(voltage(grid, x@, grid.edge_to@[k] as int)).times_spec(
                    grid.conductance(k),
                ),
        decreases edges - e,
    {
        let across = volt[grid.edge_from[e] as usize].minus(volt[grid.edge_to[e] as usize]);
        let g = Number { bits: UA_PER_MV_OHM }.over(grid.edge_resistance[e]);
        current.push(across.times(g));
        e = e + 1;
    }
    out.node_voltage = volt;
    out.node_drop = drop;
    out.branch_current = current;
    out.iterations = iterations;
    out.relative_residual = relative_residual;
    proof {
        assert(out.node_voltage@ =~= Seq::new(
            grid.nodes() as nat,
            |n: int| voltage(grid, x@, n),
        ));
        assert(out.node_drop@ =~= Seq::new(
            grid.nodes() as nat,
            |n: int| grid.node_nominal@[n].minus_spec(voltage(grid, x@, n)),
        ));
        assert(out.branch_current@ =~= Seq::new(
            grid.edges() as nat,
            |e: int|
                voltage(grid, x@, grid.edge_from@[e] as int).minus_spec(
                    voltage(grid, x@, grid.edge_to@[e] as int),
                ).times_spec(grid.conductance(e)),
        ));
    }
    if !out.is_consistent_with(grid) {
        return Err(PowerError::NotFinite(out.find_lost(grid)));
    }
    Ok(())
}

} // verus!
