//! Eliminating the inner nodes of a network of conductances.
use crate::number::Number;
use vstd::prelude::*;

verus! {

/// A conductance between two nodes.
#[derive(Clone, Copy, Debug, PartialEq, Eq, Structural)]
pub struct Strand {
    pub a: u32,
    pub b: u32,
    pub g: Number,
}

impl Strand {
    pub open spec fn touches(self, v: u32) -> bool {
        self.a == v || self.b == v
    }

    /// The end that is not `v`.
    pub open spec fn far(self, v: u32) -> u32 {
        if self.a == v { self.b } else { self.a }
    }

    pub open spec fn joins(self, u: u32, v: u32) -> bool {
        self.touches(u) && self.far(u) == v
    }

    pub fn end_from(self, v: u32) -> (r: u32)
        ensures
            r == self.far(v),
    {
        if self.a == v { self.b } else { self.a }
    }
}

/// The strands below `n` at a node, ascending.
pub open spec fn at_to(strand: Seq<Strand>, v: u32, n: nat) -> Seq<usize>
    decreases n,
{
    if n == 0 {
        Seq::empty()
    } else if strand[n - 1].touches(v) {
        at_to(strand, v, (n - 1) as nat).push((n - 1) as usize)
    } else {
        at_to(strand, v, (n - 1) as nat)
    }
}

/// Neighbours and the conductance to each.
pub type Fringe = Seq<(u32, Number)>;

/// Where a neighbour stands in a fringe.
pub open spec fn place_in(f: Fringe, u: u32) -> Option<int>
    decreases f.len(),
{
    if f.len() == 0 {
        None
    } else if f.last().0 == u {
        Some(f.len() - 1)
    } else {
        place_in(f.drop_last(), u)
    }
}

/// The conductances of the first `n` neighbours, summed in order.
pub open spec fn total_to(f: Fringe, n: nat) -> Number
    decreases n,
{
    if n == 0 {
        Number { bits: 0 }
    } else {
        total_to(f, (n - 1) as nat).plus_spec(f[n - 1].1)
    }
}

/// How many of the first `n` flags are set.
pub open spec fn count_to(s: Seq<bool>, n: nat) -> nat
    decreases n,
{
    if n == 0 {
        0
    } else {
        count_to(s, (n - 1) as nat) + if s[n - 1] { 1nat } else { 0nat }
    }
}

/// A network of conductances, and which of its nodes are left.
pub struct Mesh {
    pub strand: Seq<Strand>,
    pub alive: Seq<bool>,
}

impl Mesh {
    /// Every strand joins two nodes of the network.
    pub open spec fn wf(&self) -> bool {
        &&& self.strand.len() <= usize::MAX
        &&& self.alive.len() < 0xFFFF_FFFF
        &&& forall|e: int|
            0 <= e < self.strand.len() ==> (#[trigger] self.strand[e]).a < self.alive.len()
                && self.strand[e].b < self.alive.len() && self.strand[e].a != self.strand[e].b
    }

    /// The strands at a node, the oldest first.
    pub open spec fn at(&self, v: u32) -> Seq<usize> {
        at_to(self.strand, v, self.strand.len())
    }

    /// Whether a strand at a node conducts to a node that is left.
    pub open spec fn live(&self, e: int, v: u32) -> bool {
        (Number { bits: 0 }).lt(self.strand[e].g) && self.alive[self.strand[e].far(v) as int]
    }

    /// How many of the first `n` strands at a node are live.
    pub open spec fn degree_to(&self, v: u32, n: nat) -> nat
        decreases n,
    {
        if n == 0 {
            0
        } else {
            self.degree_to(v, (n - 1) as nat) + if self.live(self.at(v)[n - 1] as int, v) {
                1nat
            } else {
                0nat
            }
        }
    }

    /// How many live strands a node has.
    pub open spec fn degree(&self, v: u32) -> nat {
        self.degree_to(v, self.at(v).len())
    }

    /// The neighbours over the newest `n` strands at a node, the newest first;
    /// parallel strands are summed.
    pub open spec fn fringe_to(&self, v: u32, n: nat) -> Fringe
        decreases n,
    {
        if n == 0 {
            Seq::empty()
        } else {
            let before = self.fringe_to(v, (n - 1) as nat);
            let e = self.at(v)[self.at(v).len() - n] as int;
            if self.live(e, v) {
                let u = self.strand[e].far(v);
                match place_in(before, u) {
                    Some(x) => before.update(x, (u, before[x].1.plus_spec(self.strand[e].g))),
                    None => before.push((u, self.strand[e].g)),
                }
            } else {
                before
            }
        }
    }

    /// The neighbours of a node.
    pub open spec fn fringe(&self, v: u32) -> Fringe {
        self.fringe_to(v, self.at(v).len())
    }

    /// Strand `e` is the oldest live one between two nodes.
    pub open spec fn oldest(&self, a: u32, b: u32, e: int) -> bool {
        &&& 0 <= e < self.strand.len()
        &&& self.strand[e].joins(a, b)
        &&& self.live(e, a)
        &&& forall|d: int|
            0 <= d < e ==> !((#[trigger] self.strand[d]).joins(a, b) && self.live(d, a))
    }

    /// The network with more conductance between two nodes: on the oldest live
    /// strand between them, or on a new one.
    pub open spec fn bumped(&self, a: u32, b: u32, g: Number) -> Mesh {
        if exists|e: int| self.oldest(a, b, e) {
            let e = choose|e: int| self.oldest(a, b, e);
            let was = self.strand[e];
            Mesh {
                strand: self.strand.update(e, Strand { g: was.g.plus_spec(g), ..was }),
                alive: self.alive,
            }
        } else {
            Mesh { strand: self.strand.push(Strand { a, b, g }), alive: self.alive }
        }
    }

    /// Neighbour `i` joined to the neighbours after it and below `n`.
    pub open spec fn spread_row(&self, f: Fringe, total: Number, i: int, n: nat) -> Mesh
        decreases n,
    {
        if n == 0 || n <= i + 1 {
            *self
        } else {
            let before = self.spread_row(f, total, i, (n - 1) as nat);
            before.bumped(
                f[i].0,
                f[n - 1].0,
                f[i].1.times_spec(f[n - 1].1).over_spec(total),
            )
        }
    }

    /// The first `n` neighbours joined to those after them.
    pub open spec fn spread_to(&self, f: Fringe, total: Number, n: nat) -> Mesh
        decreases n,
    {
        if n == 0 {
            *self
        } else {
            self.spread_to(f, total, (n - 1) as nat).spread_row(f, total, n - 1, f.len())
        }
    }

    /// The network without a node.
    pub open spec fn without(&self, v: u32) -> Mesh {
        Mesh { strand: self.strand, alive: self.alive.update(v as int, false) }
    }

    /// The network with a node eliminated: every pair of its neighbours gains
    /// the product of their conductances over the node's total, which leaves
    /// every effective resistance among the rest as it was. A node with no
    /// positive finite total spreads nothing.
    pub open spec fn eliminated(&self, v: u32) -> Mesh {
        let f = self.fringe(v);
        let total = total_to(f, f.len());
        if (Number { bits: 0 }).lt(total) && total.finite() {
            self.without(v).spread_to(f, total, f.len())
        } else {
            self.without(v)
        }
    }

    /// Whether a node is left and is to go.
    pub open spec fn inner(&self, terminal: Seq<u32>, v: int) -> bool {
        0 <= v < self.alive.len() && self.alive[v] && !terminal.contains(v as u32)
    }

    /// A node before another: the fewer live strands first, then the lower.
    pub open spec fn sooner(&self, u: int, v: int) -> bool {
        self.degree(u as u32) < self.degree(v as u32) || (self.degree(u as u32) == self.degree(
            v as u32,
        ) && u <= v)
    }

    /// The inner node of least degree, the lowest of those.
    pub open spec fn is_next(&self, terminal: Seq<u32>, v: int) -> bool {
        &&& self.inner(terminal, v)
        &&& forall|u: int| #[trigger] self.inner(terminal, u) ==> self.sooner(v, u)
    }

    /// The network with up to `n` inner nodes eliminated, in order of least
    /// degree.
    pub open spec fn reduced(&self, terminal: Seq<u32>, n: nat) -> Mesh
        decreases n,
    {
        if n == 0 || !(exists|v: int| self.is_next(terminal, v)) {
            *self
        } else {
            let v = choose|v: int| self.is_next(terminal, v);
            self.eliminated(v as u32).reduced(terminal, (n - 1) as nat)
        }
    }

    /// What the newest `n` strands between two nodes take off an entry.
    pub open spec fn between_to(&self, t: u32, u: u32, n: nat) -> Number
        decreases n,
    {
        if n == 0 {
            Number { bits: 0 }
        } else {
            let before = self.between_to(t, u, (n - 1) as nat);
            let e = self.at(t)[self.at(t).len() - n] as int;
            if self.live(e, t) && self.strand[e].far(t) == u {
                before.minus_spec(self.strand[e].g)
            } else {
                before
            }
        }
    }

    /// What the newest `n` strands at a node load it with.
    pub open spec fn load_to(&self, t: u32, n: nat) -> Number
        decreases n,
    {
        if n == 0 {
            Number { bits: 0 }
        } else {
            let before = self.load_to(t, (n - 1) as nat);
            let e = self.at(t)[self.at(t).len() - n] as int;
            if self.live(e, t) { before.plus_spec(self.strand[e].g) } else { before }
        }
    }

    /// The entry of the conductance matrix for two nodes.
    pub open spec fn entry(&self, t: u32, u: u32) -> Number {
        if t == u {
            self.load_to(t, self.at(t).len())
        } else {
            self.between_to(t, u, self.at(t).len())
        }
    }
}

/// A network of conductances with every node left.
pub open spec fn woven(nodes: nat, link: Seq<(u32, u32, Number)>) -> Mesh {
    Mesh {
        strand: Seq::new(
            link.len(),
            |e: int| Strand { a: link[e].0, b: link[e].1, g: link[e].2 },
        ),
        alive: Seq::new(nodes, |v: int| true),
    }
}

/// The list of strands at a node: each touches it, ascending, and none is missing.
pub proof fn lemma_at(strand: Seq<Strand>, v: u32, n: nat)
    requires
        n <= strand.len() <= usize::MAX,
    ensures
        at_to(strand, v, n).len() <= n,
        forall|k: int|
            0 <= k < at_to(strand, v, n).len() ==> (#[trigger] at_to(strand, v, n)[k]) < n
                && strand[at_to(strand, v, n)[k] as int].touches(v),
        forall|k: int, l: int|
            0 <= k < l < at_to(strand, v, n).len() ==> at_to(strand, v, n)[k] < at_to(
                strand,
                v,
                n,
            )[l],
        forall|e: int|
            0 <= e < n && (#[trigger] strand[e]).touches(v) ==> at_to(strand, v, n).contains(
                e as usize,
            ),
    decreases n,
{
    if n > 0 {
        let m = (n - 1) as nat;
        lemma_at(strand, v, m);
        let before = at_to(strand, v, m);
        let now = at_to(strand, v, n);
        assert forall|e: int| 0 <= e < n && (#[trigger] strand[e]).touches(v) implies now.contains(
            e as usize,
        ) by {
            if e < m {
                let k = choose|k: int| 0 <= k < before.len() && before[k] == e as usize;
                assert(now[k] == e as usize);
            } else {
                assert(now[before.len() as int] == e as usize);
            }
        }
    }
}

/// The list goes by where the strands end.
proof fn lemma_at_same(s: Seq<Strand>, t: Seq<Strand>, v: u32, n: nat)
    requires
        n <= s.len(),
        n <= t.len(),
        forall|e: int|
            0 <= e < n ==> (#[trigger] s[e]).a == (#[trigger] t[e]).a && s[e].b == t[e].b,
    ensures
        at_to(s, v, n) == at_to(t, v, n),
    decreases n,
{
    if n > 0 {
        lemma_at_same(s, t, v, (n - 1) as nat);
        assert(s[n - 1].a == t[n - 1].a && s[n - 1].b == t[n - 1].b);
    }
}

/// A place in a fringe is that of the neighbour.
proof fn lemma_place(f: Fringe, u: u32)
    ensures
        place_in(f, u) is Some ==> 0 <= place_in(f, u)->0 < f.len() && f[place_in(f, u)->0].0 == u,
        place_in(f, u) is None ==> forall|x: int| 0 <= x < f.len() ==> (#[trigger] f[x]).0 != u,
    decreases f.len(),
{
    if f.len() > 0 && f.last().0 != u {
        lemma_place(f.drop_last(), u);
        if place_in(f, u) is None {
            assert forall|x: int| 0 <= x < f.len() implies (#[trigger] f[x]).0 != u by {
                if x < f.len() - 1 {
                    assert(f.drop_last()[x].0 != u);
                }
            }
        }
    }
}

/// No neighbour twice, each a node other than `v`.
spec fn distinct(f: Fringe, nodes: int, v: u32) -> bool {
    &&& forall|x: int| 0 <= x < f.len() ==> (#[trigger] f[x]).0 < nodes && f[x].0 != v
    &&& forall|x: int, y: int|
        0 <= x < y < f.len() ==> (#[trigger] f[x]).0 != (#[trigger] f[y]).0
}

proof fn lemma_count(s: Seq<bool>, v: int, n: nat)
    requires
        0 <= v < s.len(),
        n <= s.len(),
    ensures
        count_to(s.update(v, false), n) == count_to(s, n) - (
            if v < n && s[v] { 1int } else { 0int }
        ),
        count_to(s, n) <= n,
    decreases n,
{
    if n > 0 {
        lemma_count(s, v, (n - 1) as nat);
    }
}

/// A network with its strands listed at each node.
pub struct Weave {
    pub strand: Vec<Strand>,
    pub alive: Vec<bool>,
    /// The strands at each node, the oldest first.
    pub at: Vec<Vec<usize>>,
}

impl Weave {
    pub open spec fn mesh(&self) -> Mesh {
        Mesh { strand: self.strand@, alive: self.alive@ }
    }

    pub open spec fn wf(&self) -> bool {
        &&& self.mesh().wf()
        &&& self.at@.len() == self.alive@.len()
        &&& forall|v: int|
            0 <= v < self.at@.len() ==> (#[trigger] self.at@[v])@ == self.mesh().at(v as u32)
    }

    /// A network with every node left.
    pub fn new(nodes: u32, link: &Vec<(u32, u32, Number)>) -> (r: Weave)
        requires
            nodes < 0xFFFF_FFFF,
            forall|e: int|
                0 <= e < link@.len() ==> (#[trigger] link@[e]).0 < nodes && link@[e].1 < nodes
                    && link@[e].0 != link@[e].1,
        ensures
            r.wf(),
            r.mesh() == woven(nodes as nat, link@),
    {
        let mut r = Weave { strand: Vec::new(), alive: Vec::new(), at: Vec::new() };
        let mut v: u32 = 0;
        while v < nodes
            invariant
                v <= nodes < 0xFFFF_FFFF,
                r.strand@.len() == 0,
                r.alive@.len() == v,
                r.at@.len() == v,
                forall|x: int| 0 <= x < v ==> #[trigger] r.alive@[x],
                forall|x: int| 0 <= x < v ==> (#[trigger] r.at@[x])@ == Seq::<usize>::empty(),
            decreases nodes - v,
        {
            r.alive.push(true);
            r.at.push(Vec::new());
            v = v + 1;
        }
        let mut e: usize = 0;
        let count: usize = link.len();
        while e < count
            invariant
                e <= count == link@.len(),
                nodes < 0xFFFF_FFFF,
                forall|e: int|
                    0 <= e < link@.len() ==> (#[trigger] link@[e]).0 < nodes && link@[e].1 < nodes
                        && link@[e].0 != link@[e].1,
                r.wf(),
                r.alive@.len() == nodes,
                forall|x: int| 0 <= x < nodes ==> #[trigger] r.alive@[x],
                r.strand@.len() == e,
                forall|x: int|
                    0 <= x < e ==> (#[trigger] r.strand@[x]) == (Strand {
                        a: link@[x].0,
                        b: link@[x].1,
                        g: link@[x].2,
                    }),
            decreases count - e,
        {
            let (a, b, g) = link[e];
            assert(link@[e as int].0 < nodes);
            r.tie(a, b, g);
            e = e + 1;
        }
        proof {
            assert(r.mesh().strand =~= woven(nodes as nat, link@).strand);
            assert(r.mesh().alive =~= woven(nodes as nat, link@).alive);
        }
        r
    }

    /// A new strand between two nodes.
    fn tie(&mut self, a: u32, b: u32, g: Number)
        requires
            old(self).wf(),
            a < old(self).alive@.len(),
            b < old(self).alive@.len(),
            a != b,
        ensures
            final(self).wf(),
            final(self).alive@ == old(self).alive@,
            final(self).strand@ == old(self).strand@.push(Strand { a, b, g }),
    {
        let e: usize = self.strand.len();
        let ghost was = self.mesh();
        let ghost lists = self.at@;
        self.strand.push(Strand { a, b, g });
        let count: usize = self.strand.len();
        assert(count == self.strand@.len());
        self.at[a as usize].push(e);
        self.at[b as usize].push(e);
        proof {
            let now = self.mesh();
            assert forall|v: int| 0 <= v < self.at@.len() implies (#[trigger] self.at@[v])@
                == now.at(v as u32) by {
                assert(lists[v]@ == was.at(v as u32));
                lemma_at_same(was.strand, now.strand, v as u32, was.strand.len());
            }
            assert forall|x: int| 0 <= x < now.strand.len() implies (#[trigger] now.strand[x]).a
                < now.alive.len() && now.strand[x].b < now.alive.len() && now.strand[x].a
                != now.strand[x].b by {
                if x < was.strand.len() {
                    assert(now.strand[x] == was.strand[x]);
                }
            }
        }
    }

    pub fn is_live(&self, e: usize, v: u32) -> (r: bool)
        requires
            self.wf(),
            e < self.strand@.len(),
            self.strand@[e as int].touches(v),
        ensures
            r == self.mesh().live(e as int, v),
    {
        let s = self.strand[e];
        assert(self.mesh().strand[e as int].a < self.alive@.len());
        (Number { bits: 0 }).less(s.g) && self.alive[s.end_from(v) as usize]
    }

    fn degree(&self, v: u32) -> (r: usize)
        requires
            self.wf(),
            v < self.alive@.len(),
        ensures
            r == self.mesh().degree(v),
    {
        let ghost m = self.mesh();
        proof {
            lemma_at(m.strand, v, m.strand.len());
        }
        let count: usize = self.at[v as usize].len();
        let mut r: usize = 0;
        let mut k: usize = 0;
        while k < count
            invariant
                self.wf(),
                v < self.alive@.len(),
                m == self.mesh(),
                self.at@[v as int]@ == m.at(v),
                k <= count == m.at(v).len(),
                forall|k: int|
                    0 <= k < m.at(v).len() ==> (#[trigger] m.at(v)[k]) < m.strand.len()
                        && m.strand[m.at(v)[k] as int].touches(v),
                r <= k,
                r == m.degree_to(v, k as nat),
            decreases count - k,
        {
            let e: usize = self.at[v as usize][k];
            assert(e == m.at(v)[k as int]);
            if self.is_live(e, v) {
                r = r + 1;
            }
            k = k + 1;
        }
        r
    }

    /// The inner node to go next.
    fn next(&self, is_terminal: &Vec<bool>, Ghost(terminal): Ghost<Seq<u32>>) -> (r: Option<u32>)
        requires
            self.wf(),
            is_terminal@.len() == self.alive@.len(),
            forall|v: int|
                0 <= v < is_terminal@.len() ==> (#[trigger] is_terminal@[v]) == terminal.contains(
                    v as u32,
                ),
        ensures
            r is Some ==> self.mesh().is_next(terminal, r->0 as int),
            r is None ==> forall|v: int| !(#[trigger] self.mesh().inner(terminal, v)),
    {
        let ghost m = self.mesh();
        let nodes: usize = self.alive.len();
        let mut best: Option<u32> = None;
        let mut least: usize = 0;
        let mut v: usize = 0;
        while v < nodes
            invariant
                v <= nodes == self.alive@.len() < 0xFFFF_FFFF,
                self.wf(),
                m == self.mesh(),
                is_terminal@.len() == nodes,
                forall|v: int|
                    0 <= v < is_terminal@.len() ==> (#[trigger] is_terminal@[v])
                        == terminal.contains(v as u32),
                best is None ==> forall|u: int|
                    0 <= u < v ==> !(#[trigger] m.inner(terminal, u)),
                best is Some ==> m.inner(terminal, best->0 as int) && best->0 < v && least
                    == m.degree(best->0) && forall|u: int|
                    0 <= u < v && (#[trigger] m.inner(terminal, u)) ==> m.sooner(
                        best->0 as int,
                        u,
                    ),
            decreases nodes - v,
        {
            let gone: bool = is_terminal[v];
            assert(gone == terminal.contains(v as u32));
            if self.alive[v] && !gone {
                let degree: usize = self.degree(v as u32);
                assert(m.inner(terminal, v as int));
                if best.is_none() || degree < least {
                    best = Some(v as u32);
                    least = degree;
                }
            }
            v = v + 1;
        }
        best
    }

    /// The neighbours of a node.
    fn neighbours(&self, v: u32) -> (r: Vec<(u32, Number)>)
        requires
            self.wf(),
            v < self.alive@.len(),
        ensures
            r@ == self.mesh().fringe(v),
            distinct(r@, self.alive@.len() as int, v),
    {
        let ghost m = self.mesh();
        proof {
            lemma_at(m.strand, v, m.strand.len());
        }
        let count: usize = self.at[v as usize].len();
        let mut r: Vec<(u32, Number)> = Vec::new();
        let mut k: usize = 0;
        while k < count
            invariant
                self.wf(),
                v < self.alive@.len(),
                m == self.mesh(),
                self.at@[v as int]@ == m.at(v),
                k <= count == m.at(v).len(),
                forall|k: int|
                    0 <= k < m.at(v).len() ==> (#[trigger] m.at(v)[k]) < m.strand.len()
                        && m.strand[m.at(v)[k] as int].touches(v),
                r@ == m.fringe_to(v, k as nat),
                distinct(r@, self.alive@.len() as int, v),
            decreases count - k,
        {
            let e: usize = self.at[v as usize][count - 1 - k];
            assert(e == m.at(v)[count - (k + 1)]);
            assert(m.strand[e as int].touches(v) && m.strand[e as int].a < self.alive@.len());
            if self.is_live(e, v) {
                let s = self.strand[e];
                let u: u32 = s.end_from(v);
                proof {
                    lemma_place(r@, u);
                }
                match find_place(&r, u) {
                    Some(x) => {
                        let sum = r[x].1.plus(s.g);
                        r.set(x, (u, sum));
                    },
                    None => {
                        r.push((u, s.g));
                    },
                }
            }
            k = k + 1;
        }
        r
    }

    /// More conductance between two nodes.
    fn bump(&mut self, a: u32, b: u32, g: Number)
        requires
            old(self).wf(),
            a < old(self).alive@.len(),
            b < old(self).alive@.len(),
            a != b,
        ensures
            final(self).wf(),
            final(self).mesh() == old(self).mesh().bumped(a, b, g),
            final(self).alive@ == old(self).alive@,
    {
        let ghost m = self.mesh();
        proof {
            lemma_at(m.strand, a, m.strand.len());
        }
        let count: usize = self.at[a as usize].len();
        let mut k: usize = 0;
        while k < count
            invariant
                self.wf(),
                a < self.alive@.len(),
                m == self.mesh(),
                *self == *old(self),
                self.at@[a as int]@ == m.at(a),
                k <= count == m.at(a).len(),
                forall|k: int|
                    0 <= k < m.at(a).len() ==> (#[trigger] m.at(a)[k]) < m.strand.len()
                        && m.strand[m.at(a)[k] as int].touches(a),
                forall|k: int, l: int| 0 <= k < l < m.at(a).len() ==> m.at(a)[k] < m.at(a)[l],
                forall|e: int|
                    0 <= e < m.strand.len() && (#[trigger] m.strand[e]).touches(a) ==> m.at(
                        a,
                    ).contains(e as usize),
                forall|j: int|
                    0 <= j < k ==> !(m.strand[(#[trigger] m.at(a)[j]) as int].far(a) == b
                        && m.live(m.at(a)[j] as int, a)),
            decreases count - k,
        {
            let e: usize = self.at[a as usize][k];
            assert(e == m.at(a)[k as int]);
            let s = self.strand[e];
            if s.end_from(a) == b && self.is_live(e, a) {
                proof {
                    assert forall|d: int| 0 <= d < e implies !((#[trigger] m.strand[d]).joins(a, b)
                        && m.live(d, a)) by {
                        if m.strand[d].touches(a) {
                            let j = choose|j: int|
                                0 <= j < m.at(a).len() && m.at(a)[j] == d as usize;
                            assert(m.at(a)[j] == d as usize);
                            if j > k {
                                assert(m.at(a)[k as int] < m.at(a)[j]);
                            }
                        }
                    }
                    assert(m.oldest(a, b, e as int));
                    let c = choose|c: int| m.oldest(a, b, c);
                    assert(m.oldest(a, b, c));
                    assert(c == e) by {
                        if c < e {
                            assert(m.strand[c].joins(a, b));
                        } else if e < c {
                            assert(m.strand[e as int].joins(a, b));
                        }
                    }
                }
                let more = Strand { a: s.a, b: s.b, g: s.g.plus(g) };
                self.strand.set(e, more);
                proof {
                    let now = self.mesh();
                    assert forall|v: int| 0 <= v < self.at@.len() implies (#[trigger] self.at@[v])@
                        == now.at(v as u32) by {
                        lemma_at_same(m.strand, now.strand, v as u32, m.strand.len());
                    }
                    assert forall|x: int| 0 <= x < now.strand.len() implies (
                    #[trigger] now.strand[x]).a < now.alive.len() && now.strand[x].b
                        < now.alive.len() && now.strand[x].a != now.strand[x].b by {
                        assert(m.strand[x].a < m.alive.len());
                    }
                }
                return ;
            }
            k = k + 1;
        }
        proof {
            assert forall|e: int| !(#[trigger] m.oldest(a, b, e)) by {
                if m.oldest(a, b, e) {
                    assert(m.strand[e].touches(a));
                    let j = choose|j: int| 0 <= j < m.at(a).len() && m.at(a)[j] == e as usize;
                    assert(m.at(a)[j] == e as usize);
                }
            }
        }
        self.tie(a, b, g);
    }

    /// Eliminate one node.
    fn eliminate(&mut self, v: u32)
        requires
            old(self).wf(),
            v < old(self).alive@.len(),
        ensures
            final(self).wf(),
            final(self).mesh() == old(self).mesh().eliminated(v),
            final(self).alive@ == old(self).alive@.update(v as int, false),
    {
        let f = self.neighbours(v);
        let ghost m = self.mesh();
        let mut total = Number { bits: 0 };
        let count: usize = f.len();
        let mut k: usize = 0;
        while k < count
            invariant
                k <= count == f@.len(),
                total == total_to(f@, k as nat),
            decreases count - k,
        {
            total = total.plus(f[k].1);
            k = k + 1;
        }
        self.alive.set(v as usize, false);
        let ghost start = m.without(v);
        proof {
            assert forall|x: int| 0 <= x < self.at@.len() implies (#[trigger] self.at@[x])@
                == self.mesh().at(x as u32) by {
                assert(self.at@[x]@ == m.at(x as u32));
            }
        }
        if !((Number { bits: 0 }).less(total) && total.is_finite()) {
            return ;
        }
        let ghost nodes = self.alive@;
        let mut i: usize = 0;
        while i < count
            invariant
                i <= count == f@.len(),
                distinct(f@, nodes.len() as int, v),
                self.wf(),
                self.alive@ == nodes,
                self.mesh() == start.spread_to(f@, total, i as nat),
            decreases count - i,
        {
            let (a, ga) = f[i];
            let ghost here = self.mesh();
            let mut j: usize = i + 1;
            while j < count
                invariant
                    i < j <= count == f@.len(),
                    (a, ga) == f@[i as int],
                    distinct(f@, nodes.len() as int, v),
                    self.wf(),
                    self.alive@ == nodes,
                    self.mesh() == here.spread_row(f@, total, i as int, j as nat),
                decreases count - j,
            {
                let (b, gb) = f[j];
                assert(f@[i as int].0 != f@[j as int].0);
                self.bump(a, b, ga.times(gb).over(total));
                j = j + 1;
            }
            i = i + 1;
        }
    }

    /// Eliminate every node that is no terminal, in order of least degree.
    pub fn reduce(&mut self, terminal: &Vec<u32>)
        requires
            old(self).wf(),
            forall|i: int|
                0 <= i < terminal@.len() ==> (#[trigger] terminal@[i]) < old(self).alive@.len(),
        ensures
            final(self).wf(),
            final(self).mesh() == old(self).mesh().reduced(
                terminal@,
                old(self).alive@.len(),
            ),
            final(self).alive@.len() == old(self).alive@.len(),
            forall|v: int| !(#[trigger] final(self).mesh().inner(terminal@, v)),
    {
        let nodes: usize = self.alive.len();
        let is_terminal = mark_terminals(terminal, nodes);
        let ghost want = self.mesh().reduced(terminal@, nodes as nat);
        let ghost mut left: nat = nodes as nat;
        proof {
            if nodes > 0 {
                lemma_count(self.alive@, 0, nodes as nat);
            }
        }
        let mut more: bool = true;
        while more
            invariant
                self.wf(),
                nodes == self.alive@.len() == is_terminal@.len(),
                forall|v: int|
                    0 <= v < nodes ==> (#[trigger] is_terminal@[v]) == terminal@.contains(
                        v as u32,
                    ),
                count_to(self.alive@, nodes as nat) <= left,
                more ==> want == self.mesh().reduced(terminal@, left),
                !more ==> want == self.mesh() && forall|v: int|
                    !(#[trigger] self.mesh().inner(terminal@, v)),
            decreases left + (if more { 1nat } else { 0nat }),
        {
            let ghost m = self.mesh();
            match self.next(&is_terminal, Ghost(terminal@)) {
                None => {
                    proof {
                        assert forall|v: int| !(#[trigger] m.is_next(terminal@, v)) by {
                            assert(!m.inner(terminal@, v));
                        }
                    }
                    more = false;
                },
                Some(v) => {
                    proof {
                        assert(m.is_next(terminal@, v as int));
                        let c = choose|c: int| m.is_next(terminal@, c);
                        assert(m.is_next(terminal@, c));
                        assert(m.inner(terminal@, c) && m.inner(terminal@, v as int));
                        assert(m.sooner(v as int, c) && m.sooner(c, v as int));
                        assert(c == v);
                        lemma_count(self.alive@, v as int, nodes as nat);
                        lemma_some(self.alive@, v as int, nodes as nat);
                    }
                    self.eliminate(v);
                    proof {
                        left = (left - 1) as nat;
                    }
                },
            }
        }
    }
}

/// A set flag is counted.
proof fn lemma_some(s: Seq<bool>, v: int, n: nat)
    requires
        0 <= v < n <= s.len(),
        s[v],
    ensures
        count_to(s, n) >= 1,
    decreases n,
{
    if v < n - 1 {
        lemma_some(s, v, (n - 1) as nat);
    }
}

fn find_place(f: &Vec<(u32, Number)>, u: u32) -> (r: Option<usize>)
    ensures
        r is Some <==> place_in(f@, u) is Some,
        r is Some ==> place_in(f@, u)->0 == r->0 && r->0 < f@.len(),
{
    let mut k: usize = f.len();
    assert(f@.take(k as int) =~= f@);
    while k > 0
        invariant
            k <= f@.len(),
            place_in(f@, u) == place_in(f@.take(k as int), u),
        decreases k,
    {
        let ghost here = f@.take(k as int);
        assert(here.last() == f@[k - 1]);
        if f[k - 1].0 == u {
            return Some(k - 1);
        }
        assert(here.drop_last() =~= f@.take(k - 1));
        k = k - 1;
    }
    None
}

fn mark_terminals(terminal: &Vec<u32>, nodes: usize) -> (r: Vec<bool>)
    requires
        nodes < 0xFFFF_FFFF,
        forall|i: int| 0 <= i < terminal@.len() ==> (#[trigger] terminal@[i]) < nodes,
    ensures
        r@.len() == nodes,
        forall|v: int| 0 <= v < nodes ==> (#[trigger] r@[v]) == terminal@.contains(v as u32),
{
    let mut r: Vec<bool> = Vec::new();
    let mut v: usize = 0;
    while v < nodes
        invariant
            v <= nodes,
            r@.len() == v,
            forall|x: int| 0 <= x < v ==> !(#[trigger] r@[x]),
        decreases nodes - v,
    {
        r.push(false);
        v = v + 1;
    }
    let mut i: usize = 0;
    while i < terminal.len()
        invariant
            i <= terminal@.len(),
            nodes < 0xFFFF_FFFF,
            r@.len() == nodes,
            forall|i: int| 0 <= i < terminal@.len() ==> (#[trigger] terminal@[i]) < nodes,
            forall|v: int|
                0 <= v < nodes ==> (#[trigger] r@[v]) == terminal@.take(i as int).contains(
                    v as u32,
                ),
        decreases terminal@.len() - i,
    {
        let t: u32 = terminal[i];
        let ghost before = r@;
        r.set(t as usize, true);
        i = i + 1;
        proof {
            let now = terminal@.take(i as int);
            let then = terminal@.take(i - 1);
            assert(now =~= then.push(t));
            assert forall|v: int| 0 <= v < nodes implies (#[trigger] r@[v]) == now.contains(
                v as u32,
            ) by {
                if v == t {
                    assert(now[i - 1] == v as u32);
                } else {
                    assert(before[v] == then.contains(v as u32));
                    if then.contains(v as u32) {
                        let k = choose|k: int| 0 <= k < then.len() && then[k] == v as u32;
                        assert(now[k] == v as u32);
                    }
                    if now.contains(v as u32) {
                        let k = choose|k: int| 0 <= k < now.len() && now[k] == v as u32;
                        assert(then[k] == v as u32);
                    }
                }
            }
        }
    }
    assert(terminal@.take(i as int) =~= terminal@);
    r
}

} // verus!
