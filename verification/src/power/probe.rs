//! Effective resistance between the terminals of one network.
use crate::components::{components, connected, lemma_reflexive};
use crate::design::{kept, lemma_kept, lemma_kept_grows};
use crate::number::{Number, ONE};
use crate::power::cholesky::{inverse_of, invert, is_wide, rows_of, Rows};
use crate::power::network::{climbs, NetNetworks, PowerError};
use crate::power::reduce::{lemma_at, woven, Mesh, Weave};
use crate::power::solve::{first_where, is_first};
use vstd::prelude::*;

verus! {

/// The number two.
pub const TWO: u64 = 0x4000_0000_0000_0000;

impl NetNetworks {
    /// How many edges row `r` has.
    pub open spec fn edge_len(&self, r: int) -> int {
        self.edge_hi(r) - self.edge_lo(r)
    }

    /// The two nodes each edge of row `r` joins.
    pub open spec fn pairs(&self, r: int) -> Seq<(u32, u32)> {
        Seq::new(
            self.edge_len(r) as nat,
            |e: int| (self.edge_from@[self.edge_lo(r) + e], self.edge_to@[self.edge_lo(r) + e]),
        )
    }

    pub open spec fn ohms(&self, r: int, e: int) -> Number {
        self.edge_resistance@[self.edge_lo(r) + e]
    }

    /// An edge of row `r` whose resistance is not positive and finite.
    pub open spec fn unusable_edge(&self, r: int) -> spec_fn(int) -> bool {
        |e: int| !(Number { bits: 0 }.lt(self.ohms(r, e)) && self.ohms(r, e).finite())
    }

    /// The conductances of the first `n` edges of row `r`. A loop at one node
    /// carries no current.
    pub open spec fn conductances(&self, r: int, n: nat) -> Seq<(u32, u32, Number)>
        decreases n,
    {
        if n == 0 {
            Seq::empty()
        } else {
            let e = n - 1;
            let before = self.conductances(r, e as nat);
            let pair = self.pairs(r)[e];
            if pair.0 == pair.1 {
                before
            } else {
                before.push(
                    (pair.0, pair.1, Number { bits: ONE }.over_spec(self.ohms(r, e))),
                )
            }
        }
    }

    /// Whether two terminals of row `r` are in one connected part of it.
    pub open spec fn together(&self, r: int, i: int, j: int) -> bool {
        connected(self.pairs(r), self.terminals(r)[i] as int, self.terminals(r)[j] as int)
    }

    /// Terminal `i` is the lowest of its part.
    pub open spec fn leads(&self, r: int) -> spec_fn(int) -> bool {
        |i: int| forall|j: int| 0 <= j < i ==> !(#[trigger] self.together(r, j, i))
    }

    /// The lowest terminal of each part, ascending.
    pub open spec fn leaders(&self, r: int) -> Seq<u32> {
        kept(self.terminals(r).len(), self.leads(r))
    }

    /// The terminals of the part terminal `i` is in, ascending.
    pub open spec fn part(&self, r: int, i: int) -> Seq<u32> {
        kept(self.terminals(r).len(), |j: int| self.together(r, i, j))
    }
}

/// What a probe of one row needs: its conductances, and its terminals grouped by
/// connected part. Each group is measured against its own lowest terminal.
pub struct ProbePlan {
    pub nodes: u32,
    pub terminal: Vec<u32>,
    pub link: Vec<(u32, u32, Number)>,
    /// The terminals of each part, as rows of `terminal`.
    pub group: Vec<Vec<u32>>,
    /// The group of each terminal, and its place in it.
    pub group_of: Vec<u32>,
    pub place: Vec<u32>,
}

impl ProbePlan {
    /// The plan of one row.
    pub open spec fn plans(&self, networks: &NetNetworks, r: int) -> bool {
        let terminals = networks.terminals(r);
        &&& self.nodes == networks.node_len(r)
        &&& self.terminal@ == terminals
        &&& self.link@ == networks.conductances(r, networks.edge_len(r) as nat)
        &&& self.group@.len() == networks.leaders(r).len()
        &&& forall|k: int|
            0 <= k < self.group@.len() ==> (#[trigger] self.group@[k])@ == networks.part(
                r,
                networks.leaders(r)[k] as int,
            )
        &&& self.group_of@.len() == terminals.len()
        &&& self.place@.len() == terminals.len()
        &&& forall|i: int| 0 <= i < terminals.len() ==> #[trigger] self.placed(i)
        &&& forall|i: int, j: int|
            0 <= i < terminals.len() && 0 <= j < terminals.len() ==> ((
            #[trigger] self.group_of@[i]) == (#[trigger] self.group_of@[j]) <==> networks.together(
                r,
                i,
                j,
            ))
    }

    /// Terminal `i` stands where its columns say.
    pub open spec fn placed(&self, i: int) -> bool {
        &&& self.group_of@[i] < self.group@.len()
        &&& self.place@[i] < self.group@[self.group_of@[i] as int]@.len()
        &&& self.group@[self.group_of@[i] as int]@[self.place@[i] as int] == i
    }
}

proof fn lemma_is_first(n: int, bad: spec_fn(int) -> bool, k: int)
    requires
        is_first(n, bad, k),
    ensures
        first_where(n, bad) == Some(k),
{
    let c = choose|c: int| is_first(n, bad, c);
    assert(is_first(n, bad, c));
    assert(bad(c) && bad(k));
}

/// The label of a terminal.
spec fn mark(label: Seq<u32>, terminal: Seq<u32>, i: int) -> u32 {
    label[terminal[i] as int]
}

/// Labels tell the connected parts of a row apart.
spec fn marks_parts(networks: &NetNetworks, r: int, label: Seq<u32>) -> bool {
    &&& label.len() == networks.node_len(r)
    &&& forall|x: int| 0 <= x < label.len() ==> (#[trigger] label[x]) < label.len()
    &&& forall|i: int|
        0 <= i < networks.terminals(r).len() ==> (#[trigger] networks.terminals(r)[i])
            < label.len()
    &&& forall|i: int, j: int|
        0 <= i < networks.terminals(r).len() && 0 <= j < networks.terminals(r).len() ==> ((
        #[trigger] mark(label, networks.terminals(r), i)) == (#[trigger] mark(
            label,
            networks.terminals(r),
            j,
        )) <==> networks.together(r, i, j))
}

/// The lowest terminal of each part.
fn find_leaders(networks: &NetNetworks, row: u32, label: &Vec<u32>, terminal: &Vec<u32>) -> (r: Vec<
    u32,
>)
    requires
        terminal@ == networks.terminals(row as int),
        marks_parts(networks, row as int, label@),
        terminal@.len() < 0xFFFF_FFFF,
    ensures
        r@ == networks.leaders(row as int),
        r@.len() <= terminal@.len(),
        forall|k: int| 0 <= k < r@.len() ==> (#[trigger] r@[k]) < terminal@.len(),
        forall|k: int, l: int|
            0 <= k < l < r@.len() ==> mark(label@, terminal@, (#[trigger] r@[k]) as int) != mark(
                label@,
                terminal@,
                (#[trigger] r@[l]) as int,
            ),
        forall|i: int| 0 <= i < terminal@.len() ==> #[trigger] led(label@, terminal@, r@, i),
{
    let ghost rr = row as int;
    let ghost leads = networks.leads(rr);
    let nodes: usize = label.len();
    let count: usize = terminal.len();
    let mut seen: Vec<bool> = Vec::new();
    let mut n: usize = 0;
    while n < nodes
        invariant
            n <= nodes,
            seen@.len() == n,
            forall|x: int| 0 <= x < n ==> !(#[trigger] seen@[x]),
        decreases nodes - n,
    {
        seen.push(false);
        n = n + 1;
    }
    let mut r: Vec<u32> = Vec::new();
    let mut i: usize = 0;
    while i < count
        invariant
            i <= count == terminal@.len() < 0xFFFF_FFFF,
            rr == row,
            leads == networks.leads(rr),
            terminal@ == networks.terminals(rr),
            nodes == label@.len(),
            marks_parts(networks, rr, label@),
            seen@.len() == nodes,
            r@ == kept(i as nat, leads),
            r@.len() <= i,
            forall|k: int| 0 <= k < r@.len() ==> (#[trigger] r@[k]) < i,
            forall|k: int, l: int|
                0 <= k < l < r@.len() ==> mark(label@, terminal@, (#[trigger] r@[k]) as int)
                    != mark(label@, terminal@, (#[trigger] r@[l]) as int),
            forall|j: int| 0 <= j < i ==> #[trigger] led(label@, terminal@, r@, j),
            forall|x: int|
                0 <= x < nodes ==> (#[trigger] seen@[x]) == exists|j: int|
                    0 <= j < i && #[trigger] mark(label@, terminal@, j) == x,
        decreases count - i,
    {
        let own: usize = label[terminal[i] as usize] as usize;
        let ghost before = seen@;
        let ghost leaders = r@;
        assert(mark(label@, terminal@, i as int) == own);
        assert(before[own as int] == exists|j: int|
            0 <= j < i && #[trigger] mark(label@, terminal@, j) == own);
        proof {
            if before[own as int] {
                let j = choose|j: int| 0 <= j < i && #[trigger] mark(label@, terminal@, j) == own;
                assert(networks.together(rr, j, i as int));
                assert(!leads(i as int));
            } else {
                assert forall|j: int| 0 <= j < i implies !(#[trigger] networks.together(
                    rr,
                    j,
                    i as int,
                )) by {
                    assert(mark(label@, terminal@, j) != own);
                }
                assert(leads(i as int));
            }
        }
        if !seen[own] {
            r.push(i as u32);
        }
        seen.set(own, true);
        proof {
            assert forall|j: int| 0 <= j < i + 1 implies #[trigger] led(
                label@,
                terminal@,
                r@,
                j,
            ) by {
                if j < i {
                    assert(led(label@, terminal@, leaders, j));
                    let k = choose|k: int|
                        0 <= k < leaders.len() && mark(
                            label@,
                            terminal@,
                            (#[trigger] leaders[k]) as int,
                        ) == mark(label@, terminal@, j);
                    assert(r@[k] == leaders[k]);
                } else if before[own as int] {
                    let m = choose|m: int|
                        0 <= m < i && #[trigger] mark(label@, terminal@, m) == own;
                    assert(led(label@, terminal@, leaders, m));
                } else {
                    assert(r@[leaders.len() as int] == i);
                }
            }
            assert forall|k: int, l: int| 0 <= k < l < r@.len() implies mark(
                label@,
                terminal@,
                (#[trigger] r@[k]) as int,
            ) != mark(label@, terminal@, (#[trigger] r@[l]) as int) by {
                if l == leaders.len() {
                    assert(leaders[k] < i);
                } else {
                    assert(mark(label@, terminal@, leaders[k] as int) != mark(
                        label@,
                        terminal@,
                        leaders[l] as int,
                    ));
                }
            }
            assert forall|x: int| 0 <= x < nodes implies (#[trigger] seen@[x]) == exists|j: int|
                0 <= j < i + 1 && #[trigger] mark(label@, terminal@, j) == x by {
                if x == own {
                    assert(mark(label@, terminal@, i as int) == x);
                } else if before[x] {
                    let j = choose|j: int| 0 <= j < i && #[trigger] mark(label@, terminal@, j) == x;
                    assert(mark(label@, terminal@, j) == x);
                }
            }
        }
        i = i + 1;
    }
    r
}

/// Some leader carries the label of terminal `i`.
spec fn led(label: Seq<u32>, terminal: Seq<u32>, leaders: Seq<u32>, i: int) -> bool {
    exists|k: int|
        0 <= k < leaders.len() && mark(label, terminal, (#[trigger] leaders[k]) as int) == mark(
            label,
            terminal,
            i,
        )
}

/// Where each terminal of the first `n` groups stands.
spec fn stands(
    label: Seq<u32>,
    terminal: Seq<u32>,
    leaders: Seq<u32>,
    group: Seq<Vec<u32>>,
    group_of: Seq<u32>,
    place: Seq<u32>,
    n: int,
    i: int,
) -> bool {
    forall|k: int|
        0 <= k < n && mark(label, terminal, (#[trigger] leaders[k]) as int) == mark(
            label,
            terminal,
            i,
        ) ==> group_of[i] == k && place[i] < group[k]@.len() && group[k]@[place[i] as int] == i
}

/// The groups of labelled terminals, and each terminal's place in its own.
fn group_terminals(
    networks: &NetNetworks,
    row: u32,
    label: &Vec<u32>,
    terminal: &Vec<u32>,
) -> (r: (Vec<Vec<u32>>, Vec<u32>, Vec<u32>))
    requires
        terminal@ == networks.terminals(row as int),
        marks_parts(networks, row as int, label@),
        terminal@.len() < 0xFFFF_FFFF,
    ensures
        r.0@.len() == networks.leaders(row as int).len(),
        forall|k: int|
            0 <= k < r.0@.len() ==> (#[trigger] r.0@[k])@ == networks.part(
                row as int,
                networks.leaders(row as int)[k] as int,
            ),
        r.1@.len() == terminal@.len(),
        r.2@.len() == terminal@.len(),
        forall|i: int|
            0 <= i < terminal@.len() ==> (#[trigger] r.1@[i]) < r.0@.len() && r.2@[i]
                < r.0@[r.1@[i] as int]@.len() && r.0@[r.1@[i] as int]@[r.2@[i] as int] == i,
        forall|i: int, j: int|
            0 <= i < terminal@.len() && 0 <= j < terminal@.len() ==> ((#[trigger] r.1@[i]) == (
            #[trigger] r.1@[j]) <==> networks.together(row as int, i, j)),
{
    let ghost rr = row as int;
    let count: usize = terminal.len();
    let leaders = find_leaders(networks, row, label, terminal);
    let mut group: Vec<Vec<u32>> = Vec::new();
    let mut group_of: Vec<u32> = Vec::new();
    let mut place: Vec<u32> = Vec::new();
    let mut i: usize = 0;
    while i < count
        invariant
            i <= count,
            group_of@.len() == i,
            place@.len() == i,
        decreases count - i,
    {
        group_of.push(0);
        place.push(0);
        i = i + 1;
    }
    let mut k: usize = 0;
    while k < leaders.len()
        invariant
            k <= leaders@.len() <= count == terminal@.len() < 0xFFFF_FFFF,
            rr == row,
            terminal@ == networks.terminals(rr),
            marks_parts(networks, rr, label@),
            leaders@ == networks.leaders(rr),
            forall|k: int| 0 <= k < leaders@.len() ==> (#[trigger] leaders@[k]) < terminal@.len(),
            forall|k: int, l: int|
                0 <= k < l < leaders@.len() ==> mark(
                    label@,
                    terminal@,
                    (#[trigger] leaders@[k]) as int,
                ) != mark(label@, terminal@, (#[trigger] leaders@[l]) as int),
            group@.len() == k,
            group_of@.len() == count,
            place@.len() == count,
            forall|l: int|
                0 <= l < k ==> (#[trigger] group@[l])@ == networks.part(rr, leaders@[l] as int),
            forall|i: int|
                0 <= i < count ==> #[trigger] stands(
                    label@,
                    terminal@,
                    leaders@,
                    group@,
                    group_of@,
                    place@,
                    k as int,
                    i,
                ),
        decreases leaders@.len() - k,
    {
        let leader: u32 = leaders[k];
        let own: u32 = label[terminal[leader as usize] as usize];
        let ghost keep = |j: int| networks.together(rr, leader as int, j);
        let ghost of0 = group_of@;
        let ghost place0 = place@;
        let mut part: Vec<u32> = Vec::new();
        let mut j: usize = 0;
        while j < count
            invariant
                j <= count == terminal@.len() < 0xFFFF_FFFF,
                rr == row,
                terminal@ == networks.terminals(rr),
                marks_parts(networks, rr, label@),
                leader < count,
                k < count,
                own == mark(label@, terminal@, leader as int),
                keep == |j: int| networks.together(rr, leader as int, j),
                part@ == kept(j as nat, keep),
                part@.len() <= j,
                group_of@.len() == count,
                place@.len() == count,
                of0.len() == count,
                place0.len() == count,
                forall|i: int|
                    0 <= i < count && (i >= j || mark(label@, terminal@, i) != own)
                        ==> (#[trigger] group_of@[i]) == of0[i] && place@[i] == place0[i],
                forall|i: int|
                    0 <= i < j && #[trigger] mark(label@, terminal@, i) == own ==> group_of@[i] == k
                        && place@[i] < part@.len() && part@[place@[i] as int] == i,
            decreases count - j,
        {
            let ghost was = part@;
            let ghost of1 = group_of@;
            let ghost place1 = place@;
            let here: u32 = label[terminal[j] as usize];
            assert(mark(label@, terminal@, j as int) == here);
            assert(keep(j as int) == (here == own));
            if here == own {
                group_of.set(j, k as u32);
                place.set(j, part.len() as u32);
                part.push(j as u32);
            }
            proof {
                assert forall|i: int|
                    0 <= i < j + 1 && #[trigger] mark(label@, terminal@, i)
                        == own implies group_of@[i] == k && place@[i] < part@.len()
                    && part@[place@[i] as int] == i by {
                    if i < j {
                        assert(was[place@[i] as int] == i);
                    }
                }
            }
            j = j + 1;
            proof {
                assert forall|x: int|
                    0 <= x < count && (x >= j || mark(label@, terminal@, x) != own) implies (
                #[trigger] group_of@[x]) == of0[x] && place@[x] == place0[x] by {
                    assert(of1[x] == of0[x]);
                    assert(place1[x] == place0[x]);
                    assert(x == j - 1 ==> here != own);
                }
            }
        }
        let ghost groups = group@;
        group.push(part);
        proof {
            assert(group@[k as int]@ == networks.part(rr, leader as int));
            assert forall|i: int| 0 <= i < count implies #[trigger] stands(
                label@,
                terminal@,
                leaders@,
                group@,
                group_of@,
                place@,
                k + 1,
                i,
            ) by {
                assert(stands(label@, terminal@, leaders@, groups, of0, place0, k as int, i));
                assert forall|l: int|
                    0 <= l < k + 1 && mark(label@, terminal@, (#[trigger] leaders@[l]) as int)
                        == mark(label@, terminal@, i) implies group_of@[i] == l && place@[i]
                    < group@[l]@.len() && group@[l]@[place@[i] as int] == i by {
                    if l < k {
                        assert(mark(label@, terminal@, leaders@[l] as int) != mark(
                            label@,
                            terminal@,
                            leaders@[k as int] as int,
                        ));
                        assert(group_of@[i] == of0[i] && place@[i] == place0[i]);
                        assert(group@[l] == groups[l]);
                    } else {
                        assert(mark(label@, terminal@, i) == own);
                    }
                }
            }
        }
        k = k + 1;
    }
    proof {
        assert forall|i: int| 0 <= i < count implies (#[trigger] group_of@[i]) < group@.len()
            && place@[i] < group@[group_of@[i] as int]@.len()
            && group@[group_of@[i] as int]@[place@[i] as int] == i && mark(
            label@,
            terminal@,
            leaders@[group_of@[i] as int] as int,
        ) == mark(label@, terminal@, i) by {
            assert(led(label@, terminal@, leaders@, i));
            let l = choose|l: int|
                0 <= l < leaders@.len() && mark(
                    label@,
                    terminal@,
                    (#[trigger] leaders@[l]) as int,
                ) == mark(label@, terminal@, i);
            assert(stands(
                label@,
                terminal@,
                leaders@,
                group@,
                group_of@,
                place@,
                leaders@.len() as int,
                i,
            ));
        }
        assert forall|i: int, j: int| 0 <= i < count && 0 <= j < count implies ((
        #[trigger] group_of@[i]) == (#[trigger] group_of@[j]) <==> networks.together(
            rr,
            i,
            j,
        )) by {
            let a = group_of@[i] as int;
            let b = group_of@[j] as int;
            assert(mark(label@, terminal@, leaders@[a] as int) == mark(label@, terminal@, i));
            assert(mark(label@, terminal@, leaders@[b] as int) == mark(label@, terminal@, j));
            assert(mark(label@, terminal@, i) == mark(label@, terminal@, j) <==> networks.together(
                rr,
                i,
                j,
            ));
            if a < b {
                assert(mark(label@, terminal@, leaders@[a] as int) != mark(
                    label@,
                    terminal@,
                    leaders@[b] as int,
                ));
            }
            if b < a {
                assert(mark(label@, terminal@, leaders@[b] as int) != mark(
                    label@,
                    terminal@,
                    leaders@[a] as int,
                ));
            }
        }
    }
    (group, group_of, place)
}

/// Strictly ascending numbers below a bound are no more than the bound.
proof fn lemma_climbing_len(s: Seq<u32>, bound: int)
    requires
        climbs(s),
        forall|i: int| 0 <= i < s.len() ==> (#[trigger] s[i]) < bound,
        bound >= 0,
    ensures
        s.len() <= bound,
    decreases s.len(),
{
    if s.len() > 0 {
        let rest = s.drop_last();
        assert forall|i: int| 0 <= i < rest.len() implies (#[trigger] rest[i]) < s.last() by {
            assert(s[i] < s[s.len() - 1]);
        }
        assert(climbs(rest)) by {
            assert forall|i: int, j: int| 0 <= i < j < rest.len() implies rest[i] < rest[j] by {
                assert(s[i] < s[j]);
            }
        }
        lemma_climbing_len(rest, s.last() as int);
    }
}

/// Check one row and plan its probes.
pub fn plan(networks: &NetNetworks, row: u32) -> (r: Result<ProbePlan, PowerError>)
    requires
        networks.wf(),
        row < networks.rows(),
    ensures
        match first_where(
            networks.edge_len(row as int),
            networks.unusable_edge(row as int),
        ) {
            Some(e) => r is Err && r->Err_0 == PowerError::BadResistance(e as u32),
            None => r is Ok && (r->Ok_0).plans(networks, row as int),
        },
{
    let ghost rr = row as int;
    let (points, _) = networks.nodes_of(row);
    let nodes: u32 = points.len() as u32;
    let listed = networks.terminals_of(row);
    let (from, to, ohms) = networks.edges_of(row);
    let edges: usize = from.len();
    assert(edges == networks.edge_len(rr));
    let mut e: usize = 0;
    while e < edges
        invariant
            e <= edges == networks.edge_len(rr),
            rr == row,
            networks.wf(),
            row < networks.rows(),
            ohms@.len() == edges,
            ohms@ == networks.edge_resistance@.subrange(networks.edge_lo(rr), networks.edge_hi(rr)),
            forall|j: int| 0 <= j < e ==> !(#[trigger] (networks.unusable_edge(rr))(j)),
        decreases edges - e,
    {
        let here = ohms[e];
        assert(here == networks.ohms(rr, e as int));
        if !(Number { bits: 0 }.less(here) && here.is_finite()) {
            proof {
                lemma_is_first(networks.edge_len(rr), networks.unusable_edge(rr), e as int);
            }
            return Err(PowerError::BadResistance(e as u32));
        }
        e = e + 1;
    }
    let mut pairs: Vec<(u32, u32)> = Vec::new();
    let mut link: Vec<(u32, u32, Number)> = Vec::new();
    let mut i: usize = 0;
    while i < edges
        invariant
            i <= edges == networks.edge_len(rr),
            networks.wf(),
            0 <= rr < networks.rows(),
            from@.len() == edges,
            to@.len() == edges,
            ohms@.len() == edges,
            from@ == networks.edge_from@.subrange(networks.edge_lo(rr), networks.edge_hi(rr)),
            to@ == networks.edge_to@.subrange(networks.edge_lo(rr), networks.edge_hi(rr)),
            ohms@ == networks.edge_resistance@.subrange(networks.edge_lo(rr), networks.edge_hi(rr)),
            pairs@ == networks.pairs(rr).take(i as int),
            link@ == networks.conductances(rr, i as nat),
        decreases edges - i,
    {
        let a: u32 = from[i];
        let b: u32 = to[i];
        assert(networks.pairs(rr)[i as int] == (a, b));
        pairs.push((a, b));
        if a != b {
            link.push((a, b, Number { bits: ONE }.over(ohms[i])));
        }
        i = i + 1;
        assert(pairs@ =~= networks.pairs(rr).take(i as int));
    }
    assert(pairs@ =~= networks.pairs(rr));
    proof {
        assert forall|e: int| 0 <= e < pairs@.len() implies (#[trigger] pairs@[e]).0 < nodes
            && pairs@[e].1 < nodes by {
            assert(from@[e] < networks.node_len(rr));
            assert(to@[e] < networks.node_len(rr));
        }
    }
    let label = components(nodes, &pairs);
    let mut terminal: Vec<u32> = Vec::new();
    let mut t: usize = 0;
    while t < listed.len()
        invariant
            t <= listed@.len(),
            terminal@ == listed@.take(t as int),
        decreases listed@.len() - t,
    {
        terminal.push(listed[t]);
        t = t + 1;
        assert(terminal@ =~= listed@.take(t as int));
    }
    assert(terminal@ =~= networks.terminals(rr));
    proof {
        lemma_climbing_len(listed@, networks.node_len(rr));
        assert forall|i: int, j: int|
            0 <= i < networks.terminals(rr).len()
                && 0 <= j < networks.terminals(rr).len() implies ((
        #[trigger] mark(label@, networks.terminals(rr), i)) == (#[trigger] mark(
            label@,
            networks.terminals(rr),
            j,
        )) <==> networks.together(rr, i, j)) by {
            let x = networks.terminals(rr)[i] as int;
            let y = networks.terminals(rr)[j] as int;
            assert(listed@[i] < networks.node_len(rr));
            assert(listed@[j] < networks.node_len(rr));
            assert(label@[x] == label@[y] <==> connected(pairs@, x, y));
        }
    }
    let (group, group_of, place) = group_terminals(networks, row, &label, &terminal);
    let r = ProbePlan { nodes, terminal, link, group, group_of, place };
    proof {
        assert forall|i: int| 0 <= i < networks.terminals(rr).len() implies #[trigger] r.placed(
            i,
        ) by {
            assert(r.group_of@[i] < r.group@.len());
        }
        assert forall|j: int| 0 <= j < networks.edge_len(rr) implies !(#[trigger] (
        networks.unusable_edge(rr))(j)) by {
        }
    }
    Ok(r)
}

/// The resistance between two places `p < q` of a group, from the inverse of its
/// matrix grounded at place zero: `X(pp) + X(qq) - 2 X(pq)`, the grounded place
/// reading zero.
pub open spec fn resistance(inverse: Rows, p: int, q: int) -> Number {
    let keep = Number { bits: if p == 0 { 0 } else { ONE } };
    let a = if p == 0 { 0 } else { p - 1 };
    let b = q - 1;
    let xaa = inverse[a][a].times_spec(keep);
    let xbb = inverse[b][b];
    let xab = inverse[a][b].times_spec(keep);
    xaa.plus_spec(xbb).minus_spec(Number { bits: TWO }.times_spec(xab))
}

impl ProbePlan {
    /// The inverses answer the plan: one per group, each square.
    pub open spec fn answered(&self, inverse: Seq<Option<Vec<Vec<Number>>>>) -> bool {
        &&& inverse.len() == self.group@.len()
        &&& forall|k: int|
            0 <= k < inverse.len() && (#[trigger] inverse[k]) is Some ==> (inverse[k]->0)@.len()
                == self.group@[k]@.len() - 1 && is_wide(
                (inverse[k]->0)@,
                self.group@[k]@.len() - 1,
            )
    }

    /// Group `k` has a pair to measure and its matrix had no inverse.
    pub open spec fn failed(&self, inverse: Seq<Option<Vec<Vec<Number>>>>) -> spec_fn(int) -> bool {
        |k: int| self.group@[k]@.len() > 1 && inverse[k] is None
    }

    /// The probe between terminals `i < j` of one group.
    pub open spec fn probe(&self, inverse: Seq<Option<Vec<Vec<Number>>>>, i: int, j: int) -> (
        u32,
        u32,
        Number,
    ) {
        let k = self.group_of@[i] as int;
        (
            self.terminal@[i],
            self.terminal@[j],
            resistance(
                rows_of((inverse[k]->0)@),
                self.place@[i] as int,
                self.place@[j] as int,
            ),
        )
    }

    /// The probes from terminal `i` to those after it and below `n`. A terminal
    /// in another part has none, rather than an infinite one: an infinity would
    /// compare below no limit and read as a pass.
    pub open spec fn from_terminal(
        &self,
        inverse: Seq<Option<Vec<Vec<Number>>>>,
        i: int,
        n: nat,
    ) -> Seq<
        (u32, u32, Number),
    >
        decreases n,
    {
        if n == 0 || n <= i + 1 {
            Seq::empty()
        } else {
            let before = self.from_terminal(inverse, i, (n - 1) as nat);
            if self.group_of@[n - 1] == self.group_of@[i] {
                before.push(self.probe(inverse, i, n - 1))
            } else {
                before
            }
        }
    }

    /// The probes from the first `n` terminals.
    pub open spec fn probes_to(&self, inverse: Seq<Option<Vec<Vec<Number>>>>, n: nat) -> Seq<
        (u32, u32, Number),
    >
        decreases n,
    {
        if n == 0 {
            Seq::empty()
        } else {
            self.probes_to(inverse, (n - 1) as nat) + self.from_terminal(
                inverse,
                n - 1,
                self.terminal@.len(),
            )
        }
    }
}

/// Places ascend with terminals within one group.
proof fn lemma_places(plan: &ProbePlan, networks: &NetNetworks, r: int, i: int, j: int)
    requires
        plan.plans(networks, r),
        0 <= i < j < plan.terminal@.len(),
        plan.terminal@.len() < 0xFFFF_FFFF,
        plan.group_of@[i] == plan.group_of@[j],
    ensures
        plan.place@[i] < plan.place@[j] < plan.group@[plan.group_of@[i] as int]@.len(),
        plan.group@[plan.group_of@[i] as int]@.len() > 1,
{
    assert(plan.placed(i));
    assert(plan.placed(j));
    let k = plan.group_of@[i] as int;
    let g = plan.group@[k]@;
    let leader = networks.leaders(r)[k] as int;
    lemma_kept_climbs(plan.terminal@.len(), |j: int| networks.together(r, leader, j));
    let p = plan.place@[i] as int;
    let q = plan.place@[j] as int;
    assert(g[p] == i && g[q] == j);
    if q < p {
        assert(g[q] < g[p]);
    }
}

proof fn lemma_kept_climbs(n: nat, keep: spec_fn(int) -> bool)
    requires
        n <= 0xFFFF_FFFF,
    ensures
        climbs(kept(n, keep)),
    decreases n,
{
    if n > 0 {
        lemma_kept_climbs((n - 1) as nat, keep);
        lemma_kept((n - 1) as nat, keep);
    }
}

/// The effective resistance of every terminal pair of one row, given the inverse
/// of each group's grounded matrix; `None` where there was none.
///
/// Pairs come ascending, the lower terminal first.
pub fn probes(
    networks: &NetNetworks,
    row: u32,
    plan: &ProbePlan,
    inverse: &Vec<Option<Vec<Vec<Number>>>>,
) -> (r: Result<Vec<(u32, u32, Number)>, PowerError>)
    requires
        networks.wf(),
        row < networks.rows(),
        plan.plans(networks, row as int),
        plan.terminal@.len() < 0xFFFF_FFFF,
        plan.answered(inverse@),
    ensures
        match first_where(plan.group@.len() as int, plan.failed(inverse@)) {
            Some(k) => r is Err && r->Err_0 == PowerError::NotFinite(
                plan.terminal@[plan.group@[k]@[0] as int],
            ),
            None => r is Ok && (r->Ok_0)@ == plan.probes_to(inverse@, plan.terminal@.len()),
        },
{
    let ghost rr = row as int;
    let groups: usize = plan.group.len();
    let mut k: usize = 0;
    while k < groups
        invariant
            k <= groups == plan.group@.len(),
            plan.plans(networks, rr),
            plan.terminal@.len() < 0xFFFF_FFFF,
            plan.answered(inverse@),
            forall|j: int| 0 <= j < k ==> !(#[trigger] (plan.failed(inverse@))(j)),
        decreases groups - k,
    {
        if plan.group[k].len() > 1 && inverse[k].is_none() {
            proof {
                lemma_is_first(groups as int, plan.failed(inverse@), k as int);
                let leader = networks.leaders(rr)[k as int] as int;
                assert(plan.group@[k as int]@ == networks.part(rr, leader));
                lemma_kept(
                    networks.terminals(rr).len(),
                    |j: int| networks.together(rr, leader, j),
                );
                assert(plan.group@[k as int]@[0] < plan.terminal@.len());
            }
            let first: usize = plan.group[k][0] as usize;
            return Err(PowerError::NotFinite(plan.terminal[first]));
        }
        k = k + 1;
    }
    let count: usize = plan.terminal.len();
    let mut out: Vec<(u32, u32, Number)> = Vec::new();
    let mut i: usize = 0;
    while i < count
        invariant
            i <= count == plan.terminal@.len() < 0xFFFF_FFFF,
            groups == plan.group@.len(),
            plan.plans(networks, rr),
            plan.answered(inverse@),
            forall|j: int| 0 <= j < groups ==> !(#[trigger] (plan.failed(inverse@))(j)),
            out@ == plan.probes_to(inverse@, i as nat),
        decreases count - i,
    {
        let ghost before = out@;
        let mut j: usize = i + 1;
        assert(out@ =~= before + plan.from_terminal(inverse@, i as int, j as nat));
        while j < count
            invariant
                i < j <= count == plan.terminal@.len() < 0xFFFF_FFFF,
                groups == plan.group@.len(),
                plan.plans(networks, rr),
                plan.answered(inverse@),
                forall|j: int| 0 <= j < groups ==> !(#[trigger] (plan.failed(inverse@))(j)),
                out@ == before + plan.from_terminal(inverse@, i as int, j as nat),
            decreases count - j,
        {
            let own: usize = plan.group_of[i] as usize;
            assert(plan.placed(i as int));
            if plan.group_of[j] == plan.group_of[i] {
                proof {
                    lemma_places(plan, networks, rr, i as int, j as int);
                    assert(!(plan.failed(inverse@))(own as int));
                    assert(inverse@[own as int] is Some);
                }
                let ohms = match &inverse[own] {
                    Some(x) => measure(x, plan.place[i] as usize, plan.place[j] as usize),
                    None => Number { bits: 0 },
                };
                out.push((plan.terminal[i], plan.terminal[j], ohms));
            }
            j = j + 1;
            assert(out@ =~= before + plan.from_terminal(inverse@, i as int, j as nat));
        }
        i = i + 1;
    }
    proof {
        assert forall|k: int| !is_first(groups as int, plan.failed(inverse@), k) by {
            if is_first(groups as int, plan.failed(inverse@), k) {
                assert(!(plan.failed(inverse@))(k));
            }
        }
    }
    Ok(out)
}

fn measure(inverse: &Vec<Vec<Number>>, p: usize, q: usize) -> (r: Number)
    requires
        is_wide(inverse@, inverse@.len() as int),
        p < q <= inverse@.len(),
    ensures
        r == resistance(rows_of(inverse@), p as int, q as int),
{
    let a: usize = if p == 0 { 0 } else { p - 1 };
    let b: usize = q - 1;
    let keep = Number { bits: if p == 0 { 0 } else { ONE } };
    assert(inverse@[a as int]@.len() == inverse@.len());
    assert(inverse@[b as int]@.len() == inverse@.len());
    let xaa = inverse[a][a].times(keep);
    let xbb = inverse[b][b];
    let xab = inverse[a][b].times(keep);
    xaa.plus(xbb).minus(Number { bits: TWO }.times(xab))
}

impl NetNetworks {
    /// A row's network with every node that is no terminal eliminated.
    pub open spec fn reduced(&self, r: int) -> Mesh {
        let nodes = self.node_len(r) as nat;
        woven(nodes, self.conductances(r, self.edge_len(r) as nat)).reduced(
            self.terminals(r),
            nodes,
        )
    }

    /// The conductance matrix of a group of terminals, grounded at its first.
    pub open spec fn grounded(&self, r: int, group: Seq<u32>) -> Rows {
        let n = (group.len() - 1) as nat;
        let m = self.reduced(r);
        Seq::new(
            n,
            |p: int|
                Seq::new(
                    n,
                    |q: int|
                        m.entry(
                            self.terminals(r)[group[p + 1] as int],
                            self.terminals(r)[group[q + 1] as int],
                        ),
                ),
        )
    }
}

impl ProbePlan {
    /// The inverse of each group's grounded matrix.
    pub open spec fn inverts(
        &self,
        networks: &NetNetworks,
        r: int,
        inverse: Seq<Option<Vec<Vec<Number>>>>,
    ) -> bool {
        &&& self.plans(networks, r)
        &&& inverse.len() == self.group@.len()
        &&& forall|k: int| 0 <= k < inverse.len() ==> #[trigger] self.inverted(
            networks,
            r,
            inverse,
            k,
        )
    }

    pub open spec fn inverted(
        &self,
        networks: &NetNetworks,
        r: int,
        inverse: Seq<Option<Vec<Vec<Number>>>>,
        k: int,
    ) -> bool {
        let want = inverse_of(networks.grounded(r, self.group@[k]@));
        &&& inverse[k] is Some <==> want is Some
        &&& inverse[k] is Some ==> rows_of((inverse[k]->0)@) == want->0
    }
}

/// What a probe of one row returns, given the plan of the row and the inverses
/// of its groups.
pub open spec fn probed(
    plan: &ProbePlan,
    inverse: Seq<Option<Vec<Vec<Number>>>>,
    r: Result<(), PowerError>,
    out: Seq<(u32, u32, Number)>,
) -> bool {
    match first_where(plan.group@.len() as int, plan.failed(inverse)) {
        Some(k) => r == Err::<(), PowerError>(
            PowerError::NotFinite(plan.terminal@[plan.group@[k]@[0] as int]),
        ) && out.len() == 0,
        None => r is Ok && out == plan.probes_to(inverse, plan.terminal@.len()),
    }
}

/// The entry of two terminals of a reduced network.
fn entries_from(
    weave: &Weave,
    terminal: &Vec<u32>,
    row_of: &Vec<u32>,
    i: usize,
) -> (r: Vec<Number>)
    requires
        weave.wf(),
        i < terminal@.len() < 0xFFFF_FFFF,
        climbs(terminal@),
        forall|k: int| 0 <= k < terminal@.len() ==> (#[trigger] terminal@[k]) < weave.alive@.len(),
        forall|v: int| !(#[trigger] weave.mesh().inner(terminal@, v)),
        row_of@.len() == weave.alive@.len(),
        forall|k: int| 0 <= k < terminal@.len() ==> row_of@[(#[trigger] terminal@[k]) as int] == k,
    ensures
        r@.len() == terminal@.len(),
        forall|j: int|
            0 <= j < terminal@.len() ==> (#[trigger] r@[j]) == weave.mesh().entry(
                terminal@[i as int],
                terminal@[j],
            ),
{
    let ghost m = weave.mesh();
    let t: u32 = terminal[i];
    let count: usize = terminal.len();
    let mut r: Vec<Number> = Vec::new();
    let mut j: usize = 0;
    while j < count
        invariant
            j <= count,
            r@.len() == j,
            forall|x: int| 0 <= x < j ==> (#[trigger] r@[x]) == (Number { bits: 0 }),
        decreases count - j,
    {
        r.push(Number { bits: 0 });
        j = j + 1;
    }
    proof {
        lemma_at(m.strand, t, m.strand.len());
    }
    let strands: usize = weave.at[t as usize].len();
    let mut k: usize = 0;
    while k < strands
        invariant
            weave.wf(),
            m == weave.mesh(),
            t == terminal@[i as int],
            t < weave.alive@.len(),
            i < terminal@.len() == count < 0xFFFF_FFFF,
            climbs(terminal@),
            forall|k: int|
                0 <= k < terminal@.len() ==> (#[trigger] terminal@[k]) < weave.alive@.len(),
            forall|v: int| !(#[trigger] m.inner(terminal@, v)),
            row_of@.len() == weave.alive@.len(),
            forall|k: int|
                0 <= k < terminal@.len() ==> row_of@[(#[trigger] terminal@[k]) as int] == k,
            weave.at@[t as int]@ == m.at(t),
            k <= strands == m.at(t).len(),
            forall|k: int|
                0 <= k < m.at(t).len() ==> (#[trigger] m.at(t)[k]) < m.strand.len()
                    && m.strand[m.at(t)[k] as int].touches(t),
            r@.len() == count,
            forall|j: int|
                0 <= j < count ==> (#[trigger] r@[j]) == (if j == i {
                    m.load_to(t, k as nat)
                } else {
                    m.between_to(t, terminal@[j], k as nat)
                }),
        decreases strands - k,
    {
        let e: usize = weave.at[t as usize][strands - 1 - k];
        assert(e == m.at(t)[strands - (k + 1)]);
        assert(m.strand[e as int].touches(t) && m.strand[e as int].a < m.alive.len());
        let ghost before = r@;
        let ghost live = m.live(e as int, t);
        if weave.is_live(e, t) {
            let s = weave.strand[e];
            let u: u32 = s.end_from(t);
            assert(!m.inner(terminal@, u as int));
            assert(terminal@.contains(u));
            let ghost y = choose|y: int| 0 <= y < terminal@.len() && terminal@[y] == u;
            assert(row_of@[terminal@[y] as int] == y);
            let at: usize = row_of[u as usize] as usize;
            assert(at != i) by {
                assert(terminal@[at as int] == u);
            }
            let less = r[at].minus(s.g);
            r.set(at, less);
            let more = r[i].plus(s.g);
            r.set(i, more);
            proof {
                assert forall|j: int| 0 <= j < count implies (#[trigger] r@[j]) == (if j == i {
                    m.load_to(t, (k + 1) as nat)
                } else {
                    m.between_to(t, terminal@[j], (k + 1) as nat)
                }) by {
                    assert(before[j] == (if j == i {
                        m.load_to(t, k as nat)
                    } else {
                        m.between_to(t, terminal@[j], k as nat)
                    }));
                    if j != at && j != i {
                        if j < at {
                            assert(terminal@[j] < terminal@[at as int]);
                        } else {
                            assert(terminal@[at as int] < terminal@[j]);
                        }
                    }
                }
            }
        }
        k = k + 1;
    }
    proof {
        assert forall|j: int| 0 <= j < count implies (#[trigger] r@[j]) == m.entry(
            t,
            terminal@[j],
        ) by {
            if j < i {
                assert(terminal@[j] < terminal@[i as int]);
            } else if j > i {
                assert(terminal@[i as int] < terminal@[j]);
            }
        }
    }
    r
}

/// The conductance matrix of one group, grounded at its first terminal.
fn ground(dense: &Vec<Vec<Number>>, group: &Vec<u32>, Ghost(want): Ghost<Rows>) -> (r: Vec<
    Vec<Number>,
>)
    requires
        1 <= group@.len(),
        is_wide(dense@, dense@.len() as int),
        forall|p: int| 0 <= p < group@.len() ==> (#[trigger] group@[p]) < dense@.len(),
        want.len() == group@.len() - 1,
        forall|p: int| 0 <= p < want.len() ==> (#[trigger] want[p]).len() == want.len(),
        forall|p: int, q: int|
            0 <= p < want.len() && 0 <= q < want.len() ==> (#[trigger] want[p][q])
                == dense@[group@[p + 1] as int]@[group@[q + 1] as int],
    ensures
        rows_of(r@) == want,
        r@.len() == want.len(),
        is_wide(r@, r@.len() as int),
{
    let n: usize = group.len() - 1;
    let mut r: Vec<Vec<Number>> = Vec::new();
    let mut p: usize = 0;
    while p < n
        invariant
            p <= n == group@.len() - 1,
            is_wide(dense@, dense@.len() as int),
            forall|p: int| 0 <= p < group@.len() ==> (#[trigger] group@[p]) < dense@.len(),
            want.len() == n,
            forall|p: int| 0 <= p < want.len() ==> (#[trigger] want[p]).len() == want.len(),
            forall|p: int, q: int|
                0 <= p < want.len() && 0 <= q < want.len() ==> (#[trigger] want[p][q])
                    == dense@[group@[p + 1] as int]@[group@[q + 1] as int],
            r@.len() == p,
            forall|x: int| 0 <= x < p ==> (#[trigger] r@[x])@ == want[x],
        decreases n - p,
    {
        let a: usize = group[p + 1] as usize;
        assert(group@[p + 1] < dense@.len());
        assert(dense@[a as int]@.len() == dense@.len());
        let mut row: Vec<Number> = Vec::new();
        let mut q: usize = 0;
        while q < n
            invariant
                p < n,
                q <= n == group@.len() - 1,
                a == group@[p + 1],
                a < dense@.len(),
                dense@[a as int]@.len() == dense@.len(),
                forall|p: int| 0 <= p < group@.len() ==> (#[trigger] group@[p]) < dense@.len(),
                want.len() == n,
                want[p as int].len() == n,
                forall|p: int, q: int|
                    0 <= p < want.len() && 0 <= q < want.len() ==> (#[trigger] want[p][q])
                        == dense@[group@[p + 1] as int]@[group@[q + 1] as int],
                row@ == want[p as int].take(q as int),
            decreases n - q,
        {
            let b: usize = group[q + 1] as usize;
            assert(group@[q + 1] < dense@.len());
            row.push(dense[a][b]);
            assert(want[p as int][q as int] == dense@[a as int]@[b as int]);
            q = q + 1;
            assert(row@ =~= want[p as int].take(q as int));
        }
        assert(row@ =~= want[p as int]);
        r.push(row);
        p = p + 1;
    }
    assert(rows_of(r@) =~= want);
    r
}

/// The effective resistance of every terminal pair of one row.
///
/// Nodes that are no terminal are eliminated first, so what is left to invert is
/// as large as the terminals are many. A pair split across parts is absent. The
/// pairs come ascending, the lower terminal first.
pub fn effective_resistance_into(
    networks: &NetNetworks,
    row: u32,
    out: &mut Vec<(u32, u32, Number)>,
) -> (r: Result<(), PowerError>)
    requires
        networks.wf(),
        row < networks.rows(),
    ensures
        match first_where(
            networks.edge_len(row as int),
            networks.unusable_edge(row as int),
        ) {
            Some(e) => r == Err::<(), PowerError>(PowerError::BadResistance(e as u32))
                && final(out)@.len() == 0,
            None => exists|plan: ProbePlan, inverse: Seq<Option<Vec<Vec<Number>>>>|
                #[trigger] plan.inverts(networks, row as int, inverse) && probed(
                    &plan,
                    inverse,
                    r,
                    final(out)@,
                ),
        },
{
    let ghost rr = row as int;
    *out = Vec::new();
    let planned = match plan(networks, row) {
        Err(e) => {
            return Err(e);
        },
        Ok(planned) => planned,
    };
    let ghost terminals = networks.terminals(rr);
    let count: usize = planned.terminal.len();
    proof {
        lemma_terminals(networks, rr);
        lemma_links(networks, rr, networks.edge_len(rr) as nat);
    }
    let mut weave = Weave::new(planned.nodes, &planned.link);
    weave.reduce(&planned.terminal);
    let ghost m = networks.reduced(rr);
    assert(weave.mesh() == m);
    let mut row_of: Vec<u32> = Vec::new();
    let mut v: u32 = 0;
    while v < planned.nodes
        invariant
            v <= planned.nodes,
            row_of@.len() == v,
        decreases planned.nodes - v,
    {
        row_of.push(0);
        v = v + 1;
    }
    let mut t: usize = 0;
    while t < count
        invariant
            t <= count == planned.terminal@.len() < 0xFFFF_FFFF,
            row_of@.len() == planned.nodes,
            climbs(planned.terminal@),
            forall|k: int| 0 <= k < count ==> (#[trigger] planned.terminal@[k]) < planned.nodes,
            forall|k: int| 0 <= k < t ==> row_of@[(#[trigger] planned.terminal@[k]) as int] == k,
        decreases count - t,
    {
        let node: u32 = planned.terminal[t];
        let ghost before = row_of@;
        row_of.set(node as usize, t as u32);
        proof {
            assert forall|k: int| 0 <= k < t + 1 implies row_of@[(
            #[trigger] planned.terminal@[k]) as int] == k by {
                if k < t {
                    assert(planned.terminal@[k] < planned.terminal@[t as int]);
                    assert(before[planned.terminal@[k] as int] == k);
                }
            }
        }
        t = t + 1;
    }
    let mut dense: Vec<Vec<Number>> = Vec::new();
    let mut i: usize = 0;
    while i < count
        invariant
            i <= count == planned.terminal@.len() < 0xFFFF_FFFF,
            planned.terminal@ == terminals,
            weave.wf(),
            weave.mesh() == m,
            weave.alive@.len() == planned.nodes == row_of@.len(),
            climbs(planned.terminal@),
            forall|k: int| 0 <= k < count ==> (#[trigger] planned.terminal@[k]) < planned.nodes,
            forall|v: int| !(#[trigger] m.inner(terminals, v)),
            forall|k: int|
                0 <= k < count ==> row_of@[(#[trigger] planned.terminal@[k]) as int] == k,
            dense@.len() == i,
            is_wide(dense@, count as int),
            forall|a: int, b: int|
                0 <= a < i && 0 <= b < count ==> (#[trigger] dense@[a]@[b]) == m.entry(
                    terminals[a],
                    terminals[b],
                ),
        decreases count - i,
    {
        let ghost before = dense@;
        let entries = entries_from(&weave, &planned.terminal, &row_of, i);
        dense.push(entries);
        proof {
            assert forall|a: int, b: int| 0 <= a < i + 1 && 0 <= b < count implies (
            #[trigger] dense@[a]@[b]) == m.entry(terminals[a], terminals[b]) by {
                if a < i {
                    assert(dense@[a] == before[a]);
                } else {
                    assert(entries@[b] == m.entry(terminals[a], terminals[b]));
                }
            }
        }
        i = i + 1;
    }
    let groups: usize = planned.group.len();
    let mut inverse: Vec<Option<Vec<Vec<Number>>>> = Vec::new();
    let mut g: usize = 0;
    while g < groups
        invariant
            g <= groups == planned.group@.len(),
            count == planned.terminal@.len() == terminals.len() < 0xFFFF_FFFF,
            networks.wf(),
            0 <= rr < networks.rows(),
            terminals == networks.terminals(rr),
            m == networks.reduced(rr),
            planned.plans(networks, rr),
            dense@.len() == count,
            is_wide(dense@, count as int),
            forall|a: int, b: int|
                0 <= a < count && 0 <= b < count ==> (#[trigger] dense@[a]@[b]) == m.entry(
                    terminals[a],
                    terminals[b],
                ),
            inverse@.len() == g,
            forall|k: int| 0 <= k < g ==> #[trigger] planned.inverted(networks, rr, inverse@, k),
            forall|k: int|
                0 <= k < g && (#[trigger] inverse@[k]) is Some ==> (inverse@[k]->0)@.len()
                    == planned.group@[k]@.len() - 1 && is_wide(
                    (inverse@[k]->0)@,
                    planned.group@[k]@.len() - 1,
                ),
        decreases groups - g,
    {
        let ghost group = planned.group@[g as int]@;
        let ghost before = inverse@;
        proof {
            let leader = networks.leaders(rr)[g as int] as int;
            lemma_kept(terminals.len(), networks.leads(rr));
            assert(networks.leaders(rr)[g as int] < terminals.len());
            lemma_kept(terminals.len(), |j: int| networks.together(rr, leader, j));
            assert forall|p: int| 0 <= p < group.len() implies (#[trigger] group[p]) < count by {
                assert(group[p] < terminals.len());
            }
            lemma_part(networks, rr, leader);
        }
        let ghost want = networks.grounded(rr, group);
        let matrix = ground(&dense, &planned.group[g], Ghost(want));
        let x = invert(matrix);
        inverse.push(x);
        proof {
            assert forall|k: int| 0 <= k < g + 1 implies #[trigger] planned.inverted(
                networks,
                rr,
                inverse@,
                k,
            ) by {
                if k < g {
                    assert(planned.inverted(networks, rr, before, k));
                    assert(inverse@[k] == before[k]);
                }
            }
        }
        g = g + 1;
    }
    let found = probes(networks, row, &planned, &inverse);
    assert(planned.inverts(networks, rr, inverse@));
    match found {
        Err(e) => Err(e),
        Ok(list) => {
            *out = list;
            Ok(())
        },
    }
}

/// A part has its own leader in it.
proof fn lemma_part(networks: &NetNetworks, r: int, leader: int)
    requires
        0 <= leader < networks.terminals(r).len() < 0xFFFF_FFFF,
    ensures
        networks.part(r, leader).len() >= 1,
{
    let keep = |j: int| networks.together(r, leader, j);
    lemma_reflexive(networks.pairs(r), networks.terminals(r)[leader] as int);
    assert(keep(leader));
    lemma_kept_grows((leader + 1) as nat, networks.terminals(r).len(), keep);
}

/// A row's terminals are some of its nodes.
pub proof fn lemma_terminals(networks: &NetNetworks, r: int)
    requires
        networks.wf(),
        0 <= r < networks.rows(),
    ensures
        networks.terminals(r).len() <= networks.node_len(r),
{
    lemma_climbs_short(networks.terminals(r), networks.node_len(r));
}

/// A climbing list below a bound is no longer than the bound.
proof fn lemma_climbs_short(s: Seq<u32>, n: int)
    requires
        climbs(s),
        forall|k: int| 0 <= k < s.len() ==> (#[trigger] s[k]) < n,
        0 <= n,
    ensures
        s.len() <= n,
    decreases s.len(),
{
    if s.len() > 0 {
        let t = s.drop_last();
        assert forall|k: int| 0 <= k < t.len() implies (#[trigger] t[k]) < s.last() by {
            assert(s[k] < s[s.len() - 1]);
        }
        assert forall|i: int, j: int| 0 <= i < j < t.len() implies t[i] < t[j] by {
            assert(s[i] < s[j]);
        }
        assert(s[s.len() - 1] < n);
        lemma_climbs_short(t, s.last() as int);
    }
}

/// A row's conductances join two different nodes of it.
proof fn lemma_links(networks: &NetNetworks, r: int, n: nat)
    requires
        networks.wf(),
        0 <= r < networks.rows(),
        n <= networks.edge_len(r),
    ensures
        forall|e: int|
            0 <= e < networks.conductances(r, n).len() ==> (
            #[trigger] networks.conductances(r, n)[e]).0 < networks.node_len(r)
                && networks.conductances(r, n)[e].1 < networks.node_len(r)
                && networks.conductances(r, n)[e].0 != networks.conductances(r, n)[e].1,
    decreases n,
{
    if n > 0 {
        lemma_links(networks, r, (n - 1) as nat);
        let at = networks.edge_lo(r) + (n - 1);
        assert(networks.edge_from@[at] < networks.node_len(r));
        assert(networks.edge_to@[at] < networks.node_len(r));
        let before = networks.conductances(r, (n - 1) as nat);
        let now = networks.conductances(r, n);
        assert forall|e: int| 0 <= e < now.len() implies (#[trigger] now[e]).0
            < networks.node_len(r) && now[e].1 < networks.node_len(r) && now[e].0 != now[e].1 by {
            if e < before.len() {
                assert(now[e] == before[e]);
            }
        }
    }
}

} // verus!
