//! Lowest-resistance paths over a graph of resistive edges.
use crate::addition::{lemma_finite_below, lemma_same, lemma_sum, lemma_sum_grows, lemma_sum_order};
use crate::number::Number;
use crate::sorted::ascending;
use vstd::prelude::*;

verus! {

/// One resistive edge between two nodes.
#[derive(Clone, Copy, Debug, PartialEq, Eq, Structural)]
pub struct PathEdge {
    pub a: u64,
    pub b: u64,
    pub ohms: Number,
}

impl PathEdge {
    /// Whether the edge runs between two nodes, either way round.
    pub open spec fn joins(self, u: u64, v: u64) -> bool {
        (self.a == u && self.b == v) || (self.a == v && self.b == u)
    }
}

/// Whether a node can be reached at a cost in a number of steps: the cost of
/// its seed, then each edge's resistance added in turn.
pub open spec fn reached(
    joined: spec_fn(u64, u64, Number) -> bool,
    seed: spec_fn(u64) -> Option<Number>,
    node: u64,
    cost: Number,
    steps: nat,
) -> bool
    decreases steps,
{
    if steps == 0 {
        seed(node) == Some(cost)
    } else {
        exists|u: u64, ohms: Number, before: Number|
            #[trigger] joined(u, node, ohms) && cost == #[trigger] before.plus_spec(ohms)
                && reached(
                joined,
                seed,
                u,
                before,
                (steps - 1) as nat,
            )
    }
}

/// Whether a cost is the lowest finite one at which a goal can be reached;
/// nothing where no goal can be reached at a finite cost.
pub open spec fn is_lowest(
    joined: spec_fn(u64, u64, Number) -> bool,
    seed: spec_fn(u64) -> Option<Number>,
    goal: spec_fn(u64) -> bool,
    r: Option<Number>,
) -> bool {
    match r {
        Some(d) => {
            &&& d.grounded()
            &&& exists|node: u64, steps: nat|
                #[trigger] goal(node) && #[trigger] reached(joined, seed, node, d, steps)
            &&& forall|node: u64, cost: Number, steps: nat|
                goal(node) && #[trigger] reached(joined, seed, node, cost, steps) && cost.finite()
                    ==> d.le(cost)
        },
        None => forall|node: u64, cost: Number, steps: nat|
            goal(node) && #[trigger] reached(joined, seed, node, cost, steps) ==> !cost.finite(),
    }
}

/// The lowest finite cost at which a goal can be reached, where there is one.
pub open spec fn lowest_cost(
    joined: spec_fn(u64, u64, Number) -> bool,
    seed: spec_fn(u64) -> Option<Number>,
    goal: spec_fn(u64) -> bool,
) -> Option<Number> {
    choose|r: Option<Number>| is_lowest(joined, seed, goal, r)
}

/// There is only one lowest cost.
pub proof fn lemma_lowest_unique(
    joined: spec_fn(u64, u64, Number) -> bool,
    seed: spec_fn(u64) -> Option<Number>,
    goal: spec_fn(u64) -> bool,
    r: Option<Number>,
    s: Option<Number>,
)
    requires
        is_lowest(joined, seed, goal, r),
        is_lowest(joined, seed, goal, s),
    ensures
        r == s,
{
    if r is Some {
        let (node, steps) = choose|node: u64, steps: nat|
            #[trigger] goal(node) && #[trigger] reached(joined, seed, node, r->0, steps);
        assert(reached(joined, seed, node, r->0, steps));
        assert(s is Some);
    }
    if s is Some {
        let (node, steps) = choose|node: u64, steps: nat|
            #[trigger] goal(node) && #[trigger] reached(joined, seed, node, s->0, steps);
        assert(reached(joined, seed, node, s->0, steps));
        assert(r is Some);
        lemma_same(r->0, s->0);
    }
}

/// Edges and seeds that are resistances: finite and not below zero.
pub open spec fn resistive(
    joined: spec_fn(u64, u64, Number) -> bool,
    seed: spec_fn(u64) -> Option<Number>,
) -> bool {
    &&& forall|u: u64, v: u64, w: Number| #[trigger] joined(u, v, w) ==> w.grounded()
    &&& forall|u: u64| (#[trigger] seed(u)) is Some ==> (seed(u)->0).grounded()
}

/// Every cost a node is reached at is a resistance, or past the largest one.
proof fn lemma_upward(
    joined: spec_fn(u64, u64, Number) -> bool,
    seed: spec_fn(u64) -> Option<Number>,
    node: u64,
    cost: Number,
    steps: nat,
)
    requires
        resistive(joined, seed),
        reached(joined, seed, node, cost, steps),
    ensures
        cost.upward(),
    decreases steps,
{
    if steps > 0 {
        let (u, ohms, before) = choose|u: u64, ohms: Number, before: Number|
            #[trigger] joined(u, node, ohms) && cost == #[trigger] before.plus_spec(ohms)
                && reached(
                joined,
                seed,
                u,
                before,
                (steps - 1) as nat,
            );
        lemma_upward(joined, seed, u, before, (steps - 1) as nat);
        if before.finite() {
            lemma_sum(before, ohms);
        }
    }
}

/// Of the costs at which a goal is reached, one no greater than a given one is the
/// lowest.
proof fn lemma_least_of(
    joined: spec_fn(u64, u64, Number) -> bool,
    seed: spec_fn(u64) -> Option<Number>,
    goal: spec_fn(u64) -> bool,
    node: u64,
    cost: Number,
    steps: nat,
) -> (r: Number)
    requires
        resistive(joined, seed),
        goal(node),
        reached(joined, seed, node, cost, steps),
        cost.grounded(),
    ensures
        is_lowest(joined, seed, goal, Some(r)),
    decreases cost.value(),
{
    if exists|u: u64, c: Number, n: nat|
        goal(u) && #[trigger] reached(joined, seed, u, c, n) && c.finite() && !cost.le(c) {
        let (u, c, n) = choose|u: u64, c: Number, n: nat|
            goal(u) && #[trigger] reached(joined, seed, u, c, n) && c.finite() && !cost.le(c);
        lemma_upward(joined, seed, u, c, n);
        lemma_least_of(joined, seed, goal, u, c, n)
    } else {
        cost
    }
}

/// Where every edge and seed is a resistance there is a lowest cost, and the lowest
/// cost is it.
pub proof fn lemma_lowest_cost_is_lowest(
    joined: spec_fn(u64, u64, Number) -> bool,
    seed: spec_fn(u64) -> Option<Number>,
    goal: spec_fn(u64) -> bool,
)
    requires
        resistive(joined, seed),
    ensures
        is_lowest(joined, seed, goal, lowest_cost(joined, seed, goal)),
{
    if exists|u: u64, c: Number, n: nat|
        goal(u) && #[trigger] reached(joined, seed, u, c, n) && c.finite() {
        let (u, c, n) = choose|u: u64, c: Number, n: nat|
            goal(u) && #[trigger] reached(joined, seed, u, c, n) && c.finite();
        lemma_upward(joined, seed, u, c, n);
        let r = lemma_least_of(joined, seed, goal, u, c, n);
        assert(is_lowest(joined, seed, goal, Some(r)));
    } else {
        assert(is_lowest(joined, seed, goal, None));
    }
}

/// A finite sum has a finite first part.
proof fn lemma_finite_part(before: Number, ohms: Number)
    requires
        before.upward(),
        ohms.grounded(),
        before.plus_spec(ohms).finite(),
    ensures
        before.grounded(),
        before.le(before.plus_spec(ohms)),
{
    if before.finite() {
        lemma_sum_grows(before, ohms);
    }
}

/// What the search knows part way: every finished node's edges are relaxed.
spec fn settled(
    joined: spec_fn(u64, u64, Number) -> bool,
    seed: spec_fn(u64) -> Option<Number>,
    keys: Seq<u64>,
    dist: Seq<Option<Number>>,
    done: Seq<bool>,
) -> bool {
    &&& dist.len() == keys.len()
    &&& done.len() == keys.len()
    &&& forall|i: int|
        0 <= i < keys.len() && (#[trigger] dist[i]) is Some ==> (dist[i]->0).grounded() && exists|
            steps: nat,
        | #[trigger] reached(joined, seed, keys[i], dist[i]->0, steps)
    &&& forall|i: int|
        0 <= i < keys.len() && (#[trigger] seed(keys[i])) is Some ==> dist[i] is Some && (
        dist[i]->0).le(seed(keys[i])->0)
    &&& forall|i: int| 0 <= i < keys.len() && done[i] ==> (#[trigger] dist[i]) is Some
    &&& forall|i: int, j: int|
        0 <= i < keys.len() && 0 <= j < keys.len() && done[i] && !done[j] && dist[j] is Some ==> (
        #[trigger] dist[i]->0).le(#[trigger] dist[j]->0)
}

/// Every edge out of a finished node is relaxed.
spec fn relaxed(
    joined: spec_fn(u64, u64, Number) -> bool,
    keys: Seq<u64>,
    dist: Seq<Option<Number>>,
    i: int,
) -> bool {
    forall|j: int, w: Number|
        0 <= j < keys.len() && #[trigger] joined(keys[i], keys[j], w) && (
        dist[i]->0).plus_spec(w).finite() ==> dist[j] is Some && (dist[j]->0).le(
            (dist[i]->0).plus_spec(w),
        )
}

/// Whatever is reached at a finite cost costs at least its settled distance, or
/// at least the least unfinished distance.
proof fn lemma_settled(
    joined: spec_fn(u64, u64, Number) -> bool,
    seed: spec_fn(u64) -> Option<Number>,
    keys: Seq<u64>,
    dist: Seq<Option<Number>>,
    done: Seq<bool>,
    least: Option<Number>,
    node: u64,
    cost: Number,
    steps: nat,
)
    requires
        resistive(joined, seed),
        settled(joined, seed, keys, dist, done),
        forall|i: int| 0 <= i < keys.len() && #[trigger] done[i] ==> relaxed(joined, keys, dist, i),
        forall|u: u64, v: u64, w: Number|
            #[trigger] joined(u, v, w) ==> keys.contains(u) && keys.contains(v),
        forall|u: u64| (#[trigger] seed(u)) is Some ==> keys.contains(u),
        forall|i: int|
            0 <= i < keys.len() && !done[i] && (#[trigger] dist[i]) is Some ==> least is Some && (
            least->0).le(dist[i]->0),
        least is Some ==> (least->0).grounded(),
        reached(joined, seed, node, cost, steps),
        cost.finite(),
    ensures
        keys.contains(node),
        (least is Some && (least->0).le(cost)) || (dist[keys.index_of(node)] is Some && (
        dist[keys.index_of(node)]->0).le(cost)),
    decreases steps,
{
    lemma_upward(joined, seed, node, cost, steps);
    if steps == 0 {
        let i = keys.index_of(node);
        assert(keys[i] == node);
        assert(seed(keys[i]) is Some);
    } else {
        let (u, ohms, before) = choose|u: u64, ohms: Number, before: Number|
            #[trigger] joined(u, node, ohms) && cost == #[trigger] before.plus_spec(ohms)
                && reached(
                joined,
                seed,
                u,
                before,
                (steps - 1) as nat,
            );
        assert(joined(u, node, ohms));
        lemma_upward(joined, seed, u, before, (steps - 1) as nat);
        lemma_finite_part(before, ohms);
        lemma_settled(
            joined,
            seed,
            keys,
            dist,
            done,
            least,
            u,
            before,
            (steps - 1) as nat,
        );
        let i = keys.index_of(u);
        let j = keys.index_of(node);
        assert(keys[i] == u && keys[j] == node);
        if !(least is Some && (least->0).le(cost)) {
            assert(dist[i] is Some && (dist[i]->0).le(before));
            assert((dist[i]->0).grounded());
            if done[i] {
                let c = (dist[i]->0).plus_spec(ohms);
                lemma_sum_order(dist[i]->0, before, ohms);
                lemma_sum(dist[i]->0, ohms);
                lemma_finite_below(c, cost);
                assert(relaxed(joined, keys, dist, i));
                assert(joined(keys[i], keys[j], ohms));
            }
        }
    }
}

/// Where a key stands in an ascending key column.
pub fn find_key(keys: &Vec<u64>, key: u64) -> (r: Option<usize>)
    requires
        ascending(keys@),
    ensures
        r is Some <==> keys@.contains(key),
        r is Some ==> r->0 < keys@.len() && keys@[r->0 as int] == key && keys@.index_of(key)
            == r->0,
{
    let mut lo: usize = 0;
    let mut hi: usize = keys.len();
    while lo < hi
        invariant
            ascending(keys@),
            lo <= hi <= keys@.len(),
            forall|k: int| 0 <= k < lo ==> (#[trigger] keys@[k]) < key,
            forall|k: int| hi <= k < keys@.len() ==> (#[trigger] keys@[k]) > key,
        decreases hi - lo,
    {
        let mid: usize = lo + (hi - lo) / 2;
        let here: u64 = keys[mid];
        if here == key {
            assert(keys@.index_of(key) == mid) by {
                let k = keys@.index_of(key);
                assert(keys@[mid as int] == key);
                assert(keys@[k] == key);
            }
            return Some(mid);
        }
        if here < key {
            lo = mid + 1;
        } else {
            hi = mid;
        }
    }
    assert(!keys@.contains(key)) by {
        if keys@.contains(key) {
            let k = keys@.index_of(key);
            assert(keys@[k] == key);
        }
    }
    None
}

/// The unfinished node with the least distance, the lowest of equal ones.
fn nearest_unfinished(dist: &Vec<Option<Number>>, done: &Vec<bool>) -> (r: Option<usize>)
    requires
        dist@.len() == done@.len(),
        forall|i: int| 0 <= i < dist@.len() && (#[trigger] dist@[i]) is Some ==> (
        dist@[i]->0).grounded(),
    ensures
        r is Some ==> r->0 < dist@.len() && !done@[r->0 as int] && dist@[r->0 as int] is Some,
        r is Some ==> forall|i: int|
            0 <= i < dist@.len() && !done@[i] && (#[trigger] dist@[i]) is Some ==> (
            dist@[r->0 as int]->0).le(dist@[i]->0),
        r is None ==> forall|i: int|
            0 <= i < dist@.len() && !done@[i] ==> (#[trigger] dist@[i]) is None,
{
    let mut best: Option<usize> = None;
    let mut i: usize = 0;
    while i < dist.len()
        invariant
            i <= dist@.len(),
            dist@.len() == done@.len(),
            forall|i: int| 0 <= i < dist@.len() && (#[trigger] dist@[i]) is Some ==> (
            dist@[i]->0).grounded(),
            best is Some ==> best->0 < i && !done@[best->0 as int] && dist@[best->0 as int] is Some,
            best is Some ==> forall|k: int|
                0 <= k < i && !done@[k] && (#[trigger] dist@[k]) is Some ==> (
                dist@[best->0 as int]->0).le(dist@[k]->0),
            best is None ==> forall|k: int|
                0 <= k < i && !done@[k] ==> (#[trigger] dist@[k]) is None,
        decreases dist@.len() - i,
    {
        if !done[i] {
            if let Some(d) = dist[i] {
                match best {
                    None => {
                        best = Some(i);
                    },
                    Some(b) => {
                        if d.less(dist[b].unwrap()) {
                            best = Some(i);
                        }
                    },
                }
            }
        }
        i = i + 1;
    }
    best
}

/// Lower one node's distance to a candidate, where the candidate is finite and
/// lower.
fn lower(dist: &mut Vec<Option<Number>>, at: usize, candidate: Number)
    requires
        at < old(dist)@.len(),
        candidate.upward(),
        old(dist)@[at as int] is Some ==> (old(dist)@[at as int]->0).grounded(),
    ensures
        final(dist)@.len() == old(dist)@.len(),
        forall|k: int|
            0 <= k < old(dist)@.len() && k != at ==> #[trigger] final(dist)@[k] == old(dist)@[k],
        final(dist)@[at as int] == old(dist)@[at as int] || (final(dist)@[at as int] == Some(
            candidate,
        ) && candidate.finite() && (old(dist)@[at as int] is Some ==> candidate.lt(
            old(dist)@[at as int]->0,
        ))),
        candidate.finite() ==> final(dist)@[at as int] is Some && (
        final(dist)@[at as int]->0).le(candidate),
{
    if candidate.is_finite() {
        match dist[at] {
            None => {
                dist.set(at, Some(candidate));
            },
            Some(d) => {
                if candidate.less(d) {
                    dist.set(at, Some(candidate));
                }
            },
        }
    }
}

/// Relax every edge out of a node the search has just finished.
fn relax(
    keys: &Vec<u64>,
    edges: &Vec<PathEdge>,
    at: usize,
    dist: &mut Vec<Option<Number>>,
    done: &Vec<bool>,
    Ghost(joined): Ghost<spec_fn(u64, u64, Number) -> bool>,
    Ghost(seed): Ghost<spec_fn(u64) -> Option<Number>>,
)
    requires
        ascending(keys@),
        resistive(joined, seed),
        at < keys@.len(),
        done@.len() == keys@.len(),
        done@[at as int],
        forall|u: u64, v: u64, w: Number|
            #[trigger] joined(u, v, w) <==> exists|e: int|
                0 <= e < edges@.len() && (#[trigger] edges@[e]).joins(u, v) && edges@[e].ohms == w,
        forall|e: int|
            0 <= e < edges@.len() ==> keys@.contains((#[trigger] edges@[e]).a) && keys@.contains(
                edges@[e].b,
            ),
        settled(joined, seed, keys@, old(dist)@, done@),
        forall|i: int|
            0 <= i < keys@.len() && i != at && #[trigger] done@[i] ==> relaxed(
                joined,
                keys@,
                old(dist)@,
                i,
            ),
        forall|i: int|
            0 <= i < keys@.len() && done@[i] ==> (#[trigger] old(dist)@[i]->0).le(
                old(dist)@[at as int]->0,
            ),
    ensures
        settled(joined, seed, keys@, final(dist)@, done@),
        forall|i: int|
            0 <= i < keys@.len() && #[trigger] done@[i] ==> relaxed(
                joined,
                keys@,
                final(dist)@,
                i,
            ),
{
    let here = dist[at].unwrap();
    let ghost from = keys@[at as int];
    let ghost entry = dist@;
    let mut e: usize = 0;
    while e < edges.len()
        invariant
            ascending(keys@),
            resistive(joined, seed),
            at < keys@.len(),
            from == keys@[at as int],
            done@.len() == keys@.len(),
            done@[at as int],
            forall|u: u64, v: u64, w: Number|
                #[trigger] joined(u, v, w) <==> exists|e: int|
                    0 <= e < edges@.len() && (#[trigger] edges@[e]).joins(u, v) && edges@[e].ohms
                        == w,
            forall|e: int|
                0 <= e < edges@.len() ==> keys@.contains((#[trigger] edges@[e]).a)
                    && keys@.contains(edges@[e].b),
            e <= edges@.len(),
            entry.len() == keys@.len(),
            settled(joined, seed, keys@, entry, done@),
            settled(joined, seed, keys@, dist@, done@),
            dist@[at as int] == Some(here),
            entry[at as int] == Some(here),
            forall|i: int|
                0 <= i < keys@.len() && done@[i] ==> (#[trigger] dist@[i]) == entry[i],
            forall|i: int|
                0 <= i < keys@.len() && done@[i] ==> (#[trigger] entry[i]->0).le(here),
            forall|i: int|
                0 <= i < keys@.len() && (#[trigger] entry[i]) is Some ==> dist@[i] is Some && (
                dist@[i]->0).le(entry[i]->0),
            forall|k: int, j: int|
                0 <= k < e && 0 <= j < keys@.len() && #[trigger] edges@[k].joins(
                    from,
                    #[trigger] keys@[j],
                ) && here.plus_spec(edges@[k].ohms).finite() ==> dist@[j] is Some && (
                dist@[j]->0).le(here.plus_spec(edges@[k].ohms)),
        decreases edges@.len() - e,
    {
        let edge = edges[e];
        let ghost before = dist@;
        assert(keys@.contains(edge.a) && keys@.contains(edge.b));
        assert(edges@[e as int].joins(edge.a, edge.b));
        assert(joined(edge.a, edge.b, edge.ohms));
        let candidate = here.plus(edge.ohms);
        proof {
            lemma_sum(here, edge.ohms);
            lemma_sum_grows(here, edge.ohms);
        }
        if edge.a == keys[at] {
            let to: usize = find_key(keys, edge.b).unwrap();
            assert(edges@[e as int].joins(from, keys@[to as int]));
            lower(dist, to, candidate);
            proof {
                lemma_lowered(
                    joined,
                    seed,
                    keys@,
                    before,
                    dist@,
                    done@,
                    at as int,
                    to as int,
                    edge.ohms,
                );
            }
        }
        let ghost middle = dist@;
        if edge.b == keys[at] {
            let to: usize = find_key(keys, edge.a).unwrap();
            assert(edges@[e as int].joins(from, keys@[to as int]));
            lower(dist, to, candidate);
            proof {
                assert(edges@[e as int].joins(edge.b, edge.a));
                assert(joined(edge.b, edge.a, edge.ohms));
                lemma_lowered(
                    joined,
                    seed,
                    keys@,
                    middle,
                    dist@,
                    done@,
                    at as int,
                    to as int,
                    edge.ohms,
                );
            }
        }
        proof {
            assert forall|k: int, j: int|
                0 <= k < e + 1 && 0 <= j < keys@.len() && #[trigger] edges@[k].joins(
                    from,
                    #[trigger] keys@[j],
                ) && here.plus_spec(edges@[k].ohms).finite() implies dist@[j] is Some && (
            dist@[j]->0).le(here.plus_spec(edges@[k].ohms)) by {
                if k == e {
                    if edge.a == from && edge.b == keys@[j] {
                        assert(keys@.index_of(edge.b) == j);
                    }
                    if edge.b == from && edge.a == keys@[j] {
                        assert(keys@.index_of(edge.a) == j);
                    }
                }
            }
        }
        e = e + 1;
    }
    proof {
        assert forall|i: int| 0 <= i < keys@.len() && #[trigger] done@[i] implies relaxed(
            joined,
            keys@,
            dist@,
            i,
        ) by {
            if i != at {
                assert(relaxed(joined, keys@, entry, i));
                assert forall|j: int, w: Number|
                    0 <= j < keys@.len() && #[trigger] joined(keys@[i], keys@[j], w) && (
                    dist@[i]->0).plus_spec(w).finite() implies dist@[j] is Some && (
                dist@[j]->0).le((dist@[i]->0).plus_spec(w)) by {
                    assert(dist@[i] == entry[i]);
                    assert(entry[j] is Some);
                }
            } else {
                assert forall|j: int, w: Number|
                    0 <= j < keys@.len() && #[trigger] joined(keys@[i], keys@[j], w) && (
                    dist@[i]->0).plus_spec(w).finite() implies dist@[j] is Some && (
                dist@[j]->0).le((dist@[i]->0).plus_spec(w)) by {
                    let k = choose|k: int|
                        0 <= k < edges@.len() && (#[trigger] edges@[k]).joins(keys@[i], keys@[j])
                            && edges@[k].ohms == w;
                    assert(edges@[k].joins(from, keys@[j]));
                }
            }
        }
    }
}

/// Lowering one distance along an edge keeps the search settled.
proof fn lemma_lowered(
    joined: spec_fn(u64, u64, Number) -> bool,
    seed: spec_fn(u64) -> Option<Number>,
    keys: Seq<u64>,
    before: Seq<Option<Number>>,
    after: Seq<Option<Number>>,
    done: Seq<bool>,
    at: int,
    to: int,
    ohms: Number,
)
    requires
        resistive(joined, seed),
        settled(joined, seed, keys, before, done),
        0 <= at < keys.len(),
        0 <= to < keys.len(),
        done[at],
        joined(keys[at], keys[to], ohms),
        after.len() == before.len(),
        forall|k: int| 0 <= k < before.len() && k != to ==> #[trigger] after[k] == before[k],
        ({
            let candidate = (before[at]->0).plus_spec(ohms);
            after[to] == before[to] || (after[to] == Some(candidate) && candidate.finite() && (
            before[to] is Some ==> candidate.lt(before[to]->0)))
        }),
        forall|i: int|
            0 <= i < keys.len() && done[i] ==> (#[trigger] before[i]->0).le(before[at]->0),
    ensures
        settled(joined, seed, keys, after, done),
        forall|i: int| 0 <= i < keys.len() && done[i] ==> (#[trigger] after[i]) == before[i],
        forall|i: int|
            0 <= i < keys.len() && (#[trigger] before[i]) is Some ==> after[i] is Some && (
            after[i]->0).le(before[i]->0),
{
    let here = before[at]->0;
    assert(before[at] is Some);
    let candidate = here.plus_spec(ohms);
    lemma_sum(here, ohms);
    lemma_sum_grows(here, ohms);
    assert(done[to] ==> after[to] == before[to]) by {
        if done[to] {
            assert(before[to] is Some);
            assert((before[to]->0).le(here));
        }
    }
    assert forall|i: int|
        0 <= i < keys.len() && (#[trigger] after[i]) is Some implies (
    after[i]->0).grounded() && exists|steps: nat| #[trigger] reached(
        joined,
        seed,
        keys[i],
        after[i]->0,
        steps,
    ) by {
        if i == to && after[to] != before[to] {
            let steps = choose|steps: nat| #[trigger] reached(joined, seed, keys[at], here, steps);
            assert(joined(keys[at], keys[to], ohms) && candidate == here.plus_spec(ohms));
            assert(reached(joined, seed, keys[at], here, ((steps + 1) - 1) as nat));
            assert(reached(joined, seed, keys[to], candidate, steps + 1));
        } else {
            assert(before[i] is Some);
            assert(after[i] == before[i]);
            let steps = choose|steps: nat|
                #[trigger] reached(joined, seed, keys[i], before[i]->0, steps);
            assert(reached(joined, seed, keys[i], after[i]->0, steps));
        }
    }
    assert forall|i: int| 0 <= i < keys.len() && (#[trigger] seed(keys[i])) is Some implies after[i]
        is Some && (after[i]->0).le(seed(keys[i])->0) by {
        assert(before[i] is Some && (before[i]->0).le(seed(keys[i])->0));
    }
    assert forall|i: int, j: int|
        0 <= i < keys.len() && 0 <= j < keys.len() && done[i] && !done[j]
            && after[j] is Some implies (
    #[trigger] after[i]->0).le(#[trigger] after[j]->0) by {
        assert(after[i] == before[i]);
        assert(before[i] is Some);
        if j == to && after[to] != before[to] {
            assert((before[i]->0).le(here));
        } else {
            assert(after[j] == before[j]);
            assert((before[i]->0).le(before[j]->0));
        }
    }
    assert forall|i: int| 0 <= i < keys.len()
        && done[i] implies (#[trigger] after[i]) == before[i] by {}
}

/// The lowest cost at which a goal can be reached, by finishing nodes nearest
/// first.
///
/// Every edge is a resistance, so rounding a sum never lowers it and never
/// reorders two sums of the same edge: the first goal finished is the lowest of
/// all paths, each summed from its seed outwards.
pub fn lowest(
    keys: &Vec<u64>,
    edges: &Vec<PathEdge>,
    seeds: &Vec<Option<Number>>,
    goals: &Vec<bool>,
    Ghost(joined): Ghost<spec_fn(u64, u64, Number) -> bool>,
    Ghost(seed): Ghost<spec_fn(u64) -> Option<Number>>,
    Ghost(goal): Ghost<spec_fn(u64) -> bool>,
) -> (r: Option<Number>)
    requires
        ascending(keys@),
        seeds@.len() == keys@.len(),
        goals@.len() == keys@.len(),
        resistive(joined, seed),
        forall|i: int| 0 <= i < keys@.len() ==> #[trigger] seeds@[i] == seed(keys@[i]),
        forall|u: u64| (#[trigger] seed(u)) is Some ==> keys@.contains(u),
        forall|i: int| 0 <= i < keys@.len() ==> #[trigger] goals@[i] == goal(keys@[i]),
        forall|u: u64, v: u64, w: Number|
            #[trigger] joined(u, v, w) <==> exists|e: int|
                0 <= e < edges@.len() && (#[trigger] edges@[e]).joins(u, v) && edges@[e].ohms == w,
        forall|e: int|
            0 <= e < edges@.len() ==> keys@.contains((#[trigger] edges@[e]).a) && keys@.contains(
                edges@[e].b,
            ),
    ensures
        is_lowest(joined, seed, goal, r),
        r == lowest_cost(joined, seed, goal),
{
    let r = search(keys, edges, seeds, goals, Ghost(joined), Ghost(seed), Ghost(goal));
    proof {
        lemma_lowest_unique(joined, seed, goal, r, lowest_cost(joined, seed, goal));
    }
    r
}

/// The search itself.
fn search(
    keys: &Vec<u64>,
    edges: &Vec<PathEdge>,
    seeds: &Vec<Option<Number>>,
    goals: &Vec<bool>,
    Ghost(joined): Ghost<spec_fn(u64, u64, Number) -> bool>,
    Ghost(seed): Ghost<spec_fn(u64) -> Option<Number>>,
    Ghost(goal): Ghost<spec_fn(u64) -> bool>,
) -> (r: Option<Number>)
    requires
        ascending(keys@),
        seeds@.len() == keys@.len(),
        goals@.len() == keys@.len(),
        resistive(joined, seed),
        forall|i: int| 0 <= i < keys@.len() ==> #[trigger] seeds@[i] == seed(keys@[i]),
        forall|u: u64| (#[trigger] seed(u)) is Some ==> keys@.contains(u),
        forall|i: int| 0 <= i < keys@.len() ==> #[trigger] goals@[i] == goal(keys@[i]),
        forall|u: u64, v: u64, w: Number|
            #[trigger] joined(u, v, w) <==> exists|e: int|
                0 <= e < edges@.len() && (#[trigger] edges@[e]).joins(u, v) && edges@[e].ohms == w,
        forall|e: int|
            0 <= e < edges@.len() ==> keys@.contains((#[trigger] edges@[e]).a) && keys@.contains(
                edges@[e].b,
            ),
    ensures
        is_lowest(joined, seed, goal, r),
{
    let count: usize = keys.len();
    let mut dist: Vec<Option<Number>> = Vec::new();
    let mut done: Vec<bool> = Vec::new();
    let mut i: usize = 0;
    while i < count
        invariant
            i <= count,
            count == keys@.len(),
            seeds@.len() == keys@.len(),
            dist@.len() == i,
            done@.len() == i,
            forall|k: int| 0 <= k < i ==> #[trigger] dist@[k] == seeds@[k],
            forall|k: int| 0 <= k < i ==> !#[trigger] done@[k],
        decreases count - i,
    {
        dist.push(seeds[i]);
        done.push(false);
        i = i + 1;
    }
    proof {
        assert forall|k: int| 0 <= k < keys@.len() && (#[trigger] dist@[k]) is Some implies (
        dist@[k]->0).grounded() && exists|steps: nat| #[trigger] reached(
            joined,
            seed,
            keys@[k],
            dist@[k]->0,
            steps,
        ) by {
            assert(seeds@[k] == seed(keys@[k]));
            assert(reached(joined, seed, keys@[k], dist@[k]->0, 0));
        }
        assert forall|k: int| 0 <= k < keys@.len()
            && (#[trigger] seed(keys@[k])) is Some implies dist@[k]
            is Some && (dist@[k]->0).le(seed(keys@[k])->0) by {
            assert(seeds@[k] == seed(keys@[k]));
            assert(dist@[k] == seeds@[k]);
        }
        assert forall|u: u64, v: u64, w: Number| #[trigger] joined(u, v, w) implies keys@.contains(
            u,
        ) && keys@.contains(v) by {
            let e = choose|e: int|
                0 <= e < edges@.len() && (#[trigger] edges@[e]).joins(u, v) && edges@[e].ohms == w;
            assert(keys@.contains(edges@[e].a) && keys@.contains(edges@[e].b));
        }
    }
    proof {
        lemma_all_unfinished(done@, done@.len());
    }
    let mut left: usize = count;
    while left > 0
        invariant
            ascending(keys@),
            count == keys@.len(),
            goals@.len() == keys@.len(),
            left <= count,
            resistive(joined, seed),
            forall|u: u64| (#[trigger] seed(u)) is Some ==> keys@.contains(u),
            forall|i: int| 0 <= i < keys@.len() ==> #[trigger] goals@[i] == goal(keys@[i]),
            forall|u: u64, v: u64, w: Number|
                #[trigger] joined(u, v, w) <==> exists|e: int|
                    0 <= e < edges@.len() && (#[trigger] edges@[e]).joins(u, v) && edges@[e].ohms
                        == w,
            forall|u: u64, v: u64, w: Number|
                #[trigger] joined(u, v, w) ==> keys@.contains(u) && keys@.contains(v),
            forall|e: int|
                0 <= e < edges@.len() ==> keys@.contains((#[trigger] edges@[e]).a)
                    && keys@.contains(edges@[e].b),
            settled(joined, seed, keys@, dist@, done@),
            forall|i: int|
                0 <= i < keys@.len() && #[trigger] done@[i] ==> relaxed(
                    joined,
                    keys@,
                    dist@,
                    i,
                ) && !goal(keys@[i]),
            unfinished(done@, done@.len()) == left,
        decreases left,
    {
        match nearest_unfinished(&dist, &done) {
            None => {
                proof {
                    assert forall|node: u64, cost: Number, steps: nat|
                        goal(node) && #[trigger] reached(
                            joined,
                            seed,
                            node,
                            cost,
                            steps,
                        ) implies !cost.finite() by {
                        if cost.finite() {
                            lemma_settled(
                                joined,
                                seed,
                                keys@,
                                dist@,
                                done@,
                                None,
                                node,
                                cost,
                                steps,
                            );
                            let k = keys@.index_of(node);
                            assert(keys@[k] == node);
                            assert(dist@[k] is Some);
                            assert(done@[k]);
                        }
                    }
                }
                return None;
            },
            Some(at) => {
                let here = dist[at].unwrap();
                if goals[at] {
                    proof {
                        assert(goals@[at as int] == goal(keys@[at as int]));
                        let steps = choose|steps: nat|
                            #[trigger] reached(joined, seed, keys@[at as int], here, steps);
                        assert(goal(keys@[at as int]) && reached(
                            joined,
                            seed,
                            keys@[at as int],
                            here,
                            steps,
                        ));
                        assert forall|node: u64, cost: Number, steps: nat|
                            goal(node) && #[trigger] reached(joined, seed, node, cost, steps)
                                && cost.finite() implies here.le(cost) by {
                            lemma_settled(
                                joined,
                                seed,
                                keys@,
                                dist@,
                                done@,
                                Some(here),
                                node,
                                cost,
                                steps,
                            );
                            let k = keys@.index_of(node);
                            assert(keys@[k] == node);
                            assert(!done@[k]);
                        }
                    }
                    return Some(here);
                }
                let ghost before = done@;
                done.set(at, true);
                left = left - 1;
                proof {
                    lemma_unfinished(before, at as int, before.len());
                    assert(goals@[at as int] == goal(keys@[at as int]));
                    assert(settled(joined, seed, keys@, dist@, done@)) by {
                        assert forall|i: int, j: int|
                            0 <= i < keys@.len() && 0 <= j < keys@.len() && done@[i] && !done@[j]
                                && dist@[j] is Some implies (#[trigger] dist@[i]->0).le(
                            #[trigger] dist@[j]->0) by {
                            assert(!before[j]);
                        }
                        assert forall|i: int| 0 <= i < keys@.len() && done@[i] implies (
                        #[trigger] dist@[i]) is Some by {
                            if i != at {
                                assert(before[i]);
                            }
                        }
                    }
                    assert forall|i: int| 0 <= i < keys@.len() && done@[i] implies (
                    #[trigger] dist@[i]->0).le(dist@[at as int]->0) by {
                        if i != at {
                            assert(before[i]);
                            assert(!before[at as int]);
                            assert(dist@[at as int] is Some);
                        }
                    }
                    assert forall|i: int|
                        0 <= i < keys@.len() && i != at && #[trigger] done@[i] implies relaxed(
                        joined,
                        keys@,
                        dist@,
                        i,
                    ) && !goal(keys@[i]) by {
                        assert(before[i]);
                    }
                }
                relax(keys, edges, at, &mut dist, &done, Ghost(joined), Ghost(seed));
            },
        }
    }
    proof {
        assert forall|node: u64, cost: Number, steps: nat|
            goal(node)
                && #[trigger] reached(joined, seed, node, cost, steps) implies !cost.finite() by {
            if cost.finite() {
                assert forall|i: int|
                    0 <= i < keys@.len() && !done@[i]
                        && (#[trigger] dist@[i]) is Some implies None::<
                    Number,
                > is Some by {
                    lemma_none_unfinished(done@, i, done@.len());
                }
                lemma_settled(joined, seed, keys@, dist@, done@, None, node, cost, steps);
                let k = keys@.index_of(node);
                assert(keys@[k] == node);
                if !done@[k] {
                    lemma_none_unfinished(done@, k, done@.len());
                }
            }
        }
    }
    None
}

/// How many of the first `n` nodes are unfinished.
spec fn unfinished(done: Seq<bool>, n: nat) -> nat
    decreases n,
{
    if n == 0 {
        0
    } else {
        unfinished(done, (n - 1) as nat) + if done[n - 1] {
            0nat
        } else {
            1
        }
    }
}

proof fn lemma_all_unfinished(done: Seq<bool>, n: nat)
    requires
        n <= done.len(),
        forall|i: int| 0 <= i < done.len() ==> !#[trigger] done[i],
    ensures
        unfinished(done, n) == n,
    decreases n,
{
    if n > 0 {
        lemma_all_unfinished(done, (n - 1) as nat);
    }
}

proof fn lemma_unfinished(done: Seq<bool>, at: int, n: nat)
    requires
        0 <= at < done.len(),
        !done[at],
        n <= done.len(),
    ensures
        unfinished(done.update(at, true), n) == unfinished(done, n) - if at < n {
            1int
        } else {
            0
        },
    decreases n,
{
    if n > 0 {
        lemma_unfinished(done, at, (n - 1) as nat);
    }
}

proof fn lemma_none_unfinished(done: Seq<bool>, at: int, n: nat)
    requires
        0 <= at < n <= done.len(),
        !done[at],
    ensures
        unfinished(done, n) > 0,
    decreases n,
{
    if at < n - 1 {
        lemma_none_unfinished(done, at, (n - 1) as nat);
    }
}

} // verus!
