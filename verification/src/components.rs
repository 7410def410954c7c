//! Connected components of an undirected graph.
use vstd::prelude::*;

verus! {

/// Whether an edge of the list joins two nodes, either way round.
pub open spec fn joined(pairs: Seq<(u32, u32)>, x: int, y: int) -> bool {
    exists|e: int| #[trigger] joins(pairs, e, x, y)
}

pub open spec fn joins(pairs: Seq<(u32, u32)>, e: int, x: int, y: int) -> bool {
    0 <= e < pairs.len() && ((pairs[e].0 == x && pairs[e].1 == y) || (pairs[e].0 == y
        && pairs[e].1 == x))
}

/// Whether a walk of `k` edges leads from one node to another.
pub open spec fn walks(pairs: Seq<(u32, u32)>, x: int, y: int, k: nat) -> bool
    decreases k,
{
    if k == 0 {
        x == y
    } else {
        exists|z: int| walks(pairs, x, z, (k - 1) as nat) && #[trigger] joined(pairs, z, y)
    }
}

/// Whether two nodes are in one component.
pub open spec fn connected(pairs: Seq<(u32, u32)>, x: int, y: int) -> bool {
    exists|k: nat| #[trigger] walks(pairs, x, y, k)
}

/// Every node is connected to itself.
pub proof fn lemma_reflexive(pairs: Seq<(u32, u32)>, x: int)
    ensures
        connected(pairs, x, x),
{
    assert(walks(pairs, x, x, 0));
}

proof fn lemma_step(pairs: Seq<(u32, u32)>, x: int, y: int, z: int)
    requires
        connected(pairs, x, y),
        joined(pairs, y, z),
    ensures
        connected(pairs, x, z),
{
    let k = choose|k: nat| #[trigger] walks(pairs, x, y, k);
    assert(walks(pairs, x, z, k + 1));
}

proof fn lemma_walk_on(pairs: Seq<(u32, u32)>, x: int, y: int, z: int, k: nat)
    requires
        connected(pairs, x, y),
        walks(pairs, y, z, k),
    ensures
        connected(pairs, x, z),
    decreases k,
{
    if k > 0 {
        let m = choose|m: int| walks(pairs, y, m, (k - 1) as nat) && #[trigger] joined(pairs, m, z);
        lemma_walk_on(pairs, x, y, m, (k - 1) as nat);
        lemma_step(pairs, x, m, z);
    }
}

/// Connection carries over.
pub proof fn lemma_transitive(pairs: Seq<(u32, u32)>, x: int, y: int, z: int)
    requires
        connected(pairs, x, y),
        connected(pairs, y, z),
    ensures
        connected(pairs, x, z),
{
    let k = choose|k: nat| #[trigger] walks(pairs, y, z, k);
    lemma_walk_on(pairs, x, y, z, k);
}

proof fn lemma_walk_back(pairs: Seq<(u32, u32)>, x: int, y: int, k: nat)
    requires
        walks(pairs, x, y, k),
    ensures
        connected(pairs, y, x),
    decreases k,
{
    lemma_reflexive(pairs, y);
    if k > 0 {
        let m = choose|m: int| walks(pairs, x, m, (k - 1) as nat) && #[trigger] joined(pairs, m, y);
        let e = choose|e: int| #[trigger] joins(pairs, e, m, y);
        assert(joins(pairs, e, y, m));
        lemma_step(pairs, y, y, m);
        lemma_walk_back(pairs, x, m, (k - 1) as nat);
        lemma_transitive(pairs, y, m, x);
    }
}

/// Connection runs both ways.
pub proof fn lemma_symmetric(pairs: Seq<(u32, u32)>, x: int, y: int)
    requires
        connected(pairs, x, y),
    ensures
        connected(pairs, y, x),
{
    let k = choose|k: nat| #[trigger] walks(pairs, x, y, k);
    lemma_walk_back(pairs, x, y, k);
}

/// What one more edge connects: what was connected before, and what the edge's
/// two ends bring together.
pub open spec fn bridged(pairs: Seq<(u32, u32)>, a: int, b: int, x: int, y: int) -> bool {
    ||| connected(pairs, x, y)
    ||| connected(pairs, x, a) && connected(pairs, b, y)
    ||| connected(pairs, x, b) && connected(pairs, a, y)
}

proof fn lemma_walk_grows(pairs: Seq<(u32, u32)>, edge: (u32, u32), x: int, y: int, k: nat)
    requires
        walks(pairs, x, y, k),
    ensures
        walks(pairs.push(edge), x, y, k),
    decreases k,
{
    let more = pairs.push(edge);
    if k > 0 {
        let m = choose|m: int| walks(pairs, x, m, (k - 1) as nat) && #[trigger] joined(pairs, m, y);
        lemma_walk_grows(pairs, edge, x, m, (k - 1) as nat);
        let e = choose|e: int| #[trigger] joins(pairs, e, m, y);
        assert(joins(more, e, m, y));
        assert(joined(more, m, y));
    }
}

proof fn lemma_grows(pairs: Seq<(u32, u32)>, edge: (u32, u32), x: int, y: int)
    requires
        connected(pairs, x, y),
    ensures
        connected(pairs.push(edge), x, y),
{
    let k = choose|k: nat| #[trigger] walks(pairs, x, y, k);
    lemma_walk_grows(pairs, edge, x, y, k);
}

proof fn lemma_walk_bridged(pairs: Seq<(u32, u32)>, edge: (u32, u32), x: int, y: int, k: nat)
    requires
        walks(pairs.push(edge), x, y, k),
    ensures
        bridged(pairs, edge.0 as int, edge.1 as int, x, y),
    decreases k,
{
    let more = pairs.push(edge);
    let a = edge.0 as int;
    let b = edge.1 as int;
    lemma_reflexive(pairs, x);
    lemma_reflexive(pairs, a);
    lemma_reflexive(pairs, b);
    if k > 0 {
        let m = choose|m: int| walks(more, x, m, (k - 1) as nat) && #[trigger] joined(more, m, y);
        lemma_walk_bridged(pairs, edge, x, m, (k - 1) as nat);
        let e = choose|e: int| #[trigger] joins(more, e, m, y);
        if e < pairs.len() {
            assert(joins(pairs, e, m, y));
            if connected(pairs, x, m) {
                lemma_step(pairs, x, m, y);
            } else if connected(pairs, x, a) && connected(pairs, b, m) {
                lemma_step(pairs, b, m, y);
            } else {
                lemma_step(pairs, a, m, y);
            }
        }
    }
}

/// One more edge connects exactly what its two ends bring together.
proof fn lemma_bridge(pairs: Seq<(u32, u32)>, edge: (u32, u32), x: int, y: int)
    ensures
        connected(pairs.push(edge), x, y) <==> bridged(
            pairs,
            edge.0 as int,
            edge.1 as int,
            x,
            y,
        ),
{
    let more = pairs.push(edge);
    let a = edge.0 as int;
    let b = edge.1 as int;
    if connected(more, x, y) {
        let k = choose|k: nat| #[trigger] walks(more, x, y, k);
        lemma_walk_bridged(pairs, edge, x, y, k);
    }
    assert(joins(more, pairs.len() as int, a, b));
    assert(joins(more, pairs.len() as int, b, a));
    if connected(pairs, x, y) {
        lemma_grows(pairs, edge, x, y);
    }
    if connected(pairs, x, a) && connected(pairs, b, y) {
        lemma_grows(pairs, edge, x, a);
        lemma_grows(pairs, edge, b, y);
        lemma_step(more, x, a, b);
        lemma_transitive(more, x, b, y);
    }
    if connected(pairs, x, b) && connected(pairs, a, y) {
        lemma_grows(pairs, edge, x, b);
        lemma_grows(pairs, edge, a, y);
        lemma_step(more, x, b, a);
        lemma_transitive(more, x, a, y);
    }
}

/// Two nodes carry one label exactly when they are connected.
pub open spec fn labels_components(pairs: Seq<(u32, u32)>, label: Seq<u32>) -> bool {
    forall|x: int, y: int|
        0 <= x < label.len() && 0 <= y < label.len() ==> ((#[trigger] label[x]) == (
        #[trigger] label[y]) <==> connected(pairs, x, y))
}

/// The nodes of each label, each listed under its own.
spec fn grouped(label: Seq<u32>, member: Seq<Vec<u32>>) -> bool {
    &&& member.len() == label.len()
    &&& forall|x: int|
        0 <= x < label.len() ==> (#[trigger] label[x]) < label.len()
            && member[label[x] as int]@.contains(x as u32)
    &&& forall|l: int, i: int|
        0 <= l < member.len() && 0 <= i < member[l]@.len() ==> (#[trigger] member[l]@[i])
            < label.len() && label[member[l]@[i] as int] == l
}

/// Every edge joins two of the first `nodes` nodes.
pub open spec fn pairs_in(pairs: Seq<(u32, u32)>, nodes: int) -> bool {
    forall|e: int|
        0 <= e < pairs.len() ==> (#[trigger] pairs[e]).0 < nodes && pairs[e].1 < nodes
}

/// Give every node of one group another group's label.
fn relabel(label: &mut Vec<u32>, moved: &Vec<u32>, to: u32)
    requires
        old(label)@.len() < 0xFFFF_FFFF,
        forall|i: int|
            0 <= i < moved@.len() ==> (#[trigger] moved@[i]) < old(label)@.len(),
    ensures
        final(label)@.len() == old(label)@.len(),
        forall|x: int|
            0 <= x < final(label)@.len() ==> (#[trigger] final(label)@[x]) == (
            if moved@.contains(x as u32) {
                to
            } else {
                old(label)@[x]
            }),
{
    let ghost before = label@;
    let mut i: usize = 0;
    assert(moved@.take(0) =~= Seq::<u32>::empty());
    while i < moved.len()
        invariant
            i <= moved@.len(),
            label@.len() == before.len() < 0xFFFF_FFFF,
            forall|i: int| 0 <= i < moved@.len() ==> (#[trigger] moved@[i]) < before.len(),
            forall|x: int|
                0 <= x < label@.len() ==> (#[trigger] label@[x]) == (if moved@.take(
                    i as int,
                ).contains(x as u32) {
                    to
                } else {
                    before[x]
                }),
        decreases moved@.len() - i,
    {
        let ghost was = label@;
        let at: usize = moved[i] as usize;
        label.set(at, to);
        proof {
            let now = moved@.take(i + 1);
            let then = moved@.take(i as int);
            assert(now =~= then.push(moved@[i as int]));
            assert forall|x: int| 0 <= x < label@.len() implies (#[trigger] label@[x]) == (
            if now.contains(x as u32) {
                to
            } else {
                before[x]
            }) by {
                assert(was[x] == (if then.contains(x as u32) {
                    to
                } else {
                    before[x]
                }));
                if then.contains(x as u32) {
                    let k = choose|k: int| 0 <= k < then.len() && then[k] == x as u32;
                    assert(now[k] == x as u32);
                }
                if x == at {
                    assert(now[i as int] == x as u32);
                }
                if now.contains(x as u32) && x != at {
                    let k = choose|k: int| 0 <= k < now.len() && now[k] == x as u32;
                    assert(then[k] == x as u32);
                }
            }
        }
        i = i + 1;
    }
    assert(moved@.take(i as int) =~= moved@);
}

/// Merge the smaller of two groups into the larger.
fn merge(label: &mut Vec<u32>, member: &mut Vec<Vec<u32>>, a: u32, b: u32)
    requires
        grouped(old(label)@, old(member)@),
        old(label)@.len() < 0xFFFF_FFFF,
        a < old(label)@.len(),
        b < old(label)@.len(),
        a != b,
    ensures
        grouped(final(label)@, final(member)@),
        final(label)@.len() == old(label)@.len(),
        forall|x: int, y: int|
            0 <= x < final(label)@.len() && 0 <= y < final(label)@.len() ==> ((
            #[trigger] final(label)@[x]) == (#[trigger] final(label)@[y]) <==> {
                ||| old(label)@[x] == old(label)@[y]
                ||| old(label)@[x] == a && old(label)@[y] == b
                ||| old(label)@[x] == b && old(label)@[y] == a
            }),
{
    let ghost before = label@;
    let ghost lists = member@;
    let (from, to): (u32, u32) = if member[a as usize].len() < member[b as usize].len() {
        (a, b)
    } else {
        (b, a)
    };
    let mut moved: Vec<u32> = Vec::new();
    let count: usize = member[from as usize].len();
    let mut i: usize = 0;
    while i < count
        invariant
            i <= count,
            member@ == lists,
            from < member@.len(),
            to < member@.len(),
            count == member@[from as int]@.len(),
            moved@ == lists[from as int]@.take(i as int),
        decreases count - i,
    {
        moved.push(member[from as usize][i]);
        i = i + 1;
        assert(moved@ =~= lists[from as int]@.take(i as int));
    }
    assert(moved@ =~= lists[from as int]@);
    proof {
        assert forall|i: int| 0 <= i < moved@.len() implies (#[trigger] moved@[i])
            < label@.len() by {
            assert(lists[from as int]@[i] < before.len());
        }
        assert forall|x: int| 0 <= x < before.len() implies (moved@.contains(x as u32) <==> (
        #[trigger] before[x]) == from) by {
            if moved@.contains(x as u32) {
                let k = choose|k: int| 0 <= k < moved@.len() && moved@[k] == x as u32;
                assert(before[lists[from as int]@[k] as int] == from);
            }
        }
    }
    relabel(label, &moved, to);
    member.set(from as usize, Vec::new());
    let ghost cleared = member@;
    let mut j: usize = 0;
    assert(moved@.take(0) =~= Seq::<u32>::empty());
    assert(member@[to as int]@ =~= lists[to as int]@ + moved@.take(0));
    while j < moved.len()
        invariant
            j <= moved@.len(),
            member@.len() == lists.len(),
            to < member@.len(),
            from < member@.len(),
            to != from,
            member@[from as int]@.len() == 0,
            member@[to as int]@ == lists[to as int]@ + moved@.take(j as int),
            forall|l: int|
                0 <= l < member@.len() && l != to && l != from ==> (#[trigger] member@[l])
                    == lists[l],
        decreases moved@.len() - j,
    {
        member[to as usize].push(moved[j]);
        j = j + 1;
        assert(member@[to as int]@ =~= lists[to as int]@ + moved@.take(j as int));
    }
    assert(moved@.take(j as int) =~= moved@);
    proof {
        let all = lists[to as int]@ + moved@;
        assert forall|x: int| 0 <= x < label@.len() implies (#[trigger] label@[x]) < label@.len()
            && member@[label@[x] as int]@.contains(x as u32) by {
            assert(lists[before[x] as int]@.contains(x as u32));
            if before[x] == from {
                let k = choose|k: int| 0 <= k < moved@.len() && moved@[k] == x as u32;
                assert(all[lists[to as int]@.len() + k] == x as u32);
            } else if before[x] == to {
                let k = choose|k: int|
                    0 <= k < lists[to as int]@.len() && lists[to as int]@[k] == x as u32;
                assert(all[k] == x as u32);
            }
        }
        assert forall|l: int, i: int|
            0 <= l < member@.len() && 0 <= i < member@[l]@.len() implies (
        #[trigger] member@[l]@[i]) < label@.len() && label@[member@[l]@[i] as int] == l by {
            if l == to {
                if i < lists[to as int]@.len() {
                    assert(lists[to as int]@[i] < before.len() && before[lists[to as int]@[i] as int]
                        == to);
                } else {
                    let k = i - lists[to as int]@.len();
                    assert(lists[from as int]@[k] < before.len()
                        && before[lists[from as int]@[k] as int] == from);
                }
            } else if l != from {
                assert(lists[l]@[i] < before.len() && before[lists[l]@[i] as int] == l);
            }
        }
    }
}

/// A label for every node, the same for two nodes exactly when the edges connect
/// them.
pub fn components(nodes: u32, pairs: &Vec<(u32, u32)>) -> (label: Vec<u32>)
    requires
        nodes < 0xFFFF_FFFF,
        pairs_in(pairs@, nodes as int),
    ensures
        label@.len() == nodes,
        labels_components(pairs@, label@),
        forall|x: int| 0 <= x < nodes ==> (#[trigger] label@[x]) < nodes,
{
    let mut label: Vec<u32> = Vec::new();
    let mut member: Vec<Vec<u32>> = Vec::new();
    let mut n: u32 = 0;
    while n < nodes
        invariant
            n <= nodes,
            label@.len() == n,
            member@.len() == n,
            forall|x: int| 0 <= x < n ==> (#[trigger] label@[x]) == x,
            forall|x: int| 0 <= x < n ==> (#[trigger] member@[x])@ == seq![x as u32],
        decreases nodes - n,
    {
        let mut own: Vec<u32> = Vec::new();
        own.push(n);
        assert(own@ =~= seq![n]);
        label.push(n);
        member.push(own);
        n = n + 1;
    }
    proof {
        assert forall|x: int| 0 <= x < label@.len() implies (#[trigger] label@[x]) < label@.len()
            && member@[label@[x] as int]@.contains(x as u32) by {
            assert(member@[x]@[0] == x as u32);
        }
        let none = pairs@.take(0);
        assert forall|x: int, y: int|
            0 <= x < label@.len() && 0 <= y < label@.len() implies ((#[trigger] label@[x]) == (
        #[trigger] label@[y]) <==> connected(none, x, y)) by {
            lemma_reflexive(none, x);
            if connected(none, x, y) {
                let k = choose|k: nat| #[trigger] walks(none, x, y, k);
                if k > 0 {
                    let m = choose|m: int| walks(none, x, m, (k - 1) as nat)
                        && #[trigger] joined(none, m, y);
                    let e = choose|e: int| #[trigger] joins(none, e, m, y);
                    assert(false);
                }
            }
        }
    }
    let mut e: usize = 0;
    while e < pairs.len()
        invariant
            e <= pairs@.len(),
            nodes < 0xFFFF_FFFF,
            pairs_in(pairs@, nodes as int),
            label@.len() == nodes,
            grouped(label@, member@),
            labels_components(pairs@.take(e as int), label@),
        decreases pairs@.len() - e,
    {
        let edge = pairs[e];
        let a: u32 = label[edge.0 as usize];
        let b: u32 = label[edge.1 as usize];
        let ghost before = label@;
        let ghost then = pairs@.take(e as int);
        if a != b {
            merge(&mut label, &mut member, a, b);
        }
        proof {
            let now = pairs@.take(e + 1);
            assert(now =~= then.push(edge));
            assert forall|x: int, y: int|
                0 <= x < label@.len() && 0 <= y < label@.len() implies ((#[trigger] label@[x]) == (
            #[trigger] label@[y]) <==> connected(now, x, y)) by {
                lemma_bridge(then, edge, x, y);
                let p = edge.0 as int;
                let q = edge.1 as int;
                assert(before[x] == before[y] <==> connected(then, x, y));
                assert(before[x] == before[p] <==> connected(then, x, p));
                assert(before[x] == before[q] <==> connected(then, x, q));
                assert(before[p] == before[y] <==> connected(then, p, y));
                assert(before[q] == before[y] <==> connected(then, q, y));
            }
        }
        e = e + 1;
    }
    assert(pairs@.take(e as int) =~= pairs@);
    label
}

} // verus!
