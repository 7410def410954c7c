//! A net's polygons as chains of resistors, tapped where they connect.
use crate::evidence::worst::{links_in, worst_pair, worst_pair_r, Link};
use crate::geom::{half_sum, in_domain, midpoint, Bbox};
use crate::number::Number;
use crate::power::taps::{chain_is_horizontal, resolves, runs_along_x, Tap, TapTable};
use vstd::prelude::*;

verus! {

/// The ends of a box along its long axis.
pub open spec fn span_of(b: Bbox) -> (int, int) {
    if runs_along_x(b) { (b.xlo as int, b.xhi as int) } else { (b.ylo as int, b.yhi as int) }
}

fn span(b: Bbox) -> (r: (i64, i64))
    requires
        b.wf(),
    ensures
        (r.0 as int, r.1 as int) == span_of(b),
        in_domain(r.0 as int),
        in_domain(r.1 as int),
        r.0 <= r.1,
{
    if chain_is_horizontal(b) { (b.xlo, b.xhi) } else { (b.ylo, b.yhi) }
}

/// The centre of what `other` shares with `host`, on the long axis of `host`.
pub open spec fn place_of(host: Bbox, other: Bbox) -> int {
    let shared = host.clip(other);
    if runs_along_x(host) {
        half_sum(shared.xlo as int, shared.xhi as int)
    } else {
        half_sum(shared.ylo as int, shared.yhi as int)
    }
}

fn place(host: Bbox, other: Bbox) -> (r: i64)
    requires
        host.wf(),
        other.wf(),
        host.meets(other),
    ensures
        r == place_of(host, other),
        in_domain(r as int),
{
    let (lo, hi): (i64, i64) = if chain_is_horizontal(host) {
        (
            if host.xlo < other.xlo { other.xlo } else { host.xlo },
            if host.xhi < other.xhi { host.xhi } else { other.xhi },
        )
    } else {
        (
            if host.ylo < other.ylo { other.ylo } else { host.ylo },
            if host.yhi < other.yhi { host.yhi } else { other.yhi },
        )
    };
    midpoint(lo, hi)
}

/// The later boxes below `n` that box `i` meets, each paired with it.
pub open spec fn crossings_of(boxes: Seq<Bbox>, i: int, n: nat) -> Seq<(u32, u32)>
    decreases n,
{
    if n == 0 || n <= i + 1 {
        Seq::empty()
    } else {
        let before = crossings_of(boxes, i, (n - 1) as nat);
        if boxes[i].meets(boxes[n - 1]) {
            before.push((i as u32, (n - 1) as u32))
        } else {
            before
        }
    }
}

/// The pairs of meeting boxes whose first is below `n`.
pub open spec fn crossings_to(boxes: Seq<Bbox>, n: nat) -> Seq<(u32, u32)>
    decreases n,
{
    if n == 0 {
        Seq::empty()
    } else {
        crossings_to(boxes, (n - 1) as nat) + crossings_of(boxes, n - 1, boxes.len())
    }
}

/// The boxes below `n` that attach box `k` meets, each paired with it.
pub open spec fn contacts_of(boxes: Seq<Bbox>, attach: Seq<Bbox>, k: int, n: nat) -> Seq<
    (u32, u32),
>
    decreases n,
{
    if n == 0 {
        Seq::empty()
    } else {
        let before = contacts_of(boxes, attach, k, (n - 1) as nat);
        if boxes[n - 1].meets(attach[k]) {
            before.push((k as u32, (n - 1) as u32))
        } else {
            before
        }
    }
}

/// What the first `n` attach boxes meet.
pub open spec fn contacts_to(boxes: Seq<Bbox>, attach: Seq<Bbox>, n: nat) -> Seq<(u32, u32)>
    decreases n,
{
    if n == 0 {
        Seq::empty()
    } else {
        contacts_to(boxes, attach, (n - 1) as nat) + contacts_of(
            boxes,
            attach,
            n - 1,
            boxes.len(),
        )
    }
}

/// Both ends of each of the first `n` boxes.
pub open spec fn ends_to(boxes: Seq<Bbox>, n: nat) -> Seq<Tap>
    decreases n,
{
    if n == 0 {
        Seq::empty()
    } else {
        let ends = span_of(boxes[n - 1]);
        ends_to(boxes, (n - 1) as nat).push(
            Tap { shape: (n - 1) as u32, along: ends.0 as i64 },
        ).push(Tap { shape: (n - 1) as u32, along: ends.1 as i64 })
    }
}

/// The taps of the first `n` crossings, two for each.
pub open spec fn crossing_taps(boxes: Seq<Bbox>, pairs: Seq<(u32, u32)>, n: nat) -> Seq<Tap>
    decreases n,
{
    if n == 0 {
        Seq::empty()
    } else {
        let (i, j) = pairs[n - 1];
        let (a, b) = (boxes[i as int], boxes[j as int]);
        crossing_taps(boxes, pairs, (n - 1) as nat).push(
            Tap { shape: i, along: place_of(a, b) as i64 },
        ).push(Tap { shape: j, along: place_of(b, a) as i64 })
    }
}

/// The taps of the first `n` contacts.
pub open spec fn contact_taps(
    boxes: Seq<Bbox>,
    attach: Seq<Bbox>,
    pairs: Seq<(u32, u32)>,
    n: nat,
) -> Seq<Tap>
    decreases n,
{
    if n == 0 {
        Seq::empty()
    } else {
        let (k, i) = pairs[n - 1];
        contact_taps(boxes, attach, pairs, (n - 1) as nat).push(
            Tap { shape: i, along: place_of(boxes[i as int], attach[k as int]) as i64 },
        )
    }
}

/// Every tap a net asks for: its ends, its crossings, its contacts.
pub open spec fn taps_of(boxes: Seq<Bbox>, attach: Seq<Bbox>) -> Seq<Tap> {
    let pairs = crossings_to(boxes, boxes.len());
    let touched = contacts_to(boxes, attach, attach.len());
    ends_to(boxes, boxes.len()) + crossing_taps(boxes, pairs, pairs.len()) + contact_taps(
        boxes,
        attach,
        touched,
        touched.len(),
    )
}

/// A stretch of a box's chain: its share of the box's resistance.
pub open spec fn share_of(b: Bbox, ohms: Number, from: int, to: int) -> Number {
    let (lo, hi) = span_of(b);
    ohms.times_spec(Number::of_spec(to - from)).over_spec(
        Number::of_spec(if hi - lo < 1 { 1 } else { hi - lo }),
    )
}

/// The chain links among the first `n` nodes.
pub open spec fn chain_links(
    boxes: Seq<Bbox>,
    ohms: Seq<Number>,
    node: Seq<Tap>,
    n: nat,
) -> Seq<Link>
    decreases n,
{
    if n <= 1 {
        Seq::empty()
    } else {
        let before = chain_links(boxes, ohms, node, (n - 1) as nat);
        let (from, to) = (node[n - 2], node[n - 1]);
        if from.shape == to.shape {
            before.push(
                Link {
                    a: (n - 2) as u32,
                    b: (n - 1) as u32,
                    ohms: share_of(
                        boxes[to.shape as int],
                        ohms[to.shape as int],
                        from.along as int,
                        to.along as int,
                    ),
                },
            )
        } else {
            before
        }
    }
}

/// The links of the first `n` crossings, whose requests start at `first`.
pub open spec fn crossing_links(req_node: Seq<u32>, first: int, n: nat) -> Seq<Link>
    decreases n,
{
    if n == 0 {
        Seq::empty()
    } else {
        crossing_links(req_node, first, (n - 1) as nat).push(
            Link {
                a: req_node[first + 2 * (n - 1)],
                b: req_node[first + 2 * (n - 1) + 1],
                ohms: Number { bits: 0 },
            },
        )
    }
}

/// How many attach boxes the first `n` contacts are of.
pub open spec fn attached(pairs: Seq<(u32, u32)>, n: nat) -> int
    decreases n,
{
    if n == 0 {
        0
    } else {
        attached(pairs, (n - 1) as nat) + if n >= 2 && pairs[n - 2].0 == pairs[n - 1].0 {
            0int
        } else {
            1int
        }
    }
}

/// The links of the first `n` contacts, whose requests start at `first`; the
/// attach boxes are nodes of their own, behind the `nodes` of the chains.
pub open spec fn contact_links(
    req_node: Seq<u32>,
    pairs: Seq<(u32, u32)>,
    first: int,
    nodes: int,
    n: nat,
) -> Seq<Link>
    decreases n,
{
    if n == 0 {
        Seq::empty()
    } else {
        contact_links(req_node, pairs, first, nodes, (n - 1) as nat).push(
            Link {
                a: (nodes + attached(pairs, n) - 1) as u32,
                b: req_node[first + n - 1],
                ohms: Number { bits: 0 },
            },
        )
    }
}

/// Every link of a net.
pub open spec fn net_links(
    boxes: Seq<Bbox>,
    attach: Seq<Bbox>,
    ohms: Seq<Number>,
    node: Seq<Tap>,
    req_node: Seq<u32>,
) -> Seq<Link> {
    let pairs = crossings_to(boxes, boxes.len());
    let touched = contacts_to(boxes, attach, attach.len());
    let first = 2 * boxes.len() as int;
    chain_links(boxes, ohms, node, node.len()) + crossing_links(req_node, first, pairs.len())
        + contact_links(
        req_node,
        touched,
        first + 2 * pairs.len(),
        node.len() as int,
        touched.len(),
    )
}

/// Which nodes a resistance is measured between: the attach boxes, or every
/// node where fewer than two are attached.
pub open spec fn net_terminals(boxes: Seq<Bbox>, attach: Seq<Bbox>, nodes: int) -> Seq<bool> {
    let touched = contacts_to(boxes, attach, attach.len());
    let count = attached(touched, touched.len());
    Seq::new((nodes + count) as nat, |x: int| count < 2 || x >= nodes)
}

/// `r` is the worst resistance of a net over one set of nodes.
pub open spec fn measured(
    boxes: Seq<Bbox>,
    attach: Seq<Bbox>,
    ohms: Seq<Number>,
    node: Seq<Tap>,
    req_node: Seq<u32>,
    r: Number,
) -> bool {
    &&& resolves(taps_of(boxes, attach), node, req_node)
    &&& r == worst_pair(
        net_links(boxes, attach, ohms, node, req_node),
        net_terminals(boxes, attach, node.len() as int),
    )
}

/// `r` is the worst resistance of a net.
pub open spec fn measures(
    boxes: Seq<Bbox>,
    attach: Seq<Bbox>,
    ohms: Seq<Number>,
    r: Number,
) -> bool {
    exists|node: Seq<Tap>, req_node: Seq<u32>|
        #[trigger] measured(boxes, attach, ohms, node, req_node, r)
}

/// How large a net's network may get.
pub open spec fn net_size(boxes: Seq<Bbox>, attach: Seq<Bbox>) -> nat {
    2 * boxes.len() + 2 * crossings_to(boxes, boxes.len()).len() + 2 * contacts_to(
        boxes,
        attach,
        attach.len(),
    ).len()
}

/// Nodes that stand at the same places are the same nodes.
proof fn lemma_same_nodes(a: Seq<Tap>, b: Seq<Tap>, n: nat)
    requires
        crate::power::taps::taps_ascend(a),
        crate::power::taps::taps_ascend(b),
        forall|i: int| 0 <= i < a.len() ==> b.contains(#[trigger] a[i]),
        forall|i: int| 0 <= i < b.len() ==> a.contains(#[trigger] b[i]),
        n <= a.len(),
    ensures
        n <= b.len(),
        a.take(n as int) == b.take(n as int),
    decreases n,
{
    if n > 0 {
        let m = (n - 1) as nat;
        lemma_same_nodes(a, b, m);
        assert forall|i: int| 0 <= i < m implies a[i] == b[i] by {
            assert(a.take(m as int)[i] == b.take(m as int)[i]);
        }
        assert(b.contains(a[m as int]));
        let k = choose|k: int| 0 <= k < b.len() && b[k] == a[m as int];
        if k < m {
            assert(a[k].before(a[m as int]));
            assert(false);
        }
        assert(a.contains(b[m as int]));
        let l = choose|l: int| 0 <= l < a.len() && a[l] == b[m as int];
        if l < m {
            assert(b[l].before(b[m as int]));
            assert(false);
        }
        if k > m {
            assert(b[m as int].before(b[k]));
            if l > m {
                assert(a[m as int].before(a[l]));
            }
            assert(false);
        }
        assert(a.take(n as int) =~= b.take(n as int));
    }
}

/// A net has one worst resistance.
pub proof fn lemma_measures_one(
    boxes: Seq<Bbox>,
    attach: Seq<Bbox>,
    ohms: Seq<Number>,
    r: Number,
    s: Number,
)
    requires
        measures(boxes, attach, ohms, r),
        measures(boxes, attach, ohms, s),
    ensures
        r == s,
{
    let (a, x) = choose|node: Seq<Tap>, req_node: Seq<u32>|
        #[trigger] measured(boxes, attach, ohms, node, req_node, r);
    let (b, y) = choose|node: Seq<Tap>, req_node: Seq<u32>|
        #[trigger] measured(boxes, attach, ohms, node, req_node, s);
    let asked = taps_of(boxes, attach);
    assert forall|i: int| 0 <= i < a.len() implies b.contains(#[trigger] a[i]) by {
        let q = choose|q: int| 0 <= q < asked.len() && asked[q] == a[i];
        assert(crate::power::taps::answers(asked, b, y, q));
    }
    assert forall|i: int| 0 <= i < b.len() implies a.contains(#[trigger] b[i]) by {
        let q = choose|q: int| 0 <= q < asked.len() && asked[q] == b[i];
        assert(crate::power::taps::answers(asked, a, x, q));
    }
    lemma_same_nodes(a, b, a.len());
    lemma_same_nodes(b, a, b.len());
    assert(a =~= a.take(a.len() as int));
    assert(b =~= b.take(b.len() as int));
    assert(a == b);
    assert forall|q: int| 0 <= q < asked.len() implies x[q] == y[q] by {
        assert(crate::power::taps::answers(asked, a, x, q));
        assert(crate::power::taps::answers(asked, b, y, q));
        if x[q] < y[q] {
            assert(a[x[q] as int].before(a[y[q] as int]));
        } else if y[q] < x[q] {
            assert(a[y[q] as int].before(a[x[q] as int]));
        }
    }
    assert(x =~= y);
}

/// Each pair names two boxes.
spec fn crossings_in(boxes: Seq<Bbox>, pairs: Seq<(u32, u32)>) -> bool {
    forall|k: int|
        0 <= k < pairs.len() ==> (#[trigger] pairs[k]).0 < boxes.len() && pairs[k].1 < boxes.len()
            && boxes[pairs[k].0 as int].meets(boxes[pairs[k].1 as int])
}

spec fn contacts_in(boxes: Seq<Bbox>, attach: Seq<Bbox>, pairs: Seq<(u32, u32)>) -> bool {
    forall|k: int|
        0 <= k < pairs.len() ==> (#[trigger] pairs[k]).0 < attach.len() && pairs[k].1
            < boxes.len() && boxes[pairs[k].1 as int].meets(attach[pairs[k].0 as int])
}

fn find_crossings(boxes: &Vec<Bbox>) -> (r: Vec<(u32, u32)>)
    requires
        boxes@.len() < 0xFFFF_FFFF,
    ensures
        r@ == crossings_to(boxes@, boxes@.len()),
        crossings_in(boxes@, r@),
{
    let base: usize = boxes.len();
    let mut r: Vec<(u32, u32)> = Vec::new();
    let mut i: usize = 0;
    while i < base
        invariant
            i <= base == boxes@.len() < 0xFFFF_FFFF,
            r@ == crossings_to(boxes@, i as nat),
            crossings_in(boxes@, r@),
        decreases base - i,
    {
        let ghost before = r@;
        let mut j: usize = i + 1;
        assert(r@ =~= before + crossings_of(boxes@, i as int, j as nat));
        while j < base
            invariant
                i < j <= base == boxes@.len() < 0xFFFF_FFFF,
                r@ == before + crossings_of(boxes@, i as int, j as nat),
                crossings_in(boxes@, r@),
            decreases base - j,
        {
            if boxes[i].overlaps(boxes[j]) {
                r.push((i as u32, j as u32));
            }
            j = j + 1;
            assert(r@ =~= before + crossings_of(boxes@, i as int, j as nat));
        }
        i = i + 1;
    }
    r
}

fn find_contacts(boxes: &Vec<Bbox>, attach: &Vec<Bbox>) -> (r: Vec<(u32, u32)>)
    requires
        boxes@.len() < 0xFFFF_FFFF,
        attach@.len() < 0xFFFF_FFFF,
    ensures
        r@ == contacts_to(boxes@, attach@, attach@.len()),
        contacts_in(boxes@, attach@, r@),
{
    let base: usize = boxes.len();
    let mut r: Vec<(u32, u32)> = Vec::new();
    let mut k: usize = 0;
    while k < attach.len()
        invariant
            k <= attach@.len() < 0xFFFF_FFFF,
            base == boxes@.len() < 0xFFFF_FFFF,
            r@ == contacts_to(boxes@, attach@, k as nat),
            contacts_in(boxes@, attach@, r@),
        decreases attach@.len() - k,
    {
        let ghost before = r@;
        let mut i: usize = 0;
        assert(r@ =~= before + contacts_of(boxes@, attach@, k as int, i as nat));
        while i < base
            invariant
                k < attach@.len() < 0xFFFF_FFFF,
                i <= base == boxes@.len() < 0xFFFF_FFFF,
                r@ == before + contacts_of(boxes@, attach@, k as int, i as nat),
                contacts_in(boxes@, attach@, r@),
            decreases base - i,
        {
            if boxes[i].overlaps(attach[k]) {
                r.push((k as u32, i as u32));
            }
            i = i + 1;
            assert(r@ =~= before + contacts_of(boxes@, attach@, k as int, i as nat));
        }
        k = k + 1;
    }
    r
}

/// The taps of a net, resolved to nodes.
fn tap_net(
    boxes: &Vec<Bbox>,
    attach: &Vec<Bbox>,
    pairs: &Vec<(u32, u32)>,
    touched: &Vec<(u32, u32)>,
) -> (r: TapTable)
    requires
        forall|i: int| 0 <= i < boxes@.len() ==> (#[trigger] boxes@[i]).wf(),
        forall|i: int| 0 <= i < attach@.len() ==> (#[trigger] attach@[i]).wf(),
        net_size(boxes@, attach@) < 0xFFFF_FFFF,
        pairs@ == crossings_to(boxes@, boxes@.len()),
        crossings_in(boxes@, pairs@),
        touched@ == contacts_to(boxes@, attach@, attach@.len()),
        contacts_in(boxes@, attach@, touched@),
    ensures
        r.request@ == taps_of(boxes@, attach@),
        r.request@.len() == 2 * boxes@.len() + 2 * pairs@.len() + touched@.len(),
        r.asks_of(boxes@.len() as int),
        r.finished(boxes@.len() as int),
{
    let mut table = TapTable::new();
    let base: usize = boxes.len();
    let mut i: usize = 0;
    while i < base
        invariant
            i <= base == boxes@.len() < 0xFFFF_FFFF,
            forall|i: int| 0 <= i < boxes@.len() ==> (#[trigger] boxes@[i]).wf(),
            table.request@ == ends_to(boxes@, i as nat),
            table.request@.len() == 2 * i,
            2 * base < 0xFFFF_FFFF,
            table.asks_of(base as int),
        decreases base - i,
    {
        assert(boxes@[i as int].wf());
        let (lo, hi) = span(boxes[i]);
        table.push(i as u32, lo);
        table.push(i as u32, hi);
        i = i + 1;
    }
    let ghost ends = table.request@;
    let mut k: usize = 0;
    assert(table.request@ =~= ends + crossing_taps(boxes@, pairs@, 0));
    while k < pairs.len()
        invariant
            k <= pairs@.len(),
            base == boxes@.len(),
            forall|i: int| 0 <= i < boxes@.len() ==> (#[trigger] boxes@[i]).wf(),
            crossings_in(boxes@, pairs@),
            ends.len() == 2 * base,
            2 * base + 2 * pairs@.len() < 0xFFFF_FFFF,
            table.request@ == ends + crossing_taps(boxes@, pairs@, k as nat),
            table.request@.len() == 2 * base + 2 * k,
            table.asks_of(base as int),
        decreases pairs@.len() - k,
    {
        let (i, j) = pairs[k];
        assert(pairs@[k as int].0 < boxes@.len() && pairs@[k as int].1 < boxes@.len());
        let a = boxes[i as usize];
        let b = boxes[j as usize];
        assert(boxes@[i as int].wf() && boxes@[j as int].wf());
        table.push(i, place(a, b));
        table.push(j, place(b, a));
        k = k + 1;
        assert(table.request@ =~= ends + crossing_taps(boxes@, pairs@, k as nat));
    }
    let ghost crossed = table.request@;
    let mut c: usize = 0;
    assert(table.request@ =~= crossed + contact_taps(boxes@, attach@, touched@, 0));
    while c < touched.len()
        invariant
            c <= touched@.len(),
            base == boxes@.len(),
            forall|i: int| 0 <= i < boxes@.len() ==> (#[trigger] boxes@[i]).wf(),
            forall|i: int| 0 <= i < attach@.len() ==> (#[trigger] attach@[i]).wf(),
            contacts_in(boxes@, attach@, touched@),
            crossed.len() == 2 * base + 2 * pairs@.len(),
            2 * base + 2 * pairs@.len() + 2 * touched@.len() < 0xFFFF_FFFF,
            table.request@ == crossed + contact_taps(boxes@, attach@, touched@, c as nat),
            table.request@.len() == 2 * base + 2 * pairs@.len() + c,
            table.asks_of(base as int),
        decreases touched@.len() - c,
    {
        let (t, i) = touched[c];
        assert(touched@[c as int].0 < attach@.len() && touched@[c as int].1 < boxes@.len());
        assert(boxes@[i as int].wf() && attach@[t as int].wf());
        table.push(i, place(boxes[i as usize], attach[t as usize]));
        c = c + 1;
        assert(table.request@ =~= crossed + contact_taps(boxes@, attach@, touched@, c as nat));
    }
    table.finish(base as u32);
    table
}

fn share(b: Bbox, ohms: Number, from: i64, to: i64) -> (r: Number)
    requires
        b.wf(),
        in_domain(from as int),
        in_domain(to as int),
    ensures
        r == share_of(b, ohms, from as int, to as int),
{
    let (lo, hi) = span(b);
    let len: i64 = if hi - lo < 1 { 1 } else { hi - lo };
    ohms.times(Number::of((to - from) as i128)).over(Number::of(len as i128))
}

/// The links of a net.
fn link_net(
    boxes: &Vec<Bbox>,
    ohms: &Vec<Number>,
    table: &TapTable,
    pairs: &Vec<(u32, u32)>,
    touched: &Vec<(u32, u32)>,
    Ghost(attach): Ghost<Seq<Bbox>>,
) -> (r: (Vec<Link>, usize))
    requires
        forall|i: int| 0 <= i < boxes@.len() ==> (#[trigger] boxes@[i]).wf(),
        ohms@.len() == boxes@.len(),
        net_size(boxes@, attach) < 0xFFFF_FFFF,
        pairs@ == crossings_to(boxes@, boxes@.len()),
        touched@ == contacts_to(boxes@, attach, attach.len()),
        table.request@.len() == 2 * boxes@.len() + 2 * pairs@.len() + touched@.len(),
        table.asks_of(boxes@.len() as int),
        table.finished(boxes@.len() as int),
    ensures
        r.0@ == net_links(boxes@, attach, ohms@, table.node@, table.req_node@),
        r.1 == attached(touched@, touched@.len()),
        r.1 <= touched@.len(),
        links_in(r.0@, table.node@.len() + r.1),
{
    let nodes: usize = table.node.len();
    let mut links: Vec<Link> = Vec::new();
    let mut x: usize = 1;
    while x < nodes
        invariant
            1 <= x,
            x <= nodes || nodes == 0,
            nodes == table.node@.len() < 0xFFFF_FFFF,
            forall|i: int| 0 <= i < boxes@.len() ==> (#[trigger] boxes@[i]).wf(),
            ohms@.len() == boxes@.len(),
            table.asks_of(boxes@.len() as int),
            table.finished(boxes@.len() as int),
            links@ == chain_links(
                boxes@,
                ohms@,
                table.node@,
                if nodes == 0 { 0 } else { x as nat },
            ),
            links_in(links@, nodes as int),
        decreases nodes - x,
    {
        let from = table.node[x - 1];
        let to = table.node[x];
        if from.shape == to.shape {
            proof {
                assert(table.request@.contains(table.node@[x - 1]));
                assert(table.request@.contains(table.node@[x as int]));
            }
            let s: usize = to.shape as usize;
            assert(boxes@[s as int].wf());
            let part = share(boxes[s], ohms[s], from.along, to.along);
            links.push(Link { a: (x - 1) as u32, b: x as u32, ohms: part });
        }
        x = x + 1;
    }
    let ghost chains = links@;
    assert(chains == chain_links(boxes@, ohms@, table.node@, nodes as nat));
    let first: usize = 2 * boxes.len();
    let mut k: usize = 0;
    assert(links@ =~= chains + crossing_links(table.req_node@, first as int, 0));
    while k < pairs.len()
        invariant
            k <= pairs@.len(),
            nodes == table.node@.len(),
            first == 2 * boxes@.len(),
            first + 2 * pairs@.len() + 2 * touched@.len() < 0xFFFF_FFFF,
            table.request@.len() == first + 2 * pairs@.len() + touched@.len(),
            table.finished(boxes@.len() as int),
            links@ == chains + crossing_links(table.req_node@, first as int, k as nat),
            links_in(links@, nodes as int),
        decreases pairs@.len() - k,
    {
        proof {
            assert(crate::power::taps::answers(
                table.request@,
                table.node@,
                table.req_node@,
                first + 2 * k,
            ));
            assert(crate::power::taps::answers(
                table.request@,
                table.node@,
                table.req_node@,
                first + 2 * k + 1,
            ));
        }
        let a: u32 = table.req_node[first + 2 * k];
        let b: u32 = table.req_node[first + 2 * k + 1];
        links.push(Link { a, b, ohms: Number { bits: 0 } });
        k = k + 1;
        assert(links@ =~= chains + crossing_links(table.req_node@, first as int, k as nat));
    }
    let ghost crossed = links@;
    let second: usize = first + 2 * pairs.len();
    let mut count: usize = 0;
    let mut c: usize = 0;
    assert(links@ =~= crossed + contact_links(
        table.req_node@,
        touched@,
        second as int,
        nodes as int,
        0,
    ));
    while c < touched.len()
        invariant
            c <= touched@.len(),
            nodes == table.node@.len() <= table.request@.len(),
            second == 2 * boxes@.len() + 2 * pairs@.len(),
            second + 2 * touched@.len() < 0xFFFF_FFFF,
            table.request@.len() == second + touched@.len(),
            table.finished(boxes@.len() as int),
            count == attached(touched@, c as nat),
            count <= c,
            links@ == crossed + contact_links(
                table.req_node@,
                touched@,
                second as int,
                nodes as int,
                c as nat,
            ),
            links_in(links@, nodes + count),
        decreases touched@.len() - c,
    {
        let ghost before = links@;
        if c == 0 || touched[c - 1].0 != touched[c].0 {
            count = count + 1;
        }
        assert(count == attached(touched@, (c + 1) as nat));
        assert(count >= 1) by {
            lemma_attached(touched@, (c + 1) as nat);
        }
        proof {
            assert(crate::power::taps::answers(
                table.request@,
                table.node@,
                table.req_node@,
                second + c,
            ));
        }
        let b: u32 = table.req_node[second + c];
        links.push(Link { a: (nodes + count - 1) as u32, b, ohms: Number { bits: 0 } });
        c = c + 1;
        proof {
            assert(links@ =~= crossed + contact_links(
                table.req_node@,
                touched@,
                second as int,
                nodes as int,
                c as nat,
            ));
            assert forall|e: int| 0 <= e < links@.len() implies (#[trigger] links@[e]).a < nodes
                + count && links@[e].b < nodes + count by {
                if e < before.len() {
                    assert(before[e] == links@[e]);
                }
            }
        }
    }
    (links, count)
}

proof fn lemma_attached(pairs: Seq<(u32, u32)>, n: nat)
    ensures
        n > 0 ==> attached(pairs, n) >= 1,
        attached(pairs, n) >= 0,
    decreases n,
{
    if n > 0 {
        lemma_attached(pairs, (n - 1) as nat);
    }
}

/// The worst resistance of a net: the boxes of its polygons with the resistance
/// of each, and the boxes its devices attach at.
pub fn measure_net(boxes: &Vec<Bbox>, attach: &Vec<Bbox>, ohms: &Vec<Number>) -> (r: Number)
    requires
        forall|i: int| 0 <= i < boxes@.len() ==> (#[trigger] boxes@[i]).wf(),
        forall|i: int| 0 <= i < attach@.len() ==> (#[trigger] attach@[i]).wf(),
        ohms@.len() == boxes@.len(),
        attach@.len() < 0xFFFF_FFFF,
        net_size(boxes@, attach@) < 0xFFFF_FFFF,
        2 * net_size(boxes@, attach@) <= usize::MAX,
    ensures
        measures(boxes@, attach@, ohms@, r),
{
    let pairs = find_crossings(boxes);
    let touched = find_contacts(boxes, attach);
    let table = tap_net(boxes, attach, &pairs, &touched);
    let (links, count) = link_net(boxes, ohms, &table, &pairs, &touched, Ghost(attach@));
    let nodes: usize = table.node.len();
    let ghost want = net_terminals(boxes@, attach@, nodes as int);
    let mut terminal: Vec<bool> = Vec::new();
    let all: usize = nodes + count;
    let mut x: usize = 0;
    while x < all
        invariant
            x <= all == nodes + count,
            count == attached(touched@, touched@.len()),
            touched@ == contacts_to(boxes@, attach@, attach@.len()),
            want == net_terminals(boxes@, attach@, nodes as int),
            terminal@ == want.take(x as int),
        decreases all - x,
    {
        terminal.push(count < 2 || x >= nodes);
        x = x + 1;
        assert(terminal@ =~= want.take(x as int));
    }
    assert(terminal@ =~= want);
    let r = worst_pair_r(&links, &terminal);
    assert(measured(boxes@, attach@, ohms@, table.node@, table.req_node@, r));
    r
}

} // verus!
