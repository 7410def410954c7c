//! What holds of effective resistance in exact arithmetic.
//!
//! A resistance is a whole number of the smallest step a finite number has, so Ohm's
//! law and Kirchhoff's law are stated over integers: a flow between two nodes gives
//! each resistor a current and each node a potential, and the effective resistance
//! between the two is the drop in potential over the current that flows. The laws are
//! of every flow, whatever its scale.
use crate::power::network::NetNetworks;
use vstd::prelude::*;

verus! {

/// One resistor between two nodes.
pub ghost struct Resistor {
    pub a: int,
    pub b: int,
    pub ohms: int,
}

/// Whether a list is a network of positive resistances over a number of nodes.
pub open spec fn network(net: Seq<Resistor>, nodes: int) -> bool {
    forall|k: int|
        0 <= k < net.len() ==> 0 <= (#[trigger] net[k]).a < nodes && 0 <= net[k].b < nodes
            && net[k].ohms > 0
}

/// Row `r`'s edges, as exact resistances.
pub open spec fn resistors(networks: &NetNetworks, r: int) -> Seq<Resistor> {
    Seq::new(
        networks.edge_len(r) as nat,
        |k: int|
            Resistor {
                a: networks.edge_from@[networks.edge_lo(r) + k] as int,
                b: networks.edge_to@[networks.edge_lo(r) + k] as int,
                ohms: networks.edge_resistance@[networks.edge_lo(r) + k].value(),
            },
    )
}

/// A row none of whose edges is refused is a network.
pub proof fn lemma_usable_row_is_a_network(networks: &NetNetworks, r: int)
    requires
        networks.wf(),
        0 <= r < networks.rows(),
        forall|k: int|
            0 <= k < networks.edge_len(r) ==> !#[trigger] (networks.unusable_edge(r))(k),
    ensures
        network(resistors(networks, r), networks.node_len(r)),
{
    let net = resistors(networks, r);
    let lo = networks.edge_lo(r);
    assert forall|k: int| 0 <= k < net.len() implies 0 <= (#[trigger] net[k]).a
        < networks.node_len(r) && 0 <= net[k].b < networks.node_len(r) && net[k].ohms > 0 by {
        assert(!(networks.unusable_edge(r))(k));
        assert(networks.edge_lo(r) <= lo + k < networks.edge_hi(r));
        assert(networks.edge_from@[lo + k] < networks.node_len(r));
        assert(networks.edge_to@[lo + k] < networks.node_len(r));
    }
}

/// A current through each resistor, a potential at each node, and the current that
/// enters at one node and leaves at another.
pub ghost struct Flow {
    pub amps: Seq<int>,
    pub volts: Seq<int>,
    pub current: int,
}

/// How far a potential falls over resistor `k`.
pub open spec fn fall(net: Seq<Resistor>, x: Seq<int>, k: int) -> int {
    x[net[k].a] - x[net[k].b]
}

/// What one resistor carries out of a node.
pub open spec fn share(e: Resistor, amps: int, node: int) -> int {
    (if e.a == node { amps } else { 0 }) - (if e.b == node { amps } else { 0 })
}

/// What the first `n` resistors carry out of a node.
pub open spec fn leaving(net: Seq<Resistor>, amps: Seq<int>, node: int, n: nat) -> int
    decreases n,
{
    if n == 0 {
        0
    } else {
        leaving(net, amps, node, (n - 1) as nat) + share(net[n - 1], amps[n - 1], node)
    }
}

/// What enters a node from outside when a current enters at `s` and leaves at `t`.
pub open spec fn entering(current: int, s: int, t: int, node: int) -> int {
    (if node == s { current } else { 0 }) - (if node == t { current } else { 0 })
}

/// Whether a flow obeys both laws between `s` and `t`: over each resistor the
/// potential falls by its resistance times its current, and at each node what leaves
/// through the resistors is what enters from outside.
pub open spec fn flows(net: Seq<Resistor>, nodes: int, s: int, t: int, f: Flow) -> bool {
    &&& f.amps.len() == net.len()
    &&& f.volts.len() == nodes
    &&& 0 <= s < nodes
    &&& 0 <= t < nodes
    &&& f.current > 0
    &&& forall|k: int|
        0 <= k < net.len() ==> #[trigger] fall(net, f.volts, k) == net[k].ohms * f.amps[k]
    &&& forall|node: int|
        0 <= node < nodes ==> #[trigger] leaving(net, f.amps, node, net.len()) == entering(
            f.current,
            s,
            t,
            node,
        )
}

/// How far the potential falls from `s` to `t`.
pub open spec fn drop_of(f: Flow, s: int, t: int) -> int {
    f.volts[s] - f.volts[t]
}

/// The sum over the first `n` resistors of current times fall.
pub open spec fn work(net: Seq<Resistor>, amps: Seq<int>, x: Seq<int>, n: nat) -> int
    decreases n,
{
    if n == 0 {
        0
    } else {
        work(net, amps, x, (n - 1) as nat) + amps[n - 1] * fall(net, x, n - 1)
    }
}

/// The sum over the first `m` nodes of what the first `n` resistors carry out of each,
/// times its potential.
pub open spec fn spread(net: Seq<Resistor>, amps: Seq<int>, x: Seq<int>, n: nat, m: nat) -> int
    decreases m,
{
    if m == 0 {
        0
    } else {
        spread(net, amps, x, n, (m - 1) as nat) + leaving(net, amps, m - 1, n) * x[m - 1]
    }
}

proof fn lemma_spread_none(net: Seq<Resistor>, amps: Seq<int>, x: Seq<int>, m: nat)
    ensures
        spread(net, amps, x, 0, m) == 0,
    decreases m,
{
    if m > 0 {
        lemma_spread_none(net, amps, x, (m - 1) as nat);
        assert(0 * x[m - 1] == 0);
    }
}

/// One resistor more adds its current times its fall.
proof fn lemma_spread_step(net: Seq<Resistor>, amps: Seq<int>, x: Seq<int>, n: nat, m: nat)
    requires
        0 < n <= net.len(),
        n <= amps.len(),
        m <= x.len(),
        0 <= net[n - 1].a < x.len(),
        0 <= net[n - 1].b < x.len(),
    ensures
        spread(net, amps, x, n, m) == spread(net, amps, x, (n - 1) as nat, m) + (
        if net[n - 1].a < m { amps[n - 1] * x[net[n - 1].a] } else { 0 }) - (if net[n - 1].b < m {
            amps[n - 1] * x[net[n - 1].b]
        } else {
            0
        }),
    decreases m,
{
    if m > 0 {
        lemma_spread_step(net, amps, x, n, (m - 1) as nat);
        let (before, own, v) = (
            leaving(net, amps, m - 1, (n - 1) as nat),
            share(net[n - 1], amps[n - 1], m - 1),
            x[m - 1],
        );
        assert((before + own) * v == before * v + own * v) by (nonlinear_arith);
        let c = amps[n - 1];
        assert(0 * v == 0 && (c - c) * v == 0 && (c - 0) * v == c * v && (0 - c) * v == -(c * v))
            by (nonlinear_arith);
    }
}

/// Summed by resistors or by nodes, a current's work over a potential is the same.
pub proof fn lemma_by_parts(net: Seq<Resistor>, amps: Seq<int>, x: Seq<int>, n: nat)
    requires
        n <= net.len(),
        n <= amps.len(),
        forall|k: int|
            0 <= k < net.len() ==> 0 <= (#[trigger] net[k]).a < x.len() && 0 <= net[k].b < x.len(),
    ensures
        work(net, amps, x, n) == spread(net, amps, x, n, x.len()),
    decreases n,
{
    if n == 0 {
        lemma_spread_none(net, amps, x, x.len());
    } else {
        lemma_by_parts(net, amps, x, (n - 1) as nat);
        lemma_spread_step(net, amps, x, n, x.len());
        let (c, u, v) = (amps[n - 1], x[net[n - 1].a], x[net[n - 1].b]);
        assert(c * (u - v) == c * u - c * v) by (nonlinear_arith);
    }
}

/// The sum over the first `m` nodes of what enters each, times its potential.
proof fn lemma_spread_entering(
    net: Seq<Resistor>,
    f: Flow,
    s: int,
    t: int,
    x: Seq<int>,
    m: nat,
)
    requires
        flows(net, x.len() as int, s, t, f),
        m <= x.len(),
    ensures
        spread(net, f.amps, x, net.len(), m) == (if s < m { f.current * x[s] } else { 0 }) - (
        if t < m { f.current * x[t] } else { 0 }),
    decreases m,
{
    if m > 0 {
        lemma_spread_entering(net, f, s, t, x, (m - 1) as nat);
        let (i, v) = (f.current, x[m - 1]);
        assert(leaving(net, f.amps, m - 1, net.len()) == entering(i, s, t, m - 1));
        assert(0 * v == 0 && (i - i) * v == 0 && (i - 0) * v == i * v && (0 - i) * v == -(i * v))
            by (nonlinear_arith);
    }
}

/// A flow's work over any potential is its current times the fall from end to end.
proof fn lemma_work(net: Seq<Resistor>, f: Flow, s: int, t: int, x: Seq<int>)
    requires
        network(net, x.len() as int),
        flows(net, x.len() as int, s, t, f),
    ensures
        work(net, f.amps, x, net.len()) == f.current * (x[s] - x[t]),
{
    lemma_by_parts(net, f.amps, x, net.len());
    lemma_spread_entering(net, f, s, t, x, x.len());
    let (i, u, v) = (f.current, x[s], x[t]);
    assert(i * (u - v) == i * u - i * v) by (nonlinear_arith);
}

/// Whether one network is another with resistances lowered and resistors added.
pub open spec fn eases(before: Seq<Resistor>, after: Seq<Resistor>) -> bool {
    &&& before.len() <= after.len()
    &&& forall|k: int|
        0 <= k < before.len() ==> (#[trigger] after[k]).a == before[k].a && after[k].b
            == before[k].b && after[k].ohms <= before[k].ohms
}

/// Work is a matter of where the resistors run.
proof fn lemma_same_ends(
    a: Seq<Resistor>,
    b: Seq<Resistor>,
    amps: Seq<int>,
    x: Seq<int>,
    n: nat,
)
    requires
        eases(a, b),
        n <= a.len(),
    ensures
        work(a, amps, x, n) == work(b, amps, x, n),
    decreases n,
{
    if n > 0 {
        lemma_same_ends(a, b, amps, x, (n - 1) as nat);
        assert(b[n - 1].a == a[n - 1].a);
    }
}

/// One resistor's part: `ra * (j p)^2 - 2 rb (j p) (i q) + rb (i q)^2` is not negative.
proof fn lemma_square_part(ra: int, rb: int, u: int, w: int)
    by (nonlinear_arith)
    requires
        ra >= rb > 0,
    ensures
        ra * (u * u) - 2 * (rb * (u * w)) + rb * (w * w) >= 0,
{
    assert(ra * (u * u) >= rb * (u * u));
    assert(rb * (u * u) - 2 * (rb * (u * w)) + rb * (w * w) == rb * ((u - w) * (u - w)));
    assert((u - w) * (u - w) >= 0);
}

proof fn lemma_parts(
    a: Seq<Resistor>,
    b: Seq<Resistor>,
    nodes: int,
    s: int,
    t: int,
    f: Flow,
    g: Flow,
    n: nat,
)
    requires
        network(a, nodes),
        network(b, nodes),
        eases(a, b),
        flows(a, nodes, s, t, f),
        flows(b, nodes, s, t, g),
        n <= b.len(),
    ensures
        ({
            let m = if n <= a.len() { n } else { a.len() };
            let (i, j) = (f.current, g.current);
            (j * j) * work(a, f.amps, f.volts, m) - 2 * ((i * j) * work(b, f.amps, g.volts, m)) + (
            i * i) * work(b, g.amps, g.volts, n) >= 0
        }),
    decreases n,
{
    let (i, j) = (f.current, g.current);
    if n == 0 {
        assert((j * j) * 0 == 0 && (i * j) * 0 == 0 && (i * i) * 0 == 0);
    } else {
        lemma_parts(a, b, nodes, s, t, f, g, (n - 1) as nat);
        let k = n - 1;
        let (q, rb) = (g.amps[k], b[k].ohms);
        assert(fall(b, g.volts, k) == rb * q);
        let wb = work(b, g.amps, g.volts, k as nat);
        assert((i * i) * (wb + q * (rb * q)) == (i * i) * wb + rb * ((i * q) * (i * q)))
            by (nonlinear_arith);
        if k < a.len() {
            let (p, ra) = (f.amps[k], a[k].ohms);
            assert(b[k].ohms <= a[k].ohms);
            assert(fall(a, f.volts, k) == ra * p);
            let wa = work(a, f.amps, f.volts, k as nat);
            let wx = work(b, f.amps, g.volts, k as nat);
            assert((j * j) * (wa + p * (ra * p)) == (j * j) * wa + ra * ((j * p) * (j * p)))
                by (nonlinear_arith);
            assert((i * j) * (wx + p * (rb * q)) == (i * j) * wx + rb * ((j * p) * (i * q)))
                by (nonlinear_arith);
            lemma_square_part(ra, rb, j * p, i * q);
        } else {
            let w = i * q;
            assert(rb * (w * w) >= 0) by (nonlinear_arith)
                requires
                    rb > 0,
            ;
        }
    }
}

/// Adding a resistor, or lowering a resistance, never raises an effective resistance:
/// of a flow before and one after, the one after drops no more for each unit of its
/// current.
pub proof fn lemma_more_metal_never_resists_more(
    before: Seq<Resistor>,
    after: Seq<Resistor>,
    nodes: int,
    s: int,
    t: int,
    f: Flow,
    g: Flow,
)
    requires
        network(before, nodes),
        network(after, nodes),
        eases(before, after),
        flows(before, nodes, s, t, f),
        flows(after, nodes, s, t, g),
    ensures
        drop_of(g, s, t) * f.current <= drop_of(f, s, t) * g.current,
{
    let (i, j) = (f.current, g.current);
    let (d, e) = (drop_of(f, s, t), drop_of(g, s, t));
    lemma_parts(before, after, nodes, s, t, f, g, after.len());
    lemma_work(before, f, s, t, f.volts);
    lemma_work(after, g, s, t, g.volts);
    lemma_work(before, f, s, t, g.volts);
    lemma_same_ends(before, after, f.amps, g.volts, before.len());
    let (x, y) = ((j * j) * (i * d), (i * i) * (j * e));
    assert((i * j) * (i * e) == y) by (nonlinear_arith)
        requires
            y == (i * i) * (j * e),
    ;
    assert(x - 2 * y + y >= 0);
    assert(x == (i * j) * (d * j) && y == (i * j) * (e * i)) by (nonlinear_arith)
        requires
            x == (j * j) * (i * d),
            y == (i * i) * (j * e),
    ;
    assert(i * j > 0) by (nonlinear_arith)
        requires
            i > 0,
            j > 0,
    ;
    let (h, u, v) = (i * j, d * j, e * i);
    assert(u >= v) by (nonlinear_arith)
        requires
            h * u >= h * v,
            h > 0,
    ;
}

/// The effective resistance between two nodes is one value: two flows drop alike for
/// each unit of their current.
pub proof fn lemma_resistance_is_one_value(
    net: Seq<Resistor>,
    nodes: int,
    s: int,
    t: int,
    f: Flow,
    g: Flow,
)
    requires
        network(net, nodes),
        flows(net, nodes, s, t, f),
        flows(net, nodes, s, t, g),
    ensures
        drop_of(f, s, t) * g.current == drop_of(g, s, t) * f.current,
{
    lemma_more_metal_never_resists_more(net, net, nodes, s, t, f, g);
    lemma_more_metal_never_resists_more(net, net, nodes, s, t, g, f);
}

/// Each resistor's part of a flow's own work, up to a given one, is not negative, and
/// nothing is left where a current runs.
proof fn lemma_work_positive(net: Seq<Resistor>, nodes: int, s: int, t: int, f: Flow, n: nat)
    requires
        network(net, nodes),
        flows(net, nodes, s, t, f),
        n <= net.len(),
    ensures
        work(net, f.amps, f.volts, n) >= 0,
        work(net, f.amps, f.volts, n) == 0 ==> forall|k: int| 0 <= k < n ==> #[trigger] f.amps[k]
            == 0,
    decreases n,
{
    if n > 0 {
        lemma_work_positive(net, nodes, s, t, f, (n - 1) as nat);
        let k = n - 1;
        let (p, r) = (f.amps[k], net[k].ohms);
        assert(fall(net, f.volts, k) == r * p);
        assert(p * (r * p) >= 0 && (p != 0 ==> p * (r * p) > 0)) by (nonlinear_arith)
            requires
                r > 0,
        ;
    }
}

proof fn lemma_still(net: Seq<Resistor>, amps: Seq<int>, node: int, n: nat)
    requires
        forall|k: int| 0 <= k < n ==> #[trigger] amps[k] == 0,
    ensures
        leaving(net, amps, node, n) == 0,
    decreases n,
{
    if n > 0 {
        lemma_still(net, amps, node, (n - 1) as nat);
        assert(amps[n - 1] == 0);
    }
}

/// An effective resistance between two nodes is positive, and between a node and
/// itself there is none.
pub proof fn lemma_resistance_is_positive(
    net: Seq<Resistor>,
    nodes: int,
    s: int,
    t: int,
    f: Flow,
)
    requires
        network(net, nodes),
        flows(net, nodes, s, t, f),
    ensures
        s != t ==> drop_of(f, s, t) > 0,
        s == t ==> drop_of(f, s, t) == 0,
{
    if s != t {
        lemma_work(net, f, s, t, f.volts);
        lemma_work_positive(net, nodes, s, t, f, net.len());
        let (i, d) = (f.current, drop_of(f, s, t));
        if d <= 0 {
            assert(i * d <= 0) by (nonlinear_arith)
                requires
                    i > 0,
                    d <= 0,
            ;
            lemma_still(net, f.amps, s, net.len());
            assert(leaving(net, f.amps, s, net.len()) == entering(i, s, t, s));
        }
    }
}

/// A network with resistor `k` cut in two at a new node, `ohms` before the cut and the
/// rest after it.
pub open spec fn divided(net: Seq<Resistor>, k: int, ohms: int, node: int) -> Seq<Resistor> {
    net.update(k, Resistor { a: net[k].a, b: node, ohms }).push(
        Resistor { a: node, b: net[k].b, ohms: net[k].ohms - ohms },
    )
}

/// A flow carried over to a network with resistor `k` cut in two.
spec fn carried(net: Seq<Resistor>, k: int, ohms: int, f: Flow) -> Flow {
    Flow {
        amps: f.amps.push(f.amps[k]),
        volts: f.volts.push(f.volts[net[k].a] - ohms * f.amps[k]),
        current: f.current,
    }
}

proof fn lemma_leaving_divided(
    net: Seq<Resistor>,
    nodes: int,
    k: int,
    ohms: int,
    f: Flow,
    node: int,
    n: nat,
)
    requires
        network(net, nodes),
        f.amps.len() == net.len(),
        0 <= k < net.len(),
        0 <= node <= nodes,
        n <= net.len(),
    ensures
        leaving(divided(net, k, ohms, nodes), carried(net, k, ohms, f).amps, node, n) == leaving(
            net,
            f.amps,
            node,
            n,
        ) + (if n > k {
            (if net[k].b == node { f.amps[k] } else { 0 }) - (if nodes == node {
                f.amps[k]
            } else {
                0
            })
        } else {
            0
        }),
        node == nodes ==> leaving(net, f.amps, node, n) == 0,
    decreases n,
{
    if n > 0 {
        lemma_leaving_divided(net, nodes, k, ohms, f, node, (n - 1) as nat);
        assert(0 <= net[n - 1].a < nodes);
        let cut = divided(net, k, ohms, nodes);
        assert(n - 1 != k ==> cut[n - 1] == net[n - 1]);
        assert(carried(net, k, ohms, f).amps[n - 1] == f.amps[n - 1]);
    }
}

proof fn lemma_carried(
    net: Seq<Resistor>,
    nodes: int,
    k: int,
    ohms: int,
    s: int,
    t: int,
    f: Flow,
)
    requires
        network(net, nodes),
        flows(net, nodes, s, t, f),
        0 <= k < net.len(),
        0 < ohms < net[k].ohms,
    ensures
        network(divided(net, k, ohms, nodes), nodes + 1),
        flows(divided(net, k, ohms, nodes), nodes + 1, s, t, carried(net, k, ohms, f)),
        drop_of(carried(net, k, ohms, f), s, t) == drop_of(f, s, t),
{
    let cut = divided(net, k, ohms, nodes);
    let g = carried(net, k, ohms, f);
    assert(0 <= net[k].a < nodes && 0 <= net[k].b < nodes);
    assert forall|j: int| 0 <= j < cut.len() implies 0 <= (#[trigger] cut[j]).a < nodes + 1 && 0
        <= cut[j].b < nodes + 1 && cut[j].ohms > 0 by {
        if j < net.len() {
            assert(0 <= net[j].a < nodes);
        }
    }
    let (p, r) = (f.amps[k], net[k].ohms);
    assert(fall(net, f.volts, k) == r * p);
    assert((r - ohms) * p == r * p - ohms * p) by (nonlinear_arith);
    assert forall|j: int| 0 <= j < cut.len() implies #[trigger] fall(cut, g.volts, j) == cut[j].ohms
        * g.amps[j] by {
        if j < net.len() {
            assert(0 <= net[j].a < nodes && 0 <= net[j].b < nodes);
            assert(fall(net, f.volts, j) == net[j].ohms * f.amps[j]);
        }
    }
    assert forall|node: int| 0 <= node < nodes + 1 implies #[trigger] leaving(
        cut,
        g.amps,
        node,
        cut.len(),
    ) == entering(g.current, s, t, node) by {
        lemma_leaving_divided(net, nodes, k, ohms, f, node, net.len());
        assert(cut[net.len() as int] == (Resistor { a: nodes, b: net[k].b, ohms: r - ohms }));
        if node < nodes {
            assert(leaving(net, f.amps, node, net.len()) == entering(f.current, s, t, node));
        }
    }
}

/// Cutting a resistor in two leaves every effective resistance unchanged: a flow of
/// the one network and a flow of the other drop alike for each unit of their current.
pub proof fn lemma_cutting_a_resistor_changes_nothing(
    net: Seq<Resistor>,
    nodes: int,
    k: int,
    ohms: int,
    s: int,
    t: int,
    f: Flow,
    g: Flow,
)
    requires
        network(net, nodes),
        0 <= k < net.len(),
        0 < ohms < net[k].ohms,
        flows(net, nodes, s, t, f),
        flows(divided(net, k, ohms, nodes), nodes + 1, s, t, g),
    ensures
        drop_of(f, s, t) * g.current == drop_of(g, s, t) * f.current,
{
    lemma_carried(net, nodes, k, ohms, s, t, f);
    lemma_resistance_is_one_value(
        divided(net, k, ohms, nodes),
        nodes + 1,
        s,
        t,
        carried(net, k, ohms, f),
        g,
    );
}

/// A potential that falls only the way a flow's own does, and is alike at its two
/// ends, falls over no resistor.
proof fn lemma_flat(
    net: Seq<Resistor>,
    nodes: int,
    s: int,
    t: int,
    f: Flow,
    z: Seq<int>,
    n: nat,
)
    requires
        network(net, nodes),
        flows(net, nodes, s, t, f),
        z.len() == nodes,
        forall|k: int|
            0 <= k < net.len() ==> {
                ||| #[trigger] fall(net, z, k) == 0
                ||| fall(net, z, k) > 0 && fall(net, f.volts, k) > 0
                ||| fall(net, z, k) < 0 && fall(net, f.volts, k) < 0
            },
        n <= net.len(),
    ensures
        work(net, f.amps, z, n) >= 0,
        work(net, f.amps, z, n) == 0 ==> forall|k: int| 0 <= k < n ==> #[trigger] fall(net, z, k)
            == 0,
    decreases n,
{
    if n > 0 {
        lemma_flat(net, nodes, s, t, f, z, (n - 1) as nat);
        let k = n - 1;
        let (p, r, d) = (f.amps[k], net[k].ohms, fall(net, z, k));
        assert(fall(net, f.volts, k) == r * p);
        assert(r * p > 0 ==> p > 0) by (nonlinear_arith)
            requires
                r > 0,
        ;
        assert(r * p < 0 ==> p < 0) by (nonlinear_arith)
            requires
                r > 0,
        ;
        assert(d == 0 ==> p * d == 0) by (nonlinear_arith);
        assert((d > 0 && p > 0) || (d < 0 && p < 0) ==> p * d > 0) by (nonlinear_arith);
    }
}

/// A potential that falls over no resistor is alike at the ends of every flow.
proof fn lemma_flat_work(net: Seq<Resistor>, amps: Seq<int>, z: Seq<int>, n: nat)
    requires
        forall|k: int| 0 <= k < n ==> #[trigger] fall(net, z, k) == 0,
    ensures
        work(net, amps, z, n) == 0,
    decreases n,
{
    if n > 0 {
        lemma_flat_work(net, amps, z, (n - 1) as nat);
        assert(fall(net, z, n - 1) == 0);
        let p = amps[n - 1];
        assert(p * 0 == 0);
    }
}

/// Where `z` is flat between a flow's ends, it is so between the ends of every flow.
proof fn lemma_flat_everywhere(
    net: Seq<Resistor>,
    nodes: int,
    s: int,
    t: int,
    f: Flow,
    u: int,
    v: int,
    g: Flow,
    z: Seq<int>,
)
    requires
        network(net, nodes),
        flows(net, nodes, s, t, f),
        flows(net, nodes, u, v, g),
        z.len() == nodes,
        forall|k: int|
            0 <= k < net.len() ==> {
                ||| #[trigger] fall(net, z, k) == 0
                ||| fall(net, z, k) > 0 && fall(net, f.volts, k) > 0
                ||| fall(net, z, k) < 0 && fall(net, f.volts, k) < 0
            },
        z[s] == z[t],
    ensures
        z[u] == z[v],
{
    lemma_work(net, f, s, t, z);
    let i = f.current;
    assert(i * (z[s] - z[t]) == 0) by (nonlinear_arith)
        requires
            z[s] == z[t],
    ;
    lemma_flat(net, nodes, s, t, f, z, net.len());
    lemma_flat_work(net, g.amps, z, net.len());
    lemma_work(net, g, u, v, z);
    let (j, d) = (g.current, z[u] - z[v]);
    assert(d == 0) by (nonlinear_arith)
        requires
            j * d == 0,
            j > 0,
    ;
}

/// No node that a flow to or from one of its ends reaches is beyond the ends of a
/// flow: the potential is nowhere below where the current leaves, nor above where it
/// enters.
proof fn lemma_between(
    net: Seq<Resistor>,
    nodes: int,
    s: int,
    t: int,
    f: Flow,
    u: int,
    v: int,
    g: Flow,
)
    requires
        network(net, nodes),
        flows(net, nodes, s, t, f),
        flows(net, nodes, u, v, g),
    ensures
        u == t || v == t ==> f.volts[u] >= f.volts[t] && f.volts[v] >= f.volts[t],
        u == s || v == s ==> f.volts[u] <= f.volts[s] && f.volts[v] <= f.volts[s],
{
    let x = f.volts;
    lemma_resistance_is_positive(net, nodes, s, t, f);
    let low = Seq::new(nodes as nat, |n: int| if x[n] < x[t] { x[n] - x[t] } else { 0 });
    let high = Seq::new(nodes as nat, |n: int| if x[n] > x[s] { x[n] - x[s] } else { 0 });
    assert forall|k: int| 0 <= k < net.len() implies ({
        ||| #[trigger] fall(net, low, k) == 0
        ||| fall(net, low, k) > 0 && fall(net, x, k) > 0
        ||| fall(net, low, k) < 0 && fall(net, x, k) < 0
    }) by {
        assert(0 <= net[k].a < nodes && 0 <= net[k].b < nodes);
    }
    assert forall|k: int| 0 <= k < net.len() implies ({
        ||| #[trigger] fall(net, high, k) == 0
        ||| fall(net, high, k) > 0 && fall(net, x, k) > 0
        ||| fall(net, high, k) < 0 && fall(net, x, k) < 0
    }) by {
        assert(0 <= net[k].a < nodes && 0 <= net[k].b < nodes);
    }
    lemma_flat_everywhere(net, nodes, s, t, f, u, v, g, low);
    lemma_flat_everywhere(net, nodes, s, t, f, u, v, g, high);
}

/// Two flows that meet, joined into one: the first times the second's current, and the
/// second times the first's.
pub open spec fn joined(f: Flow, g: Flow) -> Flow {
    Flow {
        amps: Seq::new(f.amps.len(), |k: int| g.current * f.amps[k] + f.current * g.amps[k]),
        volts: Seq::new(f.volts.len(), |n: int| g.current * f.volts[n] + f.current * g.volts[n]),
        current: f.current * g.current,
    }
}

proof fn lemma_leaving_joined(net: Seq<Resistor>, f: Flow, g: Flow, node: int, n: nat)
    requires
        n <= f.amps.len(),
        f.amps.len() == g.amps.len(),
    ensures
        leaving(net, joined(f, g).amps, node, n) == g.current * leaving(net, f.amps, node, n)
            + f.current * leaving(net, g.amps, node, n),
    decreases n,
{
    if n == 0 {
        assert(g.current * 0 == 0 && f.current * 0 == 0);
    } else {
        lemma_leaving_joined(net, f, g, node, (n - 1) as nat);
        let (i, j) = (f.current, g.current);
        let (p, q) = (f.amps[n - 1], g.amps[n - 1]);
        let (a, b) = (
            leaving(net, f.amps, node, (n - 1) as nat),
            leaving(net, g.amps, node, (n - 1) as nat),
        );
        let (u, v) = (share(net[n - 1], p, node), share(net[n - 1], q, node));
        assert(j * (a + u) == j * a + j * u && i * (b + v) == i * b + i * v) by (nonlinear_arith);
        assert(j * 0 == 0 && i * 0 == 0 && j * (p - p) == 0 && i * (q - q) == 0 && j * (0 - p) == -(j
            * p) && i * (0 - q) == -(i * q) && j * (p - 0) == j * p && i * (q - 0) == i * q)
            by (nonlinear_arith);
    }
}

/// Two flows that meet join into one.
pub proof fn lemma_joined(
    net: Seq<Resistor>,
    nodes: int,
    s: int,
    t: int,
    u: int,
    f: Flow,
    g: Flow,
)
    requires
        network(net, nodes),
        flows(net, nodes, s, t, f),
        flows(net, nodes, t, u, g),
    ensures
        flows(net, nodes, s, u, joined(f, g)),
{
    let h = joined(f, g);
    let (i, j) = (f.current, g.current);
    assert(i * j > 0) by (nonlinear_arith)
        requires
            i > 0,
            j > 0,
    ;
    assert forall|k: int| 0 <= k < net.len() implies #[trigger] fall(net, h.volts, k) == net[k].ohms
        * h.amps[k] by {
        assert(0 <= net[k].a < nodes && 0 <= net[k].b < nodes);
        let (r, p, q) = (net[k].ohms, f.amps[k], g.amps[k]);
        let (a, b) = (f.volts[net[k].a], f.volts[net[k].b]);
        let (c, d) = (g.volts[net[k].a], g.volts[net[k].b]);
        assert(fall(net, f.volts, k) == r * p && fall(net, g.volts, k) == r * q);
        assert((j * a + i * c) - (j * b + i * d) == j * (a - b) + i * (c - d)) by (nonlinear_arith);
        assert(j * (r * p) + i * (r * q) == r * (j * p + i * q)) by (nonlinear_arith);
    }
    assert forall|node: int| 0 <= node < nodes implies #[trigger] leaving(
        net,
        h.amps,
        node,
        net.len(),
    ) == entering(h.current, s, u, node) by {
        lemma_leaving_joined(net, f, g, node, net.len());
        assert(leaving(net, f.amps, node, net.len()) == entering(i, s, t, node));
        assert(leaving(net, g.amps, node, net.len()) == entering(j, t, u, node));
        assert(j * 0 == 0 && i * 0 == 0 && j * (i - i) == 0 && i * (j - j) == 0 && j * (0 - i) == -(i
            * j) && i * (0 - j) == -(i * j) && j * (i - 0) == i * j && i * (j - 0) == i * j)
            by (nonlinear_arith);
    }
}

/// Effective resistances obey the triangle inequality: from `s` to `u` is no more than
/// from `s` to `t` and on from `t` to `u`.
pub proof fn lemma_resistances_obey_the_triangle(
    net: Seq<Resistor>,
    nodes: int,
    s: int,
    t: int,
    u: int,
    f: Flow,
    g: Flow,
    h: Flow,
)
    requires
        network(net, nodes),
        flows(net, nodes, s, t, f),
        flows(net, nodes, t, u, g),
        flows(net, nodes, s, u, h),
    ensures
        drop_of(h, s, u) * (f.current * g.current) <= (drop_of(f, s, t) * g.current + drop_of(
            g,
            t,
            u,
        ) * f.current) * h.current,
{
    let c = joined(f, g);
    let (i, j, k) = (f.current, g.current, h.current);
    lemma_joined(net, nodes, s, t, u, f, g);
    lemma_resistance_is_one_value(net, nodes, s, u, c, h);
    lemma_between(net, nodes, s, t, f, t, u, g);
    lemma_between(net, nodes, t, u, g, s, t, f);
    let (a, b) = (f.volts[s] - f.volts[u], g.volts[s] - g.volts[u]);
    let (d, e) = (drop_of(f, s, t), drop_of(g, t, u));
    let (fs, fu, gs, gu) = (f.volts[s], f.volts[u], g.volts[s], g.volts[u]);
    assert((j * fs + i * gs) - (j * fu + i * gu) == j * a + i * b) by (nonlinear_arith)
        requires
            a == fs - fu,
            b == gs - gu,
    ;
    assert(j * a + i * b <= d * j + e * i) by (nonlinear_arith)
        requires
            a <= d,
            b <= e,
            i > 0,
            j > 0,
    ;
    let (x, y) = (j * a + i * b, d * j + e * i);
    assert(x * k <= y * k) by (nonlinear_arith)
        requires
            x <= y,
            k > 0,
    ;
}

} // verus!
