//! A flow runs between any two nodes that resistors join.
use crate::power::conduction::{
    drop_of, entering, fall, flows, joined, leaving, lemma_joined, lemma_resistance_is_positive,
    network, share, Flow, Resistor,
};
use vstd::prelude::*;

verus! {

/// Whether the first `n` resistors join two nodes: they are one node, or the earlier
/// resistors join them, or the last one joins what the earlier ones join to each.
pub open spec fn linked(net: Seq<Resistor>, n: nat, s: int, t: int) -> bool
    decreases n,
{
    if n == 0 {
        s == t
    } else {
        let m = (n - 1) as nat;
        let e = net[n - 1];
        ||| linked(net, m, s, t)
        ||| linked(net, m, s, e.a) && linked(net, m, e.b, t)
        ||| linked(net, m, s, e.b) && linked(net, m, e.a, t)
    }
}

proof fn lemma_linked_self(net: Seq<Resistor>, n: nat, s: int)
    ensures
        linked(net, n, s, s),
    decreases n,
{
    if n > 0 {
        lemma_linked_self(net, (n - 1) as nat, s);
    }
}

proof fn lemma_linked_back(net: Seq<Resistor>, n: nat, s: int, t: int)
    ensures
        linked(net, n, s, t) == linked(net, n, t, s),
    decreases n,
{
    if n > 0 {
        let m = (n - 1) as nat;
        let e = net[n - 1];
        lemma_linked_back(net, m, s, t);
        lemma_linked_back(net, m, s, e.a);
        lemma_linked_back(net, m, s, e.b);
        lemma_linked_back(net, m, t, e.a);
        lemma_linked_back(net, m, t, e.b);
    }
}

proof fn lemma_linked_on(net: Seq<Resistor>, n: nat, s: int, t: int, u: int)
    requires
        linked(net, n, s, t),
        linked(net, n, t, u),
    ensures
        linked(net, n, s, u),
    decreases n,
{
    if n > 0 {
        let m = (n - 1) as nat;
        let e = net[n - 1];
        // Each of the two is a way within the earlier resistors, or one over the last.
        if linked(net, m, s, t) && linked(net, m, t, u) {
            lemma_linked_on(net, m, s, t, u);
        } else if linked(net, m, s, t) {
            if linked(net, m, t, e.a) && linked(net, m, e.b, u) {
                lemma_linked_on(net, m, s, t, e.a);
            } else {
                lemma_linked_on(net, m, s, t, e.b);
            }
        } else if linked(net, m, t, u) {
            if linked(net, m, s, e.a) && linked(net, m, e.b, t) {
                lemma_linked_on(net, m, e.b, t, u);
            } else {
                lemma_linked_on(net, m, e.a, t, u);
            }
        } else if linked(net, m, s, e.a) && linked(net, m, e.b, t) {
            if linked(net, m, t, e.a) && linked(net, m, e.b, u) {
            } else {
                lemma_linked_on(net, m, s, e.a, u);
            }
        } else {
            if linked(net, m, t, e.a) && linked(net, m, e.b, u) {
                lemma_linked_on(net, m, s, e.b, u);
            } else {
            }
        }
    }
}

/// A resistor among the first `n` joins its ends.
proof fn lemma_linked_ends(net: Seq<Resistor>, n: nat, k: int)
    requires
        0 <= k < n <= net.len(),
    ensures
        linked(net, n, net[k].a, net[k].b),
    decreases n,
{
    let m = (n - 1) as nat;
    if k < n - 1 {
        lemma_linked_ends(net, m, k);
    } else {
        lemma_linked_self(net, m, net[k].a);
        lemma_linked_self(net, m, net[k].b);
    }
}

/// What the first `n` resistors carry does not depend on the rest.
proof fn lemma_leaving_prefix(
    net: Seq<Resistor>,
    other: Seq<Resistor>,
    amps: Seq<int>,
    more: Seq<int>,
    node: int,
    n: nat,
)
    requires
        forall|k: int| 0 <= k < n ==> #[trigger] net[k] == other[k],
        forall|k: int| 0 <= k < n ==> #[trigger] amps[k] == more[k],
    ensures
        leaving(net, amps, node, n) == leaving(other, more, node, n),
    decreases n,
{
    if n > 0 {
        lemma_leaving_prefix(net, other, amps, more, node, (n - 1) as nat);
        assert(net[n - 1] == other[n - 1]);
        assert(amps[n - 1] == more[n - 1]);
    }
}

proof fn lemma_leaving_none(net: Seq<Resistor>, amps: Seq<int>, node: int, n: nat)
    requires
        forall|k: int| 0 <= k < n ==> #[trigger] amps[k] == 0,
    ensures
        leaving(net, amps, node, n) == 0,
    decreases n,
{
    if n > 0 {
        lemma_leaving_none(net, amps, node, (n - 1) as nat);
        assert(amps[n - 1] == 0);
    }
}

/// The flow that stands still.
proof fn lemma_still_flow(net: Seq<Resistor>, nodes: int, s: int) -> (f: Flow)
    requires
        network(net, nodes),
        0 <= s < nodes,
    ensures
        flows(net, nodes, s, s, f),
{
    let f = Flow {
        amps: Seq::new(net.len(), |k: int| 0),
        volts: Seq::new(nodes as nat, |n: int| 0),
        current: 1,
    };
    assert forall|k: int| 0 <= k < net.len() implies #[trigger] fall(net, f.volts, k) == net[k].ohms
        * f.amps[k] by {
        assert(0 <= net[k].a < nodes && 0 <= net[k].b < nodes);
        let r = net[k].ohms;
        assert(r * 0 == 0);
    }
    assert forall|node: int| 0 <= node < nodes implies #[trigger] leaving(
        net,
        f.amps,
        node,
        net.len(),
    ) == entering(f.current, s, s, node) by {
        lemma_leaving_none(net, f.amps, node, net.len());
    }
    f
}

/// Leaving, of one flow times a number less another times a number.
pub proof fn lemma_leaving_mix(
    net: Seq<Resistor>,
    p: Seq<int>,
    q: Seq<int>,
    mix: Seq<int>,
    x: int,
    y: int,
    node: int,
    n: nat,
)
    requires
        forall|k: int| 0 <= k < n ==> #[trigger] mix[k] == x * p[k] - y * q[k],
    ensures
        leaving(net, mix, node, n) == x * leaving(net, p, node, n) - y * leaving(net, q, node, n),
    decreases n,
{
    if n == 0 {
        assert(x * 0 == 0 && y * 0 == 0);
    } else {
        lemma_leaving_mix(net, p, q, mix, x, y, node, (n - 1) as nat);
        let (a, b) = (
            leaving(net, p, node, (n - 1) as nat),
            leaving(net, q, node, (n - 1) as nat),
        );
        let (c, d) = (p[n - 1], q[n - 1]);
        assert(mix[n - 1] == x * c - y * d);
        let (u, v) = (share(net[n - 1], c, node), share(net[n - 1], d, node));
        assert(x * (a + u) == x * a + x * u && y * (b + v) == y * b + y * v) by (nonlinear_arith);
        assert(x * 0 == 0 && y * 0 == 0 && x * (c - c) == 0 && y * (d - d) == 0 && x * (0 - c) == -(x
            * c) && y * (0 - d) == -(y * d) && x * (c - 0) == x * c && y * (d - 0) == y * d)
            by (nonlinear_arith);
    }
}

/// A resistor added between two nodes already joined: a flow before gives one after,
/// part of it turned aside through the new resistor.
proof fn lemma_turned(
    net: Seq<Resistor>,
    nodes: int,
    e: Resistor,
    s: int,
    t: int,
    f: Flow,
    g: Flow,
) -> (h: Flow)
    requires
        network(net.push(e), nodes),
        flows(net, nodes, s, t, f),
        flows(net, nodes, e.a, e.b, g),
    ensures
        flows(net.push(e), nodes, s, t, h),
{
    let all = net.push(e);
    assert(all[net.len() as int] == e);
    assert forall|k: int| 0 <= k < net.len() implies 0 <= (#[trigger] net[k]).a < nodes && 0
        <= net[k].b < nodes && net[k].ohms > 0 by {
        assert(all[k] == net[k]);
    }
    lemma_resistance_is_positive(net, nodes, e.a, e.b, g);
    let (r, i, d) = (e.ohms, g.current, drop_of(g, e.a, e.b));
    let x = f.volts[e.a] - f.volts[e.b];
    let y = r * i + d;
    assert(y > 0) by (nonlinear_arith)
        requires
            y == r * i + d,
            r > 0,
            i > 0,
            d >= 0,
    ;
    let mixed = Seq::new(net.len(), |k: int| y * f.amps[k] - x * g.amps[k]);
    let h = Flow {
        amps: mixed.push(x * i),
        volts: Seq::new(nodes as nat, |n: int| y * f.volts[n] - x * g.volts[n]),
        current: y * f.current,
    };
    let c = f.current;
    assert(y * c > 0) by (nonlinear_arith)
        requires
            y > 0,
            c > 0,
    ;
    assert forall|k: int| 0 <= k < all.len() implies #[trigger] fall(all, h.volts, k) == all[k].ohms
        * h.amps[k] by {
        assert(0 <= all[k].a < nodes && 0 <= all[k].b < nodes);
        let (fa, fb) = (f.volts[all[k].a], f.volts[all[k].b]);
        let (ga, gb) = (g.volts[all[k].a], g.volts[all[k].b]);
        assert((y * fa - x * ga) - (y * fb - x * gb) == y * (fa - fb) - x * (ga - gb))
            by (nonlinear_arith);
        if k < net.len() {
            let (o, p, q) = (net[k].ohms, f.amps[k], g.amps[k]);
            assert(all[k] == net[k]);
            assert(fall(net, f.volts, k) == o * p && fall(net, g.volts, k) == o * q);
            assert(y * (o * p) - x * (o * q) == o * (y * p - x * q)) by (nonlinear_arith);
        } else {
            assert(y * x - x * d == r * (x * i)) by (nonlinear_arith)
                requires
                    y == r * i + d,
            ;
        }
    }
    assert forall|node: int| 0 <= node < nodes implies #[trigger] leaving(
        all,
        h.amps,
        node,
        all.len(),
    ) == entering(h.current, s, t, node) by {
        lemma_leaving_prefix(all, net, h.amps, mixed, node, net.len());
        lemma_leaving_mix(net, f.amps, g.amps, mixed, y, x, node, net.len());
        assert(leaving(net, f.amps, node, net.len()) == entering(c, s, t, node));
        assert(leaving(net, g.amps, node, net.len()) == entering(i, e.a, e.b, node));
        assert(h.amps[net.len() as int] == x * i);
        assert(y * 0 == 0 && x * 0 == 0 && y * (c - c) == 0 && x * (i - i) == 0 && y * (0 - c) == -(y
            * c) && x * (0 - i) == -(x * i) && y * (c - 0) == y * c && x * (i - 0) == x * i)
            by (nonlinear_arith);
    }
    h
}

/// What holds of a resistor added between two nodes not yet joined: the nodes joined
/// to its far end are a part of their own.
spec fn parts(net: Seq<Resistor>, nodes: int, e: Resistor, far: spec_fn(int) -> bool) -> bool {
    &&& network(net.push(e), nodes)
    &&& !far(e.a)
    &&& far(e.b)
    &&& forall|k: int| 0 <= k < net.len() ==> far((#[trigger] net[k]).a) == far(net[k].b)
}

/// A flow before gives one after, with nothing through the new resistor: the far part
/// is raised to the level of the near one.
proof fn lemma_raised(
    net: Seq<Resistor>,
    nodes: int,
    e: Resistor,
    far: spec_fn(int) -> bool,
    s: int,
    t: int,
    f: Flow,
) -> (h: Flow)
    requires
        parts(net, nodes, e, far),
        flows(net, nodes, s, t, f),
    ensures
        flows(net.push(e), nodes, s, t, h),
{
    let all = net.push(e);
    assert(all[net.len() as int] == e);
    let lift = f.volts[e.a] - f.volts[e.b];
    let h = Flow {
        amps: f.amps.push(0),
        volts: Seq::new(nodes as nat, |n: int| f.volts[n] + if far(n) { lift } else { 0 }),
        current: f.current,
    };
    assert forall|k: int| 0 <= k < all.len() implies #[trigger] fall(all, h.volts, k) == all[k].ohms
        * h.amps[k] by {
        assert(0 <= all[k].a < nodes && 0 <= all[k].b < nodes);
        if k < net.len() {
            assert(all[k] == net[k]);
            assert(far(net[k].a) == far(net[k].b));
            assert(fall(net, f.volts, k) == net[k].ohms * f.amps[k]);
        } else {
            let r = e.ohms;
            assert(r * 0 == 0);
        }
    }
    assert forall|node: int| 0 <= node < nodes implies #[trigger] leaving(
        all,
        h.amps,
        node,
        all.len(),
    ) == entering(h.current, s, t, node) by {
        lemma_leaving_prefix(all, net, h.amps, f.amps, node, net.len());
        assert(leaving(net, f.amps, node, net.len()) == entering(f.current, s, t, node));
        assert(h.amps[net.len() as int] == 0);
    }
    h
}

/// A flow through the new resistor alone, one way or the other.
proof fn lemma_bridged(
    net: Seq<Resistor>,
    nodes: int,
    e: Resistor,
    far: spec_fn(int) -> bool,
    back: bool,
) -> (h: Flow)
    requires
        parts(net, nodes, e, far),
    ensures
        !back ==> flows(net.push(e), nodes, e.a, e.b, h),
        back ==> flows(net.push(e), nodes, e.b, e.a, h),
{
    let all = net.push(e);
    assert(all[net.len() as int] == e);
    assert(0 <= all[net.len() as int].a < nodes);
    let way: int = if back { -1 } else { 1 };
    let r = e.ohms;
    let h = Flow {
        amps: Seq::new(net.len(), |k: int| 0int).push(way),
        volts: Seq::new(nodes as nat, |n: int| if far(n) { -(r * way) } else { 0 }),
        current: 1,
    };
    assert forall|k: int| 0 <= k < all.len() implies #[trigger] fall(all, h.volts, k) == all[k].ohms
        * h.amps[k] by {
        assert(0 <= all[k].a < nodes && 0 <= all[k].b < nodes);
        if k < net.len() {
            assert(all[k] == net[k]);
            assert(far(net[k].a) == far(net[k].b));
            let o = net[k].ohms;
            assert(o * 0 == 0);
        }
    }
    let (s, t) = if back { (e.b, e.a) } else { (e.a, e.b) };
    assert forall|node: int| 0 <= node < nodes implies #[trigger] leaving(
        all,
        h.amps,
        node,
        all.len(),
    ) == entering(h.current, s, t, node) by {
        lemma_leaving_none(all, h.amps, node, net.len());
        assert(h.amps[net.len() as int] == way);
    }
    h
}

/// Between two nodes that resistors join there is a flow, and so an effective
/// resistance.
pub proof fn lemma_joined_nodes_have_a_resistance(
    net: Seq<Resistor>,
    nodes: int,
    s: int,
    t: int,
) -> (f: Flow)
    requires
        network(net, nodes),
        0 <= s < nodes,
        0 <= t < nodes,
        linked(net, net.len(), s, t),
    ensures
        flows(net, nodes, s, t, f),
{
    assert(net.take(net.len() as int) =~= net);
    lemma_flow_exists(net, nodes, net.len(), s, t)
}

proof fn lemma_flow_exists(net: Seq<Resistor>, nodes: int, n: nat, s: int, t: int) -> (f: Flow)
    requires
        network(net, nodes),
        n <= net.len(),
        0 <= s < nodes,
        0 <= t < nodes,
        linked(net, n, s, t),
    ensures
        flows(net.take(n as int), nodes, s, t, f),
    decreases n,
{
    let now = net.take(n as int);
    assert forall|k: int| 0 <= k < now.len() implies 0 <= (#[trigger] now[k]).a < nodes && 0
        <= now[k].b < nodes && now[k].ohms > 0 by {
        assert(now[k] == net[k]);
    }
    if n == 0 {
        lemma_still_flow(now, nodes, s)
    } else {
        let m = (n - 1) as nat;
        let e = net[n - 1];
        let before = net.take(m as int);
        assert(now =~= before.push(e));
        assert(0 <= e.a < nodes && 0 <= e.b < nodes);
        if linked(net, m, e.a, e.b) {
            lemma_linked_back(net, m, e.a, e.b);
            if !linked(net, m, s, t) {
                if linked(net, m, s, e.a) && linked(net, m, e.b, t) {
                    lemma_linked_on(net, m, s, e.a, e.b);
                    lemma_linked_on(net, m, s, e.b, t);
                } else {
                    lemma_linked_on(net, m, s, e.b, e.a);
                    lemma_linked_on(net, m, s, e.a, t);
                }
            }
            let f = lemma_flow_exists(net, nodes, m, s, t);
            let g = lemma_flow_exists(net, nodes, m, e.a, e.b);
            lemma_turned(before, nodes, e, s, t, f, g)
        } else {
            let far = |x: int| linked(net, m, e.b, x);
            lemma_linked_back(net, m, e.a, e.b);
            lemma_linked_self(net, m, e.b);
            assert forall|k: int| 0 <= k < before.len() implies far((#[trigger] before[k]).a) == far(
                before[k].b,
            ) by {
                assert(before[k] == net[k]);
                let (a, b) = (net[k].a, net[k].b);
                lemma_linked_ends(net, m, k);
                lemma_linked_back(net, m, a, b);
                if far(a) {
                    lemma_linked_on(net, m, e.b, a, b);
                }
                if far(b) {
                    lemma_linked_on(net, m, e.b, b, a);
                }
            }
            assert(parts(before, nodes, e, far));
            if linked(net, m, s, t) {
                let f = lemma_flow_exists(net, nodes, m, s, t);
                lemma_raised(before, nodes, e, far, s, t, f)
            } else if linked(net, m, s, e.a) && linked(net, m, e.b, t) {
                let f = lemma_flow_exists(net, nodes, m, s, e.a);
                let g = lemma_flow_exists(net, nodes, m, e.b, t);
                let f = lemma_raised(before, nodes, e, far, s, e.a, f);
                let g = lemma_raised(before, nodes, e, far, e.b, t, g);
                let over = lemma_bridged(before, nodes, e, far, false);
                lemma_joined(now, nodes, s, e.a, e.b, f, over);
                lemma_joined(now, nodes, s, e.b, t, joined(f, over), g);
                joined(joined(f, over), g)
            } else {
                let f = lemma_flow_exists(net, nodes, m, s, e.b);
                let g = lemma_flow_exists(net, nodes, m, e.a, t);
                let f = lemma_raised(before, nodes, e, far, s, e.b, f);
                let g = lemma_raised(before, nodes, e, far, e.a, t, g);
                let over = lemma_bridged(before, nodes, e, far, true);
                lemma_joined(now, nodes, s, e.b, e.a, f, over);
                lemma_joined(now, nodes, s, e.a, t, joined(f, over), g);
                joined(joined(f, over), g)
            }
        }
    }
}

} // verus!
