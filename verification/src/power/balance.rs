//! What balancing the currents decides, in exact arithmetic.
use crate::power::conduction::{
    fall, leaving, lemma_by_parts, network, spread, work, Resistor,
};
use crate::power::joining::{lemma_leaving_mix, linked};
use vstd::prelude::*;

verus! {

/// Whether currents and potentials balance a network whose nodes are held or loaded:
/// over each resistor the potential falls by its resistance times its current, and
/// what leaves a node that is not held, through the resistors and into its load, is
/// nothing.
pub open spec fn balances(
    net: Seq<Resistor>,
    nodes: int,
    held: Set<int>,
    load: Seq<int>,
    amps: Seq<int>,
    volts: Seq<int>,
) -> bool {
    &&& amps.len() == net.len()
    &&& volts.len() == nodes
    &&& forall|k: int|
        0 <= k < net.len() ==> #[trigger] fall(net, volts, k) == net[k].ohms * amps[k]
    &&& forall|node: int|
        0 <= node < nodes && !held.contains(node) ==> #[trigger] leaving(
            net,
            amps,
            node,
            net.len(),
        ) + load[node] == 0
}

/// A current that leaves no node where a potential stands does no work over it.
proof fn lemma_no_spread(net: Seq<Resistor>, amps: Seq<int>, x: Seq<int>, n: nat, m: nat)
    requires
        m <= x.len(),
        forall|node: int|
            0 <= node < x.len() ==> #[trigger] leaving(net, amps, node, n) == 0 || x[node] == 0,
    ensures
        spread(net, amps, x, n, m) == 0,
    decreases m,
{
    if m > 0 {
        lemma_no_spread(net, amps, x, n, (m - 1) as nat);
        let (a, b) = (leaving(net, amps, m - 1, n), x[m - 1]);
        assert(a * b == 0) by (nonlinear_arith)
            requires
                a == 0 || b == 0,
        ;
    }
}

/// A current's work over its own potential is not negative, and none is left where the
/// potential falls.
proof fn lemma_own_work(net: Seq<Resistor>, nodes: int, amps: Seq<int>, x: Seq<int>, n: nat)
    requires
        network(net, nodes),
        n <= net.len(),
        forall|k: int| 0 <= k < net.len() ==> #[trigger] fall(net, x, k) == net[k].ohms * amps[k],
    ensures
        work(net, amps, x, n) >= 0,
        work(net, amps, x, n) == 0 ==> forall|k: int| 0 <= k < n ==> #[trigger] fall(net, x, k)
            == 0,
    decreases n,
{
    if n > 0 {
        lemma_own_work(net, nodes, amps, x, (n - 1) as nat);
        let k = n - 1;
        let (p, r) = (amps[k], net[k].ohms);
        assert(fall(net, x, k) == r * p);
        assert(0 <= net[k].a < nodes);
        assert(p * (r * p) >= 0 && (p != 0 ==> p * (r * p) > 0)) by (nonlinear_arith)
            requires
                r > 0,
        ;
        assert(r * 0 == 0);
    }
}

/// A potential that falls over no resistor is the same wherever resistors lead.
proof fn lemma_level(net: Seq<Resistor>, x: Seq<int>, n: nat, s: int, t: int)
    requires
        n <= net.len(),
        forall|k: int| 0 <= k < net.len() ==> #[trigger] fall(net, x, k) == 0,
        linked(net, n, s, t),
    ensures
        x[s] == x[t],
    decreases n,
{
    if n > 0 {
        let m = (n - 1) as nat;
        let e = net[n - 1];
        assert(fall(net, x, n - 1) == 0);
        if linked(net, m, s, t) {
            lemma_level(net, x, m, s, t);
        } else if linked(net, m, s, e.a) && linked(net, m, e.b, t) {
            lemma_level(net, x, m, s, e.a);
            lemma_level(net, x, m, e.b, t);
        } else {
            lemma_level(net, x, m, s, e.b);
            lemma_level(net, x, m, e.a, t);
        }
    }
}

/// Balance decides the potentials: with the same loads, and the held nodes at the same
/// potentials, two solutions agree at every node resistors join to a held one.
pub proof fn lemma_balance_decides_the_potentials(
    net: Seq<Resistor>,
    nodes: int,
    held: Set<int>,
    load: Seq<int>,
    p: Seq<int>,
    x: Seq<int>,
    q: Seq<int>,
    y: Seq<int>,
    s: int,
    pad: int,
)
    requires
        network(net, nodes),
        balances(net, nodes, held, load, p, x),
        balances(net, nodes, held, load, q, y),
        forall|node: int|
            0 <= node < nodes && held.contains(node) ==> #[trigger] x[node] == y[node],
        0 <= s < nodes,
        0 <= pad < nodes,
        held.contains(pad),
        linked(net, net.len(), s, pad),
    ensures
        x[s] == y[s],
{
    let n = net.len();
    let d = Seq::new(n, |k: int| 1 * p[k] - 1 * q[k]);
    let z = Seq::new(nodes as nat, |node: int| x[node] - y[node]);
    assert forall|k: int| 0 <= k < net.len() implies #[trigger] fall(net, z, k) == net[k].ohms
        * d[k] by {
        assert(0 <= net[k].a < nodes && 0 <= net[k].b < nodes);
        let (r, a, b) = (net[k].ohms, p[k], q[k]);
        assert(fall(net, x, k) == r * a && fall(net, y, k) == r * b);
        assert(r * (a - b) == r * a - r * b) by (nonlinear_arith);
    }
    assert forall|node: int| 0 <= node < z.len() implies #[trigger] leaving(net, d, node, n) == 0
        || z[node] == 0 by {
        if held.contains(node) {
            assert(x[node] == y[node]);
        } else {
            lemma_leaving_mix(net, p, q, d, 1, 1, node, n);
            assert(leaving(net, p, node, n) + load[node] == 0);
            assert(leaving(net, q, node, n) + load[node] == 0);
        }
    }
    lemma_by_parts(net, d, z, n);
    lemma_no_spread(net, d, z, n, z.len());
    lemma_own_work(net, nodes, d, z, n);
    lemma_level(net, z, n, s, pad);
    assert(x[pad] == y[pad]);
}

} // verus!
