//! A run is fixed by its inputs.
use crate::intent::net_row;
use crate::model::{NetId, StrId};
use crate::number::Number;
use crate::power::sounding::lemma_sounded_once;
use crate::report::{Measurement, Severity};
use crate::rules::electrical::{p2p_found, p2p_results, probed};
use crate::rules::latchup::{esd_latchup_results, key_net, LatchupRow};
use crate::ruleset::{found_of, runs_of, Probed, RuleSet, RunInputs};
use vstd::prelude::*;

verus! {

type Lists = Seq<Option<Vec<(u32, u32, Number)>>>;

/// Probe lists with the same contents.
spec fn same_lists(a: Lists, b: Lists) -> bool {
    &&& a.len() == b.len()
    &&& forall|k: int| 0 <= k < a.len() ==> (#[trigger] a[k] is Some <==> b[k] is Some)
    &&& forall|k: int| 0 <= k < a.len() && (#[trigger] a[k]) is Some ==> (a[k]->0)@ == (b[k]->0)@
}

proof fn lemma_same_probed(a: Lists, b: Lists, n: nat)
    requires
        same_lists(a, b),
        n <= a.len(),
    ensures
        probed(a, n) == probed(b, n),
        probed(a, n) <= n,
        forall|k: int| 0 <= k < probed(a, n) ==> (#[trigger] a[k]) is Some,
    decreases n,
{
    if n > 0 {
        lemma_same_probed(a, b, (n - 1) as nat);
        assert(a[n - 1] is Some <==> b[n - 1] is Some);
    }
}

proof fn lemma_same_found(
    i: RunInputs,
    a: Lists,
    b: Lists,
    n: nat,
    rule: StrId,
    severity: Severity,
    limit: Measurement,
)
    requires
        same_lists(a, b),
        n <= a.len(),
        forall|k: int| 0 <= k < n ==> (#[trigger] a[k]) is Some,
    ensures
        p2p_found(i.design, i.networks, a, n, rule, severity, limit) == p2p_found(
            i.design,
            i.networks,
            b,
            n,
            rule,
            severity,
            limit,
        ),
    decreases n,
{
    if n > 0 {
        lemma_same_found(i, a, b, (n - 1) as nat, rule, severity, limit);
        assert(a[n - 1] is Some);
    }
}

/// Latch-up rows that differ at most in where their probes are kept.
spec fn twins(a: LatchupRow, b: LatchupRow) -> bool {
    &&& a.design == b.design
    &&& a.intent == b.intent
    &&& a.networks == b.networks
    &&& a.table == b.table
    &&& a.row == b.row
    &&& same_lists(a.probes@, b.probes@)
    &&& a.networks.rows() == a.probes@.len()
}

proof fn lemma_same_clamp(a: LatchupRow, b: LatchupRow, d: int)
    requires
        twins(a, b),
    ensures
        a.clamp(d) == b.clamp(d),
{
    let model = a.design.devices.model@[d];
    assert forall|c: int| a.names(model, c) == b.names(model, c) by {}
    if exists|c: int| a.names(model, c) {
        let x = choose|c: int| a.names(model, c);
        let y = choose|c: int| b.names(model, c);
        assert(a.names(model, x));
        assert(b.names(model, x));
        assert(b.names(model, y));
        if x < y {
            assert(b.table.clamp_model@[x] != model);
        } else if y < x {
            assert(a.table.clamp_model@[y] != model);
        }
    }
}

proof fn lemma_same_graph(a: LatchupRow, b: LatchupRow)
    requires
        twins(a, b),
    ensures
        forall|net: u32| #[trigger] a.list(net) == b.list(net),
        forall|net: u32| #[trigger] a.probed(net) == b.probed(net),
        forall|key: u64| #[trigger] a.is_point(key) == b.is_point(key),
        a.joined() == b.joined(),
{
    assert forall|net: u32| #[trigger] a.list(net) == b.list(net) by {
        lemma_row_in_range(a, net);
    }
    assert forall|net: u32| #[trigger] a.probed(net) == b.probed(net) by {
        lemma_row_in_range(a, net);
        assert(a.list(net) == b.list(net));
    }
    assert forall|d: int, s: int, t: int|
        #![trigger a.pair(d, s, t)]
        #![trigger b.pair(d, s, t)]
        a.pair(d, s, t) == b.pair(d, s, t) && a.clamp_edge(d, s, t) == b.clamp_edge(d, s, t) by {
        lemma_same_clamp(a, b, d);
    }
    assert forall|key: u64| #[trigger] a.is_point(key) == b.is_point(key) by {
        if a.is_point(key) {
            let (d, s, t) = choose|d: int, s: int, t: int| #[trigger] a.lands(d, s, t, key);
            assert(a.pair(d, s, t));
            assert(b.lands(d, s, t, key));
        }
        if b.is_point(key) {
            let (d, s, t) = choose|d: int, s: int, t: int| #[trigger] b.lands(d, s, t, key);
            assert(b.pair(d, s, t));
            assert(a.lands(d, s, t, key));
        }
    }
    let (f, g) = (a.joined(), b.joined());
    assert forall|u: u64, v: u64, w: Number| #[trigger] f(u, v, w) == g(u, v, w) by {
        lemma_same_join(a, b, u, v, w);
    }
    assert(f =~= g);
}

/// A net's row, where it has one, is one of the rows.
proof fn lemma_row_in_range(a: LatchupRow, net: u32)
    ensures
        net_row(a.networks.net@, NetId(net)) matches Some(r) ==> 0 <= r < a.networks.rows(),
{
}

proof fn lemma_same_join(a: LatchupRow, b: LatchupRow, u: u64, v: u64, w: Number)
    requires
        twins(a, b),
        forall|net: u32| #[trigger] a.list(net) == b.list(net),
        forall|key: u64| #[trigger] a.is_point(key) == b.is_point(key),
        forall|d: int, s: int, t: int|
            #![trigger a.pair(d, s, t)]
            #![trigger b.pair(d, s, t)]
            a.pair(d, s, t) == b.pair(d, s, t) && a.clamp_edge(d, s, t) == b.clamp_edge(d, s, t),
    ensures
        a.clamp_joins(u, v, w) == b.clamp_joins(u, v, w),
        a.wire_joins(u, v, w) == b.wire_joins(u, v, w),
{
    if a.clamp_joins(u, v, w) {
        let (d, s, t) = choose|d: int, s: int, t: int| #[trigger] a.bridges(d, s, t, u, v, w);
        assert(a.pair(d, s, t));
        assert(b.bridges(d, s, t, u, v, w));
    }
    if b.clamp_joins(u, v, w) {
        let (d, s, t) = choose|d: int, s: int, t: int| #[trigger] b.bridges(d, s, t, u, v, w);
        assert(b.pair(d, s, t));
        assert(a.bridges(d, s, t, u, v, w));
    }
    let net = key_net(u);
    assert(a.list(net) == b.list(net));
    assert(a.is_point(u) == b.is_point(u));
    assert(a.is_point(v) == b.is_point(v));
    if a.wire_joins(u, v, w) {
        let k = choose|k: int| #[trigger] a.wires(net, k, u, v, w);
        assert(b.wires(net, k, u, v, w));
    }
    if b.wire_joins(u, v, w) {
        let k = choose|k: int| #[trigger] b.wires(net, k, u, v, w);
        assert(a.wires(net, k, u, v, w));
    }
}

proof fn lemma_same_pad(a: LatchupRow, b: LatchupRow, p: int)
    requires
        twins(a, b),
    ensures
        a.pad_found(p) == b.pad_found(p),
        a.first_pad(p) == b.first_pad(p),
{
    lemma_same_graph(a, b);
    assert(a.pad_net(p) == b.pad_net(p));
    assert forall|q: int| #[trigger] a.pad_net(q) == b.pad_net(q) by {}
    if a.first_pad(p) {
        assert forall|q: int| b.pad_lo() <= q < p implies #[trigger] b.pad_net(q) != b.pad_net(
            p,
        ) by {
            assert(a.pad_net(q) != a.pad_net(p));
        }
    }
    if b.first_pad(p) {
        assert forall|q: int| a.pad_lo() <= q < p implies #[trigger] a.pad_net(q) != a.pad_net(
            p,
        ) by {
            assert(b.pad_net(q) != b.pad_net(p));
        }
    }
    let net = a.pad_net(p).0;
    assert forall|t: u32| #[trigger] a.seed(net, t) == b.seed(net, t) by {
        let (f, g) = (a.seed(net, t), b.seed(net, t));
        assert forall|u: u64| #[trigger] f(u) == g(u) by {
            assert(a.is_point(u) == b.is_point(u));
            assert(a.list(net) == b.list(net));
        }
        assert(f =~= g);
    }
    assert(a.goal() =~= b.goal());
    assert(a.path(p) == b.path(p));
}

proof fn lemma_same_pads(a: LatchupRow, b: LatchupRow, p: int)
    requires
        twins(a, b),
    ensures
        a.pads_found(p) == b.pads_found(p),
        a.pads_counted(p) == b.pads_counted(p),
    decreases p - a.pad_lo(),
{
    if p > a.pad_lo() {
        lemma_same_pads(a, b, p - 1);
        lemma_same_pad(a, b, p - 1);
    }
}

proof fn lemma_same_rings(a: LatchupRow, b: LatchupRow, p: int)
    requires
        twins(a, b),
    ensures
        a.rings_found(p) == b.rings_found(p),
    decreases p - a.ring_lo(),
{
    if p > a.ring_lo() {
        lemma_same_rings(a, b, p - 1);
    }
}

proof fn lemma_same_row(a: LatchupRow, b: LatchupRow)
    requires
        twins(a, b),
    ensures
        a.result() == b.result(),
{
    lemma_same_graph(a, b);
    lemma_same_pads(a, b, a.pad_hi());
    lemma_same_rings(a, b, a.ring_hi());
    if a.solvable() {
        assert forall|key: u64| #[trigger] b.is_point(key) implies b.probed(
            key_net(key),
        ) by {
            assert(a.is_point(key));
        }
    }
    if b.solvable() {
        assert forall|key: u64| #[trigger] a.is_point(key) implies a.probed(
            key_net(key),
        ) by {
            assert(b.is_point(key));
        }
    }
}

impl RuleSet {
    /// The two parts that read probes report the same from either probing.
    proof fn lemma_probed_parts(&self, i: Probed, j: Probed)
        requires
            i.inputs == j.inputs,
            same_lists(i.probes@, j.probes@),
            i.inputs.networks.rows() == i.probes@.len(),
        ensures
            self.electrical_parts(i) == self.electrical_parts(j),
            self.reliability_parts(i) == self.reliability_parts(j),
    {
        let n = i.inputs;
        let (a, b) = (i.probes@, j.probes@);
        lemma_same_probed(a, b, a.len());
        let p = p2p_results(n.design, n.networks, a, &self.p2p_resistance);
        let q = p2p_results(n.design, n.networks, b, &self.p2p_resistance);
        assert forall|row: int| 0 <= row < p.len() implies p[row] == q[row] by {
            let t = &self.p2p_resistance;
            lemma_same_found(
                n,
                a,
                b,
                probed(a, a.len()),
                t.head.rule@[row],
                t.head.severity@[row],
                Measurement::Resistance(t.max_resistance@[row]),
            );
        }
        assert(p =~= q);
        let t = &self.esd_latchup;
        let x = esd_latchup_results(n.design, n.intent, n.networks, i.probes, t);
        let y = esd_latchup_results(n.design, n.intent, n.networks, j.probes, t);
        if n.intent.usable() {
            assert forall|row: int| 0 <= row < x.len() implies x[row] == y[row] by {
                lemma_same_row(
                    LatchupRow {
                        design: n.design,
                        intent: n.intent,
                        networks: n.networks,
                        probes: i.probes,
                        table: t,
                        row: row as usize,
                    },
                    LatchupRow {
                        design: n.design,
                        intent: n.intent,
                        networks: n.networks,
                        probes: j.probes,
                        table: t,
                        row: row as usize,
                    },
                );
            }
        }
        assert(x =~= y);
        assert(self.electrical_parts(i) =~= self.electrical_parts(j));
        assert(self.reliability_parts(i) =~= self.reliability_parts(j));
    }

    /// Running one rule set twice on the same inputs finds the same violations and
    /// records the same run rows, in the same order.
    pub proof fn lemma_run_is_determined(&self, inputs: RunInputs, i: Probed, j: Probed)
        requires
            self.ready(inputs),
            self.ran(inputs, i),
            self.ran(inputs, j),
        ensures
            found_of(self.parts(i)) == found_of(self.parts(j)),
            runs_of(self.parts(i)) == runs_of(self.parts(j)),
    {
        assert forall|k: int| 0 <= k < i.probes@.len() implies (#[trigger] i.probes@[k] is Some
            <==> j.probes@[k] is Some) && (i.probes@[k] is Some ==> (i.probes@[k]->0)@ == (
        j.probes@[k]->0)@) by {
            lemma_sounded_once(inputs.networks, k, i.probes@[k], j.probes@[k]);
        }
        assert(same_lists(i.probes@, j.probes@));
        self.lemma_probed_parts(i, j);
        assert(self.topology_parts(i) =~= self.topology_parts(j));
        assert(self.supply_parts(i) =~= self.supply_parts(j));
        assert(self.geometry_parts(i) =~= self.geometry_parts(j));
        assert(self.parts(i) =~= self.parts(j));
    }
}

} // verus!
