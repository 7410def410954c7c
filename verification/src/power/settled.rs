//! An extraction is fixed by its inputs.
use crate::power::nets::{are_networks, points_of, polys_of, tapped, terminals_of, Signals};
use crate::power::network::{NetNetworks, PowerGrid};
use crate::power::process::Contacts;
use crate::power::rails::{is_supply_grid, Rails};
use crate::power::taps::{answers, resolves, taps_ascend, Tap};
use crate::power::wiring::Wiring;
use vstd::prelude::*;

verus! {

/// Two ascending lists of the same places agree on their first `n` entries.
proof fn lemma_same_prefix(a: Seq<Tap>, b: Seq<Tap>, n: nat)
    requires
        taps_ascend(a),
        taps_ascend(b),
        n <= a.len(),
        n <= b.len(),
        forall|i: int| 0 <= i < a.len() ==> b.contains(#[trigger] a[i]),
        forall|i: int| 0 <= i < b.len() ==> a.contains(#[trigger] b[i]),
    ensures
        forall|i: int| 0 <= i < n ==> a[i] == #[trigger] b[i],
    decreases n,
{
    if n > 0 {
        let i = n - 1;
        lemma_same_prefix(a, b, i as nat);
        assert(b.contains(a[i]));
        assert(a.contains(b[i]));
        let j = choose|j: int| 0 <= j < b.len() && b[j] == a[i];
        let k = choose|k: int| 0 <= k < a.len() && a[k] == b[i];
        if j < i {
            assert(a[j] == b[j]);
            assert(a[j].before(a[i]));
        }
        if k < i {
            assert(a[k] == b[k]);
            assert(b[k].before(b[i]));
        }
        if j > i {
            assert(b[i].before(b[j]));
            if k > i {
                assert(a[i].before(a[k]));
            }
        }
    }
}

/// One list of requests resolves to one list of nodes.
proof fn lemma_one_resolution(
    request: Seq<Tap>,
    a: Seq<Tap>,
    x: Seq<u32>,
    b: Seq<Tap>,
    y: Seq<u32>,
)
    requires
        resolves(request, a, x),
        resolves(request, b, y),
    ensures
        a == b,
        x == y,
{
    assert forall|i: int| 0 <= i < a.len() implies b.contains(#[trigger] a[i]) by {
        let q = choose|q: int| 0 <= q < request.len() && request[q] == a[i];
        assert(answers(request, b, y, q));
    }
    assert forall|i: int| 0 <= i < b.len() implies a.contains(#[trigger] b[i]) by {
        let q = choose|q: int| 0 <= q < request.len() && request[q] == b[i];
        assert(answers(request, a, x, q));
    }
    let n = if a.len() < b.len() { a.len() } else { b.len() };
    lemma_same_prefix(a, b, n);
    if a.len() < b.len() {
        assert(a.contains(b[n as int]));
        let k = choose|k: int| 0 <= k < a.len() && a[k] == b[n as int];
        assert(a[k] == b[k]);
        assert(b[k].before(b[n as int]));
    } else if b.len() < a.len() {
        assert(b.contains(a[n as int]));
        let k = choose|k: int| 0 <= k < b.len() && b[k] == a[n as int];
        assert(a[k] == b[k]);
        assert(a[k].before(a[n as int]));
    }
    assert(a =~= b);
    assert forall|q: int| 0 <= q < request.len() implies x[q] == y[q] by {
        assert(answers(request, a, x, q));
        assert(answers(request, b, y, q));
        if x[q] < y[q] {
            assert(a[x[q] as int].before(a[y[q] as int]));
        } else if y[q] < x[q] {
            assert(a[y[q] as int].before(a[x[q] as int]));
        }
    }
    assert(x =~= y);
}

/// The same layout always extracts to the same supply grid.
pub proof fn lemma_supply_grid_is_determined(
    rails: Rails,
    contacts: &Contacts,
    v: &Wiring,
    w: &Wiring,
    a: &PowerGrid,
    b: &PowerGrid,
)
    requires
        is_supply_grid(rails, contacts, v, a),
        is_supply_grid(rails, contacts, w, b),
    ensures
        a.node_net@ == b.node_net@,
        a.node_at@ == b.node_at@,
        a.node_poly@ == b.node_poly@,
        a.node_layer@ == b.node_layer@,
        a.node_nominal@ == b.node_nominal@,
        a.node_load@ == b.node_load@,
        a.source_node@ == b.source_node@,
        a.source_voltage@ == b.source_voltage@,
        a.edge_from@ == b.edge_from@,
        a.edge_to@ == b.edge_to@,
        a.edge_resistance@ == b.edge_resistance@,
        a.edge_width@ == b.edge_width@,
        a.edge_length@ == b.edge_length@,
        a.edge_layer@ == b.edge_layer@,
        a.edge_kind@ == b.edge_kind@,
{
    lemma_one_resolution(
        v.taps.request@,
        v.taps.node@,
        v.taps.req_node@,
        w.taps.node@,
        w.taps.req_node@,
    );
    lemma_same_segments(v, w, rails.store, rails.process);
    assert(a.node_net@ =~= b.node_net@);
    assert(a.node_at@ =~= b.node_at@);
    assert(a.node_poly@ =~= b.node_poly@);
    assert(a.node_layer@ =~= b.node_layer@);
    assert(a.node_nominal@ =~= b.node_nominal@);
    assert(a.node_load@ =~= b.node_load@);
    assert(a.edge_from@ =~= b.edge_from@);
    assert(a.edge_to@ =~= b.edge_to@);
    assert(a.edge_resistance@ =~= b.edge_resistance@);
    assert(a.edge_width@ =~= b.edge_width@);
    assert(a.edge_length@ =~= b.edge_length@);
    assert(a.edge_layer@ =~= b.edge_layer@);
    assert(a.edge_kind@ =~= b.edge_kind@);
}

/// Wirings with the same parts have the same segments.
proof fn lemma_same_segments(
    v: &Wiring,
    w: &Wiring,
    store: &crate::store::GeometryStore,
    process: crate::power::process::Process,
)
    requires
        v.shapes@ == w.shapes@,
        v.metal@ == w.metal@,
        v.via@ == w.via@,
        v.taps.node@ == w.taps.node@,
        v.taps.req_node@ == w.taps.req_node@,
    ensures
        v.segments(store, process) == w.segments(store, process),
{
    assert(v.metal_segments(store, process) =~= w.metal_segments(store, process));
    assert(v.via_segments(store, process) =~= w.via_segments(store, process));
}

/// Two wirings of one net add the same row.
proof fn lemma_same_row(signals: Signals, contacts: &Contacts, n: int, v: &Wiring, w: &Wiring)
    requires
        signals.is_row(contacts, n, v),
        signals.is_row(contacts, n, w),
    ensures
        terminals_of(v) == terminals_of(w),
        points_of(signals.store, v) == points_of(signals.store, w),
        polys_of(v) == polys_of(w),
        v.segments(signals.store, signals.process) == w.segments(signals.store, signals.process),
{
    lemma_one_resolution(
        v.taps.request@,
        v.taps.node@,
        v.taps.req_node@,
        w.taps.node@,
        w.taps.req_node@,
    );
    lemma_same_segments(v, w, signals.store, signals.process);
    assert(points_of(signals.store, v) =~= points_of(signals.store, w));
    assert(polys_of(v) =~= polys_of(w));
    let f = |i: int| tapped(v, i);
    let g = |i: int| tapped(w, i);
    assert forall|i: int| #[trigger] f(i) == g(i) by {
        assert(tapped(v, i) == tapped(w, i));
    }
    assert(f =~= g);
}

proof fn lemma_same_columns(
    signals: Signals,
    contacts: &Contacts,
    vs: Seq<Wiring>,
    ws: Seq<Wiring>,
    n: nat,
)
    requires
        signals.are_rows(contacts, vs),
        signals.are_rows(contacts, ws),
        n <= signals.nets.nets(),
    ensures
        signals.columns_to(vs, n) == signals.columns_to(ws, n),
    decreases n,
{
    if n > 0 {
        lemma_same_columns(signals, contacts, vs, ws, (n - 1) as nat);
        assert(signals.is_row(contacts, n - 1, &vs[n - 1]));
        assert(signals.is_row(contacts, n - 1, &ws[n - 1]));
        lemma_same_row(signals, contacts, n - 1, &vs[n - 1], &ws[n - 1]);
    }
}

/// The same layout always extracts to the same networks.
pub proof fn lemma_networks_are_determined(
    signals: Signals,
    contacts: &Contacts,
    vs: Seq<Wiring>,
    ws: Seq<Wiring>,
    a: &NetNetworks,
    b: &NetNetworks,
)
    requires
        are_networks(signals, contacts, vs, a),
        are_networks(signals, contacts, ws, b),
    ensures
        a.net@ == b.net@,
        a.node_start@ == b.node_start@,
        a.node_at@ == b.node_at@,
        a.node_poly@ == b.node_poly@,
        a.terminal_start@ == b.terminal_start@,
        a.terminal@ == b.terminal@,
        a.edge_start@ == b.edge_start@,
        a.edge_from@ == b.edge_from@,
        a.edge_to@ == b.edge_to@,
        a.edge_resistance@ == b.edge_resistance@,
{
    lemma_same_columns(signals, contacts, vs, ws, signals.nets.nets() as nat);
}

} // verus!
