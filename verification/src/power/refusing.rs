//! Which grids and processes are refused, and why.
use crate::components::connected;
use crate::model::LayerId;
use crate::number::Number;
use crate::power::network::{PowerError, PowerGrid};
use crate::power::process::Process;
use crate::power::solve::{first_where, is_first};
use vstd::prelude::*;

verus! {

proof fn lemma_least(n: int, bad: spec_fn(int) -> bool, k: int)
    requires
        0 <= k < n,
        bad(k),
    ensures
        exists|j: int| is_first(n, bad, j),
    decreases k,
{
    if exists|j: int| 0 <= j < k && #[trigger] bad(j) {
        let j = choose|j: int| 0 <= j < k && #[trigger] bad(j);
        lemma_least(n, bad, j);
    } else {
        assert(is_first(n, bad, k));
    }
}

/// There is a first of a kind exactly where there is one, and it is the first.
proof fn lemma_first_where(n: int, bad: spec_fn(int) -> bool)
    ensures
        first_where(n, bad) is None <==> forall|j: int| 0 <= j < n ==> !#[trigger] bad(j),
        first_where(n, bad) matches Some(k) ==> is_first(n, bad, k),
{
    if exists|j: int| 0 <= j < n && #[trigger] bad(j) {
        let j = choose|j: int| 0 <= j < n && #[trigger] bad(j);
        lemma_least(n, bad, j);
    }
}

/// Whether a node is held, or some run of edges leads to it from one that is.
pub open spec fn is_held(grid: &PowerGrid, n: int) -> bool {
    exists|p: int|
        0 <= p < grid.source_node@.len() && connected(
            grid.pairs(),
            (#[trigger] grid.source_node@[p]) as int,
            n,
        )
}

/// A grid is taken exactly where every nominal, load and held voltage is finite, every
/// resistance is finite and above zero, some node is held, and every node is held or led
/// to from one that is.
pub proof fn lemma_which_grids_are_taken(grid: &PowerGrid)
    ensures
        grid.fault() is None <==> {
            &&& forall|n: int|
                0 <= n < grid.nodes() ==> (#[trigger] grid.node_nominal@[n]).finite()
                    && grid.node_load@[n].finite()
            &&& forall|p: int|
                0 <= p < grid.source_node@.len() ==> (#[trigger] grid.source_voltage@[p]).finite()
            &&& forall|e: int|
                0 <= e < grid.edges() ==> (Number { bits: 0 }).lt(
                    #[trigger] grid.edge_resistance@[e],
                ) && grid.edge_resistance@[e].finite()
            &&& grid.source_node@.len() > 0
            &&& forall|n: int| 0 <= n < grid.nodes() ==> #[trigger] is_held(grid, n)
        },
        grid.fault() matches Some(PowerError::BadResistance(e)) ==> grid.edges() <= u32::MAX ==> {
            &&& e < grid.edges()
            &&& !((Number { bits: 0 }).lt(grid.edge_resistance@[e as int])
                && grid.edge_resistance@[e as int].finite())
        },
        grid.fault() matches Some(PowerError::UnanchoredIsland(n)) ==> grid.nodes() <= u32::MAX
            ==> n < grid.nodes() && !is_held(grid, n as int),
        grid.fault() matches Some(PowerError::Unanchored) ==> grid.source_node@.len() == 0,
{
    let (nodes, pads, edges) = (grid.nodes(), grid.source_node@.len() as int, grid.edges());
    lemma_first_where(nodes, grid.node_unusable());
    lemma_first_where(pads, grid.pad_unusable());
    lemma_first_where(edges, grid.edge_unusable());
    lemma_first_where(nodes, grid.adrift());
    assert forall|n: int| (#[trigger] is_held(grid, n)) == grid.anchored(n) by {}
    assert forall|n: int| 0 <= n < nodes implies (#[trigger] grid.node_unusable()(n)) == !(
    grid.node_nominal@[n].finite() && grid.node_load@[n].finite()) by {}
    assert forall|p: int| 0 <= p < pads implies (#[trigger] grid.pad_unusable()(p))
        == !grid.source_voltage@[p].finite() by {}
    assert forall|e: int| 0 <= e < edges implies (#[trigger] grid.edge_unusable()(e)) == !((Number {
        bits: 0,
    }).lt(grid.edge_resistance@[e]) && grid.edge_resistance@[e].finite()) by {}
    assert forall|n: int| 0 <= n < nodes implies (#[trigger] grid.adrift()(n)) == !is_held(
        grid,
        n,
    ) by {}
    if grid.fault() is None {
        assert forall|n: int| 0 <= n < nodes implies (
        #[trigger] grid.node_nominal@[n]).finite() && grid.node_load@[n].finite() by {
            assert(!grid.node_unusable()(n));
        }
        assert forall|p: int| 0 <= p < pads implies (
        #[trigger] grid.source_voltage@[p]).finite() by {
            assert(!grid.pad_unusable()(p));
        }
        assert forall|e: int| 0 <= e < edges implies (Number { bits: 0 }).lt(
            #[trigger] grid.edge_resistance@[e],
        ) && grid.edge_resistance@[e].finite() by {
            assert(!grid.edge_unusable()(e));
        }
        assert forall|n: int| 0 <= n < nodes implies #[trigger] is_held(grid, n) by {
            assert(!grid.adrift()(n));
        }
    }
}

/// Whether a layer has a finite sheet resistance above zero.
pub open spec fn is_priced(process: Process, layer: LayerId) -> bool {
    &&& layer.0 < process.sheet_res_ohm_sq@.len()
    &&& (Number { bits: 0 }).lt(process.sheet_res_ohm_sq@[layer.0 as int])
    &&& process.sheet_res_ohm_sq@[layer.0 as int].finite()
}

/// A process is taken exactly where every conductor and every cut has a finite sheet
/// resistance above zero.
pub proof fn lemma_which_processes_are_taken(process: Process)
    ensures
        process.all_usable() <==> (forall|k: int|
            0 <= k < process.connectivity.conductors@.len() ==> is_priced(
                process,
                #[trigger] process.connectivity.conductors@[k],
            )) && forall|k: int|
            0 <= k < process.connectivity.via_cut@.len() ==> is_priced(
                process,
                #[trigger] process.connectivity.via_cut@[k],
            ),
{
    let (a, b) = (process.connectivity.conductors@, process.connectivity.via_cut@);
    let all = process.connectivity.carrying();
    if process.all_usable() {
        assert forall|k: int| 0 <= k < a.len() implies is_priced(process, #[trigger] a[k]) by {
            assert(all[k] == a[k]);
        }
        assert forall|k: int| 0 <= k < b.len() implies is_priced(process, #[trigger] b[k]) by {
            assert(all[a.len() + k] == b[k]);
        }
    }
    if (forall|k: int| 0 <= k < a.len() ==> is_priced(process, #[trigger] a[k])) && forall|k: int|
        0 <= k < b.len() ==> is_priced(process, #[trigger] b[k]) {
        assert forall|k: int| 0 <= k < all.len() implies process.usable(#[trigger] all[k]) by {
            if k < a.len() {
                assert(is_priced(process, a[k]));
            } else {
                assert(is_priced(process, b[k - a.len()]));
            }
        }
    }
}

} // verus!
