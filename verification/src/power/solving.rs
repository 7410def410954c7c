//! What solving a grid promises.
use crate::number::Number;
use crate::power::descent::Standing;
use crate::power::matrix::Matrix;
use crate::power::network::{PowerGrid, PowerSolution};
use crate::power::solve::{describes, SolveConfig};
use vstd::prelude::*;

verus! {

/// An iteration makes no more steps than it is allowed.
proof fn lemma_settled_counts(m: Matrix, s: Standing, goal: Number, left: nat)
    requires
        s.iterations + left <= u32::MAX,
    ensures
        s.iterations <= m.settled(s, goal, left).iterations <= s.iterations + left,
    decreases left,
{
    if left > 0 && goal.lt(s.residual) {
        match m.stepped(s) {
            Some(next) => {
                lemma_settled_counts(m, next, goal, (left - 1) as nat);
            },
            None => {},
        }
    }
}

/// A believed solve stopped within its cap, at or under its goal.
pub proof fn lemma_believed_is_converged(grid: &PowerGrid, config: SolveConfig)
    requires
        grid.verdict(config) is Ok,
    ensures
        (grid.verdict(config)->Ok_0).0 <= config.max_iterations,
        grid.settled(config).residual.le(
            grid.begun().residual.times_spec(config.relative_tolerance),
        ),
{
    let s = grid.begun();
    lemma_settled_counts(
        grid.matrix(),
        s,
        s.residual.times_spec(config.relative_tolerance),
        config.max_iterations as nat,
    );
}

/// A pad keeps exactly the voltage it is held at.
pub proof fn lemma_pads_hold(grid: &PowerGrid, x: Seq<Number>, out: &PowerSolution, p: int)
    requires
        grid.wf(),
        0 <= p < grid.source_node@.len(),
        describes(grid, x, out),
    ensures
        out.node_voltage@[grid.source_node@[p] as int] == grid.source_voltage@[p],
{
    let node = grid.source_node@[p];
    let k = grid.source_node@.index_of(node);
    assert(grid.source_node@[p] == node);
    assert(grid.source_node@.contains(node));
    assert(grid.source_node@[k] == node);
    if k < p {
        assert(grid.source_node@[k] < grid.source_node@[p]);
    } else if p < k {
        assert(grid.source_node@[p] < grid.source_node@[k]);
    }
}

} // verus!
