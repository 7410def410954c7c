//! Solving a supply grid by preconditioned conjugate gradients.
use crate::design::lemma_kept;
use crate::number::{Number, ONE};
use crate::power::factor::{factorise, precondition};
use crate::power::matrix::{
    difference, differences, dot, dot_spec, lessen_by, lessened, move_by, moved, norm, norm_spec,
    Matrix,
};
use crate::power::network::{PowerError, PowerGrid, PowerSolution};
use crate::power::solve::{describes, finish, prepare, verdict, verdict_spec, SolveConfig, System};
use vstd::prelude::*;

verus! {

/// Where an iteration stands: the answer so far, its residual, the direction it
/// moves in next, and what decides the length of that move.
pub struct Standing {
    pub x: Seq<Number>,
    pub r: Seq<Number>,
    pub p: Seq<Number>,
    pub rz: Number,
    pub residual: Number,
    pub iterations: u32,
}

impl Matrix {
    /// Where an iteration starts.
    pub open spec fn begun(&self, start: Seq<Number>, rhs: Seq<Number>) -> Standing {
        let r = differences(rhs, self.times(start));
        let z = self.conditioned(r);
        Standing { x: start, r, p: z, rz: dot_spec(r, z), residual: norm_spec(r), iterations: 0 }
    }

    /// One step; none where the curvature along the direction is not positive.
    pub open spec fn stepped(&self, s: Standing) -> Option<Standing> {
        let ap = self.times(s.p);
        let curvature = dot_spec(s.p, ap);
        if (Number { bits: 0 }).lt(curvature) {
            let alpha = s.rz.over_spec(curvature);
            let r = lessened(s.r, alpha, ap);
            let z = self.conditioned(r);
            let next = dot_spec(r, z);
            Some(
                Standing {
                    x: moved(s.x, alpha, s.p),
                    r,
                    p: moved(z, next.over_spec(s.rz), s.p),
                    rz: next,
                    residual: norm_spec(r),
                    iterations: (s.iterations + 1) as u32,
                },
            )
        } else {
            None
        }
    }

    /// Where an iteration ends: at the goal, at a step that cannot be made, or
    /// after `left` more steps.
    pub open spec fn settled(&self, s: Standing, goal: Number, left: nat) -> Standing
        decreases left,
    {
        if left > 0 && goal.lt(s.residual) {
            match self.stepped(s) {
                Some(next) => self.settled(next, goal, (left - 1) as nat),
                None => s,
            }
        } else {
            s
        }
    }
}

impl PowerGrid {
    /// The matrix over a grid's unknown voltages.
    pub open spec fn matrix(&self) -> Matrix {
        let n = self.unknowns().len();
        let edges = self.edges() as nat;
        Matrix {
            diag: Seq::new(n, |i: int| self.diag_to(i, edges)),
            inv_diag: Seq::new(n, |i: int| Number { bits: ONE }.over_spec(self.diag_to(i, edges))),
            off: Seq::new(n, |i: int| self.off_to(i, edges)),
        }
    }

    /// Where the iteration over a grid starts.
    pub open spec fn begun(&self) -> Standing {
        let n = self.unknowns().len();
        let edges = self.edges() as nat;
        self.matrix().begun(
            Seq::new(n, |i: int| self.start(self.unknowns()[i] as int)),
            Seq::new(n, |i: int| self.rhs_to(i, edges)),
        )
    }

    /// Where the iteration over a grid ends.
    pub open spec fn settled(&self, config: SolveConfig) -> Standing {
        let s = self.begun();
        self.matrix().settled(
            s,
            s.residual.times_spec(config.relative_tolerance),
            config.max_iterations as nat,
        )
    }

    /// Whether the iteration over a grid may be believed.
    pub open spec fn verdict(&self, config: SolveConfig) -> Result<(u32, Number), PowerError> {
        let end = self.settled(config);
        verdict_spec(config, self.begun().residual, end.residual, end.iterations)
    }

    /// A grid's matrix is square, and its entries are among its columns.
    pub proof fn lemma_matrix(&self)
        requires
            self.wf(),
        ensures
            self.matrix().wf(),
    {
        lemma_kept(self.nodes() as nat, self.floats());
        let m = self.matrix();
        assert forall|i: int, k: int|
            0 <= i < m.size() && 0 <= k < m.off[i].len() implies (#[trigger] m.off[i][k]).0
            < m.size() by {
            self.lemma_off(i, self.edges() as nat, k);
        }
    }

    proof fn lemma_off(&self, i: int, n: nat, k: int)
        requires
            self.wf(),
            n <= self.edges(),
            0 <= k < self.off_to(i, n).len(),
        ensures
            self.off_to(i, n)[k].0 < self.unknowns().len(),
        decreases n,
    {
        if n > 0 {
            let e = n - 1;
            self.lemma_unknown(self.edge_from@[e] as int);
            self.lemma_unknown(self.edge_to@[e] as int);
            if k < self.off_to(i, e as nat).len() {
                self.lemma_off(i, e as nat, k);
            }
        }
    }
}

/// Solve a system from the guess it starts with.
///
/// Returns the answer, the iteration count, and the norms of the first residual
/// and the last.
fn descend(system: &System, config: SolveConfig) -> (r: (Vec<Number>, u32, Number, Number))
    requires
        system.matrix().wf(),
        system.start@.len() == system.matrix().size(),
        system.rhs@.len() == system.matrix().size(),
    ensures
        ({
            let begun = system.matrix().begun(system.start@, system.rhs@);
            let end = system.matrix().settled(
                begun,
                begun.residual.times_spec(config.relative_tolerance),
                config.max_iterations as nat,
            );
            r.0@ == end.x && r.1 == end.iterations && r.2 == begun.residual && r.3 == end.residual
        }),
        r.0@.len() == system.matrix().size(),
{
    let ghost m = system.matrix();
    let ghost begun = m.begun(system.start@, system.rhs@);
    let factor = factorise(system);
    let ap = system.times(&system.start);
    let mut x = copy(&system.start);
    let mut r = difference(&system.rhs, &ap);
    let z = precondition(system, &factor, &r);
    let mut rz = dot(&r, &z);
    let mut p = z;
    let initial = norm(&r);
    let goal = initial.times(config.relative_tolerance);
    let mut residual = initial;
    let mut iterations: u32 = 0;
    let ghost want = m.settled(begun, goal, config.max_iterations as nat);
    let mut moving: bool = true;
    while moving && goal.less(residual) && iterations < config.max_iterations
        invariant
            m == system.matrix(),
            m.wf(),
            factor is Some <==> m.factor() is Some,
            factor is Some ==> (factor->0).lower() == m.factor()->0 && (factor->0).wf()
                && (factor->0).rows@.len() == m.size(),
            x@.len() == m.size(),
            r@.len() == m.size(),
            p@.len() == m.size(),
            iterations <= config.max_iterations,
            want == (if moving {
                m.settled(
                    (Standing { x: x@, r: r@, p: p@, rz, residual, iterations }),
                    goal,
                    (config.max_iterations - iterations) as nat,
                )
            } else {
                (Standing { x: x@, r: r@, p: p@, rz, residual, iterations })
            }),
        decreases (if moving { 1int } else { 0int }), config.max_iterations - iterations,
    {
        let ap = system.times(&p);
        let curvature = dot(&p, &ap);
        if !(Number { bits: 0 }).less(curvature) {
            moving = false;
        } else {
            let alpha = rz.over(curvature);
            x = move_by(&x, alpha, &p);
            r = lessen_by(&r, alpha, &ap);
            let z = precondition(system, &factor, &r);
            let next = dot(&r, &z);
            p = move_by(&z, next.over(rz), &p);
            rz = next;
            residual = norm(&r);
            iterations = iterations + 1;
        }
    }
    (x, iterations, initial, residual)
}

fn copy(v: &Vec<Number>) -> (r: Vec<Number>)
    ensures
        r@ == v@,
{
    let mut r: Vec<Number> = Vec::new();
    let mut i: usize = 0;
    while i < v.len()
        invariant
            i <= v@.len(),
            r@ == v@.take(i as int),
        decreases v@.len() - i,
    {
        r.push(v[i]);
        i = i + 1;
        assert(r@ =~= v@.take(i as int));
    }
    assert(r@ =~= v@);
    r
}

/// Solve a grid for its node voltages and branch currents.
///
/// Voltages that are held fixed are eliminated before the iteration, not
/// constrained inside it. A part of the grid that no pad reaches is refused
/// first: its matrix is singular, and any answer would mean nothing.
pub fn solve_into(grid: &PowerGrid, config: SolveConfig, out: &mut PowerSolution) -> (r: Result<
    (),
    PowerError,
>)
    requires
        grid.wf(),
    ensures
        grid.fault() is Some ==> r == Err::<(), PowerError>(grid.fault()->0)
            && final(out).node_voltage@.len() == 0,
        grid.fault() is None && grid.verdict(config) is Err ==> r == Err::<(), PowerError>(
            grid.verdict(config)->Err_0,
        ) && final(out).node_voltage@ == Seq::new(grid.nodes() as nat, |n: int| grid.start(n)),
        grid.fault() is Some || grid.verdict(config) is Err ==> {
            &&& final(out).node_drop@.len() == 0
            &&& final(out).branch_current@.len() == 0
            &&& final(out).iterations == 0
            &&& final(out).relative_residual == (Number { bits: 0 })
        },
        grid.fault() is None && grid.verdict(config) is Ok ==> {
            &&& describes(grid, grid.settled(config).x, final(out))
            &&& final(out).iterations == (grid.verdict(config)->Ok_0).0
            &&& final(out).relative_residual == (grid.verdict(config)->Ok_0).1
            &&& r is Ok <==> final(out).consistent(grid)
            &&& r is Err ==> r->Err_0 == PowerError::NotFinite(final(out).lost(grid))
        },
{
    out.node_voltage = Vec::new();
    out.node_drop = Vec::new();
    out.branch_current = Vec::new();
    out.iterations = 0;
    out.relative_residual = Number { bits: 0 };
    let system = match prepare(grid) {
        Err(e) => {
            return Err(e);
        },
        Ok(system) => system,
    };
    proof {
        grid.lemma_matrix();
        assert(system.matrix().off =~= grid.matrix().off);
        assert(system.matrix() == grid.matrix());
    }
    let (x, iterations, initial, residual) = descend(&system, config);
    match verdict(config, initial, residual, iterations) {
        Err(e) => {
            out.node_voltage = grid.starts();
            Err(e)
        },
        Ok((iterations, relative_residual)) => finish(
            grid,
            &system,
            &x,
            iterations,
            relative_residual,
            out,
        ),
    }
}

} // verus!
