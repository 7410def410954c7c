//! What the system a supply grid poses, and the state its answer describes, have to do
//! with the currents of the grid.
//!
//! Each number is a whole number of the smallest step, so Ohm's law and Kirchhoff's law
//! are stated over integers, and what is computed is held against them to within the
//! roundings it makes.
use crate::closeness::{
    approximates, clean, lemma_exactly, lemma_itself, lemma_plus_strays, lemma_product_rounds,
    lemma_quotient, lemma_strays_add, lemma_strays_more, lemma_strays_negated, lemma_strays_once,
    lemma_strays_sign, lemma_sum_strays, lemma_times_strays, moderate, size_of, strays, unit,
};
use crate::number::{magnitude, Number, HIDDEN, ONE};
use crate::power::matrix::Matrix;
use crate::power::network::{PowerGrid, PowerSolution};
use crate::power::solve::{describes, voltage, weight, NOT_AN_UNKNOWN, UA_PER_MV_OHM};
use crate::rounding::lemma_times_one;
use vstd::arithmetic::power2::{lemma_pow2_adds, lemma_pow2_pos, lemma_pow2_strictly_increases, pow2};
use vstd::prelude::*;

verus! {

/// What edge `e` carries out of node `n` at given voltages, from its conductance.
pub open spec fn carries(grid: &PowerGrid, v: Seq<Number>, n: int, e: int) -> int {
    let g = grid.conductance(e).value();
    let (a, b) = (grid.edge_from@[e] as int, grid.edge_to@[e] as int);
    (if a == n { g * (v[n].value() - v[b].value()) } else { 0 }) + (if b == n {
        g * (v[n].value() - v[a].value())
    } else {
        0
    })
}

/// What the first `m` edges carry out of node `n`.
pub open spec fn carried(grid: &PowerGrid, v: Seq<Number>, n: int, m: nat) -> int
    decreases m,
{
    if m == 0 {
        0
    } else {
        carried(grid, v, n, (m - 1) as nat) + carries(grid, v, n, m - 1)
    }
}

/// The sizes of the terms edge `e` brings to node `n`.
pub open spec fn bears(grid: &PowerGrid, v: Seq<Number>, n: int, e: int) -> int {
    let g = size_of(grid.conductance(e).value());
    let (a, b) = (grid.edge_from@[e] as int, grid.edge_to@[e] as int);
    (if a == n { g * (size_of(v[n].value()) + size_of(v[b].value())) } else { 0 }) + (if b == n {
        g * (size_of(v[n].value()) + size_of(v[a].value()))
    } else {
        0
    })
}

/// The sizes of the terms the first `m` edges bring to node `n`.
pub open spec fn borne(grid: &PowerGrid, v: Seq<Number>, n: int, m: nat) -> int
    decreases m,
{
    if m == 0 {
        0
    } else {
        borne(grid, v, n, (m - 1) as nat) + bears(grid, v, n, m - 1)
    }
}

/// The voltage of every node, an answer giving those that are not held.
pub open spec fn voltages(grid: &PowerGrid, x: Seq<Number>) -> Seq<Number> {
    Seq::new(grid.nodes() as nat, |n: int| voltage(grid, x, n))
}

/// The unknown of a node is its own.
proof fn lemma_own(grid: &PowerGrid, n: int, a: int)
    requires
        grid.wf(),
        0 <= n < grid.nodes(),
        0 <= a < grid.nodes(),
        !grid.source_node@.contains(n as u32),
    ensures
        grid.unknown(n) != NOT_AN_UNKNOWN,
        grid.unknown(a) == grid.unknown(n) <==> a == n,
        grid.unknown(a) == NOT_AN_UNKNOWN <==> grid.source_node@.contains(a as u32),
{
    grid.lemma_unknown(n);
    grid.lemma_unknown(a);
}

/// What the conductances at node `n` come to over the first `m` edges, and their sizes.
spec fn gathered(grid: &PowerGrid, n: int, m: nat) -> int
    decreases m,
{
    if m == 0 {
        0
    } else {
        let g = grid.conductance(m - 1).value();
        gathered(grid, n, (m - 1) as nat) + (if grid.edge_from@[m - 1] == n { g } else { 0 }) + (
        if grid.edge_to@[m - 1] == n { g } else { 0 })
    }
}

spec fn gathered_size(grid: &PowerGrid, n: int, m: nat) -> int
    decreases m,
{
    if m == 0 {
        0
    } else {
        let g = size_of(grid.conductance(m - 1).value());
        gathered_size(grid, n, (m - 1) as nat) + (if grid.edge_from@[m - 1] == n { g } else { 0 })
            + (if grid.edge_to@[m - 1] == n { g } else { 0 })
    }
}

proof fn lemma_diagonal(grid: &PowerGrid, n: int, m: nat)
    requires
        grid.wf(),
        0 <= n < grid.nodes(),
        !grid.source_node@.contains(n as u32),
        m <= grid.edges(),
        grid.diag_to(grid.unknown(n) as int, m).finite(),
    ensures
        strays(
            grid.diag_to(grid.unknown(n) as int, m).value(),
            gathered(grid, n, m),
            gathered_size(grid, n, m),
            2 * m,
        ),
    decreases m,
{
    let i = grid.unknown(n) as int;
    assert(magnitude(0) == 0);
    if m == 0 {
        lemma_exactly(0, 0);
    } else {
        let e = m - 1;
        let p = e as nat;
        let g = grid.conductance(e);
        let (a, b) = (grid.edge_from@[e] as int, grid.edge_to@[e] as int);
        lemma_own(grid, n, a);
        lemma_own(grid, n, b);
        let before = grid.diag_to(i, p);
        let first = if a == n { before.plus_spec(g) } else { before };
        let last = grid.diag_to(i, m);
        if b == n {
            lemma_sum_strays(first, g);
        }
        if a == n {
            lemma_sum_strays(before, g);
        }
        lemma_diagonal(grid, n, p);
        let (d, s) = (gathered(grid, n, p), gathered_size(grid, n, p));
        let (gv, gs) = (g.value(), size_of(g.value()));
        lemma_exactly(gv, gs);
        lemma_strays_more(gv, gv, gs, 0, 2 * p);
        lemma_strays_more(gv, gv, gs, 0, 2 * p + 1);
        if a == n {
            lemma_plus_strays(before, g, 1, d, s, gv, gs, 2 * p);
        } else {
            lemma_strays_more(before.value(), d, s, 2 * p, 2 * p + 1);
        }
        let (d1, s1) = (d + (if a == n { gv } else { 0 }), s + (if a == n { gs } else { 0 }));
        assert(strays(first.value(), d1, s1, 2 * p + 1));
        if b == n {
            lemma_plus_strays(first, g, 1, d1, s1, gv, gs, 2 * p + 1);
        } else {
            lemma_strays_more(first.value(), d1, s1, 2 * p + 1, 2 * p + 2);
        }
    }
}

/// What pads at the other end bring to node `n` over the first `m` edges, and the sizes
/// of it.
pub open spec fn pad_terms(grid: &PowerGrid, n: int, m: nat) -> int
    decreases m,
{
    if m == 0 {
        0
    } else {
        let e = m - 1;
        let g = grid.conductance(e).value();
        let (a, b) = (grid.edge_from@[e], grid.edge_to@[e]);
        pad_terms(grid, n, (m - 1) as nat) + (if a == n && grid.source_node@.contains(b) {
            g * grid.start(b as int).value()
        } else {
            0
        }) + (if b == n && grid.source_node@.contains(a) {
            g * grid.start(a as int).value()
        } else {
            0
        })
    }
}

pub open spec fn pad_sizes(grid: &PowerGrid, n: int, m: nat) -> int
    decreases m,
{
    if m == 0 {
        0
    } else {
        let e = m - 1;
        let g = size_of(grid.conductance(e).value());
        let (a, b) = (grid.edge_from@[e], grid.edge_to@[e]);
        pad_sizes(grid, n, (m - 1) as nat) + (if a == n && grid.source_node@.contains(b) {
            g * size_of(grid.start(b as int).value())
        } else {
            0
        }) + (if b == n && grid.source_node@.contains(a) {
            g * size_of(grid.start(a as int).value())
        } else {
            0
        })
    }
}

/// Whether no product of a conductance and a voltage at the ends of its edge is too
/// small to be rounded to.
pub open spec fn gentle(grid: &PowerGrid, v: Seq<Number>) -> bool {
    forall|e: int|
        0 <= e < grid.edges() ==> clean(
            #[trigger] grid.conductance(e),
            v[grid.edge_from@[e] as int],
        ) && clean(grid.conductance(e), v[grid.edge_to@[e] as int])
}

/// A term that counts is a product to one rounding, one that does not is nothing.
proof fn lemma_term(g: Number, v: Number, counts: bool)
    requires
        g.times_spec(v).times_spec(weight(counts)).finite(),
        counts ==> clean(g, v),
    ensures
        strays(
            g.times_spec(v).times_spec(weight(counts)).value() * unit(),
            if counts { g.value() * v.value() } else { 0 },
            if counts { size_of(g.value()) * size_of(v.value()) } else { 0 },
            1,
        ),
{
    let p = g.times_spec(v);
    assert(magnitude(0) == 0);
    if counts {
        assert(weight(counts) == (Number { bits: ONE }));
        assert(p.finite());
        lemma_times_one(p);
        lemma_exactly(g.value(), size_of(g.value()));
        lemma_times_strays(g, v, g.value(), size_of(g.value()), 0);
    } else {
        assert(weight(counts).pattern() == 0);
        assert(p.times_spec(weight(counts)).pattern() == 0);
        assert(0 * unit() == 0);
        lemma_exactly(0, 0);
        lemma_strays_more(0, 0, 0, 0, 1);
    }
}

/// The right-hand side of a node that is not held is minus the load it draws, of either
/// sign, plus what pads at the other end of its edges bring, to within the roundings of
/// the sum. With its pads at zero it is exactly minus the load.
pub proof fn lemma_load_is_drawn(grid: &PowerGrid, n: int, m: nat)
    requires
        grid.wf(),
        0 <= n < grid.nodes(),
        !grid.source_node@.contains(n as u32),
        m <= grid.edges(),
        grid.rhs_to(grid.unknown(n) as int, m).finite(),
        forall|e: int|
            0 <= e < grid.edges() ==> clean(
                #[trigger] grid.conductance(e),
                grid.start(grid.edge_from@[e] as int),
            ) && clean(grid.conductance(e), grid.start(grid.edge_to@[e] as int)),
    ensures
        strays(
            grid.rhs_to(grid.unknown(n) as int, m).value() * unit(),
            -(grid.node_load@[n].value() * unit()) + pad_terms(grid, n, m),
            size_of(grid.node_load@[n].value()) * unit() + pad_sizes(grid, n, m),
            2 * m + 1,
        ),
        (forall|p: int|
            0 <= p < grid.source_node@.len() ==> (#[trigger] grid.source_voltage@[p]).pattern()
                == 0) ==> grid.rhs_to(grid.unknown(n) as int, m).value()
            == -grid.node_load@[n].value(),
    decreases m,
{
    let i = grid.unknown(n) as int;
    let u = unit();
    lemma_pow2_pos(1074);
    grid.lemma_unknown(n);
    let still = forall|p: int|
        0 <= p < grid.source_node@.len() ==> (#[trigger] grid.source_voltage@[p]).pattern() == 0;
    if m == 0 {
        let load = grid.node_load@[n];
        let minus = load.negated_spec();
        assert(minus.value() == -load.value());
        let (x, s) = (-(load.value() * u), size_of(load.value()) * u);
        assert(minus.value() * u == x && -s <= x <= s) by (nonlinear_arith)
            requires
                minus.value() == -load.value(),
                x == -(load.value() * u),
                s == size_of(load.value()) * u,
                u > 0,
        ;
        lemma_exactly(x, s);
        lemma_strays_more(x, x, s, 0, 1);
    } else {
        let e = m - 1;
        let p = e as nat;
        let g = grid.conductance(e);
        let (a, b) = (grid.edge_from@[e] as int, grid.edge_to@[e] as int);
        lemma_own(grid, n, a);
        lemma_own(grid, n, b);
        let before = grid.rhs_to(i, p);
        let (pa, pb) = (grid.source_node@.contains(a as u32), grid.source_node@.contains(b as u32));
        let add_a = g.times_spec(grid.start(b)).times_spec(weight(pb));
        let add_b = g.times_spec(grid.start(a)).times_spec(weight(pa));
        let first = if a == n { before.plus_spec(add_a) } else { before };
        if b == n {
            lemma_sum_strays(first, add_b);
        }
        if a == n {
            lemma_sum_strays(before, add_a);
        }
        lemma_load_is_drawn(grid, n, p);
        assert(clean(grid.conductance(e), grid.start(a)));
        let load = grid.node_load@[n];
        let (d, s) = (
            -(load.value() * u) + pad_terms(grid, n, p),
            size_of(load.value()) * u + pad_sizes(grid, n, p),
        );
        let (ta, sa) = (
            if pb { g.value() * grid.start(b).value() } else { 0 },
            if pb { size_of(g.value()) * size_of(grid.start(b).value()) } else { 0 },
        );
        let (tb, sb) = (
            if pa { g.value() * grid.start(a).value() } else { 0 },
            if pa { size_of(g.value()) * size_of(grid.start(a).value()) } else { 0 },
        );
        if a == n {
            lemma_term(g, grid.start(b), pb);
            lemma_strays_more(add_a.value() * u, ta, sa, 1, 2 * p + 1);
            lemma_plus_strays(before, add_a, u, d, s, ta, sa, 2 * p + 1);
        } else {
            lemma_strays_more(before.value() * u, d, s, 2 * p + 1, 2 * p + 2);
        }
        let (d1, s1) = (d + (if a == n { ta } else { 0 }), s + (if a == n { sa } else { 0 }));
        if b == n {
            lemma_term(g, grid.start(a), pa);
            lemma_strays_more(add_b.value() * u, tb, sb, 1, 2 * p + 2);
            lemma_plus_strays(first, add_b, u, d1, s1, tb, sb, 2 * p + 2);
        } else {
            lemma_strays_more(first.value() * u, d1, s1, 2 * p + 2, 2 * p + 3);
        }
        if still {
            lemma_still_pads(grid, a, g, pa);
            lemma_still_pads(grid, b, g, pb);
            if a == n {
                lemma_plus_nothing(before, add_a);
            }
            if b == n {
                lemma_plus_nothing(first, add_b);
            }
        }
    }
}

proof fn lemma_still_pads(grid: &PowerGrid, a: int, g: Number, counts: bool)
    requires
        grid.wf(),
        0 <= a < grid.nodes(),
        counts == grid.source_node@.contains(a as u32),
        forall|p: int|
            0 <= p < grid.source_node@.len() ==> (#[trigger] grid.source_voltage@[p]).pattern()
                == 0,
    ensures
        g.times_spec(grid.start(a)).times_spec(weight(counts)).finite() ==> g.times_spec(
            grid.start(a),
        ).times_spec(weight(counts)).pattern() == 0,
{
    if counts {
        let k = grid.source_node@.index_of(a as u32);
        assert(grid.source_node@[k] == a as u32);
        assert(grid.source_voltage@[k].pattern() == 0);
    } else {
        assert(weight(counts).pattern() == 0);
    }
}

proof fn lemma_plus_nothing(x: Number, y: Number)
    requires
        x.plus_spec(y).finite(),
        y.pattern() == 0,
    ensures
        x.plus_spec(y).value() == x.value(),
{
    assert(magnitude(0) == 0);
    lemma_sum_strays(x, y);
    let s = size_of(x.value());
    if s != 0 {
        crate::addition::lemma_nearest_exact(x.pattern());
    }
}

/// What edges to other unknowns bring to the row of node `n` over the first `m` edges,
/// and the sizes of it.
spec fn across(grid: &PowerGrid, v: Seq<Number>, n: int, m: nat) -> int
    decreases m,
{
    if m == 0 {
        0
    } else {
        let e = m - 1;
        let g = grid.conductance(e).value();
        let (a, b) = (grid.edge_from@[e], grid.edge_to@[e]);
        let free = !grid.source_node@.contains(a) && !grid.source_node@.contains(b);
        across(grid, v, n, (m - 1) as nat) + (if free && a == n {
            (-g) * v[b as int].value()
        } else {
            0
        }) + (if free && b == n { (-g) * v[a as int].value() } else { 0 })
    }
}

spec fn across_size(grid: &PowerGrid, v: Seq<Number>, n: int, m: nat) -> int
    decreases m,
{
    if m == 0 {
        0
    } else {
        let e = m - 1;
        let g = size_of(grid.conductance(e).value());
        let (a, b) = (grid.edge_from@[e], grid.edge_to@[e]);
        let free = !grid.source_node@.contains(a) && !grid.source_node@.contains(b);
        across_size(grid, v, n, (m - 1) as nat) + (if free && a == n {
            g * size_of(v[b as int].value())
        } else {
            0
        }) + (if free && b == n { g * size_of(v[a as int].value()) } else { 0 })
    }
}

/// The entries of the first edges come first.
proof fn lemma_off_prefix(grid: &PowerGrid, i: int, m: nat, k: nat)
    requires
        m <= k,
    ensures
        grid.off_to(i, m).len() <= grid.off_to(i, k).len(),
        forall|t: int|
            0 <= t < grid.off_to(i, m).len() ==> #[trigger] grid.off_to(i, k)[t] == grid.off_to(
                i,
                m,
            )[t],
    decreases k,
{
    if m < k {
        lemma_off_prefix(grid, i, m, (k - 1) as nat);
    }
}

/// A sum of products is finite only where each sum before it is.
proof fn lemma_row_finite(m: Matrix, i: int, x: Seq<Number>, j: nat, k: nat)
    requires
        j <= k,
        m.row_times(i, x, k).finite(),
    ensures
        m.row_times(i, x, j).finite(),
    decreases k,
{
    if j < k {
        let (c, y) = m.off[i][k - 1];
        lemma_sum_strays(m.row_times(i, x, (k - 1) as nat), y.times_spec(x[c as int]));
        lemma_row_finite(m, i, x, j, (k - 1) as nat);
    }
}

/// One more entry of a row.
proof fn lemma_entry(
    grid: &PowerGrid,
    x: Seq<Number>,
    i: int,
    len: nat,
    c: int,
    g: Number,
    d: int,
    s: int,
    k: nat,
)
    requires
        0 <= i < grid.matrix().off.len(),
        len < grid.matrix().off[i].len(),
        grid.matrix().off[i][len as int] == (c as u32, g.negated_spec()),
        0 <= c <= u32::MAX,
        grid.matrix().row_times(i, x, len + 1).finite(),
        clean(g, x[c]),
        k >= 1,
        strays(grid.matrix().row_times(i, x, len).value() * unit(), d, s, k),
    ensures
        strays(
            grid.matrix().row_times(i, x, len + 1).value() * unit(),
            d + (-g.value()) * x[c].value(),
            s + size_of(g.value()) * size_of(x[c].value()),
            k + 1,
        ),
{
    let m = grid.matrix();
    let before = m.row_times(i, x, len);
    let minus = g.negated_spec();
    let add = minus.times_spec(x[c]);
    lemma_pow2_pos(1074);
    lemma_sum_strays(before, add);
    assert(minus.value() == -g.value());
    assert(minus.pattern() == g.pattern());
    assert(clean(minus, x[c])) by {
        if g.pattern() != 0 && x[c].pattern() != 0 {
            assert(add.finite());
            crate::addition::lemma_nearest(
                magnitude(g.pattern()) * magnitude(x[c].pattern()),
                pow2(1074),
            );
        }
    }
    lemma_exactly(minus.value(), size_of(g.value()));
    lemma_times_strays(minus, x[c], minus.value(), size_of(g.value()), 0);
    let (t, w) = (minus.value() * x[c].value(), size_of(g.value()) * size_of(x[c].value()));
    lemma_strays_more(add.value() * unit(), t, w, 1, k);
    lemma_plus_strays(before, add, unit(), d, s, t, w, k);
}

proof fn lemma_row(grid: &PowerGrid, x: Seq<Number>, n: int, m: nat)
    requires
        grid.wf(),
        0 <= n < grid.nodes(),
        !grid.source_node@.contains(n as u32),
        x.len() == grid.unknowns().len(),
        m <= grid.edges(),
        grid.matrix().times(x)[grid.unknown(n) as int].finite(),
        clean(
            grid.diag_to(grid.unknown(n) as int, grid.edges() as nat),
            x[grid.unknown(n) as int],
        ),
        gentle(grid, voltages(grid, x)),
    ensures
        ({
            let i = grid.unknown(n) as int;
            let all = grid.edges() as nat;
            strays(
                grid.matrix().row_times(i, x, grid.off_to(i, m).len()).value() * unit(),
                gathered(grid, n, all) * x[i].value() + across(grid, voltages(grid, x), n, m),
                gathered_size(grid, n, all) * size_of(x[i].value()) + across_size(
                    grid,
                    voltages(grid, x),
                    n,
                    m,
                ),
                2 * all + 2 + 2 * m,
            )
        }),
    decreases m,
{
    let i = grid.unknown(n) as int;
    let all = grid.edges() as nat;
    let mat = grid.matrix();
    let v = voltages(grid, x);
    grid.lemma_unknown(n);
    lemma_pow2_pos(1074);
    assert(magnitude(0) == 0);
    assert(mat.off[i] == grid.off_to(i, all));
    let full = mat.off[i].len();
    assert(mat.row_times(i, x, full).finite());
    lemma_off_prefix(grid, i, m, all);
    lemma_row_finite(mat, i, x, grid.off_to(i, m).len(), full);
    if m == 0 {
        lemma_row_finite(mat, i, x, 0, full);
        let diag = grid.diag_to(i, all);
        assert(mat.diag[i] == diag);
        let zero = Number { bits: 0 };
        let p = diag.times_spec(x[i]);
        lemma_sum_strays(zero, p);
        lemma_product_rounds(diag, x[i]);
        lemma_diagonal(grid, n, all);
        let (d, s) = (gathered(grid, n, all), gathered_size(grid, n, all));
        lemma_times_strays(diag, x[i], d, s, 2 * all);
        let (e, t) = (d * x[i].value(), s * size_of(x[i].value()));
        assert(0 * unit() == 0);
        lemma_exactly(0, 0);
        lemma_strays_more(0, 0, 0, 0, 2 * all + 1);
        lemma_plus_strays(zero, p, unit(), 0, 0, e, t, 2 * all + 1);
    } else {
        let e = m - 1;
        let p = e as nat;
        lemma_row(grid, x, n, p);
        let g = grid.conductance(e);
        let (a, b) = (grid.edge_from@[e] as int, grid.edge_to@[e] as int);
        lemma_own(grid, n, a);
        lemma_own(grid, n, b);
        grid.lemma_unknown(a);
        grid.lemma_unknown(b);
        let (ua, ub) = (grid.unknown(a), grid.unknown(b));
        let before = grid.off_to(i, p);
        let now = grid.off_to(i, m);
        let free = !grid.source_node@.contains(a as u32) && !grid.source_node@.contains(b as u32);
        let (d, s) = (
            gathered(grid, n, all) * x[i].value() + across(grid, v, n, p),
            gathered_size(grid, n, all) * size_of(x[i].value()) + across_size(grid, v, n, p),
        );
        let k = 2 * all + 2 + 2 * p;
        assert(clean(grid.conductance(e), v[a]));
        if free {
            assert(v[a] == x[ua as int] && v[b] == x[ub as int]);
            let (ta, sa) = (
                (-g.value()) * v[b].value(),
                size_of(g.value()) * size_of(v[b].value()),
            );
            let (tb, sb) = (
                (-g.value()) * v[a].value(),
                size_of(g.value()) * size_of(v[a].value()),
            );
            let len = before.len();
            let first: nat = if a == n { len + 1 } else { len };
            lemma_row_finite(mat, i, x, first, full);
            if a == n {
                assert(now[len as int] == (ub, g.negated_spec()));
                assert(mat.off[i][len as int] == now[len as int]);
                lemma_entry(grid, x, i, len, ub as int, g, d, s, k);
            } else {
                lemma_strays_more(mat.row_times(i, x, len).value() * unit(), d, s, k, k + 1);
            }
            let (d1, s1) = (d + (if a == n { ta } else { 0 }), s + (if a == n { sa } else { 0 }));
            if b == n {
                assert(now[first as int] == (ua, g.negated_spec()));
                assert(mat.off[i][first as int] == now[first as int]);
                lemma_entry(grid, x, i, first, ua as int, g, d1, s1, k + 1);
            } else {
                lemma_strays_more(mat.row_times(i, x, first).value() * unit(), d1, s1, k + 1, k + 2);
            }
        } else {
            assert(now == before);
            lemma_strays_more(mat.row_times(i, x, before.len()).value() * unit(), d, s, k, k + 2);
        }
    }
}

/// The parts of a row and its right-hand side come to what the edges carry.
proof fn lemma_parts_are_carried(grid: &PowerGrid, x: Seq<Number>, n: int, m: nat)
    requires
        grid.wf(),
        0 <= n < grid.nodes(),
        !grid.source_node@.contains(n as u32),
        m <= grid.edges(),
    ensures
        ({
            let v = voltages(grid, x);
            let i = grid.unknown(n) as int;
            &&& carried(grid, v, n, m) == gathered(grid, n, m) * x[i].value() + across(
                grid,
                v,
                n,
                m,
            ) - pad_terms(grid, n, m)
            &&& borne(grid, v, n, m) == gathered_size(grid, n, m) * size_of(x[i].value())
                + across_size(grid, v, n, m) + pad_sizes(grid, n, m)
        }),
    decreases m,
{
    let v = voltages(grid, x);
    let i = grid.unknown(n) as int;
    let (xi, xs) = (x[i].value(), size_of(x[i].value()));
    if m == 0 {
        assert(0 * xi == 0 && 0 * xs == 0);
    } else {
        let e = m - 1;
        let p = e as nat;
        lemma_parts_are_carried(grid, x, n, p);
        let (g, gs) = (grid.conductance(e).value(), size_of(grid.conductance(e).value()));
        let (a, b) = (grid.edge_from@[e] as int, grid.edge_to@[e] as int);
        assert(v[n] == x[i]);
        if grid.source_node@.contains(a as u32) {
            assert(v[a] == grid.start(a));
        }
        if grid.source_node@.contains(b as u32) {
            assert(v[b] == grid.start(b));
        }
        let (va, vb) = (v[a].value(), v[b].value());
        let (sa, sb) = (size_of(va), size_of(vb));
        assert(g * (xi - vb) == g * xi - g * vb && g * (xi - va) == g * xi - g * va && (-g) * vb
            == -(g * vb) && (-g) * va == -(g * va)) by (nonlinear_arith);
        assert(gs * (xs + sb) == gs * xs + gs * sb && gs * (xs + sa) == gs * xs + gs * sa)
            by (nonlinear_arith);
        let (c, cs) = (gathered(grid, n, p), gathered_size(grid, n, p));
        assert((c + g + g) * xi == c * xi + g * xi + g * xi && (c + g + 0) * xi == c * xi + g * xi
            && (c + 0 + g) * xi == c * xi + g * xi && (c + 0 + 0) * xi == c * xi)
            by (nonlinear_arith);
        assert((cs + gs + gs) * xs == cs * xs + gs * xs + gs * xs && (cs + gs + 0) * xs == cs * xs
            + gs * xs && (cs + 0 + gs) * xs == cs * xs + gs * xs && (cs + 0 + 0) * xs == cs * xs)
            by (nonlinear_arith);
    }
}

/// The system a grid poses is Kirchhoff's law: at every node that is not held, what the
/// matrix gives for an answer less the right-hand side is what the edges carry out of
/// the node at that answer's voltages, plus the load it draws, signed, to within the
/// roundings of the two sums.
pub proof fn lemma_posed_system_is_kirchhoffs_law(grid: &PowerGrid, x: Seq<Number>, n: int)
    requires
        grid.wf(),
        0 <= n < grid.nodes(),
        !grid.source_node@.contains(n as u32),
        x.len() == grid.unknowns().len(),
        grid.matrix().times(x)[grid.unknown(n) as int].finite(),
        grid.rhs_to(grid.unknown(n) as int, grid.edges() as nat).finite(),
        clean(
            grid.diag_to(grid.unknown(n) as int, grid.edges() as nat),
            x[grid.unknown(n) as int],
        ),
        gentle(grid, voltages(grid, x)),
        forall|e: int|
            0 <= e < grid.edges() ==> clean(
                #[trigger] grid.conductance(e),
                grid.start(grid.edge_from@[e] as int),
            ) && clean(grid.conductance(e), grid.start(grid.edge_to@[e] as int)),
    ensures
        ({
            let i = grid.unknown(n) as int;
            let all = grid.edges() as nat;
            let v = voltages(grid, x);
            strays(
                (grid.matrix().times(x)[i].value() - grid.rhs_to(i, all).value()) * unit(),
                carried(grid, v, n, all) + grid.node_load@[n].value() * unit(),
                borne(grid, v, n, all) + size_of(grid.node_load@[n].value()) * unit(),
                4 * all + 2,
            )
        }),
{
    let i = grid.unknown(n) as int;
    let all = grid.edges() as nat;
    let v = voltages(grid, x);
    let u = unit();
    grid.lemma_unknown(n);
    lemma_row(grid, x, n, all);
    lemma_load_is_drawn(grid, n, all);
    lemma_parts_are_carried(grid, x, n, all);
    let row = grid.matrix().times(x)[i];
    let rhs = grid.rhs_to(i, all);
    let load = grid.node_load@[n].value();
    let (d, s) = (
        gathered(grid, n, all) * x[i].value() + across(grid, v, n, all),
        gathered_size(grid, n, all) * size_of(x[i].value()) + across_size(grid, v, n, all),
    );
    let (r, t) = (-(load * u) + pad_terms(grid, n, all), size_of(load) * u + pad_sizes(
        grid,
        n,
        all,
    ));
    lemma_strays_more(rhs.value() * u, r, t, 2 * all + 1, 4 * all + 2);
    lemma_strays_negated(rhs.value() * u, r, t, 4 * all + 2);
    lemma_strays_add(row.value() * u, d, s, -(rhs.value() * u), -r, t, 4 * all + 2);
    assert((row.value() - rhs.value()) * u == row.value() * u + -(rhs.value() * u))
        by (nonlinear_arith);
}

/// Microamps per millivolt and ohm are a thousand.
proof fn lemma_thousand()
    ensures
        (Number { bits: UA_PER_MV_OHM }).value() == 1000 * unit(),
        (Number { bits: UA_PER_MV_OHM }).grounded(),
        moderate(Number { bits: UA_PER_MV_OHM }, 10),
{
    vstd::arithmetic::power2::lemma2_to64();
    vstd::arithmetic::power2::lemma2_to64_rest();
    assert((UA_PER_MV_OHM as int) / (HIDDEN as int) == 1032);
    assert((UA_PER_MV_OHM as int) % (HIDDEN as int) == 0xF_4000_0000_0000);
    lemma_pow2_adds(43, 1031);
    lemma_pow2_adds(10, 1074);
    lemma_pow2_strictly_increases(1064, 1074);
    let (t, u) = (pow2(1031), pow2(1074));
    lemma_pow2_pos(1031);
    lemma_pow2_pos(1074);
    assert(u == 0x800_0000_0000 * t);
    assert((HIDDEN + 0xF_4000_0000_0000) * t == 1000 * u) by (nonlinear_arith)
        requires
            u == 0x800_0000_0000 * t,
            HIDDEN == 0x10_0000_0000_0000,
    ;
    assert(1000 * u <= pow2(10) * u) by (nonlinear_arith)
        requires
            pow2(10) == 1024,
            u > 0,
    ;
}

/// An edge conducts a thousand microamps per millivolt over its resistance in ohms, to
/// within a rounding.
pub proof fn lemma_conductance_is_ohms_law(grid: &PowerGrid, e: int)
    requires
        grid.edge_resistance@[e].grounded(),
        moderate(grid.edge_resistance@[e], 900),
    ensures
        approximates(
            grid.conductance(e),
            1000 * unit(),
            grid.edge_resistance@[e].value(),
            1,
        ),
{
    let r = grid.edge_resistance@[e];
    let k = Number { bits: UA_PER_MV_OHM };
    lemma_thousand();
    lemma_itself(k);
    lemma_itself(r);
    lemma_pow2_pos(1074);
    lemma_pow2_pos((1074 - 900) as nat);
    lemma_quotient(k, r, 10, 900, k.value(), unit(), r.value(), unit(), 0, 0);
    let u = unit();
    assert(k.value() * u == (1000 * u) * u && u * r.value() == r.value() * u) by (nonlinear_arith)
        requires
            k.value() == 1000 * u,
    ;
    crate::closeness::lemma_reduced(k.over_spec(r), 1000 * u, r.value(), u, 1);
}

/// A solution's drops are what its voltages are short of nominal, and its currents are
/// what Ohm's law gives from one end of an edge to the other, signed, each to within
/// its roundings: a node above nominal has a drop below zero, and current runs from the
/// higher end to the lower.
pub proof fn lemma_solution_obeys_ohms_law(
    grid: &PowerGrid,
    x: Seq<Number>,
    out: &PowerSolution,
    n: int,
    e: int,
)
    requires
        grid.wf(),
        describes(grid, x, out),
        out.consistent(grid),
        0 <= n < grid.nodes(),
        0 <= e < grid.edges(),
        clean(
            out.node_voltage@[grid.edge_from@[e] as int].minus_spec(
                out.node_voltage@[grid.edge_to@[e] as int],
            ),
            grid.conductance(e),
        ),
    ensures
        ({
            let short = grid.node_nominal@[n].value() - out.node_voltage@[n].value();
            let d = out.node_voltage@[grid.edge_from@[e] as int].value()
                - out.node_voltage@[grid.edge_to@[e] as int].value();
            let g = grid.conductance(e).value();
            &&& strays(out.node_drop@[n].value(), short, size_of(short), 1)
            &&& strays(
                out.branch_current@[e].value() * unit(),
                d * g,
                size_of(d) * size_of(g),
                2,
            )
            &&& out.node_drop@[n].value() < 0 <==> out.node_voltage@[n].value()
                > grid.node_nominal@[n].value()
            &&& d * g > 0 ==> out.branch_current@[e].value() > 0
            &&& d * g < 0 ==> out.branch_current@[e].value() < 0
        }),
{
    let v = out.node_voltage@;
    let (a, b) = (grid.edge_from@[e] as int, grid.edge_to@[e] as int);
    assert(out.node_drop@[n].finite());
    assert(out.branch_current@[e].finite());
    let nom = grid.node_nominal@[n];
    assert(v[n].negated_spec().value() == -v[n].value());
    lemma_sum_strays(nom, v[n].negated_spec());
    let short = nom.value() - v[n].value();
    lemma_exactly(short, size_of(short));
    lemma_strays_once(out.node_drop@[n].value(), short, short, size_of(short), 0);
    let gap = v[a].minus_spec(v[b]);
    let g = grid.conductance(e);
    lemma_product_rounds(gap, g);
    assert(v[b].negated_spec().value() == -v[b].value());
    lemma_sum_strays(v[a], v[b].negated_spec());
    let d = v[a].value() - v[b].value();
    lemma_exactly(d, size_of(d));
    lemma_strays_once(gap.value(), d, d, size_of(d), 0);
    lemma_times_strays(gap, g, d, size_of(d), 1);
    lemma_strays_sign(out.node_drop@[n].value(), short, 1);
    let (q, flow, u) = (g.value(), out.branch_current@[e].value(), unit());
    assert(size_of(d) * size_of(q) == size_of(d * q)) by (nonlinear_arith)
        requires
            size_of(d) == (if d < 0 { -d } else { d }),
            size_of(q) == (if q < 0 { -q } else { q }),
            size_of(d * q) == (if d * q < 0 { -(d * q) } else { d * q }),
    ;
    lemma_strays_sign(flow * u, d * q, 2);
    lemma_pow2_pos(1074);
    assert((flow * u > 0 ==> flow > 0) && (flow * u < 0 ==> flow < 0)) by (nonlinear_arith)
        requires
            u > 0,
    ;
}

} // verus!
