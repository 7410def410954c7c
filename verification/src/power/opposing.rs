//! How an answer turns with the loads it is asked of.
use crate::addition::lemma_nearest;
use crate::design::lemma_kept;
use crate::number::{magnitude, Number};
use crate::power::descent::Standing;
use crate::power::factor::{
    backward, factor_row, forward, row_less, scattered, Entries, Lower,
};
use crate::power::matrix::{differences, dot_spec, dot_to, lessened, moved, Matrix};
use crate::power::network::{PowerGrid, PowerSolution};
use crate::power::solve::{describes, voltage, weight, SolveConfig};
use vstd::arithmetic::power2::{lemma_pow2_pos, pow2};
use vstd::prelude::*;

verus! {

/// Whether one number is another with its sign turned; zero is so of zero, and what is
/// no number of what is no number.
pub open spec fn opposed(x: Number, y: Number) -> bool {
    if x.is_nan_spec() {
        y.is_nan_spec()
    } else {
        x.pattern() == y.pattern() && (x.pattern() == 0 || x.negative() != y.negative())
    }
}

/// Whether two columns are opposed entry by entry.
pub open spec fn all_opposed(a: Seq<Number>, b: Seq<Number>) -> bool {
    a.len() == b.len() && forall|i: int| 0 <= i < a.len() ==> opposed(#[trigger] a[i], b[i])
}

/// Whether two numbers are the same but for the sign of a zero.
spec fn alike(x: Number, y: Number) -> bool {
    if x.is_nan_spec() {
        y.is_nan_spec()
    } else {
        x.pattern() == y.pattern() && (x.pattern() == 0 || x.negative() == y.negative())
    }
}

/// A zero with a minus sign.
spec fn bare(x: Number) -> bool {
    x.pattern() == 0 && x.negative()
}

proof fn lemma_times_opposed(k: Number, x: Number, y: Number)
    requires
        opposed(x, y),
    ensures
        opposed(k.times_spec(x), k.times_spec(y)),
        opposed(x.times_spec(k), y.times_spec(k)),
{
    lemma_pow2_pos(1074);
    if x.finite() && k.finite() {
        lemma_nearest(magnitude(k.pattern()) * magnitude(x.pattern()), pow2(1074));
        lemma_nearest(magnitude(x.pattern()) * magnitude(k.pattern()), pow2(1074));
    }
}

proof fn lemma_over_opposed(x: Number, y: Number, k: Number)
    requires
        opposed(x, y),
    ensures
        opposed(x.over_spec(k), y.over_spec(k)),
{
    lemma_pow2_pos(1074);
    if x.finite() && k.finite() && k.pattern() > 0 {
        crate::number::lemma_magnitude_increases(0, k.pattern());
        lemma_nearest(magnitude(x.pattern()) * pow2(1074), magnitude(k.pattern()));
    }
}

proof fn lemma_plus_opposed(x: Number, y: Number, a: Number, b: Number)
    requires
        opposed(x, y),
        opposed(a, b),
    ensures
        opposed(x.plus_spec(a), y.plus_spec(b)),
{
    assert(magnitude(0) == 0);
    if x.finite() && a.finite() {
        let sum = x.value() + a.value();
        assert(y.value() + b.value() == -sum);
        if sum < 0 {
            lemma_nearest((-sum) as nat, 1);
        } else {
            lemma_nearest(sum as nat, 1);
        }
    }
}

proof fn lemma_minus_opposed(x: Number, y: Number, a: Number, b: Number)
    requires
        opposed(x, y),
        opposed(a, b),
    ensures
        opposed(x.minus_spec(a), y.minus_spec(b)),
{
    assert(opposed(a.negated_spec(), b.negated_spec()));
    lemma_plus_opposed(x, y, a.negated_spec(), b.negated_spec());
}

/// A sum that is no bare zero is the same whichever of two like numbers is added.
proof fn lemma_gather(acc: Number, p: Number, q: Number)
    requires
        alike(p, q),
        !bare(acc),
    ensures
        acc.plus_spec(p) == acc.plus_spec(q),
        !bare(acc.plus_spec(p)),
{
    assert(magnitude(0) == 0);
    if acc.finite() && p.finite() {
        let sum = acc.value() + p.value();
        assert(acc.value() + q.value() == sum);
        if sum < 0 {
            lemma_nearest((-sum) as nat, 1);
            crate::addition::lemma_nearest_exact(0);
        } else {
            lemma_nearest(sum as nat, 1);
        }
        if acc.pattern() > 0 {
            crate::number::lemma_magnitude_increases(0, acc.pattern());
        }
        if sum == 0 {
            assert(!(acc.negative() && p.negative()));
            assert(!(acc.negative() && q.negative()));
        }
        if sum < 0 {
            lemma_not_lost((-sum) as nat);
        }
    } else if !p.is_nan_spec() && !p.finite() {
        assert(p.bits == q.bits);
    }
}

/// A whole number of the smallest unit never rounds to nothing.
proof fn lemma_not_lost(n: nat)
    requires
        n > 0,
    ensures
        crate::number::nearest(n, 1) > 0,
{
    crate::addition::lemma_nearest_order(1, n, 1);
    assert(magnitude(1) == 1) by {
        crate::number::lemma_split(1);
        vstd::arithmetic::power2::lemma2_to64();
    }
    crate::addition::lemma_nearest_exact(1);
}

proof fn lemma_products_alike(x: Number, y: Number, a: Number, b: Number)
    requires
        opposed(x, y),
        opposed(a, b),
    ensures
        alike(x.times_spec(a), y.times_spec(b)),
{
    lemma_pow2_pos(1074);
    if x.finite() && a.finite() {
        lemma_nearest(magnitude(x.pattern()) * magnitude(a.pattern()), pow2(1074));
    }
}

proof fn lemma_dots(a: Seq<Number>, b: Seq<Number>, c: Seq<Number>, d: Seq<Number>, n: nat)
    requires
        all_opposed(a, c),
        all_opposed(b, d),
        n <= a.len(),
        a.len() == b.len(),
    ensures
        dot_to(a, b, n) == dot_to(c, d, n),
        !bare(dot_to(a, b, n)),
    decreases n,
{
    if n > 0 {
        let m = n - 1;
        lemma_dots(a, b, c, d, m as nat);
        assert(opposed(a[m], c[m]) && opposed(b[m], d[m]));
        lemma_products_alike(a[m], c[m], b[m], d[m]);
        lemma_gather(
            dot_to(a, b, m as nat),
            a[m].times_spec(b[m]),
            c[m].times_spec(d[m]),
        );
    }
}

proof fn lemma_rows(m: Matrix, v: Seq<Number>, w: Seq<Number>, i: int, n: nat)
    requires
        m.wf(),
        0 <= i < m.size(),
        n <= m.off[i].len(),
        v.len() == m.size(),
        all_opposed(v, w),
    ensures
        opposed(m.row_times(i, v, n), m.row_times(i, w, n)),
    decreases n,
{
    if n == 0 {
        let zero = Number { bits: 0 };
        assert(opposed(v[i], w[i]));
        lemma_times_opposed(m.diag[i], v[i], w[i]);
        lemma_plus_opposed(zero, zero, m.diag[i].times_spec(v[i]), m.diag[i].times_spec(w[i]));
    } else {
        lemma_rows(m, v, w, i, (n - 1) as nat);
        let (c, x) = m.off[i][n - 1];
        assert(c < m.size());
        assert(opposed(v[c as int], w[c as int]));
        lemma_times_opposed(x, v[c as int], w[c as int]);
        lemma_plus_opposed(
            m.row_times(i, v, (n - 1) as nat),
            m.row_times(i, w, (n - 1) as nat),
            x.times_spec(v[c as int]),
            x.times_spec(w[c as int]),
        );
    }
}

proof fn lemma_images(m: Matrix, v: Seq<Number>, w: Seq<Number>)
    requires
        m.wf(),
        v.len() == m.size(),
        all_opposed(v, w),
    ensures
        all_opposed(m.times(v), m.times(w)),
{
    assert forall|i: int| 0 <= i < m.size() implies opposed(
        #[trigger] m.times(v)[i],
        m.times(w)[i],
    ) by {
        lemma_rows(m, v, w, i, m.off[i].len());
    }
}

/// Every entry of a factor is left of its diagonal.
spec fn left_of_diagonal(l: Lower, n: nat) -> bool {
    &&& l.rows.len() == n
    &&& l.pivot.len() == n
    &&& forall|i: int, t: int|
        0 <= i < n && 0 <= t < l.rows[i].len() ==> (#[trigger] l.rows[i][t]).0 < i
}

proof fn lemma_stage(done: Lower, stage: Entries, diag: Number, t: nat, i: int)
    requires
        t <= stage.len(),
        forall|k: int| 0 <= k < stage.len() ==> (#[trigger] stage[k]).0 < i,
    ensures
        forall|k: int|
            0 <= k < factor_row(done, stage, diag, t).0.len() ==> (#[trigger] factor_row(
                done,
                stage,
                diag,
                t,
            ).0[k]).0 < i,
    decreases t,
{
    if t > 0 {
        lemma_stage(done, stage, diag, (t - 1) as nat, i);
        let before = factor_row(done, stage, diag, (t - 1) as nat).0;
        let now = factor_row(done, stage, diag, t).0;
        assert forall|k: int| 0 <= k < now.len() implies (#[trigger] now[k]).0 < i by {
            if k < before.len() {
                assert(now[k] == before[k]);
            } else {
                assert(stage[t - 1].0 < i);
            }
        }
    }
}

proof fn lemma_factor(m: Matrix, n: nat)
    requires
        m.wf(),
        n <= m.size(),
    ensures
        m.factored(n) matches Some(l) ==> left_of_diagonal(l, n),
    decreases n,
{
    if n > 0 {
        let i = n - 1;
        lemma_factor(m, i as nat);
        match m.factored(i as nat) {
            Some(done) => {
                let stage = m.lower(i);
                lemma_kept(i as nat, |c: int| crate::power::factor::occurs(m.off[i], c));
                assert forall|k: int| 0 <= k < stage.len() implies (#[trigger] stage[k]).0 < i by {
                    assert(m.lower_columns(i)[k] < i);
                }
                lemma_stage(done, stage, m.diag[i], stage.len(), i);
            },
            None => {},
        }
    }
}

proof fn lemma_row_less(row: Entries, y: Seq<Number>, z: Seq<Number>, s: Number, r: Number, t: nat)
    requires
        t <= row.len(),
        all_opposed(y, z),
        forall|k: int| 0 <= k < row.len() ==> (#[trigger] row[k]).0 < y.len(),
        opposed(s, r),
    ensures
        opposed(row_less(row, y, s, t), row_less(row, z, r, t)),
    decreases t,
{
    if t > 0 {
        lemma_row_less(row, y, z, s, r, (t - 1) as nat);
        let (c, x) = row[t - 1];
        assert(opposed(y[c as int], z[c as int]));
        lemma_times_opposed(x, y[c as int], z[c as int]);
        lemma_minus_opposed(
            row_less(row, y, s, (t - 1) as nat),
            row_less(row, z, r, (t - 1) as nat),
            x.times_spec(y[c as int]),
            x.times_spec(z[c as int]),
        );
    }
}

proof fn lemma_forward(l: Lower, size: nat, r: Seq<Number>, s: Seq<Number>, n: nat)
    requires
        left_of_diagonal(l, size),
        n <= size,
        r.len() == size,
        all_opposed(r, s),
    ensures
        forward(l, r, n).len() == n,
        all_opposed(forward(l, r, n), forward(l, s, n)),
    decreases n,
{
    if n > 0 {
        let i = n - 1;
        lemma_forward(l, size, r, s, i as nat);
        let (y, z) = (forward(l, r, i as nat), forward(l, s, i as nat));
        let row = l.rows[i];
        assert forall|k: int| 0 <= k < row.len() implies (#[trigger] row[k]).0 < y.len() by {
            assert(l.rows[i][k].0 < i);
        }
        assert(opposed(r[i], s[i]));
        lemma_row_less(row, y, z, r[i], s[i], row.len());
        lemma_over_opposed(
            row_less(row, y, r[i], row.len()),
            row_less(row, z, s[i], row.len()),
            l.pivot[i],
        );
        let (a, b) = (forward(l, r, n), forward(l, s, n));
        assert forall|k: int| 0 <= k < a.len() implies opposed(#[trigger] a[k], b[k]) by {
            if k < i {
                assert(opposed(y[k], z[k]));
            }
        }
    }
}

proof fn lemma_scattered(row: Entries, y: Seq<Number>, z: Seq<Number>, v: Number, w: Number, t: nat)
    requires
        t <= row.len(),
        all_opposed(y, z),
        forall|k: int| 0 <= k < row.len() ==> (#[trigger] row[k]).0 < y.len(),
        opposed(v, w),
    ensures
        scattered(row, y, v, t).len() == y.len(),
        all_opposed(scattered(row, y, v, t), scattered(row, z, w, t)),
    decreases t,
{
    if t > 0 {
        lemma_scattered(row, y, z, v, w, (t - 1) as nat);
        let (a, b) = (
            scattered(row, y, v, (t - 1) as nat),
            scattered(row, z, w, (t - 1) as nat),
        );
        let (c, x) = row[t - 1];
        assert(opposed(a[c as int], b[c as int]));
        lemma_times_opposed(x, v, w);
        lemma_minus_opposed(a[c as int], b[c as int], x.times_spec(v), x.times_spec(w));
        let (p, q) = (scattered(row, y, v, t), scattered(row, z, w, t));
        assert forall|k: int| 0 <= k < p.len() implies opposed(#[trigger] p[k], q[k]) by {
            assert(opposed(a[k], b[k]));
        }
    }
}

proof fn lemma_backward(l: Lower, size: nat, y: Seq<Number>, z: Seq<Number>, k: nat)
    requires
        left_of_diagonal(l, size),
        y.len() == size,
        all_opposed(y, z),
        k <= size,
    ensures
        backward(l, y, k).len() == size,
        all_opposed(backward(l, y, k), backward(l, z, k)),
    decreases size - k,
{
    if k < size {
        lemma_backward(l, size, y, z, k + 1);
        let (a, b) = (backward(l, y, k + 1), backward(l, z, k + 1));
        let i = k as int;
        assert(opposed(a[i], b[i]));
        lemma_over_opposed(a[i], b[i], l.pivot[i]);
        let (v, w) = (a[i].over_spec(l.pivot[i]), b[i].over_spec(l.pivot[i]));
        let (p, q) = (a.update(i, v), b.update(i, w));
        assert forall|j: int| 0 <= j < p.len() implies opposed(#[trigger] p[j], q[j]) by {
            assert(opposed(a[j], b[j]));
        }
        let row = l.rows[i];
        assert forall|j: int| 0 <= j < row.len() implies (#[trigger] row[j]).0 < p.len() by {
            assert(l.rows[i][j].0 < i);
        }
        lemma_scattered(row, p, q, v, w, row.len());
    }
}

proof fn lemma_conditioned(m: Matrix, r: Seq<Number>, s: Seq<Number>)
    requires
        m.wf(),
        r.len() == m.size(),
        all_opposed(r, s),
    ensures
        m.conditioned(r).len() == m.size(),
        all_opposed(m.conditioned(r), m.conditioned(s)),
{
    lemma_factor(m, m.size());
    match m.factor() {
        Some(l) => {
            lemma_forward(l, m.size(), r, s, m.size());
            lemma_backward(
                l,
                m.size(),
                forward(l, r, m.size()),
                forward(l, s, m.size()),
                0,
            );
        },
        None => {
            assert forall|i: int| 0 <= i < m.size() implies opposed(
                #[trigger] m.conditioned(r)[i],
                m.conditioned(s)[i],
            ) by {
                assert(opposed(r[i], s[i]));
                lemma_times_opposed(m.inv_diag[i], r[i], s[i]);
            }
        },
    }
}

/// Whether two iterations stand opposed: at turned answers, as far from their goal.
spec fn stand_opposed(s: Standing, t: Standing, n: nat) -> bool {
    &&& s.x.len() == n
    &&& s.r.len() == n
    &&& s.p.len() == n
    &&& all_opposed(s.x, t.x)
    &&& all_opposed(s.r, t.r)
    &&& all_opposed(s.p, t.p)
    &&& s.rz == t.rz
    &&& s.residual == t.residual
    &&& s.iterations == t.iterations
}

proof fn lemma_moved(a: Seq<Number>, b: Seq<Number>, k: Number, c: Seq<Number>, d: Seq<Number>)
    requires
        all_opposed(a, b),
        all_opposed(c, d),
        a.len() == c.len(),
    ensures
        all_opposed(moved(a, k, c), moved(b, k, d)),
        all_opposed(lessened(a, k, c), lessened(b, k, d)),
        all_opposed(differences(a, c), differences(b, d)),
{
    assert forall|i: int| 0 <= i < a.len() implies opposed(
        #[trigger] moved(a, k, c)[i],
        moved(b, k, d)[i],
    ) by {
        assert(opposed(a[i], b[i]) && opposed(c[i], d[i]));
        lemma_times_opposed(k, c[i], d[i]);
        lemma_plus_opposed(a[i], b[i], k.times_spec(c[i]), k.times_spec(d[i]));
    }
    assert forall|i: int| 0 <= i < a.len() implies opposed(
        #[trigger] lessened(a, k, c)[i],
        lessened(b, k, d)[i],
    ) by {
        assert(opposed(a[i], b[i]) && opposed(c[i], d[i]));
        lemma_times_opposed(k, c[i], d[i]);
        lemma_minus_opposed(a[i], b[i], k.times_spec(c[i]), k.times_spec(d[i]));
    }
    assert forall|i: int| 0 <= i < a.len() implies opposed(
        #[trigger] differences(a, c)[i],
        differences(b, d)[i],
    ) by {
        assert(opposed(a[i], b[i]) && opposed(c[i], d[i]));
        lemma_minus_opposed(a[i], b[i], c[i], d[i]);
    }
}

proof fn lemma_settled(m: Matrix, s: Standing, t: Standing, goal: Number, left: nat)
    requires
        m.wf(),
        stand_opposed(s, t, m.size()),
    ensures
        stand_opposed(m.settled(s, goal, left), m.settled(t, goal, left), m.size()),
    decreases left,
{
    if left > 0 && goal.lt(s.residual) {
        let (a, b) = (m.times(s.p), m.times(t.p));
        lemma_images(m, s.p, t.p);
        lemma_dots(s.p, a, t.p, b, s.p.len());
        let curvature = dot_spec(s.p, a);
        assert(curvature == dot_spec(t.p, b));
        if (Number { bits: 0 }).lt(curvature) {
            let alpha = s.rz.over_spec(curvature);
            lemma_moved(s.r, t.r, alpha, a, b);
            lemma_moved(s.x, t.x, alpha, s.p, t.p);
            let (r, q) = (lessened(s.r, alpha, a), lessened(t.r, alpha, b));
            lemma_conditioned(m, r, q);
            let (y, z) = (m.conditioned(r), m.conditioned(q));
            lemma_dots(r, y, q, z, r.len());
            lemma_dots(r, r, q, q, r.len());
            let next = dot_spec(r, y);
            lemma_moved(y, z, next.over_spec(s.rz), s.p, t.p);
            lemma_settled(m, m.stepped(s)->0, m.stepped(t)->0, goal, (left - 1) as nat);
        }
    }
}

/// Whether one grid is another with every load turned, both held at zero and measured
/// from zero.
pub open spec fn turned(a: &PowerGrid, b: &PowerGrid) -> bool {
    &&& a.node_load@.len() == b.node_load@.len()
    &&& forall|n: int|
        0 <= n < a.node_load@.len() ==> opposed(#[trigger] a.node_load@[n], b.node_load@[n])
    &&& a.node_net@ == b.node_net@
    &&& a.node_nominal@ == b.node_nominal@
    &&& forall|n: int|
        0 <= n < a.node_nominal@.len() ==> (#[trigger] a.node_nominal@[n]).pattern() == 0
    &&& a.source_node@ == b.source_node@
    &&& a.source_voltage@ == b.source_voltage@
    &&& forall|p: int|
        0 <= p < a.source_voltage@.len() ==> (#[trigger] a.source_voltage@[p]).pattern() == 0
    &&& a.edge_from@ == b.edge_from@
    &&& a.edge_to@ == b.edge_to@
    &&& a.edge_resistance@ == b.edge_resistance@
}

proof fn lemma_same_start(a: &PowerGrid, b: &PowerGrid, n: int)
    requires
        a.wf(),
        b.wf(),
        turned(a, b),
        0 <= n < a.nodes(),
    ensures
        a.start(n) == b.start(n),
        a.start(n).pattern() == 0,
{
    if a.source_node@.contains(n as u32) {
        let k = a.source_node@.index_of(n as u32);
        assert(a.source_voltage@[k].pattern() == 0);
    } else {
        assert(a.node_nominal@[n].pattern() == 0);
    }
}

/// What is zero or no number is opposed to itself.
proof fn lemma_still(g: Number, z: Number, w: Number)
    requires
        z.pattern() == 0,
    ensures
        opposed(g.times_spec(z).times_spec(w), g.times_spec(z).times_spec(w)),
{
}

proof fn lemma_rhs(a: &PowerGrid, b: &PowerGrid, i: int, n: nat)
    requires
        a.wf(),
        b.wf(),
        turned(a, b),
        a.unknowns() == b.unknowns(),
        forall|k: int| a.unknown(k) == b.unknown(k),
        0 <= i < a.unknowns().len(),
        n <= a.edges(),
    ensures
        opposed(a.rhs_to(i, n), b.rhs_to(i, n)),
    decreases n,
{
    if n == 0 {
        lemma_kept(a.nodes() as nat, a.floats());
        let node = a.unknowns()[i] as int;
        assert(opposed(a.node_load@[node], b.node_load@[node]));
    } else {
        let e = n - 1;
        lemma_rhs(a, b, i, e as nat);
        let g = a.conductance(e);
        let (f, t) = (a.edge_from@[e] as int, a.edge_to@[e] as int);
        lemma_same_start(a, b, f);
        lemma_same_start(a, b, t);
        let (u, v) = (a.from_unknown(e), a.to_unknown(e));
        let none = crate::power::solve::NOT_AN_UNKNOWN;
        let (p, q) = (
            g.times_spec(a.start(t)).times_spec(weight(u != none && v == none)),
            g.times_spec(a.start(f)).times_spec(weight(v != none && u == none)),
        );
        lemma_still(g, a.start(t), weight(u != none && v == none));
        lemma_still(g, a.start(f), weight(v != none && u == none));
        let (x, y) = (a.rhs_to(i, e as nat), b.rhs_to(i, e as nat));
        lemma_plus_opposed(x, y, p, p);
        let (c, d) = if u == i {
            (x.plus_spec(p), y.plus_spec(p))
        } else {
            (x, y)
        };
        lemma_plus_opposed(c, d, q, q);
    }
}

proof fn lemma_same_matrix(a: &PowerGrid, b: &PowerGrid)
    requires
        a.wf(),
        b.wf(),
        turned(a, b),
    ensures
        a.unknowns() == b.unknowns(),
        forall|k: int| a.unknown(k) == b.unknown(k),
        a.matrix() == b.matrix(),
{
    assert(a.floats() =~= b.floats());
    assert forall|k: int| a.unknown(k) == b.unknown(k) by {}
    let n = a.unknowns().len();
    let edges = a.edges() as nat;
    assert forall|i: int| a.diag_to(i, edges) == b.diag_to(i, edges) && a.off_to(i, edges)
        == b.off_to(i, edges) by {
        lemma_same_row(a, b, i, edges);
    }
    assert(a.matrix().diag =~= b.matrix().diag);
    assert(a.matrix().inv_diag =~= b.matrix().inv_diag);
    assert(a.matrix().off =~= b.matrix().off);
}

proof fn lemma_same_row(a: &PowerGrid, b: &PowerGrid, i: int, n: nat)
    requires
        turned(a, b),
        forall|k: int| a.unknown(k) == b.unknown(k),
    ensures
        a.diag_to(i, n) == b.diag_to(i, n),
        a.off_to(i, n) == b.off_to(i, n),
    decreases n,
{
    if n > 0 {
        lemma_same_row(a, b, i, (n - 1) as nat);
    }
}

/// Turning every load of a grid held at zero turns its answer: the two are believed
/// alike, after as many steps, and every voltage, drop and branch current of the one is
/// that of the other with its sign turned.
pub proof fn lemma_turned_loads_turn_the_answer(
    a: &PowerGrid,
    b: &PowerGrid,
    config: SolveConfig,
    out: &PowerSolution,
    turn: &PowerSolution,
)
    requires
        a.wf(),
        b.wf(),
        turned(a, b),
        describes(a, a.settled(config).x, out),
        describes(b, b.settled(config).x, turn),
    ensures
        a.verdict(config) == b.verdict(config),
        all_opposed(out.node_voltage@, turn.node_voltage@),
        all_opposed(out.node_drop@, turn.node_drop@),
        all_opposed(out.branch_current@, turn.branch_current@),
{
    lemma_same_matrix(a, b);
    let m = a.matrix();
    a.lemma_matrix();
    let n = a.unknowns().len();
    let edges = a.edges() as nat;
    lemma_kept(a.nodes() as nat, a.floats());
    let (x, y) = (
        Seq::new(n, |i: int| a.start(a.unknowns()[i] as int)),
        Seq::new(n, |i: int| b.start(b.unknowns()[i] as int)),
    );
    let (c, d) = (
        Seq::new(n, |i: int| a.rhs_to(i, edges)),
        Seq::new(n, |i: int| b.rhs_to(i, edges)),
    );
    assert forall|i: int| 0 <= i < n implies opposed(#[trigger] x[i], y[i]) by {
        lemma_same_start(a, b, a.unknowns()[i] as int);
    }
    assert forall|i: int| 0 <= i < n implies opposed(#[trigger] c[i], d[i]) by {
        lemma_rhs(a, b, i, edges);
    }
    lemma_images(m, x, y);
    lemma_moved(c, d, Number { bits: 0 }, m.times(x), m.times(y));
    let (r, s) = (differences(c, m.times(x)), differences(d, m.times(y)));
    lemma_conditioned(m, r, s);
    let (z, w) = (m.conditioned(r), m.conditioned(s));
    lemma_dots(r, z, s, w, r.len());
    lemma_dots(r, r, s, s, r.len());
    let (f, g) = (m.begun(x, c), m.begun(y, d));
    assert(stand_opposed(f, g, n));
    assert(a.begun() == f && b.begun() == g);
    let goal = f.residual.times_spec(config.relative_tolerance);
    lemma_settled(m, f, g, goal, config.max_iterations as nat);
    let (p, q) = (a.settled(config).x, b.settled(config).x);
    assert(all_opposed(p, q) && p.len() == n);
    assert forall|k: int| 0 <= k < a.nodes() implies opposed(
        #[trigger] voltage(a, p, k),
        voltage(b, q, k),
    ) by {
        lemma_same_start(a, b, k);
        a.lemma_unknown(k);
        if !a.source_node@.contains(k as u32) {
            let j = a.unknown(k) as int;
            assert(opposed(p[j], q[j]));
        }
    }
    assert forall|k: int| 0 <= k < a.nodes() implies opposed(
        #[trigger] out.node_drop@[k],
        turn.node_drop@[k],
    ) by {
        let zero = a.node_nominal@[k];
        assert(zero.pattern() == 0);
        lemma_minus_opposed(zero, zero, voltage(a, p, k), voltage(b, q, k));
    }
    assert forall|e: int| 0 <= e < a.edges() implies opposed(
        #[trigger] out.branch_current@[e],
        turn.branch_current@[e],
    ) by {
        let (i, j) = (a.edge_from@[e] as int, a.edge_to@[e] as int);
        assert(opposed(voltage(a, p, i), voltage(b, q, i)));
        assert(opposed(voltage(a, p, j), voltage(b, q, j)));
        lemma_minus_opposed(
            voltage(a, p, i),
            voltage(b, q, i),
            voltage(a, p, j),
            voltage(b, q, j),
        );
        lemma_times_opposed(
            a.conductance(e),
            voltage(a, p, i).minus_spec(voltage(a, p, j)),
            voltage(b, q, i).minus_spec(voltage(b, q, j)),
        );
    }
}

} // verus!
