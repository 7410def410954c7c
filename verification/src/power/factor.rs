//! An incomplete factor of a sparse matrix, and the preconditioner it makes.
use crate::design::{kept, lemma_kept_is};
use crate::number::{Number, ONE};
use crate::order::{lemma_ordered, sort, Ranked};
use crate::power::matrix::Matrix;
use crate::power::solve::System;
use vstd::prelude::*;

verus! {

/// A row of entries, each a column and a value.
pub type Entries = Seq<(u32, Number)>;

/// Whether a row has an entry in a column.
pub open spec fn occurs(row: Entries, c: int) -> bool {
    exists|k: int| 0 <= k < row.len() && (#[trigger] row[k]).0 == c
}

/// The first `n` entries of a row in one column, summed in order.
pub open spec fn merged_to(row: Entries, c: int, n: nat) -> Number
    decreases n,
{
    if n == 0 {
        Number { bits: 0 }
    } else if row[n - 1].0 == c {
        merged_to(row, c, (n - 1) as nat).plus_spec(row[n - 1].1)
    } else {
        merged_to(row, c, (n - 1) as nat)
    }
}

impl Matrix {
    /// The columns left of the diagonal that row `i` has an entry in, ascending.
    pub open spec fn lower_columns(&self, i: int) -> Seq<u32> {
        kept(i as nat, |c: int| occurs(self.off[i], c))
    }

    /// Row `i` left of the diagonal, ascending, with the entries of one column
    /// merged into their sum.
    pub open spec fn lower(&self, i: int) -> Entries {
        Seq::new(
            self.lower_columns(i).len(),
            |t: int|
                (
                    self.lower_columns(i)[t],
                    merged_to(self.off[i], self.lower_columns(i)[t] as int, self.off[i].len()),
                ),
        )
    }
}

/// One where two columns are the same, zero where they differ.
pub open spec fn hit(a: u32, b: u32) -> Number {
    Number { bits: if a == b { ONE } else { 0 } }
}

fn hit_of(a: u32, b: u32) -> (r: Number)
    ensures
        r == hit(a, b),
{
    Number { bits: if a == b { ONE } else { 0 } }
}

/// What is left of a value once the products of two ascending rows are taken
/// off, from entries `p` and `q` on: the rows are walked together and entries in
/// different columns count for nothing.
pub open spec fn dotted(a: Entries, b: Entries, p: nat, q: nat, s: Number) -> Number
    decreases a.len() - p + (b.len() - q),
{
    if p < a.len() && q < b.len() {
        let (x, y) = (a[p as int], b[q as int]);
        dotted(
            a,
            b,
            if x.0 <= y.0 { p + 1 } else { p },
            if y.0 <= x.0 { q + 1 } else { q },
            s.minus_spec(x.1.times_spec(y.1).times_spec(hit(x.0, y.0))),
        )
    } else {
        s
    }
}

/// The factor: each row left of the diagonal, and the diagonal.
pub struct Lower {
    pub rows: Seq<Entries>,
    pub pivot: Seq<Number>,
}

/// The first `t` entries of the next row of a factor, and what is left of the
/// diagonal once their squares are taken off.
pub open spec fn factor_row(done: Lower, stage: Entries, diag: Number, t: nat) -> (Entries, Number)
    decreases t,
{
    if t == 0 {
        (Seq::empty(), diag)
    } else {
        let (before, d) = factor_row(done, stage, diag, (t - 1) as nat);
        let (j, s) = stage[t - 1];
        let v = dotted(before, done.rows[j as int], 0, 0, s).over_spec(done.pivot[j as int]);
        (before.push((j, v)), d.minus_spec(v.times_spec(v)))
    }
}

impl Matrix {
    /// The first `n` rows of the factor with zero fill; none where a pivot is not
    /// positive and finite.
    pub open spec fn factored(&self, n: nat) -> Option<Lower>
        decreases n,
    {
        if n == 0 {
            Some(Lower { rows: Seq::empty(), pivot: Seq::empty() })
        } else {
            match self.factored((n - 1) as nat) {
                None => None,
                Some(done) => {
                    let stage = self.lower(n - 1);
                    let (row, d) = factor_row(done, stage, self.diag[n - 1], stage.len());
                    if (Number { bits: 0 }).lt(d) && d.finite() {
                        Some(
                            Lower {
                                rows: done.rows.push(row),
                                pivot: done.pivot.push(d.sqrt_spec()),
                            },
                        )
                    } else {
                        None
                    }
                },
            }
        }
    }

    /// The factor of the matrix, where it has one.
    pub open spec fn factor(&self) -> Option<Lower> {
        self.factored(self.size())
    }
}

/// A value less the first `t` products of a row with a column.
pub open spec fn row_less(row: Entries, y: Seq<Number>, s: Number, t: nat) -> Number
    decreases t,
{
    if t == 0 {
        s
    } else {
        let (c, x) = row[t - 1];
        row_less(row, y, s, (t - 1) as nat).minus_spec(x.times_spec(y[c as int]))
    }
}

/// The first `n` values of the forward substitution.
pub open spec fn forward(l: Lower, r: Seq<Number>, n: nat) -> Seq<Number>
    decreases n,
{
    if n == 0 {
        Seq::empty()
    } else {
        let y = forward(l, r, (n - 1) as nat);
        let row = l.rows[n - 1];
        y.push(row_less(row, y, r[n - 1], row.len()).over_spec(l.pivot[n - 1]))
    }
}

/// A column less a multiple of the first `t` entries of a row.
pub open spec fn scattered(row: Entries, z: Seq<Number>, v: Number, t: nat) -> Seq<Number>
    decreases t,
{
    if t == 0 {
        z
    } else {
        let (c, x) = row[t - 1];
        let before = scattered(row, z, v, (t - 1) as nat);
        before.update(c as int, before[c as int].minus_spec(x.times_spec(v)))
    }
}

/// The back substitution from the last row down to row `k`.
pub open spec fn backward(l: Lower, y: Seq<Number>, k: nat) -> Seq<Number>
    decreases l.rows.len() - k,
{
    if k >= l.rows.len() {
        y
    } else {
        let z = backward(l, y, k + 1);
        let v = z[k as int].over_spec(l.pivot[k as int]);
        let row = l.rows[k as int];
        scattered(row, z.update(k as int, v), v, row.len())
    }
}

impl Matrix {
    /// A residual preconditioned: by the factor, or by the diagonal alone where
    /// there is none.
    pub open spec fn conditioned(&self, r: Seq<Number>) -> Seq<Number> {
        match self.factor() {
            Some(l) => backward(l, forward(l, r, self.size()), 0),
            None => Seq::new(self.size(), |i: int| r[i].times_spec(self.inv_diag[i])),
        }
    }
}

/// An incomplete factor.
pub struct Factor {
    pub rows: Vec<Vec<(u32, Number)>>,
    pub pivot: Vec<Number>,
}

impl Factor {
    pub open spec fn lower(&self) -> Lower {
        Lower { rows: Seq::new(self.rows@.len(), |i: int| self.rows@[i]@), pivot: self.pivot@ }
    }

    /// One pivot per row, and every entry left of the diagonal.
    pub open spec fn wf(&self) -> bool {
        &&& self.pivot@.len() == self.rows@.len()
        &&& forall|i: int, t: int|
            0 <= i < self.rows@.len() && 0 <= t < self.rows@[i]@.len() ==> (
            #[trigger] self.rows@[i]@[t]).0 < i
    }
}

/// The columns of row `i` left of the diagonal, as they first come, and the
/// sum of each in a column-wide accumulator.
fn gather(
    system: &System,
    i: usize,
    sum: &mut Vec<Number>,
    row_of: &mut Vec<u32>,
) -> (r: Vec<u32>)
    requires
        system.matrix().wf(),
        i < system.matrix().size(),
        old(sum)@.len() == system.matrix().size(),
        old(row_of)@.len() == system.matrix().size(),
        forall|c: int| 0 <= c < old(row_of)@.len() ==> (#[trigger] old(row_of)@[c]) <= i,
    ensures
        final(sum)@.len() == old(sum)@.len(),
        final(row_of)@.len() == old(row_of)@.len(),
        forall|c: int| 0 <= c < final(row_of)@.len() ==> (#[trigger] final(row_of)@[c]) <= i + 1,
        forall|t: int|
            0 <= t < r@.len() ==> (#[trigger] r@[t]) < i && occurs(
                system.matrix().off[i as int],
                r@[t] as int,
            ),
        forall|s: int, t: int| 0 <= s < t < r@.len() ==> r@[s] != r@[t],
        forall|c: u32| c < i
            && #[trigger] occurs(system.matrix().off[i as int], c as int) ==> r@.contains(c),
        forall|t: int|
            0 <= t < r@.len() ==> final(sum)@[(#[trigger] r@[t]) as int] == merged_to(
                system.matrix().off[i as int],
                r@[t] as int,
                system.matrix().off[i as int].len(),
            ),
{
    let ghost m = system.matrix();
    let ghost row = m.off[i as int];
    let mark: u32 = (i + 1) as u32;
    let mut r: Vec<u32> = Vec::new();
    let mut k: usize = 0;
    while k < system.off[i].len()
        invariant
            m == system.matrix(),
            m.wf(),
            i < m.size(),
            mark == i + 1,
            row == m.off[i as int],
            row == system.off@[i as int]@,
            k <= row.len(),
            sum@.len() == m.size(),
            row_of@.len() == m.size(),
            forall|c: int| 0 <= c < row_of@.len() ==> (#[trigger] row_of@[c]) <= mark,
            forall|t: int|
                0 <= t < r@.len() ==> (#[trigger] r@[t]) < i && occurs(row, r@[t] as int)
                    && row_of@[r@[t] as int] == mark && sum@[r@[t] as int] == merged_to(
                    row,
                    r@[t] as int,
                    k as nat,
                ),
            forall|c: int|
                0 <= c < m.size() && (#[trigger] row_of@[c]) == mark ==> r@.contains(c as u32),
            forall|c: int|
                0 <= c < m.size() && (#[trigger] row_of@[c]) != mark && c < i ==> merged_to(
                    row,
                    c,
                    k as nat,
                ) == (Number { bits: 0 }),
            forall|s: int, t: int| 0 <= s < t < r@.len() ==> r@[s] != r@[t],
            forall|j: int| 0 <= j < k && (#[trigger] row[j]).0 < i ==> r@.contains(row[j].0),
        decreases row.len() - k,
    {
        let (c, x) = system.off[i][k];
        assert(m.off[i as int][k as int].0 < m.size());
        assert(row[k as int].0 == c);
        let ghost r0 = r@;
        let ghost sum0 = sum@;
        let ghost mark0 = row_of@;
        if (c as usize) < i {
            let at: usize = c as usize;
            if row_of[at] != mark {
                proof {
                    assert forall|t: int| 0 <= t < r@.len() implies r@[t] != c by {
                        assert(row_of@[r@[t] as int] == mark);
                    }
                }
                row_of.set(at, mark);
                sum.set(at, Number { bits: 0 });
                r.push(c);
                assert(occurs(row, c as int));
            } else {
                assert(r@.contains(c));
            }
            let ghost then = sum@[at as int];
            assert(then == merged_to(row, c as int, k as nat)) by {
                if mark0[at as int] == mark {
                    let t = choose|t: int| 0 <= t < r0.len() && r0[t] == c;
                    assert(sum0[r0[t] as int] == merged_to(row, r0[t] as int, k as nat));
                } else {
                    assert(merged_to(row, at as int, k as nat) == (Number { bits: 0 }));
                }
            }
            let more = sum[at].plus(x);
            sum.set(at, more);
            proof {
                assert forall|t: int| 0 <= t < r@.len() implies (#[trigger] r@[t]) < i && occurs(
                    row,
                    r@[t] as int,
                ) && row_of@[r@[t] as int] == mark && sum@[r@[t] as int] == merged_to(
                    row,
                    r@[t] as int,
                    (k + 1) as nat,
                ) by {
                    if t < r0.len() {
                        assert(r0[t] == r@[t]);
                        assert(sum0[r0[t] as int] == merged_to(row, r0[t] as int, k as nat));
                    }
                }
                assert forall|q: int|
                    0 <= q < m.size() && (#[trigger] row_of@[q]) == mark implies r@.contains(
                    q as u32,
                ) by {
                    if q == at {
                        if mark0[q] == mark {
                            let t = choose|t: int| 0 <= t < r0.len() && r0[t] == c;
                            assert(r@[t] == q as u32);
                        } else {
                            assert(r@[r0.len() as int] == q as u32);
                        }
                    } else {
                        assert(mark0[q] == mark);
                        let t = choose|t: int| 0 <= t < r0.len() && r0[t] == q as u32;
                        assert(r@[t] == q as u32);
                    }
                }
                assert forall|q: int|
                    0 <= q < m.size() && (#[trigger] row_of@[q]) != mark && q < i implies merged_to(
                    row,
                    q,
                    (k + 1) as nat,
                ) == (Number { bits: 0 }) by {
                    assert(mark0[q] != mark);
                }
                assert(row_of@[at as int] == mark);
                assert forall|j: int| 0 <= j < k + 1
                    && (#[trigger] row[j]).0 < i implies r@.contains(
                    row[j].0,
                ) by {
                    if j < k {
                        let t = choose|t: int| 0 <= t < r0.len() && r0[t] == row[j].0;
                        assert(r@[t] == row[j].0);
                    } else {
                        assert(r@.contains(at as u32));
                    }
                }
            }
        } else {
            proof {
                assert forall|t: int| 0 <= t < r@.len() implies (#[trigger] r@[t]) < i && occurs(
                    row,
                    r@[t] as int,
                ) && row_of@[r@[t] as int] == mark && sum@[r@[t] as int] == merged_to(
                    row,
                    r@[t] as int,
                    (k + 1) as nat,
                ) by {
                }
            }
        }
        k = k + 1;
    }
    proof {
        assert forall|c: u32| c < i && #[trigger] occurs(row, c as int) implies r@.contains(c) by {
            let j = choose|j: int| 0 <= j < row.len() && (#[trigger] row[j]).0 == c;
            assert(r@.contains(row[j].0));
        }
    }
    r
}

/// Row `i` left of the diagonal, ascending and merged.
fn stage(
    system: &System,
    i: usize,
    sum: &mut Vec<Number>,
    row_of: &mut Vec<u32>,
) -> (r: Vec<(u32, Number)>)
    requires
        system.matrix().wf(),
        i < system.matrix().size(),
        old(sum)@.len() == system.matrix().size(),
        old(row_of)@.len() == system.matrix().size(),
        forall|c: int| 0 <= c < old(row_of)@.len() ==> (#[trigger] old(row_of)@[c]) <= i,
    ensures
        final(sum)@.len() == old(sum)@.len(),
        final(row_of)@.len() == old(row_of)@.len(),
        forall|c: int| 0 <= c < final(row_of)@.len() ==> (#[trigger] final(row_of)@[c]) <= i + 1,
        r@ == system.matrix().lower(i as int),
        forall|t: int| 0 <= t < r@.len() ==> (#[trigger] r@[t]).0 < i,
{
    let ghost m = system.matrix();
    let ghost row = m.off[i as int];
    let found = gather(system, i, sum, row_of);
    let order = sort(&found);
    let ghost keep = |c: int| occurs(row, c);
    proof {
        lemma_ordered(found@);
        lemma_distinct(found@);
        assert forall|t: int| 0 <= t < order@.len() implies (#[trigger] order@[t]) < i && keep(
            order@[t] as int,
        ) by {
            assert(found@.contains(order@[t]));
        }
        assert forall|c: u32| c < i && #[trigger] keep(c as int) implies order@.contains(c) by {
            assert(found@.contains(c));
            let x = choose|x: int| 0 <= x < found@.len() && found@[x] == c;
            assert(order@.contains(found@[x]));
        }
        lemma_kept_is(i as nat, keep, order@);
        assert(m.lower_columns(i as int) == order@);
    }
    let ghost want = m.lower(i as int);
    let mut r: Vec<(u32, Number)> = Vec::new();
    let mut t: usize = 0;
    while t < order.len()
        invariant
            t <= order@.len(),
            i < m.size(),
            row == m.off[i as int],
            want == m.lower(i as int),
            order@ == m.lower_columns(i as int),
            sum@.len() == m.size(),
            forall|x: int| 0 <= x < order@.len() ==> (#[trigger] order@[x]) < i
                && found@.contains(order@[x]),
            forall|x: int|
                0 <= x < found@.len() ==> sum@[(#[trigger] found@[x]) as int] == merged_to(
                    row,
                    found@[x] as int,
                    row.len(),
                ),
            r@ == want.take(t as int),
            forall|x: int| 0 <= x < r@.len() ==> (#[trigger] r@[x]).0 < i,
        decreases order@.len() - t,
    {
        let c: u32 = order[t];
        proof {
            assert(found@.contains(order@[t as int]));
            let x = choose|x: int| 0 <= x < found@.len() && found@[x] == c;
            assert(sum@[found@[x] as int] == merged_to(row, found@[x] as int, row.len()));
        }
        r.push((c, sum[c as usize]));
        t = t + 1;
        assert(r@ =~= want.take(t as int));
    }
    assert(r@ =~= want);
    r
}

/// Distinct numbers in order are strictly ascending.
proof fn lemma_distinct(s: Seq<u32>)
    requires
        forall|i: int, j: int| 0 <= i < j < s.len() ==> s[i] != s[j],
    ensures
        forall|i: int, j: int|
            0 <= i < j < crate::order::in_order(s).len() ==> crate::order::in_order(s)[i]
                < crate::order::in_order(s)[j],
{
    lemma_ordered(s);
    let o = crate::order::in_order(s);
    assert(s.no_duplicates());
    s.lemma_multiset_has_no_duplicates();
    o.lemma_multiset_has_no_duplicates_conv();
    assert forall|i: int, j: int| 0 <= i < j < o.len() implies o[i] < o[j] by {
        assert(o[i].rank() <= o[j].rank());
        assert(o[i] != o[j]);
    }
}

/// One value of the factor before it is divided by its pivot.
fn dot_rows(a: &Vec<(u32, Number)>, b: &Vec<(u32, Number)>, from: Number) -> (r: Number)
    ensures
        r == dotted(a@, b@, 0, 0, from),
{
    let mut s = from;
    let mut p: usize = 0;
    let mut q: usize = 0;
    while p < a.len() && q < b.len()
        invariant
            p <= a@.len(),
            q <= b@.len(),
            dotted(a@, b@, p as nat, q as nat, s) == dotted(a@, b@, 0, 0, from),
        decreases a@.len() - p + (b@.len() - q),
    {
        let (x, v) = a[p];
        let (y, w) = b[q];
        s = s.minus(v.times(w).times(hit_of(x, y)));
        if x <= y {
            p = p + 1;
        }
        if y <= x {
            q = q + 1;
        }
    }
    s
}

/// Factor the matrix of a system incompletely, with zero fill.
///
/// None where a pivot is not positive and finite: a factor half built is not
/// positive definite.
pub fn factorise(system: &System) -> (r: Option<Factor>)
    requires
        system.matrix().wf(),
    ensures
        r is Some <==> system.matrix().factor() is Some,
        r is Some ==> (r->0).lower() == system.matrix().factor()->0 && (r->0).wf()
            && (r->0).rows@.len() == system.matrix().size(),
{
    let ghost m = system.matrix();
    let size: usize = system.diag.len();
    let mut sum: Vec<Number> = Vec::new();
    let mut row_of: Vec<u32> = Vec::new();
    let mut c: usize = 0;
    while c < size
        invariant
            c <= size,
            sum@.len() == c,
            row_of@.len() == c,
            forall|x: int| 0 <= x < c ==> (#[trigger] row_of@[x]) == 0,
        decreases size - c,
    {
        sum.push(Number { bits: 0 });
        row_of.push(0);
        c = c + 1;
    }
    let mut done = Factor { rows: Vec::new(), pivot: Vec::new() };
    assert(done.lower().rows =~= Seq::<Entries>::empty());
    let mut i: usize = 0;
    while i < size
        invariant
            i <= size == m.size(),
            m == system.matrix(),
            m.wf(),
            sum@.len() == size,
            row_of@.len() == size,
            forall|x: int| 0 <= x < row_of@.len() ==> (#[trigger] row_of@[x]) <= i,
            done.wf(),
            done.rows@.len() == i,
            m.factored(i as nat) == Some(done.lower()),
        decreases size - i,
    {
        let staged = stage(system, i, &mut sum, &mut row_of);
        let ghost l = done.lower();
        let mut row: Vec<(u32, Number)> = Vec::new();
        let mut d = system.diag[i];
        let mut t: usize = 0;
        while t < staged.len()
            invariant
                i < size == m.size(),
                t <= staged@.len(),
                staged@ == m.lower(i as int),
                forall|x: int| 0 <= x < staged@.len() ==> (#[trigger] staged@[x]).0 < i,
                l == done.lower(),
                done.wf(),
                done.rows@.len() == i,
                (row@, d) == factor_row(l, staged@, m.diag[i as int], t as nat),
                row@.len() == t,
                forall|x: int| 0 <= x < row@.len() ==> (#[trigger] row@[x]).0 < i,
            decreases staged@.len() - t,
        {
            let (j, s) = staged[t];
            assert(staged@[t as int].0 < i);
            assert(l.rows[j as int] == done.rows@[j as int]@);
            let v = dot_rows(&row, &done.rows[j as usize], s).over(done.pivot[j as usize]);
            row.push((j, v));
            d = d.minus(v.times(v));
            t = t + 1;
        }
        if !((Number { bits: 0 }).less(d) && d.is_finite()) {
            proof {
                assert(m.factored((i + 1) as nat) is None);
                lemma_lost(m, (i + 1) as nat, size as nat);
            }
            return None;
        }
        let ghost was = done;
        done.rows.push(row);
        done.pivot.push(d.sqrt());
        i = i + 1;
        proof {
            assert(done.lower().rows =~= l.rows.push(row@));
            assert(done.lower().pivot =~= l.pivot.push(d.sqrt_spec()));
            assert forall|x: int, y: int|
                0 <= x < done.rows@.len() && 0 <= y < done.rows@[x]@.len() implies (
            #[trigger] done.rows@[x]@[y]).0 < x by {
                if x < was.rows@.len() {
                    assert(was.rows@[x]@[y].0 < x);
                }
            }
        }
    }
    Some(done)
}

/// A factor that stopped stays stopped.
proof fn lemma_lost(m: Matrix, from: nat, to: nat)
    requires
        from <= to,
        m.factored(from) is None,
    ensures
        m.factored(to) is None,
    decreases to - from,
{
    if from < to {
        lemma_lost(m, from, (to - 1) as nat);
    }
}

/// Apply the preconditioner to a residual.
pub fn precondition(system: &System, factor: &Option<Factor>, r: &Vec<Number>) -> (z: Vec<Number>)
    requires
        system.matrix().wf(),
        r@.len() == system.matrix().size(),
        *factor is Some <==> system.matrix().factor() is Some,
        *factor is Some ==> (factor->0).lower() == system.matrix().factor()->0 && (factor->0).wf()
            && (factor->0).rows@.len() == system.matrix().size(),
    ensures
        z@ == system.matrix().conditioned(r@),
        z@.len() == r@.len(),
{
    let ghost m = system.matrix();
    let size: usize = r.len();
    let mut z: Vec<Number> = Vec::new();
    match factor {
        None => {
            let ghost want = m.conditioned(r@);
            let mut i: usize = 0;
            while i < size
                invariant
                    i <= size == m.size() == r@.len(),
                    m == system.matrix(),
                    m.wf(),
                    want == Seq::new(m.size(), |i: int| r@[i].times_spec(m.inv_diag[i])),
                    z@ == want.take(i as int),
                decreases size - i,
            {
                z.push(r[i].times(system.inv_diag[i]));
                i = i + 1;
                assert(z@ =~= want.take(i as int));
            }
            assert(z@ =~= want);
        },
        Some(f) => {
            let ghost l = f.lower();
            let mut i: usize = 0;
            while i < size
                invariant
                    i <= size == r@.len() == f.rows@.len(),
                    f.wf(),
                    l == f.lower(),
                    z@ == forward(l, r@, i as nat),
                    z@.len() == i,
                decreases size - i,
            {
                let mut s = r[i];
                let ghost row = l.rows[i as int];
                let mut t: usize = 0;
                while t < f.rows[i].len()
                    invariant
                        i < size == f.rows@.len(),
                        f.wf(),
                        row == f.rows@[i as int]@,
                        t <= row.len(),
                        z@.len() == i,
                        s == row_less(row, z@, r@[i as int], t as nat),
                    decreases row.len() - t,
                {
                    let (c, x) = f.rows[i][t];
                    assert(f.rows@[i as int]@[t as int].0 < i);
                    s = s.minus(x.times(z[c as usize]));
                    t = t + 1;
                }
                z.push(s.over(f.pivot[i]));
                i = i + 1;
            }
            let ghost y = z@;
            let mut k: usize = size;
            while k > 0
                invariant
                    k <= size == f.rows@.len(),
                    f.wf(),
                    l == f.lower(),
                    z@ == backward(l, y, k as nat),
                    z@.len() == size,
                decreases k,
            {
                let i: usize = k - 1;
                let v = z[i].over(f.pivot[i]);
                z.set(i, v);
                let ghost row = l.rows[i as int];
                let ghost from = z@;
                let mut t: usize = 0;
                while t < f.rows[i].len()
                    invariant
                        i < size == f.rows@.len(),
                        f.wf(),
                        row == f.rows@[i as int]@,
                        t <= row.len(),
                        z@.len() == size,
                        z@ == scattered(row, from, v, t as nat),
                    decreases row.len() - t,
                {
                    let (c, x) = f.rows[i][t];
                    assert(f.rows@[i as int]@[t as int].0 < i);
                    let less = z[c as usize].minus(x.times(v));
                    z.set(c as usize, less);
                    t = t + 1;
                }
                k = i;
            }
        },
    }
    z
}

} // verus!
