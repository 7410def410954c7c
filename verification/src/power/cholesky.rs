//! Inverting a small dense symmetric matrix.
use crate::number::{Number, ONE};
use vstd::prelude::*;

verus! {

/// A dense matrix, row by row.
pub type Rows = Seq<Seq<Number>>;

/// The rows of a matrix as they are stored.
pub open spec fn rows_of(a: Seq<Vec<Number>>) -> Rows {
    Seq::new(a.len(), |i: int| a[i]@)
}

/// Every row is `w` wide.
pub open spec fn is_wide(a: Seq<Vec<Number>>, w: int) -> bool {
    forall|i: int| 0 <= i < a.len() ==> (#[trigger] a[i])@.len() == w
}

/// A value less the first `n` products of two rows.
pub open spec fn less_rows(s: Number, a: Seq<Number>, b: Seq<Number>, n: nat) -> Number
    decreases n,
{
    if n == 0 {
        s
    } else {
        less_rows(s, a, b, (n - 1) as nat).minus_spec(a[n - 1].times_spec(b[n - 1]))
    }
}

/// Column `j` of the factor, where its pivot is positive and finite; the factor
/// overwrites the lower triangle.
pub open spec fn factor_column(a: Rows, j: int) -> Option<Rows> {
    let d = less_rows(a[j][j], a[j], a[j], j as nat);
    if (Number { bits: 0 }).lt(d) && d.finite() {
        let l = d.sqrt_spec();
        Some(
            Seq::new(
                a.len(),
                |i: int|
                    if i < j {
                        a[i]
                    } else if i == j {
                        a[i].update(j, l)
                    } else {
                        a[i].update(j, less_rows(a[i][j], a[i], a[j], j as nat).over_spec(l))
                    },
            ),
        )
    } else {
        None
    }
}

/// The first `n` columns of the factor.
pub open spec fn factor_to(a: Rows, n: nat) -> Option<Rows>
    decreases n,
{
    if n == 0 {
        Some(a)
    } else {
        match factor_to(a, (n - 1) as nat) {
            None => None,
            Some(b) => factor_column(b, n - 1),
        }
    }
}

/// Column `c` of the unit matrix.
pub open spec fn unit(c: int, i: int) -> Number {
    Number { bits: if i == c { ONE } else { 0 } }
}

/// The first `n` values of the forward substitution for one unit column.
pub open spec fn forward(l: Rows, c: int, n: nat) -> Seq<Number>
    decreases n,
{
    if n == 0 {
        Seq::empty()
    } else {
        let y = forward(l, c, (n - 1) as nat);
        y.push(less_rows(unit(c, n - 1), l[n - 1], y, (n - 1) as nat).over_spec(l[n - 1][n - 1]))
    }
}

/// A value less the products of a column of the factor with an answer, over the
/// rows after `i` and below `n`.
pub open spec fn less_below(l: Rows, x: Seq<Number>, i: int, s: Number, n: nat) -> Number
    decreases n,
{
    if n == 0 || n <= i + 1 {
        s
    } else {
        less_below(l, x, i, s, (n - 1) as nat).minus_spec(l[n - 1][i].times_spec(x[n - 1]))
    }
}

/// The back substitution from the last row down to row `k`.
pub open spec fn backward(l: Rows, y: Seq<Number>, k: nat) -> Seq<Number>
    decreases l.len() - k,
{
    if k >= l.len() {
        y
    } else {
        let x = backward(l, y, k + 1);
        x.update(
            k as int,
            less_below(l, x, k as int, x[k as int], l.len()).over_spec(l[k as int][k as int]),
        )
    }
}

/// The inverse of a matrix, where every pivot is positive and finite.
pub open spec fn inverse_of(a: Rows) -> Option<Rows> {
    match factor_to(a, a.len()) {
        None => None,
        Some(l) => Some(
            Seq::new(a.len(), |c: int| backward(l, forward(l, c, l.len()), 0)),
        ),
    }
}

fn take_off(s: Number, a: &Vec<Number>, b: &Vec<Number>, n: usize) -> (r: Number)
    requires
        n <= a@.len(),
        n <= b@.len(),
    ensures
        r == less_rows(s, a@, b@, n as nat),
{
    let mut r = s;
    let mut k: usize = 0;
    while k < n
        invariant
            k <= n,
            n <= a@.len(),
            n <= b@.len(),
            r == less_rows(s, a@, b@, k as nat),
        decreases n - k,
    {
        r = r.minus(a[k].times(b[k]));
        k = k + 1;
    }
    r
}

/// One column of the factor, in place.
fn factor_one(a: &mut Vec<Vec<Number>>, j: usize) -> (r: bool)
    requires
        is_wide(old(a)@, old(a)@.len() as int),
        j < old(a)@.len(),
    ensures
        r == (factor_column(rows_of(old(a)@), j as int) is Some),
        r ==> factor_column(rows_of(old(a)@), j as int) == Some(rows_of(final(a)@)),
        final(a)@.len() == old(a)@.len(),
        is_wide(final(a)@, old(a)@.len() as int),
{
    let ghost start = rows_of(a@);
    let n: usize = a.len();
    assert(a@[j as int]@.len() == n);
    let d = take_off(a[j][j], &a[j], &a[j], j);
    if !((Number { bits: 0 }).less(d) && d.is_finite()) {
        return false;
    }
    let l = d.sqrt();
    let ghost want = factor_column(start, j as int)->0;
    a[j].set(j, l);
    let mut i: usize = j + 1;
    proof {
        assert forall|x: int| 0 <= x < n implies (#[trigger] a@[x])@ == (if x <= j {
            want[x]
        } else {
            start[x]
        }) by {
        }
    }
    while i < n
        invariant
            j < i <= n == a@.len(),
            start.len() == n,
            forall|x: int| 0 <= x < n ==> (#[trigger] start[x]).len() == n,
            is_wide(a@, n as int),
            want.len() == n,
            want[j as int] == start[j as int].update(j as int, l),
            forall|x: int|
                j < x < n ==> (#[trigger] want[x]) == start[x].update(
                    j as int,
                    less_rows(start[x][j as int], start[x], start[j as int], j as nat).over_spec(l),
                ),
            forall|x: int|
                0 <= x < n ==> (#[trigger] a@[x])@ == (if x < i { want[x] } else { start[x] }),
        decreases n - i,
    {
        assert(a@[i as int]@ == start[i as int]);
        assert(a@[j as int]@ == want[j as int]);
        assert(a@[i as int]@.len() == n && a@[j as int]@.len() == n);
        let s = take_off(a[i][j], &a[i], &a[j], j);
        proof {
            lemma_less_rows(
                start[i as int][j as int],
                start[i as int],
                want[j as int],
                start[j as int],
                j as nat,
            );
        }
        let ghost before = a@;
        a[i].set(j, s.over(l));
        proof {
            assert forall|x: int| 0 <= x < n implies (#[trigger] a@[x])@ == (if x < i + 1 {
                want[x]
            } else {
                start[x]
            }) by {
                if x != i {
                    assert(a@[x] == before[x]);
                }
            }
            assert forall|x: int| 0 <= x < n implies (#[trigger] a@[x])@.len() == n by {
                if x != i {
                    assert(a@[x] == before[x]);
                }
            }
        }
        i = i + 1;
    }
    assert(rows_of(a@) =~= want);
    true
}

/// The products go by the first entries of the rows.
proof fn lemma_less_rows(s: Number, a: Seq<Number>, b: Seq<Number>, c: Seq<Number>, n: nat)
    requires
        n <= b.len(),
        n <= c.len(),
        forall|k: int| 0 <= k < n ==> b[k] == c[k],
    ensures
        less_rows(s, a, b, n) == less_rows(s, a, c, n),
    decreases n,
{
    if n > 0 {
        lemma_less_rows(s, a, b, c, (n - 1) as nat);
    }
}

/// A factor that stopped stays stopped.
proof fn lemma_stopped(a: Rows, from: nat, to: nat)
    requires
        from <= to,
        factor_to(a, from) is None,
    ensures
        factor_to(a, to) is None,
    decreases to - from,
{
    if from < to {
        lemma_stopped(a, from, (to - 1) as nat);
    }
}

/// One row of the inverse.
fn solve_unit(l: &Vec<Vec<Number>>, c: usize) -> (r: Vec<Number>)
    requires
        is_wide(l@, l@.len() as int),
    ensures
        r@ == backward(rows_of(l@), forward(rows_of(l@), c as int, l@.len()), 0),
        r@.len() == l@.len(),
{
    let ghost m = rows_of(l@);
    let n: usize = l.len();
    let mut x: Vec<Number> = Vec::new();
    let mut i: usize = 0;
    while i < n
        invariant
            i <= n == l@.len(),
            m == rows_of(l@),
            is_wide(l@, n as int),
            x@.len() == i,
            x@ == forward(m, c as int, i as nat),
        decreases n - i,
    {
        assert(l@[i as int]@.len() == n);
        let e = Number { bits: if i == c { ONE } else { 0 } };
        let y = take_off(e, &l[i], &x, i);
        x.push(y.over(l[i][i]));
        i = i + 1;
    }
    let ghost y = x@;
    let mut k: usize = n;
    while k > 0
        invariant
            k <= n == l@.len(),
            m == rows_of(l@),
            is_wide(l@, n as int),
            x@.len() == n,
            x@ == backward(m, y, k as nat),
        decreases k,
    {
        let i: usize = k - 1;
        let mut s = x[i];
        let mut q: usize = k;
        while q < n
            invariant
                i + 1 == k,
                k <= q <= n == l@.len(),
                m == rows_of(l@),
                is_wide(l@, n as int),
                x@.len() == n,
                s == less_below(m, x@, i as int, x@[i as int], q as nat),
            decreases n - q,
        {
            assert(l@[q as int]@.len() == n);
            assert(m[q as int] == l@[q as int]@);
            s = s.minus(l[q][i].times(x[q]));
            q = q + 1;
        }
        assert(l@[i as int]@.len() == n);
        assert(m[i as int] == l@[i as int]@);
        let v = s.over(l[i][i]);
        x.set(i, v);
        k = i;
    }
    x
}

/// Invert a symmetric positive-definite matrix. None where a pivot is not
/// positive and finite: the numbers stopped being a network.
pub fn invert(a: Vec<Vec<Number>>) -> (r: Option<Vec<Vec<Number>>>)
    requires
        is_wide(a@, a@.len() as int),
    ensures
        r is Some <==> inverse_of(rows_of(a@)) is Some,
        r is Some ==> rows_of((r->0)@) == inverse_of(rows_of(a@))->0 && (r->0)@.len() == a@.len()
            && is_wide((r->0)@, a@.len() as int),
{
    let ghost start = rows_of(a@);
    let n: usize = a.len();
    let mut l = a;
    let mut j: usize = 0;
    while j < n
        invariant
            j <= n == l@.len(),
            start.len() == n,
            start == rows_of(a@),
            is_wide(l@, n as int),
            factor_to(start, j as nat) == Some(rows_of(l@)),
        decreases n - j,
    {
        if !factor_one(&mut l, j) {
            proof {
                assert(factor_to(start, (j + 1) as nat) is None);
                lemma_stopped(start, (j + 1) as nat, n as nat);
            }
            return None;
        }
        j = j + 1;
    }
    let ghost want = inverse_of(start)->0;
    let mut r: Vec<Vec<Number>> = Vec::new();
    let mut c: usize = 0;
    while c < n
        invariant
            c <= n == l@.len(),
            is_wide(l@, n as int),
            want == Seq::new(
                n as nat,
                |c: int| backward(rows_of(l@), forward(rows_of(l@), c, rows_of(l@).len()), 0),
            ),
            r@.len() == c,
            is_wide(r@, n as int),
            forall|x: int| 0 <= x < c ==> (#[trigger] r@[x])@ == want[x],
        decreases n - c,
    {
        let row = solve_unit(&l, c);
        r.push(row);
        c = c + 1;
    }
    assert(rows_of(r@) =~= want);
    Some(r)
}

} // verus!
