//! A sparse symmetric matrix, and sums over columns of numbers.
use crate::number::Number;
use crate::power::solve::System;
use vstd::prelude::*;

verus! {

/// A sparse matrix: a diagonal, its reciprocal, and each row's other entries.
pub struct Matrix {
    pub diag: Seq<Number>,
    pub inv_diag: Seq<Number>,
    pub off: Seq<Seq<(u32, Number)>>,
}

impl Matrix {
    pub open spec fn size(&self) -> nat {
        self.diag.len()
    }

    /// Square, and every entry in a column it has.
    pub open spec fn wf(&self) -> bool {
        &&& self.size() < 0xFFFF_FFFF
        &&& self.inv_diag.len() == self.size()
        &&& self.off.len() == self.size()
        &&& forall|i: int, k: int|
            0 <= i < self.size() && 0 <= k < self.off[i].len() ==> (#[trigger] self.off[i][k]).0
                < self.size()
    }

    /// The diagonal and the first `n` other entries of row `i` times a column,
    /// summed in that order.
    pub open spec fn row_times(&self, i: int, v: Seq<Number>, n: nat) -> Number
        decreases n,
    {
        if n == 0 {
            Number { bits: 0 }.plus_spec(self.diag[i].times_spec(v[i]))
        } else {
            let (c, x) = self.off[i][n - 1];
            self.row_times(i, v, (n - 1) as nat).plus_spec(x.times_spec(v[c as int]))
        }
    }

    /// The matrix times a column.
    pub open spec fn times(&self, v: Seq<Number>) -> Seq<Number> {
        Seq::new(self.size(), |i: int| self.row_times(i, v, self.off[i].len()))
    }
}

impl System {
    /// The matrix of a system.
    pub open spec fn matrix(&self) -> Matrix {
        Matrix {
            diag: self.diag@,
            inv_diag: self.inv_diag@,
            off: Seq::new(self.off@.len(), |i: int| self.off@[i]@),
        }
    }

    /// The matrix times a column.
    pub fn times(&self, v: &Vec<Number>) -> (r: Vec<Number>)
        requires
            self.matrix().wf(),
            v@.len() == self.matrix().size(),
        ensures
            r@ == self.matrix().times(v@),
    {
        let ghost m = self.matrix();
        let ghost want = m.times(v@);
        let size: usize = self.diag.len();
        let mut r: Vec<Number> = Vec::new();
        let mut i: usize = 0;
        while i < size
            invariant
                i <= size == m.size(),
                m == self.matrix(),
                m.wf(),
                v@.len() == size,
                want == m.times(v@),
                r@ == want.take(i as int),
            decreases size - i,
        {
            let mut sum = Number { bits: 0 }.plus(self.diag[i].times(v[i]));
            let ghost row = m.off[i as int];
            let mut k: usize = 0;
            while k < self.off[i].len()
                invariant
                    i < size == m.size(),
                    m == self.matrix(),
                    m.wf(),
                    v@.len() == size,
                    row == m.off[i as int],
                    row == self.off@[i as int]@,
                    k <= row.len(),
                    sum == m.row_times(i as int, v@, k as nat),
                decreases row.len() - k,
            {
                let (c, x) = self.off[i][k];
                assert(m.off[i as int][k as int].0 < size);
                sum = sum.plus(x.times(v[c as usize]));
                k = k + 1;
            }
            r.push(sum);
            i = i + 1;
            assert(r@ =~= want.take(i as int));
        }
        assert(r@ =~= want);
        r
    }
}

/// The first `n` products of two columns, summed in order.
pub open spec fn dot_to(a: Seq<Number>, b: Seq<Number>, n: nat) -> Number
    decreases n,
{
    if n == 0 {
        Number { bits: 0 }
    } else {
        dot_to(a, b, (n - 1) as nat).plus_spec(a[n - 1].times_spec(b[n - 1]))
    }
}

pub open spec fn dot_spec(a: Seq<Number>, b: Seq<Number>) -> Number {
    dot_to(a, b, a.len())
}

/// The sum of the products of two columns.
pub fn dot(a: &Vec<Number>, b: &Vec<Number>) -> (r: Number)
    requires
        a@.len() == b@.len(),
    ensures
        r == dot_spec(a@, b@),
{
    let mut sum = Number { bits: 0 };
    let mut i: usize = 0;
    while i < a.len()
        invariant
            i <= a@.len() == b@.len(),
            sum == dot_to(a@, b@, i as nat),
        decreases a@.len() - i,
    {
        sum = sum.plus(a[i].times(b[i]));
        i = i + 1;
    }
    sum
}

pub open spec fn norm_spec(v: Seq<Number>) -> Number {
    dot_spec(v, v).sqrt_spec()
}

/// The Euclidean norm of a column, summed in order.
pub fn norm(v: &Vec<Number>) -> (r: Number)
    ensures
        r == norm_spec(v@),
{
    dot(v, v).sqrt()
}

/// A column plus a multiple of another.
pub open spec fn moved(a: Seq<Number>, by: Number, b: Seq<Number>) -> Seq<Number> {
    Seq::new(a.len(), |i: int| a[i].plus_spec(by.times_spec(b[i])))
}

pub fn move_by(a: &Vec<Number>, by: Number, b: &Vec<Number>) -> (r: Vec<Number>)
    requires
        a@.len() == b@.len(),
    ensures
        r@ == moved(a@, by, b@),
{
    let ghost want = moved(a@, by, b@);
    let mut r: Vec<Number> = Vec::new();
    let mut i: usize = 0;
    while i < a.len()
        invariant
            i <= a@.len() == b@.len(),
            want == moved(a@, by, b@),
            r@ == want.take(i as int),
        decreases a@.len() - i,
    {
        r.push(a[i].plus(by.times(b[i])));
        i = i + 1;
        assert(r@ =~= want.take(i as int));
    }
    assert(r@ =~= want);
    r
}

/// A column less a multiple of another.
pub open spec fn lessened(a: Seq<Number>, by: Number, b: Seq<Number>) -> Seq<Number> {
    Seq::new(a.len(), |i: int| a[i].minus_spec(by.times_spec(b[i])))
}

pub fn lessen_by(a: &Vec<Number>, by: Number, b: &Vec<Number>) -> (r: Vec<Number>)
    requires
        a@.len() == b@.len(),
    ensures
        r@ == lessened(a@, by, b@),
{
    let ghost want = lessened(a@, by, b@);
    let mut r: Vec<Number> = Vec::new();
    let mut i: usize = 0;
    while i < a.len()
        invariant
            i <= a@.len() == b@.len(),
            want == lessened(a@, by, b@),
            r@ == want.take(i as int),
        decreases a@.len() - i,
    {
        r.push(a[i].minus(by.times(b[i])));
        i = i + 1;
        assert(r@ =~= want.take(i as int));
    }
    assert(r@ =~= want);
    r
}

/// The differences of two columns.
pub open spec fn differences(a: Seq<Number>, b: Seq<Number>) -> Seq<Number> {
    Seq::new(a.len(), |i: int| a[i].minus_spec(b[i]))
}

pub fn difference(a: &Vec<Number>, b: &Vec<Number>) -> (r: Vec<Number>)
    requires
        a@.len() == b@.len(),
    ensures
        r@ == differences(a@, b@),
{
    let ghost want = differences(a@, b@);
    let mut r: Vec<Number> = Vec::new();
    let mut i: usize = 0;
    while i < a.len()
        invariant
            i <= a@.len() == b@.len(),
            want == differences(a@, b@),
            r@ == want.take(i as int),
        decreases a@.len() - i,
    {
        r.push(a[i].minus(b[i]));
        i = i + 1;
        assert(r@ =~= want.take(i as int));
    }
    assert(r@ =~= want);
    r
}

} // verus!
