//! What rounding keeps of the order of numbers, and of their sums.
use crate::number::{
    is_nearest, lemma_magnitude_increases, lemma_nearest_unique, magnitude, nearest, Number,
    INFINITE, SIGN,
};
use vstd::prelude::*;

verus! {

/// Every rational has a nearest pattern at or above one it is not below.
proof fn lemma_nearest_from(p: int, n: nat, d: nat)
    requires
        d > 0,
        0 <= p <= INFINITE,
        p > 0 ==> {
            let low = (magnitude(p - 1) + magnitude(p)) * d;
            low < 2 * n || (low == 2 * n && p % 2 == 0)
        },
    ensures
        exists|r: int| is_nearest(r, n, d),
    decreases INFINITE - p,
{
    if p < INFINITE {
        let high = (magnitude(p) + magnitude(p + 1)) * d;
        if 2 * n < high || (2 * n == high && p % 2 == 0) {
            assert(is_nearest(p, n, d));
        } else {
            lemma_nearest_from(p + 1, n, d);
        }
    } else {
        assert(is_nearest(p, n, d));
    }
}

/// Every rational has a nearest pattern.
pub proof fn lemma_nearest(n: nat, d: nat)
    requires
        d > 0,
    ensures
        is_nearest(nearest(n, d), n, d),
        0 <= nearest(n, d) <= INFINITE,
{
    lemma_nearest_from(0, n, d);
}

/// Rounding keeps order.
pub proof fn lemma_nearest_order(m: nat, n: nat, d: nat)
    requires
        d > 0,
        m <= n,
    ensures
        nearest(m, d) <= nearest(n, d),
{
    lemma_nearest(m, d);
    lemma_nearest(n, d);
    let p = nearest(m, d);
    let q = nearest(n, d);
    if p > q {
        if q + 1 < p {
            lemma_magnitude_increases(q + 1, p);
        }
        if q < p - 1 {
            lemma_magnitude_increases(q, p - 1);
        }
        let low = magnitude(p - 1) + magnitude(p);
        let high = magnitude(q) + magnitude(q + 1);
        assert(high * d <= low * d) by (nonlinear_arith)
            requires
                high <= low,
        ;
        if q + 1 < p {
            assert(high * d < low * d) by (nonlinear_arith)
                requires
                    high < low,
                    d > 0,
            ;
        }
    }
}

/// A magnitude rounds to itself.
pub proof fn lemma_nearest_exact(p: int)
    requires
        0 <= p < INFINITE,
    ensures
        nearest(magnitude(p), 1) == p,
{
    if p > 0 {
        lemma_magnitude_increases(p - 1, p);
    }
    lemma_magnitude_increases(p, p + 1);
    assert(is_nearest(p, magnitude(p), 1));
    lemma_nearest(magnitude(p), 1);
    lemma_nearest_unique(p, nearest(magnitude(p), 1), magnitude(p), 1);
}

/// A larger pattern is not a smaller magnitude.
pub proof fn lemma_magnitude_order(p: int, q: int)
    requires
        0 <= p <= q <= INFINITE,
    ensures
        magnitude(p) <= magnitude(q),
{
    if p < q {
        lemma_magnitude_increases(p, q);
    }
}

impl Number {
    /// Finite, with no minus sign.
    pub open spec fn grounded(self) -> bool {
        self.finite() && !self.negative()
    }

    /// With no minus sign, and possibly past the largest finite number.
    pub open spec fn upward(self) -> bool {
        !self.is_nan_spec() && !self.negative()
    }

    /// Finite, with no minus sign.
    pub fn is_grounded(self) -> (r: bool)
        ensures
            r == self.grounded(),
    {
        self.is_finite() && self.bits < SIGN
    }
}

/// What the sum of two grounded numbers is.
pub proof fn lemma_sum(a: Number, b: Number)
    requires
        a.grounded(),
        b.grounded(),
    ensures
        a.plus_spec(b).upward(),
        a.plus_spec(b).value() == magnitude(nearest((a.value() + b.value()) as nat, 1)),
{
    let sum = a.value() + b.value();
    lemma_nearest(sum as nat, 1);
    if sum == 0 {
        lemma_nearest_exact(0);
        assert(magnitude(0) == 0);
    }
}

/// Adding to a grounded number does not lower it.
pub proof fn lemma_sum_grows(a: Number, b: Number)
    requires
        a.grounded(),
        b.grounded(),
    ensures
        a.le(a.plus_spec(b)),
{
    lemma_sum(a, b);
    let p = a.pattern();
    lemma_nearest_exact(p);
    lemma_nearest_order(magnitude(p), (a.value() + b.value()) as nat, 1);
    lemma_nearest((a.value() + b.value()) as nat, 1);
    lemma_magnitude_order(p, nearest((a.value() + b.value()) as nat, 1));
}

/// Adding the same amount keeps order.
pub proof fn lemma_sum_order(a: Number, b: Number, c: Number)
    requires
        a.grounded(),
        b.grounded(),
        c.grounded(),
        a.le(b),
    ensures
        a.plus_spec(c).le(b.plus_spec(c)),
{
    lemma_sum(a, c);
    lemma_sum(b, c);
    let s = (a.value() + c.value()) as nat;
    let t = (b.value() + c.value()) as nat;
    lemma_nearest_order(s, t, 1);
    lemma_nearest(s, 1);
    lemma_nearest(t, 1);
    lemma_magnitude_order(nearest(s, 1), nearest(t, 1));
}

/// A number at or below a finite one is finite, where neither is below zero.
pub proof fn lemma_finite_below(a: Number, b: Number)
    requires
        a.upward(),
        b.grounded(),
        a.le(b),
    ensures
        a.grounded(),
{
    if !a.finite() {
        let p = b.pattern();
        lemma_magnitude_increases(p, INFINITE as int);
        assert(a.pattern() == INFINITE);
    }
}

/// Numbers without a minus sign that are each at most the other are the same.
pub proof fn lemma_same(a: Number, b: Number)
    requires
        a.upward(),
        b.upward(),
        a.le(b),
        b.le(a),
    ensures
        a == b,
{
    if a.pattern() < b.pattern() {
        lemma_magnitude_increases(a.pattern(), b.pattern());
    }
    if b.pattern() < a.pattern() {
        lemma_magnitude_increases(b.pattern(), a.pattern());
    }
}

} // verus!
