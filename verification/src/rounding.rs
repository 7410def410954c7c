//! What rounding keeps of quotients: their order, and numbers themselves.
use crate::addition::{lemma_magnitude_order, lemma_nearest, lemma_nearest_exact};
use crate::number::{
    is_nearest, lemma_magnitude_increases, lemma_nearest_unique, magnitude, nearest, Number, HIDDEN,
    INFINITE, ONE,
};
use vstd::arithmetic::power2::{lemma_pow2_adds, lemma_pow2_pos, pow2};
use vstd::prelude::*;

verus! {

/// Rounding keeps order: a quotient no larger rounds to a pattern no larger.
pub proof fn lemma_rounding_keeps_order(n1: nat, d1: nat, n2: nat, d2: nat)
    requires
        d1 > 0,
        d2 > 0,
        n1 * d2 <= n2 * d1,
    ensures
        nearest(n1, d1) <= nearest(n2, d2),
{
    lemma_nearest(n1, d1);
    lemma_nearest(n2, d2);
    let p = nearest(n1, d1);
    let r = nearest(n2, d2);
    if r < p {
        let low = magnitude(p - 1) + magnitude(p);
        let high = magnitude(r) + magnitude(r + 1);
        if r + 1 < p {
            lemma_magnitude_increases(r, p - 1);
            lemma_magnitude_increases(r + 1, p);
        }
        assert(high <= low);
        assert(low * d1 <= 2 * n1);
        assert(2 * n2 <= high * d2);
        assert(low * d1 == 2 * n1 && 2 * n2 == high * d2 && low == high) by (nonlinear_arith)
            requires
                low * d1 <= 2 * n1,
                2 * n2 <= high * d2,
                high <= low,
                n1 * d2 <= n2 * d1,
                d1 > 0,
                d2 > 0,
                n1 >= 0,
                n2 >= 0,
                low >= 0,
                high >= 0,
        {
            assert(low * d1 * d2 <= 2 * n1 * d2);
            assert(2 * n1 * d2 <= 2 * n2 * d1);
            assert(2 * n2 * d1 <= high * d2 * d1);
            assert(high * d2 * d1 == high * (d1 * d2));
            assert(low * d1 * d2 == low * (d1 * d2));
            assert(d1 * d2 > 0);
            assert(low * (d1 * d2) <= high * (d1 * d2));
            assert(low <= high);
            assert(low == high);
            assert(2 * n1 * d2 == low * d1 * d2);
            assert((2 * n1 - low * d1) * d2 == 0);
            assert(2 * n2 * d1 == high * d2 * d1);
            assert((high * d2 - 2 * n2) * d1 == 0);
        }
        assert(r + 1 == p);
        assert(p % 2 == 0 && r % 2 == 0);
        assert(false);
    }
}

/// Rounding keeps numbers: a quotient that is a number rounds to it.
pub proof fn lemma_rounding_keeps_numbers(p: int, d: nat)
    requires
        0 <= p < INFINITE,
        d > 0,
    ensures
        nearest(magnitude(p) * d, d) == p,
{
    let m = magnitude(p);
    let n = m * d;
    if p > 0 {
        lemma_magnitude_increases(p - 1, p);
        let below = magnitude(p - 1);
        assert((below + m) * d < 2 * (m * d)) by (nonlinear_arith)
            requires
                below < m,
                d > 0,
        ;
    }
    lemma_magnitude_increases(p, p + 1);
    let above = magnitude(p + 1);
    assert(2 * (m * d) < (m + above) * d) by (nonlinear_arith)
        requires
            m < above,
            d > 0,
    ;
    assert(is_nearest(p, n, d));
    lemma_nearest(n, d);
    lemma_nearest_unique(p, nearest(n, d), n, d);
}

/// The magnitude of one, and of a power of two past every coordinate area.
proof fn lemma_landmarks()
    ensures
        magnitude(ONE as int) == pow2(1074),
        magnitude(1123 * HIDDEN) == pow2(100) * pow2(1074),
{
    vstd::arithmetic::power2::lemma2_to64();
    vstd::arithmetic::power2::lemma2_to64_rest();
    lemma_pow2_adds(52, 1022);
    lemma_pow2_adds(52, 1122);
    lemma_pow2_adds(100, 1074);
    assert((ONE as int) / (HIDDEN as int) == 1023);
    assert((ONE as int) % (HIDDEN as int) == 0);
    assert((1123 * HIDDEN) / (HIDDEN as int) == 1123);
    assert((1123 * HIDDEN) % (HIDDEN as int) == 0);
}

/// Whole numbers of a size a layout has keep their order, and stay finite and
/// not negative.
pub proof fn lemma_of_keeps_order(a: int, b: int)
    requires
        0 <= a <= b <= pow2(100),
    ensures
        Number::of_spec(a).finite(),
        Number::of_spec(b).finite(),
        !Number::of_spec(a).negative(),
        !Number::of_spec(b).negative(),
        Number::of_spec(a).pattern() <= Number::of_spec(b).pattern(),
        Number::of_spec(a).le(Number::of_spec(b)),
        b > 0 ==> Number::of_spec(b).pattern() > 0,
{
    lemma_landmarks();
    lemma_pow2_pos(1074);
    let u = pow2(1074);
    let top: nat = pow2(100) * u;
    lemma_rounding_keeps_numbers(1123 * HIDDEN, 1);
    assert(top * 1 == top);
    assert(0 <= a * u <= b * u <= top) by (nonlinear_arith)
        requires
            0 <= a <= b <= pow2(100),
            u > 0,
            top == pow2(100) * u,
    ;
    let (x, y) = ((a * u) as nat, (b * u) as nat);
    lemma_rounding_keeps_order(x, 1, y, 1);
    lemma_rounding_keeps_order(y, 1, top, 1);
    lemma_nearest(x, 1);
    lemma_nearest(y, 1);
    lemma_rounding_keeps_numbers(0, 1);
    lemma_rounding_keeps_numbers(1, 1);
    let (p, q) = (nearest(x, 1), nearest(y, 1));
    assert(magnitude(0) == 0 && magnitude(1) == 1);
    if b > 0 {
        assert(y >= 1) by (nonlinear_arith)
            requires
                b >= 1,
                u >= 1,
                y == b * u,
        ;
        lemma_rounding_keeps_order(1, 1, y, 1);
        assert(q >= 1);
    }
    if p < q {
        lemma_magnitude_increases(p, q);
    }
    let (fa, fb) = (Number::of_spec(a), Number::of_spec(b));
    if a > 0 {
        assert(fa.pattern() == p);
    } else {
        assert(x == 0);
        assert(fa.pattern() == 0);
        assert(p == 0);
    }
    if b > 0 {
        assert(fb.pattern() == q);
    } else {
        assert(y == 0);
        assert(q == 0);
    }
}

/// The quotient of a number by one no smaller lies between zero and one.
pub proof fn lemma_quotient_is_a_fraction(x: Number, y: Number)
    requires
        x.finite(),
        y.finite(),
        !x.negative(),
        !y.negative(),
        y.pattern() > 0,
        x.pattern() <= y.pattern(),
    ensures
        (Number { bits: 0 }).le(x.over_spec(y)),
        x.over_spec(y).le(Number { bits: ONE }),
{
    lemma_landmarks();
    let u = pow2(1074);
    lemma_pow2_pos(1074);
    let (mx, my) = (magnitude(x.pattern()), magnitude(y.pattern()));
    lemma_magnitude_increases(0, y.pattern());
    if x.pattern() < y.pattern() {
        lemma_magnitude_increases(x.pattern(), y.pattern());
    }
    if x.pattern() > 0 {
        lemma_magnitude_increases(0, x.pattern());
        let n = mx * u;
        assert(n * my <= (u * my) * my && n * my <= (magnitude(ONE as int) * my) * my)
            by (nonlinear_arith)
            requires
                n == mx * u,
                mx <= my,
                u > 0,
                my > 0,
                magnitude(ONE as int) == u,
        ;
        lemma_rounding_keeps_order(n, my, u * my, my);
        lemma_rounding_keeps_numbers(ONE as int, my);
        lemma_nearest(n, my);
        let p = nearest(n, my);
        assert(p <= ONE);
        if p < ONE {
            lemma_magnitude_increases(p, ONE as int);
        }
        assert(x.over_spec(y).pattern() == p);
    } else {
        assert(x.over_spec(y).pattern() == 0);
        lemma_magnitude_increases(0, ONE as int);
    }
}

/// Dividing by more gives no more.
pub proof fn lemma_quotient_falls(x: Number, y: Number, z: Number)
    requires
        x.grounded(),
        y.grounded(),
        z.grounded(),
        y.pattern() > 0,
        y.pattern() <= z.pattern(),
    ensures
        x.over_spec(y).upward(),
        x.over_spec(z).upward(),
        x.over_spec(z).le(x.over_spec(y)),
{
    let u = pow2(1074);
    let (mx, my, mz) = (magnitude(x.pattern()), magnitude(y.pattern()), magnitude(z.pattern()));
    lemma_magnitude_order(y.pattern(), z.pattern());
    lemma_magnitude_increases(0, y.pattern());
    if x.pattern() > 0 {
        let n = mx * u;
        assert(n * my <= n * mz) by (nonlinear_arith)
            requires
                my <= mz,
                n >= 0,
        ;
        lemma_rounding_keeps_order(n, mz, n, my);
        lemma_nearest(n, mz);
        lemma_nearest(n, my);
        lemma_magnitude_order(nearest(n, mz), nearest(n, my));
    }
}

/// A number without a minus sign that is no larger has a pattern no larger.
proof fn lemma_le_is_pattern(a: Number, b: Number)
    requires
        a.upward(),
        b.upward(),
    ensures
        a.le(b) <==> a.pattern() <= b.pattern(),
{
    if a.pattern() < b.pattern() {
        lemma_magnitude_increases(a.pattern(), b.pattern());
    } else if b.pattern() < a.pattern() {
        lemma_magnitude_increases(b.pattern(), a.pattern());
    }
}

/// Adding no less to no less gives no less, past the largest finite number too.
pub proof fn lemma_sums_keep_order(a: Number, b: Number, c: Number, d: Number)
    requires
        a.upward(),
        b.upward(),
        c.upward(),
        d.upward(),
        a.le(c),
        b.le(d),
    ensures
        a.plus_spec(b).upward(),
        c.plus_spec(d).upward(),
        a.plus_spec(b).le(c.plus_spec(d)),
{
    lemma_le_is_pattern(a, c);
    lemma_le_is_pattern(b, d);
    let s = (magnitude(a.pattern()) + magnitude(b.pattern())) as nat;
    let t = (magnitude(c.pattern()) + magnitude(d.pattern())) as nat;
    lemma_magnitude_order(a.pattern(), c.pattern());
    lemma_magnitude_order(b.pattern(), d.pattern());
    lemma_nearest(s, 1);
    lemma_nearest(t, 1);
    lemma_rounding_keeps_order(s, 1, t, 1);
    lemma_magnitude_order(nearest(s, 1), nearest(t, 1));
    lemma_magnitude_order(nearest(s, 1), INFINITE as int);
    lemma_magnitude_order(0, nearest(t, 1));
    lemma_le_is_pattern(a.plus_spec(b), c.plus_spec(d));
}

/// Adding a number without a minus sign to zero gives the number.
pub proof fn lemma_zero_plus(b: Number)
    requires
        b.upward(),
    ensures
        (Number { bits: 0 }).plus_spec(b) == b,
{
    if b.finite() {
        lemma_nearest_exact(b.pattern());
        assert(magnitude(0) == 0);
        if b.pattern() > 0 {
            lemma_magnitude_increases(0, b.pattern());
        }
    }
}

/// Multiplying by more gives no less.
pub proof fn lemma_product_grows(x: Number, y: Number, z: Number)
    requires
        x.grounded(),
        y.grounded(),
        z.grounded(),
        y.le(z),
    ensures
        x.times_spec(y).upward(),
        x.times_spec(z).upward(),
        x.times_spec(y).le(x.times_spec(z)),
{
    let u = pow2(1074);
    lemma_pow2_pos(1074);
    let (mx, my, mz) = (magnitude(x.pattern()), magnitude(y.pattern()), magnitude(z.pattern()));
    lemma_le_is_pattern(y, z);
    assert(magnitude(0) == 0);
    let (p, q): (nat, nat) = (mx * my, mx * mz);
    assert(p * u <= q * u) by (nonlinear_arith)
        requires
            p == mx * my,
            q == mx * mz,
            my <= mz,
            mx >= 0,
            u > 0,
    ;
    lemma_nearest(p, u);
    lemma_nearest(q, u);
    lemma_rounding_keeps_order(p, u, q, u);
    lemma_magnitude_order(0, nearest(q, u));
    lemma_magnitude_order(nearest(p, u), nearest(q, u));
}

/// Dividing more gives no less.
pub proof fn lemma_quotient_grows(x: Number, y: Number, z: Number)
    requires
        x.grounded(),
        z.grounded(),
        x.le(z),
        y.grounded(),
        y.pattern() > 0,
    ensures
        x.over_spec(y).upward(),
        z.over_spec(y).upward(),
        x.over_spec(y).le(z.over_spec(y)),
{
    let u = pow2(1074);
    let (mx, my, mz) = (magnitude(x.pattern()), magnitude(y.pattern()), magnitude(z.pattern()));
    lemma_le_is_pattern(x, z);
    lemma_magnitude_increases(0, y.pattern());
    assert(magnitude(0) == 0);
    let (p, q): (nat, nat) = (mx * u, mz * u);
    assert(p * my <= q * my) by (nonlinear_arith)
        requires
            p == mx * u,
            q == mz * u,
            mx <= mz,
            u >= 0,
            my > 0,
    ;
    lemma_nearest(p, my);
    lemma_nearest(q, my);
    lemma_rounding_keeps_order(p, my, q, my);
    lemma_magnitude_order(0, nearest(q, my));
    lemma_magnitude_order(nearest(p, my), nearest(q, my));
}

/// Products do not depend on the order of their factors.
pub proof fn lemma_product_commutes(x: Number, y: Number)
    ensures
        x.times_spec(y) == y.times_spec(x),
{
    let (a, b) = (magnitude(x.pattern()), magnitude(y.pattern()));
    assert(a * b == b * a) by (nonlinear_arith);
}

/// A finite number times one is the number.
pub proof fn lemma_times_one(x: Number)
    requires
        x.finite(),
    ensures
        x.times_spec(Number { bits: ONE }) == x,
{
    lemma_landmarks();
    lemma_pow2_pos(1074);
    lemma_rounding_keeps_numbers(x.pattern(), pow2(1074));
}

/// A finite number over one is the number.
pub proof fn lemma_over_one(x: Number)
    requires
        x.finite(),
    ensures
        x.over_spec(Number { bits: ONE }) == x,
{
    lemma_landmarks();
    lemma_pow2_pos(1074);
    lemma_rounding_keeps_numbers(x.pattern(), pow2(1074));
}

} // verus!
