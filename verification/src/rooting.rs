//! How close a rounded square root and a rounded distance are to the exact ones.
use crate::closeness::{
    approximates, high, lemma_product, lemma_rounds, low, moderate, unit,
};
use crate::number::{
    is_nearest_root, lemma_magnitude_increases, lemma_split, lemma_step, magnitude, nearest_root,
    Number, HIDDEN, INFINITE,
};
use vstd::arithmetic::power::{lemma_pow1, lemma_pow_adds, lemma_pow_positive};
use vstd::arithmetic::power2::{
    lemma_pow2_adds, lemma_pow2_pos, lemma_pow2_strictly_increases, pow2,
};
use vstd::prelude::*;

verus! {

/// Whether a root is not below the middle of a pattern and the one before it.
spec fn reached(p: int, v: nat) -> bool {
    let square = 4 * (v * pow2(1074));
    let m = magnitude(p - 1) + magnitude(p);
    p == 0 || m * m < square || (m * m == square && p % 2 == 0)
}

proof fn lemma_root_below(v: nat, p: int)
    requires
        0 <= p < INFINITE,
        !reached(p + 1, v),
    ensures
        exists|q: int| is_nearest_root(q, v),
    decreases p,
{
    if reached(p, v) {
        assert(is_nearest_root(p, v));
    } else {
        lemma_root_below(v, p - 1);
    }
}

proof fn lemma_root_exists(v: nat)
    requires
        v < magnitude(INFINITE as int),
    ensures
        is_nearest_root(nearest_root(v), v),
{
    let top = INFINITE as int;
    let (a, b, u) = (magnitude(top - 1) as int, magnitude(top) as int, pow2(1074) as int);
    vstd::arithmetic::power2::lemma2_to64();
    vstd::arithmetic::power2::lemma2_to64_rest();
    assert(top / (HIDDEN as int) == 2047 && top % (HIDDEN as int) == 0);
    lemma_pow2_adds(52, 2046);
    lemma_magnitude_increases(top - 1, top);
    lemma_split(top - 1);
    lemma_step(top - 1);
    lemma_pow2_adds(2, 1074);
    lemma_pow2_strictly_increases(1076, 2046);
    lemma_pow2_pos(1074);
    let m = a + b;
    assert((top - 1) / (HIDDEN as int) == 2046);
    assert(a >= pow2(2046)) by {
        assert(magnitude(top - 1) == magnitude(top) - pow2(crate::number::exponent(top - 1)));
        lemma_pow2_strictly_increases(crate::number::exponent(top - 1), 2098);
        assert(crate::number::exponent(top - 1) == 2045);
        lemma_pow2_adds(1, 2097);
        lemma_pow2_strictly_increases(2045, 2097);
        lemma_pow2_strictly_increases(2046, 2097);
    }
    let square = 4 * (v * pow2(1074));
    assert(m * m > square) by (nonlinear_arith)
        requires
            m == a + b,
            square == 4 * (v * u),
            0 <= v < b,
            0 < u,
            4 * u <= a,
            a <= b,
    {
        assert(v * u <= b * u);
        assert(4 * (b * u) <= b * a);
        assert((a + b) * (a + b) >= a * b + b * b);
        assert(b * b > 0);
    }
    assert(!reached(top, v));
    lemma_root_below(v, top - 1);
    let p = choose|q: int| is_nearest_root(q, v);
    assert(is_nearest_root(p, v));
}

proof fn lemma_squares()
    ensures
        low(2) == 0x10_0000_0000_0000 * 0x10_0000_0000_0000,
        high(2) == 0x10_0000_0000_0001 * 0x10_0000_0000_0001,
{
    lemma_pow1(0x10_0000_0000_0000);
    lemma_pow1(0x10_0000_0000_0001);
    lemma_pow_adds(0x10_0000_0000_0000, 1, 1);
    lemma_pow_adds(0x10_0000_0000_0001, 1, 1);
}

proof fn lemma_least_normal()
    ensures
        magnitude(HIDDEN as int) == HIDDEN,
{
    vstd::arithmetic::power2::lemma2_to64();
    lemma_split(HIDDEN as int);
    let h = HIDDEN as int;
    assert(h / h == 1 && h % h == 0) by (nonlinear_arith)
        requires
            h > 0,
    ;
    assert(crate::number::exponent(h) == 0);
    assert(crate::number::mantissa(h) == h);
    assert(h * pow2(0) == h) by (nonlinear_arith)
        requires
            pow2(0) == 1,
    ;
}

/// A square root squares to what it is the root of, to within two roundings.
pub proof fn lemma_root(x: Number)
    requires
        x.grounded(),
        moderate(x, 900),
    ensures
        x.sqrt_spec().grounded(),
        x.sqrt_spec().value() > 0,
        ({
            let (r, v) = (x.sqrt_spec().value(), x.value() * unit());
            (r * r) * low(2) <= v * high(2) && v * low(2) <= (r * r) * high(2)
        }),
{
    let v = magnitude(x.pattern());
    lemma_pow2_pos(174);
    lemma_pow2_pos(1074);
    assert(magnitude(0) == 0);
    assert(x.pattern() > 0);
    lemma_magnitude_increases(x.pattern(), INFINITE as int);
    lemma_root_exists(v);
    let p = nearest_root(v);
    let u = unit();
    let square = 4 * (v * pow2(1074));
    let (m, above) = (magnitude(p) as int, magnitude(p) + magnitude(p + 1));
    vstd::arithmetic::power2::lemma2_to64();
    vstd::arithmetic::power2::lemma2_to64_rest();
    lemma_step(p);
    lemma_split(p);
    if p < HIDDEN {
        crate::addition::lemma_magnitude_order(p, HIDDEN as int);
        crate::addition::lemma_magnitude_order(p + 1, HIDDEN as int);
        lemma_split(HIDDEN as int);
        lemma_split(p + 1);
        lemma_least_normal();
        lemma_pow2_strictly_increases(110, 174);
        lemma_pow2_adds(64, 46);
        lemma_pow2_strictly_increases(0, 1074);
        assert(above * above < square) by (nonlinear_arith)
            requires
                0 <= above <= 2 * 0x10_0000_0000_0000,
                square == 4 * (v * u),
                v >= 0x1_0000_0000_0000_0000 * 0x4000_0000_0000,
                u >= 1,
        {
            assert(v * u >= v);
            assert(above * above <= (2 * 0x10_0000_0000_0000) * (2 * 0x10_0000_0000_0000));
        }
    }
    let e = crate::number::exponent(p);
    let s = pow2(e) as int;
    lemma_pow2_pos(e);
    let h: int = 0x10_0000_0000_0000;
    assert(s * h <= m) by (nonlinear_arith)
        requires
            m == crate::number::mantissa(p) * s,
            crate::number::mantissa(p) >= h,
            s > 0,
    ;
    let under = magnitude(p - 1) + magnitude(p);
    lemma_step(p - 1);
    lemma_split(p - 1);
    let t = pow2(crate::number::exponent(p - 1)) as int;
    assert(t <= s) by {
        if crate::number::exponent(p - 1) < e {
            lemma_pow2_strictly_increases(crate::number::exponent(p - 1), e);
        }
    }
    assert(above * h <= m * (2 * h + 1)) by (nonlinear_arith)
        requires
            above == 2 * m + s,
            s * h <= m,
    ;
    assert(under * h >= m * (2 * h - 1)) by (nonlinear_arith)
        requires
            under == 2 * m - t,
            t <= s,
            s * h <= m,
            h > 0,
    ;
    let q = v * u;
    lemma_squares();
    let (hh, gg) = (h * h, (h + 1) * (h + 1));
    let mm = m * m;
    assert(4 * q <= above * above && under * under <= 4 * q);
    assert(q * hh <= mm * gg) by (nonlinear_arith)
        requires
            4 * q <= above * above,
            0 <= above * h <= m * (2 * h + 1),
            hh == h * h,
            gg == (h + 1) * (h + 1),
            mm == m * m,
            h > 0,
            m > 0,
    {
        let w = m * (2 * h + 1);
        assert((above * h) * (above * h) <= w * w);
        assert((above * h) * (above * h) == (above * above) * hh);
        assert(w * w == mm * ((2 * h + 1) * (2 * h + 1)));
        assert((2 * h + 1) * (2 * h + 1) <= 4 * gg);
        assert(mm * ((2 * h + 1) * (2 * h + 1)) <= mm * (4 * gg));
        assert((4 * q) * hh <= (above * above) * hh);
    }
    assert(mm * hh <= q * gg) by (nonlinear_arith)
        requires
            under * under <= 4 * q,
            under * h >= m * (2 * h - 1),
            hh == h * h,
            gg == (h + 1) * (h + 1),
            mm == m * m,
            h == 0x10_0000_0000_0000int,
            m > 0,
            under > 0,
    {
        let w = m * (2 * h - 1);
        assert(w > 0);
        assert(w * w <= (under * h) * (under * h));
        assert((under * h) * (under * h) == (under * under) * hh);
        assert((under * under) * hh <= (4 * q) * hh);
        let k = (2 * h - 1) * (2 * h - 1);
        assert(w * w == mm * k);
        assert(mm * k <= (4 * q) * hh);
        assert((mm * k) * gg <= ((4 * q) * hh) * gg);
        assert(k * gg >= 4 * (hh * hh));
        assert((mm * k) * gg == mm * (k * gg));
        assert(mm * (k * gg) >= mm * (4 * (hh * hh)));
        assert(mm * (4 * (hh * hh)) == 4 * ((mm * hh) * hh));
        assert(((4 * q) * hh) * gg == 4 * ((q * gg) * hh));
        assert((mm * hh) * hh <= (q * gg) * hh);
        assert(hh > 0);
    }
}

/// A sum of two numbers that approximate fractions over one denominator.
pub proof fn lemma_sum_approximates(x: Number, y: Number, n: int, m: int, d: int, k: nat)
    requires
        approximates(x, n, d, k),
        approximates(y, m, d, k),
        HIDDEN <= x.plus_spec(y).pattern() < INFINITE,
    ensures
        approximates(x.plus_spec(y), n + m, d, k + 1),
{
    let (u, z) = (unit(), x.plus_spec(y).value());
    let s = x.value() + y.value();
    lemma_pow2_pos(1074);
    crate::addition::lemma_sum(x, y);
    crate::addition::lemma_nearest(s as nat, 1);
    lemma_rounds(s as nat, 1);
    assert(z * 1 == z);
    let h: int = 0x10_0000_0000_0000;
    lemma_pow1(h);
    lemma_pow1(h + 1);
    lemma_pow_adds(h, k, 1);
    lemma_pow_adds(h + 1, k, 1);
    lemma_pow_positive(h, k);
    lemma_pow_positive(h + 1, k);
    let (a, b) = (low(k), high(k));
    let (e, w) = ((n + m) * u, s * d);
    assert((n + m) * u == n * u + m * u && s * d == x.value() * d + y.value() * d)
        by (nonlinear_arith)
        requires
            s == x.value() + y.value(),
    ;
    let (e1, e2, w1, w2) = (n * u, m * u, x.value() * d, y.value() * d);
    assert(w * a <= e * b && e * a <= w * b) by (nonlinear_arith)
        requires
            w == w1 + w2,
            e == e1 + e2,
            w1 * a <= e1 * b,
            w2 * a <= e2 * b,
            e1 * a <= w1 * b,
            e2 * a <= w2 * b,
    ;
    let zd = z * d;
    assert(zd * h <= w * (h + 1) && w * h <= zd * (h + 1)) by (nonlinear_arith)
        requires
            zd == z * d,
            w == s * d,
            d > 0,
            s >= 0,
            z * h <= s * (h + 1),
            s * h <= z * (h + 1),
            h == 0x10_0000_0000_0000int,
    {
        assert((z * h) * d <= (s * (h + 1)) * d);
        assert((s * h) * d <= (z * (h + 1)) * d);
    }
    assert(zd * (a * h) <= e * (b * (h + 1))) by (nonlinear_arith)
        requires
            zd * h <= w * (h + 1),
            w * a <= e * b,
            a > 0,
            h > 0,
    {
        assert((zd * h) * a <= (w * (h + 1)) * a);
        assert((w * a) * (h + 1) <= (e * b) * (h + 1));
    }
    assert(e * (a * h) <= zd * (b * (h + 1))) by (nonlinear_arith)
        requires
            w * h <= zd * (h + 1),
            e * a <= w * b,
            b > 0,
            h > 0,
    {
        assert((w * h) * b <= (zd * (h + 1)) * b);
        assert((e * a) * h <= (w * b) * h);
    }
}

/// The distance two legs make squares to the sum of their squares, to within the
/// roundings of the legs and of the distance.
pub proof fn lemma_hypotenuse(x: Number, y: Number, b: nat, n: int, m: int, d: int, k: nat)
    requires
        approximates(x, n, d, k),
        approximates(y, m, d, k),
        moderate(x, b),
        moderate(y, b),
        b <= 200,
    ensures
        ({
            let r = x.times_spec(x).plus_spec(y.times_spec(y)).sqrt_spec();
            let (p, q) = ((r.value() * r.value()) * (d * d), ((n * n + m * m) * unit()) * unit());
            &&& r.grounded()
            &&& p * low(2 * k + 4) <= q * high(2 * k + 4)
            &&& q * low(2 * k + 4) <= p * high(2 * k + 4)
        }),
{
    let u = unit();
    lemma_pow2_pos(1074);
    lemma_product(x, x, b, b, n, d, n, d, k, k);
    lemma_product(y, y, b, b, m, d, m, d, k, k);
    let (xx, yy) = (x.times_spec(x), y.times_spec(y));
    let sum = xx.plus_spec(yy);
    lemma_legs(xx, yy, 2 * b);
    let j = 2 * k + 1;
    lemma_sum_approximates(xx, yy, n * n, m * m, d * d, (k + k + 1) as nat);
    lemma_root(sum);
    let r = sum.sqrt_spec().value();
    let h: int = 0x10_0000_0000_0000;
    lemma_pow_adds(h, (j + 1) as nat, 2);
    lemma_pow_adds(h + 1, (j + 1) as nat, 2);
    lemma_pow_positive(h, (j + 1) as nat);
    lemma_pow_positive(h + 1, (j + 1) as nat);
    lemma_pow_positive(h, 2);
    lemma_pow_positive(h + 1, 2);
    let (a, c) = (low((j + 1) as nat), high((j + 1) as nat));
    let (a2, c2) = (low(2), high(2));
    let (dd, nn, s, rr) = (d * d, n * n + m * m, sum.value(), r * r);
    let (w, e) = (s * dd, nn * u);
    let (p, q) = (rr * dd, (nn * u) * u);
    assert(dd > 0) by (nonlinear_arith)
        requires
            dd == d * d,
            d > 0,
    ;
    assert(p * (a * a2) <= q * (c * c2)) by (nonlinear_arith)
        requires
            p == rr * dd,
            q == e * u,
            w == s * dd,
            rr * a2 <= (s * u) * c2,
            w * a <= e * c,
            dd > 0,
            u > 0,
            a > 0,
            c2 > 0,
    {
        assert((rr * a2) * dd <= ((s * u) * c2) * dd);
        assert(((s * u) * c2) * dd == (w * u) * c2);
        assert(p * a2 <= (w * u) * c2);
        assert((p * a2) * a <= ((w * u) * c2) * a);
        assert(((w * u) * c2) * a == ((w * a) * u) * c2);
        assert((w * a) * u <= (e * c) * u);
        assert(((w * a) * u) * c2 <= ((e * c) * u) * c2);
        assert(((e * c) * u) * c2 == q * (c * c2));
        assert((p * a2) * a == p * (a * a2));
    }
    assert(q * (a * a2) <= p * (c * c2)) by (nonlinear_arith)
        requires
            p == rr * dd,
            q == e * u,
            w == s * dd,
            (s * u) * a2 <= rr * c2,
            e * a <= w * c,
            dd > 0,
            u > 0,
            c > 0,
            a2 > 0,
    {
        assert(((s * u) * a2) * dd <= (rr * c2) * dd);
        assert(((s * u) * a2) * dd == (w * u) * a2);
        assert((w * u) * a2 <= p * c2);
        assert((e * a) * u <= (w * c) * u);
        assert(((e * a) * u) * a2 <= ((w * c) * u) * a2);
        assert(((w * c) * u) * a2 == ((w * u) * a2) * c);
        assert(((w * u) * a2) * c <= (p * c2) * c);
        assert(((e * a) * u) * a2 == q * (a * a2));
        assert((p * c2) * c == p * (c * c2));
    }
}

/// The sum of two ordinary numbers is one.
proof fn lemma_legs(x: Number, y: Number, b: nat)
    requires
        x.grounded(),
        y.grounded(),
        moderate(x, b),
        moderate(y, b),
        b <= 400,
    ensures
        x.plus_spec(y).grounded(),
        moderate(x.plus_spec(y), 900),
        HIDDEN <= x.plus_spec(y).pattern() < INFINITE,
{
    crate::addition::lemma_sum(x, y);
    crate::addition::lemma_sum_grows(x, y);
    let s = (x.value() + y.value()) as nat;
    lemma_pow2_adds(1, 1074 + b);
    vstd::arithmetic::power2::lemma2_to64();
    lemma_pow2_strictly_increases(1075 + b, 1974);
    lemma_pow2_strictly_increases(174, (1074 - b) as nat);
    let top = 1923 * HIDDEN;
    vstd::arithmetic::power2::lemma2_to64_rest();
    assert(top / (HIDDEN as int) == 1923 && top % (HIDDEN as int) == 0);
    lemma_pow2_adds(52, 1922);
    assert(magnitude(top) == pow2(1974));
    crate::addition::lemma_nearest_exact(top);
    crate::addition::lemma_nearest_order(s, magnitude(top), 1);
    crate::addition::lemma_nearest(s, 1);
    crate::addition::lemma_magnitude_order(crate::number::nearest(s, 1), top);
    lemma_least_normal();
    lemma_pow2_strictly_increases(53, 174);
    if x.plus_spec(y).pattern() < HIDDEN {
        crate::addition::lemma_magnitude_order(x.plus_spec(y).pattern(), HIDDEN as int);
    }
}

} // verus!
