//! How far rounded arithmetic is from the exact.
//!
//! Every operation rounds to nearest, so off the smallest numbers a result is within
//! one part in 2^53 of the exact one. What a chain of operations comes to is stated
//! here as a bracket: each rounding widens it by a factor of `1 + 2^-52`.
use crate::addition::{lemma_magnitude_order, lemma_nearest, lemma_nearest_exact};
use crate::number::{
    exponent, lemma_split, lemma_step, magnitude, mantissa, nearest, Number, HIDDEN, INFINITE,
};
use crate::rounding::{lemma_rounding_keeps_numbers, lemma_rounding_keeps_order};
use vstd::arithmetic::power::{lemma_pow0, lemma_pow_adds, lemma_pow_positive, lemma_pow1, pow};
use vstd::arithmetic::power2::{
    lemma_pow2_adds, lemma_pow2_pos, lemma_pow2_strictly_increases, pow2,
};
use vstd::prelude::*;

verus! {

/// One, in units of the smallest number.
pub open spec fn unit() -> int {
    pow2(1074) as int
}

/// `2^52` to a power.
pub open spec fn low(k: nat) -> int {
    pow(0x10_0000_0000_0000, k)
}

/// `2^52 + 1` to a power.
pub open spec fn high(k: nat) -> int {
    pow(0x10_0000_0000_0001, k)
}

/// Whether a number without a minus sign is `n / d` to within `k` roundings.
pub open spec fn approximates(x: Number, n: int, d: int, k: nat) -> bool {
    &&& x.grounded()
    &&& n >= 0
    &&& d > 0
    &&& (x.value() * d) * low(k) <= (n * unit()) * high(k)
    &&& (n * unit()) * low(k) <= (x.value() * d) * high(k)
}

/// Whether a value is an exact one to within `k` roundings of a sum whose terms come to
/// `scale`.
pub open spec fn strays(x: int, exact: int, scale: int, k: nat) -> bool {
    &&& -scale <= exact <= scale
    &&& (x - exact) * low(k) <= scale * (high(k) - low(k))
    &&& (exact - x) * low(k) <= scale * (high(k) - low(k))
}

/// Whether a number is between `2^-b` and `2^b` in size.
pub open spec fn moderate(x: Number, b: nat) -> bool {
    &&& b <= 1000
    &&& x.finite()
    &&& pow2((1074 - b) as nat) <= magnitude(x.pattern()) <= pow2(1074 + b)
}

pub open spec fn size_of(v: int) -> int {
    if v < 0 { -v } else { v }
}

proof fn lemma_powers(k: nat)
    ensures
        0 < low(k) <= high(k),
        low(k + 1) == low(k) * 0x10_0000_0000_0000,
        high(k + 1) == high(k) * 0x10_0000_0000_0001,
        low(0) == 1,
        high(0) == 1,
    decreases k,
{
    let (m, h) = (0x10_0000_0000_0000int, 0x10_0000_0000_0001int);
    lemma_pow0(m);
    lemma_pow0(h);
    lemma_pow1(m);
    lemma_pow1(h);
    lemma_pow_adds(m, k, 1);
    lemma_pow_adds(h, k, 1);
    lemma_pow_positive(m, k);
    if k > 0 {
        let j = (k - 1) as nat;
        lemma_powers(j);
        let (a, b) = (low(j), high(j));
        assert(a * m <= b * h) by (nonlinear_arith)
            requires
                0 < a <= b,
                0 < m <= h,
        ;
    }
}

/// A pattern nearest to a quotient, no smaller than the least normal one, is within one
/// part in `2^52` of it.
pub proof fn lemma_rounds(n: nat, d: nat)
    requires
        d > 0,
        HIDDEN <= nearest(n, d) < INFINITE,
    ensures
        ({
            let z = magnitude(nearest(n, d)) * d;
            &&& size_of(z - n) * 0x10_0000_0000_0000 <= n
            &&& z * 0x10_0000_0000_0000 <= n * 0x10_0000_0000_0001
            &&& n * 0x10_0000_0000_0000 <= z * 0x10_0000_0000_0001
        }),
{
    lemma_nearest(n, d);
    let p = nearest(n, d);
    let m = magnitude(p);
    lemma_step(p);
    lemma_step(p - 1);
    lemma_split(p);
    let e = exponent(p);
    let f = exponent(p - 1);
    let (s, t) = (pow2(e), pow2(f));
    assert(f <= e);
    if f < e {
        lemma_pow2_strictly_increases(f, e);
    }
    let q = mantissa(p);
    assert(q >= HIDDEN);
    assert(s * 0x10_0000_0000_0000 <= m) by (nonlinear_arith)
        requires
            m == q * s,
            q >= 0x10_0000_0000_0000,
            s >= 0,
    ;
    let z = m * d;
    let sd = s * d;
    assert((m + (m + s)) * d == 2 * z + sd && ((m - t) + m) * d == 2 * z - t * d)
        by (nonlinear_arith)
        requires
            z == m * d,
            sd == s * d,
    ;
    assert(t * d <= sd) by (nonlinear_arith)
        requires
            t <= s,
            sd == s * d,
            d > 0,
    ;
    assert(sd * 0x10_0000_0000_0000 <= z) by (nonlinear_arith)
        requires
            s * 0x10_0000_0000_0000 <= m,
            sd == s * d,
            z == m * d,
            d > 0,
    ;
    assert(magnitude(p - 1) == m - t);
    assert(2 * n <= 2 * z + sd);
    assert(2 * n >= 2 * z - sd);
}

/// A sum that rounds to a finite number is within one part in `2^52` of it.
pub proof fn lemma_sum_rounds(s: nat)
    requires
        nearest(s, 1) < INFINITE,
    ensures
        size_of(magnitude(nearest(s, 1)) - s) * 0x10_0000_0000_0000 <= s,
{
    lemma_nearest(s, 1);
    if s < HIDDEN {
        assert(magnitude(s as int) == s);
        lemma_nearest_exact(s as int);
    } else {
        assert(magnitude(HIDDEN as int) == HIDDEN) by {
            vstd::arithmetic::power2::lemma2_to64();
            assert((HIDDEN as int) / (HIDDEN as int) == 1);
            assert((HIDDEN as int) % (HIDDEN as int) == 0);
        }
        lemma_nearest_exact(HIDDEN as int);
        lemma_rounding_keeps_order(HIDDEN as nat, 1, s, 1);
        lemma_rounds(s, 1);
    }
}

/// A power of two is a number.
proof fn lemma_power(t: nat)
    requires
        52 <= t <= 2097,
    ensures
        magnitude((t - 51) * HIDDEN) == pow2(t),
        HIDDEN <= (t - 51) * HIDDEN < INFINITE,
{
    let p = (t - 51) * HIDDEN;
    assert(p / (HIDDEN as int) == t - 51);
    assert(p % (HIDDEN as int) == 0);
    lemma_pow2_adds(52, (t - 52) as nat);
    vstd::arithmetic::power2::lemma2_to64();
    vstd::arithmetic::power2::lemma2_to64_rest();
}

/// A quotient between two powers of two rounds to a number between them.
proof fn lemma_bracket(n: nat, d: nat, s: nat, t: nat)
    requires
        d > 0,
        52 <= s <= t <= 2097,
        pow2(s) * d <= n <= pow2(t) * d,
    ensures
        HIDDEN <= nearest(n, d) < INFINITE,
        pow2(s) <= magnitude(nearest(n, d)) <= pow2(t),
{
    lemma_power(s);
    lemma_power(t);
    let (p, q) = ((s - 51) * HIDDEN, (t - 51) * HIDDEN);
    lemma_rounding_keeps_numbers(p, d);
    lemma_rounding_keeps_numbers(q, d);
    let (a, b): (nat, nat) = (pow2(s) * d, pow2(t) * d);
    assert(a * d <= n * d && n * d <= b * d) by (nonlinear_arith)
        requires
            a <= n <= b,
            d > 0,
    ;
    lemma_rounding_keeps_order(a, d, n, d);
    lemma_rounding_keeps_order(n, d, b, d);
    lemma_magnitude_order(p, nearest(n, d));
    lemma_magnitude_order(nearest(n, d), q);
}

/// A product of moderate numbers is moderate, and rounds.
proof fn lemma_moderate_product(x: Number, y: Number, a: nat, b: nat)
    requires
        moderate(x, a),
        moderate(y, b),
        a + b <= 1000,
    ensures
        moderate(x.times_spec(y), a + b),
        x.times_spec(y).pattern() == nearest(
            magnitude(x.pattern()) * magnitude(y.pattern()),
            pow2(1074),
        ),
        HIDDEN <= x.times_spec(y).pattern() < INFINITE,
        x.times_spec(y).negative() == (x.negative() != y.negative()),
{
    let (mx, my) = (magnitude(x.pattern()), magnitude(y.pattern()));
    lemma_pow2_pos((1074 - a) as nat);
    lemma_pow2_pos((1074 - b) as nat);
    lemma_pow2_pos(1074);
    assert(magnitude(0) == 0);
    let (la, lb) = (pow2((1074 - a) as nat), pow2((1074 - b) as nat));
    let (ha, hb) = (pow2(1074 + a), pow2(1074 + b));
    lemma_pow2_adds((1074 - a) as nat, (1074 - b) as nat);
    lemma_pow2_adds((1074 - (a + b)) as nat, 1074);
    lemma_pow2_adds(1074 + a, 1074 + b);
    lemma_pow2_adds(1074 + (a + b), 1074);
    let n: nat = mx * my;
    assert(la * lb <= n <= ha * hb) by (nonlinear_arith)
        requires
            la <= mx <= ha,
            lb <= my <= hb,
            n == mx * my,
            la >= 0,
            lb >= 0,
    ;
    assert(pow2((1074 - (a + b)) as nat) * pow2(1074) == la * lb);
    assert(pow2(1074 + (a + b)) * pow2(1074) == ha * hb);
    lemma_bracket(n, pow2(1074), (1074 - (a + b)) as nat, 1074 + (a + b));
}

/// A quotient of moderate numbers is moderate, and rounds.
proof fn lemma_moderate_quotient(x: Number, y: Number, a: nat, b: nat)
    requires
        moderate(x, a),
        moderate(y, b),
        a + b <= 1000,
    ensures
        moderate(x.over_spec(y), a + b),
        x.over_spec(y).pattern() == nearest(
            magnitude(x.pattern()) * pow2(1074),
            magnitude(y.pattern()),
        ),
        HIDDEN <= x.over_spec(y).pattern() < INFINITE,
        x.over_spec(y).negative() == (x.negative() != y.negative()),
        magnitude(y.pattern()) > 0,
{
    let (mx, my) = (magnitude(x.pattern()), magnitude(y.pattern()));
    lemma_pow2_pos((1074 - a) as nat);
    lemma_pow2_pos((1074 - b) as nat);
    assert(magnitude(0) == 0);
    let (la, lb) = (pow2((1074 - a) as nat), pow2((1074 - b) as nat));
    let (ha, hb) = (pow2(1074 + a), pow2(1074 + b));
    let (ls, hs) = (pow2((1074 - (a + b)) as nat), pow2(1074 + (a + b)));
    lemma_pow2_adds((1074 - (a + b)) as nat, 1074 + b);
    lemma_pow2_adds((1074 - a) as nat, 1074);
    lemma_pow2_adds(1074 + (a + b), (1074 - b) as nat);
    lemma_pow2_adds(1074 + a, 1074);
    let u = pow2(1074);
    assert(ls * hb == la * u && hs * lb == ha * u);
    let n: nat = mx * u;
    assert(ls * my <= n <= hs * my) by (nonlinear_arith)
        requires
            la <= mx <= ha,
            lb <= my <= hb,
            n == mx * u,
            ls * hb == la * u,
            hs * lb == ha * u,
            ls >= 0,
            hs >= 0,
            u >= 0,
    ;
    lemma_bracket(n, my, (1074 - (a + b)) as nat, 1074 + (a + b));
}

/// A number is itself, exactly.
pub proof fn lemma_itself(x: Number)
    requires
        x.grounded(),
    ensures
        approximates(x, x.value(), unit(), 0),
{
    lemma_powers(0);
    lemma_pow2_pos(1074);
}

/// A whole number a layout can have is itself to within a rounding, and moderate.
pub proof fn lemma_whole(v: int, b: nat)
    requires
        0 < v <= pow2(b),
        b <= 1000,
    ensures
        approximates(Number::of_spec(v), v, 1, 1),
        moderate(Number::of_spec(v), b),
{
    lemma_powers(0);
    lemma_powers(1);
    let u = pow2(1074);
    lemma_pow2_pos(1074);
    let n: nat = (v * u) as nat;
    lemma_pow2_adds(b, 1074);
    if b > 0 {
        lemma_pow2_strictly_increases((1074 - b) as nat, 1074);
    }
    assert(u <= n <= pow2(b) * u) by (nonlinear_arith)
        requires
            1 <= v <= pow2(b),
            n == v * u,
            u > 0,
    ;
    lemma_bracket(n, 1, 1074, 1074 + b);
    lemma_rounds(n, 1);
}

/// One rounding widens a bracket once.
proof fn lemma_widen(z: int, e: int, f: int, k: nat)
    requires
        z >= 0,
        e >= 0,
        f >= 0,
        z * 0x10_0000_0000_0000 <= e * 0x10_0000_0000_0001,
        e * 0x10_0000_0000_0000 <= z * 0x10_0000_0000_0001,
        e * low(k) <= f * high(k),
        f * low(k) <= e * high(k),
    ensures
        z * low(k + 1) <= f * high(k + 1),
        f * low(k + 1) <= z * high(k + 1),
{
    lemma_powers(k);
    let (l, h) = (low(k), high(k));
    let (m, w) = (0x10_0000_0000_0000int, 0x10_0000_0000_0001int);
    assert(z * (l * m) <= f * (h * w)) by (nonlinear_arith)
        requires
            z * m <= e * w,
            e * l <= f * h,
            l > 0,
            w > 0,
    {
        assert(z * (l * m) == (z * m) * l);
        assert((z * m) * l <= (e * w) * l);
        assert((e * w) * l == (e * l) * w);
        assert((e * l) * w <= (f * h) * w);
        assert((f * h) * w == f * (h * w));
    }
    assert(f * (l * m) <= z * (h * w)) by (nonlinear_arith)
        requires
            e * m <= z * w,
            f * l <= e * h,
            h > 0,
            m > 0,
    {
        assert(f * (l * m) == (f * l) * m);
        assert((f * l) * m <= (e * h) * m);
        assert((e * h) * m == (e * m) * h);
        assert((e * m) * h <= (z * w) * h);
        assert((z * w) * h == z * (h * w));
    }
}

/// Brackets multiply.
proof fn lemma_brackets_multiply(x: int, n: int, y: int, m: int, j: nat, k: nat)
    requires
        x >= 0,
        n >= 0,
        y >= 0,
        m >= 0,
        x * low(j) <= n * high(j),
        y * low(k) <= m * high(k),
    ensures
        (x * y) * low(j + k) <= (n * m) * high(j + k),
{
    lemma_powers(j);
    lemma_powers(k);
    lemma_pow_adds(0x10_0000_0000_0000, j, k);
    lemma_pow_adds(0x10_0000_0000_0001, j, k);
    let (a, b, c, d) = (low(j), high(j), low(k), high(k));
    let (p, q, r, s) = (x * a, n * b, y * c, m * d);
    assert(p * r <= q * s) by (nonlinear_arith)
        requires
            0 <= p <= q,
            0 <= r <= s,
    ;
    assert(p >= 0 && r >= 0) by (nonlinear_arith)
        requires
            p == x * a,
            r == y * c,
            x >= 0,
            y >= 0,
            a > 0,
            c > 0,
    ;
    assert((x * y) * (a * c) == p * r && (n * m) * (b * d) == q * s) by (nonlinear_arith)
        requires
            p == x * a,
            r == y * c,
            q == n * b,
            s == m * d,
    ;
}

/// A product approximates the product of what its factors approximate.
pub proof fn lemma_product(
    x: Number,
    y: Number,
    a: nat,
    b: nat,
    n: int,
    d: int,
    m: int,
    e: int,
    j: nat,
    k: nat,
)
    requires
        approximates(x, n, d, j),
        approximates(y, m, e, k),
        moderate(x, a),
        moderate(y, b),
        a + b <= 1000,
    ensures
        approximates(x.times_spec(y), n * m, d * e, j + k + 1),
        moderate(x.times_spec(y), a + b),
{
    lemma_moderate_product(x, y, a, b);
    let (mx, my, u) = (x.value(), y.value(), unit());
    lemma_pow2_pos(1074);
    lemma_rounds((mx * my) as nat, pow2(1074));
    let p = x.times_spec(y).value();
    let (vx, vy) = (mx * d, my * e);
    let (nx, ny) = (n * u, m * u);
    assert(vx >= 0 && vy >= 0 && nx >= 0 && ny >= 0 && d * e > 0 && n * m >= 0)
        by (nonlinear_arith)
        requires
            vx == mx * d,
            vy == my * e,
            nx == n * u,
            ny == m * u,
            mx >= 0,
            my >= 0,
            n >= 0,
            m >= 0,
            u > 0,
            d > 0,
            e > 0,
    ;
    lemma_brackets_multiply(vx, nx, vy, ny, j, k);
    lemma_brackets_multiply(nx, vx, ny, vy, j, k);
    let z = (p * u) * (d * e);
    let exact = vx * vy;
    let f = nx * ny;
    let s = mx * my;
    assert(exact == s * (d * e)) by (nonlinear_arith)
        requires
            exact == vx * vy,
            vx == mx * d,
            vy == my * e,
            s == mx * my,
    ;
    let de = d * e;
    assert(z * 0x10_0000_0000_0000 <= exact * 0x10_0000_0000_0001 && exact * 0x10_0000_0000_0000
        <= z * 0x10_0000_0000_0001) by (nonlinear_arith)
        requires
            z == (p * u) * de,
            exact == s * de,
            (p * u) * 0x10_0000_0000_0000 <= s * 0x10_0000_0000_0001,
            s * 0x10_0000_0000_0000 <= (p * u) * 0x10_0000_0000_0001,
            de > 0,
    ;
    assert(z >= 0 && exact >= 0 && f >= 0) by (nonlinear_arith)
        requires
            z == (p * u) * de,
            p >= 0,
            u > 0,
            de > 0,
            exact == vx * vy,
            vx >= 0,
            vy >= 0,
            f == nx * ny,
            nx >= 0,
            ny >= 0,
    ;
    lemma_widen(z, exact, f, j + k);
    let (l, h) = (low(j + k + 1), high(j + k + 1));
    lemma_powers(j + k + 1);
    assert(f == ((n * m) * u) * u) by (nonlinear_arith)
        requires
            f == nx * ny,
            nx == n * u,
            ny == m * u,
    ;
    lemma_cancel(p, n * m, u, de, l, h, z, f);
}

/// A common unit cancels.
proof fn lemma_cancel(p: int, n: int, u: int, d: int, l: int, h: int, z: int, f: int)
    requires
        u > 0,
        z == (p * u) * d,
    ensures
        f == (n * u) * u && z * l <= f * h ==> (p * d) * l <= (n * u) * h,
        f == (n * u) * u && f * l <= z * h ==> (n * u) * l <= (p * d) * h,
{
    assert(z * l == u * ((p * d) * l) && z * h == u * ((p * d) * h)) by (nonlinear_arith)
        requires
            z == (p * u) * d,
    ;
    if f == (n * u) * u {
        assert(f * l == u * ((n * u) * l) && f * h == u * ((n * u) * h)) by (nonlinear_arith)
            requires
                f == (n * u) * u,
        ;
        let (a, b, c, e) = ((p * d) * l, (n * u) * h, (n * u) * l, (p * d) * h);
        assert(u * a <= u * b ==> a <= b) by (nonlinear_arith)
            requires
                u > 0,
        ;
        assert(u * c <= u * e ==> c <= e) by (nonlinear_arith)
            requires
                u > 0,
        ;
    }
}

/// A quotient approximates the quotient of what its two numbers approximate.
pub proof fn lemma_quotient(
    x: Number,
    y: Number,
    a: nat,
    b: nat,
    n: int,
    d: int,
    m: int,
    e: int,
    j: nat,
    k: nat,
)
    requires
        approximates(x, n, d, j),
        approximates(y, m, e, k),
        m > 0,
        moderate(x, a),
        moderate(y, b),
        a + b <= 1000,
    ensures
        approximates(x.over_spec(y), n * e, d * m, j + k + 1),
        moderate(x.over_spec(y), a + b),
{
    lemma_moderate_quotient(x, y, a, b);
    let (mx, my, u) = (x.value(), y.value(), unit());
    lemma_pow2_pos(1074);
    lemma_rounds((mx * u) as nat, my as nat);
    let p = x.over_spec(y).value();
    let (vx, vy) = (mx * d, my * e);
    let (nx, ny) = (n * u, m * u);
    assert(vx >= 0 && vy > 0 && nx >= 0 && ny > 0 && d * m > 0 && n * e >= 0) by (nonlinear_arith)
        requires
            vx == mx * d,
            vy == my * e,
            nx == n * u,
            ny == m * u,
            mx >= 0,
            my > 0,
            n >= 0,
            m > 0,
            u > 0,
            d > 0,
            e > 0,
    ;
    // What the quotient is of: `vx * ny` against `nx * vy`.
    lemma_brackets_multiply(vx, nx, ny, vy, j, k);
    lemma_brackets_multiply(nx, vx, vy, ny, j, k);
    let (exact, f) = (vx * ny, nx * vy);
    // The rounded quotient, over the same: `p * my` is `mx * u` to one rounding.
    let c = d * m;
    let z = (p * my) * c;
    assert(exact == (mx * u) * c) by (nonlinear_arith)
        requires
            exact == vx * ny,
            vx == mx * d,
            ny == m * u,
            c == d * m,
    ;
    let s = mx * u;
    assert(z * 0x10_0000_0000_0000 <= exact * 0x10_0000_0000_0001 && exact * 0x10_0000_0000_0000
        <= z * 0x10_0000_0000_0001 && z >= 0 && exact >= 0 && f >= 0) by (nonlinear_arith)
        requires
            z == (p * my) * c,
            exact == s * c,
            (p * my) * 0x10_0000_0000_0000 <= s * 0x10_0000_0000_0001,
            s * 0x10_0000_0000_0000 <= (p * my) * 0x10_0000_0000_0001,
            c > 0,
            p >= 0,
            my > 0,
            s >= 0,
            f == nx * vy,
            nx >= 0,
            vy > 0,
    ;
    lemma_widen(z, exact, f, j + k);
    let (l, h) = (low(j + k + 1), high(j + k + 1));
    let (g, w) = ((p * c), ((n * e) * u));
    assert(z == my * g) by (nonlinear_arith)
        requires
            z == (p * my) * c,
            g == p * c,
    ;
    assert(f == my * w) by (nonlinear_arith)
        requires
            f == nx * vy,
            nx == n * u,
            vy == my * e,
            w == (n * e) * u,
    ;
    assert(g * l <= w * h && w * l <= g * h) by (nonlinear_arith)
        requires
            z * l <= f * h,
            f * l <= z * h,
            z == my * g,
            f == my * w,
            my > 0,
    {
        assert(my * (g * l) == z * l);
        assert(my * (w * h) == f * h);
        assert(my * (w * l) == f * l);
        assert(my * (g * h) == z * h);
        assert(my * (g * l) <= my * (w * h) ==> g * l <= w * h);
        assert(my * (w * l) <= my * (g * h) ==> w * l <= g * h);
    }
}

/// What an approximation on the failing side of another number says of the exact
/// values.
pub proof fn lemma_exceeds(x: Number, n: int, d: int, k: nat, y: Number)
    requires
        approximates(x, n, d, k),
        y.grounded(),
    ensures
        x.le(y) ==> (n * unit()) * low(k) <= (y.value() * d) * high(k),
        y.le(x) ==> (y.value() * d) * low(k) <= (n * unit()) * high(k),
        x.le(y) || y.lt(x),
        y.le(x) || x.lt(y),
{
    lemma_powers(k);
    let (a, b, e, l, h) = (x.value() * d, y.value() * d, n * unit(), low(k), high(k));
    if x.le(y) {
        assert(a <= b) by (nonlinear_arith)
            requires
                a == x.value() * d,
                b == y.value() * d,
                x.value() <= y.value(),
                d > 0,
        ;
        assert(a * h <= b * h) by (nonlinear_arith)
            requires
                a <= b,
                h > 0,
        ;
    }
    if y.le(x) {
        assert(b <= a) by (nonlinear_arith)
            requires
                a == x.value() * d,
                b == y.value() * d,
                y.value() <= x.value(),
                d > 0,
        ;
        assert(b * l <= a * l) by (nonlinear_arith)
            requires
                b <= a,
                l > 0,
        ;
    }
}

/// Whether two numbers have a product no smaller than the least normal number, or are
/// not both other than zero.
pub open spec fn clean(a: Number, b: Number) -> bool {
    a.pattern() == 0 || b.pattern() == 0 || a.times_spec(b).pattern() >= HIDDEN
}

/// A finite product is exact to one rounding, sign and all.
pub proof fn lemma_product_rounds(a: Number, b: Number)
    requires
        clean(a, b),
        a.times_spec(b).finite(),
    ensures
        a.finite(),
        b.finite(),
        ({
            let x = a.value() * b.value();
            size_of(a.times_spec(b).value() * unit() - x) * 0x10_0000_0000_0000 <= size_of(x)
        }),
{
    let (p, q, u) = (magnitude(a.pattern()), magnitude(b.pattern()), pow2(1074));
    lemma_pow2_pos(1074);
    assert(magnitude(0) == 0);
    let x = a.value() * b.value();
    if a.pattern() == 0 || b.pattern() == 0 {
        assert(x == 0) by (nonlinear_arith)
            requires
                x == a.value() * b.value(),
                a.value() == 0 || b.value() == 0,
        ;
        assert(0 * u == 0);
    } else {
        let n: nat = p * q;
        lemma_nearest(n, u);
        lemma_rounds(n, u);
        let z = magnitude(nearest(n, u));
        let (s, t) = (a.value(), b.value());
        assert(x == n || x == -n) by (nonlinear_arith)
            requires
                x == s * t,
                s == p || s == -p,
                t == q || t == -q,
                n == p * q,
        ;
        let w = a.times_spec(b).value();
        assert((a.negative() != b.negative()) ==> x == -n) by (nonlinear_arith)
            requires
                x == s * t,
                a.negative() ==> s == -p,
                !a.negative() ==> s == p,
                b.negative() ==> t == -q,
                !b.negative() ==> t == q,
                n == p * q,
        ;
        assert((a.negative() == b.negative()) ==> x == n) by (nonlinear_arith)
            requires
                x == s * t,
                a.negative() ==> s == -p,
                !a.negative() ==> s == p,
                b.negative() ==> t == -q,
                !b.negative() ==> t == q,
                n == p * q,
        ;
        assert((-z) * u == -(z * u)) by (nonlinear_arith);
    }
}

/// A finite sum is exact to one rounding, sign and all.
pub proof fn lemma_sum_strays(a: Number, b: Number)
    requires
        a.plus_spec(b).finite(),
    ensures
        a.finite(),
        b.finite(),
        ({
            let x = a.value() + b.value();
            size_of(a.plus_spec(b).value() - x) * 0x10_0000_0000_0000 <= size_of(x)
        }),
{
    let x = a.value() + b.value();
    assert(magnitude(0) == 0);
    if x != 0 {
        lemma_nearest(size_of(x) as nat, 1);
        lemma_sum_rounds(size_of(x) as nat);
    }
}

/// An exact value strays nowhere.
pub proof fn lemma_exactly(x: int, scale: int)
    requires
        -scale <= x <= scale,
    ensures
        strays(x, x, scale, 0),
{
    lemma_powers(0);
    assert(scale * 0 == 0);
}

/// Rounding once more strays once more.
pub proof fn lemma_strays_once(z: int, x: int, exact: int, scale: int, k: nat)
    requires
        strays(x, exact, scale, k),
        size_of(z - x) * 0x10_0000_0000_0000 <= size_of(x),
    ensures
        strays(z, exact, scale, k + 1),
{
    lemma_powers(k);
    let (l, h, m) = (low(k), high(k), 0x10_0000_0000_0000int);
    let (dz, dx) = (size_of(z - x), size_of(x - exact));
    assert(dx * l <= scale * (h - l));
    assert(size_of(x) <= scale + dx);
    assert((scale + dx) * l <= scale * h) by (nonlinear_arith)
        requires
            dx * l <= scale * (h - l),
    ;
    assert(dz * (m * l) <= scale * h) by (nonlinear_arith)
        requires
            dz * m <= size_of(x),
            size_of(x) <= scale + dx,
            (scale + dx) * l <= scale * h,
            l > 0,
    {
        assert((dz * m) * l <= (scale + dx) * l);
        assert(dz * (m * l) == (dz * m) * l);
    }
    assert(dx * (m * l) <= m * (scale * (h - l))) by (nonlinear_arith)
        requires
            dx * l <= scale * (h - l),
            m > 0,
    ;
    let g = scale * (h * (m + 1) - l * m);
    assert(scale * h + m * (scale * (h - l)) == g) by (nonlinear_arith)
        requires
            g == scale * (h * (m + 1) - l * m),
    ;
    let d = size_of(z - exact);
    assert(d <= dz + dx);
    assert(d * (l * m) <= g) by (nonlinear_arith)
        requires
            d <= dz + dx,
            dz * (m * l) + dx * (m * l) <= g,
            l > 0,
            m > 0,
    {
        assert(d * (l * m) <= (dz + dx) * (l * m));
        assert((dz + dx) * (l * m) == dz * (m * l) + dx * (m * l));
    }
    assert((-d) * (l * m) == -(d * (l * m))) by (nonlinear_arith);
    let lm = l * m;
    assert((z - exact) * lm <= g && (exact - z) * lm <= g) by (nonlinear_arith)
        requires
            d * lm <= g,
            d == z - exact || d == exact - z,
            d >= 0,
            lm > 0,
            g >= 0,
    ;
    assert(g >= 0) by (nonlinear_arith)
        requires
            d * lm <= g,
            d >= 0,
            lm > 0,
    ;
}

/// What strays a little strays no more than a lot.
pub proof fn lemma_strays_more(x: int, exact: int, scale: int, k: nat, j: nat)
    requires
        strays(x, exact, scale, k),
        k <= j,
    ensures
        strays(x, exact, scale, j),
    decreases j - k,
{
    if k < j {
        assert(size_of(x - x) * 0x10_0000_0000_0000 <= size_of(x));
        lemma_strays_once(x, x, exact, scale, k);
        lemma_strays_more(x, exact, scale, k + 1, j);
    }
}

/// Strays add.
pub proof fn lemma_strays_add(
    x: int,
    e: int,
    s: int,
    y: int,
    f: int,
    t: int,
    k: nat,
)
    requires
        strays(x, e, s, k),
        strays(y, f, t, k),
    ensures
        strays(x + y, e + f, s + t, k),
{
    let (l, g) = (low(k), high(k) - low(k));
    assert((x + y - (e + f)) * l == (x - e) * l + (y - f) * l) by (nonlinear_arith);
    assert((e + f - (x + y)) * l == (e - x) * l + (f - y) * l) by (nonlinear_arith);
    assert((s + t) * g == s * g + t * g) by (nonlinear_arith);
}

/// Strays change sign.
pub proof fn lemma_strays_negated(x: int, e: int, s: int, k: nat)
    requires
        strays(x, e, s, k),
    ensures
        strays(-x, -e, s, k),
{
}

/// Strays scale.
pub proof fn lemma_strays_times(x: int, e: int, s: int, c: int, k: nat)
    requires
        strays(x, e, s, k),
    ensures
        strays(x * c, e * c, s * size_of(c), k),
{
    let (l, g, w) = (low(k), high(k) - low(k), size_of(c));
    let (p, q) = ((x - e) * l, (e - x) * l);
    let sg = s * g;
    assert((s * w) * g == w * sg) by (nonlinear_arith)
        requires
            sg == s * g,
    ;
    assert((x * c - e * c) * l == c * p && (e * c - x * c) * l == c * q) by (nonlinear_arith)
        requires
            p == (x - e) * l,
            q == (e - x) * l,
    ;
    assert(q == -p) by (nonlinear_arith)
        requires
            p == (x - e) * l,
            q == (e - x) * l,
    ;
    assert(c * p <= w * sg && c * q <= w * sg) by (nonlinear_arith)
        requires
            p <= sg,
            q <= sg,
            q == -p,
            w == c && c >= 0 || w == -c && c < 0,
    ;
    assert(-(s * w) <= e * c <= s * w) by (nonlinear_arith)
        requires
            -s <= e <= s,
            w == c && c >= 0 || w == -c && c < 0,
    ;
}

/// A finite sum of two numbers strays once more than its terms.
pub proof fn lemma_plus_strays(
    a: Number,
    b: Number,
    c: int,
    e: int,
    s: int,
    f: int,
    t: int,
    k: nat,
)
    requires
        a.plus_spec(b).finite(),
        c > 0,
        strays(a.value() * c, e, s, k),
        strays(b.value() * c, f, t, k),
    ensures
        strays(a.plus_spec(b).value() * c, e + f, s + t, k + 1),
{
    lemma_sum_strays(a, b);
    lemma_strays_add(a.value() * c, e, s, b.value() * c, f, t, k);
    let (x, z) = (a.value() + b.value(), a.plus_spec(b).value());
    assert(a.value() * c + b.value() * c == x * c) by (nonlinear_arith)
        requires
            x == a.value() + b.value(),
    ;
    let m = 0x10_0000_0000_0000int;
    assert(size_of(z * c - x * c) == size_of(z - x) * c && size_of(x * c) == size_of(x) * c)
        by (nonlinear_arith)
        requires
            c > 0,
    ;
    let (p, q) = (size_of(z - x), size_of(x));
    assert((p * c) * m <= q * c) by (nonlinear_arith)
        requires
            p * m <= q,
            c > 0,
    ;
    lemma_strays_once(z * c, x * c, e + f, s + t, k);
}

/// A clean finite product strays once more than its first factor.
pub proof fn lemma_times_strays(a: Number, b: Number, e: int, s: int, k: nat)
    requires
        clean(a, b),
        a.times_spec(b).finite(),
        strays(a.value(), e, s, k),
    ensures
        strays(a.times_spec(b).value() * unit(), e * b.value(), s * size_of(b.value()), k + 1),
{
    lemma_product_rounds(a, b);
    lemma_strays_times(a.value(), e, s, b.value(), k);
    lemma_strays_once(
        a.times_spec(b).value() * unit(),
        a.value() * b.value(),
        e * b.value(),
        s * size_of(b.value()),
        k,
    );
}

/// A common factor of an exact fraction drops out.
pub proof fn lemma_reduced(x: Number, n: int, d: int, c: int, k: nat)
    requires
        approximates(x, n * c, d * c, k),
        c > 0,
        d > 0,
        n >= 0,
    ensures
        approximates(x, n, d, k),
{
    let (v, u, l, h) = (x.value(), unit(), low(k), high(k));
    assert((v * (d * c)) * l == c * ((v * d) * l) && ((n * c) * u) * h == c * ((n * u) * h) && ((n
        * c) * u) * l == c * ((n * u) * l) && (v * (d * c)) * h == c * ((v * d) * h))
        by (nonlinear_arith);
    let (p, q, r, s) = ((v * d) * l, (n * u) * h, (n * u) * l, (v * d) * h);
    assert(c * p <= c * q ==> p <= q) by (nonlinear_arith)
        requires
            c > 0,
    ;
    assert(c * r <= c * s ==> r <= s) by (nonlinear_arith)
        requires
            c > 0,
    ;
}

/// A moderate number is moderate in a wider range.
pub proof fn lemma_more_moderate(x: Number, a: nat, b: nat)
    requires
        moderate(x, a),
        a <= b <= 1000,
    ensures
        moderate(x, b),
{
    if a < b {
        lemma_pow2_strictly_increases((1074 - b) as nat, (1074 - a) as nat);
        lemma_pow2_strictly_increases(1074 + a, 1074 + b);
    }
}

/// A few roundings keep the sign of what they round.
pub proof fn lemma_strays_sign(x: int, exact: int, k: nat)
    requires
        k <= 3,
        strays(x, exact, size_of(exact), k),
    ensures
        exact == 0 ==> x == 0,
        exact > 0 ==> x > 0,
        exact < 0 ==> x < 0,
{
    lemma_powers(0);
    lemma_powers(1);
    lemma_powers(2);
    lemma_powers(3);
    let (l, h, s) = (low(k), high(k), size_of(exact));
    assert(2 * l > h);
    assert((exact == 0 ==> x == 0) && (exact > 0 ==> x > 0) && (exact < 0 ==> x < 0))
        by (nonlinear_arith)
        requires
            s == (if exact < 0 { -exact } else { exact }),
            (x - exact) * l <= s * (h - l),
            (exact - x) * l <= s * (h - l),
            0 < l <= h,
            2 * l > h,
    ;
}

/// A number without a minus sign strays no further than it approximates.
pub proof fn lemma_approximates_strays(x: Number, n: int, d: int, k: nat)
    requires
        approximates(x, n, d, k),
    ensures
        strays(x.value() * d, n * unit(), n * unit(), k),
{
    lemma_powers(k);
    lemma_pow2_pos(1074);
    let (l, h, z, e) = (low(k), high(k), x.value() * d, n * unit());
    assert(e >= 0) by (nonlinear_arith)
        requires
            e == n * unit(),
            n >= 0,
            unit() > 0,
    ;
    assert((z - e) * l <= e * (h - l)) by (nonlinear_arith)
        requires
            z * l <= e * h,
    ;
    assert((e - z) * l <= e * (h - l)) by (nonlinear_arith)
        requires
            e * l <= z * h,
            e >= 0,
            0 < l <= h,
    ;
}

/// A product strays by what its factors stray together.
pub proof fn lemma_strays_product(
    x: int,
    e: int,
    s: int,
    k: nat,
    y: int,
    f: int,
    t: int,
    j: nat,
)
    requires
        strays(x, e, s, k),
        strays(y, f, t, j),
    ensures
        strays(x * y, e * f, s * t, k + j),
{
    lemma_powers(k);
    lemma_powers(j);
    lemma_pow_adds(0x10_0000_0000_0000, k, j);
    lemma_pow_adds(0x10_0000_0000_0001, k, j);
    let (a, b, c, d) = (low(k), high(k), low(j), high(j));
    let (p, q) = (x - e, y - f);
    let m = size_of(x);
    assert(m * a <= s * b) by (nonlinear_arith)
        requires
            m == size_of(x),
            size_of(x) == (if x < 0 { -x } else { x }),
            -s <= e <= s,
            (x - e) * a <= s * (b - a),
            (e - x) * a <= s * (b - a),
            a > 0,
    ;
    assert(-(s * t) <= e * f <= s * t) by (nonlinear_arith)
        requires
            -s <= e <= s,
            -t <= f <= t,
    ;
    let (g, r) = (size_of(q), size_of(p));
    let v = size_of(f);
    assert(g * c <= t * (d - c) && r * a <= s * (b - a)) by (nonlinear_arith)
        requires
            g == (if q < 0 { -q } else { q }),
            r == (if p < 0 { -p } else { p }),
            p * a <= s * (b - a),
            -p * a <= s * (b - a),
            q * c <= t * (d - c),
            -q * c <= t * (d - c),
    ;
    let one = (m * a) * (g * c);
    let two = (v * c) * (r * a);
    assert(one <= (s * b) * (t * (d - c))) by (nonlinear_arith)
        requires
            one == (m * a) * (g * c),
            0 <= m * a <= s * b,
            0 <= g * c <= t * (d - c),
    {
        assert((m * a) * (g * c) <= (s * b) * (g * c));
        assert((s * b) * (g * c) <= (s * b) * (t * (d - c)));
    }
    assert(two <= (t * c) * (s * (b - a))) by (nonlinear_arith)
        requires
            two == (v * c) * (r * a),
            0 <= v <= t,
            c > 0,
            0 <= r * a <= s * (b - a),
    {
        assert(0 <= v * c <= t * c);
        assert((v * c) * (r * a) <= (t * c) * (r * a));
        assert((t * c) * (r * a) <= (t * c) * (s * (b - a)));
    }
    let gap = x * y - e * f;
    let (w, bound) = (m * g + v * r, (s * t) * (b * d - a * c));
    assert(gap <= w && -gap <= w) by (nonlinear_arith)
        requires
            gap == x * y - e * f,
            w == m * g + v * r,
            m == (if x < 0 { -x } else { x }),
            v == (if f < 0 { -f } else { f }),
            g == (if y - f < 0 { -(y - f) } else { y - f }),
            r == (if x - e < 0 { -(x - e) } else { x - e }),
    {
        assert(x * y - e * f == x * (y - f) + f * (x - e));
        assert(x * (y - f) <= m * g && -(x * (y - f)) <= m * g);
        assert(f * (x - e) <= v * r && -(f * (x - e)) <= v * r);
    }
    let st = s * t;
    assert((s * b) * (t * (d - c)) == st * (b * d) - st * (b * c)) by (nonlinear_arith)
        requires
            st == s * t,
    ;
    assert((t * c) * (s * (b - a)) == st * (b * c) - st * (a * c)) by (nonlinear_arith)
        requires
            st == s * t,
    ;
    assert(bound == st * (b * d) - st * (a * c)) by (nonlinear_arith)
        requires
            bound == st * (b * d - a * c),
    ;
    assert((m * a) * (g * c) == (m * g) * (a * c)) by (nonlinear_arith);
    assert((v * c) * (r * a) == (v * r) * (a * c)) by (nonlinear_arith);
    let (mg, vr, ac) = (m * g, v * r, a * c);
    assert((mg + vr) * ac == mg * ac + vr * ac) by (nonlinear_arith);
    assert(gap * (a * c) <= w * (a * c) && -gap * (a * c) <= w * (a * c)) by (nonlinear_arith)
        requires
            gap <= w,
            -gap <= w,
            a > 0,
            c > 0,
    ;
}

} // verus!
