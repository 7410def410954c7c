//! Binary64 numbers held as their bit patterns, with exact integer semantics.
//!
//! Every finite binary64 number is an integer multiple of the smallest
//! subnormal, so a number's magnitude is stated here as a natural number in
//! that unit. Magnitude grows strictly with the low 63 bits of the pattern,
//! which is what lets the rounding rule be stated on patterns alone: the result
//! of an operation is the pattern whose neighbours' midpoints enclose the exact
//! value, and a tie goes to the even pattern.
use vstd::arithmetic::power2::{
    lemma_pow2_adds, lemma_pow2_pos, lemma_pow2_strictly_increases, lemma_pow2_unfold, pow2,
};
use vstd::prelude::*;

verus! {

/// Weight of the sign bit.
pub const SIGN: u64 = 0x8000_0000_0000_0000;

/// Weight of the hidden mantissa bit, and the spacing of the exponent field.
pub const HIDDEN: u64 = 0x10_0000_0000_0000;

/// The magnitude pattern of an infinity.
pub const INFINITE: u64 = 0x7FF0_0000_0000_0000;

/// The pattern every not-a-number result carries.
pub const QUIET_NAN: u64 = 0x7FF8_0000_0000_0000;

/// The pattern of one.
pub const ONE: u64 = 0x3FF0_0000_0000_0000;

/// A binary64 number as its bit pattern.
///
/// The derived `==` compares patterns, so the two zeros differ under it; the
/// numeric order is [`Number::less`].
#[derive(Clone, Copy, Debug, PartialEq, Eq, Structural)]
pub struct Number {
    pub bits: u64,
}

/// The magnitude a 63-bit pattern stands for, in units of the smallest
/// subnormal.
pub open spec fn magnitude(p: int) -> nat {
    if p < HIDDEN {
        p as nat
    } else {
        ((HIDDEN + p % (HIDDEN as int)) * pow2((p / (HIDDEN as int) - 1) as nat)) as nat
    }
}

/// Whether `p` is the pattern nearest to `n / d`, ties to the even pattern.
pub open spec fn is_nearest(p: int, n: nat, d: nat) -> bool {
    &&& 0 <= p <= INFINITE
    &&& p > 0 ==> {
        let low = (magnitude(p - 1) + magnitude(p)) * d;
        low < 2 * n || (low == 2 * n && p % 2 == 0)
    }
    &&& p < INFINITE ==> {
        let high = (magnitude(p) + magnitude(p + 1)) * d;
        2 * n < high || (2 * n == high && p % 2 == 0)
    }
}

/// The pattern nearest to `n / d`.
pub open spec fn nearest(n: nat, d: nat) -> int {
    choose|p: int| is_nearest(p, n, d)
}

/// A magnitude pattern with a sign.
pub open spec fn signed(negative: bool, p: int) -> Number {
    Number { bits: (if negative { p + SIGN } else { p }) as u64 }
}

proof fn lemma_magnitude_at(q: int, k: nat)
    requires
        0 <= q <= 2 * HIDDEN,
        k == 0 || q >= HIDDEN,
    ensures
        magnitude(k * HIDDEN + q) == q * pow2(k),
{
    let p = k * HIDDEN + q;
    lemma_pow2_unfold(k + 1);
    lemma_pow2_unfold(1);
    vstd::arithmetic::power2::lemma2_to64();
    assert(pow2(0) == 1);
    if q == 2 * HIDDEN {
        assert(p == (k + 2) * HIDDEN);
        assert(p / (HIDDEN as int) == k + 2);
        assert(p % (HIDDEN as int) == 0);
        assert(pow2(k + 1) == 2 * pow2(k));
        assert(HIDDEN * (2 * pow2(k)) == (2 * HIDDEN) * pow2(k)) by (nonlinear_arith);
    } else if q >= HIDDEN {
        assert(p / (HIDDEN as int) == k + 1);
        assert(p % (HIDDEN as int) == q - HIDDEN);
    } else {
        assert(k == 0);
        assert(q * 1 == q);
    }
}

/// The mantissa and exponent a pattern splits into.
pub open spec fn mantissa(p: int) -> int {
    if p < HIDDEN { p } else { HIDDEN + p % (HIDDEN as int) }
}

pub open spec fn exponent(p: int) -> nat {
    if p < HIDDEN { 0 } else { (p / (HIDDEN as int) - 1) as nat }
}

/// A pattern stands for its mantissa at its exponent.
pub proof fn lemma_split(p: int)
    requires
        0 <= p <= INFINITE,
    ensures
        magnitude(p) == mantissa(p) * pow2(exponent(p)),
        0 <= mantissa(p) < 2 * HIDDEN,
        exponent(p) <= 2046,
        exponent(p) > 0 ==> mantissa(p) >= HIDDEN,
        p == exponent(p) * HIDDEN + mantissa(p),
        p > 0 ==> mantissa(p) > 0,
{
    vstd::arithmetic::power2::lemma2_to64();
    assert(p / (HIDDEN as int) <= 2047);
    if p < HIDDEN {
        assert(p * 1 == p);
    }
}

/// The next pattern stands for one step more.
pub proof fn lemma_step(p: int)
    requires
        0 <= p < INFINITE,
    ensures
        magnitude(p + 1) == magnitude(p) + pow2(exponent(p)),
        magnitude(p) < magnitude(p + 1),
{
    lemma_split(p);
    let q = mantissa(p);
    let k = exponent(p);
    lemma_magnitude_at(q, k);
    lemma_magnitude_at(q + 1, k);
    lemma_pow2_pos(k);
    assert((q + 1) * pow2(k) == q * pow2(k) + pow2(k)) by (nonlinear_arith);
}

/// A larger pattern stands for a larger magnitude.
pub proof fn lemma_magnitude_increases(a: int, b: int)
    requires
        0 <= a < b <= INFINITE,
    ensures
        magnitude(a) < magnitude(b),
    decreases b - a,
{
    lemma_step(a);
    if a + 1 < b {
        lemma_magnitude_increases(a + 1, b);
    }
}

/// At most one pattern is nearest to a number.
pub proof fn lemma_nearest_unique(p: int, r: int, n: nat, d: nat)
    requires
        d > 0,
        is_nearest(p, n, d),
        is_nearest(r, n, d),
    ensures
        p == r,
{
    lemma_nearest_order(p, r, n, d);
    lemma_nearest_order(r, p, n, d);
}

proof fn lemma_nearest_order(p: int, r: int, n: nat, d: nat)
    requires
        d > 0,
        is_nearest(p, n, d),
        is_nearest(r, n, d),
    ensures
        r <= p,
{
    if p < r {
        let a = magnitude(p) + magnitude(p + 1);
        let b = magnitude(r - 1) + magnitude(r);
        if p + 1 < r {
            lemma_magnitude_increases(p + 1, r);
            lemma_magnitude_increases(p, r - 1);
            assert(a * d < b * d) by (nonlinear_arith)
                requires
                    a < b,
                    d > 0,
            ;
        }
    }
}

/// Offset that keeps every exponent of the rounding step a natural number.
const OFFSET: u32 = 1200;

/// Whether `n / d` lies in the step `[sig, sig + 1) * 2^(t - OFFSET)`, and
/// whether it is inexact there.
spec fn in_step(sig: int, t: nat, sticky: bool, n: nat, d: nat) -> bool {
    let lo = sig * pow2(t) * d;
    let hi = (sig + 1) * pow2(t) * d;
    let x = n * pow2(OFFSET as nat);
    &&& lo <= x < hi
    &&& sticky == (lo != x)
}

fn power_of_two(e: u32) -> (r: u128)
    requires
        e <= 127,
    ensures
        r == pow2(e as nat),
        r > 0,
{
    let mut r: u128 = 1;
    let mut i: u32 = 0;
    proof {
        vstd::arithmetic::power2::lemma2_to64();
        vstd::arithmetic::power2::lemma2_to64_rest();
        lemma_pow2_adds(63, 64);
    }
    while i < e
        invariant
            i <= e <= 127,
            r == pow2(i as nat),
            r > 0,
            pow2(127) == 0x8000_0000_0000_0000_0000_0000_0000_0000,
        decreases e - i,
    {
        proof {
            lemma_pow2_unfold((i + 1) as nat);
            if i + 1 < 127 {
                lemma_pow2_strictly_increases((i + 1) as nat, 127);
            }
        }
        r = r * 2;
        i = i + 1;
    }
    r
}

/// How many binary digits a positive integer has.
fn bit_length(v: u128) -> (l: u32)
    requires
        0 < v < 0x8000_0000_0000_0000_0000_0000_0000_0000,
    ensures
        1 <= l <= 127,
        pow2((l - 1) as nat) <= v < pow2(l as nat),
{
    let mut l: u32 = 1;
    proof {
        vstd::arithmetic::power2::lemma2_to64();
        vstd::arithmetic::power2::lemma2_to64_rest();
        lemma_pow2_adds(63, 64);
    }
    let mut top: u128 = 2;
    while l < 127 && top <= v
        invariant
            1 <= l <= 127,
            top == pow2(l as nat),
            pow2((l - 1) as nat) <= v < pow2(127),
            pow2(127) == 0x8000_0000_0000_0000_0000_0000_0000_0000,
        decreases 127 - l,
    {
        proof {
            lemma_pow2_unfold((l + 1) as nat);
        }
        top = top * 2;
        l = l + 1;
    }
    l
}

/// The closing step of every rounding: from the truncated mantissa and which
/// side of the half step the value falls on, to the nearest pattern.
proof fn lemma_round(q: int, k: nat, up: bool, n: nat, d: nat)
    requires
        d > 0,
        0 <= q < 2 * HIDDEN,
        k == 0 || q >= HIDDEN,
        k * HIDDEN + q + 1 <= INFINITE,
        q * pow2(k) * d <= n < (q + 1) * pow2(k) * d,
        up ==> (2 * q + 1) * pow2(k) * d <= 2 * n,
        up && (2 * q + 1) * pow2(k) * d == 2 * n ==> q % 2 == 1,
        !up ==> 2 * n <= (2 * q + 1) * pow2(k) * d,
        !up && 2 * n == (2 * q + 1) * pow2(k) * d ==> q % 2 == 0,
    ensures
        is_nearest(k * HIDDEN + q + (if up { 1int } else { 0 }), n, d),
{
    let p = k * HIDDEN + q;
    let w = pow2(k);
    lemma_magnitude_at(q, k);
    lemma_magnitude_at(q + 1, k);
    assert(p % 2 == q % 2);
    assert(q * w + (q + 1) * w == (2 * q + 1) * w) by (nonlinear_arith);
    if up {
        if p + 1 < INFINITE {
            lemma_magnitude_increases(p + 1, p + 2);
            let a = magnitude(p + 1);
            let b = magnitude(p + 2);
            assert(2 * (a * d) < (a + b) * d) by (nonlinear_arith)
                requires
                    a < b,
                    d > 0,
            ;
        }
    } else {
        if p > 0 {
            lemma_magnitude_increases(p - 1, p);
            let a = magnitude(p - 1);
            let b = magnitude(p);
            assert((a + b) * d < 2 * (b * d)) by (nonlinear_arith)
                requires
                    a < b,
                    d > 0,
            ;
        }
    }
}

proof fn lemma_cancel(a: int, b: int, o: int)
    requires
        o > 0,
    ensures
        a * o <= b * o <==> a <= b,
        a * o < b * o <==> a < b,
        a * o == b * o <==> a == b,
{
    assert(a <= b ==> a * o <= b * o) by (nonlinear_arith)
        requires
            o > 0,
    ;
    assert(a < b ==> a * o < b * o) by (nonlinear_arith)
        requires
            o > 0,
    ;
    assert(b < a ==> b * o < a * o) by (nonlinear_arith)
        requires
            o > 0,
    ;
}

proof fn lemma_regroup(c: int, p: int, d: int, w: int, t: int, o: int)
    by (nonlinear_arith)
    requires
        w * t == (p * d) * o,
    ensures
        c * p * d == c * (p * d),
        (c * w) * t == (c * (p * d)) * o,
{
}

/// Truncating `sig` at `2^s` places `n / d` against the coarser step's floor,
/// half and ceiling.
proof fn lemma_truncated(
    sig: int,
    sticky: bool,
    t: nat,
    q: int,
    rem: int,
    s: nat,
    k: nat,
    n: nat,
    d: nat,
)
    requires
        d > 0,
        in_step(sig, t, sticky, n, d),
        s + t == k + OFFSET,
        s > 0,
        sig == q * pow2(s) + rem,
        0 <= rem < pow2(s),
    ensures
        q * pow2(k) * d <= n < (q + 1) * pow2(k) * d,
        2 * rem > pow2(s) ==> (2 * q + 1) * pow2(k) * d < 2 * n,
        2 * rem < pow2(s) ==> 2 * n < (2 * q + 1) * pow2(k) * d,
        2 * rem == pow2(s) && sticky ==> (2 * q + 1) * pow2(k) * d < 2 * n,
        2 * rem == pow2(s) && !sticky ==> (2 * q + 1) * pow2(k) * d == 2 * n,
{
    let w = pow2(s) as int;
    let tt = (pow2(t) * d) as int;
    let o = pow2(OFFSET as nat) as int;
    let y = (pow2(k) * d) as int;
    let x = n * o;
    lemma_pow2_pos(t);
    lemma_pow2_pos(s);
    lemma_pow2_pos(k);
    lemma_pow2_pos(OFFSET as nat);
    lemma_pow2_adds(s, t);
    lemma_pow2_adds(k, OFFSET as nat);
    lemma_pow2_unfold(s);
    let half = pow2((s - 1) as nat) as int;
    assert(w == 2 * half);
    assert(tt > 0) by (nonlinear_arith)
        requires
            tt == pow2(t) * d,
            pow2(t) > 0,
            d > 0,
    ;
    assert(w * tt == y * o) by (nonlinear_arith)
        requires
            w == pow2(s),
            tt == pow2(t) * d,
            y == pow2(k) * d,
            o == pow2(OFFSET as nat),
            pow2(s) * pow2(t) == pow2(k) * pow2(OFFSET as nat),
    ;
    assert(sig * pow2(t) * d == sig * tt) by (nonlinear_arith)
        requires
            tt == pow2(t) * d,
    ;
    assert((sig + 1) * pow2(t) * d == (sig + 1) * tt) by (nonlinear_arith)
        requires
            tt == pow2(t) * d,
    ;
    lemma_regroup(q, pow2(k) as int, d as int, w, tt, o);
    lemma_regroup(q + 1, pow2(k) as int, d as int, w, tt, o);
    lemma_regroup(2 * q + 1, pow2(k) as int, d as int, w, tt, o);
    lemma_cancel(q * w, sig, tt);
    lemma_cancel(q * y, n as int, o);
    assert((q + 1) * w == q * w + w) by (nonlinear_arith);
    lemma_cancel(sig + 1, (q + 1) * w, tt);
    lemma_cancel(n as int, (q + 1) * y, o);
    assert((2 * q + 1) * w == 2 * (q * w) + w) by (nonlinear_arith);
    lemma_cancel((2 * q + 1) * w, 2 * sig, tt);
    lemma_cancel(2 * sig + 2, (2 * q + 1) * w, tt);
    lemma_cancel((2 * q + 1) * y, 2 * (n as int), o);
    lemma_cancel(2 * (n as int), (2 * q + 1) * y, o);
    assert((2 * sig) * tt == 2 * (sig * tt)) by (nonlinear_arith);
    assert((2 * sig + 2) * tt == 2 * ((sig + 1) * tt)) by (nonlinear_arith);
    assert((2 * (n as int)) * o == 2 * x) by (nonlinear_arith)
        requires
            x == n * o,
    ;
}

/// The pattern nearest to the number a step encloses.
#[verifier::rlimit(40)]
fn round(sig: u128, exp: i32, sticky: bool, Ghost(n): Ghost<nat>, Ghost(d): Ghost<nat>) -> (p: u64)
    requires
        d > 0,
        0 < sig < 0x8000_0000_0000_0000_0000_0000_0000_0000,
        -(OFFSET as int) <= exp <= 4000,
        sticky ==> sig >= 0x80_0000_0000_0000,
        in_step(sig as int, (exp + OFFSET) as nat, sticky, n, d),
    ensures
        is_nearest(p as int, n, d),
        p == nearest(n, d),
        p <= INFINITE,
{
    let l: u32 = bit_length(sig);
    let raised: i32 = l as i32 + exp - 53;
    let k: i32 = if raised > 0 { raised } else { 0 };
    let ghost t = (exp + OFFSET) as nat;
    proof {
        vstd::arithmetic::power2::lemma2_to64();
        vstd::arithmetic::power2::lemma2_to64_rest();
        lemma_pow2_pos(t);
        lemma_pow2_pos(OFFSET as nat);
        if l < 55 {
            lemma_pow2_strictly_increases(l as nat, 55);
        }
        assert(sticky ==> l > 55);
    }
    if k >= 2046 {
        proof {
            lemma_overflow(sig as int, l as nat, sticky, t, n, d);
            lemma_nearest_unique(INFINITE as int, nearest(n, d), n, d);
        }
        return INFINITE;
    }
    let s: i32 = k - exp;
    let q: u64;
    let up: bool;
    if s <= 0 {
        let sh: u32 = (-s) as u32;
        let w: u128 = power_of_two(sh);
        proof {
            lemma_exact(sig as int, l as nat, sh as nat, t, k as nat, n, d);
        }
        q = (sig * w) as u64;
        up = false;
    } else if s >= 128 {
        proof {
            lemma_pow2_strictly_increases(127, s as nat);
            lemma_pow2_adds(63, 64);
            lemma_pow2_unfold(s as nat);
            if 127 < s - 1 {
                lemma_pow2_strictly_increases(127, (s - 1) as nat);
            }
            lemma_truncated(sig as int, sticky, t, 0, sig as int, s as nat, k as nat, n, d);
        }
        q = 0;
        up = false;
    } else {
        let w: u128 = power_of_two(s as u32);
        let wide: u128 = sig / w;
        let rem: u128 = sig % w;
        proof {
            lemma_pow2_unfold(s as nat);
            assert(sig == wide * w + rem) by (nonlinear_arith)
                requires
                    wide == sig / w,
                    rem == sig % w,
                    w > 0,
            ;
            lemma_truncated(
                sig as int,
                sticky,
                t,
                wide as int,
                rem as int,
                s as nat,
                k as nat,
                n,
                d,
            );
            lemma_width(sig as int, l as nat, s as nat, k as int, wide as int, rem as int);
        }
        let half: u128 = w / 2;
        q = wide as u64;
        up = rem > half || (rem == half && (sticky || wide % 2 == 1));
    }
    proof {
        lemma_round(q as int, k as nat, up, n, d);
    }
    let p: u64 = k as u64 * HIDDEN + q + if up { 1 } else { 0 };
    proof {
        lemma_nearest_unique(p as int, nearest(n, d), n, d);
    }
    p
}

/// A value of at least `2^2098` units rounds to infinity.
proof fn lemma_overflow(sig: int, l: nat, sticky: bool, t: nat, n: nat, d: nat)
    requires
        d > 0,
        in_step(sig, t, sticky, n, d),
        l >= 1,
        pow2((l - 1) as nat) <= sig,
        l + t >= 2046 + 53 + OFFSET,
    ensures
        is_nearest(INFINITE as int, n, d),
{
    let o = pow2(OFFSET as nat) as int;
    let m = pow2(2098) as int;
    lemma_pow2_pos(t);
    lemma_pow2_pos(OFFSET as nat);
    lemma_pow2_adds((l - 1) as nat, t);
    lemma_pow2_adds(2098, OFFSET as nat);
    if (2098 + OFFSET) < l - 1 + t {
        lemma_pow2_strictly_increases((2098 + OFFSET) as nat, (l - 1 + t) as nat);
    }
    assert(m * o <= sig * pow2(t)) by (nonlinear_arith)
        requires
            m * o <= pow2((l - 1) as nat) * pow2(t),
            pow2((l - 1) as nat) <= sig,
            pow2(t) > 0,
    ;
    assert((m * d) * o <= sig * pow2(t) * d) by (nonlinear_arith)
        requires
            m * o <= sig * pow2(t),
            d > 0,
    ;
    lemma_cancel(m * d, n as int, o);
    assert(m * d <= n);
    lemma_pow2_adds(52, 2046);
    vstd::arithmetic::power2::lemma2_to64_rest();
    lemma_magnitude_at(HIDDEN as int, 2046);
    assert(magnitude(INFINITE as int) == m);
    lemma_magnitude_increases(INFINITE - 1, INFINITE as int);
    let a = magnitude(INFINITE - 1);
    assert((a + m) * d < 2 * (m * d)) by (nonlinear_arith)
        requires
            a < m,
            d > 0,
    ;
}

/// A step at or above the target precision is exact there.
proof fn lemma_exact(sig: int, l: nat, sh: nat, t: nat, k: nat, n: nat, d: nat)
    requires
        d > 0,
        in_step(sig, t, false, n, d),
        1 <= l <= 53,
        pow2((l - 1) as nat) <= sig < pow2(l),
        t == k + OFFSET + sh,
        l + sh <= 53,
        k > 0 ==> l + sh == 53,
    ensures
        sig * pow2(sh) < 2 * HIDDEN,
        k > 0 ==> sig * pow2(sh) >= HIDDEN,
        (sig * pow2(sh)) * pow2(k) * d <= n < (sig * pow2(sh) + 1) * pow2(k) * d,
        2 * n < (2 * (sig * pow2(sh)) + 1) * pow2(k) * d,
{
    let o = pow2(OFFSET as nat) as int;
    let q = sig * pow2(sh);
    let y = (pow2(k) * d) as int;
    lemma_pow2_pos(sh);
    lemma_pow2_pos(k);
    lemma_pow2_pos(OFFSET as nat);
    lemma_pow2_adds(l, sh);
    lemma_pow2_adds((l - 1) as nat, sh);
    lemma_pow2_adds(sh, (k + OFFSET) as nat);
    lemma_pow2_adds(k, OFFSET as nat);
    vstd::arithmetic::power2::lemma2_to64_rest();
    assert(q < pow2(l + sh)) by (nonlinear_arith)
        requires
            q == sig * pow2(sh),
            sig < pow2(l),
            pow2(l + sh) == pow2(l) * pow2(sh),
            pow2(sh) > 0,
    ;
    assert(q >= pow2((l - 1 + sh) as nat)) by (nonlinear_arith)
        requires
            q == sig * pow2(sh),
            sig >= pow2((l - 1) as nat),
            pow2((l - 1 + sh) as nat) == pow2((l - 1) as nat) * pow2(sh),
            pow2(sh) > 0,
    ;
    if l + sh < 53 {
        lemma_pow2_strictly_increases(l + sh, 53);
    }
    assert((q * y) * o == sig * pow2(t) * d) by (nonlinear_arith)
        requires
            q == sig * pow2(sh),
            y == pow2(k) * d,
            o == pow2(OFFSET as nat),
            pow2(t) == pow2(sh) * (pow2(k) * pow2(OFFSET as nat)),
    ;
    lemma_cancel(q * y, n as int, o);
    assert(q * y == n);
    assert(y > 0) by (nonlinear_arith)
        requires
            y == pow2(k) * d,
            pow2(k) > 0,
            d > 0,
    ;
    assert(q * pow2(k) * d == q * y && (q + 1) * pow2(k) * d == q * y + y && (2 * q + 1) * pow2(k)
        * d == 2 * (q * y) + y) by (nonlinear_arith)
        requires
            y == pow2(k) * d,
    ;
}

/// The truncated mantissa has the width its exponent calls for.
proof fn lemma_width(sig: int, l: nat, s: nat, k: int, q: int, rem: int)
    requires
        1 <= l,
        pow2((l - 1) as nat) <= sig < pow2(l),
        s > 0,
        sig == q * pow2(s) + rem,
        0 <= rem < pow2(s),
        q >= 0,
        k > 0 ==> l == s + 53,
        l <= s + 53,
    ensures
        q < 2 * HIDDEN,
        k > 0 ==> q >= HIDDEN,
{
    lemma_pow2_pos(s);
    vstd::arithmetic::power2::lemma2_to64_rest();
    lemma_pow2_adds(53, s);
    if l < s + 53 {
        lemma_pow2_strictly_increases(l, s + 53);
    }
    assert(q < pow2(53)) by (nonlinear_arith)
        requires
            q * pow2(s) <= sig,
            sig < pow2(53) * pow2(s),
            pow2(s) > 0,
    ;
    if k > 0 {
        lemma_pow2_adds(52, s);
        assert(q >= pow2(52)) by (nonlinear_arith)
            requires
                q * pow2(s) + rem == sig,
                rem < pow2(s),
                sig >= pow2(52) * pow2(s),
                pow2(s) > 0,
        ;
    }
}

impl Number {
    /// The low 63 bits: everything but the sign.
    pub open spec fn pattern(self) -> int {
        if self.bits >= SIGN { self.bits - SIGN } else { self.bits as int }
    }

    pub open spec fn negative(self) -> bool {
        self.bits >= SIGN
    }

    pub open spec fn is_nan_spec(self) -> bool {
        self.pattern() > INFINITE
    }

    pub open spec fn finite(self) -> bool {
        self.pattern() < INFINITE
    }

    /// The number in units of the smallest subnormal. An infinity reads as the
    /// power of two just past the largest finite magnitude, which orders it
    /// correctly against every finite number.
    pub open spec fn value(self) -> int {
        if self.negative() { -magnitude(self.pattern()) } else { magnitude(self.pattern()) as int }
    }

    /// `self < other`; false as soon as either is not a number.
    pub open spec fn lt(self, other: Number) -> bool {
        !self.is_nan_spec() && !other.is_nan_spec() && self.value() < other.value()
    }

    /// `self <= other`; false as soon as either is not a number.
    pub open spec fn le(self, other: Number) -> bool {
        !self.is_nan_spec() && !other.is_nan_spec() && self.value() <= other.value()
    }

    pub open spec fn plus_spec(self, other: Number) -> Number {
        if self.is_nan_spec() || other.is_nan_spec() {
            Number { bits: QUIET_NAN }
        } else if !self.finite() {
            if !other.finite() && self.negative() != other.negative() {
                Number { bits: QUIET_NAN }
            } else {
                self
            }
        } else if !other.finite() {
            other
        } else {
            let sum = self.value() + other.value();
            if sum == 0 {
                signed(self.negative() && other.negative(), 0)
            } else if sum < 0 {
                signed(true, nearest((-sum) as nat, 1))
            } else {
                signed(false, nearest(sum as nat, 1))
            }
        }
    }

    pub open spec fn negated_spec(self) -> Number {
        signed(!self.negative(), self.pattern())
    }

    pub open spec fn magnitude_spec(self) -> Number {
        signed(false, self.pattern())
    }

    pub open spec fn times_spec(self, other: Number) -> Number {
        let sign = self.negative() != other.negative();
        if self.is_nan_spec() || other.is_nan_spec() {
            Number { bits: QUIET_NAN }
        } else if !self.finite() || !other.finite() {
            if self.pattern() == 0 || other.pattern() == 0 {
                Number { bits: QUIET_NAN }
            } else {
                signed(sign, INFINITE as int)
            }
        } else if self.pattern() == 0 || other.pattern() == 0 {
            signed(sign, 0)
        } else {
            signed(
                sign,
                nearest(magnitude(self.pattern()) * magnitude(other.pattern()), pow2(1074)),
            )
        }
    }

    pub open spec fn over_spec(self, other: Number) -> Number {
        let sign = self.negative() != other.negative();
        if self.is_nan_spec() || other.is_nan_spec() {
            Number { bits: QUIET_NAN }
        } else if !self.finite() {
            if !other.finite() { Number { bits: QUIET_NAN } } else { signed(sign, INFINITE as int) }
        } else if !other.finite() {
            signed(sign, 0)
        } else if other.pattern() == 0 {
            if self.pattern() == 0 { Number { bits: QUIET_NAN } } else { signed(
                sign,
                INFINITE as int,
            ) }
        } else if self.pattern() == 0 {
            signed(sign, 0)
        } else {
            signed(
                sign,
                nearest(magnitude(self.pattern()) * pow2(1074), magnitude(other.pattern())),
            )
        }
    }

    /// The number nearest to an integer.
    pub open spec fn of_spec(v: int) -> Number {
        if v == 0 {
            Number { bits: 0 }
        } else if v < 0 {
            signed(true, nearest(((-v) * pow2(1074)) as nat, 1))
        } else {
            signed(false, nearest((v * pow2(1074)) as nat, 1))
        }
    }

    fn split(self) -> (r: (bool, u64))
        ensures
            r.0 == self.negative(),
            r.1 == self.pattern(),
            r.1 < SIGN,
    {
        if self.bits >= SIGN { (true, self.bits - SIGN) } else { (false, self.bits) }
    }

    fn join(negative: bool, p: u64) -> (r: Number)
        requires
            p < SIGN,
        ensures
            r == signed(negative, p as int),
            r.negative() == negative,
            r.pattern() == p,
    {
        if negative { Number { bits: p + SIGN } } else { Number { bits: p } }
    }

    pub fn is_nan(self) -> (r: bool)
        ensures
            r == self.is_nan_spec(),
    {
        let (_, p) = self.split();
        p > INFINITE
    }

    /// Whether the number is either zero.
    pub fn is_zero(self) -> (r: bool)
        ensures
            r == (self.pattern() == 0),
    {
        let (_, p) = self.split();
        p == 0
    }

    pub fn is_finite(self) -> (r: bool)
        ensures
            r == self.finite(),
    {
        let (_, p) = self.split();
        p < INFINITE
    }

    /// Numeric `<`.
    pub fn less(self, other: Number) -> (r: bool)
        ensures
            r == self.lt(other),
    {
        let (an, ap) = self.split();
        let (bn, bp) = other.split();
        if ap > INFINITE || bp > INFINITE {
            return false;
        }
        proof {
            lemma_pattern_order(ap as int, bp as int);
            lemma_pattern_order(ap as int, 0);
            lemma_pattern_order(bp as int, 0);
        }
        if an {
            if bn { bp < ap } else { ap > 0 || bp > 0 }
        } else {
            if bn { false } else { ap < bp }
        }
    }

    /// Numeric `<=`.
    pub fn at_most(self, other: Number) -> (r: bool)
        ensures
            r == self.le(other),
    {
        if self.is_nan() || other.is_nan() { false } else { !other.less(self) }
    }

    pub fn negated(self) -> (r: Number)
        ensures
            r == self.negated_spec(),
    {
        let (n, p) = self.split();
        Number::join(!n, p)
    }

    /// The absolute value.
    pub fn absolute(self) -> (r: Number)
        ensures
            r == self.magnitude_spec(),
    {
        let (_, p) = self.split();
        Number::join(false, p)
    }
}

proof fn lemma_pattern_order(a: int, b: int)
    requires
        0 <= a <= INFINITE,
        0 <= b <= INFINITE,
    ensures
        a < b <==> magnitude(a) < magnitude(b),
        a == b <==> magnitude(a) == magnitude(b),
        magnitude(0) == 0,
{
    if a < b {
        lemma_magnitude_increases(a, b);
    } else if b < a {
        lemma_magnitude_increases(b, a);
    }
}

/// The mantissa and exponent of a pattern.
fn parts(p: u64) -> (r: (u64, u32))
    requires
        p <= INFINITE,
    ensures
        r.0 == mantissa(p as int),
        r.1 == exponent(p as int),
        magnitude(p as int) == r.0 * pow2(r.1 as nat),
        r.0 < 2 * HIDDEN,
        r.1 <= 2046,
        r.1 > 0 ==> r.0 >= HIDDEN,
        p > 0 ==> r.0 > 0,
{
    proof {
        lemma_split(p as int);
    }
    if p < HIDDEN { (p, 0) } else { (HIDDEN + p % HIDDEN, (p / HIDDEN - 1) as u32) }
}

/// A positive pattern with its mantissa brought to full width, and its exponent
/// raised by 52 so that it stays a natural number.
fn normalised(p: u64) -> (r: (u64, u32))
    requires
        0 < p < INFINITE,
    ensures
        HIDDEN <= r.0 < 2 * HIDDEN,
        r.1 <= 2098,
        magnitude(p as int) * pow2(52) == r.0 * pow2(r.1 as nat),
{
    let (m0, e0) = parts(p);
    let mut m: u64 = m0;
    let mut e: u32 = e0 + 52;
    proof {
        lemma_pow2_adds(e0 as nat, 52);
        assert(
            (m0 * pow2(e0 as nat)) * pow2(52) == m0 * pow2((e0 + 52) as nat)
        ) by (nonlinear_arith)
            requires
                pow2((e0 + 52) as nat) == pow2(e0 as nat) * pow2(52),
        ;
        vstd::arithmetic::power2::lemma2_to64();
        vstd::arithmetic::power2::lemma2_to64_rest();
        assert(m0 * pow2(0) == m0);
    }
    let mut j: u32 = 0;
    while m < HIDDEN
        invariant
            0 < m < 2 * HIDDEN,
            e <= 2098,
            j <= 52,
            m >= pow2(j as nat),
            m < HIDDEN ==> e == 52 - j,
            pow2(52) == HIDDEN,
            magnitude(p as int) * pow2(52) == m * pow2(e as nat),
        decreases 2 * HIDDEN - m,
    {
        proof {
            lemma_pow2_unfold(e as nat);
            lemma_pow2_unfold((j + 1) as nat);
            assert(m * pow2(e as nat) == (2 * m) * pow2((e - 1) as nat)) by (nonlinear_arith)
                requires
                    pow2(e as nat) == 2 * pow2((e - 1) as nat),
            ;
        }
        m = m * 2;
        e = e - 1;
        j = j + 1;
    }
    (m, e)
}

impl Number {
    /// The number nearest to an integer, ties to even.
    pub fn of(v: i128) -> (r: Number)
        requires
            -0x7fff_ffff_ffff_ffff_ffff_ffff_ffff_ffff <= v,
        ensures
            r == Number::of_spec(v as int),
    {
        if v == 0 {
            return Number { bits: 0 };
        }
        let size: u128 = if v < 0 { (-v) as u128 } else { v as u128 };
        let ghost n = (size * pow2(1074)) as nat;
        proof {
            lemma_pow2_pos(1074);
            lemma_pow2_adds(1074, OFFSET as nat);
            let x = n * pow2(OFFSET as nat);
            let w = pow2(2274);
            lemma_pow2_pos(2274);
            assert(n >= 0 && n == size * pow2(1074)) by (nonlinear_arith)
                requires
                    size > 0,
                    pow2(1074) > 0,
                    n == (size * pow2(1074)) as nat,
            ;
            assert(x == size * w) by (nonlinear_arith)
                requires
                    n == size * pow2(1074),
                    w == pow2(1074) * pow2(OFFSET as nat),
                    x == n * pow2(OFFSET as nat),
            ;
            assert((size + 1) * w == size * w + w) by (nonlinear_arith);
            assert(in_step(size as int, 2274, false, n, 1));
        }
        let p: u64 = round(size, 1074, false, Ghost(n), Ghost(1));
        Number::join(v < 0, p)
    }

    /// Multiplication.
    pub fn times(self, other: Number) -> (r: Number)
        ensures
            r == self.times_spec(other),
    {
        let (an, ap) = self.split();
        let (bn, bp) = other.split();
        let sign: bool = an != bn;
        if ap > INFINITE || bp > INFINITE {
            return Number { bits: QUIET_NAN };
        }
        if ap == INFINITE || bp == INFINITE {
            if ap == 0 || bp == 0 {
                return Number { bits: QUIET_NAN };
            }
            return Number::join(sign, INFINITE);
        }
        if ap == 0 || bp == 0 {
            return Number::join(sign, 0);
        }
        let (am, ae) = parts(ap);
        let (bm, be) = parts(bp);
        assert(0 < am * bm < 0x8000_0000_0000_0000_0000_0000_0000_0000) by (nonlinear_arith)
            requires
                0 < am < 0x20_0000_0000_0000,
                0 < bm < 0x20_0000_0000_0000,
        ;
        let sig: u128 = am as u128 * bm as u128;
        let exp: i32 = ae as i32 + be as i32 - 1074;
        let ghost n = magnitude(ap as int) * magnitude(bp as int);
        proof {
            let d = pow2(1074);
            let t = (exp + OFFSET) as nat;
            let x = n * pow2(OFFSET as nat);
            lemma_pow2_pos(1074);
            lemma_pow2_pos(t);
            lemma_pow2_adds(ae as nat, be as nat);
            lemma_pow2_adds((ae + be) as nat, OFFSET as nat);
            lemma_pow2_adds(t, 1074);
            assert(sig * pow2(t) * d == x) by (nonlinear_arith)
                requires
                    sig == am * bm,
                    n == (am * pow2(ae as nat)) * (bm * pow2(be as nat)),
                    x == n * pow2(OFFSET as nat),
                    pow2(t) * d == (pow2(ae as nat) * pow2(be as nat)) * pow2(OFFSET as nat),
            ;
            let w = pow2(t) * d;
            assert(w > 0) by (nonlinear_arith)
                requires
                    w == pow2(t) * d,
                    pow2(t) > 0,
                    d > 0,
            ;
            assert((sig + 1) * pow2(t) * d == sig * pow2(t) * d + w) by (nonlinear_arith)
                requires
                    w == pow2(t) * d,
            ;
            assert(in_step(sig as int, t, false, n, d));
        }
        let p: u64 = round(sig, exp, false, Ghost(n), Ghost(pow2(1074)));
        Number::join(sign, p)
    }

    /// Division.
    pub fn over(self, other: Number) -> (r: Number)
        ensures
            r == self.over_spec(other),
    {
        let (an, ap) = self.split();
        let (bn, bp) = other.split();
        let sign: bool = an != bn;
        if ap > INFINITE || bp > INFINITE {
            return Number { bits: QUIET_NAN };
        }
        if ap == INFINITE {
            if bp == INFINITE {
                return Number { bits: QUIET_NAN };
            }
            return Number::join(sign, INFINITE);
        }
        if bp == INFINITE {
            return Number::join(sign, 0);
        }
        if bp == 0 {
            if ap == 0 {
                return Number { bits: QUIET_NAN };
            }
            return Number::join(sign, INFINITE);
        }
        if ap == 0 {
            return Number::join(sign, 0);
        }
        let (am, af) = normalised(ap);
        let (bm, bf) = normalised(bp);
        let top: u128 = am as u128 * 0x1_0000_0000_0000_0000;
        let sig: u128 = top / bm as u128;
        let rem: u128 = top % bm as u128;
        let exp: i32 = af as i32 - bf as i32 + 1074 - 64;
        let ghost n = magnitude(ap as int) * pow2(1074);
        let ghost d = magnitude(bp as int);
        proof {
            lemma_pattern_order(0, bp as int);
            assert(top == sig * bm + rem) by (nonlinear_arith)
                requires
                    sig == top / bm as u128,
                    rem == top % bm as u128,
                    bm > 0,
            ;
            assert(0x4000_0000_0000_0000 <= sig < 0x8_0000_0000_0000_0000) by (nonlinear_arith)
                requires
                    top == sig * bm + rem,
                    rem < bm,
                    top == am * 0x1_0000_0000_0000_0000,
                    0x10_0000_0000_0000 <= am < 0x20_0000_0000_0000,
                    0x10_0000_0000_0000 <= bm < 0x20_0000_0000_0000,
                    sig >= 0,
            ;
            lemma_quotient_step(
                sig as int,
                rem as int,
                am as int,
                af as nat,
                bm as int,
                bf as nat,
                magnitude(ap as int),
                d,
                (exp + OFFSET) as nat,
            );
        }
        let p: u64 = round(sig, exp, rem != 0, Ghost(n), Ghost(d));
        Number::join(sign, p)
    }
}

proof fn lemma_quotient_step(
    sig: int,
    rem: int,
    am: int,
    af: nat,
    bm: int,
    bf: nat,
    a: nat,
    d: nat,
    t: nat,
)
    requires
        d > 0,
        am * 0x1_0000_0000_0000_0000 == sig * bm + rem,
        0 <= rem < bm,
        a * pow2(52) == am * pow2(af),
        d * pow2(52) == bm * pow2(bf),
        t == af - bf + 1074 - 64 + OFFSET,
        t >= 0,
    ensures
        in_step(sig, t, rem != 0, a * pow2(1074), d),
{
    let h = pow2(52) as int;
    let n = a * pow2(1074);
    let x = (n * pow2(OFFSET as nat)) as int;
    let g = pow2((af + 1074 + OFFSET - 64) as nat) as int;
    lemma_pow2_pos(52);
    lemma_pow2_pos((af + 1074 + OFFSET - 64) as nat);
    vstd::arithmetic::power2::lemma2_to64();
    lemma_pow2_adds(1074, OFFSET as nat);
    lemma_pow2_adds(af, (1074 + OFFSET) as nat);
    lemma_pow2_adds(64, (af + 1074 + OFFSET - 64) as nat);
    lemma_pow2_adds(t, bf);
    // x * h == am * 2^64 * g, and every bound times h is the same multiple of g.
    assert(x * h == (am * 0x1_0000_0000_0000_0000) * g) by (nonlinear_arith)
        requires
            x == (a * pow2(1074)) * pow2(OFFSET as nat),
            a * h == am * pow2(af),
            pow2(af) * (pow2(1074) * pow2(OFFSET as nat)) == 0x1_0000_0000_0000_0000 * g,
    ;
    lemma_scaled_bound(sig, t, d as int, h, bm, bf, g);
    lemma_scaled_bound(sig + 1, t, d as int, h, bm, bf, g);
    assert((sig + 1) * bm == sig * bm + bm) by (nonlinear_arith);
    let lo = sig * pow2(t) * d;
    let hi = (sig + 1) * pow2(t) * d;
    lemma_cancel(sig * bm, am * 0x1_0000_0000_0000_0000, g);
    lemma_cancel(am * 0x1_0000_0000_0000_0000, (sig + 1) * bm, g);
    lemma_cancel(lo, x, h);
    lemma_cancel(x, hi, h);
}

proof fn lemma_scaled_bound(c: int, t: nat, d: int, h: int, bm: int, bf: nat, g: int)
    by (nonlinear_arith)
    requires
        d * h == bm * pow2(bf),
        pow2(t) * pow2(bf) == g,
    ensures
        (c * pow2(t) * d) * h == (c * bm) * g,
{
}

/// The nearest pattern to a sum of two magnitudes, the first pattern the larger.
fn round_sum(ap: u64, bp: u64) -> (p: u64)
    requires
        bp <= ap < INFINITE,
        ap > 0,
    ensures
        p == nearest(magnitude(ap as int) + magnitude(bp as int), 1),
        p <= INFINITE,
{
    let (am, ae) = parts(ap);
    let (bm, be) = parts(bp);
    let ghost n = magnitude(ap as int) + magnitude(bp as int);
    proof {
        lemma_exponents_ordered(bp as int, ap as int);
        vstd::arithmetic::power2::lemma2_to64();
        vstd::arithmetic::power2::lemma2_to64_rest();
    }
    let gap: u32 = ae - be;
    if gap <= 73 {
        let w: u128 = power_of_two(gap);
        proof {
            if gap < 73 {
                lemma_pow2_strictly_increases(gap as nat, 73);
            }
            lemma_pow2_adds(64, 9);
            assert(am * w < 0x20_0000_0000_0000 * 0x200_0000_0000_0000_0000) by (nonlinear_arith)
                requires
                    am < 0x20_0000_0000_0000,
                    0 < w <= 0x200_0000_0000_0000_0000,
            ;
            assert(am * w >= am) by (nonlinear_arith)
                requires
                    w >= 1,
            ;
        }
        let sig: u128 = am as u128 * w + bm as u128;
        proof {
            lemma_pow2_adds(gap as nat, be as nat);
            assert(n == sig * pow2(be as nat)) by (nonlinear_arith)
                requires
                    n == am * pow2(ae as nat) + bm * pow2(be as nat),
                    sig == am * w + bm,
                    pow2(ae as nat) == w * pow2(be as nat),
            ;
            lemma_integral_step(sig as int, be as nat, n);
        }
        round(sig, be as i32, false, Ghost(n), Ghost(1))
    } else if bp == 0 {
        proof {
            assert(bm * pow2(be as nat) == 0) by (nonlinear_arith)
                requires
                    bm == 0,
            ;
            lemma_integral_step(am as int, ae as nat, n);
        }
        round(am as u128, ae as i32, false, Ghost(n), Ghost(1))
    } else {
        let sig: u128 = am as u128 * 0x20_0000;
        let exp: i32 = ae as i32 - 21;
        proof {
            lemma_far_term(bm as int, be as nat, ae as nat);
            let f = bm * pow2(be as nat);
            lemma_pow2_adds(21, (ae - 21) as nat);
            assert(am * pow2(ae as nat) == sig * pow2((ae - 21) as nat)) by (nonlinear_arith)
                requires
                    sig == am * 0x20_0000,
                    pow2(ae as nat) == 0x20_0000 * pow2((ae - 21) as nat),
            ;
            lemma_inexact_step(sig as int, (ae - 21) as nat, f, n);
        }
        round(sig, exp, true, Ghost(n), Ghost(1))
    }
}

/// The nearest pattern to a difference of two magnitudes, the first pattern the
/// strictly larger.
fn round_difference(ap: u64, bp: u64) -> (p: u64)
    requires
        bp < ap < INFINITE,
    ensures
        p == nearest((magnitude(ap as int) - magnitude(bp as int)) as nat, 1),
        p <= INFINITE,
{
    let (am, ae) = parts(ap);
    let (bm, be) = parts(bp);
    let ghost n = (magnitude(ap as int) - magnitude(bp as int)) as nat;
    proof {
        lemma_pattern_order(bp as int, ap as int);
        lemma_exponents_ordered(bp as int, ap as int);
        vstd::arithmetic::power2::lemma2_to64();
        vstd::arithmetic::power2::lemma2_to64_rest();
    }
    let gap: u32 = ae - be;
    if gap <= 73 {
        let w: u128 = power_of_two(gap);
        proof {
            if gap < 73 {
                lemma_pow2_strictly_increases(gap as nat, 73);
            }
            lemma_pow2_adds(64, 9);
            lemma_pow2_adds(gap as nat, be as nat);
            lemma_pow2_pos(be as nat);
            assert(am * w < 0x20_0000_0000_0000 * 0x200_0000_0000_0000_0000) by (nonlinear_arith)
                requires
                    am < 0x20_0000_0000_0000,
                    0 < w <= 0x200_0000_0000_0000_0000,
            ;
            let aw = am * w;
            assert(am * pow2(ae as nat) == aw * pow2(be as nat)) by (nonlinear_arith)
                requires
                    aw == am * w,
                    pow2(ae as nat) == w * pow2(be as nat),
            ;
            lemma_cancel(bm as int, aw as int, pow2(be as nat) as int);
        }
        let sig: u128 = am as u128 * w - bm as u128;
        proof {
            assert(n == sig * pow2(be as nat)) by (nonlinear_arith)
                requires
                    n == am * pow2(ae as nat) - bm * pow2(be as nat),
                    sig == am * w - bm,
                    pow2(ae as nat) == w * pow2(be as nat),
            ;
            lemma_integral_step(sig as int, be as nat, n);
        }
        round(sig, be as i32, false, Ghost(n), Ghost(1))
    } else if bp == 0 {
        proof {
            assert(bm * pow2(be as nat) == 0) by (nonlinear_arith)
                requires
                    bm == 0,
            ;
            lemma_integral_step(am as int, ae as nat, n);
        }
        round(am as u128, ae as i32, false, Ghost(n), Ghost(1))
    } else {
        let sig: u128 = am as u128 * 0x20_0000 - 1;
        let exp: i32 = ae as i32 - 21;
        proof {
            lemma_far_term(bm as int, be as nat, ae as nat);
            let u = pow2((ae - 21) as nat) as int;
            let f = u - bm * pow2(be as nat);
            lemma_pow2_adds(21, (ae - 21) as nat);
            assert(am * pow2(ae as nat) == (sig + 1) * u) by (nonlinear_arith)
                requires
                    sig == am * 0x20_0000 - 1,
                    pow2(ae as nat) == 0x20_0000 * u,
            ;
            assert((sig + 1) * u == sig * u + u) by (nonlinear_arith);
            lemma_inexact_step(sig as int, (ae - 21) as nat, f, n);
        }
        round(sig, exp, true, Ghost(n), Ghost(1))
    }
}

proof fn lemma_exponents_ordered(b: int, a: int)
    requires
        0 <= b <= a <= INFINITE,
    ensures
        exponent(b) <= exponent(a),
{
    if b >= HIDDEN {
        assert(b / (HIDDEN as int) <= a / (HIDDEN as int));
    }
}

/// A term 74 or more exponents down is less than the unit 21 below the larger.
proof fn lemma_far_term(bm: int, be: nat, ae: nat)
    requires
        0 < bm < 2 * HIDDEN,
        be + 74 <= ae,
    ensures
        0 < bm * pow2(be) < pow2((ae - 21) as nat),
{
    lemma_pow2_pos(be);
    lemma_pow2_adds(52, be);
    lemma_pow2_adds(53, be);
    vstd::arithmetic::power2::lemma2_to64_rest();
    assert(0 < bm * pow2(be) < pow2(53) * pow2(be)) by (nonlinear_arith)
        requires
            0 < bm < 0x20_0000_0000_0000,
            pow2(53) == 0x20_0000_0000_0000,
            pow2(be) > 0,
    ;
    if 53 + be < ae - 21 {
        lemma_pow2_strictly_increases((53 + be) as nat, (ae - 21) as nat);
    }
}

proof fn lemma_integral_step(sig: int, e: nat, n: nat)
    requires
        sig >= 0,
        n == sig * pow2(e),
    ensures
        in_step(sig, (e + OFFSET) as nat, false, n, 1),
{
    lemma_pow2_pos(e);
    lemma_pow2_pos((e + OFFSET) as nat);
    lemma_pow2_adds(e, OFFSET as nat);
    let w = pow2((e + OFFSET) as nat) as int;
    assert(n * pow2(OFFSET as nat) == sig * w) by (nonlinear_arith)
        requires
            n == sig * pow2(e),
            w == pow2(e) * pow2(OFFSET as nat),
    ;
    assert((sig + 1) * w == sig * w + w) by (nonlinear_arith);
}

proof fn lemma_inexact_step(sig: int, e: nat, f: int, n: nat)
    requires
        sig >= 0,
        0 < f < pow2(e),
        n == sig * pow2(e) + f,
    ensures
        in_step(sig, (e + OFFSET) as nat, true, n, 1),
{
    lemma_pow2_pos(OFFSET as nat);
    lemma_pow2_adds(e, OFFSET as nat);
    let o = pow2(OFFSET as nat) as int;
    let w = pow2((e + OFFSET) as nat) as int;
    assert(n * o == sig * w + f * o) by (nonlinear_arith)
        requires
            n == sig * pow2(e) + f,
            w == pow2(e) * o,
    ;
    assert((sig + 1) * w == sig * w + w) by (nonlinear_arith);
    lemma_cancel(f, pow2(e) as int, o);
    lemma_cancel(0, f, o);
}

impl Number {
    /// Addition.
    pub fn plus(self, other: Number) -> (r: Number)
        ensures
            r == self.plus_spec(other),
    {
        let (an, ap) = self.split();
        let (bn, bp) = other.split();
        if ap > INFINITE || bp > INFINITE {
            return Number { bits: QUIET_NAN };
        }
        if ap == INFINITE {
            if bp == INFINITE && an != bn {
                return Number { bits: QUIET_NAN };
            }
            return self;
        }
        if bp == INFINITE {
            return other;
        }
        proof {
            lemma_pattern_order(ap as int, bp as int);
            lemma_pattern_order(ap as int, 0);
            lemma_pattern_order(bp as int, 0);
        }
        if an == bn {
            if ap == 0 && bp == 0 {
                return Number::join(an, 0);
            }
            let p: u64 = if bp <= ap { round_sum(ap, bp) } else { round_sum(bp, ap) };
            Number::join(an, p)
        } else if ap == bp {
            Number::join(false, 0)
        } else if bp < ap {
            Number::join(an, round_difference(ap, bp))
        } else {
            Number::join(bn, round_difference(bp, ap))
        }
    }

    /// Subtraction: addition of the negated number.
    pub open spec fn minus_spec(self, other: Number) -> Number {
        self.plus_spec(other.negated_spec())
    }

    /// Subtraction.
    pub fn minus(self, other: Number) -> (r: Number)
        ensures
            r == self.minus_spec(other),
    {
        self.plus(other.negated())
    }
}

impl Number {
    /// The whole part of a magnitude that is at most `2^40`.
    pub fn whole(self) -> (r: u64)
        requires
            self.pattern() <= 0x4270_0000_0000_0000,
        ensures
            r == magnitude(self.pattern()) / pow2(1074),
            r <= 0x200_0000_0000,
    {
        let (_, p) = self.split();
        let (m, e) = parts(p);
        proof {
            lemma_exponents_ordered(p as int, 0x4270_0000_0000_0000);
            lemma_pow2_pos(1074);
        }
        let s: u32 = 1074 - e;
        proof {
            lemma_pow2_adds(s as nat, e as nat);
            lemma_pow2_pos(s as nat);
            lemma_pow2_pos(e as nat);
            vstd::arithmetic::div_mod::lemma_truncate_middle(
                m as int,
                pow2(s as nat) as int,
                pow2(e as nat) as int,
            );
            vstd::arithmetic::div_mod::lemma_div_denominator(
                (m * pow2(e as nat)) as int,
                pow2(e as nat) as int,
                pow2(s as nat) as int,
            );
            vstd::arithmetic::div_mod::lemma_div_multiples_vanish(m as int, pow2(e as nat) as int);
            assert(m * pow2(e as nat) == pow2(e as nat) * m) by (nonlinear_arith);
            assert(
                pow2(s as nat) * pow2(e as nat) == pow2(e as nat) * pow2(s as nat)
            ) by (nonlinear_arith);
            vstd::arithmetic::power2::lemma2_to64();
            vstd::arithmetic::power2::lemma2_to64_rest();
        }
        if s > 53 {
            proof {
                lemma_pow2_strictly_increases(53, s as nat);
                vstd::arithmetic::div_mod::lemma_basic_div(m as int, pow2(s as nat) as int);
            }
            return 0;
        }
        let w: u128 = power_of_two(s);
        proof {
            vstd::arithmetic::div_mod::lemma_fundamental_div_mod(m as int, w as int);
            let q = m as int / w as int;
            assert(s >= 12);
            if 12 < s {
                lemma_pow2_strictly_increases(12, s as nat);
            }
            assert(0 <= q <= 0x200_0000_0000) by (nonlinear_arith)
                requires
                    m == w * q + m as int % w as int,
                    0 <= m as int % w as int,
                    m < 0x20_0000_0000_0000,
                    w >= 0x1000,
            ;
        }
        (m as u128 / w) as u64
    }

    /// A magnitude that is at most `2^40`, rounded to a whole number, halves up.
    pub fn rounded(self) -> (r: u64)
        requires
            self.pattern() <= 0x4270_0000_0000_0000,
        ensures
            r == (2 * magnitude(self.pattern()) + pow2(1074)) / (2 * pow2(1074)),
            r <= 0x200_0000_0001,
    {
        let (_, p) = self.split();
        let (m, e) = parts(p);
        proof {
            lemma_exponents_ordered(p as int, 0x4270_0000_0000_0000);
            lemma_pow2_pos(1074);
        }
        let s: u32 = 1074 - e;
        let ghost whole = pow2(e as nat) as int;
        let ghost half = pow2(s as nat) as int;
        let ghost top = 2 * m + half;
        proof {
            lemma_pow2_adds(s as nat, e as nat);
            lemma_pow2_pos(s as nat);
            lemma_pow2_pos(e as nat);
            assert(2 * (m * whole) + half * whole == whole * top) by (nonlinear_arith)
                requires
                    top == 2 * m + half,
            ;
            assert(2 * (half * whole) == whole * (2 * half)) by (nonlinear_arith);
            assert(whole * top == top * whole) by (nonlinear_arith);
            vstd::arithmetic::div_mod::lemma_div_denominator(whole * top, whole, 2 * half);
            vstd::arithmetic::div_mod::lemma_div_multiples_vanish(top, whole);
            vstd::arithmetic::power2::lemma2_to64();
            vstd::arithmetic::power2::lemma2_to64_rest();
        }
        if s > 54 {
            proof {
                lemma_pow2_strictly_increases(54, s as nat);
                vstd::arithmetic::div_mod::lemma_basic_div(top, 2 * half);
            }
            return 0;
        }
        let w: u128 = power_of_two(s);
        proof {
            vstd::arithmetic::div_mod::lemma_fundamental_div_mod(top, 2 * half);
            let q = top / (2 * half);
            assert(s >= 12);
            if 12 < s {
                lemma_pow2_strictly_increases(12, s as nat);
            }
            if s < 54 {
                lemma_pow2_strictly_increases(s as nat, 54);
            }
            assert(0 <= q <= 0x200_0000_0001) by (nonlinear_arith)
                requires
                    top == (2 * half) * q + top % (2 * half),
                    0 <= top % (2 * half),
                    top == 2 * m + half,
                    m < 0x20_0000_0000_0000,
                    half >= 0x1000,
            ;
        }
        ((2 * (m as u128) + w) / (2 * w)) as u64
    }
}

impl Number {
    /// A smaller non-negative number has a smaller pattern.
    pub proof fn lemma_order(self, other: Number)
        ensures
            self.lt(other) && !self.negative() && !other.negative() ==> self.pattern()
                < other.pattern(),
    {
        if !self.is_nan_spec() && !other.is_nan_spec() {
            lemma_pattern_order(self.pattern(), other.pattern());
        }
    }
}

impl Number {
    /// The whole part, kept within 32 bits; what is not a number has none.
    pub open spec fn i32_spec(self) -> int {
        let whole = magnitude(self.pattern()) as int / pow2(1074) as int;
        if self.is_nan_spec() {
            0
        } else if self.negative() {
            if whole > 0x8000_0000 { -0x8000_0000 } else { -whole }
        } else {
            if whole > 0x7FFF_FFFF { 0x7FFF_FFFF } else { whole }
        }
    }

    /// The whole part, kept within 32 bits.
    pub fn to_i32(self) -> (r: i32)
        ensures
            r == self.i32_spec(),
    {
        let (negative, p) = self.split();
        if p > INFINITE {
            return 0;
        }
        let top: u64 = 0x4270_0000_0000_0000;
        if p > top {
            proof {
                lemma_magnitude_increases(top as int, p as int);
                lemma_split(top as int);
                vstd::arithmetic::power2::lemma2_to64();
                vstd::arithmetic::power2::lemma2_to64_rest();
                lemma_pow2_pos(1074);
                assert(mantissa(top as int) == HIDDEN);
                assert(exponent(top as int) == 1062);
                lemma_pow2_adds(52, 1062);
                lemma_pow2_adds(40, 1074);
                let unit = pow2(1074) as int;
                let m = magnitude(p as int) as int;
                assert(m >= 0x100_0000_0000 * unit);
                vstd::arithmetic::div_mod::lemma_div_is_ordered(0x100_0000_0000 * unit, m, unit);
                vstd::arithmetic::div_mod::lemma_div_multiples_vanish(0x100_0000_0000, unit);
                assert(unit * 0x100_0000_0000 == 0x100_0000_0000 * unit) by (nonlinear_arith);
            }
            if negative {
                return -0x8000_0000;
            } else {
                return 0x7FFF_FFFF;
            }
        }
        let whole: u64 = self.whole();
        if negative {
            if whole > 0x8000_0000 { -0x8000_0000 } else { (-(whole as i64)) as i32 }
        } else {
            if whole > 0x7FFF_FFFF { 0x7FFF_FFFF } else { whole as i32 }
        }
    }
}

/// Whether `p` is the pattern nearest to the square root of a magnitude, ties to
/// the even pattern. In units of the smallest subnormal the root of `v` squares
/// to `v * 2^1074`.
pub open spec fn is_nearest_root(p: int, v: nat) -> bool {
    let square = 4 * (v * pow2(1074));
    &&& 0 <= p < INFINITE
    &&& p > 0 ==> {
        let low = magnitude(p - 1) + magnitude(p);
        low * low < square || (low * low == square && p % 2 == 0)
    }
    &&& {
        let high = magnitude(p) + magnitude(p + 1);
        square < high * high || (square == high * high && p % 2 == 0)
    }
}

/// The pattern nearest to the square root of a magnitude.
pub open spec fn nearest_root(v: nat) -> int {
    choose|p: int| is_nearest_root(p, v)
}

proof fn lemma_root_order(p: int, r: int, v: nat)
    requires
        is_nearest_root(p, v),
        is_nearest_root(r, v),
    ensures
        r <= p,
{
    if p < r {
        let a = magnitude(p) + magnitude(p + 1);
        let b = magnitude(r - 1) + magnitude(r);
        if p + 1 < r {
            lemma_magnitude_increases(p + 1, r);
            lemma_magnitude_increases(p, r - 1);
            assert(a * a < b * b) by (nonlinear_arith)
                requires
                    0 <= a < b,
            ;
        }
    }
}

/// A multiple of a step lies on one side of a root just as it does of a number
/// within the step the root lies in.
proof fn lemma_root_side(line: int, sig: int, sticky: bool, square: int)
    by (nonlinear_arith)
    requires
        0 <= line,
        0 <= sig,
        sig * sig <= square < (sig + 1) * (sig + 1),
        sticky == (sig * sig != square),
    ensures
        sticky ==> (line <= sig <==> line * line < square),
        sticky ==> (line > sig <==> square < line * line),
        !sticky ==> (line < sig <==> line * line < square),
        !sticky ==> (line > sig <==> square < line * line),
        !sticky ==> (line == sig <==> line * line == square),
{
}

/// A number with a large enough exponent is a multiple of a power of two.
proof fn lemma_multiple(p: int, h: nat) -> (q: int)
    requires
        0 <= p <= INFINITE,
        exponent(p) >= h,
    ensures
        magnitude(p) == q * pow2(h),
        q >= 0,
{
    lemma_split(p);
    let rest = (exponent(p) - h) as nat;
    lemma_pow2_adds(rest, h);
    lemma_pow2_pos(rest);
    let q = mantissa(p) * pow2(rest);
    assert(mantissa(p) * (pow2(rest) * pow2(h)) == q * pow2(h)) by (nonlinear_arith)
        requires
            q == mantissa(p) * pow2(rest),
    ;
    assert(q >= 0) by (nonlinear_arith)
        requires
            q == mantissa(p) * pow2(rest),
            mantissa(p) >= 0,
            pow2(rest) > 0,
    ;
    q
}

/// The exponent of a pattern whose magnitude is large.
proof fn lemma_exponent_at_least(p: int, h: nat)
    requires
        0 <= p <= INFINITE,
        magnitude(p) >= pow2(h + 53),
    ensures
        exponent(p) > h,
{
    lemma_split(p);
    if exponent(p) <= h {
        vstd::arithmetic::power2::lemma2_to64();
        lemma_pow2_adds(53, h);
        lemma_pow2_pos(exponent(p));
        if exponent(p) < h {
            lemma_pow2_strictly_increases(exponent(p), h);
        }
        assert(mantissa(p) * pow2(exponent(p)) < 0x20_0000_0000_0000 * pow2(h)) by (nonlinear_arith)
            requires
                0 <= mantissa(p) < 0x20_0000_0000_0000,
                0 < pow2(exponent(p)) <= pow2(h),
        ;
        vstd::arithmetic::power2::lemma2_to64_rest();
    }
}

/// Exponents step by at most one from a pattern to the next.
proof fn lemma_exponent_steps(p: int)
    requires
        0 <= p < INFINITE,
    ensures
        exponent(p) <= exponent(p + 1) <= exponent(p) + 1,
{
    let h = HIDDEN as int;
    if p + 1 >= HIDDEN {
        assert((p + 1) / h <= p / h + 1 && p / h <= (p + 1) / h) by (nonlinear_arith)
            requires
                h > 1,
                p >= 0,
        ;
    }
}

/// The largest integer whose square is at most a number below `2^112`.
fn whole_root(v: u128) -> (r: u128)
    requires
        v < 0x1_0000_0000_0000_0000_0000_0000_0000,
    ensures
        r * r <= v < (r + 1) * (r + 1),
        r < 0x100_0000_0000_0000,
{
    let mut lo: u128 = 0;
    let mut hi: u128 = 0x100_0000_0000_0000;
    assert(0x100_0000_0000_0000u128 * 0x100_0000_0000_0000u128
        == 0x1_0000_0000_0000_0000_0000_0000_0000) by (nonlinear_arith);
    while hi - lo > 1
        invariant
            0 <= lo < hi <= 0x100_0000_0000_0000,
            lo * lo <= v < hi * hi,
        decreases hi - lo,
    {
        let mid: u128 = lo + (hi - lo) / 2;
        assert(0 <= mid * mid <= 0x100_0000_0000_0000 * 0x100_0000_0000_0000) by (nonlinear_arith)
            requires
                0 <= mid <= 0x100_0000_0000_0000,
        ;
        if mid * mid <= v {
            lo = mid;
        } else {
            hi = mid;
        }
    }
    lo
}

/// From a pattern nearest to a number in the root's own step to the root.
proof fn lemma_root_rounds(p: int, v: nat, sig: int, h: nat, sticky: bool, square: int, n: nat)
    requires
        is_nearest(p, n, 1),
        v * pow2(1074) == square * (pow2(h) * pow2(h)),
        0x80_0000_0000_0000 <= sig < 0x100_0000_0000_0000,
        sig * sig <= square < (sig + 1) * (sig + 1),
        sticky == (sig * sig != square),
        2 * n == (2 * sig + if sticky { 1int } else { 0int }) * pow2(h),
        h <= 1600,
    ensures
        is_nearest_root(p, v),
{
    let w = pow2(h) as int;
    lemma_pow2_pos(h);
    vstd::arithmetic::power2::lemma2_to64();
    vstd::arithmetic::power2::lemma2_to64_rest();
    let twice = 2 * n as int;
    lemma_pow2_adds(55, h);
    lemma_pow2_adds(56, h);
    assert(twice >= 0x100_0000_0000_0000 * w) by (nonlinear_arith)
        requires
            twice == (2 * sig + if sticky { 1int } else { 0int }) * w,
            sig >= 0x80_0000_0000_0000,
            w > 0,
    ;
    assert(twice < 0x200_0000_0000_0000 * w) by (nonlinear_arith)
        requires
            twice == (2 * sig + if sticky { 1int } else { 0int }) * w,
            sig < 0x100_0000_0000_0000,
            w > 0,
    ;
    // The pattern is far from the largest.
    assert(p < INFINITE) by {
        if p == INFINITE {
            let top = INFINITE as int;
            lemma_split(top - 1);
            assert(exponent(top - 1) == 2045);
            assert(mantissa(top - 1) >= HIDDEN);
            lemma_pow2_pos(2045);
            lemma_pow2_adds(52, 2045);
            assert(magnitude(top - 1) >= 0x10_0000_0000_0000 * pow2(2045)) by (nonlinear_arith)
                requires
                    magnitude(top - 1) == mantissa(top - 1) * pow2(2045),
                    mantissa(top - 1) >= 0x10_0000_0000_0000,
                    pow2(2045) > 0,
            ;
            lemma_pow2_adds(57, h);
            lemma_pow2_strictly_increases(h + 57, 2097);
            lemma_magnitude_increases(top - 1, top);
        }
    }
    let high = (magnitude(p) + magnitude(p + 1)) as int;
    lemma_step(p);
    assert(magnitude(p + 1) >= pow2((h + 2) as nat + 53)) by {
        assert(2 * magnitude(p + 1) > high >= twice);
        assert(pow2(55) * w == pow2(h + 55));
        assert(pow2(55) == 0x80_0000_0000_0000);
    }
    lemma_exponent_at_least(p + 1, (h + 2) as nat);
    lemma_exponent_steps(p);
    let b = lemma_multiple(p + 1, (h + 1) as nat);
    let a = lemma_multiple(p, (h + 1) as nat);
    lemma_pow2_adds(1, h);
    assert(pow2((h + 1) as nat) == 2 * w);
    let wide = w * w;
    let up = a + b;
    assert(high == 2 * (up * w)) by (nonlinear_arith)
        requires
            high == a * (2 * w) + b * (2 * w),
            up == a + b,
    ;
    lemma_root_side(up, sig, sticky, square);
    lemma_compare(up, sig, sticky, w, twice, high);
    lemma_squares(up, square, w, high, 4 * (v * pow2(1074)) as int);
    if p > 0 {
        lemma_exponent_steps(p - 1);
        let c = lemma_multiple(p - 1, (h + 1) as nat);
        let low = magnitude(p - 1) + magnitude(p);
        let down = c + a;
        assert(low == 2 * (down * w)) by (nonlinear_arith)
            requires
                low == c * (2 * w) + a * (2 * w),
                down == c + a,
        ;
        lemma_root_side(down, sig, sticky, square);
        lemma_compare(down, sig, sticky, w, twice, low as int);
        lemma_squares(down, square, w, low as int, 4 * (v * pow2(1074)) as int);
    }
}

/// Comparing a multiple of the step with the number in the middle of one.
proof fn lemma_compare(line: int, sig: int, sticky: bool, w: int, twice: int, value: int)
    requires
        w > 0,
        value == 2 * (line * w),
        twice == (2 * sig + if sticky { 1int } else { 0int }) * w,
    ensures
        sticky ==> (value < twice <==> line <= sig) && (twice < value <==> line > sig),
        !sticky ==> (value < twice <==> line < sig) && (twice < value <==> line > sig) && (value
            == twice <==> line == sig),
        sticky ==> value != twice,
{
    if sticky {
        assert((value < twice <==> line <= sig) && (twice < value <==> line > sig) && value
            != twice) by (nonlinear_arith)
            requires
                w > 0,
                value == 2 * (line * w),
                twice == (2 * sig + 1) * w,
        ;
    } else {
        assert((value < twice <==> line < sig) && (twice < value <==> line > sig) && (value == twice
            <==> line == sig)) by (nonlinear_arith)
            requires
                w > 0,
                value == 2 * (line * w),
                twice == (2 * sig + 0) * w,
        ;
    }
}

/// Comparing the square of a multiple of the step with the square of the root.
proof fn lemma_squares(line: int, square: int, w: int, value: int, target: int)
    requires
        w > 0,
        value == 2 * (line * w),
        target == 4 * (square * (w * w)),
    ensures
        value * value < target <==> line * line < square,
        target < value * value <==> square < line * line,
        value * value == target <==> line * line == square,
{
    let ww = w * w;
    let ll = line * line;
    assert(ww > 0) by (nonlinear_arith)
        requires
            w > 0,
            ww == w * w,
    ;
    assert(value * value == 4 * (ll * ww)) by (nonlinear_arith)
        requires
            value == 2 * (line * w),
            ll == line * line,
            ww == w * w,
    ;
    assert((ll * ww < square * ww <==> ll < square) && (square * ww < ll * ww <==> square < ll)
        && (ll * ww == square * ww <==> ll == square)) by (nonlinear_arith)
        requires
            ww > 0,
    ;
}

impl Number {
    pub open spec fn sqrt_spec(self) -> Number {
        if self.is_nan_spec() {
            Number { bits: QUIET_NAN }
        } else if self.pattern() == 0 {
            self
        } else if self.negative() {
            Number { bits: QUIET_NAN }
        } else if !self.finite() {
            self
        } else {
            signed(false, nearest_root(magnitude(self.pattern())))
        }
    }

    /// The square root.
    pub fn sqrt(self) -> (r: Number)
        ensures
            r == self.sqrt_spec(),
    {
        let (negative, p) = self.split();
        if p > INFINITE {
            return Number { bits: QUIET_NAN };
        }
        if p == 0 {
            return self;
        }
        if negative {
            return Number { bits: QUIET_NAN };
        }
        if p == INFINITE {
            return self;
        }
        let (m, e) = parts(p);
        let l: u32 = bit_length(m as u128);
        proof {
            vstd::arithmetic::power2::lemma2_to64();
            vstd::arithmetic::power2::lemma2_to64_rest();
            if l > 53 {
                lemma_pow2_strictly_increases(53, l as nat);
                if l > 54 {
                    lemma_pow2_strictly_increases(53, (l - 1) as nat);
                }
            }
        }
        assert(l <= 53);
        // Widen the mantissa to 111 or 112 bits, leaving an even exponent.
        let odd: u32 = (e + l + 1) % 2;
        let j: u32 = 111 + odd - l;
        let h: u32 = (e + 1074 - j) / 2;
        assert(2 * h == e + 1074 - j);
        let shift: u128 = power_of_two(j);
        proof {
            lemma_pow2_adds((l - 1) as nat, j as nat);
            lemma_pow2_adds(l as nat, j as nat);
            lemma_pow2_adds(55, 55);
            lemma_pow2_adds(56, 56);
            if odd == 0 {
                lemma_pow2_adds(110, 1);
                lemma_pow2_strictly_increases(111, 112);
            } else {
                lemma_pow2_strictly_increases(110, 111);
            }
            assert(pow2((l - 1) as nat) * shift <= m * shift < pow2(l as nat) * shift)
                by (nonlinear_arith)
                requires
                    pow2((l - 1) as nat) <= m < pow2(l as nat),
                    shift > 0,
            ;
        }
        let wide: u128 = m as u128 * shift;
        let sig: u128 = whole_root(wide);
        proof {
            assert(pow2(55) * pow2(55) == 0x80_0000_0000_0000 * 0x80_0000_0000_0000);
            assert(sig >= 0x80_0000_0000_0000) by (nonlinear_arith)
                requires
                    wide < (sig + 1) * (sig + 1),
                    wide >= 0x80_0000_0000_0000 * 0x80_0000_0000_0000,
                    sig >= 0,
            ;
            assert(sig * sig <= wide);
        }
        let sticky: bool = sig * sig != wide;
        let ghost v = magnitude(p as int);
        let ghost extra: int = if sticky { 1 } else { 0 };
        let ghost n = ((2 * sig + extra) * pow2((h - 1) as nat)) as nat;
        proof {
            let w = pow2(h as nat) as int;
            let half = pow2((h - 1) as nat) as int;
            lemma_pow2_pos((h - 1) as nat);
            lemma_pow2_adds(1, (h - 1) as nat);
            assert(w == 2 * half);
            assert((2 * sig + extra) * half >= 0) by (nonlinear_arith)
                requires
                    sig >= 0,
                    extra >= 0,
                    half > 0,
            ;
            assert(2 * n == (2 * sig + extra) * w) by (nonlinear_arith)
                requires
                    n == (2 * sig + extra) * half,
                    w == 2 * half,
            ;
            // v * 2^1074 == m * 2^(e + 1074) == wide * 2^(2h).
            lemma_pow2_adds(e as nat, 1074);
            lemma_pow2_adds(j as nat, (2 * h) as nat);
            lemma_pow2_adds(h as nat, h as nat);
            let tail = pow2((2 * h) as nat) as int;
            assert(v * pow2(1074) == wide * tail) by (nonlinear_arith)
                requires
                    v == m * pow2(e as nat),
                    pow2(e as nat) * pow2(1074) == shift * tail,
                    wide == m * shift,
            ;
            assert(tail == w * w);
            // The step the rounding works in.
            let t = (h + OFFSET) as nat;
            lemma_pow2_adds(h as nat, OFFSET as nat);
            lemma_pow2_pos(OFFSET as nat);
            let off = pow2(OFFSET as nat) as int;
            let x = n * off;
            assert(pow2(t) == w * off);
            assert(2 * x == (2 * sig + extra) * (w * off)) by (nonlinear_arith)
                requires
                    2 * n == (2 * sig + extra) * w,
                    x == n * off,
            ;
            let big = w * off;
            assert(big > 0) by (nonlinear_arith)
                requires
                    w > 0,
                    off > 0,
                    big == w * off,
            ;
            assert(sig * big * 1 <= x < (sig + 1) * big * 1 && (sticky == (sig * big * 1 != x)))
                by (nonlinear_arith)
                requires
                    2 * x == (2 * sig + extra) * big,
                    big > 0,
                    extra == (if sticky { 1int } else { 0int }),
            ;
            assert(in_step(sig as int, t, sticky, n, 1));
        }
        let r: u64 = round(sig, h as i32, sticky, Ghost(n), Ghost(1));
        proof {
            lemma_root_rounds(r as int, v, sig as int, h as nat, sticky, wide as int, n);
            let c = nearest_root(v);
            assert(is_nearest_root(c, v));
            lemma_root_order(r as int, c, v);
            lemma_root_order(c, r as int, v);
        }
        Number::join(false, r)
    }
}

} // verus!
