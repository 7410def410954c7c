//! What a network of conductances comes to when nodes are taken out of it.
use crate::closeness::{
    approximates, clean, lemma_exactly, lemma_itself, lemma_plus_strays, lemma_product,
    lemma_product_rounds, lemma_quotient, lemma_reduced, lemma_strays_negated, lemma_strays_once,
    lemma_sum_strays, moderate, size_of, strays, unit,
};
use crate::number::{magnitude, Number, HIDDEN, INFINITE, ONE};
use crate::power::cholesky::Rows;
use crate::power::network::NetNetworks;
use crate::power::probe::resistance;
use crate::power::reduce::{total_to, Mesh, Strand};
use crate::rooting::lemma_sum_approximates;
use vstd::arithmetic::power2::{lemma_pow2_adds, lemma_pow2_pos, pow2};
use vstd::prelude::*;

verus! {

/// Every edge of a network that is no loop conducts the reciprocal of its resistance, to
/// within a rounding, between the nodes it joins; a loop conducts nothing.
pub proof fn lemma_edges_conduct(networks: &NetNetworks, r: int, n: nat, e: int) -> (at: int)
    requires
        0 <= e < n,
        networks.ohms(r, e).grounded(),
        moderate(networks.ohms(r, e), 900),
    ensures
        ({
            let all = networks.conductances(r, n);
            let (a, b) = networks.pairs(r)[e];
            &&& a != b ==> {
                &&& 0 <= at < all.len()
                &&& all[at].0 == a
                &&& all[at].1 == b
                &&& approximates(all[at].2, unit(), networks.ohms(r, e).value(), 1)
            }
            &&& forall|k: int| 0 <= k < all.len() ==> (#[trigger] all[k]).0 != all[k].1
        }),
    decreases n,
{
    let m = (n - 1) as nat;
    let before = networks.conductances(r, m);
    lemma_no_loops(networks, r, n);
    if e == m {
        let (o, u) = (networks.ohms(r, e), unit());
        let one = Number { bits: ONE };
        lemma_pow2_pos(1074);
        lemma_pow2_pos(174);
        lemma_one();
        lemma_itself(one);
        lemma_itself(o);
        lemma_quotient(one, o, 0, 900, u, u, o.value(), u, 0, 0);
        assert(u * o.value() == o.value() * u) by (nonlinear_arith);
        lemma_reduced(one.over_spec(o), u, o.value(), u, 1);
        before.len() as int
    } else {
        lemma_edges_conduct(networks, r, m, e)
    }
}

proof fn lemma_no_loops(networks: &NetNetworks, r: int, n: nat)
    ensures
        forall|k: int|
            0 <= k < networks.conductances(r, n).len() ==> (#[trigger] networks.conductances(
                r,
                n,
            )[k]).0 != networks.conductances(r, n)[k].1,
    decreases n,
{
    if n > 0 {
        let m = (n - 1) as nat;
        lemma_no_loops(networks, r, m);
        let before = networks.conductances(r, m);
        let all = networks.conductances(r, n);
        assert forall|k: int| 0 <= k < all.len() implies (#[trigger] all[k]).0 != all[k].1 by {
            if k < before.len() {
                assert(all[k] == before[k]);
            }
        }
    }
}

proof fn lemma_one()
    ensures
        (Number { bits: ONE }).value() == unit(),
        (Number { bits: ONE }).grounded(),
        moderate(Number { bits: ONE }, 0),
{
    vstd::arithmetic::power2::lemma2_to64();
    vstd::arithmetic::power2::lemma2_to64_rest();
    lemma_pow2_adds(52, 1022);
    assert((ONE as int) / (HIDDEN as int) == 1023);
    assert((ONE as int) % (HIDDEN as int) == 0);
}

/// Taking out a node between two others leaves a conductance between them whose
/// resistance is the sum of the two it stood between: the product of the two
/// conductances over their sum, to within the roundings.
pub proof fn lemma_series_resistances_add(
    m: &Mesh,
    v: u32,
    a: u32,
    x: Number,
    b: u32,
    y: Number,
)
    requires
        m.fringe(v) == seq![(a, x), (b, y)],
        x.grounded(),
        moderate(x, 200),
        y.grounded(),
        moderate(y, 200),
        !(exists|e: int| m.without(v).oldest(a, b, e)),
    ensures
        ({
            let now = m.eliminated(v);
            let added = now.strand.last();
            let (p, q) = (x.value(), y.value());
            &&& now.strand.len() == m.strand.len() + 1
            &&& now.strand.drop_last() == m.strand
            &&& now.alive == m.alive.update(v as int, false)
            &&& added.a == a
            &&& added.b == b
            &&& approximates(added.g, p * q, unit() * (p + q), 3)
        }),
{
    let f = m.fringe(v);
    let zero = Number { bits: 0 };
    let u = unit();
    lemma_pow2_pos(1074);
    lemma_pow2_pos(874);
    assert(magnitude(0) == 0);
    reveal_with_fuel(total_to, 3);
    crate::rounding::lemma_zero_plus(x);
    assert(zero.plus_spec(x) == x);
    let total = x.plus_spec(y);
    assert(total_to(f, 2) == total);
    lemma_itself(x);
    lemma_itself(y);
    lemma_ordinary_sum(x, y);
    lemma_sum_approximates(x, y, x.value(), y.value(), u, 0);
    assert(zero.lt(total)) by {
        crate::addition::lemma_sum_grows(x, y);
    }
    lemma_product(x, y, 200, 200, x.value(), u, y.value(), u, 0, 0);
    let pq = x.times_spec(y);
    let (n, s) = (x.value() * y.value(), x.value() + y.value());
    lemma_quotient(pq, total, 400, 201, n, u * u, s, u, 1, 1);
    let g = pq.over_spec(total);
    assert((u * u) * s == (u * s) * u) by (nonlinear_arith);
    assert(n >= 0 && u * s > 0) by (nonlinear_arith)
        requires
            n == x.value() * y.value(),
            x.value() > 0,
            y.value() > 0,
            s == x.value() + y.value(),
            u > 0,
    ;
    lemma_reduced(g, n, u * s, u, 3);
    let w = m.without(v);
    let added = w.bumped(a, b, g);
    assert(added.strand == w.strand.push(Strand { a, b, g }));
    reveal_with_fuel(Mesh::spread_row, 4);
    reveal_with_fuel(Mesh::spread_to, 3);
    assert(f.len() == 2 && f[0] == (a, x) && f[1] == (b, y));
    assert(w.spread_row(f, total, 0, 1) == w);
    assert(w.spread_row(f, total, 0, 2) == added);
    assert(w.spread_to(f, total, 1) == added);
    assert(added.spread_row(f, total, 1, 2) == added);
    assert(w.spread_to(f, total, 2) == added);
    assert(m.eliminated(v) == added);
    assert(added.strand.drop_last() =~= m.strand);
}

proof fn lemma_ordinary_sum(x: Number, y: Number)
    requires
        x.grounded(),
        y.grounded(),
        moderate(x, 200),
        moderate(y, 200),
    ensures
        x.plus_spec(y).grounded(),
        moderate(x.plus_spec(y), 201),
        HIDDEN <= x.plus_spec(y).pattern() < INFINITE,
{
    vstd::arithmetic::power2::lemma2_to64();
    vstd::arithmetic::power2::lemma2_to64_rest();
    crate::addition::lemma_sum(x, y);
    crate::addition::lemma_sum_grows(x, y);
    let s = (x.value() + y.value()) as nat;
    lemma_pow2_adds(1, 1274);
    let top = 1224 * HIDDEN;
    assert(top / (HIDDEN as int) == 1224 && top % (HIDDEN as int) == 0);
    lemma_pow2_adds(52, 1223);
    assert(magnitude(top) == pow2(1275));
    crate::addition::lemma_nearest_exact(top);
    crate::addition::lemma_nearest_order(s, magnitude(top), 1);
    crate::addition::lemma_nearest(s, 1);
    crate::addition::lemma_magnitude_order(crate::number::nearest(s, 1), top);
    vstd::arithmetic::power2::lemma_pow2_strictly_increases(873, 874);
    vstd::arithmetic::power2::lemma_pow2_strictly_increases(53, 874);
    crate::number::lemma_split(HIDDEN as int);
    let h = HIDDEN as int;
    assert(h / h == 1 && h % h == 0) by (nonlinear_arith)
        requires
            h > 0,
    ;
    assert(crate::number::exponent(h) == 0 && crate::number::mantissa(h) == h);
    assert(h * pow2(0) == h) by (nonlinear_arith)
        requires
            pow2(0) == 1,
    ;
    if x.plus_spec(y).pattern() < HIDDEN {
        crate::addition::lemma_magnitude_order(x.plus_spec(y).pattern(), HIDDEN as int);
    }
}

/// More conductance between two nodes already joined adds to what joins them, to within
/// a rounding, and changes no other strand.
pub proof fn lemma_parallel_conductances_add(m: &Mesh, a: u32, b: u32, g: Number, e: int)
    requires
        m.oldest(a, b, e),
        m.strand[e].g.plus_spec(g).finite(),
    ensures
        ({
            let now = m.bumped(a, b, g);
            let sum = m.strand[e].g.value() + g.value();
            &&& now.strand.len() == m.strand.len()
            &&& now.strand[e].a == m.strand[e].a
            &&& now.strand[e].b == m.strand[e].b
            &&& size_of(now.strand[e].g.value() - sum) * 0x10_0000_0000_0000 <= size_of(sum)
            &&& forall|d: int|
                0 <= d < m.strand.len() && d != e ==> #[trigger] now.strand[d] == m.strand[d]
        }),
{
    let c = choose|c: int| m.oldest(a, b, c);
    assert(m.oldest(a, b, c));
    assert(c == e);
    lemma_sum_strays(m.strand[e].g, g);
}

/// The resistance between two places off the ground is the two entries of the inverse on
/// the diagonal less twice the one between them, to within the roundings.
pub proof fn lemma_resistance_of_an_inverse(inverse: Rows, p: int, q: int)
    requires
        0 < p < q,
        inverse[p - 1][p - 1].finite(),
        inverse[q - 1][q - 1].finite(),
        inverse[p - 1][q - 1].finite(),
        clean(Number { bits: 0x4000_0000_0000_0000 }, inverse[p - 1][q - 1]),
        resistance(inverse, p, q).finite(),
    ensures
        ({
            let (x, y, z) = (
                inverse[p - 1][p - 1].value(),
                inverse[q - 1][q - 1].value(),
                inverse[p - 1][q - 1].value(),
            );
            strays(
                resistance(inverse, p, q).value() * unit(),
                (x * unit() + y * unit()) - (2 * unit()) * z,
                (size_of(x) * unit() + size_of(y) * unit()) + (2 * unit()) * size_of(z),
                2,
            )
        }),
{
    let one = Number { bits: ONE };
    let two = Number { bits: 0x4000_0000_0000_0000 };
    let (a, b, c) = (inverse[p - 1][p - 1], inverse[q - 1][q - 1], inverse[p - 1][q - 1]);
    let (x, y, z, u) = (a.value(), b.value(), c.value(), unit());
    lemma_pow2_pos(1074);
    crate::rounding::lemma_times_one(a);
    crate::rounding::lemma_times_one(c);
    lemma_two();
    let sum = a.plus_spec(b);
    let twice = two.times_spec(c);
    assert(twice.negated_spec().value() == -twice.value());
    lemma_sum_strays(sum, twice.negated_spec());
    assert(twice.finite());
    let (xu, yu) = (x * u, y * u);
    assert(size_of(xu) == size_of(x) * u && size_of(yu) == size_of(y) * u) by (nonlinear_arith)
        requires
            xu == x * u,
            yu == y * u,
            u > 0,
            size_of(xu) == (if xu < 0 { -xu } else { xu }),
            size_of(yu) == (if yu < 0 { -yu } else { yu }),
            size_of(x) == (if x < 0 { -x } else { x }),
            size_of(y) == (if y < 0 { -y } else { y }),
    ;
    lemma_exactly(xu, size_of(xu));
    lemma_exactly(yu, size_of(yu));
    lemma_plus_strays(a, b, u, xu, size_of(xu), yu, size_of(yu), 0);
    lemma_product_rounds(two, c);
    let w = (2 * u) * z;
    assert(size_of(w) == (2 * u) * size_of(z)) by (nonlinear_arith)
        requires
            w == (2 * u) * z,
            u > 0,
            size_of(w) == (if w < 0 { -w } else { w }),
            size_of(z) == (if z < 0 { -z } else { z }),
    ;
    lemma_exactly(w, size_of(w));
    lemma_strays_once(twice.value() * u, w, w, size_of(w), 0);
    lemma_strays_negated(twice.value() * u, w, size_of(w), 1);
    let neg = twice.negated_spec();
    assert(-(twice.value() * u) == neg.value() * u) by (nonlinear_arith)
        requires
            neg.value() == -twice.value(),
    ;
    lemma_plus_strays(sum, neg, u, xu + yu, size_of(xu) + size_of(yu), -w, size_of(w), 1);
}

proof fn lemma_two()
    ensures
        (Number { bits: 0x4000_0000_0000_0000 }).value() == 2 * unit(),
        (Number { bits: 0x4000_0000_0000_0000 }).grounded(),
{
    vstd::arithmetic::power2::lemma2_to64();
    vstd::arithmetic::power2::lemma2_to64_rest();
    let k: int = 0x4000_0000_0000_0000;
    assert(k / (HIDDEN as int) == 1024);
    assert(k % (HIDDEN as int) == 0);
    lemma_pow2_adds(52, 1023);
    lemma_pow2_adds(1, 1074);
}

} // verus!
