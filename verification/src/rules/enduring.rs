//! What the rules about surviving conditions promise of their verdicts.
use crate::closeness::{
    approximates, clean, lemma_approximates_strays, lemma_itself, lemma_plus_strays,
    lemma_product, lemma_product_rounds, lemma_quotient, lemma_reduced, lemma_strays_negated,
    lemma_strays_once, lemma_strays_product, lemma_strays_times, moderate, size_of, strays, unit,
};
use crate::design::Design;
use crate::intent::IntentMap;
use crate::model::{LayerId, NetId, StrId};
use crate::number::{magnitude, Number, HIDDEN, INFINITE, ONE, SIGN};
use crate::power::network::Solved;
use crate::report::{Measurement, Outcome, Severity};
use crate::rounding::lemma_quotient_falls;
use crate::rules::electrical::{arrhenius_power, BOLTZMANN_EV_PER_K};
use crate::rules::reliability::{
    domain_range, domain_spread_spec, enclosed, hv_found, hvs_found, lifetimes, reliability_row,
    stress_base, stress_found, stresses_found, thermal_power, unit_lifetime, LifetimeFactors,
    ReliabilityTable,
};
use vstd::arithmetic::power2::{lemma_pow2_adds, lemma_pow2_pos, pow2};
use vstd::prelude::*;

verus! {

proof fn lemma_unity()
    ensures
        (Number { bits: ONE }).value() == unit(),
        (Number { bits: ONE }).grounded(),
        moderate(Number { bits: ONE }, 0),
{
    vstd::arithmetic::power2::lemma2_to64();
    vstd::arithmetic::power2::lemma2_to64_rest();
    lemma_pow2_adds(52, 1022);
    assert((ONE as int) / (HIDDEN as int) == 1023);
    assert((ONE as int) % (HIDDEN as int) == 0);
}

/// Boltzmann's constant is 8.617333262e-5 electronvolts per kelvin.
pub proof fn lemma_boltzmann()
    ensures
        moderate(Number { bits: BOLTZMANN_EV_PER_K }, 100),
        (Number { bits: BOLTZMANN_EV_PER_K }).grounded(),
        ({
            let k = (Number { bits: BOLTZMANN_EV_PER_K }).value();
            &&& 8_617_333_261 * unit() < k * 100_000_000_000_000
            &&& k * 100_000_000_000_000 < 8_617_333_263 * unit()
        }),
{
    vstd::arithmetic::power2::lemma2_to64();
    vstd::arithmetic::power2::lemma2_to64_rest();
    let k = BOLTZMANN_EV_PER_K as int;
    let t = pow2(1008);
    assert(k / (HIDDEN as int) == 1009);
    assert(k % (HIDDEN as int) == 0x6_96FE_94E1_2D2C);
    lemma_pow2_adds(64, 2);
    lemma_pow2_adds(66, 1008);
    lemma_pow2_adds(974, 34);
    lemma_pow2_adds(52, 1008);
    vstd::arithmetic::power2::lemma_pow2_strictly_increases(1060, 1174);
    vstd::arithmetic::power2::lemma_pow2_strictly_increases(1061, 1174);
    vstd::arithmetic::power2::lemma_pow2_strictly_increases(974, 1008);
    lemma_pow2_adds(53, 1008);
    lemma_pow2_pos(1008);
    let v = (HIDDEN + 0x6_96FE_94E1_2D2C) * t;
    assert(t <= v <= pow2(53) * t) by (nonlinear_arith)
        requires
            v == (HIDDEN + 0x6_96FE_94E1_2D2C) * t,
            pow2(53) == 0x20_0000_0000_0000,
            HIDDEN == 0x10_0000_0000_0000,
            t > 0,
    ;
    assert(unit() == 73_786_976_294_838_206_464 * t);
}

/// A node lasts the characterised lifetime times the thermal factor times its stress
/// factor, over the fraction of the time it is stressed, to within three roundings.
pub proof fn lemma_lifetime_follows_the_model(
    table: &ReliabilityTable,
    thermal: Number,
    stress: Seq<Number>,
    row: int,
    node: int,
)
    requires
        0 <= node < stress.len(),
        table.reference_lifetime_hours@[row].grounded(),
        moderate(table.reference_lifetime_hours@[row], 200),
        table.duty_cycle@[row].grounded(),
        moderate(table.duty_cycle@[row], 200),
        thermal.grounded(),
        moderate(thermal, 200),
        stress[node].grounded(),
        moderate(stress[node], 200),
    ensures
        approximates(
            lifetimes(unit_lifetime(table, thermal, row), stress)[node],
            (table.reference_lifetime_hours@[row].value() * thermal.value())
                * stress[node].value(),
            (table.duty_cycle@[row].value() * unit()) * unit(),
            3,
        ),
{
    let (r, d, s) = (table.reference_lifetime_hours@[row], table.duty_cycle@[row], stress[node]);
    let u = unit();
    lemma_pow2_pos(1074);
    lemma_pow2_pos(874);
    lemma_itself(r);
    lemma_itself(d);
    lemma_itself(s);
    lemma_itself(thermal);
    lemma_product(r, thermal, 200, 200, r.value(), u, thermal.value(), u, 0, 0);
    let warm = r.times_spec(thermal);
    let n = r.value() * thermal.value();
    lemma_quotient(warm, d, 400, 200, n, u * u, d.value(), u, 1, 0);
    let each = warm.over_spec(d);
    lemma_product(each, s, 600, 200, n * u, (u * u) * d.value(), s.value(), u, 2, 0);
    let hours = each.times_spec(s);
    let c = u;
    assert((n * u) * s.value() == (n * s.value()) * c && ((u * u) * d.value()) * u == ((d.value()
        * u) * u) * c) by (nonlinear_arith)
        requires
            c == u,
    ;
    let (p, q) = (n * s.value(), (d.value() * u) * u);
    assert(n >= 0 && p >= 0 && q > 0) by (nonlinear_arith)
        requires
            n == r.value() * thermal.value(),
            p == n * s.value(),
            q == (d.value() * u) * u,
            r.value() >= 0,
            thermal.value() >= 0,
            s.value() >= 0,
            d.value() > 0,
            u > 0,
    {
        assert(r.value() * thermal.value() >= 0);
        assert(n * s.value() >= 0);
        assert(d.value() * u > 0);
    }
    lemma_reduced(hours, p, q, c, 3);
}

/// The base of the inverse-power law is the characterised stress over the size of the
/// applied one, whichever its sign, to within a rounding; a node under more stress never
/// has a larger base.
pub proof fn lemma_more_stress_never_lasts_longer(reference: Number, a: Number, b: Number)
    requires
        reference.grounded(),
        moderate(reference, 400),
        moderate(a, 400),
        moderate(b, 400),
        a.magnitude_spec().le(b.magnitude_spec()),
    ensures
        approximates(
            stress_base(reference, a),
            reference.value(),
            a.magnitude_spec().value(),
            1,
        ),
        stress_base(reference, a) == stress_base(reference, a.negated_spec()),
        stress_base(reference, b).le(stress_base(reference, a)),
{
    let (x, y) = (a.magnitude_spec(), b.magnitude_spec());
    lemma_pow2_pos(674);
    lemma_pow2_pos(1074);
    assert(magnitude(0) == 0);
    lemma_itself(reference);
    lemma_itself(x);
    lemma_quotient(reference, x, 400, 400, reference.value(), unit(), x.value(), unit(), 0, 0);
    let (r, u) = (reference.value(), unit());
    assert(u * x.value() == x.value() * u) by (nonlinear_arith);
    lemma_reduced(reference.over_spec(x), r, x.value(), u, 1);
    if y.pattern() < x.pattern() {
        crate::number::lemma_magnitude_increases(y.pattern(), x.pattern());
    }
    lemma_quotient_falls(reference, x, y);
}

/// The reciprocal of a number, to a rounding.
proof fn lemma_reciprocal(t: Number)
    requires
        t.grounded(),
        moderate(t, 100),
    ensures
        strays(
            (Number { bits: ONE }).over_spec(t).value() * t.value(),
            unit() * unit(),
            unit() * unit(),
            1,
        ),
        t.value() > 0,
{
    let one = Number { bits: ONE };
    let (u, v) = (unit(), t.value());
    lemma_unity();
    lemma_pow2_pos(1074);
    lemma_pow2_pos(974);
    lemma_itself(one);
    lemma_itself(t);
    lemma_quotient(one, t, 0, 100, u, u, v, u, 0, 0);
    assert(u * v == v * u) by (nonlinear_arith);
    lemma_reduced(one.over_spec(t), u, v, u, 1);
    lemma_approximates_strays(one.over_spec(t), u, v, 1);
}

/// A scale times the difference of two reciprocals.
proof fn lemma_scaled_gap(scale: Number, n: int, k: int, j: nat, t: Number, r: Number)
    requires
        approximates(scale, n, k, j),
        t.grounded(),
        moderate(t, 100),
        r.grounded(),
        moderate(r, 100),
        ({
            let one = Number { bits: ONE };
            let gap = one.over_spec(t).minus_spec(one.over_spec(r));
            clean(scale, gap) && scale.times_spec(gap).finite()
        }),
    ensures
        ({
            let one = Number { bits: ONE };
            let power = scale.times_spec(one.over_spec(t).minus_spec(one.over_spec(r)));
            let u = unit();
            strays(
                (power.value() * u) * ((t.value() * r.value()) * k),
                (((u * u) * r.value()) - ((u * u) * t.value())) * (n * u),
                (((u * u) * r.value()) + ((u * u) * t.value())) * (n * u),
                j + 3,
            )
        }),
{
    let one = Number { bits: ONE };
    let (u, a, b) = (unit(), t.value(), r.value());
    let (x, y) = (one.over_spec(t), one.over_spec(r));
    let gap = x.minus_spec(y);
    lemma_pow2_pos(1074);
    lemma_reciprocal(t);
    lemma_reciprocal(r);
    lemma_product_rounds(scale, gap);
    let ab = a * b;
    assert(ab > 0) by (nonlinear_arith)
        requires
            ab == a * b,
            a > 0,
            b > 0,
    ;
    lemma_strays_times(x.value() * a, u * u, u * u, b, 1);
    lemma_strays_times(y.value() * b, u * u, u * u, a, 1);
    lemma_strays_negated((y.value() * b) * a, (u * u) * a, (u * u) * a, 1);
    assert((x.value() * a) * b == x.value() * ab) by (nonlinear_arith)
        requires
            ab == a * b,
    ;
    assert(y.negated_spec().value() == -y.value());
    assert(-((y.value() * b) * a) == (-y.value()) * ab) by (nonlinear_arith)
        requires
            ab == a * b,
    ;
    let (e, s) = ((u * u) * b, (u * u) * a);
    lemma_plus_strays(x, y.negated_spec(), ab, e, e, -s, s, 1);
    lemma_approximates_strays(scale, n, k, j);
    let (g, q) = (gap.value() * ab, scale.value() * k);
    lemma_strays_product(g, e - s, e + s, 2, q, n * u, n * u, j);
    let power = scale.times_spec(gap);
    let (z, w, c) = (power.value() * u, scale.value() * gap.value(), ab * k);
    assert(c > 0) by (nonlinear_arith)
        requires
            c == ab * k,
            ab > 0,
            k > 0,
    ;
    assert(w * c == g * q) by (nonlinear_arith)
        requires
            w == scale.value() * gap.value(),
            c == ab * k,
            g == gap.value() * ab,
            q == scale.value() * k,
    ;
    let m: int = 0x10_0000_0000_0000;
    assert(size_of(z * c - w * c) * m <= size_of(w * c)) by (nonlinear_arith)
        requires
            size_of(z - w) * m <= size_of(w),
            c > 0,
            m == 0x10_0000_0000_0000int,
            size_of(z - w) == (if z - w < 0 { -(z - w) } else { z - w }),
            size_of(w) == (if w < 0 { -w } else { w }),
            size_of(z * c - w * c) == (if z * c - w * c < 0 { -(z * c - w * c) } else {
                z * c - w * c
            }),
            size_of(w * c) == (if w * c < 0 { -(w * c) } else { w * c }),
    {
        assert(z * c - w * c == (z - w) * c);
        assert(size_of(z * c - w * c) == size_of(z - w) * c);
        assert(size_of(w * c) == size_of(w) * c);
        assert((size_of(z - w) * m) * c <= size_of(w) * c);
    }
    lemma_strays_once(z * c, g * q, (e - s) * (n * u), (e + s) * (n * u), j + 2);
}

/// A thermal factor's power of e is the activation energy over Boltzmann's constant
/// times the difference of the reciprocal temperatures, to within its roundings: above
/// zero where the operating point is cooler than the characterised one, and below it
/// where it is hotter.
pub proof fn lemma_thermal_power_is_arrhenius(energy: Number, applied: Number, reference: Number)
    requires
        energy.grounded(),
        moderate(energy, 100),
        applied.grounded(),
        moderate(applied, 100),
        reference.grounded(),
        moderate(reference, 100),
        ({
            let one = Number { bits: ONE };
            let gap = one.over_spec(applied).minus_spec(one.over_spec(reference));
            clean(energy.over_spec(Number { bits: BOLTZMANN_EV_PER_K }), gap)
        }),
        thermal_power(energy, applied, reference).finite(),
    ensures
        ({
            let (u, t, r) = (unit(), applied.value(), reference.value());
            let k = (Number { bits: BOLTZMANN_EV_PER_K }).value();
            strays(
                (thermal_power(energy, applied, reference).value() * u) * ((t * r) * k),
                (((u * u) * r) - ((u * u) * t)) * (energy.value() * u),
                (((u * u) * r) + ((u * u) * t)) * (energy.value() * u),
                4,
            )
        }),
{
    let k = Number { bits: BOLTZMANN_EV_PER_K };
    let u = unit();
    lemma_pow2_pos(1074);
    lemma_pow2_pos(974);
    lemma_itself(energy);
    lemma_boltzmann();
    lemma_itself(k);
    lemma_quotient(energy, k, 100, 100, energy.value(), u, k.value(), u, 0, 0);
    let scale = energy.over_spec(k);
    assert(u * k.value() == k.value() * u) by (nonlinear_arith);
    lemma_reduced(scale, energy.value(), k.value(), u, 1);
    lemma_scaled_gap(scale, energy.value(), k.value(), 1, applied, reference);
}

/// A current limit's power of e is the activation energy over the current exponent and
/// Boltzmann's constant times the difference of the reciprocal temperatures, to within
/// its roundings.
pub proof fn lemma_arrhenius_power_is_blacks_law(
    operating: Number,
    reference: Number,
    energy: Number,
    exponent: Number,
)
    requires
        energy.grounded(),
        moderate(energy, 100),
        exponent.grounded(),
        moderate(exponent, 100),
        operating.grounded(),
        moderate(operating, 100),
        reference.grounded(),
        moderate(reference, 100),
        ({
            let one = Number { bits: ONE };
            let gap = one.over_spec(operating).minus_spec(one.over_spec(reference));
            clean(
                energy.over_spec(exponent.times_spec(Number { bits: BOLTZMANN_EV_PER_K })),
                gap,
            )
        }),
        arrhenius_power(operating, reference, energy, exponent).finite(),
    ensures
        ({
            let (u, t, r) = (unit(), operating.value(), reference.value());
            let k = (Number { bits: BOLTZMANN_EV_PER_K }).value();
            let n = exponent.value();
            let power = arrhenius_power(operating, reference, energy, exponent);
            strays(
                (power.value() * u) * ((t * r) * (n * k)),
                (((u * u) * r) - ((u * u) * t)) * ((energy.value() * u) * u),
                (((u * u) * r) + ((u * u) * t)) * ((energy.value() * u) * u),
                5,
            )
        }),
{
    let k = Number { bits: BOLTZMANN_EV_PER_K };
    let (u, e, n) = (unit(), energy.value(), exponent.value());
    lemma_pow2_pos(1074);
    lemma_pow2_pos(974);
    lemma_itself(energy);
    lemma_itself(exponent);
    lemma_boltzmann();
    lemma_itself(k);
    lemma_product(exponent, k, 100, 100, n, u, k.value(), u, 0, 0);
    let nk = n * k.value();
    assert(nk > 0) by (nonlinear_arith)
        requires
            nk == n * k.value(),
            n > 0,
            k.value() > 0,
    ;
    let below = exponent.times_spec(k);
    lemma_quotient(energy, below, 100, 200, e, u, nk, u * u, 0, 1);
    let scale = energy.over_spec(below);
    assert(e * (u * u) == (e * u) * u && u * nk == nk * u) by (nonlinear_arith);
    assert(e * u >= 0) by (nonlinear_arith)
        requires
            e >= 0,
            u > 0,
    ;
    lemma_reduced(scale, e * u, nk, u, 2);
    lemma_scaled_gap(scale, e * u, nk, 2, operating, reference);
}

/// What a list of nodes holds of one of them.
proof fn lemma_node_listed(
    solved: Solved,
    table: &ReliabilityTable,
    hours: Seq<Number>,
    row: int,
    n: nat,
    node: int,
    k: int,
) -> (at: int)
    requires
        0 <= node < n,
        0 <= k < stress_found(solved, table, hours[node], row, node).len(),
    ensures
        ({
            let all = stresses_found(solved, table, hours, row, n);
            &&& 0 <= at < all.len()
            &&& all[at] == stress_found(solved, table, hours[node], row, node)[k]
        }),
    decreases n,
{
    let m = (n - 1) as nat;
    let before = stresses_found(solved, table, hours, row, m);
    if node == m {
        before.len() + k
    } else {
        lemma_node_listed(solved, table, hours, row, m, node, k)
    }
}

/// Where the violations of a list of nodes come from.
proof fn lemma_listed_node(
    solved: Solved,
    table: &ReliabilityTable,
    hours: Seq<Number>,
    row: int,
    n: nat,
    at: int,
) -> (node: int)
    requires
        0 <= at < stresses_found(solved, table, hours, row, n).len(),
    ensures
        0 <= node < n,
        stress_found(solved, table, hours[node], row, node).contains(
            stresses_found(solved, table, hours, row, n)[at],
        ),
    decreases n,
{
    let m = (n - 1) as nat;
    let before = stresses_found(solved, table, hours, row, m);
    let own = stress_found(solved, table, hours[m as int], row, m as int);
    if at < before.len() {
        lemma_listed_node(solved, table, hours, row, m, at)
    } else {
        assert(own[at - before.len()] == stresses_found(solved, table, hours, row, n)[at]);
        m as int
    }
}

/// A node predicted to last less than the required lifetime is reported with that
/// prediction, and one further from ground than the oxide stands is reported with its
/// voltage, whichever side it is on.
pub proof fn lemma_overstressed_node_is_reported(
    solved: Solved,
    table: &ReliabilityTable,
    hours: Seq<Number>,
    row: int,
    node: int,
) -> (r: (int, int))
    requires
        0 <= node < solved.grid.nodes(),
    ensures
        ({
            let found = stresses_found(solved, table, hours, row, solved.grid.nodes() as nat);
            let volts = solved.solution.node_voltage@[node].magnitude_spec();
            let (short, over) = r;
            &&& hours[node].lt(table.required_lifetime_hours@[row]) ==> {
                &&& 0 <= short < found.len()
                &&& found[short].measured == Measurement::Ratio(hours[node])
                &&& found[short].limit == Measurement::Ratio(
                    table.required_lifetime_hours@[row],
                )
                &&& found[short].at == solved.grid.node_at@[node]
                &&& found[short].rule == table.head.rule@[row]
            }
            &&& table.max_abs_voltage@[row].lt(volts) ==> {
                &&& 0 <= over < found.len()
                &&& found[over].measured == Measurement::Voltage(volts)
                &&& found[over].limit == Measurement::Voltage(table.max_abs_voltage@[row])
                &&& found[over].at == solved.grid.node_at@[node]
                &&& found[over].rule == table.head.rule@[row]
            }
        }),
{
    let n = solved.grid.nodes() as nat;
    let own = stress_found(solved, table, hours[node], row, node);
    let over = if table.max_abs_voltage@[row].lt(
        solved.solution.node_voltage@[node].magnitude_spec(),
    ) {
        lemma_node_listed(solved, table, hours, row, n, node, 0)
    } else {
        0
    };
    let short = if hours[node].lt(table.required_lifetime_hours@[row]) {
        lemma_node_listed(solved, table, hours, row, n, node, own.len() - 1)
    } else {
        0
    };
    (short, over)
}

/// A supply whose every node lasts as long as it must, within what the oxide stands, is
/// clean; and whatever is reported is a node that does not.
pub proof fn lemma_enduring_supply_is_clean(
    solved: Solved,
    table: &ReliabilityTable,
    hours: Seq<Number>,
    row: int,
)
    ensures
        ({
            let found = stresses_found(solved, table, hours, row, solved.grid.nodes() as nat);
            &&& (forall|n: int|
                0 <= n < solved.grid.nodes() ==> !(#[trigger] hours[n]).lt(
                    table.required_lifetime_hours@[row],
                ) && !table.max_abs_voltage@[row].lt(
                    solved.solution.node_voltage@[n].magnitude_spec(),
                )) ==> found.len() == 0
            &&& forall|i: int|
                0 <= i < found.len() ==> exists|n: int|
                    0 <= n < solved.grid.nodes() && (#[trigger] hours[n]).lt(
                        table.required_lifetime_hours@[row],
                    ) && (#[trigger] found[i]).measured == Measurement::Ratio(hours[n])
                        || 0 <= n < solved.grid.nodes() && table.max_abs_voltage@[row].lt(
                        solved.solution.node_voltage@[n].magnitude_spec(),
                    ) && found[i].measured == Measurement::Voltage(
                        solved.solution.node_voltage@[n].magnitude_spec(),
                    )
        }),
{
    let n = solved.grid.nodes() as nat;
    let found = stresses_found(solved, table, hours, row, n);
    assert forall|i: int| 0 <= i < found.len() implies exists|n: int|
        0 <= n < solved.grid.nodes() && (#[trigger] hours[n]).lt(
            table.required_lifetime_hours@[row],
        ) && (#[trigger] found[i]).measured == Measurement::Ratio(hours[n]) || 0 <= n
            < solved.grid.nodes() && table.max_abs_voltage@[row].lt(
            solved.solution.node_voltage@[n].magnitude_spec(),
        ) && found[i].measured == Measurement::Voltage(
            solved.solution.node_voltage@[n].magnitude_spec(),
        ) by {
        let node = lemma_listed_node(solved, table, hours, row, n, i);
        let own = stress_found(solved, table, hours[node], row, node);
        assert(own.contains(found[i]));
        assert(hours[node] == hours[node]);
    }
    if found.len() > 0 && (forall|n: int|
        0 <= n < solved.grid.nodes() ==> !(#[trigger] hours[n]).lt(
            table.required_lifetime_hours@[row],
        ) && !table.max_abs_voltage@[row].lt(
            solved.solution.node_voltage@[n].magnitude_spec(),
        )) {
        let node = lemma_listed_node(solved, table, hours, row, n, 0);
        assert(!hours[node].lt(table.required_lifetime_hours@[row]));
        let own = stress_found(solved, table, hours[node], row, node);
        assert(own.contains(found[0]));
        assert(own.len() == 0);
    }
}

/// A row is judged exactly where its parameters are a model: stressed for a fraction of
/// the time, at temperatures and a stress above zero, with a required lifetime above
/// zero and every prediction finite.
pub proof fn lemma_row_that_is_no_model_is_refused(
    solved: Solved,
    applied: Number,
    factors: &LifetimeFactors,
    table: &ReliabilityTable,
    row: int,
)
    requires
        solved.grid.nodes() <= u64::MAX,
    ensures
        ({
            let result = reliability_row(solved, applied, factors, table, row);
            let (zero, one) = (Number { bits: 0 }, Number { bits: ONE });
            &&& result.outcome == Outcome::Ran || result.outcome == Outcome::Refused
            &&& result.outcome == Outcome::Refused ==> result.found.len() == 0
            &&& result.outcome == Outcome::Ran ==> result.examined == solved.grid.nodes()
            &&& table.duty_cycle@[row].lt(zero) || one.lt(table.duty_cycle@[row])
                || !zero.lt(applied) || !zero.lt(table.reference_temperature@[row]) || !zero.lt(
                table.reference_stress@[row],
            ) || !zero.lt(table.required_lifetime_hours@[row])
                || !table.required_lifetime_hours@[row].finite()
                || !table.stress_exponent@[row].finite() || !table.max_abs_voltage@[row].finite()
                ==> result.outcome == Outcome::Refused
        }),
{
}

/// The terminal nets' declared voltages, highest and lowest.
proof fn lemma_range(intent: &IntentMap, nets: Seq<NetId>) -> (r: (int, int))
    requires
        nets.len() > 0,
        forall|k: int|
            0 <= k < nets.len() ==> (#[trigger] intent.nominal_spec(nets[k]) matches Some(v)
                && v.finite()),
    ensures
        ({
            let (hi, lo) = r;
            &&& 0 <= hi < nets.len()
            &&& 0 <= lo < nets.len()
            &&& domain_range(intent, nets) == Some(
                (intent.nominal_spec(nets[lo])->0, intent.nominal_spec(nets[hi])->0),
            )
            &&& forall|k: int|
                0 <= k < nets.len() ==> {
                    let v = (#[trigger] intent.nominal_spec(nets[k]))->0.value();
                    intent.nominal_spec(nets[lo])->0.value() <= v
                        <= intent.nominal_spec(nets[hi])->0.value()
                }
        }),
    decreases nets.len(),
{
    let before = nets.drop_last();
    let m = before.len() as int;
    let v = intent.nominal_spec(nets[m])->0;
    assert(intent.nominal_spec(nets[m]) is Some);
    lemma_infinity();
    if m == 0 {
        reveal_with_fuel(domain_range, 2);
        crate::number::lemma_magnitude_increases(v.pattern(), INFINITE as int);
        assert(v.lt(Number { bits: INFINITE }));
        assert((Number { bits: (INFINITE + SIGN) as u64 }).lt(v));
        (0, 0)
    } else {
        assert forall|k: int| 0 <= k < before.len() implies (#[trigger] intent.nominal_spec(
            before[k],
        ) matches Some(v) && v.finite()) by {
            assert(before[k] == nets[k]);
            assert(intent.nominal_spec(nets[k]) is Some);
        }
        let (hi, lo) = lemma_range(intent, before);
        assert(before[hi] == nets[hi] && before[lo] == nets[lo]);
        let (top, bottom) = (
            intent.nominal_spec(nets[hi])->0,
            intent.nominal_spec(nets[lo])->0,
        );
        assert forall|k: int| 0 <= k < m implies ({
            let v = (#[trigger] intent.nominal_spec(nets[k]))->0.value();
            bottom.value() <= v <= top.value()
        }) by {
            assert(intent.nominal_spec(before[k])->0 == intent.nominal_spec(nets[k])->0);
        }
        (if top.lt(v) { m } else { hi }, if v.lt(bottom) { m } else { lo })
    }
}

/// A device's spread is the rounded difference of the highest and the lowest voltage
/// declared on its terminals, and is known exactly where every terminal is declared and
/// there is one.
pub proof fn lemma_spread_is_the_widest_difference(
    intent: &IntentMap,
    nets: Seq<NetId>,
) -> (r: (int, int))
    requires
        forall|k: int|
            0 <= k < nets.len() ==> (#[trigger] intent.nominal_spec(nets[k]) matches Some(v)
                ==> v.finite()),
    ensures
        domain_spread_spec(intent, nets) is Some <==> nets.len() > 0 && forall|k: int|
            0 <= k < nets.len() ==> #[trigger] intent.nominal_spec(nets[k]) is Some,
        domain_spread_spec(intent, nets) is Some ==> {
            let (hi, lo) = r;
            &&& 0 <= hi < nets.len()
            &&& 0 <= lo < nets.len()
            &&& domain_spread_spec(intent, nets) == Some(
                intent.nominal_spec(nets[hi])->0.minus_spec(intent.nominal_spec(nets[lo])->0),
            )
            &&& forall|k: int|
                0 <= k < nets.len() ==> {
                    let v = (#[trigger] intent.nominal_spec(nets[k]))->0.value();
                    intent.nominal_spec(nets[lo])->0.value() <= v
                        <= intent.nominal_spec(nets[hi])->0.value()
                }
        },
{
    lemma_infinity();
    if nets.len() == 0 {
        (0, 0)
    } else if forall|k: int|
        0 <= k < nets.len() ==> #[trigger] intent.nominal_spec(nets[k]) is Some {
        let (hi, lo) = lemma_range(intent, nets);
        assert(intent.nominal_spec(nets[0]) is Some);
        (hi, lo)
    } else {
        let k = choose|k: int| 0 <= k < nets.len() && intent.nominal_spec(nets[k]) is None;
        lemma_unknown_range(intent, nets, k);
        (0, 0)
    }
}

proof fn lemma_unknown_range(intent: &IntentMap, nets: Seq<NetId>, k: int)
    requires
        0 <= k < nets.len(),
        intent.nominal_spec(nets[k]) is None,
    ensures
        domain_range(intent, nets) is None,
    decreases nets.len(),
{
    if k < nets.len() - 1 {
        lemma_unknown_range(intent, nets.drop_last(), k);
    }
}

proof fn lemma_infinity()
    ensures
        (Number { bits: INFINITE }).pattern() == INFINITE,
        !(Number { bits: INFINITE }).negative(),
        !(Number { bits: INFINITE }).is_nan_spec(),
        (Number { bits: (INFINITE + SIGN) as u64 }).pattern() == INFINITE,
        (Number { bits: (INFINITE + SIGN) as u64 }).negative(),
        !(Number { bits: (INFINITE + SIGN) as u64 }).is_nan_spec(),
        !(Number { bits: INFINITE }).le(Number { bits: (INFINITE + SIGN) as u64 }),
{
    crate::number::lemma_magnitude_increases(0, INFINITE as int);
    assert(magnitude(0) == 0);
}

/// A device whose declared terminals lie further apart than the limit, and that no
/// isolation polygon covers, is reported with that spread; one within the limit, one
/// that is covered, and one with a terminal nobody declared are not.
pub proof fn lemma_straddling_device_is_reported(
    design: Design,
    intent: &IntentMap,
    isolation: Option<LayerId>,
    delta: Number,
    d: int,
    rule: StrId,
    severity: Severity,
) -> (r: (int, int))
    requires
        forall|k: int|
            0 <= k < design.devices.nets_of(d).len() ==> (#[trigger] intent.nominal_spec(
                design.devices.nets_of(d)[k],
            ) matches Some(v) ==> v.finite()),
    ensures
        ({
            let nets = design.devices.nets_of(d);
            let found = hv_found(design, intent, isolation, delta, d, rule, severity);
            let declared = nets.len() > 0 && forall|k: int|
                0 <= k < nets.len() ==> #[trigger] intent.nominal_spec(nets[k]) is Some;
            let (hi, lo) = r;
            let spread = intent.nominal_spec(nets[hi])->0.minus_spec(
                intent.nominal_spec(nets[lo])->0,
            );
            let marker = design.devices.marker@[d];
            let covered = isolation is Some && enclosed(
                &(design.derived.validated@[(isolation->0).0 as int]->0),
                design.store.bbox@[marker.0 as int],
            );
            &&& !declared || covered ==> found.len() == 0
            &&& declared && !covered ==> {
                &&& found.len() == (if delta.lt(spread) { 1int } else { 0 })
                &&& found.len() == 1 ==> found[0].measured == Measurement::Voltage(spread)
                    && found[0].limit == Measurement::Voltage(delta) && found[0].shapes.0
                    == marker && found[0].rule == rule
                &&& 0 <= hi < nets.len()
                &&& 0 <= lo < nets.len()
                &&& forall|k: int|
                    0 <= k < nets.len() ==> {
                        let v = (#[trigger] intent.nominal_spec(nets[k]))->0.value();
                        intent.nominal_spec(nets[lo])->0.value() <= v <= intent.nominal_spec(
                            nets[hi],
                        )->0.value()
                    }
            }
        }),
{
    lemma_spread_is_the_widest_difference(intent, design.devices.nets_of(d))
}

/// Every device is judged: what it reports is in what the row reports, which reports
/// nothing else.
pub proof fn lemma_every_device_is_judged(
    design: Design,
    intent: &IntentMap,
    isolation: Option<LayerId>,
    delta: Number,
    n: nat,
    rule: StrId,
    severity: Severity,
    d: int,
) -> (at: int)
    requires
        0 <= d < n,
    ensures
        ({
            let all = hvs_found(design, intent, isolation, delta, n, rule, severity);
            let own = hv_found(design, intent, isolation, delta, d, rule, severity);
            &&& own.len() > 0 ==> 0 <= at < all.len() && all[at] == own[0]
            &&& (forall|e: int|
                0 <= e < n ==> (#[trigger] hv_found(
                    design,
                    intent,
                    isolation,
                    delta,
                    e,
                    rule,
                    severity,
                )).len() == 0) ==> all.len() == 0
        }),
    decreases n,
{
    let m = (n - 1) as nat;
    let before = hvs_found(design, intent, isolation, delta, m, rule, severity);
    let own = hv_found(design, intent, isolation, delta, m as int, rule, severity);
    if d == m {
        if m > 0 {
            lemma_every_device_is_judged(
                design,
                intent,
                isolation,
                delta,
                m,
                rule,
                severity,
                m - 1,
            );
        }
        before.len() as int
    } else {
        lemma_every_device_is_judged(design, intent, isolation, delta, m, rule, severity, d)
    }
}

} // verus!
