//! What temperature does to a limit.
use crate::addition::lemma_nearest;
use crate::number::{magnitude, Number, INFINITE, ONE};
use crate::rounding::lemma_quotient_falls;
use crate::rules::electrical::{arrhenius_power, arrhenius_usable, BOLTZMANN_EV_PER_K};
use crate::rules::reliability::thermal_power;
use vstd::prelude::*;

verus! {

/// Not a number, or with no minus sign.
spec fn rising(x: Number) -> bool {
    x.is_nan_spec() || !x.negative()
}

/// Not a number, or zero without a minus sign, or with a minus sign.
spec fn falling(x: Number) -> bool {
    x.is_nan_spec() || x.negative() || x.pattern() == 0
}

proof fn lemma_times_rising(a: Number, b: Number)
    requires
        rising(a),
        rising(b),
    ensures
        rising(a.times_spec(b)),
{
    if a.finite() && b.finite() && a.pattern() > 0 && b.pattern() > 0 {
        let d = vstd::arithmetic::power2::pow2(1074);
        vstd::arithmetic::power2::lemma_pow2_pos(1074);
        lemma_nearest(magnitude(a.pattern()) * magnitude(b.pattern()), d);
    }
}

proof fn lemma_over_rising(a: Number, b: Number)
    requires
        rising(a),
        rising(b),
    ensures
        rising(a.over_spec(b)),
{
    if a.finite() && b.finite() && a.pattern() > 0 && b.pattern() > 0 {
        crate::number::lemma_magnitude_increases(0, b.pattern());
        lemma_nearest(
            magnitude(a.pattern()) * vstd::arithmetic::power2::pow2(1074),
            magnitude(b.pattern()),
        );
    }
}

proof fn lemma_times_falling(a: Number, b: Number)
    requires
        rising(a),
        falling(b),
    ensures
        falling(a.times_spec(b)),
{
    if a.finite() && b.finite() && a.pattern() > 0 && b.pattern() > 0 {
        let d = vstd::arithmetic::power2::pow2(1074);
        vstd::arithmetic::power2::lemma_pow2_pos(1074);
        lemma_nearest(magnitude(a.pattern()) * magnitude(b.pattern()), d);
    }
}

/// A number less one that is no smaller never rises above zero.
proof fn lemma_minus_falling(a: Number, b: Number)
    requires
        a.upward(),
        b.upward(),
        a.le(b),
    ensures
        falling(a.minus_spec(b)),
{
    if a.finite() && b.finite() {
        let gap = a.value() - b.value();
        if gap < 0 {
            lemma_nearest((-gap) as nat, 1);
        }
    } else if a.finite() {
        assert(b.negated_spec().negative());
    } else {
        crate::addition::lemma_magnitude_order(b.pattern(), INFINITE as int);
        if b.finite() {
            crate::number::lemma_magnitude_increases(b.pattern(), INFINITE as int);
        }
    }
}

/// A hotter operating point never derates a limit upward: the power of e it is
/// scaled by is not above zero.
pub proof fn lemma_hotter_never_allows_more(
    operating: Number,
    reference: Number,
    activation_energy_ev: Number,
    current_exponent: Number,
)
    requires
        arrhenius_usable(operating, reference, activation_energy_ev, current_exponent),
        reference.le(operating),
    ensures
        !(Number { bits: 0 }).lt(
            arrhenius_power(operating, reference, activation_energy_ev, current_exponent),
        ),
{
    let one = Number { bits: ONE };
    let zero = Number { bits: 0 };
    assert(magnitude(0) == 0);
    assert(!operating.negative() && operating.pattern() > 0);
    assert(!reference.negative() && reference.pattern() > 0);
    if operating.pattern() < reference.pattern() {
        crate::number::lemma_magnitude_increases(operating.pattern(), reference.pattern());
    }
    lemma_quotient_falls(one, reference, operating);
    let k = Number { bits: BOLTZMANN_EV_PER_K };
    let scale = activation_energy_ev.over_spec(current_exponent.times_spec(k));
    assert(!current_exponent.negative());
    lemma_times_rising(current_exponent, k);
    let gap = one.over_spec(operating).minus_spec(one.over_spec(reference));
    lemma_minus_falling(one.over_spec(operating), one.over_spec(reference));
    if activation_energy_ev.negative() {
        assert(activation_energy_ev.pattern() == 0) by {
            if activation_energy_ev.pattern() > 0 {
                crate::number::lemma_magnitude_increases(0, activation_energy_ev.pattern());
            }
        }
        assert(scale.is_nan_spec() || scale.pattern() == 0);
        assert(gap.is_nan_spec() || !gap.finite() || scale.times_spec(gap).is_nan_spec()
            || scale.times_spec(gap).pattern() == 0);
    } else {
        lemma_over_rising(activation_energy_ev, current_exponent.times_spec(k));
        lemma_times_falling(scale, gap);
    }
}

/// A hotter operating point never lengthens a lifetime: the power of e it is scaled
/// by is not above zero.
pub proof fn lemma_hotter_never_lasts_longer(energy: Number, applied: Number, reference: Number)
    requires
        energy.finite() && (Number { bits: 0 }).le(energy),
        applied.finite() && (Number { bits: 0 }).lt(applied),
        reference.finite() && (Number { bits: 0 }).lt(reference),
        reference.le(applied),
    ensures
        !(Number { bits: 0 }).lt(thermal_power(energy, applied, reference)),
{
    let one = Number { bits: ONE };
    assert(magnitude(0) == 0);
    assert(!applied.negative() && applied.pattern() > 0);
    assert(!reference.negative() && reference.pattern() > 0);
    if applied.pattern() < reference.pattern() {
        crate::number::lemma_magnitude_increases(applied.pattern(), reference.pattern());
    }
    lemma_quotient_falls(one, reference, applied);
    let k = Number { bits: BOLTZMANN_EV_PER_K };
    let scale = energy.over_spec(k);
    let gap = one.over_spec(applied).minus_spec(one.over_spec(reference));
    lemma_minus_falling(one.over_spec(applied), one.over_spec(reference));
    if energy.negative() {
        assert(energy.pattern() == 0) by {
            if energy.pattern() > 0 {
                crate::number::lemma_magnitude_increases(0, energy.pattern());
            }
        }
        assert(scale.pattern() == 0);
    } else {
        lemma_over_rising(energy, k);
        lemma_times_falling(scale, gap);
    }
}

} // verus!
