//! Which parameter of a deck each column of a rule table is.
use crate::deck::{ParamValue, RuleTable};
use crate::filing::{
    antenna_fault, antenna_electrical_fault, electromigration_fault, em_current_density_fault, esd_latchup_fault, esd_topological_fault, floating_well_fault, hv_domain_fault, missing_tie_fault, multiple_drivers_fault, p2p_resistance_fault, reliability_fault, soft_connection_fault, supply_short_fault, unconnected_pin_fault, ir_drop_fault, floating_gate_fault, tie_high_low_fault, duty_fault, density_cmp_fault,
    head_holds,
    antenna_electrical_holds, antenna_holds, density_cmp_holds, electromigration_holds,
    em_current_density_holds, esd_latchup_holds, esd_topological_holds, floating_well_holds,
    hv_domain_holds, missing_tie_holds, multiple_drivers_holds, p2p_resistance_holds,
    reliability_holds, row_at, run, soft_connection_holds, supply_short_holds,
    unconnected_pin_holds,
};
use crate::model::{LayerId, LayerRef};
use crate::number::{Number, ONE};
use crate::report::Severity;
use crate::rules::antenna::{AntennaElectricalTable, AntennaMeasure, AntennaTable};
use crate::rules::density::DensityCmpTable;
use crate::rules::electrical::{
    ElectromigrationTable, EmCurrentDensityTable, P2pResistanceTable,
};
use crate::rules::latchup::EsdLatchupTable;
use crate::rules::missing_tie::MissingTieTable;
use crate::rules::reliability::{HvDomainTable, ReliabilityTable};
use crate::rules::supply::{EsdTopologicalTable, SoftConnectionTable, SupplyShortTable};
use crate::rules::topology::{FloatingWellTable, MultipleDriversTable, UnconnectedPinTable};
use crate::ruleset::RuleHead;
use crate::text::StrTable;
use vstd::prelude::*;

verus! {

/// A deck's rows, and the texts they are named by.
pub ghost struct Script<'a> {
    pub rules: &'a RuleTable,
    pub strings: &'a StrTable,
}

impl<'a> Script<'a> {
    /// Whether parameter `k` of the deck is row `s`'s first one under a text, and has a
    /// value.
    pub open spec fn stands(self, s: u32, param: Seq<char>, v: ParamValue, k: int) -> bool {
        let row = self.rules.spec@[s as int];
        &&& row.param_start <= k < row.param_start + row.param_len
        &&& self.strings.id_of(param) == Some(self.rules.param_name@[k])
        &&& forall|j: int|
            row.param_start <= j < k ==> #[trigger] self.rules.param_name@[j]
                != self.rules.param_name@[k]
        &&& self.rules.param_value@[k] == v
    }

    /// Whether row `s` gives a parameter a value.
    pub open spec fn says(self, s: u32, param: Seq<char>, v: ParamValue) -> bool {
        exists|k: int| #[trigger] self.stands(s, param, v, k)
    }

    pub open spec fn number(self, s: u32, param: Seq<char>, v: Number) -> bool {
        self.says(s, param, ParamValue::Ratio(v))
    }

    pub open spec fn length(self, s: u32, param: Seq<char>, v: i64) -> bool {
        self.says(s, param, ParamValue::Length(v))
    }

    /// Whether row `s` gives a parameter no value.
    pub open spec fn silent(self, s: u32, param: Seq<char>) -> bool {
        forall|v: ParamValue| !#[trigger] self.says(s, param, v)
    }

    /// Layer `j` of row `s`.
    pub open spec fn layer(self, s: u32, j: int) -> LayerId {
        self.rules.layer@[self.rules.spec@[s as int].layer_start + j]
    }

    /// How many layers row `s` has.
    pub open spec fn layers(self, s: u32) -> int {
        self.rules.spec@[s as int].layer_len as int
    }

    /// Whether row `s`'s layers are in the deck.
    pub open spec fn in_range(self, s: u32) -> bool {
        let row = self.rules.spec@[s as int];
        row.layer_start + row.layer_len <= self.rules.layer@.len()
    }
}

/// What a row says of a parameter is what is read of it.
proof fn lemma_read(d: Script, s: u32)
    ensures
        forall|param: Seq<char>, v: ParamValue| #[trigger]
            d.says(s, param, v) ==> row_at(d.rules, d.strings, s).stated(param) == Some(v),
        forall|param: Seq<char>| #[trigger]
            d.silent(s, param) ==> row_at(d.rules, d.strings, s).stated(param) is None,
        d.in_range(s) ==> row_at(d.rules, d.strings, s).listed().len() == d.layers(s),
        d.in_range(s) ==> forall|j: int|
            0 <= j < d.layers(s) ==> #[trigger] row_at(d.rules, d.strings, s).listed()[j]
                == d.layer(s, j),
{
    assert forall|param: Seq<char>, v: ParamValue| #[trigger] d.says(s, param, v) implies row_at(
        d.rules,
        d.strings,
        s,
    ).stated(param) == Some(v) by {
        let k = choose|k: int| #[trigger] d.stands(s, param, v, k);
        let id = d.rules.param_name@[k];
        let at = row_at(d.rules, d.strings, s).at as int;
        assert(d.rules.states(at, id, k));
        let c = choose|c: int| d.rules.states(at, id, c);
        assert(d.rules.states(at, id, c));
        assert(c == k);
    }
    assert forall|param: Seq<char>| #[trigger] d.silent(s, param) implies row_at(
        d.rules,
        d.strings,
        s,
    ).stated(param) is None by {
        let at = row_at(d.rules, d.strings, s).at as int;
        if row_at(d.rules, d.strings, s).stated(param) is Some {
            let id = d.strings.id_of(param)->0;
            let c = choose|c: int| d.rules.states(at, id, c);
            assert(d.rules.states(at, id, c));
            assert(d.stands(s, param, d.rules.param_value@[c], c));
            assert(d.says(s, param, d.rules.param_value@[c]));
        }
    }
}

/// An antenna row's first layer is its gate and the rest collect; its limit is
/// `max_ratio`.
pub proof fn lemma_antenna_row(t: &AntennaTable, d: Script, rows: Seq<u32>, i: int)
    requires
        antenna_holds(t, d.rules, d.strings, rows),
        0 <= i < rows.len(),
        d.in_range(rows[i]),
    ensures
        d.layers(rows[i]) > 0 ==> t.gate@[i] == LayerRef::Base(d.layer(rows[i], 0)),
        forall|v: Number| #[trigger]
            d.number(rows[i], "max_ratio"@, v) ==> t.max_ratio@[i] == v,
        forall|j: int|
            1 <= j < d.layers(rows[i]) ==> run(t.collector_start@, t.collector@, i)[j - 1] == LayerRef::Base(
            #[trigger] d.layer(rows[i], j),
        ),
        d.layers(rows[i]) > 1 && d.silent(rows[i], "sidewall_thickness"@) ==> run(
            t.collector_start@,
            t.collector_measure@,
            i,
        )[0] == AntennaMeasure::Area,
{
    lemma_read(d, rows[i]);
    let r = row_at(d.rules, d.strings, rows[i]);
    assert forall|j: int| 1 <= j < d.layers(rows[i]) implies run(t.collector_start@, t.collector@, i)[j - 1] == LayerRef::Base(
            #[trigger] d.layer(rows[i], j),
        ) by {
        assert(r.listed()[j] == d.layer(rows[i], j));
    }
    assert(r.listed()[0] == d.layer(rows[i], 0) || d.layers(rows[i]) == 0);
}

/// A cumulative antenna row's first layer is its gate and the rest collect; a credit or a
/// bonus it leaves out is nothing.
pub proof fn lemma_cumulative_antenna_row(t: &AntennaElectricalTable, d: Script, rows: Seq<u32>, i: int)
    requires
        antenna_electrical_holds(t, d.rules, d.strings, rows),
        0 <= i < rows.len(),
        d.in_range(rows[i]),
    ensures
        d.layers(rows[i]) > 0 ==> t.gate@[i] == LayerRef::Base(d.layer(rows[i], 0)),
        forall|v: Number| #[trigger]
            d.number(rows[i], "max_ratio"@, v) ==> t.max_ratio@[i] == v,
        forall|v: Number| #[trigger]
            d.number(rows[i], "diode_credit"@, v) ==> t.diode_credit@[i] == v,
        forall|v: Number| #[trigger]
            d.number(rows[i], "diode_bonus"@, v) ==> t.diode_bonus@[i] == v,
        d.silent(rows[i], "diode_credit"@) ==> t.diode_credit@[i] == (Number { bits: 0 }),
        d.silent(rows[i], "diode_bonus"@) ==> t.diode_bonus@[i] == (Number { bits: 0 }),
        forall|v: LayerId| #[trigger]
            d.says(rows[i], "diode_layer"@, ParamValue::Layer(v)) ==> t.diode@[i] == Some(
                LayerRef::Base(v),
            ),
        d.silent(rows[i], "diode_layer"@) ==> t.diode@[i] is None,
        forall|j: int|
            1 <= j < d.layers(rows[i]) ==> run(t.collector_start@, t.collector@, i)[j - 1] == LayerRef::Base(
            #[trigger] d.layer(rows[i], j),
        ),
{
    lemma_read(d, rows[i]);
    let r = row_at(d.rules, d.strings, rows[i]);
    assert forall|j: int| 1 <= j < d.layers(rows[i]) implies run(t.collector_start@, t.collector@, i)[j - 1] == LayerRef::Base(
            #[trigger] d.layer(rows[i], j),
        ) by {
        assert(r.listed()[j] == d.layer(rows[i], j));
    }
    assert(r.listed()[0] == d.layer(rows[i], 0) || d.layers(rows[i]) == 0);
}

/// A density row's windows, steps and bounds are the ones it states, across first;
/// windows cut off by the die count unless it says not.
pub proof fn lemma_density_row(t: &DensityCmpTable, d: Script, rows: Seq<u32>, i: int)
    requires
        density_cmp_holds(t, d.rules, d.strings, rows),
        0 <= i < rows.len(),
        d.in_range(rows[i]),
    ensures
        d.layers(rows[i]) > 0 ==> t.layer@[i] == LayerRef::Base(d.layer(rows[i], 0)),
        forall|x: i64, y: i64| #[trigger]
            d.length(rows[i], "window_x"@, x) && #[trigger] d.length(rows[i], "window_y"@, y)
                ==> t.window@[i] == (x, y),
        forall|x: i64, y: i64| #[trigger]
            d.length(rows[i], "step_x"@, x) && #[trigger] d.length(rows[i], "step_y"@, y)
                ==> t.step@[i] == (x, y),
        forall|v: Number| #[trigger]
            d.number(rows[i], "min_density"@, v) ==> t.min_density@[i] == Some(v),
        forall|v: Number| #[trigger]
            d.number(rows[i], "max_density"@, v) ==> t.max_density@[i] == Some(v),
        forall|v: Number| #[trigger]
            d.number(rows[i], "max_neighbour_delta"@, v) ==> t.max_neighbour_delta@[i] == Some(v),
        d.silent(rows[i], "min_density"@) ==> t.min_density@[i] is None,
        d.silent(rows[i], "max_density"@) ==> t.max_density@[i] is None,
        d.silent(rows[i], "max_neighbour_delta"@) ==> t.max_neighbour_delta@[i] is None,
        forall|v: bool| #[trigger]
            d.says(rows[i], "include_partial_windows"@, ParamValue::Flag(v))
                ==> t.include_partial_windows@[i] == v,
        d.silent(rows[i], "include_partial_windows"@) ==> t.include_partial_windows@[i],
{
    lemma_read(d, rows[i]);
    let r = row_at(d.rules, d.strings, rows[i]);
    assert(r.listed()[0] == d.layer(rows[i], 0) || d.layers(rows[i]) == 0);
}

/// A density row's thickness model is the one it states.
pub proof fn lemma_thickness_model(t: &DensityCmpTable, d: Script, rows: Seq<u32>, i: int)
    requires
        density_cmp_holds(t, d.rules, d.strings, rows),
        0 <= i < rows.len(),
        d.in_range(rows[i]),
    ensures
        forall|target: Number, nominal: i64, sensitivity: i64, delta: i64|
            #![trigger d.number(rows[i], "cmp_target_density"@, target), d.length(rows[i], "cmp_nominal_thickness"@, nominal), d.length(rows[i], "cmp_thickness_sensitivity"@, sensitivity), d.length(rows[i], "cmp_max_abs_thickness_delta"@, delta)]
            d.number(rows[i], "cmp_target_density"@, target) && d.length(
                rows[i],
                "cmp_nominal_thickness"@,
                nominal,
            ) && d.length(rows[i], "cmp_thickness_sensitivity"@, sensitivity) && d.length(
                rows[i],
                "cmp_max_abs_thickness_delta"@,
                delta,
            ) ==> {
                let m = t.cmp@[i];
                &&& m is Some
                &&& m->0.target_density == target
                &&& m->0.nominal_thickness == nominal
                &&& m->0.thickness_sensitivity == sensitivity
                &&& m->0.max_abs_thickness_delta == delta
            },
        d.silent(rows[i], "cmp_target_density"@) ==> t.cmp@[i] is None,
{
    lemma_read(d, rows[i]);
}

/// An electromigration row holds each of its layers to the limits it states.
pub proof fn lemma_electromigration_row(t: &ElectromigrationTable, d: Script, rows: Seq<u32>, i: int)
    requires
        electromigration_holds(t, d.rules, d.strings, rows),
        0 <= i < rows.len(),
        d.in_range(rows[i]),
    ensures
        forall|v: Number| #[trigger]
            d.number(rows[i], "reference_temperature"@, v) ==> t.reference_temperature@[i] == v,
        forall|v: Number| #[trigger]
            d.number(rows[i], "activation_energy_ev"@, v) ==> t.activation_energy_ev@[i] == v,
        forall|v: Number| #[trigger]
            d.number(rows[i], "current_exponent"@, v) ==> t.current_exponent@[i] == v,
        forall|j: int|
            0 <= j < d.layers(rows[i]) ==> run(t.layer_start@, t.layer@, i)[j]
            == #[trigger] d.layer(rows[i], j),
        forall|v: Number, j: int| #[trigger]
            d.number(rows[i], "max_density"@, v) && 0 <= j < d.layers(rows[i]) ==> #[trigger] run(
                t.layer_start@,
                t.max_density@,
                i,
            )[j] == v,
        forall|v: Number, j: int| #[trigger]
            d.number(rows[i], "max_current_per_cut"@, v) && 0 <= j < d.layers(rows[i]) ==> #[trigger] run(
                t.layer_start@,
                t.max_current_per_cut@,
                i,
            )[j] == v,
        forall|v: Number, j: int| #[trigger]
            d.number(rows[i], "blech_limit"@, v) && 0 <= j < d.layers(rows[i]) ==> #[trigger] run(
                t.layer_start@,
                t.blech_limit@,
                i,
            )[j] == v,
{
    lemma_read(d, rows[i]);
    let r = row_at(d.rules, d.strings, rows[i]);
    assert forall|j: int| 0 <= j < d.layers(rows[i]) implies run(t.layer_start@, t.layer@, i)[j]
            == #[trigger] d.layer(rows[i], j) by {
        assert(r.listed()[j] == d.layer(rows[i], j));
    }
}

/// A current-density row holds each of its layers to the limits it states.
pub proof fn lemma_current_density_row(t: &EmCurrentDensityTable, d: Script, rows: Seq<u32>, i: int)
    requires
        em_current_density_holds(t, d.rules, d.strings, rows),
        0 <= i < rows.len(),
        d.in_range(rows[i]),
    ensures
        forall|j: int|
            0 <= j < d.layers(rows[i]) ==> run(t.layer_start@, t.layer@, i)[j]
            == #[trigger] d.layer(rows[i], j),
        forall|v: Number, j: int| #[trigger]
            d.number(rows[i], "max_density"@, v) && 0 <= j < d.layers(rows[i]) ==> #[trigger] run(
                t.layer_start@,
                t.max_density@,
                i,
            )[j] == v,
        forall|v: Number, j: int| #[trigger]
            d.number(rows[i], "max_current_per_cut"@, v) && 0 <= j < d.layers(rows[i]) ==> #[trigger] run(
                t.layer_start@,
                t.max_current_per_cut@,
                i,
            )[j] == v,
{
    lemma_read(d, rows[i]);
    let r = row_at(d.rules, d.strings, rows[i]);
    assert forall|j: int| 0 <= j < d.layers(rows[i]) implies run(t.layer_start@, t.layer@, i)[j]
            == #[trigger] d.layer(rows[i], j) by {
        assert(r.listed()[j] == d.layer(rows[i], j));
    }
}

/// A latch-up row's first layer holds its pads and its second its guard rings; each limit
/// is the one stated under its own name.
pub proof fn lemma_latchup_row(t: &EsdLatchupTable, d: Script, rows: Seq<u32>, i: int)
    requires
        esd_latchup_holds(t, d.rules, d.strings, rows),
        0 <= i < rows.len(),
        d.in_range(rows[i]),
    ensures
        d.layers(rows[i]) > 0 ==> t.pad@[i] == d.layer(rows[i], 0),
        d.layers(rows[i]) > 1 ==> t.guard_ring@[i] == d.layer(rows[i], 1),
        forall|v: Number| #[trigger]
            d.number(rows[i], "required_current"@, v) ==> t.required_current@[i] == v,
        forall|v: Number| #[trigger]
            d.number(rows[i], "max_path_resistance"@, v) ==> t.max_path_resistance@[i] == v,
        forall|v: Number| #[trigger]
            d.number(rows[i], "max_clamp_voltage"@, v) ==> t.max_clamp_voltage@[i] == v,
        forall|v: i64| #[trigger]
            d.length(rows[i], "min_guard_ring_width"@, v) ==> t.min_guard_ring_width@[i] == v,
        forall|v: i64| #[trigger]
            d.length(rows[i], "max_tap_distance"@, v) ==> t.max_tap_distance@[i] == v,
{
    lemma_read(d, rows[i]);
    let r = row_at(d.rules, d.strings, rows[i]);
    assert(r.listed()[0] == d.layer(rows[i], 0) || d.layers(rows[i]) == 0);
    assert(r.listed()[1] == d.layer(rows[i], 1) || d.layers(rows[i]) <= 1);
}

/// A clamp row's layer holds its pads.
pub proof fn lemma_clamp_row(t: &EsdTopologicalTable, d: Script, rows: Seq<u32>, i: int)
    requires
        esd_topological_holds(t, d.rules, d.strings, rows),
        0 <= i < rows.len(),
        d.in_range(rows[i]),
    ensures
        d.layers(rows[i]) > 0 ==> t.pad@[i] == d.layer(rows[i], 0),
{
    lemma_read(d, rows[i]);
    let r = row_at(d.rules, d.strings, rows[i]);
    assert(r.listed()[0] == d.layer(rows[i], 0) || d.layers(rows[i]) == 0);
}

/// A floating-well row's first layer holds wells and its second their taps.
pub proof fn lemma_well_row(t: &FloatingWellTable, d: Script, rows: Seq<u32>, i: int)
    requires
        floating_well_holds(t, d.rules, d.strings, rows),
        0 <= i < rows.len(),
        d.in_range(rows[i]),
    ensures
        d.layers(rows[i]) > 0 ==> t.well@[i] == LayerRef::Base(d.layer(rows[i], 0)),
        d.layers(rows[i]) > 1 ==> t.tap@[i] == LayerRef::Base(d.layer(rows[i], 1)),
{
    lemma_read(d, rows[i]);
    let r = row_at(d.rules, d.strings, rows[i]);
    assert(r.listed()[0] == d.layer(rows[i], 0) || d.layers(rows[i]) == 0);
    assert(r.listed()[1] == d.layer(rows[i], 1) || d.layers(rows[i]) <= 1);
}

/// A voltage-domain row's limit and isolation layer are the ones it states.
pub proof fn lemma_domain_row(t: &HvDomainTable, d: Script, rows: Seq<u32>, i: int)
    requires
        hv_domain_holds(t, d.rules, d.strings, rows),
        0 <= i < rows.len(),
        d.in_range(rows[i]),
    ensures
        forall|v: Number| #[trigger]
            d.number(rows[i], "max_domain_delta"@, v) ==> t.max_domain_delta@[i] == v,
        forall|v: LayerId| #[trigger]
            d.says(rows[i], "isolation"@, ParamValue::Layer(v)) ==> t.isolation@[i] == Some(v),
        d.silent(rows[i], "isolation"@) ==> t.isolation@[i] is None,
{
    lemma_read(d, rows[i]);
}

/// A missing-tie row's first layer holds regions and its second their ties.
pub proof fn lemma_tie_row(t: &MissingTieTable, d: Script, rows: Seq<u32>, i: int)
    requires
        missing_tie_holds(t, d.rules, d.strings, rows),
        0 <= i < rows.len(),
        d.in_range(rows[i]),
    ensures
        d.layers(rows[i]) > 0 ==> t.region@[i] == LayerRef::Base(d.layer(rows[i], 0)),
        d.layers(rows[i]) > 1 ==> t.tap@[i] == LayerRef::Base(d.layer(rows[i], 1)),
        forall|v: i64| #[trigger]
            d.length(rows[i], "max_distance"@, v) ==> t.max_distance@[i] == v,
{
    lemma_read(d, rows[i]);
    let r = row_at(d.rules, d.strings, rows[i]);
    assert(r.listed()[0] == d.layer(rows[i], 0) || d.layers(rows[i]) == 0);
    assert(r.listed()[1] == d.layer(rows[i], 1) || d.layers(rows[i]) <= 1);
}

/// A driver row permits as many drivers as it states.
pub proof fn lemma_driver_row(t: &MultipleDriversTable, d: Script, rows: Seq<u32>, i: int)
    requires
        multiple_drivers_holds(t, d.rules, d.strings, rows),
        0 <= i < rows.len(),
        d.in_range(rows[i]),
    ensures
        forall|v: u32| #[trigger]
            d.says(rows[i], "max_drivers"@, ParamValue::Count(v)) ==> t.max_drivers@[i] == v,
{
    lemma_read(d, rows[i]);
}

/// A resistance row's limit is the one it states.
pub proof fn lemma_resistance_row(t: &P2pResistanceTable, d: Script, rows: Seq<u32>, i: int)
    requires
        p2p_resistance_holds(t, d.rules, d.strings, rows),
        0 <= i < rows.len(),
        d.in_range(rows[i]),
    ensures
        forall|v: Number| #[trigger]
            d.number(rows[i], "max_resistance"@, v) ==> t.max_resistance@[i] == v,
{
    lemma_read(d, rows[i]);
}

/// Each coefficient of a lifetime row is the one stated under its own name.
pub proof fn lemma_lifetime_row(t: &ReliabilityTable, d: Script, rows: Seq<u32>, i: int)
    requires
        reliability_holds(t, d.rules, d.strings, rows),
        0 <= i < rows.len(),
        d.in_range(rows[i]),
    ensures
        forall|v: Number| #[trigger]
            d.number(rows[i], "required_lifetime_hours"@, v) ==> t.required_lifetime_hours@[i] == v,
        forall|v: Number| #[trigger]
            d.number(rows[i], "reference_lifetime_hours"@, v) ==> t.reference_lifetime_hours@[i] == v,
        forall|v: Number| #[trigger]
            d.number(rows[i], "reference_stress"@, v) ==> t.reference_stress@[i] == v,
        forall|v: Number| #[trigger]
            d.number(rows[i], "stress_exponent"@, v) ==> t.stress_exponent@[i] == v,
        forall|v: Number| #[trigger]
            d.number(rows[i], "reference_temperature"@, v) ==> t.reference_temperature@[i] == v,
        forall|v: Number| #[trigger]
            d.number(rows[i], "activation_energy_ev"@, v) ==> t.activation_energy_ev@[i] == v,
        forall|v: Number| #[trigger]
            d.number(rows[i], "max_abs_voltage"@, v) ==> t.max_abs_voltage@[i] == v,
        forall|v: Number| #[trigger]
            d.number(rows[i], "duty_cycle"@, v) ==> t.duty_cycle@[i] == v,
{
    lemma_read(d, rows[i]);
}

/// Every layer of a soft-connection row is soft.
pub proof fn lemma_soft_row(t: &SoftConnectionTable, d: Script, rows: Seq<u32>, i: int)
    requires
        soft_connection_holds(t, d.rules, d.strings, rows),
        0 <= i < rows.len(),
        d.in_range(rows[i]),
    ensures
        forall|j: int|
            0 <= j < d.layers(rows[i]) ==> run(t.soft_start@, t.soft@, i)[j] == LayerRef::Base(
            #[trigger] d.layer(rows[i], j),
        ),
{
    lemma_read(d, rows[i]);
    let r = row_at(d.rules, d.strings, rows[i]);
    assert forall|j: int| 0 <= j < d.layers(rows[i]) implies run(t.soft_start@, t.soft@, i)[j] == LayerRef::Base(
            #[trigger] d.layer(rows[i], j),
        ) by {
        assert(r.listed()[j] == d.layer(rows[i], j));
    }
}

/// A supply-short row's two layers are its two taps.
pub proof fn lemma_short_row(t: &SupplyShortTable, d: Script, rows: Seq<u32>, i: int)
    requires
        supply_short_holds(t, d.rules, d.strings, rows),
        0 <= i < rows.len(),
        d.in_range(rows[i]),
    ensures
        d.layers(rows[i]) > 0 ==> t.tap_a@[i] == LayerRef::Base(d.layer(rows[i], 0)),
        d.layers(rows[i]) > 1 ==> t.tap_b@[i] == LayerRef::Base(d.layer(rows[i], 1)),
{
    lemma_read(d, rows[i]);
    let r = row_at(d.rules, d.strings, rows[i]);
    assert(r.listed()[0] == d.layer(rows[i], 0) || d.layers(rows[i]) == 0);
    assert(r.listed()[1] == d.layer(rows[i], 1) || d.layers(rows[i]) <= 1);
}

/// Every layer of an unconnected-pin row is looked at.
pub proof fn lemma_pin_row(t: &UnconnectedPinTable, d: Script, rows: Seq<u32>, i: int)
    requires
        unconnected_pin_holds(t, d.rules, d.strings, rows),
        0 <= i < rows.len(),
        d.in_range(rows[i]),
    ensures
        forall|j: int|
            0 <= j < d.layers(rows[i]) ==> run(t.layer_start@, t.layer@, i)[j]
            == #[trigger] d.layer(rows[i], j),
{
    lemma_read(d, rows[i]);
    let r = row_at(d.rules, d.strings, rows[i]);
    assert forall|j: int| 0 <= j < d.layers(rows[i]) implies run(t.layer_start@, t.layer@, i)[j]
            == #[trigger] d.layer(rows[i], j) by {
        assert(r.listed()[j] == d.layer(rows[i], j));
    }
}

/// A filed row keeps its deck's id, and is an error unless the deck flags it a warning.
pub proof fn lemma_head_row(t: &RuleHead, d: Script, rows: Seq<u32>, i: int)
    requires
        head_holds(t, d.rules, d.strings, rows),
        0 <= i < rows.len(),
    ensures
        t.rule@[i] == d.rules.spec@[rows[i] as int].id,
        d.says(rows[i], "warning"@, ParamValue::Flag(true)) ==> t.severity@[i]
            == Severity::Warning,
        d.says(rows[i], "warning"@, ParamValue::Flag(false)) ==> t.severity@[i]
            == Severity::Error,
        d.silent(rows[i], "warning"@) ==> t.severity@[i] == Severity::Error,
{
    lemma_read(d, rows[i]);
}

impl<'a> Script<'a> {
    /// Whether row `s` gives a parameter a finite number above zero.
    pub open spec fn positive(self, s: u32, param: Seq<char>) -> bool {
        exists|v: Number| #[trigger]
            self.number(s, param, v) && v.finite() && (Number { bits: 0 }).lt(v)
    }

    /// Whether row `s` gives a parameter a finite number.
    pub open spec fn finite(self, s: u32, param: Seq<char>) -> bool {
        exists|v: Number| #[trigger] self.number(s, param, v) && v.finite()
    }

    /// Whether row `s` gives a parameter a number from zero to one.
    pub open spec fn fraction(self, s: u32, param: Seq<char>) -> bool {
        exists|v: Number| #[trigger]
            self.number(s, param, v) && v.finite() && (Number { bits: 0 }).le(v) && v.le(
                Number { bits: ONE },
            )
    }

    /// Whether row `s` gives a parameter a length above zero.
    pub open spec fn long(self, s: u32, param: Seq<char>) -> bool {
        exists|v: i64| #[trigger] self.length(s, param, v) && v > 0
    }

    /// Whether row `s` gives a parameter a layer.
    pub open spec fn on_layer(self, s: u32, param: Seq<char>) -> bool {
        exists|v: LayerId| #[trigger] self.says(s, param, ParamValue::Layer(v))
    }

    /// Whether row `s` gives a parameter a flag.
    pub open spec fn flagged(self, s: u32, param: Seq<char>) -> bool {
        exists|v: bool| #[trigger] self.says(s, param, ParamValue::Flag(v))
    }

    /// Whether row `s` gives a parameter a count.
    pub open spec fn counted(self, s: u32, param: Seq<char>) -> bool {
        exists|v: u32| #[trigger] self.says(s, param, ParamValue::Count(v)) && v > 0
    }

    /// Whether row `s` says nothing of being a warning, or flags it.
    pub open spec fn graded(self, s: u32) -> bool {
        self.silent(s, "warning"@) || self.flagged(s, "warning"@)
    }
}

/// What is read of a parameter is what a row says of it.
proof fn lemma_said(d: Script, s: u32, param: Seq<char>)
    ensures
        row_at(d.rules, d.strings, s).stated(param) matches Some(v) ==> d.says(s, param, v),
        row_at(d.rules, d.strings, s).stated(param) is None ==> d.silent(s, param),
{
    lemma_read(d, s);
    let at = row_at(d.rules, d.strings, s).at as int;
    if row_at(d.rules, d.strings, s).stated(param) is Some {
        let id = d.strings.id_of(param)->0;
        let c = choose|c: int| d.rules.states(at, id, c);
        assert(d.rules.states(at, id, c));
        assert(d.stands(s, param, d.rules.param_value@[c], c));
    }
}

/// Which parameters are at fault.
proof fn lemma_faults(d: Script, s: u32, param: Seq<char>)
    ensures
        ({
            let r = row_at(d.rules, d.strings, s);
            &&& r.positive_fault(param) is None <==> d.positive(s, param)
            &&& r.opt_number_fault(param) is None <==> d.silent(s, param) || d.finite(s, param)
            &&& r.fraction_fault(param) is None <==> d.fraction(s, param)
            &&& r.opt_fraction_fault(param) is None <==> d.silent(s, param) || d.fraction(
                s,
                param,
            )
            &&& r.length_fault(param) is None <==> d.long(s, param)
            &&& r.opt_length_fault(param) is None <==> d.silent(s, param) || d.long(s, param)
            &&& r.opt_layer_fault(param) is None <==> d.silent(s, param) || d.on_layer(s, param)
            &&& r.flag_fault(param) is None <==> d.silent(s, param) || d.flagged(s, param)
            &&& r.count_fault(param) is None && r.count_of(param) != 0 <==> d.counted(s, param)
        }),
{
    lemma_read(d, s);
    lemma_said(d, s, param);
    let r = row_at(d.rules, d.strings, s);
    match r.stated(param) {
        Some(ParamValue::Ratio(v)) => {
            assert(d.number(s, param, v));
        },
        Some(ParamValue::Length(v)) => {
            assert(d.length(s, param, v));
        },
        Some(ParamValue::Layer(v)) => {
            assert(d.says(s, param, ParamValue::Layer(v)));
        },
        Some(ParamValue::Flag(v)) => {
            assert(d.says(s, param, ParamValue::Flag(v)));
        },
        Some(ParamValue::Count(v)) => {
            assert(d.says(s, param, ParamValue::Count(v)));
        },
        None => {
            assert(d.silent(s, param));
        },
    }
    assert forall|v: ParamValue| #[trigger] d.says(s, param, v) implies r.stated(param) == Some(
        v,
    ) by {}
    assert(d.silent(s, param) <==> r.stated(param) is None);
    assert(d.positive(s, param) <==> r.positive_fault(param) is None);
    assert(d.finite(s, param) <==> r.number_fault(param) is None);
    assert(d.fraction(s, param) <==> r.fraction_fault(param) is None);
    assert(d.long(s, param) <==> r.length_fault(param) is None);
    assert(d.on_layer(s, param) ==> r.opt_layer_fault(param) is None);
    assert(d.flagged(s, param) ==> r.flag_fault(param) is None);
}

/// An antenna row is accepted exactly where it has its layers and gives each of its parameters a
/// value it can have.
pub proof fn lemma_antenna_accepted(d: Script, s: u32)
    ensures
        antenna_fault(row_at(d.rules, d.strings, s)) is None <==> {
            &&& d.layers(s) >= 2
            &&& d.positive(s, "max_ratio"@)
            &&& (d.silent(s, "sidewall_thickness"@) || d.long(s, "sidewall_thickness"@))
            &&& d.graded(s)
        },
{
    lemma_faults(d, s, "max_ratio"@);
    lemma_faults(d, s, "sidewall_thickness"@);
    lemma_faults(d, s, "warning"@);
}

/// A cumulative antenna row is accepted exactly where it has its layers and gives each of its parameters a
/// value it can have.
pub proof fn lemma_antenna_electrical_accepted(d: Script, s: u32)
    ensures
        antenna_electrical_fault(row_at(d.rules, d.strings, s)) is None <==> {
            &&& d.layers(s) >= 2
            &&& d.positive(s, "max_ratio"@)
            &&& (d.silent(s, "diode_layer"@) || d.on_layer(s, "diode_layer"@))
            &&& (d.silent(s, "diode_credit"@) || d.finite(s, "diode_credit"@))
            &&& (d.silent(s, "diode_bonus"@) || d.finite(s, "diode_bonus"@))
            &&& d.graded(s)
        },
{
    lemma_faults(d, s, "max_ratio"@);
    lemma_faults(d, s, "diode_layer"@);
    lemma_faults(d, s, "diode_credit"@);
    lemma_faults(d, s, "diode_bonus"@);
    lemma_faults(d, s, "warning"@);
}

/// An electromigration row is accepted exactly where it has its layers and gives each of its parameters a
/// value it can have.
pub proof fn lemma_electromigration_accepted(d: Script, s: u32)
    ensures
        electromigration_fault(row_at(d.rules, d.strings, s)) is None <==> {
            &&& d.layers(s) >= 1
            &&& d.positive(s, "max_density"@)
            &&& d.positive(s, "max_current_per_cut"@)
            &&& d.positive(s, "blech_limit"@)
            &&& d.positive(s, "reference_temperature"@)
            &&& d.positive(s, "activation_energy_ev"@)
            &&& d.positive(s, "current_exponent"@)
            &&& d.graded(s)
        },
{
    lemma_faults(d, s, "max_density"@);
    lemma_faults(d, s, "max_current_per_cut"@);
    lemma_faults(d, s, "blech_limit"@);
    lemma_faults(d, s, "reference_temperature"@);
    lemma_faults(d, s, "activation_energy_ev"@);
    lemma_faults(d, s, "current_exponent"@);
    lemma_faults(d, s, "warning"@);
}

/// A current-density row is accepted exactly where it has its layers and gives each of its parameters a
/// value it can have.
pub proof fn lemma_current_density_accepted(d: Script, s: u32)
    ensures
        em_current_density_fault(row_at(d.rules, d.strings, s)) is None <==> {
            &&& d.layers(s) >= 1
            &&& d.positive(s, "max_density"@)
            &&& d.positive(s, "max_current_per_cut"@)
            &&& d.graded(s)
        },
{
    lemma_faults(d, s, "max_density"@);
    lemma_faults(d, s, "max_current_per_cut"@);
    lemma_faults(d, s, "warning"@);
}

/// A latch-up row is accepted exactly where it has its layers and gives each of its parameters a
/// value it can have.
pub proof fn lemma_esd_latchup_accepted(d: Script, s: u32)
    ensures
        esd_latchup_fault(row_at(d.rules, d.strings, s)) is None <==> {
            &&& d.layers(s) == 2
            &&& d.positive(s, "required_current"@)
            &&& d.positive(s, "max_path_resistance"@)
            &&& d.positive(s, "max_clamp_voltage"@)
            &&& d.long(s, "min_guard_ring_width"@)
            &&& d.long(s, "max_tap_distance"@)
            &&& d.graded(s)
        },
{
    lemma_faults(d, s, "required_current"@);
    lemma_faults(d, s, "max_path_resistance"@);
    lemma_faults(d, s, "max_clamp_voltage"@);
    lemma_faults(d, s, "min_guard_ring_width"@);
    lemma_faults(d, s, "max_tap_distance"@);
    lemma_faults(d, s, "warning"@);
}

/// A clamp row is accepted exactly where it has its layers and gives each of its parameters a
/// value it can have.
pub proof fn lemma_esd_topological_accepted(d: Script, s: u32)
    ensures
        esd_topological_fault(row_at(d.rules, d.strings, s)) is None <==> {
            &&& d.layers(s) == 1
            &&& d.graded(s)
        },
{
    lemma_faults(d, s, "warning"@);
}

/// A floating-well row is accepted exactly where it has its layers and gives each of its parameters a
/// value it can have.
pub proof fn lemma_floating_well_accepted(d: Script, s: u32)
    ensures
        floating_well_fault(row_at(d.rules, d.strings, s)) is None <==> {
            &&& d.layers(s) == 2
            &&& d.graded(s)
        },
{
    lemma_faults(d, s, "warning"@);
}

/// A voltage-domain row is accepted exactly where it has its layers and gives each of its parameters a
/// value it can have.
pub proof fn lemma_hv_domain_accepted(d: Script, s: u32)
    ensures
        hv_domain_fault(row_at(d.rules, d.strings, s)) is None <==> {
            &&& d.layers(s) == 0
            &&& d.positive(s, "max_domain_delta"@)
            &&& (d.silent(s, "isolation"@) || d.on_layer(s, "isolation"@))
            &&& d.graded(s)
        },
{
    lemma_faults(d, s, "max_domain_delta"@);
    lemma_faults(d, s, "isolation"@);
    lemma_faults(d, s, "warning"@);
}

/// A missing-tie row is accepted exactly where it has its layers and gives each of its parameters a
/// value it can have.
pub proof fn lemma_missing_tie_accepted(d: Script, s: u32)
    ensures
        missing_tie_fault(row_at(d.rules, d.strings, s)) is None <==> {
            &&& d.layers(s) == 2
            &&& d.long(s, "max_distance"@)
            &&& d.graded(s)
        },
{
    lemma_faults(d, s, "max_distance"@);
    lemma_faults(d, s, "warning"@);
}

/// A driver row is accepted exactly where it has its layers and gives each of its parameters a
/// value it can have.
pub proof fn lemma_multiple_drivers_accepted(d: Script, s: u32)
    ensures
        multiple_drivers_fault(row_at(d.rules, d.strings, s)) is None <==> {
            &&& d.layers(s) == 0
            &&& d.counted(s, "max_drivers"@)
            &&& d.graded(s)
        },
{
    lemma_faults(d, s, "max_drivers"@);
    lemma_faults(d, s, "warning"@);
}

/// A resistance row is accepted exactly where it has its layers and gives each of its parameters a
/// value it can have.
pub proof fn lemma_p2p_resistance_accepted(d: Script, s: u32)
    ensures
        p2p_resistance_fault(row_at(d.rules, d.strings, s)) is None <==> {
            &&& d.layers(s) == 0
            &&& d.positive(s, "max_resistance"@)
            &&& d.graded(s)
        },
{
    lemma_faults(d, s, "max_resistance"@);
    lemma_faults(d, s, "warning"@);
}

/// A lifetime row is accepted exactly where it has its layers and gives each of its parameters a
/// value it can have.
pub proof fn lemma_reliability_accepted(d: Script, s: u32)
    ensures
        reliability_fault(row_at(d.rules, d.strings, s)) is None <==> {
            &&& d.layers(s) == 0
            &&& d.positive(s, "required_lifetime_hours"@)
            &&& d.positive(s, "reference_lifetime_hours"@)
            &&& d.positive(s, "reference_stress"@)
            &&& d.positive(s, "stress_exponent"@)
            &&& d.positive(s, "reference_temperature"@)
            &&& d.positive(s, "activation_energy_ev"@)
            &&& d.positive(s, "max_abs_voltage"@)
            &&& d.fraction(s, "duty_cycle"@)
            &&& d.positive(s, "duty_cycle"@)
            &&& d.graded(s)
        },
{
    lemma_faults(d, s, "required_lifetime_hours"@);
    lemma_faults(d, s, "reference_lifetime_hours"@);
    lemma_faults(d, s, "reference_stress"@);
    lemma_faults(d, s, "stress_exponent"@);
    lemma_faults(d, s, "reference_temperature"@);
    lemma_faults(d, s, "activation_energy_ev"@);
    lemma_faults(d, s, "max_abs_voltage"@);
    lemma_faults(d, s, "duty_cycle"@);
    lemma_faults(d, s, "warning"@);
    lemma_duty(d, s);
}

/// A soft-connection row is accepted exactly where it has its layers and gives each of its parameters a
/// value it can have.
pub proof fn lemma_soft_connection_accepted(d: Script, s: u32)
    ensures
        soft_connection_fault(row_at(d.rules, d.strings, s)) is None <==> {
            &&& d.layers(s) >= 1
            &&& d.graded(s)
        },
{
    lemma_faults(d, s, "warning"@);
}

/// A supply-short row is accepted exactly where it has its layers and gives each of its parameters a
/// value it can have.
pub proof fn lemma_supply_short_accepted(d: Script, s: u32)
    ensures
        supply_short_fault(row_at(d.rules, d.strings, s)) is None <==> {
            &&& d.layers(s) == 2
            &&& d.graded(s)
        },
{
    lemma_faults(d, s, "warning"@);
}

/// An unconnected-pin row is accepted exactly where it has its layers and gives each of its parameters a
/// value it can have.
pub proof fn lemma_unconnected_pin_accepted(d: Script, s: u32)
    ensures
        unconnected_pin_fault(row_at(d.rules, d.strings, s)) is None <==> {
            &&& d.layers(s) >= 1
            &&& d.graded(s)
        },
{
    lemma_faults(d, s, "warning"@);
}

/// A drop row is accepted exactly where it has its layers and gives each of its parameters a
/// value it can have.
pub proof fn lemma_ir_drop_accepted(d: Script, s: u32)
    ensures
        ir_drop_fault(row_at(d.rules, d.strings, s)) is None <==> {
            &&& d.layers(s) == 0
            &&& d.graded(s)
        },
{
    lemma_faults(d, s, "warning"@);
}

/// A floating-gate row is accepted exactly where it has its layers and gives each of its parameters a
/// value it can have.
pub proof fn lemma_floating_gate_accepted(d: Script, s: u32)
    ensures
        floating_gate_fault(row_at(d.rules, d.strings, s)) is None <==> {
            &&& d.layers(s) == 0
            &&& d.graded(s)
        },
{
    lemma_faults(d, s, "warning"@);
}

/// A tied-gate row is accepted exactly where it has its layers and gives each of its parameters a
/// value it can have.
pub proof fn lemma_tie_high_low_accepted(d: Script, s: u32)
    ensures
        tie_high_low_fault(row_at(d.rules, d.strings, s)) is None <==> {
            &&& d.layers(s) == 0
            &&& d.graded(s)
        },
{
    lemma_faults(d, s, "warning"@);
}

/// A duty cycle that is a fraction is above zero exactly where it is not at fault.
proof fn lemma_duty(d: Script, s: u32)
    ensures
        d.fraction(s, "duty_cycle"@) ==> (duty_fault(row_at(d.rules, d.strings, s)) is None
            <==> d.positive(s, "duty_cycle"@)),
{
    lemma_read(d, s);
    lemma_faults(d, s, "duty_cycle"@);
    lemma_said(d, s, "duty_cycle"@);
    if d.fraction(s, "duty_cycle"@) {
        let v = choose|v: Number| #[trigger]
            d.number(s, "duty_cycle"@, v) && v.finite() && (Number { bits: 0 }).le(v) && v.le(
                Number { bits: ONE },
            );
        assert(row_at(d.rules, d.strings, s).number_of("duty_cycle"@) == v);
        if (Number { bits: 0 }).lt(v) {
            assert(d.positive(s, "duty_cycle"@));
        }
    }
}

/// An accepted density row has windows and steps above zero, bounds that are fractions,
/// and at least one bound.
pub proof fn lemma_density_accepted(d: Script, s: u32)
    requires
        density_cmp_fault(row_at(d.rules, d.strings, s)) is None,
    ensures
        d.layers(s) == 1,
        d.long(s, "window_x"@),
        d.long(s, "window_y"@),
        d.long(s, "step_x"@),
        d.long(s, "step_y"@),
        d.silent(s, "min_density"@) || d.fraction(s, "min_density"@),
        d.silent(s, "max_density"@) || d.fraction(s, "max_density"@),
        d.silent(s, "max_neighbour_delta"@) || d.fraction(s, "max_neighbour_delta"@),
        d.silent(s, "cmp_target_density"@) || d.fraction(s, "cmp_target_density"@) && d.long(
            s,
            "cmp_nominal_thickness"@,
        ) && d.long(s, "cmp_max_abs_thickness_delta"@),
        !(d.silent(s, "min_density"@) && d.silent(s, "max_density"@) && d.silent(
            s,
            "max_neighbour_delta"@,
        ) && d.silent(s, "cmp_target_density"@)),
{
    lemma_read(d, s);
    lemma_faults(d, s, "window_x"@);
    lemma_faults(d, s, "window_y"@);
    lemma_faults(d, s, "step_x"@);
    lemma_faults(d, s, "step_y"@);
    lemma_faults(d, s, "min_density"@);
    lemma_faults(d, s, "max_density"@);
    lemma_faults(d, s, "max_neighbour_delta"@);
    lemma_faults(d, s, "cmp_nominal_thickness"@);
    lemma_faults(d, s, "cmp_max_abs_thickness_delta"@);
    lemma_faults(d, s, "cmp_target_density"@);
    lemma_said(d, s, "cmp_target_density"@);
}

} // verus!
