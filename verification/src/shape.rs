//! The shape of a filed rule set.
use crate::deck::Deck;
use crate::filing::starts_hold;
use crate::ruleset::RuleSet;
use crate::text::StrTable;
use vstd::prelude::*;

verus! {

impl RuleSet {
    /// Every column of every table is as long as its table, and every start
    /// column splits its body into one run per row.
    pub open spec fn shaped(&self) -> bool {
        &&& self.floating_gate.head.wf()
        &&& self.floating_well.head.wf()
        &&& self.floating_well.well@.len() == self.floating_well.head.rows()
        &&& self.floating_well.tap@.len() == self.floating_well.head.rows()
        &&& self.multiple_drivers.wf()
        &&& self.unconnected_pin.head.wf()
        &&& starts_hold(
            self.unconnected_pin.layer_start@,
            self.unconnected_pin.head.rule@.len(),
            self.unconnected_pin.layer@.len(),
        )
        &&& self.supply_short.head.wf()
        &&& self.supply_short.tap_a@.len() == self.supply_short.head.rows()
        &&& self.supply_short.tap_b@.len() == self.supply_short.head.rows()
        &&& self.soft_connection.head.wf()
        &&& starts_hold(
            self.soft_connection.soft_start@,
            self.soft_connection.head.rule@.len(),
            self.soft_connection.soft@.len(),
        )
        &&& self.missing_tie.head.wf()
        &&& self.missing_tie.region@.len() == self.missing_tie.head.rows()
        &&& self.missing_tie.tap@.len() == self.missing_tie.head.rows()
        &&& self.missing_tie.max_distance@.len() == self.missing_tie.head.rows()
        &&& self.tie_high_low.head.wf()
        &&& self.esd_topological.head.wf()
        &&& self.esd_topological.pad@.len() == self.esd_topological.head.rows()
        &&& starts_hold(
            self.esd_topological.clamp_start@,
            self.esd_topological.head.rule@.len(),
            self.esd_topological.clamp_model@.len(),
        )
        &&& self.shaped_geometry()
        &&& self.shaped_electrical()
        &&& self.shaped_reliability()
    }

    /// The geometry tables.
    pub open spec fn shaped_geometry(&self) -> bool {
        &&& self.antenna.head.wf()
        &&& self.antenna.gate@.len() == self.antenna.head.rows()
        &&& self.antenna.max_ratio@.len() == self.antenna.head.rows()
        &&& self.antenna.collector_measure@.len() == self.antenna.collector@.len()
        &&& starts_hold(
            self.antenna.collector_start@,
            self.antenna.head.rule@.len(),
            self.antenna.collector@.len(),
        )
        &&& self.antenna_electrical.head.wf()
        &&& self.antenna_electrical.gate@.len() == self.antenna_electrical.head.rows()
        &&& self.antenna_electrical.diode@.len() == self.antenna_electrical.head.rows()
        &&& self.antenna_electrical.diode_credit@.len() == self.antenna_electrical.head.rows()
        &&& self.antenna_electrical.diode_bonus@.len() == self.antenna_electrical.head.rows()
        &&& self.antenna_electrical.max_ratio@.len() == self.antenna_electrical.head.rows()
        &&& starts_hold(
            self.antenna_electrical.collector_start@,
            self.antenna_electrical.head.rule@.len(),
            self.antenna_electrical.collector@.len(),
        )
        &&& self.density_cmp.wf()
    }

    /// The tables over a solved network.
    pub open spec fn shaped_electrical(&self) -> bool {
        &&& self.p2p_resistance.wf()
        &&& self.ir_drop.head.wf()
        &&& self.em_current_density.wf()
        &&& starts_hold(
            self.em_current_density.layer_start@,
            self.em_current_density.head.rule@.len(),
            self.em_current_density.layer@.len(),
        )
        &&& self.electromigration.wf()
        &&& starts_hold(
            self.electromigration.layer_start@,
            self.electromigration.head.rule@.len(),
            self.electromigration.layer@.len(),
        )
    }

    /// The lifetime and protection tables.
    pub open spec fn shaped_reliability(&self) -> bool {
        &&& self.reliability.wf()
        &&& self.hv_domain.head.wf()
        &&& self.hv_domain.max_domain_delta@.len() == self.hv_domain.head.rows()
        &&& self.hv_domain.isolation@.len() == self.hv_domain.head.rows()
        &&& self.esd_latchup.head.wf()
        &&& self.esd_latchup.pad@.len() == self.esd_latchup.head.rows()
        &&& self.esd_latchup.guard_ring@.len() == self.esd_latchup.head.rows()
        &&& self.esd_latchup.required_current@.len() == self.esd_latchup.head.rows()
        &&& self.esd_latchup.max_path_resistance@.len() == self.esd_latchup.head.rows()
        &&& self.esd_latchup.max_clamp_voltage@.len() == self.esd_latchup.head.rows()
        &&& self.esd_latchup.min_guard_ring_width@.len() == self.esd_latchup.head.rows()
        &&& self.esd_latchup.max_tap_distance@.len() == self.esd_latchup.head.rows()
        &&& self.esd_latchup.clamp_resistance@.len() == self.esd_latchup.clamp_model@.len()
        &&& self.esd_latchup.clamp_capacity@.len() == self.esd_latchup.clamp_model@.len()
        &&& self.esd_latchup.clamp_voltage@.len() == self.esd_latchup.clamp_model@.len()
        &&& starts_hold(
            self.esd_latchup.clamp_start@,
            self.esd_latchup.head.rule@.len(),
            self.esd_latchup.clamp_model@.len(),
        )
    }
}

/// A set filed from a deck has its shape: no column runs short of its table.
pub proof fn lemma_filed_set_is_shaped(set: &RuleSet, deck: &Deck, strings: &StrTable)
    requires
        set.holds(&deck.rules, strings, deck.rules.spec@.len()),
    ensures
        set.shaped(),
{
    reveal(RuleSet::holds);
}

} // verus!
