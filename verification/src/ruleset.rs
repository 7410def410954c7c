//! The rule tables, the deck they are built from, and the dispatcher that runs
//! each one once.
use crate::deck::{Deck, ErcError, Fault, Row, RuleTable};
use crate::design::{kept, Design};
use crate::facts::NetFacts;
use crate::filing::{
    kind_of, kind_spec, row_at, row_fault, Kind,
    antenna_electrical_holds,
    antenna_holds,
    density_cmp_holds,
    electromigration_holds,
    em_current_density_holds,
    esd_latchup_holds,
    esd_topological_holds,
    file_antenna,
    file_antenna_electrical,
    file_density_cmp,
    file_electromigration,
    file_em_current_density,
    file_esd_latchup,
    file_esd_topological,
    file_floating_gate,
    file_floating_well,
    file_hv_domain,
    file_ir_drop,
    file_missing_tie,
    file_multiple_drivers,
    file_p2p_resistance,
    file_reliability,
    file_soft_connection,
    file_supply_short,
    file_tie_high_low,
    file_unconnected_pin,
    floating_gate_holds,
    floating_well_holds,
    hv_domain_holds,
    ir_drop_holds,
    missing_tie_holds,
    multiple_drivers_holds,
    p2p_resistance_holds,
    reliability_holds,
    soft_connection_holds,
    supply_short_holds,
    tie_high_low_holds,
    unconnected_pin_holds,
};
use crate::geom::Bbox;
use crate::intent::IntentMap;
use crate::model::StrId;
use crate::number::Number;
use crate::power::sounding::{probe_rows, sounds};
use crate::power::network::{Grid, NetNetworks, Solved};
use crate::report::{
    all_found, all_runs, lemma_all_ended, saturated, Outcome, RowResult, RuleRun, Severity,
    SkipReason, Violation, Violations,
};
use crate::rules::antenna::{
    AntennaElectricalTable, AntennaTable, antenna_electrical_results, antenna_results,
    check_antenna, check_antenna_electrical,
};
use crate::rules::density::{
    DensityCmpTable, check_density_cmp, density_results,
};
use crate::rules::electrical::{
    ElectromigrationTable, EmCurrentDensityTable, IrDropTable, P2pResistanceTable,
    check_electromigration, check_em_current_density, check_ir_drop, check_p2p_probes,
    electromigration_results, em_results, ir_drop_results, p2p_results,
};
use crate::rules::latchup::{
    EsdLatchupTable, check_latchup_probes, esd_latchup_results, supplies_in,
};
use crate::rules::missing_tie::{
    MissingTieTable, check_missing_tie, missing_tie_results,
};
use crate::rules::reliability::{
    HvDomainTable, LifetimeFactors, ReliabilityTable, check_hv_domain, check_reliability,
    hv_domain_results, reliability_results,
};
use crate::rules::supply::{
    EsdTopologicalTable, SoftConnectionTable, SupplyShortTable, TieHighLowTable,
    check_esd_topological, check_soft_connection, check_supply_short, check_tie_high_low,
    esd_topological_results, soft_connection_results, supply_short_results, tie_high_low_results,
};
use crate::rules::topology::{
    FloatingGateTable, FloatingWellTable, MultipleDriversTable, UnconnectedPinTable,
    check_floating_gate, check_floating_well, check_multiple_drivers, check_unconnected_pin,
    floating_gate_results, floating_well_results, multiple_drivers_results, overdriven_in,
    unconnected_pin_results,
};
use crate::store::GeometryStore;
use crate::text::StrTable;
use vstd::prelude::*;

verus! {

/// The two columns every rule table has.
pub struct RuleHead {
    /// The deck's id of each row.
    pub rule: Vec<StrId>,
    pub severity: Vec<Severity>,
}

impl Default for RuleHead {
    fn default() -> (r: RuleHead)
        ensures
            r.wf(),
            r.rows() == 0,
    {
        RuleHead { rule: Vec::new(), severity: Vec::new() }
    }
}

impl RuleHead {
    pub open spec fn rows(&self) -> int {
        self.rule@.len() as int
    }

    pub open spec fn wf(&self) -> bool {
        self.severity@.len() == self.rule@.len()
    }

    pub fn len(&self) -> (r: usize)
        ensures
            r == self.rows(),
    {
        self.rule.len()
    }

    /// True when the deck configured no row of this kind.
    pub fn is_empty(&self) -> (r: bool)
        ensures
            r == (self.rows() == 0),
    {
        self.rule.len() == 0
    }
}

/// Every configured rule, one table per kind.
pub struct RuleSet {
    pub floating_gate: FloatingGateTable,
    pub floating_well: FloatingWellTable,
    pub multiple_drivers: MultipleDriversTable,
    pub unconnected_pin: UnconnectedPinTable,
    pub supply_short: SupplyShortTable,
    pub soft_connection: SoftConnectionTable,
    pub missing_tie: MissingTieTable,
    pub tie_high_low: TieHighLowTable,
    pub esd_topological: EsdTopologicalTable,
    pub antenna: AntennaTable,
    pub antenna_electrical: AntennaElectricalTable,
    pub density_cmp: DensityCmpTable,
    pub p2p_resistance: P2pResistanceTable,
    pub ir_drop: IrDropTable,
    pub em_current_density: EmCurrentDensityTable,
    pub electromigration: ElectromigrationTable,
    pub reliability: ReliabilityTable,
    pub hv_domain: HvDomainTable,
    pub esd_latchup: EsdLatchupTable,
}

/// The deck rows of one kind among the first `n`, ascending.
pub open spec fn rows_of(rules: &RuleTable, strings: &StrTable, kind: Kind, n: nat) -> Seq<u32> {
    kept(n, |s: int| kind_spec(row_at(rules, strings, s as u32).kind_text()) == Some(kind))
}

/// One deck row more is one more row of its own kind and of no other.
proof fn lemma_rows_of(rules: &RuleTable, strings: &StrTable, kind: Kind, s: u32)
    ensures
        rows_of(rules, strings, kind, (s + 1) as nat) == (if kind_spec(
            row_at(rules, strings, s).kind_text(),
        ) == Some(kind) {
            rows_of(rules, strings, kind, s as nat).push(s)
        } else {
            rows_of(rules, strings, kind, s as nat)
        }),
{
}

/// A set that holds a deck holds its density rows.
pub proof fn lemma_density_held(set: &RuleSet, rules: &RuleTable, strings: &StrTable, n: nat)
    requires
        set.holds(rules, strings, n),
    ensures
        density_cmp_holds(
            &set.density_cmp,
            rules,
            strings,
            rows_of(rules, strings, Kind::DensityCmp, n),
        ),
{
    reveal(RuleSet::holds);
}

/// The rows of a kind are rows of the deck.
pub proof fn lemma_rows_below(rules: &RuleTable, strings: &StrTable, kind: Kind, n: nat)
    requires
        n <= 0xFFFF_FFFF,
    ensures
        forall|i: int|
            0 <= i < rows_of(rules, strings, kind, n).len() ==> (#[trigger] rows_of(
                rules,
                strings,
                kind,
                n,
            )[i]) < n,
    decreases n,
{
    if n > 0 {
        lemma_rows_below(rules, strings, kind, (n - 1) as nat);
        lemma_rows_of(rules, strings, kind, (n - 1) as u32);
    }
}

impl RuleSet {
    /// Every table holds exactly the rows of its kind among the first `n`.
    #[verifier::opaque]
    pub open spec fn holds(&self, rules: &RuleTable, strings: &StrTable, n: nat) -> bool {
        &&& floating_gate_holds(
            &self.floating_gate,
            rules,
            strings,
            rows_of(rules, strings, Kind::FloatingGate, n),
        )
        &&& floating_well_holds(
            &self.floating_well,
            rules,
            strings,
            rows_of(rules, strings, Kind::FloatingWell, n),
        )
        &&& multiple_drivers_holds(
            &self.multiple_drivers,
            rules,
            strings,
            rows_of(rules, strings, Kind::MultipleDrivers, n),
        )
        &&& unconnected_pin_holds(
            &self.unconnected_pin,
            rules,
            strings,
            rows_of(rules, strings, Kind::UnconnectedPin, n),
        )
        &&& supply_short_holds(
            &self.supply_short,
            rules,
            strings,
            rows_of(rules, strings, Kind::SupplyShort, n),
        )
        &&& soft_connection_holds(
            &self.soft_connection,
            rules,
            strings,
            rows_of(rules, strings, Kind::SoftConnection, n),
        )
        &&& missing_tie_holds(
            &self.missing_tie,
            rules,
            strings,
            rows_of(rules, strings, Kind::MissingTie, n),
        )
        &&& tie_high_low_holds(
            &self.tie_high_low,
            rules,
            strings,
            rows_of(rules, strings, Kind::TieHighLow, n),
        )
        &&& esd_topological_holds(
            &self.esd_topological,
            rules,
            strings,
            rows_of(rules, strings, Kind::EsdTopological, n),
        )
        &&& antenna_holds(&self.antenna, rules, strings, rows_of(rules, strings, Kind::Antenna, n))
        &&& antenna_electrical_holds(
            &self.antenna_electrical,
            rules,
            strings,
            rows_of(rules, strings, Kind::AntennaElectrical, n),
        )
        &&& density_cmp_holds(
            &self.density_cmp,
            rules,
            strings,
            rows_of(rules, strings, Kind::DensityCmp, n),
        )
        &&& p2p_resistance_holds(
            &self.p2p_resistance,
            rules,
            strings,
            rows_of(rules, strings, Kind::P2pResistance, n),
        )
        &&& ir_drop_holds(&self.ir_drop, rules, strings, rows_of(rules, strings, Kind::IrDrop, n))
        &&& em_current_density_holds(
            &self.em_current_density,
            rules,
            strings,
            rows_of(rules, strings, Kind::EmCurrentDensity, n),
        )
        &&& electromigration_holds(
            &self.electromigration,
            rules,
            strings,
            rows_of(rules, strings, Kind::Electromigration, n),
        )
        &&& reliability_holds(
            &self.reliability,
            rules,
            strings,
            rows_of(rules, strings, Kind::Reliability, n),
        )
        &&& hv_domain_holds(
            &self.hv_domain,
            rules,
            strings,
            rows_of(rules, strings, Kind::HvDomain, n),
        )
        &&& esd_latchup_holds(
            &self.esd_latchup,
            rules,
            strings,
            rows_of(rules, strings, Kind::EsdLatchup, n),
        )
    }

    /// The run bodies are no longer than a count of layers.
    pub open spec fn fits(&self, cap: nat) -> bool {
        &&& self.unconnected_pin.layer@.len() <= cap
        &&& self.soft_connection.soft@.len() <= cap
        &&& self.antenna.collector@.len() <= cap
        &&& self.antenna_electrical.collector@.len() <= cap
        &&& self.em_current_density.layer@.len() <= cap
        &&& self.electromigration.layer@.len() <= cap
    }

    /// How many rule rows are configured across every table.
    pub open spec fn rows(&self) -> int {
        self.floating_gate.head.rows() + self.floating_well.head.rows()
            + self.multiple_drivers.head.rows() + self.unconnected_pin.head.rows()
            + self.supply_short.head.rows() + self.soft_connection.head.rows()
            + self.missing_tie.head.rows() + self.tie_high_low.head.rows()
            + self.esd_topological.head.rows() + self.antenna.head.rows()
            + self.antenna_electrical.head.rows() + self.density_cmp.head.rows()
            + self.p2p_resistance.head.rows() + self.ir_drop.head.rows()
            + self.em_current_density.head.rows() + self.electromigration.head.rows()
            + self.reliability.head.rows() + self.hv_domain.head.rows()
            + self.esd_latchup.head.rows()
    }

    /// How many rule rows are configured across every table: the number of run
    /// rows a run produces.
    pub fn len(&self) -> (r: usize)
        requires
            self.rows() <= usize::MAX,
        ensures
            r == self.rows(),
    {
        self.floating_gate.head.len() + self.floating_well.head.len()
            + self.multiple_drivers.head.len() + self.unconnected_pin.head.len()
            + self.supply_short.head.len() + self.soft_connection.head.len()
            + self.missing_tie.head.len() + self.tie_high_low.head.len()
            + self.esd_topological.head.len() + self.antenna.head.len()
            + self.antenna_electrical.head.len() + self.density_cmp.head.len()
            + self.p2p_resistance.head.len() + self.ir_drop.head.len()
            + self.em_current_density.head.len() + self.electromigration.head.len()
            + self.reliability.head.len() + self.hv_domain.head.len() + self.esd_latchup.head.len()
    }

    pub fn is_empty(&self) -> (r: bool)
        ensures
            r == (self.rows() == 0),
    {
        self.floating_gate.head.is_empty() && self.floating_well.head.is_empty()
            && self.multiple_drivers.head.is_empty() && self.unconnected_pin.head.is_empty()
            && self.supply_short.head.is_empty() && self.soft_connection.head.is_empty()
            && self.missing_tie.head.is_empty() && self.tie_high_low.head.is_empty()
            && self.esd_topological.head.is_empty() && self.antenna.head.is_empty()
            && self.antenna_electrical.head.is_empty() && self.density_cmp.head.is_empty()
            && self.p2p_resistance.head.is_empty() && self.ir_drop.head.is_empty()
            && self.em_current_density.head.is_empty() && self.electromigration.head.is_empty()
            && self.reliability.head.is_empty() && self.hv_domain.head.is_empty()
            && self.esd_latchup.head.is_empty()
    }
}

impl Default for RuleSet {
    fn default() -> (r: RuleSet)
        ensures
            forall|rules: &RuleTable, strings: &StrTable| #[trigger] r.holds(rules, strings, 0),
            r.fits(0),
            r.rows() == 0,
    {
        let r = RuleSet {
            floating_gate: FloatingGateTable::default(),
            floating_well: FloatingWellTable::default(),
            multiple_drivers: MultipleDriversTable::default(),
            unconnected_pin: UnconnectedPinTable::default(),
            supply_short: SupplyShortTable::default(),
            soft_connection: SoftConnectionTable::default(),
            missing_tie: MissingTieTable::default(),
            tie_high_low: TieHighLowTable::default(),
            esd_topological: EsdTopologicalTable::default(),
            antenna: AntennaTable::default(),
            antenna_electrical: AntennaElectricalTable::default(),
            density_cmp: DensityCmpTable::default(),
            p2p_resistance: P2pResistanceTable::default(),
            ir_drop: IrDropTable::default(),
            em_current_density: EmCurrentDensityTable::default(),
            electromigration: ElectromigrationTable::default(),
            reliability: ReliabilityTable::default(),
            hv_domain: HvDomainTable::default(),
            esd_latchup: EsdLatchupTable::default(),
        };
        proof {
            assert forall|rules: &RuleTable, strings: &StrTable| #[trigger] r.holds(
                rules,
                strings,
                0,
            ) by {
                reveal(RuleSet::holds);
                assert(rows_of(rules, strings, Kind::FloatingGate, 0) =~= Seq::<u32>::empty());
                assert(floating_gate_holds(&r.floating_gate, rules, strings, Seq::empty()));
                assert(rows_of(rules, strings, Kind::FloatingWell, 0) =~= Seq::<u32>::empty());
                assert(floating_well_holds(&r.floating_well, rules, strings, Seq::empty()));
                assert(rows_of(rules, strings, Kind::MultipleDrivers, 0) =~= Seq::<u32>::empty());
                assert(multiple_drivers_holds(&r.multiple_drivers, rules, strings, Seq::empty()));
                assert(rows_of(rules, strings, Kind::UnconnectedPin, 0) =~= Seq::<u32>::empty());
                assert(unconnected_pin_holds(&r.unconnected_pin, rules, strings, Seq::empty()));
                assert(rows_of(rules, strings, Kind::SupplyShort, 0) =~= Seq::<u32>::empty());
                assert(supply_short_holds(&r.supply_short, rules, strings, Seq::empty()));
                assert(rows_of(rules, strings, Kind::SoftConnection, 0) =~= Seq::<u32>::empty());
                assert(soft_connection_holds(&r.soft_connection, rules, strings, Seq::empty()));
                assert(rows_of(rules, strings, Kind::MissingTie, 0) =~= Seq::<u32>::empty());
                assert(missing_tie_holds(&r.missing_tie, rules, strings, Seq::empty()));
                assert(rows_of(rules, strings, Kind::TieHighLow, 0) =~= Seq::<u32>::empty());
                assert(tie_high_low_holds(&r.tie_high_low, rules, strings, Seq::empty()));
                assert(rows_of(rules, strings, Kind::EsdTopological, 0) =~= Seq::<u32>::empty());
                assert(esd_topological_holds(&r.esd_topological, rules, strings, Seq::empty()));
                assert(rows_of(rules, strings, Kind::Antenna, 0) =~= Seq::<u32>::empty());
                assert(antenna_holds(&r.antenna, rules, strings, Seq::empty()));
                assert(rows_of(rules, strings, Kind::AntennaElectrical, 0) =~= Seq::<u32>::empty());
                assert(
                    antenna_electrical_holds(&r.antenna_electrical, rules, strings, Seq::empty())
                );
                assert(rows_of(rules, strings, Kind::DensityCmp, 0) =~= Seq::<u32>::empty());
                assert(density_cmp_holds(&r.density_cmp, rules, strings, Seq::empty()));
                assert(rows_of(rules, strings, Kind::P2pResistance, 0) =~= Seq::<u32>::empty());
                assert(p2p_resistance_holds(&r.p2p_resistance, rules, strings, Seq::empty()));
                assert(rows_of(rules, strings, Kind::IrDrop, 0) =~= Seq::<u32>::empty());
                assert(ir_drop_holds(&r.ir_drop, rules, strings, Seq::empty()));
                assert(rows_of(rules, strings, Kind::EmCurrentDensity, 0) =~= Seq::<u32>::empty());
                assert(
                    em_current_density_holds(&r.em_current_density, rules, strings, Seq::empty())
                );
                assert(rows_of(rules, strings, Kind::Electromigration, 0) =~= Seq::<u32>::empty());
                assert(electromigration_holds(&r.electromigration, rules, strings, Seq::empty()));
                assert(rows_of(rules, strings, Kind::Reliability, 0) =~= Seq::<u32>::empty());
                assert(reliability_holds(&r.reliability, rules, strings, Seq::empty()));
                assert(rows_of(rules, strings, Kind::HvDomain, 0) =~= Seq::<u32>::empty());
                assert(hv_domain_holds(&r.hv_domain, rules, strings, Seq::empty()));
                assert(rows_of(rules, strings, Kind::EsdLatchup, 0) =~= Seq::<u32>::empty());
                assert(esd_latchup_holds(&r.esd_latchup, rules, strings, Seq::empty()));
            }
        }
        r
    }
}

/// Whether an earlier deck row has the same rule id.
pub open spec fn duplicated(rules: &RuleTable, s: int) -> bool {
    exists|t: int| 0 <= t < s && (#[trigger] rules.spec@[t]).id == rules.spec@[s].id
}

/// What is wrong with deck row `s`: its id was already used, or its own fault.
pub open spec fn fault_at(rules: &RuleTable, strings: &StrTable, s: int) -> Option<Fault> {
    if duplicated(rules, s) {
        Some(Fault::Duplicate)
    } else {
        row_fault(row_at(rules, strings, s as u32))
    }
}

/// Row `s` is the first one with something wrong.
pub open spec fn first_fault(rules: &RuleTable, strings: &StrTable, s: int) -> bool {
    &&& 0 <= s < rules.rows()
    &&& fault_at(rules, strings, s) is Some
    &&& forall|t: int| 0 <= t < s ==> (#[trigger] fault_at(rules, strings, t)) is None
}

fn is_duplicated(rules: &RuleTable, s: usize) -> (r: bool)
    requires
        s < rules.rows(),
    ensures
        r == duplicated(rules, s as int),
{
    let id = rules.spec[s].id;
    let mut t: usize = 0;
    while t < s
        invariant
            t <= s < rules.rows(),
            id == rules.spec@[s as int].id,
            forall|k: int| 0 <= k < t ==> (#[trigger] rules.spec@[k]).id != id,
        decreases s - t,
    {
        if rules.spec[t].id == id {
            assert(rules.spec@[t as int].id == id);
            return true;
        }
        t = t + 1;
    }
    false
}

proof fn lemma_layers_to(rules: &RuleTable, m: nat, n: nat)
    requires
        m <= n,
    ensures
        rules.layers_to(m) <= rules.layers_to(n),
    decreases n - m,
{
    if m < n {
        lemma_layers_to(rules, m, (n - 1) as nat);
    }
}

/// The rows before row `s`, counted.
spec fn upto(s: u32) -> nat {
    s as nat
}

/// The rows up to and including row `s`, counted.
spec fn after(s: u32) -> nat {
    (s + 1) as nat
}

/// A row of another domain changes no table.
proof fn lemma_stepped_over(set: &RuleSet, rules: &RuleTable, strings: &StrTable, s: u32)
    requires
        set.holds(rules, strings, upto(s)),
        kind_spec(row_at(rules, strings, s).kind_text()) is None,
    ensures
        set.holds(rules, strings, after(s)),
{
    reveal(RuleSet::holds);
    lemma_rows_of(rules, strings, Kind::FloatingGate, s);
    lemma_rows_of(rules, strings, Kind::FloatingWell, s);
    lemma_rows_of(rules, strings, Kind::MultipleDrivers, s);
    lemma_rows_of(rules, strings, Kind::UnconnectedPin, s);
    lemma_rows_of(rules, strings, Kind::SupplyShort, s);
    lemma_rows_of(rules, strings, Kind::SoftConnection, s);
    lemma_rows_of(rules, strings, Kind::MissingTie, s);
    lemma_rows_of(rules, strings, Kind::TieHighLow, s);
    lemma_rows_of(rules, strings, Kind::EsdTopological, s);
    lemma_rows_of(rules, strings, Kind::Antenna, s);
    lemma_rows_of(rules, strings, Kind::AntennaElectrical, s);
    lemma_rows_of(rules, strings, Kind::DensityCmp, s);
    lemma_rows_of(rules, strings, Kind::P2pResistance, s);
    lemma_rows_of(rules, strings, Kind::IrDrop, s);
    lemma_rows_of(rules, strings, Kind::EmCurrentDensity, s);
    lemma_rows_of(rules, strings, Kind::Electromigration, s);
    lemma_rows_of(rules, strings, Kind::Reliability, s);
    lemma_rows_of(rules, strings, Kind::HvDomain, s);
    lemma_rows_of(rules, strings, Kind::EsdLatchup, s);
}

impl RuleSet {
    /// File one deck row in the table of its kind.
    fn file(&mut self, row: &Row, kind: Kind, Ghost(s): Ghost<u32>) -> (r: Result<(), ErcError>)
        requires
            row.wf(),
            s == row.at,
            kind_spec(row.kind_text()) == Some(kind),
            old(self).holds(row.rules, row.strings, upto(s)),
            old(self).fits(row.rules.layers_to(upto(s))),
            row.rules.layers_to(after(s)) <= 0xFFFF_FFFF,
        ensures
            match r {
                Ok(_) => row_fault(*row) is None && final(self).holds(
                    row.rules,
                    row.strings,
                    after(s),
                ) && final(self).fits(row.rules.layers_to(after(s))),
                Err(e) => row_fault(*row) is Some && e.reports(row.title(), row_fault(*row)->0),
            },
    {
        let ghost rows = rows_of(row.rules, row.strings, kind, upto(s));
        proof {
            reveal(RuleSet::holds);
            assert(row_at(row.rules, row.strings, s) == *row);
            lemma_rows_of(row.rules, row.strings, Kind::FloatingGate, s);
            lemma_rows_of(row.rules, row.strings, Kind::FloatingWell, s);
            lemma_rows_of(row.rules, row.strings, Kind::MultipleDrivers, s);
            lemma_rows_of(row.rules, row.strings, Kind::UnconnectedPin, s);
            lemma_rows_of(row.rules, row.strings, Kind::SupplyShort, s);
            lemma_rows_of(row.rules, row.strings, Kind::SoftConnection, s);
            lemma_rows_of(row.rules, row.strings, Kind::MissingTie, s);
            lemma_rows_of(row.rules, row.strings, Kind::TieHighLow, s);
            lemma_rows_of(row.rules, row.strings, Kind::EsdTopological, s);
            lemma_rows_of(row.rules, row.strings, Kind::Antenna, s);
            lemma_rows_of(row.rules, row.strings, Kind::AntennaElectrical, s);
            lemma_rows_of(row.rules, row.strings, Kind::DensityCmp, s);
            lemma_rows_of(row.rules, row.strings, Kind::P2pResistance, s);
            lemma_rows_of(row.rules, row.strings, Kind::IrDrop, s);
            lemma_rows_of(row.rules, row.strings, Kind::EmCurrentDensity, s);
            lemma_rows_of(row.rules, row.strings, Kind::Electromigration, s);
            lemma_rows_of(row.rules, row.strings, Kind::Reliability, s);
            lemma_rows_of(row.rules, row.strings, Kind::HvDomain, s);
            lemma_rows_of(row.rules, row.strings, Kind::EsdLatchup, s);
        }
        match kind {
            Kind::Antenna => file_antenna(&mut self.antenna, row, Ghost(rows), Ghost(s)),
            Kind::AntennaElectrical => file_antenna_electrical(
                &mut self.antenna_electrical,
                row,
                Ghost(rows),
                Ghost(s),
            ),
            Kind::DensityCmp => file_density_cmp(&mut self.density_cmp, row, Ghost(rows), Ghost(s)),
            Kind::Electromigration => file_electromigration(
                &mut self.electromigration,
                row,
                Ghost(rows),
                Ghost(s),
            ),
            Kind::EmCurrentDensity => file_em_current_density(
                &mut self.em_current_density,
                row,
                Ghost(rows),
                Ghost(s),
            ),
            Kind::EsdLatchup => file_esd_latchup(&mut self.esd_latchup, row, Ghost(rows), Ghost(s)),
            Kind::EsdTopological => file_esd_topological(
                &mut self.esd_topological,
                row,
                Ghost(rows),
                Ghost(s),
            ),
            Kind::FloatingGate => file_floating_gate(
                &mut self.floating_gate,
                row,
                Ghost(rows),
                Ghost(s),
            ),
            Kind::FloatingWell => file_floating_well(
                &mut self.floating_well,
                row,
                Ghost(rows),
                Ghost(s),
            ),
            Kind::HvDomain => file_hv_domain(&mut self.hv_domain, row, Ghost(rows), Ghost(s)),
            Kind::IrDrop => file_ir_drop(&mut self.ir_drop, row, Ghost(rows), Ghost(s)),
            Kind::MissingTie => file_missing_tie(&mut self.missing_tie, row, Ghost(rows), Ghost(s)),
            Kind::MultipleDrivers => file_multiple_drivers(
                &mut self.multiple_drivers,
                row,
                Ghost(rows),
                Ghost(s),
            ),
            Kind::P2pResistance => file_p2p_resistance(
                &mut self.p2p_resistance,
                row,
                Ghost(rows),
                Ghost(s),
            ),
            Kind::Reliability => file_reliability(
                &mut self.reliability,
                row,
                Ghost(rows),
                Ghost(s),
            ),
            Kind::SoftConnection => file_soft_connection(
                &mut self.soft_connection,
                row,
                Ghost(rows),
                Ghost(s),
            ),
            Kind::SupplyShort => file_supply_short(
                &mut self.supply_short,
                row,
                Ghost(rows),
                Ghost(s),
            ),
            Kind::TieHighLow => file_tie_high_low(
                &mut self.tie_high_low,
                row,
                Ghost(rows),
                Ghost(s),
            ),
            Kind::UnconnectedPin => file_unconnected_pin(
                &mut self.unconnected_pin,
                row,
                Ghost(rows),
                Ghost(s),
            ),
        }
    }

    /// Build the tables from a deck.
    ///
    /// Fails closed on anything it does not understand in a row it owns, at the
    /// first such row in deck order: a deck with one bad rule is not partially
    /// usable. A row of a kind that is not spelled here belongs to another
    /// domain and is stepped over.
    pub fn from_deck(deck: &Deck, strings: &StrTable) -> (r: Result<RuleSet, ErcError>)
        requires
            deck.wf(strings),
        ensures
            match r {
                Ok(set) => {
                    &&& forall|s: int|
                        0 <= s < deck.rules.rows() ==> (#[trigger] fault_at(
                            &deck.rules,
                            strings,
                            s,
                        )) is None
                    &&& set.holds(&deck.rules, strings, deck.rules.spec@.len())
                },
                Err(e) => exists|s: int| #[trigger]
                    first_fault(&deck.rules, strings, s) && e.reports(
                        row_at(&deck.rules, strings, s as u32).title(),
                        fault_at(&deck.rules, strings, s)->0,
                    ),
            },
    {
        let mut set = RuleSet::default();
        let count: usize = deck.rules.spec.len();
        let mut s: usize = 0;
        assert(set.holds(&deck.rules, strings, 0));
        while s < count
            invariant
                deck.wf(strings),
                count == deck.rules.rows(),
                s <= count,
                set.holds(&deck.rules, strings, s as nat),
                set.fits(deck.rules.layers_to(s as nat)),
                forall|t: int|
                    0 <= t < s ==> (#[trigger] fault_at(&deck.rules, strings, t)) is None,
            decreases count - s,
        {
            let row = Row { rules: &deck.rules, strings, at: s };
            proof {
                assert(deck.rules.fits(strings, s as int));
                assert(row_at(&deck.rules, strings, s as u32) == row);
                lemma_layers_to(&deck.rules, (s + 1) as nat, deck.rules.spec@.len());
            }
            if is_duplicated(&deck.rules, s) {
                assert(first_fault(&deck.rules, strings, s as int));
                return Err(ErcError::DuplicateRule(row.name()));
            }
            let kind = kind_of(strings.resolve(deck.rules.spec[s].kind));
            match kind {
                None => {
                    proof {
                        lemma_stepped_over(&set, &deck.rules, strings, s as u32);
                    }
                },
                Some(kind) => {
                    match set.file(&row, kind, Ghost(s as u32)) {
                        Ok(_) => {},
                        Err(e) => {
                            assert(first_fault(&deck.rules, strings, s as int));
                            return Err(e);
                        },
                    }
                },
            }
            assert(fault_at(&deck.rules, strings, s as int) is None);
            s = s + 1;
        }
        Ok(set)
    }
}

/// How many of the first `n` deck rows are of a kind spelled here.
pub open spec fn owned(rules: &RuleTable, strings: &StrTable, n: nat) -> nat
    decreases n,
{
    if n == 0 {
        0
    } else {
        owned(rules, strings, (n - 1) as nat) + if kind_spec(
            row_at(rules, strings, (n - 1) as u32).kind_text(),
        ) is Some {
            1nat
        } else {
            0
        }
    }
}

spec fn filed(rules: &RuleTable, strings: &StrTable, n: nat) -> nat {
    (
        rows_of(rules, strings, Kind::FloatingGate, n).len()
            + rows_of(rules, strings, Kind::FloatingWell, n).len()
            + rows_of(rules, strings, Kind::MultipleDrivers, n).len()
            + rows_of(rules, strings, Kind::UnconnectedPin, n).len()
            + rows_of(rules, strings, Kind::SupplyShort, n).len()
            + rows_of(rules, strings, Kind::SoftConnection, n).len()
            + rows_of(rules, strings, Kind::MissingTie, n).len()
            + rows_of(rules, strings, Kind::TieHighLow, n).len()
            + rows_of(rules, strings, Kind::EsdTopological, n).len()
            + rows_of(rules, strings, Kind::Antenna, n).len()
            + rows_of(rules, strings, Kind::AntennaElectrical, n).len()
            + rows_of(rules, strings, Kind::DensityCmp, n).len()
            + rows_of(rules, strings, Kind::P2pResistance, n).len()
            + rows_of(rules, strings, Kind::IrDrop, n).len()
            + rows_of(rules, strings, Kind::EmCurrentDensity, n).len()
            + rows_of(rules, strings, Kind::Electromigration, n).len()
            + rows_of(rules, strings, Kind::Reliability, n).len()
            + rows_of(rules, strings, Kind::HvDomain, n).len()
            + rows_of(rules, strings, Kind::EsdLatchup, n).len()
    ) as nat
}

proof fn lemma_filed(rules: &RuleTable, strings: &StrTable, n: nat)
    requires
        n <= 0xFFFF_FFFF,
    ensures
        filed(rules, strings, n) == owned(rules, strings, n),
    decreases n,
{
    if n > 0 {
        let s = (n - 1) as u32;
        lemma_filed(rules, strings, s as nat);
        lemma_rows_of(rules, strings, Kind::FloatingGate, s);
        lemma_rows_of(rules, strings, Kind::FloatingWell, s);
        lemma_rows_of(rules, strings, Kind::MultipleDrivers, s);
        lemma_rows_of(rules, strings, Kind::UnconnectedPin, s);
        lemma_rows_of(rules, strings, Kind::SupplyShort, s);
        lemma_rows_of(rules, strings, Kind::SoftConnection, s);
        lemma_rows_of(rules, strings, Kind::MissingTie, s);
        lemma_rows_of(rules, strings, Kind::TieHighLow, s);
        lemma_rows_of(rules, strings, Kind::EsdTopological, s);
        lemma_rows_of(rules, strings, Kind::Antenna, s);
        lemma_rows_of(rules, strings, Kind::AntennaElectrical, s);
        lemma_rows_of(rules, strings, Kind::DensityCmp, s);
        lemma_rows_of(rules, strings, Kind::P2pResistance, s);
        lemma_rows_of(rules, strings, Kind::IrDrop, s);
        lemma_rows_of(rules, strings, Kind::EmCurrentDensity, s);
        lemma_rows_of(rules, strings, Kind::Electromigration, s);
        lemma_rows_of(rules, strings, Kind::Reliability, s);
        lemma_rows_of(rules, strings, Kind::HvDomain, s);
        lemma_rows_of(rules, strings, Kind::EsdLatchup, s);
    }
}

/// A set holds one row for each deck row of a kind it spells, and no other.
pub proof fn lemma_every_row_filed(set: &RuleSet, deck: &Deck, strings: &StrTable)
    requires
        deck.wf(strings),
        set.holds(&deck.rules, strings, deck.rules.spec@.len()),
    ensures
        set.rows() == owned(&deck.rules, strings, deck.rules.spec@.len()),
{
    reveal(RuleSet::holds);
    lemma_filed(&deck.rules, strings, deck.rules.spec@.len());
}

/// Everything one run reads, borrowed.
#[derive(Clone, Copy)]
pub struct RunInputs<'a> {
    pub design: Design<'a>,
    /// Per-net role masks.
    pub facts: &'a NetFacts,
    /// Design intent by net.
    pub intent: &'a IntentMap,
    /// Per-net resistor networks.
    pub networks: &'a NetNetworks,
    /// The solved supply grid, or `None` when no grid was built.
    pub power: Option<Solved<'a>>,
    /// The die boundary, which is what a density is a fraction of.
    pub die: Bbox,
    pub grid: Grid,
    /// The sign-off temperature, in kelvin.
    pub operating_temperature: Number,
    /// The derating exponential of each electromigration row.
    pub exponentials: &'a Vec<Number>,
    /// The transcendental factors of the reliability rows.
    pub factors: &'a LifetimeFactors,
}

/// A run's inputs, with the effective resistances of each network or `None` where
/// it could not be probed.
#[derive(Clone, Copy)]
pub struct Probed<'a> {
    pub inputs: RunInputs<'a>,
    pub probes: &'a Vec<Option<Vec<(u32, u32, Number)>>>,
}

/// What one table contributes to a run.
pub ghost struct Part {
    pub rules: Seq<StrId>,
    pub results: Seq<RowResult>,
}

/// Everything a list of tables found, table after table.
pub open spec fn found_of(parts: Seq<Part>) -> Seq<Violation>
    decreases parts.len(),
{
    if parts.len() == 0 {
        Seq::empty()
    } else {
        found_of(parts.drop_last()) + all_found(parts.last().results)
    }
}

/// The run rows of a list of tables.
pub open spec fn runs_of(parts: Seq<Part>) -> Seq<RuleRun>
    decreases parts.len(),
{
    if parts.len() == 0 {
        Seq::empty()
    } else {
        runs_of(parts.drop_last()) + all_runs(parts.last().rules, parts.last().results)
    }
}

proof fn lemma_part(parts: Seq<Part>, p: Part)
    ensures
        found_of(parts.push(p)) == found_of(parts) + all_found(p.results),
        runs_of(parts.push(p)) == runs_of(parts) + all_runs(p.rules, p.results),
        p.results.len() == 0 ==> found_of(parts.push(p)) == found_of(parts) && runs_of(
            parts.push(p),
        ) == runs_of(parts),
{
    assert(parts.push(p).drop_last() =~= parts);
    if p.results.len() == 0 {
        assert(found_of(parts) + all_found(p.results) =~= found_of(parts));
        assert(runs_of(parts) + all_runs(p.rules, p.results) =~= runs_of(parts));
    }
}

proof fn lemma_parts_join(a: Seq<Part>, b: Seq<Part>)
    ensures
        found_of(a + b) == found_of(a) + found_of(b),
        runs_of(a + b) == runs_of(a) + runs_of(b),
    decreases b.len(),
{
    if b.len() == 0 {
        assert(a + b =~= a);
        assert(found_of(a) + found_of(b) =~= found_of(a));
        assert(runs_of(a) + runs_of(b) =~= runs_of(a));
    } else {
        lemma_parts_join(a, b.drop_last());
        assert((a + b).drop_last() =~= a + b.drop_last());
        assert(found_of(a + b) =~= found_of(a) + found_of(b));
        assert(runs_of(a + b) =~= runs_of(a) + runs_of(b));
    }
}

impl RuleSet {
    /// Whether every table fits a layout.
    pub open spec fn wf(&self, store: &GeometryStore) -> bool {
        &&& self.floating_gate.head.wf()
        &&& self.floating_well.wf(store)
        &&& self.multiple_drivers.wf()
        &&& self.unconnected_pin.wf(store.layers())
        &&& self.supply_short.wf(store)
        &&& self.soft_connection.wf(store)
        &&& self.missing_tie.wf(store)
        &&& self.tie_high_low.head.wf()
        &&& self.esd_topological.wf(store)
        &&& self.antenna.wf(store)
        &&& self.antenna_electrical.wf(store)
        &&& self.density_cmp.wf()
        &&& self.p2p_resistance.wf()
        &&& self.ir_drop.head.wf()
        &&& self.em_current_density.wf()
        &&& self.electromigration.wf()
        &&& self.reliability.wf()
        &&& self.hv_domain.wf(store.layers())
        &&& self.esd_latchup.wf(store.layers())
    }

    /// Whether a run's inputs fit each other and the tables that read them.
    pub open spec fn ready(&self, i: RunInputs) -> bool {
        &&& self.wf(i.design.store)
        &&& i.design.wf()
        &&& i.facts.wf()
        &&& i.facts.role@.len() <= i.design.nets.nets()
        &&& self.tie_high_low.head.rows() > 0 ==> i.facts.role@.len() == i.design.nets.nets()
        &&& overdriven_in(i.design, &self.multiple_drivers)
        &&& i.intent.wf()
        &&& supplies_in(i.intent, i.design.nets.nets())
        &&& i.networks.wf()
        &&& i.networks.taps_in(i.design.store.polys())
        &&& i.power is Some ==> i.power->0.wf()
        &&& i.die.wf()
        &&& self.density_cmp.fits(i.design, i.die)
        &&& i.exponentials@.len() == self.electromigration.head.rows()
        &&& i.power is Some ==> i.factors.fits(
            self.reliability.head.rows(),
            i.power->0.grid.nodes(),
        )
    }

    /// Whether the inputs are fit to run on, and the probes are of their networks.
    pub open spec fn sounded(&self, i: Probed) -> bool {
        &&& self.ready(i.inputs)
        &&& sounds(i.inputs.networks, i.probes@)
    }

    /// What the topology tables contribute, in order.
    pub open spec fn topology_parts(&self, i: Probed) -> Seq<Part> {
        seq![
            Part {
                rules: self.floating_gate.head.rule@,
                results: floating_gate_results(
                    i.inputs.design,
                    i.inputs.facts,
                    &self.floating_gate,
                ),
            },
            Part {
                rules: self.floating_well.head.rule@,
                results: floating_well_results(i.inputs.design, &self.floating_well),
            },
            Part {
                rules: self.multiple_drivers.head.rule@,
                results: multiple_drivers_results(i.inputs.design, &self.multiple_drivers),
            },
            Part {
                rules: self.unconnected_pin.head.rule@,
                results: unconnected_pin_results(
                    i.inputs.design,
                    i.inputs.facts,
                    &self.unconnected_pin,
                ),
            },
        ]
    }

    /// What the supply tables contribute, in order.
    pub open spec fn supply_parts(&self, i: Probed) -> Seq<Part> {
        seq![
            Part {
                rules: self.supply_short.head.rule@,
                results: supply_short_results(i.inputs.design, &self.supply_short),
            },
            Part {
                rules: self.soft_connection.head.rule@,
                results: soft_connection_results(i.inputs.design, &self.soft_connection),
            },
            Part {
                rules: self.missing_tie.head.rule@,
                results: missing_tie_results(i.inputs.design, &self.missing_tie),
            },
            Part {
                rules: self.tie_high_low.head.rule@,
                results: tie_high_low_results(i.inputs.design, i.inputs.facts, &self.tie_high_low),
            },
            Part {
                rules: self.esd_topological.head.rule@,
                results: esd_topological_results(i.inputs.design, &self.esd_topological),
            },
        ]
    }

    /// What the geometry tables contribute, in order.
    pub open spec fn geometry_parts(&self, i: Probed) -> Seq<Part> {
        seq![
            Part {
                rules: self.antenna.head.rule@,
                results: antenna_results(i.inputs.design, &self.antenna),
            },
            Part {
                rules: self.antenna_electrical.head.rule@,
                results: antenna_electrical_results(i.inputs.design, &self.antenna_electrical),
            },
            Part {
                rules: self.density_cmp.head.rule@,
                results: density_results(i.inputs.design, i.inputs.die, &self.density_cmp),
            },
        ]
    }

    /// What the electrical tables contribute, in order.
    pub open spec fn electrical_parts(&self, i: Probed) -> Seq<Part> {
        seq![
            Part {
                rules: self.p2p_resistance.head.rule@,
                results: p2p_results(
                    i.inputs.design,
                    i.inputs.networks,
                    i.probes@,
                    &self.p2p_resistance,
                ),
            },
            Part {
                rules: self.ir_drop.head.rule@,
                results: ir_drop_results(i.inputs.power, i.inputs.intent, &self.ir_drop),
            },
            Part {
                rules: self.em_current_density.head.rule@,
                results: em_results(
                    i.inputs.power,
                    i.inputs.intent,
                    i.inputs.grid,
                    &self.em_current_density,
                ),
            },
            Part {
                rules: self.electromigration.head.rule@,
                results: electromigration_results(
                    i.inputs.power,
                    i.inputs.intent,
                    i.inputs.grid,
                    i.inputs.operating_temperature,
                    i.inputs.exponentials@,
                    &self.electromigration,
                ),
            },
        ]
    }

    /// What the reliability tables contribute, in order.
    pub open spec fn reliability_parts(&self, i: Probed) -> Seq<Part> {
        seq![
            Part {
                rules: self.reliability.head.rule@,
                results: reliability_results(
                    i.inputs.power,
                    i.inputs.intent,
                    i.inputs.operating_temperature,
                    i.inputs.factors,
                    &self.reliability,
                ),
            },
            Part {
                rules: self.hv_domain.head.rule@,
                results: hv_domain_results(i.inputs.design, i.inputs.intent, &self.hv_domain),
            },
            Part {
                rules: self.esd_latchup.head.rule@,
                results: esd_latchup_results(
                    i.inputs.design,
                    i.inputs.intent,
                    i.inputs.networks,
                    i.probes,
                    &self.esd_latchup,
                ),
            },
        ]
    }

    /// What every table contributes, in table order.
    pub open spec fn parts(&self, i: Probed) -> Seq<Part> {
        self.topology_parts(i) + self.supply_parts(i) + self.geometry_parts(i)
            + self.electrical_parts(i) + self.reliability_parts(i)
    }

    /// Whether a run probed the networks of its inputs.
    pub open spec fn ran(&self, inputs: RunInputs, i: Probed) -> bool {
        &&& i.inputs == inputs
        &&& sounds(inputs.networks, i.probes@)
    }

    #[verifier::rlimit(60)]
    fn run_topology(&self, i: Probed, out: &mut Violations, runs: &mut Vec<RuleRun>)
        requires
            self.sounded(i),
        ensures
            final(out)@ == old(out)@ + found_of(self.topology_parts(i)),
            final(runs)@ == old(runs)@ + runs_of(self.topology_parts(i)),
    {
        let ghost first = out@;
        let ghost begun = runs@;
        let ghost mut done: Seq<Part> = Seq::empty();
        assert(out@ =~= first + found_of(done));
        assert(runs@ =~= begun + runs_of(done));
        if !self.floating_gate.head.is_empty() {
            check_floating_gate(i.inputs.design, i.inputs.facts, &self.floating_gate, out, runs);
        }
        proof {
            let p = Part {
                rules: self.floating_gate.head.rule@,
                results: floating_gate_results(
                    i.inputs.design,
                    i.inputs.facts,
                    &self.floating_gate,
                ),
            };
            assert(p.results.len() == self.floating_gate.head.rows());
            lemma_part(done, p);
            done = done.push(p);
        }
        assert(out@ =~= first + found_of(done));
        assert(runs@ =~= begun + runs_of(done));
        if !self.floating_well.head.is_empty() {
            check_floating_well(i.inputs.design, &self.floating_well, out, runs);
        }
        proof {
            let p = Part {
                rules: self.floating_well.head.rule@,
                results: floating_well_results(i.inputs.design, &self.floating_well),
            };
            assert(p.results.len() == self.floating_well.head.rows());
            lemma_part(done, p);
            done = done.push(p);
        }
        assert(out@ =~= first + found_of(done));
        assert(runs@ =~= begun + runs_of(done));
        if !self.multiple_drivers.head.is_empty() {
            check_multiple_drivers(i.inputs.design, &self.multiple_drivers, out, runs);
        }
        proof {
            let p = Part {
                rules: self.multiple_drivers.head.rule@,
                results: multiple_drivers_results(i.inputs.design, &self.multiple_drivers),
            };
            assert(p.results.len() == self.multiple_drivers.head.rows());
            lemma_part(done, p);
            done = done.push(p);
        }
        assert(out@ =~= first + found_of(done));
        assert(runs@ =~= begun + runs_of(done));
        if !self.unconnected_pin.head.is_empty() {
            check_unconnected_pin(
                i.inputs.design,
                i.inputs.facts,
                &self.unconnected_pin,
                out,
                runs,
            );
        }
        proof {
            let p = Part {
                rules: self.unconnected_pin.head.rule@,
                results: unconnected_pin_results(
                    i.inputs.design,
                    i.inputs.facts,
                    &self.unconnected_pin,
                ),
            };
            assert(p.results.len() == self.unconnected_pin.head.rows());
            lemma_part(done, p);
            done = done.push(p);
        }
        assert(out@ =~= first + found_of(done));
        assert(runs@ =~= begun + runs_of(done));
        assert(done =~= self.topology_parts(i));
    }

    #[verifier::rlimit(60)]
    fn run_supply(&self, i: Probed, out: &mut Violations, runs: &mut Vec<RuleRun>)
        requires
            self.sounded(i),
        ensures
            final(out)@ == old(out)@ + found_of(self.supply_parts(i)),
            final(runs)@ == old(runs)@ + runs_of(self.supply_parts(i)),
    {
        let ghost first = out@;
        let ghost begun = runs@;
        let ghost mut done: Seq<Part> = Seq::empty();
        assert(out@ =~= first + found_of(done));
        assert(runs@ =~= begun + runs_of(done));
        if !self.supply_short.head.is_empty() {
            check_supply_short(i.inputs.design, &self.supply_short, out, runs);
        }
        proof {
            let p = Part {
                rules: self.supply_short.head.rule@,
                results: supply_short_results(i.inputs.design, &self.supply_short),
            };
            assert(p.results.len() == self.supply_short.head.rows());
            lemma_part(done, p);
            done = done.push(p);
        }
        assert(out@ =~= first + found_of(done));
        assert(runs@ =~= begun + runs_of(done));
        if !self.soft_connection.head.is_empty() {
            check_soft_connection(i.inputs.design, &self.soft_connection, out, runs);
        }
        proof {
            let p = Part {
                rules: self.soft_connection.head.rule@,
                results: soft_connection_results(i.inputs.design, &self.soft_connection),
            };
            assert(p.results.len() == self.soft_connection.head.rows());
            lemma_part(done, p);
            done = done.push(p);
        }
        assert(out@ =~= first + found_of(done));
        assert(runs@ =~= begun + runs_of(done));
        if !self.missing_tie.head.is_empty() {
            check_missing_tie(i.inputs.design, &self.missing_tie, out, runs);
        }
        proof {
            let p = Part {
                rules: self.missing_tie.head.rule@,
                results: missing_tie_results(i.inputs.design, &self.missing_tie),
            };
            assert(p.results.len() == self.missing_tie.head.rows());
            lemma_part(done, p);
            done = done.push(p);
        }
        assert(out@ =~= first + found_of(done));
        assert(runs@ =~= begun + runs_of(done));
        if !self.tie_high_low.head.is_empty() {
            check_tie_high_low(i.inputs.design, i.inputs.facts, &self.tie_high_low, out, runs);
        }
        proof {
            let p = Part {
                rules: self.tie_high_low.head.rule@,
                results: tie_high_low_results(i.inputs.design, i.inputs.facts, &self.tie_high_low),
            };
            assert(p.results.len() == self.tie_high_low.head.rows());
            lemma_part(done, p);
            done = done.push(p);
        }
        assert(out@ =~= first + found_of(done));
        assert(runs@ =~= begun + runs_of(done));
        if !self.esd_topological.head.is_empty() {
            check_esd_topological(i.inputs.design, &self.esd_topological, out, runs);
        }
        proof {
            let p = Part {
                rules: self.esd_topological.head.rule@,
                results: esd_topological_results(i.inputs.design, &self.esd_topological),
            };
            assert(p.results.len() == self.esd_topological.head.rows());
            lemma_part(done, p);
            done = done.push(p);
        }
        assert(out@ =~= first + found_of(done));
        assert(runs@ =~= begun + runs_of(done));
        assert(done =~= self.supply_parts(i));
    }

    #[verifier::rlimit(60)]
    fn run_geometry(&self, i: Probed, out: &mut Violations, runs: &mut Vec<RuleRun>)
        requires
            self.sounded(i),
        ensures
            final(out)@ == old(out)@ + found_of(self.geometry_parts(i)),
            final(runs)@ == old(runs)@ + runs_of(self.geometry_parts(i)),
    {
        let ghost first = out@;
        let ghost begun = runs@;
        let ghost mut done: Seq<Part> = Seq::empty();
        assert(out@ =~= first + found_of(done));
        assert(runs@ =~= begun + runs_of(done));
        if !self.antenna.head.is_empty() {
            check_antenna(i.inputs.design, &self.antenna, out, runs);
        }
        proof {
            let p = Part {
                rules: self.antenna.head.rule@,
                results: antenna_results(i.inputs.design, &self.antenna),
            };
            assert(p.results.len() == self.antenna.head.rows());
            lemma_part(done, p);
            done = done.push(p);
        }
        assert(out@ =~= first + found_of(done));
        assert(runs@ =~= begun + runs_of(done));
        if !self.antenna_electrical.head.is_empty() {
            check_antenna_electrical(i.inputs.design, &self.antenna_electrical, out, runs);
        }
        proof {
            let p = Part {
                rules: self.antenna_electrical.head.rule@,
                results: antenna_electrical_results(i.inputs.design, &self.antenna_electrical),
            };
            assert(p.results.len() == self.antenna_electrical.head.rows());
            lemma_part(done, p);
            done = done.push(p);
        }
        assert(out@ =~= first + found_of(done));
        assert(runs@ =~= begun + runs_of(done));
        if !self.density_cmp.head.is_empty() {
            check_density_cmp(i.inputs.design, i.inputs.die, &self.density_cmp, out, runs);
        }
        proof {
            let p = Part {
                rules: self.density_cmp.head.rule@,
                results: density_results(i.inputs.design, i.inputs.die, &self.density_cmp),
            };
            assert(p.results.len() == self.density_cmp.head.rows());
            lemma_part(done, p);
            done = done.push(p);
        }
        assert(out@ =~= first + found_of(done));
        assert(runs@ =~= begun + runs_of(done));
        assert(done =~= self.geometry_parts(i));
    }

    #[verifier::rlimit(60)]
    fn run_electrical(&self, i: Probed, out: &mut Violations, runs: &mut Vec<RuleRun>)
        requires
            self.sounded(i),
        ensures
            final(out)@ == old(out)@ + found_of(self.electrical_parts(i)),
            final(runs)@ == old(runs)@ + runs_of(self.electrical_parts(i)),
    {
        let ghost first = out@;
        let ghost begun = runs@;
        let ghost mut done: Seq<Part> = Seq::empty();
        assert(out@ =~= first + found_of(done));
        assert(runs@ =~= begun + runs_of(done));
        if !self.p2p_resistance.head.is_empty() {
            check_p2p_probes(
                i.inputs.design,
                i.inputs.networks,
                i.probes,
                &self.p2p_resistance,
                out,
                runs,
            );
        }
        proof {
            let p = Part {
                rules: self.p2p_resistance.head.rule@,
                results: p2p_results(
                    i.inputs.design,
                    i.inputs.networks,
                    i.probes@,
                    &self.p2p_resistance,
                ),
            };
            assert(p.results.len() == self.p2p_resistance.head.rows());
            lemma_part(done, p);
            done = done.push(p);
        }
        assert(out@ =~= first + found_of(done));
        assert(runs@ =~= begun + runs_of(done));
        if !self.ir_drop.head.is_empty() {
            check_ir_drop(i.inputs.power, i.inputs.intent, &self.ir_drop, out, runs);
        }
        proof {
            let p = Part {
                rules: self.ir_drop.head.rule@,
                results: ir_drop_results(i.inputs.power, i.inputs.intent, &self.ir_drop),
            };
            assert(p.results.len() == self.ir_drop.head.rows());
            lemma_part(done, p);
            done = done.push(p);
        }
        assert(out@ =~= first + found_of(done));
        assert(runs@ =~= begun + runs_of(done));
        if !self.em_current_density.head.is_empty() {
            check_em_current_density(
                i.inputs.power,
                i.inputs.intent,
                i.inputs.grid,
                &self.em_current_density,
                out,
                runs,
            );
        }
        proof {
            let p = Part {
                rules: self.em_current_density.head.rule@,
                results: em_results(
                    i.inputs.power,
                    i.inputs.intent,
                    i.inputs.grid,
                    &self.em_current_density,
                ),
            };
            assert(p.results.len() == self.em_current_density.head.rows());
            lemma_part(done, p);
            done = done.push(p);
        }
        assert(out@ =~= first + found_of(done));
        assert(runs@ =~= begun + runs_of(done));
        if !self.electromigration.head.is_empty() {
            check_electromigration(
                i.inputs.power,
                i.inputs.intent,
                i.inputs.grid,
                i.inputs.operating_temperature,
                i.inputs.exponentials,
                &self.electromigration,
                out,
                runs,
            );
        }
        proof {
            let p = Part {
                rules: self.electromigration.head.rule@,
                results: electromigration_results(
                    i.inputs.power,
                    i.inputs.intent,
                    i.inputs.grid,
                    i.inputs.operating_temperature,
                    i.inputs.exponentials@,
                    &self.electromigration,
                ),
            };
            assert(p.results.len() == self.electromigration.head.rows());
            lemma_part(done, p);
            done = done.push(p);
        }
        assert(out@ =~= first + found_of(done));
        assert(runs@ =~= begun + runs_of(done));
        assert(done =~= self.electrical_parts(i));
    }

    #[verifier::rlimit(60)]
    fn run_reliability(&self, i: Probed, out: &mut Violations, runs: &mut Vec<RuleRun>)
        requires
            self.sounded(i),
        ensures
            final(out)@ == old(out)@ + found_of(self.reliability_parts(i)),
            final(runs)@ == old(runs)@ + runs_of(self.reliability_parts(i)),
    {
        let ghost first = out@;
        let ghost begun = runs@;
        let ghost mut done: Seq<Part> = Seq::empty();
        assert(out@ =~= first + found_of(done));
        assert(runs@ =~= begun + runs_of(done));
        if !self.reliability.head.is_empty() {
            check_reliability(
                i.inputs.power,
                i.inputs.intent,
                i.inputs.operating_temperature,
                i.inputs.factors,
                &self.reliability,
                out,
                runs,
            );
        }
        proof {
            let p = Part {
                rules: self.reliability.head.rule@,
                results: reliability_results(
                    i.inputs.power,
                    i.inputs.intent,
                    i.inputs.operating_temperature,
                    i.inputs.factors,
                    &self.reliability,
                ),
            };
            assert(p.results.len() == self.reliability.head.rows());
            lemma_part(done, p);
            done = done.push(p);
        }
        assert(out@ =~= first + found_of(done));
        assert(runs@ =~= begun + runs_of(done));
        if !self.hv_domain.head.is_empty() {
            check_hv_domain(i.inputs.design, i.inputs.intent, &self.hv_domain, out, runs);
        }
        proof {
            let p = Part {
                rules: self.hv_domain.head.rule@,
                results: hv_domain_results(i.inputs.design, i.inputs.intent, &self.hv_domain),
            };
            assert(p.results.len() == self.hv_domain.head.rows());
            lemma_part(done, p);
            done = done.push(p);
        }
        assert(out@ =~= first + found_of(done));
        assert(runs@ =~= begun + runs_of(done));
        if !self.esd_latchup.head.is_empty() {
            check_latchup_probes(
                i.inputs.design,
                i.inputs.intent,
                i.inputs.networks,
                i.probes,
                &self.esd_latchup,
                out,
                runs,
            );
        }
        proof {
            let p = Part {
                rules: self.esd_latchup.head.rule@,
                results: esd_latchup_results(
                    i.inputs.design,
                    i.inputs.intent,
                    i.inputs.networks,
                    i.probes,
                    &self.esd_latchup,
                ),
            };
            assert(p.results.len() == self.esd_latchup.head.rows());
            lemma_part(done, p);
            done = done.push(p);
        }
        assert(out@ =~= first + found_of(done));
        assert(runs@ =~= begun + runs_of(done));
        assert(done =~= self.reliability_parts(i));
    }

    /// Run every non-empty table's check once, in table order.
    ///
    /// What is found and how each row ran are appended, never cleared, so a
    /// caller may gather several layouts into one report. Every configured rule
    /// row produces exactly one run row, including the ones that could not run.
    pub fn run(&self, inputs: RunInputs, out: &mut Violations, runs: &mut Vec<RuleRun>)
        requires
            self.ready(inputs),
        ensures
            exists|i: Probed| #[trigger]
                self.ran(inputs, i) && final(out)@ == old(out)@ + found_of(
                    self.parts(i),
                ) && final(runs)@ == old(runs)@ + runs_of(self.parts(i)),
            final(runs)@.len() == old(runs)@.len() + self.rows(),
    {
        let ghost first = out@;
        let ghost begun = runs@;
        let probes = probe_rows(inputs.networks);
        let i = Probed { inputs, probes: &probes };
        self.run_topology(i, out, runs);
        self.run_supply(i, out, runs);
        self.run_geometry(i, out, runs);
        self.run_electrical(i, out, runs);
        self.run_reliability(i, out, runs);
        proof {
            let a = self.topology_parts(i);
            let b = self.supply_parts(i);
            let c = self.geometry_parts(i);
            let d = self.electrical_parts(i);
            let e = self.reliability_parts(i);
            lemma_parts_join(a, b);
            lemma_parts_join(a + b, c);
            lemma_parts_join(a + b + c, d);
            lemma_parts_join(a + b + c + d, e);
            assert(out@ =~= first + found_of(self.parts(i)));
            assert(runs@ =~= begun + runs_of(self.parts(i)));
            self.lemma_one_run_per_row(i);
            assert(self.ran(inputs, i));
        }
    }

    /// A run records exactly one run row per configured rule row.
    pub proof fn lemma_one_run_per_row(&self, i: Probed)
        ensures
            runs_of(self.parts(i)).len() == self.rows(),
    {
        lemma_runs_len(self.topology_parts(i));
        lemma_runs_len(self.supply_parts(i));
        lemma_runs_len(self.geometry_parts(i));
        lemma_runs_len(self.electrical_parts(i));
        lemma_runs_len(self.reliability_parts(i));
        lemma_parts_join(self.topology_parts(i), self.supply_parts(i));
        lemma_parts_join(
            self.topology_parts(i) + self.supply_parts(i),
            self.geometry_parts(i),
        );
        lemma_parts_join(
            self.topology_parts(i) + self.supply_parts(i) + self.geometry_parts(i),
            self.electrical_parts(i),
        );
        lemma_parts_join(
            self.topology_parts(i) + self.supply_parts(i) + self.geometry_parts(i)
                + self.electrical_parts(i),
            self.reliability_parts(i),
        );
        self.lemma_topology_len(i);
        self.lemma_supply_len(i);
        self.lemma_geometry_len(i);
        self.lemma_electrical_len(i);
        self.lemma_reliability_len(i);
    }

    proof fn lemma_topology_len(&self, i: Probed)
        ensures
            results_len(self.topology_parts(i)) == self.floating_gate.head.rows()
                + self.floating_well.head.rows() + self.multiple_drivers.head.rows()
                + self.unconnected_pin.head.rows(),
    {
        reveal_with_fuel(results_len, 5);
        let parts = self.topology_parts(i);
        assert(parts.take(4).last() == parts[3]);
        assert(parts.take(4).drop_last() =~= parts.take(3));
        assert(parts[3].results.len() == self.unconnected_pin.head.rows());
        assert(parts.take(3).last() == parts[2]);
        assert(parts.take(3).drop_last() =~= parts.take(2));
        assert(parts[2].results.len() == self.multiple_drivers.head.rows());
        assert(parts.take(2).last() == parts[1]);
        assert(parts.take(2).drop_last() =~= parts.take(1));
        assert(parts[1].results.len() == self.floating_well.head.rows());
        assert(parts.take(1).last() == parts[0]);
        assert(parts.take(1).drop_last() =~= parts.take(0));
        assert(parts[0].results.len() == self.floating_gate.head.rows());
        assert(parts.take(4) =~= parts);
    }

    proof fn lemma_supply_len(&self, i: Probed)
        ensures
            results_len(self.supply_parts(i)) == self.supply_short.head.rows()
                + self.soft_connection.head.rows() + self.missing_tie.head.rows()
                + self.tie_high_low.head.rows() + self.esd_topological.head.rows(),
    {
        reveal_with_fuel(results_len, 6);
        let parts = self.supply_parts(i);
        assert(parts.take(5).last() == parts[4]);
        assert(parts.take(5).drop_last() =~= parts.take(4));
        assert(parts[4].results.len() == self.esd_topological.head.rows());
        assert(parts.take(4).last() == parts[3]);
        assert(parts.take(4).drop_last() =~= parts.take(3));
        assert(parts[3].results.len() == self.tie_high_low.head.rows());
        assert(parts.take(3).last() == parts[2]);
        assert(parts.take(3).drop_last() =~= parts.take(2));
        assert(parts[2].results.len() == self.missing_tie.head.rows());
        assert(parts.take(2).last() == parts[1]);
        assert(parts.take(2).drop_last() =~= parts.take(1));
        assert(parts[1].results.len() == self.soft_connection.head.rows());
        assert(parts.take(1).last() == parts[0]);
        assert(parts.take(1).drop_last() =~= parts.take(0));
        assert(parts[0].results.len() == self.supply_short.head.rows());
        assert(parts.take(5) =~= parts);
    }

    proof fn lemma_geometry_len(&self, i: Probed)
        ensures
            results_len(self.geometry_parts(i)) == self.antenna.head.rows()
                + self.antenna_electrical.head.rows() + self.density_cmp.head.rows(),
    {
        reveal_with_fuel(results_len, 4);
        let parts = self.geometry_parts(i);
        assert(parts.take(3).last() == parts[2]);
        assert(parts.take(3).drop_last() =~= parts.take(2));
        assert(parts[2].results.len() == self.density_cmp.head.rows());
        assert(parts.take(2).last() == parts[1]);
        assert(parts.take(2).drop_last() =~= parts.take(1));
        assert(parts[1].results.len() == self.antenna_electrical.head.rows());
        assert(parts.take(1).last() == parts[0]);
        assert(parts.take(1).drop_last() =~= parts.take(0));
        assert(parts[0].results.len() == self.antenna.head.rows());
        assert(parts.take(3) =~= parts);
    }

    proof fn lemma_electrical_len(&self, i: Probed)
        ensures
            results_len(self.electrical_parts(i)) == self.p2p_resistance.head.rows()
                + self.ir_drop.head.rows() + self.em_current_density.head.rows()
                + self.electromigration.head.rows(),
    {
        reveal_with_fuel(results_len, 5);
        let parts = self.electrical_parts(i);
        assert(parts.take(4).last() == parts[3]);
        assert(parts.take(4).drop_last() =~= parts.take(3));
        assert(parts[3].results.len() == self.electromigration.head.rows());
        assert(parts.take(3).last() == parts[2]);
        assert(parts.take(3).drop_last() =~= parts.take(2));
        assert(parts[2].results.len() == self.em_current_density.head.rows());
        assert(parts.take(2).last() == parts[1]);
        assert(parts.take(2).drop_last() =~= parts.take(1));
        assert(parts[1].results.len() == self.ir_drop.head.rows());
        assert(parts.take(1).last() == parts[0]);
        assert(parts.take(1).drop_last() =~= parts.take(0));
        assert(parts[0].results.len() == self.p2p_resistance.head.rows());
        assert(parts.take(4) =~= parts);
    }

    proof fn lemma_reliability_len(&self, i: Probed)
        ensures
            results_len(self.reliability_parts(i)) == self.reliability.head.rows()
                + self.hv_domain.head.rows() + self.esd_latchup.head.rows(),
    {
        reveal_with_fuel(results_len, 4);
        let parts = self.reliability_parts(i);
        assert(parts.take(3).last() == parts[2]);
        assert(parts.take(3).drop_last() =~= parts.take(2));
        assert(parts[2].results.len() == self.esd_latchup.head.rows());
        assert(parts.take(2).last() == parts[1]);
        assert(parts.take(2).drop_last() =~= parts.take(1));
        assert(parts[1].results.len() == self.hv_domain.head.rows());
        assert(parts.take(1).last() == parts[0]);
        assert(parts.take(1).drop_last() =~= parts.take(0));
        assert(parts[0].results.len() == self.reliability.head.rows());
        assert(parts.take(3) =~= parts);
    }

}

/// How many results a list of tables has.
spec fn results_len(parts: Seq<Part>) -> int
    decreases parts.len(),
{
    if parts.len() == 0 {
        0
    } else {
        results_len(parts.drop_last()) + parts.last().results.len()
    }
}

proof fn lemma_runs_len(parts: Seq<Part>)
    ensures
        runs_of(parts).len() == results_len(parts),
    decreases parts.len(),
{
    if parts.len() > 0 {
        lemma_runs_len(parts.drop_last());
    }
}

impl RuleSet {
    /// A rule that needs design intent and has none records every row as
    /// skipped and finds nothing; it never reads as clean.
    pub proof fn lemma_gated_rules_skip(&self, i: Probed)
        requires
            !i.inputs.intent.usable(),
        ensures
            forall|k: int|
                1 <= k < 4 ==> skipped((#[trigger] self.electrical_parts(i)[k]).results),
            forall|k: int|
                0 <= k < 3 ==> skipped((#[trigger] self.reliability_parts(i)[k]).results),
    {
        lemma_all_ended(
            self.ir_drop.head.rule@.len(),
            Outcome::Skipped(SkipReason::NoDesignIntent),
        );
        lemma_all_ended(
            self.em_current_density.head.rule@.len(),
            Outcome::Skipped(SkipReason::NoDesignIntent),
        );
        lemma_all_ended(
            self.electromigration.head.rule@.len(),
            Outcome::Skipped(SkipReason::NoDesignIntent),
        );
        lemma_all_ended(
            self.reliability.head.rule@.len(),
            Outcome::Skipped(SkipReason::NoDesignIntent),
        );
        lemma_all_ended(
            self.hv_domain.head.rule@.len(),
            Outcome::Skipped(SkipReason::NoDesignIntent),
        );
        lemma_all_ended(
            self.esd_latchup.head.rule@.len(),
            Outcome::Skipped(SkipReason::NoDesignIntent),
        );
    }

    /// The rules reading a solved grid skip without one, whatever was declared.
    pub proof fn lemma_unsolved_rules_skip(&self, i: Probed)
        requires
            i.inputs.power is None,
        ensures
            forall|k: int|
                1 <= k < 4 ==> skipped((#[trigger] self.electrical_parts(i)[k]).results),
            skipped(self.reliability_parts(i)[0].results),
    {
        lemma_all_ended(
            self.ir_drop.head.rule@.len(),
            Outcome::Skipped(SkipReason::NoDesignIntent),
        );
        lemma_all_ended(
            self.em_current_density.head.rule@.len(),
            Outcome::Skipped(SkipReason::NoDesignIntent),
        );
        lemma_all_ended(
            self.electromigration.head.rule@.len(),
            Outcome::Skipped(SkipReason::NoDesignIntent),
        );
        lemma_all_ended(
            self.reliability.head.rule@.len(),
            Outcome::Skipped(SkipReason::NoDesignIntent),
        );
    }
}

/// Whether every row was skipped for want of design intent and found nothing.
pub open spec fn skipped(results: Seq<RowResult>) -> bool {
    &&& all_found(results) == Seq::<Violation>::empty()
    &&& forall|r: int|
        0 <= r < results.len() ==> (#[trigger] results[r]).outcome == Outcome::Skipped(
            SkipReason::NoDesignIntent,
        ) && results[r].examined == 0
}

/// A run row's violation count is what its row reported, held at the largest
/// value the column carries.
pub proof fn lemma_run_counts_its_violations(rules: Seq<StrId>, results: Seq<RowResult>, r: int)
    requires
        0 <= r < results.len(),
    ensures
        all_runs(rules, results)[r].violations == saturated(results[r].found.len()),
        all_runs(rules, results)[r].rule == rules[r],
{
}

} // verus!
