//! Filing a deck's rows, and one run row for every row filed.
use gpurify_erc::deck::{Deck, ErcError, ParamValue, RuleSpec, RuleTable};
use gpurify_erc::design::{Derived, Design, LayerShapes};
use gpurify_erc::facts::{classify_nets_into, NetFacts, RoleMask};
use gpurify_erc::filing::kinds;
use gpurify_erc::geom::{Bbox, Point};
use gpurify_erc::intent::IntentMap;
use gpurify_erc::model::{LayerId, LayerRef, NetId, PolyId, StrId, TerminalRole, NO_NET};
use gpurify_erc::number::Number;
use gpurify_erc::power::network::{Grid, NetNetworks};
use gpurify_erc::report::{
    LimitSense, Measurement, Outcome, RuleRun, Severity, SkipReason, Violation, Violations,
};
use gpurify_erc::rules::antenna::{AntennaElectricalTable, AntennaMeasure, AntennaTable};
use gpurify_erc::rules::density::DensityCmpTable;
use gpurify_erc::rules::electrical::{
    ElectromigrationTable, EmCurrentDensityTable, IrDropTable, P2pResistanceTable,
};
use gpurify_erc::rules::latchup::EsdLatchupTable;
use gpurify_erc::rules::missing_tie::MissingTieTable;
use gpurify_erc::rules::reliability::{HvDomainTable, LifetimeFactors, ReliabilityTable};
use gpurify_erc::rules::supply::{
    EsdTopologicalTable, SoftConnectionTable, SupplyShortTable, TieHighLowTable,
};
use gpurify_erc::rules::topology::{
    check_floating_gate, check_multiple_drivers, FloatingGateTable, FloatingWellTable,
    MultipleDriversTable, UnconnectedPinTable,
};
use gpurify_erc::ruleset::{RuleHead, RuleSet, RunInputs};
use gpurify_erc::store::{DeviceTable, GeometryStore, NetTable};
use gpurify_erc::text::StrTable;

fn num(v: f64) -> Number {
    Number { bits: v.to_bits() }
}

fn id_of(kind: &str) -> StrId {
    let index = kinds().iter().position(|&k| k == kind);
    StrId(index.expect("a kind of the list") as u32)
}

fn head(kind: &str) -> RuleHead {
    RuleHead { rule: vec![id_of(kind)], severity: vec![Severity::Error] }
}

const INTENT_GATED: [&str; 6] = [
    "electromigration",
    "em_current_density",
    "esd_latchup",
    "hv_domain",
    "ir_drop",
    "reliability",
];

/// One row of every kind, all naming layers of the cell below.
fn every_kind() -> RuleSet {
    let base = LayerRef::Base(LayerId(0));
    let other = LayerRef::Base(LayerId(1));
    RuleSet {
        floating_gate: FloatingGateTable { head: head("floating_gate") },
        floating_well: FloatingWellTable {
            head: head("floating_well"),
            well: vec![base],
            tap: vec![other],
        },
        multiple_drivers: MultipleDriversTable {
            head: head("multiple_drivers"),
            max_drivers: vec![1],
        },
        unconnected_pin: UnconnectedPinTable {
            head: head("unconnected_pin"),
            layer_start: vec![0, 1],
            layer: vec![LayerId(0)],
        },
        supply_short: SupplyShortTable {
            head: head("supply_short"),
            tap_a: vec![base],
            tap_b: vec![other],
        },
        soft_connection: SoftConnectionTable {
            head: head("soft_connection"),
            soft_start: vec![0, 1],
            soft: vec![other],
        },
        missing_tie: MissingTieTable {
            head: head("missing_tie"),
            region: vec![base],
            tap: vec![other],
            max_distance: vec![50_000],
        },
        tie_high_low: TieHighLowTable { head: head("tie_high_low") },
        esd_topological: EsdTopologicalTable {
            head: head("esd_topological"),
            pad: vec![LayerId(0)],
            clamp_start: vec![0, 0],
            clamp_model: Vec::new(),
        },
        antenna: AntennaTable {
            head: head("antenna"),
            gate: vec![base],
            collector_start: vec![0, 1],
            collector: vec![other],
            collector_measure: vec![AntennaMeasure::Area],
            max_ratio: vec![num(50.0)],
        },
        antenna_electrical: AntennaElectricalTable {
            head: head("antenna_electrical"),
            gate: vec![base],
            collector_start: vec![0, 1],
            collector: vec![other],
            diode: vec![None],
            diode_credit: vec![num(0.0)],
            diode_bonus: vec![num(0.0)],
            max_ratio: vec![num(50.0)],
        },
        density_cmp: DensityCmpTable {
            head: head("density_cmp"),
            layer: vec![base],
            window: vec![(2_000, 2_000)],
            step: vec![(2_000, 2_000)],
            min_density: vec![None],
            max_density: vec![Some(num(0.99))],
            max_neighbour_delta: vec![None],
            cmp: vec![None],
            include_partial_windows: vec![true],
        },
        p2p_resistance: P2pResistanceTable {
            head: head("p2p_resistance"),
            max_resistance: vec![num(100.0)],
        },
        ir_drop: IrDropTable { head: head("ir_drop") },
        em_current_density: EmCurrentDensityTable {
            head: head("em_current_density"),
            layer_start: vec![0, 1],
            layer: vec![LayerId(0)],
            max_density: vec![num(1e9)],
            max_current_per_cut: vec![num(200.0)],
        },
        electromigration: ElectromigrationTable {
            head: head("electromigration"),
            layer_start: vec![0, 1],
            layer: vec![LayerId(0)],
            max_density: vec![num(1e9)],
            max_current_per_cut: vec![num(200.0)],
            blech_limit: vec![num(1.0)],
            reference_temperature: vec![num(358.15)],
            activation_energy_ev: vec![num(0.7)],
            current_exponent: vec![num(2.0)],
        },
        reliability: ReliabilityTable {
            head: head("reliability"),
            required_lifetime_hours: vec![num(87_600.0)],
            mechanism: vec![StrId(900)],
            reference_lifetime_hours: vec![num(10_000.0)],
            reference_stress: vec![num(2_000.0)],
            stress_exponent: vec![num(4.0)],
            reference_temperature: vec![num(398.15)],
            activation_energy_ev: vec![num(0.6)],
            duty_cycle: vec![num(0.5)],
            max_abs_voltage: vec![num(1_950.0)],
        },
        hv_domain: HvDomainTable {
            head: head("hv_domain"),
            max_domain_delta: vec![num(1_000.0)],
            isolation: vec![None],
        },
        esd_latchup: EsdLatchupTable {
            head: head("esd_latchup"),
            pad: vec![LayerId(0)],
            guard_ring: vec![LayerId(1)],
            clamp_start: vec![0, 0],
            clamp_model: Vec::new(),
            clamp_resistance: Vec::new(),
            clamp_capacity: Vec::new(),
            clamp_voltage: Vec::new(),
            required_current: vec![num(100.0)],
            max_path_resistance: vec![num(2.0)],
            max_clamp_voltage: vec![num(4_000.0)],
            min_guard_ring_width: vec![100],
            max_tap_distance: vec![100_000],
        },
    }
}

/// What a run borrows, over one rectangle on each of two layers.
struct Cell {
    store: GeometryStore,
    derived: Derived,
    nets: NetTable,
    devices: DeviceTable,
    facts: NetFacts,
    networks: NetNetworks,
    exponentials: Vec<Number>,
    factors: LifetimeFactors,
}

fn no_nets() -> NetTable {
    NetTable { net_of: Vec::new(), poly_start: Vec::new(), poly: Vec::new() }
}

fn no_devices() -> DeviceTable {
    DeviceTable {
        terminal_start: Vec::new(),
        terminal_net: Vec::new(),
        terminal_role: Vec::new(),
        model: Vec::new(),
        marker: Vec::new(),
    }
}

impl Cell {
    fn new(rules: &RuleSet) -> Self {
        let mut store = GeometryStore {
            layer_start: vec![0, 1, 2],
            layer: vec![LayerId(0), LayerId(1)],
            bbox: Vec::new(),
            vert_start: vec![0],
            xs: Vec::new(),
            ys: Vec::new(),
        };
        let mut derived = Derived {
            name: Vec::new(),
            shapes: Vec::new(),
            validated: Vec::new(),
            merged: Vec::new(),
        };
        for (xlo, ylo, xhi, yhi) in [(0i64, 0i64, 1_000i64, 2_000i64), (1_200, 200, 1_800, 800)] {
            let bbox = Bbox { xlo, ylo, xhi, yhi };
            let ring = vec![
                Point { x: xlo, y: ylo },
                Point { x: xhi, y: ylo },
                Point { x: xhi, y: yhi },
                Point { x: xlo, y: yhi },
            ];
            store.bbox.push(bbox);
            store.xs.extend(ring.iter().map(|p| p.x));
            store.ys.extend(ring.iter().map(|p| p.y));
            store.vert_start.push(store.xs.len() as u32);
            derived.merged.push(Some(vec![bbox]));
            derived.validated.push(Some(LayerShapes {
                boxes: vec![bbox],
                ring_start: vec![0, 1],
                rings: vec![ring],
            }));
        }
        Self {
            store,
            derived,
            nets: no_nets(),
            devices: no_devices(),
            facts: NetFacts::default(),
            networks: NetNetworks::default(),
            exponentials: vec![num(1.0); rules.electromigration.head.len()],
            factors: LifetimeFactors { thermal: Vec::new(), stress: Vec::new() },
        }
    }

    fn inputs<'a>(&'a self, intent: &'a IntentMap) -> RunInputs<'a> {
        RunInputs {
            design: Design {
                store: &self.store,
                derived: &self.derived,
                nets: &self.nets,
                devices: &self.devices,
            },
            facts: &self.facts,
            intent,
            networks: &self.networks,
            power: None,
            die: Bbox { xlo: 0, ylo: 0, xhi: 2_000, yhi: 2_000 },
            grid: Grid { dbu_per_um: 1_000 },
            operating_temperature: num(358.15),
            exponentials: &self.exponentials,
            factors: &self.factors,
        }
    }
}

#[test]
fn every_configured_rule_row_produces_exactly_one_run_row() {
    let rules = every_kind();
    let cell = Cell::new(&rules);
    let intent = IntentMap::default();
    let mut violations = Violations::default();
    let mut runs = Vec::new();
    rules.run(cell.inputs(&intent), &mut violations, &mut runs);

    assert_eq!(rules.len(), kinds().len(), "one row of each kind was configured");
    assert_eq!(runs.len(), rules.len(), "a run row went missing");
    let mut ids: Vec<u32> = runs.iter().map(|r| r.rule.0).collect();
    ids.sort_unstable();
    ids.dedup();
    assert_eq!(ids.len(), runs.len(), "two run rows share one rule id");
    let counted: u32 = runs.iter().map(|r| r.violations).sum();
    assert_eq!(counted as usize, violations.len());
}

#[test]
fn without_intent_exactly_the_six_gated_kinds_record_themselves_skipped() {
    let rules = every_kind();
    let cell = Cell::new(&rules);
    let intent = IntentMap::default();
    let mut violations = Violations::default();
    let mut runs: Vec<RuleRun> = Vec::new();
    rules.run(cell.inputs(&intent), &mut violations, &mut runs);

    for kind in kinds() {
        let row = runs.iter().find(|r| r.rule == id_of(kind)).expect("one row per kind");
        if INTENT_GATED.contains(&kind) {
            assert_eq!(row.outcome, Outcome::Skipped(SkipReason::NoDesignIntent), "{kind}");
            assert_eq!(row.examined, 0, "{kind}");
            assert_eq!(row.violations, 0, "{kind}");
        } else {
            assert_eq!(row.outcome, Outcome::Ran, "{kind}");
        }
    }
}

#[test]
fn a_kind_the_deck_did_not_configure_produces_no_run_row() {
    let rules = RuleSet::default();
    let cell = Cell::new(&rules);
    let intent = IntentMap::default();
    let mut violations = Violations::default();
    let mut runs = Vec::new();
    assert!(rules.is_empty());
    assert_eq!(rules.len(), 0);
    rules.run(cell.inputs(&intent), &mut violations, &mut runs);
    assert!(runs.is_empty(), "an empty rule set claims nothing was checked");
    assert_eq!(violations.len(), 0);
}

#[test]
fn run_appends_to_the_buffers_it_is_given() {
    let rules = every_kind();
    let cell = Cell::new(&rules);
    let intent = IntentMap::default();
    let mut violations = Violations::default();
    let mut runs = vec![RuleRun {
        rule: StrId(999),
        outcome: Outcome::Ran,
        examined: 7,
        violations: 0,
    }];
    violations.push(Violation {
        rule: StrId(999),
        layer: LayerId(0),
        severity: Severity::Warning,
        at: Point { x: 1, y: 1 },
        measured: Measurement::Count(1),
        limit: Measurement::Count(0),
        shapes: (PolyId(0), None),
    });
    rules.run(cell.inputs(&intent), &mut violations, &mut runs);
    assert_eq!(runs[0].rule, StrId(999), "the caller's earlier run row was dropped");
    assert_eq!(runs.len(), rules.len() + 1);
    assert_eq!(violations.rows[0].rule, StrId(999), "the earlier violation was dropped");
}

#[test]
fn running_one_rule_set_twice_produces_identical_rows() {
    let rules = every_kind();
    let cell = Cell::new(&rules);
    let intent = IntentMap::default();
    let mut first = Violations::default();
    let mut first_runs = Vec::new();
    rules.run(cell.inputs(&intent), &mut first, &mut first_runs);
    let mut second = Violations::default();
    let mut second_runs = Vec::new();
    rules.run(cell.inputs(&intent), &mut second, &mut second_runs);
    assert_eq!(first.rows, second.rows);
    assert_eq!(first_runs, second_runs);
}

/// A deck row: its id, its kind, its layers, and its parameters.
type Line<'a> = (&'a str, &'a str, &'a [u32], &'a [(&'a str, ParamValue)]);

fn deck_of(strings: &mut StrTable, lines: &[Line<'_>]) -> (Deck, Vec<StrId>) {
    let mut rules = RuleTable {
        spec: Vec::new(),
        layer: Vec::new(),
        param_name: Vec::new(),
        param_value: Vec::new(),
    };
    let mut ids = Vec::new();
    for &(id, kind, layers, params) in lines {
        let id = strings.intern(id);
        let kind = strings.intern(kind);
        ids.push(id);
        rules.spec.push(RuleSpec {
            id,
            kind,
            layer_start: rules.layer.len() as u32,
            layer_len: layers.len() as u32,
            param_start: rules.param_name.len() as u32,
            param_len: params.len() as u32,
        });
        rules.layer.extend(layers.iter().map(|&l| LayerId(l)));
        for &(name, v) in params {
            rules.param_name.push(strings.intern(name));
            rules.param_value.push(v);
        }
    }
    (Deck { rules }, ids)
}

#[test]
fn from_deck_files_each_row_under_the_kind_the_deck_named() {
    let mut strings = StrTable::default();
    let (deck, ids) = deck_of(
        &mut strings,
        &[("gate.floating", "floating_gate", &[], &[]), ("net.tied", "tie_high_low", &[], &[])],
    );
    let rules = RuleSet::from_deck(&deck, &strings).expect("neither takes a parameter");
    assert_eq!(rules.len(), 2, "two configured rows");
    assert!(!rules.is_empty());
    assert_eq!(rules.floating_gate.head.rule, vec![ids[0]]);
    assert_eq!(rules.tie_high_low.head.rule, vec![ids[1]]);
    assert!(rules.ir_drop.head.is_empty() && rules.multiple_drivers.head.is_empty());
    assert_eq!(rules.floating_gate.head.len(), 1);
}

#[test]
fn a_filed_set_runs_over_a_layout_that_has_its_layers() {
    let mut strings = StrTable::default();
    let (deck, ids) = deck_of(
        &mut strings,
        &[
            ("well.floating", "floating_well", &[0, 0], &[]),
            ("soft", "soft_connection", &[0], &[]),
            ("net.antenna", "antenna", &[0, 0], &[("max_ratio", ParamValue::Ratio(num(400.0)))]),
            ("pad.open", "unconnected_pin", &[0], &[]),
        ],
    );
    let rules = RuleSet::from_deck(&deck, &strings).expect("every row is complete");
    let cell = Cell::new(&rules);
    let intent = IntentMap::default();
    let mut violations = Violations::default();
    let mut runs: Vec<RuleRun> = Vec::new();
    rules.run(cell.inputs(&intent), &mut violations, &mut runs);
    let mut ran: Vec<u32> = runs.iter().map(|r| r.rule.0).collect();
    ran.sort_unstable();
    let mut filed: Vec<u32> = ids.iter().map(|id| id.0).collect();
    filed.sort_unstable();
    assert_eq!(ran, filed, "every filed row ran once");
    assert_eq!(rules.antenna.collector_start, vec![0, 1]);
    assert_eq!(rules.antenna.collector, vec![LayerRef::Base(LayerId(0))]);
}

#[test]
fn a_deck_naming_a_kind_this_crate_does_not_implement_files_no_row() {
    let mut strings = StrTable::default();
    let (deck, _) = deck_of(
        &mut strings,
        &[("met1.width", "min_width", &[], &[]), ("gate.floating", "floating_gate", &[], &[])],
    );
    let rules = RuleSet::from_deck(&deck, &strings).expect("another domain's row is stepped over");
    assert_eq!(rules.len(), 1, "only one row is filed");
    assert_eq!(rules.floating_gate.head.len(), 1);
}

#[test]
fn a_deck_defining_one_rule_id_twice_is_refused() {
    let mut strings = StrTable::default();
    let (deck, _) = deck_of(
        &mut strings,
        &[
            ("gate.floating", "floating_gate", &[], &[]),
            ("gate.floating", "tie_high_low", &[], &[]),
        ],
    );
    assert_eq!(refusal(&deck, &strings), ErcError::DuplicateRule("gate.floating".to_owned()));
}

#[test]
fn every_kind_the_list_names_is_a_kind_from_deck_recognises() {
    for kind in kinds() {
        let mut strings = StrTable::default();
        let (deck, _) = deck_of(&mut strings, &[("the.rule", kind, &[], &[])]);
        if let Ok(rules) = RuleSet::from_deck(&deck, &strings) {
            assert_eq!(rules.len(), 1, "{kind} is listed, but no row is filed for it");
        }
    }
    for kind in INTENT_GATED {
        assert!(kinds().contains(&kind), "{kind} is not a kind the deck can name");
    }
}

fn refusal(deck: &Deck, strings: &StrTable) -> ErcError {
    match RuleSet::from_deck(deck, strings) {
        Ok(_) => panic!("the deck was filed"),
        Err(e) => e,
    }
}

fn refusal_of(line: Line<'_>) -> ErcError {
    let mut strings = StrTable::default();
    let (deck, _) = deck_of(&mut strings, &[line]);
    refusal(&deck, &strings)
}

#[test]
fn a_row_with_a_fault_is_refused_by_name() {
    let rule = || "the.rule".to_owned();
    assert_eq!(
        refusal_of(("the.rule", "p2p_resistance", &[], &[])),
        ErcError::MissingParam { rule: rule(), param: "max_resistance" }
    );
    assert_eq!(
        refusal_of(("the.rule", "multiple_drivers", &[], &[("max_drivers", ParamValue::Flag(true))])),
        ErcError::WrongParamType { rule: rule(), param: "max_drivers" }
    );
    assert_eq!(
        refusal_of(("the.rule", "floating_gate", &[0, 1], &[])),
        ErcError::WrongLayerCount { rule: rule(), expected: 0, found: 2 }
    );
    assert_eq!(
        refusal_of(("the.rule", "floating_well", &[0], &[])),
        ErcError::WrongLayerCount { rule: rule(), expected: 2, found: 1 }
    );
    assert_eq!(
        refusal_of((
            "the.rule",
            "p2p_resistance",
            &[],
            &[("max_resistance", ParamValue::Ratio(num(0.0)))]
        )),
        ErcError::NonPositiveLimit { rule: rule(), limit: "max_resistance".to_owned() }
    );
    let window = [
        ("window_x", ParamValue::Length(100)),
        ("window_y", ParamValue::Length(100)),
        ("step_x", ParamValue::Length(100)),
        ("step_y", ParamValue::Length(100)),
        ("min_density", ParamValue::Ratio(num(1.5))),
    ];
    assert_eq!(
        refusal_of(("the.rule", "density_cmp", &[0], &window)),
        ErcError::NotAFraction { rule: rule(), param: "min_density" }
    );
}

/// A density row that skips clipped windows is refused for a die whose edges its
/// steps do not reach, and for no other; a deck at fault is refused for that first.
#[test]
fn a_deck_that_leaves_a_strip_of_the_die_unchecked_is_refused() {
    let row = |partial: bool| {
        [
            ("window_x", ParamValue::Length(1_000)),
            ("window_y", ParamValue::Length(1_000)),
            ("step_x", ParamValue::Length(500)),
            ("step_y", ParamValue::Length(500)),
            ("min_density", ParamValue::Ratio(num(0.2))),
            ("include_partial_windows", ParamValue::Flag(partial)),
        ]
    };
    for (partial, xhi, refused) in
        [(false, 1_500, false), (false, 1_700, true), (true, 1_700, false), (false, 900, true)]
    {
        let mut strings = StrTable::default();
        let params = row(partial);
        let (deck, _) = deck_of(
            &mut strings,
            &[
                ("gate.floating", "floating_gate", &[], &[]),
                ("met1.density", "density_cmp", &[0], &params),
            ],
        );
        let die = Bbox { xlo: 0, ylo: 0, xhi, yhi: 1_000 };
        match RuleSet::from_deck_over(&deck, &strings, die) {
            Ok(rules) => {
                assert!(!refused);
                assert_eq!(rules.len(), 2);
            }
            Err(e) => {
                assert!(refused);
                assert_eq!(e, ErcError::UncheckedEdge("met1.density".to_owned()));
            }
        }
        assert!(RuleSet::from_deck(&deck, &strings).is_ok());
    }
    let mut strings = StrTable::default();
    let (deck, _) = deck_of(
        &mut strings,
        &[
            ("met1.density", "density_cmp", &[0], &row(false)),
            ("nets", "multiple_drivers", &[], &[("max_drivers", ParamValue::Flag(true))]),
        ],
    );
    let die = Bbox { xlo: 0, ylo: 0, xhi: 1_700, yhi: 1_000 };
    match RuleSet::from_deck_over(&deck, &strings, die) {
        Ok(_) => panic!("the deck was filed"),
        Err(e) => assert_eq!(
            e,
            ErcError::WrongParamType { rule: "nets".to_owned(), param: "max_drivers" }
        ),
    }
}

#[test]
fn a_row_carries_its_layers_parameters_and_severity() {
    let mut strings = StrTable::default();
    let (deck, ids) = deck_of(
        &mut strings,
        &[
            (
                "well.tie",
                "missing_tie",
                &[4, 7],
                &[
                    ("max_distance", ParamValue::Length(12_000)),
                    ("warning", ParamValue::Flag(true)),
                ],
            ),
            (
                "em.metal",
                "em_current_density",
                &[2, 3],
                &[
                    ("max_density", ParamValue::Ratio(num(5e5))),
                    ("max_current_per_cut", ParamValue::Ratio(num(150.0))),
                ],
            ),
        ],
    );
    let rules = RuleSet::from_deck(&deck, &strings).expect("both rows are complete");
    assert_eq!(rules.missing_tie.head.rule, vec![ids[0]]);
    assert_eq!(rules.missing_tie.head.severity, vec![Severity::Warning]);
    assert_eq!(rules.missing_tie.region, vec![LayerRef::Base(LayerId(4))]);
    assert_eq!(rules.missing_tie.tap, vec![LayerRef::Base(LayerId(7))]);
    assert_eq!(rules.missing_tie.max_distance, vec![12_000]);
    assert_eq!(rules.em_current_density.head.severity, vec![Severity::Error]);
    assert_eq!(rules.em_current_density.layer_start, vec![0, 2]);
    assert_eq!(rules.em_current_density.layer, vec![LayerId(2), LayerId(3)]);
    assert_eq!(rules.em_current_density.max_density, vec![num(5e5), num(5e5)]);
    assert_eq!(rules.em_current_density.max_current_per_cut, vec![num(150.0), num(150.0)]);
}

/// Two transistors drive net one and share gate net zero, which nothing drives.
fn two_drivers() -> (NetTable, DeviceTable) {
    let nets = NetTable {
        net_of: vec![NetId(0), NetId(1)],
        poly_start: vec![0, 1, 2],
        poly: vec![PolyId(0), PolyId(1)],
    };
    let devices = DeviceTable {
        terminal_start: vec![0, 2, 4],
        terminal_net: vec![NetId(0), NetId(1), NetId(0), NetId(1)],
        terminal_role: vec![
            TerminalRole::Gate,
            TerminalRole::Drain,
            TerminalRole::Gate,
            TerminalRole::Drain,
        ],
        model: vec![StrId(0), StrId(0)],
        marker: vec![PolyId(0), PolyId(1)],
    };
    (nets, devices)
}

#[test]
fn nets_are_classified_by_the_terminals_on_them() {
    let (nets, devices) = two_drivers();
    let mut facts = NetFacts::default();
    classify_nets_into(&nets, &devices, &mut facts);
    assert_eq!(facts.len(), 2);
    assert_eq!(facts.role_of(NetId(0)), RoleMask(RoleMask::GATE));
    assert_eq!(facts.role_of(NetId(1)), RoleMask(RoleMask::DRAIN));
    assert_eq!(facts.terminals, vec![2, 2]);
    assert!(facts.is_device_connected(NetId(0)));
    assert!(!facts.is_device_connected(NetId(NO_NET)));

    // The same terminals in another order classify alike.
    let swapped = DeviceTable {
        terminal_start: vec![0, 2, 4],
        terminal_net: vec![NetId(1), NetId(0), NetId(1), NetId(0)],
        terminal_role: vec![
            TerminalRole::Drain,
            TerminalRole::Gate,
            TerminalRole::Drain,
            TerminalRole::Gate,
        ],
        model: devices.model.clone(),
        marker: devices.marker.clone(),
    };
    let mut again = NetFacts::default();
    classify_nets_into(&nets, &swapped, &mut again);
    assert_eq!(again.role, facts.role);
    assert_eq!(again.terminals, facts.terminals);
}

#[test]
fn floating_gates_and_fought_over_nets_are_flagged() {
    let rules = every_kind();
    let mut cell = Cell::new(&rules);
    let (nets, devices) = two_drivers();
    classify_nets_into(&nets, &devices, &mut cell.facts);
    cell.nets = nets;
    cell.devices = devices;
    let intent = IntentMap::default();
    let inputs = cell.inputs(&intent);

    let mut out = Violations::default();
    let mut runs: Vec<RuleRun> = Vec::new();
    check_floating_gate(inputs.design, &cell.facts, &rules.floating_gate, &mut out, &mut runs);
    assert_eq!(runs[0].violations, 1, "net zero carries gates and nothing else");
    assert_eq!(out.rows[0].shapes.0, PolyId(0));

    // Two fingers switched by one net are one driver.
    let mut out = Violations::default();
    let mut runs: Vec<RuleRun> = Vec::new();
    check_multiple_drivers(inputs.design, &rules.multiple_drivers, &mut out, &mut runs);
    assert_eq!(runs[0].violations, 0);

    cell.devices.terminal_net[2] = NetId(1);
    let inputs = cell.inputs(&intent);
    let mut out = Violations::default();
    let mut runs: Vec<RuleRun> = Vec::new();
    check_multiple_drivers(inputs.design, &rules.multiple_drivers, &mut out, &mut runs);
    assert_eq!(runs[0].violations, 1, "net one has two drivers and may have one");
    assert_eq!(out.rows[0].measured, Measurement::Count(2));
    assert_eq!(out.rows[0].limit, Measurement::Count(1));
}

#[test]
fn a_measurement_violates_a_limit_it_is_on_the_wrong_side_of() {
    let (three, four) = (Measurement::Ratio(num(3.0)), Measurement::Ratio(num(4.0)));
    assert!(four.violates(three, LimitSense::Maximum));
    assert!(!three.violates(three, LimitSense::Maximum));
    assert!(three.violates(four, LimitSense::Minimum));
    assert!(!four.violates(four, LimitSense::Minimum));
    assert!(!four.violates(three, LimitSense::Minimum));
}

#[test]
fn role_masks_are_sets_of_roles() {
    let both = RoleMask(RoleMask::GATE).union(RoleMask(RoleMask::DRAIN));
    assert!(both.contains(RoleMask(RoleMask::GATE)) && both.contains(RoleMask(RoleMask::DRAIN)));
    assert!(both.intersects(RoleMask(RoleMask::GATE)));
    assert_eq!(both.without(RoleMask(RoleMask::GATE)), RoleMask(RoleMask::DRAIN));
    assert!(RoleMask(RoleMask::GATE).without(RoleMask(RoleMask::GATE)).is_empty());
    assert_eq!(RoleMask::of(TerminalRole::Gate), RoleMask(RoleMask::GATE));
}
