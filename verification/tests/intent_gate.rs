//! The six rules that need design intent, run with it and without it.
use gpurify_erc::design::{Derived, Design, LayerShapes};
use gpurify_erc::geom::{Bbox, Point};
use gpurify_erc::intent::{resolve_intent_into, DesignIntent, IntentMap, NetLimits};
use gpurify_erc::model::{
    DomainId, LayerId, NetId, PolyId, StrId, SupplyRole, TerminalRole, NO_NET,
};
use gpurify_erc::number::Number;
use gpurify_erc::power::descent::solve_into;
use gpurify_erc::power::network::{
    EdgeKind, Grid, NetNetworks, PowerGrid, PowerSolution, Solved,
};
use gpurify_erc::power::solve::SolveConfig;
use gpurify_erc::report::{Measurement, Outcome, RuleRun, Severity, SkipReason, Violations};
use gpurify_erc::rules::electrical::{
    allowed_current, arrhenius_argument, arrhenius_derating, check_electromigration,
    check_em_current_density, check_ir_drop, ElectromigrationTable, EmCurrentDensityTable,
    IrDropTable,
};
use gpurify_erc::rules::latchup::{check_esd_latchup, separation, EsdLatchupTable};
use gpurify_erc::rules::reliability::{
    check_hv_domain, check_reliability, stress_argument, thermal_argument, HvDomainTable,
    LifetimeFactors, ReliabilityTable,
};
use gpurify_erc::ruleset::RuleHead;
use gpurify_erc::store::{DeviceTable, GeometryStore, NetTable, PortTable};

fn num(v: f64) -> Number {
    Number { bits: v.to_bits() }
}

fn value(n: Number) -> f64 {
    f64::from_bits(n.bits)
}

fn head(id: u32) -> RuleHead {
    RuleHead { rule: vec![StrId(id)], severity: vec![Severity::Error] }
}

fn report() -> (Violations, Vec<RuleRun>) {
    (Violations::default(), Vec::new())
}

fn run_of(runs: &[RuleRun], id: u32) -> RuleRun {
    assert_eq!(runs.len(), 1);
    assert_eq!(runs[0].rule, StrId(id));
    runs[0]
}

fn assert_skipped_for_intent(runs: &[RuleRun], violations: &Violations, id: u32) {
    let run = run_of(runs, id);
    assert_eq!(run.outcome, Outcome::Skipped(SkipReason::NoDesignIntent));
    assert_eq!(run.examined, 0);
    assert_eq!(run.violations, 0);
    assert_eq!(violations.len(), 0);
}

/// Four 2.5 ohm edges in a row: a 1.8 V pad at one end, a milliamp at the other.
struct Powered {
    grid: PowerGrid,
    solution: PowerSolution,
}

impl Powered {
    fn new() -> Self {
        let mut load = vec![num(0.0); 5];
        load[4] = num(1_000.0);
        let grid = PowerGrid {
            node_net: vec![NetId(0); 5],
            node_at: (0..5).map(|n| Point { x: 10_000 * n, y: 0 }).collect(),
            node_poly: vec![PolyId(0); 5],
            node_layer: vec![LayerId(0); 5],
            node_nominal: vec![num(1_800.0); 5],
            node_load: load,
            source_node: vec![0],
            source_voltage: vec![num(1_800.0)],
            edge_from: vec![0, 1, 2, 3],
            edge_to: vec![1, 2, 3, 4],
            edge_resistance: vec![num(2.5); 4],
            edge_width: vec![1_000; 4],
            edge_length: vec![10_000; 4],
            edge_layer: vec![LayerId(0); 4],
            edge_kind: vec![EdgeKind::Metal; 4],
        };
        let mut solution = PowerSolution {
            node_voltage: Vec::new(),
            node_drop: Vec::new(),
            branch_current: Vec::new(),
            iterations: 0,
            relative_residual: num(0.0),
        };
        assert_eq!(solve_into(&grid, SolveConfig::default(), &mut solution), Ok(()));
        Self { grid, solution }
    }

    fn solved(&self) -> Solved<'_> {
        Solved { grid: &self.grid, solution: &self.solution }
    }
}

fn manufacturing_grid() -> Grid {
    Grid { dbu_per_um: 1_000 }
}

fn supply_intent() -> IntentMap {
    IntentMap {
        declared: true,
        supply_net: vec![NetId(0), NetId(1)],
        supply_domain: vec![DomainId(0), DomainId(0)],
        supply_role: vec![SupplyRole::Power, SupplyRole::Ground],
        supply_voltage: vec![num(1_800.0), num(0.0)],
        limit_net: vec![NetId(0)],
        limit: vec![NetLimits {
            max_drop: Some(num(6.0)),
            max_drop_fraction: Some(num(0.05)),
            max_overvoltage: Some(num(100.0)),
            budget_current_ua: Some(num(1_000.0)),
        }],
        undeclared: Vec::new(),
    }
}

fn electromigration_table(id: u32) -> ElectromigrationTable {
    ElectromigrationTable {
        head: head(id),
        layer_start: vec![0, 1],
        layer: vec![LayerId(0)],
        max_density: vec![num(1e6)],
        max_current_per_cut: vec![num(200.0)],
        blech_limit: vec![num(1.0)],
        reference_temperature: vec![num(358.15)],
        activation_energy_ev: vec![num(0.7)],
        current_exponent: vec![num(2.0)],
    }
}

fn reliability_table(id: u32) -> ReliabilityTable {
    ReliabilityTable {
        head: head(id),
        required_lifetime_hours: vec![num(87_600.0)],
        mechanism: vec![StrId(900)],
        reference_lifetime_hours: vec![num(10_000.0)],
        reference_stress: vec![num(2_000.0)],
        stress_exponent: vec![num(4.0)],
        reference_temperature: vec![num(398.15)],
        activation_energy_ev: vec![num(0.6)],
        duty_cycle: vec![num(0.5)],
        max_abs_voltage: vec![num(1_950.0)],
    }
}

const OPERATING: f64 = 358.15;

/// The derating's power of e for each row of a table.
fn exponentials(table: &ElectromigrationTable, operating: f64) -> Vec<Number> {
    (0..table.head.rule.len())
        .map(|row| {
            let power = arrhenius_argument(
                num(operating),
                table.reference_temperature[row],
                table.activation_energy_ev[row],
                table.current_exponent[row],
            );
            num(power.map_or(0.0, |p| value(p).exp()))
        })
        .collect()
}

/// The thermal factor of each row, and the stress factor of each row's nodes.
fn lifetime_factors(table: &ReliabilityTable, powered: &Powered, operating: f64) -> LifetimeFactors {
    let rows = table.head.rule.len();
    LifetimeFactors {
        thermal: (0..rows)
            .map(|r| {
                let power = thermal_argument(
                    table.activation_energy_ev[r],
                    num(operating),
                    table.reference_temperature[r],
                );
                num(value(power).exp())
            })
            .collect(),
        stress: (0..rows)
            .map(|r| {
                powered
                    .solution
                    .node_voltage
                    .iter()
                    .map(|&v| {
                        let base = stress_argument(table.reference_stress[r], v.absolute());
                        num(value(base).powf(value(table.stress_exponent[r])))
                    })
                    .collect()
            })
            .collect(),
    }
}

#[test]
fn no_intent_file_resolves_to_a_map_that_says_nothing_was_declared() {
    let ports = PortTable { net: Vec::new(), name: Vec::new() };
    let nets = NetTable { net_of: Vec::new(), poly_start: Vec::new(), poly: Vec::new() };
    let mut map = IntentMap::default();
    resolve_intent_into(None, &ports, &nets, &mut map);
    assert!(!map.declared);
    assert!(!map.is_usable());
    assert_eq!(map.supply_count(), 0);
    assert_eq!(map.supply_of(NetId(0)), None);
    assert_eq!(map.nominal_voltage(NetId(0)), None);
    let limits = map.limits_of(NetId(0));
    assert!(
        limits.max_drop.is_none()
            && limits.max_drop_fraction.is_none()
            && limits.max_overvoltage.is_none()
            && limits.budget_current_ua.is_none(),
        "an undeclared net is not checked; it is not unlimited"
    );
}

#[test]
fn a_map_holding_declared_supplies_is_usable_and_answers_only_about_them() {
    let map = supply_intent();
    assert!(map.declared);
    assert!(map.is_usable());
    assert_eq!(map.supply_count(), 2);
    assert_eq!(map.supply_of(NetId(0)), Some((DomainId(0), SupplyRole::Power)));
    assert_eq!(map.supply_of(NetId(1)), Some((DomainId(0), SupplyRole::Ground)));
    assert_eq!(map.supply_of(NetId(7)), None);
    assert_eq!(map.nominal_voltage(NetId(0)), Some(num(1_800.0)));
    assert_eq!(map.nominal_voltage(NetId(7)), None);
    assert_eq!(map.limits_of(NetId(0)).max_drop, Some(num(6.0)));
    assert_eq!(map.limits_of(NetId(1)).max_drop, None);
}

/// Declared names become nets through the ports; a name no port carries is
/// listed as undeclared.
#[test]
fn declared_names_resolve_through_the_ports() {
    let intent = DesignIntent {
        domain_voltage: vec![num(1_800.0), num(3_300.0)],
        supply_name: vec![StrId(10), StrId(11), StrId(12)],
        supply_domain: vec![DomainId(1), DomainId(0), DomainId(0)],
        supply_role: vec![SupplyRole::Power, SupplyRole::Ground, SupplyRole::Power],
        limit_name: vec![StrId(10)],
        limit: vec![NetLimits { max_drop: Some(num(6.0)), ..NetLimits::default() }],
    };
    let ports = PortTable {
        net: vec![NetId(0), NetId(1), NetId(2)],
        name: vec![StrId(11), StrId(5), StrId(10)],
    };
    let nets = NetTable {
        net_of: vec![NetId(0), NetId(1), NetId(2)],
        poly_start: vec![0, 1, 2, 3],
        poly: vec![PolyId(0), PolyId(1), PolyId(2)],
    };
    let mut map = IntentMap::default();
    resolve_intent_into(Some(&intent), &ports, &nets, &mut map);
    assert!(map.declared && map.is_usable());
    assert_eq!(map.supply_net, vec![NetId(0), NetId(2)]);
    assert_eq!(map.supply_of(NetId(2)), Some((DomainId(1), SupplyRole::Power)));
    assert_eq!(map.nominal_voltage(NetId(2)), Some(num(3_300.0)));
    assert_eq!(map.limits_of(NetId(2)).max_drop, Some(num(6.0)));
    assert!(map.undeclared.contains(&StrId(12)));
}

#[test]
fn ir_drop_skips_without_intent_and_examines_every_limited_node_with_it() {
    let powered = Powered::new();
    let table = IrDropTable { head: head(10) };

    let (mut violations, mut runs) = report();
    check_ir_drop(None, &supply_intent(), &table, &mut violations, &mut runs);
    assert_skipped_for_intent(&runs, &violations, 10);

    let (mut violations, mut runs) = report();
    check_ir_drop(
        Some(powered.solved()),
        &IntentMap::default(),
        &table,
        &mut violations,
        &mut runs,
    );
    assert_skipped_for_intent(&runs, &violations, 10);

    let (mut violations, mut runs) = report();
    check_ir_drop(
        Some(powered.solved()),
        &supply_intent(),
        &table,
        &mut violations,
        &mut runs,
    );
    let run = run_of(&runs, 10);
    assert_eq!(run.outcome, Outcome::Ran);
    assert_eq!(run.examined, 5, "the chain's five nodes all sit on the limited net");
    // 7.5 and 10 millivolts are over the 6 allowed.
    assert_eq!(run.violations, 2);
    assert_eq!(violations.len(), 2);
}

#[test]
fn em_current_density_skips_without_intent_and_examines_limited_edges_with_it() {
    let powered = Powered::new();
    let table = EmCurrentDensityTable {
        head: head(11),
        layer_start: vec![0, 1],
        layer: vec![LayerId(0)],
        max_density: vec![num(1e9)],
        max_current_per_cut: vec![num(200.0)],
    };

    let (mut violations, mut runs) = report();
    check_em_current_density(
        None,
        &supply_intent(),
        manufacturing_grid(),
        &table,
        &mut violations,
        &mut runs,
    );
    assert_skipped_for_intent(&runs, &violations, 11);

    let (mut violations, mut runs) = report();
    check_em_current_density(
        Some(powered.solved()),
        &supply_intent(),
        manufacturing_grid(),
        &table,
        &mut violations,
        &mut runs,
    );
    let run = run_of(&runs, 11);
    assert_eq!(run.outcome, Outcome::Ran);
    assert_eq!(run.examined, 4, "the chain's four edges are all on the limited layer");
}

#[test]
fn electromigration_skips_without_intent_and_reaches_the_edges_with_it() {
    let powered = Powered::new();
    let table = electromigration_table(12);
    let powers = exponentials(&table, OPERATING);

    let (mut violations, mut runs) = report();
    check_electromigration(
        None,
        &supply_intent(),
        manufacturing_grid(),
        num(OPERATING),
        &powers,
        &table,
        &mut violations,
        &mut runs,
    );
    assert_skipped_for_intent(&runs, &violations, 12);

    let (mut violations, mut runs) = report();
    check_electromigration(
        Some(powered.solved()),
        &supply_intent(),
        manufacturing_grid(),
        num(OPERATING),
        &powers,
        &table,
        &mut violations,
        &mut runs,
    );
    let run = run_of(&runs, 12);
    assert_eq!(run.outcome, Outcome::Ran);
    assert!(run.examined > 0, "the rule must reach the branches");
}

#[test]
fn reliability_skips_without_intent_and_evaluates_nodes_with_it() {
    let powered = Powered::new();
    let table = reliability_table(13);
    let factors = lifetime_factors(&table, &powered, OPERATING);

    let (mut violations, mut runs) = report();
    check_reliability(
        None,
        &supply_intent(),
        num(OPERATING),
        &factors,
        &table,
        &mut violations,
        &mut runs,
    );
    assert_skipped_for_intent(&runs, &violations, 13);

    let (mut violations, mut runs) = report();
    check_reliability(
        Some(powered.solved()),
        &IntentMap::default(),
        num(OPERATING),
        &factors,
        &table,
        &mut violations,
        &mut runs,
    );
    assert_skipped_for_intent(&runs, &violations, 13);

    let (mut violations, mut runs) = report();
    check_reliability(
        Some(powered.solved()),
        &supply_intent(),
        num(OPERATING),
        &factors,
        &table,
        &mut violations,
        &mut runs,
    );
    let run = run_of(&runs, 13);
    assert_eq!(run.outcome, Outcome::Ran);
    assert!(run.examined > 0, "the solve's nodes are what the model is applied to");
}

/// At the reference temperature nothing is derated; hotter derates down.
#[test]
fn a_hotter_operating_point_derates_the_limit() {
    let (reference, ea, n) = (num(358.15), num(0.7), num(2.0));
    assert_eq!(arrhenius_argument(reference, reference, ea, n).map(value), Some(0.0));
    let hot = arrhenius_argument(num(398.15), reference, ea, n).expect("usable");
    assert!(value(hot) < 0.0);
    let kelvin = 0.7 / (2.0 * 8.617_333_262e-5) * (1.0 / 398.15 - 1.0 / 358.15);
    assert!((value(hot) - kelvin).abs() < 1e-9 * kelvin.abs());
    let factor = arrhenius_derating(num(398.15), reference, ea, n, num(value(hot).exp()));
    assert!(value(factor.expect("usable")) < 1.0);
    assert_eq!(arrhenius_argument(num(0.0), reference, ea, n), None);
    assert_eq!(arrhenius_argument(num(300.0), reference, ea, num(0.0)), None);
}

/// A micrometre of metal at a million amperes per metre carries an ampere; a cut
/// carries its own current, times the cuts.
#[test]
fn a_branch_is_allowed_its_density_times_its_width() {
    let metal = allowed_current(
        EdgeKind::Metal,
        1_000,
        manufacturing_grid(),
        num(1.0),
        num(200.0),
    );
    assert!((value(metal) - 1.0).abs() < 1e-12);
    let via = allowed_current(
        EdgeKind::Via { cuts: 4 },
        1_000,
        manufacturing_grid(),
        num(1.0),
        num(200.0),
    );
    assert_eq!(value(via), 800.0);
}

/// One transistor with each terminal on its own net: four rails on layer zero
/// and the marker on layer one.
fn one_transistor() -> (GeometryStore, Derived, NetTable, DeviceTable) {
    let mut store = GeometryStore {
        layer_start: vec![0, 4, 5],
        layer: vec![LayerId(0), LayerId(0), LayerId(0), LayerId(0), LayerId(1)],
        bbox: Vec::new(),
        vert_start: vec![0],
        xs: Vec::new(),
        ys: Vec::new(),
    };
    let mut layers = Vec::new();
    for part in [
        vec![(0i64, 0i64, 10_000i64, 500i64), (0, 1_000, 10_000, 500), (0, 2_000, 10_000, 500), (0, 3_000, 10_000, 500)],
        vec![(4_000, 5_000, 1_000, 1_000)],
    ] {
        let mut shapes = LayerShapes { boxes: Vec::new(), ring_start: vec![0], rings: Vec::new() };
        for (x, y, w, h) in part {
            let bbox = Bbox { xlo: x, ylo: y, xhi: x + w, yhi: y + h };
            let ring = vec![
                Point { x, y },
                Point { x: x + w, y },
                Point { x: x + w, y: y + h },
                Point { x, y: y + h },
            ];
            store.bbox.push(bbox);
            store.xs.extend(ring.iter().map(|p| p.x));
            store.ys.extend(ring.iter().map(|p| p.y));
            store.vert_start.push(store.xs.len() as u32);
            shapes.boxes.push(bbox);
            shapes.rings.push(ring);
            shapes.ring_start.push(shapes.rings.len() as u32);
        }
        layers.push(shapes);
    }
    let derived = Derived {
        name: Vec::new(),
        shapes: Vec::new(),
        merged: layers.iter().map(|l| Some(l.boxes.clone())).collect(),
        validated: layers.into_iter().map(Some).collect(),
    };
    let nets = NetTable {
        net_of: vec![NetId(0), NetId(1), NetId(2), NetId(3), NetId(NO_NET)],
        poly_start: vec![0, 1, 2, 3, 4],
        poly: vec![PolyId(0), PolyId(1), PolyId(2), PolyId(3)],
    };
    let devices = DeviceTable {
        terminal_start: vec![0, 4],
        terminal_net: vec![NetId(0), NetId(1), NetId(2), NetId(3)],
        terminal_role: vec![
            TerminalRole::Gate,
            TerminalRole::Source,
            TerminalRole::Drain,
            TerminalRole::Bulk,
        ],
        model: vec![StrId(40)],
        marker: vec![PolyId(4)],
    };
    (store, derived, nets, devices)
}

fn four_domains(millivolt: [f64; 4]) -> IntentMap {
    IntentMap {
        declared: true,
        supply_net: (0..4).map(NetId).collect(),
        supply_domain: (0..4).map(DomainId).collect(),
        supply_role: millivolt
            .iter()
            .map(|&mv| if mv > 0.0 { SupplyRole::Power } else { SupplyRole::Ground })
            .collect(),
        supply_voltage: millivolt.iter().map(|&mv| num(mv)).collect(),
        limit_net: Vec::new(),
        limit: Vec::new(),
        undeclared: Vec::new(),
    }
}

#[test]
fn hv_domain_skips_without_intent_and_flags_the_straddling_device_with_it() {
    let (store, derived, nets, devices) = one_transistor();
    let design = Design { store: &store, derived: &derived, nets: &nets, devices: &devices };
    let table = HvDomainTable {
        head: head(14),
        max_domain_delta: vec![num(1_000.0)],
        isolation: vec![None],
    };

    let (mut violations, mut runs) = report();
    check_hv_domain(design, &IntentMap::default(), &table, &mut violations, &mut runs);
    assert_skipped_for_intent(&runs, &violations, 14);

    let intent = four_domains([3_300.0, 0.0, 0.0, 0.0]);
    let (mut violations, mut runs) = report();
    check_hv_domain(design, &intent, &table, &mut violations, &mut runs);
    let run = run_of(&runs, 14);
    assert_eq!(run.outcome, Outcome::Ran);
    assert_eq!(run.examined, 1, "the one device has every terminal on a declared net");
    assert_eq!(violations.len(), 1);
    assert_eq!(violations.rows[0].rule, StrId(14));
    assert_eq!(violations.rows[0].shapes.0, PolyId(4), "reported at the marker");
    assert_eq!(violations.rows[0].measured, Measurement::Voltage(num(3_300.0)));
    assert_eq!(violations.rows[0].limit, Measurement::Voltage(num(1_000.0)));
    let at = violations.rows[0].at;
    let marker = store.bbox[4];
    assert!(marker.xlo <= at.x && at.x <= marker.xhi && marker.ylo <= at.y && at.y <= marker.yhi);
}

#[test]
fn esd_latchup_skips_without_intent_and_counts_pads_and_rings_with_it() {
    let (store, derived, nets, devices) = one_transistor();
    let design = Design { store: &store, derived: &derived, nets: &nets, devices: &devices };
    let networks = NetNetworks::default();
    let table = EsdLatchupTable {
        head: head(15),
        pad: vec![LayerId(0)],
        guard_ring: vec![LayerId(1)],
        clamp_start: vec![0, 0],
        clamp_model: Vec::new(),
        clamp_resistance: Vec::new(),
        clamp_capacity: Vec::new(),
        clamp_voltage: Vec::new(),
        required_current: vec![num(100.0)],
        max_path_resistance: vec![num(2.0)],
        max_clamp_voltage: vec![num(4_000.0)],
        min_guard_ring_width: vec![100],
        max_tap_distance: vec![100_000],
    };

    let (mut violations, mut runs) = report();
    check_esd_latchup(
        design,
        &IntentMap::default(),
        &networks,
        &table,
        &mut violations,
        &mut runs,
    );
    assert_skipped_for_intent(&runs, &violations, 15);

    let intent = four_domains([1_800.0, 0.0, 1_800.0, 0.0]);
    let (mut violations, mut runs) = report();
    check_esd_latchup(
        design,
        &intent,
        &networks,
        &table,
        &mut violations,
        &mut runs,
    );
    let run = run_of(&runs, 15);
    assert_eq!(run.outcome, Outcome::Ran);
    assert_eq!(run.examined, 5, "four pad nets plus the one guard ring");
    assert_eq!(run.violations, 4, "no device is on the row's clamp list");
    assert_eq!(violations.rows.iter().filter(|v| v.rule == StrId(15)).count(), 4);
}

#[test]
fn a_guard_ring_too_thin_or_too_far_is_flagged() {
    let (store, derived, nets, devices) = one_transistor();
    let design = Design { store: &store, derived: &derived, nets: &nets, devices: &devices };
    let networks = NetNetworks::default();
    let intent = four_domains([1_800.0, 0.0, 1_800.0, 0.0]);
    // The ring is 1 000 wide and stands 1 500 above the nearest rail.
    for (width, reach, extra) in [(1_001, 100_000, 1u32), (100, 1_499, 1), (1_000, 1_500, 0)] {
        let table = EsdLatchupTable {
            head: head(16),
            pad: vec![LayerId(0)],
            guard_ring: vec![LayerId(1)],
            clamp_start: vec![0, 0],
            clamp_model: Vec::new(),
            clamp_resistance: Vec::new(),
            clamp_capacity: Vec::new(),
            clamp_voltage: Vec::new(),
            required_current: vec![num(100.0)],
            max_path_resistance: vec![num(2.0)],
            max_clamp_voltage: vec![num(4_000.0)],
            min_guard_ring_width: vec![width],
            max_tap_distance: vec![reach],
        };
        let (mut violations, mut runs) = report();
        check_esd_latchup(
            design,
            &intent,
            &networks,
            &table,
            &mut violations,
            &mut runs,
        );
        assert_eq!(runs[0].violations, 4 + extra, "width {width}, reach {reach}");
    }
}

#[test]
fn separation_is_the_wider_of_the_two_gaps() {
    let a = Bbox { xlo: 0, ylo: 0, xhi: 10, yhi: 10 };
    let b = Bbox { xlo: 13, ylo: 14, xhi: 20, yhi: 20 };
    assert_eq!(separation(a, b), 4);
    assert_eq!(separation(b, a), 4);
    assert_eq!(separation(a, a), 0);
}
