//! Antenna ratios and windowed density, against their closed forms.
use gpurify_erc::design::{Derived, Design, LayerShapes};
use gpurify_erc::geom::{Bbox, Point};
use gpurify_erc::model::{LayerId, LayerRef, NetId, PolyId, StrId, NO_NET};
use gpurify_erc::number::Number;
use gpurify_erc::report::{Measurement, Outcome, RuleRun, Severity, Violations};
use gpurify_erc::rules::antenna::{
    check_antenna, check_antenna_electrical, AntennaElectricalTable, AntennaMeasure, AntennaTable,
};
use gpurify_erc::rules::density::{
    check_density_cmp, positions, window_boxes, window_owners_into, CmpModel, DensityCmpTable,
};
use gpurify_erc::ruleset::RuleHead;
use gpurify_erc::store::{DeviceTable, GeometryStore, NetTable};

fn num(v: f64) -> Number {
    Number { bits: v.to_bits() }
}

fn value(n: Number) -> f64 {
    f64::from_bits(n.bits)
}

fn head(id: u32) -> RuleHead {
    RuleHead { rule: vec![StrId(id)], severity: vec![Severity::Error] }
}

fn assert_close(measured: f64, expected: f64) {
    assert!(
        (measured - expected).abs() <= 1e-12 * expected.abs(),
        "measured {measured}, expected {expected}"
    );
}

fn ratio(violations: &Violations, row: usize) -> f64 {
    match violations.rows[row].measured {
        Measurement::Ratio(r) => value(r),
        other => panic!("row {row} measured {other:?}, not a ratio"),
    }
}

fn ran(runs: &[RuleRun], id: u32) -> RuleRun {
    assert_eq!(runs.len(), 1);
    assert_eq!(runs[0].rule, StrId(id));
    assert_eq!(runs[0].outcome, Outcome::Ran);
    runs[0]
}

/// A store of rectangles `(layer, xlo, ylo, xhi, yhi)`, ascending by layer, with
/// the shapes of each layer as boxes.
fn layout(layers: u32, rects: &[(u32, i64, i64, i64, i64)]) -> (GeometryStore, Derived) {
    let mut store = GeometryStore {
        layer_start: vec![0],
        layer: Vec::new(),
        bbox: Vec::new(),
        vert_start: vec![0],
        xs: Vec::new(),
        ys: Vec::new(),
    };
    let mut derived = Derived {
        name: Vec::new(),
        shapes: Vec::new(),
        validated: Vec::new(),
        merged: Vec::new(),
    };
    for l in 0..layers {
        let mut shapes = LayerShapes { boxes: Vec::new(), ring_start: vec![0], rings: Vec::new() };
        for &(layer, xlo, ylo, xhi, yhi) in rects {
            if layer != l {
                continue;
            }
            let bbox = Bbox { xlo, ylo, xhi, yhi };
            let ring = vec![
                Point { x: xlo, y: ylo },
                Point { x: xhi, y: ylo },
                Point { x: xhi, y: yhi },
                Point { x: xlo, y: yhi },
            ];
            store.layer.push(LayerId(layer));
            store.bbox.push(bbox);
            store.xs.extend(ring.iter().map(|p| p.x));
            store.ys.extend(ring.iter().map(|p| p.y));
            store.vert_start.push(store.xs.len() as u32);
            shapes.boxes.push(bbox);
            shapes.rings.push(ring);
            shapes.ring_start.push(shapes.rings.len() as u32);
        }
        store.layer_start.push(store.layer.len() as u32);
        derived.merged.push(Some(shapes.boxes.clone()));
        derived.validated.push(Some(shapes));
    }
    (store, derived)
}

fn no_nets() -> NetTable {
    NetTable { net_of: Vec::new(), poly_start: Vec::new(), poly: Vec::new() }
}

fn no_devices() -> DeviceTable {
    DeviceTable {
        terminal_start: Vec::new(),
        terminal_net: Vec::new(),
        terminal_role: Vec::new(),
        model: Vec::new(),
        marker: Vec::new(),
    }
}

/// A gate joined to a metal wire four times its area: layer zero is the wire,
/// layer one the cut, layer two the poly.
fn gate_on_a_long_wire() -> (GeometryStore, Derived, NetTable, PolyId) {
    let (store, derived) = layout(
        3,
        &[(0, 0, 0, 4_000, 1_000), (1, 400, 400, 600, 600), (2, 0, 0, 1_000, 1_000)],
    );
    let nets = NetTable {
        net_of: vec![NetId(0), NetId(NO_NET), NetId(0)],
        poly_start: vec![0, 2],
        poly: vec![PolyId(0), PolyId(2)],
    };
    (store, derived, nets, PolyId(2))
}

fn antenna_table(id: u32, measure: AntennaMeasure, max_ratio: f64) -> AntennaTable {
    AntennaTable {
        head: head(id),
        gate: vec![LayerRef::Base(LayerId(2))],
        collector_start: vec![0, 1],
        collector: vec![LayerRef::Base(LayerId(0))],
        collector_measure: vec![measure],
        max_ratio: vec![num(max_ratio)],
    }
}

fn electrical_table(id: u32, diode: Option<LayerRef>, credit: f64, bonus: f64) -> AntennaElectricalTable {
    AntennaElectricalTable {
        head: head(id),
        gate: vec![LayerRef::Base(LayerId(2))],
        collector_start: vec![0, 1],
        collector: vec![LayerRef::Base(LayerId(0))],
        diode: vec![diode],
        diode_credit: vec![num(credit)],
        diode_bonus: vec![num(bonus)],
        max_ratio: vec![num(3.0)],
    }
}

#[test]
fn a_per_stage_antenna_ratio_is_the_collecting_area_over_the_gate_area() {
    let (store, derived, nets, gate) = gate_on_a_long_wire();
    let devices = no_devices();
    let design = Design { store: &store, derived: &derived, nets: &nets, devices: &devices };
    let (mut violations, mut runs) = (Violations::default(), Vec::new());
    check_antenna(
        design,
        &antenna_table(70, AntennaMeasure::Area, 3.0),
        &mut violations,
        &mut runs,
    );
    assert_eq!(violations.len(), 1);
    assert_eq!(violations.rows[0].rule, StrId(70));
    assert_eq!(violations.rows[0].shapes.0, gate, "reported at the poly, not at the wire");
    assert_close(ratio(&violations, 0), 4.0);
    assert_eq!(violations.rows[0].limit, Measurement::Ratio(num(3.0)));
    let at = violations.rows[0].at;
    assert!(0 <= at.x && at.x <= 1_000 && 0 <= at.y && at.y <= 1_000);
    assert_eq!(ran(&runs, 70).examined, 1, "one net carries a gate polygon");
}

#[test]
fn an_antenna_ratio_under_its_limit_is_clean() {
    let (store, derived, nets, _) = gate_on_a_long_wire();
    let devices = no_devices();
    let design = Design { store: &store, derived: &derived, nets: &nets, devices: &devices };
    let (mut violations, mut runs) = (Violations::default(), Vec::new());
    check_antenna(
        design,
        &antenna_table(71, AntennaMeasure::Area, 5.0),
        &mut violations,
        &mut runs,
    );
    assert_eq!(violations.len(), 0);
    assert_eq!(ran(&runs, 71).examined, 1);
    assert_eq!(ran(&runs, 71).violations, 0);
}

/// A sidewall has no calibrated unit to compare with, so the row is refused.
#[test]
fn a_sidewall_collector_is_refused() {
    let (store, derived, nets, _) = gate_on_a_long_wire();
    let devices = no_devices();
    let design = Design { store: &store, derived: &derived, nets: &nets, devices: &devices };
    let (mut violations, mut runs) = (Violations::default(), Vec::new());
    check_antenna(
        design,
        &antenna_table(80, AntennaMeasure::Sidewall { thickness: 500 }, 3.0),
        &mut violations,
        &mut runs,
    );
    assert_eq!(violations.len(), 0);
    assert_eq!(runs.len(), 1);
    assert_eq!(runs[0].outcome, Outcome::Refused);
    assert_eq!(runs[0].examined, 0);
}

#[test]
fn the_cumulative_antenna_ratio_with_no_diode_is_the_same_division() {
    let (store, derived, nets, gate) = gate_on_a_long_wire();
    let devices = no_devices();
    let design = Design { store: &store, derived: &derived, nets: &nets, devices: &devices };
    let (mut violations, mut runs) = (Violations::default(), Vec::new());
    check_antenna_electrical(
        design,
        &electrical_table(72, None, 0.0, 0.0),
        &mut violations,
        &mut runs,
    );
    assert_eq!(violations.len(), 1);
    assert_eq!(violations.rows[0].shapes.0, gate);
    assert_close(ratio(&violations, 0), 4.0);
    assert_eq!(ran(&runs, 72).examined, 1);
}

/// A bonus is for the presence of a diode: with none configured it credits nothing.
#[test]
fn an_antenna_bonus_without_a_diode_is_not_credited() {
    let (store, derived, nets, gate) = gate_on_a_long_wire();
    let devices = no_devices();
    let design = Design { store: &store, derived: &derived, nets: &nets, devices: &devices };
    let mut table = electrical_table(73, None, 0.0, 2.0);
    table.max_ratio = vec![num(3.0)];
    let (mut violations, mut runs) = (Violations::default(), Vec::new());
    check_antenna_electrical(design, &table, &mut violations, &mut runs);
    assert_eq!(violations.len(), 1);
    assert_eq!(violations.rows[0].shapes.0, gate);
    assert_eq!(violations.rows[0].measured, Measurement::Ratio(num(4.0)));
    assert_eq!(violations.rows[0].limit, Measurement::Ratio(num(3.0)));
    assert_eq!(ran(&runs, 73).examined, 1);
}

fn density_table(id: u32, side: i64, min: Option<f64>, max: Option<f64>) -> DensityCmpTable {
    DensityCmpTable {
        head: head(id),
        layer: vec![LayerRef::Base(LayerId(0))],
        window: vec![(side, side)],
        step: vec![(side, side)],
        min_density: vec![min.map(num)],
        max_density: vec![max.map(num)],
        max_neighbour_delta: vec![None],
        cmp: vec![None],
        include_partial_windows: vec![true],
    }
}

fn die_of(side: i64) -> Bbox {
    Bbox { xlo: 0, ylo: 0, xhi: side, yhi: side }
}

fn run_density(
    rects: &[(u32, i64, i64, i64, i64)],
    die: Bbox,
    table: &DensityCmpTable,
) -> (Violations, Vec<RuleRun>) {
    let (store, derived) = layout(1, rects);
    let nets = no_nets();
    let devices = no_devices();
    let design = Design { store: &store, derived: &derived, nets: &nets, devices: &devices };
    let (mut violations, mut runs) = (Violations::default(), Vec::new());
    check_density_cmp(design, die, table, &mut violations, &mut runs);
    (violations, runs)
}

#[test]
fn a_layer_covering_half_the_die_reads_as_a_density_of_one_half() {
    let half = [(0, 0, 0, 1_000, 2_000)];
    let die = die_of(2_000);

    let (violations, runs) = run_density(&half, die, &density_table(73, 2_000, None, Some(0.4)));
    assert_eq!(violations.len(), 1, "half a die is over a 0.4 ceiling");
    assert_close(ratio(&violations, 0), 0.5);
    assert_eq!(violations.rows[0].limit, Measurement::Ratio(num(0.4)));
    assert_eq!(ran(&runs, 73).examined, 1, "one window covers the die");

    let (violations, runs) = run_density(&half, die, &density_table(74, 2_000, Some(0.6), None));
    assert_eq!(ran(&runs, 74).examined, 1);
    assert_eq!(violations.len(), 1, "half a die is under a 0.6 floor");
    assert_close(ratio(&violations, 0), 0.5);
    assert_eq!(violations.rows[0].limit, Measurement::Ratio(num(0.6)));

    let (violations, runs) =
        run_density(&half, die, &density_table(75, 2_000, Some(0.4), Some(0.6)));
    assert_eq!(violations.len(), 0);
    assert_eq!(ran(&runs, 75).examined, 1);
}

#[test]
fn a_die_quartered_into_four_windows_reports_each_windows_own_density() {
    let half = [(0, 0, 0, 1_000, 2_000)];
    let die = die_of(2_000);

    let (violations, runs) = run_density(&half, die, &density_table(76, 1_000, None, Some(0.9)));
    assert_eq!(ran(&runs, 76).examined, 4, "two by two windows");
    assert_eq!(violations.len(), 2, "the two left windows are fully covered");
    for row in 0..2 {
        assert_close(ratio(&violations, row), 1.0);
    }

    let (violations, runs) = run_density(&half, die, &density_table(77, 1_000, Some(0.1), None));
    assert_eq!(ran(&runs, 77).examined, 4);
    assert_eq!(violations.len(), 2, "the two right windows are empty");
    for row in 0..2 {
        assert_eq!(violations.rows[row].measured, Measurement::Ratio(num(0.0)));
    }
}

struct Rng(u64);

impl Rng {
    fn unit(&mut self) -> f64 {
        self.0 = self.0.wrapping_mul(6_364_136_223_846_793_005).wrapping_add(1_442_695_040_888_963_407);
        (self.0 >> 11) as f64 / (1u64 << 53) as f64
    }
}

/// Disjoint squares, one per chosen cell, with the area they cover and the side
/// of the region.
fn random_layer(
    seed: u64,
    cells: i64,
    cell: i64,
    density: f64,
) -> (Vec<(u32, i64, i64, i64, i64)>, i64, i64) {
    let mut rng = Rng(seed);
    let mut rects = Vec::new();
    let mut covered = 0;
    for j in 0..cells {
        for i in 0..cells {
            if rng.unit() < density {
                let side = cell / 4 + (rng.unit() * (cell / 2) as f64) as i64;
                rects.push((0, i * cell, j * cell, i * cell + side, j * cell + side));
                covered += side * side;
            }
        }
    }
    (rects, covered, cells * cell)
}

#[test]
fn windowed_density_over_generated_geometry_matches_the_area_the_generator_covered() {
    let (rects, covered, extent) = random_layer(97, 8, 500, 0.35);
    let expected = covered as f64 / (extent as f64 * extent as f64);
    let (violations, runs) = run_density(
        &rects,
        die_of(extent),
        &density_table(78, extent, None, Some(expected / 2.0)),
    );
    assert_eq!(ran(&runs, 78).examined, 1);
    assert_eq!(violations.len(), 1);
    assert_close(ratio(&violations, 0), expected);
}

#[test]
fn every_windows_density_is_a_fraction_between_zero_and_one() {
    for seed in [1u64, 2, 3] {
        let (rects, _, extent) = random_layer(seed, 6, 400, 0.5);
        // A floor above one reports every window.
        let (violations, runs) = run_density(
            &rects,
            die_of(extent),
            &density_table(79, extent / 3, Some(1.000_001), None),
        );
        assert_eq!(ran(&runs, 79).examined, 9, "a third of the extent each way is nine windows");
        assert_eq!(violations.len(), 9, "a floor above one reports every window");
        for row in 0..9 {
            assert!((0.0..=1.0).contains(&ratio(&violations, row)));
        }
    }
}

/// The left windows are full and the right ones empty, so each of the two
/// horizontal steps changes the density by one.
#[test]
fn neighbouring_windows_may_not_differ_by_more_than_the_limit() {
    let half = [(0, 0, 0, 1_000, 2_000)];
    let mut table = density_table(81, 1_000, None, None);
    table.max_neighbour_delta = vec![Some(num(0.5))];
    let (violations, runs) = run_density(&half, die_of(2_000), &table);
    assert_eq!(ran(&runs, 81).examined, 4);
    assert_eq!(violations.len(), 2);
    for row in 0..2 {
        assert_close(ratio(&violations, row), 1.0);
        assert_eq!(violations.rows[row].limit, Measurement::Ratio(num(0.5)));
    }
}

/// The second window is clipped by the die edge and skipped, so it has no gradient.
#[test]
fn a_skipped_window_has_no_gradient() {
    let die = Bbox { xlo: 0, ylo: 0, xhi: 1_500, yhi: 1_000 };
    let mut table = density_table(84, 1_000, None, None);
    table.max_neighbour_delta = vec![Some(num(0.1))];
    table.include_partial_windows = vec![false];
    let (violations, runs) = run_density(&[(0, 0, 0, 1_000, 1_000)], die, &table);
    assert_eq!(ran(&runs, 84).examined, 1);
    assert_eq!(ran(&runs, 84).violations, 0);
    assert_eq!(violations.len(), 0);

    table.include_partial_windows = vec![true];
    let (violations, runs) = run_density(&[(0, 0, 0, 1_000, 1_000)], die, &table);
    assert_eq!(ran(&runs, 84).examined, 2);
    assert_eq!(violations.len(), 1);
    assert_close(ratio(&violations, 0), 1.0);
}

/// Whole windows end at both far edges, or a strip is left along one of them.
#[test]
fn skipped_windows_leave_a_strip_unless_the_steps_cover_both_edges() {
    let mut table = density_table(86, 1_000, None, None);
    let short = Bbox { xlo: 0, ylo: 0, xhi: 1_500, yhi: 1_000 };
    assert_eq!(table.first_strip(short), None, "clipped windows are evaluated");
    table.include_partial_windows = vec![false];
    assert_eq!(table.first_strip(short), Some(0));
    assert_eq!(table.first_strip(die_of(2_000)), None);
    table.step = vec![(250, 500)];
    assert_eq!(table.first_strip(short), None);
    assert_eq!(table.first_strip(die_of(500)), Some(0), "no whole window fits");
}

/// A polygon drawn a second time leaves the covered region, and so every density.
#[test]
fn a_polygon_drawn_twice_changes_no_density() {
    let once = [(0, 0, 0, 700, 1_300)];
    let twice = [(0, 0, 0, 700, 1_300), (0, 0, 0, 700, 1_300)];
    let table = density_table(85, 500, Some(1.000_001), None);
    let (first, ran_first) = run_density(&once, die_of(2_000), &table);
    let (store, mut derived) = layout(1, &twice);
    derived.merged = layout(1, &once).1.merged;
    let (nets, devices) = (no_nets(), no_devices());
    let design = Design { store: &store, derived: &derived, nets: &nets, devices: &devices };
    let (mut second, mut ran_second) = (Violations::default(), Vec::new());
    check_density_cmp(design, die_of(2_000), &table, &mut second, &mut ran_second);
    assert_eq!(ran_first, ran_second);
    assert_eq!(ran(&ran_first, 85).examined, 16);
    assert_eq!(first.len(), 16);
    for (a, b) in first.rows.iter().zip(&second.rows) {
        assert_eq!(a.measured, b.measured);
        assert_eq!(a.at, b.at);
    }
    assert!((0..16).all(|row| (0.0..=1.0).contains(&ratio(&first, row))));
}

/// A density half a unit off target moves the surface by half the sensitivity.
#[test]
fn a_window_far_from_its_target_density_is_too_thick() {
    let full = [(0, 0, 0, 2_000, 2_000)];
    let mut table = density_table(82, 2_000, None, None);
    table.cmp = vec![Some(CmpModel {
        target_density: num(0.5),
        nominal_thickness: 1_000,
        thickness_sensitivity: 200,
        max_abs_thickness_delta: 50,
    })];
    let (violations, _) = run_density(&full, die_of(2_000), &table);
    assert_eq!(violations.len(), 1);
    assert_eq!(violations.rows[0].measured, Measurement::Length(100));

    table.cmp = vec![Some(CmpModel {
        target_density: num(0.5),
        nominal_thickness: 1_000,
        thickness_sensitivity: 200,
        max_abs_thickness_delta: 100,
    })];
    let (violations, _) = run_density(&full, die_of(2_000), &table);
    assert_eq!(violations.len(), 0);
}

fn bbox(xlo: i64, ylo: i64, xhi: i64, yhi: i64) -> Bbox {
    Bbox { xlo, ylo, xhi, yhi }
}

/// The lowest row whose box overlaps the window clipped to the die.
fn owner_by_scan(
    boxes: &[Bbox],
    first_row: u32,
    die: Bbox,
    at: (usize, usize),
    window: (i64, i64),
    step: (i64, i64),
) -> u32 {
    let (_, clipped) = window_boxes(die, at, window, step);
    boxes
        .iter()
        .position(|b| b.overlaps(clipped))
        .map_or(u32::MAX, |k| first_row + k as u32)
}

#[test]
fn the_owner_grid_answers_what_the_linear_scan_did() {
    let die = bbox(0, 0, 300, 200);
    let boxes = vec![
        bbox(320, 250, 340, 260),
        bbox(400, 10, 500, 20),
        bbox(-500, -500, -400, -400),
        bbox(100, 0, 100, 200),
        bbox(10, 10, 40, 40),
        bbox(250, 150, 400, 400),
        bbox(0, 0, 300, 200),
    ];
    let first_row = 7;
    let mut owners = Vec::new();
    for (wx, wy, sx, sy) in [
        (100, 100, 100, 100),
        (100, 100, 50, 50),
        (150, 200, 100, 100),
        (300, 200, 300, 200),
        (7, 11, 13, 17),
    ] {
        let window = (wx, wy);
        let step = (sx, sy);
        let nx = positions(die.xhi - die.xlo, sx);
        let ny = positions(die.yhi - die.ylo, sy);
        window_owners_into(&boxes, first_row, die, window, step, (nx, ny), &mut owners);
        assert_eq!(owners.len(), nx * ny, "one owner slot per window");
        for j in 0..ny {
            for i in 0..nx {
                assert_eq!(
                    owners[j * nx + i],
                    owner_by_scan(&boxes, first_row, die, (i, j), window, step),
                    "window ({i}, {j}) of a {wx}x{wy} window stepped by {sx}x{sy}"
                );
            }
        }
    }
}
