//! One flagged and one clean layout for the rules that read a layout directly.
use gpurify_erc::design::{Derived, Design, LayerShapes};
use gpurify_erc::facts::{classify_nets_into, NetFacts};
use gpurify_erc::distance::{isqrt, point_seg_dist2, point_seg_dist2_down};
use gpurify_erc::geom::{Bbox, Point, Seg};
use gpurify_erc::intent::IntentMap;
use gpurify_erc::model::{
    DomainId, LayerId, LayerRef, NetId, PolyId, StrId, SupplyRole, TerminalRole, NO_NET,
};
use gpurify_erc::number::Number;
use gpurify_erc::power::network::NetNetworks;
use gpurify_erc::report::{Measurement, Outcome, RuleRun, Severity, Violations};
use gpurify_erc::rules::antenna::{check_antenna_electrical, AntennaElectricalTable};
use gpurify_erc::rules::latchup::{check_esd_latchup, EsdLatchupTable};
use gpurify_erc::rules::missing_tie::{check_missing_tie, MissingTieTable};
use gpurify_erc::rules::reliability::{check_hv_domain, encloses, HvDomainTable};
use gpurify_erc::rules::supply::{
    check_esd_topological, check_soft_connection, check_supply_short, check_tie_high_low,
    EsdTopologicalTable, SoftConnectionTable, SupplyShortTable, TieHighLowTable,
};
use gpurify_erc::rules::topology::{
    check_floating_well, check_unconnected_pin, FloatingWellTable, UnconnectedPinTable,
};
use gpurify_erc::ruleset::RuleHead;
use gpurify_erc::store::{DeviceTable, GeometryStore, NetTable};

fn num(v: f64) -> Number {
    Number { bits: v.to_bits() }
}

fn head() -> RuleHead {
    RuleHead { rule: vec![StrId(1)], severity: vec![Severity::Error] }
}

fn base(layer: u32) -> LayerRef {
    LayerRef::Base(LayerId(layer))
}

/// A layout: its shapes, nets and devices.
struct Layout {
    store: GeometryStore,
    derived: Derived,
    nets: NetTable,
    devices: DeviceTable,
}

impl Layout {
    /// Rectangles `(layer, net, xlo, ylo, xhi, yhi)`, ascending by layer.
    fn new(layers: u32, nets: u32, rects: &[(u32, u32, i64, i64, i64, i64)]) -> Self {
        let mut store = GeometryStore {
            layer_start: vec![0],
            layer: Vec::new(),
            bbox: Vec::new(),
            vert_start: vec![0],
            xs: Vec::new(),
            ys: Vec::new(),
        };
        let mut derived = Derived {
            name: Vec::new(),
            shapes: Vec::new(),
            validated: Vec::new(),
            merged: Vec::new(),
        };
        let mut net_of = Vec::new();
        for l in 0..layers {
            let mut shapes =
                LayerShapes { boxes: Vec::new(), ring_start: vec![0], rings: Vec::new() };
            for &(layer, net, xlo, ylo, xhi, yhi) in rects {
                if layer != l {
                    continue;
                }
                let bbox = Bbox { xlo, ylo, xhi, yhi };
                let ring = vec![
                    Point { x: xlo, y: ylo },
                    Point { x: xhi, y: ylo },
                    Point { x: xhi, y: yhi },
                    Point { x: xlo, y: yhi },
                ];
                net_of.push(NetId(net));
                store.layer.push(LayerId(layer));
                store.bbox.push(bbox);
                store.xs.extend(ring.iter().map(|p| p.x));
                store.ys.extend(ring.iter().map(|p| p.y));
                store.vert_start.push(store.xs.len() as u32);
                shapes.boxes.push(bbox);
                shapes.rings.push(ring);
                shapes.ring_start.push(shapes.rings.len() as u32);
            }
            store.layer_start.push(store.layer.len() as u32);
            derived.merged.push(Some(shapes.boxes.clone()));
            derived.validated.push(Some(shapes));
        }
        let mut table = NetTable { net_of, poly_start: vec![0], poly: Vec::new() };
        for n in 0..nets {
            for (p, &net) in table.net_of.iter().enumerate() {
                if net == NetId(n) {
                    table.poly.push(PolyId(p as u32));
                }
            }
            table.poly_start.push(table.poly.len() as u32);
        }
        Self {
            store,
            derived,
            nets: table,
            devices: DeviceTable {
                terminal_start: vec![0],
                terminal_net: Vec::new(),
                terminal_role: Vec::new(),
                model: Vec::new(),
                marker: Vec::new(),
            },
        }
    }

    /// Replace the polygon of one row by a ring of the same box or a larger one.
    fn redraw(mut self, poly: usize, ring: &[(i64, i64)]) -> Self {
        let points: Vec<Point> = ring.iter().map(|&(x, y)| Point { x, y }).collect();
        let mut rings: Vec<Vec<Point>> = (0..self.store.layer.len())
            .map(|p| {
                let span = self.store.vert_start[p] as usize..self.store.vert_start[p + 1] as usize;
                span.map(|v| Point { x: self.store.xs[v], y: self.store.ys[v] }).collect()
            })
            .collect();
        rings[poly] = points.clone();
        let bbox = Bbox {
            xlo: points.iter().map(|p| p.x).min().expect("a ring"),
            ylo: points.iter().map(|p| p.y).min().expect("a ring"),
            xhi: points.iter().map(|p| p.x).max().expect("a ring"),
            yhi: points.iter().map(|p| p.y).max().expect("a ring"),
        };
        self.store.bbox[poly] = bbox;
        self.store.vert_start = vec![0];
        self.store.xs.clear();
        self.store.ys.clear();
        for ring in &rings {
            self.store.xs.extend(ring.iter().map(|p| p.x));
            self.store.ys.extend(ring.iter().map(|p| p.y));
            self.store.vert_start.push(self.store.xs.len() as u32);
        }
        self
    }

    fn device(mut self, model: u32, marker: u32, terminals: &[(TerminalRole, u32)]) -> Self {
        for &(role, net) in terminals {
            self.devices.terminal_role.push(role);
            self.devices.terminal_net.push(NetId(net));
        }
        self.devices.terminal_start.push(self.devices.terminal_net.len() as u32);
        self.devices.model.push(StrId(model));
        self.devices.marker.push(PolyId(marker));
        self
    }

    fn design(&self) -> Design<'_> {
        Design {
            store: &self.store,
            derived: &self.derived,
            nets: &self.nets,
            devices: &self.devices,
        }
    }

    fn facts(&self) -> NetFacts {
        let mut facts = NetFacts::default();
        classify_nets_into(&self.nets, &self.devices, &mut facts);
        facts
    }
}

fn report() -> (Violations, Vec<RuleRun>) {
    (Violations::default(), Vec::new())
}

fn assert_ran(runs: &[RuleRun], examined: u64, violations: u32) {
    assert_eq!(runs.len(), 1);
    assert_eq!(runs[0].outcome, Outcome::Ran);
    assert_eq!((runs[0].examined, runs[0].violations), (examined, violations));
}

#[test]
fn a_net_carrying_both_taps_is_a_short() {
    let table = SupplyShortTable { head: head(), tap_a: vec![base(0)], tap_b: vec![base(1)] };
    for (other, found) in [(0u32, 1u32), (1, 0)] {
        let layout =
            Layout::new(2, 2, &[(0, 0, 0, 0, 10, 10), (1, other, 20, 0, 30, 10)]);
        let (mut out, mut runs) = report();
        check_supply_short(layout.design(), &table, &mut out, &mut runs);
        assert_eq!(runs[0].violations, found);
        assert_eq!(out.len(), found as usize);
    }
}

#[test]
fn a_well_with_no_tap_inside_it_floats() {
    let table = FloatingWellTable { head: head(), well: vec![base(0)], tap: vec![base(1)] };
    for (x, found) in [(10i64, 0u32), (200, 1)] {
        let layout = Layout::new(
            2,
            1,
            &[(0, NO_NET, 0, 0, 100, 100), (1, NO_NET, x, 10, x + 10, 20)],
        );
        let (mut out, mut runs) = report();
        check_floating_well(layout.design(), &table, &mut out, &mut runs);
        assert_ran(&runs, 1, found);
        if found == 1 {
            assert_eq!(out.rows[0].shapes.0, PolyId(0));
            assert_eq!(out.rows[0].measured, Measurement::Count(0));
            assert_eq!(out.rows[0].limit, Measurement::Count(1));
        }
    }
}

/// An L-shaped well, and a tap that reaches into its notch or stays in its foot.
#[test]
fn a_tap_reaching_into_a_notch_does_not_tie_the_well() {
    let table = FloatingWellTable { head: head(), well: vec![base(0)], tap: vec![base(1)] };
    for (side, found) in [(15i64, 1u32), (10, 0), (9, 0)] {
        let layout = Layout::new(
            2,
            1,
            &[(0, NO_NET, 0, 0, 100, 100), (1, NO_NET, 1, 1, side, side)],
        )
        .redraw(0, &[(0, 0), (100, 0), (100, 10), (10, 10), (10, 100), (0, 100)]);
        let (mut out, mut runs) = report();
        check_floating_well(layout.design(), &table, &mut out, &mut runs);
        assert_ran(&runs, 1, found);
        if found == 1 {
            assert_eq!(out.rows[0].shapes.0, PolyId(0));
            assert_eq!(out.rows[0].measured, Measurement::Count(0));
            assert_eq!(out.rows[0].limit, Measurement::Count(1));
        }
    }
}

/// A tap that bends as its well does lies in it, though its box does not, and though
/// the middle of its box is in its own notch; one that cuts the corner does not.
#[test]
fn a_tap_that_follows_the_bend_of_its_well_ties_it() {
    let table = FloatingWellTable { head: head(), well: vec![base(0)], tap: vec![base(1)] };
    let bends: [(&[(i64, i64)], u32); 4] = [
        (&[(1, 1), (18, 1), (18, 7), (7, 7), (7, 18), (1, 18)], 0),
        (&[(1, 1), (90, 1), (90, 5), (5, 5), (5, 90), (1, 90)], 0),
        (&[(0, 0), (100, 0), (100, 10), (10, 10), (10, 100), (0, 100)], 0),
        (&[(1, 1), (18, 1), (18, 7), (7, 18), (1, 18)], 1),
    ];
    for (ring, found) in bends {
        let layout = Layout::new(
            2,
            1,
            &[(0, NO_NET, 0, 0, 100, 100), (1, NO_NET, 1, 1, 18, 18)],
        )
        .redraw(0, &[(0, 0), (100, 0), (100, 10), (10, 10), (10, 100), (0, 100)])
        .redraw(1, ring);
        let (mut out, mut runs) = report();
        check_floating_well(layout.design(), &table, &mut out, &mut runs);
        assert_ran(&runs, 1, found);
    }
}

/// A well in a hole of another: the tap inside ties the inner one alone.
#[test]
fn a_tap_in_a_well_drawn_in_a_hole_ties_that_well() {
    let table = FloatingWellTable { head: head(), well: vec![base(0)], tap: vec![base(1)] };
    let layout = Layout::new(
        2,
        1,
        &[
            (0, NO_NET, 0, 0, 100, 100),
            (0, NO_NET, 20, 20, 80, 80),
            (0, NO_NET, 40, 40, 60, 60),
            (1, NO_NET, 45, 45, 55, 55),
        ],
    )
    .redraw(1, &[(20, 20), (20, 80), (80, 80), (80, 20)]);
    let (mut out, mut runs) = report();
    check_floating_well(layout.design(), &table, &mut out, &mut runs);
    assert_ran(&runs, 2, 1);
    assert_eq!(out.rows[0].shapes.0, PolyId(0));
}

/// A derived tap with a hole of its own, round a hole of the well or beside one.
#[test]
fn a_derived_tap_is_read_with_its_holes() {
    let bar = |lo: i64, hi: i64| {
        vec![
            Point { x: lo, y: lo },
            Point { x: hi, y: lo },
            Point { x: hi, y: hi },
            Point { x: lo, y: hi },
        ]
    };
    let table = FloatingWellTable {
        head: head(),
        well: vec![base(0)],
        tap: vec![LayerRef::Named(StrId(9))],
    };
    for (hole, found) in [(bar(30, 60), 0u32), (bar(40, 50), 0), (bar(42, 50), 1)] {
        let mut layout = Layout::new(
            1,
            1,
            &[(0, NO_NET, 0, 0, 100, 100), (0, NO_NET, 40, 40, 50, 50)],
        )
        .redraw(1, &[(40, 40), (40, 50), (50, 50), (50, 40)]);
        layout.derived.name.push(StrId(9));
        layout.derived.shapes.push(LayerShapes {
            boxes: vec![Bbox { xlo: 10, ylo: 10, xhi: 90, yhi: 90 }],
            ring_start: vec![0, 2],
            rings: vec![bar(10, 90), hole],
        });
        let (mut out, mut runs) = report();
        check_floating_well(layout.design(), &table, &mut out, &mut runs);
        assert_ran(&runs, 1, found);
    }
}

/// A hole in the well, which a tap lies in, overlaps, surrounds or keeps clear of.
#[test]
fn a_tap_reaching_into_a_hole_does_not_tie_the_well() {
    let table = FloatingWellTable { head: head(), well: vec![base(0)], tap: vec![base(1)] };
    for (tap, found) in [
        ((42, 42, 48, 48), 1u32),
        ((20, 40, 45, 50), 1),
        ((10, 10, 90, 90), 1),
        ((5, 5, 20, 20), 0),
    ] {
        let layout = Layout::new(
            2,
            1,
            &[
                (0, NO_NET, 0, 0, 100, 100),
                (0, NO_NET, 40, 40, 50, 50),
                (1, NO_NET, tap.0, tap.1, tap.2, tap.3),
            ],
        )
        .redraw(1, &[(40, 40), (40, 50), (50, 50), (50, 40)]);
        let (mut out, mut runs) = report();
        check_floating_well(layout.design(), &table, &mut out, &mut runs);
        assert_ran(&runs, 1, found);
    }
}

/// Two bars of metal on one net, joined by a well and, in the clean layout, by
/// a third bar.
#[test]
fn a_net_held_together_by_a_soft_layer_is_flagged() {
    let table = SoftConnectionTable { head: head(), soft_start: vec![0, 1], soft: vec![base(1)] };
    let soft = [
        (0, 0, 0, 0, 100, 10),
        (0, 0, 200, 0, 300, 10),
        (1, 0, 50, 0, 250, 10),
    ];
    let layout = Layout::new(2, 1, &soft);
    let (mut out, mut runs) = report();
    check_soft_connection(layout.design(), &table, &mut out, &mut runs);
    assert_ran(&runs, 1, 1);
    assert_eq!(out.rows[0].shapes, (PolyId(0), Some(PolyId(1))), "the two sides of the bridge");
    assert_eq!(out.rows[0].measured, Measurement::Count(2));

    let hard = [soft[0], soft[1], (0, 0, 100, 0, 200, 10), soft[2]];
    let layout = Layout::new(2, 1, &hard);
    let (mut out, mut runs) = report();
    check_soft_connection(layout.design(), &table, &mut out, &mut runs);
    assert_ran(&runs, 1, 0);
    assert_eq!(out.len(), 0);
}

/// The far corner of the region is 300 by 400 from the tap's nearest corner.
#[test]
fn a_region_too_far_from_its_tie_is_measured_at_its_furthest_point() {
    let layout =
        Layout::new(2, 1, &[(0, NO_NET, 0, 0, 310, 410), (1, NO_NET, 0, 0, 10, 10)]);
    for (limit, found) in [(499i64, 1u32), (500, 0)] {
        let table = MissingTieTable {
            head: head(),
            region: vec![base(0)],
            tap: vec![base(1)],
            max_distance: vec![limit],
        };
        let (mut out, mut runs) = report();
        check_missing_tie(layout.design(), &table, &mut out, &mut runs);
        assert_eq!(runs[0].violations, found);
        if found == 1 {
            assert_eq!(out.rows[0].measured, Measurement::Length(500));
            assert_eq!(out.rows[0].at, Point { x: 310, y: 410 });
        }
    }
}

#[test]
fn a_gate_tied_to_a_source_with_no_drain_is_held() {
    let table = TieHighLowTable { head: head() };
    for (role, found) in [(TerminalRole::Source, 1u32), (TerminalRole::Drain, 0)] {
        let layout = Layout::new(1, 1, &[(0, 0, 0, 0, 10, 10)])
            .device(7, 0, &[(TerminalRole::Gate, 0), (role, 0)]);
        let facts = layout.facts();
        let (mut out, mut runs) = report();
        check_tie_high_low(layout.design(), &facts, &table, &mut out, &mut runs);
        assert_ran(&runs, 1, found);
        assert_eq!(out.len(), found as usize);
    }
}

#[test]
fn a_pad_needs_a_listed_clamp() {
    let layout = Layout::new(1, 1, &[(0, 0, 0, 0, 10, 10)])
        .device(7, 0, &[(TerminalRole::Pin(0), 0)]);
    for (model, found) in [(7u32, 0u32), (8, 1)] {
        let table = EsdTopologicalTable {
            head: head(),
            pad: vec![LayerId(0)],
            clamp_start: vec![0, 1],
            clamp_model: vec![StrId(model)],
        };
        let (mut out, mut runs) = report();
        check_esd_topological(layout.design(), &table, &mut out, &mut runs);
        assert_ran(&runs, 1, found);
        assert_eq!(out.len(), found as usize);
    }
}

#[test]
fn a_conductor_no_device_touches_is_unconnected() {
    let layout = Layout::new(1, 2, &[(0, 0, 0, 0, 10, 10), (0, 1, 20, 0, 30, 10)])
        .device(7, 0, &[(TerminalRole::Pin(0), 0)]);
    let table =
        UnconnectedPinTable { head: head(), layer_start: vec![0, 1], layer: vec![LayerId(0)] };
    let facts = layout.facts();
    let (mut out, mut runs) = report();
    check_unconnected_pin(layout.design(), &facts, &table, &mut out, &mut runs);
    assert_ran(&runs, 2, 1);
    assert_eq!(out.rows[0].shapes.0, PolyId(1));
    assert_eq!(out.rows[0].measured, Measurement::Count(0));
}

/// A diode's bonus lowers the ratio; a credit per area has no calibrated unit, so
/// a row asking for one is refused.
#[test]
fn a_diode_buys_an_antenna_bonus() {
    let layout = Layout::new(
        3,
        1,
        &[(0, 0, 0, 0, 400, 100), (1, 0, 500, 0, 600, 100), (2, 0, 0, 0, 100, 100)],
    );
    for (diode, credit, bonus, outcome, found) in [
        (None, 0.0, 0.0, Outcome::Ran, 1usize),
        (Some(base(1)), 0.0, 0.0, Outcome::Ran, 1),
        (Some(base(1)), 2.0, 0.0, Outcome::Refused, 0),
        (Some(base(1)), 0.0, 5.0, Outcome::Ran, 0),
    ] {
        let table = AntennaElectricalTable {
            head: head(),
            gate: vec![base(2)],
            collector_start: vec![0, 1],
            collector: vec![base(0)],
            diode: vec![diode],
            diode_credit: vec![num(credit)],
            diode_bonus: vec![num(bonus)],
            max_ratio: vec![num(3.0)],
        };
        let (mut out, mut runs) = report();
        check_antenna_electrical(layout.design(), &table, &mut out, &mut runs);
        assert_eq!(runs[0].outcome, outcome);
        assert_eq!(out.len(), found);
    }
}

fn supplies(nets: &[(u32, f64)]) -> IntentMap {
    IntentMap {
        declared: true,
        supply_net: nets.iter().map(|n| NetId(n.0)).collect(),
        supply_domain: nets.iter().map(|n| DomainId(n.0)).collect(),
        supply_role: nets
            .iter()
            .map(|n| if n.1 > 0.0 { SupplyRole::Power } else { SupplyRole::Ground })
            .collect(),
        supply_voltage: nets.iter().map(|n| num(n.1)).collect(),
        limit_net: Vec::new(),
        limit: Vec::new(),
        undeclared: Vec::new(),
    }
}

/// A one-ohm clamp from a pad to a supply, whose own pad discharges for nothing.
#[test]
fn a_discharge_path_costs_the_clamps_on_it() {
    let layout = Layout::new(
        2,
        2,
        &[(0, 0, 0, 0, 100, 10), (0, 1, 0, 20, 100, 30), (1, NO_NET, 40, 10, 60, 20)],
    )
    .device(9, 2, &[(TerminalRole::Pin(0), 0), (TerminalRole::Pin(1), 1)]);
    let intent = supplies(&[(1, 0.0)]);
    let networks = NetNetworks::default();
    let costly = Measurement::Resistance(num(1.0));
    let none = Measurement::Count(0);
    for (limit, required, measured) in
        [(2.0, 100.0, vec![]), (0.5, 100.0, vec![costly]), (2.0, 900.0, vec![none, none])]
    {
        let table = EsdLatchupTable {
            head: head(),
            pad: vec![LayerId(0)],
            guard_ring: vec![LayerId(1)],
            clamp_start: vec![0, 1],
            clamp_model: vec![StrId(9)],
            clamp_resistance: vec![num(1.0)],
            clamp_capacity: vec![num(500.0)],
            clamp_voltage: vec![num(3_000.0)],
            required_current: vec![num(required)],
            max_path_resistance: vec![num(limit)],
            max_clamp_voltage: vec![num(4_000.0)],
            min_guard_ring_width: vec![1],
            max_tap_distance: vec![100],
        };
        let (mut out, mut runs) = report();
        check_esd_latchup(
            layout.design(),
            &intent,
            &networks,
            &table,
            &mut out,
            &mut runs,
        );
        assert_eq!(runs[0].examined, 3, "two pads and one ring");
        let found: Vec<Measurement> = out.rows.iter().map(|v| v.measured).collect();
        assert_eq!(found, measured);
    }
}

#[test]
fn an_isolated_device_may_straddle_its_domains() {
    let intent = supplies(&[(0, 3_300.0), (1, 0.0)]);
    for (reach, found) in [(100i64, 0u32), (45, 1)] {
        let layout = Layout::new(
            3,
            2,
            &[
                (0, 0, 0, 0, 100, 10),
                (0, 1, 0, 20, 100, 30),
                (1, NO_NET, 40, 10, 60, 20),
                (2, NO_NET, 0, 0, reach, 40),
            ],
        )
        .device(9, 2, &[(TerminalRole::Source, 0), (TerminalRole::Drain, 1)]);
        let table = HvDomainTable {
            head: head(),
            max_domain_delta: vec![num(1_000.0)],
            isolation: vec![Some(LayerId(2))],
        };
        let (mut out, mut runs) = report();
        check_hv_domain(layout.design(), &intent, &table, &mut out, &mut runs);
        assert_ran(&runs, 1, found);
        assert_eq!(out.len(), found as usize);
    }
}

/// A hole of the isolation polygon anywhere in the marker leaves points uncovered.
#[test]
fn an_isolation_polygon_with_a_hole_in_the_marker_covers_nothing() {
    let bar = |xlo: i64, ylo: i64, xhi: i64, yhi: i64| {
        vec![
            Point { x: xlo, y: ylo },
            Point { x: xhi, y: ylo },
            Point { x: xhi, y: yhi },
            Point { x: xlo, y: yhi },
        ]
    };
    let marker = Bbox { xlo: 40, ylo: 10, xhi: 60, yhi: 20 };
    let with = |hole: Option<Vec<Point>>| {
        let mut rings = vec![bar(0, 0, 100, 40)];
        rings.extend(hole);
        LayerShapes {
            boxes: vec![Bbox { xlo: 0, ylo: 0, xhi: 100, yhi: 40 }],
            ring_start: vec![0, rings.len() as u32],
            rings,
        }
    };
    assert!(encloses(&with(None), marker));
    assert!(encloses(&with(Some(bar(70, 10, 80, 20))), marker), "the hole is elsewhere");
    assert!(!encloses(&with(Some(bar(45, 12, 50, 18))), marker), "the hole is inside it");
    assert!(!encloses(&with(Some(bar(30, 5, 70, 30))), marker), "it is inside the hole");
    assert!(!encloses(&with(Some(bar(55, 12, 70, 18))), marker), "the hole reaches into it");
    assert!(!encloses(&with(None), Bbox { xlo: 0, ylo: 10, xhi: 60, yhi: 20 }), "it touches");
}

/// A layer whose shapes could not be had is refused, never passed as clean.
#[test]
fn a_tap_layer_with_no_usable_shapes_is_refused() {
    let mut layout =
        Layout::new(2, 1, &[(0, NO_NET, 0, 0, 310, 410), (1, NO_NET, 0, 0, 10, 10)]);
    layout.derived.validated[1] = None;
    layout.derived.merged[1] = None;
    let table = MissingTieTable {
        head: head(),
        region: vec![base(0)],
        tap: vec![base(1)],
        max_distance: vec![1],
    };
    let (mut out, mut runs) = report();
    check_missing_tie(layout.design(), &table, &mut out, &mut runs);
    assert_eq!(out.len(), 0);
    assert_eq!(runs[0].outcome, Outcome::Refused);
}

/// The true maximum over the region, to a triangular tie, point by point.
#[test]
fn an_oblique_tie_is_measured_to_the_furthest_point_there_is() {
    let mut layout =
        Layout::new(2, 1, &[(0, NO_NET, 0, 0, 60, 40), (1, NO_NET, 0, 0, 30, 20)]);
    let ring = vec![Point { x: 0, y: 0 }, Point { x: 30, y: 0 }, Point { x: 0, y: 20 }];
    layout.derived.validated[1] = Some(LayerShapes {
        boxes: vec![Bbox { xlo: 0, ylo: 0, xhi: 30, yhi: 20 }],
        ring_start: vec![0, 1],
        rings: vec![ring.clone()],
    });
    let covered = |p: Point| p.x >= 0 && p.y >= 0 && 2 * p.x + 3 * p.y <= 60;
    let edges: Vec<Seg> =
        (0..3).map(|k| Seg { a: ring[k], b: ring[(k + 1) % 3] }).collect();
    let near = |p: Point| {
        if covered(p) {
            return 0;
        }
        edges.iter().map(|&s| point_seg_dist2(p, s)).min().expect("three edges")
    };
    let mut furthest = 0i128;
    for x in 0..=60i64 {
        for y in 0..=40i64 {
            furthest = furthest.max(near(Point { x, y }));
        }
    }
    let root = isqrt(furthest);
    for (limit, found) in [(5i64, 1u32), (root, u32::from(root as i128 * root as i128 != furthest))]
    {
        let table = MissingTieTable {
            head: head(),
            region: vec![base(0)],
            tap: vec![base(1)],
            max_distance: vec![limit],
        };
        let (mut out, mut runs) = report();
        check_missing_tie(layout.design(), &table, &mut out, &mut runs);
        assert_eq!(runs[0].violations, found);
        if found == 1 {
            let at = out.rows[0].at;
            assert_eq!(near(at), furthest);
            let down =
                edges.iter().map(|&s| point_seg_dist2_down(at, s)).min().expect("three edges");
            assert_eq!(out.rows[0].measured, Measurement::Length(isqrt(down)));
        }
    }
}

/// A corner a fraction of a unit beyond the limit is reported, and its distance is
/// given rounded down.
#[test]
fn a_point_a_fraction_beyond_the_limit_is_reported() {
    let mut layout =
        Layout::new(2, 1, &[(0, NO_NET, 1, 4, 2, 5), (1, NO_NET, 0, 0, 20, 10)]);
    let ring = vec![Point { x: 0, y: 0 }, Point { x: 20, y: 0 }, Point { x: 20, y: 10 }];
    let slope = Seg { a: ring[2], b: ring[0] };
    layout.derived.validated[1] = Some(LayerShapes {
        boxes: vec![Bbox { xlo: 0, ylo: 0, xhi: 20, yhi: 10 }],
        ring_start: vec![0, 1],
        rings: vec![ring],
    });
    let corner = Point { x: 1, y: 5 };
    assert_eq!(point_seg_dist2_down(corner, slope), 16);
    assert_eq!(point_seg_dist2(corner, slope), 17);
    for (limit, found) in [(4i64, 1u32), (5, 0)] {
        let table = MissingTieTable {
            head: head(),
            region: vec![base(0)],
            tap: vec![base(1)],
            max_distance: vec![limit],
        };
        let (mut out, mut runs) = report();
        check_missing_tie(layout.design(), &table, &mut out, &mut runs);
        assert_ran(&runs, 1, found);
        if found == 1 {
            assert_eq!(out.rows[0].at, corner);
            assert_eq!(out.rows[0].measured, Measurement::Length(4));
        }
    }
}

/// A tie far wider than the limit: what it covers is at no distance from it, in the
/// middle of it as at its edge.
#[test]
fn a_region_its_tie_covers_is_tied_throughout() {
    for (region, found) in [((0, 0, 1000, 1000), 0u32), ((0, 0, 1100, 1000), 0), ((0, 0, 1101, 1000), 1)]
    {
        let layout = Layout::new(
            2,
            1,
            &[
                (0, NO_NET, region.0, region.1, region.2, region.3),
                (1, NO_NET, 0, 0, 1000, 1000),
            ],
        );
        let table = MissingTieTable {
            head: head(),
            region: vec![base(0)],
            tap: vec![base(1)],
            max_distance: vec![100],
        };
        let (mut out, mut runs) = report();
        check_missing_tie(layout.design(), &table, &mut out, &mut runs);
        assert_ran(&runs, 1, found);
        if found == 1 {
            assert_eq!(out.rows[0].measured, Measurement::Length(101));
            assert_eq!(out.rows[0].at.x, 1101);
        }
    }
}

/// A hole in the tie holds nothing: its middle is as far as its edges are.
#[test]
fn a_hole_in_a_tie_is_measured_to_its_edges() {
    let bar = |lo: i64, hi: i64| {
        vec![
            Point { x: lo, y: lo },
            Point { x: hi, y: lo },
            Point { x: hi, y: hi },
            Point { x: lo, y: hi },
        ]
    };
    let mut layout =
        Layout::new(2, 1, &[(0, NO_NET, 0, 0, 1000, 1000), (1, NO_NET, 0, 0, 1000, 1000)]);
    layout.derived.validated[1] = Some(LayerShapes {
        boxes: vec![Bbox { xlo: 0, ylo: 0, xhi: 1000, yhi: 1000 }],
        ring_start: vec![0, 2],
        rings: vec![bar(0, 1000), bar(400, 600)],
    });
    for (limit, found) in [(99i64, 1u32), (100, 0)] {
        let table = MissingTieTable {
            head: head(),
            region: vec![base(0)],
            tap: vec![base(1)],
            max_distance: vec![limit],
        };
        let (mut out, mut runs) = report();
        check_missing_tie(layout.design(), &table, &mut out, &mut runs);
        assert_ran(&runs, 1, found);
        if found == 1 {
            assert_eq!(out.rows[0].at, Point { x: 500, y: 500 });
            assert_eq!(out.rows[0].measured, Measurement::Length(100));
        }
    }
}

/// Four corners equally far from a tie in the middle: the first is reported.
#[test]
fn the_first_of_equally_far_vertices_is_reported() {
    let layout =
        Layout::new(2, 1, &[(0, NO_NET, 0, 0, 100, 100), (1, NO_NET, 45, 45, 55, 55)]);
    let table = MissingTieTable {
        head: head(),
        region: vec![base(0)],
        tap: vec![base(1)],
        max_distance: vec![10],
    };
    let (mut out, mut runs) = report();
    check_missing_tie(layout.design(), &table, &mut out, &mut runs);
    assert_ran(&runs, 1, 1);
    assert_eq!(out.rows[0].at, Point { x: 0, y: 0 });
    assert_eq!(out.rows[0].measured, Measurement::Length(63));
}
