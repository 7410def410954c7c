//! Evidence drawn from an extracted netlist, and the checks over it.
use gpurify_erc::evidence::esd::{
    extract_esd_evidence, is_clamp_class, is_ring_layer, PadDirection,
};
use gpurify_erc::evidence::finding::{Backend, Detail, ErcViolation};
use gpurify_erc::evidence::grid::{extract_power_grid, PowerEdgeKind};
use gpurify_erc::evidence::mesh::measure_net;
use gpurify_erc::evidence::narrow::{
    em_narrow_flags, groups, worth_a_launch, EmCurrentDensityCheck, GPU_MIN_LINEAR_WORK,
};
use gpurify_erc::evidence::netlist::{
    BjtDevice, DeviceKind, ExtractedNetlist, LayerElectrics, MosDevice, MosRule, NetNames,
    Technology, TwoTerminalDevice, TwoTerminalKind, ViaRule, OFF_NET,
};
use gpurify_erc::evidence::p2p::PointToPointResistanceCheck;
use gpurify_erc::evidence::pins::UnconnectedPinCheck;
use gpurify_erc::evidence::rails::{
    guess_voltage, identify_power_nets, is_ground_name, PowerNetClassification,
};
use gpurify_erc::evidence::substrate::{
    extract_substrate_evidence, guess_well_type, is_tap_layer, severity_of, LatchupSeverity,
    WellType,
};
use gpurify_erc::evidence::worst::{worst_pair_r, Link};
use gpurify_erc::geom::Bbox;
use gpurify_erc::model::LayerId;
use gpurify_erc::number::Number;
use gpurify_erc::store::GeometryStore;

fn num(v: f64) -> Number {
    Number { bits: v.to_bits() }
}

fn value(n: Number) -> f64 {
    f64::from_bits(n.bits)
}

/// A store of rectangles `(layer, x, y, width, height)`, ascending by layer.
fn layout(layers: usize, rects: &[(u32, i64, i64, i64, i64)]) -> GeometryStore {
    let mut store = GeometryStore {
        layer_start: vec![0],
        layer: Vec::new(),
        bbox: Vec::new(),
        vert_start: vec![0],
        xs: Vec::new(),
        ys: Vec::new(),
    };
    for l in 0..layers {
        for &(layer, x, y, w, h) in rects {
            if layer as usize != l {
                continue;
            }
            store.layer.push(LayerId(layer));
            store.bbox.push(Bbox { xlo: x, ylo: y, xhi: x + w, yhi: y + h });
            for (px, py) in [(x, y), (x + w, y), (x + w, y + h), (x, y + h)] {
                store.xs.push(px);
                store.ys.push(py);
            }
            store.vert_start.push(store.xs.len() as u32);
        }
        store.layer_start.push(store.layer.len() as u32);
    }
    store
}

fn technology(names: &[&str]) -> Technology {
    Technology {
        layer_name: names.iter().map(|n| n.to_string()).collect(),
        conductors: Vec::new(),
        vias: Vec::new(),
        electrics: names.iter().map(|_| None).collect(),
        mos_rules: Vec::new(),
        global_nets: Vec::new(),
        dbu_nm: num(1.0),
        em_min_width: 100,
        p2p_r_limit_ohm: num(500.0),
    }
}

fn netlist(net_of_poly: Vec<u32>) -> ExtractedNetlist {
    ExtractedNetlist {
        devices: Vec::new(),
        bjt_devices: Vec::new(),
        two_terminal: Vec::new(),
        net_of_poly,
        net_names: NetNames { net: Vec::new(), name: Vec::new() },
    }
}

fn names(list: &[(u32, &str)]) -> NetNames {
    NetNames {
        net: list.iter().map(|n| n.0).collect(),
        name: list.iter().map(|n| n.1.to_string()).collect(),
    }
}

fn nmos(gate: u32, source: u32, drain: u32) -> MosDevice {
    MosDevice { kind: DeviceKind::Nmos, gate, source, drain, body: OFF_NET, device_class: None }
}

#[test]
fn guess_well_type_recognizes_names() {
    assert_eq!(guess_well_type("nwell"), Some(WellType::Nwell));
    assert_eq!(guess_well_type("NWELL"), Some(WellType::Nwell));
    assert_eq!(guess_well_type("pwell"), Some(WellType::Pwell));
    assert_eq!(guess_well_type("deep_nwell"), Some(WellType::DeepNwell));
    assert_eq!(guess_well_type("met1"), None);
}

#[test]
fn empty_layout_yields_empty_evidence() {
    let store = layout(1, &[]);
    let tech = technology(&["met1"]);
    let ev = extract_substrate_evidence(&store, &tech, &netlist(Vec::new()));
    assert!(ev.wells.is_empty());
    assert!(ev.latchup_sites.is_empty());
    assert!(ev.untapped_wells.is_empty());
}

#[test]
fn latchup_severity_thresholds() {
    assert_ne!(LatchupSeverity::High, LatchupSeverity::Low);
    assert_eq!(LatchupSeverity::Medium, LatchupSeverity::Medium);
}

#[test]
fn empty_netlist_yields_empty_evidence() {
    let store = layout(1, &[]);
    let tech = technology(&["met1"]);
    let cls = PowerNetClassification::default();
    let ev = extract_esd_evidence(&store, &tech, &netlist(Vec::new()), &cls);
    assert!(ev.pads.is_empty());
    assert!(ev.clamps.is_empty());
    assert!(ev.paths.is_empty());
    assert!(ev.guard_rings.is_empty());
}

#[test]
fn pad_direction_classification() {
    assert_eq!(PadDirection::Power, PadDirection::Power);
    assert_ne!(PadDirection::Input, PadDirection::Output);
}

#[test]
fn identify_standard_power_names() {
    let tech = technology(&["met1"]);
    let cls = identify_power_nets(&tech, &names(&[(0, "VDD"), (1, "VSS"), (2, "SIG")]));
    assert_eq!(cls.power_nets.len(), 1);
    assert_eq!(cls.power_nets[0].1, "VDD");
    assert_eq!(cls.ground_nets.len(), 1);
    assert_eq!(cls.ground_nets[0].1, "VSS");
}

#[test]
fn empty_classification_yields_empty_grid() {
    let store = layout(1, &[]);
    let tech = technology(&["met1"]);
    let cls = PowerNetClassification::default();
    let grid = extract_power_grid(&store, &tech, &netlist(Vec::new()), &cls);
    assert!(grid.nodes.is_empty());
    assert!(grid.edges.is_empty());
}

#[test]
fn a_rail_name_is_read_in_either_case() {
    assert_eq!(guess_voltage("vdd").map(value), Some(1.8));
    assert_eq!(guess_voltage("VddH").map(value), Some(3.3));
    assert_eq!(guess_voltage("VDDL").map(value), Some(0.9));
    assert_eq!(guess_voltage("vdd_core").map(value), Some(1.8));
    assert_eq!(guess_voltage("sig"), None);
    assert!(is_ground_name("vss"));
    assert!(is_ground_name("GND"));
    assert!(!is_ground_name("vdd"));
}

/// One first-metal rectangle per net.
fn metal_store(nets: &[u32]) -> GeometryStore {
    let rects: Vec<(u32, i64, i64, i64, i64)> =
        (0..nets.len()).map(|i| (0, i as i64 * 300, 0, 100, 100)).collect();
    layout(1, &rects)
}

#[test]
fn bjt_terminal_nets_not_flagged() {
    let nets = [0, 1, 2];
    let mut e = netlist(nets.to_vec());
    e.bjt_devices.push(BjtDevice {
        kind: DeviceKind::Npn,
        collector: 0,
        base: 1,
        emitter: 2,
        name: "npn".to_string(),
    });
    let found = UnconnectedPinCheck.check(&metal_store(&nets), &technology(&["met1"]), &e);
    assert!(found.is_empty(), "BJT nets are device nets");
}

#[test]
fn resistor_terminal_nets_not_flagged() {
    let nets = [0, 1];
    let mut e = netlist(nets.to_vec());
    e.two_terminal.push(TwoTerminalDevice {
        kind: TwoTerminalKind::Resistor,
        name: "r1".to_string(),
        terminal_a: 0,
        terminal_b: 1,
        value: num(100.0),
    });
    let found = UnconnectedPinCheck.check(&metal_store(&nets), &technology(&["met1"]), &e);
    assert!(found.is_empty(), "resistor nets are device nets");
}

#[test]
fn deviceless_net_still_flagged() {
    let nets = [0];
    let e = netlist(nets.to_vec());
    let v = UnconnectedPinCheck.check(&metal_store(&nets), &technology(&["met1"]), &e);
    assert_eq!(v.len(), 1, "floating metal must still be flagged");
    assert_eq!(v[0].check, "unconnected_pin");
}

fn link(a: u32, b: u32, ohms: f64) -> Link {
    Link { a, b, ohms: num(ohms) }
}

#[test]
fn chain_resistance_matches_squares() {
    let edges = vec![link(0, 1, 1.0), link(1, 2, 1.0), link(2, 3, 1.0)];
    let r = value(worst_pair_r(&edges, &vec![true, false, false, true]));
    assert!((r - 3.0).abs() < 1e-9, "chain R {r} != 3");
}

#[test]
fn parallel_edge_reduces_resistance() {
    let edges = vec![link(0, 1, 1.0), link(1, 2, 1.0), link(2, 3, 1.0)];
    let term = vec![true, false, false, true];
    let base = value(worst_pair_r(&edges, &term));
    let strapped =
        vec![link(0, 1, 1.0), link(1, 2, 1.0), link(2, 3, 1.0), link(0, 3, 3.0)];
    let r = value(worst_pair_r(&strapped, &term));
    assert!(r < base, "parallel strap must reduce R: {r} vs {base}");
    assert!((r - 1.5).abs() < 1e-9, "3||3 must be 1.5, got {r}");
}

#[test]
fn worst_terminal_pair_selected() {
    let edges = vec![link(0, 1, 1.0), link(0, 2, 3.0), link(0, 3, 6.0)];
    let r = value(worst_pair_r(&edges, &vec![false, true, true, true]));
    assert!((r - 9.0).abs() < 1e-9, "worst pair must be 3+6=9, got {r}");
}

#[test]
fn a_pair_split_across_parts_is_passed_over() {
    let edges = vec![link(0, 1, 2.0), link(2, 3, 5.0)];
    assert_eq!(value(worst_pair_r(&edges, &vec![true, false, false, true])), 0.0);
    assert_eq!(value(worst_pair_r(&edges, &vec![true, true, true, true])), 5.0);
    assert_eq!(value(worst_pair_r(&Vec::new(), &vec![true])), 0.0);
    assert_eq!(value(worst_pair_r(&Vec::new(), &Vec::new())), 0.0);
}

const DIFF: u32 = 0;
const POLY: u32 = 1;
const NSDM: u32 = 2;
const MET1: u32 = 3;

fn p2p_technology() -> Technology {
    let mut tech = technology(&["diff", "poly", "nsdm", "met1"]);
    tech.mos_rules.push(MosRule { gate_layer: LayerId(POLY), channel_layer: LayerId(DIFF) });
    tech
}

/// The resistance of each polygon: its squares along its long side.
fn sheet_ohms(store: &GeometryStore) -> Vec<Number> {
    (0..store.layer.len())
        .map(|p| {
            let b = store.bbox[p];
            let (w, h) = ((b.xhi - b.xlo) as f64, (b.yhi - b.ylo) as f64);
            let squares = if w > h { w / h } else { h / w };
            num(match store.layer[p].0 {
                POLY => 48.2 * squares,
                MET1 => 0.1 * squares,
                _ => 0.0,
            })
        })
        .collect()
}

fn run_check(store: &GeometryStore, ext: &ExtractedNetlist) -> Vec<ErcViolation> {
    PointToPointResistanceCheck.check(store, &p2p_technology(), ext, &sheet_ohms(store))
}

fn reported(v: &ErcViolation) -> f64 {
    match v.detail {
        Detail::NetResistance { ohms, .. } => value(ohms),
        _ => panic!("a resistance finding"),
    }
}

#[test]
fn device_gate_poly_excluded_from_net_resistance() {
    let store = layout(
        4,
        &[
            (DIFF, 0, 0, 4000, 160_000),
            (POLY, 1000, -4000, 2000, 168_000),
            (NSDM, -1000, -1000, 6000, 162_000),
            (MET1, 0, -4000, 10_000, 2000),
        ],
    );
    let mut ext = netlist(vec![1, 0, OFF_NET, 0]);
    ext.devices.push(nmos(0, 1, 1));
    let v = run_check(&store, &ext);
    assert!(v.is_empty(), "gate poly is device-intrinsic, net R must be interconnect only");
}

#[test]
fn plain_poly_routing_still_counts() {
    let store = layout(
        4,
        &[
            (DIFF, 0, 0, 4000, 4000),
            (POLY, 1000, -1000, 2000, 6000),
            (POLY, 1000, 4900, 2000, 200_000),
            (NSDM, -1000, -1000, 6000, 6000),
        ],
    );
    let mut ext = netlist(vec![1, 0, 0, OFF_NET]);
    ext.devices.push(nmos(0, 1, 1));
    let v = run_check(&store, &ext);
    assert_eq!(v.len(), 1, "poly routing must still count");
    assert_eq!(v[0].check, "p2p_resistance");
    assert_eq!((v[0].x, v[0].y), (1000, 4900));
    assert!((reported(&v[0]) - 4820.0).abs() < 1e-6);
}

#[test]
fn parallel_strap_reduces_reported_net_resistance() {
    let build = |with_strap: bool| {
        let mut rects = vec![
            (DIFF, 0, 0, 4000, 4000),
            (DIFF, 300_000, 0, 4000, 4000),
            (POLY, 1000, -1000, 2000, 6000),
            (POLY, 301_000, -1000, 2000, 6000),
            (POLY, 1000, 4900, 302_000, 2000),
            (NSDM, -1000, -1000, 306_000, 6000),
        ];
        let mut nets = vec![1, 2, 0, 0, 0, OFF_NET];
        if with_strap {
            rects.push((MET1, 1000, 4900, 302_000, 2000));
            nets.push(0);
        }
        let mut ext = netlist(nets);
        ext.devices.push(nmos(0, 1, 1));
        ext.devices.push(nmos(0, 2, 2));
        (layout(4, &rects), ext)
    };
    let (store, ext) = build(false);
    let v = run_check(&store, &ext);
    assert_eq!(v.len(), 1, "poly-only gate route must violate");
    let expect = 48.2 * 150.0;
    let reported = reported(&v[0]);
    assert!(
        (reported / expect - 1.0).abs() < 0.01,
        "reported R {reported} not within 1% of {expect}"
    );
    let (store, ext) = build(true);
    assert!(run_check(&store, &ext).is_empty(), "parallel met1 strap must reduce the R");
}

#[test]
fn a_net_is_measured_between_the_boxes_its_devices_attach_at() {
    let bar = Bbox { xlo: 0, ylo: 0, xhi: 1000, yhi: 10 };
    let left = Bbox { xlo: 100, ylo: -5, xhi: 100, yhi: 5 };
    let right = Bbox { xlo: 600, ylo: -5, xhi: 600, yhi: 5 };
    let ohms = vec![num(10.0)];
    // Half the bar lies between the two attach boxes, behind two contacts.
    let two = value(measure_net(&vec![bar], &vec![left, right], &ohms));
    assert!((two - 5.0).abs() < 1e-4, "{two}");
    // With one attach box every node is measured, ends and all.
    let one = value(measure_net(&vec![bar], &vec![left], &ohms));
    assert!((one - 10.0).abs() < 1e-4, "{one}");
}

#[test]
fn narrow_metal_is_flagged_only_where_current_flows() {
    let store = layout(2, &[(0, 0, 0, 50, 1000), (0, 300, 0, 100, 100), (1, 0, 0, 90, 90)]);
    let tech = technology(&["met1", "met2"]);
    let mut ext = netlist(vec![7, 7, 8]);
    assert!(EmCurrentDensityCheck.check(&store, &tech, &ext, &None).is_empty());
    ext.devices.push(nmos(8, 7, 9));
    let v = EmCurrentDensityCheck.check(&store, &tech, &ext, &None);
    assert_eq!(v.len(), 1);
    assert_eq!(v[0].check, EmCurrentDensityCheck.id());
    assert!(matches!(v[0].detail, Detail::NarrowMetal { width: 50 }));
    // The advisory pass flags what it flags; the findings stay the same.
    let flags = em_narrow_flags(&store.bbox, tech.em_min_width);
    assert_eq!(flags, vec![1, 0, 1]);
    let advised = EmCurrentDensityCheck.check(&store, &tech, &ext, &Some(flags));
    assert_eq!(advised.len(), 1);
    assert_eq!((advised[0].x, advised[0].y), (v[0].x, v[0].y));
}

#[test]
fn only_enough_boxes_are_worth_a_launch() {
    assert!(!worth_a_launch(Backend::Cpu, GPU_MIN_LINEAR_WORK));
    assert!(!worth_a_launch(Backend::Gpu, GPU_MIN_LINEAR_WORK - 1));
    assert!(worth_a_launch(Backend::Gpu, GPU_MIN_LINEAR_WORK));
    assert_eq!(groups(0), [1, 1, 1]);
    assert_eq!(groups(64), [1, 1, 1]);
    assert_eq!(groups(65), [2, 1, 1]);
}

#[test]
fn severity_follows_the_distance() {
    assert_eq!(severity_of(num(100.0)), LatchupSeverity::High);
    assert_eq!(severity_of(num(1.0e9)), LatchupSeverity::Low);
}

#[test]
fn rail_polygons_become_nodes_joined_by_metal_and_vias() {
    let store = layout(
        3,
        &[(0, 0, 0, 1000, 100), (0, 1000, 0, 1000, 100), (1, 1900, 20, 50, 50), (2, 1800, 0, 100, 900)],
    );
    let mut tech = technology(&["met1", "via", "met2"]);
    tech.conductors = vec![LayerId(0), LayerId(2)];
    tech.vias = vec![ViaRule { cut: LayerId(1), joins: vec![LayerId(0), LayerId(2)] }];
    for l in 0..3 {
        tech.electrics[l] =
            Some(LayerElectrics { sheet_res_ohm_sq: num(0.1), via_res_ohm: num(4.0) });
    }
    let mut ext = netlist(vec![0, 0, 0, 0]);
    ext.net_names = names(&[(0, "VDD")]);
    let cls = identify_power_nets(&tech, &ext.net_names);
    let grid = extract_power_grid(&store, &tech, &ext, &cls);
    assert!(!grid.nodes.is_empty());
    assert!(!grid.edges.is_empty());
    let bar = grid
        .edges
        .iter()
        .find(|e| (e.from, e.to) == (0, 1))
        .expect("the two bars of the first layer abut");
    match bar.kind {
        PowerEdgeKind::Metal { width_um, .. } => assert_eq!(width_um, num(0.1)),
        _ => panic!("metal joins the bars"),
    }
    assert_eq!(bar.length_um, num(1.0));
    assert_eq!(bar.resistance_ohm, num(0.1).times(num(1.0)).over(num(0.1)));
    let quiet = identify_power_nets(&tech, &names(&[(0, "SIG")]));
    let none = extract_power_grid(&store, &tech, &ext, &quiet);
    assert!(none.nodes.is_empty() && none.edges.is_empty());
}

#[test]
fn classes_and_layers_are_read_by_what_their_names_hold() {
    assert!(is_clamp_class("esd_nmos") && is_clamp_class("rc_clamp"));
    assert!(!is_clamp_class("nmos"));
    assert!(is_tap_layer("ntap") && is_tap_layer("diffusion") && is_tap_layer("licon_contact"));
    assert!(!is_tap_layer("met1"));
}

/// A thin bar is ring-shaped; it is a guard ring on a well layer with a gate inside.
#[test]
fn a_guard_ring_is_on_a_well_or_tap_layer_and_round_a_device() {
    let store = layout(
        3,
        &[(0, 0, 0, 10, 1000), (1, 2, 100, 4, 4), (2, 0, 0, 10, 1000)],
    );
    let mut tech = technology(&["nwell", "poly", "met1"]);
    tech.conductors = vec![LayerId(0), LayerId(2)];
    tech.mos_rules = vec![MosRule { gate_layer: LayerId(1), channel_layer: LayerId(0) }];
    let mut ext = netlist(vec![7, 1, 8]);
    ext.devices = vec![nmos(1, 2, 3)];
    let cls = PowerNetClassification::default();
    let rings = extract_esd_evidence(&store, &tech, &ext, &cls).guard_rings;
    assert_eq!(rings.len(), 1, "metal is no guard ring");
    assert_eq!(rings[0].ring_layer, LayerId(0));
    assert_eq!(rings[0].width_nm, 10);
    assert_eq!(rings[0].cell_name, "ring_p0");

    ext.devices = vec![nmos(5, 2, 3)];
    assert!(extract_esd_evidence(&store, &tech, &ext, &cls).guard_rings.is_empty());
    assert!(is_ring_layer("nwell") && is_ring_layer("ptap") && !is_ring_layer("met1"));
}

#[test]
fn a_finding_is_worded() {
    let narrow = Detail::NarrowMetal { width: 90 };
    assert_eq!(narrow.text().as_deref(), Some("narrow metal (90nm) on current-carrying net"));
    let below = Detail::NarrowMetal { width: -12 };
    assert_eq!(below.text().as_deref(), Some("narrow metal (-12nm) on current-carrying net"));
    let loose = Detail::NoDevice { layer: "met1".to_string() };
    assert_eq!(loose.text().as_deref(), Some("metal on met1 not connected to any device"));
    assert!(Detail::NetResistance { net: 3, ohms: num(1.0) }.text().is_none());
}
