//! The supply solve, the per-net probes, and the extraction that feeds both.
use gpurify_erc::design::Design;
use gpurify_erc::geom::{Bbox, Point, Seg};
use gpurify_erc::grid::SegGrid;
use gpurify_erc::intent::{IntentMap, NetLimits};
use gpurify_erc::model::{
    DomainId, LayerId, NetId, PolyId, StrId, SupplyRole, TerminalRole, NO_NET,
};
use gpurify_erc::number::Number;
use gpurify_erc::power::descent::solve_into;
use gpurify_erc::power::factor::factorise;
use gpurify_erc::power::nets::extract_nets_into;
use gpurify_erc::power::network::{
    discarded_budget, EdgeKind, Grid, NetNetworks, PowerError, PowerGrid, PowerSolution,
};
use gpurify_erc::power::probe::effective_resistance_into;
use gpurify_erc::power::process::{Connectivity, Contacts, Process};
use gpurify_erc::power::profile::ChainProfile;
use gpurify_erc::power::rails::extract_into;
use gpurify_erc::power::solve::{assemble, SolveConfig};
use gpurify_erc::power::sounding::probe_rows;
use gpurify_erc::report::{Outcome, RuleRun, Violations};
use gpurify_erc::rules::electrical::{check_p2p_resistance, P2pResistanceTable};
use gpurify_erc::ruleset::RuleHead;
use gpurify_erc::store::{DeviceTable, GeometryStore, NetTable};

fn num(v: f64) -> Number {
    Number { bits: v.to_bits() }
}

fn value(n: Number) -> f64 {
    f64::from_bits(n.bits)
}

fn assert_close_relative(what: &str, measured: f64, expected: f64, tolerance: f64) {
    assert!(
        (measured - expected).abs() <= tolerance * expected.abs(),
        "{what}: measured {measured}, expected {expected}"
    );
}

/// A small deterministic generator.
struct Rng(u64);

impl Rng {
    fn next(&mut self) -> u64 {
        self.0 = self.0.wrapping_add(0x9E37_79B9_7F4A_7C15);
        let mut z = self.0;
        z = (z ^ (z >> 30)).wrapping_mul(0xBF58_476D_1CE4_E5B9);
        z = (z ^ (z >> 27)).wrapping_mul(0x94D0_49BB_1331_11EB);
        z ^ (z >> 31)
    }

    fn unit(&mut self) -> f64 {
        (self.next() >> 11) as f64 / (1u64 << 53) as f64
    }

    fn below(&mut self, n: u64) -> u64 {
        self.next() % n
    }
}

/// One row of networks, for net zero.
fn one_row_network(nodes: u32, terminals: &[u32], edges: &[(u32, u32, f64)]) -> NetNetworks {
    NetNetworks {
        net: vec![NetId(0)],
        node_start: vec![0, nodes],
        node_at: (0..nodes).map(|n| Point { x: i64::from(n), y: 0 }).collect(),
        node_poly: (0..nodes).map(|_| PolyId(0)).collect(),
        terminal_start: vec![0, terminals.len() as u32],
        terminal: terminals.to_vec(),
        edge_start: vec![0, edges.len() as u32],
        edge_from: edges.iter().map(|e| e.0).collect(),
        edge_to: edges.iter().map(|e| e.1).collect(),
        edge_resistance: edges.iter().map(|e| num(e.2)).collect(),
    }
}

type Probe = (u32, u32, Number);

fn probe(networks: &NetNetworks) -> Vec<Probe> {
    let mut out = Vec::new();
    effective_resistance_into(networks, 0, &mut out)
        .expect("every resistance in these networks is positive and finite");
    out
}

fn probe_of(probes: &[Probe], a: u32, b: u32) -> f64 {
    let (lo, hi) = (a.min(b), a.max(b));
    let found = probes.iter().find(|p| p.0 == lo && p.1 == hi);
    value(found.expect("the pair is connected").2)
}

fn edges_of(networks: &NetNetworks) -> Vec<(u32, u32, f64)> {
    (0..networks.edge_from.len())
        .map(|e| (networks.edge_from[e], networks.edge_to[e], value(networks.edge_resistance[e])))
        .collect()
}

/// A spanning path with random resistances, some chords, and three terminals.
fn random_network(seed: u64, nodes: u32, chords: u32) -> NetNetworks {
    let mut rng = Rng(seed);
    let mut edges: Vec<(u32, u32, f64)> = (0..nodes - 1)
        .map(|node| (node, node + 1, 0.5 + 9.5 * rng.unit()))
        .collect();
    for _ in 0..chords {
        let from = rng.below(u64::from(nodes)) as u32;
        let to = rng.below(u64::from(nodes)) as u32;
        if from != to {
            edges.push((from, to, 0.5 + 9.5 * rng.unit()));
        }
    }
    one_row_network(nodes, &[0, nodes / 2, nodes - 1], &edges)
}

#[test]
fn a_single_edge_reports_its_own_resistance() {
    let networks = one_row_network(2, &[0, 1], &[(0, 1, 47.0)]);
    let probes = probe(&networks);
    assert_eq!(probes.len(), 1, "two terminals make exactly one pair");
    assert_eq!(probes[0].0, 0);
    assert_eq!(probes[0].1, 1);
    assert_close_relative("a lone resistor", value(probes[0].2), 47.0, 1e-9);
}

/// A stage is one series resistor and a parallel pair, so `rungs` stages are
/// `rungs * (series + parallel / 2)`.
#[test]
fn a_resistor_ladder_matches_its_series_parallel_closed_form() {
    let (series, parallel) = (1.5, 3.0);
    for rungs in [1u32, 2, 7] {
        let mut edges = Vec::new();
        for k in 0..rungs {
            edges.push((2 * k, 2 * k + 1, series));
            edges.push((2 * k + 1, 2 * k + 2, parallel));
            edges.push((2 * k + 1, 2 * k + 2, parallel));
        }
        let networks = one_row_network(2 * rungs + 1, &[0, 2 * rungs], &edges);
        let measured = probe_of(&probe(&networks), 0, 2 * rungs);
        assert_close_relative(
            "a ladder",
            measured,
            f64::from(rungs) * (series + parallel / 2.0),
            1e-9,
        );
    }
}

#[test]
fn parallel_strands_between_two_terminals_divide_the_resistance() {
    for strands in [1u32, 2, 4, 8] {
        let edges: Vec<(u32, u32, f64)> = (0..strands).map(|_| (0, 1, 8.0)).collect();
        let networks = one_row_network(2, &[0, 1], &edges);
        let probes = probe(&networks);
        assert_close_relative(
            "parallel strands",
            value(probes[0].2),
            8.0 / f64::from(strands),
            1e-9,
        );
    }
}

#[test]
fn subdividing_an_edge_leaves_every_effective_resistance_unchanged() {
    let base = random_network(5, 9, 4);
    let before = probe(&base);
    let nodes = base.node_start[1];
    let mut edges = edges_of(&base);
    let (from, to, ohm) = edges.remove(0);
    edges.push((from, nodes, ohm / 2.0));
    edges.push((nodes, to, ohm / 2.0));
    let split = one_row_network(nodes + 1, &[0, nodes / 2, nodes - 1], &edges);
    let after = probe(&split);

    assert_eq!(before.len(), after.len(), "the terminal set did not change");
    for (index, &(a, b, r)) in before.iter().enumerate() {
        assert_eq!((a, b), (after[index].0, after[index].1));
        assert_close_relative("a pair", value(after[index].2), value(r), 1e-9);
    }
}

#[test]
fn effective_resistance_obeys_the_triangle_inequality() {
    for seed in [1u64, 2, 3, 4] {
        let networks = random_network(seed, 11, 6);
        let probes = probe(&networks);
        let terminals: Vec<u32> = networks.terminal.clone();
        for &a in &terminals {
            for &b in &terminals {
                for &c in &terminals {
                    if a == b || b == c || a == c {
                        continue;
                    }
                    let direct = probe_of(&probes, a, c);
                    let detour = probe_of(&probes, a, b) + probe_of(&probes, b, c);
                    assert!(
                        direct <= detour * (1.0 + 1e-9),
                        "seed {seed}: R({a},{c}) = {direct} exceeds \
                         R({a},{b}) + R({b},{c}) = {detour}"
                    );
                }
            }
        }
    }
}

#[test]
fn adding_a_conductance_never_raises_any_effective_resistance() {
    for seed in [11u64, 12, 13] {
        let base = random_network(seed, 10, 3);
        let before = probe(&base);
        let mut edges = edges_of(&base);
        edges.push((0, 9, 0.25));
        let strapped = one_row_network(10, &base.terminal.clone(), &edges);
        let after = probe(&strapped);
        for &(a, b, r) in &before {
            let improved = probe_of(&after, a, b);
            assert!(
                improved <= value(r) * (1.0 + 1e-9),
                "seed {seed}: adding a strap raised R({a},{b}) from {} to {improved}",
                value(r)
            );
        }
    }
}

#[test]
fn lowering_one_resistance_never_raises_any_effective_resistance() {
    let base = random_network(21, 8, 3);
    let before = probe(&base);
    let mut edges = edges_of(&base);
    edges[2].2 /= 10.0;
    let after = probe(&one_row_network(8, &base.terminal.clone(), &edges));
    for &(a, b, r) in &before {
        let improved = probe_of(&after, a, b);
        assert!(
            improved <= value(r) * (1.0 + 1e-9),
            "cutting an edge's resistance raised R({a},{b}) from {} to {improved}",
            value(r)
        );
    }
}

#[test]
fn every_terminal_pair_appears_once_ascending_with_a_positive_resistance() {
    let networks = random_network(31, 12, 7);
    let probes = probe(&networks);
    let terminals = networks.terminal.len();
    assert_eq!(
        probes.len(),
        terminals * (terminals - 1) / 2,
        "a connected network has one probe per unordered terminal pair"
    );
    for window in probes.windows(2) {
        assert!((window[0].0, window[0].1) < (window[1].0, window[1].1));
    }
    for &(a, b, r) in &probes {
        assert!(a < b, "a probe must name its terminals ascending, got ({a},{b})");
        assert!(value(r) > 0.0 && value(r).is_finite());
    }
}

#[test]
fn a_terminal_pair_in_another_component_is_absent_rather_than_infinite() {
    let networks = one_row_network(4, &[0, 1, 3], &[(0, 2, 5.0), (2, 1, 5.0)]);
    let probes = probe(&networks);
    assert_eq!(probes.len(), 1, "only one of the three pairs is connected");
    assert_eq!((probes[0].0, probes[0].1), (0, 1));
    assert_close_relative("the connected pair", value(probes[0].2), 10.0, 1e-9);
}

#[test]
fn probing_one_network_twice_produces_identical_output() {
    let networks = random_network(41, 14, 9);
    let first = probe(&networks);
    let second = probe(&networks);
    assert_eq!(first.len(), second.len());
    for (a, b) in first.iter().zip(&second) {
        assert_eq!((a.0, a.1), (b.0, b.1));
        assert_eq!(a.2.bits, b.2.bits);
    }
}

#[test]
fn probing_a_second_network_through_one_scratch_replaces_the_first_answer() {
    let first = one_row_network(2, &[0, 1], &[(0, 1, 100.0)]);
    let second = one_row_network(2, &[0, 1], &[(0, 1, 25.0)]);
    let mut out: Vec<Probe> = Vec::new();
    effective_resistance_into(&first, 0, &mut out).expect("positive");
    effective_resistance_into(&second, 0, &mut out).expect("positive");
    assert_eq!(out.len(), 1, "the second probe did not clear the first");
    assert!((value(out[0].2) - 25.0).abs() <= 1e-9);
}

#[test]
fn a_row_is_found_only_for_a_net_that_has_one() {
    let networks = one_row_network(3, &[0, 2], &[(0, 1, 10.0), (1, 2, 10.0)]);
    assert!(!networks.is_empty(), "one row is not no rows");
    assert_eq!(networks.len(), 1, "one row was built");
    assert_eq!(
        networks.row_of(NetId(0)),
        Some(0),
        "the net the row was built for resolves to it"
    );
    assert_eq!(networks.row_of(NetId(7)), None, "a net with no row is absent, not row 0");

    let none = NetNetworks::default();
    assert!(none.is_empty(), "a default network table holds no rows");
    assert_eq!(none.row_of(NetId(0)), None, "no row is found in an empty table");
}

#[test]
fn a_probe_refuses_an_edge_whose_resistance_is_not_positive() {
    for bad in [0.0, -1.0, f64::INFINITY, f64::NAN] {
        let networks = one_row_network(3, &[0, 2], &[(0, 1, 10.0), (1, 2, bad)]);
        let mut out: Vec<Probe> = Vec::new();
        assert_eq!(
            effective_resistance_into(&networks, 0, &mut out),
            Err(PowerError::BadResistance(1))
        );
        let probes = probe_rows(&networks);
        assert_eq!(probes.len(), 1);
        assert!(probes[0].is_none());
    }
}

#[test]
fn probing_every_row_probes_each_as_alone() {
    let networks = random_network(51, 9, 4);
    let probes = probe_rows(&networks);
    assert_eq!(probes.len(), 1);
    assert_eq!(probes[0], Some(probe(&networks)));
    assert!(probes[0].iter().flatten().all(|&(_, _, ohms)| ohms.is_grounded()));
}

/// The ring of a polygon, and the direction its chain runs in.
fn profile(xs: &[i64], ys: &[i64]) -> ChainProfile {
    let ring: Vec<Point> = xs.iter().zip(ys).map(|(&x, &y)| Point { x, y }).collect();
    let wide = xs.iter().max().expect("a ring") - xs.iter().min().expect("a ring");
    let tall = ys.iter().max().expect("a ring") - ys.iter().min().expect("a ring");
    ChainProfile::build(&ring, wide >= tall)
}

#[test]
fn a_rectangle_profiles_to_its_own_length_over_its_own_width() {
    let profile = profile(&[0, 400, 400, 0], &[0, 0, 10, 10]);
    assert_eq!(profile.width.len(), 1, "a rectangle spans one slab");
    let (squares, narrow) = profile.segment(0, 400);
    assert!(
        (value(squares) - 40.0).abs() < 1e-12,
        "400 by 10 is 40 squares, got {}",
        value(squares)
    );
    assert_eq!(narrow, 10, "the narrowest place in a rectangle is all of it");
}

#[test]
fn an_l_route_costs_the_squares_its_arms_have_and_not_its_bounding_box() {
    let profile = profile(&[0, 100, 100, 10, 10, 0], &[0, 0, 10, 10, 100, 100]);
    let (squares, narrow) = profile.segment(0, 100);
    let squares = value(squares);
    assert!((squares - 9.1).abs() < 1e-12, "the L integrates to 9.1 squares, got {squares}");
    assert_eq!(narrow, 10, "the arm is the narrowest place on the L");
    assert!(squares > 9.0 * (100.0 / 100.0));
}

#[test]
fn widening_a_shape_can_only_lower_the_squares_a_segment_costs() {
    let thin = profile(&[0, 100, 100, 10, 10, 0], &[0, 0, 10, 10, 100, 100]);
    let fat = profile(&[0, 100, 100, 10, 10, 0], &[0, 0, 20, 20, 100, 100]);
    for from in [0i64, 10, 40] {
        for to in [50i64, 80, 100] {
            let before = value(thin.segment(from, to).0);
            let after = value(fat.segment(from, to).0);
            assert!(after <= before, "widening {from}..{to} raised it from {before} to {after}");
        }
    }
}

/// A grid of nodes on one net and layer, with edges of the given resistances.
fn grid_of(
    nodes: u32,
    sources: &[(u32, f64)],
    loads: &[(u32, f64)],
    edges: &[(u32, u32, f64)],
) -> PowerGrid {
    let mut load = vec![num(0.0); nodes as usize];
    for &(n, ua) in loads {
        load[n as usize] = num(ua);
    }
    PowerGrid {
        node_net: vec![NetId(0); nodes as usize],
        node_at: (0..nodes).map(|n| Point { x: 1_000 * i64::from(n), y: 0 }).collect(),
        node_poly: vec![PolyId(0); nodes as usize],
        node_layer: vec![LayerId(0); nodes as usize],
        node_nominal: vec![num(1_800.0); nodes as usize],
        node_load: load,
        source_node: sources.iter().map(|s| s.0).collect(),
        source_voltage: sources.iter().map(|s| num(s.1)).collect(),
        edge_from: edges.iter().map(|e| e.0).collect(),
        edge_to: edges.iter().map(|e| e.1).collect(),
        edge_resistance: edges.iter().map(|e| num(e.2)).collect(),
        edge_width: vec![100; edges.len()],
        edge_length: vec![1_000; edges.len()],
        edge_layer: vec![LayerId(0); edges.len()],
        edge_kind: vec![EdgeKind::Metal; edges.len()],
    }
}

fn no_solution() -> PowerSolution {
    PowerSolution {
        node_voltage: Vec::new(),
        node_drop: Vec::new(),
        branch_current: Vec::new(),
        iterations: 0,
        relative_residual: num(0.0),
    }
}

/// Four resistors in a row, held at one end and loaded at the other.
fn series_chain() -> PowerGrid {
    grid_of(
        5,
        &[(0, 1_800.0)],
        &[(4, 1_000.0)],
        &[(0, 1, 2.5), (1, 2, 2.5), (2, 3, 2.5), (3, 4, 2.5)],
    )
}

#[test]
fn an_incomplete_factor_reproduces_the_matrix_wherever_the_matrix_is_nonzero() {
    const N: usize = 4;
    // A cycle of four unknowns with one pad: eliminating node 0 couples 1 and 3.
    let grid = grid_of(
        5,
        &[(4, 1_800.0)],
        &[],
        &[
            (0, 1, 1.0 / 2.0),
            (1, 2, 1.0 / 4.0),
            (2, 3, 1.0 / 8.0),
            (3, 0, 1.0 / 16.0),
            (0, 4, 1.0 / 32.0),
        ],
    );
    let system = assemble(&grid);
    let factor = factorise(&system).expect("an M-matrix factorises");

    let mut a = [[0.0f64; N]; N];
    for i in 0..N {
        a[i][i] = value(system.diag[i]);
        for &(j, v) in &system.off[i] {
            a[i][j as usize] += value(v);
        }
    }
    let mut l = [[0.0f64; N]; N];
    for i in 0..N {
        l[i][i] = value(factor.pivot[i]);
        for &(j, v) in &factor.rows[i] {
            l[i][j as usize] = value(v);
        }
    }
    let mut holes = 0;
    for i in 0..N {
        for j in 0..N {
            let mut llt = 0.0;
            for k in 0..N {
                llt += l[i][k] * l[j][k];
            }
            if a[i][j] == 0.0 {
                holes += usize::from(llt.abs() > 1e-9);
                continue;
            }
            assert!(
                (llt - a[i][j]).abs() < 1e-9 * a[i][j].abs(),
                "L Lt disagrees with A at ({i},{j}): {llt} against {}",
                a[i][j]
            );
        }
    }
    assert!(holes > 0, "a cycle drops fill outside its own pattern");
}

fn brute_force(at: &[Point], marker: Point) -> u32 {
    let mut best = (i128::MAX, u32::MAX);
    for (index, here) in at.iter().enumerate() {
        let (dx, dy) = (i128::from(here.x - marker.x), i128::from(here.y - marker.y));
        best = best.min((dx * dx + dy * dy, index as u32));
    }
    best.1
}

#[test]
fn the_ring_search_agrees_with_an_exhaustive_scan() {
    let mut state = 0x2545_F491_4F6C_DD1Du64;
    let mut next = move || {
        state ^= state << 13;
        state ^= state >> 7;
        state ^= state << 17;
        state
    };
    let mut draw = |span: i64| -> i64 { (next() % span as u64) as i64 };
    for taps in [1usize, 2, 3, 7, 40, 200] {
        for &(span_x, span_y) in &[(1i64, 1i64), (1, 5000), (5000, 1), (900, 900)] {
            let at: Vec<Point> = (0..taps)
                .map(|_| Point { x: draw(span_x) - span_x / 2, y: draw(span_y) - span_y / 2 })
                .collect();
            let index = SegGrid::build(at.iter().map(|&p| Seg { a: p, b: p }).collect());
            for _ in 0..64 {
                // Three times the extent, so most queries land outside it.
                let marker = Point {
                    x: draw(3 * span_x) - 3 * span_x / 2,
                    y: draw(3 * span_y) - 3 * span_y / 2,
                };
                assert_eq!(
                    index.nearest(marker),
                    brute_force(&at, marker),
                    "{taps} taps over {span_x}x{span_y}, marker {marker:?}"
                );
            }
        }
    }
}

/// Ten ohms carrying a milliamp drop ten millivolts, a quarter of it per edge.
#[test]
fn a_series_chain_drops_its_current_times_its_resistance() {
    let grid = series_chain();
    let mut out = no_solution();
    assert_eq!(solve_into(&grid, SolveConfig::default(), &mut out), Ok(()));
    assert_eq!(out.node_voltage[0], num(1_800.0), "a pad is held exactly");
    for n in 0..5usize {
        assert!((value(out.node_drop[n]) - 2.5 * n as f64).abs() < 1e-6);
        assert!((value(out.node_voltage[n]) - (1_800.0 - 2.5 * n as f64)).abs() < 1e-6);
    }
    for e in 0..4usize {
        assert_close_relative("a branch", value(out.branch_current[e]), 1_000.0, 1e-6);
    }
    assert!(out.is_consistent_with(&grid));
    assert!(out.iterations <= 5);
    assert!(value(out.relative_residual) <= value(SolveConfig::default().relative_tolerance));
}

#[test]
fn a_grid_with_no_pad_is_refused() {
    let grid = grid_of(2, &[], &[(1, 10.0)], &[(0, 1, 1.0)]);
    let mut out = no_solution();
    assert_eq!(
        solve_into(&grid, SolveConfig::default(), &mut out),
        Err(PowerError::Unanchored)
    );
}

#[test]
fn a_part_no_pad_reaches_is_refused() {
    let grid = grid_of(4, &[(0, 1_800.0)], &[], &[(0, 1, 1.0), (2, 3, 1.0)]);
    let mut out = no_solution();
    assert_eq!(
        solve_into(&grid, SolveConfig::default(), &mut out),
        Err(PowerError::UnanchoredIsland(2))
    );
}

#[test]
fn an_edge_without_a_positive_resistance_is_refused() {
    for bad in [0.0, -2.5, f64::NAN, f64::INFINITY] {
        let grid = grid_of(3, &[(0, 1_800.0)], &[], &[(0, 1, 1.0), (1, 2, bad)]);
        let mut out = no_solution();
        assert_eq!(
            solve_into(&grid, SolveConfig::default(), &mut out),
            Err(PowerError::BadResistance(1))
        );
    }
}

#[test]
fn a_load_that_is_no_number_is_refused() {
    let grid = grid_of(3, &[(0, 1_800.0)], &[(2, f64::NAN)], &[(0, 1, 1.0), (1, 2, 1.0)]);
    let mut out = no_solution();
    assert_eq!(
        solve_into(&grid, SolveConfig::default(), &mut out),
        Err(PowerError::NotFinite(2))
    );
}

#[test]
fn a_solve_out_of_iterations_is_no_answer() {
    let grid = grid_of(
        4,
        &[(0, 1_800.0)],
        &[(1, 100.0), (2, 700.0), (3, 40.0)],
        &[(0, 1, 1.0), (1, 2, 3.0), (2, 3, 7.0), (3, 0, 2.0), (0, 2, 5.0)],
    );
    let config = SolveConfig { max_iterations: 0, ..SolveConfig::default() };
    let mut out = no_solution();
    assert_eq!(solve_into(&grid, config, &mut out), Err(PowerError::NotConverged(0)));
    assert_eq!(solve_into(&grid, SolveConfig::default(), &mut out), Ok(()));
}

/// One bar on layer zero with a device marked near each end, all on net zero.
fn bar() -> (GeometryStore, NetTable, DeviceTable) {
    let mut store = GeometryStore {
        layer_start: vec![0, 1, 3],
        layer: vec![LayerId(0), LayerId(1), LayerId(1)],
        bbox: Vec::new(),
        vert_start: vec![0],
        xs: Vec::new(),
        ys: Vec::new(),
    };
    for (x, y, w, h) in [(0i64, 0i64, 400i64, 10i64), (10, 0, 10, 10), (380, 0, 10, 10)] {
        store.bbox.push(Bbox { xlo: x, ylo: y, xhi: x + w, yhi: y + h });
        for (px, py) in [(x, y), (x + w, y), (x + w, y + h), (x, y + h)] {
            store.xs.push(px);
            store.ys.push(py);
        }
        store.vert_start.push(store.xs.len() as u32);
    }
    let nets = NetTable {
        net_of: vec![NetId(0), NetId(NO_NET), NetId(NO_NET)],
        poly_start: vec![0, 1],
        poly: vec![PolyId(0)],
    };
    let devices = DeviceTable {
        terminal_start: vec![0, 1, 2],
        terminal_net: vec![NetId(0), NetId(0)],
        terminal_role: vec![TerminalRole::Pin(0), TerminalRole::Pin(0)],
        model: vec![StrId(0), StrId(0)],
        marker: vec![PolyId(1), PolyId(2)],
    };
    (store, nets, devices)
}

fn one_conductor() -> (Connectivity, Contacts) {
    (
        Connectivity {
            conductors: vec![LayerId(0)],
            intra_layer_touch: false,
            via_cut: Vec::new(),
        },
        Contacts { touch: vec![Vec::new()], cut: Vec::new() },
    )
}

/// The markers stand 370 units apart on a bar ten wide: 37 squares at 0.1 ohm.
#[test]
fn a_bar_between_two_devices_measures_its_squares() {
    let (store, nets, devices) = bar();
    let (connectivity, contacts) = one_conductor();
    let sheet = vec![num(0.1), num(0.0)];
    let height = vec![num(0.0), num(0.0)];
    let process = Process {
        grid: Grid { dbu_per_um: 1_000 },
        sheet_res_ohm_sq: &sheet,
        height_nm: &height,
        connectivity: &connectivity,
    };
    let mut networks = NetNetworks::default();
    assert_eq!(
        extract_nets_into(&store, &nets, &devices, process, &contacts, &mut networks),
        Ok(())
    );
    assert_eq!(networks.len(), 1);
    assert_eq!(networks.row_of(NetId(0)), Some(0));
    let probes = probe(&networks);
    assert_eq!(probes.len(), 1);
    assert_close_relative("the bar", value(probes[0].2), 3.7, 1e-9);

    let derived = gpurify_erc::design::Derived {
        name: Vec::new(),
        shapes: Vec::new(),
        validated: vec![None, None],
        merged: vec![None, None],
    };
    let design = Design { store: &store, derived: &derived, nets: &nets, devices: &devices };
    for (limit, found) in [(3.0, 1u32), (4.0, 0)] {
        let table = P2pResistanceTable {
            head: RuleHead {
                rule: vec![StrId(3)],
                severity: vec![gpurify_erc::report::Severity::Error],
            },
            max_resistance: vec![num(limit)],
        };
        let mut out = Violations::default();
        let mut runs: Vec<RuleRun> = Vec::new();
        check_p2p_resistance(design, &networks, &table, &mut out, &mut runs);
        assert_eq!(runs.len(), 1);
        assert_eq!(runs[0].outcome, Outcome::Ran);
        assert_eq!(runs[0].violations, found);
        assert_eq!(out.len(), found as usize);
    }
}

#[test]
fn a_layer_that_carries_current_needs_a_sheet_resistance() {
    let (store, nets, devices) = bar();
    let (connectivity, contacts) = one_conductor();
    let sheet = vec![num(0.0), num(0.0)];
    let height = vec![num(0.0), num(0.0)];
    let process = Process {
        grid: Grid { dbu_per_um: 1_000 },
        sheet_res_ohm_sq: &sheet,
        height_nm: &height,
        connectivity: &connectivity,
    };
    let mut networks = NetNetworks::default();
    assert_eq!(
        extract_nets_into(&store, &nets, &devices, process, &contacts, &mut networks),
        Err(PowerError::NoSheetResistance(LayerId(0)))
    );
    let mut grid = PowerGrid::default();
    assert_eq!(
        extract_into(&store, &nets, &devices, &supply(), process, &contacts, &mut grid),
        Err(PowerError::NoSheetResistance(LayerId(0)))
    );
    assert!(grid.is_empty());
}

/// Net zero is a 1.8 V supply with a milliamp to spend.
fn supply() -> IntentMap {
    IntentMap {
        declared: true,
        supply_net: vec![NetId(0)],
        supply_domain: vec![DomainId(0)],
        supply_role: vec![SupplyRole::Power],
        supply_voltage: vec![num(1_800.0)],
        limit_net: vec![NetId(0)],
        limit: vec![NetLimits { budget_current_ua: Some(num(1_000.0)), ..NetLimits::default() }],
        undeclared: Vec::new(),
    }
}

/// Held in the middle, the bar feeds half the budget through 18.5 squares to
/// each end.
#[test]
fn a_supply_bar_spreads_its_budget_over_its_devices() {
    let (store, nets, devices) = bar();
    let (connectivity, contacts) = one_conductor();
    let sheet = vec![num(0.1), num(0.0)];
    let height = vec![num(0.0), num(0.0)];
    let process = Process {
        grid: Grid { dbu_per_um: 1_000 },
        sheet_res_ohm_sq: &sheet,
        height_nm: &height,
        connectivity: &connectivity,
    };
    let mut grid = PowerGrid::default();
    let intent = supply();
    assert_eq!(
        extract_into(&store, &nets, &devices, &intent, process, &contacts, &mut grid),
        Ok(())
    );
    assert_eq!(grid.node_count(), 3);
    assert_eq!(grid.edge_count(), 2);
    assert_eq!(grid.source_node, vec![1]);
    assert_eq!(grid.fixed_voltage(1), Some(num(1_800.0)));
    assert_eq!(grid.fixed_voltage(0), None);
    assert_eq!(grid.node_load[0], num(500.0));
    assert_eq!(grid.node_load[2], num(500.0));
    assert!(!discarded_budget(&grid, &intent));

    let mut solution = no_solution();
    assert_eq!(solve_into(&grid, SolveConfig::default(), &mut solution), Ok(()));
    assert_eq!(solution.node_voltage[1], num(1_800.0));
    for n in [0usize, 2] {
        assert_close_relative("an end", value(solution.node_drop[n]), 0.925, 1e-6);
    }
    grid.node_load = vec![num(0.0); 3];
    assert!(discarded_budget(&grid, &intent));
}

#[test]
fn a_layout_with_no_declared_rail_has_no_supply_grid() {
    let (store, nets, devices) = bar();
    let (connectivity, contacts) = one_conductor();
    let sheet = vec![num(0.1), num(0.0)];
    let height = vec![num(0.0), num(0.0)];
    let process = Process {
        grid: Grid { dbu_per_um: 1_000 },
        sheet_res_ohm_sq: &sheet,
        height_nm: &height,
        connectivity: &connectivity,
    };
    let mut grid = grid_of(2, &[(0, 1.0)], &[], &[(0, 1, 1.0)]);
    assert_eq!(
        extract_into(&store, &nets, &devices, &IntentMap::default(), process, &contacts, &mut grid),
        Ok(())
    );
    assert!(grid.is_empty());
    assert_eq!(grid.edge_count(), 0);
}

#[test]
fn a_rail_no_device_is_on_carries_no_load() {
    let (store, nets, mut devices) = bar();
    devices.terminal_net = vec![NetId(NO_NET), NetId(NO_NET)];
    let (connectivity, contacts) = one_conductor();
    let sheet = vec![num(0.1), num(0.0)];
    let height = vec![num(0.0), num(0.0)];
    let process = Process {
        grid: Grid { dbu_per_um: 1_000 },
        sheet_res_ohm_sq: &sheet,
        height_nm: &height,
        connectivity: &connectivity,
    };
    let mut grid = PowerGrid::default();
    let intent = supply();
    assert_eq!(
        extract_into(&store, &nets, &devices, &intent, process, &contacts, &mut grid),
        Ok(())
    );
    assert_eq!(grid.node_count(), 1);
    assert_eq!(grid.node_load, vec![num(0.0)]);
    assert!(discarded_budget(&grid, &intent));
}
