//! Rules over a solved resistive network.
//!
//! Point-to-point resistance needs no design intent and always runs. The other
//! three read the solved supply grid; with no intent there is no grid, and they
//! record themselves skipped rather than clean.
use crate::design::Design;
use crate::intent::IntentMap;
use crate::model::{LayerId, StrId};
use crate::number::{Number, ONE};
use crate::power::sounding::{probe_rows, sounds};
use crate::power::network::{
    any_budget_lost, discarded_budget, EdgeKind, Grid, NetNetworks, PowerGrid, Solved,
};
use crate::report::{
    all_ended, all_found, all_runs, ended, lemma_all_ended, lemma_next_row, record_run,
    refuse_rows, skip_rows, LimitSense, Measurement, Outcome, RowResult, RuleRun, Severity,
    SkipReason, Violation, Violations,
};
use crate::ruleset::RuleHead;
use crate::store::is_csr;
use vstd::prelude::*;

verus! {

/// Boltzmann's constant in electronvolts per kelvin, 8.617333262e-5.
pub const BOLTZMANN_EV_PER_K: u64 = 0x3F16_96FE_94E1_2D2C;

/// Microamps per amp.
pub const MICRO: u64 = 0x412E_8480_0000_0000;

/// Effective resistance between the device attach points of a net.
pub struct P2pResistanceTable {
    pub head: RuleHead,
    /// Worst permitted effective resistance between two attach points, in ohms.
    pub max_resistance: Vec<Number>,
}

/// Voltage a node sits at, against what the design allows. The limits are the
/// design owner's, so there is no column for them.
pub struct IrDropTable {
    pub head: RuleHead,
}

/// Current per unit conductor width, against a per-layer limit.
pub struct EmCurrentDensityTable {
    pub head: RuleHead,
    /// `layer[layer_start[i] .. layer_start[i + 1]]` and the columns parallel to
    /// it are row `i`'s per-layer limits.
    pub layer_start: Vec<u32>,
    pub layer: Vec<LayerId>,
    /// Amps per metre.
    pub max_density: Vec<Number>,
    /// Microamps per cut.
    pub max_current_per_cut: Vec<Number>,
}

/// Lifetime under sustained current, with temperature derating.
pub struct ElectromigrationTable {
    pub head: RuleHead,
    /// Per-layer limits, as in [`EmCurrentDensityTable`].
    pub layer_start: Vec<u32>,
    pub layer: Vec<LayerId>,
    pub max_density: Vec<Number>,
    pub max_current_per_cut: Vec<Number>,
    /// The Blech product of each limited layer, in microamps; a segment at or
    /// below it is immortal.
    pub blech_limit: Vec<Number>,
    /// Kelvin.
    pub reference_temperature: Vec<Number>,
    pub activation_energy_ev: Vec<Number>,
    pub current_exponent: Vec<Number>,
}

impl P2pResistanceTable {
    pub open spec fn wf(&self) -> bool {
        self.head.wf() && self.max_resistance@.len() == self.head.rows()
    }
}

/// Whether a probe table covers every network row and names nodes it has.
pub open spec fn probes_fit(
    networks: &NetNetworks,
    probes: Seq<Option<Vec<(u32, u32, Number)>>>,
) -> bool {
    &&& probes.len() == networks.rows()
    &&& forall|r: int, k: int|
        0 <= r < probes.len() && probes[r] is Some && 0 <= k < (probes[r]->0)@.len() ==> (
        #[trigger] (probes[r]->0)@[k]).0 < networks.node_len(r) && ((probes[r]->0)@[k]).1
            < networks.node_len(r)
}

/// The largest of the first `n` probes, the earliest of equal ones.
pub open spec fn worst_probe(probes: Seq<(u32, u32, Number)>, n: nat) -> (u32, u32, Number)
    decreases n,
{
    if n <= 1 {
        probes[0]
    } else {
        let before = worst_probe(probes, (n - 1) as nat);
        if before.2.lt(probes[n - 1].2) { probes[n - 1] } else { before }
    }
}

/// What one network row reports.
pub open spec fn p2p_net(
    design: Design,
    networks: &NetNetworks,
    probes: Seq<(u32, u32, Number)>,
    r: int,
    rule: StrId,
    severity: Severity,
    limit: Measurement,
) -> Seq<Violation> {
    let worst = worst_probe(probes, probes.len());
    let measured = Measurement::Resistance(worst.2);
    if probes.len() > 0 && measured.breaks(limit, LimitSense::Maximum) {
        let a = worst.0 as int;
        let b = worst.1 as int;
        seq![
            Violation {
                rule,
                layer: design.store.layer@[networks.shapes(r)[a].0 as int],
                severity,
                at: networks.points(r)[a],
                measured,
                limit,
                shapes: (networks.shapes(r)[a], Some(networks.shapes(r)[b])),
            },
        ]
    } else {
        Seq::empty()
    }
}

/// How many of the first `n` networks were probed before one failed.
pub open spec fn probed(probes: Seq<Option<Vec<(u32, u32, Number)>>>, n: nat) -> nat
    decreases n,
{
    if n == 0 {
        0
    } else {
        let before = probed(probes, (n - 1) as nat);
        if before == n - 1 && probes[n - 1] is Some { n } else { before }
    }
}

/// What the first `n` networks report.
pub open spec fn p2p_found(
    design: Design,
    networks: &NetNetworks,
    probes: Seq<Option<Vec<(u32, u32, Number)>>>,
    n: nat,
    rule: StrId,
    severity: Severity,
    limit: Measurement,
) -> Seq<Violation>
    decreases n,
{
    if n == 0 {
        Seq::empty()
    } else {
        let r = n - 1;
        p2p_found(design, networks, probes, r as nat, rule, severity, limit) + p2p_net(
            design,
            networks,
            (probes[r]->0)@,
            r,
            rule,
            severity,
            limit,
        )
    }
}

pub open spec fn p2p_results(
    design: Design,
    networks: &NetNetworks,
    probes: Seq<Option<Vec<(u32, u32, Number)>>>,
    table: &P2pResistanceTable,
) -> Seq<RowResult> {
    let reach = probed(probes, probes.len());
    Seq::new(
        table.head.rule@.len(),
        |row: int|
            RowResult {
                outcome: if reach == probes.len() { Outcome::Ran } else { Outcome::Refused },
                examined: reach as u64,
                found: p2p_found(
                    design,
                    networks,
                    probes,
                    reach,
                    table.head.rule@[row],
                    table.head.severity@[row],
                    Measurement::Resistance(table.max_resistance@[row]),
                ),
            },
    )
}

proof fn lemma_probed(probes: Seq<Option<Vec<(u32, u32, Number)>>>, m: nat, n: nat)
    requires
        m <= n <= probes.len(),
    ensures
        probed(probes, n) <= n,
        probed(probes, m) < m ==> probed(probes, n) == probed(probes, m),
    decreases n,
{
    if n > 0 {
        if m < n {
            lemma_probed(probes, m, (n - 1) as nat);
        } else {
            lemma_probed(probes, (n - 1) as nat, (n - 1) as nat);
        }
    }
}

/// The largest probe of one network, the earliest of equal ones.
fn find_worst(probes: &Vec<(u32, u32, Number)>) -> (r: (u32, u32, Number))
    requires
        probes@.len() > 0,
    ensures
        r == worst_probe(probes@, probes@.len()),
        exists|k: int| 0 <= k < probes@.len() && r == #[trigger] probes@[k],
{
    let mut worst = probes[0];
    let mut k: usize = 1;
    let ghost mut at: int = 0;
    while k < probes.len()
        invariant
            1 <= k <= probes@.len(),
            worst == worst_probe(probes@, k as nat),
            0 <= at < k,
            worst == probes@[at],
        decreases probes@.len() - k,
    {
        let probe = probes[k];
        if worst.2.less(probe.2) {
            worst = probe;
            proof {
                at = k as int;
            }
        }
        k = k + 1;
    }
    assert(worst == probes@[at]);
    worst
}

/// Worst-pair effective resistance, per net.
///
/// Every network is probed. A net with fewer than two attach points has no network
/// and is not examined.
pub fn check_p2p_resistance(
    design: Design,
    networks: &NetNetworks,
    table: &P2pResistanceTable,
    out: &mut Violations,
    runs: &mut Vec<RuleRun>,
)
    requires
        design.wf(),
        networks.wf(),
        networks.taps_in(design.store.polys()),
        table.wf(),
    ensures
        exists|probes: Seq<Option<Vec<(u32, u32, Number)>>>| #[trigger]
            sounds(networks, probes) && final(out)@ == old(out)@ + all_found(
                p2p_results(design, networks, probes, table),
            ) && final(runs)@ == old(runs)@ + all_runs(
                table.head.rule@,
                p2p_results(design, networks, probes, table),
            ),
{
    let probes = probe_rows(networks);
    check_p2p_probes(design, networks, &probes, table, out, runs);
}

/// Worst-pair effective resistance, per net, over given probes.
///
/// `probes` holds one probe list per network row, or `None` where the network
/// could not be probed: the row is refused from there on, because a network
/// that was not measured is not one within its limit. A net with fewer than two
/// attach points has no network and is not examined.
pub fn check_p2p_probes(
    design: Design,
    networks: &NetNetworks,
    probes: &Vec<Option<Vec<(u32, u32, Number)>>>,
    table: &P2pResistanceTable,
    out: &mut Violations,
    runs: &mut Vec<RuleRun>,
)
    requires
        design.wf(),
        networks.wf(),
        networks.taps_in(design.store.polys()),
        probes_fit(networks, probes@),
        table.wf(),
    ensures
        final(out)@ == old(out)@ + all_found(p2p_results(design, networks, probes@, table)),
        final(runs)@ == old(runs)@ + all_runs(
            table.head.rule@,
            p2p_results(design, networks, probes@, table),
        ),
{
    let ghost results = p2p_results(design, networks, probes@, table);
    let ghost first = out@;
    let ghost begun = runs@;
    let rows: usize = table.head.len();
    let nets: usize = networks.len();
    let mut row: usize = 0;
    assert(out@ =~= first + all_found(results.take(0)));
    assert(runs@ =~= begun + all_runs(table.head.rule@, results.take(0)));
    while row < rows
        invariant
            design.wf(),
            networks.wf(),
            networks.taps_in(design.store.polys()),
            probes_fit(networks, probes@),
            table.wf(),
            rows == table.head.rows(),
            nets == networks.rows(),
            row <= rows,
            results == p2p_results(design, networks, probes@, table),
            out@ == first + all_found(results.take(row as int)),
            runs@ == begun + all_runs(table.head.rule@, results.take(row as int)),
        decreases rows - row,
    {
        let before: usize = out.len();
        let ghost start = out@;
        let rule = table.head.rule[row];
        let severity = table.head.severity[row];
        let limit = Measurement::Resistance(table.max_resistance[row]);
        let mut examined: u64 = 0;
        let mut outcome = Outcome::Ran;
        let mut net: u32 = 0;
        assert(out@ =~= start + p2p_found(
            design,
            networks,
            probes@,
            0,
            rule,
            severity,
            limit,
        ));
        while (net as usize) < nets && outcome == Outcome::Ran
            invariant
                design.wf(),
                networks.wf(),
                networks.taps_in(design.store.polys()),
                probes_fit(networks, probes@),
                nets == networks.rows(),
                net <= nets,
                examined == net,
                outcome == Outcome::Ran || outcome == Outcome::Refused,
                outcome == Outcome::Ran ==> probed(probes@, net as nat) == net,
                outcome == Outcome::Refused ==> net < nets && probed(probes@, probes@.len())
                    == net,
                out@ == start + p2p_found(
                    design,
                    networks,
                    probes@,
                    net as nat,
                    rule,
                    severity,
                    limit,
                ),
            decreases
                nets - net,
                (if outcome == Outcome::Ran {
                    1int
                } else {
                    0
                }),
        {
            match &probes[net as usize] {
                None => {
                    outcome = Outcome::Refused;
                    proof {
                        lemma_probed(probes@, (net + 1) as nat, probes@.len());
                    }
                },
                Some(list) => {
                    let ghost here = out@;
                    if list.len() > 0 {
                        let worst = find_worst(list);
                        let measured = Measurement::Resistance(worst.2);
                        if measured.violates(limit, LimitSense::Maximum) {
                            let (points, polys) = networks.nodes_of(net);
                            assert(points@ == networks.points(net as int));
                            let a: usize = worst.0 as usize;
                            let b: usize = worst.1 as usize;
                            let poly = polys[a];
                            assert(poly == networks.node_poly@[networks.node_lo(net as int)
                                + a as int]);
                            out.push(
                                Violation {
                                    rule,
                                    layer: design.store.poly_layer(poly),
                                    severity,
                                    at: points[a],
                                    measured,
                                    limit,
                                    shapes: (poly, Some(polys[b])),
                                },
                            );
                        }
                    }
                    assert(out@ =~= here + p2p_net(
                        design,
                        networks,
                        list@,
                        net as int,
                        rule,
                        severity,
                        limit,
                    ));
                    net = net + 1;
                    examined = examined + 1;
                    assert(out@ =~= start + p2p_found(
                        design,
                        networks,
                        probes@,
                        net as nat,
                        rule,
                        severity,
                        limit,
                    ));
                },
            }
        }
        record_run(runs, out, before, rule, outcome, examined);
        proof {
            lemma_next_row(table.head.rule@, results, row as int);
            assert(out@ =~= first + all_found(results.take(row + 1)));
            assert(runs@ =~= begun + all_runs(table.head.rule@, results.take(row + 1)));
        }
        row = row + 1;
    }
    assert(results.take(rows as int) =~= results);
}

/// What one node's voltage reports against one limit.
pub open spec fn node_found(
    grid: &PowerGrid,
    node: int,
    rule: StrId,
    severity: Severity,
    measured: Number,
    limit: Number,
) -> Seq<Violation> {
    let measured = Measurement::Voltage(measured);
    let limit = Measurement::Voltage(limit);
    if measured.breaks(limit, LimitSense::Maximum) {
        seq![
            Violation {
                rule,
                layer: grid.node_layer@[node],
                severity,
                at: grid.node_at@[node],
                measured,
                limit,
                shapes: (grid.node_poly@[node], None),
            },
        ]
    } else {
        Seq::empty()
    }
}

/// Report one node's voltage where it is over a limit.
fn report_node(
    out: &mut Violations,
    grid: &PowerGrid,
    node: usize,
    rule: StrId,
    severity: Severity,
    measured: Number,
    limit: Number,
)
    requires
        grid.wf(),
        node < grid.nodes(),
    ensures
        final(out)@ == old(out)@ + node_found(grid, node as int, rule, severity, measured, limit),
{
    let over = Measurement::Voltage(measured);
    let cap = Measurement::Voltage(limit);
    if over.violates(cap, LimitSense::Maximum) {
        out.push(
            Violation {
                rule,
                layer: grid.node_layer[node],
                severity,
                at: grid.node_at[node],
                measured: over,
                limit: cap,
                shapes: (grid.node_poly[node], None),
            },
        );
    }
    assert(out@ =~= old(out)@ + node_found(grid, node as int, rule, severity, measured, limit));
}

/// Whether a node's net states a voltage limit.
pub open spec fn node_stated(solved: Solved, intent: &IntentMap, node: int) -> bool {
    let limits = intent.limits_spec(solved.grid.node_net@[node]);
    limits.max_drop is Some || limits.max_drop_fraction is Some || limits.max_overvoltage is Some
}

/// What one node reports: its drop, its drop as a fraction of nominal, then its
/// overvoltage, each against a limit only where its net states one.
pub open spec fn drop_found(
    solved: Solved,
    intent: &IntentMap,
    node: int,
    rule: StrId,
    severity: Severity,
) -> Seq<Violation> {
    let limits = intent.limits_spec(solved.grid.node_net@[node]);
    let drop = solved.solution.node_drop@[node];
    let nominal = solved.grid.node_nominal@[node].magnitude_spec();
    let absolute = match limits.max_drop {
        Some(limit) => node_found(solved.grid, node, rule, severity, drop, limit),
        None => Seq::empty(),
    };
    let relative = match limits.max_drop_fraction {
        Some(fraction) => node_found(
            solved.grid,
            node,
            rule,
            severity,
            drop,
            nominal.times_spec(fraction),
        ),
        None => Seq::empty(),
    };
    let over = match limits.max_overvoltage {
        Some(limit) => node_found(solved.grid, node, rule, severity, drop.negated_spec(), limit),
        None => Seq::empty(),
    };
    absolute + relative + over
}

/// What the first `n` nodes report.
pub open spec fn drops_found(
    solved: Solved,
    intent: &IntentMap,
    n: nat,
    rule: StrId,
    severity: Severity,
) -> Seq<Violation>
    decreases n,
{
    if n == 0 {
        Seq::empty()
    } else {
        drops_found(solved, intent, (n - 1) as nat, rule, severity) + drop_found(
            solved,
            intent,
            n - 1,
            rule,
            severity,
        )
    }
}

/// How many of the first `n` nodes are on a net stating a voltage limit.
pub open spec fn stated_to(solved: Solved, intent: &IntentMap, n: nat) -> nat
    decreases n,
{
    if n == 0 {
        0
    } else {
        stated_to(solved, intent, (n - 1) as nat) + if node_stated(solved, intent, n - 1) {
            1nat
        } else {
            0
        }
    }
}

/// Why a rule that reads a solve does not run: there is no solve or no usable
/// intent, or a stated budget never reached the solve.
pub open spec fn held_back(power: Option<Solved>, intent: &IntentMap) -> Option<Outcome> {
    if power is None || !intent.usable() {
        Some(Outcome::Skipped(SkipReason::NoDesignIntent))
    } else if any_budget_lost(power->0.grid, intent) {
        Some(Outcome::Refused)
    } else {
        None
    }
}

pub open spec fn ir_drop_results(
    power: Option<Solved>,
    intent: &IntentMap,
    table: &IrDropTable,
) -> Seq<RowResult> {
    match held_back(power, intent) {
        Some(outcome) => all_ended(table.head.rule@.len(), outcome),
        None => {
            let solved = power->0;
            let n = solved.grid.nodes() as nat;
            Seq::new(
                table.head.rule@.len(),
                |row: int|
                    RowResult {
                        outcome: Outcome::Ran,
                        examined: stated_to(solved, intent, n) as u64,
                        found: drops_found(
                            solved,
                            intent,
                            n,
                            table.head.rule@[row],
                            table.head.severity@[row],
                        ),
                    },
            )
        },
    }
}

/// Close every row of a rule that is held back.
fn hold_back(
    power: Option<Solved>,
    intent: &IntentMap,
    head: &RuleHead,
    out: &Violations,
    runs: &mut Vec<RuleRun>,
) -> (held: bool)
    requires
        intent.wf(),
        power is Some ==> power->0.wf(),
    ensures
        held == (held_back(power, intent) is Some),
        held ==> final(runs)@ == old(runs)@ + all_runs(
            head.rule@,
            all_ended(head.rule@.len(), held_back(power, intent)->0),
        ),
        !held ==> final(runs)@ == old(runs)@,
{
    match power {
        None => {
            skip_rows(head, out, runs);
            true
        },
        Some(solved) => {
            if !intent.is_usable() {
                skip_rows(head, out, runs);
                true
            } else if discarded_budget(solved.grid, intent) {
                refuse_rows(head, out, runs);
                true
            } else {
                false
            }
        },
    }
}

/// Report one node against every limit its net states, and say whether it
/// states one.
fn report_drops(
    solved: Solved,
    intent: &IntentMap,
    node: usize,
    rule: StrId,
    severity: Severity,
    out: &mut Violations,
) -> (stated: bool)
    requires
        solved.wf(),
        intent.wf(),
        node < solved.grid.nodes(),
    ensures
        stated == node_stated(solved, intent, node as int),
        final(out)@ == old(out)@ + drop_found(solved, intent, node as int, rule, severity),
{
    let limits = intent.limits_of(solved.grid.node_net[node]);
    let drop = solved.solution.node_drop[node];
    let nominal = solved.grid.node_nominal[node].absolute();
    let ghost first = out@;
    let ghost g = solved.grid;
    let ghost n = node as int;
    if let Some(limit) = limits.max_drop {
        report_node(out, solved.grid, node, rule, severity, drop, limit);
    }
    let ghost absolute = match limits.max_drop {
        Some(limit) => node_found(g, n, rule, severity, drop, limit),
        None => Seq::empty(),
    };
    assert(out@ =~= first + absolute);
    if let Some(fraction) = limits.max_drop_fraction {
        report_node(out, solved.grid, node, rule, severity, drop, nominal.times(fraction));
    }
    let ghost relative = match limits.max_drop_fraction {
        Some(fraction) => node_found(g, n, rule, severity, drop, nominal.times_spec(fraction)),
        None => Seq::empty(),
    };
    assert(out@ =~= first + (absolute + relative));
    if let Some(limit) = limits.max_overvoltage {
        report_node(out, solved.grid, node, rule, severity, drop.negated(), limit);
    }
    let ghost over = match limits.max_overvoltage {
        Some(limit) => node_found(g, n, rule, severity, drop.negated_spec(), limit),
        None => Seq::empty(),
    };
    assert(out@ =~= first + (absolute + relative + over));
    limits.max_drop.is_some() || limits.max_drop_fraction.is_some()
        || limits.max_overvoltage.is_some()
}

/// Node voltages against the drop each net is allowed.
///
/// Three independent limits, each reported only where stated. A net stating
/// none of them is out of scope and is not examined, so a design that limited
/// nothing gets a run with nothing examined, which is a different claim from
/// clean. Skipped without a solve or usable intent; refused where a stated
/// budget never reached the solve.
pub fn check_ir_drop(
    power: Option<Solved>,
    intent: &IntentMap,
    table: &IrDropTable,
    out: &mut Violations,
    runs: &mut Vec<RuleRun>,
)
    requires
        power is Some ==> power->0.wf(),
        intent.wf(),
        table.head.wf(),
    ensures
        final(out)@ == old(out)@ + all_found(ir_drop_results(power, intent, table)),
        final(runs)@ == old(runs)@ + all_runs(
            table.head.rule@,
            ir_drop_results(power, intent, table),
        ),
{
    let ghost results = ir_drop_results(power, intent, table);
    let ghost first = out@;
    let ghost begun = runs@;
    let held: bool = hold_back(power, intent, &table.head, out, runs);
    if held {
        proof {
            lemma_all_ended(table.head.rule@.len(), held_back(power, intent)->0);
            assert(out@ =~= first + all_found(results));
        }
        return;
    }
    let solved = power.unwrap();
    let rows: usize = table.head.len();
    let nodes: usize = solved.grid.node_count();
    let mut row: usize = 0;
    assert(out@ =~= first + all_found(results.take(0)));
    assert(runs@ =~= begun + all_runs(table.head.rule@, results.take(0)));
    while row < rows
        invariant
            solved.wf(),
            power == Some(solved),
            held_back(power, intent) is None,
            intent.wf(),
            table.head.wf(),
            rows == table.head.rows(),
            nodes == solved.grid.nodes(),
            row <= rows,
            results == ir_drop_results(power, intent, table),
            out@ == first + all_found(results.take(row as int)),
            runs@ == begun + all_runs(table.head.rule@, results.take(row as int)),
        decreases rows - row,
    {
        let before: usize = out.len();
        let ghost start = out@;
        let rule = table.head.rule[row];
        let severity = table.head.severity[row];
        let mut examined: u64 = 0;
        let mut node: usize = 0;
        assert(out@ =~= start + drops_found(solved, intent, 0, rule, severity));
        while node < nodes
            invariant
                solved.wf(),
                intent.wf(),
                nodes == solved.grid.nodes(),
                node <= nodes,
                examined == stated_to(solved, intent, node as nat),
                examined <= node,
                out@ == start + drops_found(solved, intent, node as nat, rule, severity),
            decreases nodes - node,
        {
            let stated: bool = report_drops(solved, intent, node, rule, severity, out);
            if stated {
                examined = examined + 1;
            }
            assert(out@ =~= start + drops_found(
                solved,
                intent,
                (node + 1) as nat,
                rule,
                severity,
            ));
            node = node + 1;
        }
        record_run(runs, out, before, rule, Outcome::Ran, examined);
        proof {
            lemma_next_row(table.head.rule@, results, row as int);
            assert(out@ =~= first + all_found(results.take(row + 1)));
            assert(runs@ =~= begun + all_runs(table.head.rule@, results.take(row + 1)));
        }
        row = row + 1;
    }
    assert(results.take(rows as int) =~= results);
}

/// The per-layer current limits of one rule row.
pub struct LayerLimits<'a> {
    pub layer: &'a Vec<LayerId>,
    pub max_density: &'a Vec<Number>,
    pub max_current_per_cut: &'a Vec<Number>,
    /// The Blech product of each limited layer, or nothing for a rule with no
    /// lifetime to exempt a segment from.
    pub blech: Option<&'a Vec<Number>>,
    /// The run of the columns this row owns.
    pub from: usize,
    pub to: usize,
}

impl<'a> LayerLimits<'a> {
    pub open spec fn wf(&self) -> bool {
        &&& self.from <= self.to <= self.layer@.len()
        &&& self.max_density@.len() == self.layer@.len()
        &&& self.max_current_per_cut@.len() == self.layer@.len()
        &&& self.blech is Some ==> (*self.blech->0)@.len() == self.layer@.len()
    }

    /// Column `k` is the row's first mention of a layer.
    pub open spec fn limits(&self, layer: LayerId, k: int) -> bool {
        &&& self.from <= k < self.to
        &&& self.layer@[k] == layer
        &&& forall|j: int| self.from <= j < k ==> #[trigger] self.layer@[j] != layer
    }

    /// Where the row limits a layer, if it does.
    pub open spec fn limit_of(&self, layer: LayerId) -> Option<int> {
        if exists|k: int| self.limits(layer, k) {
            Some(choose|k: int| self.limits(layer, k))
        } else {
            None
        }
    }

    fn find(&self, layer: LayerId) -> (r: Option<usize>)
        requires
            self.wf(),
        ensures
            r is Some <==> self.limit_of(layer) is Some,
            r is Some ==> self.limit_of(layer) == Some(r->0 as int) && r->0 < self.layer@.len(),
    {
        let mut k: usize = self.from;
        while k < self.to
            invariant
                self.wf(),
                self.from <= k <= self.to,
                forall|j: int| self.from <= j < k ==> #[trigger] self.layer@[j] != layer,
            decreases self.to - k,
        {
            if self.layer[k] == layer {
                proof {
                    assert(self.limits(layer, k as int));
                    let c = choose|c: int| self.limits(layer, c);
                    assert(self.limits(layer, c));
                    assert(c == k);
                }
                return Some(k);
            }
            k = k + 1;
        }
        None
    }
}

/// The current one edge may carry, in microamps: a density times its width for
/// metal, a per-cut current times its cuts for a via.
pub open spec fn allowed_spec(
    kind: EdgeKind,
    width: i64,
    grid: Grid,
    max_density: Number,
    max_current_per_cut: Number,
) -> Number {
    match kind {
        EdgeKind::Metal => max_density.times_spec(grid.metres(width)).times_spec(
            Number { bits: MICRO },
        ),
        EdgeKind::Via { cuts } => max_current_per_cut.times_spec(Number::of_spec(cuts as int)),
    }
}

/// The current one edge may carry, in microamps.
///
/// A zero width or a zero cut count allows nothing, so any current at all
/// violates it.
pub fn allowed_current(
    kind: EdgeKind,
    width: i64,
    grid: Grid,
    max_density: Number,
    max_current_per_cut: Number,
) -> (r: Number)
    ensures
        r == allowed_spec(kind, width, grid, max_density, max_current_per_cut),
{
    match kind {
        EdgeKind::Metal => max_density.times(grid.to_metres(width)).times(Number { bits: MICRO }),
        EdgeKind::Via { cuts } => max_current_per_cut.times(Number::of(cuts as i128)),
    }
}

/// Whether a segment is below its layer's Blech product, where the row states
/// one, and so immortal.
pub open spec fn immortal(solved: Solved, limits: &LayerLimits, edge: int, k: int) -> bool {
    let current = solved.solution.branch_current@[edge].magnitude_spec();
    let slenderness = Number::of_spec(solved.grid.edge_length@[edge] as int).over_spec(
        Number::of_spec(solved.grid.edge_width@[edge] as int),
    );
    limits.blech is Some && current.times_spec(slenderness).le((*limits.blech->0)@[k])
}

/// Whether a row judges an edge at all.
pub open spec fn judged(solved: Solved, limits: &LayerLimits, edge: int) -> bool {
    match limits.limit_of(solved.grid.edge_layer@[edge]) {
        Some(k) => !immortal(solved, limits, edge, k),
        None => false,
    }
}

/// What one edge reports.
pub open spec fn branch_found(
    solved: Solved,
    grid: Grid,
    limits: &LayerLimits,
    derate: Number,
    edge: int,
    rule: StrId,
    severity: Severity,
) -> Seq<Violation> {
    let power = solved.grid;
    let k = limits.limit_of(power.edge_layer@[edge])->0;
    let allowed = allowed_spec(
        power.edge_kind@[edge],
        power.edge_width@[edge],
        grid,
        limits.max_density@[k],
        limits.max_current_per_cut@[k],
    ).times_spec(derate);
    let measured = Measurement::Current(solved.solution.branch_current@[edge].magnitude_spec());
    let limit = Measurement::Current(allowed);
    if judged(solved, limits, edge) && measured.breaks(limit, LimitSense::Maximum) {
        let from = power.edge_from@[edge] as int;
        let to = power.edge_to@[edge] as int;
        seq![
            Violation {
                rule,
                layer: power.edge_layer@[edge],
                severity,
                at: power.node_at@[from],
                measured,
                limit,
                shapes: (power.node_poly@[from], Some(power.node_poly@[to])),
            },
        ]
    } else {
        Seq::empty()
    }
}

/// What the first `n` edges report.
pub open spec fn branches_found(
    solved: Solved,
    grid: Grid,
    limits: &LayerLimits,
    derate: Number,
    n: nat,
    rule: StrId,
    severity: Severity,
) -> Seq<Violation>
    decreases n,
{
    if n == 0 {
        Seq::empty()
    } else {
        branches_found(solved, grid, limits, derate, (n - 1) as nat, rule, severity)
            + branch_found(solved, grid, limits, derate, n - 1, rule, severity)
    }
}

/// How many of the first `n` edges a row judges.
pub open spec fn judged_to(solved: Solved, limits: &LayerLimits, n: nat) -> nat
    decreases n,
{
    if n == 0 {
        0
    } else {
        judged_to(solved, limits, (n - 1) as nat) + if judged(solved, limits, n - 1) {
            1nat
        } else {
            0
        }
    }
}

/// Compare one edge against the current it is allowed, and say whether the row
/// judges it.
fn check_branch(
    solved: Solved,
    grid: Grid,
    rule: StrId,
    severity: Severity,
    limits: &LayerLimits,
    derate: Number,
    edge: usize,
    out: &mut Violations,
) -> (r: bool)
    requires
        solved.wf(),
        limits.wf(),
        edge < solved.grid.edges(),
    ensures
        r == judged(solved, limits, edge as int),
        final(out)@ == old(out)@ + branch_found(
            solved,
            grid,
            limits,
            derate,
            edge as int,
            rule,
            severity,
        ),
{
    let power = solved.grid;
    let ghost first = out@;
    let k: usize = match limits.find(power.edge_layer[edge]) {
        Some(k) => k,
        None => {
            assert(first =~= first + branch_found(
                solved,
                grid,
                limits,
                derate,
                edge as int,
                rule,
                severity,
            ));
            return false;
        },
    };
    let current = solved.solution.branch_current[edge].absolute();
    let width: i64 = power.edge_width[edge];
    let length: i64 = power.edge_length[edge];
    let exempt: bool = match limits.blech {
        Some(blech) => {
            let slenderness = Number::of(length as i128).over(Number::of(width as i128));
            current.times(slenderness).at_most(blech[k])
        },
        None => false,
    };
    assert(exempt == immortal(solved, limits, edge as int, k as int));
    let allowed = allowed_current(
        power.edge_kind[edge],
        width,
        grid,
        limits.max_density[k],
        limits.max_current_per_cut[k],
    ).times(derate);
    let measured = Measurement::Current(current);
    let limit = Measurement::Current(allowed);
    if !exempt && measured.violates(limit, LimitSense::Maximum) {
        assert(power.edge_from@[edge as int] < power.nodes());
        assert(power.edge_to@[edge as int] < power.nodes());
        let from: usize = power.edge_from[edge] as usize;
        let to: usize = power.edge_to[edge] as usize;
        out.push(
            Violation {
                rule,
                layer: power.edge_layer[edge],
                severity,
                at: power.node_at[from],
                measured,
                limit,
                shapes: (power.node_poly[from], Some(power.node_poly[to])),
            },
        );
    }
    assert(out@ =~= first + branch_found(
        solved,
        grid,
        limits,
        derate,
        edge as int,
        rule,
        severity,
    ));
    !exempt
}

/// Compare each edge on a limited layer against the current it is allowed, and
/// hand back how many were judged.
fn check_branches(
    solved: Solved,
    grid: Grid,
    rule: StrId,
    severity: Severity,
    limits: &LayerLimits,
    derate: Number,
    out: &mut Violations,
) -> (examined: u64)
    requires
        solved.wf(),
        limits.wf(),
    ensures
        examined == judged_to(solved, limits, solved.grid.edges() as nat),
        final(out)@ == old(out)@ + branches_found(
            solved,
            grid,
            limits,
            derate,
            solved.grid.edges() as nat,
            rule,
            severity,
        ),
{
    let ghost first = out@;
    let edges: usize = solved.grid.edge_count();
    let mut examined: u64 = 0;
    let mut edge: usize = 0;
    assert(out@ =~= first + branches_found(solved, grid, limits, derate, 0, rule, severity));
    while edge < edges
        invariant
            solved.wf(),
            limits.wf(),
            edges == solved.grid.edges(),
            edge <= edges,
            examined == judged_to(solved, limits, edge as nat),
            examined <= edge,
            out@ == first + branches_found(
                solved,
                grid,
                limits,
                derate,
                edge as nat,
                rule,
                severity,
            ),
        decreases edges - edge,
    {
        if check_branch(solved, grid, rule, severity, limits, derate, edge, out) {
            examined = examined + 1;
        }
        assert(out@ =~= first + branches_found(
            solved,
            grid,
            limits,
            derate,
            (edge + 1) as nat,
            rule,
            severity,
        ));
        edge = edge + 1;
    }
    examined
}

impl EmCurrentDensityTable {
    pub open spec fn wf(&self) -> bool {
        &&& self.head.wf()
        &&& self.head.rows() > 0 ==> is_csr(
            self.layer_start@,
            self.head.rows(),
            self.layer@.len() as int,
        )
        &&& self.max_density@.len() == self.layer@.len()
        &&& self.max_current_per_cut@.len() == self.layer@.len()
    }

    pub open spec fn limits(&self, row: int) -> LayerLimits {
        LayerLimits {
            layer: &self.layer,
            max_density: &self.max_density,
            max_current_per_cut: &self.max_current_per_cut,
            blech: None,
            from: self.layer_start@[row] as usize,
            to: self.layer_start@[row + 1] as usize,
        }
    }
}

/// What a row judging every edge against its limits reports.
pub open spec fn branch_result(
    solved: Solved,
    grid: Grid,
    limits: &LayerLimits,
    derate: Number,
    rule: StrId,
    severity: Severity,
) -> RowResult {
    let n = solved.grid.edges() as nat;
    RowResult {
        outcome: Outcome::Ran,
        examined: judged_to(solved, limits, n) as u64,
        found: branches_found(solved, grid, limits, derate, n, rule, severity),
    }
}

pub open spec fn em_results(
    power: Option<Solved>,
    intent: &IntentMap,
    grid: Grid,
    table: &EmCurrentDensityTable,
) -> Seq<RowResult> {
    match held_back(power, intent) {
        Some(outcome) => all_ended(table.head.rule@.len(), outcome),
        None => Seq::new(
            table.head.rule@.len(),
            |row: int|
                branch_result(
                    power->0,
                    grid,
                    &table.limits(row),
                    Number { bits: ONE },
                    table.head.rule@[row],
                    table.head.severity@[row],
                ),
        ),
    }
}

/// Branch currents against each layer's current-density limit.
///
/// A metal edge is limited by its width and a via by its cuts. An edge on an
/// unlimited layer is not examined. Skipped without a solve or usable intent;
/// refused where a stated budget never reached the solve.
pub fn check_em_current_density(
    power: Option<Solved>,
    intent: &IntentMap,
    grid: Grid,
    table: &EmCurrentDensityTable,
    out: &mut Violations,
    runs: &mut Vec<RuleRun>,
)
    requires
        power is Some ==> power->0.wf(),
        intent.wf(),
        table.wf(),
    ensures
        final(out)@ == old(out)@ + all_found(em_results(power, intent, grid, table)),
        final(runs)@ == old(runs)@ + all_runs(
            table.head.rule@,
            em_results(power, intent, grid, table),
        ),
{
    let ghost results = em_results(power, intent, grid, table);
    let ghost first = out@;
    let ghost begun = runs@;
    let held: bool = hold_back(power, intent, &table.head, out, runs);
    if held {
        proof {
            lemma_all_ended(table.head.rule@.len(), held_back(power, intent)->0);
            assert(out@ =~= first + all_found(results));
        }
        return;
    }
    let solved = power.unwrap();
    let rows: usize = table.head.len();
    let mut row: usize = 0;
    assert(out@ =~= first + all_found(results.take(0)));
    assert(runs@ =~= begun + all_runs(table.head.rule@, results.take(0)));
    while row < rows
        invariant
            solved.wf(),
            power == Some(solved),
            held_back(power, intent) is None,
            table.wf(),
            rows == table.head.rows(),
            row <= rows,
            results == em_results(power, intent, grid, table),
            out@ == first + all_found(results.take(row as int)),
            runs@ == begun + all_runs(table.head.rule@, results.take(row as int)),
        decreases rows - row,
    {
        let before: usize = out.len();
        let rule = table.head.rule[row];
        let severity = table.head.severity[row];
        let limits = LayerLimits {
            layer: &table.layer,
            max_density: &table.max_density,
            max_current_per_cut: &table.max_current_per_cut,
            blech: None,
            from: table.layer_start[row] as usize,
            to: table.layer_start[row + 1] as usize,
        };
        assert(limits == table.limits(row as int));
        let examined: u64 = check_branches(
            solved,
            grid,
            rule,
            severity,
            &limits,
            Number { bits: ONE },
            out,
        );
        record_run(runs, out, before, rule, Outcome::Ran, examined);
        proof {
            lemma_next_row(table.head.rule@, results, row as int);
            assert(out@ =~= first + all_found(results.take(row + 1)));
            assert(runs@ =~= begun + all_runs(table.head.rule@, results.take(row + 1)));
        }
        row = row + 1;
    }
    assert(results.take(rows as int) =~= results);
}

/// Whether a parameter set has an Arrhenius factor: both temperatures absolute
/// and positive, and the exponent positive.
pub open spec fn arrhenius_usable(
    operating: Number,
    reference: Number,
    activation_energy_ev: Number,
    current_exponent: Number,
) -> bool {
    let zero = Number { bits: 0 };
    &&& operating.finite() && zero.lt(operating)
    &&& reference.finite() && zero.lt(reference)
    &&& activation_energy_ev.finite() && zero.le(activation_energy_ev)
    &&& current_exponent.finite() && zero.lt(current_exponent)
}

/// The power of e the derating is: `Ea / (n k) * (1/T - 1/T_ref)`.
pub open spec fn arrhenius_power(
    operating: Number,
    reference: Number,
    activation_energy_ev: Number,
    current_exponent: Number,
) -> Number {
    let one = Number { bits: ONE };
    activation_energy_ev.over_spec(
        current_exponent.times_spec(Number { bits: BOLTZMANN_EV_PER_K }),
    ).times_spec(one.over_spec(operating).minus_spec(one.over_spec(reference)))
}

/// The power of e that derates a limit characterised at `reference` to
/// `operating`; `None` for a parameter set with no Arrhenius factor.
///
/// A hotter operating point makes the power negative, which derates the allowed
/// current down.
pub fn arrhenius_argument(
    operating: Number,
    reference: Number,
    activation_energy_ev: Number,
    current_exponent: Number,
) -> (r: Option<Number>)
    ensures
        r == (if arrhenius_usable(operating, reference, activation_energy_ev, current_exponent) {
            Some(
                arrhenius_power(operating, reference, activation_energy_ev, current_exponent),
            )
        } else {
            None
        }),
{
    let zero = Number { bits: 0 };
    let one = Number { bits: ONE };
    let usable: bool = operating.is_finite() && zero.less(operating) && reference.is_finite()
        && zero.less(reference) && activation_energy_ev.is_finite() && zero.at_most(
        activation_energy_ev,
    ) && current_exponent.is_finite() && zero.less(current_exponent);
    if !usable {
        return None;
    }
    let scale = activation_energy_ev.over(
        current_exponent.times(Number { bits: BOLTZMANN_EV_PER_K }),
    );
    Some(scale.times(one.over(operating).minus(one.over(reference))))
}

/// How much of a limit survives at the operating temperature, given `e` raised
/// to [`arrhenius_argument`].
///
/// `None` where the parameters have no Arrhenius factor or the factor is not
/// finite: an infinite one would allow every current.
pub fn arrhenius_derating(
    operating: Number,
    reference: Number,
    activation_energy_ev: Number,
    current_exponent: Number,
    exponential: Number,
) -> (r: Option<Number>)
    ensures
        r == (if arrhenius_usable(operating, reference, activation_energy_ev, current_exponent)
            && exponential.finite() {
            Some(exponential)
        } else {
            None
        }),
{
    match arrhenius_argument(operating, reference, activation_energy_ev, current_exponent) {
        Some(_) => if exponential.is_finite() {
            Some(exponential)
        } else {
            None
        },
        None => None,
    }
}

impl ElectromigrationTable {
    pub open spec fn wf(&self) -> bool {
        &&& self.head.wf()
        &&& self.head.rows() > 0 ==> is_csr(
            self.layer_start@,
            self.head.rows(),
            self.layer@.len() as int,
        )
        &&& self.max_density@.len() == self.layer@.len()
        &&& self.max_current_per_cut@.len() == self.layer@.len()
        &&& self.blech_limit@.len() == self.layer@.len()
        &&& self.reference_temperature@.len() == self.head.rows()
        &&& self.activation_energy_ev@.len() == self.head.rows()
        &&& self.current_exponent@.len() == self.head.rows()
    }

    pub open spec fn limits(&self, row: int) -> LayerLimits {
        LayerLimits {
            layer: &self.layer,
            max_density: &self.max_density,
            max_current_per_cut: &self.max_current_per_cut,
            blech: Some(&self.blech_limit),
            from: self.layer_start@[row] as usize,
            to: self.layer_start@[row + 1] as usize,
        }
    }
}

/// What one electromigration row reports.
pub open spec fn electromigration_row(
    solved: Solved,
    grid: Grid,
    operating: Number,
    exponentials: Seq<Number>,
    table: &ElectromigrationTable,
    row: int,
) -> RowResult {
    if arrhenius_usable(
        operating,
        table.reference_temperature@[row],
        table.activation_energy_ev@[row],
        table.current_exponent@[row],
    ) && exponentials[row].finite() {
        branch_result(
            solved,
            grid,
            &table.limits(row),
            exponentials[row],
            table.head.rule@[row],
            table.head.severity@[row],
        )
    } else {
        ended(Outcome::Refused)
    }
}

pub open spec fn electromigration_results(
    power: Option<Solved>,
    intent: &IntentMap,
    grid: Grid,
    operating: Number,
    exponentials: Seq<Number>,
    table: &ElectromigrationTable,
) -> Seq<RowResult> {
    match held_back(power, intent) {
        Some(outcome) => all_ended(table.head.rule@.len(), outcome),
        None => Seq::new(
            table.head.rule@.len(),
            |row: int|
                electromigration_row(power->0, grid, operating, exponentials, table, row),
        ),
    }
}

/// Branch currents against a temperature-derated lifetime limit.
///
/// As [`check_em_current_density`], with each limit scaled by the row's
/// derating and with immortal segments exempted before the compare.
/// `exponentials` holds, per row, `e` raised to what [`arrhenius_argument`]
/// gives for it. A row with no finite derating is refused, never passed.
pub fn check_electromigration(
    power: Option<Solved>,
    intent: &IntentMap,
    grid: Grid,
    operating_temperature: Number,
    exponentials: &Vec<Number>,
    table: &ElectromigrationTable,
    out: &mut Violations,
    runs: &mut Vec<RuleRun>,
)
    requires
        power is Some ==> power->0.wf(),
        intent.wf(),
        table.wf(),
        exponentials@.len() == table.head.rows(),
    ensures
        final(out)@ == old(out)@ + all_found(
            electromigration_results(
                power,
                intent,
                grid,
                operating_temperature,
                exponentials@,
                table,
            ),
        ),
        final(runs)@ == old(runs)@ + all_runs(
            table.head.rule@,
            electromigration_results(
                power,
                intent,
                grid,
                operating_temperature,
                exponentials@,
                table,
            ),
        ),
{
    let ghost results = electromigration_results(
        power,
        intent,
        grid,
        operating_temperature,
        exponentials@,
        table,
    );
    let ghost first = out@;
    let ghost begun = runs@;
    let held: bool = hold_back(power, intent, &table.head, out, runs);
    if held {
        proof {
            lemma_all_ended(table.head.rule@.len(), held_back(power, intent)->0);
            assert(out@ =~= first + all_found(results));
        }
        return;
    }
    let solved = power.unwrap();
    let rows: usize = table.head.len();
    let mut row: usize = 0;
    assert(out@ =~= first + all_found(results.take(0)));
    assert(runs@ =~= begun + all_runs(table.head.rule@, results.take(0)));
    while row < rows
        invariant
            solved.wf(),
            power == Some(solved),
            held_back(power, intent) is None,
            table.wf(),
            exponentials@.len() == table.head.rows(),
            rows == table.head.rows(),
            row <= rows,
            results == electromigration_results(
                power,
                intent,
                grid,
                operating_temperature,
                exponentials@,
                table,
            ),
            out@ == first + all_found(results.take(row as int)),
            runs@ == begun + all_runs(table.head.rule@, results.take(row as int)),
        decreases rows - row,
    {
        let before: usize = out.len();
        let rule = table.head.rule[row];
        let severity = table.head.severity[row];
        let derating = arrhenius_derating(
            operating_temperature,
            table.reference_temperature[row],
            table.activation_energy_ev[row],
            table.current_exponent[row],
            exponentials[row],
        );
        match derating {
            None => {
                record_run(runs, out, before, rule, Outcome::Refused, 0);
            },
            Some(derate) => {
                let limits = LayerLimits {
                    layer: &table.layer,
                    max_density: &table.max_density,
                    max_current_per_cut: &table.max_current_per_cut,
                    blech: Some(&table.blech_limit),
                    from: table.layer_start[row] as usize,
                    to: table.layer_start[row + 1] as usize,
                };
                assert(limits == table.limits(row as int));
                let examined: u64 = check_branches(
                    solved,
                    grid,
                    rule,
                    severity,
                    &limits,
                    derate,
                    out,
                );
                record_run(runs, out, before, rule, Outcome::Ran, examined);
            },
        }
        proof {
            lemma_next_row(table.head.rule@, results, row as int);
            assert(out@ =~= first + all_found(results.take(row + 1)));
            assert(runs@ =~= begun + all_runs(table.head.rule@, results.take(row + 1)));
        }
        row = row + 1;
    }
    assert(results.take(rows as int) =~= results);
}

} // verus!
