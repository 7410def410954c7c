//! Rules that ask only what is connected to what.
use crate::design::{
    base_layer, kept, lemma_kept, lemma_kept_is, layer_exists, net_violation, net_violations,
    push_net_violation,
    polygon_rings, push_net_violations, Design, LayerShapes,
};
use crate::enclosing::{
    fits_at, lies_in, region_has, region_has_inside, region_lies_in, region_wf, rings_of, within_ring,
};
use crate::geom::{Bbox, Point};
use crate::facts::{NetFacts, RoleMask};
use crate::model::{LayerId, LayerRef, PolyId, StrId, TerminalRole, NO_NET};
use crate::report::{
    all_found, all_runs, ended, lemma_next_row, record_run, Measurement, Outcome, RowResult,
    RuleRun,
    Severity, Violation, Violations,
};
use crate::ring::{
    area2, doubled_area, in_region, ring_wf,
};
use crate::ruleset::RuleHead;
use crate::sorted::{ascending, sorted_distinct};
use crate::store::{is_csr, DeviceTable, GeometryStore};
use vstd::prelude::*;

verus! {

/// A gate net with nothing driving it.
pub struct FloatingGateTable {
    pub head: RuleHead,
}

/// Whether a net's only terminals are gates.
pub open spec fn only_gates(facts: &NetFacts) -> spec_fn(int) -> bool {
    |i: int| facts.role@[i].0 == RoleMask::GATE
}

/// Whether a net carries a gate terminal.
pub open spec fn has_gate(facts: &NetFacts) -> spec_fn(int) -> bool {
    |i: int| facts.role@[i].0 & RoleMask::GATE != 0
}

pub open spec fn floating_gate_row(
    design: Design,
    facts: &NetFacts,
    table: &FloatingGateTable,
    row: int,
) -> RowResult {
    RowResult {
        outcome: Outcome::Ran,
        examined: kept(facts.role@.len(), has_gate(facts)).len() as u64,
        found: net_violations(
            design,
            kept(facts.role@.len(), only_gates(facts)),
            table.head.rule@[row],
            table.head.severity@[row],
            Measurement::Count(0),
            Measurement::Count(1),
        ),
    }
}

/// How each row of a floating-gate table ends.
pub open spec fn floating_gate_results(
    design: Design,
    facts: &NetFacts,
    table: &FloatingGateTable,
) -> Seq<RowResult> {
    Seq::new(
        table.head.rule@.len(),
        |row: int| floating_gate_row(design, facts, table, row),
    )
}

/// Flag every net whose only terminals are gates.
///
/// A row examines the nets carrying at least one gate terminal.
pub fn check_floating_gate(
    design: Design,
    facts: &NetFacts,
    table: &FloatingGateTable,
    out: &mut Violations,
    runs: &mut Vec<RuleRun>,
)
    requires
        design.wf(),
        facts.wf(),
        facts.role@.len() <= design.nets.nets(),
        table.head.wf(),
    ensures
        final(out)@ == old(out)@ + all_found(floating_gate_results(design, facts, table)),
        final(runs)@ == old(runs)@ + all_runs(
            table.head.rule@,
            floating_gate_results(design, facts, table),
        ),
{
    let nets: usize = facts.role.len();
    let mut flagged: Vec<u32> = Vec::new();
    let mut examined: u64 = 0;
    let mut i: usize = 0;
    while i < nets
        invariant
            i <= nets,
            nets == facts.role@.len(),
            nets < 0xFFFF_FFFF,
            flagged@ == kept(i as nat, only_gates(facts)),
            examined == kept(i as nat, has_gate(facts)).len(),
            examined <= i,
        decreases nets - i,
    {
        if facts.role[i].intersects(RoleMask(RoleMask::GATE)) {
            examined = examined + 1;
        }
        if facts.role[i] == RoleMask(RoleMask::GATE) {
            flagged.push(i as u32);
        }
        i = i + 1;
    }
    proof {
        lemma_kept(nets as nat, only_gates(facts));
    }
    let ghost results = floating_gate_results(design, facts, table);
    let rows: usize = table.head.len();
    let mut row: usize = 0;
    assert(out@ =~= old(out)@ + all_found(results.take(0)));
    assert(runs@ =~= old(runs)@ + all_runs(table.head.rule@, results.take(0)));
    while row < rows
        invariant
            design.wf(),
            table.head.wf(),
            rows == table.head.rule@.len(),
            row <= rows,
            facts.role@.len() <= design.nets.nets(),
            results == floating_gate_results(design, facts, table),
            flagged@ == kept(facts.role@.len(), only_gates(facts)),
            forall|i: int| 0 <= i < flagged@.len() ==> #[trigger] flagged@[i] < facts.role@.len(),
            examined == kept(facts.role@.len(), has_gate(facts)).len(),
            out@ == old(out)@ + all_found(results.take(row as int)),
            runs@ == old(runs)@ + all_runs(table.head.rule@, results.take(row as int)),
        decreases rows - row,
    {
        let before: usize = out.len();
        let rule = table.head.rule[row];
        push_net_violations(
            design,
            &flagged,
            rule,
            table.head.severity[row],
            Measurement::Count(0),
            Measurement::Count(1),
            out,
        );
        record_run(runs, out, before, rule, Outcome::Ran, examined);
        proof {
            lemma_next_row(table.head.rule@, results, row as int);
            assert(out@ =~= old(out)@ + all_found(results.take(row + 1)));
            assert(runs@ =~= old(runs)@ + all_runs(table.head.rule@, results.take(row + 1)));
        }
        row = row + 1;
    }
    assert(results.take(rows as int) =~= results);
}

/// A conductor on a net no device terminal touches.
pub struct UnconnectedPinTable {
    pub head: RuleHead,
    /// `layer[layer_start[i] .. layer_start[i + 1]]` are row `i`'s layers.
    pub layer_start: Vec<u32>,
    pub layer: Vec<LayerId>,
}

impl UnconnectedPinTable {
    pub open spec fn wf(&self, layers: int) -> bool {
        &&& self.head.wf()
        &&& self.head.rows() > 0 ==> is_csr(
            self.layer_start@,
            self.head.rows(),
            self.layer@.len() as int,
        )
        &&& forall|k: int| 0 <= k < self.layer@.len() ==> (#[trigger] self.layer@[k]).0 < layers
    }

    pub open spec fn row_layers(&self, row: int) -> Seq<LayerId> {
        self.layer@.subrange(self.layer_start@[row] as int, self.layer_start@[row + 1] as int)
    }
}

/// Whether a polygon's net reaches a device terminal. A polygon on no net, and
/// a net past the classification, reach none.
pub open spec fn reaches_device(design: Design, facts: &NetFacts, p: int) -> bool {
    &&& facts.role@.len() > 0
    &&& design.nets.net_of@[p].0 < facts.role@.len()
    &&& facts.role@[design.nets.net_of@[p].0 as int].0 != RoleMask::NONE
}

/// The unconnected polygons of the rows `lo .. hi`.
pub open spec fn unconnected_rows(
    design: Design,
    facts: &NetFacts,
    layer: LayerId,
    rule: StrId,
    severity: Severity,
    lo: int,
    hi: int,
) -> Seq<Violation>
    decreases hi - lo,
{
    if hi <= lo {
        Seq::empty()
    } else {
        let before = unconnected_rows(design, facts, layer, rule, severity, lo, hi - 1);
        if reaches_device(design, facts, hi - 1) {
            before
        } else {
            before.push(
                Violation {
                    rule,
                    layer,
                    severity,
                    at: design.store.vertex_at(hi - 1, 0),
                    measured: Measurement::Count(0),
                    limit: Measurement::Count(1),
                    shapes: (PolyId((hi - 1) as u32), None),
                },
            )
        }
    }
}

/// The unconnected polygons of a list of layers, in list order.
pub open spec fn unconnected_layers(
    design: Design,
    facts: &NetFacts,
    layers: Seq<LayerId>,
    rule: StrId,
    severity: Severity,
) -> Seq<Violation>
    decreases layers.len(),
{
    if layers.len() == 0 {
        Seq::empty()
    } else {
        let l = layers.last();
        unconnected_layers(design, facts, layers.drop_last(), rule, severity) + unconnected_rows(
            design,
            facts,
            l,
            rule,
            severity,
            design.store.row_lo(l.0 as int),
            design.store.row_hi(l.0 as int),
        )
    }
}

/// How many polygons a list of layers holds.
pub open spec fn polys_on(store: &GeometryStore, layers: Seq<LayerId>) -> int
    decreases layers.len(),
{
    if layers.len() == 0 {
        0
    } else {
        let l = layers.last().0 as int;
        polys_on(store, layers.drop_last()) + (store.row_hi(l) - store.row_lo(l))
    }
}

/// How each row of an unconnected-pin table ends.
pub open spec fn unconnected_pin_results(
    design: Design,
    facts: &NetFacts,
    table: &UnconnectedPinTable,
) -> Seq<RowResult> {
    Seq::new(
        table.head.rule@.len(),
        |row: int|
            RowResult {
                outcome: Outcome::Ran,
                examined: polys_on(design.store, table.row_layers(row)) as u64,
                found: unconnected_layers(
                    design,
                    facts,
                    table.row_layers(row),
                    table.head.rule@[row],
                    table.head.severity@[row],
                ),
            },
    )
}

fn push_unconnected_rows(
    design: Design,
    facts: &NetFacts,
    layer: LayerId,
    rule: StrId,
    severity: Severity,
    out: &mut Violations,
)
    requires
        design.wf(),
        facts.wf(),
        facts.role@.len() <= design.nets.nets(),
        layer.0 < design.store.layers(),
    ensures
        final(out)@ == old(out)@ + unconnected_rows(
            design,
            facts,
            layer,
            rule,
            severity,
            design.store.row_lo(layer.0 as int),
            design.store.row_hi(layer.0 as int),
        ),
{
    let (lo, hi) = design.store.polys_on_layer(layer);
    let extracted: bool = facts.role.len() != 0;
    let mut p: u32 = lo;
    assert(out@ =~= old(out)@ + unconnected_rows(
        design,
        facts,
        layer,
        rule,
        severity,
        lo as int,
        lo as int,
    ));
    while p < hi
        invariant
            design.wf(),
            facts.wf(),
            facts.role@.len() <= design.nets.nets(),
            extracted == (facts.role@.len() != 0),
            lo <= p <= hi <= design.store.polys(),
            out@ == old(out)@ + unconnected_rows(
                design,
                facts,
                layer,
                rule,
                severity,
                lo as int,
                p as int,
            ),
        decreases hi - p,
    {
        let mut connected: bool = false;
        if extracted {
            let net = design.nets.net_of[p as usize];
            if (net.0 as usize) < facts.role.len() {
                connected = facts.is_device_connected(net);
            }
        }
        if !connected {
            let at = design.store.first_vertex(PolyId(p));
            out.push(
                Violation {
                    rule,
                    layer,
                    severity,
                    at,
                    measured: Measurement::Count(0),
                    limit: Measurement::Count(1),
                    shapes: (PolyId(p), None),
                },
            );
        }
        p = p + 1;
        assert(out@ =~= old(out)@ + unconnected_rows(
            design,
            facts,
            layer,
            rule,
            severity,
            lo as int,
            p as int,
        ));
    }
}

/// Flag every polygon on a listed layer whose net reaches no device.
pub fn check_unconnected_pin(
    design: Design,
    facts: &NetFacts,
    table: &UnconnectedPinTable,
    out: &mut Violations,
    runs: &mut Vec<RuleRun>,
)
    requires
        design.wf(),
        facts.wf(),
        facts.role@.len() <= design.nets.nets(),
        table.wf(design.store.layers()),
    ensures
        final(out)@ == old(out)@ + all_found(unconnected_pin_results(design, facts, table)),
        final(runs)@ == old(runs)@ + all_runs(
            table.head.rule@,
            unconnected_pin_results(design, facts, table),
        ),
{
    let ghost results = unconnected_pin_results(design, facts, table);
    let rows: usize = table.head.len();
    let mut row: usize = 0;
    assert(out@ =~= old(out)@ + all_found(results.take(0)));
    assert(runs@ =~= old(runs)@ + all_runs(table.head.rule@, results.take(0)));
    while row < rows
        invariant
            design.wf(),
            facts.wf(),
            facts.role@.len() <= design.nets.nets(),
            table.wf(design.store.layers()),
            rows == table.head.rule@.len(),
            row <= rows,
            results == unconnected_pin_results(design, facts, table),
            out@ == old(out)@ + all_found(results.take(row as int)),
            runs@ == old(runs)@ + all_runs(table.head.rule@, results.take(row as int)),
        decreases rows - row,
    {
        let before: usize = out.len();
        let rule = table.head.rule[row];
        let severity = table.head.severity[row];
        let from: usize = table.layer_start[row] as usize;
        let to: usize = table.layer_start[row + 1] as usize;
        let ghost listed = table.row_layers(row as int);
        let ghost start = out@;
        let mut examined: u64 = 0;
        let mut k: usize = from;
        assert(out@ =~= start + unconnected_layers(design, facts, listed.take(0), rule, severity));
        while k < to
            invariant
                design.wf(),
                facts.wf(),
                facts.role@.len() <= design.nets.nets(),
                table.wf(design.store.layers()),
                from <= k <= to <= table.layer@.len(),
                to <= 0xFFFF_FFFF,
                listed == table.layer@.subrange(from as int, to as int),
                out@ == start + unconnected_layers(
                    design,
                    facts,
                    listed.take(k - from),
                    rule,
                    severity,
                ),
                examined == polys_on(design.store, listed.take(k - from)),
                examined <= (k - from) * 0xFFFF_FFFF,
            decreases to - k,
        {
            let layer = table.layer[k];
            let (lo, hi) = design.store.polys_on_layer(layer);
            assert((k - from) * 0xFFFF_FFFF <= 0xFFFF_FFFE * 0xFFFF_FFFF);
            examined = examined + (hi - lo) as u64;
            push_unconnected_rows(design, facts, layer, rule, severity, out);
            proof {
                let now = listed.take(k - from + 1);
                assert(now.drop_last() =~= listed.take(k - from));
                assert(now.last() == layer);
                assert(out@ =~= start + unconnected_layers(design, facts, now, rule, severity));
            }
            k = k + 1;
        }
        assert(listed.take(k - from) =~= listed);
        record_run(runs, out, before, rule, Outcome::Ran, examined);
        proof {
            lemma_next_row(table.head.rule@, results, row as int);
            assert(out@ =~= old(out)@ + all_found(results.take(row + 1)));
            assert(runs@ =~= old(runs)@ + all_runs(table.head.rule@, results.take(row + 1)));
        }
        row = row + 1;
    }
    assert(results.take(rows as int) =~= results);
}

/// A net driven by more than one output.
///
/// The count is over distinct gate nets: a parallel pair sharing a gate is one
/// driver built wide.
pub struct MultipleDriversTable {
    pub head: RuleHead,
    /// Distinct driving gate nets permitted on one net.
    pub max_drivers: Vec<u32>,
}

impl MultipleDriversTable {
    pub open spec fn wf(&self) -> bool {
        self.head.wf() && self.max_drivers@.len() == self.head.rows()
    }
}

/// The net of the first gate among the terminals `t .. hi`, or [`NO_NET`].
pub open spec fn gate_from(devices: &DeviceTable, t: int, hi: int) -> u32
    decreases hi - t,
{
    if t >= hi {
        NO_NET
    } else if devices.terminal_role@[t] == TerminalRole::Gate {
        devices.terminal_net@[t].0
    } else {
        gate_from(devices, t + 1, hi)
    }
}

/// Whether terminal `t` is a drain of device `d`, on a net.
pub open spec fn is_drain(devices: &DeviceTable, d: int, t: int) -> bool {
    &&& 0 <= d < devices.devices()
    &&& devices.term_lo(d) <= t < devices.term_hi(d)
    &&& devices.terminal_role@[t] == TerminalRole::Drain
    &&& devices.terminal_net@[t].0 != NO_NET
}

/// Which gate net switches device `d`, or [`NO_NET`].
pub open spec fn gate_of(devices: &DeviceTable, d: int) -> u32 {
    gate_from(devices, devices.term_lo(d), devices.term_hi(d))
}

/// Whether a drain of some device gated by net `g` lands on net `n`.
pub open spec fn drives(devices: &DeviceTable, n: u32, g: u32) -> bool {
    exists|d: int, t: int|
        #[trigger] is_drain(devices, d, t) && devices.terminal_net@[t].0 == n && gate_of(devices, d)
            == g
}

/// The nets some drain lands on.
pub open spec fn driven(devices: &DeviceTable) -> spec_fn(int) -> bool {
    |n: int| exists|g: u32| #[trigger] drives(devices, n as u32, g)
}

/// Gate nets driving net `n`.
pub open spec fn driver_of(devices: &DeviceTable, n: u32) -> spec_fn(int) -> bool {
    |g: int| drives(devices, n, g as u32)
}

/// How many distinct gate nets drive net `n`.
pub open spec fn drivers(devices: &DeviceTable, n: u32) -> u32 {
    kept(NO_NET as nat, driver_of(devices, n)).len() as u32
}

/// Whether every net some row finds over-driven is one of the design's, so that there
/// is a polygon to report it at.
pub open spec fn overdriven_in(design: Design, table: &MultipleDriversTable) -> bool {
    forall|row: int, d: int, t: int|
        #![trigger table.max_drivers@[row], is_drain(design.devices, d, t)]
        0 <= row < table.head.rows() && is_drain(design.devices, d, t) && drivers(
            design.devices,
            design.devices.terminal_net@[t].0,
        ) > table.max_drivers@[row] ==> design.devices.terminal_net@[t].0 < design.nets.nets()
}

/// The over-driven nets among a list.
pub open spec fn overdriven(
    design: Design,
    nets: Seq<u32>,
    max: u32,
    rule: StrId,
    severity: Severity,
) -> Seq<Violation>
    decreases nets.len(),
{
    if nets.len() == 0 {
        Seq::empty()
    } else {
        let before = overdriven(design, nets.drop_last(), max, rule, severity);
        let count = drivers(design.devices, nets.last());
        if count > max {
            before + net_violation(
                design,
                nets.last() as int,
                rule,
                severity,
                Measurement::Count(count),
                Measurement::Count(max),
            )
        } else {
            before
        }
    }
}

/// How each row of a multiple-drivers table ends.
pub open spec fn multiple_drivers_results(
    design: Design,
    table: &MultipleDriversTable,
) -> Seq<RowResult> {
    let nets = kept(NO_NET as nat, driven(design.devices));
    Seq::new(
        table.head.rule@.len(),
        |row: int|
            RowResult {
                outcome: Outcome::Ran,
                examined: nets.len() as u64,
                found: overdriven(
                    design,
                    nets,
                    table.max_drivers@[row],
                    table.head.rule@[row],
                    table.head.severity@[row],
                ),
            },
    )
}

/// One key per drain: its net above, its gate's net below.
spec fn drain_key(devices: &DeviceTable, d: int, t: int) -> u64 {
    (devices.terminal_net@[t].0 * 0x1_0000_0000 + gate_of(devices, d)) as u64
}

spec fn key_drives(devices: &DeviceTable, key: u64) -> bool {
    drives(devices, (key / 0x1_0000_0000) as u32, (key % 0x1_0000_0000) as u32)
}

fn find_gate(devices: &DeviceTable, d: usize, Ghost(polys): Ghost<int>) -> (r: u32)
    requires
        devices.wf(polys),
        d < devices.devices(),
    ensures
        r == gate_of(devices, d as int),
{
    let lo: usize = devices.terminal_start[d] as usize;
    let hi: usize = devices.terminal_start[d + 1] as usize;
    let mut t: usize = lo;
    while t < hi
        invariant
            devices.wf(polys),
            d < devices.devices(),
            lo == devices.term_lo(d as int),
            hi == devices.term_hi(d as int),
            lo <= t <= hi <= devices.terminal_net@.len(),
            gate_of(devices, d as int) == gate_from(devices, t as int, hi as int),
        decreases hi - t,
    {
        match devices.terminal_role[t] {
            TerminalRole::Gate => {
                return devices.terminal_net[t].0;
            },
            _ => {},
        }
        t = t + 1;
    }
    NO_NET
}

/// One key per drain on a net, in device order.
fn drain_keys(devices: &DeviceTable, Ghost(polys): Ghost<int>) -> (keys: Vec<u64>)
    requires
        devices.wf(polys),
    ensures
        forall|k: u64| #[trigger] keys@.contains(k) ==> key_drives(devices, k) && k
            / 0x1_0000_0000 < NO_NET,
        forall|d: int, t: int| #[trigger]
            is_drain(devices, d, t) ==> keys@.contains(drain_key(devices, d, t)),
{
    let mut keys: Vec<u64> = Vec::new();
    let count: usize = devices.len();
    let mut d: usize = 0;
    while d < count
        invariant
            devices.wf(polys),
            count == devices.devices(),
            d <= count,
            forall|k: u64| #[trigger]
                keys@.contains(k) ==> key_drives(devices, k) && k / 0x1_0000_0000 < NO_NET,
            forall|e: int, t: int|
                e < d && #[trigger] is_drain(devices, e, t) ==> keys@.contains(
                    drain_key(devices, e, t),
                ),
        decreases count - d,
    {
        let gate: u32 = find_gate(devices, d, Ghost(polys));
        let lo: usize = devices.terminal_start[d] as usize;
        let hi: usize = devices.terminal_start[d + 1] as usize;
        let mut t: usize = lo;
        while t < hi
            invariant
                devices.wf(polys),
                d < devices.devices(),
                gate == gate_of(devices, d as int),
                lo == devices.term_lo(d as int),
                hi == devices.term_hi(d as int),
                lo <= t <= hi <= devices.terminal_net@.len(),
                forall|k: u64| #[trigger]
                    keys@.contains(k) ==> key_drives(devices, k) && k / 0x1_0000_0000 < NO_NET,
                forall|e: int, s: int|
                    (e < d || (e == d && s < t)) && #[trigger] is_drain(devices, e, s)
                        ==> keys@.contains(drain_key(devices, e, s)),
            decreases hi - t,
        {
            let net = devices.terminal_net[t].0;
            let drain: bool = match devices.terminal_role[t] {
                TerminalRole::Drain => true,
                _ => false,
            };
            if drain && net != NO_NET {
                let ghost before = keys@;
                let key: u64 = net as u64 * 0x1_0000_0000 + gate as u64;
                keys.push(key);
                proof {
                    assert(is_drain(devices, d as int, t as int));
                    assert(key == drain_key(devices, d as int, t as int));
                    assert(key / 0x1_0000_0000 == net && key % 0x1_0000_0000 == gate);
                    assert(key_drives(devices, key));
                    assert(keys@[before.len() as int] == key);
                    assert forall|k: u64| before.contains(k) implies keys@.contains(k) by {
                        let x = choose|x: int| 0 <= x < before.len() && before[x] == k;
                        assert(keys@[x] == k);
                    }
                    assert forall|k: u64| #[trigger] keys@.contains(k) implies key_drives(
                        devices,
                        k,
                    ) && k / 0x1_0000_0000 < NO_NET by {
                        let x = choose|x: int| 0 <= x < keys@.len() && keys@[x] == k;
                        if x < before.len() {
                            assert(before.contains(k)) by {
                                assert(before[x] == k);
                            }
                        }
                    }
                }
            }
            t = t + 1;
        }
        d = d + 1;
    }
    keys
}

/// Whether a column of keys holds exactly the drains' keys, ascending.
spec fn keys_wf(devices: &DeviceTable, keys: Seq<u64>) -> bool {
    &&& ascending(keys)
    &&& forall|i: int|
        0 <= i < keys.len() ==> key_drives(devices, #[trigger] keys[i]) && keys[i]
            / 0x1_0000_0000 < NO_NET
    &&& keys_complete(devices, keys)
}

#[verifier::opaque]
spec fn keys_complete(devices: &DeviceTable, keys: Seq<u64>) -> bool {
    forall|d: int, t: int| #[trigger]
        is_drain(devices, d, t) ==> keys.contains(drain_key(devices, d, t))
}

/// Where the key of one driven net and one gate driving it stands.
proof fn lemma_drain_key_present(
    devices: &DeviceTable,
    keys: Seq<u64>,
    net: u32,
    g: u32,
) -> (x: int)
    requires
        keys_complete(devices, keys),
        drives(devices, net, g),
    ensures
        0 <= x < keys.len(),
        keys[x] / 0x1_0000_0000 == net,
        keys[x] % 0x1_0000_0000 == g,
{
    reveal(keys_complete);
    let (d, t) = choose|d: int, t: int| #[trigger]
        is_drain(devices, d, t) && devices.terminal_net@[t].0 == net && gate_of(devices, d) == g;
    let key = drain_key(devices, d, t);
    assert(key / 0x1_0000_0000 == net && key % 0x1_0000_0000 == g);
    assert(keys.contains(key));
    choose|x: int| 0 <= x < keys.len() && keys[x] == key
}

/// The end of the run of keys sharing one net, and how many gates it holds.
fn count_group(devices: &DeviceTable, keys: &Vec<u64>, first: usize) -> (r: (usize, u32))
    requires
        keys_wf(devices, keys@),
        first < keys@.len(),
        forall|i: int|
            0 <= i < first ==> #[trigger] keys@[i] / 0x1_0000_0000 < keys@[first as int]
                / 0x1_0000_0000,
    ensures
        first < r.0 <= keys@.len(),
        forall|i: int|
            first <= i < r.0 ==> #[trigger] keys@[i] / 0x1_0000_0000 == keys@[first as int]
                / 0x1_0000_0000,
        forall|i: int|
            r.0 <= i < keys@.len() ==> #[trigger] keys@[i] / 0x1_0000_0000 > keys@[first as int]
                / 0x1_0000_0000,
        r.1 == drivers(devices, (keys@[first as int] / 0x1_0000_0000) as u32),
{
    let net: u32 = (keys[first] / 0x1_0000_0000) as u32;
    let ghost mut gates: Seq<u32> = Seq::empty();
    let mut count: u32 = 0;
    let mut end: usize = first;
    while end < keys.len() && keys[end] / 0x1_0000_0000 == net as u64
        invariant
            keys_wf(devices, keys@),
            first < keys@.len(),
            net == keys@[first as int] / 0x1_0000_0000,
            net < NO_NET,
            first <= end <= keys@.len(),
            forall|i: int| first <= i < end ==> #[trigger] keys@[i] / 0x1_0000_0000 == net,
            count == gates.len(),
            forall|i: int, j: int| 0 <= i < j < gates.len() ==> gates[i] < gates[j],
            forall|i: int|
                0 <= i < gates.len() ==> #[trigger] gates[i] < NO_NET && driver_of(devices, net)(
                    gates[i] as int,
                ),
            forall|i: int|
                0 <= i < gates.len() && end < keys@.len() && keys@[end as int] / 0x1_0000_0000
                    == net ==> #[trigger] gates[i] < keys@[end as int] % 0x1_0000_0000,
            forall|i: int|
                first <= i < end && #[trigger] keys@[i] % 0x1_0000_0000 < NO_NET ==> gates.contains(
                    (keys@[i] % 0x1_0000_0000) as u32,
                ),
        decreases keys@.len() - end,
    {
        let gate: u32 = (keys[end] % 0x1_0000_0000) as u32;
        let ghost before = gates;
        proof {
            assert(key_drives(devices, keys@[end as int]));
            if end + 1 < keys@.len() {
                assert(keys@[end as int] < keys@[end + 1]);
            }
            lemma_ascending_bound(before, gate);
        }
        if gate != NO_NET {
            count = count + 1;
            proof {
                gates = before.push(gate);
                assert(gates[before.len() as int] == gate);
                assert forall|k: u32| before.contains(k) implies gates.contains(k) by {
                    let x = choose|x: int| 0 <= x < before.len() && before[x] == k;
                    assert(gates[x] == k);
                }
            }
        }
        end = end + 1;
    }
    proof {
        assert forall|i: int| end <= i < keys@.len() implies #[trigger] keys@[i] / 0x1_0000_0000
            > net by {
            assert(keys@[first as int] < keys@[end as int]);
            if i > end {
                assert(keys@[end as int] < keys@[i]);
            }
        }
        let keep = driver_of(devices, net);
        assert forall|k: u32| k < NO_NET && #[trigger] keep(k as int) implies gates.contains(k) by {
            let x = lemma_drain_key_present(devices, keys@, net, k);
            assert(keys@[x] / 0x1_0000_0000 == net);
            assert(first <= x < end);
        }
        lemma_kept_is(NO_NET as nat, keep, gates);
    }
    (end, count)
}

proof fn lemma_keys_wf(devices: &DeviceTable, raw: Seq<u64>, keys: Seq<u64>)
    requires
        forall|k: u64| #[trigger] raw.contains(k) ==> key_drives(devices, k) && k
            / 0x1_0000_0000 < NO_NET,
        forall|d: int, t: int| #[trigger]
            is_drain(devices, d, t) ==> raw.contains(drain_key(devices, d, t)),
        ascending(keys),
        forall|k: u64| keys.contains(k) <==> raw.contains(k),
    ensures
        keys_wf(devices, keys),
{
    reveal(keys_complete);
    assert forall|i: int| 0 <= i < keys.len() implies key_drives(devices, #[trigger] keys[i])
        && keys[i] / 0x1_0000_0000 < NO_NET by {
        assert(keys.contains(keys[i]));
        assert(raw.contains(keys[i]));
    }
}

proof fn lemma_nets_complete(devices: &DeviceTable, keys: Seq<u64>, nets: Seq<u32>)
    requires
        keys_complete(devices, keys),
        forall|i: int, j: int| 0 <= i < j < nets.len() ==> nets[i] < nets[j],
        forall|i: int|
            0 <= i < nets.len() ==> #[trigger] nets[i] < NO_NET && driven(devices)(nets[i] as int),
        forall|i: int|
            0 <= i < keys.len() ==> nets.contains((#[trigger] keys[i] / 0x1_0000_0000) as u32),
    ensures
        nets == kept(NO_NET as nat, driven(devices)),
{
    let keep = driven(devices);
    assert forall|k: u32| k < NO_NET && #[trigger] keep(k as int) implies nets.contains(k) by {
        lemma_net_present(devices, keys, nets, k);
    }
    lemma_kept_is(NO_NET as nat, keep, nets);
}

proof fn lemma_net_present(devices: &DeviceTable, keys: Seq<u64>, nets: Seq<u32>, k: u32)
    requires
        keys_complete(devices, keys),
        forall|i: int|
            0 <= i < keys.len() ==> nets.contains((#[trigger] keys[i] / 0x1_0000_0000) as u32),
        driven(devices)(k as int),
    ensures
        nets.contains(k),
{
    let g = choose|g: u32| #[trigger] drives(devices, k, g);
    let x = lemma_drain_key_present(devices, keys, k, g);
    assert(nets.contains((keys[x] / 0x1_0000_0000) as u32));
}

/// The driven nets and how many distinct gates drive each.
fn count_drivers(devices: &DeviceTable, Ghost(polys): Ghost<int>) -> (r: (Vec<u32>, Vec<u32>))
    requires
        devices.wf(polys),
    ensures
        r.0@ == kept(NO_NET as nat, driven(devices)),
        r.1@.len() == r.0@.len(),
        forall|i: int| 0 <= i < r.0@.len() ==> #[trigger] r.1@[i] == drivers(devices, r.0@[i]),
{
    let raw = drain_keys(devices, Ghost(polys));
    let keys = sorted_distinct(&raw);
    let mut nets: Vec<u32> = Vec::new();
    let mut counts: Vec<u32> = Vec::new();
    let mut read: usize = 0;
    proof {
        lemma_keys_wf(devices, raw@, keys@);
    }
    while read < keys.len()
        invariant
            keys_wf(devices, keys@),
            read <= keys@.len(),
            counts@.len() == nets@.len(),
            forall|i: int, j: int| 0 <= i < j < nets@.len() ==> nets@[i] < nets@[j],
            forall|i: int|
                0 <= i < nets@.len() ==> #[trigger] nets@[i] < NO_NET && driven(devices)(
                    nets@[i] as int,
                ),
            forall|i: int|
                0 <= i < nets@.len() ==> #[trigger] counts@[i] == drivers(devices, nets@[i]),
            forall|i: int|
                0 <= i < read ==> nets@.contains((#[trigger] keys@[i] / 0x1_0000_0000) as u32),
            forall|i: int|
                0 <= i < nets@.len() && read < keys@.len() ==> #[trigger] nets@[i]
                    < keys@[read as int] / 0x1_0000_0000,
        decreases keys@.len() - read,
    {
        let net: u32 = (keys[read] / 0x1_0000_0000) as u32;
        proof {
            assert(key_drives(devices, keys@[read as int]));
            assert(driven(devices)(net as int));
            assert forall|i: int| 0 <= i < read implies #[trigger] keys@[i] / 0x1_0000_0000
                < keys@[read as int] / 0x1_0000_0000 by {
                let k = (keys@[i] / 0x1_0000_0000) as u32;
                assert(nets@.contains(k));
                let y = choose|y: int| 0 <= y < nets@.len() && nets@[y] == k;
                assert(nets@[y] < keys@[read as int] / 0x1_0000_0000);
            }
        }
        let (end, count) = count_group(devices, &keys, read);
        let ghost before = nets@;
        nets.push(net);
        counts.push(count);
        proof {
            assert(nets@[before.len() as int] == net);
            assert forall|i: int| 0 <= i < end implies nets@.contains(
                (#[trigger] keys@[i] / 0x1_0000_0000) as u32,
            ) by {
                let k = (keys@[i] / 0x1_0000_0000) as u32;
                if i < read {
                    assert(before.contains(k));
                    let x = choose|x: int| 0 <= x < before.len() && before[x] == k;
                    assert(nets@[x] == k);
                } else {
                    assert(k == net);
                }
            }
        }
        read = end;
    }
    proof {
        lemma_nets_complete(devices, keys@, nets@);
    }
    (nets, counts)
}

/// A strictly ascending list below a bound is no longer than the bound.
proof fn lemma_ascending_bound(s: Seq<u32>, bound: u32)
    requires
        forall|i: int, j: int| 0 <= i < j < s.len() ==> s[i] < s[j],
        forall|i: int| 0 <= i < s.len() ==> #[trigger] s[i] < bound,
    ensures
        s.len() <= bound,
    decreases s.len(),
{
    if s.len() > 0 {
        let t = s.drop_last();
        assert forall|i: int| 0 <= i < t.len() implies #[trigger] t[i] < s.last() by {
            assert(s[i] < s[s.len() - 1]);
        }
        lemma_ascending_bound(t, s.last());
    }
}

/// Flag every net driven from more than `max_drivers` distinct gate nets.
///
/// A row examines the driven nets. A drain gated by nothing makes its net
/// driven without counting as a driver.
pub fn check_multiple_drivers(
    design: Design,
    table: &MultipleDriversTable,
    out: &mut Violations,
    runs: &mut Vec<RuleRun>,
)
    requires
        design.wf(),
        table.wf(),
        overdriven_in(design, table),
    ensures
        final(out)@ == old(out)@ + all_found(multiple_drivers_results(design, table)),
        final(runs)@ == old(runs)@ + all_runs(
            table.head.rule@,
            multiple_drivers_results(design, table),
        ),
{
    let (nets, counts) = count_drivers(design.devices, Ghost(design.store.polys()));
    proof {
        lemma_kept(NO_NET as nat, driven(design.devices));
        assert forall|row: int, i: int|
            #![trigger nets@[i], table.max_drivers@[row]]
            0 <= row < table.head.rows() && 0 <= i < nets@.len() && counts@[i]
                > table.max_drivers@[row] implies nets@[i] < design.nets.nets() by {
            let g = choose|g: u32| #[trigger] drives(design.devices, nets@[i], g);
            let (d, t) = choose|d: int, t: int| #[trigger]
                is_drain(design.devices, d, t) && design.devices.terminal_net@[t].0 == nets@[i]
                    && gate_of(design.devices, d) == g;
            assert(is_drain(design.devices, d, t));
        }
    }
    let ghost results = multiple_drivers_results(design, table);
    let rows: usize = table.head.len();
    let mut row: usize = 0;
    assert(out@ =~= old(out)@ + all_found(results.take(0)));
    assert(runs@ =~= old(runs)@ + all_runs(table.head.rule@, results.take(0)));
    while row < rows
        invariant
            design.wf(),
            table.wf(),
            rows == table.head.rule@.len(),
            row <= rows,
            nets@ == kept(NO_NET as nat, driven(design.devices)),
            nets@.len() <= NO_NET,
            counts@.len() == nets@.len(),
            forall|i: int|
                0 <= i < nets@.len() ==> #[trigger] counts@[i] == drivers(design.devices, nets@[i]),
            forall|row: int, i: int|
                #![trigger nets@[i], table.max_drivers@[row]]
                0 <= row < table.head.rows() && 0 <= i < nets@.len() && counts@[i]
                    > table.max_drivers@[row] ==> nets@[i] < design.nets.nets(),
            results == multiple_drivers_results(design, table),
            out@ == old(out)@ + all_found(results.take(row as int)),
            runs@ == old(runs)@ + all_runs(table.head.rule@, results.take(row as int)),
        decreases rows - row,
    {
        let before: usize = out.len();
        let rule = table.head.rule[row];
        let severity = table.head.severity[row];
        let max: u32 = table.max_drivers[row];
        let ghost start = out@;
        let mut i: usize = 0;
        assert(max == table.max_drivers@[row as int]);
        assert(out@ =~= start + overdriven(design, nets@.take(0), max, rule, severity));
        while i < nets.len()
            invariant
                design.wf(),
                i <= nets@.len(),
                counts@.len() == nets@.len(),
                forall|i: int|
                    0 <= i < nets@.len() ==> #[trigger] counts@[i] == drivers(
                        design.devices,
                        nets@[i],
                    ),
                forall|i: int|
                    0 <= i < nets@.len() && counts@[i] > max ==> #[trigger] nets@[i]
                        < design.nets.nets(),
                out@ == start + overdriven(design, nets@.take(i as int), max, rule, severity),
            decreases nets@.len() - i,
        {
            if counts[i] > max {
                push_net_violation(
                    design,
                    nets[i],
                    rule,
                    severity,
                    Measurement::Count(counts[i]),
                    Measurement::Count(max),
                    out,
                );
            }
            proof {
                let now = nets@.take(i + 1);
                assert(now.drop_last() =~= nets@.take(i as int));
                assert(out@ =~= start + overdriven(design, now, max, rule, severity));
            }
            i = i + 1;
        }
        assert(nets@.take(i as int) =~= nets@);
        record_run(runs, out, before, rule, Outcome::Ran, nets.len() as u64);
        proof {
            lemma_next_row(table.head.rule@, results, row as int);
            assert(out@ =~= old(out)@ + all_found(results.take(row + 1)));
            assert(runs@ =~= old(runs)@ + all_runs(table.head.rule@, results.take(row + 1)));
        }
        row = row + 1;
    }
    assert(results.take(rows as int) =~= results);
}

/// A well with no tap tying it to a supply.
pub struct FloatingWellTable {
    pub head: RuleHead,
    /// The region that must be tied.
    pub well: Vec<LayerRef>,
    /// What counts as a tie inside it.
    pub tap: Vec<LayerRef>,
}

impl FloatingWellTable {
    pub open spec fn wf(&self, store: &GeometryStore) -> bool {
        &&& self.head.wf()
        &&& self.well@.len() == self.head.rows()
        &&& self.tap@.len() == self.head.rows()
        &&& forall|i: int|
            0 <= i < self.well@.len() ==> layer_exists(store, #[trigger] self.well@[i])
        &&& forall|i: int|
            0 <= i < self.tap@.len() ==> layer_exists(store, #[trigger] self.tap@[i])
    }
}

/// A well is wound counter-clockwise; a hole in one is its own polygon wound
/// the other way.
pub open spec fn is_well(store: &GeometryStore, p: int) -> bool {
    doubled_area(store.ring(p)) > 0
}

/// Whether polygon `p` is inner to `q`: a smaller box, then one starting
/// further left, then the earlier row.
pub open spec fn inner_to(store: &GeometryStore, p: int, q: int) -> bool {
    let (a, b) = (store.bbox@[p].spec_area(), store.bbox@[q].spec_area());
    let (x, y) = (store.bbox@[p].xlo, store.bbox@[q].xlo);
    a < b || (a == b && (x < y || (x == y && p <= q)))
}

/// Whether polygon `q` is a hole drawn in well `p`: the well is the outer of the two,
/// and their boxes meet.
pub open spec fn is_hole_of(store: &GeometryStore, q: int, p: int) -> bool {
    &&& !is_well(store, q)
    &&& inner_to(store, q, p)
    &&& store.bbox@[p].meets(store.bbox@[q])
}

/// Well `p` as a region: its ring, and the holes of the rows `lo .. hi` drawn in it.
pub open spec fn well_region(store: &GeometryStore, lo: int, hi: int, p: int) -> Seq<Seq<Point>>
    decreases hi - lo,
{
    if hi <= lo {
        seq![store.ring(p)]
    } else {
        let before = well_region(store, lo, hi - 1, p);
        if is_hole_of(store, hi - 1, p) { before.push(store.ring(hi - 1)) } else { before }
    }
}

/// Whether a tap ties well `p`: it lies in the well with every point, none of it out
/// of the ring or in a hole.
pub open spec fn ties(
    store: &GeometryStore,
    lo: int,
    hi: int,
    tap: Seq<Seq<Point>>,
    p: int,
) -> bool {
    lies_in(tap, well_region(store, lo, hi, p))
}

proof fn lemma_well_region(store: &GeometryStore, lo: int, hi: int, p: int)
    ensures
        ({
            let w = well_region(store, lo, hi, p);
            &&& w.len() > 0
            &&& w[0] == store.ring(p)
            &&& forall|q: int|
                lo <= q < hi && is_hole_of(store, q, p) ==> exists|k: int|
                    1 <= k < w.len() && #[trigger] w[k] == #[trigger] store.ring(q)
        }),
    decreases hi - lo,
{
    if hi > lo {
        lemma_well_region(store, lo, hi - 1, p);
        let before = well_region(store, lo, hi - 1, p);
        let w = well_region(store, lo, hi, p);
        assert forall|q: int| lo <= q < hi && is_hole_of(store, q, p) implies exists|k: int|
            1 <= k < w.len() && #[trigger] w[k] == #[trigger] store.ring(q) by {
            if q == hi - 1 {
                assert(w[before.len() as int] == store.ring(q));
            } else {
                let k = choose|k: int|
                    1 <= k < before.len() && #[trigger] before[k] == store.ring(q);
                assert(w[k] == store.ring(q));
            }
        }
    }
}

/// A tap that ties a well is in it with every point: each point strictly inside the
/// tap is strictly inside the well's ring and in no hole drawn in the well, and each
/// point of the tap's boundary is in the well's ring and inside no such hole.
pub proof fn lemma_tap_is_in_its_well(
    store: &GeometryStore,
    lo: int,
    hi: int,
    tap: Seq<Seq<Point>>,
    p: int,
    x: Point,
)
    requires
        ties(store, lo, hi, tap, p),
    ensures
        region_has(tap, x) ==> in_region(store.ring(p), x),
        region_has(tap, x) ==> forall|q: int|
            lo <= q < hi && is_hole_of(store, q, p) ==> !within_ring(#[trigger] store.ring(q), x),
        region_has_inside(tap, x) ==> within_ring(store.ring(p), x),
        region_has_inside(tap, x) ==> forall|q: int|
            lo <= q < hi && is_hole_of(store, q, p) ==> !in_region(#[trigger] store.ring(q), x),
{
    let w = well_region(store, lo, hi, p);
    lemma_well_region(store, lo, hi, p);
    assert(fits_at(tap, w, x));
    assert forall|q: int| lo <= q < hi && is_hole_of(store, q, p) implies (region_has(w, x)
        ==> !within_ring(#[trigger] store.ring(q), x)) && (region_has_inside(w, x) ==> !in_region(
        store.ring(q),
        x,
    )) by {
        let k = choose|k: int| 1 <= k < w.len() && #[trigger] w[k] == store.ring(q);
        assert(w[k] == store.ring(q));
    }
}

/// Whether one of the taps ties well `p`.
pub open spec fn tied(
    store: &GeometryStore,
    lo: int,
    hi: int,
    taps: Seq<Seq<Seq<Point>>>,
    p: int,
) -> bool {
    exists|i: int| 0 <= i < taps.len() && ties(store, lo, hi, #[trigger] taps[i], p)
}

/// The taps a row reads, each as a region, or `None` when its derived layer is
/// missing.
pub open spec fn tap_regions(design: Design, tap: LayerRef) -> Option<Seq<Seq<Seq<Point>>>> {
    match tap {
        LayerRef::Base(l) => {
            let lo = design.store.row_lo(l.0 as int);
            let hi = design.store.row_hi(l.0 as int);
            Some(Seq::new((hi - lo) as nat, |k: int| seq![design.store.ring(lo + k)]))
        },
        LayerRef::Named(name) => match design.derived.lookup(name) {
            Some(shapes) => Some(
                Seq::new(shapes.boxes@.len(), |i: int| polygon_rings(shapes, i)),
            ),
            None => None,
        },
    }
}

/// The untied wells among the rows `lo .. upto`.
pub open spec fn untied_wells(
    design: Design,
    layer: LayerId,
    taps: Seq<Seq<Seq<Point>>>,
    rule: StrId,
    severity: Severity,
    upto: int,
) -> Seq<Violation>
    decreases upto - design.store.row_lo(layer.0 as int),
{
    let lo = design.store.row_lo(layer.0 as int);
    let hi = design.store.row_hi(layer.0 as int);
    if upto <= lo {
        Seq::empty()
    } else {
        let before = untied_wells(design, layer, taps, rule, severity, upto - 1);
        let p = upto - 1;
        if is_well(design.store, p) && !tied(design.store, lo, hi, taps, p) {
            before.push(
                Violation {
                    rule,
                    layer,
                    severity,
                    at: design.store.vertex_at(p, 0),
                    measured: Measurement::Count(0),
                    limit: Measurement::Count(1),
                    shapes: (PolyId(p as u32), None),
                },
            )
        } else {
            before
        }
    }
}

/// How many of the rows `lo .. hi` are wells.
pub open spec fn well_count(store: &GeometryStore, lo: int, hi: int) -> int
    decreases hi - lo,
{
    if hi <= lo {
        0
    } else {
        well_count(store, lo, hi - 1) + if is_well(store, hi - 1) { 1int } else { 0 }
    }
}

/// How one row of a floating-well table ends.
pub open spec fn floating_well_row(
    design: Design,
    table: &FloatingWellTable,
    row: int,
) -> RowResult {
    match (table.well@[row], tap_regions(design, table.tap@[row])) {
        (LayerRef::Base(layer), Some(taps)) => RowResult {
            outcome: Outcome::Ran,
            examined: well_count(
                design.store,
                design.store.row_lo(layer.0 as int),
                design.store.row_hi(layer.0 as int),
            ) as u64,
            found: untied_wells(
                design,
                layer,
                taps,
                table.head.rule@[row],
                table.head.severity@[row],
                design.store.row_hi(layer.0 as int),
            ),
        },
        _ => ended(Outcome::Refused),
    }
}

/// How each row of a floating-well table ends.
pub open spec fn floating_well_results(
    design: Design,
    table: &FloatingWellTable,
) -> Seq<RowResult> {
    Seq::new(table.head.rule@.len(), |row: int| floating_well_row(design, table, row))
}

/// One tap: its rings, and a box around it.
struct Tap {
    rings: Vec<Vec<Point>>,
    bbox: Bbox,
}

impl Tap {
    spec fn wf(self) -> bool {
        &&& region_wf(self.rings@)
        &&& self.bbox.wf()
        &&& forall|i: int|
            0 <= i < self.rings@[0]@.len() ==> self.bbox.has(
                (#[trigger] self.rings@[0]@[i]).x as int,
                self.rings@[0]@[i].y as int,
            )
    }
}

spec fn regions(taps: Seq<Tap>) -> Seq<Seq<Seq<Point>>> {
    Seq::new(taps.len(), |i: int| rings_of(taps[i].rings@))
}

spec fn taps_wf(taps: Seq<Tap>) -> bool {
    forall|i: int| 0 <= i < taps.len() ==> (#[trigger] taps[i]).wf()
}

/// A polygon's vertices lie in its box.
proof fn lemma_ring_in_box(store: &GeometryStore, p: int)
    requires
        store.wf(),
        0 <= p < store.polys(),
    ensures
        forall|i: int|
            0 <= i < store.ring(p).len() ==> store.bbox@[p].has(
                (#[trigger] store.ring(p)[i]).x as int,
                store.ring(p)[i].y as int,
            ),
{
    let ring = store.ring(p);
    assert forall|i: int| 0 <= i < ring.len() implies store.bbox@[p].has(
        (#[trigger] ring[i]).x as int,
        ring[i].y as int,
    ) by {
        assert(ring[i] == store.vertex_at(p, i));
    }
}

/// Which of a layer's polygons are wells.
fn mark_wells(store: &GeometryStore, lo: u32, hi: u32) -> (marks: Vec<bool>)
    requires
        store.wf(),
        lo <= hi <= store.polys(),
    ensures
        marks@.len() == hi - lo,
        forall|m: int| 0 <= m < marks@.len() ==> #[trigger] marks@[m] == is_well(store, lo + m),
{
    let mut marks: Vec<bool> = Vec::new();
    let mut p: u32 = lo;
    while p < hi
        invariant
            store.wf(),
            lo <= p <= hi <= store.polys(),
            marks@.len() == p - lo,
            forall|m: int|
                0 <= m < marks@.len() ==> #[trigger] marks@[m] == is_well(store, lo + m),
        decreases hi - p,
    {
        let ring = store.poly_verts(PolyId(p));
        assert(store.ring_len(p as int) <= store.xs@.len());
        marks.push(area2(&ring) > 0);
        p = p + 1;
    }
    marks
}

/// Whether polygon `p` is inner to `q`.
fn is_inner(store: &GeometryStore, p: u32, q: u32) -> (r: bool)
    requires
        store.wf(),
        p < store.polys(),
        q < store.polys(),
    ensures
        r == inner_to(store, p as int, q as int),
{
    let (a, b) = (store.poly_bbox(PolyId(p)), store.poly_bbox(PolyId(q)));
    let (s, t): (i128, i128) = (a.area(), b.area());
    s < t || (s == t && (a.xlo < b.xlo || (a.xlo == b.xlo && p <= q)))
}

/// A well as a region.
fn gather_well(store: &GeometryStore, lo: u32, hi: u32, marks: &Vec<bool>, p: u32) -> (r: Vec<
    Vec<Point>,
>)
    requires
        store.wf(),
        lo <= p < hi <= store.polys(),
        marks@.len() == hi - lo,
        forall|m: int| 0 <= m < marks@.len() ==> #[trigger] marks@[m] == is_well(store, lo + m),
    ensures
        region_wf(r@),
        r@[0]@ == store.ring(p as int),
        rings_of(r@) == well_region(store, lo as int, hi as int, p as int),
{
    let mut r: Vec<Vec<Point>> = Vec::new();
    r.push(store.poly_verts(PolyId(p)));
    assert(rings_of(r@) =~= seq![store.ring(p as int)]);
    let mut q: u32 = lo;
    while q < hi
        invariant
            store.wf(),
            lo <= p < hi <= store.polys(),
            lo <= q <= hi,
            marks@.len() == hi - lo,
            forall|m: int|
                0 <= m < marks@.len() ==> #[trigger] marks@[m] == is_well(store, lo + m),
            region_wf(r@),
            r@[0]@ == store.ring(p as int),
            rings_of(r@) == well_region(store, lo as int, q as int, p as int),
        decreases hi - q,
    {
        assert(marks@[q - lo] == is_well(store, lo + (q - lo)));
        let ghost was = r@;
        if !marks[(q - lo) as usize] && is_inner(store, q, p) && store.poly_bbox(
            PolyId(p),
        ).overlaps(store.poly_bbox(PolyId(q))) {
            r.push(store.poly_verts(PolyId(q)));
            assert(rings_of(r@) =~= rings_of(was).push(store.ring(q as int)));
        }
        q = q + 1;
    }
    r
}

/// Whether one of the taps ties a well.
fn is_tied(store: &GeometryStore, lo: u32, hi: u32, marks: &Vec<bool>, taps: &Vec<Tap>, p: u32) -> (r:
    bool)
    requires
        store.wf(),
        lo <= p < hi <= store.polys(),
        marks@.len() == hi - lo,
        forall|m: int| 0 <= m < marks@.len() ==> #[trigger] marks@[m] == is_well(store, lo + m),
        taps_wf(taps@),
    ensures
        r == tied(store, lo as int, hi as int, regions(taps@), p as int),
{
    let well = gather_well(store, lo, hi, marks, p);
    let bbox = store.poly_bbox(PolyId(p));
    let ghost all = regions(taps@);
    proof {
        lemma_ring_in_box(store, p as int);
    }
    let mut i: usize = 0;
    while i < taps.len()
        invariant
            taps_wf(taps@),
            all == regions(taps@),
            region_wf(well@),
            rings_of(well@) == well_region(store, lo as int, hi as int, p as int),
            forall|k: int|
                0 <= k < well@[0]@.len() ==> bbox.has(
                    (#[trigger] well@[0]@[k]).x as int,
                    well@[0]@[k].y as int,
                ),
            i <= taps@.len(),
            forall|k: int|
                0 <= k < i ==> !ties(store, lo as int, hi as int, #[trigger] all[k], p as int),
        decreases taps@.len() - i,
    {
        assert(taps@[i as int].wf());
        assert(all[i as int] == rings_of(taps@[i as int].rings@));
        if region_lies_in(&taps[i].rings, taps[i].bbox, &well, bbox) {
            assert(ties(store, lo as int, hi as int, all[i as int], p as int));
            return true;
        }
        i = i + 1;
    }
    false
}

/// The rings of one polygon of a layer.
fn gather_polygon(shapes: &LayerShapes, i: usize) -> (r: Tap)
    requires
        shapes.wf(),
        i < shapes.boxes@.len(),
    ensures
        r.wf(),
        rings_of(r.rings@) == polygon_rings(*shapes, i as int),
{
    assert(shapes.ring_lo(i as int) < shapes.ring_hi(i as int) <= shapes.rings@.len());
    let starts: usize = shapes.ring_start.len();
    assert(i + 1 < starts);
    let lo: u32 = shapes.ring_start[i];
    let hi: u32 = shapes.ring_start[i + 1];
    let ghost all = polygon_rings(*shapes, i as int);
    let mut rings: Vec<Vec<Point>> = Vec::new();
    let mut k: u32 = lo;
    while k < hi
        invariant
            shapes.wf(),
            i < shapes.boxes@.len(),
            lo == shapes.ring_lo(i as int),
            hi == shapes.ring_hi(i as int),
            all == polygon_rings(*shapes, i as int),
            lo <= k <= hi <= shapes.rings@.len(),
            rings@.len() == k - lo,
            forall|j: int| 0 <= j < rings@.len() ==> (#[trigger] rings@[j])@ == all[j],
            forall|j: int| 0 <= j < rings@.len() ==> ring_wf((#[trigger] rings@[j])@),
        decreases hi - k,
    {
        let ring = shapes.rings[k as usize].clone();
        assert(ring@ =~= shapes.rings@[k as int]@);
        assert(all[k - lo] == shapes.rings@[lo + (k - lo)]@);
        assert forall|j: int| 0 <= j < ring@.len() implies (#[trigger] ring@[j]).wf() by {
            assert(shapes.rings@[k as int]@[j].wf());
        }
        rings.push(ring);
        k = k + 1;
    }
    let bbox = shapes.boxes[i];
    proof {
        assert(rings_of(rings@) =~= all);
        let outer = shapes.outer(i as int);
        assert(rings@[0]@ == outer);
        assert forall|j: int| 0 <= j < rings@[0]@.len() implies bbox.has(
            (#[trigger] rings@[0]@[j]).x as int,
            rings@[0]@[j].y as int,
        ) by {
            assert(shapes.boxes@[i as int].has(
                shapes.outer(i as int)[j].x as int,
                shapes.outer(i as int)[j].y as int,
            ));
        }
    }
    Tap { rings, bbox }
}

/// One polygon of the store as a tap.
fn gather_drawn(store: &GeometryStore, p: u32) -> (r: Tap)
    requires
        store.wf(),
        p < store.polys(),
    ensures
        r.wf(),
        rings_of(r.rings@) == seq![store.ring(p as int)],
{
    let mut rings: Vec<Vec<Point>> = Vec::new();
    rings.push(store.poly_verts(PolyId(p)));
    proof {
        lemma_ring_in_box(store, p as int);
        assert(rings_of(rings@) =~= seq![store.ring(p as int)]);
    }
    Tap { rings, bbox: store.poly_bbox(PolyId(p)) }
}

/// The taps a row reads.
fn gather_taps(design: Design, tap: LayerRef) -> (r: Option<Vec<Tap>>)
    requires
        design.wf(),
        layer_exists(design.store, tap),
    ensures
        r is Some <==> tap_regions(design, tap) is Some,
        r is Some ==> regions((r->0)@) == tap_regions(design, tap)->0,
        r is Some ==> taps_wf((r->0)@),
{
    let ghost all = tap_regions(design, tap);
    let mut taps: Vec<Tap> = Vec::new();
    match tap {
        LayerRef::Base(layer) => {
            let (lo, hi) = design.store.polys_on_layer(layer);
            let mut p: u32 = lo;
            while p < hi
                invariant
                    design.wf(),
                    lo == design.store.row_lo(layer.0 as int),
                    hi == design.store.row_hi(layer.0 as int),
                    lo <= p <= hi <= design.store.polys(),
                    taps@.len() == p - lo,
                    taps_wf(taps@),
                    forall|k: int|
                        0 <= k < taps@.len() ==> rings_of((#[trigger] taps@[k]).rings@) == seq![
                            design.store.ring(lo + k),
                        ],
                decreases hi - p,
            {
                taps.push(gather_drawn(design.store, p));
                p = p + 1;
            }
            assert(regions(taps@) =~= all->0);
            Some(taps)
        },
        LayerRef::Named(name) => {
            assert(design.derived.wf(design.store.layers()));
            match design.derived.get(name) {
                Some(shapes) => {
                    let mut i: usize = 0;
                    while i < shapes.boxes.len()
                        invariant
                            shapes.wf(),
                            i <= shapes.boxes@.len(),
                            taps@.len() == i,
                            taps_wf(taps@),
                            forall|k: int|
                                0 <= k < taps@.len() ==> rings_of((#[trigger] taps@[k]).rings@)
                                    == polygon_rings(*shapes, k),
                        decreases shapes.boxes@.len() - i,
                    {
                        taps.push(gather_polygon(shapes, i));
                        i = i + 1;
                    }
                    assert(regions(taps@) =~= all->0);
                    Some(taps)
                },
                None => None,
            }
        },
    }
}

fn check_well_row(
    design: Design,
    layer: LayerId,
    taps: &Vec<Tap>,
    rule: StrId,
    severity: Severity,
    out: &mut Violations,
) -> (examined: u64)
    requires
        design.wf(),
        layer.0 < design.store.layers(),
        taps_wf(taps@),
    ensures
        examined == well_count(
            design.store,
            design.store.row_lo(layer.0 as int),
            design.store.row_hi(layer.0 as int),
        ),
        final(out)@ == old(out)@ + untied_wells(
            design,
            layer,
            regions(taps@),
            rule,
            severity,
            design.store.row_hi(layer.0 as int),
        ),
{
    let (lo, hi) = design.store.polys_on_layer(layer);
    let marks = mark_wells(design.store, lo, hi);
    let ghost all = regions(taps@);
    let mut examined: u64 = 0;
    let mut p: u32 = lo;
    assert(out@ =~= old(out)@ + untied_wells(design, layer, all, rule, severity, lo as int));
    while p < hi
        invariant
            design.wf(),
            taps_wf(taps@),
            all == regions(taps@),
            lo == design.store.row_lo(layer.0 as int),
            hi == design.store.row_hi(layer.0 as int),
            lo <= p <= hi <= design.store.polys(),
            marks@.len() == hi - lo,
            forall|m: int|
                0 <= m < marks@.len() ==> #[trigger] marks@[m] == is_well(design.store, lo + m),
            examined == well_count(design.store, lo as int, p as int),
            examined <= p - lo,
            out@ == old(out)@ + untied_wells(design, layer, all, rule, severity, p as int),
        decreases hi - p,
    {
        assert(marks@[p - lo] == is_well(design.store, lo + (p - lo)));
        if marks[(p - lo) as usize] {
            examined = examined + 1;
            if !is_tied(design.store, lo, hi, &marks, taps, p) {
                let at = design.store.first_vertex(PolyId(p));
                out.push(
                    Violation {
                        rule,
                        layer,
                        severity,
                        at,
                        measured: Measurement::Count(0),
                        limit: Measurement::Count(1),
                        shapes: (PolyId(p), None),
                    },
                );
            }
        }
        p = p + 1;
        assert(out@ =~= old(out)@ + untied_wells(design, layer, all, rule, severity, p as int));
    }
    examined
}

/// Flag every well polygon containing no tap.
///
/// Exact containment, not box overlap: a tap whose box overlaps an L-shaped
/// well but sits in the notch is not inside it, and a tap that follows the well's
/// bend is. A row examines the wells; a hole is neither examined nor reported, and
/// a tap drawn in one does not tie the well it punctures.
/// A row naming a derived well, or a derived tap layer nobody evaluated, is
/// refused.
pub fn check_floating_well(
    design: Design,
    table: &FloatingWellTable,
    out: &mut Violations,
    runs: &mut Vec<RuleRun>,
)
    requires
        design.wf(),
        table.wf(design.store),
    ensures
        final(out)@ == old(out)@ + all_found(floating_well_results(design, table)),
        final(runs)@ == old(runs)@ + all_runs(
            table.head.rule@,
            floating_well_results(design, table),
        ),
{
    let ghost results = floating_well_results(design, table);
    let rows: usize = table.head.len();
    let mut row: usize = 0;
    assert(out@ =~= old(out)@ + all_found(results.take(0)));
    assert(runs@ =~= old(runs)@ + all_runs(table.head.rule@, results.take(0)));
    while row < rows
        invariant
            design.wf(),
            table.wf(design.store),
            rows == table.head.rule@.len(),
            row <= rows,
            results == floating_well_results(design, table),
            out@ == old(out)@ + all_found(results.take(row as int)),
            runs@ == old(runs)@ + all_runs(table.head.rule@, results.take(row as int)),
        decreases rows - row,
    {
        let before: usize = out.len();
        let rule = table.head.rule[row];
        let severity = table.head.severity[row];
        assert(layer_exists(design.store, table.well@[row as int]));
        assert(layer_exists(design.store, table.tap@[row as int]));
        let taps = gather_taps(design, table.tap[row]);
        let well = base_layer(table.well[row]);
        let mut outcome = Outcome::Refused;
        let mut examined: u64 = 0;
        if let Some(layer) = well {
            if let Some(found) = &taps {
                examined = check_well_row(design, layer, found, rule, severity, out);
                outcome = Outcome::Ran;
            }
        }
        record_run(runs, out, before, rule, outcome, examined);
        proof {
            lemma_next_row(table.head.rule@, results, row as int);
            assert(out@ =~= old(out)@ + all_found(results.take(row + 1)));
            assert(runs@ =~= old(runs)@ + all_runs(table.head.rule@, results.take(row + 1)));
        }
        row = row + 1;
    }
    assert(results.take(rows as int) =~= results);
}

} // verus!
