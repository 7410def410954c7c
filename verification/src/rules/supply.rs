//! Supply, substrate and pad integrity: topological, but geometry-aware.
//!
//! None of these asks which net is a supply, so they always run: a supply short
//! here is an n-type tie and a p-type tie on one conductor, which the deck's tap
//! markers decide.
use crate::design::{
    base_layer, kept, layer_exists, lemma_kept, net_violations, push_net_violations, Design,
};
use crate::facts::{NetFacts, RoleMask};
use crate::model::{LayerId, LayerRef, NetId, PolyId, StrId};
use crate::report::{
    all_found, all_runs, ended, lemma_next_row, record_run, Measurement, Outcome, RowResult,
    RuleRun, Severity, Violation, Violations,
};
use crate::ring::{polys_meet, regions_meet};
use crate::ruleset::RuleHead;
use crate::store::{is_csr, GeometryStore};
use vstd::prelude::*;

verus! {

/// Whether a polygon of one layer is on net `n`.
pub open spec fn touches(design: Design, layer: LayerId, n: int) -> bool {
    exists|p: int|
        design.store.row_lo(layer.0 as int) <= p < design.store.row_hi(layer.0 as int)
            && #[trigger] design.nets.net_of@[p].0 == n
}

/// One flag per net, none set.
fn no_marks(nets: usize) -> (r: Vec<bool>)
    ensures
        r@.len() == nets,
        forall|n: int| 0 <= n < nets ==> !#[trigger] r@[n],
{
    let mut r: Vec<bool> = Vec::new();
    let mut n: usize = 0;
    while n < nets
        invariant
            n <= nets,
            r@.len() == n,
            forall|i: int| 0 <= i < n ==> !#[trigger] r@[i],
        decreases nets - n,
    {
        r.push(false);
        n = n + 1;
    }
    r
}

/// Flag every net a layer's polygons are on.
pub fn mark_layer(design: Design, layer: LayerId, marks: &mut Vec<bool>)
    requires
        design.wf(),
        layer.0 < design.store.layers(),
        old(marks)@.len() == design.nets.nets(),
    ensures
        final(marks)@.len() == old(marks)@.len(),
        forall|n: int|
            0 <= n < design.nets.nets() ==> #[trigger] final(marks)@[n] == (old(marks)@[n]
                || touches(design, layer, n)),
{
    let nets: usize = marks.len();
    if nets == 0 {
        return;
    }
    let (lo, hi) = design.store.polys_on_layer(layer);
    let mut p: u32 = lo;
    while p < hi
        invariant
            design.wf(),
            nets > 0,
            nets == design.nets.nets(),
            marks@.len() == nets,
            lo <= p <= hi <= design.store.polys(),
            forall|n: int|
                0 <= n < nets && old(marks)@[n] ==> #[trigger] marks@[n],
            forall|n: int|
                0 <= n < nets && #[trigger] marks@[n] ==> old(marks)@[n] || exists|q: int|
                    lo <= q < p && #[trigger] design.nets.net_of@[q].0 == n,
            forall|q: int|
                lo <= q < p && (#[trigger] design.nets.net_of@[q]).0 < nets
                    ==> marks@[design.nets.net_of@[q].0 as int],
        decreases hi - p,
    {
        let net = design.nets.net_of[p as usize];
        let ghost before = marks@;
        if (net.0 as usize) < nets {
            marks.set(net.0 as usize, true);
        }
        proof {
            assert forall|n: int| 0 <= n < nets && #[trigger] marks@[n] implies old(marks)@[n]
                || exists|q: int| lo <= q < p + 1 && #[trigger] design.nets.net_of@[q].0 == n by {
                if !before[n] {
                    assert(design.nets.net_of@[p as int].0 == n);
                } else if !old(marks)@[n] {
                    let q = choose|q: int| lo <= q < p && #[trigger] design.nets.net_of@[q].0 == n;
                    assert(design.nets.net_of@[q].0 == n);
                }
            }
        }
        p = p + 1;
    }
    assert forall|n: int| 0 <= n < nets
        && touches(design, layer, n) implies #[trigger] marks@[n] by {
        let q = choose|q: int| lo <= q < hi && #[trigger] design.nets.net_of@[q].0 == n;
        assert(design.nets.net_of@[q].0 < nets);
    }
}

/// One conductor carrying two ties of opposite type.
pub struct SupplyShortTable {
    pub head: RuleHead,
    /// The two ties whose sharing one net is the short.
    pub tap_a: Vec<LayerRef>,
    pub tap_b: Vec<LayerRef>,
}

impl SupplyShortTable {
    pub open spec fn wf(&self, store: &GeometryStore) -> bool {
        &&& self.head.wf()
        &&& self.tap_a@.len() == self.head.rows()
        &&& self.tap_b@.len() == self.head.rows()
        &&& forall|i: int|
            0 <= i < self.tap_a@.len() ==> layer_exists(store, #[trigger] self.tap_a@[i])
        &&& forall|i: int|
            0 <= i < self.tap_b@.len() ==> layer_exists(store, #[trigger] self.tap_b@[i])
    }
}

/// The nets carrying both taps.
pub open spec fn carries_both(design: Design, a: LayerId, b: LayerId) -> spec_fn(int) -> bool {
    |n: int| touches(design, a, n) && touches(design, b, n)
}

/// How many polygons a layer holds.
pub open spec fn layer_len(store: &GeometryStore, layer: LayerId) -> int {
    store.row_hi(layer.0 as int) - store.row_lo(layer.0 as int)
}

/// How one row of a supply-short table ends.
pub open spec fn supply_short_row(design: Design, table: &SupplyShortTable, row: int) -> RowResult {
    match (table.tap_a@[row], table.tap_b@[row]) {
        (LayerRef::Base(a), LayerRef::Base(b)) => RowResult {
            outcome: Outcome::Ran,
            examined: (layer_len(design.store, a) + layer_len(design.store, b)) as u64,
            found: net_violations(
                design,
                kept(design.nets.nets() as nat, carries_both(design, a, b)),
                table.head.rule@[row],
                table.head.severity@[row],
                Measurement::Count(2),
                Measurement::Count(1),
            ),
        },
        _ => ended(Outcome::Refused),
    }
}

/// How each row of a supply-short table ends.
pub open spec fn supply_short_results(design: Design, table: &SupplyShortTable) -> Seq<RowResult> {
    Seq::new(table.head.rule@.len(), |row: int| supply_short_row(design, table, row))
}

fn shorted_nets(design: Design, a: LayerId, b: LayerId) -> (r: Vec<u32>)
    requires
        design.wf(),
        a.0 < design.store.layers(),
        b.0 < design.store.layers(),
    ensures
        r@ == kept(design.nets.nets() as nat, carries_both(design, a, b)),
{
    let nets: usize = design.nets.net_count();
    let mut on_a = no_marks(nets);
    mark_layer(design, a, &mut on_a);
    let mut on_b = no_marks(nets);
    mark_layer(design, b, &mut on_b);
    let mut r: Vec<u32> = Vec::new();
    let mut n: usize = 0;
    while n < nets
        invariant
            n <= nets,
            nets == design.nets.nets(),
            nets < 0xFFFF_FFFF,
            on_a@.len() == nets,
            on_b@.len() == nets,
            forall|n: int| 0 <= n < nets ==> #[trigger] on_a@[n] == touches(design, a, n),
            forall|n: int| 0 <= n < nets ==> #[trigger] on_b@[n] == touches(design, b, n),
            r@ == kept(n as nat, carries_both(design, a, b)),
        decreases nets - n,
    {
        if on_a[n] && on_b[n] {
            r.push(n as u32);
        }
        n = n + 1;
    }
    r
}

/// Flag every net carrying both taps. A row examines both layers' polygons; a
/// row naming a derived layer is refused.
pub fn check_supply_short(
    design: Design,
    table: &SupplyShortTable,
    out: &mut Violations,
    runs: &mut Vec<RuleRun>,
)
    requires
        design.wf(),
        table.wf(design.store),
    ensures
        final(out)@ == old(out)@ + all_found(supply_short_results(design, table)),
        final(runs)@ == old(runs)@ + all_runs(
            table.head.rule@,
            supply_short_results(design, table),
        ),
{
    let ghost results = supply_short_results(design, table);
    let rows: usize = table.head.len();
    let mut row: usize = 0;
    assert(out@ =~= old(out)@ + all_found(results.take(0)));
    assert(runs@ =~= old(runs)@ + all_runs(table.head.rule@, results.take(0)));
    while row < rows
        invariant
            design.wf(),
            table.wf(design.store),
            rows == table.head.rule@.len(),
            row <= rows,
            results == supply_short_results(design, table),
            out@ == old(out)@ + all_found(results.take(row as int)),
            runs@ == old(runs)@ + all_runs(table.head.rule@, results.take(row as int)),
        decreases rows - row,
    {
        let before: usize = out.len();
        let rule = table.head.rule[row];
        assert(layer_exists(design.store, table.tap_a@[row as int]));
        assert(layer_exists(design.store, table.tap_b@[row as int]));
        let mut outcome = Outcome::Refused;
        let mut examined: u64 = 0;
        if let Some(a) = base_layer(table.tap_a[row]) {
            if let Some(b) = base_layer(table.tap_b[row]) {
                let (a0, a1) = design.store.polys_on_layer(a);
                let (b0, b1) = design.store.polys_on_layer(b);
                examined = (a1 - a0) as u64 + (b1 - b0) as u64;
                outcome = Outcome::Ran;
                let flagged = shorted_nets(design, a, b);
                proof {
                    lemma_kept(design.nets.nets() as nat, carries_both(design, a, b));
                }
                push_net_violations(
                    design,
                    &flagged,
                    rule,
                    table.head.severity[row],
                    Measurement::Count(2),
                    Measurement::Count(1),
                    out,
                );
            }
        }
        record_run(runs, out, before, rule, outcome, examined);
        proof {
            lemma_next_row(table.head.rule@, results, row as int);
            assert(out@ =~= old(out)@ + all_found(results.take(row + 1)));
            assert(runs@ =~= old(runs)@ + all_runs(table.head.rule@, results.take(row + 1)));
        }
        row = row + 1;
    }
    assert(results.take(rows as int) =~= results);
}

/// A gate held at a rail with nothing able to drive it.
pub struct TieHighLowTable {
    pub head: RuleHead,
}

/// Whether a net carries a gate and a source terminal but no drain.
pub open spec fn held(facts: &NetFacts) -> spec_fn(int) -> bool {
    |n: int|
        {
            let mask = facts.role@[n].0;
            mask & RoleMask::GATE != 0 && mask & RoleMask::SOURCE != 0 && mask & RoleMask::DRAIN
                == 0
        }
}

/// Whether a net carries a gate terminal.
pub open spec fn gated(facts: &NetFacts) -> spec_fn(int) -> bool {
    |n: int| facts.role@[n].0 & RoleMask::GATE != 0
}

/// How each row of a tie-high-low table ends.
pub open spec fn tie_high_low_results(
    design: Design,
    facts: &NetFacts,
    table: &TieHighLowTable,
) -> Seq<RowResult> {
    Seq::new(
        table.head.rule@.len(),
        |row: int|
            RowResult {
                outcome: Outcome::Ran,
                examined: kept(facts.role@.len(), gated(facts)).len() as u64,
                found: net_violations(
                    design,
                    kept(facts.role@.len(), held(facts)),
                    table.head.rule@[row],
                    table.head.severity@[row],
                    Measurement::Count(0),
                    Measurement::Count(1),
                ),
            },
    )
}

/// Flag every net that is a gate and a source and not a drain. A row examines
/// gate nets.
pub fn check_tie_high_low(
    design: Design,
    facts: &NetFacts,
    table: &TieHighLowTable,
    out: &mut Violations,
    runs: &mut Vec<RuleRun>,
)
    requires
        design.wf(),
        facts.wf(),
        facts.role@.len() == design.nets.nets(),
        table.head.wf(),
    ensures
        final(out)@ == old(out)@ + all_found(tie_high_low_results(design, facts, table)),
        final(runs)@ == old(runs)@ + all_runs(
            table.head.rule@,
            tie_high_low_results(design, facts, table),
        ),
{
    let nets: usize = facts.role.len();
    let both = RoleMask(RoleMask::GATE).union(RoleMask(RoleMask::SOURCE));
    let mut flagged: Vec<u32> = Vec::new();
    let mut examined: u64 = 0;
    let mut i: usize = 0;
    while i < nets
        invariant
            i <= nets,
            nets == facts.role@.len(),
            nets < 0xFFFF_FFFF,
            both.0 == RoleMask::GATE | RoleMask::SOURCE,
            flagged@ == kept(i as nat, held(facts)),
            examined == kept(i as nat, gated(facts)).len(),
            examined <= i,
        decreases nets - i,
    {
        let mask = facts.role[i];
        proof {
            let m = mask.0;
            assert(
                (m & (0x01u8 | 0x02u8) == (0x01u8 | 0x02u8)) == (m & 0x01u8 != 0 && m & 0x02u8 != 0)
            )
                by (bit_vector);
            assert((m & 0x01u8 == 0x01u8) == (m & 0x01u8 != 0)) by (bit_vector);
        }
        if mask.contains(RoleMask(RoleMask::GATE)) {
            examined = examined + 1;
        }
        if mask.contains(both) && !mask.intersects(RoleMask(RoleMask::DRAIN)) {
            flagged.push(i as u32);
        }
        i = i + 1;
    }
    proof {
        lemma_kept(nets as nat, held(facts));
    }
    let ghost results = tie_high_low_results(design, facts, table);
    let rows: usize = table.head.len();
    let mut row: usize = 0;
    assert(out@ =~= old(out)@ + all_found(results.take(0)));
    assert(runs@ =~= old(runs)@ + all_runs(table.head.rule@, results.take(0)));
    while row < rows
        invariant
            design.wf(),
            table.head.wf(),
            rows == table.head.rule@.len(),
            row <= rows,
            results == tie_high_low_results(design, facts, table),
            flagged@ == kept(facts.role@.len(), held(facts)),
            forall|i: int| 0 <= i < flagged@.len() ==> #[trigger] flagged@[i] < design.nets.nets(),
            examined == kept(facts.role@.len(), gated(facts)).len(),
            out@ == old(out)@ + all_found(results.take(row as int)),
            runs@ == old(runs)@ + all_runs(table.head.rule@, results.take(row as int)),
        decreases rows - row,
    {
        let before: usize = out.len();
        let rule = table.head.rule[row];
        push_net_violations(
            design,
            &flagged,
            rule,
            table.head.severity[row],
            Measurement::Count(0),
            Measurement::Count(1),
            out,
        );
        record_run(runs, out, before, rule, Outcome::Ran, examined);
        proof {
            lemma_next_row(table.head.rule@, results, row as int);
            assert(out@ =~= old(out)@ + all_found(results.take(row + 1)));
            assert(runs@ =~= old(runs)@ + all_runs(table.head.rule@, results.take(row + 1)));
        }
        row = row + 1;
    }
    assert(results.take(rows as int) =~= results);
}

/// A pad reaching no protection device.
pub struct EsdTopologicalTable {
    pub head: RuleHead,
    /// The marker layer whose polygons are bond pads or I/O.
    pub pad: Vec<LayerId>,
    /// `clamp_model[clamp_start[i] .. clamp_start[i + 1]]` are the model names
    /// that count as protection for row `i`.
    pub clamp_start: Vec<u32>,
    pub clamp_model: Vec<StrId>,
}

impl EsdTopologicalTable {
    pub open spec fn wf(&self, store: &GeometryStore) -> bool {
        &&& self.head.wf()
        &&& self.pad@.len() == self.head.rows()
        &&& forall|i: int| 0 <= i < self.pad@.len() ==> (#[trigger] self.pad@[i]).0 < store.layers()
        &&& self.head.rows() > 0 ==> is_csr(
            self.clamp_start@,
            self.head.rows(),
            self.clamp_model@.len() as int,
        )
    }

    pub open spec fn clamps(&self, row: int) -> Seq<StrId> {
        self.clamp_model@.subrange(
            self.clamp_start@[row] as int,
            self.clamp_start@[row + 1] as int,
        )
    }
}

/// Whether a device of one of the listed models has a terminal on net `n`.
pub open spec fn protected(design: Design, clamps: Seq<StrId>, n: int) -> bool {
    exists|d: int|
        0 <= d < design.devices.devices() && design.devices.on_net(d, NetId(n as u32))
            && clamps.contains(#[trigger] design.devices.model@[d])
}

/// The nets a pad marker lands on.
pub open spec fn on_pad(design: Design, pad: LayerId) -> spec_fn(int) -> bool {
    |n: int| touches(design, pad, n)
}

/// The pad nets no clamp protects.
pub open spec fn unprotected(design: Design, pad: LayerId, clamps: Seq<StrId>) -> spec_fn(
    int,
) -> bool {
    |n: int| touches(design, pad, n) && !protected(design, clamps, n)
}

/// How each row of a topological ESD table ends.
pub open spec fn esd_topological_results(design: Design, table: &EsdTopologicalTable) -> Seq<
    RowResult,
> {
    Seq::new(
        table.head.rule@.len(),
        |row: int|
            RowResult {
                outcome: Outcome::Ran,
                examined: kept(design.nets.nets() as nat, on_pad(design, table.pad@[row])).len() as u64,
                found: net_violations(
                    design,
                    kept(
                        design.nets.nets() as nat,
                        unprotected(design, table.pad@[row], table.clamps(row)),
                    ),
                    table.head.rule@[row],
                    table.head.severity@[row],
                    Measurement::Count(0),
                    Measurement::Count(1),
                ),
            },
    )
}

fn is_protected(design: Design, models: &Vec<StrId>, from: usize, to: usize, n: u32) -> (r: bool)
    requires
        design.wf(),
        from <= to <= models@.len(),
    ensures
        r == protected(design, models@.subrange(from as int, to as int), n as int),
{
    let ghost clamps = models@.subrange(from as int, to as int);
    let count: usize = design.devices.len();
    let mut d: usize = 0;
    while d < count
        invariant
            design.wf(),
            from <= to <= models@.len(),
            clamps == models@.subrange(from as int, to as int),
            count == design.devices.devices(),
            d <= count,
            forall|e: int|
                0 <= e < d && design.devices.on_net(e, NetId(n)) ==> !clamps.contains(
                    #[trigger] design.devices.model@[e],
                ),
        decreases count - d,
    {
        if design.devices.is_on(d, NetId(n), Ghost(design.store.polys())) {
            let model = design.devices.model[d];
            let mut k: usize = from;
            while k < to
                invariant
                    from <= k <= to <= models@.len(),
                    clamps == models@.subrange(from as int, to as int),
                    design.wf(),
                    d < design.devices.devices(),
                    model == design.devices.model@[d as int],
                    design.devices.on_net(d as int, NetId(n)),
                    forall|j: int| from <= j < k ==> #[trigger] models@[j] != model,
                decreases to - k,
            {
                if models[k] == model {
                    assert(clamps[k - from] == model);
                    assert(clamps.contains(design.devices.model@[d as int]));
                    return true;
                }
                k = k + 1;
            }
            assert(!clamps.contains(model)) by {
                if clamps.contains(model) {
                    let x = choose|x: int| 0 <= x < clamps.len() && clamps[x] == model;
                    assert(models@[from + x] == model);
                }
            }
        }
        d = d + 1;
    }
    false
}

/// Flag every pad net reaching none of the listed clamp models. A row examines
/// the distinct pad nets.
pub fn check_esd_topological(
    design: Design,
    table: &EsdTopologicalTable,
    out: &mut Violations,
    runs: &mut Vec<RuleRun>,
)
    requires
        design.wf(),
        table.wf(design.store),
    ensures
        final(out)@ == old(out)@ + all_found(esd_topological_results(design, table)),
        final(runs)@ == old(runs)@ + all_runs(
            table.head.rule@,
            esd_topological_results(design, table),
        ),
{
    let ghost results = esd_topological_results(design, table);
    let nets: usize = design.nets.net_count();
    let rows: usize = table.head.len();
    let mut row: usize = 0;
    assert(out@ =~= old(out)@ + all_found(results.take(0)));
    assert(runs@ =~= old(runs)@ + all_runs(table.head.rule@, results.take(0)));
    while row < rows
        invariant
            design.wf(),
            table.wf(design.store),
            nets == design.nets.nets(),
            rows == table.head.rule@.len(),
            row <= rows,
            results == esd_topological_results(design, table),
            out@ == old(out)@ + all_found(results.take(row as int)),
            runs@ == old(runs)@ + all_runs(table.head.rule@, results.take(row as int)),
        decreases rows - row,
    {
        let before: usize = out.len();
        let rule = table.head.rule[row];
        let pad = table.pad[row];
        let from: usize = table.clamp_start[row] as usize;
        let to: usize = table.clamp_start[row + 1] as usize;
        let ghost clamps = table.clamps(row as int);
        assert(table.pad@[row as int].0 < design.store.layers());
        let mut marks = no_marks(nets);
        mark_layer(design, pad, &mut marks);
        let mut flagged: Vec<u32> = Vec::new();
        let mut examined: u64 = 0;
        let mut n: usize = 0;
        while n < nets
            invariant
                design.wf(),
                n <= nets,
                nets == design.nets.nets(),
                marks@.len() == nets,
                forall|n: int| 0 <= n < nets ==> #[trigger] marks@[n] == touches(design, pad, n),
                from <= to <= table.clamp_model@.len(),
                clamps == table.clamp_model@.subrange(from as int, to as int),
                flagged@ == kept(n as nat, unprotected(design, pad, clamps)),
                examined == kept(n as nat, on_pad(design, pad)).len(),
                examined <= n,
            decreases nets - n,
        {
            if marks[n] {
                examined = examined + 1;
                if !is_protected(design, &table.clamp_model, from, to, n as u32) {
                    flagged.push(n as u32);
                }
            }
            n = n + 1;
        }
        proof {
            lemma_kept(nets as nat, unprotected(design, pad, clamps));
        }
        push_net_violations(
            design,
            &flagged,
            rule,
            table.head.severity[row],
            Measurement::Count(0),
            Measurement::Count(1),
            out,
        );
        record_run(runs, out, before, rule, Outcome::Ran, examined);
        proof {
            lemma_next_row(table.head.rule@, results, row as int);
            assert(out@ =~= old(out)@ + all_found(results.take(row + 1)));
            assert(runs@ =~= old(runs)@ + all_runs(table.head.rule@, results.take(row + 1)));
        }
        row = row + 1;
    }
    assert(results.take(rows as int) =~= results);
}

/// Two parts of a net joined only through a resistive body.
///
/// The test is a partition, not a distance: remove the soft layers' shapes from
/// the net and ask whether what is left falls into more than one component.
pub struct SoftConnectionTable {
    pub head: RuleHead,
    /// `soft[soft_start[i] .. soft_start[i + 1]]` are row `i`'s resistive
    /// layers.
    pub soft_start: Vec<u32>,
    pub soft: Vec<LayerRef>,
}

impl SoftConnectionTable {
    pub open spec fn wf(&self, store: &GeometryStore) -> bool {
        &&& self.head.wf()
        &&& self.head.rows() > 0 ==> is_csr(
            self.soft_start@,
            self.head.rows(),
            self.soft@.len() as int,
        )
        &&& forall|i: int|
            0 <= i < self.soft@.len() ==> layer_exists(store, #[trigger] self.soft@[i])
    }

    pub open spec fn row_layers(&self, row: int) -> Seq<LayerRef> {
        self.soft@.subrange(self.soft_start@[row] as int, self.soft_start@[row + 1] as int)
    }
}

/// Whether every layer of a list is a base layer.
pub open spec fn all_base(layers: Seq<LayerRef>) -> bool {
    forall|i: int| 0 <= i < layers.len() ==> (#[trigger] layers[i]) is Base
}

/// The polygons of a list not on any of the soft layers, in list order.
pub open spec fn hard_of(store: &GeometryStore, soft: Seq<LayerRef>, polys: Seq<PolyId>) -> Seq<
    PolyId,
>
    decreases polys.len(),
{
    if polys.len() == 0 {
        Seq::empty()
    } else {
        let before = hard_of(store, soft, polys.drop_last());
        if soft.contains(LayerRef::Base(store.layer@[polys.last().0 as int])) {
            before
        } else {
            before.push(polys.last())
        }
    }
}

/// Whether two polygons share a point.
pub open spec fn polys_joined(store: &GeometryStore, p: PolyId, q: PolyId) -> bool {
    store.bbox@[p.0 as int].meets(store.bbox@[q.0 as int]) && regions_meet(
        store.ring(p.0 as int),
        store.ring(q.0 as int),
    )
}

/// Whether the conductors at two positions of a list are joined.
pub open spec fn linked(store: &GeometryStore, hard: Seq<PolyId>, i: int, j: int) -> bool {
    &&& 0 <= i < hard.len()
    &&& 0 <= j < hard.len()
    &&& if i < j {
        polys_joined(store, hard[i], hard[j])
    } else {
        i > j && polys_joined(store, hard[j], hard[i])
    }
}

/// A walk over joined conductors.
pub open spec fn is_walk(store: &GeometryStore, hard: Seq<PolyId>, walk: Seq<int>) -> bool {
    &&& walk.len() > 0
    &&& 0 <= walk[0] < hard.len()
    &&& forall|k: int|
        0 <= k < walk.len() - 1 ==> linked(store, hard, #[trigger] walk[k], walk[k + 1])
}

/// Whether a walk leads from the first conductor to conductor `j`.
pub open spec fn joined_to_first(store: &GeometryStore, hard: Seq<PolyId>, j: int) -> bool {
    exists|walk: Seq<int>| #[trigger]
        is_walk(store, hard, walk) && walk[0] == 0 && walk.last() == j
}

/// Whether conductor `j` is the lowest on the far side of a bridge.
pub open spec fn is_far(store: &GeometryStore, hard: Seq<PolyId>, j: int) -> bool {
    &&& 0 <= j < hard.len()
    &&& !joined_to_first(store, hard, j)
    &&& forall|k: int| 0 <= k < j ==> #[trigger] joined_to_first(store, hard, k)
}

/// What one net reports: the lowest conductor and the lowest one it does not
/// reach without the soft layers.
pub open spec fn bridge_violation(
    store: &GeometryStore,
    hard: Seq<PolyId>,
    rule: StrId,
    severity: Severity,
) -> Seq<Violation> {
    if exists|j: int| is_far(store, hard, j) {
        let far = choose|j: int| is_far(store, hard, j);
        seq![
            Violation {
                rule,
                layer: store.layer@[hard[0].0 as int],
                severity,
                at: store.vertex_at(hard[0].0 as int, 0),
                measured: Measurement::Count(2),
                limit: Measurement::Count(1),
                shapes: (hard[0], Some(hard[far])),
            },
        ]
    } else {
        Seq::empty()
    }
}

/// What a list of nets reports, in list order.
pub open spec fn bridge_violations(
    design: Design,
    soft: Seq<LayerRef>,
    nets: Seq<u32>,
    rule: StrId,
    severity: Severity,
) -> Seq<Violation>
    decreases nets.len(),
{
    if nets.len() == 0 {
        Seq::empty()
    } else {
        bridge_violations(design, soft, nets.drop_last(), rule, severity) + bridge_violation(
            design.store,
            hard_of(design.store, soft, design.nets.members(nets.last() as int)),
            rule,
            severity,
        )
    }
}

/// The nets touching one of the soft layers.
pub open spec fn touches_soft(design: Design, soft: Seq<LayerRef>) -> spec_fn(int) -> bool {
    |n: int|
        exists|i: int|
            0 <= i < soft.len() && touches(design, (#[trigger] soft[i])->Base_0, n)
}

/// How one row of a soft-connection table ends.
pub open spec fn soft_connection_row(
    design: Design,
    table: &SoftConnectionTable,
    row: int,
) -> RowResult {
    let soft = table.row_layers(row);
    if all_base(soft) {
        let nets = kept(design.nets.nets() as nat, touches_soft(design, soft));
        RowResult {
            outcome: Outcome::Ran,
            examined: nets.len() as u64,
            found: bridge_violations(
                design,
                soft,
                nets,
                table.head.rule@[row],
                table.head.severity@[row],
            ),
        }
    } else {
        ended(Outcome::Refused)
    }
}

/// How each row of a soft-connection table ends.
pub open spec fn soft_connection_results(design: Design, table: &SoftConnectionTable) -> Seq<
    RowResult,
> {
    Seq::new(table.head.rule@.len(), |row: int| soft_connection_row(design, table, row))
}

fn is_linked(store: &GeometryStore, hard: &Vec<PolyId>, i: usize, j: usize) -> (r: bool)
    requires
        store.wf(),
        forall|k: int| 0 <= k < hard@.len() ==> (#[trigger] hard@[k]).0 < store.polys(),
        i < hard@.len(),
        j < hard@.len(),
    ensures
        r == linked(store, hard@, i as int, j as int),
{
    if i == j {
        return false;
    }
    let (a, b) = if i < j { (hard[i], hard[j]) } else { (hard[j], hard[i]) };
    if !store.poly_bbox(a).overlaps(store.poly_bbox(b)) {
        return false;
    }
    let ra = store.poly_verts(a);
    let rb = store.poly_verts(b);
    polys_meet(&ra, &rb)
}

/// A set holding the first conductor and closed under joining holds every
/// conductor a walk reaches.
proof fn lemma_walk_reached(
    store: &GeometryStore,
    hard: Seq<PolyId>,
    reached: Seq<bool>,
    walk: Seq<int>,
    k: int,
)
    requires
        reached.len() == hard.len(),
        is_walk(store, hard, walk),
        walk[0] == 0,
        reached[0],
        forall|i: int, j: int|
            0 <= i < hard.len() && reached[i]
                && #[trigger] linked(store, hard, i, j) ==> reached[j],
        0 <= k < walk.len(),
    ensures
        0 <= walk[k] < hard.len(),
        reached[walk[k]],
    decreases k,
{
    if k > 0 {
        lemma_walk_reached(store, hard, reached, walk, k - 1);
        assert(linked(store, hard, walk[k - 1], walk[k - 1 + 1]));
    }
}

/// Which conductors a walk from the first one reaches.
fn reach_from_first(store: &GeometryStore, hard: &Vec<PolyId>) -> (reached: Vec<bool>)
    requires
        store.wf(),
        forall|k: int| 0 <= k < hard@.len() ==> (#[trigger] hard@[k]).0 < store.polys(),
        hard@.len() > 0,
    ensures
        reached@.len() == hard@.len(),
        forall|j: int|
            0 <= j < hard@.len() ==> #[trigger] reached@[j] == joined_to_first(store, hard@, j),
{
    let n: usize = hard.len();
    let mut reached = no_marks(n);
    reached.set(0, true);
    let mut queue: Vec<usize> = Vec::new();
    queue.push(0);
    let mut head: usize = 0;
    proof {
        let walk = seq![0int];
        assert(is_walk(store, hard@, walk) && walk[0] == 0 && walk.last() == 0);
        assert(joined_to_first(store, hard@, 0));
        assert(queue@[0] == 0);
        assert forall|j: int| 0 <= j < n && #[trigger] reached@[j] implies joined_to_first(
            store,
            hard@,
            j,
        ) && exists|k: int| 0 <= k < queue@.len() && #[trigger] queue@[k] == j by {
            assert(j == 0);
            assert(queue@[0] == j);
        }
    }
    while head < queue.len()
        invariant
            store.wf(),
            forall|k: int| 0 <= k < hard@.len() ==> (#[trigger] hard@[k]).0 < store.polys(),
            n == hard@.len(),
            n > 0,
            reached@.len() == n,
            reached@[0],
            head <= queue@.len() <= n,
            forall|k: int|
                0 <= k < queue@.len() ==> (#[trigger] queue@[k]) < n && reached@[queue@[k] as int],
            forall|a: int, b: int|
                0 <= a < b < queue@.len() ==> queue@[a] != queue@[b],
            forall|j: int|
                0 <= j < n && #[trigger] reached@[j] ==> joined_to_first(store, hard@, j)
                    && exists|k: int| 0 <= k < queue@.len() && #[trigger] queue@[k] == j,
            forall|k: int, j: int|
                0 <= k < head && #[trigger] linked(store, hard@, queue@[k] as int, j)
                    ==> reached@[j],
        decreases n - head,
    {
        let at: usize = queue[head];
        let ghost head_queue = queue@;
        let mut m: usize = 0;
        while m < n
            invariant
                store.wf(),
                forall|k: int| 0 <= k < hard@.len() ==> (#[trigger] hard@[k]).0 < store.polys(),
                n == hard@.len(),
                n > 0,
                reached@.len() == n,
                reached@[0],
                at < n,
                reached@[at as int],
                m <= n,
                head < queue@.len() <= n,
                queue@[head as int] == at,
                head_queue.len() <= queue@.len(),
                forall|k: int| 0 <= k < head_queue.len() ==> queue@[k] == head_queue[k],
                forall|k: int|
                    0 <= k < queue@.len() ==> (#[trigger] queue@[k]) < n
                        && reached@[queue@[k] as int],
                forall|a: int, b: int|
                    0 <= a < b < queue@.len() ==> queue@[a] != queue@[b],
                forall|j: int|
                    0 <= j < n && #[trigger] reached@[j] ==> joined_to_first(store, hard@, j)
                        && exists|k: int| 0 <= k < queue@.len() && #[trigger] queue@[k] == j,
                forall|k: int, j: int|
                    0 <= k < head && #[trigger] linked(store, hard@, queue@[k] as int, j)
                        ==> reached@[j],
                forall|j: int|
                    0 <= j < m && #[trigger] linked(store, hard@, at as int, j) ==> reached@[j],
            decreases n - m,
        {
            if !reached[m] && is_linked(store, hard, at, m) {
                let ghost before = queue@;
                let ghost was = reached@;
                proof {
                    assert(joined_to_first(store, hard@, at as int));
                    let walk = choose|walk: Seq<int>| #[trigger]
                        is_walk(store, hard@, walk) && walk[0] == 0 && walk.last() == at;
                    let longer = walk.push(m as int);
                    assert forall|k: int| 0 <= k < longer.len() - 1 implies linked(
                        store,
                        hard@,
                        #[trigger] longer[k],
                        longer[k + 1],
                    ) by {
                        if k < walk.len() - 1 {
                            assert(linked(store, hard@, walk[k], walk[k + 1]));
                        }
                    }
                    assert(is_walk(store, hard@, longer));
                    assert(joined_to_first(store, hard@, m as int));
                    lemma_distinct_bound(before, n, m);
                }
                reached.set(m, true);
                queue.push(m);
                proof {
                    assert(queue@[before.len() as int] == m);
                    assert forall|j: int| 0 <= j < n && #[trigger] reached@[j] implies
                        joined_to_first(store, hard@, j) && exists|k: int|
                            0 <= k < queue@.len() && #[trigger] queue@[k] == j by {
                        if j != m {
                            assert(was[j]);
                            let k = choose|k: int|
                                0 <= k < before.len() && #[trigger] before[k] == j;
                            assert(queue@[k] == j);
                        }
                    }
                }
            }
            m = m + 1;
        }
        head = head + 1;
    }
    assert forall|j: int| 0 <= j < n implies #[trigger] reached@[j] == joined_to_first(
        store,
        hard@,
        j,
    ) by {
        if joined_to_first(store, hard@, j) {
            let walk = choose|walk: Seq<int>| #[trigger]
                is_walk(store, hard@, walk) && walk[0] == 0 && walk.last() == j;
            assert forall|i: int, m: int|
                0 <= i < hard@.len() && reached@[i] && #[trigger] linked(
                    store,
                    hard@,
                    i,
                    m,
                ) implies reached@[m] by {
                let k = choose|k: int| 0 <= k < queue@.len() && #[trigger] queue@[k] == i;
                assert(linked(store, hard@, queue@[k] as int, m));
            }
            lemma_walk_reached(store, hard@, reached@, walk, walk.len() - 1);
        }
    }
    reached
}

/// Distinct numbers below a bound that leave one out are fewer than the bound.
proof fn lemma_distinct_bound(s: Seq<usize>, n: usize, out: usize)
    requires
        forall|k: int| 0 <= k < s.len() ==> (#[trigger] s[k]) < n,
        forall|a: int, b: int| 0 <= a < b < s.len() ==> s[a] != s[b],
        out < n,
        forall|k: int| 0 <= k < s.len() ==> (#[trigger] s[k]) != out,
    ensures
        s.len() < n,
{
    let all = Set::<int>::new(|i: int| 0 <= i < n);
    vstd::set_lib::lemma_int_range(0, n as int);
    let ints = s.map_values(|v: usize| v as int);
    assert(ints.no_duplicates()) by {
        assert forall|a: int, b: int| 0 <= a < ints.len() && 0 <= b < ints.len() && a != b implies
            ints[a] != ints[b] by {
            if a < b {
                assert(s[a] != s[b]);
            } else {
                assert(s[b] != s[a]);
            }
        }
    }
    ints.unique_seq_to_set();
    let rest = vstd::set_lib::set_int_range(0, n as int).remove(out as int);
    assert(ints.to_set().subset_of(rest)) by {
        assert forall|x: int| ints.to_set().contains(x) implies rest.contains(x) by {
            let k = choose|k: int| 0 <= k < ints.len() && ints[k] == x;
            assert(s[k] < n && s[k] != out);
        }
    }
    vstd::set_lib::lemma_len_subset(ints.to_set(), rest);
}

fn push_bridge(
    store: &GeometryStore,
    hard: &Vec<PolyId>,
    rule: StrId,
    severity: Severity,
    out: &mut Violations,
)
    requires
        store.wf(),
        forall|k: int| 0 <= k < hard@.len() ==> (#[trigger] hard@[k]).0 < store.polys(),
    ensures
        final(out)@ == old(out)@ + bridge_violation(store, hard@, rule, severity),
{
    if hard.len() == 0 {
        assert(out@ =~= old(out)@ + bridge_violation(store, hard@, rule, severity));
        return;
    }
    let reached = reach_from_first(store, hard);
    let mut far: usize = 0;
    while far < hard.len() && reached[far]
        invariant
            far <= hard@.len(),
            reached@.len() == hard@.len(),
            forall|j: int|
                0 <= j < hard@.len() ==> #[trigger] reached@[j] == joined_to_first(
                    store,
                    hard@,
                    j,
                ),
            forall|k: int| 0 <= k < far ==> #[trigger] joined_to_first(store, hard@, k),
        decreases hard@.len() - far,
    {
        assert(reached@[far as int] == joined_to_first(store, hard@, far as int));
        far = far + 1;
    }
    if far < hard.len() {
        let poly = hard[0];
        let layer = store.poly_layer(poly);
        let at = store.first_vertex(poly);
        proof {
            assert(reached@[far as int] == joined_to_first(store, hard@, far as int));
            assert(is_far(store, hard@, far as int));
            let c = choose|j: int| is_far(store, hard@, j);
            assert(is_far(store, hard@, c));
            if c < far {
                assert(joined_to_first(store, hard@, c));
            } else if far < c {
                assert(joined_to_first(store, hard@, far as int));
            }
        }
        out.push(
            Violation {
                rule,
                layer,
                severity,
                at,
                measured: Measurement::Count(2),
                limit: Measurement::Count(1),
                shapes: (poly, Some(hard[far])),
            },
        );
    } else {
        assert forall|j: int| !is_far(store, hard@, j) by {
            if is_far(store, hard@, j) {
                assert(joined_to_first(store, hard@, j));
            }
        }
    }
    assert(out@ =~= old(out)@ + bridge_violation(store, hard@, rule, severity));
}

fn hard_polys(
    design: Design,
    layers: &Vec<LayerRef>,
    from: usize,
    to: usize,
    net: u32,
) -> (hard: Vec<PolyId>)
    requires
        design.wf(),
        from <= to <= layers@.len(),
        net < design.nets.nets(),
    ensures
        hard@ == hard_of(
            design.store,
            layers@.subrange(from as int, to as int),
            design.nets.members(net as int),
        ),
        forall|k: int| 0 <= k < hard@.len() ==> (#[trigger] hard@[k]).0 < design.store.polys(),
{
    let ghost soft = layers@.subrange(from as int, to as int);
    let polys = design.nets.polys_of(net, Ghost(design.store.polys()));
    let mut hard: Vec<PolyId> = Vec::new();
    let mut i: usize = 0;
    assert(hard@ =~= hard_of(design.store, soft, polys@.take(0)));
    while i < polys.len()
        invariant
            design.wf(),
            from <= to <= layers@.len(),
            soft == layers@.subrange(from as int, to as int),
            i <= polys@.len(),
            forall|k: int| 0 <= k < polys@.len() ==> (#[trigger] polys@[k]).0 < design.store.polys(),
            forall|k: int| 0 <= k < hard@.len() ==> (#[trigger] hard@[k]).0 < design.store.polys(),
            hard@ == hard_of(design.store, soft, polys@.take(i as int)),
        decreases polys@.len() - i,
    {
        let poly = polys[i];
        let layer = LayerRef::Base(design.store.poly_layer(poly));
        let mut is_soft: bool = false;
        let mut k: usize = from;
        while k < to && !is_soft
            invariant
                from <= k <= to <= layers@.len(),
                is_soft ==> exists|j: int| from <= j < to && #[trigger] layers@[j] == layer,
                !is_soft ==> forall|j: int| from <= j < k ==> #[trigger] layers@[j] != layer,
            decreases to - k + if is_soft { 0int } else { 1 },
        {
            if layers[k] == layer {
                is_soft = true;
            } else {
                k = k + 1;
            }
        }
        if !is_soft {
            hard.push(poly);
        }
        proof {
            if is_soft {
                let j = choose|j: int| from <= j < to && #[trigger] layers@[j] == layer;
                assert(soft[j - from] == layer);
                assert(soft.contains(layer));
            } else if soft.contains(layer) {
                let x = choose|x: int| 0 <= x < soft.len() && soft[x] == layer;
                assert(layers@[from + x] == layer);
            }
            let now = polys@.take(i + 1);
            assert(now.drop_last() =~= polys@.take(i as int));
            assert(now.last() == poly);
        }
        i = i + 1;
    }
    assert(polys@.take(i as int) =~= polys@);
    hard
}

/// Flag every net that falls apart once the resistive layers are removed.
///
/// A violation names the net's lowest remaining conductor and the lowest one it
/// no longer reaches. A row examines the nets touching a soft layer; a row
/// naming a derived layer is refused.
#[verifier::rlimit(30)]
pub fn check_soft_connection(
    design: Design,
    table: &SoftConnectionTable,
    out: &mut Violations,
    runs: &mut Vec<RuleRun>,
)
    requires
        design.wf(),
        table.wf(design.store),
    ensures
        final(out)@ == old(out)@ + all_found(soft_connection_results(design, table)),
        final(runs)@ == old(runs)@ + all_runs(
            table.head.rule@,
            soft_connection_results(design, table),
        ),
{
    let ghost results = soft_connection_results(design, table);
    let rows: usize = table.head.len();
    let mut row: usize = 0;
    assert(out@ =~= old(out)@ + all_found(results.take(0)));
    assert(runs@ =~= old(runs)@ + all_runs(table.head.rule@, results.take(0)));
    while row < rows
        invariant
            design.wf(),
            table.wf(design.store),
            rows == table.head.rule@.len(),
            row <= rows,
            results == soft_connection_results(design, table),
            out@ == old(out)@ + all_found(results.take(row as int)),
            runs@ == old(runs)@ + all_runs(table.head.rule@, results.take(row as int)),
        decreases rows - row,
    {
        let before: usize = out.len();
        let rule = table.head.rule[row];
        let from: usize = table.soft_start[row] as usize;
        let to: usize = table.soft_start[row + 1] as usize;
        let ghost soft = table.row_layers(row as int);
        let touched = soft_nets(design, &table.soft, from, to);
        let mut outcome = Outcome::Refused;
        let mut examined: u64 = 0;
        if let Some(nets) = &touched {
            outcome = Outcome::Ran;
            examined = nets.len() as u64;
            push_bridges(design, &table.soft, from, to, nets, rule, table.head.severity[row], out);
        }
        record_run(runs, out, before, rule, outcome, examined);
        proof {
            lemma_next_row(table.head.rule@, results, row as int);
            assert(out@ =~= old(out)@ + all_found(results.take(row + 1)));
            assert(runs@ =~= old(runs)@ + all_runs(table.head.rule@, results.take(row + 1)));
        }
        row = row + 1;
    }
    assert(results.take(rows as int) =~= results);
}

fn push_bridges(
    design: Design,
    layers: &Vec<LayerRef>,
    from: usize,
    to: usize,
    nets: &Vec<u32>,
    rule: StrId,
    severity: Severity,
    out: &mut Violations,
)
    requires
        design.wf(),
        from <= to <= layers@.len(),
        forall|i: int| 0 <= i < nets@.len() ==> #[trigger] nets@[i] < design.nets.nets(),
    ensures
        final(out)@ == old(out)@ + bridge_violations(
            design,
            layers@.subrange(from as int, to as int),
            nets@,
            rule,
            severity,
        ),
{
    let ghost soft = layers@.subrange(from as int, to as int);
    let mut i: usize = 0;
    assert(out@ =~= old(out)@ + bridge_violations(design, soft, nets@.take(0), rule, severity));
    while i < nets.len()
        invariant
            design.wf(),
            from <= to <= layers@.len(),
            soft == layers@.subrange(from as int, to as int),
            forall|i: int| 0 <= i < nets@.len() ==> #[trigger] nets@[i] < design.nets.nets(),
            i <= nets@.len(),
            out@ == old(out)@ + bridge_violations(
                design,
                soft,
                nets@.take(i as int),
                rule,
                severity,
            ),
        decreases nets@.len() - i,
    {
        let hard = hard_polys(design, layers, from, to, nets[i]);
        push_bridge(design.store, &hard, rule, severity, out);
        proof {
            let now = nets@.take(i + 1);
            assert(now.drop_last() =~= nets@.take(i as int));
            assert(out@ =~= old(out)@ + bridge_violations(design, soft, now, rule, severity));
        }
        i = i + 1;
    }
    assert(nets@.take(i as int) =~= nets@);
}

/// The nets touching one of a row's soft layers, or `None` when one of the
/// layers is derived.
fn soft_nets(
    design: Design,
    layers: &Vec<LayerRef>,
    from: usize,
    to: usize,
) -> (r: Option<Vec<u32>>)
    requires
        design.wf(),
        from <= to <= layers@.len(),
        forall|i: int|
            0 <= i < layers@.len() ==> layer_exists(design.store, #[trigger] layers@[i]),
    ensures
        r is Some <==> all_base(layers@.subrange(from as int, to as int)),
        r is Some ==> (r->0)@ == kept(
            design.nets.nets() as nat,
            touches_soft(design, layers@.subrange(from as int, to as int)),
        ),
        r is Some ==> forall|i: int|
            0 <= i < (r->0)@.len() ==> #[trigger] (r->0)@[i] < design.nets.nets(),
{
    let ghost soft = layers@.subrange(from as int, to as int);
    let nets: usize = design.nets.net_count();
    let mut marks = no_marks(nets);
    let mut k: usize = from;
    while k < to
        invariant
            design.wf(),
            from <= k <= to <= layers@.len(),
            soft == layers@.subrange(from as int, to as int),
            forall|i: int|
                0 <= i < layers@.len() ==> layer_exists(design.store, #[trigger] layers@[i]),
            nets == design.nets.nets(),
            marks@.len() == nets,
            forall|i: int| from <= i < k ==> (#[trigger] layers@[i]) is Base,
            forall|n: int|
                0 <= n < nets ==> #[trigger] marks@[n] == (exists|i: int|
                    0 <= i < k - from && touches(design, (#[trigger] soft[i])->Base_0, n)),
        decreases to - k,
    {
        assert(layer_exists(design.store, layers@[k as int]));
        let ghost before = marks@;
        match layers[k] {
            LayerRef::Base(layer) => {
                mark_layer(design, layer, &mut marks);
                assert forall|n: int| 0 <= n < nets implies #[trigger] marks@[n] == (exists|i: int|
                    0 <= i < k + 1 - from && touches(design, (#[trigger] soft[i])->Base_0, n)) by {
                    assert(soft[k - from] == layers@[k as int]);
                    if before[n] {
                        let i = choose|i: int|
                            0 <= i < k - from && touches(design, (#[trigger] soft[i])->Base_0, n);
                        assert(touches(design, soft[i]->Base_0, n));
                    }
                    if touches(design, layer, n) {
                        assert(touches(design, soft[k - from]->Base_0, n));
                    }
                }
            },
            LayerRef::Named(_) => {
                assert(soft[k - from] == layers@[k as int]);
                assert(!all_base(soft));
                return None;
            },
        }
        k = k + 1;
    }
    assert(all_base(soft)) by {
        assert forall|i: int| 0 <= i < soft.len() implies (#[trigger] soft[i]) is Base by {
            assert(layers@[from + i] is Base);
        }
    }
    let mut r: Vec<u32> = Vec::new();
    let mut n: usize = 0;
    while n < nets
        invariant
            n <= nets,
            nets == design.nets.nets(),
            nets < 0xFFFF_FFFF,
            marks@.len() == nets,
            forall|n: int|
                0 <= n < nets ==> #[trigger] marks@[n] == (exists|i: int|
                    0 <= i < soft.len() && touches(design, (#[trigger] soft[i])->Base_0, n)),
            r@ == kept(n as nat, touches_soft(design, soft)),
        decreases nets - n,
    {
        if marks[n] {
            r.push(n as u32);
        }
        n = n + 1;
    }
    proof {
        lemma_kept(nets as nat, touches_soft(design, soft));
    }
    Some(r)
}

} // verus!
