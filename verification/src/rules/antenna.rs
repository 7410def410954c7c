//! Antenna ratios.
//!
//! A cumulative antenna check is one measurement per fabrication stage over what
//! exists at that stage, so it is spelled as one rule row per stage. Every area
//! is an exact doubled integer; the ratio is formed once, at the comparison,
//! where the doubling cancels.
use crate::design::{layer_exists, Design};
use crate::geom::{centre, centre_of};
use crate::model::{LayerId, LayerRef, PolyId, StrId};
use crate::number::Number;
use crate::report::{
    all_found, all_runs, ended, lemma_next_row, record_run, LimitSense, Measurement, Outcome,
    RowResult, RuleRun, Severity, Violation, Violations,
};
use crate::ring::{area2, doubled_area, PRODUCT_BOUND};
use crate::rules::supply::all_base;
use crate::ruleset::RuleHead;
use crate::store::{is_csr, GeometryStore};
use vstd::prelude::*;

verus! {

/// What an antenna rule counts as collecting area.
#[derive(Clone, Copy, Debug, PartialEq, Eq, Structural)]
pub enum AntennaMeasure {
    /// Horizontal collecting area: the polygon's own area.
    Area,
    /// Vertical etched sidewall: perimeter times layer thickness.
    Sidewall { thickness: i64 },
}

/// Per-stage antenna ratio: one fabrication stage, one collecting set.
pub struct AntennaTable {
    pub head: RuleHead,
    /// Gates, whose area is the denominator.
    pub gate: Vec<LayerRef>,
    /// `collector[collector_start[i] .. collector_start[i + 1]]` and the
    /// parallel `collector_measure` are row `i`'s collecting set.
    pub collector_start: Vec<u32>,
    pub collector: Vec<LayerRef>,
    pub collector_measure: Vec<AntennaMeasure>,
    /// Collecting area over gate area, above which a gate is at risk.
    pub max_ratio: Vec<Number>,
}

impl AntennaTable {
    pub open spec fn wf(&self, store: &GeometryStore) -> bool {
        &&& self.head.wf()
        &&& self.gate@.len() == self.head.rows()
        &&& self.max_ratio@.len() == self.head.rows()
        &&& self.collector_measure@.len() == self.collector@.len()
        &&& self.head.rows() > 0 ==> is_csr(
            self.collector_start@,
            self.head.rows(),
            self.collector@.len() as int,
        )
        &&& forall|i: int|
            0 <= i < self.gate@.len() ==> layer_exists(store, #[trigger] self.gate@[i])
        &&& forall|i: int|
            0 <= i < self.collector@.len() ==> layer_exists(store, #[trigger] self.collector@[i])
    }

    pub open spec fn collectors(&self, row: int) -> Seq<LayerRef> {
        self.collector@.subrange(
            self.collector_start@[row] as int,
            self.collector_start@[row + 1] as int,
        )
    }

    pub open spec fn measures(&self, row: int) -> Seq<AntennaMeasure> {
        self.collector_measure@.subrange(
            self.collector_start@[row] as int,
            self.collector_start@[row + 1] as int,
        )
    }
}

/// Cumulative antenna ratio, with diode credit.
///
/// `ratio = collecting area / gate area - credit * diode area - bonus`.
pub struct AntennaElectricalTable {
    pub head: RuleHead,
    pub gate: Vec<LayerRef>,
    /// `collector[collector_start[i] .. collector_start[i + 1]]` is row `i`'s
    /// collecting set.
    pub collector_start: Vec<u32>,
    pub collector: Vec<LayerRef>,
    /// The protection diode layer, when the deck configures one.
    pub diode: Vec<Option<LayerRef>>,
    /// Ratio credited per unit of diode area.
    pub diode_credit: Vec<Number>,
    /// Flat credit for the presence of any diode.
    pub diode_bonus: Vec<Number>,
    pub max_ratio: Vec<Number>,
}

impl AntennaElectricalTable {
    pub open spec fn wf(&self, store: &GeometryStore) -> bool {
        &&& self.head.wf()
        &&& self.gate@.len() == self.head.rows()
        &&& self.diode@.len() == self.head.rows()
        &&& self.diode_credit@.len() == self.head.rows()
        &&& self.diode_bonus@.len() == self.head.rows()
        &&& self.max_ratio@.len() == self.head.rows()
        &&& self.head.rows() > 0 ==> is_csr(
            self.collector_start@,
            self.head.rows(),
            self.collector@.len() as int,
        )
        &&& forall|i: int|
            0 <= i < self.gate@.len() ==> layer_exists(store, #[trigger] self.gate@[i])
        &&& forall|i: int|
            0 <= i < self.diode@.len() && (#[trigger] self.diode@[i]) is Some ==> layer_exists(
                store,
                self.diode@[i]->0,
            )
        &&& forall|i: int|
            0 <= i < self.collector@.len() ==> layer_exists(store, #[trigger] self.collector@[i])
    }

    pub open spec fn collectors(&self, row: int) -> Seq<LayerRef> {
        self.collector@.subrange(
            self.collector_start@[row] as int,
            self.collector_start@[row + 1] as int,
        )
    }
}

/// The layers one antenna row reads.
pub ghost struct Roles {
    pub gate: LayerId,
    pub collectors: Seq<LayerRef>,
    pub diode: Option<LayerId>,
}

/// Which part of a row an area is summed for.
#[derive(Clone, Copy)]
pub enum Part {
    Gate,
    Collector,
    Diode,
}

impl Roles {
    /// Whether a layer plays a part. A layer that is both a collector and a
    /// diode counts as both.
    pub open spec fn plays(self, part: Part, layer: LayerId) -> bool {
        match part {
            Part::Gate => layer == self.gate,
            Part::Collector => self.collectors.contains(LayerRef::Base(layer)),
            Part::Diode => self.diode == Some(layer),
        }
    }
}

/// Twice the area a list of polygons has on the layers playing a part.
pub open spec fn part_area(
    store: &GeometryStore,
    polys: Seq<PolyId>,
    roles: Roles,
    part: Part,
) -> int
    decreases polys.len(),
{
    if polys.len() == 0 {
        0
    } else {
        let p = polys.last().0 as int;
        part_area(store, polys.drop_last(), roles, part) + if roles.plays(part, store.layer@[p]) {
            doubled_area(store.ring(p))
        } else {
            0
        }
    }
}

/// How a ratio is adjusted before it is compared.
pub ghost struct Credit {
    /// Whether the row names a protection diode at all.
    pub applies: bool,
    pub credit: Number,
    pub bonus: Number,
}

/// The antenna ratio of one net, as compared and reported.
///
/// The diode terms are for the presence of a diode: a net carrying none has the
/// plain division.
pub open spec fn net_ratio(design: Design, roles: Roles, adjust: Credit, n: int) -> Number {
    let polys = design.nets.members(n);
    let gate = part_area(design.store, polys, roles, Part::Gate);
    let plain = Number::of_spec(part_area(design.store, polys, roles, Part::Collector)).over_spec(
        Number::of_spec(if gate < 1 { 1 } else { gate }),
    );
    let diode = part_area(design.store, polys, roles, Part::Diode);
    if adjust.applies && diode > 0 {
        plain.minus_spec(adjust.credit.times_spec(Number::of_spec(diode / 2))).minus_spec(
            adjust.bonus,
        )
    } else {
        plain
    }
}

/// Whether a net carries gate area.
pub open spec fn is_gate_net(design: Design, roles: Roles, n: int) -> bool {
    part_area(design.store, design.nets.members(n), roles, Part::Gate) > 0
}

/// The lowest polygon of a list on a gate layer.
pub open spec fn first_gate(store: &GeometryStore, polys: Seq<PolyId>, gate: LayerId) -> Option<
    PolyId,
>
    decreases polys.len(),
{
    if polys.len() == 0 {
        None
    } else {
        match first_gate(store, polys.drop_last(), gate) {
            Some(p) => Some(p),
            None => if store.layer@[polys.last().0 as int] == gate {
                Some(polys.last())
            } else {
                None
            },
        }
    }
}

/// What the nets below `n` report, in net order: at its gate, not its wire.
pub open spec fn ratio_violations(
    design: Design,
    roles: Roles,
    adjust: Credit,
    limit: Number,
    rule: StrId,
    severity: Severity,
    n: nat,
) -> Seq<Violation>
    decreases n,
{
    if n == 0 {
        Seq::empty()
    } else {
        let m = n - 1;
        let before = ratio_violations(design, roles, adjust, limit, rule, severity, m as nat);
        let ratio = net_ratio(design, roles, adjust, m);
        if is_gate_net(design, roles, m) && limit.lt(ratio) {
            let poly = first_gate(design.store, design.nets.members(m), roles.gate)->0;
            before.push(
                Violation {
                    rule,
                    layer: roles.gate,
                    severity,
                    at: centre_of(design.store.bbox@[poly.0 as int]),
                    measured: Measurement::Ratio(ratio),
                    limit: Measurement::Ratio(limit),
                    shapes: (poly, None),
                },
            )
        } else {
            before
        }
    }
}

/// How many of the nets below `n` carry gate area.
pub open spec fn gate_nets(design: Design, roles: Roles, n: nat) -> int
    decreases n,
{
    if n == 0 {
        0
    } else {
        gate_nets(design, roles, (n - 1) as nat) + if is_gate_net(design, roles, n - 1) {
            1int
        } else {
            0
        }
    }
}

/// How a row that runs ends.
pub open spec fn ratio_row(
    design: Design,
    roles: Roles,
    adjust: Credit,
    limit: Number,
    rule: StrId,
    severity: Severity,
) -> RowResult {
    let n = design.nets.nets() as nat;
    RowResult {
        outcome: Outcome::Ran,
        examined: gate_nets(design, roles, n) as u64,
        found: ratio_violations(design, roles, adjust, limit, rule, severity, n),
    }
}

/// Whether a row mixes in a sidewall measure, whose unit against a gate area is
/// unstated.
pub open spec fn has_sidewall(measures: Seq<AntennaMeasure>) -> bool {
    exists|i: int| 0 <= i < measures.len() && (#[trigger] measures[i]) is Sidewall
}

/// How one row of an antenna table ends.
pub open spec fn antenna_row(design: Design, table: &AntennaTable, row: int) -> RowResult {
    let collectors = table.collectors(row);
    match table.gate@[row] {
        LayerRef::Base(gate) => if all_base(collectors) && !has_sidewall(table.measures(row)) {
            ratio_row(
                design,
                Roles { gate, collectors, diode: None },
                Credit { applies: false, credit: Number { bits: 0 }, bonus: Number { bits: 0 } },
                table.max_ratio@[row],
                table.head.rule@[row],
                table.head.severity@[row],
            )
        } else {
            ended(Outcome::Refused)
        },
        LayerRef::Named(_) => ended(Outcome::Refused),
    }
}

/// How each row of an antenna table ends.
pub open spec fn antenna_results(design: Design, table: &AntennaTable) -> Seq<RowResult> {
    Seq::new(table.head.rule@.len(), |row: int| antenna_row(design, table, row))
}

/// How one row of a cumulative antenna table ends. A row whose verdict rests on
/// a diode credit is refused, because the unit of the area it multiplies is
/// unstated.
pub open spec fn antenna_electrical_row(
    design: Design,
    table: &AntennaElectricalTable,
    row: int,
) -> RowResult {
    let collectors = table.collectors(row);
    let credit = table.diode_credit@[row];
    match table.gate@[row] {
        LayerRef::Base(gate) => if all_base(collectors) && !(table.diode@[row] matches Some(d) && (d
            is Named || credit.pattern() != 0)) {
            ratio_row(
                design,
                Roles {
                    gate,
                    collectors,
                    diode: match table.diode@[row] {
                        Some(LayerRef::Base(l)) => Some(l),
                        _ => None,
                    },
                },
                Credit {
                    applies: table.diode@[row] is Some,
                    credit,
                    bonus: table.diode_bonus@[row],
                },
                table.max_ratio@[row],
                table.head.rule@[row],
                table.head.severity@[row],
            )
        } else {
            ended(Outcome::Refused)
        },
        LayerRef::Named(_) => ended(Outcome::Refused),
    }
}

/// How each row of a cumulative antenna table ends.
pub open spec fn antenna_electrical_results(
    design: Design,
    table: &AntennaElectricalTable,
) -> Seq<RowResult> {
    Seq::new(table.head.rule@.len(), |row: int| antenna_electrical_row(design, table, row))
}

/// A rule row's collecting set as one flag per layer, or `None` when any of it
/// is derived.
fn collector_flags(store: &GeometryStore, layers: &Vec<LayerRef>, from: usize, to: usize) -> (r: Option<
    Vec<bool>,
>)
    requires
        store.wf(),
        from <= to <= layers@.len(),
        forall|i: int| 0 <= i < layers@.len() ==> layer_exists(store, #[trigger] layers@[i]),
    ensures
        r is Some <==> all_base(layers@.subrange(from as int, to as int)),
        r is Some ==> (r->0)@.len() == store.layers(),
        r is Some ==> forall|l: int|
            0 <= l < store.layers() ==> #[trigger] (r->0)@[l] == layers@.subrange(
                from as int,
                to as int,
            ).contains(LayerRef::Base(LayerId(l as u32))),
{
    let ghost listed = layers@.subrange(from as int, to as int);
    let count: usize = store.layer_count();
    let mut flags: Vec<bool> = Vec::new();
    let mut l: usize = 0;
    while l < count
        invariant
            l <= count,
            flags@.len() == l,
            forall|i: int| 0 <= i < l ==> !#[trigger] flags@[i],
        decreases count - l,
    {
        flags.push(false);
        l = l + 1;
    }
    let mut k: usize = from;
    while k < to
        invariant
            store.wf(),
            count == store.layers(),
            from <= k <= to <= layers@.len(),
            listed == layers@.subrange(from as int, to as int),
            forall|i: int| 0 <= i < layers@.len() ==> layer_exists(store, #[trigger] layers@[i]),
            flags@.len() == count,
            forall|i: int| from <= i < k ==> (#[trigger] layers@[i]) is Base,
            forall|i: int| from <= i < k ==> flags@[(#[trigger] layers@[i])->Base_0.0 as int],
            forall|l: int|
                0 <= l < count && #[trigger] flags@[l] ==> listed.contains(
                    LayerRef::Base(LayerId(l as u32)),
                ),
        decreases to - k,
    {
        assert(layer_exists(store, layers@[k as int]));
        assert(listed[k - from] == layers@[k as int]);
        match layers[k] {
            LayerRef::Base(layer) => {
                flags.set(layer.0 as usize, true);
            },
            LayerRef::Named(_) => {
                assert(!all_base(listed));
                return None;
            },
        }
        k = k + 1;
    }
    proof {
        assert forall|i: int| 0 <= i < listed.len() implies (#[trigger] listed[i]) is Base by {
            assert(layers@[from + i] is Base);
        }
        assert forall|l: int| 0 <= l < count implies #[trigger] flags@[l] == listed.contains(
            LayerRef::Base(LayerId(l as u32)),
        ) by {
            let want = LayerRef::Base(LayerId(l as u32));
            if listed.contains(want) {
                let x = choose|x: int| 0 <= x < listed.len() && listed[x] == want;
                assert(layers@[from + x] == want);
                assert(flags@[layers@[from + x]->Base_0.0 as int]);
            }
        }
    }
    Some(flags)
}

/// The areas of the first `n` polygons of an ascending list are bounded by the
/// vertices they have.
spec fn vertex_bound(store: &GeometryStore, polys: Seq<PolyId>, n: int) -> int {
    if n == 0 { 0 } else { store.vert_start@[polys[n - 1].0 as int + 1] as int }
}

/// Doubled gate, collecting and diode areas of one net, and its lowest gate
/// polygon.
fn net_areas(
    design: Design,
    n: u32,
    gate: LayerId,
    flags: &Vec<bool>,
    diode: Option<LayerId>,
    Ghost(roles): Ghost<Roles>,
) -> (r: (i128, i128, i128, Option<PolyId>))
    requires
        design.wf(),
        n < design.nets.nets(),
        gate == roles.gate,
        diode == roles.diode,
        flags@.len() == design.store.layers(),
        forall|l: int|
            0 <= l < design.store.layers() ==> #[trigger] flags@[l] == roles.collectors.contains(
                LayerRef::Base(LayerId(l as u32)),
            ),
    ensures
        r.0 == part_area(design.store, design.nets.members(n as int), roles, Part::Gate),
        r.1 == part_area(design.store, design.nets.members(n as int), roles, Part::Collector),
        r.2 == part_area(design.store, design.nets.members(n as int), roles, Part::Diode),
        r.3 == first_gate(design.store, design.nets.members(n as int), gate),
        r.3 is Some ==> (r.3->0).0 < design.store.polys(),
        r.0 > 0 ==> r.3 is Some,
        -0x1_0000_0000 * PRODUCT_BOUND <= r.0 <= 0x1_0000_0000 * PRODUCT_BOUND,
        -0x1_0000_0000 * PRODUCT_BOUND <= r.1 <= 0x1_0000_0000 * PRODUCT_BOUND,
        -0x1_0000_0000 * PRODUCT_BOUND <= r.2 <= 0x1_0000_0000 * PRODUCT_BOUND,
{
    let store = design.store;
    let polys = design.nets.polys_of(n, Ghost(store.polys()));
    let ghost members = design.nets.members(n as int);
    let (mut g, mut c, mut d): (i128, i128, i128) = (0, 0, 0);
    let mut first: Option<PolyId> = None;
    let mut i: usize = 0;
    assert(members.take(0) =~= Seq::empty());
    while i < polys.len()
        invariant
            design.wf(),
            store == design.store,
            n < design.nets.nets(),
            members == design.nets.members(n as int),
            polys@ == members,
            forall|k: int| 0 <= k < polys@.len() ==> (#[trigger] polys@[k]).0 < store.polys(),
            gate == roles.gate,
            diode == roles.diode,
            flags@.len() == store.layers(),
            forall|l: int|
                0 <= l < store.layers() ==> #[trigger] flags@[l] == roles.collectors.contains(
                    LayerRef::Base(LayerId(l as u32)),
                ),
            i <= polys@.len(),
            g == part_area(store, members.take(i as int), roles, Part::Gate),
            c == part_area(store, members.take(i as int), roles, Part::Collector),
            d == part_area(store, members.take(i as int), roles, Part::Diode),
            first == first_gate(store, members.take(i as int), gate),
            first is Some ==> (first->0).0 < store.polys(),
            first is None ==> g == 0,
            0 <= vertex_bound(store, members, i as int) <= 0xFFFF_FFFF,
            -vertex_bound(store, members, i as int) * PRODUCT_BOUND <= g <= vertex_bound(
                store,
                members,
                i as int,
            ) * PRODUCT_BOUND,
            -vertex_bound(store, members, i as int) * PRODUCT_BOUND <= c <= vertex_bound(
                store,
                members,
                i as int,
            ) * PRODUCT_BOUND,
            -vertex_bound(store, members, i as int) * PRODUCT_BOUND <= d <= vertex_bound(
                store,
                members,
                i as int,
            ) * PRODUCT_BOUND,
        decreases polys@.len() - i,
    {
        let poly = polys[i];
        let layer = store.poly_layer(poly);
        let ring = store.poly_verts(poly);
        assert(store.ring_len(poly.0 as int) <= store.xs@.len());
        let area: i128 = area2(&ring);
        proof {
            let now = members.take(i + 1);
            assert(now.drop_last() =~= members.take(i as int));
            assert(now.last() == poly);
            if i > 0 {
                assert(members[i - 1].0 < members[i as int].0);
                assert(store.vert_start@[members[i - 1].0 as int + 1]
                    <= store.vert_start@[poly.0 as int]);
            }
            let before = vertex_bound(store, members, i as int);
            let after = vertex_bound(store, members, i + 1);
            assert(before + ring@.len() <= after);
            assert(after <= 0xFFFF_FFFF);
        }
        if layer == gate {
            g = g + area;
            if first.is_none() {
                first = Some(poly);
            }
        }
        if flags[layer.0 as usize] {
            c = c + area;
        }
        match diode {
            Some(l) => {
                if l == layer {
                    d = d + area;
                }
            },
            None => {},
        }
        i = i + 1;
    }
    assert(members.take(i as int) =~= members);
    (g, c, d, first)
}

/// Divide once per net, compare, and report at its gate.
fn report_ratios(
    design: Design,
    gate: LayerId,
    flags: &Vec<bool>,
    diode: Option<LayerId>,
    applies: bool,
    credit: Number,
    bonus: Number,
    limit: Number,
    rule: StrId,
    severity: Severity,
    out: &mut Violations,
    Ghost(roles): Ghost<Roles>,
) -> (examined: u64)
    requires
        design.wf(),
        gate == roles.gate,
        diode == roles.diode,
        flags@.len() == design.store.layers(),
        forall|l: int|
            0 <= l < design.store.layers() ==> #[trigger] flags@[l] == roles.collectors.contains(
                LayerRef::Base(LayerId(l as u32)),
            ),
    ensures
        examined == gate_nets(design, roles, design.nets.nets() as nat),
        final(out)@ == old(out)@ + ratio_violations(
            design,
            roles,
            Credit { applies, credit, bonus },
            limit,
            rule,
            severity,
            design.nets.nets() as nat,
        ),
{
    let ghost adjust = Credit { applies, credit, bonus };
    let nets: usize = design.nets.net_count();
    let mut examined: u64 = 0;
    let mut n: usize = 0;
    assert(out@ =~= old(out)@ + ratio_violations(design, roles, adjust, limit, rule, severity, 0));
    while n < nets
        invariant
            design.wf(),
            nets == design.nets.nets(),
            n <= nets,
            gate == roles.gate,
            diode == roles.diode,
            adjust == (Credit { applies, credit, bonus }),
            flags@.len() == design.store.layers(),
            forall|l: int|
                0 <= l < design.store.layers() ==> #[trigger] flags@[l]
                    == roles.collectors.contains(LayerRef::Base(LayerId(l as u32))),
            examined == gate_nets(design, roles, n as nat),
            examined <= n,
            out@ == old(out)@ + ratio_violations(
                design,
                roles,
                adjust,
                limit,
                rule,
                severity,
                n as nat,
            ),
        decreases nets - n,
    {
        let (g, c, d, first) = net_areas(design, n as u32, gate, flags, diode, Ghost(roles));
        let mut ratio = Number::of(c).over(Number::of(if g < 1 { 1 } else { g }));
        if applies && d > 0 {
            ratio = ratio.minus(credit.times(Number::of(d / 2))).minus(bonus);
        }
        assert(ratio == net_ratio(design, roles, adjust, n as int));
        if g > 0 {
            examined = examined + 1;
            if Measurement::Ratio(ratio).violates(Measurement::Ratio(limit), LimitSense::Maximum) {
                if let Some(poly) = first {
                    let at = centre(design.store.poly_bbox(poly));
                    out.push(
                        Violation {
                            rule,
                            layer: gate,
                            severity,
                            at,
                            measured: Measurement::Ratio(ratio),
                            limit: Measurement::Ratio(limit),
                            shapes: (poly, None),
                        },
                    );
                }
            }
        }
        n = n + 1;
        assert(out@ =~= old(out)@ + ratio_violations(
            design,
            roles,
            adjust,
            limit,
            rule,
            severity,
            n as nat,
        ));
    }
    examined
}

fn any_sidewall(measures: &Vec<AntennaMeasure>, from: usize, to: usize) -> (r: bool)
    requires
        from <= to <= measures@.len(),
    ensures
        r == has_sidewall(measures@.subrange(from as int, to as int)),
{
    let ghost listed = measures@.subrange(from as int, to as int);
    let mut k: usize = from;
    while k < to
        invariant
            from <= k <= to <= measures@.len(),
            listed == measures@.subrange(from as int, to as int),
            forall|i: int| 0 <= i < k - from ==> !((#[trigger] listed[i]) is Sidewall),
        decreases to - k,
    {
        assert(listed[k - from] == measures@[k as int]);
        match measures[k] {
            AntennaMeasure::Sidewall { .. } => {
                return true;
            },
            AntennaMeasure::Area => {},
        }
        k = k + 1;
    }
    false
}

/// Per-stage antenna ratio, per gate net.
///
/// A row examines the nets carrying gate area. A row naming a derived layer or
/// a sidewall measure is refused.
pub fn check_antenna(
    design: Design,
    table: &AntennaTable,
    out: &mut Violations,
    runs: &mut Vec<RuleRun>,
)
    requires
        design.wf(),
        table.wf(design.store),
    ensures
        final(out)@ == old(out)@ + all_found(antenna_results(design, table)),
        final(runs)@ == old(runs)@ + all_runs(table.head.rule@, antenna_results(design, table)),
{
    let ghost results = antenna_results(design, table);
    let rows: usize = table.head.len();
    let mut row: usize = 0;
    assert(out@ =~= old(out)@ + all_found(results.take(0)));
    assert(runs@ =~= old(runs)@ + all_runs(table.head.rule@, results.take(0)));
    while row < rows
        invariant
            design.wf(),
            table.wf(design.store),
            rows == table.head.rule@.len(),
            row <= rows,
            results == antenna_results(design, table),
            out@ == old(out)@ + all_found(results.take(row as int)),
            runs@ == old(runs)@ + all_runs(table.head.rule@, results.take(row as int)),
        decreases rows - row,
    {
        let before: usize = out.len();
        let rule = table.head.rule[row];
        let from: usize = table.collector_start[row] as usize;
        let to: usize = table.collector_start[row + 1] as usize;
        assert(layer_exists(design.store, table.gate@[row as int]));
        let mut outcome = Outcome::Refused;
        let mut examined: u64 = 0;
        if let LayerRef::Base(gate) = table.gate[row] {
            if let Some(flags) = collector_flags(design.store, &table.collector, from, to) {
                if !any_sidewall(&table.collector_measure, from, to) {
                    let ghost roles = Roles {
                        gate,
                        collectors: table.collectors(row as int),
                        diode: None,
                    };
                    examined = report_ratios(
                        design,
                        gate,
                        &flags,
                        None,
                        false,
                        Number { bits: 0 },
                        Number { bits: 0 },
                        table.max_ratio[row],
                        rule,
                        table.head.severity[row],
                        out,
                        Ghost(roles),
                    );
                    outcome = Outcome::Ran;
                }
            }
        }
        record_run(runs, out, before, rule, outcome, examined);
        proof {
            lemma_next_row(table.head.rule@, results, row as int);
            assert(out@ =~= old(out)@ + all_found(results.take(row + 1)));
            assert(runs@ =~= old(runs)@ + all_runs(table.head.rule@, results.take(row + 1)));
        }
        row = row + 1;
    }
    assert(results.take(rows as int) =~= results);
}

/// Cumulative antenna ratio, per gate net, with the diode terms applied to the
/// ratio.
///
/// A row examines the nets carrying gate area. A row naming a derived layer, or
/// one whose verdict rests on a diode credit, is refused.
pub fn check_antenna_electrical(
    design: Design,
    table: &AntennaElectricalTable,
    out: &mut Violations,
    runs: &mut Vec<RuleRun>,
)
    requires
        design.wf(),
        table.wf(design.store),
    ensures
        final(out)@ == old(out)@ + all_found(antenna_electrical_results(design, table)),
        final(runs)@ == old(runs)@ + all_runs(
            table.head.rule@,
            antenna_electrical_results(design, table),
        ),
{
    let ghost results = antenna_electrical_results(design, table);
    let rows: usize = table.head.len();
    let mut row: usize = 0;
    assert(out@ =~= old(out)@ + all_found(results.take(0)));
    assert(runs@ =~= old(runs)@ + all_runs(table.head.rule@, results.take(0)));
    while row < rows
        invariant
            design.wf(),
            table.wf(design.store),
            rows == table.head.rule@.len(),
            row <= rows,
            results == antenna_electrical_results(design, table),
            out@ == old(out)@ + all_found(results.take(row as int)),
            runs@ == old(runs)@ + all_runs(table.head.rule@, results.take(row as int)),
        decreases rows - row,
    {
        let before: usize = out.len();
        let rule = table.head.rule[row];
        let from: usize = table.collector_start[row] as usize;
        let to: usize = table.collector_start[row + 1] as usize;
        let credit = table.diode_credit[row];
        assert(layer_exists(design.store, table.gate@[row as int]));
        let refused: bool = match table.diode[row] {
            Some(LayerRef::Named(_)) => true,
            Some(LayerRef::Base(_)) => !credit.is_zero(),
            None => false,
        };
        let diode: Option<LayerId> = match table.diode[row] {
            Some(LayerRef::Base(l)) => Some(l),
            _ => None,
        };
        let mut outcome = Outcome::Refused;
        let mut examined: u64 = 0;
        if let LayerRef::Base(gate) = table.gate[row] {
            if let Some(flags) = collector_flags(design.store, &table.collector, from, to) {
                if !refused {
                    let ghost roles = Roles {
                        gate,
                        collectors: table.collectors(row as int),
                        diode,
                    };
                    examined = report_ratios(
                        design,
                        gate,
                        &flags,
                        diode,
                        table.diode[row].is_some(),
                        credit,
                        table.diode_bonus[row],
                        table.max_ratio[row],
                        rule,
                        table.head.severity[row],
                        out,
                        Ghost(roles),
                    );
                    outcome = Outcome::Ran;
                }
            }
        }
        record_run(runs, out, before, rule, outcome, examined);
        proof {
            lemma_next_row(table.head.rule@, results, row as int);
            assert(out@ =~= old(out)@ + all_found(results.take(row + 1)));
            assert(runs@ =~= old(runs)@ + all_runs(table.head.rule@, results.take(row + 1)));
        }
        row = row + 1;
    }
    assert(results.take(rows as int) =~= results);
}

} // verus!
