//! Rules about surviving conditions the layout does not contain. Every one of
//! them is gated on design intent.
use crate::clearance::{clear_of, lemma_clear_of, ring_clear_of};
use crate::design::{Design, LayerShapes};
use crate::geom::{Bbox, Point};
use crate::intent::IntentMap;
use crate::model::{LayerId, NetId, StrId};
use crate::number::{Number, INFINITE, ONE, SIGN};
use crate::power::network::{all_finite, is_all_finite, Solved};
use crate::report::{
    all_ended, all_found, all_runs, ended, lemma_all_ended, lemma_next_row, record_run,
    skip_rows, LimitSense, Measurement, Outcome, RowResult, RuleRun, Severity, SkipReason,
    Violation, Violations,
};
use crate::ring::{inside, inside_ring, ring_wf};
use crate::rules::electrical::BOLTZMANN_EV_PER_K;
use crate::ruleset::RuleHead;
use vstd::prelude::*;

verus! {

/// Lifetime under sustained stress: one inverse-power-and-Arrhenius model,
/// parameterised per row. The applied stress comes from the solve.
pub struct ReliabilityTable {
    pub head: RuleHead,
    /// How long the design must last.
    pub required_lifetime_hours: Vec<Number>,
    /// The mechanism's name.
    pub mechanism: Vec<StrId>,
    /// The characterised point: this lifetime, at this stress in millivolts.
    pub reference_lifetime_hours: Vec<Number>,
    pub reference_stress: Vec<Number>,
    /// Exponent of the inverse-power law.
    pub stress_exponent: Vec<Number>,
    /// Kelvin.
    pub reference_temperature: Vec<Number>,
    pub activation_energy_ev: Vec<Number>,
    /// Fraction of the lifetime spent under stress.
    pub duty_cycle: Vec<Number>,
    /// Millivolts above which the oxide is out of specification.
    pub max_abs_voltage: Vec<Number>,
}

impl ReliabilityTable {
    pub open spec fn wf(&self) -> bool {
        &&& self.head.wf()
        &&& self.required_lifetime_hours@.len() == self.head.rows()
        &&& self.mechanism@.len() == self.head.rows()
        &&& self.reference_lifetime_hours@.len() == self.head.rows()
        &&& self.reference_stress@.len() == self.head.rows()
        &&& self.stress_exponent@.len() == self.head.rows()
        &&& self.reference_temperature@.len() == self.head.rows()
        &&& self.activation_energy_ev@.len() == self.head.rows()
        &&& self.duty_cycle@.len() == self.head.rows()
        &&& self.max_abs_voltage@.len() == self.head.rows()
    }
}

/// The power of e the thermal factor is: `Ea / k * (1/T - 1/T_ref)`.
pub open spec fn thermal_power(energy: Number, applied: Number, reference: Number) -> Number {
    let one = Number { bits: ONE };
    energy.over_spec(Number { bits: BOLTZMANN_EV_PER_K }).times_spec(
        one.over_spec(applied).minus_spec(one.over_spec(reference)),
    )
}

/// The power of e a row's thermal factor is.
pub fn thermal_argument(energy: Number, applied: Number, reference: Number) -> (r: Number)
    ensures
        r == thermal_power(energy, applied, reference),
{
    let one = Number { bits: ONE };
    energy.over(Number { bits: BOLTZMANN_EV_PER_K }).times(
        one.over(applied).minus(one.over(reference)),
    )
}

/// The base of the inverse-power law: characterised stress over applied.
pub open spec fn stress_base(reference: Number, stress: Number) -> Number {
    reference.over_spec(stress.magnitude_spec())
}

/// The base of the inverse-power law at one node.
pub fn stress_argument(reference: Number, stress: Number) -> (r: Number)
    ensures
        r == stress_base(reference, stress),
{
    reference.over(stress.absolute())
}

/// The two transcendental factors of the lifetime model, evaluated per row.
pub struct LifetimeFactors {
    /// `e` raised to [`thermal_argument`], per row.
    pub thermal: Vec<Number>,
    /// [`stress_argument`] raised to the row's exponent, per row and node.
    pub stress: Vec<Vec<Number>>,
}

impl LifetimeFactors {
    pub open spec fn fits(&self, rows: int, nodes: int) -> bool {
        &&& self.thermal@.len() == rows
        &&& self.stress@.len() == rows
        &&& forall|r: int| 0 <= r < rows ==> (#[trigger] self.stress@[r])@.len() == nodes
    }
}

/// Hours a node at exactly the characterised stress would last.
pub open spec fn unit_lifetime(table: &ReliabilityTable, thermal: Number, row: int) -> Number {
    table.reference_lifetime_hours@[row].times_spec(thermal).over_spec(table.duty_cycle@[row])
}

/// Whether a row's parameters are a lifetime model at all.
pub open spec fn row_usable(
    table: &ReliabilityTable,
    applied: Number,
    thermal: Number,
    row: int,
) -> bool {
    let zero = Number { bits: 0 };
    let unit = unit_lifetime(table, thermal, row);
    &&& zero.le(table.duty_cycle@[row])
    &&& table.duty_cycle@[row].le(Number { bits: ONE })
    &&& zero.lt(applied)
    &&& zero.lt(table.reference_temperature@[row])
    &&& zero.lt(table.reference_stress@[row])
    &&& table.stress_exponent@[row].finite()
    &&& table.required_lifetime_hours@[row].finite()
    &&& zero.lt(table.required_lifetime_hours@[row])
    &&& table.max_abs_voltage@[row].finite()
    &&& unit.finite()
    &&& zero.lt(unit)
}

/// The predicted lifetime of every node.
pub open spec fn lifetimes(unit: Number, stress: Seq<Number>) -> Seq<Number> {
    Seq::new(stress.len(), |i: int| unit.times_spec(stress[i]))
}

/// What one node reports: the voltage cap, then the predicted lifetime.
pub open spec fn stress_found(
    solved: Solved,
    table: &ReliabilityTable,
    hours: Number,
    row: int,
    node: int,
) -> Seq<Violation> {
    let applied = Measurement::Voltage(solved.solution.node_voltage@[node].magnitude_spec());
    let cap = Measurement::Voltage(table.max_abs_voltage@[row]);
    let predicted = Measurement::Ratio(hours);
    let required = Measurement::Ratio(table.required_lifetime_hours@[row]);
    let over = if applied.breaks(cap, LimitSense::Maximum) {
        seq![stress_violation(solved, table, applied, cap, row, node)]
    } else {
        Seq::empty()
    };
    let short = if predicted.breaks(required, LimitSense::Minimum) {
        seq![stress_violation(solved, table, predicted, required, row, node)]
    } else {
        Seq::empty()
    };
    over + short
}

pub open spec fn stress_violation(
    solved: Solved,
    table: &ReliabilityTable,
    measured: Measurement,
    limit: Measurement,
    row: int,
    node: int,
) -> Violation {
    Violation {
        rule: table.head.rule@[row],
        layer: solved.grid.node_layer@[node],
        severity: table.head.severity@[row],
        at: solved.grid.node_at@[node],
        measured,
        limit,
        shapes: (solved.grid.node_poly@[node], None),
    }
}

/// What the first `n` nodes report.
pub open spec fn stresses_found(
    solved: Solved,
    table: &ReliabilityTable,
    hours: Seq<Number>,
    row: int,
    n: nat,
) -> Seq<Violation>
    decreases n,
{
    if n == 0 {
        Seq::empty()
    } else {
        stresses_found(solved, table, hours, row, (n - 1) as nat) + stress_found(
            solved,
            table,
            hours[n - 1],
            row,
            n - 1,
        )
    }
}

/// What one lifetime row finds.
pub open spec fn reliability_row(
    solved: Solved,
    applied: Number,
    factors: &LifetimeFactors,
    table: &ReliabilityTable,
    row: int,
) -> RowResult {
    let unit = unit_lifetime(table, factors.thermal@[row], row);
    let hours = lifetimes(unit, factors.stress@[row]@);
    if row_usable(table, applied, factors.thermal@[row], row) && all_finite(hours) {
        RowResult {
            outcome: Outcome::Ran,
            examined: solved.grid.nodes() as u64,
            found: stresses_found(solved, table, hours, row, solved.grid.nodes() as nat),
        }
    } else {
        ended(Outcome::Refused)
    }
}

pub open spec fn reliability_results(
    power: Option<Solved>,
    intent: &IntentMap,
    applied: Number,
    factors: &LifetimeFactors,
    table: &ReliabilityTable,
) -> Seq<RowResult> {
    if power is None || !intent.usable() {
        all_ended(table.head.rule@.len(), Outcome::Skipped(SkipReason::NoDesignIntent))
    } else {
        Seq::new(
            table.head.rule@.len(),
            |row: int| reliability_row(power->0, applied, factors, table, row),
        )
    }
}

/// Whether a row's parameters are a lifetime model at all.
fn is_row_usable(table: &ReliabilityTable, applied: Number, unit: Number, row: usize) -> (r: bool)
    requires
        table.wf(),
        row < table.head.rows(),
    ensures
        forall|thermal: Number|
            unit == #[trigger] unit_lifetime(table, thermal, row as int) ==> r == row_usable(
                table,
                applied,
                thermal,
                row as int,
            ),
{
    let zero = Number { bits: 0 };
    zero.at_most(table.duty_cycle[row]) && table.duty_cycle[row].at_most(Number { bits: ONE })
        && zero.less(applied) && zero.less(table.reference_temperature[row]) && zero.less(
        table.reference_stress[row],
    ) && table.stress_exponent[row].is_finite() && table.required_lifetime_hours[row].is_finite()
        && zero.less(table.required_lifetime_hours[row]) && table.max_abs_voltage[row].is_finite()
        && unit.is_finite() && zero.less(unit)
}

/// Report one node against the cap and the required lifetime.
fn report_stress(
    solved: Solved,
    table: &ReliabilityTable,
    hours: Number,
    row: usize,
    node: usize,
    out: &mut Violations,
)
    requires
        solved.wf(),
        table.wf(),
        row < table.head.rows(),
        node < solved.grid.nodes(),
    ensures
        final(out)@ == old(out)@ + stress_found(solved, table, hours, row as int, node as int),
{
    let applied = Measurement::Voltage(solved.solution.node_voltage[node].absolute());
    let cap = Measurement::Voltage(table.max_abs_voltage[row]);
    let predicted = Measurement::Ratio(hours);
    let required = Measurement::Ratio(table.required_lifetime_hours[row]);
    let rule = table.head.rule[row];
    let severity = table.head.severity[row];
    let at = solved.grid.node_at[node];
    let layer = solved.grid.node_layer[node];
    let poly = solved.grid.node_poly[node];
    if applied.violates(cap, LimitSense::Maximum) {
        out.push(
            Violation {
                rule,
                layer,
                severity,
                at,
                measured: applied,
                limit: cap,
                shapes: (poly, None),
            },
        );
    }
    if predicted.violates(required, LimitSense::Minimum) {
        out.push(
            Violation {
                rule,
                layer,
                severity,
                at,
                measured: predicted,
                limit: required,
                shapes: (poly, None),
            },
        );
    }
    assert(out@ =~= old(out)@ + stress_found(solved, table, hours, row as int, node as int));
}

/// Run one lifetime row; hands back whether it ran.
fn reliability_nodes(
    solved: Solved,
    applied: Number,
    factors: &LifetimeFactors,
    table: &ReliabilityTable,
    row: usize,
    out: &mut Violations,
) -> (ran: bool)
    requires
        solved.wf(),
        table.wf(),
        row < table.head.rows(),
        factors.fits(table.head.rows(), solved.grid.nodes()),
    ensures
        ran == (reliability_row(solved, applied, factors, table, row as int).outcome
            == Outcome::Ran),
        final(out)@ == old(out)@ + reliability_row(
            solved,
            applied,
            factors,
            table,
            row as int,
        ).found,
{
    let ghost first = out@;
    let thermal = factors.thermal[row];
    let unit = table.reference_lifetime_hours[row].times(thermal).over(table.duty_cycle[row]);
    assert(unit == unit_lifetime(table, thermal, row as int));
    let nodes: usize = solved.grid.node_count();
    assert(factors.stress@[row as int]@.len() == nodes);
    let mut hours: Vec<Number> = Vec::new();
    let ghost want = lifetimes(unit, factors.stress@[row as int]@);
    let mut i: usize = 0;
    while i < nodes
        invariant
            i <= nodes,
            row < factors.stress@.len(),
            nodes == factors.stress@[row as int]@.len(),
            want == lifetimes(unit, factors.stress@[row as int]@),
            hours@ == want.take(i as int),
        decreases nodes - i,
    {
        hours.push(unit.times(factors.stress[row][i]));
        i = i + 1;
        assert(hours@ =~= want.take(i as int));
    }
    assert(want.take(i as int) =~= want);
    if !is_row_usable(table, applied, unit, row) || !is_all_finite(&hours) {
        assert(first =~= first + Seq::<Violation>::empty());
        return false;
    }
    let mut node: usize = 0;
    assert(out@ =~= first + stresses_found(solved, table, want, row as int, 0));
    while node < nodes
        invariant
            solved.wf(),
            table.wf(),
            row < table.head.rows(),
            nodes == solved.grid.nodes(),
            node <= nodes,
            hours@ == want,
            want.len() == nodes,
            out@ == first + stresses_found(solved, table, want, row as int, node as nat),
        decreases nodes - node,
    {
        report_stress(solved, table, hours[node], row, node, out);
        node = node + 1;
        assert(out@ =~= first + stresses_found(solved, table, want, row as int, node as nat));
    }
    true
}

/// Predicted lifetime against the required one, plus the absolute voltage cap.
///
/// `factors` holds the two transcendental factors of the model, per row. A row
/// whose parameters are no model, or whose prediction is not finite anywhere,
/// is refused. Skipped without a solve or usable intent.
pub fn check_reliability(
    power: Option<Solved>,
    intent: &IntentMap,
    operating_temperature: Number,
    factors: &LifetimeFactors,
    table: &ReliabilityTable,
    out: &mut Violations,
    runs: &mut Vec<RuleRun>,
)
    requires
        power is Some ==> power->0.wf(),
        power is Some ==> factors.fits(table.head.rows(), power->0.grid.nodes()),
        table.wf(),
    ensures
        final(out)@ == old(out)@ + all_found(
            reliability_results(power, intent, operating_temperature, factors, table),
        ),
        final(runs)@ == old(runs)@ + all_runs(
            table.head.rule@,
            reliability_results(power, intent, operating_temperature, factors, table),
        ),
{
    let ghost results = reliability_results(power, intent, operating_temperature, factors, table);
    let ghost first = out@;
    let ghost begun = runs@;
    let usable: bool = intent.is_usable();
    if power.is_none() || !usable {
        skip_rows(&table.head, out, runs);
        proof {
            lemma_all_ended(
                table.head.rule@.len(),
                Outcome::Skipped(SkipReason::NoDesignIntent),
            );
            assert(out@ =~= first + all_found(results));
        }
        return;
    }
    let solved = power.unwrap();
    let rows: usize = table.head.len();
    let mut row: usize = 0;
    assert(out@ =~= first + all_found(results.take(0)));
    assert(runs@ =~= begun + all_runs(table.head.rule@, results.take(0)));
    while row < rows
        invariant
            solved.wf(),
            power == Some(solved),
            intent.usable(),
            factors.fits(table.head.rows(), solved.grid.nodes()),
            table.wf(),
            rows == table.head.rows(),
            row <= rows,
            results == reliability_results(power, intent, operating_temperature, factors, table),
            out@ == first + all_found(results.take(row as int)),
            runs@ == begun + all_runs(table.head.rule@, results.take(row as int)),
        decreases rows - row,
    {
        let before: usize = out.len();
        let rule = table.head.rule[row];
        let ghost start = out@;
        let ran: bool = reliability_nodes(solved, operating_temperature, factors, table, row, out);
        if ran {
            let examined: u64 = solved.grid.node_count() as u64;
            record_run(runs, out, before, rule, Outcome::Ran, examined);
        } else {
            record_run(runs, out, before, rule, Outcome::Refused, 0);
        }
        proof {
            assert(results[row as int] == reliability_row(
                solved,
                operating_temperature,
                factors,
                table,
                row as int,
            ));
            lemma_next_row(table.head.rule@, results, row as int);
            assert(out@ =~= first + all_found(results.take(row + 1)));
            assert(runs@ =~= begun + all_runs(table.head.rule@, results.take(row + 1)));
        }
        row = row + 1;
    }
    assert(results.take(rows as int) =~= results);
}

/// A device bridging two voltage domains.
pub struct HvDomainTable {
    pub head: RuleHead,
    /// Largest voltage difference a device's terminals may span, in millivolts.
    pub max_domain_delta: Vec<Number>,
    /// Marker layer of a legal crossing; a device inside one is exempt.
    pub isolation: Vec<Option<LayerId>>,
}

impl HvDomainTable {
    pub open spec fn wf(&self, layers: int) -> bool {
        &&& self.head.wf()
        &&& self.max_domain_delta@.len() == self.head.rows()
        &&& self.isolation@.len() == self.head.rows()
        &&& forall|r: int|
            0 <= r < self.isolation@.len() && (#[trigger] self.isolation@[r]) is Some ==> (
            self.isolation@[r]->0).0 < layers
    }
}

/// The lowest and highest nominal among nets, where every one is declared.
pub open spec fn domain_range(intent: &IntentMap, nets: Seq<NetId>) -> Option<(Number, Number)>
    decreases nets.len(),
{
    if nets.len() == 0 {
        Some((Number { bits: INFINITE }, Number { bits: (INFINITE + SIGN) as u64 }))
    } else {
        match (domain_range(intent, nets.drop_last()), intent.nominal_spec(nets.last())) {
            (Some((lo, hi)), Some(v)) => Some(
                (if v.lt(lo) { v } else { lo }, if hi.lt(v) { v } else { hi }),
            ),
            _ => None,
        }
    }
}

/// The widest nominal spread across a device's terminals; none where a terminal
/// sits on a net nobody declared.
pub open spec fn domain_spread_spec(intent: &IntentMap, nets: Seq<NetId>) -> Option<Number> {
    match domain_range(intent, nets) {
        Some((lo, hi)) => if lo.le(hi) { Some(hi.minus_spec(lo)) } else { None },
        None => None,
    }
}

proof fn lemma_undeclared(intent: &IntentMap, nets: Seq<NetId>, k: int)
    requires
        0 <= k <= nets.len(),
        domain_range(intent, nets.take(k)) is None,
    ensures
        domain_range(intent, nets) is None,
    decreases nets.len() - k,
{
    if k < nets.len() {
        assert(nets.take(k + 1).drop_last() =~= nets.take(k));
        lemma_undeclared(intent, nets, k + 1);
    } else {
        assert(nets.take(k) =~= nets);
    }
}

/// The widest nominal-voltage spread across a device's terminals.
///
/// `None` when a terminal sits on a net design intent did not declare: a spread
/// across a net nobody classified is a guess.
pub fn domain_spread(intent: &IntentMap, terminal_nets: &Vec<NetId>) -> (r: Option<Number>)
    requires
        intent.wf(),
    ensures
        r == domain_spread_spec(intent, terminal_nets@),
{
    let mut lo = Number { bits: INFINITE };
    let mut hi = Number { bits: INFINITE + SIGN };
    let mut i: usize = 0;
    while i < terminal_nets.len()
        invariant
            intent.wf(),
            i <= terminal_nets@.len(),
            domain_range(intent, terminal_nets@.take(i as int)) == Some((lo, hi)),
        decreases terminal_nets@.len() - i,
    {
        let nominal = intent.nominal_voltage(terminal_nets[i]);
        proof {
            let now = terminal_nets@.take(i + 1);
            assert(now.drop_last() =~= terminal_nets@.take(i as int));
            assert(now.last() == terminal_nets@[i as int]);
        }
        match nominal {
            None => {
                proof {
                    lemma_undeclared(intent, terminal_nets@, i + 1);
                }
                return None;
            },
            Some(v) => {
                if v.less(lo) {
                    lo = v;
                }
                if hi.less(v) {
                    hi = v;
                }
            },
        }
        i = i + 1;
    }
    assert(terminal_nets@.take(i as int) =~= terminal_nets@);
    if lo.at_most(hi) {
        Some(hi.minus(lo))
    } else {
        None
    }
}

/// Whether polygon `i` of a layer covers all of a box: a corner of the box is
/// inside the outer ring and in no hole, and no ring of the polygon has a point in
/// the box. Touching counts, and so does a hole inside the box.
pub open spec fn covers(shapes: &LayerShapes, i: int, inner: Bbox) -> bool {
    let corner = Point { x: inner.xlo, y: inner.ylo };
    let lo = shapes.ring_lo(i);
    let hi = shapes.ring_hi(i);
    &&& inside(shapes.rings@[lo]@, corner)
    &&& forall|k: int| lo < k < hi ==> !inside((#[trigger] shapes.rings@[k])@, corner)
    &&& forall|k: int| lo <= k < hi ==> clear_of((#[trigger] shapes.rings@[k])@, inner)
}

/// A polygon that covers a box covers every point of it: each is inside the outer
/// ring and in no hole.
pub proof fn lemma_covers_every_point(shapes: &LayerShapes, i: int, inner: Bbox, x: Point)
    requires
        shapes.wf(),
        0 <= i < shapes.boxes@.len(),
        inner.wf(),
        covers(shapes, i, inner),
        inner.has(x.x as int, x.y as int),
    ensures
        inside(shapes.rings@[shapes.ring_lo(i)]@, x),
        forall|k: int|
            shapes.ring_lo(i) < k < shapes.ring_hi(i) ==> !inside(
                (#[trigger] shapes.rings@[k])@,
                x,
            ),
{
    let corner = Point { x: inner.xlo, y: inner.ylo };
    let lo = shapes.ring_lo(i);
    assert(lo < shapes.ring_hi(i));
    assert(clear_of(shapes.rings@[lo]@, inner));
    lemma_clear_of(shapes.rings@[lo]@, inner, corner, x);
    assert forall|k: int| lo < k < shapes.ring_hi(i) implies !inside(
        (#[trigger] shapes.rings@[k])@,
        x,
    ) by {
        lemma_clear_of(shapes.rings@[k]@, inner, corner, x);
    }
}

/// Whether one polygon of a layer covers all of a box.
pub open spec fn enclosed(shapes: &LayerShapes, inner: Bbox) -> bool {
    exists|i: int|
        0 <= i < shapes.boxes@.len() && (#[trigger] shapes.boxes@[i]).holds(inner) && covers(
            shapes,
            i,
            inner,
        )
}

/// Whether one polygon covers all of a box.
fn polygon_covers(shapes: &LayerShapes, i: usize, inner: Bbox) -> (r: bool)
    requires
        shapes.wf(),
        i < shapes.boxes@.len(),
        inner.wf(),
    ensures
        r == covers(shapes, i as int, inner),
{
    let corner = Point { x: inner.xlo, y: inner.ylo };
    let count: usize = shapes.boxes.len();
    assert(shapes.ring_lo(i as int) < shapes.ring_hi(i as int));
    let lo: usize = shapes.ring_start[i] as usize;
    let hi: usize = shapes.ring_start[i + 1] as usize;
    proof {
        assert forall|k: int| 0 <= k < shapes.rings@.len() implies ring_wf(
            (#[trigger] shapes.rings@[k])@,
        ) by {
            assert forall|j: int| 0 <= j < shapes.rings@[k]@.len() implies (
            #[trigger] shapes.rings@[k]@[j]).wf() by {}
        }
    }
    if !inside_ring(&shapes.rings[lo], corner) {
        return false;
    }
    let mut k: usize = lo;
    while k < hi
        invariant
            shapes.wf(),
            forall|k: int|
                0 <= k < shapes.rings@.len() ==> ring_wf((#[trigger] shapes.rings@[k])@),
            inner.wf(),
            i < shapes.boxes@.len(),
            corner == (Point { x: inner.xlo, y: inner.ylo }),
            lo == shapes.ring_lo(i as int),
            hi == shapes.ring_hi(i as int),
            lo <= k <= hi <= shapes.rings@.len(),
            inside(shapes.rings@[lo as int]@, corner),
            forall|j: int| lo < j < k ==> !inside((#[trigger] shapes.rings@[j])@, corner),
            forall|j: int|
                lo <= j < k ==> clear_of((#[trigger] shapes.rings@[j])@, inner),
        decreases hi - k,
    {
        if k > lo && inside_ring(&shapes.rings[k], corner) {
            return false;
        }
        if !ring_clear_of(&shapes.rings[k], inner) {
            return false;
        }
        k = k + 1;
    }
    true
}

/// True when one polygon of an isolation layer covers all of a box.
///
/// An empty layer answers false, so "no exemption configured" is the same as
/// "no exemption polygon covers this device". The box test rejects, never
/// accepts.
pub fn encloses(shapes: &LayerShapes, inner: Bbox) -> (r: bool)
    requires
        shapes.wf(),
        inner.wf(),
    ensures
        r == enclosed(shapes, inner),
{
    let mut i: usize = 0;
    while i < shapes.boxes.len()
        invariant
            shapes.wf(),
            inner.wf(),
            i <= shapes.boxes@.len(),
            forall|j: int|
                0 <= j < i ==> !((#[trigger] shapes.boxes@[j]).holds(inner) && covers(
                    shapes,
                    j,
                    inner,
                )),
        decreases shapes.boxes@.len() - i,
    {
        if shapes.boxes[i].contains(inner) && polygon_covers(shapes, i, inner) {
            return true;
        }
        i = i + 1;
    }
    false
}

/// Whether a device is exempt under one row.
pub open spec fn exempt(design: Design, isolation: Option<LayerId>, marker: Bbox) -> bool {
    match isolation {
        None => false,
        Some(layer) => enclosed(&(design.derived.validated@[layer.0 as int]->0), marker),
    }
}

/// Whether a row's exemption can be evaluated.
pub open spec fn exemption_known(design: Design, isolation: Option<LayerId>) -> bool {
    isolation is Some ==> design.derived.validated@[(isolation->0).0 as int] is Some
}

/// What one device reports.
pub open spec fn hv_found(
    design: Design,
    intent: &IntentMap,
    isolation: Option<LayerId>,
    delta: Number,
    d: int,
    rule: StrId,
    severity: Severity,
) -> Seq<Violation> {
    let marker = design.devices.marker@[d];
    let limit = Measurement::Voltage(delta);
    match domain_spread_spec(intent, design.devices.nets_of(d)) {
        None => Seq::empty(),
        Some(spread) => {
            let measured = Measurement::Voltage(spread);
            if !exempt(design, isolation, design.store.bbox@[marker.0 as int]) && measured.breaks(
                limit,
                LimitSense::Maximum,
            ) {
                seq![
                    Violation {
                        rule,
                        layer: design.store.layer@[marker.0 as int],
                        severity,
                        at: design.store.vertex_at(marker.0 as int, 0),
                        measured,
                        limit,
                        shapes: (marker, None),
                    },
                ]
            } else {
                Seq::empty()
            }
        },
    }
}

/// What the first `n` devices report.
pub open spec fn hvs_found(
    design: Design,
    intent: &IntentMap,
    isolation: Option<LayerId>,
    delta: Number,
    n: nat,
    rule: StrId,
    severity: Severity,
) -> Seq<Violation>
    decreases n,
{
    if n == 0 {
        Seq::empty()
    } else {
        hvs_found(design, intent, isolation, delta, (n - 1) as nat, rule, severity) + hv_found(
            design,
            intent,
            isolation,
            delta,
            n - 1,
            rule,
            severity,
        )
    }
}

/// How many of the first `n` devices have every terminal on a declared net.
pub open spec fn classified_to(design: Design, intent: &IntentMap, n: nat) -> nat
    decreases n,
{
    if n == 0 {
        0
    } else {
        classified_to(design, intent, (n - 1) as nat) + if domain_spread_spec(
            intent,
            design.devices.nets_of(n - 1),
        ) is Some {
            1nat
        } else {
            0
        }
    }
}

pub open spec fn hv_domain_row(
    design: Design,
    intent: &IntentMap,
    table: &HvDomainTable,
    row: int,
) -> RowResult {
    let n = design.devices.devices() as nat;
    if exemption_known(design, table.isolation@[row]) {
        RowResult {
            outcome: Outcome::Ran,
            examined: classified_to(design, intent, n) as u64,
            found: hvs_found(
                design,
                intent,
                table.isolation@[row],
                table.max_domain_delta@[row],
                n,
                table.head.rule@[row],
                table.head.severity@[row],
            ),
        }
    } else {
        ended(Outcome::Refused)
    }
}

pub open spec fn hv_domain_results(
    design: Design,
    intent: &IntentMap,
    table: &HvDomainTable,
) -> Seq<
    RowResult,
> {
    if !intent.usable() {
        all_ended(table.head.rule@.len(), Outcome::Skipped(SkipReason::NoDesignIntent))
    } else {
        Seq::new(
            table.head.rule@.len(),
            |row: int| hv_domain_row(design, intent, table, row),
        )
    }
}

/// Check one device, and say whether every terminal of it is declared.
fn check_device(
    design: Design,
    intent: &IntentMap,
    shapes: Option<&LayerShapes>,
    delta: Number,
    d: usize,
    rule: StrId,
    severity: Severity,
    out: &mut Violations,
    Ghost(isolation): Ghost<Option<LayerId>>,
) -> (classified: bool)
    requires
        design.wf(),
        intent.wf(),
        d < design.devices.devices(),
        isolation is Some <==> shapes is Some,
        isolation is Some ==> (isolation->0).0 < design.store.layers()
            && design.derived.validated@[(isolation->0).0 as int] == Some(*shapes->0),
    ensures
        classified == (domain_spread_spec(intent, design.devices.nets_of(d as int)) is Some),
        final(out)@ == old(out)@ + hv_found(
            design,
            intent,
            isolation,
            delta,
            d as int,
            rule,
            severity,
        ),
{
    let ghost first = out@;
    let nets = design.devices.terminal_nets(d, Ghost(design.store.polys()));
    let spread = match domain_spread(intent, &nets) {
        None => {
            assert(first =~= first + hv_found(
                design,
                intent,
                isolation,
                delta,
                d as int,
                rule,
                severity,
            ));
            return false;
        },
        Some(spread) => spread,
    };
    let marker = design.devices.marker[d];
    assert(design.devices.marker@[d as int].0 < design.store.polys());
    let at = design.store.poly_bbox(marker);
    let spared: bool = match shapes {
        None => false,
        Some(shapes) => encloses(shapes, at),
    };
    assert(spared == exempt(design, isolation, at));
    let measured = Measurement::Voltage(spread);
    let limit = Measurement::Voltage(delta);
    if !spared && measured.violates(limit, LimitSense::Maximum) {
        out.push(
            Violation {
                rule,
                layer: design.store.poly_layer(marker),
                severity,
                at: design.store.first_vertex(marker),
                measured,
                limit,
                shapes: (marker, None),
            },
        );
    }
    assert(out@ =~= first + hv_found(design, intent, isolation, delta, d as int, rule, severity));
    true
}

/// Flag every device whose terminals span more than the permitted delta.
///
/// A device with a terminal on an undeclared net contributes nothing and is not
/// examined. The isolation marker is tested by exact containment, so a hollow
/// marker exempts nothing in its hollow; a row naming an isolation layer whose
/// geometry will not validate is refused. Skipped without usable intent.
pub fn check_hv_domain(
    design: Design,
    intent: &IntentMap,
    table: &HvDomainTable,
    out: &mut Violations,
    runs: &mut Vec<RuleRun>,
)
    requires
        design.wf(),
        intent.wf(),
        table.wf(design.store.layers()),
    ensures
        final(out)@ == old(out)@ + all_found(hv_domain_results(design, intent, table)),
        final(runs)@ == old(runs)@ + all_runs(
            table.head.rule@,
            hv_domain_results(design, intent, table),
        ),
{
    let ghost results = hv_domain_results(design, intent, table);
    let ghost first = out@;
    let ghost begun = runs@;
    if !intent.is_usable() {
        skip_rows(&table.head, out, runs);
        proof {
            lemma_all_ended(
                table.head.rule@.len(),
                Outcome::Skipped(SkipReason::NoDesignIntent),
            );
            assert(out@ =~= first + all_found(results));
        }
        return;
    }
    let rows: usize = table.head.len();
    let devices: usize = design.devices.len();
    let mut row: usize = 0;
    assert(out@ =~= first + all_found(results.take(0)));
    assert(runs@ =~= begun + all_runs(table.head.rule@, results.take(0)));
    while row < rows
        invariant
            design.wf(),
            intent.wf(),
            intent.usable(),
            table.wf(design.store.layers()),
            rows == table.head.rows(),
            devices == design.devices.devices(),
            row <= rows,
            results == hv_domain_results(design, intent, table),
            out@ == first + all_found(results.take(row as int)),
            runs@ == begun + all_runs(table.head.rule@, results.take(row as int)),
        decreases rows - row,
    {
        let before: usize = out.len();
        let ghost start = out@;
        let rule = table.head.rule[row];
        let severity = table.head.severity[row];
        let delta = table.max_domain_delta[row];
        let ghost isolation = table.isolation@[row as int];
        let mut known: bool = true;
        let mut shapes: Option<&LayerShapes> = None;
        if let Some(layer) = table.isolation[row] {
            assert(table.isolation@[row as int] is Some);
            match &design.derived.validated[layer.0 as usize] {
                None => {
                    known = false;
                },
                Some(found) => {
                    shapes = Some(found);
                },
            }
        }
        assert(known == exemption_known(design, isolation));
        if !known {
            record_run(runs, out, before, rule, Outcome::Refused, 0);
        } else {
            let mut examined: u64 = 0;
            let mut d: usize = 0;
            assert(out@ =~= start + hvs_found(
                design,
                intent,
                isolation,
                delta,
                0,
                rule,
                severity,
            ));
            while d < devices
                invariant
                    design.wf(),
                    intent.wf(),
                    devices == design.devices.devices(),
                    d <= devices,
                    isolation is Some <==> shapes is Some,
                    isolation is Some ==> (isolation->0).0 < design.store.layers()
                        && design.derived.validated@[(isolation->0).0 as int] == Some(*shapes->0),
                    examined == classified_to(design, intent, d as nat),
                    examined <= d,
                    out@ == start + hvs_found(
                        design,
                        intent,
                        isolation,
                        delta,
                        d as nat,
                        rule,
                        severity,
                    ),
                decreases devices - d,
            {
                if check_device(
                    design,
                    intent,
                    shapes,
                    delta,
                    d,
                    rule,
                    severity,
                    out,
                    Ghost(isolation),
                ) {
                    examined = examined + 1;
                }
                d = d + 1;
                assert(out@ =~= start + hvs_found(
                    design,
                    intent,
                    isolation,
                    delta,
                    d as nat,
                    rule,
                    severity,
                ));
            }
            record_run(runs, out, before, rule, Outcome::Ran, examined);
        }
        proof {
            lemma_next_row(table.head.rule@, results, row as int);
            assert(out@ =~= first + all_found(results.take(row + 1)));
            assert(runs@ =~= begun + all_runs(table.head.rule@, results.take(row + 1)));
        }
        row = row + 1;
    }
    assert(results.take(rows as int) =~= results);
}

} // verus!
