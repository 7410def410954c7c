//! What a run reports: violations, and one row per rule saying how it ran.
use crate::geom::Point;
use crate::model::{LayerId, PolyId, StrId};
use crate::number::Number;
use crate::ruleset::RuleHead;
use vstd::prelude::*;

verus! {

#[derive(Clone, Copy, Debug, PartialEq, Eq, Structural)]
pub enum Severity {
    Error,
    Warning,
}

/// Why a rule could not run.
#[derive(Clone, Copy, Debug, PartialEq, Eq, Structural)]
pub enum SkipReason {
    /// The design owner declared nothing the rule could check against.
    NoDesignIntent,
}

/// How one rule row ended.
#[derive(Clone, Copy, Debug, PartialEq, Eq, Structural)]
pub enum Outcome {
    Ran,
    Skipped(SkipReason),
    /// The row met an input it will not guess about.
    Refused,
}

/// One measured quantity, or the limit it is held to.
#[derive(Clone, Copy, Debug, PartialEq, Eq, Structural)]
pub enum Measurement {
    Count(u32),
    /// Database units.
    Length(i64),
    Ratio(Number),
    /// Millivolts.
    Voltage(Number),
    /// Microamps.
    Current(Number),
    /// Ohms.
    Resistance(Number),
    /// Hours.
    Lifetime(Number),
}

/// Which side of a limit is the failing one.
#[derive(Clone, Copy, Debug, PartialEq, Eq, Structural)]
pub enum LimitSense {
    Minimum,
    Maximum,
}

impl Measurement {
    /// Whether one quantity is strictly below another of its own kind.
    pub open spec fn below(self, other: Measurement) -> bool {
        match (self, other) {
            (Measurement::Count(a), Measurement::Count(b)) => a < b,
            (Measurement::Length(a), Measurement::Length(b)) => a < b,
            (Measurement::Ratio(a), Measurement::Ratio(b)) => a.lt(b),
            (Measurement::Voltage(a), Measurement::Voltage(b)) => a.lt(b),
            (Measurement::Current(a), Measurement::Current(b)) => a.lt(b),
            (Measurement::Resistance(a), Measurement::Resistance(b)) => a.lt(b),
            (Measurement::Lifetime(a), Measurement::Lifetime(b)) => a.lt(b),
            _ => false,
        }
    }

    fn is_below(self, other: Measurement) -> (r: bool)
        ensures
            r == self.below(other),
    {
        match (self, other) {
            (Measurement::Count(a), Measurement::Count(b)) => a < b,
            (Measurement::Length(a), Measurement::Length(b)) => a < b,
            (Measurement::Ratio(a), Measurement::Ratio(b)) => a.less(b),
            (Measurement::Voltage(a), Measurement::Voltage(b)) => a.less(b),
            (Measurement::Current(a), Measurement::Current(b)) => a.less(b),
            (Measurement::Resistance(a), Measurement::Resistance(b)) => a.less(b),
            (Measurement::Lifetime(a), Measurement::Lifetime(b)) => a.less(b),
            _ => false,
        }
    }

    /// Whether a measurement is on the failing side of its limit.
    pub open spec fn breaks(self, limit: Measurement, sense: LimitSense) -> bool {
        match sense {
            LimitSense::Minimum => self.below(limit),
            LimitSense::Maximum => limit.below(self),
        }
    }

    /// Whether a measurement is on the failing side of its limit.
    pub fn violates(self, limit: Measurement, sense: LimitSense) -> (r: bool)
        ensures
            r == self.breaks(limit, sense),
    {
        match sense {
            LimitSense::Minimum => self.is_below(limit),
            LimitSense::Maximum => limit.is_below(self),
        }
    }
}

/// One rule broken at one place.
#[derive(Clone, Copy, Debug, PartialEq, Eq)]
pub struct Violation {
    pub rule: StrId,
    pub layer: LayerId,
    pub severity: Severity,
    pub at: Point,
    pub measured: Measurement,
    pub limit: Measurement,
    pub shapes: (PolyId, Option<PolyId>),
}

/// Everything one or more runs found, in the order it was found.
pub struct Violations {
    pub rows: Vec<Violation>,
}

impl View for Violations {
    type V = Seq<Violation>;

    open spec fn view(&self) -> Seq<Violation> {
        self.rows@
    }
}

impl Default for Violations {
    fn default() -> (r: Violations)
        ensures
            r@ == Seq::<Violation>::empty(),
    {
        Violations { rows: Vec::new() }
    }
}

impl Violations {
    pub fn len(&self) -> (r: usize)
        ensures
            r == self@.len(),
    {
        self.rows.len()
    }

    pub fn push(&mut self, v: Violation)
        ensures
            final(self)@ == old(self)@.push(v),
    {
        self.rows.push(v);
    }
}

/// How one configured rule row ran.
#[derive(Clone, Copy, Debug, PartialEq, Eq, Structural)]
pub struct RuleRun {
    pub rule: StrId,
    pub outcome: Outcome,
    pub examined: u64,
    pub violations: u32,
}

/// What one rule row found and how it ended.
pub ghost struct RowResult {
    pub outcome: Outcome,
    pub examined: u64,
    pub found: Seq<Violation>,
}

/// A count, held at the largest value its column can carry.
pub open spec fn saturated(n: nat) -> u32 {
    if n > 0xFFFF_FFFF { 0xFFFF_FFFF } else { n as u32 }
}

/// The run row a result is reported as.
pub open spec fn run_of(rule: StrId, result: RowResult) -> RuleRun {
    RuleRun {
        rule,
        outcome: result.outcome,
        examined: result.examined,
        violations: saturated(result.found.len()),
    }
}

/// Everything a sequence of rule rows found, in row order.
pub open spec fn all_found(results: Seq<RowResult>) -> Seq<Violation>
    decreases results.len(),
{
    if results.len() == 0 {
        Seq::empty()
    } else {
        all_found(results.drop_last()) + results.last().found
    }
}

/// The run rows of a sequence of rule rows.
pub open spec fn all_runs(rules: Seq<StrId>, results: Seq<RowResult>) -> Seq<RuleRun> {
    Seq::new(results.len(), |i: int| run_of(rules[i], results[i]))
}

/// Appending one row's result appends what it found and its run row.
pub proof fn lemma_push_result(rules: Seq<StrId>, results: Seq<RowResult>, r: RowResult)
    ensures
        all_found(results.push(r)) == all_found(results) + r.found,
        all_runs(rules, results.push(r)) == all_runs(rules, results).push(
            run_of(rules[results.len() as int], r),
        ),
{
    assert(results.push(r).drop_last() =~= results);
    assert(all_runs(rules, results.push(r)) =~= all_runs(rules, results).push(
        run_of(rules[results.len() as int], r),
    ));
}

/// The rows up to and including `row` found and recorded one row more.
pub proof fn lemma_next_row(rules: Seq<StrId>, results: Seq<RowResult>, row: int)
    requires
        0 <= row < results.len(),
    ensures
        all_found(results.take(row + 1)) == all_found(results.take(row)) + results[row].found,
        all_runs(rules, results.take(row + 1)) == all_runs(rules, results.take(row)).push(
            run_of(rules[row], results[row]),
        ),
{
    let done = results.take(row);
    assert(results.take(row + 1) =~= done.push(results[row]));
    lemma_push_result(rules, done, results[row]);
}

/// A row that ended before finding anything.
pub open spec fn ended(outcome: Outcome) -> RowResult {
    RowResult { outcome, examined: 0, found: Seq::empty() }
}

/// Close one rule row: append its run row, with the violation count derived
/// from what the row pushed.
pub fn record_run(
    runs: &mut Vec<RuleRun>,
    out: &Violations,
    before: usize,
    rule: StrId,
    outcome: Outcome,
    examined: u64,
)
    requires
        before <= out@.len(),
    ensures
        final(runs)@ == old(runs)@.push(
            RuleRun {
                rule,
                outcome,
                examined,
                violations: saturated((out@.len() - before) as nat),
            },
        ),
{
    let pushed: usize = out.len() - before;
    let violations: u32 = if pushed > 0xFFFF_FFFF { 0xFFFF_FFFF } else { pushed as u32 };
    runs.push(RuleRun { rule, outcome, examined, violations });
}

/// A rule table whose rows all ended the same way before finding anything.
pub open spec fn all_ended(rows: nat, outcome: Outcome) -> Seq<RowResult> {
    Seq::new(rows, |i: int| ended(outcome))
}

/// Rows that ended before finding anything found nothing.
pub proof fn lemma_all_ended(rows: nat, outcome: Outcome)
    ensures
        all_found(all_ended(rows, outcome)) == Seq::<Violation>::empty(),
    decreases rows,
{
    if rows > 0 {
        lemma_all_ended((rows - 1) as nat, outcome);
        assert(all_ended(rows, outcome).drop_last() =~= all_ended((rows - 1) as nat, outcome));
        assert(all_found(all_ended(rows, outcome)) =~= Seq::<Violation>::empty());
    }
}

/// Record every row of a rule table with one outcome.
fn close_rows(head: &RuleHead, outcome: Outcome, out: &Violations, runs: &mut Vec<RuleRun>)
    ensures
        final(runs)@ == old(runs)@ + all_runs(head.rule@, all_ended(head.rule@.len(), outcome)),
{
    let ghost results = all_ended(head.rule@.len(), outcome);
    let ghost begun = runs@;
    let mut row: usize = 0;
    assert(runs@ =~= begun + all_runs(head.rule@, results.take(0)));
    while row < head.rule.len()
        invariant
            results == all_ended(head.rule@.len(), outcome),
            row <= head.rule@.len(),
            runs@ == begun + all_runs(head.rule@, results.take(row as int)),
        decreases head.rule@.len() - row,
    {
        record_run(runs, out, out.len(), head.rule[row], outcome, 0);
        proof {
            lemma_next_row(head.rule@, results, row as int);
            assert(runs@ =~= begun + all_runs(head.rule@, results.take(row + 1)));
        }
        row = row + 1;
    }
    assert(results.take(row as int) =~= results);
}

/// Record every row of a rule table as skipped for want of design intent.
pub fn skip_rows(head: &RuleHead, out: &Violations, runs: &mut Vec<RuleRun>)
    ensures
        final(runs)@ == old(runs)@ + all_runs(
            head.rule@,
            all_ended(head.rule@.len(), Outcome::Skipped(SkipReason::NoDesignIntent)),
        ),
{
    close_rows(head, Outcome::Skipped(SkipReason::NoDesignIntent), out, runs);
}

/// Record every row of a rule table as refused.
pub fn refuse_rows(head: &RuleHead, out: &Violations, runs: &mut Vec<RuleRun>)
    ensures
        final(runs)@ == old(runs)@ + all_runs(
            head.rule@,
            all_ended(head.rule@.len(), Outcome::Refused),
        ),
{
    close_rows(head, Outcome::Refused, out, runs);
}

} // verus!
