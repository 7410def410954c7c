//! How the two antenna rules agree.
use crate::design::Design;
use crate::model::{LayerRef, StrId};
use crate::number::Number;
use crate::report::Severity;
use crate::rules::antenna::{
    antenna_electrical_row, antenna_row, has_sidewall, ratio_violations, AntennaElectricalTable,
    AntennaTable, Credit, Roles,
};
use vstd::prelude::*;

verus! {

proof fn lemma_same_violations(
    design: Design,
    roles: Roles,
    plain: Credit,
    adjust: Credit,
    limit: Number,
    rule: StrId,
    severity: Severity,
    n: nat,
)
    requires
        !plain.applies,
        !adjust.applies,
    ensures
        ratio_violations(design, roles, plain, limit, rule, severity, n) == ratio_violations(
            design,
            roles,
            adjust,
            limit,
            rule,
            severity,
            n,
        ),
    decreases n,
{
    if n > 0 {
        let m = (n - 1) as nat;
        lemma_same_violations(design, roles, plain, adjust, limit, rule, severity, m);
    }
}

/// With no diode configured the cumulative antenna ratio is the same division as the
/// per-stage one, whatever credit and bonus it states: the same rows examine and report
/// the same.
pub proof fn lemma_no_diode_is_the_same_division(
    design: Design,
    stage: &AntennaTable,
    row: int,
    cumulative: &AntennaElectricalTable,
    at: int,
)
    requires
        stage.gate@[row] == cumulative.gate@[at],
        stage.collectors(row) == cumulative.collectors(at),
        !has_sidewall(stage.measures(row)),
        stage.max_ratio@[row] == cumulative.max_ratio@[at],
        stage.head.rule@[row] == cumulative.head.rule@[at],
        stage.head.severity@[row] == cumulative.head.severity@[at],
        cumulative.diode@[at] is None,
    ensures
        antenna_row(design, stage, row) == antenna_electrical_row(design, cumulative, at),
{
    match stage.gate@[row] {
        LayerRef::Base(gate) => {
            lemma_same_violations(
                design,
                Roles { gate, collectors: stage.collectors(row), diode: None },
                Credit { applies: false, credit: Number { bits: 0 }, bonus: Number { bits: 0 } },
                Credit {
                    applies: false,
                    credit: cumulative.diode_credit@[at],
                    bonus: cumulative.diode_bonus@[at],
                },
                stage.max_ratio@[row],
                stage.head.rule@[row],
                stage.head.severity@[row],
                design.nets.nets() as nat,
            );
        },
        LayerRef::Named(_) => {},
    }
}

} // verus!
