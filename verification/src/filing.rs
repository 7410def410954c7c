//! How each kind of deck row is read, checked and filed into its table.
use crate::deck::{or, reads, ErcError, Fault, Row, RuleTable};
use crate::model::{LayerId, LayerRef};
use crate::number::Number;
use crate::rules::antenna::{AntennaElectricalTable, AntennaMeasure, AntennaTable};
use crate::rules::density::{CmpModel, DensityCmpTable};
use crate::rules::electrical::{
    ElectromigrationTable, EmCurrentDensityTable, IrDropTable, P2pResistanceTable,
};
use crate::rules::latchup::EsdLatchupTable;
use crate::rules::missing_tie::MissingTieTable;
use crate::rules::reliability::{HvDomainTable, ReliabilityTable};
use crate::rules::supply::{
    EsdTopologicalTable, SoftConnectionTable, SupplyShortTable, TieHighLowTable,
};
use crate::rules::topology::{
    FloatingGateTable, FloatingWellTable, MultipleDriversTable, UnconnectedPinTable,
};
use crate::ruleset::RuleHead;
use crate::store::is_csr;
use crate::text::{same_text, StrTable};
use vstd::prelude::*;

verus! {

/// A kind of rule.
#[derive(Clone, Copy, Debug, PartialEq, Eq, Structural)]
pub enum Kind {
    Antenna,
    AntennaElectrical,
    DensityCmp,
    Electromigration,
    EmCurrentDensity,
    EsdLatchup,
    EsdTopological,
    FloatingGate,
    FloatingWell,
    HvDomain,
    IrDrop,
    MissingTie,
    MultipleDrivers,
    P2pResistance,
    Reliability,
    SoftConnection,
    SupplyShort,
    TieHighLow,
    UnconnectedPin,
}

/// The kind a text spells.
pub open spec fn kind_spec(text: Seq<char>) -> Option<Kind> {
    if text == "antenna"@ {
        Some(Kind::Antenna)
    } else if text == "antenna_electrical"@ {
        Some(Kind::AntennaElectrical)
    } else if text == "density_cmp"@ {
        Some(Kind::DensityCmp)
    } else if text == "electromigration"@ {
        Some(Kind::Electromigration)
    } else if text == "em_current_density"@ {
        Some(Kind::EmCurrentDensity)
    } else if text == "esd_latchup"@ {
        Some(Kind::EsdLatchup)
    } else if text == "esd_topological"@ {
        Some(Kind::EsdTopological)
    } else if text == "floating_gate"@ {
        Some(Kind::FloatingGate)
    } else if text == "floating_well"@ {
        Some(Kind::FloatingWell)
    } else if text == "hv_domain"@ {
        Some(Kind::HvDomain)
    } else if text == "ir_drop"@ {
        Some(Kind::IrDrop)
    } else if text == "missing_tie"@ {
        Some(Kind::MissingTie)
    } else if text == "multiple_drivers"@ {
        Some(Kind::MultipleDrivers)
    } else if text == "p2p_resistance"@ {
        Some(Kind::P2pResistance)
    } else if text == "reliability"@ {
        Some(Kind::Reliability)
    } else if text == "soft_connection"@ {
        Some(Kind::SoftConnection)
    } else if text == "supply_short"@ {
        Some(Kind::SupplyShort)
    } else if text == "tie_high_low"@ {
        Some(Kind::TieHighLow)
    } else if text == "unconnected_pin"@ {
        Some(Kind::UnconnectedPin)
    } else {
        None
    }
}

/// The kind a text spells; a text that spells none belongs to another domain's
/// rules.
pub fn kind_of(text: &str) -> (r: Option<Kind>)
    ensures
        r == kind_spec(text@),
{
    if same_text(text, "antenna") {
        Some(Kind::Antenna)
    } else if same_text(text, "antenna_electrical") {
        Some(Kind::AntennaElectrical)
    } else if same_text(text, "density_cmp") {
        Some(Kind::DensityCmp)
    } else if same_text(text, "electromigration") {
        Some(Kind::Electromigration)
    } else if same_text(text, "em_current_density") {
        Some(Kind::EmCurrentDensity)
    } else if same_text(text, "esd_latchup") {
        Some(Kind::EsdLatchup)
    } else if same_text(text, "esd_topological") {
        Some(Kind::EsdTopological)
    } else if same_text(text, "floating_gate") {
        Some(Kind::FloatingGate)
    } else if same_text(text, "floating_well") {
        Some(Kind::FloatingWell)
    } else if same_text(text, "hv_domain") {
        Some(Kind::HvDomain)
    } else if same_text(text, "ir_drop") {
        Some(Kind::IrDrop)
    } else if same_text(text, "missing_tie") {
        Some(Kind::MissingTie)
    } else if same_text(text, "multiple_drivers") {
        Some(Kind::MultipleDrivers)
    } else if same_text(text, "p2p_resistance") {
        Some(Kind::P2pResistance)
    } else if same_text(text, "reliability") {
        Some(Kind::Reliability)
    } else if same_text(text, "soft_connection") {
        Some(Kind::SoftConnection)
    } else if same_text(text, "supply_short") {
        Some(Kind::SupplyShort)
    } else if same_text(text, "tie_high_low") {
        Some(Kind::TieHighLow)
    } else if same_text(text, "unconnected_pin") {
        Some(Kind::UnconnectedPin)
    } else {
        None
    }
}

/// Every rule kind, as the deck spells it, in alphabetical order.
pub open spec fn kind_names() -> Seq<Seq<char>> {
    seq![
        "antenna"@,
        "antenna_electrical"@,
        "density_cmp"@,
        "electromigration"@,
        "em_current_density"@,
        "esd_latchup"@,
        "esd_topological"@,
        "floating_gate"@,
        "floating_well"@,
        "hv_domain"@,
        "ir_drop"@,
        "missing_tie"@,
        "multiple_drivers"@,
        "p2p_resistance"@,
        "reliability"@,
        "soft_connection"@,
        "supply_short"@,
        "tie_high_low"@,
        "unconnected_pin"@,
    ]
}

/// Every rule kind, as the deck spells it, in alphabetical order.
pub fn kinds() -> (r: Vec<&'static str>)
    ensures
        r@.len() == kind_names().len(),
        forall|i: int| 0 <= i < r@.len() ==> (#[trigger] r@[i])@ == kind_names()[i],
        forall|i: int| 0 <= i < r@.len() ==> kind_spec((#[trigger] r@[i])@) is Some,
        forall|text: Seq<char>|
            (#[trigger] kind_spec(text)) is Some ==> exists|i: int|
                0 <= i < r@.len() && (#[trigger] r@[i])@ == text,
{
    let mut r: Vec<&'static str> = Vec::new();
    r.push("antenna");
    r.push("antenna_electrical");
    r.push("density_cmp");
    r.push("electromigration");
    r.push("em_current_density");
    r.push("esd_latchup");
    r.push("esd_topological");
    r.push("floating_gate");
    r.push("floating_well");
    r.push("hv_domain");
    r.push("ir_drop");
    r.push("missing_tie");
    r.push("multiple_drivers");
    r.push("p2p_resistance");
    r.push("reliability");
    r.push("soft_connection");
    r.push("supply_short");
    r.push("tie_high_low");
    r.push("unconnected_pin");
    proof {
        assert forall|text: Seq<char>| (#[trigger] kind_spec(text)) is Some implies exists|i: int|
            0 <= i < r@.len() && (#[trigger] r@[i])@ == text by {
            if text == "antenna"@ {
                assert(r@[0]@ == text);
            }
            if text == "antenna_electrical"@ {
                assert(r@[1]@ == text);
            }
            if text == "density_cmp"@ {
                assert(r@[2]@ == text);
            }
            if text == "electromigration"@ {
                assert(r@[3]@ == text);
            }
            if text == "em_current_density"@ {
                assert(r@[4]@ == text);
            }
            if text == "esd_latchup"@ {
                assert(r@[5]@ == text);
            }
            if text == "esd_topological"@ {
                assert(r@[6]@ == text);
            }
            if text == "floating_gate"@ {
                assert(r@[7]@ == text);
            }
            if text == "floating_well"@ {
                assert(r@[8]@ == text);
            }
            if text == "hv_domain"@ {
                assert(r@[9]@ == text);
            }
            if text == "ir_drop"@ {
                assert(r@[10]@ == text);
            }
            if text == "missing_tie"@ {
                assert(r@[11]@ == text);
            }
            if text == "multiple_drivers"@ {
                assert(r@[12]@ == text);
            }
            if text == "p2p_resistance"@ {
                assert(r@[13]@ == text);
            }
            if text == "reliability"@ {
                assert(r@[14]@ == text);
            }
            if text == "soft_connection"@ {
                assert(r@[15]@ == text);
            }
            if text == "supply_short"@ {
                assert(r@[16]@ == text);
            }
            if text == "tie_high_low"@ {
                assert(r@[17]@ == text);
            }
            if text == "unconnected_pin"@ {
                assert(r@[18]@ == text);
            }
        }
    }
    r
}

/// One deck row by number.
pub open spec fn row_at<'a>(rules: &'a RuleTable, strings: &'a StrTable, s: u32) -> Row<'a> {
    Row { rules, strings, at: s as usize }
}

/// A head holds exactly a list of deck rows.
pub open spec fn head_holds(
    head: &RuleHead,
    rules: &RuleTable,
    strings: &StrTable,
    rows: Seq<u32>,
) -> bool {
    &&& head.rule@.len() == rows.len()
    &&& head.severity@.len() == rows.len()
    &&& forall|i: int|
        0 <= i < rows.len() ==> head.rule@[i] == row_at(rules, strings, #[trigger] rows[i]).spec().id
            && head.severity@[i] == row_at(rules, strings, rows[i]).severity_of()
}

/// A start column splits a body into one run per row, and is empty for a table
/// no row was ever filed in.
pub open spec fn starts_hold(start: Seq<u32>, rows: nat, body: nat) -> bool {
    if rows == 0 {
        start.len() == 0 && body == 0
    } else {
        is_csr(start, rows as int, body as int)
    }
}

/// Row `i`'s run of a body.
pub open spec fn run<T>(start: Seq<u32>, body: Seq<T>, i: int) -> Seq<T> {
    body.subrange(start[i] as int, start[i + 1] as int)
}

/// Store layers, as a rule names them.
pub open spec fn bases(layers: Seq<LayerId>) -> Seq<LayerRef> {
    layers.map_values(|l: LayerId| LayerRef::Base(l))
}

/// A start column after one more row closes at `end`.
pub open spec fn closed_at(start: Seq<u32>, end: u32) -> Seq<u32> {
    if start.len() == 0 { seq![0u32, end] } else { start.push(end) }
}

/// A column length as the index type of a start column.
pub fn narrow(len: usize) -> (r: u32)
    requires
        len <= 0xFFFF_FFFF,
    ensures
        r == len,
{
    len as u32
}

/// Close one row of a start column: the leading zero on the first row, the
/// running end after every row.
pub fn close_csr(start: &mut Vec<u32>, end: usize)
    requires
        end <= 0xFFFF_FFFF,
    ensures
        final(start)@ == closed_at(old(start)@, end as u32),
{
    if start.len() == 0 {
        start.push(0);
    }
    start.push(narrow(end));
    assert(start@ =~= closed_at(old(start)@, end as u32));
}

/// Closing a row splits off exactly what was appended, and moves nothing else.
proof fn lemma_closed<T>(start: Seq<u32>, rows: nat, body: Seq<T>, more: Seq<T>)
    requires
        starts_hold(start, rows, body.len()),
        body.len() + more.len() <= 0xFFFF_FFFF,
    ensures
        starts_hold(
            closed_at(start, (body.len() + more.len()) as u32),
            rows + 1,
            (body + more).len(),
        ),
        forall|i: int|
            0 <= i < rows ==> run(
                closed_at(start, (body.len() + more.len()) as u32),
                body + more,
                i,
            ) == #[trigger] run(start, body, i),
        run(closed_at(start, (body.len() + more.len()) as u32), body + more, rows as int) == more,
{
    let after = closed_at(start, (body.len() + more.len()) as u32);
    assert forall|i: int| 0 <= i < rows implies run(after, body + more, i) == #[trigger] run(
        start,
        body,
        i,
    ) by {
        assert(run(after, body + more, i) =~= run(start, body, i));
    }
    assert(run(after, body + more, rows as int) =~= more);
}

/// The layers from `from` on, as a rule names them.
fn base_layers(layers: &Vec<LayerId>, from: usize) -> (r: Vec<LayerRef>)
    requires
        from <= layers@.len(),
    ensures
        r@ == bases(layers@.skip(from as int)),
{
    let mut r: Vec<LayerRef> = Vec::new();
    let mut k: usize = from;
    while k < layers.len()
        invariant
            from <= k <= layers@.len(),
            r@.len() == k - from,
            forall|j: int| 0 <= j < r@.len() ==> #[trigger] r@[j] == LayerRef::Base(
                layers@[from + j],
            ),
        decreases layers@.len() - k,
    {
        r.push(LayerRef::Base(layers[k]));
        k = k + 1;
    }
    assert(r@ =~= bases(layers@.skip(from as int)));
    r
}

fn copied(layers: &Vec<LayerId>) -> (r: Vec<LayerId>)
    ensures
        r@ == layers@,
{
    let r = layers.clone();
    assert(r@ =~= layers@);
    r
}

/// One value, over and over.
fn repeated<T: Copy>(value: T, count: usize) -> (r: Vec<T>)
    ensures
        r@ == Seq::new(count as nat, |j: int| value),
{
    let mut r: Vec<T> = Vec::new();
    let mut k: usize = 0;
    while k < count
        invariant
            k <= count,
            r@.len() == k,
            forall|j: int| 0 <= j < k ==> #[trigger] r@[j] == value,
        decreases count - k,
    {
        r.push(value);
        k = k + 1;
    }
    assert(r@ =~= Seq::new(count as nat, |j: int| value));
    r
}

/// Append a run to a body.
fn extend<T: Copy>(body: &mut Vec<T>, more: &Vec<T>)
    ensures
        final(body)@ == old(body)@ + more@,
{
    let mut k: usize = 0;
    assert(body@ =~= old(body)@ + more@.take(0));
    while k < more.len()
        invariant
            k <= more@.len(),
            body@ == old(body)@ + more@.take(k as int),
        decreases more@.len() - k,
    {
        body.push(more[k]);
        k = k + 1;
        assert(body@ =~= old(body)@ + more@.take(k as int));
    }
    assert(more@.take(k as int) =~= more@);
}

/// File a row's head.
fn push_head(head: &mut RuleHead, row: &Row) -> (r: Result<(), ErcError>)
    requires
        row.wf(),
    ensures
        reads(r, row.title(), row.severity_fault()),
        r is Ok ==> final(head).rule@ == old(head).rule@.push(row.spec().id)
            && final(head).severity@ == old(head).severity@.push(row.severity_of()),
{
    match row.severity() {
        Err(e) => Err(e),
        Ok(severity) => {
            head.rule.push(row.rules.spec[row.at].id);
            head.severity.push(severity);
            Ok(())
        },
    }
}

/// What an antenna row counts as collecting area.
pub open spec fn measure_of(r: Row) -> AntennaMeasure {
    match r.opt_length_of("sidewall_thickness"@) {
        Some(thickness) => AntennaMeasure::Sidewall { thickness },
        None => AntennaMeasure::Area,
    }
}

/// The protection diode an antenna row names.
pub open spec fn diode_of(r: Row) -> Option<LayerRef> {
    match r.opt_layer_of("diode_layer"@) {
        Some(layer) => Some(LayerRef::Base(layer)),
        None => None,
    }
}

/// The thickness model a density row states: all four coefficients, or none.
pub open spec fn model_of(r: Row) -> Option<CmpModel> {
    if r.stated("cmp_target_density"@) is None {
        None
    } else {
        Some(
            CmpModel {
                target_density: r.number_of("cmp_target_density"@),
                nominal_thickness: r.length_of("cmp_nominal_thickness"@),
                thickness_sensitivity: r.length_of("cmp_thickness_sensitivity"@),
                max_abs_thickness_delta: r.length_of("cmp_max_abs_thickness_delta"@),
            },
        )
    }
}

pub open spec fn model_fault(r: Row) -> Option<Fault> {
    if r.stated("cmp_target_density"@) is None {
        None
    } else {
        or(
            r.fraction_fault("cmp_target_density"@),
            or(
                r.length_fault("cmp_nominal_thickness"@),
                or(
                    r.signed_fault("cmp_thickness_sensitivity"@),
                    r.length_fault("cmp_max_abs_thickness_delta"@),
                ),
            ),
        )
    }
}

/// A density row that bounds nothing would read clean for ever.
pub open spec fn unbounded_fault(r: Row) -> Option<Fault> {
    if r.opt_fraction_of("min_density"@) is None && r.opt_fraction_of("max_density"@) is None
        && r.opt_fraction_of("max_neighbour_delta"@) is None && model_of(r) is None {
        Some(Fault::Missing("max_density"@))
    } else {
        None
    }
}

/// Zero permitted drivers is a rule nobody can satisfy.
pub open spec fn drivers_fault(r: Row) -> Option<Fault> {
    if r.count_of("max_drivers"@) == 0 { Some(Fault::NonPositive("max_drivers"@)) } else { None }
}

/// A duty cycle of zero predicts an infinite lifetime.
pub open spec fn duty_fault(r: Row) -> Option<Fault> {
    if r.number_of("duty_cycle"@).le(Number { bits: 0 }) {
        Some(Fault::NonPositive("duty_cycle"@))
    } else {
        None
    }
}

/// The thickness model a density row states.
fn read_model(row: &Row) -> (r: Result<Option<CmpModel>, ErcError>)
    requires
        row.wf(),
    ensures
        reads(r, row.title(), model_fault(*row)),
        r is Ok ==> r->Ok_0 == model_of(*row),
{
    if row.find("cmp_target_density").is_none() {
        return Ok(None);
    }
    let target_density = match row.fraction("cmp_target_density") {
        Ok(v) => v,
        Err(e) => {
            return Err(e);
        },
    };
    let nominal_thickness: i64 = match row.length("cmp_nominal_thickness") {
        Ok(v) => v,
        Err(e) => {
            return Err(e);
        },
    };
    let thickness_sensitivity: i64 = match row.signed_length("cmp_thickness_sensitivity") {
        Ok(v) => v,
        Err(e) => {
            return Err(e);
        },
    };
    let max_abs_thickness_delta: i64 = match row.length("cmp_max_abs_thickness_delta") {
        Ok(v) => v,
        Err(e) => {
            return Err(e);
        },
    };
    Ok(
        Some(
            CmpModel {
                target_density,
                nominal_thickness,
                thickness_sensitivity,
                max_abs_thickness_delta,
            },
        ),
    )
}

/// What is wrong with `antenna` rows, in reading order.
pub open spec fn antenna_fault(r: Row) -> Option<Fault> {
    or(r.least_layers(2),
    or(r.positive_fault("max_ratio"@),
    or(r.opt_length_fault("sidewall_thickness"@),
    r.severity_fault())))
}

/// An `antenna` table holds exactly a list of deck rows.
pub open spec fn antenna_holds(
    t: &AntennaTable,
    rules: &RuleTable,
    strings: &StrTable,
    rows: Seq<u32>,
) -> bool {
    &&& head_holds(&t.head, rules, strings, rows)
    &&& t.gate@.len() == rows.len()
    &&& t.max_ratio@.len() == rows.len()
    &&& starts_hold(t.collector_start@, rows.len(), t.collector@.len())
    &&& t.collector_measure@.len() == t.collector@.len()
    &&& forall|i: int|
        0 <= i < rows.len() ==> {
            let r = row_at(rules, strings, #[trigger] rows[i]);
            &&& t.gate@[i] == LayerRef::Base(r.listed()[0])
            &&& t.max_ratio@[i] == r.number_of("max_ratio"@)
            &&& run(t.collector_start@, t.collector@, i) == bases(r.listed().skip(1))
            &&& run(t.collector_start@, t.collector_measure@, i) == Seq::new(
                (r.listed().len() - 1) as nat,
                |j: int| measure_of(r),
            )
        }
}

impl Default for AntennaTable {
    fn default() -> (t: AntennaTable)
        ensures
            forall|rules: &RuleTable, strings: &StrTable|
                #[trigger] antenna_holds(&t, rules, strings, Seq::empty()),
            t.head.rows() == 0,
            t.collector@.len() == 0,
    {
        AntennaTable {
            head: RuleHead::default(),
            gate: Vec::new(),
            max_ratio: Vec::new(),
            collector_start: Vec::new(),
            collector: Vec::new(),
            collector_measure: Vec::new(),
        }
    }
}

/// File one `antenna` row.
pub fn file_antenna(
    table: &mut AntennaTable,
    row: &Row,
    Ghost(rows): Ghost<Seq<u32>>,
    Ghost(s): Ghost<u32>,
) -> (r: Result<(), ErcError>)
    requires
        row.wf(),
        s == row.at,
        antenna_holds(old(table), row.rules, row.strings, rows),
        old(table).collector@.len() + row.spec().layer_len <= 0xFFFF_FFFF,
    ensures
        reads(r, row.title(), antenna_fault(*row)),
        r is Ok ==> antenna_holds(final(table), row.rules, row.strings, rows.push(s)),
        r is Ok ==> final(table).collector@.len() <= old(table).collector@.len()
            + row.spec().layer_len,
{
    let layers = match row.layers_from(2) {
        Ok(v) => v,
        Err(e) => {
            return Err(e);
        },
    };
    let max_ratio = match row.positive("max_ratio") {
        Ok(v) => v,
        Err(e) => {
            return Err(e);
        },
    };
    let thickness = match row.opt_length("sidewall_thickness") {
        Ok(v) => v,
        Err(e) => {
            return Err(e);
        },
    };
    let measure = match thickness {
        Some(thickness) => AntennaMeasure::Sidewall { thickness },
        None => AntennaMeasure::Area,
    };
    let ghost before = *table;
    match push_head(&mut table.head, row) {
        Ok(_) => {},
        Err(e) => {
            return Err(e);
        },
    }
    table.gate.push(LayerRef::Base(layers[0]));
    table.max_ratio.push(max_ratio);
    let run_0 = base_layers(&layers, 1);
    extend(&mut table.collector, &run_0);
    let run_1 = repeated(measure, layers.len() - 1);
    extend(&mut table.collector_measure, &run_1);
    let end: usize = table.collector.len();
    close_csr(&mut table.collector_start, end);
    proof {
        let now = rows.push(s);
        let r = row_at(row.rules, row.strings, s);
        assert(r == *row);
        lemma_closed(before.collector_start@, rows.len(), before.collector@, run_0@);
        assert(run_0@ =~= bases(r.listed().skip(1)));
        lemma_closed(before.collector_start@, rows.len(), before.collector_measure@, run_1@);
        assert(run_1@ =~= Seq::new((r.listed().len() - 1) as nat, |j: int| measure_of(r)));
        assert forall|i: int| 0 <= i < now.len() implies table.head.rule@[i] == row_at(
            row.rules,
            row.strings,
            #[trigger] now[i],
        ).spec().id
            && table.head.severity@[i] == row_at(row.rules, row.strings, now[i]).severity_of() by {
            if i < rows.len() {
                assert(now[i] == rows[i]);
            }
        }
        assert forall|i: int| 0 <= i < now.len() implies {
            let r = row_at(row.rules, row.strings, #[trigger] now[i]);
            &&& table.gate@[i] == LayerRef::Base(r.listed()[0])
            &&& table.max_ratio@[i] == r.number_of("max_ratio"@)
            &&& run(table.collector_start@, table.collector@, i) == bases(r.listed().skip(1))
            &&& run(table.collector_start@, table.collector_measure@, i) == Seq::new(
                (r.listed().len() - 1) as nat,
                |j: int| measure_of(r),
            )
        } by {
            if i < rows.len() {
                assert(now[i] == rows[i]);
                assert(
                    run(before.collector_start@, before.collector@, i) == run(
                        table.collector_start@,
                        table.collector@,
                        i,
                    )
                );
                assert(
                    run(before.collector_start@, before.collector_measure@, i) == run(
                        table.collector_start@,
                        table.collector_measure@,
                        i,
                    )
                );
            }
        }
    }
    Ok(())
}

/// What is wrong with `antenna_electrical` rows, in reading order.
pub open spec fn antenna_electrical_fault(r: Row) -> Option<Fault> {
    or(r.least_layers(2),
    or(r.positive_fault("max_ratio"@),
    or(r.opt_layer_fault("diode_layer"@),
    or(r.opt_number_fault("diode_credit"@),
    or(r.opt_number_fault("diode_bonus"@),
    r.severity_fault())))))
}

/// An `antenna_electrical` table holds exactly a list of deck rows.
pub open spec fn antenna_electrical_holds(
    t: &AntennaElectricalTable,
    rules: &RuleTable,
    strings: &StrTable,
    rows: Seq<u32>,
) -> bool {
    &&& head_holds(&t.head, rules, strings, rows)
    &&& t.gate@.len() == rows.len()
    &&& t.diode@.len() == rows.len()
    &&& t.diode_credit@.len() == rows.len()
    &&& t.diode_bonus@.len() == rows.len()
    &&& t.max_ratio@.len() == rows.len()
    &&& starts_hold(t.collector_start@, rows.len(), t.collector@.len())
    &&& forall|i: int|
        0 <= i < rows.len() ==> {
            let r = row_at(rules, strings, #[trigger] rows[i]);
            &&& t.gate@[i] == LayerRef::Base(r.listed()[0])
            &&& t.diode@[i] == diode_of(r)
            &&& t.diode_credit@[i] == r.opt_number_of("diode_credit"@, Number { bits: 0 })
            &&& t.diode_bonus@[i] == r.opt_number_of("diode_bonus"@, Number { bits: 0 })
            &&& t.max_ratio@[i] == r.number_of("max_ratio"@)
            &&& run(t.collector_start@, t.collector@, i) == bases(r.listed().skip(1))
        }
}

impl Default for AntennaElectricalTable {
    fn default() -> (t: AntennaElectricalTable)
        ensures
            forall|rules: &RuleTable, strings: &StrTable|
                #[trigger] antenna_electrical_holds(&t, rules, strings, Seq::empty()),
            t.head.rows() == 0,
            t.collector@.len() == 0,
    {
        AntennaElectricalTable {
            head: RuleHead::default(),
            gate: Vec::new(),
            diode: Vec::new(),
            diode_credit: Vec::new(),
            diode_bonus: Vec::new(),
            max_ratio: Vec::new(),
            collector_start: Vec::new(),
            collector: Vec::new(),
        }
    }
}

/// File one `antenna_electrical` row.
pub fn file_antenna_electrical(
    table: &mut AntennaElectricalTable,
    row: &Row,
    Ghost(rows): Ghost<Seq<u32>>,
    Ghost(s): Ghost<u32>,
) -> (r: Result<(), ErcError>)
    requires
        row.wf(),
        s == row.at,
        antenna_electrical_holds(old(table), row.rules, row.strings, rows),
        old(table).collector@.len() + row.spec().layer_len <= 0xFFFF_FFFF,
    ensures
        reads(r, row.title(), antenna_electrical_fault(*row)),
        r is Ok ==> antenna_electrical_holds(final(table), row.rules, row.strings, rows.push(s)),
        r is Ok ==> final(table).collector@.len() <= old(table).collector@.len()
            + row.spec().layer_len,
{
    let layers = match row.layers_from(2) {
        Ok(v) => v,
        Err(e) => {
            return Err(e);
        },
    };
    let max_ratio = match row.positive("max_ratio") {
        Ok(v) => v,
        Err(e) => {
            return Err(e);
        },
    };
    let diode = match row.opt_layer("diode_layer") {
        Ok(v) => v,
        Err(e) => {
            return Err(e);
        },
    };
    let credit = match row.opt_number("diode_credit", Number { bits: 0 }) {
        Ok(v) => v,
        Err(e) => {
            return Err(e);
        },
    };
    let bonus = match row.opt_number("diode_bonus", Number { bits: 0 }) {
        Ok(v) => v,
        Err(e) => {
            return Err(e);
        },
    };
    let ghost before = *table;
    match push_head(&mut table.head, row) {
        Ok(_) => {},
        Err(e) => {
            return Err(e);
        },
    }
    table.gate.push(LayerRef::Base(layers[0]));
    table.diode.push(match diode {
            Some(layer) => Some(LayerRef::Base(layer)),
            None => None,
        });
    table.diode_credit.push(credit);
    table.diode_bonus.push(bonus);
    table.max_ratio.push(max_ratio);
    let run_0 = base_layers(&layers, 1);
    extend(&mut table.collector, &run_0);
    let end: usize = table.collector.len();
    close_csr(&mut table.collector_start, end);
    proof {
        let now = rows.push(s);
        let r = row_at(row.rules, row.strings, s);
        assert(r == *row);
        lemma_closed(before.collector_start@, rows.len(), before.collector@, run_0@);
        assert(run_0@ =~= bases(r.listed().skip(1)));
        assert forall|i: int| 0 <= i < now.len() implies table.head.rule@[i] == row_at(
            row.rules,
            row.strings,
            #[trigger] now[i],
        ).spec().id
            && table.head.severity@[i] == row_at(row.rules, row.strings, now[i]).severity_of() by {
            if i < rows.len() {
                assert(now[i] == rows[i]);
            }
        }
        assert forall|i: int| 0 <= i < now.len() implies {
            let r = row_at(row.rules, row.strings, #[trigger] now[i]);
            &&& table.gate@[i] == LayerRef::Base(r.listed()[0])
            &&& table.diode@[i] == diode_of(r)
            &&& table.diode_credit@[i] == r.opt_number_of("diode_credit"@, Number { bits: 0 })
            &&& table.diode_bonus@[i] == r.opt_number_of("diode_bonus"@, Number { bits: 0 })
            &&& table.max_ratio@[i] == r.number_of("max_ratio"@)
            &&& run(table.collector_start@, table.collector@, i) == bases(r.listed().skip(1))
        } by {
            if i < rows.len() {
                assert(now[i] == rows[i]);
                assert(
                    run(before.collector_start@, before.collector@, i) == run(
                        table.collector_start@,
                        table.collector@,
                        i,
                    )
                );
            }
        }
    }
    Ok(())
}

/// What is wrong with `density_cmp` rows, in reading order.
pub open spec fn density_cmp_fault(r: Row) -> Option<Fault> {
    or(r.exact_layers(1),
    or(r.length_fault("window_x"@),
    or(r.length_fault("window_y"@),
    or(r.length_fault("step_x"@),
    or(r.length_fault("step_y"@),
    or(r.opt_fraction_fault("min_density"@),
    or(r.opt_fraction_fault("max_density"@),
    or(r.opt_fraction_fault("max_neighbour_delta"@),
    or(r.flag_fault("include_partial_windows"@),
    or(model_fault(r),
    or(unbounded_fault(r),
    r.severity_fault())))))))))))
}

/// An `density_cmp` table holds exactly a list of deck rows.
pub open spec fn density_cmp_holds(
    t: &DensityCmpTable,
    rules: &RuleTable,
    strings: &StrTable,
    rows: Seq<u32>,
) -> bool {
    &&& head_holds(&t.head, rules, strings, rows)
    &&& t.layer@.len() == rows.len()
    &&& t.window@.len() == rows.len()
    &&& t.step@.len() == rows.len()
    &&& t.min_density@.len() == rows.len()
    &&& t.max_density@.len() == rows.len()
    &&& t.max_neighbour_delta@.len() == rows.len()
    &&& t.cmp@.len() == rows.len()
    &&& t.include_partial_windows@.len() == rows.len()
    &&& forall|i: int|
        0 <= i < rows.len() ==> {
            let r = row_at(rules, strings, #[trigger] rows[i]);
            &&& t.layer@[i] == LayerRef::Base(r.listed()[0])
            &&& t.window@[i] == (r.length_of("window_x"@), r.length_of("window_y"@))
            &&& t.step@[i] == (r.length_of("step_x"@), r.length_of("step_y"@))
            &&& t.min_density@[i] == r.opt_fraction_of("min_density"@)
            &&& t.max_density@[i] == r.opt_fraction_of("max_density"@)
            &&& t.max_neighbour_delta@[i] == r.opt_fraction_of("max_neighbour_delta"@)
            &&& t.cmp@[i] == model_of(r)
            &&& t.include_partial_windows@[i] == r.flag_of("include_partial_windows"@, true)
        }
}

impl Default for DensityCmpTable {
    fn default() -> (t: DensityCmpTable)
        ensures
            forall|rules: &RuleTable, strings: &StrTable|
                #[trigger] density_cmp_holds(&t, rules, strings, Seq::empty()),
            t.head.rows() == 0,
    {
        DensityCmpTable {
            head: RuleHead::default(),
            layer: Vec::new(),
            window: Vec::new(),
            step: Vec::new(),
            min_density: Vec::new(),
            max_density: Vec::new(),
            max_neighbour_delta: Vec::new(),
            cmp: Vec::new(),
            include_partial_windows: Vec::new(),
        }
    }
}

/// File one `density_cmp` row.
pub fn file_density_cmp(
    table: &mut DensityCmpTable,
    row: &Row,
    Ghost(rows): Ghost<Seq<u32>>,
    Ghost(s): Ghost<u32>,
) -> (r: Result<(), ErcError>)
    requires
        row.wf(),
        s == row.at,
        density_cmp_holds(old(table), row.rules, row.strings, rows),
    ensures
        reads(r, row.title(), density_cmp_fault(*row)),
        r is Ok ==> density_cmp_holds(final(table), row.rules, row.strings, rows.push(s)),
{
    let layers = match row.layers(1) {
        Ok(v) => v,
        Err(e) => {
            return Err(e);
        },
    };
    let window_x: i64 = match row.length("window_x") {
        Ok(v) => v,
        Err(e) => {
            return Err(e);
        },
    };
    let window_y: i64 = match row.length("window_y") {
        Ok(v) => v,
        Err(e) => {
            return Err(e);
        },
    };
    let step_x: i64 = match row.length("step_x") {
        Ok(v) => v,
        Err(e) => {
            return Err(e);
        },
    };
    let step_y: i64 = match row.length("step_y") {
        Ok(v) => v,
        Err(e) => {
            return Err(e);
        },
    };
    let min_density = match row.opt_fraction("min_density") {
        Ok(v) => v,
        Err(e) => {
            return Err(e);
        },
    };
    let max_density = match row.opt_fraction("max_density") {
        Ok(v) => v,
        Err(e) => {
            return Err(e);
        },
    };
    let max_neighbour_delta = match row.opt_fraction("max_neighbour_delta") {
        Ok(v) => v,
        Err(e) => {
            return Err(e);
        },
    };
    let partial: bool = match row.flag("include_partial_windows", true) {
        Ok(v) => v,
        Err(e) => {
            return Err(e);
        },
    };
    let model = match read_model(row) {
        Ok(v) => v,
        Err(e) => {
            return Err(e);
        },
    };
    if min_density.is_none() && max_density.is_none() && max_neighbour_delta.is_none()
        && model.is_none() {
        return Err(ErcError::MissingParam { rule: row.name(), param: "max_density" });
    }
    let ghost before = *table;
    match push_head(&mut table.head, row) {
        Ok(_) => {},
        Err(e) => {
            return Err(e);
        },
    }
    table.layer.push(LayerRef::Base(layers[0]));
    table.window.push((window_x, window_y));
    table.step.push((step_x, step_y));
    table.min_density.push(min_density);
    table.max_density.push(max_density);
    table.max_neighbour_delta.push(max_neighbour_delta);
    table.cmp.push(model);
    table.include_partial_windows.push(partial);
    proof {
        let now = rows.push(s);
        let r = row_at(row.rules, row.strings, s);
        assert(r == *row);
        assert forall|i: int| 0 <= i < now.len() implies table.head.rule@[i] == row_at(
            row.rules,
            row.strings,
            #[trigger] now[i],
        ).spec().id
            && table.head.severity@[i] == row_at(row.rules, row.strings, now[i]).severity_of() by {
            if i < rows.len() {
                assert(now[i] == rows[i]);
            }
        }
        assert forall|i: int| 0 <= i < now.len() implies {
            let r = row_at(row.rules, row.strings, #[trigger] now[i]);
            &&& table.layer@[i] == LayerRef::Base(r.listed()[0])
            &&& table.window@[i] == (r.length_of("window_x"@), r.length_of("window_y"@))
            &&& table.step@[i] == (r.length_of("step_x"@), r.length_of("step_y"@))
            &&& table.min_density@[i] == r.opt_fraction_of("min_density"@)
            &&& table.max_density@[i] == r.opt_fraction_of("max_density"@)
            &&& table.max_neighbour_delta@[i] == r.opt_fraction_of("max_neighbour_delta"@)
            &&& table.cmp@[i] == model_of(r)
            &&& table.include_partial_windows@[i] == r.flag_of("include_partial_windows"@, true)
        } by {
            if i < rows.len() {
                assert(now[i] == rows[i]);
            }
        }
    }
    Ok(())
}

/// What is wrong with `electromigration` rows, in reading order.
pub open spec fn electromigration_fault(r: Row) -> Option<Fault> {
    or(r.least_layers(1),
    or(r.positive_fault("max_density"@),
    or(r.positive_fault("max_current_per_cut"@),
    or(r.positive_fault("blech_limit"@),
    or(r.positive_fault("reference_temperature"@),
    or(r.positive_fault("activation_energy_ev"@),
    or(r.positive_fault("current_exponent"@),
    r.severity_fault())))))))
}

/// An `electromigration` table holds exactly a list of deck rows.
pub open spec fn electromigration_holds(
    t: &ElectromigrationTable,
    rules: &RuleTable,
    strings: &StrTable,
    rows: Seq<u32>,
) -> bool {
    &&& head_holds(&t.head, rules, strings, rows)
    &&& t.reference_temperature@.len() == rows.len()
    &&& t.activation_energy_ev@.len() == rows.len()
    &&& t.current_exponent@.len() == rows.len()
    &&& starts_hold(t.layer_start@, rows.len(), t.layer@.len())
    &&& t.max_density@.len() == t.layer@.len()
    &&& t.max_current_per_cut@.len() == t.layer@.len()
    &&& t.blech_limit@.len() == t.layer@.len()
    &&& forall|i: int|
        0 <= i < rows.len() ==> {
            let r = row_at(rules, strings, #[trigger] rows[i]);
            &&& t.reference_temperature@[i] == r.number_of("reference_temperature"@)
            &&& t.activation_energy_ev@[i] == r.number_of("activation_energy_ev"@)
            &&& t.current_exponent@[i] == r.number_of("current_exponent"@)
            &&& run(t.layer_start@, t.layer@, i) == r.listed()
            &&& run(t.layer_start@, t.max_density@, i) == Seq::new(
                r.listed().len(),
                |j: int| r.number_of("max_density"@),
            )
            &&& run(t.layer_start@, t.max_current_per_cut@, i) == Seq::new(
                r.listed().len(),
                |j: int| r.number_of("max_current_per_cut"@),
            )
            &&& run(t.layer_start@, t.blech_limit@, i) == Seq::new(
                r.listed().len(),
                |j: int| r.number_of("blech_limit"@),
            )
        }
}

impl Default for ElectromigrationTable {
    fn default() -> (t: ElectromigrationTable)
        ensures
            forall|rules: &RuleTable, strings: &StrTable|
                #[trigger] electromigration_holds(&t, rules, strings, Seq::empty()),
            t.head.rows() == 0,
            t.layer@.len() == 0,
    {
        ElectromigrationTable {
            head: RuleHead::default(),
            reference_temperature: Vec::new(),
            activation_energy_ev: Vec::new(),
            current_exponent: Vec::new(),
            layer_start: Vec::new(),
            layer: Vec::new(),
            max_density: Vec::new(),
            max_current_per_cut: Vec::new(),
            blech_limit: Vec::new(),
        }
    }
}

/// File one `electromigration` row.
pub fn file_electromigration(
    table: &mut ElectromigrationTable,
    row: &Row,
    Ghost(rows): Ghost<Seq<u32>>,
    Ghost(s): Ghost<u32>,
) -> (r: Result<(), ErcError>)
    requires
        row.wf(),
        s == row.at,
        electromigration_holds(old(table), row.rules, row.strings, rows),
        old(table).layer@.len() + row.spec().layer_len <= 0xFFFF_FFFF,
    ensures
        reads(r, row.title(), electromigration_fault(*row)),
        r is Ok ==> electromigration_holds(final(table), row.rules, row.strings, rows.push(s)),
        r is Ok ==> final(table).layer@.len() <= old(table).layer@.len() + row.spec().layer_len,
{
    let layers = match row.layers_from(1) {
        Ok(v) => v,
        Err(e) => {
            return Err(e);
        },
    };
    let max_density = match row.positive("max_density") {
        Ok(v) => v,
        Err(e) => {
            return Err(e);
        },
    };
    let max_current_per_cut = match row.positive("max_current_per_cut") {
        Ok(v) => v,
        Err(e) => {
            return Err(e);
        },
    };
    let blech_limit = match row.positive("blech_limit") {
        Ok(v) => v,
        Err(e) => {
            return Err(e);
        },
    };
    let reference_temperature = match row.positive("reference_temperature") {
        Ok(v) => v,
        Err(e) => {
            return Err(e);
        },
    };
    let activation_energy_ev = match row.positive("activation_energy_ev") {
        Ok(v) => v,
        Err(e) => {
            return Err(e);
        },
    };
    let current_exponent = match row.positive("current_exponent") {
        Ok(v) => v,
        Err(e) => {
            return Err(e);
        },
    };
    let ghost before = *table;
    match push_head(&mut table.head, row) {
        Ok(_) => {},
        Err(e) => {
            return Err(e);
        },
    }
    table.reference_temperature.push(reference_temperature);
    table.activation_energy_ev.push(activation_energy_ev);
    table.current_exponent.push(current_exponent);
    let run_0 = copied(&layers);
    extend(&mut table.layer, &run_0);
    let run_1 = repeated(max_density, layers.len());
    extend(&mut table.max_density, &run_1);
    let run_2 = repeated(max_current_per_cut, layers.len());
    extend(&mut table.max_current_per_cut, &run_2);
    let run_3 = repeated(blech_limit, layers.len());
    extend(&mut table.blech_limit, &run_3);
    let end: usize = table.layer.len();
    close_csr(&mut table.layer_start, end);
    proof {
        let now = rows.push(s);
        let r = row_at(row.rules, row.strings, s);
        assert(r == *row);
        lemma_closed(before.layer_start@, rows.len(), before.layer@, run_0@);
        assert(run_0@ =~= r.listed());
        lemma_closed(before.layer_start@, rows.len(), before.max_density@, run_1@);
        assert(run_1@ =~= Seq::new(r.listed().len(), |j: int| r.number_of("max_density"@)));
        lemma_closed(before.layer_start@, rows.len(), before.max_current_per_cut@, run_2@);
        assert(run_2@ =~= Seq::new(r.listed().len(), |j: int| r.number_of("max_current_per_cut"@)));
        lemma_closed(before.layer_start@, rows.len(), before.blech_limit@, run_3@);
        assert(run_3@ =~= Seq::new(r.listed().len(), |j: int| r.number_of("blech_limit"@)));
        assert forall|i: int| 0 <= i < now.len() implies table.head.rule@[i] == row_at(
            row.rules,
            row.strings,
            #[trigger] now[i],
        ).spec().id
            && table.head.severity@[i] == row_at(row.rules, row.strings, now[i]).severity_of() by {
            if i < rows.len() {
                assert(now[i] == rows[i]);
            }
        }
        assert forall|i: int| 0 <= i < now.len() implies {
            let r = row_at(row.rules, row.strings, #[trigger] now[i]);
            &&& table.reference_temperature@[i] == r.number_of("reference_temperature"@)
            &&& table.activation_energy_ev@[i] == r.number_of("activation_energy_ev"@)
            &&& table.current_exponent@[i] == r.number_of("current_exponent"@)
            &&& run(table.layer_start@, table.layer@, i) == r.listed()
            &&& run(table.layer_start@, table.max_density@, i) == Seq::new(
                r.listed().len(),
                |j: int| r.number_of("max_density"@),
            )
            &&& run(table.layer_start@, table.max_current_per_cut@, i) == Seq::new(
                r.listed().len(),
                |j: int| r.number_of("max_current_per_cut"@),
            )
            &&& run(table.layer_start@, table.blech_limit@, i) == Seq::new(
                r.listed().len(),
                |j: int| r.number_of("blech_limit"@),
            )
        } by {
            if i < rows.len() {
                assert(now[i] == rows[i]);
                assert(
                    run(before.layer_start@, before.layer@, i) == run(
                        table.layer_start@,
                        table.layer@,
                        i,
                    )
                );
                assert(
                    run(before.layer_start@, before.max_density@, i) == run(
                        table.layer_start@,
                        table.max_density@,
                        i,
                    )
                );
                assert(
                    run(before.layer_start@, before.max_current_per_cut@, i) == run(
                        table.layer_start@,
                        table.max_current_per_cut@,
                        i,
                    )
                );
                assert(
                    run(before.layer_start@, before.blech_limit@, i) == run(
                        table.layer_start@,
                        table.blech_limit@,
                        i,
                    )
                );
            }
        }
    }
    Ok(())
}

/// What is wrong with `em_current_density` rows, in reading order.
pub open spec fn em_current_density_fault(r: Row) -> Option<Fault> {
    or(r.least_layers(1),
    or(r.positive_fault("max_density"@),
    or(r.positive_fault("max_current_per_cut"@),
    r.severity_fault())))
}

/// An `em_current_density` table holds exactly a list of deck rows.
pub open spec fn em_current_density_holds(
    t: &EmCurrentDensityTable,
    rules: &RuleTable,
    strings: &StrTable,
    rows: Seq<u32>,
) -> bool {
    &&& head_holds(&t.head, rules, strings, rows)
    &&& starts_hold(t.layer_start@, rows.len(), t.layer@.len())
    &&& t.max_density@.len() == t.layer@.len()
    &&& t.max_current_per_cut@.len() == t.layer@.len()
    &&& forall|i: int|
        0 <= i < rows.len() ==> {
            let r = row_at(rules, strings, #[trigger] rows[i]);
            &&& run(t.layer_start@, t.layer@, i) == r.listed()
            &&& run(t.layer_start@, t.max_density@, i) == Seq::new(
                r.listed().len(),
                |j: int| r.number_of("max_density"@),
            )
            &&& run(t.layer_start@, t.max_current_per_cut@, i) == Seq::new(
                r.listed().len(),
                |j: int| r.number_of("max_current_per_cut"@),
            )
        }
}

impl Default for EmCurrentDensityTable {
    fn default() -> (t: EmCurrentDensityTable)
        ensures
            forall|rules: &RuleTable, strings: &StrTable|
                #[trigger] em_current_density_holds(&t, rules, strings, Seq::empty()),
            t.head.rows() == 0,
            t.layer@.len() == 0,
    {
        EmCurrentDensityTable {
            head: RuleHead::default(),
            layer_start: Vec::new(),
            layer: Vec::new(),
            max_density: Vec::new(),
            max_current_per_cut: Vec::new(),
        }
    }
}

/// File one `em_current_density` row.
pub fn file_em_current_density(
    table: &mut EmCurrentDensityTable,
    row: &Row,
    Ghost(rows): Ghost<Seq<u32>>,
    Ghost(s): Ghost<u32>,
) -> (r: Result<(), ErcError>)
    requires
        row.wf(),
        s == row.at,
        em_current_density_holds(old(table), row.rules, row.strings, rows),
        old(table).layer@.len() + row.spec().layer_len <= 0xFFFF_FFFF,
    ensures
        reads(r, row.title(), em_current_density_fault(*row)),
        r is Ok ==> em_current_density_holds(final(table), row.rules, row.strings, rows.push(s)),
        r is Ok ==> final(table).layer@.len() <= old(table).layer@.len() + row.spec().layer_len,
{
    let layers = match row.layers_from(1) {
        Ok(v) => v,
        Err(e) => {
            return Err(e);
        },
    };
    let max_density = match row.positive("max_density") {
        Ok(v) => v,
        Err(e) => {
            return Err(e);
        },
    };
    let max_current_per_cut = match row.positive("max_current_per_cut") {
        Ok(v) => v,
        Err(e) => {
            return Err(e);
        },
    };
    let ghost before = *table;
    match push_head(&mut table.head, row) {
        Ok(_) => {},
        Err(e) => {
            return Err(e);
        },
    }
    let run_0 = copied(&layers);
    extend(&mut table.layer, &run_0);
    let run_1 = repeated(max_density, layers.len());
    extend(&mut table.max_density, &run_1);
    let run_2 = repeated(max_current_per_cut, layers.len());
    extend(&mut table.max_current_per_cut, &run_2);
    let end: usize = table.layer.len();
    close_csr(&mut table.layer_start, end);
    proof {
        let now = rows.push(s);
        let r = row_at(row.rules, row.strings, s);
        assert(r == *row);
        lemma_closed(before.layer_start@, rows.len(), before.layer@, run_0@);
        assert(run_0@ =~= r.listed());
        lemma_closed(before.layer_start@, rows.len(), before.max_density@, run_1@);
        assert(run_1@ =~= Seq::new(r.listed().len(), |j: int| r.number_of("max_density"@)));
        lemma_closed(before.layer_start@, rows.len(), before.max_current_per_cut@, run_2@);
        assert(run_2@ =~= Seq::new(r.listed().len(), |j: int| r.number_of("max_current_per_cut"@)));
        assert forall|i: int| 0 <= i < now.len() implies table.head.rule@[i] == row_at(
            row.rules,
            row.strings,
            #[trigger] now[i],
        ).spec().id
            && table.head.severity@[i] == row_at(row.rules, row.strings, now[i]).severity_of() by {
            if i < rows.len() {
                assert(now[i] == rows[i]);
            }
        }
        assert forall|i: int| 0 <= i < now.len() implies {
            let r = row_at(row.rules, row.strings, #[trigger] now[i]);
            &&& run(table.layer_start@, table.layer@, i) == r.listed()
            &&& run(table.layer_start@, table.max_density@, i) == Seq::new(
                r.listed().len(),
                |j: int| r.number_of("max_density"@),
            )
            &&& run(table.layer_start@, table.max_current_per_cut@, i) == Seq::new(
                r.listed().len(),
                |j: int| r.number_of("max_current_per_cut"@),
            )
        } by {
            if i < rows.len() {
                assert(now[i] == rows[i]);
                assert(
                    run(before.layer_start@, before.layer@, i) == run(
                        table.layer_start@,
                        table.layer@,
                        i,
                    )
                );
                assert(
                    run(before.layer_start@, before.max_density@, i) == run(
                        table.layer_start@,
                        table.max_density@,
                        i,
                    )
                );
                assert(
                    run(before.layer_start@, before.max_current_per_cut@, i) == run(
                        table.layer_start@,
                        table.max_current_per_cut@,
                        i,
                    )
                );
            }
        }
    }
    Ok(())
}

/// What is wrong with `esd_latchup` rows, in reading order.
pub open spec fn esd_latchup_fault(r: Row) -> Option<Fault> {
    or(r.exact_layers(2),
    or(r.positive_fault("required_current"@),
    or(r.positive_fault("max_path_resistance"@),
    or(r.positive_fault("max_clamp_voltage"@),
    or(r.length_fault("min_guard_ring_width"@),
    or(r.length_fault("max_tap_distance"@),
    r.severity_fault()))))))
}

/// An `esd_latchup` table holds exactly a list of deck rows.
pub open spec fn esd_latchup_holds(
    t: &EsdLatchupTable,
    rules: &RuleTable,
    strings: &StrTable,
    rows: Seq<u32>,
) -> bool {
    &&& head_holds(&t.head, rules, strings, rows)
    &&& t.pad@.len() == rows.len()
    &&& t.guard_ring@.len() == rows.len()
    &&& t.required_current@.len() == rows.len()
    &&& t.max_path_resistance@.len() == rows.len()
    &&& t.max_clamp_voltage@.len() == rows.len()
    &&& t.min_guard_ring_width@.len() == rows.len()
    &&& t.max_tap_distance@.len() == rows.len()
    &&& starts_hold(t.clamp_start@, rows.len(), t.clamp_model@.len())
    &&& t.clamp_model@.len() == 0
    &&& t.clamp_resistance@.len() == 0
    &&& t.clamp_capacity@.len() == 0
    &&& t.clamp_voltage@.len() == 0
    &&& forall|i: int|
        0 <= i < rows.len() ==> {
            let r = row_at(rules, strings, #[trigger] rows[i]);
            &&& t.pad@[i] == r.listed()[0]
            &&& t.guard_ring@[i] == r.listed()[1]
            &&& t.required_current@[i] == r.number_of("required_current"@)
            &&& t.max_path_resistance@[i] == r.number_of("max_path_resistance"@)
            &&& t.max_clamp_voltage@[i] == r.number_of("max_clamp_voltage"@)
            &&& t.min_guard_ring_width@[i] == r.length_of("min_guard_ring_width"@)
            &&& t.max_tap_distance@[i] == r.length_of("max_tap_distance"@)
        }
}

impl Default for EsdLatchupTable {
    fn default() -> (t: EsdLatchupTable)
        ensures
            forall|rules: &RuleTable, strings: &StrTable|
                #[trigger] esd_latchup_holds(&t, rules, strings, Seq::empty()),
            t.head.rows() == 0,
    {
        EsdLatchupTable {
            head: RuleHead::default(),
            pad: Vec::new(),
            guard_ring: Vec::new(),
            required_current: Vec::new(),
            max_path_resistance: Vec::new(),
            max_clamp_voltage: Vec::new(),
            min_guard_ring_width: Vec::new(),
            max_tap_distance: Vec::new(),
            clamp_start: Vec::new(),
            clamp_model: Vec::new(),
            clamp_resistance: Vec::new(),
            clamp_capacity: Vec::new(),
            clamp_voltage: Vec::new(),
        }
    }
}

/// File one `esd_latchup` row.
pub fn file_esd_latchup(
    table: &mut EsdLatchupTable,
    row: &Row,
    Ghost(rows): Ghost<Seq<u32>>,
    Ghost(s): Ghost<u32>,
) -> (r: Result<(), ErcError>)
    requires
        row.wf(),
        s == row.at,
        esd_latchup_holds(old(table), row.rules, row.strings, rows),
    ensures
        reads(r, row.title(), esd_latchup_fault(*row)),
        r is Ok ==> esd_latchup_holds(final(table), row.rules, row.strings, rows.push(s)),
{
    let layers = match row.layers(2) {
        Ok(v) => v,
        Err(e) => {
            return Err(e);
        },
    };
    let required_current = match row.positive("required_current") {
        Ok(v) => v,
        Err(e) => {
            return Err(e);
        },
    };
    let max_path_resistance = match row.positive("max_path_resistance") {
        Ok(v) => v,
        Err(e) => {
            return Err(e);
        },
    };
    let max_clamp_voltage = match row.positive("max_clamp_voltage") {
        Ok(v) => v,
        Err(e) => {
            return Err(e);
        },
    };
    let min_guard_ring_width: i64 = match row.length("min_guard_ring_width") {
        Ok(v) => v,
        Err(e) => {
            return Err(e);
        },
    };
    let max_tap_distance: i64 = match row.length("max_tap_distance") {
        Ok(v) => v,
        Err(e) => {
            return Err(e);
        },
    };
    let ghost before = *table;
    match push_head(&mut table.head, row) {
        Ok(_) => {},
        Err(e) => {
            return Err(e);
        },
    }
    table.pad.push(layers[0]);
    table.guard_ring.push(layers[1]);
    table.required_current.push(required_current);
    table.max_path_resistance.push(max_path_resistance);
    table.max_clamp_voltage.push(max_clamp_voltage);
    table.min_guard_ring_width.push(min_guard_ring_width);
    table.max_tap_distance.push(max_tap_distance);
    let end: usize = table.clamp_model.len();
    close_csr(&mut table.clamp_start, end);
    proof {
        let now = rows.push(s);
        let r = row_at(row.rules, row.strings, s);
        assert(r == *row);
        lemma_closed(before.clamp_start@, rows.len(), before.clamp_model@, before.clamp_model@);
        assert(before.clamp_model@ + before.clamp_model@ =~= before.clamp_model@);
        assert forall|i: int| 0 <= i < now.len() implies table.head.rule@[i] == row_at(
            row.rules,
            row.strings,
            #[trigger] now[i],
        ).spec().id
            && table.head.severity@[i] == row_at(row.rules, row.strings, now[i]).severity_of() by {
            if i < rows.len() {
                assert(now[i] == rows[i]);
            }
        }
        assert forall|i: int| 0 <= i < now.len() implies {
            let r = row_at(row.rules, row.strings, #[trigger] now[i]);
            &&& table.pad@[i] == r.listed()[0]
            &&& table.guard_ring@[i] == r.listed()[1]
            &&& table.required_current@[i] == r.number_of("required_current"@)
            &&& table.max_path_resistance@[i] == r.number_of("max_path_resistance"@)
            &&& table.max_clamp_voltage@[i] == r.number_of("max_clamp_voltage"@)
            &&& table.min_guard_ring_width@[i] == r.length_of("min_guard_ring_width"@)
            &&& table.max_tap_distance@[i] == r.length_of("max_tap_distance"@)
        } by {
            if i < rows.len() {
                assert(now[i] == rows[i]);
            }
        }
    }
    Ok(())
}

/// What is wrong with `esd_topological` rows, in reading order.
pub open spec fn esd_topological_fault(r: Row) -> Option<Fault> {
    or(r.exact_layers(1), r.severity_fault())
}

/// An `esd_topological` table holds exactly a list of deck rows.
pub open spec fn esd_topological_holds(
    t: &EsdTopologicalTable,
    rules: &RuleTable,
    strings: &StrTable,
    rows: Seq<u32>,
) -> bool {
    &&& head_holds(&t.head, rules, strings, rows)
    &&& t.pad@.len() == rows.len()
    &&& starts_hold(t.clamp_start@, rows.len(), t.clamp_model@.len())
    &&& t.clamp_model@.len() == 0
    &&& forall|i: int|
        0 <= i < rows.len() ==> {
            let r = row_at(rules, strings, #[trigger] rows[i]);
            &&& t.pad@[i] == r.listed()[0]
        }
}

impl Default for EsdTopologicalTable {
    fn default() -> (t: EsdTopologicalTable)
        ensures
            forall|rules: &RuleTable, strings: &StrTable|
                #[trigger] esd_topological_holds(&t, rules, strings, Seq::empty()),
            t.head.rows() == 0,
    {
        EsdTopologicalTable {
            head: RuleHead::default(),
            pad: Vec::new(),
            clamp_start: Vec::new(),
            clamp_model: Vec::new(),
        }
    }
}

/// File one `esd_topological` row.
pub fn file_esd_topological(
    table: &mut EsdTopologicalTable,
    row: &Row,
    Ghost(rows): Ghost<Seq<u32>>,
    Ghost(s): Ghost<u32>,
) -> (r: Result<(), ErcError>)
    requires
        row.wf(),
        s == row.at,
        esd_topological_holds(old(table), row.rules, row.strings, rows),
    ensures
        reads(r, row.title(), esd_topological_fault(*row)),
        r is Ok ==> esd_topological_holds(final(table), row.rules, row.strings, rows.push(s)),
{
    let layers = match row.layers(1) {
        Ok(v) => v,
        Err(e) => {
            return Err(e);
        },
    };
    let ghost before = *table;
    match push_head(&mut table.head, row) {
        Ok(_) => {},
        Err(e) => {
            return Err(e);
        },
    }
    table.pad.push(layers[0]);
    let end: usize = table.clamp_model.len();
    close_csr(&mut table.clamp_start, end);
    proof {
        let now = rows.push(s);
        let r = row_at(row.rules, row.strings, s);
        assert(r == *row);
        lemma_closed(before.clamp_start@, rows.len(), before.clamp_model@, before.clamp_model@);
        assert(before.clamp_model@ + before.clamp_model@ =~= before.clamp_model@);
        assert forall|i: int| 0 <= i < now.len() implies table.head.rule@[i] == row_at(
            row.rules,
            row.strings,
            #[trigger] now[i],
        ).spec().id
            && table.head.severity@[i] == row_at(row.rules, row.strings, now[i]).severity_of() by {
            if i < rows.len() {
                assert(now[i] == rows[i]);
            }
        }
        assert forall|i: int| 0 <= i < now.len() implies {
            let r = row_at(row.rules, row.strings, #[trigger] now[i]);
            &&& table.pad@[i] == r.listed()[0]
        } by {
            if i < rows.len() {
                assert(now[i] == rows[i]);
            }
        }
    }
    Ok(())
}

/// What is wrong with `floating_gate` rows, in reading order.
pub open spec fn floating_gate_fault(r: Row) -> Option<Fault> {
    or(r.exact_layers(0), r.severity_fault())
}

/// An `floating_gate` table holds exactly a list of deck rows.
pub open spec fn floating_gate_holds(
    t: &FloatingGateTable,
    rules: &RuleTable,
    strings: &StrTable,
    rows: Seq<u32>,
) -> bool {
    &&& head_holds(&t.head, rules, strings, rows)
}

impl Default for FloatingGateTable {
    fn default() -> (t: FloatingGateTable)
        ensures
            forall|rules: &RuleTable, strings: &StrTable|
                #[trigger] floating_gate_holds(&t, rules, strings, Seq::empty()),
            t.head.rows() == 0,
    {
        FloatingGateTable {
            head: RuleHead::default(),
        }
    }
}

/// File one `floating_gate` row.
pub fn file_floating_gate(
    table: &mut FloatingGateTable,
    row: &Row,
    Ghost(rows): Ghost<Seq<u32>>,
    Ghost(s): Ghost<u32>,
) -> (r: Result<(), ErcError>)
    requires
        row.wf(),
        s == row.at,
        floating_gate_holds(old(table), row.rules, row.strings, rows),
    ensures
        reads(r, row.title(), floating_gate_fault(*row)),
        r is Ok ==> floating_gate_holds(final(table), row.rules, row.strings, rows.push(s)),
{
    let _layers = match row.layers(0) {
        Ok(v) => v,
        Err(e) => {
            return Err(e);
        },
    };
    let ghost before = *table;
    match push_head(&mut table.head, row) {
        Ok(_) => {},
        Err(e) => {
            return Err(e);
        },
    }
    proof {
        let now = rows.push(s);
        let r = row_at(row.rules, row.strings, s);
        assert(r == *row);
        assert forall|i: int| 0 <= i < now.len() implies table.head.rule@[i] == row_at(
            row.rules,
            row.strings,
            #[trigger] now[i],
        ).spec().id
            && table.head.severity@[i] == row_at(row.rules, row.strings, now[i]).severity_of() by {
            if i < rows.len() {
                assert(now[i] == rows[i]);
            }
        }
    }
    Ok(())
}

/// What is wrong with `floating_well` rows, in reading order.
pub open spec fn floating_well_fault(r: Row) -> Option<Fault> {
    or(r.exact_layers(2), r.severity_fault())
}

/// An `floating_well` table holds exactly a list of deck rows.
pub open spec fn floating_well_holds(
    t: &FloatingWellTable,
    rules: &RuleTable,
    strings: &StrTable,
    rows: Seq<u32>,
) -> bool {
    &&& head_holds(&t.head, rules, strings, rows)
    &&& t.well@.len() == rows.len()
    &&& t.tap@.len() == rows.len()
    &&& forall|i: int|
        0 <= i < rows.len() ==> {
            let r = row_at(rules, strings, #[trigger] rows[i]);
            &&& t.well@[i] == LayerRef::Base(r.listed()[0])
            &&& t.tap@[i] == LayerRef::Base(r.listed()[1])
        }
}

impl Default for FloatingWellTable {
    fn default() -> (t: FloatingWellTable)
        ensures
            forall|rules: &RuleTable, strings: &StrTable|
                #[trigger] floating_well_holds(&t, rules, strings, Seq::empty()),
            t.head.rows() == 0,
    {
        FloatingWellTable {
            head: RuleHead::default(),
            well: Vec::new(),
            tap: Vec::new(),
        }
    }
}

/// File one `floating_well` row.
pub fn file_floating_well(
    table: &mut FloatingWellTable,
    row: &Row,
    Ghost(rows): Ghost<Seq<u32>>,
    Ghost(s): Ghost<u32>,
) -> (r: Result<(), ErcError>)
    requires
        row.wf(),
        s == row.at,
        floating_well_holds(old(table), row.rules, row.strings, rows),
    ensures
        reads(r, row.title(), floating_well_fault(*row)),
        r is Ok ==> floating_well_holds(final(table), row.rules, row.strings, rows.push(s)),
{
    let layers = match row.layers(2) {
        Ok(v) => v,
        Err(e) => {
            return Err(e);
        },
    };
    let ghost before = *table;
    match push_head(&mut table.head, row) {
        Ok(_) => {},
        Err(e) => {
            return Err(e);
        },
    }
    table.well.push(LayerRef::Base(layers[0]));
    table.tap.push(LayerRef::Base(layers[1]));
    proof {
        let now = rows.push(s);
        let r = row_at(row.rules, row.strings, s);
        assert(r == *row);
        assert forall|i: int| 0 <= i < now.len() implies table.head.rule@[i] == row_at(
            row.rules,
            row.strings,
            #[trigger] now[i],
        ).spec().id
            && table.head.severity@[i] == row_at(row.rules, row.strings, now[i]).severity_of() by {
            if i < rows.len() {
                assert(now[i] == rows[i]);
            }
        }
        assert forall|i: int| 0 <= i < now.len() implies {
            let r = row_at(row.rules, row.strings, #[trigger] now[i]);
            &&& table.well@[i] == LayerRef::Base(r.listed()[0])
            &&& table.tap@[i] == LayerRef::Base(r.listed()[1])
        } by {
            if i < rows.len() {
                assert(now[i] == rows[i]);
            }
        }
    }
    Ok(())
}

/// What is wrong with `hv_domain` rows, in reading order.
pub open spec fn hv_domain_fault(r: Row) -> Option<Fault> {
    or(r.exact_layers(0),
    or(r.positive_fault("max_domain_delta"@),
    or(r.opt_layer_fault("isolation"@),
    r.severity_fault())))
}

/// An `hv_domain` table holds exactly a list of deck rows.
pub open spec fn hv_domain_holds(
    t: &HvDomainTable,
    rules: &RuleTable,
    strings: &StrTable,
    rows: Seq<u32>,
) -> bool {
    &&& head_holds(&t.head, rules, strings, rows)
    &&& t.max_domain_delta@.len() == rows.len()
    &&& t.isolation@.len() == rows.len()
    &&& forall|i: int|
        0 <= i < rows.len() ==> {
            let r = row_at(rules, strings, #[trigger] rows[i]);
            &&& t.max_domain_delta@[i] == r.number_of("max_domain_delta"@)
            &&& t.isolation@[i] == r.opt_layer_of("isolation"@)
        }
}

impl Default for HvDomainTable {
    fn default() -> (t: HvDomainTable)
        ensures
            forall|rules: &RuleTable, strings: &StrTable|
                #[trigger] hv_domain_holds(&t, rules, strings, Seq::empty()),
            t.head.rows() == 0,
    {
        HvDomainTable {
            head: RuleHead::default(),
            max_domain_delta: Vec::new(),
            isolation: Vec::new(),
        }
    }
}

/// File one `hv_domain` row.
pub fn file_hv_domain(
    table: &mut HvDomainTable,
    row: &Row,
    Ghost(rows): Ghost<Seq<u32>>,
    Ghost(s): Ghost<u32>,
) -> (r: Result<(), ErcError>)
    requires
        row.wf(),
        s == row.at,
        hv_domain_holds(old(table), row.rules, row.strings, rows),
    ensures
        reads(r, row.title(), hv_domain_fault(*row)),
        r is Ok ==> hv_domain_holds(final(table), row.rules, row.strings, rows.push(s)),
{
    let _layers = match row.layers(0) {
        Ok(v) => v,
        Err(e) => {
            return Err(e);
        },
    };
    let max_domain_delta = match row.positive("max_domain_delta") {
        Ok(v) => v,
        Err(e) => {
            return Err(e);
        },
    };
    let isolation = match row.opt_layer("isolation") {
        Ok(v) => v,
        Err(e) => {
            return Err(e);
        },
    };
    let ghost before = *table;
    match push_head(&mut table.head, row) {
        Ok(_) => {},
        Err(e) => {
            return Err(e);
        },
    }
    table.max_domain_delta.push(max_domain_delta);
    table.isolation.push(isolation);
    proof {
        let now = rows.push(s);
        let r = row_at(row.rules, row.strings, s);
        assert(r == *row);
        assert forall|i: int| 0 <= i < now.len() implies table.head.rule@[i] == row_at(
            row.rules,
            row.strings,
            #[trigger] now[i],
        ).spec().id
            && table.head.severity@[i] == row_at(row.rules, row.strings, now[i]).severity_of() by {
            if i < rows.len() {
                assert(now[i] == rows[i]);
            }
        }
        assert forall|i: int| 0 <= i < now.len() implies {
            let r = row_at(row.rules, row.strings, #[trigger] now[i]);
            &&& table.max_domain_delta@[i] == r.number_of("max_domain_delta"@)
            &&& table.isolation@[i] == r.opt_layer_of("isolation"@)
        } by {
            if i < rows.len() {
                assert(now[i] == rows[i]);
            }
        }
    }
    Ok(())
}

/// What is wrong with `ir_drop` rows, in reading order.
pub open spec fn ir_drop_fault(r: Row) -> Option<Fault> {
    or(r.exact_layers(0), r.severity_fault())
}

/// An `ir_drop` table holds exactly a list of deck rows.
pub open spec fn ir_drop_holds(
    t: &IrDropTable,
    rules: &RuleTable,
    strings: &StrTable,
    rows: Seq<u32>,
) -> bool {
    &&& head_holds(&t.head, rules, strings, rows)
}

impl Default for IrDropTable {
    fn default() -> (t: IrDropTable)
        ensures
            forall|rules: &RuleTable, strings: &StrTable|
                #[trigger] ir_drop_holds(&t, rules, strings, Seq::empty()),
            t.head.rows() == 0,
    {
        IrDropTable {
            head: RuleHead::default(),
        }
    }
}

/// File one `ir_drop` row.
pub fn file_ir_drop(
    table: &mut IrDropTable,
    row: &Row,
    Ghost(rows): Ghost<Seq<u32>>,
    Ghost(s): Ghost<u32>,
) -> (r: Result<(), ErcError>)
    requires
        row.wf(),
        s == row.at,
        ir_drop_holds(old(table), row.rules, row.strings, rows),
    ensures
        reads(r, row.title(), ir_drop_fault(*row)),
        r is Ok ==> ir_drop_holds(final(table), row.rules, row.strings, rows.push(s)),
{
    let _layers = match row.layers(0) {
        Ok(v) => v,
        Err(e) => {
            return Err(e);
        },
    };
    let ghost before = *table;
    match push_head(&mut table.head, row) {
        Ok(_) => {},
        Err(e) => {
            return Err(e);
        },
    }
    proof {
        let now = rows.push(s);
        let r = row_at(row.rules, row.strings, s);
        assert(r == *row);
        assert forall|i: int| 0 <= i < now.len() implies table.head.rule@[i] == row_at(
            row.rules,
            row.strings,
            #[trigger] now[i],
        ).spec().id
            && table.head.severity@[i] == row_at(row.rules, row.strings, now[i]).severity_of() by {
            if i < rows.len() {
                assert(now[i] == rows[i]);
            }
        }
    }
    Ok(())
}

/// What is wrong with `missing_tie` rows, in reading order.
pub open spec fn missing_tie_fault(r: Row) -> Option<Fault> {
    or(r.exact_layers(2), or(r.length_fault("max_distance"@), r.severity_fault()))
}

/// An `missing_tie` table holds exactly a list of deck rows.
pub open spec fn missing_tie_holds(
    t: &MissingTieTable,
    rules: &RuleTable,
    strings: &StrTable,
    rows: Seq<u32>,
) -> bool {
    &&& head_holds(&t.head, rules, strings, rows)
    &&& t.region@.len() == rows.len()
    &&& t.tap@.len() == rows.len()
    &&& t.max_distance@.len() == rows.len()
    &&& forall|i: int|
        0 <= i < rows.len() ==> {
            let r = row_at(rules, strings, #[trigger] rows[i]);
            &&& t.region@[i] == LayerRef::Base(r.listed()[0])
            &&& t.tap@[i] == LayerRef::Base(r.listed()[1])
            &&& t.max_distance@[i] == r.length_of("max_distance"@)
        }
}

impl Default for MissingTieTable {
    fn default() -> (t: MissingTieTable)
        ensures
            forall|rules: &RuleTable, strings: &StrTable|
                #[trigger] missing_tie_holds(&t, rules, strings, Seq::empty()),
            t.head.rows() == 0,
    {
        MissingTieTable {
            head: RuleHead::default(),
            region: Vec::new(),
            tap: Vec::new(),
            max_distance: Vec::new(),
        }
    }
}

/// File one `missing_tie` row.
pub fn file_missing_tie(
    table: &mut MissingTieTable,
    row: &Row,
    Ghost(rows): Ghost<Seq<u32>>,
    Ghost(s): Ghost<u32>,
) -> (r: Result<(), ErcError>)
    requires
        row.wf(),
        s == row.at,
        missing_tie_holds(old(table), row.rules, row.strings, rows),
    ensures
        reads(r, row.title(), missing_tie_fault(*row)),
        r is Ok ==> missing_tie_holds(final(table), row.rules, row.strings, rows.push(s)),
{
    let layers = match row.layers(2) {
        Ok(v) => v,
        Err(e) => {
            return Err(e);
        },
    };
    let max_distance: i64 = match row.length("max_distance") {
        Ok(v) => v,
        Err(e) => {
            return Err(e);
        },
    };
    let ghost before = *table;
    match push_head(&mut table.head, row) {
        Ok(_) => {},
        Err(e) => {
            return Err(e);
        },
    }
    table.region.push(LayerRef::Base(layers[0]));
    table.tap.push(LayerRef::Base(layers[1]));
    table.max_distance.push(max_distance);
    proof {
        let now = rows.push(s);
        let r = row_at(row.rules, row.strings, s);
        assert(r == *row);
        assert forall|i: int| 0 <= i < now.len() implies table.head.rule@[i] == row_at(
            row.rules,
            row.strings,
            #[trigger] now[i],
        ).spec().id
            && table.head.severity@[i] == row_at(row.rules, row.strings, now[i]).severity_of() by {
            if i < rows.len() {
                assert(now[i] == rows[i]);
            }
        }
        assert forall|i: int| 0 <= i < now.len() implies {
            let r = row_at(row.rules, row.strings, #[trigger] now[i]);
            &&& table.region@[i] == LayerRef::Base(r.listed()[0])
            &&& table.tap@[i] == LayerRef::Base(r.listed()[1])
            &&& table.max_distance@[i] == r.length_of("max_distance"@)
        } by {
            if i < rows.len() {
                assert(now[i] == rows[i]);
            }
        }
    }
    Ok(())
}

/// What is wrong with `multiple_drivers` rows, in reading order.
pub open spec fn multiple_drivers_fault(r: Row) -> Option<Fault> {
    or(
        r.exact_layers(0),
        or(r.count_fault("max_drivers"@), or(drivers_fault(r), r.severity_fault())),
    )
}

/// An `multiple_drivers` table holds exactly a list of deck rows.
pub open spec fn multiple_drivers_holds(
    t: &MultipleDriversTable,
    rules: &RuleTable,
    strings: &StrTable,
    rows: Seq<u32>,
) -> bool {
    &&& head_holds(&t.head, rules, strings, rows)
    &&& t.max_drivers@.len() == rows.len()
    &&& forall|i: int|
        0 <= i < rows.len() ==> {
            let r = row_at(rules, strings, #[trigger] rows[i]);
            &&& t.max_drivers@[i] == r.count_of("max_drivers"@)
        }
}

impl Default for MultipleDriversTable {
    fn default() -> (t: MultipleDriversTable)
        ensures
            forall|rules: &RuleTable, strings: &StrTable|
                #[trigger] multiple_drivers_holds(&t, rules, strings, Seq::empty()),
            t.head.rows() == 0,
    {
        MultipleDriversTable {
            head: RuleHead::default(),
            max_drivers: Vec::new(),
        }
    }
}

/// File one `multiple_drivers` row.
pub fn file_multiple_drivers(
    table: &mut MultipleDriversTable,
    row: &Row,
    Ghost(rows): Ghost<Seq<u32>>,
    Ghost(s): Ghost<u32>,
) -> (r: Result<(), ErcError>)
    requires
        row.wf(),
        s == row.at,
        multiple_drivers_holds(old(table), row.rules, row.strings, rows),
    ensures
        reads(r, row.title(), multiple_drivers_fault(*row)),
        r is Ok ==> multiple_drivers_holds(final(table), row.rules, row.strings, rows.push(s)),
{
    let _layers = match row.layers(0) {
        Ok(v) => v,
        Err(e) => {
            return Err(e);
        },
    };
    let max_drivers: u32 = match row.count("max_drivers") {
        Ok(v) => v,
        Err(e) => {
            return Err(e);
        },
    };
    if max_drivers == 0 {
        return Err(row.non_positive("max_drivers"));
    }
    let ghost before = *table;
    match push_head(&mut table.head, row) {
        Ok(_) => {},
        Err(e) => {
            return Err(e);
        },
    }
    table.max_drivers.push(max_drivers);
    proof {
        let now = rows.push(s);
        let r = row_at(row.rules, row.strings, s);
        assert(r == *row);
        assert forall|i: int| 0 <= i < now.len() implies table.head.rule@[i] == row_at(
            row.rules,
            row.strings,
            #[trigger] now[i],
        ).spec().id
            && table.head.severity@[i] == row_at(row.rules, row.strings, now[i]).severity_of() by {
            if i < rows.len() {
                assert(now[i] == rows[i]);
            }
        }
        assert forall|i: int| 0 <= i < now.len() implies {
            let r = row_at(row.rules, row.strings, #[trigger] now[i]);
            &&& table.max_drivers@[i] == r.count_of("max_drivers"@)
        } by {
            if i < rows.len() {
                assert(now[i] == rows[i]);
            }
        }
    }
    Ok(())
}

/// What is wrong with `p2p_resistance` rows, in reading order.
pub open spec fn p2p_resistance_fault(r: Row) -> Option<Fault> {
    or(r.exact_layers(0), or(r.positive_fault("max_resistance"@), r.severity_fault()))
}

/// An `p2p_resistance` table holds exactly a list of deck rows.
pub open spec fn p2p_resistance_holds(
    t: &P2pResistanceTable,
    rules: &RuleTable,
    strings: &StrTable,
    rows: Seq<u32>,
) -> bool {
    &&& head_holds(&t.head, rules, strings, rows)
    &&& t.max_resistance@.len() == rows.len()
    &&& forall|i: int|
        0 <= i < rows.len() ==> {
            let r = row_at(rules, strings, #[trigger] rows[i]);
            &&& t.max_resistance@[i] == r.number_of("max_resistance"@)
        }
}

impl Default for P2pResistanceTable {
    fn default() -> (t: P2pResistanceTable)
        ensures
            forall|rules: &RuleTable, strings: &StrTable|
                #[trigger] p2p_resistance_holds(&t, rules, strings, Seq::empty()),
            t.head.rows() == 0,
    {
        P2pResistanceTable {
            head: RuleHead::default(),
            max_resistance: Vec::new(),
        }
    }
}

/// File one `p2p_resistance` row.
pub fn file_p2p_resistance(
    table: &mut P2pResistanceTable,
    row: &Row,
    Ghost(rows): Ghost<Seq<u32>>,
    Ghost(s): Ghost<u32>,
) -> (r: Result<(), ErcError>)
    requires
        row.wf(),
        s == row.at,
        p2p_resistance_holds(old(table), row.rules, row.strings, rows),
    ensures
        reads(r, row.title(), p2p_resistance_fault(*row)),
        r is Ok ==> p2p_resistance_holds(final(table), row.rules, row.strings, rows.push(s)),
{
    let _layers = match row.layers(0) {
        Ok(v) => v,
        Err(e) => {
            return Err(e);
        },
    };
    let max_resistance = match row.positive("max_resistance") {
        Ok(v) => v,
        Err(e) => {
            return Err(e);
        },
    };
    let ghost before = *table;
    match push_head(&mut table.head, row) {
        Ok(_) => {},
        Err(e) => {
            return Err(e);
        },
    }
    table.max_resistance.push(max_resistance);
    proof {
        let now = rows.push(s);
        let r = row_at(row.rules, row.strings, s);
        assert(r == *row);
        assert forall|i: int| 0 <= i < now.len() implies table.head.rule@[i] == row_at(
            row.rules,
            row.strings,
            #[trigger] now[i],
        ).spec().id
            && table.head.severity@[i] == row_at(row.rules, row.strings, now[i]).severity_of() by {
            if i < rows.len() {
                assert(now[i] == rows[i]);
            }
        }
        assert forall|i: int| 0 <= i < now.len() implies {
            let r = row_at(row.rules, row.strings, #[trigger] now[i]);
            &&& table.max_resistance@[i] == r.number_of("max_resistance"@)
        } by {
            if i < rows.len() {
                assert(now[i] == rows[i]);
            }
        }
    }
    Ok(())
}

/// What is wrong with `reliability` rows, in reading order.
pub open spec fn reliability_fault(r: Row) -> Option<Fault> {
    or(r.exact_layers(0),
    or(r.positive_fault("required_lifetime_hours"@),
    or(r.positive_fault("reference_lifetime_hours"@),
    or(r.positive_fault("reference_stress"@),
    or(r.positive_fault("stress_exponent"@),
    or(r.positive_fault("reference_temperature"@),
    or(r.positive_fault("activation_energy_ev"@),
    or(r.positive_fault("max_abs_voltage"@),
    or(r.fraction_fault("duty_cycle"@),
    or(duty_fault(r),
    r.severity_fault()))))))))))
}

/// An `reliability` table holds exactly a list of deck rows.
pub open spec fn reliability_holds(
    t: &ReliabilityTable,
    rules: &RuleTable,
    strings: &StrTable,
    rows: Seq<u32>,
) -> bool {
    &&& head_holds(&t.head, rules, strings, rows)
    &&& t.required_lifetime_hours@.len() == rows.len()
    &&& t.reference_lifetime_hours@.len() == rows.len()
    &&& t.reference_stress@.len() == rows.len()
    &&& t.stress_exponent@.len() == rows.len()
    &&& t.reference_temperature@.len() == rows.len()
    &&& t.activation_energy_ev@.len() == rows.len()
    &&& t.max_abs_voltage@.len() == rows.len()
    &&& t.duty_cycle@.len() == rows.len()
    &&& t.mechanism@.len() == rows.len()
    &&& forall|i: int|
        0 <= i < rows.len() ==> {
            let r = row_at(rules, strings, #[trigger] rows[i]);
            &&& t.required_lifetime_hours@[i] == r.number_of("required_lifetime_hours"@)
            &&& t.reference_lifetime_hours@[i] == r.number_of("reference_lifetime_hours"@)
            &&& t.reference_stress@[i] == r.number_of("reference_stress"@)
            &&& t.stress_exponent@[i] == r.number_of("stress_exponent"@)
            &&& t.reference_temperature@[i] == r.number_of("reference_temperature"@)
            &&& t.activation_energy_ev@[i] == r.number_of("activation_energy_ev"@)
            &&& t.max_abs_voltage@[i] == r.number_of("max_abs_voltage"@)
            &&& t.duty_cycle@[i] == r.number_of("duty_cycle"@)
            &&& t.mechanism@[i] == r.spec().id
        }
}

impl Default for ReliabilityTable {
    fn default() -> (t: ReliabilityTable)
        ensures
            forall|rules: &RuleTable, strings: &StrTable|
                #[trigger] reliability_holds(&t, rules, strings, Seq::empty()),
            t.head.rows() == 0,
    {
        ReliabilityTable {
            head: RuleHead::default(),
            required_lifetime_hours: Vec::new(),
            reference_lifetime_hours: Vec::new(),
            reference_stress: Vec::new(),
            stress_exponent: Vec::new(),
            reference_temperature: Vec::new(),
            activation_energy_ev: Vec::new(),
            max_abs_voltage: Vec::new(),
            duty_cycle: Vec::new(),
            mechanism: Vec::new(),
        }
    }
}

/// File one `reliability` row.
pub fn file_reliability(
    table: &mut ReliabilityTable,
    row: &Row,
    Ghost(rows): Ghost<Seq<u32>>,
    Ghost(s): Ghost<u32>,
) -> (r: Result<(), ErcError>)
    requires
        row.wf(),
        s == row.at,
        reliability_holds(old(table), row.rules, row.strings, rows),
    ensures
        reads(r, row.title(), reliability_fault(*row)),
        r is Ok ==> reliability_holds(final(table), row.rules, row.strings, rows.push(s)),
{
    let _layers = match row.layers(0) {
        Ok(v) => v,
        Err(e) => {
            return Err(e);
        },
    };
    let required_lifetime_hours = match row.positive("required_lifetime_hours") {
        Ok(v) => v,
        Err(e) => {
            return Err(e);
        },
    };
    let reference_lifetime_hours = match row.positive("reference_lifetime_hours") {
        Ok(v) => v,
        Err(e) => {
            return Err(e);
        },
    };
    let reference_stress = match row.positive("reference_stress") {
        Ok(v) => v,
        Err(e) => {
            return Err(e);
        },
    };
    let stress_exponent = match row.positive("stress_exponent") {
        Ok(v) => v,
        Err(e) => {
            return Err(e);
        },
    };
    let reference_temperature = match row.positive("reference_temperature") {
        Ok(v) => v,
        Err(e) => {
            return Err(e);
        },
    };
    let activation_energy_ev = match row.positive("activation_energy_ev") {
        Ok(v) => v,
        Err(e) => {
            return Err(e);
        },
    };
    let max_abs_voltage = match row.positive("max_abs_voltage") {
        Ok(v) => v,
        Err(e) => {
            return Err(e);
        },
    };
    let duty_cycle = match row.fraction("duty_cycle") {
        Ok(v) => v,
        Err(e) => {
            return Err(e);
        },
    };
    if duty_cycle.at_most(Number { bits: 0 }) {
        return Err(row.non_positive("duty_cycle"));
    }
    let ghost before = *table;
    match push_head(&mut table.head, row) {
        Ok(_) => {},
        Err(e) => {
            return Err(e);
        },
    }
    table.required_lifetime_hours.push(required_lifetime_hours);
    table.reference_lifetime_hours.push(reference_lifetime_hours);
    table.reference_stress.push(reference_stress);
    table.stress_exponent.push(stress_exponent);
    table.reference_temperature.push(reference_temperature);
    table.activation_energy_ev.push(activation_energy_ev);
    table.max_abs_voltage.push(max_abs_voltage);
    table.duty_cycle.push(duty_cycle);
    table.mechanism.push(row.rules.spec[row.at].id);
    proof {
        let now = rows.push(s);
        let r = row_at(row.rules, row.strings, s);
        assert(r == *row);
        assert forall|i: int| 0 <= i < now.len() implies table.head.rule@[i] == row_at(
            row.rules,
            row.strings,
            #[trigger] now[i],
        ).spec().id
            && table.head.severity@[i] == row_at(row.rules, row.strings, now[i]).severity_of() by {
            if i < rows.len() {
                assert(now[i] == rows[i]);
            }
        }
        assert forall|i: int| 0 <= i < now.len() implies {
            let r = row_at(row.rules, row.strings, #[trigger] now[i]);
            &&& table.required_lifetime_hours@[i] == r.number_of("required_lifetime_hours"@)
            &&& table.reference_lifetime_hours@[i] == r.number_of("reference_lifetime_hours"@)
            &&& table.reference_stress@[i] == r.number_of("reference_stress"@)
            &&& table.stress_exponent@[i] == r.number_of("stress_exponent"@)
            &&& table.reference_temperature@[i] == r.number_of("reference_temperature"@)
            &&& table.activation_energy_ev@[i] == r.number_of("activation_energy_ev"@)
            &&& table.max_abs_voltage@[i] == r.number_of("max_abs_voltage"@)
            &&& table.duty_cycle@[i] == r.number_of("duty_cycle"@)
            &&& table.mechanism@[i] == r.spec().id
        } by {
            if i < rows.len() {
                assert(now[i] == rows[i]);
            }
        }
    }
    Ok(())
}

/// What is wrong with `soft_connection` rows, in reading order.
pub open spec fn soft_connection_fault(r: Row) -> Option<Fault> {
    or(r.least_layers(1), r.severity_fault())
}

/// An `soft_connection` table holds exactly a list of deck rows.
pub open spec fn soft_connection_holds(
    t: &SoftConnectionTable,
    rules: &RuleTable,
    strings: &StrTable,
    rows: Seq<u32>,
) -> bool {
    &&& head_holds(&t.head, rules, strings, rows)
    &&& starts_hold(t.soft_start@, rows.len(), t.soft@.len())
    &&& forall|i: int|
        0 <= i < rows.len() ==> {
            let r = row_at(rules, strings, #[trigger] rows[i]);
            &&& run(t.soft_start@, t.soft@, i) == bases(r.listed().skip(0))
        }
}

impl Default for SoftConnectionTable {
    fn default() -> (t: SoftConnectionTable)
        ensures
            forall|rules: &RuleTable, strings: &StrTable|
                #[trigger] soft_connection_holds(&t, rules, strings, Seq::empty()),
            t.head.rows() == 0,
            t.soft@.len() == 0,
    {
        SoftConnectionTable {
            head: RuleHead::default(),
            soft_start: Vec::new(),
            soft: Vec::new(),
        }
    }
}

/// File one `soft_connection` row.
pub fn file_soft_connection(
    table: &mut SoftConnectionTable,
    row: &Row,
    Ghost(rows): Ghost<Seq<u32>>,
    Ghost(s): Ghost<u32>,
) -> (r: Result<(), ErcError>)
    requires
        row.wf(),
        s == row.at,
        soft_connection_holds(old(table), row.rules, row.strings, rows),
        old(table).soft@.len() + row.spec().layer_len <= 0xFFFF_FFFF,
    ensures
        reads(r, row.title(), soft_connection_fault(*row)),
        r is Ok ==> soft_connection_holds(final(table), row.rules, row.strings, rows.push(s)),
        r is Ok ==> final(table).soft@.len() <= old(table).soft@.len() + row.spec().layer_len,
{
    let layers = match row.layers_from(1) {
        Ok(v) => v,
        Err(e) => {
            return Err(e);
        },
    };
    let ghost before = *table;
    match push_head(&mut table.head, row) {
        Ok(_) => {},
        Err(e) => {
            return Err(e);
        },
    }
    let run_0 = base_layers(&layers, 0);
    extend(&mut table.soft, &run_0);
    let end: usize = table.soft.len();
    close_csr(&mut table.soft_start, end);
    proof {
        let now = rows.push(s);
        let r = row_at(row.rules, row.strings, s);
        assert(r == *row);
        lemma_closed(before.soft_start@, rows.len(), before.soft@, run_0@);
        assert(run_0@ =~= bases(r.listed().skip(0)));
        assert forall|i: int| 0 <= i < now.len() implies table.head.rule@[i] == row_at(
            row.rules,
            row.strings,
            #[trigger] now[i],
        ).spec().id
            && table.head.severity@[i] == row_at(row.rules, row.strings, now[i]).severity_of() by {
            if i < rows.len() {
                assert(now[i] == rows[i]);
            }
        }
        assert forall|i: int| 0 <= i < now.len() implies {
            let r = row_at(row.rules, row.strings, #[trigger] now[i]);
            &&& run(table.soft_start@, table.soft@, i) == bases(r.listed().skip(0))
        } by {
            if i < rows.len() {
                assert(now[i] == rows[i]);
                assert(
                    run(before.soft_start@, before.soft@, i) == run(
                        table.soft_start@,
                        table.soft@,
                        i,
                    )
                );
            }
        }
    }
    Ok(())
}

/// What is wrong with `supply_short` rows, in reading order.
pub open spec fn supply_short_fault(r: Row) -> Option<Fault> {
    or(r.exact_layers(2), r.severity_fault())
}

/// An `supply_short` table holds exactly a list of deck rows.
pub open spec fn supply_short_holds(
    t: &SupplyShortTable,
    rules: &RuleTable,
    strings: &StrTable,
    rows: Seq<u32>,
) -> bool {
    &&& head_holds(&t.head, rules, strings, rows)
    &&& t.tap_a@.len() == rows.len()
    &&& t.tap_b@.len() == rows.len()
    &&& forall|i: int|
        0 <= i < rows.len() ==> {
            let r = row_at(rules, strings, #[trigger] rows[i]);
            &&& t.tap_a@[i] == LayerRef::Base(r.listed()[0])
            &&& t.tap_b@[i] == LayerRef::Base(r.listed()[1])
        }
}

impl Default for SupplyShortTable {
    fn default() -> (t: SupplyShortTable)
        ensures
            forall|rules: &RuleTable, strings: &StrTable|
                #[trigger] supply_short_holds(&t, rules, strings, Seq::empty()),
            t.head.rows() == 0,
    {
        SupplyShortTable {
            head: RuleHead::default(),
            tap_a: Vec::new(),
            tap_b: Vec::new(),
        }
    }
}

/// File one `supply_short` row.
pub fn file_supply_short(
    table: &mut SupplyShortTable,
    row: &Row,
    Ghost(rows): Ghost<Seq<u32>>,
    Ghost(s): Ghost<u32>,
) -> (r: Result<(), ErcError>)
    requires
        row.wf(),
        s == row.at,
        supply_short_holds(old(table), row.rules, row.strings, rows),
    ensures
        reads(r, row.title(), supply_short_fault(*row)),
        r is Ok ==> supply_short_holds(final(table), row.rules, row.strings, rows.push(s)),
{
    let layers = match row.layers(2) {
        Ok(v) => v,
        Err(e) => {
            return Err(e);
        },
    };
    let ghost before = *table;
    match push_head(&mut table.head, row) {
        Ok(_) => {},
        Err(e) => {
            return Err(e);
        },
    }
    table.tap_a.push(LayerRef::Base(layers[0]));
    table.tap_b.push(LayerRef::Base(layers[1]));
    proof {
        let now = rows.push(s);
        let r = row_at(row.rules, row.strings, s);
        assert(r == *row);
        assert forall|i: int| 0 <= i < now.len() implies table.head.rule@[i] == row_at(
            row.rules,
            row.strings,
            #[trigger] now[i],
        ).spec().id
            && table.head.severity@[i] == row_at(row.rules, row.strings, now[i]).severity_of() by {
            if i < rows.len() {
                assert(now[i] == rows[i]);
            }
        }
        assert forall|i: int| 0 <= i < now.len() implies {
            let r = row_at(row.rules, row.strings, #[trigger] now[i]);
            &&& table.tap_a@[i] == LayerRef::Base(r.listed()[0])
            &&& table.tap_b@[i] == LayerRef::Base(r.listed()[1])
        } by {
            if i < rows.len() {
                assert(now[i] == rows[i]);
            }
        }
    }
    Ok(())
}

/// What is wrong with `tie_high_low` rows, in reading order.
pub open spec fn tie_high_low_fault(r: Row) -> Option<Fault> {
    or(r.exact_layers(0), r.severity_fault())
}

/// An `tie_high_low` table holds exactly a list of deck rows.
pub open spec fn tie_high_low_holds(
    t: &TieHighLowTable,
    rules: &RuleTable,
    strings: &StrTable,
    rows: Seq<u32>,
) -> bool {
    &&& head_holds(&t.head, rules, strings, rows)
}

impl Default for TieHighLowTable {
    fn default() -> (t: TieHighLowTable)
        ensures
            forall|rules: &RuleTable, strings: &StrTable|
                #[trigger] tie_high_low_holds(&t, rules, strings, Seq::empty()),
            t.head.rows() == 0,
    {
        TieHighLowTable {
            head: RuleHead::default(),
        }
    }
}

/// File one `tie_high_low` row.
pub fn file_tie_high_low(
    table: &mut TieHighLowTable,
    row: &Row,
    Ghost(rows): Ghost<Seq<u32>>,
    Ghost(s): Ghost<u32>,
) -> (r: Result<(), ErcError>)
    requires
        row.wf(),
        s == row.at,
        tie_high_low_holds(old(table), row.rules, row.strings, rows),
    ensures
        reads(r, row.title(), tie_high_low_fault(*row)),
        r is Ok ==> tie_high_low_holds(final(table), row.rules, row.strings, rows.push(s)),
{
    let _layers = match row.layers(0) {
        Ok(v) => v,
        Err(e) => {
            return Err(e);
        },
    };
    let ghost before = *table;
    match push_head(&mut table.head, row) {
        Ok(_) => {},
        Err(e) => {
            return Err(e);
        },
    }
    proof {
        let now = rows.push(s);
        let r = row_at(row.rules, row.strings, s);
        assert(r == *row);
        assert forall|i: int| 0 <= i < now.len() implies table.head.rule@[i] == row_at(
            row.rules,
            row.strings,
            #[trigger] now[i],
        ).spec().id
            && table.head.severity@[i] == row_at(row.rules, row.strings, now[i]).severity_of() by {
            if i < rows.len() {
                assert(now[i] == rows[i]);
            }
        }
    }
    Ok(())
}

/// What is wrong with `unconnected_pin` rows, in reading order.
pub open spec fn unconnected_pin_fault(r: Row) -> Option<Fault> {
    or(r.least_layers(1), r.severity_fault())
}

/// An `unconnected_pin` table holds exactly a list of deck rows.
pub open spec fn unconnected_pin_holds(
    t: &UnconnectedPinTable,
    rules: &RuleTable,
    strings: &StrTable,
    rows: Seq<u32>,
) -> bool {
    &&& head_holds(&t.head, rules, strings, rows)
    &&& starts_hold(t.layer_start@, rows.len(), t.layer@.len())
    &&& forall|i: int|
        0 <= i < rows.len() ==> {
            let r = row_at(rules, strings, #[trigger] rows[i]);
            &&& run(t.layer_start@, t.layer@, i) == r.listed()
        }
}

impl Default for UnconnectedPinTable {
    fn default() -> (t: UnconnectedPinTable)
        ensures
            forall|rules: &RuleTable, strings: &StrTable|
                #[trigger] unconnected_pin_holds(&t, rules, strings, Seq::empty()),
            t.head.rows() == 0,
            t.layer@.len() == 0,
    {
        UnconnectedPinTable {
            head: RuleHead::default(),
            layer_start: Vec::new(),
            layer: Vec::new(),
        }
    }
}

/// File one `unconnected_pin` row.
pub fn file_unconnected_pin(
    table: &mut UnconnectedPinTable,
    row: &Row,
    Ghost(rows): Ghost<Seq<u32>>,
    Ghost(s): Ghost<u32>,
) -> (r: Result<(), ErcError>)
    requires
        row.wf(),
        s == row.at,
        unconnected_pin_holds(old(table), row.rules, row.strings, rows),
        old(table).layer@.len() + row.spec().layer_len <= 0xFFFF_FFFF,
    ensures
        reads(r, row.title(), unconnected_pin_fault(*row)),
        r is Ok ==> unconnected_pin_holds(final(table), row.rules, row.strings, rows.push(s)),
        r is Ok ==> final(table).layer@.len() <= old(table).layer@.len() + row.spec().layer_len,
{
    let layers = match row.layers_from(1) {
        Ok(v) => v,
        Err(e) => {
            return Err(e);
        },
    };
    let ghost before = *table;
    match push_head(&mut table.head, row) {
        Ok(_) => {},
        Err(e) => {
            return Err(e);
        },
    }
    let run_0 = copied(&layers);
    extend(&mut table.layer, &run_0);
    let end: usize = table.layer.len();
    close_csr(&mut table.layer_start, end);
    proof {
        let now = rows.push(s);
        let r = row_at(row.rules, row.strings, s);
        assert(r == *row);
        lemma_closed(before.layer_start@, rows.len(), before.layer@, run_0@);
        assert(run_0@ =~= r.listed());
        assert forall|i: int| 0 <= i < now.len() implies table.head.rule@[i] == row_at(
            row.rules,
            row.strings,
            #[trigger] now[i],
        ).spec().id
            && table.head.severity@[i] == row_at(row.rules, row.strings, now[i]).severity_of() by {
            if i < rows.len() {
                assert(now[i] == rows[i]);
            }
        }
        assert forall|i: int| 0 <= i < now.len() implies {
            let r = row_at(row.rules, row.strings, #[trigger] now[i]);
            &&& run(table.layer_start@, table.layer@, i) == r.listed()
        } by {
            if i < rows.len() {
                assert(now[i] == rows[i]);
                assert(
                    run(before.layer_start@, before.layer@, i) == run(
                        table.layer_start@,
                        table.layer@,
                        i,
                    )
                );
            }
        }
    }
    Ok(())
}

/// What is wrong with a row, whatever its kind; a row of another domain has
/// nothing wrong with it here.
pub open spec fn row_fault(r: Row) -> Option<Fault> {
    match kind_spec(r.kind_text()) {
        Some(Kind::Antenna) => antenna_fault(r),
        Some(Kind::AntennaElectrical) => antenna_electrical_fault(r),
        Some(Kind::DensityCmp) => density_cmp_fault(r),
        Some(Kind::Electromigration) => electromigration_fault(r),
        Some(Kind::EmCurrentDensity) => em_current_density_fault(r),
        Some(Kind::EsdLatchup) => esd_latchup_fault(r),
        Some(Kind::EsdTopological) => esd_topological_fault(r),
        Some(Kind::FloatingGate) => floating_gate_fault(r),
        Some(Kind::FloatingWell) => floating_well_fault(r),
        Some(Kind::HvDomain) => hv_domain_fault(r),
        Some(Kind::IrDrop) => ir_drop_fault(r),
        Some(Kind::MissingTie) => missing_tie_fault(r),
        Some(Kind::MultipleDrivers) => multiple_drivers_fault(r),
        Some(Kind::P2pResistance) => p2p_resistance_fault(r),
        Some(Kind::Reliability) => reliability_fault(r),
        Some(Kind::SoftConnection) => soft_connection_fault(r),
        Some(Kind::SupplyShort) => supply_short_fault(r),
        Some(Kind::TieHighLow) => tie_high_low_fault(r),
        Some(Kind::UnconnectedPin) => unconnected_pin_fault(r),
        None => None,
    }
}

} // verus!
