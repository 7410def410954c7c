//! How a filed rule set fits the layout it is run on.
use crate::deck::{Deck, ParamValue, Row, RuleTable};
use crate::design::{layer_exists, lemma_kept};
use crate::filing::{
    antenna_electrical_holds, antenna_holds, bases, diode_of, esd_latchup_holds,
    esd_topological_holds, floating_well_holds, hv_domain_holds, kind_spec, missing_tie_holds,
    row_at, row_fault, run, soft_connection_holds, starts_hold, supply_short_holds,
    unconnected_pin_holds, Kind,
};
use crate::geom::MAX_ABS_DBU;
use crate::model::LayerRef;
use crate::rules::antenna::{AntennaElectricalTable, AntennaTable};
use crate::rules::latchup::EsdLatchupTable;
use crate::rules::missing_tie::MissingTieTable;
use crate::rules::reliability::HvDomainTable;
use crate::rules::supply::{EsdTopologicalTable, SoftConnectionTable, SupplyShortTable};
use crate::rules::topology::{FloatingWellTable, UnconnectedPinTable};
use crate::ruleset::{fault_at, rows_of, RuleSet};
use crate::shape::lemma_filed_set_is_shaped;
use crate::store::GeometryStore;
use crate::text::StrTable;
use vstd::prelude::*;

verus! {

impl RuleTable {
    /// Every layer the rows name is a layer of a layout, and every distance they
    /// state is one a layout can hold.
    pub open spec fn suits(&self, store: &GeometryStore) -> bool {
        &&& forall|k: int| 0 <= k < self.layer@.len() ==> (#[trigger] self.layer@[k]).0
            < store.layers()
        &&& forall|k: int|
            0 <= k < self.param_value@.len() ==> value_suits(#[trigger] self.param_value@[k], store)
    }
}

/// A stated layer is a layer of the layout, and a stated distance is in range.
pub open spec fn value_suits(value: ParamValue, store: &GeometryStore) -> bool {
    match value {
        ParamValue::Layer(l) => l.0 < store.layers(),
        ParamValue::Length(v) => v <= MAX_ABS_DBU,
        _ => true,
    }
}

/// What one deck row lists and states suits the layout.
pub open spec fn row_suits(r: Row, store: &GeometryStore) -> bool {
    &&& r.listed().len() == r.spec().layer_len
    &&& forall|j: int| 0 <= j < r.listed().len() ==> (#[trigger] r.listed()[j]).0 < store.layers()
    &&& forall|p: Seq<char>| #[trigger] r.stated(p) is Some ==> value_suits(r.stated(p)->0, store)
}

proof fn lemma_row_suits(r: Row, store: &GeometryStore)
    requires
        r.wf(),
        r.rules.suits(store),
    ensures
        row_suits(r, store),
{
    assert forall|p: Seq<char>| #[trigger] r.stated(p) is Some implies value_suits(
        r.stated(p)->0,
        store,
    ) by {
        let id = r.strings.id_of(p)->0;
        let k = choose|k: int| r.rules.states(r.at as int, id, k);
        assert(r.rules.states(r.at as int, id, k));
        assert(value_suits(r.rules.param_value@[k], store));
    }
}

/// Every row of a kind is without fault, and suits the layout.
pub open spec fn sound_rows(
    rules: &RuleTable,
    strings: &StrTable,
    store: &GeometryStore,
    kind: Kind,
    rows: Seq<u32>,
) -> bool {
    forall|i: int|
        0 <= i < rows.len() ==> {
            let r = row_at(rules, strings, #[trigger] rows[i]);
            &&& kind_spec(r.kind_text()) == Some(kind)
            &&& row_fault(r) is None
            &&& row_suits(r, store)
        }
}

proof fn lemma_rows_sound(deck: &Deck, strings: &StrTable, store: &GeometryStore, kind: Kind)
    requires
        deck.wf(strings),
        deck.rules.suits(store),
        forall|s: int|
            0 <= s < deck.rules.rows() ==> (#[trigger] fault_at(&deck.rules, strings, s)) is None,
    ensures
        sound_rows(
            &deck.rules,
            strings,
            store,
            kind,
            rows_of(&deck.rules, strings, kind, deck.rules.spec@.len()),
        ),
{
    let n = deck.rules.spec@.len();
    let keep = |s: int|
        kind_spec(row_at(&deck.rules, strings, s as u32).kind_text()) == Some(kind);
    let rows = rows_of(&deck.rules, strings, kind, n);
    lemma_kept(n, keep);
    assert forall|i: int| 0 <= i < rows.len() implies {
        let r = row_at(&deck.rules, strings, #[trigger] rows[i]);
        &&& kind_spec(r.kind_text()) == Some(kind)
        &&& row_fault(r) is None
        &&& row_suits(r, store)
    } by {
        let s = rows[i] as int;
        assert(keep(s));
        assert(fault_at(&deck.rules, strings, s) is None);
        lemma_row_suits(row_at(&deck.rules, strings, rows[i]), store);
    }
}

/// The row whose run holds slot `k` of a body.
proof fn lemma_in_a_run(start: Seq<u32>, rows: nat, body: nat, k: int) -> (i: int)
    requires
        starts_hold(start, rows, body),
        0 <= k < body,
    ensures
        0 <= i < rows,
        start[i] <= k < start[i + 1],
{
    lemma_in_a_run_below(start, rows as int, k)
}

proof fn lemma_in_a_run_below(start: Seq<u32>, n: int, k: int) -> (i: int)
    requires
        0 <= n < start.len(),
        start[0] <= k < start[n],
    ensures
        0 <= i < n,
        start[i] <= k < start[i + 1],
    decreases n,
{
    if start[n - 1] <= k {
        n - 1
    } else {
        lemma_in_a_run_below(start, n - 1, k)
    }
}

/// A body whose every run is a tail of a row's listed layers names layers of
/// the layout only.
proof fn lemma_runs_suit(
    rules: &RuleTable,
    strings: &StrTable,
    store: &GeometryStore,
    kind: Kind,
    rows: Seq<u32>,
    start: Seq<u32>,
    body: Seq<LayerRef>,
    skip: int,
)
    requires
        sound_rows(rules, strings, store, kind, rows),
        starts_hold(start, rows.len(), body.len()),
        skip >= 0,
        forall|i: int|
            0 <= i < rows.len() ==> run(start, body, i) == bases(
                row_at(rules, strings, #[trigger] rows[i]).listed().skip(skip),
            ),
        forall|i: int|
            0 <= i < rows.len() ==> skip <= row_at(
                rules,
                strings,
                #[trigger] rows[i],
            ).listed().len(),
    ensures
        forall|k: int| 0 <= k < body.len() ==> layer_exists(store, #[trigger] body[k]),
{
    assert forall|k: int| 0 <= k < body.len() implies layer_exists(store, #[trigger] body[k]) by {
        let i = lemma_in_a_run(start, rows.len(), body.len(), k);
        let listed = row_at(rules, strings, rows[i]).listed();
        let j = k - start[i];
        assert(start[i + 1] <= body.len());
        assert(run(start, body, i)[j] == body[k]);
        assert(run(start, body, i) == bases(listed.skip(skip)));
        assert(bases(listed.skip(skip)).len() == start[i + 1] - start[i]);
        assert(bases(listed.skip(skip))[j] == LayerRef::Base(listed[skip + j]));
    }
}

proof fn lemma_antenna_fits(
    t: &AntennaTable,
    rules: &RuleTable,
    strings: &StrTable,
    store: &GeometryStore,
    rows: Seq<u32>,
)
    requires
        antenna_holds(t, rules, strings, rows),
        sound_rows(rules, strings, store, Kind::Antenna, rows),
    ensures
        t.wf(store),
{
    assert forall|i: int| 0 <= i < t.gate@.len() implies layer_exists(
        store,
        #[trigger] t.gate@[i],
    ) by {
        assert(row_suits(row_at(rules, strings, rows[i]), store));
    }
    lemma_runs_suit(
        rules,
        strings,
        store,
        Kind::Antenna,
        rows,
        t.collector_start@,
        t.collector@,
        1,
    );
}

proof fn lemma_antenna_electrical_fits(
    t: &AntennaElectricalTable,
    rules: &RuleTable,
    strings: &StrTable,
    store: &GeometryStore,
    rows: Seq<u32>,
)
    requires
        antenna_electrical_holds(t, rules, strings, rows),
        sound_rows(rules, strings, store, Kind::AntennaElectrical, rows),
    ensures
        t.wf(store),
{
    assert forall|i: int| 0 <= i < t.gate@.len() implies layer_exists(
        store,
        #[trigger] t.gate@[i],
    ) by {
        assert(row_suits(row_at(rules, strings, rows[i]), store));
    }
    assert forall|i: int|
        0 <= i < t.diode@.len() && (#[trigger] t.diode@[i]) is Some implies layer_exists(
        store,
        t.diode@[i]->0,
    ) by {
        let r = row_at(rules, strings, rows[i]);
        assert(row_suits(r, store));
        assert(t.diode@[i] == diode_of(r));
        assert(value_suits(r.stated("diode_layer"@)->0, store));
    }
    lemma_runs_suit(
        rules,
        strings,
        store,
        Kind::AntennaElectrical,
        rows,
        t.collector_start@,
        t.collector@,
        1,
    );
}

proof fn lemma_latchup_fits(
    t: &EsdLatchupTable,
    rules: &RuleTable,
    strings: &StrTable,
    store: &GeometryStore,
    rows: Seq<u32>,
)
    requires
        esd_latchup_holds(t, rules, strings, rows),
        sound_rows(rules, strings, store, Kind::EsdLatchup, rows),
    ensures
        t.wf(store.layers()),
{
    assert forall|i: int| 0 <= i < rows.len() implies (#[trigger] t.pad@[i]).0 < store.layers() by {
        assert(row_suits(row_at(rules, strings, rows[i]), store));
    }
    assert forall|i: int| 0 <= i < rows.len() implies (#[trigger] t.guard_ring@[i]).0
        < store.layers() by {
        assert(row_suits(row_at(rules, strings, rows[i]), store));
    }
}

proof fn lemma_topological_fits(
    t: &EsdTopologicalTable,
    rules: &RuleTable,
    strings: &StrTable,
    store: &GeometryStore,
    rows: Seq<u32>,
)
    requires
        esd_topological_holds(t, rules, strings, rows),
        sound_rows(rules, strings, store, Kind::EsdTopological, rows),
    ensures
        t.wf(store),
{
    assert forall|i: int| 0 <= i < t.pad@.len() implies (#[trigger] t.pad@[i]).0
        < store.layers() by {
        assert(row_suits(row_at(rules, strings, rows[i]), store));
    }
}

proof fn lemma_well_fits(
    t: &FloatingWellTable,
    rules: &RuleTable,
    strings: &StrTable,
    store: &GeometryStore,
    rows: Seq<u32>,
)
    requires
        floating_well_holds(t, rules, strings, rows),
        sound_rows(rules, strings, store, Kind::FloatingWell, rows),
    ensures
        t.wf(store),
{
    assert forall|i: int| 0 <= i < t.well@.len() implies layer_exists(
        store,
        #[trigger] t.well@[i],
    ) by {
        assert(row_suits(row_at(rules, strings, rows[i]), store));
    }
    assert forall|i: int| 0 <= i < t.tap@.len() implies layer_exists(
        store,
        #[trigger] t.tap@[i],
    ) by {
        assert(row_suits(row_at(rules, strings, rows[i]), store));
    }
}

proof fn lemma_domain_fits(
    t: &HvDomainTable,
    rules: &RuleTable,
    strings: &StrTable,
    store: &GeometryStore,
    rows: Seq<u32>,
)
    requires
        hv_domain_holds(t, rules, strings, rows),
        sound_rows(rules, strings, store, Kind::HvDomain, rows),
    ensures
        t.wf(store.layers()),
{
    assert forall|i: int|
        0 <= i < t.isolation@.len() && (#[trigger] t.isolation@[i]) is Some implies (
    t.isolation@[i]->0).0 < store.layers() by {
        let r = row_at(rules, strings, rows[i]);
        assert(row_suits(r, store));
        assert(t.isolation@[i] == r.opt_layer_of("isolation"@));
        assert(value_suits(r.stated("isolation"@)->0, store));
    }
}

proof fn lemma_tie_fits(
    t: &MissingTieTable,
    rules: &RuleTable,
    strings: &StrTable,
    store: &GeometryStore,
    rows: Seq<u32>,
)
    requires
        missing_tie_holds(t, rules, strings, rows),
        sound_rows(rules, strings, store, Kind::MissingTie, rows),
    ensures
        t.wf(store),
{
    assert forall|i: int| 0 <= i < t.region@.len() implies layer_exists(
        store,
        #[trigger] t.region@[i],
    ) by {
        assert(row_suits(row_at(rules, strings, rows[i]), store));
    }
    assert forall|i: int| 0 <= i < t.tap@.len() implies layer_exists(
        store,
        #[trigger] t.tap@[i],
    ) by {
        assert(row_suits(row_at(rules, strings, rows[i]), store));
    }
    assert forall|i: int| 0 <= i < t.max_distance@.len() implies 0 <= #[trigger] t.max_distance@[i]
        <= MAX_ABS_DBU by {
        let r = row_at(rules, strings, rows[i]);
        assert(row_suits(r, store));
        assert(r.length_fault("max_distance"@) is None);
        assert(value_suits(r.stated("max_distance"@)->0, store));
    }
}

proof fn lemma_soft_fits(
    t: &SoftConnectionTable,
    rules: &RuleTable,
    strings: &StrTable,
    store: &GeometryStore,
    rows: Seq<u32>,
)
    requires
        soft_connection_holds(t, rules, strings, rows),
        sound_rows(rules, strings, store, Kind::SoftConnection, rows),
    ensures
        t.wf(store),
{
    lemma_runs_suit(
        rules,
        strings,
        store,
        Kind::SoftConnection,
        rows,
        t.soft_start@,
        t.soft@,
        0,
    );
}

proof fn lemma_short_fits(
    t: &SupplyShortTable,
    rules: &RuleTable,
    strings: &StrTable,
    store: &GeometryStore,
    rows: Seq<u32>,
)
    requires
        supply_short_holds(t, rules, strings, rows),
        sound_rows(rules, strings, store, Kind::SupplyShort, rows),
    ensures
        t.wf(store),
{
    assert forall|i: int| 0 <= i < t.tap_a@.len() implies layer_exists(
        store,
        #[trigger] t.tap_a@[i],
    ) by {
        assert(row_suits(row_at(rules, strings, rows[i]), store));
    }
    assert forall|i: int| 0 <= i < t.tap_b@.len() implies layer_exists(
        store,
        #[trigger] t.tap_b@[i],
    ) by {
        assert(row_suits(row_at(rules, strings, rows[i]), store));
    }
}

proof fn lemma_pin_fits(
    t: &UnconnectedPinTable,
    rules: &RuleTable,
    strings: &StrTable,
    store: &GeometryStore,
    rows: Seq<u32>,
)
    requires
        unconnected_pin_holds(t, rules, strings, rows),
        sound_rows(rules, strings, store, Kind::UnconnectedPin, rows),
    ensures
        t.wf(store.layers()),
{
    let start = t.layer_start@;
    let body = t.layer@;
    assert forall|k: int| 0 <= k < body.len() implies (#[trigger] body[k]).0 < store.layers() by {
        let i = lemma_in_a_run(start, rows.len(), body.len(), k);
        let listed = row_at(rules, strings, rows[i]).listed();
        let j = k - start[i];
        assert(start[i + 1] <= body.len());
        assert(run(start, body, i)[j] == body[k]);
        assert(run(start, body, i) == listed);
        assert(listed[j].0 < store.layers());
    }
}

/// A set filed from a deck without a fault fits every layout that has the
/// layers the deck names and can hold the distances it states.
pub proof fn lemma_filed_set_fits(
    set: &RuleSet,
    deck: &Deck,
    strings: &StrTable,
    store: &GeometryStore,
)
    requires
        deck.wf(strings),
        deck.rules.suits(store),
        forall|s: int|
            0 <= s < deck.rules.rows() ==> (#[trigger] fault_at(&deck.rules, strings, s)) is None,
        set.holds(&deck.rules, strings, deck.rules.spec@.len()),
    ensures
        set.wf(store),
{
    let rules = &deck.rules;
    let n = rules.spec@.len();
    lemma_filed_set_is_shaped(set, deck, strings);
    assert({
        &&& set.antenna.wf(store)
        &&& set.antenna_electrical.wf(store)
        &&& set.esd_latchup.wf(store.layers())
        &&& set.esd_topological.wf(store)
        &&& set.floating_well.wf(store)
        &&& set.hv_domain.wf(store.layers())
        &&& set.missing_tie.wf(store)
        &&& set.soft_connection.wf(store)
        &&& set.supply_short.wf(store)
        &&& set.unconnected_pin.wf(store.layers())
    }) by {
        reveal(RuleSet::holds);
        lemma_rows_sound(deck, strings, store, Kind::Antenna);
        lemma_rows_sound(deck, strings, store, Kind::AntennaElectrical);
        lemma_rows_sound(deck, strings, store, Kind::EsdLatchup);
        lemma_rows_sound(deck, strings, store, Kind::EsdTopological);
        lemma_rows_sound(deck, strings, store, Kind::FloatingWell);
        lemma_rows_sound(deck, strings, store, Kind::HvDomain);
        lemma_rows_sound(deck, strings, store, Kind::MissingTie);
        lemma_rows_sound(deck, strings, store, Kind::SoftConnection);
        lemma_rows_sound(deck, strings, store, Kind::SupplyShort);
        lemma_rows_sound(deck, strings, store, Kind::UnconnectedPin);
        lemma_antenna_fits(
            &set.antenna,
            rules,
            strings,
            store,
            rows_of(rules, strings, Kind::Antenna, n),
        );
        lemma_antenna_electrical_fits(
            &set.antenna_electrical,
            rules,
            strings,
            store,
            rows_of(rules, strings, Kind::AntennaElectrical, n),
        );
        lemma_latchup_fits(
            &set.esd_latchup,
            rules,
            strings,
            store,
            rows_of(rules, strings, Kind::EsdLatchup, n),
        );
        lemma_topological_fits(
            &set.esd_topological,
            rules,
            strings,
            store,
            rows_of(rules, strings, Kind::EsdTopological, n),
        );
        lemma_well_fits(
            &set.floating_well,
            rules,
            strings,
            store,
            rows_of(rules, strings, Kind::FloatingWell, n),
        );
        lemma_domain_fits(
            &set.hv_domain,
            rules,
            strings,
            store,
            rows_of(rules, strings, Kind::HvDomain, n),
        );
        lemma_tie_fits(
            &set.missing_tie,
            rules,
            strings,
            store,
            rows_of(rules, strings, Kind::MissingTie, n),
        );
        lemma_soft_fits(
            &set.soft_connection,
            rules,
            strings,
            store,
            rows_of(rules, strings, Kind::SoftConnection, n),
        );
        lemma_short_fits(
            &set.supply_short,
            rules,
            strings,
            store,
            rows_of(rules, strings, Kind::SupplyShort, n),
        );
        lemma_pin_fits(
            &set.unconnected_pin,
            rules,
            strings,
            store,
            rows_of(rules, strings, Kind::UnconnectedPin, n),
        );
    }
}

} // verus!
