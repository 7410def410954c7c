//! What the rules over a solved network promise of their verdicts.
use crate::closeness::{
    approximates, high, lemma_exceeds, lemma_itself, lemma_product, lemma_quotient, lemma_whole,
    low, moderate, unit,
};
use crate::design::Design;
use crate::intent::{IntentMap, NetLimits};
use crate::model::{PolyId, StrId};
use crate::number::{magnitude, Number, HIDDEN, ONE};
use crate::power::network::{EdgeKind, Grid, NetNetworks, Solved};
use crate::report::{Measurement, Outcome, Severity, Violation};
use crate::rounding::{
    lemma_of_keeps_order, lemma_product_commutes, lemma_product_grows, lemma_quotient_falls,
    lemma_quotient_grows, lemma_times_one,
};
use crate::rules::electrical::{
    allowed_spec, branch_found, branch_result, branches_found, drop_found, drops_found, held_back,
    ir_drop_results, judged, judged_to, node_stated, p2p_found, p2p_net, p2p_results, probed,
    stated_to, worst_probe, IrDropTable, LayerLimits, P2pResistanceTable, MICRO,
};
use vstd::arithmetic::power2::{lemma_pow2_adds, lemma_pow2_pos, pow2};
use vstd::prelude::*;

verus! {

/// The probe of one network row.
pub open spec fn probe_of(
    probes: Seq<Option<Vec<(u32, u32, Number)>>>,
    r: int,
    k: int,
) -> (u32, u32, Number) {
    (probes[r]->0)@[k]
}

/// Whether a violation names a probe of network row `r` that no other probe of the row
/// is above.
pub open spec fn names_worst(
    networks: &NetNetworks,
    probes: Seq<Option<Vec<(u32, u32, Number)>>>,
    r: int,
    v: Violation,
) -> bool {
    exists|k: int|
        0 <= k < (probes[r]->0)@.len() && ({
            let worst = #[trigger] probe_of(probes, r, k);
            &&& v.measured == Measurement::Resistance(worst.2)
            &&& v.at == networks.points(r)[worst.0 as int]
            &&& v.shapes == (
                networks.shapes(r)[worst.0 as int],
                Some(networks.shapes(r)[worst.1 as int]),
            )
            &&& forall|j: int|
                0 <= j < (probes[r]->0)@.len() ==> !worst.2.lt(
                    (#[trigger] probe_of(probes, r, j)).2,
                )
        })
}

/// The worst of some numbers is one of them, and none is above it.
proof fn lemma_worst(probes: Seq<(u32, u32, Number)>, n: nat) -> (at: int)
    requires
        0 < n <= probes.len(),
        forall|k: int| 0 <= k < n ==> !(#[trigger] probes[k]).2.is_nan_spec(),
    ensures
        0 <= at < n,
        worst_probe(probes, n) == probes[at],
        forall|k: int| 0 <= k < n ==> !probes[at].2.lt((#[trigger] probes[k]).2),
    decreases n,
{
    if n == 1 {
        0
    } else {
        let at = lemma_worst(probes, (n - 1) as nat);
        assert(!probes[n - 1].2.is_nan_spec());
        assert(!probes[at].2.is_nan_spec());
        if probes[at].2.lt(probes[n - 1].2) {
            n - 1
        } else {
            at
        }
    }
}

proof fn lemma_worst_is_one(probes: Seq<(u32, u32, Number)>, n: nat) -> (at: int)
    requires
        0 < n <= probes.len(),
    ensures
        0 <= at < n,
        worst_probe(probes, n) == probes[at],
    decreases n,
{
    if n == 1 {
        0
    } else {
        let at = lemma_worst_is_one(probes, (n - 1) as nat);
        if probes[at].2.lt(probes[n - 1].2) {
            n - 1
        } else {
            at
        }
    }
}

/// Every network is reached where every one was probed.
proof fn lemma_all_probed(probes: Seq<Option<Vec<(u32, u32, Number)>>>, n: nat)
    requires
        n <= probes.len(),
        forall|r: int| 0 <= r < n ==> (#[trigger] probes[r]) is Some,
    ensures
        probed(probes, n) == n,
    decreases n,
{
    if n > 0 {
        lemma_all_probed(probes, (n - 1) as nat);
        assert(probes[n - 1] is Some);
    }
}

/// What a network reports is in what the networks report.
proof fn lemma_net_listed(
    design: Design,
    networks: &NetNetworks,
    probes: Seq<Option<Vec<(u32, u32, Number)>>>,
    n: nat,
    rule: StrId,
    severity: Severity,
    limit: Measurement,
    r: int,
) -> (at: int)
    requires
        0 <= r < n,
        p2p_net(design, networks, (probes[r]->0)@, r, rule, severity, limit).len() > 0,
    ensures
        0 <= at < p2p_found(design, networks, probes, n, rule, severity, limit).len(),
        p2p_found(design, networks, probes, n, rule, severity, limit)[at] == p2p_net(
            design,
            networks,
            (probes[r]->0)@,
            r,
            rule,
            severity,
            limit,
        )[0],
    decreases n,
{
    let before = p2p_found(design, networks, probes, (n - 1) as nat, rule, severity, limit);
    if r == n - 1 {
        before.len() as int
    } else {
        lemma_net_listed(design, networks, probes, (n - 1) as nat, rule, severity, limit, r)
    }
}

/// A net any pair of whose attach points resists more than the limit is reported, at a
/// worst pair: no pair of the net resists more than what is reported.
pub proof fn lemma_net_over_its_limit_is_reported(
    design: Design,
    networks: &NetNetworks,
    probes: Seq<Option<Vec<(u32, u32, Number)>>>,
    table: &P2pResistanceTable,
    row: int,
    r: int,
    k: int,
) -> (at: int)
    requires
        table.wf(),
        0 <= row < table.head.rows(),
        forall|q: int| 0 <= q < probes.len() ==> (#[trigger] probes[q]) is Some,
        0 <= r < probes.len(),
        0 <= k < (probes[r]->0)@.len(),
        forall|j: int|
            0 <= j < (probes[r]->0)@.len() ==> !(#[trigger] probe_of(
                probes,
                r,
                j,
            )).2.is_nan_spec(),
        table.max_resistance@[row].lt(probe_of(probes, r, k).2),
    ensures
        ({
            let found = p2p_results(design, networks, probes, table)[row].found;
            &&& 0 <= at < found.len()
            &&& names_worst(networks, probes, r, found[at])
            &&& found[at].rule == table.head.rule@[row]
            &&& found[at].severity == table.head.severity@[row]
            &&& found[at].limit == Measurement::Resistance(table.max_resistance@[row])
        }),
{
    let list = (probes[r]->0)@;
    lemma_all_probed(probes, probes.len());
    assert forall|j: int| 0 <= j < list.len() implies !(#[trigger] list[j]).2.is_nan_spec() by {
        assert(!probe_of(probes, r, j).2.is_nan_spec());
    }
    let w = lemma_worst(list, list.len());
    assert(!list[w].2.lt(list[k].2));
    let limit = Measurement::Resistance(table.max_resistance@[row]);
    let (rule, severity) = (table.head.rule@[row], table.head.severity@[row]);
    let own = p2p_net(design, networks, list, r, rule, severity, limit);
    assert(own.len() == 1);
    assert(names_worst(networks, probes, r, own[0])) by {
        let worst = probe_of(probes, r, w);
        assert forall|j: int| 0 <= j < list.len() implies !worst.2.lt(
            (#[trigger] probe_of(probes, r, j)).2,
        ) by {
            assert(!list[w].2.lt(list[j].2));
        }
    }
    lemma_net_listed(design, networks, probes, probes.len(), rule, severity, limit, r)
}

/// Where every pair of every net is within the limit the row runs, examines every net
/// and reports nothing.
pub proof fn lemma_nets_within_their_limit_are_clean(
    design: Design,
    networks: &NetNetworks,
    probes: Seq<Option<Vec<(u32, u32, Number)>>>,
    table: &P2pResistanceTable,
    row: int,
)
    requires
        table.wf(),
        0 <= row < table.head.rows(),
        probes.len() <= u64::MAX,
        forall|q: int| 0 <= q < probes.len() ==> (#[trigger] probes[q]) is Some,
        forall|r: int, k: int|
            0 <= r < probes.len() && 0 <= k < (probes[r]->0)@.len()
                ==> !table.max_resistance@[row].lt((#[trigger] probe_of(probes, r, k)).2),
    ensures
        ({
            let result = p2p_results(design, networks, probes, table)[row];
            &&& result.outcome == Outcome::Ran
            &&& result.examined == probes.len()
            &&& result.found.len() == 0
        }),
{
    lemma_all_probed(probes, probes.len());
    lemma_no_net(design, networks, probes, table, row, probes.len());
}

proof fn lemma_no_net(
    design: Design,
    networks: &NetNetworks,
    probes: Seq<Option<Vec<(u32, u32, Number)>>>,
    table: &P2pResistanceTable,
    row: int,
    n: nat,
)
    requires
        n <= probes.len(),
        forall|r: int, k: int|
            0 <= r < probes.len() && 0 <= k < (probes[r]->0)@.len()
                ==> !table.max_resistance@[row].lt((#[trigger] probe_of(probes, r, k)).2),
    ensures
        p2p_found(
            design,
            networks,
            probes,
            n,
            table.head.rule@[row],
            table.head.severity@[row],
            Measurement::Resistance(table.max_resistance@[row]),
        ).len() == 0,
    decreases n,
{
    if n > 0 {
        lemma_no_net(design, networks, probes, table, row, (n - 1) as nat);
        let list = (probes[n - 1]->0)@;
        if list.len() > 0 {
            let w = lemma_worst_is_one(list, list.len());
            assert(!table.max_resistance@[row].lt(probe_of(probes, n - 1, w).2));
        }
    }
}

/// What the limit on a drop that is a fraction of nominal comes to.
proof fn lemma_fraction_limit(nominal: Number, fraction: Number)
    requires
        nominal.finite(),
        fraction.grounded(),
    ensures
        ({
            let limit = nominal.magnitude_spec().times_spec(fraction);
            let size = nominal.magnitude_spec();
            &&& limit.upward()
            &&& fraction.le(Number { bits: ONE }) ==> limit.le(size)
            &&& fraction == (Number { bits: ONE }) ==> limit == size
            &&& fraction.pattern() == 0 ==> limit.pattern() == 0
            &&& moderate(nominal, 400) && moderate(fraction, 400) ==> approximates(
                limit,
                size.value() * fraction.value(),
                unit() * unit(),
                1,
            )
        }),
{
    let size = nominal.magnitude_spec();
    let one = Number { bits: ONE };
    lemma_times_one(size);
    lemma_product_grows(size, fraction, fraction);
    if fraction.le(one) {
        lemma_product_grows(size, fraction, one);
    }
    if moderate(nominal, 400) && moderate(fraction, 400) {
        lemma_itself(size);
        lemma_itself(fraction);
        lemma_product(
            size,
            fraction,
            400,
            400,
            size.value(),
            unit(),
            fraction.value(),
            unit(),
            0,
            0,
        );
    }
}

/// Whether a net states a limit on its drop as a fraction of nominal, and no other.
pub open spec fn states_fraction(limits: NetLimits, fraction: Number) -> bool {
    &&& limits.max_drop is None
    &&& limits.max_drop_fraction == Some(fraction)
    &&& limits.max_overvoltage is None
}

/// A node whose net limits its drop to a fraction of nominal is reported exactly where
/// its drop is above that fraction of the size of its nominal, to within a rounding of
/// the product.
pub proof fn lemma_fraction_of_nominal_is_the_limit(
    solved: Solved,
    intent: &IntentMap,
    node: int,
    rule: StrId,
    severity: Severity,
    fraction: Number,
)
    requires
        states_fraction(intent.limits_spec(solved.grid.node_net@[node]), fraction),
        fraction.grounded(),
        moderate(fraction, 400),
        moderate(solved.grid.node_nominal@[node], 400),
        solved.solution.node_drop@[node].grounded(),
    ensures
        ({
            let found = drop_found(solved, intent, node, rule, severity);
            let drop = solved.solution.node_drop@[node];
            let part = magnitude(solved.grid.node_nominal@[node].pattern()) * fraction.value();
            &&& found.len() <= 1
            &&& found.len() == 1 ==> part * low(1) <= (drop.value() * unit()) * high(1)
                && found[0].measured == Measurement::Voltage(drop)
            &&& found.len() == 0 ==> (drop.value() * unit()) * low(1) <= part * high(1)
        }),
{
    let drop = solved.solution.node_drop@[node];
    let nominal = solved.grid.node_nominal@[node];
    let size = nominal.magnitude_spec();
    lemma_fraction_limit(nominal, fraction);
    let limit = size.times_spec(fraction);
    let (n, u) = (size.value() * fraction.value(), unit());
    lemma_exceeds(limit, n, u * u, 1, drop);
    lemma_pow2_pos(1074);
    let (l, h, d) = (low(1), high(1), drop.value());
    assert((n * u) * l == u * (n * l) && (n * u) * h == u * (n * h) && (d * (u * u)) * h == u * ((d
        * u) * h) && (d * (u * u)) * l == u * ((d * u) * l)) by (nonlinear_arith);
    let (p, q, r, s) = (n * l, (d * u) * h, (d * u) * l, n * h);
    assert(u * p <= u * q ==> p <= q) by (nonlinear_arith)
        requires
            u > 0,
    ;
    assert(u * r <= u * s ==> r <= s) by (nonlinear_arith)
        requires
            u > 0,
    ;
    assert(limit.le(drop) || drop.lt(limit));
}

/// A fraction of one allows a drop of the whole nominal and no more; a fraction of none
/// allows no drop; and no fraction up to one allows more than the nominal.
pub proof fn lemma_fraction_ends(
    solved: Solved,
    intent: &IntentMap,
    node: int,
    rule: StrId,
    severity: Severity,
    fraction: Number,
)
    requires
        states_fraction(intent.limits_spec(solved.grid.node_net@[node]), fraction),
        fraction.grounded(),
        solved.grid.node_nominal@[node].finite(),
        solved.solution.node_drop@[node].finite(),
    ensures
        ({
            let found = drop_found(solved, intent, node, rule, severity);
            let drop = solved.solution.node_drop@[node];
            let size = solved.grid.node_nominal@[node].magnitude_spec();
            &&& fraction == (Number { bits: ONE }) ==> (found.len() == 1 <==> size.lt(drop))
            &&& fraction.pattern() == 0 ==> (found.len() == 1 <==> (Number { bits: 0 }).lt(drop))
            &&& fraction.le(Number { bits: ONE }) && size.lt(drop) ==> found.len() == 1
        }),
{
    lemma_fraction_limit(solved.grid.node_nominal@[node], fraction);
    assert(magnitude(0) == 0);
}

/// A larger fraction allows no less: what is reported under it is reported under a
/// smaller one.
pub proof fn lemma_larger_fraction_reports_no_more(
    solved: Solved,
    tight: &IntentMap,
    loose: &IntentMap,
    node: int,
    rule: StrId,
    severity: Severity,
    lower: Number,
    upper: Number,
)
    requires
        states_fraction(tight.limits_spec(solved.grid.node_net@[node]), lower),
        states_fraction(loose.limits_spec(solved.grid.node_net@[node]), upper),
        lower.grounded(),
        upper.grounded(),
        lower.le(upper),
        solved.grid.node_nominal@[node].finite(),
    ensures
        drop_found(solved, loose, node, rule, severity).len() == 1 ==> drop_found(
            solved,
            tight,
            node,
            rule,
            severity,
        ).len() == 1,
{
    let size = solved.grid.node_nominal@[node].magnitude_spec();
    lemma_product_grows(size, lower, upper);
}

/// A node whose net caps its drop is reported exactly where the drop is above the cap;
/// one whose net caps its overvoltage exactly where it is above nominal by more than
/// the cap; and one whose net states no limit never.
pub proof fn lemma_caps_are_kept(
    solved: Solved,
    intent: &IntentMap,
    node: int,
    rule: StrId,
    severity: Severity,
)
    requires
        solved.solution.node_drop@[node].finite(),
    ensures
        ({
            let found = drop_found(solved, intent, node, rule, severity);
            let limits = intent.limits_spec(solved.grid.node_net@[node]);
            let drop = solved.solution.node_drop@[node];
            &&& !node_stated(solved, intent, node) ==> found.len() == 0
            &&& limits.max_drop is Some && limits.max_drop_fraction is None
                && limits.max_overvoltage is None ==> (found.len() == 1 <==> !(
            limits.max_drop->0).is_nan_spec() && (limits.max_drop->0).value() < drop.value())
            &&& limits.max_drop is None && limits.max_drop_fraction is None
                && limits.max_overvoltage is Some ==> (found.len() == 1 <==> !(
            limits.max_overvoltage->0).is_nan_spec() && (limits.max_overvoltage->0).value()
                < -drop.value())
            &&& limits.max_drop is Some && (limits.max_drop->0).lt(drop) ==> found.len() > 0
                && found[0].measured == Measurement::Voltage(drop) && found[0].limit
                == Measurement::Voltage(limits.max_drop->0)
            &&& limits.max_overvoltage is Some && (limits.max_overvoltage->0).lt(
                drop.negated_spec(),
            ) ==> found.len() > 0 && found.last().measured == Measurement::Voltage(
                drop.negated_spec(),
            ) && found.last().limit == Measurement::Voltage(limits.max_overvoltage->0)
            &&& forall|i: int|
                0 <= i < found.len() ==> (#[trigger] found[i]).at == solved.grid.node_at@[node]
                    && found[i].shapes == (solved.grid.node_poly@[node], None::<PolyId>)
                    && found[i].layer == solved.grid.node_layer@[node]
        }),
{
    assert(magnitude(0) == 0);
}

/// What a node reports is in what its row reports, and is counted where it states a
/// limit.
pub proof fn lemma_every_node_is_judged(
    power: Option<Solved>,
    intent: &IntentMap,
    table: &IrDropTable,
    row: int,
    node: int,
    i: int,
) -> (at: int)
    requires
        held_back(power, intent) is None,
        0 <= row < table.head.rows(),
        0 <= node < power->0.grid.nodes(),
        0 <= i < drop_found(
            power->0,
            intent,
            node,
            table.head.rule@[row],
            table.head.severity@[row],
        ).len(),
    ensures
        ({
            let found = ir_drop_results(power, intent, table)[row].found;
            &&& 0 <= at < found.len()
            &&& found[at] == drop_found(
                power->0,
                intent,
                node,
                table.head.rule@[row],
                table.head.severity@[row],
            )[i]
        }),
{
    lemma_node_listed(
        power->0,
        intent,
        power->0.grid.nodes() as nat,
        table.head.rule@[row],
        table.head.severity@[row],
        node,
        i,
    )
}

proof fn lemma_node_listed(
    solved: Solved,
    intent: &IntentMap,
    n: nat,
    rule: StrId,
    severity: Severity,
    node: int,
    i: int,
) -> (at: int)
    requires
        0 <= node < n,
        0 <= i < drop_found(solved, intent, node, rule, severity).len(),
    ensures
        0 <= at < drops_found(solved, intent, n, rule, severity).len(),
        drops_found(solved, intent, n, rule, severity)[at] == drop_found(
            solved,
            intent,
            node,
            rule,
            severity,
        )[i],
    decreases n,
{
    let before = drops_found(solved, intent, (n - 1) as nat, rule, severity);
    if node == n - 1 {
        before.len() + i
    } else {
        lemma_node_listed(solved, intent, (n - 1) as nat, rule, severity, node, i)
    }
}

/// A supply in which no node breaks a limit it states is clean, and one that states
/// limits everywhere has every node examined.
pub proof fn lemma_supply_within_its_limits_is_clean(
    power: Option<Solved>,
    intent: &IntentMap,
    table: &IrDropTable,
    row: int,
)
    requires
        held_back(power, intent) is None,
        0 <= row < table.head.rows(),
        power->0.grid.nodes() <= u64::MAX,
    ensures
        ({
            let solved = power->0;
            let result = ir_drop_results(power, intent, table)[row];
            &&& result.outcome == Outcome::Ran
            &&& (forall|n: int|
                0 <= n < solved.grid.nodes() ==> (#[trigger] drop_found(
                    solved,
                    intent,
                    n,
                    table.head.rule@[row],
                    table.head.severity@[row],
                )).len() == 0) ==> result.found.len() == 0
            &&& (forall|n: int|
                0 <= n < solved.grid.nodes() ==> #[trigger] node_stated(solved, intent, n))
                ==> result.examined == solved.grid.nodes()
            &&& (forall|n: int|
                0 <= n < solved.grid.nodes() ==> !#[trigger] node_stated(solved, intent, n))
                ==> result.examined == 0
        }),
{
    let n = power->0.grid.nodes() as nat;
    lemma_no_node(power->0, intent, n, table.head.rule@[row], table.head.severity@[row]);
}

proof fn lemma_no_node(solved: Solved, intent: &IntentMap, n: nat, rule: StrId, severity: Severity)
    ensures
        (forall|k: int|
            0 <= k < n ==> (#[trigger] drop_found(solved, intent, k, rule, severity)).len() == 0)
            ==> drops_found(solved, intent, n, rule, severity).len() == 0,
        (forall|k: int| 0 <= k < n ==> #[trigger] node_stated(solved, intent, k)) ==> stated_to(
            solved,
            intent,
            n,
        ) == n,
        (forall|k: int| 0 <= k < n ==> !#[trigger] node_stated(solved, intent, k)) ==> stated_to(
            solved,
            intent,
            n,
        ) == 0,
        stated_to(solved, intent, n) <= n,
    decreases n,
{
    if n > 0 {
        lemma_no_node(solved, intent, (n - 1) as nat, rule, severity);
    }
}

/// How long a segment is for its width.
proof fn lemma_slenderness(length: i64, width: i64)
    requires
        0 < length,
        0 < width,
    ensures
        ({
            let x = Number::of_spec(length as int).over_spec(Number::of_spec(width as int));
            approximates(x, length as int, width as int, 3) && moderate(x, 126)
        }),
{
    vstd::arithmetic::power2::lemma2_to64();
    vstd::arithmetic::power2::lemma2_to64_rest();
    lemma_whole(length as int, 63);
    lemma_whole(width as int, 63);
    lemma_quotient(
        Number::of_spec(length as int),
        Number::of_spec(width as int),
        63,
        63,
        length as int,
        1,
        width as int,
        1,
        1,
        1,
    );
}

/// A segment is exempt where its current times its length is within its Blech limit
/// times its width, and judged where it is above, to within the roundings of the
/// product: a long thin segment is judged, a short wide one is not.
pub proof fn lemma_blech_product_decides(
    solved: Solved,
    limits: &LayerLimits,
    edge: int,
    k: int,
)
    requires
        limits.limit_of(solved.grid.edge_layer@[edge]) == Some(k),
        limits.blech is Some,
        (*limits.blech->0)@[k].grounded(),
        0 < solved.grid.edge_length@[edge],
        0 < solved.grid.edge_width@[edge],
        moderate(solved.solution.branch_current@[edge], 800),
    ensures
        ({
            let current = magnitude(solved.solution.branch_current@[edge].pattern());
            let blech = (*limits.blech->0)@[k].value();
            let (l, w) = (solved.grid.edge_length@[edge], solved.grid.edge_width@[edge]);
            &&& !judged(solved, limits, edge) ==> (current * l) * low(4) <= (blech * w) * high(4)
            &&& judged(solved, limits, edge) ==> (blech * w) * low(4) <= (current * l) * high(4)
        }),
{
    let (l, w) = (solved.grid.edge_length@[edge], solved.grid.edge_width@[edge]);
    let i = solved.solution.branch_current@[edge].magnitude_spec();
    let blech = (*limits.blech->0)@[k];
    let x = Number::of_spec(l as int).over_spec(Number::of_spec(w as int));
    lemma_slenderness(l, w);
    lemma_itself(i);
    lemma_product(i, x, 800, 126, i.value(), unit(), l as int, w as int, 0, 3);
    let y = i.times_spec(x);
    let (n, u) = (i.value() * l, unit());
    lemma_exceeds(y, n, u * w, 4, blech);
    lemma_pow2_pos(1074);
    let (a, b, c) = (low(4), high(4), blech.value());
    assert((n * u) * a == u * (n * a) && (n * u) * b == u * (n * b) && (c * (u * w)) * b == u * ((c
        * w) * b) && (c * (u * w)) * a == u * ((c * w) * a)) by (nonlinear_arith);
    let (p, q, r, s) = (n * a, (c * w) * b, (c * w) * a, n * b);
    assert(u * p <= u * q ==> p <= q) by (nonlinear_arith)
        requires
            u > 0,
    ;
    assert(u * r <= u * s ==> r <= s) by (nonlinear_arith)
        requires
            u > 0,
    ;
}

/// A longer segment is never exempt where a shorter one is judged, nor a narrower one
/// where a wider one is, nor one that carries more where one that carries less is.
pub proof fn lemma_blech_exempts_the_short_and_wide(
    a: Solved,
    e: int,
    b: Solved,
    f: int,
    limits: &LayerLimits,
)
    requires
        a.grid.edge_layer@[e] == b.grid.edge_layer@[f],
        a.solution.branch_current@[e].finite(),
        b.solution.branch_current@[f].finite(),
        0 <= a.grid.edge_length@[e] <= b.grid.edge_length@[f],
        0 < b.grid.edge_width@[f] <= a.grid.edge_width@[e],
        a.solution.branch_current@[e].magnitude_spec().le(
            b.solution.branch_current@[f].magnitude_spec(),
        ),
        judged(a, limits, e),
    ensures
        judged(b, limits, f),
{
    vstd::arithmetic::power2::lemma2_to64();
    vstd::arithmetic::power2::lemma2_to64_rest();
    vstd::arithmetic::power2::lemma_pow2_strictly_increases(63, 100);
    let (l, m) = (a.grid.edge_length@[e], b.grid.edge_length@[f]);
    let (w, v) = (a.grid.edge_width@[e], b.grid.edge_width@[f]);
    lemma_of_keeps_order(l as int, m as int);
    lemma_of_keeps_order(v as int, w as int);
    let (nl, nm) = (Number::of_spec(l as int), Number::of_spec(m as int));
    let (nw, nv) = (Number::of_spec(w as int), Number::of_spec(v as int));
    lemma_whole(v as int, 63);
    assert(nv.pattern() > 0) by {
        lemma_pow2_pos(1011);
        assert(magnitude(0) == 0);
    }
    let (x, y, z) = (nl.over_spec(nw), nl.over_spec(nv), nm.over_spec(nv));
    lemma_quotient_falls(nl, nv, nw);
    lemma_quotient_grows(nl, nv, nm);
    if l > 0 {
        lemma_slenderness(l, w);
    }
    if m > 0 {
        lemma_slenderness(m, v);
    }
    assert(x.grounded() && z.grounded());
    let (i, j) = (
        a.solution.branch_current@[e].magnitude_spec(),
        b.solution.branch_current@[f].magnitude_spec(),
    );
    lemma_product_grows(i, x, z);
    lemma_product_commutes(i, z);
    lemma_product_commutes(j, z);
    lemma_product_grows(z, i, j);
}

/// Microamps per amp are a million.
proof fn lemma_micro()
    ensures
        (Number { bits: MICRO }).value() == 1_000_000 * unit(),
        (Number { bits: MICRO }).grounded(),
        moderate(Number { bits: MICRO }, 20),
{
    vstd::arithmetic::power2::lemma2_to64();
    vstd::arithmetic::power2::lemma2_to64_rest();
    assert((MICRO as int) / (HIDDEN as int) == 1042);
    assert((MICRO as int) % (HIDDEN as int) == 0xE_8480_0000_0000);
    lemma_pow2_adds(33, 1041);
    lemma_pow2_adds(20, 1074);
    lemma_pow2_pos(1054);
    vstd::arithmetic::power2::lemma_pow2_strictly_increases(1054, 1074);
    let (t, u) = (pow2(1041), pow2(1074));
    lemma_pow2_pos(1041);
    assert(u == 0x2_0000_0000 * t);
    assert((HIDDEN + 0xE_8480_0000_0000) * t == 1_000_000 * u) by (nonlinear_arith)
        requires
            u == 0x2_0000_0000 * t,
            HIDDEN == 0x10_0000_0000_0000,
    ;
    assert(1_000_000 * u <= pow2(20) * u) by (nonlinear_arith)
        requires
            pow2(20) == 0x10_0000,
            u > 0,
    ;
}

/// The current a metal edge may carry is its density times its width in micrometres;
/// the current a via may carry is its current per cut times its cuts. Both to within
/// the roundings of the product.
pub proof fn lemma_allowed_current(
    kind: EdgeKind,
    width: i64,
    grid: Grid,
    max_density: Number,
    max_current_per_cut: Number,
)
    requires
        grid.dbu_per_um > 0,
        0 < width,
        max_density.grounded(),
        moderate(max_density, 400),
        max_current_per_cut.grounded(),
        moderate(max_current_per_cut, 400),
        kind matches EdgeKind::Via { cuts } ==> cuts > 0,
    ensures
        ({
            let allowed = allowed_spec(kind, width, grid, max_density, max_current_per_cut);
            match kind {
                EdgeKind::Metal => approximates(
                    allowed,
                    max_density.value() * width,
                    unit() * grid.dbu_per_um,
                    5,
                ),
                EdgeKind::Via { cuts } => approximates(
                    allowed,
                    max_current_per_cut.value() * cuts,
                    unit(),
                    2,
                ),
            }
        }),
        moderate(allowed_spec(kind, width, grid, max_density, max_current_per_cut), 540),
{
    vstd::arithmetic::power2::lemma2_to64();
    vstd::arithmetic::power2::lemma2_to64_rest();
    match kind {
        EdgeKind::Metal => {
            let scale = grid.dbu_per_um * 1_000_000;
            let (nw, ns) = (Number::of_spec(width as int), Number::of_spec(scale));
            lemma_whole(width as int, 63);
            lemma_whole(scale, 57);
            lemma_quotient(nw, ns, 63, 57, width as int, 1, scale, 1, 1, 1);
            let metres = nw.over_spec(ns);
            lemma_itself(max_density);
            lemma_product(
                max_density,
                metres,
                400,
                120,
                max_density.value(),
                unit(),
                width as int,
                scale,
                0,
                3,
            );
            let amps = max_density.times_spec(metres);
            let million = Number { bits: MICRO };
            lemma_micro();
            lemma_itself(million);
            let (n, d) = (max_density.value() * width, unit() * scale);
            lemma_product(amps, million, 520, 20, n, d, million.value(), unit(), 4, 0);
            let (u, g, m) = (unit(), grid.dbu_per_um as int, 1_000_000int);
            lemma_pow2_pos(1074);
            assert(d * u == (u * g) * (m * u)) by (nonlinear_arith)
                requires
                    d == u * (g * m),
            ;
            assert(m * u > 0 && u * g > 0) by (nonlinear_arith)
                requires
                    u > 0,
                    g > 0,
                    m > 0,
            ;
            crate::closeness::lemma_reduced(amps.times_spec(million), n, u * g, m * u, 5);
            assert(moderate(amps.times_spec(million), 540));
        },
        EdgeKind::Via { cuts } => {
            let nc = Number::of_spec(cuts as int);
            lemma_whole(cuts as int, 32);
            lemma_itself(max_current_per_cut);
            lemma_product(
                max_current_per_cut,
                nc,
                400,
                32,
                max_current_per_cut.value(),
                unit(),
                cuts as int,
                1,
                0,
                1,
            );
            crate::closeness::lemma_more_moderate(max_current_per_cut.times_spec(nc), 432, 540);
        },
    }
}

/// A judged edge is reported exactly where its current is above what it is allowed,
/// which is its limit times its derating, to within the roundings of the product: for
/// metal the limit is a density times its width in micrometres, for a via a current
/// per cut times its cuts.
pub proof fn lemma_judged_edge_over_its_limit_is_reported(
    solved: Solved,
    grid: Grid,
    limits: &LayerLimits,
    derate: Number,
    edge: int,
    k: int,
    rule: StrId,
    severity: Severity,
)
    requires
        limits.limit_of(solved.grid.edge_layer@[edge]) == Some(k),
        judged(solved, limits, edge),
        grid.dbu_per_um > 0,
        0 < solved.grid.edge_width@[edge],
        limits.max_density@[k].grounded(),
        moderate(limits.max_density@[k], 400),
        limits.max_current_per_cut@[k].grounded(),
        moderate(limits.max_current_per_cut@[k], 400),
        solved.grid.edge_kind@[edge] matches EdgeKind::Via { cuts } ==> cuts > 0,
        derate.grounded(),
        moderate(derate, 400),
        solved.solution.branch_current@[edge].finite(),
    ensures
        ({
            let found = branch_found(solved, grid, limits, derate, edge, rule, severity);
            let current = solved.solution.branch_current@[edge].magnitude_spec();
            let (i, u, f) = (current.value(), unit(), derate.value());
            let w = solved.grid.edge_width@[edge];
            &&& found.len() <= 1
            &&& found.len() == 1 ==> found[0].measured == Measurement::Current(current)
                && found[0].layer == solved.grid.edge_layer@[edge] && found[0].at
                == solved.grid.node_at@[solved.grid.edge_from@[edge] as int]
            &&& match solved.grid.edge_kind@[edge] {
                EdgeKind::Metal => {
                    let n = (limits.max_density@[k].value() * w) * f;
                    let d = (u * grid.dbu_per_um) * u;
                    &&& found.len() == 1 ==> (n * u) * low(6) <= (i * d) * high(6)
                    &&& found.len() == 0 ==> (i * d) * low(6) <= (n * u) * high(6)
                },
                EdgeKind::Via { cuts } => {
                    let n = (limits.max_current_per_cut@[k].value() * cuts) * f;
                    &&& found.len() == 1 ==> (n * u) * low(3) <= (i * (u * u)) * high(3)
                    &&& found.len() == 0 ==> (i * (u * u)) * low(3) <= (n * u) * high(3)
                },
            }
        }),
{
    let power = solved.grid;
    let (kind, w) = (power.edge_kind@[edge], power.edge_width@[edge]);
    let (density, per_cut) = (limits.max_density@[k], limits.max_current_per_cut@[k]);
    let allowed = allowed_spec(kind, w, grid, density, per_cut);
    let current = solved.solution.branch_current@[edge].magnitude_spec();
    lemma_allowed_current(kind, w, grid, density, per_cut);
    lemma_itself(derate);
    let limit = allowed.times_spec(derate);
    match kind {
        EdgeKind::Metal => {
            let (n, d) = (density.value() * w, unit() * grid.dbu_per_um);
            lemma_product(allowed, derate, 540, 400, n, d, derate.value(), unit(), 5, 0);
            lemma_exceeds(limit, n * derate.value(), d * unit(), 6, current);
        },
        EdgeKind::Via { cuts } => {
            let n = per_cut.value() * cuts;
            lemma_product(allowed, derate, 540, 400, n, unit(), derate.value(), unit(), 2, 0);
            lemma_exceeds(limit, n * derate.value(), unit() * unit(), 3, current);
        },
    }
}

/// An edge on a layer a row does not limit is neither judged nor reported; every edge a
/// row judges is counted, and what it reports is in what the row reports.
pub proof fn lemma_every_edge_is_judged(
    solved: Solved,
    grid: Grid,
    limits: &LayerLimits,
    derate: Number,
    rule: StrId,
    severity: Severity,
    edge: int,
) -> (at: int)
    requires
        0 <= edge < solved.grid.edges(),
        solved.grid.edges() <= u64::MAX,
    ensures
        ({
            let result = branch_result(solved, grid, limits, derate, rule, severity);
            let own = branch_found(solved, grid, limits, derate, edge, rule, severity);
            &&& result.outcome == Outcome::Ran
            &&& (forall|j: int|
                limits.from <= j < limits.to ==> #[trigger] limits.layer@[j]
                    != solved.grid.edge_layer@[edge]) ==> !judged(solved, limits, edge)
            &&& !judged(solved, limits, edge) ==> own.len() == 0
            &&& own.len() > 0 ==> 0 <= at < result.found.len() && result.found[at] == own[0]
            &&& (forall|e: int|
                0 <= e < solved.grid.edges() ==> #[trigger] judged(solved, limits, e))
                ==> result.examined == solved.grid.edges()
            &&& (forall|e: int|
                0 <= e < solved.grid.edges() ==> !#[trigger] judged(solved, limits, e))
                ==> result.examined == 0 && result.found.len() == 0
        }),
{
    let n = solved.grid.edges() as nat;
    lemma_no_edge(solved, grid, limits, derate, n, rule, severity);
    if branch_found(solved, grid, limits, derate, edge, rule, severity).len() > 0 {
        lemma_edge_listed(solved, grid, limits, derate, n, rule, severity, edge)
    } else {
        0
    }
}

proof fn lemma_no_edge(
    solved: Solved,
    grid: Grid,
    limits: &LayerLimits,
    derate: Number,
    n: nat,
    rule: StrId,
    severity: Severity,
)
    ensures
        (forall|e: int| 0 <= e < n ==> #[trigger] judged(solved, limits, e)) ==> judged_to(
            solved,
            limits,
            n,
        ) == n,
        (forall|e: int| 0 <= e < n ==> !#[trigger] judged(solved, limits, e)) ==> judged_to(
            solved,
            limits,
            n,
        ) == 0 && branches_found(solved, grid, limits, derate, n, rule, severity).len() == 0,
        judged_to(solved, limits, n) <= n,
    decreases n,
{
    if n > 0 {
        lemma_no_edge(solved, grid, limits, derate, (n - 1) as nat, rule, severity);
    }
}

proof fn lemma_edge_listed(
    solved: Solved,
    grid: Grid,
    limits: &LayerLimits,
    derate: Number,
    n: nat,
    rule: StrId,
    severity: Severity,
    edge: int,
) -> (at: int)
    requires
        0 <= edge < n,
        branch_found(solved, grid, limits, derate, edge, rule, severity).len() > 0,
    ensures
        0 <= at < branches_found(solved, grid, limits, derate, n, rule, severity).len(),
        branches_found(solved, grid, limits, derate, n, rule, severity)[at] == branch_found(
            solved,
            grid,
            limits,
            derate,
            edge,
            rule,
            severity,
        )[0],
    decreases n,
{
    let before = branches_found(solved, grid, limits, derate, (n - 1) as nat, rule, severity);
    if edge == n - 1 {
        before.len() as int
    } else {
        lemma_edge_listed(solved, grid, limits, derate, (n - 1) as nat, rule, severity, edge)
    }
}

} // verus!
