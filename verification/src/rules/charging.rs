//! What an antenna ratio is, and which nets it condemns.
use crate::closeness::{approximates, lemma_quotient, lemma_sum_strays, lemma_whole, size_of};
use crate::design::Design;
use crate::model::{LayerId, LayerRef, PolyId, StrId};
use crate::number::{magnitude, Number};
use crate::report::{Measurement, Severity};
use crate::ring::doubled_area;
use crate::rounding::{lemma_of_keeps_order, lemma_quotient_falls, lemma_quotient_grows};
use crate::rules::antenna::{
    first_gate, is_gate_net, net_ratio, part_area, ratio_violations, Credit, Part, Roles,
};
use crate::store::GeometryStore;
use vstd::arithmetic::power2::pow2;
use vstd::prelude::*;

verus! {

/// Twice the area a list of polygons has on the layers a predicate picks.
pub open spec fn area_on(
    store: &GeometryStore,
    polys: Seq<PolyId>,
    picks: spec_fn(LayerId) -> bool,
) -> int {
    polys.fold_left(
        0,
        |sum: int, p: PolyId|
            if picks(store.layer@[p.0 as int]) {
                sum + doubled_area(store.ring(p.0 as int))
            } else {
                sum
            },
    )
}

/// A net's gate area is what it has on its row's gate layer, its collecting area what it
/// has on any layer of the collecting set, and its diode area what it has on the diode
/// layer.
pub proof fn lemma_areas_are_by_layer(store: &GeometryStore, polys: Seq<PolyId>, roles: Roles)
    ensures
        part_area(store, polys, roles, Part::Gate) == area_on(
            store,
            polys,
            |l: LayerId| l == roles.gate,
        ),
        part_area(store, polys, roles, Part::Collector) == area_on(
            store,
            polys,
            |l: LayerId| roles.collectors.contains(LayerRef::Base(l)),
        ),
        part_area(store, polys, roles, Part::Diode) == area_on(
            store,
            polys,
            |l: LayerId| roles.diode == Some(l),
        ),
    decreases polys.len(),
{
    if polys.len() > 0 {
        lemma_areas_are_by_layer(store, polys.drop_last(), roles);
    }
}

proof fn lemma_division(c: int, g: int)
    requires
        0 < c <= pow2(90),
        0 < g <= pow2(90),
    ensures
        approximates(Number::of_spec(c).over_spec(Number::of_spec(g)), c, g, 3),
{
    lemma_whole(c, 90);
    lemma_whole(g, 90);
    lemma_quotient(Number::of_spec(c), Number::of_spec(g), 90, 90, c, 1, g, 1, 1, 1);
    assert(c * 1 == c && 1 * g == g);
}

/// The ratio of a net without a diode is its collecting area over its gate area, to
/// within the roundings of a division.
pub proof fn lemma_ratio_is_collector_over_gate(
    design: Design,
    roles: Roles,
    adjust: Credit,
    n: int,
)
    requires
        !adjust.applies || part_area(
            design.store,
            design.nets.members(n),
            roles,
            Part::Diode,
        ) <= 0,
        0 < part_area(design.store, design.nets.members(n), roles, Part::Gate) <= pow2(90),
        0 < part_area(design.store, design.nets.members(n), roles, Part::Collector) <= pow2(90),
    ensures
        approximates(
            net_ratio(design, roles, adjust, n),
            part_area(design.store, design.nets.members(n), roles, Part::Collector),
            part_area(design.store, design.nets.members(n), roles, Part::Gate),
            3,
        ),
{
    lemma_division(
        part_area(design.store, design.nets.members(n), roles, Part::Collector),
        part_area(design.store, design.nets.members(n), roles, Part::Gate),
    );
}

/// A net that collects more on no more gate never has the lower ratio.
pub proof fn lemma_more_wire_never_lowers_the_ratio(
    design: Design,
    roles: Roles,
    adjust: Credit,
    n: int,
    other: Design,
    m: int,
)
    requires
        !adjust.applies,
        0 <= part_area(design.store, design.nets.members(n), roles, Part::Collector)
            <= part_area(other.store, other.nets.members(m), roles, Part::Collector) <= pow2(90),
        0 < part_area(other.store, other.nets.members(m), roles, Part::Gate) <= part_area(
            design.store,
            design.nets.members(n),
            roles,
            Part::Gate,
        ) <= pow2(90),
    ensures
        net_ratio(design, roles, adjust, n).le(net_ratio(other, roles, adjust, m)),
{
    let a = part_area(design.store, design.nets.members(n), roles, Part::Collector);
    let b = part_area(other.store, other.nets.members(m), roles, Part::Collector);
    let g = part_area(design.store, design.nets.members(n), roles, Part::Gate);
    let h = part_area(other.store, other.nets.members(m), roles, Part::Gate);
    vstd::arithmetic::power2::lemma_pow2_strictly_increases(90, 100);
    lemma_of_keeps_order(a, b);
    lemma_of_keeps_order(h, g);
    lemma_of_keeps_order(h, h);
    let (x, y) = (Number::of_spec(a), Number::of_spec(b));
    let (p, q) = (Number::of_spec(g), Number::of_spec(h));
    lemma_quotient_falls(x, q, p);
    lemma_quotient_grows(x, q, y);
}

/// The presence of a diode takes the stated bonus off the ratio, where the row credits
/// no diode area.
pub proof fn lemma_diode_buys_its_bonus(
    design: Design,
    roles: Roles,
    adjust: Credit,
    n: int,
)
    requires
        adjust.applies,
        adjust.credit == (Number { bits: 0 }),
        adjust.bonus.finite(),
        0 < part_area(design.store, design.nets.members(n), roles, Part::Diode) <= pow2(90),
        0 < part_area(design.store, design.nets.members(n), roles, Part::Gate) <= pow2(90),
        0 < part_area(design.store, design.nets.members(n), roles, Part::Collector) <= pow2(90),
        net_ratio(design, roles, adjust, n).finite(),
    ensures
        ({
            let plain = Credit { applies: false, ..adjust };
            let exact = net_ratio(design, roles, plain, n).value() - adjust.bonus.value();
            size_of(net_ratio(design, roles, adjust, n).value() - exact) * 0x10_0000_0000_0000
                <= size_of(exact)
        }),
{
    let polys = design.nets.members(n);
    let c = part_area(design.store, polys, roles, Part::Collector);
    let g = part_area(design.store, polys, roles, Part::Gate);
    let d = part_area(design.store, polys, roles, Part::Diode);
    lemma_division(c, g);
    let zero = Number { bits: 0 };
    let plain = Number::of_spec(c).over_spec(Number::of_spec(g));
    vstd::arithmetic::power2::lemma_pow2_strictly_increases(90, 100);
    lemma_of_keeps_order(d / 2, d);
    assert(magnitude(0) == 0);
    let none = zero.times_spec(Number::of_spec(d / 2));
    assert(none.pattern() == 0);
    let kept = plain.minus_spec(none);
    assert(kept.value() == plain.value()) by {
        crate::addition::lemma_nearest_exact(plain.pattern());
    }
    assert(adjust.bonus.negated_spec().value() == -adjust.bonus.value());
    lemma_sum_strays(kept, adjust.bonus.negated_spec());
}

/// The lowest gate polygon of a list is on its row's gate layer, and there is one where
/// the list has gate area.
proof fn lemma_first_gate(store: &GeometryStore, polys: Seq<PolyId>, roles: Roles)
    ensures
        first_gate(store, polys, roles.gate) matches Some(p) ==> polys.contains(p)
            && store.layer@[p.0 as int] == roles.gate,
        part_area(store, polys, roles, Part::Gate) != 0 ==> first_gate(store, polys, roles.gate)
            is Some,
    decreases polys.len(),
{
    if polys.len() > 0 {
        let before = polys.drop_last();
        lemma_first_gate(store, before, roles);
        match first_gate(store, before, roles.gate) {
            Some(p) => {
                let i = before.index_of(p);
                assert(before[i] == p && polys[i] == p);
            },
            None => {
                assert(polys[polys.len() - 1] == polys.last());
            },
        }
    }
}

/// A net with gate area whose ratio is above the limit is reported, at a gate of its
/// own, with that ratio; a row none of whose nets is above its limit is clean.
pub proof fn lemma_net_above_its_ratio_is_reported(
    design: Design,
    roles: Roles,
    adjust: Credit,
    limit: Number,
    rule: StrId,
    severity: Severity,
    count: nat,
    n: int,
) -> (at: int)
    requires
        0 <= n < count,
    ensures
        ({
            let found = ratio_violations(design, roles, adjust, limit, rule, severity, count);
            let ratio = net_ratio(design, roles, adjust, n);
            let polys = design.nets.members(n);
            &&& part_area(design.store, polys, roles, Part::Gate) > 0 && limit.lt(ratio) ==> {
                &&& 0 <= at < found.len()
                &&& found[at].measured == Measurement::Ratio(ratio)
                &&& found[at].limit == Measurement::Ratio(limit)
                &&& found[at].rule == rule
                &&& polys.contains(found[at].shapes.0)
                &&& design.store.layer@[found[at].shapes.0.0 as int] == roles.gate
            }
            &&& (forall|m: int|
                0 <= m < count ==> !(is_gate_net(design, roles, m) && limit.lt(
                    #[trigger] net_ratio(design, roles, adjust, m),
                ))) ==> found.len() == 0
        }),
    decreases count,
{
    let m = (count - 1) as nat;
    let before = ratio_violations(design, roles, adjust, limit, rule, severity, m);
    lemma_first_gate(design.store, design.nets.members(n), roles);
    if n == m {
        if m > 0 {
            lemma_net_above_its_ratio_is_reported(
                design,
                roles,
                adjust,
                limit,
                rule,
                severity,
                m,
                m - 1,
            );
        }
        before.len() as int
    } else {
        lemma_net_above_its_ratio_is_reported(
            design,
            roles,
            adjust,
            limit,
            rule,
            severity,
            m,
            n,
        )
    }
}

} // verus!
