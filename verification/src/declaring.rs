//! What a declaration, addressed by net, says of each net.
use crate::design::{kept, lemma_kept};
use crate::intent::{
    declared_limits, declared_supply, first_row, labelled, limit_rows, missing_names, net_row, resolved, row_named,
    supply_rows, DesignIntent, IntentMap, NetLimits,
};
use crate::model::{NetId, StrId};
use crate::store::PortTable;
use vstd::prelude::*;

verus! {

/// Whether a net's first label is a name.
pub open spec fn is_labelled(ports: &PortTable, net: NetId, name: StrId) -> bool {
    exists|k: int| #[trigger] labels(ports, net, name, k)
}

/// Whether row `k` is the first label of a net, and is a name.
pub open spec fn labels(ports: &PortTable, net: NetId, name: StrId, k: int) -> bool {
    &&& 0 <= k < ports.net@.len()
    &&& ports.net@[k] == net
    &&& ports.name@[k] == name
    &&& forall|j: int| 0 <= j < k ==> #[trigger] ports.net@[j] != net
}

proof fn lemma_labelled(ports: &PortTable, net: NetId, name: StrId)
    requires
        is_labelled(ports, net, name),
    ensures
        ports.name_spec(net) == Some(name),
{
    let k = choose|k: int| #[trigger] labels(ports, net, name, k);
    assert(ports.label(net, k));
    let c = choose|c: int| ports.label(net, c);
    assert(ports.label(net, c));
    assert(c == k);
}

proof fn lemma_first_row(names: Seq<StrId>, name: StrId, row: int)
    requires
        first_row(names, name, row),
    ensures
        row_named(names, name) == Some(row),
{
    let c = choose|c: int| first_row(names, name, c);
    assert(first_row(names, name, c));
    assert(c == row);
}

proof fn lemma_keeps(n: nat, keep: spec_fn(int) -> bool, k: u32)
    requires
        n <= 0x1_0000_0000,
        k < n,
        keep(k as int),
    ensures
        kept(n, keep).contains(k),
    decreases n,
{
    let m = (n - 1) as nat;
    if k == m {
        assert(kept(n, keep)[kept(m, keep).len() as int] == k);
    } else {
        lemma_keeps(m, keep, k);
        let i = kept(m, keep).index_of(k);
        assert(kept(n, keep)[i] == k);
    }
}

/// A net the layout labels with a declared supply's name is that supply: at the nominal
/// voltage of the domain the supply is declared in, and in its role. A net whose label
/// no supply has is none.
pub proof fn lemma_supply_is_in_its_own_domain(
    map: &IntentMap,
    intent: &DesignIntent,
    ports: &PortTable,
    nets: nat,
    net: NetId,
    name: StrId,
    row: int,
)
    requires
        resolved(map, Some(intent), ports, nets),
        map.wf(),
        intent.wf(),
        nets <= 0xFFFF_FFFF,
        net.0 < nets,
        is_labelled(ports, net, name),
    ensures
        first_row(intent.supply_name@, name, row) ==> map.nominal_spec(net) == Some(
            intent.domain_voltage@[intent.supply_domain@[row].0 as int],
        ) && map.supply_spec(net) == Some(
            (intent.supply_domain@[row], intent.supply_role@[row]),
        ),
        (forall|k: int| 0 <= k < intent.supply_name@.len() ==> #[trigger] intent.supply_name@[k]
            != name) ==> map.nominal_spec(net) is None && map.supply_spec(net) is None,
{
    lemma_labelled(ports, net, name);
    let keep = |i: int| declared_supply(intent, ports, i) is Some;
    let rows = supply_rows(intent, ports, nets);
    lemma_kept(nets, keep);
    assert(NetId(net.0 as int as u32) == net);
    if first_row(intent.supply_name@, name, row) {
        lemma_first_row(intent.supply_name@, name, row);
        assert(declared_supply(intent, ports, net.0 as int) == Some(row));
        lemma_keeps(nets, keep, net.0);
        let k = rows.index_of(net.0);
        assert(rows[k] == net.0);
        assert(map.supply_net@[k] == net);
        assert(net_row(map.supply_net@, net) == Some(k)) by {
            let c = map.supply_net@.index_of(net);
            assert(map.supply_net@[c] == net);
        }
    }
    if forall|k: int| 0 <= k < intent.supply_name@.len() ==> #[trigger] intent.supply_name@[k]
        != name {
        if map.supply_net@.contains(net) {
            let c = map.supply_net@.index_of(net);
            assert(map.supply_net@[c] == net);
            assert(rows[c] == net.0);
            assert(keep(rows[c] as int));
            let r = declared_supply(intent, ports, net.0 as int)->0;
            let q = choose|q: int| first_row(intent.supply_name@, name, q);
            assert(first_row(intent.supply_name@, name, q));
            assert(intent.supply_name@[q] == name);
        }
    }
}

/// A net the layout labels with a name limits are declared for is held to those limits,
/// and one labelled with a name that has none to none.
pub proof fn lemma_limits_are_its_own(
    map: &IntentMap,
    intent: &DesignIntent,
    ports: &PortTable,
    nets: nat,
    net: NetId,
    name: StrId,
    row: int,
)
    requires
        resolved(map, Some(intent), ports, nets),
        map.wf(),
        intent.wf(),
        nets <= 0xFFFF_FFFF,
        net.0 < nets,
        is_labelled(ports, net, name),
    ensures
        first_row(intent.limit_name@, name, row) ==> map.limits_spec(net) == intent.limit@[row],
        (forall|k: int| 0 <= k < intent.limit_name@.len() ==> #[trigger] intent.limit_name@[k]
            != name) ==> map.limits_spec(net) == NetLimits::none(),
{
    lemma_labelled(ports, net, name);
    let keep = |i: int| declared_limits(intent, ports, i) != NetLimits::none();
    let rows = limit_rows(intent, ports, nets);
    lemma_kept(nets, keep);
    assert(NetId(net.0 as int as u32) == net);
    let own = declared_limits(intent, ports, net.0 as int);
    if first_row(intent.limit_name@, name, row) {
        lemma_first_row(intent.limit_name@, name, row);
        assert(own == intent.limit@[row]);
    } else if forall|k: int| 0 <= k < intent.limit_name@.len() ==> #[trigger] intent.limit_name@[k]
        != name {
        if row_named(intent.limit_name@, name) is Some {
            let q = choose|q: int| first_row(intent.limit_name@, name, q);
            assert(first_row(intent.limit_name@, name, q));
            assert(intent.limit_name@[q] == name);
        }
        assert(own == NetLimits::none());
    }
    if own != NetLimits::none() {
        lemma_keeps(nets, keep, net.0);
        let k = rows.index_of(net.0);
        assert(rows[k] == net.0);
        assert(map.limit_net@[k] == net);
        assert(net_row(map.limit_net@, net) == Some(k)) by {
            let c = map.limit_net@.index_of(net);
            assert(map.limit_net@[c] == net);
        }
    } else if map.limit_net@.contains(net) {
        let c = map.limit_net@.index_of(net);
        assert(map.limit_net@[c] == net);
        assert(rows[c] == net.0);
        assert(keep(rows[c] as int));
    }
}

/// A declared supply is undeclared in a layout exactly where no net's label is its name.
pub proof fn lemma_missing_supplies(
    intent: &DesignIntent,
    ports: &PortTable,
    nets: int,
    n: nat,
    i: int,
)
    requires
        0 <= i < n <= intent.supply_name@.len(),
    ensures
        missing_names(intent, ports, nets, n).contains(intent.supply_name@[i]) <==> forall|k: int|
            0 <= k < nets ==> #[trigger] ports.name_spec(NetId(k as u32)) != Some(
                intent.supply_name@[i],
            ),
        forall|k: int|
            0 <= k < missing_names(intent, ports, nets, n).len() ==> !labelled(
                ports,
                nets,
                #[trigger] missing_names(intent, ports, nets, n)[k],
            ),
    decreases n,
{
    let m = (n - 1) as nat;
    let before = missing_names(intent, ports, nets, m);
    let now = missing_names(intent, ports, nets, n);
    if m > 0 {
        lemma_missing_supplies(
            intent,
            ports,
            nets,
            m,
            if i < m {
                i
            } else {
                m - 1
            },
        );
    }
    let name = intent.supply_name@[i];
    assert forall|k: int| 0 <= k < now.len() implies !labelled(ports, nets, #[trigger] now[k]) by {
        if k < before.len() {
            assert(now[k] == before[k]);
        }
    }
    if now.len() > before.len() {
        assert(now[before.len() as int] == intent.supply_name@[m as int]);
    }
    if i < m && before.contains(name) {
        let k = before.index_of(name);
        assert(now[k] == name);
    }
    if now.contains(name) {
        let k = now.index_of(name);
        assert(now[k] == name);
        assert(!labelled(ports, nets, name));
    }
}

} // verus!
