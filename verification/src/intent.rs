//! What the design owner declared, and the same declarations by net.
use crate::design::{kept, lemma_kept};
use crate::model::{DomainId, NetId, StrId, SupplyRole};
use crate::number::Number;
use crate::store::{NetTable, PortTable};
use vstd::prelude::*;

verus! {

/// The limits the design owner states for one net. An absent one is not
/// checked; it is never unlimited.
#[derive(Clone, Copy, Debug, PartialEq, Eq)]
pub struct NetLimits {
    /// Millivolts.
    pub max_drop: Option<Number>,
    /// Fraction of the domain's nominal.
    pub max_drop_fraction: Option<Number>,
    /// Millivolts.
    pub max_overvoltage: Option<Number>,
    /// Microamps.
    pub budget_current_ua: Option<Number>,
}

impl NetLimits {
    /// No limit stated at all.
    pub open spec fn none() -> NetLimits {
        NetLimits {
            max_drop: None,
            max_drop_fraction: None,
            max_overvoltage: None,
            budget_current_ua: None,
        }
    }

    /// Whether any limit is stated.
    pub fn states_any(&self) -> (r: bool)
        ensures
            r == (*self != NetLimits::none()),
    {
        self.max_drop.is_some() || self.max_drop_fraction.is_some()
            || self.max_overvoltage.is_some()
            || self.budget_current_ua.is_some()
    }
}

impl Default for NetLimits {
    fn default() -> (r: NetLimits)
        ensures
            r == NetLimits::none(),
    {
        NetLimits {
            max_drop: None,
            max_drop_fraction: None,
            max_overvoltage: None,
            budget_current_ua: None,
        }
    }
}

/// Row `k` is the first one of a name column carrying a name.
pub open spec fn first_row(names: Seq<StrId>, name: StrId, k: int) -> bool {
    &&& 0 <= k < names.len()
    &&& names[k] == name
    &&& forall|j: int| 0 <= j < k ==> #[trigger] names[j] != name
}

/// The first row of a name column carrying a name, where one does.
pub open spec fn row_named(names: Seq<StrId>, name: StrId) -> Option<int> {
    if exists|k: int| first_row(names, name, k) {
        Some(choose|k: int| first_row(names, name, k))
    } else {
        None
    }
}

fn find_name(names: &Vec<StrId>, name: StrId) -> (r: Option<usize>)
    ensures
        r is Some <==> row_named(names@, name) is Some,
        r is Some ==> r->0 == row_named(names@, name)->0 && first_row(
            names@,
            name,
            r->0 as int,
        ),
{
    let mut k: usize = 0;
    while k < names.len()
        invariant
            k <= names@.len(),
            forall|j: int| 0 <= j < k ==> #[trigger] names@[j] != name,
        decreases names@.len() - k,
    {
        if names[k] == name {
            proof {
                assert(first_row(names@, name, k as int));
                let c = choose|c: int| first_row(names@, name, c);
                assert(first_row(names@, name, c));
                assert(c == k);
            }
            return Some(k);
        }
        k = k + 1;
    }
    None
}

/// What the design owner declared: voltage domains, the supplies in them, and
/// per-net limits.
pub struct DesignIntent {
    /// Nominal voltage of each domain, in millivolts.
    pub domain_voltage: Vec<Number>,
    pub supply_name: Vec<StrId>,
    pub supply_domain: Vec<DomainId>,
    pub supply_role: Vec<SupplyRole>,
    pub limit_name: Vec<StrId>,
    pub limit: Vec<NetLimits>,
}

impl DesignIntent {
    pub open spec fn wf(&self) -> bool {
        &&& self.supply_domain@.len() == self.supply_name@.len()
        &&& self.supply_role@.len() == self.supply_name@.len()
        &&& self.limit@.len() == self.limit_name@.len()
        &&& forall|k: int|
            0 <= k < self.supply_domain@.len() ==> (#[trigger] self.supply_domain@[k]).0
                < self.domain_voltage@.len()
    }

    /// Nothing declared at all, which is the same verdict as no declaration.
    pub open spec fn empty(&self) -> bool {
        self.domain_voltage@.len() == 0 && self.supply_name@.len() == 0 && self.limit_name@.len()
            == 0
    }

    pub fn is_empty(&self) -> (r: bool)
        ensures
            r == self.empty(),
    {
        self.domain_voltage.len() == 0 && self.supply_name.len() == 0 && self.limit_name.len() == 0
    }

    /// The row declaring a name as a supply.
    pub open spec fn supply(&self, name: StrId) -> Option<int> {
        row_named(self.supply_name@, name)
    }

    /// The limits declared for a name; none where it has no declaration.
    pub open spec fn limits_spec(&self, name: StrId) -> NetLimits {
        match row_named(self.limit_name@, name) {
            Some(k) => self.limit@[k],
            None => NetLimits::none(),
        }
    }

    /// The limits declared for a name; none where it has no declaration.
    pub fn limits(&self, name: StrId) -> (r: NetLimits)
        requires
            self.wf(),
        ensures
            r == self.limits_spec(name),
    {
        match find_name(&self.limit_name, name) {
            Some(k) => self.limit[k],
            None => NetLimits::default(),
        }
    }
}

/// Design intent, addressed by net.
pub struct IntentMap {
    /// False when no design intent was supplied at all. Intent that names
    /// nothing in this layout is a different situation, so this is a field and
    /// not an inference from emptiness.
    pub declared: bool,
    /// Declared supply nets, ascending.
    pub supply_net: Vec<NetId>,
    pub supply_domain: Vec<DomainId>,
    pub supply_role: Vec<SupplyRole>,
    /// Nominal voltage of each supply net's domain, in millivolts.
    pub supply_voltage: Vec<Number>,
    /// Nets with declared limits, ascending.
    pub limit_net: Vec<NetId>,
    pub limit: Vec<NetLimits>,
    /// Declared supply names the layout labels no net with.
    pub undeclared: Vec<StrId>,
}

/// Strictly ascending net ids.
pub open spec fn nets_ascending(nets: Seq<NetId>) -> bool {
    forall|i: int, j: int| 0 <= i < j < nets.len() ==> nets[i].0 < nets[j].0
}

/// The row of an ascending net column a net sits on, where it has one.
pub open spec fn net_row(nets: Seq<NetId>, net: NetId) -> Option<int> {
    if nets.contains(net) { Some(nets.index_of(net)) } else { None }
}

/// Search an ascending net column.
pub fn find_net(nets: &Vec<NetId>, net: NetId) -> (r: Option<usize>)
    requires
        nets_ascending(nets@),
    ensures
        r is Some <==> nets@.contains(net),
        r is Some ==> r->0 < nets@.len() && nets@[r->0 as int] == net
            && net_row(nets@, net) == Some(
            r->0 as int,
        ),
{
    let mut lo: usize = 0;
    let mut hi: usize = nets.len();
    while lo < hi
        invariant
            nets_ascending(nets@),
            lo <= hi <= nets@.len(),
            forall|k: int| 0 <= k < lo ==> (#[trigger] nets@[k]).0 < net.0,
            forall|k: int| hi <= k < nets@.len() ==> (#[trigger] nets@[k]).0 > net.0,
        decreases hi - lo,
    {
        let mid: usize = lo + (hi - lo) / 2;
        let here: u32 = nets[mid].0;
        if here == net.0 {
            assert(nets@[mid as int] == net);
            assert(nets@.index_of(net) == mid) by {
                let k = nets@.index_of(net);
                assert(nets@[k] == net);
            }
            return Some(mid);
        }
        if here < net.0 {
            lo = mid + 1;
        } else {
            hi = mid;
        }
    }
    assert(!nets@.contains(net)) by {
        if nets@.contains(net) {
            let k = nets@.index_of(net);
            assert(nets@[k] == net);
        }
    }
    None
}

impl Default for IntentMap {
    fn default() -> (r: IntentMap)
        ensures
            r.wf(),
            r.blank(),
            !r.declared,
    {
        IntentMap {
            declared: false,
            supply_net: Vec::new(),
            supply_domain: Vec::new(),
            supply_role: Vec::new(),
            supply_voltage: Vec::new(),
            limit_net: Vec::new(),
            limit: Vec::new(),
            undeclared: Vec::new(),
        }
    }
}

impl IntentMap {
    pub open spec fn wf(&self) -> bool {
        &&& nets_ascending(self.supply_net@)
        &&& self.supply_domain@.len() == self.supply_net@.len()
        &&& self.supply_role@.len() == self.supply_net@.len()
        &&& self.supply_voltage@.len() == self.supply_net@.len()
        &&& nets_ascending(self.limit_net@)
        &&& self.limit@.len() == self.limit_net@.len()
    }

    /// No row of any kind.
    pub open spec fn blank(&self) -> bool {
        &&& self.supply_net@.len() == 0
        &&& self.limit_net@.len() == 0
        &&& self.undeclared@.len() == 0
    }

    /// The row a declared supply net sits on.
    fn supply_row(&self, net: NetId) -> (r: Option<usize>)
        requires
            self.wf(),
        ensures
            r is Some <==> self.supply_net@.contains(net),
            r is Some ==> r->0 < self.supply_net@.len() && net_row(self.supply_net@, net) == Some(
                r->0 as int,
            ),
    {
        find_net(&self.supply_net, net)
    }

    /// The domain and role of a declared supply net.
    pub open spec fn supply_spec(&self, net: NetId) -> Option<(DomainId, SupplyRole)> {
        match net_row(self.supply_net@, net) {
            Some(k) => Some((self.supply_domain@[k], self.supply_role@[k])),
            None => None,
        }
    }

    /// Whether a net is a declared supply, and in which domain and role.
    pub fn supply_of(&self, net: NetId) -> (r: Option<(DomainId, SupplyRole)>)
        requires
            self.wf(),
        ensures
            r == self.supply_spec(net),
    {
        match self.supply_row(net) {
            Some(k) => Some((self.supply_domain[k], self.supply_role[k])),
            None => None,
        }
    }

    pub open spec fn nominal_spec(&self, net: NetId) -> Option<Number> {
        match net_row(self.supply_net@, net) {
            Some(k) => Some(self.supply_voltage@[k]),
            None => None,
        }
    }

    /// The nominal voltage of a declared supply net.
    pub fn nominal_voltage(&self, net: NetId) -> (r: Option<Number>)
        requires
            self.wf(),
        ensures
            r == self.nominal_spec(net),
    {
        match self.supply_row(net) {
            Some(k) => Some(self.supply_voltage[k]),
            None => None,
        }
    }

    pub open spec fn limits_spec(&self, net: NetId) -> NetLimits {
        match net_row(self.limit_net@, net) {
            Some(k) => self.limit@[k],
            None => NetLimits::none(),
        }
    }

    /// The limits declared for a net. All absent when undeclared, which means
    /// not checked and never unlimited.
    pub fn limits_of(&self, net: NetId) -> (r: NetLimits)
        requires
            self.wf(),
        ensures
            r == self.limits_spec(net),
    {
        match find_net(&self.limit_net, net) {
            Some(k) => self.limit[k],
            None => NetLimits::default(),
        }
    }

    pub fn supply_count(&self) -> (r: usize)
        ensures
            r == self.supply_net@.len(),
    {
        self.supply_net.len()
    }

    /// Whether there is something here for an intent-dependent rule to check
    /// against.
    pub open spec fn usable(&self) -> bool {
        self.declared && (self.supply_net@.len() > 0 || self.limit_net@.len() > 0)
    }

    /// True when there is something here for an intent-dependent rule to check
    /// against. A rule handed a map that is not usable records itself skipped.
    pub fn is_usable(&self) -> (r: bool)
        ensures
            r == self.usable(),
    {
        self.declared && (self.supply_net.len() > 0 || self.limit_net.len() > 0)
    }
}

/// The supply row net `i`'s label is declared on, where it is.
pub open spec fn declared_supply(intent: &DesignIntent, ports: &PortTable, i: int) -> Option<int> {
    match ports.name_spec(NetId(i as u32)) {
        Some(name) => intent.supply(name),
        None => None,
    }
}

/// The limits net `i`'s label carries.
pub open spec fn declared_limits(
    intent: &DesignIntent,
    ports: &PortTable,
    i: int,
) -> NetLimits {
    match ports.name_spec(NetId(i as u32)) {
        Some(name) => intent.limits_spec(name),
        None => NetLimits::none(),
    }
}

pub open spec fn supply_rows(intent: &DesignIntent, ports: &PortTable, n: nat) -> Seq<u32> {
    kept(n, |i: int| declared_supply(intent, ports, i) is Some)
}

pub open spec fn limit_rows(intent: &DesignIntent, ports: &PortTable, n: nat) -> Seq<u32> {
    kept(n, |i: int| declared_limits(intent, ports, i) != NetLimits::none())
}

/// Whether one of the first `n` nets is labelled with a name.
pub open spec fn labelled(ports: &PortTable, n: int, name: StrId) -> bool {
    exists|i: int| 0 <= i < n && #[trigger] ports.name_spec(NetId(i as u32)) == Some(name)
}

/// The first `n` declared supply names the layout labels no net with.
pub open spec fn missing_names(intent: &DesignIntent, ports: &PortTable, nets: int, n: nat) -> Seq<
    StrId,
>
    decreases n,
{
    if n == 0 {
        Seq::empty()
    } else {
        let before = missing_names(intent, ports, nets, (n - 1) as nat);
        if labelled(ports, nets, intent.supply_name@[n - 1]) {
            before
        } else {
            before.push(intent.supply_name@[n - 1])
        }
    }
}

/// What a map holds once a declaration is addressed by net.
pub open spec fn resolved(
    map: &IntentMap,
    intent: Option<&DesignIntent>,
    ports: &PortTable,
    nets: nat,
) -> bool {
    match intent {
        None => !map.declared && map.blank(),
        Some(intent) => {
            let supplies = supply_rows(intent, ports, nets);
            let limits = limit_rows(intent, ports, nets);
            &&& map.declared == !intent.empty()
            &&& map.supply_net@ == supplies.map_values(|i: u32| NetId(i))
            &&& forall|k: int|
                0 <= k < supplies.len() ==> {
                    let row = declared_supply(intent, ports, #[trigger] supplies[k] as int)->0;
                    &&& map.supply_domain@[k] == intent.supply_domain@[row]
                    &&& map.supply_role@[k] == intent.supply_role@[row]
                    &&& map.supply_voltage@[k]
                        == intent.domain_voltage@[intent.supply_domain@[row].0 as int]
                }
            &&& map.limit_net@ == limits.map_values(|i: u32| NetId(i))
            &&& forall|k: int|
                0 <= k < limits.len() ==> map.limit@[k] == declared_limits(
                    intent,
                    ports,
                    #[trigger] limits[k] as int,
                )
            &&& map.undeclared@ == missing_names(
                intent,
                ports,
                nets as int,
                intent.supply_name@.len(),
            )
        },
    }
}

/// Address design intent by extracted net.
///
/// `None` is a run given no intent: the map comes back empty with `declared`
/// false, which is how the intent-dependent rules know to record themselves
/// skipped. A declared supply the layout never labelled lands in `undeclared`
/// rather than being silently dropped.
pub fn resolve_intent_into(
    intent: Option<&DesignIntent>,
    ports: &PortTable,
    nets: &NetTable,
    out: &mut IntentMap,
)
    requires
        ports.wf(),
        nets.nets() < 0xFFFF_FFFF,
        intent is Some ==> (*intent->0).wf(),
    ensures
        final(out).wf(),
        resolved(final(out), intent, ports, nets.nets() as nat),
        forall|k: int|
            0 <= k < final(out).supply_net@.len() ==> (#[trigger] final(out).supply_net@[k]).0
                < nets.nets(),
{
    out.declared = false;
    out.supply_net.clear();
    out.supply_domain.clear();
    out.supply_role.clear();
    out.supply_voltage.clear();
    out.limit_net.clear();
    out.limit.clear();
    out.undeclared.clear();
    let intent = match intent {
        None => {
            return;
        },
        Some(intent) => intent,
    };
    out.declared = !intent.is_empty();
    let count: u32 = nets.net_count() as u32;
    let ghost is_supply = |i: int| declared_supply(intent, ports, i) is Some;
    let ghost is_limited = |i: int| declared_limits(intent, ports, i) != NetLimits::none();
    let ghost to_net = |i: u32| NetId(i);
    let mut row: u32 = 0;
    assert(out.supply_net@ =~= kept(0, is_supply).map_values(to_net));
    assert(out.limit_net@ =~= kept(0, is_limited).map_values(to_net));
    while row < count
        invariant
            ports.wf(),
            intent.wf(),
            row <= count < 0xFFFF_FFFF,
            is_supply == (|i: int| declared_supply(intent, ports, i) is Some),
            is_limited == (|i: int| declared_limits(intent, ports, i) != NetLimits::none()),
            to_net == (|i: u32| NetId(i)),
            out.declared == !intent.empty(),
            out.undeclared@.len() == 0,
            out.supply_net@ == kept(row as nat, is_supply).map_values(to_net),
            out.supply_domain@.len() == out.supply_net@.len(),
            out.supply_role@.len() == out.supply_net@.len(),
            out.supply_voltage@.len() == out.supply_net@.len(),
            forall|k: int|
                0 <= k < kept(row as nat, is_supply).len() ==> {
                    let at = declared_supply(
                        intent,
                        ports,
                        #[trigger] kept(row as nat, is_supply)[k] as int,
                    )->0;
                    &&& out.supply_domain@[k] == intent.supply_domain@[at]
                    &&& out.supply_role@[k] == intent.supply_role@[at]
                    &&& out.supply_voltage@[k]
                        == intent.domain_voltage@[intent.supply_domain@[at].0 as int]
                },
            out.limit_net@ == kept(row as nat, is_limited).map_values(to_net),
            out.limit@.len() == out.limit_net@.len(),
            forall|k: int|
                0 <= k < kept(row as nat, is_limited).len() ==> out.limit@[k] == declared_limits(
                    intent,
                    ports,
                    #[trigger] kept(row as nat, is_limited)[k] as int,
                ),
        decreases count - row,
    {
        let ghost supplies = kept(row as nat, is_supply);
        let ghost limited = kept(row as nat, is_limited);
        let net = NetId(row);
        let named = ports.name_of(net);
        if let Some(name) = named {
            let found = find_name(&intent.supply_name, name);
            if let Some(at) = found {
                let domain = intent.supply_domain[at];
                let voltages: usize = intent.domain_voltage.len();
                assert(intent.supply_domain@[at as int].0 < voltages);
                out.supply_net.push(net);
                out.supply_domain.push(domain);
                out.supply_role.push(intent.supply_role[at]);
                out.supply_voltage.push(intent.domain_voltage[domain.0 as usize]);
            }
            let limits = intent.limits(name);
            if limits.states_any() {
                out.limit_net.push(net);
                out.limit.push(limits);
            }
        }
        proof {
            assert(is_supply(row as int) == (declared_supply(intent, ports, row as int) is Some));
            let now = kept((row + 1) as nat, is_supply);
            assert(now == (if is_supply(row as int) { supplies.push(row) } else { supplies }));
            assert(out.supply_net@ =~= now.map_values(to_net));
            let then = kept((row + 1) as nat, is_limited);
            assert(then == (if is_limited(row as int) { limited.push(row) } else { limited }));
            assert(out.limit_net@ =~= then.map_values(to_net));
            assert forall|k: int| 0 <= k < now.len() implies {
                let at = declared_supply(intent, ports, #[trigger] now[k] as int)->0;
                &&& out.supply_domain@[k] == intent.supply_domain@[at]
                &&& out.supply_role@[k] == intent.supply_role@[at]
                &&& out.supply_voltage@[k]
                    == intent.domain_voltage@[intent.supply_domain@[at].0 as int]
            } by {
                if k < supplies.len() {
                    assert(now[k] == supplies[k]);
                }
            }
            assert forall|k: int| 0 <= k < then.len() implies out.limit@[k] == declared_limits(
                intent,
                ports,
                #[trigger] then[k] as int,
            ) by {
                if k < limited.len() {
                    assert(then[k] == limited[k]);
                }
            }
        }
        row = row + 1;
    }
    let mut k: usize = 0;
    let ghost filled = *out;
    assert(out.undeclared@ =~= missing_names(intent, ports, nets.nets(), 0));
    while k < intent.supply_name.len()
        invariant
            ports.wf(),
            intent.wf(),
            k <= intent.supply_name@.len(),
            count == nets.nets(),
            out.undeclared@ == missing_names(intent, ports, nets.nets(), k as nat),
            out.declared == filled.declared,
            out.supply_net == filled.supply_net,
            out.supply_domain == filled.supply_domain,
            out.supply_role == filled.supply_role,
            out.supply_voltage == filled.supply_voltage,
            out.limit_net == filled.limit_net,
            out.limit == filled.limit,
        decreases intent.supply_name@.len() - k,
    {
        let name = intent.supply_name[k];
        if !is_labelled(ports, count, name) {
            out.undeclared.push(name);
        }
        k = k + 1;
    }
    proof {
        let n = nets.nets() as nat;
        assert(supply_rows(intent, ports, n) =~= kept(n, is_supply));
        assert(limit_rows(intent, ports, n) =~= kept(n, is_limited));
        lemma_kept_ascends(n, is_supply);
        lemma_kept_ascends(n, is_limited);
        lemma_kept(n, is_supply);
        assert forall|k: int| 0 <= k < out.supply_net@.len() implies (
        #[trigger] out.supply_net@[k]).0 < nets.nets() by {
            assert(out.supply_net@[k] == NetId(kept(n, is_supply)[k]));
        }
        assert(nets_ascending(out.supply_net@));
        assert(nets_ascending(out.limit_net@));
    }
}

/// The kept numbers ascend.
pub proof fn lemma_kept_ascends(n: nat, keep: spec_fn(int) -> bool)
    requires
        n <= 0x1_0000_0000,
    ensures
        forall|i: int, j: int|
            0 <= i < j < kept(n, keep).len() ==> kept(n, keep)[i] < kept(n, keep)[j],
    decreases n,
{
    if n > 0 {
        lemma_kept_ascends((n - 1) as nat, keep);
        crate::design::lemma_kept((n - 1) as nat, keep);
    }
}

fn is_labelled(ports: &PortTable, nets: u32, name: StrId) -> (r: bool)
    requires
        ports.wf(),
    ensures
        r == labelled(ports, nets as int, name),
{
    let mut i: u32 = 0;
    while i < nets
        invariant
            ports.wf(),
            i <= nets,
            forall|j: int| 0 <= j < i ==> #[trigger] ports.name_spec(NetId(j as u32)) != Some(name),
        decreases nets - i,
    {
        let here = ports.name_of(NetId(i));
        if let Some(label) = here {
            if label == name {
                assert(ports.name_spec(NetId(i as int as u32)) == Some(name));
                return true;
            }
        }
        i = i + 1;
    }
    false
}

} // verus!
