//! Two tables computed once per run and read by most of the rules.
use crate::model::{NetId, TerminalRole, NO_NET};
use crate::report::saturated;
use crate::store::{DeviceTable, NetTable};
use vstd::prelude::*;

verus! {

/// Which terminal roles are present on a net, as a bit per role.
///
/// [`TerminalRole::Pin`] collapses to one bit: the pin index of a symmetric
/// device carries no electrical meaning.
#[derive(Clone, Copy, Debug, PartialEq, Eq, Structural)]
pub struct RoleMask(pub u8);

impl RoleMask {
    pub const GATE: u8 = 0x01;

    pub const SOURCE: u8 = 0x02;

    pub const DRAIN: u8 = 0x04;

    pub const BULK: u8 = 0x08;

    pub const BASE: u8 = 0x10;

    pub const EMITTER: u8 = 0x20;

    pub const COLLECTOR: u8 = 0x40;

    pub const PIN: u8 = 0x80;

    /// Nothing attached.
    pub const NONE: u8 = 0x00;

    /// Every role.
    pub const ANY: u8 = 0xFF;

    /// The bit of one terminal role.
    pub open spec fn bit(role: TerminalRole) -> u8 {
        match role {
            TerminalRole::Gate => RoleMask::GATE,
            TerminalRole::Source => RoleMask::SOURCE,
            TerminalRole::Drain => RoleMask::DRAIN,
            TerminalRole::Bulk => RoleMask::BULK,
            TerminalRole::Base => RoleMask::BASE,
            TerminalRole::Emitter => RoleMask::EMITTER,
            TerminalRole::Collector => RoleMask::COLLECTOR,
            TerminalRole::Pin(_) => RoleMask::PIN,
        }
    }

    /// The mask holding one terminal role.
    pub fn of(role: TerminalRole) -> (r: RoleMask)
        ensures
            r == RoleMask(RoleMask::bit(role)),
    {
        match role {
            TerminalRole::Gate => RoleMask(RoleMask::GATE),
            TerminalRole::Source => RoleMask(RoleMask::SOURCE),
            TerminalRole::Drain => RoleMask(RoleMask::DRAIN),
            TerminalRole::Bulk => RoleMask(RoleMask::BULK),
            TerminalRole::Base => RoleMask(RoleMask::BASE),
            TerminalRole::Emitter => RoleMask(RoleMask::EMITTER),
            TerminalRole::Collector => RoleMask(RoleMask::COLLECTOR),
            TerminalRole::Pin(_) => RoleMask(RoleMask::PIN),
        }
    }

    /// True when every bit of `other` is set in `self`.
    pub fn contains(self, other: RoleMask) -> (r: bool)
        ensures
            r == (self.0 & other.0 == other.0),
    {
        self.0 & other.0 == other.0
    }

    /// True when the two masks share at least one bit.
    pub fn intersects(self, other: RoleMask) -> (r: bool)
        ensures
            r == (self.0 & other.0 != 0),
    {
        self.0 & other.0 != 0
    }

    #[must_use]
    pub fn union(self, other: RoleMask) -> (r: RoleMask)
        ensures
            r == RoleMask(self.0 | other.0),
    {
        RoleMask(self.0 | other.0)
    }

    /// `self` with every bit of `other` cleared.
    #[must_use]
    pub fn without(self, other: RoleMask) -> (r: RoleMask)
        ensures
            r == RoleMask(self.0 & !other.0),
    {
        RoleMask(self.0 & !other.0)
    }

    pub fn is_empty(self) -> (r: bool)
        ensures
            r == (self.0 == RoleMask::NONE),
    {
        self.0 == RoleMask::NONE
    }
}

/// What is attached to each net.
pub struct NetFacts {
    /// Roles present on each net.
    pub role: Vec<RoleMask>,
    /// Terminals attached to each net, saturating.
    pub terminals: Vec<u32>,
}

impl NetFacts {
    pub open spec fn wf(&self) -> bool {
        self.terminals@.len() == self.role@.len() && self.role@.len() < NO_NET
    }

    pub fn len(&self) -> (r: usize)
        ensures
            r == self.role@.len(),
    {
        self.role.len()
    }

    pub fn is_empty(&self) -> (r: bool)
        ensures
            r == (self.role@.len() == 0),
    {
        self.role.len() == 0
    }

    /// The roles on one net; none on no net at all.
    ///
    /// A net past the table was never classified, which is not the same answer
    /// as "no device touches it", so it is not accepted.
    pub fn role_of(&self, net: NetId) -> (r: RoleMask)
        requires
            net.0 == NO_NET || net.0 < self.role@.len(),
        ensures
            r == (if net.0 == NO_NET {
                RoleMask(RoleMask::NONE)
            } else {
                self.role@[net.0 as int]
            }),
    {
        if net.0 == NO_NET {
            return RoleMask(RoleMask::NONE);
        }
        self.role[net.0 as usize]
    }

    /// True when any terminal of any device family lands on this net.
    pub fn is_device_connected(&self, net: NetId) -> (r: bool)
        requires
            net.0 == NO_NET || net.0 < self.role@.len(),
        ensures
            r == (net.0 != NO_NET && self.role@[net.0 as int].0 != RoleMask::NONE),
    {
        !self.role_of(net).is_empty()
    }
}

impl Default for NetFacts {
    fn default() -> (r: NetFacts)
        ensures
            r.wf(),
            r.role@.len() == 0,
    {
        NetFacts { role: Vec::new(), terminals: Vec::new() }
    }
}

/// Whether one of the first `n` terminals on a net has a role, pins being one
/// role whatever their index.
pub open spec fn attached(devices: &DeviceTable, net: int, role: TerminalRole, n: int) -> bool {
    exists|t: int|
        0 <= t < n && (#[trigger] devices.terminal_net@[t]).0 == net && RoleMask::bit(
            devices.terminal_role@[t],
        ) == RoleMask::bit(role)
}

/// How many of the first `n` terminals of a column land on a net.
pub open spec fn landed(terminals: Seq<NetId>, net: int, n: nat) -> nat
    decreases n,
{
    if n == 0 {
        0
    } else {
        landed(terminals, net, (n - 1) as nat) + if terminals[n - 1].0 == net {
            1nat
        } else {
            0
        }
    }
}

proof fn lemma_bits(a: u8, p: u8, q: u8)
    by (bit_vector)
    requires
        p == 0x01 || p == 0x02 || p == 0x04 || p == 0x08 || p == 0x10 || p == 0x20 || p == 0x40
            || p == 0x80,
        q == 0x01 || q == 0x02 || q == 0x04 || q == 0x08 || q == 0x10 || q == 0x20 || q == 0x40
            || q == 0x80,
    ensures
        ((a | p) & q != 0) <==> (a & q != 0 || p == q),
        0u8 & q == 0,
{
}

/// Fold every device terminal into its net's role mask and terminal count.
///
/// A terminal on no net, or on a net past this extraction, lands nowhere.
pub fn classify_nets_into(nets: &NetTable, devices: &DeviceTable, out: &mut NetFacts)
    requires
        nets.nets() < NO_NET,
        devices.terminal_role@.len() == devices.terminal_net@.len(),
    ensures
        final(out).wf(),
        final(out).role@.len() == nets.nets(),
        forall|net: int, role: TerminalRole|
            0 <= net < nets.nets() ==> (#[trigger] has_role(final(out), net, role) <==> attached(
                devices,
                net,
                role,
                devices.terminal_net@.len() as int,
            )),
        forall|net: int|
            0 <= net < nets.nets() ==> #[trigger] final(out).terminals@[net] == saturated(
                landed(devices.terminal_net@, net, devices.terminal_net@.len()),
            ),
{
    let count: usize = nets.net_count();
    out.role.clear();
    out.terminals.clear();
    let mut i: usize = 0;
    while i < count
        invariant
            i <= count,
            count == nets.nets(),
            out.role@.len() == i,
            out.terminals@.len() == i,
            forall|k: int| 0 <= k < i ==> #[trigger] out.role@[k] == RoleMask(RoleMask::NONE),
            forall|k: int| 0 <= k < i ==> #[trigger] out.terminals@[k] == 0,
        decreases count - i,
    {
        out.role.push(RoleMask(RoleMask::NONE));
        out.terminals.push(0);
        i = i + 1;
    }
    proof {
        assert forall|net: int, role: TerminalRole| 0 <= net < count implies (#[trigger] has_role(
            out,
            net,
            role,
        ) <==> attached(devices, net, role, 0)) by {
            lemma_bits(0, RoleMask::bit(role), RoleMask::bit(role));
        }
    }
    let mut t: usize = 0;
    while t < devices.terminal_net.len()
        invariant
            devices.terminal_role@.len() == devices.terminal_net@.len(),
            t <= devices.terminal_net@.len(),
            count == nets.nets(),
            count < NO_NET,
            out.role@.len() == count,
            out.terminals@.len() == count,
            forall|net: int, role: TerminalRole|
                0 <= net < count ==> (#[trigger] has_role(out, net, role) <==> attached(
                    devices,
                    net,
                    role,
                    t as int,
                )),
            forall|net: int|
                0 <= net < count ==> #[trigger] out.terminals@[net] == saturated(
                    landed(devices.terminal_net@, net, t as nat),
                ),
        decreases devices.terminal_net@.len() - t,
    {
        let net: u32 = devices.terminal_net[t].0;
        let role = devices.terminal_role[t];
        let ghost before = *out;
        if (net as usize) < count {
            let row: usize = net as usize;
            let mask = out.role[row].union(RoleMask::of(role));
            out.role.set(row, mask);
            let seen: u32 = out.terminals[row];
            let more: u32 = if seen == 0xFFFF_FFFF { seen } else { seen + 1 };
            out.terminals.set(row, more);
        }
        proof {
            assert forall|n: int, r: TerminalRole| 0 <= n < count implies (#[trigger] has_role(
                out,
                n,
                r,
            ) <==> attached(devices, n, r, t + 1)) by {
                assert(has_role(&before, n, r) <==> attached(devices, n, r, t as int));
                if n == net {
                    lemma_bits(before.role@[n].0, RoleMask::bit(role), RoleMask::bit(r));
                }
                if attached(devices, n, r, t as int) {
                    let k = choose|k: int|
                        0 <= k < t && (#[trigger] devices.terminal_net@[k]).0 == n
                            && RoleMask::bit(devices.terminal_role@[k]) == RoleMask::bit(r);
                    assert(devices.terminal_net@[k].0 == n);
                    assert(attached(devices, n, r, t + 1));
                }
                if n == net && RoleMask::bit(role) == RoleMask::bit(r) {
                    assert(devices.terminal_net@[t as int].0 == n);
                    assert(attached(devices, n, r, t + 1));
                }
            }
            assert forall|n: int| 0 <= n < count implies #[trigger] out.terminals@[n] == saturated(
                landed(devices.terminal_net@, n, (t + 1) as nat),
            ) by {
                assert(before.terminals@[n] == saturated(
                    landed(devices.terminal_net@, n, t as nat),
                ));
            }
        }
        t = t + 1;
    }
}

/// Whether a net's mask holds a role.
pub open spec fn has_role(facts: &NetFacts, net: int, role: TerminalRole) -> bool {
    facts.role@[net].0 & RoleMask::bit(role) != 0
}

/// A net with any terminal of any device family reads as connected, and one
/// with none does not.
pub proof fn lemma_connected(nets: &NetTable, devices: &DeviceTable, facts: &NetFacts, net: int)
    requires
        devices.terminal_role@.len() == devices.terminal_net@.len(),
        0 <= net < nets.nets(),
        facts.role@.len() == nets.nets(),
        forall|role: TerminalRole|
            #[trigger] has_role(facts, net, role) <==> attached(
                devices,
                net,
                role,
                devices.terminal_net@.len() as int,
            ),
    ensures
        facts.role@[net].0 != RoleMask::NONE <==> exists|t: int|
            0 <= t < devices.terminal_net@.len() && (#[trigger] devices.terminal_net@[t]).0 == net,
{
    let mask = facts.role@[net].0;
    let n = devices.terminal_net@.len() as int;
    if mask != 0 {
        lemma_some_bit(mask);
        assert(exists|role: TerminalRole| #[trigger] has_role(facts, net, role)) by {
            if mask & 0x01 != 0 {
                assert(has_role(facts, net, TerminalRole::Gate));
            } else if mask & 0x02 != 0 {
                assert(has_role(facts, net, TerminalRole::Source));
            } else if mask & 0x04 != 0 {
                assert(has_role(facts, net, TerminalRole::Drain));
            } else if mask & 0x08 != 0 {
                assert(has_role(facts, net, TerminalRole::Bulk));
            } else if mask & 0x10 != 0 {
                assert(has_role(facts, net, TerminalRole::Base));
            } else if mask & 0x20 != 0 {
                assert(has_role(facts, net, TerminalRole::Emitter));
            } else if mask & 0x40 != 0 {
                assert(has_role(facts, net, TerminalRole::Collector));
            } else {
                assert(has_role(facts, net, TerminalRole::Pin(0)));
            }
        }
        let role = choose|role: TerminalRole| #[trigger] has_role(facts, net, role);
        assert(attached(devices, net, role, n));
    }
    if exists|t: int| 0 <= t < n && (#[trigger] devices.terminal_net@[t]).0 == net {
        let t = choose|t: int| 0 <= t < n && (#[trigger] devices.terminal_net@[t]).0 == net;
        let role = devices.terminal_role@[t];
        assert(attached(devices, net, role, n));
        assert(has_role(facts, net, role));
        lemma_bits(0, RoleMask::bit(role), RoleMask::bit(role));
    }
}

proof fn lemma_some_bit(mask: u8)
    by (bit_vector)
    requires
        mask != 0,
    ensures
        mask & 0x01 != 0 || mask & 0x02 != 0 || mask & 0x04 != 0 || mask & 0x08 != 0 || mask & 0x10
            != 0 || mask & 0x20 != 0 || mask & 0x40 != 0 || mask & 0x80 != 0,
{
}

/// Whether two terminal columns hold the same terminals in some order.
pub open spec fn same_terminals(a: &DeviceTable, b: &DeviceTable) -> bool {
    terminals(a).to_multiset() == terminals(b).to_multiset()
}

/// The terminals of a device table, as pairs.
pub open spec fn terminals(d: &DeviceTable) -> Seq<(NetId, TerminalRole)> {
    Seq::new(d.terminal_net@.len(), |t: int| (d.terminal_net@[t], d.terminal_role@[t]))
}

/// Classification does not depend on the order terminals are listed in.
pub proof fn lemma_classification_ignores_order(
    a: &DeviceTable,
    b: &DeviceTable,
    net: int,
    role: TerminalRole,
)
    requires
        a.terminal_role@.len() == a.terminal_net@.len(),
        b.terminal_role@.len() == b.terminal_net@.len(),
        same_terminals(a, b),
    ensures
        attached(a, net, role, a.terminal_net@.len() as int) <==> attached(
            b,
            net,
            role,
            b.terminal_net@.len() as int,
        ),
        landed(a.terminal_net@, net, a.terminal_net@.len()) == landed(
            b.terminal_net@,
            net,
            b.terminal_net@.len(),
        ),
{
    let s = terminals(a);
    let t = terminals(b);
    s.to_multiset_ensures();
    t.to_multiset_ensures();
    assert(s.len() == t.len());
    if attached(a, net, role, a.terminal_net@.len() as int) {
        lemma_attached_moves(a, b, net, role);
    }
    if attached(b, net, role, b.terminal_net@.len() as int) {
        lemma_attached_moves(b, a, net, role);
    }
    lemma_landed_is(a, net, s.len());
    lemma_landed_is(b, net, t.len());
    assert(s.take(s.len() as int) =~= s);
    assert(t.take(t.len() as int) =~= t);
    lemma_on_net_permutes(s, t, net);
}

proof fn lemma_attached_moves(a: &DeviceTable, b: &DeviceTable, net: int, role: TerminalRole)
    requires
        a.terminal_role@.len() == a.terminal_net@.len(),
        b.terminal_role@.len() == b.terminal_net@.len(),
        same_terminals(a, b),
        attached(a, net, role, a.terminal_net@.len() as int),
    ensures
        attached(b, net, role, b.terminal_net@.len() as int),
{
    let s = terminals(a);
    let t = terminals(b);
    s.to_multiset_ensures();
    t.to_multiset_ensures();
    let k = choose|k: int|
        0 <= k < s.len() && (#[trigger] a.terminal_net@[k]).0 == net && RoleMask::bit(
            a.terminal_role@[k],
        ) == RoleMask::bit(role);
    assert(s[k] == (a.terminal_net@[k], a.terminal_role@[k]));
    assert(s.contains(s[k]));
    assert(s.to_multiset().count(s[k]) > 0);
    assert(t.to_multiset().count(s[k]) > 0);
    assert(t.contains(s[k]));
    let j = t.index_of(s[k]);
    assert(t[j] == s[k]);
    assert(b.terminal_net@[j].0 == net);
}

/// How many entries of a terminal list land on a net.
spec fn on_net(s: Seq<(NetId, TerminalRole)>, net: int) -> nat
    decreases s.len(),
{
    if s.len() == 0 {
        0
    } else {
        on_net(s.drop_last(), net) + if s.last().0.0 == net {
            1nat
        } else {
            0
        }
    }
}

proof fn lemma_landed_is(d: &DeviceTable, net: int, n: nat)
    requires
        n <= d.terminal_net@.len(),
    ensures
        landed(d.terminal_net@, net, n) == on_net(terminals(d).take(n as int), net),
    decreases n,
{
    if n > 0 {
        lemma_landed_is(d, net, (n - 1) as nat);
        let s = terminals(d).take(n as int);
        assert(s.drop_last() =~= terminals(d).take(n - 1));
    }
}

proof fn lemma_on_net_remove(s: Seq<(NetId, TerminalRole)>, net: int, i: int)
    requires
        0 <= i < s.len(),
    ensures
        on_net(s, net) == on_net(s.remove(i), net) + if s[i].0.0 == net {
            1nat
        } else {
            0
        },
    decreases s.len(),
{
    if i == s.len() - 1 {
        assert(s.remove(i) =~= s.drop_last());
    } else {
        lemma_on_net_remove(s.drop_last(), net, i);
        let r = s.remove(i);
        assert(r.drop_last() =~= s.drop_last().remove(i));
        assert(r.last() == s.last());
    }
}

proof fn lemma_on_net_permutes(
    s: Seq<(NetId, TerminalRole)>,
    t: Seq<(NetId, TerminalRole)>,
    net: int,
)
    requires
        s.to_multiset() == t.to_multiset(),
    ensures
        on_net(s, net) == on_net(t, net),
    decreases s.len(),
{
    s.to_multiset_ensures();
    t.to_multiset_ensures();
    if s.len() > 0 {
        let v = s.last();
        assert(s.contains(v));
        assert(s.to_multiset().count(v) > 0);
        assert(t.to_multiset().count(v) > 0);
        assert(t.contains(v));
        let i = t.index_of(v);
        let rest = t.remove(i);
        assert(s.remove(s.len() - 1) =~= s.drop_last());
        assert(rest.to_multiset() == s.drop_last().to_multiset());
        lemma_on_net_permutes(s.drop_last(), rest, net);
        lemma_on_net_remove(t, net, i);
    }
}

/// A mask holds what it was joined with, loses what is taken out of it, and
/// shares a bit with another exactly when their overlap is not empty.
pub proof fn lemma_mask_algebra(a: RoleMask, b: RoleMask)
    ensures
        (a.0 | b.0) & a.0 == a.0,
        (a.0 | b.0) & b.0 == b.0,
        (a.0 | b.0) == (b.0 | a.0),
        (a.0 & !b.0) & b.0 == 0,
        a.0 & b.0 == b.0 && b.0 != 0 ==> a.0 & b.0 != 0,
        a.0 & RoleMask::NONE == RoleMask::NONE,
        RoleMask::ANY & a.0 == a.0,
{
    let (x, y) = (a.0, b.0);
    assert((x | y) & x == x && (x | y) & y == y && (x | y) == (y | x) && (x & !y) & y == 0 && x
        & 0u8 == 0u8 && 0xFFu8 & x == x) by (bit_vector);
}

} // verus!
