//! What a list of probes promises.
use crate::components::{lemma_symmetric, lemma_transitive};
use crate::design::lemma_kept;
use crate::intent::lemma_kept_ascends;
use crate::number::Number;
use crate::power::network::{climbs, NetNetworks, PowerError};
use crate::power::probe::{probed, ProbePlan};
use crate::power::solve::{first_where, is_first};
use vstd::prelude::*;

verus! {

pub type Inverses = Seq<Option<Vec<Vec<Number>>>>;

/// One pair of terminals before another.
pub open spec fn pair_before(a: (u32, u32, Number), b: (u32, u32, Number)) -> bool {
    a.0 < b.0 || (a.0 == b.0 && a.1 < b.1)
}

/// Probe `k` of a list is between terminals `i` and `j`.
pub open spec fn is_between(
    plan: &ProbePlan,
    list: Seq<(u32, u32, Number)>,
    k: int,
    i: int,
    j: int,
) -> bool {
    &&& 0 <= k < list.len()
    &&& 0 <= i < j < plan.terminal@.len()
    &&& list[k].0 == plan.terminal@[i]
    &&& list[k].1 == plan.terminal@[j]
}

/// Probe `k` of a list is between two terminals of one group, the lower of them
/// below `n`.
spec fn is_listed(plan: &ProbePlan, list: Seq<(u32, u32, Number)>, n: int, k: int) -> bool {
    exists|i: int, j: int|
        i < n && #[trigger] is_between(plan, list, k, i, j) && plan.group_of@[i]
            == plan.group_of@[j]
}

/// Probe `k` of a list is between two terminals of one part.
pub open spec fn is_in_a_part(
    networks: &NetNetworks,
    row: int,
    plan: &ProbePlan,
    list: Seq<(u32, u32, Number)>,
    k: int,
) -> bool {
    exists|i: int, j: int|
        #[trigger] is_between(plan, list, k, i, j) && networks.together(row, i, j)
}

/// The probes from one terminal.
proof fn lemma_from_terminal(plan: &ProbePlan, inverse: Inverses, i: int, n: nat)
    requires
        climbs(plan.terminal@),
        0 <= i < plan.terminal@.len(),
        n <= plan.terminal@.len(),
    ensures
        ({
            let list = plan.from_terminal(inverse, i, n);
            &&& forall|k: int|
                0 <= k < list.len() ==> (#[trigger] list[k]).0 == plan.terminal@[i]
                    && exists|j: int|
                    i < j < n && #[trigger] plan.group_of@[j] == plan.group_of@[i] && list[k].1
                        == plan.terminal@[j]
            &&& forall|k: int, l: int|
                0 <= k < l < list.len() ==> pair_before(#[trigger] list[k], #[trigger] list[l])
            &&& forall|j: int|
                i < j < n && (#[trigger] plan.group_of@[j]) == plan.group_of@[i]
                    ==> exists|k: int| #[trigger] is_between(plan, list, k, i, j)
        }),
    decreases n,
{
    if n > 0 && n > i + 1 {
        let m = (n - 1) as nat;
        lemma_from_terminal(plan, inverse, i, m);
        let before = plan.from_terminal(inverse, i, m);
        let list = plan.from_terminal(inverse, i, n);
        assert forall|k: int| 0 <= k < list.len() implies (#[trigger] list[k]).0
            == plan.terminal@[i] && exists|j: int|
            i < j < n && #[trigger] plan.group_of@[j] == plan.group_of@[i] && list[k].1
                == plan.terminal@[j] by {
            if k < before.len() {
                assert(list[k] == before[k]);
                let j = choose|j: int|
                    i < j < m && #[trigger] plan.group_of@[j] == plan.group_of@[i] && before[k].1
                        == plan.terminal@[j];
                assert(plan.group_of@[j] == plan.group_of@[i]);
            } else {
                assert(plan.group_of@[n - 1] == plan.group_of@[i]);
            }
        }
        assert forall|k: int, l: int| 0 <= k < l < list.len() implies pair_before(
            #[trigger] list[k],
            #[trigger] list[l],
        ) by {
            if l < before.len() {
                assert(pair_before(before[k], before[l]));
            } else {
                assert(list[k] == before[k]);
                let j = choose|j: int|
                    i < j < m && #[trigger] plan.group_of@[j] == plan.group_of@[i] && before[k].1
                        == plan.terminal@[j];
                assert(plan.terminal@[j] < plan.terminal@[n - 1]);
            }
        }
        assert forall|j: int|
            i < j < n && (#[trigger] plan.group_of@[j]) == plan.group_of@[i] implies exists|k: int|
            #[trigger] is_between(plan, list, k, i, j) by {
            if j < m {
                let k = choose|k: int| #[trigger] is_between(plan, before, k, i, j);
                assert(is_between(plan, list, k, i, j));
            } else {
                assert(is_between(plan, list, before.len() as int, i, j));
            }
        }
    }
}

/// The probes from the first `n` terminals.
proof fn lemma_probes_to(plan: &ProbePlan, inverse: Inverses, n: nat)
    requires
        climbs(plan.terminal@),
        n <= plan.terminal@.len(),
    ensures
        ({
            let list = plan.probes_to(inverse, n);
            &&& forall|k: int| 0 <= k < list.len() ==> #[trigger] is_listed(plan, list, n as int, k)
            &&& forall|k: int, l: int|
                0 <= k < l < list.len() ==> pair_before(#[trigger] list[k], #[trigger] list[l])
            &&& forall|i: int, j: int|
                0 <= i < n && i < j < plan.terminal@.len() && (#[trigger] plan.group_of@[i]) == (
                #[trigger] plan.group_of@[j]) ==> exists|k: int|
                    #[trigger] is_between(plan, list, k, i, j)
        }),
    decreases n,
{
    if n > 0 {
        let m = (n - 1) as nat;
        let last = n - 1;
        lemma_probes_to(plan, inverse, m);
        lemma_from_terminal(plan, inverse, last, plan.terminal@.len());
        let before = plan.probes_to(inverse, m);
        let more = plan.from_terminal(inverse, last, plan.terminal@.len());
        let list = plan.probes_to(inverse, n);
        assert(list == before + more);
        assert forall|k: int| 0 <= k < list.len() implies #[trigger] is_listed(
            plan,
            list,
            n as int,
            k,
        ) by {
            if k < before.len() {
                assert(is_listed(plan, before, m as int, k));
                let (i, j) = choose|i: int, j: int|
                    i < m && #[trigger] is_between(plan, before, k, i, j) && plan.group_of@[i]
                        == plan.group_of@[j];
                assert(is_between(plan, list, k, i, j));
            } else {
                let at = k - before.len();
                assert(list[k] == more[at]);
                let j = choose|j: int|
                    last < j < plan.terminal@.len() && #[trigger] plan.group_of@[j]
                        == plan.group_of@[last] && more[at].1 == plan.terminal@[j];
                assert(is_between(plan, list, k, last, j));
            }
        }
        assert forall|k: int, l: int| 0 <= k < l < list.len() implies pair_before(
            #[trigger] list[k],
            #[trigger] list[l],
        ) by {
            if l < before.len() {
                assert(pair_before(before[k], before[l]));
            } else if k >= before.len() {
                assert(pair_before(more[k - before.len()], more[l - before.len()]));
            } else {
                assert(is_listed(plan, before, m as int, k));
                let (i, j) = choose|i: int, j: int|
                    i < m && #[trigger] is_between(plan, before, k, i, j) && plan.group_of@[i]
                        == plan.group_of@[j];
                assert(plan.terminal@[i] < plan.terminal@[last]);
                assert(more[l - before.len()].0 == plan.terminal@[last]);
            }
        }
        assert forall|i: int, j: int|
            0 <= i < n && i < j < plan.terminal@.len() && (#[trigger] plan.group_of@[i]) == (
            #[trigger] plan.group_of@[j]) implies exists|k: int|
            #[trigger] is_between(plan, list, k, i, j) by {
            if i < m {
                let k = choose|k: int| #[trigger] is_between(plan, before, k, i, j);
                assert(is_between(plan, list, k, i, j));
            } else {
                let k = choose|k: int| #[trigger] is_between(plan, more, k, i, j);
                assert(list[before.len() + k] == more[k]);
                assert(is_between(plan, list, before.len() + k, i, j));
            }
        }
    }
}

/// Every pair of terminals of one part appears exactly once, the lower terminal
/// first and the pairs ascending; a pair split across parts is absent.
pub proof fn lemma_every_pair_once(
    networks: &NetNetworks,
    row: int,
    plan: &ProbePlan,
    inverse: Inverses,
)
    requires
        networks.wf(),
        0 <= row < networks.rows(),
        plan.plans(networks, row),
    ensures
        ({
            let list = plan.probes_to(inverse, plan.terminal@.len());
            &&& forall|k: int|
                0 <= k < list.len() ==> #[trigger] is_in_a_part(networks, row, plan, list, k)
            &&& forall|k: int, l: int|
                0 <= k < l < list.len() ==> pair_before(#[trigger] list[k], #[trigger] list[l])
            &&& forall|i: int, j: int|
                0 <= i < j < plan.terminal@.len() && #[trigger] networks.together(row, i, j)
                    ==> exists|k: int| #[trigger] is_between(plan, list, k, i, j)
        }),
{
    lemma_probes_to(plan, inverse, plan.terminal@.len());
    let list = plan.probes_to(inverse, plan.terminal@.len());
    assert forall|k: int| 0 <= k < list.len() implies #[trigger] is_in_a_part(
        networks,
        row,
        plan,
        list,
        k,
    ) by {
        assert(is_listed(plan, list, plan.terminal@.len() as int, k));
        let (i, j) = choose|i: int, j: int|
            i < plan.terminal@.len() && #[trigger] is_between(plan, list, k, i, j)
                && plan.group_of@[i] == plan.group_of@[j];
        assert(networks.together(row, i, j));
    }
    assert forall|i: int, j: int|
        0 <= i < j < plan.terminal@.len() && #[trigger] networks.together(row, i, j) implies exists|
        k: int,
    |
        #[trigger] is_between(plan, list, k, i, j) by {
        assert(plan.group_of@[i] == plan.group_of@[j]);
    }
}

/// Two plans of one row put every terminal at the same place.
proof fn lemma_same_place(networks: &NetNetworks, row: int, a: &ProbePlan, b: &ProbePlan, i: int)
    requires
        networks.wf(),
        0 <= row < networks.rows(),
        networks.terminals(row).len() < 0xFFFF_FFFF,
        a.plans(networks, row),
        b.plans(networks, row),
        0 <= i < networks.terminals(row).len(),
    ensures
        a.group_of@[i] == b.group_of@[i],
        a.place@[i] == b.place@[i],
{
    let pairs = networks.pairs(row);
    let t = networks.terminals(row);
    let leaders = networks.leaders(row);
    assert(a.placed(i));
    assert(b.placed(i));
    let (k, l) = (a.group_of@[i] as int, b.group_of@[i] as int);
    lemma_kept(t.len(), networks.leads(row));
    lemma_kept_ascends(t.len(), networks.leads(row));
    let (x, y) = (leaders[k] as int, leaders[l] as int);
    lemma_kept(t.len(), |j: int| networks.together(row, x, j));
    lemma_kept(t.len(), |j: int| networks.together(row, y, j));
    assert(a.group@[k]@ == networks.part(row, x));
    assert(b.group@[l]@ == networks.part(row, y));
    assert(networks.together(row, x, i));
    assert(networks.together(row, y, i));
    lemma_symmetric(pairs, t[y] as int, t[i] as int);
    lemma_transitive(pairs, t[x] as int, t[i] as int, t[y] as int);
    lemma_symmetric(pairs, t[x] as int, t[y] as int);
    assert((networks.leads(row))(x) && (networks.leads(row))(y));
    if x < y {
        assert(networks.together(row, x, y));
    } else if y < x {
        assert(networks.together(row, y, x));
    }
    if k < l {
        assert(leaders[k] < leaders[l]);
    } else if l < k {
        assert(leaders[l] < leaders[k]);
    }
    lemma_kept_ascends(t.len(), |j: int| networks.together(row, x, j));
    let g = a.group@[k]@;
    let (p, q) = (a.place@[i] as int, b.place@[i] as int);
    assert(g == b.group@[k]@);
    assert(g[p] == i && g[q] == i);
    if p < q {
        assert(g[p] < g[q]);
    } else if q < p {
        assert(g[q] < g[p]);
    }
}

proof fn lemma_same_row(
    a: &ProbePlan,
    x: Inverses,
    b: &ProbePlan,
    y: Inverses,
    networks: &NetNetworks,
    row: int,
    i: int,
    n: nat,
)
    requires
        networks.wf(),
        0 <= row < networks.rows(),
        networks.terminals(row).len() < 0xFFFF_FFFF,
        a.inverts(networks, row, x),
        b.inverts(networks, row, y),
        0 <= i < networks.terminals(row).len(),
        n <= networks.terminals(row).len(),
        first_where(a.group@.len() as int, a.failed(x)) is None,
        first_where(b.group@.len() as int, b.failed(y)) is None,
        forall|k: int| 0 <= k < a.group@.len() ==> (#[trigger] x[k] is Some <==> y[k] is Some),
        forall|k: int|
            0 <= k < a.group@.len() && (#[trigger] x[k]) is Some
                ==> crate::power::cholesky::rows_of((x[k]->0)@)
                == crate::power::cholesky::rows_of((y[k]->0)@),
        forall|k: int|
            0 <= k < a.group@.len() && (#[trigger] a.group@[k])@.len() > 1 ==> x[k] is Some,
    ensures
        a.from_terminal(x, i, n) == b.from_terminal(y, i, n),
    decreases n,
{
    if n > 0 && n > i + 1 {
        lemma_same_row(a, x, b, y, networks, row, i, (n - 1) as nat);
        lemma_same_place(networks, row, a, b, i);
        lemma_same_place(networks, row, a, b, n - 1);
        if a.group_of@[n - 1] == a.group_of@[i] {
            let k = a.group_of@[i] as int;
            assert(a.placed(i));
            assert(a.placed(n - 1));
            assert(a.group@[k]@.len() > 1);
            assert(x[k] is Some);
        }
    }
}

/// Probing one row twice gives the same probes, or the same refusal.
pub proof fn lemma_probe_is_determined(
    networks: &NetNetworks,
    row: int,
    a: &ProbePlan,
    x: Inverses,
    b: &ProbePlan,
    y: Inverses,
    r: Result<(), PowerError>,
    s: Result<(), PowerError>,
    out: Seq<(u32, u32, Number)>,
    other: Seq<(u32, u32, Number)>,
)
    requires
        networks.wf(),
        0 <= row < networks.rows(),
        networks.terminals(row).len() < 0xFFFF_FFFF,
        a.inverts(networks, row, x),
        b.inverts(networks, row, y),
        probed(a, x, r, out),
        probed(b, y, s, other),
    ensures
        out == other,
        r is Ok <==> s is Ok,
        r is Err ==> r->Err_0 == s->Err_0,
{
    let groups = a.group@.len() as int;
    assert forall|k: int| 0 <= k < groups implies (a.group@[k]@ == b.group@[k]@ && (
    #[trigger] x[k] is Some <==> y[k] is Some) && (x[k] is Some
        ==> crate::power::cholesky::rows_of((x[k]->0)@) == crate::power::cholesky::rows_of(
        (y[k]->0)@,
    ))) by {
        assert(a.inverted(networks, row, x, k));
        assert(b.inverted(networks, row, y, k));
        assert(a.group@[k]@ == networks.part(row, networks.leaders(row)[k] as int));
        assert(b.group@[k]@ == networks.part(row, networks.leaders(row)[k] as int));
    }
    assert forall|j: int| 0 <= j < groups implies (#[trigger] (a.failed(x))(j)) == (b.failed(
        y,
    ))(j) by {
        assert(x[j] is Some <==> y[j] is Some);
    }
    assert forall|k: int| is_first(groups, a.failed(x), k) <==> is_first(
        groups,
        b.failed(y),
        k,
    ) by {
        lemma_same_first(groups, a.failed(x), b.failed(y), k);
    }
    match first_where(groups, a.failed(x)) {
        Some(_) => {
            let k = choose|k: int| is_first(groups, a.failed(x), k);
            let l = choose|l: int| is_first(groups, b.failed(y), l);
            assert(is_first(groups, a.failed(x), k));
            assert(is_first(groups, b.failed(y), l));
            assert(is_first(groups, a.failed(x), l));
            assert(k == l);
            assert(x[k] is Some <==> y[k] is Some);
        },
        None => {
            assert forall|k: int| !is_first(groups, b.failed(y), k) by {
                assert(!is_first(groups, a.failed(x), k));
            }
            assert forall|k: int|
                0 <= k < groups && (#[trigger] a.group@[k])@.len() > 1 implies x[k] is Some by {
                lemma_no_first(groups, a.failed(x), k);
            }
            lemma_same_list(a, x, b, y, networks, row, a.terminal@.len());
        },
    }
}

/// Predicates that agree have the same first.
proof fn lemma_same_first(n: int, f: spec_fn(int) -> bool, g: spec_fn(int) -> bool, k: int)
    requires
        forall|j: int| 0 <= j < n ==> (#[trigger] f(j)) == g(j),
    ensures
        is_first(n, f, k) <==> is_first(n, g, k),
{
    if is_first(n, f, k) {
        assert(f(k));
        assert forall|j: int| 0 <= j < k implies !(#[trigger] g(j)) by {
            assert(!f(j));
        }
    }
    if is_first(n, g, k) {
        assert(f(k) == g(k));
        assert forall|j: int| 0 <= j < k implies !(#[trigger] f(j)) by {
            assert(!g(j));
        }
    }
}

/// Where nothing comes first, nothing is picked.
proof fn lemma_no_first(n: int, bad: spec_fn(int) -> bool, k: int)
    requires
        first_where(n, bad) is None,
        0 <= k < n,
    ensures
        !bad(k),
    decreases k,
{
    if bad(k) {
        assert forall|j: int| 0 <= j < k implies !(#[trigger] bad(j)) by {
            lemma_no_first(n, bad, j);
        }
        assert(is_first(n, bad, k));
    }
}

proof fn lemma_same_list(
    a: &ProbePlan,
    x: Inverses,
    b: &ProbePlan,
    y: Inverses,
    networks: &NetNetworks,
    row: int,
    n: nat,
)
    requires
        networks.wf(),
        0 <= row < networks.rows(),
        networks.terminals(row).len() < 0xFFFF_FFFF,
        a.inverts(networks, row, x),
        b.inverts(networks, row, y),
        n <= networks.terminals(row).len(),
        first_where(a.group@.len() as int, a.failed(x)) is None,
        first_where(b.group@.len() as int, b.failed(y)) is None,
        forall|k: int| 0 <= k < a.group@.len() ==> (#[trigger] x[k] is Some <==> y[k] is Some),
        forall|k: int|
            0 <= k < a.group@.len() && (#[trigger] x[k]) is Some
                ==> crate::power::cholesky::rows_of((x[k]->0)@)
                == crate::power::cholesky::rows_of((y[k]->0)@),
        forall|k: int|
            0 <= k < a.group@.len() && (#[trigger] a.group@[k])@.len() > 1 ==> x[k] is Some,
    ensures
        a.probes_to(x, n) == b.probes_to(y, n),
    decreases n,
{
    if n > 0 {
        lemma_same_list(a, x, b, y, networks, row, (n - 1) as nat);
        lemma_same_row(a, x, b, y, networks, row, n - 1, networks.terminals(row).len());
    }
}

} // verus!
