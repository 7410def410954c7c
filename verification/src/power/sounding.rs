//! Probing every network of a layout.
use crate::number::Number;
use crate::power::network::{NetNetworks, PowerError};
use crate::power::probe::{effective_resistance_into, probed, ProbePlan};
use crate::power::probe::lemma_terminals;
use crate::power::probing::{
    is_between, is_in_a_part, lemma_every_pair_once, lemma_probe_is_determined, Inverses,
};
use crate::power::solve::first_where;
use crate::rules::electrical::probes_fit;
use vstd::prelude::*;

verus! {

/// What probing one row gives: its list, or nothing where it was refused.
pub open spec fn sounded(
    networks: &NetNetworks,
    row: int,
    found: Option<Vec<(u32, u32, Number)>>,
) -> bool {
    match first_where(networks.edge_len(row), networks.unusable_edge(row)) {
        Some(_) => found is None,
        None => exists|plan: ProbePlan, inverse: Inverses|
            #[trigger] plan.inverts(networks, row, inverse) && lists(&plan, inverse, found),
    }
}

/// What a plan and its inverses list, where every group has an inverse.
pub open spec fn lists(
    plan: &ProbePlan,
    inverse: Inverses,
    found: Option<Vec<(u32, u32, Number)>>,
) -> bool {
    match first_where(plan.group@.len() as int, plan.failed(inverse)) {
        Some(_) => found is None,
        None => found is Some && (found->0)@ == plan.probes_to(inverse, plan.terminal@.len()),
    }
}

/// Whether a list of probes is what probing each network gives.
pub open spec fn sounds(
    networks: &NetNetworks,
    probes: Seq<Option<Vec<(u32, u32, Number)>>>,
) -> bool {
    &&& probes_fit(networks, probes)
    &&& forall|k: int| 0 <= k < networks.rows() ==> sounded(networks, k, #[trigger] probes[k])
}

/// Two probings of one row agree.
pub proof fn lemma_sounded_once(
    networks: &NetNetworks,
    row: int,
    a: Option<Vec<(u32, u32, Number)>>,
    b: Option<Vec<(u32, u32, Number)>>,
)
    requires
        networks.wf(),
        0 <= row < networks.rows(),
        sounded(networks, row, a),
        sounded(networks, row, b),
    ensures
        a is Some <==> b is Some,
        a is Some ==> (a->0)@ == (b->0)@,
{
    match first_where(networks.edge_len(row), networks.unusable_edge(row)) {
        Some(_) => {},
        None => {
            let (p, x) = choose|plan: ProbePlan, inverse: Inverses|
                #[trigger] plan.inverts(networks, row, inverse) && lists(&plan, inverse, a);
            let (q, y) = choose|plan: ProbePlan, inverse: Inverses|
                #[trigger] plan.inverts(networks, row, inverse) && lists(&plan, inverse, b);
            let (r, out) = answer(&p, x);
            let (s, other) = answer(&q, y);
            lemma_terminals(networks, row);
            networks.lemma_few_nodes(row);
            lemma_probe_is_determined(networks, row, &p, x, &q, y, r, s, out, other);
        },
    }
}

/// What a plan and its inverses answer.
spec fn answer(plan: &ProbePlan, inverse: Inverses) -> (
    Result<(), PowerError>,
    Seq<(u32, u32, Number)>,
) {
    match first_where(plan.group@.len() as int, plan.failed(inverse)) {
        Some(k) => (
            Err(PowerError::NotFinite(plan.terminal@[plan.group@[k]@[0] as int])),
            Seq::empty(),
        ),
        None => (Ok(()), plan.probes_to(inverse, plan.terminal@.len())),
    }
}

/// The effective resistances of every network, and nothing for one that cannot
/// be probed.
pub fn probe_rows(networks: &NetNetworks) -> (r: Vec<Option<Vec<(u32, u32, Number)>>>)
    requires
        networks.wf(),
    ensures
        sounds(networks, r@),
{
    let rows: usize = networks.len();
    let mut r: Vec<Option<Vec<(u32, u32, Number)>>> = Vec::new();
    let mut row: usize = 0;
    while row < rows
        invariant
            row <= rows == networks.rows(),
            networks.wf(),
            r@.len() == row,
            forall|k: int| 0 <= k < row ==> sounded(networks, k, #[trigger] r@[k]),
            forall|x: int, k: int|
                0 <= x < row && r@[x] is Some && 0 <= k < (r@[x]->0)@.len() ==> (
                #[trigger] (r@[x]->0)@[k]).0 < networks.node_len(x) && ((r@[x]->0)@[k]).1
                    < networks.node_len(x),
        decreases rows - row,
    {
        let ghost at = row as int;
        let mut list: Vec<(u32, u32, Number)> = Vec::new();
        let ended = effective_resistance_into(networks, row as u32, &mut list);
        let ghost found = list@;
        let ghost before = r@;
        match ended {
            Ok(_) => {
                proof {
                    let (plan, inverse) = choose|plan: ProbePlan, inverse: Inverses|
                        #[trigger] plan.inverts(networks, at, inverse) && probed(
                            &plan,
                            inverse,
                            ended,
                            found,
                        );
                    assert(plan.inverts(networks, at, inverse) && lists(
                        &plan,
                        inverse,
                        Some(list),
                    ));
                    assert(sounded(networks, at, Some(list)));
                    lemma_every_pair_once(networks, at, &plan, inverse);
                    assert forall|k: int| 0 <= k < found.len() implies (#[trigger] found[k]).0
                        < networks.node_len(at) && found[k].1 < networks.node_len(at) by {
                        assert(is_in_a_part(networks, at, &plan, found, k));
                        let (i, j) = choose|i: int, j: int|
                            #[trigger] is_between(&plan, found, k, i, j) && networks.together(
                                at,
                                i,
                                j,
                            );
                        assert(networks.terminals(at)[i] < networks.node_len(at));
                        assert(networks.terminals(at)[j] < networks.node_len(at));
                    }
                }
                r.push(Some(list));
            },
            Err(_) => {
                proof {
                    let none: Option<Vec<(u32, u32, Number)>> = None;
                    match first_where(networks.edge_len(at), networks.unusable_edge(at)) {
                        Some(_) => {},
                        None => {
                            let (plan, inverse) = choose|plan: ProbePlan, inverse: Inverses|
                                #[trigger] plan.inverts(networks, at, inverse) && probed(
                                    &plan,
                                    inverse,
                                    ended,
                                    found,
                                );
                            assert(plan.inverts(networks, at, inverse) && lists(
                                &plan,
                                inverse,
                                none,
                            ));
                        },
                    }
                    assert(sounded(networks, at, none));
                }
                r.push(None);
            },
        }
        proof {
            assert forall|k: int| 0 <= k < row + 1 implies sounded(
                networks,
                k,
                #[trigger] r@[k],
            ) by {
                if k < row {
                    assert(r@[k] == before[k]);
                }
            }
            assert forall|x: int, k: int|
                0 <= x < row + 1 && r@[x] is Some && 0 <= k < (r@[x]->0)@.len() implies (
            #[trigger] (r@[x]->0)@[k]).0 < networks.node_len(x) && ((r@[x]->0)@[k]).1
                < networks.node_len(x) by {
                if x < row {
                    assert(r@[x] == before[x]);
                    assert((before[x]->0)@[k].0 < networks.node_len(x));
                } else {
                    assert(found[k].0 < networks.node_len(at));
                }
            }
        }
        row = row + 1;
    }
    r
}

} // verus!
