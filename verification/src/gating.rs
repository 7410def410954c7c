//! Which rules a run may skip.
use crate::report::RowResult;
use crate::ruleset::{Probed, RuleSet};
use vstd::prelude::*;

verus! {

/// Whether no row was skipped.
pub open spec fn never_skips(results: Seq<RowResult>) -> bool {
    forall|r: int| 0 <= r < results.len() ==> !((#[trigger] results[r]).outcome is Skipped)
}

impl RuleSet {
    /// The topology, supply and geometry rules and point-to-point resistance need no
    /// design intent: they are never skipped.
    pub proof fn lemma_ungated_rules_never_skip(&self, i: Probed)
        ensures
            forall|k: int|
                0 <= k < 4 ==> never_skips((#[trigger] self.topology_parts(i)[k]).results),
            forall|k: int|
                0 <= k < 5 ==> never_skips((#[trigger] self.supply_parts(i)[k]).results),
            forall|k: int|
                0 <= k < 3 ==> never_skips((#[trigger] self.geometry_parts(i)[k]).results),
            never_skips(self.electrical_parts(i)[0].results),
    {
        let a = self.topology_parts(i);
        assert(never_skips(a[0].results));
        assert(never_skips(a[1].results));
        assert(never_skips(a[2].results));
        assert(never_skips(a[3].results));
        let b = self.supply_parts(i);
        assert(never_skips(b[0].results));
        assert(never_skips(b[1].results));
        assert(never_skips(b[2].results));
        assert(never_skips(b[3].results));
        assert(never_skips(b[4].results));
        let c = self.geometry_parts(i);
        assert(never_skips(c[0].results));
        assert(never_skips(c[1].results));
        assert(never_skips(c[2].results));
    }

    /// A rule that has the intent it needs, and the solved grid it needs, is not
    /// skipped.
    pub proof fn lemma_answered_rules_never_skip(&self, i: Probed)
        requires
            i.inputs.intent.usable(),
        ensures
            never_skips(self.reliability_parts(i)[1].results),
            never_skips(self.reliability_parts(i)[2].results),
            i.inputs.power is Some ==> never_skips(self.reliability_parts(i)[0].results),
            i.inputs.power is Some ==> forall|k: int|
                1 <= k < 4 ==> never_skips((#[trigger] self.electrical_parts(i)[k]).results),
    {
        let e = self.electrical_parts(i);
        if i.inputs.power is Some {
            assert(never_skips(e[1].results));
            assert(never_skips(e[2].results));
            assert(never_skips(e[3].results));
        }
    }
}

} // verus!
