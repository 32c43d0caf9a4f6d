//! The recovery postulate and the check of the basic AGM postulates.
use vstd::prelude::*;
use vstd::string::*;
use crate::belief_base::BeliefBase;
use crate::contraction::{contract, contraction};
use crate::entrenchment::EntrenchmentOrder;
use crate::propset::{is_listing, prop_lt, str_views, string_views, strictly_sorted};

verus! {

/// The propositions of `ls` that `original` lacks, in the order of `ls`.
pub open spec fn fresh_beliefs(ls: Seq<Seq<char>>, original: Set<Seq<char>>) -> Seq<Seq<char>>
    decreases ls.len(),
{
    if ls.len() == 0 {
        Seq::empty()
    } else {
        let rest = fresh_beliefs(ls.drop_last(), original);
        if original.contains(ls.last()) {
            rest
        } else {
            rest.push(ls.last())
        }
    }
}

/// The fresh beliefs of an increasing listing are exactly its elements that
/// `original` lacks, again in increasing order.
pub proof fn law_fresh_beliefs(ls: Seq<Seq<char>>, original: Set<Seq<char>>)
    requires
        strictly_sorted(ls),
    ensures
        forall|x: Seq<char>|
            #[trigger] fresh_beliefs(ls, original).contains(x) <==> (ls.contains(x)
                && !original.contains(x)),
        strictly_sorted(fresh_beliefs(ls, original)),
    decreases ls.len(),
{
    if ls.len() > 0 {
        let init = ls.drop_last();
        let last = ls.last();
        assert forall|i: int, j: int| 0 <= i < j < init.len() implies prop_lt(
            #[trigger] init[i],
            #[trigger] init[j],
        ) by {
            assert(prop_lt(ls[i], ls[j]));
        }
        law_fresh_beliefs(init, original);
        let rest = fresh_beliefs(init, original);
        assert forall|x: Seq<char>| ls.contains(x) <==> (init.contains(x) || x == last) by {
            if ls.contains(x) {
                let k = choose|k: int| 0 <= k < ls.len() && ls[k] == x;
                if k < ls.len() - 1 {
                    assert(init[k] == x);
                }
            }
            if init.contains(x) {
                let k = choose|k: int| 0 <= k < init.len() && init[k] == x;
                assert(ls[k] == x);
            }
            if x == last {
                assert(ls[ls.len() - 1] == x);
            }
        }
        if !original.contains(last) {
            let r = rest.push(last);
            assert forall|x: Seq<char>| r.contains(x) <==> (rest.contains(x) || x == last) by {
                if r.contains(x) {
                    let k = choose|k: int| 0 <= k < r.len() && r[k] == x;
                    if k < rest.len() {
                        assert(rest[k] == x);
                    }
                }
                if rest.contains(x) {
                    let k = choose|k: int| 0 <= k < rest.len() && rest[k] == x;
                    assert(r[k] == x);
                }
                if x == last {
                    assert(r[rest.len() as int] == x);
                }
            }
            assert forall|i: int, j: int| 0 <= i < j < r.len() implies prop_lt(
                #[trigger] r[i],
                #[trigger] r[j],
            ) by {
                if j < rest.len() {
                    assert(r[i] == rest[i] && r[j] == rest[j]);
                } else {
                    assert(r[i] == rest[i]);
                    assert(rest.contains(rest[i]));
                    let k = choose|k: int| 0 <= k < init.len() && init[k] == rest[i];
                    assert(prop_lt(ls[k], ls[ls.len() - 1]));
                }
            }
        }
    }
}

/// The outcome of a recovery check.
#[derive(Debug)]
pub struct RecoveryResult {
    pub original_subset_of_recovered: bool,
    pub recovered: BeliefBase,
    pub new_beliefs: Vec<String>,
}

/// The outcome of checking the basic AGM postulates for a contraction.
#[derive(Debug)]
pub struct AgmVerification {
    pub closure: bool,
    pub inclusion: bool,
    pub vacuity: bool,
    pub success: bool,
    pub recovery_holds: bool,
    pub contracted: BeliefBase,
}

impl AgmVerification {
    /// Whether every basic postulate holds.
    pub fn all_satisfied(&self) -> (r: bool)
        ensures
            r == (self.closure && self.inclusion && self.vacuity && self.success
                && self.recovery_holds),
    {
        self.closure && self.inclusion && self.vacuity && self.success && self.recovery_holds
    }
}

/// Recovery: `K ⊆ (K − p) + p`. Expands `contracted` by `p` and tells whether
/// `original` is part of the result, and which beliefs of the result are new.
pub fn check_recovery(original: &BeliefBase, contracted: &BeliefBase, p: &str) -> (r: RecoveryResult)
    ensures
        r.recovered@ == contracted@.insert(p@),
        r.original_subset_of_recovered == original@.subset_of(r.recovered@),
        string_views(r.new_beliefs@) == fresh_beliefs(r.recovered.listing(), original@),
        is_listing(r.recovered.listing(), r.recovered@),
        forall|x: Seq<char>|
            #[trigger] string_views(r.new_beliefs@).contains(x) <==> (r.recovered@.contains(x)
                && !original@.contains(x)),
        strictly_sorted(string_views(r.new_beliefs@)),
{
    let mut recovered = contracted.clone();
    recovered.add(p.to_owned());
    let original_subset = original.is_subset_of(&recovered);
    let bs = recovered.beliefs();
    let ghost ls = recovered.listing();
    let mut new_beliefs: Vec<String> = Vec::new();
    let n = bs.len();
    let mut j: usize = 0;
    while j < n
        invariant
            n == bs.len(),
            str_views(bs@) == ls,
            j <= n,
            string_views(new_beliefs@) == fresh_beliefs(ls.take(j as int), original@),
        decreases n - j,
    {
        let b = bs[j];
        assert(ls[j as int] == b@);
        assert(ls.take(j + 1).drop_last() =~= ls.take(j as int));
        if !original.contains(b) {
            let ghost before = new_beliefs@;
            let s = b.to_owned();
            new_beliefs.push(s);
            assert(string_views(new_beliefs@) =~= string_views(before).push(s@));
        }
        j = j + 1;
    }
    assert(ls.take(n as int) =~= ls);
    proof {
        law_fresh_beliefs(ls, original@);
    }
    RecoveryResult { original_subset_of_recovered: original_subset, recovered, new_beliefs }
}

/// Contracts `p` from `original` and checks the basic AGM postulates on it:
/// closure, inclusion (`K − p ⊆ K`), vacuity (`p ∉ K` gives `K − p = K`),
/// success (`p ∉ K − p`) and recovery (`K ⊆ (K − p) + p`).
pub fn verify_agm_postulates(original: &BeliefBase, p: &str, entrenchment: &EntrenchmentOrder) -> (r:
    AgmVerification)
    ensures
        r.contracted@ == contraction(original@, p@),
        r.closure,
        r.inclusion == r.contracted@.subset_of(original@),
        r.vacuity == (!original@.contains(p@) ==> r.contracted@ == original@),
        r.success == !r.contracted@.contains(p@),
        r.recovery_holds == original@.subset_of(r.contracted@.insert(p@)),
        r.inclusion && r.vacuity && r.success && r.recovery_holds,
{
    let contracted = contract(original, p, entrenchment);
    let closure = true;
    let inclusion = contracted.is_subset_of(original);
    let vacuity = if !original.contains(p) {
        let same = contracted.is_subset_of(original) && original.is_subset_of(&contracted);
        proof {
            if contracted@.subset_of(original@) && original@.subset_of(contracted@) {
                assert(contracted@ =~= original@);
            }
        }
        same
    } else {
        true
    };
    let success = !contracted.contains(p);
    let recovery = check_recovery(original, &contracted, p);
    proof {
        assert(!original@.contains(p@) ==> contracted@ =~= original@);
    }
    AgmVerification {
        closure,
        inclusion,
        vacuity,
        success,
        recovery_holds: recovery.original_subset_of_recovered,
        contracted,
    }
}

} // verus!
