//! Expansion and revision: adding propositions to a belief base.
use vstd::prelude::*;
use vstd::string::*;
use crate::belief_base::{BeliefBase, Proposition};
use crate::contraction::{contract, contraction};
use crate::entrenchment::EntrenchmentOrder;
use crate::text::{negate, negation};

verus! {

/// The expansion `K + p`: the base with `p` added, with no check of consistency.
pub open spec fn expansion(k: Set<Seq<char>>, p: Seq<char>) -> Set<Seq<char>> {
    k.insert(p)
}

/// The revision `K * p`: the base without `¬p` and with `p`.
pub open spec fn revision(k: Set<Seq<char>>, p: Seq<char>) -> Set<Seq<char>> {
    k.remove(negation(p)).insert(p)
}

/// Revision by the Levi identity: contract `¬p`, then expand by `p`.
pub fn revise(base: &BeliefBase, p: &str, entrenchment: &EntrenchmentOrder) -> (r: BeliefBase)
    ensures
        r@ == revision(base@, p@),
        r@ == expansion(contraction(base@, negation(p@)), p@),
{
    let negated = negate(p);
    let contracted = contract(base, negated.as_str(), entrenchment);
    let mut expanded = contracted;
    expanded.add(p.to_owned());
    expanded
}

/// Expansion: the base with `p` added.
pub fn expand(base: &BeliefBase, p: Proposition) -> (r: BeliefBase)
    ensures
        r@ == expansion(base@, p@),
{
    let mut result = base.clone();
    result.add(p);
    result
}

/// Revision that takes `¬p` out first where the base holds it, then adds `p`.
pub fn revise_consistent(base: &BeliefBase, p: &str) -> (r: BeliefBase)
    ensures
        r@ == revision(base@, p@),
{
    let negated = negate(p);
    if base.contains(negated.as_str()) {
        let mut result = base.clone();
        result.remove(negated.as_str());
        result.add(p.to_owned());
        result
    } else {
        assert(base@.remove(negation(p@)) =~= base@);
        expand(base, p.to_owned())
    }
}

/// Whether adding `p` would meet `¬p` in the base.
pub fn would_create_inconsistency(base: &BeliefBase, p: &str) -> (r: bool)
    ensures
        r == base@.contains(negation(p@)),
{
    let negated = negate(p);
    base.contains(negated.as_str())
}

} // verus!
