//! Contraction: taking propositions out of a belief base.
use vstd::prelude::*;
use vstd::string::*;
use crate::belief_base::{arrow, BeliefBase};
use crate::entrenchment::{level_of, level_or_zero, EntrenchmentOrder};
use crate::propset::str_views;
use crate::text::{split_once, split_once_spec, str_eq, trim, trim_spec};

verus! {

/// The contraction `K − p`: the base without `p`.
pub open spec fn contraction(k: Set<Seq<char>>, p: Seq<char>) -> Set<Seq<char>> {
    k.remove(p)
}

/// The base without any of the propositions `ps`.
pub open spec fn multi_contraction(k: Set<Seq<char>>, ps: Seq<Seq<char>>) -> Set<Seq<char>> {
    k.difference(ps.to_set())
}

/// `belief` reads `X=>Y` with the trimmed `Y` equal to `target`.
pub open spec fn implies_spec(belief: Seq<char>, target: Seq<char>) -> bool {
    match split_once_spec(belief, arrow()) {
        Some((_, consequent)) => trim_spec(consequent) == target,
        None => false,
    }
}

/// `b` goes when contracting `p` by entrenchment: `b` is `p` itself, or `b`
/// implies `p` and has a level no higher than that of `p` (0 where `p` has none).
pub open spec fn removed_by_entrenchment(ranks: Seq<Set<Seq<char>>>, b: Seq<char>, p: Seq<char>) -> bool {
    ||| b == p
    ||| match level_of(ranks, b) {
        Some(l) => l <= level_or_zero(ranks, p) && implies_spec(b, p),
        None => false,
    }
}

/// The contraction of `p` by entrenchment.
pub open spec fn entrenchment_contraction(
    k: Set<Seq<char>>,
    ranks: Seq<Set<Seq<char>>>,
    p: Seq<char>,
) -> Set<Seq<char>> {
    Set::new(|b: Seq<char>| k.contains(b) && !removed_by_entrenchment(ranks, b, p))
}

/// Contraction: the base without `p`. The ordering plays no part in it.
pub fn contract(base: &BeliefBase, p: &str, _entrenchment: &EntrenchmentOrder) -> (r: BeliefBase)
    ensures
        r@ == contraction(base@, p@),
{
    let mut result = base.clone();
    if !result.contains(p) {
        assert(base@.remove(p@) =~= base@);
        return result;
    }
    result.remove(p);
    result
}

/// Contracts each of `props` in turn.
pub fn contract_multiple(base: &BeliefBase, props: &[&str], entrenchment: &EntrenchmentOrder) -> (r:
    BeliefBase)
    ensures
        r@ == multi_contraction(base@, str_views(props@)),
{
    let mut result = base.clone();
    let n = props.len();
    let mut j: usize = 0;
    assert(base@ =~= multi_contraction(base@, str_views(props@).take(0)));
    while j < n
        invariant
            n == props@.len(),
            j <= n,
            result@ == multi_contraction(base@, str_views(props@).take(j as int)),
        decreases n - j,
    {
        result = contract(&result, props[j], entrenchment);
        proof {
            let ps = str_views(props@);
            assert(ps.take(j + 1) =~= ps.take(j as int).push(ps[j as int]));
            ps.take(j as int).lemma_push_to_set_commute(ps[j as int]);
            assert(result@ =~= multi_contraction(base@, ps.take(j + 1)));
        }
        j = j + 1;
    }
    assert(str_views(props@).take(n as int) =~= str_views(props@));
    result
}

/// Contraction by entrenchment: removes `p` and every belief `X=>p` whose level
/// is no higher than that of `p`; implications that the ordering does not rank
/// stay.
pub fn contract_by_entrenchment(base: &BeliefBase, p: &str, entrenchment: &EntrenchmentOrder) -> (r:
    BeliefBase)
    ensures
        r@ == entrenchment_contraction(base@, entrenchment@, p@),
{
    let mut result = base.clone();
    let target = match entrenchment.level(p) {
        Some(l) => l,
        None => 0,
    };
    let bs = base.beliefs();
    let ghost ls = base.listing();
    let ghost ranks = entrenchment@;
    let n = bs.len();
    let mut j: usize = 0;
    assert(result@ =~= Set::new(
        |b: Seq<char>|
            base@.contains(b) && !(ls.take(0).contains(b) && removed_by_entrenchment(
                ranks,
                b,
                p@,
            )),
    ));
    while j < n
        invariant
            n == bs.len(),
            str_views(bs@) == ls,
            ls.to_set() == base@,
            ranks == entrenchment@,
            target == level_or_zero(ranks, p@),
            j <= n,
            result@ == Set::new(
                |b: Seq<char>|
                    base@.contains(b) && !(ls.take(j as int).contains(b)
                        && removed_by_entrenchment(ranks, b, p@)),
            ),
        decreases n - j,
    {
        let b = bs[j];
        assert(ls[j as int] == b@);
        assert(ls.take(j + 1) =~= ls.take(j as int).push(b@));
        let mut gone = false;
        let ghost before = result@;
        if str_eq(b, p) {
            result.remove(b);
            gone = true;
        } else if let Some(l) = entrenchment.level(b) {
            if l <= target && implies(b, p) {
                result.remove(b);
                gone = true;
            }
        }
        proof {
            assert(gone == removed_by_entrenchment(ranks, b@, p@));
            let t0 = ls.take(j as int);
            let t1 = ls.take(j + 1);
            assert forall|x: Seq<char>| t1.contains(x) <==> (t0.contains(x) || x == b@) by {
                if t1.contains(x) {
                    let k = choose|k: int| 0 <= k < t1.len() && t1[k] == x;
                    if k < j {
                        assert(t0[k] == x);
                    }
                }
                if t0.contains(x) {
                    let k = choose|k: int| 0 <= k < t0.len() && t0[k] == x;
                    assert(t1[k] == x);
                }
                if x == b@ {
                    assert(t1[j as int] == x);
                }
            }
            assert(result@ =~= Set::new(
                |x: Seq<char>|
                    base@.contains(x) && !(ls.take(j + 1).contains(x) && removed_by_entrenchment(
                        ranks,
                        x,
                        p@,
                    )),
            ));
        }
        j = j + 1;
    }
    proof {
        assert(ls.take(n as int) =~= ls);
        assert(result@ =~= entrenchment_contraction(base@, ranks, p@));
    }
    result
}

/// Whether `belief` reads `X=>Y` with the trimmed `Y` equal to `target`.
fn implies(belief: &str, target: &str) -> (r: bool)
    ensures
        r == implies_spec(belief@, target@),
{
    let arrow_str = "=>";
    proof {
        reveal_strlit("=>");
        assert(arrow_str@ =~= arrow());
    }
    match split_once(belief, arrow_str) {
        Some((_, consequent)) => str_eq(trim(consequent), target),
        None => false,
    }
}

} // verus!
