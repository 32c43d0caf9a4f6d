//! Laws of the library: the AGM postulates for contraction and revision, and
//! properties of entrenchment orderings.
use vstd::prelude::*;
use crate::contraction::{
    contraction, entrenchment_contraction, multi_contraction, removed_by_entrenchment,
};
use crate::belief_base::missing_consequents;
use crate::entrenchment::{entrenched_at_least, level_of, level_or_zero, lemma_level_of};
use crate::revision::{expansion, revision};
use crate::text::{negation, split_once_spec, trim_spec};

verus! {

/// Inclusion: `K − p ⊆ K`.
pub proof fn law_contraction_inclusion(k: Set<Seq<char>>, p: Seq<char>)
    ensures
        contraction(k, p).subset_of(k),
{
}

/// Vacuity: if `p ∉ K` then `K − p = K`.
pub proof fn law_contraction_vacuity(k: Set<Seq<char>>, p: Seq<char>)
    requires
        !k.contains(p),
    ensures
        contraction(k, p) == k,
{
    assert(contraction(k, p) =~= k);
}

/// Success: `p ∉ K − p`.
pub proof fn law_contraction_success(k: Set<Seq<char>>, p: Seq<char>)
    ensures
        !contraction(k, p).contains(p),
{
}

/// Recovery: `K ⊆ (K − p) + p`; where `p ∈ K`, expanding gives `K` back exactly.
pub proof fn law_contraction_recovery(k: Set<Seq<char>>, p: Seq<char>)
    ensures
        k.subset_of(expansion(contraction(k, p), p)),
        k.contains(p) ==> expansion(contraction(k, p), p) == k,
{
    if k.contains(p) {
        assert(expansion(contraction(k, p), p) =~= k);
    }
}

/// Adding a proposition that was absent and removing it again gives the base
/// back; removing one that was present and adding it again does too.
pub proof fn law_add_remove_roundtrip(k: Set<Seq<char>>, p: Seq<char>)
    ensures
        !k.contains(p) ==> k.insert(p).remove(p) == k,
        k.contains(p) ==> k.remove(p).insert(p) == k,
{
    if !k.contains(p) {
        assert(k.insert(p).remove(p) =~= k);
    } else {
        assert(k.remove(p).insert(p) =~= k);
    }
}

/// Contracting twice by the same proposition is contracting once.
pub proof fn law_contraction_idempotent(k: Set<Seq<char>>, p: Seq<char>)
    ensures
        contraction(contraction(k, p), p) == contraction(k, p),
{
    assert(contraction(contraction(k, p), p) =~= contraction(k, p));
}

/// Contracting a list of propositions removes exactly those; a list of one is
/// a single contraction.
pub proof fn law_multi_contraction(k: Set<Seq<char>>, ps: Seq<Seq<char>>, p: Seq<char>)
    ensures
        forall|x: Seq<char>|
            #[trigger] multi_contraction(k, ps).contains(x) <==> (k.contains(x) && !ps.contains(
                x,
            )),
        multi_contraction(k, seq![p]) == contraction(k, p),
{
    let one = seq![p];
    assert(one[0] == p);
    assert(one.contains(p));
    assert forall|x: Seq<char>| one.contains(x) implies x == p by {
        let i = choose|i: int| 0 <= i < one.len() && one[i] == x;
    }
    assert(multi_contraction(k, one) =~= contraction(k, p));
}

/// The Levi identity: `K * p = (K − ¬p) + p`.
pub proof fn law_levi_identity(k: Set<Seq<char>>, p: Seq<char>)
    ensures
        revision(k, p) == expansion(contraction(k, negation(p)), p),
{
}

/// Revision success: `p ∈ K * p`.
pub proof fn law_revision_success(k: Set<Seq<char>>, p: Seq<char>)
    ensures
        revision(k, p).contains(p),
{
}

/// Revision consistency: `¬p ∉ K * p`.
pub proof fn law_revision_consistency(k: Set<Seq<char>>, p: Seq<char>)
    ensures
        !revision(k, p).contains(negation(p)),
{
    assert(negation(p).len() == p.len() + 1);
}

/// Revision inclusion: `K * p ⊆ K + p`.
pub proof fn law_revision_inclusion(k: Set<Seq<char>>, p: Seq<char>)
    ensures
        revision(k, p).subset_of(expansion(k, p)),
{
}

/// Revision keeps every belief other than `¬p`.
pub proof fn law_revision_preserves_unrelated(k: Set<Seq<char>>, p: Seq<char>, q: Seq<char>)
    requires
        k.contains(q),
        q != negation(p),
    ensures
        revision(k, p).contains(q),
{
}

/// Vacuity of revision: if `¬p ∉ K` then `K * p = K + p`.
pub proof fn law_revision_vacuity(k: Set<Seq<char>>, p: Seq<char>)
    requires
        !k.contains(negation(p)),
    ensures
        revision(k, p) == expansion(k, p),
{
    assert(revision(k, p) =~= expansion(k, p));
}

/// Expansion adds `p` and keeps all of `K`.
pub proof fn law_expansion(k: Set<Seq<char>>, p: Seq<char>)
    ensures
        expansion(k, p).contains(p),
        k.subset_of(expansion(k, p)),
        expansion(k, p).remove(p).subset_of(k),
{
}

/// Contraction by entrenchment keeps only beliefs of the base.
pub proof fn law_entrenchment_contraction_inclusion(
    k: Set<Seq<char>>,
    ranks: Seq<Set<Seq<char>>>,
    p: Seq<char>,
)
    ensures
        entrenchment_contraction(k, ranks, p).subset_of(k),
{
}

/// Success for contraction by entrenchment: `p` is not in the result.
pub proof fn law_entrenchment_contraction_success(
    k: Set<Seq<char>>,
    ranks: Seq<Set<Seq<char>>>,
    p: Seq<char>,
)
    ensures
        !entrenchment_contraction(k, ranks, p).contains(p),
{
    assert(removed_by_entrenchment(ranks, p, p));
}

/// Contraction by entrenchment keeps every belief other than `p` that the
/// ordering does not rank.
pub proof fn law_entrenchment_contraction_keeps_unranked(
    k: Set<Seq<char>>,
    ranks: Seq<Set<Seq<char>>>,
    p: Seq<char>,
    b: Seq<char>,
)
    requires
        k.contains(b),
        b != p,
        level_of(ranks, b) is None,
    ensures
        entrenchment_contraction(k, ranks, p).contains(b),
{
}

/// "At least as entrenched as" is a total preorder.
pub proof fn law_entrenchment_total_preorder(
    ranks: Seq<Set<Seq<char>>>,
    p: Seq<char>,
    q: Seq<char>,
    s: Seq<char>,
)
    ensures
        entrenched_at_least(ranks, p, p),
        entrenched_at_least(ranks, p, q) || entrenched_at_least(ranks, q, p),
        entrenched_at_least(ranks, p, q) && entrenched_at_least(ranks, q, s) ==> entrenched_at_least(
            ranks,
            p,
            s,
        ),
{
}

/// A level added on top leaves every ranked proposition where it was, and
/// ranks the new ones at the new level.
pub proof fn law_add_rank_level(ranks: Seq<Set<Seq<char>>>, s: Set<Seq<char>>, p: Seq<char>)
    ensures
        level_of(ranks, p) is Some ==> level_of(ranks.push(s), p) == level_of(ranks, p),
        level_of(ranks, p) is None && s.contains(p) ==> level_of(ranks.push(s), p) == Some(
            ranks.len() as int,
        ),
        level_of(ranks, p) is None && !s.contains(p) ==> level_of(ranks.push(s), p) is None,
{
    let nr = ranks.push(s);
    lemma_level_of(ranks, p);
    lemma_level_of(nr, p);
    match level_of(nr, p) {
        Some(l) => {
            if l < ranks.len() {
                assert(nr[l] == ranks[l]);
                assert(ranks[l].contains(p));
                match level_of(ranks, p) {
                    Some(m) => {
                        assert(nr[m] == ranks[m]);
                        if m < l {
                            assert(!nr[m].contains(p));
                        }
                        if l < m {
                            assert(!ranks[l].contains(p));
                        }
                    },
                    None => {},
                }
            } else {
                assert(nr[l] == s);
                match level_of(ranks, p) {
                    Some(m) => {
                        assert(nr[m] == ranks[m]);
                        assert(!nr[m].contains(p));
                    },
                    None => {},
                }
            }
        },
        None => {
            match level_of(ranks, p) {
                Some(m) => {
                    assert(nr[m] == ranks[m]);
                },
                None => {
                    assert(nr[ranks.len() as int] == s);
                },
            }
        },
    }
}

/// Contraction by entrenchment keeps every belief other than `p` that does not
/// read `X=>Y` with the trimmed `Y` equal to `p`, whatever its level.
pub proof fn law_entrenchment_contraction_keeps_non_implications(
    k: Set<Seq<char>>,
    ranks: Seq<Set<Seq<char>>>,
    p: Seq<char>,
    b: Seq<char>,
)
    requires
        k.contains(b),
        b != p,
        split_once_spec(b, seq!['=', '>']) is Some ==> trim_spec(
            split_once_spec(b, seq!['=', '>']).unwrap().1,
        ) != p,
    ensures
        entrenchment_contraction(k, ranks, p).contains(b),
{
    assert(seq!['=', '>'] =~= crate::belief_base::arrow());
}

/// Contraction by entrenchment removes every belief `X=>Y` whose `Y`, with
/// surrounding white space trimmed, is `p`, and whose level is no higher than
/// that of `p` (0 where `p` has none).
pub proof fn law_entrenchment_contraction_removes_weaker_implications(
    k: Set<Seq<char>>,
    ranks: Seq<Set<Seq<char>>>,
    p: Seq<char>,
    b: Seq<char>,
    l: int,
    lp: int,
)
    requires
        split_once_spec(b, seq!['=', '>']) is Some,
        trim_spec(split_once_spec(b, seq!['=', '>']).unwrap().1) == p,
        0 <= l < ranks.len(),
        ranks[l].contains(b),
        forall|j: int| 0 <= j < l ==> !(#[trigger] ranks[j]).contains(b),
        (0 <= lp < ranks.len() && ranks[lp].contains(p) && forall|j: int|
            0 <= j < lp ==> !(#[trigger] ranks[j]).contains(p)) || (lp == 0 && forall|j: int|
            0 <= j < ranks.len() ==> !(#[trigger] ranks[j]).contains(p)),
        l <= lp,
    ensures
        !entrenchment_contraction(k, ranks, p).contains(b),
{
    assert(seq!['=', '>'] =~= crate::belief_base::arrow());
    lemma_level_of(ranks, b);
    match level_of(ranks, b) {
        Some(m) => {
            if m < l {
                assert(!ranks[m].contains(b));
            }
            if m > l {
                assert(!ranks[l].contains(b));
            }
        },
        None => {
            assert(!ranks[l].contains(b));
        },
    }
    level_of_first(ranks, p, lp);
}

/// `lp` is the level of `p` (0 where no level holds it) when it is the first
/// level holding `p`, or 0 with no level holding it.
proof fn level_of_first(ranks: Seq<Set<Seq<char>>>, p: Seq<char>, lp: int)
    requires
        (0 <= lp < ranks.len() && ranks[lp].contains(p) && forall|j: int|
            0 <= j < lp ==> !(#[trigger] ranks[j]).contains(p)) || (lp == 0 && forall|j: int|
            0 <= j < ranks.len() ==> !(#[trigger] ranks[j]).contains(p)),
    ensures
        level_or_zero(ranks, p) == lp,
{
    lemma_level_of(ranks, p);
    match level_of(ranks, p) {
        Some(m) => {
            if m < lp {
                assert(!ranks[m].contains(p));
            }
            if m > lp {
                assert(!ranks[lp].contains(p));
            }
        },
        None => {
            if 0 <= lp < ranks.len() && ranks[lp].contains(p) {
                assert(!ranks[lp].contains(p));
            }
        },
    }
}

/// `p` is at least as entrenched as `q` exactly when the first level holding
/// `p` is at or above the first level holding `q`, where a proposition that no
/// level holds counts as level 0.
pub proof fn law_entrenchment_compare(
    ranks: Seq<Set<Seq<char>>>,
    p: Seq<char>,
    q: Seq<char>,
    lp: int,
    lq: int,
)
    requires
        (0 <= lp < ranks.len() && ranks[lp].contains(p) && forall|j: int|
            0 <= j < lp ==> !(#[trigger] ranks[j]).contains(p)) || (lp == 0 && forall|j: int|
            0 <= j < ranks.len() ==> !(#[trigger] ranks[j]).contains(p)),
        (0 <= lq < ranks.len() && ranks[lq].contains(q) && forall|j: int|
            0 <= j < lq ==> !(#[trigger] ranks[j]).contains(q)) || (lq == 0 && forall|j: int|
            0 <= j < ranks.len() ==> !(#[trigger] ranks[j]).contains(q)),
    ensures
        entrenched_at_least(ranks, p, q) <==> lp >= lq,
{
    level_of_first(ranks, p, lp);
    level_of_first(ranks, q, lq);
}

/// The closure check over no beliefs finds nothing; one more belief `b` adds
/// exactly the trimmed `Y` of `b = X=>Y` (split at the first `=>`), and only when
/// the trimmed `X` is in the base and the trimmed `Y` is not.
pub proof fn law_missing_consequents_step(
    base: Set<Seq<char>>,
    bs: Seq<Seq<char>>,
    b: Seq<char>,
)
    ensures
        missing_consequents(base, Seq::empty()) == Seq::<Seq<char>>::empty(),
        missing_consequents(base, bs.push(b)) == if split_once_spec(b, seq!['=', '>']) is Some
            && base.contains(trim_spec(split_once_spec(b, seq!['=', '>']).unwrap().0))
            && !base.contains(trim_spec(split_once_spec(b, seq!['=', '>']).unwrap().1)) {
            missing_consequents(base, bs).push(
                trim_spec(split_once_spec(b, seq!['=', '>']).unwrap().1),
            )
        } else {
            missing_consequents(base, bs)
        },
{
    assert(seq!['=', '>'] =~= crate::belief_base::arrow());
    assert(bs.push(b).drop_last() =~= bs);
}

/// Every consequent that the closure check reports comes from a belief `X=>Y`
/// whose trimmed `X` is in the base and whose trimmed `Y` is not, and every
/// such belief has its trimmed `Y` reported.
pub proof fn law_missing_consequents_members(base: Set<Seq<char>>, bs: Seq<Seq<char>>, c: Seq<char>)
    ensures
        missing_consequents(base, bs).contains(c) <==> exists|k: int|
            0 <= k < bs.len() && split_once_spec(#[trigger] bs[k], seq!['=', '>']) is Some
                && base.contains(trim_spec(split_once_spec(bs[k], seq!['=', '>']).unwrap().0))
                && !base.contains(trim_spec(split_once_spec(bs[k], seq!['=', '>']).unwrap().1))
                && c == trim_spec(split_once_spec(bs[k], seq!['=', '>']).unwrap().1),
    decreases bs.len(),
{
    let a = seq!['=', '>'];
    assert(a =~= crate::belief_base::arrow());
    if bs.len() > 0 {
        let init = bs.drop_last();
        let b = bs.last();
        law_missing_consequents_members(base, init, c);
        law_missing_consequents_step(base, init, b);
        assert(init.push(b) =~= bs);
        let rest = missing_consequents(base, init);
        let whole = missing_consequents(base, bs);
        let hit = split_once_spec(b, a) is Some && base.contains(
            trim_spec(split_once_spec(b, a).unwrap().0),
        ) && !base.contains(trim_spec(split_once_spec(b, a).unwrap().1));
        if hit {
            assert(whole == rest.push(trim_spec(split_once_spec(b, a).unwrap().1)));
            assert(whole.contains(c) <==> (rest.contains(c) || c == trim_spec(
                split_once_spec(b, a).unwrap().1,
            ))) by {
                if whole.contains(c) {
                    let k = choose|k: int| 0 <= k < whole.len() && whole[k] == c;
                    if k < rest.len() {
                        assert(rest[k] == c);
                    }
                }
                if rest.contains(c) {
                    let k = choose|k: int| 0 <= k < rest.len() && rest[k] == c;
                    assert(whole[k] == c);
                }
                if c == trim_spec(split_once_spec(b, a).unwrap().1) {
                    assert(whole[rest.len() as int] == c);
                }
            }
        }
        if whole.contains(c) {
            if rest.contains(c) {
                let k = choose|k: int|
                    0 <= k < init.len() && split_once_spec(#[trigger] init[k], a) is Some
                        && base.contains(trim_spec(split_once_spec(init[k], a).unwrap().0))
                        && !base.contains(trim_spec(split_once_spec(init[k], a).unwrap().1))
                        && c == trim_spec(split_once_spec(init[k], a).unwrap().1);
                assert(bs[k] == init[k]);
            } else {
                assert(bs[bs.len() - 1] == b);
            }
        } else {
            assert forall|k: int|
                0 <= k < bs.len() && split_once_spec(#[trigger] bs[k], a) is Some && base.contains(
                    trim_spec(split_once_spec(bs[k], a).unwrap().0),
                ) && !base.contains(trim_spec(split_once_spec(bs[k], a).unwrap().1)) implies c
                != trim_spec(split_once_spec(bs[k], a).unwrap().1) by {
                if k < bs.len() - 1 {
                    assert(bs[k] == init[k]);
                }
            }
        }
    }
}

} // verus!
