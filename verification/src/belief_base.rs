//! Belief bases: finite sets of propositions.
use vstd::prelude::*;
use vstd::string::*;
use crate::propset::{is_listing, str_views, string_views, PropositionSet};
use crate::text::{split_once, split_once_spec, trim, trim_spec};

verus! {

/// A proposition, written as a string symbol.
pub type Proposition = String;

/// The implication arrow `=>` of propositions such as `rain=>wet`.
pub open spec fn arrow() -> Seq<char> {
    seq!['=', '>']
}

/// The consequent that `b` asks for and that `base` lacks: where `b` reads
/// `X=>Y`, `X` (trimmed) is in `base` and `Y` (trimmed) is not, that `Y`.
pub open spec fn missing_consequent(base: Set<Seq<char>>, b: Seq<char>) -> Option<Seq<char>> {
    match split_once_spec(b, arrow()) {
        Some((antecedent, consequent)) => {
            if base.contains(trim_spec(antecedent)) && !base.contains(trim_spec(consequent)) {
                Some(trim_spec(consequent))
            } else {
                None
            }
        },
        None => None,
    }
}

/// The missing consequents of the beliefs `bs`, in the order of `bs`.
pub open spec fn missing_consequents(base: Set<Seq<char>>, bs: Seq<Seq<char>>) -> Seq<Seq<char>>
    decreases bs.len(),
{
    if bs.len() == 0 {
        Seq::empty()
    } else {
        let rest = missing_consequents(base, bs.drop_last());
        match missing_consequent(base, bs.last()) {
            Some(c) => rest.push(c),
            None => rest,
        }
    }
}

/// `base` is closed under its implications: no belief has a missing consequent.
pub open spec fn is_closed(base: Set<Seq<char>>) -> bool {
    forall|b: Seq<char>| #[trigger] base.contains(b) ==> missing_consequent(base, b) is None
}

/// No missing consequents exactly when none of the beliefs has one.
pub proof fn lemma_missing_consequents_empty(base: Set<Seq<char>>, bs: Seq<Seq<char>>)
    ensures
        missing_consequents(base, bs).len() == 0 <==> forall|k: int|
            0 <= k < bs.len() ==> missing_consequent(base, #[trigger] bs[k]) is None,
    decreases bs.len(),
{
    if bs.len() > 0 {
        lemma_missing_consequents_empty(base, bs.drop_last());
        if missing_consequents(base, bs).len() == 0 {
            assert forall|k: int| 0 <= k < bs.len() implies missing_consequent(
                base,
                #[trigger] bs[k],
            ) is None by {
                if k < bs.len() - 1 {
                    assert(bs.drop_last()[k] == bs[k]);
                }
            }
        } else {
            if missing_consequent(base, bs.last()) is None {
                let k = choose|k: int|
                    0 <= k < bs.drop_last().len() && missing_consequent(
                        base,
                        #[trigger] bs.drop_last()[k],
                    ) is Some;
                assert(bs[k] == bs.drop_last()[k]);
            }
        }
    }
}

/// A set of beliefs.
#[derive(Debug)]
pub struct BeliefBase {
    beliefs: PropositionSet,
}

impl View for BeliefBase {
    type V = Set<Seq<char>>;

    closed spec fn view(&self) -> Set<Seq<char>> {
        self.beliefs@
    }
}

impl Clone for BeliefBase {
    fn clone(&self) -> (r: Self)
        ensures
            r@ == self@,
    {
        BeliefBase { beliefs: self.beliefs.clone() }
    }
}

impl Default for BeliefBase {
    fn default() -> (r: Self)
        ensures
            r@ == Set::<Seq<char>>::empty(),
    {
        Self::new()
    }
}

impl BeliefBase {
    /// The beliefs in increasing order (the order of `String`).
    pub closed spec fn listing(&self) -> Seq<Seq<char>> {
        self.beliefs.elems()
    }

    /// An empty belief base.
    pub fn new() -> (r: Self)
        ensures
            r@ == Set::<Seq<char>>::empty(),
    {
        BeliefBase { beliefs: PropositionSet::new() }
    }

    /// The belief base that holds the given propositions.
    pub fn from_propositions(props: Vec<Proposition>) -> (r: Self)
        ensures
            r@ == string_views(props@).to_set(),
    {
        BeliefBase { beliefs: PropositionSet::from_strings(props) }
    }

    /// Adds a belief; `false` when it was present already.
    pub fn add(&mut self, p: Proposition) -> (r: bool)
        ensures
            r == !old(self)@.contains(p@),
            final(self)@ == old(self)@.insert(p@),
    {
        self.beliefs.insert(p)
    }

    /// Removes a belief; `true` when it was present.
    pub fn remove(&mut self, p: &str) -> (r: bool)
        ensures
            r == old(self)@.contains(p@),
            final(self)@ == old(self)@.remove(p@),
    {
        self.beliefs.remove(p)
    }

    /// Whether the base holds `p`.
    pub fn contains(&self, p: &str) -> (r: bool)
        ensures
            r == self@.contains(p@),
    {
        self.beliefs.contains(p)
    }

    /// A belief base is finite.
    pub proof fn lemma_view_finite(&self)
        ensures
            self@.finite(),
    {
        self.beliefs.lemma_view_finite();
    }

    /// The number of beliefs.
    pub fn len(&self) -> (r: usize)
        ensures
            self@.finite(),
            r == self@.len(),
    {
        self.beliefs.len()
    }

    /// Whether the base is empty.
    pub fn is_empty(&self) -> (r: bool)
        ensures
            self@.finite(),
            r == (self@ == Set::<Seq<char>>::empty()),
            r == (self@.len() == 0),
    {
        self.beliefs.is_empty()
    }

    /// The beliefs in increasing order.
    pub fn beliefs(&self) -> (r: Vec<&str>)
        ensures
            str_views(r@) == self.listing(),
            is_listing(self.listing(), self@),
    {
        self.beliefs.strs()
    }

    /// The consequents that the base lacks: for each belief `X=>Y`, in the order
    /// of the beliefs, the trimmed `Y` when the trimmed `X` is a belief and the
    /// trimmed `Y` is not.
    pub fn check_closure(&self) -> (r: Vec<Proposition>)
        ensures
            string_views(r@) == missing_consequents(self@, self.listing()),
            is_listing(self.listing(), self@),
            r@.len() == 0 <==> is_closed(self@),
    {
        let bs = self.beliefs();
        let ghost ls = self.listing();
        let arrow_str = "=>";
        proof {
            reveal_strlit("=>");
            assert(arrow_str@ =~= arrow());
        }
        let mut missing: Vec<Proposition> = Vec::new();
        let n = bs.len();
        let mut j: usize = 0;
        while j < n
            invariant
                n == bs.len(),
                str_views(bs@) == ls,
                arrow_str@ == arrow(),
                j <= n,
                string_views(missing@) == missing_consequents(self@, ls.take(j as int)),
            decreases n - j,
        {
            let b = bs[j];
            let ghost before = missing@;
            assert(ls[j as int] == b@);
            assert(ls.take(j + 1).drop_last() =~= ls.take(j as int));
            if let Some((antecedent, consequent)) = split_once(b, arrow_str) {
                if self.beliefs.contains(trim(antecedent)) {
                    let cons = trim(consequent).to_owned();
                    if !self.beliefs.contains(cons.as_str()) {
                        missing.push(cons);
                        assert(string_views(missing@) =~= string_views(before).push(cons@));
                    }
                }
            }
            j = j + 1;
        }
        proof {
            assert(ls.take(n as int) =~= ls);
            lemma_missing_consequents_empty(self@, ls);
            if missing@.len() == 0 {
                assert forall|b: Seq<char>| #[trigger] self@.contains(b) implies missing_consequent(
                    self@,
                    b,
                ) is None by {
                    let k = choose|k: int| 0 <= k < ls.len() && ls[k] == b;
                }
            } else {
                let k = choose|k: int|
                    0 <= k < ls.len() && missing_consequent(self@, #[trigger] ls[k]) is Some;
                assert(ls.to_set().contains(ls[k]));
            }
        }
        missing
    }

    /// The beliefs of either base.
    pub fn union(&self, other: &BeliefBase) -> (r: BeliefBase)
        ensures
            r@ == self@.union(other@),
    {
        BeliefBase { beliefs: self.beliefs.union(&other.beliefs) }
    }

    /// The beliefs of both bases.
    pub fn intersection(&self, other: &BeliefBase) -> (r: BeliefBase)
        ensures
            r@ == self@.intersect(other@),
    {
        BeliefBase { beliefs: self.beliefs.intersection(&other.beliefs) }
    }

    /// Whether every belief is one of `other` too.
    pub fn is_subset_of(&self, other: &BeliefBase) -> (r: bool)
        ensures
            r == self@.subset_of(other@),
    {
        self.beliefs.is_subset(&other.beliefs)
    }
}

} // verus!
