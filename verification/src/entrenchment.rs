//! Entrenchment orderings: propositions ranked in levels, the lowest level the
//! least entrenched.
use vstd::prelude::*;
use crate::propset::{is_listing, str_views, PropositionSet};

verus! {

/// The first level at or above `i` that holds `p`.
pub open spec fn level_from(ranks: Seq<Set<Seq<char>>>, p: Seq<char>, i: int) -> Option<int>
    decreases ranks.len() - i,
{
    if i < 0 || i >= ranks.len() {
        None
    } else if ranks[i].contains(p) {
        Some(i)
    } else {
        level_from(ranks, p, i + 1)
    }
}

/// The entrenchment level of `p`: the first level that holds it.
pub open spec fn level_of(ranks: Seq<Set<Seq<char>>>, p: Seq<char>) -> Option<int> {
    level_from(ranks, p, 0)
}

/// The level of `p`, where a proposition that no level holds counts as level 0.
pub open spec fn level_or_zero(ranks: Seq<Set<Seq<char>>>, p: Seq<char>) -> int {
    match level_of(ranks, p) {
        Some(l) => l,
        None => 0,
    }
}

/// `p` is at least as entrenched as `q`.
pub open spec fn entrenched_at_least(ranks: Seq<Set<Seq<char>>>, p: Seq<char>, q: Seq<char>) -> bool {
    level_or_zero(ranks, p) >= level_or_zero(ranks, q)
}

/// The number of propositions over all levels, counted once per level.
pub open spec fn total_size(ranks: Seq<Set<Seq<char>>>) -> nat
    decreases ranks.len(),
{
    if ranks.len() == 0 {
        0
    } else {
        total_size(ranks.drop_last()) + ranks.last().len()
    }
}

/// What `level_of` is: the first level that holds `p`, if any.
pub proof fn lemma_level_of(ranks: Seq<Set<Seq<char>>>, p: Seq<char>)
    ensures
        match level_of(ranks, p) {
            Some(l) => 0 <= l < ranks.len() && ranks[l].contains(p) && forall|j: int|
                0 <= j < l ==> !(#[trigger] ranks[j]).contains(p),
            None => forall|j: int| 0 <= j < ranks.len() ==> !(#[trigger] ranks[j]).contains(p),
        },
{
    lemma_level_from(ranks, p, 0);
}

proof fn lemma_level_from(ranks: Seq<Set<Seq<char>>>, p: Seq<char>, i: int)
    requires
        0 <= i,
    ensures
        match level_from(ranks, p, i) {
            Some(l) => i <= l < ranks.len() && ranks[l].contains(p) && forall|j: int|
                i <= j < l ==> !(#[trigger] ranks[j]).contains(p),
            None => forall|j: int| i <= j < ranks.len() ==> !(#[trigger] ranks[j]).contains(p),
        },
    decreases ranks.len() - i,
{
    if i < ranks.len() && !ranks[i].contains(p) {
        lemma_level_from(ranks, p, i + 1);
    }
}

/// An ordering of propositions by entrenchment; a higher level is more entrenched.
#[derive(Debug)]
pub struct EntrenchmentOrder {
    ranks: Vec<PropositionSet>,
}

impl View for EntrenchmentOrder {
    type V = Seq<Set<Seq<char>>>;

    closed spec fn view(&self) -> Seq<Set<Seq<char>>> {
        self.ranks@.map_values(|r: PropositionSet| r@)
    }
}

impl Clone for EntrenchmentOrder {
    fn clone(&self) -> (r: Self)
        ensures
            r@ == self@,
    {
        let ranks = self.ranks.clone();
        proof {
            assert forall|k: int| 0 <= k < ranks.len() implies ranks@[k]@ == self.ranks@[k]@ by {
                assert(cloned::<PropositionSet>(self.ranks[k], ranks[k]));
            }
        }
        let r = EntrenchmentOrder { ranks };
        assert(r@ =~= self@);
        r
    }
}

impl Default for EntrenchmentOrder {
    fn default() -> (r: Self)
        ensures
            r@ == Seq::<Set<Seq<char>>>::empty(),
    {
        Self::new()
    }
}

impl EntrenchmentOrder {
    /// An ordering without levels.
    pub fn new() -> (r: Self)
        ensures
            r@ == Seq::<Set<Seq<char>>>::empty(),
    {
        let r = EntrenchmentOrder { ranks: Vec::new() };
        assert(r@ =~= Seq::<Set<Seq<char>>>::empty());
        r
    }

    /// Adds a level above all others and returns its index.
    pub fn add_rank(&mut self, beliefs: PropositionSet) -> (r: usize)
        ensures
            r == old(self)@.len(),
            final(self)@ == old(self)@.push(beliefs@),
    {
        let ghost b = beliefs@;
        self.ranks.push(beliefs);
        assert(self@ =~= old(self)@.push(b));
        self.ranks.len() - 1
    }

    /// The entrenchment level of `p`: the first level that holds it, if any.
    pub fn level(&self, p: &str) -> (r: Option<usize>)
        ensures
            match r {
                Some(l) => level_of(self@, p@) == Some(l as int),
                None => level_of(self@, p@) is None,
            },
    {
        let n = self.ranks.len();
        let mut i: usize = 0;
        while i < n
            invariant
                n == self@.len(),
                i <= n,
                level_of(self@, p@) == level_from(self@, p@, i as int),
            decreases n - i,
        {
            if self.ranks[i].contains(p) {
                return Some(i);
            }
            i = i + 1;
        }
        None
    }

    /// The number of levels.
    pub fn num_levels(&self) -> (r: usize)
        ensures
            r == self@.len(),
    {
        self.ranks.len()
    }

    /// The propositions at `level`, in increasing order; none for a level that
    /// does not exist.
    pub fn beliefs_at_level(&self, level: usize) -> (r: Vec<&str>)
        ensures
            level < self@.len() ==> is_listing(str_views(r@), self@[level as int]),
            level >= self@.len() ==> r@.len() == 0,
    {
        if level < self.ranks.len() {
            self.ranks[level].strs()
        } else {
            Vec::new()
        }
    }

    /// Whether `p` is at least as entrenched as `q`, a proposition that no level
    /// holds counting as level 0.
    pub fn at_least_as_entrenched(&self, p: &str, q: &str) -> (r: bool)
        ensures
            r == entrenched_at_least(self@, p@, q@),
    {
        let lp = match self.level(p) {
            Some(l) => l,
            None => 0,
        };
        let lq = match self.level(q) {
            Some(l) => l,
            None => 0,
        };
        lp >= lq
    }

    /// The least entrenched propositions: those of level 0, none without levels.
    pub fn least_entrenched(&self) -> (r: PropositionSet)
        ensures
            self@.len() == 0 ==> r@ == Set::<Seq<char>>::empty(),
            self@.len() > 0 ==> r@ == self@[0],
    {
        if self.ranks.len() == 0 {
            PropositionSet::new()
        } else {
            self.ranks[0].clone()
        }
    }

    /// Removes `p` from the first level that holds it; `true` when one did.
    pub fn remove(&mut self, p: &str) -> (r: bool)
        ensures
            r == (level_of(old(self)@, p@) is Some),
            match level_of(old(self)@, p@) {
                Some(l) => final(self)@ == old(self)@.update(l, old(self)@[l].remove(p@)),
                None => final(self)@ == old(self)@,
            },
    {
        match self.level(p) {
            Some(i) => {
                proof {
                    lemma_level_of(self@, p@);
                }
                let mut rank = PropositionSet::new();
                self.ranks.set_and_swap(i, &mut rank);
                rank.remove(p);
                self.ranks.set_and_swap(i, &mut rank);
                assert(self@ =~= old(self)@.update(i as int, old(self)@[i as int].remove(p@)));
                true
            },
            None => false,
        }
    }

    /// The number of propositions over all levels.
    pub fn total_beliefs(&self) -> (r: usize)
        requires
            total_size(self@) <= usize::MAX,
        ensures
            r == total_size(self@),
    {
        let n = self.ranks.len();
        let mut sum: usize = 0;
        let mut i: usize = 0;
        while i < n
            invariant
                n == self@.len(),
                i <= n,
                total_size(self@) <= usize::MAX,
                sum == total_size(self@.take(i as int)),
            decreases n - i,
        {
            proof {
                assert(self@.take(i + 1).drop_last() =~= self@.take(i as int));
                lemma_total_size_prefix(self@, i + 1);
            }
            sum = sum + self.ranks[i].len();
            i = i + 1;
        }
        assert(self@.take(n as int) =~= self@);
        sum
    }
}

/// The total over a prefix is at most the total over the whole sequence.
proof fn lemma_total_size_prefix(ranks: Seq<Set<Seq<char>>>, k: int)
    requires
        0 <= k <= ranks.len(),
    ensures
        total_size(ranks.take(k)) <= total_size(ranks),
    decreases ranks.len(),
{
    if k < ranks.len() {
        assert(ranks.drop_last().take(k) =~= ranks.take(k));
        lemma_total_size_prefix(ranks.drop_last(), k);
    } else {
        assert(ranks.take(k) =~= ranks);
    }
}

} // verus!
