//! A finite set of propositions, kept in the order of `String`'s `Ord`: by the
//! bytes of the UTF-8 encoding, lexicographically.
use vstd::prelude::*;
use vstd::utf8::*;
use vstd::string::*;

verus! {

broadcast use {vstd::utf8::encode_utf8_decode_utf8, vstd::seq_lib::group_seq_properties};

/// Lexicographic order on byte strings; a proper prefix comes first.
pub open spec fn bytes_lt(a: Seq<u8>, b: Seq<u8>) -> bool
    decreases a.len(),
{
    if b.len() == 0 {
        false
    } else if a.len() == 0 {
        true
    } else if a[0] != b[0] {
        a[0] < b[0]
    } else {
        bytes_lt(a.drop_first(), b.drop_first())
    }
}

/// The order of propositions: that of their UTF-8 encodings, as `String`'s `Ord`.
pub open spec fn prop_lt(a: Seq<char>, b: Seq<char>) -> bool {
    bytes_lt(encode_utf8(a), encode_utf8(b))
}

/// `s` is in increasing order, so that nothing occurs in it twice.
pub open spec fn strictly_sorted(s: Seq<Seq<char>>) -> bool {
    forall|i: int, j: int| 0 <= i < j < s.len() ==> prop_lt(#[trigger] s[i], #[trigger] s[j])
}

/// `s` lists the elements of `set` in increasing order.
pub open spec fn is_listing(s: Seq<Seq<char>>, set: Set<Seq<char>>) -> bool {
    strictly_sorted(s) && s.to_set() == set
}

/// The contents of a vector of strings.
pub open spec fn string_views(v: Seq<String>) -> Seq<Seq<char>> {
    v.map_values(|s: String| s@)
}

/// The contents of a vector of string slices.
pub open spec fn str_views(v: Seq<&str>) -> Seq<Seq<char>> {
    v.map_values(|s: &str| s@)
}

pub proof fn lemma_bytes_lt_irreflexive(a: Seq<u8>)
    ensures
        !bytes_lt(a, a),
    decreases a.len(),
{
    if a.len() > 0 {
        lemma_bytes_lt_irreflexive(a.drop_first());
    }
}

pub proof fn lemma_bytes_lt_asymmetric(a: Seq<u8>, b: Seq<u8>)
    ensures
        !(bytes_lt(a, b) && bytes_lt(b, a)),
    decreases a.len(),
{
    if a.len() > 0 && b.len() > 0 && a[0] == b[0] {
        lemma_bytes_lt_asymmetric(a.drop_first(), b.drop_first());
    }
}

pub proof fn lemma_bytes_lt_transitive(a: Seq<u8>, b: Seq<u8>, c: Seq<u8>)
    requires
        bytes_lt(a, b),
        bytes_lt(b, c),
    ensures
        bytes_lt(a, c),
    decreases a.len(),
{
    if a.len() > 0 && a[0] == b[0] && b[0] == c[0] {
        lemma_bytes_lt_transitive(a.drop_first(), b.drop_first(), c.drop_first());
    }
}

pub proof fn lemma_bytes_lt_total(a: Seq<u8>, b: Seq<u8>)
    ensures
        a == b || bytes_lt(a, b) || bytes_lt(b, a),
    decreases a.len(),
{
    if a.len() == 0 {
        if b.len() == 0 {
            assert(a =~= b);
        }
    } else if b.len() > 0 && a[0] == b[0] {
        lemma_bytes_lt_total(a.drop_first(), b.drop_first());
        if a.drop_first() == b.drop_first() {
            assert(a =~= seq![a[0]] + a.drop_first());
            assert(b =~= seq![b[0]] + b.drop_first());
        }
    }
}

/// The order of propositions is a strict total order.
pub proof fn lemma_prop_lt_order(a: Seq<char>, b: Seq<char>, c: Seq<char>)
    ensures
        !prop_lt(a, a),
        !(prop_lt(a, b) && prop_lt(b, a)),
        prop_lt(a, b) && prop_lt(b, c) ==> prop_lt(a, c),
        a == b || prop_lt(a, b) || prop_lt(b, a),
{
    lemma_bytes_lt_irreflexive(encode_utf8(a));
    lemma_bytes_lt_asymmetric(encode_utf8(a), encode_utf8(b));
    if prop_lt(a, b) && prop_lt(b, c) {
        lemma_bytes_lt_transitive(encode_utf8(a), encode_utf8(b), encode_utf8(c));
    }
    lemma_bytes_lt_total(encode_utf8(a), encode_utf8(b));
    if encode_utf8(a) == encode_utf8(b) {
        assert(decode_utf8(encode_utf8(a)) == a);
        assert(decode_utf8(encode_utf8(b)) == b);
    }
}

/// A strictly sorted sequence holds nothing twice.
pub proof fn lemma_sorted_no_duplicates(s: Seq<Seq<char>>)
    requires
        strictly_sorted(s),
    ensures
        s.no_duplicates(),
{
    assert forall|i: int, j: int| 0 <= i < s.len() && 0 <= j < s.len() && i != j implies s[i]
        != s[j] by {
        lemma_prop_lt_order(s[i], s[j], s[j]);
        if i < j {
            assert(prop_lt(s[i], s[j]));
        } else {
            assert(prop_lt(s[j], s[i]));
        }
    }
}

/// Listings are unique: two increasing sequences with the same elements are
/// equal, so the order in which beliefs are listed is determined by the set.
pub proof fn law_listing_unique(s1: Seq<Seq<char>>, s2: Seq<Seq<char>>, set: Set<Seq<char>>)
    requires
        is_listing(s1, set),
        is_listing(s2, set),
    ensures
        s1 == s2,
    decreases s1.len() + s2.len(),
{
    if s1.len() == 0 {
        if s2.len() > 0 {
            assert(s2.to_set().contains(s2[0]));
        }
        assert(s1 =~= s2);
    } else if s2.len() == 0 {
        assert(s1.to_set().contains(s1[0]));
    } else {
        let x = s1[0];
        let y = s2[0];
        assert(set.contains(x));
        assert(set.contains(y));
        let k1 = choose|k: int| 0 <= k < s1.len() && s1[k] == y;
        let k2 = choose|k: int| 0 <= k < s2.len() && s2[k] == x;
        lemma_prop_lt_order(x, y, x);
        if x != y {
            if prop_lt(x, y) {
                assert(k2 > 0);
                assert(prop_lt(y, x));
            } else {
                assert(k1 > 0);
                assert(prop_lt(x, y));
            }
        }
        let r1 = s1.drop_first();
        let r2 = s2.drop_first();
        let rest = set.remove(x);
        lemma_sorted_no_duplicates(s1);
        lemma_sorted_no_duplicates(s2);
        assert forall|z: Seq<char>| r1.to_set().contains(z) <==> rest.contains(z) by {
            if r1.to_set().contains(z) {
                let k = choose|k: int| 0 <= k < r1.len() && r1[k] == z;
                assert(s1[k + 1] == z);
                assert(s1.to_set().contains(z));
            }
            if rest.contains(z) {
                let k = choose|k: int| 0 <= k < s1.len() && s1[k] == z;
                assert(k != 0);
                assert(r1[k - 1] == z);
            }
        }
        assert forall|z: Seq<char>| r2.to_set().contains(z) <==> rest.contains(z) by {
            if r2.to_set().contains(z) {
                let k = choose|k: int| 0 <= k < r2.len() && r2[k] == z;
                assert(s2[k + 1] == z);
                assert(s2.to_set().contains(z));
            }
            if rest.contains(z) {
                let k = choose|k: int| 0 <= k < s2.len() && s2[k] == z;
                assert(k != 0);
                assert(r2[k - 1] == z);
            }
        }
        assert(r1.to_set() =~= rest);
        assert(r2.to_set() =~= rest);
        assert forall|i: int, j: int| 0 <= i < j < r1.len() implies prop_lt(r1[i], r1[j]) by {
            assert(prop_lt(s1[i + 1], s1[j + 1]));
        }
        assert forall|i: int, j: int| 0 <= i < j < r2.len() implies prop_lt(r2[i], r2[j]) by {
            assert(prop_lt(s2[i + 1], s2[j + 1]));
        }
        law_listing_unique(r1, r2, rest);
        assert(s1 =~= seq![x] + r1);
        assert(s2 =~= seq![y] + r2);
    }
}

/// Putting `pv` at its place in an increasing sequence keeps it increasing
/// and adds `pv` to its elements.
pub proof fn lemma_sorted_insert(e: Seq<Seq<char>>, i: int, pv: Seq<char>)
    requires
        strictly_sorted(e),
        0 <= i <= e.len(),
        forall|j: int| 0 <= j < i ==> prop_lt(#[trigger] e[j], pv),
        i < e.len() ==> prop_lt(pv, e[i]),
    ensures
        strictly_sorted(e.insert(i, pv)),
        e.insert(i, pv).to_set() == e.to_set().insert(pv),
{
    let ne = e.insert(i, pv);
    assert forall|a: int, b: int| 0 <= a < b < ne.len() implies prop_lt(
        #[trigger] ne[a],
        #[trigger] ne[b],
    ) by {
        if a < i && b < i {
            assert(ne[a] == e[a] && ne[b] == e[b]);
        } else if a < i && b == i {
            assert(ne[a] == e[a]);
        } else if a < i {
            assert(ne[a] == e[a] && ne[b] == e[b - 1]);
            lemma_prop_lt_order(e[a], pv, e[b - 1]);
            if b - 1 > i {
                lemma_prop_lt_order(pv, e[i], e[b - 1]);
            }
        } else if a == i {
            assert(ne[b] == e[b - 1]);
            if b - 1 > i {
                lemma_prop_lt_order(pv, e[i], e[b - 1]);
            }
        } else {
            assert(ne[a] == e[a - 1]);
            assert(ne[b] == e[b - 1]);
        }
    }
    assert forall|x: Seq<char>| ne.to_set().contains(x) <==> e.to_set().insert(pv).contains(
        x,
    ) by {
        if ne.to_set().contains(x) {
            let k = choose|k: int| 0 <= k < ne.len() && ne[k] == x;
            if k < i {
                assert(e[k] == x);
            } else if k > i {
                assert(e[k - 1] == x);
            }
        }
        if e.to_set().contains(x) {
            let k = choose|k: int| 0 <= k < e.len() && e[k] == x;
            if k < i {
                assert(ne[k] == x);
            } else {
                assert(ne[k + 1] == x);
            }
        }
        if x == pv {
            assert(ne[i] == x);
        }
    }
    assert(ne.to_set() =~= e.to_set().insert(pv));
}

/// Taking an element out of an increasing sequence keeps it increasing and
/// removes that element from its elements.
pub proof fn lemma_sorted_remove(e: Seq<Seq<char>>, i: int)
    requires
        strictly_sorted(e),
        0 <= i < e.len(),
    ensures
        strictly_sorted(e.remove(i)),
        e.remove(i).to_set() == e.to_set().remove(e[i]),
{
    let ne = e.remove(i);
    lemma_sorted_no_duplicates(e);
    assert forall|a: int, b: int| 0 <= a < b < ne.len() implies prop_lt(
        #[trigger] ne[a],
        #[trigger] ne[b],
    ) by {
        if a < i && b < i {
            assert(ne[a] == e[a] && ne[b] == e[b]);
        } else if a < i {
            assert(ne[a] == e[a]);
            assert(ne[b] == e[b + 1]);
        } else {
            assert(ne[a] == e[a + 1]);
            assert(ne[b] == e[b + 1]);
        }
    }
    assert forall|x: Seq<char>| ne.to_set().contains(x) <==> e.to_set().remove(e[i]).contains(
        x,
    ) by {
        if ne.to_set().contains(x) {
            let k = choose|k: int| 0 <= k < ne.len() && ne[k] == x;
            if k < i {
                assert(e[k] == x);
            } else {
                assert(e[k + 1] == x);
            }
        }
        if e.to_set().remove(e[i]).contains(x) {
            let k = choose|k: int| 0 <= k < e.len() && e[k] == x;
            if k < i {
                assert(ne[k] == x);
            } else {
                assert(ne[k - 1] == x);
            }
        }
    }
    assert(ne.to_set() =~= e.to_set().remove(e[i]));
}

/// How two propositions stand in the order.
pub enum Precedence {
    Before,
    Same,
    After,
}

/// Where `a` stands relative to `b` in the order of propositions.
pub fn precedence(a: &str, b: &str) -> (r: Precedence)
    ensures
        r is Before <==> prop_lt(a@, b@),
        r is Same <==> a@ == b@,
        r is After <==> prop_lt(b@, a@),
{
    let x = a.as_bytes();
    let y = b.as_bytes();
    let ghost ea = encode_utf8(a@);
    let ghost eb = encode_utf8(b@);
    proof {
        lemma_prop_lt_order(a@, b@, a@);
        assert(ea.skip(0) =~= ea);
        assert(eb.skip(0) =~= eb);
    }
    let n = x.len();
    let m = y.len();
    let mut i: usize = 0;
    while i < n && i < m
        invariant
            ea == encode_utf8(a@),
            eb == encode_utf8(b@),
            x@ == ea,
            y@ == eb,
            n == x@.len(),
            m == y@.len(),
            i <= n,
            i <= m,
            bytes_lt(ea, eb) == bytes_lt(ea.skip(i as int), eb.skip(i as int)),
            bytes_lt(eb, ea) == bytes_lt(eb.skip(i as int), ea.skip(i as int)),
            ea.subrange(0, i as int) == eb.subrange(0, i as int),
        decreases n - i,
    {
        let u = x[i];
        let v = y[i];
        if u != v {
            assert(ea.skip(i as int)[0] == u);
            assert(eb.skip(i as int)[0] == v);
            assert(ea[i as int] != eb[i as int]);
            assert(ea != eb);
            if u < v {
                assert(bytes_lt(ea.skip(i as int), eb.skip(i as int)));
                assert(!bytes_lt(eb.skip(i as int), ea.skip(i as int)));
                return Precedence::Before;
            } else {
                assert(!bytes_lt(ea.skip(i as int), eb.skip(i as int)));
                assert(bytes_lt(eb.skip(i as int), ea.skip(i as int)));
                return Precedence::After;
            }
        }
        assert(ea.skip(i as int).drop_first() =~= ea.skip(i + 1));
        assert(eb.skip(i as int).drop_first() =~= eb.skip(i + 1));
        assert(ea.subrange(0, i + 1) =~= ea.subrange(0, i as int).push(u));
        assert(eb.subrange(0, i + 1) =~= eb.subrange(0, i as int).push(v));
        i = i + 1;
    }
    if n == m {
        assert(ea =~= ea.subrange(0, i as int));
        assert(eb =~= eb.subrange(0, i as int));
        Precedence::Same
    } else if n < m {
        assert(ea.skip(i as int).len() == 0);
        assert(ea != eb);
        Precedence::Before
    } else {
        assert(eb.skip(i as int).len() == 0);
        assert(ea != eb);
        Precedence::After
    }
}

/// A finite set of propositions.
#[derive(Debug)]
pub struct PropositionSet {
    items: Vec<String>,
}

impl View for PropositionSet {
    type V = Set<Seq<char>>;

    closed spec fn view(&self) -> Set<Seq<char>> {
        string_views(self.items@).to_set()
    }
}

impl PropositionSet {
    /// The elements in increasing order.
    pub closed spec fn elems(&self) -> Seq<Seq<char>> {
        string_views(self.items@)
    }

    #[verifier::type_invariant]
    spec fn sorted(&self) -> bool {
        strictly_sorted(string_views(self.items@))
    }

    /// The empty set.
    pub fn new() -> (r: Self)
        ensures
            r@ == Set::<Seq<char>>::empty(),
    {
        let r = PropositionSet { items: Vec::new() };
        assert(r@ =~= Set::<Seq<char>>::empty());
        r
    }

    /// The elements in increasing order.
    pub fn items(&self) -> (r: &Vec<String>)
        ensures
            string_views(r@) == self.elems(),
            is_listing(self.elems(), self@),
    {
        proof {
            use_type_invariant(self);
        }
        &self.items
    }

    /// The first position whose element does not come before `p`, and whether
    /// `p` is there.
    fn locate(&self, p: &str) -> (r: (usize, bool))
        ensures
            r.0 <= self.elems().len(),
            forall|j: int| 0 <= j < r.0 ==> prop_lt(#[trigger] self.elems()[j], p@),
            r.0 < self.elems().len() && !r.1 ==> prop_lt(p@, self.elems()[r.0 as int]),
            r.1 == (r.0 < self.elems().len() && self.elems()[r.0 as int] == p@),
            r.1 == self@.contains(p@),
    {
        proof {
            use_type_invariant(self);
        }
        let ghost e = self.elems();
        assert(strictly_sorted(e));
        let n = self.items.len();
        let mut i: usize = 0;
        while i < n
            invariant
                n == e.len(),
                e == self.elems(),
                strictly_sorted(e),
                i <= n,
                forall|j: int| 0 <= j < i ==> prop_lt(#[trigger] e[j], p@),
            decreases n - i,
        {
            match precedence(self.items[i].as_str(), p) {
                Precedence::Before => {},
                Precedence::Same => {
                    assert(e[i as int] == p@);
                    assert(self@.contains(p@));
                    return (i, true);
                },
                Precedence::After => {
                    proof {
                        lemma_prop_lt_order(p@, e[i as int], p@);
                        assert forall|k: int| 0 <= k < n implies e[k] != p@ by {
                            lemma_prop_lt_order(e[k], p@, e[k]);
                            if k > i {
                                lemma_prop_lt_order(p@, e[i as int], e[k]);
                                assert(prop_lt(e[i as int], e[k]));
                            }
                        }
                    }
                    return (i, false);
                },
            }
            i = i + 1;
        }
        proof {
            assert forall|k: int| 0 <= k < n implies e[k] != p@ by {
                lemma_prop_lt_order(e[k], p@, e[k]);
            }
        }
        (i, false)
    }

    /// Whether `p` is in the set.
    pub fn contains(&self, p: &str) -> (r: bool)
        ensures
            r == self@.contains(p@),
    {
        self.locate(p).1
    }

    /// Adds `p`; `false` when it was there already.
    pub fn insert(&mut self, p: String) -> (r: bool)
        ensures
            r == !old(self)@.contains(p@),
            final(self)@ == old(self)@.insert(p@),
    {
        proof {
            use_type_invariant(&*self);
        }
        let (i, found) = self.locate(p.as_str());
        if found {
            assert(old(self)@.insert(p@) =~= old(self)@);
            return false;
        }
        let ghost e = self.elems();
        let ghost pv = p@;
        let mut items: Vec<String> = Vec::new();
        std::mem::swap(&mut items, &mut self.items);
        items.insert(i, p);
        proof {
            assert(string_views(items@) =~= e.insert(i as int, pv));
            lemma_sorted_insert(e, i as int, pv);
        }
        self.items = items;
        true
    }

    /// Removes `p`; `true` when it was there.
    pub fn remove(&mut self, p: &str) -> (r: bool)
        ensures
            r == old(self)@.contains(p@),
            final(self)@ == old(self)@.remove(p@),
    {
        proof {
            use_type_invariant(&*self);
        }
        let (i, found) = self.locate(p);
        if !found {
            assert(old(self)@.remove(p@) =~= old(self)@);
            return false;
        }
        let ghost e = self.elems();
        let mut items: Vec<String> = Vec::new();
        std::mem::swap(&mut items, &mut self.items);
        items.remove(i);
        proof {
            assert(string_views(items@) =~= e.remove(i as int));
            lemma_sorted_remove(e, i as int);
        }
        self.items = items;
        true
    }

    /// The set is finite.
    pub proof fn lemma_view_finite(&self)
        ensures
            self@.finite(),
    {
        vstd::seq_lib::seq_to_set_is_finite(self.elems());
    }

    /// The number of elements.
    pub fn len(&self) -> (r: usize)
        ensures
            self@.finite(),
            r == self@.len(),
    {
        proof {
            use_type_invariant(self);
            self.lemma_view_finite();
            lemma_sorted_no_duplicates(self.elems());
            self.elems().unique_seq_to_set();
        }
        self.items.len()
    }

    /// Whether the set is empty.
    pub fn is_empty(&self) -> (r: bool)
        ensures
            self@.finite(),
            r == (self@ == Set::<Seq<char>>::empty()),
            r == (self@.len() == 0),
    {
        proof {
            self.lemma_view_finite();
            if self.items@.len() > 0 {
                assert(self@.contains(self.elems()[0]));
            }
        }
        let r = self.items.len() == 0;
        proof {
            if r {
                assert(self@ =~= Set::<Seq<char>>::empty());
            }
        }
        r
    }
}

impl Clone for PropositionSet {
    fn clone(&self) -> (r: Self)
        ensures
            r@ == self@,
            r.elems() == self.elems(),
    {
        proof {
            use_type_invariant(self);
        }
        let items = self.items.clone();
        proof {
            assert forall|k: int| 0 <= k < items.len() implies items@[k] == self.items@[k] by {
                assert(cloned::<String>(self.items[k], items[k]));
            }
            assert(items@ =~= self.items@);
        }
        PropositionSet { items }
    }
}

impl PropositionSet {
    /// The set of the strings in `v`.
    pub fn from_strings(v: Vec<String>) -> (r: Self)
        ensures
            r@ == string_views(v@).to_set(),
    {
        let mut r = PropositionSet::new();
        let n = v.len();
        let mut j: usize = 0;
        while j < n
            invariant
                n == v.len(),
                j <= n,
                r@ == string_views(v@).take(j as int).to_set(),
            decreases n - j,
        {
            let s = v[j].clone();
            r.insert(s);
            proof {
                assert(string_views(v@).take(j + 1) =~= string_views(v@).take(j as int).push(
                    v@[j as int]@,
                ));
                string_views(v@).take(j as int).lemma_push_to_set_commute(v@[j as int]@);
            }
            j = j + 1;
        }
        assert(string_views(v@).take(n as int) =~= string_views(v@));
        r
    }

    /// The elements as string slices, in increasing order.
    pub fn strs(&self) -> (r: Vec<&str>)
        ensures
            str_views(r@) == self.elems(),
            is_listing(self.elems(), self@),
    {
        let items = self.items();
        let n = items.len();
        let mut r: Vec<&str> = Vec::new();
        let mut j: usize = 0;
        while j < n
            invariant
                n == items.len(),
                string_views(items@) == self.elems(),
                j <= n,
                str_views(r@) == self.elems().take(j as int),
            decreases n - j,
        {
            let x = items[j].as_str();
            let ghost before = r@;
            r.push(x);
            proof {
                assert(str_views(r@) =~= str_views(before).push(x@));
                assert(string_views(items@)[j as int] == items@[j as int]@);
                assert(str_views(r@) =~= self.elems().take(j + 1));
            }
            j = j + 1;
        }
        assert(self.elems().take(n as int) =~= self.elems());
        r
    }

    /// The elements of either set.
    pub fn union(&self, other: &PropositionSet) -> (r: PropositionSet)
        ensures
            r@ == self@.union(other@),
    {
        let mut r = self.clone();
        let items = other.items();
        let ghost ls = string_views(items@);
        let n = items.len();
        let mut j: usize = 0;
        while j < n
            invariant
                n == items.len(),
                ls == string_views(items@),
                ls.to_set() == other@,
                j <= n,
                r@ == self@.union(ls.take(j as int).to_set()),
            decreases n - j,
        {
            r.insert(items[j].clone());
            proof {
                assert(ls.take(j + 1) =~= ls.take(j as int).push(ls[j as int]));
                ls.take(j as int).lemma_push_to_set_commute(ls[j as int]);
                assert(r@ =~= self@.union(ls.take(j + 1).to_set()));
            }
            j = j + 1;
        }
        assert(ls.take(n as int) =~= ls);
        r
    }

    /// The elements of both sets.
    pub fn intersection(&self, other: &PropositionSet) -> (r: PropositionSet)
        ensures
            r@ == self@.intersect(other@),
    {
        let mut r = PropositionSet::new();
        let items = self.items();
        let ghost ls = string_views(items@);
        let n = items.len();
        let mut j: usize = 0;
        while j < n
            invariant
                n == items.len(),
                ls == string_views(items@),
                ls.to_set() == self@,
                j <= n,
                r@ == ls.take(j as int).to_set().intersect(other@),
            decreases n - j,
        {
            if other.contains(items[j].as_str()) {
                r.insert(items[j].clone());
            }
            proof {
                assert(ls.take(j + 1) =~= ls.take(j as int).push(ls[j as int]));
                ls.take(j as int).lemma_push_to_set_commute(ls[j as int]);
                assert(r@ =~= ls.take(j + 1).to_set().intersect(other@));
            }
            j = j + 1;
        }
        assert(ls.take(n as int) =~= ls);
        r
    }

    /// Whether every element is in `other` too.
    pub fn is_subset(&self, other: &PropositionSet) -> (r: bool)
        ensures
            r == self@.subset_of(other@),
    {
        let items = self.items();
        let ghost ls = string_views(items@);
        let n = items.len();
        let mut j: usize = 0;
        while j < n
            invariant
                n == items.len(),
                ls == string_views(items@),
                ls.to_set() == self@,
                j <= n,
                forall|k: int| 0 <= k < j ==> other@.contains(#[trigger] ls[k]),
            decreases n - j,
        {
            if !other.contains(items[j].as_str()) {
                assert(self@.contains(ls[j as int]));
                return false;
            }
            j = j + 1;
        }
        assert forall|x: Seq<char>| self@.contains(x) implies other@.contains(x) by {
            let k = choose|k: int| 0 <= k < ls.len() && ls[k] == x;
        }
        true
    }
}

} // verus!
