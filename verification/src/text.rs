//! Character-level text operations on propositions: trimming, splitting at a
//! pattern, equality and negation.
use vstd::prelude::*;
use vstd::string::*;

verus! {

/// Unicode `White_Space`: the characters for which `char::is_whitespace` holds.
pub open spec fn is_white_space(c: char) -> bool {
    let u = c as u32;
    ||| 0x9 <= u <= 0xD
    ||| u == 0x20
    ||| u == 0x85
    ||| u == 0xA0
    ||| u == 0x1680
    ||| 0x2000 <= u <= 0x200A
    ||| u == 0x2028
    ||| u == 0x2029
    ||| u == 0x202F
    ||| u == 0x205F
    ||| u == 0x3000
}

/// Whether `c` has the Unicode `White_Space` property, as `char::is_whitespace`
/// tells.
pub fn is_whitespace(c: char) -> (b: bool)
    ensures
        b == is_white_space(c),
{
    let u = c as u32;
    (0x9 <= u && u <= 0xD) || u == 0x20 || u == 0x85 || u == 0xA0 || u == 0x1680 || (0x2000
        <= u && u <= 0x200A) || u == 0x2028 || u == 0x2029 || u == 0x202F || u == 0x205F || u
        == 0x3000
}

/// `s` without its leading white space.
pub open spec fn trim_start_spec(s: Seq<char>) -> Seq<char>
    decreases s.len(),
{
    if s.len() > 0 && is_white_space(s[0]) {
        trim_start_spec(s.drop_first())
    } else {
        s
    }
}

/// `s` without its trailing white space.
pub open spec fn trim_end_spec(s: Seq<char>) -> Seq<char>
    decreases s.len(),
{
    if s.len() > 0 && is_white_space(s.last()) {
        trim_end_spec(s.drop_last())
    } else {
        s
    }
}

/// `s` without leading and trailing white space, as `str::trim` gives it.
pub open spec fn trim_spec(s: Seq<char>) -> Seq<char> {
    trim_end_spec(trim_start_spec(s))
}

/// `pat` occurs in `s` at position `i`.
pub open spec fn matches_at(s: Seq<char>, pat: Seq<char>, i: int) -> bool {
    &&& 0 <= i
    &&& i + pat.len() <= s.len()
    &&& s.subrange(i, i + pat.len()) == pat
}

/// The first position at or after `start` where `pat` occurs in `s`.
pub open spec fn find_from(s: Seq<char>, pat: Seq<char>, start: int) -> Option<int>
    decreases s.len() - start,
{
    if start < 0 || start + pat.len() > s.len() {
        None
    } else if matches_at(s, pat, start) {
        Some(start)
    } else if start >= s.len() {
        None
    } else {
        find_from(s, pat, start + 1)
    }
}

/// The parts of `s` before and after the first occurrence of `pat`, as
/// `str::split_once` gives them.
pub open spec fn split_once_spec(s: Seq<char>, pat: Seq<char>) -> Option<(Seq<char>, Seq<char>)> {
    match find_from(s, pat, 0) {
        Some(i) => Some((s.subrange(0, i), s.subrange(i + pat.len(), s.len() as int))),
        None => None,
    }
}

/// The negation of a proposition: `¬` put in front of it.
pub open spec fn negation(p: Seq<char>) -> Seq<char> {
    seq!['¬'] + p
}

proof fn lemma_trim_start(s: Seq<char>) -> (i: int)
    ensures
        0 <= i <= s.len(),
        trim_start_spec(s) == s.subrange(i, s.len() as int),
        forall|k: int| 0 <= k < i ==> is_white_space(#[trigger] s[k]),
        i < s.len() ==> !is_white_space(s[i]),
    decreases s.len(),
{
    if s.len() > 0 && is_white_space(s[0]) {
        let j = lemma_trim_start(s.drop_first());
        assert(s.drop_first().subrange(j, s.drop_first().len() as int) =~= s.subrange(
            j + 1,
            s.len() as int,
        ));
        assert forall|k: int| 0 <= k < j + 1 implies is_white_space(#[trigger] s[k]) by {
            if k > 0 {
                assert(s[k] == s.drop_first()[k - 1]);
            }
        }
        j + 1
    } else {
        assert(s.subrange(0, s.len() as int) =~= s);
        0
    }
}

proof fn lemma_trim_end(s: Seq<char>) -> (j: int)
    ensures
        0 <= j <= s.len(),
        trim_end_spec(s) == s.subrange(0, j),
        forall|k: int| j <= k < s.len() ==> is_white_space(#[trigger] s[k]),
        j > 0 ==> !is_white_space(s[j - 1]),
    decreases s.len(),
{
    if s.len() > 0 && is_white_space(s.last()) {
        let j = lemma_trim_end(s.drop_last());
        assert(s.drop_last().subrange(0, j) =~= s.subrange(0, j));
        assert forall|k: int| j <= k < s.len() implies is_white_space(#[trigger] s[k]) by {
            if k < s.len() - 1 {
                assert(s[k] == s.drop_last()[k]);
            }
        }
        j
    } else {
        assert(s.subrange(0, s.len() as int) =~= s);
        s.len() as int
    }
}

/// Trimming keeps the part of `s` between leading and trailing white space:
/// it is `s[i..j]`, all of `s` before `i` and from `j` on is white space, and
/// the part starts and ends with a character that is not.
pub proof fn law_trim(s: Seq<char>) -> (r: (int, int))
    ensures
        0 <= r.0 <= r.1 <= s.len(),
        trim_spec(s) == s.subrange(r.0, r.1),
        forall|k: int| 0 <= k < r.0 ==> is_white_space(#[trigger] s[k]),
        forall|k: int| r.1 <= k < s.len() ==> is_white_space(#[trigger] s[k]),
        r.0 < r.1 ==> !is_white_space(s[r.0]) && !is_white_space(s[r.1 - 1]),
{
    let i = lemma_trim_start(s);
    let t = s.subrange(i, s.len() as int);
    let j = lemma_trim_end(t);
    assert(t.subrange(0, j) =~= s.subrange(i, i + j));
    assert forall|k: int| i + j <= k < s.len() implies is_white_space(#[trigger] s[k]) by {
        assert(s[k] == t[k - i]);
    }
    if j > 0 {
        assert(s[i] == t[0]);
        assert(s[i + j - 1] == t[j - 1]);
    }
    (i, i + j)
}

proof fn lemma_find_from(s: Seq<char>, pat: Seq<char>, start: int)
    requires
        0 <= start,
    ensures
        match find_from(s, pat, start) {
            Some(i) => start <= i && matches_at(s, pat, i) && forall|k: int|
                start <= k < i ==> !#[trigger] matches_at(s, pat, k),
            None => forall|k: int| start <= k ==> !#[trigger] matches_at(s, pat, k),
        },
    decreases s.len() - start,
{
    if start + pat.len() <= s.len() && !matches_at(s, pat, start) && start < s.len() {
        lemma_find_from(s, pat, start + 1);
    }
    if start + pat.len() <= s.len() && !matches_at(s, pat, start) && start >= s.len() {
        assert(pat.len() == 0);
        assert(s.subrange(start, start) =~= pat);
    }
}

/// Splitting at the first occurrence: on `Some((a, b))`, `s` is `a`, `pat`, `b`
/// in turn and `pat` occurs nowhere earlier; on `None`, `pat` occurs nowhere.
/// (`matches_at(s, pat, k)`: `s[k..k + pat.len()]` is `pat`.)
pub proof fn law_split_once(s: Seq<char>, pat: Seq<char>)
    ensures
        match split_once_spec(s, pat) {
            Some((a, b)) => s == a + pat + b && forall|k: int|
                0 <= k < a.len() ==> !#[trigger] matches_at(s, pat, k),
            None => forall|k: int| !#[trigger] matches_at(s, pat, k),
        },
{
    lemma_find_from(s, pat, 0);
    match find_from(s, pat, 0) {
        Some(i) => {
            assert(s =~= s.subrange(0, i) + s.subrange(i, i + pat.len()) + s.subrange(
                i + pat.len(),
                s.len() as int,
            ));
        },
        None => {},
    }
}

/// The characters of `s`, in order.
pub fn chars_of(s: &str) -> (v: Vec<char>)
    ensures
        v@ == s@,
{
    let mut v: Vec<char> = Vec::new();
    for c in it: s.chars()
        invariant
            v@ == it.seq().take(it.index() as int),
    {
        v.push(c);
    }
    v
}

/// Whether two strings hold the same characters.
pub fn str_eq(a: &str, b: &str) -> (r: bool)
    ensures
        r == (a@ == b@),
{
    let va = chars_of(a);
    let vb = chars_of(b);
    if va.len() != vb.len() {
        return false;
    }
    let n = va.len();
    let mut i: usize = 0;
    while i < n
        invariant
            n == va.len(),
            n == vb.len(),
            va@ == a@,
            vb@ == b@,
            i <= n,
            forall|j: int| 0 <= j < i ==> va@[j] == vb@[j],
        decreases n - i,
    {
        if va[i] != vb[i] {
            return false;
        }
        i = i + 1;
    }
    assert(a@ =~= b@);
    true
}

/// `s` without leading and trailing white space.
pub fn trim(s: &str) -> (r: &str)
    ensures
        r@ == trim_spec(s@),
{
    let v = chars_of(s);
    let n = v.len();
    let mut i: usize = 0;
    assert(s@.subrange(0, n as int) =~= s@);
    while i < n && is_whitespace(v[i])
        invariant
            n == v.len(),
            v@ == s@,
            i <= n,
            trim_start_spec(s@) == trim_start_spec(s@.subrange(i as int, n as int)),
        decreases n - i,
    {
        assert(s@.subrange(i as int, n as int).drop_first() =~= s@.subrange(i + 1, n as int));
        i = i + 1;
    }
    assert(trim_start_spec(s@) == s@.subrange(i as int, n as int));
    let mut j: usize = n;
    while j > i && is_whitespace(v[j - 1])
        invariant
            n == v.len(),
            v@ == s@,
            i <= j <= n,
            trim_spec(s@) == trim_end_spec(s@.subrange(i as int, j as int)),
        decreases j,
    {
        assert(s@.subrange(i as int, j as int).drop_last() =~= s@.subrange(i as int, j - 1));
        j = j - 1;
    }
    s.substring_char(i, j)
}

/// Whether `pat` occurs in `v` at position `start`.
fn matches_at_exec(v: &Vec<char>, p: &Vec<char>, start: usize) -> (r: bool)
    requires
        start + p.len() <= v.len(),
    ensures
        r == matches_at(v@, p@, start as int),
{
    let m = p.len();
    let mut k: usize = 0;
    while k < m
        invariant
            m == p.len(),
            start + m <= v.len(),
            k <= m,
            forall|j: int| 0 <= j < k ==> v@[start + j] == p@[j],
        decreases m - k,
    {
        if v[start + k] != p[k] {
            assert(v@.subrange(start as int, start + m)[k as int] != p@[k as int]);
            return false;
        }
        k = k + 1;
    }
    assert(v@.subrange(start as int, start + m) =~= p@);
    true
}

/// The parts of `s` before and after the first occurrence of `pat`.
pub fn split_once<'a>(s: &'a str, pat: &str) -> (r: Option<(&'a str, &'a str)>)
    ensures
        match split_once_spec(s@, pat@) {
            Some((before, after)) => r matches Some((b, a)) && b@ == before && a@ == after,
            None => r is None,
        },
{
    let v = chars_of(s);
    let p = chars_of(pat);
    let n = v.len();
    let m = p.len();
    if m > n {
        return None;
    }
    let lim = n - m;
    let mut start: usize = 0;
    while start <= lim
        invariant
            lim == n - m,
            v@ == s@,
            p@ == pat@,
            n == v.len(),
            m == p.len(),
            m <= n,
            start <= lim,
            find_from(s@, pat@, 0) == find_from(s@, pat@, start as int),
        decreases lim - start,
    {
        if matches_at_exec(&v, &p, start) {
            let before = s.substring_char(0, start);
            let after = s.substring_char(start + m, n);
            return Some((before, after));
        }
        if start == lim {
            assert(find_from(s@, pat@, start + 1) is None);
            return None;
        }
        start = start + 1;
    }
    None
}

/// The negation `¬p` of a proposition.
pub fn negate(p: &str) -> (r: String)
    ensures
        r@ == negation(p@),
{
    let prefix = "¬";
    proof {
        reveal_strlit("¬");
    }
    let mut r: String = prefix.to_owned();
    r.append(p);
    r
}

} // verus!
