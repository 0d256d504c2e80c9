//! Character-level helpers: splitting on a separator, substring search, and
//! conversion between strings and character vectors.

use vstd::prelude::*;
use vstd::std_specs::iter::IteratorSpec;

verus! {

/// The views of a sequence of character vectors.
pub open spec fn char_views(v: Seq<Vec<char>>) -> Seq<Seq<char>> {
    v.map_values(|x: Vec<char>| x@)
}

/// The views of a sequence of strings.
pub open spec fn string_views(v: Seq<String>) -> Seq<Seq<char>> {
    v.map_values(|x: String| x@)
}

/// The fields of `s` between occurrences of `sep`, in order. There is always at
/// least one field; an empty `s` gives one empty field.
pub open spec fn split_on(s: Seq<char>, sep: char) -> Seq<Seq<char>>
    decreases s.len(),
{
    if s.len() == 0 {
        seq![Seq::<char>::empty()]
    } else {
        let p = split_on(s.drop_last(), sep);
        if s.last() == sep {
            p.push(Seq::<char>::empty())
        } else {
            p.update(p.len() - 1, p.last().push(s.last()))
        }
    }
}

/// `t` occurs in `s` as a contiguous run starting at position `k`.
pub open spec fn occurs_at(s: Seq<char>, t: Seq<char>, k: int) -> bool {
    0 <= k && k + t.len() <= s.len() && s.subrange(k, k + t.len()) == t
}

/// `t` is a substring of `s`.
pub open spec fn has_substring(s: Seq<char>, t: Seq<char>) -> bool {
    exists|k: int| occurs_at(s, t, k)
}

pub proof fn lemma_split_on_nonempty(s: Seq<char>, sep: char)
    ensures
        split_on(s, sep).len() >= 1,
    decreases s.len(),
{
    if s.len() > 0 {
        lemma_split_on_nonempty(s.drop_last(), sep);
    }
}

/// Appending characters that hold no separator extends the last field.
pub proof fn lemma_split_on_append(p: Seq<char>, s: Seq<char>, sep: char)
    requires
        !s.contains(sep),
    ensures
        split_on(p + s, sep) == split_on(p, sep).update(
            split_on(p, sep).len() - 1,
            split_on(p, sep).last() + s,
        ),
    decreases s.len(),
{
    lemma_split_on_nonempty(p, sep);
    let x = split_on(p, sep);
    if s.len() == 0 {
        assert(p + s =~= p);
        assert(x.last() + s =~= x.last());
        assert(x.update(x.len() - 1, x.last() + s) =~= x);
    } else {
        let s1 = s.drop_last();
        assert(!s1.contains(sep)) by {
            if s1.contains(sep) {
                let j = choose|j: int| 0 <= j < s1.len() && s1[j] == sep;
                assert(s[j] == sep);
            }
        }
        lemma_split_on_append(p, s1, sep);
        assert((p + s).drop_last() =~= p + s1);
        assert((p + s).last() == s.last());
        assert(s.contains(s.last()));
        assert((x.last() + s1).push(s.last()) =~= x.last() + s);
        assert(split_on(p + s, sep) =~= x.update(x.len() - 1, x.last() + s));
    }
}

/// The characters of `s`, in order.
pub(crate) fn chars_of(s: &str) -> (r: Vec<char>)
    ensures
        r@ == s@,
{
    broadcast use vstd::string::group_string_axioms;

    let mut it = s.chars();
    let mut r: Vec<char> = Vec::new();
    loop
        invariant
            r@ + it.remaining() == s@,
            it.decrease() is Some,
        ensures
            r@ == s@,
        decreases it.decrease()->0,
    {
        match it.next() {
            Some(c) => {
                r.push(c);
            },
            None => {
                assert(r@ =~= s@);
                break;
            },
        }
    }
    r
}

/// Whether `a` and `b` hold the same characters.
pub fn same_chars(a: &Vec<char>, b: &Vec<char>) -> (r: bool)
    ensures
        r == (a@ == b@),
{
    if a.len() != b.len() {
        return false;
    }
    let n = a.len();
    for i in 0..n
        invariant
            n == a@.len(),
            n == b@.len(),
            forall|k: int| 0 <= k < i ==> a@[k] == b@[k],
    {
        if a[i] != b[i] {
            return false;
        }
    }
    assert(a@ =~= b@);
    true
}

/// Relies on `String`'s `FromIterator<char>`: the string of the given characters.
#[verifier::external_body]
pub(crate) fn string_of(v: &Vec<char>) -> (r: String)
    ensures
        r@ == v@,
{
    v.iter().collect()
}

/// Splits `s` into the fields between occurrences of `sep`.
pub fn split_chars(s: &Vec<char>, sep: char) -> (r: Vec<Vec<char>>)
    ensures
        char_views(r@) == split_on(s@, sep),
{
    let mut parts: Vec<Vec<char>> = Vec::new();
    let mut cur: Vec<char> = Vec::new();
    let n = s.len();
    for i in 0..n
        invariant
            n == s@.len(),
            char_views(parts@).push(cur@) == split_on(s@.take(i as int), sep),
    {
        let c = s[i];
        proof {
            let t = s@.take(i as int + 1);
            assert(t.drop_last() =~= s@.take(i as int));
            assert(t.last() == c);
            lemma_split_on_nonempty(s@.take(i as int), sep);
        }
        if c == sep {
            let ghost before = char_views(parts@).push(cur@);
            parts.push(cur);
            cur = Vec::new();
            assert(char_views(parts@).push(cur@) =~= before.push(Seq::<char>::empty()));
        } else {
            let ghost before = char_views(parts@).push(cur@);
            cur.push(c);
            assert(char_views(parts@).push(cur@) =~= before.update(
                before.len() - 1,
                before.last().push(c),
            ));
        }
    }
    assert(s@.take(n as int) =~= s@);
    parts.push(cur);
    assert(char_views(parts@) =~= split_on(s@, sep));
    parts
}

/// Whether `t` occurs in `s` at position `k`.
fn matches_at(s: &Vec<char>, t: &Vec<char>, k: usize) -> (r: bool)
    requires
        k + t@.len() <= s@.len(),
    ensures
        r == occurs_at(s@, t@, k as int),
{
    let m = t.len();
    let n = s.len();
    let mut j: usize = 0;
    while j < m
        invariant
            m == t@.len(),
            n == s@.len(),
            k + m <= s@.len(),
            j <= m,
            forall|x: int| 0 <= x < j ==> s@[k + x] == t@[x],
        decreases m - j,
    {
        if s[k + j] != t[j] {
            assert(s@.subrange(k as int, k + m)[j as int] != t@[j as int]);
            return false;
        }
        j = j + 1;
    }
    assert(s@.subrange(k as int, k + m) =~= t@);
    true
}

/// Whether `t` is a substring of `s`.
pub fn contains_chars(s: &Vec<char>, t: &Vec<char>) -> (r: bool)
    ensures
        r == has_substring(s@, t@),
{
    if t.len() > s.len() {
        assert forall|k: int| !occurs_at(s@, t@, k) by {}
        return false;
    }
    let last = s.len() - t.len();
    let mut k: usize = 0;
    while k < last
        invariant
            k <= last,
            last + t@.len() == s@.len(),
            forall|x: int| 0 <= x < k ==> !occurs_at(s@, t@, x),
        decreases last - k,
    {
        if matches_at(s, t, k) {
            return true;
        }
        k = k + 1;
    }
    if matches_at(s, t, k) {
        return true;
    }
    assert forall|x: int| !occurs_at(s@, t@, x) by {
        if 0 <= x <= k {
        }
    }
    false
}

} // verus!
