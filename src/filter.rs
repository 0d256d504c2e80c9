//! Filtering of history lines by a multi-term query.

use vstd::prelude::*;
use itertools::Itertools;
use crate::command::{command_of, extract_command};
use crate::text::{
    char_views, chars_of, contains_chars, has_substring, lemma_split_on_append, occurs_at,
    split_chars, split_on, string_views,
};

verus! {

/// The separator between the terms of a query.
pub const TERM_SEP: char = '&';

/// The terms of a query: its fields between `&`.
pub open spec fn terms_of(query: Seq<char>) -> Seq<Seq<char>> {
    split_on(query, TERM_SEP)
}

/// `line` holds every one of `terms` as a substring.
pub open spec fn holds_all(line: Seq<char>, terms: Seq<Seq<char>>) -> bool {
    forall|i: int| 0 <= i < terms.len() ==> has_substring(line, #[trigger] terms[i])
}

/// A line matches a query when it holds every term of the query as a substring.
pub open spec fn line_matches(line: Seq<char>, query: Seq<char>) -> bool {
    holds_all(line, terms_of(query))
}

/// The commands of the non-empty lines of `history` that match `query`, most
/// recent (last) line first, duplicates kept.
pub open spec fn matching_commands(history: Seq<Seq<char>>, query: Seq<char>) -> Seq<Seq<char>>
    decreases history.len(),
{
    if history.len() == 0 {
        Seq::empty()
    } else {
        let line = history.last();
        let rest = matching_commands(history.drop_last(), query);
        if line.len() > 0 && line_matches(line, query) {
            seq![command_of(line)] + rest
        } else {
            rest
        }
    }
}

/// The commands of all non-empty lines of `history`, most recent first.
pub open spec fn recent_commands(history: Seq<Seq<char>>) -> Seq<Seq<char>>
    decreases history.len(),
{
    if history.len() == 0 {
        Seq::empty()
    } else {
        let line = history.last();
        let rest = recent_commands(history.drop_last());
        if line.len() > 0 {
            seq![command_of(line)] + rest
        } else {
            rest
        }
    }
}

/// `s` with every element after its first occurrence removed; order is kept.
pub open spec fn dedup(s: Seq<Seq<char>>) -> Seq<Seq<char>>
    decreases s.len(),
{
    if s.len() == 0 {
        s
    } else {
        let d = dedup(s.drop_last());
        if s.drop_last().contains(s.last()) {
            d
        } else {
            d.push(s.last())
        }
    }
}

/// The result list for `query` over `history`: the matching commands, most
/// recent first, each command once (at its most recent place). A line that ends
/// in `;` has the empty command, which is listed like any other.
pub open spec fn filter_results(history: Seq<Seq<char>>, query: Seq<char>) -> Seq<Seq<char>> {
    dedup(matching_commands(history, query))
}

/// Every line holds the empty string as a substring.
proof fn lemma_empty_substring(line: Seq<char>)
    ensures
        has_substring(line, Seq::<char>::empty()),
{
    assert(line.subrange(0, 0) =~= Seq::<char>::empty());
    assert(occurs_at(line, Seq::<char>::empty(), 0));
}

/// Filtering with the empty query lists the command of every non-empty line,
/// most recent first, each command once.
pub proof fn lemma_empty_query_lists_all(history: Seq<Seq<char>>)
    ensures
        filter_results(history, Seq::<char>::empty()) == dedup(recent_commands(history)),
{
    lemma_empty_query_matches(history);
}

proof fn lemma_empty_query_matches(history: Seq<Seq<char>>)
    ensures
        matching_commands(history, Seq::<char>::empty()) == recent_commands(history),
    decreases history.len(),
{
    if history.len() > 0 {
        lemma_empty_query_matches(history.drop_last());
        let e = Seq::<char>::empty();
        assert(terms_of(e) =~= seq![e]);
        lemma_empty_substring(history.last());
        assert(line_matches(history.last(), e));
    }
}

/// For terms `a` and `b` free of `&`, a line matches the query `a&b` exactly
/// when it holds both `a` and `b` as substrings.
pub proof fn lemma_two_terms(line: Seq<char>, a: Seq<char>, b: Seq<char>)
    requires
        !a.contains(TERM_SEP),
        !b.contains(TERM_SEP),
    ensures
        line_matches(line, a + seq![TERM_SEP] + b) <==> (has_substring(line, a)
            && has_substring(line, b)),
{
    let e = Seq::<char>::empty();
    lemma_split_on_append(e, a, TERM_SEP);
    assert(e + a =~= a);
    assert(split_on(a, TERM_SEP) =~= seq![a]);
    let a1 = a + seq![TERM_SEP];
    assert(a1.drop_last() =~= a);
    assert(split_on(a1, TERM_SEP) =~= seq![a, e]);
    lemma_split_on_append(a1, b, TERM_SEP);
    assert(e + b =~= b);
    assert(terms_of(a1 + b) =~= seq![a, b]);
    if has_substring(line, a) && has_substring(line, b) {
        assert(holds_all(line, seq![a, b]));
    }
    if holds_all(line, seq![a, b]) {
        assert(seq![a, b][0] == a);
        assert(seq![a, b][1] == b);
    }
}

/// In `s`, `a` occurs before every occurrence of `b`.
pub open spec fn occurs_before(s: Seq<Seq<char>>, a: Seq<char>, b: Seq<char>) -> bool {
    forall|q: int|
        0 <= q < s.len() && #[trigger] s[q] == b ==> exists|p: int| 0 <= p < q && #[trigger] s[p] == a
}

/// `dedup(s)` holds each value of `s` exactly once, and in the order in which
/// the values first occur in `s`.
pub proof fn lemma_dedup_props(s: Seq<Seq<char>>)
    ensures
        forall|i: int, j: int|
            0 <= i < j < dedup(s).len() ==> #[trigger] dedup(s)[i] != #[trigger] dedup(s)[j],
        forall|x: Seq<char>| dedup(s).contains(x) <==> s.contains(x),
        forall|i: int, j: int|
            0 <= i < j < dedup(s).len() ==> occurs_before(
                s,
                #[trigger] dedup(s)[i],
                #[trigger] dedup(s)[j],
            ),
    decreases s.len(),
{
    if s.len() > 0 {
        let s1 = s.drop_last();
        let d1 = dedup(s1);
        let x = s.last();
        lemma_dedup_props(s1);
        let d = dedup(s);
        assert forall|y: Seq<char>| d.contains(y) <==> s.contains(y) by {
            if s.contains(y) {
                let k = choose|k: int| 0 <= k < s.len() && s[k] == y;
                if k < s1.len() {
                    assert(s1[k] == y);
                    assert(s1.contains(y));
                    assert(d1.contains(y));
                    let m = choose|m: int| 0 <= m < d1.len() && d1[m] == y;
                    assert(d[m] == y);
                } else if !s1.contains(x) {
                    assert(d[d.len() - 1] == y);
                }
            }
            if d.contains(y) {
                let m = choose|m: int| 0 <= m < d.len() && d[m] == y;
                if m < d1.len() {
                    assert(d1[m] == y);
                    assert(s1.contains(y));
                    let k = choose|k: int| 0 <= k < s1.len() && s1[k] == y;
                    assert(s[k] == y);
                } else {
                    assert(s[s.len() - 1] == y);
                }
            }
        }
        assert forall|i: int, j: int| 0 <= i < j < d.len() implies d[i] != d[j] by {
            if j == d1.len() {
                assert(d1.contains(d[i]));
                assert(s1.contains(d[i]));
            }
        }
        assert forall|i: int, j: int| 0 <= i < j < d.len() implies occurs_before(
            s,
            #[trigger] d[i],
            #[trigger] d[j],
        ) by {
            assert forall|q: int| 0 <= q < s.len() && #[trigger] s[q] == d[j] implies exists|p: int|
                0 <= p < q && #[trigger] s[p] == d[i] by {
                if j < d1.len() {
                    if q < s1.len() {
                        assert(s1[q] == d1[j]);
                        let p = choose|p: int| 0 <= p < q && s1[p] == #[trigger] d1[i];
                        assert(s[p] == d[i]);
                    } else {
                        assert(d1.contains(d1[j]));
                        assert(s1.contains(d1[j]));
                        let q1 = choose|q1: int| 0 <= q1 < s1.len() && s1[q1] == d1[j];
                        assert(s1[q1] == d1[j]);
                        let p = choose|p: int| 0 <= p < q1 && s1[p] == #[trigger] d1[i];
                        assert(s[p] == d[i]);
                    }
                } else {
                    assert(d[j] == x);
                    assert(!s1.contains(x));
                    if q < s1.len() {
                        assert(s1[q] == x);
                    }
                    assert(d1.contains(d[i]));
                    assert(s1.contains(d[i]));
                    let p = choose|p: int| 0 <= p < s1.len() && s1[p] == d[i];
                    assert(s[p] == d[i]);
                }
            }
        }
    }
}

/// A command is among the recent commands exactly when some non-empty line of
/// the history has it.
pub proof fn lemma_recent_commands_members(history: Seq<Seq<char>>, c: Seq<char>)
    ensures
        recent_commands(history).contains(c) <==> exists|p: int|
            0 <= p < history.len() && (#[trigger] history[p]).len() > 0 && command_of(history[p]) == c,
    decreases history.len(),
{
    if history.len() > 0 {
        let h1 = history.drop_last();
        let r1 = recent_commands(h1);
        lemma_recent_commands_members(h1, c);
        let line = history.last();
        let r = recent_commands(history);
        if r.contains(c) {
            let m = choose|m: int| 0 <= m < r.len() && r[m] == c;
            if line.len() > 0 && m == 0 {
                assert(history[history.len() - 1] == line);
            } else {
                let m1 = if line.len() > 0 { m - 1 } else { m };
                assert(r1[m1] == c);
                let p = choose|p: int| 0 <= p < h1.len() && (#[trigger] h1[p]).len() > 0 && command_of(h1[p]) == c;
                assert(history[p] == h1[p]);
            }
        }
        if exists|p: int| 0 <= p < history.len() && (#[trigger] history[p]).len() > 0 && command_of(history[p]) == c {
            let p = choose|p: int| 0 <= p < history.len() && (#[trigger] history[p]).len() > 0 && command_of(history[p]) == c;
            if p == history.len() - 1 {
                assert(r[0] == c);
            } else {
                assert(h1[p] == history[p]);
                assert(r1.contains(c));
                let m = choose|m: int| 0 <= m < r1.len() && r1[m] == c;
                if line.len() > 0 {
                    assert(r[m + 1] == c);
                } else {
                    assert(r[m] == c);
                }
            }
        }
    }
}

/// Every non-empty line of `history` with command `b` has a later non-empty
/// line with command `a`: `a` was used more recently than `b`.
pub open spec fn used_after(history: Seq<Seq<char>>, a: Seq<char>, b: Seq<char>) -> bool {
    forall|q: int|
        0 <= q < history.len() && (#[trigger] history[q]).len() > 0 && command_of(history[q]) == b
            ==> exists|p: int|
            q < p < history.len() && (#[trigger] history[p]).len() > 0 && command_of(history[p])
                == a
}

/// Order in `recent_commands` is order of most recent use in the history.
pub proof fn lemma_recent_order(history: Seq<Seq<char>>, a: Seq<char>, b: Seq<char>)
    requires
        occurs_before(recent_commands(history), a, b),
    ensures
        used_after(history, a, b),
    decreases history.len(),
{
    if history.len() > 0 {
        let h1 = history.drop_last();
        let rc = recent_commands(history);
        let rc1 = recent_commands(h1);
        let line = history.last();
        let n = history.len() - 1;
        let fresh = line.len() > 0 && command_of(line) == a;
        if !fresh {
            assert(occurs_before(rc1, a, b)) by {
                assert forall|q: int| 0 <= q < rc1.len() && #[trigger] rc1[q] == b implies exists|p: int|
                    0 <= p < q && #[trigger] rc1[p] == a by {
                    let k = if line.len() > 0 { q + 1 } else { q };
                    assert(rc[k] == b);
                    let p = choose|p: int| 0 <= p < k && #[trigger] rc[p] == a;
                    if line.len() > 0 {
                        assert(p != 0);
                        assert(rc1[p - 1] == a);
                    } else {
                        assert(rc1[p] == a);
                    }
                }
            }
            lemma_recent_order(h1, a, b);
        }
        assert forall|q: int|
            0 <= q < history.len() && (#[trigger] history[q]).len() > 0 && command_of(history[q]) == b
            implies exists|p: int|
            q < p < history.len() && (#[trigger] history[p]).len() > 0 && command_of(history[p]) == a by {
            if q == n {
                assert(rc[0] == b);
                assert(!(exists|p: int| 0 <= p < 0 && #[trigger] rc[p] == a));
            } else if fresh {
                assert(history[n] == line);
            } else {
                assert(h1[q] == history[q]);
                let p = choose|p: int| q < p < h1.len() && (#[trigger] h1[p]).len() > 0 && command_of(h1[p]) == a;
                assert(history[p] == h1[p]);
            }
        }
    }
}

/// With the empty query the result list holds each command of a non-empty line
/// exactly once, no other value, and lists commands in the order of their most
/// recent use.
pub proof fn lemma_empty_query_results(history: Seq<Seq<char>>)
    ensures
        ({
            let d = filter_results(history, Seq::<char>::empty());
            let rc = recent_commands(history);
            &&& forall|i: int, j: int| 0 <= i < j < d.len() ==> #[trigger] d[i] != #[trigger] d[j]
            &&& forall|c: Seq<char>|
                d.contains(c) <==> exists|p: int|
                    0 <= p < history.len() && (#[trigger] history[p]).len() > 0 && command_of(
                        history[p],
                    ) == c
            &&& forall|i: int, j: int|
                0 <= i < j < d.len() ==> occurs_before(rc, #[trigger] d[i], #[trigger] d[j])
            &&& forall|i: int, j: int|
                0 <= i < j < d.len() ==> used_after(history, #[trigger] d[i], #[trigger] d[j])
        }),
{
    lemma_empty_query_lists_all(history);
    lemma_dedup_props(recent_commands(history));
    assert forall|c: Seq<char>|
        filter_results(history, Seq::<char>::empty()).contains(c) <==> exists|p: int|
            0 <= p < history.len() && (#[trigger] history[p]).len() > 0 && command_of(history[p]) == c by {
        lemma_recent_commands_members(history, c);
    }
    let d = filter_results(history, Seq::<char>::empty());
    assert forall|i: int, j: int| 0 <= i < j < d.len() implies used_after(
        history,
        #[trigger] d[i],
        #[trigger] d[j],
    ) by {
        lemma_recent_order(history, d[i], d[j]);
    }
}

/// Relies on `Itertools::unique`: the first occurrence of each value is kept,
/// in the order of the input.
#[verifier::external_body]
fn unique_strings(v: Vec<String>) -> (r: Vec<String>)
    ensures
        string_views(r@) == dedup(string_views(v@)),
{
    v.into_iter().unique().collect()
}

/// Whether `line` holds every term of `terms` as a substring.
fn holds_all_terms(line: &Vec<char>, terms: &Vec<Vec<char>>) -> (r: bool)
    ensures
        r == holds_all(line@, char_views(terms@)),
{
    assert(forall|i: int| 0 <= i < terms@.len() ==> #[trigger] terms@[i]@ == char_views(terms@)[i]);
    let mut i: usize = 0;
    while i < terms.len()
        invariant
            i <= terms@.len(),
            forall|x: int| 0 <= x < i ==> has_substring(line@, #[trigger] char_views(terms@)[x]),
        decreases terms@.len() - i,
    {
        assert(terms@[i as int]@ == char_views(terms@)[i as int]);
        if !contains_chars(line, &terms[i]) {
            return false;
        }
        i = i + 1;
    }
    true
}

/// Whether `line` matches `query` (see [`line_matches`]).
pub fn matches_query(line: &str, query: &str) -> (r: bool)
    ensures
        r == line_matches(line@, query@),
{
    let terms = split_chars(&chars_of(query), TERM_SEP);
    let cs = chars_of(line);
    holds_all_terms(&cs, &terms)
}

/// The result list for `query` over `history` (oldest line first).
pub fn filter_history(history: &Vec<String>, query: &str) -> (r: Vec<String>)
    ensures
        string_views(r@) == filter_results(string_views(history@), query@),
{
    let terms = split_chars(&chars_of(query), TERM_SEP);
    let ghost h = string_views(history@);
    assert(h.take(history@.len() as int) =~= h);
    let mut found: Vec<String> = Vec::new();
    assert(string_views(found@) =~= Seq::<Seq<char>>::empty());
    let mut i: usize = history.len();
    while i > 0
        invariant
            i <= history@.len(),
            h == string_views(history@),
            char_views(terms@) == terms_of(query@),
            string_views(found@) + matching_commands(h.take(i as int), query@)
                == matching_commands(h, query@),
        decreases i,
    {
        i = i - 1;
        let ghost pre = h.take(i as int + 1);
        assert(pre.drop_last() =~= h.take(i as int));
        assert(pre.last() == history@[i as int]@);
        let line = &history[i];
        let cs = chars_of(line.as_str());
        if cs.len() > 0 && holds_all_terms(&cs, &terms) {
            let cmd = extract_command(line.as_str());
            let ghost before = string_views(found@);
            found.push(cmd);
            assert(string_views(found@) =~= before.push(cmd@));
            assert(string_views(found@) + matching_commands(h.take(i as int), query@) =~= before
                + matching_commands(pre, query@));
        } else {
            assert(!(pre.last().len() > 0 && line_matches(pre.last(), query@)));
        }
    }
    assert(h.take(0) =~= Seq::<Seq<char>>::empty());
    assert(string_views(found@) =~= matching_commands(h, query@));
    unique_strings(found)
}

} // verus!
