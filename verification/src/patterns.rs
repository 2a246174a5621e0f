//! What patterns and attribute lines mean: laws of literal patterns, wild
//! cards, sets and directories, and of what a line assigns.
use vstd::prelude::*;
use crate::attributes::{
    applies, lfs, rule_of, said_by, white, word_end, words_from, FilterView, RuleView,
};
use crate::bytes::{find_byte, has_prefix, lemma_find_byte};
use crate::glob::{any_dirs, anything, close_of, glob_match, in_set, set_end};
use crate::path::base_name;
use crate::text::lossy;

verus! {

/// Whether bytes stand for themselves in a pattern.
pub open spec fn literal(p: Seq<u8>) -> bool {
    forall|i: int|
        0 <= i < p.len() ==> #[trigger] p[i] != 42 && p[i] != 63 && p[i] != 91 && p[i] != 92
}

/// A pattern without wild cards matches itself and nothing else.
pub proof fn law_a_literal_matches_itself(p: Seq<u8>, t: Seq<u8>, start: bool)
    requires
        literal(p),
    ensures
        glob_match(p, t, start) <==> t == p,
    decreases p.len(),
{
    if p.len() > 0 {
        assert(p[0] != 42);
        if t.len() > 0 {
            assert forall|i: int| 0 <= i < p.skip(1).len() implies #[trigger] p.skip(1)[i] != 42
                && p.skip(1)[i] != 63 && p.skip(1)[i] != 91 && p.skip(1)[i] != 92 by {
                assert(p.skip(1)[i] == p[i + 1]);
            }
            law_a_literal_matches_itself(p.skip(1), t.skip(1), t[0] == 47);
            if p[0] == t[0] && t.skip(1) == p.skip(1) {
                assert(p =~= seq![p[0]] + p.skip(1));
                assert(t =~= seq![t[0]] + t.skip(1));
            }
        }
    } else if t.len() == 0 {
        assert(t =~= p);
    }
}

/// A star and an ending match what ends so within one component.
pub proof fn law_a_star_matches_within_a_component(ending: Seq<u8>, t: Seq<u8>)
    requires
        literal(ending),
        ending.len() > 0,
    ensures
        glob_match(seq![42u8] + ending, t, true) <==> exists|head: Seq<u8>|
            t == #[trigger] (head + ending) && !head.contains(47u8),
{
    let p = seq![42u8] + ending;
    assert(p[1] == ending[0]);
    assert(p[1] != 42);
    lemma_star_then(ending, t);
    assert(glob_match(p, t, true) == glob_match(p, t, false)) by {
        assert(!anything(p));
        assert(!any_dirs(p));
    }
}

proof fn lemma_star_then(ending: Seq<u8>, t: Seq<u8>)
    requires
        literal(ending),
    ensures
        glob_match(seq![42u8] + ending, t, false) <==> exists|head: Seq<u8>|
            t == #[trigger] (head + ending) && !head.contains(47u8),
    decreases t.len(),
{
    let p = seq![42u8] + ending;
    assert(p.skip(1) =~= ending);
    law_a_literal_matches_itself(ending, t, false);
    if t == ending {
        let head = Seq::<u8>::empty();
        assert(t =~= head + ending);
    }
    if t.len() > 0 && t[0] != 47 {
        lemma_star_then(ending, t.skip(1));
        if glob_match(p, t.skip(1), false) {
            let less = choose|head: Seq<u8>|
                t.skip(1) == #[trigger] (head + ending) && !head.contains(47u8);
            let head = seq![t[0]] + less;
            assert(t =~= seq![t[0]] + t.skip(1));
            assert(head + ending =~= seq![t[0]] + (less + ending));
            assert(t == head + ending);
            if head.contains(47u8) {
                let k = choose|k: int| 0 <= k < head.len() && head[k] == 47;
                assert(less[k - 1] == 47);
            }
        }
    }
    if exists|head: Seq<u8>| t == #[trigger] (head + ending) && !head.contains(47u8) {
        let head = choose|head: Seq<u8>| t == #[trigger] (head + ending) && !head.contains(47u8);
        if head.len() == 0 {
            assert(t =~= ending);
        } else {
            assert(t[0] == head[0]);
            assert(head.contains(head[0]));
            let less = head.skip(1);
            assert(t.skip(1) =~= less + ending);
            if less.contains(47u8) {
                let k = choose|k: int| 0 <= k < less.len() && less[k] == 47;
                assert(head[k + 1] == 47);
            }
            assert(t.skip(1) == less + ending && !less.contains(47u8));
        }
    }
}

/// A question mark matches one byte that is no slash, and a byte behind a
/// backslash itself, whatever it is.
pub proof fn law_one_byte_is_matched(rest: Seq<u8>, c: u8, t: Seq<u8>)
    requires
        literal(rest),
    ensures
        glob_match(seq![63u8] + rest, t, true) <==> t.len() == 1 + rest.len() && t[0] != 47
            && t.skip(1) == rest,
        glob_match(seq![92u8, c] + rest, t, true) <==> t == seq![c] + rest,
{
    let p = seq![63u8] + rest;
    let q = seq![92u8, c] + rest;
    assert(p.skip(1) =~= rest);
    assert(q.skip(2) =~= rest);
    if t.len() > 0 {
        law_a_literal_matches_itself(rest, t.skip(1), false);
        law_a_literal_matches_itself(rest, t.skip(1), t[0] == 47);
        if t[0] == c && t.skip(1) == rest {
            assert(t =~= seq![c] + rest);
        }
        if t == seq![c] + rest {
            assert(t.skip(1) =~= rest);
        }
    }
}

/// A range in brackets matches one byte of it that is no slash; turned around,
/// one that is not of it.
pub proof fn law_a_range_matches_its_bytes(lo: u8, hi: u8, t: Seq<u8>)
    requires
        lo != 33,
        lo != 94,
        hi != 93,
    ensures
        glob_match(seq![91u8, lo, 45u8, hi, 93u8], t, true) <==> t.len() == 1 && t[0] != 47 && lo
            <= t[0] <= hi,
        glob_match(seq![91u8, 33u8, lo, 45u8, hi, 93u8], t, true) <==> t.len() == 1 && t[0] != 47
            && !(lo <= t[0] <= hi),
        glob_match(seq![91u8, 94u8, lo, 45u8, hi, 93u8], t, true) <==> t.len() == 1 && t[0] != 47
            && !(lo <= t[0] <= hi),
{
    let p = seq![91u8, lo, 45u8, hi, 93u8];
    let q = seq![91u8, 33u8, lo, 45u8, hi, 93u8];
    let r = seq![91u8, 94u8, lo, 45u8, hi, 93u8];
    reveal_with_fuel(set_end, 5);
    reveal_with_fuel(in_set, 3);
    assert(close_of(p) == 4);
    assert(close_of(q) == 5);
    assert(close_of(r) == 5);
    assert(p.skip(5) =~= Seq::<u8>::empty());
    assert(q.skip(6) =~= Seq::<u8>::empty());
    assert(r.skip(6) =~= Seq::<u8>::empty());
    if t.len() > 0 {
        law_a_literal_matches_itself(Seq::empty(), t.skip(1), false);
        if t.len() == 1 {
            assert(t.skip(1) =~= Seq::<u8>::empty());
        }
    }
}

/// Two stars before a slash match any number of directories: the rest is
/// matched at the start or behind any slash.
pub proof fn law_leading_stars_match_any_directories(rest: Seq<u8>, t: Seq<u8>)
    requires
        literal(rest),
        !rest.contains(47u8),
        rest.len() > 0,
    ensures
        glob_match(seq![42u8, 42u8, 47u8] + rest, t, true) <==> t == rest || exists|head: Seq<u8>|
            t == #[trigger] (head + seq![47u8] + rest),
    decreases t.len(),
{
    let p = seq![42u8, 42u8, 47u8] + rest;
    assert(p.skip(3) =~= rest);
    law_a_literal_matches_itself(rest, t, true);
    lemma_find_byte(t, 47, 0);
    let slash = find_byte(t, 47, 0) as int;
    if slash < t.len() {
        let below = t.skip(slash + 1);
        law_leading_stars_match_any_directories(rest, below);
        if below == rest {
            let head = t.take(slash);
            assert(t =~= head + seq![47u8] + rest);
        } else if exists|head: Seq<u8>| below == #[trigger] (head + seq![47u8] + rest) {
            let less = choose|head: Seq<u8>| below == #[trigger] (head + seq![47u8] + rest);
            let head = t.take(slash) + seq![47u8] + less;
            assert(t =~= t.take(slash) + seq![47u8] + below);
            assert(head + seq![47u8] + rest =~= t.take(slash) + seq![47u8] + (less + seq![47u8]
                + rest));
            assert(t == head + seq![47u8] + rest);
        }
    }
    if exists|head: Seq<u8>| t == #[trigger] (head + seq![47u8] + rest) {
        let head = choose|head: Seq<u8>| t == #[trigger] (head + seq![47u8] + rest);
        assert(t[head.len() as int] == 47);
        assert(slash <= head.len());
        let below = t.skip(slash + 1);
        if slash == head.len() {
            assert(below =~= rest);
        } else {
            let less = head.skip(slash + 1);
            assert(below =~= less + seq![47u8] + rest);
        }
    }
}

/// A directory and two stars match everything below it.
pub proof fn law_trailing_stars_match_everything_below(dir: Seq<u8>, t: Seq<u8>, start: bool)
    requires
        literal(dir),
    ensures
        glob_match(dir + seq![47u8, 42u8, 42u8], t, start) <==> has_prefix(t, dir + seq![47u8]),
    decreases dir.len(),
{
    let p = dir + seq![47u8, 42u8, 42u8];
    let q = dir + seq![47u8];
    if dir.len() == 0 {
        assert(p.skip(1) =~= seq![42u8, 42u8]);
        assert(p[0] == 47);
        if t.len() > 0 {
            assert(glob_match(p.skip(1), t.skip(1), true));
            if t[0] == 47 {
                assert(t.subrange(0, 1) =~= q);
            } else if has_prefix(t, q) {
                assert(t.subrange(0, 1)[0] == q[0]);
            }
        }
    } else {
        let less = dir.skip(1);
        assert(dir[0] != 42);
        assert(p[0] == dir[0]);
        assert(p.skip(1) =~= less + seq![47u8, 42u8, 42u8]);
        assert forall|i: int| 0 <= i < less.len() implies #[trigger] less[i] != 42 && less[i] != 63
            && less[i] != 91 && less[i] != 92 by {
            assert(less[i] == dir[i + 1]);
        }
        if t.len() > 0 {
            law_trailing_stars_match_everything_below(less, t.skip(1), t[0] == 47);
            let q1 = less + seq![47u8];
            if has_prefix(t, q) {
                assert(t.subrange(0, q.len() as int)[0] == q[0]);
                assert(t.skip(1).subrange(0, q1.len() as int) =~= t.subrange(
                    0,
                    q.len() as int,
                ).skip(1));
                assert(q.skip(1) =~= q1);
            }
            if p[0] == t[0] && has_prefix(t.skip(1), q1) {
                assert(q =~= seq![dir[0]] + q1);
                assert(t.subrange(0, q.len() as int) =~= seq![t[0]] + t.skip(1).subrange(
                    0,
                    q1.len() as int,
                ));
            }
        }
    }
}

// ---------------------------------------------------------------------------
// Attribute lines
// ---------------------------------------------------------------------------
/// Whether bytes are one word.
pub open spec fn one_word(w: Seq<u8>) -> bool {
    w.len() > 0 && forall|i: int| 0 <= i < w.len() ==> !white(#[trigger] w[i])
}

proof fn lemma_word_end(before: Seq<u8>, w: Seq<u8>, after: Seq<u8>, k: int)
    requires
        one_word(w),
        after.len() > 0 ==> white(after[0]),
        before.len() <= k <= before.len() + w.len(),
    ensures
        word_end(before + w + after, k) == before.len() + w.len(),
    decreases before.len() + w.len() - k,
{
    let s = before + w + after;
    if k < before.len() + w.len() {
        assert(s[k] == w[k - before.len()]);
        lemma_word_end(before, w, after, k + 1);
    } else if k < s.len() {
        assert(s[k] == after[0]);
    }
}

/// A line of two words is those two words.
proof fn lemma_two_words(a: Seq<u8>, b: Seq<u8>)
    requires
        one_word(a),
        one_word(b),
    ensures
        words_from(a + seq![32u8] + b, 0) == seq![a, b],
{
    let s = a + seq![32u8] + b;
    let none = Seq::<u8>::empty();
    assert(s =~= none + a + (seq![32u8] + b));
    lemma_word_end(none, a, seq![32u8] + b, 0);
    let m = a.len() as int;
    assert(s[0] == a[0]);
    assert(s.subrange(0, m) =~= a);
    assert(s[m] == 32);
    assert(s =~= (a + seq![32u8]) + b + none);
    lemma_word_end(a + seq![32u8], b, none, m + 1);
    assert(s[m + 1] == b[0]);
    assert(s.subrange(m + 1, s.len() as int) =~= b);
    assert(words_from(s, s.len() as int) =~= Seq::<Seq<u8>>::empty());
    assert(words_from(s, m + 1) =~= seq![b]);
    assert(words_from(s, m) == words_from(s, m + 1));
    assert(words_from(s, 0) =~= seq![a] + seq![b]);
    assert(seq![a] + seq![b] =~= seq![a, b]);
}

/// A line assigns what its word says to the paths that its pattern is about:
/// `filter`, `-filter`, `!filter` and `filter=value`. A word about something
/// else makes no rule.
pub proof fn law_a_line_assigns_what_it_says(pattern: Seq<u8>, word: Seq<u8>, value: Seq<u8>)
    requires
        one_word(pattern),
        one_word(word),
        pattern[0] != 35,
        pattern[0] != 33,
        pattern.last() != 47,
    ensures
        ({
            let name = seq![102u8, 105, 108, 116, 101, 114];
            let rule = rule_of(pattern + seq![32u8] + word);
            &&& word == name ==> (rule matches Some(r) && r.state is Plain)
            &&& word == seq![45u8] + name ==> (rule matches Some(r) && r.state is Unset)
            &&& word == seq![33u8] + name ==> (rule matches Some(r) && r.state is Unspecified)
            &&& word == name + seq![61u8] + value ==> (rule matches Some(r) && r.state
                == FilterView::Value(lossy(value)))
            &&& rule matches Some(r) ==> (r.basename_only <==> !pattern.contains(47u8))
                && r.pattern == (if pattern[0] == 47 {
                pattern.skip(1)
            } else {
                pattern
            })
            &&& rule is Some ==> word == name || word == seq![45u8] + name || word == seq![33u8]
                + name || has_prefix(word, name + seq![61u8])
        }),
{
    let name = seq![102u8, 105, 108, 116, 101, 114];
    let w = words_from(pattern + seq![32u8] + word, 0);
    lemma_two_words(pattern, word);
    assert(w[0] == pattern && w[1] == word);
    reveal_with_fuel(said_by, 3);
    assert(crate::attributes::filter_word() =~= name);
    assert(crate::attributes::filter_word().push(61u8) =~= name + seq![61u8]);
    let minus = seq![45u8] + name;
    let bang = seq![33u8] + name;
    assert(minus[0] == 45 && bang[0] == 33 && name[0] == 102);
    if word == name + seq![61u8] + value {
        assert(word.len() > name.len());
        assert(word[0] == 102);
        assert(word.subrange(0, 7) =~= name + seq![61u8]);
        assert(word.skip(7) =~= value);
    }
}

/// A rule is about a path when its pattern matches it: all of it where the
/// pattern has a slash, and its last component where it has none. Only
/// `filter=lfs` makes a large file.
pub proof fn law_a_rule_is_about_what_it_matches(rule: RuleView, path: Seq<u8>)
    ensures
        rule.basename_only ==> (applies(rule, path) <==> glob_match(
            rule.pattern,
            base_name(path),
            true,
        )),
        !rule.basename_only ==> (applies(rule, path) <==> glob_match(rule.pattern, path, true)),
        lfs(Some(rule.state)) <==> (rule.state matches FilterView::Value(v) && v == "lfs"@),
        !lfs(None),
{
}

} // verus!
