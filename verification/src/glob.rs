//! Path patterns.
//!
//! `*` stands for any run of bytes of one component, `?` for one such byte,
//! `[..]` for one of a set, `**/` for any number of leading directories, and a
//! trailing `**` for everything below. A backslash takes the next byte as it
//! is.
use vstd::prelude::*;
use crate::bytes::{find_byte, position_from, sub_bytes};

verus! {

/// Where the members of a set begin: behind `[`, and behind a negation.
pub open spec fn set_start(p: Seq<u8>) -> int {
    if p.len() > 1 && (p[1] == 33 || p[1] == 94) {
        2
    } else {
        1
    }
}

/// Where the bracket that closes a set stands, from `k` on; the length of the
/// pattern when none does.
pub open spec fn set_end(p: Seq<u8>, k: int) -> int
    decreases p.len() - k,
{
    if k >= p.len() || k < 0 {
        p.len() as int
    } else if p[k] == 93 {
        k
    } else {
        set_end(p, k + 1)
    }
}

/// The closing bracket of the set a pattern begins with. A bracket that comes
/// first is a member.
pub open spec fn close_of(p: Seq<u8>) -> int {
    set_end(p, set_start(p) + 1)
}

/// Whether a byte is among the members from `k` to `end`; `a-z` is a range.
pub open spec fn in_set(p: Seq<u8>, k: int, end: int, b: u8) -> bool
    decreases end - k,
{
    if k >= end {
        false
    } else if k + 2 < end && p[k + 1] == 45 {
        (p[k] <= b && b <= p[k + 2]) || in_set(p, k + 3, end, b)
    } else {
        p[k] == b || in_set(p, k + 1, end, b)
    }
}

/// Whether a pattern begins with `**/`.
pub open spec fn any_dirs(p: Seq<u8>) -> bool {
    p.len() >= 3 && p[0] == 42 && p[1] == 42 && p[2] == 47
}

/// Whether a pattern is `**`.
pub open spec fn anything(p: Seq<u8>) -> bool {
    p.len() == 2 && p[0] == 42 && p[1] == 42
}

/// Whether a path matches a pattern; `start` tells that the pattern stands at
/// the start of a component.
pub open spec fn glob_match(p: Seq<u8>, t: Seq<u8>, start: bool) -> bool
    decreases p.len() + t.len(),
{
    if p.len() == 0 {
        t.len() == 0
    } else if start && anything(p) {
        true
    } else if start && any_dirs(p) {
        let slash = find_byte(t, 47, 0);
        glob_match(p.skip(3), t, true) || (slash < t.len() && glob_match(
            p,
            t.skip((slash + 1) as int),
            true,
        ))
    } else if p[0] == 42 {
        glob_match(p.skip(1), t, false) || (t.len() > 0 && t[0] != 47 && glob_match(
            p,
            t.skip(1),
            false,
        ))
    } else if t.len() == 0 {
        false
    } else if p[0] == 63 {
        t[0] != 47 && glob_match(p.skip(1), t.skip(1), false)
    } else if p[0] == 91 && 0 < close_of(p) < p.len() {
        t[0] != 47 && in_set(p, set_start(p), close_of(p), t[0]) != (set_start(p) == 2)
            && glob_match(p.skip(close_of(p) + 1), t.skip(1), false)
    } else if p[0] == 92 && p.len() > 1 {
        p[1] == t[0] && glob_match(p.skip(2), t.skip(1), t[0] == 47)
    } else {
        p[0] == t[0] && glob_match(p.skip(1), t.skip(1), t[0] == 47)
    }
}

proof fn lemma_skip(s: Seq<u8>, a: int, b: int)
    requires
        0 <= a,
        0 <= b,
        a + b <= s.len(),
    ensures
        s.skip(a).skip(b) == s.skip(a + b),
        s.skip(a).len() == s.len() - a,
{
    assert(s.skip(a).skip(b) =~= s.skip(a + b));
}

proof fn lemma_find_shift(s: Seq<u8>, needle: u8, a: nat, from: nat)
    requires
        a + from <= s.len(),
    ensures
        find_byte(s.skip(a as int), needle, from) + a == find_byte(s, needle, a + from),
    decreases s.len() - a - from,
{
    if a + from < s.len() && s[(a + from) as int] != needle {
        lemma_find_shift(s, needle, a, from + 1);
    }
}

proof fn lemma_set_end(p: Seq<u8>, a: int, k: int)
    requires
        0 <= a <= p.len(),
        0 <= k,
    ensures
        a + k <= p.len() ==> set_end(p.skip(a), k) + a == set_end(p, a + k),
        set_end(p, k) <= p.len(),
        k <= p.len() ==> k <= set_end(p, k),
    decreases p.len() - k,
{
    if k < p.len() && p[k] != 93 {
        lemma_set_end(p, a, k + 1);
    }
    if a + k < p.len() && p.skip(a)[k] != 93 {
        lemma_set_end(p, a, k + 1);
    }
}

fn find_close(p: &[u8], i: usize, k: usize) -> (res: usize)
    requires
        i <= p@.len(),
        i + k <= p@.len(),
    ensures
        res == set_end(p@.skip(i as int), k as int) + i,
        i + k <= res <= p@.len(),
{
    let n = p.len();
    let mut j: usize = i + k;
    while j < n
        invariant
            n == p@.len(),
            i <= p@.len(),
            i + k <= j <= p@.len(),
            set_end(p@.skip(i as int), k as int) == set_end(p@.skip(i as int), j - i),
        decreases n - j,
    {
        assert(p@.skip(i as int)[j - i] == p@[j as int]);
        if p[j] == 93 {
            return j;
        }
        j = j + 1;
    }
    j
}

fn member(p: &[u8], i: usize, k: usize, end: usize, b: u8) -> (res: bool)
    requires
        i <= k,
        end <= p@.len(),
        i <= end,
    ensures
        res == in_set(p@.skip(i as int), k - i, end - i, b),
    decreases end - k,
{
    if k >= end {
        return false;
    }
    assert(p@.skip(i as int)[k - i] == p@[k as int]);
    if end - k > 2 && p[k + 1] == 45 {
        assert(p@.skip(i as int)[k - i + 2] == p@[k + 2]);
        assert(p@.skip(i as int)[k - i + 1] == p@[k + 1]);
        if p[k] <= b && b <= p[k + 2] {
            return true;
        }
        return member(p, i, k + 3, end, b);
    }
    if end - k > 2 {
        assert(p@.skip(i as int)[k - i + 1] == p@[k + 1]);
    }
    if p[k] == b {
        return true;
    }
    member(p, i, k + 1, end, b)
}

fn matches_at(p: &[u8], i: usize, t: &[u8], j: usize, start: bool) -> (res: bool)
    requires
        i <= p@.len(),
        j <= t@.len(),
    ensures
        res == glob_match(p@.skip(i as int), t@.skip(j as int), start),
    decreases p@.len() - i + t@.len() - j,
{
    let ghost ps = p@.skip(i as int);
    let ghost ts = t@.skip(j as int);
    if i == p.len() {
        return j == t.len();
    }
    let left = p.len() - i;
    assert(ps[0] == p@[i as int]);
    assert(left >= 2 ==> ps[1] == p@[i + 1]);
    assert(left >= 3 ==> ps[2] == p@[i + 2]);
    if start && left == 2 && p[i] == 42 && p[i + 1] == 42 {
        return true;
    }
    if start && left >= 3 && p[i] == 42 && p[i + 1] == 42 && p[i + 2] == 47 {
        proof {
            lemma_skip(p@, i as int, 3);
            lemma_find_shift(t@, 47, j as nat, 0);
        }
        if matches_at(p, i + 3, t, j, true) {
            return true;
        }
        let slash = position_from(t, 47, j);
        if slash < t.len() {
            proof {
                lemma_skip(t@, j as int, slash - j + 1);
            }
            return matches_at(p, i, t, slash + 1, true);
        }
        return false;
    }
    proof {
        lemma_skip(p@, i as int, 1);
        if j < t@.len() {
            lemma_skip(t@, j as int, 1);
            assert(ts[0] == t@[j as int]);
        }
    }
    if p[i] == 42 {
        if matches_at(p, i + 1, t, j, false) {
            return true;
        }
        if j < t.len() && t[j] != 47 {
            return matches_at(p, i, t, j + 1, false);
        }
        return false;
    }
    if j == t.len() {
        return false;
    }
    if p[i] == 63 {
        return t[j] != 47 && matches_at(p, i + 1, t, j + 1, false);
    }
    if p[i] == 91 {
        let negated = left > 1 && (p[i + 1] == 33 || p[i + 1] == 94);
        let from: usize = if negated {
            2
        } else {
            1
        };
        assert(from == set_start(ps));
        let close = if left > from {
            find_close(p, i, from + 1)
        } else {
            p.len()
        };
        assert(close - i == close_of(ps)) by {
            if left <= from {
                lemma_set_end(ps, 0, from + 1);
            }
        }
        if close < p.len() {
            proof {
                lemma_skip(p@, i as int, close - i + 1);
            }
            return t[j] != 47 && member(p, i, i + from, close, t[j]) != negated && matches_at(
                p,
                close + 1,
                t,
                j + 1,
                false,
            );
        }
    }
    if p[i] == 92 && left > 1 {
        proof {
            lemma_skip(p@, i as int, 2);
        }
        return p[i + 1] == t[j] && matches_at(p, i + 2, t, j + 1, t[j] == 47);
    }
    p[i] == t[j] && matches_at(p, i + 1, t, j + 1, t[j] == 47)
}

/// The pattern without a leading slash, which only anchors it.
pub open spec fn unanchored(pattern: Seq<u8>) -> Seq<u8> {
    if pattern.len() > 0 && pattern[0] == 47 {
        pattern.skip(1)
    } else {
        pattern
    }
}

/// A path pattern.
#[derive(Debug)]
pub struct Glob {
    pattern: Vec<u8>,
}

impl Glob {
    /// The pattern's bytes.
    pub closed spec fn view(&self) -> Seq<u8> {
        self.pattern@
    }

    /// A pattern as it is written; a leading slash only anchors it.
    pub fn from_bytes(pattern: &[u8]) -> (res: Glob)
        ensures
            res@ == unanchored(pattern@),
    {
        let from: usize = if pattern.len() > 0 && pattern[0] == 47 {
            1
        } else {
            0
        };
        let bytes = sub_bytes(pattern, from, pattern.len());
        assert(bytes@ =~= unanchored(pattern@));
        Glob { pattern: bytes }
    }

    /// Whether a path matches.
    pub fn matches(&self, path: &[u8]) -> (res: bool)
        ensures
            res == glob_match(self@, path@, true),
    {
        assert(self.pattern@.skip(0) =~= self.pattern@);
        assert(path@.skip(0) =~= path@);
        matches_at(self.pattern.as_slice(), 0, path, 0, true)
    }
}

/// A `*` never crosses a slash: what it matches lies within one component.
pub proof fn law_a_star_stays_in_its_component(t: Seq<u8>)
    ensures
        glob_match(seq![42u8], t, true) <==> !t.contains(47u8),
    decreases t.len(),
{
    lemma_star(t, true);
}

proof fn lemma_star(t: Seq<u8>, start: bool)
    ensures
        glob_match(seq![42u8], t, start) <==> !t.contains(47u8),
    decreases t.len(),
{
    let p = seq![42u8];
    assert(p.skip(1) =~= Seq::<u8>::empty());
    assert(glob_match(Seq::<u8>::empty(), t, false) == (t.len() == 0));
    if t.len() > 0 {
        lemma_star(t.skip(1), false);
        if t[0] != 47 {
            if t.contains(47u8) {
                let k = choose|k: int| 0 <= k < t.len() && t[k] == 47;
                assert(t.skip(1)[k - 1] == 47);
            }
            if t.skip(1).contains(47u8) {
                let k = choose|k: int| 0 <= k < t.skip(1).len() && t.skip(1)[k] == 47;
                assert(t[k + 1] == 47);
            }
        } else {
            assert(t.contains(t[0]));
        }
    }
}

} // verus!
