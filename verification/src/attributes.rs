//! `.gitattributes` resolution for the `filter` attribute.
//!
//! One question is answered: does a path carry `filter=lfs`? Deeper files
//! override shallower ones, and the last matching line of a file wins. Macros,
//! quoted patterns and the global files are out of scope.
use std::sync::Arc;
use vstd::prelude::*;
use crate::bytes::{
    bytes_eq, find_byte, has_prefix, lemma_find_byte, lemma_split_joined, position_from,
    split_bytes, split_on, starts_with, sub_bytes, views,
};
use crate::glob::{glob_match, unanchored, Glob};
use crate::path::base_name;
use crate::text::{lossy, lossy_text};

verus! {

/// The resolved state of the `filter` attribute for one path.
#[derive(Debug, PartialEq, Eq)]
pub enum FilterState {
    /// `filter`, with no value.
    Plain,
    /// `-filter`.
    Unset,
    /// `!filter`: forced back to unspecified.
    Unspecified,
    /// `filter=value`.
    Value(String),
}

/// What a [`FilterState`] denotes.
pub enum FilterView {
    Plain,
    Unset,
    Unspecified,
    Value(Seq<char>),
}

impl View for FilterState {
    type V = FilterView;

    open spec fn view(&self) -> FilterView {
        match *self {
            FilterState::Plain => FilterView::Plain,
            FilterState::Unset => FilterView::Unset,
            FilterState::Unspecified => FilterView::Unspecified,
            FilterState::Value(v) => FilterView::Value(v@),
        }
    }
}

/// Whether a byte is ASCII white space.
pub open spec fn white(b: u8) -> bool {
    b == 32 || b == 9 || b == 10 || b == 12 || b == 13
}

fn is_white(b: u8) -> (res: bool)
    ensures
        res == white(b),
{
    b == 32 || b == 9 || b == 10 || b == 12 || b == 13
}

/// Where the first white space stands from `k` on; the length when none does.
pub open spec fn word_end(s: Seq<u8>, k: int) -> int
    decreases s.len() - k,
{
    if k >= s.len() || k < 0 {
        s.len() as int
    } else if white(s[k]) {
        k
    } else {
        word_end(s, k + 1)
    }
}

/// The words of a line from `k` on: its parts between white space.
pub open spec fn words_from(s: Seq<u8>, k: int) -> Seq<Seq<u8>>
    decreases s.len() - k,
{
    if k >= s.len() || k < 0 {
        Seq::empty()
    } else if white(s[k]) {
        words_from(s, k + 1)
    } else {
        let end = word_end(s, k);
        if k < end <= s.len() {
            seq![s.subrange(k, end)] + words_from(s, end)
        } else {
            Seq::empty()
        }
    }
}

proof fn lemma_word_end(s: Seq<u8>, k: int)
    requires
        0 <= k <= s.len(),
    ensures
        k <= word_end(s, k) <= s.len(),
        k < s.len() && !white(s[k]) ==> k < word_end(s, k),
    decreases s.len() - k,
{
    if k < s.len() && !white(s[k]) {
        lemma_word_end(s, k + 1);
    }
}

fn words(line: &[u8]) -> (res: Vec<Vec<u8>>)
    ensures
        views(res@) == words_from(line@, 0),
{
    let n = line.len();
    let mut out: Vec<Vec<u8>> = Vec::new();
    let mut k: usize = 0;
    assert(views(out@) + words_from(line@, 0) =~= words_from(line@, 0));
    while k < n
        invariant
            n == line@.len(),
            k <= n,
            views(out@) + words_from(line@, k as int) == words_from(line@, 0),
        decreases n - k,
    {
        if is_white(line[k]) {
            k = k + 1;
        } else {
            let start = k;
            while k < n && !is_white(line[k])
                invariant
                    n == line@.len(),
                    start <= k <= n,
                    word_end(line@, start as int) == word_end(line@, k as int),
                decreases n - k,
            {
                k = k + 1;
            }
            assert(word_end(line@, k as int) == k);
            proof {
                lemma_word_end(line@, start as int);
            }
            let ghost before = out@;
            let word = sub_bytes(line, start, k);
            out.push(word);
            proof {
                let rest = words_from(line@, k as int);
                assert(words_from(line@, start as int) == seq![word@] + rest);
                assert(views(out@) =~= views(before).push(word@));
                assert(views(before) + (seq![word@] + rest) =~= views(out@) + rest);
            }
        }
    }
    assert(views(out@) + words_from(line@, k as int) =~= views(out@));
    out
}

/// `filter`.
pub open spec fn filter_word() -> Seq<u8> {
    seq![102u8, 105u8, 108u8, 116u8, 101u8, 114u8]
}

/// What one word says of `filter`; a word about something else says what was
/// said before.
pub open spec fn said(before: Option<FilterView>, word: Seq<u8>) -> Option<FilterView> {
    if word == filter_word() {
        Some(FilterView::Plain)
    } else if word == seq![45u8] + filter_word() {
        Some(FilterView::Unset)
    } else if word == seq![33u8] + filter_word() {
        Some(FilterView::Unspecified)
    } else if has_prefix(word, filter_word().push(61u8)) {
        Some(FilterView::Value(lossy(word.skip(7))))
    } else {
        before
    }
}

/// What the words from `1` to `n` say of `filter`.
pub open spec fn said_by(words: Seq<Seq<u8>>, n: nat) -> Option<FilterView>
    decreases n,
{
    if n <= 1 {
        None
    } else {
        said(said_by(words, (n - 1) as nat), words[n - 1])
    }
}

/// One line that assigns `filter` something.
#[verifier::ext_equal]
pub struct RuleView {
    pub pattern: Seq<u8>,
    /// The pattern has no slash, so it is matched against the last component.
    pub basename_only: bool,
    pub state: FilterView,
}

/// The rule a line is; none for a comment, a negative pattern, a directory
/// pattern, and a line that says nothing of `filter`.
pub open spec fn rule_of(line: Seq<u8>) -> Option<RuleView> {
    let w = words_from(line, 0);
    if w.len() == 0 || w[0][0] == 35 || w[0][0] == 33 || w[0].last() == 47 {
        None
    } else {
        match said_by(w, w.len()) {
            Some(state) => Some(
                RuleView {
                    pattern: unanchored(w[0]),
                    basename_only: !w[0].contains(47u8),
                    state,
                },
            ),
            None => None,
        }
    }
}

/// The rules of the first `n` lines, in order.
pub open spec fn rules_of(lines: Seq<Seq<u8>>, n: nat) -> Seq<RuleView>
    decreases n,
{
    if n == 0 {
        Seq::empty()
    } else {
        let before = rules_of(lines, (n - 1) as nat);
        match rule_of(lines[n - 1]) {
            Some(rule) => before.push(rule),
            None => before,
        }
    }
}

/// Whether a rule is about a path: a pattern without a slash is matched
/// against the last component alone.
pub open spec fn applies(rule: RuleView, path: Seq<u8>) -> bool {
    if rule.basename_only {
        glob_match(rule.pattern, base_name(path), true)
    } else {
        glob_match(rule.pattern, path, true)
    }
}

/// What the last of the first `n` rules that is about a path says.
pub open spec fn last_rule(rules: Seq<RuleView>, path: Seq<u8>, n: nat) -> Option<FilterView>
    decreases n,
{
    if n == 0 {
        None
    } else if applies(rules[n - 1], path) {
        Some(rules[n - 1].state)
    } else {
        last_rule(rules, path, (n - 1) as nat)
    }
}

#[derive(Debug)]
struct Rule {
    pattern: Glob,
    basename_only: bool,
    state: FilterState,
}

impl Rule {
    spec fn view(&self) -> RuleView {
        RuleView {
            pattern: self.pattern@,
            basename_only: self.basename_only,
            state: self.state@,
        }
    }
}

/// A parsed `.gitattributes`, with only the lines that touch `filter`.
#[derive(Debug)]
pub struct AttributeFile {
    rules: Vec<Rule>,
}

/// Optional state as its meaning.
pub open spec fn opt_state(s: Option<FilterState>) -> Option<FilterView> {
    match s {
        Some(s) => Some(s@),
        None => None,
    }
}

/// Optional borrowed state as its meaning.
pub open spec fn opt_state_ref(s: Option<&FilterState>) -> Option<FilterView> {
    match s {
        Some(s) => Some(s@),
        None => None,
    }
}

proof fn lemma_words(s: Seq<u8>, k: int)
    requires
        0 <= k <= s.len(),
    ensures
        forall|i: int|
            0 <= i < words_from(s, k).len() ==> (#[trigger] words_from(s, k)[i]).len() > 0,
    decreases s.len() - k,
{
    if k < s.len() {
        if white(s[k]) {
            lemma_words(s, k + 1);
            assert(words_from(s, k) == words_from(s, k + 1));
        } else {
            lemma_word_end(s, k);
            let end = word_end(s, k);
            lemma_words(s, end);
            let rest = words_from(s, end);
            assert forall|i: int| 0 <= i < words_from(s, k).len() implies (#[trigger] words_from(
                s,
                k,
            )[i]).len() > 0 by {
                if i > 0 {
                    assert(words_from(s, k)[i] == rest[i - 1]);
                }
            }
        }
    }
}

fn filter_said(word: &[u8], before: Option<FilterState>) -> (res: Option<FilterState>)
    ensures
        opt_state(res) == said(opt_state(before), word@),
{
    let plain: Vec<u8> = vec![102u8, 105u8, 108u8, 116u8, 101u8, 114u8];
    let minus: Vec<u8> = vec![45u8, 102u8, 105u8, 108u8, 116u8, 101u8, 114u8];
    let bang: Vec<u8> = vec![33u8, 102u8, 105u8, 108u8, 116u8, 101u8, 114u8];
    let valued: Vec<u8> = vec![102u8, 105u8, 108u8, 116u8, 101u8, 114u8, 61u8];
    assert(plain@ =~= filter_word());
    assert(minus@ =~= seq![45u8] + filter_word());
    assert(bang@ =~= seq![33u8] + filter_word());
    assert(valued@ =~= filter_word().push(61u8));
    if bytes_eq(word, plain.as_slice()) {
        Some(FilterState::Plain)
    } else if bytes_eq(word, minus.as_slice()) {
        Some(FilterState::Unset)
    } else if bytes_eq(word, bang.as_slice()) {
        Some(FilterState::Unspecified)
    } else if starts_with(word, valued.as_slice()) {
        let value = sub_bytes(word, 7, word.len());
        assert(value@ =~= word@.skip(7));
        Some(FilterState::Value(lossy_text(value.as_slice())))
    } else {
        before
    }
}

fn parse_line(line: &[u8]) -> (res: Option<Rule>)
    ensures
        match rule_of(line@) {
            Some(rule) => res matches Some(r) && r@ == rule,
            None => res is None,
        },
{
    let fields = words(line);
    let ghost w = words_from(line@, 0);
    proof {
        lemma_words(line@, 0);
        assert(views(fields@).len() == fields@.len());
    }
    if fields.len() == 0 {
        return None;
    }
    let pattern = &fields[0];
    assert(pattern@ == w[0]);
    if pattern[0] == 35 || pattern[0] == 33 || pattern[pattern.len() - 1] == 47 {
        return None;
    }
    let mut state: Option<FilterState> = None;
    let mut i: usize = 1;
    while i < fields.len()
        invariant
            1 <= i <= fields@.len(),
            views(fields@) == w,
            opt_state(state) == said_by(w, i as nat),
        decreases fields.len() - i,
    {
        assert(fields@[i as int]@ == w[i as int]);
        state = filter_said(fields[i].as_slice(), state);
        i = i + 1;
    }
    match state {
        None => None,
        Some(state) => {
            let slash = position_from(pattern.as_slice(), 47, 0);
            proof {
                crate::bytes::lemma_find_byte(pattern@, 47, 0);
                if slash < pattern@.len() {
                    assert(pattern@.contains(pattern@[slash as int]));
                }
            }
            Some(
                Rule {
                    pattern: Glob::from_bytes(pattern.as_slice()),
                    basename_only: slash == pattern.len(),
                    state,
                },
            )
        },
    }
}

impl AttributeFile {
    /// The rules, in order.
    pub closed spec fn view(&self) -> Seq<RuleView> {
        Seq::new(self.rules@.len(), |i: int| self.rules@[i]@)
    }

    /// No rules.
    pub fn empty() -> (res: AttributeFile)
        ensures
            res@ == Seq::<RuleView>::empty(),
    {
        let res = AttributeFile { rules: Vec::new() };
        assert(res@ =~= Seq::<RuleView>::empty());
        res
    }

    /// The rules of a `.gitattributes`.
    pub fn parse(content: &[u8]) -> (res: AttributeFile)
        ensures
            res@ == rules_of(split_on(content@, 10), split_on(content@, 10).len()),
    {
        let lines = split_bytes(content, 10);
        let ghost all = split_on(content@, 10);
        assert(views(lines@).len() == lines@.len());
        let mut file = AttributeFile { rules: Vec::new() };
        let mut i: usize = 0;
        assert(file@ =~= rules_of(all, 0));
        while i < lines.len()
            invariant
                i <= lines@.len(),
                views(lines@) == all,
                lines@.len() == all.len(),
                file@ == rules_of(all, i as nat),
            decreases lines.len() - i,
        {
            assert(lines@[i as int]@ == all[i as int]);
            let ghost before = file;
            match parse_line(lines[i].as_slice()) {
                Some(rule) => {
                    file.rules.push(rule);
                    proof {
                        assert(file@ =~= before@.push(rule@));
                    }
                },
                None => {},
            }
            i = i + 1;
        }
        file
    }

    pub fn is_empty(&self) -> (res: bool)
        ensures
            res == (self@.len() == 0),
    {
        self.rules.len() == 0
    }

    /// What this file says of a path below its directory: the last matching
    /// line wins.
    pub fn filter_for(&self, rel_path: &[u8]) -> (res: Option<&FilterState>)
        ensures
            opt_state_ref(res) == last_rule(self@, rel_path@, self@.len()),
    {
        let name = last_component(rel_path);
        let mut n: usize = self.rules.len();
        while n > 0
            invariant
                n <= self.rules@.len(),
                name@ == base_name(rel_path@),
                last_rule(self@, rel_path@, self@.len()) == last_rule(self@, rel_path@, n as nat),
            decreases n,
        {
            let rule = &self.rules[n - 1];
            assert(self@[n - 1] == rule@);
            let hit = if rule.basename_only {
                rule.pattern.matches(name.as_slice())
            } else {
                rule.pattern.matches(rel_path)
            };
            if hit {
                return Some(&rule.state);
            }
            n = n - 1;
        }
        None
    }
}

fn last_component(path: &[u8]) -> (res: Vec<u8>)
    ensures
        res@ == base_name(path@),
{
    let p = crate::path::BytePath::new(crate::bytes::copy_bytes(path));
    match p.file_name() {
        Some(name) => name,
        None => {
            proof {
                crate::path::lemma_last_slash(path@);
                assert(base_name(path@) =~= Seq::<u8>::empty());
            }
            Vec::new()
        },
    }
}

/// A path without its first `n` components.
pub open spec fn stripped(path: Seq<u8>, n: nat) -> Seq<u8>
    decreases n,
{
    if n == 0 {
        path
    } else {
        let slash = find_byte(path, 47, 0);
        if slash < path.len() {
            stripped(path.skip((slash + 1) as int), (n - 1) as nat)
        } else {
            Seq::empty()
        }
    }
}

/// A path without its first `n` components.
pub fn strip_components(path: &[u8], n: usize) -> (res: Vec<u8>)
    ensures
        res@ == stripped(path@, n as nat),
{
    let mut rest = crate::bytes::copy_bytes(path);
    let mut i: usize = n;
    while i > 0
        invariant
            stripped(rest@, i as nat) == stripped(path@, n as nat),
        decreases i,
    {
        let slash = position_from(rest.as_slice(), 47, 0);
        if slash >= rest.len() {
            let none: Vec<u8> = Vec::new();
            assert(none@ =~= Seq::<u8>::empty());
            return none;
        }
        let next = sub_bytes(rest.as_slice(), slash + 1, rest.len());
        assert(next@ =~= rest@.skip(slash + 1));
        rest = next;
        i = i - 1;
    }
    rest
}

/// How many slashes a path holds.
pub open spec fn slashes(path: Seq<u8>) -> nat
    decreases path.len(),
{
    if path.len() == 0 {
        0
    } else {
        slashes(path.skip(1)) + (if path[0] == 47 {
            1nat
        } else {
            0nat
        })
    }
}

proof fn lemma_slashes_up_to(path: Seq<u8>, at: int)
    requires
        0 <= at <= path.len(),
        forall|k: int| 0 <= k < at ==> path[k] != 47,
    ensures
        slashes(path) == slashes(path.skip(at)),
    decreases at,
{
    if at > 0 {
        lemma_slashes_up_to(path.skip(1), at - 1);
        assert(path.skip(1).skip(at - 1) =~= path.skip(at));
    } else {
        assert(path.skip(0) =~= path);
    }
}

/// What is left of a path without its first `n` components is what follows its
/// `n`-th slash, and nothing where it has fewer.
pub proof fn law_stripping_ends_at_a_slash(path: Seq<u8>, n: nat, at: int)
    ensures
        stripped(path, 0) == path,
        slashes(path) < n ==> stripped(path, n) == Seq::<u8>::empty(),
        n > 0 && 0 <= at < path.len() && path[at] == 47 && slashes(path.take(at)) == n - 1
            ==> stripped(path, n) == path.skip(at + 1),
    decreases n,
{
    if n > 0 {
        lemma_find_byte(path, 47, 0);
        let slash = find_byte(path, 47, 0) as int;
        lemma_slashes_up_to(path, slash);
        if slash < path.len() {
            let rest = path.skip(slash + 1);
            assert(path.skip(slash).skip(1) =~= rest);
            if 0 <= at < path.len() && path[at] == 47 && slashes(path.take(at)) == n - 1 {
                lemma_slashes_up_to(path.take(at), slash);
                assert(at >= slash);
                if at > slash {
                    assert(path.take(at).skip(slash).skip(1) =~= rest.take(at - slash - 1));
                    assert(rest.skip(at - slash - 1 + 1) =~= path.skip(at + 1));
                } else {
                    assert(path.take(at).skip(slash) =~= Seq::<u8>::empty());
                }
            }
            law_stripping_ends_at_a_slash(rest, (n - 1) as nat, at - slash - 1);
        } else {
            assert(path.skip(slash) =~= Seq::<u8>::empty());
        }
    }
}

/// Stripping components and then more of them is stripping them at once.
pub proof fn law_stripping_adds_up(path: Seq<u8>, m: nat, n: nat)
    ensures
        stripped(stripped(path, m), n) == stripped(path, m + n),
    decreases m,
{
    if m > 0 {
        let slash = find_byte(path, 47, 0);
        if slash < path.len() {
            law_stripping_adds_up(path.skip((slash + 1) as int), (m - 1) as nat, n);
        } else if n > 0 {
            assert(find_byte(Seq::<u8>::empty(), 47, 0) == 0);
        }
    }
}

/// What the first `n` files of a stack say of a path; deeper files first.
pub open spec fn resolved(stack: Seq<Arc<AttributeFile>>, path: Seq<u8>, n: nat) -> Option<FilterView>
    decreases n,
{
    if n == 0 {
        None
    } else {
        let file = stack[n - 1]@;
        match last_rule(file, stripped(path, (n - 1) as nat), file.len()) {
            Some(state) => Some(state),
            None => resolved(stack, path, (n - 1) as nat),
        }
    }
}

/// Resolve `filter` for a path against a stack of files, the root's first:
/// file `i` is that of the directory made of the path's first `i` components.
pub fn resolve_filter<'a>(stack: &'a [Arc<AttributeFile>], path: &[u8]) -> (res: Option<
    &'a FilterState,
>)
    ensures
        opt_state_ref(res) == resolved(stack@, path@, stack@.len()),
{
    let mut n: usize = stack.len();
    while n > 0
        invariant
            n <= stack@.len(),
            resolved(stack@, path@, stack@.len()) == resolved(stack@, path@, n as nat),
        decreases n,
    {
        let rel = strip_components(path, n - 1);
        let found = stack[n - 1].filter_for(rel.as_slice());
        if found.is_some() {
            return found;
        }
        n = n - 1;
    }
    None
}

/// Whether a state means that the path is a large file.
pub open spec fn lfs(state: Option<FilterView>) -> bool {
    state == Some(FilterView::Value("lfs"@))
}

/// Whether a state means that the path is a large file.
pub fn is_lfs(state: Option<&FilterState>) -> (res: bool)
    ensures
        res == lfs(opt_state_ref(state)),
{
    match state {
        Some(FilterState::Value(v)) => *v == "lfs".to_owned(),
        Some(FilterState::Plain) | Some(FilterState::Unset) | Some(FilterState::Unspecified) => false,
        None => false,
    }
}

/// A deeper file decides whenever it has something to say, `!filter` among
/// it; a file that is silent leaves the decision to the ones above.
pub proof fn law_deeper_files_decide(stack: Seq<Arc<AttributeFile>>, path: Seq<u8>)
    requires
        stack.len() > 0,
    ensures
        ({
            let n = (stack.len() - 1) as nat;
            let deepest = last_rule(stack.last()@, stripped(path, n), stack.last()@.len());
            &&& deepest is Some ==> resolved(stack, path, stack.len()) == deepest
            &&& deepest is None ==> resolved(stack, path, stack.len()) == resolved(stack, path, n)
        }),
{
}

/// Attributes are about files alone: a line whose pattern is a directory's, and
/// a comment, change nothing.
pub proof fn law_a_directory_pattern_says_nothing(lines: Seq<Seq<u8>>, n: nat)
    requires
        0 < n <= lines.len(),
        words_from(lines[n - 1], 0).len() > 0,
        words_from(lines[n - 1], 0)[0].last() == 47 || words_from(lines[n - 1], 0)[0][0] == 35,
    ensures
        rules_of(lines, n) == rules_of(lines, (n - 1) as nat),
{
}

/// A pattern without a slash sees the last component alone: it is about every
/// path that ends in the same one, at any depth.
pub proof fn law_a_slash_free_pattern_sees_the_basename(rule: RuleView, a: Seq<u8>, b: Seq<u8>)
    requires
        rule.basename_only,
        base_name(a) == base_name(b),
    ensures
        applies(rule, a) == applies(rule, b),
{
}

proof fn lemma_rules_of_both(a: Seq<Seq<u8>>, b: Seq<Seq<u8>>, n: nat)
    requires
        n <= b.len(),
    ensures
        rules_of(a + b, a.len() + n) == rules_of(a, a.len()) + rules_of(b, n),
    decreases n,
{
    if n > 0 {
        lemma_rules_of_both(a, b, (n - 1) as nat);
        assert((a + b)[a.len() + n - 1] == b[n - 1]);
        assert(rules_of(a + b, a.len() + n) =~= rules_of(a, a.len()) + rules_of(b, n));
    } else {
        lemma_rules_of_front(a, b, a.len());
        assert(rules_of(a, a.len()) + rules_of(b, 0) =~= rules_of(a, a.len()));
    }
}

proof fn lemma_rules_of_front(a: Seq<Seq<u8>>, b: Seq<Seq<u8>>, n: nat)
    requires
        n <= a.len(),
    ensures
        rules_of(a + b, n) == rules_of(a, n),
    decreases n,
{
    if n > 0 {
        lemma_rules_of_front(a, b, (n - 1) as nat);
        assert((a + b)[n - 1] == a[n - 1]);
    }
}

proof fn lemma_last_of_both(a: Seq<RuleView>, b: Seq<RuleView>, path: Seq<u8>, n: nat)
    requires
        n <= b.len(),
    ensures
        last_rule(a + b, path, a.len() + n) == (match last_rule(b, path, n) {
            Some(state) => Some(state),
            None => last_rule(a, path, a.len()),
        }),
    decreases n,
{
    if n > 0 {
        lemma_last_of_both(a, b, path, (n - 1) as nat);
        assert((a + b)[a.len() + n - 1] == b[n - 1]);
    } else {
        lemma_last_of_front(a, b, path, a.len());
    }
}

proof fn lemma_last_of_front(a: Seq<RuleView>, b: Seq<RuleView>, path: Seq<u8>, n: nat)
    requires
        n <= a.len(),
    ensures
        last_rule(a + b, path, n) == last_rule(a, path, n),
    decreases n,
{
    if n > 0 {
        lemma_last_of_front(a, b, path, (n - 1) as nat);
        assert((a + b)[n - 1] == a[n - 1]);
    }
}

/// Two texts joined by a line break are one file: it says of a path what the
/// second text says, and what the first says where the second is silent.
pub proof fn law_a_later_text_overrides(a: Seq<u8>, b: Seq<u8>, path: Seq<u8>)
    ensures
        ({
            let first = rules_of(split_on(a, 10), split_on(a, 10).len());
            let second = rules_of(split_on(b, 10), split_on(b, 10).len());
            let lines = split_on(a + seq![10u8] + b, 10);
            let whole = rules_of(lines, lines.len());
            &&& whole == first + second
            &&& last_rule(whole, path, whole.len()) == (match last_rule(
                second,
                path,
                second.len(),
            ) {
                Some(state) => Some(state),
                None => last_rule(first, path, first.len()),
            })
        }),
{
    let la = split_on(a, 10);
    let lb = split_on(b, 10);
    lemma_split_joined(a, b, 10);
    lemma_rules_of_both(la, lb, lb.len());
    let first = rules_of(la, la.len());
    let second = rules_of(lb, lb.len());
    lemma_last_of_both(first, second, path, second.len());
}

/// Within a file, a later matching line overrides an earlier one.
pub proof fn law_later_lines_override(rules: Seq<RuleView>, rule: RuleView, path: Seq<u8>)
    ensures
        applies(rule, path) ==> last_rule(rules.push(rule), path, rules.len() + 1) == Some(
            rule.state,
        ),
        !applies(rule, path) ==> last_rule(rules.push(rule), path, rules.len() + 1) == last_rule(
            rules,
            path,
            rules.len(),
        ),
{
    lemma_prefix(rules, rule, path, rules.len());
}

proof fn lemma_prefix(rules: Seq<RuleView>, rule: RuleView, path: Seq<u8>, n: nat)
    requires
        n <= rules.len(),
    ensures
        last_rule(rules.push(rule), path, n) == last_rule(rules, path, n),
    decreases n,
{
    if n > 0 {
        lemma_prefix(rules, rule, path, (n - 1) as nat);
    }
}

} // verus!
