//! What is read back from a seeded git directory: the packed refs, the
//! configuration, and the description beside it.
use vstd::prelude::*;
use crate::base64url::{b64url_decoded, law_b64url_round_trip};
use crate::bytes::{lemma_concat_assoc, lex_lt};
use crate::entry::{opt_text, CommitMeta, RefTarget, Signature};
use crate::gitdir::{
    branch_of, commit_json, config_of, gfs_json, law_packed_refs_are_sorted, line_keys, line_text,
    packed_lines, packed_name, packed_refs_of, packed_text, seed_of, CommitFields, GfsJson,
    GitDirFacts, PackedView, SeedView, SignatureFields, CONFIG_CORE, CONFIG_FSMONITOR, CONFIG_GC,
    CONFIG_LFS, CONFIG_PUSH, PACKED_HEADER,
};
use crate::sorting::{lemma_sorted_lists_each_once, lists_each_once, sorted_order, NameOrder};
use crate::strings::{after_prefix, begins, find_char, opt_view, without_trailing};
use crate::text::{decimal, digit_char, hex, utf8};

verus! {

// ---------------------------------------------------------------------------
// Packed refs
// ---------------------------------------------------------------------------
/// A packed ref as it is read: its name, the object in hexadecimal, and the
/// one that it peels to.
#[verifier::ext_equal]
pub struct ReadRef {
    pub name: Seq<char>,
    pub target: Seq<char>,
    pub peeled: Option<Seq<char>>,
}

/// The first line of a text, and what follows it.
pub open spec fn first_line(text: Seq<char>) -> (Seq<char>, Seq<char>) {
    let end = find_char(text, '\n', 0);
    if end < text.len() {
        (text.take(end), text.skip(end + 1))
    } else {
        (text, Seq::empty())
    }
}

/// The packed refs of a text: lines of an object, a space and a name, each
/// perhaps followed by one with a caret and what it peels to; a line with a
/// hash sign is a comment.
pub open spec fn read_packed(text: Seq<char>) -> Seq<ReadRef>
    decreases text.len(),
{
    if text.len() == 0 {
        Seq::empty()
    } else {
        let (line, rest) = first_line(text);
        let space = find_char(line, ' ', 0);
        let (after, behind) = first_line(rest);
        if rest.len() >= text.len() || behind.len() > rest.len() {
            Seq::empty()
        } else if line.len() > 0 && line[0] == '#' {
            read_packed(rest)
        } else if rest.len() > 0 && rest[0] == '^' && behind.len() < rest.len() {
            seq![
                ReadRef {
                    name: line.skip(space + 1),
                    target: line.take(space),
                    peeled: Some(after.skip(1)),
                },
            ] + read_packed(behind)
        } else {
            seq![
                ReadRef { name: line.skip(space + 1), target: line.take(space), peeled: None },
            ] + read_packed(rest)
        }
    }
}

/// Whether a character is nowhere in a text.
pub open spec fn free_of(text: Seq<char>, c: char) -> bool {
    forall|i: int| 0 <= i < text.len() ==> #[trigger] text[i] != c
}

proof fn lemma_first(text: Seq<char>, c: char, rest: Seq<char>, k: int)
    requires
        free_of(text, c),
        0 <= k <= text.len(),
    ensures
        find_char(text + seq![c] + rest, c, k) == text.len(),
    decreases text.len() - k,
{
    let all = text + seq![c] + rest;
    if k < text.len() {
        assert(all[k] == text[k]);
        lemma_first(text, c, rest, k + 1);
    } else {
        assert(all[k] == c);
    }
}

proof fn lemma_first_line(line: Seq<char>, rest: Seq<char>)
    requires
        free_of(line, '\n'),
    ensures
        first_line(line + seq!['\n'] + rest) == (line, rest),
{
    lemma_first(line, '\n', rest, 0);
    let all = line + seq!['\n'] + rest;
    assert(all.take(line.len() as int) =~= line);
    assert(all.skip(line.len() as int + 1) =~= rest);
}

proof fn lemma_hex_digits(bytes: Seq<u8>)
    ensures
        hex(bytes).len() == 2 * bytes.len(),
        free_of(hex(bytes), '\n'),
        free_of(hex(bytes), ' '),
        free_of(hex(bytes), '#'),
        free_of(hex(bytes), '^'),
{
    assert forall|i: int| 0 <= i < hex(bytes).len() implies #[trigger] hex(bytes)[i] != '\n'
        && hex(bytes)[i] != ' ' && hex(bytes)[i] != '#' && hex(bytes)[i] != '^' by {
        let d: nat = if i % 2 == 0 {
            (bytes[i / 2] / 16) as nat
        } else {
            (bytes[i / 2] % 16) as nat
        };
        assert(d < 16);
        assert(hex(bytes)[i] == digit_char(d));
    }
}

/// What a line of packed refs is read as.
pub open spec fn read_line(l: PackedView) -> ReadRef {
    ReadRef {
        name: l.name,
        target: hex(l.target),
        peeled: match l.peeled {
            Some(p) => Some(hex(p)),
            None => None,
        },
    }
}

proof fn lemma_line_is_read(l: PackedView, rest: Seq<char>)
    requires
        l.target.len() > 0,
        free_of(l.name, '\n'),
        rest.len() > 0 ==> rest[0] != '^',
    ensures
        read_packed(line_text(l) + rest) == seq![read_line(l)] + read_packed(rest),
{
    reveal_strlit(" ");
    reveal_strlit("\n");
    reveal_strlit("^");
    lemma_hex_digits(l.target);
    let target = hex(l.target);
    let line = target + seq![' '] + l.name;
    let text = line_text(l) + rest;
    assert(" "@ =~= seq![' ']);
    assert("\n"@ =~= seq!['\n']);
    assert("^"@ =~= seq!['^']);
    assert(free_of(line, '\n')) by {
        assert forall|i: int| 0 <= i < line.len() implies #[trigger] line[i] != '\n' by {
            if i < target.len() {
                assert(line[i] == target[i]);
            } else if i > target.len() {
                assert(line[i] == l.name[i - target.len() - 1]);
            }
        }
    }
    lemma_first(target, ' ', l.name, 0);
    assert(line.take(target.len() as int) =~= target);
    assert(line.skip(target.len() as int + 1) =~= l.name);
    assert(line[0] == target[0]);
    match l.peeled {
        None => {
            assert(text =~= line + seq!['\n'] + rest);
            lemma_first_line(line, rest);
        },
        Some(p) => {
            lemma_hex_digits(p);
            let second = seq!['^'] + hex(p);
            let tail = second + seq!['\n'] + rest;
            assert(text =~= line + seq!['\n'] + tail);
            lemma_first_line(line, tail);
            assert(free_of(second, '\n')) by {
                assert forall|i: int| 0 <= i < second.len() implies #[trigger] second[i]
                    != '\n' by {
                    if i > 0 {
                        assert(second[i] == hex(p)[i - 1]);
                    }
                }
            }
            lemma_first_line(second, rest);
            assert(second.skip(1) =~= hex(p));
            assert(tail[0] == '^');
        },
    }
    let (after, behind) = first_line(rest);
    let end = find_char(rest, '\n', 0);
    lemma_found_within(rest, '\n', 0);
    assert(behind.len() <= rest.len());
}

proof fn lemma_found_within(text: Seq<char>, c: char, k: int)
    requires
        0 <= k <= text.len(),
    ensures
        k <= find_char(text, c, k) <= text.len(),
    decreases text.len() - k,
{
    if k < text.len() && text[k] != c {
        lemma_found_within(text, c, k + 1);
    }
}

/// The lines of an order from `k` on.
spec fn lines_from(lines: Seq<PackedView>, order: Seq<int>, k: nat) -> Seq<char>
    decreases order.len() - k,
{
    if k >= order.len() {
        Seq::empty()
    } else {
        line_text(lines[order[k as int]]) + lines_from(lines, order, k + 1)
    }
}

proof fn lemma_lines_from(lines: Seq<PackedView>, order: Seq<int>, k: nat)
    requires
        k <= order.len(),
    ensures
        packed_text(lines, order, k) + lines_from(lines, order, k) == packed_text(
            lines,
            order,
            order.len(),
        ),
    decreases order.len() - k,
{
    if k < order.len() {
        lemma_lines_from(lines, order, k + 1);
        assert(packed_text(lines, order, k) + lines_from(lines, order, k) =~= packed_text(
            lines,
            order,
            k + 1,
        ) + lines_from(lines, order, k + 1));
    } else {
        assert(packed_text(lines, order, k) + lines_from(lines, order, k) =~= packed_text(
            lines,
            order,
            k,
        ));
    }
}

/// Whether a line can be read back.
spec fn legible_line(l: PackedView) -> bool {
    l.target.len() > 0 && free_of(l.name, '\n')
}

proof fn lemma_lines_are_read(lines: Seq<PackedView>, order: Seq<int>, k: nat)
    requires
        k <= order.len(),
        forall|i: int| 0 <= i < order.len() ==> 0 <= #[trigger] order[i] < lines.len(),
        forall|v: int| 0 <= v < lines.len() ==> legible_line(#[trigger] lines[v]),
    ensures
        read_packed(lines_from(lines, order, k)) == Seq::new(
            (order.len() - k) as nat,
            |i: int| read_line(lines[order[k + i]]),
        ),
        lines_from(lines, order, k).len() > 0 ==> lines_from(lines, order, k)[0] != '^',
    decreases order.len() - k,
{
    let read = Seq::new((order.len() - k) as nat, |i: int| read_line(lines[order[k + i]]));
    if k >= order.len() {
        assert(read =~= Seq::<ReadRef>::empty());
    } else {
        let l = lines[order[k as int]];
        let rest = lines_from(lines, order, k + 1);
        assert(legible_line(l));
        lemma_lines_are_read(lines, order, k + 1);
        lemma_line_is_read(l, rest);
        lemma_hex_digits(l.target);
        assert(line_text(l)[0] == hex(l.target)[0]);
        assert(read =~= seq![read_line(l)] + read_packed(rest));
    }
}

proof fn lemma_header_is_skipped(rest: Seq<char>)
    ensures
        read_packed(PACKED_HEADER@ + rest) == read_packed(rest),
{
    reveal_strlit("# pack-refs with: peeled fully-peeled sorted \n");
    let h = PACKED_HEADER@;
    let line = h.drop_last();
    assert(h.last() == '\n');
    assert(free_of(line, '\n')) by {
        assert forall|i: int| 0 <= i < line.len() implies #[trigger] line[i] != '\n' by {
            assert(line[i] == h[i]);
        }
    }
    assert(h + rest =~= line + seq!['\n'] + rest);
    lemma_first_line(line, rest);
    assert(line[0] == '#');
    lemma_found_within(rest, '\n', 0);
}

/// Whether a ref of the repository is packed under a name: a tag under its
/// own, and a branch as the remote's.
pub open spec fn packed_as(name: Seq<char>, packed: Seq<char>) -> bool {
    ||| begins(name, "refs/tags/"@) && packed == name
    ||| exists|branch: Seq<char>|
        name == "refs/heads/"@ + branch && packed == #[trigger] ("refs/remotes/origin/"@ + branch)
}

/// What a ref that is packed under a name must be read as.
pub open spec fn ref_as(r: RefTarget, packed: Seq<char>) -> ReadRef {
    ReadRef {
        name: packed,
        target: hex(r.target@.digest),
        peeled: match r.peeled {
            Some(p) => Some(hex(p@.digest)),
            None => None,
        },
    }
}

proof fn lemma_packed_name(name: Seq<char>)
    ensures
        packed_name(name) matches Some(packed) ==> packed_as(name, packed),
        forall|packed: Seq<char>| #[trigger]
            packed_as(name, packed) ==> packed_name(name) == Some(packed),
{
    reveal_strlit("refs/tags/");
    reveal_strlit("refs/heads/");
    let tags = "refs/tags/"@;
    let heads = "refs/heads/"@;
    if begins(name, tags) {
        assert(tags + name.skip(10) =~= name);
        assert(name.take(10)[5] == name[5]);
    } else if begins(name, heads) {
        let branch = name.skip(11);
        assert(heads + branch =~= name);
    }
    assert forall|packed: Seq<char>| #[trigger] packed_as(name, packed) implies packed_name(name)
        == Some(packed) by {
        if begins(name, tags) && packed == name {
        } else {
            let branch = choose|branch: Seq<char>|
                name == heads + branch && packed == #[trigger] ("refs/remotes/origin/"@ + branch);
            assert(name.take(11) =~= heads);
            assert(name.skip(11) =~= branch);
            assert(name[5] == heads[5]);
            if begins(name, tags) {
                assert(name.take(10)[5] == name[5]);
            }
        }
    }
}

proof fn lemma_packed_lines(refs: Seq<RefTarget>, n: nat)
    requires
        n <= refs.len(),
    ensures
        forall|v: int|
            0 <= v < packed_lines(refs, n).len() ==> exists|i: int|
                0 <= i < n && packed_as(
                    (#[trigger] refs[i]).name@,
                    (#[trigger] packed_lines(refs, n)[v]).name,
                ) && read_line(packed_lines(refs, n)[v]) == ref_as(
                    refs[i],
                    packed_lines(refs, n)[v].name,
                ) && packed_lines(refs, n)[v].target == refs[i].target@.digest,
        forall|i: int, packed: Seq<char>|
            0 <= i < n && #[trigger] packed_as(refs[i].name@, packed) ==> exists|v: int|
                0 <= v < packed_lines(refs, n).len() && read_line(
                    #[trigger] packed_lines(refs, n)[v],
                ) == ref_as(refs[i], packed),
    decreases n,
{
    if n > 0 {
        let before = packed_lines(refs, (n - 1) as nat);
        let all = packed_lines(refs, n);
        let r = refs[n - 1];
        lemma_packed_lines(refs, (n - 1) as nat);
        lemma_packed_name(r.name@);
        assert(forall|v: int| 0 <= v < before.len() ==> #[trigger] all[v] == before[v]);
        assert forall|v: int| 0 <= v < all.len() implies exists|i: int|
            0 <= i < n && packed_as((#[trigger] refs[i]).name@, (#[trigger] all[v]).name)
                && read_line(all[v]) == ref_as(refs[i], all[v].name) && all[v].target
                == refs[i].target@.digest by {
            if v < before.len() {
                let i = choose|i: int|
                    0 <= i < n - 1 && packed_as((#[trigger] refs[i]).name@, before[v].name)
                        && read_line(before[v]) == ref_as(refs[i], before[v].name)
                        && before[v].target == refs[i].target@.digest;
                assert(packed_as(refs[i].name@, all[v].name));
            } else {
                assert(packed_as(refs[n - 1].name@, all[v].name));
            }
        }
        assert forall|i: int, packed: Seq<char>|
            0 <= i < n && #[trigger] packed_as(refs[i].name@, packed) implies exists|v: int|
            0 <= v < all.len() && read_line(#[trigger] all[v]) == ref_as(refs[i], packed) by {
            if i < n - 1 {
                let v = choose|v: int|
                    0 <= v < before.len() && read_line(#[trigger] before[v]) == ref_as(
                        refs[i],
                        packed,
                    );
                assert(read_line(all[v]) == ref_as(refs[i], packed));
            } else {
                let v = before.len() as int;
                assert(read_line(all[v]) == ref_as(refs[i], packed));
            }
        }
    }
}

/// The packed refs are read back line by line, in their order.
proof fn lemma_packed_is_read(refs: Seq<RefTarget>)
    requires
        forall|i: int|
            0 <= i < refs.len() ==> (#[trigger] refs[i]).target.wf() && free_of(refs[i].name@, '\n'),
    ensures
        ({
            let lines = packed_lines(refs, refs.len());
            let order = sorted_order(NameOrder::Bytes, line_keys(lines));
            read_packed(packed_refs_of(refs)) == Seq::new(
                order.len(),
                |i: int| read_line(lines[order[i]]),
            )
        }),
{
    let lines = packed_lines(refs, refs.len());
    let order = sorted_order(NameOrder::Bytes, line_keys(lines));
    lemma_packed_lines(refs, refs.len());
    lemma_sorted_lists_each_once(NameOrder::Bytes, line_keys(lines));
    assert(lists_each_once(order, lines.len()));
    assert forall|v: int| 0 <= v < lines.len() implies legible_line(#[trigger] lines[v]) by {
        let i = choose|i: int|
            0 <= i < refs.len() && packed_as((#[trigger] refs[i]).name@, lines[v].name)
                && read_line(lines[v]) == ref_as(refs[i], lines[v].name) && lines[v].target
                == refs[i].target@.digest;
        assert(refs[i].target.wf());
        lemma_packed_is_one_line(refs[i].name@, lines[v].name);
    }
    lemma_lines_from(lines, order, 0);
    lemma_header_is_skipped(lines_from(lines, order, 0));
    lemma_lines_are_read(lines, order, 0);
    assert(read_packed(packed_refs_of(refs)) =~= Seq::new(
        order.len(),
        |i: int| read_line(lines[order[i]]),
    ));
}

/// A reader of the packed refs finds every tag under its own name and every
/// branch as the remote's, each with its object and what it peels to, sorted by
/// name, and nothing else.
pub proof fn law_a_reader_recovers_the_packed_refs(refs: Seq<RefTarget>)
    requires
        forall|i: int|
            0 <= i < refs.len() ==> (#[trigger] refs[i]).target.wf() && free_of(refs[i].name@, '\n'),
    ensures
        ({
            let read = read_packed(packed_refs_of(refs));
            &&& forall|i: int, packed: Seq<char>|
                0 <= i < refs.len() && #[trigger] packed_as(refs[i].name@, packed)
                    ==> read.contains(ref_as(refs[i], packed))
            &&& forall|k: int|
                0 <= k < read.len() ==> exists|i: int|
                    0 <= i < refs.len() && packed_as(
                        (#[trigger] refs[i]).name@,
                        (#[trigger] read[k]).name,
                    ) && read[k] == ref_as(refs[i], read[k].name)
            &&& forall|k: int, m: int|
                0 <= k < m < read.len() ==> !lex_lt(
                    utf8((#[trigger] read[m]).name),
                    utf8((#[trigger] read[k]).name),
                )
        }),
{
    let lines = packed_lines(refs, refs.len());
    let order = sorted_order(NameOrder::Bytes, line_keys(lines));
    let read = read_packed(packed_refs_of(refs));
    lemma_packed_lines(refs, refs.len());
    lemma_sorted_lists_each_once(NameOrder::Bytes, line_keys(lines));
    assert(lists_each_once(order, lines.len()));
    lemma_packed_is_read(refs);
    assert forall|k: int| 0 <= k < read.len() implies #[trigger] read[k] == read_line(
        lines[order[k]],
    ) by {}
    law_packed_refs_are_sorted(refs);
    assert forall|i: int, packed: Seq<char>|
        0 <= i < refs.len() && #[trigger] packed_as(refs[i].name@, packed) implies read.contains(
        ref_as(refs[i], packed),
    ) by {
        let v = choose|v: int|
            0 <= v < lines.len() && read_line(#[trigger] lines[v]) == ref_as(refs[i], packed);
        assert(order.contains(v));
        let k = choose|k: int| 0 <= k < order.len() && order[k] == v;
        assert(read[k] == ref_as(refs[i], packed));
    }
    assert forall|k: int| 0 <= k < read.len() implies exists|i: int|
        0 <= i < refs.len() && packed_as((#[trigger] refs[i]).name@, (#[trigger] read[k]).name)
            && read[k] == ref_as(refs[i], read[k].name) by {
        let v = order[k];
        let i = choose|i: int|
            0 <= i < refs.len() && packed_as((#[trigger] refs[i]).name@, lines[v].name)
                && read_line(lines[v]) == ref_as(refs[i], lines[v].name) && lines[v].target
                == refs[i].target@.digest;
        assert(packed_as(refs[i].name@, read[k].name));
    }
    assert forall|k: int, m: int| 0 <= k < m < read.len() implies !lex_lt(
        utf8((#[trigger] read[m]).name),
        utf8((#[trigger] read[k]).name),
    ) by {
        assert(read[m].name == lines[order[m]].name);
        assert(read[k].name == lines[order[k]].name);
    }
}

proof fn lemma_packed_is_one_line(name: Seq<char>, packed: Seq<char>)
    requires
        packed_as(name, packed),
        free_of(name, '\n'),
    ensures
        free_of(packed, '\n'),
{
    if !(begins(name, "refs/tags/"@) && packed == name) {
        reveal_strlit("refs/remotes/origin/");
        let heads = "refs/heads/"@;
        let remote = "refs/remotes/origin/"@;
        let branch = choose|branch: Seq<char>|
            name == heads + branch && packed == #[trigger] (remote + branch);
        assert forall|i: int| 0 <= i < packed.len() implies #[trigger] packed[i] != '\n' by {
            if i >= remote.len() {
                assert(packed[i] == branch[i - remote.len()]);
                assert(name[i - remote.len() + heads.len()] == branch[i - remote.len()]);
            }
        }
    }
}

// ---------------------------------------------------------------------------
// The configuration
// ---------------------------------------------------------------------------
/// Whether a text holds another.
pub open spec fn holds(text: Seq<char>, part: Seq<char>) -> bool {
    exists|i: int|
        0 <= i && i + part.len() <= text.len() && #[trigger] text.subrange(
            i,
            i + part.len(),
        ) == part
}

proof fn lemma_holds(before: Seq<char>, part: Seq<char>, after: Seq<char>)
    ensures
        holds(before + part + after, part),
{
    let text = before + part + after;
    let i = before.len() as int;
    assert(text.subrange(i, i + part.len()) =~= part);
}

/// A text with a part put in at a place.
pub open spec fn with_part(text: Seq<char>, at: int, part: Seq<char>) -> Seq<char> {
    text.take(at) + part + text.skip(at)
}

/// Turning the monitor or the large-file filter on adds its lines to the
/// configuration, behind the core settings, and changes nothing else.
pub proof fn law_a_switch_adds_its_lines(f: GitDirFacts, fsmonitor: bool, lfs: bool)
    ensures
        config_of(f, true, lfs) == with_part(
            config_of(f, false, lfs),
            CONFIG_CORE@.len() as int,
            CONFIG_FSMONITOR@,
        ),
        ({
            let at = CONFIG_CORE@.len() + (if fsmonitor {
                CONFIG_FSMONITOR@.len()
            } else {
                0
            });
            config_of(f, fsmonitor, true) == with_part(
                config_of(f, fsmonitor, false),
                at as int,
                CONFIG_LFS@,
            )
        }),
        config_of(f, fsmonitor, lfs).take(CONFIG_CORE@.len() as int) == CONFIG_CORE@,
{
    let core = CONFIG_CORE@;
    let mon = CONFIG_FSMONITOR@;
    let l = CONFIG_LFS@;
    lemma_config_tail(f, false, false);
    lemma_config_tail(f, true, false);
    lemma_config_tail(f, false, true);
    lemma_config_tail(f, true, true);
    let t = config_tail(f);
    assert((core + t).take(core.len() as int) =~= core);
    assert((core + t).skip(core.len() as int) =~= t);
    assert((core + l + t).take(core.len() as int) =~= core);
    assert((core + l + t).skip(core.len() as int) =~= l + t);
    assert(core + mon + (l + t) =~= core + mon + l + t);
    let n = core.len() + mon.len();
    assert((core + mon + t).take(n as int) =~= core + mon);
    assert((core + mon + t).skip(n as int) =~= t);
    assert((core + mon + t).take(core.len() as int) =~= core);
    assert((core + mon + l + t).take(core.len() as int) =~= core);
}

/// What follows the switches of a configuration.
spec fn config_tail(f: GitDirFacts) -> Seq<char> {
    appended(Seq::empty(), config_pieces(f), config_pieces(f).len())
}

/// What a configuration is made of behind its switches: the pieces that are
/// appended one after the other.
spec fn config_pieces(f: GitDirFacts) -> Seq<Seq<char>> {
    let remote = if f.work_ref_root is Some {
        let url = seq![
            "[remote \"origin\"]\n\turl = "@,
            without_trailing(f.http_endpoint@, '/'),
            "/v1/repos/"@,
            f.repository_id@,
            CONFIG_PUSH@,
        ];
        match branch_of(opt_view(f.ref_name)) {
            Some(branch) => url + seq![
                "[branch \""@,
                branch,
                "\"]\n\tremote = origin\n\tmerge = refs/heads/"@,
                branch,
                "\n"@,
            ],
            None => url,
        }
    } else {
        Seq::empty()
    };
    seq![CONFIG_GC@] + remote + seq![
        "[gfs]\n\trepository = "@,
        f.repository_id@,
        "\n\tcommit = "@,
        f.commit@.qualified(),
        "\n\tmount = "@,
        f.mount_id@,
        "\n\tgeneration = "@,
        decimal(f.generation as nat),
        "\n"@,
    ]
}

/// Pieces appended to a text, the first `n` of them.
spec fn appended(text: Seq<char>, pieces: Seq<Seq<char>>, n: nat) -> Seq<char>
    decreases n,
{
    if n == 0 {
        text
    } else {
        appended(text, pieces, (n - 1) as nat) + pieces[n - 1]
    }
}

proof fn lemma_appended(text: Seq<char>, pieces: Seq<Seq<char>>, n: nat)
    ensures
        appended(text, pieces, n) == text + appended(Seq::empty(), pieces, n),
    decreases n,
{
    if n == 0 {
        assert(text + Seq::<char>::empty() =~= text);
    } else {
        lemma_appended(text, pieces, (n - 1) as nat);
        lemma_concat_assoc(text, appended(Seq::empty(), pieces, (n - 1) as nat), pieces[n - 1]);
    }
}

/// Three pieces that follow each other stand together in the text.
proof fn lemma_together(text: Seq<char>, pieces: Seq<Seq<char>>, k: nat, n: nat)
    requires
        3 <= k <= n,
    ensures
        holds(
            appended(text, pieces, n),
            pieces[k - 3] + pieces[k - 2] + pieces[k - 1],
        ),
    decreases n,
{
    let part = pieces[k - 3] + pieces[k - 2] + pieces[k - 1];
    if n == k {
        let before = appended(text, pieces, (k - 3) as nat);
        reveal_with_fuel(appended, 4);
        assert(appended(text, pieces, n) =~= before + part + Seq::<char>::empty());
        lemma_holds(before, part, Seq::empty());
    } else {
        lemma_together(text, pieces, k, (n - 1) as nat);
        lemma_holds_on(appended(text, pieces, (n - 1) as nat), part, pieces[n - 1]);
    }
}

proof fn lemma_holds_on(text: Seq<char>, part: Seq<char>, after: Seq<char>)
    requires
        holds(text, part),
    ensures
        holds(text + after, part),
{
    let i = choose|i: int|
        0 <= i && i + part.len() <= text.len() && #[trigger] text.subrange(i, i + part.len())
            == part;
    assert((text + after).subrange(i, i + part.len()) =~= part);
}

/// The switches of a configuration.
spec fn config_switches(fsmonitor: bool, lfs: bool) -> Seq<char> {
    let a = if fsmonitor {
        CONFIG_CORE@ + CONFIG_FSMONITOR@
    } else {
        CONFIG_CORE@
    };
    if lfs {
        a + CONFIG_LFS@
    } else {
        a
    }
}

#[verifier::rlimit(60)]
proof fn lemma_config_is_appended(f: GitDirFacts, fsmonitor: bool, lfs: bool)
    ensures
        config_of(f, fsmonitor, lfs) == appended(
            config_switches(fsmonitor, lfs),
            config_pieces(f),
            config_pieces(f).len(),
        ),
{
    reveal_with_fuel(appended, 21);
}

proof fn lemma_config_tail(f: GitDirFacts, fsmonitor: bool, lfs: bool)
    ensures
        config_of(f, fsmonitor, lfs) == config_switches(fsmonitor, lfs) + config_tail(f),
{
    let pieces = config_pieces(f);
    lemma_config_is_appended(f, fsmonitor, lfs);
    lemma_appended(config_switches(fsmonitor, lfs), pieces, pieces.len());
}

/// The configuration names the workspace: its repository, its commit, its mount
/// and its generation, each on a line of its own. Where work refs are allowed
/// it names the remote to push to, and the branch that follows it.
pub proof fn law_the_configuration_names_the_workspace(
    f: GitDirFacts,
    fsmonitor: bool,
    lfs: bool,
)
    ensures
        ({
            let text = config_of(f, fsmonitor, lfs);
            &&& holds(text, "\n\tcommit = "@ + f.commit@.qualified() + "\n\tmount = "@)
            &&& holds(text, "[gfs]\n\trepository = "@ + f.repository_id@ + "\n\tcommit = "@)
            &&& holds(text, "\n\tmount = "@ + f.mount_id@ + "\n\tgeneration = "@)
            &&& f.work_ref_root is Some ==> holds(
                text,
                "[remote \"origin\"]\n\turl = "@ + without_trailing(f.http_endpoint@, '/')
                    + "/v1/repos/"@,
            ) && holds(
                text,
                without_trailing(f.http_endpoint@, '/') + "/v1/repos/"@ + f.repository_id@,
            )
            &&& f.work_ref_root is Some && f.ref_name is Some ==> (after_prefix(
                (f.ref_name->0)@,
                "refs/heads/"@,
            ) matches Some(branch) ==> holds(
                text,
                "[branch \""@ + branch + "\"]\n\tremote = origin\n\tmerge = refs/heads/"@,
            ) && holds(
                text,
                "\"]\n\tremote = origin\n\tmerge = refs/heads/"@ + branch + "\n"@,
            ))
        }),
{
    let text = config_of(f, fsmonitor, lfs);
    let start = config_switches(fsmonitor, lfs);
    let pieces = config_pieces(f);
    let n = pieces.len();
    lemma_config_is_appended(f, fsmonitor, lfs);
    lemma_together(start, pieces, (n - 6) as nat, n);
    lemma_together(start, pieces, (n - 4) as nat, n);
    lemma_together(start, pieces, (n - 2) as nat, n);
    if f.work_ref_root is Some {
        lemma_together(start, pieces, 4, n);
        lemma_together(start, pieces, 5, n);
        if branch_of(opt_view(f.ref_name)) is Some {
            lemma_together(start, pieces, 9, n);
            lemma_together(start, pieces, 11, n);
        }
    }
}

/// A seed holds one configuration, the way to the projection's objects, and
/// packed refs where somebody answered for the refs.
pub proof fn law_a_seed_holds_what_git_needs(
    f: GitDirFacts,
    preserve: bool,
    fsmonitor: bool,
    lfs: bool,
)
    ensures
        ({
            let files = seed_of(f, preserve, fsmonitor, lfs);
            &&& files.contains(
                SeedView { path: "config"@, text: config_of(f, fsmonitor, lfs), atomic: true },
            )
            &&& files.contains(
                SeedView {
                    path: "objects/info/alternates"@,
                    text: "../gfs/objects\n"@,
                    atomic: false,
                },
            )
            &&& f.refs matches Some(refs) ==> files.contains(
                SeedView { path: "packed-refs"@, text: packed_refs_of(refs@), atomic: true },
            )
            &&& f.refs is None ==> (forall|i: int|
                0 <= i < files.len() && (#[trigger] files[i]).atomic ==> files[i].path == "config"@)
        }),
{
    let files = seed_of(f, preserve, fsmonitor, lfs);
    let n = files.len();
    let h = crate::gitdir::head_files(f, preserve);
    let m = h.len() as int;
    assert(files[m].path == "objects/info/alternates"@);
    assert(files[m + 1].path == "config"@);
    assert(files[m + 1].atomic);
    if f.refs is Some {
        assert(files[m + 2].path == "packed-refs"@);
    }
    assert forall|i: int| 0 <= i < m implies !(#[trigger] files[i]).atomic by {
        assert(files[i] == h[i]);
    }
}

// ---------------------------------------------------------------------------
// The description
// ---------------------------------------------------------------------------
/// Whether fields are a signature's: the bytes in full, and the text beside.
pub open spec fn signed(f: SignatureFields, s: Signature) -> bool {
    &&& b64url_decoded(f.name_b64url@) == Some(s.name@)
    &&& b64url_decoded(f.email_b64url@) == Some(s.email@)
    &&& f.name_text@ == crate::text::lossy(s.name@)
    &&& f.email_text@ == crate::text::lossy(s.email@)
    &&& f.time == s.time
    &&& f.tz_offset_minutes == s.tz_offset_minutes
}

/// The description names what the workspace is pinned to and how it is reached,
/// and its commit can be read back in full.
pub proof fn law_a_description_carries_the_facts(
    facts: &GitDirFacts,
    meta: &CommitMeta,
    res: GfsJson,
    fields: CommitFields,
)
    requires
        call_ensures(gfs_json, (facts,), res),
        call_ensures(commit_json, (meta,), fields),
    ensures
        res.repository_id@ == facts.repository_id@,
        res.commit@ == facts.commit@.qualified(),
        res.tree@ == facts.tree@.qualified(),
        opt_text(res.ref_name) == opt_text(facts.ref_name),
        res.mount_id@ == facts.mount_id@,
        res.generation == facts.generation,
        res.snapshot_time == facts.snapshot_time,
        res.grpc_endpoint@ == facts.grpc_endpoint@,
        res.http_endpoint@ == facts.http_endpoint@,
        res.control_socket@ == facts.control_socket@,
        res.commit_meta is Some <==> facts.commit_meta is Some,
        facts.commit_meta matches Some(m) ==> b64url_decoded(
            (res.commit_meta->0).message_b64url@,
        ) == Some(m.message@) && signed((res.commit_meta->0).author, m.author) && signed(
            (res.commit_meta->0).committer,
            m.committer,
        ),
        b64url_decoded(fields.message_b64url@) == Some(meta.message@),
        fields.message_text@ == crate::text::lossy(meta.message@),
        signed(fields.author, meta.author),
        signed(fields.committer, meta.committer),
        fields.parents@.len() == meta.parents@.len(),
        forall|i: int|
            0 <= i < meta.parents@.len() ==> (#[trigger] fields.parents@[i])@
                == meta.parents@[i]@.qualified(),
{
    law_b64url_round_trip(meta.message@);
    law_b64url_round_trip(meta.author.name@);
    law_b64url_round_trip(meta.author.email@);
    law_b64url_round_trip(meta.committer.name@);
    law_b64url_round_trip(meta.committer.email@);
    if facts.commit_meta is Some {
        let m = facts.commit_meta->0;
        law_b64url_round_trip(m.message@);
        law_b64url_round_trip(m.author.name@);
        law_b64url_round_trip(m.author.email@);
        law_b64url_round_trip(m.committer.name@);
        law_b64url_round_trip(m.committer.email@);
    }
}

} // verus!
