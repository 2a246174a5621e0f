//! What a workspace's git directory is seeded with.
//!
//! Texts are computed here; writing them is the caller's business. A file
//! marked atomic is written beside its place and renamed over it.
use vstd::prelude::*;
use crate::base64url::{b64url, b64url_encode};
use crate::bytes::{lemma_lex_asymmetric, lemma_lex_irreflexive, lex_lt, lex_lt_from};
use crate::entry::{copy_opt_text, opt_text, CommitMeta, RefTarget, Signature};
use crate::limits::{API_VERSION, STATE_FORMAT_VERSION};
use crate::local::{MountId, RepositoryId};
use crate::object::{ObjectId, ObjectIdView};
use crate::sorting::{
    index_views, key_views, lemma_sorted_order, sort_indices, sorted_order, NameOrder,
};
use crate::strings::{
    after_prefix, begins, char_position, find_char, json_text, json_text_field, opt_view,
    strip_text, trim_end_char, trim_text, trimmed, trimmed_end, white_space, without_trailing,
};
use crate::text::{decimal, digit_char, hex, lossy, lossy_text, push_decimal, utf8};
use crate::time::Timestamp;

verus! {

/// What a seed is made of.
#[derive(Debug)]
pub struct GitDirFacts {
    pub repository_id: RepositoryId,
    pub commit: ObjectId,
    pub tree: ObjectId,
    pub ref_name: Option<String>,
    pub mount_id: MountId,
    pub snapshot_time: Timestamp,
    pub grpc_endpoint: String,
    pub http_endpoint: String,
    pub generation: u64,
    pub control_socket: String,
    pub commit_meta: Option<CommitMeta>,
    /// The repository's refs; none when nobody answered for them.
    pub refs: Option<Vec<RefTarget>>,
    pub work_ref_root: Option<String>,
}

/// One file of a seed.
#[derive(Debug)]
pub struct SeedFile {
    /// The path below the git directory.
    pub path: String,
    pub text: String,
    pub atomic: bool,
}

/// What a [`SeedFile`] denotes.
#[verifier::ext_equal]
pub struct SeedView {
    pub path: Seq<char>,
    pub text: Seq<char>,
    pub atomic: bool,
}

impl View for SeedFile {
    type V = SeedView;

    open spec fn view(&self) -> SeedView {
        SeedView { path: self.path@, text: self.text@, atomic: self.atomic }
    }
}

/// Files as their meaning.
pub open spec fn seed_views(files: Seq<SeedFile>) -> Seq<SeedView> {
    Seq::new(files.len(), |i: int| files[i]@)
}

/// The first part of the configuration: stat data of another host is not
/// compared, and the caches that spare the tree walks are on.
pub const CONFIG_CORE: &'static str = "[core]\n\trepositoryformatversion = 0\n\tfilemode = true\n\tbare = false\n\tautocrlf = false\n\tlogallrefupdates = false\n# A shipped index's dev/ino/uid/gid cannot match this host; comparing them\n# would re-hash the whole tree (1 615 MiB on linux, measured).\n\tcheckStat = minimal\n\ttrustctime = false\n# The untracked cache kills the readdir walk; fsmonitor kills the lstat\n# sweep. Together: 108 445 lookups to 170 on the kernel tree.\n\tuntrackedCache = true\n";

/// The line that names the fsmonitor hook.
pub const CONFIG_FSMONITOR: &'static str = "\tfsmonitor = .git/hooks/gfs-fsmonitor\n";

/// The large-file filter.
pub const CONFIG_LFS: &'static str = "[filter \"lfs\"]\n\tclean = .git/hooks/gfs-lfs-filter clean %f\n\tsmudge = .git/hooks/gfs-lfs-filter smudge %f\n\tprocess = .git/hooks/gfs-lfs-filter process\n\trequired = true\n";

/// Maintenance never runs by itself.
pub const CONFIG_GC: &'static str = "# `repack -a` without `-l` copies every borrowed object out of the\n# projection -- 6.6 GiB on linux, measured. Maintenance is an operator\n# action against the gateway, never a side effect here.\n[gc]\n\tauto = 0\n[maintenance]\n\tauto = false\n";

/// What follows the remote's address.
pub const CONFIG_PUSH: &'static str = "\n\tfetch = +refs/heads/*:refs/remotes/origin/*\n[push]\n\tdefault = simple\n[credential]\n\thelper = \"!f() { echo username=x-access-token; echo password=$GFS_TOKEN; }; f\"\n";

/// The header of a packed-refs file.
pub const PACKED_HEADER: &'static str = "# pack-refs with: peeled fully-peeled sorted \n";

/// The configuration of a seeded git directory.
pub open spec fn config_of(f: GitDirFacts, fsmonitor: bool, lfs_filter: bool) -> Seq<char> {
    let a = if fsmonitor {
        CONFIG_CORE@ + CONFIG_FSMONITOR@
    } else {
        CONFIG_CORE@
    };
    let b = if lfs_filter {
        a + CONFIG_LFS@
    } else {
        a
    };
    let c = b + CONFIG_GC@;
    let d = if f.work_ref_root is Some {
        let remote = c + "[remote \"origin\"]\n\turl = "@ + without_trailing(f.http_endpoint@, '/')
            + "/v1/repos/"@ + f.repository_id@ + CONFIG_PUSH@;
        match branch_of(opt_view(f.ref_name)) {
            Some(branch) => remote + "[branch \""@ + branch
                + "\"]\n\tremote = origin\n\tmerge = refs/heads/"@ + branch + "\n"@,
            None => remote,
        }
    } else {
        c
    };
    d + "[gfs]\n\trepository = "@ + f.repository_id@ + "\n\tcommit = "@ + f.commit@.qualified()
        + "\n\tmount = "@ + f.mount_id@ + "\n\tgeneration = "@ + decimal(f.generation as nat) + "\n"@
}

/// The branch a ref name is of.
pub open spec fn branch_of(ref_name: Option<Seq<char>>) -> Option<Seq<char>> {
    match ref_name {
        Some(name) => after_prefix(name, "refs/heads/"@),
        None => None,
    }
}

fn branch_name(ref_name: &Option<String>) -> (res: Option<String>)
    ensures
        opt_view(res) == branch_of(opt_view(*ref_name)),
{
    match ref_name {
        Some(name) => strip_text(name.as_str(), "refs/heads/"),
        None => None,
    }
}

fn config_text(f: &GitDirFacts, fsmonitor: bool, lfs_filter: bool) -> (res: String)
    ensures
        res@ == config_of(*f, fsmonitor, lfs_filter),
{
    let mut out = CONFIG_CORE.to_owned();
    if fsmonitor {
        out.append(CONFIG_FSMONITOR);
    }
    if lfs_filter {
        out.append(CONFIG_LFS);
    }
    out.append(CONFIG_GC);
    if f.work_ref_root.is_some() {
        out.append("[remote \"origin\"]\n\turl = ");
        out.append(trim_end_char(f.http_endpoint.as_str(), '/').as_str());
        out.append("/v1/repos/");
        out.append(f.repository_id.as_str());
        out.append(CONFIG_PUSH);
        match branch_name(&f.ref_name) {
            Some(branch) => {
                out.append("[branch \"");
                out.append(branch.as_str());
                out.append("\"]\n\tremote = origin\n\tmerge = refs/heads/");
                out.append(branch.as_str());
                out.append("\n");
            },
            None => {},
        }
    }
    out.append("[gfs]\n\trepository = ");
    out.append(f.repository_id.as_str());
    out.append("\n\tcommit = ");
    out.append(f.commit.to_qualified().as_str());
    out.append("\n\tmount = ");
    out.append(f.mount_id.as_str());
    out.append("\n\tgeneration = ");
    push_decimal(&mut out, f.generation);
    out.append("\n");
    out
}

// ---------------------------------------------------------------------------
// Packed refs
// ---------------------------------------------------------------------------
/// One line of packed refs.
#[verifier::ext_equal]
pub struct PackedView {
    pub name: Seq<char>,
    pub target: Seq<u8>,
    pub peeled: Option<Seq<u8>>,
}

/// The name a ref is packed under: tags keep theirs, branches become
/// remote-tracking, and what the remote cannot refresh is left out.
pub open spec fn packed_name(name: Seq<char>) -> Option<Seq<char>> {
    match after_prefix(name, "refs/tags/"@) {
        Some(tag) => Some("refs/tags/"@ + tag),
        None => match after_prefix(name, "refs/heads/"@) {
            Some(branch) => Some("refs/remotes/origin/"@ + branch),
            None => None,
        },
    }
}

/// The lines of the first `n` refs, in their order.
pub open spec fn packed_lines(refs: Seq<RefTarget>, n: nat) -> Seq<PackedView>
    decreases n,
{
    if n == 0 {
        Seq::empty()
    } else {
        let before = packed_lines(refs, (n - 1) as nat);
        let r = refs[n - 1];
        match packed_name(r.name@) {
            Some(name) => before.push(
                PackedView {
                    name,
                    target: r.target@.digest,
                    peeled: match r.peeled {
                        Some(p) => Some(p@.digest),
                        None => None,
                    },
                },
            ),
            None => before,
        }
    }
}

/// A byte string that ends itself: what follows it does not change how it is
/// ordered. A zero byte inside it is told from its end.
pub open spec fn ended(bytes: Seq<u8>) -> Seq<u8>
    decreases bytes.len(),
{
    if bytes.len() == 0 {
        seq![0u8, 0u8]
    } else if bytes[0] == 0 {
        seq![0u8, 255u8] + ended(bytes.skip(1))
    } else {
        seq![bytes[0]] + ended(bytes.skip(1))
    }
}

/// Append a byte string that ends itself.
fn push_ended(out: &mut Vec<u8>, bytes: &[u8])
    ensures
        final(out)@ == old(out)@ + ended(bytes@),
{
    let ghost before = out@;
    let mut i: usize = 0;
    assert(bytes@.skip(0) =~= bytes@);
    while i < bytes.len()
        invariant
            i <= bytes@.len(),
            before + ended(bytes@) == out@ + ended(bytes@.skip(i as int)),
        decreases bytes.len() - i,
    {
        let ghost now = out@;
        let ghost rest = bytes@.skip(i as int);
        assert(rest[0] == bytes@[i as int]);
        assert(rest.skip(1) =~= bytes@.skip(i + 1));
        out.push(bytes[i]);
        if bytes[i] == 0 {
            out.push(255);
            assert(out@ =~= now + seq![0u8, 255u8]);
        } else {
            assert(out@ =~= now + seq![bytes@[i as int]]);
        }
        assert(now + ended(rest) =~= out@ + ended(rest.skip(1)));
        i = i + 1;
    }
    assert(bytes@.skip(i as int) =~= Seq::<u8>::empty());
    let ghost now = out@;
    out.push(0);
    out.push(0);
    assert(out@ =~= now + seq![0u8, 0u8]);
}

/// What lines are sorted by: the name, then the target, then the peeled one.
pub open spec fn line_key(l: PackedView) -> Seq<u8> {
    ended(utf8(l.name)) + utf8(hex(l.target)) + (match l.peeled {
        Some(p) => seq![1u8] + utf8(hex(p)),
        None => Seq::empty(),
    })
}

/// The keys of lines.
pub open spec fn line_keys(lines: Seq<PackedView>) -> Seq<Seq<u8>> {
    Seq::new(lines.len(), |i: int| line_key(lines[i]))
}

/// A line as text.
pub open spec fn line_text(l: PackedView) -> Seq<char> {
    let first = hex(l.target) + " "@ + l.name + "\n"@;
    match l.peeled {
        Some(p) => first + "^"@ + hex(p) + "\n"@,
        None => first,
    }
}

/// The header and the first `n` lines of an order.
pub open spec fn packed_text(lines: Seq<PackedView>, order: Seq<int>, n: nat) -> Seq<char>
    decreases n,
{
    if n == 0 {
        PACKED_HEADER@
    } else {
        packed_text(lines, order, (n - 1) as nat) + line_text(lines[order[n - 1]])
    }
}

/// The packed refs of a listing.
pub open spec fn packed_refs_of(refs: Seq<RefTarget>) -> Seq<char> {
    let lines = packed_lines(refs, refs.len());
    let order = sorted_order(NameOrder::Bytes, line_keys(lines));
    packed_text(lines, order, order.len())
}

#[derive(Debug)]
struct PackedLine {
    name: String,
    target: ObjectId,
    peeled: Option<ObjectId>,
}

impl PackedLine {
    spec fn view(&self) -> PackedView {
        PackedView {
            name: self.name@,
            target: self.target@.digest,
            peeled: match self.peeled {
                Some(p) => Some(p@.digest),
                None => None,
            },
        }
    }

    fn key(&self) -> (res: Vec<u8>)
        ensures
            res@ == line_key(self@),
    {
        let mut out: Vec<u8> = Vec::new();
        push_ended(&mut out, self.name.as_str().as_bytes());
        let target = self.target.to_hex();
        crate::bytes::append_bytes(&mut out, target.as_str().as_bytes());
        match &self.peeled {
            Some(p) => {
                out.push(1);
                let peeled = p.to_hex();
                crate::bytes::append_bytes(&mut out, peeled.as_str().as_bytes());
            },
            None => {},
        }
        assert(out@ =~= line_key(self@));
        out
    }

    fn push_text(&self, out: &mut String)
        ensures
            final(out)@ == old(out)@ + line_text(self@),
    {
        let ghost before = out@;
        out.append(self.target.to_hex().as_str());
        out.append(" ");
        out.append(self.name.as_str());
        out.append("\n");
        match &self.peeled {
            Some(p) => {
                out.append("^");
                out.append(p.to_hex().as_str());
                out.append("\n");
            },
            None => {},
        }
        assert(out@ =~= before + line_text(self@));
    }
}

spec fn packed_views(lines: Seq<PackedLine>) -> Seq<PackedView> {
    Seq::new(lines.len(), |i: int| lines[i]@)
}

fn rename_packed(name: &str) -> (res: Option<String>)
    ensures
        opt_view(res) == packed_name(name@),
{
    match strip_text(name, "refs/tags/") {
        Some(tag) => {
            let mut out = "refs/tags/".to_owned();
            out.append(tag.as_str());
            Some(out)
        },
        None => match strip_text(name, "refs/heads/") {
            Some(branch) => {
                let mut out = "refs/remotes/origin/".to_owned();
                out.append(branch.as_str());
                Some(out)
            },
            None => None,
        },
    }
}

/// The packed refs of a listing: sorted, branches as remote-tracking ones.
pub fn packed_refs(refs: &Vec<RefTarget>) -> (res: String)
    ensures
        res@ == packed_refs_of(refs@),
{
    let mut lines: Vec<PackedLine> = Vec::new();
    let mut i: usize = 0;
    assert(packed_views(lines@) =~= packed_lines(refs@, 0));
    while i < refs.len()
        invariant
            i <= refs@.len(),
            packed_views(lines@) == packed_lines(refs@, i as nat),
        decreases refs.len() - i,
    {
        let r = &refs[i];
        let ghost before = lines@;
        match rename_packed(r.name.as_str()) {
            Some(name) => {
                let peeled = match &r.peeled {
                    Some(p) => Some(p.duplicate()),
                    None => None,
                };
                let line = PackedLine { name, target: r.target.duplicate(), peeled };
                lines.push(line);
                assert(packed_views(lines@) =~= packed_views(before).push(line@));
            },
            None => {},
        }
        i = i + 1;
    }
    let ghost all = packed_lines(refs@, refs@.len());
    let mut keys: Vec<Vec<u8>> = Vec::new();
    let mut j: usize = 0;
    while j < lines.len()
        invariant
            j <= lines@.len(),
            packed_views(lines@) == all,
            keys@.len() == j,
            forall|k: int| 0 <= k < j ==> (#[trigger] keys@[k])@ == line_key(all[k]),
        decreases lines.len() - j,
    {
        assert(lines@[j as int]@ == all[j as int]);
        keys.push(lines[j].key());
        j = j + 1;
    }
    assert(key_views(keys@) =~= line_keys(all));
    let order = sort_indices(NameOrder::Bytes, &keys);
    let ghost o = index_views(order@);
    let mut out = PACKED_HEADER.to_owned();
    let mut n: usize = 0;
    while n < order.len()
        invariant
            n <= order@.len(),
            o == index_views(order@),
            packed_views(lines@) == all,
            order@.len() == lines@.len(),
            forall|i: int| 0 <= i < order@.len() ==> #[trigger] order@[i] < lines@.len(),
            out@ == packed_text(all, o, n as nat),
        decreases order.len() - n,
    {
        assert(o[n as int] == order@[n as int]);
        let at = order[n];
        assert(lines@[at as int]@ == all[at as int]);
        lines[at].push_text(&mut out);
        n = n + 1;
    }
    out
}

proof fn lemma_lex_cons(a: Seq<u8>, b: Seq<u8>, h: u8, i: nat)
    ensures
        lex_lt_from(seq![h] + a, seq![h] + b, i + 1) == lex_lt_from(a, b, i),
    decreases a.len() - i,
{
    let x = seq![h] + a;
    let y = seq![h] + b;
    if i < a.len() && i < b.len() {
        assert(x[i as int + 1] == a[i as int] && y[i as int + 1] == b[i as int]);
        lemma_lex_cons(a, b, h, i + 1);
    }
}

proof fn lemma_lex_tail(a: Seq<u8>, b: Seq<u8>)
    requires
        a.len() > 0,
        b.len() > 0,
        a[0] == b[0],
    ensures
        lex_lt(a, b) == lex_lt(a.skip(1), b.skip(1)),
{
    lemma_lex_cons(a.skip(1), b.skip(1), a[0], 0);
    assert(a =~= seq![a[0]] + a.skip(1));
    assert(b =~= seq![b[0]] + b.skip(1));
}

/// Byte strings that end themselves are ordered as the strings are.
proof fn lemma_ended_keeps_order(a: Seq<u8>, b: Seq<u8>, x: Seq<u8>, y: Seq<u8>)
    requires
        lex_lt(a, b),
    ensures
        lex_lt(ended(a) + x, ended(b) + y),
    decreases a.len(),
{
    let p = ended(a) + x;
    let q = ended(b) + y;
    if a.len() == 0 {
        assert(p[0] == 0 && p[1] == 0);
        if b[0] == 0 {
            assert(q[0] == 0 && q[1] == 255);
            lemma_lex_tail(p, q);
        } else {
            assert(q[0] == b[0]);
        }
    } else if a[0] == b[0] {
        lemma_lex_tail(a, b);
        let a1 = a.skip(1);
        let b1 = b.skip(1);
        lemma_ended_keeps_order(a1, b1, x, y);
        let p1 = ended(a1) + x;
        let q1 = ended(b1) + y;
        if a[0] == 0 {
            assert(p =~= seq![0u8, 255u8] + p1);
            assert(q =~= seq![0u8, 255u8] + q1);
            lemma_lex_tail(p, q);
            lemma_lex_tail(p.skip(1), q.skip(1));
            assert(p.skip(1).skip(1) =~= p1);
            assert(q.skip(1).skip(1) =~= q1);
        } else {
            assert(p =~= seq![a[0]] + p1);
            assert(q =~= seq![a[0]] + q1);
            lemma_lex_tail(p, q);
            assert(p.skip(1) =~= p1);
            assert(q.skip(1) =~= q1);
        }
    } else {
        assert(p[0] == a[0] && q[0] == b[0]);
    }
}

/// Packed refs come sorted by name, as their header says, and every ref that
/// is packed has one line.
pub proof fn law_packed_refs_are_sorted(refs: Seq<RefTarget>)
    ensures
        ({
            let lines = packed_lines(refs, refs.len());
            let order = sorted_order(NameOrder::Bytes, line_keys(lines));
            &&& order.len() == lines.len()
            &&& forall|v: int|
                order.to_multiset().count(v) == (if 0 <= v < lines.len() {
                    1nat
                } else {
                    0nat
                })
            &&& forall|i: int, j: int|
                0 <= i < j < order.len() ==> !lex_lt(
                    utf8(lines[#[trigger] order[j]].name),
                    utf8(lines[#[trigger] order[i]].name),
                )
        }),
{
    let lines = packed_lines(refs, refs.len());
    let keys = line_keys(lines);
    let order = sorted_order(NameOrder::Bytes, keys);
    lemma_sorted_order(NameOrder::Bytes, keys, keys.len());
    assert forall|i: int, j: int| 0 <= i < j < order.len() implies !lex_lt(
        utf8(lines[#[trigger] order[j]].name),
        utf8(lines[#[trigger] order[i]].name),
    ) by {
        let a = lines[order[j]];
        let b = lines[order[i]];
        if lex_lt(utf8(a.name), utf8(b.name)) {
            let x = line_key(a).skip(ended(utf8(a.name)).len() as int);
            let y = line_key(b).skip(ended(utf8(b.name)).len() as int);
            assert(line_key(a) =~= ended(utf8(a.name)) + x);
            assert(line_key(b) =~= ended(utf8(b.name)) + y);
            lemma_ended_keeps_order(utf8(a.name), utf8(b.name), x, y);
            lemma_lex_asymmetric(line_key(a), line_key(b));
            lemma_lex_irreflexive(line_key(a), 0);
            assert(0 <= order[i] < lines.len() && 0 <= order[j] < lines.len());
            assert(keys[order[i]] == line_key(b) && keys[order[j]] == line_key(a));
        }
    }
}

/// Branches are packed as remote-tracking and tags under their own names: no
/// packed line can collide with a branch of the workspace.
pub proof fn law_no_local_branch_is_packed(refs: Seq<RefTarget>, n: nat)
    requires
        n <= refs.len(),
    ensures
        forall|i: int|
            0 <= i < packed_lines(refs, n).len() ==> {
                let name = (#[trigger] packed_lines(refs, n)[i]).name;
                &&& begins(name, "refs/tags/"@) || begins(name, "refs/remotes/origin/"@)
                &&& !begins(name, "refs/heads/"@)
            },
    decreases n,
{
    reveal_strlit("refs/tags/");
    reveal_strlit("refs/heads/");
    reveal_strlit("refs/remotes/origin/");
    if n > 0 {
        law_no_local_branch_is_packed(refs, (n - 1) as nat);
        match packed_name(refs[n - 1].name@) {
            Some(name) => {
                if begins(name, "refs/heads/"@) {
                    assert(name.take(11)[5] == name[5]);
                }
                assert(begins(name, "refs/tags/"@) || begins(name, "refs/remotes/origin/"@)) by {
                    let tag = "refs/tags/"@;
                    let remote = "refs/remotes/origin/"@;
                    if name.take(10) =~= tag {
                    } else {
                        assert(name.take(20) =~= remote);
                    }
                }
            },
            None => {},
        }
    }
}

// ---------------------------------------------------------------------------
// The seed
// ---------------------------------------------------------------------------
/// What HEAD and the branch it names are seeded with: a branch is symbolic,
/// anything else is detached, and a head that moved locally is left alone.
pub open spec fn head_files(f: GitDirFacts, preserve: bool) -> Seq<SeedView> {
    if preserve {
        Seq::empty()
    } else {
        match opt_view(f.ref_name) {
            Some(name) => if begins(name, "refs/heads/"@) {
                seq![
                    SeedView { path: "HEAD"@, text: "ref: "@ + name + "\n"@, atomic: false },
                    SeedView { path: name, text: hex(f.commit@.digest) + "\n"@, atomic: false },
                ]
            } else {
                seq![
                    SeedView { path: "HEAD"@, text: hex(f.commit@.digest) + "\n"@, atomic: false },
                ]
            },
            None => seq![
                SeedView { path: "HEAD"@, text: hex(f.commit@.digest) + "\n"@, atomic: false },
            ],
        }
    }
}

/// The files of a seed, in the order they are written. Refs nobody answered
/// for leave the previous ones alone.
pub open spec fn seed_of(
    f: GitDirFacts,
    preserve: bool,
    fsmonitor: bool,
    lfs_filter: bool,
) -> Seq<SeedView> {
    let plain = head_files(f, preserve).push(
        SeedView { path: "objects/info/alternates"@, text: "../gfs/objects\n"@, atomic: false },
    ).push(
        SeedView { path: "config"@, text: config_of(f, fsmonitor, lfs_filter), atomic: true },
    );
    match f.refs {
        Some(refs) => plain.push(
            SeedView { path: "packed-refs"@, text: packed_refs_of(refs@), atomic: true },
        ),
        None => plain,
    }
}

fn push_file(files: &mut Vec<SeedFile>, path: &str, text: String, atomic: bool)
    ensures
        seed_views(final(files)@) == seed_views(old(files)@).push(
            SeedView { path: path@, text: text@, atomic },
        ),
{
    let ghost before = files@;
    let file = SeedFile { path: path.to_owned(), text, atomic };
    files.push(file);
    assert(seed_views(files@) =~= seed_views(before).push(file@));
}

/// The files a git directory is seeded with, in the order they are written.
pub fn seed_git_dir(
    facts: &GitDirFacts,
    preserve_local_head: bool,
    fsmonitor: bool,
    lfs_filter: bool,
) -> (res: Vec<SeedFile>)
    ensures
        seed_views(res@) == seed_of(*facts, preserve_local_head, fsmonitor, lfs_filter),
{
    let mut files: Vec<SeedFile> = Vec::new();
    assert(seed_views(files@) =~= Seq::<SeedView>::empty());
    if !preserve_local_head {
        let mut commit = facts.commit.to_hex();
        commit.append("\n");
        let branch = branch_name(&facts.ref_name);
        match &facts.ref_name {
            Some(name) => {
                if branch.is_some() {
                    let mut head = "ref: ".to_owned();
                    head.append(name.as_str());
                    head.append("\n");
                    push_file(&mut files, "HEAD", head, false);
                    push_file(&mut files, name.as_str(), commit, false);
                } else {
                    push_file(&mut files, "HEAD", commit, false);
                }
            },
            None => {
                push_file(&mut files, "HEAD", commit, false);
            },
        }
    }
    assert(seed_views(files@) =~= head_files(*facts, preserve_local_head));
    push_file(&mut files, "objects/info/alternates", "../gfs/objects\n".to_owned(), false);
    push_file(&mut files, "config", config_text(facts, fsmonitor, lfs_filter), true);
    match &facts.refs {
        Some(refs) => {
            push_file(&mut files, "packed-refs", packed_refs(refs), true);
        },
        None => {},
    }
    files
}

/// A seed that preserves the local head writes neither HEAD nor a branch.
pub proof fn law_a_preserving_seed_leaves_the_head(
    f: GitDirFacts,
    fsmonitor: bool,
    lfs_filter: bool,
    i: int,
)
    requires
        0 <= i < seed_of(f, true, fsmonitor, lfs_filter).len(),
    ensures
        ({
            let path = seed_of(f, true, fsmonitor, lfs_filter)[i].path;
            path == "objects/info/alternates"@ || path == "config"@ || path == "packed-refs"@
        }),
{
}

/// The text of a file of a seed; the last one written stands.
pub open spec fn text_at(files: Seq<SeedView>, path: Seq<char>) -> Option<Seq<char>>
    decreases files.len(),
{
    if files.len() == 0 {
        None
    } else if files.last().path == path {
        Some(files.last().text)
    } else {
        text_at(files.drop_last(), path)
    }
}

/// The commit the HEAD of a seed leads to, read as [`local_head`] and
/// [`branch_commit`] read it.
pub open spec fn head_commit(files: Seq<SeedView>) -> Option<Seq<char>> {
    match text_at(files, "HEAD"@) {
        None => None,
        Some(head) => match after_prefix(trimmed(head), "ref: "@) {
            None => Some(trimmed(head)),
            Some(name) => match text_at(files, trimmed(name)) {
                None => None,
                Some(text) => Some(trimmed(text)),
            },
        },
    }
}

proof fn lemma_hex_is_no_space(bytes: Seq<u8>, i: int)
    requires
        0 <= i < hex(bytes).len(),
    ensures
        !white_space(hex(bytes)[i]),
        hex(bytes)[i] != 'r',
        hex(bytes)[i] != ':',
{
    let d: nat = if i % 2 == 0 {
        (bytes[i / 2] / 16) as nat
    } else {
        (bytes[i / 2] % 16) as nat
    };
    assert(d < 16);
    assert(hex(bytes)[i] == digit_char(d));
}

proof fn lemma_trimmed_line(text: Seq<char>)
    requires
        text.len() > 0 ==> !white_space(text[0]) && !white_space(text.last()),
    ensures
        trimmed(text + "\n"@) == text,
        trimmed(text) == text,
{
    reveal_strlit("\n");
    let line = text + "\n"@;
    assert(line.drop_last() =~= text);
    assert(white_space(line.last()));
    assert(trimmed_end(text) == text);
    assert(trimmed_end(line) == text);
    assert(trimmed(text) == text);
    if text.len() > 0 {
        assert(line[0] == text[0]);
    } else {
        assert(line[0] == '\n' && white_space(line[0]));
        assert(line.skip(1) =~= text);
    }
}

/// A seed leads to the commit it was made for: its HEAD, read back, is the
/// pinned commit. A branch name neither starts nor ends with white space.
pub proof fn law_a_seed_leads_to_the_pin(f: GitDirFacts, fsmonitor: bool, lfs_filter: bool)
    requires
        opt_view(f.ref_name) matches Some(name) ==> begins(name, "refs/heads/"@) ==> trimmed(name)
            == name,
    ensures
        head_commit(seed_of(f, false, fsmonitor, lfs_filter)) == Some(hex(f.commit@.digest)),
{
    reveal_strlit("HEAD");
    reveal_strlit("ref: ");
    reveal_strlit("refs/heads/");
    reveal_strlit("config");
    reveal_strlit("packed-refs");
    reveal_strlit("objects/info/alternates");
    let files = seed_of(f, false, fsmonitor, lfs_filter);
    let heads = head_files(f, false);
    let commit = hex(f.commit@.digest);
    if commit.len() > 0 {
        lemma_hex_is_no_space(f.commit@.digest, 0);
        lemma_hex_is_no_space(f.commit@.digest, commit.len() - 1);
    }
    lemma_trimmed_line(commit);
    assert forall|path: Seq<char>|
        path != "objects/info/alternates"@ && path != "config"@ && path
            != "packed-refs"@ implies #[trigger] text_at(files, path) == text_at(heads, path) by {
        lemma_text_at_tail(f, fsmonitor, lfs_filter, path);
    }
    assert("HEAD"@.len() == 4 && "config"@.len() == 6 && "packed-refs"@.len() == 11);
    assert(text_at(files, "HEAD"@) == text_at(heads, "HEAD"@));
    match opt_view(f.ref_name) {
        Some(name) if begins(name, "refs/heads/"@) => {
            assert(name.take(11)[0] == name[0]);
            assert(name[0] == 'r');
            assert("packed-refs"@[0] == 'p' && "objects/info/alternates"@[0] == 'o');
            assert(text_at(files, name) == text_at(heads, name));
            let head = "ref: "@ + name;
            lemma_trimmed_ends(name);
            assert(head.last() == name.last() && head[0] == 'r');
            lemma_trimmed_line(head);
            assert("ref: "@ + name + "\n"@ == head + "\n"@);
            assert(head.take(5) =~= "ref: "@);
            assert(head.skip(5) =~= name);
            assert(heads.drop_last() =~= seq![heads[0]]);
            assert(heads[1].path == name && name != "HEAD"@);
            assert(text_at(heads.drop_last(), "HEAD"@) == Some(heads[0].text));
            assert(text_at(heads, "HEAD"@) == Some("ref: "@ + name + "\n"@));
            assert(text_at(heads, name) == Some(commit + "\n"@));
            assert(after_prefix(head, "ref: "@) == Some(name));
        },
        _ => {
            assert(text_at(heads, "HEAD"@) == Some(commit + "\n"@));
            if commit.len() >= 5 && begins(commit, "ref: "@) {
                assert(commit.take(5)[0] == commit[0]);
            }
        },
    }
}

proof fn lemma_trimmed_ends(text: Seq<char>)
    requires
        trimmed(text) == text,
        text.len() > 0,
    ensures
        !white_space(text.last()),
{
    lemma_trimmed_shrinks(text);
    if white_space(text.last()) {
        lemma_trimmed_end_shrinks(text.drop_last());
        if white_space(text[0]) {
            lemma_trimmed_shrinks(text.skip(1));
        }
    }
}

proof fn lemma_trimmed_end_shrinks(text: Seq<char>)
    ensures
        trimmed_end(text).len() <= text.len(),
    decreases text.len(),
{
    if text.len() > 0 && white_space(text.last()) {
        lemma_trimmed_end_shrinks(text.drop_last());
    }
}

proof fn lemma_trimmed_shrinks(text: Seq<char>)
    ensures
        trimmed(text).len() <= text.len(),
    decreases text.len(),
{
    if text.len() > 0 && white_space(text[0]) {
        lemma_trimmed_shrinks(text.skip(1));
    } else {
        lemma_trimmed_end_shrinks(text);
    }
}

proof fn lemma_text_at_tail(f: GitDirFacts, fsmonitor: bool, lfs_filter: bool, path: Seq<char>)
    requires
        path != "objects/info/alternates"@,
        path != "config"@,
        path != "packed-refs"@,
    ensures
        text_at(seed_of(f, false, fsmonitor, lfs_filter), path) == text_at(
            head_files(f, false),
            path,
        ),
{
    let heads = head_files(f, false);
    let a = heads.push(
        SeedView { path: "objects/info/alternates"@, text: "../gfs/objects\n"@, atomic: false },
    );
    let b = a.push(
        SeedView { path: "config"@, text: config_of(f, fsmonitor, lfs_filter), atomic: true },
    );
    assert(a.drop_last() =~= heads && b.drop_last() =~= a);
    assert(text_at(a, path) == text_at(heads, path));
    assert(text_at(b, path) == text_at(a, path));
    match f.refs {
        Some(refs) => {
            let c = b.push(
                SeedView { path: "packed-refs"@, text: packed_refs_of(refs@), atomic: true },
            );
            assert(c.drop_last() =~= b && c.last().path == "packed-refs"@);
            assert(text_at(c, path) == text_at(b, path));
            assert(seed_of(f, false, fsmonitor, lfs_filter) == c);
        },
        None => {},
    }
}

/// The script of a helper hook.
pub fn hook_script(binary: &str) -> (res: String)
    ensures
        res@ == "#!/bin/sh\nexec "@ + binary@ + " \"$@\"\n"@,
{
    let mut out = "#!/bin/sh\nexec ".to_owned();
    out.append(binary);
    out.append(" \"$@\"\n");
    out
}

// ---------------------------------------------------------------------------
// Reading a seed back
// ---------------------------------------------------------------------------
/// What a HEAD file says.
#[derive(Debug)]
pub enum Head {
    /// It names a ref, whose file holds the commit.
    Symbolic(String),
    /// It holds the commit.
    Detached(String),
}

/// What a HEAD file says.
pub fn local_head(head: &str) -> (res: Head)
    ensures
        match after_prefix(trimmed(head@), "ref: "@) {
            Some(name) => res matches Head::Symbolic(n) && n@ == trimmed(name),
            None => res matches Head::Detached(c) && c@ == trimmed(head@),
        },
{
    let text = trim_text(head);
    match strip_text(text.as_str(), "ref: ") {
        Some(name) => Head::Symbolic(trim_text(name.as_str())),
        None => Head::Detached(text),
    }
}

/// The commit a branch file holds.
pub fn branch_commit(content: &str) -> (res: String)
    ensures
        res@ == trimmed(content@),
{
    trim_text(content)
}

/// The digest of a qualified object ID: what follows the first colon.
pub open spec fn digest_part(qualified: Option<Seq<char>>) -> Option<Seq<char>> {
    match qualified {
        Some(text) => {
            let colon = find_char(text, ':', 0);
            if colon < text.len() {
                Some(text.skip(colon + 1))
            } else {
                None
            }
        },
        None => None,
    }
}

/// The digest of a qualified object ID: what follows the first colon.
pub fn digest_of(qualified: Option<String>) -> (res: Option<String>)
    ensures
        opt_view(res) == digest_part(opt_view(qualified)),
{
    match qualified {
        Some(text) => {
            let colon = char_position(text.as_str(), ':');
            let n = text.as_str().unicode_len();
            if colon >= n {
                return None;
            }
            let rest = text.as_str().substring_char(colon + 1, n).to_owned();
            assert(rest@ =~= text@.skip(colon + 1));
            Some(rest)
        },
        None => None,
    }
}

/// The commit a seed's description says the directory was seeded at.
pub fn seeded_commit(gfs_json: &[u8]) -> (res: Option<String>)
    ensures
        opt_view(res) == digest_part(json_text(gfs_json@, "commit"@)),
{
    digest_of(json_text_field(gfs_json, "commit"))
}

/// The digest read out of a description is the digest of the commit it was
/// written for.
pub proof fn law_a_qualified_name_gives_its_digest(id: ObjectIdView)
    ensures
        digest_part(Some(id.qualified())) == Some(hex(id.digest)),
{
    reveal_strlit("sha1:");
    reveal_strlit("sha256:");
    reveal_strlit("lfs-sha256:");
    let prefix = id.algorithm.prefix();
    let text = id.qualified();
    let n = prefix.len() - 1;
    assert(forall|k: int| 0 <= k < n ==> text[k] == prefix[k]);
    assert(forall|k: int| 0 <= k < n ==> text[k] != ':');
    assert(text[n] == ':');
    lemma_find_char(text, ':', 0, n as int);
    assert(text.skip(n + 1) =~= hex(id.digest));
}

proof fn lemma_find_char(text: Seq<char>, c: char, k: int, at: int)
    requires
        0 <= k <= at < text.len(),
        text[at] == c,
        forall|i: int| k <= i < at ==> text[i] != c,
    ensures
        find_char(text, c, k) == at,
    decreases at - k,
{
    if k < at {
        lemma_find_char(text, c, k + 1, at);
    }
}

// ---------------------------------------------------------------------------
// The description of a seed
// ---------------------------------------------------------------------------
/// A signature, for the description: bytes in base64 beside a readable text.
#[derive(Debug)]
pub struct SignatureFields {
    pub name_b64url: String,
    pub name_text: String,
    pub email_b64url: String,
    pub email_text: String,
    pub time: Timestamp,
    pub tz_offset_minutes: i32,
}

/// Whether fields describe a signature.
pub open spec fn describes_signature(f: SignatureFields, s: Signature) -> bool {
    &&& f.name_b64url@ == b64url(s.name@)
    &&& f.name_text@ == lossy(s.name@)
    &&& f.email_b64url@ == b64url(s.email@)
    &&& f.email_text@ == lossy(s.email@)
    &&& f.time == s.time
    &&& f.tz_offset_minutes == s.tz_offset_minutes
}

fn signature_fields(s: &Signature) -> (res: SignatureFields)
    ensures
        describes_signature(res, *s),
{
    SignatureFields {
        name_b64url: b64url_encode(s.name.as_slice()),
        name_text: lossy_text(s.name.as_slice()),
        email_b64url: b64url_encode(s.email.as_slice()),
        email_text: lossy_text(s.email.as_slice()),
        time: s.time,
        tz_offset_minutes: s.tz_offset_minutes,
    }
}

/// A commit, for the description.
#[derive(Debug)]
pub struct CommitFields {
    pub parents: Vec<String>,
    pub author: SignatureFields,
    pub committer: SignatureFields,
    pub message_b64url: String,
    pub message_text: String,
}

/// Whether fields describe a commit.
pub open spec fn describes_commit(f: CommitFields, m: CommitMeta) -> bool {
    &&& f.parents@.len() == m.parents@.len()
    &&& forall|i: int|
        0 <= i < m.parents@.len() ==> (#[trigger] f.parents@[i])@ == m.parents@[i]@.qualified()
    &&& describes_signature(f.author, m.author)
    &&& describes_signature(f.committer, m.committer)
    &&& f.message_b64url@ == b64url(m.message@)
    &&& f.message_text@ == lossy(m.message@)
}

/// A commit, for the description.
pub fn commit_json(meta: &CommitMeta) -> (res: CommitFields)
    ensures
        describes_commit(res, *meta),
{
    let mut parents: Vec<String> = Vec::new();
    let mut i: usize = 0;
    while i < meta.parents.len()
        invariant
            i <= meta.parents@.len(),
            parents@.len() == i,
            forall|k: int|
                0 <= k < i ==> (#[trigger] parents@[k])@ == meta.parents@[k]@.qualified(),
        decreases meta.parents.len() - i,
    {
        parents.push(meta.parents[i].to_qualified());
        i = i + 1;
    }
    CommitFields {
        parents,
        author: signature_fields(&meta.author),
        committer: signature_fields(&meta.committer),
        message_b64url: b64url_encode(meta.message.as_slice()),
        message_text: lossy_text(meta.message.as_slice()),
    }
}

/// The description written beside a seed.
#[derive(Debug)]
pub struct GfsJson {
    pub api_version: String,
    pub state_format_version: u32,
    pub repository_id: String,
    pub commit: String,
    pub tree: String,
    pub ref_name: Option<String>,
    pub mount_id: String,
    pub generation: u64,
    pub snapshot_time: Timestamp,
    pub grpc_endpoint: String,
    pub http_endpoint: String,
    pub read_only: bool,
    pub workspace_writable: bool,
    pub control_socket: String,
    pub surface: String,
    /// Where the reasons for the layout are written down.
    pub adr: String,
    pub commit_meta: Option<CommitFields>,
}

/// The description of a seed.
pub fn gfs_json(facts: &GitDirFacts) -> (res: GfsJson)
    ensures
        res.api_version@ == API_VERSION@,
        res.state_format_version == STATE_FORMAT_VERSION,
        res.repository_id@ == facts.repository_id@,
        res.commit@ == facts.commit@.qualified(),
        res.tree@ == facts.tree@.qualified(),
        opt_text(res.ref_name) == opt_text(facts.ref_name),
        res.mount_id@ == facts.mount_id@,
        res.generation == facts.generation,
        res.snapshot_time == facts.snapshot_time,
        res.grpc_endpoint@ == facts.grpc_endpoint@,
        res.http_endpoint@ == facts.http_endpoint@,
        res.read_only,
        res.workspace_writable,
        res.control_socket@ == facts.control_socket@,
        res.surface@ == "real"@,
        res.adr@ == "docs/adr/0011-single-mount-workspace.md"@,
        match facts.commit_meta {
            Some(meta) => res.commit_meta matches Some(f) && describes_commit(f, meta),
            None => res.commit_meta is None,
        },
{
    let commit_meta = match &facts.commit_meta {
        Some(meta) => Some(commit_json(meta)),
        None => None,
    };
    GfsJson {
        api_version: API_VERSION.to_owned(),
        state_format_version: STATE_FORMAT_VERSION,
        repository_id: facts.repository_id.as_str().to_owned(),
        commit: facts.commit.to_qualified(),
        tree: facts.tree.to_qualified(),
        ref_name: copy_opt_text(&facts.ref_name),
        mount_id: facts.mount_id.as_str().to_owned(),
        generation: facts.generation,
        snapshot_time: facts.snapshot_time,
        grpc_endpoint: facts.grpc_endpoint.clone(),
        http_endpoint: facts.http_endpoint.clone(),
        read_only: true,
        workspace_writable: true,
        control_socket: facts.control_socket.clone(),
        surface: "real".to_owned(),
        adr: "docs/adr/0011-single-mount-workspace.md".to_owned(),
        commit_meta,
    }
}

} // verus!
