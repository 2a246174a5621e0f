use gfs::entry::{CommitMeta, RefTarget, Signature};
use gfs::gitdir::{
    branch_commit, commit_json, digest_of, gfs_json, hook_script, local_head, packed_refs,
    seed_git_dir, seeded_commit, GitDirFacts, Head, SeedFile,
};
use gfs::local::{repository_id_for, MountId};
use gfs::object::{HashAlgorithm, ObjectId};
use gfs::time::Timestamp;

fn id(byte: u8) -> ObjectId {
    ObjectId::from_raw(HashAlgorithm::Sha1, &[byte; 20]).unwrap()
}

fn facts(ref_name: Option<&str>) -> GitDirFacts {
    GitDirFacts {
        repository_id: repository_id_for(b"r-git"),
        commit: id(0xab),
        tree: id(0xcd),
        ref_name: ref_name.map(str::to_owned),
        mount_id: MountId::new("m-1".to_owned()),
        control_socket: "/run/gfs/control.sock".to_owned(),
        snapshot_time: Timestamp::from_secs(1_600_000_000),
        grpc_endpoint: "http://127.0.0.1:8431".to_owned(),
        http_endpoint: "http://127.0.0.1:8430".to_owned(),
        generation: 1,
        commit_meta: None,
        refs: Some(vec![
            RefTarget {
                name: "refs/heads/main".to_owned(),
                target: id(0xab),
                peeled: None,
            },
            // An annotated tag: the target is the tag object, the peel is the
            // commit.
            RefTarget {
                name: "refs/tags/v1.0".to_owned(),
                target: id(0x11),
                peeled: Some(id(0xab)),
            },
            // Neither a head nor a tag.
            RefTarget {
                name: "refs/notes/commits".to_owned(),
                target: id(0x22),
                peeled: None,
            },
        ]),
        work_ref_root: Some("refs/gfs/work/job-owner".to_owned()),
    }
}

fn written<'a>(files: &'a [SeedFile], path: &str) -> Option<&'a str> {
    files
        .iter()
        .find(|f| f.path == path)
        .map(|f| f.text.as_str())
}

#[test]
fn the_seed_packs_tags_verbatim_and_branches_as_remote_tracking() {
    let files = seed_git_dir(&facts(Some("refs/heads/main")), false, false, false);
    let packed = written(&files, "packed-refs").unwrap();
    let expected = format!(
        "# pack-refs with: peeled fully-peeled sorted \n\
         {commit} refs/remotes/origin/main\n\
         {tag} refs/tags/v1.0\n\
         ^{commit}\n",
        commit = "ab".repeat(20),
        tag = "11".repeat(20),
    );
    assert_eq!(
        packed, expected,
        "branches are remote-tracking, tags keep their name and carry their peel"
    );
    assert!(
        !packed.contains("refs/heads/"),
        "an upstream branch in refs/heads would collide with the agent's own"
    );
    assert!(
        !packed.contains("refs/notes/"),
        "a ref the seeded refspec cannot refresh is left out"
    );
    // The upstream that makes `git status -sb` print ahead/behind.
    let config = written(&files, "config").unwrap();
    assert!(config.contains("[branch \"main\"]"), "{config}");
    assert!(config.contains("merge = refs/heads/main"), "{config}");
}

#[test]
fn an_unanswered_ref_listing_leaves_the_previous_view_alone() {
    let before = seed_git_dir(&facts(Some("refs/heads/main")), false, false, false);
    assert!(written(&before, "packed-refs").is_some());

    let mut unanswered = facts(Some("refs/heads/main"));
    unanswered.refs = None;
    let after = seed_git_dir(&unanswered, false, false, false);
    assert!(written(&after, "packed-refs").is_none());
}

#[test]
fn the_seed_writes_a_relative_alternates_and_no_worktree() {
    let files = seed_git_dir(&facts(Some("refs/heads/main")), false, false, false);
    assert_eq!(
        written(&files, "objects/info/alternates").unwrap(),
        "../gfs/objects\n"
    );
    let config = written(&files, "config").unwrap();
    assert!(
        !config.contains("worktree"),
        "no location dependence:\n{config}"
    );
    assert!(config.contains("checkStat = minimal"));
}

#[test]
fn a_branch_seed_produces_a_symbolic_head_and_a_tag_a_detached_one() {
    let files = seed_git_dir(&facts(Some("refs/heads/main")), false, false, false);
    assert_eq!(written(&files, "HEAD").unwrap(), "ref: refs/heads/main\n");
    match local_head(written(&files, "HEAD").unwrap()) {
        Head::Symbolic(name) => assert_eq!(
            branch_commit(written(&files, &name).unwrap()),
            "ab".repeat(20),
            "the branch ref names the pinned commit"
        ),
        Head::Detached(_) => panic!("a branch seed is symbolic"),
    }

    let detached = seed_git_dir(&facts(Some("refs/tags/v1")), false, false, false);
    assert_eq!(
        written(&detached, "HEAD").unwrap(),
        format!("{}\n", "ab".repeat(20))
    );
    match local_head(written(&detached, "HEAD").unwrap()) {
        Head::Detached(commit) => assert_eq!(commit, "ab".repeat(20)),
        Head::Symbolic(_) => panic!("a tag seed is detached"),
    }
}

#[test]
fn a_preserving_seed_leaves_the_moved_head_and_refreshes_everything_else() {
    let files = seed_git_dir(&facts(Some("refs/heads/main")), true, false, false);
    assert!(written(&files, "HEAD").is_none());
    assert!(
        written(&files, "refs/heads/main").is_none(),
        "the local commit survives"
    );
    assert!(written(&files, "config").is_some());
    assert!(written(&files, "packed-refs").is_some());
    assert_eq!(
        gfs_json(&facts(Some("refs/heads/main"))).commit,
        format!("sha1:{}", "ab".repeat(20)),
        "the summary still names the base the seed pinned"
    );
}

#[test]
fn gfs_json_is_valid_json_naming_the_pinned_commit() {
    let value = gfs_json(&facts(Some("refs/heads/main")));
    assert_eq!(
        value.commit,
        "sha1:abababababababababababababababababababab"
    );
    assert_eq!(value.control_socket, "/run/gfs/control.sock");
    // What `seeded_commit` reads back for the adoption guard.
    let mut map = serde_json::Map::new();
    map.insert(
        "commit".to_owned(),
        serde_json::Value::String(gfs_json(&facts(None)).commit),
    );
    let bytes = serde_json::to_vec(&serde_json::Value::Object(map)).unwrap();
    assert_eq!(seeded_commit(&bytes).unwrap(), "ab".repeat(20));
}

#[test]
fn a_summary_that_cannot_be_read_names_no_commit() {
    assert_eq!(seeded_commit(b"not json"), None);
    assert_eq!(seeded_commit(br#"{"commit": 7}"#), None);
    assert_eq!(seeded_commit(br#"{"commit": "no-colon"}"#), None);
    assert_eq!(seeded_commit(br#"{"other": "sha1:ab"}"#), None);
    assert_eq!(
        seeded_commit(br#"{"commit": "sha1:ab:cd"}"#),
        Some("ab:cd".to_owned())
    );
}

#[test]
fn a_head_is_read_without_its_white_space() {
    assert!(matches!(
        local_head("ref: refs/heads/main  \n"),
        Head::Symbolic(name) if name == "refs/heads/main"
    ));
    assert!(matches!(local_head(" abc\n"), Head::Detached(c) if c == "abc"));
    assert_eq!(branch_commit("abc\n"), "abc");
}

#[test]
fn the_hooks_and_the_filter_appear_when_asked_for() {
    let plain = seed_git_dir(&facts(None), false, false, false);
    let config = written(&plain, "config").unwrap();
    assert!(!config.contains("fsmonitor ="));
    assert!(!config.contains("filter \"lfs\""));
    let both = seed_git_dir(&facts(None), false, true, true);
    let config = written(&both, "config").unwrap();
    assert!(config.contains("\tfsmonitor = .git/hooks/gfs-fsmonitor\n"));
    assert!(config.contains("[filter \"lfs\"]"));
    assert_eq!(
        hook_script("/usr/bin/x"),
        "#!/bin/sh\nexec /usr/bin/x \"$@\"\n"
    );
}

#[test]
fn a_commit_summary_carries_bytes_and_text() {
    let who = |name: &[u8]| Signature {
        name: name.to_vec(),
        email: b"e@x".to_vec(),
        time: Timestamp::from_secs(5),
        tz_offset_minutes: 60,
    };
    let fields = commit_json(&CommitMeta {
        commit: id(1),
        tree: id(2),
        parents: vec![id(3)],
        author: who(&[0xff, b'a']),
        committer: who(b"c"),
        message: b"subject\n".to_vec(),
        snapshot_time: Timestamp::from_secs(9),
    });
    assert_eq!(fields.parents, vec![format!("sha1:{}", "03".repeat(20))]);
    assert_eq!(fields.author.name_text, "\u{fffd}a");
    assert_eq!(fields.author.name_b64url, "_2E");
    assert_eq!(fields.committer.name_text, "c");
    assert_eq!(fields.message_text, "subject\n");
    assert_eq!(fields.author.tz_offset_minutes, 60);
}

#[test]
fn packed_refs_are_ordered_by_name() {
    let tag = |name: &str, byte: u8| RefTarget {
        name: format!("refs/tags/{name}"),
        target: id(byte),
        peeled: None,
    };
    let text = packed_refs(&vec![
        tag("v1/b", 1),
        tag("v1.1", 2),
        tag("v1", 3),
        tag("v1\u{0}a", 4),
        tag("v1", 0),
    ]);
    let order: Vec<&str> = text.lines().skip(1).map(|l| &l[38..]).collect();
    assert_eq!(
        order,
        [
            "00 refs/tags/v1",
            "03 refs/tags/v1",
            "04 refs/tags/v1\u{0}a",
            "02 refs/tags/v1.1",
            "01 refs/tags/v1/b",
        ]
    );
}

#[test]
fn a_fresh_seed_leads_to_the_pinned_commit() {
    for name in [Some("refs/heads/main"), Some("refs/tags/v1.0"), None] {
        let files = seed_git_dir(&facts(name), false, false, false);
        let commit = match local_head(written(&files, "HEAD").unwrap()) {
            Head::Symbolic(branch) => branch_commit(written(&files, &branch).unwrap()),
            Head::Detached(commit) => commit,
        };
        assert_eq!(commit, "ab".repeat(20));
    }
}

#[test]
fn the_digest_of_a_qualified_name_is_what_follows_its_algorithm() {
    let qualified = ObjectId::from_raw(HashAlgorithm::LfsSha256, &[7; 32]).unwrap().to_qualified();
    assert_eq!(digest_of(Some(qualified)), Some("07".repeat(32)));
    assert_eq!(digest_of(Some("07".to_owned())), None);
    assert_eq!(digest_of(None), None);
}
