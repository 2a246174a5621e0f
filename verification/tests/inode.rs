use gfs::entry::{EntryKind, TreeEntryInfo};
use gfs::inode::{InodeTable, ROOT_INO};
use gfs::node::{Content, Node, OverlayEntry, OverlayKind};
use gfs::object::{HashAlgorithm, ObjectId};
use gfs::path::BytePath;

fn oid(byte: u8) -> ObjectId {
    ObjectId::from_raw(HashAlgorithm::Sha1, &[byte; 20]).unwrap()
}

fn path(text: &str) -> BytePath {
    BytePath::new(text.as_bytes().to_vec())
}

fn entry(at: &str, kind: EntryKind) -> TreeEntryInfo {
    TreeEntryInfo {
        path: path(at),
        kind,
        mode: 0o100_644,
        oid: oid(1),
        size: 0,
        symlink_target: None,
        blob_ticket: None,
    }
}

fn file(at: &str) -> Node {
    Node::Base(entry(at, EntryKind::Regular))
}

fn table() -> InodeTable {
    InodeTable::new(entry("", EntryKind::Directory))
}

#[test]
fn the_root_is_present_before_any_lookup() {
    let table = table();
    assert!(table.get(ROOT_INO).is_some());
    assert!(table.path(ROOT_INO).unwrap().same(&BytePath::root()));
}

#[test]
fn an_inode_number_survives_a_forget_and_lookup_cycle() {
    let mut table = table();
    let first = table
        .insert_lookup(path("src/main.rs"), file("src/main.rs"))
        .ino;

    table.forget(first, 1);
    assert!(table.get(first).is_none(), "the record is dropped");

    let second = table
        .insert_lookup(path("src/main.rs"), file("src/main.rs"))
        .ino;
    assert_eq!(first, second, "the number must be stable");
}

#[test]
fn distinct_paths_never_share_a_number() {
    let mut table = table();
    let a = table.insert_lookup(path("a"), file("a")).ino;
    let b = table.insert_lookup(path("b"), file("b")).ino;
    assert_ne!(a, b);
}

#[test]
fn a_record_survives_forget_while_a_descriptor_is_open() {
    let mut table = table();
    let ino = table.insert_lookup(path("f"), file("f")).ino;
    table.open(ino);
    table.forget(ino, 1);
    assert!(table.get(ino).is_some(), "an open handle pins the record");
    table.close(ino);
    assert!(table.get(ino).is_none());
}

#[test]
fn repeated_lookups_need_matching_forgets() {
    let mut table = table();
    let ino = table.insert_lookup(path("x"), file("x")).ino;
    table.insert_lookup(path("x"), file("x"));
    table.insert_lookup(path("x"), file("x"));

    table.forget(ino, 2);
    assert!(table.get(ino).is_some(), "one reference remains");
    table.forget(ino, 1);
    assert!(table.get(ino).is_none());
}

#[test]
fn the_root_cannot_be_forgotten() {
    let mut table = table();
    table.forget(ROOT_INO, u64::MAX);
    assert!(table.get(ROOT_INO).is_some());
}

fn row(at: &str, ino: u64) -> OverlayEntry {
    OverlayEntry {
        path: path(at),
        ino,
        kind: OverlayKind::Regular,
        content: Content::Local(1),
        size: 3,
        symlink_target: None,
        base: None,
        renamed_from: None,
    }
}

#[test]
fn a_moved_subtree_keeps_its_numbers() {
    let mut table = table();
    let dir = table
        .insert_lookup(path("d"), Node::Base(entry("d", EntryKind::Directory)))
        .ino;
    let inner = table.insert_lookup(path("d/f"), file("d/f")).ino;
    let beside = table.insert_lookup(path("dx"), file("dx")).ino;

    let moved = table.rename_subtree(&path("d"), &path("e"));
    assert_eq!(moved.len(), 2);
    assert!(table.path(dir).unwrap().same(&path("e")));
    assert!(table.path(inner).unwrap().same(&path("e/f")));
    assert!(table.path(beside).unwrap().same(&path("dx")));
    assert_eq!(table.number_for_path(&path("e/f")), inner);
}

#[test]
fn journal_rows_keep_the_numbers_they_recorded() {
    let mut table = table();
    table.seed(&[row("kept", 77)]);
    assert_eq!(table.number_for_path(&path("kept")), 77);
    let fresh = table.number_for_path(&path("new"));
    assert_ne!(fresh, 77);
}

#[test]
fn a_repin_tells_the_kernel_which_names_are_stale() {
    let mut table = table();
    let ino = table.insert_lookup(path("f"), file("f")).ino;
    assert!(table.can_repin());
    let stale = table.repin(entry("", EntryKind::Directory));
    assert!(stale.iter().any(|s| s.ino == ino && s.name == b"f"));
    assert!(stale.iter().all(|s| s.ino != ROOT_INO));
    // The path keeps its number.
    assert_eq!(table.insert_lookup(path("f"), file("f")).ino, ino);
}

#[test]
fn a_path_nobody_knows_is_not_stale() {
    let mut table = table();
    assert!(table.rewritten_behind_kernel(&path("x")).is_none());
    let ino = table.insert_lookup(path("x"), file("x")).ino;
    let stale = table.rewritten_behind_kernel(&path("x")).unwrap();
    assert_eq!(stale.ino, ino);
    assert_eq!(stale.parent, ROOT_INO);
}

#[test]
fn counts_tell_live_records_from_numbers_handed_out() {
    let mut table = table();
    let ino = table.insert_lookup(path("x"), file("x")).ino;
    assert_eq!((table.live(), table.assigned()), (2, 2));
    table.forget(ino, 1);
    assert_eq!((table.live(), table.assigned()), (1, 2));
}

#[test]
fn a_number_outlives_every_other_call() {
    let mut table = table();
    let kept = table.insert_lookup(path("kept"), file("kept")).ino;
    let other = table.insert_lookup(path("other"), file("other")).ino;
    table.open(other);
    table.forget(kept, 1);
    table.close(other);
    table.forget(other, 1);
    assert_eq!(table.number_for_path(&path("kept")), kept);
    assert_eq!(table.number_for_path(&path("other")), other);
    let fresh = table.number_for_path(&path("fresh"));
    assert!(fresh != kept && fresh != other && fresh != ROOT_INO);
}
