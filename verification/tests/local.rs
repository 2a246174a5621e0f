use std::sync::Arc;

use gfs::entry::{EntryKind, WalkEntry};
use gfs::error::{ErrorCode, GfsError};
use gfs::local::{
    anchor_for, diff_bounds, far_future, new_mount_id, page_after, page_limit, repository_id_for,
    scan_chunk, scan_files, scan_read_failure, scan_threads, search_root, BlobMemory, MountId,
    SearchRoot,
};
use gfs::object::{HashAlgorithm, ObjectId};
use gfs::path::BytePath;
use gfs::time::Timestamp;

#[test]
fn blob_memory_evicts_least_recently_used_first() {
    let mut memory = BlobMemory::new(10);
    memory.insert("a".to_owned(), Arc::new(vec![0; 4]));
    memory.insert("b".to_owned(), Arc::new(vec![0; 4]));
    assert!(memory.get("a").is_some());
    // 4 + 4 + 4 > 10: the least recently used, `b`, goes.
    memory.insert("c".to_owned(), Arc::new(vec![0; 4]));
    assert!(memory.get("b").is_none());
    assert!(memory.get("a").is_some());
    assert!(memory.get("c").is_some());
    assert_eq!(memory.bytes(), 8);
}

#[test]
fn a_blob_larger_than_the_memory_is_not_kept() {
    let mut memory = BlobMemory::new(10);
    memory.insert("big".to_owned(), Arc::new(vec![0; 11]));
    assert!(memory.get("big").is_none());
    assert_eq!(memory.bytes(), 0);
}

#[test]
fn repository_ids_are_stable_and_distinct() {
    let a = repository_id_for(b"/tmp/a");
    let b = repository_id_for(b"/tmp/b");
    assert_eq!(a, repository_id_for(b"/tmp/a"));
    assert_ne!(a, b);
    assert!(a.as_str().starts_with("local-"));
}

#[test]
fn a_removed_blob_gives_its_bytes_back() {
    let mut memory = BlobMemory::new(10);
    memory.insert("a".to_owned(), Arc::new(vec![1, 2, 3]));
    assert_eq!(*memory.get("a").unwrap(), vec![1, 2, 3]);
    memory.remove("a");
    assert!(memory.get("a").is_none());
    assert_eq!(memory.bytes(), 0);
}

#[test]
fn a_page_has_a_default_and_a_bound() {
    assert_eq!(page_limit(0, 5, 10), 5);
    assert_eq!(page_limit(7, 5, 10), 7);
    assert_eq!(page_limit(11, 5, 10), 10);
    assert_eq!(page_after(Vec::new()), None);
    assert_eq!(page_after(vec![1]), Some(vec![1]));
}

#[test]
fn a_diff_has_bounds() {
    assert_eq!(diff_bounds(None, 3, 0), (3, 4194304));
    assert_eq!(diff_bounds(Some(9999), 3, u64::MAX), (1000, 67108864));
}

#[test]
fn mount_ids_differ_by_workspace_time_and_process() {
    let id = |w: &[u8], n: u128, p: u32| new_mount_id(w, n, p).as_str().to_owned();
    assert_eq!(id(b"/ws", 1, 2), id(b"/ws", 1, 2));
    assert_ne!(id(b"/ws", 1, 2), id(b"/wt", 1, 2));
    assert_ne!(id(b"/ws", 1, 2), id(b"/ws", 2, 2));
    assert_ne!(id(b"/ws", 1, 2), id(b"/ws", 1, 3));
    assert!(anchor_for(&MountId::new("m-1".to_owned())).ends_with("m-1"));
}

#[test]
fn an_unleased_pin_expires_in_a_century() {
    assert_eq!(
        far_future(Timestamp::from_secs(10)),
        Timestamp::from_secs(10 + 100 * 365 * 24 * 3600)
    );
}

#[test]
fn a_scope_is_the_tree_a_directory_a_file_or_nothing() {
    assert_eq!(search_root(b"", &None), SearchRoot::Subtree);
    assert_eq!(search_root(b"x", &None), SearchRoot::Nothing);
    assert_eq!(
        search_root(b"x", &Some(EntryKind::Directory)),
        SearchRoot::Subtree
    );
    assert_eq!(
        search_root(b"x", &Some(EntryKind::Regular)),
        SearchRoot::OneFile
    );
}

fn walk(path: &str, mode: u32) -> WalkEntry {
    WalkEntry {
        path: BytePath::new(path.as_bytes().to_vec()),
        mode,
        oid: ObjectId::from_raw(HashAlgorithm::Sha1, &[1; 20]).unwrap(),
        size: 1,
    }
}

#[test]
fn a_scan_reads_regular_files_in_path_order() {
    let files = scan_files(&vec![
        walk("b", 0o100644),
        walk("link", 0o120000),
        walk("a", 0o100755),
    ]);
    let paths: Vec<&[u8]> = files.iter().map(|f| f.path.as_bytes()).collect();
    assert_eq!(paths, vec![&b"a"[..], b"b"]);
}

#[test]
fn a_scan_is_cut_into_one_slice_per_thread() {
    assert_eq!(scan_threads(0), 1);
    assert_eq!(scan_threads(4), 4);
    assert_eq!(scan_threads(1000), 8);
    assert_eq!(scan_chunk(10, 4), 3);
    assert_eq!(scan_chunk(0, 4), 1);
}

#[test]
fn a_blob_missing_from_the_pack_is_a_gap() {
    assert!(scan_read_failure(GfsError::not_found("x")).is_none());
    let e = scan_read_failure(GfsError::internal("x")).unwrap();
    assert_eq!(e.code, ErrorCode::Internal);
}
