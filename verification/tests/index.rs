use gfs::index::{blob_id, write_index_v2, CacheTree, IndexEntry};
use gfs::object::{HashAlgorithm, ObjectId};
use gfs::time::Timestamp;
use gfs::workspace::{with_workspace_caches, WorkspaceCaches};
use sha1::{Digest, Sha1};

fn ts(secs: i64) -> Timestamp {
    Timestamp { secs, nanos: 0 }
}

fn id() -> ObjectId {
    ObjectId::from_raw(HashAlgorithm::Sha1, &[7u8; 20]).unwrap()
}

fn entry(path: &str, mode: u32, size: u64) -> IndexEntry {
    IndexEntry {
        path: path.as_bytes().to_vec(),
        mode,
        oid: id(),
        size,
    }
}

fn be32(bytes: &[u8]) -> u32 {
    u32::from_be_bytes([bytes[0], bytes[1], bytes[2], bytes[3]])
}

#[test]
fn the_header_counts_and_the_trailer_hashes() {
    let bytes = write_index_v2(&[entry("a.txt", 0o100644, 3)], ts(1_600_000_000), None).unwrap();
    assert_eq!(&bytes[0..4], b"DIRC");
    assert_eq!(be32(&bytes[4..8]), 2);
    assert_eq!(be32(&bytes[8..12]), 1);
    let body = &bytes[..bytes.len() - 20];
    let trailer = &bytes[bytes.len() - 20..];
    assert_eq!(trailer, Sha1::digest(body).as_slice());
}

#[test]
fn out_of_order_entries_are_refused_not_silently_misread() {
    let err = write_index_v2(
        &[entry("b.txt", 0o100644, 1), entry("a.txt", 0o100644, 1)],
        ts(1_600_000_000),
        None,
    )
    .unwrap_err();
    assert!(err.to_text().contains("out of order"), "{}", err.to_text());
}

#[test]
fn an_entry_holds_the_time_the_size_and_a_padded_path() {
    let bytes = write_index_v2(&[entry("a.txt", 0o100755, 9)], ts(1_600_000_000), None).unwrap();
    // 12 header bytes, one entry of 62 + 5 bytes padded to 72, the trailer.
    assert_eq!(bytes.len(), 12 + 72 + 20);
    let e = &bytes[12..84];
    // Change time, then modification time, then device and inode.
    assert_eq!(&e[0..8], &[0u8; 8]);
    assert_eq!(be32(&e[8..12]), 1_600_000_000);
    assert_eq!(&e[12..24], &[0u8; 12]);
    assert_eq!(be32(&e[24..28]), 0o100755);
    assert_eq!(&e[28..36], &[0u8; 8]);
    assert_eq!(be32(&e[36..40]), 9);
    assert_eq!(&e[40..60], &[7u8; 20]);
    assert_eq!(&e[62..67], b"a.txt");
    assert_eq!(&e[67..72], &[0u8; 5]);
}

#[test]
fn an_entry_of_another_algorithm_is_refused() {
    let mut e = entry("a", 0o100644, 1);
    e.oid = ObjectId::from_raw(HashAlgorithm::Sha256, &[7u8; 32]).unwrap();
    assert!(write_index_v2(&[e], ts(0), None).is_err());
}

#[test]
fn a_cache_tree_that_miscounts_is_refused() {
    let tree = |entries: u32| CacheTree {
        name: Vec::new(),
        oid: id(),
        entries,
        children: Vec::new(),
    };
    let entries = [entry("a", 0o100644, 1), entry("b", 0o100644, 1)];
    assert!(write_index_v2(&entries, ts(0), Some(tree(1))).is_err());
    let bytes = write_index_v2(&entries, ts(0), Some(tree(2))).unwrap();
    let at = bytes.windows(4).position(|w| w == b"TREE").unwrap();
    assert_eq!(&bytes[at + 8..at + 13], b"\02 0\n");
}

#[test]
fn a_blob_id_is_the_canonical_hash() {
    let mut hex = String::new();
    for b in blob_id(b"hello\n") {
        hex.push_str(&format!("{b:02x}"));
    }
    assert_eq!(hex, "ce013625030ba8dba906f756967f9e9ca394464a");
}

fn caches(token: &str) -> WorkspaceCaches<'_> {
    WorkspaceCaches {
        ident: "Location /ws, system Linux",
        dir_flags: 6,
        info_exclude: None,
        excludes_file: None,
        fsmonitor_token: token,
    }
}

#[test]
fn workspace_caches_replace_the_trailer_and_keep_the_entries() {
    let index = write_index_v2(
        &[entry("a/b.txt", 0o100644, 1), entry("c.txt", 0o100644, 1)],
        ts(5),
        None,
    )
    .unwrap();
    let out = with_workspace_caches(&index, &caches("gfs:1:0")).unwrap();
    let body = &index[..index.len() - 20];
    assert_eq!(&out[..body.len()], body);
    assert!(out.windows(4).any(|w| w == b"UNTR"));
    assert!(out.windows(4).any(|w| w == b"FSMN"));
    assert!(out.windows(7).any(|w| w == b"gfs:1:0"));
    let trailer = &out[out.len() - 20..];
    assert_eq!(trailer, Sha1::digest(&out[..out.len() - 20]).as_slice());
}

#[test]
fn what_is_no_index_gets_no_caches() {
    assert!(with_workspace_caches(b"", &caches("t")).is_none());
    assert!(with_workspace_caches(&[0u8; 64], &caches("t")).is_none());
}

#[test]
fn every_directory_is_recorded_once_and_in_byte_order() {
    let index = write_index_v2(
        &[
            entry("a-b/x", 0o100644, 1),
            entry("a/b.txt", 0o100644, 1),
            entry("a/c/d.txt", 0o100644, 1),
            entry("z", 0o100644, 1),
        ],
        ts(5),
        None,
    )
    .unwrap();
    let out = with_workspace_caches(&index, &caches("gfs:1:0")).unwrap();
    let body = index.len() - 20 + 8;
    let head = 1 + "Location /ws, system Linux".len() + 1 + 72 + 4 + 20 + 20 + ".gitignore".len() + 1;
    let records: &[u8] = b"\x04\x00\x02\x00\x00\x01a\x00\x00\x00c\x00\x00\x00a-b\x00";
    assert_eq!(&out[body + head..body + head + records.len()], records);
}

#[test]
fn the_order_of_subdirectories_makes_no_difference() {
    let child = |name: &str| CacheTree {
        name: name.as_bytes().to_vec(),
        oid: id(),
        entries: 1,
        children: Vec::new(),
    };
    let entries = [entry("a/x", 0o100644, 1), entry("b/x", 0o100644, 1)];
    let written = |names: [&str; 2]| {
        let root = CacheTree {
            name: Vec::new(),
            oid: id(),
            entries: 2,
            children: names.into_iter().map(child).collect(),
        };
        write_index_v2(&entries, ts(7), Some(root)).unwrap()
    };
    assert_eq!(written(["a", "b"]), written(["b", "a"]));
}
