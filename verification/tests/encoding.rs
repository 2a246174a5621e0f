use gfs::base64url::{b64url_decode, b64url_encode};
use gfs::bytes::{bytes_lt, read_be16, read_be32, split_bytes, starts_with};
use gfs::ewah::ewah;
use gfs::object::{HashAlgorithm, ObjectId};
use gfs::path::{is_within, join, parent_of, BytePath};
use gfs::sorting::{sort_indices, NameOrder};
use gfs::strings::{char_position, join_text, strip_text, trim_end_char, trim_text};
use gfs::subtree::{git_rel, in_object_namespace, odb_rel};
use gfs::text::{decimal_text, push_hex, push_octal, push_quoted};
use gfs::varint::encode_varint;

#[test]
fn base64url_round_trips_and_has_no_padding() {
    for (bytes, text) in [
        (&b""[..], ""),
        (b"f", "Zg"),
        (b"fo", "Zm8"),
        (b"foo", "Zm9v"),
        (&[0xff, 0xef], "_-8"),
    ] {
        assert_eq!(b64url_encode(bytes), text);
        assert_eq!(b64url_decode(text).unwrap(), bytes);
    }
    assert!(b64url_decode("a").is_err());
    assert!(b64url_decode("ab=").is_err());
    assert!(b64url_decode("a b").is_err());
}

#[test]
fn offsets_are_encoded_as_git_encodes_them() {
    for (value, bytes) in [
        (0u64, vec![0u8]),
        (127, vec![0x7f]),
        (128, vec![0x80, 0x00]),
        (300, vec![0x81, 0x2c]),
    ] {
        let mut out = Vec::new();
        encode_varint(value, &mut out);
        assert_eq!(out, bytes, "{value}");
    }
}

#[test]
fn a_bitmap_starts_with_its_size() {
    let bytes = ewah(&[true, false, true]);
    assert_eq!(read_be32(&bytes, 0), 3);
    assert_eq!(bytes.len() % 4, 0);
    assert_eq!(read_be32(&ewah(&[]), 0), 0);
}

#[test]
fn numbers_and_bytes_become_text() {
    assert_eq!(decimal_text(0), "0");
    assert_eq!(decimal_text(u64::MAX), "18446744073709551615");
    let mut out = String::new();
    push_octal(&mut out, 0o100644);
    push_hex(&mut out, &[0x0a, 0xff]);
    assert_eq!(out, "1006440aff");
    let mut quoted = String::new();
    push_quoted(&mut quoted, b"a\"b\xff");
    assert_eq!(quoted, "\"a\\\"b\u{fffd}\"");
}

#[test]
fn white_space_is_trimmed_at_both_ends() {
    for text in [
        "",
        " ",
        "a",
        " a b ",
        "\u{a0}x\u{3000}\n",
        "\t\r\n",
        "\u{200b}x",
        "\u{85}y\u{2029}",
        "\u{180e}z",
    ] {
        assert_eq!(trim_text(text), text.trim(), "{text:?}");
    }
}

#[test]
fn texts_are_cut_and_joined() {
    assert_eq!(strip_text("refs/heads/x", "refs/"), Some("heads/x".to_owned()));
    assert_eq!(strip_text("re", "refs/"), None);
    assert_eq!(char_position("ab:c", ':'), 2);
    assert_eq!(char_position("abc", ':'), 3);
    assert_eq!(trim_end_char("a//", '/'), "a");
    assert_eq!(join_text("/a", "b"), "/a/b");
    assert_eq!(join_text("/a/", "b"), "/a/b");
}

#[test]
fn paths_are_joined_and_split() {
    assert_eq!(join(b"a", b"b"), b"a/b");
    assert_eq!(join(b"", b"b"), b"b");
    let p = BytePath::new(b"a/b/c".to_vec());
    assert_eq!(p.file_name().unwrap(), b"c");
    assert_eq!(parent_of(&p).as_bytes(), b"a/b");
    assert_eq!(p.components().len(), 3);
    assert!(BytePath::root().file_name().is_none());
    assert!(is_within(b"a/b", b"a"));
    assert!(!is_within(b"ab", b"a"));
}

#[test]
fn the_projection_is_apart_from_the_disk() {
    assert_eq!(git_rel(b".git"), Some(Vec::new()));
    assert_eq!(git_rel(b".git/refs/x"), Some(b"refs/x".to_vec()));
    assert_eq!(git_rel(b".gitx"), None);
    assert_eq!(odb_rel(b"gfs/objects"), Some(Vec::new()));
    assert_eq!(odb_rel(b"gfs/objects/pack"), Some(b"pack".to_vec()));
    assert_eq!(odb_rel(b"gfs/objectsx"), None);
    assert!(in_object_namespace(b"objects/ab"));
    assert!(!in_object_namespace(b"refs"));
}

#[test]
fn object_names_are_qualified_and_parsed() {
    let id = ObjectId::from_raw(HashAlgorithm::Sha1, &[0xab; 20]).unwrap();
    let text = id.to_qualified();
    assert_eq!(text, format!("sha1:{}", "ab".repeat(20)));
    assert!(ObjectId::parse_qualified(&text).unwrap().same(&id));
    assert!(ObjectId::parse_qualified("sha1:ab").is_err());
    assert!(ObjectId::parse_qualified("md5:ab").is_err());
    assert!(ObjectId::from_raw(HashAlgorithm::Sha1, &[1; 19]).is_err());
    let other = ObjectId::from_raw(HashAlgorithm::Sha256, &[0xab; 32]).unwrap();
    assert_ne!(id.key(), other.key());
}

#[test]
fn names_sort_by_bytes_or_by_length_first() {
    let keys = vec![b"b".to_vec(), b"aa".to_vec(), b"b".to_vec()];
    assert_eq!(sort_indices(NameOrder::Bytes, &keys), vec![1, 0, 2]);
    assert_eq!(sort_indices(NameOrder::ShortLex, &keys), vec![0, 2, 1]);
    assert!(bytes_lt(b"a", b"aa"));
}

#[test]
fn bytes_are_read_and_split() {
    assert_eq!(read_be16(&[1, 2], 0), 258);
    assert_eq!(split_bytes(b"a,,b", b','), vec![b"a".to_vec(), Vec::new(), b"b".to_vec()]);
    assert!(starts_with(b"abc", b"ab"));
}
