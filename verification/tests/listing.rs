use gfs::entry::{EntryKind, TreeEntryInfo};
use gfs::listing::{Listing, ListingCache};
use gfs::object::{HashAlgorithm, ObjectId};
use gfs::path::BytePath;

fn entry(path: &str) -> TreeEntryInfo {
    TreeEntryInfo {
        path: BytePath::new(path.as_bytes().to_vec()),
        kind: EntryKind::Regular,
        mode: 0o100_644,
        oid: ObjectId::from_raw(HashAlgorithm::Sha1, &[0; 20]).unwrap(),
        size: 0,
        symlink_target: None,
        blob_ticket: None,
    }
}

#[test]
fn a_listing_answers_by_name_and_definitively_in_the_negative() {
    let listing = Listing::new(vec![entry("src/a.rs"), entry("src/b.rs")]);
    assert!(listing.get(b"a.rs").is_some());
    assert!(listing.get(b"nope.rs").is_none());
    assert_eq!(listing.entries().len(), 2);
}

#[test]
fn the_coldest_directory_is_evicted_at_capacity() {
    let mut cache = ListingCache::new(10, 1_000);
    let dir = |n: u8| BytePath::new(vec![b'a' + n]);
    for n in 0..10 {
        cache.insert(&dir(n), Listing::new(Vec::new()));
    }
    // Touch the oldest so the *second* oldest is now the coldest.
    assert!(cache.get(&dir(0)).is_some());
    cache.insert(&dir(10), Listing::new(Vec::new()));

    assert!(
        cache.get(&dir(0)).is_some(),
        "a touched listing must survive"
    );
    assert!(cache.get(&dir(1)).is_none(), "the coldest listing must go");
    assert!(cache.get(&dir(10)).is_some());
    assert!(cache.size().0 <= 10);
}

#[test]
fn the_entry_bound_evicts_even_when_directories_would_fit() {
    let mut cache = ListingCache::new(1_000, 3);
    let a = BytePath::new(b"a".to_vec());
    let b = BytePath::new(b"b".to_vec());
    cache.insert(&a, Listing::new(vec![entry("a/1"), entry("a/2")]));
    cache.insert(&b, Listing::new(vec![entry("b/1"), entry("b/2")]));
    let (dirs, entries) = cache.size();
    assert_eq!(dirs, 1, "the coldest listing must go when entries overflow");
    assert_eq!(entries, 2);
    assert!(cache.get(&a).is_none());
    assert!(cache.get(&b).is_some());
}

#[test]
fn of_two_entries_with_one_name_the_later_answers() {
    let mut second = entry("d/x");
    second.size = 9;
    let listing = Listing::new(vec![entry("d/x"), second]);
    assert_eq!(listing.get(b"x").unwrap().size, 9);
    assert_eq!(listing.entries().len(), 2);
}

#[test]
fn listings_go_in_the_order_of_their_last_use() {
    let mut cache = ListingCache::new(3, 1_000);
    let dir = |name: &str| BytePath::new(name.as_bytes().to_vec());
    for name in ["a", "b", "c"] {
        cache.insert(&dir(name), Listing::new(Vec::new()));
    }
    assert!(cache.get(&dir("a")).is_some());
    assert!(cache.get(&dir("b")).is_some());
    // Used longest ago: c, then a, then b.
    cache.insert(&dir("d"), Listing::new(Vec::new()));
    assert!(cache.get(&dir("c")).is_none());
    cache.insert(&dir("e"), Listing::new(Vec::new()));
    assert!(cache.get(&dir("a")).is_none());
    assert!(cache.get(&dir("b")).is_some());
    assert_eq!(cache.size().0, 3);
}
