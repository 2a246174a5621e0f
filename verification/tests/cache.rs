use gfs::cache::{
    adoption, hash_blob, is_hex, joined_outcome, Adoption, BlobCache, Ensure, Hydration, Joined,
};
use gfs::error::ErrorCode;
use gfs::object::{HashAlgorithm, ObjectId};

#[test]
fn the_canonical_blob_hash_matches_git() {
    assert_eq!(
        hash_blob(HashAlgorithm::Sha1, b"").unwrap().to_hex(),
        "e69de29bb2d1d6434b8b29ae775ad8c2e48c5391"
    );
    assert_eq!(
        hash_blob(HashAlgorithm::Sha1, b"hello\n").unwrap().to_hex(),
        "ce013625030ba8dba906f756967f9e9ca394464a"
    );
}

#[test]
fn the_header_is_part_of_the_hashed_bytes() {
    let a = hash_blob(HashAlgorithm::Sha1, b"ab").unwrap();
    let b = hash_blob(HashAlgorithm::Sha1, b"abc").unwrap();
    assert!(!a.same(&b));
}

#[test]
fn sha256_is_refused_rather_than_silently_hashed_as_sha1() {
    let e = hash_blob(HashAlgorithm::Sha256, b"x").unwrap_err();
    assert_eq!(e.code, ErrorCode::UnsupportedRepositoryFormat);
}

#[test]
fn the_lfs_key_is_the_raw_sha256_with_no_header() {
    assert_eq!(
        hash_blob(HashAlgorithm::LfsSha256, b"hello\n")
            .unwrap()
            .to_qualified(),
        "lfs-sha256:5891b5b522d5df086d0ff0b110fbd9d21bb4fc7163af34d08286a2e846f6be03"
    );
    assert!(!hash_blob(HashAlgorithm::LfsSha256, b"hello\n")
        .unwrap()
        .same(&hash_blob(HashAlgorithm::Sha1, b"hello\n").unwrap()));
}

/// Evict until the quota is met or nothing else may go.
fn evict_to_quota(cache: &mut BlobCache) {
    while cache.over_quota() {
        match cache.victim(0) {
            Some((name, _)) => cache.evicted(&name),
            None => return,
        }
    }
}

fn publish(cache: &mut BlobCache, content: &[u8]) -> ObjectId {
    let oid = hash_blob(HashAlgorithm::Sha1, content).unwrap();
    assert_eq!(cache.begin(&oid), Ensure::Fetch);
    cache.verify(&oid, content).unwrap();
    cache.published(&oid, content.len() as u64);
    cache.fetch_ended(&oid);
    oid
}

#[test]
fn eviction_removes_the_least_recently_used_unpinned_entry() {
    let mut cache = BlobCache::new(8);
    // Three 4-byte objects against an 8-byte quota: one eviction brings 12
    // bytes back to 8.
    let mut oids = Vec::new();
    for content in [&b"aaaa"[..], b"bbbb", b"cccc"] {
        oids.push(publish(&mut cache, content));
    }

    // Use the first, so the second becomes the least recently used.
    assert!(cache.touch(&oids[0]));
    evict_to_quota(&mut cache);

    assert!(cache.contains(&oids[0]), "recently used must survive");
    assert!(!cache.contains(&oids[1]), "least recently used must go");
    assert!(cache.contains(&oids[2]));
    assert!(cache.bytes_on_disk() <= 8);
}

#[test]
fn a_pinned_entry_is_never_evicted_even_over_quota() {
    let mut cache = BlobCache::new(1);
    let oid = publish(&mut cache, b"pinned");
    cache.pin(&oid).unwrap();

    evict_to_quota(&mut cache);
    assert!(
        cache.contains(&oid),
        "an open descriptor must outrank the byte quota"
    );

    cache.release_blob(&oid);
    evict_to_quota(&mut cache);
    assert!(!cache.contains(&oid), "unpinned, it is evictable again");
}

#[test]
fn a_partial_file_left_by_a_crash_is_discarded_on_adoption() {
    let mut cache = BlobCache::new(1 << 20);
    let oid = hash_blob(HashAlgorithm::Sha1, b"kept").unwrap();
    let hex = oid.to_hex();
    let (shard, name) = (&hex.as_bytes()[..2], &hex.as_bytes()[2..]);

    assert_eq!(adoption(shard, name, true), Adoption::Keep);
    cache.adopt(hex.as_bytes(), 4);
    assert_eq!(
        adoption(shard, b".not-a-hex-name.12345", true),
        Adoption::Remove
    );
    assert!(cache.contains(&oid), "a verified file is adopted");
    assert_eq!(cache.bytes_on_disk(), 4);
}

#[test]
fn content_that_does_not_hash_to_its_name_is_refused() {
    let mut cache = BlobCache::new(1 << 20);
    let oid = hash_blob(HashAlgorithm::Sha1, b"right").unwrap();
    assert_eq!(cache.begin(&oid), Ensure::Fetch);
    // A second caller joins the fetch that is under way.
    assert_eq!(cache.begin(&oid), Ensure::Join);
    assert!(cache.verify(&oid, b"wrong").is_err());
    cache.fetch_ended(&oid);
    assert!(!cache.contains(&oid));
    assert_eq!(cache.stats().verification_failures, 1);
    assert_eq!(cache.stats().coalesced, 1);
}

#[test]
fn a_blob_that_is_there_is_a_hit() {
    let mut cache = BlobCache::new(1 << 20);
    let oid = publish(&mut cache, b"x");
    assert_eq!(cache.begin(&oid), Ensure::Hit);
    assert_eq!(cache.stats().hits, 1);
    assert_eq!(cache.stats().fetches, 1);
    assert_eq!(cache.stats().bytes_fetched, 1);
}

#[test]
fn a_joined_fetch_reports_what_became_of_it() {
    assert_eq!(
        joined_outcome(Joined::Published).unwrap(),
        Hydration::Coalesced
    );
    assert!(joined_outcome(Joined::Failed("no".to_owned())).is_err());
    assert!(joined_outcome(Joined::Abandoned).is_err());
}

#[test]
fn only_lower_case_hex_is_a_name() {
    assert!(is_hex(b"0af"));
    assert!(!is_hex(b""));
    assert!(!is_hex(b"0AF"));
    assert!(!is_hex(b"0g"));
}

#[test]
fn storing_a_blob_again_keeps_what_is_open() {
    let mut cache = BlobCache::new(1);
    let oid = publish(&mut cache, b"pinned");
    cache.pin(&oid).unwrap();
    cache.published(&oid, 6);
    evict_to_quota(&mut cache);
    assert!(cache.contains(&oid), "the descriptor is still open");
    cache.release_blob(&oid);
    evict_to_quota(&mut cache);
    assert!(!cache.contains(&oid));
}

#[test]
fn an_eviction_passes_over_what_is_held_and_what_cannot_be_removed() {
    let mut cache = BlobCache::new(8);
    let mut oids = Vec::new();
    for content in [&b"aaaa"[..], b"bbbb", b"cccc", b"dddd"] {
        oids.push(publish(&mut cache, content));
    }
    // Held longest ago: a, whose file stays; b is open; then c and d.
    cache.pin(&oids[1]).unwrap();
    let mut offered = Vec::new();
    let mut after = 0;
    while cache.over_quota() {
        let Some((name, last_used)) = cache.victim(after) else {
            break;
        };
        if name != oids[0].to_hex().as_bytes() {
            cache.evicted(&name);
        }
        offered.push(String::from_utf8(name).unwrap());
        after = last_used;
    }
    assert_eq!(offered, [oids[0].to_hex(), oids[2].to_hex(), oids[3].to_hex()]);
    assert_eq!(cache.bytes_on_disk(), 8);
    assert!(cache.contains(&oids[0]) && cache.contains(&oids[1]));
    assert!(cache.victim(after).is_none());
}
