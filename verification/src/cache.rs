//! The verified, quota-bounded blob cache: what is on disk, who holds it, and
//! what goes when there is too much.
//!
//! Bytes are published only under the name they hash to. Eviction takes the
//! least recently used, and never a blob that is held open.
use vstd::prelude::*;
use crate::bytemap::ByteMap;
use crate::bytes::copy_bytes;
use crate::error::{ErrorCode, GfsError};
use crate::hashing::{sha256_digest, sha256_of};
use crate::index::{blob_digest, blob_id};
use crate::object::{HashAlgorithm, ObjectId, ObjectIdView};
use crate::text::{hex, utf8};

verus! {

/// The object a content is, under an algorithm: Git's blob hash, or the bare
/// SHA-256 of a large file. Git's own SHA-256 format has no rule here.
pub open spec fn content_id(algorithm: HashAlgorithm, content: Seq<u8>) -> Option<ObjectIdView> {
    match algorithm {
        HashAlgorithm::Sha1 => Some(
            ObjectIdView { algorithm: HashAlgorithm::Sha1, digest: blob_digest(content) },
        ),
        HashAlgorithm::LfsSha256 => Some(
            ObjectIdView { algorithm: HashAlgorithm::LfsSha256, digest: sha256_of(content) },
        ),
        HashAlgorithm::Sha256 => None,
    }
}

/// The content key of a blob's bytes.
pub fn hash_blob(algorithm: HashAlgorithm, content: &[u8]) -> (res: Result<ObjectId, GfsError>)
    ensures
        match content_id(algorithm, content@) {
            Some(id) => res matches Ok(oid) && oid@ == id && oid.wf(),
            None => res matches Err(e) && e.reads(
                ErrorCode::UnsupportedRepositoryFormat,
                "SHA-256 repositories are out of scope (ADR 0001)"@,
            ),
        },
{
    match algorithm {
        HashAlgorithm::Sha1 => {
            let digest = blob_id(content);
            ObjectId::from_raw(HashAlgorithm::Sha1, digest.as_slice())
        },
        HashAlgorithm::LfsSha256 => {
            let digest = sha256_digest(content);
            ObjectId::from_raw(HashAlgorithm::LfsSha256, digest.as_slice())
        },
        HashAlgorithm::Sha256 => Err(
            GfsError::new(
                ErrorCode::UnsupportedRepositoryFormat,
                "SHA-256 repositories are out of scope (ADR 0001)",
            ),
        ),
    }
}

/// What the cache did to satisfy a read.
#[derive(Clone, Copy, PartialEq, Eq, Structural, Debug)]
pub enum Hydration {
    /// Served from disk; no bytes crossed the network.
    Hit,
    /// Downloaded and published by this call.
    Fetched,
    /// Another fetch of the same object was joined.
    Coalesced,
}

/// What the cache has done. The counters wrap.
#[derive(Clone, Copy, PartialEq, Eq, Structural, Debug)]
pub struct CacheStats {
    pub hits: u64,
    pub fetches: u64,
    pub coalesced: u64,
    pub bytes_fetched: u64,
    pub evictions: u64,
    pub verification_failures: u64,
}

/// One blob on disk.
#[derive(Clone, Copy, PartialEq, Eq, Structural, Debug)]
pub struct CachedBlob {
    pub size: u64,
    /// A use counter, not a clock: the order must not change when the host's
    /// clock steps.
    pub last_used: u64,
    /// Open descriptors. Never evicted above zero.
    pub pins: u32,
}

/// Bytes of the blobs of a map.
pub open spec fn total_size(m: Map<Seq<u8>, CachedBlob>) -> nat
    decreases m.dom().len(),
    when m.dom().finite()
{
    if m.dom().len() == 0 {
        0
    } else {
        let k = m.dom().choose();
        if m.dom().contains(k) {
            m[k].size as nat + total_size(m.remove(k))
        } else {
            0
        }
    }
}

/// A blob counts its size towards the total.
pub proof fn lemma_total_remove(m: Map<Seq<u8>, CachedBlob>, k: Seq<u8>)
    requires
        m.dom().finite(),
        m.dom().contains(k),
    ensures
        total_size(m) == m[k].size + total_size(m.remove(k)),
    decreases m.dom().len(),
{
    let c = m.dom().choose();
    assert(m.dom().contains(c));
    if c != k {
        assert(m.remove(c).dom() =~= m.dom().remove(c));
        assert(m.remove(k).dom() =~= m.dom().remove(k));
        lemma_total_remove(m.remove(c), k);
        lemma_total_remove(m.remove(k), c);
        assert(m.remove(c).remove(k) =~= m.remove(k).remove(c));
    }
}

proof fn lemma_total_insert(m: Map<Seq<u8>, CachedBlob>, k: Seq<u8>, b: CachedBlob)
    requires
        m.dom().finite(),
    ensures
        total_size(m.insert(k, b)) == b.size + total_size(m.remove(k)),
{
    lemma_total_remove(m.insert(k, b), k);
    assert(m.insert(k, b).remove(k) =~= m.remove(k));
}

proof fn lemma_total_same_size(m: Map<Seq<u8>, CachedBlob>, k: Seq<u8>, b: CachedBlob)
    requires
        m.dom().finite(),
        m.dom().contains(k),
        b.size == m[k].size,
    ensures
        total_size(m.insert(k, b)) == total_size(m),
{
    lemma_total_insert(m, k, b);
    lemma_total_remove(m, k);
}

/// The name a blob goes by on disk: its digest in hexadecimal.
pub open spec fn name_of(oid: ObjectIdView) -> Seq<u8> {
    utf8(hex(oid.digest))
}

/// What a [`BlobCache`] denotes.
#[verifier::ext_equal]
pub struct BlobsView {
    pub blobs: Map<Seq<u8>, CachedBlob>,
    pub bytes: u64,
    pub clock: u64,
    pub quota: u64,
    /// Blobs being fetched.
    pub inflight: Set<Seq<u8>>,
    pub stats: CacheStats,
}

impl BlobsView {
    /// The byte count is true, and no two blobs were last used at once.
    pub open spec fn wf(self) -> bool {
        &&& self.blobs.dom().finite()
        &&& self.bytes == total_size(self.blobs)
        &&& forall|k: Seq<u8>| #[trigger]
            self.blobs.contains_key(k) ==> 0 < self.blobs[k].last_used <= self.clock
        &&& forall|a: Seq<u8>, b: Seq<u8>|
            self.blobs.contains_key(a) && self.blobs.contains_key(b) && a != b ==> (
            #[trigger] self.blobs[a]).last_used != (#[trigger] self.blobs[b]).last_used
    }

    /// After a blob was used.
    pub open spec fn touched(self, k: Seq<u8>) -> BlobsView {
        let clock = (self.clock + 1) as u64;
        BlobsView {
            clock,
            blobs: if self.blobs.contains_key(k) {
                self.blobs.insert(k, CachedBlob { last_used: clock, ..self.blobs[k] })
            } else {
                self.blobs
            },
            ..self
        }
    }

    /// How many open descriptors a blob has.
    pub open spec fn pins_of(self, k: Seq<u8>) -> u32 {
        if self.blobs.contains_key(k) {
            self.blobs[k].pins
        } else {
            0
        }
    }

    /// After a blob was written to disk. One that is there already stays open
    /// for whoever has it open.
    pub open spec fn stored(self, k: Seq<u8>, size: u64) -> BlobsView {
        let clock = (self.clock + 1) as u64;
        BlobsView {
            clock,
            blobs: self.blobs.insert(
                k,
                CachedBlob { size, last_used: clock, pins: self.pins_of(k) },
            ),
            bytes: (size + total_size(self.blobs.remove(k))) as u64,
            ..self
        }
    }

    /// After a blob was opened.
    pub open spec fn pinned(self, k: Seq<u8>) -> BlobsView {
        let t = self.touched(k);
        if self.blobs.contains_key(k) {
            BlobsView {
                blobs: t.blobs.insert(
                    k,
                    CachedBlob { pins: (self.blobs[k].pins + 1) as u32, ..t.blobs[k] },
                ),
                ..t
            }
        } else {
            t
        }
    }

    /// After an open blob was closed.
    pub open spec fn unpinned(self, k: Seq<u8>) -> BlobsView {
        if self.blobs.contains_key(k) && self.blobs[k].pins > 0 {
            BlobsView {
                blobs: self.blobs.insert(
                    k,
                    CachedBlob { pins: (self.blobs[k].pins - 1) as u32, ..self.blobs[k] },
                ),
                ..self
            }
        } else {
            self
        }
    }

    /// After a blob's file was removed.
    pub open spec fn without(self, k: Seq<u8>) -> BlobsView {
        BlobsView {
            blobs: self.blobs.remove(k),
            bytes: (self.bytes - self.blobs[k].size) as u64,
            stats: CacheStats { evictions: self.stats.evictions.wrapping_add(1), ..self.stats },
            ..self
        }
    }

    /// Whether a blob may go, having been last used after a time.
    pub open spec fn evictable(self, k: Seq<u8>, after: u64) -> bool {
        self.blobs.contains_key(k) && self.blobs[k].pins == 0 && self.blobs[k].last_used > after
    }

    /// Whether a blob is the least recently used that may go.
    pub open spec fn coldest(self, k: Seq<u8>, after: u64) -> bool {
        &&& self.evictable(k, after)
        &&& forall|o: Seq<u8>| #[trigger]
            self.evictable(o, after) ==> self.blobs[k].last_used <= self.blobs[o].last_used
    }
}

/// How a blob is to be had.
#[derive(Clone, Copy, PartialEq, Eq, Structural, Debug)]
pub enum Ensure {
    /// It is on disk.
    Hit,
    /// Someone is fetching it; wait for them.
    Join,
    /// Fetch it; this caller is the one.
    Fetch,
}

/// What is done with a file found in the cache directory.
#[derive(Clone, Copy, PartialEq, Eq, Structural, Debug)]
pub enum Adoption {
    /// Not the cache's business.
    Ignore,
    /// Left by an interrupted write; remove it.
    Remove,
    /// A blob, verified before it was published.
    Keep,
}

/// Whether bytes are lower-case hexadecimal digits.
pub open spec fn hex_digits(name: Seq<u8>) -> bool {
    name.len() > 0 && forall|i: int|
        0 <= i < name.len() ==> (48 <= #[trigger] name[i] <= 57 || 97 <= name[i] <= 102)
}

/// Whether bytes are lower-case hexadecimal digits.
pub fn is_hex(name: &[u8]) -> (res: bool)
    ensures
        res == hex_digits(name@),
{
    if name.len() == 0 {
        return false;
    }
    let mut i: usize = 0;
    while i < name.len()
        invariant
            i <= name@.len(),
            forall|k: int| 0 <= k < i ==> (48 <= #[trigger] name@[k] <= 57 || 97 <= name@[k] <= 102),
        decreases name.len() - i,
    {
        let b = name[i];
        if !((48 <= b && b <= 57) || (97 <= b && b <= 102)) {
            return false;
        }
        i = i + 1;
    }
    true
}

/// What is done with a file found in the cache directory: shards are named by
/// two digits, and whatever in one is no file with a hexadecimal name can only
/// be the rest of an interrupted write.
pub fn adoption(shard: &[u8], name: &[u8], is_file: bool) -> (res: Adoption)
    ensures
        res == (if !(shard@.len() == 2 && hex_digits(shard@)) {
            Adoption::Ignore
        } else if is_file && hex_digits(name@) {
            Adoption::Keep
        } else {
            Adoption::Remove
        }),
{
    if shard.len() != 2 || !is_hex(shard) {
        return Adoption::Ignore;
    }
    if !is_file || !is_hex(name) {
        return Adoption::Remove;
    }
    Adoption::Keep
}

/// The cache's account of one repository's blobs.
#[derive(Debug)]
pub struct BlobCache {
    blobs: ByteMap<CachedBlob>,
    bytes: u64,
    clock: u64,
    quota: u64,
    inflight: ByteMap<u8>,
    stats: CacheStats,
}

impl View for BlobCache {
    type V = BlobsView;

    closed spec fn view(&self) -> BlobsView {
        BlobsView {
            blobs: self.blobs@,
            bytes: self.bytes,
            clock: self.clock,
            quota: self.quota,
            inflight: self.inflight@.dom(),
            stats: self.stats,
        }
    }
}

impl BlobCache {
    /// The account is in order.
    pub closed spec fn wf(&self) -> bool {
        self.blobs.wf() && self.inflight.wf() && self@.wf()
    }

    /// What well-formedness promises a caller.
    pub proof fn lemma_wf(&self)
        requires
            self.wf(),
        ensures
            self@.wf(),
    {
    }

    /// An empty cache under a byte quota.
    pub fn new(quota_bytes: u64) -> (res: BlobCache)
        ensures
            res.wf(),
            res@ == (BlobsView {
                blobs: Map::empty(),
                bytes: 0,
                clock: 0,
                quota: quota_bytes,
                inflight: Set::empty(),
                stats: CacheStats {
                    hits: 0,
                    fetches: 0,
                    coalesced: 0,
                    bytes_fetched: 0,
                    evictions: 0,
                    verification_failures: 0,
                },
            }),
    {
        let blobs: ByteMap<CachedBlob> = ByteMap::new();
        let inflight: ByteMap<u8> = ByteMap::new();
        let res = BlobCache {
            blobs,
            bytes: 0,
            clock: 0,
            quota: quota_bytes,
            inflight,
            stats: CacheStats {
                hits: 0,
                fetches: 0,
                coalesced: 0,
                bytes_fetched: 0,
                evictions: 0,
                verification_failures: 0,
            },
        };
        assert(res@.inflight =~= Set::empty());
        assert(res@.blobs.dom().len() == 0);
        res
    }

    /// Keep a blob a previous process left on disk: `name` is the whole digest
    /// in hexadecimal, not only the file's own name.
    pub fn adopt(&mut self, name: &[u8], size: u64)
        requires
            old(self).wf(),
            old(self)@.clock < u64::MAX,
            old(self)@.bytes + size <= u64::MAX,
        ensures
            final(self).wf(),
            final(self)@ == old(self)@.stored(name@, size),
    {
        self.store(copy_bytes(name), size);
    }

    fn store(&mut self, name: Vec<u8>, size: u64)
        requires
            old(self).wf(),
            old(self)@.clock < u64::MAX,
            old(self)@.bytes + size <= u64::MAX,
        ensures
            final(self).wf(),
            final(self)@ == old(self)@.stored(name@, size),
    {
        let ghost s = self@;
        self.clock = self.clock + 1;
        let (before, pins): (u64, u32) = match self.blobs.get(name.as_slice()) {
            Some(b) => (b.size, b.pins),
            None => (0, 0),
        };
        proof {
            lemma_total_insert(
                s.blobs,
                name@,
                CachedBlob { size, last_used: self.clock, pins },
            );
            if s.blobs.contains_key(name@) {
                lemma_total_remove(s.blobs, name@);
            } else {
                assert(s.blobs.remove(name@) =~= s.blobs);
            }
        }
        self.blobs.insert(name, CachedBlob { size, last_used: self.clock, pins });
        self.bytes = self.bytes - before + size;
        proof {
            assert(self@ =~= s.stored(name@, size));
        }
    }

    pub fn stats(&self) -> (res: CacheStats)
        ensures
            res == self@.stats,
    {
        self.stats
    }

    /// Bytes of the blobs on disk.
    pub fn bytes_on_disk(&self) -> (res: u64)
        ensures
            res == self@.bytes,
    {
        self.bytes
    }

    /// The use counter.
    pub fn clock(&self) -> (res: u64)
        ensures
            res == self@.clock,
    {
        self.clock
    }

    /// Whether a blob is on disk.
    pub fn contains(&self, oid: &ObjectId) -> (res: bool)
        requires
            self.wf(),
        ensures
            res == self@.blobs.contains_key(name_of(oid@)),
    {
        let name = oid.to_hex();
        self.blobs.contains(name.as_str().as_bytes())
    }

    /// Mark a blob used; the answer is whether there is one.
    pub fn touch(&mut self, oid: &ObjectId) -> (res: bool)
        requires
            old(self).wf(),
            old(self)@.clock < u64::MAX,
        ensures
            final(self).wf(),
            final(self)@ == old(self)@.touched(name_of(oid@)),
            res == old(self)@.blobs.contains_key(name_of(oid@)),
    {
        let ghost s = self@;
        let name = oid.to_hex();
        let key = copy_bytes(name.as_str().as_bytes());
        self.clock = self.clock + 1;
        let found = match self.blobs.get(key.as_slice()) {
            Some(b) => Some(*b),
            None => None,
        };
        match found {
            Some(b) => {
                proof {
                    lemma_total_same_size(
                        s.blobs,
                        key@,
                        CachedBlob { last_used: self.clock, ..b },
                    );
                }
                self.blobs.insert(key, CachedBlob { last_used: self.clock, ..b });
                true
            },
            None => false,
        }
    }

    /// Whether a blob can be held by one more descriptor.
    pub fn can_pin(&self, oid: &ObjectId) -> (res: bool)
        requires
            self.wf(),
        ensures
            res == (self@.clock < u64::MAX && (self@.blobs.contains_key(name_of(oid@))
                ==> self@.blobs[name_of(oid@)].pins < u32::MAX)),
    {
        let name = oid.to_hex();
        if self.clock == u64::MAX {
            return false;
        }
        match self.blobs.get(name.as_str().as_bytes()) {
            Some(b) => b.pins < u32::MAX,
            None => true,
        }
    }

    /// Hold a blob for the life of a descriptor. One that was evicted since it
    /// was fetched is an error worth retrying, not a missing file.
    pub fn pin(&mut self, oid: &ObjectId) -> (res: Result<(), GfsError>)
        requires
            old(self).wf(),
            old(self)@.clock < u64::MAX,
            old(self)@.blobs.contains_key(name_of(oid@)) ==> old(self)@.blobs[name_of(oid@)].pins
                < u32::MAX,
        ensures
            final(self).wf(),
            final(self)@ == old(self)@.pinned(name_of(oid@)),
            res is Ok <==> old(self)@.blobs.contains_key(name_of(oid@)),
            res matches Err(e) ==> e.reads(
                ErrorCode::Unavailable,
                "the cached blob was evicted before it could be opened"@,
            ),
    {
        let ghost s = self@;
        let name = oid.to_hex();
        let key = copy_bytes(name.as_str().as_bytes());
        self.clock = self.clock + 1;
        let found = match self.blobs.get(key.as_slice()) {
            Some(b) => Some(*b),
            None => None,
        };
        match found {
            Some(b) => {
                let held = CachedBlob { last_used: self.clock, pins: b.pins + 1, ..b };
                proof {
                    lemma_total_same_size(s.blobs, key@, held);
                }
                self.blobs.insert(key, held);
                proof {
                    assert(self@.blobs =~= s.pinned(key@).blobs);
                }
                Ok(())
            },
            None => Err(
                GfsError::new(
                    ErrorCode::Unavailable,
                    "the cached blob was evicted before it could be opened",
                ),
            ),
        }
    }

    /// Let a blob go when its descriptor closes.
    pub fn release_blob(&mut self, oid: &ObjectId)
        requires
            old(self).wf(),
        ensures
            final(self).wf(),
            final(self)@ == old(self)@.unpinned(name_of(oid@)),
    {
        let ghost s = self@;
        let name = oid.to_hex();
        let key = copy_bytes(name.as_str().as_bytes());
        let found = match self.blobs.get(key.as_slice()) {
            Some(b) => Some(*b),
            None => None,
        };
        match found {
            Some(b) => {
                if b.pins > 0 {
                    let less = CachedBlob { pins: b.pins - 1, ..b };
                    proof {
                        lemma_total_same_size(s.blobs, key@, less);
                    }
                    self.blobs.insert(key, less);
                }
            },
            None => {},
        }
    }

    /// How a blob is to be had: it is here, or someone is fetching it, or this
    /// caller is to.
    pub fn begin(&mut self, oid: &ObjectId) -> (res: Ensure)
        requires
            old(self).wf(),
            old(self)@.clock < u64::MAX,
        ensures
            final(self).wf(),
            ({
                let k = name_of(oid@);
                let s = old(self)@.touched(k);
                if old(self)@.blobs.contains_key(k) {
                    res == Ensure::Hit && final(self)@ == (BlobsView {
                        stats: CacheStats { hits: s.stats.hits.wrapping_add(1), ..s.stats },
                        ..s
                    })
                } else if old(self)@.inflight.contains(k) {
                    res == Ensure::Join && final(self)@ == (BlobsView {
                        stats: CacheStats {
                            coalesced: s.stats.coalesced.wrapping_add(1),
                            ..s.stats
                        },
                        ..s
                    })
                } else {
                    res == Ensure::Fetch && final(self)@ == (BlobsView {
                        inflight: s.inflight.insert(k),
                        ..s
                    })
                }
            }),
    {
        if self.touch(oid) {
            self.stats = CacheStats { hits: self.stats.hits.wrapping_add(1), ..self.stats };
            return Ensure::Hit;
        }
        let name = oid.to_hex();
        if self.inflight.contains(name.as_str().as_bytes()) {
            self.stats = CacheStats {
                coalesced: self.stats.coalesced.wrapping_add(1),
                ..self.stats
            };
            return Ensure::Join;
        }
        let ghost s = self@;
        self.inflight.insert(copy_bytes(name.as_str().as_bytes()), 0);
        proof {
            assert(self@.inflight =~= s.inflight.insert(name_of(oid@)));
        }
        Ensure::Fetch
    }

    /// The fetch of a blob ended, one way or the other.
    pub fn fetch_ended(&mut self, oid: &ObjectId)
        requires
            old(self).wf(),
        ensures
            final(self).wf(),
            final(self)@ == (BlobsView {
                inflight: old(self)@.inflight.remove(name_of(oid@)),
                ..old(self)@
            }),
    {
        let ghost s = self@;
        let name = oid.to_hex();
        let _ = self.inflight.remove(name.as_str().as_bytes());
        proof {
            assert(self@.inflight =~= s.inflight.remove(name_of(oid@)));
        }
    }

    /// Check fetched bytes against the name they were asked for under. Bytes
    /// that hash to another name are never published.
    pub fn verify(&mut self, oid: &ObjectId, bytes: &[u8]) -> (res: Result<(), GfsError>)
        requires
            old(self).wf(),
        ensures
            final(self).wf(),
            match content_id(oid@.algorithm, bytes@) {
                None => res matches Err(e) && e.reads(
                    ErrorCode::UnsupportedRepositoryFormat,
                    "SHA-256 repositories are out of scope (ADR 0001)"@,
                ) && final(self)@ == old(self)@,
                Some(id) => if id == oid@ {
                    res is Ok && final(self)@ == old(self)@
                } else {
                    res matches Err(e) && e.reads(
                        ErrorCode::Internal,
                        "blob "@ + oid@.qualified()
                            + " did not verify: the server returned content hashing to "@
                            + id.qualified(),
                    ) && final(self)@ == (BlobsView {
                        stats: CacheStats {
                            verification_failures: old(self)@.stats.verification_failures.wrapping_add(
                                1,
                            ),
                            ..old(self)@.stats
                        },
                        ..old(self)@
                    })
                },
            },
    {
        let computed = match hash_blob(oid.algorithm(), bytes) {
            Ok(c) => c,
            Err(e) => return Err(e),
        };
        if computed.same(oid) {
            return Ok(());
        }
        self.stats = CacheStats {
            verification_failures: self.stats.verification_failures.wrapping_add(1),
            ..self.stats
        };
        let mut message = "blob ".to_owned();
        message.append(oid.to_qualified().as_str());
        message.append(" did not verify: the server returned content hashing to ");
        message.append(computed.to_qualified().as_str());
        Err(GfsError::of(ErrorCode::Internal, message))
    }

    /// Account for a verified blob that was written to disk.
    pub fn published(&mut self, oid: &ObjectId, size: u64)
        requires
            old(self).wf(),
            old(self)@.clock < u64::MAX,
            old(self)@.bytes + size <= u64::MAX,
        ensures
            final(self).wf(),
            ({
                let s = old(self)@.stored(name_of(oid@), size);
                final(self)@ == (BlobsView {
                    stats: CacheStats {
                        fetches: s.stats.fetches.wrapping_add(1),
                        bytes_fetched: s.stats.bytes_fetched.wrapping_add(size),
                        ..s.stats
                    },
                    ..s
                })
            }),
    {
        let name = oid.to_hex();
        self.store(copy_bytes(name.as_str().as_bytes()), size);
        self.stats = CacheStats {
            fetches: self.stats.fetches.wrapping_add(1),
            bytes_fetched: self.stats.bytes_fetched.wrapping_add(size),
            ..self.stats
        };
    }

    /// Whether there is more on disk than the quota.
    pub fn over_quota(&self) -> (res: bool)
        ensures
            res == (self@.bytes > self@.quota),
    {
        self.bytes > self.quota
    }

    /// The least recently used blob that nobody holds, among those last used
    /// after a time: its name, and when it was last used.
    pub fn victim(&self, after: u64) -> (res: Option<(Vec<u8>, u64)>)
        requires
            self.wf(),
        ensures
            match res {
                Some(v) => self@.coldest(v.0@, after) && v.1 == self@.blobs[v.0@].last_used,
                None => forall|k: Seq<u8>| !(#[trigger] self@.evictable(k, after)),
            },
    {
        let n = self.blobs.len();
        let mut best: Option<usize> = None;
        let mut least: u64 = 0;
        let mut i: usize = 0;
        let ghost keys = self.blobs.key_seq();
        proof {
            self.blobs.lemma_keys();
        }
        while i < n
            invariant
                self.wf(),
                self.blobs.wf(),
                keys == self.blobs.key_seq(),
                n == keys.len(),
                i <= n,
                forall|j: int| 0 <= j < n ==> self@.blobs.contains_key(#[trigger] keys[j]),
                match best {
                    Some(b) => b < i && self@.evictable(keys[b as int], after) && least
                        == self@.blobs[keys[b as int]].last_used && forall|j: int|
                        0 <= j < i && self@.evictable(#[trigger] keys[j], after) ==> least
                            <= self@.blobs[keys[j]].last_used,
                    None => forall|j: int|
                        0 <= j < i ==> !self@.evictable(#[trigger] keys[j], after),
                },
            decreases n - i,
        {
            let b = self.blobs.value_at(i);
            assert(*b == self@.blobs[keys[i as int]]);
            if b.pins == 0 && b.last_used > after {
                let better = match best {
                    Some(_) => b.last_used < least,
                    None => true,
                };
                if better {
                    best = Some(i);
                    least = b.last_used;
                }
            }
            i = i + 1;
        }
        match best {
            Some(b) => {
                let key = self.blobs.key_at(b);
                proof {
                    assert forall|o: Seq<u8>| #[trigger] self@.evictable(o, after) implies least
                        <= self@.blobs[o].last_used by {
                        assert(keys.contains(o));
                        let j = choose|j: int| 0 <= j < keys.len() && keys[j] == o;
                        assert(self@.evictable(keys[j], after));
                    }
                }
                Some((key.clone(), least))
            },
            None => {
                proof {
                    assert forall|k: Seq<u8>| !(#[trigger] self@.evictable(k, after)) by {
                        if self@.evictable(k, after) {
                            assert(keys.contains(k));
                            let j = choose|j: int| 0 <= j < keys.len() && keys[j] == k;
                            assert(self@.evictable(keys[j], after));
                        }
                    }
                }
                None
            },
        }
    }

    /// Account for a victim whose file is gone.
    pub fn evicted(&mut self, name: &[u8])
        requires
            old(self).wf(),
            old(self)@.blobs.contains_key(name@),
        ensures
            final(self).wf(),
            final(self)@ == old(self)@.without(name@),
    {
        let ghost s = self@;
        proof {
            lemma_total_remove(s.blobs, name@);
        }
        let gone = self.blobs.remove(name);
        let size: u64 = match gone {
            Some(b) => b.size,
            None => 0,
        };
        self.bytes = self.bytes - size;
        self.stats = CacheStats { evictions: self.stats.evictions.wrapping_add(1), ..self.stats };
    }
}

/// A blob that an eviction offered, and whether its file is gone: one that
/// cannot be removed stays.
pub struct Offer {
    pub name: Seq<u8>,
    pub gone: bool,
}

/// The account after the first `n` offers.
pub open spec fn after_offers(s: BlobsView, offers: Seq<Offer>, n: nat) -> BlobsView
    decreases n,
{
    if n == 0 {
        s
    } else {
        let before = after_offers(s, offers, (n - 1) as nat);
        if offers[n - 1].gone {
            before.without(offers[n - 1].name)
        } else {
            before
        }
    }
}

/// When the last of the first `n` offers was last used.
pub open spec fn offered_until(s: BlobsView, offers: Seq<Offer>, n: nat) -> u64 {
    if n == 0 {
        0
    } else {
        s.blobs[offers[n - 1].name].last_used
    }
}

/// Whether an offer is the next of an eviction: the quota is not met, and the
/// blob is the coldest of those nobody holds that were not offered yet.
pub open spec fn offers_next(s: BlobsView, offers: Seq<Offer>, i: int) -> bool {
    let t = after_offers(s, offers, i as nat);
    t.bytes > t.quota && t.coldest(offers[i].name, offered_until(s, offers, i as nat))
}

/// Whether offers are those of an eviction to the quota: each is the next, and
/// after the last of them the quota is met or nothing is left to offer.
pub open spec fn evicts_to_quota(s: BlobsView, offers: Seq<Offer>) -> bool {
    let t = after_offers(s, offers, offers.len());
    &&& forall|i: int| 0 <= i < offers.len() ==> #[trigger] offers_next(s, offers, i)
    &&& t.bytes <= t.quota || forall|k: Seq<u8>|
        !(#[trigger] t.evictable(k, offered_until(s, offers, offers.len())))
}

/// Whether a blob is among the first `n` offers.
pub open spec fn was_offered(offers: Seq<Offer>, n: nat, k: Seq<u8>) -> bool {
    exists|i: int| 0 <= i < n && (#[trigger] offers[i]).name == k
}

/// Whether a blob's file went with the first `n` offers.
pub open spec fn has_gone(offers: Seq<Offer>, n: nat, k: Seq<u8>) -> bool {
    exists|i: int| 0 <= i < n && (#[trigger] offers[i]).name == k && offers[i].gone
}

proof fn lemma_without(s: BlobsView, k: Seq<u8>)
    requires
        s.wf(),
        s.blobs.contains_key(k),
    ensures
        s.without(k).wf(),
{
    lemma_total_remove(s.blobs, k);
    let t = s.without(k);
    assert(t.blobs.dom() =~= s.blobs.dom().remove(k));
    assert forall|a: Seq<u8>, b: Seq<u8>|
        t.blobs.contains_key(a) && t.blobs.contains_key(b) && a != b implies (
    #[trigger] t.blobs[a]).last_used != (#[trigger] t.blobs[b]).last_used by {
        assert(s.blobs[a] == t.blobs[a] && s.blobs[b] == t.blobs[b]);
    }
    assert forall|a: Seq<u8>| #[trigger] t.blobs.contains_key(a) implies 0 < t.blobs[a].last_used
        <= t.clock by {
        assert(s.blobs.contains_key(a));
    }
}

proof fn lemma_offers(s: BlobsView, offers: Seq<Offer>, n: nat)
    requires
        s.wf(),
        n <= offers.len(),
        forall|i: int| 0 <= i < n ==> #[trigger] offers_next(s, offers, i),
    ensures
        after_offers(s, offers, n).wf(),
        after_offers(s, offers, n).quota == s.quota,
        forall|k: Seq<u8>| #[trigger]
            after_offers(s, offers, n).blobs.contains_key(k) <==> s.blobs.contains_key(k)
                && !has_gone(offers, n, k),
        forall|k: Seq<u8>| #[trigger]
            after_offers(s, offers, n).blobs.contains_key(k) ==> after_offers(
                s,
                offers,
                n,
            ).blobs[k] == s.blobs[k],
        forall|i: int|
            0 <= i < n ==> {
                &&& s.blobs.contains_key((#[trigger] offers[i]).name)
                &&& s.blobs[offers[i].name].pins == 0
                &&& s.blobs[offers[i].name].last_used <= offered_until(s, offers, n)
            },
        forall|i: int, j: int|
            0 <= i < j < n ==> s.blobs[(#[trigger] offers[i]).name].last_used < s.blobs[(
            #[trigger] offers[j]).name].last_used,
        forall|k: Seq<u8>| #[trigger]
            s.blobs.contains_key(k) && s.blobs[k].pins == 0 && s.blobs[k].last_used
                <= offered_until(s, offers, n) ==> was_offered(offers, n, k),
    decreases n,
{
    if n > 0 {
        let m = (n - 1) as nat;
        lemma_offers(s, offers, m);
        assert(offers_next(s, offers, m as int));
        let t = after_offers(s, offers, m);
        let u = after_offers(s, offers, n);
        let k0 = offers[m as int].name;
        let until = offered_until(s, offers, m);
        assert(t.evictable(k0, until));
        assert(t.blobs.contains_key(k0));
        if offers[m as int].gone {
            lemma_without(t, k0);
        }
        assert forall|k: Seq<u8>| #[trigger] u.blobs.contains_key(k) <==> s.blobs.contains_key(k)
            && !has_gone(offers, n, k) by {
            assert(t.blobs.contains_key(k) <==> s.blobs.contains_key(k) && !has_gone(offers, m, k));
            if has_gone(offers, m, k) {
                let i = choose|i: int|
                    0 <= i < m && (#[trigger] offers[i]).name == k && offers[i].gone;
                assert(0 <= i < n);
            }
            if offers[m as int].gone && k == k0 {
                assert(has_gone(offers, n, k));
            }
            if has_gone(offers, n, k) && !(offers[m as int].gone && k == k0) {
                let i = choose|i: int|
                    0 <= i < n && (#[trigger] offers[i]).name == k && offers[i].gone;
                assert(i < m);
            }
        }
        assert forall|k: Seq<u8>| #[trigger] u.blobs.contains_key(k) implies u.blobs[k]
            == s.blobs[k] by {
            assert(t.blobs.contains_key(k));
        }
        assert forall|k: Seq<u8>| #[trigger]
            s.blobs.contains_key(k) && s.blobs[k].pins == 0 && s.blobs[k].last_used
                <= offered_until(s, offers, n) implies was_offered(offers, n, k) by {
            if s.blobs[k].last_used <= until {
                assert(was_offered(offers, m, k));
                let i = choose|i: int| 0 <= i < m && (#[trigger] offers[i]).name == k;
                assert(0 <= i < n);
            } else {
                if has_gone(offers, m, k) {
                    let i = choose|i: int|
                        0 <= i < m && (#[trigger] offers[i]).name == k && offers[i].gone;
                    assert(s.blobs[offers[i].name].last_used <= until);
                }
                assert(t.blobs.contains_key(k));
                assert(t.evictable(k, until));
                assert(t.blobs[k0].last_used <= t.blobs[k].last_used);
                assert(t.blobs[k] == s.blobs[k] && t.blobs[k0] == s.blobs[k0]);
                assert(k == k0);
                assert(offers[m as int].name == k);
            }
        }
    }
}

/// An eviction to the quota removes the shortest row of the least recently
/// used blobs that nobody holds, or all of them, and none where the quota is
/// met. A blob whose file cannot be removed is passed over.
pub proof fn law_an_eviction_takes_the_least_recently_used(s: BlobsView, offers: Seq<Offer>)
    requires
        s.wf(),
        evicts_to_quota(s, offers),
    ensures
        s.bytes <= s.quota ==> offers.len() == 0,
        ({
            let t = after_offers(s, offers, offers.len());
            &&& t.wf()
            &&& t.quota == s.quota
            // What is gone was offered and removed; the rest is as it was.
            &&& forall|k: Seq<u8>| #[trigger]
                t.blobs.contains_key(k) <==> s.blobs.contains_key(k) && !has_gone(
                    offers,
                    offers.len(),
                    k,
                )
            &&& forall|k: Seq<u8>| #[trigger]
                t.blobs.contains_key(k) ==> t.blobs[k] == s.blobs[k]
            // The quota is met, or whatever could go was offered.
            &&& t.bytes <= t.quota || forall|k: Seq<u8>| #[trigger]
                s.blobs.contains_key(k) && s.blobs[k].pins == 0 ==> was_offered(
                    offers,
                    offers.len(),
                    k,
                )
        }),
        // Nothing that is held is offered, and nothing hotter than what is not.
        forall|k: Seq<u8>, o: Seq<u8>|
            was_offered(offers, offers.len(), k) && #[trigger] s.blobs.contains_key(o)
                && s.blobs[o].pins == 0 && !(#[trigger] was_offered(offers, offers.len(), o))
                && #[trigger] s.blobs.contains_key(k) ==> s.blobs[k].last_used
                < s.blobs[o].last_used,
        forall|k: Seq<u8>| #[trigger]
            was_offered(offers, offers.len(), k) ==> s.blobs.contains_key(k) && s.blobs[k].pins
                == 0,
        // No shorter row would do.
        forall|n: nat|
            n < offers.len() ==> (#[trigger] after_offers(s, offers, n)).bytes > s.quota,
{
    let n = offers.len();
    lemma_offers(s, offers, n);
    let until = offered_until(s, offers, n);
    let t = after_offers(s, offers, n);
    if n > 0 {
        assert(offers_next(s, offers, 0));
    }
    assert forall|m: nat| m < n implies (#[trigger] after_offers(s, offers, m)).bytes > s.quota by {
        lemma_offers(s, offers, m);
        assert(offers_next(s, offers, m as int));
    }
    if t.bytes > t.quota {
        assert forall|k: Seq<u8>| #[trigger]
            s.blobs.contains_key(k) && s.blobs[k].pins == 0 implies was_offered(offers, n, k) by {
            assert(!t.evictable(k, until));
            if has_gone(offers, n, k) {
                let i = choose|i: int|
                    0 <= i < n && (#[trigger] offers[i]).name == k && offers[i].gone;
            } else {
                assert(t.blobs.contains_key(k));
            }
        }
    }
    assert forall|k: Seq<u8>, o: Seq<u8>|
        was_offered(offers, n, k) && #[trigger] s.blobs.contains_key(o) && s.blobs[o].pins == 0
            && !(#[trigger] was_offered(offers, n, o)) && #[trigger] s.blobs.contains_key(
            k,
        ) implies s.blobs[k].last_used < s.blobs[o].last_used by {
        let i = choose|i: int| 0 <= i < n && (#[trigger] offers[i]).name == k;
        assert(s.blobs[offers[i].name].last_used <= until);
    }
}

/// What came of a fetch that was joined.
#[derive(Debug)]
pub enum Joined {
    Published,
    Failed(String),
    /// The fetcher went away without an answer.
    Abandoned,
}

/// What a caller that joined a fetch answers: every failure is worth retrying.
pub fn joined_outcome(outcome: Joined) -> (res: Result<Hydration, GfsError>)
    ensures
        match outcome {
            Joined::Published => res == Ok::<Hydration, GfsError>(Hydration::Coalesced),
            Joined::Failed(message) => res matches Err(e) && e.reads(
                ErrorCode::Unavailable,
                message@,
            ),
            Joined::Abandoned => res matches Err(e) && e.reads(
                ErrorCode::Unavailable,
                "the in-flight blob fetch did not complete"@,
            ),
        },
{
    match outcome {
        Joined::Published => Ok(Hydration::Coalesced),
        Joined::Failed(message) => Err(GfsError::of(ErrorCode::Unavailable, message)),
        Joined::Abandoned => Err(
            GfsError::new(ErrorCode::Unavailable, "the in-flight blob fetch did not complete"),
        ),
    }
}

/// A blob that is held is never a victim, whatever the quota.
pub proof fn law_a_held_blob_stays(s: BlobsView, k: Seq<u8>, victim: Seq<u8>, after: u64)
    requires
        s.blobs.contains_key(k),
        s.blobs[k].pins > 0,
        s.coldest(victim, after),
    ensures
        victim != k,
{
}

/// Writing a blob to disk closes nobody's descriptor: what is open stays open,
/// and so stays.
pub proof fn law_storing_a_blob_keeps_what_is_open(
    s: BlobsView,
    k: Seq<u8>,
    size: u64,
    held: Seq<u8>,
    after: u64,
)
    requires
        s.pins_of(held) > 0,
    ensures
        s.stored(k, size).pins_of(held) == s.pins_of(held),
        !s.stored(k, size).evictable(held, after),
{
}

/// Of two blobs that may go, the one used longer ago goes first.
pub proof fn law_the_least_recently_used_goes_first(
    s: BlobsView,
    a: Seq<u8>,
    b: Seq<u8>,
    after: u64,
)
    requires
        s.evictable(a, after),
        s.evictable(b, after),
        s.blobs[a].last_used < s.blobs[b].last_used,
    ensures
        !s.coldest(b, after),
{
}

/// Holding and letting go leaves a blob held as it was.
pub proof fn law_a_pin_is_undone_by_its_release(s: BlobsView, k: Seq<u8>)
    requires
        s.blobs.contains_key(k),
        s.blobs[k].pins < u32::MAX,
        s.clock < u64::MAX,
    ensures
        s.pinned(k).unpinned(k).blobs[k].pins == s.blobs[k].pins,
        s.pinned(k).unpinned(k) == s.touched(k),
{
    assert(s.pinned(k).unpinned(k).blobs =~= s.touched(k).blobs);
}

} // verus!
