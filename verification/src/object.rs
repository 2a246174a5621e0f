//! Object identifiers: a hash algorithm and the digest it produced.
use vstd::prelude::*;
use crate::bytes::{bytes_eq, copy_bytes};
use crate::error::{ErrorCode, GfsError};
use crate::text::{hex, push_hex};

verus! {

/// Which hash named an object.
#[derive(Clone, Copy, PartialEq, Eq, Structural, Debug)]
pub enum HashAlgorithm {
    Sha1,
    Sha256,
    LfsSha256,
}

impl HashAlgorithm {
    /// Digest length in bytes.
    pub open spec fn width(self) -> nat {
        match self {
            HashAlgorithm::Sha1 => 20,
            HashAlgorithm::Sha256 => 32,
            HashAlgorithm::LfsSha256 => 32,
        }
    }

    /// The prefix of a qualified identifier.
    pub open spec fn prefix(self) -> Seq<char> {
        match self {
            HashAlgorithm::Sha1 => "sha1:"@,
            HashAlgorithm::Sha256 => "sha256:"@,
            HashAlgorithm::LfsSha256 => "lfs-sha256:"@,
        }
    }

    /// Digest length in bytes.
    pub fn byte_len(self) -> (res: usize)
        ensures
            res == self.width(),
    {
        match self {
            HashAlgorithm::Sha1 => 20,
            HashAlgorithm::Sha256 => 32,
            HashAlgorithm::LfsSha256 => 32,
        }
    }

    fn prefix_text(self) -> (res: &'static str)
        ensures
            res@ == self.prefix(),
    {
        match self {
            HashAlgorithm::Sha1 => "sha1:",
            HashAlgorithm::Sha256 => "sha256:",
            HashAlgorithm::LfsSha256 => "lfs-sha256:",
        }
    }
}

/// One object's name.
#[derive(Debug)]
pub struct ObjectId {
    algorithm: HashAlgorithm,
    digest: Vec<u8>,
}

/// What an [`ObjectId`] denotes.
#[verifier::ext_equal]
pub struct ObjectIdView {
    pub algorithm: HashAlgorithm,
    pub digest: Seq<u8>,
}

impl ObjectIdView {
    /// The qualified text: the algorithm's prefix, then the digest in hex.
    pub open spec fn qualified(self) -> Seq<char> {
        self.algorithm.prefix() + hex(self.digest)
    }
}

impl HashAlgorithm {
    /// A byte that stands for the algorithm.
    pub open spec fn tag(self) -> u8 {
        match self {
            HashAlgorithm::Sha1 => 0,
            HashAlgorithm::Sha256 => 1,
            HashAlgorithm::LfsSha256 => 2,
        }
    }
}

impl ObjectIdView {
    /// A byte key: the algorithm, then the digest.
    pub open spec fn key(self) -> Seq<u8> {
        seq![self.algorithm.tag()] + self.digest
    }
}

/// Different objects have different keys.
pub proof fn law_keys_are_injective(a: ObjectIdView, b: ObjectIdView)
    requires
        a.key() == b.key(),
    ensures
        a == b,
{
    assert(a.key()[0] == a.algorithm.tag());
    assert(b.key()[0] == b.algorithm.tag());
    assert(a.digest =~= a.key().skip(1));
    assert(b.digest =~= b.key().skip(1));
}

impl View for ObjectId {
    type V = ObjectIdView;

    closed spec fn view(&self) -> ObjectIdView {
        ObjectIdView { algorithm: self.algorithm, digest: self.digest@ }
    }
}

impl ObjectId {
    /// Whether the digest has its algorithm's length.
    pub open spec fn wf(&self) -> bool {
        self@.digest.len() == self@.algorithm.width()
    }

    /// An identifier from its digest bytes.
    pub fn from_raw(algorithm: HashAlgorithm, digest: &[u8]) -> (res: Result<ObjectId, GfsError>)
        ensures
            digest@.len() == algorithm.width() <==> res is Ok,
            res matches Ok(oid) ==> oid.wf() && oid@ == (ObjectIdView { algorithm, digest: digest@ }),
            res matches Err(e) ==> e.reads(
                ErrorCode::InvalidArgument,
                "an object ID has the wrong length for its algorithm"@,
            ),
    {
        if digest.len() != algorithm.byte_len() {
            return Err(GfsError::invalid("an object ID has the wrong length for its algorithm"));
        }
        Ok(ObjectId { algorithm, digest: copy_bytes(digest) })
    }

    pub fn algorithm(&self) -> (res: HashAlgorithm)
        ensures
            res == self@.algorithm,
    {
        self.algorithm
    }

    pub fn as_bytes(&self) -> (res: &[u8])
        ensures
            res@ == self@.digest,
    {
        self.digest.as_slice()
    }

    /// An owned copy.
    pub fn duplicate(&self) -> (res: ObjectId)
        ensures
            res@ == self@,
    {
        ObjectId { algorithm: self.algorithm, digest: copy_bytes(self.digest.as_slice()) }
    }

    /// Whether two identifiers name the same object.
    pub fn same(&self, other: &ObjectId) -> (res: bool)
        ensures
            res == (self@ == other@),
    {
        self.algorithm == other.algorithm && bytes_eq(self.digest.as_slice(), other.digest.as_slice())
    }

    /// A byte key: the algorithm, then the digest.
    pub fn key(&self) -> (res: Vec<u8>)
        ensures
            res@ == self@.key(),
    {
        let tag: u8 = match self.algorithm {
            HashAlgorithm::Sha1 => 0,
            HashAlgorithm::Sha256 => 1,
            HashAlgorithm::LfsSha256 => 2,
        };
        let mut out: Vec<u8> = vec![tag];
        crate::bytes::append_bytes(&mut out, self.digest.as_slice());
        assert(out@ =~= self@.key());
        out
    }

    /// The digest in lower-case hexadecimal.
    pub fn to_hex(&self) -> (res: String)
        ensures
            res@ == hex(self@.digest),
    {
        let mut out = String::new();
        push_hex(&mut out, self.digest.as_slice());
        assert(out@ =~= hex(self@.digest));
        out
    }

    /// The digest in hexadecimal behind its algorithm's prefix.
    pub fn to_qualified(&self) -> (res: String)
        ensures
            res@ == self@.qualified(),
    {
        let mut out = self.algorithm.prefix_text().to_owned();
        push_hex(&mut out, self.digest.as_slice());
        out
    }

    /// The identifier a qualified text names.
    pub fn parse_qualified(text: &str) -> (res: Result<ObjectId, GfsError>)
        ensures
            res matches Ok(oid) ==> oid.wf() && oid@.qualified() == text@,
            res is Ok <==> exists|oid: ObjectIdView|
                oid.digest.len() == oid.algorithm.width() && #[trigger] oid.qualified() == text@,
            res matches Err(e) ==> e.reads(ErrorCode::InvalidArgument, "not a qualified object ID"@),
    {
        match parse_under(HashAlgorithm::Sha1, text) {
            Some(oid) => {
                assert(oid@.qualified() == text@);
                return Ok(oid);
            },
            None => {},
        }
        match parse_under(HashAlgorithm::Sha256, text) {
            Some(oid) => {
                assert(oid@.qualified() == text@);
                return Ok(oid);
            },
            None => {},
        }
        match parse_under(HashAlgorithm::LfsSha256, text) {
            Some(oid) => {
                assert(oid@.qualified() == text@);
                return Ok(oid);
            },
            None => {},
        }
        proof {
            assert forall|oid: ObjectIdView|
                oid.digest.len() == oid.algorithm.width() implies #[trigger] oid.qualified()
                != text@ by {
                match oid.algorithm {
                    HashAlgorithm::Sha1 => {},
                    HashAlgorithm::Sha256 => {},
                    HashAlgorithm::LfsSha256 => {},
                }
            }
        }
        Err(GfsError::invalid("not a qualified object ID"))
    }
}

/// The value of a lower-case hexadecimal digit, or 16 for another byte.
pub open spec fn nibble(b: u8) -> nat {
    if 48 <= b <= 57 {
        (b - 48) as nat
    } else if 97 <= b <= 102 {
        (b - 87) as nat
    } else {
        16
    }
}

fn nibble_of(b: u8) -> (res: u8)
    ensures
        res == nibble(b),
        res <= 16,
{
    if 48 <= b && b <= 57 {
        b - 48
    } else if 97 <= b && b <= 102 {
        b - 87
    } else {
        16
    }
}

/// The identifier `text` names under one algorithm.
fn parse_under(algorithm: HashAlgorithm, text: &str) -> (res: Option<ObjectId>)
    ensures
        res matches Some(oid) ==> oid.wf() && oid@.algorithm == algorithm && oid@.qualified()
            == text@,
        res is None ==> forall|oid: ObjectIdView|
            oid.algorithm == algorithm && oid.digest.len() == algorithm.width()
                ==> #[trigger] oid.qualified() != text@,
{
    broadcast use vstd::string::is_ascii_spec_bytes;

    let prefix = algorithm.prefix_text();
    proof {
        reveal_strlit("sha1:");
        reveal_strlit("sha256:");
        reveal_strlit("lfs-sha256:");
        assert forall|oid: ObjectIdView| oid.algorithm == algorithm && oid.digest.len()
            == algorithm.width() && !text.is_ascii() implies #[trigger] oid.qualified() != text@ by {
            let i = choose|i: int| 0 <= i < text@.len() && !('\0' <= #[trigger] text@[i] <= '\u{7f}');
            if oid.qualified() == text@ {
                assert(oid.qualified()[i] == text@[i]);
                if i >= algorithm.prefix().len() {
                    assert(oid.qualified()[i] == hex(oid.digest)[i - algorithm.prefix().len()]);
                }
            }
        }
    }
    if !text.is_ascii() {
        return None;
    }
    let bytes = text.as_bytes();
    let head = prefix.as_bytes();
    let width = algorithm.byte_len();
    let plen = head.len();
    assert(prefix.is_ascii());
    assert(plen == algorithm.prefix().len() && plen <= 11);
    assert(bytes@.len() == text@.len());
    assert(forall|i: int| 0 <= i < text@.len() ==> bytes@[i] == #[trigger] text@[i] as u8);
    if bytes.len() != plen + 2 * width {
        return None;
    }
    let mut i: usize = 0;
    while i < plen
        invariant
            i <= plen,
            plen == head@.len() == algorithm.prefix().len(),
            plen <= bytes@.len(),
            bytes@.len() == text@.len(),
            head@ == Seq::new(plen as nat, |k: int| algorithm.prefix()[k] as u8),
            text.is_ascii(),
            forall|k: int| 0 <= k < text@.len() ==> bytes@[k] == #[trigger] text@[k] as u8,
            forall|k: int| 0 <= k < plen ==> '\0' <= #[trigger] algorithm.prefix()[k] <= '\u{7f}',
            forall|k: int| 0 <= k < i ==> text@[k] == #[trigger] algorithm.prefix()[k],
        decreases plen - i,
    {
        if bytes[i] != head[i] {
            proof {
                assert forall|oid: ObjectIdView| oid.algorithm == algorithm implies #[trigger] oid.qualified()
                    != text@ by {
                    assert(oid.qualified()[i as int] == algorithm.prefix()[i as int]);
                    assert(text@[i as int] as u8 == bytes@[i as int]);
                }
            }
            return None;
        }
        proof {
            let c = text@[i as int];
            let d = algorithm.prefix()[i as int];
            assert(c as u8 == d as u8);
            assert('\0' <= c <= '\u{7f}');
        }
        i = i + 1;
    }
    let mut digest: Vec<u8> = Vec::new();
    while digest.len() < width
        invariant
            digest@.len() <= width,
            width == algorithm.width(),
            plen == algorithm.prefix().len(),
            plen <= 11,
            width <= 32,
            bytes@.len() == plen + 2 * width,
            bytes@.len() == text@.len(),
            text.is_ascii(),
            forall|k: int| 0 <= k < text@.len() ==> bytes@[k] == #[trigger] text@[k] as u8,
            forall|k: int|
                0 <= k < 2 * digest@.len() ==> text@[plen + k] == #[trigger] hex(digest@)[k],
        decreases width - digest.len(),
    {
        let at = plen + 2 * digest.len();
        let hi = nibble_of(bytes[at]);
        let lo = nibble_of(bytes[at + 1]);
        if hi >= 16 || lo >= 16 {
            proof {
                let p = digest@.len() as int;
                assert(text@[at as int] as u8 == bytes@[at as int]);
                assert(text@[at + 1] as u8 == bytes@[at + 1]);
                assert forall|oid: ObjectIdView| oid.algorithm == algorithm && oid.digest.len()
                    == algorithm.width() implies #[trigger] oid.qualified() != text@ by {
                    assert(oid.qualified()[at as int] == hex(oid.digest)[2 * p]);
                    assert(oid.qualified()[at + 1] == hex(oid.digest)[2 * p + 1]);
                    assert((2 * p) / 2 == p && (2 * p) % 2 == 0);
                    assert((2 * p + 1) / 2 == p && (2 * p + 1) % 2 == 1);
                }
            }
            return None;
        }
        let ghost before = digest@;
        digest.push(hi * 16 + lo);
        proof {
            let p = before.len() as int;
            assert((2 * p) / 2 == p && (2 * p) % 2 == 0);
            assert((2 * p + 1) / 2 == p && (2 * p + 1) % 2 == 1);
            assert(text@[at as int] as u8 == bytes@[at as int]);
            assert(text@[at + 1] as u8 == bytes@[at + 1]);
            assert('\0' <= text@[at as int] <= '\u{7f}');
            assert('\0' <= text@[at + 1] <= '\u{7f}');
            assert(hex(digest@)[2 * p] == text@[at as int]);
            assert(hex(digest@)[2 * p + 1] == text@[at + 1]);
            assert forall|k: int| 0 <= k < 2 * digest@.len() implies text@[plen + k]
                == #[trigger] hex(digest@)[k] by {
                if k < 2 * p {
                    assert(k / 2 < p);
                    assert(hex(digest@)[k] == hex(before)[k]);
                }
            }
        }
    }
    let res = ObjectId { algorithm, digest };
    proof {
        assert(res@.qualified() =~= text@) by {
            assert forall|k: int| 0 <= k < text@.len() implies res@.qualified()[k] == text@[k] by {
                if k < plen {
                    assert(text@[k] == algorithm.prefix()[k]);
                } else {
                    assert(text@[plen + (k - plen)] == hex(res@.digest)[k - plen]);
                }
            }
        }
    }
    Some(res)
}

/// A qualified text names one object.
pub proof fn law_qualified_is_injective(a: ObjectIdView, b: ObjectIdView)
    requires
        a.digest.len() == a.algorithm.width(),
        b.digest.len() == b.algorithm.width(),
        a.qualified() == b.qualified(),
    ensures
        a == b,
{
    reveal_strlit("sha1:");
    reveal_strlit("sha256:");
    reveal_strlit("lfs-sha256:");
    assert(hex(a.digest).len() == 2 * a.digest.len());
    assert(hex(b.digest).len() == 2 * b.digest.len());
    assert(a.qualified().len() == a.algorithm.prefix().len() + 2 * a.algorithm.width());
    assert(b.qualified().len() == b.algorithm.prefix().len() + 2 * b.algorithm.width());
    assert("sha1:"@.len() == 5 && "sha256:"@.len() == 7 && "lfs-sha256:"@.len() == 11);
    assert(a.algorithm == b.algorithm);
    let n = a.algorithm.prefix().len() as int;
    assert(hex(a.digest) =~= a.qualified().skip(n));
    assert(hex(b.digest) =~= b.qualified().skip(n));
    crate::text::lemma_hex_injective(a.digest, b.digest);
}

} // verus!
