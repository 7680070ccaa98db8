//! Content digests.
use vstd::prelude::*;

verus! {

/// A BLAKE3 digest.
pub type Digest = [u8; 32];

/// The BLAKE3 digest of some bytes.
pub uninterp spec fn blake3_digest(bytes: Seq<u8>) -> Seq<u8>;

/// `blake3::hash` followed by `Hash::as_bytes`: the digest is a function of
/// the bytes alone, named `blake3_digest` here; nothing else is claimed of it.
#[verifier::external_body]
pub(crate) fn digest_bytes(bytes: &[u8]) -> (d: Digest)
    ensures
        d@ == blake3_digest(bytes@),
{
    *blake3::hash(bytes).as_bytes()
}

/// The incremental hasher.
#[verifier::external_type_specification]
#[verifier::external_body]
pub struct ExHasher(blake3::Hasher);

/// The bytes a hasher has been given so far.
pub uninterp spec fn hashed(hasher: blake3::Hasher) -> Seq<u8>;

/// `blake3::Hasher::new`: a hasher that has been given nothing.
#[verifier::external_body]
fn hasher_new() -> (h: blake3::Hasher)
    ensures
        hashed(h) == Seq::<u8>::empty(),
{
    blake3::Hasher::new()
}

/// `blake3::Hasher::update`: the bytes follow those given before.
#[verifier::external_body]
fn hasher_update(h: &mut blake3::Hasher, bytes: &[u8])
    ensures
        hashed(*final(h)) == hashed(*old(h)) + bytes@,
{
    h.update(bytes);
}

/// `blake3::Hasher::finalize` followed by `Hash::as_bytes`: the digest of
/// everything the hasher was given, the one `blake3::hash` gives for it.
#[verifier::external_body]
fn hasher_finalize(h: &blake3::Hasher) -> (d: Digest)
    ensures
        d@ == blake3_digest(hashed(*h)),
{
    *h.finalize().as_bytes()
}

/// Whether two digests are the same.
pub fn same_digest(a: &Digest, b: &Digest) -> (r: bool)
    ensures
        r == (a@ == b@),
{
    let mut i: usize = 0;
    while i < 32
        invariant
            i <= 32,
            forall|k: int| 0 <= k < i ==> a@[k] == b@[k],
        decreases 32 - i,
    {
        if a[i] != b[i] {
            return false;
        }
        i += 1;
    }
    assert(a@ =~= b@);
    true
}

/// The digest of some bytes.
pub fn digest_of(bytes: &[u8]) -> (d: Digest)
    ensures
        d@ == blake3_digest(bytes@),
{
    digest_bytes(bytes)
}

/// How far past the size a file was listed with its reading may go before the
/// file counts as being written.
pub const DIGEST_GROWTH_ALLOWANCE: u64 = 1048576;

/// A file being read for its digest, with a limit on how much it may hold.
pub struct DigestRun {
    hasher: blake3::Hasher,
    read: u64,
    limit: u64,
}

impl DigestRun {
    /// The bytes read so far.
    pub closed spec fn content(&self) -> Seq<u8> {
        hashed(self.hasher)
    }

    /// The number of bytes past which the file counts as being written.
    pub closed spec fn limit(&self) -> int {
        self.limit as int
    }

    /// What holds of every run: the bytes counted are the bytes read, or the
    /// count stands at its maximum.
    pub closed spec fn well_formed(&self) -> bool {
        self.read as int == (if self.content().len() > u64::MAX {
            u64::MAX as int
        } else {
            self.content().len() as int
        })
    }

    /// Starts on a file listed with the given size.
    pub fn new(size: u64) -> (run: DigestRun)
        ensures
            run.well_formed(),
            run.content() == Seq::<u8>::empty(),
            run.limit() == (if size + DIGEST_GROWTH_ALLOWANCE > u64::MAX {
                u64::MAX as int
            } else {
                size + DIGEST_GROWTH_ALLOWANCE
            }),
    {
        DigestRun {
            hasher: hasher_new(),
            read: 0,
            limit: size.saturating_add(DIGEST_GROWTH_ALLOWANCE),
        }
    }

    /// Takes the bytes one read returned. `false` when the file has grown past
    /// the limit: it is being written, and its digest is not taken.
    pub fn feed(&mut self, bytes: &[u8]) -> (within: bool)
        requires
            old(self).well_formed(),
        ensures
            final(self).well_formed(),
            final(self).content() == old(self).content() + bytes@,
            final(self).limit() == old(self).limit(),
            within == (final(self).content().len() <= final(self).limit() || final(self).limit()
                == u64::MAX),
    {
        hasher_update(&mut self.hasher, bytes);
        self.read = self.read.saturating_add(bytes.len() as u64);
        self.read <= self.limit
    }

    /// The digest of what was read, and how much that was.
    pub fn finish(&self) -> (r: (Digest, u64))
        requires
            self.well_formed(),
        ensures
            r.0@ == blake3_digest(self.content()),
            self.content().len() <= u64::MAX ==> r.1 == self.content().len(),
    {
        (hasher_finalize(&self.hasher), self.read)
    }
}

} // verus!
