//! The rsync algorithm: a signature of a base, the delta from it to a target,
//! and the patching of the base into the target.
use crate::digest::{blake3_digest, digest_bytes, Digest};
use vstd::prelude::*;
use vstd::slice::slice_subrange;

pub mod delta;
pub mod laws;

pub use delta::{deltify, patch, PatchError};

verus! {

/// The smallest block a signature may use.
pub const MINIMUM_BLOCK_SIZE: u32 = 1024;

/// The largest block a signature may use.
pub const MAXIMUM_BLOCK_SIZE: u32 = 65536;

/// The most bytes one data operation carries.
pub const MAXIMUM_DATA_OPERATION_SIZE: usize = 65536;

/// The block size that stands for an unspecified one.
pub const DEFAULT_BLOCK_SIZE: u32 = 8192;

/// The hashes of one block.
#[derive(Clone, Copy, Debug)]
pub struct BlockHash {
    /// The rolling checksum.
    pub weak: u32,
    /// The digest.
    pub strong: Digest,
}

/// The block hashes of a base.
#[derive(Clone, Debug)]
pub struct Signature {
    /// The size of every block but the last; zero for an empty base.
    pub block_size: u32,
    /// The size of the last block.
    pub last_block_size: u32,
    /// The hashes, in the order of the blocks.
    pub hashes: Vec<BlockHash>,
}

/// One step of rebuilding a target.
#[derive(Clone, Debug)]
pub enum Op {
    /// Append these bytes.
    Data(Vec<u8>),
    /// Append `count` blocks of the base, from block `start` on.
    Blocks {
        /// The first block.
        start: u64,
        /// How many blocks.
        count: u64,
    },
}

/// What an operation says.
pub enum OpView {
    /// Append these bytes.
    Data(Seq<u8>),
    /// Append blocks of the base.
    Blocks {
        /// The first block.
        start: int,
        /// How many blocks.
        count: int,
    },
}

impl Op {
    /// What the operation says.
    pub open spec fn view(self) -> OpView {
        match self {
            Op::Data(bytes) => OpView::Data(bytes@),
            Op::Blocks { start, count } => OpView::Blocks {
                start: start as int,
                count: count as int,
            },
        }
    }
}

/// What a sequence of operations says.
pub open spec fn op_views(ops: Seq<Op>) -> Seq<OpView> {
    Seq::new(ops.len(), |i: int| ops[i].view())
}

/// What is wrong with a signature.
#[derive(Clone, Copy, Debug, PartialEq, Eq)]
pub enum SignatureError {
    /// An empty signature with a last block.
    EmptyWithLastBlock {
        /// The size it gives the block.
        last_block_size: u32,
    },
    /// An empty signature with hashes.
    EmptyWithHashes {
        /// How many.
        count: usize,
    },
    /// A block size outside the supported range.
    BlockSizeOutOfRange {
        /// The size.
        block_size: u32,
    },
    /// A last block that is empty or larger than a block.
    InvalidLastBlockSize {
        /// Its size.
        last_block_size: u32,
        /// The size of a block.
        block_size: u32,
    },
    /// A signature with blocks and no hashes.
    NoHashes,
    /// More hashes than the base can have blocks.
    TooManyHashes {
        /// How many.
        count: usize,
        /// The length of the base.
        base_length: u64,
    },
}

// ---------------------------------------------------------------------------
// Signatures
// ---------------------------------------------------------------------------

/// The block size a request for `block_size` is served with.
pub open spec fn effective(block_size: u32) -> u32 {
    if block_size == 0 {
        DEFAULT_BLOCK_SIZE
    } else {
        block_size
    }
}

/// Whether `count` blocks of `block_size` are what a base of `length` bytes
/// splits into, the last one of `last` bytes.
pub open spec fn splits_into(length: int, block_size: int, count: int, last: int) -> bool {
    &&& count >= 1
    &&& last == length - (count - 1) * block_size
    &&& 0 < last <= block_size
}

/// Block `i` of a base.
pub open spec fn block_at(base: Seq<u8>, block_size: int, i: int) -> Seq<u8> {
    base.subrange(
        i * block_size,
        if (i + 1) * block_size <= base.len() {
            (i + 1) * block_size
        } else {
            base.len() as int
        },
    )
}

/// Whether `hash` holds the hashes of `block`.
pub open spec fn hashes_block(hash: BlockHash, block: Seq<u8>, block_size: int) -> bool {
    hash.weak == weak_sum(block, block_size) && hash.strong@ == blake3_digest(block)
}

/// Whether `sig` is the signature of `base` with blocks of `block_size`.
pub open spec fn is_signature(sig: Signature, base: Seq<u8>, block_size: u32) -> bool {
    if base.len() == 0 {
        sig.block_size == 0 && sig.last_block_size == 0 && sig.hashes@.len() == 0
    } else {
        &&& sig.block_size == effective(block_size)
        &&& splits_into(
            base.len() as int,
            sig.block_size as int,
            sig.hashes@.len() as int,
            sig.last_block_size as int,
        )
        &&& forall|i: int|
            0 <= i < sig.hashes@.len() ==> hashes_block(
                #[trigger] sig.hashes@[i],
                block_at(base, sig.block_size as int, i),
                sig.block_size as int,
            )
    }
}

/// Whether `sig` has the layout of the signature of a base of `length` bytes.
pub open spec fn is_layout(sig: Signature, length: int, block_size: u32) -> bool {
    if length == 0 {
        sig.block_size == 0 && sig.last_block_size == 0 && sig.hashes@.len() == 0
    } else {
        sig.block_size == effective(block_size) && splits_into(
            length,
            sig.block_size as int,
            sig.hashes@.len() as int,
            sig.last_block_size as int,
        )
    }
}

/// How many blocks a base has.
pub open spec fn block_count(length: int, block_size: int) -> int {
    (length + block_size - 1) / block_size
}

/// The first thing wrong with a signature, if anything is.
pub open spec fn signature_fault(sig: Signature) -> Option<SignatureError> {
    if sig.block_size == 0 {
        if sig.last_block_size != 0 {
            Some(SignatureError::EmptyWithLastBlock { last_block_size: sig.last_block_size })
        } else if sig.hashes@.len() != 0 {
            Some(SignatureError::EmptyWithHashes { count: sig.hashes@.len() as usize })
        } else {
            None
        }
    } else if !(MINIMUM_BLOCK_SIZE <= sig.block_size <= MAXIMUM_BLOCK_SIZE) {
        Some(SignatureError::BlockSizeOutOfRange { block_size: sig.block_size })
    } else if sig.last_block_size == 0 || sig.last_block_size > sig.block_size {
        Some(
            SignatureError::InvalidLastBlockSize {
                last_block_size: sig.last_block_size,
                block_size: sig.block_size,
            },
        )
    } else if sig.hashes@.len() == 0 {
        Some(SignatureError::NoHashes)
    } else {
        None
    }
}

/// What keeps a value from being a signature of a base of the given length, if
/// anything.
pub open spec fn fault_for_base(sig: Signature, base_length: u64) -> Option<SignatureError> {
    match signature_fault(sig) {
        Some(fault) => Some(fault),
        None => if sig.block_size != 0 && sig.hashes@.len() > block_count(
            base_length as int,
            sig.block_size as int,
        ) {
            Some(
                SignatureError::TooManyHashes { count: sig.hashes@.len() as usize, base_length },
            )
        } else {
            None
        },
    }
}

impl Signature {
    /// The signature a base of the given length has, with every hash zero:
    /// its layout, for a base whose content is not at hand.
    pub fn layout(length: u64, block_size: u32) -> (sig: Signature)
        requires
            length > 0 ==> (length - 1) / (effective(block_size) as int) + 1 <= usize::MAX,
        ensures
            is_layout(sig, length as int, block_size),
            forall|i: int|
                0 <= i < sig.hashes@.len() ==> (#[trigger] sig.hashes@[i]).weak == 0
                    && sig.hashes@[i].strong@ == Seq::new(32, |k: int| 0u8),
    {
        let size: u32 = if block_size == 0 {
            DEFAULT_BLOCK_SIZE
        } else {
            block_size
        };
        if length == 0 {
            return Signature { block_size: 0, last_block_size: 0, hashes: Vec::new() };
        }
        let whole: u64 = (length - 1) / (size as u64);
        assert(whole * (size as u64) <= length - 1 && length - 1 < whole * (size as u64) + size)
            by (nonlinear_arith)
            requires
                whole == (length - 1) / (size as int),
                size > 0,
                length > 0,
        ;
        let last: u64 = length - whole * (size as u64);
        let zero: Digest = [0u8;32];
        assert(zero@ =~= Seq::new(32, |k: int| 0u8));
        let mut hashes: Vec<BlockHash> = Vec::new();
        let mut i: u64 = 0;
        while i <= whole
            invariant
                i <= whole + 1,
                whole + 1 <= usize::MAX,
                hashes.len() == i,
                zero@ == Seq::new(32, |k: int| 0u8),
                forall|k: int|
                    0 <= k < hashes.len() ==> (#[trigger] hashes@[k]).weak == 0
                        && hashes@[k].strong@ == Seq::new(32, |k: int| 0u8),
            decreases whole + 1 - i,
        {
            hashes.push(BlockHash { weak: 0, strong: zero });
            i += 1;
        }
        Signature { block_size: size, last_block_size: last as u32, hashes }
    }

    /// Whether this is the signature of an empty base.
    pub fn is_empty(&self) -> (r: bool)
        ensures
            r == (self.block_size == 0),
    {
        self.block_size == 0
    }

    /// Checks that the signature is one a base could have.
    pub fn validate(&self) -> (r: Result<(), SignatureError>)
        ensures
            r == (match signature_fault(*self) {
                None => Ok::<(), SignatureError>(()),
                Some(fault) => Err(fault),
            }),
    {
        if self.is_empty() {
            if self.last_block_size != 0 {
                return Err(
                    SignatureError::EmptyWithLastBlock { last_block_size: self.last_block_size },
                );
            }
            if self.hashes.len() != 0 {
                return Err(SignatureError::EmptyWithHashes { count: self.hashes.len() });
            }
            return Ok(());
        }
        if self.block_size < MINIMUM_BLOCK_SIZE || self.block_size > MAXIMUM_BLOCK_SIZE {
            return Err(SignatureError::BlockSizeOutOfRange { block_size: self.block_size });
        }
        if self.last_block_size == 0 || self.last_block_size > self.block_size {
            return Err(
                SignatureError::InvalidLastBlockSize {
                    last_block_size: self.last_block_size,
                    block_size: self.block_size,
                },
            );
        }
        if self.hashes.len() == 0 {
            return Err(SignatureError::NoHashes);
        }
        Ok(())
    }

    /// Checks that the signature is one, and that it holds no more hashes
    /// than a base of the given length has blocks.
    pub fn validate_for_base(&self, base_length: u64) -> (r: Result<(), SignatureError>)
        ensures
            r == (match fault_for_base(*self, base_length) {
                None => Ok::<(), SignatureError>(()),
                Some(fault) => Err(fault),
            }),
    {
        match self.validate() {
            Err(fault) => {
                return Err(fault);
            },
            Ok(()) => {},
        }
        if self.is_empty() {
            return Ok(());
        }
        let size: u64 = self.block_size as u64;
        let whole: u64 = base_length / size;
        let rest: u64 = base_length % size;
        proof {
            let (l, z) = (base_length as int, size as int);
            assert(block_count(l, z) == l / z + (if l % z == 0 {
                0int
            } else {
                1
            })) by (nonlinear_arith)
                requires
                    z >= 1024,
                    l >= 0,
                    block_count(l, z) == (l + z - 1) / z,
            ;
            assert(whole < u64::MAX) by (nonlinear_arith)
                requires
                    whole == base_length / size,
                    size >= 1024,
            ;
        }
        let blocks: u64 = if rest == 0 {
            whole
        } else {
            whole + 1
        };
        if self.hashes.len() as u64 > blocks {
            return Err(SignatureError::TooManyHashes { count: self.hashes.len(), base_length });
        }
        Ok(())
    }
}

/// Whether `r` is the whole part of the square root of `n`.
pub open spec fn is_root(n: int, r: int) -> bool {
    r >= 0 && r * r <= n < (r + 1) * (r + 1)
}

/// Whether `size` is the block size for a base of the given length.
pub open spec fn is_best_size(length: int, size: int) -> bool {
    &&& MINIMUM_BLOCK_SIZE <= size <= MAXIMUM_BLOCK_SIZE
    &&& 24 * length < MINIMUM_BLOCK_SIZE * MINIMUM_BLOCK_SIZE ==> size == MINIMUM_BLOCK_SIZE
    &&& 24 * length >= MAXIMUM_BLOCK_SIZE * MAXIMUM_BLOCK_SIZE ==> size == MAXIMUM_BLOCK_SIZE
    &&& MINIMUM_BLOCK_SIZE * MINIMUM_BLOCK_SIZE <= 24 * length < MAXIMUM_BLOCK_SIZE
        * MAXIMUM_BLOCK_SIZE ==> is_root(24 * length, size)
}

/// The block size for a base of the given length: the square root of 24 times
/// the length, within the supported sizes.
pub fn optimal_block_size(base_length: u64) -> (r: u32)
    ensures
        is_best_size(base_length as int, r as int),
        MINIMUM_BLOCK_SIZE <= r <= MAXIMUM_BLOCK_SIZE,
        24 * base_length <= 1024 * 1024 ==> r == MINIMUM_BLOCK_SIZE,
        24 * base_length >= 65536 * 65536 ==> r == MAXIMUM_BLOCK_SIZE,
        1024 * 1024 <= 24 * base_length < 65536 * 65536 ==> is_root(24 * base_length, r as int),
{
    if base_length >= 178956971 {
        return MAXIMUM_BLOCK_SIZE;
    }
    let n: u64 = 24 * base_length;
    if n <= 1048576 {
        return MINIMUM_BLOCK_SIZE;
    }
    let mut low: u64 = 1024;
    let mut high: u64 = 65536;
    while high - low > 1
        invariant
            1024 <= low < high <= 65536,
            n == 24 * base_length,
            n < 65536 * 65536,
            low * low <= n < high * high,
        decreases high - low,
    {
        let middle: u64 = (low + high) / 2;
        assert(middle * middle <= 65536 * 65536) by (nonlinear_arith)
            requires
                middle <= 65536,
        ;
        if middle * middle <= n {
            low = middle;
        } else {
            high = middle;
        }
    }
    low as u32
}

// ---------------------------------------------------------------------------
// The rolling checksum
// ---------------------------------------------------------------------------

/// The sum of some bytes.
pub open spec fn byte_sum(s: Seq<u8>) -> int
    decreases s.len(),
{
    if s.len() == 0 {
        0
    } else {
        byte_sum(s.drop_last()) + s.last()
    }
}

/// The sum of some bytes, the first counted `weight` times, the next once
/// less, and so on.
pub open spec fn weighted_sum(s: Seq<u8>, weight: int) -> int
    decreases s.len(),
{
    if s.len() == 0 {
        0
    } else {
        weighted_sum(s.drop_last(), weight) + (weight - (s.len() - 1)) * s.last()
    }
}

/// The weak checksum of a block: both sums modulo 2^16, the weighted one in
/// the upper half.
pub open spec fn weak_sum(s: Seq<u8>, block_size: int) -> int {
    byte_sum(s) % 65536 + (weighted_sum(s, block_size) % 65536) * 65536
}

/// Dropping the first byte takes it off the sum.
proof fn lemma_byte_sum_first(s: Seq<u8>)
    requires
        s.len() > 0,
    ensures
        byte_sum(s) == s[0] + byte_sum(s.skip(1)),
    decreases s.len(),
{
    if s.len() == 1 {
        assert(s.skip(1) =~= Seq::<u8>::empty());
        assert(s.drop_last() =~= Seq::<u8>::empty());
    } else {
        lemma_byte_sum_first(s.drop_last());
        assert(s.drop_last().skip(1) =~= s.skip(1).drop_last());
        assert(s.skip(1).last() == s.last());
    }
}

/// Dropping the first byte takes it off the weighted sum, `weight` times, and
/// leaves the rest one weight lower.
proof fn lemma_weighted_sum_first(s: Seq<u8>, weight: int)
    requires
        s.len() > 0,
    ensures
        weighted_sum(s, weight) == weight * s[0] + weighted_sum(s.skip(1), weight - 1),
    decreases s.len(),
{
    if s.len() == 1 {
        assert(s.skip(1) =~= Seq::<u8>::empty());
        assert(s.drop_last() =~= Seq::<u8>::empty());
        assert(weighted_sum(s.drop_last(), weight) == 0);
        assert((weight - (s.len() - 1)) * s.last() == weight * s[0]);
    } else {
        lemma_weighted_sum_first(s.drop_last(), weight);
        assert(s.drop_last().skip(1) =~= s.skip(1).drop_last());
        assert(s.skip(1).last() == s.last());
        assert((weight - 1) - (s.skip(1).len() - 1) == weight - (s.len() - 1));
    }
}

/// One more weight adds every byte once.
proof fn lemma_weighted_sum_step(s: Seq<u8>, weight: int)
    ensures
        weighted_sum(s, weight + 1) == weighted_sum(s, weight) + byte_sum(s),
    decreases s.len(),
{
    if s.len() > 0 {
        lemma_weighted_sum_step(s.drop_last(), weight);
        let x = s.last() as int;
        let k = weight - (s.len() - 1);
        assert((k + 1) * x == k * x + x) by (nonlinear_arith);
    }
}

/// Rolling the window one byte on: the sums of the next window, from those of
/// this one and the bytes that leave and enter.
pub proof fn lemma_roll(window: Seq<u8>, next: u8)
    requires
        window.len() > 0,
    ensures
        byte_sum(window.skip(1).push(next)) == byte_sum(window) - window[0] + next,
        weighted_sum(window.skip(1).push(next), window.len() as int) == weighted_sum(
            window,
            window.len() as int,
        ) - window.len() * window[0] + byte_sum(window.skip(1).push(next)),
{
    let n = window.len() as int;
    let rest = window.skip(1);
    let rolled = rest.push(next);
    assert(rolled.drop_last() =~= rest);
    lemma_byte_sum_first(window);
    lemma_weighted_sum_first(window, n);
    lemma_weighted_sum_step(rest, n - 1);
    let k = n - (rolled.len() - 1);
    let x = rolled.last() as int;
    assert(k * x == x) by (nonlinear_arith)
        requires
            k == 1,
    ;
}

/// Sums may be reduced before they are combined.
proof fn lemma_reduced(w: int, p: int, s: int)
    ensures
        (w % 65536 + 65536 - p % 65536 + s % 65536) % 65536 == (w - p + s) % 65536,
{
}

/// A sum may be reduced before a byte leaves it and one enters.
proof fn lemma_reduced_bytes(w: int, o: int, i: int)
    ensures
        (w % 65536 + 65536 - o + i) % 65536 == (w - o + i) % 65536,
{
}

/// A weighted byte may be reduced before it is added.
proof fn lemma_weighted_byte(w: int, b: int, i: int, c: int, x: int)
    requires
        c == (b % 65536 + 65536 - i % 65536) % 65536,
    ensures
        (w % 65536 + c * x) % 65536 == (w + (b - i) * x) % 65536,
{
    assert(c == (b - i) % 65536);
    vstd::arithmetic::div_mod::lemma_mul_mod_noop_left(b - i, x, 65536);
    let (p, q) = (c * x, (b - i) * x);
    assert(p % 65536 == q % 65536);
    assert((w % 65536 + p) % 65536 == (w + q) % 65536);
}

/// Both sums of a block, modulo 2^16.
pub fn weak_components(block: &[u8], block_size: u32) -> (r: (u32, u32))
    ensures
        r.0 == byte_sum(block@) % 65536,
        r.1 == weighted_sum(block@, block_size as int) % 65536,
        r.0 < 65536,
        r.1 < 65536,
{
    let mut r1: u64 = 0;
    let mut r2: u64 = 0;
    let mut i: usize = 0;
    while i < block.len()
        invariant
            i <= block.len(),
            r1 == byte_sum(block@.take(i as int)) % 65536,
            r2 == weighted_sum(block@.take(i as int), block_size as int) % 65536,
            r1 < 65536,
            r2 < 65536,
        decreases block.len() - i,
    {
        assert(block@.take(i + 1).drop_last() =~= block@.take(i as int));
        let byte: u64 = block[i] as u64;
        let coefficient: u64 = (block_size as u64 % 65536 + 65536 - i as u64 % 65536) % 65536;
        assert(coefficient * byte <= 65535 * 255) by (nonlinear_arith)
            requires
                coefficient <= 65535,
                byte <= 255,
        ;
        proof {
            lemma_weighted_byte(
                weighted_sum(block@.take(i as int), block_size as int),
                block_size as int,
                i as int,
                coefficient as int,
                byte as int,
            );
        }
        assert(coefficient * byte >= 0) by (nonlinear_arith)
            requires
                coefficient >= 0,
                byte >= 0,
        ;
        r1 = (r1 + byte) % 65536;
        r2 = (r2 + coefficient * byte) % 65536;
        i += 1;
    }
    assert(block@.take(block@.len() as int) =~= block@);
    (r1 as u32, r2 as u32)
}

/// The weak checksum of a block.
pub fn weak_hash(block: &[u8], block_size: u32) -> (r: u32)
    ensures
        r == weak_sum(block@, block_size as int),
{
    let (r1, r2) = weak_components(block, block_size);
    r1 + r2 * 65536
}

/// The sums of the next window, from those of this one, the byte that leaves
/// it and the one that enters.
pub fn roll_weak_components(r1: u32, r2: u32, outgoing: u8, incoming: u8, block_size: u32) -> (r: (
    u32,
    u32,
))
    requires
        r1 < 65536,
        r2 < 65536,
    ensures
        r.0 == (r1 - outgoing + incoming) % 65536,
        r.1 == (r2 - block_size * outgoing + r.0) % 65536,
        r.0 < 65536,
        r.1 < 65536,
{
    let next1: u32 = (r1 + 65536 - outgoing as u32 + incoming as u32) % 65536;
    let reduced: u32 = block_size % 65536;
    assert(reduced * outgoing <= 65535 * 255) by (nonlinear_arith)
        requires
            reduced <= 65535,
            outgoing <= 255,
    ;
    let departing: u32 = (reduced * outgoing as u32) % 65536;
    let next2: u32 = (r2 + 65536 - departing + next1) % 65536;
    proof {
        let b = block_size as int;
        let o = outgoing as int;
        vstd::arithmetic::div_mod::lemma_mul_mod_noop_left(b, o, 65536);
        assert(departing as int == (b * o) % 65536);
        lemma_reduced(r2 as int, b * o, next1 as int);
        lemma_reduced_bytes(r1 as int, o, incoming as int);
    }
    (next1, next2)
}

/// Rolled sums are those of the next window.
pub proof fn law_rolled_sums_are_the_next_window_s(window: Seq<u8>, next: u8, r1: int, r2: int)
    requires
        window.len() > 0,
        r1 == byte_sum(window) % 65536,
        r2 == weighted_sum(window, window.len() as int) % 65536,
    ensures
        ({
            let rolled = window.skip(1).push(next);
            let first = (r1 - window[0] + next) % 65536;
            &&& first == byte_sum(rolled) % 65536
            &&& (r2 - window.len() * window[0] + first) % 65536 == weighted_sum(
                rolled,
                window.len() as int,
            ) % 65536
        }),
{
    lemma_roll(window, next);
    let b = window.len() as int;
    let o = window[0] as int;
    let w = weighted_sum(window, b);
    let s = byte_sum(window.skip(1).push(next));
    let first = (r1 - o + next) % 65536;
    lemma_reduced(w, b * o, s);
    lemma_reduced_bytes(byte_sum(window), o, next as int);
    lemma_reduced_bytes(r1, o, next as int);
    assert(r1 % 65536 == r1);
    lemma_reduced(r2, b * o, first);
    assert(r2 % 65536 == r2);
    assert(first % 65536 == first);
}

// ---------------------------------------------------------------------------
// Computing signatures
// ---------------------------------------------------------------------------

/// Whether hashes are those of the blocks of some bytes, in order.
pub open spec fn hashes_all(hashes: Seq<BlockHash>, base: Seq<u8>, block_size: int) -> bool {
    &&& base.len() == 0 ==> hashes.len() == 0
    &&& base.len() > 0 ==> splits_into(
        base.len() as int,
        block_size,
        hashes.len() as int,
        base.len() - (hashes.len() - 1) * block_size,
    )
    &&& forall|i: int|
        0 <= i < hashes.len() ==> hashes_block(
            #[trigger] hashes[i],
            block_at(base, block_size, i),
            block_size,
        )
}

/// The hashes of the blocks of some bytes, in order.
pub fn block_hashes(base: &[u8], block_size: u32) -> (hashes: Vec<BlockHash>)
    requires
        block_size > 0,
    ensures
        hashes_all(hashes@, base@, block_size as int),
{
    let mut hashes: Vec<BlockHash> = Vec::new();
    let mut offset: usize = 0;
    assert(0 * block_size == 0) by (nonlinear_arith);
    while offset < base.len()
        invariant
            offset <= base.len(),
            block_size > 0,
            offset < base.len() ==> offset == hashes@.len() * block_size,
            hashes@.len() > 0 ==> (hashes@.len() - 1) * block_size < base.len(),
            offset == base.len() && base.len() > 0 ==> hashes@.len() > 0 && base.len()
                <= hashes@.len() * block_size,
            hashes@.len() <= offset,
            forall|i: int|
                0 <= i < hashes@.len() ==> hashes_block(
                    #[trigger] hashes@[i],
                    block_at(base@, block_size as int, i),
                    block_size as int,
                ),
        decreases base.len() - offset,
    {
        let left: usize = base.len() - offset;
        let size: usize = if left as u64 >= block_size as u64 {
            block_size as usize
        } else {
            left
        };
        let block = slice_subrange(base, offset, offset + size);
        let ghost n = hashes@.len() as int;
        proof {
            assert((n + 1) * block_size == n * block_size + block_size) by (nonlinear_arith);
            assert(block@ =~= block_at(base@, block_size as int, n));
        }
        hashes.push(BlockHash { weak: weak_hash(block, block_size), strong: digest_bytes(block) });
        offset += size;
        assert(n + 1 - 1 == n);
    }
    proof {
        if base@.len() > 0 {
            let n = hashes@.len() as int;
            assert((n - 1) * block_size + block_size == n * block_size) by (nonlinear_arith);
        }
    }
    hashes
}

/// The signature of a base.
pub fn signature(base: &[u8], block_size: u32) -> (sig: Signature)
    ensures
        is_signature(sig, base@, block_size),
{
    let size: u32 = if block_size == 0 {
        DEFAULT_BLOCK_SIZE
    } else {
        block_size
    };
    if base.len() == 0 {
        return Signature { block_size: 0, last_block_size: 0, hashes: Vec::new() };
    }
    let hashes = block_hashes(base, size);
    let ghost n = hashes@.len() as int;
    proof {
        assert(0 <= (n - 1) * size) by (nonlinear_arith)
            requires
                n >= 1,
                size > 0,
        ;
        assert(n - 1 <= (n - 1) * size) by (nonlinear_arith)
            requires
                n >= 1,
                size > 0,
        ;
    }
    let before: u64 = (hashes.len() as u64 - 1) * (size as u64);
    let last: u64 = base.len() as u64 - before;
    Signature { block_size: size, last_block_size: last as u32, hashes }
}

/// A file at least this long is read by several threads.
pub const PARALLEL_SIGNATURE_MINIMUM: u64 = 67108864;

/// The most threads that read one file.
pub const SIGNATURE_THREADS_MAX: usize = 8;

/// Whether a file of the given length is read by several threads, of as many
/// as there are.
pub open spec fn in_parallel(length: int, threads: int) -> bool {
    length >= PARALLEL_SIGNATURE_MINIMUM && threads >= 2
}

/// Whether a file of the given length is read by several threads.
pub fn reads_in_parallel(length: u64, threads: usize) -> (r: bool)
    ensures
        r == in_parallel(length as int, threads as int),
{
    !(length < PARALLEL_SIGNATURE_MINIMUM || threads < 2)
}

/// Where the blocks of worker `thread` start.
pub open spec fn worker_start(blocks: int, threads: int, thread: int) -> int {
    let share = (blocks + threads - 1) / threads;
    if thread * share <= blocks {
        thread * share
    } else {
        blocks
    }
}

/// The blocks worker `thread` of `threads` hashes.
pub fn worker_range(blocks: u64, threads: u64, thread: u64) -> (r: (u64, u64))
    requires
        0 < threads,
        thread < threads,
    ensures
        r.0 == worker_start(blocks as int, threads as int, thread as int),
        r.1 == worker_start(blocks as int, threads as int, thread + 1),
{
    let share: u128 = (blocks as u128 + threads as u128 - 1) / (threads as u128);
    assert(share <= blocks + threads) by (nonlinear_arith)
        requires
            share == (blocks + threads - 1) / (threads as int),
            threads > 0,
    ;
    assert((thread + 1) * share <= 18446744073709551615 * 36893488147419103230) by (nonlinear_arith)
        requires
            thread + 1 <= 18446744073709551615,
            share <= 36893488147419103230,
            share >= 0,
    ;
    assert(thread * share <= (thread + 1) * share) by (nonlinear_arith)
        requires
            share >= 0,
    ;
    assert(thread * share >= 0) by (nonlinear_arith)
        requires
            share >= 0,
            thread >= 0,
    ;
    assert(18446744073709551615 * 36893488147419103230 <= u128::MAX * 2);
    if blocks == 0 {
        assert(share == 0) by (nonlinear_arith)
            requires
                share == (0 + threads - 1) / (threads as int),
                threads > 0,
        ;
        return (0, 0);
    }
    assert((threads as int) * share < blocks + threads) by (nonlinear_arith)
        requires
            share == (blocks + threads - 1) / (threads as int),
            threads > 0,
    ;
    assert((thread + 1) * share <= (threads as int) * share) by (nonlinear_arith)
        requires
            thread + 1 <= threads,
            share >= 0,
    ;
    let first: u128 = thread as u128 * share;
    let end: u128 = (thread as u128 + 1) * share;
    (
        if first <= blocks as u128 {
            first as u64
        } else {
            blocks
        },
        if end <= blocks as u128 {
            end as u64
        } else {
            blocks
        },
    )
}

/// The workers' ranges follow one another and cover every block: the first
/// starts at block zero, and the last ends at the last block.
pub proof fn law_workers_cover_every_block(blocks: int, threads: int)
    requires
        blocks >= 0,
        threads > 0,
    ensures
        worker_start(blocks, threads, 0) == 0,
        worker_start(blocks, threads, threads) == blocks,
        forall|t: int|
            0 <= t < threads ==> worker_start(blocks, threads, t) <= #[trigger] worker_start(
                blocks,
                threads,
                t + 1,
            ),
{
    let share = (blocks + threads - 1) / threads;
    assert(threads * share >= blocks && share >= 0) by (nonlinear_arith)
        requires
            share == (blocks + threads - 1) / threads,
            threads > 0,
            blocks >= 0,
    ;
    assert forall|t: int| 0 <= t < threads implies worker_start(blocks, threads, t)
        <= #[trigger] worker_start(blocks, threads, t + 1) by {
        assert((t + 1) * share == t * share + share) by (nonlinear_arith);
    }
}

/// The hashes of several workers, one after another.
pub open spec fn gathered(parts: Seq<Vec<BlockHash>>) -> Seq<BlockHash>
    decreases parts.len(),
{
    if parts.len() == 0 {
        Seq::empty()
    } else {
        gathered(parts.drop_last()) + parts.last()@
    }
}

/// The signature of a base of the given length, from the hashes that its
/// workers took, in their order. `None` where they are not as many as the base
/// has blocks. Where each is that of its block, it is the base's signature.
pub fn assemble(length: u64, block_size: u32, parts: &[Vec<BlockHash>]) -> (r: Option<Signature>)
    requires
        block_size > 0,
        length > 0,
    ensures
        r is Some <==> gathered(parts@).len() == block_count(length as int, block_size as int),
        r matches Some(sig) ==> {
            &&& sig.block_size == block_size
            &&& sig.hashes@ == gathered(parts@)
            &&& is_layout(sig, length as int, block_size)
            &&& forall|base: Seq<u8>|
                base.len() == length && (forall|i: int|
                    0 <= i < sig.hashes@.len() ==> hashes_block(
                        #[trigger] sig.hashes@[i],
                        block_at(base, block_size as int, i),
                        block_size as int,
                    )) ==> #[trigger] is_signature(sig, base, block_size)
        },
{
    let mut hashes: Vec<BlockHash> = Vec::new();
    let mut i: usize = 0;
    assert(hashes@ =~= gathered(parts@.take(0)));
    while i < parts.len()
        invariant
            i <= parts@.len(),
            hashes@ == gathered(parts@.take(i as int)),
        decreases parts@.len() - i,
    {
        let part = &parts[i];
        let ghost start = hashes@;
        assert(parts@.take(i + 1).drop_last() =~= parts@.take(i as int));
        let mut k: usize = 0;
        assert(start + part@.take(0) =~= start);
        while k < part.len()
            invariant
                k <= part@.len(),
                hashes@ == start + part@.take(k as int),
            decreases part@.len() - k,
        {
            hashes.push(BlockHash { weak: part[k].weak, strong: part[k].strong });
            assert(start + part@.take(k + 1) =~= (start + part@.take(k as int)).push(
                part@[k as int],
            ));
            k += 1;
        }
        assert(part@.take(part@.len() as int) =~= part@);
        i += 1;
    }
    assert(parts@.take(parts@.len() as int) =~= parts@);
    let size: u64 = block_size as u64;
    let whole: u64 = (length - 1) / size;
    proof {
        let (l, z) = (length as int, size as int);
        assert(block_count(l, z) == (l - 1) / z + 1) by (nonlinear_arith)
            requires
                z > 0,
                l > 0,
                block_count(l, z) == (l + z - 1) / z,
        ;
        assert(whole * size <= length - 1 && length - 1 < whole * size + size) by (nonlinear_arith)
            requires
                whole == (length - 1) / (size as int),
                size > 0,
                length > 0,
        ;
    }
    if hashes.len() as u64 <= whole || hashes.len() as u64 - 1 != whole {
        return None;
    }
    let last: u64 = length - whole * size;
    let sig = Signature { block_size, last_block_size: last as u32, hashes };
    proof {
        assert forall|base: Seq<u8>|
            base.len() == length && (forall|i: int|
                0 <= i < sig.hashes@.len() ==> hashes_block(
                    #[trigger] sig.hashes@[i],
                    block_at(base, block_size as int, i),
                    block_size as int,
                )) implies #[trigger] is_signature(sig, base, block_size) by {}
    }
    Some(sig)
}

/// The bytes that worker `thread` of `threads` hashes: those of its blocks.
pub open spec fn worker_bytes(
    base: Seq<u8>,
    block_size: int,
    threads: int,
    thread: int,
) -> Seq<u8> {
    let blocks = block_count(base.len() as int, block_size);
    base.subrange(
        offset_of(base, block_size, worker_start(blocks, threads, thread)),
        offset_of(base, block_size, worker_start(blocks, threads, thread + 1)),
    )
}

/// Where block `i` of a base starts, or the base ends.
pub open spec fn offset_of(base: Seq<u8>, block_size: int, i: int) -> int {
    if i * block_size <= base.len() {
        i * block_size
    } else {
        base.len() as int
    }
}

/// How many blocks bytes have that end with a base, or with one of its blocks.
proof fn lemma_range_blocks(length: int, size: int, first: int, end: int)
    requires
        size > 0,
        length > 0,
        0 <= first <= end <= block_count(length, size),
    ensures
        ({
            let to = if end * size <= length {
                end * size
            } else {
                length
            };
            &&& 0 <= first * size <= to || first == end
            &&& first == end ==> first * size >= to
            &&& first < end ==> splits_into(
                to - first * size,
                size,
                end - first,
                to - first * size - (end - first - 1) * size,
            )
        }),
{
    let count = block_count(length, size);
    assert((count - 1) * size < length && length <= count * size) by (nonlinear_arith)
        requires
            count == (length + size - 1) / size,
            size > 0,
            length > 0,
    ;
    assert(0 <= first * size) by (nonlinear_arith)
        requires
            first >= 0,
            size > 0,
    ;
    if first < end {
        assert((end - 1) * size <= (count - 1) * size) by (nonlinear_arith)
            requires
                end <= count,
                size > 0,
        ;
        assert((end - 1) * size == first * size + (end - first - 1) * size) by (nonlinear_arith);
        assert(end * size == (end - 1) * size + size) by (nonlinear_arith);
        assert((end - first - 1) * size >= 0) by (nonlinear_arith)
            requires
                end - first - 1 >= 0,
                size > 0,
        ;
    }
}

/// As many blocks as bytes split into.
proof fn lemma_split_count(length: int, size: int, one: int, other: int)
    requires
        size > 0,
        splits_into(length, size, one, length - (one - 1) * size),
        splits_into(length, size, other, length - (other - 1) * size),
    ensures
        one == other,
{
    if one < other {
        assert((one - 1) * size + size <= (other - 1) * size) by (nonlinear_arith)
            requires
                one < other,
                size > 0,
        ;
    } else if other < one {
        assert((other - 1) * size + size <= (one - 1) * size) by (nonlinear_arith)
            requires
                other < one,
                size > 0,
        ;
    }
}

/// The hashes that a worker takes are those of its blocks of the base.
proof fn lemma_worker_hashes(
    base: Seq<u8>,
    size: int,
    threads: int,
    thread: int,
    hashes: Seq<BlockHash>,
)
    requires
        size > 0,
        base.len() > 0,
        0 <= thread < threads,
        hashes_all(hashes, worker_bytes(base, size, threads, thread), size),
    ensures
        ({
            let blocks = block_count(base.len() as int, size);
            let first = worker_start(blocks, threads, thread);
            &&& hashes.len() == worker_start(blocks, threads, thread + 1) - first
            &&& forall|k: int|
                0 <= k < hashes.len() ==> hashes_block(
                    #[trigger] hashes[k],
                    block_at(base, size, first + k),
                    size,
                )
        }),
{
    let length = base.len() as int;
    let blocks = block_count(length, size);
    let first = worker_start(blocks, threads, thread);
    let end = worker_start(blocks, threads, thread + 1);
    let bytes = worker_bytes(base, size, threads, thread);
    assert(blocks >= 0) by (nonlinear_arith)
        requires
            blocks == (length + size - 1) / size,
            size > 0,
            length > 0,
    ;
    law_workers_cover_every_block(blocks, threads);
    lemma_worker_bounds(blocks, threads, thread);
    lemma_range_blocks(length, size, first, end);
    let to = if end * size <= length {
        end * size
    } else {
        length
    };
    assert(to == offset_of(base, size, end));
    if first < end {
        assert(first * size <= to);
        assert(offset_of(base, size, first) == first * size);
        assert(bytes.len() == to - first * size);
        lemma_split_count(bytes.len() as int, size, hashes.len() as int, end - first);
        assert forall|k: int| 0 <= k < hashes.len() implies hashes_block(
            #[trigger] hashes[k],
            block_at(base, size, first + k),
            size,
        ) by {
            assert((first + k) * size == first * size + k * size) by (nonlinear_arith);
            assert((first + k + 1) * size == first * size + (k + 1) * size) by (nonlinear_arith);
            assert((k + 1) * size <= (end - first) * size) by (nonlinear_arith)
                requires
                    k + 1 <= end - first,
                    size > 0,
            ;
            assert((end - first) * size == end * size - first * size) by (nonlinear_arith);
            assert(k * size >= 0) by (nonlinear_arith)
                requires
                    k >= 0,
                    size > 0,
            ;
            assert(k * size <= (hashes.len() - 1) * size) by (nonlinear_arith)
                requires
                    k <= hashes.len() - 1,
                    size > 0,
            ;
            assert((hashes.len() - 1) * size < bytes.len());
            let (a, b) = (block_at(bytes, size, k), block_at(base, size, first + k));
            let stop = if (k + 1) * size <= bytes.len() {
                (k + 1) * size
            } else {
                bytes.len() as int
            };
            assert(a == bytes.subrange(k * size, stop));
            assert(b == base.subrange(first * size + k * size, first * size + stop));
            assert((k + 1) * size == k * size + size) by (nonlinear_arith);
            assert(0 <= k * size <= stop <= bytes.len());
            assert(bytes == base.subrange(first * size, to));
            assert(to <= base.len());
            assert(a =~= b);
        }
    }
}

proof fn lemma_worker_bounds(blocks: int, threads: int, thread: int)
    requires
        blocks >= 0,
        0 <= thread < threads,
    ensures
        0 <= worker_start(blocks, threads, thread) <= worker_start(blocks, threads, thread + 1)
            <= blocks,
{
    let share = (blocks + threads - 1) / threads;
    assert(share >= 0) by (nonlinear_arith)
        requires
            share == (blocks + threads - 1) / threads,
            threads > 0,
            blocks >= 0,
    ;
    assert(thread * share >= 0) by (nonlinear_arith)
        requires
            share >= 0,
            thread >= 0,
    ;
    law_workers_cover_every_block(blocks, threads);
}

/// The hashes of the first workers are those of the blocks that they cover.
proof fn lemma_gathered_hashes(
    base: Seq<u8>,
    size: int,
    threads: int,
    parts: Seq<Vec<BlockHash>>,
    n: int,
)
    requires
        size > 0,
        base.len() > 0,
        0 <= n <= threads,
        threads > 0,
        parts.len() == threads,
        forall|t: int|
            0 <= t < threads ==> hashes_all(
                (#[trigger] parts[t])@,
                worker_bytes(base, size, threads, t),
                size,
            ),
    ensures
        ({
            let all = gathered(parts.take(n));
            &&& all.len() == worker_start(block_count(base.len() as int, size), threads, n)
            &&& forall|i: int|
                0 <= i < all.len() ==> hashes_block(
                    #[trigger] all[i],
                    block_at(base, size, i),
                    size,
                )
        }),
    decreases n,
{
    let blocks = block_count(base.len() as int, size);
    assert(blocks >= 0) by (nonlinear_arith)
        requires
            blocks == (base.len() + size - 1) / size,
            size > 0,
            base.len() > 0,
    ;
    law_workers_cover_every_block(blocks, threads);
    if n > 0 {
        lemma_gathered_hashes(base, size, threads, parts, n - 1);
        lemma_worker_hashes(base, size, threads, n - 1, parts[n - 1]@);
        let front = gathered(parts.take(n - 1));
        let all = gathered(parts.take(n));
        assert(parts.take(n).drop_last() =~= parts.take(n - 1));
        assert(parts.take(n).last() == parts[n - 1]);
        assert(all == front + parts[n - 1]@);
        assert forall|i: int| 0 <= i < all.len() implies hashes_block(
            #[trigger] all[i],
            block_at(base, size, i),
            size,
        ) by {
            if i < front.len() {
                assert(all[i] == front[i]);
            } else {
                let k = i - front.len();
                assert(all[i] == parts[n - 1]@[k]);
                assert(hashes_block(parts[n - 1]@[k], block_at(base, size, front.len() + k), size));
            }
        }
    }
}

/// The first workers have no hashes of a base that holds nothing.
proof fn lemma_gathered_nothing(
    base: Seq<u8>,
    size: int,
    threads: int,
    parts: Seq<Vec<BlockHash>>,
    n: int,
)
    requires
        size > 0,
        base.len() == 0,
        0 <= n <= threads,
        threads > 0,
        parts.len() == threads,
        forall|t: int|
            0 <= t < threads ==> hashes_all(
                (#[trigger] parts[t])@,
                worker_bytes(base, size, threads, t),
                size,
            ),
    ensures
        gathered(parts.take(n)).len() == 0,
    decreases n,
{
    if n > 0 {
        lemma_gathered_nothing(base, size, threads, parts, n - 1);
        let blocks = block_count(0, size);
        assert(blocks == 0) by (nonlinear_arith)
            requires
                blocks == (size - 1) / size,
                size > 0,
        ;
        let share = (threads - 1) / threads;
        assert(share == 0) by (nonlinear_arith)
            requires
                share == (threads - 1) / threads,
                threads > 0,
        ;
        assert((n - 1) * share == 0 && n * share == 0) by (nonlinear_arith)
            requires
                share == 0,
        ;
        assert(0 * size == 0);
        assert(worker_bytes(base, size, threads, n - 1).len() == 0);
        assert(hashes_all(parts[n - 1]@, worker_bytes(base, size, threads, n - 1), size));
        assert(parts.take(n).drop_last() =~= parts.take(n - 1));
        assert(parts.take(n).last() == parts[n - 1]);
    }
}

/// However many workers hash the blocks of a base, each those of its range,
/// a signature is assembled of their hashes, and it is the one that hashing
/// the base in one pass gives: it has the same block size, the same last block
/// and, block for block, the same hashes.
pub proof fn law_workers_make_the_signature(
    base: Seq<u8>,
    block_size: u32,
    threads: int,
    parts: Seq<Vec<BlockHash>>,
    assembled: Option<Signature>,
    streamed: Signature,
)
    requires
        threads > 0,
        parts.len() == threads,
        forall|t: int|
            0 <= t < threads ==> hashes_all(
                (#[trigger] parts[t])@,
                worker_bytes(base, effective(block_size) as int, threads, t),
                effective(block_size) as int,
            ),
        assembled is Some <==> gathered(parts).len() == block_count(
            base.len() as int,
            effective(block_size) as int,
        ),
        assembled matches Some(made) ==> made.hashes@ == gathered(parts) && is_layout(
            made,
            base.len() as int,
            block_size,
        ),
        is_signature(streamed, base, block_size),
    ensures
        assembled is Some,
        is_signature(assembled->0, base, block_size),
        assembled->0.block_size == streamed.block_size,
        assembled->0.last_block_size == streamed.last_block_size,
        assembled->0.hashes@.len() == streamed.hashes@.len(),
        forall|i: int|
            0 <= i < streamed.hashes@.len() ==> (#[trigger] assembled->0.hashes@[i]).weak
                == streamed.hashes@[i].weak && assembled->0.hashes@[i].strong@
                == streamed.hashes@[i].strong@,
{
    let size = effective(block_size) as int;
    let blocks = block_count(base.len() as int, size);
    let made = assembled->0;
    if base.len() == 0 {
        assert(blocks == 0) by (nonlinear_arith)
            requires
                blocks == (size - 1) / size,
                size > 0,
        ;
        lemma_gathered_nothing(base, size, threads, parts, threads);
        assert(parts.take(threads) =~= parts);
    } else {
        assert(blocks >= 0) by (nonlinear_arith)
            requires
                blocks == (base.len() + size - 1) / size,
                size > 0,
                base.len() > 0,
        ;
        law_workers_cover_every_block(blocks, threads);
        lemma_gathered_hashes(base, size, threads, parts, threads);
        assert(parts.take(threads) =~= parts);
        assert(is_signature(made, base, block_size));
        lemma_split_count(
            base.len() as int,
            size,
            made.hashes@.len() as int,
            streamed.hashes@.len() as int,
        );
        assert forall|i: int| 0 <= i < made.hashes@.len() implies (
        #[trigger] made.hashes@[i]).weak == streamed.hashes@[i].weak && made.hashes@[i].strong@
            == streamed.hashes@[i].strong@ by {
            assert(hashes_block(made.hashes@[i], block_at(base, size, i), size));
            assert(hashes_block(streamed.hashes@[i], block_at(base, size, i), size));
        }
    }
}

/// Where no block size is given, blocks are of 8192 bytes; any other size is
/// taken as it is.
pub proof fn law_blocks_are_of_eight_kilobytes_by_default(block_size: u32)
    ensures
        effective(0) == 8192,
        block_size > 0 ==> effective(block_size) == block_size,
{
}

/// A value is a signature where it is empty throughout, or has blocks of 1024
/// to 65536 bytes, of which there is at least one, the last of them not empty
/// and not larger than the others. What is amiss is told by its own fault.
pub proof fn law_a_signature_keeps_its_bounds(sig: Signature)
    ensures
        signature_fault(sig) is None <==> {
            ||| sig.block_size == 0 && sig.last_block_size == 0 && sig.hashes@.len() == 0
            ||| 1024 <= sig.block_size <= 65536 && 1 <= sig.last_block_size <= sig.block_size
                && sig.hashes@.len() >= 1
        },
        signature_fault(sig) matches Some(fault) ==> match fault {
            SignatureError::EmptyWithLastBlock { last_block_size } => sig.block_size == 0
                && last_block_size == sig.last_block_size && last_block_size > 0,
            SignatureError::EmptyWithHashes { count } => sig.block_size == 0 && sig.last_block_size
                == 0 && sig.hashes@.len() > 0 && count == sig.hashes@.len() as usize,
            SignatureError::BlockSizeOutOfRange { block_size } => block_size == sig.block_size && (
            0 < block_size < 1024 || block_size > 65536),
            SignatureError::InvalidLastBlockSize { last_block_size, block_size } => {
                &&& last_block_size == sig.last_block_size
                &&& block_size == sig.block_size
                &&& 1024 <= block_size <= 65536
                &&& last_block_size == 0 || last_block_size > block_size
            },
            SignatureError::NoHashes => 1024 <= sig.block_size <= 65536 && 1
                <= sig.last_block_size <= sig.block_size && sig.hashes@.len() == 0,
            SignatureError::TooManyHashes { .. } => false,
        },
{
}

/// A signature is refused for a base exactly where it is none, or where its
/// last block would start at the end of the base or behind it.
pub proof fn law_a_signature_has_no_block_behind_the_base(sig: Signature, base_length: u64)
    ensures
        signature_fault(sig) is Some ==> fault_for_base(sig, base_length) == signature_fault(sig),
        signature_fault(sig) is None && sig.block_size == 0 ==> fault_for_base(sig, base_length)
            is None,
        signature_fault(sig) is None && sig.block_size > 0 ==> (fault_for_base(sig, base_length)
            is Some <==> (sig.hashes@.len() - 1) * sig.block_size >= base_length),
        signature_fault(sig) is None ==> (fault_for_base(sig, base_length) matches Some(fault)
            ==> fault == (SignatureError::TooManyHashes {
            count: sig.hashes@.len() as usize,
            base_length,
        })),
{
    if signature_fault(sig) is None && sig.block_size > 0 {
        let (n, size, length) = (sig.hashes@.len() as int, sig.block_size as int, base_length as int);
        let blocks = block_count(length, size);
        assert(blocks * size <= length + size - 1 < blocks * size + size) by (nonlinear_arith)
            requires
                size > 0,
                blocks == (length + size - 1) / size,
        ;
        assert(n > blocks <==> (n - 1) * size >= length) by (nonlinear_arith)
            requires
                size > 0,
                blocks * size <= length + size - 1 < blocks * size + size,
        ;
    }
}

/// The block size for a base is the whole square root of 24 times its length,
/// kept between 1024 and 65536: below it unless that is too small, and not
/// short of it by one unless that is too large. There is one such size.
pub proof fn law_a_block_grows_with_the_root_of_its_base(length: int, size: int, other: int)
    requires
        length >= 0,
        is_best_size(length, size),
    ensures
        1024 <= size <= 65536,
        size > 1024 ==> size * size <= 24 * length,
        size < 65536 ==> 24 * length < (size + 1) * (size + 1),
        is_best_size(length, other) ==> other == size,
{
    if 24 * length < 1024 * 1024 {
        assert((size + 1) * (size + 1) == 1025 * 1025) by (nonlinear_arith)
            requires
                size == 1024,
        ;
    } else if 24 * length >= 65536 * 65536 {
        assert(size == 65536);
    } else if is_best_size(length, other) {
        assert(other == size) by (nonlinear_arith)
            requires
                size >= 0,
                other >= 0,
                size * size <= 24 * length < (size + 1) * (size + 1),
                other * other <= 24 * length < (other + 1) * (other + 1),
        ;
    }
}

/// One more byte adds itself to the first sum, and to the second itself times
/// what its place leaves of the weight; the two sums, of sixteen bits each, are
/// the halves of the weak hash.
pub proof fn law_a_weak_hash_sums_every_byte(s: Seq<u8>, byte: u8, weight: int)
    ensures
        byte_sum(s.push(byte)) == byte_sum(s) + byte,
        weighted_sum(s.push(byte), weight) == weighted_sum(s, weight) + (weight - s.len()) * byte,
        byte_sum(Seq::empty()) == 0,
        weighted_sum(Seq::empty(), weight) == 0,
        weak_sum(s, weight) % 65536 == byte_sum(s) % 65536,
        weak_sum(s, weight) / 65536 == weighted_sum(s, weight) % 65536,
{
    assert(s.push(byte).drop_last() =~= s);
}

/// Blocks lie one behind another from the start of the base, all of them full
/// but for the last, which ends with the base.
pub proof fn law_blocks_lie_end_to_end(base: Seq<u8>, sig: Signature, block_size: u32, i: int)
    requires
        base.len() > 0,
        is_signature(sig, base, block_size),
        0 <= i < sig.hashes@.len(),
    ensures
        ({
            let size = sig.block_size as int;
            let n = sig.hashes@.len() as int;
            let block = block_at(base, size, i);
            &&& (n - 1) * size < base.len() <= n * size
            &&& i < n - 1 ==> block.len() == size
            &&& i == n - 1 ==> i * size + block.len() == base.len()
            &&& forall|k: int| 0 <= k < block.len() ==> #[trigger] block[k] == base[i * size + k]
            &&& sig.hashes@[i].weak == weak_sum(block, size)
            &&& sig.hashes@[i].strong@ == blake3_digest(block)
        }),
{
    let size = sig.block_size as int;
    let n = sig.hashes@.len() as int;
    assert((n - 1) * size + size == n * size) by (nonlinear_arith);
    assert((i + 1) * size == i * size + size) by (nonlinear_arith);
    assert(0 <= i * size) by (nonlinear_arith)
        requires
            i >= 0,
            size >= 0,
    ;
    if i < n - 1 {
        assert((i + 1) * size <= (n - 1) * size) by (nonlinear_arith)
            requires
                i + 1 <= n - 1,
                size >= 0,
        ;
    } else {
        assert(n * size >= base.len());
    }
    assert(hashes_block(sig.hashes@[i], block_at(base, size, i), size));
}

/// Only a file of 64 megabytes or more is read by several threads, and only
/// where there are several.
pub proof fn law_large_files_are_read_in_parallel(length: int, threads: int)
    ensures
        in_parallel(length, threads) <==> length >= 67108864 && threads > 1,
{
}

} // verus!
