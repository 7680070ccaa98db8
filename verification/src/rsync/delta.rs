//! Deltas: finding the blocks of a base in a target, and rebuilding the
//! target from them.
use crate::digest::{blake3_digest, digest_bytes, same_digest, Digest};
use crate::rsync::{
    byte_sum, law_rolled_sums_are_the_next_window_s, op_views, roll_weak_components,
    signature_fault, weak_components, weak_hash, weak_sum, weighted_sum, BlockHash, Op, OpView,
    Signature, SignatureError, MAXIMUM_DATA_OPERATION_SIZE,
};
use std::collections::HashMap;
use vstd::prelude::*;
use vstd::slice::{slice_subrange, slice_to_vec};

verus! {

// ---------------------------------------------------------------------------
// What a delta is
// ---------------------------------------------------------------------------

/// A step of a delta before it is cut and merged into operations.
pub enum Unit {
    /// Bytes of the target that are in no block.
    Data(Seq<u8>),
    /// A block of the base.
    Block(int),
}

/// The bytes of the target from `start` to `end`, as a step; nothing where
/// there are none.
pub open spec fn data_unit(target: Seq<u8>, start: int, end: int) -> Seq<Unit> {
    if start == end {
        Seq::empty()
    } else {
        seq![Unit::Data(target.subrange(start, end))]
    }
}

/// How many blocks of a base are full ones.
pub open spec fn full_blocks(sig: Signature) -> int {
    if sig.last_block_size == sig.block_size {
        sig.hashes@.len() as int
    } else {
        sig.hashes@.len() - 1
    }
}

/// The first of the first `n` blocks with the given hashes.
pub open spec fn first_match(
    hashes: Seq<BlockHash>,
    n: int,
    weak: int,
    strong: Seq<u8>,
) -> Option<int>
    decreases n,
{
    if n <= 0 {
        None
    } else {
        match first_match(hashes, n - 1, weak, strong) {
            Some(i) => Some(i),
            None => if hashes[n - 1].weak == weak && hashes[n - 1].strong@ == strong {
                Some(n - 1)
            } else {
                None
            },
        }
    }
}

/// The block a full window of the target is found to be: the one that follows
/// the block found just before it, where the digests agree, or else the first
/// whose hashes do.
pub open spec fn found(sig: Signature, window: Seq<u8>, expected: Option<int>) -> Option<int> {
    let strong = blake3_digest(window);
    match expected {
        Some(i) if i < full_blocks(sig) && sig.hashes@[i].strong@ == strong => Some(i),
        _ => first_match(
            sig.hashes@,
            full_blocks(sig),
            weak_sum(window, sig.block_size as int),
            strong,
        ),
    }
}

/// The steps for what is left of a target when no full window is: a short
/// last block of the base may be its end.
pub open spec fn finish(target: Seq<u8>, sig: Signature, start: int) -> Seq<Unit> {
    let tail_start = target.len() - sig.last_block_size;
    let last = sig.hashes@.len() - 1;
    let tail = target.subrange(tail_start, target.len() as int);
    if sig.last_block_size != sig.block_size && tail_start >= start && sig.hashes@[last].weak
        == weak_sum(tail, sig.block_size as int) && sig.hashes@[last].strong@ == blake3_digest(
        tail,
    ) {
        data_unit(target, start, tail_start).push(Unit::Block(last))
    } else {
        data_unit(target, start, target.len() as int)
    }
}

/// The steps from a position of the target on. Bytes from `start` to
/// `position` are in no block and not yet a step; `origin` is where the
/// buffer that the target is read through begins, and the bytes pending when
/// it has to move become a step of their own.
pub open spec fn emission(
    target: Seq<u8>,
    sig: Signature,
    origin: int,
    start: int,
    position: int,
    expected: Option<int>,
) -> Seq<Unit>
    decreases target.len() - position, position - origin,
{
    let size = sig.block_size as int;
    if !(size > 0 && 0 <= origin <= start <= position <= target.len()) {
        Seq::empty()
    } else if origin + MAXIMUM_DATA_OPERATION_SIZE + size <= target.len() && position >= origin
        + MAXIMUM_DATA_OPERATION_SIZE {
        data_unit(target, start, position) + emission(
            target,
            sig,
            position,
            position,
            position,
            expected,
        )
    } else if position + size > target.len() {
        finish(target, sig, start)
    } else {
        match found(sig, target.subrange(position, position + size), expected) {
            Some(i) => data_unit(target, start, position).push(Unit::Block(i)) + emission(
                target,
                sig,
                origin,
                position + size,
                position + size,
                Some(i + 1),
            ),
            None => if position + size == target.len() {
                finish(target, sig, start)
            } else {
                emission(target, sig, origin, start, position + 1, None)
            },
        }
    }
}

/// The steps of the delta from a base with the given signature to a target.
pub open spec fn delta_units(target: Seq<u8>, sig: Signature) -> Seq<Unit> {
    if sig.block_size == 0 {
        data_unit(target, 0, target.len() as int)
    } else {
        emission(target, sig, 0, 0, 0, Some(0))
    }
}

/// Bytes cut into data operations: each as large as it may be, but the last.
pub open spec fn chunks(bytes: Seq<u8>) -> Seq<OpView>
    decreases bytes.len(),
{
    if bytes.len() == 0 {
        Seq::empty()
    } else if bytes.len() <= MAXIMUM_DATA_OPERATION_SIZE {
        seq![OpView::Data(bytes)]
    } else {
        seq![OpView::Data(bytes.take(MAXIMUM_DATA_OPERATION_SIZE as int))] + chunks(
            bytes.skip(MAXIMUM_DATA_OPERATION_SIZE as int),
        )
    }
}

/// Operations with one more block: it extends a run that ends just before it,
/// and starts one otherwise.
pub open spec fn with_block(ops: Seq<OpView>, index: int) -> Seq<OpView> {
    if ops.len() > 0 && ops.last() is Blocks && ops.last()->start + ops.last()->count == index {
        ops.drop_last().push(
            OpView::Blocks { start: ops.last()->start, count: ops.last()->count + 1 },
        )
    } else {
        ops.push(OpView::Blocks { start: index, count: 1 })
    }
}

/// The operations of some steps: data cut to size, runs of blocks merged.
pub open spec fn ops_of(units: Seq<Unit>) -> Seq<OpView>
    decreases units.len(),
{
    if units.len() == 0 {
        Seq::empty()
    } else {
        let front = ops_of(units.drop_last());
        match units.last() {
            Unit::Data(bytes) => front + chunks(bytes),
            Unit::Block(index) => with_block(front, index),
        }
    }
}

// ---------------------------------------------------------------------------
// Looking blocks up
// ---------------------------------------------------------------------------

/// Which of the first `n` blocks have the weak checksum.
spec fn indices_with(hashes: Seq<BlockHash>, n: int, weak: u32) -> Seq<u64>
    decreases n,
{
    if n <= 0 {
        Seq::empty()
    } else if hashes[n - 1].weak == weak {
        indices_with(hashes, n - 1, weak).push((n - 1) as u64)
    } else {
        indices_with(hashes, n - 1, weak)
    }
}

/// The indices are those of blocks with the checksum.
proof fn lemma_indices(hashes: Seq<BlockHash>, n: int, weak: u32)
    requires
        0 <= n <= hashes.len(),
        n <= u64::MAX,
    ensures
        forall|k: int|
            0 <= k < indices_with(hashes, n, weak).len() ==> (#[trigger] indices_with(
                hashes,
                n,
                weak,
            )[k]) < n,
    decreases n,
{
    if n > 0 {
        lemma_indices(hashes, n - 1, weak);
        let front = indices_with(hashes, n - 1, weak);
        let all = indices_with(hashes, n, weak);
        assert forall|k: int| 0 <= k < all.len() implies (#[trigger] all[k]) < n by {
            if k < front.len() {
                assert(all[k] == front[k]);
            }
        }
    }
}

/// Going through the indices in order finds the first match.
proof fn lemma_first_match(hashes: Seq<BlockHash>, n: int, weak: u32, strong: Seq<u8>, j: int)
    requires
        0 <= n <= hashes.len(),
        n <= u64::MAX,
        0 <= j <= indices_with(hashes, n, weak).len(),
        forall|k: int|
            0 <= k < j ==> hashes[(#[trigger] indices_with(hashes, n, weak)[k]) as int].strong@
                != strong,
        j < indices_with(hashes, n, weak).len() ==> hashes[indices_with(
            hashes,
            n,
            weak,
        )[j] as int].strong@ == strong,
    ensures
        first_match(hashes, n, weak as int, strong) == (if j < indices_with(hashes, n, weak).len() {
            Some(indices_with(hashes, n, weak)[j] as int)
        } else {
            None::<int>
        }),
    decreases n,
{
    if n > 0 {
        let all = indices_with(hashes, n, weak);
        let front = indices_with(hashes, n - 1, weak);
        if hashes[n - 1].weak == weak {
            assert(all == front.push((n - 1) as u64));
            assert(forall|k: int| 0 <= k < front.len() ==> all[k] == front[k]);
            if j < front.len() {
                lemma_first_match(hashes, n - 1, weak, strong, j);
            } else {
                lemma_first_match(hashes, n - 1, weak, strong, front.len() as int);
                assert(all[front.len() as int] == (n - 1) as u64);
            }
        } else {
            lemma_first_match(hashes, n - 1, weak, strong, j);
        }
    }
}

/// Whether a map holds, for every weak checksum, the blocks that have it.
spec fn indexes(map: Map<u32, Vec<u64>>, hashes: Seq<BlockHash>, n: int) -> bool {
    forall|w: u32|
        #![trigger map.contains_key(w)]
        (map.contains_key(w) <==> indices_with(hashes, n, w).len() > 0) && (map.contains_key(w)
            ==> map[w]@ == indices_with(hashes, n, w))
}

/// The first `n` blocks by their weak checksums.
fn weak_index(hashes: &Vec<BlockHash>, n: usize) -> (index: HashMap<u32, Vec<u64>>)
    requires
        n <= hashes@.len(),
    ensures
        indexes(index@, hashes@, n as int),
{
    broadcast use vstd::std_specs::hash::group_hash_axioms;

    let mut index: HashMap<u32, Vec<u64>> = HashMap::new();
    let mut i: usize = 0;
    while i < n
        invariant
            i <= n <= hashes@.len(),
            indexes(index@, hashes@, i as int),
        decreases n - i,
    {
        let weak: u32 = hashes[i].weak;
        let ghost before = index@;
        let mut list: Vec<u64> = match index.remove(&weak) {
            Some(list) => list,
            None => Vec::new(),
        };
        proof {
            assert(before.contains_key(weak) || !before.contains_key(weak));
            assert(list@ =~= indices_with(hashes@, i as int, weak));
        }
        list.push(i as u64);
        index.insert(weak, list);
        proof {
            assert forall|w: u32| #![trigger index@.contains_key(w)]
                (index@.contains_key(w) <==> indices_with(hashes@, i + 1, w).len() > 0) && (
                index@.contains_key(w) ==> index@[w]@ == indices_with(hashes@, i + 1, w)) by {
                assert(before.contains_key(w) || !before.contains_key(w));
                if w != weak {
                    assert(indices_with(hashes@, i + 1, w) == indices_with(hashes@, i as int, w));
                }
            }
        }
        i += 1;
    }
    index
}

/// The first full block with the given hashes.
fn look_up(
    index: &HashMap<u32, Vec<u64>>,
    hashes: &Vec<BlockHash>,
    n: usize,
    weak: u32,
    window: &[u8],
) -> (r: Option<usize>)
    requires
        n <= hashes@.len(),
        indexes(index@, hashes@, n as int),
    ensures
        match r {
            Some(i) => first_match(hashes@, n as int, weak as int, blake3_digest(window@)) == Some(
                i as int,
            ) && i < n,
            None => first_match(hashes@, n as int, weak as int, blake3_digest(window@)) is None,
        },
{
    broadcast use vstd::std_specs::hash::group_hash_axioms;

    assert(index@.contains_key(weak) || !index@.contains_key(weak));
    let ghost all = indices_with(hashes@, n as int, weak);
    match index.get(&weak) {
        None => {
            proof {
                lemma_first_match(hashes@, n as int, weak, blake3_digest(window@), 0);
            }
            None
        },
        Some(candidates) => {
            let strong: Digest = digest_bytes(window);
            let mut j: usize = 0;
            while j < candidates.len()
                invariant
                    j <= candidates.len(),
                    n <= hashes@.len(),
                    candidates@ == all,
                    all == indices_with(hashes@, n as int, weak),
                    strong@ == blake3_digest(window@),
                    forall|k: int|
                        0 <= k < j ==> hashes@[(#[trigger] all[k]) as int].strong@ != strong@,
                decreases candidates.len() - j,
            {
                proof {
                    lemma_indices(hashes@, n as int, weak);
                    assert(all[j as int] < n);
                }
                let at: usize = candidates[j] as usize;
                if same_digest(&hashes[at].strong, &strong) {
                    proof {
                        lemma_first_match(hashes@, n as int, weak, strong@, j as int);
                    }
                    return Some(at);
                }
                j += 1;
            }
            proof {
                lemma_first_match(hashes@, n as int, weak, strong@, j as int);
            }
            None
        },
    }
}

// ---------------------------------------------------------------------------
// Emitting operations
// ---------------------------------------------------------------------------

/// Whether every run of blocks lies within the first `n` blocks.
spec fn runs_within(ops: Seq<Op>, n: int) -> bool {
    forall|k: int|
        0 <= k < ops.len() ==> ((#[trigger] ops[k]) matches Op::Blocks { start, count } ==> start
            + count <= n)
}

/// Appends data operations that carry the bytes.
fn emit_data(ops: &mut Vec<Op>, bytes: &[u8], Ghost(n): Ghost<int>)
    requires
        runs_within(old(ops)@, n),
    ensures
        op_views(final(ops)@) == op_views(old(ops)@) + chunks(bytes@),
        runs_within(final(ops)@, n),
{
    let mut offset: usize = 0;
    let ghost initial = op_views(ops@);
    assert(bytes@.skip(0) =~= bytes@);
    while bytes.len() - offset > MAXIMUM_DATA_OPERATION_SIZE
        invariant
            offset <= bytes.len(),
            op_views(ops@) + chunks(bytes@.skip(offset as int)) == initial + chunks(bytes@),
            runs_within(ops@, n),
        decreases bytes.len() - offset,
    {
        let ghost rest = bytes@.skip(offset as int);
        let ghost before = op_views(ops@);
        let chunk = slice_to_vec(
            slice_subrange(bytes, offset, offset + MAXIMUM_DATA_OPERATION_SIZE),
        );
        assert(chunk@ =~= rest.take(MAXIMUM_DATA_OPERATION_SIZE as int));
        assert(rest.skip(MAXIMUM_DATA_OPERATION_SIZE as int) =~= bytes@.skip(
            offset + MAXIMUM_DATA_OPERATION_SIZE,
        ));
        ops.push(Op::Data(chunk));
        offset += MAXIMUM_DATA_OPERATION_SIZE;
        proof {
            let piece = seq![OpView::Data(rest.take(MAXIMUM_DATA_OPERATION_SIZE as int))];
            let after = chunks(bytes@.skip(offset as int));
            assert(op_views(ops@) =~= before + piece);
            assert((before + piece) + after =~= before + (piece + after));
        }
    }
    if offset < bytes.len() {
        let ghost rest = bytes@.skip(offset as int);
        let ghost before = op_views(ops@);
        let chunk = slice_to_vec(slice_subrange(bytes, offset, bytes.len()));
        assert(chunk@ =~= rest);
        ops.push(Op::Data(chunk));
        assert(op_views(ops@) =~= before + seq![OpView::Data(rest)]);
    } else {
        assert(bytes@.skip(offset as int) =~= Seq::<u8>::empty());
        assert(op_views(ops@) =~= op_views(ops@) + Seq::<OpView>::empty());
    }
}

/// Appends a block, to the run it follows where there is one.
fn emit_block(ops: &mut Vec<Op>, index: u64, Ghost(n): Ghost<int>)
    requires
        index < n <= u64::MAX,
        runs_within(old(ops)@, n),
    ensures
        op_views(final(ops)@) == with_block(op_views(old(ops)@), index as int),
        runs_within(final(ops)@, n),
{
    let ghost before = ops@;
    let ghost views = op_views(before);
    if ops.len() > 0 {
        let last: usize = ops.len() - 1;
        let run: Option<(u64, u64)> = match &ops[last] {
            Op::Blocks { start, count } => Some((*start, *count)),
            Op::Data(_) => None,
        };
        assert(before[last as int].view() == views.last());
        if let Some((start, count)) = run {
            assert(start + count <= n);
            if start + count == index {
                let _ = ops.pop();
                ops.push(Op::Blocks { start, count: count + 1 });
                assert(op_views(ops@) =~= with_block(views, index as int));
                return;
            }
        }
    }
    ops.push(Op::Blocks { start: index, count: 1 });
    assert(op_views(ops@) =~= with_block(views, index as int));
}

/// Appends the bytes from `start` to `end` of the target as a step.
fn step_data(
    ops: &mut Vec<Op>,
    target: &[u8],
    start: usize,
    end: usize,
    Ghost(units): Ghost<Seq<Unit>>,
    Ghost(n): Ghost<int>,
)
    requires
        start <= end <= target@.len(),
        op_views(old(ops)@) == ops_of(units),
        runs_within(old(ops)@, n),
    ensures
        op_views(final(ops)@) == ops_of(units + data_unit(target@, start as int, end as int)),
        runs_within(final(ops)@, n),
{
    let bytes = slice_subrange(target, start, end);
    emit_data(ops, bytes, Ghost(n));
    proof {
        if start == end {
            assert(bytes@ =~= Seq::<u8>::empty());
            assert(units + data_unit(target@, start as int, end as int) =~= units);
            assert(ops_of(units) + Seq::<OpView>::empty() =~= ops_of(units));
        } else {
            let grown = units + data_unit(target@, start as int, end as int);
            assert(grown.drop_last() =~= units);
            assert(grown.last() == Unit::Data(target@.subrange(start as int, end as int)));
        }
    }
}

/// Appends the bytes from `start` to `end` of the target, and then a block.
fn step_block(
    ops: &mut Vec<Op>,
    target: &[u8],
    start: usize,
    end: usize,
    index: usize,
    Ghost(units): Ghost<Seq<Unit>>,
    Ghost(n): Ghost<int>,
)
    requires
        start <= end <= target@.len(),
        op_views(old(ops)@) == ops_of(units),
        index < n <= u64::MAX,
        runs_within(old(ops)@, n),
    ensures
        op_views(final(ops)@) == ops_of(
            units + data_unit(target@, start as int, end as int).push(Unit::Block(index as int)),
        ),
        runs_within(final(ops)@, n),
{
    step_data(ops, target, start, end, Ghost(units), Ghost(n));
    emit_block(ops, index as u64, Ghost(n));
    proof {
        let data = data_unit(target@, start as int, end as int);
        let grown = units + data.push(Unit::Block(index as int));
        assert(grown.drop_last() =~= units + data);
    }
}

/// The delta from a base with the given signature to a target, or what is
/// wrong with the signature.
pub fn deltify(target: &[u8], signature: &Signature) -> (r: Result<Vec<Op>, SignatureError>)
    ensures
        match r {
            Ok(ops) => signature_fault(*signature) is None && op_views(ops@) == ops_of(
                delta_units(target@, *signature),
            ),
            Err(fault) => signature_fault(*signature) == Some(fault),
        },
{
    match signature.validate() {
        Err(fault) => {
            return Err(fault);
        },
        Ok(()) => {},
    }
    let ghost n = signature.hashes@.len() as int;
    let mut ops: Vec<Op> = Vec::new();
    assert(op_views(ops@) =~= ops_of(Seq::<Unit>::empty()));
    if signature.is_empty() {
        step_data(&mut ops, target, 0, target.len(), Ghost(Seq::<Unit>::empty()), Ghost(n));
        assert(Seq::<Unit>::empty() + data_unit(target@, 0, target@.len() as int) =~= data_unit(
            target@,
            0,
            target@.len() as int,
        ));
        return Ok(ops);
    }
    let size: usize = signature.block_size as usize;
    let last_size: usize = signature.last_block_size as usize;
    let count: usize = signature.hashes.len();
    let full: usize = if last_size == size {
        count
    } else {
        count - 1
    };
    let index = weak_index(&signature.hashes, full);
    let length: usize = target.len();
    let mut origin: usize = 0;
    let mut start: usize = 0;
    let mut position: usize = 0;
    let mut r1: u32 = 0;
    let mut r2: u32 = 0;
    let mut rolling: bool = false;
    let mut expected: Option<usize> = Some(0);
    let mut ended: bool = false;
    let ghost mut units = Seq::<Unit>::empty();
    let ghost goal = delta_units(target@, *signature);
    let ghost mut hint = Some(0int);
    assert(units + emission(target@, *signature, 0, 0, 0, Some(0)) =~= goal);
    while !ended
        invariant
            signature_fault(*signature) is None,
            size == signature.block_size,
            1024 <= size <= 65536,
            last_size == signature.last_block_size,
            count == signature.hashes@.len(),
            n == count,
            count > 0,
            full == full_blocks(*signature),
            full <= count,
            indexes(index@, signature.hashes@, full as int),
            length == target@.len(),
            origin <= start <= position <= length,
            hint == (match expected {
                Some(i) => Some(i as int),
                None => None::<int>,
            }),
            expected matches Some(i) ==> i <= count,
            rolling ==> expected is None && position + size <= length && r1 == byte_sum(
                target@.subrange(position as int, position + size),
            ) % 65536 && r2 == weighted_sum(
                target@.subrange(position as int, position + size),
                size as int,
            ) % 65536 && r1 < 65536 && r2 < 65536,
            goal == units + (if ended {
                finish(target@, *signature, start as int)
            } else {
                emission(
                    target@,
                    *signature,
                    origin as int,
                    start as int,
                    position as int,
                    hint,
                )
            }),
            op_views(ops@) == ops_of(units),
            runs_within(ops@, n),
        decreases
                if ended {
                    0int
                } else {
                    1int
                },
                length - position,
                position - origin,
    {
        if length - origin >= MAXIMUM_DATA_OPERATION_SIZE + size && position - origin
            >= MAXIMUM_DATA_OPERATION_SIZE {
            step_data(&mut ops, target, start, position, Ghost(units), Ghost(n));
            proof {
                let data = data_unit(target@, start as int, position as int);
                let rest = emission(
                    target@,
                    *signature,
                    position as int,
                    position as int,
                    position as int,
                    hint,
                );
                assert(units + (data + rest) =~= (units + data) + rest);
                units = units + data;
            }
            start = position;
            origin = position;
        } else if length - position < size {
            ended = true;
        } else {
            let window = slice_subrange(target, position, position + size);
            let mut hit: Option<usize> = None;
            if let Some(at) = expected {
                if at < full && same_digest(&digest_bytes(window), &signature.hashes[at].strong) {
                    hit = Some(at);
                }
            }
            if hit.is_none() {
                if !rolling {
                    let sums = weak_components(window, signature.block_size);
                    r1 = sums.0;
                    r2 = sums.1;
                    rolling = true;
                }
                let weak: u32 = r1 + r2 * 65536;
                assert(weak == weak_sum(window@, size as int));
                hit = look_up(&index, &signature.hashes, full, weak, window);
            }
            assert(found(*signature, window@, hint) == (match hit {
                Some(i) => Some(i as int),
                None => None::<int>,
            }));
            if let Some(at) = hit {
                step_block(&mut ops, target, start, position, at, Ghost(units), Ghost(n));
                proof {
                    let step = data_unit(target@, start as int, position as int).push(
                        Unit::Block(at as int),
                    );
                    let rest = emission(
                        target@,
                        *signature,
                        origin as int,
                        position + size,
                        position + size,
                        Some(at + 1),
                    );
                    assert(units + (step + rest) =~= (units + step) + rest);
                    units = units + step;
                    hint = Some(at + 1);
                }
                position += size;
                start = position;
                rolling = false;
                expected = Some(at + 1);
            } else {
                expected = None;
                proof {
                    hint = None;
                }
                if position + size == length {
                    ended = true;
                } else {
                    let sums = roll_weak_components(
                        r1,
                        r2,
                        target[position],
                        target[position + size],
                        signature.block_size,
                    );
                    proof {
                        law_rolled_sums_are_the_next_window_s(
                            window@,
                            target@[position + size],
                            r1 as int,
                            r2 as int,
                        );
                    }
                    r1 = sums.0;
                    r2 = sums.1;
                    assert(window@.skip(1).push(target@[position + size]) =~= target@.subrange(
                        position + 1,
                        position + 1 + size,
                    ));
                    position += 1;
                }
            }
        }
    }
    if last_size != size && length >= last_size && length - last_size >= start {
        let tail_start: usize = length - last_size;
        let tail = slice_subrange(target, tail_start, length);
        let last = &signature.hashes[count - 1];
        if weak_hash(tail, signature.block_size) == last.weak && same_digest(
            &digest_bytes(tail),
            &last.strong,
        ) {
            step_block(&mut ops, target, start, tail_start, count - 1, Ghost(units), Ghost(n));
            return Ok(ops);
        }
    }
    step_data(&mut ops, target, start, length, Ghost(units), Ghost(n));
    Ok(ops)
}

// ---------------------------------------------------------------------------
// Patching
// ---------------------------------------------------------------------------

/// Why an operation cannot be applied.
#[derive(Clone, Copy, Debug, PartialEq, Eq)]
pub enum PatchError {
    /// The signature is not one.
    InvalidSignature {
        /// What is wrong with it.
        fault: SignatureError,
    },
    /// The range of blocks does not fit in a number.
    RangeOverflows {
        /// The first block.
        start: u64,
        /// How many blocks.
        count: u64,
    },
    /// The range of blocks goes past the base's last one.
    RangeExceedsBase {
        /// The first block.
        start: u64,
        /// The block after the last.
        end: u64,
        /// How many blocks the base has.
        block_count: u64,
    },
    /// The base ends before the block does.
    BaseTooShort {
        /// The block.
        index: u64,
    },
}

/// How many bytes block `i` has.
pub open spec fn block_length(sig: Signature, i: int) -> int {
    if i == sig.hashes@.len() - 1 {
        sig.last_block_size as int
    } else {
        sig.block_size as int
    }
}

/// Whether a base holds all of block `i`.
pub open spec fn holds_block(base: Seq<u8>, sig: Signature, i: int) -> bool {
    i * sig.block_size + block_length(sig, i) <= base.len()
}

/// The bytes of `count` blocks of a base, from block `start` on.
pub open spec fn block_run(base: Seq<u8>, sig: Signature, start: int, count: int) -> Seq<u8>
    decreases count,
{
    if count <= 0 {
        Seq::empty()
    } else {
        let i = start + count - 1;
        block_run(base, sig, start, count - 1) + base.subrange(
            i * sig.block_size,
            i * sig.block_size + block_length(sig, i),
        )
    }
}

/// The bytes an operation appends.
pub open spec fn op_bytes(base: Seq<u8>, sig: Signature, op: OpView) -> Seq<u8> {
    match op {
        OpView::Data(bytes) => bytes,
        OpView::Blocks { start, count } => block_run(base, sig, start, count),
    }
}

/// The bytes a sequence of operations appends.
pub open spec fn patched(base: Seq<u8>, sig: Signature, ops: Seq<OpView>) -> Seq<u8>
    decreases ops.len(),
{
    if ops.len() == 0 {
        Seq::empty()
    } else {
        patched(base, sig, ops.drop_last()) + op_bytes(base, sig, ops.last())
    }
}

/// Whether an operation can be applied to a base: the blocks it copies are
/// blocks of the base.
pub open spec fn applicable(base: Seq<u8>, sig: Signature, op: OpView) -> bool {
    match op {
        OpView::Data(_) => true,
        OpView::Blocks { start, count } => {
            &&& 0 <= start <= start + count <= sig.hashes@.len()
            &&& forall|i: int| start <= i < start + count ==> #[trigger] holds_block(base, sig, i)
        },
    }
}

/// Applies one operation: appends to the output the bytes it stands for. A
/// base that ends early is found at the block it ends in, with the blocks
/// before it appended.
pub fn patch(base: &[u8], signature: &Signature, op: &Op, output: &mut Vec<u8>) -> (r: Result<
    (),
    PatchError,
>)
    ensures
        r is Ok <==> signature_fault(*signature) is None && applicable(base@, *signature, op.view()),
        match r {
            Ok(()) => {
                &&& signature_fault(*signature) is None
                &&& op.view() matches OpView::Blocks { start, count } ==> {
                    &&& start + count <= signature.hashes@.len()
                    &&& forall|i: int|
                        start <= i < start + count ==> #[trigger] holds_block(base@, *signature, i)
                }
                &&& final(output)@ == old(output)@ + op_bytes(base@, *signature, op.view())
            },
            Err(PatchError::InvalidSignature { fault }) => signature_fault(*signature) == Some(
                fault,
            ) && final(output)@ == old(output)@,
            Err(PatchError::RangeOverflows { start, count }) => {
                &&& signature_fault(*signature) is None
                &&& *op == Op::Blocks { start, count }
                &&& start + count > u64::MAX
                &&& final(output)@ == old(output)@
            },
            Err(PatchError::RangeExceedsBase { start, end, block_count }) => {
                &&& signature_fault(*signature) is None
                &&& block_count == signature.hashes@.len()
                &&& end > block_count
                &&& op.view() == OpView::Blocks { start: start as int, count: end - start }
                &&& final(output)@ == old(output)@
            },
            Err(PatchError::BaseTooShort { index }) => {
                &&& signature_fault(*signature) is None
                &&& op.view() matches OpView::Blocks { start, count } && {
                    &&& start <= index < start + count <= signature.hashes@.len()
                    &&& !holds_block(base@, *signature, index as int)
                    &&& forall|i: int|
                        start <= i < index ==> #[trigger] holds_block(base@, *signature, i)
                    &&& final(output)@ == old(output)@ + block_run(
                        base@,
                        *signature,
                        start,
                        index - start,
                    )
                }
            },
        },
{
    match signature.validate() {
        Err(fault) => {
            return Err(PatchError::InvalidSignature { fault });
        },
        Ok(()) => {},
    }
    let (start, count): (u64, u64) = match op {
        Op::Data(data) => {
            let ghost before = output@;
            output.extend_from_slice(data.as_slice());
            assert(output@ =~= before + data@);
            return Ok(());
        },
        Op::Blocks { start, count } => (*start, *count),
    };
    let block_count: u64 = signature.hashes.len() as u64;
    let end: u64 = match start.checked_add(count) {
        Some(end) => end,
        None => {
            return Err(PatchError::RangeOverflows { start, count });
        },
    };
    if end > block_count {
        return Err(PatchError::RangeExceedsBase { start, end, block_count });
    }
    let size: u128 = signature.block_size as u128;
    let length: usize = base.len();
    let ghost before = output@;
    assert(before + block_run(base@, *signature, start as int, 0) =~= before);
    let mut index: u64 = start;
    while index < end
        invariant
            start <= index <= end,
            end == start + count,
            end <= block_count,
            block_count == signature.hashes@.len(),
            signature_fault(*signature) is None,
            size == signature.block_size,
            length == base@.len(),
            op.view() == (OpView::Blocks { start: start as int, count: count as int }),
            before == old(output)@,
            output@ == before + block_run(base@, *signature, start as int, index - start),
            forall|i: int| start <= i < index ==> #[trigger] holds_block(base@, *signature, i),
        decreases end - index,
    {
        let block: u128 = if index == block_count - 1 {
            signature.last_block_size as u128
        } else {
            size
        };
        assert(index * size <= 18446744073709551615 * 4294967295) by (nonlinear_arith)
            requires
                index <= 18446744073709551615,
                size <= 4294967295,
        ;
        let offset: u128 = index as u128 * size;
        assert(offset == index * signature.block_size);
        if offset + block > length as u128 {
            assert(!holds_block(base@, *signature, index as int));
            return Err(PatchError::BaseTooShort { index });
        }
        assert(holds_block(base@, *signature, index as int));
        let bytes = slice_subrange(base, offset as usize, (offset + block) as usize);
        let ghost so_far = output@;
        output.extend_from_slice(bytes);
        proof {
            assert(output@ =~= so_far + bytes@);
            assert((before + block_run(base@, *signature, start as int, index - start)) + bytes@
                =~= before + (block_run(base@, *signature, start as int, index - start) + bytes@));
            assert(start + (index + 1 - start) - 1 == index);
        }
        index += 1;
    }
    Ok(())
}

} // verus!
