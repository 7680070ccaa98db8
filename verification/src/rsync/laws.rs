//! What holds of signatures, deltas and patches together.
use crate::digest::blake3_digest;
use crate::rsync::delta::{
    applicable, block_length, block_run, chunks, data_unit, delta_units, emission, finish, first_match, found,
    full_blocks, holds_block, op_bytes, ops_of, patched, Unit,
};
use crate::rsync::{
    block_at, hashes_block, is_layout, is_signature, signature_fault, weak_sum, BlockHash, OpView,
    Signature, MAXIMUM_DATA_OPERATION_SIZE,
};
use vstd::prelude::*;

verus! {

// ---------------------------------------------------------------------------
// Patching a delta rebuilds the target
// ---------------------------------------------------------------------------

/// Whether a run of the target, as long as block `i` of the base and at
/// position `p`, has the digest of that block without being it.
pub open spec fn collides(
    base: Seq<u8>,
    sig: Signature,
    target: Seq<u8>,
    p: int,
    i: int,
) -> bool {
    let length = block_length(sig, i);
    let window = target.subrange(p, p + length);
    let block = block_at(base, sig.block_size as int, i);
    &&& 0 <= i < sig.hashes@.len()
    &&& 0 <= p
    &&& p + length <= target.len()
    &&& blake3_digest(window) == blake3_digest(block)
    &&& window != block
}

/// Whether digests tell the runs of the target from the blocks of the base.
pub open spec fn digests_tell_apart(base: Seq<u8>, sig: Signature, target: Seq<u8>) -> bool {
    forall|p: int, i: int| !#[trigger] collides(base, sig, target, p, i)
}

/// The bytes a step stands for.
spec fn unit_bytes(base: Seq<u8>, sig: Signature, unit: Unit) -> Seq<u8> {
    match unit {
        Unit::Data(bytes) => bytes,
        Unit::Block(i) => base.subrange(
            i * sig.block_size,
            i * sig.block_size + block_length(sig, i),
        ),
    }
}

/// The bytes some steps stand for.
spec fn rebuilt(base: Seq<u8>, sig: Signature, units: Seq<Unit>) -> Seq<u8>
    decreases units.len(),
{
    if units.len() == 0 {
        Seq::empty()
    } else {
        rebuilt(base, sig, units.drop_last()) + unit_bytes(base, sig, units.last())
    }
}

proof fn lemma_rebuilt_append(base: Seq<u8>, sig: Signature, a: Seq<Unit>, b: Seq<Unit>)
    ensures
        rebuilt(base, sig, a + b) == rebuilt(base, sig, a) + rebuilt(base, sig, b),
    decreases b.len(),
{
    if b.len() == 0 {
        assert(a + b =~= a);
        assert(rebuilt(base, sig, a) + Seq::<u8>::empty() =~= rebuilt(base, sig, a));
    } else {
        assert((a + b).drop_last() =~= a + b.drop_last());
        lemma_rebuilt_append(base, sig, a, b.drop_last());
        let x = rebuilt(base, sig, a);
        let y = rebuilt(base, sig, b.drop_last());
        let z = unit_bytes(base, sig, b.last());
        assert((x + y) + z =~= x + (y + z));
    }
}

proof fn lemma_rebuilt_push(base: Seq<u8>, sig: Signature, a: Seq<Unit>, unit: Unit)
    ensures
        rebuilt(base, sig, a.push(unit)) == rebuilt(base, sig, a) + unit_bytes(base, sig, unit),
{
    assert(a.push(unit).drop_last() =~= a);
}

proof fn lemma_rebuilt_data(base: Seq<u8>, sig: Signature, target: Seq<u8>, start: int, end: int)
    requires
        0 <= start <= end <= target.len(),
    ensures
        rebuilt(base, sig, data_unit(target, start, end)) == target.subrange(start, end),
{
    if start == end {
        assert(target.subrange(start, end) =~= Seq::<u8>::empty());
    } else {
        let unit = Unit::Data(target.subrange(start, end));
        lemma_rebuilt_push(base, sig, Seq::empty(), unit);
        assert(Seq::<Unit>::empty().push(unit) =~= seq![unit]);
        assert(Seq::<u8>::empty() + target.subrange(start, end) =~= target.subrange(start, end));
    }
}

/// Block `i` of the base, as its length and its place in the base give it.
proof fn lemma_block_at(base: Seq<u8>, sig: Signature, block_size: u32, i: int)
    requires
        is_signature(sig, base, block_size),
        base.len() > 0,
        0 <= i < sig.hashes@.len(),
    ensures
        0 <= i * sig.block_size,
        i * sig.block_size + block_length(sig, i) <= base.len(),
        block_at(base, sig.block_size as int, i) == base.subrange(
            i * sig.block_size,
            i * sig.block_size + block_length(sig, i),
        ),
        block_at(base, sig.block_size as int, i).len() == block_length(sig, i),
{
    let size = sig.block_size as int;
    let n = sig.hashes@.len() as int;
    assert((i + 1) * size == i * size + size) by (nonlinear_arith);
    assert(0 <= i * size) by (nonlinear_arith)
        requires
            i >= 0,
            size >= 0,
    ;
    if i < n - 1 {
        assert((i + 1) * size <= (n - 1) * size) by (nonlinear_arith)
            requires
                i + 1 <= n - 1,
                size >= 0,
        ;
    }
}

proof fn lemma_first_match_sound(hashes: Seq<BlockHash>, n: int, weak: int, strong: Seq<u8>)
    ensures
        first_match(hashes, n, weak, strong) matches Some(i) ==> 0 <= i < n && hashes[i].strong@
            == strong && hashes[i].weak == weak,
    decreases n,
{
    if n > 0 {
        lemma_first_match_sound(hashes, n - 1, weak, strong);
    }
}

/// A full window that is found to be a block is that block.
proof fn lemma_found(
    base: Seq<u8>,
    sig: Signature,
    block_size: u32,
    target: Seq<u8>,
    position: int,
    expected: Option<int>,
)
    requires
        is_signature(sig, base, block_size),
        signature_fault(sig) is None,
        sig.block_size > 0,
        digests_tell_apart(base, sig, target),
        0 <= position,
        position + sig.block_size <= target.len(),
        expected matches Some(i) ==> i >= 0,
    ensures
        found(sig, target.subrange(position, position + sig.block_size), expected) matches Some(i)
            ==> 0 <= i < sig.hashes@.len() && unit_bytes(base, sig, Unit::Block(i))
            == target.subrange(position, position + sig.block_size),
{
    let window = target.subrange(position, position + sig.block_size);
    lemma_first_match_sound(
        sig.hashes@,
        full_blocks(sig),
        weak_sum(window, sig.block_size as int),
        blake3_digest(window),
    );
    if let Some(i) = found(sig, window, expected) {
        assert(0 <= i < full_blocks(sig));
        assert(sig.hashes@[i].strong@ == blake3_digest(window));
        lemma_block_at(base, sig, block_size, i);
        assert(hashes_block(
            sig.hashes@[i],
            block_at(base, sig.block_size as int, i),
            sig.block_size as int,
        ));
        assert(block_length(sig, i) == sig.block_size);
        assert(!collides(base, sig, target, position, i));
    }
}

proof fn lemma_finish(
    base: Seq<u8>,
    sig: Signature,
    block_size: u32,
    target: Seq<u8>,
    start: int,
)
    requires
        is_signature(sig, base, block_size),
        signature_fault(sig) is None,
        sig.block_size > 0,
        digests_tell_apart(base, sig, target),
        0 <= start <= target.len(),
    ensures
        rebuilt(base, sig, finish(target, sig, start)) == target.subrange(
            start,
            target.len() as int,
        ),
{
    let length = target.len() as int;
    let tail_start = length - sig.last_block_size;
    let last = sig.hashes@.len() - 1;
    let tail = target.subrange(tail_start, length);
    if sig.last_block_size != sig.block_size && tail_start >= start && sig.hashes@[last].weak
        == weak_sum(tail, sig.block_size as int) && sig.hashes@[last].strong@ == blake3_digest(
        tail,
    ) {
        lemma_block_at(base, sig, block_size, last);
        assert(hashes_block(
            sig.hashes@[last],
            block_at(base, sig.block_size as int, last),
            sig.block_size as int,
        ));
        assert(!collides(base, sig, target, tail_start, last));
        lemma_rebuilt_data(base, sig, target, start, tail_start);
        lemma_rebuilt_push(base, sig, data_unit(target, start, tail_start), Unit::Block(last));
        assert(target.subrange(start, tail_start) + tail =~= target.subrange(start, length));
    } else {
        lemma_rebuilt_data(base, sig, target, start, length);
    }
}

proof fn lemma_emission(
    base: Seq<u8>,
    sig: Signature,
    block_size: u32,
    target: Seq<u8>,
    origin: int,
    start: int,
    position: int,
    expected: Option<int>,
)
    requires
        is_signature(sig, base, block_size),
        signature_fault(sig) is None,
        sig.block_size > 0,
        digests_tell_apart(base, sig, target),
        0 <= origin <= start <= position <= target.len(),
        expected matches Some(i) ==> i >= 0,
    ensures
        rebuilt(base, sig, emission(target, sig, origin, start, position, expected))
            == target.subrange(start, target.len() as int),
    decreases target.len() - position, position - origin,
{
    let size = sig.block_size as int;
    let length = target.len() as int;
    if origin + MAXIMUM_DATA_OPERATION_SIZE + size <= length && position >= origin
        + MAXIMUM_DATA_OPERATION_SIZE {
        lemma_emission(base, sig, block_size, target, position, position, position, expected);
        lemma_rebuilt_data(base, sig, target, start, position);
        lemma_rebuilt_append(
            base,
            sig,
            data_unit(target, start, position),
            emission(target, sig, position, position, position, expected),
        );
        assert(target.subrange(start, position) + target.subrange(position, length)
            =~= target.subrange(start, length));
    } else if position + size > length {
        lemma_finish(base, sig, block_size, target, start);
    } else {
        let window = target.subrange(position, position + size);
        lemma_found(base, sig, block_size, target, position, expected);
        match found(sig, window, expected) {
            Some(i) => {
                let next = position + size;
                lemma_emission(base, sig, block_size, target, origin, next, next, Some(i + 1));
                lemma_rebuilt_data(base, sig, target, start, position);
                let data = data_unit(target, start, position);
                lemma_rebuilt_push(base, sig, data, Unit::Block(i));
                lemma_rebuilt_append(
                    base,
                    sig,
                    data.push(Unit::Block(i)),
                    emission(target, sig, origin, next, next, Some(i + 1)),
                );
                assert(target.subrange(start, position) + window + target.subrange(next, length)
                    =~= target.subrange(start, length));
            },
            None => {
                if position + size == length {
                    lemma_finish(base, sig, block_size, target, start);
                } else {
                    lemma_emission(
                        base,
                        sig,
                        block_size,
                        target,
                        origin,
                        start,
                        position + 1,
                        None,
                    );
                }
            },
        }
    }
}

proof fn lemma_patched_append(base: Seq<u8>, sig: Signature, a: Seq<OpView>, b: Seq<OpView>)
    ensures
        patched(base, sig, a + b) == patched(base, sig, a) + patched(base, sig, b),
    decreases b.len(),
{
    if b.len() == 0 {
        assert(a + b =~= a);
        assert(patched(base, sig, a) + Seq::<u8>::empty() =~= patched(base, sig, a));
    } else {
        assert((a + b).drop_last() =~= a + b.drop_last());
        lemma_patched_append(base, sig, a, b.drop_last());
        let x = patched(base, sig, a);
        let y = patched(base, sig, b.drop_last());
        let z = op_bytes(base, sig, b.last());
        assert((x + y) + z =~= x + (y + z));
    }
}

proof fn lemma_patched_one(base: Seq<u8>, sig: Signature, op: OpView)
    ensures
        patched(base, sig, seq![op]) == op_bytes(base, sig, op),
{
    reveal_with_fuel(patched, 2);
    assert(seq![op].drop_last() =~= Seq::<OpView>::empty());
    assert(Seq::<u8>::empty() + op_bytes(base, sig, op) =~= op_bytes(base, sig, op));
}

proof fn lemma_patched_chunks(base: Seq<u8>, sig: Signature, bytes: Seq<u8>)
    ensures
        patched(base, sig, chunks(bytes)) == bytes,
    decreases bytes.len(),
{
    let limit = MAXIMUM_DATA_OPERATION_SIZE as int;
    if bytes.len() == 0 {
        assert(bytes =~= Seq::<u8>::empty());
    } else if bytes.len() <= limit {
        lemma_patched_one(base, sig, OpView::Data(bytes));
    } else {
        lemma_patched_chunks(base, sig, bytes.skip(limit));
        let first = OpView::Data(bytes.take(limit));
        lemma_patched_one(base, sig, first);
        lemma_patched_append(base, sig, seq![first], chunks(bytes.skip(limit)));
        assert(bytes.take(limit) + bytes.skip(limit) =~= bytes);
    }
}

proof fn lemma_patched_ops(base: Seq<u8>, sig: Signature, units: Seq<Unit>)
    ensures
        patched(base, sig, ops_of(units)) == rebuilt(base, sig, units),
    decreases units.len(),
{
    if units.len() > 0 {
        lemma_patched_ops(base, sig, units.drop_last());
        let front = ops_of(units.drop_last());
        match units.last() {
            Unit::Data(bytes) => {
                lemma_patched_chunks(base, sig, bytes);
                lemma_patched_append(base, sig, front, chunks(bytes));
            },
            Unit::Block(i) => {
                let block = unit_bytes(base, sig, Unit::Block(i));
                if front.len() > 0 && front.last() is Blocks && front.last()->start
                    + front.last()->count == i && front.last()->count >= 0 {
                    let start = front.last()->start;
                    let count = front.last()->count;
                    let grown = front.drop_last().push(
                        OpView::Blocks { start, count: count + 1 },
                    );
                    assert(grown.drop_last() =~= front.drop_last());
                    let x = patched(base, sig, front.drop_last());
                    let y = block_run(base, sig, start, count);
                    assert(start + (count + 1) - 1 == i);
                    assert(x + (y + block) =~= (x + y) + block);
                } else {
                    lemma_run_counts(units.drop_last());
                    let op = OpView::Blocks { start: i, count: 1 };
                    assert(front.push(op).drop_last() =~= front);
                    assert(block_run(base, sig, i, 0) + block =~= block);
                    assert(op_bytes(base, sig, op) == block);
                }
            },
        }
    }
}

/// Every run of blocks holds at least one, and every data operation at least
/// one byte and no more than fit.
proof fn lemma_run_counts(units: Seq<Unit>)
    ensures
        forall|k: int| 0 <= k < ops_of(units).len() ==> well_sized(#[trigger] ops_of(units)[k]),
    decreases units.len(),
{
    if units.len() > 0 {
        lemma_run_counts(units.drop_last());
        let front = ops_of(units.drop_last());
        let all = ops_of(units);
        match units.last() {
            Unit::Data(bytes) => {
                lemma_chunk_sizes(bytes);
                let tail = chunks(bytes);
                assert forall|k: int| 0 <= k < all.len() implies well_sized(#[trigger] all[k]) by {
                    if k < front.len() {
                        assert(all[k] == front[k]);
                    } else {
                        assert(all[k] == tail[k - front.len()]);
                    }
                }
            },
            Unit::Block(i) => {
                assert forall|k: int| 0 <= k < all.len() implies well_sized(#[trigger] all[k]) by {
                    if k < front.len() {
                        assert(well_sized(front[k]));
                    }
                }
            },
        }
    }
}

/// Whether an operation is of a size that is emitted: data that is neither
/// empty nor too large, or a run of at least one block.
pub open spec fn well_sized(op: OpView) -> bool {
    match op {
        OpView::Data(bytes) => 0 < bytes.len() <= MAXIMUM_DATA_OPERATION_SIZE,
        OpView::Blocks { start, count } => count >= 1,
    }
}

proof fn lemma_chunk_sizes(bytes: Seq<u8>)
    ensures
        forall|k: int|
            0 <= k < chunks(bytes).len() ==> well_sized(#[trigger] chunks(bytes)[k])
                && chunks(bytes)[k] is Data,
    decreases bytes.len(),
{
    let limit = MAXIMUM_DATA_OPERATION_SIZE as int;
    if bytes.len() > limit {
        lemma_chunk_sizes(bytes.skip(limit));
        let tail = chunks(bytes.skip(limit));
        let all = chunks(bytes);
        assert forall|k: int| 0 <= k < all.len() implies well_sized(#[trigger] all[k])
            && all[k] is Data by {
            if k > 0 {
                assert(all[k] == tail[k - 1]);
            }
        }
    }
}

/// Whether a step is data, or a block of a base with `n` blocks.
spec fn unit_within(unit: Unit, n: int) -> bool {
    unit matches Unit::Block(i) ==> 0 <= i < n
}

spec fn units_within(units: Seq<Unit>, n: int) -> bool {
    forall|k: int| 0 <= k < units.len() ==> unit_within(#[trigger] units[k], n)
}

proof fn lemma_units_append(a: Seq<Unit>, b: Seq<Unit>, n: int)
    requires
        units_within(a, n),
        units_within(b, n),
    ensures
        units_within(a + b, n),
{
    assert forall|k: int| 0 <= k < (a + b).len() implies unit_within(#[trigger] (a + b)[k], n) by {
        if k < a.len() {
            assert((a + b)[k] == a[k]);
        } else {
            assert((a + b)[k] == b[k - a.len()]);
        }
    }
}

proof fn lemma_units_within(
    target: Seq<u8>,
    sig: Signature,
    origin: int,
    start: int,
    position: int,
    expected: Option<int>,
)
    requires
        signature_fault(sig) is None,
        sig.block_size > 0,
        expected matches Some(i) ==> 0 <= i,
    ensures
        units_within(
            emission(target, sig, origin, start, position, expected),
            sig.hashes@.len() as int,
        ),
    decreases target.len() - position, position - origin,
{
    let size = sig.block_size as int;
    let n = sig.hashes@.len() as int;
    if !(size > 0 && 0 <= origin <= start <= position <= target.len()) {
    } else if origin + MAXIMUM_DATA_OPERATION_SIZE + size <= target.len() && position >= origin
        + MAXIMUM_DATA_OPERATION_SIZE {
        lemma_units_within(target, sig, position, position, position, expected);
        lemma_units_append(
            data_unit(target, start, position),
            emission(target, sig, position, position, position, expected),
            n,
        );
    } else if position + size > target.len() {
    } else {
        let window = target.subrange(position, position + size);
        lemma_first_match_sound(
            sig.hashes@,
            full_blocks(sig),
            weak_sum(window, size),
            blake3_digest(window),
        );
        match found(sig, window, expected) {
            Some(i) => {
                lemma_units_within(
                    target,
                    sig,
                    origin,
                    position + size,
                    position + size,
                    Some(i + 1),
                );
                lemma_units_append(
                    data_unit(target, start, position).push(Unit::Block(i)),
                    emission(target, sig, origin, position + size, position + size, Some(i + 1)),
                    n,
                );
            },
            None => {
                if position + size != target.len() {
                    lemma_units_within(target, sig, origin, start, position + 1, None);
                }
            },
        }
    }
}

/// Whether an operation is data, or a run of a base with `n` blocks.
spec fn op_within(op: OpView, n: int) -> bool {
    op matches OpView::Blocks { start, count } ==> 0 <= start <= start + count <= n
}

proof fn lemma_ops_within(units: Seq<Unit>, n: int)
    requires
        units_within(units, n),
    ensures
        forall|k: int| 0 <= k < ops_of(units).len() ==> op_within(#[trigger] ops_of(units)[k], n),
    decreases units.len(),
{
    if units.len() > 0 {
        let front = units.drop_last();
        assert forall|k: int| 0 <= k < front.len() implies unit_within(#[trigger] front[k], n) by {
            assert(front[k] == units[k]);
        }
        lemma_ops_within(front, n);
        let (some, all) = (ops_of(front), ops_of(units));
        assert(unit_within(units[units.len() - 1], n));
        match units.last() {
            Unit::Data(bytes) => {
                lemma_chunk_sizes(bytes);
                assert forall|k: int| 0 <= k < all.len() implies op_within(#[trigger] all[k], n) by {
                    if k < some.len() {
                        assert(all[k] == some[k]);
                    } else {
                        assert(all[k] == chunks(bytes)[k - some.len()]);
                    }
                }
            },
            Unit::Block(i) => {
                if some.len() > 0 {
                    assert(op_within(some[some.len() - 1], n));
                }
                assert forall|k: int| 0 <= k < all.len() implies op_within(#[trigger] all[k], n) by {
                    if k < some.len() - 1 {
                        assert(all[k] == some[k]);
                    } else if k == some.len() - 1 {
                        assert(op_within(some[k], n));
                    }
                }
            },
        }
    }
}

/// Patching a base with its delta to a target rebuilds the target, where the
/// digests tell the target's runs from the base's blocks: every operation of
/// the delta can be applied to the base, and what they append is the target.
pub proof fn law_patching_a_delta_rebuilds_the_target(
    base: Seq<u8>,
    sig: Signature,
    block_size: u32,
    target: Seq<u8>,
)
    requires
        is_signature(sig, base, block_size),
        signature_fault(sig) is None,
        digests_tell_apart(base, sig, target),
    ensures
        patched(base, sig, ops_of(delta_units(target, sig))) == target,
        forall|k: int|
            0 <= k < ops_of(delta_units(target, sig)).len() ==> applicable(
                base,
                sig,
                #[trigger] ops_of(delta_units(target, sig))[k],
            ),
{
    let units = delta_units(target, sig);
    let n = sig.hashes@.len() as int;
    lemma_patched_ops(base, sig, units);
    if sig.block_size == 0 {
        lemma_rebuilt_data(base, sig, target, 0, target.len() as int);
    } else {
        lemma_emission(base, sig, block_size, target, 0, 0, 0, Some(0));
        lemma_units_within(target, sig, 0, 0, 0, Some(0));
    }
    assert(target.subrange(0, target.len() as int) =~= target);
    lemma_ops_within(units, n);
    let ops = ops_of(units);
    assert forall|k: int| 0 <= k < ops.len() implies applicable(base, sig, #[trigger] ops[k]) by {
        assert(op_within(ops[k], n));
        if let OpView::Blocks { start, count } = ops[k] {
            assert forall|i: int| start <= i < start + count implies #[trigger] holds_block(
                base,
                sig,
                i,
            ) by {
                lemma_block_at(base, sig, block_size, i);
            }
        }
    }
}

/// Every operation of a delta is of a size that may be emitted and copies only
/// blocks that the signature has, and no two runs of blocks that follow one
/// another could have been one.
pub proof fn law_operations_are_sized_and_merged(target: Seq<u8>, sig: Signature)
    requires
        signature_fault(sig) is None,
    ensures
        forall|k: int|
            0 <= k < ops_of(delta_units(target, sig)).len() ==> (
            #[trigger] ops_of(delta_units(target, sig))[k] matches OpView::Blocks { start, count }
                ==> 0 <= start && start + count <= sig.hashes@.len()),
        forall|k: int|
            0 <= k < ops_of(delta_units(target, sig)).len() ==> well_sized(
                #[trigger] ops_of(delta_units(target, sig))[k],
            ),
        forall|k: int|
            0 < k < ops_of(delta_units(target, sig)).len() ==> !follows(
                ops_of(delta_units(target, sig))[k - 1],
                #[trigger] ops_of(delta_units(target, sig))[k],
            ),
{
    let units = delta_units(target, sig);
    lemma_run_counts(units);
    lemma_merged(units);
    if sig.block_size > 0 {
        lemma_units_within(target, sig, 0, 0, 0, Some(0));
    }
    lemma_ops_within(units, sig.hashes@.len() as int);
    assert forall|k: int| 0 <= k < ops_of(units).len() implies (
    #[trigger] ops_of(units)[k] matches OpView::Blocks { start, count } ==> 0 <= start && start
        + count <= sig.hashes@.len()) by {
        assert(op_within(ops_of(units)[k], sig.hashes@.len() as int));
    }
}

/// Whether `b` is a run of blocks that goes on where the run `a` ends.
pub open spec fn follows(a: OpView, b: OpView) -> bool {
    a is Blocks && b is Blocks && a->start + a->count == b->start
}

proof fn lemma_merged(units: Seq<Unit>)
    ensures
        forall|k: int|
            0 < k < ops_of(units).len() ==> !follows(
                ops_of(units)[k - 1],
                #[trigger] ops_of(units)[k],
            ),
    decreases units.len(),
{
    if units.len() > 0 {
        lemma_merged(units.drop_last());
        let front = ops_of(units.drop_last());
        let all = ops_of(units);
        match units.last() {
            Unit::Data(bytes) => {
                lemma_chunk_sizes(bytes);
                let tail = chunks(bytes);
                assert forall|k: int| 0 < k < all.len() implies !follows(
                    all[k - 1],
                    #[trigger] all[k],
                ) by {
                    if k < front.len() {
                        assert(all[k] == front[k] && all[k - 1] == front[k - 1]);
                    } else {
                        assert(all[k] == tail[k - front.len()]);
                    }
                }
            },
            Unit::Block(i) => {
                assert forall|k: int| 0 < k < all.len() implies !follows(
                    all[k - 1],
                    #[trigger] all[k],
                ) by {
                    if k < front.len() {
                        assert(!follows(front[k - 1], front[k]));
                    }
                }
            },
        }
    }
}

// ---------------------------------------------------------------------------
// The delta of a base to itself
// ---------------------------------------------------------------------------

/// Blocks `from` to `to`, each a step.
spec fn block_units(from: int, to: int) -> Seq<Unit> {
    Seq::new((to - from) as nat, |j: int| Unit::Block(from + j))
}

proof fn lemma_self_emission(
    base: Seq<u8>,
    sig: Signature,
    block_size: u32,
    origin: int,
    k: int,
)
    requires
        is_signature(sig, base, block_size),
        signature_fault(sig) is None,
        sig.block_size > 0,
        0 <= k <= full_blocks(sig),
        0 <= origin <= k * sig.block_size,
        k * sig.block_size <= base.len(),
    ensures
        emission(
            base,
            sig,
            origin,
            k * sig.block_size,
            k * sig.block_size,
            Some(k),
        ) == block_units(k, sig.hashes@.len() as int),
    decreases base.len() - k * sig.block_size, k * sig.block_size - origin,
{
    let size = sig.block_size as int;
    let n = sig.hashes@.len() as int;
    let position = k * size;
    let length = base.len() as int;
    let all = emission(base, sig, origin, position, position, Some(k));
    assert((k + 1) * size == k * size + size) by (nonlinear_arith);
    assert(n * size == (n - 1) * size + size) by (nonlinear_arith);
    if origin + MAXIMUM_DATA_OPERATION_SIZE + size <= length && position >= origin
        + MAXIMUM_DATA_OPERATION_SIZE {
        lemma_self_emission(base, sig, block_size, position, k);
        assert(all =~= block_units(k, n));
    } else if k < full_blocks(sig) {
        lemma_block_at(base, sig, block_size, k);
        assert(block_length(sig, k) == size);
        let window = base.subrange(position, position + size);
        assert(hashes_block(sig.hashes@[k], block_at(base, size, k), size));
        assert(found(sig, window, Some(k)) == Some(k));
        lemma_self_emission(base, sig, block_size, origin, k + 1);
        assert(all =~= block_units(k, n));
    } else {
        assert(position + size > length) by {
            if sig.last_block_size == sig.block_size {
                assert(k == n);
            } else {
                assert(k == n - 1);
            }
        }
        if sig.last_block_size == sig.block_size {
            assert(all =~= block_units(k, n));
        } else {
            lemma_block_at(base, sig, block_size, n - 1);
            assert(hashes_block(sig.hashes@[n - 1], block_at(base, size, n - 1), size));
            assert(base.subrange(length - sig.last_block_size, length) =~= block_at(
                base,
                size,
                n - 1,
            ));
            assert(all =~= block_units(k, n));
        }
    }
}

proof fn lemma_run_of_blocks(n: int)
    requires
        n > 0,
    ensures
        ops_of(block_units(0, n)) == seq![OpView::Blocks { start: 0, count: n }],
    decreases n,
{
    let units = block_units(0, n);
    assert(units.drop_last() =~= block_units(0, n - 1));
    if n == 1 {
        reveal_with_fuel(ops_of, 2);
        assert(units.drop_last() =~= Seq::<Unit>::empty());
        assert(ops_of(units) =~= seq![OpView::Blocks { start: 0, count: 1 }]);
    } else {
        lemma_run_of_blocks(n - 1);
        assert(ops_of(units) =~= seq![OpView::Blocks { start: 0, count: n }]);
    }
}

/// The delta of a base to itself is one run of all its blocks.
pub proof fn law_an_unchanged_base_is_one_run(base: Seq<u8>, sig: Signature, block_size: u32)
    requires
        is_signature(sig, base, block_size),
        signature_fault(sig) is None,
        base.len() > 0,
    ensures
        ops_of(delta_units(base, sig)) == seq![
            OpView::Blocks { start: 0, count: sig.hashes@.len() as int },
        ],
{
    assert(0 * sig.block_size == 0) by (nonlinear_arith);
    assert(0 <= full_blocks(sig));
    lemma_self_emission(base, sig, block_size, 0, 0);
    lemma_run_of_blocks(sig.hashes@.len() as int);
}

// ---------------------------------------------------------------------------
// A layout stands in for the signature
// ---------------------------------------------------------------------------

proof fn lemma_same_run(base: Seq<u8>, one: Signature, other: Signature, start: int, count: int)
    requires
        one.block_size == other.block_size,
        one.last_block_size == other.last_block_size,
        one.hashes@.len() == other.hashes@.len(),
    ensures
        block_run(base, one, start, count) == block_run(base, other, start, count),
    decreases count,
{
    if count > 0 {
        lemma_same_run(base, one, other, start, count - 1);
    }
}

proof fn lemma_same_patch(base: Seq<u8>, one: Signature, other: Signature, ops: Seq<OpView>)
    requires
        one.block_size == other.block_size,
        one.last_block_size == other.last_block_size,
        one.hashes@.len() == other.hashes@.len(),
    ensures
        patched(base, one, ops) == patched(base, other, ops),
    decreases ops.len(),
{
    if ops.len() > 0 {
        lemma_same_patch(base, one, other, ops.drop_last());
        if let OpView::Blocks { start, count } = ops.last() {
            lemma_same_run(base, one, other, start, count);
        }
    }
}

/// The layout of a base is enough to apply a delta: it has the block size, the
/// last block and as many hashes as the signature, which together are as long
/// as the base; patching with it is patching with the signature, and it has
/// the same faults.
pub proof fn law_a_layout_stands_in_for_the_signature(
    base: Seq<u8>,
    sig: Signature,
    layout: Signature,
    block_size: u32,
    ops: Seq<OpView>,
)
    requires
        is_signature(sig, base, block_size),
        is_layout(layout, base.len() as int, block_size),
    ensures
        layout.block_size == sig.block_size,
        layout.last_block_size == sig.last_block_size,
        layout.hashes@.len() == sig.hashes@.len(),
        base.len() > 0 ==> {
            &&& (layout.hashes@.len() - 1) * layout.block_size + layout.last_block_size
                == base.len()
            &&& 1 <= layout.last_block_size <= layout.block_size
        },
        base.len() == 0 ==> layout.block_size == 0 && layout.last_block_size == 0
            && layout.hashes@.len() == 0,
        signature_fault(layout) == signature_fault(sig),
        patched(base, layout, ops) == patched(base, sig, ops),
{
    if base.len() > 0 {
        let size = sig.block_size as int;
        let n = sig.hashes@.len() as int;
        let m = layout.hashes@.len() as int;
        let last = sig.last_block_size as int;
        let other = layout.last_block_size as int;
        assert(n == m) by (nonlinear_arith)
            requires
                (n - 1) * size + last == (m - 1) * size + other,
                0 < last <= size,
                0 < other <= size,
        ;
    }
    lemma_same_patch(base, layout, sig, ops);
}

/// A block is matched by both of its hashes, and the first one that has them is
/// taken; where none is, no block has both.
pub proof fn law_the_first_block_alike_is_matched(
    hashes: Seq<BlockHash>,
    n: int,
    weak: int,
    strong: Seq<u8>,
)
    requires
        0 <= n <= hashes.len(),
    ensures
        match first_match(hashes, n, weak, strong) {
            Some(i) => {
                &&& 0 <= i < n
                &&& hashes[i].weak == weak
                &&& hashes[i].strong@ == strong
                &&& forall|j: int|
                    0 <= j < i ==> (#[trigger] hashes[j]).weak != weak || hashes[j].strong@
                        != strong
            },
            None => forall|j: int|
                0 <= j < n ==> (#[trigger] hashes[j]).weak != weak || hashes[j].strong@ != strong,
        },
    decreases n,
{
    if n > 0 {
        law_the_first_block_alike_is_matched(hashes, n - 1, weak, strong);
    }
}

/// A window of the target is taken for the block that is expected next where
/// the digests agree, or else for the first full block that has both of its
/// hashes; it is taken for none only where no full block has them.
pub proof fn law_a_window_is_taken_for_a_block_with_its_digest(
    sig: Signature,
    window: Seq<u8>,
    expected: Option<int>,
)
    requires
        sig.hashes@.len() > 0,
        expected matches Some(e) ==> e >= 0,
    ensures
        full_blocks(sig) == (if sig.last_block_size == sig.block_size {
            sig.hashes@.len() as int
        } else {
            sig.hashes@.len() - 1
        }),
        found(sig, window, expected) matches Some(i) ==> 0 <= i < full_blocks(sig)
            && sig.hashes@[i].strong@ == blake3_digest(window),
        expected matches Some(e) ==> (e < full_blocks(sig) && sig.hashes@[e].strong@
            == blake3_digest(window) ==> found(sig, window, expected) == Some(e)),
        found(sig, window, expected) is None ==> forall|j: int|
            0 <= j < full_blocks(sig) ==> (#[trigger] sig.hashes@[j]).strong@ != blake3_digest(
                window,
            ) || sig.hashes@[j].weak != weak_sum(window, sig.block_size as int),
{
    law_the_first_block_alike_is_matched(
        sig.hashes@,
        full_blocks(sig),
        weak_sum(window, sig.block_size as int),
        blake3_digest(window),
    );
}

/// The target is looked at from every byte on: a window that is a block is
/// told as one and the next is looked for behind it, and where it is none the
/// window moves by a single byte.
pub proof fn law_a_window_moves_by_a_byte(
    target: Seq<u8>,
    sig: Signature,
    origin: int,
    start: int,
    position: int,
    expected: Option<int>,
)
    requires
        sig.block_size > 0,
        0 <= origin <= start <= position,
        position < origin + 65536,
        position + sig.block_size < target.len(),
    ensures
        ({
            let size = sig.block_size as int;
            let window = target.subrange(position, position + size);
            match found(sig, window, expected) {
                Some(i) => emission(target, sig, origin, start, position, expected) == (if start
                    == position {
                    seq![Unit::Block(i)]
                } else {
                    seq![Unit::Data(target.subrange(start, position)), Unit::Block(i)]
                }) + emission(
                    target,
                    sig,
                    origin,
                    position + size,
                    position + size,
                    Some(i + 1),
                ),
                None => emission(target, sig, origin, start, position, expected) == emission(
                    target,
                    sig,
                    origin,
                    start,
                    position + 1,
                    None,
                ),
            }
        }),
{
    let size = sig.block_size as int;
    if let Some(i) = found(sig, target.subrange(position, position + size), expected) {
        assert(data_unit(target, start, position).push(Unit::Block(i)) =~= (if start == position {
            seq![Unit::Block(i)]
        } else {
            seq![Unit::Data(target.subrange(start, position)), Unit::Block(i)]
        }));
    }
}

/// A run of a base's blocks is the part of the base that they cover: from where
/// the first starts to where the last ends.
pub proof fn law_a_run_of_blocks_is_a_part_of_the_base(
    base: Seq<u8>,
    sig: Signature,
    block_size: u32,
    start: int,
    count: int,
)
    requires
        is_signature(sig, base, block_size),
        base.len() > 0,
        0 <= start,
        0 < count,
        start + count <= sig.hashes@.len(),
    ensures
        block_run(base, sig, start, count) == base.subrange(
            start * sig.block_size,
            if start + count == sig.hashes@.len() {
                base.len() as int
            } else {
                (start + count) * sig.block_size
            },
        ),
        applicable(base, sig, OpView::Blocks { start, count }),
    decreases count,
{
    let size = sig.block_size as int;
    let i = start + count - 1;
    lemma_block_at(base, sig, block_size, i);
    lemma_block_at(base, sig, block_size, start);
    assert((i + 1) * size == i * size + size) by (nonlinear_arith);
    assert(start * size <= i * size) by (nonlinear_arith)
        requires
            start <= i,
            size >= 0,
    ;
    if count > 1 {
        law_a_run_of_blocks_is_a_part_of_the_base(base, sig, block_size, start, count - 1);
    } else {
        assert(block_run(base, sig, start, 0) =~= Seq::empty());
    }
    assert(block_run(base, sig, start, count) =~= base.subrange(
        start * size,
        i * size + block_length(sig, i),
    ));
    assert forall|j: int| start <= j < start + count implies #[trigger] holds_block(
        base,
        sig,
        j,
    ) by {
        lemma_block_at(base, sig, block_size, j);
    }
}

/// Data is sent in pieces of 65536 bytes, in its order, the last of them of
/// what is left.
pub proof fn law_data_is_sent_in_pieces(bytes: Seq<u8>)
    ensures
        (chunks(bytes).len() - 1) * 65536 < bytes.len() <= chunks(bytes).len() * 65536 || bytes.len()
            == 0 && chunks(bytes).len() == 0,
        forall|k: int|
            0 <= k < chunks(bytes).len() ==> #[trigger] chunks(bytes)[k] == OpView::Data(
                bytes.subrange(
                    k * 65536,
                    if (k + 1) * 65536 <= bytes.len() {
                        (k + 1) * 65536
                    } else {
                        bytes.len() as int
                    },
                ),
            ),
    decreases bytes.len(),
{
    if bytes.len() > 65536 {
        let rest = bytes.skip(65536);
        law_data_is_sent_in_pieces(rest);
        assert forall|k: int| 0 <= k < chunks(bytes).len() implies #[trigger] chunks(bytes)[k]
            == OpView::Data(
            bytes.subrange(
                k * 65536,
                if (k + 1) * 65536 <= bytes.len() {
                    (k + 1) * 65536
                } else {
                    bytes.len() as int
                },
            ),
        ) by {
            if k == 0 {
                assert(bytes.take(65536) =~= bytes.subrange(0, 65536));
            } else {
                let end = if k * 65536 <= rest.len() {
                    k * 65536
                } else {
                    rest.len() as int
                };
                assert(chunks(bytes)[k] == chunks(rest)[k - 1]);
                assert(rest.subrange((k - 1) * 65536, end) =~= bytes.subrange(
                    k * 65536,
                    end + 65536,
                ));
            }
        }
    } else if bytes.len() > 0 {
        assert(bytes.subrange(0, bytes.len() as int) =~= bytes);
    }
}

/// Operations are applied one behind another: what a further one appends
/// follows what those before it did, data as it is.
pub proof fn law_operations_append_in_turn(
    base: Seq<u8>,
    sig: Signature,
    ops: Seq<OpView>,
    bytes: Seq<u8>,
)
    ensures
        patched(base, sig, ops.push(OpView::Data(bytes))) == patched(base, sig, ops) + bytes,
        patched(base, sig, Seq::empty()) == Seq::<u8>::empty(),
        applicable(base, sig, OpView::Data(bytes)),
{
    assert(ops.push(OpView::Data(bytes)).drop_last() =~= ops);
}

} // verus!
