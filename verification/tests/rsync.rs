//! Block signatures, deltas and patches.
use autobahn::digest::Digest;
use autobahn::rsync::{
    assemble, block_hashes, deltify, optimal_block_size, patch, reads_in_parallel, roll_weak_components,
    signature, weak_components, weak_hash, worker_range, BlockHash, Op, PatchError, Signature,
    SignatureError, DEFAULT_BLOCK_SIZE, MAXIMUM_BLOCK_SIZE, MAXIMUM_DATA_OPERATION_SIZE,
    MINIMUM_BLOCK_SIZE, PARALLEL_SIGNATURE_MINIMUM,
};

const EMPTY: Signature = Signature { block_size: 0, last_block_size: 0, hashes: Vec::new() };

fn copy(signature: &Signature) -> Signature {
    Signature {
        block_size: signature.block_size,
        last_block_size: signature.last_block_size,
        hashes: signature.hashes.clone(),
    }
}

/// Computes a signature of the base, deltifies the target against it, patches
/// every operation, and asserts that the reconstruction is exact and that
/// every data operation respects the size bound.
fn round_trip(base: &[u8], target: &[u8], block_size: u32) -> Vec<Op> {
    let signed = signature(base, block_size);
    signed.validate().unwrap();
    let ops = deltify(target, &signed).unwrap();
    let mut output = Vec::new();
    for op in &ops {
        if let Op::Data(data) = op {
            assert!(!data.is_empty(), "empty data operation");
            assert!(data.len() <= MAXIMUM_DATA_OPERATION_SIZE, "oversized ({})", data.len());
        }
        patch(base, &signed, op, &mut output).unwrap();
    }
    assert!(output == target, "reconstruction mismatch");
    ops
}

/// Deterministic pseudo-random content.
fn pseudo_random(length: usize, seed: u64) -> Vec<u8> {
    let mut state = seed;
    let mut data = Vec::with_capacity(length + 4);
    while data.len() < length {
        state = state.wrapping_mul(6364136223846793005).wrapping_add(1442695040888963407);
        data.extend_from_slice(&((state >> 32) as u32).to_le_bytes());
    }
    data.truncate(length);
    data
}

/// The total number of blocks that block operations name.
fn block_total(ops: &[Op]) -> u64 {
    ops.iter()
        .map(|op| match op {
            Op::Blocks { count, .. } => *count,
            Op::Data(_) => 0,
        })
        .sum()
}

#[test]
fn optimal_block_size_clamps_to_the_supported_range() {
    assert_eq!(optimal_block_size(0), MINIMUM_BLOCK_SIZE);
    assert_eq!(optimal_block_size(1), MINIMUM_BLOCK_SIZE);
    assert_eq!(optimal_block_size(u64::MAX), MAXIMUM_BLOCK_SIZE);
    let middle = optimal_block_size(10_000_000);
    assert_eq!(middle, (24.0f64 * 10_000_000.0).sqrt() as u32);
    assert!(middle > MINIMUM_BLOCK_SIZE && middle < MAXIMUM_BLOCK_SIZE);
}

#[test]
fn rolling_checksum_matches_direct_computation() {
    let data = pseudo_random(4096, 0x5EED);
    let block_size = 97u32;
    let (mut r1, mut r2) = weak_components(&data[..block_size as usize], block_size);
    for position in 1..(data.len() - block_size as usize) {
        let (next1, next2) = roll_weak_components(
            r1,
            r2,
            data[position - 1],
            data[position - 1 + block_size as usize],
            block_size,
        );
        r1 = next1;
        r2 = next2;
        let expected = weak_hash(&data[position..position + block_size as usize], block_size);
        assert_eq!(r1 + (r2 << 16), expected, "at position {position}");
    }
}

#[test]
fn signature_describes_block_layout() {
    let empty = signature(b"", 1024);
    assert!(empty.is_empty());
    assert_eq!(empty.block_size, 0);
    assert_eq!(empty.last_block_size, 0);
    assert!(empty.hashes.is_empty());

    // An exact multiple reports a full-size final block.
    let exact = signature(&vec![1u8; 4096], 1024);
    assert_eq!(exact.hashes.len(), 4);
    assert_eq!(exact.last_block_size, 1024);

    // A remainder reports a short final block.
    let short = signature(&vec![1u8; 4096 + 7], 1024);
    assert_eq!(short.hashes.len(), 5);
    assert_eq!(short.last_block_size, 7);

    // A zero block size falls back to the documented default.
    let defaulted = signature(&[1u8; 3], 0);
    assert_eq!(defaulted.block_size, DEFAULT_BLOCK_SIZE);
    assert_eq!(defaulted.last_block_size, 3);
}

#[test]
fn validation_rejects_malformed_signatures() {
    let hash = BlockHash { weak: 0, strong: [0u8; 32] };
    assert!(EMPTY.validate().is_ok());
    let cases = [
        (0, 1, Vec::new(), false),
        (0, 0, vec![hash], false),
        (1024, 0, vec![hash], false),
        (1024, 2048, vec![hash], false),
        (1024, 1024, Vec::new(), false),
        (1024, 1024, vec![hash], true),
    ];
    for (block_size, last_block_size, hashes, fine) in cases {
        let signed = Signature { block_size, last_block_size, hashes };
        assert_eq!(signed.validate().is_ok(), fine, "{signed:?}");
    }
}

#[test]
fn validation_bounds_the_block_size_and_the_hash_count() {
    let hash = BlockHash { weak: 0, strong: [0u8; 32] };
    for block_size in [1, MINIMUM_BLOCK_SIZE - 1, MAXIMUM_BLOCK_SIZE + 1, u32::MAX] {
        let signed = Signature { block_size, last_block_size: 1, hashes: vec![hash] };
        assert!(signed.validate().is_err(), "block size {block_size}");
    }
    for block_size in [MINIMUM_BLOCK_SIZE, MAXIMUM_BLOCK_SIZE] {
        let signed = Signature { block_size, last_block_size: 1, hashes: vec![hash] };
        assert!(signed.validate().is_ok(), "block size {block_size}");
    }

    // Against a known base length, no more hashes than it has blocks.
    let base = vec![3u8; 4096 + 7];
    let genuine = signature(&base, 1024);
    genuine.validate_for_base(base.len() as u64).unwrap();
    let mut padded = copy(&genuine);
    padded.hashes.extend(vec![hash; 1000]);
    assert!(padded.validate().is_ok(), "structurally it is fine");
    assert!(padded.validate_for_base(base.len() as u64).is_err());
    assert!(EMPTY.validate_for_base(0).is_ok());
    assert!(genuine.validate_for_base(0).is_err());
}

#[test]
fn empty_base_and_target_produce_no_operations() {
    let ops = round_trip(b"", b"", 0);
    assert!(ops.is_empty());
}

#[test]
fn empty_base_streams_the_target_as_data() {
    let target = pseudo_random(MAXIMUM_DATA_OPERATION_SIZE * 2 + 13, 1);
    let ops = round_trip(b"", &target, 0);
    assert_eq!(ops.len(), 3);
    assert!(ops.iter().all(|op| matches!(op, Op::Data(_))));
}

#[test]
fn empty_target_against_a_base_produces_no_operations() {
    let base = pseudo_random(5000, 2);
    let ops = round_trip(&base, b"", 1024);
    assert!(ops.is_empty());
}

#[test]
fn identical_content_coalesces_into_a_single_block_run() {
    let base = pseudo_random(1024 * 16, 3);
    let ops = round_trip(&base, &base, 1024);
    assert!(ops.len() <= 2, "expected a coalesced run, got {ops:?}");
    assert_eq!(block_total(&ops), 16);

    // The same must hold when the final block is short.
    let ragged = pseudo_random(1024 * 16 + 300, 4);
    let ops = round_trip(&ragged, &ragged, 1024);
    assert!(ops.len() <= 2, "expected a coalesced run, got {ops:?}");
    assert_eq!(block_total(&ops), 17);
}

#[test]
fn middle_mutation_reuses_surrounding_blocks() {
    let base = pseudo_random(1024 * 20, 5);
    let mut target = base.clone();
    for byte in target[1024 * 9..1024 * 9 + 64].iter_mut() {
        *byte ^= 0xFF;
    }
    let ops = round_trip(&base, &target, 1024);
    assert!(block_total(&ops) >= 18, "insufficient reuse: {ops:?}");
}

#[test]
fn prefix_insertion_realigns_the_search() {
    let base = pseudo_random(1024 * 20, 6);
    let mut target = pseudo_random(777, 7);
    target.extend_from_slice(&base);
    let ops = round_trip(&base, &target, 1024);
    assert_eq!(block_total(&ops), 20, "expected full reuse: {ops:?}");
}

#[test]
fn truncation_reuses_the_surviving_prefix() {
    let base = pseudo_random(1024 * 20, 8);
    let target = &base[..1024 * 7 + 11];
    let ops = round_trip(&base, target, 1024);
    assert_eq!(block_total(&ops), 7, "expected prefix reuse: {ops:?}");
}

#[test]
fn appended_tail_reuses_the_entire_base() {
    let base = pseudo_random(1024 * 20, 9);
    let mut target = base.clone();
    target.extend_from_slice(&pseudo_random(3000, 10));
    let ops = round_trip(&base, &target, 1024);
    assert_eq!(block_total(&ops), 20, "expected full reuse: {ops:?}");
}

#[test]
fn exact_block_multiple_bases_round_trip() {
    let base = pseudo_random(1024 * 8, 11);
    let signed = signature(&base, 1024);
    assert_eq!(signed.block_size, signed.last_block_size);
    let mut target = base.clone();
    target.extend_from_slice(b"tail");
    round_trip(&base, &target, 1024);
    round_trip(&base, &base[..1024 * 3], 1024);
}

#[test]
fn short_final_block_matches_at_the_target_end() {
    let base = pseudo_random(1024 * 3 + 500, 12);
    let mut target = pseudo_random(2000, 13);
    target.extend_from_slice(&base[1024 * 3..]);
    let ops = round_trip(&base, &target, 1024);
    assert!(
        ops.iter().any(|op| matches!(op, Op::Blocks { start: 3, count: 1 })),
        "expected the short final block to match: {ops:?}"
    );

    // A short final block must not match anywhere but the end.
    let mut interior = base[1024 * 3..].to_vec();
    interior.extend_from_slice(&pseudo_random(100, 14));
    let ops = round_trip(&base, &interior, 1024);
    assert_eq!(block_total(&ops), 0, "unexpected interior match: {ops:?}");
}

#[test]
fn the_weak_checksum_is_the_one_reduced_at_every_step() {
    fn reference(block: &[u8], block_size: u32) -> (u32, u32) {
        let (mut r1, mut r2) = (0u32, 0u32);
        for (index, &byte) in block.iter().enumerate() {
            r1 = (r1 + byte as u32) & 0xFFFF;
            let coefficient = block_size.wrapping_sub(index as u32) & 0xFFFF;
            r2 = (r2 + coefficient * byte as u32) & 0xFFFF;
        }
        (r1, r2)
    }
    for (length, block_size, seed) in [
        (0, 1024, 1),
        (1, 1024, 2),
        (1024, 1024, 3),
        (700, 1024, 4),
        (1 << 16, 1 << 16, 5),
        (40_000, 1 << 16, 6),
    ] {
        let block = pseudo_random(length, seed);
        assert_eq!(weak_components(&block, block_size), reference(&block, block_size));
    }
    let saturated = vec![0xFFu8; 1 << 16];
    assert_eq!(weak_components(&saturated, 1 << 16), reference(&saturated, 1 << 16));
}

#[test]
fn a_base_of_repeated_blocks_still_round_trips() {
    // Every block of the base is the same, so the block expected after a match
    // and the one the search would find are interchangeable.
    let block = pseudo_random(1024, 21);
    let base: Vec<u8> = block.iter().copied().cycle().take(64 * 1024).collect();
    let ops = round_trip(&base, &base, 1024);
    assert_eq!(block_total(&ops), 64);
    let mut changed = base.clone();
    changed[10_000] ^= 1;
    changed.splice(30_000..30_000, pseudo_random(333, 22));
    round_trip(&base, &changed, 1024);
}

#[test]
fn large_pseudo_random_content_round_trips() {
    let base = pseudo_random(300_000, 15);

    // Identical content.
    let ops = round_trip(&base, &base, 1024);
    assert!(ops.len() <= 2);

    // A scattering of mutations.
    let mut mutated = base.clone();
    for offset in (0..mutated.len()).step_by(50_000) {
        mutated[offset] ^= 0xA5;
    }
    round_trip(&base, &mutated, 1024);

    // A large insertion in the middle.
    let mut inserted = base[..150_000].to_vec();
    inserted.extend_from_slice(&pseudo_random(70_000, 16));
    inserted.extend_from_slice(&base[150_000..]);
    let ops = round_trip(&base, &inserted, 1024);
    assert!(block_total(&ops) > 200, "insufficient reuse");

    // A large deletion.
    let mut deleted = base[..40_000].to_vec();
    deleted.extend_from_slice(&base[220_000..]);
    round_trip(&base, &deleted, 1024);

    // Entirely unrelated content.
    let unrelated = pseudo_random(200_000, 17);
    round_trip(&base, &unrelated, 1024);

    // Reversed content, which defeats block alignment everywhere.
    let mut reversed = base.clone();
    reversed.reverse();
    round_trip(&base, &reversed, 1024);

    // One long run of a repeated byte, with dense weak-checksum collisions.
    let repetitive = vec![0x42u8; 200_000];
    let repeated = signature(&repetitive, 1024);
    assert_eq!(repeated.hashes.len(), 196);
    round_trip(&repetitive, &repetitive[..150_000], 1024);
    round_trip(&repetitive, &base, 1024);
}

#[test]
fn patch_rejects_out_of_range_block_operations() {
    let base = pseudo_random(4096, 18);
    let signed = signature(&base, 1024);
    let mut output = Vec::new();
    for (start, count) in [(3, 2), (4, 1), (u64::MAX, 2)] {
        assert!(patch(&base, &signed, &Op::Blocks { start, count }, &mut output).is_err());
    }
    assert!(output.is_empty());

    // The full in-range run remains acceptable.
    assert!(patch(&base, &signed, &Op::Blocks { start: 0, count: 4 }, &mut output).is_ok());
    assert_eq!(output, base);
}

#[test]
fn a_layout_matches_the_signature_it_stands_in_for() {
    for length in [0usize, 1, 1000, 1024, 1025, 4096, 4097, 65_536, 100_000] {
        for block_size in [0u32, 1024, 4096, 65_536] {
            let base: Vec<u8> = (0..length).map(|i| (i * 31 % 251) as u8).collect();
            let signed = signature(&base, block_size);
            let laid = Signature::layout(length as u64, block_size);
            assert_eq!(signed.block_size, laid.block_size, "{length} {block_size}");
            assert_eq!(signed.last_block_size, laid.last_block_size, "{length} {block_size}");
            assert_eq!(signed.hashes.len(), laid.hashes.len(), "{length} {block_size}");
            // And a delta computed against the real signature applies against
            // the layout alone.
            let target: Vec<u8> = base.iter().rev().chain(base.iter()).copied().collect();
            let ops = deltify(&target, &signed).unwrap();
            let mut output = Vec::new();
            for op in &ops {
                patch(&base, &laid, op, &mut output).unwrap();
            }
            assert!(output == target, "{length} {block_size}");
        }
    }
}

#[test]
fn each_fault_of_a_signature_has_its_own_error() {
    let hash = BlockHash { weak: 0, strong: [0u8; 32] };
    let fault = |block_size, last_block_size, hashes: Vec<BlockHash>| {
        Signature { block_size, last_block_size, hashes }.validate().unwrap_err()
    };
    assert!(matches!(
        fault(0, 1, Vec::new()),
        SignatureError::EmptyWithLastBlock { last_block_size: 1 }
    ));
    let against = deltify(b"x", &Signature { block_size: 0, last_block_size: 1, hashes: Vec::new() });
    assert!(against.is_err(), "a malformed signature is not searched");
    let mut output = Vec::new();
    let patched = patch(
        b"x",
        &Signature { block_size: 1, last_block_size: 1, hashes: vec![hash] },
        &Op::Data(vec![1]),
        &mut output,
    );
    assert!(matches!(patched, Err(PatchError::InvalidSignature { .. })));
}

#[test]
fn strong_hashes_are_blake3() {
    let base = pseudo_random(1500, 30);
    let hashes = block_hashes(&base, 1024);
    let first: Digest = *blake3::hash(&base[..1024]).as_bytes();
    let second: Digest = *blake3::hash(&base[1024..]).as_bytes();
    assert_eq!(hashes.len(), 2);
    assert_eq!(hashes[0].strong, first);
    assert_eq!(hashes[1].strong, second);
    assert_eq!(hashes[0].weak, weak_hash(&base[..1024], 1024));
    assert_eq!(weak_hash(&[1, 2, 3], 4), (1 + 2 + 3) + ((4 + 6 + 6) << 16));
}

#[test]
fn workers_share_the_blocks_in_order() {
    assert!(!reads_in_parallel(PARALLEL_SIGNATURE_MINIMUM - 1, 8));
    assert!(!reads_in_parallel(PARALLEL_SIGNATURE_MINIMUM, 1));
    assert!(reads_in_parallel(PARALLEL_SIGNATURE_MINIMUM, 2));
    let mut next = 0;
    for thread in 0..3 {
        let (start, end) = worker_range(10, 3, thread);
        assert_eq!(start, next);
        next = end;
    }
    assert_eq!(next, 10);
}

#[test]
fn a_signature_has_no_more_hashes_than_its_base_has_blocks() {
    let hash = BlockHash { weak: 0, strong: [0u8; 32] };
    let signed = |count: usize| Signature {
        block_size: 1024,
        last_block_size: 1024,
        hashes: vec![hash; count],
    };
    assert!(signed(4).validate_for_base(4096).is_ok());
    assert!(signed(5).validate_for_base(4097).is_ok());
    assert_eq!(
        signed(5).validate_for_base(4096),
        Err(SignatureError::TooManyHashes { count: 5, base_length: 4096 })
    );
    assert!(signed(1).validate_for_base(0).is_err());
    assert!(EMPTY.validate_for_base(0).is_ok());
}

#[test]
fn the_workers_hashes_make_the_signature() {
    let base = pseudo_random(10_000, 3);
    let whole = signature(&base, 1024);
    let parts = vec![block_hashes(&base[..4096], 1024), block_hashes(&base[4096..], 1024)];
    let made = assemble(base.len() as u64, 1024, &parts).expect("every block is there");
    assert_eq!(made.block_size, whole.block_size);
    assert_eq!(made.last_block_size, whole.last_block_size);
    assert_eq!(made.hashes.len(), whole.hashes.len());
    for (one, other) in made.hashes.iter().zip(&whole.hashes) {
        assert_eq!((one.weak, one.strong), (other.weak, other.strong));
    }
    assert!(assemble(base.len() as u64, 1024, &parts[..1]).is_none());
}

#[test]
fn a_block_longer_than_its_size_counts_below_zero() {
    // Coefficients 1, 0 and -1, modulo 2^16.
    assert_eq!(weak_components(&[1, 2, 3], 1), (6, 65_534));
    assert_eq!(weak_hash(&[1, 2, 3], 1), 6 + (65_534 << 16));
    assert_eq!(weak_hash(&[9], 0), 9);
}

#[test]
fn any_number_of_workers_makes_the_signature() {
    for length in [1usize, 1024, 1025, 10_000] {
        let base = pseudo_random(length, 11);
        let whole = signature(&base, 1024);
        let blocks = length.div_ceil(1024) as u64;
        for threads in [1u64, 2, 3, 7, 20] {
            let parts: Vec<Vec<BlockHash>> = (0..threads)
                .map(|thread| {
                    let (start, end) = worker_range(blocks, threads, thread);
                    let bytes = |block: u64| (block as usize * 1024).min(length);
                    block_hashes(&base[bytes(start)..bytes(end)], 1024)
                })
                .collect();
            let made = assemble(length as u64, 1024, &parts).expect("every block is there");
            assert_eq!(made.last_block_size, whole.last_block_size);
            assert_eq!(made.hashes.len(), whole.hashes.len());
            for (one, other) in made.hashes.iter().zip(&whole.hashes) {
                assert_eq!((one.weak, one.strong), (other.weak, other.strong));
            }
        }
    }
}
