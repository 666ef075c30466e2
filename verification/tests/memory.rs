use tritium_quantize::activation_builder::ActivationCacheBuilder;
use tritium_quantize::activation_cache::ActivationCache;
use tritium_quantize::activation_chunk::ActivationChunk;
use tritium_quantize::activation_decode::BoundedInput;
use tritium_quantize::activation_schema::{
    ActivationCacheError, ActivationCacheSpec, ActivationDType, ActivationDigest,
};
use tritium_quantize::allocator::{allocate_nested_profiles, allocate_nested_profiles_in};
use tritium_quantize::coverage_policy::reopen_in;
use tritium_quantize::packed::PackedPlaneCounts;
use tritium_quantize::physical::{
    ByteDelta, GroupCandidates, NestedProfileBudgets, PhysicalAllocError, PhysicalBytes,
    PlaneCandidate, ProfileBudget, SaltV2Profile,
};
use tritium_quantize::qwen35_coverage::{
    Qwen35CoverageError, Qwen35CoverageManifest, QWEN36_27B_COVERAGE_REVISION,
};

fn spec() -> ActivationCacheSpec {
    ActivationCacheSpec::new(
        3,
        "blk.3",
        4,
        1,
        ActivationDType::Float32,
        ActivationDigest::from_bytes([5; 32]),
        4,
    )
    .expect("spec")
}

fn chunk(start: u64, end: bool) -> ActivationChunk {
    let ends = if end { vec![start + 2] } else { Vec::new() };
    ActivationChunk::new(&spec(), start, 2, vec![0, 0x3f80_0000], vec![true; 2], ends)
        .expect("chunk")
}

fn complete() -> ActivationCacheBuilder {
    let mut builder = ActivationCacheBuilder::new_in(spec(), Vec::new());
    builder.ingest(chunk(0, false)).expect("first");
    builder.ingest(chunk(2, true)).expect("second");
    builder
}

fn allocation_bytes(error: ActivationCacheError) -> u64 {
    match error {
        ActivationCacheError::AllocationFailed { bytes } => bytes,
        other => panic!("unexpected error {other:?}"),
    }
}

#[test]
fn refused_room_for_values_is_reported_in_bytes() {
    let made = |room| {
        ActivationChunk::encoded_in(&spec(), 0, 2, vec![0, 0], vec![true; 2], Vec::new(), room)
    };
    assert_eq!(allocation_bytes(made(None).expect_err("refused")), 8);
    let chunk = made(Some(Vec::new())).expect("granted");
    assert_eq!(chunk.token_count(), 2);
}

#[test]
fn a_refused_ingest_leaves_the_builder_unchanged() {
    let mut builder = ActivationCacheBuilder::new_in(spec(), Vec::new());
    let error = builder
        .ingest_granted(chunk(0, false), false)
        .expect_err("refused");
    assert_eq!(
        allocation_bytes(error),
        std::mem::size_of::<ActivationChunk>() as u64
    );
    assert_eq!(builder.missing_ranges().len(), 1);
    builder
        .ingest_granted(chunk(0, false), true)
        .expect("granted");
    // A clash is found before any memory is asked for.
    assert!(!matches!(
        builder.ingest_granted(chunk(0, false), false),
        Ok(()) | Err(ActivationCacheError::AllocationFailed { .. })
    ));

    let mut other = ActivationCacheBuilder::new(spec());
    other.ingest(chunk(2, true)).expect("other half");
    let copy = other.clone();
    assert_eq!(
        allocation_bytes(builder.merge_granted(other, false).expect_err("refused")),
        1
    );
    assert_eq!(builder.missing_ranges().len(), 1);
    builder.merge_granted(copy, true).expect("granted");
    assert!(builder.missing_ranges().is_empty());
}

#[test]
fn finalizing_names_the_buffer_that_was_refused() {
    let refused = |values, mask, artifact| {
        allocation_bytes(
            complete()
                .finalize_in(values, mask, artifact)
                .expect_err("refused"),
        )
    };
    let cache = complete().finalize().expect("finalize");
    assert_eq!(refused(None, None, None), 16);
    assert_eq!(refused(Some(Vec::new()), None, None), 4);
    assert_eq!(
        refused(Some(Vec::new()), Some(Vec::new()), None),
        cache.encoded().len() as u64
    );
    let granted = complete()
        .finalize_in(Some(Vec::new()), Some(Vec::new()), Some(Vec::new()))
        .expect("granted");
    assert_eq!(granted.encoded(), cache.encoded());
}

#[test]
fn checkpoints_report_refused_memory() {
    let (encoded, digest) = complete().encode_checkpoint().expect("checkpoint");
    let error = complete().encode_checkpoint_in(None).expect_err("refused");
    assert_eq!(allocation_bytes(error), encoded.len() as u64);
    let granted = complete()
        .encode_checkpoint_in(Some(Vec::new()))
        .expect("granted");
    assert_eq!(granted.0, encoded);
    assert_eq!(granted.1, digest);

    // The refusal names the chunks that the manifest declares.
    assert_eq!(
        allocation_bytes(
            ActivationCacheBuilder::reopened_in(&encoded, Some(digest), None)
                .expect_err("refused"),
        ),
        2
    );
    let reopened = ActivationCacheBuilder::reopened_in(&encoded, Some(digest), Some(Vec::new()))
        .expect("granted");
    assert_eq!(reopened.encode_checkpoint().expect("again").0, encoded);
    // A wrong digest is found before any memory is asked for.
    assert!(!matches!(
        ActivationCacheBuilder::reopened_in(
            &encoded,
            Some(ActivationDigest::from_bytes([0; 32])),
            None
        ),
        Ok(_) | Err(ActivationCacheError::AllocationFailed { .. })
    ));
}

#[test]
fn refused_input_keeps_what_was_read() {
    let mut input = BoundedInput::new(8);
    input.push_granted(&[1, 2, 3], true).expect("granted");
    assert_eq!(
        allocation_bytes(input.push_granted(&[4], false).expect_err("refused")),
        4
    );
    assert!(matches!(
        input.push_granted(&[0; 6], false),
        Err(ActivationCacheError::EncodedSizeLimitExceeded { limit: 8 })
    ));
    input.push_granted(&[4, 5, 6, 7, 8], true).expect("filled");
}

#[test]
fn plane_counts_report_refused_memory_by_profile() {
    for profile in [SaltV2Profile::CompactV1, SaltV2Profile::NearLosslessV1] {
        assert_eq!(
            PackedPlaneCounts::filled_in(9, 2, profile, None).expect_err("refused"),
            PhysicalAllocError::WorkingMemoryUnavailable { profile }
        );
        let counts = PackedPlaneCounts::filled_in(9, 2, profile, Some(Vec::new())).expect("granted");
        assert_eq!(counts.len(), 9);
        assert_eq!(counts.get(8), Some(2));
        assert_eq!(counts.get(9), None);
    }
}

#[test]
fn nested_allocation_reports_the_profile_without_memory() {
    let bytes = |count| PhysicalBytes {
        serialized: count,
        resident: count,
    };
    let delta = |count| ByteDelta::declared(bytes(count));
    let candidate = |planes, count, distortion: f64| PlaneCandidate {
        planes,
        byte_delta: delta(count),
        distortion_bits: distortion.to_bits(),
    };
    let candidates = [
        candidate(1, 1, 8.0),
        candidate(2, 1, 4.0),
        candidate(3, 1, 2.0),
    ];
    let groups = [GroupCandidates {
        candidates: &candidates,
    }];
    let budget = |maximum| ProfileBudget {
        maximum: bytes(maximum),
        metadata: delta(0),
    };
    let budgets = NestedProfileBudgets {
        compact: budget(2),
        near_lossless: budget(3),
    };
    assert_eq!(
        allocate_nested_profiles_in(&groups, &budgets, None, None).expect_err("compact"),
        PhysicalAllocError::WorkingMemoryUnavailable {
            profile: SaltV2Profile::CompactV1
        }
    );
    assert_eq!(
        allocate_nested_profiles_in(&groups, &budgets, Some(Vec::new()), None)
            .expect_err("near lossless"),
        PhysicalAllocError::WorkingMemoryUnavailable {
            profile: SaltV2Profile::NearLosslessV1
        }
    );
    let granted =
        allocate_nested_profiles_in(&groups, &budgets, Some(Vec::new()), Some(Vec::new()))
            .expect("granted");
    let plain = allocate_nested_profiles(&groups, &budgets).expect("plain");
    assert_eq!(granted, plain);
    assert_eq!(granted.compact.plane_counts, vec![2]);
    assert_eq!(granted.near_lossless.plane_counts, vec![3]);
}

#[test]
fn coverage_checks_the_revision_before_asking_for_memory() {
    assert!(matches!(
        Qwen35CoverageManifest::from_metadata_in(QWEN36_27B_COVERAGE_REVISION, &[], None),
        Err(Qwen35CoverageError::AllocationFailed)
    ));
    assert!(matches!(
        Qwen35CoverageManifest::from_metadata_in("other", &[], None),
        Err(Qwen35CoverageError::WrongRevision { .. })
    ));
    assert!(!matches!(
        reopen_in(b"TQ36COV", None, None),
        Ok(_) | Err(Qwen35CoverageError::AllocationFailed)
    ));
}

#[test]
fn an_empty_builder_needs_no_memory_for_chunks() {
    let empty = || ActivationCacheBuilder::new_in(spec(), Vec::new());
    let (encoded, digest) = empty().encode_checkpoint().expect("checkpoint");
    let reopened = ActivationCacheBuilder::from_checkpoint_verified(&encoded, digest)
        .expect("empty checkpoint");
    assert_eq!(reopened.encode_checkpoint().expect("again").0, encoded);

    let mut builder = complete();
    let before = builder.encode_checkpoint().expect("before").0;
    builder.merge(empty()).expect("nothing to add");
    assert_eq!(builder.encode_checkpoint().expect("after").0, before);
}

#[test]
fn a_refused_copy_is_reported_after_a_good_parse_only() {
    let cache = complete().finalize().expect("finalize");
    let encoded = cache.encoded();
    let error = ActivationCache::copied_in(encoded, None, None).expect_err("refused");
    assert_eq!(allocation_bytes(error), encoded.len() as u64);
    let copied = ActivationCache::copied_in(encoded, Some(cache.digest()), Some(Vec::new()))
        .expect("granted");
    assert_eq!(copied, cache);
    assert!(matches!(
        ActivationCache::copied_in(encoded, Some(ActivationDigest::from_bytes([0; 32])), None),
        Err(ActivationCacheError::DigestMismatch { .. })
    ));
    assert!(matches!(
        ActivationCache::copied_in(&encoded[..8], None, None),
        Err(ActivationCacheError::TruncatedEncoding { .. })
    ));
}
