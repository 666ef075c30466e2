use half::f16;
use tritium_quantize::activation_builder::ActivationCacheBuilder;
use tritium_quantize::activation_cache::ActivationCache;
use tritium_quantize::activation_chunk::ActivationChunk;
use tritium_quantize::activation_decode::BoundedInput;
use tritium_quantize::activation_schema::{
    ActivationCacheError, ActivationCacheSpec, ActivationDType, ActivationDigest,
};

const SHARD_HEADER_BYTES: u64 = 32;
const CHECKPOINT_MANIFEST_FIXED_BYTES: u64 = 84;
const CHECKPOINT_CHUNK_HEADER_BYTES: u64 = 72;
const CHECKPOINT_DOMAIN: &[u8] = b"tritium salt v2 activation checkpoint v1\0";

fn bits(values: &[f32]) -> Vec<u32> {
    values.iter().map(|value| value.to_bits()).collect()
}

/// Collects `bytes` in pieces of seven, as a reader would hand them over.
fn collect(bytes: &[u8], limit: u64) -> Result<BoundedInput, ActivationCacheError> {
    let mut input = BoundedInput::new(limit);
    for part in bytes.chunks(7) {
        input.push(part)?;
    }
    Ok(input)
}

fn read_cache(bytes: &[u8], limit: u64) -> Result<ActivationCache, ActivationCacheError> {
    ActivationCache::read_from(collect(bytes, limit)?)
}

fn read_cache_verified(
    bytes: &[u8],
    limit: u64,
    expected: ActivationDigest,
) -> Result<ActivationCache, ActivationCacheError> {
    ActivationCache::read_from_verified(collect(bytes, limit)?, expected)
}

fn read_checkpoint(
    bytes: &[u8],
    limit: u64,
    expected: ActivationDigest,
) -> Result<ActivationCacheBuilder, ActivationCacheError> {
    ActivationCacheBuilder::read_checkpoint_from_verified(collect(bytes, limit)?, expected)
}

fn digest(seed: u8) -> ActivationDigest {
    ActivationDigest::from_bytes([seed; 32])
}

fn spec(
    dtype: ActivationDType,
    tokens: u64,
    features: u64,
    shard_tokens: u32,
) -> ActivationCacheSpec {
    ActivationCacheSpec::new(
        7,
        "model.layers.7.mlp.down_proj.input",
        tokens,
        features,
        dtype,
        digest(9),
        shard_tokens,
    )
    .expect("valid fixture spec")
}

fn chunk(
    spec: &ActivationCacheSpec,
    token_start: u64,
    token_count: u64,
    values: Vec<f32>,
    token_mask: Vec<bool>,
    sequence_ends: Vec<u64>,
) -> ActivationChunk {
    ActivationChunk::new(
        spec,
        token_start,
        token_count,
        bits(&values),
        token_mask,
        sequence_ends,
    )
    .expect("valid fixture chunk")
}

fn finalized_cache() -> ActivationCache {
    let spec = spec(ActivationDType::Float16, 5, 2, 2);
    let mut builder = ActivationCacheBuilder::new(spec.clone());
    builder
        .ingest(chunk(
            &spec,
            0,
            5,
            vec![1.0, -1.0, 2.0, -2.0, 3.0, -3.0, 4.0, -4.0, 5.0, -5.0],
            vec![true, false, true, true, false],
            vec![2, 5],
        ))
        .expect("ingest reopen fixture");
    builder.finalize().expect("finalize reopen fixture")
}

#[test]
fn canonical_bytes_reopen_to_the_exact_same_cache_and_identity() {
    let original = finalized_cache();
    let reopened = ActivationCache::from_encoded(original.encoded()).expect("reopen cache");

    assert_eq!(reopened, original);
    assert_eq!(reopened.digest(), original.digest());
    assert_eq!(reopened.encoded(), original.encoded());
    assert_eq!(reopened.byte_ledger(), original.byte_ledger());
    assert_eq!(reopened.shards(), original.shards());
}

#[test]
fn bounded_reader_supports_durable_resume_and_rejects_oversize_input() {
    let original = finalized_cache();
    let reopened = read_cache(
        original.encoded(),
        original.byte_ledger().encoded_bytes(),
    )
    .expect("read persisted cache");
    assert_eq!(reopened, original);

    assert!(
        read_cache(
            original.encoded(),
            original.byte_ledger().encoded_bytes() - 1,
        )
        .is_err()
    );
}

#[test]
fn reopen_rejects_corruption_trailing_bytes_noncanonical_masks_and_digest_mismatch() {
    let original = finalized_cache();

    let mut bad_magic = original.encoded().to_vec();
    bad_magic[0] ^= 0x80;
    assert!(ActivationCache::from_encoded(&bad_magic).is_err());

    let mut bad_version = original.encoded().to_vec();
    bad_version[4..6].copy_from_slice(&2_u16.to_le_bytes());
    assert!(ActivationCache::from_encoded(&bad_version).is_err());

    let mut bad_reserved = original.encoded().to_vec();
    bad_reserved[7] = 1;
    assert!(ActivationCache::from_encoded(&bad_reserved).is_err());

    let mut bad_dtype = original.encoded().to_vec();
    bad_dtype[6] = 0;
    assert!(ActivationCache::from_encoded(&bad_dtype).is_err());

    let first = &original.shards()[0];
    let value_offset = usize::try_from(first.encoded_offset()).expect("offset")
        + usize::try_from(SHARD_HEADER_BYTES).expect("header");
    let mut nonfinite_value = original.encoded().to_vec();
    nonfinite_value[value_offset..value_offset + 2]
        .copy_from_slice(&f16::INFINITY.to_bits().to_le_bytes());
    assert!(ActivationCache::from_encoded(&nonfinite_value).is_err());

    let mut changed_finite_value = original.encoded().to_vec();
    changed_finite_value[value_offset] ^= 1;
    assert!(
        ActivationCache::from_encoded_verified(&changed_finite_value, original.digest())
            .is_err()
    );

    let mask_offset = usize::try_from(first.encoded_offset()).expect("offset")
        + usize::try_from(SHARD_HEADER_BYTES).expect("header")
        + usize::try_from(first.value_bytes()).expect("values");
    let mut bad_mask = original.encoded().to_vec();
    bad_mask[mask_offset] |= 0b1111_1100;
    assert!(ActivationCache::from_encoded(&bad_mask).is_err());

    let mut trailing = original.encoded().to_vec();
    trailing.push(0);
    assert!(ActivationCache::from_encoded(&trailing).is_err());

    assert!(ActivationCache::from_encoded_verified(original.encoded(), digest(77)).is_err());
}

#[test]
fn reopen_rejects_oversized_counts_and_duplicate_or_gapped_shards_before_allocation() {
    let original = finalized_cache();

    let mut oversized_tokens = original.encoded().to_vec();
    oversized_tokens[12..20].copy_from_slice(&u64::MAX.to_le_bytes());
    assert!(ActivationCache::from_encoded(&oversized_tokens).is_err());

    let second_offset =
        usize::try_from(original.shards()[1].encoded_offset()).expect("second shard offset");
    let mut duplicate_index = original.encoded().to_vec();
    duplicate_index[second_offset..second_offset + 4].copy_from_slice(&0_u32.to_le_bytes());
    assert!(ActivationCache::from_encoded(&duplicate_index).is_err());

    let mut gapped_range = original.encoded().to_vec();
    let wrong_start = original.shards()[1].token_start() + 1;
    gapped_range[second_offset + 4..second_offset + 12]
        .copy_from_slice(&wrong_start.to_le_bytes());
    assert!(ActivationCache::from_encoded(&gapped_range).is_err());
}

#[test]
fn arbitrary_short_inputs_are_rejected_without_panicking_or_allocating_from_counts() {
    for len in 0..128_usize {
        let bytes: Vec<u8> = (0..len)
            .map(|index| (index as u8).wrapping_mul(73).wrapping_add(len as u8))
            .collect();
        assert!(ActivationCache::from_encoded(&bytes).is_err(), "len={len}");
    }
}

#[test]
fn artifact_digest_is_independent_of_ingestion_order_and_chunking() {
    let spec = spec(ActivationDType::Float32, 6, 2, 2);
    let values: Vec<f32> = (0..12).map(|value| value as f32 / 4.0).collect();
    let mask = vec![true, true, true, false, true, true];

    let mut one_shot = ActivationCacheBuilder::new(spec.clone());
    one_shot
        .ingest(chunk(
            &spec,
            0,
            6,
            values.clone(),
            mask.clone(),
            vec![2, 5, 6],
        ))
        .expect("ingest one-shot chunk");
    let one_shot = one_shot.finalize().expect("finalize one-shot cache");

    let mut resumed_left = ActivationCacheBuilder::new(spec.clone());
    resumed_left
        .ingest(chunk(
            &spec,
            4,
            2,
            values[8..].to_vec(),
            mask[4..].to_vec(),
            vec![5, 6],
        ))
        .expect("ingest tail first");
    let mut resumed_right = ActivationCacheBuilder::new(spec.clone());
    resumed_right
        .ingest(chunk(
            &spec,
            2,
            2,
            values[4..8].to_vec(),
            mask[2..4].to_vec(),
            Vec::new(),
        ))
        .expect("ingest middle");
    resumed_right
        .ingest(chunk(
            &spec,
            0,
            2,
            values[..4].to_vec(),
            mask[..2].to_vec(),
            vec![2],
        ))
        .expect("ingest head last");
    resumed_left
        .merge(resumed_right)
        .expect("merge resumed builders");
    let resumed = resumed_left.finalize().expect("finalize resumed cache");

    assert_eq!(resumed.digest(), one_shot.digest());
    assert_eq!(resumed.encoded(), one_shot.encoded());
    assert_eq!(resumed.sequence_ends(), &[2, 5, 6]);
}

#[test]
fn source_layer_tensor_shape_and_dtype_are_digest_bound() {
    let base = spec(ActivationDType::Float32, 2, 2, 2);
    let base_chunk = chunk(
        &base,
        0,
        2,
        vec![1.0, 2.0, 3.0, 4.0],
        vec![true, true],
        vec![2],
    );

    let variants = [
        ActivationCacheSpec::new(
            8,
            base.tensor_name(),
            2,
            2,
            ActivationDType::Float32,
            digest(9),
            2,
        )
        .expect("layer variant"),
        ActivationCacheSpec::new(
            7,
            "other.tensor",
            2,
            2,
            ActivationDType::Float32,
            digest(9),
            2,
        )
        .expect("tensor variant"),
        spec(ActivationDType::Float32, 2, 3, 2),
        spec(ActivationDType::BFloat16, 2, 2, 2),
        ActivationCacheSpec::new(
            7,
            base.tensor_name(),
            2,
            2,
            ActivationDType::Float32,
            digest(10),
            2,
        )
        .expect("source variant"),
    ];

    for variant in variants {
        assert_ne!(variant.schema_digest(), base.schema_digest());
        let mut builder = ActivationCacheBuilder::new(variant);
        assert!(matches!(
            builder.ingest(base_chunk.clone()),
            Err(ActivationCacheError::SchemaMismatch { .. })
        ));
    }
}

#[test]
fn artifact_digest_binds_value_order_mask_boundaries_and_provenance() {
    fn finish(
        spec: &ActivationCacheSpec,
        values: Vec<f32>,
        mask: Vec<bool>,
        boundaries: Vec<u64>,
    ) -> ActivationDigest {
        let mut builder = ActivationCacheBuilder::new(spec.clone());
        builder
            .ingest(chunk(spec, 0, 4, values, mask, boundaries))
            .expect("ingest digest fixture");
        builder
            .finalize()
            .expect("finalize digest fixture")
            .digest()
    }

    let base_spec = spec(ActivationDType::Float32, 4, 1, 2);
    let base = finish(
        &base_spec,
        vec![1.0, 2.0, 3.0, 4.0],
        vec![true, true, false, true],
        vec![2, 4],
    );
    let reordered = finish(
        &base_spec,
        vec![2.0, 1.0, 3.0, 4.0],
        vec![true, true, false, true],
        vec![2, 4],
    );
    let remasked = finish(
        &base_spec,
        vec![1.0, 2.0, 3.0, 4.0],
        vec![true, false, false, true],
        vec![2, 4],
    );
    let reboundaried = finish(
        &base_spec,
        vec![1.0, 2.0, 3.0, 4.0],
        vec![true, true, false, true],
        vec![1, 4],
    );
    let other_source = ActivationCacheSpec::new(
        7,
        base_spec.tensor_name(),
        4,
        1,
        ActivationDType::Float32,
        digest(11),
        2,
    )
    .expect("other source spec");
    let reprovenanced = finish(
        &other_source,
        vec![1.0, 2.0, 3.0, 4.0],
        vec![true, true, false, true],
        vec![2, 4],
    );

    for changed in [reordered, remasked, reboundaried, reprovenanced] {
        assert_ne!(changed, base);
    }
}

#[test]
fn shards_have_canonical_indices_and_ranges() {
    let spec = spec(ActivationDType::BFloat16, 5, 1, 2);
    let mut builder = ActivationCacheBuilder::new(spec.clone());
    builder
        .ingest(chunk(
            &spec,
            0,
            5,
            vec![1.0, 2.0, 3.0, 4.0, 5.0],
            vec![true; 5],
            vec![3, 5],
        ))
        .expect("ingest");
    let cache = builder.finalize().expect("finalize");

    let observed: Vec<(u32, u64, u32, Vec<u64>)> = cache
        .shards()
        .iter()
        .map(|shard| {
            (
                shard.index(),
                shard.token_start(),
                shard.token_count(),
                shard.sequence_ends().to_vec(),
            )
        })
        .collect();
    assert_eq!(
        observed,
        vec![(0, 0, 2, vec![]), (1, 2, 2, vec![3]), (2, 4, 1, vec![5])]
    );
    assert!(
        cache
            .shards()
            .iter()
            .all(|shard| shard.digest() != digest(0))
    );
    for shard in cache.shards() {
        assert_eq!(
            u64::try_from(
                cache
                    .encoded_shard(shard.index())
                    .expect("indexed canonical shard")
                    .len()
            )
            .expect("shard length fits u64"),
            shard.encoded_bytes()
        );
    }
}

#[test]
fn byte_ledger_matches_the_canonical_encoding_exactly() {
    let spec = ActivationCacheSpec::new(1, "x", 3, 2, ActivationDType::Float32, digest(4), 2)
        .expect("spec");
    let mut builder = ActivationCacheBuilder::new(spec.clone());
    builder
        .ingest(chunk(
            &spec,
            0,
            3,
            vec![1.0, 2.0, 3.0, 4.0, 5.0, 6.0],
            vec![true, false, true],
            vec![2, 3],
        ))
        .expect("ingest");
    let cache = builder.finalize().expect("finalize");
    let ledger = cache.byte_ledger();

    assert_eq!(ledger.manifest_bytes(), 73);
    assert_eq!(ledger.shard_header_bytes(), 64);
    assert_eq!(ledger.value_bytes(), 24);
    assert_eq!(ledger.mask_bytes(), 2);
    assert_eq!(ledger.boundary_bytes(), 16);
    assert_eq!(ledger.encoded_bytes(), 179);
    assert_eq!(ledger.cache_bytes(), 179);
    assert_eq!(cache.encoded().len(), 179);
}

#[test]
fn rejects_gaps_duplicates_and_overlaps() {
    let spec = spec(ActivationDType::Float32, 4, 1, 2);
    let first = chunk(&spec, 0, 2, vec![1.0, 2.0], vec![true; 2], vec![2]);

    let mut duplicate = ActivationCacheBuilder::new(spec.clone());
    duplicate.ingest(first.clone()).expect("first ingest");
    assert!(matches!(
        duplicate.ingest(first),
        Err(ActivationCacheError::DuplicateRange { .. })
    ));

    let mut overlap = ActivationCacheBuilder::new(spec.clone());
    overlap
        .ingest(chunk(&spec, 0, 3, vec![1.0; 3], vec![true; 3], vec![3]))
        .expect("first overlap ingest");
    assert!(matches!(
        overlap.ingest(chunk(&spec, 2, 2, vec![1.0; 2], vec![true; 2], vec![4])),
        Err(ActivationCacheError::OverlappingRange { .. })
    ));

    let mut gap = ActivationCacheBuilder::new(spec.clone());
    gap.ingest(chunk(&spec, 2, 2, vec![1.0; 2], vec![true; 2], vec![4]))
        .expect("tail ingest");
    assert!(matches!(
        gap.finalize(),
        Err(ActivationCacheError::Gap {
            expected_start: 0,
            next_start: Some(2)
        })
    ));
}

#[test]
fn rejects_malformed_masks_boundaries_values_and_ranges() {
    let spec = spec(ActivationDType::Float32, 4, 2, 2);

    assert!(matches!(
        ActivationChunk::new(&spec, 0, 2, bits(&[1.0; 4]), vec![true], vec![2]),
        Err(ActivationCacheError::MaskLengthMismatch { .. })
    ));
    assert!(matches!(
        ActivationChunk::new(&spec, 0, 2, bits(&[1.0; 3]), vec![true; 2], vec![2]),
        Err(ActivationCacheError::ValueCountMismatch { .. })
    ));
    assert!(matches!(
        ActivationChunk::new(
            &spec,
            0,
            2,
            bits(&[1.0, f32::NAN, 1.0, 1.0]),
            vec![true; 2],
            vec![2]
        ),
        Err(ActivationCacheError::NonFiniteValue { .. })
    ));
    assert!(matches!(
        ActivationChunk::new(&spec, 0, 2, bits(&[1.0; 4]), vec![true; 2], vec![2, 2]),
        Err(ActivationCacheError::InvalidBoundary { .. })
    ));
    assert!(matches!(
        ActivationChunk::new(&spec, 3, 2, bits(&[1.0; 4]), vec![true; 2], vec![4]),
        Err(ActivationCacheError::ChunkOutOfBounds { .. })
    ));
}

#[test]
fn float16_encoding_rejects_finite_overflow() {
    let spec = spec(ActivationDType::Float16, 1, 1, 1);
    assert!(matches!(
        ActivationChunk::new(&spec, 0, 1, bits(&[70_000.0]), vec![true], vec![1]),
        Err(ActivationCacheError::DTypeOverflow {
            dtype: ActivationDType::Float16,
            ..
        })
    ));
}

#[test]
fn terminal_sequence_boundary_is_mandatory() {
    let spec = spec(ActivationDType::Float32, 2, 1, 2);
    let mut builder = ActivationCacheBuilder::new(spec.clone());
    builder
        .ingest(chunk(&spec, 0, 2, vec![1.0, 2.0], vec![true; 2], vec![]))
        .expect("ingest");
    assert!(matches!(
        builder.finalize(),
        Err(ActivationCacheError::MissingTerminalBoundary { total_tokens: 2 })
    ));
}

#[test]
fn checked_arithmetic_rejects_impossible_tensor_shapes() {
    assert!(matches!(
        ActivationCacheSpec::new(
            0,
            "huge",
            u64::MAX,
            2,
            ActivationDType::Float32,
            digest(1),
            1
        ),
        Err(ActivationCacheError::ArithmeticOverflow { .. })
    ));
}

#[test]
fn partial_builder_checkpoint_is_canonical_reopenable_and_resumable() {
    let spec = spec(ActivationDType::Float32, 6, 2, 2);
    let values: Vec<f32> = (0..12).map(|value| value as f32 / 8.0).collect();
    let mask = [true, false, true, true, false, true];

    let mut first_order = ActivationCacheBuilder::new(spec.clone());
    first_order
        .ingest(chunk(
            &spec,
            4,
            2,
            values[8..].to_vec(),
            mask[4..].to_vec(),
            vec![6],
        ))
        .expect("ingest tail");
    first_order
        .ingest(chunk(
            &spec,
            0,
            2,
            values[..4].to_vec(),
            mask[..2].to_vec(),
            vec![2],
        ))
        .expect("ingest head");

    let mut reverse_order = ActivationCacheBuilder::new(spec.clone());
    reverse_order
        .ingest(chunk(
            &spec,
            0,
            2,
            values[..4].to_vec(),
            mask[..2].to_vec(),
            vec![2],
        ))
        .expect("ingest head first");
    reverse_order
        .ingest(chunk(
            &spec,
            4,
            2,
            values[8..].to_vec(),
            mask[4..].to_vec(),
            vec![6],
        ))
        .expect("ingest tail second");

    let (checkpoint, checkpoint_digest) =
        first_order.encode_checkpoint().expect("encode checkpoint");
    let (reverse_checkpoint, reverse_digest) = reverse_order
        .encode_checkpoint()
        .expect("encode reverse checkpoint");
    assert_eq!(checkpoint, reverse_checkpoint);
    assert_eq!(checkpoint_digest, reverse_digest);

    let mut reopened =
        ActivationCacheBuilder::from_checkpoint_verified(&checkpoint, checkpoint_digest)
            .expect("verify checkpoint");
    assert_eq!(reopened.covered_tokens(), 4);
    let missing = reopened.missing_ranges();
    assert_eq!(missing.len(), 1);
    assert_eq!(missing[0], 2..4);
    let (reencoded, reencoded_digest) =
        reopened.encode_checkpoint().expect("re-encode checkpoint");
    assert_eq!(reencoded, checkpoint);
    assert_eq!(reencoded_digest, checkpoint_digest);

    reopened
        .ingest(chunk(
            &spec,
            2,
            2,
            values[4..8].to_vec(),
            mask[2..4].to_vec(),
            vec![4],
        ))
        .expect("resume missing middle");
    let resumed = reopened.finalize().expect("finalize resumed cache");

    let mut one_shot = ActivationCacheBuilder::new(spec.clone());
    one_shot
        .ingest(chunk(&spec, 0, 6, values, mask.to_vec(), vec![2, 4, 6]))
        .expect("ingest one shot");
    let one_shot = one_shot.finalize().expect("finalize one shot");
    assert_eq!(resumed.encoded(), one_shot.encoded());
    assert_eq!(resumed.digest(), one_shot.digest());
}

#[test]
fn partial_checkpoint_reader_is_bounded_and_identity_verified() {
    let spec = spec(ActivationDType::Float16, 4, 1, 2);
    let mut builder = ActivationCacheBuilder::new(spec.clone());
    builder
        .ingest(chunk(
            &spec,
            2,
            2,
            vec![3.0, 4.0],
            vec![true, false],
            vec![4],
        ))
        .expect("ingest partial tail");
    let (checkpoint, checkpoint_digest) = builder.encode_checkpoint().expect("checkpoint");

    let reopened = read_checkpoint(
        &checkpoint,
        checkpoint.len() as u64,
        checkpoint_digest,
    )
    .expect("bounded checkpoint reopen");
    assert_eq!(
        reopened.encode_checkpoint().expect("re-encode").0,
        checkpoint
    );
    assert!(matches!(
        read_checkpoint(
            &checkpoint,
            checkpoint.len() as u64 - 1,
            checkpoint_digest,
        ),
        Err(ActivationCacheError::EncodedSizeLimitExceeded { .. })
    ));
    assert!(matches!(
        ActivationCacheBuilder::from_checkpoint_verified(&checkpoint, digest(44)),
        Err(ActivationCacheError::DigestMismatch { .. })
    ));
}

#[test]
fn partial_checkpoint_rejects_corruption_truncation_trailing_and_noncanonical_order() {
    let spec = spec(ActivationDType::Float32, 4, 1, 2);
    let mut builder = ActivationCacheBuilder::new(spec.clone());
    builder
        .ingest(chunk(
            &spec,
            0,
            2,
            vec![1.0, 2.0],
            vec![true, false],
            vec![2],
        ))
        .expect("head");
    builder
        .ingest(chunk(
            &spec,
            2,
            2,
            vec![3.0, 4.0],
            vec![false, true],
            vec![4],
        ))
        .expect("tail");
    let (checkpoint, _) = builder.encode_checkpoint().expect("checkpoint");

    let mut corrupt = checkpoint.clone();
    corrupt[CHECKPOINT_MANIFEST_FIXED_BYTES as usize + spec.tensor_name().len() + 72] ^= 1;
    assert!(matches!(
        ActivationCacheBuilder::from_checkpoint(&corrupt),
        Err(ActivationCacheError::DigestMismatch { .. })
    ));
    assert!(
        ActivationCacheBuilder::from_checkpoint(&checkpoint[..checkpoint.len() - 1]).is_err()
    );
    let mut trailing = checkpoint.clone();
    trailing.push(0);
    assert!(ActivationCacheBuilder::from_checkpoint(&trailing).is_err());

    let manifest = CHECKPOINT_MANIFEST_FIXED_BYTES as usize + spec.tensor_name().len();
    let record_bytes = CHECKPOINT_CHUNK_HEADER_BYTES as usize + 8 + 1 + 8;
    let mut reordered = checkpoint.clone();
    let records_end = manifest + 2 * record_bytes;
    let (prefix, remainder) = reordered.split_at_mut(manifest);
    let _ = prefix;
    let (records, _) = remainder.split_at_mut(2 * record_bytes);
    let (first, second) = records.split_at_mut(record_bytes);
    first.swap_with_slice(second);
    let mut hasher = blake3::Hasher::new();
    hasher.update(CHECKPOINT_DOMAIN);
    hasher.update(&reordered[..records_end]);
    let digest = hasher.finalize();
    reordered[records_end..records_end + 32].copy_from_slice(digest.as_bytes());
    assert!(matches!(
        ActivationCacheBuilder::from_checkpoint(&reordered),
        Err(ActivationCacheError::NonCanonicalChunkOrder { .. })
    ));
}

#[test]
fn failed_merge_is_atomic_and_successful_merge_preserves_canonical_order() {
    let spec = spec(ActivationDType::Float32, 6, 1, 2);
    let mut left = ActivationCacheBuilder::new(spec.clone());
    left.ingest(chunk(
        &spec,
        0,
        3,
        vec![1.0, 2.0, 3.0],
        vec![true; 3],
        vec![3],
    ))
    .expect("left");
    let before = left.encode_checkpoint().expect("before failed merge");
    let mut overlap = ActivationCacheBuilder::new(spec.clone());
    overlap
        .ingest(chunk(&spec, 2, 2, vec![3.0, 4.0], vec![true; 2], vec![4]))
        .expect("overlap");
    assert!(matches!(
        left.merge(overlap),
        Err(ActivationCacheError::OverlappingRange { .. })
    ));
    assert_eq!(
        left.encode_checkpoint().expect("after failed merge"),
        before
    );

    let mut right = ActivationCacheBuilder::new(spec.clone());
    right
        .ingest(chunk(
            &spec,
            3,
            3,
            vec![4.0, 5.0, 6.0],
            vec![true; 3],
            vec![6],
        ))
        .expect("right");
    left.merge(right).expect("non-overlapping merge");
    assert_eq!(left.covered_tokens(), 6);
    assert!(left.missing_ranges().is_empty());
    assert_eq!(
        left.finalize().expect("final cache").sequence_ends(),
        &[3, 6]
    );
}

#[test]
fn bounded_final_reader_can_verify_expected_identity_without_a_second_copy() {
    let original = finalized_cache();
    let reopened = read_cache_verified(
        original.encoded(),
        original.byte_ledger().encoded_bytes(),
        original.digest(),
    )
    .expect("verified bounded reopen");
    assert_eq!(reopened, original);
    assert!(matches!(
        read_cache_verified(
            original.encoded(),
            original.byte_ledger().encoded_bytes(),
            digest(55),
        ),
        Err(ActivationCacheError::DigestMismatch { .. })
    ));
}
