use half::{bf16, f16};
use tritium_quantize::activation_builder::ActivationCacheBuilder;
use tritium_quantize::activation_cache::ActivationCache;
use tritium_quantize::activation_chunk::ActivationChunk;
use tritium_quantize::activation_decode::BoundedInput;
use tritium_quantize::activation_scalar::{
    pack_mask, to_bfloat16, to_binary16, unpack_mask, validate_canonical_mask,
};
use tritium_quantize::activation_schema::{
    ActivationCacheError, ActivationCacheSpec, ActivationDType, ActivationDigest,
};

const NAME: &str = "blök.7";

fn spec(name: &str, tokens: u64, shard_tokens: u32) -> Result<ActivationCacheSpec, ActivationCacheError> {
    ActivationCacheSpec::new(
        7,
        name,
        tokens,
        1,
        ActivationDType::Float32,
        ActivationDigest::from_bytes([9; 32]),
        shard_tokens,
    )
}

fn builder() -> ActivationCacheBuilder {
    let spec = spec(NAME, 4, 3).expect("spec");
    let values = [1.0_f32, -2.0, 0.5, 4.0]
        .iter()
        .map(|value| value.to_bits())
        .collect();
    let chunk = ActivationChunk::new(&spec, 0, 4, values, vec![true, false, true, true], vec![2, 4])
        .expect("chunk");
    let mut builder = ActivationCacheBuilder::new(spec);
    builder.ingest(chunk).expect("ingest");
    builder
}

fn cache() -> ActivationCache {
    builder().finalize().expect("finalize")
}

/// The error of reopening the cache with some bytes replaced.
fn refused(at: usize, bytes: &[u8]) -> ActivationCacheError {
    let mut altered = cache().encoded().to_vec();
    altered[at..at + bytes.len()].copy_from_slice(bytes);
    ActivationCache::from_encoded(&altered).expect_err("altered cache")
}

fn first_shard() -> usize {
    cache().shards()[0].encoded_offset() as usize
}

#[test]
fn scalar_rounding_agrees_with_the_half_types() {
    let mut pattern = 1_u32;
    for round in 0..200_000_u32 {
        pattern = pattern.wrapping_mul(1_664_525).wrapping_add(1_013_904_223);
        let bits = if round % 2 == 0 {
            pattern
        } else {
            // Exponents around the binary16 range.
            (pattern & 0x807f_ffff) | ((100 + round % 45) << 23)
        };
        let value = f32::from_bits(bits);
        if value.is_finite() {
            assert_eq!(to_binary16(bits), f16::from_f32(value).to_bits());
            assert_eq!(to_bfloat16(bits), bf16::from_f32(value).to_bits());
        }
    }
    for value in [0.0_f32, -0.0, 65_504.0, 65_519.0, 65_520.0, 6e-8, 2.9e-8, 1.0, -1.5] {
        assert_eq!(to_binary16(value.to_bits()), f16::from_f32(value).to_bits());
    }
}

#[test]
fn masks_pack_low_bits_first_and_reject_padding() {
    let mask = [
        true, false, false, true, true, false, false, false, true, true,
    ];
    let packed = pack_mask(&mask, 0, 10);
    assert_eq!(packed, vec![0b0001_1001, 0b0000_0011]);
    assert_eq!(unpack_mask(&packed, 10), mask);
    assert_eq!(pack_mask(&mask, 3, 5), vec![0b11]);
    assert!(validate_canonical_mask(&packed, 10, 2).is_ok());
    assert_eq!(
        validate_canonical_mask(&[0, 0b100], 10, 2),
        Err(ActivationCacheError::NonCanonicalMask { index: 2 })
    );
}

#[test]
fn every_header_field_is_checked() {
    assert_eq!(
        refused(0, b"S2AX"),
        ActivationCacheError::InvalidCacheMagic { got: *b"S2AX" }
    );
    assert_eq!(
        refused(4, &2_u16.to_le_bytes()),
        ActivationCacheError::UnsupportedCacheVersion { got: 2 }
    );
    assert_eq!(
        refused(6, &[9]),
        ActivationCacheError::InvalidDTypeCode { got: 9 }
    );
    assert_eq!(
        refused(7, &[3]),
        ActivationCacheError::NonZeroReservedByte { got: 3 }
    );
    assert_eq!(
        refused(32, &[0; 32]),
        ActivationCacheError::MissingSourceDigest
    );
    // Breaking the two-byte character of the name leaves bytes that are not text.
    assert_eq!(
        refused(70, &[0xff]),
        ActivationCacheError::InvalidTensorNameUtf8
    );
    assert_eq!(refused(68, &[0]), ActivationCacheError::InvalidTensorName);
    assert_eq!(
        refused(68 + NAME.len(), &7_u32.to_le_bytes()),
        ActivationCacheError::ShardCountMismatch { expected: 2, got: 7 }
    );
    assert_eq!(cache().spec().tensor_name(), NAME);
}

#[test]
fn every_shard_field_is_checked() {
    let start = first_shard();
    assert_eq!(
        refused(start, &1_u32.to_le_bytes()),
        ActivationCacheError::ShardIndexMismatch { expected: 0, got: 1 }
    );
    assert_eq!(
        refused(start + 12, &2_u32.to_le_bytes()),
        ActivationCacheError::ShardRangeMismatch {
            index: 0,
            expected_start: 0,
            got_start: 0,
            expected_count: 3,
            got_count: 2,
        }
    );
    assert_eq!(
        refused(start + 16, &8_u64.to_le_bytes()),
        ActivationCacheError::ShardLengthMismatch {
            index: 0,
            component: "value",
            expected: 12,
            got: 8,
        }
    );
    assert_eq!(
        refused(start + 24, &2_u32.to_le_bytes()),
        ActivationCacheError::ShardLengthMismatch {
            index: 0,
            component: "mask",
            expected: 1,
            got: 2,
        }
    );
    assert_eq!(
        refused(start + 32, &f32::INFINITY.to_bits().to_le_bytes()),
        ActivationCacheError::NonFiniteEncodedValue { index: 0 }
    );
    assert_eq!(
        refused(start + 44, &[0b1000]),
        ActivationCacheError::NonCanonicalMask { index: 0 }
    );
    assert!(matches!(
        refused(start + 45, &9_u64.to_le_bytes()),
        ActivationCacheError::InvalidBoundary { boundary: 9, .. }
    ));
}

#[test]
fn truncated_and_trailing_bytes_are_refused() {
    let encoded = cache().encoded().to_vec();
    for length in 0..encoded.len() {
        assert!(ActivationCache::from_encoded(&encoded[..length]).is_err());
    }
    let mut trailing = encoded.clone();
    trailing.extend([0, 0]);
    assert_eq!(
        ActivationCache::from_encoded(&trailing),
        Err(ActivationCacheError::TrailingBytes { count: 2 })
    );
    assert_eq!(
        ActivationCache::from_encoded(&encoded[..3]),
        Err(ActivationCacheError::TruncatedEncoding {
            context: "cache magic",
            needed: 4,
            remaining: 3,
        })
    );
}

#[test]
fn identities_are_domain_separated_hashes() {
    let cache = cache();
    let mut hasher = blake3::Hasher::new();
    hasher.update(b"tritium salt v2 activation cache v1\0");
    hasher.update(cache.encoded());
    assert_eq!(cache.digest().as_bytes(), hasher.finalize().as_bytes());
    let shard = cache.encoded_shard(1).expect("second shard");
    let mut hasher = blake3::Hasher::new();
    hasher.update(b"tritium salt v2 activation shard v1\0");
    hasher.update(cache.spec().schema_digest().as_bytes());
    hasher.update(shard);
    let digest = cache.shards()[1].digest();
    assert_eq!(digest.as_bytes(), hasher.finalize().as_bytes());
    assert!(cache.encoded_shard(2).is_none());
    assert_eq!(
        ActivationDigest::from_bytes([0xa5; 32]).to_text(),
        "a5".repeat(32)
    );
}

#[test]
fn specifications_are_validated() {
    assert_eq!(spec("", 4, 3), Err(ActivationCacheError::InvalidTensorName));
    assert_eq!(
        spec(" \t", 4, 3),
        Err(ActivationCacheError::InvalidTensorName)
    );
    assert_eq!(
        spec("a\0b", 4, 3),
        Err(ActivationCacheError::InvalidTensorName)
    );
    assert!(matches!(
        spec(NAME, 0, 3),
        Err(ActivationCacheError::ZeroDimension { .. })
    ));
    assert!(matches!(
        spec(NAME, 4, 0),
        Err(ActivationCacheError::ZeroDimension { .. })
    ));
    assert!(matches!(
        spec(NAME, 1 << 33, 1),
        Err(ActivationCacheError::TooManyShards { .. })
    ));
    let fine = spec(NAME, 4, 3).expect("spec");
    assert_eq!(fine.shard_count(), 2);
    assert!(fine.same(&fine.duplicate()));
}

#[test]
fn checkpoint_fields_are_checked() {
    let (checkpoint, digest) = builder().encode_checkpoint().expect("checkpoint");
    let reopened =
        ActivationCacheBuilder::from_checkpoint_verified(&checkpoint, digest).expect("reopen");
    assert_eq!(reopened.covered_tokens(), 4);
    let altered = |at: usize, byte: u8| {
        let mut bytes = checkpoint.clone();
        bytes[at] ^= byte;
        let body = bytes.len() - 32;
        let mut hasher = blake3::Hasher::new();
        hasher.update(b"tritium salt v2 activation checkpoint v1\0");
        hasher.update(&bytes[..body]);
        bytes[body..].copy_from_slice(hasher.finalize().as_bytes());
        ActivationCacheBuilder::from_checkpoint(&bytes).expect_err("altered checkpoint")
    };
    assert!(matches!(
        altered(0, 1),
        ActivationCacheError::InvalidCheckpointMagic { .. }
    ));
    assert!(matches!(
        altered(4, 2),
        ActivationCacheError::UnsupportedCheckpointVersion { got: 3 }
    ));
    let mut flipped = checkpoint.clone();
    let last = flipped.len() - 1;
    flipped[last] ^= 1;
    assert!(matches!(
        ActivationCacheBuilder::from_checkpoint(&flipped),
        Err(ActivationCacheError::DigestMismatch { .. })
    ));
}

#[test]
fn gaps_and_missing_ranges_agree() {
    let spec = spec(NAME, 4, 3).expect("spec");
    let chunk = |start: u64, ends: Vec<u64>| {
        ActivationChunk::new(&spec, start, 1, vec![0], vec![true], ends).expect("chunk")
    };
    let mut sparse = ActivationCacheBuilder::new(spec.duplicate());
    assert_eq!(sparse.missing_ranges(), vec![0..4]);
    sparse.ingest(chunk(2, vec![])).expect("middle");
    sparse.ingest(chunk(0, vec![])).expect("head");
    assert_eq!(sparse.missing_ranges(), vec![1..2, 3..4]);
    assert_eq!(sparse.chunks()[0].token_start(), 0);
    assert_eq!(
        sparse.finalize(),
        Err(ActivationCacheError::Gap {
            expected_start: 1,
            next_start: Some(2),
        })
    );
    let mut head = ActivationCacheBuilder::new(spec.duplicate());
    head.ingest(chunk(0, vec![1])).expect("head");
    assert_eq!(
        head.finalize(),
        Err(ActivationCacheError::Gap {
            expected_start: 1,
            next_start: None,
        })
    );
    assert_eq!(
        ActivationChunk::new(&spec, 0, 0, vec![], vec![], vec![]),
        Err(ActivationCacheError::EmptyChunk)
    );
}

#[test]
fn bounded_input_keeps_its_contents_when_refusing() {
    let mut input = BoundedInput::new(4);
    input.push(&[1, 2, 3]).expect("within the bound");
    assert_eq!(
        input.push(&[4, 5]),
        Err(ActivationCacheError::EncodedSizeLimitExceeded { limit: 4 })
    );
    input.push(&[4]).expect("exactly the bound");
    assert_eq!(input.into_bytes(), vec![1, 2, 3, 4]);
}
