//! Reopening canonical activation caches.

use crate::activation_cache::{
    hash_cache, hash_shard, reserve_bytes, shard_views, total_mask_bytes, ActivationCache,
    ActivationShard,
};
use crate::activation_chunk::{
    check_ends, ends_error, ends_valid, lemma_ends_error, lemma_stored_ends_len, lemma_token_bytes,
    reserved, stored_ends,
};
use crate::activation_content::{
    cache_digest, entry, lemma_ends_through, lemma_ends_through_is, lemma_finite_concat,
    lemma_finite_part, lemma_record_len, lemma_records_len, lemma_shard_ends, lemma_shard_range,
    lemma_size, masks_len, record, ActivationByteLedger, CacheContent, CacheView, ShardView,
};
use crate::activation_manifest::{
    digest_of, lemma_digest_of, lemma_manifest_len, manifest, manifest_end, manifest_error,
    manifest_is_canonical, manifest_round_trip, need, read_manifest, read_schema, truncated,
    ManifestKind,
};
use crate::activation_scalar::{
    bytes_finite, encoded_error, lemma_first_nonfinite, mask_bytes, mask_canonical,
    mask_is_canonical, mask_round_trip, packed_mask, unpacked_mask, validate_canonical_mask,
    validate_encoded_values,
};
use crate::activation_schema::{
    checked_add, ActivationCacheError, ActivationCacheSpec, ActivationDigest, SchemaView,
};
use crate::wire::{
    le, le_at, le_is_canonical, le_round_trip, lemma_le_len, lemma_le_limits, lemma_window,
    push_bytes, read_le, window,
};
use vstd::prelude::*;

verus! {

/// The sequence ends held by `count` eight-byte fields from `at` on.
pub open spec fn read_ends(bytes: Seq<u8>, at: int, count: nat) -> Seq<u64> {
    Seq::new(count, |k: int| le_at(bytes, at + 8 * k, 8) as u64)
}

/// Sequence ends that a shard record declares.
pub open spec fn declared_ends(bytes: Seq<u8>, offset: int) -> nat {
    le_at(bytes, offset + 28, 4)
}

/// Scalar bytes of a shard.
pub open spec fn value_len(schema: SchemaView, index: nat) -> nat {
    schema.shard_count_at(index) * schema.row_bytes()
}

/// Mask bytes of a shard.
pub open spec fn mask_len(schema: SchemaView, index: nat) -> nat {
    mask_bytes(schema.shard_count_at(index))
}

/// Length of the shard record at `offset`.
pub open spec fn record_len(bytes: Seq<u8>, schema: SchemaView, index: nat, offset: int) -> nat {
    32 + value_len(schema, index) + mask_len(schema, index) + 8 * declared_ends(bytes, offset)
}

/// Scalar bytes of the shard record at `offset`.
pub open spec fn record_values(bytes: Seq<u8>, schema: SchemaView, index: nat, offset: int) -> Seq<
    u8,
> {
    bytes.subrange(offset + 32, offset + 32 + value_len(schema, index))
}

/// Packed mask of the shard record at `offset`.
pub open spec fn record_mask(bytes: Seq<u8>, schema: SchemaView, index: nat, offset: int) -> Seq<
    u8,
> {
    let start = offset + 32 + value_len(schema, index);
    bytes.subrange(start, start + mask_len(schema, index))
}

/// Sequence ends of the shard record at `offset`.
pub open spec fn record_ends(bytes: Seq<u8>, schema: SchemaView, index: nat, offset: int) -> Seq<
    u64,
> {
    read_ends(
        bytes,
        offset + 32 + value_len(schema, index) + mask_len(schema, index),
        declared_ends(bytes, offset),
    )
}

/// The reason why no header of the shard can be read at `offset`, if there is one.
pub open spec fn header_error(bytes: Seq<u8>, schema: SchemaView, index: nat, offset: int) -> Option<
    ActivationCacheError,
> {
    let start = schema.shard_start(index);
    let count = schema.shard_count_at(index);
    if bytes.len() < offset + 4 {
        Some(truncated(bytes, offset, 4, "shard index"))
    } else if le_at(bytes, offset, 4) != index {
        Some(
            ActivationCacheError::ShardIndexMismatch {
                expected: index as u32,
                got: le_at(bytes, offset, 4) as u32,
            },
        )
    } else if bytes.len() < offset + 12 {
        Some(truncated(bytes, offset + 4, 8, "shard token start"))
    } else if bytes.len() < offset + 16 {
        Some(truncated(bytes, offset + 12, 4, "shard token count"))
    } else if bytes.len() < offset + 24 {
        Some(truncated(bytes, offset + 16, 8, "shard value bytes"))
    } else if bytes.len() < offset + 28 {
        Some(truncated(bytes, offset + 24, 4, "shard mask bytes"))
    } else if bytes.len() < offset + 32 {
        Some(truncated(bytes, offset + 28, 4, "shard boundary count"))
    } else if le_at(bytes, offset + 4, 8) != start || le_at(bytes, offset + 12, 4) != count {
        Some(
            ActivationCacheError::ShardRangeMismatch {
                index: index as u32,
                expected_start: start as u64,
                got_start: le_at(bytes, offset + 4, 8) as u64,
                expected_count: count as u32,
                got_count: le_at(bytes, offset + 12, 4) as u32,
            },
        )
    } else if le_at(bytes, offset + 16, 8) != value_len(schema, index) {
        Some(
            ActivationCacheError::ShardLengthMismatch {
                index: index as u32,
                component: "value",
                expected: value_len(schema, index) as u64,
                got: le_at(bytes, offset + 16, 8) as u64,
            },
        )
    } else if le_at(bytes, offset + 24, 4) != mask_len(schema, index) {
        Some(
            ActivationCacheError::ShardLengthMismatch {
                index: index as u32,
                component: "mask",
                expected: mask_len(schema, index) as u64,
                got: le_at(bytes, offset + 24, 4) as u64,
            },
        )
    } else if declared_ends(bytes, offset) > count {
        Some(
            ActivationCacheError::ShardLengthMismatch {
                index: index as u32,
                component: "boundary count",
                expected: count as u64,
                got: declared_ends(bytes, offset) as u64,
            },
        )
    } else {
        None
    }
}

/// The reason why no payload of the shard can be read at `offset`, if there is one.
pub open spec fn payload_error(
    bytes: Seq<u8>,
    schema: SchemaView,
    index: nat,
    offset: int,
) -> Option<ActivationCacheError> {
    let start = schema.shard_start(index);
    let count = schema.shard_count_at(index);
    let fixed = value_len(schema, index) + mask_len(schema, index);
    let payload = fixed + 8 * declared_ends(bytes, offset);
    if fixed > u64::MAX {
        Some(
            ActivationCacheError::ArithmeticOverflow { context: "decoded shard values and mask" },
        )
    } else if payload > u64::MAX {
        Some(ActivationCacheError::ArithmeticOverflow { context: "decoded shard payload" })
    } else if payload > bytes.len() - (offset + 32) {
        Some(truncated(bytes, offset + 32, payload as int, "shard payload"))
    } else if encoded_error(
        schema.dtype,
        record_values(bytes, schema, index, offset),
        start * schema.feature_width as nat,
    ) is Some {
        encoded_error(
            schema.dtype,
            record_values(bytes, schema, index, offset),
            start * schema.feature_width as nat,
        )
    } else if !mask_canonical(record_mask(bytes, schema, index, offset), count) {
        Some(ActivationCacheError::NonCanonicalMask { index: index as u32 })
    } else {
        ends_error(
            record_ends(bytes, schema, index, offset),
            start as u64,
            (start + count) as u64,
            0,
        )
    }
}

/// The reason why no shard record can be read at `offset`, if there is one.
pub open spec fn shard_error(bytes: Seq<u8>, schema: SchemaView, index: nat, offset: int) -> Option<
    ActivationCacheError,
> {
    if header_error(bytes, schema, index, offset) is Some {
        header_error(bytes, schema, index, offset)
    } else {
        payload_error(bytes, schema, index, offset)
    }
}

/// The entry of the shard record at `offset`.
pub open spec fn read_entry(bytes: Seq<u8>, schema: SchemaView, index: nat, offset: int) -> ShardView {
    entry(
        schema,
        index,
        offset as nat,
        record_ends(bytes, schema, index, offset),
        bytes.subrange(offset, offset + record_len(bytes, schema, index, offset)),
    )
}

/// The shards from `index` on read one after the other from `offset` on, behind what was read
/// before: their entries, all sequence ends, and where the last record ends.
pub open spec fn scan(
    bytes: Seq<u8>,
    schema: SchemaView,
    index: nat,
    offset: int,
    shards: Seq<ShardView>,
    ends: Seq<u64>,
) -> Result<(Seq<ShardView>, Seq<u64>, int), ActivationCacheError>
    decreases schema.shards() - index,
{
    if index >= schema.shards() {
        Ok((shards, ends, offset))
    } else {
        match shard_error(bytes, schema, index, offset) {
            Some(error) => Err(error),
            None => scan(
                bytes,
                schema,
                index + 1,
                offset + record_len(bytes, schema, index, offset),
                shards.push(read_entry(bytes, schema, index, offset)),
                ends + record_ends(bytes, schema, index, offset),
            ),
        }
    }
}

/// The reason why bytes do not start with a cache manifest and room for its shards, if there is
/// one.
pub open spec fn front_error(bytes: Seq<u8>) -> Option<ActivationCacheError> {
    let schema = read_schema(bytes);
    let at = manifest_end(bytes);
    if manifest_error(ManifestKind::Cache, bytes) is Some {
        manifest_error(ManifestKind::Cache, bytes)
    } else if bytes.len() < at + 4 {
        Some(truncated(bytes, at, 4, "shard count"))
    } else if schema.error() is Some {
        schema.error()
    } else if le_at(bytes, at, 4) != schema.shards() {
        Some(
            ActivationCacheError::ShardCountMismatch {
                expected: schema.shards() as u32,
                got: le_at(bytes, at, 4) as u32,
            },
        )
    } else if 32 * schema.shards() > bytes.len() - (at + 4) {
        Some(truncated(bytes, at + 4, 32 * schema.shards() as int, "shard headers"))
    } else {
        None
    }
}

/// What reopening bytes gives when their digest has to be `expected`, if that is given.
pub open spec fn opened(bytes: Seq<u8>, expected: Option<Seq<u8>>) -> Result<
    CacheView,
    ActivationCacheError,
> {
    let schema = read_schema(bytes);
    match front_error(bytes) {
        Some(error) => Err(error),
        None => match scan(
            bytes,
            schema,
            0,
            manifest_end(bytes) + 4,
            Seq::empty(),
            Seq::empty(),
        ) {
            Err(error) => Err(error),
            Ok((shards, ends, end)) => if end != bytes.len() {
                Err(ActivationCacheError::TrailingBytes { count: (bytes.len() - end) as u64 })
            } else if ends.len() == 0 || ends.last() != schema.total_tokens {
                Err(
                    ActivationCacheError::MissingTerminalBoundary {
                        total_tokens: schema.total_tokens,
                    },
                )
            } else if expected is Some && expected->0 != cache_digest(bytes) {
                Err(
                    ActivationCacheError::DigestMismatch {
                        expected: digest_of(expected->0),
                        got: digest_of(cache_digest(bytes)),
                    },
                )
            } else {
                Ok(
                    CacheView {
                        schema,
                        encoded: bytes,
                        digest: cache_digest(bytes),
                        shards,
                        ends,
                        ledger: ActivationByteLedger {
                            manifest_bytes: (manifest_end(bytes) + 4) as u64,
                            shard_header_bytes: (32 * schema.shards()) as u64,
                            value_bytes: (schema.total_tokens as nat * schema.row_bytes()) as u64,
                            mask_bytes: masks_len(schema, schema.shards()) as u64,
                            boundary_bytes: (8 * ends.len()) as u64,
                            encoded_bytes: bytes.len() as u64,
                        },
                    },
                )
            },
        },
    }
}

proof fn lemma_stored_end_at(ends: Seq<u64>, index: int)
    requires
        0 <= index < ends.len(),
    ensures
        stored_ends(ends).len() == 8 * ends.len(),
        stored_ends(ends).subrange(8 * index, 8 * index + 8) == le(ends[index] as nat, 8),
    decreases ends.len(),
{
    broadcast use lemma_le_len;

    let front = ends.drop_last();
    lemma_stored_ends_len(ends);
    lemma_stored_ends_len(front);
    if index < front.len() {
        lemma_stored_end_at(front, index);
        assert(stored_ends(ends).subrange(8 * index, 8 * index + 8) =~= stored_ends(
            front,
        ).subrange(8 * index, 8 * index + 8));
        assert(front[index] == ends[index]);
    } else {
        assert(stored_ends(ends).subrange(8 * index, 8 * index + 8) =~= le(
            ends.last() as nat,
            8,
        ));
    }
}

/// Reading stored sequence ends gives them back.
pub proof fn ends_round_trip(bytes: Seq<u8>, at: int, ends: Seq<u64>)
    requires
        0 <= at,
        at + 8 * ends.len() <= bytes.len(),
        bytes.subrange(at, at + 8 * ends.len()) == stored_ends(ends),
    ensures
        read_ends(bytes, at, ends.len()) == ends,
{
    lemma_le_limits();
    assert forall|k: int| 0 <= k < ends.len() implies #[trigger] read_ends(
        bytes,
        at,
        ends.len(),
    )[k] == ends[k] by {
        lemma_stored_end_at(ends, k);
        let part = bytes.subrange(at, at + 8 * ends.len());
        assert(bytes.subrange(at + 8 * k, at + 8 * k + 8) =~= part.subrange(8 * k, 8 * k + 8));
        le_round_trip(ends[k] as nat, 8);
    }
    assert(read_ends(bytes, at, ends.len()) =~= ends);
}

/// Stored fields are the canonical bytes of the sequence ends that they hold.
pub proof fn ends_are_canonical(bytes: Seq<u8>, at: int, count: nat)
    requires
        0 <= at,
        at + 8 * count <= bytes.len(),
    ensures
        stored_ends(read_ends(bytes, at, count)) == bytes.subrange(at, at + 8 * count),
    decreases count,
{
    broadcast use lemma_le_len;

    let ends = read_ends(bytes, at, count);
    if count == 0 {
        assert(stored_ends(ends) =~= bytes.subrange(at, at));
    } else {
        let less = (count - 1) as nat;
        ends_are_canonical(bytes, at, less);
        assert(ends.drop_last() =~= read_ends(bytes, at, less));
        let last = bytes.subrange(at + 8 * less, at + 8 * less + 8);
        lemma_le_limits();
        le_is_canonical(last);
        assert(le(ends.last() as nat, 8) == last);
        assert(bytes.subrange(at, at + 8 * count) =~= bytes.subrange(at, at + 8 * less) + last);
    }
}

/// Where the parts of a canonical shard record lie.
proof fn lemma_record_fields(
    schema: SchemaView,
    index: nat,
    values: Seq<u8>,
    mask: Seq<bool>,
    ends: Seq<u64>,
)
    ensures
        ({
            let whole = record(schema, index, values, mask, ends);
            let fixed = 32 + values.len() as int;
            let at = fixed + packed_mask(mask).len();
            &&& whole.len() == at + 8 * ends.len()
            &&& whole.subrange(0, 4) == le(index, 4)
            &&& whole.subrange(4, 12) == le(schema.shard_start(index), 8)
            &&& whole.subrange(12, 16) == le(schema.shard_count_at(index), 4)
            &&& whole.subrange(16, 24) == le(values.len(), 8)
            &&& whole.subrange(24, 28) == le(mask_bytes(mask.len()), 4)
            &&& whole.subrange(28, 32) == le(ends.len(), 4)
            &&& whole.subrange(32, fixed) == values
            &&& whole.subrange(fixed, at) == packed_mask(mask)
            &&& whole.subrange(at, whole.len() as int) == stored_ends(ends)
        }),
{
    broadcast use lemma_le_len;

    lemma_stored_ends_len(ends);
    let whole = record(schema, index, values, mask, ends);
    let packed = packed_mask(mask);
    let fixed = 32 + values.len() as int;
    let at = fixed + packed.len();
    assert(whole.subrange(0, 4) =~= le(index, 4));
    assert(whole.subrange(4, 12) =~= le(schema.shard_start(index), 8));
    assert(whole.subrange(12, 16) =~= le(schema.shard_count_at(index), 4));
    assert(whole.subrange(16, 24) =~= le(values.len(), 8));
    assert(whole.subrange(24, 28) =~= le(mask_bytes(mask.len()), 4));
    assert(whole.subrange(28, 32) =~= le(ends.len(), 4));
    assert(whole.subrange(32, fixed) =~= values);
    assert(whole.subrange(fixed, at) =~= packed);
    assert(whole.subrange(at, whole.len() as int) =~= stored_ends(ends));
}

/// A canonical shard record reads back without an error.
pub proof fn record_round_trip(
    bytes: Seq<u8>,
    schema: SchemaView,
    index: nat,
    offset: int,
    values: Seq<u8>,
    mask: Seq<bool>,
    ends: Seq<u64>,
)
    requires
        schema.valid(),
        index < schema.shards(),
        values.len() == value_len(schema, index),
        bytes_finite(schema.dtype, values),
        mask.len() == schema.shard_count_at(index),
        ends.len() <= schema.shard_count_at(index),
        ends_valid(
            ends,
            schema.shard_start(index) as int,
            schema.shard_start(index) + schema.shard_count_at(index) as int,
        ),
        0 <= offset,
        bytes.len() <= u64::MAX,
        offset + record(schema, index, values, mask, ends).len() <= bytes.len(),
        bytes.subrange(offset, offset + record(schema, index, values, mask, ends).len()) == record(
            schema,
            index,
            values,
            mask,
            ends,
        ),
    ensures
        shard_error(bytes, schema, index, offset) is None,
        record_len(bytes, schema, index, offset) == record(schema, index, values, mask, ends).len(),
        record_ends(bytes, schema, index, offset) == ends,
{
    broadcast use lemma_le_len;

    lemma_le_limits();
    lemma_shard_range(schema, index);
    lemma_stored_ends_len(ends);
    let whole = record(schema, index, values, mask, ends);
    let start = schema.shard_start(index);
    let count = schema.shard_count_at(index);
    lemma_token_bytes(schema, count);
    let fixed = 32 + values.len() as int;
    let packed = packed_mask(mask);
    let at = fixed + packed.len();
    lemma_record_fields(schema, index, values, mask, ends);
    lemma_window(bytes, offset, whole, 0, 4);
    lemma_window(bytes, offset, whole, 4, 12);
    lemma_window(bytes, offset, whole, 12, 16);
    lemma_window(bytes, offset, whole, 16, 24);
    lemma_window(bytes, offset, whole, 24, 28);
    lemma_window(bytes, offset, whole, 28, 32);
    lemma_window(bytes, offset, whole, 32, fixed);
    lemma_window(bytes, offset, whole, fixed, at);
    lemma_window(bytes, offset, whole, at, whole.len() as int);
    le_round_trip(index, 4);
    le_round_trip(start, 8);
    le_round_trip(count, 4);
    le_round_trip(values.len(), 8);
    le_round_trip(mask_bytes(mask.len()), 4);
    le_round_trip(ends.len(), 4);
    assert(record_values(bytes, schema, index, offset) == values);
    assert(record_mask(bytes, schema, index, offset) == packed);
    lemma_first_nonfinite(schema.dtype, values, 0);
    mask_round_trip(mask);
    ends_round_trip(bytes, offset + at, ends);
    assert(ends.take(0) =~= Seq::empty());
    lemma_ends_error(ends, start as u64, (start + count) as u64, 0);
}

/// What reads as a shard record is the canonical record of the parts it holds.
pub proof fn record_is_canonical(bytes: Seq<u8>, schema: SchemaView, index: nat, offset: int)
    requires
        schema.valid(),
        index < schema.shards(),
        0 <= offset,
        shard_error(bytes, schema, index, offset) is None,
    ensures
        offset + record_len(bytes, schema, index, offset) <= bytes.len(),
        ({
            let count = schema.shard_count_at(index);
            let values = record_values(bytes, schema, index, offset);
            let mask = unpacked_mask(record_mask(bytes, schema, index, offset), count);
            let ends = record_ends(bytes, schema, index, offset);
            &&& bytes.subrange(offset, offset + record_len(bytes, schema, index, offset)) == record(
                schema,
                index,
                values,
                mask,
                ends,
            )
            &&& values.len() == value_len(schema, index)
            &&& bytes_finite(schema.dtype, values)
            &&& mask.len() == count
            &&& ends_valid(
                ends,
                schema.shard_start(index) as int,
                schema.shard_start(index) + count as int,
            )
        }),
{
    broadcast use lemma_le_len;

    lemma_le_limits();
    lemma_shard_range(schema, index);
    let start = schema.shard_start(index);
    let count = schema.shard_count_at(index);
    lemma_token_bytes(schema, count);
    let values = record_values(bytes, schema, index, offset);
    let packed = record_mask(bytes, schema, index, offset);
    let mask = unpacked_mask(packed, count);
    let ends = record_ends(bytes, schema, index, offset);
    let at = offset + 32 + value_len(schema, index) + mask_len(schema, index);
    le_is_canonical(bytes.subrange(offset, offset + 4));
    le_is_canonical(bytes.subrange(offset + 4, offset + 4 + 8));
    le_is_canonical(bytes.subrange(offset + 12, offset + 12 + 4));
    le_is_canonical(bytes.subrange(offset + 16, offset + 16 + 8));
    le_is_canonical(bytes.subrange(offset + 24, offset + 24 + 4));
    le_is_canonical(bytes.subrange(offset + 28, offset + 28 + 4));
    assert(values.len() == value_len(schema, index));
    assert(packed.len() == mask_len(schema, index));
    mask_is_canonical(packed, count);
    ends_are_canonical(bytes, at, declared_ends(bytes, offset));
    lemma_first_nonfinite(schema.dtype, values, 0);
    assert(ends.take(0) =~= Seq::empty());
    lemma_ends_error(ends, start as u64, (start + count) as u64, 0);
    assert(mask.len() == count);
    assert(ends.len() == declared_ends(bytes, offset));
    let end = offset + record_len(bytes, schema, index, offset);
    assert(bytes.subrange(offset, end) =~= bytes.subrange(offset, offset + 4) + bytes.subrange(
        offset + 4,
        offset + 4 + 8,
    ) + bytes.subrange(offset + 12, offset + 12 + 4) + bytes.subrange(
        offset + 16,
        offset + 16 + 8,
    ) + bytes.subrange(offset + 24, offset + 24 + 4) + bytes.subrange(
        offset + 28,
        offset + 28 + 4,
    ) + values + packed + bytes.subrange(at, at + 8 * declared_ends(bytes, offset)));
}

/// The record of a shard reads back from the canonical artifact.
proof fn lemma_scan_step(content: CacheContent, index: nat)
    requires
        content.valid(),
        content.size() <= u64::MAX,
        index < content.schema.shards(),
    ensures
        ({
            let bytes = content.encoded();
            let schema = content.schema;
            let offset = (content.head().len() + content.records(index).len()) as int;
            &&& shard_error(bytes, schema, index, offset) is None
            &&& record_len(bytes, schema, index, offset) == content.shard_record(index).len()
            &&& record_ends(bytes, schema, index, offset) == content.shard_ends(index)
            &&& read_entry(bytes, schema, index, offset) == entry(
                schema,
                index,
                offset as nat,
                content.shard_ends(index),
                content.shard_record(index),
            )
        }),
{
    let schema = content.schema;
    let bytes = content.encoded();
    lemma_size(content);
    let offset = (content.head().len() + content.records(index).len()) as int;
    lemma_shard_range(schema, index);
    lemma_shard_ends(content, index);
    lemma_record_len(content, index);
    lemma_record_window(content, index);
    let start = schema.shard_start(index);
    let count = schema.shard_count_at(index);
    let features = schema.feature_width as nat;
    let width = schema.dtype.width();
    let row = schema.row_bytes();
    assert(start * row == (start * features) * width) by (nonlinear_arith)
        requires
            row == features * width,
    ;
    assert((start + count) * row == ((start + count) * features) * width) by (nonlinear_arith)
        requires
            row == features * width,
    ;
    assert(start * features <= (start + count) * features) by (nonlinear_arith);
    lemma_finite_part(
        schema.dtype,
        content.values,
        start * features,
        (start + count) * features,
    );
    record_round_trip(
        bytes,
        schema,
        index,
        offset,
        content.shard_values(index),
        content.shard_mask(index),
        content.shard_ends(index),
    );
}

/// Reading the shards of a canonical artifact gives its entries and ends.
proof fn lemma_scan_content(content: CacheContent, index: nat)
    requires
        content.valid(),
        content.size() <= u64::MAX,
        index <= content.schema.shards(),
    ensures
        scan(
            content.encoded(),
            content.schema,
            index,
            (content.head().len() + content.records(index).len()) as int,
            content.entries(index),
            content.ends.take(content.cut(index) as int),
        ) == Ok::<(Seq<ShardView>, Seq<u64>, int), ActivationCacheError>(
            (
                content.entries(content.schema.shards()),
                content.ends,
                content.encoded().len() as int,
            ),
        ),
    decreases content.schema.shards() - index,
{
    let schema = content.schema;
    let bytes = content.encoded();
    let shards = schema.shards();
    lemma_size(content);
    lemma_records_len(content, index);
    if index == shards {
        assert(shards > 0);
        lemma_shard_ends(content, (shards - 1) as nat);
        assert(content.ends.take(content.ends.len() as int) =~= content.ends);
    } else {
        lemma_scan_step(content, index);
        lemma_shard_ends(content, index);
        let a = content.cut(index) as int;
        let b = content.cut(index + 1) as int;
        assert(content.ends.take(a) + content.shard_ends(index) =~= content.ends.take(b));
        lemma_scan_content(content, index + 1);
    }
}

/// A shard's record lies in the artifact behind those of the shards before it.
proof fn lemma_record_window(content: CacheContent, index: nat)
    requires
        content.valid(),
        index < content.schema.shards(),
    ensures
        ({
            let offset = (content.head().len() + content.records(index).len()) as int;
            let part = content.shard_record(index);
            &&& offset + part.len() <= content.encoded().len()
            &&& content.encoded().subrange(offset, offset + part.len()) == part
        }),
{
    let shards = content.schema.shards();
    crate::activation_cache::lemma_records_prefix(content, index + 1, shards);
    let offset = (content.head().len() + content.records(index).len()) as int;
    let part = content.shard_record(index);
    let through = content.records(index + 1);
    let all = content.encoded();
    let n = through.len() as int;
    assert(all.subrange(offset, offset + part.len()) =~= part) by {
        assert forall|k: int| 0 <= k < part.len() implies all[offset + k] == part[k] by {
            assert(content.records(shards).subrange(0, n)[content.records(index).len() + k]
                == part[k]);
        }
    }
}

/// The front of a canonical artifact reads back.
proof fn lemma_front(content: CacheContent)
    requires
        content.valid(),
        content.size() <= u64::MAX,
    ensures
        front_error(content.encoded()) is None,
        read_schema(content.encoded()) == content.schema,
        manifest_end(content.encoded()) + 4 == content.head().len(),
{
    broadcast use lemma_le_len;

    let bytes = content.encoded();
    let schema = content.schema;
    let shards = schema.shards();
    let m = manifest(ManifestKind::Cache, schema);
    lemma_size(content);
    lemma_manifest_len(ManifestKind::Cache, schema);
    lemma_records_len(content, shards);
    assert(bytes.subrange(0, m.len() as int) =~= m);
    manifest_round_trip(ManifestKind::Cache, schema, bytes);
    let at = manifest_end(bytes);
    assert(at == m.len());
    assert(bytes.subrange(at, at + 4) =~= le(shards, 4));
    lemma_le_limits();
    le_round_trip(shards, 4);
}

/// Reopening the canonical artifact of any valid content gives the exact same cache, digests
/// and ledger.
pub proof fn reopening_gives_the_same_cache(content: CacheContent)
    requires
        content.valid(),
        content.size() <= u64::MAX,
    ensures
        opened(content.encoded(), None) == Ok::<CacheView, ActivationCacheError>(content.cache()),
        opened(content.encoded(), Some(cache_digest(content.encoded()))) == Ok::<
            CacheView,
            ActivationCacheError,
        >(content.cache()),
{
    lemma_size(content);
    lemma_front(content);
    lemma_scan_content(content, 0);
    lemma_shard_ends(content, 0);
    assert(content.ends.take(0) =~= Seq::<u64>::empty());
    assert(content.entries(0) =~= Seq::<ShardView>::empty());
    assert(content.records(0).len() == 0);
}

/// Some content whose shards before `index` are complete.
spec fn partial(content: CacheContent, index: nat) -> bool {
    let schema = content.schema;
    let tokens = tokens_before(schema, index);
    &&& schema.valid()
    &&& index <= schema.shards()
    &&& content.values.len() == tokens * schema.row_bytes()
    &&& bytes_finite(schema.dtype, content.values)
    &&& content.mask.len() == tokens
    &&& ends_valid(content.ends, 0, tokens as int)
}

/// Tokens of the shards before `index`.
spec fn tokens_before(schema: SchemaView, index: nat) -> nat {
    if index < schema.shards() {
        schema.shard_start(index)
    } else {
        schema.total_tokens as nat
    }
}

/// Some content with one more shard.
spec fn extended(
    content: CacheContent,
    values: Seq<u8>,
    mask: Seq<bool>,
    ends: Seq<u64>,
) -> CacheContent {
    CacheContent {
        schema: content.schema,
        values: content.values + values,
        mask: content.mask + mask,
        ends: content.ends + ends,
    }
}

proof fn lemma_starts_grow(schema: SchemaView, low: nat, high: nat)
    requires
        low <= high,
    ensures
        schema.shard_start(low) <= schema.shard_start(high),
{
    let tokens = schema.shard_tokens as nat;
    assert(low * tokens <= high * tokens) by (nonlinear_arith)
        requires
            low <= high,
    ;
}

/// Adding a shard keeps the cuts up to it.
proof fn lemma_extended_cut(
    content: CacheContent,
    index: nat,
    values: Seq<u8>,
    mask: Seq<bool>,
    ends: Seq<u64>,
    at: nat,
)
    requires
        partial(content, index),
        index < content.schema.shards(),
        at <= index,
        forall|k: int| 0 <= k < ends.len() ==> content.schema.shard_start(index) < #[trigger] ends[k],
    ensures
        extended(content, values, mask, ends).cut(at) == content.cut(at),
        content.cut(at) <= content.ends.len(),
        at == index ==> content.cut(at) == content.ends.len(),
{
    let schema = content.schema;
    let more = extended(content, values, mask, ends);
    let limit = schema.shard_start(at) as int;
    lemma_starts_grow(schema, at, index);
    lemma_ends_through(content.ends, limit, 0);
    let cut = content.cut(at);
    assert forall|k: int| 0 <= k < cut implies #[trigger] more.ends[k] <= limit by {
        assert(more.ends[k] == content.ends[k]);
    }
    if cut < more.ends.len() {
        if cut < content.ends.len() {
            assert(more.ends[cut as int] == content.ends[cut as int]);
        } else {
            assert(more.ends[cut as int] == ends[cut - content.ends.len()]);
        }
    }
    lemma_ends_through_is(more.ends, limit, cut);
    if at == index && cut < content.ends.len() {
        assert(content.ends[cut as int] <= schema.shard_start(index));
    }
}

/// Adding a shard keeps the records before it.
proof fn lemma_extended_records(
    content: CacheContent,
    index: nat,
    values: Seq<u8>,
    mask: Seq<bool>,
    ends: Seq<u64>,
    few: nat,
)
    requires
        partial(content, index),
        index < content.schema.shards(),
        few <= index,
        forall|k: int| 0 <= k < ends.len() ==> content.schema.shard_start(index) < #[trigger] ends[k],
    ensures
        extended(content, values, mask, ends).records(few) == content.records(few),
    decreases few,
{
    if few > 0 {
        let schema = content.schema;
        let more = extended(content, values, mask, ends);
        let last = (few - 1) as nat;
        lemma_extended_records(content, index, values, mask, ends, last);
        lemma_extended_cut(content, index, values, mask, ends, last);
        lemma_extended_cut(content, index, values, mask, ends, few);
        lemma_shard_range(schema, last);
        lemma_starts_grow(schema, few, index);
        let start = schema.shard_start(last);
        let end = start + schema.shard_count_at(last);
        let row = schema.row_bytes();
        assert(end <= schema.shard_start(index));
        assert(end * row <= schema.shard_start(index) * row) by (nonlinear_arith)
            requires
                end <= schema.shard_start(index),
        ;
        assert(start * row <= end * row) by (nonlinear_arith)
            requires
                start <= end,
        ;
        assert(more.shard_values(last) =~= content.shard_values(last));
        assert(more.shard_mask(last) =~= content.shard_mask(last));
        lemma_ends_through(content.ends, schema.shard_start(last) as int, 0);
        lemma_ends_through(content.ends, schema.shard_start(few) as int, 0);
        let a = content.cut(last);
        let b = content.cut(few);
        lemma_starts_grow(schema, last, few);
        if a > b {
            assert(content.ends[b as int] <= schema.shard_start(last));
        }
        assert(more.shard_ends(last) =~= content.shard_ends(last));
    }
}

/// A partial content with one more shard is a partial content, and its next record is that
/// shard's.
proof fn lemma_extended(
    content: CacheContent,
    index: nat,
    values: Seq<u8>,
    mask: Seq<bool>,
    ends: Seq<u64>,
)
    requires
        partial(content, index),
        index < content.schema.shards(),
        values.len() == value_len(content.schema, index),
        bytes_finite(content.schema.dtype, values),
        mask.len() == content.schema.shard_count_at(index),
        ends_valid(
            ends,
            content.schema.shard_start(index) as int,
            content.schema.shard_start(index) + content.schema.shard_count_at(index) as int,
        ),
    ensures
        partial(extended(content, values, mask, ends), index + 1),
        extended(content, values, mask, ends).shard_record(index) == record(
            content.schema,
            index,
            values,
            mask,
            ends,
        ),
{
    let schema = content.schema;
    let more = extended(content, values, mask, ends);
    let row = schema.row_bytes();
    let start = schema.shard_start(index);
    let count = schema.shard_count_at(index);
    let end = start + count;
    lemma_shard_range(schema, index);
    assert(tokens_before(schema, index + 1) == end);
    assert(end * row == start * row + count * row) by (nonlinear_arith)
        requires
            end == start + count,
    ;
    let features = schema.feature_width as nat;
    let width = schema.dtype.width();
    assert(start * row == (start * features) * width) by (nonlinear_arith)
        requires
            row == features * width,
    ;
    lemma_finite_concat(schema.dtype, content.values, values, start * features);
    assert forall|k: int| 0 <= k < more.ends.len() implies 0 < #[trigger] more.ends[k] <= end by {
        if k < content.ends.len() {
            assert(more.ends[k] == content.ends[k]);
        } else {
            assert(more.ends[k] == ends[k - content.ends.len()]);
        }
    }
    assert forall|i: int, j: int| 0 <= i < j < more.ends.len() implies more.ends[i]
        < more.ends[j] by {
        if j < content.ends.len() {
            assert(content.ends[i] < content.ends[j]);
        } else if i >= content.ends.len() {
            assert(ends[i - content.ends.len()] < ends[j - content.ends.len()]);
        } else {
            assert(content.ends[i] <= start);
            assert(ends[j - content.ends.len()] > start);
        }
    }
    assert(more.shard_values(index) =~= values);
    assert(more.shard_mask(index) =~= mask);
    lemma_extended_cut(content, index, values, mask, ends, index);
    let next = schema.shard_start(index + 1) as int;
    assert forall|k: int| 0 <= k < more.ends.len() implies #[trigger] more.ends[k] <= next by {
        assert(more.ends[k] <= end);
    }
    lemma_ends_through_is(more.ends, next, more.ends.len());
    assert(more.shard_ends(index) =~= ends);
}

/// Bytes that scan without an error from a partial content on continue its canonical records.
proof fn lemma_build(
    bytes: Seq<u8>,
    front: int,
    index: nat,
    offset: int,
    shards: Seq<ShardView>,
    content: CacheContent,
) -> (whole: CacheContent)
    requires
        partial(content, index),
        0 <= front <= offset <= bytes.len(),
        bytes.subrange(front, offset) == content.records(index),
        scan(bytes, content.schema, index, offset, shards, content.ends) is Ok,
    ensures
        whole.schema == content.schema,
        partial(whole, content.schema.shards()),
        ({
            let read = scan(bytes, content.schema, index, offset, shards, content.ends)->Ok_0;
            &&& whole.ends == read.1
            &&& front <= read.2 <= bytes.len()
            &&& bytes.subrange(front, read.2) == whole.records(content.schema.shards())
        }),
    decreases content.schema.shards() - index,
{
    let schema = content.schema;
    if index >= schema.shards() {
        content
    } else {
        record_is_canonical(bytes, schema, index, offset);
        lemma_shard_range(schema, index);
        let count = schema.shard_count_at(index);
        let values = record_values(bytes, schema, index, offset);
        let mask = unpacked_mask(record_mask(bytes, schema, index, offset), count);
        let ends = record_ends(bytes, schema, index, offset);
        let more = extended(content, values, mask, ends);
        assert forall|k: int| 0 <= k < ends.len() implies schema.shard_start(index)
            < #[trigger] ends[k] by {}
        lemma_extended_records(content, index, values, mask, ends, index);
        lemma_extended(content, index, values, mask, ends);
        let next = offset + record_len(bytes, schema, index, offset);
        assert(bytes.subrange(front, next) =~= bytes.subrange(front, offset) + bytes.subrange(
            offset,
            next,
        ));
        assert(more.records(index + 1) == more.records(index) + more.shard_record(index));
        lemma_build(
            bytes,
            front,
            index + 1,
            next,
            shards.push(read_entry(bytes, schema, index, offset)),
            more,
        )
    }
}

/// Only canonical artifacts reopen: bytes that are accepted are the encoding of some valid
/// content, and the cache shows that content.
pub proof fn only_canonical_bytes_reopen(bytes: Seq<u8>, expected: Option<Seq<u8>>) -> (content:
    CacheContent)
    requires
        opened(bytes, expected) is Ok,
        bytes.len() <= u64::MAX,
    ensures
        content.valid(),
        content.encoded() == bytes,
        content.size() == bytes.len(),
        opened(bytes, expected) == Ok::<CacheView, ActivationCacheError>(content.cache()),
{
    broadcast use lemma_le_len;

    let schema = read_schema(bytes);
    let at = manifest_end(bytes);
    let shards = schema.shards();
    manifest_is_canonical(ManifestKind::Cache, bytes);
    let empty = CacheContent {
        schema,
        values: Seq::empty(),
        mask: Seq::empty(),
        ends: Seq::empty(),
    };
    let row = schema.row_bytes();
    let tokens = schema.shard_tokens as nat;
    assert(0 * tokens == 0) by (nonlinear_arith);
    assert(0 * row == 0) by (nonlinear_arith);
    lemma_no_scalars(schema);
    assert(bytes.subrange(at + 4, at + 4) =~= empty.records(0));
    let content = lemma_build(bytes, at + 4, 0, at + 4, Seq::empty(), empty);
    lemma_le_limits();
    le_is_canonical(bytes.subrange(at, at + 4));
    assert(bytes =~= bytes.subrange(0, at) + bytes.subrange(at, at + 4) + bytes.subrange(
        at + 4,
        bytes.len() as int,
    ));
    assert(content.valid());
    assert(content.encoded() =~= bytes);
    lemma_size(content);
    reopening_gives_the_same_cache(content);
    content
}

proof fn lemma_no_scalars(schema: SchemaView)
    ensures
        bytes_finite(schema.dtype, Seq::empty()),
{
    let width = schema.dtype.width();
    assert forall|k: nat| (k + 1) * width <= Seq::<u8>::empty().len() implies
        crate::activation_scalar::pattern_finite(
        schema.dtype,
        #[trigger] crate::activation_scalar::pattern_at(schema.dtype, Seq::empty(), k),
    ) by {
        assert((k + 1) * width > 0) by (nonlinear_arith)
            requires
                width >= 1,
        ;
    }
}

/// The fixed fields of a shard header.
struct ShardHeader {
    start: u64,
    count: u32,
    value_bytes: u64,
    mask_bytes: u64,
    boundaries: u64,
}

/// Reads and checks the header of the shard record at `offset`.
fn read_header(bytes: &[u8], spec: &ActivationCacheSpec, index: u32, offset: usize) -> (header:
    Result<ShardHeader, ActivationCacheError>)
    requires
        spec.wf(),
        index < spec@.shards(),
        offset <= bytes@.len(),
    ensures
        match header_error(bytes@, spec@, index as nat, offset as int) {
            Some(error) => header == Err::<ShardHeader, ActivationCacheError>(error),
            None => {
                &&& header matches Ok(read)
                &&& read.start as nat == spec@.shard_start(index as nat)
                &&& read.count as nat == spec@.shard_count_at(index as nat)
                &&& read.value_bytes as nat == value_len(spec@, index as nat)
                &&& read.mask_bytes as nat == mask_len(spec@, index as nat)
                &&& read.boundaries as nat == declared_ends(bytes@, offset as int)
                &&& read.boundaries <= read.count
                &&& offset + 32 <= bytes@.len()
            },
        },
{
    let length: usize = bytes.len();
    proof {
        spec.wf_valid();
        lemma_le_limits();
        lemma_shard_range(spec@, index as nat);
        lemma_token_bytes(spec@, spec@.shard_count_at(index as nat));
        lemma_token_bytes(spec@, 1);
    }
    let ghost at = offset as int;
    need(bytes, offset, 4, "shard index")?;
    let got_index: u32 = read_le(bytes, offset, 4) as u32;
    if got_index != index {
        return Err(
            ActivationCacheError::ShardIndexMismatch { expected: index, got: got_index },
        );
    }
    need(bytes, offset + 4, 8, "shard token start")?;
    need(bytes, offset + 12, 4, "shard token count")?;
    need(bytes, offset + 16, 8, "shard value bytes")?;
    need(bytes, offset + 24, 4, "shard mask bytes")?;
    need(bytes, offset + 28, 4, "shard boundary count")?;
    let got_start: u64 = read_le(bytes, offset + 4, 8);
    let got_count: u32 = read_le(bytes, offset + 12, 4) as u32;
    let got_value_bytes: u64 = read_le(bytes, offset + 16, 8);
    let got_mask_bytes: u64 = read_le(bytes, offset + 24, 4);
    let boundaries: u64 = read_le(bytes, offset + 28, 4);
    let tokens: u64 = spec.shard_tokens() as u64;
    let start: u64 = index as u64 * tokens;
    let left: u64 = spec.total_tokens() - start;
    let wide_count: u64 = if left < tokens {
        left
    } else {
        tokens
    };
    let count: u32 = wide_count as u32;
    if got_start != start || got_count != count {
        return Err(
            ActivationCacheError::ShardRangeMismatch {
                index,
                expected_start: start,
                got_start,
                expected_count: count,
                got_count,
            },
        );
    }
    let row_bytes: u64 = spec.feature_width() * spec.dtype().encoded_width() as u64;
    let value_bytes: u64 = wide_count * row_bytes;
    if got_value_bytes != value_bytes {
        return Err(
            ActivationCacheError::ShardLengthMismatch {
                index,
                component: "value",
                expected: value_bytes,
                got: got_value_bytes,
            },
        );
    }
    let mask_total: u64 = (wide_count + 7) / 8;
    if got_mask_bytes != mask_total {
        return Err(
            ActivationCacheError::ShardLengthMismatch {
                index,
                component: "mask",
                expected: mask_total,
                got: got_mask_bytes,
            },
        );
    }
    if boundaries > wide_count {
        return Err(
            ActivationCacheError::ShardLengthMismatch {
                index,
                component: "boundary count",
                expected: wide_count,
                got: boundaries,
            },
        );
    }
    Ok(ShardHeader { start, count, value_bytes, mask_bytes: mask_total, boundaries })
}

/// Reads `count` eight-byte sequence ends.
pub(crate) fn collect_read_ends(bytes: &[u8], at: usize, count: usize) -> (ends: Vec<u64>)
    requires
        at + 8 * count <= bytes@.len(),
    ensures
        ends@ == read_ends(bytes@, at as int, count as nat),
{
    let length: usize = bytes.len();
    let mut ends: Vec<u64> = Vec::new();
    let mut index: usize = 0;
    while index < count
        invariant
            index <= count,
            at + 8 * count <= length == bytes@.len(),
            ends@ == read_ends(bytes@, at as int, index as nat),
        decreases count - index,
    {
        let ghost before = ends@;
        ends.push(read_le(bytes, at + 8 * index, 8));
        index = index + 1;
        assert(ends@ =~= read_ends(bytes@, at as int, index as nat));
    }
    ends
}

/// Reads the shard record at `offset` and where the next one starts.
fn read_shard(bytes: &[u8], spec: &ActivationCacheSpec, index: u32, offset: usize) -> (shard: Result<
    (ActivationShard, usize),
    ActivationCacheError,
>)
    requires
        spec.wf(),
        index < spec@.shards(),
        offset <= bytes@.len(),
    ensures
        match shard_error(bytes@, spec@, index as nat, offset as int) {
            Some(error) => shard == Err::<(ActivationShard, usize), ActivationCacheError>(error),
            None => {
                &&& shard matches Ok(read)
                &&& read.0@ == read_entry(bytes@, spec@, index as nat, offset as int)
                &&& read.1 == offset + record_len(bytes@, spec@, index as nat, offset as int)
                &&& read.1 <= bytes@.len()
            },
        },
{
    let length: usize = bytes.len();
    let header: ShardHeader = read_header(bytes, spec, index, offset)?;
    proof {
        spec.wf_valid();
        lemma_shard_range(spec@, index as nat);
        lemma_token_bytes(
            spec@,
            spec@.shard_start(index as nat) + spec@.shard_count_at(index as nat),
        );
        lemma_token_bytes(spec@, spec@.shard_start(index as nat));
        lemma_scalar_range(spec@, index as nat);
    }
    let boundary_bytes: u64 = 8 * header.boundaries;
    let fixed: u64 = checked_add(
        header.value_bytes,
        header.mask_bytes,
        "decoded shard values and mask",
    )?;
    let payload: u64 = checked_add(fixed, boundary_bytes, "decoded shard payload")?;
    need(bytes, offset + 32, payload, "shard payload")?;
    let value_end: usize = offset + 32 + header.value_bytes as usize;
    let mask_end: usize = value_end + header.mask_bytes as usize;
    let end: usize = mask_end + boundary_bytes as usize;
    validate_encoded_values(
        spec.dtype(),
        window(bytes, offset + 32, value_end),
        header.start * spec.feature_width(),
    )?;
    validate_canonical_mask(window(bytes, value_end, mask_end), header.count as u64, index)?;
    let ends: Vec<u64> = collect_read_ends(bytes, mask_end, header.boundaries as usize);
    check_ends(ends.as_slice(), header.start, header.start + header.count as u64)?;
    let digest: ActivationDigest = hash_shard(spec, window(bytes, offset, end));
    Ok(
        (
            ActivationShard::from_parts(
                index,
                header.start,
                header.count,
                ends,
                digest,
                offset as u64,
                (end - offset) as u64,
                header.value_bytes,
                header.mask_bytes,
                boundary_bytes,
            ),
            end,
        ),
    )
}

/// The scalars of a shard lie within the index range of the tensor.
proof fn lemma_scalar_range(schema: SchemaView, index: nat)
    requires
        schema.valid(),
        index < schema.shards(),
    ensures
        schema.shard_start(index) * schema.feature_width as nat + value_len(schema, index)
            <= u64::MAX,
{
    lemma_shard_range(schema, index);
    let start = schema.shard_start(index);
    let count = schema.shard_count_at(index);
    let features = schema.feature_width as nat;
    let width = schema.dtype.width();
    let row = schema.row_bytes();
    lemma_token_bytes(schema, start + count);
    assert((start + count) * row == start * row + count * row) by (nonlinear_arith);
    assert(start * features <= start * row) by (nonlinear_arith)
        requires
            row == features * width,
            width >= 1,
    ;
}

/// What the shard records of an artifact say.
struct ReadShards {
    shards: Vec<ActivationShard>,
    ends: Vec<u64>,
    end: usize,
}

/// Reads all shard records.
fn read_shards(bytes: &[u8], spec: &ActivationCacheSpec, offset: usize) -> (read: Result<
    ReadShards,
    ActivationCacheError,
>)
    requires
        spec.wf(),
        offset <= bytes@.len(),
    ensures
        match scan(bytes@, spec@, 0, offset as int, Seq::empty(), Seq::empty()) {
            Err(error) => read == Err::<ReadShards, ActivationCacheError>(error),
            Ok((shards, ends, end)) => {
                &&& read matches Ok(all)
                &&& shard_views(all.shards@) == shards
                &&& all.ends@ == ends
                &&& all.end == end
                &&& all.end <= bytes@.len()
            },
        },
{
    let count: u32 = spec.shard_count();
    let mut shards: Vec<ActivationShard> = Vec::new();
    let mut ends: Vec<u64> = Vec::new();
    let mut at: usize = offset;
    let mut index: u32 = 0;
    assert(shard_views(shards@) =~= Seq::<ShardView>::empty());
    while index < count
        invariant
            spec.wf(),
            count as nat == spec@.shards(),
            index <= count,
            at <= bytes@.len(),
            scan(bytes@, spec@, 0, offset as int, Seq::empty(), Seq::empty()) == scan(
                bytes@,
                spec@,
                index as nat,
                at as int,
                shard_views(shards@),
                ends@,
            ),
        decreases count - index,
    {
        let ghost shards_before = shards@;
        let ghost ends_before = ends@;
        let (shard, next): (ActivationShard, usize) = read_shard(bytes, spec, index, at)?;
        ends.extend_from_slice(shard.sequence_ends());
        shards.push(shard);
        proof {
            assert(ends@ =~= ends_before + shard@.ends);
            assert(shard_views(shards@) =~= shard_views(shards_before).push(shard@));
        }
        at = next;
        index = index + 1;
    }
    Ok(ReadShards { shards, ends, end: at })
}

/// What an artifact says, beside its bytes.
struct DecodedActivationCache {
    spec: ActivationCacheSpec,
    digest: ActivationDigest,
    shards: Vec<ActivationShard>,
    ends: Vec<u64>,
    byte_ledger: ActivationByteLedger,
}

/// The bytes of an expected digest.
pub open spec fn expected_bytes(expected: Option<ActivationDigest>) -> Option<Seq<u8>> {
    match expected {
        Some(digest) => Some(digest@),
        None => None,
    }
}

/// Reads and checks the front of an artifact: the schema and where the shards start.
fn read_front(bytes: &[u8]) -> (front: Result<(ActivationCacheSpec, usize), ActivationCacheError>)
    ensures
        match front_error(bytes@) {
            Some(error) => front == Err::<(ActivationCacheSpec, usize), ActivationCacheError>(
                error,
            ),
            None => {
                &&& front matches Ok(read)
                &&& read.0.wf()
                &&& read.0@ == read_schema(bytes@)
                &&& read.1 == manifest_end(bytes@) + 4
                &&& read.1 <= bytes@.len()
            },
        },
{
    let length: usize = bytes.len();
    let fields = read_manifest(ManifestKind::Cache, bytes)?;
    proof {
        lemma_le_limits();
    }
    need(bytes, fields.end, 4, "shard count")?;
    let persisted: u32 = read_le(bytes, fields.end, 4) as u32;
    let spec: ActivationCacheSpec = fields.validate()?;
    proof {
        spec.wf_valid();
    }
    if persisted != spec.shard_count() {
        return Err(
            ActivationCacheError::ShardCountMismatch {
                expected: spec.shard_count(),
                got: persisted,
            },
        );
    }
    assert(fields.end + 4 <= length);
    let start: usize = fields.end + 4;
    need(bytes, start, 32 * persisted as u64, "shard headers")?;
    Ok((spec, start))
}

/// Reads a complete artifact.
fn parse_activation_cache(bytes: &[u8], expected: Option<ActivationDigest>) -> (decoded: Result<
    DecodedActivationCache,
    ActivationCacheError,
>)
    ensures
        match opened(bytes@, expected_bytes(expected)) {
            Err(error) => decoded == Err::<DecodedActivationCache, ActivationCacheError>(error),
            Ok(cache) => {
                &&& decoded matches Ok(read)
                &&& read.spec.wf()
                &&& cache == (CacheView {
                    schema: read.spec@,
                    encoded: bytes@,
                    digest: read.digest@,
                    shards: shard_views(read.shards@),
                    ends: read.ends@,
                    ledger: read.byte_ledger,
                })
            },
        },
{
    let (spec, start): (ActivationCacheSpec, usize) = read_front(bytes)?;
    let read: ReadShards = read_shards(bytes, &spec, start)?;
    if read.end != bytes.len() {
        return Err(
            ActivationCacheError::TrailingBytes { count: (bytes.len() - read.end) as u64 },
        );
    }
    let total: u64 = spec.total_tokens();
    if read.ends.len() == 0 || read.ends[read.ends.len() - 1] != total {
        return Err(ActivationCacheError::MissingTerminalBoundary { total_tokens: total });
    }
    let digest: ActivationDigest = hash_cache(bytes);
    match expected {
        Some(required) => {
            if !digest.same(&required) {
                proof {
                    lemma_digest_of(digest);
                    lemma_digest_of(required);
                }
                return Err(
                    ActivationCacheError::DigestMismatch { expected: required, got: digest },
                );
            }
        },
        None => {},
    }
    proof {
        spec.wf_valid();
        lemma_token_bytes(spec@, spec@.total_tokens as nat);
        let content = only_canonical_bytes_reopen(bytes@, expected_bytes(expected));
        lemma_size(content);
    }
    let value_bytes: u64 = total * spec.feature_width() * spec.dtype().encoded_width() as u64;
    let byte_ledger = ActivationByteLedger {
        manifest_bytes: start as u64,
        shard_header_bytes: 32 * spec.shard_count() as u64,
        value_bytes,
        mask_bytes: total_mask_bytes(&spec),
        boundary_bytes: 8 * read.ends.len() as u64,
        encoded_bytes: bytes.len() as u64,
    };
    Ok(
        DecodedActivationCache {
            spec,
            digest,
            shards: read.shards,
            ends: read.ends,
            byte_ledger,
        },
    )
}

impl DecodedActivationCache {
    /// Joins what was read with the bytes.
    fn with_encoding(self, encoded: Vec<u8>, Ghost(content): Ghost<CacheContent>) -> (cache:
        ActivationCache)
        requires
            self.spec.wf(),
            content.valid(),
            content.size() <= usize::MAX,
            content.cache() == (CacheView {
                schema: self.spec@,
                encoded: encoded@,
                digest: self.digest@,
                shards: shard_views(self.shards@),
                ends: self.ends@,
                ledger: self.byte_ledger,
            }),
        ensures
            cache.wf(),
            cache@ == content.cache(),
    {
        ActivationCache::from_parts(
            self.spec,
            self.digest,
            encoded,
            self.shards,
            self.ends,
            self.byte_ledger,
            Ghost(content),
        )
    }

    /// Joins what was read with a copy of the bytes; `None` where memory for the copy was refused.
    fn with_copy(
        self,
        encoded: &[u8],
        room: Option<Vec<u8>>,
        Ghost(content): Ghost<CacheContent>,
    ) -> (cache: Result<ActivationCache, ActivationCacheError>)
        requires
            room matches Some(empty) ==> empty@.len() == 0,
            self.spec.wf(),
            content.valid(),
            content.size() <= usize::MAX,
            content.cache() == (CacheView {
                schema: self.spec@,
                encoded: encoded@,
                digest: self.digest@,
                shards: shard_views(self.shards@),
                ends: self.ends@,
                ledger: self.byte_ledger,
            }),
        ensures
            match room {
                None => cache == Err::<ActivationCache, ActivationCacheError>(
                    ActivationCacheError::AllocationFailed { bytes: encoded@.len() as u64 },
                ),
                Some(_) => cache matches Ok(made) && made.wf() && made@ == content.cache(),
            },
    {
        match room {
            None => Err(ActivationCacheError::AllocationFailed { bytes: encoded.len() as u64 }),
            Some(empty) => {
                let mut owned: Vec<u8> = empty;
                push_bytes(&mut owned, encoded);
                assert(owned@ =~= encoded@);
                Ok(self.with_encoding(owned, Ghost(content)))
            },
        }
    }
}

impl ActivationCache {
    /// Reopens a buffer that holds one canonical cache encoding, and keeps it as backing store.
    ///
    /// Where `expected` is given, the recomputed identity has to match it.
    pub fn from_buffer(encoded: Vec<u8>, expected: Option<ActivationDigest>) -> (cache: Result<
        Self,
        ActivationCacheError,
    >)
        ensures
            match opened(encoded@, expected_bytes(expected)) {
                Err(error) => cache == Err::<Self, ActivationCacheError>(error),
                Ok(shown) => cache matches Ok(made) && made.wf() && made@ == shown,
            },
    {
        let length: usize = encoded.len();
        let decoded: DecodedActivationCache = parse_activation_cache(
            encoded.as_slice(),
            expected,
        )?;
        let ghost content = only_canonical_bytes_reopen(encoded@, expected_bytes(expected));
        Ok(decoded.with_encoding(encoded, Ghost(content)))
    }

    /// Copies and reopens canonical bytes whose identity may be required.
    fn from_copy(encoded: &[u8], expected: Option<ActivationDigest>) -> (cache: Result<
        Self,
        ActivationCacheError,
    >)
        ensures
            match opened(encoded@, expected_bytes(expected)) {
                Err(error) => cache == Err::<Self, ActivationCacheError>(error),
                Ok(shown) => {
                    ||| cache == Err::<Self, ActivationCacheError>(
                        ActivationCacheError::AllocationFailed { bytes: encoded@.len() as u64 },
                    )
                    ||| cache matches Ok(made) && made.wf() && made@ == shown
                },
            },
    {
        let length: usize = encoded.len();
        let decoded: DecodedActivationCache = parse_activation_cache(encoded, expected)?;
        let ghost content = only_canonical_bytes_reopen(encoded@, expected_bytes(expected));
        decoded.with_copy(encoded, reserved(length), Ghost(content))
    }

    /// Reopens canonical bytes and copies them into a vector; `None` where memory for the copy was
    /// refused.
    ///
    /// Where `expected` is given, the recomputed identity has to match it.
    pub fn copied_in(
        encoded: &[u8],
        expected: Option<ActivationDigest>,
        room: Option<Vec<u8>>,
    ) -> (cache: Result<Self, ActivationCacheError>)
        requires
            room matches Some(empty) ==> empty@.len() == 0,
        ensures
            match opened(encoded@, expected_bytes(expected)) {
                Err(error) => cache == Err::<Self, ActivationCacheError>(error),
                Ok(shown) => if room is None {
                    cache == Err::<Self, ActivationCacheError>(
                        ActivationCacheError::AllocationFailed { bytes: encoded@.len() as u64 },
                    )
                } else {
                    cache matches Ok(made) && made.wf() && made@ == shown
                },
            },
    {
        let length: usize = encoded.len();
        let decoded: DecodedActivationCache = parse_activation_cache(encoded, expected)?;
        let ghost content = only_canonical_bytes_reopen(encoded@, expected_bytes(expected));
        decoded.with_copy(encoded, room, Ghost(content))
    }

    /// Reopens and fully validates one canonical cache encoding.
    ///
    /// All manifest and shard fields, payload lengths, masks, scalar values, boundaries, and
    /// canonical ranges are checked before the backing bytes are copied. Schema, shard, and cache
    /// digests are recomputed from the persisted bytes.
    pub fn from_encoded(encoded: &[u8]) -> (cache: Result<Self, ActivationCacheError>)
        ensures
            match opened(encoded@, None) {
                Err(error) => cache == Err::<Self, ActivationCacheError>(error),
                Ok(shown) => {
                    ||| cache == Err::<Self, ActivationCacheError>(
                        ActivationCacheError::AllocationFailed { bytes: encoded@.len() as u64 },
                    )
                    ||| cache matches Ok(made) && made.wf() && made@ == shown
                },
            },
    {
        Self::from_copy(encoded, None)
    }

    /// Reopens canonical bytes and also requires their recomputed identity to match `expected`.
    pub fn from_encoded_verified(encoded: &[u8], expected: ActivationDigest) -> (cache: Result<
        Self,
        ActivationCacheError,
    >)
        ensures
            match opened(encoded@, Some(expected@)) {
                Err(error) => cache == Err::<Self, ActivationCacheError>(error),
                Ok(shown) => {
                    ||| cache == Err::<Self, ActivationCacheError>(
                        ActivationCacheError::AllocationFailed { bytes: encoded@.len() as u64 },
                    )
                    ||| cache matches Ok(made) && made.wf() && made@ == shown
                },
            },
    {
        Self::from_copy(encoded, Some(expected))
    }
}

/// Bytes collected from a reader under an explicit bound.
#[derive(Clone, Debug)]
pub struct BoundedInput {
    limit: u64,
    bytes: Vec<u8>,
}

impl BoundedInput {
    /// The bound.
    pub closed spec fn limit(&self) -> u64 {
        self.limit
    }

    /// The bytes collected so far.
    pub closed spec fn bytes(&self) -> Seq<u8> {
        self.bytes@
    }

    /// No more bytes were collected than the bound allows.
    pub open spec fn wf(&self) -> bool {
        self.bytes().len() <= self.limit()
    }

    /// Starts collecting at most `limit` bytes.
    pub fn new(limit: u64) -> (input: Self)
        ensures
            input.wf(),
            input.limit() == limit,
            input.bytes() == Seq::<u8>::empty(),
    {
        BoundedInput { limit, bytes: Vec::new() }
    }

    /// Adds what a reader produced next; the bound is enforced before the buffer grows.
    pub fn push(&mut self, part: &[u8]) -> (result: Result<(), ActivationCacheError>)
        requires
            old(self).wf(),
        ensures
            final(self).wf(),
            final(self).limit() == old(self).limit(),
            result is Err ==> final(self).bytes() == old(self).bytes(),
            if old(self).bytes().len() + part@.len() > u64::MAX {
                result == Err::<(), ActivationCacheError>(
                    ActivationCacheError::ArithmeticOverflow { context: "reader cache length" },
                )
            } else if old(self).bytes().len() + part@.len() > old(self).limit() {
                result == Err::<(), ActivationCacheError>(
                    ActivationCacheError::EncodedSizeLimitExceeded { limit: old(self).limit() },
                )
            } else {
                ||| result == Err::<(), ActivationCacheError>(
                    ActivationCacheError::AllocationFailed {
                        bytes: (old(self).bytes().len() + part@.len()) as u64,
                    },
                )
                ||| result is Ok && final(self).bytes() == old(self).bytes() + part@
            },
    {
        let wanted: u64 = self.bytes.len() as u64;
        let granted: bool = if part.len() as u64 <= self.limit - wanted {
            reserve_bytes(&mut self.bytes, part.len())
        } else {
            false
        };
        self.push_granted(part, granted)
    }

    /// Adds what a reader produced next, given whether memory was granted for it.
    pub fn push_granted(&mut self, part: &[u8], granted: bool) -> (result: Result<
        (),
        ActivationCacheError,
    >)
        requires
            old(self).wf(),
        ensures
            final(self).wf(),
            final(self).limit() == old(self).limit(),
            result is Err ==> final(self).bytes() == old(self).bytes(),
            if old(self).bytes().len() + part@.len() > u64::MAX {
                result == Err::<(), ActivationCacheError>(
                    ActivationCacheError::ArithmeticOverflow { context: "reader cache length" },
                )
            } else if old(self).bytes().len() + part@.len() > old(self).limit() {
                result == Err::<(), ActivationCacheError>(
                    ActivationCacheError::EncodedSizeLimitExceeded { limit: old(self).limit() },
                )
            } else if !granted {
                result == Err::<(), ActivationCacheError>(
                    ActivationCacheError::AllocationFailed {
                        bytes: (old(self).bytes().len() + part@.len()) as u64,
                    },
                )
            } else {
                result is Ok && final(self).bytes() == old(self).bytes() + part@
            },
    {
        let next: u64 = checked_add(
            self.bytes.len() as u64,
            part.len() as u64,
            "reader cache length",
        )?;
        if next > self.limit {
            return Err(ActivationCacheError::EncodedSizeLimitExceeded { limit: self.limit });
        }
        if !granted {
            return Err(ActivationCacheError::AllocationFailed { bytes: next });
        }
        push_bytes(&mut self.bytes, part);
        Ok(())
    }

    /// Returns the collected bytes.
    pub fn into_bytes(self) -> (bytes: Vec<u8>)
        ensures
            bytes@ == self.bytes(),
    {
        self.bytes
    }
}

impl ActivationCache {
    /// Reopens one cache from the bytes of a reader, collected up to its end under a bound.
    ///
    /// The collected buffer becomes the cache's backing store, without a second copy.
    pub fn read_from(input: BoundedInput) -> (cache: Result<Self, ActivationCacheError>)
        ensures
            match opened(input.bytes(), None) {
                Err(error) => cache == Err::<Self, ActivationCacheError>(error),
                Ok(shown) => cache matches Ok(made) && made.wf() && made@ == shown,
            },
    {
        Self::from_buffer(input.into_bytes(), None)
    }

    /// Reopens one cache from the bytes of a reader and requires its identity to be `expected`.
    pub fn read_from_verified(input: BoundedInput, expected: ActivationDigest) -> (cache: Result<
        Self,
        ActivationCacheError,
    >)
        ensures
            match opened(input.bytes(), Some(expected@)) {
                Err(error) => cache == Err::<Self, ActivationCacheError>(error),
                Ok(shown) => cache matches Ok(made) && made.wf() && made@ == shown,
            },
    {
        Self::from_buffer(input.into_bytes(), Some(expected))
    }
}

} // verus!
