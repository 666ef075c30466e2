//! Canonical checkpoints of partial builders.

use crate::activation_builder::{
    chunk_views, covered, in_order, lemma_conflict_behind, lemma_covered_bound, overlap,
    ActivationCacheBuilder, BuilderView,
};
use crate::activation_chunk::{
    check_ends, compute_chunk_digest, ends_error, lemma_ends_count, lemma_ends_error,
    lemma_stored_ends_len, lemma_token_bytes, push_ends, reserved, stored_ends, ActivationChunk,
    ChunkView,
};
use crate::activation_decode::{
    collect_read_ends, ends_are_canonical, ends_round_trip, expected_bytes, read_ends,
    BoundedInput,
};
use crate::activation_manifest::{
    digest_of, lemma_digest_of, lemma_manifest_len, manifest, manifest_end, manifest_error,
    manifest_is_canonical, manifest_round_trip, need, push_manifest, read_manifest, read_schema,
    truncated, ManifestKind,
};
use crate::activation_scalar::{
    encoded_error, lemma_first_nonfinite, mask_bytes, mask_canonical, mask_is_canonical,
    mask_round_trip, pack_mask, packed_mask, unpack_mask, unpacked_mask, validate_canonical_mask,
    validate_encoded_values,
};
use crate::activation_schema::{
    checked_add, checked_mul, usize_from_u64, ActivationCacheError, ActivationCacheSpec,
    ActivationDigest, SchemaView,
};
use crate::hashing::{blake3_digest, hash_parts};
use crate::wire::{
    le, le_at, le_is_canonical, le_round_trip, lemma_le_len, lemma_le_limits, lemma_window,
    push_bytes, push_le, read_32, read_le, window,
};
use vstd::prelude::*;
use vstd::utf8::encode_utf8;

verus! {

/// The canonical record of a chunk.
pub open spec fn chunk_record(chunk: ChunkView) -> Seq<u8> {
    le(chunk.token_start as nat, 8) + le(chunk.token_count as nat, 8) + le(chunk.values.len(), 8)
        + le(mask_bytes(chunk.mask.len()), 8) + le(chunk.ends.len(), 8) + chunk.digest()
        + chunk.values + packed_mask(chunk.mask) + stored_ends(chunk.ends)
}

/// The canonical records of chunks one after the other.
pub open spec fn chunk_records(chunks: Seq<ChunkView>) -> Seq<u8>
    decreases chunks.len(),
{
    if chunks.len() == 0 {
        Seq::empty()
    } else {
        chunk_records(chunks.drop_last()) + chunk_record(chunks.last())
    }
}

/// A builder's manifest with its chunk and token counts.
pub open spec fn checkpoint_head(builder: BuilderView) -> Seq<u8> {
    manifest(ManifestKind::Checkpoint, builder.schema) + le(builder.chunks.len(), 4) + le(
        covered(builder.chunks),
        8,
    ) + le(0, 4)
}

/// A checkpoint without its terminal digest.
pub open spec fn checkpoint_body(builder: BuilderView) -> Seq<u8> {
    checkpoint_head(builder) + chunk_records(builder.chunks)
}

/// The digest of a checkpoint body.
pub open spec fn checkpoint_digest(body: Seq<u8>) -> Seq<u8> {
    blake3_digest(encode_utf8("tritium salt v2 activation checkpoint v1\0"@) + body)
}

/// The canonical checkpoint of a builder.
pub open spec fn checkpoint(builder: BuilderView) -> Seq<u8> {
    checkpoint_body(builder) + checkpoint_digest(checkpoint_body(builder))
}

/// The failure of a sum or product in the layout.
pub open spec fn layout_overflow(context: &'static str) -> ActivationCacheError {
    ActivationCacheError::ArithmeticOverflow { context }
}

/// The checkpoint's size after the chunks from `from` on, or the step that does not fit.
pub open spec fn sized(chunks: Seq<ChunkView>, from: nat, size: nat) -> Result<
    nat,
    ActivationCacheError,
>
    decreases chunks.len() - from,
{
    if from >= chunks.len() {
        Ok(size)
    } else {
        let chunk = chunks[from as int];
        let boundaries = 8 * chunk.ends.len();
        let fixed = chunk.values.len() + mask_bytes(chunk.token_count as nat);
        let payload = fixed + boundaries;
        if boundaries > u64::MAX {
            Err(layout_overflow("checkpoint boundary bytes"))
        } else if fixed > u64::MAX {
            Err(layout_overflow("checkpoint values and mask"))
        } else if payload > u64::MAX {
            Err(layout_overflow("checkpoint chunk payload"))
        } else if 72 + payload > u64::MAX {
            Err(layout_overflow("checkpoint chunk record"))
        } else if size + 72 + payload > u64::MAX {
            Err(layout_overflow("checkpoint bytes"))
        } else {
            sized(chunks, from + 1, size + 72 + payload)
        }
    }
}

/// The size of a builder's checkpoint, or the step of its layout that does not fit.
pub open spec fn checkpoint_size(builder: BuilderView) -> Result<nat, ActivationCacheError> {
    match sized(builder.chunks, 0, 84 + builder.schema.name_bytes().len()) {
        Err(error) => Err(error),
        Ok(size) => if size + 32 > u64::MAX {
            Err(layout_overflow("checkpoint terminal digest"))
        } else if size + 32 > usize::MAX {
            Err(layout_overflow("checkpoint allocation"))
        } else {
            Ok(size + 32)
        },
    }
}

/// A chunk record declared at `offset`: its start, count and list lengths.
pub open spec fn declared(bytes: Seq<u8>, offset: int, field: int) -> nat {
    le_at(bytes, offset + 8 * field, 8)
}

/// Length of the chunk record at `offset`.
pub open spec fn chunk_record_len(bytes: Seq<u8>, offset: int) -> nat {
    72 + declared(bytes, offset, 2) + declared(bytes, offset, 3) + 8 * declared(bytes, offset, 4)
}

/// Packed mask of the chunk record at `offset`.
pub open spec fn chunk_mask_bytes(bytes: Seq<u8>, offset: int) -> Seq<u8> {
    let start = offset + 72 + declared(bytes, offset, 2);
    bytes.subrange(start, start + declared(bytes, offset, 3))
}

/// The chunk whose record is at `offset`.
pub open spec fn read_chunk(bytes: Seq<u8>, schema: SchemaView, offset: int) -> ChunkView {
    let values = declared(bytes, offset, 2);
    let mask = declared(bytes, offset, 3);
    ChunkView {
        schema_digest: schema.digest(),
        total_tokens: schema.total_tokens,
        feature_width: schema.feature_width,
        dtype: schema.dtype,
        token_start: declared(bytes, offset, 0) as u64,
        token_count: declared(bytes, offset, 1) as u64,
        values: bytes.subrange(offset + 72, offset + 72 + values),
        mask: unpacked_mask(chunk_mask_bytes(bytes, offset), declared(bytes, offset, 1)),
        ends: read_ends(bytes, offset + 72 + values + mask, declared(bytes, offset, 4)),
    }
}

/// The reason why no chunk header can be read at `offset` behind some chunks, if there is one.
#[verifier::opaque]
pub open spec fn chunk_header_error(
    bytes: Seq<u8>,
    schema: SchemaView,
    offset: int,
    chunks: Seq<ChunkView>,
) -> Option<ActivationCacheError> {
    let start = declared(bytes, offset, 0);
    let count = declared(bytes, offset, 1);
    let values = declared(bytes, offset, 2);
    let mask = declared(bytes, offset, 3);
    let boundaries = declared(bytes, offset, 4);
    if bytes.len() < offset + 8 {
        Some(truncated(bytes, offset, 8, "checkpoint chunk start"))
    } else if bytes.len() < offset + 16 {
        Some(truncated(bytes, offset + 8, 8, "checkpoint chunk count"))
    } else if bytes.len() < offset + 24 {
        Some(truncated(bytes, offset + 16, 8, "checkpoint chunk value bytes"))
    } else if bytes.len() < offset + 32 {
        Some(truncated(bytes, offset + 24, 8, "checkpoint chunk mask bytes"))
    } else if bytes.len() < offset + 40 {
        Some(truncated(bytes, offset + 32, 8, "checkpoint chunk boundary count"))
    } else if bytes.len() < offset + 72 {
        Some(truncated(bytes, offset + 40, 32, "checkpoint chunk digest"))
    } else if chunks.len() > 0 && start <= chunks.last().token_start {
        Some(
            ActivationCacheError::NonCanonicalChunkOrder {
                previous_start: chunks.last().token_start,
                start: start as u64,
            },
        )
    } else if count == 0 {
        Some(ActivationCacheError::EmptyChunk)
    } else if start + count > u64::MAX {
        Some(layout_overflow("checkpoint chunk end"))
    } else if start + count > schema.total_tokens {
        Some(
            ActivationCacheError::ChunkOutOfBounds {
                start: start as u64,
                count: count as u64,
                total: schema.total_tokens,
            },
        )
    } else if values != count * schema.row_bytes() {
        Some(
            ActivationCacheError::ValueCountMismatch {
                expected: (count * schema.row_bytes()) as u64,
                got: values as u64,
            },
        )
    } else if mask != mask_bytes(count) {
        Some(
            ActivationCacheError::MaskLengthMismatch {
                expected: mask_bytes(count) as u64,
                got: mask as u64,
            },
        )
    } else if boundaries > count {
        Some(
            ActivationCacheError::InvalidBoundary {
                previous: start as u64,
                boundary: if start + count < u64::MAX {
                    (start + count + 1) as u64
                } else {
                    u64::MAX
                },
                chunk_start: start as u64,
                chunk_end: (start + count) as u64,
            },
        )
    } else if 8 * boundaries > u64::MAX {
        Some(layout_overflow("checkpoint chunk boundary bytes"))
    } else if values + mask > u64::MAX {
        Some(layout_overflow("checkpoint values and mask"))
    } else if values + mask + 8 * boundaries > u64::MAX {
        Some(layout_overflow("checkpoint chunk payload"))
    } else if values + mask + 8 * boundaries > bytes.len() - (offset + 72) {
        Some(
            truncated(
                bytes,
                offset + 72,
                (values + mask + 8 * boundaries) as int,
                "checkpoint chunk payload",
            ),
        )
    } else {
        None
    }
}

/// The reason why the chunk at `offset` is refused, if there is one.
#[verifier::opaque]
pub open spec fn chunk_payload_error(
    bytes: Seq<u8>,
    schema: SchemaView,
    offset: int,
    chunks: Seq<ChunkView>,
) -> Option<ActivationCacheError> {
    let chunk = read_chunk(bytes, schema, offset);
    let start = chunk.token_start;
    let persisted = bytes.subrange(offset + 40, offset + 72);
    if encoded_error(
        schema.dtype,
        chunk.values,
        start as nat * schema.feature_width as nat,
    ) is Some {
        encoded_error(schema.dtype, chunk.values, start as nat * schema.feature_width as nat)
    } else if !mask_canonical(chunk_mask_bytes(bytes, offset), chunk.token_count as nat) {
        Some(ActivationCacheError::NonCanonicalMask { index: 0 })
    } else if ends_error(chunk.ends, start, chunk.end() as u64, 0) is Some {
        ends_error(chunk.ends, start, chunk.end() as u64, 0)
    } else if persisted != chunk.digest() {
        Some(
            ActivationCacheError::CheckpointChunkDigestMismatch {
                token_start: start,
                expected: digest_of(persisted),
                got: digest_of(chunk.digest()),
            },
        )
    } else if chunks.len() > 0 && chunks.last().end() > start {
        Some(overlap(start, chunk.end() as u64, chunks.last()))
    } else {
        None
    }
}

/// The reason why no chunk can be read at `offset` behind some chunks, if there is one.
pub open spec fn chunk_read_error(
    bytes: Seq<u8>,
    schema: SchemaView,
    offset: int,
    chunks: Seq<ChunkView>,
) -> Option<ActivationCacheError> {
    if chunk_header_error(bytes, schema, offset, chunks) is Some {
        chunk_header_error(bytes, schema, offset, chunks)
    } else {
        chunk_payload_error(bytes, schema, offset, chunks)
    }
}

/// `left` chunks read one after the other from `offset` on, behind those read before, and where
/// the last record ends.
pub open spec fn chunk_scan(
    bytes: Seq<u8>,
    schema: SchemaView,
    left: nat,
    offset: int,
    chunks: Seq<ChunkView>,
) -> Result<(Seq<ChunkView>, int), ActivationCacheError>
    decreases left,
{
    if left == 0 {
        Ok((chunks, offset))
    } else {
        match chunk_read_error(bytes, schema, offset, chunks) {
            Some(error) => Err(error),
            None => chunk_scan(
                bytes,
                schema,
                (left - 1) as nat,
                offset + chunk_record_len(bytes, offset),
                chunks.push(read_chunk(bytes, schema, offset)),
            ),
        }
    }
}

/// The first byte of a little-endian field that is not zero.
pub open spec fn first_nonzero(field: Seq<u8>) -> u8
    decreases field.len(),
{
    if field.len() == 0 {
        0
    } else if field[0] != 0 {
        field[0]
    } else {
        first_nonzero(field.drop_first())
    }
}

/// The reason why a checkpoint body has no readable front, if there is one.
#[verifier::opaque]
pub open spec fn body_front_error(body: Seq<u8>) -> Option<ActivationCacheError> {
    let schema = read_schema(body);
    let at = manifest_end(body);
    let chunks = le_at(body, at, 4);
    if manifest_error(ManifestKind::Checkpoint, body) is Some {
        manifest_error(ManifestKind::Checkpoint, body)
    } else if body.len() < at + 4 {
        Some(truncated(body, at, 4, "checkpoint chunk count"))
    } else if body.len() < at + 12 {
        Some(truncated(body, at + 4, 8, "checkpoint covered token count"))
    } else if body.len() < at + 16 {
        Some(truncated(body, at + 12, 4, "checkpoint manifest reserved field"))
    } else if le_at(body, at + 12, 4) != 0 {
        Some(
            ActivationCacheError::NonZeroReservedByte {
                got: first_nonzero(body.subrange(at + 12, at + 12 + 4)),
            },
        )
    } else if schema.error() is Some {
        schema.error()
    } else if 72 * chunks > body.len() - (at + 16) {
        Some(truncated(body, at + 16, 72 * chunks as int, "checkpoint chunk headers"))
    } else if chunks > schema.total_tokens {
        Some(
            ActivationCacheError::CoveredTokenMismatch {
                expected: schema.total_tokens,
                got: chunks as u64,
            },
        )
    } else {
        None
    }
}

/// The builder that a checkpoint body holds.
pub open spec fn body_read(body: Seq<u8>) -> Result<BuilderView, ActivationCacheError> {
    let schema = read_schema(body);
    let at = manifest_end(body);
    match body_front_error(body) {
        Some(error) => Err(error),
        None => match chunk_scan(body, schema, le_at(body, at, 4), at + 16, Seq::empty()) {
            Err(error) => Err(error),
            Ok((chunks, end)) => if end != body.len() {
                Err(ActivationCacheError::TrailingBytes { count: (body.len() - end) as u64 })
            } else if covered(chunks) != le_at(body, at + 4, 8) {
                Err(
                    ActivationCacheError::CoveredTokenMismatch {
                        expected: covered(chunks) as u64,
                        got: le_at(body, at + 4, 8) as u64,
                    },
                )
            } else {
                Ok(BuilderView { schema, chunks })
            },
        },
    }
}

/// A checkpoint's bytes without the terminal digest.
pub open spec fn body_of(bytes: Seq<u8>) -> Seq<u8> {
    bytes.subrange(0, bytes.len() - 32)
}

/// The reason to refuse a checkpoint before its chunks are read, if there is one.
pub open spec fn opening_error(bytes: Seq<u8>, expected: Option<Seq<u8>>) -> Option<
    ActivationCacheError,
> {
    let persisted = bytes.subrange(bytes.len() - 32, bytes.len() as int);
    let got = checkpoint_digest(body_of(bytes));
    if bytes.len() < 116 {
        Some(truncated(bytes, 0, 116, "checkpoint manifest and digest"))
    } else if persisted != got {
        Some(
            ActivationCacheError::DigestMismatch {
                expected: digest_of(persisted),
                got: digest_of(got),
            },
        )
    } else if expected is Some && expected->0 != got {
        Some(
            ActivationCacheError::DigestMismatch {
                expected: digest_of(expected->0),
                got: digest_of(got),
            },
        )
    } else {
        body_front_error(body_of(bytes))
    }
}

/// What reopening a checkpoint gives when its digest has to be `expected`, if that is given.
pub open spec fn rebuilt(bytes: Seq<u8>, expected: Option<Seq<u8>>) -> Result<
    BuilderView,
    ActivationCacheError,
> {
    match opening_error(bytes, expected) {
        Some(error) => Err(error),
        None => body_read(body_of(bytes)),
    }
}

/// Where the parts of a canonical chunk record lie.
proof fn lemma_record_fields(chunk: ChunkView)
    ensures
        ({
            let whole = chunk_record(chunk);
            let fixed = 72 + chunk.values.len() as int;
            let at = fixed + packed_mask(chunk.mask).len();
            &&& whole.len() == at + 8 * chunk.ends.len()
            &&& whole.subrange(0, 8) == le(chunk.token_start as nat, 8)
            &&& whole.subrange(8, 16) == le(chunk.token_count as nat, 8)
            &&& whole.subrange(16, 24) == le(chunk.values.len(), 8)
            &&& whole.subrange(24, 32) == le(mask_bytes(chunk.mask.len()), 8)
            &&& whole.subrange(32, 40) == le(chunk.ends.len(), 8)
            &&& whole.subrange(40, 72) == chunk.digest()
            &&& whole.subrange(72, fixed) == chunk.values
            &&& whole.subrange(fixed, at) == packed_mask(chunk.mask)
            &&& whole.subrange(at, whole.len() as int) == stored_ends(chunk.ends)
        }),
{
    broadcast use lemma_le_len;

    lemma_stored_ends_len(chunk.ends);
    let whole = chunk_record(chunk);
    let packed = packed_mask(chunk.mask);
    let fixed = 72 + chunk.values.len() as int;
    let at = fixed + packed.len();
    assert(whole.subrange(0, 8) =~= le(chunk.token_start as nat, 8));
    assert(whole.subrange(8, 16) =~= le(chunk.token_count as nat, 8));
    assert(whole.subrange(16, 24) =~= le(chunk.values.len(), 8));
    assert(whole.subrange(24, 32) =~= le(mask_bytes(chunk.mask.len()), 8));
    assert(whole.subrange(32, 40) =~= le(chunk.ends.len(), 8));
    assert(whole.subrange(40, 72) =~= chunk.digest());
    assert(whole.subrange(72, fixed) =~= chunk.values);
    assert(whole.subrange(fixed, at) =~= packed);
    assert(whole.subrange(at, whole.len() as int) =~= stored_ends(chunk.ends));
}

/// A valid chunk's canonical record reads back as the chunk.
pub proof fn chunk_record_round_trip(
    bytes: Seq<u8>,
    schema: SchemaView,
    offset: int,
    chunks: Seq<ChunkView>,
    chunk: ChunkView,
)
    requires
        schema.valid(),
        chunk.valid(),
        chunk.fits(schema),
        chunks.len() > 0 ==> chunks.last().token_start < chunks.last().end() <= chunk.token_start,
        0 <= offset,
        bytes.len() <= u64::MAX,
        offset + chunk_record(chunk).len() <= bytes.len(),
        bytes.subrange(offset, offset + chunk_record(chunk).len()) == chunk_record(chunk),
    ensures
        chunk_read_error(bytes, schema, offset, chunks) is None,
        chunk_record_len(bytes, offset) == chunk_record(chunk).len(),
        read_chunk(bytes, schema, offset) == chunk,
{
    reveal(chunk_header_error);
    reveal(chunk_payload_error);
    lemma_le_limits();
    let whole = chunk_record(chunk);
    let packed = packed_mask(chunk.mask);
    let fixed = 72 + chunk.values.len() as int;
    let at = fixed + packed.len();
    lemma_record_fields(chunk);
    lemma_token_bytes(schema, chunk.token_count as nat);
    lemma_ends_count(chunk.ends, chunk.token_start as int, chunk.end());
    lemma_window(bytes, offset, whole, 0, 8);
    lemma_window(bytes, offset, whole, 8, 16);
    lemma_window(bytes, offset, whole, 16, 24);
    lemma_window(bytes, offset, whole, 24, 32);
    lemma_window(bytes, offset, whole, 32, 40);
    lemma_window(bytes, offset, whole, 40, 72);
    lemma_window(bytes, offset, whole, 72, fixed);
    lemma_window(bytes, offset, whole, fixed, at);
    lemma_window(bytes, offset, whole, at, whole.len() as int);
    le_round_trip(chunk.token_start as nat, 8);
    le_round_trip(chunk.token_count as nat, 8);
    le_round_trip(chunk.values.len(), 8);
    le_round_trip(mask_bytes(chunk.mask.len()), 8);
    le_round_trip(chunk.ends.len(), 8);
    assert(declared(bytes, offset, 0) == chunk.token_start);
    assert(declared(bytes, offset, 1) == chunk.token_count);
    assert(declared(bytes, offset, 2) == chunk.values.len());
    assert(declared(bytes, offset, 3) == packed.len());
    assert(declared(bytes, offset, 4) == chunk.ends.len());
    assert(chunk_mask_bytes(bytes, offset) == packed);
    mask_round_trip(chunk.mask);
    ends_round_trip(bytes, offset + at, chunk.ends);
    assert(read_chunk(bytes, schema, offset) == chunk);
    lemma_first_nonfinite(schema.dtype, chunk.values, 0);
    assert(chunk.ends.take(0) =~= Seq::empty());
    lemma_ends_error(chunk.ends, chunk.token_start, chunk.end() as u64, 0);
}

/// What reads as a chunk is the canonical record of a valid chunk of the schema.
pub proof fn chunk_record_is_canonical(
    bytes: Seq<u8>,
    schema: SchemaView,
    offset: int,
    chunks: Seq<ChunkView>,
)
    requires
        schema.valid(),
        0 <= offset,
        chunk_read_error(bytes, schema, offset, chunks) is None,
    ensures
        offset + chunk_record_len(bytes, offset) <= bytes.len(),
        read_chunk(bytes, schema, offset).valid(),
        read_chunk(bytes, schema, offset).fits(schema),
        bytes.subrange(offset, offset + chunk_record_len(bytes, offset)) == chunk_record(
            read_chunk(bytes, schema, offset),
        ),
        chunks.len() > 0 ==> chunks.last().end() <= read_chunk(bytes, schema, offset).token_start,
{
    broadcast use lemma_le_len;

    reveal(chunk_header_error);
    reveal(chunk_payload_error);
    lemma_le_limits();
    let chunk = read_chunk(bytes, schema, offset);
    let count = chunk.token_count as nat;
    let packed = chunk_mask_bytes(bytes, offset);
    let values = declared(bytes, offset, 2);
    let at = offset + 72 + values + declared(bytes, offset, 3);
    let boundaries = declared(bytes, offset, 4);
    le_is_canonical(bytes.subrange(offset + 8 * 0, offset + 8 * 0 + 8));
    le_is_canonical(bytes.subrange(offset + 8 * 1, offset + 8 * 1 + 8));
    le_is_canonical(bytes.subrange(offset + 8 * 2, offset + 8 * 2 + 8));
    le_is_canonical(bytes.subrange(offset + 8 * 3, offset + 8 * 3 + 8));
    le_is_canonical(bytes.subrange(offset + 8 * 4, offset + 8 * 4 + 8));
    lemma_token_bytes(schema, count);
    assert(chunk.values.len() == values);
    assert(packed.len() == mask_bytes(count));
    mask_is_canonical(packed, count);
    ends_are_canonical(bytes, at, boundaries);
    lemma_first_nonfinite(schema.dtype, chunk.values, 0);
    assert(chunk.ends.take(0) =~= Seq::empty());
    lemma_ends_error(chunk.ends, chunk.token_start, chunk.end() as u64, 0);
    assert(chunk.mask.len() == count);
    assert(chunk.ends.len() == boundaries);
    let end = offset + chunk_record_len(bytes, offset);
    assert(bytes.subrange(offset, end) =~= bytes.subrange(offset, offset + 8) + bytes.subrange(
        offset + 8,
        offset + 8 + 8,
    ) + bytes.subrange(offset + 16, offset + 16 + 8) + bytes.subrange(
        offset + 24,
        offset + 24 + 8,
    ) + bytes.subrange(offset + 32, offset + 32 + 8) + bytes.subrange(offset + 40, offset + 72)
        + chunk.values + packed + bytes.subrange(at, at + 8 * boundaries));
}

/// The records of some chunks start with those of fewer.
proof fn lemma_records_prefix(chunks: Seq<ChunkView>, few: int)
    requires
        0 <= few <= chunks.len(),
    ensures
        chunk_records(chunks.take(few)).len() <= chunk_records(chunks).len(),
        chunk_records(chunks).subrange(0, chunk_records(chunks.take(few)).len() as int)
            == chunk_records(chunks.take(few)),
    decreases chunks.len(),
{
    let all = chunk_records(chunks);
    if few < chunks.len() {
        let front = chunks.drop_last();
        lemma_records_prefix(front, few);
        assert(front.take(few) =~= chunks.take(few));
        let n = chunk_records(chunks.take(few)).len() as int;
        assert(all.subrange(0, n) =~= chunk_records(front).subrange(0, n));
    } else {
        assert(chunks.take(few) =~= chunks);
        assert(all.subrange(0, all.len() as int) =~= all);
    }
}

proof fn lemma_head_len(builder: BuilderView)
    requires
        builder.schema.valid(),
    ensures
        checkpoint_head(builder).len() == 84 + builder.schema.name_bytes().len(),
{
    broadcast use lemma_le_len;

    lemma_manifest_len(ManifestKind::Checkpoint, builder.schema);
}

/// A chunk's record lies in the body behind those of the chunks before it.
proof fn lemma_record_window(builder: BuilderView, index: nat)
    requires
        index < builder.chunks.len(),
    ensures
        ({
            let body = checkpoint_body(builder);
            let before = builder.chunks.take(index as int);
            let offset = (checkpoint_head(builder).len() + chunk_records(before).len()) as int;
            let part = chunk_record(builder.chunks[index as int]);
            &&& offset + part.len() <= body.len()
            &&& body.subrange(offset, offset + part.len()) == part
        }),
{
    let chunks = builder.chunks;
    let body = checkpoint_body(builder);
    let before = chunks.take(index as int);
    let through = chunks.take(index as int + 1);
    let head = checkpoint_head(builder).len();
    let offset = (head + chunk_records(before).len()) as int;
    let part = chunk_record(chunks[index as int]);
    assert(through.drop_last() =~= before);
    assert(through.last() == chunks[index as int]);
    lemma_records_prefix(chunks, index as int + 1);
    let n = chunk_records(through).len() as int;
    let all = chunk_records(chunks);
    assert forall|k: int| 0 <= k < part.len() implies body[offset + k] == part[k] by {
        let m = chunk_records(before).len() + k;
        assert(all.subrange(0, n)[m] == all[m]);
        assert(chunk_records(through)[m] == part[k]);
        assert(body[offset + k] == all[m]);
    }
    assert(body.subrange(offset, offset + part.len()) =~= part);
}

/// Reading the chunks of a canonical body gives them back.
proof fn lemma_scan_chunks(builder: BuilderView, index: nat)
    requires
        builder.valid(),
        checkpoint_body(builder).len() <= u64::MAX,
        index <= builder.chunks.len(),
    ensures
        chunk_scan(
            checkpoint_body(builder),
            builder.schema,
            (builder.chunks.len() - index) as nat,
            (checkpoint_head(builder).len() + chunk_records(
                builder.chunks.take(index as int),
            ).len()) as int,
            builder.chunks.take(index as int),
        ) == Ok::<(Seq<ChunkView>, int), ActivationCacheError>(
            (builder.chunks, checkpoint_body(builder).len() as int),
        ),
    decreases builder.chunks.len() - index,
{
    let chunks = builder.chunks;
    let body = checkpoint_body(builder);
    let before = chunks.take(index as int);
    let offset = (checkpoint_head(builder).len() + chunk_records(before).len()) as int;
    if index == chunks.len() {
        assert(before =~= chunks);
    } else {
        let chunk = chunks[index as int];
        let through = chunks.take(index as int + 1);
        assert(through.drop_last() =~= before);
        assert(through.last() == chunk);
        assert(before.push(chunk) =~= through);
        assert(chunk.valid() && chunk.fits(builder.schema));
        if index > 0 {
            assert(before.last() == chunks[index - 1]);
            assert(chunks[index - 1].valid());
            assert(chunks[index - 1].end() <= chunks[index as int].token_start);
        }
        lemma_record_window(builder, index);
        chunk_record_round_trip(body, builder.schema, offset, before, chunk);
        lemma_scan_chunks(builder, index + 1);
    }
}

/// Ordered valid chunks are at most as many as the tokens.
proof fn lemma_chunk_count(chunks: Seq<ChunkView>, total: nat)
    requires
        in_order(chunks),
        forall|k: int|
            0 <= k < chunks.len() ==> (#[trigger] chunks[k]).valid() && chunks[k].end() <= total,
    ensures
        chunks.len() <= covered(chunks),
        covered(chunks) <= total,
    decreases chunks.len(),
{
    lemma_covered_bound(chunks, total);
    if chunks.len() > 0 {
        let front = chunks.drop_last();
        assert forall|i: int, j: int| 0 <= i < j < front.len() implies #[trigger] front[i].end()
            <= #[trigger] front[j].token_start by {
            assert(chunks[i].end() <= chunks[j].token_start);
        }
        assert forall|k: int| 0 <= k < front.len() implies (#[trigger] front[k]).valid()
            && front[k].end() <= total by {
            assert(front[k] == chunks[k]);
        }
        lemma_chunk_count(front, total);
        assert(chunks[chunks.len() - 1].valid());
    }
}

proof fn lemma_records_len(chunks: Seq<ChunkView>)
    ensures
        chunk_records(chunks).len() >= 72 * chunks.len(),
    decreases chunks.len(),
{
    if chunks.len() > 0 {
        lemma_records_len(chunks.drop_last());
        lemma_record_fields(chunks.last());
    }
}

proof fn lemma_body_front(builder: BuilderView)
    requires
        builder.valid(),
        builder.chunks.len() <= u32::MAX,
        checkpoint_body(builder).len() <= u64::MAX,
    ensures
        body_front_error(checkpoint_body(builder)) is None,
        read_schema(checkpoint_body(builder)) == builder.schema,
        manifest_end(checkpoint_body(builder)) + 16 == checkpoint_head(builder).len(),
        le_at(checkpoint_body(builder), manifest_end(checkpoint_body(builder)), 4)
            == builder.chunks.len(),
        le_at(checkpoint_body(builder), manifest_end(checkpoint_body(builder)) + 4, 8) == covered(
            builder.chunks,
        ),
{
    broadcast use lemma_le_len;

    reveal(body_front_error);
    let body = checkpoint_body(builder);
    let schema = builder.schema;
    let chunks = builder.chunks;
    let m = manifest(ManifestKind::Checkpoint, schema);
    lemma_head_len(builder);
    lemma_manifest_len(ManifestKind::Checkpoint, schema);
    lemma_records_len(chunks);
    assert forall|k: int| 0 <= k < chunks.len() implies (#[trigger] chunks[k]).valid()
        && chunks[k].end() <= schema.total_tokens by {
        assert(chunks[k].valid() && chunks[k].fits(schema));
    }
    lemma_chunk_count(chunks, schema.total_tokens as nat);
    assert(body.subrange(0, m.len() as int) =~= m);
    manifest_round_trip(ManifestKind::Checkpoint, schema, body);
    let at = manifest_end(body);
    assert(at == m.len());
    assert(body.subrange(at, at + 4) =~= le(chunks.len(), 4));
    assert(body.subrange(at + 4, at + 4 + 8) =~= le(covered(chunks), 8));
    assert(body.subrange(at + 12, at + 12 + 4) =~= le(0, 4));
    lemma_le_limits();
    le_round_trip(chunks.len(), 4);
    le_round_trip(covered(chunks), 8);
    le_round_trip(0, 4);
}

/// Reading the canonical body of any valid builder gives the builder back.
proof fn lemma_body_round_trip(builder: BuilderView)
    requires
        builder.valid(),
        builder.chunks.len() <= u32::MAX,
        checkpoint_body(builder).len() <= u64::MAX,
    ensures
        body_read(checkpoint_body(builder)) == Ok::<BuilderView, ActivationCacheError>(builder),
{
    lemma_body_front(builder);
    lemma_scan_chunks(builder, 0);
    assert(builder.chunks.take(0) =~= Seq::empty());
}

/// Reopening the canonical checkpoint of any valid builder gives the builder back.
pub proof fn checkpoint_reopens_to_the_same_builder(builder: BuilderView)
    requires
        builder.valid(),
        builder.chunks.len() <= u32::MAX,
        checkpoint(builder).len() <= u64::MAX,
    ensures
        rebuilt(checkpoint(builder), None) == Ok::<BuilderView, ActivationCacheError>(builder),
        rebuilt(checkpoint(builder), Some(checkpoint_digest(checkpoint_body(builder)))) == Ok::<
            BuilderView,
            ActivationCacheError,
        >(builder),
{
    let bytes = checkpoint(builder);
    let body = checkpoint_body(builder);
    lemma_head_len(builder);
    assert(body_of(bytes) =~= body);
    assert(bytes.subrange(bytes.len() - 32, bytes.len() as int) =~= checkpoint_digest(body));
    lemma_body_round_trip(builder);
}

/// Bytes that scan without an error continue the canonical records of valid ordered chunks.
proof fn lemma_scan_is_canonical(
    bytes: Seq<u8>,
    schema: SchemaView,
    left: nat,
    front: int,
    offset: int,
    chunks: Seq<ChunkView>,
)
    requires
        schema.valid(),
        0 <= front <= offset <= bytes.len(),
        (BuilderView { schema, chunks }).valid(),
        bytes.subrange(front, offset) == chunk_records(chunks),
        chunk_scan(bytes, schema, left, offset, chunks) is Ok,
    ensures
        ({
            let read = chunk_scan(bytes, schema, left, offset, chunks)->Ok_0;
            &&& (BuilderView { schema, chunks: read.0 }).valid()
            &&& read.0.len() == chunks.len() + left
            &&& front <= read.1 <= bytes.len()
            &&& bytes.subrange(front, read.1) == chunk_records(read.0)
        }),
    decreases left,
{
    if left > 0 {
        chunk_record_is_canonical(bytes, schema, offset, chunks);
        let chunk = read_chunk(bytes, schema, offset);
        let next = offset + chunk_record_len(bytes, offset);
        let more = chunks.push(chunk);
        assert(more.drop_last() =~= chunks);
        assert(bytes.subrange(front, next) =~= bytes.subrange(front, offset) + bytes.subrange(
            offset,
            next,
        ));
        assert forall|i: int, j: int| 0 <= i < j < more.len() implies #[trigger] more[i].end()
            <= #[trigger] more[j].token_start by {
            if j < chunks.len() {
                assert(chunks[i].end() <= chunks[j].token_start);
            } else {
                assert(more[i] == chunks[i]);
                if i < chunks.len() - 1 {
                    assert(chunks[i].end() <= chunks[chunks.len() - 1].token_start);
                    assert(chunks[chunks.len() - 1].valid());
                }
            }
        }
        assert forall|k: int| 0 <= k < more.len() implies (#[trigger] more[k]).valid()
            && more[k].fits(schema) by {
            if k < chunks.len() {
                assert(more[k] == chunks[k]);
            }
        }
        lemma_scan_is_canonical(bytes, schema, (left - 1) as nat, front, next, more);
    }
}

/// Only canonical checkpoints reopen: bytes that are accepted are the checkpoint of the valid
/// builder that they give.
pub proof fn only_canonical_checkpoints_reopen(bytes: Seq<u8>, expected: Option<Seq<u8>>)
    requires
        rebuilt(bytes, expected) is Ok,
    ensures
        (rebuilt(bytes, expected)->Ok_0).valid(),
        (rebuilt(bytes, expected)->Ok_0).chunks.len() <= u32::MAX,
        checkpoint(rebuilt(bytes, expected)->Ok_0) == bytes,
{
    broadcast use lemma_le_len;

    reveal(body_front_error);
    let body = body_of(bytes);
    let schema = read_schema(body);
    let at = manifest_end(body);
    let count = le_at(body, at, 4);
    let builder = rebuilt(bytes, expected)->Ok_0;
    manifest_is_canonical(ManifestKind::Checkpoint, body);
    assert(body.subrange(at + 16, at + 16) =~= chunk_records(Seq::empty()));
    lemma_scan_is_canonical(body, schema, count, at + 16, at + 16, Seq::empty());
    lemma_le_limits();
    le_is_canonical(body.subrange(at, at + 4));
    le_is_canonical(body.subrange(at + 4, at + 4 + 8));
    le_is_canonical(body.subrange(at + 12, at + 12 + 4));
    assert(body =~= body.subrange(0, at) + body.subrange(at, at + 4) + body.subrange(
        at + 4,
        at + 4 + 8,
    ) + body.subrange(at + 12, at + 12 + 4) + body.subrange(at + 16, body.len() as int));
    assert(checkpoint_body(builder) =~= body);
    assert(bytes =~= body + bytes.subrange(bytes.len() - 32, bytes.len() as int));
}

/// A size that fits is the head and the records.
proof fn lemma_sized(chunks: Seq<ChunkView>, from: nat, size: nat)
    requires
        from <= chunks.len(),
        sized(chunks, from, size) is Ok,
        forall|k: int|
            0 <= k < chunks.len() ==> (#[trigger] chunks[k]).mask.len() == chunks[k].token_count,
    ensures
        sized(chunks, from, size)->Ok_0 == size + chunk_records(chunks).len() - chunk_records(
            chunks.take(from as int),
        ).len(),
    decreases chunks.len() - from,
{
    if from < chunks.len() {
        let chunk = chunks[from as int];
        let payload = chunk.values.len() + mask_bytes(chunk.token_count as nat) + 8
            * chunk.ends.len();
        lemma_record_fields(chunk);
        assert(chunk.mask.len() == chunk.token_count);
        let through = chunks.take(from as int + 1);
        assert(through.drop_last() =~= chunks.take(from as int));
        assert(through.last() == chunk);
        lemma_sized(chunks, from + 1, size + 72 + payload);
    } else {
        assert(chunks.take(from as int) =~= chunks);
    }
}

/// Appends one chunk record.
fn push_chunk(out: &mut Vec<u8>, chunk: &ActivationChunk)
    requires
        chunk.wf(),
    ensures
        final(out)@ == old(out)@ + chunk_record(chunk@),
{
    let mask: &[bool] = chunk.token_mask();
    let packed: Vec<u8> = pack_mask(mask, 0, mask.len());
    proof {
        assert(mask@.subrange(0, mask@.len() as int) =~= mask@);
    }
    let ghost before = out@;
    push_le(out, chunk.token_start(), 8);
    push_le(out, chunk.token_count(), 8);
    push_le(out, chunk.encoded_values().len() as u64, 8);
    push_le(out, packed.len() as u64, 8);
    push_le(out, chunk.sequence_ends().len() as u64, 8);
    push_bytes(out, chunk.digest().as_bytes().as_slice());
    push_bytes(out, chunk.encoded_values());
    push_bytes(out, packed.as_slice());
    push_ends(out, chunk.sequence_ends());
    assert(out@ =~= before + chunk_record(chunk@));
}

/// Hashes a checkpoint body under its domain.
fn hash_checkpoint(body: &[u8]) -> (digest: ActivationDigest)
    ensures
        digest@ == checkpoint_digest(body@),
{
    ActivationDigest::from_bytes(
        hash_parts("tritium salt v2 activation checkpoint v1\0".as_bytes(), body),
    )
}

/// The checkpoint's size, or the step of its layout that does not fit.
fn measure(chunks: &[ActivationChunk], name_bytes: u64) -> (size: Result<u64, ActivationCacheError>)
    requires
        name_bytes <= u32::MAX,
        forall|k: int| 0 <= k < chunks@.len() ==> (#[trigger] chunks@[k]).wf(),
    ensures
        match sized(chunk_views(chunks@), 0, (84 + name_bytes) as nat) {
            Err(error) => size == Err::<u64, ActivationCacheError>(error),
            Ok(all) => if all + 32 > u64::MAX {
                size == Err::<u64, ActivationCacheError>(
                    layout_overflow("checkpoint terminal digest"),
                )
            } else {
                size matches Ok(total) && total as nat == all + 32
            },
        },
{
    let ghost views = chunk_views(chunks@);
    let mut size: u64 = 84 + name_bytes;
    let mut index: usize = 0;
    while index < chunks.len()
        invariant
            index <= chunks@.len(),
            views == chunk_views(chunks@),
            forall|k: int| 0 <= k < chunks@.len() ==> (#[trigger] chunks@[k]).wf(),
            sized(views, 0, (84 + name_bytes) as nat) == sized(views, index as nat, size as nat),
        decreases chunks@.len() - index,
    {
        let chunk = &chunks[index];
        assert(views[index as int] == chunk@);
        let count: u64 = chunk.token_count();
        let packed: u64 = count / 8 + if count % 8 == 0 {
            0u64
        } else {
            1u64
        };
        assert(packed as nat == mask_bytes(count as nat));
        let boundaries: u64 = checked_mul(
            chunk.sequence_ends().len() as u64,
            8,
            "checkpoint boundary bytes",
        )?;
        let fixed: u64 = checked_add(
            chunk.encoded_values().len() as u64,
            packed,
            "checkpoint values and mask",
        )?;
        let payload: u64 = checked_add(fixed, boundaries, "checkpoint chunk payload")?;
        let whole: u64 = checked_add(72, payload, "checkpoint chunk record")?;
        size = checked_add(size, whole, "checkpoint bytes")?;
        index = index + 1;
    }
    checked_add(size, 32, "checkpoint terminal digest")
}

impl ActivationCacheBuilder {
    /// Canonically encodes this partial builder for durable crash recovery.
    ///
    /// Chunks are emitted in range order regardless of ingestion order. Returned digest covers
    /// every byte before the terminal digest field and is stored in that field as well.
    pub fn encode_checkpoint(&self) -> (encoded: Result<
        (Vec<u8>, ActivationDigest),
        ActivationCacheError,
    >)
        requires
            self.wf(),
        ensures
            match checkpoint_size(self@) {
                Err(error) => encoded == Err::<(Vec<u8>, ActivationDigest), ActivationCacheError>(
                    error,
                ),
                Ok(size) => {
                    ||| encoded == Err::<(Vec<u8>, ActivationDigest), ActivationCacheError>(
                        ActivationCacheError::AllocationFailed { bytes: size as u64 },
                    )
                    ||| if self@.chunks.len() > u32::MAX {
                        encoded == Err::<(Vec<u8>, ActivationDigest), ActivationCacheError>(
                            layout_overflow("checkpoint chunk count"),
                        )
                    } else {
                        &&& encoded matches Ok(made)
                        &&& made.0@ == checkpoint(self@)
                        &&& made.1@ == checkpoint_digest(checkpoint_body(self@))
                        &&& made.0@.len() == size
                    }
                },
            },
    {
        proof {
            self.wf_valid();
        }
        let name: &[u8] = self.spec().tensor_name().as_bytes();
        let size: u64 = measure(self.chunks(), name.len() as u64)?;
        let capacity: usize = usize_from_u64(size, "checkpoint allocation")?;
        self.encode_checkpoint_in(reserved(capacity))
    }

    /// Encodes this partial builder into a vector; `None` where memory for it was refused.
    pub fn encode_checkpoint_in(&self, room: Option<Vec<u8>>) -> (encoded: Result<
        (Vec<u8>, ActivationDigest),
        ActivationCacheError,
    >)
        requires
            self.wf(),
            room matches Some(empty) ==> empty@.len() == 0,
        ensures
            match checkpoint_size(self@) {
                Err(error) => encoded == Err::<(Vec<u8>, ActivationDigest), ActivationCacheError>(
                    error,
                ),
                Ok(size) => if room is None {
                    encoded == Err::<(Vec<u8>, ActivationDigest), ActivationCacheError>(
                        ActivationCacheError::AllocationFailed { bytes: size as u64 },
                    )
                } else if self@.chunks.len() > u32::MAX {
                    encoded == Err::<(Vec<u8>, ActivationDigest), ActivationCacheError>(
                        layout_overflow("checkpoint chunk count"),
                    )
                } else {
                    &&& encoded matches Ok(made)
                    &&& made.0@ == checkpoint(self@)
                    &&& made.1@ == checkpoint_digest(checkpoint_body(self@))
                    &&& made.0@.len() == size
                },
            },
    {
        proof {
            self.wf_valid();
        }
        let chunks: &[ActivationChunk] = self.chunks();
        let name: &[u8] = self.spec().tensor_name().as_bytes();
        let size: u64 = measure(chunks, name.len() as u64)?;
        let _capacity: usize = usize_from_u64(size, "checkpoint allocation")?;
        let mut encoded: Vec<u8> = match room {
            None => {
                return Err(ActivationCacheError::AllocationFailed { bytes: size });
            },
            Some(empty) => empty,
        };
        let count: u64 = chunks.len() as u64;
        if count > u32::MAX as u64 {
            return Err(
                ActivationCacheError::ArithmeticOverflow { context: "checkpoint chunk count" },
            );
        }
        push_manifest(&mut encoded, ManifestKind::Checkpoint, self.spec());
        push_le(&mut encoded, count, 4);
        push_le(&mut encoded, self.covered_tokens(), 8);
        push_le(&mut encoded, 0, 4);
        let ghost head = encoded@;
        assert(head =~= checkpoint_head(self@));
        let mut index: usize = 0;
        assert(encoded@ =~= head + chunk_records(self@.chunks.take(0)));
        while index < chunks.len()
            invariant
                index <= chunks@.len(),
                chunk_views(chunks@) == self@.chunks,
                forall|k: int| 0 <= k < chunks@.len() ==> (#[trigger] chunks@[k]).wf(),
                encoded@ == head + chunk_records(self@.chunks.take(index as int)),
            decreases chunks@.len() - index,
        {
            push_chunk(&mut encoded, &chunks[index]);
            proof {
                let through = self@.chunks.take(index + 1);
                assert(through.drop_last() =~= self@.chunks.take(index as int));
                assert(through.last() == chunks@[index as int]@);
                assert(encoded@ =~= head + chunk_records(through));
            }
            index = index + 1;
        }
        assert(self@.chunks.take(index as int) =~= self@.chunks);
        let digest: ActivationDigest = hash_checkpoint(encoded.as_slice());
        push_bytes(&mut encoded, digest.as_bytes().as_slice());
        proof {
            assert forall|k: int| 0 <= k < self@.chunks.len() implies (
            #[trigger] self@.chunks[k]).mask.len() == self@.chunks[k].token_count by {
                assert(self@.chunks[k].valid());
            }
            lemma_sized(self@.chunks, 0, 84 + self@.schema.name_bytes().len());
            assert(self@.chunks.take(0) =~= Seq::empty());
            lemma_head_len(self@);
        }
        Ok((encoded, digest))
    }
}

/// The fixed fields of a chunk header.
struct ChunkHeader {
    start: u64,
    count: u64,
    value_bytes: u64,
    mask_bytes: u64,
    boundaries: u64,
}

/// Reads and checks the header of the chunk record at `offset`.
fn read_chunk_header(
    bytes: &[u8],
    spec: &ActivationCacheSpec,
    offset: usize,
    previous: Option<u64>,
    Ghost(chunks): Ghost<Seq<ChunkView>>,
) -> (header: Result<ChunkHeader, ActivationCacheError>)
    requires
        spec.wf(),
        offset <= bytes@.len(),
        previous == if chunks.len() > 0 {
            Some(chunks.last().token_start)
        } else {
            None
        },
    ensures
        match chunk_header_error(bytes@, spec@, offset as int, chunks) {
            Some(error) => header == Err::<ChunkHeader, ActivationCacheError>(error),
            None => {
                &&& header matches Ok(read)
                &&& read.start as nat == declared(bytes@, offset as int, 0)
                &&& read.count as nat == declared(bytes@, offset as int, 1)
                &&& read.value_bytes as nat == declared(bytes@, offset as int, 2)
                &&& read.mask_bytes as nat == declared(bytes@, offset as int, 3)
                &&& read.boundaries as nat == declared(bytes@, offset as int, 4)
            },
        },
{
    proof {
        reveal(chunk_header_error);
    }
    let length: usize = bytes.len();
    need(bytes, offset, 8, "checkpoint chunk start")?;
    need(bytes, offset + 8, 8, "checkpoint chunk count")?;
    need(bytes, offset + 16, 8, "checkpoint chunk value bytes")?;
    need(bytes, offset + 24, 8, "checkpoint chunk mask bytes")?;
    need(bytes, offset + 32, 8, "checkpoint chunk boundary count")?;
    need(bytes, offset + 40, 32, "checkpoint chunk digest")?;
    let start: u64 = read_le(bytes, offset, 8);
    let count: u64 = read_le(bytes, offset + 8, 8);
    let value_bytes: u64 = read_le(bytes, offset + 16, 8);
    let packed_bytes: u64 = read_le(bytes, offset + 24, 8);
    let boundaries: u64 = read_le(bytes, offset + 32, 8);
    proof {
        spec.wf_valid();
        lemma_le_limits();
        assert(start as nat == declared(bytes@, offset as int, 0));
        assert(count as nat == declared(bytes@, offset as int, 1));
        assert(value_bytes as nat == declared(bytes@, offset as int, 2));
        assert(packed_bytes as nat == declared(bytes@, offset as int, 3));
        assert(boundaries as nat == declared(bytes@, offset as int, 4));
    }
    match previous {
        Some(previous_start) => {
            if start <= previous_start {
                return Err(
                    ActivationCacheError::NonCanonicalChunkOrder { previous_start, start },
                );
            }
        },
        None => {},
    }
    if count == 0 {
        return Err(ActivationCacheError::EmptyChunk);
    }
    let end: u64 = checked_add(start, count, "checkpoint chunk end")?;
    let total: u64 = spec.total_tokens();
    if end > total {
        return Err(ActivationCacheError::ChunkOutOfBounds { start, count, total });
    }
    proof {
        lemma_token_bytes(spec@, count as nat);
        lemma_token_bytes(spec@, 1);
    }
    let row_bytes: u64 = spec.feature_width() * spec.dtype().encoded_width() as u64;
    let expected_values: u64 = count * row_bytes;
    if value_bytes != expected_values {
        return Err(
            ActivationCacheError::ValueCountMismatch {
                expected: expected_values,
                got: value_bytes,
            },
        );
    }
    let expected_mask: u64 = count / 8 + if count % 8 == 0 {
        0u64
    } else {
        1u64
    };
    assert(expected_mask as nat == mask_bytes(count as nat));
    if packed_bytes != expected_mask {
        return Err(
            ActivationCacheError::MaskLengthMismatch {
                expected: expected_mask,
                got: packed_bytes,
            },
        );
    }
    if boundaries > count {
        let boundary: u64 = if end < u64::MAX {
            end + 1
        } else {
            u64::MAX
        };
        return Err(
            ActivationCacheError::InvalidBoundary {
                previous: start,
                boundary,
                chunk_start: start,
                chunk_end: end,
            },
        );
    }
    let boundary_bytes: u64 = checked_mul(boundaries, 8, "checkpoint chunk boundary bytes")?;
    let fixed: u64 = checked_add(value_bytes, packed_bytes, "checkpoint values and mask")?;
    let payload: u64 = checked_add(fixed, boundary_bytes, "checkpoint chunk payload")?;
    need(bytes, offset + 72, payload, "checkpoint chunk payload")?;
    Ok(ChunkHeader { start, count, value_bytes, mask_bytes: packed_bytes, boundaries })
}

/// The scalars of an interval lie within the index range of the tensor.
proof fn lemma_scalar_range(schema: SchemaView, start: nat, count: nat)
    requires
        schema.valid(),
        start + count <= schema.total_tokens,
    ensures
        start * schema.feature_width as nat + count * schema.row_bytes() <= u64::MAX,
        start * schema.feature_width as nat <= u64::MAX,
{
    let features = schema.feature_width as nat;
    let width = schema.dtype.width();
    let row = schema.row_bytes();
    lemma_token_bytes(schema, start + count);
    assert((start + count) * row == start * row + count * row) by (nonlinear_arith);
    assert(start * features <= start * row) by (nonlinear_arith)
        requires
            row == features * width,
            width >= 1,
    ;
}

/// The refusal of the chunk at `offset` up to its digest, if there is one; an overlap with the
/// chunks before it is not looked for.
spec fn content_error(bytes: Seq<u8>, schema: SchemaView, offset: int) -> Option<
    ActivationCacheError,
> {
    chunk_payload_error(bytes, schema, offset, Seq::empty())
}

/// Reads the chunk record at `offset` and where the next one starts.
fn read_chunk_record(
    bytes: &[u8],
    spec: &ActivationCacheSpec,
    offset: usize,
    previous: Option<u64>,
    Ghost(chunks): Ghost<Seq<ChunkView>>,
) -> (chunk: Result<(ActivationChunk, usize), ActivationCacheError>)
    requires
        spec.wf(),
        offset <= bytes@.len(),
        previous == if chunks.len() > 0 {
            Some(chunks.last().token_start)
        } else {
            None
        },
    ensures
        match chunk_header_error(bytes@, spec@, offset as int, chunks) {
            Some(error) => chunk == Err::<(ActivationChunk, usize), ActivationCacheError>(error),
            None => match content_error(bytes@, spec@, offset as int) {
                Some(error) => chunk == Err::<(ActivationChunk, usize), ActivationCacheError>(
                    error,
                ),
                None => {
                    &&& chunk matches Ok(read)
                    &&& read.0.wf()
                    &&& read.0@ == read_chunk(bytes@, spec@, offset as int)
                    &&& read.1 == offset + chunk_record_len(bytes@, offset as int)
                    &&& read.1 <= bytes@.len()
                },
            },
        },
{
    let length: usize = bytes.len();
    let header: ChunkHeader = read_chunk_header(bytes, spec, offset, previous, Ghost(chunks))?;
    let ghost at = offset as int;
    let ghost view = read_chunk(bytes@, spec@, at);
    proof {
        reveal(chunk_payload_error);
        reveal(chunk_header_error);
        spec.wf_valid();
        lemma_scalar_range(spec@, header.start as nat, header.count as nat);
        lemma_token_bytes(spec@, header.count as nat);
    }
    let value_end: usize = offset + 72 + header.value_bytes as usize;
    let mask_end: usize = value_end + header.mask_bytes as usize;
    let end: usize = mask_end + 8 * header.boundaries as usize;
    let values: &[u8] = window(bytes, offset + 72, value_end);
    let packed: &[u8] = window(bytes, value_end, mask_end);
    assert(values@ == view.values);
    assert(packed@ == chunk_mask_bytes(bytes@, at));
    validate_encoded_values(spec.dtype(), values, header.start * spec.feature_width())?;
    validate_canonical_mask(packed, header.count, 0)?;
    proof {
        let row = spec@.row_bytes() as int;
        let tokens = header.count as int;
        assert(tokens <= tokens * row) by (nonlinear_arith)
            requires
                row >= 1,
                tokens >= 0,
        ;
    }
    let mask: Vec<bool> = unpack_mask(packed, header.count as usize);
    let ends: Vec<u64> = collect_read_ends(bytes, mask_end, header.boundaries as usize);
    check_ends(ends.as_slice(), header.start, header.start + header.count)?;
    assert(mask@ == view.mask);
    assert(ends@ == view.ends);
    let persisted: ActivationDigest = ActivationDigest::from_bytes(read_32(bytes, offset + 40));
    let got: ActivationDigest = compute_chunk_digest(
        spec.schema_digest(),
        header.start,
        header.count,
        values,
        packed,
        ends.as_slice(),
    );
    proof {
        mask_is_canonical(packed@, header.count as nat);
        assert(got@ == view.digest());
        lemma_digest_of(got);
        lemma_digest_of(persisted);
    }
    if !got.same(&persisted) {
        return Err(
            ActivationCacheError::CheckpointChunkDigestMismatch {
                token_start: header.start,
                expected: persisted,
                got,
            },
        );
    }
    let mut owned: Vec<u8> = Vec::new();
    push_bytes(&mut owned, values);
    proof {
        assert(owned@ =~= values@);
        lemma_first_nonfinite(spec@.dtype, view.values, 0);
        assert(view.ends.take(0) =~= Seq::empty());
        lemma_ends_error(view.ends, view.token_start, view.end() as u64, 0);
    }
    let chunk = ActivationChunk::assemble(spec, header.start, header.count, owned, mask, ends);
    Ok((chunk, end))
}

/// How many chunks the manifest of a checkpoint declares.
pub open spec fn declared_chunks(bytes: Seq<u8>) -> nat {
    le_at(body_of(bytes), manifest_end(body_of(bytes)), 4)
}

/// What is reported where memory for the declared chunks of a checkpoint is refused.
pub open spec fn chunk_memory_refused(bytes: Seq<u8>) -> ActivationCacheError {
    ActivationCacheError::AllocationFailed { bytes: declared_chunks(bytes) as u64 }
}

/// The start of the last chunk.
fn last_start(builder: &ActivationCacheBuilder) -> (start: Option<u64>)
    requires
        builder.wf(),
    ensures
        start == if builder@.chunks.len() > 0 {
            Some(builder@.chunks.last().token_start)
        } else {
            None
        },
{
    let chunks: &[ActivationChunk] = builder.chunks();
    if chunks.len() == 0 {
        return None;
    }
    assert(builder@.chunks.last() == chunks@[chunks@.len() - 1]@);
    Some(chunks[chunks.len() - 1].token_start())
}

/// A readable header lies behind the chunks before it; a chunk that is accepted on its own can then
/// only overlap the last one.
proof fn lemma_behind(bytes: Seq<u8>, schema: SchemaView, offset: int, chunks: Seq<ChunkView>)
    requires
        chunk_header_error(bytes, schema, offset, chunks) is None,
        content_error(bytes, schema, offset) is None,
    ensures
        chunks.len() > 0 ==> chunks.last().token_start < read_chunk(
            bytes,
            schema,
            offset,
        ).token_start,
        chunk_payload_error(bytes, schema, offset, chunks) == if chunks.len() > 0
            && chunks.last().end() > read_chunk(bytes, schema, offset).token_start {
            Some(
                overlap(
                    read_chunk(bytes, schema, offset).token_start,
                    read_chunk(bytes, schema, offset).end() as u64,
                    chunks.last(),
                ),
            )
        } else {
            None::<ActivationCacheError>
        },
{
    reveal(chunk_header_error);
    reveal(chunk_payload_error);
    lemma_le_limits();
    le_is_canonical(bytes.subrange(offset + 8 * 0, offset + 8 * 0 + 8));
}

/// A chunk that is refused on its own is refused for the same reason behind other chunks.
proof fn lemma_refused(bytes: Seq<u8>, schema: SchemaView, offset: int, chunks: Seq<ChunkView>)
    ensures
        content_error(bytes, schema, offset) is Some ==> chunk_payload_error(
            bytes,
            schema,
            offset,
            chunks,
        ) == content_error(bytes, schema, offset),
{
    reveal(chunk_payload_error);
}

/// Adds the chunk whose record is at `offset`, and says where the next record starts.
fn ingest_next(builder: &mut ActivationCacheBuilder, bytes: &[u8], offset: usize) -> (next: Result<
    usize,
    ActivationCacheError,
>)
    requires
        old(builder).wf(),
        offset <= bytes@.len(),
    ensures
        final(builder).wf(),
        final(builder)@.schema == old(builder)@.schema,
        match chunk_read_error(
            bytes@,
            old(builder)@.schema,
            offset as int,
            old(builder)@.chunks,
        ) {
            Some(error) => next == Err::<usize, ActivationCacheError>(error),
            None => {
                &&& next matches Ok(at)
                &&& at == offset + chunk_record_len(bytes@, offset as int)
                &&& at <= bytes@.len()
                &&& final(builder)@.chunks == old(builder)@.chunks.push(
                    read_chunk(bytes@, old(builder)@.schema, offset as int),
                )
            },
        },
{
    let ghost chunks = builder@.chunks;
    let previous: Option<u64> = last_start(builder);
    proof {
        lemma_refused(bytes@, builder@.schema, offset as int, chunks);
    }
    let (chunk, next): (ActivationChunk, usize) = read_chunk_record(
        bytes,
        builder.spec(),
        offset,
        previous,
        Ghost(chunks),
    )?;
    proof {
        builder.wf_valid();
        chunk.wf_valid();
        assert forall|k: int| 0 <= k < chunks.len() implies (#[trigger] chunks[k]).token_start
            < chunks[k].end() by {
            assert(chunks[k].valid());
        }
        lemma_behind(bytes@, builder@.schema, offset as int, chunks);
        lemma_conflict_behind(chunks, chunk@.token_start, chunk@.end() as u64);
        assert(chunks.insert(chunks.len() as int, chunk@) =~= chunks.push(chunk@));
    }
    builder.ingest_granted(chunk, true)?;
    Ok(next)
}

/// Reads `count` chunks into an empty builder.
fn read_chunks(
    bytes: &[u8],
    spec: ActivationCacheSpec,
    offset: usize,
    count: u32,
    room: Vec<ActivationChunk>,
) -> (read: Result<(ActivationCacheBuilder, usize), ActivationCacheError>)
    requires
        spec.wf(),
        offset <= bytes@.len(),
        room@.len() == 0,
    ensures
        match chunk_scan(bytes@, spec@, count as nat, offset as int, Seq::empty()) {
            Err(error) => read == Err::<(ActivationCacheBuilder, usize), ActivationCacheError>(
                error,
            ),
            Ok((chunks, end)) => {
                &&& read matches Ok(all)
                &&& all.0.wf()
                &&& all.0@ == (BuilderView { schema: spec@, chunks })
                &&& all.1 == end
                &&& all.1 <= bytes@.len()
            },
        },
{
    let ghost schema = spec@;
    let mut builder: ActivationCacheBuilder = ActivationCacheBuilder::new_in(spec, room);
    let mut at: usize = offset;
    let mut index: u32 = 0;
    while index < count
        invariant
            index <= count,
            at <= bytes@.len(),
            builder.wf(),
            builder@.schema == schema,
            schema == spec@,
            chunk_scan(bytes@, schema, count as nat, offset as int, Seq::empty()) == chunk_scan(
                bytes@,
                schema,
                (count - index) as nat,
                at as int,
                builder@.chunks,
            ),
        decreases count - index,
    {
        let ghost before = builder@.chunks;
        let ghost left = (count - index) as nat;
        assert(chunk_scan(bytes@, schema, left, at as int, before) == match chunk_read_error(
            bytes@,
            schema,
            at as int,
            before,
        ) {
            Some(error) => Err::<(Seq<ChunkView>, int), ActivationCacheError>(error),
            None => chunk_scan(
                bytes@,
                schema,
                (left - 1) as nat,
                at + chunk_record_len(bytes@, at as int),
                before.push(read_chunk(bytes@, schema, at as int)),
            ),
        });
        at = ingest_next(&mut builder, bytes, at)?;
        index = index + 1;
    }
    Ok((builder, at))
}

/// The first byte of a nonzero four-byte field that is not zero.
fn nonzero_byte(bytes: &[u8], at: usize) -> (byte: u8)
    requires
        at + 4 <= bytes@.len(),
    ensures
        byte == first_nonzero(bytes@.subrange(at as int, at + 4)),
{
    let length: usize = bytes.len();
    let ghost field = bytes@.subrange(at as int, at + 4);
    let mut index: usize = 0;
    assert(bytes@.subrange(at + 0, at + 4) =~= field);
    while index < 4
        invariant
            index <= 4,
            at + 4 <= length == bytes@.len(),
            field == bytes@.subrange(at as int, at + 4),
            first_nonzero(field) == first_nonzero(bytes@.subrange(at + index, at + 4)),
        decreases 4 - index,
    {
        let byte: u8 = bytes[at + index];
        proof {
            let rest = bytes@.subrange(at + index, at + 4);
            assert(rest[0] == byte);
            assert(rest.drop_first() =~= bytes@.subrange(at + index + 1, at + 4));
        }
        if byte != 0 {
            return byte;
        }
        index = index + 1;
    }
    0
}

/// What stands before the chunks of a checkpoint body.
struct BodyFront {
    spec: ActivationCacheSpec,
    chunks: u32,
    covered: u64,
    start: usize,
}

/// Reads and checks what stands before the chunks of a checkpoint body.
fn read_body_front(body: &[u8]) -> (front: Result<BodyFront, ActivationCacheError>)
    ensures
        match body_front_error(body@) {
            Some(error) => front == Err::<BodyFront, ActivationCacheError>(error),
            None => {
                &&& front matches Ok(read)
                &&& read.spec.wf()
                &&& read.spec@ == read_schema(body@)
                &&& read.chunks as nat == le_at(body@, manifest_end(body@), 4)
                &&& read.covered as nat == le_at(body@, manifest_end(body@) + 4, 8)
                &&& read.start == manifest_end(body@) + 16
                &&& read.start <= body@.len()
            },
        },
{
    proof {
        reveal(body_front_error);
    }
    let length: usize = body.len();
    let fields = read_manifest(ManifestKind::Checkpoint, body)?;
    proof {
        lemma_le_limits();
    }
    let at: usize = fields.end;
    need(body, at, 4, "checkpoint chunk count")?;
    need(body, at + 4, 8, "checkpoint covered token count")?;
    need(body, at + 12, 4, "checkpoint manifest reserved field")?;
    let chunks: u32 = read_le(body, at, 4) as u32;
    let declared_tokens: u64 = read_le(body, at + 4, 8);
    let reserved: u64 = read_le(body, at + 12, 4);
    if reserved != 0 {
        return Err(
            ActivationCacheError::NonZeroReservedByte { got: nonzero_byte(body, at + 12) },
        );
    }
    let spec: ActivationCacheSpec = fields.validate()?;
    let start: usize = at + 16;
    need(body, start, 72 * chunks as u64, "checkpoint chunk headers")?;
    if chunks as u64 > spec.total_tokens() {
        return Err(
            ActivationCacheError::CoveredTokenMismatch {
                expected: spec.total_tokens(),
                got: chunks as u64,
            },
        );
    }
    Ok(BodyFront { spec, chunks, covered: declared_tokens, start })
}

/// Checks the identities of a checkpoint and reads what stands before its chunks.
fn open_checkpoint(encoded: &[u8], expected: Option<ActivationDigest>) -> (front: Result<
    BodyFront,
    ActivationCacheError,
>)
    ensures
        match opening_error(encoded@, expected_bytes(expected)) {
            Some(error) => front == Err::<BodyFront, ActivationCacheError>(error),
            None => {
                let body = body_of(encoded@);
                &&& encoded@.len() >= 116
                &&& front matches Ok(read)
                &&& read.spec.wf()
                &&& read.spec@ == read_schema(body)
                &&& read.chunks as nat == le_at(body, manifest_end(body), 4)
                &&& read.covered as nat == le_at(body, manifest_end(body) + 4, 8)
                &&& read.start == manifest_end(body) + 16
                &&& read.start <= body.len()
            },
        },
{
    need(encoded, 0, 116, "checkpoint manifest and digest")?;
    let digest_start: usize = encoded.len() - 32;
    let body: &[u8] = window(encoded, 0, digest_start);
    let persisted: ActivationDigest = ActivationDigest::from_bytes(read_32(encoded, digest_start));
    let got: ActivationDigest = hash_checkpoint(body);
    proof {
        lemma_digest_of(got);
        lemma_digest_of(persisted);
    }
    if !persisted.same(&got) {
        return Err(ActivationCacheError::DigestMismatch { expected: persisted, got });
    }
    match expected {
        Some(required) => {
            if !required.same(&got) {
                proof {
                    lemma_digest_of(required);
                }
                return Err(ActivationCacheError::DigestMismatch { expected: required, got });
            }
        },
        None => {},
    }
    read_body_front(body)
}

/// An empty vector with room for chunks; `None` where memory is refused, which it is not for none.
fn reserved_chunks(count: usize) -> (room: Option<Vec<ActivationChunk>>)
    ensures
        room matches Some(empty) ==> empty@.len() == 0,
        count == 0 ==> room is Some,
{
    let mut room: Vec<ActivationChunk> = Vec::new();
    if count == 0 {
        return Some(room);
    }
    match room.try_reserve(count) {
        Ok(_) => Some(room),
        Err(_) => None,
    }
}

/// Reopens a checkpoint whose identity may be required.
fn decode_builder_checkpoint(encoded: &[u8], expected: Option<ActivationDigest>) -> (builder: Result<
    ActivationCacheBuilder,
    ActivationCacheError,
>)
    ensures
        match opening_error(encoded@, expected_bytes(expected)) {
            Some(error) => builder == Err::<ActivationCacheBuilder, ActivationCacheError>(error),
            None => {
                ||| declared_chunks(encoded@) > 0 && builder == Err::<
                    ActivationCacheBuilder,
                    ActivationCacheError,
                >(chunk_memory_refused(encoded@))
                ||| match rebuilt(encoded@, expected_bytes(expected)) {
                    Err(error) => builder == Err::<ActivationCacheBuilder, ActivationCacheError>(error),
                    Ok(held) => builder matches Ok(made) && made.wf() && made@ == held,
                }
            },
        },
{
    let room: Option<Vec<ActivationChunk>> = match open_checkpoint(encoded, expected) {
        Ok(front) => reserved_chunks(front.chunks as usize),
        Err(_) => None,
    };
    ActivationCacheBuilder::reopened_in(encoded, expected, room)
}

impl ActivationCacheBuilder {
    /// Reopens a checkpoint into a vector for its chunks; `None` where memory for them was
    /// refused.
    pub fn reopened_in(
        encoded: &[u8],
        expected: Option<ActivationDigest>,
        room: Option<Vec<ActivationChunk>>,
    ) -> (builder: Result<Self, ActivationCacheError>)
        requires
            room matches Some(empty) ==> empty@.len() == 0,
        ensures
            match opening_error(encoded@, expected_bytes(expected)) {
                Some(error) => builder == Err::<Self, ActivationCacheError>(error),
                None => if room is None {
                    builder == Err::<Self, ActivationCacheError>(chunk_memory_refused(encoded@))
                } else {
                    match rebuilt(encoded@, expected_bytes(expected)) {
                        Err(error) => builder == Err::<Self, ActivationCacheError>(error),
                        Ok(held) => builder matches Ok(made) && made.wf() && made@ == held,
                    }
                },
            },
    {
        let front: BodyFront = open_checkpoint(encoded, expected)?;
        let room: Vec<ActivationChunk> = match room {
            None => {
                return Err(ActivationCacheError::AllocationFailed { bytes: front.chunks as u64 });
            },
            Some(empty) => empty,
        };
        let body: &[u8] = window(encoded, 0, encoded.len() - 32);
        let (builder, end): (ActivationCacheBuilder, usize) = read_chunks(
            body,
            front.spec,
            front.start,
            front.chunks,
            room,
        )?;
        if end != body.len() {
            return Err(ActivationCacheError::TrailingBytes { count: (body.len() - end) as u64 });
        }
        if builder.covered_tokens() != front.covered {
            return Err(
                ActivationCacheError::CoveredTokenMismatch {
                    expected: builder.covered_tokens(),
                    got: front.covered,
                },
            );
        }
        Ok(builder)
    }

    /// Reopens and fully validates a canonical partial-builder checkpoint.
    pub fn from_checkpoint(encoded: &[u8]) -> (builder: Result<Self, ActivationCacheError>)
        ensures
            match opening_error(encoded@, None) {
                Some(error) => builder == Err::<Self, ActivationCacheError>(error),
                None => {
                    ||| declared_chunks(encoded@) > 0 && builder == Err::<Self, ActivationCacheError>(
                        chunk_memory_refused(encoded@),
                    )
                    ||| match rebuilt(encoded@, None) {
                        Err(error) => builder == Err::<Self, ActivationCacheError>(error),
                        Ok(held) => builder matches Ok(made) && made.wf() && made@ == held,
                    }
                },
            },
    {
        decode_builder_checkpoint(encoded, None)
    }

    /// Reopens a partial checkpoint and requires its recomputed identity to match `expected`.
    pub fn from_checkpoint_verified(encoded: &[u8], expected: ActivationDigest) -> (builder: Result<
        Self,
        ActivationCacheError,
    >)
        ensures
            match opening_error(encoded@, Some(expected@)) {
                Some(error) => builder == Err::<Self, ActivationCacheError>(error),
                None => {
                    ||| declared_chunks(encoded@) > 0 && builder == Err::<Self, ActivationCacheError>(
                        chunk_memory_refused(encoded@),
                    )
                    ||| match rebuilt(encoded@, Some(expected@)) {
                        Err(error) => builder == Err::<Self, ActivationCacheError>(error),
                        Ok(held) => builder matches Ok(made) && made.wf() && made@ == held,
                    }
                },
            },
    {
        decode_builder_checkpoint(encoded, Some(expected))
    }

    /// Reopens a partial checkpoint from the bytes of a reader, collected up to its end under a
    /// bound, and requires its recomputed identity to match `expected`.
    pub fn read_checkpoint_from_verified(
        input: BoundedInput,
        expected: ActivationDigest,
    ) -> (builder: Result<Self, ActivationCacheError>)
        ensures
            match opening_error(input.bytes(), Some(expected@)) {
                Some(error) => builder == Err::<Self, ActivationCacheError>(error),
                None => {
                    ||| declared_chunks(input.bytes()) > 0 && builder == Err::<Self, ActivationCacheError>(
                        chunk_memory_refused(input.bytes()),
                    )
                    ||| match rebuilt(input.bytes(), Some(expected@)) {
                        Err(error) => builder == Err::<Self, ActivationCacheError>(error),
                        Ok(held) => builder matches Ok(made) && made.wf() && made@ == held,
                    }
                },
            },
    {
        let encoded: Vec<u8> = input.into_bytes();
        Self::from_checkpoint_verified(encoded.as_slice(), expected)
    }
}

} // verus!
