//! The canonical cache encoding as a function of what a cache holds.

use crate::activation_builder::BuilderView;
use crate::activation_chunk::{
    ends_valid, lemma_ends_count, lemma_stored_ends_len, stored_ends, ChunkView,
};
use crate::activation_manifest::{lemma_manifest_len, manifest, ManifestKind};
use crate::activation_scalar::{
    bytes_finite, mask_bytes, packed_mask, pattern_at, pattern_finite,
};
use crate::activation_schema::{ActivationCacheError, ActivationDType, SchemaView};
use crate::hashing::blake3_digest;
use crate::wire::{le, lemma_le_len};
use vstd::prelude::*;
use vstd::utf8::encode_utf8;

verus! {

/// What a finalized cache holds.
pub struct CacheContent {
    /// The schema.
    pub schema: SchemaView,
    /// Canonical scalar bytes of all tokens.
    pub values: Seq<u8>,
    /// One entry per token.
    pub mask: Seq<bool>,
    /// Every global exclusive sequence end.
    pub ends: Seq<u64>,
}

/// What is known of one shard record.
pub struct ShardView {
    /// Zero-based shard index.
    pub index: u32,
    /// First token.
    pub token_start: u64,
    /// Number of tokens.
    pub token_count: u32,
    /// Sequence ends whose final token lies in the shard.
    pub ends: Seq<u64>,
    /// Digest of the complete record.
    pub digest: Seq<u8>,
    /// Offset of the record in the artifact.
    pub encoded_offset: u64,
    /// Length of the record.
    pub encoded_bytes: u64,
    /// Scalar bytes in the record.
    pub value_bytes: u64,
    /// Mask bytes in the record.
    pub mask_bytes: u64,
    /// Sequence-end bytes in the record.
    pub boundary_bytes: u64,
}

/// Exact canonical byte accounting for a finalized activation cache.
#[derive(Clone, Copy, Debug, PartialEq, Eq, Structural)]
pub struct ActivationByteLedger {
    /// Bytes of the schema and shard manifest.
    pub manifest_bytes: u64,
    /// Bytes of all shard headers.
    pub shard_header_bytes: u64,
    /// Bytes of all scalars.
    pub value_bytes: u64,
    /// Bytes of all masks.
    pub mask_bytes: u64,
    /// Bytes of all sequence ends.
    pub boundary_bytes: u64,
    /// Bytes of the artifact.
    pub encoded_bytes: u64,
}

/// What a cache object shows.
pub struct CacheView {
    /// The schema.
    pub schema: SchemaView,
    /// The canonical artifact.
    pub encoded: Seq<u8>,
    /// Digest of the artifact.
    pub digest: Seq<u8>,
    /// The shards in index order.
    pub shards: Seq<ShardView>,
    /// Every global exclusive sequence end.
    pub ends: Seq<u64>,
    /// Component and total byte counts.
    pub ledger: ActivationByteLedger,
}

/// The first position at or after `from` whose sequence end exceeds `limit`.
pub open spec fn ends_through(ends: Seq<u64>, limit: int, from: nat) -> nat
    decreases ends.len() - from,
{
    if from < ends.len() && ends[from as int] <= limit {
        ends_through(ends, limit, from + 1)
    } else {
        from
    }
}

/// Mask bytes of the first `shards` shards.
pub open spec fn masks_len(schema: SchemaView, shards: nat) -> nat
    decreases shards,
{
    if shards == 0 {
        0
    } else {
        masks_len(schema, (shards - 1) as nat) + mask_bytes(
            schema.shard_count_at((shards - 1) as nat),
        )
    }
}

/// The canonical record of a shard.
pub open spec fn record(
    schema: SchemaView,
    index: nat,
    values: Seq<u8>,
    mask: Seq<bool>,
    ends: Seq<u64>,
) -> Seq<u8> {
    le(index, 4) + le(schema.shard_start(index), 8) + le(schema.shard_count_at(index), 4) + le(
        values.len(),
        8,
    ) + le(mask_bytes(mask.len()), 4) + le(ends.len(), 4) + values + packed_mask(mask)
        + stored_ends(ends)
}

/// The digest of a shard's complete record.
pub open spec fn shard_digest(schema: SchemaView, record: Seq<u8>) -> Seq<u8> {
    blake3_digest(
        encode_utf8("tritium salt v2 activation shard v1\0"@) + schema.digest() + record,
    )
}

/// The digest of a complete artifact.
pub open spec fn cache_digest(encoded: Seq<u8>) -> Seq<u8> {
    blake3_digest(encode_utf8("tritium salt v2 activation cache v1\0"@) + encoded)
}

/// The index entry of a shard.
pub open spec fn entry(
    schema: SchemaView,
    index: nat,
    offset: nat,
    ends: Seq<u64>,
    record: Seq<u8>,
) -> ShardView {
    ShardView {
        index: index as u32,
        token_start: schema.shard_start(index) as u64,
        token_count: schema.shard_count_at(index) as u32,
        ends,
        digest: shard_digest(schema, record),
        encoded_offset: offset as u64,
        encoded_bytes: record.len() as u64,
        value_bytes: (schema.shard_count_at(index) * schema.row_bytes()) as u64,
        mask_bytes: mask_bytes(schema.shard_count_at(index)) as u64,
        boundary_bytes: (8 * ends.len()) as u64,
    }
}

impl CacheContent {
    /// Whether every token has its row, its mask entry and a sequence that ends.
    pub open spec fn valid(self) -> bool {
        &&& self.schema.valid()
        &&& self.values.len() == self.schema.total_tokens as nat * self.schema.row_bytes()
        &&& bytes_finite(self.schema.dtype, self.values)
        &&& self.mask.len() == self.schema.total_tokens
        &&& ends_valid(self.ends, 0, self.schema.total_tokens as int)
        &&& self.ends.len() > 0
        &&& self.ends.last() == self.schema.total_tokens
    }

    /// Sequence ends up to the start of a shard.
    pub open spec fn cut(self, index: nat) -> nat {
        ends_through(self.ends, self.schema.shard_start(index) as int, 0)
    }

    /// Scalar bytes of a shard.
    pub open spec fn shard_values(self, index: nat) -> Seq<u8> {
        let start = self.schema.shard_start(index);
        let end = start + self.schema.shard_count_at(index);
        self.values.subrange(
            (start * self.schema.row_bytes()) as int,
            (end * self.schema.row_bytes()) as int,
        )
    }

    /// Mask of a shard.
    pub open spec fn shard_mask(self, index: nat) -> Seq<bool> {
        let start = self.schema.shard_start(index);
        self.mask.subrange(start as int, (start + self.schema.shard_count_at(index)) as int)
    }

    /// Sequence ends whose final token lies in a shard.
    pub open spec fn shard_ends(self, index: nat) -> Seq<u64> {
        self.ends.subrange(self.cut(index) as int, self.cut(index + 1) as int)
    }

    /// The canonical record of a shard.
    pub open spec fn shard_record(self, index: nat) -> Seq<u8> {
        record(
            self.schema,
            index,
            self.shard_values(index),
            self.shard_mask(index),
            self.shard_ends(index),
        )
    }

    /// The canonical records of the first `shards` shards.
    pub open spec fn records(self, shards: nat) -> Seq<u8>
        decreases shards,
    {
        if shards == 0 {
            Seq::empty()
        } else {
            self.records((shards - 1) as nat) + self.shard_record((shards - 1) as nat)
        }
    }

    /// Manifest and shard count.
    pub open spec fn head(self) -> Seq<u8> {
        manifest(ManifestKind::Cache, self.schema) + le(self.schema.shards(), 4)
    }

    /// The canonical artifact.
    pub open spec fn encoded(self) -> Seq<u8> {
        self.head() + self.records(self.schema.shards())
    }

    /// The index entries of the first `shards` shards.
    pub open spec fn entries(self, shards: nat) -> Seq<ShardView>
        decreases shards,
    {
        if shards == 0 {
            Seq::empty()
        } else {
            let last = (shards - 1) as nat;
            self.entries(last).push(
                entry(
                    self.schema,
                    last,
                    self.head().len() + self.records(last).len(),
                    self.shard_ends(last),
                    self.shard_record(last),
                ),
            )
        }
    }

    /// Length of the canonical artifact.
    pub open spec fn size(self) -> nat {
        72 + self.schema.name_bytes().len() + 32 * self.schema.shards() + self.values.len()
            + masks_len(self.schema, self.schema.shards()) + 8 * self.ends.len()
    }

    /// Component and total byte counts.
    pub open spec fn ledger(self) -> ActivationByteLedger {
        ActivationByteLedger {
            manifest_bytes: (72 + self.schema.name_bytes().len()) as u64,
            shard_header_bytes: (32 * self.schema.shards()) as u64,
            value_bytes: self.values.len() as u64,
            mask_bytes: masks_len(self.schema, self.schema.shards()) as u64,
            boundary_bytes: (8 * self.ends.len()) as u64,
            encoded_bytes: self.size() as u64,
        }
    }

    /// The cache object that shows the content.
    pub open spec fn cache(self) -> CacheView {
        CacheView {
            schema: self.schema,
            encoded: self.encoded(),
            digest: cache_digest(self.encoded()),
            shards: self.entries(self.schema.shards()),
            ends: self.ends,
            ledger: self.ledger(),
        }
    }

    /// The reason why the artifact cannot be laid out, if there is one.
    pub open spec fn size_error(self) -> Option<ActivationCacheError> {
        if 8 * self.ends.len() > u64::MAX {
            Some(ActivationCacheError::ArithmeticOverflow { context: "sequence boundary bytes" })
        } else if self.size() > u64::MAX {
            Some(
                ActivationCacheError::ArithmeticOverflow { context: "total encoded cache bytes" },
            )
        } else if self.size() > usize::MAX {
            Some(
                ActivationCacheError::ArithmeticOverflow { context: "canonical cache allocation" },
            )
        } else {
            None
        }
    }
}

/// Every shard of a valid schema is a nonempty token interval, and the next one starts where it
/// ends; the last one ends with the tensor.
pub proof fn lemma_shard_range(schema: SchemaView, index: nat)
    requires
        schema.valid(),
        index < schema.shards(),
    ensures
        1 <= schema.shard_count_at(index) <= schema.shard_tokens,
        schema.shard_start(index) + schema.shard_count_at(index) <= schema.total_tokens,
        index + 1 < schema.shards() ==> schema.shard_start(index + 1) == schema.shard_start(index)
            + schema.shard_count_at(index),
        index + 1 == schema.shards() ==> schema.shard_start(index) + schema.shard_count_at(index)
            == schema.total_tokens && schema.shard_start(index + 1) >= schema.total_tokens,
{
    let tokens = schema.shard_tokens as int;
    let last = schema.total_tokens - 1;
    let quotient = last / tokens;
    vstd::arithmetic::div_mod::lemma_fundamental_div_mod(last, tokens);
    assert(index * tokens <= quotient * tokens) by (nonlinear_arith)
        requires
            index <= quotient,
            tokens >= 1,
    ;
    assert(tokens * quotient == quotient * tokens) by (nonlinear_arith);
    assert((index + 1) * tokens == index * tokens + tokens) by (nonlinear_arith);
    if index + 1 < schema.shards() {
        assert((index + 1) * tokens <= quotient * tokens) by (nonlinear_arith)
            requires
                index + 1 <= quotient,
                tokens >= 1,
        ;
    }
}

/// The position splits the ends into those up to the limit and those beyond it.
pub proof fn lemma_ends_through(ends: Seq<u64>, limit: int, from: nat)
    requires
        from <= ends.len(),
    ensures
        from <= ends_through(ends, limit, from) <= ends.len(),
        forall|k: int|
            from <= k < ends_through(ends, limit, from) ==> #[trigger] ends[k] <= limit,
        ends_through(ends, limit, from) < ends.len() ==> ends[ends_through(
            ends,
            limit,
            from,
        ) as int] > limit,
    decreases ends.len() - from,
{
    if from < ends.len() && ends[from as int] <= limit {
        lemma_ends_through(ends, limit, from + 1);
    }
}

/// A position that splits increasing ends at the limit is the position.
pub proof fn lemma_ends_through_is(ends: Seq<u64>, limit: int, at: nat)
    requires
        at <= ends.len(),
        forall|k: int| 0 <= k < at ==> #[trigger] ends[k] <= limit,
        at < ends.len() ==> ends[at as int] > limit,
    ensures
        ends_through(ends, limit, 0) == at,
{
    lemma_ends_through(ends, limit, 0);
    let found = ends_through(ends, limit, 0);
    if found < at {
        assert(ends[found as int] <= limit);
    } else if at < found {
        assert(ends[at as int] <= limit);
    }
}

/// A shard's sequence ends lie in its token interval and are at most as many as its tokens.
pub proof fn lemma_shard_ends(content: CacheContent, index: nat)
    requires
        content.valid(),
        index < content.schema.shards(),
    ensures
        content.cut(index) <= content.cut(index + 1) <= content.ends.len(),
        ends_valid(
            content.shard_ends(index),
            content.schema.shard_start(index) as int,
            content.schema.shard_start(index) + content.schema.shard_count_at(index) as int,
        ),
        content.shard_ends(index).len() == content.cut(index + 1) - content.cut(index),
        content.shard_ends(index).len() <= content.schema.shard_count_at(index),
        content.cut(0) == 0,
        index + 1 == content.schema.shards() ==> content.cut(index + 1) == content.ends.len(),
{
    let schema = content.schema;
    let ends = content.ends;
    lemma_shard_range(schema, index);
    let start = schema.shard_start(index) as int;
    let next = schema.shard_start(index + 1) as int;
    let end = start + schema.shard_count_at(index);
    let tokens = schema.shard_tokens as int;
    assert((index + 1) * tokens == index * tokens + tokens) by (nonlinear_arith);
    lemma_ends_through(ends, start, 0);
    lemma_ends_through(ends, next, 0);
    let a = content.cut(index);
    let b = content.cut(index + 1);
    if a > b {
        assert(ends[b as int] <= start);
    }
    let part = content.shard_ends(index);
    assert forall|k: int| 0 <= k < part.len() implies start < #[trigger] part[k] <= end by {
        assert(part[k] == ends[a + k]);
        assert(ends[a + k] <= next);
        assert(0 < ends[a + k] <= schema.total_tokens);
        if k > 0 {
            assert(ends[a as int] < ends[a + k]);
        }
    }
    assert forall|i: int, j: int| 0 <= i < j < part.len() implies part[i] < part[j] by {
        assert(ends[a + i] < ends[a + j]);
    }
    lemma_ends_count(part, start, end);
    if index + 1 == schema.shards() && b < ends.len() {
        assert(ends[b as int] <= schema.total_tokens);
    }
    assert(schema.shard_start(0) == 0) by (nonlinear_arith)
        requires
            schema.shard_start(0) == 0 * tokens,
    ;
    if ends.len() > 0 {
        assert(0 < ends[0]);
    }
    lemma_ends_through_is(ends, 0, 0);
}

/// Lengths of the parts of a shard record.
pub proof fn lemma_record_len(content: CacheContent, index: nat)
    requires
        content.valid(),
        index < content.schema.shards(),
    ensures
        content.shard_values(index).len() == content.schema.shard_count_at(index)
            * content.schema.row_bytes(),
        content.shard_mask(index).len() == content.schema.shard_count_at(index),
        content.shard_record(index).len() == 32 + content.schema.shard_count_at(index)
            * content.schema.row_bytes() + mask_bytes(content.schema.shard_count_at(index)) + 8
            * content.shard_ends(index).len(),
        (content.schema.shard_start(index) + content.schema.shard_count_at(index))
            * content.schema.row_bytes() <= content.values.len(),
        (content.schema.shard_start(index) + content.schema.shard_count_at(index))
            * content.schema.row_bytes() == content.schema.shard_start(index)
            * content.schema.row_bytes() + content.schema.shard_count_at(index)
            * content.schema.row_bytes(),
{
    broadcast use lemma_le_len;

    let schema = content.schema;
    lemma_shard_range(schema, index);
    let start = schema.shard_start(index);
    let count = schema.shard_count_at(index);
    let row = schema.row_bytes();
    assert((start + count) * row == start * row + count * row) by (nonlinear_arith);
    assert((start + count) * row <= schema.total_tokens as nat * row) by (nonlinear_arith)
        requires
            start + count <= schema.total_tokens,
    ;
    lemma_stored_ends_len(content.shard_ends(index));
}

/// Length of the first shard records.
pub proof fn lemma_records_len(content: CacheContent, shards: nat)
    requires
        content.valid(),
        shards <= content.schema.shards(),
    ensures
        content.cut(shards) <= content.ends.len(),
        shards < content.schema.shards() ==> content.records(shards).len() == 32 * shards
            + content.schema.shard_start(shards) * content.schema.row_bytes() + masks_len(
            content.schema,
            shards,
        ) + 8 * content.cut(shards),
        shards == content.schema.shards() ==> content.records(shards).len() == 32 * shards
            + content.values.len() + masks_len(content.schema, shards) + 8 * content.ends.len(),
    decreases shards,
{
    let schema = content.schema;
    let row = schema.row_bytes();
    if shards == 0 {
        lemma_shard_ends(content, 0);
        let tokens = schema.shard_tokens as nat;
        assert(0 * tokens == 0) by (nonlinear_arith);
        assert(0 * row == 0) by (nonlinear_arith);
    } else {
        let last = (shards - 1) as nat;
        lemma_records_len(content, last);
        lemma_record_len(content, last);
        lemma_shard_ends(content, last);
        lemma_shard_range(schema, last);
    }
}

/// The artifact has exactly the accounted length.
pub proof fn lemma_size(content: CacheContent)
    requires
        content.valid(),
    ensures
        content.encoded().len() == content.size(),
        content.head().len() == 72 + content.schema.name_bytes().len(),
{
    broadcast use lemma_le_len;

    lemma_records_len(content, content.schema.shards());
    lemma_manifest_len(ManifestKind::Cache, content.schema);
}

/// The mask bytes of the first shards are no more than their tokens.
pub proof fn lemma_masks_len(schema: SchemaView, shards: nat)
    requires
        schema.valid(),
        shards <= schema.shards(),
    ensures
        masks_len(schema, shards) <= schema.shard_start(shards),
        masks_len(schema, shards) <= schema.total_tokens,
    decreases shards,
{
    let tokens = schema.shard_tokens as nat;
    if shards > 0 {
        let last = (shards - 1) as nat;
        lemma_masks_len(schema, last);
        lemma_shard_range(schema, last);
        assert(shards * tokens == last * tokens + tokens) by (nonlinear_arith)
            requires
                shards == last + 1,
        ;
    } else {
        assert(0 * tokens == 0) by (nonlinear_arith);
    }
}

/// The parts of the ledger add up to the artifact's length.
pub proof fn ledger_adds_up(content: CacheContent)
    requires
        content.valid(),
        content.size() <= u64::MAX,
    ensures
        ({
            let ledger = content.ledger();
            &&& ledger.encoded_bytes == content.encoded().len()
            &&& ledger.manifest_bytes + ledger.shard_header_bytes + ledger.value_bytes
                + ledger.mask_bytes + ledger.boundary_bytes == ledger.encoded_bytes
        }),
{
    lemma_size(content);
}

/// Scalar bytes of chunks one after the other.
pub open spec fn all_values(chunks: Seq<ChunkView>) -> Seq<u8>
    decreases chunks.len(),
{
    if chunks.len() == 0 {
        Seq::empty()
    } else {
        all_values(chunks.drop_last()) + chunks.last().values
    }
}

/// Masks of chunks one after the other.
pub open spec fn all_mask(chunks: Seq<ChunkView>) -> Seq<bool>
    decreases chunks.len(),
{
    if chunks.len() == 0 {
        Seq::empty()
    } else {
        all_mask(chunks.drop_last()) + chunks.last().mask
    }
}

/// Sequence ends of chunks one after the other.
pub open spec fn all_ends(chunks: Seq<ChunkView>) -> Seq<u64>
    decreases chunks.len(),
{
    if chunks.len() == 0 {
        Seq::empty()
    } else {
        all_ends(chunks.drop_last()) + chunks.last().ends
    }
}

/// What a complete builder's cache holds.
pub open spec fn content_of(builder: BuilderView) -> CacheContent {
    CacheContent {
        schema: builder.schema,
        values: all_values(builder.chunks),
        mask: all_mask(builder.chunks),
        ends: all_ends(builder.chunks),
    }
}

/// The first gap at or after `expected` before the chunks from `from` on, if there is one.
pub open spec fn gap_error(chunks: Seq<ChunkView>, from: nat, expected: u64, total: u64) -> Option<
    ActivationCacheError,
>
    decreases chunks.len() - from,
{
    if from >= chunks.len() {
        if expected != total {
            Some(ActivationCacheError::Gap { expected_start: expected, next_start: None })
        } else {
            None
        }
    } else if chunks[from as int].token_start != expected {
        Some(
            ActivationCacheError::Gap {
                expected_start: expected,
                next_start: Some(chunks[from as int].token_start),
            },
        )
    } else {
        gap_error(chunks, from + 1, chunks[from as int].end() as u64, total)
    }
}

/// The reason why a builder is not complete, if there is one.
pub open spec fn incomplete(builder: BuilderView) -> Option<ActivationCacheError> {
    let total = builder.schema.total_tokens;
    let ends = all_ends(builder.chunks);
    if gap_error(builder.chunks, 0, 0, total) is Some {
        gap_error(builder.chunks, 0, 0, total)
    } else if ends.len() == 0 || ends.last() != total {
        Some(ActivationCacheError::MissingTerminalBoundary { total_tokens: total })
    } else if total as nat * builder.schema.row_bytes() > usize::MAX {
        Some(ActivationCacheError::ArithmeticOverflow { context: "cache value allocation" })
    } else if total > usize::MAX {
        Some(ActivationCacheError::ArithmeticOverflow { context: "cache mask allocation" })
    } else {
        None
    }
}

/// Runs of whole finite scalars stay finite when put one after the other.
pub proof fn lemma_finite_concat(
    dtype: ActivationDType,
    left: Seq<u8>,
    right: Seq<u8>,
    scalars: nat,
)
    requires
        left.len() == scalars * dtype.width(),
        bytes_finite(dtype, left),
        bytes_finite(dtype, right),
    ensures
        bytes_finite(dtype, left + right),
{
    let width = dtype.width();
    let all = left + right;
    assert forall|k: nat| (k + 1) * width <= all.len() implies pattern_finite(
        dtype,
        #[trigger] pattern_at(dtype, all, k),
    ) by {
        assert((k + 1) * width == k * width + width) by (nonlinear_arith);
        if k < scalars {
            assert((k + 1) * width <= scalars * width) by (nonlinear_arith)
                requires
                    k + 1 <= scalars,
            ;
            assert(all.subrange((k * width) as int, (k * width) as int + width)
                =~= left.subrange((k * width) as int, (k * width) as int + width));
            let same = pattern_at(dtype, left, k);
        } else {
            let rest = (k - scalars) as nat;
            assert(k * width == scalars * width + rest * width) by (nonlinear_arith)
                requires
                    k == scalars + rest,
            ;
            assert((rest + 1) * width == rest * width + width) by (nonlinear_arith);
            assert(all.subrange((k * width) as int, (k * width) as int + width)
                =~= right.subrange((rest * width) as int, (rest * width) as int + width));
            let same = pattern_at(dtype, right, rest);
        }
    }
}

/// Part of a run of finite scalars that holds whole scalars is finite.
pub proof fn lemma_finite_part(
    dtype: ActivationDType,
    bytes: Seq<u8>,
    first: nat,
    last: nat,
)
    requires
        first <= last,
        last * dtype.width() <= bytes.len(),
        bytes_finite(dtype, bytes),
    ensures
        bytes_finite(
            dtype,
            bytes.subrange((first * dtype.width()) as int, (last * dtype.width()) as int),
        ),
{
    let width = dtype.width();
    assert(first * width <= last * width) by (nonlinear_arith)
        requires
            first <= last,
    ;
    let part = bytes.subrange((first * width) as int, (last * width) as int);
    assert forall|k: nat| (k + 1) * width <= part.len() implies pattern_finite(
        dtype,
        #[trigger] pattern_at(dtype, part, k),
    ) by {
        assert((k + 1) * width == k * width + width) by (nonlinear_arith);
        assert((first + k) * width == first * width + k * width) by (nonlinear_arith);
        assert((first + k + 1) * width == (first + k) * width + width) by (nonlinear_arith);
        assert(part.subrange((k * width) as int, (k * width) as int + width) =~= bytes.subrange(
            ((first + k) * width) as int,
            ((first + k) * width) as int + width,
        ));
        let same = pattern_at(dtype, bytes, first + k);
    }
}

proof fn lemma_empty_finite(dtype: ActivationDType)
    ensures
        bytes_finite(dtype, Seq::empty()),
{
    let width = dtype.width();
    assert forall|k: nat| (k + 1) * width <= Seq::<u8>::empty().len() implies pattern_finite(
        dtype,
        #[trigger] pattern_at(dtype, Seq::empty(), k),
    ) by {
        assert((k + 1) * width > 0) by (nonlinear_arith)
            requires
                width >= 1,
        ;
    }
}

/// Contiguous chunks from the first token on hold exactly the rows before the next token.
pub proof fn lemma_contiguous_values(builder: BuilderView, chunks: nat)
    requires
        builder.valid(),
        0 < chunks <= builder.chunks.len(),
        forall|k: int|
            0 < k < chunks ==> builder.chunks[k - 1].end() == (
            #[trigger] builder.chunks[k]).token_start,
        builder.chunks[0].token_start == 0,
    ensures
        ({
            let part = builder.chunks.take(chunks as int);
            let end = builder.chunks[chunks - 1].end();
            &&& all_values(part).len() == end * builder.schema.row_bytes()
            &&& bytes_finite(builder.schema.dtype, all_values(part))
            &&& all_mask(part).len() == end
            &&& ends_valid(all_ends(part), 0, end)
        }),
    decreases chunks,
{
    let schema = builder.schema;
    let row = schema.row_bytes();
    let part = builder.chunks.take(chunks as int);
    let front = builder.chunks.take(chunks - 1);
    let last = builder.chunks[chunks - 1];
    assert(last.valid() && last.fits(schema));
    assert(part.drop_last() =~= front);
    assert(part.last() == last);
    let start = last.token_start as int;
    if chunks == 1 {
        assert(front =~= Seq::empty());
        assert(0 * row == 0) by (nonlinear_arith);
        lemma_empty_finite(schema.dtype);
    } else {
        lemma_contiguous_values(builder, (chunks - 1) as nat);
        assert(builder.chunks[chunks - 2].end() == builder.chunks[chunks - 1].token_start);
    }
    assert(all_values(front).len() == start * row);
    assert(all_mask(front).len() == start);
    assert(all_mask(part) == all_mask(front) + last.mask);
    let count = last.token_count as int;
    assert((start + count) * row == start * row + count * row) by (nonlinear_arith);
    assert(last.values.len() == count * row);
    assert(all_values(part).len() == last.end() * row);
    assert(all_mask(part).len() == last.end());
    let width = schema.dtype.width();
    let features = schema.feature_width as nat;
    assert(start * row == (start * features) * width) by (nonlinear_arith)
        requires
            row == features * width,
    ;
    assert(start * features >= 0) by (nonlinear_arith)
        requires
            start >= 0,
    ;
    lemma_finite_concat(schema.dtype, all_values(front), last.values, (start * features) as nat);
    let a = all_ends(front);
    let b = last.ends;
    let all = all_ends(part);
    assert(all == a + b);
    assert(bytes_finite(schema.dtype, all_values(part)));
    assert forall|k: int| 0 <= k < all.len() implies 0 < #[trigger] all[k] <= last.end() by {
        if k < a.len() {
            assert(all[k] == a[k]);
            assert(0 < a[k] <= start);
        } else {
            assert(all[k] == b[k - a.len()]);
        }
    }
    assert forall|i: int, j: int| 0 <= i < j < all.len() implies all[i] < all[j] by {
        if j < a.len() {
            assert(a[i] < a[j]);
        } else if i >= a.len() {
            assert(b[i - a.len()] < b[j - a.len()]);
        } else {
            assert(a[i] <= start);
            assert(b[j - a.len()] > start);
        }
    }
}

/// A builder without gaps whose last sequence ends with the tensor holds a whole cache.
pub proof fn complete_builder_is_valid(builder: BuilderView)
    requires
        builder.valid(),
        incomplete(builder) is None,
    ensures
        content_of(builder).valid(),
{
    let chunks = builder.chunks;
    let total = builder.schema.total_tokens;
    lemma_no_gap(builder, 0, 0);
    if chunks.len() > 0 {
        lemma_contiguous_values(builder, chunks.len());
        assert(chunks.take(chunks.len() as int) =~= chunks);
    }
}

/// Chunks without a gap follow each other from the first token to the last.
pub proof fn lemma_no_gap(builder: BuilderView, from: nat, expected: u64)
    requires
        builder.valid(),
        from <= builder.chunks.len(),
        gap_error(builder.chunks, from, expected, builder.schema.total_tokens) is None,
        from > 0 ==> expected == builder.chunks[from - 1].end(),
        from == 0 ==> expected == 0,
    ensures
        forall|k: int|
            from <= k < builder.chunks.len() && 0 < k ==> builder.chunks[k - 1].end() == (
            #[trigger] builder.chunks[k]).token_start,
        from == 0 && builder.chunks.len() > 0 ==> builder.chunks[0].token_start == 0,
        builder.chunks.len() > 0 ==> builder.chunks[builder.chunks.len() - 1].end()
            == builder.schema.total_tokens,
        builder.chunks.len() == 0 ==> builder.schema.total_tokens == 0,
    decreases builder.chunks.len() - from,
{
    if from < builder.chunks.len() {
        let chunk = builder.chunks[from as int];
        assert(chunk.valid() && chunk.fits(builder.schema));
        lemma_no_gap(builder, from + 1, chunk.end() as u64);
    }
}

} // verus!
