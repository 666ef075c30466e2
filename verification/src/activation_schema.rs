//! Schema, provenance and failures of an activation cache.

use crate::hashing::{blake3_digest, hash_parts};
use crate::wire::{blank, bytes_equal, contains_byte, is_blank, le, push_bytes, push_le};
use vstd::prelude::*;
use vstd::utf8::encode_utf8;

verus! {

/// A BLAKE3 content identifier of an activation artifact.
#[derive(Clone, Copy, Debug, PartialEq, Eq, PartialOrd, Ord, Hash)]
pub struct ActivationDigest {
    bytes: [u8; 32],
}

impl View for ActivationDigest {
    type V = Seq<u8>;

    closed spec fn view(&self) -> Seq<u8> {
        self.bytes@
    }
}

impl ActivationDigest {
    /// Constructs a digest from its exact 32-byte representation.
    pub fn from_bytes(bytes: [u8; 32]) -> (digest: Self)
        ensures
            digest@ == bytes@,
    {
        ActivationDigest { bytes }
    }

    /// Borrows the exact 32-byte representation.
    pub fn as_bytes(&self) -> (bytes: &[u8; 32])
        ensures
            bytes@ == self@,
    {
        &self.bytes
    }

    /// Returns the exact 32-byte representation.
    pub fn into_bytes(self) -> (bytes: [u8; 32])
        ensures
            bytes@ == self@,
    {
        self.bytes
    }

    /// A digest is its 32 bytes: two with the same bytes are the same value.
    pub proof fn bytes_determine(left: Self, right: Self)
        ensures
            left@.len() == 32,
            left@ == right@ <==> left == right,
    {
        broadcast use vstd::array::group_array_axioms;

        if left@ == right@ {
            assert(left.bytes =~= right.bytes);
        }
    }

    /// Whether both digests hold the same bytes.
    pub fn same(&self, other: &Self) -> (equal: bool)
        ensures
            equal == (self@ == other@),
            equal == (*self == *other),
    {
        proof {
            Self::bytes_determine(*self, *other);
        }
        bytes_equal(self.bytes.as_slice(), other.bytes.as_slice())
    }

    /// Whether every byte is zero.
    pub fn is_zero(&self) -> (zero: bool)
        ensures
            zero == all_zero(self@),
    {
        let mut index: usize = 0;
        while index < 32
            invariant
                index <= 32,
                forall|k: int| 0 <= k < index ==> self@[k] == 0,
            decreases 32 - index,
        {
            if self.bytes[index] != 0 {
                assert(self@[index as int] != 0);
                return false;
            }
            index = index + 1;
        }
        assert(self@.len() == 32);
        true
    }
}

/// Whether a byte string holds only zeroes.
pub open spec fn all_zero(bytes: Seq<u8>) -> bool {
    forall|k: int| 0 <= k < bytes.len() ==> bytes[k] == 0
}

/// Canonical scalar encoding used by an activation cache.
#[derive(Clone, Copy, Debug, PartialEq, Eq, Hash, Structural)]
pub enum ActivationDType {
    /// IEEE-754 binary32, little endian.
    Float32,
    /// IEEE-754 binary16, little endian.
    Float16,
    /// Brain floating point binary16, little endian.
    BFloat16,
}

impl ActivationDType {
    /// Encoded bytes per scalar.
    pub open spec fn width(self) -> nat {
        match self {
            ActivationDType::Float32 => 4,
            ActivationDType::Float16 | ActivationDType::BFloat16 => 2,
        }
    }

    /// Code of the encoding in canonical manifests.
    pub open spec fn code(self) -> u8 {
        match self {
            ActivationDType::Float32 => 1,
            ActivationDType::Float16 => 2,
            ActivationDType::BFloat16 => 3,
        }
    }

    /// Returns the number of encoded bytes per scalar.
    pub fn encoded_width(self) -> (width: u8)
        ensures
            width as nat == self.width(),
    {
        match self {
            ActivationDType::Float32 => 4,
            ActivationDType::Float16 | ActivationDType::BFloat16 => 2,
        }
    }

    /// Returns the code of the encoding in canonical manifests.
    pub fn format_code(self) -> (code: u8)
        ensures
            code == self.code(),
    {
        match self {
            ActivationDType::Float32 => 1,
            ActivationDType::Float16 => 2,
            ActivationDType::BFloat16 => 3,
        }
    }
}

/// The encoding that a manifest code names.
pub open spec fn dtype_of(code: u8) -> Option<ActivationDType> {
    if code == 1 {
        Some(ActivationDType::Float32)
    } else if code == 2 {
        Some(ActivationDType::Float16)
    } else if code == 3 {
        Some(ActivationDType::BFloat16)
    } else {
        None
    }
}

/// Reads the encoding that a manifest code names.
pub fn decode_dtype(code: u8) -> (dtype: Result<ActivationDType, ActivationCacheError>)
    ensures
        match dtype_of(code) {
            Some(named) => dtype == Ok::<ActivationDType, ActivationCacheError>(named),
            None => dtype == Err::<ActivationDType, ActivationCacheError>(
                ActivationCacheError::InvalidDTypeCode { got: code },
            ),
        },
{
    match code {
        1 => Ok(ActivationDType::Float32),
        2 => Ok(ActivationDType::Float16),
        3 => Ok(ActivationDType::BFloat16),
        _ => Err(ActivationCacheError::InvalidDTypeCode { got: code }),
    }
}

/// Failure while defining, assembling, or encoding an activation cache.
#[derive(Clone, Copy, Debug, PartialEq, Eq)]
#[non_exhaustive]
pub enum ActivationCacheError {
    /// The canonical cache magic did not match `S2AC`.
    InvalidCacheMagic {
        /// Four bytes found at the start of the input.
        got: [u8; 4],
    },
    /// The canonical partial-builder checkpoint magic did not match `S2CP`.
    InvalidCheckpointMagic {
        /// Four bytes found at the start of the checkpoint.
        got: [u8; 4],
    },
    /// The cache format version is not supported by this decoder.
    UnsupportedCacheVersion {
        /// Unsupported little-endian version.
        got: u16,
    },
    /// The partial-builder checkpoint version is not supported by this decoder.
    UnsupportedCheckpointVersion {
        /// Unsupported little-endian version.
        got: u16,
    },
    /// A manifest reserved byte was nonzero.
    NonZeroReservedByte {
        /// Noncanonical reserved value.
        got: u8,
    },
    /// The manifest dtype code was not one of the canonical values 1, 2, or 3.
    InvalidDTypeCode {
        /// Unsupported dtype code.
        got: u8,
    },
    /// Canonical bytes ended before a declared field or payload was complete.
    TruncatedEncoding {
        /// Field or payload being decoded.
        context: &'static str,
        /// Bytes required for this read.
        needed: u64,
        /// Bytes still available.
        remaining: u64,
    },
    /// Bytes remained after the final canonical record.
    TrailingBytes {
        /// Number of unexpected terminal bytes.
        count: u64,
    },
    /// The persisted tensor name was not valid UTF-8.
    InvalidTensorNameUtf8,
    /// The persisted shard count differed from the schema-derived canonical count.
    ShardCountMismatch {
        /// Schema-derived shard count.
        expected: u32,
        /// Persisted shard count.
        got: u32,
    },
    /// A shard record did not carry its contiguous canonical index.
    ShardIndexMismatch {
        /// Required shard index.
        expected: u32,
        /// Persisted shard index.
        got: u32,
    },
    /// A shard's token interval differed from its schema-derived fixed range.
    ShardRangeMismatch {
        /// Shard index being decoded.
        index: u32,
        /// Required global token start.
        expected_start: u64,
        /// Persisted global token start.
        got_start: u64,
        /// Required token count.
        expected_count: u32,
        /// Persisted token count.
        got_count: u32,
    },
    /// A shard component length differed from its shape-derived canonical length.
    ShardLengthMismatch {
        /// Shard index being decoded.
        index: u32,
        /// Component whose length was invalid.
        component: &'static str,
        /// Required byte count.
        expected: u64,
        /// Persisted byte count.
        got: u64,
    },
    /// A bit-packed mask set unused high bits in its terminal byte.
    NonCanonicalMask {
        /// Shard containing the noncanonical mask.
        index: u32,
    },
    /// A persisted scalar encoding represented NaN or infinity.
    NonFiniteEncodedValue {
        /// Global row-major scalar index.
        index: u64,
    },
    /// Recomputed identity differed from the required one.
    DigestMismatch {
        /// Required content digest.
        expected: ActivationDigest,
        /// Digest recomputed from canonical bytes.
        got: ActivationDigest,
    },
    /// A checkpoint chunk's persisted content digest was not canonical.
    CheckpointChunkDigestMismatch {
        /// Inclusive global token start of the affected chunk.
        token_start: u64,
        /// Persisted chunk digest.
        expected: ActivationDigest,
        /// Digest recomputed from schema, range, values, mask, and boundaries.
        got: ActivationDigest,
    },
    /// A reader produced more bytes than the caller's explicit durability bound.
    EncodedSizeLimitExceeded {
        /// Maximum accepted byte count.
        limit: u64,
    },
    /// The tensor name was empty, whitespace-only, or contained a NUL byte.
    InvalidTensorName,
    /// A source digest of all zeroes was supplied, indicating missing provenance.
    MissingSourceDigest,
    /// A required tensor or shard dimension was zero.
    ZeroDimension {
        /// Name of the invalid dimension.
        field: &'static str,
    },
    /// Checked arithmetic overflowed while deriving a shape or byte count.
    ArithmeticOverflow {
        /// Operation whose result was not representable.
        context: &'static str,
    },
    /// The canonical shard count did not fit the format's `u32` index space.
    TooManyShards {
        /// Number of shards required by the schema.
        count: u64,
    },
    /// A chunk declared zero tokens.
    EmptyChunk,
    /// A chunk's token range was outside the schema's tensor shape.
    ChunkOutOfBounds {
        /// Inclusive first token offset.
        start: u64,
        /// Number of tokens in the chunk.
        count: u64,
        /// Total token count declared by the schema.
        total: u64,
    },
    /// A chunk did not carry exactly one mask entry per declared token.
    MaskLengthMismatch {
        /// Required number of mask entries.
        expected: u64,
        /// Supplied number of mask entries.
        got: u64,
    },
    /// A chunk's row-major value count did not match its token and feature dimensions.
    ValueCountMismatch {
        /// Required number of scalar values.
        expected: u64,
        /// Supplied number of scalar values.
        got: u64,
    },
    /// A source activation was NaN or infinite.
    NonFiniteValue {
        /// Row-major scalar index containing the invalid value.
        index: u64,
    },
    /// A finite source activation overflowed the requested storage dtype.
    DTypeOverflow {
        /// Row-major scalar index containing the overflowing value.
        index: u64,
        /// Requested canonical storage dtype.
        dtype: ActivationDType,
    },
    /// Sequence ends were not strictly increasing within the chunk's token interval.
    InvalidBoundary {
        /// Previous exclusive sequence end, or the chunk start for the first entry.
        previous: u64,
        /// Invalid exclusive sequence end.
        boundary: u64,
        /// Inclusive first token offset of the chunk.
        chunk_start: u64,
        /// Exclusive last token offset of the chunk.
        chunk_end: u64,
    },
    /// A chunk was created for a different layer, tensor, shape, dtype, source, or shard policy.
    SchemaMismatch {
        /// Schema digest required by the destination builder.
        expected: ActivationDigest,
        /// Schema digest carried by the chunk or merged builder.
        got: ActivationDigest,
    },
    /// The exact token range had already been ingested.
    DuplicateRange {
        /// Inclusive first token offset of the duplicate range.
        start: u64,
        /// Exclusive last token offset of the duplicate range.
        end: u64,
    },
    /// A token range intersected a range already present in the builder.
    OverlappingRange {
        /// Inclusive first token offset of the incoming range.
        start: u64,
        /// Exclusive last token offset of the incoming range.
        end: u64,
        /// Inclusive first token offset of the conflicting range.
        existing_start: u64,
        /// Exclusive last token offset of the conflicting range.
        existing_end: u64,
    },
    /// Checkpoint chunks were not serialized in strictly increasing range order.
    NonCanonicalChunkOrder {
        /// Start of the previous checkpoint chunk.
        previous_start: u64,
        /// Start of the noncanonical next chunk.
        start: u64,
    },
    /// A checkpoint's declared covered-token count did not match its chunks.
    CoveredTokenMismatch {
        /// Sum of validated chunk token counts.
        expected: u64,
        /// Persisted covered-token count.
        got: u64,
    },
    /// Finalization found a gap in the zero-based token stream.
    Gap {
        /// Token offset at which data was required.
        expected_start: u64,
        /// Start of the next available range, or `None` for a trailing gap.
        next_start: Option<u64>,
    },
    /// The global exclusive sequence-end list did not end at the tensor's token count.
    MissingTerminalBoundary {
        /// Required terminal sequence end.
        total_tokens: u64,
    },
    /// Allocation of a backing store failed.
    AllocationFailed {
        /// Number of bytes requested for the backing store.
        bytes: u64,
    },
}

/// What an activation cache's schema says: the tensor's place, name and shape, its storage, its
/// source and the shard policy.
pub struct SchemaView {
    /// Zero-based transformer layer.
    pub layer_index: u32,
    /// Architecture tensor name.
    pub tensor_name: Seq<char>,
    /// Flattened token rows.
    pub total_tokens: u64,
    /// Scalars in each token row.
    pub feature_width: u64,
    /// Scalar storage.
    pub dtype: ActivationDType,
    /// Source-provenance digest.
    pub source_digest: Seq<u8>,
    /// Tokens in each full shard.
    pub shard_tokens: u32,
}

impl SchemaView {
    /// The tensor name's bytes.
    pub open spec fn name_bytes(self) -> Seq<u8> {
        encode_utf8(self.tensor_name)
    }

    /// Encoded bytes of one token row.
    pub open spec fn row_bytes(self) -> nat {
        self.feature_width as nat * self.dtype.width()
    }

    /// Shards that hold all tokens when every shard but the last is full.
    pub open spec fn shards(self) -> nat {
        ((self.total_tokens - 1) / self.shard_tokens as int + 1) as nat
    }

    /// First token of a shard.
    pub open spec fn shard_start(self, index: nat) -> nat {
        index * self.shard_tokens as nat
    }

    /// Tokens of a shard.
    pub open spec fn shard_count_at(self, index: nat) -> nat {
        let left = self.total_tokens - self.shard_start(index);
        if left < self.shard_tokens {
            left as nat
        } else {
            self.shard_tokens as nat
        }
    }

    /// The bytes that the schema digest covers after its domain.
    pub open spec fn digest_input(self) -> Seq<u8> {
        le(self.layer_index as nat, 4) + le(self.total_tokens as nat, 8) + le(
            self.feature_width as nat,
            8,
        ) + seq![self.dtype.code()] + self.source_digest + le(self.shard_tokens as nat, 4) + le(
            self.name_bytes().len(),
            8,
        ) + self.name_bytes()
    }

    /// The digest that binds layer, tensor, shape, dtype, source and shard policy.
    pub open spec fn digest(self) -> Seq<u8> {
        blake3_digest(
            encode_utf8("tritium salt v2 activation schema v1\0"@) + self.digest_input(),
        )
    }

    /// The reason to refuse the schema, if there is one.
    pub open spec fn error(self) -> Option<ActivationCacheError> {
        let scalars = self.total_tokens as nat * self.feature_width as nat;
        if blank(self.tensor_name) || self.name_bytes().contains(0) {
            Some(ActivationCacheError::InvalidTensorName)
        } else if self.name_bytes().len() > u32::MAX {
            Some(ActivationCacheError::ArithmeticOverflow { context: "tensor-name length" })
        } else if self.total_tokens == 0 {
            Some(ActivationCacheError::ZeroDimension { field: "token count" })
        } else if self.feature_width == 0 {
            Some(ActivationCacheError::ZeroDimension { field: "feature width" })
        } else if self.shard_tokens == 0 {
            Some(ActivationCacheError::ZeroDimension { field: "shard token count" })
        } else if all_zero(self.source_digest) {
            Some(ActivationCacheError::MissingSourceDigest)
        } else if scalars > u64::MAX {
            Some(ActivationCacheError::ArithmeticOverflow { context: "tensor element count" })
        } else if scalars * self.dtype.width() > u64::MAX {
            Some(ActivationCacheError::ArithmeticOverflow { context: "encoded tensor bytes" })
        } else if self.shards() > u32::MAX {
            Some(ActivationCacheError::TooManyShards { count: self.shards() as u64 })
        } else {
            None
        }
    }

    /// Whether the schema is accepted.
    pub open spec fn valid(self) -> bool {
        &&& self.error() is None
        &&& self.source_digest.len() == 32
    }
}

/// Immutable schema and provenance for one layer tensor's activation cache.
#[derive(Clone, Debug, PartialEq, Eq)]
pub struct ActivationCacheSpec {
    layer_index: u32,
    tensor_name: String,
    total_tokens: u64,
    feature_width: u64,
    dtype: ActivationDType,
    source_digest: ActivationDigest,
    shard_tokens: u32,
    shard_count: u32,
    schema_digest: ActivationDigest,
}

impl View for ActivationCacheSpec {
    type V = SchemaView;

    closed spec fn view(&self) -> SchemaView {
        SchemaView {
            layer_index: self.layer_index,
            tensor_name: self.tensor_name@,
            total_tokens: self.total_tokens,
            feature_width: self.feature_width,
            dtype: self.dtype,
            source_digest: self.source_digest@,
            shard_tokens: self.shard_tokens,
        }
    }
}

impl ActivationCacheSpec {
    /// The schema is valid, and its derived fields are what it implies.
    pub closed spec fn wf(&self) -> bool {
        &&& self@.valid()
        &&& self.shard_count as nat == self@.shards()
        &&& self.schema_digest@ == self@.digest()
    }

    /// A well-formed schema is a valid one.
    pub proof fn wf_valid(&self)
        requires
            self.wf(),
        ensures
            self@.valid(),
    {
    }

    /// Validates a layer tensor shape, its source provenance, and canonical shard policy.
    pub fn new(
        layer_index: u32,
        tensor_name: &str,
        total_tokens: u64,
        feature_width: u64,
        dtype: ActivationDType,
        source_digest: ActivationDigest,
        shard_tokens: u32,
    ) -> (spec: Result<Self, ActivationCacheError>)
        ensures
            ({
                let schema = SchemaView {
                    layer_index,
                    tensor_name: tensor_name@,
                    total_tokens,
                    feature_width,
                    dtype,
                    source_digest: source_digest@,
                    shard_tokens,
                };
                match schema.error() {
                    Some(error) => spec == Err::<Self, ActivationCacheError>(error),
                    None => spec matches Ok(made) && made@ == schema && made.wf(),
                }
            }),
    {
        let name: &[u8] = tensor_name.as_bytes();
        if is_blank(tensor_name) || contains_byte(name, 0) {
            return Err(ActivationCacheError::InvalidTensorName);
        }
        if name.len() as u64 > u32::MAX as u64 {
            return Err(ActivationCacheError::ArithmeticOverflow { context: "tensor-name length" });
        }
        if total_tokens == 0 {
            return Err(ActivationCacheError::ZeroDimension { field: "token count" });
        }
        if feature_width == 0 {
            return Err(ActivationCacheError::ZeroDimension { field: "feature width" });
        }
        if shard_tokens == 0 {
            return Err(ActivationCacheError::ZeroDimension { field: "shard token count" });
        }
        if source_digest.is_zero() {
            return Err(ActivationCacheError::MissingSourceDigest);
        }
        let scalars: u64 = checked_mul(total_tokens, feature_width, "tensor element count")?;
        let _bytes: u64 = checked_mul(
            scalars,
            dtype.encoded_width() as u64,
            "encoded tensor bytes",
        )?;
        let wide: u64 = (total_tokens - 1) / shard_tokens as u64;
        proof {
            lemma_quotient_below(total_tokens - 1, shard_tokens as int);
        }
        let count: u64 = wide + 1;
        if count > u32::MAX as u64 {
            return Err(ActivationCacheError::TooManyShards { count });
        }
        let ghost schema = SchemaView {
            layer_index,
            tensor_name: tensor_name@,
            total_tokens,
            feature_width,
            dtype,
            source_digest: source_digest@,
            shard_tokens,
        };
        let schema_digest = compute_schema_digest(
            layer_index,
            name,
            total_tokens,
            feature_width,
            dtype,
            source_digest,
            shard_tokens,
            Ghost(schema),
        );
        proof {
            ActivationDigest::bytes_determine(source_digest, source_digest);
        }
        Ok(
            ActivationCacheSpec {
                layer_index,
                tensor_name: tensor_name.to_owned(),
                total_tokens,
                feature_width,
                dtype,
                source_digest,
                shard_tokens,
                shard_count: count as u32,
                schema_digest,
            },
        )
    }

    /// Returns the zero-based transformer-layer index.
    pub fn layer_index(&self) -> (index: u32)
        ensures
            index == self@.layer_index,
    {
        self.layer_index
    }

    /// Returns the architecture tensor name.
    pub fn tensor_name(&self) -> (name: &str)
        ensures
            name@ == self@.tensor_name,
    {
        self.tensor_name.as_str()
    }

    /// Returns the number of flattened token rows in the tensor.
    pub fn total_tokens(&self) -> (tokens: u64)
        ensures
            tokens == self@.total_tokens,
    {
        self.total_tokens
    }

    /// Returns the scalar feature count in each token row.
    pub fn feature_width(&self) -> (width: u64)
        ensures
            width == self@.feature_width,
    {
        self.feature_width
    }

    /// Returns the canonical scalar storage dtype.
    pub fn dtype(&self) -> (dtype: ActivationDType)
        ensures
            dtype == self@.dtype,
    {
        self.dtype
    }

    /// Returns the source-provenance envelope digest.
    ///
    /// Callers should bind the model, tokenizer, dataset revisions, sampling seed, and ordered
    /// token stream into this envelope before constructing the cache.
    pub fn source_digest(&self) -> (digest: ActivationDigest)
        ensures
            digest@ == self@.source_digest,
    {
        self.source_digest
    }

    /// Returns the maximum token count in each canonical shard.
    pub fn shard_tokens(&self) -> (tokens: u32)
        ensures
            tokens == self@.shard_tokens,
    {
        self.shard_tokens
    }

    /// Returns the exact number of canonical shards.
    pub fn shard_count(&self) -> (count: u32)
        requires
            self.wf(),
        ensures
            count as nat == self@.shards(),
    {
        self.shard_count
    }

    /// Returns the digest binding layer, tensor, shape, dtype, source, and shard policy.
    pub fn schema_digest(&self) -> (digest: ActivationDigest)
        requires
            self.wf(),
        ensures
            digest@ == self@.digest(),
    {
        self.schema_digest
    }

    /// Copies the schema.
    pub fn duplicate(&self) -> (copy: Self)
        requires
            self.wf(),
        ensures
            copy@ == self@,
            copy.wf(),
    {
        ActivationCacheSpec {
            layer_index: self.layer_index,
            tensor_name: self.tensor_name.as_str().to_owned(),
            total_tokens: self.total_tokens,
            feature_width: self.feature_width,
            dtype: self.dtype,
            source_digest: self.source_digest,
            shard_tokens: self.shard_tokens,
            shard_count: self.shard_count,
            schema_digest: self.schema_digest,
        }
    }

    /// Whether both schemas say the same.
    pub fn same(&self, other: &Self) -> (equal: bool)
        ensures
            equal == (self@ == other@),
    {
        let same_name = bytes_equal(
            self.tensor_name.as_str().as_bytes(),
            other.tensor_name.as_str().as_bytes(),
        );
        proof {
            vstd::utf8::encode_utf8_decode_utf8(self.tensor_name@);
            vstd::utf8::encode_utf8_decode_utf8(other.tensor_name@);
        }
        self.layer_index == other.layer_index && same_name && self.total_tokens
            == other.total_tokens && self.feature_width == other.feature_width && self.dtype
            == other.dtype && self.source_digest.same(&other.source_digest) && self.shard_tokens
            == other.shard_tokens
    }
}

proof fn lemma_quotient_below(value: int, divisor: int)
    requires
        value >= 0,
        divisor >= 1,
    ensures
        0 <= value / divisor <= value,
{
    vstd::arithmetic::div_mod::lemma_div_pos_is_pos(value, divisor);
    vstd::arithmetic::div_mod::lemma_div_is_ordered_by_denominator(value, 1, divisor);
    vstd::arithmetic::div_mod::lemma_div_by_self(1);
}

/// Computes the digest that binds layer, tensor, shape, dtype, source and shard policy.
fn compute_schema_digest(
    layer_index: u32,
    name: &[u8],
    total_tokens: u64,
    feature_width: u64,
    dtype: ActivationDType,
    source_digest: ActivationDigest,
    shard_tokens: u32,
    Ghost(schema): Ghost<SchemaView>,
) -> (digest: ActivationDigest)
    requires
        schema.layer_index == layer_index,
        schema.total_tokens == total_tokens,
        schema.feature_width == feature_width,
        schema.dtype == dtype,
        schema.source_digest == source_digest@,
        schema.shard_tokens == shard_tokens,
        schema.name_bytes() == name@,
    ensures
        digest@ == schema.digest(),
{
    let mut body: Vec<u8> = Vec::new();
    push_le(&mut body, layer_index as u64, 4);
    push_le(&mut body, total_tokens, 8);
    push_le(&mut body, feature_width, 8);
    body.push(dtype.format_code());
    push_bytes(&mut body, source_digest.as_bytes().as_slice());
    push_le(&mut body, shard_tokens as u64, 4);
    push_le(&mut body, name.len() as u64, 8);
    push_bytes(&mut body, name);
    assert(body@ =~= schema.digest_input());
    ActivationDigest::from_bytes(
        hash_parts("tritium salt v2 activation schema v1\0".as_bytes(), body.as_slice()),
    )
}

/// Adds two counts, or names the sum that does not fit.
pub fn checked_add(left: u64, right: u64, context: &'static str) -> (sum: Result<
    u64,
    ActivationCacheError,
>)
    ensures
        match sum {
            Ok(value) => value == left + right,
            Err(error) => left + right > u64::MAX && error
                == ActivationCacheError::ArithmeticOverflow { context },
        },
{
    match left.checked_add(right) {
        Some(value) => Ok(value),
        None => Err(ActivationCacheError::ArithmeticOverflow { context }),
    }
}

/// Multiplies two counts, or names the product that does not fit.
pub fn checked_mul(left: u64, right: u64, context: &'static str) -> (product: Result<
    u64,
    ActivationCacheError,
>)
    ensures
        match product {
            Ok(value) => value == left * right,
            Err(error) => left * right > u64::MAX && error
                == ActivationCacheError::ArithmeticOverflow { context },
        },
{
    match left.checked_mul(right) {
        Some(value) => Ok(value),
        None => Err(ActivationCacheError::ArithmeticOverflow { context }),
    }
}

/// Converts a count to the machine's size type, or names the count that does not fit.
pub fn usize_from_u64(value: u64, context: &'static str) -> (size: Result<
    usize,
    ActivationCacheError,
>)
    ensures
        match size {
            Ok(same) => same == value,
            Err(error) => value > usize::MAX && error == ActivationCacheError::ArithmeticOverflow {
                context,
            },
        },
{
    if value <= usize::MAX as u64 {
        Ok(value as usize)
    } else {
        Err(ActivationCacheError::ArithmeticOverflow { context })
    }
}

} // verus!
