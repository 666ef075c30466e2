//! Validated, dtype-encoded token intervals.

use crate::activation_scalar::{
    bytes_finite, encode_value, lemma_stored_values, mask_bytes, pack_mask, packed_mask,
    stored_values, value_error, values_error,
};
use crate::activation_schema::{
    usize_from_u64, ActivationCacheError, ActivationCacheSpec, ActivationDType, ActivationDigest,
    SchemaView,
};
use crate::hashing::{blake3_digest, hash_parts};
use crate::wire::{le, lemma_le_len, push_bytes, push_le};
use vstd::prelude::*;
use vstd::utf8::encode_utf8;

verus! {

/// What a chunk holds.
pub struct ChunkView {
    /// Digest of the schema that the chunk was encoded for.
    pub schema_digest: Seq<u8>,
    /// Token rows of that schema's tensor.
    pub total_tokens: u64,
    /// Scalars in each token row.
    pub feature_width: u64,
    /// Scalar storage.
    pub dtype: ActivationDType,
    /// First token.
    pub token_start: u64,
    /// Number of tokens.
    pub token_count: u64,
    /// Canonical little-endian scalar bytes.
    pub values: Seq<u8>,
    /// One entry per token.
    pub mask: Seq<bool>,
    /// Global exclusive sequence ends.
    pub ends: Seq<u64>,
}

/// Whether sequence ends increase strictly within the token interval `(start, end]`.
pub open spec fn ends_valid(ends: Seq<u64>, start: int, end: int) -> bool {
    &&& forall|k: int| 0 <= k < ends.len() ==> start < #[trigger] ends[k] <= end
    &&& forall|i: int, j: int| 0 <= i < j < ends.len() ==> ends[i] < ends[j]
}

/// The value that the sequence end at `index` has to exceed.
pub open spec fn end_before(ends: Seq<u64>, start: u64, index: nat) -> u64 {
    if index == 0 {
        start
    } else {
        ends[index - 1]
    }
}

/// The reason to refuse the sequence ends from `from` on, if there is one.
pub open spec fn ends_error(ends: Seq<u64>, start: u64, end: u64, from: nat) -> Option<
    ActivationCacheError,
>
    decreases ends.len() - from,
{
    if from >= ends.len() {
        None
    } else if ends[from as int] <= end_before(ends, start, from) || ends[from as int] > end {
        Some(
            ActivationCacheError::InvalidBoundary {
                previous: end_before(ends, start, from),
                boundary: ends[from as int],
                chunk_start: start,
                chunk_end: end,
            },
        )
    } else {
        ends_error(ends, start, end, from + 1)
    }
}

/// The canonical bytes of a list of sequence ends.
pub open spec fn stored_ends(ends: Seq<u64>) -> Seq<u8>
    decreases ends.len(),
{
    if ends.len() == 0 {
        Seq::empty()
    } else {
        stored_ends(ends.drop_last()) + le(ends.last() as nat, 8)
    }
}

pub proof fn lemma_stored_ends_len(ends: Seq<u64>)
    ensures
        stored_ends(ends).len() == 8 * ends.len(),
    decreases ends.len(),
{
    broadcast use lemma_le_len;

    if ends.len() > 0 {
        lemma_stored_ends_len(ends.drop_last());
    }
}

/// No sequence end from `from` on is refused exactly when they increase strictly in the interval.
pub proof fn lemma_ends_error(ends: Seq<u64>, start: u64, end: u64, from: nat)
    requires
        from <= ends.len(),
        ends_valid(ends.take(from as int), start as int, end as int),
    ensures
        ends_error(ends, start, end, from) is None <==> ends_valid(ends, start as int, end as int),
    decreases ends.len() - from,
{
    let before = ends.take(from as int);
    assert forall|k: int| 0 <= k < from implies before[k] == ends[k] by {}
    if from == ends.len() {
        assert(before =~= ends);
    } else {
        let next = ends[from as int];
        if next <= end_before(ends, start, from) || next > end {
            if from > 0 {
                assert(ends[from - 1] < ends[from as int] || !ends_valid(
                    ends,
                    start as int,
                    end as int,
                ));
            }
        } else {
            let longer = ends.take(from as int + 1);
            assert(longer =~= before.push(next));
            assert forall|i: int, j: int| 0 <= i < j < longer.len() implies longer[i]
                < longer[j] by {
                if j == from {
                    if i < from - 1 {
                        assert(before[i] < before[from - 1]);
                    }
                    if i < from {
                        assert(before[i] == longer[i]);
                    }
                } else {
                    assert(before[i] < before[j]);
                }
            }
            assert forall|k: int| 0 <= k < longer.len() implies start < #[trigger] longer[k]
                <= end by {
                if k < from {
                    assert(start < before[k] <= end);
                } else if from > 0 {
                    assert(start < before[from - 1]);
                }
            }
            lemma_ends_error(ends, start, end, from + 1);
        }
    }
}

/// Strictly increasing ends in an interval are at most as many as its tokens.
pub proof fn lemma_ends_count(ends: Seq<u64>, start: int, end: int)
    requires
        start <= end,
        ends_valid(ends, start, end),
    ensures
        ends.len() <= end - start,
        ends.len() > 0 ==> ends.len() <= ends.last() - start,
    decreases ends.len(),
{
    if ends.len() > 1 {
        let front = ends.drop_last();
        assert forall|k: int| 0 <= k < front.len() implies start < #[trigger] front[k]
            <= end by {
            assert(front[k] == ends[k]);
        }
        assert forall|i: int, j: int| 0 <= i < j < front.len() implies front[i] < front[j] by {
            assert(ends[i] < ends[j]);
        }
        lemma_ends_count(front, start, end);
        assert(ends[ends.len() - 2] < ends[ends.len() - 1]);
    } else if ends.len() == 1 {
        assert(start < ends[0] <= end);
    }
}

impl ChunkView {
    /// One past the last token.
    pub open spec fn end(self) -> int {
        self.token_start + self.token_count
    }

    /// Encoded bytes of one token row.
    pub open spec fn row_bytes(self) -> nat {
        self.feature_width as nat * self.dtype.width()
    }

    /// The bytes that the chunk digest covers after its domain.
    pub open spec fn digest_input(self) -> Seq<u8> {
        self.schema_digest + le(self.token_start as nat, 8) + le(self.token_count as nat, 8) + le(
            self.values.len(),
            8,
        ) + self.values + le(mask_bytes(self.mask.len()), 8) + packed_mask(self.mask) + le(
            self.ends.len(),
            8,
        ) + stored_ends(self.ends)
    }

    /// The content digest over schema, range, values, mask and boundaries.
    pub open spec fn digest(self) -> Seq<u8> {
        blake3_digest(
            encode_utf8("tritium salt v2 activation chunk v1\0"@) + self.digest_input(),
        )
    }

    /// Whether the chunk is a validated interval of its tensor.
    pub open spec fn valid(self) -> bool {
        &&& self.token_count > 0
        &&& self.end() <= self.total_tokens
        &&& self.mask.len() == self.token_count
        &&& self.values.len() == self.token_count as nat * self.row_bytes()
        &&& bytes_finite(self.dtype, self.values)
        &&& ends_valid(self.ends, self.token_start as int, self.end())
    }

    /// Whether the chunk was encoded for the schema.
    pub open spec fn fits(self, schema: SchemaView) -> bool {
        &&& self.schema_digest == schema.digest()
        &&& self.total_tokens == schema.total_tokens
        &&& self.feature_width == schema.feature_width
        &&& self.dtype == schema.dtype
    }
}

/// The reason to refuse a chunk before its values are looked at, if there is one.
pub open spec fn chunk_error(
    schema: SchemaView,
    token_start: u64,
    token_count: u64,
    values: nat,
    mask: nat,
    ends: Seq<u64>,
) -> Option<ActivationCacheError> {
    let end = token_start + token_count;
    let expected = token_count as nat * schema.feature_width as nat;
    if token_count == 0 {
        Some(ActivationCacheError::EmptyChunk)
    } else if end > u64::MAX {
        Some(ActivationCacheError::ArithmeticOverflow { context: "chunk token end" })
    } else if end > schema.total_tokens {
        Some(
            ActivationCacheError::ChunkOutOfBounds {
                start: token_start,
                count: token_count,
                total: schema.total_tokens,
            },
        )
    } else if mask != token_count {
        Some(
            ActivationCacheError::MaskLengthMismatch { expected: token_count, got: mask as u64 },
        )
    } else if values != expected {
        Some(
            ActivationCacheError::ValueCountMismatch {
                expected: expected as u64,
                got: values as u64,
            },
        )
    } else if ends_error(ends, token_start, end as u64, 0) is Some {
        ends_error(ends, token_start, end as u64, 0)
    } else if expected * schema.dtype.width() > usize::MAX {
        Some(ActivationCacheError::ArithmeticOverflow { context: "encoded chunk allocation" })
    } else {
        None
    }
}

/// A validated, dtype-encoded token interval that can be checkpointed and merged on resume.
///
/// Beside the schema digest a chunk keeps the shape that it was validated against, so that its
/// acceptance elsewhere never rests on the digest alone.
#[derive(Clone, Debug, PartialEq, Eq)]
pub struct ActivationChunk {
    schema_digest: ActivationDigest,
    total_tokens: u64,
    feature_width: u64,
    dtype: ActivationDType,
    token_start: u64,
    token_count: u64,
    encoded_values: Vec<u8>,
    token_mask: Vec<bool>,
    sequence_ends: Vec<u64>,
    digest: ActivationDigest,
}

impl View for ActivationChunk {
    type V = ChunkView;

    closed spec fn view(&self) -> ChunkView {
        ChunkView {
            schema_digest: self.schema_digest@,
            total_tokens: self.total_tokens,
            feature_width: self.feature_width,
            dtype: self.dtype,
            token_start: self.token_start,
            token_count: self.token_count,
            values: self.encoded_values@,
            mask: self.token_mask@,
            ends: self.sequence_ends@,
        }
    }
}

/// Bounds that a valid schema puts on the bytes of some of its tokens.
pub proof fn lemma_token_bytes(schema: SchemaView, tokens: nat)
    requires
        schema.valid(),
        tokens <= schema.total_tokens,
    ensures
        tokens * schema.feature_width as nat <= u64::MAX,
        tokens * schema.feature_width as nat * schema.dtype.width() == tokens * schema.row_bytes(),
        tokens * schema.row_bytes() <= u64::MAX,
        schema.row_bytes() <= u64::MAX,
        schema.row_bytes() >= 2,
        tokens <= tokens * schema.feature_width as nat,
{
    let total = schema.total_tokens as nat;
    let features = schema.feature_width as nat;
    let width = schema.dtype.width();
    assert(tokens * features <= total * features) by (nonlinear_arith)
        requires
            tokens <= total,
    ;
    assert(tokens * features * width == tokens * (features * width)) by (nonlinear_arith);
    assert(tokens * features * width <= total * features * width) by (nonlinear_arith)
        requires
            tokens * features <= total * features,
    ;
    assert(features * width <= total * features * width) by (nonlinear_arith)
        requires
            total >= 1,
    ;
    assert(features * width >= 2) by (nonlinear_arith)
        requires
            features >= 1,
            width >= 2,
    ;
    assert(tokens <= tokens * features) by (nonlinear_arith)
        requires
            features >= 1,
    ;
}

/// An empty vector with room for bytes; `None` where memory is refused, which it is not for none.
pub(crate) fn reserved(capacity: usize) -> (room: Option<Vec<u8>>)
    ensures
        room matches Some(empty) ==> empty@.len() == 0,
        capacity == 0 ==> room is Some,
{
    let mut room: Vec<u8> = Vec::new();
    if capacity == 0 {
        return Some(room);
    }
    match room.try_reserve(capacity) {
        Ok(_) => Some(room),
        Err(_) => None,
    }
}

impl ActivationChunk {
    /// The interval is valid and carries its own digest.
    pub closed spec fn wf(&self) -> bool {
        &&& self@.valid()
        &&& self.digest@ == self@.digest()
    }

    /// A well-formed chunk is a valid one.
    pub proof fn wf_valid(&self)
        requires
            self.wf(),
        ensures
            self@.valid(),
    {
    }

    /// Validates and canonically encodes a row-major activation interval.
    ///
    /// Values are binary32 bit patterns. Sequence ends are global exclusive token offsets. Every
    /// supplied end must be in `(token_start, token_start + token_count]`; a sequence spanning
    /// chunks is recorded by the chunk containing its end.
    pub fn new(
        spec: &ActivationCacheSpec,
        token_start: u64,
        token_count: u64,
        values: Vec<u32>,
        token_mask: Vec<bool>,
        sequence_ends: Vec<u64>,
    ) -> (chunk: Result<Self, ActivationCacheError>)
        requires
            spec.wf(),
        ensures
            match chunk_error(
                spec@,
                token_start,
                token_count,
                values@.len(),
                token_mask@.len(),
                sequence_ends@,
            ) {
                Some(error) => chunk == Err::<Self, ActivationCacheError>(error),
                None => {
                    ||| chunk == Err::<Self, ActivationCacheError>(
                        ActivationCacheError::AllocationFailed {
                            bytes: (values@.len() * spec@.dtype.width()) as u64,
                        },
                    )
                    ||| match values_error(spec@.dtype, values@, 0) {
                        Some(error) => chunk == Err::<Self, ActivationCacheError>(error),
                        None => {
                            &&& chunk matches Ok(made)
                            &&& made.wf()
                            &&& made@ == (ChunkView {
                                schema_digest: spec@.digest(),
                                total_tokens: spec@.total_tokens,
                                feature_width: spec@.feature_width,
                                dtype: spec@.dtype,
                                token_start,
                                token_count,
                                values: stored_values(spec@.dtype, values@),
                                mask: token_mask@,
                                ends: sequence_ends@,
                            })
                        },
                    }
                },
            },
    {
        let width: usize = spec.dtype().encoded_width() as usize;
        let room: Option<Vec<u8>> = match values.len().checked_mul(width) {
            Some(capacity) => reserved(capacity),
            None => None,
        };
        Self::encoded_in(
            spec,
            token_start,
            token_count,
            values,
            token_mask,
            sequence_ends,
            room,
        )
    }

    /// Validates and encodes an interval into a vector; `None` where memory for it was refused.
    pub fn encoded_in(
        spec: &ActivationCacheSpec,
        token_start: u64,
        token_count: u64,
        values: Vec<u32>,
        token_mask: Vec<bool>,
        sequence_ends: Vec<u64>,
        room: Option<Vec<u8>>,
    ) -> (chunk: Result<Self, ActivationCacheError>)
        requires
            spec.wf(),
            room matches Some(empty) ==> empty@.len() == 0,
        ensures
            match chunk_error(
                spec@,
                token_start,
                token_count,
                values@.len(),
                token_mask@.len(),
                sequence_ends@,
            ) {
                Some(error) => chunk == Err::<Self, ActivationCacheError>(error),
                None => if room is None {
                    chunk == Err::<Self, ActivationCacheError>(
                        ActivationCacheError::AllocationFailed {
                            bytes: (values@.len() * spec@.dtype.width()) as u64,
                        },
                    )
                } else {
                    match values_error(spec@.dtype, values@, 0) {
                        Some(error) => chunk == Err::<Self, ActivationCacheError>(error),
                        None => {
                            &&& chunk matches Ok(made)
                            &&& made.wf()
                            &&& made@ == (ChunkView {
                                schema_digest: spec@.digest(),
                                total_tokens: spec@.total_tokens,
                                feature_width: spec@.feature_width,
                                dtype: spec@.dtype,
                                token_start,
                                token_count,
                                values: stored_values(spec@.dtype, values@),
                                mask: token_mask@,
                                ends: sequence_ends@,
                            })
                        },
                    }
                },
            },
    {
        proof {
            spec.wf_valid();
        }
        if token_count == 0 {
            return Err(ActivationCacheError::EmptyChunk);
        }
        let token_end: u64 = match token_start.checked_add(token_count) {
            Some(end) => end,
            None => {
                return Err(ActivationCacheError::ArithmeticOverflow { context: "chunk token end" });
            },
        };
        if token_end > spec.total_tokens() {
            return Err(
                ActivationCacheError::ChunkOutOfBounds {
                    start: token_start,
                    count: token_count,
                    total: spec.total_tokens(),
                },
            );
        }
        if token_mask.len() as u64 != token_count {
            return Err(
                ActivationCacheError::MaskLengthMismatch {
                    expected: token_count,
                    got: token_mask.len() as u64,
                },
            );
        }
        proof {
            lemma_token_bytes(spec@, token_count as nat);
        }
        let expected: u64 = token_count * spec.feature_width();
        if values.len() as u64 != expected {
            return Err(
                ActivationCacheError::ValueCountMismatch { expected, got: values.len() as u64 },
            );
        }
        check_ends(sequence_ends.as_slice(), token_start, token_end)?;
        let encoded_len: u64 = expected * spec.dtype().encoded_width() as u64;
        let _capacity: usize = usize_from_u64(encoded_len, "encoded chunk allocation")?;
        let mut encoded_values: Vec<u8> = match room {
            None => {
                return Err(ActivationCacheError::AllocationFailed { bytes: encoded_len });
            },
            Some(empty) => empty,
        };
        encode_values(spec.dtype(), values.as_slice(), &mut encoded_values)?;
        proof {
            let no_ends = sequence_ends@.take(0);
            lemma_ends_error(sequence_ends@, token_start, token_end, 0);
            assert forall|k: int| 0 <= k < values@.len() implies value_error(
                spec@.dtype,
                values@[k],
                k as u64,
            ) is None by {
                lemma_values_accepted(spec@.dtype, values@, 0, k);
            }
            lemma_stored_values(spec@.dtype, values@);
        }
        Ok(
            Self::assemble(
                spec,
                token_start,
                token_count,
                encoded_values,
                token_mask,
                sequence_ends,
            ),
        )
    }

    /// Puts a validated interval together with its digest.
    pub fn assemble(
        spec: &ActivationCacheSpec,
        token_start: u64,
        token_count: u64,
        encoded_values: Vec<u8>,
        token_mask: Vec<bool>,
        sequence_ends: Vec<u64>,
    ) -> (chunk: Self)
        requires
            spec.wf(),
            (ChunkView {
                schema_digest: spec@.digest(),
                total_tokens: spec@.total_tokens,
                feature_width: spec@.feature_width,
                dtype: spec@.dtype,
                token_start,
                token_count,
                values: encoded_values@,
                mask: token_mask@,
                ends: sequence_ends@,
            }).valid(),
        ensures
            chunk.wf(),
            chunk@ == (ChunkView {
                schema_digest: spec@.digest(),
                total_tokens: spec@.total_tokens,
                feature_width: spec@.feature_width,
                dtype: spec@.dtype,
                token_start,
                token_count,
                values: encoded_values@,
                mask: token_mask@,
                ends: sequence_ends@,
            }),
    {
        let packed: Vec<u8> = pack_mask(token_mask.as_slice(), 0, token_mask.len());
        proof {
            assert(token_mask@.subrange(0, token_mask@.len() as int) =~= token_mask@);
        }
        let digest = compute_chunk_digest(
            spec.schema_digest(),
            token_start,
            token_count,
            encoded_values.as_slice(),
            packed.as_slice(),
            sequence_ends.as_slice(),
        );
        let chunk = ActivationChunk {
            schema_digest: spec.schema_digest(),
            total_tokens: spec.total_tokens(),
            feature_width: spec.feature_width(),
            dtype: spec.dtype(),
            token_start,
            token_count,
            encoded_values,
            token_mask,
            sequence_ends,
            digest,
        };
        assert(packed@.len() == mask_bytes(token_mask@.len()));
        chunk
    }

    /// Returns the schema digest this chunk was encoded against.
    pub fn schema_digest(&self) -> (digest: ActivationDigest)
        ensures
            digest@ == self@.schema_digest,
    {
        self.schema_digest
    }

    /// Returns the inclusive first global token offset.
    pub fn token_start(&self) -> (start: u64)
        ensures
            start == self@.token_start,
    {
        self.token_start
    }

    /// Returns the number of token rows in this interval.
    pub fn token_count(&self) -> (count: u64)
        ensures
            count == self@.token_count,
    {
        self.token_count
    }

    /// Returns the exclusive final global token offset.
    pub fn token_end(&self) -> (end: u64)
        requires
            self.wf(),
        ensures
            end == self@.end(),
    {
        self.token_start + self.token_count
    }

    /// Returns canonical little-endian scalar bytes for checkpoint persistence.
    pub fn encoded_values(&self) -> (values: &[u8])
        ensures
            values@ == self@.values,
    {
        self.encoded_values.as_slice()
    }

    /// Returns one validity bit per token row.
    pub fn token_mask(&self) -> (mask: &[bool])
        ensures
            mask@ == self@.mask,
    {
        self.token_mask.as_slice()
    }

    /// Returns global exclusive sequence ends carried by this interval.
    pub fn sequence_ends(&self) -> (ends: &[u64])
        ensures
            ends@ == self@.ends,
    {
        self.sequence_ends.as_slice()
    }

    /// Returns the chunk's content digest, including schema, range, values, mask, and boundaries.
    pub fn digest(&self) -> (digest: ActivationDigest)
        requires
            self.wf(),
        ensures
            digest@ == self@.digest(),
    {
        self.digest
    }

    /// Whether the chunk was encoded for the schema.
    pub fn was_encoded_for(&self, spec: &ActivationCacheSpec) -> (fits: bool)
        requires
            spec.wf(),
        ensures
            fits == self@.fits(spec@),
    {
        self.schema_digest.same(&spec.schema_digest()) && self.total_tokens == spec.total_tokens()
            && self.feature_width == spec.feature_width() && self.dtype == spec.dtype()
    }
}

proof fn lemma_values_accepted(dtype: ActivationDType, values: Seq<u32>, from: nat, index: int)
    requires
        values_error(dtype, values, from) is None,
        from <= index < values.len(),
    ensures
        value_error(dtype, values[index], index as u64) is None,
    decreases values.len() - from,
{
    if from < index {
        lemma_values_accepted(dtype, values, from + 1, index);
    }
}

/// Appends the canonical bytes of every source value, or says why the first refused one is.
fn encode_values(dtype: ActivationDType, values: &[u32], output: &mut Vec<u8>) -> (result: Result<
    (),
    ActivationCacheError,
>)
    requires
        old(output)@.len() == 0,
    ensures
        match values_error(dtype, values@, 0) {
            Some(error) => result == Err::<(), ActivationCacheError>(error),
            None => result is Ok && final(output)@ == stored_values(dtype, values@),
        },
{
    let mut index: usize = 0;
    assert(output@ =~= stored_values(dtype, values@.take(0)));
    while index < values.len()
        invariant
            index <= values@.len(),
            output@ == stored_values(dtype, values@.take(index as int)),
            values_error(dtype, values@, 0) == values_error(dtype, values@, index as nat),
        decreases values@.len() - index,
    {
        encode_value(dtype, values[index], index as u64, output)?;
        proof {
            let longer = values@.take(index + 1);
            assert(longer.drop_last() =~= values@.take(index as int));
            assert(longer.last() == values@[index as int]);
        }
        index = index + 1;
    }
    assert(values@.take(index as int) =~= values@);
    Ok(())
}

/// Checks that sequence ends increase strictly within the token interval.
pub fn check_ends(ends: &[u64], start: u64, end: u64) -> (result: Result<(), ActivationCacheError>)
    ensures
        match ends_error(ends@, start, end, 0) {
            Some(error) => result == Err::<(), ActivationCacheError>(error),
            None => result is Ok,
        },
{
    let mut previous: u64 = start;
    let mut index: usize = 0;
    while index < ends.len()
        invariant
            index <= ends@.len(),
            previous == end_before(ends@, start, index as nat),
            ends_error(ends@, start, end, 0) == ends_error(ends@, start, end, index as nat),
        decreases ends@.len() - index,
    {
        let boundary: u64 = ends[index];
        if boundary <= previous || boundary > end {
            return Err(
                ActivationCacheError::InvalidBoundary {
                    previous,
                    boundary,
                    chunk_start: start,
                    chunk_end: end,
                },
            );
        }
        previous = boundary;
        index = index + 1;
    }
    Ok(())
}

/// Appends the canonical bytes of a list of sequence ends.
pub fn push_ends(out: &mut Vec<u8>, ends: &[u64])
    ensures
        final(out)@ == old(out)@ + stored_ends(ends@),
{
    let mut index: usize = 0;
    assert(out@ =~= old(out)@ + stored_ends(ends@.take(0)));
    while index < ends.len()
        invariant
            index <= ends@.len(),
            out@ == old(out)@ + stored_ends(ends@.take(index as int)),
        decreases ends@.len() - index,
    {
        let ghost before = out@;
        push_le(out, ends[index], 8);
        proof {
            let longer = ends@.take(index + 1);
            assert(longer.drop_last() =~= ends@.take(index as int));
            assert(longer.last() == ends@[index as int]);
            assert(out@ =~= old(out)@ + stored_ends(longer));
        }
        index = index + 1;
    }
    assert(ends@.take(index as int) =~= ends@);
}

/// Computes the digest of an interval from its canonical parts.
pub fn compute_chunk_digest(
    schema_digest: ActivationDigest,
    token_start: u64,
    token_count: u64,
    encoded_values: &[u8],
    packed: &[u8],
    sequence_ends: &[u64],
) -> (digest: ActivationDigest)
    ensures
        digest@ == blake3_digest(
            encode_utf8("tritium salt v2 activation chunk v1\0"@) + (schema_digest@ + le(
                token_start as nat,
                8,
            ) + le(token_count as nat, 8) + le(encoded_values@.len(), 8) + encoded_values@ + le(
                packed@.len(),
                8,
            ) + packed@ + le(sequence_ends@.len(), 8) + stored_ends(sequence_ends@)),
        ),
{
    let mut body: Vec<u8> = Vec::new();
    push_bytes(&mut body, schema_digest.as_bytes().as_slice());
    push_le(&mut body, token_start, 8);
    push_le(&mut body, token_count, 8);
    push_le(&mut body, encoded_values.len() as u64, 8);
    push_bytes(&mut body, encoded_values);
    push_le(&mut body, packed.len() as u64, 8);
    push_bytes(&mut body, packed);
    push_le(&mut body, sequence_ends.len() as u64, 8);
    push_ends(&mut body, sequence_ends);
    assert(body@ =~= schema_digest@ + le(token_start as nat, 8) + le(token_count as nat, 8) + le(
        encoded_values@.len(),
        8,
    ) + encoded_values@ + le(packed@.len(), 8) + packed@ + le(sequence_ends@.len(), 8)
        + stored_ends(sequence_ends@));
    ActivationDigest::from_bytes(
        hash_parts("tritium salt v2 activation chunk v1\0".as_bytes(), body.as_slice()),
    )
}

} // verus!
