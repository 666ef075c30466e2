//! Exact calibration, evaluation and recipe records and their content identities.

use crate::campaign_error::CampaignError;
use crate::hashing::{blake3_derived, derive_digest};
use crate::wire::{
    bytes_equal, hex, le, lemma_le_limits, lemma_same_front, lemma_same_number, lemma_same_text,
    push_bytes, push_le, push_text, tagged_hex, text_field,
};
use vstd::prelude::*;
use vstd::utf8::encode_utf8;

verus! {

/// Content identity of an exact calibration provenance record.
#[derive(Clone, Copy, Debug, PartialEq, Eq, Hash)]
pub struct CalibrationId {
    bytes: [u8; 32],
}

impl View for CalibrationId {
    type V = Seq<u8>;

    closed spec fn view(&self) -> Seq<u8> {
        self.bytes@
    }
}

impl CalibrationId {
    /// Wraps raw digest bytes.
    pub fn from_bytes(bytes: [u8; 32]) -> (id: Self)
        ensures
            id@ == bytes@,
    {
        CalibrationId { bytes }
    }

    /// Return the raw digest.
    pub fn as_bytes(&self) -> (bytes: &[u8; 32])
        ensures
            bytes@ == self@,
    {
        &self.bytes
    }

    /// An identity is its 32 bytes: two with the same bytes are the same value.
    pub proof fn bytes_determine(left: Self, right: Self)
        ensures
            left@.len() == 32,
            left@ == right@ <==> left == right,
    {
        broadcast use vstd::array::group_array_axioms;

        if left@ == right@ {
            assert(left.bytes =~= right.bytes);
        }
    }

    /// Whether both identities hold the same bytes.
    pub fn same(&self, other: &Self) -> (equal: bool)
        ensures
            equal == (self@ == other@),
            equal == (*self == *other),
    {
        proof {
            Self::bytes_determine(*self, *other);
        }
        bytes_equal(self.bytes.as_slice(), other.bytes.as_slice())
    }

    /// The tagged hexadecimal form.
    pub fn to_text(&self) -> (text: String)
        ensures
            text@ == "trc1_"@ + hex(self@),
    {
        proof {
            reveal_strlit("trc1_");
        }
        tagged_hex("trc1_", self.bytes.as_slice())
    }
}

/// Content identity of an exact evaluation provenance record.
#[derive(Clone, Copy, Debug, PartialEq, Eq, Hash)]
pub struct EvaluationId {
    bytes: [u8; 32],
}

impl View for EvaluationId {
    type V = Seq<u8>;

    closed spec fn view(&self) -> Seq<u8> {
        self.bytes@
    }
}

impl EvaluationId {
    /// Wraps raw digest bytes.
    pub fn from_bytes(bytes: [u8; 32]) -> (id: Self)
        ensures
            id@ == bytes@,
    {
        EvaluationId { bytes }
    }

    /// Return the raw digest.
    pub fn as_bytes(&self) -> (bytes: &[u8; 32])
        ensures
            bytes@ == self@,
    {
        &self.bytes
    }

    /// An identity is its 32 bytes: two with the same bytes are the same value.
    pub proof fn bytes_determine(left: Self, right: Self)
        ensures
            left@.len() == 32,
            left@ == right@ <==> left == right,
    {
        broadcast use vstd::array::group_array_axioms;

        if left@ == right@ {
            assert(left.bytes =~= right.bytes);
        }
    }

    /// Whether both identities hold the same bytes.
    pub fn same(&self, other: &Self) -> (equal: bool)
        ensures
            equal == (self@ == other@),
            equal == (*self == *other),
    {
        proof {
            Self::bytes_determine(*self, *other);
        }
        bytes_equal(self.bytes.as_slice(), other.bytes.as_slice())
    }

    /// The tagged hexadecimal form.
    pub fn to_text(&self) -> (text: String)
        ensures
            text@ == "tre1_"@ + hex(self@),
    {
        proof {
            reveal_strlit("tre1_");
        }
        tagged_hex("tre1_", self.bytes.as_slice())
    }
}

/// Content identity of an exact conversion recipe record.
#[derive(Clone, Copy, Debug, PartialEq, Eq, Hash)]
pub struct RecipeId {
    bytes: [u8; 32],
}

impl View for RecipeId {
    type V = Seq<u8>;

    closed spec fn view(&self) -> Seq<u8> {
        self.bytes@
    }
}

impl RecipeId {
    /// Wraps raw digest bytes.
    pub fn from_bytes(bytes: [u8; 32]) -> (id: Self)
        ensures
            id@ == bytes@,
    {
        RecipeId { bytes }
    }

    /// Return the raw digest.
    pub fn as_bytes(&self) -> (bytes: &[u8; 32])
        ensures
            bytes@ == self@,
    {
        &self.bytes
    }

    /// An identity is its 32 bytes: two with the same bytes are the same value.
    pub proof fn bytes_determine(left: Self, right: Self)
        ensures
            left@.len() == 32,
            left@ == right@ <==> left == right,
    {
        broadcast use vstd::array::group_array_axioms;

        if left@ == right@ {
            assert(left.bytes =~= right.bytes);
        }
    }

    /// Whether both identities hold the same bytes.
    pub fn same(&self, other: &Self) -> (equal: bool)
        ensures
            equal == (self@ == other@),
            equal == (*self == *other),
    {
        proof {
            Self::bytes_determine(*self, *other);
        }
        bytes_equal(self.bytes.as_slice(), other.bytes.as_slice())
    }

    /// The tagged hexadecimal form.
    pub fn to_text(&self) -> (text: String)
        ensures
            text@ == "trr1_"@ + hex(self@),
    {
        proof {
            reveal_strlit("trr1_");
        }
        tagged_hex("trr1_", self.bytes.as_slice())
    }
}

/// Content identity of an exact canonical campaign ledger.
#[derive(Clone, Copy, Debug, PartialEq, Eq, Hash)]
pub struct CampaignId {
    bytes: [u8; 32],
}

impl View for CampaignId {
    type V = Seq<u8>;

    closed spec fn view(&self) -> Seq<u8> {
        self.bytes@
    }
}

impl CampaignId {
    /// Wraps raw digest bytes.
    pub fn from_bytes(bytes: [u8; 32]) -> (id: Self)
        ensures
            id@ == bytes@,
    {
        CampaignId { bytes }
    }

    /// Return the raw digest.
    pub fn as_bytes(&self) -> (bytes: &[u8; 32])
        ensures
            bytes@ == self@,
    {
        &self.bytes
    }

    /// An identity is its 32 bytes: two with the same bytes are the same value.
    pub proof fn bytes_determine(left: Self, right: Self)
        ensures
            left@.len() == 32,
            left@ == right@ <==> left == right,
    {
        broadcast use vstd::array::group_array_axioms;

        if left@ == right@ {
            assert(left.bytes =~= right.bytes);
        }
    }

    /// Whether both identities hold the same bytes.
    pub fn same(&self, other: &Self) -> (equal: bool)
        ensures
            equal == (self@ == other@),
            equal == (*self == *other),
    {
        proof {
            Self::bytes_determine(*self, *other);
        }
        bytes_equal(self.bytes.as_slice(), other.bytes.as_slice())
    }

    /// The tagged hexadecimal form.
    pub fn to_text(&self) -> (text: String)
        ensures
            text@ == "trl1_"@ + hex(self@),
    {
        proof {
            reveal_strlit("trl1_");
        }
        tagged_hex("trl1_", self.bytes.as_slice())
    }
}

/// Content identity of exact serialized package bytes.
#[derive(Clone, Copy, Debug, PartialEq, Eq, Hash)]
pub struct PackageId {
    bytes: [u8; 32],
}

impl View for PackageId {
    type V = Seq<u8>;

    closed spec fn view(&self) -> Seq<u8> {
        self.bytes@
    }
}

impl PackageId {
    /// Wraps raw digest bytes.
    pub fn from_bytes(bytes: [u8; 32]) -> (id: Self)
        ensures
            id@ == bytes@,
    {
        PackageId { bytes }
    }

    /// Return the raw digest.
    pub fn as_bytes(&self) -> (bytes: &[u8; 32])
        ensures
            bytes@ == self@,
    {
        &self.bytes
    }

    /// An identity is its 32 bytes: two with the same bytes are the same value.
    pub proof fn bytes_determine(left: Self, right: Self)
        ensures
            left@.len() == 32,
            left@ == right@ <==> left == right,
    {
        broadcast use vstd::array::group_array_axioms;

        if left@ == right@ {
            assert(left.bytes =~= right.bytes);
        }
    }

    /// Whether both identities hold the same bytes.
    pub fn same(&self, other: &Self) -> (equal: bool)
        ensures
            equal == (self@ == other@),
            equal == (*self == *other),
    {
        proof {
            Self::bytes_determine(*self, *other);
        }
        bytes_equal(self.bytes.as_slice(), other.bytes.as_slice())
    }
}

/// Semantic identity of a model.
#[derive(Clone, Copy, Debug, PartialEq, Eq, Hash)]
pub struct ModelId {
    bytes: [u8; 32],
}

impl View for ModelId {
    type V = Seq<u8>;

    closed spec fn view(&self) -> Seq<u8> {
        self.bytes@
    }
}

impl ModelId {
    /// Wraps raw digest bytes.
    pub fn from_bytes(bytes: [u8; 32]) -> (id: Self)
        ensures
            id@ == bytes@,
    {
        ModelId { bytes }
    }

    /// Return the raw digest.
    pub fn as_bytes(&self) -> (bytes: &[u8; 32])
        ensures
            bytes@ == self@,
    {
        &self.bytes
    }

    /// An identity is its 32 bytes: two with the same bytes are the same value.
    pub proof fn bytes_determine(left: Self, right: Self)
        ensures
            left@.len() == 32,
            left@ == right@ <==> left == right,
    {
        broadcast use vstd::array::group_array_axioms;

        if left@ == right@ {
            assert(left.bytes =~= right.bytes);
        }
    }

    /// Whether both identities hold the same bytes.
    pub fn same(&self, other: &Self) -> (equal: bool)
        ensures
            equal == (self@ == other@),
            equal == (*self == *other),
    {
        proof {
            Self::bytes_determine(*self, *other);
        }
        bytes_equal(self.bytes.as_slice(), other.bytes.as_slice())
    }
}

/// The reason to refuse a text field, if there is one.
pub open spec fn text_error(field: &'static str, text: Seq<char>) -> Option<CampaignError> {
    if text.len() == 0 {
        Some(CampaignError::EmptyField(field))
    } else if encode_utf8(text).len() > u32::MAX {
        Some(CampaignError::FieldTooLong(field))
    } else {
        None
    }
}

/// The reason to refuse a count, if there is one.
pub open spec fn zero_error(field: &'static str, value: u64) -> Option<CampaignError> {
    if value == 0 {
        Some(CampaignError::ZeroValue(field))
    } else {
        None
    }
}

/// The first of two reasons.
pub open spec fn first_of(first: Option<CampaignError>, second: Option<CampaignError>) -> Option<
    CampaignError,
> {
    if first is Some {
        first
    } else {
        second
    }
}

/// Checks that a text is neither empty nor longer than a canonical length field can say.
pub fn validate_string(field: &'static str, value: &str) -> (result: Result<(), CampaignError>)
    ensures
        match text_error(field, value@) {
            Some(error) => result == Err::<(), CampaignError>(error),
            None => result is Ok,
        },
{
    if value.is_empty() {
        return Err(CampaignError::EmptyField(field));
    }
    if value.as_bytes().len() as u64 > u32::MAX as u64 {
        return Err(CampaignError::FieldTooLong(field));
    }
    Ok(())
}

/// Checks that a count is not zero.
pub fn validate_nonzero(field: &'static str, value: u64) -> (result: Result<(), CampaignError>)
    ensures
        match zero_error(field, value) {
            Some(error) => result == Err::<(), CampaignError>(error),
            None => result is Ok,
        },
{
    if value == 0 {
        Err(CampaignError::ZeroValue(field))
    } else {
        Ok(())
    }
}

/// What a calibration record says.
pub struct CalibrationView {
    /// Dataset or corpus identifier.
    pub dataset: Seq<char>,
    /// Immutable dataset revision.
    pub revision: Seq<char>,
    /// Digest of ordered calibration samples.
    pub sample_digest: Seq<u8>,
    /// Digest of the tokenizer.
    pub tokenizer_digest: Seq<u8>,
    /// Number of sequences.
    pub sample_count: u64,
    /// Number of non-padding tokens.
    pub token_count: u64,
    /// Padded sequence length.
    pub sequence_length: u32,
    /// Selection seed.
    pub seed: u64,
}

impl CalibrationView {
    /// The reason to refuse the record, if there is one.
    pub open spec fn error(self) -> Option<CampaignError> {
        first_of(
            text_error("dataset", self.dataset),
            first_of(
                text_error("revision", self.revision),
                first_of(
                    zero_error("sample_count", self.sample_count),
                    first_of(
                        zero_error("token_count", self.token_count),
                        zero_error("sequence_length", self.sequence_length as u64),
                    ),
                ),
            ),
        )
    }

    /// Whether the record is accepted.
    pub open spec fn valid(self) -> bool {
        &&& self.error() is None
        &&& self.sample_digest.len() == 32
        &&& self.tokenizer_digest.len() == 32
    }

    /// The versioned canonical bytes.
    pub open spec fn canonical(self) -> Seq<u8> {
        seq![0x54u8, 0x43u8, 0x41u8, 0x4cu8, 1u8] + (text_field(self.dataset) + (text_field(
            self.revision,
        ) + (self.sample_digest + (self.tokenizer_digest + (le(self.sample_count as nat, 8) + (le(
            self.token_count as nat,
            8,
        ) + (le(self.sequence_length as nat, 4) + le(self.seed as nat, 8))))))))
    }

    /// The content identity.
    pub open spec fn id(self) -> Seq<u8> {
        blake3_derived("tritium calibration provenance id v1"@, self.canonical())
    }

    /// The canonical bytes bind every field: different records have different bytes.
    pub proof fn canonical_binds_every_field(self, other: Self)
        requires
            self.valid(),
            other.valid(),
            self.canonical() == other.canonical(),
        ensures
            self == other,
    {
        lemma_le_limits();
        let tag = seq![0x54u8, 0x43u8, 0x41u8, 0x4cu8, 1u8];
        let a8 = le(self.seed as nat, 8);
        let b8 = le(other.seed as nat, 8);
        let a7 = le(self.sequence_length as nat, 4) + a8;
        let b7 = le(other.sequence_length as nat, 4) + b8;
        let a6 = le(self.token_count as nat, 8) + a7;
        let b6 = le(other.token_count as nat, 8) + b7;
        let a5 = le(self.sample_count as nat, 8) + a6;
        let b5 = le(other.sample_count as nat, 8) + b6;
        let a4 = self.tokenizer_digest + a5;
        let b4 = other.tokenizer_digest + b5;
        let a3 = self.sample_digest + a4;
        let b3 = other.sample_digest + b4;
        let a2 = text_field(self.revision) + a3;
        let b2 = text_field(other.revision) + b3;
        let a1 = text_field(self.dataset) + a2;
        let b1 = text_field(other.dataset) + b2;
        lemma_same_front(tag, tag, a1, b1);
        lemma_same_text(self.dataset, other.dataset, a2, b2);
        lemma_same_text(self.revision, other.revision, a3, b3);
        lemma_same_front(self.sample_digest, other.sample_digest, a4, b4);
        lemma_same_front(self.tokenizer_digest, other.tokenizer_digest, a5, b5);
        lemma_same_number(self.sample_count as nat, other.sample_count as nat, 8, a6, b6);
        lemma_same_number(self.token_count as nat, other.token_count as nat, 8, a7, b7);
        lemma_same_number(self.sequence_length as nat, other.sequence_length as nat, 4, a8, b8);
        assert(a8 + Seq::<u8>::empty() =~= b8 + Seq::<u8>::empty());
        lemma_same_number(self.seed as nat, other.seed as nat, 8, Seq::empty(), Seq::empty());
    }
}

/// Exact calibration-corpus and tokenizer selection used by a conversion run.
#[derive(Clone, Debug, PartialEq, Eq)]
pub struct CalibrationProvenance {
    dataset: String,
    revision: String,
    sample_digest: [u8; 32],
    tokenizer_digest: [u8; 32],
    sample_count: u64,
    token_count: u64,
    sequence_length: u32,
    seed: u64,
}

impl View for CalibrationProvenance {
    type V = CalibrationView;

    closed spec fn view(&self) -> CalibrationView {
        CalibrationView {
            dataset: self.dataset@,
            revision: self.revision@,
            sample_digest: self.sample_digest@,
            tokenizer_digest: self.tokenizer_digest@,
            sample_count: self.sample_count,
            token_count: self.token_count,
            sequence_length: self.sequence_length,
            seed: self.seed,
        }
    }
}

impl CalibrationProvenance {
    /// Build a validated calibration provenance record.
    ///
    /// `sample_digest` must cover ordered tokenized samples, including boundaries
    /// and padding. This makes order, filtering, and preprocessing part of identity.
    pub fn new(
        dataset: &str,
        revision: &str,
        sample_digest: [u8; 32],
        tokenizer_digest: [u8; 32],
        sample_count: u64,
        token_count: u64,
        sequence_length: u32,
        seed: u64,
    ) -> (record: Result<Self, CampaignError>)
        ensures
            ({
                let view = CalibrationView {
                    dataset: dataset@,
                    revision: revision@,
                    sample_digest: sample_digest@,
                    tokenizer_digest: tokenizer_digest@,
                    sample_count,
                    token_count,
                    sequence_length,
                    seed,
                };
                match view.error() {
                    Some(error) => record == Err::<Self, CampaignError>(error),
                    None => record matches Ok(made) && made@ == view && made@.valid(),
                }
            }),
    {
        validate_string("dataset", dataset)?;
        validate_string("revision", revision)?;
        validate_nonzero("sample_count", sample_count)?;
        validate_nonzero("token_count", token_count)?;
        validate_nonzero("sequence_length", sequence_length as u64)?;
        Ok(
            CalibrationProvenance {
                dataset: dataset.to_owned(),
                revision: revision.to_owned(),
                sample_digest,
                tokenizer_digest,
                sample_count,
                token_count,
                sequence_length,
                seed,
            },
        )
    }

    /// Dataset or corpus identifier without a local filesystem path.
    pub fn dataset(&self) -> (dataset: &str)
        ensures
            dataset@ == self@.dataset,
    {
        self.dataset.as_str()
    }

    /// Immutable dataset revision, commit, or snapshot identifier.
    pub fn revision(&self) -> (revision: &str)
        ensures
            revision@ == self@.revision,
    {
        self.revision.as_str()
    }

    /// Digest of ordered, fully preprocessed calibration samples.
    pub fn sample_digest(&self) -> (digest: &[u8; 32])
        ensures
            digest@ == self@.sample_digest,
    {
        &self.sample_digest
    }

    /// Digest of tokenizer configuration and vocabulary bytes.
    pub fn tokenizer_digest(&self) -> (digest: &[u8; 32])
        ensures
            digest@ == self@.tokenizer_digest,
    {
        &self.tokenizer_digest
    }

    /// Number of calibration sequences.
    pub fn sample_count(&self) -> (count: u64)
        ensures
            count == self@.sample_count,
    {
        self.sample_count
    }

    /// Number of non-padding calibration tokens.
    pub fn token_count(&self) -> (count: u64)
        ensures
            count == self@.token_count,
    {
        self.token_count
    }

    /// Padded sequence length used by calibration kernels.
    pub fn sequence_length(&self) -> (length: u32)
        ensures
            length == self@.sequence_length,
    {
        self.sequence_length
    }

    /// Deterministic selection/shuffle seed.
    pub fn seed(&self) -> (seed: u64)
        ensures
            seed == self@.seed,
    {
        self.seed
    }

    /// Versioned canonical bytes, independent of local source paths.
    pub fn canonical_bytes(&self) -> (bytes: Vec<u8>)
        requires
            self@.valid(),
        ensures
            bytes@ == self@.canonical(),
    {
        let mut out: Vec<u8> = Vec::new();
        out.push(0x54);
        out.push(0x43);
        out.push(0x41);
        out.push(0x4c);
        out.push(1);
        push_text(&mut out, self.dataset.as_str());
        push_text(&mut out, self.revision.as_str());
        push_bytes(&mut out, self.sample_digest.as_slice());
        push_bytes(&mut out, self.tokenizer_digest.as_slice());
        push_le(&mut out, self.sample_count, 8);
        push_le(&mut out, self.token_count, 8);
        push_le(&mut out, self.sequence_length as u64, 4);
        push_le(&mut out, self.seed, 8);
        assert(out@ =~= self@.canonical());
        out
    }

    /// Exact content identity of this calibration record.
    pub fn id(&self) -> (id: CalibrationId)
        requires
            self@.valid(),
        ensures
            id@ == self@.id(),
    {
        CalibrationId::from_bytes(
            derive_digest(
                "tritium calibration provenance id v1",
                self.canonical_bytes().as_slice(),
            ),
        )
    }
}

/// What an evaluation record says.
pub struct EvaluationView {
    /// Evaluation suite identifier.
    pub suite: Seq<char>,
    /// Immutable suite revision.
    pub revision: Seq<char>,
    /// Digest of ordered evaluation samples.
    pub sample_digest: Seq<u8>,
    /// Digest of the tokenizer.
    pub tokenizer_digest: Seq<u8>,
    /// Digest of the scoring harness.
    pub harness_digest: Seq<u8>,
    /// Number of scored samples.
    pub sample_count: u64,
    /// Number of scored non-padding tokens.
    pub token_count: u64,
}

impl EvaluationView {
    /// The reason to refuse the record, if there is one.
    pub open spec fn error(self) -> Option<CampaignError> {
        first_of(
            text_error("suite", self.suite),
            first_of(
                text_error("revision", self.revision),
                first_of(
                    zero_error("sample_count", self.sample_count),
                    zero_error("token_count", self.token_count),
                ),
            ),
        )
    }

    /// Whether the record is accepted.
    pub open spec fn valid(self) -> bool {
        &&& self.error() is None
        &&& self.sample_digest.len() == 32
        &&& self.tokenizer_digest.len() == 32
        &&& self.harness_digest.len() == 32
    }

    /// The versioned canonical bytes.
    pub open spec fn canonical(self) -> Seq<u8> {
        seq![0x54u8, 0x45u8, 0x56u8, 0x4cu8, 1u8] + (text_field(self.suite) + (text_field(
            self.revision,
        ) + (self.sample_digest + (self.tokenizer_digest + (self.harness_digest + (le(
            self.sample_count as nat,
            8,
        ) + le(self.token_count as nat, 8)))))))
    }

    /// The content identity.
    pub open spec fn id(self) -> Seq<u8> {
        blake3_derived("tritium evaluation provenance id v1"@, self.canonical())
    }

    /// The canonical bytes bind every field: different records have different bytes.
    pub proof fn canonical_binds_every_field(self, other: Self)
        requires
            self.valid(),
            other.valid(),
            self.canonical() == other.canonical(),
        ensures
            self == other,
    {
        lemma_le_limits();
        let tag = seq![0x54u8, 0x45u8, 0x56u8, 0x4cu8, 1u8];
        let a7 = le(self.token_count as nat, 8);
        let b7 = le(other.token_count as nat, 8);
        let a6 = le(self.sample_count as nat, 8) + a7;
        let b6 = le(other.sample_count as nat, 8) + b7;
        let a5 = self.harness_digest + a6;
        let b5 = other.harness_digest + b6;
        let a4 = self.tokenizer_digest + a5;
        let b4 = other.tokenizer_digest + b5;
        let a3 = self.sample_digest + a4;
        let b3 = other.sample_digest + b4;
        let a2 = text_field(self.revision) + a3;
        let b2 = text_field(other.revision) + b3;
        let a1 = text_field(self.suite) + a2;
        let b1 = text_field(other.suite) + b2;
        lemma_same_front(tag, tag, a1, b1);
        lemma_same_text(self.suite, other.suite, a2, b2);
        lemma_same_text(self.revision, other.revision, a3, b3);
        lemma_same_front(self.sample_digest, other.sample_digest, a4, b4);
        lemma_same_front(self.tokenizer_digest, other.tokenizer_digest, a5, b5);
        lemma_same_front(self.harness_digest, other.harness_digest, a6, b6);
        lemma_same_number(self.sample_count as nat, other.sample_count as nat, 8, a7, b7);
        assert(a7 + Seq::<u8>::empty() =~= b7 + Seq::<u8>::empty());
        lemma_same_number(
            self.token_count as nat,
            other.token_count as nat,
            8,
            Seq::empty(),
            Seq::empty(),
        );
    }
}

/// Exact evaluation corpus and harness used to score campaign points.
#[derive(Clone, Debug, PartialEq, Eq)]
pub struct EvaluationProvenance {
    suite: String,
    revision: String,
    sample_digest: [u8; 32],
    tokenizer_digest: [u8; 32],
    harness_digest: [u8; 32],
    sample_count: u64,
    token_count: u64,
}

impl View for EvaluationProvenance {
    type V = EvaluationView;

    closed spec fn view(&self) -> EvaluationView {
        EvaluationView {
            suite: self.suite@,
            revision: self.revision@,
            sample_digest: self.sample_digest@,
            tokenizer_digest: self.tokenizer_digest@,
            harness_digest: self.harness_digest@,
            sample_count: self.sample_count,
            token_count: self.token_count,
        }
    }
}

impl EvaluationProvenance {
    /// Build a validated evaluation provenance record.
    ///
    /// `sample_digest` covers ordered, rendered model inputs and targets;
    /// `harness_digest` covers scoring code, metric configuration, and captured
    /// runtime environment (GPU, driver, clocks, and contention) when system
    /// metrics are recorded.
    pub fn new(
        suite: &str,
        revision: &str,
        sample_digest: [u8; 32],
        tokenizer_digest: [u8; 32],
        harness_digest: [u8; 32],
        sample_count: u64,
        token_count: u64,
    ) -> (record: Result<Self, CampaignError>)
        ensures
            ({
                let view = EvaluationView {
                    suite: suite@,
                    revision: revision@,
                    sample_digest: sample_digest@,
                    tokenizer_digest: tokenizer_digest@,
                    harness_digest: harness_digest@,
                    sample_count,
                    token_count,
                };
                match view.error() {
                    Some(error) => record == Err::<Self, CampaignError>(error),
                    None => record matches Ok(made) && made@ == view && made@.valid(),
                }
            }),
    {
        validate_string("suite", suite)?;
        validate_string("revision", revision)?;
        validate_nonzero("sample_count", sample_count)?;
        validate_nonzero("token_count", token_count)?;
        Ok(
            EvaluationProvenance {
                suite: suite.to_owned(),
                revision: revision.to_owned(),
                sample_digest,
                tokenizer_digest,
                harness_digest,
                sample_count,
                token_count,
            },
        )
    }

    /// Evaluation suite or dataset identifier.
    pub fn suite(&self) -> (suite: &str)
        ensures
            suite@ == self@.suite,
    {
        self.suite.as_str()
    }

    /// Immutable suite revision, commit, or snapshot identifier.
    pub fn revision(&self) -> (revision: &str)
        ensures
            revision@ == self@.revision,
    {
        self.revision.as_str()
    }

    /// Digest of ordered, fully rendered evaluation samples.
    pub fn sample_digest(&self) -> (digest: &[u8; 32])
        ensures
            digest@ == self@.sample_digest,
    {
        &self.sample_digest
    }

    /// Digest of tokenizer configuration and vocabulary bytes.
    pub fn tokenizer_digest(&self) -> (digest: &[u8; 32])
        ensures
            digest@ == self@.tokenizer_digest,
    {
        &self.tokenizer_digest
    }

    /// Digest of evaluation code, metric configuration, and runtime environment.
    pub fn harness_digest(&self) -> (digest: &[u8; 32])
        ensures
            digest@ == self@.harness_digest,
    {
        &self.harness_digest
    }

    /// Number of scored samples.
    pub fn sample_count(&self) -> (count: u64)
        ensures
            count == self@.sample_count,
    {
        self.sample_count
    }

    /// Number of scored non-padding tokens.
    pub fn token_count(&self) -> (count: u64)
        ensures
            count == self@.token_count,
    {
        self.token_count
    }

    /// Versioned canonical bytes, independent of local source paths.
    pub fn canonical_bytes(&self) -> (bytes: Vec<u8>)
        requires
            self@.valid(),
        ensures
            bytes@ == self@.canonical(),
    {
        let mut out: Vec<u8> = Vec::new();
        out.push(0x54);
        out.push(0x45);
        out.push(0x56);
        out.push(0x4c);
        out.push(1);
        push_text(&mut out, self.suite.as_str());
        push_text(&mut out, self.revision.as_str());
        push_bytes(&mut out, self.sample_digest.as_slice());
        push_bytes(&mut out, self.tokenizer_digest.as_slice());
        push_bytes(&mut out, self.harness_digest.as_slice());
        push_le(&mut out, self.sample_count, 8);
        push_le(&mut out, self.token_count, 8);
        assert(out@ =~= self@.canonical());
        out
    }

    /// Exact content identity of this evaluation record.
    pub fn id(&self) -> (id: EvaluationId)
        requires
            self@.valid(),
        ensures
            id@ == self@.id(),
    {
        EvaluationId::from_bytes(
            derive_digest(
                "tritium evaluation provenance id v1",
                self.canonical_bytes().as_slice(),
            ),
        )
    }
}

/// What a recipe record says.
pub struct RecipeView {
    /// Conversion implementation.
    pub implementation: Seq<char>,
    /// Immutable implementation revision.
    pub revision: Seq<char>,
    /// Exact portable configuration.
    pub canonical_config: Seq<u8>,
    /// Replay command.
    pub command: Seq<char>,
}

impl RecipeView {
    /// The reason to refuse the record, if there is one.
    pub open spec fn error(self) -> Option<CampaignError> {
        first_of(
            text_error("implementation", self.implementation),
            first_of(
                text_error("revision", self.revision),
                first_of(
                    text_error("command", self.command),
                    if self.canonical_config.len() > u32::MAX {
                        Some(CampaignError::FieldTooLong("canonical_config"))
                    } else if self.canonical_config.len() == 0 {
                        Some(CampaignError::EmptyField("canonical_config"))
                    } else {
                        None
                    },
                ),
            ),
        )
    }

    /// Whether the record is accepted.
    pub open spec fn valid(self) -> bool {
        self.error() is None
    }

    /// The versioned canonical bytes.
    pub open spec fn canonical(self) -> Seq<u8> {
        seq![0x54u8, 0x52u8, 0x43u8, 0x50u8, 1u8] + (text_field(self.implementation) + (text_field(
            self.revision,
        ) + (le(self.canonical_config.len(), 4) + (self.canonical_config + text_field(
            self.command,
        )))))
    }

    /// The content identity.
    pub open spec fn id(self) -> Seq<u8> {
        blake3_derived("tritium conversion recipe id v1"@, self.canonical())
    }

    /// The canonical bytes bind every field: different records have different bytes.
    pub proof fn canonical_binds_every_field(self, other: Self)
        requires
            self.valid(),
            other.valid(),
            self.canonical() == other.canonical(),
        ensures
            self == other,
    {
        lemma_le_limits();
        let tag = seq![0x54u8, 0x52u8, 0x43u8, 0x50u8, 1u8];
        let a5 = text_field(self.command);
        let b5 = text_field(other.command);
        let a4 = self.canonical_config + a5;
        let b4 = other.canonical_config + b5;
        let a3 = le(self.canonical_config.len(), 4) + a4;
        let b3 = le(other.canonical_config.len(), 4) + b4;
        let a2 = text_field(self.revision) + a3;
        let b2 = text_field(other.revision) + b3;
        let a1 = text_field(self.implementation) + a2;
        let b1 = text_field(other.implementation) + b2;
        lemma_same_front(tag, tag, a1, b1);
        lemma_same_text(self.implementation, other.implementation, a2, b2);
        lemma_same_text(self.revision, other.revision, a3, b3);
        lemma_same_number(
            self.canonical_config.len(),
            other.canonical_config.len(),
            4,
            a4,
            b4,
        );
        lemma_same_front(self.canonical_config, other.canonical_config, a5, b5);
        assert(a5 + Seq::<u8>::empty() =~= b5 + Seq::<u8>::empty());
        lemma_same_text(self.command, other.command, Seq::empty(), Seq::empty());
    }
}

/// Conversion implementation, immutable revision, configuration, and replay command.
#[derive(Clone, Debug, PartialEq, Eq)]
pub struct RecipeProvenance {
    implementation: String,
    revision: String,
    canonical_config: Vec<u8>,
    command: String,
}

impl View for RecipeProvenance {
    type V = RecipeView;

    closed spec fn view(&self) -> RecipeView {
        RecipeView {
            implementation: self.implementation@,
            revision: self.revision@,
            canonical_config: self.canonical_config@,
            command: self.command@,
        }
    }
}

impl RecipeProvenance {
    /// Build a self-contained conversion recipe record.
    ///
    /// `canonical_config` must be the exact portable configuration consumed by
    /// `command`. `revision` should identify a clean source checkout.
    pub fn new(
        implementation: &str,
        revision: &str,
        canonical_config: Vec<u8>,
        command: &str,
    ) -> (record: Result<Self, CampaignError>)
        ensures
            ({
                let view = RecipeView {
                    implementation: implementation@,
                    revision: revision@,
                    canonical_config: canonical_config@,
                    command: command@,
                };
                match view.error() {
                    Some(error) => record == Err::<Self, CampaignError>(error),
                    None => record matches Ok(made) && made@ == view,
                }
            }),
    {
        validate_string("implementation", implementation)?;
        validate_string("revision", revision)?;
        validate_string("command", command)?;
        if canonical_config.len() as u64 > u32::MAX as u64 {
            return Err(CampaignError::FieldTooLong("canonical_config"));
        }
        if canonical_config.len() == 0 {
            return Err(CampaignError::EmptyField("canonical_config"));
        }
        Ok(
            RecipeProvenance {
                implementation: implementation.to_owned(),
                revision: revision.to_owned(),
                canonical_config,
                command: command.to_owned(),
            },
        )
    }

    /// Conversion implementation or binary name.
    pub fn implementation(&self) -> (implementation: &str)
        ensures
            implementation@ == self@.implementation,
    {
        self.implementation.as_str()
    }

    /// Immutable implementation revision.
    pub fn revision(&self) -> (revision: &str)
        ensures
            revision@ == self@.revision,
    {
        self.revision.as_str()
    }

    /// Exact portable conversion configuration.
    pub fn canonical_config(&self) -> (config: &[u8])
        ensures
            config@ == self@.canonical_config,
    {
        self.canonical_config.as_slice()
    }

    /// Command that consumes the embedded configuration.
    pub fn command(&self) -> (command: &str)
        ensures
            command@ == self@.command,
    {
        self.command.as_str()
    }

    /// Versioned canonical recipe bytes.
    pub fn canonical_bytes(&self) -> (bytes: Vec<u8>)
        requires
            self@.valid(),
        ensures
            bytes@ == self@.canonical(),
    {
        let mut out: Vec<u8> = Vec::new();
        out.push(0x54);
        out.push(0x52);
        out.push(0x43);
        out.push(0x50);
        out.push(1);
        push_text(&mut out, self.implementation.as_str());
        push_text(&mut out, self.revision.as_str());
        push_le(&mut out, self.canonical_config.len() as u64, 4);
        push_bytes(&mut out, self.canonical_config.as_slice());
        push_text(&mut out, self.command.as_str());
        assert(out@ =~= self@.canonical());
        out
    }

    /// Exact content identity of this recipe record.
    pub fn id(&self) -> (id: RecipeId)
        requires
            self@.valid(),
        ensures
            id@ == self@.id(),
    {
        RecipeId::from_bytes(
            derive_digest("tritium conversion recipe id v1", self.canonical_bytes().as_slice()),
        )
    }
}

} // verus!
