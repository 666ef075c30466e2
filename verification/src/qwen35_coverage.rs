//! Pinned Qwen3.6-27B source-metadata coverage and conversion policy.
//!
//! The coverage manifest is deliberately model- and revision-specific. It
//! admits exactly the official SafeTensors metadata set selected by the active
//! campaign, classifies every tensor, and excludes the packaged vision tower
//! from the current language-plus-MTP conversion scope.
//!
//! This seam binds canonical source metadata only. Before conversion, its
//! caller must pair the manifest with the campaign's separately verified
//! source model identity, which binds tensor content.

use crate::coverage_schedule::{
    classify_tensor, scheduled, ClassificationFailure, ExpectedTensor, Qwen35LanguageLayerKind,
    Qwen35TensorRole, Qwen35TensorScope,
};
use crate::hashing::{blake3_digest, hash_parts};
use crate::text::{
    decimal, push_decimal, same_text, text_before, text_less, text_order_is_total,
    text_order_is_transitive,
};
use crate::wire::{bytes_equal, push_bytes};
use vstd::prelude::*;
use vstd::utf8::encode_utf8;

verus! {

/// Immutable Qwen3.6-27B revision selected by the active campaign.
pub const QWEN36_27B_COVERAGE_REVISION: &'static str =
    "6a9e13bd6fc8f0983b9b99948120bc37f49c13e9";

/// Tensors of the pinned checkpoint.
pub const EXPECTED_TENSORS: usize = 1_199;

/// Longest admitted tensor name.
pub const MAX_NAME_BYTES: usize = 128;

/// Longest admitted dtype name.
pub const MAX_DTYPE_BYTES: usize = 16;

/// Highest admitted rank.
pub const MAX_RANK: usize = 5;

/// Length of the pinned metadata record stream.
pub const EXPECTED_METADATA_RECORD_BYTES: u64 = 75_705;

/// BLAKE3 digest of the pinned metadata record stream.
pub const EXPECTED_METADATA_DIGEST: [u8; 32] = [
    0xad, 0xd3, 0x32, 0xd2, 0x3a, 0x10, 0x12, 0xaa, 0x1d, 0x77, 0x33, 0x9e, 0x04, 0x61, 0x30, 0x42,
    0xaa, 0x56, 0xfb, 0x7c, 0xab, 0x49, 0x08, 0xf7, 0x72, 0x6a, 0xc7, 0x8b, 0x78, 0xef, 0x2d, 0x8e,
];

/// Borrowed source tensor metadata accepted by the coverage seam.
#[derive(Clone, Copy, Debug, PartialEq, Eq)]
pub struct Qwen35TensorMetadata<'a> {
    name: &'a str,
    dtype: &'a str,
    shape: &'a [u64],
}

/// What tensor metadata hold.
pub struct TensorView {
    /// Source tensor name.
    pub name: Seq<char>,
    /// Source precision.
    pub dtype: Seq<char>,
    /// Logical dimensions.
    pub shape: Seq<u64>,
}

impl<'a> View for Qwen35TensorMetadata<'a> {
    type V = TensorView;

    closed spec fn view(&self) -> TensorView {
        TensorView { name: self.name@, dtype: self.dtype@, shape: self.shape@ }
    }
}

impl<'a> Qwen35TensorMetadata<'a> {
    /// Construct borrowed metadata for one SafeTensors entry.
    pub fn new(name: &'a str, dtype: &'a str, shape: &'a [u64]) -> (metadata: Self)
        ensures
            metadata@ == (TensorView { name: name@, dtype: dtype@, shape: shape@ }),
    {
        Qwen35TensorMetadata { name, dtype, shape }
    }
}

/// Frozen conversion action for a covered source tensor.
#[derive(Clone, Copy, Debug, PartialEq, Eq, Hash, Structural)]
pub enum Qwen35CoverageDisposition {
    /// Apply sensitivity-aware additive ternary quantization.
    AdditiveTernary,
    /// Retain the exact BF16 source tensor in the language-plus-MTP artifact.
    PreserveSource,
    /// Metadata-cover but exclude the vision tensor from the current product scope.
    ExcludedFutureVision,
}

/// Source precision admitted by the pinned coverage contract.
#[derive(Clone, Copy, Debug, PartialEq, Eq, Hash, Structural)]
pub enum Qwen35SourceDtype {
    /// Brain floating point with eight exponent bits and seven mantissa bits.
    Bfloat16,
}

/// One deterministic, validated coverage-manifest entry.
#[derive(Clone, Debug, PartialEq, Eq)]
pub struct Qwen35CoverageEntry {
    name: String,
    dtype: Qwen35SourceDtype,
    shape: Vec<u64>,
    coefficients: u64,
    scope: Qwen35TensorScope,
    role: Qwen35TensorRole,
    disposition: Qwen35CoverageDisposition,
}

/// What an entry holds.
pub struct EntryView {
    /// Source tensor name.
    pub name: Seq<char>,
    /// Source precision.
    pub dtype: Qwen35SourceDtype,
    /// Logical dimensions.
    pub shape: Seq<u64>,
    /// Product of the dimensions.
    pub coefficients: u64,
    /// Owning component.
    pub scope: Qwen35TensorScope,
    /// Semantic role.
    pub role: Qwen35TensorRole,
    /// Conversion action.
    pub disposition: Qwen35CoverageDisposition,
}

impl View for Qwen35CoverageEntry {
    type V = EntryView;

    closed spec fn view(&self) -> EntryView {
        EntryView {
            name: self.name@,
            dtype: self.dtype,
            shape: self.shape@,
            coefficients: self.coefficients,
            scope: self.scope,
            role: self.role,
            disposition: self.disposition,
        }
    }
}

impl Qwen35CoverageEntry {
    /// Canonical source tensor name.
    pub fn name(&self) -> (name: &str)
        ensures
            name@ == self@.name,
    {
        self.name.as_str()
    }

    /// Validated source precision.
    pub fn dtype(&self) -> (dtype: Qwen35SourceDtype)
        ensures
            dtype == self@.dtype,
    {
        self.dtype
    }

    /// Logical tensor dimensions in SafeTensors order.
    pub fn shape(&self) -> (shape: &[u64])
        ensures
            shape@ == self@.shape,
    {
        self.shape.as_slice()
    }

    /// Checked product of all logical dimensions.
    pub fn coefficients(&self) -> (coefficients: u64)
        ensures
            coefficients == self@.coefficients,
    {
        self.coefficients
    }

    /// Model component owning this tensor.
    pub fn scope(&self) -> (scope: Qwen35TensorScope)
        ensures
            scope == self@.scope,
    {
        self.scope
    }

    /// Exact semantic role assigned by the pinned adapter.
    pub fn role(&self) -> (role: Qwen35TensorRole)
        ensures
            role == self@.role,
    {
        self.role
    }

    /// Frozen conversion action for this tensor.
    pub fn disposition(&self) -> (disposition: Qwen35CoverageDisposition)
        ensures
            disposition == self@.disposition,
    {
        self.disposition
    }
}

/// Why pinned Qwen3.6-27B metadata was rejected.
#[derive(Clone, Debug, PartialEq, Eq)]
#[non_exhaustive]
pub enum Qwen35CoverageError {
    /// Revision did not equal the immutable campaign revision.
    WrongRevision,
    /// Input exceeded the bounded official tensor count.
    TooManyTensors {
        /// Maximum admitted tensor count.
        maximum: usize,
    },
    /// A tensor name was empty.
    EmptyTensorName,
    /// A caller-controlled metadata field exceeded its bound.
    MetadataFieldTooLong {
        /// Field rejected by the bound.
        field: &'static str,
        /// Maximum admitted bytes.
        maximum: usize,
    },
    /// Source tensor dtype was not exactly BF16.
    UnsupportedDtype(String),
    /// Tensor name is outside the pinned checkpoint contract.
    UnknownTensor(String),
    /// Tensor used an attention family forbidden by its scheduled layer kind.
    WrongLayerKind {
        /// Rejected tensor name.
        tensor: String,
        /// Zero-based language layer index.
        layer: u8,
        /// Layer kind fixed by the checkpoint schedule.
        expected: Qwen35LanguageLayerKind,
    },
    /// Tensor rank differed from the pinned shape.
    WrongRank {
        /// Rejected tensor name.
        tensor: String,
        /// Pinned rank.
        expected: usize,
        /// Supplied rank.
        actual: usize,
    },
    /// A tensor dimension was zero.
    ZeroDimension {
        /// Rejected tensor name.
        tensor: String,
        /// Zero-based dimension index.
        dimension: usize,
    },
    /// Tensor coefficient product overflowed `u64`.
    CoefficientOverflow(String),
    /// Tensor dimensions differed from the pinned shape.
    WrongShape(String),
    /// Caller supplied the same canonical tensor name more than once.
    DuplicateTensor(String),
    /// Fewer than the complete pinned tensor set were supplied.
    MissingTensorMetadata {
        /// Required tensor count.
        expected: usize,
        /// Supplied tensor count.
        actual: usize,
    },
    /// Canonical record digest or byte count differed from the pinned identity.
    MetadataIdentityMismatch {
        /// Required BLAKE3 metadata digest.
        expected_digest: [u8; 32],
        /// Computed BLAKE3 metadata digest.
        actual_digest: [u8; 32],
        /// Required canonical byte count.
        expected_bytes: u64,
        /// Supplied canonical byte count.
        actual_bytes: u64,
    },
    /// Checked coverage totals differed from the frozen policy.
    CoverageSummaryMismatch,
    /// Canonical coverage policy used an unsupported format version.
    UnsupportedCanonicalPolicyVersion(u8),
    /// Canonical coverage policy was truncated or structurally malformed.
    MalformedCanonicalPolicy(&'static str),
    /// Coverage policy decoded but did not use the unique canonical encoding.
    NonCanonicalPolicy,
    /// A checked aggregate exceeded `u64`.
    SummaryOverflow,
    /// A bounded caller-controlled allocation could not be reserved.
    AllocationFailed,
}

/// What a rejection says, with names as text.
pub enum CoverageFault {
    /// Revision did not equal the immutable campaign revision.
    WrongRevision,
    /// Input exceeded the bounded official tensor count.
    TooManyTensors { maximum: int },
    /// A tensor name was empty.
    EmptyTensorName,
    /// A metadata field exceeded its bound.
    MetadataFieldTooLong { field: &'static str, maximum: int },
    /// Source tensor dtype was not exactly BF16.
    UnsupportedDtype(Seq<char>),
    /// Tensor name is outside the pinned checkpoint contract.
    UnknownTensor(Seq<char>),
    /// Tensor used an attention family forbidden by its scheduled layer kind.
    WrongLayerKind { tensor: Seq<char>, layer: u8, expected: Qwen35LanguageLayerKind },
    /// Tensor rank differed from the pinned shape.
    WrongRank { tensor: Seq<char>, expected: int, actual: int },
    /// A tensor dimension was zero.
    ZeroDimension { tensor: Seq<char>, dimension: int },
    /// Tensor coefficient product overflowed `u64`.
    CoefficientOverflow(Seq<char>),
    /// Tensor dimensions differed from the pinned shape.
    WrongShape(Seq<char>),
    /// The same tensor name occurred more than once.
    DuplicateTensor(Seq<char>),
    /// Fewer than the complete pinned tensor set were supplied.
    MissingTensorMetadata { expected: int, actual: int },
    /// Canonical record digest or byte count differed from the pinned identity.
    MetadataIdentityMismatch {
        expected_digest: Seq<u8>,
        actual_digest: Seq<u8>,
        expected_bytes: int,
        actual_bytes: int,
    },
    /// Coverage totals differed from the frozen policy.
    CoverageSummaryMismatch,
    /// Canonical coverage policy used an unsupported format version.
    UnsupportedCanonicalPolicyVersion(u8),
    /// Canonical coverage policy was truncated or structurally malformed.
    MalformedCanonicalPolicy(&'static str),
    /// Coverage policy did not use the unique canonical encoding.
    NonCanonicalPolicy,
    /// An aggregate exceeded `u64`.
    SummaryOverflow,
    /// A bounded allocation could not be reserved.
    AllocationFailed,
}

impl View for Qwen35CoverageError {
    type V = CoverageFault;

    open spec fn view(&self) -> CoverageFault {
        match *self {
            Qwen35CoverageError::WrongRevision => CoverageFault::WrongRevision,
            Qwen35CoverageError::TooManyTensors { maximum } => CoverageFault::TooManyTensors {
                maximum: maximum as int,
            },
            Qwen35CoverageError::EmptyTensorName => CoverageFault::EmptyTensorName,
            Qwen35CoverageError::MetadataFieldTooLong { field, maximum } =>
                CoverageFault::MetadataFieldTooLong { field, maximum: maximum as int },
            Qwen35CoverageError::UnsupportedDtype(name) => CoverageFault::UnsupportedDtype(name@),
            Qwen35CoverageError::UnknownTensor(name) => CoverageFault::UnknownTensor(name@),
            Qwen35CoverageError::WrongLayerKind { tensor, layer, expected } =>
                CoverageFault::WrongLayerKind { tensor: tensor@, layer, expected },
            Qwen35CoverageError::WrongRank { tensor, expected, actual } =>
                CoverageFault::WrongRank {
                    tensor: tensor@,
                    expected: expected as int,
                    actual: actual as int,
                },
            Qwen35CoverageError::ZeroDimension { tensor, dimension } =>
                CoverageFault::ZeroDimension { tensor: tensor@, dimension: dimension as int },
            Qwen35CoverageError::CoefficientOverflow(name) => CoverageFault::CoefficientOverflow(
                name@,
            ),
            Qwen35CoverageError::WrongShape(name) => CoverageFault::WrongShape(name@),
            Qwen35CoverageError::DuplicateTensor(name) => CoverageFault::DuplicateTensor(name@),
            Qwen35CoverageError::MissingTensorMetadata { expected, actual } =>
                CoverageFault::MissingTensorMetadata {
                    expected: expected as int,
                    actual: actual as int,
                },
            Qwen35CoverageError::MetadataIdentityMismatch {
                expected_digest,
                actual_digest,
                expected_bytes,
                actual_bytes,
            } => CoverageFault::MetadataIdentityMismatch {
                expected_digest: expected_digest@,
                actual_digest: actual_digest@,
                expected_bytes: expected_bytes as int,
                actual_bytes: actual_bytes as int,
            },
            Qwen35CoverageError::CoverageSummaryMismatch => CoverageFault::CoverageSummaryMismatch,
            Qwen35CoverageError::UnsupportedCanonicalPolicyVersion(version) =>
                CoverageFault::UnsupportedCanonicalPolicyVersion(version),
            Qwen35CoverageError::MalformedCanonicalPolicy(field) =>
                CoverageFault::MalformedCanonicalPolicy(field),
            Qwen35CoverageError::NonCanonicalPolicy => CoverageFault::NonCanonicalPolicy,
            Qwen35CoverageError::SummaryOverflow => CoverageFault::SummaryOverflow,
            Qwen35CoverageError::AllocationFailed => CoverageFault::AllocationFailed,
        }
    }
}

/// Whether a result is the stated rejection.
pub open spec fn rejects<T>(result: Result<T, Qwen35CoverageError>, fault: CoverageFault) -> bool {
    result matches Err(error) && error@ == fault
}

/// The product of dimensions.
pub open spec fn product(shape: Seq<u64>) -> nat
    decreases shape.len(),
{
    if shape.len() == 0 {
        1
    } else {
        product(shape.drop_last()) * shape.last() as nat
    }
}

/// Where the first zero of a shape stands from a position on, if there is one.
pub open spec fn zero_at(shape: Seq<u64>, from: int) -> Option<int>
    decreases shape.len() - from,
{
    if from < 0 || from >= shape.len() {
        None
    } else if shape[from] == 0 {
        Some(from)
    } else {
        zero_at(shape, from + 1)
    }
}

/// The conversion action that a component and a rank fix.
pub open spec fn action(scope: Qwen35TensorScope, rank: nat) -> Qwen35CoverageDisposition {
    if scope == Qwen35TensorScope::DeferredVision {
        Qwen35CoverageDisposition::ExcludedFutureVision
    } else if rank == 2 {
        Qwen35CoverageDisposition::AdditiveTernary
    } else {
        Qwen35CoverageDisposition::PreserveSource
    }
}

/// The entry of a tensor, or the reason why the tensor is not admitted.
pub open spec fn admitted(tensor: TensorView) -> Result<EntryView, CoverageFault> {
    let name = tensor.name;
    let rank = tensor.shape.len();
    if name.len() == 0 {
        Err(CoverageFault::EmptyTensorName)
    } else if encode_utf8(name).len() > MAX_NAME_BYTES {
        Err(
            CoverageFault::MetadataFieldTooLong {
                field: "tensor name",
                maximum: MAX_NAME_BYTES as int,
            },
        )
    } else if encode_utf8(tensor.dtype).len() > MAX_DTYPE_BYTES {
        Err(
            CoverageFault::MetadataFieldTooLong {
                field: "tensor dtype",
                maximum: MAX_DTYPE_BYTES as int,
            },
        )
    } else if tensor.dtype != "BF16"@ {
        Err(CoverageFault::UnsupportedDtype(name))
    } else {
        match scheduled(name) {
            Err(ClassificationFailure::Unknown) => Err(CoverageFault::UnknownTensor(name)),
            Err(ClassificationFailure::WrongLayerKind { layer, expected }) => Err(
                CoverageFault::WrongLayerKind { tensor: name, layer, expected },
            ),
            Ok(expected) => if rank != expected.shape.len() || rank > MAX_RANK {
                Err(
                    CoverageFault::WrongRank {
                        tensor: name,
                        expected: expected.shape.len() as int,
                        actual: rank as int,
                    },
                )
            } else {
                match zero_at(tensor.shape, 0) {
                    Some(dimension) => Err(
                        CoverageFault::ZeroDimension { tensor: name, dimension },
                    ),
                    None => if product(tensor.shape) > u64::MAX {
                        Err(CoverageFault::CoefficientOverflow(name))
                    } else if tensor.shape != expected.shape {
                        Err(CoverageFault::WrongShape(name))
                    } else {
                        Ok(
                            EntryView {
                                name,
                                dtype: Qwen35SourceDtype::Bfloat16,
                                shape: tensor.shape,
                                coefficients: product(tensor.shape) as u64,
                                scope: expected.scope,
                                role: expected.role,
                                disposition: action(expected.scope, rank),
                            },
                        )
                    },
                }
            },
        }
    }
}

/// A product of positive dimensions never shrinks.
proof fn lemma_product_grows(shape: Seq<u64>, size: int)
    requires
        0 <= size <= shape.len(),
        forall|k: int| 0 <= k < shape.len() ==> shape[k] != 0,
    ensures
        1 <= product(shape.take(size)) <= product(shape),
    decreases shape.len(),
{
    if shape.len() > 0 {
        let shorter = shape.drop_last();
        if size < shape.len() {
            lemma_product_grows(shorter, size);
            assert(shorter.take(size) =~= shape.take(size));
        } else {
            lemma_product_grows(shorter, shorter.len() as int);
            assert(shorter.take(shorter.len() as int) =~= shorter);
            assert(shape.take(size) =~= shape);
        }
        let part = product(shorter);
        let last = shape.last() as nat;
        assert(part * last >= part) by (nonlinear_arith)
            requires
                last >= 1,
                part >= 0,
        ;
    } else {
        assert(shape.take(size) =~= shape);
    }
}

/// Where the first zero of a shape stands.
fn find_zero(shape: &[u64]) -> (position: Option<usize>)
    ensures
        match position {
            Some(dimension) => zero_at(shape@, 0) == Some(dimension as int),
            None => zero_at(shape@, 0) is None && forall|k: int|
                0 <= k < shape@.len() ==> shape@[k] != 0,
        },
{
    let mut index: usize = 0;
    while index < shape.len()
        invariant
            index <= shape@.len(),
            zero_at(shape@, 0) == zero_at(shape@, index as int),
            forall|k: int| 0 <= k < index ==> shape@[k] != 0,
        decreases shape@.len() - index,
    {
        if shape[index] == 0 {
            return Some(index);
        }
        index = index + 1;
    }
    None
}

/// The product of positive dimensions, if it fits.
fn checked_product(shape: &[u64]) -> (result: Option<u64>)
    requires
        forall|k: int| 0 <= k < shape@.len() ==> shape@[k] != 0,
    ensures
        match result {
            Some(coefficients) => coefficients == product(shape@),
            None => product(shape@) > u64::MAX,
        },
{
    let mut coefficients: u64 = 1;
    let mut index: usize = 0;
    assert(shape@.take(0) =~= Seq::<u64>::empty());
    while index < shape.len()
        invariant
            index <= shape@.len(),
            coefficients == product(shape@.take(index as int)),
            forall|k: int| 0 <= k < shape@.len() ==> shape@[k] != 0,
        decreases shape@.len() - index,
    {
        proof {
            let longer = shape@.take(index + 1);
            assert(longer.drop_last() =~= shape@.take(index as int));
            assert(longer.last() == shape@[index as int]);
            lemma_product_grows(shape@, index + 1);
        }
        coefficients =
        match coefficients.checked_mul(shape[index]) {
            Some(next) => next,
            None => {
                return None;
            },
        };
        index = index + 1;
    }
    assert(shape@.take(index as int) =~= shape@);
    Some(coefficients)
}

/// Whether two shapes are equal.
fn same_shape(left: &[u64], right: &[u64]) -> (same: bool)
    ensures
        same == (left@ == right@),
{
    if left.len() != right.len() {
        return false;
    }
    let mut index: usize = 0;
    while index < left.len()
        invariant
            index <= left@.len(),
            left@.len() == right@.len(),
            forall|k: int| 0 <= k < index ==> left@[k] == right@[k],
        decreases left@.len() - index,
    {
        if left[index] != right[index] {
            assert(left@[index as int] != right@[index as int]);
            return false;
        }
        index = index + 1;
    }
    assert(left@ =~= right@);
    true
}

/// Classifies and validates one tensor.
fn validate_entry(tensor: Qwen35TensorMetadata<'_>) -> (entry: Result<
    Qwen35CoverageEntry,
    Qwen35CoverageError,
>)
    ensures
        match admitted(tensor@) {
            Ok(view) => entry matches Ok(made) && made@ == view,
            Err(fault) => rejects(entry, fault),
        },
{
    if tensor.name.unicode_len() == 0 {
        return Err(Qwen35CoverageError::EmptyTensorName);
    }
    if tensor.name.as_bytes().len() > MAX_NAME_BYTES {
        return Err(
            Qwen35CoverageError::MetadataFieldTooLong {
                field: "tensor name",
                maximum: MAX_NAME_BYTES,
            },
        );
    }
    let name: String = tensor.name.to_owned();
    if tensor.dtype.as_bytes().len() > MAX_DTYPE_BYTES {
        return Err(
            Qwen35CoverageError::MetadataFieldTooLong {
                field: "tensor dtype",
                maximum: MAX_DTYPE_BYTES,
            },
        );
    }
    if !same_text(tensor.dtype, "BF16") {
        return Err(Qwen35CoverageError::UnsupportedDtype(name));
    }
    let expected: ExpectedTensor = match classify_tensor(tensor.name) {
        Ok(expected) => expected,
        Err(ClassificationFailure::Unknown) => {
            return Err(Qwen35CoverageError::UnknownTensor(name));
        },
        Err(ClassificationFailure::WrongLayerKind { layer, expected }) => {
            return Err(Qwen35CoverageError::WrongLayerKind { tensor: name, layer, expected });
        },
    };
    let rank: usize = tensor.shape.len();
    if rank != expected.shape.len() || rank > MAX_RANK {
        return Err(
            Qwen35CoverageError::WrongRank {
                tensor: name,
                expected: expected.shape.len(),
                actual: rank,
            },
        );
    }
    match find_zero(tensor.shape) {
        Some(dimension) => {
            return Err(Qwen35CoverageError::ZeroDimension { tensor: name, dimension });
        },
        None => {},
    }
    let coefficients: u64 = match checked_product(tensor.shape) {
        Some(coefficients) => coefficients,
        None => {
            return Err(Qwen35CoverageError::CoefficientOverflow(name));
        },
    };
    if !same_shape(tensor.shape, expected.shape.as_slice()) {
        return Err(Qwen35CoverageError::WrongShape(name));
    }
    let disposition = if expected.scope == Qwen35TensorScope::DeferredVision {
        Qwen35CoverageDisposition::ExcludedFutureVision
    } else if rank == 2 {
        Qwen35CoverageDisposition::AdditiveTernary
    } else {
        Qwen35CoverageDisposition::PreserveSource
    };
    Ok(
        Qwen35CoverageEntry {
            name,
            dtype: Qwen35SourceDtype::Bfloat16,
            shape: expected.shape,
            coefficients,
            scope: expected.scope,
            role: expected.role,
            disposition,
        },
    )
}

/// Tensor and coefficient totals for one coverage partition.
#[derive(Clone, Copy, Debug, PartialEq, Eq)]
pub struct Qwen35CoverageTotals {
    tensors: u64,
    coefficients: u64,
}

/// What totals hold.
pub struct TotalsView {
    /// Number of tensors.
    pub tensors: nat,
    /// Number of coefficients.
    pub coefficients: nat,
}

impl View for Qwen35CoverageTotals {
    type V = TotalsView;

    closed spec fn view(&self) -> TotalsView {
        TotalsView { tensors: self.tensors as nat, coefficients: self.coefficients as nat }
    }
}

impl Default for Qwen35CoverageTotals {
    /// The totals of nothing.
    fn default() -> (totals: Self)
        ensures
            totals@ == (TotalsView { tensors: 0, coefficients: 0 }),
    {
        Qwen35CoverageTotals { tensors: 0, coefficients: 0 }
    }
}

impl Qwen35CoverageTotals {
    /// Number of source tensors in the partition.
    pub fn tensors(self) -> (tensors: u64)
        ensures
            tensors == self@.tensors,
    {
        self.tensors
    }

    /// Number of logical source coefficients in the partition.
    pub fn coefficients(self) -> (coefficients: u64)
        ensures
            coefficients == self@.coefficients,
    {
        self.coefficients
    }

    fn add(&mut self, coefficients: u64) -> (result: Result<(), Qwen35CoverageError>)
        ensures
            if old(self)@.tensors == u64::MAX || old(self)@.coefficients + coefficients
                > u64::MAX {
                rejects(result, CoverageFault::SummaryOverflow)
            } else {
                result is Ok && final(self)@ == (TotalsView {
                    tensors: old(self)@.tensors + 1,
                    coefficients: old(self)@.coefficients + coefficients as nat,
                })
            },
    {
        self.tensors =
        match self.tensors.checked_add(1) {
            Some(tensors) => tensors,
            None => {
                return Err(Qwen35CoverageError::SummaryOverflow);
            },
        };
        self.coefficients =
        match self.coefficients.checked_add(coefficients) {
            Some(sum) => sum,
            None => {
                return Err(Qwen35CoverageError::SummaryOverflow);
            },
        };
        Ok(())
    }
}

/// The partitions that totals are kept of.
pub enum CoveragePart {
    /// Every tensor.
    Total,
    /// The main language model.
    Language,
    /// The multi-token-prediction drafter.
    Mtp,
    /// The deferred vision component.
    Vision,
    /// Language and drafter.
    Included,
    /// Tensors to be ternarized.
    AdditiveTernary,
    /// Included tensors kept at source precision.
    PreserveSource,
    /// Tensors excluded as future vision.
    ExcludedFutureVision,
}

/// Whether an entry belongs to a partition.
pub open spec fn in_part(entry: EntryView, part: CoveragePart) -> bool {
    match part {
        CoveragePart::Total => true,
        CoveragePart::Language => entry.scope is Language,
        CoveragePart::Mtp => entry.scope is MtpDrafter,
        CoveragePart::Vision => entry.scope is DeferredVision,
        CoveragePart::Included => !(entry.scope is DeferredVision),
        CoveragePart::AdditiveTernary => entry.disposition is AdditiveTernary,
        CoveragePart::PreserveSource => entry.disposition is PreserveSource,
        CoveragePart::ExcludedFutureVision => entry.disposition is ExcludedFutureVision,
    }
}

/// Totals with one more entry where it belongs to the partition.
pub open spec fn with_entry(totals: TotalsView, entry: EntryView, part: CoveragePart) -> TotalsView {
    if in_part(entry, part) {
        TotalsView {
            tensors: totals.tensors + 1,
            coefficients: totals.coefficients + entry.coefficients as nat,
        }
    } else {
        totals
    }
}

/// The totals of a partition.
pub open spec fn totals(entries: Seq<EntryView>, part: CoveragePart) -> TotalsView
    decreases entries.len(),
{
    if entries.len() == 0 {
        TotalsView { tensors: 0, coefficients: 0 }
    } else {
        with_entry(totals(entries.drop_last(), part), entries.last(), part)
    }
}

/// Frozen coverage totals by component and disposition.
#[derive(Clone, Copy, Debug, PartialEq, Eq)]
pub struct Qwen35CoverageSummary {
    total: Qwen35CoverageTotals,
    language: Qwen35CoverageTotals,
    mtp: Qwen35CoverageTotals,
    vision: Qwen35CoverageTotals,
    included: Qwen35CoverageTotals,
    additive_ternary: Qwen35CoverageTotals,
    preserve_source: Qwen35CoverageTotals,
    excluded_future_vision: Qwen35CoverageTotals,
}

/// What a summary holds.
pub struct SummaryView {
    /// Every tensor.
    pub total: TotalsView,
    /// The main language model.
    pub language: TotalsView,
    /// The multi-token-prediction drafter.
    pub mtp: TotalsView,
    /// The deferred vision component.
    pub vision: TotalsView,
    /// Language and drafter.
    pub included: TotalsView,
    /// Tensors to be ternarized.
    pub additive_ternary: TotalsView,
    /// Included tensors kept at source precision.
    pub preserve_source: TotalsView,
    /// Tensors excluded as future vision.
    pub excluded_future_vision: TotalsView,
}

impl View for Qwen35CoverageSummary {
    type V = SummaryView;

    closed spec fn view(&self) -> SummaryView {
        SummaryView {
            total: self.total@,
            language: self.language@,
            mtp: self.mtp@,
            vision: self.vision@,
            included: self.included@,
            additive_ternary: self.additive_ternary@,
            preserve_source: self.preserve_source@,
            excluded_future_vision: self.excluded_future_vision@,
        }
    }
}

/// The summary of entries.
pub open spec fn summary_of(entries: Seq<EntryView>) -> SummaryView {
    SummaryView {
        total: totals(entries, CoveragePart::Total),
        language: totals(entries, CoveragePart::Language),
        mtp: totals(entries, CoveragePart::Mtp),
        vision: totals(entries, CoveragePart::Vision),
        included: totals(entries, CoveragePart::Included),
        additive_ternary: totals(entries, CoveragePart::AdditiveTernary),
        preserve_source: totals(entries, CoveragePart::PreserveSource),
        excluded_future_vision: totals(entries, CoveragePart::ExcludedFutureVision),
    }
}

/// Whether totals are at most others.
pub open spec fn at_most(part: TotalsView, whole: TotalsView) -> bool {
    part.tensors <= whole.tensors && part.coefficients <= whole.coefficients
}

impl SummaryView {
    /// Whether no partition exceeds the whole.
    pub open spec fn bounded(self) -> bool {
        &&& at_most(self.language, self.total)
        &&& at_most(self.mtp, self.total)
        &&& at_most(self.vision, self.total)
        &&& at_most(self.included, self.total)
        &&& at_most(self.additive_ternary, self.total)
        &&& at_most(self.preserve_source, self.total)
        &&& at_most(self.excluded_future_vision, self.total)
    }

    /// The summary with one more entry.
    pub open spec fn with(self, entry: EntryView) -> SummaryView {
        SummaryView {
            total: with_entry(self.total, entry, CoveragePart::Total),
            language: with_entry(self.language, entry, CoveragePart::Language),
            mtp: with_entry(self.mtp, entry, CoveragePart::Mtp),
            vision: with_entry(self.vision, entry, CoveragePart::Vision),
            included: with_entry(self.included, entry, CoveragePart::Included),
            additive_ternary: with_entry(
                self.additive_ternary,
                entry,
                CoveragePart::AdditiveTernary,
            ),
            preserve_source: with_entry(self.preserve_source, entry, CoveragePart::PreserveSource),
            excluded_future_vision: with_entry(
                self.excluded_future_vision,
                entry,
                CoveragePart::ExcludedFutureVision,
            ),
        }
    }
}

/// A partition never exceeds the whole.
proof fn lemma_part_bound(entries: Seq<EntryView>, part: CoveragePart)
    ensures
        at_most(totals(entries, part), totals(entries, CoveragePart::Total)),
        totals(entries, CoveragePart::Total).tensors == entries.len(),
    decreases entries.len(),
{
    if entries.len() > 0 {
        lemma_part_bound(entries.drop_last(), part);
    }
}

/// No partition of a summary exceeds the whole.
proof fn lemma_summary_bounded(entries: Seq<EntryView>)
    ensures
        summary_of(entries).bounded(),
        summary_of(entries).total.tensors == entries.len(),
{
    lemma_part_bound(entries, CoveragePart::Language);
    lemma_part_bound(entries, CoveragePart::Mtp);
    lemma_part_bound(entries, CoveragePart::Vision);
    lemma_part_bound(entries, CoveragePart::Included);
    lemma_part_bound(entries, CoveragePart::AdditiveTernary);
    lemma_part_bound(entries, CoveragePart::PreserveSource);
    lemma_part_bound(entries, CoveragePart::ExcludedFutureVision);
}

/// The whole never shrinks with more entries.
proof fn lemma_total_grows(entries: Seq<EntryView>, size: int)
    requires
        0 <= size <= entries.len(),
    ensures
        totals(entries.take(size), CoveragePart::Total).coefficients <= totals(
            entries,
            CoveragePart::Total,
        ).coefficients,
    decreases entries.len(),
{
    if size < entries.len() {
        lemma_total_grows(entries.drop_last(), size);
        assert(entries.drop_last().take(size) =~= entries.take(size));
    } else {
        assert(entries.take(size) =~= entries);
    }
}

/// Every tensor is language, drafter or vision, and has one of the three actions; the language
/// and drafter tensors are those included, and no vision tensor is.
pub proof fn coverage_partitions(entries: Seq<EntryView>)
    ensures
        ({
            let summary = summary_of(entries);
            &&& summary.total.tensors == summary.language.tensors + summary.mtp.tensors
                + summary.vision.tensors
            &&& summary.total.coefficients == summary.language.coefficients
                + summary.mtp.coefficients + summary.vision.coefficients
            &&& summary.included.tensors == summary.language.tensors + summary.mtp.tensors
            &&& summary.included.coefficients == summary.language.coefficients
                + summary.mtp.coefficients
            &&& summary.total.tensors == summary.additive_ternary.tensors
                + summary.preserve_source.tensors + summary.excluded_future_vision.tensors
            &&& summary.total.coefficients == summary.additive_ternary.coefficients
                + summary.preserve_source.coefficients
                + summary.excluded_future_vision.coefficients
        }),
    decreases entries.len(),
{
    if entries.len() > 0 {
        coverage_partitions(entries.drop_last());
    }
}

impl Default for Qwen35CoverageSummary {
    /// The summary of nothing.
    fn default() -> (summary: Self)
        ensures
            summary@ == summary_of(Seq::empty()),
    {
        Qwen35CoverageSummary {
            total: Qwen35CoverageTotals::default(),
            language: Qwen35CoverageTotals::default(),
            mtp: Qwen35CoverageTotals::default(),
            vision: Qwen35CoverageTotals::default(),
            included: Qwen35CoverageTotals::default(),
            additive_ternary: Qwen35CoverageTotals::default(),
            preserve_source: Qwen35CoverageTotals::default(),
            excluded_future_vision: Qwen35CoverageTotals::default(),
        }
    }
}

impl Qwen35CoverageSummary {
    /// Totals across language, MTP, and deferred vision metadata.
    pub fn total(self) -> (part: Qwen35CoverageTotals)
        ensures
            part@ == self@.total,
    {
        self.total
    }

    /// Totals for the main language model.
    pub fn language(self) -> (part: Qwen35CoverageTotals)
        ensures
            part@ == self@.language,
    {
        self.language
    }

    /// Totals for the bundled MTP drafter.
    pub fn mtp(self) -> (part: Qwen35CoverageTotals)
        ensures
            part@ == self@.mtp,
    {
        self.mtp
    }

    /// Metadata-covered totals for the vision component excluded from this product scope.
    pub fn vision(self) -> (part: Qwen35CoverageTotals)
        ensures
            part@ == self@.vision,
    {
        self.vision
    }

    /// Totals included in the current language-plus-MTP artifact.
    pub fn included(self) -> (part: Qwen35CoverageTotals)
        ensures
            part@ == self@.included,
    {
        self.included
    }

    /// Totals assigned to additive ternary quantization.
    pub fn additive_ternary(self) -> (part: Qwen35CoverageTotals)
        ensures
            part@ == self@.additive_ternary,
    {
        self.additive_ternary
    }

    /// Included totals retained at exact source precision.
    pub fn preserve_source(self) -> (part: Qwen35CoverageTotals)
        ensures
            part@ == self@.preserve_source,
    {
        self.preserve_source
    }

    /// Totals assigned the exact preregistered future-vision exclusion.
    pub fn excluded_future_vision(self) -> (part: Qwen35CoverageTotals)
        ensures
            part@ == self@.excluded_future_vision,
    {
        self.excluded_future_vision
    }

    fn include_entry(&mut self, entry: &Qwen35CoverageEntry) -> (result: Result<
        (),
        Qwen35CoverageError,
    >)
        requires
            old(self)@.bounded(),
            old(self)@.total.tensors < u64::MAX,
        ensures
            if old(self)@.total.coefficients + entry@.coefficients > u64::MAX {
                rejects(result, CoverageFault::SummaryOverflow)
            } else {
                result is Ok && final(self)@ == old(self)@.with(entry@)
            },
    {
        self.total.add(entry.coefficients)?;
        match entry.scope {
            Qwen35TensorScope::Language => {
                self.language.add(entry.coefficients)?;
                self.included.add(entry.coefficients)?;
            },
            Qwen35TensorScope::MtpDrafter => {
                self.mtp.add(entry.coefficients)?;
                self.included.add(entry.coefficients)?;
            },
            Qwen35TensorScope::DeferredVision => {
                self.vision.add(entry.coefficients)?;
            },
        }
        match entry.disposition {
            Qwen35CoverageDisposition::AdditiveTernary => {
                self.additive_ternary.add(entry.coefficients)?;
            },
            Qwen35CoverageDisposition::PreserveSource => {
                self.preserve_source.add(entry.coefficients)?;
            },
            Qwen35CoverageDisposition::ExcludedFutureVision => {
                self.excluded_future_vision.add(entry.coefficients)?;
            },
        }
        Ok(())
    }
}

/// Totals with the given counts.
pub open spec fn counts(tensors: nat, coefficients: nat) -> TotalsView {
    TotalsView { tensors, coefficients }
}

/// The totals of the pinned checkpoint.
pub open spec fn frozen_summary() -> SummaryView {
    SummaryView {
        total: counts(1_199, 27_781_427_952),
        language: counts(851, 26_895_998_464),
        mtp: counts(15, 424_699_392),
        vision: counts(333, 460_730_096),
        included: counts(866, 27_320_697_856),
        additive_ternary: counts(506, 27_318_026_240),
        preserve_source: counts(360, 2_671_616),
        excluded_future_vision: counts(333, 460_730_096),
    }
}

fn has_counts(part: Qwen35CoverageTotals, tensors: u64, coefficients: u64) -> (same: bool)
    ensures
        same == (part@ == counts(tensors as nat, coefficients as nat)),
{
    part.tensors == tensors && part.coefficients == coefficients
}

fn summary_is_expected(summary: Qwen35CoverageSummary) -> (frozen: bool)
    ensures
        frozen == (summary@ == frozen_summary()),
{
    has_counts(summary.total, 1_199, 27_781_427_952) && has_counts(
        summary.language,
        851,
        26_895_998_464,
    ) && has_counts(summary.mtp, 15, 424_699_392) && has_counts(summary.vision, 333, 460_730_096)
        && has_counts(summary.included, 866, 27_320_697_856) && has_counts(
        summary.additive_ternary,
        506,
        27_318_026_240,
    ) && has_counts(summary.preserve_source, 360, 2_671_616) && has_counts(
        summary.excluded_future_vision,
        333,
        460_730_096,
    )
}

/// The contents of entries.
pub open spec fn entry_views(entries: Seq<Qwen35CoverageEntry>) -> Seq<EntryView> {
    Seq::new(entries.len(), |k: int| entries[k]@)
}

/// Adds up the totals of entries.
fn summarize(entries: &[Qwen35CoverageEntry]) -> (summary: Result<
    Qwen35CoverageSummary,
    Qwen35CoverageError,
>)
    ensures
        if summary_of(entry_views(entries@)).total.coefficients > u64::MAX {
            rejects(summary, CoverageFault::SummaryOverflow)
        } else {
            summary matches Ok(made) && made@ == summary_of(entry_views(entries@))
        },
{
    let length: usize = entries.len();
    let ghost views = entry_views(entries@);
    let mut summary: Qwen35CoverageSummary = Qwen35CoverageSummary::default();
    let mut index: usize = 0;
    assert(views.take(0) =~= Seq::empty());
    while index < length
        invariant
            index <= length == entries@.len(),
            views == entry_views(entries@),
            summary@ == summary_of(views.take(index as int)),
        decreases length - index,
    {
        let ghost part = views.take(index as int);
        proof {
            lemma_summary_bounded(part);
            let longer = views.take(index + 1);
            assert(longer.drop_last() =~= part);
            assert(longer.last() == entries@[index as int]@);
            lemma_total_grows(views, index + 1);
            assert(summary_of(longer) == summary_of(part).with(entries@[index as int]@));
        }
        summary.include_entry(&entries[index])?;
        index = index + 1;
    }
    assert(views.take(index as int) =~= views);
    Ok(summary)
}

/// Dimensions in decimal, separated by commas.
pub open spec fn dimension_list(shape: Seq<u64>) -> Seq<u8>
    decreases shape.len(),
{
    if shape.len() == 0 {
        Seq::empty()
    } else if shape.len() == 1 {
        decimal(shape[0] as nat)
    } else {
        dimension_list(shape.drop_last()).push(0x2c) + decimal(shape.last() as nat)
    }
}

/// The canonical metadata record `name\tBF16\tshape\n` of an entry.
pub open spec fn metadata_record(entry: EntryView) -> Seq<u8> {
    encode_utf8(entry.name) + seq![0x09u8, 0x42u8, 0x46u8, 0x31u8, 0x36u8, 0x09u8] + dimension_list(
        entry.shape,
    ) + seq![0x0au8]
}

/// The canonical metadata records of entries.
pub open spec fn metadata_records(entries: Seq<EntryView>) -> Seq<u8>
    decreases entries.len(),
{
    if entries.len() == 0 {
        Seq::empty()
    } else {
        metadata_records(entries.drop_last()) + metadata_record(entries.last())
    }
}

/// Where a name belongs among sorted entries from a position on: before the first greater one.
pub open spec fn name_place(sorted: Seq<EntryView>, name: Seq<char>, from: int) -> int
    decreases sorted.len() - from,
{
    if from < 0 || from >= sorted.len() || text_before(name, sorted[from].name) {
        from
    } else {
        name_place(sorted, name, from + 1)
    }
}

/// Entries in the order of their names.
pub open spec fn by_name(entries: Seq<EntryView>) -> Seq<EntryView>
    decreases entries.len(),
{
    if entries.len() == 0 {
        Seq::empty()
    } else {
        let before = by_name(entries.drop_last());
        before.insert(name_place(before, entries.last().name, 0), entries.last())
    }
}

/// The first name that occurs twice among sorted entries from a position on, if there is one.
pub open spec fn repeated_name(sorted: Seq<EntryView>, from: int) -> Option<Seq<char>>
    decreases sorted.len() - from,
{
    if from < 0 || from + 1 >= sorted.len() {
        None
    } else if sorted[from].name == sorted[from + 1].name {
        Some(sorted[from].name)
    } else {
        repeated_name(sorted, from + 1)
    }
}

/// The first rejection among tensors from a position on, if there is one.
pub open spec fn first_fault(tensors: Seq<TensorView>, from: int) -> Option<CoverageFault>
    decreases tensors.len() - from,
{
    if from < 0 || from >= tensors.len() {
        None
    } else if from == EXPECTED_TENSORS {
        Some(CoverageFault::TooManyTensors { maximum: EXPECTED_TENSORS as int })
    } else {
        match admitted(tensors[from]) {
            Err(fault) => Some(fault),
            Ok(_) => first_fault(tensors, from + 1),
        }
    }
}

/// The entries of admitted tensors.
pub open spec fn admitted_entries(tensors: Seq<TensorView>) -> Seq<EntryView> {
    Seq::new(tensors.len(), |k: int| admitted(tensors[k])->Ok_0)
}

/// The reason why a sorted, complete set of entries is not the pinned checkpoint, if any.
pub open spec fn identity_fault(entries: Seq<EntryView>) -> Option<CoverageFault> {
    let records = metadata_records(entries);
    if blake3_digest(records) != EXPECTED_METADATA_DIGEST@ || records.len()
        != EXPECTED_METADATA_RECORD_BYTES {
        Some(
            CoverageFault::MetadataIdentityMismatch {
                expected_digest: EXPECTED_METADATA_DIGEST@,
                actual_digest: blake3_digest(records),
                expected_bytes: EXPECTED_METADATA_RECORD_BYTES as int,
                actual_bytes: records.len() as int,
            },
        )
    } else if summary_of(entries).total.coefficients > u64::MAX {
        Some(CoverageFault::SummaryOverflow)
    } else if summary_of(entries) != frozen_summary() {
        Some(CoverageFault::CoverageSummaryMismatch)
    } else {
        None
    }
}

/// The manifest entries of a revision's tensors, or the reason why they are rejected.
pub open spec fn covered(revision: Seq<char>, tensors: Seq<TensorView>) -> Result<
    Seq<EntryView>,
    CoverageFault,
> {
    if revision != QWEN36_27B_COVERAGE_REVISION@ {
        Err(CoverageFault::WrongRevision)
    } else {
        match first_fault(tensors, 0) {
            Some(fault) => Err(fault),
            None => {
                let sorted = by_name(admitted_entries(tensors));
                match repeated_name(sorted, 0) {
                    Some(name) => Err(CoverageFault::DuplicateTensor(name)),
                    None => if sorted.len() != EXPECTED_TENSORS {
                        Err(
                            CoverageFault::MissingTensorMetadata {
                                expected: EXPECTED_TENSORS as int,
                                actual: sorted.len() as int,
                            },
                        )
                    } else {
                        match identity_fault(sorted) {
                            Some(fault) => Err(fault),
                            None => Ok(sorted),
                        }
                    },
                }
            },
        }
    }
}

/// Whether entries are in the strict order of their names.
pub open spec fn strictly_by_name(entries: Seq<EntryView>) -> bool {
    forall|i: int, j: int|
        0 <= i < j < entries.len() ==> text_before(
            (#[trigger] entries[i]).name,
            (#[trigger] entries[j]).name,
        )
}

/// Whether an entry is what its own name and shape are admitted as.
pub open spec fn is_admitted(entry: EntryView) -> bool {
    admitted(TensorView { name: entry.name, dtype: "BF16"@, shape: entry.shape }) == Ok::<
        EntryView,
        CoverageFault,
    >(entry)
}

/// Whether entries are the complete pinned policy.
pub open spec fn pinned(entries: Seq<EntryView>) -> bool {
    &&& entries.len() == EXPECTED_TENSORS
    &&& strictly_by_name(entries)
    &&& forall|k: int| 0 <= k < entries.len() ==> is_admitted(#[trigger] entries[k])
    &&& identity_fault(entries) is None
}

/// Whether entries are in the order of their names.
spec fn weakly_by_name(entries: Seq<EntryView>) -> bool {
    forall|i: int, j: int|
        0 <= i < j < entries.len() ==> !text_before(
            (#[trigger] entries[j]).name,
            (#[trigger] entries[i]).name,
        )
}

/// Where a name is placed, earlier entries do not exceed it and later ones do.
proof fn lemma_name_place(sorted: Seq<EntryView>, name: Seq<char>, from: int)
    requires
        0 <= from <= sorted.len(),
        weakly_by_name(sorted),
        forall|k: int| 0 <= k < from ==> !text_before(name, (#[trigger] sorted[k]).name),
    ensures
        from <= name_place(sorted, name, from) <= sorted.len(),
        forall|k: int|
            0 <= k < name_place(sorted, name, from) ==> !text_before(
                name,
                (#[trigger] sorted[k]).name,
            ),
        forall|k: int|
            name_place(sorted, name, from) <= k < sorted.len() ==> text_before(
                name,
                (#[trigger] sorted[k]).name,
            ),
    decreases sorted.len() - from,
{
    if from < sorted.len() {
        if text_before(name, sorted[from].name) {
            assert forall|k: int| from <= k < sorted.len() implies text_before(
                name,
                (#[trigger] sorted[k]).name,
            ) by {
                if k > from {
                    assert(!text_before(sorted[k].name, sorted[from].name));
                    text_order_is_total(sorted[k].name, sorted[from].name);
                    if sorted[k].name != sorted[from].name {
                        text_order_is_transitive(name, sorted[from].name, sorted[k].name);
                    }
                }
            }
        } else {
            lemma_name_place(sorted, name, from + 1);
        }
    }
}

/// Sorting keeps the entries and orders them by name.
pub proof fn name_order_sorts(entries: Seq<EntryView>)
    ensures
        by_name(entries).len() == entries.len(),
        forall|i: int, j: int|
            0 <= i < j < entries.len() ==> !text_before(
                (#[trigger] by_name(entries)[j]).name,
                (#[trigger] by_name(entries)[i]).name,
            ),
        by_name(entries).to_multiset() == entries.to_multiset(),
    decreases entries.len(),
{
    broadcast use vstd::seq_lib::group_to_multiset_ensures;

    if entries.len() > 0 {
        let shorter = entries.drop_last();
        let last = entries.last();
        name_order_sorts(shorter);
        let before = by_name(shorter);
        assert(weakly_by_name(before));
        lemma_name_place(before, last.name, 0);
        let at = name_place(before, last.name, 0);
        let after = by_name(entries);
        assert(after == before.insert(at, last));
        assert(entries =~= shorter.push(last));
        assert(after.to_multiset() =~= before.to_multiset().insert(last));
        assert forall|i: int, j: int| 0 <= i < j < after.len() implies !text_before(
            (#[trigger] after[j]).name,
            (#[trigger] after[i]).name,
        ) by {
            if i < at {
                assert(after[i] == before[i]);
            } else if i > at {
                assert(after[i] == before[i - 1]);
            }
            if j < at {
                assert(after[j] == before[j]);
            } else if j > at {
                assert(after[j] == before[j - 1]);
            }
            if i == at {
                text_order_is_total(after[i].name, after[j].name);
            }
        }
    } else {
        assert(by_name(entries) =~= entries);
    }
}

/// Without a repeated name the order is strict.
proof fn lemma_strict(sorted: Seq<EntryView>, from: int)
    requires
        0 <= from,
        forall|i: int, j: int|
            0 <= i < j < sorted.len() ==> !text_before(
                (#[trigger] sorted[j]).name,
                (#[trigger] sorted[i]).name,
            ),
        repeated_name(sorted, from) is None,
    ensures
        forall|i: int, j: int|
            from <= i < j < sorted.len() ==> text_before(
                (#[trigger] sorted[i]).name,
                (#[trigger] sorted[j]).name,
            ),
    decreases sorted.len() - from,
{
    if from + 1 < sorted.len() {
        lemma_strict(sorted, from + 1);
        assert forall|i: int, j: int| from <= i < j < sorted.len() implies text_before(
            (#[trigger] sorted[i]).name,
            (#[trigger] sorted[j]).name,
        ) by {
            if i == from {
                assert(!text_before(sorted[from + 1].name, sorted[from].name));
                text_order_is_total(sorted[from].name, sorted[from + 1].name);
                if j > from + 1 {
                    text_order_is_transitive(
                        sorted[from].name,
                        sorted[from + 1].name,
                        sorted[j].name,
                    );
                }
            }
        }
    }
}

/// A strict order has no repeated name.
pub proof fn lemma_no_repeat(sorted: Seq<EntryView>, from: int)
    requires
        0 <= from,
        strictly_by_name(sorted),
    ensures
        repeated_name(sorted, from) is None,
    decreases sorted.len() - from,
{
    if from + 1 < sorted.len() {
        assert(text_before(sorted[from].name, sorted[from + 1].name));
        text_order_is_total(sorted[from].name, sorted[from + 1].name);
        lemma_no_repeat(sorted, from + 1);
    }
}

/// Two strict orders of the same entries are equal.
proof fn lemma_strict_order_is_unique(left: Seq<EntryView>, right: Seq<EntryView>)
    requires
        strictly_by_name(left),
        strictly_by_name(right),
        forall|entry: EntryView| #[trigger] left.contains(entry) <==> right.contains(entry),
    ensures
        left == right,
    decreases left.len(),
{
    if left.len() == 0 {
        if right.len() > 0 {
            assert(right.contains(right[0]));
            assert(left.contains(right[0]));
        }
        assert(left =~= right);
    } else {
        let a = left.len() - 1;
        assert(left.contains(left[a]));
        assert(right.contains(left[a]));
        let j = choose|j: int| 0 <= j < right.len() && right[j] == left[a];
        let b = right.len() - 1;
        assert(right.contains(right[b]));
        assert(left.contains(right[b]));
        let i = choose|i: int| 0 <= i < left.len() && left[i] == right[b];
        if i < a {
            assert(text_before(left[i].name, left[a].name));
            assert(j < b || left[i] == left[a]);
            if j < b {
                assert(text_before(right[j].name, right[b].name));
                text_order_is_total(left[i].name, left[a].name);
            } else {
                text_order_is_total(left[i].name, left[a].name);
            }
        }
        assert(i == a);
        assert(left[a] == right[b]);
        let shorter = left.drop_last();
        let other = right.drop_last();
        assert forall|x: int, y: int| 0 <= x < y < shorter.len() implies text_before(
            (#[trigger] shorter[x]).name,
            (#[trigger] shorter[y]).name,
        ) by {
            assert(text_before(left[x].name, left[y].name));
        }
        assert forall|x: int, y: int| 0 <= x < y < other.len() implies text_before(
            (#[trigger] other[x]).name,
            (#[trigger] other[y]).name,
        ) by {
            assert(text_before(right[x].name, right[y].name));
        }
        assert forall|entry: EntryView| #[trigger]
            shorter.contains(entry) <==> other.contains(entry) by {
            if shorter.contains(entry) {
                let k = choose|k: int| 0 <= k < shorter.len() && shorter[k] == entry;
                assert(left[k] == entry);
                assert(left.contains(entry));
                let m = choose|m: int| 0 <= m < right.len() && right[m] == entry;
                assert(text_before(left[k].name, left[a].name));
                text_order_is_total(left[k].name, left[a].name);
                assert(other[m] == entry);
            }
            if other.contains(entry) {
                let k = choose|k: int| 0 <= k < other.len() && other[k] == entry;
                assert(right[k] == entry);
                assert(right.contains(entry));
                assert(left.contains(entry));
                let m = choose|m: int| 0 <= m < left.len() && left[m] == entry;
                assert(text_before(right[k].name, right[b].name));
                text_order_is_total(right[k].name, right[b].name);
                assert(shorter[m] == entry);
            }
        }
        lemma_strict_order_is_unique(shorter, other);
        assert(left =~= shorter.push(left[a]));
        assert(right =~= other.push(right[b]));
    }
}

/// Without a fault every tensor is admitted, and there are not too many.
pub proof fn lemma_no_fault(tensors: Seq<TensorView>, from: int)
    requires
        0 <= from <= tensors.len(),
        from <= EXPECTED_TENSORS,
    ensures
        first_fault(tensors, from) is None <==> tensors.len() <= EXPECTED_TENSORS && forall|k: int|
            from <= k < tensors.len() ==> admitted(#[trigger] tensors[k]) is Ok,
    decreases tensors.len() - from,
{
    if from < tensors.len() && from < EXPECTED_TENSORS {
        lemma_no_fault(tensors, from + 1);
        if first_fault(tensors, from) is None {
            assert forall|k: int| from <= k < tensors.len() implies admitted(
                #[trigger] tensors[k],
            ) is Ok by {}
        } else if tensors.len() <= EXPECTED_TENSORS && forall|k: int|
            from <= k < tensors.len() ==> admitted(#[trigger] tensors[k]) is Ok {
            assert(admitted(tensors[from]) is Ok);
        }
    }
}

/// A covered set of tensors gives the complete pinned policy.
pub proof fn covered_sets_are_pinned(revision: Seq<char>, tensors: Seq<TensorView>)
    requires
        covered(revision, tensors) is Ok,
    ensures
        pinned(covered(revision, tensors)->Ok_0),
{
    broadcast use vstd::seq_lib::group_to_multiset_ensures;

    let entries = admitted_entries(tensors);
    let sorted = by_name(entries);
    name_order_sorts(entries);
    lemma_strict(sorted, 0);
    lemma_no_fault(tensors, 0);
    assert forall|k: int| 0 <= k < sorted.len() implies is_admitted(#[trigger] sorted[k]) by {
        assert(sorted.to_multiset().contains(sorted[k]));
        assert(entries.contains(sorted[k]));
        let m = choose|m: int| 0 <= m < entries.len() && entries[m] == sorted[k];
        assert(admitted(tensors[m]) is Ok);
        assert(tensors[m] == (TensorView {
            name: sorted[k].name,
            dtype: "BF16"@,
            shape: sorted[k].shape,
        }));
    }
}

/// The order in which tensors are given does not matter.
pub proof fn input_order_does_not_matter(
    revision: Seq<char>,
    left: Seq<TensorView>,
    right: Seq<TensorView>,
)
    requires
        covered(revision, left) is Ok,
        left.to_multiset() == right.to_multiset(),
    ensures
        covered(revision, right) == covered(revision, left),
{
    broadcast use vstd::seq_lib::group_to_multiset_ensures;

    let first = admitted_entries(left);
    let second = admitted_entries(right);
    let a = by_name(first);
    let b = by_name(second);
    assert(left.to_multiset().len() == left.len());
    assert(right.to_multiset().len() == right.len());
    assert(left.len() == right.len());
    lemma_no_fault(left, 0);
    assert forall|k: int| 0 <= k < right.len() implies admitted(#[trigger] right[k]) is Ok by {
        assert(right.to_multiset().contains(right[k]));
        assert(left.contains(right[k]));
        let m = choose|m: int| 0 <= m < left.len() && left[m] == right[k];
        assert(admitted(left[m]) is Ok);
    }
    lemma_no_fault(right, 0);
    name_order_sorts(first);
    name_order_sorts(second);
    covered_sets_are_pinned(revision, left);
    assert forall|entry: EntryView| #[trigger] a.contains(entry) <==> b.contains(entry) by {
        assert(a.contains(entry) <==> a.to_multiset().contains(entry));
        assert(b.contains(entry) <==> b.to_multiset().contains(entry));
        assert(first.contains(entry) <==> first.to_multiset().contains(entry));
        assert(second.contains(entry) <==> second.to_multiset().contains(entry));
        if first.contains(entry) {
            let k = choose|k: int| 0 <= k < first.len() && first[k] == entry;
            assert(left.to_multiset().contains(left[k]));
            assert(right.contains(left[k]));
            let m = choose|m: int| 0 <= m < right.len() && right[m] == left[k];
            assert(second[m] == entry);
        }
        if second.contains(entry) {
            let k = choose|k: int| 0 <= k < second.len() && second[k] == entry;
            assert(right.to_multiset().contains(right[k]));
            assert(left.contains(right[k]));
            let m = choose|m: int| 0 <= m < left.len() && left[m] == right[k];
            assert(first[m] == entry);
        }
    }
    lemma_distinct(left, right, a, b);
    lemma_strict_order_is_unique(a, b);
    lemma_no_repeat(b, 0);
}

/// The same tensors in another order, sorted, are strictly sorted where the first are.
proof fn lemma_distinct(
    left: Seq<TensorView>,
    right: Seq<TensorView>,
    a: Seq<EntryView>,
    b: Seq<EntryView>,
)
    requires
        left.to_multiset() == right.to_multiset(),
        forall|k: int| 0 <= k < left.len() ==> admitted(#[trigger] left[k]) is Ok,
        a == by_name(admitted_entries(left)),
        b == by_name(admitted_entries(right)),
        strictly_by_name(a),
        forall|entry: EntryView| #[trigger] a.contains(entry) <==> b.contains(entry),
    ensures
        strictly_by_name(b),
{
    broadcast use vstd::seq_lib::group_to_multiset_ensures;

    name_order_sorts(admitted_entries(left));
    name_order_sorts(admitted_entries(right));
    assert(left.to_multiset().len() == left.len());
    assert(right.to_multiset().len() == right.len());
    assert(a.len() == b.len());
    assert(a.no_duplicates()) by {
        assert forall|i: int, j: int| 0 <= i < a.len() && 0 <= j < a.len() && i != j implies a[i]
            != a[j] by {
            if i < j {
                assert(text_before(a[i].name, a[j].name));
            } else {
                assert(text_before(a[j].name, a[i].name));
            }
            text_order_is_total(a[i].name, a[j].name);
        }
    }
    a.unique_seq_to_set();
    assert(a.to_set() =~= b.to_set()) by {
        assert forall|entry: EntryView| #[trigger]
            a.to_set().contains(entry) <==> b.to_set().contains(entry) by {
            assert(a.contains(entry) <==> b.contains(entry));
        }
    }
    vstd::seq_lib::seq_to_set_is_finite(b);
    b.lemma_no_dup_set_cardinality();
    assert forall|i: int, j: int| 0 <= i < j < b.len() implies text_before(
        (#[trigger] b[i]).name,
        (#[trigger] b[j]).name,
    ) by {
        assert(b[i] != b[j]);
        assert(!text_before(b[j].name, b[i].name));
        text_order_is_total(b[i].name, b[j].name);
        if b[i].name == b[j].name {
            assert(b.contains(b[i]) && b.contains(b[j]));
            assert(a.contains(b[i]) && a.contains(b[j]));
            let p = choose|p: int| 0 <= p < a.len() && a[p] == b[i];
            let q = choose|q: int| 0 <= q < a.len() && a[q] == b[j];
            if p < q {
                assert(text_before(a[p].name, a[q].name));
            } else if q < p {
                assert(text_before(a[q].name, a[p].name));
            }
        }
    }
}

/// Appends dimensions in decimal, separated by commas.
fn push_dimensions(out: &mut Vec<u8>, shape: &[u64])
    ensures
        final(out)@ == old(out)@ + dimension_list(shape@),
{
    let ghost start = out@;
    let mut index: usize = 0;
    assert(out@ =~= start + dimension_list(shape@.take(0)));
    while index < shape.len()
        invariant
            index <= shape@.len(),
            out@ == start + dimension_list(shape@.take(index as int)),
        decreases shape@.len() - index,
    {
        let ghost before = out@;
        if index != 0 {
            out.push(0x2c);
        }
        push_decimal(out, shape[index]);
        proof {
            let part = shape@.take(index as int);
            let longer = shape@.take(index + 1);
            assert(longer.drop_last() =~= part);
            assert(longer.last() == shape@[index as int]);
            assert(index == 0 ==> before =~= start);
            assert(out@ =~= start + dimension_list(longer));
        }
        index = index + 1;
    }
    assert(shape@.take(index as int) =~= shape@);
}

/// The canonical metadata records of entries.
fn record_bytes(entries: &[Qwen35CoverageEntry]) -> (records: Vec<u8>)
    ensures
        records@ == metadata_records(entry_views(entries@)),
{
    let ghost views = entry_views(entries@);
    let label: [u8; 6] = [0x09, 0x42, 0x46, 0x31, 0x36, 0x09];
    let mut out: Vec<u8> = Vec::new();
    let mut index: usize = 0;
    assert(out@ =~= metadata_records(views.take(0)));
    while index < entries.len()
        invariant
            index <= entries@.len(),
            views == entry_views(entries@),
            label@ == seq![0x09u8, 0x42u8, 0x46u8, 0x31u8, 0x36u8, 0x09u8],
            out@ == metadata_records(views.take(index as int)),
        decreases entries@.len() - index,
    {
        let ghost before = out@;
        let entry: &Qwen35CoverageEntry = &entries[index];
        push_bytes(&mut out, entry.name.as_str().as_bytes());
        push_bytes(&mut out, label.as_slice());
        push_dimensions(&mut out, entry.shape.as_slice());
        out.push(0x0a);
        proof {
            let longer = views.take(index + 1);
            assert(longer.drop_last() =~= views.take(index as int));
            assert(longer.last() == entry@);
            assert(out@ =~= before + metadata_record(entry@));
        }
        index = index + 1;
    }
    assert(views.take(index as int) =~= views);
    out
}

/// Adds an entry to sorted ones.
fn insert_by_name(sorted: &mut Vec<Qwen35CoverageEntry>, entry: Qwen35CoverageEntry)
    ensures
        entry_views(final(sorted)@) == entry_views(old(sorted)@).insert(
            name_place(entry_views(old(sorted)@), entry@.name, 0),
            entry@,
        ),
{
    let ghost before = entry_views(sorted@);
    let mut at: usize = 0;
    while at < sorted.len() && !text_less(entry.name.as_str(), sorted[at].name.as_str())
        invariant
            at <= sorted@.len(),
            before == entry_views(sorted@),
            name_place(before, entry@.name, 0) == name_place(before, entry@.name, at as int),
        decreases sorted@.len() - at,
    {
        at = at + 1;
    }
    let ghost placed = entry@;
    sorted.insert(at, entry);
    assert(entry_views(sorted@) =~= before.insert(at as int, placed));
}

/// Checks that no name occurs twice among sorted entries.
fn check_names(sorted: &[Qwen35CoverageEntry]) -> (result: Result<(), Qwen35CoverageError>)
    ensures
        match repeated_name(entry_views(sorted@), 0) {
            Some(name) => rejects(result, CoverageFault::DuplicateTensor(name)),
            None => result is Ok,
        },
{
    let length: usize = sorted.len();
    let ghost views = entry_views(sorted@);
    let mut index: usize = 1;
    while index < length
        invariant
            1 <= index,
            length == sorted@.len(),
            views == entry_views(sorted@),
            repeated_name(views, 0) == repeated_name(views, index - 1),
        decreases length - index,
    {
        let name: &str = sorted[index - 1].name.as_str();
        if same_text(name, sorted[index].name.as_str()) {
            return Err(Qwen35CoverageError::DuplicateTensor(name.to_owned()));
        }
        index = index + 1;
    }
    Ok(())
}

/// The contents of tensor metadata.
pub open spec fn tensor_views(metadata: Seq<Qwen35TensorMetadata<'_>>) -> Seq<TensorView> {
    Seq::new(metadata.len(), |k: int| metadata[k]@)
}

/// Validates tensors in order and sorts their entries into an empty vector.
fn gather(metadata: &[Qwen35TensorMetadata<'_>], room: Vec<Qwen35CoverageEntry>) -> (entries: Result<
    Vec<Qwen35CoverageEntry>,
    Qwen35CoverageError,
>)
    requires
        room@.len() == 0,
    ensures
        match first_fault(tensor_views(metadata@), 0) {
            Some(fault) => rejects(entries, fault),
            None => entries matches Ok(sorted) && entry_views(sorted@) == by_name(
                admitted_entries(tensor_views(metadata@)),
            ),
        },
{
    let ghost tensors = tensor_views(metadata@);
    let ghost whole = admitted_entries(tensors);
    let mut sorted: Vec<Qwen35CoverageEntry> = room;
    let mut index: usize = 0;
    assert(entry_views(sorted@) =~= by_name(whole.take(0)));
    while index < metadata.len()
        invariant
            index <= metadata@.len(),
            tensors == tensor_views(metadata@),
            whole == admitted_entries(tensors),
            first_fault(tensors, 0) == first_fault(tensors, index as int),
            index <= EXPECTED_TENSORS,
            entry_views(sorted@) == by_name(whole.take(index as int)),
        decreases metadata@.len() - index,
    {
        if index == EXPECTED_TENSORS {
            return Err(Qwen35CoverageError::TooManyTensors { maximum: EXPECTED_TENSORS });
        }
        assert(tensors[index as int] == metadata@[index as int]@);
        let entry: Qwen35CoverageEntry = validate_entry(metadata[index])?;
        proof {
            let longer = whole.take(index + 1);
            assert(longer.drop_last() =~= whole.take(index as int));
            assert(longer.last() == entry@);
        }
        insert_by_name(&mut sorted, entry);
        index = index + 1;
    }
    assert(whole.take(index as int) =~= whole);
    Ok(sorted)
}

/// An empty vector with room for the pinned entries; `None` where memory is refused.
pub(crate) fn reserved_entries() -> (room: Option<Vec<Qwen35CoverageEntry>>)
    ensures
        room matches Some(empty) ==> empty@.len() == 0,
{
    let mut room: Vec<Qwen35CoverageEntry> = Vec::new();
    match room.try_reserve(EXPECTED_TENSORS) {
        Ok(_) => Some(room),
        Err(_) => None,
    }
}

/// Deterministic coverage and conversion policy for the pinned checkpoint.
#[derive(Clone, Debug, PartialEq, Eq)]
pub struct Qwen35CoverageManifest {
    entries: Vec<Qwen35CoverageEntry>,
    summary: Qwen35CoverageSummary,
    metadata_digest: [u8; 32],
    metadata_record_bytes: u64,
}

impl View for Qwen35CoverageManifest {
    type V = Seq<EntryView>;

    closed spec fn view(&self) -> Seq<EntryView> {
        entry_views(self.entries@)
    }
}

impl Qwen35CoverageManifest {
    /// The entries are the complete pinned policy, and the totals and identity are theirs.
    pub closed spec fn wf(&self) -> bool {
        &&& pinned(self@)
        &&& self.summary@ == frozen_summary()
        &&& self.metadata_digest@ == EXPECTED_METADATA_DIGEST@
        &&& self.metadata_record_bytes == EXPECTED_METADATA_RECORD_BYTES
    }

    /// A well-formed manifest holds the complete pinned policy.
    pub proof fn wf_pinned(&self)
        requires
            self.wf(),
        ensures
            pinned(self@),
    {
    }

    /// Validate official tensor metadata and freeze its complete conversion policy.
    ///
    /// Input order does not affect the result. The method bounds tensor count,
    /// name length, dtype length, and rank before copying, uses fallible reserve
    /// operations for caller-controlled metadata, and checks every coefficient
    /// product and aggregate.
    ///
    /// This constructor does not read tensor payloads. The campaign driver must
    /// pair a successful manifest with its separately verified source
    /// model identity before conversion begins.
    ///
    /// # Errors
    /// Returns [`Qwen35CoverageError`] unless the revision, complete tensor set,
    /// dtype, names, shapes, layer schedule, canonical metadata digest, and
    /// frozen coverage totals all match the campaign-pinned checkpoint.
    pub fn from_metadata(
        pinned_revision: &str,
        metadata: &[Qwen35TensorMetadata<'_>],
    ) -> (manifest: Result<Self, Qwen35CoverageError>)
        ensures
            ({
                ||| pinned_revision@ == QWEN36_27B_COVERAGE_REVISION@ && rejects(
                    manifest,
                    CoverageFault::AllocationFailed,
                )
                ||| match covered(pinned_revision@, tensor_views(metadata@)) {
                    Ok(entries) => manifest matches Ok(made) && made@ == entries && made.wf(),
                    Err(fault) => rejects(manifest, fault),
                }
            }),
    {
        Self::from_metadata_in(pinned_revision, metadata, reserved_entries())
    }

    /// Validates tensor metadata into a vector; `None` where memory for it was refused.
    pub fn from_metadata_in(
        pinned_revision: &str,
        metadata: &[Qwen35TensorMetadata<'_>],
        room: Option<Vec<Qwen35CoverageEntry>>,
    ) -> (manifest: Result<Self, Qwen35CoverageError>)
        requires
            room matches Some(empty) ==> empty@.len() == 0,
        ensures
            if pinned_revision@ == QWEN36_27B_COVERAGE_REVISION@ && room is None {
                rejects(manifest, CoverageFault::AllocationFailed)
            } else {
                match covered(pinned_revision@, tensor_views(metadata@)) {
                    Ok(entries) => manifest matches Ok(made) && made@ == entries && made.wf(),
                    Err(fault) => rejects(manifest, fault),
                }
            },
    {
        if !same_text(pinned_revision, QWEN36_27B_COVERAGE_REVISION) {
            return Err(Qwen35CoverageError::WrongRevision);
        }
        let room: Vec<Qwen35CoverageEntry> = match room {
            None => {
                return Err(Qwen35CoverageError::AllocationFailed);
            },
            Some(empty) => empty,
        };
        let entries: Vec<Qwen35CoverageEntry> = gather(metadata, room)?;
        check_names(entries.as_slice())?;
        if entries.len() != EXPECTED_TENSORS {
            return Err(
                Qwen35CoverageError::MissingTensorMetadata {
                    expected: EXPECTED_TENSORS,
                    actual: entries.len(),
                },
            );
        }
        let records: Vec<u8> = record_bytes(entries.as_slice());
        let nothing: [u8; 0] = [];
        let metadata_digest: [u8; 32] = hash_parts(nothing.as_slice(), records.as_slice());
        let metadata_record_bytes: u64 = records.len() as u64;
        assert(nothing@ + records@ =~= records@);
        if !bytes_equal(metadata_digest.as_slice(), EXPECTED_METADATA_DIGEST.as_slice())
            || metadata_record_bytes != EXPECTED_METADATA_RECORD_BYTES {
            return Err(
                Qwen35CoverageError::MetadataIdentityMismatch {
                    expected_digest: EXPECTED_METADATA_DIGEST,
                    actual_digest: metadata_digest,
                    expected_bytes: EXPECTED_METADATA_RECORD_BYTES,
                    actual_bytes: metadata_record_bytes,
                },
            );
        }
        let summary: Qwen35CoverageSummary = summarize(entries.as_slice())?;
        if !summary_is_expected(summary) {
            return Err(Qwen35CoverageError::CoverageSummaryMismatch);
        }
        proof {
            covered_sets_are_pinned(pinned_revision@, tensor_views(metadata@));
        }
        Ok(Qwen35CoverageManifest { entries, summary, metadata_digest, metadata_record_bytes })
    }

    /// Canonical entries sorted by source tensor name.
    pub fn entries(&self) -> (entries: &[Qwen35CoverageEntry])
        ensures
            entry_views(entries@) == self@,
    {
        self.entries.as_slice()
    }

    /// Frozen totals by source component and conversion disposition.
    pub fn summary(&self) -> (summary: Qwen35CoverageSummary)
        requires
            self.wf(),
        ensures
            summary@ == summary_of(self@),
            summary@ == frozen_summary(),
    {
        self.summary
    }

    /// BLAKE3 digest of sorted `name\tdtype\tcomma-shape\n` records.
    pub fn metadata_digest(&self) -> (digest: &[u8; 32])
        requires
            self.wf(),
        ensures
            digest@ == blake3_digest(metadata_records(self@)),
            digest@ == EXPECTED_METADATA_DIGEST@,
    {
        &self.metadata_digest
    }

    /// Length of the canonical metadata record stream in bytes.
    pub fn metadata_record_bytes(&self) -> (length: u64)
        requires
            self.wf(),
        ensures
            length == metadata_records(self@).len(),
            length == EXPECTED_METADATA_RECORD_BYTES,
    {
        self.metadata_record_bytes
    }

    /// Exact SafeTensors payload bytes required by this all-BF16 source policy.
    ///
    /// Construction has already validated the frozen coefficient totals and
    /// that every source tensor uses two-byte BF16 storage.
    pub fn expected_source_payload_bytes(&self) -> (length: u64)
        requires
            self.wf(),
        ensures
            length == 2 * summary_of(self@).total.coefficients,
            length == 55_562_855_904,
    {
        self.summary.total.coefficients * 2
    }
}

} // verus!
