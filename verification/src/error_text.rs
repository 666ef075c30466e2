//! Diagnostics of the library's errors.

use crate::activation_schema::{ActivationCacheError, ActivationDType, ActivationDigest};
use crate::architecture::{AdapterError, ArchitectureFeature, CapabilityGap};
use crate::conversion::{ConversionError, RunStatus};
use crate::coverage_schedule::Qwen35LanguageLayerKind;
use crate::joint_fit::JointFitError;
use crate::phrase::{listed_bytes, number_text, Phrase};
use crate::qwen35_coverage::{Qwen35CoverageError, QWEN36_27B_COVERAGE_REVISION};
use crate::wire::hex;
use vstd::prelude::*;
use vstd::string::*;

verus! {

/// The name of a storage dtype.
pub open spec fn dtype_name(value: ActivationDType) -> &'static str {
    match value {
        ActivationDType::Float32 => "Float32",
        ActivationDType::Float16 => "Float16",
        ActivationDType::BFloat16 => "BFloat16",
    }
}

fn name_dtype(value: ActivationDType) -> (name: &'static str)
    ensures
        name@ == dtype_name(value)@,
{
    match value {
        ActivationDType::Float32 => "Float32",
        ActivationDType::Float16 => "Float16",
        ActivationDType::BFloat16 => "BFloat16",
    }
}

/// The name of a run status.
pub open spec fn status_name(value: RunStatus) -> &'static str {
    match value {
        RunStatus::Ready => "Ready",
        RunStatus::Running => "Running",
        RunStatus::RetryableFailure => "RetryableFailure",
        RunStatus::TerminalFailure => "TerminalFailure",
        RunStatus::Succeeded => "Succeeded",
    }
}

fn name_status(value: RunStatus) -> (name: &'static str)
    ensures
        name@ == status_name(value)@,
{
    match value {
        RunStatus::Ready => "Ready",
        RunStatus::Running => "Running",
        RunStatus::RetryableFailure => "RetryableFailure",
        RunStatus::TerminalFailure => "TerminalFailure",
        RunStatus::Succeeded => "Succeeded",
    }
}

/// The name of a layer kind.
pub open spec fn layer_kind_name(value: Qwen35LanguageLayerKind) -> &'static str {
    match value {
        Qwen35LanguageLayerKind::DeltaNet => "DeltaNet",
        Qwen35LanguageLayerKind::FullAttention => "FullAttention",
    }
}

fn name_layer_kind(value: Qwen35LanguageLayerKind) -> (name: &'static str)
    ensures
        name@ == layer_kind_name(value)@,
{
    match value {
        Qwen35LanguageLayerKind::DeltaNet => "DeltaNet",
        Qwen35LanguageLayerKind::FullAttention => "FullAttention",
    }
}

/// The name of an architecture feature.
pub open spec fn feature_name(value: ArchitectureFeature) -> &'static str {
    match value {
        ArchitectureFeature::FullAttention => "FullAttention",
        ArchitectureFeature::SlidingWindowAttention => "SlidingWindowAttention",
        ArchitectureFeature::LinearAttention => "LinearAttention",
        ArchitectureFeature::LatentAttention => "LatentAttention",
        ArchitectureFeature::QkNorm => "QkNorm",
        ArchitectureFeature::AttentionOutputGate => "AttentionOutputGate",
        ArchitectureFeature::MixtureOfExperts => "MixtureOfExperts",
        ArchitectureFeature::SharedExpert => "SharedExpert",
        ArchitectureFeature::SharedKvProjection => "SharedKvProjection",
        ArchitectureFeature::PerLayerEmbeddings => "PerLayerEmbeddings",
        ArchitectureFeature::PerLayerAttentionGeometry => "PerLayerAttentionGeometry",
        ArchitectureFeature::CustomRope => "CustomRope",
        ArchitectureFeature::Multimodal => "Multimodal",
    }
}

fn name_feature(value: ArchitectureFeature) -> (name: &'static str)
    ensures
        name@ == feature_name(value)@,
{
    match value {
        ArchitectureFeature::FullAttention => "FullAttention",
        ArchitectureFeature::SlidingWindowAttention => "SlidingWindowAttention",
        ArchitectureFeature::LinearAttention => "LinearAttention",
        ArchitectureFeature::LatentAttention => "LatentAttention",
        ArchitectureFeature::QkNorm => "QkNorm",
        ArchitectureFeature::AttentionOutputGate => "AttentionOutputGate",
        ArchitectureFeature::MixtureOfExperts => "MixtureOfExperts",
        ArchitectureFeature::SharedExpert => "SharedExpert",
        ArchitectureFeature::SharedKvProjection => "SharedKvProjection",
        ArchitectureFeature::PerLayerEmbeddings => "PerLayerEmbeddings",
        ArchitectureFeature::PerLayerAttentionGeometry => "PerLayerAttentionGeometry",
        ArchitectureFeature::CustomRope => "CustomRope",
        ArchitectureFeature::Multimodal => "Multimodal",
    }
}

impl ActivationCacheError {
    /// The diagnostic.
    pub open spec fn text(self) -> Seq<char> {
        match self {
            ActivationCacheError::InvalidCacheMagic { got } => "invalid activation cache magic ["@
                + listed_bytes(got@) + "]"@,
            ActivationCacheError::InvalidCheckpointMagic { got } => "invalid activation checkpoint magic ["@
                + listed_bytes(got@) + "]"@,
            ActivationCacheError::UnsupportedCacheVersion { got } => "unsupported activation cache version "@
                + number_text(got as nat),
            ActivationCacheError::UnsupportedCheckpointVersion { got } => "unsupported activation checkpoint version "@
                + number_text(got as nat),
            ActivationCacheError::NonZeroReservedByte { got } => "activation cache reserved byte is "@
                + number_text(got as nat) + ", expected zero"@,
            ActivationCacheError::InvalidDTypeCode { got } => "invalid activation cache dtype code "@
                + number_text(got as nat),
            ActivationCacheError::TruncatedEncoding { context, needed, remaining } => "activation cache is truncated while reading "@
                + context@ + ": need "@ + number_text(needed as nat) + " bytes, have "@
                + number_text(remaining as nat),
            ActivationCacheError::TrailingBytes { count } => "activation cache has "@
                + number_text(count as nat) + " trailing bytes"@,
            ActivationCacheError::InvalidTensorNameUtf8 => "activation cache tensor name is not valid UTF-8"@,
            ActivationCacheError::ShardCountMismatch { expected, got } => "activation shard count mismatch: expected "@
                + number_text(expected as nat) + ", got "@ + number_text(got as nat),
            ActivationCacheError::ShardIndexMismatch { expected, got } => "activation shard index mismatch: expected "@
                + number_text(expected as nat) + ", got "@ + number_text(got as nat),
            ActivationCacheError::ShardRangeMismatch {
                index,
                expected_start,
                got_start,
                expected_count,
                got_count,
            } => "activation shard "@ + number_text(index as nat) + " range mismatch: expected ["@
                + number_text(expected_start as nat) + ", +"@ + number_text(expected_count as nat)
                + "), got ["@ + number_text(got_start as nat) + ", +"@
                + number_text(got_count as nat) + ")"@,
            ActivationCacheError::ShardLengthMismatch { index, component, expected, got } => "activation shard "@
                + number_text(index as nat) + " "@ + component@ + " length mismatch: expected "@
                + number_text(expected as nat) + ", got "@ + number_text(got as nat),
            ActivationCacheError::NonCanonicalMask { index } => "activation shard "@
                + number_text(index as nat) + " mask has nonzero padding bits"@,
            ActivationCacheError::NonFiniteEncodedValue { index } => "encoded activation value "@
                + number_text(index as nat) + " is not finite"@,
            ActivationCacheError::DigestMismatch { expected, got } => "activation artifact digest mismatch: expected "@
                + hex(expected@) + ", got "@ + hex(got@),
            ActivationCacheError::CheckpointChunkDigestMismatch {
                token_start,
                expected,
                got,
            } => "activation checkpoint chunk at "@ + number_text(token_start as nat)
                + " has digest "@ + hex(expected@) + ", recomputed "@ + hex(got@),
            ActivationCacheError::EncodedSizeLimitExceeded { limit } => "activation cache exceeds the reader limit of "@
                + number_text(limit as nat) + " bytes"@,
            ActivationCacheError::InvalidTensorName => "activation tensor name is invalid"@,
            ActivationCacheError::MissingSourceDigest => "activation source digest must be present"@,
            ActivationCacheError::ZeroDimension { field } => "activation "@ + field@
                + " must be greater than zero"@,
            ActivationCacheError::ArithmeticOverflow { context } => "activation arithmetic overflow while computing "@
                + context@,
            ActivationCacheError::TooManyShards { count } => "activation cache requires "@
                + number_text(count as nat) + " shards, exceeding u32"@,
            ActivationCacheError::EmptyChunk => "activation chunk must contain tokens"@,
            ActivationCacheError::ChunkOutOfBounds { start, count, total } => "activation chunk ["@
                + number_text(start as nat) + ", "@ + number_text(start as nat) + "+"@
                + number_text(count as nat) + ") is outside 0.."@ + number_text(total as nat),
            ActivationCacheError::MaskLengthMismatch { expected, got } => "activation token-mask length mismatch: expected "@
                + number_text(expected as nat) + ", got "@ + number_text(got as nat),
            ActivationCacheError::ValueCountMismatch { expected, got } => "activation value count mismatch: expected "@
                + number_text(expected as nat) + ", got "@ + number_text(got as nat),
            ActivationCacheError::NonFiniteValue { index } => "activation value "@
                + number_text(index as nat) + " is not finite"@,
            ActivationCacheError::DTypeOverflow { index, dtype } => "activation value "@
                + number_text(index as nat) + " overflows storage dtype "@ + dtype_name(dtype)@,
            ActivationCacheError::InvalidBoundary {
                previous,
                boundary,
                chunk_start,
                chunk_end,
            } => "activation sequence end "@ + number_text(boundary as nat) + " after "@
                + number_text(previous as nat) + " is invalid for chunk ["@
                + number_text(chunk_start as nat) + ", "@ + number_text(chunk_end as nat) + ")"@,
            ActivationCacheError::SchemaMismatch { expected, got } => "activation schema mismatch: expected "@
                + hex(expected@) + ", got "@ + hex(got@),
            ActivationCacheError::DuplicateRange { start, end } => "activation range ["@
                + number_text(start as nat) + ", "@ + number_text(end as nat)
                + ") is duplicated"@,
            ActivationCacheError::OverlappingRange {
                start,
                end,
                existing_start,
                existing_end,
            } => "activation range ["@ + number_text(start as nat) + ", "@
                + number_text(end as nat) + ") overlaps ["@ + number_text(existing_start as nat)
                + ", "@ + number_text(existing_end as nat) + ")"@,
            ActivationCacheError::NonCanonicalChunkOrder { previous_start, start } => "activation checkpoint chunk start "@
                + number_text(start as nat) + " does not follow "@
                + number_text(previous_start as nat) + " canonically"@,
            ActivationCacheError::CoveredTokenMismatch { expected, got } => "activation checkpoint covers "@
                + number_text(expected as nat) + " tokens but declares "@
                + number_text(got as nat),
            ActivationCacheError::Gap { expected_start, next_start } => match next_start {
                Some(next) => "activation cache has a gap at "@
                    + number_text(expected_start as nat) + " before range "@
                    + number_text(next as nat),
                None => "activation cache has a trailing gap at "@
                    + number_text(expected_start as nat),
            },
            ActivationCacheError::MissingTerminalBoundary { total_tokens } => "activation sequence ends must terminate at token "@
                + number_text(total_tokens as nat),
            ActivationCacheError::AllocationFailed { bytes } => "could not allocate "@
                + number_text(bytes as nat) + " bytes for activation cache"@,
        }
    }

    /// The diagnostic.
    pub fn message(&self) -> (text: String)
        ensures
            text@ == self.text(),
    {
        match *self {
            ActivationCacheError::InvalidCacheMagic { got } => Phrase::new("invalid activation cache magic [")
                .bytes(got.as_slice())
                .words("]")
                .finish(),
            ActivationCacheError::InvalidCheckpointMagic { got } => Phrase::new("invalid activation checkpoint magic [")
                .bytes(got.as_slice())
                .words("]")
                .finish(),
            ActivationCacheError::UnsupportedCacheVersion { got } => Phrase::new("unsupported activation cache version ")
                .number(got as u64)
                .finish(),
            ActivationCacheError::UnsupportedCheckpointVersion { got } => Phrase::new("unsupported activation checkpoint version ")
                .number(got as u64)
                .finish(),
            ActivationCacheError::NonZeroReservedByte { got } => Phrase::new("activation cache reserved byte is ")
                .number(got as u64)
                .words(", expected zero")
                .finish(),
            ActivationCacheError::InvalidDTypeCode { got } => Phrase::new("invalid activation cache dtype code ")
                .number(got as u64)
                .finish(),
            ActivationCacheError::TruncatedEncoding { context, needed, remaining } => Phrase::new("activation cache is truncated while reading ")
                .words(context)
                .words(": need ")
                .number(needed as u64)
                .words(" bytes, have ")
                .number(remaining as u64)
                .finish(),
            ActivationCacheError::TrailingBytes { count } => Phrase::new("activation cache has ")
                .number(count as u64)
                .words(" trailing bytes")
                .finish(),
            ActivationCacheError::InvalidTensorNameUtf8 => Phrase::new("activation cache tensor name is not valid UTF-8")
                .finish(),
            ActivationCacheError::ShardCountMismatch { expected, got } => Phrase::new("activation shard count mismatch: expected ")
                .number(expected as u64)
                .words(", got ")
                .number(got as u64)
                .finish(),
            ActivationCacheError::ShardIndexMismatch { expected, got } => Phrase::new("activation shard index mismatch: expected ")
                .number(expected as u64)
                .words(", got ")
                .number(got as u64)
                .finish(),
            ActivationCacheError::ShardRangeMismatch {
                index,
                expected_start,
                got_start,
                expected_count,
                got_count,
            } => Phrase::new("activation shard ")
                .number(index as u64)
                .words(" range mismatch: expected [")
                .number(expected_start as u64)
                .words(", +")
                .number(expected_count as u64)
                .words("), got [")
                .number(got_start as u64)
                .words(", +")
                .number(got_count as u64)
                .words(")")
                .finish(),
            ActivationCacheError::ShardLengthMismatch { index, component, expected, got } => Phrase::new("activation shard ")
                .number(index as u64)
                .words(" ")
                .words(component)
                .words(" length mismatch: expected ")
                .number(expected as u64)
                .words(", got ")
                .number(got as u64)
                .finish(),
            ActivationCacheError::NonCanonicalMask { index } => Phrase::new("activation shard ")
                .number(index as u64)
                .words(" mask has nonzero padding bits")
                .finish(),
            ActivationCacheError::NonFiniteEncodedValue { index } => Phrase::new("encoded activation value ")
                .number(index as u64)
                .words(" is not finite")
                .finish(),
            ActivationCacheError::DigestMismatch { expected, got } => Phrase::new("activation artifact digest mismatch: expected ")
                .digest(expected.as_bytes())
                .words(", got ")
                .digest(got.as_bytes())
                .finish(),
            ActivationCacheError::CheckpointChunkDigestMismatch {
                token_start,
                expected,
                got,
            } => Phrase::new("activation checkpoint chunk at ")
                .number(token_start as u64)
                .words(" has digest ")
                .digest(expected.as_bytes())
                .words(", recomputed ")
                .digest(got.as_bytes())
                .finish(),
            ActivationCacheError::EncodedSizeLimitExceeded { limit } => Phrase::new("activation cache exceeds the reader limit of ")
                .number(limit as u64)
                .words(" bytes")
                .finish(),
            ActivationCacheError::InvalidTensorName => Phrase::new("activation tensor name is invalid")
                .finish(),
            ActivationCacheError::MissingSourceDigest => Phrase::new("activation source digest must be present")
                .finish(),
            ActivationCacheError::ZeroDimension { field } => Phrase::new("activation ")
                .words(field)
                .words(" must be greater than zero")
                .finish(),
            ActivationCacheError::ArithmeticOverflow { context } => Phrase::new("activation arithmetic overflow while computing ")
                .words(context)
                .finish(),
            ActivationCacheError::TooManyShards { count } => Phrase::new("activation cache requires ")
                .number(count as u64)
                .words(" shards, exceeding u32")
                .finish(),
            ActivationCacheError::EmptyChunk => Phrase::new("activation chunk must contain tokens")
                .finish(),
            ActivationCacheError::ChunkOutOfBounds { start, count, total } => Phrase::new("activation chunk [")
                .number(start as u64)
                .words(", ")
                .number(start as u64)
                .words("+")
                .number(count as u64)
                .words(") is outside 0..")
                .number(total as u64)
                .finish(),
            ActivationCacheError::MaskLengthMismatch { expected, got } => Phrase::new("activation token-mask length mismatch: expected ")
                .number(expected as u64)
                .words(", got ")
                .number(got as u64)
                .finish(),
            ActivationCacheError::ValueCountMismatch { expected, got } => Phrase::new("activation value count mismatch: expected ")
                .number(expected as u64)
                .words(", got ")
                .number(got as u64)
                .finish(),
            ActivationCacheError::NonFiniteValue { index } => Phrase::new("activation value ")
                .number(index as u64)
                .words(" is not finite")
                .finish(),
            ActivationCacheError::DTypeOverflow { index, dtype } => Phrase::new("activation value ")
                .number(index as u64)
                .words(" overflows storage dtype ")
                .words(name_dtype(dtype))
                .finish(),
            ActivationCacheError::InvalidBoundary {
                previous,
                boundary,
                chunk_start,
                chunk_end,
            } => Phrase::new("activation sequence end ")
                .number(boundary as u64)
                .words(" after ")
                .number(previous as u64)
                .words(" is invalid for chunk [")
                .number(chunk_start as u64)
                .words(", ")
                .number(chunk_end as u64)
                .words(")")
                .finish(),
            ActivationCacheError::SchemaMismatch { expected, got } => Phrase::new("activation schema mismatch: expected ")
                .digest(expected.as_bytes())
                .words(", got ")
                .digest(got.as_bytes())
                .finish(),
            ActivationCacheError::DuplicateRange { start, end } => Phrase::new("activation range [")
                .number(start as u64)
                .words(", ")
                .number(end as u64)
                .words(") is duplicated")
                .finish(),
            ActivationCacheError::OverlappingRange {
                start,
                end,
                existing_start,
                existing_end,
            } => Phrase::new("activation range [")
                .number(start as u64)
                .words(", ")
                .number(end as u64)
                .words(") overlaps [")
                .number(existing_start as u64)
                .words(", ")
                .number(existing_end as u64)
                .words(")")
                .finish(),
            ActivationCacheError::NonCanonicalChunkOrder { previous_start, start } => Phrase::new("activation checkpoint chunk start ")
                .number(start as u64)
                .words(" does not follow ")
                .number(previous_start as u64)
                .words(" canonically")
                .finish(),
            ActivationCacheError::CoveredTokenMismatch { expected, got } => Phrase::new("activation checkpoint covers ")
                .number(expected as u64)
                .words(" tokens but declares ")
                .number(got as u64)
                .finish(),
            ActivationCacheError::Gap { expected_start, next_start } => match next_start {
                Some(next) => Phrase::new("activation cache has a gap at ")
                    .number(expected_start as u64)
                    .words(" before range ")
                    .number(next as u64)
                    .finish(),
                None => Phrase::new("activation cache has a trailing gap at ")
                    .number(expected_start as u64)
                    .finish(),
            },
            ActivationCacheError::MissingTerminalBoundary { total_tokens } => Phrase::new("activation sequence ends must terminate at token ")
                .number(total_tokens as u64)
                .finish(),
            ActivationCacheError::AllocationFailed { bytes } => Phrase::new("could not allocate ")
                .number(bytes as u64)
                .words(" bytes for activation cache")
                .finish(),
        }
    }
}

impl JointFitError {
    /// The diagnostic.
    pub open spec fn text(self) -> Seq<char> {
        match self {
            JointFitError::EmptyWeights => "joint ternary fit requires at least one weight"@,
            JointFitError::InvalidPlaneCount { got } => "joint ternary plane count must be in 1..=3, got "@
                + number_text(got as nat),
            JointFitError::InvalidMaxIterations => "max_iterations must be greater than zero"@,
            JointFitError::InvalidRestartCount => "em_restarts must be greater than zero"@,
            JointFitError::InvalidRidge => "ridge must be finite and greater than zero"@,
            JointFitError::InvalidConditionLimit => "ridge_condition_limit must be finite and greater than one"@,
            JointFitError::NonFiniteWeight { index } => "weight at index "@
                + number_text(index as nat) + " is not finite"@,
            JointFitError::MetricLengthMismatch { expected, got } => "metric length mismatch: expected "@
                + number_text(expected as nat) + ", got "@ + number_text(got as nat),
            JointFitError::InvalidMetric { index } => "diagonal metric at index "@
                + number_text(index as nat) + " is invalid"@,
            JointFitError::ZeroMetric => "metric must contain a positive scored direction"@,
            JointFitError::InvalidScaleCount { got } => "exact assignment requires 1..=3 scales, got "@
                + number_text(got as nat),
            JointFitError::InvalidScale { index } => "assignment scale at index "@
                + number_text(index as nat) + " is invalid"@,
            JointFitError::InvalidDenseMetricDimension => "dense metric dimension must be greater than zero"@,
            JointFitError::DenseMetricLengthMismatch { expected, got } => "dense metric length mismatch: expected "@
                + number_text(expected as nat) + ", got "@ + number_text(got as nat),
            JointFitError::NonFiniteDenseMetric { row, col } => "dense metric entry ("@
                + number_text(row as nat) + ", "@ + number_text(col as nat) + ") is not finite"@,
            JointFitError::AsymmetricDenseMetric { row, col } => "dense metric is asymmetric at ("@
                + number_text(row as nat) + ", "@ + number_text(col as nat) + ")"@,
            JointFitError::NonPositiveSemidefiniteMetric { pivot } => "dense metric is not positive semidefinite at pivot "@
                + number_text(pivot as nat),
            JointFitError::InvalidKfacOutputWeight => "K-FAC output curvature must be finite and positive"@,
            JointFitError::DenseMetricDimensionMismatch { expected, got } => "dense metric dimension mismatch: expected "@
                + number_text(expected as nat) + ", got "@ + number_text(got as nat),
            JointFitError::ScaleSolveFailed => "ridge scale solve failed"@,
            JointFitError::NonFiniteObjective => "reconstruction objective is not finite"@,
            JointFitError::ScaleNotRepresentable { plane } => "scale for plane "@
                + number_text(plane as nat) + " is not deployment-representable"@,
        }
    }

    /// The diagnostic.
    pub fn message(&self) -> (text: String)
        ensures
            text@ == self.text(),
    {
        match *self {
            JointFitError::EmptyWeights => Phrase::new("joint ternary fit requires at least one weight")
                .finish(),
            JointFitError::InvalidPlaneCount { got } => Phrase::new("joint ternary plane count must be in 1..=3, got ")
                .number(got as u64)
                .finish(),
            JointFitError::InvalidMaxIterations => Phrase::new("max_iterations must be greater than zero")
                .finish(),
            JointFitError::InvalidRestartCount => Phrase::new("em_restarts must be greater than zero")
                .finish(),
            JointFitError::InvalidRidge => Phrase::new("ridge must be finite and greater than zero")
                .finish(),
            JointFitError::InvalidConditionLimit => Phrase::new("ridge_condition_limit must be finite and greater than one")
                .finish(),
            JointFitError::NonFiniteWeight { index } => Phrase::new("weight at index ")
                .number(index as u64)
                .words(" is not finite")
                .finish(),
            JointFitError::MetricLengthMismatch { expected, got } => Phrase::new("metric length mismatch: expected ")
                .number(expected as u64)
                .words(", got ")
                .number(got as u64)
                .finish(),
            JointFitError::InvalidMetric { index } => Phrase::new("diagonal metric at index ")
                .number(index as u64)
                .words(" is invalid")
                .finish(),
            JointFitError::ZeroMetric => Phrase::new("metric must contain a positive scored direction")
                .finish(),
            JointFitError::InvalidScaleCount { got } => Phrase::new("exact assignment requires 1..=3 scales, got ")
                .number(got as u64)
                .finish(),
            JointFitError::InvalidScale { index } => Phrase::new("assignment scale at index ")
                .number(index as u64)
                .words(" is invalid")
                .finish(),
            JointFitError::InvalidDenseMetricDimension => Phrase::new("dense metric dimension must be greater than zero")
                .finish(),
            JointFitError::DenseMetricLengthMismatch { expected, got } => Phrase::new("dense metric length mismatch: expected ")
                .number(expected as u64)
                .words(", got ")
                .number(got as u64)
                .finish(),
            JointFitError::NonFiniteDenseMetric { row, col } => Phrase::new("dense metric entry (")
                .number(row as u64)
                .words(", ")
                .number(col as u64)
                .words(") is not finite")
                .finish(),
            JointFitError::AsymmetricDenseMetric { row, col } => Phrase::new("dense metric is asymmetric at (")
                .number(row as u64)
                .words(", ")
                .number(col as u64)
                .words(")")
                .finish(),
            JointFitError::NonPositiveSemidefiniteMetric { pivot } => Phrase::new("dense metric is not positive semidefinite at pivot ")
                .number(pivot as u64)
                .finish(),
            JointFitError::InvalidKfacOutputWeight => Phrase::new("K-FAC output curvature must be finite and positive")
                .finish(),
            JointFitError::DenseMetricDimensionMismatch { expected, got } => Phrase::new("dense metric dimension mismatch: expected ")
                .number(expected as u64)
                .words(", got ")
                .number(got as u64)
                .finish(),
            JointFitError::ScaleSolveFailed => Phrase::new("ridge scale solve failed").finish(),
            JointFitError::NonFiniteObjective => Phrase::new("reconstruction objective is not finite")
                .finish(),
            JointFitError::ScaleNotRepresentable { plane } => Phrase::new("scale for plane ")
                .number(plane as u64)
                .words(" is not deployment-representable")
                .finish(),
        }
    }
}

impl ConversionError {
    /// The diagnostic.
    pub open spec fn text(self) -> Seq<char> {
        match self {
            ConversionError::InvalidTransition { status, operation } => "cannot "@ + operation@
                + " while conversion is "@ + status_name(status)@,
            ConversionError::AttemptOverflow => "conversion attempt counter overflowed"@,
            ConversionError::EmptyFailureCode => "conversion failure code is empty"@,
            ConversionError::FieldTooLong => "conversion-state field exceeds u32 capacity"@,
            ConversionError::BadMagic => "conversion state has bad magic"@,
            ConversionError::UnsupportedVersion(version) => "unsupported conversion-state version "@
                + number_text(version as nat),
            ConversionError::Truncated => "conversion state is truncated"@,
            ConversionError::ChecksumMismatch => "conversion-state checksum mismatch"@,
            ConversionError::TrailingBytes(count) => "conversion state has "@
                + number_text(count as nat) + " trailing bytes"@,
            ConversionError::InvalidStage(stage) => "invalid conversion stage "@
                + number_text(stage as nat),
            ConversionError::InvalidStatus(status) => "invalid conversion status "@
                + number_text(status as nat),
            ConversionError::InvalidUtf8 => "conversion state contains invalid UTF-8"@,
            ConversionError::InvalidState(reason) => "invalid conversion state: "@ + reason@,
        }
    }

    /// The diagnostic.
    pub fn message(&self) -> (text: String)
        ensures
            text@ == self.text(),
    {
        match *self {
            ConversionError::InvalidTransition { status, operation } => Phrase::new("cannot ")
                .words(operation)
                .words(" while conversion is ")
                .words(name_status(status))
                .finish(),
            ConversionError::AttemptOverflow => Phrase::new("conversion attempt counter overflowed")
                .finish(),
            ConversionError::EmptyFailureCode => Phrase::new("conversion failure code is empty")
                .finish(),
            ConversionError::FieldTooLong => Phrase::new("conversion-state field exceeds u32 capacity")
                .finish(),
            ConversionError::BadMagic => Phrase::new("conversion state has bad magic").finish(),
            ConversionError::UnsupportedVersion(version) => Phrase::new("unsupported conversion-state version ")
                .number(version as u64)
                .finish(),
            ConversionError::Truncated => Phrase::new("conversion state is truncated").finish(),
            ConversionError::ChecksumMismatch => Phrase::new("conversion-state checksum mismatch")
                .finish(),
            ConversionError::TrailingBytes(count) => Phrase::new("conversion state has ")
                .number(count as u64)
                .words(" trailing bytes")
                .finish(),
            ConversionError::InvalidStage(stage) => Phrase::new("invalid conversion stage ")
                .number(stage as u64)
                .finish(),
            ConversionError::InvalidStatus(status) => Phrase::new("invalid conversion status ")
                .number(status as u64)
                .finish(),
            ConversionError::InvalidUtf8 => Phrase::new("conversion state contains invalid UTF-8")
                .finish(),
            ConversionError::InvalidState(reason) => Phrase::new("invalid conversion state: ")
                .words(reason)
                .finish(),
        }
    }
}

impl AdapterError {
    /// The diagnostic.
    pub open spec fn text(self) -> Seq<char> {
        match self {
            AdapterError::EmptyArchitecture => "architecture identifier is empty"@,
            AdapterError::EmptyTensorName => "tensor name is empty"@,
            AdapterError::EmptyTensorShape(name) => "tensor `"@ + name@ + "` has no dimensions"@,
            AdapterError::ZeroTensorDimension { tensor, dimension } => "tensor `"@ + tensor@
                + "` has zero-sized dimension "@ + number_text(dimension as nat),
            AdapterError::UnrecognizedTensor(name) => "architecture adapter does not recognize tensor `"@
                + name@ + "`"@,
        }
    }

    /// The diagnostic.
    pub fn message(&self) -> (text: String)
        ensures
            text@ == self.text(),
    {
        match self {
            AdapterError::EmptyArchitecture => Phrase::new("architecture identifier is empty")
                .finish(),
            AdapterError::EmptyTensorName => Phrase::new("tensor name is empty").finish(),
            AdapterError::EmptyTensorShape(name) => Phrase::new("tensor `")
                .words(name.as_str())
                .words("` has no dimensions")
                .finish(),
            AdapterError::ZeroTensorDimension { tensor, dimension } => Phrase::new("tensor `")
                .words(tensor.as_str())
                .words("` has zero-sized dimension ")
                .number(*dimension as u64)
                .finish(),
            AdapterError::UnrecognizedTensor(name) => Phrase::new("architecture adapter does not recognize tensor `")
                .words(name.as_str())
                .words("`")
                .finish(),
        }
    }
}

impl Qwen35CoverageError {
    /// The diagnostic.
    pub open spec fn text(self) -> Seq<char> {
        match self {
            Qwen35CoverageError::WrongRevision => "revision is not pinned Qwen3.6-27B revision "@
                + QWEN36_27B_COVERAGE_REVISION@,
            Qwen35CoverageError::TooManyTensors { maximum } => "tensor metadata exceeds maximum count "@
                + number_text(maximum as nat),
            Qwen35CoverageError::EmptyTensorName => "tensor name is empty"@,
            Qwen35CoverageError::MetadataFieldTooLong { field, maximum } => field@
                + " exceeds maximum length "@ + number_text(maximum as nat),
            Qwen35CoverageError::UnsupportedDtype(tensor) => "tensor `"@ + tensor@
                + "` does not use exact BF16 source dtype; pre-quantized exports are not admissible"@,
            Qwen35CoverageError::UnknownTensor(tensor) => "tensor `"@ + tensor@
                + "` is not in the pinned checkpoint contract"@,
            Qwen35CoverageError::WrongLayerKind { tensor, layer, expected } => "tensor `"@
                + tensor@ + "` conflicts with layer "@ + number_text(layer as nat) + " kind "@
                + layer_kind_name(expected)@,
            Qwen35CoverageError::WrongRank { tensor, expected, actual } => "tensor `"@ + tensor@
                + "` has rank "@ + number_text(actual as nat) + ", expected rank "@
                + number_text(expected as nat),
            Qwen35CoverageError::ZeroDimension { tensor, dimension } => "tensor `"@ + tensor@
                + "` has zero-sized dimension "@ + number_text(dimension as nat),
            Qwen35CoverageError::CoefficientOverflow(tensor) => "tensor `"@ + tensor@
                + "` coefficient count overflows u64"@,
            Qwen35CoverageError::WrongShape(tensor) => "tensor `"@ + tensor@
                + "` shape differs from pinned metadata"@,
            Qwen35CoverageError::DuplicateTensor(tensor) => "tensor `"@ + tensor@
                + "` appears more than once"@,
            Qwen35CoverageError::MissingTensorMetadata { expected, actual } => "incomplete tensor metadata: expected "@
                + number_text(expected as nat) + ", got "@ + number_text(actual as nat),
            Qwen35CoverageError::MetadataIdentityMismatch {
                expected_digest,
                actual_digest,
                expected_bytes,
                actual_bytes,
            } => "canonical metadata identity mismatch: expected "@
                + number_text(expected_bytes as nat) + " bytes and digest ["@
                + listed_bytes(expected_digest@) + "], got "@ + number_text(actual_bytes as nat)
                + " bytes and digest ["@ + listed_bytes(actual_digest@) + "]"@,
            Qwen35CoverageError::CoverageSummaryMismatch => "coverage totals differ from frozen Qwen3.6-27B policy"@,
            Qwen35CoverageError::UnsupportedCanonicalPolicyVersion(version) => "unsupported canonical Qwen3.6 coverage policy version "@
                + number_text(version as nat),
            Qwen35CoverageError::MalformedCanonicalPolicy(field) => "malformed canonical Qwen3.6 coverage policy "@
                + field@,
            Qwen35CoverageError::NonCanonicalPolicy => "Qwen3.6 coverage policy is not canonically encoded"@,
            Qwen35CoverageError::SummaryOverflow => "coverage aggregate overflows u64"@,
            Qwen35CoverageError::AllocationFailed => "bounded metadata allocation failed"@,
        }
    }

    /// The diagnostic.
    pub fn message(&self) -> (text: String)
        ensures
            text@ == self.text(),
    {
        match self {
            Qwen35CoverageError::WrongRevision => Phrase::new("revision is not pinned Qwen3.6-27B revision ")
                .words(QWEN36_27B_COVERAGE_REVISION)
                .finish(),
            Qwen35CoverageError::TooManyTensors { maximum } => Phrase::new("tensor metadata exceeds maximum count ")
                .number(*maximum as u64)
                .finish(),
            Qwen35CoverageError::EmptyTensorName => Phrase::new("tensor name is empty").finish(),
            Qwen35CoverageError::MetadataFieldTooLong { field, maximum } => Phrase::new(field)
                .words(" exceeds maximum length ")
                .number(*maximum as u64)
                .finish(),
            Qwen35CoverageError::UnsupportedDtype(tensor) => Phrase::new("tensor `")
                .words(tensor.as_str())
                .words("` does not use exact BF16 source dtype; pre-quantized exports are not admissible")
                .finish(),
            Qwen35CoverageError::UnknownTensor(tensor) => Phrase::new("tensor `")
                .words(tensor.as_str())
                .words("` is not in the pinned checkpoint contract")
                .finish(),
            Qwen35CoverageError::WrongLayerKind { tensor, layer, expected } => Phrase::new("tensor `")
                .words(tensor.as_str())
                .words("` conflicts with layer ")
                .number(*layer as u64)
                .words(" kind ")
                .words(name_layer_kind(*expected))
                .finish(),
            Qwen35CoverageError::WrongRank { tensor, expected, actual } => Phrase::new("tensor `")
                .words(tensor.as_str())
                .words("` has rank ")
                .number(*actual as u64)
                .words(", expected rank ")
                .number(*expected as u64)
                .finish(),
            Qwen35CoverageError::ZeroDimension { tensor, dimension } => Phrase::new("tensor `")
                .words(tensor.as_str())
                .words("` has zero-sized dimension ")
                .number(*dimension as u64)
                .finish(),
            Qwen35CoverageError::CoefficientOverflow(tensor) => Phrase::new("tensor `")
                .words(tensor.as_str())
                .words("` coefficient count overflows u64")
                .finish(),
            Qwen35CoverageError::WrongShape(tensor) => Phrase::new("tensor `")
                .words(tensor.as_str())
                .words("` shape differs from pinned metadata")
                .finish(),
            Qwen35CoverageError::DuplicateTensor(tensor) => Phrase::new("tensor `")
                .words(tensor.as_str())
                .words("` appears more than once")
                .finish(),
            Qwen35CoverageError::MissingTensorMetadata { expected, actual } => Phrase::new("incomplete tensor metadata: expected ")
                .number(*expected as u64)
                .words(", got ")
                .number(*actual as u64)
                .finish(),
            Qwen35CoverageError::MetadataIdentityMismatch {
                expected_digest,
                actual_digest,
                expected_bytes,
                actual_bytes,
            } => Phrase::new("canonical metadata identity mismatch: expected ")
                .number(*expected_bytes as u64)
                .words(" bytes and digest [")
                .bytes(expected_digest.as_slice())
                .words("], got ")
                .number(*actual_bytes as u64)
                .words(" bytes and digest [")
                .bytes(actual_digest.as_slice())
                .words("]")
                .finish(),
            Qwen35CoverageError::CoverageSummaryMismatch => Phrase::new("coverage totals differ from frozen Qwen3.6-27B policy")
                .finish(),
            Qwen35CoverageError::UnsupportedCanonicalPolicyVersion(version) => Phrase::new("unsupported canonical Qwen3.6 coverage policy version ")
                .number(*version as u64)
                .finish(),
            Qwen35CoverageError::MalformedCanonicalPolicy(field) => Phrase::new("malformed canonical Qwen3.6 coverage policy ")
                .words(field)
                .finish(),
            Qwen35CoverageError::NonCanonicalPolicy => Phrase::new("Qwen3.6 coverage policy is not canonically encoded")
                .finish(),
            Qwen35CoverageError::SummaryOverflow => Phrase::new("coverage aggregate overflows u64")
                .finish(),
            Qwen35CoverageError::AllocationFailed => Phrase::new("bounded metadata allocation failed")
                .finish(),
        }
    }
}

/// Feature names separated by commas.
pub open spec fn listed_features(features: Seq<ArchitectureFeature>) -> Seq<char>
    decreases features.len(),
{
    if features.len() == 0 {
        Seq::empty()
    } else if features.len() == 1 {
        feature_name(features[0])@
    } else {
        listed_features(features.drop_last()) + ", "@ + feature_name(features.last())@
    }
}

impl CapabilityGap {
    /// The diagnostic.
    pub fn message(&self) -> (text: String)
        ensures
            text@ == "architecture `"@ + self@.architecture + "` requires unsupported features: ["@
                + listed_features(self@.features) + "]"@,
    {
        let missing: &[ArchitectureFeature] = self.missing();
        let mut phrase: Phrase = Phrase::new("architecture `").words(self.architecture()).words(
            "` requires unsupported features: [",
        );
        let ghost start = phrase@;
        let mut index: usize = 0;
        assert(phrase@ =~= start + listed_features(missing@.take(0)));
        while index < missing.len()
            invariant
                index <= missing@.len(),
                phrase@ == start + listed_features(missing@.take(index as int)),
            decreases missing@.len() - index,
        {
            if index != 0 {
                phrase = phrase.words(", ");
            }
            phrase = phrase.words(name_feature(missing[index]));
            proof {
                let part = missing@.take(index as int);
                let longer = missing@.take(index + 1);
                assert(longer.drop_last() =~= part);
                assert(longer.last() == missing@[index as int]);
                assert(phrase@ =~= start + listed_features(longer));
            }
            index = index + 1;
        }
        assert(missing@.take(index as int) =~= missing@);
        phrase.words("]").finish()
    }
}

impl ActivationDigest {
    /// The digest in hexadecimal.
    pub fn to_text(&self) -> (text: String)
        ensures
            text@ == hex(self@),
    {
        proof {
            reveal_strlit("");
        }
        let text: String = Phrase::new("").digest(self.as_bytes()).finish();
        assert(""@ + hex(self@) =~= hex(self@));
        text
    }
}

} // verus!
