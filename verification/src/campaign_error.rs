//! Failures of campaign records.

use crate::campaign_provenance::PackageId;
use vstd::prelude::*;

verus! {

/// Metric used as one axis of campaign Pareto dominance.
#[derive(Clone, Copy, Debug, PartialEq, Eq, Hash, Structural)]
#[non_exhaustive]
pub enum CampaignObjective {
    /// Minimize exact serialized inference-artifact bytes.
    PhysicalBytes,
    /// Minimize the exact logical-trit ratio per source weight.
    LogicalBpw,
    /// Minimize held-out perplexity.
    Perplexity,
    /// Minimize source-vs-converted reconstruction mean squared error.
    ReconstructionMse,
    /// Maximize a pinned end-task score.
    TaskScore,
    /// Maximize measured decode throughput.
    TokensPerSecond,
    /// Minimize peak resident device memory during inference.
    PeakVramBytes,
}

/// Why campaign provenance or measurements were rejected.
#[derive(Clone, Copy, Debug, PartialEq, Eq)]
#[non_exhaustive]
pub enum CampaignError {
    /// Required string field was empty.
    EmptyField(&'static str),
    /// String field exceeded canonical u32 length.
    FieldTooLong(&'static str),
    /// Required numeric field was zero.
    ZeroValue(&'static str),
    /// Metric violated its finite, sign, or non-zero constraint.
    InvalidMetric(&'static str),
    /// A physical-size relationship was structurally invalid.
    InvalidPhysicalSize(&'static str),
    /// Exact physical component addition exceeded `u64`.
    PhysicalSizeOverflow(&'static str),
    /// Serialized components did not sum to the measured package length.
    PhysicalPackageSizeMismatch {
        /// Exact byte count obtained by measuring the package.
        measured_bytes: u64,
        /// Exact byte count obtained by checked component addition.
        component_bytes: u64,
    },
    /// The number of per-tensor runtime receipts differed from the opened package.
    RuntimeAllocationReceiptCountMismatch {
        /// Tensor count in the canonical package.
        expected: usize,
        /// Number of supplied resident receipts.
        supplied: usize,
    },
    /// A resident runtime's checked allocation ledger differed from one opened tensor.
    RuntimeAllocationMismatch {
        /// Tensor ordinal in canonical package order.
        tensor_index: usize,
        /// First canonical component that disagreed.
        component: &'static str,
        /// Component value rederived from the package.
        expected: u64,
        /// Component value reported by the resident runtime handle.
        supplied: u64,
    },
    /// A remeasured or point-associated package differed from the expected package.
    PackageMeasurementMismatch {
        /// Expected exact package identity.
        expected_id: PackageId,
        /// Actual exact package identity.
        actual_id: PackageId,
        /// Expected exact package length.
        expected_bytes: u64,
        /// Actual exact package length.
        actual_bytes: u64,
    },
    /// A legacy exact metric disagreed with an attached physical report.
    PhysicalMetricMismatch(&'static str),
    /// Point did not use the ledger's pinned comparison identity.
    ProvenanceMismatch(&'static str),
    /// Exact package bytes were already present in the ledger.
    DuplicatePackage(PackageId),
    /// Pareto selection requested no objectives.
    EmptyObjectives,
    /// Pareto selection repeated an objective.
    DuplicateObjective(CampaignObjective),
    /// Point lacked a requested optional measurement.
    MissingObjective {
        /// Exact package missing the metric.
        package_id: PackageId,
        /// Requested metric.
        objective: CampaignObjective,
    },
    /// Canonical campaign record exceeded a u32 count or embedded length.
    RecordTooLarge(&'static str),
}

} // verus!
