//! Verified logic of additive-ternary post-training quantization.
//!
//! Every floating-point quantity that takes part in a decision is held as its
//! IEEE 754 bit pattern, so that order, finiteness and exact sums are integer
//! facts.

pub mod activation_builder;
pub mod activation_cache;
pub mod activation_checkpoint;
pub mod activation_chunk;
pub mod activation_content;
pub mod activation_content_laws;
pub mod activation_decode;
pub mod activation_laws;
pub mod activation_manifest;
pub mod activation_rounding_laws;
pub mod activation_scalar;
pub mod activation_scalar_laws;
pub mod activation_schema;
pub mod allocation_cost_laws;
pub mod allocation_result_laws;
pub mod allocator;
pub mod allocator_laws;
pub mod architecture;
pub mod campaign;
pub mod campaign_error;
pub mod campaign_laws;
pub mod campaign_package;
pub mod campaign_provenance;
pub mod campaign_record_laws;
pub mod campaign_size;
pub mod conversion;
pub mod conversion_laws;
pub mod coverage_fault_laws;
pub mod coverage_laws;
pub mod coverage_policy;
pub mod coverage_schedule;
pub mod coverage_shape_laws;
pub mod error_text;
pub mod exact;
pub mod exact_laws;
pub mod float_bits;
pub mod hashing;
pub mod joint_fit;
pub mod joint_fit_laws;
pub mod ledger;
pub mod packed;
pub mod packed_laws;
pub mod pareto;
pub mod phrase;
pub mod physical;
pub mod plane_model;
pub mod qwen35_coverage;
pub mod ranked;
pub mod record_text;
pub mod regular;
pub mod regular_index;
pub mod regular_model;
pub mod regular_optimum;
pub mod tensor_plan;
pub mod tensor_plan_laws;
pub mod ternary;
pub mod ternary_laws;
pub mod text;
pub mod uniform;
pub mod water_filling;
pub mod water_filling_laws;
pub mod wire;
pub mod wire_laws;

pub use activation_builder::ActivationCacheBuilder;
pub use activation_cache::{ActivationCache, ActivationShard};
pub use activation_chunk::ActivationChunk;
pub use activation_content::ActivationByteLedger;
pub use activation_decode::BoundedInput;
pub use activation_schema::{
    ActivationCacheError, ActivationCacheSpec, ActivationDType, ActivationDigest,
};
pub use allocator::allocate_nested_profiles;
pub use architecture::{
    AdapterError, ArchitectureAdapter, ArchitectureFeature, ArchitectureRequirements,
    CapabilityGap, CapabilitySet, TensorDescriptor, TensorDisposition, TensorRole,
};
pub use campaign::{CampaignLedger, CampaignMetrics, CampaignPoint};
pub use campaign_error::{CampaignError, CampaignObjective};
pub use campaign_provenance::{
    CalibrationId, CalibrationProvenance, CampaignId, EvaluationId, EvaluationProvenance, ModelId,
    PackageId, RecipeId, RecipeProvenance,
};
pub use campaign_size::{
    ExactMillibpw, LogicalTritCount, LogicalTritRate, MeasuredPackage, PhysicalSizeReport,
    ResidentSizeComponents, SerializedSizeComponents,
};
pub use conversion::{
    ConversionError, ConversionRun, ConversionStage, RunStatus, StageAttempt, StageFailure,
    StageReceipt, CONVERSION_STATE_MAGIC, CONVERSION_STATE_VERSION,
};
pub use coverage_schedule::{Qwen35LanguageLayerKind, Qwen35TensorRole, Qwen35TensorScope};
pub use joint_fit::{
    JointFitConfig, JointFitError, JointFitRestartReceipt, JointFitStartKind,
    JointFitUpdatePhase, JointFitUpdateReceipt, ScalePrecision, ScaleSolveReceipt,
    ScaleSolveTelemetry,
};
pub use physical::{
    ByteDelta, GroupCandidates, NestedProfileAllocation, NestedProfileBudgets, PhysicalAllocError,
    PhysicalBytes, PlaneCandidate, ProfileAllocation, ProfileBudget, SaltV2Profile,
};
pub use qwen35_coverage::{
    Qwen35CoverageDisposition, Qwen35CoverageEntry, Qwen35CoverageError, Qwen35CoverageManifest,
    Qwen35CoverageSummary, Qwen35CoverageTotals, Qwen35SourceDtype, Qwen35TensorMetadata,
    QWEN36_27B_COVERAGE_REVISION,
};
pub use tensor_plan::{QuantError, ScaleGroup};
pub use water_filling::{AllocError, Allocation, PlaneFilling};
