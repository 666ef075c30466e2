//! Diagnostics of campaign and allocation errors.
//!
//! Floating-point values and package identities are shown by their owners; a diagnostic takes
//! their texts.

use crate::campaign_error::{CampaignError, CampaignObjective};
use crate::campaign_provenance::PackageId;
use crate::phrase::{number_text, Phrase};
use crate::physical::{PhysicalAllocError, SaltV2Profile};
use crate::tensor_plan::QuantError;
use crate::uniform::UniformProfileAllocError;
use crate::water_filling::AllocError;
use vstd::prelude::*;
use vstd::string::*;

verus! {

/// The name of an objective.
pub open spec fn objective_name(value: CampaignObjective) -> &'static str {
    match value {
        CampaignObjective::PhysicalBytes => "PhysicalBytes",
        CampaignObjective::LogicalBpw => "LogicalBpw",
        CampaignObjective::Perplexity => "Perplexity",
        CampaignObjective::ReconstructionMse => "ReconstructionMse",
        CampaignObjective::TaskScore => "TaskScore",
        CampaignObjective::TokensPerSecond => "TokensPerSecond",
        CampaignObjective::PeakVramBytes => "PeakVramBytes",
    }
}

fn name_objective(value: CampaignObjective) -> (name: &'static str)
    ensures
        name@ == objective_name(value)@,
{
    match value {
        CampaignObjective::PhysicalBytes => "PhysicalBytes",
        CampaignObjective::LogicalBpw => "LogicalBpw",
        CampaignObjective::Perplexity => "Perplexity",
        CampaignObjective::ReconstructionMse => "ReconstructionMse",
        CampaignObjective::TaskScore => "TaskScore",
        CampaignObjective::TokensPerSecond => "TokensPerSecond",
        CampaignObjective::PeakVramBytes => "PeakVramBytes",
    }
}

/// The name of a profile.
pub open spec fn profile_name(value: SaltV2Profile) -> &'static str {
    match value {
        SaltV2Profile::CompactV1 => "CompactV1",
        SaltV2Profile::NearLosslessV1 => "NearLosslessV1",
    }
}

fn name_profile(value: SaltV2Profile) -> (name: &'static str)
    ensures
        name@ == profile_name(value)@,
{
    match value {
        SaltV2Profile::CompactV1 => "CompactV1",
        SaltV2Profile::NearLosslessV1 => "NearLosslessV1",
    }
}

impl CampaignError {
    /// The diagnostic, given the texts of the package identities that it names.
    pub open spec fn text(self, first_id: &str, second_id: &str) -> Seq<char> {
        match self {
            CampaignError::EmptyField(field) => "campaign field `"@ + field@ + "` is empty"@,
            CampaignError::FieldTooLong(field) => "campaign field `"@ + field@
                + "` exceeds u32 capacity"@,
            CampaignError::ZeroValue(field) => "campaign field `"@ + field@ + "` must be non-zero"@,
            CampaignError::InvalidMetric(metric) => "campaign metric `"@ + metric@
                + "` is invalid"@,
            CampaignError::InvalidPhysicalSize(reason) => "campaign physical size is invalid: "@
                + reason@,
            CampaignError::PhysicalSizeOverflow(field) => "campaign physical size `"@ + field@
                + "` exceeds u64 capacity"@,
            CampaignError::PhysicalPackageSizeMismatch { measured_bytes, component_bytes } => "physical components total "@
                + number_text(component_bytes as nat) + " bytes, measured package is "@
                + number_text(measured_bytes as nat) + " bytes"@,
            CampaignError::RuntimeAllocationReceiptCountMismatch { expected, supplied } => "runtime allocation receipt count is "@
                + number_text(supplied as nat) + ", package contains "@
                + number_text(expected as nat) + " tensors"@,
            CampaignError::RuntimeAllocationMismatch {
                tensor_index,
                component,
                expected,
                supplied,
            } => "tensor "@ + number_text(tensor_index as nat)
                + " runtime allocation receipt has "@ + component@ + "="@
                + number_text(supplied as nat) + ", package-derived value is "@
                + number_text(expected as nat),
            CampaignError::PackageMeasurementMismatch { expected_bytes, actual_bytes, .. } => "package measurement changed from `"@
                + first_id@ + "` ("@ + number_text(expected_bytes as nat) + " bytes) to `"@
                + second_id@ + "` ("@ + number_text(actual_bytes as nat) + " bytes)"@,
            CampaignError::PhysicalMetricMismatch(metric) => "campaign physical report disagrees with metric `"@
                + metric@ + "`"@,
            CampaignError::ProvenanceMismatch(kind) => "campaign point has mismatched "@ + kind@
                + " provenance"@,
            CampaignError::DuplicatePackage(_) => "duplicate campaign package `"@ + first_id@
                + "`"@,
            CampaignError::EmptyObjectives => "campaign Pareto objectives are empty"@,
            CampaignError::DuplicateObjective(objective) => "duplicate campaign objective "@
                + objective_name(objective)@,
            CampaignError::MissingObjective { objective, .. } => "campaign package `"@ + first_id@
                + "` lacks objective "@ + objective_name(objective)@,
            CampaignError::RecordTooLarge(field) => "campaign record `"@ + field@
                + "` exceeds canonical capacity"@,
        }
    }

    /// The diagnostic, given the texts of the package identities that it names.
    pub fn message(&self, first_id: &str, second_id: &str) -> (text: String)
        ensures
            text@ == self.text(first_id, second_id),
    {
        match *self {
            CampaignError::EmptyField(field) => Phrase::new("campaign field `")
                .words(field)
                .words("` is empty")
                .finish(),
            CampaignError::FieldTooLong(field) => Phrase::new("campaign field `")
                .words(field)
                .words("` exceeds u32 capacity")
                .finish(),
            CampaignError::ZeroValue(field) => Phrase::new("campaign field `")
                .words(field)
                .words("` must be non-zero")
                .finish(),
            CampaignError::InvalidMetric(metric) => Phrase::new("campaign metric `")
                .words(metric)
                .words("` is invalid")
                .finish(),
            CampaignError::InvalidPhysicalSize(reason) => Phrase::new("campaign physical size is invalid: ")
                .words(reason)
                .finish(),
            CampaignError::PhysicalSizeOverflow(field) => Phrase::new("campaign physical size `")
                .words(field)
                .words("` exceeds u64 capacity")
                .finish(),
            CampaignError::PhysicalPackageSizeMismatch { measured_bytes, component_bytes } => Phrase::new("physical components total ")
                .number(component_bytes as u64)
                .words(" bytes, measured package is ")
                .number(measured_bytes as u64)
                .words(" bytes")
                .finish(),
            CampaignError::RuntimeAllocationReceiptCountMismatch { expected, supplied } => Phrase::new("runtime allocation receipt count is ")
                .number(supplied as u64)
                .words(", package contains ")
                .number(expected as u64)
                .words(" tensors")
                .finish(),
            CampaignError::RuntimeAllocationMismatch {
                tensor_index,
                component,
                expected,
                supplied,
            } => Phrase::new("tensor ")
                .number(tensor_index as u64)
                .words(" runtime allocation receipt has ")
                .words(component)
                .words("=")
                .number(supplied as u64)
                .words(", package-derived value is ")
                .number(expected as u64)
                .finish(),
            CampaignError::PackageMeasurementMismatch { expected_bytes, actual_bytes, .. } => Phrase::new("package measurement changed from `")
                .words(first_id)
                .words("` (")
                .number(expected_bytes as u64)
                .words(" bytes) to `")
                .words(second_id)
                .words("` (")
                .number(actual_bytes as u64)
                .words(" bytes)")
                .finish(),
            CampaignError::PhysicalMetricMismatch(metric) => Phrase::new("campaign physical report disagrees with metric `")
                .words(metric)
                .words("`")
                .finish(),
            CampaignError::ProvenanceMismatch(kind) => Phrase::new("campaign point has mismatched ")
                .words(kind)
                .words(" provenance")
                .finish(),
            CampaignError::DuplicatePackage(_) => Phrase::new("duplicate campaign package `")
                .words(first_id)
                .words("`")
                .finish(),
            CampaignError::EmptyObjectives => Phrase::new("campaign Pareto objectives are empty")
                .finish(),
            CampaignError::DuplicateObjective(objective) => Phrase::new("duplicate campaign objective ")
                .words(name_objective(objective))
                .finish(),
            CampaignError::MissingObjective { objective, .. } => Phrase::new("campaign package `")
                .words(first_id)
                .words("` lacks objective ")
                .words(name_objective(objective))
                .finish(),
            CampaignError::RecordTooLarge(field) => Phrase::new("campaign record `")
                .words(field)
                .words("` exceeds canonical capacity")
                .finish(),
        }
    }
}

impl CampaignError {
    /// The package identities that the diagnostic names, in order.
    pub fn named_packages(&self) -> (ids: (Option<PackageId>, Option<PackageId>))
        ensures
            ids == match *self {
                CampaignError::PackageMeasurementMismatch { expected_id, actual_id, .. } => (
                    Some(expected_id),
                    Some(actual_id),
                ),
                CampaignError::DuplicatePackage(id) => (Some(id), None),
                CampaignError::MissingObjective { package_id, .. } => (Some(package_id), None),
                _ => (None, None),
            },
    {
        match *self {
            CampaignError::PackageMeasurementMismatch { expected_id, actual_id, .. } => (
                Some(expected_id),
                Some(actual_id),
            ),
            CampaignError::DuplicatePackage(id) => (Some(id), None),
            CampaignError::MissingObjective { package_id, .. } => (Some(package_id), None),
            _ => (None, None),
        }
    }
}

impl PhysicalAllocError {
    /// The diagnostic, given the text of the distortion that it names.
    pub open spec fn text(self, distortion: &str) -> Seq<char> {
        match self {
            PhysicalAllocError::EmptyGroups => "SALT V2 allocation requires at least one group"@,
            PhysicalAllocError::CandidateCount { group, count } => "group "@
                + number_text(group as nat) + " supplied "@ + number_text(count as nat)
                + " candidates; SALT V2 requires P=1..=3"@,
            PhysicalAllocError::PlaneOrdinal { group, expected, actual } => "group "@
                + number_text(group as nat) + " candidate ordinal "@ + number_text(actual as nat)
                + "; expected consecutive P="@ + number_text(expected as nat),
            PhysicalAllocError::InvalidDistortion { group, planes, .. } => "group "@
                + number_text(group as nat) + " P="@ + number_text(planes as nat)
                + " has invalid distortion "@ + distortion@,
            PhysicalAllocError::NonMonotoneDistortion { group, planes } => "group "@
                + number_text(group as nat) + " P="@ + number_text(planes as nat)
                + " increases cumulative distortion"@,
            PhysicalAllocError::BudgetTooSmall { profile, required, maximum } => profile_name(profile)@
                + " mandatory prefix needs PhysicalBytes { serialized: "@
                + number_text(required.serialized as nat) + ", resident: "@
                + number_text(required.resident as nat)
                + " }, above PhysicalBytes { serialized: "@
                + number_text(maximum.serialized as nat) + ", resident: "@
                + number_text(maximum.resident as nat) + " }"@,
            PhysicalAllocError::AccountingOverflow { profile } => profile_name(profile)@
                + " physical-byte or distortion ledger overflowed"@,
            PhysicalAllocError::StateSpaceTooLarge { profile, states } => profile_name(profile)@
                + " exact allocation frontier would require "@ + number_text(states as nat)
                + " states"@,
            PhysicalAllocError::WorkingMemoryUnavailable { profile } => profile_name(profile)@
                + " exact allocation workspace is unavailable"@,
        }
    }

    /// The diagnostic, given the text of the distortion that it names.
    pub fn message(&self, distortion: &str) -> (text: String)
        ensures
            text@ == self.text(distortion),
    {
        match *self {
            PhysicalAllocError::EmptyGroups => Phrase::new("SALT V2 allocation requires at least one group")
                .finish(),
            PhysicalAllocError::CandidateCount { group, count } => Phrase::new("group ")
                .number(group as u64)
                .words(" supplied ")
                .number(count as u64)
                .words(" candidates; SALT V2 requires P=1..=3")
                .finish(),
            PhysicalAllocError::PlaneOrdinal { group, expected, actual } => Phrase::new("group ")
                .number(group as u64)
                .words(" candidate ordinal ")
                .number(actual as u64)
                .words("; expected consecutive P=")
                .number(expected as u64)
                .finish(),
            PhysicalAllocError::InvalidDistortion { group, planes, .. } => Phrase::new("group ")
                .number(group as u64)
                .words(" P=")
                .number(planes as u64)
                .words(" has invalid distortion ")
                .words(distortion)
                .finish(),
            PhysicalAllocError::NonMonotoneDistortion { group, planes } => Phrase::new("group ")
                .number(group as u64)
                .words(" P=")
                .number(planes as u64)
                .words(" increases cumulative distortion")
                .finish(),
            PhysicalAllocError::BudgetTooSmall { profile, required, maximum } => Phrase::new(name_profile(profile))
                .words(" mandatory prefix needs PhysicalBytes { serialized: ")
                .number(required.serialized as u64)
                .words(", resident: ")
                .number(required.resident as u64)
                .words(" }, above PhysicalBytes { serialized: ")
                .number(maximum.serialized as u64)
                .words(", resident: ")
                .number(maximum.resident as u64)
                .words(" }")
                .finish(),
            PhysicalAllocError::AccountingOverflow { profile } => Phrase::new(name_profile(profile))
                .words(" physical-byte or distortion ledger overflowed")
                .finish(),
            PhysicalAllocError::StateSpaceTooLarge { profile, states } => Phrase::new(name_profile(profile))
                .words(" exact allocation frontier would require ")
                .number(states as u64)
                .words(" states")
                .finish(),
            PhysicalAllocError::WorkingMemoryUnavailable { profile } => Phrase::new(name_profile(profile))
                .words(" exact allocation workspace is unavailable")
                .finish(),
        }
    }
}

impl AllocError {
    /// The diagnostic, given the texts of the floating-point values that it names, in order.
    pub open spec fn text(self, first: &str, second: &str) -> Seq<char> {
        match self {
            AllocError::BadRange { t_min, t_max } => "t_min ("@ + number_text(t_min as nat)
                + ") exceeds t_max ("@ + number_text(t_max as nat) + ")"@,
            AllocError::BudgetTooSmall { .. } => "base allocation needs "@ + first@
                + " bits but budget is "@ + second@,
            AllocError::InvalidSensitivity { group, .. } => "group "@ + number_text(group as nat)
                + " has invalid sensitivity "@ + first@ + " (want finite, ≥ 0)"@,
        }
    }

    /// The diagnostic, given the texts of the floating-point values that it names, in order.
    pub fn message(&self, first: &str, second: &str) -> (text: String)
        ensures
            text@ == self.text(first, second),
    {
        match *self {
            AllocError::BadRange { t_min, t_max } => Phrase::new("t_min (")
                .number(t_min as u64)
                .words(") exceeds t_max (")
                .number(t_max as u64)
                .words(")")
                .finish(),
            AllocError::BudgetTooSmall { .. } => Phrase::new("base allocation needs ")
                .words(first)
                .words(" bits but budget is ")
                .words(second)
                .finish(),
            AllocError::InvalidSensitivity { group, .. } => Phrase::new("group ")
                .number(group as u64)
                .words(" has invalid sensitivity ")
                .words(first)
                .words(" (want finite, ≥ 0)")
                .finish(),
        }
    }
}

impl QuantError {
    /// The diagnostic, given the texts of the floating-point values that it names, in order.
    pub open spec fn text(self, first: &str, second: &str) -> Seq<char> {
        match self {
            QuantError::ShapeMismatch { rows, k, got } => "shape mismatch: "@ + number_text(
                rows as nat,
            ) + "×"@ + number_text(k as nat) + " needs "@ + number_text((rows * k) as nat)
                + " weights, got "@ + number_text(got as nat),
            QuantError::SensitivityLen { expected, got } => "custom sensitivity: expected "@
                + number_text(expected as nat) + " entries, got "@ + number_text(got as nat),
            QuantError::Alloc(error) => "allocation: "@ + error.text(first, second),
        }
    }

    /// The diagnostic, given the texts of the floating-point values that it names, in order.
    pub fn message(&self, first: &str, second: &str) -> (text: String)
        requires
            *self matches QuantError::ShapeMismatch { rows, k, .. } ==> rows * k <= usize::MAX,
        ensures
            text@ == self.text(first, second),
    {
        match *self {
            QuantError::ShapeMismatch { rows, k, got } => Phrase::new("shape mismatch: ")
                .number(rows as u64)
                .words("×")
                .number(k as u64)
                .words(" needs ")
                .number((rows * k) as u64)
                .words(" weights, got ")
                .number(got as u64)
                .finish(),
            QuantError::SensitivityLen { expected, got } => Phrase::new(
                "custom sensitivity: expected ",
            ).number(expected as u64).words(" entries, got ").number(got as u64).finish(),
            QuantError::Alloc(error) => Phrase::new("allocation: ").words(
                error.message(first, second).as_str(),
            ).finish(),
        }
    }
}

impl<E> UniformProfileAllocError<E> {
    /// The diagnostic, given the texts of the source's error and of the distortion that it names.
    pub open spec fn text(self, source: &str, distortion: &str) -> Seq<char> {
        match self {
            UniformProfileAllocError::Source(_) => "uniform curve source failed: "@ + source@,
            UniformProfileAllocError::Allocation(error) => "uniform allocation failed: "@
                + error.text(distortion),
            UniformProfileAllocError::FloorLength { expected, actual } => "uniform floor has "@
                + number_text(actual as nat) + " groups, expected "@ + number_text(
                expected as nat,
            ),
            UniformProfileAllocError::CurveSourceShort { expected, actual } =>
                "uniform curve source ended at "@ + number_text(actual as nat) + ", expected "@
                + number_text(expected as nat),
            UniformProfileAllocError::CurveSourceLong { expected } =>
                "uniform curve source contains records after declared count "@ + number_text(
                expected as nat,
            ),
            UniformProfileAllocError::TooManyGroups { groups } =>
                "uniform compact allocator cannot index "@ + number_text(groups as nat)
                + " groups"@,
        }
    }

    /// The diagnostic, given the texts of the source's error and of the distortion that it names.
    pub fn message(&self, source: &str, distortion: &str) -> (text: String)
        ensures
            text@ == self.text(source, distortion),
    {
        match self {
            UniformProfileAllocError::Source(_) => Phrase::new("uniform curve source failed: ")
                .words(source)
                .finish(),
            UniformProfileAllocError::Allocation(error) => Phrase::new(
                "uniform allocation failed: ",
            ).words(error.message(distortion).as_str()).finish(),
            UniformProfileAllocError::FloorLength { expected, actual } => Phrase::new(
                "uniform floor has ",
            ).number(*actual).words(" groups, expected ").number(*expected).finish(),
            UniformProfileAllocError::CurveSourceShort { expected, actual } => Phrase::new(
                "uniform curve source ended at ",
            ).number(*actual).words(", expected ").number(*expected).finish(),
            UniformProfileAllocError::CurveSourceLong { expected } => Phrase::new(
                "uniform curve source contains records after declared count ",
            ).number(*expected).finish(),
            UniformProfileAllocError::TooManyGroups { groups } => Phrase::new(
                "uniform compact allocator cannot index ",
            ).number(*groups).words(" groups").finish(),
        }
    }
}

} // verus!
