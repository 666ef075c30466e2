use tritium_quantize::activation_schema::{
    ActivationCacheError, ActivationDType, ActivationDigest,
};
use tritium_quantize::architecture::{
    AdapterError, ArchitectureFeature, ArchitectureRequirements, CapabilitySet,
};
use tritium_quantize::campaign_error::{CampaignError, CampaignObjective};
use tritium_quantize::campaign_provenance::PackageId;
use tritium_quantize::conversion::{ConversionError, RunStatus};
use tritium_quantize::joint_fit::JointFitError;
use tritium_quantize::physical::{PhysicalAllocError, PhysicalBytes, SaltV2Profile};
use tritium_quantize::qwen35_coverage::Qwen35CoverageError;
use tritium_quantize::tensor_plan::QuantError;
use tritium_quantize::uniform::UniformProfileAllocError;
use tritium_quantize::water_filling::AllocError;

#[test]
fn activation_messages_name_their_fields() {
    assert_eq!(
        ActivationCacheError::InvalidCacheMagic { got: [1, 2, 30, 255] }.message(),
        "invalid activation cache magic [01, 02, 1e, ff]"
    );
    assert_eq!(
        ActivationCacheError::TruncatedEncoding {
            context: "cache magic",
            needed: 4,
            remaining: 0,
        }
        .message(),
        "activation cache is truncated while reading cache magic: need 4 bytes, have 0"
    );
    assert_eq!(
        ActivationCacheError::DTypeOverflow {
            index: 12,
            dtype: ActivationDType::Float16,
        }
        .message(),
        "activation value 12 overflows storage dtype Float16"
    );
    let expected = ActivationDigest::from_bytes([0x0f; 32]);
    let got = ActivationDigest::from_bytes([0xf0; 32]);
    assert_eq!(
        ActivationCacheError::DigestMismatch { expected, got }.message(),
        format!(
            "activation artifact digest mismatch: expected {}, got {}",
            "0f".repeat(32),
            "f0".repeat(32)
        )
    );
    assert_eq!(
        ActivationCacheError::Gap {
            expected_start: 3,
            next_start: Some(5),
        }
        .message(),
        "activation cache has a gap at 3 before range 5"
    );
}

#[test]
fn fit_messages_name_their_fields() {
    assert_eq!(
        JointFitError::InvalidPlaneCount { got: 4 }.message(),
        "joint ternary plane count must be in 1..=3, got 4"
    );
    assert_eq!(
        JointFitError::NonFiniteDenseMetric { row: 10, col: 2 }.message(),
        "dense metric entry (10, 2) is not finite"
    );
    assert_eq!(
        JointFitError::ScaleSolveFailed.message(),
        "ridge scale solve failed"
    );
}

#[test]
fn architecture_messages_list_what_is_missing() {
    let requirements = ArchitectureRequirements::new(
        "toy",
        &[
            ArchitectureFeature::QkNorm,
            ArchitectureFeature::FullAttention,
        ],
    )
    .expect("requirements");
    let gap = CapabilitySet::default()
        .validate(&requirements)
        .expect_err("nothing is supported");
    let text = gap.message();
    assert!(text.contains("toy"));
    assert!(text.contains("FullAttention"));
    assert!(text.contains("QkNorm"));
    let unknown = AdapterError::UnrecognizedTensor(String::from("w.mystery"));
    assert!(unknown.message().contains("w.mystery"));
}

#[test]
fn conversion_and_coverage_messages_are_text() {
    assert!(!ConversionError::ChecksumMismatch.message().is_empty());
    assert!(ConversionError::InvalidStage(9).message().contains('9'));
    let refused = Qwen35CoverageError::WrongRank {
        tensor: String::from("lm_head.weight"),
        expected: 2,
        actual: 3,
    };
    let text = refused.message();
    assert!(text.contains("lm_head.weight"));
    assert!(text.contains('2') && text.contains('3'));
    assert_ne!(RunStatus::Ready, RunStatus::Running);
}

#[test]
fn campaign_messages_name_their_packages() {
    let first = PackageId::from_bytes([1; 32]);
    let second = PackageId::from_bytes([2; 32]);
    let changed = CampaignError::PackageMeasurementMismatch {
        expected_id: first,
        actual_id: second,
        expected_bytes: 13,
        actual_bytes: 14,
    };
    assert_eq!(changed.named_packages(), (Some(first), Some(second)));
    assert_eq!(
        changed.message("one", "two"),
        "package measurement changed from `one` (13 bytes) to `two` (14 bytes)"
    );
    assert_eq!(
        CampaignError::MissingObjective {
            package_id: first,
            objective: CampaignObjective::TaskScore,
        }
        .message("one", ""),
        "campaign package `one` lacks objective TaskScore"
    );
    assert_eq!(
        CampaignError::ZeroValue("token_count").message("", ""),
        "campaign field `token_count` must be non-zero"
    );
    assert_eq!(
        CampaignError::EmptyObjectives.named_packages(),
        (None, None)
    );
}

#[test]
fn allocation_messages_match_debug_formatting() {
    let required = PhysicalBytes {
        serialized: 7,
        resident: 9,
    };
    let maximum = PhysicalBytes {
        serialized: 6,
        resident: 10,
    };
    let profile = SaltV2Profile::NearLosslessV1;
    assert_eq!(
        PhysicalAllocError::BudgetTooSmall {
            profile,
            required,
            maximum,
        }
        .message(""),
        format!("{profile:?} mandatory prefix needs {required:?}, above {maximum:?}")
    );
    let distortion = -0.5_f64;
    let invalid = PhysicalAllocError::InvalidDistortion {
        group: 3,
        planes: 2,
        distortion_bits: distortion.to_bits(),
    };
    assert_eq!(
        invalid.message(&distortion.to_string()),
        "group 3 P=2 has invalid distortion -0.5"
    );
    let outer: UniformProfileAllocError<String> = UniformProfileAllocError::Allocation(invalid);
    assert_eq!(
        outer.message("", "-0.5"),
        "uniform allocation failed: group 3 P=2 has invalid distortion -0.5"
    );
    let source: UniformProfileAllocError<String> =
        UniformProfileAllocError::Source(String::from("lost"));
    assert_eq!(
        source.message("lost", ""),
        "uniform curve source failed: lost"
    );
    let small = AllocError::BudgetTooSmall {
        base_bits: 4.75_f64.to_bits(),
        budget_bits: 4.0_f64.to_bits(),
    };
    assert_eq!(
        QuantError::Alloc(small).message("4.8", "4.0"),
        "allocation: base allocation needs 4.8 bits but budget is 4.0"
    );
    assert_eq!(
        QuantError::ShapeMismatch {
            rows: 3,
            k: 4,
            got: 10,
        }
        .message("", ""),
        "shape mismatch: 3×4 needs 12 weights, got 10"
    );
}
