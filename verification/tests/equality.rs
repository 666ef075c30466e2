use tritium_quantize::joint_fit::{
    FitProgress, JointFitConfig, JointFitStartKind, JointFitUpdatePhase, JointFitUpdateReceipt,
    ScaleSolveReceipt, ScaleSolveTelemetry,
};
use tritium_quantize::packed::PackedPlaneCounts;
use tritium_quantize::physical::{
    ByteDelta, PhysicalAllocError, PhysicalBytes, PlaneCandidate, ProfileAllocation, SaltV2Profile,
};
use tritium_quantize::tensor_plan::QuantError;
use tritium_quantize::uniform::{PackedUniformProfileAllocation, UniformPrefixCurve};
use tritium_quantize::water_filling::AllocError;

const ZERO: u64 = 0;
const NEGATIVE_ZERO: u64 = 1 << 63;
const NAN: u64 = 0x7ff8_0000_0000_0000;
const ONE: u64 = 0x3ff0_0000_0000_0000;

/// Zeros of either sign are equal, other values are told apart, and a NaN equals nothing.
fn compares_as_a_real<T: PartialEq>(with: impl Fn(u64) -> T) {
    assert!(with(ZERO) == with(NEGATIVE_ZERO));
    assert!(with(ONE) == with(ONE));
    assert!(with(ONE) != with(ZERO));
    assert!(with(NAN) != with(NAN));
}

#[test]
fn rejected_reals_in_errors_compare_as_reals() {
    compares_as_a_real(|value| AllocError::InvalidSensitivity { group: 1, value });
    compares_as_a_real(|base_bits| AllocError::BudgetTooSmall {
        base_bits,
        budget_bits: ONE,
    });
    compares_as_a_real(|budget_bits| AllocError::BudgetTooSmall {
        base_bits: ONE,
        budget_bits,
    });
    compares_as_a_real(|value| QuantError::Alloc(AllocError::InvalidSensitivity { group: 1, value }));
    compares_as_a_real(|distortion_bits| PhysicalAllocError::InvalidDistortion {
        group: 1,
        planes: 2,
        distortion_bits,
    });
}

#[test]
fn errors_differ_in_kind_and_in_every_field() {
    let bytes = |count| PhysicalBytes {
        serialized: count,
        resident: 1,
    };
    let profile = SaltV2Profile::CompactV1;
    let errors = [
        PhysicalAllocError::EmptyGroups,
        PhysicalAllocError::CandidateCount { group: 0, count: 1 },
        PhysicalAllocError::CandidateCount { group: 0, count: 2 },
        PhysicalAllocError::PlaneOrdinal { group: 0, expected: 1, actual: 2 },
        PhysicalAllocError::PlaneOrdinal { group: 0, expected: 1, actual: 3 },
        PhysicalAllocError::InvalidDistortion { group: 0, planes: 1, distortion_bits: ONE },
        PhysicalAllocError::InvalidDistortion { group: 0, planes: 2, distortion_bits: ONE },
        PhysicalAllocError::NonMonotoneDistortion { group: 0, planes: 1 },
        PhysicalAllocError::NonMonotoneDistortion { group: 1, planes: 1 },
        PhysicalAllocError::BudgetTooSmall { profile, required: bytes(1), maximum: bytes(0) },
        PhysicalAllocError::BudgetTooSmall { profile, required: bytes(2), maximum: bytes(0) },
        PhysicalAllocError::AccountingOverflow { profile },
        PhysicalAllocError::AccountingOverflow { profile: SaltV2Profile::NearLosslessV1 },
        PhysicalAllocError::StateSpaceTooLarge { profile, states: 1 },
        PhysicalAllocError::StateSpaceTooLarge { profile, states: 2 },
        PhysicalAllocError::WorkingMemoryUnavailable { profile },
    ];
    for (left, first) in errors.iter().enumerate() {
        for (right, second) in errors.iter().enumerate() {
            assert_eq!(first == second, left == right);
        }
    }
    assert!(AllocError::BadRange { t_min: 2, t_max: 1 } == AllocError::BadRange { t_min: 2, t_max: 1 });
    assert!(AllocError::BadRange { t_min: 2, t_max: 1 } != AllocError::BadRange { t_min: 2, t_max: 0 });
}

#[test]
fn allocations_and_curves_compare_as_reals() {
    let bytes = PhysicalBytes {
        serialized: 3,
        resident: 4,
    };
    compares_as_a_real(|distortion_bits| PlaneCandidate {
        planes: 1,
        byte_delta: ByteDelta::declared(bytes),
        distortion_bits,
    });
    compares_as_a_real(|total_distortion_bits| ProfileAllocation {
        plane_counts: vec![1, 2],
        declared_bytes: bytes,
        physical_bytes: bytes,
        total_distortion_bits,
        all_selected_bytes_measured: false,
    });
    compares_as_a_real(|total_distortion_bits| PackedUniformProfileAllocation {
        plane_counts: PackedPlaneCounts::filled(5, 2, SaltV2Profile::CompactV1).expect("counts"),
        selected_upgrades: 5,
        total_distortion_bits,
        present_planes: 10,
    });
    let curve = |last| UniformPrefixCurve::new([ONE, ONE, last]).expect("curve");
    assert!(curve(ZERO) == curve(NEGATIVE_ZERO));
    assert!(curve(ZERO) != curve(ONE));
}

#[test]
fn fit_evidence_compares_as_reals() {
    compares_as_a_real(|ridge| JointFitConfig {
        ridge,
        ..JointFitConfig::default()
    });
    compares_as_a_real(|objective_after| JointFitUpdateReceipt {
        iteration: 0,
        phase: JointFitUpdatePhase::Scale,
        objective_before: ONE,
        objective_after,
    });
    let telemetry = |ridge_used| ScaleSolveTelemetry {
        condition_before: ONE,
        condition_after: ONE,
        ridge_used,
        adaptive_ridge: true,
    };
    compares_as_a_real(telemetry);
    compares_as_a_real(|ridge_used| ScaleSolveReceipt {
        iteration: 2,
        telemetry: telemetry(ridge_used),
        accepted: true,
    });
    compares_as_a_real(|ridge_used| {
        let mut progress = FitProgress::start(JointFitStartKind::DeterministicRestart(0), ONE);
        progress.offer_scales(0, telemetry(ridge_used), ZERO);
        progress.finish().1
    });
}
