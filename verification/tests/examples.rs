use tritium_quantize::allocator::{allocate_nested_profiles, allocate_profile, validate_groups};
use tritium_quantize::architecture::{
    AdapterError, ArchitectureFeature, ArchitectureRequirements, CapabilitySet, TensorDescriptor,
};
use tritium_quantize::campaign_provenance::PackageId;
use tritium_quantize::conversion::{ConversionError, ConversionRun, ConversionStage, RunStatus};
use tritium_quantize::exact::{ExactDistortion, ExactReduction};
use tritium_quantize::packed::PackedPlaneCounts;
use tritium_quantize::physical::{
    ByteDelta, GroupCandidates, NestedProfileBudgets, PhysicalAllocError, PhysicalBytes,
    PlaneCandidate, ProfileBudget, SaltV2Profile,
};
use tritium_quantize::text::{parse_small, split_first, text_after, text_less};
use tritium_quantize::uniform::{
    PackedUniformProfilePlanner, UniformPrefixCurve, UniformProfileAllocError,
};
use core::convert::Infallible;

fn bytes(amount: u64) -> PhysicalBytes {
    PhysicalBytes {
        serialized: amount,
        resident: amount,
    }
}

fn candidates(distortions: [f64; 3], costs: [u64; 3]) -> [PlaneCandidate; 3] {
    [0, 1, 2].map(|index: usize| PlaneCandidate {
        planes: index as u8 + 1,
        byte_delta: ByteDelta::declared(bytes(costs[index])),
        distortion_bits: distortions[index].to_bits(),
    })
}

fn limit(amount: u64) -> ProfileBudget {
    ProfileBudget {
        maximum: bytes(amount),
        metadata: ByteDelta::declared(bytes(0)),
    }
}

#[test]
fn larger_budgets_never_raise_the_distortion() {
    let first = candidates([9.5, 4.25, 1.0], [2, 3, 5]);
    let second = candidates([7.0, 6.5, 0.25], [1, 4, 2]);
    let groups = [
        GroupCandidates { candidates: &first },
        GroupCandidates { candidates: &second },
    ];
    let mut last = f64::INFINITY;
    for amount in 3..=17 {
        let allocation = allocate_profile(
            &groups,
            limit(amount),
            &[1, 1],
            SaltV2Profile::CompactV1,
        )
        .expect("feasible budget");
        let distortion = f64::from_bits(allocation.total_distortion_bits);
        assert!(distortion <= last);
        assert!(allocation.physical_bytes.fits_within(bytes(amount)));
        last = distortion;
    }
    assert_eq!(last, 1.25);
}

#[test]
fn refinements_keep_every_compact_plane() {
    let group = candidates([4.0, 2.0, 1.0], [1, 1, 1]);
    let groups = [GroupCandidates { candidates: &group }; 3];
    let allocation = allocate_nested_profiles(
        &groups,
        &NestedProfileBudgets {
            compact: limit(5),
            near_lossless: limit(8),
        },
    )
    .expect("allocation");
    assert_eq!(allocation.compact.plane_counts, vec![2, 2, 1]);
    assert!(allocation.compact.is_prefix_of(&allocation.near_lossless));
    assert_eq!(allocation.near_lossless.plane_counts, vec![3, 3, 2]);
}

#[test]
fn malformed_groups_are_refused() {
    let fine = candidates([3.0, 2.0, 1.0], [1, 1, 1]);
    let refuse = |candidates: &[PlaneCandidate]| {
        validate_groups(&[GroupCandidates { candidates }]).expect_err("malformed group")
    };
    assert_eq!(
        refuse(&fine[..2]),
        PhysicalAllocError::CandidateCount { group: 0, count: 2 }
    );
    let mut ordinal = fine;
    ordinal[1].planes = 3;
    assert_eq!(
        refuse(&ordinal),
        PhysicalAllocError::PlaneOrdinal {
            group: 0,
            expected: 2,
            actual: 3,
        }
    );
    let negative = candidates([3.0, -2.0, 1.0], [1, 1, 1]);
    assert_eq!(
        refuse(&negative),
        PhysicalAllocError::InvalidDistortion {
            group: 0,
            planes: 2,
            distortion_bits: (-2.0_f64).to_bits(),
        }
    );
    let rising = candidates([3.0, 2.0, 2.5], [1, 1, 1]);
    assert_eq!(
        refuse(&rising),
        PhysicalAllocError::NonMonotoneDistortion {
            group: 0,
            planes: 3,
        }
    );
    let groups = [GroupCandidates { candidates: &fine }];
    assert_eq!(
        allocate_profile(&groups, limit(0), &[1], SaltV2Profile::CompactV1),
        Err(PhysicalAllocError::BudgetTooSmall {
            profile: SaltV2Profile::CompactV1,
            required: bytes(1),
            maximum: bytes(0),
        })
    );
    let heavy = candidates([3.0, 2.0, 1.0], [u64::MAX, 1, 1]);
    let heavy_groups = [GroupCandidates { candidates: &heavy }; 2];
    assert_eq!(
        allocate_profile(
            &heavy_groups,
            limit(u64::MAX),
            &[1, 1],
            SaltV2Profile::NearLosslessV1
        ),
        Err(PhysicalAllocError::AccountingOverflow {
            profile: SaltV2Profile::NearLosslessV1,
        })
    );
}

#[test]
fn exact_sums_ignore_order() {
    let values = [1e-300_f64, 1e300, 3.5, f64::MIN_POSITIVE, 0.1];
    let sum = |order: &[usize]| {
        order.iter().fold(ExactDistortion::zero(), |sum, &index| {
            sum.checked_add_f64_bits(values[index].to_bits())
                .expect("finite value")
        })
    };
    assert_eq!(sum(&[0, 1, 2, 3, 4]), sum(&[4, 2, 0, 3, 1]));
    assert!(ExactDistortion::from_f64_bits((-1.0_f64).to_bits()).is_none());
    assert!(ExactDistortion::from_f64_bits(f64::NAN.to_bits()).is_none());
    let reduction =
        ExactReduction::new(5.0_f64.to_bits(), 4.75_f64.to_bits()).expect("decreasing pair");
    assert_eq!(
        reduction.exact().to_f64_bits().map(f64::from_bits),
        Some(0.25)
    );
    assert!(ExactReduction::new(1.0_f64.to_bits(), 2.0_f64.to_bits()).is_none());
}

#[test]
fn packed_planning_reports_its_boundaries() {
    let floors =
        PackedPlaneCounts::filled(2, 1, SaltV2Profile::CompactV1).expect("packed floors");
    let curve = UniformPrefixCurve::new([3.0, 1.0, 0.0].map(|value: f64| value.to_bits()))
        .expect("curve");
    assert!(matches!(
        PackedUniformProfilePlanner::new(3, &floors, 0, SaltV2Profile::CompactV1),
        Err(UniformProfileAllocError::FloorLength {
            expected: 3,
            actual: 2
        })
    ));
    let mut planner =
        PackedUniformProfilePlanner::new(2, &floors, 3, SaltV2Profile::CompactV1)
            .expect("planner");
    planner.push(curve).expect("first");
    planner.push(curve).expect("second");
    let long: Result<(), UniformProfileAllocError<Infallible>> = planner.push(curve);
    assert!(matches!(
        long,
        Err(UniformProfileAllocError::CurveSourceLong { expected: 2 })
    ));
    let allocation = planner.finish().expect("allocation");
    assert_eq!(allocation.plane_counts.get(0), Some(3));
    assert_eq!(allocation.plane_counts.get(1), Some(2));
    assert_eq!(allocation.plane_counts.get(2), None);
    assert_eq!(allocation.plane_counts.present_planes(), 5);
    assert!(matches!(
        UniformPrefixCurve::new([1.0, 2.0, 0.0].map(|value: f64| value.to_bits())),
        Err(PhysicalAllocError::NonMonotoneDistortion { planes: 2, .. })
    ));
}

#[test]
fn canonical_features_are_sorted_and_unique() {
    let set = CapabilitySet::new(&[
        ArchitectureFeature::Multimodal,
        ArchitectureFeature::QkNorm,
        ArchitectureFeature::Multimodal,
    ]);
    assert_eq!(
        set.features(),
        &[
            ArchitectureFeature::QkNorm,
            ArchitectureFeature::Multimodal
        ]
    );
    assert!(set.supports(ArchitectureFeature::QkNorm));
    assert!(!set.supports(ArchitectureFeature::CustomRope));
    assert!(matches!(
        ArchitectureRequirements::new("", &[]),
        Err(AdapterError::EmptyArchitecture)
    ));
    assert!(matches!(
        TensorDescriptor::new("", &[1]),
        Err(AdapterError::EmptyTensorName)
    ));
    assert!(TensorDescriptor::new("w", &[]).is_err());
    assert!(TensorDescriptor::new("w", &[2, 0]).is_err());
}

fn identity(payload: &[u8]) -> PackageId {
    PackageId::from_bytes(*blake3::hash(payload).as_bytes())
}

#[test]
fn checkpoints_restore_failed_runs_exactly() {
    let mut run = ConversionRun::new([7; 32]);
    run.begin_stage().expect("first attempt");
    run.complete_stage([1; 32]).expect("first stage");
    run.begin_stage().expect("second attempt");
    run.fail_stage("disk_full", "no space left — später", true)
        .expect("failure");
    let payload = run.payload_bytes().expect("payload");
    let bytes = run.to_bytes(identity(&payload)).expect("checkpoint");
    assert_eq!(&bytes[..payload.len()], &payload[..]);
    let restored = ConversionRun::from_bytes(&bytes, identity(&payload)).expect("restore");
    assert_eq!(restored, run);
    assert_eq!(restored.status(), RunStatus::RetryableFailure);
    assert_eq!(restored.current_attempts(), 1);
    let failure = restored.failure().expect("held failure");
    assert_eq!(failure.code(), "disk_full");
    assert_eq!(failure.message(), "no space left — später");
    assert_eq!(failure.stage(), ConversionStage::ALL[1]);
    assert!(failure.retryable());
    assert_eq!(
        ConversionRun::from_bytes(&bytes, identity(b"other")),
        Err(ConversionError::ChecksumMismatch)
    );
    assert_eq!(
        ConversionRun::checkpoint_payload(&bytes[..31]),
        Err(ConversionError::Truncated)
    );
    let mut unknown = payload.clone();
    unknown[0] ^= 1;
    let mut forged = unknown.clone();
    forged.extend_from_slice(identity(&unknown).as_bytes());
    assert!(ConversionRun::from_bytes(&forged, identity(&unknown)).is_err());
}

#[test]
fn text_helpers_split_and_parse() {
    assert_eq!(text_after("layers.7.w", "layers."), Some("7.w"));
    assert_eq!(text_after("layer", "layers."), None);
    assert_eq!(split_first("7.mlp.up", '.'), Some(("7", "mlp.up")));
    assert_eq!(split_first("7", '.'), None);
    for text in ["0", "7", "007", "+9", "255", "256", "-1", "", "1x", "+", "٣"] {
        assert_eq!(parse_small(text), text.parse::<u8>().ok());
    }
    assert!(text_less("a.10", "a.2"));
    assert!(!text_less("b", "a"));
    assert!(text_less("a", "aé"));
}
