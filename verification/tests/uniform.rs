use core::convert::Infallible;
use tritium_quantize::allocator::allocate_nested_profiles;
use tritium_quantize::exact::ExactReduction;
use tritium_quantize::packed::PackedPlaneCounts;
use tritium_quantize::physical::{
    ByteDelta, GroupCandidates, NestedProfileBudgets, PhysicalBytes, PlaneCandidate, ProfileBudget,
    SaltV2Profile,
};
use tritium_quantize::uniform::{
    allocate_uniform_profile_packed, CompactBundledUpgrade, CompactUnitUpgrade,
    UniformPrefixCurve, UniformProfileAllocError,
};

fn curve(values: [f64; 3]) -> UniformPrefixCurve {
    UniformPrefixCurve::new(values.map(f64::to_bits)).expect("curve")
}

#[test]
fn packed_uniform_path_matches_reference_for_concave_and_nonconcave_curves() {
    let curves = [
        curve([9.0, 5.0, 4.0]),
        curve([8.0, 7.0, 1.0]),
        curve([6.0, 3.0, 0.5]),
        curve([4.0, 4.0, 4.0]),
    ];
    let candidates = curves
        .iter()
        .map(|curve| {
            [
                PlaneCandidate {
                    planes: 1,
                    byte_delta: ByteDelta::declared(PhysicalBytes {
                        serialized: 1,
                        resident: 1,
                    }),
                    distortion_bits: curve.distortions()[0],
                },
                PlaneCandidate {
                    planes: 2,
                    byte_delta: ByteDelta::declared(PhysicalBytes {
                        serialized: 1,
                        resident: 1,
                    }),
                    distortion_bits: curve.distortions()[1],
                },
                PlaneCandidate {
                    planes: 3,
                    byte_delta: ByteDelta::declared(PhysicalBytes {
                        serialized: 1,
                        resident: 1,
                    }),
                    distortion_bits: curve.distortions()[2],
                },
            ]
        })
        .collect::<Vec<_>>();
    let groups = candidates
        .iter()
        .map(|candidates| GroupCandidates { candidates })
        .collect::<Vec<_>>();

    for capacity in 0..=8u64 {
        let maximum = PhysicalBytes {
            serialized: curves.len() as u64 + capacity,
            resident: curves.len() as u64 + capacity,
        };
        let budgets = NestedProfileBudgets {
            compact: ProfileBudget {
                maximum,
                metadata: ByteDelta::declared(PhysicalBytes::zero()),
            },
            near_lossless: ProfileBudget {
                maximum,
                metadata: ByteDelta::declared(PhysicalBytes::zero()),
            },
        };
        let reference = allocate_nested_profiles(&groups, &budgets).expect("reference");
        let floors =
            PackedPlaneCounts::filled(curves.len() as u64, 1, SaltV2Profile::CompactV1)
                .expect("floors");
        let compact = allocate_uniform_profile_packed(
            curves.len() as u64,
            &floors,
            capacity,
            SaltV2Profile::CompactV1,
            curves.iter().copied().map(Ok::<_, Infallible>).collect(),
        )
        .expect("compact");
        let actual = (0..curves.len())
            .map(|index| compact.plane_counts.get(index as u64).unwrap())
            .collect::<Vec<_>>();
        assert_eq!(
            actual, reference.compact.plane_counts,
            "capacity {capacity}"
        );
        assert_eq!(
            compact.total_distortion_bits,
            reference.compact.total_distortion_bits
        );
    }
}

#[test]
fn packed_counts_use_two_bits_and_reject_source_length_drift() {
    let floors = PackedPlaneCounts::filled(5, 1, SaltV2Profile::CompactV1).expect("floors");
    assert_eq!(floors.as_bytes().len(), 2);
    assert_eq!(
        (0..5).map(|index| floors.get(index)).collect::<Vec<_>>(),
        vec![Some(1); 5]
    );
    assert_eq!(floors.as_bytes()[1] & 0b1111_1100, 0);

    let short = allocate_uniform_profile_packed(
        5,
        &floors,
        1,
        SaltV2Profile::CompactV1,
        vec![Ok::<_, Infallible>(curve([3.0, 2.0, 1.0]))],
    );
    assert!(matches!(
        short,
        Err(UniformProfileAllocError::CurveSourceShort {
            expected: 5,
            actual: 1
        })
    ));
}

#[test]
fn ranked_records_keep_model_scale_ordinals_compact() {
    assert_eq!(core::mem::size_of::<ExactReduction>(), 16);
    assert_eq!(core::mem::size_of::<CompactUnitUpgrade>(), 24);
    assert_eq!(core::mem::size_of::<CompactBundledUpgrade>(), 40);
}
