use tritium_quantize::allocator::allocate_nested_profiles;
use tritium_quantize::exact::ExactDistortion;
use tritium_quantize::ledger::exact_total_distortion;
use tritium_quantize::physical::{
    ByteDelta, GroupCandidates, NestedProfileBudgets, PhysicalAllocError, PhysicalBytes,
    PlaneCandidate, ProfileBudget,
};

fn exact(value: f64) -> Option<ExactDistortion> {
    ExactDistortion::from_f64_bits(value.to_bits())
}

fn total_distortion(groups: &[GroupCandidates<'_>], planes: &[u8]) -> f64 {
    let total = exact_total_distortion(groups, planes);
    f64::from_bits(total.to_f64_bits().expect("finite total"))
}

fn bytes(serialized: u64, resident: u64) -> PhysicalBytes {
    PhysicalBytes {
        serialized,
        resident,
    }
}

fn delta(serialized: u64, resident: u64) -> ByteDelta {
    ByteDelta::declared(bytes(serialized, resident))
}

fn measured_delta(
    declared_serialized: u64,
    declared_resident: u64,
    measured_serialized: u64,
    measured_resident: u64,
) -> ByteDelta {
    ByteDelta::measured(
        bytes(declared_serialized, declared_resident),
        bytes(measured_serialized, measured_resident),
    )
}

fn candidate(planes: u8, bytes: ByteDelta, distortion: f64) -> PlaneCandidate {
    PlaneCandidate {
        planes,
        byte_delta: bytes,
        distortion_bits: distortion.to_bits(),
    }
}

fn group(candidates: &[PlaneCandidate; 3]) -> GroupCandidates<'_> {
    GroupCandidates { candidates }
}

fn budget(serialized: u64, resident: u64, metadata: ByteDelta) -> ProfileBudget {
    ProfileBudget {
        maximum: bytes(serialized, resident),
        metadata,
    }
}

#[test]
fn physical_totals_include_exact_measured_metadata_and_group_deltas() {
    let candidates = [
        candidate(1, measured_delta(10, 20, 12, 23), 8.0),
        candidate(2, delta(50, 50), 4.0),
        candidate(3, delta(50, 50), 2.0),
    ];
    let groups = [group(&candidates)];
    let budgets = NestedProfileBudgets {
        compact: budget(18, 32, measured_delta(5, 7, 6, 9)),
        near_lossless: budget(20, 34, measured_delta(7, 8, 8, 11)),
    };

    let allocation = allocate_nested_profiles(&groups, &budgets).unwrap();

    assert_eq!(allocation.compact.plane_counts, vec![1]);
    assert_eq!(allocation.compact.declared_bytes, bytes(15, 27));
    assert_eq!(allocation.compact.physical_bytes, bytes(18, 32));
    assert_eq!(allocation.near_lossless.declared_bytes, bytes(17, 28));
    assert_eq!(allocation.near_lossless.physical_bytes, bytes(20, 34));
    assert!(allocation.compact.all_selected_bytes_measured);
    assert!(allocation.near_lossless.all_selected_bytes_measured);
}

#[test]
fn empty_group_set_is_rejected() {
    let budgets = NestedProfileBudgets {
        compact: budget(0, 0, delta(0, 0)),
        near_lossless: budget(0, 0, delta(0, 0)),
    };

    assert_eq!(
        allocate_nested_profiles(&[], &budgets),
        Err(PhysicalAllocError::EmptyGroups)
    );
}

#[test]
fn measured_costs_drive_the_exact_frontier_without_exceeding_either_budget() {
    let first = [
        candidate(1, measured_delta(2, 2, 2, 2), 10.0),
        candidate(2, measured_delta(2, 2, 20, 20), 1.0),
        candidate(3, delta(50, 50), 0.0),
    ];
    let second = [
        candidate(1, measured_delta(2, 2, 2, 2), 10.0),
        candidate(2, measured_delta(3, 3, 3, 3), 4.0),
        candidate(3, delta(50, 50), 3.0),
    ];
    let groups = [group(&first), group(&second)];
    let budgets = NestedProfileBudgets {
        compact: budget(7, 7, measured_delta(0, 0, 0, 0)),
        near_lossless: budget(7, 7, measured_delta(0, 0, 0, 0)),
    };

    let allocation = allocate_nested_profiles(&groups, &budgets).unwrap();

    assert_eq!(allocation.compact.plane_counts, vec![1, 2]);
    assert!(
        allocation
            .compact
            .physical_bytes
            .fits_within(budgets.compact.maximum)
    );
    assert!(
        allocation
            .near_lossless
            .physical_bytes
            .fits_within(budgets.near_lossless.maximum)
    );
}

#[test]
fn every_exact_budget_pair_is_a_hard_ceiling() {
    let first = [
        candidate(1, measured_delta(3, 4, 3, 5), 15.0),
        candidate(2, measured_delta(2, 3, 5, 2), 6.0),
        candidate(3, delta(1, 6), 2.0),
    ];
    let second = [
        candidate(1, delta(4, 2), 12.0),
        candidate(2, measured_delta(2, 2, 2, 4), 7.0),
        candidate(3, delta(7, 1), 1.0),
    ];
    let groups = [group(&first), group(&second)];

    for serialized in 9..=30 {
        for resident in 10..=30 {
            let limit = budget(serialized, resident, measured_delta(2, 3, 2, 3));
            let allocation = allocate_nested_profiles(
                &groups,
                &NestedProfileBudgets {
                    compact: limit,
                    near_lossless: limit,
                },
            )
            .unwrap();
            assert!(allocation.compact.physical_bytes.fits_within(limit.maximum));
            assert!(
                allocation
                    .near_lossless
                    .physical_bytes
                    .fits_within(limit.maximum)
            );
        }
    }
}

#[test]
fn equal_marginals_break_ties_toward_lower_group_index() {
    let a = [
        candidate(1, delta(2, 2), 10.0),
        candidate(2, delta(2, 2), 5.0),
        candidate(3, delta(20, 20), 4.0),
    ];
    let b = a;
    let groups = [group(&a), group(&b)];
    let budgets = NestedProfileBudgets {
        compact: budget(6, 6, delta(0, 0)),
        near_lossless: budget(6, 6, delta(0, 0)),
    };

    let first = allocate_nested_profiles(&groups, &budgets).unwrap();
    let second = allocate_nested_profiles(&groups, &budgets).unwrap();

    assert_eq!(first, second);
    assert_eq!(first.compact.plane_counts, vec![2, 1]);
}

#[test]
fn exact_distortion_is_order_independent_across_the_binary64_range() {
    let mut seed = 0xa076_1d64_78bd_642f_u64;
    let mut values = Vec::new();
    for _ in 0..256 {
        seed = seed.wrapping_mul(6_364_136_223_846_793_005).wrapping_add(1);
        let raw_exponent = (seed % 0x7ff) << 52;
        seed = seed.wrapping_mul(6_364_136_223_846_793_005).wrapping_add(1);
        let fraction = seed & ((1_u64 << 52) - 1);
        let value = f64::from_bits(raw_exponent | fraction);
        assert_eq!(
            exact(value).unwrap().to_f64_bits().map(f64::from_bits),
            Some(value)
        );
        values.push(value);
    }

    let forward = values
        .iter()
        .try_fold(ExactDistortion::zero(), |sum, &value| {
            sum.checked_add_f64_bits(value.to_bits())
        });
    let reverse = values
        .iter()
        .rev()
        .try_fold(ExactDistortion::zero(), |sum, &value| {
            sum.checked_add_f64_bits(value.to_bits())
        });

    assert_eq!(forward, reverse);
    let smallest = exact(f64::from_bits(1)).unwrap();
    let largest = exact(f64::MAX).unwrap();
    assert_eq!(
        largest.checked_add(smallest).unwrap().checked_sub(largest),
        Some(smallest)
    );

    let two_to_53 = exact(9_007_199_254_740_992.0).unwrap();
    assert_eq!(
        two_to_53.checked_add_f64_bits(1.0_f64.to_bits()).unwrap().to_f64_bits().map(f64::from_bits),
        Some(9_007_199_254_740_992.0)
    );
    assert_eq!(
        two_to_53
            .checked_add_f64_bits(1.0_f64.to_bits())
            .unwrap()
            .checked_add_f64_bits(1.0_f64.to_bits())
            .unwrap()
            .checked_add_f64_bits(1.0_f64.to_bits())
            .unwrap()
            .to_f64_bits().map(f64::from_bits),
        Some(9_007_199_254_740_996.0)
    );

    let largest_subnormal =
        exact(f64::from_bits((1_u64 << 52) - 1)).unwrap();
    assert_eq!(
        largest_subnormal.checked_add(smallest).unwrap().to_f64_bits().map(f64::from_bits),
        Some(f64::MIN_POSITIVE)
    );
}

#[test]
fn exact_distortion_handles_limb_carry_borrow_and_overflow_rounding() {
    // Raw exponent 12 represents exactly bit 63 in 2^-1074 units.
    let high_word = exact(f64::from_bits(12_u64 << 52)).unwrap();
    let doubled = high_word.checked_add(high_word).unwrap();
    assert_eq!(doubled.limbs()[0], 0);
    assert_eq!(doubled.limbs()[1], 1);

    let smallest = exact(f64::from_bits(1)).unwrap();
    let borrowed = doubled.checked_sub(smallest).unwrap();
    assert_eq!(borrowed.limbs()[0], u64::MAX);
    assert_eq!(borrowed.limbs()[1], 0);

    let largest = exact(f64::MAX).unwrap();
    let below_overflow_midpoint = f64::from_bits((969_u64 + 1023) << 52);
    let overflow_midpoint = f64::from_bits((970_u64 + 1023) << 52);
    assert_eq!(
        largest
            .checked_add_f64_bits(below_overflow_midpoint.to_bits())
            .unwrap()
            .to_f64_bits().map(f64::from_bits),
        Some(f64::MAX)
    );
    assert_eq!(
        largest.checked_add_f64_bits(overflow_midpoint.to_bits()).unwrap().to_f64_bits().map(f64::from_bits),
        None
    );
}

#[test]
fn exact_distortion_matches_an_independent_u128_oracle() {
    let mut seed = 0xe703_7ed1_a0b4_28db_u64;
    let mut exact = ExactDistortion::zero();
    let mut oracle = 0_u128;
    for _ in 0..512 {
        seed = seed.wrapping_mul(6_364_136_223_846_793_005).wrapping_add(1);
        let raw_exponent = seed % 66;
        seed = seed.wrapping_mul(6_364_136_223_846_793_005).wrapping_add(1);
        let fraction = seed & ((1_u64 << 52) - 1);
        let value = f64::from_bits(raw_exponent << 52 | fraction);
        let coefficient = if raw_exponent == 0 {
            u128::from(fraction)
        } else {
            u128::from((1_u64 << 52) | fraction) << (raw_exponent - 1)
        };
        oracle = oracle.checked_add(coefficient).unwrap();
        exact = exact.checked_add_f64_bits(value.to_bits()).unwrap();
    }

    assert_eq!(exact.limbs()[0], oracle as u64);
    assert_eq!(exact.limbs()[1], (oracle >> 64) as u64);
    assert!(exact.limbs()[2..].iter().all(|&limb| limb == 0));
}

#[test]
fn bounded_frontier_does_not_round_away_a_strict_gain() {
    let small = [
        candidate(1, delta(1, 1), 1.0),
        candidate(2, delta(1, 1), 0.5),
        // The unequal third-plane cost keeps this case on the bounded DP.
        candidate(3, delta(2, 2), 0.5),
    ];
    let large = [
        candidate(1, delta(1, 1), 9_007_199_254_740_992.0),
        candidate(2, delta(1, 1), 9_007_199_254_740_991.0),
        candidate(3, delta(1, 1), 9_007_199_254_740_991.0),
    ];
    let groups = [group(&small), group(&large)];
    let limit = budget(3, 3, delta(0, 0));

    let allocation = allocate_nested_profiles(
        &groups,
        &NestedProfileBudgets {
            compact: limit,
            near_lossless: limit,
        },
    )
    .expect("exact bounded allocation");

    // Exact represented-binary64 totals are 2^53+1, 2^53+0.5, and 2^53.
    assert_eq!(allocation.compact.plane_counts, vec![1, 2]);
    assert_eq!(f64::from_bits(allocation.compact.total_distortion_bits), 9_007_199_254_740_992.0);
}

#[test]
fn regular_solver_does_not_drop_a_small_gain_beside_a_large_gain() {
    let small_bundle = [
        candidate(1, delta(1, 1), 1.0),
        candidate(2, delta(1, 1), 1.0),
        candidate(3, delta(1, 1), 0.0),
    ];
    let large_unit = [
        candidate(1, delta(1, 1), 9_007_199_254_740_992.0),
        candidate(2, delta(1, 1), 0.0),
        candidate(3, delta(1, 1), 0.0),
    ];
    let groups = [group(&small_bundle), group(&large_unit)];
    let limit = budget(5, 5, delta(0, 0));

    let allocation = allocate_nested_profiles(
        &groups,
        &NestedProfileBudgets {
            compact: limit,
            near_lossless: limit,
        },
    )
    .expect("exact regular allocation");

    assert_eq!(allocation.compact.plane_counts, vec![3, 2]);
    assert_eq!(f64::from_bits(allocation.compact.total_distortion_bits), 0.0);
}

#[test]
fn scalable_regular_solver_uses_the_full_plane_vector_for_ties() {
    let earlier_bundle = [
        candidate(1, delta(1, 1), 10.0),
        candidate(2, delta(1, 1), 9.0),
        candidate(3, delta(1, 1), 0.0),
    ];
    let later_units = [
        candidate(1, delta(1, 1), 10.0),
        candidate(2, delta(1, 1), 5.0),
        candidate(3, delta(1, 1), 0.0),
    ];
    let inert = [
        candidate(1, delta(1, 1), 0.0),
        candidate(2, delta(1, 1), 0.0),
        candidate(3, delta(1, 1), 0.0),
    ];
    let groups = [
        group(&earlier_bundle),
        group(&later_units),
        group(&inert),
        group(&inert),
        group(&inert),
        group(&inert),
        group(&inert),
        group(&inert),
    ];
    let limit = budget(10, 10, delta(0, 0));

    let allocation = allocate_nested_profiles(
        &groups,
        &NestedProfileBudgets {
            compact: limit,
            near_lossless: limit,
        },
    )
    .expect("scalable regular allocation");

    assert_eq!(
        allocation.compact.plane_counts,
        vec![3, 1, 1, 1, 1, 1, 1, 1]
    );
}

#[test]
fn scalable_regular_solver_preserves_gains_below_a_large_prefix() {
    let small_bundle = [
        candidate(1, delta(1, 1), 1.0),
        candidate(2, delta(1, 1), 1.0),
        candidate(3, delta(1, 1), 0.0),
    ];
    let large_unit = [
        candidate(1, delta(1, 1), 9_007_199_254_740_992.0),
        candidate(2, delta(1, 1), 0.0),
        candidate(3, delta(1, 1), 0.0),
    ];
    let inert = [
        candidate(1, delta(1, 1), 0.0),
        candidate(2, delta(1, 1), 0.0),
        candidate(3, delta(1, 1), 0.0),
    ];
    let groups = [
        group(&small_bundle),
        group(&large_unit),
        group(&inert),
        group(&inert),
        group(&inert),
        group(&inert),
        group(&inert),
        group(&inert),
    ];
    let limit = budget(11, 11, delta(0, 0));

    let allocation = allocate_nested_profiles(
        &groups,
        &NestedProfileBudgets {
            compact: limit,
            near_lossless: limit,
        },
    )
    .expect("exact scalable allocation");

    assert_eq!(
        allocation.compact.plane_counts,
        vec![3, 2, 1, 1, 1, 1, 1, 1]
    );
    assert_eq!(f64::from_bits(allocation.compact.total_distortion_bits), 0.0);
}

#[test]
fn scalable_regular_solver_accepts_realistic_fractional_frontiers() {
    let candidates = [
        candidate(1, delta(1, 1), 10.1),
        candidate(2, delta(1, 1), 5.2),
        candidate(3, delta(1, 1), 2.3),
    ];
    let groups = vec![group(&candidates); 8];
    let limit = budget(12, 12, delta(0, 0));

    let allocation = allocate_nested_profiles(
        &groups,
        &NestedProfileBudgets {
            compact: limit,
            near_lossless: limit,
        },
    )
    .expect("arbitrary binary64 marginals must remain exactly rankable");

    assert_eq!(
        allocation.compact.plane_counts,
        vec![2, 2, 2, 2, 1, 1, 1, 1]
    );
    assert_eq!(
        allocation.compact.plane_counts,
        brute_force_best(&groups, limit)
    );
}

#[test]
fn scalable_regular_solver_resolves_an_eight_group_aggregate_tie() {
    let distortions = [
        [4.0, 2.0, 0.0],
        [4.0, 3.0, 0.0],
        [2.0, 2.0, 0.0],
        [4.0, 3.0, 0.0],
        [5.0, 5.0, 1.0],
        [7.0, 4.0, 1.0],
        [6.0, 4.0, 2.0],
        [4.0, 2.0, 0.0],
    ];
    let candidates = distortions.map(|distortion| {
        [
            candidate(1, delta(1, 1), distortion[0]),
            candidate(2, delta(1, 1), distortion[1]),
            candidate(3, delta(1, 1), distortion[2]),
        ]
    });
    let groups = candidates.iter().map(group).collect::<Vec<_>>();
    let limit = budget(16, 16, delta(0, 0));

    let allocation = allocate_nested_profiles(
        &groups,
        &NestedProfileBudgets {
            compact: limit,
            near_lossless: limit,
        },
    )
    .expect("full-vector ties must not trigger an arbitrary work cap");

    assert_eq!(
        allocation.compact.plane_counts,
        brute_force_best(&groups, limit)
    );
}

#[test]
fn scalable_regular_solver_resolves_full_vector_ties_without_a_cap() {
    let bundled = [
        candidate(1, delta(1, 1), 10.0),
        candidate(2, delta(1, 1), 9.0),
        candidate(3, delta(1, 1), 0.0),
    ];
    let units = [
        candidate(1, delta(1, 1), 10.0),
        candidate(2, delta(1, 1), 5.0),
        candidate(3, delta(1, 1), 0.0),
    ];
    let mut candidates = vec![bundled; 70];
    candidates.extend(vec![units; 70]);
    let groups = candidates.iter().map(group).collect::<Vec<_>>();
    let limit = budget(280, 280, delta(0, 0));

    let allocation = allocate_nested_profiles(
        &groups,
        &NestedProfileBudgets {
            compact: limit,
            near_lossless: limit,
        },
    )
    .expect("exact ties must have a deterministic winner");

    assert!(
        allocation.compact.plane_counts[..70]
            .iter()
            .all(|&planes| planes == 3)
    );
    assert!(
        allocation.compact.plane_counts[70..]
            .iter()
            .all(|&planes| planes == 1)
    );
}

#[test]
fn equal_distortion_prefers_serialized_then_resident_bytes_before_plane_tie() {
    let candidates = [
        candidate(1, delta(1, 4), 5.0),
        candidate(2, delta(1, 0), 5.0),
        candidate(3, delta(0, 20), 5.0),
    ];
    let groups = [group(&candidates)];
    let budgets = NestedProfileBudgets {
        compact: budget(2, 24, delta(0, 0)),
        near_lossless: budget(2, 24, delta(0, 0)),
    };

    let allocation = allocate_nested_profiles(&groups, &budgets).expect("allocation");

    assert_eq!(allocation.compact.plane_counts, vec![1]);
    assert_eq!(allocation.compact.physical_bytes, bytes(1, 4));
}

#[test]
fn regular_solver_does_not_spend_nonzero_bytes_on_zero_reduction_upgrades() {
    let candidates = [
        candidate(1, delta(1, 2), 5.0),
        candidate(2, delta(1, 2), 5.0),
        candidate(3, delta(1, 2), 5.0),
    ];
    let groups = [group(&candidates)];
    let limit = budget(3, 6, delta(0, 0));

    let allocation = allocate_nested_profiles(
        &groups,
        &NestedProfileBudgets {
            compact: limit,
            near_lossless: limit,
        },
    )
    .expect("regular allocation");

    assert_eq!(allocation.compact.plane_counts, vec![1]);
    assert_eq!(allocation.compact.physical_bytes, bytes(1, 2));
}

#[test]
fn serialized_tie_priority_overrides_earlier_group_plane_vector() {
    let earlier = [
        candidate(1, delta(0, 0), 10.0),
        candidate(2, delta(2, 1), 5.0),
        candidate(3, delta(20, 20), 4.0),
    ];
    let later = [
        candidate(1, delta(0, 0), 10.0),
        candidate(2, delta(1, 10), 5.0),
        candidate(3, delta(20, 20), 4.0),
    ];
    let groups = [group(&earlier), group(&later)];
    let limit = budget(2, 10, delta(0, 0));

    let allocation = allocate_nested_profiles(
        &groups,
        &NestedProfileBudgets {
            compact: limit,
            near_lossless: limit,
        },
    )
    .expect("allocation");

    assert_eq!(allocation.compact.plane_counts, vec![1, 2]);
    assert_eq!(allocation.compact.physical_bytes, bytes(1, 10));
}

#[test]
fn regular_concave_costs_scale_beyond_reference_frontier_bound_exactly() {
    let candidates = [
        candidate(1, delta(1, 1), 10.0),
        candidate(2, delta(1, 1), 6.0),
        candidate(3, delta(1, 1), 4.0),
    ];
    let groups = vec![group(&candidates); 700];
    let limit = budget(1_050, 1_050, delta(0, 0));

    let allocation = allocate_nested_profiles(
        &groups,
        &NestedProfileBudgets {
            compact: limit,
            near_lossless: limit,
        },
    )
    .expect("regular exact fast path");

    assert_eq!(allocation.compact.plane_counts.len(), 700);
    assert_eq!(
        allocation
            .compact
            .plane_counts
            .iter()
            .filter(|&&planes| planes == 2)
            .count(),
        350
    );
    assert!(
        allocation.compact.plane_counts[..350]
            .iter()
            .all(|&planes| planes == 2)
    );
    assert!(
        allocation.compact.plane_counts[350..]
            .iter()
            .all(|&planes| planes == 1)
    );
    assert_eq!(allocation.compact.physical_bytes, bytes(1_050, 1_050));
}

#[test]
fn large_nonconcave_regular_case_is_solved_exactly_without_a_model_sized_dp() {
    let candidates = [
        candidate(1, delta(1, 1), 10.0),
        candidate(2, delta(1, 1), 9.0),
        candidate(3, delta(1, 1), 0.0),
    ];
    let group_count = 100_001;
    let groups = vec![group(&candidates); group_count];
    let limit = budget(
        (group_count * 2) as u64,
        (group_count * 2) as u64,
        delta(0, 0),
    );

    let allocation = allocate_nested_profiles(
        &groups,
        &NestedProfileBudgets {
            compact: limit,
            near_lossless: limit,
        },
    )
    .expect("uniform non-concave allocation is exactly scalable");

    assert_eq!(
        allocation
            .compact
            .plane_counts
            .iter()
            .filter(|&&planes| planes == 3)
            .count(),
        group_count / 2
    );
    assert_eq!(
        allocation
            .compact
            .plane_counts
            .iter()
            .filter(|&&planes| planes == 2)
            .count(),
        1
    );
    assert_eq!(
        allocation.compact.physical_bytes,
        bytes((group_count * 2) as u64, (group_count * 2) as u64)
    );
    assert!(allocation.compact.is_prefix_of(&allocation.near_lossless));
}

#[test]
fn nonconcave_uniform_cost_solver_matches_global_brute_force_at_every_capacity() {
    let a = [
        candidate(1, delta(1, 2), 20.0),
        candidate(2, delta(1, 2), 18.9),
        candidate(3, delta(1, 2), 1.0),
    ];
    let b = [
        candidate(1, delta(1, 2), 17.0),
        candidate(2, delta(1, 2), 9.7),
        candidate(3, delta(1, 2), 8.8),
    ];
    let c = [
        candidate(1, delta(1, 2), 15.0),
        candidate(2, delta(1, 2), 13.7),
        candidate(3, delta(1, 2), 0.2),
    ];
    let d = [
        candidate(1, delta(1, 2), 12.0),
        candidate(2, delta(1, 2), 4.9),
        candidate(3, delta(1, 2), 1.1),
    ];
    let groups = [group(&a), group(&b), group(&c), group(&d)];

    for optional_planes in 0..=groups.len() * 2 {
        let limit = budget(
            (groups.len() + optional_planes) as u64,
            ((groups.len() + optional_planes) * 2) as u64,
            delta(0, 0),
        );
        let allocation = allocate_nested_profiles(
            &groups,
            &NestedProfileBudgets {
                compact: limit,
                near_lossless: limit,
            },
        )
        .expect("exact uniform-cost allocation");

        assert_eq!(
            allocation.compact.plane_counts,
            brute_force_best(&groups, limit),
            "optional-plane capacity {optional_planes}"
        );
    }
}

#[test]
fn uniform_cost_decomposition_matches_brute_force_across_mixed_marginals() {
    let mut seed = 0x9e37_79b9_u64;
    for case in 0..128 {
        let mut candidates = Vec::new();
        for _ in 0..5 {
            seed = seed.wrapping_mul(6_364_136_223_846_793_005).wrapping_add(1);
            let third = (seed % 5) as f64;
            seed = seed.wrapping_mul(6_364_136_223_846_793_005).wrapping_add(1);
            let second = third + (seed % 11) as f64;
            seed = seed.wrapping_mul(6_364_136_223_846_793_005).wrapping_add(1);
            let first = second + (seed % 11) as f64;
            candidates.push([
                candidate(1, delta(2, 3), first),
                candidate(2, delta(2, 3), second),
                candidate(3, delta(2, 3), third),
            ]);
        }
        let groups: Vec<_> = candidates.iter().map(group).collect();

        for optional_planes in 0..=groups.len() * 2 {
            let limit = budget(
                ((groups.len() + optional_planes) * 2) as u64,
                ((groups.len() + optional_planes) * 3) as u64,
                delta(0, 0),
            );
            let allocation = allocate_nested_profiles(
                &groups,
                &NestedProfileBudgets {
                    compact: limit,
                    near_lossless: limit,
                },
            )
            .expect("exact regular allocation");
            let oracle = brute_force_best(&groups, limit);
            let oracle_distortion = total_distortion(&groups, &oracle);

            assert_eq!(
                f64::from_bits(allocation.compact.total_distortion_bits), oracle_distortion,
                "case {case}, optional-plane capacity {optional_planes}"
            );
            assert!(allocation.compact.physical_bytes.fits_within(limit.maximum));
        }
    }
}

#[test]
fn scalable_uniform_cost_solver_matches_brute_force_across_mixed_marginals() {
    let mut seed = 0xd1b5_4a32_d192_ed03_u64;
    for case in 0..64 {
        let mut candidates = Vec::new();
        for group_index in 0..8_u64 {
            seed = seed.wrapping_mul(6_364_136_223_846_793_005).wrapping_add(1);
            let first_reduction = ((seed % 127) * 256 + group_index * 2 + 1) as f64 / 256.0;
            seed = seed.wrapping_mul(6_364_136_223_846_793_005).wrapping_add(1);
            let second_reduction = ((seed % 127) * 256 + group_index * 2 + 2) as f64 / 256.0;
            candidates.push([
                candidate(1, delta(1, 1), first_reduction + second_reduction),
                candidate(2, delta(1, 1), second_reduction),
                candidate(3, delta(1, 1), 0.0),
            ]);
        }
        let groups: Vec<_> = candidates.iter().map(group).collect();

        for optional_planes in 0..=groups.len() * 2 {
            let maximum = (groups.len() + optional_planes) as u64;
            let limit = budget(maximum, maximum, delta(0, 0));
            let allocation = allocate_nested_profiles(
                &groups,
                &NestedProfileBudgets {
                    compact: limit,
                    near_lossless: limit,
                },
            )
            .expect("certifiable scalable allocation");

            assert_eq!(
                allocation.compact.plane_counts,
                brute_force_best_scaled_u128(&groups, limit, 256),
                "case {case}, optional-plane capacity {optional_planes}"
            );
        }
    }
}

#[test]
fn uniform_cost_frontier_matches_brute_force_oracle() {
    let a = [
        candidate(1, delta(2, 3), 10.0),
        candidate(2, delta(2, 3), 6.0),
        candidate(3, delta(2, 3), 4.0),
    ];
    let b = [
        candidate(1, delta(2, 3), 8.0),
        candidate(2, delta(2, 3), 5.0),
        candidate(3, delta(2, 3), 4.0),
    ];
    let c = [
        candidate(1, delta(2, 3), 7.0),
        candidate(2, delta(2, 3), 5.0),
        candidate(3, delta(2, 3), 4.5),
    ];
    let groups = [group(&a), group(&b), group(&c)];
    let limit = budget(10, 15, delta(0, 0));
    let budgets = NestedProfileBudgets {
        compact: limit,
        near_lossless: limit,
    };

    let allocation = allocate_nested_profiles(&groups, &budgets).unwrap();
    let oracle = brute_force_best(&groups, limit);

    assert_eq!(allocation.compact.plane_counts, oracle);
}

#[test]
fn variable_cost_frontier_matches_the_global_brute_force_oracle() {
    let a = [
        candidate(1, delta(0, 0), 20.0),
        candidate(2, delta(6, 6), 13.0),
        candidate(3, delta(100, 100), 12.0),
    ];
    let b = [
        candidate(1, delta(0, 0), 20.0),
        candidate(2, delta(10, 10), 9.0),
        candidate(3, delta(100, 100), 8.0),
    ];
    let groups = [group(&a), group(&b)];
    let limit = budget(10, 10, delta(0, 0));
    let budgets = NestedProfileBudgets {
        compact: limit,
        near_lossless: limit,
    };

    let allocation = allocate_nested_profiles(&groups, &budgets).unwrap();
    let oracle = brute_force_best(&groups, limit);

    assert_eq!(oracle, vec![1, 2]);
    assert_eq!(allocation.compact.plane_counts, oracle);
}

#[test]
fn compact_is_always_a_plane_prefix_of_near_lossless() {
    let a = [
        candidate(1, delta(2, 3), 12.0),
        candidate(2, delta(2, 3), 5.0),
        candidate(3, delta(2, 3), 1.0),
    ];
    let b = [
        candidate(1, delta(2, 3), 10.0),
        candidate(2, delta(2, 3), 7.0),
        candidate(3, delta(2, 3), 2.0),
    ];
    let groups = [group(&a), group(&b)];
    let budgets = NestedProfileBudgets {
        compact: budget(6, 9, delta(0, 0)),
        near_lossless: budget(12, 18, delta(0, 0)),
    };

    let allocation = allocate_nested_profiles(&groups, &budgets).unwrap();

    assert!(allocation.compact.is_prefix_of(&allocation.near_lossless));
    assert!(
        allocation
            .compact
            .plane_counts
            .iter()
            .zip(&allocation.near_lossless.plane_counts)
            .all(|(compact, near)| compact <= near)
    );
}

fn brute_force_best(groups: &[GroupCandidates<'_>], limit: ProfileBudget) -> Vec<u8> {
    let mut best: Option<(ExactDistortion, PhysicalBytes, Vec<u8>)> = None;
    let combinations = 3usize.pow(groups.len() as u32);
    for encoded in 0..combinations {
        let mut cursor = encoded;
        let mut counts = Vec::with_capacity(groups.len());
        let mut physical = limit.metadata.effective();
        let mut distortion = ExactDistortion::zero();
        for group in groups {
            let planes = (cursor % 3 + 1) as u8;
            cursor /= 3;
            counts.push(planes);
            for candidate in &group.candidates[..usize::from(planes)] {
                physical = physical
                    .checked_add(candidate.byte_delta.effective())
                    .unwrap();
            }
            distortion = distortion
                .checked_add_f64_bits(group.candidates[usize::from(planes - 1)].distortion_bits)
                .unwrap();
        }
        if !physical.fits_within(limit.maximum) {
            continue;
        }
        if best
            .as_ref()
            .is_none_or(|(best_distortion, best_bytes, best_counts)| {
                distortion.less_than(best_distortion)
                    || (distortion == *best_distortion
                        && (physical.serialized < best_bytes.serialized
                            || (physical.serialized == best_bytes.serialized
                                && (physical.resident < best_bytes.resident
                                    || (physical.resident == best_bytes.resident
                                        && counts > *best_counts)))))
            })
        {
            best = Some((distortion, physical, counts));
        }
    }
    best.unwrap().2
}

fn brute_force_best_scaled_u128(
    groups: &[GroupCandidates<'_>],
    limit: ProfileBudget,
    scale: u64,
) -> Vec<u8> {
    let mut best: Option<(u128, PhysicalBytes, Vec<u8>)> = None;
    let combinations = 3usize.pow(groups.len() as u32);
    for encoded in 0..combinations {
        let mut cursor = encoded;
        let mut counts = Vec::with_capacity(groups.len());
        let mut physical = limit.metadata.effective();
        let mut distortion = 0_u128;
        for group in groups {
            let planes = (cursor % 3 + 1) as u8;
            cursor /= 3;
            counts.push(planes);
            for candidate in &group.candidates[..usize::from(planes)] {
                physical = physical
                    .checked_add(candidate.byte_delta.effective())
                    .unwrap();
            }
            let scaled = f64::from_bits(group.candidates[usize::from(planes - 1)].distortion_bits) * scale as f64;
            assert!(scaled.is_finite() && scaled >= 0.0 && scaled.fract() == 0.0);
            distortion = distortion.checked_add(scaled as u128).unwrap();
        }
        if !physical.fits_within(limit.maximum) {
            continue;
        }
        if best
            .as_ref()
            .is_none_or(|(best_distortion, best_bytes, best_counts)| {
                distortion < *best_distortion
                    || (distortion == *best_distortion
                        && (physical.serialized < best_bytes.serialized
                            || (physical.serialized == best_bytes.serialized
                                && (physical.resident < best_bytes.resident
                                    || (physical.resident == best_bytes.resident
                                        && counts > *best_counts)))))
            })
        {
            best = Some((distortion, physical, counts));
        }
    }
    best.unwrap().2
}
