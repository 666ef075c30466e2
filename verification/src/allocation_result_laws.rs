//! What allocations report, and what they tell of refused inputs.

use crate::allocation_cost_laws::sound_group;
use crate::allocator::{
    candidate_error, first_planes, group_error, nested_realizes, profile_error, realizes,
    validation_error,
};
use crate::exact_laws::{distance, rounded_totals_are_nearest};
use crate::float_bits::{f64_finite_nonnegative, f64_units, F64_INFINITY};
use crate::physical::{
    GroupCandidates, NestedProfileAllocation, NestedProfileBudgets, PhysicalAllocError, PlaneCandidate, ProfileAllocation,
    ProfileBudget, SaltV2Profile,
};
use crate::plane_model::{
    count_fn, in_range, lemma_bytes_monotone, plane_sum, resident_of, serialized_of,
    total_distortion, total_resident, total_serialized, ByteMode,
};
use crate::uniform::{
    curve_error, source_error, start_error, uniform_realizes, PackedUniformProfileAllocation,
    UniformPrefixCurve, UniformProfileAllocError,
};
use vstd::prelude::*;

verus! {

/// A budget is called too small only if no plane vector above the floor fits it, and the bytes
/// named as required are the least that any needs. A profile that is accepted has its floor
/// within the budget.
pub proof fn refused_budgets_hold_nothing(
    groups: Seq<GroupCandidates<'_>>,
    floors: Seq<u8>,
    limit: ProfileBudget,
    profile: SaltV2Profile,
    planes: Seq<u8>,
)
    requires
        planes.len() == floors.len(),
        forall|g: int| 0 <= g < floors.len() ==> floors[g] <= #[trigger] planes[g] <= 3,
    ensures
        profile_error(groups, floors, limit, profile) matches Some(
            PhysicalAllocError::BudgetTooSmall { profile: named, required, maximum },
        ) ==> {
            &&& named == profile
            &&& maximum == limit.maximum
            &&& required.serialized == serialized_of(groups, limit, floors)
            &&& required.resident == resident_of(groups, limit, floors)
            &&& required.serialized <= serialized_of(groups, limit, planes)
            &&& required.resident <= resident_of(groups, limit, planes)
            &&& serialized_of(groups, limit, planes) > limit.maximum.serialized || resident_of(
                groups,
                limit,
                planes,
            ) > limit.maximum.resident
        },
        profile_error(groups, floors, limit, profile) is None ==> serialized_of(
            groups,
            limit,
            floors,
        ) <= limit.maximum.serialized && resident_of(groups, limit, floors)
            <= limit.maximum.resident,
{
    assert forall|g: int| 0 <= g < floors.len() implies #[trigger] floors[g] <= planes[g] by {
        assert(floors[g] <= planes[g] <= 3);
    }
    lemma_bytes_monotone(groups, limit, floors, planes);
    if let Some(PhysicalAllocError::BudgetTooSmall { .. }) = profile_error(
        groups,
        floors,
        limit,
        profile,
    ) {
        lemma_only_floors_are_too_small(groups, floors, limit, profile, 0);
    }
}

proof fn lemma_only_floors_are_too_small(
    groups: Seq<GroupCandidates<'_>>,
    floors: Seq<u8>,
    limit: ProfileBudget,
    profile: SaltV2Profile,
    index: int,
)
    ensures
        crate::pareto::pareto_error(groups, floors, limit, profile, index) matches Some(error)
            ==> !(error is BudgetTooSmall),
    decreases groups.len() - index,
{
    if index < groups.len() {
        lemma_only_floors_are_too_small(groups, floors, limit, profile, index + 1);
    }
}

/// What an allocation reports are the bytes and the distortion of its plane counts: the charged
/// bytes within the budget, the declared bytes, and the binary64 value nearest to the distortion.
pub proof fn allocations_report_their_totals(
    allocation: ProfileAllocation,
    groups: Seq<GroupCandidates<'_>>,
    floors: Seq<u8>,
    limit: ProfileBudget,
    other: u64,
)
    requires
        realizes(allocation, groups, floors, limit),
        total_distortion(groups, allocation.plane_counts@) >= 0,
        other < F64_INFINITY,
    ensures
        ({
            let planes = allocation.plane_counts@;
            let distortion = total_distortion(groups, planes) as nat;
            &&& planes.len() == floors.len()
            &&& allocation.physical_bytes.serialized == serialized_of(groups, limit, planes)
            &&& allocation.physical_bytes.resident == resident_of(groups, limit, planes)
            &&& allocation.physical_bytes.serialized <= limit.maximum.serialized
            &&& allocation.physical_bytes.resident <= limit.maximum.resident
            &&& allocation.declared_bytes.serialized == total_serialized(
                groups,
                planes,
                limit.metadata,
                ByteMode::Declared,
            )
            &&& allocation.declared_bytes.resident == total_resident(
                groups,
                planes,
                limit.metadata,
                ByteMode::Declared,
            )
            &&& distance(distortion, allocation.total_distortion_bits) <= distance(
                distortion,
                other,
            )
        }),
        allocation.all_selected_bytes_measured <==> limit.metadata.measured is Some && forall|
            g: int,
            p: int,
        |
            0 <= g < groups.len() && 0 <= p < allocation.plane_counts@[g] ==> (
            #[trigger] groups[g].candidates@[p]).byte_delta.measured is Some,
{
    let distortion = total_distortion(groups, allocation.plane_counts@) as nat;
    rounded_totals_are_nearest(distortion, allocation.total_distortion_bits, other);
}

/// Each of two nested profiles keeps its own budget; the first has a plane in every group and the
/// second at least as many as the first.
pub proof fn nested_profiles_keep_their_own_budgets(
    allocation: NestedProfileAllocation,
    groups: Seq<GroupCandidates<'_>>,
    budgets: NestedProfileBudgets,
    group: int,
)
    requires
        nested_realizes(allocation, groups, budgets),
        0 <= group < groups.len(),
    ensures
        allocation.compact.plane_counts@.len() == groups.len(),
        allocation.near_lossless.plane_counts@.len() == groups.len(),
        1 <= allocation.compact.plane_counts@[group] <= allocation.near_lossless.plane_counts@[group]
            <= 3,
        allocation.compact.physical_bytes.serialized <= budgets.compact.maximum.serialized,
        allocation.compact.physical_bytes.resident <= budgets.compact.maximum.resident,
        allocation.near_lossless.physical_bytes.serialized
            <= budgets.near_lossless.maximum.serialized,
        allocation.near_lossless.physical_bytes.resident <= budgets.near_lossless.maximum.resident,
{
    let low = allocation.compact.plane_counts@;
    let high = allocation.near_lossless.plane_counts@;
    assert(in_range(first_planes(groups.len()), low));
    assert(in_range(low, high));
    assert(first_planes(groups.len())[group] <= low[group] <= 3);
    assert(low[group] <= high[group] <= 3);
}

/// Planes of all groups.
pub open spec fn planes_in_all(planes: Seq<u8>) -> int
    decreases planes.len(),
{
    if planes.len() == 0 {
        0
    } else {
        planes_in_all(planes.drop_last()) + planes.last()
    }
}

proof fn lemma_planes_in_all(planes: Seq<u8>, count: int)
    requires
        0 <= count <= planes.len(),
    ensures
        plane_sum(count_fn(), planes, count) == planes_in_all(planes.take(count)),
    decreases count,
{
    if count > 0 {
        lemma_planes_in_all(planes, count - 1);
        assert(planes.take(count).drop_last() =~= planes.take(count - 1));
        assert(planes.take(count).last() == planes[count - 1]);
        assert(count_fn()(count - 1, planes[count - 1] as int) == planes[count - 1]);
    }
}

/// A uniform allocation reports how many planes it has in all, and how many of them are above
/// the floor; the latter are within the allowance.
pub proof fn uniform_allocations_report_their_planes(
    allocation: PackedUniformProfileAllocation,
    curves: Seq<Seq<u64>>,
    floors: Seq<u8>,
    capacity: int,
)
    requires
        uniform_realizes(allocation, curves, floors, capacity),
    ensures
        allocation.present_planes == planes_in_all(allocation.plane_counts@),
        allocation.selected_upgrades == planes_in_all(allocation.plane_counts@) - planes_in_all(
            floors,
        ),
        allocation.selected_upgrades <= capacity,
{
    let planes = allocation.plane_counts@;
    lemma_planes_in_all(planes, planes.len() as int);
    assert(planes.take(planes.len() as int) =~= planes);
    assert(in_range(floors, planes));
    lemma_planes_in_all(floors, floors.len() as int);
    assert(floors.take(floors.len() as int) =~= floors);
}

/// Whether an error names a fault that a group of candidates has.
pub open spec fn fault_of_group(
    error: PhysicalAllocError,
    candidates: Seq<PlaneCandidate>,
    at: int,
) -> bool {
    match error {
        PhysicalAllocError::CandidateCount { group, count } => {
            group == at && count == candidates.len() && count != 3
        },
        PhysicalAllocError::PlaneOrdinal { group, expected, actual } => {
            &&& group == at
            &&& 1 <= expected <= candidates.len()
            &&& candidates[expected - 1].planes == actual
            &&& actual != expected
        },
        PhysicalAllocError::InvalidDistortion { group, planes, distortion_bits } => {
            &&& group == at
            &&& 1 <= planes <= candidates.len()
            &&& candidates[planes - 1].distortion_bits == distortion_bits
            &&& !f64_finite_nonnegative(distortion_bits)
        },
        PhysicalAllocError::NonMonotoneDistortion { group, planes } => {
            &&& group == at
            &&& 2 <= planes <= candidates.len()
            &&& f64_units(candidates[planes - 1].distortion_bits) > f64_units(
                candidates[planes - 2].distortion_bits,
            )
        },
        _ => false,
    }
}

proof fn lemma_candidate_fault(candidates: Seq<PlaneCandidate>, group: int, index: int)
    requires
        0 <= index,
        candidates.len() == 3,
        0 <= group <= usize::MAX,
    ensures
        candidate_error(candidates, group, index) matches Some(error) ==> fault_of_group(
            error,
            candidates,
            group,
        ),
    decreases candidates.len() - index,
{
    if index < candidates.len() {
        lemma_candidate_fault(candidates, group, index + 1);
    }
}

proof fn lemma_group_fault(groups: Seq<GroupCandidates<'_>>, from: int)
    requires
        0 <= from <= groups.len() <= usize::MAX,
    ensures
        group_error(groups, from) matches Some(error) ==> exists|g: int|
            {
                &&& from <= g < groups.len()
                &&& fault_of_group(error, (#[trigger] groups[g]).candidates@, g)
                &&& forall|h: int| from <= h < g ==> sound_group(#[trigger] groups[h].candidates@)
            },
    decreases groups.len() - from,
{
    if from < groups.len() {
        let candidates = groups[from].candidates@;
        lemma_group_fault(groups, from + 1);
        if candidates.len() == 3 {
            lemma_candidate_fault(candidates, from, 0);
            if candidate_error(candidates, from, 0) is None {
                assert(sound_group(candidates)) by {
                    reveal_with_fuel(candidate_error, 4);
                }
                if group_error(groups, from) is Some {
                    let error = group_error(groups, from)->0;
                    let g = choose|g: int|
                        {
                            &&& from + 1 <= g < groups.len()
                            &&& fault_of_group(error, (#[trigger] groups[g]).candidates@, g)
                            &&& forall|h: int|
                                from + 1 <= h < g ==> sound_group(#[trigger] groups[h].candidates@)
                        };
                    assert(fault_of_group(error, groups[g].candidates@, g));
                    assert forall|h: int| from <= h < g implies sound_group(
                        #[trigger] groups[h].candidates@,
                    ) by {}
                }
            } else {
                assert(fault_of_group(group_error(groups, from)->0, groups[from].candidates@, from));
            }
        } else {
            assert(groups[from].candidates.len() == candidates.len());
            assert(fault_of_group(group_error(groups, from)->0, groups[from].candidates@, from));
        }
    }
}

/// Refused candidates are told a fault of the first group that has one, and no groups at all are
/// told so.
pub proof fn refused_groups_have_the_fault(
    groups: Seq<GroupCandidates<'_>>,
    error: PhysicalAllocError,
)
    requires
        groups.len() <= usize::MAX,
        validation_error(groups) == Some(error),
    ensures
        groups.len() == 0 ==> error == PhysicalAllocError::EmptyGroups,
        groups.len() > 0 ==> exists|g: int|
            {
                &&& 0 <= g < groups.len()
                &&& fault_of_group(error, (#[trigger] groups[g]).candidates@, g)
                &&& forall|h: int| 0 <= h < g ==> sound_group(#[trigger] groups[h].candidates@)
            },
{
    lemma_group_fault(groups, 0);
}

/// A curve of three distortions is accepted exactly if they are finite and nonnegative and never
/// grow.
pub proof fn only_falling_curves_are_accepted(curve: Seq<u64>)
    requires
        curve.len() == 3,
    ensures
        curve_error(curve, 0) is None <==> {
            &&& f64_finite_nonnegative(curve[0])
            &&& f64_finite_nonnegative(curve[1])
            &&& f64_finite_nonnegative(curve[2])
            &&& f64_units(curve[0]) >= f64_units(curve[1]) >= f64_units(curve[2])
        },
{
    reveal_with_fuel(curve_error, 4);
}

/// A plan starts exactly if there is a floor for each expected group and no more than a 32-bit
/// index can name.
pub proof fn only_indexable_plans_start<E>(expected: u64, floors: int)
    ensures
        start_error::<E>(expected, floors) is None <==> floors == expected && expected
            <= 0xffff_ffff,
        floors != expected && 0 <= floors <= u64::MAX ==> start_error::<E>(expected, floors)
            == Some(
            UniformProfileAllocError::<E>::FloorLength { expected, actual: floors as u64 },
        ),
        floors == expected && expected > 0xffff_ffff ==> start_error::<E>(expected, floors)
            == Some(UniformProfileAllocError::<E>::TooManyGroups { groups: expected }),
{
}

/// Whether the first items of a source are curves.
pub open spec fn all_curves<E>(source: Seq<Result<UniformPrefixCurve, E>>, count: int) -> bool {
    forall|k: int| 0 <= k < count && k < source.len() ==> #[trigger] source[k] is Ok
}

proof fn lemma_source<E>(
    source: Seq<Result<UniformPrefixCurve, E>>,
    expected: u64,
    index: int,
)
    requires
        0 <= index <= expected,
        index <= source.len() <= u64::MAX,
        all_curves(source, index),
    ensures
        match source_error(source, expected, index) {
            None => source.len() == expected && all_curves(source, expected as int),
            Some(UniformProfileAllocError::CurveSourceShort { expected: wanted, actual }) => {
                &&& wanted == expected
                &&& actual == source.len()
                &&& actual < expected
                &&& all_curves(source, expected as int)
            },
            Some(UniformProfileAllocError::CurveSourceLong { expected: wanted }) => {
                &&& wanted == expected
                &&& source.len() > expected
                &&& all_curves(source, expected + 1)
            },
            Some(UniformProfileAllocError::Source(error)) => exists|k: int|
                {
                    &&& 0 <= k <= expected
                    &&& k < source.len()
                    &&& #[trigger] source[k] == Err::<UniformPrefixCurve, E>(error)
                    &&& all_curves(source, k)
                },
            Some(_) => false,
        },
    decreases expected - index,
{
    if index < expected && index < source.len() {
        if source[index] is Ok {
            assert(all_curves(source, index + 1));
            lemma_source(source, expected, index + 1);
        } else {
            assert(source[index] == Err::<UniformPrefixCurve, E>(source[index]->Err_0));
        }
    } else if index < source.len() {
        if source[index] is Ok {
        } else {
            assert(source[index] == Err::<UniformPrefixCurve, E>(source[index]->Err_0));
        }
    }
}

/// A source is replayed whole exactly if it gives the expected number of curves; otherwise it is
/// told that it is too short, too long, or its first failure.
pub proof fn sources_give_the_expected_curves<E>(
    source: Seq<Result<UniformPrefixCurve, E>>,
    expected: u64,
)
    requires
        source.len() <= u64::MAX,
    ensures
        match source_error(source, expected, 0) {
            None => source.len() == expected && all_curves(source, expected as int),
            Some(UniformProfileAllocError::CurveSourceShort { expected: wanted, actual }) => {
                &&& wanted == expected
                &&& actual == source.len()
                &&& actual < expected
                &&& all_curves(source, expected as int)
            },
            Some(UniformProfileAllocError::CurveSourceLong { expected: wanted }) => {
                &&& wanted == expected
                &&& source.len() > expected
                &&& all_curves(source, expected + 1)
            },
            Some(UniformProfileAllocError::Source(error)) => exists|k: int|
                {
                    &&& 0 <= k <= expected
                    &&& k < source.len()
                    &&& #[trigger] source[k] == Err::<UniformPrefixCurve, E>(error)
                    &&& all_curves(source, k)
                },
            Some(_) => false,
        },
{
    lemma_source(source, expected, 0);
}

} // verus!
