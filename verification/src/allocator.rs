//! Exact physical-byte allocation of nested plane profiles.

use crate::exact::f64_rounded;
use crate::float_bits::{
    canonical_nonnegative_bits, f64_finite_nonnegative, f64_is_finite_nonnegative, f64_units,
    f64_units_order,
};
use crate::ledger::{all_measured, all_selected_bytes_measured, exact_total_distortion, sum_bytes};
use crate::pareto::{bounded_exact_plane_counts, pareto_error};
use crate::physical::{
    plane_prefix, GroupCandidates, NestedProfileAllocation, NestedProfileBudgets,
    PhysicalAllocError, PhysicalBytes, PlaneCandidate, ProfileAllocation, ProfileBudget,
    SaltV2Profile, SALT_V2_PLANES,
};
use crate::plane_model::{
    best_is_unique, feasible, floors_valid, group_valid, groups_valid, in_range, is_best,
    lemma_bytes_monotone, resident_of, serialized_of, total_distortion, total_resident,
    total_serialized, ByteMode,
};
use crate::regular::{regular_costs, regular_plane_counts};
use vstd::prelude::*;

verus! {

/// First defect of one group from candidate `index` on.
pub open spec fn candidate_error(candidates: Seq<PlaneCandidate>, group: int, index: int) -> Option<
    PhysicalAllocError,
>
    decreases candidates.len() - index,
{
    if index >= candidates.len() {
        None
    } else if candidates[index].planes != index + 1 {
        Some(
            PhysicalAllocError::PlaneOrdinal {
                group: group as usize,
                expected: (index + 1) as u8,
                actual: candidates[index].planes,
            },
        )
    } else if !f64_finite_nonnegative(candidates[index].distortion_bits) {
        Some(
            PhysicalAllocError::InvalidDistortion {
                group: group as usize,
                planes: candidates[index].planes,
                distortion_bits: candidates[index].distortion_bits,
            },
        )
    } else if index > 0 && f64_units(candidates[index].distortion_bits) > f64_units(
        candidates[index - 1].distortion_bits,
    ) {
        Some(
            PhysicalAllocError::NonMonotoneDistortion {
                group: group as usize,
                planes: candidates[index].planes,
            },
        )
    } else {
        candidate_error(candidates, group, index + 1)
    }
}

/// First defect among the groups from `index` on.
pub open spec fn group_error(groups: Seq<GroupCandidates<'_>>, index: int) -> Option<
    PhysicalAllocError,
>
    decreases groups.len() - index,
{
    if index >= groups.len() {
        None
    } else if groups[index].candidates@.len() != 3 {
        Some(
            PhysicalAllocError::CandidateCount {
                group: index as usize,
                count: groups[index].candidates@.len() as usize,
            },
        )
    } else if candidate_error(groups[index].candidates@, index, 0) is Some {
        candidate_error(groups[index].candidates@, index, 0)
    } else {
        group_error(groups, index + 1)
    }
}

/// Why the candidates themselves are refused, if they are.
pub open spec fn validation_error(groups: Seq<GroupCandidates<'_>>) -> Option<PhysicalAllocError> {
    if groups.len() == 0 {
        Some(PhysicalAllocError::EmptyGroups)
    } else {
        group_error(groups, 0)
    }
}

fn validate_group(candidates: &[PlaneCandidate], group: usize) -> (result: Result<
    (),
    PhysicalAllocError,
>)
    requires
        candidates@.len() == 3,
    ensures
        match result {
            Ok(_) => candidate_error(candidates@, group as int, 0) is None && group_valid(
                candidates@,
            ),
            Err(error) => candidate_error(candidates@, group as int, 0) == Some(error),
        },
{
    let mut index: usize = 0;
    while index < candidates.len()
        invariant
            index <= candidates@.len(),
            candidates@.len() == 3,
            candidate_error(candidates@, group as int, 0) == candidate_error(
                candidates@,
                group as int,
                index as int,
            ),
            forall|p: int|
                0 <= p < index ==> (#[trigger] candidates@[p]).planes == p + 1
                    && f64_finite_nonnegative(candidates@[p].distortion_bits),
            forall|p: int|
                1 <= p < index ==> f64_units((#[trigger] candidates@[p]).distortion_bits)
                    <= f64_units(candidates@[p - 1].distortion_bits),
        decreases candidates@.len() - index,
    {
        let candidate = candidates[index];
        let expected: u8 = (index + 1) as u8;
        if candidate.planes != expected {
            return Err(
                PhysicalAllocError::PlaneOrdinal { group, expected, actual: candidate.planes },
            );
        }
        if !f64_is_finite_nonnegative(candidate.distortion_bits) {
            return Err(
                PhysicalAllocError::InvalidDistortion {
                    group,
                    planes: candidate.planes,
                    distortion_bits: candidate.distortion_bits,
                },
            );
        }
        if index > 0 {
            let previous: u64 = candidates[index - 1].distortion_bits;
            proof {
                assert(f64_finite_nonnegative(candidates@[index - 1].distortion_bits));
                f64_units_order(candidate.distortion_bits, previous);
            }
            if canonical_nonnegative_bits(candidate.distortion_bits) > canonical_nonnegative_bits(
                previous,
            ) {
                return Err(
                    PhysicalAllocError::NonMonotoneDistortion { group, planes: candidate.planes },
                );
            }
        }
        index = index + 1;
    }
    Ok(())
}

/// Check every candidate before any allocation.
pub fn validate_groups(groups: &[GroupCandidates<'_>]) -> (result: Result<(), PhysicalAllocError>)
    ensures
        match result {
            Ok(_) => validation_error(groups@) is None && groups_valid(groups@),
            Err(error) => validation_error(groups@) == Some(error),
        },
{
    if groups.len() == 0 {
        return Err(PhysicalAllocError::EmptyGroups);
    }
    let mut group: usize = 0;
    while group < groups.len()
        invariant
            group <= groups@.len(),
            group_error(groups@, 0) == group_error(groups@, group as int),
            forall|g: int| 0 <= g < group ==> group_valid(#[trigger] groups@[g].candidates@),
        decreases groups@.len() - group,
    {
        let candidates = groups[group].candidates;
        if candidates.len() != SALT_V2_PLANES {
            return Err(PhysicalAllocError::CandidateCount { group, count: candidates.len() });
        }
        match validate_group(candidates, group) {
            Err(error) => {
                return Err(error);
            },
            Ok(_) => {},
        }
        group = group + 1;
    }
    Ok(())
}

/// The best vector of a profile.
pub open spec fn best_planes(
    groups: Seq<GroupCandidates<'_>>,
    floors: Seq<u8>,
    limit: ProfileBudget,
) -> Seq<u8> {
    choose|planes: Seq<u8>| is_best(groups, floors, limit, planes)
}

/// Why one profile is refused over a mandatory prefix, if it is.
pub open spec fn profile_error(
    groups: Seq<GroupCandidates<'_>>,
    floors: Seq<u8>,
    limit: ProfileBudget,
    profile: SaltV2Profile,
) -> Option<PhysicalAllocError> {
    let serialized = serialized_of(groups, limit, floors);
    let resident = resident_of(groups, limit, floors);
    let planes = best_planes(groups, floors, limit);
    if serialized > u64::MAX || resident > u64::MAX {
        Some(PhysicalAllocError::AccountingOverflow { profile })
    } else if serialized > limit.maximum.serialized || resident > limit.maximum.resident {
        Some(
            PhysicalAllocError::BudgetTooSmall {
                profile,
                required: PhysicalBytes {
                    serialized: serialized as u64,
                    resident: resident as u64,
                },
                maximum: limit.maximum,
            },
        )
    } else if !regular_costs(groups, floors) && pareto_error(
        groups,
        floors,
        limit,
        profile,
        0,
    ) is Some {
        pareto_error(groups, floors, limit, profile, 0)
    } else if total_serialized(groups, planes, limit.metadata, ByteMode::Declared) > u64::MAX
        || total_resident(groups, planes, limit.metadata, ByteMode::Declared) > u64::MAX
        || f64_rounded(total_distortion(groups, planes) as nat) is None {
        Some(PhysicalAllocError::AccountingOverflow { profile })
    } else {
        None
    }
}

/// An allocation holds the best vector and its exact ledger.
pub open spec fn realizes(
    allocation: ProfileAllocation,
    groups: Seq<GroupCandidates<'_>>,
    floors: Seq<u8>,
    limit: ProfileBudget,
) -> bool {
    let planes = allocation.plane_counts@;
    &&& is_best(groups, floors, limit, planes)
    &&& allocation.physical_bytes.serialized == serialized_of(groups, limit, planes)
    &&& allocation.physical_bytes.resident == resident_of(groups, limit, planes)
    &&& allocation.declared_bytes.serialized == total_serialized(
        groups,
        planes,
        limit.metadata,
        ByteMode::Declared,
    )
    &&& allocation.declared_bytes.resident == total_resident(
        groups,
        planes,
        limit.metadata,
        ByteMode::Declared,
    )
    &&& f64_rounded(total_distortion(groups, planes) as nat) == Some(
        allocation.total_distortion_bits,
    )
    &&& allocation.all_selected_bytes_measured == all_measured(groups, planes, limit.metadata)
}

/// Allocate one profile above a mandatory prefix.
pub fn allocate_profile(
    groups: &[GroupCandidates<'_>],
    limit: ProfileBudget,
    floors: &[u8],
    profile: SaltV2Profile,
) -> (result: Result<ProfileAllocation, PhysicalAllocError>)
    requires
        groups_valid(groups@),
        floors_valid(groups@, floors@),
    ensures
        match result {
            Ok(allocation) => profile_error(groups@, floors@, limit, profile) is None && realizes(
                allocation,
                groups@,
                floors@,
                limit,
            ),
            Err(error) => profile_error(groups@, floors@, limit, profile) == Some(error),
        },
{
    let minimum = match sum_bytes(
        groups,
        floors,
        limit.metadata,
        ByteMode::Effective,
    ).to_physical() {
        None => {
            return Err(PhysicalAllocError::AccountingOverflow { profile });
        },
        Some(minimum) => minimum,
    };
    if !minimum.fits_within(limit.maximum) {
        return Err(
            PhysicalAllocError::BudgetTooSmall {
                profile,
                required: minimum,
                maximum: limit.maximum,
            },
        );
    }
    assert(in_range(floors@, floors@)) by {
        assert forall|g: int| 0 <= g < floors@.len() implies floors@[g] <= #[trigger] floors@[g]
            <= 3 by {
            assert(1 <= floors@[g] <= 3);
        }
    }
    let plane_counts: Vec<u8> = match exact_plane_counts(
        groups,
        floors,
        limit,
        minimum,
        profile,
    ) {
        Err(error) => {
            return Err(error);
        },
        Ok(plane_counts) => plane_counts,
    };
    let ghost planes = plane_counts@;
    proof {
        assert(is_best(groups@, floors@, limit, best_planes(groups@, floors@, limit)));
        best_is_unique(groups@, floors@, limit, planes, best_planes(groups@, floors@, limit));
        assert(floors_valid(groups@, planes)) by {
            assert forall|g: int| 0 <= g < planes.len() implies 1 <= #[trigger] planes[g] <= 3 by {
                assert(floors@[g] <= planes[g] <= 3);
                assert(1 <= floors@[g]);
            }
        }
        assert forall|g: int| 0 <= g < floors@.len() implies #[trigger] floors@[g]
            <= planes[g] by {
            assert(floors@[g] <= planes[g] <= 3);
        }
        lemma_bytes_monotone(groups@, limit, floors@, planes);
    }
    let physical_bytes = sum_bytes(
        groups,
        &plane_counts,
        limit.metadata,
        ByteMode::Effective,
    ).to_physical().unwrap();
    let declared_bytes = match sum_bytes(
        groups,
        &plane_counts,
        limit.metadata,
        ByteMode::Declared,
    ).to_physical() {
        None => {
            return Err(PhysicalAllocError::AccountingOverflow { profile });
        },
        Some(bytes) => bytes,
    };
    let total_distortion_bits: u64 = match exact_total_distortion(
        groups,
        &plane_counts,
    ).to_f64_bits() {
        None => {
            return Err(PhysicalAllocError::AccountingOverflow { profile });
        },
        Some(bits) => bits,
    };
    let all_selected_bytes_measured = all_selected_bytes_measured(
        groups,
        &plane_counts,
        limit.metadata,
    );
    Ok(
        ProfileAllocation {
            plane_counts,
            declared_bytes,
            physical_bytes,
            total_distortion_bits,
            all_selected_bytes_measured,
        },
    )
}

/// The best vector: sorted prefixes when every remaining upgrade costs the
/// same, the bounded frontier otherwise.
fn exact_plane_counts(
    groups: &[GroupCandidates<'_>],
    floors: &[u8],
    limit: ProfileBudget,
    minimum: PhysicalBytes,
    profile: SaltV2Profile,
) -> (result: Result<Vec<u8>, PhysicalAllocError>)
    requires
        groups_valid(groups@),
        floors_valid(groups@, floors@),
        feasible(groups@, floors@, limit, floors@),
        minimum.serialized == serialized_of(groups@, limit, floors@),
        minimum.resident == resident_of(groups@, limit, floors@),
    ensures
        match result {
            Ok(planes) => is_best(groups@, floors@, limit, planes@) && (regular_costs(
                groups@,
                floors@,
            ) || pareto_error(groups@, floors@, limit, profile, 0) is None),
            Err(error) => !regular_costs(groups@, floors@) && pareto_error(
                groups@,
                floors@,
                limit,
                profile,
                0,
            ) == Some(error),
        },
{
    if let Some(plane_counts) = regular_plane_counts(groups, floors, limit, minimum) {
        return Ok(plane_counts);
    }
    let distortion = exact_total_distortion(groups, floors);
    bounded_exact_plane_counts(groups, floors, limit, minimum, distortion, profile)
}

/// One plane for every group.
pub open spec fn first_planes(count: nat) -> Seq<u8> {
    Seq::new(count, |g: int| 1u8)
}

/// Why a nested allocation is refused, if it is, when its plane vectors can be
/// reserved.
pub open spec fn nested_error(
    groups: Seq<GroupCandidates<'_>>,
    budgets: NestedProfileBudgets,
) -> Option<PhysicalAllocError> {
    let compact_floor = first_planes(groups.len());
    let near_lossless_floor = best_planes(groups, compact_floor, budgets.compact);
    if validation_error(groups) is Some {
        validation_error(groups)
    } else if profile_error(
        groups,
        compact_floor,
        budgets.compact,
        SaltV2Profile::CompactV1,
    ) is Some {
        profile_error(groups, compact_floor, budgets.compact, SaltV2Profile::CompactV1)
    } else {
        profile_error(
            groups,
            near_lossless_floor,
            budgets.near_lossless,
            SaltV2Profile::NearLosslessV1,
        )
    }
}

/// Both profiles hold the best vectors, the second above the first.
pub open spec fn nested_realizes(
    allocation: NestedProfileAllocation,
    groups: Seq<GroupCandidates<'_>>,
    budgets: NestedProfileBudgets,
) -> bool {
    &&& realizes(allocation.compact, groups, first_planes(groups.len()), budgets.compact)
    &&& realizes(
        allocation.near_lossless,
        groups,
        allocation.compact.plane_counts@,
        budgets.near_lossless,
    )
    &&& plane_prefix(allocation.compact.plane_counts@, allocation.near_lossless.plane_counts@)
}

/// No property of the inputs makes working memory unavailable.
proof fn lemma_candidate_error_kind(candidates: Seq<PlaneCandidate>, group: int, index: int)
    ensures
        candidate_error(candidates, group, index) matches Some(error) ==> !(error
            is WorkingMemoryUnavailable),
    decreases candidates.len() - index,
{
    if index < candidates.len() {
        lemma_candidate_error_kind(candidates, group, index + 1);
    }
}

proof fn lemma_group_error_kind(groups: Seq<GroupCandidates<'_>>, index: int)
    ensures
        group_error(groups, index) matches Some(error) ==> !(error is WorkingMemoryUnavailable),
    decreases groups.len() - index,
{
    if index < groups.len() {
        lemma_candidate_error_kind(groups[index].candidates@, index, 0);
        lemma_group_error_kind(groups, index + 1);
    }
}

proof fn lemma_pareto_error_kind(
    groups: Seq<GroupCandidates<'_>>,
    floors: Seq<u8>,
    limit: ProfileBudget,
    profile: SaltV2Profile,
    index: int,
)
    ensures
        pareto_error(groups, floors, limit, profile, index) matches Some(error) ==> !(error
            is WorkingMemoryUnavailable),
    decreases groups.len() - index,
{
    if index < groups.len() {
        lemma_pareto_error_kind(groups, floors, limit, profile, index + 1);
    }
}

/// Reserve a plane vector of a length; `None` when the allocator refuses, which it is not asked
/// for no planes.
fn try_reserved_planes(len: usize) -> (planes: Option<Vec<u8>>)
    ensures
        planes matches Some(vector) ==> vector@.len() == 0,
        len == 0 ==> planes is Some,
{
    let mut planes: Vec<u8> = Vec::new();
    if len == 0 {
        return Some(planes);
    }
    match planes.try_reserve(len) {
        Ok(_) => Some(planes),
        Err(_) => None,
    }
}

/// Fill an empty plane vector.
fn filled_plane_counts(room: Vec<u8>, len: usize, planes: u8) -> (counts: Vec<u8>)
    requires
        room@.len() == 0,
    ensures
        counts@ == Seq::new(len as nat, |g: int| planes),
{
    let mut counts: Vec<u8> = room;
    let mut index: usize = 0;
    assert(counts@ =~= Seq::new(0, |g: int| planes));
    while index < len
        invariant
            index <= len,
            counts@ == Seq::new(index as nat, |g: int| planes),
        decreases len - index,
    {
        counts.push(planes);
        index = index + 1;
        assert(counts@ =~= Seq::new(index as nat, |g: int| planes));
    }
    counts
}

/// Copy a plane vector into an empty one.
fn copied_plane_counts(room: Vec<u8>, source: &[u8]) -> (counts: Vec<u8>)
    requires
        room@.len() == 0,
    ensures
        counts@ == source@,
{
    let mut counts: Vec<u8> = room;
    let mut index: usize = 0;
    assert(counts@ =~= source@.take(0));
    while index < source.len()
        invariant
            index <= source@.len(),
            counts@ == source@.take(index as int),
        decreases source@.len() - index,
    {
        counts.push(source[index]);
        index = index + 1;
        assert(counts@ =~= source@.take(index as int));
    }
    assert(source@.take(index as int) =~= source@);
    counts
}

/// Allocate exact-byte CompactV1 and NearLosslessV1 plane prefixes.
///
/// The compact profile is allocated first. NearLosslessV1 starts at those exact
/// plane counts and can only append planes. Equal upgrade costs use an exact
/// chain decomposition, unequal ones an exact bounded Pareto frontier.
///
/// `WorkingMemoryUnavailable` is returned when the memory allocator refuses a
/// plane vector, which no property of the inputs decides.
pub fn allocate_nested_profiles(
    groups: &[GroupCandidates<'_>],
    budgets: &NestedProfileBudgets,
) -> (result: Result<NestedProfileAllocation, PhysicalAllocError>)
    ensures
        match result {
            Ok(allocation) => nested_error(groups@, *budgets) is None && nested_realizes(
                allocation,
                groups@,
                *budgets,
            ),
            Err(PhysicalAllocError::WorkingMemoryUnavailable { profile }) => validation_error(
                groups@,
            ) is None && (profile == SaltV2Profile::NearLosslessV1 ==> profile_error(
                groups@,
                first_planes(groups@.len()),
                budgets.compact,
                SaltV2Profile::CompactV1,
            ) is None),
            Err(error) => nested_error(groups@, *budgets) == Some(error),
        },
{
    proof {
        lemma_group_error_kind(groups@, 0);
        lemma_pareto_error_kind(
            groups@,
            first_planes(groups@.len()),
            budgets.compact,
            SaltV2Profile::CompactV1,
            0,
        );
        lemma_pareto_error_kind(
            groups@,
            best_planes(groups@, first_planes(groups@.len()), budgets.compact),
            budgets.near_lossless,
            SaltV2Profile::NearLosslessV1,
            0,
        );
    }
    let compact_room: Option<Vec<u8>> = try_reserved_planes(groups.len());
    let near_lossless_room: Option<Vec<u8>> = try_reserved_planes(groups.len());
    allocate_nested_profiles_in(groups, budgets, compact_room, near_lossless_room)
}

/// Allocate both profiles with vectors for their mandatory prefixes; `None` where memory for one
/// was refused.
pub fn allocate_nested_profiles_in(
    groups: &[GroupCandidates<'_>],
    budgets: &NestedProfileBudgets,
    compact_room: Option<Vec<u8>>,
    near_lossless_room: Option<Vec<u8>>,
) -> (result: Result<NestedProfileAllocation, PhysicalAllocError>)
    requires
        compact_room matches Some(empty) ==> empty@.len() == 0,
        near_lossless_room matches Some(empty) ==> empty@.len() == 0,
    ensures
        if validation_error(groups@) is Some {
            result == Err::<NestedProfileAllocation, PhysicalAllocError>(
                validation_error(groups@)->0,
            )
        } else if compact_room is None {
            result == Err::<NestedProfileAllocation, PhysicalAllocError>(
                PhysicalAllocError::WorkingMemoryUnavailable { profile: SaltV2Profile::CompactV1 },
            )
        } else if profile_error(
            groups@,
            first_planes(groups@.len()),
            budgets.compact,
            SaltV2Profile::CompactV1,
        ) is None && near_lossless_room is None {
            result == Err::<NestedProfileAllocation, PhysicalAllocError>(
                PhysicalAllocError::WorkingMemoryUnavailable {
                    profile: SaltV2Profile::NearLosslessV1,
                },
            )
        } else {
            match nested_error(groups@, *budgets) {
                Some(error) => result == Err::<NestedProfileAllocation, PhysicalAllocError>(error),
                None => result matches Ok(allocation) && nested_realizes(
                    allocation,
                    groups@,
                    *budgets,
                ),
            }
        },
{
    match validate_groups(groups) {
        Err(error) => {
            return Err(error);
        },
        Ok(_) => {},
    }
    let floor: Vec<u8> = match compact_room {
        None => {
            return Err(
                PhysicalAllocError::WorkingMemoryUnavailable { profile: SaltV2Profile::CompactV1 },
            );
        },
        Some(empty) => filled_plane_counts(empty, groups.len(), 1),
    };
    assert(floor@ =~= first_planes(groups@.len()));
    assert(floors_valid(groups@, floor@));
    let compact = match allocate_profile(
        groups,
        budgets.compact,
        &floor,
        SaltV2Profile::CompactV1,
    ) {
        Err(error) => {
            return Err(error);
        },
        Ok(compact) => compact,
    };
    let ghost chosen = compact.plane_counts@;
    proof {
        assert(is_best(groups@, floor@, budgets.compact, best_planes(
            groups@,
            floor@,
            budgets.compact,
        )));
        best_is_unique(
            groups@,
            floor@,
            budgets.compact,
            chosen,
            best_planes(groups@, floor@, budgets.compact),
        );
        assert(floors_valid(groups@, chosen)) by {
            assert forall|g: int| 0 <= g < chosen.len() implies 1 <= #[trigger] chosen[g] <= 3 by {
                assert(floor@[g] <= chosen[g] <= 3);
            }
        }
    }
    let near_lossless_floor: Vec<u8> = match near_lossless_room {
        None => {
            return Err(
                PhysicalAllocError::WorkingMemoryUnavailable {
                    profile: SaltV2Profile::NearLosslessV1,
                },
            );
        },
        Some(empty) => copied_plane_counts(empty, &compact.plane_counts),
    };
    let near_lossless = match allocate_profile(
        groups,
        budgets.near_lossless,
        &near_lossless_floor,
        SaltV2Profile::NearLosslessV1,
    ) {
        Err(error) => {
            return Err(error);
        },
        Ok(near_lossless) => near_lossless,
    };
    proof {
        let refined = near_lossless.plane_counts@;
        assert forall|g: int| 0 <= g < chosen.len() implies #[trigger] chosen[g] <= refined[g] by {
            assert(chosen[g] <= refined[g] <= 3);
        }
    }
    Ok(NestedProfileAllocation { compact, near_lossless })
}

} // verus!
