//! Laws of exact-byte allocation.

use crate::allocator::{first_planes, nested_realizes};
use crate::float_bits::f64_units;
use crate::physical::{
    plane_prefix, GroupCandidates, NestedProfileAllocation, NestedProfileBudgets, ProfileBudget,
};
use crate::plane_model::{
    curve_fn, curve_total, curves_of, feasible, floors_valid, groups_valid, in_range, is_best,
    lemma_distortion_monotone, plane_sum, preferred, resident_of, serialized_of, total_distortion,
};
use crate::regular_optimum::{
    added_planes, ahead, equal_cost, lemma_ahead_is_preferred, lemma_equal_cost_bytes,
};
use crate::uniform::uniform_best;
use vstd::prelude::*;

verus! {

/// Whether a ceiling is at least another in both byte domains, with the same metadata.
pub open spec fn at_least(large: ProfileBudget, small: ProfileBudget) -> bool {
    &&& large.metadata == small.metadata
    &&& small.maximum.serialized <= large.maximum.serialized
    &&& small.maximum.resident <= large.maximum.resident
}

/// A larger budget never gives a larger distortion.
pub proof fn larger_budgets_are_never_worse(
    groups: Seq<GroupCandidates<'_>>,
    floors: Seq<u8>,
    small: ProfileBudget,
    large: ProfileBudget,
    constrained: Seq<u8>,
    relaxed: Seq<u8>,
)
    requires
        at_least(large, small),
        is_best(groups, floors, small, constrained),
        is_best(groups, floors, large, relaxed),
    ensures
        total_distortion(groups, relaxed) <= total_distortion(groups, constrained),
{
    assert(feasible(groups, floors, large, constrained));
    if constrained != relaxed {
        assert(preferred(groups, large, relaxed, constrained));
    }
}

/// An allocation keeps its mandatory prefix and both byte ceilings.
pub proof fn allocations_keep_their_budget(
    groups: Seq<GroupCandidates<'_>>,
    floors: Seq<u8>,
    limit: ProfileBudget,
    planes: Seq<u8>,
)
    requires
        is_best(groups, floors, limit, planes),
    ensures
        plane_prefix(floors, planes),
        serialized_of(groups, limit, planes) <= limit.maximum.serialized,
        resident_of(groups, limit, planes) <= limit.maximum.resident,
{
    assert forall|g: int| 0 <= g < floors.len() implies floors[g] <= #[trigger] planes[g] by {
        assert(floors[g] <= planes[g] <= 3);
    }
}

/// The near-lossless profile contains the compact profile plane for plane, and never has a
/// larger distortion.
pub proof fn refinement_contains_the_compact_profile(
    allocation: NestedProfileAllocation,
    groups: Seq<GroupCandidates<'_>>,
    budgets: NestedProfileBudgets,
)
    requires
        groups_valid(groups),
        nested_realizes(allocation, groups, budgets),
    ensures
        plane_prefix(allocation.compact.plane_counts@, allocation.near_lossless.plane_counts@),
        total_distortion(groups, allocation.near_lossless.plane_counts@) <= total_distortion(
            groups,
            allocation.compact.plane_counts@,
        ),
{
    let low = allocation.compact.plane_counts@;
    let high = allocation.near_lossless.plane_counts@;
    assert forall|g: int| 0 <= g < low.len() implies 1 <= #[trigger] low[g] <= high[g] <= 3 by {
        assert(in_range(first_planes(groups.len()), low));
        assert(in_range(low, high));
        assert(first_planes(groups.len())[g] == 1);
        assert(low[g] <= high[g] <= 3);
    }
    lemma_distortion_monotone(groups, low, high);
}

/// Where every upgrade costs the same bytes and not nothing, a number of upgrades stands for both
/// byte ceilings: the vector that is best within that number is the one that is best within the
/// ceilings.
pub proof fn uniform_allocation_matches_the_byte_allocation(
    groups: Seq<GroupCandidates<'_>>,
    floors: Seq<u8>,
    limit: ProfileBudget,
    capacity: int,
    serialized: int,
    resident: int,
    planes: Seq<u8>,
)
    requires
        groups_valid(groups),
        floors_valid(groups, floors),
        equal_cost(groups, floors, serialized, resident),
        serialized >= 0,
        resident >= 0,
        serialized > 0 || resident > 0,
        forall|added: int|
            added <= capacity <==> serialized_of(groups, limit, floors) + #[trigger] (serialized
                * added) <= limit.maximum.serialized && resident_of(groups, limit, floors)
                + resident * added <= limit.maximum.resident,
    ensures
        uniform_best(curves_of(groups), floors, capacity, planes) <==> is_best(
            groups,
            floors,
            limit,
            planes,
        ),
{
    let curves = curves_of(groups);
    assert forall|other: Seq<u8>| #[trigger] in_range(floors, other) implies (feasible(
        groups,
        floors,
        limit,
        other,
    ) <==> added_planes(floors, other) <= capacity) by {
        lemma_equal_cost_bytes(groups, floors, limit, other, serialized, resident);
        let added = added_planes(floors, other);
        assert(serialized * added == serialized * added);
    }
    if uniform_best(curves, floors, capacity, planes) {
        assert forall|other: Seq<u8>| #[trigger]
            feasible(groups, floors, limit, other) && other != planes implies preferred(
            groups,
            limit,
            planes,
            other,
        ) by {
            assert(in_range(floors, other));
            assert(ahead(curves, floors, planes, other));
            lemma_ahead_is_preferred(groups, floors, limit, planes, other, serialized, resident);
        }
    }
    if is_best(groups, floors, limit, planes) {
        assert(in_range(floors, planes));
        assert forall|other: Seq<u8>| #[trigger]
            in_range(floors, other) && added_planes(floors, other) <= capacity && other
                != planes implies ahead(curves, floors, planes, other) by {
            assert(feasible(groups, floors, limit, other));
            assert(preferred(groups, limit, planes, other));
            lemma_ahead_is_preferred(groups, floors, limit, planes, other, serialized, resident);
        }
    }
}

/// The distortion that each group has at its plane count.
pub open spec fn selected_distortions(curves: Seq<Seq<u64>>, planes: Seq<u8>) -> Seq<u64> {
    Seq::new(planes.len(), |g: int| curves[g][planes[g] - 1])
}

/// The total of a plane vector is the exact sum of its groups' distortions.
proof fn lemma_total_is_sum(curves: Seq<Seq<u64>>, planes: Seq<u8>, count: int, start: nat)
    requires
        0 <= count <= planes.len(),
    ensures
        plane_sum(curve_fn(curves), planes, count) + start == selected_distortions(
            curves,
            planes,
        ).take(count).fold_right(|value: u64, sum: nat| sum + f64_units(value), start),
    decreases count,
{
    let add_term = |value: u64, sum: nat| sum + f64_units(value);
    let part = selected_distortions(curves, planes).take(count);
    if count > 0 {
        let last = part.last();
        assert(part.drop_last() =~= selected_distortions(curves, planes).take(count - 1));
        lemma_total_is_sum(curves, planes, count - 1, start + f64_units(last));
        assert(part.fold_right(add_term, start) == part.drop_last().fold_right(
            add_term,
            add_term(last, start),
        ));
    }
}

/// The exact total distortion does not depend on the order of the groups.
pub proof fn exact_totals_ignore_order(
    left: Seq<Seq<u64>>,
    left_planes: Seq<u8>,
    right: Seq<Seq<u64>>,
    right_planes: Seq<u8>,
)
    requires
        selected_distortions(left, left_planes).to_multiset() == selected_distortions(
            right,
            right_planes,
        ).to_multiset(),
    ensures
        curve_total(left, left_planes) == curve_total(right, right_planes),
{
    let add_term = |value: u64, sum: nat| sum + f64_units(value);
    let a = selected_distortions(left, left_planes);
    let b = selected_distortions(right, right_planes);
    lemma_total_is_sum(left, left_planes, left_planes.len() as int, 0);
    lemma_total_is_sum(right, right_planes, right_planes.len() as int, 0);
    assert(a.take(left_planes.len() as int) =~= a);
    assert(b.take(right_planes.len() as int) =~= b);
    vstd::seq_lib::lemma_fold_right_permutation(a, b, add_term, 0);
}

} // verus!
