//! What plane allocations cost and gain, stated on the candidates themselves.

use crate::allocator::{group_error, candidate_error, validation_error};
use crate::float_bits::{f64_finite_nonnegative, f64_units};
use crate::ledger::all_measured;
use crate::physical::{ByteDelta, GroupCandidates, PhysicalBytes, PlaneCandidate, ProfileBudget};
use crate::plane_model::{
    curve_fn, curve_of, curve_total, curves_of, distortion_fn, feasible, is_best,
    lemma_plane_sum_update, plane_sum, prefix_cost, preferred, resident_fn, resident_of,
    serialized_fn, serialized_of, total_distortion, total_resident, total_serialized, ByteMode,
};
use crate::regular_optimum::{added_planes, ahead};
use crate::uniform::uniform_best;
use vstd::prelude::*;

verus! {

/// What a delta is charged: its measurement where it has one, else its declaration.
pub open spec fn charge(delta: ByteDelta) -> PhysicalBytes {
    if delta.measured is Some {
        delta.measured->0
    } else {
        delta.declared
    }
}

/// A plane more in one group adds that plane's charge to both byte totals and its declaration to
/// the declared totals, and replaces the group's distortion by the plane's.
pub proof fn a_plane_costs_its_delta(
    groups: Seq<GroupCandidates<'_>>,
    limit: ProfileBudget,
    planes: Seq<u8>,
    group: int,
)
    requires
        planes.len() == groups.len(),
        0 <= group < groups.len(),
        1 <= planes[group] < 3,
        groups[group].candidates@.len() == 3,
    ensures
        ({
            let raised = planes.update(group, (planes[group] + 1) as u8);
            let added = groups[group].candidates@[planes[group] as int];
            let replaced = groups[group].candidates@[planes[group] - 1];
            &&& serialized_of(groups, limit, raised) == serialized_of(groups, limit, planes)
                + charge(added.byte_delta).serialized
            &&& resident_of(groups, limit, raised) == resident_of(groups, limit, planes) + charge(
                added.byte_delta,
            ).resident
            &&& total_serialized(groups, raised, limit.metadata, ByteMode::Declared)
                == total_serialized(groups, planes, limit.metadata, ByteMode::Declared)
                + added.byte_delta.declared.serialized
            &&& total_resident(groups, raised, limit.metadata, ByteMode::Declared)
                == total_resident(groups, planes, limit.metadata, ByteMode::Declared)
                + added.byte_delta.declared.resident
            &&& total_distortion(groups, raised) - total_distortion(groups, planes) == f64_units(
                added.distortion_bits,
            ) - f64_units(replaced.distortion_bits)
        }),
{
    let count = planes.len() as int;
    let value = (planes[group] + 1) as u8;
    let p = planes[group] as int;
    lemma_plane_sum_update(
        serialized_fn(groups, ByteMode::Effective),
        planes,
        count,
        group,
        value,
    );
    lemma_plane_sum_update(
        resident_fn(groups, ByteMode::Effective),
        planes,
        count,
        group,
        value,
    );
    lemma_plane_sum_update(serialized_fn(groups, ByteMode::Declared), planes, count, group, value);
    lemma_plane_sum_update(resident_fn(groups, ByteMode::Declared), planes, count, group, value);
    lemma_plane_sum_update(distortion_fn(groups), planes, count, group, value);
    assert(curves_of(groups)[group] == curve_of(groups[group].candidates@));
}

/// One plane for every group costs the metadata and every group's first plane: with one group
/// more, the totals grow by its first plane's charge and distortion, and without groups they are
/// the metadata's charge and nothing.
pub proof fn first_planes_cost_their_deltas(
    groups: Seq<GroupCandidates<'_>>,
    limit: ProfileBudget,
    planes: Seq<u8>,
    more: GroupCandidates<'_>,
)
    requires
        planes.len() == groups.len(),
        more.candidates@.len() == 3,
    ensures
        ({
            let first = more.candidates@[0];
            let grown = groups.push(more);
            let counts = planes.push(1);
            &&& serialized_of(grown, limit, counts) == serialized_of(groups, limit, planes)
                + charge(first.byte_delta).serialized
            &&& resident_of(grown, limit, counts) == resident_of(groups, limit, planes) + charge(
                first.byte_delta,
            ).resident
            &&& total_distortion(grown, counts) == total_distortion(groups, planes) + f64_units(
                first.distortion_bits,
            )
        }),
        groups.len() == 0 ==> serialized_of(groups, limit, planes) == charge(
            limit.metadata,
        ).serialized && resident_of(groups, limit, planes) == charge(limit.metadata).resident
            && total_distortion(groups, planes) == 0,
{
    let grown = groups.push(more);
    let counts = planes.push(1);
    let n = planes.len() as int;
    reveal_with_fuel(prefix_cost, 2);
    lemma_longer_sum(serialized_fn(groups, ByteMode::Effective), serialized_fn(
        grown,
        ByteMode::Effective,
    ), planes, counts, n);
    lemma_longer_sum(resident_fn(groups, ByteMode::Effective), resident_fn(
        grown,
        ByteMode::Effective,
    ), planes, counts, n);
    assert forall|g: int, p: int| 0 <= g < n implies #[trigger] distortion_fn(groups)(g, p)
        == distortion_fn(grown)(g, p) by {
        assert(curves_of(groups)[g] == curves_of(grown)[g]);
    }
    lemma_longer_sum(distortion_fn(groups), distortion_fn(grown), planes, counts, n);
    assert(curves_of(grown)[n] == curve_of(more.candidates@));
}

proof fn lemma_longer_sum(
    f: spec_fn(int, int) -> int,
    g: spec_fn(int, int) -> int,
    planes: Seq<u8>,
    longer: Seq<u8>,
    count: int,
)
    requires
        0 <= count <= planes.len(),
        count <= longer.len(),
        forall|k: int| 0 <= k < count ==> planes[k] == longer[k],
        forall|k: int, p: int| 0 <= k < count ==> #[trigger] f(k, p) == g(k, p),
    ensures
        plane_sum(f, planes, count) == plane_sum(g, longer, count),
    decreases count,
{
    if count > 0 {
        lemma_longer_sum(f, g, planes, longer, count - 1);
        let p = planes[count - 1] as int;
        assert(f(count - 1, p) == g(count - 1, p));
    }
}

/// No plane vector within the floors, the cap of three planes and both ceilings has a smaller
/// total distortion than the best one; of those with the same distortion none has fewer
/// serialized bytes, of those again none fewer resident bytes, and of those again the best one
/// has more planes in the first group where they differ.
pub proof fn nothing_within_the_budget_is_better(
    groups: Seq<GroupCandidates<'_>>,
    floors: Seq<u8>,
    limit: ProfileBudget,
    best: Seq<u8>,
    other: Seq<u8>,
)
    requires
        is_best(groups, floors, limit, best),
        other.len() == floors.len(),
        forall|g: int| 0 <= g < floors.len() ==> floors[g] <= #[trigger] other[g] <= 3,
        serialized_of(groups, limit, other) <= limit.maximum.serialized,
        resident_of(groups, limit, other) <= limit.maximum.resident,
    ensures
        best.len() == floors.len(),
        forall|g: int| 0 <= g < floors.len() ==> floors[g] <= #[trigger] best[g] <= 3,
        serialized_of(groups, limit, best) <= limit.maximum.serialized,
        resident_of(groups, limit, best) <= limit.maximum.resident,
        total_distortion(groups, best) <= total_distortion(groups, other),
        total_distortion(groups, best) == total_distortion(groups, other) ==> {
            &&& serialized_of(groups, limit, best) <= serialized_of(groups, limit, other)
            &&& serialized_of(groups, limit, best) == serialized_of(groups, limit, other) ==> {
                &&& resident_of(groups, limit, best) <= resident_of(groups, limit, other)
                &&& resident_of(groups, limit, best) == resident_of(groups, limit, other) && best
                    != other ==> exists|g: int|
                    0 <= g < best.len() && #[trigger] best[g] > other[g] && forall|h: int|
                        0 <= h < g ==> #[trigger] best[h] == other[h]
            }
        },
{
    assert(feasible(groups, floors, limit, other));
    if best != other {
        assert(preferred(groups, limit, best, other));
    }
}

/// A ledger counts as measured exactly when its metadata and every plane that it selects are.
pub proof fn measured_means_every_selected_delta(
    groups: Seq<GroupCandidates<'_>>,
    planes: Seq<u8>,
    metadata: ByteDelta,
)
    ensures
        all_measured(groups, planes, metadata) <==> metadata.measured is Some && forall|g: int, p: int|
            0 <= g < groups.len() && 0 <= p < planes[g] ==> (
            #[trigger] groups[g].candidates@[p]).byte_delta.measured is Some,
{
}

/// Whether a group has three candidates with ordinals one to three and finite, nonnegative
/// distortions that never grow.
pub open spec fn sound_group(candidates: Seq<PlaneCandidate>) -> bool {
    &&& candidates.len() == 3
    &&& candidates[0].planes == 1 && candidates[1].planes == 2 && candidates[2].planes == 3
    &&& f64_finite_nonnegative(candidates[0].distortion_bits)
    &&& f64_finite_nonnegative(candidates[1].distortion_bits)
    &&& f64_finite_nonnegative(candidates[2].distortion_bits)
    &&& f64_units(candidates[0].distortion_bits) >= f64_units(candidates[1].distortion_bits)
    &&& f64_units(candidates[1].distortion_bits) >= f64_units(candidates[2].distortion_bits)
}

proof fn lemma_sound_from(groups: Seq<GroupCandidates<'_>>, from: int)
    requires
        0 <= from <= groups.len(),
    ensures
        group_error(groups, from) is None <==> forall|g: int|
            from <= g < groups.len() ==> sound_group(#[trigger] groups[g].candidates@),
    decreases groups.len() - from,
{
    if from < groups.len() {
        lemma_sound_from(groups, from + 1);
        let candidates = groups[from].candidates@;
        reveal_with_fuel(candidate_error, 4);
        if candidates.len() == 3 {
            assert(candidate_error(candidates, from, 0) is None <==> sound_group(candidates));
        }
        if group_error(groups, from) is None {
            assert forall|g: int| from <= g < groups.len() implies sound_group(
                #[trigger] groups[g].candidates@,
            ) by {}
        } else if forall|g: int|
            from <= g < groups.len() ==> sound_group(#[trigger] groups[g].candidates@) {
            assert(sound_group(groups[from].candidates@));
        }
    }
}

/// Candidates are accepted exactly when there is a group and every group is sound.
pub proof fn only_sound_groups_are_accepted(groups: Seq<GroupCandidates<'_>>)
    ensures
        validation_error(groups) is None <==> groups.len() > 0 && forall|g: int|
            0 <= g < groups.len() ==> sound_group(#[trigger] groups[g].candidates@),
{
    lemma_sound_from(groups, 0);
}

/// A plane more in one group is one more added plane, and the floor adds none.
pub proof fn added_planes_are_counted(floors: Seq<u8>, planes: Seq<u8>, group: int)
    requires
        planes.len() == floors.len(),
        0 <= group < planes.len(),
        planes[group] < 255,
    ensures
        added_planes(floors, floors) == 0,
        added_planes(floors, planes.update(group, (planes[group] + 1) as u8)) == added_planes(
            floors,
            planes,
        ) + 1,
{
    lemma_plane_sum_update(
        crate::plane_model::count_fn(),
        planes,
        planes.len() as int,
        group,
        (planes[group] + 1) as u8,
    );
}

/// A plane more in one group replaces the group's distortion by the next one of its curve.
pub proof fn a_plane_moves_along_its_curve(curves: Seq<Seq<u64>>, planes: Seq<u8>, group: int)
    requires
        planes.len() == curves.len(),
        0 <= group < curves.len(),
        1 <= planes[group] < 3,
    ensures
        curve_total(curves, planes.update(group, (planes[group] + 1) as u8)) - curve_total(
            curves,
            planes,
        ) == f64_units(curves[group][planes[group] as int]) - f64_units(
            curves[group][planes[group] - 1],
        ),
{
    lemma_plane_sum_update(
        curve_fn(curves),
        planes,
        planes.len() as int,
        group,
        (planes[group] + 1) as u8,
    );
}

/// No vector above the floors with at most as many added planes as allowed has a smaller total
/// distortion than the uniform best one, and of those with the same distortion none adds fewer.
pub proof fn no_uniform_choice_is_better(
    curves: Seq<Seq<u64>>,
    floors: Seq<u8>,
    capacity: int,
    best: Seq<u8>,
    other: Seq<u8>,
)
    requires
        uniform_best(curves, floors, capacity, best),
        other.len() == floors.len(),
        forall|g: int| 0 <= g < floors.len() ==> floors[g] <= #[trigger] other[g] <= 3,
        added_planes(floors, other) <= capacity,
    ensures
        best.len() == floors.len(),
        forall|g: int| 0 <= g < floors.len() ==> floors[g] <= #[trigger] best[g] <= 3,
        added_planes(floors, best) <= capacity,
        curve_total(curves, best) <= curve_total(curves, other),
        curve_total(curves, best) == curve_total(curves, other) ==> added_planes(floors, best)
            <= added_planes(floors, other),
        curve_total(curves, best) == curve_total(curves, other) && added_planes(floors, best)
            == added_planes(floors, other) && best != other ==> exists|g: int|
            0 <= g < best.len() && #[trigger] best[g] > other[g] && forall|h: int|
                0 <= h < g ==> #[trigger] best[h] == other[h],
{
    assert(crate::plane_model::in_range(floors, other));
    if best != other {
        assert(ahead(curves, floors, best, other));
    }
}

} // verus!
