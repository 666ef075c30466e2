//! Exact scalable solver for equal upgrade costs.

use crate::exact::ExactReduction;
use crate::float_bits::{f64_finite_nonnegative, f64_units};
use crate::ledger::{copy_planes, distortion_bits_at};
use crate::physical::{GroupCandidates, PhysicalBytes, ProfileBudget};
use crate::plane_model::{
    count_fn, counts_valid, curve_valid, curves_of, curves_valid, feasible, floors_valid,
    group_valid, groups_valid, in_range, is_best, lemma_distortion_monotone, lemma_group_curve,
    lemma_group_curves, lemma_lex_total, lex_greater, mode_bytes, plane_sum, preferred,
    resident_of, serialized_of, ByteMode,
};
use crate::ranked::{ranked, sort_ranked, ExactPrefixIndex, LexGroupIndex, RankedUpgrade};
use crate::regular_index::RegularIndexes;
use crate::regular_model::{BundledUpgrade, Regular, UnitUpgrade};
use crate::regular_optimum::{
    added_planes, equal_cost, lemma_ahead_is_preferred, lemma_equal_cost_bytes,
};
use vstd::prelude::*;

verus! {

/// Costs of the upgrades above the floors.
enum UpgradeCosts {
    /// Every group stands at its last plane.
    Exhausted,
    /// Every upgrade costs the same bytes.
    Equal(PhysicalBytes),
    /// Two upgrades differ in cost.
    Mixed,
}

/// Whether every upgrade above the floors costs the same bytes.
pub open spec fn regular_costs(groups: Seq<GroupCandidates<'_>>, floors: Seq<u8>) -> bool {
    exists|serialized: int, resident: int| equal_cost(groups, floors, serialized, resident)
}

/// Compare the costs of all upgrades above the floors.
fn upgrade_costs(groups: &[GroupCandidates<'_>], floors: &[u8]) -> (costs: UpgradeCosts)
    requires
        groups_valid(groups@),
        floors_valid(groups@, floors@),
    ensures
        match costs {
            UpgradeCosts::Exhausted => forall|g: int| 0 <= g < floors@.len() ==> #[trigger] floors@[g]
                == 3,
            UpgradeCosts::Equal(cost) => equal_cost(
                groups@,
                floors@,
                cost.serialized as int,
                cost.resident as int,
            ) && exists|g: int| 0 <= g < floors@.len() && #[trigger] floors@[g] < 3,
            UpgradeCosts::Mixed => !regular_costs(groups@, floors@),
        },
{
    let mut common: Option<PhysicalBytes> = None;
    let ghost mut witness: (int, int) = (0, 0);
    let mut group: usize = 0;
    while group < groups.len()
        invariant
            group <= groups@.len(),
            groups_valid(groups@),
            floors_valid(groups@, floors@),
            common is None ==> forall|g: int| 0 <= g < group ==> #[trigger] floors@[g] == 3,
            common matches Some(cost) ==> {
                &&& forall|g: int, q: int|
                    0 <= g < group && floors@[g] <= q < 3 ==> mode_bytes(
                        ByteMode::Effective,
                        (#[trigger] groups@[g].candidates@[q]).byte_delta,
                    ) == cost
                &&& 0 <= witness.0 < groups@.len() && floors@[witness.0] <= witness.1 < 3
                &&& mode_bytes(
                    ByteMode::Effective,
                    groups@[witness.0].candidates@[witness.1].byte_delta,
                ) == cost
            },
        decreases groups@.len() - group,
    {
        assert(group_valid(groups@[group as int].candidates@));
        assert(1 <= floors@[group as int] <= 3);
        let candidates = groups[group].candidates;
        let mut plane: usize = floors[group] as usize;
        while plane < 3
            invariant
                group < groups@.len(),
                floors_valid(groups@, floors@),
                candidates@ == groups@[group as int].candidates@,
                candidates@.len() == 3,
                floors@[group as int] <= plane <= 3,
                common is None ==> forall|g: int| 0 <= g < group ==> #[trigger] floors@[g] == 3,
                common is None ==> plane == floors@[group as int],
                common matches Some(cost) ==> {
                    &&& forall|g: int, q: int|
                        0 <= g < group && floors@[g] <= q < 3 ==> mode_bytes(
                            ByteMode::Effective,
                            (#[trigger] groups@[g].candidates@[q]).byte_delta,
                        ) == cost
                    &&& forall|q: int|
                        floors@[group as int] <= q < plane ==> mode_bytes(
                            ByteMode::Effective,
                            (#[trigger] groups@[group as int].candidates@[q]).byte_delta,
                        ) == cost
                    &&& 0 <= witness.0 < groups@.len() && floors@[witness.0] <= witness.1 < 3
                    &&& mode_bytes(
                        ByteMode::Effective,
                        groups@[witness.0].candidates@[witness.1].byte_delta,
                    ) == cost
                },
            decreases 3 - plane,
        {
            let cost = candidates[plane].byte_delta.effective();
            if let Some(expected) = common {
                if expected.serialized != cost.serialized || expected.resident != cost.resident {
                    proof {
                        let here = groups@[group as int].candidates@[plane as int];
                        let there = groups@[witness.0].candidates@[witness.1];
                        assert(mode_bytes(ByteMode::Effective, here.byte_delta) == cost);
                        assert(mode_bytes(ByteMode::Effective, there.byte_delta) == expected);
                        assert(!regular_costs(groups@, floors@));
                    }
                    return UpgradeCosts::Mixed;
                }
            } else {
                proof {
                    witness = (group as int, plane as int);
                    assert forall|g: int, q: int|
                        0 <= g < group && floors@[g] <= q < 3 implies mode_bytes(
                        ByteMode::Effective,
                        (#[trigger] groups@[g].candidates@[q]).byte_delta,
                    ) == cost by {
                        assert(floors@[g] == 3);
                    }
                }
                common = Some(cost);
            }
            plane = plane + 1;
        }
        group = group + 1;
    }
    match common {
        None => UpgradeCosts::Exhausted,
        Some(cost) => {
            assert(floors@[witness.0] < 3);
            UpgradeCosts::Equal(cost)
        },
    }
}

/// Sum of all upgrades above the floors.
fn available_upgrades(floors: &[u8]) -> (available: u128)
    requires
        forall|g: int| 0 <= g < floors@.len() ==> 1 <= #[trigger] floors@[g] <= 3,
    ensures
        available == 3 * floors@.len() - plane_sum(count_fn(), floors@, floors@.len() as int),
{
    let mut available: u128 = 0;
    let mut group: usize = 0;
    while group < floors.len()
        invariant
            group <= floors@.len(),
            forall|g: int| 0 <= g < floors@.len() ==> 1 <= #[trigger] floors@[g] <= 3,
            available == 3 * group - plane_sum(count_fn(), floors@, group as int),
            available <= 2 * group,
        decreases floors@.len() - group,
    {
        assert(1 <= floors@[group as int] <= 3);
        available = available + (3 - floors[group]) as u128;
        group = group + 1;
    }
    available
}

/// Upgrades of one cost that a remaining budget pays for.
fn equal_cost_capacity(remaining: u64, cost: u64, available: u128) -> (capacity: u128)
    ensures
        capacity <= available,
        forall|n: int| 0 <= n <= available ==> (n <= capacity <==> #[trigger] (n * cost)
            <= remaining),
{
    if cost == 0 {
        assert forall|n: int| 0 <= n <= available implies #[trigger] (n * cost) <= remaining by {
            assert(n * cost == 0) by (nonlinear_arith)
                requires
                    cost == 0,
            ;
        }
        return available;
    }
    let quotient: u128 = (remaining / cost) as u128;
    let capacity: u128 = if quotient <= available {
        quotient
    } else {
        available
    };
    assert forall|n: int| 0 <= n <= available implies (n <= capacity <==> #[trigger] (n * cost)
        <= remaining) by {
        assert(n <= remaining / cost <==> n * cost <= remaining) by (nonlinear_arith)
            requires
                cost > 0,
                0 <= n,
                0 <= remaining,
        ;
    }
    capacity
}

/// Plane totals of a vector in range.
pub proof fn lemma_planes_bounds(floors: Seq<u8>, planes: Seq<u8>, count: int)
    requires
        in_range(floors, planes),
        0 <= count <= floors.len(),
    ensures
        plane_sum(count_fn(), floors, count) <= plane_sum(count_fn(), planes, count) <= 3 * count,
        plane_sum(count_fn(), floors, count) == plane_sum(count_fn(), planes, count) ==> forall|
            g: int,
        |
            0 <= g < count ==> #[trigger] planes[g] == floors[g],
    decreases count,
{
    if count > 0 {
        lemma_planes_bounds(floors, planes, count - 1);
        assert(floors[count - 1] <= planes[count - 1] <= 3);
    }
}

/// Upgrades of one group: up to two units, or one bundle.
pub struct GroupUpgrades {
    /// Unit to the second plane.
    pub second: Option<UnitUpgrade>,
    /// Unit to the third plane.
    pub third: Option<UnitUpgrade>,
    /// Both planes together.
    pub bundle: Option<BundledUpgrade>,
}

/// The problem without its upgrade lists.
pub open spec fn bare(curves: Seq<Seq<u64>>, floors: Seq<u8>) -> Regular {
    Regular { curves, floors, units: Seq::empty(), bundles: Seq::empty() }
}

/// The upgrades are exactly those of one group.
pub open spec fn upgrades_of(frame: Regular, group: int, upgrades: GroupUpgrades) -> bool {
    &&& upgrades.second matches Some(unit) ==> frame.unit_sound(unit) && unit.group == group
        && unit.target_planes == 2
    &&& upgrades.third matches Some(unit) ==> frame.unit_sound(unit) && unit.group == group
        && unit.target_planes == 3
    &&& upgrades.bundle matches Some(bundle) ==> frame.bundle_sound(bundle) && bundle.group
        == group
    &&& upgrades.bundle is Some <==> frame.nonconcave(group)
    &&& upgrades.second is Some <==> !frame.nonconcave(group) && frame.floors[group] < 2 && frame.d(
        group,
        2,
    ) < frame.d(group, 1)
    &&& upgrades.third is Some <==> !frame.nonconcave(group) && frame.floors[group] < 3 && frame.d(
        group,
        3,
    ) < frame.d(group, 2)
}

/// The two lists after appending the upgrades of one group.
pub open spec fn with_units(units: Seq<UnitUpgrade>, upgrades: GroupUpgrades) -> Seq<UnitUpgrade> {
    let first = match upgrades.second {
        Some(unit) => units.push(unit),
        None => units,
    };
    match upgrades.third {
        Some(unit) => first.push(unit),
        None => first,
    }
}

/// The bundle list after appending the upgrades of one group.
pub open spec fn with_bundle(bundles: Seq<BundledUpgrade>, upgrades: GroupUpgrades) -> Seq<
    BundledUpgrade,
> {
    match upgrades.bundle {
        Some(bundle) => bundles.push(bundle),
        None => bundles,
    }
}

/// A unit with a positive reduction.
fn positive_unit(from: u64, to: u64, group: usize, target_planes: u8) -> (unit: Option<UnitUpgrade>)
    requires
        f64_finite_nonnegative(from),
        f64_finite_nonnegative(to),
        f64_units(to) <= f64_units(from),
    ensures
        unit is Some <==> f64_units(to) < f64_units(from),
        unit matches Some(u) ==> u.group == group && u.target_planes == target_planes
            && u.distortion_reduction.wf() && u.distortion_reduction.value() == f64_units(from)
            - f64_units(to),
{
    let reduction = ExactReduction::new(from, to).unwrap();
    proof {
        reduction.value_is_nonnegative();
    }
    if reduction.is_zero() {
        None
    } else {
        Some(UnitUpgrade { group, target_planes, distortion_reduction: reduction })
    }
}

/// Upgrades of one group above its floor.
pub fn group_upgrades(
    curve: [u64; 3],
    floor: u8,
    group: usize,
    Ghost(curves): Ghost<Seq<Seq<u64>>>,
    Ghost(floors): Ghost<Seq<u8>>,
) -> (upgrades: GroupUpgrades)
    requires
        curve_valid(curve@),
        1 <= floor <= 3,
        group < curves.len(),
        curves[group as int] == curve@,
        group < floors.len(),
        floors[group as int] == floor,
    ensures
        upgrades_of(bare(curves, floors), group as int, upgrades),
{
    let ghost frame = bare(curves, floors);
    assert(f64_finite_nonnegative(curve@[0]));
    assert(f64_finite_nonnegative(curve@[1]));
    assert(f64_finite_nonnegative(curve@[2]));
    let d1: u64 = curve[0];
    let d2: u64 = curve[1];
    let d3: u64 = curve[2];
    assert(frame.d(group as int, 1) == f64_units(d1));
    assert(frame.d(group as int, 2) == f64_units(d2));
    assert(frame.d(group as int, 3) == f64_units(d3));
    if floor == 1 {
        let first = ExactReduction::new(d1, d2).unwrap();
        let second = ExactReduction::new(d2, d3).unwrap();
        if first.less_than(second) {
            let whole = ExactReduction::new(d1, d3).unwrap();
            return GroupUpgrades {
                second: None,
                third: None,
                bundle: Some(
                    BundledUpgrade {
                        group,
                        distortion_reduction: whole,
                        first_plane_reduction: first,
                    },
                ),
            };
        }
    }
    let second: Option<UnitUpgrade> = if floor <= 1 {
        positive_unit(d1, d2, group, 2)
    } else {
        None
    };
    let third: Option<UnitUpgrade> = if floor <= 2 {
        positive_unit(d2, d3, group, 3)
    } else {
        None
    };
    GroupUpgrades { second, third, bundle: None }
}

/// Appending the upgrades of one group extends the listing.
pub proof fn lemma_listed_group(
    frame: Regular,
    units: Seq<UnitUpgrade>,
    bundles: Seq<BundledUpgrade>,
    upgrades: GroupUpgrades,
    group: int,
)
    requires
        listed(frame, units, bundles, group),
        upgrades_of(frame, group, upgrades),
        frame.floors[group] >= 1,
    ensures
        listed(frame, with_units(units, upgrades), with_bundle(bundles, upgrades), group + 1),
{
    let after = with_units(units, upgrades);
    let start = units.len() as int;
    assert forall|p: int|
        !frame.nonconcave(group) && frame.floors[group] < p <= 3 && #[trigger] frame.d(group, p)
            < frame.d(group, p - 1) implies exists|i: int|
        start <= i < after.len() && (#[trigger] after[i]).target_planes == p by {
        if p == 2 {
            assert(after[start].target_planes == 2);
        } else {
            assert(after[after.len() - 1].target_planes == 3);
        }
    }
    lemma_listed_step(frame, units, bundles, after, with_bundle(bundles, upgrades), group);
}

/// Rank complete lists and build their indexes.
pub fn ranked_indexes(
    units: Vec<UnitUpgrade>,
    bundles: Vec<BundledUpgrade>,
    Ghost(curves): Ghost<Seq<Seq<u64>>>,
    Ghost(floors): Ghost<Seq<u8>>,
) -> (indexes: RegularIndexes)
    requires
        curves_valid(curves),
        counts_valid(curves.len(), floors),
        listed(bare(curves, floors), units@, bundles@, curves.len() as int),
    ensures
        indexes.wf(curves, floors),
        indexes.units@.len() == units@.len(),
        indexes.bundles@.len() == bundles@.len(),
{
    let ghost frame = bare(curves, floors);
    let ghost raw_units = units@;
    let ghost raw_bundles = bundles@;
    proof {
        assert forall|i: int| 0 <= i < units@.len() implies (#[trigger] units@[i]).wf() by {
            assert(frame.unit_sound(units@[i]));
        }
        assert forall|i: int| 0 <= i < bundles@.len() implies (#[trigger] bundles@[i]).wf() by {
            assert(frame.bundle_sound(bundles@[i]));
        }
    }
    let units = sort_ranked(units);
    let bundles = sort_ranked(bundles);
    proof {
        lemma_sorted_lists(frame, raw_units, raw_bundles, units@, bundles@);
    }
    let unit_prefix = ExactPrefixIndex::new(&units);
    let bundle_prefix = ExactPrefixIndex::new(&bundles);
    let unit_lex = LexGroupIndex::new(&units);
    let bundle_lex = LexGroupIndex::new(&bundles);
    RegularIndexes { units, bundles, unit_prefix, bundle_prefix, unit_lex, bundle_lex }
}

/// Append the upgrades of one group to both lists.
pub fn push_upgrades(
    units: &mut Vec<UnitUpgrade>,
    bundles: &mut Vec<BundledUpgrade>,
    upgrades: GroupUpgrades,
)
    ensures
        final(units)@ == with_units(old(units)@, upgrades),
        final(bundles)@ == with_bundle(old(bundles)@, upgrades),
{
    if let Some(unit) = upgrades.second {
        units.push(unit);
    }
    if let Some(unit) = upgrades.third {
        units.push(unit);
    }
    if let Some(bundle) = upgrades.bundle {
        bundles.push(bundle);
    }
}

/// Collect and rank every upgrade above the floors.
fn ranked_upgrades(groups: &[GroupCandidates<'_>], floors: &[u8]) -> (indexes: RegularIndexes)
    requires
        groups_valid(groups@),
        floors_valid(groups@, floors@),
    ensures
        indexes.wf(curves_of(groups@), floors@),
        indexes.bundles@.len() <= groups@.len(),
{
    let mut units: Vec<UnitUpgrade> = Vec::new();
    let mut bundles: Vec<BundledUpgrade> = Vec::new();
    let ghost curves = curves_of(groups@);
    let mut group: usize = 0;
    while group < groups.len()
        invariant
            group <= groups@.len(),
            groups_valid(groups@),
            floors_valid(groups@, floors@),
            curves == curves_of(groups@),
            bundles@.len() <= group,
            listed(bare(curves, floors@), units@, bundles@, group as int),
        decreases groups@.len() - group,
    {
        assert(group_valid(groups@[group as int].candidates@));
        assert(1 <= floors@[group as int] <= 3);
        let current = &groups[group];
        let curve: [u64; 3] = [
            distortion_bits_at(current, 1),
            distortion_bits_at(current, 2),
            distortion_bits_at(current, 3),
        ];
        proof {
            lemma_group_curve(groups@[group as int].candidates@);
            assert(curve@ =~= curves[group as int]);
        }
        let upgrades = group_upgrades(curve, floors[group], group, Ghost(curves), Ghost(floors@));
        proof {
            lemma_listed_group(
                bare(curves, floors@),
                units@,
                bundles@,
                upgrades,
                group as int,
            );
        }
        push_upgrades(&mut units, &mut bundles, upgrades);
        group = group + 1;
    }
    proof {
        lemma_group_curves(groups@);
    }
    ranked_indexes(units, bundles, Ghost(curves), Ghost(floors@))
}

/// The lists hold exactly the upgrades of the groups below `count`.
pub open spec fn listed(
    frame: Regular,
    units: Seq<UnitUpgrade>,
    bundles: Seq<BundledUpgrade>,
    count: int,
) -> bool {
    &&& forall|i: int|
        0 <= i < units.len() ==> frame.unit_sound(#[trigger] units[i]) && units[i].group < count
    &&& forall|i: int|
        0 <= i < bundles.len() ==> frame.bundle_sound(#[trigger] bundles[i]) && bundles[i].group
            < count
    &&& forall|i: int, j: int|
        0 <= i < j < units.len() ==> (#[trigger] units[i]).group != (#[trigger] units[j]).group
            || units[i].target_planes != units[j].target_planes
    &&& forall|i: int, j: int|
        0 <= i < j < bundles.len() ==> (#[trigger] bundles[i]).group != (
        #[trigger] bundles[j]).group
    &&& forall|g: int, p: int|
        0 <= g < count && frame.floors[g] < p <= 3 && !frame.nonconcave(g) && #[trigger] frame.d(
            g,
            p,
        ) < frame.d(g, p - 1) ==> unit_at(units, g, p)
    &&& forall|g: int| 0 <= g < count && #[trigger] frame.nonconcave(g) ==> bundle_at(bundles, g)
}

/// Some unit appends plane `planes` to `group`.
pub open spec fn unit_at(units: Seq<UnitUpgrade>, group: int, planes: int) -> bool {
    exists|i: int|
        0 <= i < units.len() && (#[trigger] units[i]).group == group && units[i].target_planes
            == planes
}

/// Some bundle upgrades `group`.
pub open spec fn bundle_at(bundles: Seq<BundledUpgrade>, group: int) -> bool {
    exists|i: int| 0 <= i < bundles.len() && (#[trigger] bundles[i]).group == group
}

/// Appending the upgrades of one group extends the listing.
proof fn lemma_listed_step(
    frame: Regular,
    units_before: Seq<UnitUpgrade>,
    bundles_before: Seq<BundledUpgrade>,
    units: Seq<UnitUpgrade>,
    bundles: Seq<BundledUpgrade>,
    group: int,
)
    requires
        listed(frame, units_before, bundles_before, group),
        units_before.len() <= units.len(),
        bundles_before.len() <= bundles.len() <= bundles_before.len() + 1,
        units.len() <= units_before.len() + 2,
        forall|i: int| 0 <= i < units_before.len() ==> #[trigger] units[i] == units_before[i],
        forall|i: int| 0 <= i < bundles_before.len() ==> #[trigger] bundles[i] == bundles_before[i],
        forall|i: int|
            units_before.len() <= i < units.len() ==> frame.unit_sound(#[trigger] units[i])
                && units[i].group == group,
        forall|i: int|
            bundles_before.len() <= i < bundles.len() ==> frame.bundle_sound(
                #[trigger] bundles[i],
            ) && bundles[i].group == group,
        units.len() == units_before.len() + 2 ==> units[units_before.len() as int].target_planes
            != units[units_before.len() as int + 1].target_planes,
        !frame.nonconcave(group) ==> forall|p: int|
            frame.floors[group] < p <= 3 && #[trigger] frame.d(group, p) < frame.d(group, p - 1)
                ==> exists|i: int|
                units_before.len() <= i < units.len() && (#[trigger] units[i]).target_planes == p,
        frame.nonconcave(group) ==> bundles.len() == bundles_before.len() + 1,
    ensures
        listed(frame, units, bundles, group + 1),
{
    assert forall|i: int| 0 <= i < units.len() implies frame.unit_sound(#[trigger] units[i])
        && units[i].group < group + 1 by {
        if i < units_before.len() {
            assert(units[i] == units_before[i]);
        }
    }
    assert forall|i: int| 0 <= i < bundles.len() implies frame.bundle_sound(#[trigger] bundles[i])
        && bundles[i].group < group + 1 by {
        if i < bundles_before.len() {
            assert(bundles[i] == bundles_before[i]);
        }
    }
    assert forall|i: int, j: int| 0 <= i < j < units.len() implies (#[trigger] units[i]).group != (
    #[trigger] units[j]).group || units[i].target_planes != units[j].target_planes by {
        if j < units_before.len() {
            assert(units[i] == units_before[i]);
            assert(units[j] == units_before[j]);
        } else if i < units_before.len() {
            assert(units[i] == units_before[i]);
            assert(units_before[i].group < group);
        }
    }
    assert forall|i: int, j: int| 0 <= i < j < bundles.len() implies (#[trigger] bundles[i]).group
        != (#[trigger] bundles[j]).group by {
        assert(bundles[i] == bundles_before[i]);
        assert(bundles_before[i].group < group);
        if j < bundles_before.len() {
            assert(bundles[j] == bundles_before[j]);
        }
    }
    assert forall|g: int, p: int|
        0 <= g < group + 1 && frame.floors[g] < p <= 3 && !frame.nonconcave(g) && #[trigger] frame.d(
            g,
            p,
        ) < frame.d(g, p - 1) implies unit_at(units, g, p) by {
        if g < group {
            assert(unit_at(units_before, g, p));
            let i = choose|i: int|
                0 <= i < units_before.len() && (#[trigger] units_before[i]).group == g
                    && units_before[i].target_planes == p;
            assert(units[i] == units_before[i]);
        } else {
            let i = choose|i: int|
                units_before.len() <= i < units.len() && (#[trigger] units[i]).target_planes == p;
            assert(units[i].group == group);
        }
    }
    assert forall|g: int| 0 <= g < group + 1 && #[trigger] frame.nonconcave(g) implies bundle_at(
        bundles,
        g,
    ) by {
        if g < group {
            assert(bundle_at(bundles_before, g));
            let i = choose|i: int|
                0 <= i < bundles_before.len() && (#[trigger] bundles_before[i]).group == g;
            assert(bundles[i] == bundles_before[i]);
        } else {
            assert(bundles[bundles_before.len() as int].group == g);
        }
    }
}

proof fn lemma_same_elements<T>(raw: Seq<T>, sorted: Seq<T>)
    requires
        raw.to_multiset() == sorted.to_multiset(),
    ensures
        forall|x: T| #[trigger] raw.contains(x) == sorted.contains(x),
        raw.no_duplicates() ==> sorted.no_duplicates(),
{
    broadcast use vstd::seq_lib::group_to_multiset_ensures;

    assert forall|x: T| #[trigger] raw.contains(x) == sorted.contains(x) by {
        raw.to_multiset_ensures();
        sorted.to_multiset_ensures();
        assert(raw.to_multiset().contains(x) == raw.contains(x));
        assert(sorted.to_multiset().contains(x) == sorted.contains(x));
    }
    if raw.no_duplicates() {
        raw.lemma_multiset_has_no_duplicates();
        sorted.lemma_multiset_has_no_duplicates_conv();
    }
}

/// Ranking keeps a complete listing.
proof fn lemma_sorted_lists(
    frame: Regular,
    raw_units: Seq<UnitUpgrade>,
    raw_bundles: Seq<BundledUpgrade>,
    units: Seq<UnitUpgrade>,
    bundles: Seq<BundledUpgrade>,
)
    requires
        curves_valid(frame.curves),
        counts_valid(frame.curves.len(), frame.floors),
        listed(frame, raw_units, raw_bundles, frame.curves.len() as int),
        raw_units.to_multiset() == units.to_multiset(),
        raw_bundles.to_multiset() == bundles.to_multiset(),
        ranked(units),
        ranked(bundles),
    ensures
        (Regular { units, bundles, ..frame }).wf(),
{
    let model = Regular { units, bundles, ..frame };
    assert(raw_units.no_duplicates());
    assert(raw_bundles.no_duplicates());
    lemma_same_elements(raw_units, units);
    lemma_same_elements(raw_bundles, bundles);
    assert forall|r: int| 0 <= r < units.len() implies model.unit_sound(#[trigger] model.units[r])
        && raw_units.contains(units[r]) by {
        assert(units.contains(units[r]) && raw_units.contains(units[r]));
        let i = choose|i: int| 0 <= i < raw_units.len() && raw_units[i] == units[r];
        assert(frame.unit_sound(raw_units[i]));
    }
    assert forall|r: int| 0 <= r < bundles.len() implies model.bundle_sound(
        #[trigger] model.bundles[r],
    ) && raw_bundles.contains(bundles[r]) by {
        assert(bundles.contains(bundles[r]) && raw_bundles.contains(bundles[r]));
        let i = choose|i: int| 0 <= i < raw_bundles.len() && raw_bundles[i] == bundles[r];
        assert(frame.bundle_sound(raw_bundles[i]));
    }
    assert forall|r: int, s: int| 0 <= r < s < units.len() implies (#[trigger] model.units[r]).group
        != (#[trigger] model.units[s]).group || model.units[r].target_planes
        != model.units[s].target_planes by {
        assert(units.contains(units[r]) && raw_units.contains(units[r]));
        assert(units.contains(units[s]) && raw_units.contains(units[s]));
        let i = choose|i: int| 0 <= i < raw_units.len() && raw_units[i] == units[r];
        let j = choose|j: int| 0 <= j < raw_units.len() && raw_units[j] == units[s];
        assert(units[r] != units[s]);
        if i < j {
            assert(raw_units[i].group != raw_units[j].group || raw_units[i].target_planes
                != raw_units[j].target_planes);
        } else {
            assert(raw_units[j].group != raw_units[i].group || raw_units[j].target_planes
                != raw_units[i].target_planes);
        }
    }
    assert forall|r: int, s: int| 0 <= r < s < bundles.len() implies (
    #[trigger] model.bundles[r]).group != (#[trigger] model.bundles[s]).group by {
        assert(bundles.contains(bundles[r]) && raw_bundles.contains(bundles[r]));
        assert(bundles.contains(bundles[s]) && raw_bundles.contains(bundles[s]));
        let i = choose|i: int| 0 <= i < raw_bundles.len() && raw_bundles[i] == bundles[r];
        let j = choose|j: int| 0 <= j < raw_bundles.len() && raw_bundles[j] == bundles[s];
        assert(bundles[r] != bundles[s]);
        if i < j {
            assert(raw_bundles[i].group != raw_bundles[j].group);
        } else {
            assert(raw_bundles[j].group != raw_bundles[i].group);
        }
    }
    assert forall|g: int, p: int|
        0 <= g < model.curves.len() && model.floors[g] < p <= 3 && !model.nonconcave(g)
            && #[trigger] model.d(g, p) < model.d(g, p - 1) implies model.has_unit(g, p) by {
        assert(frame.d(g, p) < frame.d(g, p - 1));
        assert(!frame.nonconcave(g));
        assert(unit_at(raw_units, g, p));
        let i = choose|i: int|
            0 <= i < raw_units.len() && (#[trigger] raw_units[i]).group == g
                && raw_units[i].target_planes == p;
        assert(raw_units.contains(raw_units[i]));
        assert(units.contains(raw_units[i]));
        let r = choose|r: int| 0 <= r < units.len() && units[r] == raw_units[i];
        assert(model.units[r].group == g);
    }
    assert forall|g: int|
        0 <= g < model.curves.len() && #[trigger] model.nonconcave(g) implies model.has_bundle(
        g,
    ) by {
        assert(frame.nonconcave(g));
        assert(bundle_at(raw_bundles, g));
        let i = choose|i: int|
            0 <= i < raw_bundles.len() && (#[trigger] raw_bundles[i]).group == g;
        assert(raw_bundles.contains(raw_bundles[i]));
        assert(bundles.contains(raw_bundles[i]));
        let r = choose|r: int| 0 <= r < bundles.len() && bundles[r] == raw_bundles[i];
        assert(model.bundles[r].group == g);
    }
}

/// The best vector when every remaining upgrade costs the same bytes; `None`
/// exactly when two upgrades differ in cost.
pub fn regular_plane_counts(
    groups: &[GroupCandidates<'_>],
    floors: &[u8],
    limit: ProfileBudget,
    base: PhysicalBytes,
) -> (result: Option<Vec<u8>>)
    requires
        groups_valid(groups@),
        floors_valid(groups@, floors@),
        feasible(groups@, floors@, limit, floors@),
        base.serialized == serialized_of(groups@, limit, floors@),
        base.resident == resident_of(groups@, limit, floors@),
    ensures
        result is None ==> !regular_costs(groups@, floors@),
        result matches Some(planes) ==> regular_costs(groups@, floors@) && is_best(
            groups@,
            floors@,
            limit,
            planes@,
        ),
{
    let ghost n = floors@.len() as int;
    let cost: PhysicalBytes = match upgrade_costs(groups, floors) {
        UpgradeCosts::Mixed => {
            return None;
        },
        UpgradeCosts::Exhausted => {
            let planes: Vec<u8> = copy_planes(floors);
            proof {
                assert(equal_cost(groups@, floors@, 0, 0)) by {
                    assert forall|g: int, q: int|
                        0 <= g < groups@.len() && floors@[g] <= q < 3 implies {
                        let bytes = mode_bytes(
                            ByteMode::Effective,
                            (#[trigger] groups@[g].candidates@[q]).byte_delta,
                        );
                        bytes.serialized == 0 && bytes.resident == 0
                    } by {
                        assert(floors@[g] == 3);
                    }
                }
                assert forall|other: Seq<u8>| #[trigger]
                    feasible(groups@, floors@, limit, other) && other != planes@ implies preferred(
                    groups@,
                    limit,
                    planes@,
                    other,
                ) by {
                    assert forall|g: int| 0 <= g < n implies other[g] == floors@[g] by {
                        assert(floors@[g] == 3);
                        assert(floors@[g] <= other[g] <= 3);
                    }
                    assert(other =~= planes@);
                }
            }
            return Some(planes);
        },
        UpgradeCosts::Equal(cost) => cost,
    };
    let ghost cs = cost.serialized as int;
    let ghost cr = cost.resident as int;
    assert(regular_costs(groups@, floors@));
    let available: u128 = available_upgrades(floors);
    let serialized_capacity: u128 = equal_cost_capacity(
        limit.maximum.serialized - base.serialized,
        cost.serialized,
        available,
    );
    let resident_capacity: u128 = equal_cost_capacity(
        limit.maximum.resident - base.resident,
        cost.resident,
        available,
    );
    let capacity: u128 = if serialized_capacity <= resident_capacity {
        serialized_capacity
    } else {
        resident_capacity
    };
    proof {
        assert forall|other: Seq<u8>| #[trigger] in_range(floors@, other) implies (feasible(
            groups@,
            floors@,
            limit,
            other,
        ) <==> added_planes(floors@, other) <= capacity) && 0 <= added_planes(floors@, other)
            <= available by {
            lemma_equal_cost_bytes(groups@, floors@, limit, other, cs, cr);
            lemma_planes_bounds(floors@, other, n);
            let added = added_planes(floors@, other);
            assert(cs * added == added * cs) by (nonlinear_arith);
            assert(cr * added == added * cr) by (nonlinear_arith);
            assert(added <= serialized_capacity <==> (added * cost.serialized)
                <= limit.maximum.serialized - base.serialized);
            assert(added <= resident_capacity <==> (added * cost.resident)
                <= limit.maximum.resident - base.resident);
        }
    }
    if capacity == 0 {
        let planes: Vec<u8> = copy_planes(floors);
        proof {
            assert forall|other: Seq<u8>| #[trigger]
                feasible(groups@, floors@, limit, other) && other != planes@ implies preferred(
                groups@,
                limit,
                planes@,
                other,
            ) by {
                assert(in_range(floors@, other));
                lemma_planes_bounds(floors@, other, n);
                assert(other =~= planes@);
            }
        }
        return Some(planes);
    }
    if cost.serialized == 0 && cost.resident == 0 {
        let mut planes: Vec<u8> = Vec::new();
        let mut group: usize = 0;
        while group < groups.len()
            invariant
                group <= groups@.len(),
                planes@.len() == group,
                forall|g: int| 0 <= g < group ==> #[trigger] planes@[g] == 3,
            decreases groups@.len() - group,
        {
            planes.push(3);
            group = group + 1;
        }
        proof {
            let all = planes@;
            assert(in_range(floors@, all)) by {
                assert forall|g: int| 0 <= g < n implies floors@[g] <= #[trigger] all[g] <= 3 by {
                    assert(1 <= floors@[g] <= 3);
                }
            }
            lemma_equal_cost_bytes(groups@, floors@, limit, all, 0, 0);
            assert(0 * added_planes(floors@, all) == 0);
            assert forall|other: Seq<u8>| #[trigger]
                feasible(groups@, floors@, limit, other) && other != all implies preferred(
                groups@,
                limit,
                all,
                other,
            ) by {
                lemma_equal_cost_bytes(groups@, floors@, limit, other, 0, 0);
                assert(0 * added_planes(floors@, other) == 0);
                assert forall|g: int| 0 <= g < n implies 1 <= #[trigger] other[g] <= all[g]
                    <= 3 by {
                    assert(floors@[g] <= other[g] <= 3);
                    assert(1 <= floors@[g]);
                    assert(all[g] == 3);
                }
                lemma_distortion_monotone(groups@, other, all);
                lemma_lex_total(all, other, 0);
                if lex_greater(other, all) {
                    let i = choose|i: int|
                        0 <= i < other.len() && #[trigger] other[i] > all[i] && forall|j: int|
                            0 <= j < i ==> #[trigger] other[j] == all[j];
                    assert(1 <= other[i] <= all[i] <= 3);
                }
            }
        }
        return Some(planes);
    }
    let indexes = ranked_upgrades(groups, floors);
    assert(groups@.len() == groups.len());
    let choice = indexes.best_choice(capacity, Ghost(curves_of(groups@)), Ghost(floors@));
    let planes: Vec<u8> = indexes.materialize(choice, floors, Ghost(curves_of(groups@)));
    let unit_total: usize = indexes.units.len();
    proof {
        let model = indexes.model(curves_of(groups@), floors@);
        let best = planes@;
        model.choice_facts(choice);
        assert(feasible(groups@, floors@, limit, best));
        assert forall|other: Seq<u8>| #[trigger]
            feasible(groups@, floors@, limit, other) && other != best implies preferred(
            groups@,
            limit,
            best,
            other,
        ) by {
            assert(in_range(floors@, other));
            model.family_optimum(capacity as int, best, other);
            lemma_ahead_is_preferred(groups@, floors@, limit, best, other, cs, cr);
        }
    }
    Some(planes)
}

} // verus!
