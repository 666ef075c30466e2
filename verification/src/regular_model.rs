//! Optimality of the sorted-prefix decomposition for equal upgrade costs.

use crate::exact::{ExactDistortion, ExactReduction};
use crate::plane_model::{
    count_fn, curve_fn, curve_total, curve_valid, curves_valid, counts_valid, in_range,
    lemma_plane_sum_update, plane_sum,
};
use crate::ranked::{key_less, ranked, RankedUpgrade};
use vstd::prelude::*;

verus! {

/// One plane appended to a group whose marginal reductions do not increase.
#[derive(Clone, Copy, Debug)]
pub struct UnitUpgrade {
    /// Upgraded group.
    pub group: usize,
    /// Plane count after the upgrade.
    pub target_planes: u8,
    /// Distortion removed by the upgrade.
    pub distortion_reduction: ExactReduction,
}

/// Both remaining planes of a group whose second plane removes more than its
/// first.
#[derive(Clone, Copy, Debug)]
pub struct BundledUpgrade {
    /// Upgraded group.
    pub group: usize,
    /// Distortion removed by both planes.
    pub distortion_reduction: ExactReduction,
    /// Distortion removed by the first of the two planes alone.
    pub first_plane_reduction: ExactReduction,
}

impl RankedUpgrade for UnitUpgrade {
    open spec fn wf(self) -> bool {
        self.distortion_reduction.wf()
    }

    open spec fn key(self) -> (int, int, int) {
        (-self.distortion_reduction.value(), self.group as int, self.target_planes as int)
    }

    open spec fn weight(self) -> int {
        self.distortion_reduction.value()
    }

    open spec fn group_index(self) -> int {
        self.group as int
    }

    proof fn weight_is_bounded(self) {
        self.distortion_reduction.value_is_nonnegative();
        self.distortion_reduction.value_is_bounded();
    }

    fn precedes(&self, other: &Self) -> (before: bool) {
        if other.distortion_reduction.less_than(self.distortion_reduction) {
            return true;
        }
        if self.distortion_reduction.less_than(other.distortion_reduction) {
            return false;
        }
        self.group < other.group || (self.group == other.group && self.target_planes
            < other.target_planes)
    }

    fn group(&self) -> (group: usize) {
        self.group
    }

    fn exact(&self) -> (sum: ExactDistortion) {
        self.distortion_reduction.exact()
    }
}

impl RankedUpgrade for BundledUpgrade {
    open spec fn wf(self) -> bool {
        self.distortion_reduction.wf()
    }

    open spec fn key(self) -> (int, int, int) {
        (-self.distortion_reduction.value(), self.group as int, 0)
    }

    open spec fn weight(self) -> int {
        self.distortion_reduction.value()
    }

    open spec fn group_index(self) -> int {
        self.group as int
    }

    proof fn weight_is_bounded(self) {
        self.distortion_reduction.value_is_nonnegative();
        self.distortion_reduction.value_is_bounded();
    }

    fn precedes(&self, other: &Self) -> (before: bool) {
        if other.distortion_reduction.less_than(self.distortion_reduction) {
            return true;
        }
        if self.distortion_reduction.less_than(other.distortion_reduction) {
            return false;
        }
        self.group < other.group
    }

    fn group(&self) -> (group: usize) {
        self.group
    }

    fn exact(&self) -> (sum: ExactDistortion) {
        self.distortion_reduction.exact()
    }
}

/// Number of ranks below `count` that a selection holds.
pub open spec fn selected(pick: spec_fn(int) -> bool, count: int) -> int
    decreases count,
{
    if count <= 0 {
        0
    } else {
        selected(pick, count - 1) + if pick(count - 1) {
            1int
        } else {
            0int
        }
    }
}

/// Sum of a per-rank quantity below `count`.
pub open spec fn rank_sum(f: spec_fn(int) -> int, count: int) -> int
    decreases count,
{
    if count <= 0 {
        0
    } else {
        rank_sum(f, count - 1) + f(count - 1)
    }
}

/// Weight of the picked ranks.
pub open spec fn picked_weight(
    weight: spec_fn(int) -> int,
    pick: spec_fn(int) -> bool,
    count: int,
) -> int {
    rank_sum(
        |r: int|
            if pick(r) {
                weight(r)
            } else {
                0
            },
        count,
    )
}

/// Two selections of one size, one of which holds the heavier of every
/// difference, differ in weight in its favour; equal weights differ only in
/// ranks of the separating weight.
pub proof fn lemma_exchange(
    weight: spec_fn(int) -> int,
    heavy: spec_fn(int) -> bool,
    other: spec_fn(int) -> bool,
    count: int,
    separator: int,
)
    requires
        count >= 0,
        forall|r: int| 0 <= r < count && heavy(r) && !other(r) ==> #[trigger] weight(r) >= separator,
        forall|r: int| 0 <= r < count && other(r) && !heavy(r) ==> #[trigger] weight(r) <= separator,
    ensures
        picked_weight(weight, heavy, count) - picked_weight(weight, other, count) >= separator * (
        selected(heavy, count) - selected(other, count)),
        picked_weight(weight, heavy, count) - picked_weight(weight, other, count) == separator * (
        selected(heavy, count) - selected(other, count)) ==> forall|r: int|
            0 <= r < count && heavy(r) != other(r) ==> #[trigger] weight(r) == separator,
    decreases count,
{
    if count > 0 {
        lemma_exchange(weight, heavy, other, count - 1, separator);
        let gap = selected(heavy, count - 1) - selected(other, count - 1);
        assert(separator * (gap + 1) == separator * gap + separator) by (nonlinear_arith);
        assert(separator * (gap - 1) == separator * gap - separator) by (nonlinear_arith);
        let new_gap = selected(heavy, count) - selected(other, count);
        let w = weight(count - 1);
        if heavy(count - 1) && !other(count - 1) {
            assert(new_gap == gap + 1);
        } else if other(count - 1) && !heavy(count - 1) {
            assert(new_gap == gap - 1);
        } else {
            assert(new_gap == gap);
        }
    } else {
        assert(separator * 0 == 0);
        assert(selected(heavy, count) - selected(other, count) == 0);
    }
}

pub proof fn lemma_selected_bounds(pick: spec_fn(int) -> bool, count: int)
    requires
        count >= 0,
    ensures
        0 <= selected(pick, count) <= count,
    decreases count,
{
    if count > 0 {
        lemma_selected_bounds(pick, count - 1);
    }
}

/// Equal counts and a rank of one selection alone give a rank of the other
/// alone.
pub proof fn lemma_other_rank(left: spec_fn(int) -> bool, right: spec_fn(int) -> bool, count: int)
    requires
        count >= 0,
        forall|r: int| 0 <= r < count && left(r) ==> #[trigger] right(r),
    ensures
        selected(left, count) <= selected(right, count),
        selected(left, count) == selected(right, count) ==> forall|r: int|
            0 <= r < count && #[trigger] right(r) ==> left(r),
    decreases count,
{
    if count > 0 {
        lemma_other_rank(left, right, count - 1);
        assert(left(count - 1) ==> right(count - 1));
    }
}

pub proof fn lemma_selected_prefix(bound: int, count: int)
    requires
        0 <= bound,
        0 <= count,
    ensures
        selected(|r: int| r < bound, count) == if count <= bound {
            count
        } else {
            bound
        },
    decreases count,
{
    if count > 0 {
        lemma_selected_prefix(bound, count - 1);
    }
}

/// The first `bound` ranks without one rank.
pub proof fn lemma_selected_prefix_without(bound: int, without: int, count: int)
    requires
        0 <= bound,
        0 <= count,
        0 <= without,
    ensures
        selected(|r: int| r < bound && r != without, count) == (if count <= bound {
            count
        } else {
            bound
        }) - (if without < count && without < bound {
            1int
        } else {
            0int
        }),
    decreases count,
{
    if count > 0 {
        lemma_selected_prefix_without(bound, without, count - 1);
    }
}

/// A group order, its mandatory prefix and the two ranked upgrade lists.
pub struct Regular {
    /// Cumulative distortion patterns of every group.
    pub curves: Seq<Seq<u64>>,
    /// Mandatory plane counts.
    pub floors: Seq<u8>,
    /// Unit upgrades by rank.
    pub units: Seq<UnitUpgrade>,
    /// Bundles by rank.
    pub bundles: Seq<BundledUpgrade>,
}

impl Regular {
    /// Exact distortion of a group at a plane count.
    pub open spec fn d(self, group: int, planes: int) -> int {
        curve_fn(self.curves)(group, planes)
    }

    /// The second remaining plane removes more than the first.
    pub open spec fn nonconcave(self, group: int) -> bool {
        self.floors[group] == 1 && self.d(group, 2) - self.d(group, 3) > self.d(group, 1) - self.d(
            group,
            2,
        )
    }

    /// A unit appends one plane with a positive reduction to a concave group.
    pub open spec fn unit_sound(self, unit: UnitUpgrade) -> bool {
        &&& unit.group < self.curves.len()
        &&& self.floors[unit.group as int] < unit.target_planes <= 3
        &&& !self.nonconcave(unit.group as int)
        &&& unit.distortion_reduction.wf()
        &&& unit.weight() == self.d(unit.group as int, unit.target_planes - 1) - self.d(
            unit.group as int,
            unit.target_planes as int,
        )
        &&& unit.weight() > 0
    }

    /// A bundle appends both planes to a nonconcave group.
    pub open spec fn bundle_sound(self, bundle: BundledUpgrade) -> bool {
        &&& bundle.group < self.curves.len()
        &&& self.nonconcave(bundle.group as int)
        &&& bundle.distortion_reduction.wf()
        &&& bundle.first_plane_reduction.wf()
        &&& bundle.weight() == self.d(bundle.group as int, 1) - self.d(bundle.group as int, 3)
        &&& bundle.first_plane_reduction.value() == self.d(bundle.group as int, 1) - self.d(
            bundle.group as int,
            2,
        )
    }

    /// Both lists are sound, complete, free of repetition and ranked.
    pub open spec fn wf(self) -> bool {
        &&& curves_valid(self.curves)
        &&& counts_valid(self.curves.len(), self.floors)
        &&& forall|r: int| 0 <= r < self.units.len() ==> self.unit_sound(#[trigger] self.units[r])
        &&& forall|r: int|
            0 <= r < self.bundles.len() ==> self.bundle_sound(#[trigger] self.bundles[r])
        &&& ranked(self.units)
        &&& ranked(self.bundles)
        &&& forall|r: int, s: int|
            0 <= r < s < self.units.len() ==> (#[trigger] self.units[r]).group != (
            #[trigger] self.units[s]).group || self.units[r].target_planes
                != self.units[s].target_planes
        &&& forall|r: int, s: int|
            0 <= r < s < self.bundles.len() ==> (#[trigger] self.bundles[r]).group != (
            #[trigger] self.bundles[s]).group
        &&& forall|g: int, p: int|
            0 <= g < self.curves.len() && self.floors[g] < p <= 3 && !self.nonconcave(g)
                && #[trigger] self.d(g, p) < self.d(g, p - 1) ==> self.has_unit(g, p)
        &&& forall|g: int|
            0 <= g < self.curves.len() && #[trigger] self.nonconcave(g) ==> self.has_bundle(g)
    }

    /// Some unit appends plane `planes` to `group`.
    pub open spec fn has_unit(self, group: int, planes: int) -> bool {
        exists|r: int|
            0 <= r < self.units.len() && (#[trigger] self.units[r]).group == group
                && self.units[r].target_planes == planes
    }

    /// Some bundle upgrades `group`.
    pub open spec fn has_bundle(self, group: int) -> bool {
        exists|r: int| 0 <= r < self.bundles.len() && (#[trigger] self.bundles[r]).group == group
    }

    /// Units of one group rank by target.
    proof fn unit_order(self, r: int, s: int)
        requires
            self.wf(),
            0 <= r < s < self.units.len(),
            self.units[r].group == self.units[s].group,
        ensures
            self.units[r].target_planes < self.units[s].target_planes,
    {
        let a = self.units[r];
        let b = self.units[s];
        assert(self.unit_sound(a));
        assert(self.unit_sound(b));
        assert(!key_less(b.key(), a.key()));
    }

    /// Plane count of a group after the picked units below `count`.
    pub open spec fn unit_level(self, pick: spec_fn(int) -> bool, count: int, group: int) -> int
        decreases count,
    {
        if count <= 0 {
            self.floors[group] as int
        } else if pick(count - 1) && self.units[count - 1].group == group {
            self.units[count - 1].target_planes as int
        } else {
            self.unit_level(pick, count - 1, group)
        }
    }

    /// Vector after the picked units below `count`.
    pub open spec fn unit_vector(self, pick: spec_fn(int) -> bool, count: int) -> Seq<u8>
        decreases count,
    {
        if count <= 0 {
            self.floors
        } else if pick(count - 1) {
            self.unit_vector(pick, count - 1).update(
                self.units[count - 1].group as int,
                self.units[count - 1].target_planes,
            )
        } else {
            self.unit_vector(pick, count - 1)
        }
    }

    /// Vector after all picked units and the bundle levels below `count`.
    pub open spec fn vector(
        self,
        pick: spec_fn(int) -> bool,
        level: spec_fn(int) -> int,
        count: int,
    ) -> Seq<u8>
        decreases count,
    {
        if count <= 0 {
            self.unit_vector(pick, self.units.len() as int)
        } else {
            self.vector(pick, level, count - 1).update(
                self.bundles[count - 1].group as int,
                level(count - 1) as u8,
            )
        }
    }

    /// The complete vector of a selection.
    pub open spec fn build(self, pick: spec_fn(int) -> bool, level: spec_fn(int) -> int) -> Seq<
        u8,
    > {
        self.vector(pick, level, self.bundles.len() as int)
    }

    /// A unit to three planes comes with the unit to two planes.
    pub open spec fn closed_pick(self, pick: spec_fn(int) -> bool) -> bool {
        forall|r: int, s: int|
            0 <= r < s < self.units.len() && (#[trigger] self.units[r]).group == (
            #[trigger] self.units[s]).group && pick(s) ==> pick(r)
    }

    /// Bundle levels are plane counts.
    pub open spec fn valid_level(self, level: spec_fn(int) -> int) -> bool {
        forall|r: int| 0 <= r < self.bundles.len() ==> 1 <= #[trigger] level(r) <= 3
    }

    /// Reduction of one bundle at a level.
    pub open spec fn bundle_gain(self, rank: int, level: int) -> int {
        if level >= 3 {
            self.bundles[rank].weight()
        } else if level == 2 {
            self.bundles[rank].first_plane_reduction.value()
        } else {
            0
        }
    }

    /// Weight of a unit rank.
    pub open spec fn unit_weight(self) -> spec_fn(int) -> int {
        |r: int| self.units[r].weight()
    }

    /// Weight of a bundle rank.
    pub open spec fn bundle_weight(self) -> spec_fn(int) -> int {
        |r: int| self.bundles[r].weight()
    }

    /// Reduction of the bundle levels below `count`.
    pub open spec fn bundle_reduction(self, level: spec_fn(int) -> int, count: int) -> int {
        rank_sum(|r: int| self.bundle_gain(r, level(r)), count)
    }

    /// Planes appended by the bundle levels below `count`.
    pub open spec fn bundle_planes(self, level: spec_fn(int) -> int, count: int) -> int {
        rank_sum(|r: int| level(r) - 1, count)
    }

    proof fn unit_level_skip(self, pick: spec_fn(int) -> bool, low: int, high: int, group: int)
        requires
            0 <= low <= high <= self.units.len(),
            forall|r: int|
                low <= r < high && pick(r) ==> (#[trigger] self.units[r]).group != group,
        ensures
            self.unit_level(pick, high, group) == self.unit_level(pick, low, group),
        decreases high - low,
    {
        if low < high {
            self.unit_level_skip(pick, low, high - 1, group);
            assert(pick(high - 1) ==> self.units[high - 1].group != group);
        }
    }

    proof fn unit_vector_is_level(self, pick: spec_fn(int) -> bool, count: int)
        requires
            self.wf(),
            0 <= count <= self.units.len(),
        ensures
            self.unit_vector(pick, count).len() == self.floors.len(),
            forall|g: int|
                0 <= g < self.floors.len() ==> #[trigger] self.unit_vector(pick, count)[g]
                    == self.unit_level(pick, count, g),
        decreases count,
    {
        if count > 0 {
            self.unit_vector_is_level(pick, count - 1);
            assert(self.unit_sound(self.units[count - 1]));
        }
    }

    /// Before a picked unit its group stands one plane lower.
    proof fn unit_step(self, pick: spec_fn(int) -> bool, rank: int)
        requires
            self.wf(),
            self.closed_pick(pick),
            0 <= rank < self.units.len(),
            pick(rank),
        ensures
            self.unit_level(pick, rank, self.units[rank].group as int)
                == self.units[rank].target_planes - 1,
    {
        let unit = self.units[rank];
        let g = unit.group as int;
        assert(self.unit_sound(unit));
        assert(1 <= self.floors[g] <= 3);
        if unit.target_planes == self.floors[g] + 1 {
            assert forall|r: int| 0 <= r < rank && pick(r) implies (
            #[trigger] self.units[r]).group != g by {
                if self.units[r].group == g {
                    self.unit_order(r, rank);
                    assert(self.unit_sound(self.units[r]));
                }
            }
            self.unit_level_skip(pick, 0, rank, g);
        } else {
            assert(unit.target_planes == 3 && self.floors[g] == 1);
            assert(curve_valid(self.curves[g]));
            assert(self.d(g, 2) < self.d(g, 1));
            assert(self.has_unit(g, 2));
            let q = choose|q: int|
                0 <= q < self.units.len() && (#[trigger] self.units[q]).group == g
                    && self.units[q].target_planes == 2;
            if rank < q {
                self.unit_order(rank, q);
            }
            assert(q < rank);
            assert(pick(q));
            assert(self.unit_level(pick, q + 1, g) == 2);
            assert forall|r: int| q + 1 <= r < rank && pick(r) implies (
            #[trigger] self.units[r]).group != g by {
                if self.units[r].group == g {
                    self.unit_order(q, r);
                    self.unit_order(r, rank);
                }
            }
            self.unit_level_skip(pick, q + 1, rank, g);
        }
    }

    /// A picked unit is reached by its group, an unpicked one is not.
    proof fn unit_membership(self, pick: spec_fn(int) -> bool, rank: int)
        requires
            self.wf(),
            self.closed_pick(pick),
            0 <= rank < self.units.len(),
        ensures
            pick(rank) <==> self.unit_level(
                pick,
                self.units.len() as int,
                self.units[rank].group as int,
            ) >= self.units[rank].target_planes,
    {
        let g = self.units[rank].group as int;
        let target = self.units[rank].target_planes;
        self.level_source(pick, self.units.len() as int, g);
        let level = self.unit_level(pick, self.units.len() as int, g);
        assert(self.unit_sound(self.units[rank]));
        if pick(rank) {
            self.level_grows(pick, rank + 1, self.units.len() as int, g);
            assert(self.unit_level(pick, rank + 1, g) == target);
        } else if level >= target {
            let s = choose|s: int|
                0 <= s < self.units.len() && pick(s) && (#[trigger] self.units[s]).group == g
                    && self.units[s].target_planes == level;
            if s < rank {
                self.unit_order(s, rank);
            } else if rank < s {
                assert(pick(rank));
            }
        }
    }

    /// A level above the floor comes from a picked unit.
    proof fn level_source(self, pick: spec_fn(int) -> bool, count: int, group: int)
        requires
            self.wf(),
            0 <= count <= self.units.len(),
            0 <= group < self.curves.len(),
        ensures
            self.unit_level(pick, count, group) == self.floors[group] || exists|s: int|
                0 <= s < count && pick(s) && (#[trigger] self.units[s]).group == group
                    && self.units[s].target_planes == self.unit_level(pick, count, group),
        decreases count,
    {
        if count > 0 {
            self.level_source(pick, count - 1, group);
            if pick(count - 1) && self.units[count - 1].group == group {
                assert(self.units[count - 1].target_planes == self.unit_level(pick, count, group));
            }
        }
    }

    proof fn level_grows(self, pick: spec_fn(int) -> bool, low: int, high: int, group: int)
        requires
            self.wf(),
            self.closed_pick(pick),
            0 <= low <= high <= self.units.len(),
            0 <= group < self.curves.len(),
        ensures
            self.unit_level(pick, low, group) <= self.unit_level(pick, high, group),
        decreases high - low,
    {
        if low < high {
            self.level_grows(pick, low, high - 1, group);
            if pick(high - 1) && self.units[high - 1].group == group {
                self.unit_step(pick, high - 1);
            }
        }
    }

    proof fn unit_level_range(self, pick: spec_fn(int) -> bool, count: int, group: int)
        requires
            self.wf(),
            0 <= count <= self.units.len(),
            0 <= group < self.curves.len(),
        ensures
            self.floors[group] <= self.unit_level(pick, count, group) <= 3,
        decreases count,
    {
        assert(1 <= self.floors[group] <= 3);
        if count > 0 {
            self.unit_level_range(pick, count - 1, group);
            assert(self.unit_sound(self.units[count - 1]));
        }
    }

    /// Ledger of the picked units.
    proof fn unit_accounting(self, pick: spec_fn(int) -> bool, count: int)
        requires
            self.wf(),
            self.closed_pick(pick),
            0 <= count <= self.units.len(),
        ensures
            curve_total(self.curves, self.unit_vector(pick, count)) == curve_total(
                self.curves,
                self.floors,
            ) - picked_weight(self.unit_weight(), pick, count),
            plane_sum(count_fn(), self.unit_vector(pick, count), self.floors.len() as int)
                == plane_sum(count_fn(), self.floors, self.floors.len() as int) + selected(
                pick,
                count,
            ),
        decreases count,
    {
        if count > 0 {
            self.unit_accounting(pick, count - 1);
            self.unit_vector_is_level(pick, count - 1);
            if pick(count - 1) {
                let unit = self.units[count - 1];
                let x = self.unit_vector(pick, count - 1);
                let n = self.floors.len() as int;
                assert(self.unit_sound(unit));
                self.unit_step(pick, count - 1);
                lemma_plane_sum_update(
                    curve_fn(self.curves),
                    x,
                    n,
                    unit.group as int,
                    unit.target_planes,
                );
                lemma_plane_sum_update(count_fn(), x, n, unit.group as int, unit.target_planes);
            }
        }
    }

    /// Groups of bundles keep their floor through the units.
    proof fn bundle_untouched(self, pick: spec_fn(int) -> bool, rank: int)
        requires
            self.wf(),
            0 <= rank < self.bundles.len(),
        ensures
            self.unit_level(pick, self.units.len() as int, self.bundles[rank].group as int) == 1,
    {
        let g = self.bundles[rank].group as int;
        assert(self.bundle_sound(self.bundles[rank]));
        assert forall|r: int| 0 <= r < self.units.len() && pick(r) implies (
        #[trigger] self.units[r]).group != g by {
            assert(self.unit_sound(self.units[r]));
        }
        self.unit_level_skip(pick, 0, self.units.len() as int, g);
    }

    /// Entries of a partially levelled vector.
    proof fn vector_entries(
        self,
        pick: spec_fn(int) -> bool,
        level: spec_fn(int) -> int,
        count: int,
    )
        requires
            self.wf(),
            self.valid_level(level),
            0 <= count <= self.bundles.len(),
        ensures
            self.vector(pick, level, count).len() == self.floors.len(),
            forall|g: int|
                0 <= g < self.floors.len() && !self.nonconcave(g) ==> #[trigger] self.vector(
                    pick,
                    level,
                    count,
                )[g] == self.unit_level(pick, self.units.len() as int, g),
            forall|r: int|
                0 <= r < count ==> self.vector(pick, level, count)[(
                #[trigger] self.bundles[r]).group as int] == level(r),
            forall|r: int|
                count <= r < self.bundles.len() ==> self.vector(pick, level, count)[(
                #[trigger] self.bundles[r]).group as int] == 1,
        decreases count,
    {
        if count > 0 {
            self.vector_entries(pick, level, count - 1);
            let x = self.vector(pick, level, count - 1);
            let last = self.bundles[count - 1];
            assert(self.bundle_sound(last));
            assert(1 <= level(count - 1) <= 3);
            assert forall|r: int| 0 <= r < count implies self.vector(pick, level, count)[(
            #[trigger] self.bundles[r]).group as int] == level(r) by {
                assert(self.bundle_sound(self.bundles[r]));
                if r < count - 1 {
                    assert(self.bundles[r].group != self.bundles[count - 1].group);
                }
            }
            assert forall|r: int| count <= r < self.bundles.len() implies self.vector(
                pick,
                level,
                count,
            )[(#[trigger] self.bundles[r]).group as int] == 1 by {
                assert(self.bundle_sound(self.bundles[r]));
                assert(self.bundles[count - 1].group != self.bundles[r].group);
            }
        } else {
            self.unit_vector_is_level(pick, self.units.len() as int);
            assert forall|r: int| 0 <= r < self.bundles.len() implies self.vector(
                pick,
                level,
                count,
            )[(#[trigger] self.bundles[r]).group as int] == 1 by {
                assert(self.bundle_sound(self.bundles[r]));
                self.bundle_untouched(pick, r);
            }
        }
    }

    /// Ledger of a selection.
    proof fn vector_accounting(
        self,
        pick: spec_fn(int) -> bool,
        level: spec_fn(int) -> int,
        count: int,
    )
        requires
            self.wf(),
            self.closed_pick(pick),
            self.valid_level(level),
            0 <= count <= self.bundles.len(),
        ensures
            curve_total(self.curves, self.vector(pick, level, count)) == curve_total(
                self.curves,
                self.floors,
            ) - picked_weight(self.unit_weight(), pick, self.units.len() as int)
                - self.bundle_reduction(level, count),
            plane_sum(count_fn(), self.vector(pick, level, count), self.floors.len() as int)
                == plane_sum(count_fn(), self.floors, self.floors.len() as int) + selected(
                pick,
                self.units.len() as int,
            ) + self.bundle_planes(level, count),
        decreases count,
    {
        self.vector_entries(pick, level, count);
        if count > 0 {
            self.vector_accounting(pick, level, count - 1);
            self.vector_entries(pick, level, count - 1);
            let x = self.vector(pick, level, count - 1);
            let last = self.bundles[count - 1];
            let n = self.floors.len() as int;
            assert(self.bundle_sound(last));
            assert(1 <= level(count - 1) <= 3);
            assert(x[self.bundles[count - 1].group as int] == 1);
            lemma_plane_sum_update(
                curve_fn(self.curves),
                x,
                n,
                last.group as int,
                level(count - 1) as u8,
            );
            lemma_plane_sum_update(count_fn(), x, n, last.group as int, level(count - 1) as u8);
        } else {
            self.unit_vector_is_level(pick, self.units.len() as int);
            self.unit_accounting(pick, self.units.len() as int);
        }
    }

    /// Facts about the complete vector of a selection.
    pub proof fn build_facts(self, pick: spec_fn(int) -> bool, level: spec_fn(int) -> int)
        requires
            self.wf(),
            self.closed_pick(pick),
            self.valid_level(level),
        ensures
            in_range(self.floors, self.build(pick, level)),
            curve_total(self.curves, self.build(pick, level)) == curve_total(
                self.curves,
                self.floors,
            ) - picked_weight(self.unit_weight(), pick, self.units.len() as int)
                - self.bundle_reduction(level, self.bundles.len() as int),
            plane_sum(count_fn(), self.build(pick, level), self.floors.len() as int) == plane_sum(
                count_fn(),
                self.floors,
                self.floors.len() as int,
            ) + selected(pick, self.units.len() as int) + self.bundle_planes(
                level,
                self.bundles.len() as int,
            ),
            forall|g: int|
                0 <= g < self.floors.len() && !self.nonconcave(g) ==> #[trigger] self.build(
                    pick,
                    level,
                )[g] == self.unit_level(pick, self.units.len() as int, g),
            forall|r: int|
                0 <= r < self.bundles.len() ==> self.build(pick, level)[(
                #[trigger] self.bundles[r]).group as int] == level(r),
            forall|r: int|
                0 <= r < self.units.len() ==> (pick(r) <==> self.build(pick, level)[(
                #[trigger] self.units[r]).group as int] >= self.units[r].target_planes),
    {
        let b = self.bundles.len() as int;
        self.vector_entries(pick, level, b);
        self.vector_accounting(pick, level, b);
        let x = self.build(pick, level);
        assert forall|g: int| 0 <= g < self.floors.len() implies self.floors[g] <= #[trigger] x[g]
            <= 3 by {
            assert(1 <= self.floors[g] <= 3);
            if self.nonconcave(g) {
                assert(self.has_bundle(g));
                let r = choose|r: int|
                    0 <= r < self.bundles.len() && (#[trigger] self.bundles[r]).group == g;
                assert(x[self.bundles[r].group as int] == level(r));
                assert(1 <= level(r) <= 3);
            } else {
                assert(self.vector(pick, level, b)[g] == self.unit_level(
                    pick,
                    self.units.len() as int,
                    g,
                ));
                self.unit_level_range(pick, self.units.len() as int, g);
            }
        }
        assert forall|r: int| 0 <= r < self.units.len() implies (pick(r) <==> x[(
        #[trigger] self.units[r]).group as int] >= self.units[r].target_planes) by {
            let g = self.units[r].group as int;
            assert(self.unit_sound(self.units[r]));
            assert(self.vector(pick, level, b)[g] == self.unit_level(
                pick,
                self.units.len() as int,
                g,
            ));
            self.unit_membership(pick, r);
        }
    }
}

} // verus!
