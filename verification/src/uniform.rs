//! Replay-oriented exact allocation for uniform full-tile costs.

use crate::exact::{exact_sum_fits, f64_rounded, f64_units_bound, ExactDistortion, ExactReduction};
use crate::float_bits::{
    canonical_nonnegative_bits, f64_equal, f64_finite_nonnegative, f64_is_equal,
    f64_is_finite_nonnegative, f64_units, f64_units_order,
};
use crate::packed::PackedPlaneCounts;
use crate::physical::{PhysicalAllocError, SaltV2Profile};
use crate::plane_model::{
    count_fn, curve_fn, curve_total, curve_valid, curves_valid, in_range, lemma_lex_asymmetric,
    lex_greater, plane_sum,
};
use crate::regular::{
    bare, bundle_at, group_upgrades, lemma_listed_group, lemma_planes_bounds, listed,
    ranked_indexes, unit_at, with_bundle, with_units,
};
use crate::regular_index::RegularIndexes;
use crate::regular_model::{BundledUpgrade, UnitUpgrade};
use crate::regular_optimum::{added_planes, ahead, RegularChoice};
use crate::wire::bytes_equal;
use core::convert::Infallible;
use vstd::arithmetic::power2::pow2;
use vstd::prelude::*;
use vstd::std_specs::cmp::PartialEqSpecImpl;

verus! {

/// A unit upgrade with a 32-bit group ordinal.
#[derive(Clone, Copy, Debug)]
pub struct CompactUnitUpgrade {
    /// Distortion removed by the upgrade.
    pub distortion_reduction: ExactReduction,
    /// Upgraded group.
    pub group: u32,
    /// Plane count after the upgrade.
    pub target_planes: u8,
}

/// A bundle with a 32-bit group ordinal.
#[derive(Clone, Copy, Debug)]
pub struct CompactBundledUpgrade {
    /// Distortion removed by both planes.
    pub distortion_reduction: ExactReduction,
    /// Distortion removed by the first of the two planes alone.
    pub first_plane_reduction: ExactReduction,
    /// Upgraded group.
    pub group: u32,
}

/// The upgrade with its full-width ordinal.
pub open spec fn wide_unit(unit: CompactUnitUpgrade) -> UnitUpgrade {
    UnitUpgrade {
        group: unit.group as usize,
        target_planes: unit.target_planes,
        distortion_reduction: unit.distortion_reduction,
    }
}

/// The bundle with its full-width ordinal.
pub open spec fn wide_bundle(bundle: CompactBundledUpgrade) -> BundledUpgrade {
    BundledUpgrade {
        group: bundle.group as usize,
        distortion_reduction: bundle.distortion_reduction,
        first_plane_reduction: bundle.first_plane_reduction,
    }
}

/// The upgrades with their full-width ordinals.
pub open spec fn wide_units(units: Seq<CompactUnitUpgrade>) -> Seq<UnitUpgrade> {
    Seq::new(units.len(), |i: int| wide_unit(units[i]))
}

/// The bundles with their full-width ordinals.
pub open spec fn wide_bundles(bundles: Seq<CompactBundledUpgrade>) -> Seq<BundledUpgrade> {
    Seq::new(bundles.len(), |i: int| wide_bundle(bundles[i]))
}

/// Why a curve is refused, if it is.
pub open spec fn curve_error(curve: Seq<u64>, index: int) -> Option<PhysicalAllocError>
    decreases curve.len() - index,
{
    if index >= curve.len() {
        None
    } else if !f64_finite_nonnegative(curve[index]) {
        Some(
            PhysicalAllocError::InvalidDistortion {
                group: 0,
                planes: (index + 1) as u8,
                distortion_bits: curve[index],
            },
        )
    } else if index > 0 && f64_units(curve[index]) > f64_units(curve[index - 1]) {
        Some(PhysicalAllocError::NonMonotoneDistortion { group: 0, planes: (index + 1) as u8 })
    } else {
        curve_error(curve, index + 1)
    }
}

/// One validated P1/P2/P3 cumulative distortion curve.
#[derive(Clone, Copy, Debug)]
pub struct UniformPrefixCurve {
    distortion_bits: [u64; 3],
}

impl View for UniformPrefixCurve {
    type V = Seq<u64>;

    /// The three binary64 patterns.
    closed spec fn view(&self) -> Seq<u64> {
        self.distortion_bits@
    }
}

impl PartialEq for UniformPrefixCurve {
    fn eq(&self, other: &Self) -> (equal: bool) {
        f64_is_equal(self.distortion_bits[0], other.distortion_bits[0]) && f64_is_equal(
            self.distortion_bits[1],
            other.distortion_bits[1],
        ) && f64_is_equal(self.distortion_bits[2], other.distortion_bits[2])
    }
}

impl PartialEqSpecImpl for UniformPrefixCurve {
    open spec fn obeys_eq_spec() -> bool {
        true
    }

    /// Distortions are equal as binary64 values.
    open spec fn eq_spec(&self, other: &Self) -> bool {
        &&& f64_equal(self@[0], other@[0])
        &&& f64_equal(self@[1], other@[1])
        &&& f64_equal(self@[2], other@[2])
    }
}

impl UniformPrefixCurve {
    /// Three finite, nonnegative, nonincreasing distortions.
    #[verifier::type_invariant]
    spec fn valid(self) -> bool {
        curve_valid(self.distortion_bits@)
    }

    /// Construct a finite, nonnegative, nonincreasing prefix curve.
    pub fn new(distortion_bits: [u64; 3]) -> (result: Result<Self, PhysicalAllocError>)
        ensures
            match result {
                Ok(curve) => curve@ == distortion_bits@ && curve_valid(curve@) && curve_error(
                    distortion_bits@,
                    0,
                ) is None,
                Err(error) => curve_error(distortion_bits@, 0) == Some(error),
            },
    {
        let mut index: usize = 0;
        while index < 3
            invariant
                index <= 3,
                curve_error(distortion_bits@, 0) == curve_error(distortion_bits@, index as int),
                forall|p: int|
                    0 <= p < index ==> f64_finite_nonnegative(#[trigger] distortion_bits@[p]),
                forall|p: int|
                    1 <= p < index ==> f64_units(#[trigger] distortion_bits@[p]) <= f64_units(
                        distortion_bits@[p - 1],
                    ),
            decreases 3 - index,
        {
            let bits: u64 = distortion_bits[index];
            if !f64_is_finite_nonnegative(bits) {
                return Err(
                    PhysicalAllocError::InvalidDistortion {
                        group: 0,
                        planes: (index + 1) as u8,
                        distortion_bits: bits,
                    },
                );
            }
            if index > 0 {
                let previous: u64 = distortion_bits[index - 1];
                proof {
                    f64_units_order(bits, previous);
                }
                if canonical_nonnegative_bits(bits) > canonical_nonnegative_bits(previous) {
                    return Err(
                        PhysicalAllocError::NonMonotoneDistortion {
                            group: 0,
                            planes: (index + 1) as u8,
                        },
                    );
                }
            }
            index = index + 1;
        }
        assert(curve_valid(distortion_bits@)) by {
            assert(f64_units(distortion_bits@[1]) <= f64_units(distortion_bits@[0]));
            assert(f64_units(distortion_bits@[2]) <= f64_units(distortion_bits@[1]));
        }
        Ok(UniformPrefixCurve { distortion_bits })
    }

    /// Cumulative distortion patterns after one through three planes.
    pub fn distortions(self) -> (distortion_bits: [u64; 3])
        ensures
            distortion_bits@ == self@,
            curve_valid(self@),
    {
        proof {
            use_type_invariant(&self);
        }
        self.distortion_bits
    }
}

/// Exact compact allocation result for one physical profile.
#[derive(Clone, Debug)]
pub struct PackedUniformProfileAllocation {
    /// Canonical selected count map.
    pub plane_counts: PackedPlaneCounts,
    /// Number of equal-cost refinements selected above the supplied floor.
    pub selected_upgrades: u64,
    /// Binary64 pattern of the exact distortion sum, rounded once.
    pub total_distortion_bits: u64,
    /// Sum of selected planes across every group.
    pub present_planes: u64,
}

impl PartialEq for PackedUniformProfileAllocation {
    fn eq(&self, other: &Self) -> (equal: bool) {
        bytes_equal(self.plane_counts.as_bytes(), other.plane_counts.as_bytes())
            && self.plane_counts.len() == other.plane_counts.len() && self.selected_upgrades
            == other.selected_upgrades && f64_is_equal(
            self.total_distortion_bits,
            other.total_distortion_bits,
        ) && self.present_planes == other.present_planes
    }
}

impl PartialEqSpecImpl for PackedUniformProfileAllocation {
    open spec fn obeys_eq_spec() -> bool {
        true
    }

    /// Distortions are equal as binary64 values.
    open spec fn eq_spec(&self, other: &Self) -> bool {
        &&& self.plane_counts.payload() == other.plane_counts.payload()
        &&& self.plane_counts@.len() == other.plane_counts@.len()
        &&& self.selected_upgrades == other.selected_upgrades
        &&& f64_equal(self.total_distortion_bits, other.total_distortion_bits)
        &&& self.present_planes == other.present_planes
    }
}

/// Failure from compact uniform-cost profile allocation.
#[derive(Debug)]
pub enum UniformProfileAllocError<E> {
    /// Curve source failed at its own boundary.
    Source(E),
    /// Exact allocation validation or accounting failed.
    Allocation(PhysicalAllocError),
    /// Supplied floor map did not cover the declared group count.
    FloorLength {
        /// Declared curve count.
        expected: u64,
        /// Packed floor count.
        actual: u64,
    },
    /// Curve source ended before the declared count.
    CurveSourceShort {
        /// Declared curve count.
        expected: u64,
        /// Curves observed before the end.
        actual: u64,
    },
    /// Curve source produced at least one record after the declared count.
    CurveSourceLong {
        /// Declared exact curve count.
        expected: u64,
    },
    /// Compact record indices cannot represent this many groups.
    TooManyGroups {
        /// Declared group count.
        groups: u64,
    },
}

/// The best vector within a number of interchangeable upgrades: lowest exact
/// distortion, then fewest upgrades, then the lexicographically greatest vector.
pub open spec fn uniform_best(
    curves: Seq<Seq<u64>>,
    floors: Seq<u8>,
    capacity: int,
    planes: Seq<u8>,
) -> bool {
    &&& in_range(floors, planes)
    &&& added_planes(floors, planes) <= capacity
    &&& forall|other: Seq<u8>| #[trigger]
        in_range(floors, other) && added_planes(floors, other) <= capacity && other != planes
            ==> ahead(curves, floors, planes, other)
}

/// The vector that is best.
pub open spec fn best_uniform(curves: Seq<Seq<u64>>, floors: Seq<u8>, capacity: int) -> Seq<u8> {
    choose|planes: Seq<u8>| uniform_best(curves, floors, capacity, planes)
}

/// At most one vector is best.
pub proof fn uniform_best_is_unique(
    curves: Seq<Seq<u64>>,
    floors: Seq<u8>,
    capacity: int,
    left: Seq<u8>,
    right: Seq<u8>,
)
    requires
        uniform_best(curves, floors, capacity, left),
        uniform_best(curves, floors, capacity, right),
    ensures
        left == right,
{
    if left != right {
        assert(in_range(floors, right));
        assert(in_range(floors, left));
        assert(ahead(curves, floors, left, right));
        assert(ahead(curves, floors, right, left));
        if lex_greater(left, right) {
            lemma_lex_asymmetric(left, right);
        }
    }
}

/// An allocation holds the best vector and its exact totals.
pub open spec fn uniform_realizes(
    allocation: PackedUniformProfileAllocation,
    curves: Seq<Seq<u64>>,
    floors: Seq<u8>,
    capacity: int,
) -> bool {
    let planes = allocation.plane_counts@;
    &&& allocation.plane_counts.wf()
    &&& uniform_best(curves, floors, capacity, planes)
    &&& allocation.selected_upgrades == added_planes(floors, planes)
    &&& f64_rounded(curve_total(curves, planes) as nat) == Some(allocation.total_distortion_bits)
    &&& allocation.present_planes == plane_sum(count_fn(), planes, planes.len() as int)
}

/// Incremental exact allocator for callback-driven or decoded curve sources.
pub struct PackedUniformProfilePlanner<'floor> {
    expected_groups: u64,
    floors: &'floor PackedPlaneCounts,
    additional_capacity: u64,
    profile: SaltV2Profile,
    observed_groups: u64,
    unit_upgrades: Vec<CompactUnitUpgrade>,
    bundled_upgrades: Vec<CompactBundledUpgrade>,
    floor_distortion: ExactDistortion,
    curves: Ghost<Seq<Seq<u64>>>,
}

/// A listing does not depend on later curves.
proof fn lemma_listed_extend(
    curves: Seq<Seq<u64>>,
    curve: Seq<u64>,
    floors: Seq<u8>,
    units: Seq<UnitUpgrade>,
    bundles: Seq<BundledUpgrade>,
)
    requires
        listed(bare(curves, floors), units, bundles, curves.len() as int),
    ensures
        listed(bare(curves.push(curve), floors), units, bundles, curves.len() as int),
{
    let before = bare(curves, floors);
    let after = bare(curves.push(curve), floors);
    assert forall|g: int, p: int| 0 <= g < curves.len() implies #[trigger] after.d(g, p)
        == before.d(g, p) by {
        assert(curves.push(curve)[g] == curves[g]);
    }
    assert forall|g: int| 0 <= g < curves.len() implies #[trigger] after.nonconcave(g)
        == before.nonconcave(g) by {
        assert(after.d(g, 1) == before.d(g, 1));
        assert(after.d(g, 2) == before.d(g, 2));
        assert(after.d(g, 3) == before.d(g, 3));
    }
    assert forall|i: int| 0 <= i < units.len() implies after.unit_sound(#[trigger] units[i])
        && units[i].group < curves.len() by {
        assert(before.unit_sound(units[i]));
        let g = units[i].group as int;
        assert(after.nonconcave(g) == before.nonconcave(g));
        assert(after.d(g, units[i].target_planes - 1) == before.d(g, units[i].target_planes - 1));
        assert(after.d(g, units[i].target_planes as int) == before.d(
            g,
            units[i].target_planes as int,
        ));
    }
    assert forall|i: int| 0 <= i < bundles.len() implies after.bundle_sound(#[trigger] bundles[i])
        && bundles[i].group < curves.len() by {
        assert(before.bundle_sound(bundles[i]));
        let g = bundles[i].group as int;
        assert(after.nonconcave(g) == before.nonconcave(g));
        assert(after.d(g, 1) == before.d(g, 1));
        assert(after.d(g, 2) == before.d(g, 2));
        assert(after.d(g, 3) == before.d(g, 3));
    }
    assert forall|g: int, p: int|
        0 <= g < curves.len() && after.floors[g] < p <= 3 && !after.nonconcave(g)
            && #[trigger] after.d(g, p) < after.d(g, p - 1) implies unit_at(units, g, p) by {
        assert(after.d(g, p) == before.d(g, p));
        assert(after.d(g, p - 1) == before.d(g, p - 1));
        assert(before.nonconcave(g) == after.nonconcave(g));
        assert(before.d(g, p) < before.d(g, p - 1));
    }
    assert forall|g: int| 0 <= g < curves.len() && #[trigger] after.nonconcave(
        g,
    ) implies bundle_at(bundles, g) by {
        assert(before.nonconcave(g));
    }
}

proof fn lemma_curve_prefix_bound(curves: Seq<Seq<u64>>, planes: Seq<u8>, count: int)
    requires
        curves_valid(curves),
        0 <= count <= curves.len(),
        count <= planes.len(),
        forall|g: int| 0 <= g < planes.len() ==> 1 <= #[trigger] planes[g] <= 3,
    ensures
        0 <= plane_sum(curve_fn(curves), planes, count) <= count * pow2(2098),
    decreases count,
{
    if count > 0 {
        lemma_curve_prefix_bound(curves, planes, count - 1);
        assert(curve_valid(curves[count - 1]));
        assert(1 <= planes[count - 1] <= 3);
        assert(f64_finite_nonnegative(curves[count - 1][planes[count - 1] - 1]));
        f64_units_bound(curves[count - 1][planes[count - 1] - 1]);
        assert(count * pow2(2098) == (count - 1) * pow2(2098) + pow2(2098)) by (nonlinear_arith);
    }
}

proof fn lemma_curve_sum_extend(curves: Seq<Seq<u64>>, curve: Seq<u64>, planes: Seq<u8>, count: int)
    requires
        0 <= count <= curves.len(),
    ensures
        plane_sum(curve_fn(curves.push(curve)), planes, count) == plane_sum(
            curve_fn(curves),
            planes,
            count,
        ),
    decreases count,
{
    if count > 0 {
        lemma_curve_sum_extend(curves, curve, planes, count - 1);
        assert(curves.push(curve)[count - 1] == curves[count - 1]);
    }
}

impl<'floor> PackedUniformProfilePlanner<'floor> {
    /// The plan holds exactly the upgrades of the curves pushed so far.
    pub closed spec fn wf(&self) -> bool {
        &&& self.floors.wf()
        &&& self.floors@.len() == self.expected_groups
        &&& self.expected_groups <= u32::MAX
        &&& self.observed_groups == self.curves@.len()
        &&& self.observed_groups <= self.expected_groups
        &&& curves_valid(self.curves@)
        &&& self.bundled_upgrades@.len() <= self.observed_groups
        &&& listed(
            bare(self.curves@, self.floors@),
            wide_units(self.unit_upgrades@),
            wide_bundles(self.bundled_upgrades@),
            self.curves@.len() as int,
        )
        &&& self.floor_distortion.value() == plane_sum(
            curve_fn(self.curves@),
            self.floors@,
            self.curves@.len() as int,
        )
    }

    /// Declared group count.
    pub closed spec fn expected(&self) -> int {
        self.expected_groups as int
    }

    /// Curves pushed so far.
    pub closed spec fn pushed(&self) -> Seq<Seq<u64>> {
        self.curves@
    }

    /// Mandatory plane counts.
    pub closed spec fn floor_counts(&self) -> Seq<u8> {
        self.floors@
    }

    /// Number of upgrades that may be spent.
    pub closed spec fn capacity(&self) -> int {
        self.additional_capacity as int
    }

    /// Profile that errors name.
    pub closed spec fn profile(&self) -> SaltV2Profile {
        self.profile
    }

    /// Start a compact allocation against one exact packed floor.
    pub fn new(
        expected_groups: u64,
        floors: &'floor PackedPlaneCounts,
        additional_capacity: u64,
        profile: SaltV2Profile,
    ) -> (result: Result<Self, UniformProfileAllocError<Infallible>>)
        requires
            floors.wf(),
        ensures
            match result {
                Ok(planner) => planner.wf() && planner.expected() == expected_groups
                    && planner.pushed() == Seq::<Seq<u64>>::empty() && planner.floor_counts()
                    == floors@ && planner.capacity() == additional_capacity && planner.profile()
                    == profile && start_error::<Infallible>(
                    expected_groups,
                    floors@.len() as int,
                ) is None,
                Err(error) => start_error::<Infallible>(expected_groups, floors@.len() as int)
                    == Some(error),
            },
    {
        Self::start(expected_groups, floors, additional_capacity, profile)
    }

    fn start<E>(
        expected_groups: u64,
        floors: &'floor PackedPlaneCounts,
        additional_capacity: u64,
        profile: SaltV2Profile,
    ) -> (result: Result<Self, UniformProfileAllocError<E>>)
        requires
            floors.wf(),
        ensures
            match result {
                Ok(planner) => planner.wf() && planner.expected() == expected_groups
                    && planner.pushed() == Seq::<Seq<u64>>::empty() && planner.floor_counts()
                    == floors@ && planner.capacity() == additional_capacity && planner.profile()
                    == profile && start_error::<E>(
                    expected_groups,
                    floors@.len() as int,
                ) is None,
                Err(error) => start_error::<E>(expected_groups, floors@.len() as int) == Some(
                    error,
                ),
            },
    {
        if floors.len() != expected_groups {
            return Err(
                UniformProfileAllocError::FloorLength {
                    expected: expected_groups,
                    actual: floors.len(),
                },
            );
        }
        if expected_groups > u32::MAX as u64 {
            return Err(UniformProfileAllocError::TooManyGroups { groups: expected_groups });
        }
        Ok(
            PackedUniformProfilePlanner {
                expected_groups,
                floors,
                additional_capacity,
                profile,
                observed_groups: 0,
                unit_upgrades: Vec::new(),
                bundled_upgrades: Vec::new(),
                floor_distortion: ExactDistortion::zero(),
                curves: Ghost(Seq::empty()),
            },
        )
    }

    /// Add the next global curve in canonical tensor/tile order.
    pub fn push(&mut self, curve: UniformPrefixCurve) -> (result: Result<
        (),
        UniformProfileAllocError<Infallible>,
    >)
        requires
            old(self).wf(),
        ensures
            final(self).wf(),
            final(self).expected() == old(self).expected(),
            final(self).floor_counts() == old(self).floor_counts(),
            final(self).capacity() == old(self).capacity(),
            final(self).profile() == old(self).profile(),
            match result {
                Ok(_) => old(self).pushed().len() < old(self).expected() && final(self).pushed()
                    == old(self).pushed().push(curve@),
                Err(error) => old(self).pushed().len() == old(self).expected()
                    && final(self).pushed() == old(self).pushed() && error
                    == (UniformProfileAllocError::<Infallible>::CurveSourceLong {
                    expected: old(self).expected() as u64,
                }),
            },
    {
        if self.observed_groups == self.expected_groups {
            return Err(
                UniformProfileAllocError::CurveSourceLong { expected: self.expected_groups },
            );
        }
        self.append(curve);
        Ok(())
    }

    fn append(&mut self, curve: UniformPrefixCurve)
        requires
            old(self).wf(),
            old(self).pushed().len() < old(self).expected(),
        ensures
            final(self).wf(),
            final(self).expected() == old(self).expected(),
            final(self).floor_counts() == old(self).floor_counts(),
            final(self).capacity() == old(self).capacity(),
            final(self).profile() == old(self).profile(),
            final(self).pushed() == old(self).pushed().push(curve@),
    {
        let bits: [u64; 3] = curve.distortions();
        let group: u32 = self.observed_groups as u32;
        proof {
            self.floors.payload_is_canonical();
            assert(1 <= self.floors@[group as int] <= 3);
        }
        let floor: u8 = self.floors.get(self.observed_groups).unwrap();
        let ghost before = self.curves@;
        let ghost curves = before.push(curve@);
        let ghost floors = self.floors@;
        proof {
            assert(curves_valid(curves)) by {
                assert forall|g: int| 0 <= g < curves.len() implies curve_valid(
                    #[trigger] curves[g],
                ) by {
                    if g < before.len() {
                        assert(curves[g] == before[g]);
                    }
                }
            }
            lemma_curve_sum_extend(before, curve@, floors, before.len() as int);
            lemma_curve_prefix_bound(curves, floors, curves.len() as int);
            assert(f64_finite_nonnegative(curve@[floor - 1]));
            exact_sum_fits(
                (self.floor_distortion.value() + f64_units(bits@[floor - 1])) as nat,
                curves.len(),
            );
        }
        self.floor_distortion =
        self.floor_distortion.checked_add_f64_bits(bits[(floor - 1) as usize]).unwrap();
        let upgrades = group_upgrades(bits, floor, group as usize, Ghost(curves), Ghost(floors));
        let ghost units_before = wide_units(self.unit_upgrades@);
        let ghost bundles_before = wide_bundles(self.bundled_upgrades@);
        proof {
            lemma_listed_extend(before, curve@, floors, units_before, bundles_before);
            lemma_listed_group(
                bare(curves, floors),
                units_before,
                bundles_before,
                upgrades,
                group as int,
            );
        }
        if let Some(unit) = upgrades.second {
            self.unit_upgrades.push(
                CompactUnitUpgrade {
                    distortion_reduction: unit.distortion_reduction,
                    group,
                    target_planes: unit.target_planes,
                },
            );
            assert(wide_units(self.unit_upgrades@) =~= units_before.push(unit));
        }
        if let Some(unit) = upgrades.third {
            let ghost middle = wide_units(self.unit_upgrades@);
            self.unit_upgrades.push(
                CompactUnitUpgrade {
                    distortion_reduction: unit.distortion_reduction,
                    group,
                    target_planes: unit.target_planes,
                },
            );
            assert(wide_units(self.unit_upgrades@) =~= middle.push(unit));
        }
        if let Some(bundle) = upgrades.bundle {
            self.bundled_upgrades.push(
                CompactBundledUpgrade {
                    distortion_reduction: bundle.distortion_reduction,
                    first_plane_reduction: bundle.first_plane_reduction,
                    group,
                },
            );
            assert(wide_bundles(self.bundled_upgrades@) =~= bundles_before.push(bundle));
        }
        assert(wide_units(self.unit_upgrades@) == with_units(units_before, upgrades));
        assert(wide_bundles(self.bundled_upgrades@) == with_bundle(bundles_before, upgrades));
        self.observed_groups = self.observed_groups + 1;
        self.curves = Ghost(curves);
    }

    /// Solve and materialize the canonical packed map after exact source coverage.
    pub fn finish(self) -> (result: Result<
        PackedUniformProfileAllocation,
        UniformProfileAllocError<Infallible>,
    >)
        requires
            self.wf(),
        ensures
            match result {
                Ok(allocation) => finish_error::<Infallible>(
                    self.pushed(),
                    self.expected(),
                    self.floor_counts(),
                    self.capacity(),
                    self.profile(),
                ) is None && uniform_realizes(
                    allocation,
                    self.pushed(),
                    self.floor_counts(),
                    self.capacity(),
                ),
                Err(error) => finish_error::<Infallible>(
                    self.pushed(),
                    self.expected(),
                    self.floor_counts(),
                    self.capacity(),
                    self.profile(),
                ) == Some(error),
            },
    {
        self.solve()
    }

    fn solve<E>(self) -> (result: Result<
        PackedUniformProfileAllocation,
        UniformProfileAllocError<E>,
    >)
        requires
            self.wf(),
        ensures
            match result {
                Ok(allocation) => finish_error::<E>(
                    self.pushed(),
                    self.expected(),
                    self.floor_counts(),
                    self.capacity(),
                    self.profile(),
                ) is None && uniform_realizes(
                    allocation,
                    self.pushed(),
                    self.floor_counts(),
                    self.capacity(),
                ),
                Err(error) => finish_error::<E>(
                    self.pushed(),
                    self.expected(),
                    self.floor_counts(),
                    self.capacity(),
                    self.profile(),
                ) == Some(error),
            },
    {
        if self.observed_groups != self.expected_groups {
            return Err(
                UniformProfileAllocError::CurveSourceShort {
                    expected: self.expected_groups,
                    actual: self.observed_groups,
                },
            );
        }
        let ghost curves = self.curves@;
        let ghost floors = self.floors@;
        proof {
            self.floors.payload_is_canonical();
        }
        let units: Vec<UnitUpgrade> = widen_units(&self.unit_upgrades);
        let bundles: Vec<BundledUpgrade> = widen_bundles(&self.bundled_upgrades);
        let indexes = ranked_indexes(units, bundles, Ghost(curves), Ghost(floors));
        let capacity: u128 = self.additional_capacity as u128;
        let count: usize = indexes.bundles.len();
        let unit_total: usize = indexes.units.len();
        let ghost model = indexes.model(curves, floors);
        let choice = indexes.best_choice(capacity, Ghost(curves), Ghost(floors));
        let ghost best = model.choice_vector(choice);
        proof {
            model.choice_facts(choice);
            assert(uniform_best(curves, floors, capacity as int, best)) by {
                assert forall|other: Seq<u8>| #[trigger]
                    in_range(floors, other) && added_planes(floors, other) <= capacity && other
                        != best implies ahead(curves, floors, best, other) by {
                    model.family_optimum(capacity as int, best, other);
                }
            }
            assert(uniform_best(
                curves,
                floors,
                capacity as int,
                best_uniform(curves, floors, capacity as int),
            ));
            uniform_best_is_unique(
                curves,
                floors,
                capacity as int,
                best,
                best_uniform(curves, floors, capacity as int),
            );
            lemma_planes_bounds(floors, best, floors.len() as int);
            assert forall|g: int| 0 <= g < best.len() implies 1 <= #[trigger] best[g] <= 3 by {
                assert(floors[g] <= best[g] <= 3);
                assert(1 <= floors[g]);
            }
            lemma_curve_prefix_bound(curves, best, best.len() as int);
            lemma_counts_nonnegative(floors, floors.len() as int);
        }
        let reduction = indexes.reduction(choice, Ghost(curves), Ghost(floors));
        let remaining = self.floor_distortion.checked_sub(reduction).unwrap();
        let total_distortion_bits: u64 = match remaining.to_f64_bits() {
            None => {
                return Err(
                    UniformProfileAllocError::Allocation(
                        PhysicalAllocError::AccountingOverflow { profile: self.profile },
                    ),
                );
            },
            Some(bits) => bits,
        };
        let selected: u128 = indexes.planes(choice);
        let plane_counts = materialize_packed(
            &indexes,
            choice,
            self.floors,
            Ghost(curves),
        );
        let present_planes: u64 = plane_counts.present_planes();
        Ok(
            PackedUniformProfileAllocation {
                plane_counts,
                selected_upgrades: selected as u64,
                total_distortion_bits,
                present_planes,
            },
        )
    }
}

proof fn lemma_counts_nonnegative(planes: Seq<u8>, count: int)
    requires
        0 <= count <= planes.len(),
    ensures
        0 <= plane_sum(count_fn(), planes, count),
    decreases count,
{
    if count > 0 {
        lemma_counts_nonnegative(planes, count - 1);
    }
}

/// Why a plan cannot start, if it cannot.
pub open spec fn start_error<E>(expected_groups: u64, floor_groups: int) -> Option<
    UniformProfileAllocError<E>,
> {
    if floor_groups != expected_groups {
        Some(
            UniformProfileAllocError::FloorLength {
                expected: expected_groups,
                actual: floor_groups as u64,
            },
        )
    } else if expected_groups > u32::MAX {
        Some(UniformProfileAllocError::TooManyGroups { groups: expected_groups })
    } else {
        None
    }
}

/// Why a plan cannot finish, if it cannot.
pub open spec fn finish_error<E>(
    curves: Seq<Seq<u64>>,
    expected_groups: int,
    floors: Seq<u8>,
    capacity: int,
    profile: SaltV2Profile,
) -> Option<UniformProfileAllocError<E>> {
    if curves.len() != expected_groups {
        Some(
            UniformProfileAllocError::CurveSourceShort {
                expected: expected_groups as u64,
                actual: curves.len() as u64,
            },
        )
    } else if f64_rounded(
        curve_total(curves, best_uniform(curves, floors, capacity)) as nat,
    ) is None {
        Some(
            UniformProfileAllocError::Allocation(
                PhysicalAllocError::AccountingOverflow { profile },
            ),
        )
    } else {
        None
    }
}

fn widen_units(units: &Vec<CompactUnitUpgrade>) -> (wide: Vec<UnitUpgrade>)
    ensures
        wide@ == wide_units(units@),
{
    let mut wide: Vec<UnitUpgrade> = Vec::new();
    let mut index: usize = 0;
    while index < units.len()
        invariant
            index <= units@.len(),
            wide@ == wide_units(units@).take(index as int),
        decreases units@.len() - index,
    {
        let unit = units[index];
        wide.push(
            UnitUpgrade {
                group: unit.group as usize,
                target_planes: unit.target_planes,
                distortion_reduction: unit.distortion_reduction,
            },
        );
        index = index + 1;
        assert(wide@ =~= wide_units(units@).take(index as int));
    }
    assert(wide@ =~= wide_units(units@));
    wide
}

fn widen_bundles(bundles: &Vec<CompactBundledUpgrade>) -> (wide: Vec<BundledUpgrade>)
    ensures
        wide@ == wide_bundles(bundles@),
{
    let mut wide: Vec<BundledUpgrade> = Vec::new();
    let mut index: usize = 0;
    while index < bundles.len()
        invariant
            index <= bundles@.len(),
            wide@ == wide_bundles(bundles@).take(index as int),
        decreases bundles@.len() - index,
    {
        let bundle = bundles[index];
        wide.push(
            BundledUpgrade {
                group: bundle.group as usize,
                distortion_reduction: bundle.distortion_reduction,
                first_plane_reduction: bundle.first_plane_reduction,
            },
        );
        index = index + 1;
        assert(wide@ =~= wide_bundles(bundles@).take(index as int));
    }
    assert(wide@ =~= wide_bundles(bundles@));
    wide
}

/// Packed plane vector of a choice.
fn materialize_packed(
    indexes: &RegularIndexes,
    choice: RegularChoice,
    floors: &PackedPlaneCounts,
    Ghost(curves): Ghost<Seq<Seq<u64>>>,
) -> (planes: PackedPlaneCounts)
    requires
        floors.wf(),
        indexes.wf(curves, floors@),
        indexes.model(curves, floors@).choice_wf(choice),
    ensures
        planes.wf(),
        planes@ == indexes.model(curves, floors@).choice_vector(choice),
{
    let ghost model = indexes.model(curves, floors@);
    let ghost pick = choice.pick();
    let ghost level = choice.level();
    let mut planes = floors.copy();
    let mut rank: usize = 0;
    while rank < indexes.units.len()
        invariant
            rank <= indexes.units@.len(),
            model == indexes.model(curves, floors@),
            model.wf(),
            pick == choice.pick(),
            planes.wf(),
            planes@.len() == floors@.len(),
            planes@ == model.unit_vector(pick, rank as int),
        decreases indexes.units@.len() - rank,
    {
        assert(model.unit_sound(model.units[rank as int]));
        if rank < choice.unit_count {
            planes.set(indexes.units[rank].group as u64, indexes.units[rank].target_planes);
        }
        rank = rank + 1;
    }
    let mut bundle: usize = 0;
    while bundle < indexes.bundles.len()
        invariant
            bundle <= indexes.bundles@.len(),
            model == indexes.model(curves, floors@),
            model.wf(),
            pick == choice.pick(),
            level == choice.level(),
            planes.wf(),
            planes@.len() == floors@.len(),
            planes@ == model.vector(pick, level, bundle as int),
        decreases indexes.bundles@.len() - bundle,
    {
        assert(model.bundle_sound(model.bundles[bundle as int]));
        planes.set(indexes.bundles[bundle].group as u64, indexes.level(choice, bundle));
        bundle = bundle + 1;
    }
    planes
}

/// Curves at the head of a source, up to its first failure.
pub open spec fn leading_curves<E>(
    source: Seq<Result<UniformPrefixCurve, E>>,
    count: int,
) -> Seq<Seq<u64>> {
    Seq::new(count as nat, |i: int| source[i]->Ok_0@)
}

/// The outcome of replaying a source from position `index`.
pub open spec fn source_error<E>(
    source: Seq<Result<UniformPrefixCurve, E>>,
    expected_groups: u64,
    index: int,
) -> Option<UniformProfileAllocError<E>>
    decreases expected_groups - index,
{
    if index >= expected_groups {
        if index >= source.len() {
            None
        } else {
            match source[index] {
                Ok(_) => Some(
                    UniformProfileAllocError::CurveSourceLong { expected: expected_groups },
                ),
                Err(error) => Some(UniformProfileAllocError::Source(error)),
            }
        }
    } else if index >= source.len() {
        Some(
            UniformProfileAllocError::CurveSourceShort {
                expected: expected_groups,
                actual: index as u64,
            },
        )
    } else {
        match source[index] {
            Ok(_) => source_error(source, expected_groups, index + 1),
            Err(error) => Some(UniformProfileAllocError::Source(error)),
        }
    }
}

/// Why a replayed allocation is refused, if it is.
pub open spec fn uniform_error<E>(
    source: Seq<Result<UniformPrefixCurve, E>>,
    expected_groups: u64,
    floors: Seq<u8>,
    capacity: int,
    profile: SaltV2Profile,
) -> Option<UniformProfileAllocError<E>> {
    if start_error::<E>(expected_groups, floors.len() as int) is Some {
        start_error::<E>(expected_groups, floors.len() as int)
    } else if source_error(source, expected_groups, 0) is Some {
        source_error(source, expected_groups, 0)
    } else {
        finish_error::<E>(
            leading_curves(source, expected_groups as int),
            expected_groups as int,
            floors,
            capacity,
            profile,
        )
    }
}

/// Allocate one exact equal-increment profile from a replayed curve stream.
///
/// Only compact ranked upgrades and the two-bit floor and result maps are
/// retained. `additional_capacity` is an exact count of physically
/// interchangeable plane deltas.
pub fn allocate_uniform_profile_packed<E>(
    expected_groups: u64,
    floors: &PackedPlaneCounts,
    additional_capacity: u64,
    profile: SaltV2Profile,
    curves: Vec<Result<UniformPrefixCurve, E>>,
) -> (result: Result<PackedUniformProfileAllocation, UniformProfileAllocError<E>>)
    requires
        floors.wf(),
    ensures
        match result {
            Ok(allocation) => uniform_error(
                curves@,
                expected_groups,
                floors@,
                additional_capacity as int,
                profile,
            ) is None && uniform_realizes(
                allocation,
                leading_curves(curves@, expected_groups as int),
                floors@,
                additional_capacity as int,
            ),
            Err(error) => uniform_error(
                curves@,
                expected_groups,
                floors@,
                additional_capacity as int,
                profile,
            ) == Some(error),
        },
{
    let ghost source = curves@;
    let mut replay = curves;
    let mut planner = match PackedUniformProfilePlanner::start::<E>(
        expected_groups,
        floors,
        additional_capacity,
        profile,
    ) {
        Err(error) => {
            return Err(error);
        },
        Ok(planner) => planner,
    };
    let mut ordinal: u64 = 0;
    assert(leading_curves(source, 0) =~= Seq::<Seq<u64>>::empty());
    while ordinal < expected_groups
        invariant
            ordinal <= expected_groups,
            curves@ == source,
            replay@ == source,
            planner.wf(),
            planner.expected() == expected_groups,
            planner.floor_counts() == floors@,
            planner.capacity() == additional_capacity,
            planner.profile() == profile,
            ordinal <= source.len(),
            planner.pushed() == leading_curves(source, ordinal as int),
            start_error::<E>(expected_groups, floors@.len() as int) is None,
            source_error(source, expected_groups, 0) == source_error(
                source,
                expected_groups,
                ordinal as int,
            ),
        decreases expected_groups - ordinal,
    {
        if ordinal >= replay.len() as u64 {
            return Err(
                UniformProfileAllocError::CurveSourceShort {
                    expected: expected_groups,
                    actual: ordinal,
                },
            );
        }
        let position: usize = ordinal as usize;
        let next: Option<UniformPrefixCurve> = match &replay[position] {
            Ok(curve) => Some(*curve),
            Err(_) => None,
        };
        match next {
            None => {
                match replay.swap_remove(position) {
                    Err(error) => {
                        return Err(UniformProfileAllocError::Source(error));
                    },
                    Ok(_) => {
                        assert(false);
                    },
                }
            },
            Some(curve) => {
                planner.append(curve);
                assert(leading_curves(source, ordinal + 1) =~= leading_curves(
                    source,
                    ordinal as int,
                ).push(curve@));
            },
        }
        ordinal = ordinal + 1;
    }
    if (replay.len() as u64) > expected_groups {
        let position: usize = expected_groups as usize;
        match replay.swap_remove(position) {
            Err(error) => {
                return Err(UniformProfileAllocError::Source(error));
            },
            Ok(_) => {
                return Err(
                    UniformProfileAllocError::CurveSourceLong { expected: expected_groups },
                );
            },
        }
    }
    planner.solve::<E>()
}

} // verus!
