//! The best sorted-prefix choice is the best allocation.

use crate::physical::{GroupCandidates, ProfileBudget};
use crate::plane_model::{
    count_fn, curve_fn, curve_total, curve_valid, curves_of, floors_valid, in_range,
    lemma_lex_total, lemma_lex_transitive, lemma_lex_update, lemma_plane_sum_update, lex_greater,
    mode_bytes, plane_sum, preferred, prefix_cost, resident_fn, resident_of, serialized_fn,
    serialized_of, ByteMode,
};
use crate::ranked::{key_less, prefix_weight, RankedUpgrade};
use crate::regular_model::{
    lemma_exchange, lemma_other_rank, lemma_selected_bounds, lemma_selected_prefix,
    lemma_selected_prefix_without, picked_weight, selected, Regular,
};
use vstd::prelude::*;

verus! {

/// Every upgrade above the floors costs the same bytes.
pub open spec fn equal_cost(
    groups: Seq<GroupCandidates<'_>>,
    floors: Seq<u8>,
    serialized: int,
    resident: int,
) -> bool {
    forall|g: int, q: int|
        0 <= g < groups.len() && floors[g] <= q < 3 ==> {
            let bytes = mode_bytes(
                ByteMode::Effective,
                (#[trigger] groups[g].candidates@[q]).byte_delta,
            );
            bytes.serialized == serialized && bytes.resident == resident
        }
}

/// Planes appended above the floors.
pub open spec fn added_planes(floors: Seq<u8>, planes: Seq<u8>) -> int {
    plane_sum(count_fn(), planes, floors.len() as int) - plane_sum(
        count_fn(),
        floors,
        floors.len() as int,
    )
}

proof fn lemma_prefix_cost_linear(costs: spec_fn(int) -> int, low: int, high: int, cost: int)
    requires
        0 <= low <= high,
        forall|q: int| low <= q < high ==> #[trigger] costs(q) == cost,
    ensures
        prefix_cost(costs, high) - prefix_cost(costs, low) == cost * (high - low),
    decreases high - low,
{
    if low < high {
        lemma_prefix_cost_linear(costs, low, high - 1, cost);
        assert(cost * (high - low) == cost * (high - 1 - low) + cost) by (nonlinear_arith);
        assert(costs(high - 1) == cost);
    } else {
        assert(cost * 0 == 0);
    }
}

proof fn lemma_linear_totals(
    f: spec_fn(int, int) -> int,
    floors: Seq<u8>,
    planes: Seq<u8>,
    count: int,
    cost: int,
)
    requires
        0 <= count <= floors.len(),
        planes.len() == floors.len(),
        forall|g: int|
            0 <= g < floors.len() ==> #[trigger] f(g, planes[g] as int) - f(g, floors[g] as int)
                == cost * (planes[g] - floors[g]),
    ensures
        plane_sum(f, planes, count) - plane_sum(f, floors, count) == cost * (plane_sum(
            count_fn(),
            planes,
            count,
        ) - plane_sum(count_fn(), floors, count)),
    decreases count,
{
    if count > 0 {
        lemma_linear_totals(f, floors, planes, count - 1, cost);
        let before = plane_sum(count_fn(), planes, count - 1) - plane_sum(
            count_fn(),
            floors,
            count - 1,
        );
        let step = planes[count - 1] - floors[count - 1];
        assert(f(count - 1, planes[count - 1] as int) - f(count - 1, floors[count - 1] as int)
            == cost * step);
        assert(cost * (before + step) == cost * before + cost * step) by (nonlinear_arith);
        let after = plane_sum(count_fn(), planes, count) - plane_sum(count_fn(), floors, count);
        assert(after == before + step);
    } else {
        assert(cost * 0 == 0);
        assert(plane_sum(count_fn(), planes, count) - plane_sum(count_fn(), floors, count) == 0);
    }
}

/// Equal costs make bytes a multiple of the appended planes.
pub proof fn lemma_equal_cost_bytes(
    groups: Seq<GroupCandidates<'_>>,
    floors: Seq<u8>,
    limit: ProfileBudget,
    planes: Seq<u8>,
    serialized: int,
    resident: int,
)
    requires
        floors_valid(groups, floors),
        in_range(floors, planes),
        equal_cost(groups, floors, serialized, resident),
    ensures
        serialized_of(groups, limit, planes) == serialized_of(groups, limit, floors) + serialized
            * added_planes(floors, planes),
        resident_of(groups, limit, planes) == resident_of(groups, limit, floors) + resident
            * added_planes(floors, planes),
{
    let fs = serialized_fn(groups, ByteMode::Effective);
    let fr = resident_fn(groups, ByteMode::Effective);
    assert forall|g: int| 0 <= g < floors.len() implies #[trigger] fs(g, planes[g] as int) - fs(
        g,
        floors[g] as int,
    ) == serialized * (planes[g] - floors[g]) && fr(g, planes[g] as int) - fr(g, floors[g] as int)
        == resident * (planes[g] - floors[g]) by {
        assert(floors[g] <= planes[g] <= 3);
        assert(1 <= floors[g]);
        let cs = |q: int|
            mode_bytes(ByteMode::Effective, groups[g].candidates@[q].byte_delta).serialized as int;
        let cr = |q: int|
            mode_bytes(ByteMode::Effective, groups[g].candidates@[q].byte_delta).resident as int;
        assert forall|q: int| floors[g] <= q < planes[g] implies #[trigger] cs(q) == serialized
            && cr(q) == resident by {
            let candidate = groups[g].candidates@[q];
        }
        assert forall|q: int| floors[g] <= q < planes[g] implies #[trigger] cr(q) == resident by {
            assert(cs(q) == serialized && cr(q) == resident);
        }
        lemma_prefix_cost_linear(cs, floors[g] as int, planes[g] as int, serialized);
        lemma_prefix_cost_linear(cr, floors[g] as int, planes[g] as int, resident);
    }
    assert forall|g: int| 0 <= g < floors.len() implies #[trigger] fr(g, planes[g] as int) - fr(
        g,
        floors[g] as int,
    ) == resident * (planes[g] - floors[g]) by {
        assert(fs(g, planes[g] as int) - fs(g, floors[g] as int) == serialized * (planes[g]
            - floors[g]));
    }
    lemma_linear_totals(fs, floors, planes, floors.len() as int, serialized);
    lemma_linear_totals(fr, floors, planes, floors.len() as int, resident);
}

/// Order of vectors under equal nonzero costs: lower distortion, then fewer
/// planes, then the lexicographically greater vector.
pub open spec fn ahead(
    curves: Seq<Seq<u64>>,
    floors: Seq<u8>,
    left: Seq<u8>,
    right: Seq<u8>,
) -> bool {
    let dl = curve_total(curves, left);
    let dr = curve_total(curves, right);
    let al = added_planes(floors, left);
    let ar = added_planes(floors, right);
    dl < dr || (dl == dr && (al < ar || (al == ar && lex_greater(left, right))))
}

/// Under equal nonzero costs that order is the preference.
pub proof fn lemma_ahead_is_preferred(
    groups: Seq<GroupCandidates<'_>>,
    floors: Seq<u8>,
    limit: ProfileBudget,
    left: Seq<u8>,
    right: Seq<u8>,
    serialized: int,
    resident: int,
)
    requires
        floors_valid(groups, floors),
        in_range(floors, left),
        in_range(floors, right),
        equal_cost(groups, floors, serialized, resident),
        serialized >= 0,
        resident >= 0,
        serialized > 0 || resident > 0,
    ensures
        ahead(curves_of(groups), floors, left, right) == preferred(groups, limit, left, right),
{
    lemma_equal_cost_bytes(groups, floors, limit, left, serialized, resident);
    lemma_equal_cost_bytes(groups, floors, limit, right, serialized, resident);
    let al = added_planes(floors, left);
    let ar = added_planes(floors, right);
    if al < ar {
        assert(serialized * al <= serialized * ar && resident * al <= resident * ar && (serialized
            > 0 ==> serialized * al < serialized * ar) && (resident > 0 ==> resident * al
            < resident * ar)) by (nonlinear_arith)
            requires
                al < ar,
                serialized >= 0,
                resident >= 0,
        ;
    } else if ar < al {
        assert(serialized * ar <= serialized * al && resident * ar <= resident * al && (serialized
            > 0 ==> serialized * ar < serialized * al) && (resident > 0 ==> resident * ar
            < resident * al)) by (nonlinear_arith)
            requires
                ar < al,
                serialized >= 0,
                resident >= 0,
        ;
    }
}

pub proof fn lemma_ahead_transitive(
    curves: Seq<Seq<u64>>,
    floors: Seq<u8>,
    a: Seq<u8>,
    b: Seq<u8>,
    c: Seq<u8>,
)
    requires
        a.len() == b.len(),
        b.len() == c.len(),
        ahead(curves, floors, a, b),
        ahead(curves, floors, b, c),
    ensures
        ahead(curves, floors, a, c),
{
    if lex_greater(a, b) && lex_greater(b, c) {
        lemma_lex_transitive(a, b, c);
    }
}

/// Changing two vectors alike where they agree keeps their order.
pub proof fn lemma_ahead_update(
    curves: Seq<Seq<u64>>,
    floors: Seq<u8>,
    left: Seq<u8>,
    right: Seq<u8>,
    group: int,
    value: u8,
)
    requires
        left.len() == floors.len(),
        right.len() == floors.len(),
        0 <= group < floors.len(),
        left[group] == right[group],
        ahead(curves, floors, left, right),
    ensures
        ahead(curves, floors, left.update(group, value), right.update(group, value)),
{
    let n = floors.len() as int;
    lemma_plane_sum_update(curve_fn(curves), left, n, group, value);
    lemma_plane_sum_update(curve_fn(curves), right, n, group, value);
    lemma_plane_sum_update(count_fn(), left, n, group, value);
    lemma_plane_sum_update(count_fn(), right, n, group, value);
    if lex_greater(left, right) {
        lemma_lex_update(left, right, group, value);
    }
}

proof fn lemma_same_sum(
    f: spec_fn(int, int) -> int,
    left: Seq<u8>,
    right: Seq<u8>,
    count: int,
)
    requires
        forall|g: int| 0 <= g < count ==> #[trigger] f(g, left[g] as int) == f(g, right[g] as int),
    ensures
        plane_sum(f, left, count) == plane_sum(f, right, count),
    decreases count,
{
    if count > 0 {
        lemma_same_sum(f, left, right, count - 1);
        assert(f(count - 1, left[count - 1] as int) == f(count - 1, right[count - 1] as int));
    }
}

proof fn lemma_fewer_planes(low: Seq<u8>, high: Seq<u8>, count: int)
    requires
        0 <= count <= low.len(),
        low.len() == high.len(),
        forall|g: int| 0 <= g < count ==> #[trigger] low[g] <= high[g],
    ensures
        plane_sum(count_fn(), low, count) <= plane_sum(count_fn(), high, count),
        plane_sum(count_fn(), low, count) == plane_sum(count_fn(), high, count) ==> forall|g: int|
            0 <= g < count ==> #[trigger] low[g] == high[g],
    decreases count,
{
    if count > 0 {
        lemma_fewer_planes(low, high, count - 1);
        assert(low[count - 1] <= high[count - 1]);
    }
}

/// Prefix lengths of both ranked lists and at most one bundle that stops at
/// two planes.
#[derive(Clone, Copy, Debug)]
pub struct RegularChoice {
    /// Number of leading units.
    pub unit_count: usize,
    /// Number of leading bundle ranks taken to three planes.
    pub bundle_take: usize,
    /// Bundle rank that stops at two planes.
    pub exception: Option<usize>,
}

/// The smaller of two counts.
pub open spec fn at_most(left: int, right: int) -> int {
    if left <= right {
        left
    } else {
        right
    }
}

impl RegularChoice {
    /// The leading units.
    pub open spec fn pick(self) -> spec_fn(int) -> bool {
        |r: int| r < self.unit_count
    }

    /// Plane count of every bundle rank.
    pub open spec fn level(self) -> spec_fn(int) -> int {
        |r: int|
            if self.exception matches Some(e) && e == r {
                2
            } else if r < self.bundle_take {
                3
            } else {
                1
            }
    }
}

impl Regular {
    /// Both prefixes and the exception lie inside the lists.
    pub open spec fn choice_wf(self, choice: RegularChoice) -> bool {
        &&& choice.unit_count <= self.units.len()
        &&& choice.bundle_take <= self.bundles.len()
        &&& choice.exception matches Some(e) ==> e < self.bundles.len()
    }

    /// Vector of a choice.
    pub open spec fn choice_vector(self, choice: RegularChoice) -> Seq<u8> {
        self.build(choice.pick(), choice.level())
    }

    /// Reduction of a choice.
    pub open spec fn choice_reduction(self, choice: RegularChoice) -> int {
        prefix_weight(self.units, choice.unit_count as int) + prefix_weight(
            self.bundles,
            choice.bundle_take as int,
        ) + match choice.exception {
            None => 0int,
            Some(e) => self.bundles[e as int].first_plane_reduction.value() - if e
                < choice.bundle_take {
                self.bundles[e as int].weight()
            } else {
                0
            },
        }
    }

    /// Planes appended by a choice.
    pub open spec fn choice_planes(self, choice: RegularChoice) -> int {
        choice.unit_count + 2 * choice.bundle_take + match choice.exception {
            None => 0int,
            Some(e) => if e < choice.bundle_take {
                -1
            } else {
                1
            },
        }
    }

    proof fn units_prefix_weight(self, bound: int, count: int)
        requires
            0 <= bound,
            0 <= count <= self.units.len(),
        ensures
            picked_weight(self.unit_weight(), |r: int| r < bound, count) == prefix_weight(
                self.units,
                at_most(bound, count),
            ),
        decreases count,
    {
        if count > 0 {
            self.units_prefix_weight(bound, count - 1);
        }
    }

    proof fn choice_bundle_sums(self, choice: RegularChoice, count: int)
        requires
            self.wf(),
            self.choice_wf(choice),
            0 <= count <= self.bundles.len(),
        ensures
            self.bundle_reduction(choice.level(), count) == prefix_weight(
                self.bundles,
                at_most(choice.bundle_take as int, count),
            ) + match choice.exception {
                None => 0int,
                Some(e) => if e < count {
                    self.bundles[e as int].first_plane_reduction.value() - if e
                        < choice.bundle_take {
                        self.bundles[e as int].weight()
                    } else {
                        0
                    }
                } else {
                    0
                },
            },
            self.bundle_planes(choice.level(), count) == 2 * at_most(
                choice.bundle_take as int,
                count,
            ) + match choice.exception {
                None => 0int,
                Some(e) => if e < count {
                    if e < choice.bundle_take {
                        -1
                    } else {
                        1
                    }
                } else {
                    0
                },
            },
        decreases count,
    {
        if count > 0 {
            self.choice_bundle_sums(choice, count - 1);
        }
    }

    /// Facts about the vector of a choice.
    pub proof fn choice_facts(self, choice: RegularChoice)
        requires
            self.wf(),
            self.choice_wf(choice),
        ensures
            in_range(self.floors, self.choice_vector(choice)),
            curve_total(self.curves, self.choice_vector(choice)) == curve_total(
                self.curves,
                self.floors,
            ) - self.choice_reduction(choice),
            added_planes(self.floors, self.choice_vector(choice)) == self.choice_planes(choice),
            forall|r: int|
                0 <= r < self.bundles.len() ==> self.choice_vector(choice)[(
                #[trigger] self.bundles[r]).group as int] == choice.level()(r),
            forall|r: int|
                0 <= r < self.units.len() ==> (r < choice.unit_count <==> self.choice_vector(
                    choice,
                )[(#[trigger] self.units[r]).group as int] >= self.units[r].target_planes),
            forall|g: int|
                0 <= g < self.floors.len() && !self.nonconcave(g) ==> #[trigger]
                self.choice_vector(choice)[g] == self.unit_level(
                    choice.pick(),
                    self.units.len() as int,
                    g,
                ),
    {
        let u = self.units.len() as int;
        let b = self.bundles.len() as int;
        assert(self.closed_pick(choice.pick()));
        assert(self.valid_level(choice.level()));
        self.build_facts(choice.pick(), choice.level());
        self.units_prefix_weight(choice.unit_count as int, u);
        assert(choice.pick() =~= (|r: int| r < choice.unit_count as int));
        lemma_selected_prefix(choice.unit_count as int, u);
        self.choice_bundle_sums(choice, b);
    }

    /// Two choices that differ only in one exceptional rank differ only in that
    /// group.
    pub proof fn exception_update(self, choice: RegularChoice, rank: usize)
        requires
            self.wf(),
            self.choice_wf(choice),
            choice.exception is None,
            rank < self.bundles.len(),
        ensures
            self.choice_vector(RegularChoice { exception: Some(rank), ..choice })
                == self.choice_vector(choice).update(
                self.bundles[rank as int].group as int,
                2,
            ),
    {
        let changed = RegularChoice { exception: Some(rank), ..choice };
        self.choice_facts(choice);
        self.choice_facts(changed);
        let x = self.choice_vector(choice).update(self.bundles[rank as int].group as int, 2);
        let y = self.choice_vector(changed);
        assert(changed.pick() =~= choice.pick());
        assert(self.bundle_sound(self.bundles[rank as int]));
        assert forall|g: int| 0 <= g < self.floors.len() implies y[g] == x[g] by {
            if self.nonconcave(g) {
                assert(self.has_bundle(g));
                let r = choose|r: int|
                    0 <= r < self.bundles.len() && (#[trigger] self.bundles[r]).group == g;
                assert(y[self.bundles[r].group as int] == changed.level()(r));
                assert(self.choice_vector(choice)[self.bundles[r].group as int] == choice.level()(
                    r,
                ));
                if r != rank {
                    if r < rank {
                        assert(self.bundles[r].group != self.bundles[rank as int].group);
                    } else {
                        assert(self.bundles[rank as int].group != self.bundles[r].group);
                    }
                }
            } else {
                assert(self.choice_vector(choice)[g] == self.unit_level(
                    choice.pick(),
                    self.units.len() as int,
                    g,
                ));
                assert(y[g] == self.unit_level(changed.pick(), self.units.len() as int, g));
            }
        }
        assert(y =~= x);
    }

    /// Choices that fill a capacity.
    pub open spec fn family(self, capacity: int, choice: RegularChoice) -> bool {
        &&& self.choice_wf(choice)
        &&& match choice.exception {
            None => {
                &&& 2 * choice.bundle_take <= capacity
                &&& choice.unit_count == at_most(
                    self.units.len() as int,
                    capacity - 2 * choice.bundle_take,
                )
            },
            Some(e) => {
                let others = if e < choice.bundle_take {
                    choice.bundle_take - 1
                } else {
                    choice.bundle_take as int
                };
                &&& self.bundles[e as int].first_plane_reduction.value() > 0
                &&& choice.bundle_take != e + 1
                &&& 2 * others + 1 <= capacity
                &&& choice.unit_count == at_most(
                    self.units.len() as int,
                    capacity - 1 - 2 * others,
                )
            },
        }
    }

    /// Whether a bundle rank stops at two planes.
    pub open spec fn stops_at_two(self, planes: Seq<u8>) -> spec_fn(int) -> bool {
        |r: int| planes[self.bundles[r].group as int] == 2
    }

    proof fn unit_rank_order(self, r: int, s: int)
        requires
            self.wf(),
            0 <= r <= s < self.units.len(),
        ensures
            self.units[r].weight() >= self.units[s].weight(),
            r < s && self.units[r].weight() == self.units[s].weight() ==> self.units[r].group
                < self.units[s].group || (self.units[r].group == self.units[s].group
                && self.units[r].target_planes < self.units[s].target_planes),
    {
        if r < s {
            assert(!key_less(self.units[s].key(), self.units[r].key()));
            assert(self.units[r].group != self.units[s].group || self.units[r].target_planes
                != self.units[s].target_planes);
        }
    }

    proof fn bundle_rank_order(self, r: int, s: int)
        requires
            self.wf(),
            0 <= r <= s < self.bundles.len(),
        ensures
            self.bundles[r].weight() >= self.bundles[s].weight(),
            r < s && self.bundles[r].weight() == self.bundles[s].weight() ==> self.bundles[r].group
                < self.bundles[s].group,
    {
        if r < s {
            assert(!key_less(self.bundles[s].key(), self.bundles[r].key()));
            assert(self.bundles[r].group != self.bundles[s].group);
        }
    }

    /// Units of a vector.
    pub open spec fn pick_of(self, planes: Seq<u8>) -> spec_fn(int) -> bool {
        |r: int| planes[self.units[r].group as int] >= self.units[r].target_planes
    }

    /// Bundle levels of a vector.
    pub open spec fn level_of(self, planes: Seq<u8>) -> spec_fn(int) -> int {
        |r: int| planes[self.bundles[r].group as int] as int
    }

    /// Dropping upgrades that remove nothing gives a vector of listed upgrades
    /// that is equal or ahead.
    proof fn positive_part(self, planes: Seq<u8>) -> (kept: Seq<u8>)
        requires
            self.wf(),
            in_range(self.floors, planes),
        ensures
            kept == self.build(self.pick_of(planes), self.level_of(planes)),
            self.closed_pick(self.pick_of(planes)),
            self.valid_level(self.level_of(planes)),
            in_range(self.floors, kept),
            kept == planes || ahead(self.curves, self.floors, kept, planes),
            added_planes(self.floors, kept) <= added_planes(self.floors, planes),
            forall|g: int| 0 <= g < kept.len() ==> #[trigger] kept[g] <= planes[g],
    {
        let pick = self.pick_of(planes);
        let level = self.level_of(planes);
        let n = self.floors.len() as int;
        let u = self.units.len() as int;
        assert forall|r: int, s: int|
            0 <= r < s < self.units.len() && (#[trigger] self.units[r]).group == (
            #[trigger] self.units[s]).group && pick(s) implies pick(r) by {
            assert(self.unit_sound(self.units[r]));
            assert(self.unit_sound(self.units[s]));
            self.units_by_target(r, s);
        }
        assert forall|r: int| 0 <= r < self.bundles.len() implies 1 <= #[trigger] level(r) <= 3 by {
            assert(self.bundle_sound(self.bundles[r]));
            let g = self.bundles[r].group as int;
            assert(self.floors[g] <= planes[g] <= 3);
        }
        self.build_facts(pick, level);
        let kept = self.build(pick, level);
        assert forall|g: int| 0 <= g < n implies #[trigger] kept[g] <= planes[g] && self.d(
            g,
            kept[g] as int,
        ) == self.d(g, planes[g] as int) by {
            self.positive_entry(planes, g);
        }
        assert forall|g: int| 0 <= g < n implies #[trigger] curve_fn(self.curves)(
            g,
            kept[g] as int,
        ) == curve_fn(self.curves)(g, planes[g] as int) by {
            assert(kept[g] <= planes[g] && self.d(g, kept[g] as int) == self.d(
                g,
                planes[g] as int,
            ));
        }
        lemma_same_sum(curve_fn(self.curves), kept, planes, n);
        lemma_fewer_planes(kept, planes, n);
        if added_planes(self.floors, kept) == added_planes(self.floors, planes) {
            assert(kept =~= planes);
        }
        kept
    }

    proof fn units_by_target(self, r: int, s: int)
        requires
            self.wf(),
            0 <= r < s < self.units.len(),
            self.units[r].group == self.units[s].group,
        ensures
            self.units[r].target_planes < self.units[s].target_planes,
    {
        assert(self.unit_sound(self.units[r]));
        assert(self.unit_sound(self.units[s]));
        assert(!key_less(self.units[s].key(), self.units[r].key()));
    }

    /// One entry of the positive part.
    proof fn positive_entry(self, planes: Seq<u8>, g: int)
        requires
            self.wf(),
            in_range(self.floors, planes),
            self.closed_pick(self.pick_of(planes)),
            self.valid_level(self.level_of(planes)),
            0 <= g < self.floors.len(),
        ensures
            self.build(self.pick_of(planes), self.level_of(planes))[g] <= planes[g],
            self.d(g, self.build(self.pick_of(planes), self.level_of(planes))[g] as int) == self.d(
                g,
                planes[g] as int,
            ),
    {
        let pick = self.pick_of(planes);
        let level = self.level_of(planes);
        self.build_facts(pick, level);
        let kept = self.build(pick, level);
        assert(self.floors[g] <= planes[g] <= 3);
        assert(self.floors[g] <= kept[g] <= 3);
        assert(1 <= self.floors[g] <= 3);
        assert(curve_valid(self.curves[g]));
        if self.nonconcave(g) {
            assert(self.has_bundle(g));
            let r = choose|r: int|
                0 <= r < self.bundles.len() && (#[trigger] self.bundles[r]).group == g;
            assert(kept[self.bundles[r].group as int] == level(r));
        } else {
            // A reached unit lies within the vector, and a plane without a unit
            // removes nothing.
            if kept[g] > planes[g] {
                self.reached_unit(pick, level, g);
            }
            assert forall|p: int| kept[g] < p <= planes[g] implies #[trigger] self.d(g, p)
                == self.d(g, p - 1) by {
                if self.d(g, p) < self.d(g, p - 1) {
                    assert(self.has_unit(g, p));
                    let r = choose|r: int|
                        0 <= r < self.units.len() && (#[trigger] self.units[r]).group == g
                            && self.units[r].target_planes == p;
                    assert(pick(r));
                    assert(kept[self.units[r].group as int] >= self.units[r].target_planes);
                }
                assert(self.d(g, p) <= self.d(g, p - 1));
            }
            if kept[g] + 1 <= planes[g] {
                assert(self.d(g, kept[g] + 1) == self.d(g, kept[g] as int));
            }
            if kept[g] + 2 <= planes[g] {
                assert(self.d(g, kept[g] + 2) == self.d(g, kept[g] + 1));
            }
        }
    }

    /// A concave group above its floor is there because of a picked unit.
    pub proof fn reached_unit(
        self,
        pick: spec_fn(int) -> bool,
        level: spec_fn(int) -> int,
        g: int,
    ) -> (rank: int)
        requires
            self.wf(),
            self.closed_pick(pick),
            self.valid_level(level),
            0 <= g < self.floors.len(),
            !self.nonconcave(g),
            self.build(pick, level)[g] > self.floors[g],
        ensures
            0 <= rank < self.units.len(),
            pick(rank),
            self.units[rank].group == g,
            self.units[rank].target_planes == self.build(pick, level)[g],
    {
        self.build_facts(pick, level);
        assert(self.build(pick, level)[g] == self.unit_level(pick, self.units.len() as int, g));
        self.unit_source(pick, self.units.len() as int, g)
    }

    proof fn unit_source(self, pick: spec_fn(int) -> bool, count: int, g: int) -> (rank: int)
        requires
            0 <= count <= self.units.len(),
            self.unit_level(pick, count, g) != self.floors[g],
        ensures
            0 <= rank < count,
            pick(rank),
            self.units[rank].group == g,
            self.units[rank].target_planes == self.unit_level(pick, count, g),
        decreases count,
    {
        if pick(count - 1) && self.units[count - 1].group == g {
            count - 1
        } else {
            self.unit_source(pick, count - 1, g)
        }
    }

    /// Bundle sums split into full bundles and the one exception.
    proof fn bundle_split(
        self,
        level: spec_fn(int) -> int,
        exception: Option<int>,
        count: int,
    )
        requires
            self.valid_level(level),
            0 <= count <= self.bundles.len(),
            forall|r: int|
                0 <= r < self.bundles.len() && #[trigger] level(r) == 2 ==> exception == Some(r),
            exception matches Some(e) ==> 0 <= e < self.bundles.len() && level(e) == 2,
        ensures
            self.bundle_reduction(level, count) == picked_weight(
                self.bundle_weight(),
                |r: int| level(r) == 3,
                count,
            ) + match exception {
                None => 0int,
                Some(e) => if e < count {
                    self.bundles[e].first_plane_reduction.value()
                } else {
                    0
                },
            },
            self.bundle_planes(level, count) == 2 * selected(|r: int| level(r) == 3, count)
                + match exception {
                None => 0int,
                Some(e) => if e < count {
                    1
                } else {
                    0
                },
            },
        decreases count,
    {
        if count > 0 {
            self.bundle_split(level, exception, count - 1);
            assert(1 <= level(count - 1) <= 3);
            if level(count - 1) == 2 {
                assert(exception == Some(count - 1));
            }
        }
    }

    /// Every vector of listed upgrades within capacity is matched or beaten by
    /// a choice of the family.
    #[verifier::rlimit(40)]
    proof fn family_matches(
        self,
        capacity: int,
        planes: Seq<u8>,
        exception: Option<int>,
    ) -> (choice: RegularChoice)
        requires
            self.wf(),
            self.units.len() <= usize::MAX,
            self.bundles.len() <= usize::MAX,
            self.closed_pick(self.pick_of(planes)),
            self.valid_level(self.level_of(planes)),
            planes.len() == self.floors.len(),
            added_planes(
                self.floors,
                self.build(self.pick_of(planes), self.level_of(planes)),
            ) <= capacity,
            forall|r: int|
                0 <= r < self.bundles.len() && #[trigger] self.level_of(planes)(r) == 2
                    ==> exception == Some(r),
            exception matches Some(e) ==> 0 <= e < self.bundles.len() && self.level_of(planes)(e)
                == 2 && self.bundles[e].first_plane_reduction.value() > 0,
        ensures
            self.family(capacity, choice),
            ({
                let kept = self.build(self.pick_of(planes), self.level_of(planes));
                let best = self.choice_vector(choice);
                best == kept || ahead(self.curves, self.floors, best, kept)
            }),
    {
        let pick = self.pick_of(planes);
        let level = self.level_of(planes);
        let kept = self.build(pick, level);
        let u = self.units.len() as int;
        let b = self.bundles.len() as int;
        self.build_facts(pick, level);
        self.bundle_split(level, exception, b);
        let full = |r: int| level(r) == 3;
        let m = selected(full, b);
        let k = selected(pick, u);
        lemma_selected_bounds(full, b);
        lemma_selected_bounds(pick, u);
        let extra = if exception is Some {
            1int
        } else {
            0int
        };
        assert(added_planes(self.floors, kept) == k + 2 * m + extra);
        let take: int = match exception {
            None => m,
            Some(e) => if e < m {
                m + 1
            } else {
                m
            },
        };
        if let Some(e) = exception {
            let without = |r: int| r < b && r != e;
            assert forall|r: int| 0 <= r < b && full(r) implies #[trigger] without(r) by {}
            lemma_other_rank(full, without, b);
            lemma_selected_prefix_without(b, e, b);
        }
        let choice = RegularChoice {
            unit_count: at_most(u, capacity - extra - 2 * m) as usize,
            bundle_take: take as usize,
            exception: match exception {
                None => None,
                Some(e) => Some(e as usize),
            },
        };
        assert(self.family(capacity, choice));
        self.choice_facts(choice);
        let best = self.choice_vector(choice);
        let chosen_level = choice.level();
        assert(self.valid_level(chosen_level));
        assert forall|r: int| 0 <= r < b && #[trigger] chosen_level(r) == 2 implies exception
            == Some(r) by {}
        self.bundle_split(chosen_level, exception, b);
        self.build_facts(choice.pick(), chosen_level);
        // Bundles: the leading ranks are the heavier ones.
        let chosen_full = |r: int| chosen_level(r) == 3;
        match exception {
            None => {
                lemma_selected_prefix(take, b);
                assert(chosen_full =~= (|r: int| r < take));
            },
            Some(e) => {
                lemma_selected_prefix_without(take, e, b);
                assert(chosen_full =~= (|r: int| r < take && r != e));
            },
        }
        assert(selected(chosen_full, b) == m);
        let bundle_separator = if take > 0 {
            self.bundles[take - 1].weight()
        } else {
            0
        };
        if take == 0 {
            assert(m == 0);
            lemma_other_rank(|r: int| false, full, b);
            assert(selected(|r: int| false, b) == 0) by {
                lemma_never_selected(b);
            }
        }
        let bw = self.bundle_weight();
        assert forall|r: int| 0 <= r < b && chosen_full(r) && !full(r) implies #[trigger] bw(r)
            >= bundle_separator by {
            self.bundle_rank_order(r, take - 1);
        }
        assert forall|r: int| 0 <= r < b && full(r) && !chosen_full(r) implies #[trigger] bw(r)
            <= bundle_separator by {
            assert(level(r) == 3);
            if let Some(e) = exception {
                assert(r != e);
            }
            assert(r >= take);
            if take > 0 {
                self.bundle_rank_order(take - 1, r);
            }
        }
        lemma_exchange(bw, chosen_full, full, b, bundle_separator);
        assert(bundle_separator * (selected(chosen_full, b) - selected(full, b)) == 0)
            by (nonlinear_arith)
            requires
                selected(chosen_full, b) - selected(full, b) == 0,
        ;
        // Units: likewise.
        let chosen_pick = choice.pick();
        let count = choice.unit_count as int;
        lemma_selected_prefix(count, u);
        assert(chosen_pick =~= (|r: int| r < count));
        assert(selected(chosen_pick, u) == count);
        assert(k <= count);
        let unit_separator = if count > 0 {
            self.units[count - 1].weight()
        } else {
            0
        };
        if count == 0 {
            lemma_other_rank(|r: int| false, pick, u);
            lemma_never_selected(u);
        }
        let uw = self.unit_weight();
        assert forall|r: int| 0 <= r < u && chosen_pick(r) && !pick(r) implies #[trigger] uw(r)
            >= unit_separator by {
            self.unit_rank_order(r, count - 1);
        }
        assert forall|r: int| 0 <= r < u && pick(r) && !chosen_pick(r) implies #[trigger] uw(r)
            <= unit_separator by {
            if count > 0 {
                self.unit_rank_order(count - 1, r);
            }
        }
        lemma_exchange(uw, chosen_pick, pick, u, unit_separator);
        if k < count {
            assert(self.unit_sound(self.units[count - 1]));
            assert(unit_separator * (count - k) > 0) by (nonlinear_arith)
                requires
                    unit_separator > 0,
                    count - k > 0,
            ;
        } else {
            assert(unit_separator * (count - k) == 0) by (nonlinear_arith)
                requires
                    count - k == 0,
            ;
            assert(added_planes(self.floors, best) == added_planes(self.floors, kept));
            if curve_total(self.curves, best) == curve_total(self.curves, kept) {
                lemma_lex_total(best, kept, 0);
                self.tie_is_not_behind(
                    choice,
                    planes,
                    exception,
                    bundle_separator,
                    unit_separator,
                );
            }
        }
        choice
    }

    /// With equal weights the leading ranks also win lexicographically.
    proof fn tie_is_not_behind(
        self,
        choice: RegularChoice,
        planes: Seq<u8>,
        exception: Option<int>,
        bundle_separator: int,
        unit_separator: int,
    )
        requires
            self.wf(),
            self.choice_wf(choice),
            self.closed_pick(self.pick_of(planes)),
            self.valid_level(self.level_of(planes)),
            planes.len() == self.floors.len(),
            forall|r: int|
                0 <= r < self.bundles.len() && #[trigger] self.level_of(planes)(r) == 2
                    ==> exception == Some(r),
            exception matches Some(e) ==> 0 <= e < self.bundles.len() && self.level_of(planes)(e)
                == 2 && choice.exception == Some(e as usize) && e <= usize::MAX,
            exception is None ==> choice.exception is None,
            selected(|r: int| choice.level()(r) == 3, self.bundles.len() as int) == selected(
                |r: int| self.level_of(planes)(r) == 3,
                self.bundles.len() as int,
            ),
            selected(choice.pick(), self.units.len() as int) == selected(
                self.pick_of(planes),
                self.units.len() as int,
            ),
            forall|r: int|
                0 <= r < self.bundles.len() && (choice.level()(r) == 3) != (self.level_of(planes)(
                    r,
                ) == 3) ==> #[trigger] self.bundle_weight()(r) == bundle_separator,
            forall|r: int|
                0 <= r < self.units.len() && choice.pick()(r) != self.pick_of(planes)(r)
                    ==> #[trigger] self.unit_weight()(r) == unit_separator,
        ensures
            !lex_greater(
                self.build(self.pick_of(planes), self.level_of(planes)),
                self.choice_vector(choice),
            ),
    {
        let pick = self.pick_of(planes);
        let level = self.level_of(planes);
        let kept = self.build(pick, level);
        let best = self.choice_vector(choice);
        let u = self.units.len() as int;
        let b = self.bundles.len() as int;
        self.build_facts(pick, level);
        self.choice_facts(choice);
        assert(self.closed_pick(choice.pick()));
        assert(self.valid_level(choice.level()));
        if lex_greater(kept, best) {
            let i = choose|i: int|
                0 <= i < kept.len() && #[trigger] kept[i] > best[i] && forall|j: int|
                    0 <= j < i ==> #[trigger] kept[j] == best[j];
            if self.nonconcave(i) {
                assert(self.has_bundle(i));
                let r = choose|r: int| 0 <= r < b && (#[trigger] self.bundles[r]).group == i;
                assert(kept[self.bundles[r].group as int] == level(r));
                assert(best[self.bundles[r].group as int] == choice.level()(r));
                assert(1 <= level(r) <= 3);
                assert(level(r) == 3 && choice.level()(r) != 3);
                let full = |s: int| level(s) == 3;
                let chosen_full = |s: int| choice.level()(s) == 3;
                if forall|q: int| 0 <= q < b && chosen_full(q) ==> #[trigger] full(q) {
                    lemma_other_rank(chosen_full, full, b);
                    assert(full(r));
                }
                let q = choose|q: int| 0 <= q < b && chosen_full(q) && !(#[trigger] full(q));
                assert(self.bundle_weight()(q) == bundle_separator);
                assert(self.bundle_weight()(r) == bundle_separator);
                assert(q < choice.bundle_take <= r);
                self.bundle_rank_order(q, r);
                assert(1 <= level(q) <= 3);
                assert(kept[self.bundles[q].group as int] == level(q));
                assert(best[self.bundles[q].group as int] == choice.level()(q));
                assert(kept[self.bundles[q].group as int] == best[self.bundles[q].group as int]);
            } else {
                assert(best[i] >= self.floors[i]);
                let r = self.reached_unit(pick, level, i);
                assert(!(r < choice.unit_count)) by {
                    assert(r < choice.unit_count <==> best[self.units[r].group as int]
                        >= self.units[r].target_planes);
                }
                let chosen_pick = choice.pick();
                if forall|q: int| 0 <= q < u && chosen_pick(q) ==> #[trigger] pick(q) {
                    lemma_other_rank(chosen_pick, pick, u);
                    assert(pick(r));
                }
                let q = choose|q: int| 0 <= q < u && chosen_pick(q) && !(#[trigger] pick(q));
                assert(self.unit_weight()(q) == unit_separator);
                assert(self.unit_weight()(r) == unit_separator);
                self.unit_rank_order(q, r);
                let g = self.units[q].group as int;
                if g == i {
                    assert(pick(q));
                }
                assert(q < choice.unit_count <==> best[self.units[q].group as int]
                    >= self.units[q].target_planes);
                assert(pick(q) <==> kept[self.units[q].group as int] >= self.units[q].target_planes);
                assert(kept[g] == best[g]);
            }
        }
    }

    /// A vector with two bundles at two planes is behind another.
    proof fn two_exceptions(self, planes: Seq<u8>, r: int, s: int) -> (better: Seq<u8>)
        requires
            self.wf(),
            in_range(self.floors, planes),
            0 <= r < self.bundles.len(),
            0 <= s < self.bundles.len(),
            r != s,
            self.stops_at_two(planes)(r),
            self.stops_at_two(planes)(s),
            self.bundles[r].first_plane_reduction.value()
                >= self.bundles[s].first_plane_reduction.value(),
        ensures
            in_range(self.floors, better),
            ahead(self.curves, self.floors, better, planes),
            added_planes(self.floors, better) == added_planes(self.floors, planes),
            selected(self.stops_at_two(better), self.bundles.len() as int) < selected(
                self.stops_at_two(planes),
                self.bundles.len() as int,
            ),
    {
        let n = self.floors.len() as int;
        let gr = self.bundles[r].group as int;
        let gs = self.bundles[s].group as int;
        assert(self.bundle_sound(self.bundles[r]));
        assert(self.bundle_sound(self.bundles[s]));
        if r < s {
            assert(self.bundles[r].group != self.bundles[s].group);
        } else {
            assert(self.bundles[s].group != self.bundles[r].group);
        }
        let first = planes.update(gr, 3);
        let better = first.update(gs, 1);
        lemma_plane_sum_update(curve_fn(self.curves), planes, n, gr, 3);
        lemma_plane_sum_update(curve_fn(self.curves), first, n, gs, 1);
        lemma_plane_sum_update(count_fn(), planes, n, gr, 3);
        lemma_plane_sum_update(count_fn(), first, n, gs, 1);
        assert forall|g: int| 0 <= g < n implies self.floors[g] <= #[trigger] better[g] <= 3 by {
            assert(self.floors[g] <= planes[g] <= 3);
        }
        self.fewer_stops(planes, better, r);
        better
    }

    /// A bundle at two planes whose first plane removes nothing is behind its
    /// floor.
    proof fn idle_exception(self, planes: Seq<u8>, r: int) -> (better: Seq<u8>)
        requires
            self.wf(),
            in_range(self.floors, planes),
            0 <= r < self.bundles.len(),
            self.stops_at_two(planes)(r),
            self.bundles[r].first_plane_reduction.value() <= 0,
        ensures
            in_range(self.floors, better),
            ahead(self.curves, self.floors, better, planes),
            added_planes(self.floors, better) <= added_planes(self.floors, planes),
            selected(self.stops_at_two(better), self.bundles.len() as int) < selected(
                self.stops_at_two(planes),
                self.bundles.len() as int,
            ),
    {
        let n = self.floors.len() as int;
        let g = self.bundles[r].group as int;
        assert(self.bundle_sound(self.bundles[r]));
        let better = planes.update(g, 1);
        lemma_plane_sum_update(curve_fn(self.curves), planes, n, g, 1);
        lemma_plane_sum_update(count_fn(), planes, n, g, 1);
        self.bundles[r].first_plane_reduction.value_is_nonnegative();
        assert forall|h: int| 0 <= h < n implies self.floors[h] <= #[trigger] better[h] <= 3 by {
            assert(self.floors[h] <= planes[h] <= 3);
        }
        self.fewer_stops(planes, better, r);
        better
    }

    proof fn fewer_stops(self, planes: Seq<u8>, better: Seq<u8>, r: int)
        requires
            self.wf(),
            planes.len() == self.floors.len(),
            better.len() == planes.len(),
            0 <= r < self.bundles.len(),
            self.stops_at_two(planes)(r),
            !self.stops_at_two(better)(r),
            forall|g: int| 0 <= g < planes.len() && #[trigger] better[g] == 2 ==> planes[g] == 2,
        ensures
            selected(self.stops_at_two(better), self.bundles.len() as int) < selected(
                self.stops_at_two(planes),
                self.bundles.len() as int,
            ),
    {
        let before = self.stops_at_two(planes);
        let after = self.stops_at_two(better);
        assert forall|q: int| 0 <= q < self.bundles.len() && after(q) implies #[trigger] before(
            q,
        ) by {
            assert(self.bundle_sound(self.bundles[q]));
            assert(better[self.bundles[q].group as int] == 2);
        }
        lemma_other_rank(after, before, self.bundles.len() as int);
        assert(before(r));
    }

    /// A vector that no family choice is behind is ahead of every other vector
    /// within capacity.
    pub proof fn family_optimum(self, capacity: int, best: Seq<u8>, planes: Seq<u8>)
        requires
            self.wf(),
            self.units.len() <= usize::MAX,
            self.bundles.len() <= usize::MAX,
            in_range(self.floors, best),
            forall|choice: RegularChoice| #[trigger]
                self.family(capacity, choice) ==> best == self.choice_vector(choice) || ahead(
                    self.curves,
                    self.floors,
                    best,
                    self.choice_vector(choice),
                ),
            in_range(self.floors, planes),
            added_planes(self.floors, planes) <= capacity,
        ensures
            best == planes || ahead(self.curves, self.floors, best, planes),
        decreases selected(self.stops_at_two(planes), self.bundles.len() as int),
    {
        let stops = self.stops_at_two(planes);
        let b = self.bundles.len() as int;
        lemma_selected_bounds(stops, b);
        if exists|r: int, s: int|
            0 <= r < b && 0 <= s < b && r != s && #[trigger] stops(r) && #[trigger] stops(s) {
            let (r, s) = choose|r: int, s: int|
                0 <= r < b && 0 <= s < b && r != s && #[trigger] stops(r) && #[trigger] stops(s);
            let better = if self.bundles[r].first_plane_reduction.value()
                >= self.bundles[s].first_plane_reduction.value() {
                self.two_exceptions(planes, r, s)
            } else {
                self.two_exceptions(planes, s, r)
            };
            lemma_selected_bounds(self.stops_at_two(better), b);
            self.family_optimum(capacity, best, better);
            if best != better {
                lemma_ahead_transitive(self.curves, self.floors, best, better, planes);
            }
        } else if exists|r: int|
            0 <= r < b && #[trigger] stops(r) && self.bundles[r].first_plane_reduction.value()
                <= 0 {
            let r = choose|r: int|
                0 <= r < b && #[trigger] stops(r) && self.bundles[r].first_plane_reduction.value()
                    <= 0;
            let better = self.idle_exception(planes, r);
            lemma_selected_bounds(self.stops_at_two(better), b);
            self.family_optimum(capacity, best, better);
            if best != better {
                lemma_ahead_transitive(self.curves, self.floors, best, better, planes);
            }
        } else {
            let exception: Option<int> = if exists|r: int| 0 <= r < b && #[trigger] stops(r) {
                Some(choose|r: int| 0 <= r < b && #[trigger] stops(r))
            } else {
                None
            };
            assert forall|r: int|
                0 <= r < b && #[trigger] self.level_of(planes)(r) == 2 implies exception
                == Some(r) by {
                assert(stops(r));
            }
            let kept = self.positive_part(planes);
            if let Some(e) = exception {
                assert(stops(e));
                assert(self.level_of(planes)(e) == 2);
            }
            let choice = self.family_matches(capacity, planes, exception);
            let v = self.choice_vector(choice);
            self.choice_facts(choice);
            if best != v && v != kept {
                lemma_ahead_transitive(self.curves, self.floors, best, v, kept);
            }
            if best != kept && kept != planes {
                lemma_ahead_transitive(self.curves, self.floors, best, kept, planes);
            }
        }
    }
}

proof fn lemma_never_selected(count: int)
    requires
        count >= 0,
    ensures
        selected(|r: int| false, count) == 0,
    decreases count,
{
    if count > 0 {
        lemma_never_selected(count - 1);
    }
}

} // verus!
