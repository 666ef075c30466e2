//! Ranked upgrade lists and the best of their prefix choices.

use crate::exact::{exact_sum_fits, ExactDistortion};
use crate::ledger::copy_planes;
use crate::plane_model::{lemma_lex_asymmetric, lemma_lex_total, lex_greater};
use crate::ranked::{
    all_wf, group_seq, lemma_prefix_weight_bound, lemma_range_minimum_bound, prefix_weight,
    ExactPrefixIndex, LexGroupIndex, RankedUpgrade,
};
use crate::regular_model::{BundledUpgrade, Regular, UnitUpgrade};
use crate::regular_optimum::{
    ahead, at_most, lemma_ahead_transitive, lemma_ahead_update, RegularChoice,
};
use vstd::arithmetic::power2::pow2;
use vstd::prelude::*;

verus! {

/// Both ranked lists with their exact prefix sums and group indexes.
pub struct RegularIndexes {
    /// Unit upgrades by rank.
    pub units: Vec<UnitUpgrade>,
    /// Bundles by rank.
    pub bundles: Vec<BundledUpgrade>,
    /// Exact prefix sums of the units.
    pub unit_prefix: ExactPrefixIndex,
    /// Exact prefix sums of the bundles.
    pub bundle_prefix: ExactPrefixIndex,
    /// Group index of the units.
    pub unit_lex: LexGroupIndex,
    /// Group index of the bundles.
    pub bundle_lex: LexGroupIndex,
}

proof fn lemma_prefix_weight_holds<T: RankedUpgrade>(upgrades: Seq<T>, rank: int, count: int)
    requires
        all_wf(upgrades),
        0 <= rank < count <= upgrades.len(),
    ensures
        prefix_weight(upgrades, count) >= upgrades[rank].weight(),
    decreases count,
{
    upgrades[count - 1].weight_is_bounded();
    lemma_prefix_weight_bound(upgrades, count - 1);
    if rank < count - 1 {
        lemma_prefix_weight_holds(upgrades, rank, count - 1);
    }
}

/// One choice equals or leads another.
pub open spec fn leads(model: Regular, left: RegularChoice, right: RegularChoice) -> bool {
    model.choice_vector(left) == model.choice_vector(right) || ahead(
        model.curves,
        model.floors,
        model.choice_vector(left),
        model.choice_vector(right),
    )
}

proof fn lemma_leads_transitive(
    model: Regular,
    a: RegularChoice,
    b: RegularChoice,
    c: RegularChoice,
)
    requires
        model.wf(),
        model.choice_wf(a),
        model.choice_wf(b),
        model.choice_wf(c),
        leads(model, a, b),
        leads(model, b, c),
    ensures
        leads(model, a, c),
{
    model.choice_facts(a);
    model.choice_facts(b);
    model.choice_facts(c);
    let va = model.choice_vector(a);
    let vb = model.choice_vector(b);
    let vc = model.choice_vector(c);
    if va != vb && vb != vc {
        lemma_ahead_transitive(model.curves, model.floors, va, vb, vc);
    }
}

/// A choice without exception that fills a capacity with `bundles` bundles.
spec fn hull(model: Regular, capacity: int, bundles: int, shifted: bool) -> RegularChoice {
    RegularChoice {
        unit_count: at_most(model.units.len() as int, capacity - 2 * bundles) as usize,
        bundle_take: (bundles + if shifted {
            1int
        } else {
            0int
        }) as usize,
        exception: None,
    }
}

spec fn excepted(choice: RegularChoice, rank: int) -> RegularChoice {
    RegularChoice { exception: Some(rank as usize), ..choice }
}

/// The same exception on both sides keeps the lead when both sides agree on
/// its rank.
proof fn lemma_leads_excepted(
    model: Regular,
    left: RegularChoice,
    right: RegularChoice,
    rank: usize,
)
    requires
        model.wf(),
        model.choice_wf(left),
        model.choice_wf(right),
        left.exception is None,
        right.exception is None,
        rank < model.bundles.len(),
        rank < left.bundle_take <==> rank < right.bundle_take,
        leads(model, left, right),
    ensures
        leads(model, excepted(left, rank as int), excepted(right, rank as int)),
{
    model.choice_facts(left);
    model.choice_facts(right);
    model.exception_update(left, rank);
    model.exception_update(right, rank);
    assert(model.bundle_sound(model.bundles[rank as int]));
    let g = model.bundles[rank as int].group as int;
    assert(model.choice_vector(left)[g] == left.level()(rank as int));
    assert(model.choice_vector(right)[g] == right.level()(rank as int));
    if model.choice_vector(left) != model.choice_vector(right) {
        lemma_ahead_update(
            model.curves,
            model.floors,
            model.choice_vector(left),
            model.choice_vector(right),
            g,
            2,
        );
    }
}

/// Smallest entry in a rank range without two ranks.
fn range_min_excluding(
    index: &LexGroupIndex,
    start: usize,
    end: usize,
    first: usize,
    second: usize,
    Ghost(values): Ghost<Seq<usize>>,
) -> (least: usize)
    requires
        index.indexes(values),
        start <= end <= values.len(),
    ensures
        forall|r: int|
            start <= r < end && r != first && r != second ==> least <= #[trigger] values[r],
        least < usize::MAX ==> exists|r: int|
            start <= r < end && r != first && r != second && #[trigger] values[r] == least,
{
    let low: usize = if first <= second {
        first
    } else {
        second
    };
    let high: usize = if first <= second {
        second
    } else {
        first
    };
    if high < start || high >= end {
        if low < start || low >= end {
            let least: usize = index.range_min(start, end, Ghost(values));
            proof {
                lemma_range_minimum_bound(values, start as int, end as int);
            }
            return least;
        }
        return two_range_min(index, start, low, low + 1, end, Ghost(values));
    }
    if low < start || low == high {
        return two_range_min(index, start, high, high + 1, end, Ghost(values));
    }
    let head: usize = two_range_min(index, start, low, low + 1, high, Ghost(values));
    let tail: usize = index.range_min(high + 1, end, Ghost(values));
    proof {
        lemma_range_minimum_bound(values, high + 1, end as int);
    }
    if head <= tail {
        head
    } else {
        tail
    }
}

/// Smallest entry of two ranges.
fn two_range_min(
    index: &LexGroupIndex,
    start1: usize,
    end1: usize,
    start2: usize,
    end2: usize,
    Ghost(values): Ghost<Seq<usize>>,
) -> (least: usize)
    requires
        index.indexes(values),
        start1 <= end1 <= values.len(),
        start2 <= end2 <= values.len(),
    ensures
        forall|r: int| start1 <= r < end1 || start2 <= r < end2 ==> least <= #[trigger] values[r],
        least < usize::MAX ==> exists|r: int|
            (start1 <= r < end1 || start2 <= r < end2) && #[trigger] values[r] == least,
{
    let left: usize = index.range_min(start1, end1, Ghost(values));
    let right: usize = index.range_min(start2, end2, Ghost(values));
    proof {
        lemma_range_minimum_bound(values, start1 as int, end1 as int);
        lemma_range_minimum_bound(values, start2 as int, end2 as int);
    }
    if left <= right {
        left
    } else {
        right
    }
}

/// A group where two vectors differ, with the direction of the difference.
spec fn marks(left: Seq<u8>, right: Seq<u8>, least: usize, greater: bool) -> bool {
    least < usize::MAX ==> least < left.len() && left[least as int] != right[least as int]
        && greater == (left[least as int] > right[least as int])
}

/// The smaller of two marked groups.
fn earlier(left: (usize, bool), right: (usize, bool)) -> (mark: (usize, bool))
    ensures
        mark == left || mark == right,
        mark.0 <= left.0,
        mark.0 <= right.0,
{
    if left.0 <= right.0 {
        left
    } else {
        right
    }
}

proof fn lemma_first_difference(left: Seq<u8>, right: Seq<u8>, least: usize, greater: bool)
    requires
        left.len() == right.len(),
        left.len() <= usize::MAX,
        marks(left, right, least, greater),
        forall|h: int| 0 <= h < left.len() && h < least ==> #[trigger] left[h] == right[h],
    ensures
        lex_greater(left, right) == (least < usize::MAX && greater),
{
    if least < usize::MAX {
        if greater {
            assert(lex_greater(left, right));
        } else {
            assert forall|j: int| 0 <= j < least implies #[trigger] right[j] == left[j] by {
                assert(left[j] == right[j]);
            }
            assert(right[least as int] > left[least as int]);
            assert(lex_greater(right, left));
            lemma_lex_asymmetric(right, left);
        }
    } else {
        assert(left =~= right);
    }
}

/// Fields of a hull choice as numbers.
proof fn lemma_hull_fields(model: Regular, capacity: int, bundles: int, shifted: bool)
    requires
        model.units.len() <= usize::MAX,
        model.bundles.len() <= usize::MAX,
        0 <= bundles,
        2 * bundles <= capacity,
        bundles + (if shifted {
            1int
        } else {
            0int
        }) <= model.bundles.len(),
    ensures
        ({
            let choice = hull(model, capacity, bundles, shifted);
            &&& choice.unit_count == at_most(model.units.len() as int, capacity - 2 * bundles)
            &&& choice.bundle_take == bundles + (if shifted {
                1int
            } else {
                0int
            })
            &&& choice.exception is None
            &&& model.choice_wf(choice)
        }),
{
}

impl RegularIndexes {
    /// The mathematical problem that the lists describe.
    pub open spec fn model(self, curves: Seq<Seq<u64>>, floors: Seq<u8>) -> Regular {
        Regular { curves, floors, units: self.units@, bundles: self.bundles@ }
    }

    /// Both lists are complete and every index matches its list.
    pub open spec fn wf(self, curves: Seq<Seq<u64>>, floors: Seq<u8>) -> bool {
        &&& self.model(curves, floors).wf()
        &&& all_wf(self.units@)
        &&& all_wf(self.bundles@)
        &&& self.unit_prefix.indexes(self.units@)
        &&& self.bundle_prefix.indexes(self.bundles@)
        &&& self.unit_lex.indexes(group_seq(self.units@))
        &&& self.bundle_lex.indexes(group_seq(self.bundles@))
    }

    /// Exact reduction of a choice.
    pub fn reduction(
        &self,
        choice: RegularChoice,
        Ghost(curves): Ghost<Seq<Seq<u64>>>,
        Ghost(floors): Ghost<Seq<u8>>,
    ) -> (sum: ExactDistortion)
        requires
            self.wf(curves, floors),
            self.model(curves, floors).choice_wf(choice),
        ensures
            sum.value() == self.model(curves, floors).choice_reduction(choice),
    {
        let ghost model = self.model(curves, floors);
        let units = self.unit_prefix.sum(&self.units, choice.unit_count);
        let bundles = self.bundle_prefix.sum(&self.bundles, choice.bundle_take);
        proof {
            lemma_prefix_weight_bound(self.units@, choice.unit_count as int);
            lemma_prefix_weight_bound(self.bundles@, choice.bundle_take as int);
            let ku = choice.unit_count as int;
            let kb = choice.bundle_take as int;
            assert(ku * pow2(2098) + kb * pow2(2098) + pow2(2098) == (ku + kb + 1) * pow2(2098))
                by (nonlinear_arith);
            exact_sum_fits(
                (units.value() + bundles.value()) as nat,
                (ku + kb + 1) as nat,
            );
        }
        let total = units.checked_add(bundles).unwrap();
        match choice.exception {
            None => total,
            Some(rank) => {
                assert(model.bundle_sound(model.bundles[rank as int]));
                let first = self.bundles[rank].first_plane_reduction.exact();
                proof {
                    self.bundles@[rank as int].first_plane_reduction.value_is_bounded();
                    let ku = choice.unit_count as int;
                    let kb = choice.bundle_take as int;
                    exact_sum_fits(
                        (total.value() + first.value()) as nat,
                        (ku + kb + 1) as nat,
                    );
                }
                let with_first = total.checked_add(first).unwrap();
                if rank < choice.bundle_take {
                    proof {
                        lemma_prefix_weight_holds(
                            self.bundles@,
                            rank as int,
                            choice.bundle_take as int,
                        );
                    }
                    let whole = self.bundles[rank].exact();
                    with_first.checked_sub(whole).unwrap()
                } else {
                    with_first
                }
            },
        }
    }

    /// Planes appended by a choice.
    pub fn planes(&self, choice: RegularChoice) -> (planes: u128)
        ensures
            planes == choice.unit_count + 2 * choice.bundle_take + match choice.exception {
                None => 0int,
                Some(e) => if e < choice.bundle_take {
                    -1
                } else {
                    1
                },
            },
    {
        let whole: u128 = choice.unit_count as u128 + 2 * choice.bundle_take as u128;
        match choice.exception {
            None => whole,
            Some(rank) => if rank < choice.bundle_take {
                whole - 1
            } else {
                whole + 1
            },
        }
    }

    /// Plane count of a bundle rank.
    pub fn level(&self, choice: RegularChoice, rank: usize) -> (planes: u8)
        ensures
            planes == choice.level()(rank as int),
    {
        match choice.exception {
            Some(exception) => if exception == rank {
                return 2;
            },
            None => {},
        }
        if rank < choice.bundle_take {
            3
        } else {
            1
        }
    }

    /// First group whose unit level differs.
    fn unit_difference(
        &self,
        left: RegularChoice,
        right: RegularChoice,
        Ghost(curves): Ghost<Seq<Seq<u64>>>,
        Ghost(floors): Ghost<Seq<u8>>,
    ) -> (mark: (usize, bool))
        requires
            self.wf(curves, floors),
            self.model(curves, floors).choice_wf(left),
            self.model(curves, floors).choice_wf(right),
        ensures
            marks(
                self.model(curves, floors).choice_vector(left),
                self.model(curves, floors).choice_vector(right),
                mark.0,
                mark.1,
            ),
            forall|r: int|
                0 <= r < self.units@.len() && (r < left.unit_count) != (r < right.unit_count)
                    ==> mark.0 <= (#[trigger] self.units@[r]).group,
    {
        let ghost model = self.model(curves, floors);
        let ghost unit_groups = group_seq(self.units@);
        let low: usize = if left.unit_count <= right.unit_count {
            left.unit_count
        } else {
            right.unit_count
        };
        let high: usize = if left.unit_count <= right.unit_count {
            right.unit_count
        } else {
            left.unit_count
        };
        let least: usize = self.unit_lex.range_min(low, high, Ghost(unit_groups));
        proof {
            lemma_range_minimum_bound(unit_groups, low as int, high as int);
            model.choice_facts(left);
            model.choice_facts(right);
            if low < high {
                let r = choose|r: int| low <= r < high && #[trigger] unit_groups[r] == least;
                assert(unit_groups[r] == model.units[r].group);
                assert(model.unit_sound(model.units[r]));
            }
            assert forall|r: int|
                0 <= r < self.units@.len() && (r < left.unit_count) != (r
                    < right.unit_count) implies least <= (#[trigger] self.units@[r]).group by {
                assert(unit_groups[r] == self.units@[r].group);
            }
        }
        (least, left.unit_count > right.unit_count)
    }

    /// First group whose ordinary bundle level differs.
    fn bundle_difference(
        &self,
        left: RegularChoice,
        right: RegularChoice,
        Ghost(curves): Ghost<Seq<Seq<u64>>>,
        Ghost(floors): Ghost<Seq<u8>>,
    ) -> (mark: (usize, bool))
        requires
            self.wf(curves, floors),
            self.model(curves, floors).choice_wf(left),
            self.model(curves, floors).choice_wf(right),
        ensures
            marks(
                self.model(curves, floors).choice_vector(left),
                self.model(curves, floors).choice_vector(right),
                mark.0,
                mark.1,
            ),
            forall|r: int|
                0 <= r < self.bundles@.len() && (r < left.bundle_take) != (r < right.bundle_take)
                    && left.exception != Some(r as usize) && right.exception != Some(r as usize)
                    ==> mark.0 <= (#[trigger] self.bundles@[r]).group,
    {
        let ghost model = self.model(curves, floors);
        let ghost values = group_seq(self.bundles@);
        let count: usize = self.bundles.len();
        let low: usize = if left.bundle_take <= right.bundle_take {
            left.bundle_take
        } else {
            right.bundle_take
        };
        let high: usize = if left.bundle_take <= right.bundle_take {
            right.bundle_take
        } else {
            left.bundle_take
        };
        let first: usize = match left.exception {
            None => count,
            Some(rank) => rank,
        };
        let second: usize = match right.exception {
            None => count,
            Some(rank) => rank,
        };
        let least: usize = range_min_excluding(
            &self.bundle_lex,
            low,
            high,
            first,
            second,
            Ghost(values),
        );
        proof {
            model.choice_facts(left);
            model.choice_facts(right);
            if least < usize::MAX {
                let r = choose|r: int|
                    low <= r < high && r != first && r != second && #[trigger] values[r] == least;
                assert(values[r] == model.bundles[r].group);
                assert(model.bundle_sound(model.bundles[r]));
                assert(model.choice_vector(left)[model.bundles[r].group as int] == left.level()(r));
                assert(model.choice_vector(right)[model.bundles[r].group as int] == right.level()(
                    r,
                ));
            }
            assert forall|r: int|
                0 <= r < self.bundles@.len() && (r < left.bundle_take) != (r < right.bundle_take)
                    && left.exception != Some(r as usize) && right.exception != Some(
                    r as usize,
                ) implies least <= (#[trigger] self.bundles@[r]).group by {
                assert(values[r] == self.bundles@[r].group);
                assert(r as usize == r);
            }
        }
        (least, left.bundle_take > right.bundle_take)
    }

    /// The group of an exceptional rank when its level differs.
    fn exception_difference(
        &self,
        left: RegularChoice,
        right: RegularChoice,
        exception: Option<usize>,
        Ghost(curves): Ghost<Seq<Seq<u64>>>,
        Ghost(floors): Ghost<Seq<u8>>,
    ) -> (mark: (usize, bool))
        requires
            self.wf(curves, floors),
            self.model(curves, floors).choice_wf(left),
            self.model(curves, floors).choice_wf(right),
            exception matches Some(e) ==> e < self.bundles@.len(),
        ensures
            marks(
                self.model(curves, floors).choice_vector(left),
                self.model(curves, floors).choice_vector(right),
                mark.0,
                mark.1,
            ),
            exception matches Some(e) ==> (left.level()(e as int) != right.level()(e as int)
                ==> mark.0 <= self.bundles@[e as int].group),
    {
        let ghost model = self.model(curves, floors);
        match exception {
            None => (usize::MAX, false),
            Some(rank) => {
                let here: u8 = self.level(left, rank);
                let there: u8 = self.level(right, rank);
                proof {
                    model.choice_facts(left);
                    model.choice_facts(right);
                    assert(model.bundle_sound(model.bundles[rank as int]));
                    assert(model.choice_vector(left)[model.bundles[rank as int].group as int]
                        == left.level()(rank as int));
                    assert(model.choice_vector(right)[model.bundles[rank as int].group as int]
                        == right.level()(rank as int));
                }
                if here != there {
                    (self.bundles[rank].group, here > there)
                } else {
                    (usize::MAX, false)
                }
            },
        }
    }

    /// Whether the left vector is lexicographically greater.
    fn lex_is_greater(
        &self,
        left: RegularChoice,
        right: RegularChoice,
        Ghost(curves): Ghost<Seq<Seq<u64>>>,
        Ghost(floors): Ghost<Seq<u8>>,
    ) -> (greater: bool)
        requires
            self.wf(curves, floors),
            self.model(curves, floors).choice_wf(left),
            self.model(curves, floors).choice_wf(right),
            curves.len() <= usize::MAX,
        ensures
            greater == lex_greater(
                self.model(curves, floors).choice_vector(left),
                self.model(curves, floors).choice_vector(right),
            ),
    {
        let ghost model = self.model(curves, floors);
        let ghost vl = model.choice_vector(left);
        let ghost vr = model.choice_vector(right);
        let unit = self.unit_difference(left, right, Ghost(curves), Ghost(floors));
        let bundle = self.bundle_difference(left, right, Ghost(curves), Ghost(floors));
        let mine = self.exception_difference(
            left,
            right,
            left.exception,
            Ghost(curves),
            Ghost(floors),
        );
        let theirs = self.exception_difference(
            left,
            right,
            right.exception,
            Ghost(curves),
            Ghost(floors),
        );
        let mark = earlier(earlier(unit, bundle), earlier(mine, theirs));
        let count: usize = self.bundles.len();
        proof {
            model.choice_facts(left);
            model.choice_facts(right);
            assert forall|h: int| 0 <= h < vl.len() && h < mark.0 implies #[trigger] vl[h]
                == vr[h] by {
                if vl[h] != vr[h] {
                    self.difference_is_marked(curves, floors, left, right, h);
                }
            }
            lemma_first_difference(vl, vr, mark.0, mark.1);
        }
        mark.0 < usize::MAX && mark.1
    }

    /// Two vectors differ only at a unit rank, an ordinary bundle rank or an
    /// exceptional rank.
    proof fn difference_is_marked(
        self,
        curves: Seq<Seq<u64>>,
        floors: Seq<u8>,
        left: RegularChoice,
        right: RegularChoice,
        h: int,
    )
        requires
            self.wf(curves, floors),
            self.model(curves, floors).choice_wf(left),
            self.model(curves, floors).choice_wf(right),
            self.bundles@.len() <= usize::MAX,
            0 <= h < floors.len(),
            self.model(curves, floors).choice_vector(left)[h] != self.model(
                curves,
                floors,
            ).choice_vector(right)[h],
        ensures
            (exists|r: int|
                0 <= r < self.units@.len() && (r < left.unit_count) != (r < right.unit_count) && (
                #[trigger] self.units@[r]).group == h) || (exists|r: int|
                0 <= r < self.bundles@.len() && (#[trigger] self.bundles@[r]).group == h && (((r
                    < left.bundle_take) != (r < right.bundle_take) && left.exception != Some(
                    r as usize,
                ) && right.exception != Some(r as usize)) || (left.level()(r) != right.level()(r)
                    && (left.exception == Some(r as usize) || right.exception == Some(
                    r as usize,
                ))))),
    {
        let model = self.model(curves, floors);
        let vl = model.choice_vector(left);
        let vr = model.choice_vector(right);
        model.choice_facts(left);
        model.choice_facts(right);
        if model.nonconcave(h) {
            assert(model.has_bundle(h));
            let r = choose|r: int|
                0 <= r < model.bundles.len() && (#[trigger] model.bundles[r]).group == h;
            assert(vl[model.bundles[r].group as int] == left.level()(r));
            assert(vr[model.bundles[r].group as int] == right.level()(r));
            assert(r as usize == r);
            assert(self.bundles@[r].group == h);
        } else {
            assert(model.closed_pick(left.pick()));
            assert(model.closed_pick(right.pick()));
            assert(model.valid_level(left.level()));
            assert(model.valid_level(right.level()));
            let r = if vl[h] > vr[h] {
                assert(vr[h] >= floors[h]);
                model.reached_unit(left.pick(), left.level(), h)
            } else {
                assert(vl[h] >= floors[h]);
                model.reached_unit(right.pick(), right.level(), h)
            };
            assert(r < left.unit_count <==> vl[model.units[r].group as int]
                >= model.units[r].target_planes);
            assert(r < right.unit_count <==> vr[model.units[r].group as int]
                >= model.units[r].target_planes);
            assert(self.units@[r].group == h);
        }
    }

    /// Whether the left choice is strictly ahead.
    fn is_ahead(
        &self,
        left: RegularChoice,
        right: RegularChoice,
        Ghost(curves): Ghost<Seq<Seq<u64>>>,
        Ghost(floors): Ghost<Seq<u8>>,
    ) -> (result: bool)
        requires
            self.wf(curves, floors),
            self.model(curves, floors).choice_wf(left),
            self.model(curves, floors).choice_wf(right),
            curves.len() <= usize::MAX,
        ensures
            result == ahead(
                curves,
                floors,
                self.model(curves, floors).choice_vector(left),
                self.model(curves, floors).choice_vector(right),
            ),
    {
        proof {
            self.model(curves, floors).choice_facts(left);
            self.model(curves, floors).choice_facts(right);
        }
        let removed_left = self.reduction(left, Ghost(curves), Ghost(floors));
        let removed_right = self.reduction(right, Ghost(curves), Ghost(floors));
        if removed_right.less_than(&removed_left) {
            return true;
        }
        if removed_left.less_than(&removed_right) {
            return false;
        }
        let planes_left: u128 = self.planes(left);
        let planes_right: u128 = self.planes(right);
        if planes_left != planes_right {
            return planes_left < planes_right;
        }
        self.lex_is_greater(left, right, Ghost(curves), Ghost(floors))
    }

    /// Keep the leading one of two choices.
    fn retain_better(
        &self,
        best: RegularChoice,
        candidate: RegularChoice,
        Ghost(curves): Ghost<Seq<Seq<u64>>>,
        Ghost(floors): Ghost<Seq<u8>>,
    ) -> (kept: RegularChoice)
        requires
            self.wf(curves, floors),
            self.model(curves, floors).choice_wf(best),
            self.model(curves, floors).choice_wf(candidate),
            curves.len() <= usize::MAX,
        ensures
            kept == best || kept == candidate,
            leads(self.model(curves, floors), kept, best),
            leads(self.model(curves, floors), kept, candidate),
    {
        let replace = self.is_ahead(candidate, best, Ghost(curves), Ghost(floors));
        proof {
            let model = self.model(curves, floors);
            model.choice_facts(best);
            model.choice_facts(candidate);
            lemma_lex_total(model.choice_vector(best), model.choice_vector(candidate), 0);
        }
        if replace {
            candidate
        } else {
            best
        }
    }

    /// The hull choice with a bundle count.
    fn hull_choice(
        &self,
        capacity: u128,
        bundles: usize,
        shifted: bool,
        Ghost(curves): Ghost<Seq<Seq<u64>>>,
        Ghost(floors): Ghost<Seq<u8>>,
    ) -> (choice: RegularChoice)
        requires
            2 * bundles <= capacity,
            bundles + (if shifted {
                1int
            } else {
                0int
            }) <= self.bundles@.len(),
        ensures
            choice == hull(self.model(curves, floors), capacity as int, bundles as int, shifted),
            choice.unit_count == at_most(self.units@.len() as int, capacity - 2 * bundles),
            choice.bundle_take == bundles + (if shifted {
                1int
            } else {
                0int
            }),
            choice.exception is None,
            self.model(curves, floors).choice_wf(choice),
    {
        let count: usize = self.bundles.len();
        let room: u128 = capacity - 2 * bundles as u128;
        let unit_count: usize = if self.units.len() as u128 <= room {
            self.units.len()
        } else {
            room as usize
        };
        RegularChoice {
            unit_count,
            bundle_take: if shifted {
                bundles + 1
            } else {
                bundles
            },
            exception: None,
        }
    }

    /// The leading choice of the family that fills a capacity.
    pub fn best_choice(
        &self,
        capacity: u128,
        Ghost(curves): Ghost<Seq<Seq<u64>>>,
        Ghost(floors): Ghost<Seq<u8>>,
    ) -> (best: RegularChoice)
        requires
            self.wf(curves, floors),
            curves.len() <= usize::MAX,
        ensures
            self.model(curves, floors).family(capacity as int, best),
            forall|choice: RegularChoice| #[trigger]
                self.model(curves, floors).family(capacity as int, choice) ==> leads(
                    self.model(curves, floors),
                    best,
                    choice,
                ),
    {
        let ghost model = self.model(curves, floors);
        let count: usize = self.bundles.len();
        let unit_total: usize = self.units.len();
        let mut best = self.hull_choice(capacity, 0, false, Ghost(curves), Ghost(floors));
        let maximum: usize = if (count as u128) <= capacity / 2 {
            count
        } else {
            (capacity / 2) as usize
        };
        let mut bundles: usize = 0;
        while bundles < maximum
            invariant
                self.wf(curves, floors),
                curves.len() <= usize::MAX,
                model == self.model(curves, floors),
                self.units@.len() <= usize::MAX,
                count == self.bundles@.len(),
                maximum <= count,
                2 * maximum <= capacity,
                bundles <= maximum,
                model.family(capacity as int, best),
                forall|m: int|
                    0 <= m <= bundles ==> leads(
                        model,
                        best,
                        #[trigger] hull(model, capacity as int, m, false),
                    ),
            decreases maximum - bundles,
        {
            bundles = bundles + 1;
            let candidate = self.hull_choice(
                capacity,
                bundles,
                false,
                Ghost(curves),
                Ghost(floors),
            );
            assert(model.family(capacity as int, candidate));
            let ghost before = best;
            best = self.retain_better(best, candidate, Ghost(curves), Ghost(floors));
            proof {
                assert forall|m: int| 0 <= m <= bundles implies leads(
                    model,
                    best,
                    #[trigger] hull(model, capacity as int, m, false),
                ) by {
                    if m < bundles {
                        let other = hull(model, capacity as int, m, false);
                        lemma_hull_fields(model, capacity as int, m, false);
                        assert(leads(model, before, other));
                        lemma_leads_transitive(model, best, before, other);
                    }
                }
            }
        }
        let ghost plain_best = best;
        proof {
            assert forall|choice: RegularChoice| #[trigger]
                model.family(capacity as int, choice) && choice.exception is None implies leads(
                model,
                best,
                choice,
            ) by {
                let m = choice.bundle_take as int;
                lemma_hull_fields(model, capacity as int, m, false);
                assert(hull(model, capacity as int, m, false) == choice);
            }
        }
        if capacity == 0 || count == 0 {
            return best;
        }
        let room: u128 = capacity - 1;
        let ordinary_maximum: usize = if (count as u128) <= room / 2 {
            count
        } else {
            (room / 2) as usize
        };
        let ordinary = self.ordinary_best(room, ordinary_maximum, Ghost(curves), Ghost(floors));
        let replacement_maximum: usize = if ((count - 1) as u128) <= room / 2 {
            count - 1
        } else {
            (room / 2) as usize
        };
        let replacement = self.replacement_best(
            room,
            replacement_maximum,
            Ghost(curves),
            Ghost(floors),
        );
        let mut rank: usize = 0;
        while rank < count
            invariant
                self.wf(curves, floors),
                curves.len() <= usize::MAX,
                model == self.model(curves, floors),
                count == self.bundles@.len(),
                0 < count,
                rank <= count,
                room + 1 == capacity,
                2 * ordinary_maximum <= room,
                ordinary_maximum <= count,
                ordinary_maximum == count || ordinary_maximum == room / 2,
                2 * replacement_maximum <= room,
                replacement_maximum <= count - 1,
                replacement_maximum == count - 1 || replacement_maximum == room / 2,
                ordinary@.len() == ordinary_maximum + 1,
                replacement@.len() == replacement_maximum + 1,
                forall|j: int|
                    0 <= j <= ordinary_maximum ==> self.ordinary_entry(
                        model,
                        room as int,
                        j,
                        #[trigger] ordinary@[j],
                    ),
                forall|i: int|
                    0 <= i <= replacement_maximum ==> self.replacement_entry(
                        model,
                        room as int,
                        replacement_maximum - i,
                        replacement_maximum as int,
                        #[trigger] replacement@[i],
                    ),
                model.family(capacity as int, best),
                forall|choice: RegularChoice| #[trigger]
                    model.family(capacity as int, choice) && (choice.exception matches Some(e)
                        ==> e < rank) ==> leads(model, best, choice),
            decreases count - rank,
        {
            let ghost before = best;
            best = self.improve_with_exception(
                best,
                capacity,
                rank,
                &ordinary,
                &replacement,
                Ghost(curves),
                Ghost(floors),
            );
            proof {
                assert forall|choice: RegularChoice| #[trigger]
                    model.family(capacity as int, choice) && (choice.exception matches Some(e)
                        ==> e < rank) implies leads(model, best, choice) by {
                    assert(leads(model, before, choice));
                    lemma_leads_transitive(model, best, before, choice);
                }
            }
            rank = rank + 1;
        }
        best
    }

    /// Keep the leading one of a choice and every choice with one exception.
    #[verifier::rlimit(40)]
    fn improve_with_exception(
        &self,
        best: RegularChoice,
        capacity: u128,
        rank: usize,
        ordinary: &Vec<RegularChoice>,
        replacement: &Vec<RegularChoice>,
        Ghost(curves): Ghost<Seq<Seq<u64>>>,
        Ghost(floors): Ghost<Seq<u8>>,
    ) -> (kept: RegularChoice)
        requires
            self.wf(curves, floors),
            curves.len() <= usize::MAX,
            rank < self.bundles@.len() <= usize::MAX,
            capacity > 0,
            ordinary@.len() >= 1,
            replacement@.len() >= 1,
            ordinary@.len() - 1 == at_most(self.bundles@.len() as int, (capacity - 1) / 2),
            replacement@.len() - 1 == at_most(self.bundles@.len() - 1, (capacity - 1) / 2),
            forall|j: int|
                0 <= j < ordinary@.len() ==> self.ordinary_entry(
                    self.model(curves, floors),
                    capacity - 1,
                    j,
                    #[trigger] ordinary@[j],
                ),
            forall|i: int|
                0 <= i < replacement@.len() ==> self.replacement_entry(
                    self.model(curves, floors),
                    capacity - 1,
                    replacement@.len() - 1 - i,
                    replacement@.len() - 1,
                    #[trigger] replacement@[i],
                ),
            self.model(curves, floors).family(capacity as int, best),
        ensures
            self.model(curves, floors).family(capacity as int, kept),
            leads(self.model(curves, floors), kept, best),
            forall|choice: RegularChoice| #[trigger]
                self.model(curves, floors).family(capacity as int, choice) && choice.exception
                    == Some(rank) ==> leads(self.model(curves, floors), kept, choice),
    {
        let ghost model = self.model(curves, floors);
        let unit_total: usize = self.units.len();
        assert(model.bundle_sound(model.bundles[rank as int]));
        if self.bundles[rank].first_plane_reduction.is_zero() {
            return best;
        }
        proof {
            self.bundles@[rank as int].first_plane_reduction.value_is_nonnegative();
        }
        let ordinary_maximum: usize = ordinary.len() - 1;
        let replacement_maximum: usize = replacement.len() - 1;
        let slot: usize = if rank <= ordinary_maximum {
            rank
        } else {
            ordinary_maximum
        };
        let plain = ordinary[slot];
        let with_plain = RegularChoice { exception: Some(rank), ..plain };
        proof {
            assert(self.ordinary_entry(model, capacity - 1, slot as int, ordinary@[slot as int]));
            let m = choose|m: int|
                0 <= m <= slot && #[trigger] hull(model, capacity - 1, m, false) == plain;
            lemma_hull_fields(model, capacity - 1, m, false);
            assert(model.family(capacity as int, with_plain));
        }
        let middle = self.retain_better(best, with_plain, Ghost(curves), Ghost(floors));
        let mut kept = middle;
        if rank < replacement_maximum {
            let index: usize = replacement_maximum - (rank + 1);
            let moved = replacement[index];
            let with_moved = RegularChoice { exception: Some(rank), ..moved };
            proof {
                assert(self.replacement_entry(
                    model,
                    capacity - 1,
                    replacement@.len() - 1 - index,
                    replacement@.len() - 1,
                    replacement@[index as int],
                ));
                let m = choose|m: int|
                    rank + 1 <= m <= replacement_maximum && #[trigger] hull(
                        model,
                        capacity - 1,
                        m,
                        true,
                    ) == moved;
                lemma_hull_fields(model, capacity - 1, m, true);
                assert(model.family(capacity as int, with_moved));
            }
            kept = self.retain_better(middle, with_moved, Ghost(curves), Ghost(floors));
            proof {
                assert forall|choice: RegularChoice| #[trigger]
                    model.family(capacity as int, choice) && choice.exception == Some(rank)
                        && choice.bundle_take > rank implies leads(model, kept, choice) by {
                    let m = choice.bundle_take - 1;
                    let base = hull(model, capacity - 1, m, true);
                    lemma_hull_fields(model, capacity - 1, m, true);
                    assert(excepted(base, rank as int) == choice);
                    assert(leads(model, moved, base));
                    lemma_leads_excepted(model, moved, base, rank);
                    assert(excepted(moved, rank as int) == with_moved);
                    lemma_leads_transitive(model, kept, with_moved, choice);
                }
            }
        }
        proof {
            lemma_leads_transitive(model, kept, middle, best);
            assert forall|choice: RegularChoice| #[trigger]
                model.family(capacity as int, choice) && choice.exception == Some(
                    rank,
                ) implies leads(model, kept, choice) by {
                if choice.bundle_take <= rank {
                    let m = choice.bundle_take as int;
                    let base = hull(model, capacity - 1, m, false);
                    lemma_hull_fields(model, capacity - 1, m, false);
                    assert(excepted(base, rank as int) == choice);
                    assert(leads(model, plain, base));
                    lemma_leads_excepted(model, plain, base, rank);
                    assert(excepted(plain, rank as int) == with_plain);
                    lemma_leads_transitive(model, middle, with_plain, choice);
                    lemma_leads_transitive(model, kept, middle, choice);
                }
            }
        }
        kept
    }

    spec fn ordinary_entry(
        &self,
        model: Regular,
        room: int,
        bound: int,
        entry: RegularChoice,
    ) -> bool {
        &&& exists|m: int| 0 <= m <= bound && #[trigger] hull(model, room, m, false) == entry
        &&& model.choice_wf(entry)
        &&& forall|m: int|
            0 <= m <= bound ==> leads(model, entry, #[trigger] hull(model, room, m, false))
    }

    spec fn replacement_entry(
        &self,
        model: Regular,
        room: int,
        from: int,
        to: int,
        entry: RegularChoice,
    ) -> bool {
        &&& exists|m: int| from <= m <= to && #[trigger] hull(model, room, m, true) == entry
        &&& model.choice_wf(entry)
        &&& forall|m: int|
            from <= m <= to ==> leads(model, entry, #[trigger] hull(model, room, m, true))
    }

    /// Entry `j` leads every hull choice with at most `j` bundles.
    fn ordinary_best(
        &self,
        room: u128,
        maximum: usize,
        Ghost(curves): Ghost<Seq<Seq<u64>>>,
        Ghost(floors): Ghost<Seq<u8>>,
    ) -> (entries: Vec<RegularChoice>)
        requires
            self.wf(curves, floors),
            curves.len() <= usize::MAX,
            maximum <= self.bundles@.len() <= usize::MAX,
            2 * maximum <= room,
        ensures
            entries@.len() == maximum + 1,
            forall|j: int|
                0 <= j <= maximum ==> self.ordinary_entry(
                    self.model(curves, floors),
                    room as int,
                    j,
                    #[trigger] entries@[j],
                ),
    {
        let ghost model = self.model(curves, floors);
        let mut entries: Vec<RegularChoice> = Vec::new();
        let unit_total: usize = self.units.len();
        let mut best = self.hull_choice(room, 0, false, Ghost(curves), Ghost(floors));
        entries.push(best);
        assert(self.ordinary_entry(model, room as int, 0, best)) by {
            assert(hull(model, room as int, 0, false) == best);
        }
        let mut bundles: usize = 0;
        while bundles < maximum
            invariant
                self.wf(curves, floors),
                curves.len() <= usize::MAX,
                model == self.model(curves, floors),
                self.units@.len() <= usize::MAX,
                maximum <= self.bundles@.len() <= usize::MAX,
                2 * maximum <= room,
                bundles <= maximum,
                entries@.len() == bundles + 1,
                best == entries@[bundles as int],
                forall|j: int|
                    0 <= j <= bundles ==> self.ordinary_entry(
                        model,
                        room as int,
                        j,
                        #[trigger] entries@[j],
                    ),
            decreases maximum - bundles,
        {
            bundles = bundles + 1;
            let candidate = self.hull_choice(room, bundles, false, Ghost(curves), Ghost(floors));
            let ghost before = best;
            assert(self.ordinary_entry(model, room as int, bundles - 1, entries@[bundles - 1]));
            best = self.retain_better(best, candidate, Ghost(curves), Ghost(floors));
            proof {
                assert forall|m: int| 0 <= m <= bundles implies leads(
                    model,
                    best,
                    #[trigger] hull(model, room as int, m, false),
                ) by {
                    if m < bundles {
                        let other = hull(model, room as int, m, false);
                        lemma_hull_fields(model, room as int, m, false);
                        assert(leads(model, before, other));
                        lemma_leads_transitive(model, best, before, other);
                    }
                }
                if best == before {
                    let m = choose|m: int|
                        0 <= m <= bundles - 1 && #[trigger] hull(model, room as int, m, false)
                            == before;
                    assert(hull(model, room as int, m, false) == best);
                } else {
                    assert(hull(model, room as int, bundles as int, false) == best);
                }
                assert(self.ordinary_entry(model, room as int, bundles as int, best));
            }
            entries.push(best);
        }
        entries
    }

    /// Entry `i` leads every shifted hull choice with `maximum - i` up to
    /// `maximum` bundles.
    fn replacement_best(
        &self,
        room: u128,
        maximum: usize,
        Ghost(curves): Ghost<Seq<Seq<u64>>>,
        Ghost(floors): Ghost<Seq<u8>>,
    ) -> (entries: Vec<RegularChoice>)
        requires
            self.wf(curves, floors),
            curves.len() <= usize::MAX,
            maximum < self.bundles@.len() <= usize::MAX,
            2 * maximum <= room,
        ensures
            entries@.len() == maximum + 1,
            forall|i: int|
                0 <= i <= maximum ==> self.replacement_entry(
                    self.model(curves, floors),
                    room as int,
                    maximum - i,
                    maximum as int,
                    #[trigger] entries@[i],
                ),
    {
        let ghost model = self.model(curves, floors);
        let mut entries: Vec<RegularChoice> = Vec::new();
        let unit_total: usize = self.units.len();
        let mut best = self.hull_choice(room, maximum, true, Ghost(curves), Ghost(floors));
        entries.push(best);
        assert(self.replacement_entry(model, room as int, maximum as int, maximum as int, best)) by {
            assert(hull(model, room as int, maximum as int, true) == best);
        }
        let mut bundles: usize = maximum;
        while bundles > 0
            invariant
                self.wf(curves, floors),
                curves.len() <= usize::MAX,
                model == self.model(curves, floors),
                self.units@.len() <= usize::MAX,
                maximum < self.bundles@.len() <= usize::MAX,
                2 * maximum <= room,
                bundles <= maximum,
                entries@.len() == maximum - bundles + 1,
                best == entries@[maximum - bundles],
                forall|i: int|
                    0 <= i <= maximum - bundles ==> self.replacement_entry(
                        model,
                        room as int,
                        maximum - i,
                        maximum as int,
                        #[trigger] entries@[i],
                    ),
            decreases bundles,
        {
            let ghost before = best;
            assert(self.replacement_entry(
                model,
                room as int,
                bundles as int,
                maximum as int,
                entries@[maximum - bundles],
            ));
            bundles = bundles - 1;
            let candidate = self.hull_choice(room, bundles, true, Ghost(curves), Ghost(floors));
            best = self.retain_better(best, candidate, Ghost(curves), Ghost(floors));
            proof {
                assert forall|m: int| bundles <= m <= maximum implies leads(
                    model,
                    best,
                    #[trigger] hull(model, room as int, m, true),
                ) by {
                    if m > bundles {
                        let other = hull(model, room as int, m, true);
                        lemma_hull_fields(model, room as int, m, true);
                        assert(leads(model, before, other));
                        lemma_leads_transitive(model, best, before, other);
                    }
                }
                if best == before {
                    let m = choose|m: int|
                        bundles + 1 <= m <= maximum && #[trigger] hull(model, room as int, m, true)
                            == before;
                    assert(hull(model, room as int, m, true) == best);
                } else {
                    assert(hull(model, room as int, bundles as int, true) == best);
                }
                assert(self.replacement_entry(
                    model,
                    room as int,
                    bundles as int,
                    maximum as int,
                    best,
                ));
            }
            entries.push(best);
        }
        entries
    }

    /// Plane vector of a choice.
    pub fn materialize(
        &self,
        choice: RegularChoice,
        floors: &[u8],
        Ghost(curves): Ghost<Seq<Seq<u64>>>,
    ) -> (planes: Vec<u8>)
        requires
            self.wf(curves, floors@),
            self.model(curves, floors@).choice_wf(choice),
        ensures
            planes@ == self.model(curves, floors@).choice_vector(choice),
    {
        let ghost model = self.model(curves, floors@);
        let ghost pick = choice.pick();
        let ghost level = choice.level();
        let mut planes: Vec<u8> = copy_planes(floors);
        let mut rank: usize = 0;
        while rank < self.units.len()
            invariant
                rank <= self.units@.len(),
                model == self.model(curves, floors@),
                model.wf(),
                pick == choice.pick(),
                planes@.len() == floors@.len(),
                planes@ == model.unit_vector(pick, rank as int),
            decreases self.units@.len() - rank,
        {
            assert(model.unit_sound(model.units[rank as int]));
            if rank < choice.unit_count {
                planes.set(self.units[rank].group, self.units[rank].target_planes);
            }
            rank = rank + 1;
        }
        let mut bundle: usize = 0;
        while bundle < self.bundles.len()
            invariant
                bundle <= self.bundles@.len(),
                model == self.model(curves, floors@),
                model.wf(),
                pick == choice.pick(),
                level == choice.level(),
                planes@.len() == floors@.len(),
                planes@ == model.vector(pick, level, bundle as int),
            decreases self.bundles@.len() - bundle,
        {
            assert(model.bundle_sound(model.bundles[bundle as int]));
            planes.set(self.bundles[bundle].group, self.level(choice, bundle));
            bundle = bundle + 1;
        }
        planes
    }
}

} // verus!
