//! Ranked upgrades: sorting, exact prefix sums and range minima.

use crate::exact::{exact_sum_fits, ExactDistortion};
use vstd::arithmetic::power2::pow2;
use vstd::prelude::*;

verus! {

/// Lexicographic order of rank keys.
pub open spec fn key_less(left: (int, int, int), right: (int, int, int)) -> bool {
    left.0 < right.0 || (left.0 == right.0 && (left.1 < right.1 || (left.1 == right.1 && left.2
        < right.2)))
}

/// An upgrade of one group with an exact distortion reduction.
pub trait RankedUpgrade: Copy {
    /// The reduction is a valid exact difference.
    spec fn wf(self) -> bool;

    /// Rank key: larger reductions first, then lower groups, then lower targets.
    spec fn key(self) -> (int, int, int);

    /// Exact reduction in units of `2^-1074`.
    spec fn weight(self) -> int;

    /// Upgraded group.
    spec fn group_index(self) -> int;

    /// A reduction is bounded by one binary64 value.
    proof fn weight_is_bounded(self)
        requires
            self.wf(),
        ensures
            0 <= self.weight() <= pow2(2098),
    ;

    /// Whether this upgrade ranks strictly before another.
    fn precedes(&self, other: &Self) -> (before: bool)
        requires
            self.wf(),
            other.wf(),
        ensures
            before == key_less(self.key(), other.key()),
    ;

    /// Upgraded group.
    fn group(&self) -> (group: usize)
        ensures
            group == self.group_index(),
    ;

    /// Exact reduction.
    fn exact(&self) -> (sum: ExactDistortion)
        requires
            self.wf(),
        ensures
            sum.value() == self.weight(),
    ;
}

/// Every upgrade is valid.
pub open spec fn all_wf<T: RankedUpgrade>(upgrades: Seq<T>) -> bool {
    forall|i: int| 0 <= i < upgrades.len() ==> (#[trigger] upgrades[i]).wf()
}

/// No upgrade ranks before an earlier one.
pub open spec fn ranked<T: RankedUpgrade>(upgrades: Seq<T>) -> bool {
    forall|i: int, j: int|
        0 <= i < j < upgrades.len() ==> !key_less(
            (#[trigger] upgrades[j]).key(),
            (#[trigger] upgrades[i]).key(),
        )
}

proof fn lemma_multiset_of_push<T>(s: Seq<T>, x: T)
    ensures
        s.push(x).to_multiset() == s.to_multiset().insert(x),
{
    broadcast use vstd::seq_lib::group_to_multiset_ensures;

}

/// Merge two ranked runs.
fn merge_ranked<T: RankedUpgrade>(left: &Vec<T>, right: &Vec<T>) -> (merged: Vec<T>)
    requires
        all_wf(left@),
        all_wf(right@),
        ranked(left@),
        ranked(right@),
    ensures
        all_wf(merged@),
        ranked(merged@),
        merged@.to_multiset() == left@.to_multiset().add(right@.to_multiset()),
        merged@.len() == left@.len() + right@.len(),
{
    let mut merged: Vec<T> = Vec::new();
    let mut i: usize = 0;
    let mut j: usize = 0;
    proof {
        broadcast use vstd::seq_lib::group_to_multiset_ensures;

        assert(left@.take(0) =~= Seq::<T>::empty());
        assert(right@.take(0) =~= Seq::<T>::empty());
        assert(merged@ =~= Seq::<T>::empty());
        assert(merged@.to_multiset() =~= left@.take(0).to_multiset().add(
            right@.take(0).to_multiset(),
        ));
    }
    while i < left.len() || j < right.len()
        invariant
            i <= left@.len(),
            j <= right@.len(),
            all_wf(left@),
            all_wf(right@),
            ranked(left@),
            ranked(right@),
            all_wf(merged@),
            ranked(merged@),
            merged@.len() == i + j,
            merged@.to_multiset() == left@.take(i as int).to_multiset().add(
                right@.take(j as int).to_multiset(),
            ),
            forall|m: int, k: int|
                0 <= m < merged@.len() && i <= k < left@.len() ==> !key_less(
                    (#[trigger] left@[k]).key(),
                    (#[trigger] merged@[m]).key(),
                ),
            forall|m: int, k: int|
                0 <= m < merged@.len() && j <= k < right@.len() ==> !key_less(
                    (#[trigger] right@[k]).key(),
                    (#[trigger] merged@[m]).key(),
                ),
        decreases left@.len() + right@.len() - i - j,
    {
        let ghost before = merged@;
        let take_right = j < right.len() && (i >= left.len() || right[j].precedes(&left[i]));
        if take_right {
            merged.push(right[j]);
            proof {
                assert(right@.take(j + 1) =~= right@.take(j as int).push(right@[j as int]));
                lemma_multiset_of_push(right@.take(j as int), right@[j as int]);
                lemma_multiset_of_push(before, right@[j as int]);
                assert(merged@.to_multiset() =~= left@.take(i as int).to_multiset().add(
                    right@.take(j + 1).to_multiset(),
                ));
                assert forall|m: int, k: int|
                    0 <= m < merged@.len() && i <= k < left@.len() implies !key_less(
                    (#[trigger] left@[k]).key(),
                    (#[trigger] merged@[m]).key(),
                ) by {
                    if m == before.len() && k > i {
                        assert(!key_less(left@[k].key(), left@[i as int].key()));
                    }
                }
            }
            j = j + 1;
        } else {
            merged.push(left[i]);
            proof {
                assert(left@.take(i + 1) =~= left@.take(i as int).push(left@[i as int]));
                lemma_multiset_of_push(left@.take(i as int), left@[i as int]);
                lemma_multiset_of_push(before, left@[i as int]);
                assert(merged@.to_multiset() =~= left@.take(i + 1).to_multiset().add(
                    right@.take(j as int).to_multiset(),
                ));
                assert forall|m: int, k: int|
                    0 <= m < merged@.len() && j <= k < right@.len() implies !key_less(
                    (#[trigger] right@[k]).key(),
                    (#[trigger] merged@[m]).key(),
                ) by {
                    if m == before.len() && k > j {
                        assert(!key_less(right@[k].key(), right@[j as int].key()));
                    }
                }
            }
            i = i + 1;
        }
    }
    proof {
        assert(left@.take(i as int) =~= left@);
        assert(right@.take(j as int) =~= right@);
    }
    merged
}

/// Copy a range of upgrades.
fn copy_range<T: RankedUpgrade>(source: &Vec<T>, start: usize, end: usize) -> (copy: Vec<T>)
    requires
        start <= end <= source@.len(),
    ensures
        copy@ == source@.subrange(start as int, end as int),
{
    let mut copy: Vec<T> = Vec::new();
    let mut index: usize = start;
    while index < end
        invariant
            start <= index <= end <= source@.len(),
            copy@ == source@.subrange(start as int, index as int),
        decreases end - index,
    {
        copy.push(source[index]);
        index = index + 1;
        assert(copy@ =~= source@.subrange(start as int, index as int));
    }
    copy
}

/// Sort upgrades by rank.
pub fn sort_ranked<T: RankedUpgrade>(upgrades: Vec<T>) -> (sorted: Vec<T>)
    requires
        all_wf(upgrades@),
    ensures
        all_wf(sorted@),
        ranked(sorted@),
        sorted@.to_multiset() == upgrades@.to_multiset(),
        sorted@.len() == upgrades@.len(),
    decreases upgrades@.len(),
{
    if upgrades.len() <= 1 {
        return upgrades;
    }
    let middle: usize = upgrades.len() / 2;
    let left: Vec<T> = copy_range(&upgrades, 0, middle);
    let right: Vec<T> = copy_range(&upgrades, middle, upgrades.len());
    proof {
        broadcast use vstd::seq_lib::group_to_multiset_ensures;

        assert(left@ + right@ =~= upgrades@);
        vstd::seq_lib::lemma_multiset_commutative(left@, right@);
    }
    let left: Vec<T> = sort_ranked(left);
    let right: Vec<T> = sort_ranked(right);
    merge_ranked(&left, &right)
}

/// Sum of the first `count` reductions.
pub open spec fn prefix_weight<T: RankedUpgrade>(upgrades: Seq<T>, count: int) -> int
    decreases count,
{
    if count <= 0 {
        0
    } else {
        prefix_weight(upgrades, count - 1) + upgrades[count - 1].weight()
    }
}

pub proof fn lemma_prefix_weight_bound<T: RankedUpgrade>(upgrades: Seq<T>, count: int)
    requires
        all_wf(upgrades),
        0 <= count <= upgrades.len(),
    ensures
        0 <= prefix_weight(upgrades, count) <= count * pow2(2098),
    decreases count,
{
    if count > 0 {
        lemma_prefix_weight_bound(upgrades, count - 1);
        upgrades[count - 1].weight_is_bounded();
        assert(count * pow2(2098) == (count - 1) * pow2(2098) + pow2(2098)) by (nonlinear_arith);
    }
}

/// Distance between two exact checkpoints.
pub const EXACT_PREFIX_BLOCK: usize = 64;

/// Exact block checkpoints over compact reductions.
pub struct ExactPrefixIndex {
    checkpoints: Vec<ExactDistortion>,
}

impl ExactPrefixIndex {
    /// Every checkpoint holds the sum of the blocks before it.
    pub closed spec fn indexes<T: RankedUpgrade>(&self, upgrades: Seq<T>) -> bool {
        &&& self.checkpoints@.len() == upgrades.len() / EXACT_PREFIX_BLOCK as nat + 1
        &&& forall|block: int|
            0 <= block < self.checkpoints@.len() ==> (
            #[trigger] self.checkpoints@[block]).value() == prefix_weight(
                upgrades,
                block * EXACT_PREFIX_BLOCK,
            )
    }

    /// Build the checkpoints of a list.
    pub fn new<T: RankedUpgrade>(upgrades: &Vec<T>) -> (index: Self)
        requires
            all_wf(upgrades@),
        ensures
            index.indexes(upgrades@),
    {
        let mut checkpoints: Vec<ExactDistortion> = Vec::new();
        let mut total = ExactDistortion::zero();
        checkpoints.push(total);
        let mut position: usize = 0;
        while position < upgrades.len()
            invariant
                position <= upgrades@.len(),
                all_wf(upgrades@),
                total.value() == prefix_weight(upgrades@, position as int),
                checkpoints@.len() == position / EXACT_PREFIX_BLOCK + 1,
                forall|block: int|
                    0 <= block < checkpoints@.len() ==> (#[trigger] checkpoints@[block]).value()
                        == prefix_weight(upgrades@, block * EXACT_PREFIX_BLOCK),
            decreases upgrades@.len() - position,
        {
            let addend = upgrades[position].exact();
            proof {
                lemma_prefix_weight_bound(upgrades@, position + 1);
                exact_sum_fits((total.value() + addend.value()) as nat, (position + 1) as nat);
            }
            total = total.checked_add(addend).unwrap();
            position = position + 1;
            if position % EXACT_PREFIX_BLOCK == 0 {
                checkpoints.push(total);
            }
        }
        ExactPrefixIndex { checkpoints }
    }

    /// Sum of the first `count` reductions.
    pub fn sum<T: RankedUpgrade>(&self, upgrades: &Vec<T>, count: usize) -> (sum: ExactDistortion)
        requires
            all_wf(upgrades@),
            self.indexes(upgrades@),
            count <= upgrades@.len(),
        ensures
            sum.value() == prefix_weight(upgrades@, count as int),
    {
        let block: usize = count / EXACT_PREFIX_BLOCK;
        let mut position: usize = block * EXACT_PREFIX_BLOCK;
        let mut total = self.checkpoints[block];
        while position < count
            invariant
                position <= count <= upgrades@.len(),
                all_wf(upgrades@),
                total.value() == prefix_weight(upgrades@, position as int),
            decreases count - position,
        {
            let addend = upgrades[position].exact();
            proof {
                lemma_prefix_weight_bound(upgrades@, position + 1);
                exact_sum_fits((total.value() + addend.value()) as nat, (position + 1) as nat);
            }
            total = total.checked_add(addend).unwrap();
            position = position + 1;
        }
        total
    }
}

/// Smallest entry of `values[start..end]`; `usize::MAX` for an empty range.
pub open spec fn range_minimum(values: Seq<usize>, start: int, end: int) -> usize
    decreases end - start,
{
    if start >= end {
        usize::MAX
    } else {
        let rest = range_minimum(values, start, end - 1);
        if rest <= values[end - 1] {
            rest
        } else {
            values[end - 1]
        }
    }
}

/// The smaller of two entries.
pub open spec fn smaller(left: usize, right: usize) -> usize {
    if left <= right {
        left
    } else {
        right
    }
}

pub proof fn lemma_range_minimum_bound(values: Seq<usize>, start: int, end: int)
    ensures
        forall|i: int|
            start <= i < end ==> range_minimum(values, start, end) <= #[trigger] values[i],
        start < end ==> exists|i: int|
            start <= i < end && #[trigger] values[i] == range_minimum(values, start, end),
    decreases end - start,
{
    if start < end {
        lemma_range_minimum_bound(values, start, end - 1);
        let rest = range_minimum(values, start, end - 1);
        if start < end - 1 && rest <= values[end - 1] {
            let i = choose|i: int| start <= i < end - 1 && #[trigger] values[i] == rest;
            assert(values[i] == range_minimum(values, start, end));
        } else {
            assert(values[end - 1] == range_minimum(values, start, end));
        }
    }
}

proof fn lemma_range_minimum_first(values: Seq<usize>, start: int, end: int)
    requires
        start < end,
    ensures
        range_minimum(values, start, end) == smaller(
            values[start],
            range_minimum(values, start + 1, end),
        ),
    decreases end - start,
{
    if start + 1 < end {
        lemma_range_minimum_first(values, start, end - 1);
    } else {
        assert(range_minimum(values, start, end - 1) == usize::MAX);
        assert(range_minimum(values, start + 1, end) == usize::MAX);
    }
}

/// Adjacent pairs folded once keep even-aligned range minima.
pub open spec fn halves(fine: Seq<usize>, coarse: Seq<usize>) -> bool {
    &&& coarse.len() == fine.len() / 2
    &&& forall|i: int|
        0 <= i < coarse.len() ==> #[trigger] coarse[i] == smaller(fine[2 * i], fine[2 * i + 1])
}

proof fn lemma_halves(fine: Seq<usize>, coarse: Seq<usize>, start: int, end: int)
    requires
        halves(fine, coarse),
        0 <= start <= end <= coarse.len(),
    ensures
        range_minimum(fine, 2 * start, 2 * end) == range_minimum(coarse, start, end),
    decreases end - start,
{
    if start < end {
        lemma_halves(fine, coarse, start, end - 1);
        assert(coarse[end - 1] == smaller(fine[2 * (end - 1)], fine[2 * (end - 1) + 1]));
        let r2 = range_minimum(fine, 2 * start, 2 * end - 2);
        let r1 = range_minimum(fine, 2 * start, 2 * end - 1);
        assert(r1 == smaller(r2, fine[2 * end - 2]));
        assert(range_minimum(fine, 2 * start, 2 * end) == smaller(r1, fine[2 * end - 1]));
    }
}

/// Range-minimum index over the groups of a ranked list.
pub struct LexGroupIndex {
    levels: Vec<Vec<usize>>,
}

/// Groups of a ranked list.
pub open spec fn group_seq<T: RankedUpgrade>(upgrades: Seq<T>) -> Seq<usize> {
    Seq::new(upgrades.len(), |i: int| upgrades[i].group_index() as usize)
}

impl LexGroupIndex {
    /// Level zero holds the groups; every further level folds pairs.
    pub closed spec fn indexes(&self, groups: Seq<usize>) -> bool {
        &&& self.levels@.len() >= 1
        &&& self.levels@[0]@ == groups
        &&& forall|l: int|
            0 <= l < self.levels@.len() - 1 ==> halves(
                #[trigger] self.levels@[l]@,
                self.levels@[l + 1]@,
            )
        &&& self.levels@[self.levels@.len() - 1]@.len() < 2
    }

    /// Build the index of a list.
    pub fn new<T: RankedUpgrade>(upgrades: &Vec<T>) -> (index: Self)
        ensures
            index.indexes(group_seq(upgrades@)),
    {
        let mut base: Vec<usize> = Vec::new();
        let mut position: usize = 0;
        while position < upgrades.len()
            invariant
                position <= upgrades@.len(),
                base@ == group_seq(upgrades@).take(position as int),
            decreases upgrades@.len() - position,
        {
            base.push(upgrades[position].group());
            position = position + 1;
            assert(base@ =~= group_seq(upgrades@).take(position as int));
        }
        assert(base@ =~= group_seq(upgrades@));
        let mut width: usize = base.len();
        let mut levels: Vec<Vec<usize>> = Vec::new();
        levels.push(base);
        while width >= 2
            invariant
                levels@.len() >= 1,
                levels@[0]@ == group_seq(upgrades@),
                width == levels@[levels@.len() - 1]@.len(),
                forall|l: int|
                    0 <= l < levels@.len() - 1 ==> halves(
                        #[trigger] levels@[l]@,
                        levels@[l + 1]@,
                    ),
            decreases width,
        {
            let top: usize = levels.len() - 1;
            let mut coarse: Vec<usize> = Vec::new();
            let mut slot: usize = 0;
            while slot < width / 2
                invariant
                    slot <= width / 2,
                    top < levels@.len(),
                    width == levels@[top as int]@.len(),
                    coarse@.len() == slot,
                    forall|i: int|
                        0 <= i < slot ==> #[trigger] coarse@[i] == smaller(
                            levels@[top as int]@[2 * i],
                            levels@[top as int]@[2 * i + 1],
                        ),
                decreases width / 2 - slot,
            {
                let left: usize = levels[top][2 * slot];
                let right: usize = levels[top][2 * slot + 1];
                coarse.push(
                    if left <= right {
                        left
                    } else {
                        right
                    },
                );
                slot = slot + 1;
            }
            width = coarse.len();
            let ghost before = levels@;
            levels.push(coarse);
            assert forall|l: int| 0 <= l < levels@.len() - 1 implies halves(
                #[trigger] levels@[l]@,
                levels@[l + 1]@,
            ) by {
                if l < before.len() - 1 {
                    assert(levels@[l] == before[l]);
                    assert(levels@[l + 1] == before[l + 1]);
                }
            }
        }
        LexGroupIndex { levels }
    }

    /// Smallest group of `groups[start..end]`; `usize::MAX` for an empty range.
    pub fn range_min(&self, start: usize, end: usize, Ghost(groups): Ghost<Seq<usize>>) -> (least:
        usize)
        requires
            self.indexes(groups),
            start <= end <= groups.len(),
        ensures
            least == range_minimum(groups, start as int, end as int),
    {
        self.level_min(0, start, end, Ghost(groups))
    }

    fn level_min(
        &self,
        level: usize,
        low: usize,
        high: usize,
        Ghost(groups): Ghost<Seq<usize>>,
    ) -> (least: usize)
        requires
            self.indexes(groups),
            level < self.levels@.len(),
            low <= high <= self.levels@[level as int]@.len(),
        ensures
            least == range_minimum(self.levels@[level as int]@, low as int, high as int),
        decreases high - low,
    {
        let ghost values = self.levels@[level as int]@;
        if low >= high {
            return usize::MAX;
        }
        if low % 2 == 1 {
            let entry: usize = self.levels[level][low];
            let rest: usize = self.level_min(level, low + 1, high, Ghost(groups));
            proof {
                lemma_range_minimum_first(values, low as int, high as int);
            }
            if entry <= rest {
                return entry;
            }
            return rest;
        }
        if high % 2 == 1 {
            let entry: usize = self.levels[level][high - 1];
            let rest: usize = self.level_min(level, low, high - 1, Ghost(groups));
            if rest <= entry {
                return rest;
            }
            return entry;
        }
        proof {
            assert(values.len() >= 2);
            assert(level < self.levels@.len() - 1);
            assert(halves(self.levels@[level as int]@, self.levels@[level + 1]@));
            lemma_halves(values, self.levels@[level + 1]@, (low / 2) as int, (high / 2) as int);
        }
        assert(level + 1 < self.levels.len());
        self.level_min(level + 1, low / 2, high / 2, Ghost(groups))
    }
}

} // verus!
