//! Greedy water-filling of planes: which group is offered the next plane, and when it stops.
//!
//! The reals that the rule compares (gains per bit, sensitivities, budgets) are binary64 bit
//! patterns; the arithmetic on them is the caller's.

use crate::float_bits::{
    f64_equal, f64_finite_nonnegative, f64_is_equal, f64_is_finite_nonnegative, total_position,
    total_rank,
};
use vstd::multiset::Multiset;
use vstd::prelude::*;
use vstd::std_specs::cmp::PartialEqSpecImpl;

verus! {

/// Why an allocation could not be produced; reals are binary64 bit patterns.
#[derive(Clone, Copy, Debug)]
#[non_exhaustive]
pub enum AllocError {
    /// `t_min > t_max` — empty feasible range.
    BadRange {
        /// Requested minimum planes per group.
        t_min: usize,
        /// Requested maximum planes per group.
        t_max: usize,
    },
    /// The base allocation (`t_min` planes on every group) already exceeds the
    /// budget, so no feasible allocation exists.
    BudgetTooSmall {
        /// Bits used by the base allocation (`t_min` planes on every group).
        base_bits: u64,
        /// The bit budget that the base allocation already exceeds.
        budget_bits: u64,
    },
    /// Group `group`'s `sensitivity` is not finite-and-nonnegative — it would
    /// corrupt the greedy objective (a negative sensitivity spends budget to *raise*
    /// the weighted loss; `NaN` poisons the max-selection so no group is chosen).
    InvalidSensitivity {
        /// Index of the offending group.
        group: usize,
        /// The non-finite-or-negative sensitivity that was rejected.
        value: u64,
    },
}

impl PartialEq for AllocError {
    fn eq(&self, other: &Self) -> (equal: bool) {
        match (*self, *other) {
            (
                AllocError::BadRange { t_min, t_max },
                AllocError::BadRange { t_min: other_min, t_max: other_max },
            ) => t_min == other_min && t_max == other_max,
            (
                AllocError::BudgetTooSmall { base_bits, budget_bits },
                AllocError::BudgetTooSmall { base_bits: other_base, budget_bits: other_budget },
            ) => f64_is_equal(base_bits, other_base) && f64_is_equal(budget_bits, other_budget),
            (
                AllocError::InvalidSensitivity { group, value },
                AllocError::InvalidSensitivity { group: other_group, value: other_value },
            ) => group == other_group && f64_is_equal(value, other_value),
            _ => false,
        }
    }
}

impl PartialEqSpecImpl for AllocError {
    open spec fn obeys_eq_spec() -> bool {
        true
    }

    /// Indices are equal as integers, reals as binary64 values.
    open spec fn eq_spec(&self, other: &Self) -> bool {
        match (*self, *other) {
            (
                AllocError::BudgetTooSmall { base_bits, budget_bits },
                AllocError::BudgetTooSmall { base_bits: other_base, budget_bits: other_budget },
            ) => f64_equal(base_bits, other_base) && f64_equal(budget_bits, other_budget),
            (
                AllocError::InvalidSensitivity { group, value },
                AllocError::InvalidSensitivity { group: other_group, value: other_value },
            ) => group == other_group && f64_equal(value, other_value),
            _ => *self == *other,
        }
    }
}

/// The first group from a position on whose sensitivity is rejected, if there is one.
pub open spec fn sensitivity_error(sensitivities: Seq<u64>, from: int) -> Option<AllocError>
    decreases sensitivities.len() - from,
{
    if from < 0 || from >= sensitivities.len() {
        None
    } else if !f64_finite_nonnegative(sensitivities[from]) {
        Some(
            AllocError::InvalidSensitivity { group: from as usize, value: sensitivities[from] },
        )
    } else {
        sensitivity_error(sensitivities, from + 1)
    }
}

/// The reason why a plane range and sensitivities are rejected, if there is one.
pub open spec fn range_error(t_min: usize, t_max: usize, sensitivities: Seq<u64>) -> Option<
    AllocError,
> {
    if t_min > t_max {
        Some(AllocError::BadRange { t_min, t_max })
    } else {
        sensitivity_error(sensitivities, 0)
    }
}

/// Checks a plane range and the groups' sensitivities.
pub fn check_groups(t_min: usize, t_max: usize, sensitivities: &[u64]) -> (result: Result<
    (),
    AllocError,
>)
    ensures
        match range_error(t_min, t_max, sensitivities@) {
            Some(error) => result == Err::<(), AllocError>(error),
            None => result is Ok && t_min <= t_max,
        },
{
    if t_min > t_max {
        return Err(AllocError::BadRange { t_min, t_max });
    }
    let mut group: usize = 0;
    while group < sensitivities.len()
        invariant
            t_min <= t_max,
            group <= sensitivities@.len(),
            sensitivity_error(sensitivities@, 0) == sensitivity_error(sensitivities@, group as int),
        decreases sensitivities@.len() - group,
    {
        if !f64_is_finite_nonnegative(sensitivities[group]) {
            return Err(
                AllocError::InvalidSensitivity { group, value: sensitivities[group] },
            );
        }
        group = group + 1;
    }
    Ok(())
}

/// A group that would gain from one more plane.
#[derive(Clone, Copy, Debug, PartialEq, Eq, Structural)]
pub struct Candidate {
    /// Loss drop per bit of the group's next plane.
    pub gain: u64,
    /// Group index.
    pub group: usize,
}

/// Whether a candidate is served before another: the higher gain first, and of equal gains the
/// lower group.
pub open spec fn served_before(left: Candidate, right: Candidate) -> bool {
    ||| total_rank(left.gain) > total_rank(right.gain)
    ||| total_rank(left.gain) == total_rank(right.gain) && left.group < right.group
}

fn is_served_before(left: Candidate, right: Candidate) -> (before: bool)
    ensures
        before == served_before(left, right),
{
    let first: u128 = total_position(left.gain);
    let second: u128 = total_position(right.gain);
    first > second || (first == second && left.group < right.group)
}

/// Position of a heap entry's parent.
spec fn parent(index: int) -> int {
    (index - 1) / 2
}

/// Whether no entry is served before its parent.
spec fn is_heap(entries: Seq<Candidate>) -> bool {
    forall|k: int|
        0 < k < entries.len() ==> !served_before(#[trigger] entries[k], entries[parent(k)])
}

/// The root of a heap is served before or with every entry.
proof fn lemma_root_first(entries: Seq<Candidate>, index: int)
    requires
        is_heap(entries),
        0 <= index < entries.len(),
    ensures
        !served_before(entries[index], entries[0]),
    decreases index,
{
    if index > 0 {
        lemma_root_first(entries, parent(index));
    }
}

/// Exchanging two entries keeps the entries.
proof fn lemma_exchange(entries: Seq<Candidate>, i: int, j: int)
    requires
        0 <= i < entries.len(),
        0 <= j < entries.len(),
    ensures
        entries.update(i, entries[j]).update(j, entries[i]).to_multiset() == entries.to_multiset(),
{
    broadcast use vstd::seq_lib::group_to_multiset_ensures;
    broadcast use vstd::multiset::group_multiset_axioms;

    vstd::seq_lib::to_multiset_update(entries, i, entries[j]);
    let once = entries.update(i, entries[j]);
    vstd::seq_lib::to_multiset_update(once, j, entries[i]);
    assert(entries.to_multiset().count(entries[i]) > 0) by {
        assert(entries.contains(entries[i]));
    }
    assert(entries.to_multiset().count(entries[j]) > 0) by {
        assert(entries.contains(entries[j]));
    }
    assert(once.update(j, entries[i]).to_multiset() =~= entries.to_multiset());
}

/// Waiting candidates, the next one to be served first.
#[derive(Clone, Debug)]
pub struct CandidateQueue {
    entries: Vec<Candidate>,
}

impl View for CandidateQueue {
    type V = Multiset<Candidate>;

    closed spec fn view(&self) -> Multiset<Candidate> {
        self.entries@.to_multiset()
    }
}

impl CandidateQueue {
    /// The entries are arranged so that the next one to be served stands first.
    pub closed spec fn wf(&self) -> bool {
        is_heap(self.entries@)
    }

    /// The queue without candidates.
    pub fn new() -> (queue: Self)
        ensures
            queue.wf(),
            queue@ == Multiset::<Candidate>::empty(),
    {
        broadcast use vstd::seq_lib::group_to_multiset_ensures;

        let queue = CandidateQueue { entries: Vec::new() };
        assert(queue@ =~= Multiset::<Candidate>::empty()) by {
            broadcast use vstd::multiset::group_multiset_axioms;

            assert forall|c: Candidate| #[trigger] queue@.count(c) == 0 by {
                assert(!queue.entries@.contains(c));
            }
        }
        queue
    }

    /// Adds a candidate.
    pub fn push(&mut self, candidate: Candidate)
        requires
            old(self).wf(),
        ensures
            final(self).wf(),
            final(self)@ == old(self)@.insert(candidate),
    {
        broadcast use vstd::seq_lib::group_to_multiset_ensures;

        let ghost whole = self@.insert(candidate);
        self.entries.push(candidate);
        let mut at: usize = self.entries.len() - 1;
        while at > 0
            invariant_except_break
                at < self.entries@.len(),
                self.entries@.to_multiset() == whole,
                forall|k: int|
                    0 < k < self.entries@.len() && k != at ==> !served_before(
                        #[trigger] self.entries@[k],
                        self.entries@[parent(k)],
                    ),
                forall|k: int|
                    0 < k < self.entries@.len() && parent(k) == at && at > 0 ==> !served_before(
                        #[trigger] self.entries@[k],
                        self.entries@[parent(at as int)],
                    ),
            ensures
                is_heap(self.entries@),
                self.entries@.to_multiset() == whole,
            decreases at,
        {
            let above: usize = (at - 1) / 2;
            assert(above == parent(at as int));
            if !is_served_before(self.entries[at], self.entries[above]) {
                break;
            }
            let ghost before = self.entries@;
            let lower: Candidate = self.entries[at];
            let upper: Candidate = self.entries[above];
            self.entries.set(at, upper);
            self.entries.set(above, lower);
            proof {
                lemma_exchange(before, at as int, above as int);
                let after = self.entries@;
                assert forall|k: int| 0 < k < after.len() && k != above implies !served_before(
                    #[trigger] after[k],
                    after[parent(k)],
                ) by {
                    if k == at {
                    } else if parent(k) == at {
                        assert(!served_before(before[k], before[above as int]));
                    } else if parent(k) == above {
                        assert(!served_before(before[k], before[above as int]));
                    } else {
                        assert(!served_before(before[k], before[parent(k)]));
                    }
                }
                assert forall|k: int|
                    0 < k < after.len() && parent(k) == above && above > 0 implies !served_before(
                    #[trigger] after[k],
                    after[parent(above as int)],
                ) by {
                    assert(!served_before(before[above as int], before[parent(above as int)]));
                    if k != at {
                        assert(!served_before(before[k], before[above as int]));
                    }
                }
            }
            at = above;
        }
    }

    /// Takes the candidate that is served next.
    pub fn pop(&mut self) -> (best: Option<Candidate>)
        requires
            old(self).wf(),
        ensures
            final(self).wf(),
            match best {
                None => old(self)@.len() == 0 && final(self)@ == old(self)@,
                Some(candidate) => {
                    &&& old(self)@.count(candidate) > 0
                    &&& final(self)@ == old(self)@.remove(candidate)
                    &&& forall|other: Candidate| #[trigger]
                        old(self)@.count(other) > 0 ==> !served_before(other, candidate)
                },
            },
    {
        broadcast use vstd::seq_lib::group_to_multiset_ensures;

        let length: usize = self.entries.len();
        if length == 0 {
            return None;
        }
        let ghost start = self.entries@;
        let best: Candidate = self.entries[0];
        proof {
            assert(start.contains(start[0]));
            assert forall|other: Candidate| #[trigger]
                start.to_multiset().count(other) > 0 implies !served_before(other, best) by {
                assert(start.contains(other));
                let k = choose|k: int| 0 <= k < start.len() && start[k] == other;
                lemma_root_first(start, k);
            }
        }
        let last: Candidate = self.entries[length - 1];
        self.entries.set(0, last);
        let ghost moved = self.entries@;
        self.entries.pop();
        proof {
            lemma_tail_moved(start, moved, self.entries@);
            assert forall|k: int| 0 < k < self.entries@.len() && parent(k) != 0 implies
                !served_before(#[trigger] self.entries@[k], self.entries@[parent(k)]) by {
                assert(!served_before(start[k], start[parent(k)]));
            }
        }
        self.sink(Ghost(start.to_multiset().remove(best)));
        Some(best)
    }

    /// Moves the first entry down to its place.
    fn sink(&mut self, Ghost(whole): Ghost<Multiset<Candidate>>)
        requires
            old(self).entries@.to_multiset() == whole,
            forall|k: int|
                0 < k < old(self).entries@.len() && parent(k) != 0 ==> !served_before(
                    #[trigger] old(self).entries@[k],
                    old(self).entries@[parent(k)],
                ),
        ensures
            is_heap(final(self).entries@),
            final(self).entries@.to_multiset() == whole,
    {
        let length: usize = self.entries.len();
        let mut at: usize = 0;
        while at < length / 2
            invariant_except_break
                self.entries@.len() == length,
                at < length || length == 0,
                self.entries@.to_multiset() == whole,
                forall|k: int|
                    0 < k < length && parent(k) != at ==> !served_before(
                        #[trigger] self.entries@[k],
                        self.entries@[parent(k)],
                    ),
                forall|k: int|
                    0 < k < length && parent(k) == at && at > 0 ==> !served_before(
                        #[trigger] self.entries@[k],
                        self.entries@[parent(at as int)],
                    ),
            ensures
                is_heap(self.entries@),
                self.entries@.to_multiset() == whole,
            decreases length - at,
        {
            let left: usize = 2 * at + 1;
            let mut child: usize = left;
            if left + 1 < length && is_served_before(self.entries[left + 1], self.entries[left]) {
                child = left + 1;
            }
            proof {
                assert(parent(left as int) == at);
                assert(parent(left + 1) == at);
                assert forall|k: int| 0 < k < length && parent(k) == at implies k == left || k
                    == left + 1 by {}
                assert forall|k: int| 0 < k < length && parent(k) == at implies !served_before(
                    #[trigger] self.entries@[k],
                    self.entries@[child as int],
                ) by {}
            }
            if !is_served_before(self.entries[child], self.entries[at]) {
                proof {
                    assert forall|k: int| 0 < k < length implies !served_before(
                        #[trigger] self.entries@[k],
                        self.entries@[parent(k)],
                    ) by {
                        if parent(k) == at {
                            assert(!served_before(self.entries@[k], self.entries@[child as int]));
                        }
                    }
                }
                break;
            }
            let ghost before = self.entries@;
            let upper: Candidate = self.entries[at];
            let lower: Candidate = self.entries[child];
            self.entries.set(at, lower);
            self.entries.set(child, upper);
            proof {
                lemma_exchange(before, at as int, child as int);
                let after = self.entries@;
                assert forall|k: int| 0 < k < length && parent(k) != child implies !served_before(
                    #[trigger] after[k],
                    after[parent(k)],
                ) by {
                    if parent(k) == at {
                        assert(!served_before(before[k], before[child as int]));
                    } else if k == at {
                        assert(parent(child as int) == at);
                        assert(!served_before(before[child as int], before[parent(at as int)]));
                    } else {
                        assert(k != child);
                        assert(!served_before(before[k], before[parent(k)]));
                    }
                }
                assert forall|k: int|
                    0 < k < length && parent(k) == child && child > 0 implies !served_before(
                    #[trigger] after[k],
                    after[parent(child as int)],
                ) by {
                    assert(k != at && k != child);
                    assert(!served_before(before[k], before[parent(k)]));
                }
            }
            at = child;
        }
    }
}

/// Removing the first entry by moving the last one over it.
proof fn lemma_tail_moved(start: Seq<Candidate>, moved: Seq<Candidate>, rest: Seq<Candidate>)
    requires
        start.len() > 0,
        moved == start.update(0, start.last()),
        rest == moved.drop_last(),
    ensures
        rest.to_multiset() == start.to_multiset().remove(start[0]),
{
    broadcast use vstd::seq_lib::group_to_multiset_ensures;
    broadcast use vstd::multiset::group_multiset_axioms;

    vstd::seq_lib::to_multiset_update(start, 0, start.last());
    let end = start.len() - 1;
    assert(rest =~= moved.remove(end));
    assert(moved[end] == start.last());
    assert(start.contains(start[0]));
    assert(start.contains(start.last()));
    assert(rest.to_multiset() =~= start.to_multiset().remove(start[0]));
}

/// The result: a realized plane count per group, index-aligned with the input.
#[derive(Clone, Debug, PartialEq, Eq)]
pub struct Allocation {
    /// `plane_counts[g]` is the number of planes group `g` got.
    pub plane_counts: Vec<usize>,
}

/// What a filling holds.
pub struct FillingView {
    /// Planes of each group so far.
    pub counts: Seq<usize>,
    /// Most planes of a group.
    pub t_max: usize,
    /// Groups that would gain from one more plane.
    pub waiting: Multiset<Candidate>,
}

impl FillingView {
    /// Whether waiting groups exist and are below the cap, and no group waits twice.
    pub open spec fn valid(self) -> bool {
        &&& forall|k: int| 0 <= k < self.counts.len() ==> #[trigger] self.counts[k] <= self.t_max
        &&& forall|c: Candidate| #[trigger]
            self.waiting.count(c) > 0 ==> c.group < self.counts.len() && self.counts[c.group as int]
                < self.t_max && self.waiting.count(c) == 1
        &&& forall|a: Candidate, b: Candidate| #[trigger]
            self.waiting.count(a) > 0 && #[trigger] self.waiting.count(b) > 0 && a.group == b.group
                ==> a == b
    }

    /// Whether a group waits.
    pub open spec fn waits(self, group: usize) -> bool {
        exists|c: Candidate| #[trigger] self.waiting.count(c) > 0 && c.group == group
    }
}

/// The first candidates of groups up to a position: those with a gain, if another plane is
/// allowed at all.
pub open spec fn first_candidates(gains: Seq<Option<u64>>, count: nat) -> Multiset<Candidate>
    decreases count,
{
    if count == 0 {
        Multiset::empty()
    } else {
        let before = first_candidates(gains, (count - 1) as nat);
        match gains[count - 1] {
            Some(gain) => before.insert(Candidate { gain, group: (count - 1) as usize }),
            None => before,
        }
    }
}

/// Every first candidate is a group before the position, and none comes twice.
proof fn lemma_first_candidates(gains: Seq<Option<u64>>, count: nat)
    requires
        count <= gains.len() <= usize::MAX,
    ensures
        forall|c: Candidate| #[trigger]
            first_candidates(gains, count).count(c) > 0 ==> c.group < count && gains[c.group as int]
                == Some(c.gain) && first_candidates(gains, count).count(c) == 1,
    decreases count,
{
    broadcast use vstd::multiset::group_multiset_axioms;

    if count > 0 {
        let less = (count - 1) as nat;
        lemma_first_candidates(gains, less);
        let before = first_candidates(gains, less);
        let after = first_candidates(gains, count);
        assert forall|c: Candidate| #[trigger] after.count(c) > 0 implies c.group < count
            && gains[c.group as int] == Some(c.gain) && after.count(c) == 1 by {
            assert(before.count(c) > 0 ==> c.group < less);
        }
    }
}

/// Water-filling in progress.
#[derive(Clone, Debug)]
pub struct PlaneFilling {
    counts: Vec<usize>,
    t_max: usize,
    queue: CandidateQueue,
}

impl View for PlaneFilling {
    type V = FillingView;

    closed spec fn view(&self) -> FillingView {
        FillingView { counts: self.counts@, t_max: self.t_max, waiting: self.queue@ }
    }
}

impl PlaneFilling {
    /// The state is valid and the queue is arranged.
    pub closed spec fn wf(&self) -> bool {
        self@.valid() && self.queue.wf()
    }

    /// A well-formed filling is a valid one.
    pub proof fn wf_valid(&self)
        requires
            self.wf(),
        ensures
            self@.valid(),
    {
    }

    /// Every group starts with `t_min` planes; `gains` holds the gain per bit of each group's
    /// next plane, where it has one.
    pub fn new(t_min: usize, t_max: usize, gains: &[Option<u64>]) -> (filling: Self)
        requires
            t_min <= t_max,
        ensures
            filling.wf(),
            filling@.t_max == t_max,
            filling@.counts == Seq::new(gains@.len(), |k: int| t_min),
            filling@.waiting == if t_min < t_max {
                first_candidates(gains@, gains@.len())
            } else {
                Multiset::empty()
            },
    {
        let length: usize = gains.len();
        let mut counts: Vec<usize> = Vec::new();
        let mut queue: CandidateQueue = CandidateQueue::new();
        let mut group: usize = 0;
        while group < length
            invariant
                group <= length == gains@.len(),
                counts@ == Seq::new(group as nat, |k: int| t_min),
                queue.wf(),
                queue@ == if t_min < t_max {
                    first_candidates(gains@, group as nat)
                } else {
                    Multiset::empty()
                },
            decreases length - group,
        {
            counts.push(t_min);
            assert(counts@ =~= Seq::new((group + 1) as nat, |k: int| t_min));
            if t_min < t_max {
                match gains[group] {
                    Some(gain) => {
                        queue.push(Candidate { gain, group });
                    },
                    None => {},
                }
            }
            group = group + 1;
        }
        let filling = PlaneFilling { counts, t_max, queue };
        proof {
            broadcast use vstd::multiset::group_multiset_axioms;

            lemma_first_candidates(gains@, length as nat);
        }
        filling
    }

    /// Takes the group that is offered the next plane: the one with the highest gain, and of
    /// equal gains the lowest.
    pub fn next_group(&mut self) -> (group: Option<usize>)
        requires
            old(self).wf(),
        ensures
            final(self).wf(),
            final(self)@.counts == old(self)@.counts,
            final(self)@.t_max == old(self)@.t_max,
            match group {
                None => old(self)@.waiting.len() == 0 && final(self)@.waiting
                    == old(self)@.waiting,
                Some(best) => {
                    &&& best < old(self)@.counts.len()
                    &&& old(self)@.counts[best as int] < old(self)@.t_max
                    &&& !final(self)@.waits(best)
                    &&& exists|c: Candidate|
                        {
                            &&& c.group == best
                            &&& #[trigger] old(self)@.waiting.count(c) > 0
                            &&& final(self)@.waiting == old(self)@.waiting.remove(c)
                            &&& forall|other: Candidate| #[trigger]
                                old(self)@.waiting.count(other) > 0 ==> !served_before(other, c)
                        }
                },
            },
    {
        broadcast use vstd::multiset::group_multiset_axioms;

        let ghost before = self@;
        match self.queue.pop() {
            Some(candidate) => {
                proof {
                    let after = self@;
                    assert(before.waiting.count(candidate) == 1);
                    assert forall|c: Candidate| #[trigger] after.waiting.count(c) > 0 implies c.group
                        < after.counts.len() && after.counts[c.group as int] < after.t_max
                        && after.waiting.count(c) == 1 && before.waiting.count(c) > 0 && c.group
                        != candidate.group by {
                        assert(before.waiting.count(c) > 0);
                        if c.group == candidate.group {
                            assert(c == candidate);
                        }
                    }
                    assert forall|a: Candidate, b: Candidate| #[trigger]
                        after.waiting.count(a) > 0 && #[trigger] after.waiting.count(b) > 0
                            && a.group == b.group implies a == b by {
                        assert(before.waiting.count(a) > 0 && before.waiting.count(b) > 0);
                    }
                }
                Some(candidate.group)
            },
            None => None,
        }
    }

    /// Gives a group one more plane; `next_gain` is the gain per bit of the plane after it,
    /// where it has one.
    pub fn grant(&mut self, group: usize, next_gain: Option<u64>)
        requires
            old(self).wf(),
            group < old(self)@.counts.len(),
            old(self)@.counts[group as int] < old(self)@.t_max,
            !old(self)@.waits(group),
        ensures
            final(self).wf(),
            final(self)@.t_max == old(self)@.t_max,
            final(self)@.counts == old(self)@.counts.update(
                group as int,
                (old(self)@.counts[group as int] + 1) as usize,
            ),
            final(self)@.waiting == match next_gain {
                Some(gain) => if old(self)@.counts[group as int] + 1 < old(self)@.t_max {
                    old(self)@.waiting.insert(Candidate { gain, group })
                } else {
                    old(self)@.waiting
                },
                None => old(self)@.waiting,
            },
    {
        broadcast use vstd::multiset::group_multiset_axioms;

        let ghost before = self@;
        let count: usize = self.counts[group] + 1;
        self.counts.set(group, count);
        if count < self.t_max {
            match next_gain {
                Some(gain) => {
                    self.queue.push(Candidate { gain, group });
                },
                None => {},
            }
        }
        proof {
            let after = self@;
            assert(after.counts == before.counts.update(group as int, count));
            assert forall|c: Candidate| #[trigger] after.waiting.count(c) > 0 implies c.group
                < after.counts.len() && after.counts[c.group as int] < after.t_max
                && after.waiting.count(c) == 1 by {
                if before.waiting.count(c) > 0 {
                    assert(c.group != group);
                }
            }
            assert forall|a: Candidate, b: Candidate| #[trigger] after.waiting.count(a) > 0
                && #[trigger] after.waiting.count(b) > 0 && a.group == b.group implies a == b by {
                if before.waiting.count(a) > 0 {
                    assert(a.group != group);
                }
                if before.waiting.count(b) > 0 {
                    assert(b.group != group);
                }
            }
        }
    }

    /// Planes of each group so far.
    pub fn plane_counts(&self) -> (counts: &[usize])
        ensures
            counts@ == self@.counts,
    {
        self.counts.as_slice()
    }

    /// The allocation reached.
    pub fn finish(self) -> (allocation: Allocation)
        ensures
            allocation.plane_counts@ == self@.counts,
    {
        Allocation { plane_counts: self.counts }
    }
}

/// No group ever has more planes than the cap, whatever is granted.
pub proof fn filling_stays_below_the_cap(filling: FillingView, group: int)
    requires
        filling.valid(),
        0 <= group < filling.counts.len(),
    ensures
        filling.counts[group] <= filling.t_max,
{
}

/// The group that is offered the next plane is determined by the gains.
pub proof fn next_group_is_determined(filling: FillingView, left: Candidate, right: Candidate)
    requires
        filling.valid(),
        filling.waiting.count(left) > 0,
        filling.waiting.count(right) > 0,
        forall|other: Candidate| #[trigger]
            filling.waiting.count(other) > 0 ==> !served_before(other, left),
        forall|other: Candidate| #[trigger]
            filling.waiting.count(other) > 0 ==> !served_before(other, right),
    ensures
        left == right,
{
    assert(!served_before(left, right) && !served_before(right, left));
    assert(left.group == right.group);
}

} // verus!
