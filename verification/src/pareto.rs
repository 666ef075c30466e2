//! Exact Pareto dynamic program for irregular upgrade costs.

use crate::exact::{exact_sum_fits, ExactDistortion};
use crate::ledger::{copy_planes, distortion_bits_at, lemma_distortion_bound, planes_lex_greater};
use crate::physical::{
    GroupCandidates, PhysicalAllocError, PhysicalBytes, PlaneCandidate, ProfileBudget,
    SaltV2Profile,
};
use crate::plane_model::{
    distortion_fn, feasible, floors_valid, group_valid, groups_valid, in_range, is_best,
    lemma_bytes_monotone, lemma_lex_asymmetric, lemma_lex_total, lemma_lex_transitive,
    lemma_lex_update, lemma_plane_sum_update, lemma_preferred_transitive,
    lemma_prefix_cost_monotone, lex_greater, mode_bytes, plane_sum, preferred, prefix_cost,
    resident_fn, resident_of, serialized_fn, serialized_of, total_distortion, ByteMode,
};
use vstd::prelude::*;

verus! {

/// Bound on the states that one expansion of the frontier may hold.
pub const MAX_EXACT_FRONTIER_STATES: usize = 4_096;

/// Feasible vectors that leave every group from `index` on at its floor.
pub open spec fn reached(
    groups: Seq<GroupCandidates<'_>>,
    floors: Seq<u8>,
    limit: ProfileBudget,
    index: int,
    planes: Seq<u8>,
) -> bool {
    &&& feasible(groups, floors, limit, planes)
    &&& forall|g: int| index <= g < floors.len() ==> #[trigger] planes[g] == floors[g]
}

/// Serialized bytes, resident bytes and exact distortion of a vector.
pub open spec fn triple(
    groups: Seq<GroupCandidates<'_>>,
    limit: ProfileBudget,
    planes: Seq<u8>,
) -> (int, int, int) {
    (
        serialized_of(groups, limit, planes),
        resident_of(groups, limit, planes),
        total_distortion(groups, planes),
    )
}

/// No component is larger.
pub open spec fn triple_le(left: (int, int, int), right: (int, int, int)) -> bool {
    left.0 <= right.0 && left.1 <= right.1 && left.2 <= right.2
}

/// Triples that are reached and that no other reached triple dominates.
pub open spec fn frontier_triples(
    groups: Seq<GroupCandidates<'_>>,
    floors: Seq<u8>,
    limit: ProfileBudget,
    index: int,
) -> Set<(int, int, int)> {
    Set::new(
        |t: (int, int, int)|
            {
                &&& exists|x: Seq<u8>| #[trigger]
                    reached(groups, floors, limit, index, x) && triple(groups, limit, x) == t
                &&& forall|y: Seq<u8>| #[trigger]
                    reached(groups, floors, limit, index, y) && triple_le(
                        triple(groups, limit, y),
                        t,
                    ) ==> triple(groups, limit, y) == t
            },
    )
}

/// Number of states that expanding group `index` holds.
pub open spec fn expanded_states(
    groups: Seq<GroupCandidates<'_>>,
    floors: Seq<u8>,
    limit: ProfileBudget,
    index: int,
) -> int {
    frontier_triples(groups, floors, limit, index).len() * (4 - floors[index])
}

/// Whether appending every remaining plane of one group leaves 64 bits.
pub open spec fn bundle_overflows(
    groups: Seq<GroupCandidates<'_>>,
    floors: Seq<u8>,
    index: int,
) -> bool {
    let fs = serialized_fn(groups, ByteMode::Effective);
    let fr = resident_fn(groups, ByteMode::Effective);
    ||| fs(index, 3) - fs(index, floors[index] as int) > u64::MAX
    ||| fr(index, 3) - fr(index, floors[index] as int) > u64::MAX
}

/// The refusal of the dynamic program from group `index` on, if any.
pub open spec fn pareto_error(
    groups: Seq<GroupCandidates<'_>>,
    floors: Seq<u8>,
    limit: ProfileBudget,
    profile: SaltV2Profile,
    index: int,
) -> Option<PhysicalAllocError>
    decreases groups.len() - index,
{
    if index >= groups.len() {
        None
    } else if floors[index] == 3 {
        pareto_error(groups, floors, limit, profile, index + 1)
    } else if expanded_states(groups, floors, limit, index) > MAX_EXACT_FRONTIER_STATES {
        Some(
            PhysicalAllocError::StateSpaceTooLarge {
                profile,
                states: expanded_states(groups, floors, limit, index) as usize,
            },
        )
    } else if bundle_overflows(groups, floors, index) {
        Some(PhysicalAllocError::AccountingOverflow { profile })
    } else {
        pareto_error(groups, floors, limit, profile, index + 1)
    }
}

/// One vector is no worse than another in every component and wins ties.
pub open spec fn covers(
    groups: Seq<GroupCandidates<'_>>,
    limit: ProfileBudget,
    left: Seq<u8>,
    right: Seq<u8>,
) -> bool {
    &&& triple_le(triple(groups, limit, left), triple(groups, limit, right))
    &&& triple(groups, limit, left) == triple(groups, limit, right) ==> left == right
        || lex_greater(left, right)
}

/// A partial allocation with its exact ledger.
#[derive(Debug)]
struct ExactState {
    bytes: PhysicalBytes,
    distortion: ExactDistortion,
    plane_counts: Vec<u8>,
}

impl ExactState {
    /// The ledger is that of the vector, and the vector is reached.
    spec fn wf(
        self,
        groups: Seq<GroupCandidates<'_>>,
        floors: Seq<u8>,
        limit: ProfileBudget,
        index: int,
    ) -> bool {
        &&& reached(groups, floors, limit, index, self.plane_counts@)
        &&& self.bytes.serialized == serialized_of(groups, limit, self.plane_counts@)
        &&& self.bytes.resident == resident_of(groups, limit, self.plane_counts@)
        &&& self.distortion.value() == total_distortion(groups, self.plane_counts@)
    }
}

spec fn states_wf(
    states: Seq<ExactState>,
    groups: Seq<GroupCandidates<'_>>,
    floors: Seq<u8>,
    limit: ProfileBudget,
    index: int,
) -> bool {
    forall|k: int| 0 <= k < states.len() ==> #[trigger] states[k].wf(groups, floors, limit, index)
}

spec fn covered(
    states: Seq<ExactState>,
    groups: Seq<GroupCandidates<'_>>,
    limit: ProfileBudget,
    planes: Seq<u8>,
) -> bool {
    exists|k: int|
        0 <= k < states.len() && #[trigger] covers(groups, limit, states[k].plane_counts@, planes)
}

spec fn antichain(
    states: Seq<ExactState>,
    groups: Seq<GroupCandidates<'_>>,
    limit: ProfileBudget,
) -> bool {
    forall|a: int, b: int|
        0 <= a < states.len() && 0 <= b < states.len() && a != b ==> !triple_le(
            triple(groups, limit, #[trigger] states[a].plane_counts@),
            triple(groups, limit, #[trigger] states[b].plane_counts@),
        )
}

/// A frontier holds well-formed states, covers everything reached and holds no
/// dominated state.
spec fn frontier_wf(
    states: Seq<ExactState>,
    groups: Seq<GroupCandidates<'_>>,
    floors: Seq<u8>,
    limit: ProfileBudget,
    index: int,
) -> bool {
    &&& states_wf(states, groups, floors, limit, index)
    &&& antichain(states, groups, limit)
    &&& forall|y: Seq<u8>| #[trigger]
        reached(groups, floors, limit, index, y) ==> covered(states, groups, limit, y)
}

/// The state stands at or behind `start` in `all`.
spec fn drawn(all: Seq<ExactState>, start: int, state: ExactState) -> bool {
    exists|k: int| start <= k < all.len() && #[trigger] all[k] == state
}

proof fn lemma_covers_transitive(
    groups: Seq<GroupCandidates<'_>>,
    limit: ProfileBudget,
    a: Seq<u8>,
    b: Seq<u8>,
    c: Seq<u8>,
)
    requires
        a.len() == b.len(),
        b.len() == c.len(),
        covers(groups, limit, a, b),
        covers(groups, limit, b, c),
    ensures
        covers(groups, limit, a, c),
{
    if triple(groups, limit, a) == triple(groups, limit, c) {
        if lex_greater(a, b) && lex_greater(b, c) {
            lemma_lex_transitive(a, b, c);
        }
    }
}

proof fn lemma_frontier_size(
    states: Seq<ExactState>,
    groups: Seq<GroupCandidates<'_>>,
    floors: Seq<u8>,
    limit: ProfileBudget,
    index: int,
)
    requires
        frontier_wf(states, groups, floors, limit, index),
    ensures
        frontier_triples(groups, floors, limit, index).len() == states.len(),
{
    let triples = Seq::new(
        states.len(),
        |k: int| triple(groups, limit, states[k].plane_counts@),
    );
    let nondominated = frontier_triples(groups, floors, limit, index);
    assert(triples.no_duplicates()) by {
        assert forall|a: int, b: int|
            0 <= a < triples.len() && 0 <= b < triples.len() && a != b implies triples[a]
            != triples[b] by {
            assert(!triple_le(
                triple(groups, limit, states[a].plane_counts@),
                triple(groups, limit, states[b].plane_counts@),
            ));
        }
    }
    assert forall|t: (int, int, int)| #[trigger] triples.to_set().contains(t)
        == nondominated.contains(t) by {
        if triples.contains(t) {
            let k = choose|k: int| 0 <= k < triples.len() && triples[k] == t;
            let x = states[k].plane_counts@;
            assert(states[k].wf(groups, floors, limit, index));
            assert(reached(groups, floors, limit, index, x));
            assert forall|y: Seq<u8>| #[trigger]
                reached(groups, floors, limit, index, y) && triple_le(
                    triple(groups, limit, y),
                    t,
                ) implies triple(groups, limit, y) == t by {
                assert(covered(states, groups, limit, y));
                let m = choose|m: int|
                    0 <= m < states.len() && #[trigger] covers(
                        groups,
                        limit,
                        states[m].plane_counts@,
                        y,
                    );
                if m != k {
                    assert(!triple_le(
                        triple(groups, limit, states[m].plane_counts@),
                        triple(groups, limit, states[k].plane_counts@),
                    ));
                }
            }
        }
        if nondominated.contains(t) {
            let x = choose|x: Seq<u8>| #[trigger]
                reached(groups, floors, limit, index, x) && triple(groups, limit, x) == t;
            assert(covered(states, groups, limit, x));
            let k = choose|k: int|
                0 <= k < states.len() && #[trigger] covers(
                    groups,
                    limit,
                    states[k].plane_counts@,
                    x,
                );
            assert(states[k].wf(groups, floors, limit, index));
            assert(reached(groups, floors, limit, index, states[k].plane_counts@));
            assert(triples[k] == t);
            assert(triples.contains(t));
        }
    }
    assert(triples.to_set() =~= nondominated);
    triples.unique_seq_to_set();
}

/// Whether `left` covers `right`.
fn state_covers(
    left: &ExactState,
    right: &ExactState,
    groups: &[GroupCandidates<'_>],
    floors: &[u8],
    limit: ProfileBudget,
    Ghost(index): Ghost<int>,
) -> (result: bool)
    requires
        left.wf(groups@, floors@, limit, index),
        right.wf(groups@, floors@, limit, index),
    ensures
        result == covers(groups@, limit, left.plane_counts@, right.plane_counts@),
{
    if left.bytes.serialized > right.bytes.serialized || left.bytes.resident
        > right.bytes.resident {
        return false;
    }
    if right.distortion.less_than(&left.distortion) {
        return false;
    }
    if left.bytes.serialized < right.bytes.serialized || left.bytes.resident
        < right.bytes.resident || left.distortion.less_than(&right.distortion) {
        return true;
    }
    let behind = planes_lex_greater(&right.plane_counts, &left.plane_counts);
    proof {
        lemma_lex_total(left.plane_counts@, right.plane_counts@, 0);
        if behind {
            lemma_lex_asymmetric(right.plane_counts@, left.plane_counts@);
        } else if lex_greater(left.plane_counts@, right.plane_counts@) {
            lemma_lex_asymmetric(left.plane_counts@, right.plane_counts@);
        }
    }
    !behind
}

/// Add one state to a frontier, dropping what it covers, unless it is covered.
fn insert_state(
    kept: Vec<ExactState>,
    state: ExactState,
    groups: &[GroupCandidates<'_>],
    floors: &[u8],
    limit: ProfileBudget,
    Ghost(index): Ghost<int>,
) -> (result: Vec<ExactState>)
    requires
        states_wf(kept@, groups@, floors@, limit, index),
        antichain(kept@, groups@, limit),
        state.wf(groups@, floors@, limit, index),
    ensures
        result@.len() <= kept@.len() + 1,
        states_wf(result@, groups@, floors@, limit, index),
        antichain(result@, groups@, limit),
        covered(result@, groups@, limit, state.plane_counts@),
        forall|y: Seq<u8>|
            y.len() == floors@.len() && #[trigger] covered(kept@, groups@, limit, y) ==> covered(
                result@,
                groups@,
                limit,
                y,
            ),
{
    let mut position: usize = 0;
    while position < kept.len()
        invariant
            position <= kept.len(),
            states_wf(kept@, groups@, floors@, limit, index),
            antichain(kept@, groups@, limit),
            state.wf(groups@, floors@, limit, index),
            forall|k: int|
                0 <= k < position ==> !covers(
                    groups@,
                    limit,
                    #[trigger] kept@[k].plane_counts@,
                    state.plane_counts@,
                ),
        decreases kept.len() - position,
    {
        assert(kept@[position as int].wf(groups@, floors@, limit, index));
        if state_covers(&kept[position], &state, groups, floors, limit, Ghost(index)) {
            return kept;
        }
        position = position + 1;
    }
    let ghost all = kept@;
    let ghost fresh = state.plane_counts@;
    let mut rest = kept;
    let mut result: Vec<ExactState> = Vec::new();
    while rest.len() > 0
        invariant
            rest@.len() <= all.len(),
            result@.len() + rest@.len() <= all.len(),
            rest@ == all.take(rest@.len() as int),
            states_wf(all, groups@, floors@, limit, index),
            state.wf(groups@, floors@, limit, index),
            fresh == state.plane_counts@,
            states_wf(result@, groups@, floors@, limit, index),
            forall|r: int|
                0 <= r < result@.len() ==> !covers(
                    groups@,
                    limit,
                    fresh,
                    #[trigger] result@[r].plane_counts@,
                ),
            forall|r: int|
                0 <= r < result@.len() ==> drawn(all, rest@.len() as int, #[trigger] result@[r]),
            forall|r: int, s: int|
                0 <= r < result@.len() && 0 <= s < result@.len() && r != s ==> !triple_le(
                    triple(groups@, limit, #[trigger] result@[r].plane_counts@),
                    triple(groups@, limit, #[trigger] result@[s].plane_counts@),
                ),
            antichain(all, groups@, limit),
            forall|k: int|
                rest@.len() <= k < all.len() ==> covers(groups@, limit, fresh, (
                #[trigger] all[k]).plane_counts@) || result@.contains(all[k]),
        decreases rest.len(),
    {
        let ghost last = rest@.len() - 1;
        let candidate = rest.pop().unwrap();
        assert(rest@ =~= all.take(last as int));
        assert(candidate == all[last as int]);
        assert(all[last as int].wf(groups@, floors@, limit, index));
        if !state_covers(&state, &candidate, groups, floors, limit, Ghost(index)) {
            let ghost before = result@;
            proof {
                assert forall|r: int| 0 <= r < before.len() implies !triple_le(
                    triple(groups@, limit, #[trigger] before[r].plane_counts@),
                    triple(groups@, limit, candidate.plane_counts@),
                ) && !triple_le(
                    triple(groups@, limit, candidate.plane_counts@),
                    triple(groups@, limit, before[r].plane_counts@),
                ) by {
                    assert(drawn(all, last + 1, before[r]));
                    let k = choose|k: int|
                        last + 1 <= k < all.len() && #[trigger] all[k] == before[r];
                    assert(all[k].plane_counts@ == before[r].plane_counts@);
                    assert(all[last as int].plane_counts@ == candidate.plane_counts@);
                }
            }
            result.push(candidate);
            proof {
                assert forall|k: int| last <= k < all.len() implies covers(
                    groups@,
                    limit,
                    fresh,
                    (#[trigger] all[k]).plane_counts@,
                ) || result@.contains(all[k]) by {
                    if k == last {
                        assert(result@[before.len() as int] == all[k]);
                    } else if !covers(groups@, limit, fresh, all[k].plane_counts@) {
                        let r = choose|r: int| 0 <= r < before.len() && before[r] == all[k];
                        assert(result@[r] == all[k]);
                    }
                }
                assert forall|r: int| 0 <= r < result@.len() implies drawn(
                    all,
                    last as int,
                    #[trigger] result@[r],
                ) by {
                    if r < before.len() {
                        assert(result@[r] == before[r]);
                        assert(drawn(all, last + 1, before[r]));
                    } else {
                        assert(all[last as int] == result@[r]);
                    }
                }
            }
        }
    }
    let ghost survivors = result@;
    result.push(state);
    proof {
        let new = survivors.len() as int;
        assert(result@[new] == state);
        assert(covers(groups@, limit, result@[new].plane_counts@, fresh));
        assert forall|a: int, b: int|
            0 <= a < result@.len() && 0 <= b < result@.len() && a != b implies !triple_le(
            triple(groups@, limit, #[trigger] result@[a].plane_counts@),
            triple(groups@, limit, #[trigger] result@[b].plane_counts@),
        ) by {
            let other = if a == new {
                b
            } else {
                a
            };
            if a == new || b == new {
                assert(result@[other] == survivors[other]);
                assert(drawn(all, 0, survivors[other]));
                let k = choose|k: int| 0 <= k < all.len() && #[trigger] all[k] == survivors[other];
                let x = survivors[other].plane_counts@;
                assert(all[k].plane_counts@ == x);
                assert(!covers(groups@, limit, all[k].plane_counts@, fresh));
                assert(!covers(groups@, limit, fresh, x));
                assert(all[k].wf(groups@, floors@, limit, index));
                lemma_lex_total(x, fresh, 0);
            } else {
                assert(result@[a] == survivors[a]);
                assert(result@[b] == survivors[b]);
            }
        }
        assert forall|y: Seq<u8>|
            y.len() == floors@.len() && #[trigger] covered(all, groups@, limit, y) implies covered(
            result@,
            groups@,
            limit,
            y,
        ) by {
            let k = choose|k: int|
                0 <= k < all.len() && #[trigger] covers(groups@, limit, all[k].plane_counts@, y);
            assert(all[k].wf(groups@, floors@, limit, index));
            if covers(groups@, limit, fresh, all[k].plane_counts@) {
                lemma_covers_transitive(groups@, limit, fresh, all[k].plane_counts@, y);
                assert(covers(groups@, limit, result@[new].plane_counts@, y));
            } else {
                let r = choose|r: int| 0 <= r < survivors.len() && survivors[r] == all[k];
                assert(result@[r] == survivors[r]);
                assert(covers(groups@, limit, result@[r].plane_counts@, y));
            }
        }
    }
    result
}

/// Keep the states that no other state covers.
fn pareto_prune(
    states: Vec<ExactState>,
    groups: &[GroupCandidates<'_>],
    floors: &[u8],
    limit: ProfileBudget,
    Ghost(index): Ghost<int>,
) -> (kept: Vec<ExactState>)
    requires
        states_wf(states@, groups@, floors@, limit, index),
    ensures
        kept@.len() <= states@.len(),
        states_wf(kept@, groups@, floors@, limit, index),
        antichain(kept@, groups@, limit),
        forall|y: Seq<u8>|
            y.len() == floors@.len() && #[trigger] covered(states@, groups@, limit, y) ==> covered(
                kept@,
                groups@,
                limit,
                y,
            ),
{
    let ghost all = states@;
    let mut rest = states;
    let mut kept: Vec<ExactState> = Vec::new();
    while rest.len() > 0
        invariant
            rest@.len() <= all.len(),
            kept@.len() + rest@.len() <= all.len(),
            rest@ == all.take(rest@.len() as int),
            states_wf(all, groups@, floors@, limit, index),
            states_wf(kept@, groups@, floors@, limit, index),
            antichain(kept@, groups@, limit),
            forall|k: int|
                rest@.len() <= k < all.len() ==> covered(
                    kept@,
                    groups@,
                    limit,
                    (#[trigger] all[k]).plane_counts@,
                ),
        decreases rest.len(),
    {
        let ghost last = rest@.len() - 1;
        let state = rest.pop().unwrap();
        assert(rest@ =~= all.take(last as int));
        assert(all[last as int].wf(groups@, floors@, limit, index));
        let ghost before = kept@;
        kept = insert_state(kept, state, groups, floors, limit, Ghost(index));
        assert forall|k: int| last <= k < all.len() implies covered(
            kept@,
            groups@,
            limit,
            (#[trigger] all[k]).plane_counts@,
        ) by {
            assert(all[k].wf(groups@, floors@, limit, index));
            if k > last {
                assert(covered(before, groups@, limit, all[k].plane_counts@));
            }
        }
    }
    assert forall|y: Seq<u8>|
        y.len() == floors@.len() && #[trigger] covered(all, groups@, limit, y) implies covered(
        kept@,
        groups@,
        limit,
        y,
    ) by {
        let k = choose|k: int|
            0 <= k < all.len() && #[trigger] covers(groups@, limit, all[k].plane_counts@, y);
        assert(all[k].wf(groups@, floors@, limit, index));
        assert(covered(kept@, groups@, limit, all[k].plane_counts@));
        let m = choose|m: int|
            0 <= m < kept@.len() && #[trigger] covers(
                groups@,
                limit,
                kept@[m].plane_counts@,
                all[k].plane_counts@,
            );
        assert(kept@[m].wf(groups@, floors@, limit, index));
        lemma_covers_transitive(
            groups@,
            limit,
            kept@[m].plane_counts@,
            all[k].plane_counts@,
            y,
        );
    }
    kept
}

/// Bytes of appending planes `from + 1 ..= to`; `None` past 64 bits.
fn bundle_bytes(
    groups: &[GroupCandidates<'_>],
    group: usize,
    from: u8,
    to: u8,
) -> (bytes: Option<PhysicalBytes>)
    requires
        group < groups@.len(),
        group_valid(groups@[group as int].candidates@),
        1 <= from <= to <= 3,
    ensures
        ({
            let fs = serialized_fn(groups@, ByteMode::Effective);
            let fr = resident_fn(groups@, ByteMode::Effective);
            let s = fs(group as int, to as int) - fs(group as int, from as int);
            let r = fr(group as int, to as int) - fr(group as int, from as int);
            &&& bytes is Some <==> s <= u64::MAX && r <= u64::MAX
            &&& bytes matches Some(b) ==> b.serialized == s && b.resident == r
        }),
{
    let candidates: &[PlaneCandidate] = groups[group].candidates;
    let ghost cs = |q: int|
        mode_bytes(
            ByteMode::Effective,
            groups@[group as int].candidates@[q].byte_delta,
        ).serialized as int;
    let ghost cr = |q: int|
        mode_bytes(
            ByteMode::Effective,
            groups@[group as int].candidates@[q].byte_delta,
        ).resident as int;
    let mut total = PhysicalBytes::zero();
    let mut plane: u8 = from;
    while plane < to
        invariant
            1 <= from <= plane <= to <= 3,
            candidates@.len() == 3,
            candidates@ == groups@[group as int].candidates@,
            cs == (|q: int|
                mode_bytes(
                    ByteMode::Effective,
                    groups@[group as int].candidates@[q].byte_delta,
                ).serialized as int),
            cr == (|q: int|
                mode_bytes(
                    ByteMode::Effective,
                    groups@[group as int].candidates@[q].byte_delta,
                ).resident as int),
            total.serialized == prefix_cost(cs, plane as int) - prefix_cost(cs, from as int),
            total.resident == prefix_cost(cr, plane as int) - prefix_cost(cr, from as int),
        decreases to - plane,
    {
        let delta = candidates[plane as usize].byte_delta.effective();
        assert(delta.serialized == cs(plane as int));
        assert(delta.resident == cr(plane as int));
        match total.checked_add(delta) {
            None => {
                proof {
                    lemma_prefix_cost_monotone(cs, plane + 1, to as int);
                    lemma_prefix_cost_monotone(cr, plane + 1, to as int);
                }
                return None;
            },
            Some(sum) => {
                total = sum;
            },
        }
        plane = plane + 1;
    }
    Some(total)
}

/// Setting one floor group to `value` moves the ledger by that group alone.
proof fn lemma_raise(
    groups: Seq<GroupCandidates<'_>>,
    floors: Seq<u8>,
    limit: ProfileBudget,
    planes: Seq<u8>,
    index: int,
    value: u8,
)
    requires
        groups_valid(groups),
        floors_valid(groups, floors),
        in_range(floors, planes),
        0 <= index < floors.len(),
        planes[index] == floors[index],
        floors[index] <= value <= 3,
    ensures
        in_range(floors, planes.update(index, value)),
        serialized_of(groups, limit, planes.update(index, value)) == serialized_of(
            groups,
            limit,
            planes,
        ) + serialized_fn(groups, ByteMode::Effective)(index, value as int) - serialized_fn(
            groups,
            ByteMode::Effective,
        )(index, floors[index] as int),
        resident_of(groups, limit, planes.update(index, value)) == resident_of(
            groups,
            limit,
            planes,
        ) + resident_fn(groups, ByteMode::Effective)(index, value as int) - resident_fn(
            groups,
            ByteMode::Effective,
        )(index, floors[index] as int),
        total_distortion(groups, planes.update(index, value)) == total_distortion(groups, planes)
            + distortion_fn(groups)(index, value as int) - distortion_fn(groups)(
            index,
            floors[index] as int,
        ),
{
    let n = planes.len() as int;
    lemma_plane_sum_update(
        serialized_fn(groups, ByteMode::Effective),
        planes,
        n,
        index,
        value,
    );
    lemma_plane_sum_update(resident_fn(groups, ByteMode::Effective), planes, n, index, value);
    lemma_plane_sum_update(distortion_fn(groups), planes, n, index, value);
    let raised = planes.update(index, value);
    assert forall|g: int| 0 <= g < floors.len() implies floors[g] <= #[trigger] raised[g] <= 3 by {
        if g != index {
            assert(floors[g] <= planes[g] <= 3);
        }
    }
}

/// Every vector reached one group later is covered by raising a covered state.
proof fn lemma_expansion_covers(
    states: Seq<ExactState>,
    next: Seq<ExactState>,
    groups: Seq<GroupCandidates<'_>>,
    floors: Seq<u8>,
    limit: ProfileBudget,
    index: int,
    y: Seq<u8>,
)
    requires
        groups_valid(groups),
        floors_valid(groups, floors),
        0 <= index < floors.len(),
        frontier_wf(states, groups, floors, limit, index),
        forall|k: int, p: u8|
            0 <= k < states.len() && floors[index] <= p <= 3 && feasible(
                groups,
                floors,
                limit,
                #[trigger] states[k].plane_counts@.update(index, p),
            ) ==> exists|m: int|
                0 <= m < next.len() && #[trigger] next[m].plane_counts@
                    == states[k].plane_counts@.update(index, p),
        reached(groups, floors, limit, index + 1, y),
    ensures
        covered(next, groups, limit, y),
{
    let p = y[index];
    let base = y.update(index, floors[index]);
    assert(floors[index] <= y[index] <= 3);
    assert forall|g: int| 0 <= g < floors.len() implies #[trigger] base[g] <= y[g] by {}
    lemma_bytes_monotone(groups, limit, base, y);
    assert(in_range(floors, base)) by {
        assert forall|g: int| 0 <= g < floors.len() implies floors[g] <= #[trigger] base[g]
            <= 3 by {
            assert(floors[g] <= y[g] <= 3);
            assert(1 <= floors[g] <= 3);
        }
    }
    assert(reached(groups, floors, limit, index, base)) by {
        assert forall|g: int| index <= g < floors.len() implies #[trigger] base[g]
            == floors[g] by {
            if g > index {
                assert(y[g] == floors[g]);
            }
        }
    }
    assert(covered(states, groups, limit, base));
    let k = choose|k: int|
        0 <= k < states.len() && #[trigger] covers(groups, limit, states[k].plane_counts@, base);
    let x = states[k].plane_counts@;
    assert(states[k].wf(groups, floors, limit, index));
    assert(x[index] == floors[index]);
    let raised = x.update(index, p);
    assert(base.update(index, p) =~= y);
    lemma_raise(groups, floors, limit, x, index, p);
    lemma_raise(groups, floors, limit, base, index, p);
    if lex_greater(x, base) {
        lemma_lex_update(x, base, index, p);
    }
    assert(covers(groups, limit, raised, y));
    assert(feasible(groups, floors, limit, raised));
    let m = choose|m: int| 0 <= m < next.len() && #[trigger] next[m].plane_counts@ == raised;
    assert(covers(groups, limit, next[m].plane_counts@, y));
}

/// The best vector of a covering frontier is the best vector.
proof fn lemma_cover_is_preferred(
    groups: Seq<GroupCandidates<'_>>,
    limit: ProfileBudget,
    left: Seq<u8>,
    right: Seq<u8>,
)
    requires
        covers(groups, limit, left, right),
    ensures
        left == right || preferred(groups, limit, left, right),
{
}

/// Whether one state is strictly preferred.
fn state_preferred(
    left: &ExactState,
    right: &ExactState,
    groups: &[GroupCandidates<'_>],
    floors: &[u8],
    limit: ProfileBudget,
    Ghost(index): Ghost<int>,
) -> (result: bool)
    requires
        left.wf(groups@, floors@, limit, index),
        right.wf(groups@, floors@, limit, index),
    ensures
        result == preferred(groups@, limit, left.plane_counts@, right.plane_counts@),
{
    if left.distortion.less_than(&right.distortion) {
        return true;
    }
    if right.distortion.less_than(&left.distortion) {
        return false;
    }
    if left.bytes.serialized != right.bytes.serialized {
        return left.bytes.serialized < right.bytes.serialized;
    }
    if left.bytes.resident != right.bytes.resident {
        return left.bytes.resident < right.bytes.resident;
    }
    planes_lex_greater(&left.plane_counts, &right.plane_counts)
}

/// Expand every state of a frontier by every plane count of one group.
fn expand_group(
    frontier: &Vec<ExactState>,
    groups: &[GroupCandidates<'_>],
    floors: &[u8],
    limit: ProfileBudget,
    group: usize,
) -> (next: Option<Vec<ExactState>>)
    requires
        groups_valid(groups@),
        floors_valid(groups@, floors@),
        group < groups@.len(),
        floors@[group as int] < 3,
        frontier@.len() > 0,
        frontier_wf(frontier@, groups@, floors@, limit, group as int),
    ensures
        next is None <==> bundle_overflows(groups@, floors@, group as int),
        next matches Some(states) ==> {
            &&& states@.len() <= frontier@.len() * (4 - floors@[group as int])
            &&& states_wf(states@, groups@, floors@, limit, group + 1)
            &&& forall|y: Seq<u8>| #[trigger]
                reached(groups@, floors@, limit, group + 1, y) ==> covered(
                    states@,
                    groups@,
                    limit,
                    y,
                )
        },
{
    assert(group_valid(groups@[group as int].candidates@));
    let floor: u8 = floors[group];
    assert(1 <= floors@[group as int]);
    let ghost fs = serialized_fn(groups@, ByteMode::Effective);
    let ghost fr = resident_fn(groups@, ByteMode::Effective);
    if bundle_bytes(groups, group, floor, 3).is_none() {
        return None;
    }
    let mut next: Vec<ExactState> = Vec::new();
    let mut position: usize = 0;
    while position < frontier.len()
        invariant
            position <= frontier.len(),
            next@.len() <= position * (4 - floor),
            groups_valid(groups@),
            floors_valid(groups@, floors@),
            group < groups@.len(),
            floor == floors@[group as int],
            1 <= floor < 3,
            fs == serialized_fn(groups@, ByteMode::Effective),
            fr == resident_fn(groups@, ByteMode::Effective),
            !bundle_overflows(groups@, floors@, group as int),
            group_valid(groups@[group as int].candidates@),
            frontier_wf(frontier@, groups@, floors@, limit, group as int),
            states_wf(next@, groups@, floors@, limit, group + 1),
            forall|k: int, p: u8|
                0 <= k < position && floor <= p <= 3 && feasible(
                    groups@,
                    floors@,
                    limit,
                    #[trigger] frontier@[k].plane_counts@.update(group as int, p),
                ) ==> exists|m: int|
                    0 <= m < next@.len() && #[trigger] next@[m].plane_counts@
                        == frontier@[k].plane_counts@.update(group as int, p),
        decreases frontier.len() - position,
    {
        let state = &frontier[position];
        assert(frontier@[position as int].wf(groups@, floors@, limit, group as int));
        let ghost x = state.plane_counts@;
        let mut planes: u8 = floor;
        while planes <= 3
            invariant
                floor <= planes <= 4,
                next@.len() <= position * (4 - floor) + (planes - floor),
                position < frontier.len(),
                *state == frontier@[position as int],
                x == state.plane_counts@,
                state.wf(groups@, floors@, limit, group as int),
                groups_valid(groups@),
                floors_valid(groups@, floors@),
                group < groups@.len(),
                floor == floors@[group as int],
                1 <= floor < 3,
                fs == serialized_fn(groups@, ByteMode::Effective),
                fr == resident_fn(groups@, ByteMode::Effective),
                !bundle_overflows(groups@, floors@, group as int),
                group_valid(groups@[group as int].candidates@),
                states_wf(next@, groups@, floors@, limit, group + 1),
                forall|k: int, p: u8|
                    0 <= k < position && floor <= p <= 3 && feasible(
                        groups@,
                        floors@,
                        limit,
                        #[trigger] frontier@[k].plane_counts@.update(group as int, p),
                    ) ==> exists|m: int|
                        0 <= m < next@.len() && #[trigger] next@[m].plane_counts@
                            == frontier@[k].plane_counts@.update(group as int, p),
                forall|p: u8|
                    floor <= p < planes && feasible(
                        groups@,
                        floors@,
                        limit,
                        #[trigger] x.update(group as int, p),
                    ) ==> exists|m: int|
                        0 <= m < next@.len() && #[trigger] next@[m].plane_counts@ == x.update(
                            group as int,
                            p,
                        ),
            decreases 4 - planes,
        {
            let ghost raised = x.update(group as int, planes);
            proof {
                assert(x[group as int] == floors@[group as int]);
                lemma_raise(groups@, floors@, limit, x, group as int, planes);
                let cs = |q: int|
                    mode_bytes(
                        ByteMode::Effective,
                        groups@[group as int].candidates@[q].byte_delta,
                    ).serialized as int;
                let cr = |q: int|
                    mode_bytes(
                        ByteMode::Effective,
                        groups@[group as int].candidates@[q].byte_delta,
                    ).resident as int;
                lemma_prefix_cost_monotone(cs, planes as int, 3);
                lemma_prefix_cost_monotone(cr, planes as int, 3);
            }
            let delta = bundle_bytes(groups, group, floor, planes).unwrap();
            let ghost before = next@;
            if let Some(bytes) = state.bytes.checked_add(delta) {
                if bytes.fits_within(limit.maximum) {
                    let low: u64 = distortion_bits_at(&groups[group], floor);
                    let high: u64 = distortion_bits_at(&groups[group], planes);
                    let dropped = ExactDistortion::from_f64_bits(low).unwrap();
                    proof {
                        let zero = x.update(group as int, floor);
                        lemma_group_share(groups@, floors@, x, group as int);
                        lemma_distortion_bound(groups@, raised, groups@.len() as int);
                        exact_sum_fits(
                            total_distortion(groups@, raised) as nat,
                            groups@.len(),
                        );
                    }
                    let without = state.distortion.checked_sub(dropped).unwrap();
                    let distortion = without.checked_add_f64_bits(high).unwrap();
                    let mut plane_counts: Vec<u8> = copy_planes(&state.plane_counts);
                    plane_counts.set(group, planes);
                    next.push(ExactState { bytes, distortion, plane_counts });
                    proof {
                        let added = next@[before.len() as int];
                        assert(added.plane_counts@ == raised);
                        assert forall|g: int| group + 1 <= g < floors@.len() implies
                            #[trigger] raised[g] == floors@[g] by {
                            assert(x[g] == floors@[g]);
                        }
                        assert(added.wf(groups@, floors@, limit, group + 1));
                    }
                }
            }
            proof {
                assert forall|k: int, p: u8|
                    0 <= k < position && floor <= p <= 3 && feasible(
                        groups@,
                        floors@,
                        limit,
                        #[trigger] frontier@[k].plane_counts@.update(group as int, p),
                    ) implies exists|m: int|
                    0 <= m < next@.len() && #[trigger] next@[m].plane_counts@
                        == frontier@[k].plane_counts@.update(group as int, p) by {
                    let m = choose|m: int|
                        0 <= m < before.len() && #[trigger] before[m].plane_counts@
                            == frontier@[k].plane_counts@.update(group as int, p);
                    assert(next@[m] == before[m]);
                }
                assert forall|p: u8|
                    floor <= p <= planes && feasible(
                        groups@,
                        floors@,
                        limit,
                        #[trigger] x.update(group as int, p),
                    ) implies exists|m: int|
                    0 <= m < next@.len() && #[trigger] next@[m].plane_counts@ == x.update(
                        group as int,
                        p,
                    ) by {
                    if p < planes {
                        let m = choose|m: int|
                            0 <= m < before.len() && #[trigger] before[m].plane_counts@
                                == x.update(group as int, p);
                        assert(next@[m] == before[m]);
                    } else {
                        assert(next@[before.len() as int].plane_counts@ == raised);
                    }
                }
            }
            planes = planes + 1;
        }
        assert(position * (4 - floor) + (4 - floor) == (position + 1) * (4 - floor))
            by (nonlinear_arith);
        position = position + 1;
    }
    assert forall|y: Seq<u8>| #[trigger]
        reached(groups@, floors@, limit, group + 1, y) implies covered(
        next@,
        groups@,
        limit,
        y,
    ) by {
        lemma_expansion_covers(frontier@, next@, groups@, floors@, limit, group as int, y);
    }
    Some(next)
}

/// One group's distortion is a share of the total.
proof fn lemma_group_share(
    groups: Seq<GroupCandidates<'_>>,
    floors: Seq<u8>,
    planes: Seq<u8>,
    group: int,
)
    requires
        groups_valid(groups),
        floors_valid(groups, floors),
        in_range(floors, planes),
        0 <= group < groups.len(),
    ensures
        total_distortion(groups, planes) >= distortion_fn(groups)(group, planes[group] as int),
        floors_valid(groups, planes),
{
    assert forall|g: int| 0 <= g < planes.len() implies 1 <= #[trigger] planes[g] <= 3 by {
        assert(floors[g] <= planes[g] <= 3);
        assert(1 <= floors[g]);
    }
    lemma_share(groups, planes, groups.len() as int, group);
}

proof fn lemma_share(
    groups: Seq<GroupCandidates<'_>>,
    planes: Seq<u8>,
    count: int,
    group: int,
)
    requires
        groups_valid(groups),
        floors_valid(groups, planes),
        0 <= group < count <= groups.len(),
    ensures
        plane_sum(distortion_fn(groups), planes, count) >= distortion_fn(groups)(
            group,
            planes[group] as int,
        ),
    decreases count,
{
    lemma_distortion_bound(groups, planes, count - 1);
    assert(group_valid(groups[count - 1].candidates@));
    assert(1 <= planes[count - 1] <= 3);
    if group < count - 1 {
        lemma_share(groups, planes, count - 1, group);
    }
}

/// Solve the general problem over a bounded exact frontier.
pub fn bounded_exact_plane_counts(
    groups: &[GroupCandidates<'_>],
    floors: &[u8],
    limit: ProfileBudget,
    minimum: PhysicalBytes,
    distortion: ExactDistortion,
    profile: SaltV2Profile,
) -> (result: Result<Vec<u8>, PhysicalAllocError>)
    requires
        groups_valid(groups@),
        floors_valid(groups@, floors@),
        feasible(groups@, floors@, limit, floors@),
        minimum.serialized == serialized_of(groups@, limit, floors@),
        minimum.resident == resident_of(groups@, limit, floors@),
        distortion.value() == total_distortion(groups@, floors@),
    ensures
        match result {
            Ok(planes) => pareto_error(groups@, floors@, limit, profile, 0) is None && is_best(
                groups@,
                floors@,
                limit,
                planes@,
            ),
            Err(error) => pareto_error(groups@, floors@, limit, profile, 0) == Some(error),
        },
{
    let mut frontier: Vec<ExactState> = Vec::new();
    frontier.push(
        ExactState { bytes: minimum, distortion, plane_counts: copy_planes(floors) },
    );
    proof {
        assert(frontier@[0].wf(groups@, floors@, limit, 0));
        assert forall|y: Seq<u8>| #[trigger]
            reached(groups@, floors@, limit, 0, y) implies covered(
            frontier@,
            groups@,
            limit,
            y,
        ) by {
            assert(y =~= floors@);
            assert(covers(groups@, limit, frontier@[0].plane_counts@, y));
        }
    }
    let mut group: usize = 0;
    while group < groups.len()
        invariant
            group <= groups.len(),
            groups_valid(groups@),
            floors_valid(groups@, floors@),
            feasible(groups@, floors@, limit, floors@),
            frontier@.len() > 0,
            frontier@.len() <= MAX_EXACT_FRONTIER_STATES,
            frontier_wf(frontier@, groups@, floors@, limit, group as int),
            pareto_error(groups@, floors@, limit, profile, 0) == pareto_error(
                groups@,
                floors@,
                limit,
                profile,
                group as int,
            ),
        decreases groups.len() - group,
    {
        assert(1 <= floors@[group as int] <= 3);
        if floors[group] == 3 {
            proof {
                let old_index = group as int;
                assert forall|k: int| 0 <= k < frontier@.len() implies
                    #[trigger] frontier@[k].wf(groups@, floors@, limit, old_index + 1) by {
                    assert(frontier@[k].wf(groups@, floors@, limit, old_index));
                }
                assert forall|y: Seq<u8>| #[trigger]
                    reached(groups@, floors@, limit, old_index + 1, y) implies covered(
                    frontier@,
                    groups@,
                    limit,
                    y,
                ) by {
                    assert(floors@[old_index] <= y[old_index] <= 3);
                    assert(reached(groups@, floors@, limit, old_index, y));
                }
            }
            group = group + 1;
            continue ;
        }
        let choices: usize = 4 - floors[group] as usize;
        assert(frontier@.len() * choices <= 4 * MAX_EXACT_FRONTIER_STATES) by (nonlinear_arith)
            requires
                frontier@.len() <= MAX_EXACT_FRONTIER_STATES,
                choices <= 4,
        ;
        let expanded: usize = frontier.len() * choices;
        proof {
            lemma_frontier_size(frontier@, groups@, floors@, limit, group as int);
        }
        if expanded > MAX_EXACT_FRONTIER_STATES {
            return Err(PhysicalAllocError::StateSpaceTooLarge { profile, states: expanded });
        }
        match expand_group(&frontier, groups, floors, limit, group) {
            None => {
                return Err(PhysicalAllocError::AccountingOverflow { profile });
            },
            Some(next) => {
                frontier = pareto_prune(next, groups, floors, limit, Ghost(group + 1));
                proof {
                    assert forall|y: Seq<u8>| #[trigger]
                        reached(groups@, floors@, limit, group + 1, y) implies covered(
                        frontier@,
                        groups@,
                        limit,
                        y,
                    ) by {
                        assert(covered(next@, groups@, limit, y));
                    }
                    assert(reached(groups@, floors@, limit, group + 1, floors@));
                    assert(covered(frontier@, groups@, limit, floors@));
                }
            },
        }
        proof {
            lemma_frontier_size(frontier@, groups@, floors@, limit, group + 1);
        }
        group = group + 1;
    }
    let mut best: usize = 0;
    let mut position: usize = 1;
    while position < frontier.len()
        invariant
            frontier@.len() > 0,
            best < frontier@.len(),
            1 <= position <= frontier@.len(),
            states_wf(frontier@, groups@, floors@, limit, groups@.len() as int),
            forall|k: int|
                0 <= k < position && k != best ==> preferred(
                    groups@,
                    limit,
                    frontier@[best as int].plane_counts@,
                    #[trigger] frontier@[k].plane_counts@,
                ) || frontier@[best as int].plane_counts@ == frontier@[k].plane_counts@,
        decreases frontier.len() - position,
    {
        assert(frontier@[best as int].wf(groups@, floors@, limit, groups@.len() as int));
        assert(frontier@[position as int].wf(groups@, floors@, limit, groups@.len() as int));
        let replace = state_preferred(
            &frontier[position],
            &frontier[best],
            groups,
            floors,
            limit,
            Ghost(groups@.len() as int),
        );
        let ghost old_best = best as int;
        if replace {
            best = position;
        }
        proof {
            let b = frontier@[old_best].plane_counts@;
            let c = frontier@[position as int].plane_counts@;
            lemma_lex_total(b, c, 0);
            assert forall|k: int| 0 <= k <= position && k != best implies preferred(
                groups@,
                limit,
                frontier@[best as int].plane_counts@,
                #[trigger] frontier@[k].plane_counts@,
            ) || frontier@[best as int].plane_counts@ == frontier@[k].plane_counts@ by {
                let x = frontier@[k].plane_counts@;
                assert(frontier@[k].wf(groups@, floors@, limit, groups@.len() as int));
                if replace && k < position && k != old_best {
                    if b != x {
                        lemma_preferred_transitive(groups@, limit, c, b, x);
                    }
                }
            }
        }
        position = position + 1;
    }
    proof {
        let n = groups@.len() as int;
        let winner = frontier@[best as int].plane_counts@;
        assert(frontier@[best as int].wf(groups@, floors@, limit, n));
        assert forall|other: Seq<u8>| #[trigger]
            feasible(groups@, floors@, limit, other) && other != winner implies preferred(
            groups@,
            limit,
            winner,
            other,
        ) by {
            assert(reached(groups@, floors@, limit, n, other));
            assert(covered(frontier@, groups@, limit, other));
            let k = choose|k: int|
                0 <= k < frontier@.len() && #[trigger] covers(
                    groups@,
                    limit,
                    frontier@[k].plane_counts@,
                    other,
                );
            let x = frontier@[k].plane_counts@;
            assert(frontier@[k].wf(groups@, floors@, limit, n));
            lemma_cover_is_preferred(groups@, limit, x, other);
            if k != best && winner != x && x != other {
                lemma_preferred_transitive(groups@, limit, winner, x, other);
            }
        }
    }
    let planes: Vec<u8> = copy_planes(&frontier[best].plane_counts);
    Ok(planes)
}

} // verus!
