//! Mathematical model of nested plane allocations and of their order.

use crate::float_bits::{f64_finite_nonnegative, f64_units};
use crate::physical::{ByteDelta, GroupCandidates, PhysicalBytes, PlaneCandidate, ProfileBudget};
use vstd::prelude::*;

verus! {

/// Sum of a per-group quantity over the first `count` groups of a plane vector.
pub open spec fn plane_sum(f: spec_fn(int, int) -> int, planes: Seq<u8>, count: int) -> int
    decreases count,
{
    if count <= 0 {
        0
    } else {
        plane_sum(f, planes, count - 1) + f(count - 1, planes[count - 1] as int)
    }
}

/// Sum of the first `planes` incremental costs of one group.
pub open spec fn prefix_cost(costs: spec_fn(int) -> int, planes: int) -> int
    decreases planes,
{
    if planes <= 0 {
        0
    } else {
        prefix_cost(costs, planes - 1) + costs(planes - 1)
    }
}

/// Which of the two costs of a delta a ledger charges.
#[derive(Clone, Copy)]
pub enum ByteMode {
    /// The declaration.
    Declared,
    /// The measurement when present, otherwise the declaration.
    Effective,
}

/// The cost of a delta under a ledger mode.
pub open spec fn mode_bytes(mode: ByteMode, delta: ByteDelta) -> PhysicalBytes {
    match mode {
        ByteMode::Declared => delta.declared,
        ByteMode::Effective => delta.effective_bytes(),
    }
}

/// Cumulative distortion patterns of one group's candidates.
pub open spec fn curve_of(candidates: Seq<PlaneCandidate>) -> Seq<u64> {
    Seq::new(candidates.len(), |p: int| candidates[p].distortion_bits)
}

/// Cumulative distortion patterns of every group.
pub open spec fn curves_of(groups: Seq<GroupCandidates<'_>>) -> Seq<Seq<u64>> {
    Seq::new(groups.len(), |g: int| curve_of(groups[g].candidates@))
}

/// Exact distortion of one curve at a plane count, in units of `2^-1074`.
pub open spec fn curve_fn(curves: Seq<Seq<u64>>) -> spec_fn(int, int) -> int {
    |g: int, p: int| f64_units(curves[g][p - 1]) as int
}

/// Exact total distortion of a plane vector over curves.
pub open spec fn curve_total(curves: Seq<Seq<u64>>, planes: Seq<u8>) -> int {
    plane_sum(curve_fn(curves), planes, planes.len() as int)
}

/// Three finite, nonnegative, nonincreasing cumulative distortions.
pub open spec fn curve_valid(curve: Seq<u64>) -> bool {
    &&& curve.len() == 3
    &&& forall|p: int| 0 <= p < 3 ==> f64_finite_nonnegative(#[trigger] curve[p])
    &&& f64_units(curve[1]) <= f64_units(curve[0])
    &&& f64_units(curve[2]) <= f64_units(curve[1])
}

/// Every curve is valid.
pub open spec fn curves_valid(curves: Seq<Seq<u64>>) -> bool {
    forall|g: int| 0 <= g < curves.len() ==> curve_valid(#[trigger] curves[g])
}

/// Valid candidates have a valid curve.
pub proof fn lemma_group_curve(candidates: Seq<PlaneCandidate>)
    requires
        group_valid(candidates),
    ensures
        curve_valid(curve_of(candidates)),
{
    let curve = curve_of(candidates);
    assert forall|p: int| 0 <= p < 3 implies f64_finite_nonnegative(#[trigger] curve[p]) by {
        assert(f64_finite_nonnegative(candidates[p].distortion_bits));
    }
}

/// Valid groups have valid curves.
pub proof fn lemma_group_curves(groups: Seq<GroupCandidates<'_>>)
    requires
        groups_valid(groups),
    ensures
        curves_valid(curves_of(groups)),
{
    assert forall|g: int| 0 <= g < groups.len() implies curve_valid(
        #[trigger] curves_of(groups)[g],
    ) by {
        assert(group_valid(groups[g].candidates@));
        lemma_group_curve(groups[g].candidates@);
    }
}

/// Exact distortion of one group at a plane count, in units of `2^-1074`.
pub open spec fn distortion_fn(groups: Seq<GroupCandidates<'_>>) -> spec_fn(int, int) -> int {
    curve_fn(curves_of(groups))
}

/// Serialized bytes of one group at a plane count.
pub open spec fn serialized_fn(groups: Seq<GroupCandidates<'_>>, mode: ByteMode) -> spec_fn(
    int,
    int,
) -> int {
    |g: int, p: int|
        prefix_cost(
            |q: int| mode_bytes(mode, groups[g].candidates@[q].byte_delta).serialized as int,
            p,
        )
}

/// Resident bytes of one group at a plane count.
pub open spec fn resident_fn(groups: Seq<GroupCandidates<'_>>, mode: ByteMode) -> spec_fn(
    int,
    int,
) -> int {
    |g: int, p: int|
        prefix_cost(
            |q: int| mode_bytes(mode, groups[g].candidates@[q].byte_delta).resident as int,
            p,
        )
}

/// The plane count itself.
pub open spec fn count_fn() -> spec_fn(int, int) -> int {
    |g: int, p: int| p
}

/// Exact total distortion of a plane vector, in units of `2^-1074`.
pub open spec fn total_distortion(groups: Seq<GroupCandidates<'_>>, planes: Seq<u8>) -> int {
    plane_sum(distortion_fn(groups), planes, planes.len() as int)
}

/// Metadata plus selected serialized bytes.
pub open spec fn total_serialized(
    groups: Seq<GroupCandidates<'_>>,
    planes: Seq<u8>,
    metadata: ByteDelta,
    mode: ByteMode,
) -> int {
    mode_bytes(mode, metadata).serialized + plane_sum(
        serialized_fn(groups, mode),
        planes,
        planes.len() as int,
    )
}

/// Metadata plus selected resident bytes.
pub open spec fn total_resident(
    groups: Seq<GroupCandidates<'_>>,
    planes: Seq<u8>,
    metadata: ByteDelta,
    mode: ByteMode,
) -> int {
    mode_bytes(mode, metadata).resident + plane_sum(
        resident_fn(groups, mode),
        planes,
        planes.len() as int,
    )
}

/// Effective serialized bytes of a plane vector under a budget.
pub open spec fn serialized_of(
    groups: Seq<GroupCandidates<'_>>,
    limit: ProfileBudget,
    planes: Seq<u8>,
) -> int {
    total_serialized(groups, planes, limit.metadata, ByteMode::Effective)
}

/// Effective resident bytes of a plane vector under a budget.
pub open spec fn resident_of(
    groups: Seq<GroupCandidates<'_>>,
    limit: ProfileBudget,
    planes: Seq<u8>,
) -> int {
    total_resident(groups, planes, limit.metadata, ByteMode::Effective)
}

/// The frontier of one group: three consecutive ordinals with finite,
/// nonnegative, nonincreasing distortion.
pub open spec fn group_valid(candidates: Seq<PlaneCandidate>) -> bool {
    &&& candidates.len() == 3
    &&& forall|p: int| 0 <= p < 3 ==> #[trigger] candidates[p].planes == p + 1
    &&& forall|p: int|
        0 <= p < 3 ==> f64_finite_nonnegative(#[trigger] candidates[p].distortion_bits)
    &&& f64_units(candidates[1].distortion_bits) <= f64_units(candidates[0].distortion_bits)
    &&& f64_units(candidates[2].distortion_bits) <= f64_units(candidates[1].distortion_bits)
}

/// Every group has a valid frontier.
pub open spec fn groups_valid(groups: Seq<GroupCandidates<'_>>) -> bool {
    forall|g: int| 0 <= g < groups.len() ==> group_valid(#[trigger] groups[g].candidates@)
}

/// One to three planes for each of `count` groups.
pub open spec fn counts_valid(count: nat, planes: Seq<u8>) -> bool {
    &&& planes.len() == count
    &&& forall|g: int| 0 <= g < planes.len() ==> 1 <= #[trigger] planes[g] <= 3
}

/// A mandatory prefix holds one to three planes per group.
pub open spec fn floors_valid(groups: Seq<GroupCandidates<'_>>, floors: Seq<u8>) -> bool {
    counts_valid(groups.len(), floors)
}

/// A vector that keeps the mandatory prefix and exceeds no plane cap.
pub open spec fn in_range(floors: Seq<u8>, planes: Seq<u8>) -> bool {
    &&& planes.len() == floors.len()
    &&& forall|g: int| 0 <= g < floors.len() ==> floors[g] <= #[trigger] planes[g] <= 3
}

/// A vector in range whose effective bytes keep both ceilings.
pub open spec fn feasible(
    groups: Seq<GroupCandidates<'_>>,
    floors: Seq<u8>,
    limit: ProfileBudget,
    planes: Seq<u8>,
) -> bool {
    &&& in_range(floors, planes)
    &&& serialized_of(groups, limit, planes) <= limit.maximum.serialized
    &&& resident_of(groups, limit, planes) <= limit.maximum.resident
}

/// Lexicographically greater plane vector.
pub open spec fn lex_greater(left: Seq<u8>, right: Seq<u8>) -> bool {
    exists|i: int|
        0 <= i < left.len() && #[trigger] left[i] > right[i] && forall|j: int|
            0 <= j < i ==> #[trigger] left[j] == right[j]
}

/// Strict preference: lower exact distortion, then fewer serialized bytes, then
/// fewer resident bytes, then the lexicographically greater plane vector.
pub open spec fn preferred(
    groups: Seq<GroupCandidates<'_>>,
    limit: ProfileBudget,
    left: Seq<u8>,
    right: Seq<u8>,
) -> bool {
    let dl = total_distortion(groups, left);
    let dr = total_distortion(groups, right);
    let sl = serialized_of(groups, limit, left);
    let sr = serialized_of(groups, limit, right);
    let rl = resident_of(groups, limit, left);
    let rr = resident_of(groups, limit, right);
    dl < dr || (dl == dr && (sl < sr || (sl == sr && (rl < rr || (rl == rr && lex_greater(
        left,
        right,
    ))))))
}

/// The one feasible vector that is preferred to every other feasible vector.
pub open spec fn is_best(
    groups: Seq<GroupCandidates<'_>>,
    floors: Seq<u8>,
    limit: ProfileBudget,
    planes: Seq<u8>,
) -> bool {
    &&& feasible(groups, floors, limit, planes)
    &&& forall|other: Seq<u8>|
        #[trigger] feasible(groups, floors, limit, other) && other != planes ==> preferred(
            groups,
            limit,
            planes,
            other,
        )
}

pub proof fn lemma_plane_sum_update(
    f: spec_fn(int, int) -> int,
    planes: Seq<u8>,
    count: int,
    group: int,
    value: u8,
)
    requires
        0 <= group < planes.len(),
        0 <= count <= planes.len(),
    ensures
        group < count ==> plane_sum(f, planes.update(group, value), count) == plane_sum(
            f,
            planes,
            count,
        ) - f(group, planes[group] as int) + f(group, value as int),
        group >= count ==> plane_sum(f, planes.update(group, value), count) == plane_sum(
            f,
            planes,
            count,
        ),
    decreases count,
{
    if count > 0 {
        lemma_plane_sum_update(f, planes, count - 1, group, value);
    }
}

pub proof fn lemma_plane_sum_monotone(
    f: spec_fn(int, int) -> int,
    low: Seq<u8>,
    high: Seq<u8>,
    count: int,
)
    requires
        forall|g: int| 0 <= g < count ==> #[trigger] f(g, low[g] as int) <= f(g, high[g] as int),
    ensures
        plane_sum(f, low, count) <= plane_sum(f, high, count),
    decreases count,
{
    if count > 0 {
        lemma_plane_sum_monotone(f, low, high, count - 1);
        assert(f(count - 1, low[count - 1] as int) <= f(count - 1, high[count - 1] as int));
    }
}

pub proof fn lemma_plane_sum_nonnegative(
    f: spec_fn(int, int) -> int,
    planes: Seq<u8>,
    count: int,
)
    requires
        forall|g: int| 0 <= g < count ==> #[trigger] f(g, planes[g] as int) >= 0,
    ensures
        plane_sum(f, planes, count) >= 0,
    decreases count,
{
    if count > 0 {
        lemma_plane_sum_nonnegative(f, planes, count - 1);
        assert(f(count - 1, planes[count - 1] as int) >= 0);
    }
}

/// A prefix cost of nonnegative increments grows with the plane count.
pub proof fn lemma_prefix_cost_monotone(costs: spec_fn(int) -> int, low: int, high: int)
    requires
        0 <= low <= high,
        forall|q: int| 0 <= q < high ==> #[trigger] costs(q) >= 0,
    ensures
        0 <= prefix_cost(costs, low) <= prefix_cost(costs, high),
    decreases high,
{
    if low < high {
        lemma_prefix_cost_monotone(costs, low, high - 1);
        assert(costs(high - 1) >= 0);
    } else if high > 0 {
        lemma_prefix_cost_monotone(costs, low - 1, high - 1);
        assert(costs(high - 1) >= 0);
    }
}

/// More planes never cost fewer bytes.
pub proof fn lemma_bytes_monotone(
    groups: Seq<GroupCandidates<'_>>,
    limit: ProfileBudget,
    low: Seq<u8>,
    high: Seq<u8>,
)
    requires
        low.len() == high.len(),
        forall|g: int| 0 <= g < low.len() ==> #[trigger] low[g] <= high[g],
    ensures
        0 <= serialized_of(groups, limit, low) <= serialized_of(groups, limit, high),
        0 <= resident_of(groups, limit, low) <= resident_of(groups, limit, high),
{
    let fs = serialized_fn(groups, ByteMode::Effective);
    let fr = resident_fn(groups, ByteMode::Effective);
    assert forall|g: int| 0 <= g < low.len() implies 0 <= #[trigger] fs(g, low[g] as int) <= fs(
        g,
        high[g] as int,
    ) by {
        assert(low[g] <= high[g]);
        lemma_prefix_cost_monotone(
            |q: int|
                mode_bytes(
                    ByteMode::Effective,
                    groups[g].candidates@[q].byte_delta,
                ).serialized as int,
            low[g] as int,
            high[g] as int,
        );
    }
    assert forall|g: int| 0 <= g < low.len() implies 0 <= #[trigger] fr(g, low[g] as int) <= fr(
        g,
        high[g] as int,
    ) by {
        assert(low[g] <= high[g]);
        lemma_prefix_cost_monotone(
            |q: int|
                mode_bytes(
                    ByteMode::Effective,
                    groups[g].candidates@[q].byte_delta,
                ).resident as int,
            low[g] as int,
            high[g] as int,
        );
    }
    lemma_plane_sum_monotone(fs, low, high, low.len() as int);
    lemma_plane_sum_monotone(fr, low, high, low.len() as int);
    lemma_plane_sum_nonnegative(fs, low, low.len() as int);
    lemma_plane_sum_nonnegative(fr, low, low.len() as int);
}

/// More planes never raise the distortion.
pub proof fn lemma_distortion_monotone(
    groups: Seq<GroupCandidates<'_>>,
    low: Seq<u8>,
    high: Seq<u8>,
)
    requires
        groups_valid(groups),
        low.len() == groups.len(),
        high.len() == groups.len(),
        forall|g: int| 0 <= g < low.len() ==> 1 <= #[trigger] low[g] <= high[g] <= 3,
    ensures
        0 <= total_distortion(groups, high) <= total_distortion(groups, low),
{
    let f = distortion_fn(groups);
    assert forall|g: int| 0 <= g < low.len() implies #[trigger] f(g, high[g] as int) <= f(
        g,
        low[g] as int,
    ) by {
        assert(1 <= low[g] <= high[g] <= 3);
        assert(group_valid(groups[g].candidates@));
    }
    lemma_plane_sum_monotone(f, high, low, low.len() as int);
    lemma_plane_sum_nonnegative(f, high, low.len() as int);
}

pub proof fn lemma_lex_total(left: Seq<u8>, right: Seq<u8>, from: int)
    requires
        left.len() == right.len(),
        0 <= from <= left.len(),
        forall|j: int| 0 <= j < from ==> #[trigger] left[j] == right[j],
    ensures
        left == right || lex_greater(left, right) || lex_greater(right, left),
    decreases left.len() - from,
{
    if from == left.len() {
        assert(left =~= right);
    } else if left[from] == right[from] {
        lemma_lex_total(left, right, from + 1);
    } else if left[from] > right[from] {
        assert(lex_greater(left, right));
    } else {
        assert forall|j: int| 0 <= j < from implies #[trigger] right[j] == left[j] by {
            assert(left[j] == right[j]);
        }
        assert(lex_greater(right, left));
    }
}

pub proof fn lemma_lex_asymmetric(left: Seq<u8>, right: Seq<u8>)
    requires
        left.len() == right.len(),
        lex_greater(left, right),
    ensures
        !lex_greater(right, left),
        left != right,
{
    let i = choose|i: int|
        0 <= i < left.len() && #[trigger] left[i] > right[i] && forall|j: int|
            0 <= j < i ==> #[trigger] left[j] == right[j];
    if lex_greater(right, left) {
        let k = choose|k: int|
            0 <= k < right.len() && #[trigger] right[k] > left[k] && forall|j: int|
                0 <= j < k ==> #[trigger] right[j] == left[j];
        if k < i {
            assert(left[k] == right[k]);
        } else if i < k {
            assert(right[i] == left[i]);
        }
    }
}

pub proof fn lemma_lex_transitive(a: Seq<u8>, b: Seq<u8>, c: Seq<u8>)
    requires
        a.len() == b.len(),
        b.len() == c.len(),
        lex_greater(a, b),
        lex_greater(b, c),
    ensures
        lex_greater(a, c),
{
    let i = choose|i: int|
        0 <= i < a.len() && #[trigger] a[i] > b[i] && forall|j: int|
            0 <= j < i ==> #[trigger] a[j] == b[j];
    let k = choose|k: int|
        0 <= k < b.len() && #[trigger] b[k] > c[k] && forall|j: int|
            0 <= j < k ==> #[trigger] b[j] == c[j];
    let m = if i < k {
        i
    } else {
        k
    };
    assert(a[m] > c[m]) by {
        if i < k {
            assert(b[i] == c[i]);
        } else if k < i {
            assert(a[k] == b[k]);
        }
    }
    assert forall|j: int| 0 <= j < m implies #[trigger] a[j] == c[j] by {
        assert(a[j] == b[j]);
        assert(b[j] == c[j]);
    }
}

/// Changing two vectors alike where they agree keeps their order.
pub proof fn lemma_lex_update(left: Seq<u8>, right: Seq<u8>, group: int, value: u8)
    requires
        left.len() == right.len(),
        0 <= group < left.len(),
        left[group] == right[group],
        lex_greater(left, right),
    ensures
        lex_greater(left.update(group, value), right.update(group, value)),
{
    let i = choose|i: int|
        0 <= i < left.len() && #[trigger] left[i] > right[i] && forall|j: int|
            0 <= j < i ==> #[trigger] left[j] == right[j];
    let l = left.update(group, value);
    let r = right.update(group, value);
    assert(l[i] > r[i]);
    assert forall|j: int| 0 <= j < i implies #[trigger] l[j] == r[j] by {
        assert(left[j] == right[j]);
    }
}

pub proof fn lemma_preferred_transitive(
    groups: Seq<GroupCandidates<'_>>,
    limit: ProfileBudget,
    a: Seq<u8>,
    b: Seq<u8>,
    c: Seq<u8>,
)
    requires
        a.len() == b.len(),
        b.len() == c.len(),
        preferred(groups, limit, a, b),
        preferred(groups, limit, b, c),
    ensures
        preferred(groups, limit, a, c),
{
    if lex_greater(a, b) && lex_greater(b, c) {
        lemma_lex_transitive(a, b, c);
    }
}

/// At most one vector is best.
pub proof fn best_is_unique(
    groups: Seq<GroupCandidates<'_>>,
    floors: Seq<u8>,
    limit: ProfileBudget,
    left: Seq<u8>,
    right: Seq<u8>,
)
    requires
        is_best(groups, floors, limit, left),
        is_best(groups, floors, limit, right),
    ensures
        left == right,
{
    if left != right {
        assert(feasible(groups, floors, limit, right));
        assert(preferred(groups, limit, left, right));
        assert(feasible(groups, floors, limit, left));
        assert(preferred(groups, limit, right, left));
        if lex_greater(left, right) {
            lemma_lex_asymmetric(left, right);
        }
    }
}

} // verus!
