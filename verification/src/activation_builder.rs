//! Resume-friendly assembly of activation chunks.

use crate::activation_chunk::{ActivationChunk, ChunkView};
use crate::activation_schema::{ActivationCacheError, ActivationCacheSpec, SchemaView};
use core::ops::Range;
use vstd::prelude::*;

verus! {

/// The chunks that a vector holds.
pub open spec fn chunk_views(chunks: Seq<ActivationChunk>) -> Seq<ChunkView> {
    Seq::new(chunks.len(), |k: int| chunks[k]@)
}

/// Whether chunks lie in token order without sharing a token.
pub open spec fn in_order(chunks: Seq<ChunkView>) -> bool {
    forall|i: int, j: int|
        0 <= i < j < chunks.len() ==> #[trigger] chunks[i].end() <= #[trigger] chunks[j].token_start
}

/// Tokens held by chunks.
pub open spec fn covered(chunks: Seq<ChunkView>) -> nat
    decreases chunks.len(),
{
    if chunks.len() == 0 {
        0
    } else {
        covered(chunks.drop_last()) + chunks.last().token_count as nat
    }
}

/// Whether some chunk holds a token.
pub open spec fn holds(chunks: Seq<ChunkView>, token: int) -> bool {
    exists|k: int|
        0 <= k < chunks.len() && (#[trigger] chunks[k]).token_start <= token < chunks[k].end()
}

/// The first position at or after `from` whose chunk starts at `start` or later.
pub open spec fn position(chunks: Seq<ChunkView>, start: u64, from: nat) -> nat
    decreases chunks.len() - from,
{
    if from < chunks.len() && chunks[from as int].token_start < start {
        position(chunks, start, from + 1)
    } else {
        from
    }
}

/// The overlap of an incoming interval with a present chunk.
pub open spec fn overlap(start: u64, end: u64, existing: ChunkView) -> ActivationCacheError {
    ActivationCacheError::OverlappingRange {
        start,
        end,
        existing_start: existing.token_start,
        existing_end: existing.end() as u64,
    }
}

/// The conflict of an incoming interval with the present chunks, if there is one.
pub open spec fn conflict(chunks: Seq<ChunkView>, start: u64, end: u64) -> Option<
    ActivationCacheError,
> {
    let at = position(chunks, start, 0) as int;
    if at < chunks.len() && chunks[at].token_start == start {
        if chunks[at].end() == end {
            Some(ActivationCacheError::DuplicateRange { start, end })
        } else {
            Some(overlap(start, end, chunks[at]))
        }
    } else if at > 0 && chunks[at - 1].end() > start {
        Some(overlap(start, end, chunks[at - 1]))
    } else if at < chunks.len() && chunks[at].token_start < end {
        Some(overlap(start, end, chunks[at]))
    } else {
        None
    }
}

/// The conflict of the first incoming chunk from `from` on that has one.
pub open spec fn first_conflict(
    chunks: Seq<ChunkView>,
    incoming: Seq<ChunkView>,
    from: nat,
) -> Option<ActivationCacheError>
    decreases incoming.len() - from,
{
    if from >= incoming.len() {
        None
    } else {
        let next = incoming[from as int];
        match conflict(chunks, next.token_start, next.end() as u64) {
            Some(error) => Some(error),
            None => first_conflict(chunks, incoming, from + 1),
        }
    }
}

/// Two runs of chunks in token order.
pub open spec fn merged(left: Seq<ChunkView>, right: Seq<ChunkView>) -> Seq<ChunkView>
    decreases left.len() + right.len(),
{
    if left.len() == 0 {
        right
    } else if right.len() == 0 {
        left
    } else if left.last().token_start < right.last().token_start {
        merged(left, right.drop_last()).push(right.last())
    } else {
        merged(left.drop_last(), right).push(left.last())
    }
}

/// The token intervals from `expected` on that no chunk from `from` on holds.
pub open spec fn gaps(
    chunks: Seq<ChunkView>,
    from: nat,
    expected: u64,
    total: u64,
) -> Seq<Range<u64>>
    decreases chunks.len() - from,
{
    if from >= chunks.len() {
        if expected < total {
            seq![Range { start: expected, end: total }]
        } else {
            Seq::empty()
        }
    } else {
        let chunk = chunks[from as int];
        let rest = gaps(chunks, from + 1, chunk.end() as u64, total);
        if chunk.token_start > expected {
            seq![Range { start: expected, end: chunk.token_start }] + rest
        } else {
            rest
        }
    }
}

/// What a builder holds.
pub struct BuilderView {
    /// The destination schema.
    pub schema: SchemaView,
    /// The present chunks in token order.
    pub chunks: Seq<ChunkView>,
}

impl BuilderView {
    /// Whether the schema is valid and the chunks are disjoint valid intervals of it in order.
    pub open spec fn valid(self) -> bool {
        &&& self.schema.valid()
        &&& in_order(self.chunks)
        &&& forall|k: int|
            0 <= k < self.chunks.len() ==> (#[trigger] self.chunks[k]).valid()
                && self.chunks[k].fits(self.schema)
    }
}

proof fn lemma_position(chunks: Seq<ChunkView>, start: u64, from: nat)
    requires
        from <= chunks.len(),
    ensures
        from <= position(chunks, start, from) <= chunks.len(),
        forall|k: int|
            from <= k < position(chunks, start, from) ==> (#[trigger] chunks[k]).token_start
                < start,
        position(chunks, start, from) < chunks.len() ==> chunks[position(
            chunks,
            start,
            from,
        ) as int].token_start >= start,
    decreases chunks.len() - from,
{
    if from < chunks.len() && chunks[from as int].token_start < start {
        lemma_position(chunks, start, from + 1);
    }
}

proof fn lemma_position_unique(chunks: Seq<ChunkView>, start: u64, at: nat)
    requires
        at <= chunks.len(),
        forall|k: int| 0 <= k < at ==> (#[trigger] chunks[k]).token_start < start,
        at < chunks.len() ==> chunks[at as int].token_start >= start,
    ensures
        position(chunks, start, 0) == at,
{
    lemma_position(chunks, start, 0);
    let found = position(chunks, start, 0);
    if found < at {
        assert(chunks[found as int].token_start < start);
    } else if at < found {
        assert(chunks[at as int].token_start < start);
    }
}

/// An interval behind the starts of all ordered chunks can only overlap the last one, and belongs
/// behind it.
pub proof fn lemma_conflict_behind(chunks: Seq<ChunkView>, start: u64, end: u64)
    requires
        in_order(chunks),
        forall|k: int|
            0 <= k < chunks.len() ==> (#[trigger] chunks[k]).token_start < chunks[k].end(),
        chunks.len() > 0 ==> chunks.last().token_start < start,
    ensures
        position(chunks, start, 0) == chunks.len(),
        conflict(chunks, start, end) == if chunks.len() > 0 && chunks.last().end() > start {
            Some(overlap(start, end, chunks.last()))
        } else {
            None::<ActivationCacheError>
        },
{
    assert forall|k: int| 0 <= k < chunks.len() implies (#[trigger] chunks[k]).token_start
        < start by {
        if k < chunks.len() - 1 {
            assert(chunks[k].end() <= chunks[chunks.len() - 1].token_start);
        }
    }
    lemma_position_unique(chunks, start, chunks.len());
}

/// Disjoint ordered chunks hold no more tokens than lie before the last one's end.
pub proof fn lemma_covered_bound(chunks: Seq<ChunkView>, total: nat)
    requires
        in_order(chunks),
        forall|k: int|
            0 <= k < chunks.len() ==> (#[trigger] chunks[k]).end() <= total,
    ensures
        covered(chunks) <= total,
        chunks.len() > 0 ==> covered(chunks) <= chunks.last().end(),
    decreases chunks.len(),
{
    if chunks.len() > 0 {
        let front = chunks.drop_last();
        assert forall|i: int, j: int| 0 <= i < j < front.len() implies #[trigger] front[i].end()
            <= #[trigger] front[j].token_start by {
            assert(chunks[i].end() <= chunks[j].token_start);
        }
        assert forall|k: int| 0 <= k < front.len() implies (#[trigger] front[k]).end()
            <= total by {
            assert(chunks[k].end() <= total);
        }
        lemma_covered_bound(front, total);
        if front.len() > 0 {
            assert(chunks[chunks.len() - 2].end() <= chunks[chunks.len() - 1].token_start);
            assert(front.last() == chunks[chunks.len() - 2]);
        }
        assert(chunks[chunks.len() - 1].end() <= total);
    }
}

proof fn lemma_covered_insert(chunks: Seq<ChunkView>, at: int, chunk: ChunkView)
    requires
        0 <= at <= chunks.len(),
    ensures
        covered(chunks.insert(at, chunk)) == covered(chunks) + chunk.token_count,
    decreases chunks.len(),
{
    let longer = chunks.insert(at, chunk);
    if at == chunks.len() {
        assert(longer.drop_last() =~= chunks);
    } else {
        assert(longer.drop_last() =~= chunks.drop_last().insert(at, chunk));
        assert(longer.last() == chunks.last());
        lemma_covered_insert(chunks.drop_last(), at, chunk);
    }
}

proof fn lemma_covered_merged(left: Seq<ChunkView>, right: Seq<ChunkView>)
    ensures
        covered(merged(left, right)) == covered(left) + covered(right),
        merged(left, right).len() == left.len() + right.len(),
    decreases left.len() + right.len(),
{
    if left.len() == 0 || right.len() == 0 {
    } else if left.last().token_start < right.last().token_start {
        lemma_covered_merged(left, right.drop_last());
        let front = merged(left, right.drop_last());
        assert(front.push(right.last()).drop_last() =~= front);
    } else {
        lemma_covered_merged(left.drop_last(), right);
        let front = merged(left.drop_last(), right);
        assert(front.push(left.last()).drop_last() =~= front);
    }
}

/// An interval conflicts with ordered chunks exactly when it shares a token with one of them.
pub proof fn conflict_is_shared_token(chunks: Seq<ChunkView>, start: u64, end: u64)
    requires
        start < end,
        in_order(chunks),
        forall|k: int|
            0 <= k < chunks.len() ==> (#[trigger] chunks[k]).token_start < chunks[k].end(),
    ensures
        conflict(chunks, start, end) is Some <==> exists|token: int|
            start <= token < end && holds(chunks, token),
{
    lemma_position(chunks, start, 0);
    let at = position(chunks, start, 0) as int;
    if conflict(chunks, start, end) is Some {
        if at < chunks.len() && chunks[at].token_start == start {
            assert(chunks[at].token_start <= start < chunks[at].end());
            assert(holds(chunks, start as int));
        } else if at > 0 && chunks[at - 1].end() > start {
            assert(chunks[at - 1].token_start < start);
            assert(holds(chunks, start as int));
        } else {
            let token = chunks[at].token_start as int;
            assert(chunks[at].token_start <= token < chunks[at].end());
            assert(holds(chunks, token));
        }
    } else {
        assert forall|token: int| start <= token < end implies !holds(chunks, token) by {
            if holds(chunks, token) {
                let k = choose|k: int|
                    0 <= k < chunks.len() && (#[trigger] chunks[k]).token_start <= token
                        < chunks[k].end();
                if k < at {
                    if k < at - 1 {
                        assert(chunks[k].end() <= chunks[at - 1].token_start);
                        assert(chunks[at - 1].token_start < start);
                    }
                } else if k > at {
                    assert(chunks[at].end() <= chunks[k].token_start);
                    assert(chunks[at].token_start < chunks[at].end());
                }
            }
        }
    }
}

/// Without a conflict the interval fits between its neighbours, and keeps every order.
proof fn lemma_insert_in_order(chunks: Seq<ChunkView>, chunk: ChunkView)
    requires
        in_order(chunks),
        chunk.end() <= u64::MAX,
        chunk.token_count > 0,
        conflict(chunks, chunk.token_start, chunk.end() as u64) is None,
        forall|k: int|
            0 <= k < chunks.len() ==> (#[trigger] chunks[k]).token_start < chunks[k].end(),
    ensures
        in_order(chunks.insert(position(chunks, chunk.token_start, 0) as int, chunk)),
{
    lemma_position(chunks, chunk.token_start, 0);
    let at = position(chunks, chunk.token_start, 0) as int;
    let longer = chunks.insert(at, chunk);
    assert forall|i: int, j: int| 0 <= i < j < longer.len() implies #[trigger] longer[i].end()
        <= #[trigger] longer[j].token_start by {
        if j == at {
            assert(longer[i] == chunks[i]);
            if i < at - 1 {
                assert(chunks[i].end() <= chunks[at - 1].token_start);
                assert(chunks[at - 1].token_start < chunks[at - 1].end());
            }
        } else if i == at {
            assert(longer[j] == chunks[j - 1]);
            if j - 1 > at {
                assert(chunks[at].end() <= chunks[j - 1].token_start);
                assert(chunks[at].token_start < chunks[at].end());
            }
        } else {
            let a = if i < at { i } else { i - 1 };
            let b = if j < at { j } else { j - 1 };
            assert(longer[i] == chunks[a]);
            assert(longer[j] == chunks[b]);
            assert(chunks[a].end() <= chunks[b].token_start);
        }
    }
}

proof fn lemma_first_conflict(
    chunks: Seq<ChunkView>,
    incoming: Seq<ChunkView>,
    from: nat,
    index: int,
)
    requires
        first_conflict(chunks, incoming, from) is None,
        from <= index < incoming.len(),
    ensures
        conflict(
            chunks,
            incoming[index].token_start,
            incoming[index].end() as u64,
        ) is None,
    decreases incoming.len() - from,
{
    if from < index {
        lemma_first_conflict(chunks, incoming, from + 1, index);
    }
}

/// Every chunk of a merged run comes from one of the two runs, and every chunk of these is in it.
pub proof fn merged_holds_both(left: Seq<ChunkView>, right: Seq<ChunkView>)
    ensures
        merged(left, right).to_multiset() == left.to_multiset().add(right.to_multiset()),
    decreases left.len() + right.len(),
{
    broadcast use vstd::seq_lib::group_to_multiset_ensures;

    if left.len() == 0 {
        assert(left.to_multiset().add(right.to_multiset()) =~= right.to_multiset());
    } else if right.len() == 0 {
        assert(left.to_multiset().add(right.to_multiset()) =~= left.to_multiset());
    } else if left.last().token_start < right.last().token_start {
        merged_holds_both(left, right.drop_last());
        assert(right.drop_last().push(right.last()) =~= right);
        assert(merged(left, right).to_multiset() =~= left.to_multiset().add(right.to_multiset()));
    } else {
        merged_holds_both(left.drop_last(), right);
        assert(left.drop_last().push(left.last()) =~= left);
        assert(merged(left, right).to_multiset() =~= left.to_multiset().add(right.to_multiset()));
    }
}

/// Whether two chunks share no token.
pub open spec fn apart(left: ChunkView, right: ChunkView) -> bool {
    left.end() <= right.token_start || right.end() <= left.token_start
}

proof fn lemma_merged_in_order(left: Seq<ChunkView>, right: Seq<ChunkView>)
    requires
        in_order(left),
        in_order(right),
        forall|k: int| 0 <= k < left.len() ==> (#[trigger] left[k]).token_start < left[k].end(),
        forall|k: int| 0 <= k < right.len() ==> (#[trigger] right[k]).token_start < right[k].end(),
        forall|i: int, j: int|
            0 <= i < left.len() && 0 <= j < right.len() ==> apart(
                #[trigger] left[i],
                #[trigger] right[j],
            ),
    ensures
        in_order(merged(left, right)),
        forall|k: int|
            0 <= k < merged(left, right).len() ==> left.contains(#[trigger] merged(left, right)[k])
                || right.contains(merged(left, right)[k]),
    decreases left.len() + right.len(),
{
    let all = merged(left, right);
    if left.len() == 0 {
        assert forall|k: int| 0 <= k < all.len() implies right.contains(#[trigger] all[k]) by {
            assert(right[k] == all[k]);
        }
    } else if right.len() == 0 {
        assert forall|k: int| 0 <= k < all.len() implies left.contains(#[trigger] all[k]) by {
            assert(left[k] == all[k]);
        }
    } else if left.last().token_start < right.last().token_start {
        let rest = right.drop_last();
        lemma_prefix_in_order(right);
        lemma_merged_in_order(left, rest);
        let front = merged(left, rest);
        let last = right.last();
        assert(right[right.len() - 1] == last);
        assert forall|k: int| 0 <= k < front.len() implies (#[trigger] front[k]).end()
            <= last.token_start by {
            if left.contains(front[k]) {
                let i = choose|i: int| 0 <= i < left.len() && left[i] == front[k];
                lemma_starts_before_last(left, i);
                assert(apart(left[i], right[right.len() - 1]));
            } else {
                let j = choose|j: int| 0 <= j < rest.len() && rest[j] == front[k];
                assert(right[j].end() <= right[right.len() - 1].token_start);
            }
        }
        lemma_push_in_order(front, last);
        assert forall|k: int| 0 <= k < all.len() implies left.contains(#[trigger] all[k])
            || right.contains(all[k]) by {
            if k < front.len() {
                assert(all[k] == front[k]);
                if !left.contains(front[k]) {
                    let j = choose|j: int| 0 <= j < rest.len() && rest[j] == front[k];
                    assert(right[j] == all[k]);
                }
            } else {
                assert(right[right.len() - 1] == all[k]);
            }
        }
    } else {
        let rest = left.drop_last();
        lemma_prefix_in_order(left);
        lemma_merged_in_order(rest, right);
        let front = merged(rest, right);
        let last = left.last();
        assert(left[left.len() - 1] == last);
        assert forall|k: int| 0 <= k < front.len() implies (#[trigger] front[k]).end()
            <= last.token_start by {
            if right.contains(front[k]) {
                let j = choose|j: int| 0 <= j < right.len() && right[j] == front[k];
                lemma_starts_before_last(right, j);
                assert(apart(left[left.len() - 1], right[j]));
            } else {
                let i = choose|i: int| 0 <= i < rest.len() && rest[i] == front[k];
                assert(left[i].end() <= left[left.len() - 1].token_start);
            }
        }
        lemma_push_in_order(front, last);
        assert forall|k: int| 0 <= k < all.len() implies left.contains(#[trigger] all[k])
            || right.contains(all[k]) by {
            if k < front.len() {
                assert(all[k] == front[k]);
                if !right.contains(front[k]) {
                    let i = choose|i: int| 0 <= i < rest.len() && rest[i] == front[k];
                    assert(left[i] == all[k]);
                }
            } else {
                assert(left[left.len() - 1] == all[k]);
            }
        }
    }
}

proof fn lemma_prefix_in_order(chunks: Seq<ChunkView>)
    requires
        chunks.len() > 0,
        in_order(chunks),
    ensures
        in_order(chunks.drop_last()),
{
    let front = chunks.drop_last();
    assert forall|i: int, j: int| 0 <= i < j < front.len() implies #[trigger] front[i].end()
        <= #[trigger] front[j].token_start by {
        assert(chunks[i].end() <= chunks[j].token_start);
    }
}

proof fn lemma_starts_before_last(chunks: Seq<ChunkView>, index: int)
    requires
        in_order(chunks),
        0 <= index < chunks.len(),
        forall|k: int|
            0 <= k < chunks.len() ==> (#[trigger] chunks[k]).token_start < chunks[k].end(),
    ensures
        chunks[index].token_start <= chunks.last().token_start,
{
    if index < chunks.len() - 1 {
        assert(chunks[index].end() <= chunks[chunks.len() - 1].token_start);
    }
}

proof fn lemma_push_in_order(front: Seq<ChunkView>, last: ChunkView)
    requires
        in_order(front),
        forall|k: int|
            0 <= k < front.len() ==> (#[trigger] front[k]).end() <= last.token_start,
    ensures
        in_order(front.push(last)),
{
    let all = front.push(last);
    assert forall|i: int, j: int| 0 <= i < j < all.len() implies #[trigger] all[i].end()
        <= #[trigger] all[j].token_start by {
        if j < front.len() {
            assert(front[i].end() <= front[j].token_start);
        } else {
            assert(all[i] == front[i]);
        }
    }
}

/// The order of the chunks is canonical: builders that hold the same chunks hold them in the
/// same order, whatever the order in which they came.
pub proof fn order_is_canonical(left: Seq<ChunkView>, right: Seq<ChunkView>)
    requires
        in_order(left),
        in_order(right),
        forall|k: int| 0 <= k < left.len() ==> (#[trigger] left[k]).token_start < left[k].end(),
        forall|k: int| 0 <= k < right.len() ==> (#[trigger] right[k]).token_start < right[k].end(),
        left.to_multiset() == right.to_multiset(),
    ensures
        left == right,
    decreases left.len(),
{
    broadcast use vstd::seq_lib::group_to_multiset_ensures;

    assert(left.to_multiset().len() == left.len());
    assert(right.to_multiset().len() == right.len());
    if left.len() > 0 {
        let n = left.len() as int - 1;
        assert(left.to_multiset().contains(left[n]));
        assert(right.to_multiset().contains(left[n]));
        assert(right.contains(left[n]));
        let j = choose|j: int| 0 <= j < right.len() && right[j] == left[n];
        assert(right.to_multiset().contains(right[n]));
        assert(left.contains(right[n]));
        let i = choose|i: int| 0 <= i < left.len() && left[i] == right[n];
        lemma_starts_before_last(left, i);
        if j < n {
            assert(right[j].end() <= right[n].token_start);
        }
        assert(left[n] == right[n]);
        lemma_prefix_in_order(left);
        lemma_prefix_in_order(right);
        let a = left.drop_last();
        let b = right.drop_last();
        assert(a.push(left[n]) =~= left);
        assert(b.push(right[n]) =~= right);
        assert(a.to_multiset() =~= left.to_multiset().remove(left[n]));
        assert(b.to_multiset() =~= right.to_multiset().remove(right[n]));
        order_is_canonical(a, b);
    } else {
        assert(left =~= right);
    }
}

/// A token of the tensor is in a missing range exactly when no chunk holds it.
pub proof fn missing_ranges_are_uncovered(builder: BuilderView, token: int)
    requires
        builder.valid(),
        0 <= token < builder.schema.total_tokens,
    ensures
        (exists|k: int|
            0 <= k < gaps(builder.chunks, 0, 0, builder.schema.total_tokens).len() && (
            #[trigger] gaps(builder.chunks, 0, 0, builder.schema.total_tokens)[k]).start <= token
                < gaps(builder.chunks, 0, 0, builder.schema.total_tokens)[k].end) <==> !holds(
            builder.chunks,
            token,
        ),
{
    lemma_gaps(builder.chunks, 0, 0, builder.schema.total_tokens, token);
}

spec fn in_gaps(ranges: Seq<Range<u64>>, token: int) -> bool {
    exists|k: int|
        0 <= k < ranges.len() && (#[trigger] ranges[k]).start <= token < ranges[k].end
}

spec fn held_from(chunks: Seq<ChunkView>, from: nat, token: int) -> bool {
    exists|k: int|
        from <= k < chunks.len() && (#[trigger] chunks[k]).token_start <= token < chunks[k].end()
}

proof fn lemma_gaps(
    chunks: Seq<ChunkView>,
    from: nat,
    expected: u64,
    total: u64,
    token: int,
)
    requires
        from <= chunks.len(),
        in_order(chunks),
        forall|k: int|
            0 <= k < chunks.len() ==> (#[trigger] chunks[k]).token_start < chunks[k].end()
                <= total,
        from == 0 ==> expected == 0,
        from > 0 ==> expected == chunks[from - 1].end(),
        0 <= token < total,
    ensures
        in_gaps(gaps(chunks, from, expected, total), token) <==> token >= expected && !held_from(
            chunks,
            from,
            token,
        ),
    decreases chunks.len() - from,
{
    let ranges = gaps(chunks, from, expected, total);
    if from >= chunks.len() {
        if expected < total {
            assert(ranges[0].start == expected && ranges[0].end == total);
            if token >= expected {
                assert(ranges[0].start <= token < ranges[0].end);
            }
        }
    } else {
        let chunk = chunks[from as int];
        let end = chunk.end() as u64;
        let rest = gaps(chunks, from + 1, end, total);
        lemma_gaps(chunks, from + 1, end, total, token);
        assert(chunks[from as int].token_start < chunks[from as int].end());
        if from > 0 {
            assert(chunks[from - 1].end() <= chunks[from as int].token_start);
        }
        let first = Range { start: expected, end: chunk.token_start };
        assert(ranges == if chunk.token_start > expected {
            seq![first] + rest
        } else {
            rest
        });
        let here = chunk.token_start > expected && expected <= token < chunk.token_start;
        assert(in_gaps(ranges, token) <==> here || in_gaps(rest, token)) by {
            if in_gaps(ranges, token) {
                let k = choose|k: int|
                    0 <= k < ranges.len() && (#[trigger] ranges[k]).start <= token < ranges[k].end;
                if chunk.token_start > expected && k > 0 {
                    assert(rest[k - 1] == ranges[k]);
                }
            }
            if here {
                assert(ranges[0] == first);
            }
            if in_gaps(rest, token) {
                let k = choose|k: int|
                    0 <= k < rest.len() && (#[trigger] rest[k]).start <= token < rest[k].end;
                if chunk.token_start > expected {
                    assert(ranges[k + 1] == rest[k]);
                } else {
                    assert(ranges[k] == rest[k]);
                }
            }
        }
        assert(held_from(chunks, from, token) <==> (chunk.token_start <= token < end) || held_from(
            chunks,
            from + 1,
            token,
        )) by {
            if held_from(chunks, from, token) {
                let k = choose|k: int|
                    from <= k < chunks.len() && (#[trigger] chunks[k]).token_start <= token
                        < chunks[k].end();
                if k > from {
                    assert(held_from(chunks, from + 1, token));
                }
            }
            if chunk.token_start <= token < end {
                assert(chunks[from as int].token_start <= token);
            }
        }
        if held_from(chunks, from + 1, token) {
            let k = choose|k: int|
                from + 1 <= k < chunks.len() && (#[trigger] chunks[k]).token_start <= token
                    < chunks[k].end();
            assert(chunks[from as int].end() <= chunks[k].token_start);
        }
    }
}

/// Resume-friendly assembler for validated activation chunks.
#[derive(Clone, Debug)]
pub struct ActivationCacheBuilder {
    spec: ActivationCacheSpec,
    chunks: Vec<ActivationChunk>,
    covered_tokens: u64,
}

impl View for ActivationCacheBuilder {
    type V = BuilderView;

    closed spec fn view(&self) -> BuilderView {
        BuilderView { schema: self.spec@, chunks: chunk_views(self.chunks@) }
    }
}

impl ActivationCacheBuilder {
    /// The chunks are disjoint valid intervals of the schema in token order, each with its own
    /// digest, and the token count is theirs.
    pub closed spec fn wf(&self) -> bool {
        &&& self.spec.wf()
        &&& self@.valid()
        &&& forall|k: int| 0 <= k < self.chunks@.len() ==> (#[trigger] self.chunks@[k]).wf()
        &&& self.covered_tokens as nat == covered(self@.chunks)
    }

    /// A well-formed builder is a valid one.
    pub proof fn wf_valid(&self)
        requires
            self.wf(),
        ensures
            self@.valid(),
    {
    }

    /// Creates an empty builder for a validated cache schema.
    pub fn new(spec: ActivationCacheSpec) -> (builder: Self)
        requires
            spec.wf(),
        ensures
            builder.wf(),
            builder@ == (BuilderView { schema: spec@, chunks: Seq::empty() }),
    {
        Self::new_in(spec, Vec::new())
    }

    /// Creates an empty builder whose chunks will go into the given empty vector.
    pub fn new_in(spec: ActivationCacheSpec, chunks: Vec<ActivationChunk>) -> (builder: Self)
        requires
            spec.wf(),
            chunks@.len() == 0,
        ensures
            builder.wf(),
            builder@ == (BuilderView { schema: spec@, chunks: Seq::empty() }),
    {
        proof {
            spec.wf_valid();
        }
        let builder = ActivationCacheBuilder { spec, chunks, covered_tokens: 0 };
        assert(builder@.chunks =~= Seq::empty());
        builder
    }

    /// Returns the destination schema.
    pub fn spec(&self) -> (spec: &ActivationCacheSpec)
        requires
            self.wf(),
        ensures
            spec@ == self@.schema,
            spec.wf(),
    {
        &self.spec
    }

    /// Returns the present chunks in token order.
    pub fn chunks(&self) -> (chunks: &[ActivationChunk])
        requires
            self.wf(),
        ensures
            chunk_views(chunks@) == self@.chunks,
            forall|k: int| 0 <= k < chunks@.len() ==> (#[trigger] chunks@[k]).wf(),
    {
        self.chunks.as_slice()
    }

    /// Returns the number of non-overlapping token rows currently present.
    pub fn covered_tokens(&self) -> (tokens: u64)
        requires
            self.wf(),
        ensures
            tokens as nat == covered(self@.chunks),
    {
        self.covered_tokens
    }

    /// Returns missing global token intervals in ascending order.
    pub fn missing_ranges(&self) -> (missing: Vec<Range<u64>>)
        requires
            self.wf(),
        ensures
            missing@ == gaps(self@.chunks, 0, 0, self@.schema.total_tokens),
    {
        let ghost all = gaps(self@.chunks, 0, 0, self@.schema.total_tokens);
        let mut missing: Vec<Range<u64>> = Vec::new();
        let mut expected: u64 = 0;
        let mut index: usize = 0;
        assert(missing@ + all =~= all);
        while index < self.chunks.len()
            invariant
                self.wf(),
                index <= self.chunks@.len(),
                all == gaps(self@.chunks, 0, 0, self@.schema.total_tokens),
                all == missing@ + gaps(
                    self@.chunks,
                    index as nat,
                    expected,
                    self@.schema.total_tokens,
                ),
            decreases self.chunks@.len() - index,
        {
            let ghost before = missing@;
            let chunk = &self.chunks[index];
            assert(chunk.wf());
            assert(self@.chunks[index as int] == chunk@);
            let start: u64 = chunk.token_start();
            let end: u64 = chunk.token_end();
            let ghost rest = gaps(
                self@.chunks,
                (index + 1) as nat,
                end,
                self@.schema.total_tokens,
            );
            if start > expected {
                let ghost gap = Range { start: expected, end: start };
                missing.push(Range { start: expected, end: start });
                assert(before + (seq![gap] + rest) =~= before.push(gap) + rest);
            }
            expected = end;
            index = index + 1;
        }
        if expected < self.spec.total_tokens() {
            missing.push(Range { start: expected, end: self.spec.total_tokens() });
        }
        assert(missing@ =~= all);
        missing
    }

    /// The first position whose chunk starts at `start` or later.
    fn lower_bound(&self, start: u64) -> (at: usize)
        requires
            self.wf(),
        ensures
            at as nat == position(self@.chunks, start, 0),
            at <= self.chunks@.len(),
    {
        let mut low: usize = 0;
        let mut high: usize = self.chunks.len();
        while low < high
            invariant
                self.wf(),
                low <= high <= self.chunks@.len(),
                forall|k: int|
                    0 <= k < low ==> (#[trigger] self@.chunks[k]).token_start < start,
                forall|k: int|
                    high <= k < self@.chunks.len() ==> (#[trigger] self@.chunks[k]).token_start
                        >= start,
            decreases high - low,
        {
            let middle: usize = low + (high - low) / 2;
            assert(self@.chunks[middle as int] == self.chunks@[middle as int]@);
            if self.chunks[middle].token_start() < start {
                assert forall|k: int| 0 <= k < middle + 1 implies (
                #[trigger] self@.chunks[k]).token_start < start by {
                    if k < middle {
                        assert(self@.chunks[k].end() <= self@.chunks[middle as int].token_start);
                        assert(self@.chunks[k].valid());
                    }
                }
                low = middle + 1;
            } else {
                assert forall|k: int|
                    middle <= k < self@.chunks.len() implies (#[trigger] self@.chunks[k]).token_start
                    >= start by {
                    if k > middle {
                        assert(self@.chunks[middle as int].end() <= self@.chunks[k].token_start);
                    }
                }
                high = middle;
            }
        }
        proof {
            lemma_position_unique(self@.chunks, start, low as nat);
        }
        low
    }

    /// Finds the conflict of an interval with the present chunks, or where it belongs.
    fn find_slot(&self, start: u64, end: u64) -> (slot: Result<usize, ActivationCacheError>)
        requires
            self.wf(),
        ensures
            match conflict(self@.chunks, start, end) {
                Some(error) => slot == Err::<usize, ActivationCacheError>(error),
                None => slot matches Ok(at) && at as nat == position(self@.chunks, start, 0) && at
                    <= self.chunks@.len(),
            },
    {
        let at: usize = self.lower_bound(start);
        if at < self.chunks.len() {
            let existing = &self.chunks[at];
            assert(existing.wf());
            assert(self@.chunks[at as int] == existing@);
            if existing.token_start() == start {
                if existing.token_end() == end {
                    return Err(ActivationCacheError::DuplicateRange { start, end });
                }
                return Err(
                    ActivationCacheError::OverlappingRange {
                        start,
                        end,
                        existing_start: existing.token_start(),
                        existing_end: existing.token_end(),
                    },
                );
            }
        }
        if at > 0 {
            let previous = &self.chunks[at - 1];
            assert(previous.wf());
            assert(self@.chunks[at - 1] == previous@);
            if previous.token_end() > start {
                return Err(
                    ActivationCacheError::OverlappingRange {
                        start,
                        end,
                        existing_start: previous.token_start(),
                        existing_end: previous.token_end(),
                    },
                );
            }
        }
        if at < self.chunks.len() {
            let next = &self.chunks[at];
            assert(next.wf());
            assert(self@.chunks[at as int] == next@);
            if next.token_start() < end {
                return Err(
                    ActivationCacheError::OverlappingRange {
                        start,
                        end,
                        existing_start: next.token_start(),
                        existing_end: next.token_end(),
                    },
                );
            }
        }
        Ok(at)
    }

    /// Atomically adds a non-overlapping chunk created from the same exact schema.
    pub fn ingest(&mut self, chunk: ActivationChunk) -> (result: Result<(), ActivationCacheError>)
        requires
            old(self).wf(),
            chunk.wf(),
        ensures
            final(self).wf(),
            final(self)@.schema == old(self)@.schema,
            result is Err ==> final(self)@ == old(self)@,
            if !chunk@.fits(old(self)@.schema) {
                &&& result matches Err(ActivationCacheError::SchemaMismatch { expected, got })
                &&& expected@ == old(self)@.schema.digest()
                &&& got@ == chunk@.schema_digest
            } else {
                match conflict(old(self)@.chunks, chunk@.token_start, chunk@.end() as u64) {
                    Some(error) => result == Err::<(), ActivationCacheError>(error),
                    None => {
                        ||| result matches Err(ActivationCacheError::AllocationFailed { bytes })
                            && bytes as nat == vstd::layout::size_of::<ActivationChunk>()
                        ||| result is Ok && final(self)@.chunks == old(self)@.chunks.insert(
                            position(old(self)@.chunks, chunk@.token_start, 0) as int,
                            chunk@,
                        )
                    },
                }
            },
    {
        let granted: bool = reserve_chunks(&mut self.chunks, 1);
        self.ingest_granted(chunk, granted)
    }

    /// Adds a chunk, given whether memory was granted for it.
    pub fn ingest_granted(&mut self, chunk: ActivationChunk, granted: bool) -> (result: Result<
        (),
        ActivationCacheError,
    >)
        requires
            old(self).wf(),
            chunk.wf(),
        ensures
            final(self).wf(),
            final(self)@.schema == old(self)@.schema,
            result is Err ==> final(self)@ == old(self)@,
            if !chunk@.fits(old(self)@.schema) {
                &&& result matches Err(ActivationCacheError::SchemaMismatch { expected, got })
                &&& expected@ == old(self)@.schema.digest()
                &&& got@ == chunk@.schema_digest
            } else {
                match conflict(old(self)@.chunks, chunk@.token_start, chunk@.end() as u64) {
                    Some(error) => result == Err::<(), ActivationCacheError>(error),
                    None => if granted {
                        result is Ok && final(self)@.chunks == old(self)@.chunks.insert(
                            position(old(self)@.chunks, chunk@.token_start, 0) as int,
                            chunk@,
                        )
                    } else {
                        result matches Err(ActivationCacheError::AllocationFailed { bytes })
                            && bytes as nat == vstd::layout::size_of::<ActivationChunk>()
                    },
                }
            },
    {
        if !chunk.was_encoded_for(&self.spec) {
            return Err(
                ActivationCacheError::SchemaMismatch {
                    expected: self.spec.schema_digest(),
                    got: chunk.schema_digest(),
                },
            );
        }
        let at: usize = self.find_slot(chunk.token_start(), chunk.token_end())?;
        let bytes: u64 = core::mem::size_of::<ActivationChunk>() as u64;
        let ghost before = self@.chunks;
        if !granted {
            return Err(ActivationCacheError::AllocationFailed { bytes });
        }
        proof {
            chunk.wf_valid();
            let after = before.insert(at as int, chunk@);
            lemma_covered_insert(before, at as int, chunk@);
            assert forall|k: int| 0 <= k < before.len() implies (#[trigger] before[k]).token_start
                < before[k].end() by {
                assert(before[k].valid());
            }
            lemma_insert_in_order(before, chunk@);
            assert forall|k: int| 0 <= k < after.len() implies (#[trigger] after[k]).valid()
                && after[k].fits(self.spec@) by {
                if k < at {
                    assert(after[k] == before[k]);
                } else if k > at {
                    assert(after[k] == before[k - 1]);
                }
            }
            lemma_covered_bound(after, self.spec@.total_tokens as nat);
        }
        self.covered_tokens = self.covered_tokens + chunk.token_count();
        self.chunks.insert(at, chunk);
        assert(self@.chunks =~= before.insert(at as int, chunk@));
        Ok(())
    }

    /// Looks for a conflict of any chunk of another builder.
    fn check_incoming(&self, incoming: &[ActivationChunk]) -> (result: Result<
        (),
        ActivationCacheError,
    >)
        requires
            self.wf(),
            forall|k: int| 0 <= k < incoming@.len() ==> (#[trigger] incoming@[k]).wf(),
        ensures
            match first_conflict(self@.chunks, chunk_views(incoming@), 0) {
                Some(error) => result == Err::<(), ActivationCacheError>(error),
                None => result is Ok,
            },
    {
        let mut index: usize = 0;
        while index < incoming.len()
            invariant
                self.wf(),
                index <= incoming@.len(),
                forall|k: int| 0 <= k < incoming@.len() ==> (#[trigger] incoming@[k]).wf(),
                first_conflict(self@.chunks, chunk_views(incoming@), 0) == first_conflict(
                    self@.chunks,
                    chunk_views(incoming@),
                    index as nat,
                ),
            decreases incoming@.len() - index,
        {
            let next = &incoming[index];
            assert(chunk_views(incoming@)[index as int] == next@);
            let _slot: usize = self.find_slot(next.token_start(), next.token_end())?;
            index = index + 1;
        }
        Ok(())
    }

    /// Atomically merges a checkpointed partial builder, independent of its ingestion order.
    pub fn merge(&mut self, other: Self) -> (result: Result<(), ActivationCacheError>)
        requires
            old(self).wf(),
            other.wf(),
        ensures
            final(self).wf(),
            final(self)@.schema == old(self)@.schema,
            result is Err ==> final(self)@ == old(self)@,
            if old(self)@.schema != other@.schema {
                &&& result matches Err(ActivationCacheError::SchemaMismatch { expected, got })
                &&& expected@ == old(self)@.schema.digest()
                &&& got@ == other@.schema.digest()
            } else {
                match first_conflict(old(self)@.chunks, other@.chunks, 0) {
                    Some(error) => result == Err::<(), ActivationCacheError>(error),
                    None => {
                        ||| other@.chunks.len() > 0 && result == Err::<(), ActivationCacheError>(
                            ActivationCacheError::AllocationFailed {
                                bytes: other@.chunks.len() as u64,
                            },
                        )
                        ||| result is Ok && final(self)@.chunks == merged(
                            old(self)@.chunks,
                            other@.chunks,
                        )
                    },
                }
            },
    {
        let granted: bool = reserve_chunks(&mut self.chunks, other.chunks.len());
        self.merge_granted(other, granted)
    }

    /// Merges a partial builder, given whether memory was granted for its chunks.
    pub fn merge_granted(&mut self, other: Self, granted: bool) -> (result: Result<
        (),
        ActivationCacheError,
    >)
        requires
            old(self).wf(),
            other.wf(),
        ensures
            final(self).wf(),
            final(self)@.schema == old(self)@.schema,
            result is Err ==> final(self)@ == old(self)@,
            if old(self)@.schema != other@.schema {
                &&& result matches Err(ActivationCacheError::SchemaMismatch { expected, got })
                &&& expected@ == old(self)@.schema.digest()
                &&& got@ == other@.schema.digest()
            } else {
                match first_conflict(old(self)@.chunks, other@.chunks, 0) {
                    Some(error) => result == Err::<(), ActivationCacheError>(error),
                    None => if granted {
                        result is Ok && final(self)@.chunks == merged(
                            old(self)@.chunks,
                            other@.chunks,
                        )
                    } else {
                        result == Err::<(), ActivationCacheError>(
                            ActivationCacheError::AllocationFailed {
                                bytes: other@.chunks.len() as u64,
                            },
                        )
                    },
                }
            },
    {
        if !self.spec.same(&other.spec) {
            return Err(
                ActivationCacheError::SchemaMismatch {
                    expected: self.spec.schema_digest(),
                    got: other.spec.schema_digest(),
                },
            );
        }
        self.check_incoming(other.chunks.as_slice())?;
        let count: usize = other.chunks.len();
        if !granted {
            return Err(ActivationCacheError::AllocationFailed { bytes: count as u64 });
        }
        let ghost left = self@.chunks;
        let ghost right = other@.chunks;
        proof {
            lemma_merge_valid(self@, other@);
            lemma_covered_merged(left, right);
            lemma_covered_bound(merged(left, right), self.spec@.total_tokens as nat);
        }
        self.covered_tokens = self.covered_tokens + other.covered_tokens;
        merge_chunks(&mut self.chunks, other.chunks);
        Ok(())
    }
}

/// Makes room for more chunks; `false` when memory is refused, which it is not for none.
fn reserve_chunks(chunks: &mut Vec<ActivationChunk>, additional: usize) -> (reserved: bool)
    ensures
        final(chunks)@ == old(chunks)@,
        additional == 0 ==> reserved,
{
    additional == 0 || chunks.try_reserve(additional).is_ok()
}

proof fn lemma_merge_valid(left: BuilderView, right: BuilderView)
    requires
        left.valid(),
        right.valid(),
        left.schema == right.schema,
        first_conflict(left.chunks, right.chunks, 0) is None,
    ensures
        (BuilderView { schema: left.schema, chunks: merged(left.chunks, right.chunks) }).valid(),
        forall|k: int|
            0 <= k < merged(left.chunks, right.chunks).len() ==> (#[trigger] merged(
                left.chunks,
                right.chunks,
            )[k]).end() <= left.schema.total_tokens,
{
    let a = left.chunks;
    let b = right.chunks;
    assert forall|k: int| 0 <= k < a.len() implies (#[trigger] a[k]).token_start < a[k].end() by {
        assert(a[k].valid());
    }
    assert forall|k: int| 0 <= k < b.len() implies (#[trigger] b[k]).token_start < b[k].end() by {
        assert(b[k].valid());
    }
    assert forall|i: int, j: int| 0 <= i < a.len() && 0 <= j < b.len() implies apart(
        #[trigger] a[i],
        #[trigger] b[j],
    ) by {
        lemma_first_conflict(a, b, 0, j);
        assert(b[j].valid() && b[j].fits(left.schema));
        conflict_is_shared_token(a, b[j].token_start, b[j].end() as u64);
        if !apart(a[i], b[j]) {
            let token = if a[i].token_start < b[j].token_start {
                b[j].token_start as int
            } else {
                a[i].token_start as int
            };
            assert(a[i].token_start <= token < a[i].end());
            assert(holds(a, token));
        }
    }
    lemma_merged_in_order(a, b);
    let all = merged(a, b);
    assert forall|k: int| 0 <= k < all.len() implies (#[trigger] all[k]).valid() && all[k].fits(
        left.schema,
    ) by {
        if a.contains(all[k]) {
            let i = choose|i: int| 0 <= i < a.len() && a[i] == all[k];
            assert(a[i].valid() && a[i].fits(left.schema));
        } else {
            let j = choose|j: int| 0 <= j < b.len() && b[j] == all[k];
            assert(b[j].valid() && b[j].fits(left.schema));
        }
    }
}

proof fn lemma_views_drop_last(chunks: Seq<ActivationChunk>)
    requires
        chunks.len() > 0,
    ensures
        chunk_views(chunks.drop_last()) == chunk_views(chunks).drop_last(),
        chunk_views(chunks).last() == chunks.last()@,
{
    assert(chunk_views(chunks.drop_last()) =~= chunk_views(chunks).drop_last());
}

/// Moves the chunks of both runs into one run in token order.
fn merge_chunks(chunks: &mut Vec<ActivationChunk>, incoming: Vec<ActivationChunk>)
    requires
        forall|k: int| 0 <= k < old(chunks)@.len() ==> (#[trigger] old(chunks)@[k]).wf(),
        forall|k: int| 0 <= k < incoming@.len() ==> (#[trigger] incoming@[k]).wf(),
    ensures
        chunk_views(final(chunks)@) == merged(chunk_views(old(chunks)@), chunk_views(incoming@)),
        forall|k: int| 0 <= k < final(chunks)@.len() ==> (#[trigger] final(chunks)@[k]).wf(),
{
    let ghost all = merged(chunk_views(chunks@), chunk_views(incoming@));
    let mut right: Vec<ActivationChunk> = incoming;
    let mut tail: Vec<ActivationChunk> = Vec::new();
    assert(all =~= merged(chunk_views(chunks@), chunk_views(right@)) + chunk_views(
        tail@,
    ).reverse());
    while chunks.len() > 0 && right.len() > 0
        invariant
            all == merged(chunk_views(chunks@), chunk_views(right@)) + chunk_views(
                tail@,
            ).reverse(),
            forall|k: int| 0 <= k < chunks@.len() ==> (#[trigger] chunks@[k]).wf(),
            forall|k: int| 0 <= k < right@.len() ==> (#[trigger] right@[k]).wf(),
            forall|k: int| 0 <= k < tail@.len() ==> (#[trigger] tail@[k]).wf(),
        decreases chunks@.len() + right@.len(),
    {
        let ghost left_before = chunks@;
        let ghost right_before = right@;
        let ghost tail_before = tail@;
        proof {
            lemma_views_drop_last(left_before);
            lemma_views_drop_last(right_before);
        }
        let left_start: u64 = chunks[chunks.len() - 1].token_start();
        let right_start: u64 = right[right.len() - 1].token_start();
        let ghost mut moved: ChunkView = left_before.last()@;
        if left_start < right_start {
            proof {
                moved = right_before.last()@;
            }
            match right.pop() {
                Some(chunk) => tail.push(chunk),
                None => {},
            }
        } else {
            match chunks.pop() {
                Some(chunk) => tail.push(chunk),
                None => {},
            }
        }
        proof {
            let front = merged(chunk_views(chunks@), chunk_views(right@));
            let back = chunk_views(tail_before).reverse();
            assert(chunk_views(tail@) =~= chunk_views(tail_before).push(moved));
            assert(front.push(moved) + back =~= front + chunk_views(tail@).reverse());
        }
    }
    if chunks.len() == 0 {
        core::mem::swap(chunks, &mut right);
    }
    assert(all == chunk_views(chunks@) + chunk_views(tail@).reverse());
    while tail.len() > 0
        invariant
            all == chunk_views(chunks@) + chunk_views(tail@).reverse(),
            forall|k: int| 0 <= k < chunks@.len() ==> (#[trigger] chunks@[k]).wf(),
            forall|k: int| 0 <= k < tail@.len() ==> (#[trigger] tail@[k]).wf(),
        decreases tail@.len(),
    {
        let ghost left_before = chunks@;
        let ghost tail_before = tail@;
        match tail.pop() {
            Some(chunk) => chunks.push(chunk),
            None => {},
        }
        proof {
            let moved = tail_before.last()@;
            lemma_views_drop_last(tail_before);
            assert(chunk_views(chunks@) =~= chunk_views(left_before).push(moved));
            assert(chunk_views(left_before) + chunk_views(tail_before).reverse() =~= chunk_views(
                chunks@,
            ) + chunk_views(tail@).reverse());
        }
    }
    assert(chunk_views(tail@).reverse() =~= Seq::empty());
    assert(chunk_views(chunks@) =~= all);
}

} // verus!
