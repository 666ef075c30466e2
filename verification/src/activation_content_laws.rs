//! What assembled activation caches promise of tokens, sequences and shards.

use crate::activation_builder::{conflict, covered, gaps, holds, in_order, BuilderView};
use crate::activation_chunk::{chunk_error, lemma_ends_error, ChunkView};
use crate::activation_content::{
    all_ends, all_mask, all_values, content_of, gap_error, incomplete, lemma_contiguous_values,
    lemma_ends_through, lemma_no_gap, lemma_record_len, lemma_shard_ends, lemma_shard_range,
    lemma_size, CacheContent,
};
use crate::activation_schema::{ActivationCacheError, SchemaView};
use crate::wire::white_space;
use core::ops::Range;
use vstd::prelude::*;

verus! {

/// The bytes of one row of consecutive rows.
pub open spec fn row(bytes: Seq<u8>, at: int, width: nat) -> Seq<u8> {
    bytes.subrange(at * width, at * width + width)
}

/// The content of the first chunks begins the content of all.
proof fn lemma_prefixes(chunks: Seq<ChunkView>, count: int)
    requires
        0 <= count <= chunks.len(),
    ensures
        all_values(chunks.take(count)).len() <= all_values(chunks).len(),
        all_mask(chunks.take(count)).len() <= all_mask(chunks).len(),
        all_values(chunks).take(all_values(chunks.take(count)).len() as int) == all_values(
            chunks.take(count),
        ),
        all_mask(chunks).take(all_mask(chunks.take(count)).len() as int) == all_mask(
            chunks.take(count),
        ),
    decreases chunks.len(),
{
    if count == chunks.len() {
        assert(chunks.take(count) =~= chunks);
        assert(all_values(chunks).take(all_values(chunks).len() as int) =~= all_values(chunks));
        assert(all_mask(chunks).take(all_mask(chunks).len() as int) =~= all_mask(chunks));
    } else {
        let front = chunks.drop_last();
        lemma_prefixes(front, count);
        assert(front.take(count) =~= chunks.take(count));
        let part = chunks.take(count);
        let size = all_values(part).len() as int;
        assert(all_values(chunks).take(size) =~= all_values(front).take(size));
        let marks = all_mask(part).len() as int;
        assert(all_mask(chunks).take(marks) =~= all_mask(front).take(marks));
    }
}

/// A chunk's rows and marks stand at its tokens.
proof fn lemma_chunk_place(builder: BuilderView, index: int)
    requires
        builder.valid(),
        incomplete(builder) is None,
        0 <= index < builder.chunks.len(),
    ensures
        ({
            let chunk = builder.chunks[index];
            let start = chunk.token_start as int;
            let width = builder.schema.row_bytes() as int;
            &&& 0 <= start * width
            &&& chunk.end() * width <= content_of(builder).values.len()
            &&& content_of(builder).values.subrange(start * width, chunk.end() * width)
                == chunk.values
            &&& chunk.end() <= content_of(builder).mask.len()
            &&& content_of(builder).mask.subrange(start, chunk.end()) == chunk.mask
        }),
{
    let chunks = builder.chunks;
    let chunk = chunks[index];
    let start = chunk.token_start as int;
    let width = builder.schema.row_bytes() as int;
    assert(chunk.valid() && chunk.fits(builder.schema));
    lemma_no_gap(builder, 0, 0);
    let front = chunks.take(index);
    let part = chunks.take(index + 1);
    assert(part.drop_last() =~= front);
    assert(part.last() == chunk);
    lemma_contiguous_values(builder, (index + 1) as nat);
    if index > 0 {
        lemma_contiguous_values(builder, index as nat);
        assert(chunks[index - 1].end() == chunks[index].token_start);
    } else {
        assert(front =~= Seq::<ChunkView>::empty());
        assert(0 * width == 0) by (nonlinear_arith);
    }
    assert(0 <= start * width) by (nonlinear_arith)
        requires
            start >= 0,
            width >= 0,
    ;
    lemma_prefixes(chunks, index + 1);
    let values = all_values(chunks);
    let size = all_values(part).len() as int;
    assert(size == chunk.end() * width);
    assert(all_values(front).len() == start * width);
    assert(values.take(size).subrange(start * width, size) =~= values.subrange(
        start * width,
        size,
    ));
    assert(all_values(part).subrange(start * width, size) =~= chunk.values);
    let mask = all_mask(chunks);
    let end = chunk.end();
    assert(all_mask(front).len() == start);
    assert(mask.take(end).subrange(start, end) =~= mask.subrange(start, end));
    assert(all_mask(part).subrange(start, end) =~= chunk.mask);
}

/// In the cache of a complete builder every token keeps the row and the mark that its chunk gave
/// it.
pub proof fn every_token_keeps_its_row(builder: BuilderView, index: int, token: int)
    requires
        builder.valid(),
        incomplete(builder) is None,
        0 <= index < builder.chunks.len(),
        builder.chunks[index].token_start <= token < builder.chunks[index].end(),
    ensures
        ({
            let chunk = builder.chunks[index];
            let width = builder.schema.row_bytes();
            &&& row(content_of(builder).values, token, width) == row(
                chunk.values,
                token - chunk.token_start,
                width,
            )
            &&& content_of(builder).mask[token] == chunk.mask[token - chunk.token_start]
        }),
{
    let chunk = builder.chunks[index];
    assert(chunk.valid() && chunk.fits(builder.schema));
    lemma_chunk_place(builder, index);
    let width = builder.schema.row_bytes() as int;
    let start = chunk.token_start as int;
    let at = token - start;
    let values = content_of(builder).values;
    assert(token * width == start * width + at * width) by (nonlinear_arith)
        requires
            token == start + at,
    ;
    assert(at * width >= 0 && token * width + width <= chunk.end() * width) by (nonlinear_arith)
        requires
            token + 1 <= chunk.end(),
            at >= 0,
            width >= 0,
    ;
    assert(row(values, token, width as nat) =~= values.subrange(
        start * width,
        chunk.end() * width,
    ).subrange(at * width, at * width + width));
    let mask = content_of(builder).mask;
    assert(mask.subrange(start, chunk.end())[at] == mask[token]);
}

/// The sequence ends of a cache are those of its chunks, and no others.
pub proof fn sequence_ends_are_those_of_the_chunks(chunks: Seq<ChunkView>, end: u64)
    ensures
        all_ends(chunks).contains(end) <==> exists|k: int|
            0 <= k < chunks.len() && (#[trigger] chunks[k]).ends.contains(end),
    decreases chunks.len(),
{
    if chunks.len() > 0 {
        let front = chunks.drop_last();
        sequence_ends_are_those_of_the_chunks(front, end);
        let before = all_ends(front);
        let last = chunks.last().ends;
        let all = all_ends(chunks);
        if all.contains(end) {
            let i = choose|i: int| 0 <= i < all.len() && all[i] == end;
            if i < before.len() {
                assert(before[i] == end);
                assert(before.contains(end));
                let k = choose|k: int|
                    0 <= k < front.len() && (#[trigger] front[k]).ends.contains(end);
                assert(chunks[k].ends.contains(end));
            } else {
                assert(last[i - before.len()] == end);
                assert(chunks[chunks.len() - 1].ends.contains(end));
            }
        }
        if exists|k: int| 0 <= k < chunks.len() && (#[trigger] chunks[k]).ends.contains(end) {
            let k = choose|k: int|
                0 <= k < chunks.len() && (#[trigger] chunks[k]).ends.contains(end);
            if k < front.len() {
                assert(front[k].ends.contains(end));
                let i = choose|i: int| 0 <= i < before.len() && before[i] == end;
                assert(all[i] == end);
            } else {
                let i = choose|i: int| 0 <= i < last.len() && last[i] == end;
                assert(all[before.len() + i] == end);
            }
        }
    }
}

/// A builder is complete exactly if every token is held, the last sequence ends with the last
/// token, and the content can be addressed.
pub proof fn complete_builders_hold_every_token(builder: BuilderView)
    requires
        builder.valid(),
    ensures
        incomplete(builder) is None <==> {
            &&& forall|token: int|
                0 <= token < builder.schema.total_tokens ==> holds(builder.chunks, token)
            &&& exists|k: int|
                0 <= k < builder.chunks.len() && (#[trigger] builder.chunks[k]).ends.contains(
                    builder.schema.total_tokens,
                )
            &&& builder.schema.total_tokens * builder.schema.row_bytes() <= usize::MAX
            &&& builder.schema.total_tokens <= usize::MAX
        },
{
    let chunks = builder.chunks;
    let total = builder.schema.total_tokens;
    lemma_first_gap(builder, 0, 0);
    sequence_ends_are_those_of_the_chunks(chunks, total);
    let ends = all_ends(chunks);
    if gap_error(chunks, 0, 0, total) is None {
        lemma_no_gap(builder, 0, 0);
        if chunks.len() > 0 {
            lemma_contiguous_values(builder, chunks.len());
            assert(chunks.take(chunks.len() as int) =~= chunks);
            if ends.contains(total) {
                let i = choose|i: int| 0 <= i < ends.len() && ends[i] == total;
                if i < ends.len() - 1 {
                    assert(ends[i] < ends[ends.len() - 1]);
                    assert(ends[ends.len() - 1] <= total);
                }
            }
            if ends.len() > 0 && ends.last() == total {
                assert(ends[ends.len() - 1] == total);
                assert(ends.contains(total));
            }
        }
    } else {
        let missing = match gap_error(chunks, 0, 0, total) {
            Some(ActivationCacheError::Gap { expected_start, .. }) => expected_start as int,
            _ => 0,
        };
        assert(!holds(chunks, missing));
        assert(0 <= missing < total);
    }
}

/// Whether an error names the first token that no chunk from a position on holds, and the next
/// one that some chunk holds.
pub open spec fn names_first_gap(
    error: Option<ActivationCacheError>,
    chunks: Seq<ChunkView>,
    from: nat,
    expected: int,
    total: int,
) -> bool {
    match error {
        None => forall|token: int| expected <= token < total ==> holds(chunks, token),
        Some(ActivationCacheError::Gap { expected_start, next_start }) => {
            &&& expected <= expected_start < total
            &&& forall|token: int| expected <= token < expected_start ==> holds(chunks, token)
            &&& match next_start {
                None => forall|token: int| expected_start <= token ==> !holds(chunks, token),
                Some(next) => {
                    &&& expected_start < next
                    &&& holds(chunks, next as int)
                    &&& forall|token: int| expected_start <= token < next ==> !holds(chunks, token)
                },
            }
        },
        Some(_) => false,
    }
}

proof fn lemma_first_gap(builder: BuilderView, from: nat, expected: u64)
    requires
        builder.valid(),
        from <= builder.chunks.len(),
        from > 0 ==> expected == builder.chunks[from - 1].end(),
        from == 0 ==> expected == 0,
    ensures
        names_first_gap(
            gap_error(builder.chunks, from, expected, builder.schema.total_tokens),
            builder.chunks,
            from,
            expected as int,
            builder.schema.total_tokens as int,
        ),
    decreases builder.chunks.len() - from,
{
    let chunks = builder.chunks;
    let total = builder.schema.total_tokens;
    let error = gap_error(chunks, from, expected, total);
    assert forall|k: int| 0 <= k < chunks.len() implies (#[trigger] chunks[k]).token_start
        < chunks[k].end() <= total by {
        assert(chunks[k].valid() && chunks[k].fits(builder.schema));
    }
    if from >= chunks.len() {
        if expected != total {
            if from > 0 {
                assert(chunks[from - 1].end() <= total);
            }
            assert forall|token: int| expected <= token implies !holds(chunks, token) by {
                if holds(chunks, token) {
                    let k = choose|k: int|
                        0 <= k < chunks.len() && (#[trigger] chunks[k]).token_start <= token
                            < chunks[k].end();
                    if k < from - 1 {
                        assert(chunks[k].end() <= chunks[from - 1].token_start);
                        assert(chunks[from - 1].token_start < chunks[from - 1].end());
                    }
                }
            }
        }
    } else {
        let chunk = chunks[from as int];
        assert(chunk.token_start < chunk.end() <= total);
        if from > 0 {
            assert(chunks[from - 1].end() <= chunks[from as int].token_start);
        }
        if chunk.token_start != expected {
            assert(holds(chunks, chunk.token_start as int)) by {
                assert(chunks[from as int].token_start <= chunk.token_start
                    < chunks[from as int].end());
            }
            assert forall|token: int| expected <= token < chunk.token_start implies !holds(
                chunks,
                token,
            ) by {
                if holds(chunks, token) {
                    let k = choose|k: int|
                        0 <= k < chunks.len() && (#[trigger] chunks[k]).token_start <= token
                            < chunks[k].end();
                    if k < from - 1 {
                        assert(chunks[k].end() <= chunks[from - 1].token_start);
                        assert(chunks[from - 1].token_start < chunks[from - 1].end());
                    } else if k > from {
                        assert(chunks[from as int].end() <= chunks[k].token_start);
                    }
                }
            }
        } else {
            lemma_first_gap(builder, from + 1, chunk.end() as u64);
            assert forall|token: int| expected <= token < chunk.end() implies holds(
                chunks,
                token,
            ) by {
                assert(chunks[from as int].token_start <= token < chunks[from as int].end());
            }
        }
    }
}

/// A builder with a gap is told the first token that is missing, and the first one after it that
/// is held.
pub proof fn the_first_gap_is_named(builder: BuilderView)
    requires
        builder.valid(),
    ensures
        names_first_gap(
            gap_error(builder.chunks, 0, 0, builder.schema.total_tokens),
            builder.chunks,
            0,
            0,
            builder.schema.total_tokens as int,
        ),
        gap_error(builder.chunks, 0, 0, builder.schema.total_tokens) is Some ==> incomplete(builder)
            == gap_error(builder.chunks, 0, 0, builder.schema.total_tokens),
{
    lemma_first_gap(builder, 0, 0);
}

/// Tokens of ranges one after the other.
pub open spec fn range_tokens(ranges: Seq<Range<u64>>) -> int
    decreases ranges.len(),
{
    if ranges.len() == 0 {
        0
    } else {
        ranges[0].end - ranges[0].start + range_tokens(ranges.drop_first())
    }
}

proof fn lemma_gap_tokens(builder: BuilderView, from: nat, expected: u64)
    requires
        builder.valid(),
        from <= builder.chunks.len(),
        from > 0 ==> expected == builder.chunks[from - 1].end(),
        from == 0 ==> expected == 0,
    ensures
        range_tokens(gaps(builder.chunks, from, expected, builder.schema.total_tokens)) + covered(
            builder.chunks,
        ) == builder.schema.total_tokens - expected + covered(builder.chunks.take(from as int)),
    decreases builder.chunks.len() - from,
{
    let chunks = builder.chunks;
    let total = builder.schema.total_tokens;
    if from >= chunks.len() {
        assert(chunks.take(from as int) =~= chunks);
        if from > 0 {
            assert(chunks[from - 1].valid() && chunks[from - 1].fits(builder.schema));
        }
        if expected < total {
            let last = Range { start: expected, end: total };
            assert(seq![last].drop_first() =~= Seq::<Range<u64>>::empty());
            assert(range_tokens(seq![last].drop_first()) == 0);
        }
    } else {
        let chunk = chunks[from as int];
        assert(chunk.valid() && chunk.fits(builder.schema));
        let end = chunk.end() as u64;
        lemma_gap_tokens(builder, from + 1, end);
        let part = chunks.take(from as int + 1);
        assert(part.drop_last() =~= chunks.take(from as int));
        assert(part.last() == chunk);
        if from > 0 {
            assert(chunks[from - 1].end() <= chunks[from as int].token_start);
        }
        let rest = gaps(chunks, from + 1, end, total);
        if chunk.token_start > expected {
            let ranges = seq![Range { start: expected, end: chunk.token_start }] + rest;
            assert(ranges.drop_first() =~= rest);
            assert(ranges[0].end - ranges[0].start == chunk.token_start - expected);
        }
    }
}

/// The covered tokens and those of the missing ranges are together all tokens.
pub proof fn covered_and_missing_are_all(builder: BuilderView)
    requires
        builder.valid(),
    ensures
        covered(builder.chunks) + range_tokens(
            gaps(builder.chunks, 0, 0, builder.schema.total_tokens),
        ) == builder.schema.total_tokens,
{
    lemma_gap_tokens(builder, 0, 0);
    assert(builder.chunks.take(0) =~= Seq::<ChunkView>::empty());
}

/// A refused interval is told a chunk that shares a token with it: a duplicate is one with the
/// same bounds, an overlap names the bounds of another.
pub proof fn conflicts_name_a_chunk(chunks: Seq<ChunkView>, start: u64, end: u64)
    requires
        start < end,
        in_order(chunks),
        forall|k: int|
            0 <= k < chunks.len() ==> (#[trigger] chunks[k]).token_start < chunks[k].end()
                <= u64::MAX,
    ensures
        match conflict(chunks, start, end) {
            None => true,
            Some(ActivationCacheError::DuplicateRange { start: from, end: to }) => {
                &&& from == start
                &&& to == end
                &&& exists|k: int|
                    0 <= k < chunks.len() && (#[trigger] chunks[k]).token_start == start
                        && chunks[k].end() == end
            },
            Some(
                ActivationCacheError::OverlappingRange {
                    start: from,
                    end: to,
                    existing_start,
                    existing_end,
                },
            ) => {
                &&& from == start
                &&& to == end
                &&& existing_start != start || existing_end != end
                &&& existing_start < end && start < existing_end
                &&& exists|k: int|
                    0 <= k < chunks.len() && (#[trigger] chunks[k]).token_start == existing_start
                        && chunks[k].end() == existing_end
            },
            Some(_) => false,
        },
{
    let at = crate::activation_builder::position(chunks, start, 0) as int;
    lemma_found(chunks, start, 0);
    if at < chunks.len() {
        assert(chunks[at].token_start < chunks[at].end() <= u64::MAX);
    }
    if at > 0 {
        assert(chunks[at - 1].token_start < chunks[at - 1].end() <= u64::MAX);
    }
}

proof fn lemma_found(chunks: Seq<ChunkView>, start: u64, from: nat)
    requires
        from <= chunks.len(),
    ensures
        ({
            let at = crate::activation_builder::position(chunks, start, from);
            &&& from <= at <= chunks.len()
            &&& at < chunks.len() ==> chunks[at as int].token_start >= start
            &&& at > from ==> chunks[at - 1].token_start < start
        }),
    decreases chunks.len() - from,
{
    if from < chunks.len() && chunks[from as int].token_start < start {
        lemma_found(chunks, start, from + 1);
    }
}

/// Every token lies in exactly one shard: the one of its quotient by the shard size. The shards
/// are as few as can hold all tokens.
pub proof fn every_token_lies_in_one_shard(schema: SchemaView, token: int, index: nat)
    requires
        schema.valid(),
        0 <= token < schema.total_tokens,
        index < schema.shards(),
    ensures
        schema.shard_start(index) <= token < schema.shard_start(index) + schema.shard_count_at(index)
            <==> index == token / schema.shard_tokens as int,
        token / (schema.shard_tokens as int) < schema.shards(),
        (schema.shards() - 1) * schema.shard_tokens < schema.total_tokens <= schema.shards()
            * schema.shard_tokens,
        index + 1 < schema.shards() ==> schema.shard_count_at(index) == schema.shard_tokens,
{
    let tokens = schema.shard_tokens as int;
    let total = schema.total_tokens as int;
    lemma_shard_range(schema, index);
    vstd::arithmetic::div_mod::lemma_fundamental_div_mod(total - 1, tokens);
    vstd::arithmetic::div_mod::lemma_fundamental_div_mod(token, tokens);
    vstd::arithmetic::div_mod::lemma_div_is_ordered(token, total - 1, tokens);
    let last = (total - 1) / tokens;
    let at = token / tokens;
    assert(last >= 0) by {
        vstd::arithmetic::div_mod::lemma_div_pos_is_pos(total - 1, tokens);
    }
    assert(tokens * last == last * tokens && (last + 1) * tokens == last * tokens + tokens && tokens
        * at == at * tokens) by (nonlinear_arith);
    assert((index + 1) * tokens == index * tokens + tokens) by (nonlinear_arith);
    if index < at {
        assert((index + 1) * tokens <= at * tokens) by (nonlinear_arith)
            requires
                index + 1 <= at,
                tokens >= 1,
        ;
    } else if index > at {
        assert((at + 1) * tokens <= index * tokens) by (nonlinear_arith)
            requires
                at + 1 <= index,
                tokens >= 1,
        ;
        assert((at + 1) * tokens == at * tokens + tokens) by (nonlinear_arith);
    }
    if index + 1 < schema.shards() {
        assert((index + 1) * tokens <= last * tokens) by (nonlinear_arith)
            requires
                index + 1 <= last,
                tokens >= 1,
        ;
    }
}

/// A shard holds the rows and the marks of its tokens, in order.
pub proof fn shards_hold_their_tokens(content: CacheContent, index: nat, token: int)
    requires
        content.valid(),
        index < content.schema.shards(),
        content.schema.shard_start(index) <= token < content.schema.shard_start(index)
            + content.schema.shard_count_at(index),
    ensures
        ({
            let width = content.schema.row_bytes();
            let at = token - content.schema.shard_start(index);
            &&& row(content.shard_values(index), at, width) == row(content.values, token, width)
            &&& content.shard_mask(index)[at] == content.mask[token]
        }),
{
    lemma_record_len(content, index);
    lemma_shard_range(content.schema, index);
    let width = content.schema.row_bytes() as int;
    let start = content.schema.shard_start(index) as int;
    let end = start + content.schema.shard_count_at(index);
    let at = token - start;
    assert(token * width == start * width + at * width) by (nonlinear_arith)
        requires
            token == start + at,
    ;
    assert(at * width >= 0 && start * width >= 0 && token * width + width <= end * width)
        by (nonlinear_arith)
        requires
            token + 1 <= end,
            at >= 0,
            start >= 0,
            width >= 0,
    ;
    assert(row(content.shard_values(index), at, width as nat) =~= row(
        content.values,
        token,
        width as nat,
    ));
}

/// A shard lists a sequence end exactly if the cache has it and its final token lies in the shard.
pub proof fn shards_list_their_sequence_ends(content: CacheContent, index: nat, end: u64)
    requires
        content.valid(),
        index < content.schema.shards(),
    ensures
        content.shard_ends(index).contains(end) <==> {
            &&& content.ends.contains(end)
            &&& content.schema.shard_start(index) <= end - 1 < content.schema.shard_start(index)
                + content.schema.shard_count_at(index)
        },
{
    lemma_shard_ends(content, index);
    lemma_shard_range(content.schema, index);
    let schema = content.schema;
    let ends = content.ends;
    let start = schema.shard_start(index) as int;
    let next = schema.shard_start(index + 1) as int;
    lemma_ends_through(ends, start, 0);
    lemma_ends_through(ends, next, 0);
    let a = content.cut(index) as int;
    let b = content.cut(index + 1) as int;
    let part = content.shard_ends(index);
    if part.contains(end) {
        let k = choose|k: int| 0 <= k < part.len() && part[k] == end;
        assert(ends[a + k] == end);
        assert(start < part[k]);
    }
    if ends.contains(end) && start <= end - 1 < start + schema.shard_count_at(index) {
        let k = choose|k: int| 0 <= k < ends.len() && ends[k] == end;
        if k < a {
            assert(ends[k] <= start);
        }
        if k >= b {
            assert(ends[b] > next);
            if k > b {
                assert(ends[b] < ends[k]);
            }
            assert(ends[k] <= schema.total_tokens);
        }
        assert(part[k - a] == end);
    }
}

/// The ledger counts the scalars, the sequence ends, the shard headers and the manifest, and the
/// rest of the artifact are its masks.
pub proof fn the_ledger_counts_every_part(content: CacheContent)
    requires
        content.valid(),
        content.size() <= u64::MAX,
    ensures
        ({
            let ledger = content.ledger();
            &&& ledger.value_bytes == content.schema.total_tokens * content.schema.feature_width
                * content.schema.dtype.width()
            &&& ledger.boundary_bytes == 8 * content.ends.len()
            &&& ledger.shard_header_bytes == 32 * content.schema.shards()
            &&& ledger.manifest_bytes == content.head().len()
            &&& ledger.encoded_bytes == content.encoded().len()
            &&& ledger.mask_bytes == content.encoded().len() - ledger.value_bytes
                - ledger.boundary_bytes - ledger.shard_header_bytes - ledger.manifest_bytes
        }),
{
    lemma_size(content);
    let tokens = content.schema.total_tokens as int;
    let features = content.schema.feature_width as int;
    let width = content.schema.dtype.width() as int;
    assert(tokens * (features * width) == tokens * features * width) by (nonlinear_arith);
}

/// A chunk is accepted exactly if it holds tokens of the tensor, one mark for each and a value
/// for each of its scalars, its sequence ends ascend through its tokens, and its bytes can be
/// addressed.
pub proof fn only_sound_chunks_are_accepted(
    schema: SchemaView,
    token_start: u64,
    token_count: u64,
    values: nat,
    mask: nat,
    ends: Seq<u64>,
)
    ensures
        chunk_error(schema, token_start, token_count, values, mask, ends) is None <==> {
            &&& token_count >= 1
            &&& token_start + token_count <= schema.total_tokens
            &&& mask == token_count
            &&& values == token_count * schema.feature_width
            &&& forall|k: int|
                0 <= k < ends.len() ==> token_start < #[trigger] ends[k] <= token_start
                    + token_count
            &&& forall|i: int, j: int| 0 <= i < j < ends.len() ==> ends[i] < ends[j]
            &&& values * schema.dtype.width() <= usize::MAX
        },
{
    let end = token_start + token_count;
    if end <= u64::MAX {
        assert(ends.take(0) =~= Seq::<u64>::empty());
        lemma_ends_error(ends, token_start, end as u64, 0);
    }
}

/// A schema is accepted exactly if its tensor has a name with a visible character and without a
/// zero byte, every dimension counts, it has a source, and its sizes can be counted.
pub proof fn only_sound_schemas_are_accepted(schema: SchemaView)
    ensures
        schema.error() is None <==> {
            &&& exists|k: int|
                0 <= k < schema.tensor_name.len() && !white_space(#[trigger] schema.tensor_name[k])
            &&& forall|k: int|
                0 <= k < schema.name_bytes().len() ==> #[trigger] schema.name_bytes()[k] != 0
            &&& schema.name_bytes().len() <= u32::MAX
            &&& schema.total_tokens >= 1
            &&& schema.feature_width >= 1
            &&& schema.shard_tokens >= 1
            &&& exists|k: int|
                0 <= k < schema.source_digest.len() && #[trigger] schema.source_digest[k] != 0
            &&& schema.total_tokens * schema.feature_width * schema.dtype.width() <= u64::MAX
            &&& (schema.total_tokens - 1) / schema.shard_tokens as int + 1 <= u32::MAX
        },
{
    let scalars = schema.total_tokens as nat * schema.feature_width as nat;
    assert(scalars <= scalars * schema.dtype.width());
    if schema.name_bytes().contains(0) {
        let k = choose|k: int| 0 <= k < schema.name_bytes().len() && schema.name_bytes()[k] == 0;
        assert(schema.name_bytes()[k] == 0);
    }
    if schema.total_tokens >= 1 && schema.shard_tokens >= 1 {
        vstd::arithmetic::div_mod::lemma_div_pos_is_pos(
            schema.total_tokens - 1,
            schema.shard_tokens as int,
        );
    }
}

} // verus!
