//! Laws of activation artifacts: what their identities bind and what does not matter to them.

use crate::activation_builder::BuilderView;
use crate::activation_chunk::{lemma_stored_ends_len, stored_ends, ChunkView};
use crate::activation_content::{all_ends, all_mask, all_values, content_of, CacheContent};
use crate::activation_decode::{ends_round_trip, opened, reopening_gives_the_same_cache};
use crate::activation_scalar::{mask_bytes, mask_round_trip, packed_mask};
use crate::activation_schema::SchemaView;
use crate::wire::{
    le, lemma_le_len, lemma_le_limits, lemma_same_front, lemma_same_number,
};
use vstd::prelude::*;

verus! {

/// The bytes under a schema digest determine every field of the schema.
pub proof fn schema_digest_binds_every_field(left: SchemaView, right: SchemaView)
    requires
        left.valid(),
        right.valid(),
        left.digest_input() == right.digest_input(),
    ensures
        left == right,
{
    broadcast use lemma_le_len;

    lemma_le_limits();
    let a = left.name_bytes();
    let b = right.name_bytes();
    let a6 = le(a.len(), 8) + a;
    let b6 = le(b.len(), 8) + b;
    let a5 = le(left.shard_tokens as nat, 4) + a6;
    let b5 = le(right.shard_tokens as nat, 4) + b6;
    let a4 = left.source_digest + a5;
    let b4 = right.source_digest + b5;
    let a3 = seq![left.dtype.code()] + a4;
    let b3 = seq![right.dtype.code()] + b4;
    let a2 = le(left.feature_width as nat, 8) + a3;
    let b2 = le(right.feature_width as nat, 8) + b3;
    let a1 = le(left.total_tokens as nat, 8) + a2;
    let b1 = le(right.total_tokens as nat, 8) + b2;
    assert(left.digest_input() =~= le(left.layer_index as nat, 4) + a1);
    assert(right.digest_input() =~= le(right.layer_index as nat, 4) + b1);
    lemma_same_number(left.layer_index as nat, right.layer_index as nat, 4, a1, b1);
    lemma_same_number(left.total_tokens as nat, right.total_tokens as nat, 8, a2, b2);
    lemma_same_number(left.feature_width as nat, right.feature_width as nat, 8, a3, b3);
    lemma_same_front(seq![left.dtype.code()], seq![right.dtype.code()], a4, b4);
    assert(seq![left.dtype.code()][0] == seq![right.dtype.code()][0]);
    lemma_same_front(left.source_digest, right.source_digest, a5, b5);
    lemma_same_number(left.shard_tokens as nat, right.shard_tokens as nat, 4, a6, b6);
    lemma_same_number(a.len(), b.len(), 8, a, b);
    vstd::utf8::encode_utf8_decode_utf8(left.tensor_name);
    vstd::utf8::encode_utf8_decode_utf8(right.tensor_name);
}

/// The bytes under a chunk digest determine its schema, range, values, mask and boundaries.
pub proof fn chunk_digest_binds_its_content(left: ChunkView, right: ChunkView)
    requires
        left.valid(),
        right.valid(),
        left.schema_digest.len() == 32,
        right.schema_digest.len() == 32,
        left.values.len() <= u64::MAX,
        right.values.len() <= u64::MAX,
        left.ends.len() <= u64::MAX,
        right.ends.len() <= u64::MAX,
        left.digest_input() == right.digest_input(),
    ensures
        left.schema_digest == right.schema_digest,
        left.token_start == right.token_start,
        left.token_count == right.token_count,
        left.values == right.values,
        left.mask == right.mask,
        left.ends == right.ends,
{
    broadcast use lemma_le_len;

    lemma_le_limits();
    let a7 = stored_ends(left.ends);
    let b7 = stored_ends(right.ends);
    let a6 = le(left.ends.len(), 8) + a7;
    let b6 = le(right.ends.len(), 8) + b7;
    let a5 = packed_mask(left.mask) + a6;
    let b5 = packed_mask(right.mask) + b6;
    let a4 = le(mask_bytes(left.mask.len()), 8) + a5;
    let b4 = le(mask_bytes(right.mask.len()), 8) + b5;
    let a3 = left.values + a4;
    let b3 = right.values + b4;
    let a2 = le(left.values.len(), 8) + a3;
    let b2 = le(right.values.len(), 8) + b3;
    let a1 = le(left.token_count as nat, 8) + a2;
    let b1 = le(right.token_count as nat, 8) + b2;
    let a0 = le(left.token_start as nat, 8) + a1;
    let b0 = le(right.token_start as nat, 8) + b1;
    assert(left.digest_input() =~= left.schema_digest + a0);
    assert(right.digest_input() =~= right.schema_digest + b0);
    lemma_same_front(left.schema_digest, right.schema_digest, a0, b0);
    lemma_same_number(left.token_start as nat, right.token_start as nat, 8, a1, b1);
    lemma_same_number(left.token_count as nat, right.token_count as nat, 8, a2, b2);
    lemma_same_number(left.values.len(), right.values.len(), 8, a3, b3);
    lemma_same_front(left.values, right.values, a4, b4);
    assert(mask_bytes(left.mask.len()) <= u64::MAX);
    lemma_same_number(mask_bytes(left.mask.len()), mask_bytes(right.mask.len()), 8, a5, b5);
    lemma_same_front(packed_mask(left.mask), packed_mask(right.mask), a6, b6);
    mask_round_trip(left.mask);
    mask_round_trip(right.mask);
    lemma_same_number(left.ends.len(), right.ends.len(), 8, a7, b7);
    lemma_stored_ends_len(left.ends);
    lemma_stored_ends_len(right.ends);
    assert(a7.subrange(0, 8 * left.ends.len() as int) =~= a7);
    assert(b7.subrange(0, 8 * right.ends.len() as int) =~= b7);
    ends_round_trip(a7, 0, left.ends);
    ends_round_trip(b7, 0, right.ends);
}

/// Content of chunks around one position.
proof fn lemma_concatenation(before: Seq<ChunkView>, middle: Seq<ChunkView>, after: Seq<ChunkView>)
    ensures
        all_values(before + middle + after) == all_values(before) + all_values(middle) + all_values(
            after,
        ),
        all_mask(before + middle + after) == all_mask(before) + all_mask(middle) + all_mask(after),
        all_ends(before + middle + after) == all_ends(before) + all_ends(middle) + all_ends(after),
    decreases after.len(), middle.len(),
{
    let whole = before + middle + after;
    if after.len() > 0 {
        lemma_concatenation(before, middle, after.drop_last());
        assert(whole.drop_last() =~= before + middle + after.drop_last());
        assert(whole.last() == after.last());
        assert(all_values(whole) =~= all_values(before) + all_values(middle) + all_values(after));
        assert(all_mask(whole) =~= all_mask(before) + all_mask(middle) + all_mask(after));
        assert(all_ends(whole) =~= all_ends(before) + all_ends(middle) + all_ends(after));
    } else if middle.len() > 0 {
        lemma_concatenation(before, middle.drop_last(), after);
        assert(whole.drop_last() =~= before + middle.drop_last() + after);
        assert(whole.last() == middle.last());
        assert(all_values(whole) =~= all_values(before) + all_values(middle) + all_values(after));
        assert(all_mask(whole) =~= all_mask(before) + all_mask(middle) + all_mask(after));
        assert(all_ends(whole) =~= all_ends(before) + all_ends(middle) + all_ends(after));
    } else {
        assert(whole =~= before);
        assert(all_values(whole) =~= all_values(before) + all_values(middle) + all_values(after));
        assert(all_mask(whole) =~= all_mask(before) + all_mask(middle) + all_mask(after));
        assert(all_ends(whole) =~= all_ends(before) + all_ends(middle) + all_ends(after));
    }
}

/// How tokens are cut into chunks does not matter: replacing some neighbouring chunks by others
/// that hold the same values, mask and boundaries gives the same cache content.
pub proof fn chunking_does_not_matter(
    schema: SchemaView,
    before: Seq<ChunkView>,
    middle: Seq<ChunkView>,
    other: Seq<ChunkView>,
    after: Seq<ChunkView>,
)
    requires
        all_values(middle) == all_values(other),
        all_mask(middle) == all_mask(other),
        all_ends(middle) == all_ends(other),
    ensures
        content_of(BuilderView { schema, chunks: before + middle + after }) == content_of(
            BuilderView { schema, chunks: before + other + after },
        ),
        content_of(BuilderView { schema, chunks: before + middle + after }).cache() == content_of(
            BuilderView { schema, chunks: before + other + after },
        ).cache(),
{
    lemma_concatenation(before, middle, after);
    lemma_concatenation(before, other, after);
}

/// Artifacts with the same bytes are the same cache.
pub proof fn artifacts_determine_their_cache(left: CacheContent, right: CacheContent)
    requires
        left.valid(),
        right.valid(),
        left.size() <= u64::MAX,
        right.size() <= u64::MAX,
        left.encoded() == right.encoded(),
    ensures
        left.cache() == right.cache(),
{
    reopening_gives_the_same_cache(left);
    reopening_gives_the_same_cache(right);
    assert(opened(left.encoded(), None) == opened(right.encoded(), None));
}

} // verus!
