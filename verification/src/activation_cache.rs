//! Finalized, content-addressed activation caches.

use crate::activation_builder::{chunk_views, ActivationCacheBuilder};
use crate::activation_chunk::{
    lemma_token_bytes, push_ends, reserved, stored_ends, ActivationChunk,
};
use crate::activation_content::{
    all_ends, all_mask, all_values, cache_digest, complete_builder_is_valid, content_of, entry,
    gap_error, incomplete, lemma_masks_len, lemma_record_len, lemma_shard_ends, lemma_shard_range,
    lemma_size, masks_len, shard_digest, ActivationByteLedger, CacheContent, CacheView, ShardView,
};
use crate::activation_manifest::{push_manifest, ManifestKind};
use crate::activation_scalar::{mask_bytes, pack_mask};
use crate::activation_schema::{
    checked_add, checked_mul, usize_from_u64, ActivationCacheError, ActivationCacheSpec,
    ActivationDigest,
};
use crate::hashing::hash_parts;
use crate::wire::{le, push_bytes, push_le, window};
use vstd::prelude::*;
use vstd::utf8::encode_utf8;

verus! {

impl ActivationByteLedger {
    /// Returns bytes occupied by the top-level schema and shard manifest.
    pub fn manifest_bytes(self) -> (bytes: u64)
        ensures
            bytes == self.manifest_bytes,
    {
        self.manifest_bytes
    }

    /// Returns bytes occupied by all fixed canonical shard headers.
    pub fn shard_header_bytes(self) -> (bytes: u64)
        ensures
            bytes == self.shard_header_bytes,
    {
        self.shard_header_bytes
    }

    /// Returns bytes occupied by dtype-encoded activation scalars.
    pub fn value_bytes(self) -> (bytes: u64)
        ensures
            bytes == self.value_bytes,
    {
        self.value_bytes
    }

    /// Returns bytes occupied by canonical per-shard bit-packed token masks.
    pub fn mask_bytes(self) -> (bytes: u64)
        ensures
            bytes == self.mask_bytes,
    {
        self.mask_bytes
    }

    /// Returns bytes occupied by global exclusive sequence ends in shard payloads.
    pub fn boundary_bytes(self) -> (bytes: u64)
        ensures
            bytes == self.boundary_bytes,
    {
        self.boundary_bytes
    }

    /// Returns the exact total length of the canonical artifact encoding.
    pub fn encoded_bytes(self) -> (bytes: u64)
        ensures
            bytes == self.encoded_bytes,
    {
        self.encoded_bytes
    }

    /// Returns exact bytes in the cache's canonical backing store.
    ///
    /// This protocol ledger excludes Rust index structures used to navigate the backing store.
    pub fn cache_bytes(self) -> (bytes: u64)
        ensures
            bytes == self.encoded_bytes,
    {
        self.encoded_bytes
    }
}

/// Index entry for one fixed-range canonical cache shard.
#[derive(Clone, Debug, PartialEq, Eq)]
pub struct ActivationShard {
    index: u32,
    token_start: u64,
    token_count: u32,
    sequence_ends: Vec<u64>,
    digest: ActivationDigest,
    encoded_offset: u64,
    encoded_bytes: u64,
    value_bytes: u64,
    mask_bytes: u64,
    boundary_bytes: u64,
}

impl View for ActivationShard {
    type V = ShardView;

    closed spec fn view(&self) -> ShardView {
        ShardView {
            index: self.index,
            token_start: self.token_start,
            token_count: self.token_count,
            ends: self.sequence_ends@,
            digest: self.digest@,
            encoded_offset: self.encoded_offset,
            encoded_bytes: self.encoded_bytes,
            value_bytes: self.value_bytes,
            mask_bytes: self.mask_bytes,
            boundary_bytes: self.boundary_bytes,
        }
    }
}

impl ActivationShard {
    /// Puts together the entry of a shard record.
    pub(crate) fn from_parts(
        index: u32,
        token_start: u64,
        token_count: u32,
        sequence_ends: Vec<u64>,
        digest: ActivationDigest,
        encoded_offset: u64,
        encoded_bytes: u64,
        value_bytes: u64,
        mask_bytes: u64,
        boundary_bytes: u64,
    ) -> (shard: Self)
        ensures
            shard@ == (ShardView {
                index,
                token_start,
                token_count,
                ends: sequence_ends@,
                digest: digest@,
                encoded_offset,
                encoded_bytes,
                value_bytes,
                mask_bytes,
                boundary_bytes,
            }),
    {
        ActivationShard {
            index,
            token_start,
            token_count,
            sequence_ends,
            digest,
            encoded_offset,
            encoded_bytes,
            value_bytes,
            mask_bytes,
            boundary_bytes,
        }
    }

    /// Returns the contiguous zero-based canonical shard index.
    pub fn index(&self) -> (index: u32)
        ensures
            index == self@.index,
    {
        self.index
    }

    /// Returns the inclusive global token offset of this shard.
    pub fn token_start(&self) -> (start: u64)
        ensures
            start == self@.token_start,
    {
        self.token_start
    }

    /// Returns the number of token rows in this shard.
    pub fn token_count(&self) -> (count: u32)
        ensures
            count == self@.token_count,
    {
        self.token_count
    }

    /// Returns the exclusive global token offset after this shard.
    pub fn token_end(&self) -> (end: u64)
        requires
            self@.token_start + self@.token_count <= u64::MAX,
        ensures
            end == self@.token_start + self@.token_count,
    {
        self.token_start + self.token_count as u64
    }

    /// Returns exclusive sequence ends whose final token lies in this shard.
    pub fn sequence_ends(&self) -> (ends: &[u64])
        ensures
            ends@ == self@.ends,
    {
        self.sequence_ends.as_slice()
    }

    /// Returns the domain-separated digest of this shard's complete canonical record.
    pub fn digest(&self) -> (digest: ActivationDigest)
        ensures
            digest@ == self@.digest,
    {
        self.digest
    }

    /// Returns the byte offset of this shard record in the complete artifact.
    pub fn encoded_offset(&self) -> (offset: u64)
        ensures
            offset == self@.encoded_offset,
    {
        self.encoded_offset
    }

    /// Returns the exact complete encoded shard-record length.
    pub fn encoded_bytes(&self) -> (bytes: u64)
        ensures
            bytes == self@.encoded_bytes,
    {
        self.encoded_bytes
    }

    /// Returns dtype-encoded activation payload bytes in this shard.
    pub fn value_bytes(&self) -> (bytes: u64)
        ensures
            bytes == self@.value_bytes,
    {
        self.value_bytes
    }

    /// Returns bit-packed token-mask bytes in this shard.
    pub fn mask_bytes(&self) -> (bytes: u64)
        ensures
            bytes == self@.mask_bytes,
    {
        self.mask_bytes
    }

    /// Returns sequence-boundary payload bytes in this shard.
    pub fn boundary_bytes(&self) -> (bytes: u64)
        ensures
            bytes == self@.boundary_bytes,
    {
        self.boundary_bytes
    }
}

/// What a vector of shards shows.
pub open spec fn shard_views(shards: Seq<ActivationShard>) -> Seq<ShardView> {
    Seq::new(shards.len(), |k: int| shards[k]@)
}

/// Final canonical activation artifact with content-addressed shard indices.
#[derive(Clone, Debug, PartialEq, Eq)]
pub struct ActivationCache {
    spec: ActivationCacheSpec,
    digest: ActivationDigest,
    encoded: Vec<u8>,
    shards: Vec<ActivationShard>,
    sequence_ends: Vec<u64>,
    byte_ledger: ActivationByteLedger,
}

impl View for ActivationCache {
    type V = CacheView;

    closed spec fn view(&self) -> CacheView {
        CacheView {
            schema: self.spec@,
            encoded: self.encoded@,
            digest: self.digest@,
            shards: shard_views(self.shards@),
            ends: self.sequence_ends@,
            ledger: self.byte_ledger,
        }
    }
}

/// Whether a cache object shows some valid content.
pub open spec fn shows_content(cache: CacheView) -> bool {
    exists|content: CacheContent| #[trigger]
        content.valid() && content.size() <= usize::MAX && cache == content.cache()
}

impl ActivationCache {
    /// The cache shows some valid content.
    pub closed spec fn wf(&self) -> bool {
        &&& self.spec.wf()
        &&& shows_content(self@)
    }

    /// A well-formed cache shows some valid content.
    pub proof fn wf_content(&self)
        requires
            self.wf(),
        ensures
            shows_content(self@),
    {
    }

    /// Puts together a cache object that shows some valid content.
    pub(crate) fn from_parts(
        spec: ActivationCacheSpec,
        digest: ActivationDigest,
        encoded: Vec<u8>,
        shards: Vec<ActivationShard>,
        sequence_ends: Vec<u64>,
        byte_ledger: ActivationByteLedger,
        Ghost(content): Ghost<CacheContent>,
    ) -> (cache: Self)
        requires
            spec.wf(),
            content.valid(),
            content.size() <= usize::MAX,
            content.cache() == (CacheView {
                schema: spec@,
                encoded: encoded@,
                digest: digest@,
                shards: shard_views(shards@),
                ends: sequence_ends@,
                ledger: byte_ledger,
            }),
        ensures
            cache.wf(),
            cache@ == content.cache(),
    {
        let cache = ActivationCache { spec, digest, encoded, shards, sequence_ends, byte_ledger };
        assert(content.valid() && cache@ == content.cache());
        cache
    }

    /// Returns the schema and source provenance encoded by the artifact.
    pub fn spec(&self) -> (spec: &ActivationCacheSpec)
        requires
            self.wf(),
        ensures
            spec@ == self@.schema,
            spec.wf(),
    {
        &self.spec
    }

    /// Returns the digest of the complete canonical artifact.
    pub fn digest(&self) -> (digest: ActivationDigest)
        ensures
            digest@ == self@.digest,
    {
        self.digest
    }

    /// Returns the complete canonical artifact encoding.
    pub fn encoded(&self) -> (encoded: &[u8])
        ensures
            encoded@ == self@.encoded,
    {
        self.encoded.as_slice()
    }

    /// Returns canonical shards in contiguous index order.
    pub fn shards(&self) -> (shards: &[ActivationShard])
        ensures
            shard_views(shards@) == self@.shards,
    {
        self.shards.as_slice()
    }

    /// Returns one complete canonical shard record by its zero-based index.
    pub fn encoded_shard(&self, index: u32) -> (record: Option<&[u8]>)
        requires
            self.wf(),
        ensures
            record is Some <==> index < self@.schema.shards(),
            record matches Some(bytes) ==> bytes@ == self@.encoded.subrange(
                self@.shards[index as int].encoded_offset as int,
                self@.shards[index as int].encoded_offset
                    + self@.shards[index as int].encoded_bytes,
            ),
    {
        proof {
            lemma_shown_shard(self@, index as nat);
            assert(self@.shards.len() == self.shards@.len());
        }
        if index as u64 >= self.shards.len() as u64 {
            return None;
        }
        let shard = &self.shards[index as usize];
        assert(self@.shards[index as int] == shard@);
        let start: usize = shard.encoded_offset as usize;
        let end: usize = start + shard.encoded_bytes as usize;
        Some(window(self.encoded.as_slice(), start, end))
    }

    /// Returns every global exclusive sequence end in ascending order.
    pub fn sequence_ends(&self) -> (ends: &[u64])
        ensures
            ends@ == self@.ends,
    {
        self.sequence_ends.as_slice()
    }

    /// Returns exact canonical component and total byte counts.
    pub fn byte_ledger(&self) -> (ledger: ActivationByteLedger)
        ensures
            ledger == self@.ledger,
    {
        self.byte_ledger
    }
}

/// The entries are those of the shards in order.
pub proof fn lemma_entries(content: CacheContent, shards: nat)
    ensures
        content.entries(shards).len() == shards,
        forall|k: int|
            0 <= k < shards ==> #[trigger] content.entries(shards)[k] == entry(
                content.schema,
                k as nat,
                content.head().len() + content.records(k as nat).len(),
                content.shard_ends(k as nat),
                content.shard_record(k as nat),
            ),
    decreases shards,
{
    if shards > 0 {
        lemma_entries(content, (shards - 1) as nat);
    }
}

/// The records of some shards start with those of fewer.
pub proof fn lemma_records_prefix(content: CacheContent, few: nat, many: nat)
    requires
        few <= many,
    ensures
        content.records(few).len() <= content.records(many).len(),
        content.records(many).subrange(0, content.records(few).len() as int) == content.records(
            few,
        ),
    decreases many,
{
    if few < many {
        let less = (many - 1) as nat;
        lemma_records_prefix(content, few, less);
        let n = content.records(few).len() as int;
        assert(content.records(many).subrange(0, n) =~= content.records(less).subrange(0, n));
    } else {
        let all = content.records(many);
        assert(all.subrange(0, all.len() as int) =~= all);
    }
}

/// A shard's entry points at its record.
pub proof fn lemma_entry_window(content: CacheContent, index: nat)
    requires
        content.valid(),
        content.size() <= usize::MAX,
        index < content.schema.shards(),
    ensures
        ({
            let shown = content.entries(content.schema.shards())[index as int];
            &&& shown.encoded_offset == content.head().len() + content.records(index).len()
            &&& shown.encoded_offset + shown.encoded_bytes <= content.encoded().len()
            &&& content.encoded().subrange(
                shown.encoded_offset as int,
                shown.encoded_offset + shown.encoded_bytes,
            ) == content.shard_record(index)
        }),
{
    let shards = content.schema.shards();
    lemma_entries(content, shards);
    lemma_size(content);
    lemma_records_prefix(content, index + 1, shards);
    let before = content.head().len() + content.records(index).len();
    let part = content.shard_record(index);
    let through = content.records(index + 1);
    assert(through == content.records(index) + part);
    let all = content.encoded();
    assert(all.len() <= usize::MAX);
    let n = through.len() as int;
    assert(content.records(shards).subrange(0, n) == through);
    assert(all.subrange(before as int, (before + part.len()) as int) =~= part) by {
        assert forall|k: int| 0 <= k < part.len() implies all[before + k] == part[k] by {
            assert(content.records(shards).subrange(0, n)[content.records(index).len() + k]
                == part[k]);
        }
    }
}

/// A cache that shows some content has one entry per shard, each within the artifact.
pub proof fn lemma_shown_shard(cache: CacheView, index: nat)
    requires
        shows_content(cache),
    ensures
        cache.shards.len() == cache.schema.shards(),
        cache.encoded.len() <= usize::MAX,
        index < cache.schema.shards() ==> cache.shards[index as int].encoded_offset
            + cache.shards[index as int].encoded_bytes <= cache.encoded.len(),
{
    let content = choose|content: CacheContent| #[trigger]
        content.valid() && content.size() <= usize::MAX && cache == content.cache();
    lemma_entries(content, content.schema.shards());
    lemma_size(content);
    if index < content.schema.shards() {
        lemma_entry_window(content, index);
    }
}

/// Makes room for bytes; `false` when memory is refused.
pub(crate) fn reserve_bytes(bytes: &mut Vec<u8>, additional: usize) -> (reserved: bool)
    ensures
        final(bytes)@ == old(bytes)@,
{
    bytes.try_reserve(additional).is_ok()
}

/// Mask bytes of all shards.
pub(crate) fn total_mask_bytes(spec: &ActivationCacheSpec) -> (bytes: u64)
    requires
        spec.wf(),
    ensures
        bytes as nat == masks_len(spec@, spec@.shards()),
{
    proof {
        spec.wf_valid();
    }
    let mut bytes: u64 = 0;
    let mut start: u64 = 0;
    let mut index: u32 = 0;
    let count: u32 = spec.shard_count();
    let tokens: u64 = spec.shard_tokens() as u64;
    proof {
        assert(0 * tokens == 0) by (nonlinear_arith);
    }
    while index < count
        invariant
            spec.wf(),
            spec@.valid(),
            count as nat == spec@.shards(),
            tokens == spec@.shard_tokens,
            index <= count,
            bytes as nat == masks_len(spec@, index as nat),
            index < count ==> start as nat == spec@.shard_start(index as nat),
        decreases count - index,
    {
        proof {
            lemma_shard_range(spec@, index as nat);
            lemma_masks_len(spec@, (index + 1) as nat);
        }
        let left: u64 = spec.total_tokens() - start;
        let here: u64 = if left < tokens {
            left
        } else {
            tokens
        };
        bytes = bytes + (here + 7) / 8;
        start = start + here;
        index = index + 1;
    }
    bytes
}

/// Hashes a shard record under its domain and schema.
pub(crate) fn hash_shard(spec: &ActivationCacheSpec, record: &[u8]) -> (digest: ActivationDigest)
    requires
        spec.wf(),
    ensures
        digest@ == shard_digest(spec@, record@),
{
    let mut prefix: Vec<u8> = Vec::new();
    push_bytes(&mut prefix, "tritium salt v2 activation shard v1\0".as_bytes());
    push_bytes(&mut prefix, spec.schema_digest().as_bytes().as_slice());
    assert(prefix@ =~= encode_utf8("tritium salt v2 activation shard v1\0"@) + spec@.digest());
    ActivationDigest::from_bytes(hash_parts(prefix.as_slice(), record))
}

/// Hashes a complete artifact under its domain.
pub(crate) fn hash_cache(encoded: &[u8]) -> (digest: ActivationDigest)
    ensures
        digest@ == cache_digest(encoded@),
{
    ActivationDigest::from_bytes(
        hash_parts("tritium salt v2 activation cache v1\0".as_bytes(), encoded),
    )
}

/// Copies a run of sequence ends.
fn copy_ends(ends: &[u64], from: usize, to: usize) -> (copy: Vec<u64>)
    requires
        from <= to <= ends@.len(),
    ensures
        copy@ == ends@.subrange(from as int, to as int),
{
    let mut copy: Vec<u64> = Vec::new();
    let mut index: usize = from;
    while index < to
        invariant
            from <= index <= to <= ends@.len(),
            copy@ == ends@.subrange(from as int, index as int),
        decreases to - index,
    {
        copy.push(ends[index]);
        index = index + 1;
        assert(copy@ =~= ends@.subrange(from as int, index as int));
    }
    copy
}

/// Appends the parts of one shard record.
fn push_record(
    encoded: &mut Vec<u8>,
    index: u32,
    token_start: u64,
    token_count: u64,
    values: &[u8],
    packed: &[u8],
    ends: &[u64],
)
    ensures
        final(encoded)@ == old(encoded)@ + (le(index as nat, 4) + le(token_start as nat, 8) + le(
            token_count as nat,
            4,
        ) + le(values@.len(), 8) + le(packed@.len(), 4) + le(ends@.len(), 4) + values@ + packed@
            + stored_ends(ends@)),
{
    let ghost before = encoded@;
    push_le(encoded, index as u64, 4);
    push_le(encoded, token_start, 8);
    push_le(encoded, token_count, 4);
    push_le(encoded, values.len() as u64, 8);
    push_le(encoded, packed.len() as u64, 4);
    push_le(encoded, ends.len() as u64, 4);
    push_bytes(encoded, values);
    push_bytes(encoded, packed);
    push_ends(encoded, ends);
    assert(encoded@ =~= before + (le(index as nat, 4) + le(token_start as nat, 8) + le(
        token_count as nat,
        4,
    ) + le(values@.len(), 8) + le(packed@.len(), 4) + le(ends@.len(), 4) + values@ + packed@
        + stored_ends(ends@)));
}

/// Appends one shard record and describes it.
fn encode_shard(
    encoded: &mut Vec<u8>,
    spec: &ActivationCacheSpec,
    index: u32,
    token_start: u64,
    token_count: u64,
    row_bytes: u64,
    values: &[u8],
    token_mask: &[bool],
    ends: Vec<u64>,
    Ghost(content): Ghost<CacheContent>,
) -> (shard: ActivationShard)
    requires
        spec.wf(),
        content.valid(),
        content.size() <= usize::MAX,
        content.schema == spec@,
        content.values == values@,
        content.mask == token_mask@,
        index < spec@.shards(),
        token_start as nat == spec@.shard_start(index as nat),
        token_count as nat == spec@.shard_count_at(index as nat),
        row_bytes as nat == spec@.row_bytes(),
        ends@ == content.shard_ends(index as nat),
        old(encoded)@ == content.head() + content.records(index as nat),
    ensures
        final(encoded)@ == content.head() + content.records((index + 1) as nat),
        shard@ == entry(
            content.schema,
            index as nat,
            content.head().len() + content.records(index as nat).len(),
            content.shard_ends(index as nat),
            content.shard_record(index as nat),
        ),
{
    proof {
        lemma_shard_range(spec@, index as nat);
        lemma_record_len(content, index as nat);
        lemma_shard_ends(content, index as nat);
        lemma_size(content);
        lemma_entry_window(content, index as nat);
        lemma_token_bytes(spec@, token_start as nat);
        lemma_token_bytes(spec@, token_count as nat);
    }
    let value_start: usize = (token_start * row_bytes) as usize;
    let value_bytes: u64 = token_count * row_bytes;
    let value_end: usize = value_start + value_bytes as usize;
    let mask_start: usize = token_start as usize;
    let mask_end: usize = mask_start + token_count as usize;
    let packed: Vec<u8> = pack_mask(token_mask, mask_start, mask_end);
    let ghost before = encoded@;
    let offset: usize = encoded.len();
    push_record(
        encoded,
        index,
        token_start,
        token_count,
        window(values, value_start, value_end),
        packed.as_slice(),
        ends.as_slice(),
    );
    proof {
        assert(packed@.len() == mask_bytes(content.shard_mask(index as nat).len()));
        assert(encoded@ == before + content.shard_record(index as nat));
        assert(encoded@ =~= content.head() + content.records((index + 1) as nat));
        assert(encoded@.subrange(offset as int, encoded@.len() as int) =~= content.shard_record(
            index as nat,
        ));
    }
    let end: usize = encoded.len();
    let digest = hash_shard(spec, window(encoded.as_slice(), offset, end));
    let boundary_bytes: u64 = 8 * ends.len() as u64;
    ActivationShard::from_parts(
        index,
        token_start,
        token_count as u32,
        ends,
        digest,
        offset as u64,
        (end - offset) as u64,
        value_bytes,
        packed.len() as u64,
        boundary_bytes,
    )
}

/// The position after the sequence ends up to `limit`.
fn skip_ends(ends: &[u64], limit: u64, from: usize) -> (at: usize)
    requires
        from <= ends@.len(),
    ensures
        at as nat == crate::activation_content::ends_through(ends@, limit as int, from as nat),
        from <= at <= ends@.len(),
{
    let mut at: usize = from;
    while at < ends.len() && ends[at] <= limit
        invariant
            from <= at <= ends@.len(),
            crate::activation_content::ends_through(ends@, limit as int, from as nat)
                == crate::activation_content::ends_through(ends@, limit as int, at as nat),
        decreases ends@.len() - at,
    {
        at = at + 1;
    }
    at
}

/// Continuing a search from a cut gives the next cut.
proof fn lemma_next_cut(content: CacheContent, index: nat)
    requires
        content.valid(),
        index < content.schema.shards(),
    ensures
        crate::activation_content::ends_through(
            content.ends,
            content.schema.shard_start(index) + content.schema.shard_count_at(index) as int,
            content.cut(index),
        ) == content.cut(index + 1),
{
    let schema = content.schema;
    let ends = content.ends;
    let end = schema.shard_start(index) + schema.shard_count_at(index) as int;
    lemma_shard_range(schema, index);
    lemma_shard_ends(content, index);
    let from = content.cut(index);
    crate::activation_content::lemma_ends_through(ends, end, from);
    crate::activation_content::lemma_ends_through(ends, schema.shard_start(index) as int, 0);
    let at = crate::activation_content::ends_through(ends, end, from);
    let next = schema.shard_start(index + 1) as int;
    assert forall|k: int| 0 <= k < at implies #[trigger] ends[k] <= next by {
        if k < from {
            assert(ends[k] <= schema.shard_start(index));
        }
    }
    if at < ends.len() {
        assert(ends[at as int] <= schema.total_tokens);
    }
    crate::activation_content::lemma_ends_through_is(ends, next, at);
}

/// Lays out every shard.
fn encode_shards(
    encoded: &mut Vec<u8>,
    spec: &ActivationCacheSpec,
    values: &[u8],
    token_mask: &[bool],
    ends: &[u64],
    Ghost(content): Ghost<CacheContent>,
) -> (shards: Vec<ActivationShard>)
    requires
        spec.wf(),
        content.valid(),
        content.size() <= usize::MAX,
        content.schema == spec@,
        content.values == values@,
        content.mask == token_mask@,
        content.ends == ends@,
        old(encoded)@ == content.head(),
    ensures
        final(encoded)@ == content.encoded(),
        shard_views(shards@) == content.entries(spec@.shards()),
{
    let count: u32 = spec.shard_count();
    let tokens: u64 = spec.shard_tokens() as u64;
    let total: u64 = spec.total_tokens();
    proof {
        spec.wf_valid();
        lemma_token_bytes(spec@, 1);
        lemma_shard_ends(content, 0);
        let t = tokens as nat;
        assert(0 * t == 0) by (nonlinear_arith);
    }
    let row_bytes: u64 = spec.feature_width() * spec.dtype().encoded_width() as u64;
    let mut shards: Vec<ActivationShard> = Vec::new();
    let mut cursor: usize = 0;
    let mut start: u64 = 0;
    let mut index: u32 = 0;
    assert(encoded@ =~= content.head() + content.records(0));
    assert(shard_views(shards@) =~= content.entries(0));
    while index < count
        invariant
            spec.wf(),
            spec@.valid(),
            content.valid(),
            content.size() <= usize::MAX,
            content.schema == spec@,
            content.values == values@,
            content.mask == token_mask@,
            content.ends == ends@,
            count as nat == spec@.shards(),
            tokens == spec@.shard_tokens,
            total == spec@.total_tokens,
            row_bytes as nat == spec@.row_bytes(),
            index <= count,
            cursor <= ends@.len(),
            cursor as nat == content.cut(index as nat),
            index < count ==> start as nat == spec@.shard_start(index as nat),
            encoded@ == content.head() + content.records(index as nat),
            shard_views(shards@) == content.entries(index as nat),
        decreases count - index,
    {
        proof {
            lemma_shard_range(spec@, index as nat);
            lemma_shard_ends(content, index as nat);
            lemma_next_cut(content, index as nat);
        }
        let left: u64 = total - start;
        let here: u64 = if left < tokens {
            left
        } else {
            tokens
        };
        let next: usize = skip_ends(ends, start + here, cursor);
        let shard_ends: Vec<u64> = copy_ends(ends, cursor, next);
        let ghost before = shards@;
        let shard = encode_shard(
            encoded,
            spec,
            index,
            start,
            here,
            row_bytes,
            values,
            token_mask,
            shard_ends,
            Ghost(content),
        );
        shards.push(shard);
        proof {
            lemma_entries(content, (index + 1) as nat);
            assert(shard_views(shards@) =~= shard_views(before).push(shard@));
        }
        cursor = next;
        start = start + here;
        index = index + 1;
    }
    shards
}

/// Measures the artifact of a complete cache.
fn measure_cache(
    spec: &ActivationCacheSpec,
    value_bytes: u64,
    ends: usize,
    Ghost(content): Ghost<CacheContent>,
) -> (ledger: Result<ActivationByteLedger, ActivationCacheError>)
    requires
        spec.wf(),
        content.valid(),
        content.schema == spec@,
        content.values.len() == value_bytes,
        content.ends.len() == ends,
    ensures
        match content.size_error() {
            Some(error) => ledger == Err::<ActivationByteLedger, ActivationCacheError>(error),
            None => ledger matches Ok(measured) && measured == content.ledger()
                && measured.encoded_bytes == content.size() <= usize::MAX,
        },
{
    proof {
        spec.wf_valid();
        lemma_size(content);
        lemma_masks_len(spec@, spec@.shards());
    }
    let manifest_bytes: u64 = 72 + spec.tensor_name().as_bytes().len() as u64;
    let shard_header_bytes: u64 = 32 * spec.shard_count() as u64;
    let mask_bytes: u64 = total_mask_bytes(spec);
    let boundary_bytes: u64 = checked_mul(ends as u64, 8, "sequence boundary bytes")?;
    let head: u64 = manifest_bytes + shard_header_bytes;
    let with_values: u64 = checked_add(head, value_bytes, "total encoded cache bytes")?;
    let with_masks: u64 = checked_add(with_values, mask_bytes, "total encoded cache bytes")?;
    let encoded_bytes: u64 = checked_add(with_masks, boundary_bytes, "total encoded cache bytes")?;
    let _capacity: usize = usize_from_u64(encoded_bytes, "canonical cache allocation")?;
    Ok(
        ActivationByteLedger {
            manifest_bytes,
            shard_header_bytes,
            value_bytes,
            mask_bytes,
            boundary_bytes,
            encoded_bytes,
        },
    )
}

/// Lays out a complete cache in a vector; `None` where memory for it was refused.
fn encode_cache(
    spec: ActivationCacheSpec,
    values: Vec<u8>,
    token_mask: Vec<bool>,
    ends: Vec<u64>,
    room: Option<Vec<u8>>,
    Ghost(content): Ghost<CacheContent>,
) -> (cache: Result<ActivationCache, ActivationCacheError>)
    requires
        spec.wf(),
        content.valid(),
        content.schema == spec@,
        content.values == values@,
        content.mask == token_mask@,
        content.ends == ends@,
        room matches Some(empty) ==> empty@.len() == 0,
    ensures
        match content.size_error() {
            Some(error) => cache == Err::<ActivationCache, ActivationCacheError>(error),
            None => if room is None {
                cache == Err::<ActivationCache, ActivationCacheError>(
                    ActivationCacheError::AllocationFailed { bytes: content.size() as u64 },
                )
            } else {
                cache matches Ok(made) && made.wf() && made@ == content.cache()
            },
        },
{
    proof {
        spec.wf_valid();
        lemma_size(content);
        lemma_masks_len(spec@, spec@.shards());
    }
    let ledger: ActivationByteLedger = measure_cache(
        &spec,
        values.len() as u64,
        ends.len(),
        Ghost(content),
    )?;
    let mut encoded: Vec<u8> = match room {
        None => {
            return Err(ActivationCacheError::AllocationFailed { bytes: ledger.encoded_bytes });
        },
        Some(empty) => empty,
    };
    push_manifest(&mut encoded, ManifestKind::Cache, &spec);
    push_le(&mut encoded, spec.shard_count() as u64, 4);
    assert(encoded@ =~= content.head());
    let shards: Vec<ActivationShard> = encode_shards(
        &mut encoded,
        &spec,
        values.as_slice(),
        token_mask.as_slice(),
        ends.as_slice(),
        Ghost(content),
    );
    let digest = hash_cache(encoded.as_slice());
    Ok(ActivationCache::from_parts(spec, digest, encoded, shards, ends, ledger, Ghost(content)))
}

/// An empty vector with room for flags; `None` where memory is refused, which it is not for none.
fn reserved_flags(capacity: usize) -> (room: Option<Vec<bool>>)
    ensures
        room matches Some(empty) ==> empty@.len() == 0,
        capacity == 0 ==> room is Some,
{
    let mut room: Vec<bool> = Vec::new();
    if capacity == 0 {
        return Some(room);
    }
    match room.try_reserve(capacity) {
        Ok(_) => Some(room),
        Err(_) => None,
    }
}

impl ActivationCacheBuilder {
    /// Looks for the first gap in the token stream.
    fn check_gaps(&self) -> (result: Result<(), ActivationCacheError>)
        requires
            self.wf(),
        ensures
            match gap_error(self@.chunks, 0, 0, self@.schema.total_tokens) {
                Some(error) => result == Err::<(), ActivationCacheError>(error),
                None => result is Ok,
            },
    {
        let chunks: &[ActivationChunk] = self.chunks();
        let total: u64 = self.spec().total_tokens();
        let mut expected: u64 = 0;
        let mut index: usize = 0;
        while index < chunks.len()
            invariant
                index <= chunks@.len(),
                chunk_views(chunks@) == self@.chunks,
                total == self@.schema.total_tokens,
                forall|k: int| 0 <= k < chunks@.len() ==> (#[trigger] chunks@[k]).wf(),
                gap_error(self@.chunks, 0, 0, total) == gap_error(
                    self@.chunks,
                    index as nat,
                    expected,
                    total,
                ),
            decreases chunks@.len() - index,
        {
            let chunk = &chunks[index];
            assert(self@.chunks[index as int] == chunk@);
            if chunk.token_start() != expected {
                return Err(
                    ActivationCacheError::Gap {
                        expected_start: expected,
                        next_start: Some(chunk.token_start()),
                    },
                );
            }
            expected = chunk.token_end();
            index = index + 1;
        }
        if expected != total {
            return Err(
                ActivationCacheError::Gap { expected_start: expected, next_start: None },
            );
        }
        Ok(())
    }

    /// Collects the sequence ends of all chunks.
    fn collect_ends(&self) -> (ends: Vec<u64>)
        requires
            self.wf(),
        ensures
            ends@ == all_ends(self@.chunks),
    {
        let chunks: &[ActivationChunk] = self.chunks();
        let mut ends: Vec<u64> = Vec::new();
        let mut index: usize = 0;
        assert(ends@ =~= all_ends(self@.chunks.take(0)));
        while index < chunks.len()
            invariant
                index <= chunks@.len(),
                chunk_views(chunks@) == self@.chunks,
                ends@ == all_ends(self@.chunks.take(index as int)),
            decreases chunks@.len() - index,
        {
            let ghost before = ends@;
            ends.extend_from_slice(chunks[index].sequence_ends());
            proof {
                let longer = self@.chunks.take(index + 1);
                assert(longer.drop_last() =~= self@.chunks.take(index as int));
                assert(longer.last() == chunks@[index as int]@);
                assert(ends@ =~= before + chunks@[index as int]@.ends);
            }
            index = index + 1;
        }
        assert(self@.chunks.take(index as int) =~= self@.chunks);
        ends
    }

    /// Collects the scalar bytes of all chunks.
    fn collect_values(&self, values: &mut Vec<u8>)
        requires
            self.wf(),
            old(values)@.len() == 0,
        ensures
            final(values)@ == all_values(self@.chunks),
    {
        let chunks: &[ActivationChunk] = self.chunks();
        let mut index: usize = 0;
        assert(values@ =~= all_values(self@.chunks.take(0)));
        while index < chunks.len()
            invariant
                index <= chunks@.len(),
                chunk_views(chunks@) == self@.chunks,
                values@ == all_values(self@.chunks.take(index as int)),
            decreases chunks@.len() - index,
        {
            push_bytes(values, chunks[index].encoded_values());
            proof {
                let longer = self@.chunks.take(index + 1);
                assert(longer.drop_last() =~= self@.chunks.take(index as int));
                assert(longer.last() == chunks@[index as int]@);
            }
            index = index + 1;
        }
        assert(self@.chunks.take(index as int) =~= self@.chunks);
    }

    /// Collects the masks of all chunks.
    fn collect_mask(&self, mask: &mut Vec<bool>)
        requires
            self.wf(),
            old(mask)@.len() == 0,
        ensures
            final(mask)@ == all_mask(self@.chunks),
    {
        let chunks: &[ActivationChunk] = self.chunks();
        let mut index: usize = 0;
        assert(mask@ =~= all_mask(self@.chunks.take(0)));
        while index < chunks.len()
            invariant
                index <= chunks@.len(),
                chunk_views(chunks@) == self@.chunks,
                mask@ == all_mask(self@.chunks.take(index as int)),
            decreases chunks@.len() - index,
        {
            let ghost before = mask@;
            mask.extend_from_slice(chunks[index].token_mask());
            proof {
                let longer = self@.chunks.take(index + 1);
                assert(longer.drop_last() =~= self@.chunks.take(index as int));
                assert(longer.last() == chunks@[index as int]@);
                assert(mask@ =~= before + chunks@[index as int]@.mask);
            }
            index = index + 1;
        }
        assert(self@.chunks.take(index as int) =~= self@.chunks);
    }

    /// Checks that the chunks are complete and collects their sequence ends.
    fn complete_ends(&self) -> (ends: Result<Vec<u64>, ActivationCacheError>)
        requires
            self.wf(),
        ensures
            match incomplete(self@) {
                Some(error) => ends == Err::<Vec<u64>, ActivationCacheError>(error),
                None => ends matches Ok(collected) && collected@ == all_ends(self@.chunks),
            },
    {
        proof {
            self.wf_valid();
            lemma_token_bytes(self@.schema, self@.schema.total_tokens as nat);
        }
        self.check_gaps()?;
        let ends: Vec<u64> = self.collect_ends();
        let total: u64 = self.spec().total_tokens();
        if ends.len() == 0 || ends[ends.len() - 1] != total {
            return Err(ActivationCacheError::MissingTerminalBoundary { total_tokens: total });
        }
        let _values: usize = usize_from_u64(self.value_bytes(), "cache value allocation")?;
        let _tokens: usize = usize_from_u64(total, "cache mask allocation")?;
        Ok(ends)
    }

    /// Scalar bytes of the whole tensor.
    fn value_bytes(&self) -> (bytes: u64)
        requires
            self.wf(),
        ensures
            bytes == self@.schema.total_tokens as nat * self@.schema.row_bytes(),
    {
        proof {
            self.wf_valid();
            lemma_token_bytes(self@.schema, self@.schema.total_tokens as nat);
        }
        self.spec().total_tokens() * self.spec().feature_width()
            * self.spec().dtype().encoded_width() as u64
    }

    /// Canonicalizes complete chunks into fixed shards and a content-addressed artifact.
    pub fn finalize(self) -> (cache: Result<ActivationCache, ActivationCacheError>)
        requires
            self.wf(),
        ensures
            match incomplete(self@) {
                Some(error) => cache == Err::<ActivationCache, ActivationCacheError>(error),
                None => {
                    ||| cache matches Err(ActivationCacheError::AllocationFailed { bytes }) && (
                    bytes == self@.schema.total_tokens as nat * self@.schema.row_bytes() || bytes
                        == self@.schema.total_tokens || bytes == content_of(self@).size() as u64)
                    ||| match content_of(self@).size_error() {
                        Some(error) => cache == Err::<ActivationCache, ActivationCacheError>(error),
                        None => cache matches Ok(made) && made.wf() && made@ == content_of(
                            self@,
                        ).cache(),
                    }
                },
            },
    {
        let ends: Vec<u64> = self.complete_ends()?;
        proof {
            self.wf_valid();
            complete_builder_is_valid(self@);
        }
        let value_bytes: u64 = self.value_bytes();
        let values: Option<Vec<u8>> = reserved(value_bytes as usize);
        let mask: Option<Vec<bool>> = reserved_flags(self.spec().total_tokens() as usize);
        let artifact: Option<Vec<u8>> = match measure_cache(
            self.spec(),
            value_bytes,
            ends.len(),
            Ghost(content_of(self@)),
        ) {
            Ok(ledger) => reserved(ledger.encoded_bytes as usize),
            Err(_) => None,
        };
        self.finalize_in(values, mask, artifact)
    }

    /// Canonicalizes complete chunks into vectors; `None` where memory for one was refused.
    pub fn finalize_in(
        self,
        values: Option<Vec<u8>>,
        mask: Option<Vec<bool>>,
        artifact: Option<Vec<u8>>,
    ) -> (cache: Result<ActivationCache, ActivationCacheError>)
        requires
            self.wf(),
            values matches Some(empty) ==> empty@.len() == 0,
            mask matches Some(empty) ==> empty@.len() == 0,
            artifact matches Some(empty) ==> empty@.len() == 0,
        ensures
            match incomplete(self@) {
                Some(error) => cache == Err::<ActivationCache, ActivationCacheError>(error),
                None => if values is None {
                    cache matches Err(ActivationCacheError::AllocationFailed { bytes }) && bytes
                        == self@.schema.total_tokens as nat * self@.schema.row_bytes()
                } else if mask is None {
                    cache == Err::<ActivationCache, ActivationCacheError>(
                        ActivationCacheError::AllocationFailed {
                            bytes: self@.schema.total_tokens,
                        },
                    )
                } else {
                    match content_of(self@).size_error() {
                        Some(error) => cache == Err::<ActivationCache, ActivationCacheError>(error),
                        None => if artifact is None {
                            cache == Err::<ActivationCache, ActivationCacheError>(
                                ActivationCacheError::AllocationFailed {
                                    bytes: content_of(self@).size() as u64,
                                },
                            )
                        } else {
                            cache matches Ok(made) && made.wf() && made@ == content_of(
                                self@,
                            ).cache()
                        },
                    }
                },
            },
    {
        let ends: Vec<u64> = self.complete_ends()?;
        let mut values: Vec<u8> = match values {
            None => {
                return Err(ActivationCacheError::AllocationFailed { bytes: self.value_bytes() });
            },
            Some(empty) => empty,
        };
        let mut mask: Vec<bool> = match mask {
            None => {
                return Err(
                    ActivationCacheError::AllocationFailed { bytes: self.spec().total_tokens() },
                );
            },
            Some(empty) => empty,
        };
        self.collect_values(&mut values);
        self.collect_mask(&mut mask);
        proof {
            self.wf_valid();
            complete_builder_is_valid(self@);
        }
        let spec: ActivationCacheSpec = self.spec().duplicate();
        encode_cache(spec, values, mask, ends, artifact, Ghost(content_of(self@)))
    }
}

} // verus!
