//! The manifest prefix that caches and checkpoints share.

use crate::activation_schema::{
    decode_dtype, dtype_of, ActivationCacheError, ActivationCacheSpec, ActivationDType,
    ActivationDigest, SchemaView,
};
use crate::wire::{
    bytes_equal, le, le_at, le_is_canonical, le_round_trip, lemma_le_len, lemma_le_limits,
    push_bytes, push_le, read_32, read_4, read_le, read_text, window,
};
use vstd::prelude::*;
use vstd::utf8::{decode_utf8, valid_utf8};

verus! {

/// The digest with the given bytes.
pub open spec fn digest_of(bytes: Seq<u8>) -> ActivationDigest {
    choose|digest: ActivationDigest| digest@ == bytes
}

/// A digest is the digest with its bytes.
pub proof fn lemma_digest_of(digest: ActivationDigest)
    ensures
        digest_of(digest@) == digest,
{
    ActivationDigest::bytes_determine(digest_of(digest@), digest);
}

/// The four-byte array with the given bytes.
pub open spec fn magic_of(bytes: Seq<u8>) -> [u8; 4] {
    choose|magic: [u8; 4]| magic@ == bytes
}

proof fn lemma_magic_of(magic: [u8; 4])
    ensures
        magic_of(magic@) == magic,
{
    broadcast use vstd::array::group_array_axioms;

    let chosen = magic_of(magic@);
    assert(chosen@ == magic@);
    assert(chosen =~= magic);
}

/// The two encodings that start with a manifest.
#[derive(Clone, Copy, Debug, PartialEq, Eq, Structural)]
pub enum ManifestKind {
    /// A finalized cache.
    Cache,
    /// A partial builder.
    Checkpoint,
}

/// What the manifest fields are called in failures.
#[derive(Clone, Copy, Debug)]
pub struct ManifestLabels {
    /// The magic.
    pub magic: &'static str,
    /// The format version.
    pub version: &'static str,
    /// The dtype code.
    pub dtype: &'static str,
    /// The reserved byte.
    pub reserved: &'static str,
    /// The layer index.
    pub layer: &'static str,
    /// The token count.
    pub tokens: &'static str,
    /// The feature width.
    pub features: &'static str,
    /// The shard token count.
    pub shard: &'static str,
    /// The source digest.
    pub source: &'static str,
    /// The tensor name's length.
    pub name_length: &'static str,
    /// The tensor name.
    pub name: &'static str,
}

/// The labels of a kind of manifest.
pub open spec fn labels(kind: ManifestKind) -> ManifestLabels {
    match kind {
        ManifestKind::Cache => ManifestLabels {
            magic: "cache magic",
            version: "cache version",
            dtype: "cache dtype",
            reserved: "manifest reserved byte",
            layer: "layer index",
            tokens: "total token count",
            features: "feature width",
            shard: "shard token count",
            source: "source digest",
            name_length: "tensor-name length",
            name: "tensor name",
        },
        ManifestKind::Checkpoint => ManifestLabels {
            magic: "checkpoint magic",
            version: "checkpoint version",
            dtype: "checkpoint dtype",
            reserved: "checkpoint reserved byte",
            layer: "checkpoint layer index",
            tokens: "checkpoint total tokens",
            features: "checkpoint feature width",
            shard: "checkpoint shard tokens",
            source: "checkpoint source digest",
            name_length: "checkpoint tensor-name length",
            name: "checkpoint tensor name",
        },
    }
}

fn manifest_labels(kind: ManifestKind) -> (names: ManifestLabels)
    ensures
        names == labels(kind),
{
    match kind {
        ManifestKind::Cache => ManifestLabels {
            magic: "cache magic",
            version: "cache version",
            dtype: "cache dtype",
            reserved: "manifest reserved byte",
            layer: "layer index",
            tokens: "total token count",
            features: "feature width",
            shard: "shard token count",
            source: "source digest",
            name_length: "tensor-name length",
            name: "tensor name",
        },
        ManifestKind::Checkpoint => ManifestLabels {
            magic: "checkpoint magic",
            version: "checkpoint version",
            dtype: "checkpoint dtype",
            reserved: "checkpoint reserved byte",
            layer: "checkpoint layer index",
            tokens: "checkpoint total tokens",
            features: "checkpoint feature width",
            shard: "checkpoint shard tokens",
            source: "checkpoint source digest",
            name_length: "checkpoint tensor-name length",
            name: "checkpoint tensor name",
        },
    }
}

/// `S2AC` for caches, `S2CP` for checkpoints.
pub open spec fn magic(kind: ManifestKind) -> Seq<u8> {
    match kind {
        ManifestKind::Cache => seq![0x53u8, 0x32u8, 0x41u8, 0x43u8],
        ManifestKind::Checkpoint => seq![0x53u8, 0x32u8, 0x43u8, 0x50u8],
    }
}

/// The failure of a manifest with an unknown magic.
pub open spec fn magic_error(kind: ManifestKind, got: Seq<u8>) -> ActivationCacheError {
    match kind {
        ManifestKind::Cache => ActivationCacheError::InvalidCacheMagic { got: magic_of(got) },
        ManifestKind::Checkpoint => ActivationCacheError::InvalidCheckpointMagic {
            got: magic_of(got),
        },
    }
}

/// The failure of a manifest with an unknown version.
pub open spec fn version_error(kind: ManifestKind, got: u16) -> ActivationCacheError {
    match kind {
        ManifestKind::Cache => ActivationCacheError::UnsupportedCacheVersion { got },
        ManifestKind::Checkpoint => ActivationCacheError::UnsupportedCheckpointVersion { got },
    }
}

/// The failure of reading `width` bytes at `offset` past the end.
pub open spec fn truncated(
    bytes: Seq<u8>,
    offset: int,
    width: int,
    context: &'static str,
) -> ActivationCacheError {
    ActivationCacheError::TruncatedEncoding {
        context,
        needed: width as u64,
        remaining: (bytes.len() - offset) as u64,
    }
}

/// The canonical manifest of a schema, up to the tensor name.
pub open spec fn manifest(kind: ManifestKind, schema: SchemaView) -> Seq<u8> {
    magic(kind) + le(1, 2) + seq![schema.dtype.code()] + seq![0u8] + le(
        schema.layer_index as nat,
        4,
    ) + le(schema.total_tokens as nat, 8) + le(schema.feature_width as nat, 8) + le(
        schema.shard_tokens as nat,
        4,
    ) + schema.source_digest + le(schema.name_bytes().len(), 4) + schema.name_bytes()
}

/// The tensor name's length that a manifest declares.
pub open spec fn name_length(bytes: Seq<u8>) -> nat {
    le_at(bytes, 64, 4)
}

/// Where the fields after the tensor name start.
pub open spec fn manifest_end(bytes: Seq<u8>) -> int {
    68 + name_length(bytes) as int
}

/// The schema that a manifest declares.
pub open spec fn read_schema(bytes: Seq<u8>) -> SchemaView {
    SchemaView {
        layer_index: le_at(bytes, 8, 4) as u32,
        tensor_name: decode_utf8(bytes.subrange(68, manifest_end(bytes))),
        total_tokens: le_at(bytes, 12, 8) as u64,
        feature_width: le_at(bytes, 20, 8) as u64,
        dtype: dtype_of(bytes[6])->0,
        source_digest: bytes.subrange(32, 64),
        shard_tokens: le_at(bytes, 28, 4) as u32,
    }
}

/// The reason why bytes do not start with a manifest, if there is one.
pub open spec fn manifest_error(kind: ManifestKind, bytes: Seq<u8>) -> Option<
    ActivationCacheError,
> {
    let names = labels(kind);
    if bytes.len() < 4 {
        Some(truncated(bytes, 0, 4, names.magic))
    } else if bytes.subrange(0, 4) != magic(kind) {
        Some(magic_error(kind, bytes.subrange(0, 4)))
    } else if bytes.len() < 6 {
        Some(truncated(bytes, 4, 2, names.version))
    } else if le_at(bytes, 4, 2) != 1 {
        Some(version_error(kind, le_at(bytes, 4, 2) as u16))
    } else if bytes.len() < 7 {
        Some(truncated(bytes, 6, 1, names.dtype))
    } else if dtype_of(bytes[6]) is None {
        Some(ActivationCacheError::InvalidDTypeCode { got: bytes[6] })
    } else if bytes.len() < 8 {
        Some(truncated(bytes, 7, 1, names.reserved))
    } else if bytes[7] != 0 {
        Some(ActivationCacheError::NonZeroReservedByte { got: bytes[7] })
    } else if bytes.len() < 12 {
        Some(truncated(bytes, 8, 4, names.layer))
    } else if bytes.len() < 20 {
        Some(truncated(bytes, 12, 8, names.tokens))
    } else if bytes.len() < 28 {
        Some(truncated(bytes, 20, 8, names.features))
    } else if bytes.len() < 32 {
        Some(truncated(bytes, 28, 4, names.shard))
    } else if bytes.len() < 64 {
        Some(truncated(bytes, 32, 32, names.source))
    } else if bytes.len() < 68 {
        Some(truncated(bytes, 64, 4, names.name_length))
    } else if bytes.len() < manifest_end(bytes) {
        Some(truncated(bytes, 68, name_length(bytes) as int, names.name))
    } else if !valid_utf8(bytes.subrange(68, manifest_end(bytes))) {
        Some(ActivationCacheError::InvalidTensorNameUtf8)
    } else {
        None
    }
}

/// The manifest's fields before they are validated as a schema.
pub struct ManifestFields<'a> {
    /// Zero-based transformer layer.
    pub layer_index: u32,
    /// Architecture tensor name.
    pub tensor_name: &'a str,
    /// Flattened token rows.
    pub total_tokens: u64,
    /// Scalars in each token row.
    pub feature_width: u64,
    /// Scalar storage.
    pub dtype: ActivationDType,
    /// Source-provenance digest.
    pub source_digest: ActivationDigest,
    /// Tokens in each full shard.
    pub shard_tokens: u32,
    /// Where the fields after the tensor name start.
    pub end: usize,
}

impl<'a> ManifestFields<'a> {
    /// The schema that the fields declare.
    pub open spec fn schema(self) -> SchemaView {
        SchemaView {
            layer_index: self.layer_index,
            tensor_name: self.tensor_name@,
            total_tokens: self.total_tokens,
            feature_width: self.feature_width,
            dtype: self.dtype,
            source_digest: self.source_digest@,
            shard_tokens: self.shard_tokens,
        }
    }

    /// Validates the declared schema.
    pub fn validate(&self) -> (spec: Result<ActivationCacheSpec, ActivationCacheError>)
        ensures
            match self.schema().error() {
                Some(error) => spec == Err::<ActivationCacheSpec, ActivationCacheError>(error),
                None => spec matches Ok(made) && made@ == self.schema() && made.wf(),
            },
    {
        ActivationCacheSpec::new(
            self.layer_index,
            self.tensor_name,
            self.total_tokens,
            self.feature_width,
            self.dtype,
            self.source_digest,
            self.shard_tokens,
        )
    }
}

/// Checks that `width` bytes can be read at `offset`.
pub fn need(bytes: &[u8], offset: usize, width: u64, context: &'static str) -> (result: Result<
    (),
    ActivationCacheError,
>)
    requires
        offset <= bytes@.len(),
    ensures
        if bytes@.len() < offset + width {
            result == Err::<(), ActivationCacheError>(
                truncated(bytes@, offset as int, width as int, context),
            )
        } else {
            result is Ok
        },
{
    let remaining: u64 = (bytes.len() - offset) as u64;
    if width > remaining {
        return Err(ActivationCacheError::TruncatedEncoding { context, needed: width, remaining });
    }
    Ok(())
}

/// Whether bytes are the magic of a kind of manifest.
fn is_magic(kind: ManifestKind, got: [u8; 4]) -> (known: bool)
    ensures
        known == (got@ == magic(kind)),
{
    let expected: [u8; 4] = match kind {
        ManifestKind::Cache => [0x53, 0x32, 0x41, 0x43],
        ManifestKind::Checkpoint => [0x53, 0x32, 0x43, 0x50],
    };
    assert(expected@ =~= magic(kind));
    bytes_equal(got.as_slice(), expected.as_slice())
}

/// Reads the manifest that bytes start with.
pub fn read_manifest(kind: ManifestKind, bytes: &[u8]) -> (fields: Result<
    ManifestFields<'_>,
    ActivationCacheError,
>)
    ensures
        match manifest_error(kind, bytes@) {
            Some(error) => fields == Err::<ManifestFields<'_>, ActivationCacheError>(error),
            None => {
                &&& fields matches Ok(read)
                &&& read.schema() == read_schema(bytes@)
                &&& read.end == manifest_end(bytes@)
                &&& read.end <= bytes@.len()
            },
        },
{
    let names = manifest_labels(kind);
    need(bytes, 0, 4, names.magic)?;
    let got: [u8; 4] = read_4(bytes, 0);
    if !is_magic(kind, got) {
        proof {
            lemma_magic_of(got);
        }
        return Err(
            match kind {
                ManifestKind::Cache => ActivationCacheError::InvalidCacheMagic { got },
                ManifestKind::Checkpoint => ActivationCacheError::InvalidCheckpointMagic { got },
            },
        );
    }
    proof {
        lemma_le_limits();
    }
    need(bytes, 4, 2, names.version)?;
    let version: u16 = read_le(bytes, 4, 2) as u16;
    if version != 1 {
        return Err(
            match kind {
                ManifestKind::Cache => ActivationCacheError::UnsupportedCacheVersion {
                    got: version,
                },
                ManifestKind::Checkpoint => ActivationCacheError::UnsupportedCheckpointVersion {
                    got: version,
                },
            },
        );
    }
    need(bytes, 6, 1, names.dtype)?;
    let dtype: ActivationDType = decode_dtype(bytes[6])?;
    need(bytes, 7, 1, names.reserved)?;
    if bytes[7] != 0 {
        return Err(ActivationCacheError::NonZeroReservedByte { got: bytes[7] });
    }
    need(bytes, 8, 4, names.layer)?;
    let layer_index: u32 = read_le(bytes, 8, 4) as u32;
    need(bytes, 12, 8, names.tokens)?;
    let total_tokens: u64 = read_le(bytes, 12, 8);
    need(bytes, 20, 8, names.features)?;
    let feature_width: u64 = read_le(bytes, 20, 8);
    need(bytes, 28, 4, names.shard)?;
    let shard_tokens: u32 = read_le(bytes, 28, 4) as u32;
    need(bytes, 32, 32, names.source)?;
    let source_digest = ActivationDigest::from_bytes(read_32(bytes, 32));
    need(bytes, 64, 4, names.name_length)?;
    let length: u64 = read_le(bytes, 64, 4);
    need(bytes, 68, length, names.name)?;
    let end: usize = 68 + length as usize;
    let tensor_name: &str = match read_text(window(bytes, 68, end)) {
        Some(text) => text,
        None => {
            return Err(ActivationCacheError::InvalidTensorNameUtf8);
        },
    };
    Ok(
        ManifestFields {
            layer_index,
            tensor_name,
            total_tokens,
            feature_width,
            dtype,
            source_digest,
            shard_tokens,
            end,
        },
    )
}

/// Appends the canonical manifest of a schema.
pub fn push_manifest(out: &mut Vec<u8>, kind: ManifestKind, spec: &ActivationCacheSpec)
    requires
        spec.wf(),
    ensures
        final(out)@ == old(out)@ + manifest(kind, spec@),
{
    proof {
        spec.wf_valid();
    }
    let header: [u8; 4] = match kind {
        ManifestKind::Cache => [0x53, 0x32, 0x41, 0x43],
        ManifestKind::Checkpoint => [0x53, 0x32, 0x43, 0x50],
    };
    assert(header@ =~= magic(kind));
    let name: &[u8] = spec.tensor_name().as_bytes();
    push_bytes(out, header.as_slice());
    push_le(out, 1, 2);
    out.push(spec.dtype().format_code());
    out.push(0);
    push_le(out, spec.layer_index() as u64, 4);
    push_le(out, spec.total_tokens(), 8);
    push_le(out, spec.feature_width(), 8);
    push_le(out, spec.shard_tokens() as u64, 4);
    push_bytes(out, spec.source_digest().as_bytes().as_slice());
    push_le(out, name.len() as u64, 4);
    push_bytes(out, name);
    assert(out@ =~= old(out)@ + manifest(kind, spec@));
}

/// A manifest occupies 68 bytes and the tensor name.
pub proof fn lemma_manifest_len(kind: ManifestKind, schema: SchemaView)
    requires
        schema.source_digest.len() == 32,
    ensures
        manifest(kind, schema).len() == 68 + schema.name_bytes().len(),
{
    broadcast use lemma_le_len;

}

/// Reading bytes that start with a valid schema's manifest gives the schema back.
pub proof fn manifest_round_trip(kind: ManifestKind, schema: SchemaView, bytes: Seq<u8>)
    requires
        schema.valid(),
        bytes.len() >= manifest(kind, schema).len(),
        bytes.subrange(0, manifest(kind, schema).len() as int) == manifest(kind, schema),
    ensures
        manifest_error(kind, bytes) is None,
        read_schema(bytes) == schema,
        name_length(bytes) == schema.name_bytes().len(),
{
    broadcast use lemma_le_len;

    lemma_le_limits();
    lemma_manifest_len(kind, schema);
    let m = manifest(kind, schema);
    let name = schema.name_bytes();
    assert forall|k: int| 0 <= k < m.len() implies bytes[k] == m[k] by {
        assert(bytes.subrange(0, m.len() as int)[k] == m[k]);
    }
    assert(bytes.subrange(0, 4) =~= magic(kind));
    assert(bytes.subrange(4, 6) =~= le(1, 2));
    assert(bytes[6] == schema.dtype.code());
    assert(bytes[7] == 0u8);
    assert(bytes.subrange(8, 12) =~= le(schema.layer_index as nat, 4));
    assert(bytes.subrange(12, 20) =~= le(schema.total_tokens as nat, 8));
    assert(bytes.subrange(20, 28) =~= le(schema.feature_width as nat, 8));
    assert(bytes.subrange(28, 32) =~= le(schema.shard_tokens as nat, 4));
    assert(bytes.subrange(32, 64) =~= schema.source_digest);
    assert(bytes.subrange(64, 68) =~= le(name.len(), 4));
    le_round_trip(1, 2);
    le_round_trip(schema.layer_index as nat, 4);
    le_round_trip(schema.total_tokens as nat, 8);
    le_round_trip(schema.feature_width as nat, 8);
    le_round_trip(schema.shard_tokens as nat, 4);
    le_round_trip(name.len(), 4);
    assert(bytes.subrange(68, 68 + name.len() as int) =~= name);
    vstd::utf8::encode_utf8_valid_utf8(schema.tensor_name);
    vstd::utf8::encode_utf8_decode_utf8(schema.tensor_name);
}

/// Bytes that read as a manifest start with the canonical manifest of the schema they declare.
pub proof fn manifest_is_canonical(kind: ManifestKind, bytes: Seq<u8>)
    requires
        manifest_error(kind, bytes) is None,
    ensures
        bytes.subrange(0, manifest_end(bytes)) == manifest(kind, read_schema(bytes)),
        read_schema(bytes).source_digest.len() == 32,
        read_schema(bytes).name_bytes().len() == name_length(bytes),
        68 <= manifest_end(bytes) <= bytes.len(),
{
    broadcast use lemma_le_len;

    lemma_le_limits();
    let schema = read_schema(bytes);
    let name = bytes.subrange(68, manifest_end(bytes));
    vstd::utf8::decode_utf8_encode_utf8(name);
    assert(schema.name_bytes() == name);
    le_is_canonical(bytes.subrange(4, 6));
    le_is_canonical(bytes.subrange(8, 12));
    le_is_canonical(bytes.subrange(12, 20));
    le_is_canonical(bytes.subrange(20, 28));
    le_is_canonical(bytes.subrange(28, 32));
    le_is_canonical(bytes.subrange(64, 68));
    assert(bytes.subrange(4, 6) == le(1, 2));
    assert(bytes.subrange(8, 12) == le(schema.layer_index as nat, 4));
    assert(bytes.subrange(12, 20) == le(schema.total_tokens as nat, 8));
    assert(bytes.subrange(20, 28) == le(schema.feature_width as nat, 8));
    assert(bytes.subrange(28, 32) == le(schema.shard_tokens as nat, 4));
    assert(bytes.subrange(64, 68) == le(name.len(), 4));
    assert(bytes[6] == schema.dtype.code());
    let front = bytes.subrange(0, manifest_end(bytes));
    assert(front =~= bytes.subrange(0, 4) + bytes.subrange(4, 6) + seq![bytes[6]] + seq![bytes[7]]
        + bytes.subrange(8, 12) + bytes.subrange(12, 20) + bytes.subrange(20, 28)
        + bytes.subrange(28, 32) + bytes.subrange(32, 64) + bytes.subrange(64, 68) + name);
}

} // verus!
