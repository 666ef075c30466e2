//! The canonical record of a coverage manifest's conversion policy.

use crate::coverage_schedule::{scheduled, Qwen35TensorRole, Qwen35TensorScope};
use crate::hashing::{blake3_derived, derive_digest};
use crate::qwen35_coverage::{
    admitted, admitted_entries, by_name, covered, entry_views, is_admitted, lemma_no_fault,
    lemma_no_repeat, name_place, pinned, rejects, reserved_entries, strictly_by_name, tensor_views,
    CoverageFault, EntryView, Qwen35CoverageDisposition, Qwen35CoverageEntry, Qwen35CoverageError,
    Qwen35CoverageManifest, Qwen35SourceDtype, Qwen35TensorMetadata, TensorView, EXPECTED_TENSORS,
    MAX_NAME_BYTES, MAX_RANK, QWEN36_27B_COVERAGE_REVISION,
};
use crate::text::{same_text, text_before, text_order_is_total};
use crate::wire::{
    bytes_equal, le, le_at, le_round_trip, lemma_le_len, lemma_le_limits, push_bytes, push_le,
    push_text, read_le, read_text, text_field, window,
};
use vstd::prelude::*;
use vstd::utf8::{decode_utf8, encode_utf8, valid_utf8};

verus! {

/// Magic of a canonical policy (`TQ36COV` and a zero).
pub const CANONICAL_POLICY_MAGIC: [u8; 8] = [0x54, 0x51, 0x33, 0x36, 0x43, 0x4f, 0x56, 0x00];

/// Version of a canonical policy.
pub const CANONICAL_POLICY_VERSION: u8 = 1;

/// Longest admitted revision.
pub const MAX_REVISION_BYTES: usize = 128;

/// The tag of a source precision.
pub open spec fn dtype_number(dtype: Qwen35SourceDtype) -> u8 {
    match dtype {
        Qwen35SourceDtype::Bfloat16 => 1,
    }
}

/// The tag of a component.
pub open spec fn scope_number(scope: Qwen35TensorScope) -> u8 {
    match scope {
        Qwen35TensorScope::Language => 1,
        Qwen35TensorScope::MtpDrafter => 2,
        Qwen35TensorScope::DeferredVision => 3,
    }
}

/// The tag of a role.
pub open spec fn role_number(role: Qwen35TensorRole) -> u8 {
    match role {
        Qwen35TensorRole::TokenEmbedding => 1,
        Qwen35TensorRole::OutputHead => 2,
        Qwen35TensorRole::Normalization => 3,
        Qwen35TensorRole::MlpProjection => 4,
        Qwen35TensorRole::FullAttentionProjection => 5,
        Qwen35TensorRole::DeltaNetProjection => 6,
        Qwen35TensorRole::DeltaNetState => 7,
        Qwen35TensorRole::DeltaNetConvolution => 8,
        Qwen35TensorRole::MtpFusionProjection => 9,
        Qwen35TensorRole::VisionAttentionProjection => 10,
        Qwen35TensorRole::VisionMlpProjection => 11,
        Qwen35TensorRole::VisionPatchEmbedding => 12,
        Qwen35TensorRole::VisionPositionalEmbedding => 13,
        Qwen35TensorRole::VisionMergerProjection => 14,
        Qwen35TensorRole::Bias => 15,
    }
}

/// The tag of a conversion action.
pub open spec fn disposition_number(disposition: Qwen35CoverageDisposition) -> u8 {
    match disposition {
        Qwen35CoverageDisposition::AdditiveTernary => 1,
        Qwen35CoverageDisposition::PreserveSource => 2,
        Qwen35CoverageDisposition::ExcludedFutureVision => 3,
    }
}

fn dtype_tag(dtype: Qwen35SourceDtype) -> (tag: u8)
    ensures
        tag == dtype_number(dtype),
{
    match dtype {
        Qwen35SourceDtype::Bfloat16 => 1,
    }
}

fn scope_tag(scope: Qwen35TensorScope) -> (tag: u8)
    ensures
        tag == scope_number(scope),
{
    match scope {
        Qwen35TensorScope::Language => 1,
        Qwen35TensorScope::MtpDrafter => 2,
        Qwen35TensorScope::DeferredVision => 3,
    }
}

fn role_tag(role: Qwen35TensorRole) -> (tag: u8)
    ensures
        tag == role_number(role),
{
    match role {
        Qwen35TensorRole::TokenEmbedding => 1,
        Qwen35TensorRole::OutputHead => 2,
        Qwen35TensorRole::Normalization => 3,
        Qwen35TensorRole::MlpProjection => 4,
        Qwen35TensorRole::FullAttentionProjection => 5,
        Qwen35TensorRole::DeltaNetProjection => 6,
        Qwen35TensorRole::DeltaNetState => 7,
        Qwen35TensorRole::DeltaNetConvolution => 8,
        Qwen35TensorRole::MtpFusionProjection => 9,
        Qwen35TensorRole::VisionAttentionProjection => 10,
        Qwen35TensorRole::VisionMlpProjection => 11,
        Qwen35TensorRole::VisionPatchEmbedding => 12,
        Qwen35TensorRole::VisionPositionalEmbedding => 13,
        Qwen35TensorRole::VisionMergerProjection => 14,
        Qwen35TensorRole::Bias => 15,
    }
}

fn disposition_tag(disposition: Qwen35CoverageDisposition) -> (tag: u8)
    ensures
        tag == disposition_number(disposition),
{
    match disposition {
        Qwen35CoverageDisposition::AdditiveTernary => 1,
        Qwen35CoverageDisposition::PreserveSource => 2,
        Qwen35CoverageDisposition::ExcludedFutureVision => 3,
    }
}

/// Dimensions of eight bytes each.
pub open spec fn dimension_fields(shape: Seq<u64>) -> Seq<u8>
    decreases shape.len(),
{
    if shape.len() == 0 {
        Seq::empty()
    } else {
        dimension_fields(shape.drop_last()) + le(shape.last() as nat, 8)
    }
}

/// The policy record of an entry.
pub open spec fn policy_record(entry: EntryView) -> Seq<u8> {
    text_field(entry.name) + seq![dtype_number(entry.dtype)] + le(entry.shape.len(), 4)
        + dimension_fields(entry.shape) + le(entry.coefficients as nat, 8) + seq![
        scope_number(entry.scope),
        role_number(entry.role),
        disposition_number(entry.disposition),
    ]
}

/// The policy records of entries one after the other.
pub open spec fn policy_records(entries: Seq<EntryView>) -> Seq<u8>
    decreases entries.len(),
{
    if entries.len() == 0 {
        Seq::empty()
    } else {
        policy_records(entries.drop_last()) + policy_record(entries.last())
    }
}

/// The policy up to the first record.
pub open spec fn policy_front(count: nat) -> Seq<u8> {
    CANONICAL_POLICY_MAGIC@ + seq![1u8] + text_field(QWEN36_27B_COVERAGE_REVISION@) + le(count, 4)
}

/// The canonical policy of entries.
pub open spec fn policy(entries: Seq<EntryView>) -> Seq<u8> {
    policy_front(entries.len()) + policy_records(entries)
}

/// A malformed field.
pub open spec fn malformed(field: &'static str) -> CoverageFault {
    CoverageFault::MalformedCanonicalPolicy(field)
}

/// The bounded, nonempty text at a position, and where it ends.
pub open spec fn field_at(
    bytes: Seq<u8>,
    start: int,
    maximum: int,
    field: &'static str,
) -> Result<(Seq<char>, int), CoverageFault> {
    if bytes.len() < start + 4 {
        Err(malformed("truncated"))
    } else {
        let size = le_at(bytes, start, 4) as int;
        let end = start + 4 + size;
        if size == 0 || size > maximum {
            Err(malformed(field))
        } else if bytes.len() < end {
            Err(malformed("truncated"))
        } else if !valid_utf8(bytes.subrange(start + 4, end)) {
            Err(malformed(field))
        } else {
            Ok((decode_utf8(bytes.subrange(start + 4, end)), end))
        }
    }
}

/// Where the records start, or the reason why the policy's front is rejected.
pub open spec fn front_at(bytes: Seq<u8>) -> Result<int, CoverageFault> {
    if bytes.len() < 8 {
        Err(malformed("truncated"))
    } else if bytes.subrange(0, 8) != CANONICAL_POLICY_MAGIC@ {
        Err(malformed("magic"))
    } else if bytes.len() < 9 {
        Err(malformed("truncated"))
    } else if bytes[8] != CANONICAL_POLICY_VERSION {
        Err(CoverageFault::UnsupportedCanonicalPolicyVersion(bytes[8]))
    } else {
        match field_at(bytes, 9, MAX_REVISION_BYTES as int, "revision") {
            Err(fault) => Err(fault),
            Ok((revision, end)) => if revision != QWEN36_27B_COVERAGE_REVISION@ {
                Err(CoverageFault::WrongRevision)
            } else if bytes.len() < end + 4 {
                Err(malformed("truncated"))
            } else if le_at(bytes, end, 4) != EXPECTED_TENSORS {
                Err(malformed("tensor count"))
            } else {
                Ok(end + 4)
            },
        }
    }
}

/// The dimensions at a position.
pub open spec fn dimensions_at(bytes: Seq<u8>, start: int, rank: nat) -> Seq<u64> {
    Seq::new(rank, |k: int| le_at(bytes, start + 8 * k, 8) as u64)
}

/// The tensor whose record stands at a position, and where the record ends.
pub open spec fn row_at(bytes: Seq<u8>, start: int) -> Result<(TensorView, int), CoverageFault> {
    match field_at(bytes, start, MAX_NAME_BYTES as int, "tensor name") {
        Err(fault) => Err(fault),
        Ok((name, at)) => if bytes.len() < at + 1 {
            Err(malformed("truncated"))
        } else if bytes[at] != 1 {
            Err(malformed("dtype tag"))
        } else if bytes.len() < at + 5 {
            Err(malformed("truncated"))
        } else {
            let rank = le_at(bytes, at + 1, 4);
            let end = at + 5 + 8 * rank + 11;
            if rank == 0 || rank > MAX_RANK {
                Err(malformed("rank"))
            } else if bytes.len() < end {
                Err(malformed("truncated"))
            } else {
                Ok(
                    (
                        TensorView {
                            name,
                            dtype: "BF16"@,
                            shape: dimensions_at(bytes, at + 5, rank),
                        },
                        end,
                    ),
                )
            }
        },
    }
}

/// The tensors of some records from a position on, after those already found, and where the
/// records end.
pub open spec fn rows_at(
    bytes: Seq<u8>,
    start: int,
    count: nat,
    found: Seq<TensorView>,
) -> Result<(Seq<TensorView>, int), CoverageFault>
    decreases count,
{
    if count == 0 {
        Ok((found, start))
    } else {
        match row_at(bytes, start) {
            Err(fault) => Err(fault),
            Ok((tensor, next)) => rows_at(bytes, next, (count - 1) as nat, found.push(tensor)),
        }
    }
}

/// The entries that a policy restores, or the reason why it is rejected.
pub open spec fn reopened(bytes: Seq<u8>) -> Result<Seq<EntryView>, CoverageFault> {
    match front_at(bytes) {
        Err(fault) => Err(fault),
        Ok(start) => match rows_at(bytes, start, EXPECTED_TENSORS as nat, Seq::empty()) {
            Err(fault) => Err(fault),
            Ok((tensors, end)) => if end != bytes.len() {
                Err(CoverageFault::NonCanonicalPolicy)
            } else {
                match covered(QWEN36_27B_COVERAGE_REVISION@, tensors) {
                    Err(fault) => Err(fault),
                    Ok(entries) => if policy(entries) != bytes {
                        Err(CoverageFault::NonCanonicalPolicy)
                    } else {
                        Ok(entries)
                    },
                }
            },
        },
    }
}

/// A decoded record's name and shape.
pub struct PolicyRow {
    name: String,
    shape: Vec<u64>,
}

impl View for PolicyRow {
    type V = TensorView;

    closed spec fn view(&self) -> TensorView {
        TensorView { name: self.name@, dtype: "BF16"@, shape: self.shape@ }
    }
}

spec fn row_views(rows: Seq<PolicyRow>) -> Seq<TensorView> {
    Seq::new(rows.len(), |k: int| rows[k]@)
}

/// Reads a bounded, nonempty text, and says where it ends.
fn decode_field<'a>(
    bytes: &'a [u8],
    start: usize,
    maximum: usize,
    field: &'static str,
) -> (text: Result<(&'a str, usize), Qwen35CoverageError>)
    requires
        start <= bytes@.len(),
    ensures
        match field_at(bytes@, start as int, maximum as int, field) {
            Err(fault) => rejects(text, fault),
            Ok((chars, end)) => text matches Ok(made) && made.0@ == chars && made.1 == end && end
                <= bytes@.len(),
        },
{
    let length: usize = bytes.len();
    if length - start < 4 {
        return Err(Qwen35CoverageError::MalformedCanonicalPolicy("truncated"));
    }
    proof {
        lemma_le_limits();
    }
    let size: usize = read_le(bytes, start, 4) as usize;
    if size == 0 || size > maximum {
        return Err(Qwen35CoverageError::MalformedCanonicalPolicy(field));
    }
    if length - start - 4 < size {
        return Err(Qwen35CoverageError::MalformedCanonicalPolicy("truncated"));
    }
    let end: usize = start + 4 + size;
    match read_text(window(bytes, start + 4, end)) {
        Some(text) => Ok((text, end)),
        None => Err(Qwen35CoverageError::MalformedCanonicalPolicy(field)),
    }
}

/// Reads the policy's front, and says where the records start.
fn decode_front(bytes: &[u8]) -> (start: Result<usize, Qwen35CoverageError>)
    ensures
        match front_at(bytes@) {
            Err(fault) => rejects(start, fault),
            Ok(at) => start matches Ok(made) && made == at && at <= bytes@.len(),
        },
{
    let length: usize = bytes.len();
    if length < 8 {
        return Err(Qwen35CoverageError::MalformedCanonicalPolicy("truncated"));
    }
    if !bytes_equal(window(bytes, 0, 8), CANONICAL_POLICY_MAGIC.as_slice()) {
        return Err(Qwen35CoverageError::MalformedCanonicalPolicy("magic"));
    }
    if length < 9 {
        return Err(Qwen35CoverageError::MalformedCanonicalPolicy("truncated"));
    }
    if bytes[8] != CANONICAL_POLICY_VERSION {
        return Err(Qwen35CoverageError::UnsupportedCanonicalPolicyVersion(bytes[8]));
    }
    let (revision, end) = decode_field(bytes, 9, MAX_REVISION_BYTES, "revision")?;
    if !same_text(revision, QWEN36_27B_COVERAGE_REVISION) {
        return Err(Qwen35CoverageError::WrongRevision);
    }
    if length - end < 4 {
        return Err(Qwen35CoverageError::MalformedCanonicalPolicy("truncated"));
    }
    if read_le(bytes, end, 4) != EXPECTED_TENSORS as u64 {
        return Err(Qwen35CoverageError::MalformedCanonicalPolicy("tensor count"));
    }
    Ok(end + 4)
}

/// Reads dimensions of eight bytes each.
fn decode_dimensions(bytes: &[u8], start: usize, rank: usize) -> (shape: Vec<u64>)
    requires
        start + 8 * rank <= bytes@.len(),
    ensures
        shape@ == dimensions_at(bytes@, start as int, rank as nat),
{
    let length: usize = bytes.len();
    let mut shape: Vec<u64> = Vec::new();
    let mut index: usize = 0;
    assert(shape@ =~= dimensions_at(bytes@, start as int, 0));
    while index < rank
        invariant
            index <= rank,
            start + 8 * rank <= length == bytes@.len(),
            shape@ == dimensions_at(bytes@, start as int, index as nat),
        decreases rank - index,
    {
        shape.push(read_le(bytes, start + 8 * index, 8));
        assert(shape@ =~= dimensions_at(bytes@, start as int, (index + 1) as nat));
        index = index + 1;
    }
    shape
}

/// Reads a record, and says where it ends.
fn decode_row(bytes: &[u8], start: usize) -> (row: Result<(PolicyRow, usize), Qwen35CoverageError>)
    requires
        start <= bytes@.len(),
    ensures
        match row_at(bytes@, start as int) {
            Err(fault) => rejects(row, fault),
            Ok((tensor, end)) => row matches Ok(made) && made.0@ == tensor && made.1 == end && end
                <= bytes@.len(),
        },
{
    let length: usize = bytes.len();
    let (name, at) = decode_field(bytes, start, MAX_NAME_BYTES, "tensor name")?;
    if length - at < 1 {
        return Err(Qwen35CoverageError::MalformedCanonicalPolicy("truncated"));
    }
    if bytes[at] != 1 {
        return Err(Qwen35CoverageError::MalformedCanonicalPolicy("dtype tag"));
    }
    if length - at < 5 {
        return Err(Qwen35CoverageError::MalformedCanonicalPolicy("truncated"));
    }
    let rank: u64 = read_le(bytes, at + 1, 4);
    if rank == 0 || rank > MAX_RANK as u64 {
        return Err(Qwen35CoverageError::MalformedCanonicalPolicy("rank"));
    }
    let width: usize = 8 * rank as usize + 11;
    if length - at - 5 < width {
        return Err(Qwen35CoverageError::MalformedCanonicalPolicy("truncated"));
    }
    let shape: Vec<u64> = decode_dimensions(bytes, at + 5, rank as usize);
    Ok((PolicyRow { name: name.to_owned(), shape }, at + 5 + width))
}

/// Reads the records into an empty vector, and says where they end.
fn decode_rows(bytes: &[u8], start: usize, room: Vec<PolicyRow>) -> (rows: Result<
    (Vec<PolicyRow>, usize),
    Qwen35CoverageError,
>)
    requires
        start <= bytes@.len(),
        room@.len() == 0,
    ensures
        match rows_at(bytes@, start as int, EXPECTED_TENSORS as nat, Seq::empty()) {
            Err(fault) => rejects(rows, fault),
            Ok((tensors, end)) => rows matches Ok(made) && row_views(made.0@) == tensors && made.1
                == end && end <= bytes@.len(),
        },
{
    let mut rows: Vec<PolicyRow> = room;
    let ghost whole = rows_at(bytes@, start as int, EXPECTED_TENSORS as nat, Seq::empty());
    let mut at: usize = start;
    let mut count: usize = 0;
    assert(row_views(rows@) =~= Seq::empty());
    while count < EXPECTED_TENSORS
        invariant
            count <= EXPECTED_TENSORS,
            at <= bytes@.len(),
            whole == rows_at(
                bytes@,
                at as int,
                (EXPECTED_TENSORS - count) as nat,
                row_views(rows@),
            ),
            whole == rows_at(bytes@, start as int, EXPECTED_TENSORS as nat, Seq::empty()),
        decreases EXPECTED_TENSORS - count,
    {
        let (row, next) = decode_row(bytes, at)?;
        let ghost before = row_views(rows@);
        let ghost tensor = row@;
        rows.push(row);
        assert(row_views(rows@) =~= before.push(tensor));
        at = next;
        count = count + 1;
    }
    Ok((rows, at))
}

/// Borrows the names and shapes of decoded records.
fn row_metadata(rows: &[PolicyRow]) -> (metadata: Vec<Qwen35TensorMetadata<'_>>)
    ensures
        tensor_views(metadata@) == row_views(rows@),
{
    let mut metadata: Vec<Qwen35TensorMetadata<'_>> = Vec::new();
    let mut index: usize = 0;
    while index < rows.len()
        invariant
            index <= rows@.len(),
            tensor_views(metadata@) == row_views(rows@.take(index as int)),
        decreases rows@.len() - index,
    {
        let row: &PolicyRow = &rows[index];
        let ghost before = tensor_views(metadata@);
        let tensor = Qwen35TensorMetadata::new(row.name.as_str(), "BF16", row.shape.as_slice());
        metadata.push(tensor);
        proof {
            assert(tensor_views(metadata@) =~= before.push(tensor@));
            assert(row_views(rows@.take(index + 1)) =~= row_views(rows@.take(index as int)).push(
                row@,
            ));
        }
        index = index + 1;
    }
    assert(rows@.take(index as int) =~= rows@);
    metadata
}

/// Appends the policy record of an entry.
fn push_record(out: &mut Vec<u8>, entry: &Qwen35CoverageEntry)
    requires
        encode_utf8(entry@.name).len() <= MAX_NAME_BYTES,
        entry@.shape.len() <= MAX_RANK,
    ensures
        final(out)@ == old(out)@ + policy_record(entry@),
{
    let ghost start = out@;
    push_text(out, entry.name());
    out.push(dtype_tag(entry.dtype()));
    let shape: &[u64] = entry.shape();
    push_le(out, shape.len() as u64, 4);
    let ghost before = out@;
    let mut index: usize = 0;
    assert(out@ =~= before + dimension_fields(shape@.take(0)));
    while index < shape.len()
        invariant
            index <= shape@.len(),
            out@ == before + dimension_fields(shape@.take(index as int)),
        decreases shape@.len() - index,
    {
        push_le(out, shape[index], 8);
        proof {
            let longer = shape@.take(index + 1);
            assert(longer.drop_last() =~= shape@.take(index as int));
            assert(out@ =~= before + dimension_fields(longer));
        }
        index = index + 1;
    }
    assert(shape@.take(index as int) =~= shape@);
    push_le(out, entry.coefficients(), 8);
    out.push(scope_tag(entry.scope()));
    out.push(role_tag(entry.role()));
    out.push(disposition_tag(entry.disposition()));
    assert(out@ =~= start + policy_record(entry@));
}

impl Qwen35CoverageManifest {
    /// Canonical bytes binding every admitted tensor to its exact conversion action.
    ///
    /// Unlike [`Self::metadata_digest`], this record includes scope, semantic
    /// role, disposition, and checked coefficient count as well as source
    /// name, dtype, and shape. It is therefore suitable for durable campaign
    /// admission and recipe provenance.
    #[must_use]
    pub fn canonical_policy_bytes(&self) -> (bytes: Vec<u8>)
        requires
            self.wf(),
        ensures
            bytes@ == policy(self@),
    {
        proof {
            self.wf_pinned();
            lemma_revision_fits();
        }
        let entries: &[Qwen35CoverageEntry] = self.entries();
        let mut out: Vec<u8> = Vec::new();
        push_bytes(&mut out, CANONICAL_POLICY_MAGIC.as_slice());
        out.push(CANONICAL_POLICY_VERSION);
        push_text(&mut out, QWEN36_27B_COVERAGE_REVISION);
        push_le(&mut out, entries.len() as u64, 4);
        assert(out@ =~= policy_front(self@.len()));
        let mut index: usize = 0;
        assert(out@ =~= policy_front(self@.len()) + policy_records(self@.take(0)));
        while index < entries.len()
            invariant
                index <= entries@.len(),
                pinned(self@),
                entry_views(entries@) == self@,
                out@ == policy_front(self@.len()) + policy_records(self@.take(index as int)),
            decreases entries@.len() - index,
        {
            assert(self@[index as int] == entries@[index as int]@);
            assert(is_admitted(self@[index as int]));
            push_record(&mut out, &entries[index]);
            proof {
                let longer = self@.take(index + 1);
                assert(longer.drop_last() =~= self@.take(index as int));
                assert(out@ =~= policy_front(self@.len()) + policy_records(longer));
            }
            index = index + 1;
        }
        assert(self@.take(index as int) =~= self@);
        out
    }

    /// Domain-separated identity of [`Self::canonical_policy_bytes`].
    #[must_use]
    pub fn policy_digest(&self) -> (digest: [u8; 32])
        requires
            self.wf(),
        ensures
            digest@ == blake3_derived("tritium qwen3.6 coverage policy v1"@, policy(self@)),
    {
        derive_digest(
            "tritium qwen3.6 coverage policy v1",
            self.canonical_policy_bytes().as_slice(),
        )
    }

    /// Decode and revalidate an exact canonical coverage-policy record.
    ///
    /// The decoder never trusts serialized classifications. It reconstructs
    /// the pinned manifest from name, dtype, and shape, and then requires
    /// byte-for-byte canonical re-encoding, so that every serialized coefficient
    /// count, scope, role, and disposition equals the current immutable policy.
    ///
    /// # Errors
    /// Returns [`Qwen35CoverageError`] for malformed, unsupported, noncanonical,
    /// or no-longer-pinned policy bytes.
    pub fn from_canonical_policy_bytes(bytes: &[u8]) -> (manifest: Result<
        Self,
        Qwen35CoverageError,
    >)
        ensures
            ({
                ||| front_at(bytes@) is Ok && rejects(manifest, CoverageFault::AllocationFailed)
                ||| match reopened(bytes@) {
                    Ok(entries) => manifest matches Ok(made) && made@ == entries && made.wf(),
                    Err(fault) => rejects(manifest, fault),
                }
            }),
    {
        reopen_in(bytes, reserved_rows(), reserved_entries())
    }
}

/// An empty vector with room for the pinned records; `None` where memory is refused.
fn reserved_rows() -> (room: Option<Vec<PolicyRow>>)
    ensures
        room matches Some(empty) ==> empty@.len() == 0,
{
    let mut room: Vec<PolicyRow> = Vec::new();
    match room.try_reserve(EXPECTED_TENSORS) {
        Ok(_) => Some(room),
        Err(_) => None,
    }
}

/// Decodes a policy record with vectors for its rows and entries; `None` where memory for one was
/// refused.
pub fn reopen_in(
    bytes: &[u8],
    rows_room: Option<Vec<PolicyRow>>,
    entries_room: Option<Vec<Qwen35CoverageEntry>>,
) -> (manifest: Result<Qwen35CoverageManifest, Qwen35CoverageError>)
    requires
        rows_room matches Some(empty) ==> empty@.len() == 0,
        entries_room matches Some(empty) ==> empty@.len() == 0,
    ensures
        match front_at(bytes@) {
            Err(fault) => rejects(manifest, fault),
            Ok(start) => if rows_room is None {
                rejects(manifest, CoverageFault::AllocationFailed)
            } else if entries_room is None && (rows_at(
                bytes@,
                start,
                EXPECTED_TENSORS as nat,
                Seq::empty(),
            ) matches Ok((tensors, end)) && end == bytes@.len()) {
                rejects(manifest, CoverageFault::AllocationFailed)
            } else {
                match reopened(bytes@) {
                    Ok(entries) => manifest matches Ok(made) && made@ == entries && made.wf(),
                    Err(fault) => rejects(manifest, fault),
                }
            },
        },
{
    let start: usize = decode_front(bytes)?;
    let rows_room: Vec<PolicyRow> = match rows_room {
        None => {
            return Err(Qwen35CoverageError::AllocationFailed);
        },
        Some(empty) => empty,
    };
    let (rows, end) = decode_rows(bytes, start, rows_room)?;
    if end != bytes.len() {
        return Err(Qwen35CoverageError::NonCanonicalPolicy);
    }
    let metadata: Vec<Qwen35TensorMetadata<'_>> = row_metadata(rows.as_slice());
    let manifest: Qwen35CoverageManifest = Qwen35CoverageManifest::from_metadata_in(
        QWEN36_27B_COVERAGE_REVISION,
        metadata.as_slice(),
        entries_room,
    )?;
    if !bytes_equal(manifest.canonical_policy_bytes().as_slice(), bytes) {
        return Err(Qwen35CoverageError::NonCanonicalPolicy);
    }
    Ok(manifest)
}

/// The revision fits its field.
proof fn lemma_revision_fits()
    ensures
        0 < encode_utf8(QWEN36_27B_COVERAGE_REVISION@).len() <= MAX_REVISION_BYTES,
{
    reveal_strlit("6a9e13bd6fc8f0983b9b99948120bc37f49c13e9");
    let revision = QWEN36_27B_COVERAGE_REVISION@;
    assert(vstd::utf8::is_ascii_chars(revision));
    vstd::utf8::is_ascii_chars_encode_utf8(revision);
}

/// A scheduled tensor has one to five dimensions.
pub proof fn scheduled_shapes_have_a_rank(name: Seq<char>)
    ensures
        scheduled(name) matches Ok(tensor) ==> 1 <= tensor.shape.len() <= MAX_RANK,
{
}

/// The text of a bounded field reads back.
proof fn lemma_field_round_trip(
    bytes: Seq<u8>,
    start: int,
    text: Seq<char>,
    maximum: int,
    field: &'static str,
)
    requires
        0 <= start,
        0 < encode_utf8(text).len() <= maximum <= u32::MAX,
        start + text_field(text).len() <= bytes.len(),
        bytes.subrange(start, start + text_field(text).len()) == text_field(text),
    ensures
        text_field(text).len() == 4 + encode_utf8(text).len(),
        field_at(bytes, start, maximum, field) == Ok::<(Seq<char>, int), CoverageFault>(
            (text, start + text_field(text).len()),
        ),
{
    broadcast use lemma_le_len;

    lemma_le_limits();
    let held = encode_utf8(text);
    let whole = bytes.subrange(start, start + text_field(text).len());
    let size = text_field(text).len() as int;
    assert(size == 4 + held.len());
    assert(bytes.subrange(start, start + 4) =~= whole.subrange(0, 4));
    assert(text_field(text).subrange(0, 4) =~= le(held.len(), 4));
    le_round_trip(held.len(), 4);
    assert(bytes.subrange(start + 4, start + size) =~= whole.subrange(4, size));
    assert(text_field(text).subrange(4, size) =~= held);
    vstd::utf8::encode_utf8_valid_utf8(text);
    vstd::utf8::encode_utf8_decode_utf8(text);
}

/// Dimension fields occupy eight bytes each and hold the dimensions.
proof fn lemma_dimension_fields(shape: Seq<u64>)
    ensures
        dimension_fields(shape).len() == 8 * shape.len(),
        dimensions_at(dimension_fields(shape), 0, shape.len()) == shape,
    decreases shape.len(),
{
    broadcast use lemma_le_len;

    lemma_le_limits();
    let fields = dimension_fields(shape);
    if shape.len() > 0 {
        let shorter = shape.drop_last();
        let before = dimension_fields(shorter);
        lemma_dimension_fields(shorter);
        assert forall|k: int| 0 <= k < shape.len() implies #[trigger] dimensions_at(
            fields,
            0,
            shape.len(),
        )[k] == shape[k] by {
            if k < shorter.len() {
                assert(fields.subrange(8 * k, 8 * k + 8) =~= before.subrange(8 * k, 8 * k + 8));
                assert(dimensions_at(before, 0, shorter.len())[k] == shorter[k]);
            } else {
                assert(fields.subrange(8 * k, 8 * k + 8) =~= le(shape.last() as nat, 8));
                le_round_trip(shape.last() as nat, 8);
            }
        }
        assert(dimensions_at(fields, 0, shape.len()) =~= shape);
    } else {
        assert(dimensions_at(fields, 0, 0) =~= shape);
    }
}

/// The name and shape of an entry as source metadata.
pub open spec fn metadata_of(entry: EntryView) -> TensorView {
    TensorView { name: entry.name, dtype: "BF16"@, shape: entry.shape }
}

/// The record of an admitted entry reads back as its name and shape.
proof fn lemma_row_round_trip(bytes: Seq<u8>, start: int, entry: EntryView)
    requires
        0 <= start,
        is_admitted(entry),
        start + policy_record(entry).len() <= bytes.len(),
        bytes.subrange(start, start + policy_record(entry).len()) == policy_record(entry),
    ensures
        row_at(bytes, start) == Ok::<(TensorView, int), CoverageFault>(
            (metadata_of(entry), start + policy_record(entry).len()),
        ),
{
    broadcast use lemma_le_len;

    lemma_le_limits();
    scheduled_shapes_have_a_rank(entry.name);
    lemma_dimension_fields(entry.shape);
    let record = policy_record(entry);
    let name = text_field(entry.name);
    let rank = entry.shape.len();
    let size = name.len() as int;
    let whole = bytes.subrange(start, start + record.len());
    assert(1 <= rank <= MAX_RANK);
    assert(encode_utf8(entry.name).len() > 0) by {
        if encode_utf8(entry.name).len() == 0 {
            vstd::utf8::encode_utf8_decode_utf8(entry.name);
            assert(encode_utf8(entry.name) =~= Seq::empty());
        }
    }
    assert(record.len() == size + 5 + 8 * rank + 11);
    assert(bytes.subrange(start, start + size) =~= whole.subrange(0, size));
    assert(record.subrange(0, size) =~= name);
    lemma_field_round_trip(bytes, start, entry.name, MAX_NAME_BYTES as int, "tensor name");
    let at = start + size;
    assert(bytes[at] == whole[size]);
    assert(record[size] == dtype_number(entry.dtype));
    assert(bytes.subrange(at + 1, at + 5) =~= whole.subrange(size + 1, size + 5));
    assert(record.subrange(size + 1, size + 5) =~= le(rank, 4));
    le_round_trip(rank, 4);
    let fields = dimension_fields(entry.shape);
    assert(record.subrange(size + 5, size + 5 + 8 * rank) =~= fields);
    assert forall|k: int| 0 <= k < rank implies #[trigger] dimensions_at(bytes, at + 5, rank)[k]
        == entry.shape[k] by {
        assert(bytes.subrange(at + 5 + 8 * k, at + 5 + 8 * k + 8) =~= fields.subrange(
            8 * k,
            8 * k + 8,
        )) by {
            assert forall|b: int| 0 <= b < 8 implies bytes[at + 5 + 8 * k + b] == #[trigger] fields[8
                * k + b] by {
                assert(whole[size + 5 + 8 * k + b] == record[size + 5 + 8 * k + b]);
                assert(record.subrange(size + 5, size + 5 + 8 * rank)[8 * k + b] == fields[8 * k
                    + b]);
            }
        }
        assert(dimensions_at(fields, 0, rank)[k] == entry.shape[k]);
    }
    assert(dimensions_at(bytes, at + 5, rank) =~= entry.shape);
}

/// The record of an entry stands after those before it.
proof fn lemma_record_place(entries: Seq<EntryView>, index: int)
    requires
        0 <= index < entries.len(),
    ensures
        policy_records(entries.take(index)).len() + policy_record(entries[index]).len()
            == policy_records(entries.take(index + 1)).len() <= policy_records(entries).len(),
        policy_records(entries).subrange(
            policy_records(entries.take(index)).len() as int,
            policy_records(entries.take(index + 1)).len() as int,
        ) == policy_record(entries[index]),
    decreases entries.len(),
{
    let shorter = entries.drop_last();
    let whole = policy_records(entries);
    let before = policy_records(shorter);
    if index < shorter.len() {
        lemma_record_place(shorter, index);
        assert(shorter.take(index) =~= entries.take(index));
        assert(shorter.take(index + 1) =~= entries.take(index + 1));
        let a = policy_records(entries.take(index)).len() as int;
        let b = policy_records(entries.take(index + 1)).len() as int;
        assert(whole.subrange(a, b) =~= before.subrange(a, b));
    } else {
        assert(entries.take(index) =~= shorter);
        assert(entries.take(index + 1) =~= entries);
        assert(whole.subrange(before.len() as int, whole.len() as int) =~= policy_record(
            entries.last(),
        ));
    }
}

/// The records of admitted entries read back as their names and shapes.
proof fn lemma_rows_round_trip(bytes: Seq<u8>, front: Seq<u8>, entries: Seq<EntryView>, index: int)
    requires
        0 <= index <= entries.len(),
        bytes == front + policy_records(entries),
        forall|k: int| 0 <= k < entries.len() ==> is_admitted(#[trigger] entries[k]),
    ensures
        rows_at(
            bytes,
            (front.len() + policy_records(entries.take(index)).len()) as int,
            (entries.len() - index) as nat,
            entries.take(index).map_values(|entry: EntryView| metadata_of(entry)),
        ) == Ok::<(Seq<TensorView>, int), CoverageFault>(
            (entries.map_values(|entry: EntryView| metadata_of(entry)), bytes.len() as int),
        ),
    decreases entries.len() - index,
{
    let known = |entry: EntryView| metadata_of(entry);
    let found = entries.take(index).map_values(known);
    let start = (front.len() + policy_records(entries.take(index)).len()) as int;
    if index < entries.len() {
        lemma_record_place(entries, index);
        let record = policy_record(entries[index]);
        let records = policy_records(entries);
        let a = policy_records(entries.take(index)).len() as int;
        assert(bytes.subrange(start, start + record.len()) =~= records.subrange(
            a,
            a + record.len(),
        ));
        assert(is_admitted(entries[index]));
        lemma_row_round_trip(bytes, start, entries[index]);
        assert(entries.take(index + 1).map_values(known) =~= found.push(
            metadata_of(entries[index]),
        ));
        lemma_rows_round_trip(bytes, front, entries, index + 1);
    } else {
        assert(entries.take(index) =~= entries);
    }
}

/// Entries in strict order keep their order when sorted.
proof fn lemma_sorted_stays(entries: Seq<EntryView>)
    requires
        strictly_by_name(entries),
    ensures
        by_name(entries) == entries,
    decreases entries.len(),
{
    if entries.len() > 0 {
        let shorter = entries.drop_last();
        let last = entries.last();
        assert forall|i: int, j: int| 0 <= i < j < shorter.len() implies text_before(
            (#[trigger] shorter[i]).name,
            (#[trigger] shorter[j]).name,
        ) by {
            assert(text_before(entries[i].name, entries[j].name));
        }
        lemma_sorted_stays(shorter);
        lemma_place_is_end(entries, 0);
        assert(shorter.insert(shorter.len() as int, last) =~= entries);
    } else {
        assert(by_name(entries) =~= entries);
    }
}

/// The last of strictly ordered entries belongs at the end.
proof fn lemma_place_is_end(entries: Seq<EntryView>, from: int)
    requires
        entries.len() > 0,
        strictly_by_name(entries),
        0 <= from < entries.len(),
    ensures
        name_place(entries.drop_last(), entries.last().name, from) == entries.len() - 1,
    decreases entries.len() - from,
{
    let shorter = entries.drop_last();
    if from < shorter.len() {
        assert(text_before(entries[from].name, entries[entries.len() - 1].name));
        text_order_is_total(entries[from].name, entries[entries.len() - 1].name);
        lemma_place_is_end(entries, from + 1);
    }
}

/// The canonical policy of a manifest reopens to the same manifest.
pub proof fn policy_reopens_to_the_same_manifest(entries: Seq<EntryView>)
    requires
        pinned(entries),
    ensures
        reopened(policy(entries)) == Ok::<Seq<EntryView>, CoverageFault>(entries),
{
    broadcast use lemma_le_len;

    lemma_le_limits();
    lemma_revision_fits();
    let bytes = policy(entries);
    let revision = QWEN36_27B_COVERAGE_REVISION@;
    let field = text_field(revision);
    let front = policy_front(entries.len());
    let size = field.len() as int;
    assert(field.len() == 4 + encode_utf8(revision).len());
    assert(front.len() == 13 + size);
    assert(bytes.subrange(0, 8) =~= CANONICAL_POLICY_MAGIC@);
    assert(bytes[8] == 1u8);
    assert(bytes.subrange(9, 9 + size) =~= field);
    lemma_field_round_trip(bytes, 9, revision, MAX_REVISION_BYTES as int, "revision");
    assert(bytes.subrange(9 + size, 13 + size) =~= le(entries.len(), 4));
    le_round_trip(entries.len(), 4);
    assert(front_at(bytes) == Ok::<int, CoverageFault>(front.len() as int));
    let known = |entry: EntryView| metadata_of(entry);
    let tensors = entries.map_values(known);
    lemma_rows_round_trip(bytes, front, entries, 0);
    assert(entries.take(0).map_values(known) =~= Seq::empty());
    assert(policy_records(entries.take(0)).len() == 0);
    assert forall|k: int| 0 <= k < tensors.len() implies admitted(#[trigger] tensors[k]) == Ok::<
        EntryView,
        CoverageFault,
    >(entries[k]) by {
        assert(is_admitted(entries[k]));
    }
    assert(admitted_entries(tensors) =~= entries);
    lemma_no_fault(tensors, 0);
    lemma_sorted_stays(entries);
    lemma_no_repeat(entries, 0);
}

/// Bytes that reopen are the canonical policy of the manifest they give, which is pinned.
pub proof fn only_canonical_policies_reopen(bytes: Seq<u8>)
    requires
        reopened(bytes) is Ok,
    ensures
        policy(reopened(bytes)->Ok_0) == bytes,
        pinned(reopened(bytes)->Ok_0),
{
    let start = front_at(bytes)->Ok_0;
    let tensors = (rows_at(bytes, start, EXPECTED_TENSORS as nat, Seq::empty())->Ok_0).0;
    crate::qwen35_coverage::covered_sets_are_pinned(QWEN36_27B_COVERAGE_REVISION@, tensors);
}

} // verus!
