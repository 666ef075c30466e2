//! What packed plane counts promise of their payload.

use crate::packed::{packed_code, PackedPlaneCounts};
use vstd::prelude::*;

verus! {

/// What a group adds to its place in a byte: its planes beyond the first, and nothing behind the
/// last group.
pub open spec fn extra_planes(counts: Seq<u8>, group: int) -> int {
    if group < counts.len() {
        counts[group] - 1
    } else {
        0
    }
}

/// Each byte of a payload is the base-four number of the extra planes of four groups, the first
/// of them as its lowest digit.
pub proof fn bytes_spell_extra_planes(packed: PackedPlaneCounts, at: int)
    requires
        packed.wf(),
        0 <= at < packed.payload().len(),
    ensures
        packed.payload()[at] == extra_planes(packed@, 4 * at) + 4 * extra_planes(packed@, 4 * at + 1)
            + 16 * extra_planes(packed@, 4 * at + 2) + 64 * extra_planes(packed@, 4 * at + 3),
{
    packed.payload_is_canonical();
    let bytes = packed.payload();
    let byte = bytes[at];
    assert forall|slot: int| 0 <= slot < 4 implies packed_code(bytes, 4 * at + slot)
        == #[trigger] extra_planes(packed@, 4 * at + slot) by {
        if 4 * at + slot < packed@.len() {
            assert(packed@[4 * at + slot] == packed_code(bytes, 4 * at + slot) + 1);
        }
    }
    assert(extra_planes(packed@, 4 * at + 0) == packed_code(bytes, 4 * at + 0));
    assert((4 * at + 1) / 4 == at && (4 * at + 1) % 4 == 1);
    assert((4 * at + 2) / 4 == at && (4 * at + 2) % 4 == 2);
    assert((4 * at + 3) / 4 == at && (4 * at + 3) % 4 == 3);
    assert(extra_planes(packed@, 4 * at + 1) == (byte >> 2u8) & 3u8);
    assert(extra_planes(packed@, 4 * at + 2) == (byte >> 4u8) & 3u8);
    assert(extra_planes(packed@, 4 * at + 3) == (byte >> 6u8) & 3u8);
    assert(byte == ((byte >> 0u8) & 3u8) + 4 * ((byte >> 2u8) & 3u8) + 16 * ((byte >> 4u8) & 3u8)
        + 64 * ((byte >> 6u8) & 3u8)) by (bit_vector);
}

/// Payloads tell counts apart: of as many groups, equal payloads hold equal counts.
pub proof fn payloads_determine_their_counts(left: PackedPlaneCounts, right: PackedPlaneCounts)
    requires
        left.wf(),
        right.wf(),
        left@.len() == right@.len(),
        left.payload() == right.payload(),
    ensures
        left@ == right@,
{
    left.payload_is_canonical();
    right.payload_is_canonical();
    assert forall|k: int| 0 <= k < left@.len() implies left@[k] == right@[k] by {
        assert(packed_code(left.payload(), k) + 1 == left@[k]);
        assert(packed_code(right.payload(), k) + 1 == right@[k]);
    }
    assert(left@ =~= right@);
}

} // verus!
