//! Integer ledgers over plane vectors.

use crate::exact::{exact_sum_fits, f64_units_bound, ExactDistortion};
use crate::float_bits::f64_units;
use crate::physical::{ByteDelta, GroupCandidates, PhysicalBytes, PlaneCandidate};
use crate::plane_model::{
    distortion_fn, floors_valid, group_valid, groups_valid, lemma_prefix_cost_monotone,
    lex_greater, mode_bytes, plane_sum, prefix_cost, resident_fn, serialized_fn, total_distortion,
    total_resident, total_serialized, ByteMode,
};
use vstd::arithmetic::power2::pow2;
use vstd::prelude::*;

verus! {

impl ByteMode {
    /// The cost of a delta under this ledger mode.
    pub fn bytes(self, delta: ByteDelta) -> (bytes: PhysicalBytes)
        ensures
            bytes == mode_bytes(self, delta),
    {
        match self {
            ByteMode::Declared => delta.declared,
            ByteMode::Effective => delta.effective(),
        }
    }
}

/// A total held in 128 bits.
pub open spec fn saturated(total: int) -> int {
    if total <= u128::MAX {
        total
    } else {
        u128::MAX as int
    }
}

/// Byte totals that saturate instead of wrapping.
#[derive(Clone, Copy, Debug)]
pub struct WideBytes {
    /// Serialized bytes.
    pub serialized: u128,
    /// Resident bytes.
    pub resident: u128,
}

impl WideBytes {
    /// Add one delta in both domains.
    pub fn plus(self, delta: PhysicalBytes) -> (sum: Self)
        ensures
            sum.serialized == saturated(self.serialized + delta.serialized),
            sum.resident == saturated(self.resident + delta.resident),
    {
        WideBytes {
            serialized: self.serialized.saturating_add(delta.serialized as u128),
            resident: self.resident.saturating_add(delta.resident as u128),
        }
    }

    /// Narrow to exact counters; `None` when either leaves 64 bits.
    pub fn to_physical(self) -> (bytes: Option<PhysicalBytes>)
        ensures
            bytes is Some <==> self.serialized <= u64::MAX && self.resident <= u64::MAX,
            bytes matches Some(b) ==> b.serialized == self.serialized && b.resident
                == self.resident,
    {
        if self.serialized <= u64::MAX as u128 && self.resident <= u64::MAX as u128 {
            Some(
                PhysicalBytes {
                    serialized: self.serialized as u64,
                    resident: self.resident as u64,
                },
            )
        } else {
            None
        }
    }
}

/// Metadata plus the selected deltas of every group.
pub fn sum_bytes(
    groups: &[GroupCandidates<'_>],
    plane_counts: &[u8],
    metadata: ByteDelta,
    mode: ByteMode,
) -> (total: WideBytes)
    requires
        groups_valid(groups@),
        floors_valid(groups@, plane_counts@),
    ensures
        total.serialized == saturated(
            total_serialized(groups@, plane_counts@, metadata, mode),
        ),
        total.resident == saturated(total_resident(groups@, plane_counts@, metadata, mode)),
{
    let base = mode.bytes(metadata);
    let mut total = WideBytes {
        serialized: base.serialized as u128,
        resident: base.resident as u128,
    };
    let mut group: usize = 0;
    let ghost fs = serialized_fn(groups@, mode);
    let ghost fr = resident_fn(groups@, mode);
    while group < groups.len()
        invariant
            group <= groups.len(),
            groups_valid(groups@),
            floors_valid(groups@, plane_counts@),
            fs == serialized_fn(groups@, mode),
            fr == resident_fn(groups@, mode),
            total.serialized == saturated(
                base.serialized + plane_sum(fs, plane_counts@, group as int),
            ),
            total.resident == saturated(base.resident + plane_sum(fr, plane_counts@, group as int)),
        decreases groups.len() - group,
    {
        let candidates: &[PlaneCandidate] = groups[group].candidates;
        let planes: usize = plane_counts[group] as usize;
        let ghost before = total;
        let mut plane: usize = 0;
        let ghost cs = |q: int|
            mode_bytes(mode, groups@[group as int].candidates@[q].byte_delta).serialized as int;
        let ghost cr = |q: int|
            mode_bytes(mode, groups@[group as int].candidates@[q].byte_delta).resident as int;
        assert(group_valid(groups@[group as int].candidates@));
        assert(1 <= plane_counts@[group as int] <= 3);
        while plane < planes
            invariant
                plane <= planes <= 3,
                candidates@.len() == 3,
                candidates@ == groups@[group as int].candidates@,
                cs == (|q: int|
                    mode_bytes(
                        mode,
                        groups@[group as int].candidates@[q].byte_delta,
                    ).serialized as int),
                cr == (|q: int|
                    mode_bytes(
                        mode,
                        groups@[group as int].candidates@[q].byte_delta,
                    ).resident as int),
                total.serialized == saturated(before.serialized + prefix_cost(cs, plane as int)),
                total.resident == saturated(before.resident + prefix_cost(cr, plane as int)),
            decreases planes - plane,
        {
            let delta = mode.bytes(candidates[plane].byte_delta);
            total = total.plus(delta);
            plane = plane + 1;
        }
        proof {
            lemma_prefix_cost_monotone(cs, 0, planes as int);
            lemma_prefix_cost_monotone(cr, 0, planes as int);
            assert(fs(group as int, planes as int) == prefix_cost(cs, planes as int));
            assert(fr(group as int, planes as int) == prefix_cost(cr, planes as int));
        }
        group = group + 1;
    }
    total
}

/// Pattern of one group's cumulative distortion.
pub fn distortion_bits_at(group: &GroupCandidates<'_>, planes: u8) -> (bits: u64)
    requires
        group_valid(group.candidates@),
        1 <= planes <= 3,
    ensures
        bits == group.candidates@[planes - 1].distortion_bits,
{
    group.candidates[(planes - 1) as usize].distortion_bits
}

/// A distortion total of `count` groups is at most `count` largest values.
pub proof fn lemma_distortion_bound(
    groups: Seq<GroupCandidates<'_>>,
    planes: Seq<u8>,
    count: int,
)
    requires
        groups_valid(groups),
        floors_valid(groups, planes),
        0 <= count <= groups.len(),
    ensures
        0 <= plane_sum(distortion_fn(groups), planes, count) <= count * pow2(2098),
    decreases count,
{
    if count > 0 {
        lemma_distortion_bound(groups, planes, count - 1);
        assert(group_valid(groups[count - 1].candidates@));
        assert(1 <= planes[count - 1] <= 3);
        f64_units_bound(groups[count - 1].candidates@[planes[count - 1] - 1].distortion_bits);
        assert(count * pow2(2098) == (count - 1) * pow2(2098) + pow2(2098)) by (nonlinear_arith);
    }
}

/// Exact total distortion of a plane vector.
pub fn exact_total_distortion(groups: &[GroupCandidates<'_>], plane_counts: &[u8]) -> (total:
    ExactDistortion)
    requires
        groups_valid(groups@),
        floors_valid(groups@, plane_counts@),
    ensures
        total.value() == total_distortion(groups@, plane_counts@),
{
    let mut total = ExactDistortion::zero();
    let mut group: usize = 0;
    while group < groups.len()
        invariant
            group <= groups.len(),
            groups_valid(groups@),
            floors_valid(groups@, plane_counts@),
            total.value() == plane_sum(distortion_fn(groups@), plane_counts@, group as int),
        decreases groups.len() - group,
    {
        assert(group_valid(groups@[group as int].candidates@));
        assert(1 <= plane_counts@[group as int] <= 3);
        let bits: u64 = distortion_bits_at(&groups[group], plane_counts[group]);
        proof {
            lemma_distortion_bound(groups@, plane_counts@, group + 1);
            exact_sum_fits((total.value() + f64_units(bits)) as nat, (group + 1) as nat);
        }
        total = total.checked_add_f64_bits(bits).unwrap();
        group = group + 1;
    }
    total
}

/// Whether metadata and every selected delta carry a measurement.
pub open spec fn all_measured(
    groups: Seq<GroupCandidates<'_>>,
    planes: Seq<u8>,
    metadata: ByteDelta,
) -> bool {
    &&& metadata.measured is Some
    &&& forall|g: int, p: int|
        0 <= g < groups.len() && 0 <= p < planes[g] ==> (
        #[trigger] groups[g].candidates@[p]).byte_delta.measured is Some
}

/// Whether metadata and every selected delta carry a measurement.
pub fn all_selected_bytes_measured(
    groups: &[GroupCandidates<'_>],
    plane_counts: &[u8],
    metadata: ByteDelta,
) -> (measured: bool)
    requires
        groups_valid(groups@),
        floors_valid(groups@, plane_counts@),
    ensures
        measured == all_measured(groups@, plane_counts@, metadata),
{
    if metadata.measured.is_none() {
        return false;
    }
    let mut group: usize = 0;
    while group < groups.len()
        invariant
            group <= groups.len(),
            groups_valid(groups@),
            floors_valid(groups@, plane_counts@),
            metadata.measured is Some,
            forall|g: int, p: int|
                0 <= g < group && 0 <= p < plane_counts@[g] ==> (
                #[trigger] groups@[g].candidates@[p]).byte_delta.measured is Some,
        decreases groups.len() - group,
    {
        let candidates: &[PlaneCandidate] = groups[group].candidates;
        let planes: usize = plane_counts[group] as usize;
        assert(group_valid(groups@[group as int].candidates@));
        assert(1 <= plane_counts@[group as int] <= 3);
        let mut plane: usize = 0;
        while plane < planes
            invariant
                plane <= planes <= 3,
                group < groups.len(),
                planes == plane_counts@[group as int],
                candidates@.len() == 3,
                candidates@ == groups@[group as int].candidates@,
                forall|p: int|
                    0 <= p < plane ==> (
                    #[trigger] groups@[group as int].candidates@[p]).byte_delta.measured is Some,
            decreases planes - plane,
        {
            if candidates[plane].byte_delta.measured.is_none() {
                assert(groups@[group as int].candidates@[plane as int].byte_delta.measured is None);
                return false;
            }
            plane = plane + 1;
        }
        group = group + 1;
    }
    true
}

/// Copy a plane vector.
pub fn copy_planes(source: &[u8]) -> (copy: Vec<u8>)
    ensures
        copy@ == source@,
{
    let mut copy: Vec<u8> = Vec::new();
    let mut index: usize = 0;
    while index < source.len()
        invariant
            index <= source.len(),
            copy@ == source@.take(index as int),
        decreases source.len() - index,
    {
        copy.push(source[index]);
        index = index + 1;
        assert(copy@ =~= source@.take(index as int));
    }
    assert(source@.take(index as int) =~= source@);
    copy
}

/// Whether the left plane vector is lexicographically greater.
pub fn planes_lex_greater(left: &[u8], right: &[u8]) -> (greater: bool)
    requires
        left@.len() == right@.len(),
    ensures
        greater == lex_greater(left@, right@),
{
    let mut index: usize = 0;
    while index < left.len()
        invariant
            index <= left@.len(),
            left@.len() == right@.len(),
            forall|j: int| 0 <= j < index ==> #[trigger] left@[j] == right@[j],
        decreases left.len() - index,
    {
        if left[index] > right[index] {
            return true;
        }
        if left[index] < right[index] {
            assert forall|i: int|
                0 <= i < left@.len() && #[trigger] left@[i] > right@[i] implies exists|j: int|
                0 <= j < i && #[trigger] left@[j] != right@[j] by {
                assert(left@[index as int] != right@[index as int]);
            }
            return false;
        }
        index = index + 1;
    }
    false
}

} // verus!
