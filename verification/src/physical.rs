//! Physical-byte ledgers, candidates and profiles of the nested allocator.

use crate::float_bits::{f64_equal, f64_is_equal};
use crate::wire::bytes_equal;
use vstd::prelude::*;
use vstd::std_specs::cmp::PartialEqSpecImpl;

verus! {

/// Number of nested planes of every group.
pub const SALT_V2_PLANES: usize = 3;

/// Exact byte counts in the serialized package and in the resident runtime image.
#[derive(Clone, Copy, Debug, PartialEq, Eq, Structural)]
pub struct PhysicalBytes {
    /// Bytes written to the serialized model artifact.
    pub serialized: u64,
    /// Bytes occupied by the runtime-resident representation.
    pub resident: u64,
}

impl PhysicalBytes {
    /// Zero bytes in both accounting domains.
    pub fn zero() -> (bytes: Self)
        ensures
            bytes.serialized == 0,
            bytes.resident == 0,
    {
        PhysicalBytes { serialized: 0, resident: 0 }
    }

    /// Add both byte domains, returning `None` rather than wrapping either counter.
    pub fn checked_add(self, rhs: Self) -> (sum: Option<Self>)
        ensures
            sum is Some <==> self.serialized + rhs.serialized <= u64::MAX && self.resident
                + rhs.resident <= u64::MAX,
            sum matches Some(bytes) ==> bytes.serialized == self.serialized + rhs.serialized
                && bytes.resident == self.resident + rhs.resident,
    {
        match self.serialized.checked_add(rhs.serialized) {
            None => None,
            Some(serialized) => match self.resident.checked_add(rhs.resident) {
                None => None,
                Some(resident) => Some(PhysicalBytes { serialized, resident }),
            },
        }
    }

    /// Whether both exact counters are at or below `maximum`.
    pub open spec fn fits(self, maximum: Self) -> bool {
        self.serialized <= maximum.serialized && self.resident <= maximum.resident
    }

    /// Whether both exact counters are at or below `maximum`.
    pub fn fits_within(self, maximum: Self) -> (fits: bool)
        ensures
            fits == self.fits(maximum),
    {
        self.serialized <= maximum.serialized && self.resident <= maximum.resident
    }
}

impl Default for PhysicalBytes {
    fn default() -> (bytes: Self)
        ensures
            bytes.serialized == 0,
            bytes.resident == 0,
    {
        PhysicalBytes { serialized: 0, resident: 0 }
    }
}

/// One incremental physical cost with its declaration and optional measurement.
///
/// A measurement takes precedence; without one the declaration is the cost.
#[derive(Clone, Copy, Debug, PartialEq, Eq, Structural)]
pub struct ByteDelta {
    /// Byte delta declared by the selected codec before materialization.
    pub declared: PhysicalBytes,
    /// Exact measured delta, when the artifact and resident layout were materialized.
    pub measured: Option<PhysicalBytes>,
}

impl ByteDelta {
    /// Construct a delta whose declaration is authoritative.
    pub fn declared(declared: PhysicalBytes) -> (delta: Self)
        ensures
            delta == (ByteDelta { declared, measured: None }),
    {
        ByteDelta { declared, measured: None }
    }

    /// Construct a delta that retains its declaration and overrides it with a measurement.
    pub fn measured(declared: PhysicalBytes, measured: PhysicalBytes) -> (delta: Self)
        ensures
            delta == (ByteDelta { declared, measured: Some(measured) }),
    {
        ByteDelta { declared, measured: Some(measured) }
    }

    /// The measured bytes when present, otherwise the declaration.
    pub open spec fn effective_bytes(self) -> PhysicalBytes {
        match self.measured {
            Some(measured) => measured,
            None => self.declared,
        }
    }

    /// Return measured bytes when present, otherwise the authoritative declaration.
    pub fn effective(self) -> (bytes: PhysicalBytes)
        ensures
            bytes == self.effective_bytes(),
    {
        match self.measured {
            Some(measured) => measured,
            None => self.declared,
        }
    }
}

/// One nested plane-count candidate for a group.
///
/// `byte_delta` is incremental and `distortion_bits` cumulative over the planes
/// through `planes`.
#[derive(Clone, Copy, Debug)]
pub struct PlaneCandidate {
    /// Consecutive plane ordinal, exactly `1`, `2`, or `3`.
    pub planes: u8,
    /// Incremental physical cost of adding this plane.
    pub byte_delta: ByteDelta,
    /// Binary64 pattern of the nonnegative finite distortion of this prefix.
    pub distortion_bits: u64,
}

impl PartialEq for PlaneCandidate {
    fn eq(&self, other: &Self) -> (equal: bool) {
        self.planes == other.planes && self.byte_delta == other.byte_delta && f64_is_equal(
            self.distortion_bits,
            other.distortion_bits,
        )
    }
}

impl PartialEqSpecImpl for PlaneCandidate {
    open spec fn obeys_eq_spec() -> bool {
        true
    }

    /// Distortions are equal as binary64 values.
    open spec fn eq_spec(&self, other: &Self) -> bool {
        &&& self.planes == other.planes
        &&& self.byte_delta == other.byte_delta
        &&& f64_equal(self.distortion_bits, other.distortion_bits)
    }
}

/// All three nested candidates for one independently allocated group.
#[derive(Clone, Copy, Debug)]
pub struct GroupCandidates<'a> {
    /// Candidates in consecutive `P=1`, `P=2`, `P=3` order.
    pub candidates: &'a [PlaneCandidate],
}

/// Exact limits and fixed metadata cost for one published profile.
#[derive(Clone, Copy, Debug, PartialEq, Eq)]
pub struct ProfileBudget {
    /// Inclusive serialized and resident byte ceilings.
    pub maximum: PhysicalBytes,
    /// Fixed package/runtime metadata charged before any group plane bytes.
    pub metadata: ByteDelta,
}

/// Exact independent limits for the nested CompactV1 and NearLosslessV1 artifacts.
#[derive(Clone, Copy, Debug, PartialEq, Eq)]
pub struct NestedProfileBudgets {
    /// Limits and metadata for the compact plane prefix.
    pub compact: ProfileBudget,
    /// Limits and metadata for the near-lossless refinement containing that prefix.
    pub near_lossless: ProfileBudget,
}

/// The profile whose validation or budget gate failed.
#[derive(Clone, Copy, Debug, PartialEq, Eq, Structural)]
pub enum SaltV2Profile {
    /// The compact physical-storage profile.
    CompactV1,
    /// The near-lossless refinement profile.
    NearLosslessV1,
}

/// A realized exact-byte allocation for one profile.
#[derive(Clone, Debug)]
pub struct ProfileAllocation {
    /// Plane count selected for each input group, in input order.
    pub plane_counts: Vec<u8>,
    /// Metadata plus selected incremental deltas using declarations only.
    pub declared_bytes: PhysicalBytes,
    /// Metadata plus selected deltas using measurements when available.
    pub physical_bytes: PhysicalBytes,
    /// Binary64 pattern of the correctly rounded sum of selected distortions.
    pub total_distortion_bits: u64,
    /// Whether metadata and every selected plane delta carried a measurement.
    pub all_selected_bytes_measured: bool,
}

impl PartialEq for ProfileAllocation {
    fn eq(&self, other: &Self) -> (equal: bool) {
        bytes_equal(self.plane_counts.as_slice(), other.plane_counts.as_slice())
            && self.declared_bytes == other.declared_bytes && self.physical_bytes
            == other.physical_bytes && f64_is_equal(
            self.total_distortion_bits,
            other.total_distortion_bits,
        ) && self.all_selected_bytes_measured == other.all_selected_bytes_measured
    }
}

impl PartialEqSpecImpl for ProfileAllocation {
    open spec fn obeys_eq_spec() -> bool {
        true
    }

    /// Distortions are equal as binary64 values.
    open spec fn eq_spec(&self, other: &Self) -> bool {
        &&& self.plane_counts@ == other.plane_counts@
        &&& self.declared_bytes == other.declared_bytes
        &&& self.physical_bytes == other.physical_bytes
        &&& f64_equal(self.total_distortion_bits, other.total_distortion_bits)
        &&& self.all_selected_bytes_measured == other.all_selected_bytes_measured
    }
}

/// Whether every plane count is at most the corresponding refined count.
pub open spec fn plane_prefix(prefix: Seq<u8>, refined: Seq<u8>) -> bool {
    &&& prefix.len() == refined.len()
    &&& forall|g: int| 0 <= g < prefix.len() ==> #[trigger] prefix[g] <= refined[g]
}

impl ProfileAllocation {
    /// Whether every group in `self` is a plane prefix of the corresponding group in `refinement`.
    pub fn is_prefix_of(&self, refinement: &Self) -> (prefix: bool)
        ensures
            prefix == plane_prefix(self.plane_counts@, refinement.plane_counts@),
    {
        if self.plane_counts.len() != refinement.plane_counts.len() {
            return false;
        }
        let mut index: usize = 0;
        while index < self.plane_counts.len()
            invariant
                index <= self.plane_counts.len(),
                self.plane_counts.len() == refinement.plane_counts.len(),
                forall|g: int|
                    0 <= g < index ==> #[trigger] self.plane_counts@[g]
                        <= refinement.plane_counts@[g],
            decreases self.plane_counts.len() - index,
        {
            if self.plane_counts[index] > refinement.plane_counts[index] {
                return false;
            }
            index = index + 1;
        }
        true
    }
}

/// The pair of successively refinable SALT V2 profile allocations.
#[derive(Clone, Debug, PartialEq)]
pub struct NestedProfileAllocation {
    /// CompactV1 allocation and exact physical ledger.
    pub compact: ProfileAllocation,
    /// NearLosslessV1 allocation, constrained to contain `compact` plane-for-plane.
    pub near_lossless: ProfileAllocation,
}

/// Why an exact physical-byte allocation could not be produced.
#[derive(Clone, Copy, Debug)]
#[non_exhaustive]
pub enum PhysicalAllocError {
    /// No independently allocated groups were supplied.
    EmptyGroups,
    /// A group did not provide exactly the required `P=1..=3` frontier.
    CandidateCount {
        /// Index of the invalid group.
        group: usize,
        /// Candidate count that was supplied.
        count: usize,
    },
    /// A candidate's plane ordinal did not match its position in the nested frontier.
    PlaneOrdinal {
        /// Index of the invalid group.
        group: usize,
        /// Expected consecutive plane ordinal.
        expected: u8,
        /// Plane ordinal that was supplied.
        actual: u8,
    },
    /// A cumulative candidate distortion was negative or non-finite.
    InvalidDistortion {
        /// Index of the invalid group.
        group: usize,
        /// Candidate plane ordinal.
        planes: u8,
        /// Binary64 pattern of the invalid distortion.
        distortion_bits: u64,
    },
    /// Adding a refinement increased rather than reduced cumulative distortion.
    NonMonotoneDistortion {
        /// Index of the invalid group.
        group: usize,
        /// Candidate plane ordinal whose distortion increased.
        planes: u8,
    },
    /// The mandatory profile prefix plus metadata already exceeded an exact byte ceiling.
    BudgetTooSmall {
        /// Profile whose mandatory prefix did not fit.
        profile: SaltV2Profile,
        /// Exact bytes required by the mandatory prefix.
        required: PhysicalBytes,
        /// Requested exact byte ceilings.
        maximum: PhysicalBytes,
    },
    /// A declared byte ledger or aggregate distortion could not be represented.
    AccountingOverflow {
        /// Profile whose ledger overflowed.
        profile: SaltV2Profile,
    },
    /// The exact Pareto dynamic program exceeded its fail-closed state bound.
    StateSpaceTooLarge {
        /// Profile whose exact frontier grew too large.
        profile: SaltV2Profile,
        /// Number of states that the next expansion would require.
        states: usize,
    },
    /// The exact allocator could not reserve its bounded working set.
    WorkingMemoryUnavailable {
        /// Profile whose allocation workspace could not be reserved.
        profile: SaltV2Profile,
    },
}

impl PartialEq for PhysicalAllocError {
    fn eq(&self, other: &Self) -> (equal: bool) {
        match (*self, *other) {
            (PhysicalAllocError::EmptyGroups, PhysicalAllocError::EmptyGroups) => true,
            (
                PhysicalAllocError::CandidateCount { group, count },
                PhysicalAllocError::CandidateCount { group: other_group, count: other_count },
            ) => group == other_group && count == other_count,
            (
                PhysicalAllocError::PlaneOrdinal { group, expected, actual },
                PhysicalAllocError::PlaneOrdinal {
                    group: other_group,
                    expected: other_expected,
                    actual: other_actual,
                },
            ) => group == other_group && expected == other_expected && actual == other_actual,
            (
                PhysicalAllocError::InvalidDistortion { group, planes, distortion_bits },
                PhysicalAllocError::InvalidDistortion {
                    group: other_group,
                    planes: other_planes,
                    distortion_bits: other_distortion_bits,
                },
            ) => group == other_group && planes == other_planes
                && f64_is_equal(distortion_bits, other_distortion_bits),
            (
                PhysicalAllocError::NonMonotoneDistortion { group, planes },
                PhysicalAllocError::NonMonotoneDistortion {
                    group: other_group,
                    planes: other_planes,
                },
            ) => group == other_group && planes == other_planes,
            (
                PhysicalAllocError::BudgetTooSmall { profile, required, maximum },
                PhysicalAllocError::BudgetTooSmall {
                    profile: other_profile,
                    required: other_required,
                    maximum: other_maximum,
                },
            ) => profile == other_profile && required == other_required && maximum == other_maximum,
            (
                PhysicalAllocError::AccountingOverflow { profile },
                PhysicalAllocError::AccountingOverflow { profile: other_profile },
            ) => profile == other_profile,
            (
                PhysicalAllocError::StateSpaceTooLarge { profile, states },
                PhysicalAllocError::StateSpaceTooLarge {
                    profile: other_profile,
                    states: other_states,
                },
            ) => profile == other_profile && states == other_states,
            (
                PhysicalAllocError::WorkingMemoryUnavailable { profile },
                PhysicalAllocError::WorkingMemoryUnavailable { profile: other_profile },
            ) => profile == other_profile,
            _ => false,
        }
    }
}

impl PartialEqSpecImpl for PhysicalAllocError {
    open spec fn obeys_eq_spec() -> bool {
        true
    }

    /// A rejected distortion is equal as a binary64 value, and nothing equals a NaN.
    open spec fn eq_spec(&self, other: &Self) -> bool {
        match (*self, *other) {
            (
                PhysicalAllocError::InvalidDistortion { group, planes, distortion_bits },
                PhysicalAllocError::InvalidDistortion {
                    group: other_group,
                    planes: other_planes,
                    distortion_bits: other_distortion_bits,
                },
            ) => group == other_group && planes == other_planes && f64_equal(
                distortion_bits,
                other_distortion_bits,
            ),
            _ => *self == *other,
        }
    }
}

} // verus!
