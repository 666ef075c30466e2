//! What water-filling promises of the gains and sensitivities that it is given.

use crate::float_bits::{f64_finite, f64_less, f64_nan};
use crate::water_filling::{
    first_candidates, range_error, sensitivity_error, served_before, AllocError, Candidate,
};
use vstd::prelude::*;

verus! {

/// Between gains that are numbers, the greater one is served first; between equal ones the
/// lower group.
pub proof fn greater_gains_are_served_first(left: Candidate, right: Candidate)
    requires
        !f64_nan(left.gain),
        !f64_nan(right.gain),
    ensures
        f64_less(right.gain, left.gain) ==> served_before(left, right) && !served_before(right, left),
        left.gain == right.gain && left.group < right.group ==> served_before(left, right)
            && !served_before(right, left),
{
}

/// Of any two candidates of different groups exactly one is served before the other, and the
/// order of service has no cycles.
pub proof fn service_is_ordered(left: Candidate, middle: Candidate, right: Candidate)
    ensures
        left.group != right.group ==> (served_before(left, right) <==> !served_before(right, left)),
        !served_before(left, left),
        served_before(left, middle) && served_before(middle, right) ==> served_before(left, right),
{
}

/// At the start a group waits exactly if it has a gain, and it waits once, with that gain.
pub proof fn groups_with_a_gain_wait(gains: Seq<Option<u64>>, count: nat, candidate: Candidate)
    requires
        count <= gains.len() <= usize::MAX,
    ensures
        first_candidates(gains, count).count(candidate) == if candidate.group < count
            && gains[candidate.group as int] == Some(candidate.gain) {
            1nat
        } else {
            0nat
        },
    decreases count,
{
    broadcast use vstd::multiset::group_multiset_axioms;

    if count > 0 {
        groups_with_a_gain_wait(gains, (count - 1) as nat, candidate);
    }
}

/// Whether a sensitivity is a number that is neither infinite nor below zero.
pub open spec fn usable(sensitivity: u64) -> bool {
    f64_finite(sensitivity) && !f64_less(sensitivity, 0)
}

proof fn lemma_first_unusable(sensitivities: Seq<u64>, from: int)
    requires
        0 <= from <= sensitivities.len() <= usize::MAX,
    ensures
        match sensitivity_error(sensitivities, from) {
            None => forall|k: int|
                from <= k < sensitivities.len() ==> usable(#[trigger] sensitivities[k]),
            Some(AllocError::InvalidSensitivity { group, value }) => {
                &&& from <= group < sensitivities.len()
                &&& value == sensitivities[group as int]
                &&& !usable(value)
                &&& forall|k: int| from <= k < group ==> usable(#[trigger] sensitivities[k])
            },
            Some(_) => false,
        },
    decreases sensitivities.len() - from,
{
    if from < sensitivities.len() {
        lemma_first_unusable(sensitivities, from + 1);
    }
}

/// A plane range is accepted exactly if it is not empty and every sensitivity is usable. Of an
/// empty range both ends are named; of unusable sensitivities the first.
pub proof fn only_usable_groups_are_accepted(t_min: usize, t_max: usize, sensitivities: Seq<u64>)
    requires
        sensitivities.len() <= usize::MAX,
    ensures
        match range_error(t_min, t_max, sensitivities) {
            None => t_min <= t_max && forall|k: int|
                0 <= k < sensitivities.len() ==> usable(#[trigger] sensitivities[k]),
            Some(AllocError::BadRange { t_min: low, t_max: high }) => {
                low == t_min && high == t_max && t_max < t_min
            },
            Some(AllocError::InvalidSensitivity { group, value }) => {
                &&& t_min <= t_max
                &&& group < sensitivities.len()
                &&& value == sensitivities[group as int]
                &&& !usable(value)
                &&& forall|k: int| 0 <= k < group ==> usable(#[trigger] sensitivities[k])
            },
            Some(_) => false,
        },
{
    lemma_first_unusable(sensitivities, 0);
}

} // verus!
