//! Ternary codes: rounding a quotient, enumerating additive states, choosing the best one.

use crate::float_bits::{f64_is_less, f64_less, f64_nan, f64_rank, F32_INFINITY, F32_SIGN, F64_INFINITY};
use vstd::prelude::*;

verus! {

/// Bit pattern of binary32 one half.
pub const HALF: u32 = 0x3f00_0000;

/// Whether a number is a ternary code.
pub open spec fn is_trit(code: i8) -> bool {
    -1 <= code <= 1
}

/// A binary32 quotient rounded half away from zero and clamped to `{-1, 0, +1}`; what is not a
/// number gives zero.
pub open spec fn rounded_quotient(bits: u32) -> i8 {
    let magnitude = bits % F32_SIGN;
    if magnitude > F32_INFINITY || magnitude < HALF {
        0
    } else if bits < F32_SIGN {
        1
    } else {
        -1i8
    }
}

/// The ternary code of a weight divided by its plane's scale.
pub fn quotient_trit(bits: u32) -> (code: i8)
    ensures
        code == rounded_quotient(bits),
        is_trit(code),
{
    let magnitude: u32 = bits % F32_SIGN;
    if magnitude > F32_INFINITY || magnitude < HALF {
        0
    } else if bits < F32_SIGN {
        1
    } else {
        -1
    }
}

/// The ternary code that a digit below three stands for: zero first, then `-1`, then `+1`.
pub open spec fn digit_code(digit: int) -> i8 {
    if digit == 0 {
        0
    } else if digit == 1 {
        -1i8
    } else {
        1
    }
}

/// Number of additive states of some planes.
pub open spec fn states(planes: nat) -> nat
    decreases planes,
{
    if planes == 0 {
        1
    } else {
        3 * states((planes - 1) as nat)
    }
}

/// The code that a state gives a plane: its base-three digit for the plane.
pub open spec fn state_code(state: nat, plane: nat) -> i8
    decreases plane,
{
    if plane == 0 {
        digit_code((state % 3) as int)
    } else {
        state_code(state / 3, (plane - 1) as nat)
    }
}

/// The codes of a state for some planes.
pub open spec fn state_codes(state: nat, planes: nat) -> Seq<i8> {
    Seq::new(planes, |plane: int| state_code(state, plane as nat))
}

/// Number of additive states of up to three planes.
pub fn state_count(planes: usize) -> (count: usize)
    requires
        planes <= 3,
    ensures
        count == states(planes as nat),
{
    reveal_with_fuel(states, 4);
    match planes {
        0 => 1,
        1 => 3,
        2 => 9,
        _ => 27,
    }
}

/// The codes of a state, one per plane.
pub fn codes_of_state(state: usize, planes: usize) -> (codes: Vec<i8>)
    ensures
        codes@ == state_codes(state as nat, planes as nat),
        forall|k: int| 0 <= k < codes@.len() ==> is_trit(#[trigger] codes@[k]),
{
    let mut codes: Vec<i8> = Vec::new();
    let mut rest: usize = state;
    let mut plane: usize = 0;
    while plane < planes
        invariant
            plane <= planes,
            codes@.len() == plane,
            forall|k: int|
                0 <= k < plane ==> #[trigger] codes@[k] == state_code(state as nat, k as nat),
            forall|k: int| 0 <= k < plane ==> is_trit(#[trigger] codes@[k]),
            forall|k: nat| #[trigger]
                state_code(state as nat, (plane + k) as nat) == state_code(rest as nat, k),
        decreases planes - plane,
    {
        proof {
            assert(state_code(state as nat, (plane + 0) as nat) == state_code(rest as nat, 0));
        }
        codes.push(
            match rest % 3 {
                0 => 0,
                1 => -1,
                _ => 1,
            },
        );
        proof {
            assert forall|k: nat| #[trigger]
                state_code(state as nat, (plane + 1 + k) as nat) == state_code(
                    (rest / 3) as nat,
                    k,
                ) by {
                assert(plane + 1 + k == plane + (k + 1));
                assert(state_code(state as nat, (plane + (k + 1)) as nat) == state_code(
                    rest as nat,
                    k + 1,
                ));
            }
        }
        rest = rest / 3;
        plane = plane + 1;
    }
    assert(codes@ =~= state_codes(state as nat, planes as nat));
    codes
}

/// Different states give different codes.
pub proof fn states_have_different_codes(left: nat, right: nat, planes: nat)
    requires
        left < states(planes),
        right < states(planes),
        state_codes(left, planes) == state_codes(right, planes),
    ensures
        left == right,
    decreases planes,
{
    if planes > 0 {
        let less = (planes - 1) as nat;
        let a = state_codes(left, planes);
        let b = state_codes(right, planes);
        assert(a[0] == b[0]);
        assert(left % 3 == right % 3);
        assert forall|k: int| 0 <= k < less implies #[trigger] state_codes(left / 3, less)[k] == state_codes(
            right / 3,
            less,
        )[k] by {
            assert(a[k + 1] == b[k + 1]);
            assert(state_code(left, (k + 1) as nat) == state_code(left / 3, k as nat));
            assert(state_code(right, (k + 1) as nat) == state_code(right / 3, k as nat));
        }
        assert(state_codes(left / 3, less) =~= state_codes(right / 3, less));
        states_have_different_codes(left / 3, right / 3, less);
        assert(left == 3 * (left / 3) + left % 3);
        assert(right == 3 * (right / 3) + right % 3);
    }
}

/// Whether an error is the first of the smallest ones below infinity.
pub open spec fn first_smallest(errors: Seq<u64>, index: int) -> bool {
    &&& 0 <= index < errors.len()
    &&& f64_less(errors[index], F64_INFINITY)
    &&& forall|k: int| 0 <= k < errors.len() ==> !f64_less(#[trigger] errors[k], errors[index])
    &&& forall|k: int|
        0 <= k < index ==> f64_nan(errors[k]) || f64_rank(errors[index]) < f64_rank(
            #[trigger] errors[k],
        )
}

/// The state with the smallest squared error, the first of equal ones; none when no error is
/// below infinity.
pub fn best_state(errors: &[u64]) -> (best: Option<usize>)
    ensures
        match best {
            Some(index) => first_smallest(errors@, index as int),
            None => forall|k: int|
                0 <= k < errors@.len() ==> !f64_less(#[trigger] errors@[k], F64_INFINITY),
        },
{
    let mut best: Option<usize> = None;
    let mut least: u64 = F64_INFINITY;
    let mut index: usize = 0;
    while index < errors.len()
        invariant
            index <= errors@.len(),
            !f64_nan(least),
            match best {
                Some(at) => {
                    &&& at < index
                    &&& least == errors@[at as int]
                    &&& f64_less(least, F64_INFINITY)
                    &&& forall|k: int| 0 <= k < index ==> !f64_less(#[trigger] errors@[k], least)
                    &&& forall|k: int|
                        0 <= k < at ==> f64_nan(errors@[k]) || f64_rank(least) < f64_rank(
                            #[trigger] errors@[k],
                        )
                },
                None => least == F64_INFINITY && forall|k: int|
                    0 <= k < index ==> !f64_less(#[trigger] errors@[k], F64_INFINITY),
            },
        decreases errors@.len() - index,
    {
        if f64_is_less(errors[index], least) {
            proof {
                let error = errors@[index as int];
                assert forall|k: int| 0 <= k < index implies f64_nan(errors@[k]) || f64_rank(error)
                    < f64_rank(#[trigger] errors@[k]) by {
                    assert(!f64_less(errors@[k], least));
                }
            }
            best = Some(index);
            least = errors[index];
        }
        index = index + 1;
    }
    best
}

/// Whether a change is the first of the smallest ones below zero.
pub open spec fn first_improvement(deltas: Seq<u64>, index: int) -> bool {
    &&& 0 <= index < deltas.len()
    &&& f64_less(deltas[index], 0)
    &&& forall|k: int| 0 <= k < deltas.len() ==> !f64_less(#[trigger] deltas[k], deltas[index])
    &&& forall|k: int|
        0 <= k < index ==> f64_nan(deltas[k]) || f64_rank(deltas[index]) < f64_rank(
            #[trigger] deltas[k],
        )
}

/// The state whose change lowers an objective the most, the first of equal ones; none when no
/// change is below zero.
pub fn improving_state(deltas: &[u64]) -> (best: Option<usize>)
    ensures
        match best {
            Some(index) => first_improvement(deltas@, index as int),
            None => forall|k: int| 0 <= k < deltas@.len() ==> !f64_less(#[trigger] deltas@[k], 0),
        },
{
    let mut best: Option<usize> = None;
    let mut least: u64 = 0;
    let mut index: usize = 0;
    while index < deltas.len()
        invariant
            index <= deltas@.len(),
            !f64_nan(least),
            match best {
                Some(at) => {
                    &&& at < index
                    &&& least == deltas@[at as int]
                    &&& f64_less(least, 0)
                    &&& forall|k: int| 0 <= k < index ==> !f64_less(#[trigger] deltas@[k], least)
                    &&& forall|k: int|
                        0 <= k < at ==> f64_nan(deltas@[k]) || f64_rank(least) < f64_rank(
                            #[trigger] deltas@[k],
                        )
                },
                None => least == 0 && forall|k: int|
                    0 <= k < index ==> !f64_less(#[trigger] deltas@[k], 0),
            },
        decreases deltas@.len() - index,
    {
        if f64_is_less(deltas[index], least) {
            proof {
                let delta = deltas@[index as int];
                assert forall|k: int| 0 <= k < index implies f64_nan(deltas@[k]) || f64_rank(delta)
                    < f64_rank(#[trigger] deltas@[k]) by {
                    assert(!f64_less(deltas@[k], least));
                }
            }
            best = Some(index);
            least = deltas[index];
        }
        index = index + 1;
    }
    best
}

/// The codes that chosen states give a plane, one per weight; without a state the code is zero.
pub open spec fn plane_codes(chosen: Seq<Option<usize>>, plane: nat) -> Seq<i8> {
    Seq::new(
        chosen.len(),
        |k: int|
            match chosen[k] {
                Some(state) => state_code(state as nat, plane),
                None => 0,
            },
    )
}

/// The plane-major codes of the states chosen for each weight.
pub fn assigned_planes(chosen: &[Option<usize>], planes: usize) -> (trits: Vec<Vec<i8>>)
    ensures
        trits@.len() == planes,
        forall|p: int|
            0 <= p < planes ==> (#[trigger] trits@[p])@ == plane_codes(chosen@, p as nat),
{
    let mut trits: Vec<Vec<i8>> = Vec::new();
    let mut plane: usize = 0;
    while plane < planes
        invariant
            plane <= planes,
            trits@.len() == plane,
            forall|p: int|
                0 <= p < plane ==> (#[trigger] trits@[p])@ == plane_codes(chosen@, p as nat),
        decreases planes - plane,
    {
        let mut codes: Vec<i8> = Vec::new();
        let mut weight: usize = 0;
        while weight < chosen.len()
            invariant
                weight <= chosen@.len(),
                codes@.len() == weight,
                plane < usize::MAX,
                forall|k: int|
                    0 <= k < weight ==> #[trigger] codes@[k] == plane_codes(
                        chosen@,
                        plane as nat,
                    )[k],
            decreases chosen@.len() - weight,
        {
            let code: i8 = match chosen[weight] {
                Some(state) => {
                    let of_state: Vec<i8> = codes_of_state(state, plane + 1);
                    of_state[plane]
                },
                None => 0,
            };
            codes.push(code);
            weight = weight + 1;
        }
        assert(codes@ =~= plane_codes(chosen@, plane as nat));
        trits.push(codes);
        plane = plane + 1;
    }
    trits
}

} // verus!
