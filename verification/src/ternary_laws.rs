//! What ternary codes promise of quotients and additive states.

use crate::float_bits::{f32_finite, f64_less, f64_nan, F32_INFINITY, F32_SIGN};
use crate::ternary::{
    first_improvement, first_smallest, is_trit, plane_codes, rounded_quotient, state_code,
    state_codes, states, HALF,
};
use vstd::arithmetic::power2::{
    lemma2_to64, lemma_pow2_adds, lemma_pow2_pos, lemma_pow2_strictly_increases, lemma_pow2_unfold,
    pow2,
};
use vstd::prelude::*;

verus! {

/// A binary32 pattern without its sign, in units of `2^-149`.
pub open spec fn f32_units(bits: u32) -> nat {
    let magnitude = (bits % F32_SIGN) as nat;
    if magnitude < 0x80_0000 {
        magnitude
    } else {
        (0x80_0000 + magnitude % 0x80_0000) * pow2((magnitude / 0x80_0000 - 1) as nat)
    }
}

/// A binary32 pattern in units of `2^-149`, with its sign.
pub open spec fn f32_value(bits: u32) -> int {
    if bits < F32_SIGN {
        f32_units(bits) as int
    } else {
        -(f32_units(bits) as int)
    }
}

/// How far two numbers lie apart.
pub open spec fn apart(left: int, right: int) -> int {
    if left < right {
        right - left
    } else {
        left - right
    }
}

/// Patterns below one half have values below one half, the others do not.
proof fn lemma_half(bits: u32)
    requires
        f32_finite(bits),
    ensures
        2 * f32_units(bits) >= pow2(149) <==> bits % F32_SIGN >= HALF,
        pow2(149) > 0,
{
    let magnitude = (bits % F32_SIGN) as nat;
    lemma2_to64();
    lemma_pow2_pos(149);
    lemma_pow2_adds(23, 126);
    lemma_pow2_unfold(126);
    lemma_pow2_unfold(125);
    lemma_pow2_pos(124);
    assert(pow2(23) == 0x80_0000);
    assert(pow2(149) == 0x80_0000 * pow2(126));
    assert(pow2(126) == 4 * pow2(124));
    if magnitude < 0x80_0000 {
        lemma_pow2_strictly_increases(23, 148);
        lemma_pow2_unfold(149);
    } else {
        let exponent = magnitude / 0x80_0000;
        let significand = 0x80_0000 + magnitude % 0x80_0000;
        let place = pow2((exponent - 1) as nat);
        if exponent < 126 {
            if exponent < 125 {
                lemma_pow2_strictly_increases((exponent - 1) as nat, 124);
            }
            assert(significand * place < 0x100_0000 * pow2(124)) by (nonlinear_arith)
                requires
                    significand < 0x100_0000,
                    place <= pow2(124),
                    0 < pow2(124),
                    significand >= 0,
            ;
        } else {
            if exponent > 126 {
                lemma_pow2_strictly_increases(125, (exponent - 1) as nat);
            }
            assert(significand * place >= 0x80_0000 * pow2(125)) by (nonlinear_arith)
                requires
                    significand >= 0x80_0000,
                    place >= pow2(125),
                    pow2(125) >= 0,
            ;
        }
    }
}

/// The code of a finite quotient is the nearest of `-1`, `0` and `+1`; of two that are as near
/// it is the one farther from zero.
pub proof fn quotients_round_to_the_nearest_code(bits: u32, other: i8)
    requires
        f32_finite(bits),
        is_trit(other),
    ensures
        is_trit(rounded_quotient(bits)),
        apart(f32_value(bits), rounded_quotient(bits) * pow2(149)) <= apart(
            f32_value(bits),
            other * pow2(149),
        ),
        apart(f32_value(bits), rounded_quotient(bits) * pow2(149)) == apart(
            f32_value(bits),
            other * pow2(149),
        ) && other != rounded_quotient(bits) ==> other == 0,
{
    lemma_half(bits);
    let one = pow2(149) as int;
    assert(-1 * one == -one && 0 * one == 0 && 1 * one == one) by (nonlinear_arith);
}

/// An infinite quotient takes its sign, and what is not a number gives zero.
pub proof fn quotients_that_are_not_finite(bits: u32)
    requires
        !f32_finite(bits),
    ensures
        rounded_quotient(bits) == if bits == F32_INFINITY {
            1int
        } else if bits == F32_SIGN + F32_INFINITY {
            -1
        } else {
            0
        },
{
}

/// Place of a code in the order in which states try it: zero, then `-1`, then `+1`.
pub open spec fn code_rank(code: i8) -> nat {
    if code == 0 {
        0
    } else if code < 0 {
        1
    } else {
        2
    }
}

/// The number that codes spell in base three, the first plane's code as the lowest digit.
pub open spec fn spelled_state(codes: Seq<i8>) -> nat
    decreases codes.len(),
{
    if codes.len() == 0 {
        0
    } else {
        code_rank(codes[0]) + 3 * spelled_state(codes.subrange(1, codes.len() as int))
    }
}

proof fn lemma_codes_step(state: nat, planes: nat)
    requires
        planes > 0,
    ensures
        state_codes(state, planes).subrange(1, planes as int) == state_codes(
            state / 3,
            (planes - 1) as nat,
        ),
{
    assert forall|k: int| 0 <= k < planes - 1 implies state_codes(state, planes).subrange(
        1,
        planes as int,
    )[k] == state_codes(state / 3, (planes - 1) as nat)[k] by {
        assert(state_code(state, (k + 1) as nat) == state_code(state / 3, k as nat));
    }
    assert(state_codes(state, planes).subrange(1, planes as int) =~= state_codes(
        state / 3,
        (planes - 1) as nat,
    ));
}

/// The codes of a state are ternary and spell the state in base three. There are three to the
/// power of the planes of them.
pub proof fn codes_spell_their_state(state: nat, planes: nat)
    requires
        state < states(planes),
    ensures
        states(planes) == vstd::arithmetic::power::pow(3, planes),
        state_codes(state, planes).len() == planes,
        forall|p: int| 0 <= p < planes ==> is_trit(#[trigger] state_codes(state, planes)[p]),
        spelled_state(state_codes(state, planes)) == state,
    decreases planes,
{
    reveal(vstd::arithmetic::power::pow);
    if planes > 0 {
        lemma_codes_step(state, planes);
        codes_spell_their_state(state / 3, (planes - 1) as nat);
        let codes = state_codes(state, planes);
        assert(codes[0] == state_code(state, 0));
        assert forall|p: int| 0 <= p < planes implies is_trit(#[trigger] codes[p]) by {
            if p > 0 {
                assert(codes[p] == codes.subrange(1, planes as int)[p - 1]);
            }
        }
    }
}

/// Every choice of ternary codes is the state that it spells.
pub proof fn every_choice_of_codes_is_a_state(codes: Seq<i8>)
    requires
        forall|p: int| 0 <= p < codes.len() ==> is_trit(#[trigger] codes[p]),
    ensures
        spelled_state(codes) < states(codes.len()),
        state_codes(spelled_state(codes), codes.len()) == codes,
    decreases codes.len(),
{
    if codes.len() > 0 {
        let rest = codes.subrange(1, codes.len() as int);
        assert forall|p: int| 0 <= p < rest.len() implies is_trit(#[trigger] rest[p]) by {
            assert(rest[p] == codes[p + 1]);
        }
        every_choice_of_codes_is_a_state(rest);
        let state = spelled_state(codes);
        assert(is_trit(codes[0]));
        assert(state / 3 == spelled_state(rest) && state % 3 == code_rank(codes[0]));
        lemma_codes_step(state, codes.len());
        let shown = state_codes(state, codes.len());
        assert forall|p: int| 0 <= p < codes.len() implies shown[p] == codes[p] by {
            if p == 0 {
                assert(shown[0] == state_code(state, 0));
            } else {
                assert(shown[p] == shown.subrange(1, codes.len() as int)[p - 1]);
                assert(rest[p - 1] == codes[p]);
            }
        }
    }
    assert(state_codes(spelled_state(codes), codes.len()) =~= codes);
}

/// Each weight's planes hold the codes of the state chosen for it, and zeros where none was.
pub proof fn planes_hold_the_chosen_states(
    chosen: Seq<Option<usize>>,
    planes: nat,
    plane: int,
    weight: int,
)
    requires
        0 <= plane < planes,
        0 <= weight < chosen.len(),
        chosen[weight] is Some ==> chosen[weight]->0 < states(planes),
    ensures
        plane_codes(chosen, plane as nat).len() == chosen.len(),
        chosen[weight] is None ==> plane_codes(chosen, plane as nat)[weight] == 0,
        chosen[weight] is Some ==> spelled_state(
            Seq::new(planes, |p: int| plane_codes(chosen, p as nat)[weight]),
        ) == chosen[weight]->0,
{
    match chosen[weight] {
        Some(state) => {
            codes_spell_their_state(state as nat, planes);
            assert(Seq::new(planes, |p: int| plane_codes(chosen, p as nat)[weight])
                =~= state_codes(state as nat, planes));
        },
        None => {},
    }
}

/// No error that is a number is less than that of the chosen state, and no earlier one equals
/// it.
pub proof fn chosen_errors_are_least(errors: Seq<u64>, index: int, other: int)
    requires
        first_smallest(errors, index),
        0 <= other < errors.len(),
        !f64_nan(errors[other]),
    ensures
        0 <= index < errors.len(),
        !f64_less(errors[other], errors[index]),
        other < index ==> f64_less(errors[index], errors[other]),
{
}

/// The chosen change lowers the objective, no other change is less, and no earlier one equals
/// it.
pub proof fn chosen_changes_lower_the_most(deltas: Seq<u64>, index: int, other: int)
    requires
        first_improvement(deltas, index),
        0 <= other < deltas.len(),
        !f64_nan(deltas[other]),
    ensures
        0 <= index < deltas.len(),
        f64_less(deltas[index], 0),
        !f64_less(deltas[other], deltas[index]),
        other < index ==> f64_less(deltas[index], deltas[other]),
{
}

} // verus!
