//! What narrowing an activation to sixteen bits promises of the stored value.

use crate::activation_scalar::{
    rounded_half_even, stored_pattern, value_error, values_error, weight,
};
use crate::activation_schema::{ActivationCacheError, ActivationDType};
use crate::float_bits::f32_finite;
use crate::ternary_laws::{apart, f32_units};
use vstd::arithmetic::power2::{
    lemma2_to64, lemma_pow2_adds, lemma_pow2_pos, lemma_pow2_strictly_increases, lemma_pow2_unfold,
    pow2,
};
use vstd::prelude::*;

verus! {

/// A finite binary16 pattern without its sign, in units of `2^-149`.
pub open spec fn f16_units(magnitude: nat) -> nat {
    if magnitude < 1024 {
        magnitude * pow2(125)
    } else {
        (1024 + magnitude % 1024) * pow2((magnitude / 1024 + 124) as nat)
    }
}

proof fn lemma_weight(place: nat)
    ensures
        weight(place) == pow2(place),
    decreases place,
{
    lemma2_to64();
    if place > 0 {
        lemma_weight((place - 1) as nat);
        lemma_pow2_unfold(place);
    }
}

/// Patterns below an exponent step have values below that step's first one.
proof fn lemma_f16_below(magnitude: nat, step: nat)
    requires
        magnitude < (step + 1) * 1024,
    ensures
        f16_units(magnitude) < 1024 * pow2(125 + step),
{
    lemma_pow2_pos(125 + step);
    if magnitude < 1024 {
        if step > 0 {
            lemma_pow2_strictly_increases(125, 125 + step);
        }
        assert(magnitude * pow2(125) < 1024 * pow2(125 + step)) by (nonlinear_arith)
            requires
                magnitude < 1024,
                pow2(125) <= pow2(125 + step),
                pow2(125 + step) > 0,
        ;
    } else {
        let exponent = magnitude / 1024;
        assert(exponent <= step);
        let place = pow2((exponent + 124) as nat);
        lemma_pow2_unfold(125 + step);
        lemma_pow2_pos(124 + step);
        if exponent < step {
            lemma_pow2_strictly_increases((exponent + 124) as nat, 124 + step);
        }
        assert((1024 + magnitude % 1024) * place < 2048 * pow2(124 + step)) by (nonlinear_arith)
            requires
                1024 + magnitude % 1024 < 2048,
                place <= pow2(124 + step),
                pow2(124 + step) > 0,
        ;
    }
}

/// Patterns from an exponent step on are multiples of its unit.
proof fn lemma_f16_multiple(magnitude: nat, step: nat) -> (times: int)
    requires
        magnitude >= (step + 1) * 1024 || step == 0,
    ensures
        f16_units(magnitude) == times * pow2(125 + step),
        magnitude >= (step + 1) * 1024 ==> times >= 1024,
{
    if magnitude < 1024 {
        magnitude as int
    } else {
        let exponent = magnitude / 1024;
        let significand = 1024 + magnitude % 1024;
        let rest = (exponent - 1 - step) as nat;
        lemma_pow2_adds(rest, 125 + step);
        lemma_pow2_pos(rest);
        assert(significand * (pow2(rest) * pow2(125 + step)) == (significand * pow2(rest)) * pow2(
            125 + step,
        )) by (nonlinear_arith);
        assert(significand * pow2(rest) >= 1024) by (nonlinear_arith)
            requires
                significand >= 1024,
                pow2(rest) >= 1,
        ;
        (significand * pow2(rest)) as int
    }
}

/// A rounded significand above an exponent step has the value that it stands for.
proof fn lemma_f16_value(step: nat, kept: nat)
    requires
        1024 <= kept <= 2048,
    ensures
        f16_units(step * 1024 + kept) == kept * pow2(125 + step),
{
    let magnitude = step * 1024 + kept;
    if kept < 2048 {
        assert(magnitude / 1024 == step + 1 && magnitude % 1024 == kept - 1024);
    } else {
        assert(magnitude / 1024 == step + 2 && magnitude % 1024 == 0);
        lemma_pow2_unfold(126 + step);
        assert(1024 * (2 * pow2(125 + step)) == 2048 * pow2(125 + step));
    }
}

/// Different patterns have different values.
proof fn lemma_f16_differ(left: nat, right: nat)
    requires
        left < right,
    ensures
        f16_units(left) < f16_units(right),
{
    if right < 1024 {
        lemma_pow2_pos(125);
        assert(left * pow2(125) < right * pow2(125)) by (nonlinear_arith)
            requires
                left < right,
                pow2(125) > 0,
        ;
    } else {
        let exponent = right / 1024;
        let step = (exponent - 1) as nat;
        lemma_pow2_pos(125 + step);
        assert((1024 + right % 1024) * pow2(125 + step) >= 1024 * pow2(125 + step))
            by (nonlinear_arith);
        if left < (step + 1) * 1024 {
            lemma_f16_below(left, step);
        } else {
            assert(left / 1024 == exponent);
            assert((1024 + left % 1024) * pow2(125 + step) < (1024 + right % 1024) * pow2(
                125 + step,
            )) by (nonlinear_arith)
                requires
                    left % 1024 < right % 1024,
                    pow2(125 + step) > 0,
            ;
        }
    }
}

/// Among multiples of a unit the rounded one is nearest.
proof fn lemma_nearest_multiple(value: int, unit: int, kept: int, dropped: int, rounded: int, times: int)
    requires
        unit > 0,
        value == kept * unit + dropped,
        0 <= dropped < unit,
        rounded == if 2 * dropped > unit || (2 * dropped == unit && kept % 2 == 1) {
            kept + 1
        } else {
            kept
        },
    ensures
        apart(value, rounded * unit) <= apart(value, times * unit),
        apart(value, rounded * unit) == apart(value, times * unit) && times != rounded ==> rounded
            % 2 == 0,
{
    assert((kept + 1) * unit == kept * unit + unit) by (nonlinear_arith);
    if times != rounded {
        assert(times * unit >= rounded * unit + unit || times * unit <= rounded * unit - unit)
            by (nonlinear_arith)
            requires
                times != rounded,
                unit > 0,
        ;
    }
}

/// Rounding a significand rounds the value that it stands for.
proof fn lemma_rounded_scaled(significand: nat, dropped: nat, place: nat)
    requires
        place > 0,
    ensures
        ({
            let unit = pow2(dropped) * place;
            let kept = significand / pow2(dropped);
            let rest = (significand % pow2(dropped)) * place;
            &&& unit > 0
            &&& significand * place == kept * unit + rest
            &&& 0 <= rest < unit
            &&& rounded_half_even(significand, dropped) == if 2 * rest > unit || (2 * rest == unit
                && kept % 2 == 1) {
                kept + 1
            } else {
                kept
            }
        }),
{
    lemma_weight(dropped);
    lemma_pow2_pos(dropped);
    let step = pow2(dropped);
    let kept = significand / step;
    let rest = significand % step;
    vstd::arithmetic::div_mod::lemma_fundamental_div_mod(significand as int, step as int);
    assert((step * kept + rest) * place == kept * (step * place) + rest * place) by (nonlinear_arith);
    assert(step * place > 0 && 0 <= rest * place && rest * place < step * place) by (nonlinear_arith)
        requires
            0 <= rest < step,
            place > 0,
    ;
    assert(2 * rest > step <==> 2 * (rest * place) > step * place) by (nonlinear_arith)
        requires
            place > 0,
    ;
    assert(2 * rest == step <==> 2 * (rest * place) == step * place) by (nonlinear_arith)
        requires
            place > 0,
    ;
}

/// The magnitude of a stored binary16 pattern.
pub open spec fn f16_magnitude(bits: u32) -> nat {
    stored_pattern(ActivationDType::Float16, bits) % 0x8000
}

proof fn lemma_large(bits: u32)
    requires
        f32_finite(bits),
    ensures
        f16_magnitude(bits) <= 0x7c00,
        f16_magnitude(bits) == 0x7c00 <==> f32_units(bits) >= 65520 * pow2(149),
{
    let magnitude = (bits % 0x8000_0000) as nat;
    let exponent = magnitude / 0x80_0000;
    let significand = magnitude % 0x80_0000 + 0x80_0000;
    lemma2_to64();
    lemma_weight(13);
    lemma_pow2_pos(141);
    lemma_pow2_adds(8, 141);
    assert(bits as nat % 0x8000_0000 == magnitude);
    assert(65520 * pow2(149) == 16773120 * pow2(141));
    if exponent >= 113 {
        let place = pow2((exponent - 1) as nat);
        assert(f32_units(bits) == significand * place);
        let rounded = rounded_half_even(significand, 13);
        assert(1024 <= rounded <= 2048);
        if exponent > 142 {
            if exponent > 143 {
                lemma_pow2_strictly_increases(142, (exponent - 1) as nat);
            }
            lemma_pow2_unfold(142);
            assert(significand * place >= 0x80_0000 * (2 * pow2(141))) by (nonlinear_arith)
                requires
                    significand >= 0x80_0000,
                    place >= 2 * pow2(141),
            ;
        } else if exponent < 142 {
            if exponent < 141 {
                lemma_pow2_strictly_increases((exponent - 1) as nat, 140);
            }
            lemma_pow2_unfold(141);
            lemma_pow2_pos(140);
            assert(significand * place < 0x100_0000 * pow2(140)) by (nonlinear_arith)
                requires
                    significand < 0x100_0000,
                    place <= pow2(140),
                    pow2(140) > 0,
            ;
        } else {
            assert(significand * pow2(141) >= 16773120 * pow2(141) <==> significand >= 16773120)
                by (nonlinear_arith)
                requires
                    pow2(141) > 0,
            ;
        }
    } else {
        lemma_small_units(bits);
        if exponent >= 1 {
            let dropped = (126 - exponent) as nat;
            lemma_weight(dropped);
            lemma_small_rounded(significand, dropped);
        }
        lemma_pow2_strictly_increases(135, 141);
    }
}

/// Values below the first exponent step of binary16 are below `2^135` units.
proof fn lemma_small_units(bits: u32)
    requires
        (bits % 0x8000_0000) / 0x80_0000 < 113,
    ensures
        f32_units(bits) < pow2(135),
{
    let magnitude = (bits % 0x8000_0000) as nat;
    let exponent = magnitude / 0x80_0000;
    lemma2_to64();
    lemma_pow2_adds(24, 111);
    lemma_pow2_pos(111);
    if exponent == 0 {
        lemma_pow2_strictly_increases(23, 135);
    } else {
        let place = pow2((exponent - 1) as nat);
        if exponent < 112 {
            lemma_pow2_strictly_increases((exponent - 1) as nat, 111);
        }
        let significand = 0x80_0000 + magnitude % 0x80_0000;
        assert(significand * place < 0x100_0000 * pow2(111)) by (nonlinear_arith)
            requires
                significand < 0x100_0000,
                place <= pow2(111),
                pow2(111) > 0,
        ;
    }
}

/// A significand that drops fourteen bits or more rounds to at most ten bits and one.
proof fn lemma_small_rounded(significand: nat, dropped: nat)
    requires
        significand < 0x100_0000,
        dropped >= 14,
    ensures
        rounded_half_even(significand, dropped) <= 1024,
{
    lemma2_to64();
    lemma_weight(dropped);
    if dropped > 14 {
        lemma_pow2_strictly_increases(14, dropped);
    }
    let step = pow2(dropped);
    assert(significand / step < 1024) by {
        vstd::arithmetic::div_mod::lemma_fundamental_div_mod(significand as int, step as int);
        assert(significand / step < 1024) by (nonlinear_arith)
            requires
                significand == step * (significand / step) + significand % step,
                significand % step >= 0,
                significand < 0x100_0000,
                step >= 0x4000,
        ;
    }
}

/// A value stored as binary16 is stored as the nearest one: no finite binary16 value is nearer,
/// and where another is as near, the stored pattern is even. From 65520 on, which is as near to
/// the first value that does not fit, a magnitude overflows.
pub proof fn binary16_values_are_nearest(bits: u32, other: nat)
    requires
        f32_finite(bits),
        other < 0x7c00,
    ensures
        f16_magnitude(bits) <= 0x7c00,
        f16_magnitude(bits) == 0x7c00 <==> f32_units(bits) >= 65520 * pow2(149),
        f16_magnitude(bits) < 0x7c00 ==> {
            let value = f32_units(bits) as int;
            &&& apart(value, f16_units(f16_magnitude(bits)) as int) <= apart(
                value,
                f16_units(other) as int,
            )
            &&& apart(value, f16_units(f16_magnitude(bits)) as int) == apart(
                value,
                f16_units(other) as int,
            ) && other != f16_magnitude(bits) ==> f16_magnitude(bits) % 2 == 0
        },
{
    lemma_large(bits);
    let magnitude = (bits % 0x8000_0000) as nat;
    let exponent = magnitude / 0x80_0000;
    let significand = magnitude % 0x80_0000 + 0x80_0000;
    let value = f32_units(bits);
    let stored = f16_magnitude(bits);
    assert(bits as nat % 0x8000_0000 == magnitude);
    lemma2_to64();
    if stored < 0x7c00 {
        if other < stored {
            lemma_f16_differ(other, stored);
        } else if stored < other {
            lemma_f16_differ(stored, other);
        }
        if exponent >= 113 {
            let step = (exponent - 113) as nat;
            let place = pow2((exponent - 1) as nat);
            lemma_pow2_pos((exponent - 1) as nat);
            lemma_rounded_scaled(significand, 13, place);
            lemma_pow2_adds(13, (exponent - 1) as nat);
            let unit = pow2(125 + step) as int;
            assert(unit == pow2(13) * place);
            let rounded = rounded_half_even(significand, 13);
            lemma_weight(13);
            assert(1024 <= rounded <= 2048);
            assert(stored == step * 1024 + rounded);
            lemma_f16_value(step, rounded);
            let kept = significand / pow2(13);
            let rest = (significand % pow2(13)) * place;
            if other >= (step + 1) * 1024 {
                let times = lemma_f16_multiple(other, step);
                lemma_nearest_multiple(
                    value as int,
                    unit,
                    kept as int,
                    rest as int,
                    rounded as int,
                    times,
                );
            } else {
                lemma_f16_below(other, step);
                lemma_nearest_multiple(
                    value as int,
                    unit,
                    kept as int,
                    rest as int,
                    rounded as int,
                    1024,
                );
                assert(kept * unit >= 1024 * unit) by (nonlinear_arith)
                    requires
                        kept >= 1024,
                        unit > 0,
                ;
            }
        } else {
            let unit = pow2(125) as int;
            lemma_pow2_pos(125);
            let times = lemma_f16_multiple(other, 0);
            if exponent >= 1 {
                let dropped = (126 - exponent) as nat;
                let place = pow2((exponent - 1) as nat);
                lemma_pow2_pos((exponent - 1) as nat);
                lemma_rounded_scaled(significand, dropped, place);
                lemma_pow2_adds(dropped, (exponent - 1) as nat);
                let rounded = rounded_half_even(significand, dropped);
                lemma_small_rounded(significand, dropped);
                assert(stored == rounded);
                if rounded == 1024 {
                    lemma_f16_value(0, 1024);
                }
                assert(f16_units(stored) == rounded * unit);
                lemma_nearest_multiple(
                    value as int,
                    unit,
                    (significand / pow2(dropped)) as int,
                    ((significand % pow2(dropped)) * place) as int,
                    rounded as int,
                    times,
                );
            } else {
                lemma_pow2_strictly_increases(24, 125);
                assert(stored == 0);
                assert(f16_units(0) == 0) by (nonlinear_arith)
                    requires
                        f16_units(0) == 0 * pow2(125),
                ;
                assert(0 * unit == 0) by (nonlinear_arith);
                lemma_nearest_multiple(value as int, unit, 0, value as int, 0, times);
            }
        }
    }
}

/// A value stored as bfloat16 is at most half a step of its pattern away, and exactly half only
/// where the stored pattern is even. Its sign is kept.
pub proof fn bfloat16_patterns_are_nearest(bits: u32)
    requires
        f32_finite(bits),
    ensures
        ({
            let stored = stored_pattern(ActivationDType::BFloat16, bits) as int;
            let distance = bits - 0x1_0000 * stored;
            &&& -0x8000 <= distance <= 0x8000
            &&& distance == 0x8000 || distance == -0x8000 ==> stored % 2 == 0
        }),
{
    lemma2_to64();
    lemma_weight(16);
    let magnitude = bits as nat % 0x8000_0000;
    assert(bits as nat == bits as nat / 0x8000_0000 * 0x8000_0000 + magnitude);
}

/// Whether a value is stored without becoming infinite.
pub open spec fn storable(dtype: ActivationDType, bits: u32) -> bool {
    match dtype {
        ActivationDType::Float32 => true,
        ActivationDType::Float16 => f32_units(bits) < 65520 * pow2(149),
        ActivationDType::BFloat16 => bits % 0x8000_0000 < 0x7f7f_8000,
    }
}

/// A value is accepted exactly if it is finite and its stored value is; the two faults are told
/// apart and the value is named by its index.
pub proof fn only_storable_values_are_accepted(dtype: ActivationDType, bits: u32, index: u64)
    ensures
        value_error(dtype, bits, index) is None <==> f32_finite(bits) && storable(dtype, bits),
        !f32_finite(bits) ==> value_error(dtype, bits, index) == Some(
            ActivationCacheError::NonFiniteValue { index },
        ),
        f32_finite(bits) && !storable(dtype, bits) ==> value_error(dtype, bits, index) == Some(
            ActivationCacheError::DTypeOverflow { index, dtype },
        ),
{
    if f32_finite(bits) {
        let stored = stored_pattern(dtype, bits);
        match dtype {
            ActivationDType::Float16 => {
                lemma_large(bits);
                assert(stored % 0x8000 == f16_magnitude(bits));
            },
            ActivationDType::BFloat16 => {
                lemma2_to64();
                lemma_weight(16);
                let magnitude = bits as nat % 0x8000_0000;
                assert(stored == bits as nat / 0x8000_0000 * 0x8000 + rounded_half_even(
                    magnitude,
                    16,
                ));
                assert(rounded_half_even(magnitude, 16) <= 0x7f80);
                assert(stored % 0x8000 == rounded_half_even(magnitude, 16));
            },
            ActivationDType::Float32 => {},
        }
    }
}

/// Values are accepted exactly if each of them is; otherwise the first that is not is named.
pub proof fn the_first_refused_value_is_named(dtype: ActivationDType, values: Seq<u32>, from: nat)
    requires
        from <= values.len() <= u64::MAX,
    ensures
        match values_error(dtype, values, from) {
            None => forall|k: int|
                from <= k < values.len() ==> f32_finite(#[trigger] values[k]) && storable(
                    dtype,
                    values[k],
                ),
            Some(error) => exists|k: int|
                {
                    &&& from <= k < values.len()
                    &&& !(f32_finite(#[trigger] values[k]) && storable(dtype, values[k]))
                    &&& forall|j: int|
                        from <= j < k ==> f32_finite(#[trigger] values[j]) && storable(
                            dtype,
                            values[j],
                        )
                    &&& error == if f32_finite(values[k]) {
                        ActivationCacheError::DTypeOverflow { index: k as u64, dtype }
                    } else {
                        ActivationCacheError::NonFiniteValue { index: k as u64 }
                    }
                },
        },
    decreases values.len() - from,
{
    if from < values.len() {
        only_storable_values_are_accepted(dtype, values[from as int], from as u64);
        the_first_refused_value_is_named(dtype, values, from + 1);
    }
}

} // verus!
