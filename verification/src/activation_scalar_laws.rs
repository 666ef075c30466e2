//! What the scalar encodings of activation caches promise of values, signs and rounding.

use crate::activation_scalar::{
    nearest_bfloat16, nearest_binary16, packed_bits, packed_mask, rounded_half_even,
    stored_pattern, stored_values, weight,
};
use crate::activation_schema::ActivationDType;
use crate::float_bits::f32_finite;
use crate::wire::{le, lemma_le_len};
use vstd::prelude::*;

verus! {

/// The number that four bytes spell, the least significant first.
pub open spec fn spelled_4(bytes: Seq<u8>, at: int) -> int {
    bytes[at] + 0x100 * bytes[at + 1] + 0x1_0000 * bytes[at + 2] + 0x100_0000 * bytes[at + 3]
}

/// The number that two bytes spell, the least significant first.
pub open spec fn spelled_2(bytes: Seq<u8>, at: int) -> int {
    bytes[at] + 0x100 * bytes[at + 1]
}

proof fn lemma_le_2(value: nat)
    requires
        value < 0x1_0000,
    ensures
        le(value, 2).len() == 2,
        spelled_2(le(value, 2), 0) == value,
{
    reveal_with_fuel(le, 3);
}

proof fn lemma_le_4(value: nat)
    requires
        value < 0x1_0000_0000,
    ensures
        le(value, 4).len() == 4,
        spelled_4(le(value, 4), 0) == value,
{
    reveal_with_fuel(le, 5);
}

/// The bytes of each stored value stand in order.
proof fn lemma_stored_at(dtype: ActivationDType, values: Seq<u32>, k: int)
    requires
        0 <= k < values.len(),
    ensures
        stored_values(dtype, values).len() == values.len() * dtype.width(),
        0 <= k * dtype.width(),
        (k + 1) * dtype.width() <= values.len() * dtype.width(),
        (k + 1) * dtype.width() == k * dtype.width() + dtype.width(),
        stored_values(dtype, values).subrange(k * dtype.width(), (k + 1) * dtype.width()) == le(
            stored_pattern(dtype, values[k]),
            dtype.width(),
        ),
    decreases values.len(),
{
    broadcast use lemma_le_len;

    let width = dtype.width() as int;
    let front = values.drop_last();
    let bytes = stored_values(dtype, values);
    let before = stored_values(dtype, front);
    assert(values.len() * width == front.len() * width + width) by (nonlinear_arith)
        requires
            values.len() == front.len() + 1,
    ;
    assert((k + 1) * width == k * width + width) by (nonlinear_arith);
    assert(0 <= k * width) by (nonlinear_arith)
        requires
            k >= 0,
            width >= 0,
    ;
    assert((k + 1) * width <= values.len() * width) by (nonlinear_arith)
        requires
            k + 1 <= values.len(),
            width >= 0,
    ;
    if front.len() > 0 {
        lemma_stored_at(dtype, front, 0);
    } else {
        assert(0 * width == 0) by (nonlinear_arith);
    }
    assert(before.len() == front.len() * width);
    if k < front.len() {
        lemma_stored_at(dtype, front, k);
        assert((k + 1) * width <= front.len() * width) by (nonlinear_arith)
            requires
                k + 1 <= front.len(),
                width >= 0,
        ;
        assert(bytes.subrange(k * width, (k + 1) * width) =~= before.subrange(
            k * width,
            (k + 1) * width,
        ));
    } else {
        assert(bytes.subrange(k * width, (k + 1) * width) =~= le(
            stored_pattern(dtype, values[k]),
            dtype.width(),
        ));
    }
}

proof fn lemma_width_products(count: int, k: int, width: int, bytes: int)
    requires
        width == bytes,
    ensures
        count * width == bytes * count,
        k * width == bytes * k,
        (k + 1) * width == bytes * k + bytes,
{
    assert(count * width == bytes * count && k * width == bytes * k && (k + 1) * width == bytes * k
        + bytes) by (nonlinear_arith)
        requires
            width == bytes,
    ;
}

/// Binary32 storage keeps every value: the four bytes of scalar `k` spell the pattern of source
/// value `k`.
pub proof fn binary32_storage_keeps_every_value(values: Seq<u32>, k: int)
    requires
        0 <= k < values.len(),
    ensures
        stored_values(ActivationDType::Float32, values).len() == 4 * values.len(),
        spelled_4(stored_values(ActivationDType::Float32, values), 4 * k) == values[k],
{
    let dtype = ActivationDType::Float32;
    let bytes = stored_values(dtype, values);
    lemma_stored_at(dtype, values, k);
    lemma_width_products(values.len() as int, k, dtype.width() as int, 4);
    lemma_le_4(values[k] as nat);
    let part = bytes.subrange(4 * k, 4 * k + 4);
    assert(part[0] == bytes[4 * k] && part[1] == bytes[4 * k + 1] && part[2] == bytes[4 * k + 2]
        && part[3] == bytes[4 * k + 3]);
}

/// Different values have different binary32 bytes.
pub proof fn binary32_storage_tells_values_apart(left: Seq<u32>, right: Seq<u32>)
    requires
        stored_values(ActivationDType::Float32, left) == stored_values(
            ActivationDType::Float32,
            right,
        ),
    ensures
        left == right,
{
    if left.len() > 0 {
        binary32_storage_keeps_every_value(left, 0);
    } else {
        assert(stored_values(ActivationDType::Float32, left).len() == 0);
    }
    if right.len() > 0 {
        binary32_storage_keeps_every_value(right, 0);
    } else {
        assert(stored_values(ActivationDType::Float32, right).len() == 0);
    }
    assert forall|k: int| 0 <= k < left.len() implies left[k] == right[k] by {
        binary32_storage_keeps_every_value(left, k);
        binary32_storage_keeps_every_value(right, k);
    }
    assert(left =~= right);
}

proof fn lemma_weights_16()
    ensures
        weight(13) == 0x2000,
        weight(16) == 0x1_0000,
        weight(24) == 0x100_0000,
{
    reveal_with_fuel(weight, 26);
}

proof fn lemma_weight_positive(place: nat)
    ensures
        weight(place) >= 1,
    decreases place,
{
    if place > 0 {
        lemma_weight_positive((place - 1) as nat);
    }
}

/// Rounding moves a value by at most half a step, and by exactly half only onto an even multiple.
pub proof fn rounding_goes_to_the_nearest(value: nat, dropped: nat)
    ensures
        ({
            let step = weight(dropped) as int;
            let distance = value - rounded_half_even(value, dropped) * step;
            &&& -step <= 2 * distance <= step
            &&& (2 * distance == step || 2 * distance == -step) ==> step == 1 || rounded_half_even(
                value,
                dropped,
            ) % 2 == 0
        }),
{
    lemma_weight_positive(dropped);
    let step = weight(dropped) as int;
    let quotient = value as int / step;
    vstd::arithmetic::div_mod::lemma_fundamental_div_mod(value as int, step);
    assert(step * quotient == quotient * step) by (nonlinear_arith);
    assert((quotient + 1) * step == quotient * step + step) by (nonlinear_arith);
}

/// The sign bit of a stored scalar is that of its source value, in every encoding; a stored
/// scalar fits its width.
pub proof fn stored_values_keep_their_sign(dtype: ActivationDType, values: Seq<u32>, k: int)
    requires
        0 <= k < values.len(),
        f32_finite(values[k]),
    ensures
        ({
            let bytes = stored_values(dtype, values);
            let width = if dtype is Float32 {
                4int
            } else {
                2int
            };
            &&& bytes.len() == width * values.len()
            &&& bytes[width * k + width - 1] >= 0x80 <==> values[k] >= 0x8000_0000
        }),
{
    let bytes = stored_values(dtype, values);
    lemma_stored_at(dtype, values, k);
    lemma_weights_16();
    let width = if dtype is Float32 {
        4int
    } else {
        2int
    };
    lemma_width_products(values.len() as int, k, dtype.width() as int, width);
    match dtype {
        ActivationDType::Float32 => {
            binary32_storage_keeps_every_value(values, k);
        },
        _ => {
            let pattern = stored_pattern(dtype, values[k]);
            assert(pattern < 0x1_0000 && (pattern >= 0x8000 <==> values[k] >= 0x8000_0000));
            lemma_le_2(pattern);
            let part = bytes.subrange(2 * k, 2 * k + 2);
            assert(part[0] == bytes[2 * k] && part[1] == bytes[2 * k + 1]);
        },
    }
}

/// Negating a value only sets or clears the sign of what is stored.
pub proof fn negation_flips_only_the_sign(dtype: ActivationDType, bits: u32)
    requires
        bits < 0x8000_0000,
        f32_finite(bits),
    ensures
        stored_pattern(dtype, (bits + 0x8000_0000) as u32) == stored_pattern(dtype, bits) + if dtype
            is Float32 {
            0x8000_0000int
        } else {
            0x8000int
        },
{
    lemma_weights_16();
    let negative = (bits + 0x8000_0000) as u32;
    assert(negative as nat / 0x8000_0000 == 1 && negative as nat % 0x8000_0000 == bits);
    assert(bits as nat / 0x8000_0000 == 0 && bits as nat % 0x8000_0000 == bits);
}

/// A bfloat16 pattern widened to binary32 is stored as itself.
pub proof fn bfloat16_values_are_kept(pattern: u16)
    requires
        pattern % 0x8000 < 0x7f80,
    ensures
        nearest_bfloat16((pattern * 0x1_0000) as u32) == pattern,
{
    lemma_weights_16();
    let bits = (pattern * 0x1_0000) as u32;
    let magnitude = (pattern % 0x8000) as nat;
    assert(bits as nat % 0x8000_0000 == magnitude * 0x1_0000);
    assert(bits as nat / 0x8000_0000 == pattern as nat / 0x8000);
    assert((magnitude * 0x1_0000) / 0x1_0000 == magnitude && (magnitude * 0x1_0000) % 0x1_0000 == 0);
}

/// A larger magnitude is never stored as a smaller one.
pub proof fn bfloat16_storage_keeps_the_order(less: u32, more: u32)
    requires
        less <= more < 0x7f80_0000,
    ensures
        nearest_bfloat16(less) <= nearest_bfloat16(more),
{
    lemma_weights_16();
}

/// A normal binary16 pattern widened to binary32 is stored as itself: its exponent is 112 more,
/// and its fraction has 13 more bits.
pub proof fn normal_binary16_values_are_kept(negative: bool, exponent: nat, fraction: nat)
    requires
        1 <= exponent <= 30,
        fraction < 1024,
    ensures
        ({
            let sign = if negative {
                1nat
            } else {
                0nat
            };
            let bits = (sign * 0x8000_0000 + (exponent + 112) * 0x80_0000 + fraction
                * 0x2000) as u32;
            nearest_binary16(bits) == sign * 0x8000 + exponent * 1024 + fraction
        }),
{
    lemma_weights_16();
    let sign = if negative {
        1nat
    } else {
        0nat
    };
    let magnitude = (exponent + 112) * 0x80_0000 + fraction * 0x2000;
    let bits = (sign * 0x8000_0000 + magnitude) as u32;
    assert(magnitude < 0x8000_0000);
    assert(bits as nat % 0x8000_0000 == magnitude && bits as nat / 0x8000_0000 == sign);
    assert(magnitude / 0x80_0000 == exponent + 112 && magnitude % 0x80_0000 == fraction * 0x2000);
    assert((fraction * 0x2000 + 0x80_0000) / 0x2000 == fraction + 1024 && (fraction * 0x2000
        + 0x80_0000) % 0x2000 == 0);
}

/// A byte of a packed mask holds eight entries, the first in the lowest bit.
pub proof fn masks_fill_bytes_from_the_lowest_bit(mask: Seq<bool>, byte: int)
    requires
        0 <= byte,
        8 * byte + 8 <= mask.len(),
    ensures
        packed_mask(mask)[byte] == (if mask[8 * byte] {
            1int
        } else {
            0
        }) + (if mask[8 * byte + 1] {
            2int
        } else {
            0
        }) + (if mask[8 * byte + 2] {
            4int
        } else {
            0
        }) + (if mask[8 * byte + 3] {
            8int
        } else {
            0
        }) + (if mask[8 * byte + 4] {
            16int
        } else {
            0
        }) + (if mask[8 * byte + 5] {
            32int
        } else {
            0
        }) + (if mask[8 * byte + 6] {
            64int
        } else {
            0
        }) + (if mask[8 * byte + 7] {
            128int
        } else {
            0
        }),
{
    reveal_with_fuel(weight, 9);
    reveal_with_fuel(packed_bits, 9);
}

} // verus!
