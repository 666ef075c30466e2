//! Scalar encodings and bit-packed masks of activation caches.

use crate::activation_schema::{ActivationCacheError, ActivationDType};
use crate::float_bits::{f32_finite, f32_is_finite};
use crate::wire::{le, le_at, lemma_le_len, lemma_le_limits, push_le, read_le};
use vstd::prelude::*;

verus! {

/// The weight of bit `place`.
pub open spec fn weight(place: nat) -> nat
    decreases place,
{
    if place == 0 {
        1
    } else {
        2 * weight((place - 1) as nat)
    }
}

/// `value` divided by the weight of bit `dropped`, rounded to the nearest integer with ties to
/// the even one.
pub open spec fn rounded_half_even(value: nat, dropped: nat) -> nat {
    let quotient = value / weight(dropped);
    let twice = 2 * (value % weight(dropped));
    if twice > weight(dropped) || (twice == weight(dropped) && quotient % 2 == 1) {
        quotient + 1
    } else {
        quotient
    }
}

/// The binary16 pattern nearest to a finite binary32 pattern, ties to even; magnitudes of at
/// least 65520 become infinite.
pub open spec fn nearest_binary16(bits: u32) -> nat {
    let magnitude = bits as nat % 0x8000_0000;
    let exponent = magnitude / 0x80_0000;
    let fraction = magnitude % 0x80_0000;
    let rounded = if exponent >= 113 {
        ((exponent - 113) * 1024) as nat + rounded_half_even(fraction + 0x80_0000, 13)
    } else if exponent >= 1 {
        rounded_half_even(fraction + 0x80_0000, (126 - exponent) as nat)
    } else {
        0
    };
    bits as nat / 0x8000_0000 * 0x8000 + if rounded < 0x7c00 {
        rounded
    } else {
        0x7c00
    }
}

/// The bfloat16 pattern nearest to a finite binary32 pattern, ties to even.
pub open spec fn nearest_bfloat16(bits: u32) -> nat {
    bits as nat / 0x8000_0000 * 0x8000 + rounded_half_even(bits as nat % 0x8000_0000, 16)
}

/// Whether a stored pattern of the encoding is neither infinite nor NaN.
pub open spec fn pattern_finite(dtype: ActivationDType, pattern: nat) -> bool {
    match dtype {
        ActivationDType::Float32 => pattern % 0x8000_0000 < 0x7f80_0000,
        ActivationDType::Float16 => pattern % 0x8000 < 0x7c00,
        ActivationDType::BFloat16 => pattern % 0x8000 < 0x7f80,
    }
}

/// The stored pattern of a finite binary32 value.
pub open spec fn stored_pattern(dtype: ActivationDType, bits: u32) -> nat {
    match dtype {
        ActivationDType::Float32 => bits as nat,
        ActivationDType::Float16 => nearest_binary16(bits),
        ActivationDType::BFloat16 => nearest_bfloat16(bits),
    }
}

/// The reason to refuse one source value, if there is one.
pub open spec fn value_error(dtype: ActivationDType, bits: u32, index: u64) -> Option<
    ActivationCacheError,
> {
    if !f32_finite(bits) {
        Some(ActivationCacheError::NonFiniteValue { index })
    } else if !pattern_finite(dtype, stored_pattern(dtype, bits)) {
        Some(ActivationCacheError::DTypeOverflow { index, dtype })
    } else {
        None
    }
}

/// The reason to refuse the source values from `from` on: that of the first refused one.
pub open spec fn values_error(dtype: ActivationDType, values: Seq<u32>, from: nat) -> Option<
    ActivationCacheError,
>
    decreases values.len() - from,
{
    if from >= values.len() {
        None
    } else if value_error(dtype, values[from as int], from as u64) is Some {
        value_error(dtype, values[from as int], from as u64)
    } else {
        values_error(dtype, values, from + 1)
    }
}

/// The canonical bytes of a run of source values.
pub open spec fn stored_values(dtype: ActivationDType, values: Seq<u32>) -> Seq<u8>
    decreases values.len(),
{
    if values.len() == 0 {
        Seq::empty()
    } else {
        stored_values(dtype, values.drop_last()) + le(
            stored_pattern(dtype, values.last()),
            dtype.width(),
        )
    }
}

/// The stored pattern of one scalar in a run of canonical bytes.
pub open spec fn pattern_at(dtype: ActivationDType, bytes: Seq<u8>, index: nat) -> nat {
    le_at(bytes, (index * dtype.width()) as int, dtype.width() as int)
}

/// The first scalar at or after `from` whose stored pattern is infinite or NaN.
pub open spec fn first_nonfinite(dtype: ActivationDType, bytes: Seq<u8>, from: nat) -> Option<nat>
    decreases bytes.len() - from * dtype.width(),
{
    proof {
        let width = dtype.width();
        assert((from + 1) * width == from * width + width) by (nonlinear_arith);
    }
    if (from + 1) * dtype.width() > bytes.len() {
        None
    } else if !pattern_finite(dtype, pattern_at(dtype, bytes, from)) {
        Some(from)
    } else {
        first_nonfinite(dtype, bytes, from + 1)
    }
}

/// Whether every stored scalar is finite.
pub open spec fn bytes_finite(dtype: ActivationDType, bytes: Seq<u8>) -> bool {
    forall|k: nat|
        (k + 1) * dtype.width() <= bytes.len() ==> pattern_finite(
            dtype,
            #[trigger] pattern_at(dtype, bytes, k),
        )
}

/// A first nonfinite scalar exists exactly when not every scalar is finite.
pub proof fn lemma_first_nonfinite(dtype: ActivationDType, bytes: Seq<u8>, from: nat)
    ensures
        first_nonfinite(dtype, bytes, from) is None <==> (forall|k: nat|
            from <= k && (k + 1) * dtype.width() <= bytes.len() ==> pattern_finite(
                dtype,
                #[trigger] pattern_at(dtype, bytes, k),
            )),
        first_nonfinite(dtype, bytes, from) matches Some(k) ==> from <= k && (k + 1)
            * dtype.width() <= bytes.len(),
    decreases bytes.len() - from * dtype.width(),
{
    let width = dtype.width() as int;
    if (from + 1) * width > bytes.len() {
        assert forall|k: nat|
            from <= k && (k + 1) * dtype.width() <= bytes.len() implies pattern_finite(
            dtype,
            #[trigger] pattern_at(dtype, bytes, k),
        ) by {
            assert((k + 1) * width >= (from + 1) * width) by (nonlinear_arith)
                requires
                    k >= from,
                    width >= 1,
            ;
        }
    } else {
        assert((from + 1) * width == from * width + width) by (nonlinear_arith);
        if pattern_finite(dtype, pattern_at(dtype, bytes, from)) {
            lemma_first_nonfinite(dtype, bytes, from + 1);
        } else {
            let unused = pattern_at(dtype, bytes, from);
        }
    }
}

/// Values that are all accepted have finite canonical bytes of the expected length.
pub proof fn lemma_stored_values(dtype: ActivationDType, values: Seq<u32>)
    requires
        forall|k: int| 0 <= k < values.len() ==> value_error(dtype, values[k], k as u64) is None,
    ensures
        stored_values(dtype, values).len() == values.len() * dtype.width(),
        bytes_finite(dtype, stored_values(dtype, values)),
    decreases values.len(),
{
    broadcast use lemma_le_len;

    let width = dtype.width();
    let bytes = stored_values(dtype, values);
    if values.len() > 0 {
        let front = values.drop_last();
        let front_bytes = stored_values(dtype, front);
        lemma_stored_values(dtype, front);
        assert(values.len() * width == front.len() * width + width) by (nonlinear_arith)
            requires
                values.len() == front.len() + 1,
        ;
        assert(value_error(dtype, values[values.len() - 1], (values.len() - 1) as u64) is None);
        let pattern = stored_pattern(dtype, values.last());
        assert forall|k: nat| (k + 1) * width <= bytes.len() implies pattern_finite(
            dtype,
            #[trigger] pattern_at(dtype, bytes, k),
        ) by {
            assert((k + 1) * width == k * width + width) by (nonlinear_arith);
            if k < front.len() {
                assert((k + 1) * width <= front.len() * width) by (nonlinear_arith)
                    requires
                        k + 1 <= front.len(),
                ;
                assert(bytes.subrange((k * width) as int, (k * width + width) as int)
                    =~= front_bytes.subrange((k * width) as int, (k * width + width) as int));
                assert(pattern_at(dtype, bytes, k) == pattern_at(dtype, front_bytes, k));
            } else {
                assert(k == front.len()) by (nonlinear_arith)
                    requires
                        k >= front.len(),
                        (k + 1) * width <= values.len() * width,
                        values.len() == front.len() + 1,
                        width >= 1,
                ;
                assert(bytes.subrange((k * width) as int, (k * width + width) as int) =~= le(
                    pattern,
                    width,
                ));
                lemma_pattern_fits(dtype, values.last());
                crate::wire::le_round_trip(pattern, width);
            }
        }
    } else {
        assert(0 * width == 0) by (nonlinear_arith);
        assert forall|k: nat| (k + 1) * width <= bytes.len() implies pattern_finite(
            dtype,
            #[trigger] pattern_at(dtype, bytes, k),
        ) by {
            assert((k + 1) * width > 0) by (nonlinear_arith)
                requires
                    width >= 1,
            ;
        }
    }
}

/// A stored pattern fits the width of its encoding.
pub proof fn lemma_pattern_fits(dtype: ActivationDType, bits: u32)
    requires
        f32_finite(bits),
    ensures
        stored_pattern(dtype, bits) < crate::wire::le_limit(dtype.width()),
{
    lemma_le_limits();
    lemma_large_weights();
}

proof fn lemma_large_weights()
    ensures
        weight(13) == 0x2000,
        weight(16) == 0x1_0000,
        weight(24) == 0x100_0000,
        weight(25) == 0x200_0000,
{
    reveal_with_fuel(weight, 26);
}

fn rounded(value: u32, dropped: u32) -> (quotient: u32)
    requires
        dropped <= 24,
        value < 0x8000_0000,
    ensures
        quotient as nat == rounded_half_even(value as nat, dropped as nat),
{
    let mut step: u32 = 1;
    let mut bit: u32 = 0;
    while bit < dropped
        invariant
            bit <= dropped <= 24,
            step as nat == weight(bit as nat),
            1 <= step <= 0x100_0000,
        decreases dropped - bit,
    {
        proof {
            lemma_weight_grows((bit + 1) as nat, 24);
            lemma_large_weights();
        }
        step = step * 2;
        bit = bit + 1;
    }
    let quotient: u32 = value / step;
    let twice: u32 = 2 * (value % step);
    if twice > step || (twice == step && quotient % 2 == 1) {
        quotient + 1
    } else {
        quotient
    }
}

/// The binary16 pattern nearest to a finite binary32 pattern.
pub fn to_binary16(bits: u32) -> (pattern: u16)
    requires
        f32_finite(bits),
    ensures
        pattern as nat == nearest_binary16(bits),
{
    let magnitude: u32 = bits % 0x8000_0000;
    let exponent: u32 = magnitude / 0x80_0000;
    let fraction: u32 = magnitude % 0x80_0000;
    proof {
        lemma_large_weights();
    }
    let rounded: u32 = if exponent >= 113 {
        (exponent - 113) * 1024 + rounded(fraction + 0x80_0000, 13)
    } else if exponent >= 102 {
        rounded(fraction + 0x80_0000, 126 - exponent)
    } else {
        proof {
            if exponent >= 1 {
                lemma_rounded_to_zero((fraction + 0x80_0000) as nat, (126 - exponent) as nat);
            }
        }
        0
    };
    let limited: u32 = if rounded < 0x7c00 {
        rounded
    } else {
        0x7c00
    };
    (bits / 0x8000_0000 * 0x8000 + limited) as u16
}

proof fn lemma_rounded_to_zero(value: nat, dropped: nat)
    requires
        value < 0x100_0000,
        dropped >= 25,
    ensures
        rounded_half_even(value, dropped) == 0,
{
    lemma_weight_grows(25, dropped);
    lemma_large_weights();
    vstd::arithmetic::div_mod::lemma_basic_div(value as int, weight(dropped) as int);
    vstd::arithmetic::div_mod::lemma_small_mod(value, weight(dropped));
}

proof fn lemma_weight_grows(low: nat, high: nat)
    requires
        low <= high,
    ensures
        weight(low) <= weight(high),
        weight(low) >= 1,
    decreases high,
{
    if low < high {
        lemma_weight_grows(low, (high - 1) as nat);
    } else if low > 0 {
        lemma_weight_grows((low - 1) as nat, (low - 1) as nat);
    }
}

/// The bfloat16 pattern nearest to a finite binary32 pattern.
pub fn to_bfloat16(bits: u32) -> (pattern: u16)
    requires
        f32_finite(bits),
    ensures
        pattern as nat == nearest_bfloat16(bits),
{
    let quotient: u32 = rounded(bits % 0x8000_0000, 16);
    proof {
        lemma_large_weights();
    }
    (bits / 0x8000_0000 * 0x8000 + quotient) as u16
}

/// Whether a stored pattern is neither infinite nor NaN.
pub fn is_pattern_finite(dtype: ActivationDType, pattern: u32) -> (finite: bool)
    ensures
        finite == pattern_finite(dtype, pattern as nat),
{
    match dtype {
        ActivationDType::Float32 => pattern % 0x8000_0000 < 0x7f80_0000,
        ActivationDType::Float16 => pattern % 0x8000 < 0x7c00,
        ActivationDType::BFloat16 => pattern % 0x8000 < 0x7f80,
    }
}

/// Appends the canonical bytes of one source value, or says why it is refused.
pub fn encode_value(dtype: ActivationDType, bits: u32, index: u64, output: &mut Vec<u8>) -> (result:
    Result<(), ActivationCacheError>)
    ensures
        match value_error(dtype, bits, index) {
            Some(error) => result == Err::<(), ActivationCacheError>(error) && final(output)@
                == old(output)@,
            None => result is Ok && final(output)@ == old(output)@ + le(
                stored_pattern(dtype, bits),
                dtype.width(),
            ),
        },
{
    if !f32_is_finite(bits) {
        return Err(ActivationCacheError::NonFiniteValue { index });
    }
    let pattern: u32 = match dtype {
        ActivationDType::Float32 => bits,
        ActivationDType::Float16 => to_binary16(bits) as u32,
        ActivationDType::BFloat16 => to_bfloat16(bits) as u32,
    };
    if !is_pattern_finite(dtype, pattern) {
        return Err(ActivationCacheError::DTypeOverflow { index, dtype });
    }
    push_le(output, pattern as u64, dtype.encoded_width() as usize);
    Ok(())
}

/// The reason to refuse canonical scalar bytes, the first of which has the global index
/// `scalar_start`.
pub open spec fn encoded_error(
    dtype: ActivationDType,
    bytes: Seq<u8>,
    scalar_start: nat,
) -> Option<ActivationCacheError> {
    match first_nonfinite(dtype, bytes, 0) {
        Some(offset) => Some(
            ActivationCacheError::NonFiniteEncodedValue { index: (scalar_start + offset) as u64 },
        ),
        None => None,
    }
}

/// Checks that canonical scalar bytes hold finite values.
pub fn validate_encoded_values(
    dtype: ActivationDType,
    encoded: &[u8],
    scalar_start: u64,
) -> (result: Result<(), ActivationCacheError>)
    requires
        scalar_start + encoded@.len() <= u64::MAX,
    ensures
        match encoded_error(dtype, encoded@, scalar_start as nat) {
            Some(error) => result == Err::<(), ActivationCacheError>(error),
            None => result is Ok,
        },
{
    let width: usize = dtype.encoded_width() as usize;
    let length: usize = encoded.len();
    let mut offset: usize = 0;
    let mut start: usize = 0;
    proof {
        assert(0 * width == 0) by (nonlinear_arith);
    }
    while length - start >= width
        invariant
            width as nat == dtype.width(),
            1 <= width <= 4,
            start as int == offset * width,
            offset <= start <= length == encoded@.len(),
            scalar_start + length <= u64::MAX,
            first_nonfinite(dtype, encoded@, 0) == first_nonfinite(dtype, encoded@, offset as nat),
        decreases length - start,
    {
        let pattern: u64 = read_le(encoded, start, width);
        proof {
            lemma_le_limits();
            assert((offset + 1) * width == offset * width + width) by (nonlinear_arith);
            assert(pattern as nat == pattern_at(dtype, encoded@, offset as nat));
            assert(pattern <= u32::MAX);
        }
        if !is_pattern_finite(dtype, pattern as u32) {
            return Err(
                ActivationCacheError::NonFiniteEncodedValue { index: scalar_start + offset as u64 },
            );
        }
        start = start + width;
        offset = offset + 1;
    }
    proof {
        assert((offset + 1) * width == offset * width + width) by (nonlinear_arith);
    }
    Ok(())
}

/// Whether a mask holds a token, which one past its end does not.
pub open spec fn selected(mask: Seq<bool>, index: int) -> bool {
    0 <= index < mask.len() && mask[index]
}

/// The low `bits` bits of byte `byte` of a packed mask.
pub open spec fn packed_bits(mask: Seq<bool>, byte: nat, bits: nat) -> nat
    decreases bits,
{
    if bits == 0 {
        0
    } else {
        packed_bits(mask, byte, (bits - 1) as nat) + if selected(mask, 8 * byte + bits - 1) {
            weight((bits - 1) as nat)
        } else {
            0
        }
    }
}

/// Bytes of a mask of `tokens` entries.
pub open spec fn mask_bytes(tokens: nat) -> nat {
    (tokens + 7) / 8
}

/// A mask packed eight entries to the byte, the first in the lowest bit, with zero padding.
pub open spec fn packed_mask(mask: Seq<bool>) -> Seq<u8> {
    Seq::new(mask_bytes(mask.len()), |byte: int| packed_bits(mask, byte as nat, 8) as u8)
}

/// Whether a bit of a byte is set.
pub open spec fn bit_set(byte: u8, place: nat) -> bool {
    (byte as nat / weight(place)) % 2 == 1
}

/// The mask of `tokens` entries that packed bytes hold.
pub open spec fn unpacked_mask(bytes: Seq<u8>, tokens: nat) -> Seq<bool> {
    Seq::new(tokens, |index: int| bit_set(bytes[index / 8], (index % 8) as nat))
}

/// Whether packed bytes leave the padding bits of their last byte zero.
pub open spec fn mask_canonical(bytes: Seq<u8>, tokens: nat) -> bool {
    tokens % 8 != 0 ==> (bytes.last() as nat) < weight(tokens % 8)
}

proof fn lemma_weights()
    ensures
        weight(0) == 1,
        weight(1) == 2,
        weight(2) == 4,
        weight(3) == 8,
        weight(4) == 16,
        weight(5) == 32,
        weight(6) == 64,
        weight(7) == 128,
        weight(8) == 256,
{
    reveal_with_fuel(weight, 9);
}

proof fn lemma_packed_bits_bound(mask: Seq<bool>, byte: nat, bits: nat)
    ensures
        packed_bits(mask, byte, bits) < weight(bits),
    decreases bits,
{
    if bits > 0 {
        lemma_packed_bits_bound(mask, byte, (bits - 1) as nat);
    }
}

spec fn digit(set: bool) -> int {
    if set {
        1
    } else {
        0
    }
}

proof fn lemma_packed_sum(mask: Seq<bool>, byte: nat)
    ensures
        packed_bits(mask, byte, 8) == digit(selected(mask, 8 * byte as int)) + 2 * digit(
            selected(mask, 8 * byte as int + 1),
        ) + 4 * digit(selected(mask, 8 * byte as int + 2)) + 8 * digit(selected(mask, 8 * byte as int + 3)) + 16
            * digit(selected(mask, 8 * byte as int + 4)) + 32 * digit(selected(mask, 8 * byte as int + 5)) + 64
            * digit(selected(mask, 8 * byte as int + 6)) + 128 * digit(selected(mask, 8 * byte as int + 7)),
        packed_bits(mask, byte, 8) < 256,
{
    lemma_weights();
    reveal_with_fuel(packed_bits, 9);
}

proof fn lemma_packed_digit(mask: Seq<bool>, byte: nat, place: nat)
    requires
        place < 8,
    ensures
        bit_set(packed_bits(mask, byte, 8) as u8, place) == selected(mask, 8 * byte as int + place as int),
{
    lemma_packed_sum(mask, byte);
    lemma_weights();
    lemma_digit_sum(
        digit(selected(mask, 8 * byte as int)),
        digit(selected(mask, 8 * byte as int + 1)),
        digit(selected(mask, 8 * byte as int + 2)),
        digit(selected(mask, 8 * byte as int + 3)),
        digit(selected(mask, 8 * byte as int + 4)),
        digit(selected(mask, 8 * byte as int + 5)),
        digit(selected(mask, 8 * byte as int + 6)),
        digit(selected(mask, 8 * byte as int + 7)),
    );
    let value = packed_bits(mask, byte, 8) as int;
    assert(value / 1 == value);
}

proof fn lemma_digit_sum(
    d0: int,
    d1: int,
    d2: int,
    d3: int,
    d4: int,
    d5: int,
    d6: int,
    d7: int,
)
    requires
        0 <= d0 <= 1,
        0 <= d1 <= 1,
        0 <= d2 <= 1,
        0 <= d3 <= 1,
        0 <= d4 <= 1,
        0 <= d5 <= 1,
        0 <= d6 <= 1,
        0 <= d7 <= 1,
    ensures
        ({
            let value = d0 + 2 * d1 + 4 * d2 + 8 * d3 + 16 * d4 + 32 * d5 + 64 * d6 + 128 * d7;
            &&& value % 2 == d0
            &&& (value / 2) % 2 == d1
            &&& (value / 4) % 2 == d2
            &&& (value / 8) % 2 == d3
            &&& (value / 16) % 2 == d4
            &&& (value / 32) % 2 == d5
            &&& (value / 64) % 2 == d6
            &&& (value / 128) % 2 == d7
        }),
{
    let v6 = d6 + 2 * d7;
    let v5 = d5 + 2 * v6;
    let v4 = d4 + 2 * v5;
    let v3 = d3 + 2 * v4;
    let v2 = d2 + 2 * v3;
    let v1 = d1 + 2 * v2;
    let value = d0 + 2 * v1;
    assert(value / 2 == v1);
    assert(value / 4 == v2);
    assert(value / 8 == v3);
    assert(value / 16 == v4);
    assert(value / 32 == v5);
    assert(value / 64 == v6);
    assert(value / 128 == d7);
}

proof fn lemma_byte_digits(byte: u8)
    ensures
        byte == digit(bit_set(byte, 0)) + 2 * digit(bit_set(byte, 1)) + 4 * digit(bit_set(byte, 2))
            + 8 * digit(bit_set(byte, 3)) + 16 * digit(bit_set(byte, 4)) + 32 * digit(
            bit_set(byte, 5),
        ) + 64 * digit(bit_set(byte, 6)) + 128 * digit(bit_set(byte, 7)),
{
    lemma_weights();
    let value = byte as int;
    let h1 = value / 2;
    let h2 = value / 4;
    let h3 = value / 8;
    let h4 = value / 16;
    let h5 = value / 32;
    let h6 = value / 64;
    let h7 = value / 128;
    assert(value == 2 * h1 + value % 2);
    assert(h1 == 2 * h2 + h1 % 2);
    assert(h2 == 2 * h3 + h2 % 2);
    assert(h3 == 2 * h4 + h3 % 2);
    assert(h4 == 2 * h5 + h4 % 2);
    assert(h5 == 2 * h6 + h5 % 2);
    assert(h6 == 2 * h7 + h6 % 2);
    assert(h7 == h7 % 2);
    assert(value / 1 == value);
    assert(digit(bit_set(byte, 0)) == value % 2);
    assert(digit(bit_set(byte, 1)) == h1 % 2);
    assert(digit(bit_set(byte, 2)) == h2 % 2);
    assert(digit(bit_set(byte, 3)) == h3 % 2);
    assert(digit(bit_set(byte, 4)) == h4 % 2);
    assert(digit(bit_set(byte, 5)) == h5 % 2);
    assert(digit(bit_set(byte, 6)) == h6 % 2);
    assert(digit(bit_set(byte, 7)) == h7 % 2);
}

proof fn lemma_unpacked_entry(bytes: Seq<u8>, tokens: nat, index: int, place: int)
    requires
        bytes.len() == mask_bytes(tokens),
        mask_canonical(bytes, tokens),
        0 <= index < bytes.len(),
        0 <= place < 8,
    ensures
        selected(unpacked_mask(bytes, tokens), 8 * index + place) == bit_set(
            bytes[index],
            place as nat,
        ),
{
    let value = bytes[index] as int;
    if 8 * index + place < tokens {
        assert((8 * index + place) / 8 == index);
        assert((8 * index + place) % 8 == place);
    } else {
        assert(index == bytes.len() - 1 && tokens % 8 != 0 && place >= tokens % 8);
        lemma_weight_grows(tokens % 8, place as nat);
        vstd::arithmetic::div_mod::lemma_basic_div(value, weight(place as nat) as int);
    }
}

/// Unpacking a packed mask gives the mask back, and its padding is canonical.
pub proof fn mask_round_trip(mask: Seq<bool>)
    ensures
        unpacked_mask(packed_mask(mask), mask.len()) == mask,
        mask_canonical(packed_mask(mask), mask.len()),
{
    let bytes = packed_mask(mask);
    assert forall|index: int| 0 <= index < mask.len() implies unpacked_mask(
        bytes,
        mask.len(),
    )[index] == mask[index] by {
        lemma_packed_digit(mask, (index / 8) as nat, (index % 8) as nat);
    }
    assert(unpacked_mask(bytes, mask.len()) =~= mask);
    if mask.len() % 8 != 0 {
        let last = (mask.len() / 8) as nat;
        let used = mask.len() % 8;
        assert(bytes.len() == last + 1);
        lemma_unused_bits(mask, last, used, 8);
        lemma_packed_bits_bound(mask, last, used);
        lemma_packed_sum(mask, last);
    }
}

proof fn lemma_unused_bits(mask: Seq<bool>, byte: nat, used: nat, bits: nat)
    requires
        used <= bits,
        mask.len() == 8 * byte + used,
    ensures
        packed_bits(mask, byte, bits) == packed_bits(mask, byte, used),
    decreases bits,
{
    if used < bits {
        lemma_unused_bits(mask, byte, used, (bits - 1) as nat);
    }
}

/// Packing what canonical bytes hold gives the bytes back.
pub proof fn mask_is_canonical(bytes: Seq<u8>, tokens: nat)
    requires
        bytes.len() == mask_bytes(tokens),
        mask_canonical(bytes, tokens),
    ensures
        packed_mask(unpacked_mask(bytes, tokens)) == bytes,
{
    let mask = unpacked_mask(bytes, tokens);
    assert forall|index: int| 0 <= index < bytes.len() implies #[trigger] packed_mask(mask)[index]
        == bytes[index] by {
        lemma_packed_sum(mask, index as nat);
        lemma_byte_digits(bytes[index]);
        lemma_unpacked_entry(bytes, tokens, index, 0);
        lemma_unpacked_entry(bytes, tokens, index, 1);
        lemma_unpacked_entry(bytes, tokens, index, 2);
        lemma_unpacked_entry(bytes, tokens, index, 3);
        lemma_unpacked_entry(bytes, tokens, index, 4);
        lemma_unpacked_entry(bytes, tokens, index, 5);
        lemma_unpacked_entry(bytes, tokens, index, 6);
        lemma_unpacked_entry(bytes, tokens, index, 7);
    }
    assert(packed_mask(mask) =~= bytes);
}

/// Packs a mask eight entries to the byte.
pub fn pack_mask(mask: &[bool], start: usize, end: usize) -> (packed: Vec<u8>)
    requires
        start <= end <= mask@.len(),
    ensures
        packed@ == packed_mask(mask@.subrange(start as int, end as int)),
{
    let total: usize = mask.len();
    let ghost part = mask@.subrange(start as int, end as int);
    let mut packed: Vec<u8> = Vec::new();
    let mut next: usize = start;
    while next < end
        invariant
            start <= next <= end <= total == mask@.len(),
            part == mask@.subrange(start as int, end as int),
            next - start == 8 * packed@.len() || (next == end && packed@.len() == mask_bytes(
                part.len(),
            )),
            packed@.len() <= mask_bytes(part.len()),
            forall|byte: int|
                0 <= byte < packed@.len() ==> packed@[byte] == packed_bits(
                    part,
                    byte as nat,
                    8,
                ) as u8,
        decreases end - next,
    {
        let ghost byte_index = packed@.len();
        let left: usize = end - next;
        let mut byte: u16 = 0;
        let mut bit_weight: u16 = 1;
        let mut bit: usize = 0;
        while bit < 8
            invariant
                bit <= 8,
                left == end - next,
                start <= next <= end <= total == mask@.len(),
                part == mask@.subrange(start as int, end as int),
                next - start == 8 * byte_index,
                bit_weight as nat == weight(bit as nat),
                1 <= bit_weight <= 256,
                byte as nat == packed_bits(part, byte_index, bit as nat),
                byte < bit_weight,
            decreases 8 - bit,
        {
            proof {
                lemma_weights();
                lemma_weight_grows((bit + 1) as nat, 8);
            }
            if bit < left && mask[next + bit] {
                assert(part[8 * byte_index + bit as int] == mask@[next + bit]);
                byte = byte + bit_weight;
            } else if bit < left {
                assert(part[8 * byte_index + bit as int] == mask@[next + bit]);
            }
            bit_weight = bit_weight * 2;
            bit = bit + 1;
        }
        packed.push(byte as u8);
        if left < 8 {
            next = end;
        } else {
            next = next + 8;
        }
    }
    assert(packed@ =~= packed_mask(part));
    packed
}

/// Whether a bit of a byte is set.
fn is_bit_set(byte: u8, place: u8) -> (set: bool)
    requires
        place < 8,
    ensures
        set == bit_set(byte, place as nat),
{
    proof {
        lemma_weights();
    }
    let bit_weight: u8 = if place == 0 {
        1
    } else if place == 1 {
        2
    } else if place == 2 {
        4
    } else if place == 3 {
        8
    } else if place == 4 {
        16
    } else if place == 5 {
        32
    } else if place == 6 {
        64
    } else {
        128
    };
    (byte / bit_weight) % 2 == 1
}

/// Unpacks a mask of `tokens` entries.
pub fn unpack_mask(packed: &[u8], tokens: usize) -> (mask: Vec<bool>)
    requires
        packed@.len() == mask_bytes(tokens as nat),
    ensures
        mask@ == unpacked_mask(packed@, tokens as nat),
{
    let mut mask: Vec<bool> = Vec::new();
    let mut index: usize = 0;
    while index < tokens
        invariant
            index <= tokens,
            packed@.len() == mask_bytes(tokens as nat),
            mask@.len() == index,
            forall|k: int|
                0 <= k < index ==> mask@[k] == unpacked_mask(packed@, tokens as nat)[k],
        decreases tokens - index,
    {
        mask.push(is_bit_set(packed[index / 8], (index % 8) as u8));
        index = index + 1;
    }
    assert(mask@ =~= unpacked_mask(packed@, tokens as nat));
    mask
}

/// Checks that packed bytes leave their padding bits zero.
pub fn validate_canonical_mask(packed: &[u8], tokens: u64, shard_index: u32) -> (result: Result<
    (),
    ActivationCacheError,
>)
    requires
        packed@.len() == mask_bytes(tokens as nat),
    ensures
        if mask_canonical(packed@, tokens as nat) {
            result is Ok
        } else {
            result == Err::<(), ActivationCacheError>(
                ActivationCacheError::NonCanonicalMask { index: shard_index },
            )
        },
{
    let used: u8 = (tokens % 8) as u8;
    if used != 0 {
        let last: u8 = packed[packed.len() - 1];
        proof {
            lemma_weights();
        }
        let limit: u8 = if used == 1 {
            2
        } else if used == 2 {
            4
        } else if used == 3 {
            8
        } else if used == 4 {
            16
        } else if used == 5 {
            32
        } else if used == 6 {
            64
        } else {
            128
        };
        if last >= limit {
            return Err(ActivationCacheError::NonCanonicalMask { index: shard_index });
        }
    }
    Ok(())
}

} // verus!
