//! What numbers and bytes look like when they are written.

use crate::phrase::number_text;
use crate::text::{bytes_before, decimal_value};
use crate::wire::{hex, hex_digit, le, le_value};
use vstd::arithmetic::power::pow;
use vstd::prelude::*;

verus! {

/// Byte `k` of an encoded number is its digit of weight `256` to the power of `k`, and the bytes
/// are worth the number where it fits.
pub proof fn bytes_are_digits_by_weight(value: nat, width: nat, k: nat)
    requires
        k < width,
    ensures
        le(value, width).len() == width,
        pow(256, k) > 0,
        le(value, width)[k as int] == value as int / pow(256, k) % 256,
    decreases width,
{
    reveal(pow);
    crate::wire::lemma_le_len(value, width);
    vstd::arithmetic::power::lemma_pow_positive(256, k);
    if k > 0 {
        let less = (k - 1) as nat;
        bytes_are_digits_by_weight(value / 256, (width - 1) as nat, less);
        crate::wire::lemma_le_len(value / 256, (width - 1) as nat);
        vstd::arithmetic::power::lemma_pow_positive(256, less);
        vstd::arithmetic::div_mod::lemma_div_denominator(value as int, 256, pow(256, less));
        assert(pow(256, k) == 256 * pow(256, less));
    }
}

/// What stands at a place of a byte string is worth its weight.
pub proof fn values_add_up_by_weight(bytes: Seq<u8>)
    ensures
        bytes.len() > 0 ==> le_value(bytes) == le_value(bytes.drop_last()) + bytes.last() * pow(
            256,
            (bytes.len() - 1) as nat,
        ),
        bytes.len() == 0 ==> le_value(bytes) == 0,
    decreases bytes.len(),
{
    reveal(pow);
    if bytes.len() == 1 {
        assert(bytes.drop_first() =~= Seq::<u8>::empty());
        assert(bytes.drop_last() =~= Seq::<u8>::empty());
        assert(bytes.last() * 1 == bytes[0]);
    } else if bytes.len() > 1 {
        let rest = bytes.drop_first();
        values_add_up_by_weight(rest);
        assert(rest.drop_last() =~= bytes.drop_last().drop_first());
        assert(rest.last() == bytes.last());
        let weight = pow(256, (rest.len() - 1) as nat);
        assert(pow(256, (bytes.len() - 1) as nat) == 256 * weight);
        assert(256 * (bytes.last() * weight) == bytes.last() * (256 * weight)) by (nonlinear_arith);
    }
}

/// The value of a hexadecimal digit.
pub open spec fn hex_value(digit: char) -> int {
    if '0' <= digit <= '9' {
        digit as int - '0' as int
    } else {
        digit as int - 'a' as int + 10
    }
}

/// Each byte is written as two lower-case hexadecimal digits, the higher one first.
pub proof fn bytes_read_back_from_hex(bytes: Seq<u8>, k: int)
    requires
        0 <= k < bytes.len(),
    ensures
        hex(bytes).len() == 2 * bytes.len(),
        16 * hex_value(hex(bytes)[2 * k]) + hex_value(hex(bytes)[2 * k + 1]) == bytes[k],
        '0' <= hex(bytes)[2 * k] <= '9' || 'a' <= hex(bytes)[2 * k] <= 'f',
        '0' <= hex(bytes)[2 * k + 1] <= '9' || 'a' <= hex(bytes)[2 * k + 1] <= 'f',
{
    assert((2 * k) % 2 == 0 && (2 * k) / 2 == k && (2 * k + 1) % 2 == 1 && (2 * k + 1) / 2 == k);
    let high = bytes[k] as nat / 16;
    let low = bytes[k] as nat % 16;
    assert(hex(bytes)[2 * k] == hex_digit(high));
    assert(hex(bytes)[2 * k + 1] == hex_digit(low));
}

/// A number's decimal text reads back as the number and has no leading zero.
pub proof fn numbers_read_back_from_decimal(value: nat)
    ensures
        decimal_value(number_text(value)) == value,
        number_text(value).len() > 0,
        value > 0 ==> number_text(value)[0] != '0',
        value == 0 ==> number_text(value).len() == 1,
        forall|k: int|
            0 <= k < number_text(value).len() ==> '0' <= #[trigger] number_text(value)[k] <= '9',
    decreases value,
{
    let text = number_text(value);
    if value < 10 {
        assert(text =~= seq![(48 + value) as u8 as char]);
        assert(text.drop_last() =~= Seq::<char>::empty());
        assert(decimal_value(text.drop_last()) == 0);
        assert(text.last() as u32 == 48 + value);
    } else {
        numbers_read_back_from_decimal(value / 10);
        let before = number_text(value / 10);
        assert(text =~= before.push((48 + value % 10) as u8 as char));
        assert(text.drop_last() =~= before);
        assert(text.last() as u32 == 48 + value % 10);
        assert(text[0] == before[0]);
        assert forall|k: int| 0 <= k < text.len() implies '0' <= #[trigger] text[k] <= '9' by {
            if k < before.len() {
                assert(text[k] == before[k]);
            }
        }
    }
}

/// Of two byte strings the one with the smaller byte at the first difference comes first, and a
/// proper prefix comes before what continues it.
pub proof fn the_first_difference_decides(left: Seq<u8>, right: Seq<u8>, at: int)
    requires
        0 <= at <= left.len(),
        at < right.len(),
        left.take(at) == right.take(at),
        at < left.len() ==> left[at] != right[at],
    ensures
        bytes_before(left, right) <==> at == left.len() || left[at] < right[at],
    decreases at,
{
    if at > 0 {
        assert(left[0] == left.take(at)[0] && right[0] == right.take(at)[0]);
        let a = left.drop_first();
        let b = right.drop_first();
        assert(a.take(at - 1) =~= left.take(at).drop_first());
        assert(b.take(at - 1) =~= right.take(at).drop_first());
        if at < left.len() {
            assert(a[at - 1] == left[at] && b[at - 1] == right[at]);
        }
        the_first_difference_decides(a, b, at - 1);
    }
}

} // verus!
