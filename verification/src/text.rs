//! Comparison, order and decimal numbers of text.

use crate::wire::bytes_equal;
use vstd::prelude::*;
use vstd::utf8::encode_utf8;

verus! {

/// Lexicographic order of byte strings.
pub open spec fn bytes_before(left: Seq<u8>, right: Seq<u8>) -> bool
    decreases right.len(),
{
    if right.len() == 0 {
        false
    } else if left.len() == 0 {
        true
    } else if left[0] != right[0] {
        left[0] < right[0]
    } else {
        bytes_before(left.drop_first(), right.drop_first())
    }
}

/// The order of text: that of its UTF-8 bytes.
pub open spec fn text_before(left: Seq<char>, right: Seq<char>) -> bool {
    bytes_before(encode_utf8(left), encode_utf8(right))
}

/// No byte string precedes itself, and of two different ones exactly one precedes the other.
pub proof fn bytes_order_is_total(left: Seq<u8>, right: Seq<u8>)
    ensures
        left == right ==> !bytes_before(left, right),
        left != right ==> bytes_before(left, right) != bytes_before(right, left),
    decreases right.len(),
{
    if left.len() > 0 && right.len() > 0 && left[0] == right[0] {
        bytes_order_is_total(left.drop_first(), right.drop_first());
        if left.drop_first() == right.drop_first() {
            assert(left =~= seq![left[0]] + left.drop_first());
            assert(right =~= seq![right[0]] + right.drop_first());
        }
    } else if left.len() == 0 && right.len() == 0 {
        assert(left =~= right);
    }
}

/// The order of byte strings is transitive.
pub proof fn bytes_order_is_transitive(first: Seq<u8>, second: Seq<u8>, third: Seq<u8>)
    requires
        bytes_before(first, second),
        bytes_before(second, third),
    ensures
        bytes_before(first, third),
    decreases third.len(),
{
    if first.len() > 0 && first[0] == second[0] && second[0] == third[0] {
        bytes_order_is_transitive(first.drop_first(), second.drop_first(), third.drop_first());
    }
}

/// Texts are equal exactly when their bytes are.
pub proof fn lemma_same_bytes(left: Seq<char>, right: Seq<char>)
    ensures
        encode_utf8(left) == encode_utf8(right) <==> left == right,
{
    vstd::utf8::encode_utf8_decode_utf8(left);
    vstd::utf8::encode_utf8_decode_utf8(right);
}

/// No text precedes itself, and of two different ones exactly one precedes the other.
pub proof fn text_order_is_total(left: Seq<char>, right: Seq<char>)
    ensures
        left == right ==> !text_before(left, right),
        left != right ==> text_before(left, right) != text_before(right, left),
{
    lemma_same_bytes(left, right);
    bytes_order_is_total(encode_utf8(left), encode_utf8(right));
}

/// The order of text is transitive.
pub proof fn text_order_is_transitive(first: Seq<char>, second: Seq<char>, third: Seq<char>)
    requires
        text_before(first, second),
        text_before(second, third),
    ensures
        text_before(first, third),
{
    bytes_order_is_transitive(encode_utf8(first), encode_utf8(second), encode_utf8(third));
}

/// Whether two texts are equal.
pub fn same_text(left: &str, right: &str) -> (same: bool)
    ensures
        same == (left@ == right@),
{
    proof {
        lemma_same_bytes(left@, right@);
    }
    bytes_equal(left.as_bytes(), right.as_bytes())
}

/// Whether a text precedes another.
pub fn text_less(left: &str, right: &str) -> (less: bool)
    ensures
        less == text_before(left@, right@),
{
    let first: &[u8] = left.as_bytes();
    let second: &[u8] = right.as_bytes();
    let mut index: usize = 0;
    assert(first@.skip(0) =~= first@);
    assert(second@.skip(0) =~= second@);
    while index < first.len() && index < second.len()
        invariant
            index <= first@.len(),
            index <= second@.len(),
            bytes_before(first@, second@) == bytes_before(
                first@.skip(index as int),
                second@.skip(index as int),
            ),
            first@ == encode_utf8(left@),
            second@ == encode_utf8(right@),
        decreases first@.len() - index,
    {
        proof {
            let a = first@.skip(index as int);
            let b = second@.skip(index as int);
            assert(a[0] == first@[index as int] && b[0] == second@[index as int]);
            assert(a.drop_first() =~= first@.skip(index + 1));
            assert(b.drop_first() =~= second@.skip(index + 1));
        }
        if first[index] != second[index] {
            return first[index] < second[index];
        }
        index = index + 1;
    }
    index < second.len()
}

/// Whether a text begins with another.
pub open spec fn begins_with(text: Seq<char>, prefix: Seq<char>) -> bool {
    prefix.len() <= text.len() && text.take(prefix.len() as int) == prefix
}

/// The remainder of a text that begins with another.
pub fn text_after<'a>(text: &'a str, prefix: &str) -> (rest: Option<&'a str>)
    ensures
        match rest {
            Some(after) => begins_with(text@, prefix@) && after@ == text@.skip(
                prefix@.len() as int,
            ),
            None => !begins_with(text@, prefix@),
        },
{
    let length: usize = text.unicode_len();
    let size: usize = prefix.unicode_len();
    if size > length || !same_text(text.substring_char(0, size), prefix) {
        return None;
    }
    Some(text.substring_char(size, length))
}

/// Where a character first occurs in a text from a position on; the length if nowhere.
pub open spec fn first_at(text: Seq<char>, wanted: char, from: int) -> int
    decreases text.len() - from,
{
    if from < 0 || from >= text.len() || text[from] == wanted {
        from
    } else {
        first_at(text, wanted, from + 1)
    }
}

/// Splits a text at the first occurrence of a character.
pub fn split_first(text: &str, wanted: char) -> (parts: Option<(&str, &str)>)
    ensures
        match parts {
            Some((before, after)) => {
                let at = first_at(text@, wanted, 0);
                &&& 0 <= at < text@.len()
                &&& before@ == text@.take(at)
                &&& after@ == text@.skip(at + 1)
            },
            None => first_at(text@, wanted, 0) >= text@.len(),
        },
{
    let length: usize = text.unicode_len();
    let mut index: usize = 0;
    while index < length
        invariant
            index <= length == text@.len(),
            first_at(text@, wanted, 0) == first_at(text@, wanted, index as int),
        decreases length - index,
    {
        if text.get_char(index) == wanted {
            return Some(
                (text.substring_char(0, index), text.substring_char(index + 1, length)),
            );
        }
        index = index + 1;
    }
    None
}

/// Whether a character is a decimal digit.
pub open spec fn is_digit(c: char) -> bool {
    '0' <= c <= '9'
}

/// The number that decimal digits write.
pub open spec fn decimal_value(digits: Seq<char>) -> nat
    decreases digits.len(),
{
    if digits.len() == 0 {
        0
    } else {
        10 * decimal_value(digits.drop_last()) + (digits.last() as u32 - '0' as u32) as nat
    }
}

/// A text without the plus sign that it may begin with.
pub open spec fn unsigned_part(text: Seq<char>) -> Seq<char> {
    if text.len() > 0 && text[0] == '+' {
        text.skip(1)
    } else {
        text
    }
}

/// The number of at most 255 that a text writes in decimal, with or without a plus sign.
pub open spec fn small_number(text: Seq<char>) -> Option<u8> {
    let digits = unsigned_part(text);
    if digits.len() > 0 && (forall|k: int| 0 <= k < digits.len() ==> is_digit(#[trigger] digits[k]))
        && decimal_value(digits) <= 255 {
        Some(decimal_value(digits) as u8)
    } else {
        None
    }
}

/// More digits never write a smaller number.
proof fn lemma_decimal_grows(digits: Seq<char>, size: int)
    requires
        0 <= size <= digits.len(),
        forall|k: int| 0 <= k < digits.len() ==> is_digit(#[trigger] digits[k]),
    ensures
        decimal_value(digits.take(size)) <= decimal_value(digits),
    decreases digits.len(),
{
    if size < digits.len() {
        let shorter = digits.drop_last();
        lemma_decimal_grows(shorter, size);
        assert(shorter.take(size) =~= digits.take(size));
    } else {
        assert(digits.take(size) =~= digits);
    }
}

/// Reads a decimal number of at most 255.
pub fn parse_small(text: &str) -> (number: Option<u8>)
    ensures
        number == small_number(text@),
{
    let length: usize = text.unicode_len();
    let start: usize = if length > 0 && text.get_char(0) == '+' {
        1
    } else {
        0
    };
    let ghost digits = unsigned_part(text@);
    assert(digits =~= text@.skip(start as int));
    if start == length {
        return None;
    }
    let mut value: u16 = 0;
    let mut index: usize = start;
    assert(digits.take(0) =~= Seq::<char>::empty());
    while index < length
        invariant
            start <= index <= length == text@.len(),
            start < length,
            digits == unsigned_part(text@),
            digits == text@.skip(start as int),
            forall|k: int| 0 <= k < index - start ==> is_digit(#[trigger] digits[k]),
            value == decimal_value(digits.take(index - start)),
            value <= 255,
        decreases length - index,
    {
        let c: char = text.get_char(index);
        assert(c == digits[index - start]);
        if !('0' <= c && c <= '9') {
            assert(!is_digit(digits[index - start]));
            return None;
        }
        let digit: u16 = (c as u32 - '0' as u32) as u16;
        proof {
            let longer = digits.take(index - start + 1);
            assert(longer.drop_last() =~= digits.take(index - start));
            assert(longer.last() == c);
        }
        value = value * 10 + digit;
        index = index + 1;
        if value > 255 {
            proof {
                if forall|k: int| 0 <= k < digits.len() ==> is_digit(#[trigger] digits[k]) {
                    lemma_decimal_grows(digits, index - start);
                }
            }
            return None;
        }
    }
    assert(digits.take(index - start) =~= digits);
    Some(value as u8)
}

/// The decimal digit of a value below ten.
pub open spec fn decimal_digit(value: nat) -> u8 {
    (48 + value) as u8
}

/// The decimal digits of a number, without leading zeros.
pub open spec fn decimal(value: nat) -> Seq<u8>
    decreases value,
{
    if value < 10 {
        seq![decimal_digit(value)]
    } else {
        decimal(value / 10).push(decimal_digit(value % 10))
    }
}

/// Appends the decimal digits of a number.
pub fn push_decimal(out: &mut Vec<u8>, value: u64)
    ensures
        final(out)@ == old(out)@ + decimal(value as nat),
{
    let mut rest: u64 = value;
    let mut reversed: Vec<u8> = Vec::new();
    let ghost whole = decimal(value as nat);
    assert(decimal(rest as nat) + reversed@.reverse() =~= whole);
    while rest >= 10
        invariant
            decimal(rest as nat) + reversed@.reverse() == whole,
        decreases rest,
    {
        let digit: u8 = 48 + (rest % 10) as u8;
        let ghost before = reversed@.reverse();
        reversed.push(digit);
        proof {
            assert(reversed@.reverse() =~= seq![digit] + before);
            assert(decimal(rest as nat) == decimal((rest / 10) as nat).push(digit));
            assert(decimal((rest / 10) as nat) + (seq![digit] + before) =~= decimal(
                (rest / 10) as nat,
            ).push(digit) + before);
        }
        rest = rest / 10;
    }
    reversed.push(48 + rest as u8);
    assert(reversed@.reverse() =~= whole) by {
        let last = 48 + rest as u8;
        assert(reversed@.last() == last);
        assert(reversed@.reverse() =~= seq![last as u8] + reversed@.drop_last().reverse());
    }
    let ghost start = out@;
    while reversed.len() > 0
        invariant
            out@ + reversed@.reverse() == start + whole,
        decreases reversed@.len(),
    {
        let ghost before = reversed@;
        let ghost written = out@;
        match reversed.pop() {
            Some(digit) => {
                out.push(digit);
                proof {
                    assert(before.reverse() =~= seq![digit] + reversed@.reverse());
                    assert(out@ + reversed@.reverse() =~= written + before.reverse());
                }
            },
            None => {},
        }
    }
    assert(out@ + reversed@.reverse() =~= out@);
}

} // verus!
