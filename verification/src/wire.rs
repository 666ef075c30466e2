//! Little-endian integers, byte strings and text as they appear in the canonical encodings.

use vstd::prelude::*;
use vstd::utf8::{decode_utf8, encode_utf8, valid_utf8};

verus! {

/// The `width` low bytes of `value`, least significant first.
pub open spec fn le(value: nat, width: nat) -> Seq<u8>
    decreases width,
{
    if width == 0 {
        Seq::empty()
    } else {
        seq![(value % 256) as u8] + le(value / 256, (width - 1) as nat)
    }
}

/// The number whose little-endian bytes are `bytes`.
pub open spec fn le_value(bytes: Seq<u8>) -> nat
    decreases bytes.len(),
{
    if bytes.len() == 0 {
        0
    } else {
        bytes[0] as nat + 256 * le_value(bytes.drop_first())
    }
}

/// Number of values that `width` bytes can hold.
pub open spec fn le_limit(width: nat) -> nat
    decreases width,
{
    if width == 0 {
        1
    } else {
        256 * le_limit((width - 1) as nat)
    }
}

/// The little-endian number held by `width` bytes of `bytes` from `start` on.
pub open spec fn le_at(bytes: Seq<u8>, start: int, width: int) -> nat {
    le_value(bytes.subrange(start, start + width))
}

pub proof fn lemma_le_limits()
    ensures
        le_limit(1) == 0x100,
        le_limit(2) == 0x1_0000,
        le_limit(4) == 0x1_0000_0000,
        le_limit(8) == 0x1_0000_0000_0000_0000,
{
    reveal_with_fuel(le_limit, 9);
}

/// An encoded number occupies exactly its width.
pub broadcast proof fn lemma_le_len(value: nat, width: nat)
    ensures
        (#[trigger] le(value, width)).len() == width,
    decreases width,
{
    if width > 0 {
        lemma_le_len(value / 256, (width - 1) as nat);
    }
}

/// Reading back an encoded number that fits its width gives the number.
pub proof fn le_round_trip(value: nat, width: nat)
    requires
        value < le_limit(width),
    ensures
        le_value(le(value, width)) == value,
    decreases width,
{
    if width > 0 {
        let rest = le(value / 256, (width - 1) as nat);
        le_round_trip(value / 256, (width - 1) as nat);
        assert(le(value, width).drop_first() =~= rest);
        assert((value % 256) as u8 as nat == value % 256);
    }
}

/// Every byte string is the canonical encoding of the number it holds.
pub proof fn le_is_canonical(bytes: Seq<u8>)
    ensures
        le_value(bytes) < le_limit(bytes.len()),
        le(le_value(bytes), bytes.len()) == bytes,
    decreases bytes.len(),
{
    if bytes.len() > 0 {
        let rest = bytes.drop_first();
        le_is_canonical(rest);
        let value = le_value(bytes);
        assert(value % 256 == bytes[0] as nat);
        assert(value / 256 == le_value(rest));
        assert(le(value, bytes.len()) =~= bytes);
    } else {
        assert(le(0, 0) =~= bytes);
    }
}

/// Appends a number of `width` bytes.
pub fn push_le(out: &mut Vec<u8>, value: u64, width: usize)
    requires
        width <= 8,
    ensures
        final(out)@ == old(out)@ + le(value as nat, width as nat),
{
    let mut rest: u64 = value;
    let mut written: usize = 0;
    assert(out@ + le(rest as nat, width as nat) =~= old(out)@ + le(value as nat, width as nat));
    while written < width
        invariant
            written <= width <= 8,
            out@ + le(rest as nat, (width - written) as nat) == old(out)@ + le(
                value as nat,
                width as nat,
            ),
        decreases width - written,
    {
        let ghost before = out@;
        let byte: u8 = (rest % 256) as u8;
        out.push(byte);
        proof {
            let tail = le((rest / 256) as nat, (width - written - 1) as nat);
            assert(le(rest as nat, (width - written) as nat) =~= seq![byte] + tail);
            assert(out@ + tail =~= before + (seq![byte] + tail));
        }
        rest = rest / 256;
        written = written + 1;
    }
    assert(out@ + le(rest as nat, 0) =~= out@);
}

/// Reads a number of `width` bytes.
pub fn read_le(bytes: &[u8], start: usize, width: usize) -> (value: u64)
    requires
        width <= 8,
        start + width <= bytes@.len(),
    ensures
        value as nat == le_at(bytes@, start as int, width as int),
        (value as nat) < le_limit(width as nat),
{
    let length: usize = bytes.len();
    let mut value: u64 = 0;
    let mut left: usize = width;
    proof {
        assert(bytes@.subrange(start + width, start + width) =~= Seq::<u8>::empty());
        lemma_le_limits();
        reveal_with_fuel(le_limit, 9);
    }
    while left > 0
        invariant
            left <= width <= 8,
            start + width <= length == bytes@.len(),
            value as nat == le_value(bytes@.subrange(start + left, start + width)),
            (value as nat) < le_limit((width - left) as nat),
        decreases left,
    {
        left = left - 1;
        let byte: u8 = bytes[start + left];
        proof {
            let window = bytes@.subrange(start + left, start + width);
            assert(window.drop_first() =~= bytes@.subrange(start + left + 1, start + width));
            assert(window[0] == byte);
            lemma_limit_step((width - left) as nat);
        }
        value = value * 256 + byte as u64;
    }
    value
}

proof fn lemma_limit_step(width: nat)
    requires
        1 <= width <= 8,
    ensures
        le_limit(width) == 256 * le_limit((width - 1) as nat),
        le_limit(width) <= 0x1_0000_0000_0000_0000,
{
    reveal_with_fuel(le_limit, 9);
}

/// Appends a byte string.
pub fn push_bytes(out: &mut Vec<u8>, bytes: &[u8])
    ensures
        final(out)@ == old(out)@ + bytes@,
{
    let ghost before = out@;
    out.extend_from_slice(bytes);
    assert(out@ =~= before + bytes@);
}

/// Whether two byte strings are equal.
pub fn bytes_equal(left: &[u8], right: &[u8]) -> (equal: bool)
    ensures
        equal == (left@ == right@),
{
    if left.len() != right.len() {
        return false;
    }
    let mut index: usize = 0;
    while index < left.len()
        invariant
            index <= left@.len(),
            left@.len() == right@.len(),
            forall|k: int| 0 <= k < index ==> left@[k] == right@[k],
        decreases left@.len() - index,
    {
        if left[index] != right[index] {
            assert(left@[index as int] != right@[index as int]);
            return false;
        }
        index = index + 1;
    }
    assert(left@ =~= right@);
    true
}

/// Whether a byte occurs in a byte string.
pub fn contains_byte(bytes: &[u8], byte: u8) -> (found: bool)
    ensures
        found == bytes@.contains(byte),
{
    let mut index: usize = 0;
    while index < bytes.len()
        invariant
            index <= bytes@.len(),
            forall|k: int| 0 <= k < index ==> bytes@[k] != byte,
        decreases bytes@.len() - index,
    {
        if bytes[index] == byte {
            assert(bytes@[index as int] == byte);
            return true;
        }
        index = index + 1;
    }
    false
}

/// Copies the 32 bytes from `start` on.
pub fn read_32(bytes: &[u8], start: usize) -> (copy: [u8; 32])
    requires
        start + 32 <= bytes@.len(),
    ensures
        copy@ == bytes@.subrange(start as int, start + 32),
{
    let length: usize = bytes.len();
    let mut copy: [u8; 32] = [0u8; 32];
    let mut index: usize = 0;
    while index < 32
        invariant
            index <= 32,
            start + 32 <= length == bytes@.len(),
            forall|k: int| 0 <= k < index ==> copy@[k] == bytes@[start + k],
        decreases 32 - index,
    {
        copy[index] = bytes[start + index];
        index = index + 1;
    }
    assert(copy@ =~= bytes@.subrange(start as int, start + 32));
    copy
}

/// Copies the four bytes from `start` on.
pub fn read_4(bytes: &[u8], start: usize) -> (copy: [u8; 4])
    requires
        start + 4 <= bytes@.len(),
    ensures
        copy@ == bytes@.subrange(start as int, start + 4),
{
    let copy: [u8; 4] = [bytes[start], bytes[start + 1], bytes[start + 2], bytes[start + 3]];
    assert(copy@ =~= bytes@.subrange(start as int, start + 4));
    copy
}

/// The bytes from `start` up to `end`.
pub fn window(bytes: &[u8], start: usize, end: usize) -> (part: &[u8])
    requires
        start <= end <= bytes@.len(),
    ensures
        part@ == bytes@.subrange(start as int, end as int),
{
    vstd::slice::slice_subrange(bytes, start, end)
}

/// A part of a window is a window of its own.
pub proof fn lemma_window(bytes: Seq<u8>, offset: int, whole: Seq<u8>, from: int, to: int)
    requires
        0 <= offset,
        offset + whole.len() <= bytes.len(),
        bytes.subrange(offset, offset + whole.len()) == whole,
        0 <= from <= to <= whole.len(),
    ensures
        bytes.subrange(offset + from, offset + to) == whole.subrange(from, to),
{
    let part = bytes.subrange(offset, offset + whole.len());
    assert(bytes.subrange(offset + from, offset + to) =~= part.subrange(from, to));
}

/// Interprets bytes as text through `core::str::from_utf8`, which succeeds exactly on
/// well-formed UTF-8 and then views the same bytes as a string slice.
#[verifier::external_body]
fn utf8_text(bytes: &[u8]) -> (text: Option<&str>)
    ensures
        text is Some <==> valid_utf8(bytes@),
        text matches Some(slice) ==> slice@ == decode_utf8(bytes@),
{
    core::str::from_utf8(bytes).ok()
}

/// The text that a byte string encodes, if it is well-formed UTF-8.
pub fn read_text(bytes: &[u8]) -> (text: Option<&str>)
    ensures
        text is Some <==> valid_utf8(bytes@),
        text matches Some(slice) ==> slice@ == decode_utf8(bytes@) && encode_utf8(slice@) == bytes@,
{
    proof {
        broadcast use vstd::utf8::decode_utf8_encode_utf8;
    }
    utf8_text(bytes)
}

/// Whether a character has Unicode's `White_Space` property.
pub open spec fn white_space(c: char) -> bool {
    let code = c as u32;
    ||| 0x09 <= code <= 0x0d
    ||| code == 0x20
    ||| code == 0x85
    ||| code == 0xa0
    ||| code == 0x1680
    ||| 0x2000 <= code <= 0x200a
    ||| code == 0x2028
    ||| code == 0x2029
    ||| code == 0x202f
    ||| code == 0x205f
    ||| code == 0x3000
}

/// Whether a text consists of white space alone; the empty text does.
pub open spec fn blank(text: Seq<char>) -> bool {
    forall|k: int| 0 <= k < text.len() ==> white_space(#[trigger] text[k])
}

/// Whether a character has Unicode's `White_Space` property.
pub fn is_white_space(c: char) -> (white: bool)
    ensures
        white == white_space(c),
{
    let code: u32 = c as u32;
    (0x09 <= code && code <= 0x0d) || code == 0x20 || code == 0x85 || code == 0xa0 || code == 0x1680
        || (0x2000 <= code && code <= 0x200a) || code == 0x2028 || code == 0x2029 || code == 0x202f
        || code == 0x205f || code == 0x3000
}

/// Whether a text consists of white space alone.
pub fn is_blank(text: &str) -> (empty: bool)
    ensures
        empty == blank(text@),
{
    let length: usize = text.unicode_len();
    let mut index: usize = 0;
    while index < length
        invariant
            index <= length == text@.len(),
            forall|k: int| 0 <= k < index ==> white_space(#[trigger] text@[k]),
        decreases length - index,
    {
        if !is_white_space(text.get_char(index)) {
            return false;
        }
        index = index + 1;
    }
    true
}

/// A text with its length in bytes before it.
pub open spec fn text_field(text: Seq<char>) -> Seq<u8> {
    le(encode_utf8(text).len(), 4) + encode_utf8(text)
}

/// Appends a text with its length in bytes before it.
pub fn push_text(out: &mut Vec<u8>, text: &str)
    requires
        encode_utf8(text@).len() <= u32::MAX,
    ensures
        final(out)@ == old(out)@ + text_field(text@),
{
    let bytes: &[u8] = text.as_bytes();
    push_le(out, bytes.len() as u64, 4);
    push_bytes(out, bytes);
    assert(out@ =~= old(out)@ + text_field(text@));
}

/// Equal byte strings that start with parts of one length start with the same part.
pub proof fn lemma_same_front(left: Seq<u8>, right: Seq<u8>, after_left: Seq<u8>, after_right: Seq<
    u8,
>)
    requires
        left.len() == right.len(),
        left + after_left == right + after_right,
    ensures
        left == right,
        after_left == after_right,
{
    let whole = left + after_left;
    let other = right + after_right;
    assert(whole.subrange(0, left.len() as int) =~= left);
    assert(other.subrange(0, right.len() as int) =~= right);
    assert(whole.subrange(left.len() as int, whole.len() as int) =~= after_left);
    assert(other.subrange(right.len() as int, other.len() as int) =~= after_right);
}

/// Equal byte strings that start with numbers of one width start with the same number.
pub proof fn lemma_same_number(
    left: nat,
    right: nat,
    width: nat,
    after_left: Seq<u8>,
    after_right: Seq<u8>,
)
    requires
        left < le_limit(width),
        right < le_limit(width),
        le(left, width) + after_left == le(right, width) + after_right,
    ensures
        left == right,
        after_left == after_right,
{
    lemma_le_len(left, width);
    lemma_le_len(right, width);
    lemma_same_front(le(left, width), le(right, width), after_left, after_right);
    le_round_trip(left, width);
    le_round_trip(right, width);
}

/// Equal byte strings that start with texts of known length start with the same text.
pub proof fn lemma_same_text(
    left: Seq<char>,
    right: Seq<char>,
    after_left: Seq<u8>,
    after_right: Seq<u8>,
)
    requires
        encode_utf8(left).len() <= u32::MAX,
        encode_utf8(right).len() <= u32::MAX,
        text_field(left) + after_left == text_field(right) + after_right,
    ensures
        left == right,
        after_left == after_right,
{
    lemma_le_limits();
    let a = encode_utf8(left);
    let b = encode_utf8(right);
    assert(text_field(left) + after_left =~= le(a.len(), 4) + (a + after_left));
    assert(text_field(right) + after_right =~= le(b.len(), 4) + (b + after_right));
    lemma_same_number(a.len(), b.len(), 4, a + after_left, b + after_right);
    lemma_same_front(a, b, after_left, after_right);
    vstd::utf8::encode_utf8_decode_utf8(left);
    vstd::utf8::encode_utf8_decode_utf8(right);
}

/// The lower-case hexadecimal digit of a value below sixteen.
pub open spec fn hex_digit(value: nat) -> char {
    if value < 10 {
        (48 + value) as char
    } else {
        (87 + value) as char
    }
}

/// The two hexadecimal digits of each byte.
pub open spec fn hex(bytes: Seq<u8>) -> Seq<char> {
    Seq::new(
        2 * bytes.len(),
        |k: int|
            hex_digit(
                if k % 2 == 0 {
                    bytes[k / 2] as nat / 16
                } else {
                    bytes[k / 2] as nat % 16
                },
            ),
    )
}

fn hex_byte(value: u8) -> (digit: u8)
    requires
        value < 16,
    ensures
        digit as char == hex_digit(value as nat),
        digit < 128,
{
    if value < 10 {
        48 + value
    } else {
        87 + value
    }
}

/// A tag followed by the hexadecimal digits of some bytes.
pub fn tagged_hex(tag: &str, bytes: &[u8]) -> (text: String)
    requires
        vstd::utf8::is_ascii_chars(tag@),
        2 * bytes@.len() + tag@.len() <= usize::MAX,
    ensures
        text@ == tag@ + hex(bytes@),
{
    let mut digits: Vec<u8> = Vec::new();
    push_bytes(&mut digits, tag.as_bytes());
    let ghost expected = tag@ + hex(bytes@);
    proof {
        vstd::utf8::is_ascii_chars_encode_utf8(tag@);
    }
    let mut index: usize = 0;
    while index < bytes.len()
        invariant
            index <= bytes@.len(),
            expected == tag@ + hex(bytes@),
            2 * bytes@.len() + tag@.len() <= usize::MAX,
            vstd::utf8::is_ascii_chars(tag@),
            digits@.len() == tag@.len() + 2 * index,
            forall|k: int| 0 <= k < digits@.len() ==> #[trigger] digits@[k] < 128,
            forall|k: int| 0 <= k < digits@.len() ==> #[trigger] digits@[k] as char == expected[k],
        decreases bytes@.len() - index,
    {
        let byte: u8 = bytes[index];
        let ghost before = digits@;
        let high: u8 = hex_byte(byte / 16);
        let low: u8 = hex_byte(byte % 16);
        digits.push(high);
        digits.push(low);
        assert(digits@ == before.push(high).push(low));
        proof {
            let base = tag@.len() + 2 * index;
            let at = 2 * index as int;
            assert(at % 2 == 0 && at / 2 == index && (at + 1) % 2 == 1 && (at + 1) / 2 == index);
            assert(expected[base as int] == hex(bytes@)[at]);
            assert(expected[base + 1] == hex(bytes@)[at + 1]);
            assert(digits@[base as int] as char == expected[base as int]);
            assert(digits@[base + 1] as char == expected[base + 1]);
        }
        index = index + 1;
    }
    proof {
        assert forall|k: int| 0 <= k < expected.len() implies 0 <= #[trigger] expected[k] as u32
            <= 127 by {}
        assert(vstd::utf8::is_ascii_chars(expected));
        vstd::utf8::is_ascii_chars_encode_utf8(expected);
        assert(encode_utf8(expected) =~= digits@);
        vstd::utf8::encode_utf8_decode_utf8(expected);
        vstd::utf8::encode_utf8_valid_utf8(expected);
    }
    match read_text(digits.as_slice()) {
        Some(text) => text.to_owned(),
        None => String::new(),
    }
}

} // verus!
