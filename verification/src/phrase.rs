//! Diagnostic text put together from words, numbers and digests.

use crate::text::{decimal, push_decimal};
use crate::wire::{hex, read_text, tagged_hex};
use vstd::prelude::*;
use vstd::string::*;
use vstd::utf8::encode_utf8;

verus! {

/// A number in decimal.
pub open spec fn number_text(value: nat) -> Seq<char> {
    decimal(value).map_values(|digit: u8| digit as char)
}

/// Bytes in hexadecimal, separated by commas and in square brackets.
pub open spec fn listed_bytes(bytes: Seq<u8>) -> Seq<char>
    decreases bytes.len(),
{
    if bytes.len() == 0 {
        Seq::empty()
    } else if bytes.len() == 1 {
        hex(bytes)
    } else {
        listed_bytes(bytes.drop_last()) + ", "@ + hex(seq![bytes.last()])
    }
}

/// Decimal digits are digits.
proof fn lemma_decimal_digits(value: nat)
    ensures
        decimal(value).len() > 0,
        forall|k: int| 0 <= k < decimal(value).len() ==> 48 <= #[trigger] decimal(value)[k] <= 57,
    decreases value,
{
    if value >= 10 {
        lemma_decimal_digits(value / 10);
    }
}

/// A number in decimal.
fn number_string(value: u64) -> (text: String)
    ensures
        text@ == number_text(value as nat),
{
    let mut digits: Vec<u8> = Vec::new();
    push_decimal(&mut digits, value);
    let ghost expected = number_text(value as nat);
    proof {
        lemma_decimal_digits(value as nat);
        assert(digits@ =~= decimal(value as nat));
        assert forall|k: int| 0 <= k < expected.len() implies 0 <= #[trigger] expected[k] as u32
            <= 127 by {
            assert(48 <= decimal(value as nat)[k] <= 57);
        }
        assert(vstd::utf8::is_ascii_chars(expected));
        vstd::utf8::is_ascii_chars_encode_utf8(expected);
        assert(encode_utf8(expected) =~= digits@);
        vstd::utf8::encode_utf8_decode_utf8(expected);
        vstd::utf8::encode_utf8_valid_utf8(expected);
    }
    match read_text(digits.as_slice()) {
        Some(text) => text.to_owned(),
        None => String::new(),
    }
}

/// A text under construction.
#[derive(Debug)]
pub struct Phrase {
    text: String,
}

impl View for Phrase {
    type V = Seq<char>;

    closed spec fn view(&self) -> Seq<char> {
        self.text@
    }
}

impl Phrase {
    /// A text that begins with some words.
    pub fn new(words: &str) -> (phrase: Self)
        ensures
            phrase@ == words@,
    {
        Phrase { text: words.to_owned() }
    }

    /// Adds words.
    pub fn words(self, words: &str) -> (phrase: Self)
        ensures
            phrase@ == self@ + words@,
    {
        let mut text: String = self.text;
        text.append(words);
        Phrase { text }
    }

    /// Adds a number in decimal.
    pub fn number(self, value: u64) -> (phrase: Self)
        ensures
            phrase@ == self@ + number_text(value as nat),
    {
        let mut text: String = self.text;
        let digits: String = number_string(value);
        text.append(digits.as_str());
        Phrase { text }
    }

    /// Adds a digest in hexadecimal.
    pub fn digest(self, bytes: &[u8; 32]) -> (phrase: Self)
        ensures
            phrase@ == self@ + hex(bytes@),
    {
        let mut text: String = self.text;
        proof {
            reveal_strlit("");
        }
        let digits: String = tagged_hex("", bytes.as_slice());
        assert(""@ + hex(bytes@) =~= hex(bytes@));
        text.append(digits.as_str());
        Phrase { text }
    }

    /// Adds bytes in hexadecimal, separated by commas.
    pub fn bytes(self, bytes: &[u8]) -> (phrase: Self)
        ensures
            phrase@ == self@ + listed_bytes(bytes@),
    {
        let mut text: String = self.text;
        let ghost start = text@;
        proof {
            reveal_strlit("");
        }
        let mut index: usize = 0;
        assert(text@ =~= start + listed_bytes(bytes@.take(0)));
        while index < bytes.len()
            invariant
                index <= bytes@.len(),
                text@ == start + listed_bytes(bytes@.take(index as int)),
                ""@.len() == 0,
                vstd::utf8::is_ascii_chars(""@),
            decreases bytes@.len() - index,
        {
            let ghost before = text@;
            if index != 0 {
                text.append(", ");
            }
            let one: [u8; 1] = [bytes[index]];
            let digits: String = tagged_hex("", one.as_slice());
            text.append(digits.as_str());
            proof {
                let part = bytes@.take(index as int);
                let longer = bytes@.take(index + 1);
                assert(longer.drop_last() =~= part);
                assert(one@ =~= seq![longer.last()]);
                assert(""@ + hex(one@) =~= hex(one@));
                if index == 0 {
                    assert(longer =~= one@);
                    assert(text@ =~= start + listed_bytes(longer));
                } else {
                    assert(text@ =~= start + listed_bytes(longer));
                }
            }
            index = index + 1;
        }
        assert(bytes@.take(index as int) =~= bytes@);
        Phrase { text }
    }

    /// The finished text.
    pub fn finish(self) -> (text: String)
        ensures
            text@ == self@,
    {
        self.text
    }
}

} // verus!
