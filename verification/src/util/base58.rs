//! Base58 text for byte strings, with the Bitcoin alphabet.
//!
//! A byte string is read as a number in base 256, most significant byte first,
//! and written in base 58; each leading zero byte becomes one leading `1`, the
//! symbol of the digit zero.

use vstd::prelude::*;
use vstd::string::*;
use vstd::utf8::is_ascii_chars;
use crate::util::text::{ascii_bytes, spelled};
use crate::util::radix::{
    digits_below,
    lemma_rebased_twice,
    rebase,
    rebased,
};

verus! {

/// The alphabet: the character at position `d` is the symbol of the digit `d`.
/// It leaves out `0`, `I`, `O` and `l`.
pub const ALPHABET: &'static str = "123456789ABCDEFGHJKLMNPQRSTUVWXYZabcdefghijkmnopqrstuvwxyz";

/// The symbol of a digit.
pub open spec fn symbol(digit: u8) -> char {
    ALPHABET@[digit as int]
}

/// Whether `c` is a symbol of the alphabet.
pub open spec fn is_symbol(c: char) -> bool {
    ALPHABET@.contains(c)
}

/// The digit that a symbol of the alphabet stands for.
pub open spec fn symbol_value(c: char) -> u8 {
    ALPHABET@.index_of(c) as u8
}

/// Whether `text` is made of symbols of the alphabet only.
pub open spec fn well_formed(text: Seq<char>) -> bool {
    forall|i: int| 0 <= i < text.len() ==> is_symbol(#[trigger] text[i])
}

/// The text that stands for `bytes`.
pub open spec fn encoded(bytes: Seq<u8>) -> Seq<char> {
    rebased(bytes, 256, 58).map_values(|digit: u8| symbol(digit))
}

/// The bytes that `text` stands for, if it is well formed.
pub open spec fn decoded(text: Seq<char>) -> Option<Seq<u8>> {
    if well_formed(text) {
        Some(rebased(text.map_values(|c: char| symbol_value(c)), 58, 256))
    } else {
        None
    }
}

/// The position of `c` in the alphabet, worked out from the runs of
/// consecutive characters that the alphabet is made of.
spec fn position(c: char) -> Option<int> {
    if '1' <= c <= '9' {
        Some(c as int - 49)
    } else if 'A' <= c <= 'H' {
        Some(c as int - 56)
    } else if 'J' <= c <= 'N' {
        Some(c as int - 57)
    } else if 'P' <= c <= 'Z' {
        Some(c as int - 58)
    } else if 'a' <= c <= 'k' {
        Some(c as int - 64)
    } else if 'm' <= c <= 'z' {
        Some(c as int - 65)
    } else {
        None
    }
}

/// What the alphabet holds, read off its literal.
proof fn lemma_alphabet()
    ensures
        ALPHABET@.len() == 58,
        is_ascii_chars(ALPHABET@),
        forall|d: int| 0 <= d < 58 ==> position(#[trigger] ALPHABET@[d]) == Some(d),
        forall|c: char| #[trigger] is_symbol(c) <==> position(c) is Some,
        forall|c: char| is_symbol(c) ==> #[trigger] symbol_value(c) as int == position(c)->0,
{
    reveal_strlit("123456789ABCDEFGHJKLMNPQRSTUVWXYZabcdefghijkmnopqrstuvwxyz");
    assert forall|c: char| position(c) is Some implies #[trigger] is_symbol(c) by {
        assert(ALPHABET@[position(c)->0] == c);
    }
}

/// Each digit has a symbol, and the symbol stands for that digit.
pub proof fn lemma_symbol_value(digit: u8)
    requires
        digit < 58,
    ensures
        is_symbol(symbol(digit)),
        symbol_value(symbol(digit)) == digit,
{
    lemma_alphabet();
}

/// Each symbol stands for a digit, and is the symbol of that digit.
pub proof fn lemma_value_symbol(c: char)
    requires
        is_symbol(c),
    ensures
        symbol_value(c) < 58,
        symbol(symbol_value(c)) == c,
{
    lemma_alphabet();
}

/// Decoding undoes encoding: the text of a byte string is well formed and
/// stands for that byte string.
pub proof fn lemma_decode_encode(bytes: Seq<u8>)
    ensures
        decoded(encoded(bytes)) == Some(bytes),
{
    let digits = rebased(bytes, 256, 58);
    let text = encoded(bytes);
    lemma_rebased_twice(bytes, 256, 58);
    assert forall|i: int| 0 <= i < text.len() implies is_symbol(#[trigger] text[i])
        && symbol_value(text[i]) == digits[i] by {
        lemma_symbol_value(digits[i]);
    }
    assert(text.map_values(|c: char| symbol_value(c)) =~= digits);
}

/// Encoding undoes decoding: a well-formed text is the only text of the byte
/// string it stands for.
pub proof fn lemma_encode_decode(text: Seq<char>)
    requires
        well_formed(text),
    ensures
        decoded(text) matches Some(bytes) && encoded(bytes) == text,
{
    let digits = text.map_values(|c: char| symbol_value(c));
    assert forall|i: int| 0 <= i < digits.len() implies (#[trigger] digits[i] as nat) < 58
        && symbol(digits[i]) == text[i] by {
        assert(is_symbol(text[i]));
        lemma_value_symbol(text[i]);
    }
    lemma_rebased_twice(digits, 58, 256);
    assert(digits.map_values(|digit: u8| symbol(digit)) =~= text);
}

/// A text with a character that is not ASCII is not well formed.
proof fn lemma_not_ascii(text: Seq<char>)
    requires
        !is_ascii_chars(text),
    ensures
        !well_formed(text),
{
    if well_formed(text) {
        lemma_alphabet();
        assert forall|i: int| 0 <= i < text.len() implies '\0' <= #[trigger] text[i]
            <= '\u{7f}' by {
            assert(is_symbol(text[i]));
        }
    }
}

/// Appends the symbol of a digit to `text`.
fn push_symbol(text: &mut String, digit: u8)
    requires
        digit < 58,
    ensures
        final(text)@ == old(text)@.push(symbol(digit)),
{
    proof {
        lemma_alphabet();
    }
    let at = digit as usize;
    text.append(ALPHABET.substring_ascii(at, at + 1));
}

/// The digit that an ASCII byte stands for, if it is a symbol of the alphabet.
fn digit_of(byte: u8) -> (digit: Option<u8>)
    ensures
        digit is Some <==> is_symbol(byte as char),
        digit matches Some(d) ==> d == symbol_value(byte as char) && d < 58,
{
    proof {
        lemma_alphabet();
    }
    if byte >= '1' as u8 && byte <= '9' as u8 {
        Some(byte - '1' as u8)
    } else if byte >= 'A' as u8 && byte <= 'H' as u8 {
        Some(byte - 'A' as u8 + 9)
    } else if byte >= 'J' as u8 && byte <= 'N' as u8 {
        Some(byte - 'J' as u8 + 17)
    } else if byte >= 'P' as u8 && byte <= 'Z' as u8 {
        Some(byte - 'P' as u8 + 22)
    } else if byte >= 'a' as u8 && byte <= 'k' as u8 {
        Some(byte - 'a' as u8 + 33)
    } else if byte >= 'm' as u8 && byte <= 'z' as u8 {
        Some(byte - 'm' as u8 + 44)
    } else {
        None
    }
}

/// Writes `bytes` as Base58 text.
pub fn encode(bytes: &[u8]) -> (text: String)
    ensures
        text@ == encoded(bytes@),
{
    let digits = rebase(bytes, 256, 58);
    let mut text = String::new();
    let mut i: usize = 0;
    while i < digits.len()
        invariant
            i <= digits.len(),
            digits_below(digits@, 58),
            text@ == digits@.take(i as int).map_values(|digit: u8| symbol(digit)),
        decreases digits.len() - i,
    {
        push_symbol(&mut text, digits[i]);
        i += 1;
    }
    proof {
        assert(digits@.take(i as int) =~= digits@);
    }
    text
}

/// Reads Base58 text; `None` if a character of `text` is no symbol of the
/// alphabet.
pub fn decode(text: &str) -> (bytes: Option<Vec<u8>>)
    ensures
        match bytes {
            Some(found) => decoded(text@) == Some(found@),
            None => decoded(text@) is None,
        },
{
    let chars = match ascii_bytes(text) {
        Some(chars) => chars,
        None => {
            proof {
                lemma_not_ascii(text@);
            }
            return None;
        },
    };
    let mut digits: Vec<u8> = Vec::new();
    let mut i: usize = 0;
    while i < chars.len()
        invariant
            i <= chars.len(),
            spelled(chars@) == text@,
            well_formed(text@.take(i as int)),
            digits_below(digits@, 58),
            digits@ == text@.take(i as int).map_values(|c: char| symbol_value(c)),
        decreases chars.len() - i,
    {
        match digit_of(chars[i]) {
            Some(digit) => {
                digits.push(digit);
            },
            None => {
                assert(!is_symbol(text@[i as int]));
                return None;
            },
        }
        i += 1;
    }
    proof {
        assert(text@.take(i as int) =~= text@);
    }
    Some(rebase(digits.as_slice(), 58, 256))
}

} // verus!
