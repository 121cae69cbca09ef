//! Base64 text for byte strings, with the standard alphabet and `=` padding.
//!
//! Three bytes make four six-bit values, each written as one symbol. A last
//! group of one or two bytes is filled up with zero bits and written as two or
//! three symbols, followed by padding to four characters.

use vstd::prelude::*;
use vstd::string::*;
use vstd::utf8::is_ascii_chars;
use crate::util::text::{ascii_bytes, spelled};

verus! {

/// The alphabet: the character at position `v` is the symbol of the six-bit
/// value `v`.
pub const ALPHABET: &'static str = "ABCDEFGHIJKLMNOPQRSTUVWXYZabcdefghijklmnopqrstuvwxyz0123456789+/";

/// The symbol of a six-bit value.
pub open spec fn symbol(value: u8) -> char {
    ALPHABET@[value as int]
}

/// Whether `c` is a symbol of the alphabet.
pub open spec fn is_symbol(c: char) -> bool {
    ALPHABET@.contains(c)
}

/// The six-bit value that a symbol of the alphabet stands for.
pub open spec fn symbol_value(c: char) -> u8 {
    ALPHABET@.index_of(c) as u8
}

/// The byte at `i`, and zero past the end of `bytes`.
pub open spec fn byte_at(bytes: Seq<u8>, i: int) -> u8 {
    if 0 <= i < bytes.len() {
        bytes[i]
    } else {
        0
    }
}

/// The six-bit value at position `i` of the text for `bytes`: the value at
/// position `k` of a group takes the low `2k` bits of the group's byte `k - 1`
/// and the high `6 - 2k` bits of its byte `k`.
pub open spec fn sextet(bytes: Seq<u8>, i: int) -> u8 {
    let group = i / 4 * 3;
    let first = byte_at(bytes, group);
    let second = byte_at(bytes, group + 1);
    let third = byte_at(bytes, group + 2);
    if i % 4 == 0 {
        first / 4
    } else if i % 4 == 1 {
        (first % 4 * 16 + second / 16) as u8
    } else if i % 4 == 2 {
        (second % 16 * 4 + third / 64) as u8
    } else {
        third % 64
    }
}

/// The character at position `i` of the text for `bytes`: a symbol where the
/// six-bit value holds bits of a byte, and padding behind the last of them.
pub open spec fn encoded_char(bytes: Seq<u8>, i: int) -> char {
    if i / 4 * 3 + i % 4 <= bytes.len() {
        symbol(sextet(bytes, i))
    } else {
        '='
    }
}

/// The text that stands for `bytes`: four characters for every three bytes
/// begun.
pub open spec fn encoded(bytes: Seq<u8>) -> Seq<char> {
    Seq::new((bytes.len() + 2) / 3 * 4, |i: int| encoded_char(bytes, i))
}

/// The number of padding characters at the end of `text`, two at most.
pub open spec fn padding(text: Seq<char>) -> nat {
    if text.len() >= 1 && text[text.len() - 1] == '=' {
        if text.len() >= 2 && text[text.len() - 2] == '=' {
            2
        } else {
            1
        }
    } else {
        0
    }
}

/// Whether `text` is the text of some byte string: whole groups of four
/// characters, symbols up to the padding, and zero bits where the last symbol
/// reaches beyond the last byte.
pub open spec fn well_formed(text: Seq<char>) -> bool {
    &&& text.len() % 4 == 0
    &&& forall|i: int| 0 <= i < text.len() - padding(text) ==> is_symbol(#[trigger] text[i])
    &&& padding(text) == 1 ==> symbol_value(text[text.len() - 2]) % 4 == 0
    &&& padding(text) == 2 ==> symbol_value(text[text.len() - 3]) % 16 == 0
}

/// The byte at position `j` of the bytes that `text` stands for: byte `k` of a
/// group takes the low `6 - 2k` bits of the group's value `k` and the high
/// `2k + 2` bits of its value `k + 1`.
pub open spec fn decoded_byte(text: Seq<char>, j: int) -> u8 {
    let at = j / 3 * 4 + j % 3;
    let high = symbol_value(text[at]);
    let low = symbol_value(text[at + 1]);
    if j % 3 == 0 {
        (high % 64 * 4 + low / 16) as u8
    } else if j % 3 == 1 {
        (high % 16 * 16 + low / 4) as u8
    } else {
        (high % 4 * 64 + low) as u8
    }
}

/// The bytes that `text` stands for, if it is well formed: three bytes for
/// every four characters, less one for each padding character.
pub open spec fn decoded(text: Seq<char>) -> Option<Seq<u8>> {
    if well_formed(text) {
        Some(
            Seq::new(
                (text.len() / 4 * 3 - padding(text)) as nat,
                |j: int| decoded_byte(text, j),
            ),
        )
    } else {
        None
    }
}

/// The position of `c` in the alphabet, worked out from the runs of
/// consecutive characters that the alphabet is made of.
spec fn position(c: char) -> Option<int> {
    if 'A' <= c <= 'Z' {
        Some(c as int - 65)
    } else if 'a' <= c <= 'z' {
        Some(c as int - 71)
    } else if '0' <= c <= '9' {
        Some(c as int + 4)
    } else if c == '+' {
        Some(62)
    } else if c == '/' {
        Some(63)
    } else {
        None
    }
}

/// What the alphabet holds, read off its literal.
proof fn lemma_alphabet()
    ensures
        ALPHABET@.len() == 64,
        is_ascii_chars(ALPHABET@),
        forall|v: int| 0 <= v < 64 ==> position(#[trigger] ALPHABET@[v]) == Some(v),
        forall|c: char| #[trigger] is_symbol(c) <==> position(c) is Some,
        forall|c: char| is_symbol(c) ==> #[trigger] symbol_value(c) as int == position(c)->0,
{
    reveal_strlit("ABCDEFGHIJKLMNOPQRSTUVWXYZabcdefghijklmnopqrstuvwxyz0123456789+/");
    assert forall|c: char| position(c) is Some implies #[trigger] is_symbol(c) by {
        assert(ALPHABET@[position(c)->0] == c);
    }
}

/// Each six-bit value has a symbol, the symbol stands for that value, and
/// none is the padding character.
pub proof fn lemma_symbol_value(value: u8)
    requires
        value < 64,
    ensures
        is_symbol(symbol(value)),
        symbol_value(symbol(value)) == value,
        symbol(value) != '=',
{
    lemma_alphabet();
}

/// Where the text for `bytes` holds a symbol, it is the symbol of the
/// six-bit value at that position.
proof fn lemma_encoded_symbol(bytes: Seq<u8>, i: int)
    requires
        0 <= i < encoded(bytes).len(),
        i / 4 * 3 + i % 4 <= bytes.len(),
    ensures
        is_symbol(encoded(bytes)[i]),
        symbol_value(encoded(bytes)[i]) == sextet(bytes, i),
        encoded(bytes)[i] != '=',
{
    lemma_symbol_value(sextet(bytes, i));
}

/// The text for `bytes` ends in as many padding characters as the last group
/// lacks bytes.
proof fn lemma_encoded_padding(bytes: Seq<u8>)
    ensures
        padding(encoded(bytes)) == (3 - bytes.len() % 3) % 3,
{
    let text = encoded(bytes);
    let last = text.len() - 1;
    if bytes.len() % 3 == 0 {
        if bytes.len() > 0 {
            lemma_encoded_symbol(bytes, last);
        }
    } else if bytes.len() % 3 == 1 {
        assert(text[last] == '=');
        assert(text[last - 1] == '=');
    } else {
        assert(text[last] == '=');
        lemma_encoded_symbol(bytes, last - 1);
    }
}

/// The text for `bytes` is well formed.
proof fn lemma_encoded_well_formed(bytes: Seq<u8>)
    ensures
        well_formed(encoded(bytes)),
{
    let text = encoded(bytes);
    lemma_encoded_padding(bytes);
    assert forall|i: int| 0 <= i < text.len() - padding(text) implies is_symbol(
        #[trigger] text[i],
    ) by {
        lemma_encoded_symbol(bytes, i);
    }
    if padding(text) == 1 {
        lemma_encoded_symbol(bytes, text.len() - 2);
    }
    if padding(text) == 2 {
        lemma_encoded_symbol(bytes, text.len() - 3);
    }
}

/// The two six-bit values that hold the bits of a byte give that byte back.
proof fn lemma_encoded_byte(bytes: Seq<u8>, j: int)
    requires
        0 <= j < bytes.len(),
    ensures
        decoded_byte(encoded(bytes), j) == bytes[j],
{
    let at = j / 3 * 4 + j % 3;
    assert(at / 4 == j / 3 && at % 4 == j % 3);
    assert((at + 1) / 4 == j / 3 && (at + 1) % 4 == j % 3 + 1);
    lemma_encoded_symbol(bytes, at);
    lemma_encoded_symbol(bytes, at + 1);
}

/// Decoding undoes encoding: the text of a byte string is well formed and
/// stands for that byte string.
pub proof fn lemma_decode_encode(bytes: Seq<u8>)
    ensures
        decoded(encoded(bytes)) == Some(bytes),
{
    let text = encoded(bytes);
    lemma_encoded_well_formed(bytes);
    lemma_encoded_padding(bytes);
    let found = decoded(text)->0;
    assert(found.len() == bytes.len());
    assert forall|j: int| 0 <= j < bytes.len() implies found[j] == bytes[j] by {
        lemma_encoded_byte(bytes, j);
    }
    assert(found =~= bytes);
}

/// Each symbol stands for a six-bit value, and is the symbol of that value.
pub proof fn lemma_value_symbol(c: char)
    requires
        is_symbol(c),
    ensures
        symbol_value(c) < 64,
        symbol(symbol_value(c)) == c,
{
    lemma_alphabet();
}

/// Up to the padding, the bytes that a well-formed text stands for have that
/// text's six-bit values.
proof fn lemma_decoded_sextet(text: Seq<char>, i: int)
    requires
        well_formed(text),
        0 <= i < text.len() - padding(text),
    ensures
        i / 4 * 3 + i % 4 <= decoded(text)->0.len(),
        sextet(decoded(text)->0, i) == symbol_value(text[i]),
{
    let at = i - i % 4;
    assert(is_symbol(text[at]));
    assert(is_symbol(text[at + 1]));
    lemma_value_symbol(text[at]);
    lemma_value_symbol(text[at + 1]);
    if at + 2 < text.len() - padding(text) {
        assert(is_symbol(text[at + 2]));
        lemma_value_symbol(text[at + 2]);
    }
    if at + 3 < text.len() - padding(text) {
        assert(is_symbol(text[at + 3]));
        lemma_value_symbol(text[at + 3]);
    }
}

/// Encoding undoes decoding: a well-formed text is the only text of the byte
/// string it stands for.
pub proof fn lemma_encode_decode(text: Seq<char>)
    requires
        well_formed(text),
    ensures
        decoded(text) matches Some(bytes) && encoded(bytes) == text,
{
    let bytes = decoded(text)->0;
    let again = encoded(bytes);
    assert(again.len() == text.len());
    assert forall|i: int| 0 <= i < text.len() implies again[i] == text[i] by {
        if i < text.len() - padding(text) {
            lemma_decoded_sextet(text, i);
            assert(is_symbol(text[i]));
            lemma_value_symbol(text[i]);
        }
    }
    assert(again =~= text);
}

/// A text with a character that is not ASCII is not well formed.
proof fn lemma_not_ascii(text: Seq<char>)
    requires
        !is_ascii_chars(text),
    ensures
        !well_formed(text),
{
    if well_formed(text) {
        lemma_alphabet();
        assert forall|i: int| 0 <= i < text.len() implies '\0' <= #[trigger] text[i]
            <= '\u{7f}' by {
            if i < text.len() - padding(text) {
                assert(is_symbol(text[i]));
            }
        }
    }
}

/// Appends the symbol of a six-bit value to `text`.
fn push_symbol(text: &mut String, value: u8)
    requires
        value < 64,
    ensures
        final(text)@ == old(text)@.push(symbol(value)),
{
    proof {
        lemma_alphabet();
    }
    let at = value as usize;
    text.append(ALPHABET.substring_ascii(at, at + 1));
}

/// Appends one padding character to `text`.
fn push_padding(text: &mut String)
    ensures
        final(text)@ == old(text)@.push('='),
{
    proof {
        reveal_strlit("=");
    }
    text.append("=");
}

/// The six-bit value that an ASCII byte stands for, if it is a symbol of the
/// alphabet.
fn value_of(byte: u8) -> (value: Option<u8>)
    ensures
        value is Some <==> is_symbol(byte as char),
        value matches Some(v) ==> v == symbol_value(byte as char) && v < 64,
{
    proof {
        lemma_alphabet();
    }
    if byte >= 'A' as u8 && byte <= 'Z' as u8 {
        Some(byte - 'A' as u8)
    } else if byte >= 'a' as u8 && byte <= 'z' as u8 {
        Some(byte - 'a' as u8 + 26)
    } else if byte >= '0' as u8 && byte <= '9' as u8 {
        Some(byte - '0' as u8 + 52)
    } else if byte == '+' as u8 {
        Some(62)
    } else if byte == '/' as u8 {
        Some(63)
    } else {
        None
    }
}

/// Writes `bytes` as Base64 text.
pub fn encode(bytes: &[u8]) -> (text: String)
    ensures
        text@ == encoded(bytes@),
{
    let mut text = String::new();
    let mut at: usize = 0;
    while bytes.len() - at >= 3
        invariant
            at <= bytes.len(),
            at % 3 == 0,
            text@ == encoded(bytes@).take(at / 3 * 4),
        decreases bytes.len() - at,
    {
        let first = bytes[at];
        let second = bytes[at + 1];
        let third = bytes[at + 2];
        push_symbol(&mut text, first / 4);
        push_symbol(&mut text, first % 4 * 16 + second / 16);
        push_symbol(&mut text, second % 16 * 4 + third / 64);
        push_symbol(&mut text, third % 64);
        at += 3;
    }
    if bytes.len() - at == 1 {
        let first = bytes[at];
        push_symbol(&mut text, first / 4);
        push_symbol(&mut text, first % 4 * 16);
        push_padding(&mut text);
        push_padding(&mut text);
    } else if bytes.len() - at == 2 {
        let first = bytes[at];
        let second = bytes[at + 1];
        push_symbol(&mut text, first / 4);
        push_symbol(&mut text, first % 4 * 16 + second / 16);
        push_symbol(&mut text, second % 16 * 4);
        push_padding(&mut text);
    }
    text
}

/// Reads Base64 text; `None` if `text` is not well formed.
pub fn decode(text: &str) -> (bytes: Option<Vec<u8>>)
    ensures
        match bytes {
            Some(found) => decoded(text@) == Some(found@),
            None => decoded(text@) is None,
        },
{
    let chars = match ascii_bytes(text) {
        Some(chars) => chars,
        None => {
            proof {
                lemma_not_ascii(text@);
            }
            return None;
        },
    };
    let len = chars.len();
    if len % 4 != 0 {
        return None;
    }
    let pad: usize = if len > 0 && chars[len - 1] == '=' as u8 {
        if chars[len - 2] == '=' as u8 {
            2
        } else {
            1
        }
    } else {
        0
    };
    assert(pad == padding(text@));
    let mut values: Vec<u8> = Vec::new();
    let mut i: usize = 0;
    while i < len - pad
        invariant
            i <= len - pad,
            pad <= len == chars.len(),
            pad == padding(text@),
            spelled(chars@) == text@,
            values.len() == i,
            forall|k: int| 0 <= k < i ==> is_symbol(#[trigger] text@[k]),
            forall|k: int|
                0 <= k < i ==> #[trigger] values[k] == symbol_value(text@[k]) && values[k] < 64,
        decreases len - pad - i,
    {
        match value_of(chars[i]) {
            Some(value) => {
                values.push(value);
            },
            None => {
                assert(!is_symbol(text@[i as int]));
                return None;
            },
        }
        i += 1;
    }
    if pad == 1 && values[len - 2] % 4 != 0 {
        return None;
    }
    if pad == 2 && values[len - 3] % 16 != 0 {
        return None;
    }
    assert(well_formed(text@));
    let count = len / 4 * 3 - pad;
    let mut bytes: Vec<u8> = Vec::new();
    let mut j: usize = 0;
    while j < count
        invariant
            j <= count,
            count == len / 4 * 3 - pad,
            len % 4 == 0,
            pad <= 2,
            pad <= len == text@.len(),
            values.len() == len - pad,
            forall|k: int|
                0 <= k < len - pad ==> #[trigger] values[k] == symbol_value(text@[k]) && values[k]
                    < 64,
            bytes.len() == j,
            forall|k: int| 0 <= k < j ==> bytes[k] == decoded_byte(text@, k),
        decreases count - j,
    {
        let at = j / 3 * 4 + j % 3;
        let high = values[at];
        let low = values[at + 1];
        let byte = if j % 3 == 0 {
            high * 4 + low / 16
        } else if j % 3 == 1 {
            high % 16 * 16 + low / 4
        } else {
            high % 4 * 64 + low
        };
        bytes.push(byte);
        j += 1;
    }
    assert(bytes@ =~= decoded(text@)->0);
    Some(bytes)
}

} // verus!
