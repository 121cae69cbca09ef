//! Text seen as bytes.

use vstd::prelude::*;
use vstd::string::*;
use vstd::utf8::{encode_utf8, encode_utf8_decode_utf8, is_ascii_chars};

verus! {

/// The characters that a sequence of ASCII bytes spells.
pub open spec fn spelled(bytes: Seq<u8>) -> Seq<char> {
    bytes.map_values(|byte: u8| byte as char)
}

/// The bytes of `text`, one for each character, if every character is ASCII.
pub fn ascii_bytes<'a>(text: &'a str) -> (bytes: Option<&'a [u8]>)
    ensures
        bytes is Some <==> is_ascii_chars(text@),
        bytes matches Some(found) ==> spelled(found@) == text@,
{
    if text.is_ascii() {
        let found = text.as_bytes();
        proof {
            is_ascii_spec_bytes(text);
            assert forall|i: int| 0 <= i < text@.len() implies spelled(found@)[i] == text@[i] by {
                let c = text@[i];
                assert('\0' <= c <= '\u{7f}');
                assert(found@[i] == c as u8);
            }
            assert(spelled(found@) =~= text@);
        }
        Some(found)
    } else {
        None
    }
}

/// Whether two texts hold the same characters.
pub fn same_text(left: &str, right: &str) -> (same: bool)
    ensures
        same <==> left@ == right@,
{
    let left_bytes = left.as_bytes();
    let right_bytes = right.as_bytes();
    proof {
        // Texts with the same UTF-8 bytes are the same text.
        encode_utf8_decode_utf8(left@);
        encode_utf8_decode_utf8(right@);
    }
    if left_bytes.len() != right_bytes.len() {
        return false;
    }
    let mut i: usize = 0;
    while i < left_bytes.len()
        invariant
            i <= left_bytes.len() == right_bytes.len(),
            left_bytes@ == encode_utf8(left@),
            right_bytes@ == encode_utf8(right@),
            forall|k: int| 0 <= k < i ==> left_bytes@[k] == right_bytes@[k],
        decreases left_bytes.len() - i,
    {
        if left_bytes[i] != right_bytes[i] {
            return false;
        }
        i += 1;
    }
    proof {
        assert(left_bytes@ =~= right_bytes@);
    }
    true
}

} // verus!
