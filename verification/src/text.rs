//! Texts and the bytes that encode them.

use vstd::prelude::*;
use vstd::utf8::{
    decode_utf8, encode_utf8, encode_utf8_decode_utf8, encode_utf8_valid_utf8, is_char_boundary,
    valid_utf8,
};

verus! {

/// `String::from_utf8` of the standard library, on a copy of `bytes`.
///
/// Trusted: the call succeeds exactly on well-formed UTF-8, and the string it
/// makes holds the bytes it was given.
#[verifier::external_body]
fn string_from_utf8(bytes: &[u8]) -> (r: Option<String>)
    ensures
        r is Some <==> valid_utf8(bytes@),
        r matches Some(s) ==> encode_utf8(s@) == bytes@,
{
    String::from_utf8(bytes.to_vec()).ok()
}

/// The text that `bytes` encode, if they are valid UTF-8.
pub(crate) fn text_from(bytes: &[u8]) -> (r: Option<String>)
    ensures
        r is Some <==> valid_utf8(bytes@),
        r matches Some(s) ==> s@ == decode_utf8(bytes@) && encode_utf8(s@) == bytes@,
{
    let r = string_from_utf8(bytes);
    proof {
        if r is Some {
            encode_utf8_decode_utf8(r->0@);
        }
    }
    r
}

/// The text of `line` behind its first byte, which is an ASCII character.
pub(crate) fn text_after_tag(line: &String) -> (r: String)
    requires
        encode_utf8(line@).len() > 0,
        encode_utf8(line@)[0] < 0x80,
    ensures
        r@ == decode_utf8(encode_utf8(line@).drop_first()),
        encode_utf8(r@) == encode_utf8(line@).drop_first(),
{
    let s: &str = line.as_str();
    proof {
        let bytes = encode_utf8(line@);
        encode_utf8_valid_utf8(line@);
        reveal_with_fuel(valid_utf8, 2);
        reveal_with_fuel(is_char_boundary, 2);
        assert(is_char_boundary(bytes, 1));
    }
    let parts: (&str, &str) = s.split_at(1);
    let r: String = parts.1.to_owned();
    proof {
        encode_utf8_decode_utf8(r@);
        assert(encode_utf8(line@).drop_first() =~= encode_utf8(line@).subrange(
            1,
            encode_utf8(line@).len() as int,
        ));
    }
    r
}

} // verus!
