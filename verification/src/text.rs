//! Building `String` values from decoded bytes.
//!
//! Decoded `string` parameters and all rendered output are built as byte
//! vectors first; this module turns those bytes into `String`s, with the
//! UTF-8 correspondence stated over `vstd::utf8`'s encoding functions.

use vstd::prelude::*;
use crate::errors::DecodeError;

verus! {

/// The characters that a sequence of ASCII bytes spells.
pub open spec fn ascii_chars_of(b: Seq<u8>) -> Seq<char> {
    Seq::new(b.len(), |i: int| b[i] as char)
}

/// True when every byte of the sequence is ASCII.
pub open spec fn all_ascii(b: Seq<u8>) -> bool {
    forall|i: int| 0 <= i < b.len() ==> b[i] < 128
}

/// Relies on `String::from_utf8`: it returns `Ok` exactly when the bytes
/// are valid UTF-8, and the resulting string holds exactly those bytes.
#[verifier::external_body]
fn from_utf8_vec(v: Vec<u8>) -> (r: Option<String>)
    ensures
        r is Some <==> vstd::utf8::valid_utf8(v@),
        r is Some ==> r->Some_0@ == vstd::utf8::decode_utf8(v@),
{
    String::from_utf8(v).ok()
}

/// ASCII bytes are valid UTF-8 and decode byte-for-byte to their characters.
pub proof fn lemma_ascii_bytes_decode(b: Seq<u8>)
    requires
        all_ascii(b),
    ensures
        vstd::utf8::valid_utf8(b),
        vstd::utf8::decode_utf8(b) == ascii_chars_of(b),
{
    let chars = ascii_chars_of(b);
    assert forall|i: int| 0 <= i < chars.len() implies '\0' <= #[trigger] chars[i]
        <= '\u{7f}' by {
        assert(chars[i] == b[i] as char);
        assert((b[i] as char) as u32 == b[i] as u32);
    }
    assert(vstd::utf8::is_ascii_chars(chars));
    vstd::utf8::is_ascii_chars_encode_utf8(chars);
    assert forall|i: int| 0 <= i < chars.len() implies vstd::utf8::encode_utf8(chars)[i]
        == b[i] by {
        assert(chars[i] as u8 == vstd::utf8::encode_utf8(chars)[i]);
        assert((b[i] as char) as u32 == b[i] as u32);
    }
    assert(vstd::utf8::encode_utf8(chars) =~= b);
    vstd::utf8::encode_utf8_valid_utf8(chars);
    vstd::utf8::encode_utf8_decode_utf8(chars);
}

/// Turns a vector of ASCII bytes into the string they spell.
pub fn ascii_string(v: Vec<u8>) -> (r: String)
    requires
        all_ascii(v@),
    ensures
        r@ == ascii_chars_of(v@),
{
    proof {
        lemma_ascii_bytes_decode(v@);
    }
    let r = from_utf8_vec(v);
    r.unwrap()
}

/// Turns decoded `string`-parameter bytes into text, or reports that they
/// are not UTF-8.
pub fn utf8_string(v: Vec<u8>) -> (r: Result<String, DecodeError>)
    ensures
        r is Ok <==> vstd::utf8::valid_utf8(v@),
        r is Ok ==> r->Ok_0@ == vstd::utf8::decode_utf8(v@),
        r is Err ==> r->Err_0 == DecodeError::InvalidUtf8,
{
    match from_utf8_vec(v) {
        Some(s) => Ok(s),
        None => Err(DecodeError::InvalidUtf8),
    }
}

} // verus!
