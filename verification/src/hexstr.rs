//! Hex text handling: the calldata pipeline takes its input as a hex
//! string, optionally `0x`-prefixed, case-insensitive, and renders byte
//! values back as lowercase hex.

use vstd::prelude::*;
use crate::errors::DecodeError;
use crate::text::ascii_chars_of;
use crate::text::all_ascii;
use crate::text::ascii_string;
use crate::text::utf8_string;

verus! {

/// True when the character is an ASCII hex digit (`0-9`, `a-f`, `A-F`).
/// ASCII codes: `'0'` = 48, `'9'` = 57, `'A'` = 65, `'F'` = 70,
/// `'a'` = 97, `'f'` = 102.
pub open spec fn is_hex_digit(c: char) -> bool {
    '\0' <= c && c <= '\u{7f}' && {
        let b = c as u8;
        (48 <= b && b <= 57) || (97 <= b && b <= 102) || (65 <= b && b <= 70)
    }
}

/// The numeric value of a hex digit.
pub open spec fn hex_digit_val(c: char) -> u8
    recommends
        is_hex_digit(c),
{
    let b = c as u8;
    if 48 <= b && b <= 57 {
        (b - 48) as u8
    } else if 97 <= b && b <= 102 {
        (b - 87) as u8
    } else {
        (b - 55) as u8
    }
}

/// True when the text is a well-formed hex encoding: an even number of
/// characters, each a hex digit.
pub open spec fn is_hex_str(s: Seq<char>) -> bool {
    s.len() % 2 == 0 && forall|i: int| 0 <= i < s.len() ==> is_hex_digit(#[trigger] s[i])
}

/// The bytes that a well-formed hex text encodes, two digits per byte.
pub open spec fn bytes_of_hex(s: Seq<char>) -> Seq<u8>
    recommends
        is_hex_str(s),
{
    Seq::new(s.len() / 2, |i: int| (hex_digit_val(s[2 * i]) * 16 + hex_digit_val(s[2 * i + 1])) as u8)
}

/// The lowercase hex digit for a value below 16.
pub open spec fn hex_char_of(d: u8) -> char
    recommends
        d < 16,
{
    if d < 10 {
        ((d + 48) as u8) as char
    } else {
        ((d + 87) as u8) as char
    }
}

/// The lowercase hex rendering of a byte sequence, two digits per byte.
pub open spec fn hex_of_bytes(b: Seq<u8>) -> Seq<char> {
    Seq::new(2 * b.len(), |i: int|
        if i % 2 == 0 {
            hex_char_of(b[i / 2] / 16)
        } else {
            hex_char_of(b[i / 2] % 16)
        })
}

/// The text with one leading `0x`, if present, removed.
pub open spec fn strip_0x(s: Seq<char>) -> Seq<char> {
    if s.len() >= 2 && s[0] == '0' && s[1] == 'x' {
        s.subrange(2, s.len() as int)
    } else {
        s
    }
}

/// Removes one leading `0x` prefix, if present.
pub fn remove_0x_prefix(s: &str) -> (r: &str)
    ensures
        r@ == strip_0x(s@),
{
    let n = s.unicode_len();
    if n >= 2 {
        let c0 = s.get_char(0);
        let c1 = s.get_char(1);
        if c0 == '0' && c1 == 'x' {
            return s.substring_char(2, n);
        }
    }
    s
}

/// The numeric value of one hex-digit byte, or `None` where the byte is
/// no hex digit.
fn hex_val_of_byte(b: u8) -> (r: Option<u8>)
    ensures
        match r {
            Some(v) => (48 <= b && b <= 57 && v == b - 48) || (97 <= b && b <= 102 && v == b
                - 87) || (65 <= b && b <= 70 && v == b - 55),
            None => !(48 <= b && b <= 57) && !(97 <= b && b <= 102) && !(65 <= b && b <= 70),
        },
{
    if 48 <= b && b <= 57 {
        Some(b - 48)
    } else if 97 <= b && b <= 102 {
        Some(b - 87)
    } else if 65 <= b && b <= 70 {
        Some(b - 55)
    } else {
        None
    }
}

/// Decodes hex text (without prefix) into its bytes. Succeeds exactly on
/// well-formed hex: an even number of characters, each a hex digit.
pub fn hex_decode(s: &str) -> (r: Result<Vec<u8>, DecodeError>)
    ensures
        r is Ok <==> is_hex_str(s@),
        r is Ok ==> r->Ok_0@ == bytes_of_hex(s@),
        r is Err ==> r->Err_0 == DecodeError::InvalidHexEncoding,
{
    if !s.is_ascii() {
        proof {
            assert(!is_hex_str(s@)) by {
                if is_hex_str(s@) {
                    assert forall|i: int| 0 <= i < s@.len() implies '\0' <= #[trigger] s@[i]
                        <= '\u{7f}' by {
                        assert(is_hex_digit(s@[i]));
                    }
                    assert(vstd::utf8::is_ascii_chars(s@));
                }
            }
        }
        return Err(DecodeError::InvalidHexEncoding);
    }
    let bytes = s.as_bytes();
    proof {
        vstd::string::is_ascii_spec_bytes(s);
    }
    let n = bytes.len();
    if n % 2 != 0 {
        return Err(DecodeError::InvalidHexEncoding);
    }
    let mut out: Vec<u8> = Vec::new();
    let mut i: usize = 0;
    while i < n
        invariant
            vstd::string::is_ascii(s),
            bytes@.len() == s@.len(),
            forall|k: int| 0 <= k < s@.len() ==> bytes@[k] == #[trigger] s@[k] as u8,
            n == s@.len(),
            n % 2 == 0,
            i % 2 == 0,
            i <= n,
            forall|k: int| 0 <= k < i ==> is_hex_digit(#[trigger] s@[k]),
            out@.len() == i / 2,
            forall|k: int| 0 <= k < i / 2 ==> out@[k] == (hex_digit_val(s@[2 * k]) * 16
                + hex_digit_val(s@[2 * k + 1])) as u8,
        decreases n - i,
    {
        let hi = match hex_val_of_byte(bytes[i]) {
            Some(v) => v,
            None => {
                proof {
                    assert(!is_hex_digit(s@[i as int]));
                }
                return Err(DecodeError::InvalidHexEncoding);
            },
        };
        let lo = match hex_val_of_byte(bytes[i + 1]) {
            Some(v) => v,
            None => {
                proof {
                    assert(!is_hex_digit(s@[i as int + 1]));
                }
                return Err(DecodeError::InvalidHexEncoding);
            },
        };
        proof {
            assert(is_hex_digit(s@[i as int]));
            assert(is_hex_digit(s@[i as int + 1]));
            assert(hi == hex_digit_val(s@[i as int]));
            assert(lo == hex_digit_val(s@[i as int + 1]));
        }
        out.push(hi * 16 + lo);
        i = i + 2;
    }
    proof {
        assert(out@ =~= bytes_of_hex(s@));
    }
    Ok(out)
}

/// Renders bytes as lowercase hex text, two digits per byte.
pub fn hex_encode(b: &[u8]) -> (r: String)
    requires
        b@.len() <= usize::MAX / 2,
    ensures
        r@ == hex_of_bytes(b@),
{
    let mut out: Vec<u8> = Vec::new();
    let n = b.len();
    let mut i: usize = 0;
    while i < n
        invariant
            i <= n,
            n == b@.len(),
            n <= usize::MAX / 2,
            out@.len() == 2 * i,
            all_ascii(out@),
            forall|k: int| 0 <= k < out@.len() ==> out@[k] as char == #[trigger] hex_of_bytes(
                b@)[k],
        decreases n - i,
    {
        let hi = b[i] / 16;
        let lo = b[i] % 16;
        let hb: u8 = if hi < 10 {
            hi + 48
        } else {
            hi + 87
        };
        let lb: u8 = if lo < 10 {
            lo + 48
        } else {
            lo + 87
        };
        out.push(hb);
        out.push(lb);
        proof {
            assert(out@[2 * i as int] as char == hex_of_bytes(b@)[2 * i as int]);
            assert(out@[2 * i as int + 1] as char == hex_of_bytes(b@)[2 * i as int + 1]);
        }
        i = i + 1;
    }
    let r = ascii_string(out);
    proof {
        assert(r@ =~= hex_of_bytes(b@));
    }
    r
}

/// Decodes a hex text into bytes and interprets those bytes as UTF-8
/// text. Fails on odd-length or non-hex input, and on bytes that are not
/// UTF-8.
pub fn hex_to_utf8(hex: &str) -> (r: Result<String, DecodeError>)
    ensures
        r is Ok <==> is_hex_str(hex@) && vstd::utf8::valid_utf8(bytes_of_hex(hex@)),
        r is Ok ==> r->Ok_0@ == vstd::utf8::decode_utf8(bytes_of_hex(hex@)),
        r is Err ==> (r->Err_0 == DecodeError::InvalidHexEncoding <==> !is_hex_str(hex@)),
        r is Err ==> (r->Err_0 == DecodeError::InvalidUtf8 <==> is_hex_str(hex@)),
{
    let bytes = hex_decode(hex)?;
    utf8_string(bytes)
}

} // verus!
