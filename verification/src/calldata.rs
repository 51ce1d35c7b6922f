//! The parameter walker: ABI-encoded calldata is a 4-byte selector
//! followed by one 32-byte head word per declared parameter. Static
//! types live in their head word; dynamic types store there a byte
//! offset, relative to the start of the parameter block, to their
//! length-prefixed tail.

use vstd::prelude::*;
use vstd::slice::slice_subrange;
use vstd::slice::slice_to_vec;
use vstd::utf8::valid_utf8;
use vstd::utf8::decode_utf8;
use crate::errors::DecodeError;
use crate::numeric::be_val;
use crate::numeric::be_val_u64;
use crate::numeric::dec_chars_of;
use crate::numeric::biguint_decimal_of_be_bytes;
use crate::text::utf8_string;
use crate::hexstr::strip_0x;
use crate::hexstr::is_hex_str;
use crate::hexstr::bytes_of_hex;
use crate::hexstr::remove_0x_prefix;
use crate::hexstr::hex_decode;
use crate::signature::views_of;
use crate::signature::spec_params_of;
use crate::signature::extract_params;

verus! {

/// One decoded ABI parameter value. Integers keep their full 32-byte
/// word; addresses keep their 20 bytes; dynamic values carry their
/// resolved contents. An unrecognized type tag keeps its raw head word
/// so that later parameters stay aligned.
#[derive(Clone, Debug, PartialEq, Eq)]
pub enum AbiValue {
    Bool(bool),
    Uint(Vec<u8>),
    Address(Vec<u8>),
    DynBytes(Vec<u8>),
    Text(String),
    AddressArray(Vec<Vec<u8>>),
    UintArray(Vec<Vec<u8>>),
    TextArray(Vec<String>),
    Unrecognized(Vec<u8>),
}

/// The 32-byte word starting at `off`.
pub open spec fn word(cd: Seq<u8>, off: int) -> Seq<u8> {
    cd.subrange(off, off + 32)
}

/// The head word of parameter `i`: one word per parameter, in
/// declaration order, immediately after the 4-byte selector.
pub open spec fn head_word(cd: Seq<u8>, i: int) -> Seq<u8> {
    word(cd, 4 + 32 * i)
}

/// The length recorded in the 32-byte word at `off`.
pub open spec fn tail_len(cd: Seq<u8>, off: int) -> nat {
    be_val(word(cd, off))
}

/// The length word at `off` and the `tail_len` bytes after it lie
/// within the buffer.
pub open spec fn tail_in_bounds(cd: Seq<u8>, off: int) -> bool {
    0 <= off && off + 32 <= cd.len() && off + 32 + tail_len(cd, off) <= cd.len()
}

/// The bytes of the length-prefixed tail at `off`.
pub open spec fn tail_bytes(cd: Seq<u8>, off: int) -> Seq<u8> {
    cd.subrange(off + 32, off + 32 + tail_len(cd, off))
}

/// The length word at `off` and `tail_len` 32-byte elements after it
/// lie within the buffer.
pub open spec fn array_in_bounds(cd: Seq<u8>, off: int) -> bool {
    0 <= off && off + 32 <= cd.len() && off + 32 + 32 * tail_len(cd, off) <= cd.len()
}

/// The `j`-th 32-byte element word of the array body at `off`.
pub open spec fn array_elem_word(cd: Seq<u8>, off: int, j: int) -> Seq<u8> {
    word(cd, off + 32 + 32 * j)
}

/// The absolute position of the `j`-th string of a `string[]` body at
/// `off`: each element slot holds its own offset, relative to the start
/// of the array body, to a nested length-prefixed string.
pub open spec fn str_elem_abs(cd: Seq<u8>, off: int, j: int) -> int {
    off + 32 + be_val(array_elem_word(cd, off, j))
}

/// The `j`-th element of a `string[]` body resolves in bounds to UTF-8.
pub open spec fn str_elem_ok(cd: Seq<u8>, off: int, j: int) -> bool {
    tail_in_bounds(cd, str_elem_abs(cd, off, j)) && valid_utf8(
        tail_bytes(cd, str_elem_abs(cd, off, j)))
}

/// The `j`-th element of a `string[]` body decodes to `s`.
pub open spec fn str_elem_matches(cd: Seq<u8>, off: int, j: int, s: String) -> bool {
    str_elem_ok(cd, off, j) && s@ == decode_utf8(tail_bytes(cd, str_elem_abs(cd, off, j)))
}

/// The dynamic type tags the walker resolves.
pub open spec fn is_dynamic_tag(t: Seq<char>) -> bool {
    t == "string"@ || t == "bytes"@ || t == "address[]"@ || t == "uint256[]"@ || t
        == "string[]"@
}

/// A dynamic value matches its tail at absolute position `off`.
pub open spec fn dyn_value_matches(t: Seq<char>, v: AbiValue, cd: Seq<u8>, off: int) -> bool {
    if t == "string"@ {
        v matches AbiValue::Text(s) && tail_in_bounds(cd, off) && valid_utf8(tail_bytes(cd, off))
            && s@ == decode_utf8(tail_bytes(cd, off))
    } else if t == "bytes"@ {
        v matches AbiValue::DynBytes(b) && tail_in_bounds(cd, off) && b@ == tail_bytes(cd, off)
    } else if t == "address[]"@ {
        v matches AbiValue::AddressArray(a) && array_in_bounds(cd, off) && a@.len() == tail_len(
            cd, off) && forall|j: int|
            0 <= j < a@.len() ==> (#[trigger] a@[j])@ == array_elem_word(cd, off, j).subrange(
                12, 32)
    } else if t == "uint256[]"@ {
        v matches AbiValue::UintArray(a) && array_in_bounds(cd, off) && a@.len() == tail_len(cd,
            off) && forall|j: int|
            0 <= j < a@.len() ==> (#[trigger] a@[j])@ == array_elem_word(cd, off, j)
    } else {
        v matches AbiValue::TextArray(a) && array_in_bounds(cd, off) && a@.len() == tail_len(cd,
            off) && forall|j: int| 0 <= j < a@.len() ==> str_elem_matches(cd, off, j, a@[j])
    }
}

/// Parameter `i` of type tag `t` decodes to `v` within `cd`. Static
/// types read exactly their one head word; dynamic types follow the
/// offset their head word records; an unrecognized tag keeps its head
/// word unparsed.
pub open spec fn value_matches(t: Seq<char>, v: AbiValue, cd: Seq<u8>, i: int) -> bool {
    if t == "bool"@ {
        v matches AbiValue::Bool(b) && b == (head_word(cd, i)[31] != 0)
    } else if t == "address"@ {
        v matches AbiValue::Address(a) && a@ == head_word(cd, i).subrange(12, 32)
    } else if t == "uint256"@ || t == "int256"@ {
        v matches AbiValue::Uint(w) && w@ == head_word(cd, i)
    } else if is_dynamic_tag(t) {
        dyn_value_matches(t, v, cd, 4 + be_val(head_word(cd, i)) as int)
    } else {
        v matches AbiValue::Unrecognized(w) && w@ == head_word(cd, i)
    }
}

/// Parameter `i` of `m` declared parameters, with type tag `t`, can be
/// decoded: a static or unrecognized tag always can (its head word is in
/// bounds once the head region is), and a dynamic tag can exactly when
/// its recorded offset points past the `m`-word head region — so a
/// resolved value never aliases bytes claimed as another field's head
/// word — and resolves within the buffer, with UTF-8 where text is
/// promised.
pub open spec fn param_ok(t: Seq<char>, cd: Seq<u8>, i: int, m: int) -> bool {
    if is_dynamic_tag(t) {
        let off = 4 + be_val(head_word(cd, i)) as int;
        &&& be_val(head_word(cd, i)) >= 32 * m
        &&& if t == "string"@ {
            tail_in_bounds(cd, off) && valid_utf8(tail_bytes(cd, off))
        } else if t == "bytes"@ {
            tail_in_bounds(cd, off)
        } else if t == "address[]"@ || t == "uint256[]"@ {
            array_in_bounds(cd, off)
        } else {
            array_in_bounds(cd, off) && forall|j: int|
                0 <= j < tail_len(cd, off) ==> str_elem_ok(cd, off, j)
        }
    } else {
        true
    }
}

/// Parameter `i` of type tag `t` names text whose in-bounds bytes are
/// not UTF-8 — the one condition that yields `InvalidUtf8` rather than
/// `TruncatedCalldata`.
pub open spec fn param_utf8_failure(t: Seq<char>, cd: Seq<u8>, i: int) -> bool {
    let off = 4 + be_val(head_word(cd, i)) as int;
    ||| (t == "string"@ && tail_in_bounds(cd, off) && !valid_utf8(tail_bytes(cd, off)))
    ||| (t == "string[]"@ && exists|j: int|
        0 <= j < tail_len(cd, off) && tail_in_bounds(cd, #[trigger] str_elem_abs(cd, off, j))
            && !valid_utf8(tail_bytes(cd, str_elem_abs(cd, off, j))))
}

/// Byte-slice equality.
fn eq_bytes(a: &[u8], b: &[u8]) -> (r: bool)
    ensures
        r <==> a@ == b@,
{
    let n = a.len();
    if n != b.len() {
        proof {
            assert(a@.len() != b@.len());
        }
        return false;
    }
    let mut i: usize = 0;
    while i < n
        invariant
            i <= n,
            n == a@.len(),
            n == b@.len(),
            forall|k: int| 0 <= k < i ==> a@[k] == b@[k],
        decreases n - i,
    {
        if a[i] != b[i] {
            return false;
        }
        i = i + 1;
    }
    proof {
        assert(a@ =~= b@);
    }
    true
}

/// Text equality, decided on the UTF-8 bytes.
fn str_eq(a: &str, b: &str) -> (r: bool)
    ensures
        r <==> a@ == b@,
{
    let r = eq_bytes(a.as_bytes(), b.as_bytes());
    proof {
        vstd::utf8::encode_utf8_decode_utf8(a@);
        vstd::utf8::encode_utf8_decode_utf8(b@);
    }
    r
}

/// Reads the length-prefixed tail at `offset`: a 32-byte length word,
/// then that many bytes. Succeeds exactly when both lie in bounds;
/// a truncated buffer is an error, never an out-of-bounds read.
pub fn decode_bytes(calldata: &[u8], offset: usize) -> (r: Result<Vec<u8>, DecodeError>)
    ensures
        r is Ok <==> tail_in_bounds(calldata@, offset as int),
        r is Ok ==> r->Ok_0@ == tail_bytes(calldata@, offset as int),
        r is Err ==> r->Err_0 == DecodeError::TruncatedCalldata,
{
    let n = calldata.len();
    if offset > n || n - offset < 32 {
        return Err(DecodeError::TruncatedCalldata);
    }
    let lw = slice_subrange(calldata, offset, offset + 32);
    let len64 = match be_val_u64(lw) {
        Some(v) => v,
        None => {
            return Err(DecodeError::TruncatedCalldata);
        },
    };
    if len64 > (n - offset - 32) as u64 {
        return Err(DecodeError::TruncatedCalldata);
    }
    let len = len64 as usize;
    let b = slice_subrange(calldata, offset + 32, offset + 32 + len);
    Ok(slice_to_vec(b))
}

/// Decodes the tail at `offset` as UTF-8 text.
pub fn decode_string(calldata: &[u8], offset: usize) -> (r: Result<String, DecodeError>)
    ensures
        r is Ok <==> tail_in_bounds(calldata@, offset as int) && valid_utf8(
            tail_bytes(calldata@, offset as int)),
        r is Ok ==> r->Ok_0@ == decode_utf8(tail_bytes(calldata@, offset as int)),
        r is Err ==> (r->Err_0 == DecodeError::TruncatedCalldata <==> !tail_in_bounds(
            calldata@, offset as int)),
        r is Err ==> (r->Err_0 == DecodeError::InvalidUtf8 <==> tail_in_bounds(calldata@,
            offset as int) && !valid_utf8(tail_bytes(calldata@, offset as int))),
{
    let b = decode_bytes(calldata, offset)?;
    utf8_string(b)
}

/// Decodes the array tail at `offset` as 32-byte-aligned addresses,
/// each right-aligned in its word.
pub fn decode_address_array(calldata: &[u8], offset: usize) -> (r: Result<
    Vec<Vec<u8>>,
    DecodeError,
>)
    ensures
        r is Ok <==> array_in_bounds(calldata@, offset as int),
        r is Ok ==> r->Ok_0@.len() == tail_len(calldata@, offset as int) && forall|j: int|
            0 <= j < r->Ok_0@.len() ==> (#[trigger] r->Ok_0@[j])@ == array_elem_word(calldata@,
                offset as int, j).subrange(12, 32),
        r is Err ==> r->Err_0 == DecodeError::TruncatedCalldata,
{
    let n = calldata.len();
    if offset > n || n - offset < 32 {
        return Err(DecodeError::TruncatedCalldata);
    }
    let lw = slice_subrange(calldata, offset, offset + 32);
    let len64 = match be_val_u64(lw) {
        Some(v) => v,
        None => {
            return Err(DecodeError::TruncatedCalldata);
        },
    };
    if len64 > ((n - offset - 32) / 32) as u64 {
        return Err(DecodeError::TruncatedCalldata);
    }
    let len = len64 as usize;
    let mut out: Vec<Vec<u8>> = Vec::new();
    let mut j: usize = 0;
    while j < len
        invariant
            j <= len,
            n == calldata@.len(),
            offset + 32 + 32 * len <= n,
            len == tail_len(calldata@, offset as int),
            out@.len() == j,
            forall|k: int| 0 <= k < j ==> (#[trigger] out@[k])@ == array_elem_word(calldata@,
                offset as int, k).subrange(12, 32),
        decreases len - j,
    {
        let base = offset + 32 + 32 * j;
        let e = slice_subrange(calldata, base + 12, base + 32);
        out.push(slice_to_vec(e));
        j = j + 1;
    }
    Ok(out)
}

/// Decodes the array tail at `offset` as full 32-byte unsigned words.
pub fn decode_uint_array(calldata: &[u8], offset: usize) -> (r: Result<Vec<Vec<u8>>, DecodeError>)
    ensures
        r is Ok <==> array_in_bounds(calldata@, offset as int),
        r is Ok ==> r->Ok_0@.len() == tail_len(calldata@, offset as int) && forall|j: int|
            0 <= j < r->Ok_0@.len() ==> (#[trigger] r->Ok_0@[j])@ == array_elem_word(calldata@,
                offset as int, j),
        r is Err ==> r->Err_0 == DecodeError::TruncatedCalldata,
{
    let n = calldata.len();
    if offset > n || n - offset < 32 {
        return Err(DecodeError::TruncatedCalldata);
    }
    let lw = slice_subrange(calldata, offset, offset + 32);
    let len64 = match be_val_u64(lw) {
        Some(v) => v,
        None => {
            return Err(DecodeError::TruncatedCalldata);
        },
    };
    if len64 > ((n - offset - 32) / 32) as u64 {
        return Err(DecodeError::TruncatedCalldata);
    }
    let len = len64 as usize;
    let mut out: Vec<Vec<u8>> = Vec::new();
    let mut j: usize = 0;
    while j < len
        invariant
            j <= len,
            n == calldata@.len(),
            offset + 32 + 32 * len <= n,
            len == tail_len(calldata@, offset as int),
            out@.len() == j,
            forall|k: int| 0 <= k < j ==> (#[trigger] out@[k])@ == array_elem_word(calldata@,
                offset as int, k),
        decreases len - j,
    {
        let base = offset + 32 + 32 * j;
        let e = slice_subrange(calldata, base, base + 32);
        out.push(slice_to_vec(e));
        j = j + 1;
    }
    Ok(out)
}

/// Decodes the array tail at `offset` as nested strings: each element
/// slot holds an offset, relative to the start of the array body, to a
/// length-prefixed UTF-8 string, mirroring the top-level head/tail
/// scheme one level deeper.
pub fn decode_string_array(calldata: &[u8], offset: usize) -> (r: Result<Vec<String>, DecodeError>)
    ensures
        r is Ok <==> array_in_bounds(calldata@, offset as int) && (forall|j: int|
            0 <= j < tail_len(calldata@, offset as int) ==> str_elem_ok(calldata@,
                offset as int, j)),
        r is Ok ==> r->Ok_0@.len() == tail_len(calldata@, offset as int) && forall|j: int|
            0 <= j < r->Ok_0@.len() ==> str_elem_matches(calldata@, offset as int, j,
                r->Ok_0@[j]),
        r is Err ==> (r->Err_0 == DecodeError::TruncatedCalldata || r->Err_0
            == DecodeError::InvalidUtf8),
        r is Err && r->Err_0 == DecodeError::InvalidUtf8 ==> exists|j: int|
            0 <= j < tail_len(calldata@, offset as int) && tail_in_bounds(calldata@,
            #[trigger] str_elem_abs(calldata@, offset as int, j)) && !valid_utf8(
            tail_bytes(calldata@, str_elem_abs(calldata@, offset as int, j))),
{
    let n = calldata.len();
    if offset > n || n - offset < 32 {
        return Err(DecodeError::TruncatedCalldata);
    }
    let lw = slice_subrange(calldata, offset, offset + 32);
    let len64 = match be_val_u64(lw) {
        Some(v) => v,
        None => {
            return Err(DecodeError::TruncatedCalldata);
        },
    };
    if len64 > ((n - offset - 32) / 32) as u64 {
        return Err(DecodeError::TruncatedCalldata);
    }
    let len = len64 as usize;
    let mut out: Vec<String> = Vec::new();
    let mut j: usize = 0;
    while j < len
        invariant
            j <= len,
            n == calldata@.len(),
            offset + 32 + 32 * len <= n,
            len == tail_len(calldata@, offset as int),
            out@.len() == j,
            forall|k: int| 0 <= k < j ==> str_elem_matches(calldata@, offset as int, k,
                out@[k]),
        decreases len - j,
    {
        let base = offset + 32 + 32 * j;
        let ow = slice_subrange(calldata, base, base + 32);
        let eoff64 = match be_val_u64(ow) {
            Some(v) => v,
            None => {
                proof {
                    assert(!tail_in_bounds(calldata@, str_elem_abs(calldata@, offset as int,
                        j as int)));
                    assert(!str_elem_ok(calldata@, offset as int, j as int));
                }
                return Err(DecodeError::TruncatedCalldata);
            },
        };
        if eoff64 > n as u64 {
            proof {
                assert(!tail_in_bounds(calldata@, str_elem_abs(calldata@, offset as int,
                    j as int)));
                assert(!str_elem_ok(calldata@, offset as int, j as int));
            }
            return Err(DecodeError::TruncatedCalldata);
        }
        let abs = match (offset + 32).checked_add(eoff64 as usize) {
            Some(a) => a,
            None => {
                proof {
                    assert(!tail_in_bounds(calldata@, str_elem_abs(calldata@, offset as int,
                        j as int)));
                    assert(!str_elem_ok(calldata@, offset as int, j as int));
                }
                return Err(DecodeError::TruncatedCalldata);
            },
        };
        let s = match decode_string(calldata, abs) {
            Ok(s) => s,
            Err(e) => {
                proof {
                    assert(!str_elem_ok(calldata@, offset as int, j as int));
                    if e == DecodeError::InvalidUtf8 {
                        assert(tail_in_bounds(calldata@, str_elem_abs(calldata@,
                            offset as int, j as int)));
                        assert(!valid_utf8(tail_bytes(calldata@, str_elem_abs(calldata@,
                            offset as int, j as int))));
                    }
                }
                return Err(e);
            },
        };
        out.push(s);
        j = j + 1;
    }
    proof {
        assert forall|j: int| 0 <= j < tail_len(calldata@, offset as int) implies str_elem_ok(
            calldata@, offset as int, j) by {
            assert(str_elem_matches(calldata@, offset as int, j, out@[j]));
        }
    }
    Ok(out)
}

/// A fully decoded call: the 4-byte selector, the declared parameter
/// type tags, and the decoded values, positionally aligned.
#[derive(Clone, Debug, PartialEq, Eq)]
pub struct FunctionCallDescriptor {
    pub selector: Vec<u8>,
    pub parameter_types: Vec<String>,
    pub parameter_values: Vec<AbiValue>,
}

/// Decodes a hex calldata text against a resolved text signature: the
/// hex is decoded to bytes, the signature's parameter type tags are
/// extracted, and the walker resolves each value.
pub fn decode_with_signature(call_data: &str, signature: &str) -> (r: Result<
    FunctionCallDescriptor,
    DecodeError,
>)
    ensures
        ({
            let t = strip_0x(call_data@);
            let cd = bytes_of_hex(t);
            &&& (!is_hex_str(t) <==> r is Err && r->Err_0 == DecodeError::InvalidHexEncoding)
            &&& (is_hex_str(t) && cd.len() < 4 <==> r is Err && r->Err_0
                == DecodeError::CalldataTooShort)
            &&& (r is Ok <==> ({
                let ts = spec_params_of(signature@);
                is_hex_str(t) && cd.len() >= 4 && 4 + 32 * ts.len() <= cd.len() && (forall|
                    i: int| 0 <= i < ts.len() ==> param_ok(#[trigger] ts[i], cd, i,
                    ts.len() as int))
            }))
            &&& (is_hex_str(t) && cd.len() >= 4 && 4 + 32 * spec_params_of(signature@).len()
                > cd.len() ==> r is Err && r->Err_0 == DecodeError::TruncatedCalldata)
            &&& (r is Err && r->Err_0 == DecodeError::InvalidUtf8 ==> exists|i: int|
                0 <= i < spec_params_of(signature@).len() && param_utf8_failure(
                #[trigger] spec_params_of(signature@)[i], cd, i))
            &&& (r is Ok ==> {
                let d = r->Ok_0;
                &&& cd.len() >= 4 + 32 * d.parameter_types@.len()
                &&& d.selector@ == cd.take(4)
                &&& views_of(d.parameter_types@) == spec_params_of(signature@)
                &&& d.parameter_values@.len() == d.parameter_types@.len()
                &&& forall|i: int|
                    0 <= i < d.parameter_types@.len() ==> value_matches(
                        d.parameter_types@[i]@, #[trigger] d.parameter_values@[i], cd, i)
            })
            &&& (r is Err ==> (r->Err_0 == DecodeError::InvalidHexEncoding || r->Err_0
                == DecodeError::CalldataTooShort || r->Err_0 == DecodeError::TruncatedCalldata
                || r->Err_0 == DecodeError::InvalidUtf8))
        }),
{
    let stripped = remove_0x_prefix(call_data);
    let bytes = hex_decode(stripped)?;
    let types = extract_params(signature);
    proof {
        let sp = spec_params_of(signature@);
        assert(views_of(types@).len() == types@.len());
        assert forall|i: int| 0 <= i < types@.len() implies #[trigger] sp[i] == types@[i]@ by {
            assert(views_of(types@)[i] == types@[i]@);
        }
    }
    let vals = match decode_calldata(bytes.as_slice(), &types) {
        Ok(v) => v,
        Err(e) => {
            proof {
                let cd = bytes_of_hex(strip_0x(call_data@));
                let sp = spec_params_of(signature@);
                assert(bytes@ == cd);
                assert(types@.len() == sp.len());
                if cd.len() >= 4 && 4 + 32 * sp.len() <= cd.len() {
                    let i = choose|i: int|
                        0 <= i < types@.len() && !param_ok(#[trigger] types@[i]@, cd, i,
                        types@.len() as int);
                    assert(sp[i] == types@[i]@);
                    assert(!param_ok(sp[i], cd, i, sp.len() as int));
                }
                if e == DecodeError::InvalidUtf8 {
                    let i = choose|i: int|
                        0 <= i < types@.len() && param_utf8_failure(#[trigger] types@[i]@,
                        cd, i);
                    assert(sp[i] == types@[i]@);
                    assert(param_utf8_failure(sp[i], cd, i));
                }
            }
            return Err(e);
        },
    };
    let sel = slice_to_vec(slice_subrange(bytes.as_slice(), 0, 4));
    proof {
        assert(sel@ =~= bytes@.take(4));
    }
    Ok(FunctionCallDescriptor { selector: sel, parameter_types: types, parameter_values: vals })
}

/// Renders one 32-byte head word as text, the way the schema-less
/// decoder reports static slots: `bool` by its least-significant byte
/// (zero is `false`, anything else is `true`), every other tag as the
/// word's unsigned value in decimal.
pub fn decode_integer_or_bool(word_bytes: &[u8], typ: &str) -> (r: String)
    requires
        word_bytes@.len() == 32,
    ensures
        typ@ == "bool"@ ==> r@ == (if word_bytes@[31] != 0 {
            "true"@
        } else {
            "false"@
        }),
        typ@ != "bool"@ ==> r@ == dec_chars_of(be_val(word_bytes@)),
{
    if str_eq(typ, "bool") {
        if word_bytes[31] != 0 {
            String::from_str("true")
        } else {
            String::from_str("false")
        }
    } else {
        biguint_decimal_of_be_bytes(word_bytes)
    }
}

/// Walks the declared parameter types over the calldata: one 32-byte
/// head word per parameter regardless of kind, static values read in
/// place, dynamic values resolved through their recorded offsets. It
/// succeeds exactly when the head region holds one word per parameter
/// and every dynamic parameter resolves in bounds; nothing is padded or
/// guessed.
pub fn decode_calldata(calldata: &[u8], types: &Vec<String>) -> (r: Result<
    Vec<AbiValue>,
    DecodeError,
>)
    ensures
        r is Ok <==> calldata@.len() >= 4 && 4 + 32 * types@.len() <= calldata@.len() && (forall|
            i: int| 0 <= i < types@.len() ==> param_ok(#[trigger] types@[i]@, calldata@, i,
            types@.len() as int)),
        r is Ok ==> r->Ok_0@.len() == types@.len() && (forall|i: int|
            0 <= i < types@.len() ==> value_matches(types@[i]@, #[trigger] r->Ok_0@[i],
                calldata@, i)),
        calldata@.len() < 4 <==> r is Err && r->Err_0 == DecodeError::CalldataTooShort,
        calldata@.len() >= 4 && 4 + 32 * types@.len() > calldata@.len() ==> r is Err
            && r->Err_0 == DecodeError::TruncatedCalldata,
        r is Err && r->Err_0 == DecodeError::InvalidUtf8 ==> exists|i: int|
            0 <= i < types@.len() && param_utf8_failure(#[trigger] types@[i]@, calldata@, i),
        r is Err ==> (r->Err_0 == DecodeError::CalldataTooShort || r->Err_0
            == DecodeError::TruncatedCalldata || r->Err_0 == DecodeError::InvalidUtf8),
{
    let n = calldata.len();
    if n < 4 {
        return Err(DecodeError::CalldataTooShort);
    }
    let m = types.len();
    if m > (n - 4) / 32 {
        return Err(DecodeError::TruncatedCalldata);
    }
    let mut vals: Vec<AbiValue> = Vec::new();
    let mut i: usize = 0;
    while i < m
        invariant
            i <= m,
            n == calldata@.len(),
            m == types@.len(),
            4 + 32 * m <= n,
            vals@.len() == i,
            forall|k: int| 0 <= k < i ==> value_matches(types@[k]@, #[trigger] vals@[k],
                calldata@, k),
            forall|k: int| 0 <= k < i ==> param_ok(#[trigger] types@[k]@, calldata@, k,
                m as int),
        decreases m - i,
    {
        let t = &types[i];
        proof {
            // The static tags are distinct from every dynamic tag, which
            // settles `is_dynamic_tag` in the static branches below.
            reveal_strlit("bool");
            reveal_strlit("address");
            reveal_strlit("uint256");
            reveal_strlit("int256");
            reveal_strlit("string");
            reveal_strlit("bytes");
            reveal_strlit("address[]");
            reveal_strlit("uint256[]");
            reveal_strlit("string[]");
            assert("bool"@.len() == 4);
            assert("address"@.len() == 7);
            assert("uint256"@.len() == 7);
            assert("int256"@.len() == 6);
            assert("string"@.len() == 6);
            assert("bytes"@.len() == 5);
            assert("address[]"@.len() == 9);
            assert("uint256[]"@.len() == 9);
            assert("string[]"@.len() == 8);
            assert("int256"@[0] == 'i' && "string"@[0] == 's');
        }
        let base = 4 + 32 * i;
        let w = slice_subrange(calldata, base, base + 32);
        if str_eq(t.as_str(), "bool") {
            vals.push(AbiValue::Bool(w[31] != 0));
        } else if str_eq(t.as_str(), "address") {
            let a = slice_subrange(w, 12, 32);
            vals.push(AbiValue::Address(slice_to_vec(a)));
        } else if str_eq(t.as_str(), "uint256") || str_eq(t.as_str(), "int256") {
            vals.push(AbiValue::Uint(slice_to_vec(w)));
        } else if str_eq(t.as_str(), "string") || str_eq(t.as_str(), "bytes") || str_eq(
            t.as_str(), "address[]") || str_eq(t.as_str(), "uint256[]") || str_eq(t.as_str(),
            "string[]") {
            let ghost off = 4 + be_val(head_word(calldata@, i as int)) as int;
            let off64 = match be_val_u64(w) {
                Some(v) => v,
                None => {
                    proof {
                        assert(!param_ok(types@[i as int]@, calldata@, i as int, m as int));
                    }
                    return Err(DecodeError::TruncatedCalldata);
                },
            };
            if off64 < (32 * m) as u64 {
                proof {
                    assert(!param_ok(types@[i as int]@, calldata@, i as int, m as int));
                }
                return Err(DecodeError::TruncatedCalldata);
            }
            if off64 > n as u64 {
                proof {
                    assert(!param_ok(types@[i as int]@, calldata@, i as int, m as int));
                }
                return Err(DecodeError::TruncatedCalldata);
            }
            let abs = match 4usize.checked_add(off64 as usize) {
                Some(a) => a,
                None => {
                    proof {
                        assert(!param_ok(types@[i as int]@, calldata@, i as int, m as int));
                    }
                    return Err(DecodeError::TruncatedCalldata);
                },
            };
            proof {
                assert(abs as int == off);
            }
            if str_eq(t.as_str(), "string") {
                let s = match decode_string(calldata, abs) {
                    Ok(s) => s,
                    Err(e) => {
                        proof {
                            assert(!param_ok(types@[i as int]@, calldata@, i as int, m as int));
                            if e == DecodeError::InvalidUtf8 {
                                assert(param_utf8_failure(types@[i as int]@, calldata@,
                                    i as int));
                            }
                        }
                        return Err(e);
                    },
                };
                vals.push(AbiValue::Text(s));
            } else if str_eq(t.as_str(), "bytes") {
                let b = match decode_bytes(calldata, abs) {
                    Ok(b) => b,
                    Err(e) => {
                        proof {
                            assert(!param_ok(types@[i as int]@, calldata@, i as int, m as int));
                        }
                        return Err(e);
                    },
                };
                vals.push(AbiValue::DynBytes(b));
            } else if str_eq(t.as_str(), "address[]") {
                let a = match decode_address_array(calldata, abs) {
                    Ok(a) => a,
                    Err(e) => {
                        proof {
                            assert(!param_ok(types@[i as int]@, calldata@, i as int, m as int));
                        }
                        return Err(e);
                    },
                };
                vals.push(AbiValue::AddressArray(a));
            } else if str_eq(t.as_str(), "uint256[]") {
                let a = match decode_uint_array(calldata, abs) {
                    Ok(a) => a,
                    Err(e) => {
                        proof {
                            assert(!param_ok(types@[i as int]@, calldata@, i as int, m as int));
                        }
                        return Err(e);
                    },
                };
                vals.push(AbiValue::UintArray(a));
            } else {
                let a = match decode_string_array(calldata, abs) {
                    Ok(a) => a,
                    Err(e) => {
                        proof {
                            assert(!param_ok(types@[i as int]@, calldata@, i as int, m as int));
                            if e == DecodeError::InvalidUtf8 {
                                assert(param_utf8_failure(types@[i as int]@, calldata@,
                                    i as int));
                            }
                        }
                        return Err(e);
                    },
                };
                vals.push(AbiValue::TextArray(a));
            }
        } else {
            vals.push(AbiValue::Unrecognized(slice_to_vec(w)));
        }
        i = i + 1;
    }
    Ok(vals)
}

} // verus!
