//! The selector extractor and the type-list parser: a calldata hex text
//! yields a 4-byte selector, and a human-readable signature of the form
//! `name(type1,type2,...)` yields its ordered parameter type tags.

use vstd::prelude::*;
use crate::errors::DecodeError;
use crate::hexstr::is_hex_digit;
use crate::hexstr::strip_0x;
use crate::hexstr::remove_0x_prefix;

verus! {

/// The index of the first occurrence of `c`, or the length when absent.
pub open spec fn find_char(s: Seq<char>, c: char) -> int
    decreases s.len(),
{
    if s.len() == 0 {
        0
    } else if s[0] == c {
        0
    } else {
        1 + find_char(s.drop_first(), c)
    }
}

/// `find_char` names the first occurrence.
pub proof fn lemma_find_char(s: Seq<char>, c: char)
    ensures
        0 <= find_char(s, c) <= s.len(),
        find_char(s, c) < s.len() ==> s[find_char(s, c)] == c,
        forall|k: int| 0 <= k < find_char(s, c) ==> s[k] != c,
    decreases s.len(),
{
    if s.len() > 0 && s[0] != c {
        lemma_find_char(s.drop_first(), c);
        assert forall|k: int| 0 <= k < find_char(s, c) implies s[k] != c by {
            if k > 0 {
                assert(s.drop_first()[k - 1] == s[k]);
            }
        }
    }
}

/// The index of the first non-space character, or the length when the
/// text is all spaces.
pub open spec fn first_non_space(s: Seq<char>) -> int
    decreases s.len(),
{
    if s.len() == 0 {
        0
    } else if s[0] != ' ' {
        0
    } else {
        1 + first_non_space(s.drop_first())
    }
}

/// The index of the last non-space character, or `-1` when the text is
/// all spaces.
pub open spec fn last_non_space(s: Seq<char>) -> int
    decreases s.len(),
{
    if s.len() == 0 {
        -1
    } else if s.last() != ' ' {
        s.len() - 1
    } else {
        last_non_space(s.drop_last())
    }
}

/// `first_non_space` names the first non-space position.
pub proof fn lemma_first_non_space(s: Seq<char>)
    ensures
        0 <= first_non_space(s) <= s.len(),
        first_non_space(s) < s.len() ==> s[first_non_space(s)] != ' ',
        forall|k: int| 0 <= k < first_non_space(s) ==> s[k] == ' ',
    decreases s.len(),
{
    if s.len() > 0 && s[0] == ' ' {
        lemma_first_non_space(s.drop_first());
        assert forall|k: int| 0 <= k < first_non_space(s) implies s[k] == ' ' by {
            if k > 0 {
                assert(s.drop_first()[k - 1] == s[k]);
            }
        }
    }
}

/// `last_non_space` names the last non-space position.
pub proof fn lemma_last_non_space(s: Seq<char>)
    ensures
        -1 <= last_non_space(s) < s.len(),
        last_non_space(s) >= 0 ==> s[last_non_space(s)] != ' ',
        forall|k: int| last_non_space(s) < k < s.len() ==> s[k] == ' ',
    decreases s.len(),
{
    if s.len() > 0 && s.last() == ' ' {
        lemma_last_non_space(s.drop_last());
        assert forall|k: int| last_non_space(s) < k < s.len() implies s[k] == ' ' by {
            if k < s.len() - 1 {
                assert(s.drop_last()[k] == s[k]);
            }
        }
    }
}

/// The text with leading and trailing spaces removed.
pub open spec fn trim_of(s: Seq<char>) -> Seq<char> {
    let a = first_non_space(s);
    let b = last_non_space(s);
    if a <= b {
        s.subrange(a, b + 1)
    } else {
        Seq::empty()
    }
}

/// The pieces of the text split at every comma, in order. A text without
/// a comma is one piece, so the empty text is one empty piece.
pub open spec fn split_commas(s: Seq<char>) -> Seq<Seq<char>>
    decreases s.len(),
{
    let k = find_char(s, ',');
    if 0 <= k < s.len() {
        seq![s.take(k)] + split_commas(s.subrange(k + 1, s.len() as int))
    } else {
        seq![s]
    }
}

/// The ordered parameter type tags of a signature `name(t1,t2,...)`:
/// the text between the first `(` and the first `)`, split on commas,
/// each piece trimmed of spaces. No parentheses, a `)` before the `(`,
/// or an empty interior all yield the empty sequence.
pub open spec fn spec_params_of(sig: Seq<char>) -> Seq<Seq<char>> {
    let o = find_char(sig, '(');
    let c = find_char(sig, ')');
    if o == sig.len() || c == sig.len() || c <= o + 1 {
        Seq::empty()
    } else {
        split_commas(sig.subrange(o + 1, c)).map_values(|p: Seq<char>| trim_of(p))
    }
}

/// Finds the first occurrence of a character.
fn find_char_exec(s: &str, c: char) -> (r: usize)
    ensures
        r == find_char(s@, c),
{
    proof {
        lemma_find_char(s@, c);
    }
    let n = s.unicode_len();
    let mut i: usize = 0;
    while i < n
        invariant
            i <= n,
            n == s@.len(),
            forall|k: int| 0 <= k < i ==> s@[k] != c,
            0 <= find_char(s@, c) <= s@.len(),
            find_char(s@, c) < s@.len() ==> s@[find_char(s@, c)] == c,
            forall|k: int| 0 <= k < find_char(s@, c) ==> s@[k] != c,
        decreases n - i,
    {
        if s.get_char(i) == c {
            return i;
        }
        i = i + 1;
    }
    n
}

/// Removes leading and trailing spaces.
fn trim_exec(s: &str) -> (r: String)
    ensures
        r@ == trim_of(s@),
{
    proof {
        lemma_first_non_space(s@);
        lemma_last_non_space(s@);
    }
    let n = s.unicode_len();
    let mut a: usize = 0;
    while a < n && s.get_char(a) == ' '
        invariant
            a <= n,
            n == s@.len(),
            forall|k: int| 0 <= k < a ==> s@[k] == ' ',
        decreases n - a,
    {
        a = a + 1;
    }
    let mut b: usize = n;
    while b > a && s.get_char(b - 1) == ' '
        invariant
            a <= b <= n,
            n == s@.len(),
            forall|k: int| b <= k < n ==> s@[k] == ' ',
        decreases b,
    {
        b = b - 1;
    }
    let piece = s.substring_char(a, b);
    let r = piece.to_owned();
    proof {
        if a == n {
            assert(first_non_space(s@) == n);
            assert(last_non_space(s@) < n);
            assert(r@ =~= trim_of(s@));
        } else {
            assert(s@[a as int] != ' ');
            assert(b > a);
            assert(s@[b - 1] != ' ');
            assert(first_non_space(s@) == a);
            assert(last_non_space(s@) == b - 1);
            assert(r@ =~= trim_of(s@));
        }
    }
    r
}

/// The views of a vector of strings.
pub open spec fn views_of(v: Seq<String>) -> Seq<Seq<char>> {
    v.map_values(|s: String| s@)
}

/// Splits at commas and trims each piece.
fn split_commas_exec(s: &str) -> (r: Vec<String>)
    ensures
        views_of(r@) == split_commas(s@).map_values(|p: Seq<char>| trim_of(p)),
    decreases s@.len(),
{
    proof {
        lemma_find_char(s@, ',');
    }
    let n = s.unicode_len();
    let k = find_char_exec(s, ',');
    if k == n {
        let piece = trim_exec(s);
        let mut r: Vec<String> = Vec::new();
        r.push(piece);
        proof {
            assert(views_of(r@) =~= split_commas(s@).map_values(|p: Seq<char>| trim_of(p)));
        }
        r
    } else {
        let head = s.substring_char(0, k);
        let piece = trim_exec(head);
        let tail = s.substring_char(k + 1, n);
        let rest = split_commas_exec(tail);
        let ghost restv = rest@;
        let mut r: Vec<String> = Vec::new();
        r.push(piece);
        let mut rest_v = rest;
        r.append(&mut rest_v);
        proof {
            assert(head@ =~= s@.take(k as int));
            assert(tail@ =~= s@.subrange(k as int + 1, s@.len() as int));
            let full = split_commas(s@).map_values(|p: Seq<char>| trim_of(p));
            let sub = split_commas(tail@).map_values(|p: Seq<char>| trim_of(p));
            assert(split_commas(s@) == seq![s@.take(k as int)] + split_commas(tail@));
            assert(r@ =~= seq![piece] + restv);
            assert(restv.len() == sub.len());
            assert(split_commas(s@).len() == 1 + split_commas(tail@).len());
            assert(r@.len() == full.len());
            assert forall|i: int| 0 <= i < r@.len() implies views_of(r@)[i] == full[i] by {
                if i == 0 {
                    assert(views_of(r@)[0] == piece@);
                    assert(split_commas(s@)[0] == s@.take(k as int));
                    assert(full[0] == trim_of(s@.take(k as int)));
                } else {
                    assert(views_of(r@)[i] == restv[i - 1]@);
                    assert(views_of(restv)[i - 1] == restv[i - 1]@);
                    assert(views_of(restv)[i - 1] == sub[i - 1]);
                    assert((seq![s@.take(k as int)] + split_commas(tail@))[i] == split_commas(
                        tail@)[i - 1]);
                    assert(split_commas(s@)[i] == split_commas(tail@)[i - 1]);
                    assert(full[i] == trim_of(split_commas(s@)[i]));
                    assert(sub[i - 1] == trim_of(split_commas(tail@)[i - 1]));
                    assert(full[i] == sub[i - 1]);
                }
            }
            assert(views_of(r@) =~= full);
        }
        r
    }
}

/// Returns the ordered parameter type tags of a text signature of the
/// form `name(type1,type2,...)`: the interior of the first parenthesis
/// pair, split on commas, each tag trimmed of spaces. A signature
/// without parentheses is a zero-argument function, not an error. Tags
/// are not validated here; unrecognized tags surface later as
/// unrecognized values.
pub fn extract_params(function_signature: &str) -> (r: Vec<String>)
    ensures
        views_of(r@) == spec_params_of(function_signature@),
{
    proof {
        lemma_find_char(function_signature@, '(');
        lemma_find_char(function_signature@, ')');
    }
    let n = function_signature.unicode_len();
    let o = find_char_exec(function_signature, '(');
    let c = find_char_exec(function_signature, ')');
    if o == n || c == n || c <= o || c - o == 1 {
        let r: Vec<String> = Vec::new();
        proof {
            assert(views_of(r@) =~= spec_params_of(function_signature@));
        }
        return r;
    }
    let interior = function_signature.substring_char(o + 1, c);
    let r = split_commas_exec(interior);
    proof {
        assert(interior@ =~= function_signature@.subrange(o as int + 1, c as int));
        assert(views_of(r@) =~= spec_params_of(function_signature@));
    }
    r
}

/// Extracts the `0x`-prefixed 8-hex-digit selector from the front of a
/// calldata text. Empty input, fewer than 8 hex characters after the
/// optional prefix, and a non-hex character among the first 8 are each
/// rejected with their own error.
pub fn get_selector_from_call_data(call_data: &str) -> (r: Result<String, DecodeError>)
    ensures
        ({
            let t = strip_0x(call_data@);
            &&& (call_data@.len() == 0 <==> r is Err && r->Err_0 == DecodeError::EmptyInput)
            &&& ((call_data@.len() > 0 && t.len() < 8) <==> r is Err && r->Err_0
                == DecodeError::CalldataTooShort)
            &&& ((call_data@.len() > 0 && t.len() >= 8 && exists|k: int|
                0 <= k < 8 && !is_hex_digit(t[k])) <==> r is Err && r->Err_0
                == DecodeError::InvalidHexEncoding)
            &&& (r is Ok <==> call_data@.len() > 0 && t.len() >= 8 && (forall|k: int|
                0 <= k < 8 ==> is_hex_digit(#[trigger] t[k])))
            &&& (r is Ok ==> r->Ok_0@ == seq!['0', 'x'] + t.take(8))
            &&& (r is Err ==> (r->Err_0 == DecodeError::EmptyInput || r->Err_0
                == DecodeError::CalldataTooShort || r->Err_0 == DecodeError::InvalidHexEncoding))
        }),
{
    if call_data.unicode_len() == 0 {
        return Err(DecodeError::EmptyInput);
    }
    let stripped = remove_0x_prefix(call_data);
    let m = stripped.unicode_len();
    if m < 8 {
        return Err(DecodeError::CalldataTooShort);
    }
    let mut i: usize = 0;
    while i < 8
        invariant
            i <= 8,
            m == stripped@.len(),
            m >= 8,
            call_data@.len() > 0,
            stripped@ == strip_0x(call_data@),
            forall|k: int| 0 <= k < i ==> is_hex_digit(stripped@[k]),
        decreases 8 - i,
    {
        let ch = stripped.get_char(i);
        let b = ch as u8;
        if !('\0' <= ch && ch <= '\u{7f}' && ((48 <= b && b <= 57) || (97 <= b && b <= 102) || (
        65 <= b && b <= 70))) {
            proof {
                assert(!is_hex_digit(stripped@[i as int]));
                assert(exists|k: int| 0 <= k < 8 && !is_hex_digit(
                    #[trigger] strip_0x(call_data@)[k]));
            }
            return Err(DecodeError::InvalidHexEncoding);
        }
        i = i + 1;
    }
    let sel = stripped.substring_char(0, 8);
    let mut out = String::new();
    out.append("0x");
    out.append(sel);
    proof {
        reveal_strlit("0x");
        assert(out@ =~= seq!['0', 'x'] + strip_0x(call_data@).take(8));
    }
    Ok(out)
}

} // verus!
