//! Properties that relate the decoders' contracts to each other:
//! decoding is deterministic, and a static parameter reads only its own
//! head word.

use vstd::prelude::*;
use crate::calldata::AbiValue;
use crate::calldata::value_matches;
use crate::calldata::head_word;
use crate::calldata::is_dynamic_tag;
use crate::calldata::str_elem_matches;

verus! {

broadcast use vstd::string::group_string_axioms;

/// Structural agreement of two decoded values: the same variant with
/// the same contents, compared by view.
pub open spec fn abi_value_like(a: AbiValue, b: AbiValue) -> bool {
    match (a, b) {
        (AbiValue::Bool(x), AbiValue::Bool(y)) => x == y,
        (AbiValue::Uint(x), AbiValue::Uint(y)) => x@ == y@,
        (AbiValue::Address(x), AbiValue::Address(y)) => x@ == y@,
        (AbiValue::DynBytes(x), AbiValue::DynBytes(y)) => x@ == y@,
        (AbiValue::Text(x), AbiValue::Text(y)) => x@ == y@,
        (AbiValue::AddressArray(x), AbiValue::AddressArray(y)) => x@.len() == y@.len()
            && forall|j: int| 0 <= j < x@.len() ==> (#[trigger] x@[j])@ == y@[j]@,
        (AbiValue::UintArray(x), AbiValue::UintArray(y)) => x@.len() == y@.len() && forall|
            j: int,
        | 0 <= j < x@.len() ==> (#[trigger] x@[j])@ == y@[j]@,
        (AbiValue::TextArray(x), AbiValue::TextArray(y)) => x@.len() == y@.len() && forall|
            j: int,
        | 0 <= j < x@.len() ==> (#[trigger] x@[j])@ == y@[j]@,
        (AbiValue::Unrecognized(x), AbiValue::Unrecognized(y)) => x@ == y@,
        _ => false,
    }
}

/// Decoding has no hidden state: two values decoded for the same
/// parameter slot of the same type from the same calldata agree
/// structurally.
pub proof fn lemma_value_matches_unique(
    t: Seq<char>,
    v1: AbiValue,
    v2: AbiValue,
    cd: Seq<u8>,
    i: int,
)
    requires
        value_matches(t, v1, cd, i),
        value_matches(t, v2, cd, i),
    ensures
        abi_value_like(v1, v2),
{
    reveal_strlit("bool");
    reveal_strlit("address");
    reveal_strlit("uint256");
    reveal_strlit("int256");
    reveal_strlit("string");
    reveal_strlit("bytes");
    reveal_strlit("address[]");
    reveal_strlit("uint256[]");
    reveal_strlit("string[]");
    if is_dynamic_tag(t) && t == "string[]"@ {
        let off = 4 + crate::numeric::be_val(head_word(cd, i)) as int;
        assert("bool"@.len() == 4);
        assert("string[]"@.len() == 8);
        assert(t != "uint256"@ && t != "int256"@);
        assert(t != "string"@ && t != "bytes"@ && t != "address[]"@ && t != "uint256[]"@);
        let a1 = v1->TextArray_0;
        let a2 = v2->TextArray_0;
        assert(a1@.len() == a2@.len());
        assert forall|j: int| 0 <= j < a1@.len() implies (#[trigger] a1@[j])@ == a2@[j]@ by {
            assert(str_elem_matches(cd, off, j, a1@[j]));
            assert(str_elem_matches(cd, off, j, a2@[j]));
        }
    }
}

/// Two decodes of the same calldata against the same type list agree
/// position by position: the output is a function of the input alone.
pub proof fn lemma_decode_results_agree(
    ts: Seq<Seq<char>>,
    vs1: Seq<AbiValue>,
    vs2: Seq<AbiValue>,
    cd: Seq<u8>,
)
    requires
        vs1.len() == ts.len(),
        vs2.len() == ts.len(),
        forall|i: int| 0 <= i < ts.len() ==> value_matches(ts[i], #[trigger] vs1[i], cd, i),
        forall|i: int| 0 <= i < ts.len() ==> value_matches(ts[i], #[trigger] vs2[i], cd, i),
    ensures
        forall|i: int| 0 <= i < ts.len() ==> abi_value_like(#[trigger] vs1[i], vs2[i]),
{
    assert forall|i: int| 0 <= i < ts.len() implies abi_value_like(#[trigger] vs1[i],
        vs2[i]) by {
        lemma_value_matches_unique(ts[i], vs1[i], vs2[i], cd, i);
    }
}

/// A static (or unrecognized) parameter consumes exactly its one head
/// word: its decoded value depends on that word alone, wherever the
/// word stands and whatever its neighbors hold.
pub proof fn lemma_static_value_local(
    t: Seq<char>,
    v: AbiValue,
    cd1: Seq<u8>,
    cd2: Seq<u8>,
    i1: int,
    i2: int,
)
    requires
        !is_dynamic_tag(t),
        value_matches(t, v, cd1, i1),
        head_word(cd2, i2) == head_word(cd1, i1),
    ensures
        value_matches(t, v, cd2, i2),
{
}

} // verus!
