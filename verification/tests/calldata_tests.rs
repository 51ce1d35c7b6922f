use evm_decode::calldata::decode_address_array;
use evm_decode::calldata::decode_bytes;
use evm_decode::calldata::decode_calldata;
use evm_decode::calldata::decode_integer_or_bool;
use evm_decode::calldata::decode_string;
use evm_decode::calldata::decode_string_array;
use evm_decode::calldata::decode_uint_array;
use evm_decode::calldata::decode_with_signature;
use evm_decode::calldata::AbiValue;
use evm_decode::errors::DecodeError;
use evm_decode::hexstr::hex_decode;
use evm_decode::hexstr::hex_to_utf8;
use evm_decode::hexstr::remove_0x_prefix;
use evm_decode::signature::extract_params;
use evm_decode::signature::get_selector_from_call_data;

fn decode_hex(s: &str) -> Vec<u8> {
    hex_decode(remove_0x_prefix(s)).expect("well-formed hex")
}

fn word_with_tail_byte(b: u8) -> String {
    let mut w = String::new();
    for _ in 0..31 {
        w.push_str("00");
    }
    w.push_str(&format!("{:02x}", b));
    w
}

#[test]
fn transfer_calldata_decodes_address_and_amount() {
    let mut calldata = String::from("0xa9059cbb");
    // address, right-aligned in its word
    calldata.push_str("000000000000000000000000");
    calldata.push_str(&"11".repeat(20));
    // uint256 1000
    calldata.push_str("00000000000000000000000000000000000000000000000000000000000003e8");
    let d = decode_with_signature(&calldata, "transfer(address,uint256)").expect("decodes");
    assert_eq!(d.selector, vec![0xa9, 0x05, 0x9c, 0xbb]);
    assert_eq!(d.parameter_types, vec!["address".to_string(), "uint256".to_string()]);
    assert_eq!(d.parameter_values.len(), 2);
    match &d.parameter_values[0] {
        AbiValue::Address(a) => assert_eq!(a, &vec![0x11u8; 20]),
        v => panic!("expected an address, got {:?}", v),
    }
    match &d.parameter_values[1] {
        AbiValue::Uint(w) => {
            assert_eq!(decode_integer_or_bool(w, "uint256"), "1000");
        },
        v => panic!("expected a uint, got {:?}", v),
    }
}

#[test]
fn string_parameter_hello() {
    let mut calldata = String::from("aabbccdd");
    calldata.push_str("0000000000000000000000000000000000000000000000000000000000000020");
    calldata.push_str("0000000000000000000000000000000000000000000000000000000000000005");
    calldata.push_str("68656c6c6f");
    calldata.push_str(&"00".repeat(27));
    let d = decode_with_signature(&calldata, "f(string)").expect("decodes");
    assert_eq!(d.parameter_values.len(), 1);
    match &d.parameter_values[0] {
        AbiValue::Text(s) => assert_eq!(s, "hello"),
        v => panic!("expected a string, got {:?}", v),
    }
}

#[test]
fn bool_decoding_is_permissive_on_the_last_byte() {
    // Least-significant byte 0x01 is true, 0x00 is false, and any other
    // nonzero byte is accepted and treated as true.
    for (b, expected) in [(0x01u8, true), (0x00, false), (0x07, true), (0x80, true)] {
        let mut calldata = String::from("00000000");
        calldata.push_str(&word_with_tail_byte(b));
        let bytes = decode_hex(&calldata);
        let vals = decode_calldata(&bytes, &vec!["bool".to_string()]).expect("decodes");
        assert_eq!(vals, vec![AbiValue::Bool(expected)]);
    }
}

#[test]
fn static_parameter_after_dynamic_keeps_its_own_word() {
    // types (string, bool): the bool still reads exactly the second head
    // word, wherever the string's tail lies.
    let mut calldata = String::from("00000000");
    calldata.push_str("0000000000000000000000000000000000000000000000000000000000000040");
    calldata.push_str(&word_with_tail_byte(0x01));
    calldata.push_str("0000000000000000000000000000000000000000000000000000000000000003");
    calldata.push_str("616263");
    calldata.push_str(&"00".repeat(29));
    let bytes = decode_hex(&calldata);
    let vals = decode_calldata(&bytes, &vec!["string".to_string(), "bool".to_string()])
        .expect("decodes");
    assert_eq!(vals.len(), 2);
    match &vals[0] {
        AbiValue::Text(s) => assert_eq!(s, "abc"),
        v => panic!("expected a string, got {:?}", v),
    }
    assert_eq!(vals[1], AbiValue::Bool(true));
}

#[test]
fn unrecognized_tag_still_consumes_one_word() {
    let mut calldata = String::from("00000000");
    calldata.push_str(&word_with_tail_byte(0x2a));
    calldata.push_str(&word_with_tail_byte(0x01));
    let bytes = decode_hex(&calldata);
    let vals = decode_calldata(&bytes, &vec!["uint8".to_string(), "bool".to_string()])
        .expect("decodes");
    match &vals[0] {
        AbiValue::Unrecognized(w) => assert_eq!(w.len(), 32),
        v => panic!("expected an unrecognized slot, got {:?}", v),
    }
    assert_eq!(vals[1], AbiValue::Bool(true));
}

#[test]
fn truncated_tail_fails_and_never_reads_out_of_bounds() {
    // The recorded offset points past the end of the buffer.
    let mut calldata = String::from("00000000");
    calldata.push_str("0000000000000000000000000000000000000000000000000000000000000200");
    let bytes = decode_hex(&calldata);
    assert_eq!(
        decode_calldata(&bytes, &vec!["string".to_string()]),
        Err(DecodeError::TruncatedCalldata)
    );
    // The length word promises more bytes than remain.
    let mut calldata2 = String::from("00000000");
    calldata2.push_str("0000000000000000000000000000000000000000000000000000000000000020");
    calldata2.push_str(&word_with_tail_byte(0x63));
    let bytes2 = decode_hex(&calldata2);
    assert_eq!(
        decode_calldata(&bytes2, &vec!["bytes".to_string()]),
        Err(DecodeError::TruncatedCalldata)
    );
}

#[test]
fn dynamic_offset_may_not_alias_the_head_region() {
    // A dynamic offset of zero would point the tail at its own head
    // word; decoded values never alias head words.
    let mut calldata = String::from("00000000");
    calldata.push_str(&word_with_tail_byte(0x00));
    calldata.push_str(&word_with_tail_byte(0x00));
    let bytes = decode_hex(&calldata);
    assert_eq!(
        decode_calldata(&bytes, &vec!["string".to_string()]),
        Err(DecodeError::TruncatedCalldata)
    );
    // The same words decode fine once the offset clears the head region.
    let mut ok = String::from("00000000");
    ok.push_str(&word_with_tail_byte(0x20));
    ok.push_str(&word_with_tail_byte(0x00));
    let okb = decode_hex(&ok);
    let vals = decode_calldata(&okb, &vec!["string".to_string()]).expect("decodes");
    assert_eq!(vals, vec![AbiValue::Text(String::new())]);
}

#[test]
fn head_region_shorter_than_declared_is_truncated() {
    let bytes = decode_hex("a9059cbb");
    assert_eq!(
        decode_calldata(&bytes, &vec!["bool".to_string()]),
        Err(DecodeError::TruncatedCalldata)
    );
}

#[test]
fn address_array_elements() {
    let mut body = String::new();
    body.push_str(&word_with_tail_byte(0x02));
    body.push_str("000000000000000000000000");
    body.push_str(&"aa".repeat(20));
    body.push_str("000000000000000000000000");
    body.push_str(&"bb".repeat(20));
    let bytes = decode_hex(&body);
    let arr = decode_address_array(&bytes, 0).expect("decodes");
    assert_eq!(arr, vec![vec![0xaau8; 20], vec![0xbbu8; 20]]);
}

#[test]
fn uint_array_elements_keep_full_words() {
    let mut body = String::new();
    body.push_str(&word_with_tail_byte(0x02));
    body.push_str(&word_with_tail_byte(0x01));
    body.push_str(&"ff".repeat(32));
    let bytes = decode_hex(&body);
    let arr = decode_uint_array(&bytes, 0).expect("decodes");
    assert_eq!(arr.len(), 2);
    assert_eq!(decode_integer_or_bool(&arr[0], "uint256"), "1");
    assert_eq!(
        decode_integer_or_bool(&arr[1], "uint256"),
        "115792089237316195423570985008687907853269984665640564039457584007913129639935"
    );
}

#[test]
fn string_array_with_nested_offsets() {
    let mut body = String::new();
    body.push_str(&word_with_tail_byte(0x02));
    body.push_str(&word_with_tail_byte(0x40));
    body.push_str(&word_with_tail_byte(0x80));
    body.push_str(&word_with_tail_byte(0x02));
    body.push_str("6869");
    body.push_str(&"00".repeat(30));
    body.push_str(&word_with_tail_byte(0x03));
    body.push_str("78797a");
    body.push_str(&"00".repeat(29));
    let bytes = decode_hex(&body);
    let arr = decode_string_array(&bytes, 0).expect("decodes");
    assert_eq!(arr, vec!["hi".to_string(), "xyz".to_string()]);
}

#[test]
fn element_decoders_report_truncation() {
    let bytes = decode_hex(&word_with_tail_byte(0x50));
    assert_eq!(decode_bytes(&bytes, 0), Err(DecodeError::TruncatedCalldata));
    assert_eq!(decode_string(&bytes, 0), Err(DecodeError::TruncatedCalldata));
    assert_eq!(decode_uint_array(&bytes, 64), Err(DecodeError::TruncatedCalldata));
}

#[test]
fn invalid_utf8_string_is_its_own_error() {
    let mut body = String::new();
    body.push_str(&word_with_tail_byte(0x01));
    body.push_str("ff");
    body.push_str(&"00".repeat(31));
    let bytes = decode_hex(&body);
    assert_eq!(decode_string(&bytes, 0), Err(DecodeError::InvalidUtf8));
}

#[test]
fn selector_extraction() {
    let sel = get_selector_from_call_data("0xa9059cbb0011").expect("long enough");
    assert_eq!(sel, "0xa9059cbb");
    let bare = get_selector_from_call_data("a9059cbb").expect("prefix is optional");
    assert_eq!(bare, "0xa9059cbb");
    assert_eq!(get_selector_from_call_data(""), Err(DecodeError::EmptyInput));
    assert_eq!(get_selector_from_call_data("0xa905"), Err(DecodeError::CalldataTooShort));
    assert_eq!(
        get_selector_from_call_data("zzzzzzzz"),
        Err(DecodeError::InvalidHexEncoding)
    );
}

#[test]
fn extract_params_splits_and_trims() {
    assert_eq!(
        extract_params("transfer(address,uint256)"),
        vec!["address".to_string(), "uint256".to_string()]
    );
    assert_eq!(
        extract_params("bar( address , uint256 )"),
        vec!["address".to_string(), "uint256".to_string()]
    );
    assert_eq!(extract_params("noparens"), Vec::<String>::new());
    assert_eq!(extract_params("zeroargs()"), Vec::<String>::new());
    assert_eq!(extract_params(")misplaced("), Vec::<String>::new());
}

#[test]
fn hex_to_utf8_decodes_text() {
    assert_eq!(hex_to_utf8("68656c6c6f").expect("ascii"), "hello");
    assert_eq!(hex_to_utf8("abc"), Err(DecodeError::InvalidHexEncoding));
    assert_eq!(hex_to_utf8("zz"), Err(DecodeError::InvalidHexEncoding));
    assert_eq!(hex_to_utf8("ff"), Err(DecodeError::InvalidUtf8));
}

#[test]
fn malformed_hex_calldata_is_rejected() {
    assert_eq!(
        decode_with_signature("0xa9059cbg", "f()"),
        Err(DecodeError::InvalidHexEncoding)
    );
    assert_eq!(decode_with_signature("0xa9", "f()"), Err(DecodeError::CalldataTooShort));
}

#[test]
fn decoding_calldata_twice_gives_identical_output() {
    let mut calldata = String::from("0xa9059cbb");
    calldata.push_str("000000000000000000000000");
    calldata.push_str(&"11".repeat(20));
    calldata.push_str("00000000000000000000000000000000000000000000000000000000000003e8");
    let a = decode_with_signature(&calldata, "transfer(address,uint256)").expect("decodes");
    let b = decode_with_signature(&calldata, "transfer(address,uint256)").expect("decodes");
    assert_eq!(a, b);
}

#[test]
fn every_error_has_a_description() {
    let errors = vec![
        DecodeError::EmptyInput,
        DecodeError::UnsupportedTransactionType,
        DecodeError::MalformedFrame { expected: 9, actual: 1 },
        DecodeError::CalldataTooShort,
        DecodeError::TruncatedCalldata,
        DecodeError::InvalidHexEncoding,
        DecodeError::InvalidUtf8,
        DecodeError::SignatureLookupFailed,
        DecodeError::NoSignatureFound,
    ];
    for e in errors {
        assert!(!e.describe().is_empty());
    }
    assert_eq!(DecodeError::NoSignatureFound.describe(), "no signature found");
    assert_eq!(DecodeError::SignatureLookupFailed.describe(), "signature lookup failed");
}

#[test]
fn bool_rendering_of_head_words() {
    let t = decode_hex(&word_with_tail_byte(0x01));
    let f = decode_hex(&word_with_tail_byte(0x00));
    let odd = decode_hex(&word_with_tail_byte(0x42));
    assert_eq!(decode_integer_or_bool(&t, "bool"), "true");
    assert_eq!(decode_integer_or_bool(&f, "bool"), "false");
    // Any nonzero least-significant byte counts as true.
    assert_eq!(decode_integer_or_bool(&odd, "bool"), "true");
    assert_eq!(decode_integer_or_bool(&t, "uint256"), "1");
    assert_eq!(decode_integer_or_bool(&f, "uint256"), "0");
}
