use evm_decode::errors::DecodeError;
use evm_decode::errors::RlpCause;
use evm_decode::errors::TxField;
use evm_decode::hexstr::hex_decode;
use evm_decode::hexstr::hex_encode;
use evm_decode::hexstr::remove_0x_prefix;
use evm_decode::numeric::be_val_u64;
use evm_decode::transaction::decode_to_field;
use evm_decode::transaction::decode_transaction;
use evm_decode::transaction::encode_transaction;
use evm_decode::transaction::AccessListEntry;
use evm_decode::transaction::TransactionEnvelope;

const LEGACY_TX: &str = "f86c098504a817c800825208943535353535353535353535353535353535353535880de0b6b3a76400008025a028ef61340bd939bc2195fe537567866003e1a15d3c71ff63e1590620aa636276a067cbe9d8997f761aecb703304b3800ccf555c9f3dc64214b297fb1966a3b6d83";

const FEE_MARKET_TX: &str = "0x02f8ea05827cc5425a830162e894758502f01b613287731c0788f1fe4d5c4c19b79b80b8849aaab648094e2b6c42ee984bdaf54f32cda9628d8b345f6d02d05b7ec922999ad5f1eafb000000000000000000000000000000000000000000000000000000000020d3489b3732e86fde103e1bf5efd4a317e2aa93c7deb97b8bae232c7e957064370f7c00000000000000000000000000000000000000000000000000000000009fb68bc080a08e6eb39efd60bb1bc18c137071b7cd2b41ea5f58316984f15e4e4d1100c7b5d1a0523dc6b210cdd705478293de03aabebc8e788caa13de5a3293b5651f88b80a22";

fn decode_hex(s: &str) -> Vec<u8> {
    hex_decode(remove_0x_prefix(s)).expect("well-formed hex")
}

#[test]
fn legacy_transaction_fields() {
    let raw = decode_hex(LEGACY_TX);
    let tx = decode_transaction(&raw).expect("well-formed legacy transaction");
    match &tx {
        TransactionEnvelope::Legacy {
            nonce,
            gas_price,
            gas_limit,
            to,
            value,
            data,
            sig_v,
            ..
        } => {
            assert_eq!(be_val_u64(nonce), Some(9));
            assert_eq!(be_val_u64(gas_price), Some(20_000_000_000));
            assert_eq!(be_val_u64(gas_limit), Some(21_000));
            assert_eq!(to.as_ref().expect("call, not creation"), &vec![0x35u8; 20]);
            assert_eq!(be_val_u64(value), Some(1_000_000_000_000_000_000));
            assert!(data.is_empty());
            assert_eq!(sig_v, &vec![0x25u8]);
        },
        _ => panic!("expected a legacy transaction"),
    }
}

#[test]
fn legacy_transaction_round_trip() {
    let raw = decode_hex(LEGACY_TX);
    let tx = decode_transaction(&raw).expect("well-formed legacy transaction");
    assert_eq!(encode_transaction(&tx), raw);
}

#[test]
fn fee_market_transaction_fields_and_round_trip() {
    let raw = decode_hex(FEE_MARKET_TX);
    let tx = decode_transaction(&raw).expect("well-formed fee-market transaction");
    match &tx {
        TransactionEnvelope::FeeMarket { chain_id, nonce, access_list, data, .. } => {
            assert_eq!(*chain_id, 5);
            assert_eq!(be_val_u64(nonce), Some(0x7cc5));
            assert!(access_list.is_empty());
            assert_eq!(data.len(), 0x84);
            assert_eq!(&data[0..4], &[0x9a, 0xaa, 0xb6, 0x48]);
        },
        _ => panic!("expected a fee-market transaction"),
    }
    assert_eq!(encode_transaction(&tx), raw);
}

#[test]
fn access_list_round_trip_with_entries() {
    let tx = TransactionEnvelope::AccessList {
        chain_id: 1,
        nonce: vec![0x01],
        gas_price: vec![0x02],
        gas_limit: vec![0x03],
        to: None,
        value: vec![],
        data: vec![0xde, 0xad],
        access_list: vec![AccessListEntry {
            address: vec![0xaa; 20],
            storage_keys: vec![vec![0x01; 32], vec![0x02; 32]],
        }],
        sig_v: vec![],
        sig_r: vec![0x01],
        sig_s: vec![0x02],
    };
    let raw = encode_transaction(&tx);
    assert_eq!(raw[0], 0x01);
    let back = decode_transaction(&raw).expect("round trip decodes");
    assert_eq!(back, tx);
}

#[test]
fn legacy_contract_creation_round_trip() {
    // A 60-byte data field exercises the long-string form of the frame.
    let tx = TransactionEnvelope::Legacy {
        nonce: vec![],
        gas_price: vec![0x01],
        gas_limit: vec![0x52, 0x08],
        to: None,
        value: vec![],
        data: vec![0x61; 60],
        sig_v: vec![0x1b],
        sig_r: vec![0x07],
        sig_s: vec![0x08],
    };
    let raw = encode_transaction(&tx);
    let back = decode_transaction(&raw).expect("round trip decodes");
    assert_eq!(back, tx);
    match back {
        TransactionEnvelope::Legacy { to, .. } => assert_eq!(to, None),
        _ => panic!("expected a legacy transaction"),
    }
}

#[test]
fn to_field_absent_only_for_empty_payload() {
    assert_eq!(decode_to_field(&[]), Ok(None));
    let addr = vec![0x35u8; 20];
    assert_eq!(decode_to_field(&addr), Ok(Some(addr.clone())));
    assert_eq!(
        decode_to_field(&[0x01, 0x02, 0x03]),
        Err(DecodeError::RlpDecodeError { field: TxField::To, cause: RlpCause::WrongLength })
    );
}

#[test]
fn empty_input_is_rejected() {
    assert_eq!(decode_transaction(&[]), Err(DecodeError::EmptyInput));
}

#[test]
fn unknown_type_byte_is_rejected() {
    assert_eq!(decode_transaction(&[0x03, 0xc0]), Err(DecodeError::UnsupportedTransactionType));
    assert_eq!(decode_transaction(&[0x7f]), Err(DecodeError::UnsupportedTransactionType));
}

#[test]
fn wrong_item_count_is_a_malformed_frame() {
    // A list holding a single byte where nine fields are expected.
    let raw = [0xc1u8, 0x01];
    assert_eq!(
        decode_transaction(&raw),
        Err(DecodeError::MalformedFrame { expected: 9, actual: 1 })
    );
    // The typed shapes expect 11 and 12 fields.
    assert_eq!(
        decode_transaction(&[0x01, 0xc1, 0x01]),
        Err(DecodeError::MalformedFrame { expected: 11, actual: 1 })
    );
    assert_eq!(
        decode_transaction(&[0x02, 0xc1, 0x01]),
        Err(DecodeError::MalformedFrame { expected: 12, actual: 1 })
    );
}

#[test]
fn leading_zero_scalar_is_non_canonical() {
    // Nine items; the first (nonce) is the two-byte string 0x0005.
    let raw = [0xcbu8, 0x82, 0x00, 0x05, 0x80, 0x80, 0x80, 0x80, 0x80, 0x80, 0x80, 0x80];
    assert_eq!(
        decode_transaction(&raw),
        Err(DecodeError::RlpDecodeError { field: TxField::Nonce, cause: RlpCause::NonCanonical })
    );
}

#[test]
fn non_minimal_single_byte_string_is_non_canonical() {
    // 0x81 0x05 should have been written as the single byte 0x05.
    let raw = [0xc2u8, 0x81, 0x05];
    assert_eq!(
        decode_transaction(&raw),
        Err(DecodeError::RlpDecodeError { field: TxField::Frame, cause: RlpCause::NonCanonical })
    );
}

#[test]
fn truncated_frame_is_rejected() {
    // Header promises more bytes than the buffer holds.
    let raw = [0xf8u8, 0x6c, 0x09];
    assert_eq!(
        decode_transaction(&raw),
        Err(DecodeError::RlpDecodeError { field: TxField::Frame, cause: RlpCause::Header })
    );
}

#[test]
fn decoding_twice_gives_identical_output() {
    let raw = decode_hex(FEE_MARKET_TX);
    let a = decode_transaction(&raw).expect("decodes");
    let b = decode_transaction(&raw).expect("decodes");
    assert_eq!(a, b);
}

#[test]
fn hex_encode_decode_round_trip() {
    let bytes = decode_hex("deadBEEF00");
    assert_eq!(bytes, vec![0xde, 0xad, 0xbe, 0xef, 0x00]);
    assert_eq!(hex_encode(&bytes), "deadbeef00");
    assert_eq!(hex_decode("zz"), Err(DecodeError::InvalidHexEncoding));
    assert_eq!(hex_decode("abc"), Err(DecodeError::InvalidHexEncoding));
}
