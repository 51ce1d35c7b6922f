//! The error taxonomy shared by the transaction and calldata decoders.

use vstd::prelude::*;

verus! {

/// The logical field of a transaction frame that a decode error is
/// attributed to.
#[derive(Clone, Copy, Debug, PartialEq, Eq, Structural)]
pub enum TxField {
    /// The outer RLP frame itself, before any field is reached.
    Frame,
    ChainId,
    Nonce,
    GasPrice,
    MaxPriorityFeePerGas,
    MaxFeePerGas,
    GasLimit,
    To,
    Value,
    Data,
    AccessList,
    V,
    R,
    S,
}

/// Why an RLP item could not be decoded into the field it was read for.
#[derive(Clone, Copy, Debug, PartialEq, Eq, Structural)]
pub enum RlpCause {
    /// A length prefix is malformed or runs past the end of the buffer.
    Header,
    /// A list item stood where a byte-string scalar was expected, or the
    /// other way round.
    NotByteString,
    /// A scalar with a leading zero byte, or a non-minimal length prefix.
    NonCanonical,
    /// A scalar wider than the field admits.
    TooLong,
    /// A fixed-width field (an address, a storage key) of the wrong length.
    WrongLength,
}

/// Every failure the decoders report. Hard failures never come with a
/// partially populated result.
#[derive(Clone, Copy, Debug, PartialEq, Eq, Structural)]
pub enum DecodeError {
    /// The input buffer has zero length.
    EmptyInput,
    /// The leading byte of a raw transaction names no known shape.
    UnsupportedTransactionType,
    /// The top-level RLP list holds the wrong number of items for its shape.
    MalformedFrame { expected: usize, actual: usize },
    /// A field-attributed RLP decode failure.
    RlpDecodeError { field: TxField, cause: RlpCause },
    /// Calldata too short to hold a 4-byte selector.
    CalldataTooShort,
    /// An offset or length points past the end of the calldata buffer.
    TruncatedCalldata,
    /// A non-hex character, or an odd number of hex digits.
    InvalidHexEncoding,
    /// A `string` parameter whose bytes are not UTF-8.
    InvalidUtf8,
    /// The signature registry could not be reached or timed out.
    SignatureLookupFailed,
    /// The signature registry knows no signature for the selector.
    NoSignatureFound,
}

impl DecodeError {
    /// A short human-readable description of the failure.
    pub fn describe(&self) -> (r: &'static str)
        ensures
            r@.len() > 0,
    {
        proof {
            reveal_strlit("empty input");
            reveal_strlit("unsupported transaction type");
            reveal_strlit("wrong number of fields in transaction frame");
            reveal_strlit("malformed RLP field");
            reveal_strlit("calldata too short");
            reveal_strlit("truncated calldata");
            reveal_strlit("invalid hex encoding");
            reveal_strlit("invalid UTF-8 in string parameter");
            reveal_strlit("signature lookup failed");
            reveal_strlit("no signature found");
        }
        match self {
            DecodeError::EmptyInput => "empty input",
            DecodeError::UnsupportedTransactionType => "unsupported transaction type",
            DecodeError::MalformedFrame { .. } => "wrong number of fields in transaction frame",
            DecodeError::RlpDecodeError { .. } => "malformed RLP field",
            DecodeError::CalldataTooShort => "calldata too short",
            DecodeError::TruncatedCalldata => "truncated calldata",
            DecodeError::InvalidHexEncoding => "invalid hex encoding",
            DecodeError::InvalidUtf8 => "invalid UTF-8 in string parameter",
            DecodeError::SignatureLookupFailed => "signature lookup failed",
            DecodeError::NoSignatureFound => "no signature found",
        }
    }
}

} // verus!
