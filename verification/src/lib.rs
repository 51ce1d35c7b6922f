//! Decoders for raw Ethereum transaction bytes and ABI-encoded calldata.
//!
//! Two independent pipelines: an RLP transaction decoder that classifies a
//! raw byte stream as one of three transaction shapes and recovers every
//! field, and a calldata decoder that splits a hex payload into a 4-byte
//! selector plus ABI-encoded arguments and walks the head/tail layout to
//! recover each parameter value.

pub mod calldata;
pub mod errors;
pub mod hexstr;
pub mod laws;
pub mod numeric;
pub mod rlp;
pub mod signature;
pub mod transaction;
pub mod text;

pub use errors::DecodeError;
pub use errors::RlpCause;
pub use errors::TxField;
