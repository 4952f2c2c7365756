//! Wire format: little-endian integers, variable-length counts, transactions,
//! headers and blocks.

pub mod varint;
pub mod transaction;
pub mod block;
pub mod decode;

pub use varint::{decode_varint, encode_varint, VarIntError};
pub use transaction::serialize_transaction;
pub use block::{compute_block_hash, deserialize_block, deserialize_block_header, serialize_block, serialize_block_header};
pub use decode::{deserialize_transaction, DecodeError};
