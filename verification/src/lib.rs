//! Consensus-validation core of a Bitcoin-compatible node.
//!
//! The crate holds the deterministic rules that decide whether a transaction
//! or a block is valid, which of two competing chains is kept, and how the
//! set of unspent outputs changes as blocks are connected and disconnected.
//! Every function carries a contract over a mathematical model of its
//! arguments; the contracts are machine-checked.

pub mod constants;
pub mod error;
pub mod types;
pub mod bytes;
pub mod median;
pub mod crypto;
pub mod serialization;
pub mod transaction_hash;
pub mod script;
pub mod utxo_set;
pub mod transaction;
pub mod optimizations;
pub mod block;
pub mod reorganization;
pub mod utxo_commitments;
pub mod script_cache;
pub mod block_validation;
pub mod difficulty;
