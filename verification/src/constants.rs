//! Network-wide limits and parameters.

use vstd::prelude::*;

verus! {

/// Largest amount that can exist, in satoshis: 21 million coins.
pub const MAX_MONEY: i64 = 2_100_000_000_000_000;

/// Largest serialized size of a transaction, in bytes.
pub const MAX_TX_SIZE: usize = 1_000_000;

/// Largest serialized size of a block without witness data, in bytes.
pub const MAX_BLOCK_SERIALIZED_SIZE: usize = 4_000_000;

/// Largest block weight (`stripped size * 4 + witness size`).
pub const MAX_BLOCK_WEIGHT: usize = 4_000_000;

/// Largest number of inputs of a transaction.
pub const MAX_INPUTS: usize = 1000;

/// Largest number of outputs of a transaction.
pub const MAX_OUTPUTS: usize = 1000;

/// Largest length of a script, in bytes.
pub const MAX_SCRIPT_SIZE: usize = 10_000;

/// Largest depth of the script stack.
pub const MAX_STACK_SIZE: usize = 1000;

/// Largest number of non-push operations in one script.
pub const MAX_SCRIPT_OPS: usize = 201;

/// Largest length of one stack element, in bytes.
pub const MAX_SCRIPT_ELEMENT_SIZE: usize = 520;

/// Number of blocks between two halvings of the subsidy.
pub const HALVING_INTERVAL: u64 = 210_000;

/// Subsidy of the first blocks: 50 coins.
pub const INITIAL_SUBSIDY: i64 = 5_000_000_000;

/// Satoshis in one coin.
pub const SATOSHIS_PER_BTC: i64 = 100_000_000;

/// Number of blocks between two difficulty adjustments.
pub const DIFFICULTY_ADJUSTMENT_INTERVAL: u64 = 2016;

/// Intended time between two blocks, in seconds.
pub const TARGET_TIME_PER_BLOCK: u64 = 600;

/// Compact form of the largest target (the lowest difficulty).
pub const MAX_TARGET: u32 = 0x1d00ffff;

/// Lock times below this value are block heights, the others are timestamps.
pub const LOCKTIME_THRESHOLD: u32 = 500_000_000;

/// Sequence number of a final input.
pub const SEQUENCE_FINAL: u32 = 0xffffffff;

/// Sequence number that signals replaceability.
pub const SEQUENCE_RBF: u32 = 0xfffffffe;

/// Smallest fee increase of a replacement transaction, in satoshis.
pub const MIN_RELAY_FEE: i64 = 1000;

/// Number of blocks that must follow a coinbase before its outputs can be spent.
pub const COINBASE_MATURITY: u64 = 100;

/// Largest total signature-operation cost of a block.
pub const MAX_BLOCK_SIGOPS_COST: u64 = 80_000;

/// Length of the hash in a witness commitment.
pub const WITNESS_COMMITMENT_HASH_LENGTH: usize = 32;

/// Length of a witness-commitment script, as the rules count it.
pub const WITNESS_COMMITMENT_SCRIPT_LENGTH: usize = 34;

/// Length of a pay-to-taproot script.
pub const TAPROOT_SCRIPT_LENGTH: usize = 34;

/// Length of a taproot witness program.
pub const TAPROOT_PROGRAM_LENGTH: usize = 32;

/// Length of a pay-to-witness-public-key-hash program.
pub const SEGWIT_P2WPKH_LENGTH: usize = 20;

/// Length of a pay-to-witness-script-hash program.
pub const SEGWIT_P2WSH_LENGTH: usize = 32;

} // verus!
