//! The commitment record and the errors of the commitment engine.

use vstd::prelude::*;

verus! {

/// A commitment to the set of unspent outputs at one block.
#[derive(Debug, Clone, Copy, PartialEq, Eq)]
pub struct UtxoCommitment {
    /// The root of the tree over the set.
    pub root: [u8; 32],
    /// The height of the block.
    pub height: u32,
    /// The hash of the block.
    pub block_hash: [u8; 32],
    /// The number of unspent outputs in the set.
    pub utxo_count: u64,
}

/// Why a check of the first synchronisation failed.
#[derive(Debug, Clone, Copy, PartialEq, Eq, Structural)]
pub enum VerificationFailure {
    /// Fewer peers of distinct networks than the configuration asks for.
    InsufficientDiversePeers { got: usize, need: usize },
    /// Neither a chain of headers nor a tip of a peer to start from.
    NoHeaderChain,
    /// The checkpoint is above the local chain of headers.
    CheckpointBeyondHeaders { checkpoint: u32, headers: usize },
}

/// The errors of the commitment engine.
#[derive(Debug, Clone, Copy, PartialEq, Eq, Structural)]
pub enum UtxoCommitmentError {
    /// A precondition of the synchronisation does not hold.
    VerificationFailed(VerificationFailure),
    /// No commitment is held by a strict majority of enough peers.
    InsufficientConsensus { responses: usize, quorum: usize },
    /// The header at the height of the checkpoint does not have the hash
    /// that the commitment names.
    CheckpointHeaderMismatch,
    /// The root of the rebuilt tree, or its number of entries, is not that
    /// of the commitment.
    RootMismatch,
}

impl UtxoCommitmentError {
    /// The text that names the kind of the error.
    pub open spec fn reason_spec(&self) -> Seq<char> {
        match self {
            UtxoCommitmentError::VerificationFailed(_) => "Verification failed"@,
            UtxoCommitmentError::InsufficientConsensus { .. } => "Insufficient peer consensus"@,
            UtxoCommitmentError::CheckpointHeaderMismatch => "Checkpoint header mismatch"@,
            UtxoCommitmentError::RootMismatch => "Commitment root mismatch"@,
        }
    }

    /// A short text for logs.
    pub fn reason(&self) -> (r: &'static str)
        ensures
            r@ == self.reason_spec(),
    {
        match self {
            UtxoCommitmentError::VerificationFailed(_) => "Verification failed",
            UtxoCommitmentError::InsufficientConsensus { .. } => "Insufficient peer consensus",
            UtxoCommitmentError::CheckpointHeaderMismatch => "Checkpoint header mismatch",
            UtxoCommitmentError::RootMismatch => "Commitment root mismatch",
        }
    }
}

} // verus!
