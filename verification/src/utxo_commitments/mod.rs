//! Commitments to the set of unspent outputs: a sparse Merkle tree over the
//! set, agreement among peers on its root, and the first synchronisation
//! from a checkpoint.

pub mod data_structures;
pub mod merkle_tree;
pub mod peer_consensus;
pub mod spam_filter;
pub mod initial_sync;

pub use data_structures::{UtxoCommitment, UtxoCommitmentError, VerificationFailure};
pub use merkle_tree::UtxoMerkleTree;
pub use peer_consensus::{peer_at, ConsensusConfig, ConsensusResult, PeerAddress, PeerCommitment, PeerConsensus, PeerInfo};
pub use spam_filter::{SpamFilter, SpamFilterConfig, SpamKind, SpamSummary};
pub use initial_sync::{InitialSync, SyncPlan};
