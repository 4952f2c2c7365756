//! Agreement among peers on a commitment.
//!
//! The peers asked are of distinct networks; the checkpoint lies a safety
//! margin below the median of their tips; a commitment is accepted where a
//! strict majority of enough answers name the same root and block hash,
//! and the local chain of headers has that block at that height.

use vstd::prelude::*;
use crate::bytes::hash_eq;
use crate::median::{median, median_spec};
use crate::serialization::block::{block_hash_spec, compute_block_hash};
use crate::types::{BlockHeader, Natural};
use crate::utxo_commitments::data_structures::{UtxoCommitment, UtxoCommitmentError};

verus! {

/// A peer: an identifier, and the network prefix that its address lies in.
#[derive(Debug, Clone, Copy, PartialEq, Eq)]
pub struct PeerInfo {
    pub id: u64,
    pub subnet: u32,
}

/// The address of a peer, as its bytes in network order.
#[derive(Debug, Clone, Copy, PartialEq, Eq)]
pub enum PeerAddress {
    /// An address of 4 bytes.
    V4([u8; 4]),
    /// An address of 16 bytes.
    V6([u8; 16]),
}

/// The network prefix of an address: its first 16 bits, and above them 0
/// for an address of 4 bytes and 1 in the highest byte for one of 16.
pub open spec fn subnet_spec(address: PeerAddress) -> u32 {
    match address {
        PeerAddress::V4(o) => (256 * o[0] + o[1]) as u32,
        PeerAddress::V6(o) => (0x0100_0000 + 256 * o[0] + o[1]) as u32,
    }
}

/// Whether two addresses are of the same kind and begin with the same two
/// bytes.
pub open spec fn same_network(a: PeerAddress, b: PeerAddress) -> bool {
    match (a, b) {
        (PeerAddress::V4(x), PeerAddress::V4(y)) => x[0] == y[0] && x[1] == y[1],
        (PeerAddress::V6(x), PeerAddress::V6(y)) => x[0] == y[0] && x[1] == y[1],
        _ => false,
    }
}

/// Two addresses have the same network prefix exactly where they are of
/// the same kind and begin with the same two bytes.
pub proof fn lemma_subnet_tells_networks_apart(a: PeerAddress, b: PeerAddress)
    ensures
        subnet_spec(a) == subnet_spec(b) <==> same_network(a, b),
{
}

/// The peer `id` at `address`, counted to the network of the first 16 bits
/// of its address.
pub fn peer_at(id: u64, address: PeerAddress) -> (peer: PeerInfo)
    ensures
        peer.id == id,
        peer.subnet == subnet_spec(address),
{
    let subnet: u32 = match address {
        PeerAddress::V4(o) => 256 * (o[0] as u32) + (o[1] as u32),
        PeerAddress::V6(o) => 0x0100_0000 + 256 * (o[0] as u32) + (o[1] as u32),
    };
    PeerInfo { id, subnet }
}

/// How many peers are needed, and how far below the tips the checkpoint lies.
#[derive(Debug, Clone, Copy, PartialEq, Eq)]
pub struct ConsensusConfig {
    /// The least number of peers of distinct networks.
    pub min_peers: usize,
    /// The least number of answers that a majority is taken of.
    pub quorum: usize,
    /// How many blocks below the median tip the checkpoint lies.
    pub safety_margin: Natural,
}

/// The commitment that one peer answered with.
#[derive(Debug, Clone, Copy, PartialEq, Eq)]
pub struct PeerCommitment {
    pub peer: PeerInfo,
    pub commitment: UtxoCommitment,
}

/// The commitment that the peers agree on.
#[derive(Debug, Clone, Copy, PartialEq, Eq)]
pub struct ConsensusResult {
    /// The commitment, as the first peer of the majority gave it.
    pub commitment: UtxoCommitment,
    /// The number of answers that name its root and block hash.
    pub agreement_count: usize,
    /// The number of answers.
    pub total_peers: usize,
}

/// The rules of agreement, with their configuration.
#[derive(Debug, Clone, Copy, PartialEq, Eq)]
pub struct PeerConsensus {
    pub config: ConsensusConfig,
}

impl Default for ConsensusConfig {
    fn default() -> (r: ConsensusConfig)
        ensures
            r == (ConsensusConfig { min_peers: 5, quorum: 5, safety_margin: 2016 }),
    {
        ConsensusConfig { min_peers: 5, quorum: 5, safety_margin: 2016 }
    }
}

/// Whether one of the peers lies in the network `subnet`.
pub open spec fn has_subnet(peers: Seq<PeerInfo>, subnet: u32) -> bool {
    exists|i: int| 0 <= i < peers.len() && (#[trigger] peers[i]).subnet == subnet
}

/// Of the first `n` peers, those that are the first of their network, in order.
pub open spec fn diverse_spec(peers: Seq<PeerInfo>, n: int) -> Seq<PeerInfo>
    decreases n,
{
    if n <= 0 {
        Seq::<PeerInfo>::empty()
    } else if has_subnet(diverse_spec(peers, n - 1), peers[n - 1].subnet) {
        diverse_spec(peers, n - 1)
    } else {
        diverse_spec(peers, n - 1).push(peers[n - 1])
    }
}

/// The height of the checkpoint for the given tips: the median of the
/// tips less the margin; 0 where there is no tip.
pub open spec fn checkpoint_spec(tips: Seq<u32>, margin: u32) -> u32 {
    match median_spec(tips) {
        Some(m) => below_by(m, margin),
        None => 0,
    }
}

/// The height that lies `margin` below `height`, and 0 where there is no such height.
pub open spec fn below_by(height: u32, margin: u32) -> u32 {
    if height > margin {
        (height - margin) as u32
    } else {
        0
    }
}

/// Whether two commitments name the same root and the same block hash.
pub open spec fn agrees(a: UtxoCommitment, b: UtxoCommitment) -> bool {
    a.root == b.root && a.block_hash == b.block_hash
}

/// The number of the first `n` answers that agree with `c`.
pub open spec fn count_agreeing(answers: Seq<PeerCommitment>, c: UtxoCommitment, n: int) -> int
    decreases n,
{
    if n <= 0 {
        0
    } else {
        count_agreeing(answers, c, n - 1) + (if agrees(answers[n - 1].commitment, c) { 1int } else { 0int })
    }
}

/// Whether the commitment of answer `i` is held by a strict majority of all answers.
pub open spec fn has_majority(answers: Seq<PeerCommitment>, i: int) -> bool {
    2 * count_agreeing(answers, answers[i].commitment, answers.len() as int) > answers.len()
}

/// Whether index `i` is the first answer whose commitment a strict
/// majority of the answers hold.
pub open spec fn first_majority(answers: Seq<PeerCommitment>, i: int) -> bool {
    0 <= i < answers.len() && has_majority(answers, i) && forall|j: int|
        0 <= j < i ==> !has_majority(answers, j)
}

/// Whether the local chain of headers has, at the height of the commitment,
/// the block that the commitment names.
pub open spec fn header_matches(commitment: UtxoCommitment, headers: Seq<BlockHeader>) -> bool {
    commitment.height < headers.len() && block_hash_spec(headers[commitment.height as int])
        == commitment.block_hash
}

fn commitments_agree(a: &UtxoCommitment, b: &UtxoCommitment) -> (r: bool)
    ensures
        r == agrees(*a, *b),
{
    hash_eq(&a.root, &b.root) && hash_eq(&a.block_hash, &b.block_hash)
}

impl PeerConsensus {
    /// The rules with the given configuration.
    pub fn new(config: ConsensusConfig) -> (r: PeerConsensus)
        ensures
            r.config == config,
    {
        PeerConsensus { config }
    }

    /// Of the peers, those that are the first of their network, in the
    /// order given: no two of the result lie in one network.
    pub fn discover_diverse_peers(&self, all_peers: Vec<PeerInfo>) -> (r: Vec<PeerInfo>)
        ensures
            r@ == diverse_spec(all_peers@, all_peers@.len() as int),
            forall|i: int, j: int| 0 <= i < j < r@.len() ==> r@[i].subnet != r@[j].subnet,
    {
        let mut chosen: Vec<PeerInfo> = Vec::new();
        let mut i: usize = 0;
        while i < all_peers.len()
            invariant
                i <= all_peers@.len(),
                chosen@ == diverse_spec(all_peers@, i as int),
                forall|a: int, b: int| 0 <= a < b < chosen@.len() ==> chosen@[a].subnet != chosen@[b].subnet,
            decreases all_peers@.len() - i,
        {
            let peer = all_peers[i];
            let mut seen = false;
            let mut k: usize = 0;
            while k < chosen.len()
                invariant
                    k <= chosen@.len(),
                    seen == (exists|j: int| 0 <= j < k && (#[trigger] chosen@[j]).subnet == peer.subnet),
                decreases chosen@.len() - k,
            {
                if chosen[k].subnet == peer.subnet {
                    seen = true;
                }
                k += 1;
            }
            if !seen {
                chosen.push(peer);
            }
            i += 1;
        }
        chosen
    }

    /// The height of the checkpoint: the median of the tips of the peers,
    /// that is the tip of rank `n / 2` in ascending order, less the safety
    /// margin, and 0 where the median is not above the margin or there is
    /// no tip.
    pub fn determine_checkpoint_height(&self, peer_tips: Vec<Natural>) -> (r: Natural)
        ensures
            r == checkpoint_spec(peer_tips@, self.config.safety_margin),
            peer_tips@.len() > 0 ==> median_spec(peer_tips@) is Some,
    {
        match median(peer_tips.as_slice()) {
            Some(m) => {
                if m > self.config.safety_margin {
                    m - self.config.safety_margin
                } else {
                    0
                }
            },
            None => 0,
        }
    }

    /// The commitment that the answers agree on.
    ///
    /// Succeeds where there are at least as many answers as the quorum and
    /// the root and block hash of one of them are named by more than half
    /// of all answers: the result is that commitment as its first holder
    /// gave it, with the number of answers that agree. Fails with
    /// `InsufficientConsensus` otherwise.
    pub fn find_consensus(&self, peer_commitments: Vec<PeerCommitment>) -> (r: Result<
        ConsensusResult,
        UtxoCommitmentError,
    >)
        ensures
            match r {
                Ok(res) => peer_commitments@.len() >= self.config.quorum && res.total_peers
                    == peer_commitments@.len() && exists|i: int|
                    #[trigger] first_majority(peer_commitments@, i) && res.commitment
                        == peer_commitments@[i].commitment && res.agreement_count == count_agreeing(
                        peer_commitments@,
                        peer_commitments@[i].commitment,
                        peer_commitments@.len() as int,
                    ),
                Err(e) => e == (UtxoCommitmentError::InsufficientConsensus {
                    responses: peer_commitments@.len() as usize,
                    quorum: self.config.quorum,
                }) && (peer_commitments@.len() < self.config.quorum || forall|i: int|
                    0 <= i < peer_commitments@.len() ==> !has_majority(peer_commitments@, i)),
            },
    {
        let n = peer_commitments.len();
        if n < self.config.quorum {
            return Err(
                UtxoCommitmentError::InsufficientConsensus { responses: n, quorum: self.config.quorum },
            );
        }
        let mut i: usize = 0;
        while i < n
            invariant
                i <= n,
                n == peer_commitments@.len(),
                n >= self.config.quorum,
                forall|j: int| 0 <= j < i ==> !has_majority(peer_commitments@, j),
            decreases n - i,
        {
            let candidate = peer_commitments[i].commitment;
            let mut count: usize = 0;
            let mut k: usize = 0;
            while k < n
                invariant
                    k <= n,
                    n == peer_commitments@.len(),
                    count == count_agreeing(peer_commitments@, candidate, k as int),
                    count <= k,
                decreases n - k,
            {
                if commitments_agree(&peer_commitments[k].commitment, &candidate) {
                    count += 1;
                }
                k += 1;
            }
            if count > n - count {
                assert(has_majority(peer_commitments@, i as int));
                assert(first_majority(peer_commitments@, i as int));
                return Ok(ConsensusResult { commitment: candidate, agreement_count: count, total_peers: n });
            }
            i += 1;
        }
        Err(UtxoCommitmentError::InsufficientConsensus { responses: n, quorum: self.config.quorum })
    }

    /// Checks the agreed commitment against the local chain of headers,
    /// whose first header is at height 0.
    ///
    /// Succeeds exactly where the chain reaches the height of the
    /// commitment and the header there has the hash that the commitment
    /// names; fails with `CheckpointHeaderMismatch` otherwise.
    pub fn verify_consensus_commitment(&self, consensus: &ConsensusResult, header_chain: &[BlockHeader]) -> (r:
        Result<(), UtxoCommitmentError>)
        ensures
            match r {
                Ok(_) => header_matches(consensus.commitment, header_chain@),
                Err(e) => !header_matches(consensus.commitment, header_chain@) && e
                    == UtxoCommitmentError::CheckpointHeaderMismatch,
            },
    {
        let height = consensus.commitment.height as usize;
        if height >= header_chain.len() {
            return Err(UtxoCommitmentError::CheckpointHeaderMismatch);
        }
        let hash = compute_block_hash(&header_chain[height]);
        if hash_eq(&hash, &consensus.commitment.block_hash) {
            Ok(())
        } else {
            Err(UtxoCommitmentError::CheckpointHeaderMismatch)
        }
    }
}

} // verus!
