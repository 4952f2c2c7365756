use bllvm_consensus::block::calculate_tx_id;
use bllvm_consensus::serialization::compute_block_hash;
use bllvm_consensus::types::{BlockHeader, OutPoint, Transaction, TransactionInput, TransactionOutput, UTXO};
use bllvm_consensus::utxo_commitments::initial_sync::{apply_transaction, tree_fee};
use bllvm_consensus::utxo_commitments::merkle_tree::{outpoint_key, utxo_leaf};
use bllvm_consensus::utxo_commitments::{
    peer_at, PeerAddress,
    ConsensusConfig, ConsensusResult, InitialSync, PeerCommitment, PeerConsensus, PeerInfo, SpamFilter,
    SpamFilterConfig, SpamKind, SpamSummary, UtxoCommitment, UtxoCommitmentError, UtxoMerkleTree,
    VerificationFailure,
};
use bllvm_consensus::utxo_set::UtxoEntry;
use sha2::{Digest, Sha256};

fn utxo(value: i64, height: u32) -> UTXO {
    UTXO { value, script_pubkey: vec![0x51, value as u8], height }
}

fn point(tag: u8, index: u32) -> OutPoint {
    OutPoint { hash: [tag; 32], index }
}

fn sha(data: &[u8]) -> [u8; 32] {
    Sha256::digest(data).into()
}

fn pair(left: &[u8; 32], right: &[u8; 32]) -> [u8; 32] {
    let mut both = left.to_vec();
    both.extend_from_slice(right);
    sha(&both)
}

#[test]
fn test_commitment_root_independent_of_insertion_order() {
    let x = (point(1, 0), utxo(10, 1));
    let y = (point(2, 5), utxo(20, 2));
    let z = (point(3, 9), utxo(30, 3));
    let mut forward = UtxoMerkleTree::new();
    for (p, u) in [&x, &y, &z] {
        forward.insert(*p, u.clone());
    }
    let mut backward = UtxoMerkleTree::new();
    for (p, u) in [&z, &y, &x] {
        backward.insert(*p, u.clone());
    }
    assert_eq!(forward.root(), backward.root());
    assert_eq!(forward.utxo_count(), 3);

    // the root depends on the contents
    let mut other = UtxoMerkleTree::new();
    other.insert(x.0, x.1.clone());
    other.insert(y.0, y.1.clone());
    assert_ne!(other.root(), forward.root());
    other.insert(z.0, utxo(31, 3));
    assert_ne!(other.root(), forward.root());
    other.insert(z.0, z.1.clone());
    assert_eq!(other.root(), forward.root());

    // what was put in and taken out again leaves no trace
    let extra = point(4, 0);
    other.insert(extra, utxo(1, 1));
    assert_ne!(other.root(), forward.root());
    assert_eq!(other.remove(&extra), Some(utxo(1, 1)));
    assert_eq!(other.remove(&extra), None);
    assert_eq!(other.root(), forward.root());
}

#[test]
fn test_empty_tree_root_is_the_level_constant() {
    let mut level = [0u8; 32];
    for _ in 0..256 {
        level = pair(&level, &level);
    }
    assert_eq!(UtxoMerkleTree::new().root(), level);
    assert_eq!(UtxoMerkleTree::new().utxo_count(), 0);
}

#[test]
fn test_single_leaf_root() {
    let p = point(7, 3);
    let u = utxo(1234, 77);
    let mut key_bytes = vec![7u8; 32];
    key_bytes.extend_from_slice(&3u32.to_le_bytes());
    let key = sha(&key_bytes);
    assert_eq!(outpoint_key(&p), key);
    let mut leaf_bytes = 1234i64.to_le_bytes().to_vec();
    leaf_bytes.extend_from_slice(&77u32.to_le_bytes());
    leaf_bytes.push(2);
    leaf_bytes.extend_from_slice(&[0x51, 1234i64 as u8]);
    let leaf = sha(&leaf_bytes);
    assert_eq!(utxo_leaf(&u), leaf);

    let mut empties = vec![[0u8; 32]];
    for d in 0..256 {
        let last = empties[d];
        empties.push(pair(&last, &last));
    }
    let mut node = leaf;
    for depth in (0..256).rev() {
        let bit = (key[depth / 8] >> (7 - depth % 8)) & 1;
        let sibling = empties[255 - depth];
        node = if bit == 1 { pair(&sibling, &node) } else { pair(&node, &sibling) };
    }
    let mut tree = UtxoMerkleTree::new();
    assert_eq!(tree.insert(p, u.clone()), node);
    assert_eq!(tree.root(), node);
    assert_eq!(tree.get(&p), Some(&u));
    assert_eq!(tree.get(&point(7, 4)), None);
    let commitment = tree.generate_commitment([9; 32], 500);
    assert_eq!(commitment, UtxoCommitment { root: node, height: 500, block_hash: [9; 32], utxo_count: 1 });
}

fn peer(id: u64, subnet: u32) -> PeerInfo {
    PeerInfo { id, subnet }
}

fn config(min_peers: usize, quorum: usize, safety_margin: u32) -> ConsensusConfig {
    ConsensusConfig { min_peers, quorum, safety_margin }
}

#[test]
fn test_peer_at_counts_the_first_sixteen_bits() {
    assert_eq!(peer_at(7, PeerAddress::V4([10, 1, 2, 3])), peer(7, 0x0a01));
    assert_eq!(peer_at(8, PeerAddress::V4([10, 1, 200, 9])).subnet, 0x0a01);
    assert_eq!(peer_at(9, PeerAddress::V4([10, 2, 2, 3])).subnet, 0x0a02);
    assert_eq!(peer_at(9, PeerAddress::V4([255, 255, 0, 0])).subnet, 0xffff);
    assert_eq!(peer_at(9, PeerAddress::V4([0, 0, 0, 0])).subnet, 0);
    let mut long = [0u8; 16];
    long[0] = 0x20;
    long[1] = 0x01;
    long[15] = 1;
    assert_eq!(peer_at(1, PeerAddress::V6(long)), peer(1, 0x0100_2001));
    long[2] = 0xdb;
    assert_eq!(peer_at(2, PeerAddress::V6(long)).subnet, 0x0100_2001);
    long[1] = 0x02;
    assert_eq!(peer_at(2, PeerAddress::V6(long)).subnet, 0x0100_2002);
    // an address of 16 bytes is never of the network of one of 4 bytes
    let mut low = [0u8; 16];
    low[0] = 10;
    low[1] = 1;
    assert_ne!(peer_at(1, PeerAddress::V6(low)).subnet, peer_at(1, PeerAddress::V4([10, 1, 0, 0])).subnet);
    let rules = PeerConsensus::new(config(1, 1, 0));
    let chosen = rules.discover_diverse_peers(vec![
        peer_at(1, PeerAddress::V4([10, 1, 2, 3])),
        peer_at(2, PeerAddress::V4([10, 1, 9, 9])),
        peer_at(3, PeerAddress::V6(low)),
        peer_at(4, PeerAddress::V4([10, 2, 2, 3])),
    ]);
    assert_eq!(chosen.iter().map(|p| p.id).collect::<Vec<u64>>(), vec![1, 3, 4]);
}

#[test]
fn test_diverse_peers_keeps_first_of_each_network() {
    let rules = PeerConsensus::new(config(1, 1, 0));
    let chosen = rules.discover_diverse_peers(vec![peer(1, 10), peer(2, 10), peer(3, 20), peer(4, 10), peer(5, 30), peer(6, 20)]);
    assert_eq!(chosen, vec![peer(1, 10), peer(3, 20), peer(5, 30)]);
    assert!(rules.discover_diverse_peers(vec![]).is_empty());
}

#[test]
fn test_checkpoint_is_median_less_margin() {
    let rules = PeerConsensus::new(config(1, 1, 5));
    assert_eq!(rules.determine_checkpoint_height(vec![10, 30, 20]), 15);
    assert_eq!(rules.determine_checkpoint_height(vec![100, 7, 7, 100]), 95);
    assert_eq!(rules.determine_checkpoint_height(vec![42]), 37);
    assert_eq!(rules.determine_checkpoint_height(vec![3, 4, 5]), 0);
    assert_eq!(rules.determine_checkpoint_height(vec![5, 5, 5, 5, 5]), 0);
    assert_eq!(rules.determine_checkpoint_height(vec![]), 0);
    assert_eq!(ConsensusConfig::default(), config(5, 5, 2016));
}

fn commitment(root: u8, block: u8, height: u32, count: u64) -> UtxoCommitment {
    UtxoCommitment { root: [root; 32], height, block_hash: [block; 32], utxo_count: count }
}

fn answer(id: u64, c: UtxoCommitment) -> PeerCommitment {
    PeerCommitment { peer: peer(id, id as u32), commitment: c }
}

#[test]
fn test_find_consensus_needs_strict_majority() {
    let rules = PeerConsensus::new(config(1, 3, 0));
    let good = commitment(1, 2, 10, 100);
    let bad = commitment(3, 2, 10, 100);
    let result = rules.find_consensus(vec![answer(1, bad), answer(2, good), answer(3, good), answer(4, good)]);
    assert_eq!(result, Ok(ConsensusResult { commitment: good, agreement_count: 3, total_peers: 4 }));
    // exactly half is no majority
    assert_eq!(
        rules.find_consensus(vec![answer(1, bad), answer(2, good), answer(3, good), answer(4, bad)]),
        Err(UtxoCommitmentError::InsufficientConsensus { responses: 4, quorum: 3 })
    );
    // too few answers
    assert_eq!(
        rules.find_consensus(vec![answer(1, good), answer(2, good)]),
        Err(UtxoCommitmentError::InsufficientConsensus { responses: 2, quorum: 3 })
    );
    // agreement is on root and block hash
    let other_count = commitment(1, 2, 11, 7);
    assert_eq!(
        rules.find_consensus(vec![answer(1, good), answer(2, other_count), answer(3, bad)]),
        Ok(ConsensusResult { commitment: good, agreement_count: 2, total_peers: 3 })
    );
}

fn header(nonce: u32) -> BlockHeader {
    BlockHeader { version: 1, prev_block_hash: [0; 32], merkle_root: [0; 32], timestamp: 1, bits: 0x0300ffff, nonce }
}

#[test]
fn test_verify_consensus_commitment_checks_header() {
    let rules = PeerConsensus::new(config(1, 1, 0));
    let headers = vec![header(0), header(1), header(2)];
    let at = |height: u32, hash: [u8; 32]| ConsensusResult {
        commitment: UtxoCommitment { root: [1; 32], height, block_hash: hash, utxo_count: 0 },
        agreement_count: 1,
        total_peers: 1,
    };
    assert_eq!(rules.verify_consensus_commitment(&at(1, compute_block_hash(&headers[1])), &headers), Ok(()));
    assert_eq!(
        rules.verify_consensus_commitment(&at(1, compute_block_hash(&headers[2])), &headers),
        Err(UtxoCommitmentError::CheckpointHeaderMismatch)
    );
    assert_eq!(
        rules.verify_consensus_commitment(&at(3, compute_block_hash(&headers[2])), &headers),
        Err(UtxoCommitmentError::CheckpointHeaderMismatch)
    );
}

#[test]
fn test_initial_sync_plan_and_conclusion() {
    let sync = InitialSync::new(config(2, 3, 1));
    let headers = vec![header(0), header(1), header(2), header(3)];
    let peers = vec![peer(1, 1), peer(2, 1), peer(3, 2)];

    let plan = sync.plan_initial_sync(peers.clone(), vec![], &headers).unwrap();
    assert_eq!(plan.peers, vec![peer(1, 1), peer(3, 2)]);
    assert_eq!(plan.checkpoint_height, 2);
    assert_eq!(plan.checkpoint_hash, compute_block_hash(&headers[2]));

    let from_tips = sync.plan_initial_sync(peers.clone(), vec![4, 2, 3], &headers).unwrap();
    assert_eq!(from_tips.checkpoint_height, 2);

    assert_eq!(
        sync.plan_initial_sync(vec![peer(1, 1), peer(2, 1)], vec![], &headers).err(),
        Some(UtxoCommitmentError::VerificationFailed(VerificationFailure::InsufficientDiversePeers { got: 1, need: 2 }))
    );
    assert_eq!(
        sync.plan_initial_sync(peers.clone(), vec![], &[]).err(),
        Some(UtxoCommitmentError::VerificationFailed(VerificationFailure::NoHeaderChain))
    );
    assert_eq!(
        sync.plan_initial_sync(peers.clone(), vec![9, 9, 9], &headers).err(),
        Some(UtxoCommitmentError::VerificationFailed(VerificationFailure::CheckpointBeyondHeaders { checkpoint: 8, headers: 4 }))
    );

    let good = UtxoCommitment { root: [1; 32], height: 2, block_hash: plan.checkpoint_hash, utxo_count: 5 };
    let bad = UtxoCommitment { root: [2; 32], height: 2, block_hash: plan.checkpoint_hash, utxo_count: 5 };
    assert_eq!(
        sync.conclude_initial_sync(&plan, vec![answer(1, good), answer(2, bad), answer(3, good)], &headers),
        Ok(good)
    );
    assert_eq!(
        sync.conclude_initial_sync(&plan, vec![answer(1, good), answer(2, bad)], &headers),
        Err(UtxoCommitmentError::InsufficientConsensus { responses: 2, quorum: 3 })
    );
    let elsewhere = UtxoCommitment { root: [1; 32], height: 1, block_hash: compute_block_hash(&headers[1]), utxo_count: 5 };
    assert_eq!(
        sync.conclude_initial_sync(&plan, vec![answer(1, elsewhere), answer(2, elsewhere), answer(3, elsewhere)], &headers),
        Err(UtxoCommitmentError::CheckpointHeaderMismatch)
    );
    let wrong_block = UtxoCommitment { root: [1; 32], height: 2, block_hash: [7; 32], utxo_count: 5 };
    assert_eq!(
        sync.conclude_initial_sync(&plan, vec![answer(1, wrong_block), answer(2, wrong_block), answer(3, wrong_block)], &headers),
        Err(UtxoCommitmentError::CheckpointHeaderMismatch)
    );
}

#[test]
fn test_rebuilt_root_is_the_same_in_every_order() {
    let sync = InitialSync::new(config(1, 1, 0));
    let entries: Vec<UtxoEntry> = (0..4u8)
        .map(|n| UtxoEntry { outpoint: point(n, n as u32), utxo: utxo(10 + n as i64, n as u32), coinbase: n % 2 == 0 })
        .collect();
    let mut tree = UtxoMerkleTree::new();
    for e in entries.iter() {
        tree.insert_entry(e.clone());
    }
    let agreed = tree.generate_commitment([5; 32], 9);
    // all 24 orders of the four entries
    let mut orders = 0;
    for a in 0..4 {
        for b in 0..4 {
            for c in 0..4 {
                for d in 0..4 {
                    let picked = [a, b, c, d];
                    if (0..4).all(|n| picked.contains(&n)) {
                        let list: Vec<UtxoEntry> = picked.iter().map(|&n| entries[n].clone()).collect();
                        let rebuilt = sync.rebuild_and_verify(&list, &agreed).unwrap();
                        assert_eq!(rebuilt.root(), agreed.root);
                        assert_eq!(rebuilt.utxo_count(), 4);
                        orders += 1;
                    }
                }
            }
        }
    }
    assert_eq!(orders, 24);
    // another set has another root
    let fewer: Vec<UtxoEntry> = entries[..3].to_vec();
    assert_eq!(sync.rebuild_and_verify(&fewer, &agreed).err(), Some(UtxoCommitmentError::RootMismatch));
}

#[test]
fn test_rebuild_and_verify() {
    let sync = InitialSync::new(config(1, 1, 0));
    let entries = vec![
        UtxoEntry { outpoint: point(1, 0), utxo: utxo(10, 1), coinbase: false },
        UtxoEntry { outpoint: point(2, 1), utxo: utxo(20, 2), coinbase: true },
    ];
    let mut tree = UtxoMerkleTree::new();
    tree.insert(point(2, 1), utxo(20, 2));
    tree.insert(point(1, 0), utxo(10, 1));
    let agreed = tree.generate_commitment([5; 32], 9);
    let rebuilt = sync.rebuild_and_verify(&entries, &agreed).unwrap();
    assert_eq!(rebuilt.root(), agreed.root);
    assert_eq!(rebuilt.get(&point(2, 1)), Some(&utxo(20, 2)));
    assert_eq!(
        sync.rebuild_and_verify(&entries[..1], &agreed).err(),
        Some(UtxoCommitmentError::RootMismatch)
    );
    let mut miscounted = agreed;
    miscounted.utxo_count = 3;
    assert_eq!(sync.rebuild_and_verify(&entries, &miscounted).err(), Some(UtxoCommitmentError::RootMismatch));
    assert_eq!(UtxoCommitmentError::RootMismatch.reason(), "Commitment root mismatch");
}

fn tx(inputs: Vec<OutPoint>, outputs: Vec<(i64, Vec<u8>)>) -> Transaction {
    Transaction {
        version: 2,
        inputs: inputs
            .into_iter()
            .map(|prevout| TransactionInput { prevout, script_sig: vec![], sequence: 0 })
            .collect(),
        outputs: outputs
            .into_iter()
            .map(|(value, script_pubkey)| TransactionOutput { value, script_pubkey })
            .collect(),
        lock_time: 0,
    }
}

#[test]
fn test_spam_filter_classification() {
    let filter = SpamFilter::with_config(SpamFilterConfig { filter_op_return: true, min_fee: 100 });
    let data_only = tx(vec![point(1, 0)], vec![(0, vec![0x6a, 1, 2]), (0, vec![0x6a])]);
    let mixed = tx(vec![point(1, 0)], vec![(0, vec![0x6a]), (5, vec![0x51])]);
    let coinbase = tx(vec![OutPoint { hash: [0; 32], index: 0xffffffff }], vec![(0, vec![0x6a])]);
    assert_eq!(filter.classify(&data_only, Some(1_000)), Some(SpamKind::OpReturnOnly));
    assert_eq!(filter.classify(&mixed, Some(100)), None);
    assert_eq!(filter.classify(&mixed, Some(99)), Some(SpamKind::LowFee));
    assert_eq!(filter.classify(&mixed, None), None);
    assert_eq!(filter.classify(&coinbase, Some(0)), None);
    assert!(SpamFilter::is_op_return_only(&data_only));
    assert!(!SpamFilter::is_op_return_only(&mixed));
    assert!(!SpamFilter::is_op_return_only(&tx(vec![point(1, 0)], vec![])));
    assert!(!SpamFilter::is_op_return_only(&tx(vec![point(1, 0)], vec![(0, vec![])])));

    let off = SpamFilter::with_config(SpamFilterConfig { filter_op_return: false, min_fee: 0 });
    assert_eq!(off.classify(&data_only, Some(0)), None);
    assert_eq!(SpamFilterConfig::default(), SpamFilterConfig { filter_op_return: true, min_fee: 0 });

    let (kept, summary) = SpamFilter::new().filter_block(&[mixed.clone(), data_only.clone(), coinbase.clone()]);
    assert_eq!(kept, vec![mixed, coinbase]);
    assert_eq!(summary, SpamSummary { total: 3, kept: 2, filtered_op_return: 1, filtered_low_fee: 0 });
}

#[test]
fn test_process_filtered_block_replays_what_is_kept() {
    let sync = InitialSync::with_spam_filter(config(1, 1, 0), SpamFilterConfig { filter_op_return: true, min_fee: 10 });
    let mut tree = UtxoMerkleTree::new();
    tree.insert(point(1, 0), utxo(100, 1));
    tree.insert(point(2, 0), utxo(50, 1));
    tree.insert(point(3, 0), utxo(5, 1));

    let pays = tx(vec![point(1, 0)], vec![(60, vec![0x51]), (20, vec![0x52])]);
    let cheap = tx(vec![point(2, 0)], vec![(45, vec![0x51])]);
    let data = tx(vec![point(3, 0)], vec![(0, vec![0x6a, 9])]);
    assert_eq!(tree_fee(&tree, &pays), Some(20));
    assert_eq!(tree_fee(&tree, &cheap), Some(5));
    assert_eq!(tree_fee(&tree, &tx(vec![point(9, 0)], vec![(1, vec![])])), None);

    let (summary, root) = sync.process_filtered_block(&mut tree, 7, &[pays.clone(), cheap, data]).unwrap();
    assert_eq!(summary, SpamSummary { total: 3, kept: 1, filtered_op_return: 1, filtered_low_fee: 1 });
    assert_eq!(root, tree.root());

    let mut expected = UtxoMerkleTree::new();
    expected.insert(point(2, 0), utxo(50, 1));
    expected.insert(point(3, 0), utxo(5, 1));
    let id = calculate_tx_id(&pays);
    expected.insert(OutPoint { hash: id, index: 0 }, UTXO { value: 60, script_pubkey: vec![0x51], height: 7 });
    expected.insert(OutPoint { hash: id, index: 1 }, UTXO { value: 20, script_pubkey: vec![0x52], height: 7 });
    assert_eq!(root, expected.root());
    assert_eq!(tree.utxo_count(), 4);
    assert_eq!(tree.get(&point(1, 0)), None);

    let mut again = UtxoMerkleTree::new();
    apply_transaction(&mut again, &pays, 7);
    assert_eq!(again.utxo_count(), 2);
    assert_eq!(again.get(&OutPoint { hash: id, index: 1 }), Some(&UTXO { value: 20, script_pubkey: vec![0x52], height: 7 }));
}

#[test]
fn test_process_committed_block_checks_the_root() {
    let sync = InitialSync::new(config(1, 1, 0));
    let fill = |tree: &mut UtxoMerkleTree| {
        tree.insert(point(1, 0), utxo(100, 1));
        tree.insert(point(2, 0), utxo(50, 1));
    };
    let pays = tx(vec![point(1, 0)], vec![(60, vec![0x51]), (20, vec![0x52])]);
    let also = tx(vec![point(2, 0), point(8, 8)], vec![(45, vec![0x51])]);
    let block = vec![pays.clone(), also.clone()];

    let mut reference = UtxoMerkleTree::new();
    fill(&mut reference);
    let before = reference.root();
    let (_, agreed) = sync.process_filtered_block(&mut reference, 9, &block).unwrap();
    assert_ne!(agreed, before);

    let mut tree = UtxoMerkleTree::new();
    fill(&mut tree);
    let mut wrong = agreed;
    wrong[5] ^= 1;
    assert_eq!(
        sync.process_committed_block(&mut tree, 9, &block, &wrong),
        Err(UtxoCommitmentError::RootMismatch)
    );
    assert_eq!(tree.root(), before);
    assert_eq!(tree.utxo_count(), 2);
    assert_eq!(tree.get(&point(1, 0)), Some(&utxo(100, 1)));
    assert_eq!(tree.get(&point(2, 0)), Some(&utxo(50, 1)));

    let (summary, root) = sync.process_committed_block(&mut tree, 9, &block, &agreed).unwrap();
    assert_eq!(root, agreed);
    assert_eq!(summary, SpamSummary { total: 2, kept: 2, filtered_op_return: 0, filtered_low_fee: 0 });
    assert_eq!(tree.utxo_count(), 3);
    assert_eq!(tree.get(&point(1, 0)), None);
}
