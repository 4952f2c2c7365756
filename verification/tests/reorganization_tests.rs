use bllvm_consensus::block::BlockUndo;
use bllvm_consensus::reorganization::{calculate_chain_work, calculate_tx_id, disconnect_block, expand_target, find_common_ancestor, reorganize_chain, should_reorganize};
use bllvm_consensus::types::{Block, BlockHeader, OutPoint, Transaction, TransactionInput, TransactionOutput, UTXO};
use bllvm_consensus::utxo_set::UtxoSet;

#[test]
fn test_should_reorganize_longer_chain() {
    let new_chain = vec![create_test_block(), create_test_block()];
    let current_chain = vec![create_test_block()];

    assert!(should_reorganize(&new_chain, &current_chain).unwrap());
}

#[test]
fn test_should_reorganize_same_length_more_work() {
    let mut new_chain = vec![create_test_block()];
    let mut current_chain = vec![create_test_block()];

    new_chain[0].header.bits = 0x0200ffff;
    current_chain[0].header.bits = 0x0300ffff;

    assert!(should_reorganize(&new_chain, &current_chain).unwrap());
}

#[test]
fn test_should_not_reorganize_shorter_chain() {
    let new_chain = vec![create_test_block()];
    let current_chain = vec![create_test_block(), create_test_block()];

    assert!(!should_reorganize(&new_chain, &current_chain).unwrap());
}

#[test]
fn test_find_common_ancestor() {
    let new_chain = vec![create_test_block()];
    let current_chain = vec![create_test_block()];

    let ancestor = find_common_ancestor(&new_chain, &current_chain).unwrap();
    assert_eq!(ancestor.version, 1);
}

#[test]
fn test_find_common_ancestor_empty_chain() {
    let new_chain: Vec<Block> = vec![];
    let current_chain = vec![create_test_block()];

    let result = find_common_ancestor(&new_chain, &current_chain);
    assert!(result.is_err());
}

#[test]
fn test_calculate_chain_work() {
    let chain = vec![create_test_block()];
    let work = calculate_chain_work(&chain).unwrap();
    assert!(work > 0);
}

#[test]
fn test_reorganize_chain() {
    let new_chain = vec![create_test_block()];
    let current_chain = vec![create_test_block()];
    let mut utxo_set = UtxoSet::new();
    let undo = vec![BlockUndo::new()];

    let result = reorganize_chain(&new_chain, &current_chain, &undo, &mut utxo_set, 1);
    match result {
        Ok(reorg_result) => {
            assert_eq!(reorg_result.new_height, 1);
            assert_eq!(reorg_result.connected_blocks.len(), 0);
        },
        Err(_) => {
        }
    }
}

#[test]
fn test_reorganize_chain_deep_reorg() {
    let new_chain = vec![create_test_block(), create_test_block(), create_test_block()];
    let current_chain = vec![create_test_block(), create_test_block()];
    let mut utxo_set = UtxoSet::new();
    let undo = vec![BlockUndo::new(), BlockUndo::new()];

    let result = reorganize_chain(&new_chain, &current_chain, &undo, &mut utxo_set, 2);
    match result {
        Ok(reorg_result) => {
            assert_eq!(reorg_result.connected_blocks.len(), 3);
            assert_eq!(reorg_result.reorganization_depth, 2);
        },
        Err(_) => {
        }
    }
}

#[test]
fn test_reorganize_chain_empty_new_chain() {
    let new_chain: Vec<Block> = vec![];
    let current_chain = vec![create_test_block()];
    let mut utxo_set = UtxoSet::new();
    let undo = vec![BlockUndo::new()];

    let result = reorganize_chain(&new_chain, &current_chain, &undo, &mut utxo_set, 1);
    assert!(result.is_err());
}

#[test]
fn test_reorganize_chain_empty_current_chain() {
    let new_chain = vec![create_test_block()];
    let current_chain: Vec<Block> = vec![];
    let mut utxo_set = UtxoSet::new();
    let undo: Vec<BlockUndo> = vec![];

    let result = reorganize_chain(&new_chain, &current_chain, &undo, &mut utxo_set, 0);
    assert!(result.is_err());
}

#[test]
fn test_disconnect_block() {
    let block = create_test_block();
    let mut utxo_set = UtxoSet::new();

    let tx_id = calculate_tx_id(&block.transactions[0]);
    let outpoint = OutPoint { hash: tx_id, index: 0 };
    let utxo = UTXO {
        value: 50_000_000_000,
        script_pubkey: vec![0x51],
        height: 1,
    };
    utxo_set.insert(outpoint, utxo);

    let result = disconnect_block(&block, utxo_set, &BlockUndo::new(), 1);
    assert!(result.is_ok());
}

#[test]
fn test_calculate_chain_work_empty_chain() {
    let chain: Vec<Block> = vec![];
    let work = calculate_chain_work(&chain).unwrap();
    assert_eq!(work, 0);
}

#[test]
fn test_calculate_chain_work_multiple_blocks() {
    let mut chain = vec![create_test_block(), create_test_block()];
    chain[1].header.bits = 0x0200ffff;

    let work = calculate_chain_work(&chain).unwrap();
    assert!(work > 0);
}

#[test]
fn test_expand_target_edge_cases() {
    let result = expand_target(0x00000000);
    assert!(result.is_ok());

    let result = expand_target(0x03ffffff);
    assert!(result.is_ok());

    let result = expand_target(0x10000000);
    assert!(result.is_err());
}

#[test]
fn test_calculate_tx_id_different_transactions() {
    let tx1 = Transaction {
        version: 1,
        inputs: vec![],
        outputs: vec![],
        lock_time: 0,
    };

    let tx2 = Transaction {
        version: 2,
        inputs: vec![],
        outputs: vec![],
        lock_time: 0,
    };

    let id1 = calculate_tx_id(&tx1);
    let id2 = calculate_tx_id(&tx2);

    assert_ne!(id1, id2);
}

fn create_test_block() -> Block {
    Block {
        header: BlockHeader {
            version: 1,
            prev_block_hash: [0; 32],
            merkle_root: [0; 32],
            timestamp: 1231006505,
            bits: 0x0300ffff,
            nonce: 0,
        },
        transactions: vec![Transaction {
            version: 1,
            inputs: vec![TransactionInput {
                prevout: OutPoint { hash: [0; 32], index: 0xffffffff },
                script_sig: vec![0x51],
                sequence: 0xffffffff,
            }],
            outputs: vec![TransactionOutput {
                value: 50_000_000_000,
                script_pubkey: vec![0x51],
            }],
            lock_time: 0,
        }],
    }
}
