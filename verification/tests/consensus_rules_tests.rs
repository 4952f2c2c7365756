use bllvm_consensus::block::{connect_block, disconnect_block, BlockUndo};
use bllvm_consensus::constants::{MAX_INPUTS, MAX_MONEY, MAX_OUTPUTS, MAX_SCRIPT_OPS, MAX_STACK_SIZE};
use bllvm_consensus::error::{ConsensusError, PowError, RuleViolation, ScriptError};
use bllvm_consensus::reorganization::{
    calculate_chain_work, calculate_tx_id, expand_target, find_common_ancestor, header_work,
    reorganize_chain, should_reorganize,
};
use bllvm_consensus::script::{eval_script, run_script, verify_script, ScriptRun};
use bllvm_consensus::serialization::compute_block_hash;
use bllvm_consensus::transaction::{check_transaction, check_tx_inputs, is_coinbase};
use bllvm_consensus::types::{
    Block, BlockHeader, InvalidReason, OutPoint, Transaction, TransactionInput, TransactionOutput,
    ValidationResult, UTXO,
};
use bllvm_consensus::utxo_set::UtxoSet;

fn input(hash: [u8; 32], index: u32) -> TransactionInput {
    TransactionInput { prevout: OutPoint { hash, index }, script_sig: vec![], sequence: 0xffffffff }
}

fn output(value: i64) -> TransactionOutput {
    TransactionOutput { value, script_pubkey: vec![0x51] }
}

fn coinbase(tag: u8, value: i64) -> Transaction {
    Transaction {
        version: 1,
        inputs: vec![TransactionInput {
            prevout: OutPoint { hash: [0; 32], index: 0xffffffff },
            script_sig: vec![tag],
            sequence: 0xffffffff,
        }],
        outputs: vec![output(value)],
        lock_time: 0,
    }
}

fn spend(prev: OutPoint, values: Vec<i64>) -> Transaction {
    Transaction {
        version: 1,
        inputs: vec![TransactionInput { prevout: prev, script_sig: vec![0x51], sequence: 0xffffffff }],
        outputs: values.into_iter().map(output).collect(),
        lock_time: 0,
    }
}

fn block_on(prev: [u8; 32], nonce: u32, transactions: Vec<Transaction>) -> Block {
    Block {
        header: BlockHeader {
            version: 1,
            prev_block_hash: prev,
            merkle_root: [0; 32],
            timestamp: 1231006505,
            bits: 0x0300ffff,
            nonce,
        },
        transactions,
    }
}

fn simple_tx(n_inputs: usize, values: Vec<i64>) -> Transaction {
    Transaction {
        version: 1,
        inputs: (0..n_inputs).map(|i| input([1; 32], i as u32)).collect(),
        outputs: values.into_iter().map(output).collect(),
        lock_time: 0,
    }
}

#[test]
fn test_valid_transaction_is_within_limits() {
    let tx = simple_tx(3, vec![0, 5, MAX_MONEY - 5]);
    assert_eq!(check_transaction(&tx).unwrap(), ValidationResult::Valid);
    assert!(tx.inputs.len() >= 1 && tx.inputs.len() <= MAX_INPUTS);
    assert!(tx.outputs.len() >= 1 && tx.outputs.len() <= MAX_OUTPUTS);
    assert!(tx.outputs.iter().all(|o| o.value >= 0 && o.value <= MAX_MONEY));
}

#[test]
fn test_output_value_boundaries() {
    assert_eq!(check_transaction(&simple_tx(1, vec![0])).unwrap(), ValidationResult::Valid);
    assert_eq!(check_transaction(&simple_tx(1, vec![MAX_MONEY])).unwrap(), ValidationResult::Valid);
    assert_eq!(
        check_transaction(&simple_tx(1, vec![MAX_MONEY + 1])).unwrap(),
        ValidationResult::Invalid(InvalidReason::OutputValueOutOfRange { index: 0 })
    );
    assert_eq!(
        check_transaction(&simple_tx(1, vec![1, -1])).unwrap(),
        ValidationResult::Invalid(InvalidReason::OutputValueOutOfRange { index: 1 })
    );
}

#[test]
fn test_total_output_value_is_bounded() {
    assert_eq!(
        check_transaction(&simple_tx(1, vec![MAX_MONEY, 1])).unwrap(),
        ValidationResult::Invalid(InvalidReason::TotalOutputValueTooLarge)
    );
    assert_eq!(check_transaction(&simple_tx(1, vec![MAX_MONEY - 1, 1])).unwrap(), ValidationResult::Valid);
}

#[test]
fn test_check_transaction_reasons() {
    assert_eq!(
        check_transaction(&simple_tx(0, vec![1])).unwrap(),
        ValidationResult::Invalid(InvalidReason::EmptyInputsOrOutputs)
    );
    assert_eq!(
        check_transaction(&simple_tx(1, vec![])).unwrap(),
        ValidationResult::Invalid(InvalidReason::EmptyInputsOrOutputs)
    );
    assert_eq!(
        check_transaction(&simple_tx(1001, vec![1])).unwrap(),
        ValidationResult::Invalid(InvalidReason::TooManyInputs { count: 1001 })
    );
    assert_eq!(
        check_transaction(&simple_tx(1, vec![1; 1001])).unwrap(),
        ValidationResult::Invalid(InvalidReason::TooManyOutputs { count: 1001 })
    );
    assert_eq!(check_transaction(&simple_tx(1000, vec![1; 1000])).unwrap(), ValidationResult::Valid);
}

#[test]
fn test_serialized_size_limit() {
    let mut tx = simple_tx(1, vec![1]);
    // 4 + 1 + (36 + 5 + len + 4) + 1 + (8 + 1 + 1) + 4 = len + 65
    tx.inputs[0].script_sig = vec![0u8; 1_000_000 - 65];
    assert_eq!(check_transaction(&tx).unwrap(), ValidationResult::Valid);
    tx.inputs[0].script_sig = vec![0u8; 1_000_000 - 64];
    assert_eq!(
        check_transaction(&tx).unwrap(),
        ValidationResult::Invalid(InvalidReason::TransactionTooLarge)
    );
}

#[test]
fn test_coinbase_inputs_always_valid() {
    let tx = coinbase(1, 5_000_000_000);
    assert!(is_coinbase(&tx));
    let mut set = UtxoSet::new();
    set.insert(OutPoint { hash: [9; 32], index: 1 }, UTXO { value: 7, script_pubkey: vec![], height: 3 });
    for height in [0u32, 1, 99, 100, 1_000_000, u32::MAX] {
        assert_eq!(check_tx_inputs(&tx, &set, height).unwrap(), (ValidationResult::Valid, 0));
        assert_eq!(check_tx_inputs(&tx, &UtxoSet::new(), height).unwrap(), (ValidationResult::Valid, 0));
    }
}

#[test]
fn test_coinbase_maturity() {
    let prev = OutPoint { hash: [7; 32], index: 0 };
    let mut set = UtxoSet::new();
    set.insert_coinbase(prev, UTXO { value: 50, script_pubkey: vec![0x51], height: 100 });
    let tx = spend(prev, vec![40]);
    assert_eq!(
        check_tx_inputs(&tx, &set, 199).unwrap(),
        (ValidationResult::Invalid(InvalidReason::ImmatureCoinbase { index: 0 }), 0)
    );
    assert_eq!(check_tx_inputs(&tx, &set, 200).unwrap(), (ValidationResult::Valid, 10));
    assert_eq!(
        check_tx_inputs(&tx, &set, 50).unwrap(),
        (ValidationResult::Invalid(InvalidReason::ImmatureCoinbase { index: 0 }), 0)
    );
    let mut plain = UtxoSet::new();
    plain.insert(prev, UTXO { value: 50, script_pubkey: vec![0x51], height: 100 });
    assert_eq!(check_tx_inputs(&tx, &plain, 100).unwrap(), (ValidationResult::Valid, 10));
}

#[test]
fn test_coinbase_maturity_among_several_inputs() {
    let plain = OutPoint { hash: [6; 32], index: 0 };
    let young = OutPoint { hash: [7; 32], index: 0 };
    let old = OutPoint { hash: [8; 32], index: 1 };
    let mut set = UtxoSet::new();
    set.insert(plain, UTXO { value: 5, script_pubkey: vec![], height: 340 });
    set.insert_coinbase(young, UTXO { value: 50, script_pubkey: vec![], height: 250 });
    set.insert_coinbase(old, UTXO { value: 25, script_pubkey: vec![], height: 100 });
    let mut tx = spend(plain, vec![30, 40]);
    for prev in [old, young] {
        tx.inputs.push(TransactionInput { prevout: prev, script_sig: vec![], sequence: 0 });
    }
    // the youngest output of a coinbase decides: it was made at height 250
    for height in [0u32, 100, 200, 249, 250, 349] {
        assert_eq!(
            check_tx_inputs(&tx, &set, height).unwrap(),
            (
                ValidationResult::Invalid(InvalidReason::ImmatureCoinbase { index: if height < 200 { 1 } else { 2 } }),
                0
            )
        );
    }
    for height in [350u32, 351, 1_000_000, u32::MAX] {
        assert_eq!(check_tx_inputs(&tx, &set, height).unwrap(), (ValidationResult::Valid, 10));
    }
}

#[test]
fn test_check_tx_inputs_reasons() {
    let prev = OutPoint { hash: [7; 32], index: 0 };
    let mut set = UtxoSet::new();
    set.insert(prev, UTXO { value: 50, script_pubkey: vec![], height: 1 });
    assert_eq!(
        check_tx_inputs(&spend(OutPoint { hash: [8; 32], index: 0 }, vec![1]), &set, 5).unwrap(),
        (ValidationResult::Invalid(InvalidReason::MissingInput { index: 0 }), 0)
    );
    assert_eq!(
        check_tx_inputs(&spend(prev, vec![51]), &set, 5).unwrap(),
        (ValidationResult::Invalid(InvalidReason::InsufficientInputValue), 0)
    );
    assert_eq!(check_tx_inputs(&spend(prev, vec![50]), &set, 5).unwrap(), (ValidationResult::Valid, 0));
    assert_eq!(
        check_tx_inputs(&spend(prev, vec![-1]), &set, 5).unwrap(),
        (ValidationResult::Invalid(InvalidReason::OutputValueOutOfRange { index: 0 }), 0)
    );
    let mut bad = UtxoSet::new();
    bad.insert(prev, UTXO { value: MAX_MONEY + 1, script_pubkey: vec![], height: 1 });
    assert_eq!(
        check_tx_inputs(&spend(prev, vec![1]), &bad, 5).unwrap(),
        (ValidationResult::Invalid(InvalidReason::InputValueOutOfRange { index: 0 }), 0)
    );
}

#[test]
fn test_utxo_set_operations() {
    let a = OutPoint { hash: [1; 32], index: 0 };
    let b = OutPoint { hash: [1; 32], index: 1 };
    let mut set = UtxoSet::new();
    assert!(set.is_empty());
    assert!(set.insert(a, UTXO { value: 1, script_pubkey: vec![1], height: 1 }).is_none());
    assert!(set.insert(b, UTXO { value: 2, script_pubkey: vec![2], height: 2 }).is_none());
    assert_eq!(set.len(), 2);
    let before = set.insert(a, UTXO { value: 3, script_pubkey: vec![3], height: 3 });
    assert_eq!(before, Some(UTXO { value: 1, script_pubkey: vec![1], height: 1 }));
    assert_eq!(set.len(), 2);
    assert_eq!(set.get(&a), Some(&UTXO { value: 3, script_pubkey: vec![3], height: 3 }));
    assert!(set.contains_key(&b));
    assert_eq!(set.remove(&b), Some(UTXO { value: 2, script_pubkey: vec![2], height: 2 }));
    assert_eq!(set.remove(&b), None);
    assert!(!set.contains_key(&b));
    assert_eq!(set.len(), 1);
}

#[test]
fn test_utxo_set_tells_every_outpoint_apart() {
    // outpoints that differ in one byte of the hash, or in the index alone
    let mut outpoints = vec![OutPoint { hash: [0; 32], index: 0 }, OutPoint { hash: [0; 32], index: u32::MAX }];
    for byte in 0..32 {
        for value in [1u8, 0x80, 0xff] {
            let mut hash = [0u8; 32];
            hash[byte] = value;
            outpoints.push(OutPoint { hash, index: 0 });
        }
    }
    let mut set = UtxoSet::new();
    for (n, p) in outpoints.iter().enumerate() {
        assert!(!set.contains_key(p));
        assert!(set.insert(*p, UTXO { value: n as i64, script_pubkey: vec![], height: 0 }).is_none());
        assert_eq!(set.len(), n + 1);
    }
    for (n, p) in outpoints.iter().enumerate() {
        assert_eq!(set.get(p).map(|u| u.value), Some(n as i64));
    }
    for (n, p) in outpoints.iter().enumerate().rev() {
        assert_eq!(set.remove(p).map(|u| u.value), Some(n as i64));
        assert!(!set.contains_key(p));
        assert_eq!(set.len(), n);
    }
    assert!(set.is_empty());
}

fn same_contents(set: &UtxoSet, expected: &[(OutPoint, UTXO)]) -> bool {
    set.len() == expected.len() && expected.iter().all(|(p, u)| set.get(p) == Some(u))
}

#[test]
fn test_connect_then_disconnect_restores_set() {
    let funded = OutPoint { hash: [5; 32], index: 2 };
    let other = OutPoint { hash: [6; 32], index: 0 };
    let initial = vec![
        (funded, UTXO { value: 100, script_pubkey: vec![0x51], height: 7 }),
        (other, UTXO { value: 9, script_pubkey: vec![0x52], height: 8 }),
    ];
    let mut set = UtxoSet::new();
    for (p, u) in initial.iter() {
        set.insert(*p, u.clone());
    }
    let cb = coinbase(1, 50);
    let tx = spend(funded, vec![60, 30]);
    let block = block_on([0; 32], 0, vec![cb.clone(), tx.clone()]);

    let (verdict, connected, undo) = connect_block(&block, set, 10);
    assert_eq!(verdict, ValidationResult::Valid);
    assert_eq!(undo.spent.len(), 1);
    assert_eq!(undo.spent[0].outpoint, funded);
    assert_eq!(undo.spent[0].utxo, UTXO { value: 100, script_pubkey: vec![0x51], height: 7 });
    let cb_id = calculate_tx_id(&cb);
    let tx_id = calculate_tx_id(&tx);
    assert!(same_contents(
        &connected,
        &[
            (other, UTXO { value: 9, script_pubkey: vec![0x52], height: 8 }),
            (OutPoint { hash: cb_id, index: 0 }, UTXO { value: 50, script_pubkey: vec![0x51], height: 10 }),
            (OutPoint { hash: tx_id, index: 0 }, UTXO { value: 60, script_pubkey: vec![0x51], height: 10 }),
            (OutPoint { hash: tx_id, index: 1 }, UTXO { value: 30, script_pubkey: vec![0x51], height: 10 }),
        ]
    ));
    assert!(!connected.contains_key(&funded));

    let restored = disconnect_block(&block, connected, &undo, 10).unwrap();
    assert!(same_contents(&restored, &initial));
}

#[test]
fn test_connect_failure_leaves_set_unchanged() {
    let funded = OutPoint { hash: [5; 32], index: 2 };
    let initial = vec![(funded, UTXO { value: 100, script_pubkey: vec![0x51], height: 7 })];
    let mut set = UtxoSet::new();
    set.insert(funded, initial[0].1.clone());
    let block = block_on(
        [0; 32],
        0,
        vec![coinbase(1, 50), spend(funded, vec![60]), spend(OutPoint { hash: [9; 32], index: 0 }, vec![1])],
    );
    let (verdict, after, undo) = connect_block(&block, set, 10);
    assert_eq!(verdict, ValidationResult::Invalid(InvalidReason::InvalidTransaction { tx_index: 2 }));
    assert!(same_contents(&after, &initial));
    assert!(undo.spent.is_empty());

    // the same output cannot be spent twice in one block
    let twice = block_on([0; 32], 0, vec![coinbase(1, 50), spend(funded, vec![60]), spend(funded, vec![30])]);
    let (verdict, after, _) = connect_block(&twice, after, 10);
    assert_eq!(verdict, ValidationResult::Invalid(InvalidReason::InvalidTransaction { tx_index: 2 }));
    assert!(same_contents(&after, &initial));

    // an output that is already in the set cannot be created again
    let cb = coinbase(3, 50);
    let (verdict, after, _) = connect_block(&block_on([0; 32], 0, vec![cb.clone()]), after, 10);
    assert_eq!(verdict, ValidationResult::Valid);
    let (verdict, after, _) = connect_block(&block_on([0; 32], 1, vec![cb]), after, 11);
    assert_eq!(verdict, ValidationResult::Invalid(InvalidReason::InvalidTransaction { tx_index: 0 }));
    assert_eq!(after.len(), 2);
}

#[test]
fn test_disconnect_needs_matching_undo() {
    let funded = OutPoint { hash: [5; 32], index: 2 };
    let block = block_on([0; 32], 0, vec![coinbase(1, 50), spend(funded, vec![60])]);
    let result = disconnect_block(&block, UtxoSet::new(), &BlockUndo::new(), 10);
    assert_eq!(result.err(), Some(ConsensusError::ConsensusRuleViolation(RuleViolation::MissingUndo)));
}

#[test]
fn test_expand_target_values() {
    assert_eq!(expand_target(0x0300ffff).unwrap(), 0xffff);
    assert_eq!(expand_target(0x0200ffff).unwrap(), 0xff);
    assert_eq!(expand_target(0x0100ffff).unwrap(), 0);
    assert_eq!(expand_target(0x00ffffff).unwrap(), 0);
    assert_eq!(expand_target(0x04123456).unwrap(), 0x12345600);
    assert_eq!(expand_target(0x0f000001).unwrap(), 1u128 << 96);
    assert_eq!(
        expand_target(0x10000001).err(),
        Some(ConsensusError::InvalidProofOfWork(PowError::TargetTooLarge))
    );
    assert_eq!(
        expand_target(0x1d00ffff).err(),
        Some(ConsensusError::InvalidProofOfWork(PowError::TargetTooLarge))
    );
}

#[test]
fn test_header_work_values() {
    assert_eq!(header_work(0xffff), Some(1u128 << 112));
    assert_eq!(header_work(1), Some(1u128 << 127));
    assert_eq!(header_work(2), Some(u128::MAX / 3));
    assert_eq!(header_work(u128::MAX), Some(1));
    assert_eq!(header_work(0), None);
}

#[test]
fn test_chain_work_is_the_sum() {
    let mut a = block_on([0; 32], 0, vec![]);
    a.header.bits = 0x0300ffff;
    let mut b = block_on([0; 32], 1, vec![]);
    b.header.bits = 0x0200ffff;
    assert_eq!(calculate_chain_work(&[a.clone(), b.clone()]).unwrap(), (1u128 << 112) + (1u128 << 120));
    let mut zero = block_on([0; 32], 2, vec![]);
    zero.header.bits = 0;
    assert_eq!(
        calculate_chain_work(&[a.clone(), zero]).err(),
        Some(ConsensusError::InvalidProofOfWork(PowError::WorkOverflow))
    );
    let mut large = block_on([0; 32], 3, vec![]);
    large.header.bits = 0x20000001;
    assert_eq!(
        calculate_chain_work(&[a, large]).err(),
        Some(ConsensusError::InvalidProofOfWork(PowError::TargetTooLarge))
    );
}

#[test]
fn test_selection_goes_by_work_not_length() {
    let easy = |n: u32| {
        let mut b = block_on([0; 32], n, vec![]);
        b.header.bits = 0x0300ffff;
        b
    };
    let mut hard = block_on([0; 32], 9, vec![]);
    hard.header.bits = 0x0200ffff;
    // one hard block outweighs three easy ones
    assert!(should_reorganize(&[hard.clone()], &[easy(0), easy(1), easy(2)]).unwrap());
    assert!(!should_reorganize(&[easy(0), easy(1), easy(2)], &[hard.clone()]).unwrap());
    // a tie keeps the chain that was seen first
    assert!(!should_reorganize(&[easy(0), easy(1)], &[easy(2), easy(3)]).unwrap());
    assert!(!should_reorganize(&[hard.clone()], &[hard]).unwrap());
}

#[test]
fn test_selection_with_targets_of_any_size() {
    let with_bits = |bits: u32, n: u32| {
        let mut b = block_on([0; 32], n, vec![]);
        b.header.bits = bits;
        b
    };
    let easy = with_bits(0x0300ffff, 0);
    // a target of more than 128 bits: no work
    let vast = with_bits(0xff000001, 1);
    assert_eq!(should_reorganize(&[vast.clone()], &[easy.clone()]), Ok(false));
    assert_eq!(should_reorganize(&[easy.clone()], &[vast.clone()]), Ok(true));
    assert_eq!(should_reorganize(&[vast.clone(), vast.clone()], &[vast.clone()]), Ok(false));
    assert_eq!(should_reorganize(&[vast.clone(), easy.clone()], &[vast.clone()]), Ok(true));
    // the largest target with work: 2^128 - 2^104 has work 1, 2^128 has none
    let last = with_bits(0x10ffffff, 2);
    let beyond = with_bits(0x11010000, 3);
    assert_eq!(should_reorganize(&[last.clone()], &[beyond.clone()]), Ok(true));
    assert_eq!(should_reorganize(&[last.clone()], &[vast.clone()]), Ok(true));
    assert_eq!(should_reorganize(&[beyond], &[vast.clone()]), Ok(false));
    assert_eq!(should_reorganize(&[last.clone(), last.clone()], &[last.clone()]), Ok(true));
    // the target 0: work 2^128, more than any other header has
    let zero = with_bits(0x03000000, 4);
    let zero_too = with_bits(0x20000000, 5);
    let hardest = with_bits(0x03000001, 6);
    assert_eq!(should_reorganize(&[zero.clone()], &[hardest.clone()]), Ok(true));
    assert_eq!(should_reorganize(&[hardest.clone(), hardest.clone()], &[zero.clone()]), Ok(false));
    assert_eq!(should_reorganize(&[hardest.clone(), hardest.clone(), easy.clone()], &[zero.clone()]), Ok(true));
    assert_eq!(should_reorganize(&[zero.clone()], &[zero_too.clone()]), Ok(false));
    assert_eq!(should_reorganize(&[zero.clone(), zero_too.clone()], &[zero.clone()]), Ok(true));
    assert_eq!(should_reorganize(&[zero.clone(), easy.clone()], &[zero_too, vast]), Ok(true));
    // no chain at all has no work
    let nothing: Vec<Block> = vec![];
    assert_eq!(should_reorganize(&nothing, &nothing), Ok(false));
    assert_eq!(should_reorganize(&[easy], &nothing), Ok(true));
}

#[test]
fn test_verify_script_is_deterministic() {
    let cases: Vec<(Vec<u8>, Vec<u8>, Option<Vec<u8>>)> = vec![
        (vec![0x51], vec![0x51, 0x87], None),
        (vec![0x51], vec![0x76, 0x88], None),
        (vec![0x51], vec![0x51, 0xac], Some(vec![0x51])),
        (vec![0xff], vec![], None),
        (vec![0x51; 20_000], vec![], None),
    ];
    for (sig, pubkey, witness) in cases {
        let first = verify_script(&sig, &pubkey, witness.as_ref(), 0);
        for flags in [0u32, 1, 0xffff_ffff] {
            assert_eq!(verify_script(&sig, &pubkey, witness.as_ref(), flags), first);
        }
    }
}

#[test]
fn test_verify_script_true() {
    assert_eq!(verify_script(&vec![0x51], &vec![0x51, 0x87], None, 0), Ok(true));
    assert_eq!(verify_script(&vec![0x51], &vec![0x51, 0x87], Some(&vec![0x76, 0x87]), 0), Ok(true));
    // the locking script runs on whatever the unlocking script left
    assert_eq!(verify_script(&vec![0x51, 0x51], &vec![0x87], None, 0), Ok(true));
    assert_eq!(verify_script(&vec![0x51, 0x52], &vec![0x87], None, 0), Ok(false));
    assert_eq!(verify_script(&vec![], &vec![0x51], None, 0), Ok(true));
    assert_eq!(verify_script(&vec![0x51, 0x52, 0x53], &vec![0x6d], None, 0), Ok(true));
    assert_eq!(verify_script(&vec![0x51, 0x52], &vec![0x75], Some(&vec![0x51, 0x87]), 0), Ok(true));
    // only the stack at the very end is judged
    assert_eq!(verify_script(&vec![0x51], &vec![], None, 0), Ok(true));
    assert_eq!(verify_script(&vec![0x51], &vec![0x51], None, 0), Ok(false));
    assert_eq!(verify_script(&vec![0x00], &vec![], None, 0), Ok(false));
    assert_eq!(verify_script(&vec![], &vec![], None, 0), Ok(false));
    // an opcode that fails ends the verification, an error is passed on
    assert_eq!(verify_script(&vec![0x6a], &vec![0x51], None, 0), Ok(false));
    assert_eq!(verify_script(&vec![0x51], &vec![0x87], Some(&vec![0x51]), 0), Ok(false));
    assert_eq!(
        verify_script(&vec![0x51], &vec![0x51; 10_001], None, 0),
        Err(ConsensusError::ScriptExecution(ScriptError::ScriptTooLarge))
    );
    assert_eq!(
        verify_script(&vec![0x51; 600], &vec![0x51; 600], None, 0),
        Err(ConsensusError::ScriptExecution(ScriptError::StackOverflow))
    );
}

#[test]
fn test_run_script_does_not_judge_the_stack() {
    let mut stack = Vec::new();
    assert_eq!(run_script(&vec![0x51, 0x51], &mut stack, 0), Ok(ScriptRun::RanThrough));
    assert_eq!(stack, vec![vec![1u8], vec![1u8]]);
    assert_eq!(run_script(&vec![0x87], &mut stack, 0), Ok(ScriptRun::RanThrough));
    assert_eq!(stack, vec![vec![1u8]]);
    assert_eq!(run_script(&vec![0x87], &mut stack, 0), Ok(ScriptRun::OpcodeFailed));
    assert_eq!(run_script(&vec![], &mut stack, 0), Ok(ScriptRun::RanThrough));
    assert_eq!(
        run_script(&vec![0x76; 202], &mut stack, 0),
        Err(ConsensusError::ScriptExecution(ScriptError::OperationLimitExceeded))
    );
    let mut other = vec![vec![1u8]];
    assert_eq!(eval_script(&vec![0x51, 0x51], &mut other, 0), Ok(false));
    assert_eq!(other.len(), 3);
}

#[test]
fn test_non_push_operation_limit() {
    let mut stack = vec![vec![1u8]];
    let accepted = vec![0x82u8; MAX_SCRIPT_OPS];
    assert_eq!(eval_script(&accepted, &mut stack, 0), Ok(false));
    assert_eq!(stack.len(), 1 + MAX_SCRIPT_OPS);

    let mut stack = vec![vec![1u8]];
    let rejected = vec![0x82u8; MAX_SCRIPT_OPS + 1];
    assert_eq!(
        eval_script(&rejected, &mut stack, 0),
        Err(ConsensusError::ScriptExecution(ScriptError::OperationLimitExceeded))
    );

    // pushes are not counted
    let mut stack = Vec::new();
    let mut pushes = vec![0x51u8; 300];
    pushes.extend(vec![0x75u8; 99]);
    pushes.extend(vec![0x6du8; 100]);
    assert_eq!(eval_script(&pushes, &mut stack, 0), Ok(true));
    assert_eq!(stack, vec![vec![1u8]]);
}

#[test]
fn test_stack_depth_limit() {
    let mut stack = Vec::new();
    assert_eq!(eval_script(&vec![0x51u8; MAX_STACK_SIZE], &mut stack, 0), Ok(false));
    assert_eq!(stack.len(), MAX_STACK_SIZE);

    let mut stack = Vec::new();
    assert_eq!(
        eval_script(&vec![0x51u8; MAX_STACK_SIZE + 1], &mut stack, 0),
        Err(ConsensusError::ScriptExecution(ScriptError::StackOverflow))
    );

    let mut deep = vec![vec![1u8]; MAX_STACK_SIZE + 1];
    assert_eq!(
        eval_script(&vec![0x75u8], &mut deep, 0),
        Err(ConsensusError::ScriptExecution(ScriptError::StackOverflow))
    );
    assert_eq!(deep.len(), MAX_STACK_SIZE + 1);
}

#[test]
fn test_script_size_error_kind() {
    let mut stack = Vec::new();
    assert_eq!(
        eval_script(&vec![0x51u8; 10_001], &mut stack, 0),
        Err(ConsensusError::ScriptExecution(ScriptError::ScriptTooLarge))
    );
    assert!(stack.is_empty());
    assert_eq!(ScriptError::ScriptTooLarge.reason(), "Script size limit exceeded");
    assert_eq!(ScriptError::StackOverflow.reason(), "Stack overflow");
    assert_eq!(ScriptError::OperationLimitExceeded.reason(), "Operation limit exceeded");
}

fn linked(prev: &Block, nonce: u32, transactions: Vec<Transaction>) -> Block {
    block_on(compute_block_hash(&prev.header), nonce, transactions)
}

#[test]
fn test_reorg_preference() {
    let g = block_on([0; 32], 0, vec![coinbase(0, 50)]);
    let a = linked(&g, 1, vec![coinbase(1, 50)]);
    let b = linked(&a, 2, vec![coinbase(2, 50)]);
    let a2 = linked(&g, 11, vec![coinbase(11, 50)]);
    let b2 = linked(&a2, 12, vec![coinbase(12, 50)]);
    let c2 = linked(&b2, 13, vec![coinbase(13, 50)]);
    let current = vec![g.clone(), a.clone(), b.clone()];
    let candidate = vec![g.clone(), a2.clone(), b2.clone(), c2.clone()];
    assert!(should_reorganize(&candidate, &current).unwrap());
    assert_eq!(find_common_ancestor(&candidate, &current).unwrap(), g.header);

    let mut set = UtxoSet::new();
    let mut undo = Vec::new();
    for (height, block) in current.iter().enumerate() {
        let (verdict, next, record) = connect_block(block, set, 100 + height as u32);
        assert_eq!(verdict, ValidationResult::Valid);
        set = next;
        undo.push(record);
    }
    assert_eq!(set.len(), 3);

    let result = reorganize_chain(&candidate, &current, &undo, &mut set, 102).unwrap();
    assert_eq!(result.new_height, 103);
    assert_eq!(result.common_ancestor, g.header);
    assert_eq!(result.reorganization_depth, 2);
    assert_eq!(result.disconnected_blocks, vec![b.clone(), a.clone()]);
    assert_eq!(result.connected_blocks, vec![a2.clone(), b2.clone(), c2.clone()]);
    assert_eq!(result.connected_blocks.last().unwrap().header, c2.header);
    assert_eq!(result.connected_undo.len(), 3);
    assert_eq!(set.len(), 4);
    for (block, height) in [(&g, 100u32), (&a2, 101), (&b2, 102), (&c2, 103)] {
        let id = calculate_tx_id(&block.transactions[0]);
        assert_eq!(set.get(&OutPoint { hash: id, index: 0 }).map(|u| u.height), Some(height));
    }
    for block in [&a, &b] {
        let id = calculate_tx_id(&block.transactions[0]);
        assert!(!set.contains_key(&OutPoint { hash: id, index: 0 }));
    }
}

#[test]
fn test_reorganization_depths() {
    let g = block_on([0; 32], 0, vec![coinbase(0, 50)]);
    let a = linked(&g, 1, vec![coinbase(1, 50)]);
    let a2 = linked(&g, 2, vec![coinbase(2, 50)]);
    let chain = vec![g.clone(), a.clone()];
    let mut set = UtxoSet::new();
    let mut undo = Vec::new();
    for (height, block) in chain.iter().enumerate() {
        let (_, next, record) = connect_block(block, set, height as u32);
        set = next;
        undo.push(record);
    }
    let before: Vec<(OutPoint, UTXO)> = chain
        .iter()
        .enumerate()
        .map(|(h, b)| {
            (
                OutPoint { hash: calculate_tx_id(&b.transactions[0]), index: 0 },
                UTXO { value: 50, script_pubkey: vec![0x51], height: h as u32 },
            )
        })
        .collect();

    // depth 0: nothing changes
    let same = reorganize_chain(&chain, &chain, &undo, &mut set, 1).unwrap();
    assert_eq!(same.reorganization_depth, 0);
    assert_eq!(same.new_height, 1);
    assert!(same.disconnected_blocks.is_empty() && same.connected_blocks.is_empty());
    assert!(same_contents(&set, &before));

    // depth 0 asks for no record of what the blocks spent
    let without = reorganize_chain(&chain, &chain, &[], &mut set, 1).unwrap();
    assert_eq!(without.reorganization_depth, 0);
    assert_eq!(without.new_height, 1);
    assert_eq!(without.common_ancestor, a.header);
    assert!(without.disconnected_blocks.is_empty() && without.connected_blocks.is_empty());
    assert!(same_contents(&set, &before));
    // nor is more height asked for than there are blocks to disconnect
    let low = reorganize_chain(&chain, &chain, &[], &mut set, 0).unwrap();
    assert_eq!((low.reorganization_depth, low.new_height), (0, 0));
    assert!(same_contents(&set, &before));
    // nor does a new chain that only adds to the current one
    let b = linked(&a, 3, vec![coinbase(3, 50)]);
    let mut grown = UtxoSet::new();
    for (height, block) in chain.iter().enumerate() {
        let (_, next, _) = connect_block(block, grown, height as u32);
        grown = next;
    }
    let longer = reorganize_chain(&[g.clone(), a.clone(), b.clone()], &chain, &[], &mut grown, 1).unwrap();
    assert_eq!(longer.reorganization_depth, 0);
    assert_eq!(longer.new_height, 2);
    assert_eq!(longer.connected_blocks, vec![b.clone()]);
    assert!(longer.disconnected_blocks.is_empty());
    assert_eq!(grown.len(), 3);
    // a reorganization of depth 1 asks for the record of the one block
    let none: Vec<BlockUndo> = vec![];
    assert_eq!(
        reorganize_chain(&[g.clone(), a2.clone()], &chain, &none, &mut set, 1).err(),
        Some(ConsensusError::ConsensusRuleViolation(RuleViolation::MissingUndo))
    );
    assert!(same_contents(&set, &before));

    // deeper than the chain: refused, nothing changes
    let too_deep = reorganize_chain(&[g.clone(), a2.clone()], &chain, &undo, &mut set, 0);
    assert_eq!(
        too_deep.err(),
        Some(ConsensusError::ConsensusRuleViolation(RuleViolation::DepthExceedsHeight))
    );
    let stranger = block_on([3; 32], 7, vec![coinbase(7, 50)]);
    let unrelated = reorganize_chain(&[stranger], &chain, &undo, &mut set, 1);
    assert_eq!(
        unrelated.err(),
        Some(ConsensusError::ConsensusRuleViolation(RuleViolation::NoCommonAncestor))
    );
    let unlinked = reorganize_chain(&[g.clone(), block_on([4; 32], 8, vec![coinbase(8, 50)])], &chain, &undo, &mut set, 1);
    assert_eq!(
        unlinked.err(),
        Some(ConsensusError::ConsensusRuleViolation(RuleViolation::NoCommonAncestor))
    );
    let no_chain: Vec<Block> = vec![];
    assert_eq!(
        reorganize_chain(&no_chain, &chain, &undo, &mut set, 1).err(),
        Some(ConsensusError::ConsensusRuleViolation(RuleViolation::EmptyChain))
    );
    assert_eq!(
        reorganize_chain(&[g.clone(), a2.clone()], &chain, &undo[..1], &mut set, 1).err(),
        Some(ConsensusError::ConsensusRuleViolation(RuleViolation::MissingUndo))
    );
    assert_eq!(
        reorganize_chain(&[g.clone(), a2.clone()], &chain, &undo, &mut set, u32::MAX).err(),
        None
    );
    assert!(same_contents(&set, &[before[0].clone(), (
        OutPoint { hash: calculate_tx_id(&a2.transactions[0]), index: 0 },
        UTXO { value: 50, script_pubkey: vec![0x51], height: u32::MAX },
    )]));
}

#[test]
fn test_reorganization_depth_one_and_rollback() {
    let g = block_on([0; 32], 0, vec![coinbase(0, 50)]);
    let a = linked(&g, 1, vec![coinbase(1, 50)]);
    let a2 = linked(&g, 2, vec![coinbase(2, 50)]);
    let chain = vec![g.clone(), a.clone()];
    let mut set = UtxoSet::new();
    let mut undo = Vec::new();
    for (height, block) in chain.iter().enumerate() {
        let (_, next, record) = connect_block(block, set, height as u32);
        set = next;
        undo.push(record);
    }
    let g_out = OutPoint { hash: calculate_tx_id(&g.transactions[0]), index: 0 };
    let a_out = OutPoint { hash: calculate_tx_id(&a.transactions[0]), index: 0 };

    // the second block of the candidate spends what is not there: everything is taken back
    let bad = linked(&a2, 3, vec![coinbase(3, 50), spend(OutPoint { hash: [9; 32], index: 0 }, vec![1])]);
    let failed = reorganize_chain(&[g.clone(), a2.clone(), bad], &chain, &undo, &mut set, 1);
    assert_eq!(
        failed.err(),
        Some(ConsensusError::ConsensusRuleViolation(RuleViolation::InvalidBlock { index: 2 }))
    );
    assert_eq!(set.len(), 2);
    assert!(set.contains_key(&g_out) && set.contains_key(&a_out));

    let done = reorganize_chain(&[g.clone(), a2.clone()], &chain, &undo, &mut set, 1).unwrap();
    assert_eq!(done.reorganization_depth, 1);
    assert_eq!(done.new_height, 1);
    assert_eq!(done.disconnected_blocks, vec![a.clone()]);
    assert_eq!(done.connected_blocks, vec![a2.clone()]);
    assert!(set.contains_key(&g_out) && !set.contains_key(&a_out));
    assert!(set.contains_key(&OutPoint { hash: calculate_tx_id(&a2.transactions[0]), index: 0 }));
}

#[test]
fn test_negative_fee_rejected() {
    let prev = OutPoint { hash: [1; 32], index: 0 };
    let mut set = UtxoSet::new();
    set.insert(prev, UTXO { value: 1000, script_pubkey: vec![0x51], height: 0 });
    let tx = Transaction {
        version: 1,
        inputs: vec![TransactionInput { prevout: prev, script_sig: vec![0x51], sequence: 0xffffffff }],
        outputs: vec![TransactionOutput { value: 2000, script_pubkey: vec![0x51] }],
        lock_time: 0,
    };
    let (verdict, fee) = check_tx_inputs(&tx, &set, 1).unwrap();
    assert_eq!(verdict, ValidationResult::Invalid(InvalidReason::InsufficientInputValue));
    assert_eq!(fee, 0);
}
