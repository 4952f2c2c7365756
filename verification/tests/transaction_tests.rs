use bllvm_consensus::constants::{MAX_INPUTS, MAX_MONEY, MAX_OUTPUTS};
use bllvm_consensus::transaction::{calculate_transaction_size, check_transaction, check_tx_inputs, is_coinbase};
use bllvm_consensus::types::{OutPoint, Transaction, TransactionInput, TransactionOutput, ValidationResult, UTXO};
use bllvm_consensus::utxo_set::UtxoSet;

#[test]
fn test_check_transaction_valid() {
    let tx = Transaction {
        version: 1,
        inputs: vec![TransactionInput {
            prevout: OutPoint { hash: [0; 32], index: 0 },
            script_sig: vec![],
            sequence: 0xffffffff,
        }],
        outputs: vec![TransactionOutput {
            value: 1000,
            script_pubkey: vec![],
        }],
        lock_time: 0,
    };

    assert_eq!(check_transaction(&tx).unwrap(), ValidationResult::Valid);
}

#[test]
fn test_check_transaction_empty_inputs() {
    let tx = Transaction {
        version: 1,
        inputs: vec![],
        outputs: vec![TransactionOutput {
            value: 1000,
            script_pubkey: vec![],
        }],
        lock_time: 0,
    };

    assert!(matches!(check_transaction(&tx).unwrap(), ValidationResult::Invalid(_)));
}

#[test]
fn test_check_tx_inputs_coinbase() {
    let tx = Transaction {
        version: 1,
        inputs: vec![TransactionInput {
            prevout: OutPoint { hash: [0; 32], index: 0xffffffff },
            script_sig: vec![],
            sequence: 0xffffffff,
        }],
        outputs: vec![TransactionOutput {
            value: 5000000000,
            script_pubkey: vec![],
        }],
        lock_time: 0,
    };

    let utxo_set = UtxoSet::new();
    let (result, fee) = check_tx_inputs(&tx, &utxo_set, 0).unwrap();

    assert_eq!(result, ValidationResult::Valid);
    assert_eq!(fee, 0);
}

#[test]
fn test_check_transaction_empty_outputs() {
    let tx = Transaction {
        version: 1,
        inputs: vec![TransactionInput {
            prevout: OutPoint { hash: [0; 32], index: 0 },
            script_sig: vec![],
            sequence: 0xffffffff,
        }],
        outputs: vec![],
        lock_time: 0,
    };

    assert!(matches!(check_transaction(&tx).unwrap(), ValidationResult::Invalid(_)));
}

#[test]
fn test_check_transaction_invalid_output_value_negative() {
    let tx = Transaction {
        version: 1,
        inputs: vec![TransactionInput {
            prevout: OutPoint { hash: [0; 32], index: 0 },
            script_sig: vec![],
            sequence: 0xffffffff,
        }],
        outputs: vec![TransactionOutput {
            value: -1,
            script_pubkey: vec![],
        }],
        lock_time: 0,
    };

    assert!(matches!(check_transaction(&tx).unwrap(), ValidationResult::Invalid(_)));
}

#[test]
fn test_check_transaction_invalid_output_value_too_large() {
    let tx = Transaction {
        version: 1,
        inputs: vec![TransactionInput {
            prevout: OutPoint { hash: [0; 32], index: 0 },
            script_sig: vec![],
            sequence: 0xffffffff,
        }],
        outputs: vec![TransactionOutput {
            value: MAX_MONEY + 1,
            script_pubkey: vec![],
        }],
        lock_time: 0,
    };

    assert!(matches!(check_transaction(&tx).unwrap(), ValidationResult::Invalid(_)));
}

#[test]
fn test_check_transaction_max_output_value() {
    let tx = Transaction {
        version: 1,
        inputs: vec![TransactionInput {
            prevout: OutPoint { hash: [0; 32], index: 0 },
            script_sig: vec![],
            sequence: 0xffffffff,
        }],
        outputs: vec![TransactionOutput {
            value: MAX_MONEY,
            script_pubkey: vec![],
        }],
        lock_time: 0,
    };

    assert_eq!(check_transaction(&tx).unwrap(), ValidationResult::Valid);
}

#[test]
fn test_check_transaction_too_many_inputs() {
    let mut inputs = Vec::new();
    for i in 0..=MAX_INPUTS {
        inputs.push(TransactionInput {
            prevout: OutPoint { hash: [i as u8; 32], index: 0 },
            script_sig: vec![],
            sequence: 0xffffffff,
        });
    }

    let tx = Transaction {
        version: 1,
        inputs,
        outputs: vec![TransactionOutput {
            value: 1000,
            script_pubkey: vec![],
        }],
        lock_time: 0,
    };

    assert!(matches!(check_transaction(&tx).unwrap(), ValidationResult::Invalid(_)));
}

#[test]
fn test_check_transaction_max_inputs() {
    let mut inputs = Vec::new();
    for i in 0..MAX_INPUTS {
        inputs.push(TransactionInput {
            prevout: OutPoint { hash: [i as u8; 32], index: 0 },
            script_sig: vec![],
            sequence: 0xffffffff,
        });
    }

    let tx = Transaction {
        version: 1,
        inputs,
        outputs: vec![TransactionOutput {
            value: 1000,
            script_pubkey: vec![],
        }],
        lock_time: 0,
    };

    assert_eq!(check_transaction(&tx).unwrap(), ValidationResult::Valid);
}

#[test]
fn test_check_transaction_too_many_outputs() {
    let mut outputs = Vec::new();
    for _ in 0..=MAX_OUTPUTS {
        outputs.push(TransactionOutput {
            value: 1000,
            script_pubkey: vec![],
        });
    }

    let tx = Transaction {
        version: 1,
        inputs: vec![TransactionInput {
            prevout: OutPoint { hash: [0; 32], index: 0 },
            script_sig: vec![],
            sequence: 0xffffffff,
        }],
        outputs,
        lock_time: 0,
    };

    assert!(matches!(check_transaction(&tx).unwrap(), ValidationResult::Invalid(_)));
}

#[test]
fn test_check_transaction_max_outputs() {
    let mut outputs = Vec::new();
    for _ in 0..MAX_OUTPUTS {
        outputs.push(TransactionOutput {
            value: 1000,
            script_pubkey: vec![],
        });
    }

    let tx = Transaction {
        version: 1,
        inputs: vec![TransactionInput {
            prevout: OutPoint { hash: [0; 32], index: 0 },
            script_sig: vec![],
            sequence: 0xffffffff,
        }],
        outputs,
        lock_time: 0,
    };

    assert_eq!(check_transaction(&tx).unwrap(), ValidationResult::Valid);
}

#[test]
fn test_check_transaction_too_large() {
    let mut inputs = Vec::new();
    for i in 0..25000 {
        inputs.push(TransactionInput {
            prevout: OutPoint { hash: [i as u8; 32], index: 0 },
            script_sig: vec![0u8; 100],
            sequence: 0xffffffff,
        });
    }

    let tx = Transaction {
        version: 1,
        inputs,
        outputs: vec![TransactionOutput {
            value: 1000,
            script_pubkey: vec![],
        }],
        lock_time: 0,
    };

    assert!(matches!(check_transaction(&tx).unwrap(), ValidationResult::Invalid(_)));
}

#[test]
fn test_check_tx_inputs_regular_transaction() {
    let mut utxo_set = UtxoSet::new();

    let outpoint = OutPoint { hash: [1; 32], index: 0 };
    let utxo = UTXO {
        value: 1000000000,
        script_pubkey: vec![],
        height: 0,
    };
    utxo_set.insert(outpoint, utxo);

    let tx = Transaction {
        version: 1,
        inputs: vec![TransactionInput {
            prevout: OutPoint { hash: [1; 32], index: 0 },
            script_sig: vec![],
            sequence: 0xffffffff,
        }],
        outputs: vec![TransactionOutput {
            value: 900000000,
            script_pubkey: vec![],
        }],
        lock_time: 0,
    };

    let (result, fee) = check_tx_inputs(&tx, &utxo_set, 0).unwrap();

    assert_eq!(result, ValidationResult::Valid);
    assert_eq!(fee, 100000000);
}

#[test]
fn test_check_tx_inputs_missing_utxo() {
    let utxo_set = UtxoSet::new();

    let tx = Transaction {
        version: 1,
        inputs: vec![TransactionInput {
            prevout: OutPoint { hash: [1; 32], index: 0 },
            script_sig: vec![],
            sequence: 0xffffffff,
        }],
        outputs: vec![TransactionOutput {
            value: 100000000,
            script_pubkey: vec![],
        }],
        lock_time: 0,
    };

    let (result, fee) = check_tx_inputs(&tx, &utxo_set, 0).unwrap();

    assert!(matches!(result, ValidationResult::Invalid(_)));
    assert_eq!(fee, 0);
}

#[test]
fn test_check_tx_inputs_insufficient_funds() {
    let mut utxo_set = UtxoSet::new();

    let outpoint = OutPoint { hash: [1; 32], index: 0 };
    let utxo = UTXO {
        value: 100000000,
        script_pubkey: vec![],
        height: 0,
    };
    utxo_set.insert(outpoint, utxo);

    let tx = Transaction {
        version: 1,
        inputs: vec![TransactionInput {
            prevout: OutPoint { hash: [1; 32], index: 0 },
            script_sig: vec![],
            sequence: 0xffffffff,
        }],
        outputs: vec![TransactionOutput {
            value: 200000000,
            script_pubkey: vec![],
        }],
        lock_time: 0,
    };

    let (result, fee) = check_tx_inputs(&tx, &utxo_set, 0).unwrap();

    assert!(matches!(result, ValidationResult::Invalid(_)));
    assert_eq!(fee, 0);
}

#[test]
fn test_check_tx_inputs_multiple_inputs() {
    let mut utxo_set = UtxoSet::new();

    let outpoint1 = OutPoint { hash: [1; 32], index: 0 };
    let utxo1 = UTXO {
        value: 500000000,
        script_pubkey: vec![],
        height: 0,
    };
    utxo_set.insert(outpoint1, utxo1);

    let outpoint2 = OutPoint { hash: [2; 32], index: 0 };
    let utxo2 = UTXO {
        value: 300000000,
        script_pubkey: vec![],
        height: 0,
    };
    utxo_set.insert(outpoint2, utxo2);

    let tx = Transaction {
        version: 1,
        inputs: vec![
            TransactionInput {
                prevout: OutPoint { hash: [1; 32], index: 0 },
                script_sig: vec![],
                sequence: 0xffffffff,
            },
            TransactionInput {
                prevout: OutPoint { hash: [2; 32], index: 0 },
                script_sig: vec![],
                sequence: 0xffffffff,
            },
        ],
        outputs: vec![TransactionOutput {
            value: 700000000,
            script_pubkey: vec![],
        }],
        lock_time: 0,
    };

    let (result, fee) = check_tx_inputs(&tx, &utxo_set, 0).unwrap();

    assert_eq!(result, ValidationResult::Valid);
    assert_eq!(fee, 100000000);
}

#[test]
fn test_is_coinbase_edge_cases() {
    let valid_coinbase = Transaction {
        version: 1,
        inputs: vec![TransactionInput {
            prevout: OutPoint { hash: [0; 32], index: 0xffffffff },
            script_sig: vec![],
            sequence: 0xffffffff,
        }],
        outputs: vec![],
        lock_time: 0,
    };
    assert!(is_coinbase(&valid_coinbase));

    let wrong_hash = Transaction {
        version: 1,
        inputs: vec![TransactionInput {
            prevout: OutPoint { hash: [1; 32], index: 0xffffffff },
            script_sig: vec![],
            sequence: 0xffffffff,
        }],
        outputs: vec![],
        lock_time: 0,
    };
    assert!(!is_coinbase(&wrong_hash));

    let wrong_index = Transaction {
        version: 1,
        inputs: vec![TransactionInput {
            prevout: OutPoint { hash: [0; 32], index: 0 },
            script_sig: vec![],
            sequence: 0xffffffff,
        }],
        outputs: vec![],
        lock_time: 0,
    };
    assert!(!is_coinbase(&wrong_index));

    let multiple_inputs = Transaction {
        version: 1,
        inputs: vec![
            TransactionInput {
                prevout: OutPoint { hash: [0; 32], index: 0xffffffff },
                script_sig: vec![],
                sequence: 0xffffffff,
            },
            TransactionInput {
                prevout: OutPoint { hash: [1; 32], index: 0 },
                script_sig: vec![],
                sequence: 0xffffffff,
            },
        ],
        outputs: vec![],
        lock_time: 0,
    };
    assert!(!is_coinbase(&multiple_inputs));

    let no_inputs = Transaction {
        version: 1,
        inputs: vec![],
        outputs: vec![],
        lock_time: 0,
    };
    assert!(!is_coinbase(&no_inputs));
}

#[test]
fn test_calculate_transaction_size() {
    let tx = Transaction {
        version: 1,
        inputs: vec![
            TransactionInput {
                prevout: OutPoint { hash: [0; 32], index: 0 },
                script_sig: vec![1, 2, 3],
                sequence: 0xffffffff,
            },
            TransactionInput {
                prevout: OutPoint { hash: [1; 32], index: 1 },
                script_sig: vec![4, 5, 6],
                sequence: 0xffffffff,
            },
        ],
        outputs: vec![
            TransactionOutput {
                value: 1000,
                script_pubkey: vec![7, 8, 9],
            },
            TransactionOutput {
                value: 2000,
                script_pubkey: vec![10, 11, 12],
            },
        ],
        lock_time: 12345,
    };

    let size = calculate_transaction_size(&tx);
    assert_eq!(size, 108);
}
