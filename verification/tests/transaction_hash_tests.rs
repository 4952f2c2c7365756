use bllvm_consensus::transaction_hash::{calculate_transaction_sighash, encode_varint, SighashType};
use bllvm_consensus::types::{OutPoint, Transaction, TransactionInput, TransactionOutput};

#[test]
fn test_sighash_type_parsing() {
    assert_eq!(SighashType::from_byte(0x01).unwrap(), SighashType::All);
    assert_eq!(SighashType::from_byte(0x02).unwrap(), SighashType::NoOutputs);
    assert_eq!(SighashType::from_byte(0x03).unwrap(), SighashType::Single);
    assert!(SighashType::from_byte(0x00).is_err());
}

#[test]
fn test_varint_encoding() {
    assert_eq!(encode_varint(0), vec![0]);
    assert_eq!(encode_varint(252), vec![252]);
    assert_eq!(encode_varint(253), vec![0xfd, 253, 0]);
    assert_eq!(encode_varint(65535), vec![0xfd, 255, 255]);
    assert_eq!(encode_varint(65536), vec![0xfe, 0, 0, 1, 0]);
}

#[test]
fn test_sighash_calculation() {
    let tx = Transaction {
        version: 1,
        inputs: vec![TransactionInput {
            prevout: OutPoint { hash: [1u8; 32], index: 0 },
            script_sig: vec![0x51],
            sequence: 0xffffffff,
        }],
        outputs: vec![TransactionOutput {
            value: 5000000000,
            script_pubkey: vec![0x76, 0xa9, 0x14, 0x89, 0xab, 0xcd, 0xef, 0x12, 0x34, 0x56, 0x78, 0x9a, 0xbc, 0xde, 0xf0, 0x12, 0x34, 0x56, 0x78, 0x9a, 0x88, 0xac],
        }],
        lock_time: 0,
    };

    let prevouts = vec![TransactionOutput {
        value: 10000000000,
        script_pubkey: vec![0x76, 0xa9, 0x14, 0x89, 0xab, 0xcd, 0xef, 0x12, 0x34, 0x56, 0x78, 0x9a, 0xbc, 0xde, 0xf0, 0x12, 0x34, 0x56, 0x78, 0x9a, 0x88, 0xac],
    }];

    let sighash = calculate_transaction_sighash(&tx, 0, &prevouts, SighashType::All).unwrap();
    assert_eq!(sighash.len(), 32);

    let sighash_none = calculate_transaction_sighash(&tx, 0, &prevouts, SighashType::NoOutputs).unwrap();
    assert_ne!(sighash, sighash_none);

    let sighash_single = calculate_transaction_sighash(&tx, 0, &prevouts, SighashType::Single).unwrap();
    assert_ne!(sighash, sighash_single);
}

#[test]
fn test_sighash_invalid_input_index() {
    let tx = Transaction {
        version: 1,
        inputs: vec![],
        outputs: vec![],
        lock_time: 0,
    };

    let result = calculate_transaction_sighash(&tx, 0, &[], SighashType::All);
    assert!(result.is_err());
}
