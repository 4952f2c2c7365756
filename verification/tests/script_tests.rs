use bllvm_consensus::constants::{MAX_SCRIPT_OPS, MAX_SCRIPT_SIZE, MAX_STACK_SIZE};
use bllvm_consensus::crypto::verify_signature;
use bllvm_consensus::script::{eval_script, verify_script};

#[test]
fn test_eval_script_simple() {
    let script = vec![0x51];
    let mut stack = Vec::new();
    assert!(eval_script(&script, &mut stack, 0).unwrap());
    assert_eq!(stack.len(), 1);
    assert_eq!(stack[0], vec![1]);
}

#[test]
fn test_eval_script_overflow() {
    let script = vec![0x51; MAX_STACK_SIZE + 1];
    let mut stack = Vec::new();
    assert!(eval_script(&script, &mut stack, 0).is_err());
}

#[test]
fn test_verify_script_simple() {
    let script_sig = vec![0x51];
    let script_pubkey = vec![0x76, 0x88];
    assert!(!verify_script(&script_sig, &script_pubkey, None, 0).unwrap());
}

#[test]
fn test_op_0() {
    let script = vec![0x00];
    let mut stack = Vec::new();
    let result = eval_script(&script, &mut stack, 0).unwrap();
    assert!(!result);
    assert_eq!(stack.len(), 1);
    assert!(stack[0].is_empty());
}

#[test]
fn test_op_1_to_op_16() {
    for i in 1..=16 {
        let opcode = 0x50 + i;
        let script = vec![opcode];
        let mut stack = Vec::new();
        let result = eval_script(&script, &mut stack, 0).unwrap();
        assert!(result);
        assert_eq!(stack.len(), 1);
        assert_eq!(stack[0], vec![i]);
    }
}

#[test]
fn test_op_dup() {
    let script = vec![0x51, 0x76];
    let mut stack = Vec::new();
    let result = eval_script(&script, &mut stack, 0).unwrap();
    assert!(!result);
    assert_eq!(stack.len(), 2);
    assert_eq!(stack[0], vec![1]);
    assert_eq!(stack[1], vec![1]);
}

#[test]
fn test_op_dup_empty_stack() {
    let script = vec![0x76];
    let mut stack = Vec::new();
    let result = eval_script(&script, &mut stack, 0).unwrap();
    assert!(!result);
}

#[test]
fn test_op_hash160() {
    let script = vec![0x51, 0xa9];
    let mut stack = Vec::new();
    let result = eval_script(&script, &mut stack, 0).unwrap();
    assert!(result);
    assert_eq!(stack.len(), 1);
    assert_eq!(stack[0].len(), 20);
}

#[test]
fn test_op_hash160_empty_stack() {
    let script = vec![0xa9];
    let mut stack = Vec::new();
    let result = eval_script(&script, &mut stack, 0).unwrap();
    assert!(!result);
}

#[test]
fn test_op_hash256() {
    let script = vec![0x51, 0xaa];
    let mut stack = Vec::new();
    let result = eval_script(&script, &mut stack, 0).unwrap();
    assert!(result);
    assert_eq!(stack.len(), 1);
    assert_eq!(stack[0].len(), 32);
}

#[test]
fn test_op_hash256_empty_stack() {
    let script = vec![0xaa];
    let mut stack = Vec::new();
    let result = eval_script(&script, &mut stack, 0).unwrap();
    assert!(!result);
}

#[test]
fn test_op_equal() {
    let script = vec![0x51, 0x51, 0x87];
    let mut stack = Vec::new();
    let result = eval_script(&script, &mut stack, 0).unwrap();
    assert!(result);
    assert_eq!(stack.len(), 1);
    assert_eq!(stack[0], vec![1]);
}

#[test]
fn test_op_equal_false() {
    let script = vec![0x51, 0x52, 0x87];
    let mut stack = Vec::new();
    let result = eval_script(&script, &mut stack, 0).unwrap();
    assert!(!result);
    assert_eq!(stack.len(), 1);
    assert_eq!(stack[0], vec![0]);
}

#[test]
fn test_op_equal_insufficient_stack() {
    let script = vec![0x51, 0x87];
    let mut stack = Vec::new();
    let result = eval_script(&script, &mut stack, 0).unwrap();
    assert!(!result);
}

#[test]
fn test_op_verify() {
    let script = vec![0x51, 0x69];
    let mut stack = Vec::new();
    let result = eval_script(&script, &mut stack, 0).unwrap();
    assert!(!result);
    assert_eq!(stack.len(), 0);
}

#[test]
fn test_op_verify_false() {
    let script = vec![0x00, 0x69];
    let mut stack = Vec::new();
    let result = eval_script(&script, &mut stack, 0).unwrap();
    assert!(!result);
}

#[test]
fn test_op_verify_empty_stack() {
    let script = vec![0x69];
    let mut stack = Vec::new();
    let result = eval_script(&script, &mut stack, 0).unwrap();
    assert!(!result);
}

#[test]
fn test_op_equalverify() {
    let script = vec![0x51, 0x51, 0x88];
    let mut stack = Vec::new();
    let result = eval_script(&script, &mut stack, 0).unwrap();
    assert!(!result);
    assert_eq!(stack.len(), 0);
}

#[test]
fn test_op_equalverify_false() {
    let script = vec![0x51, 0x52, 0x88];
    let mut stack = Vec::new();
    let result = eval_script(&script, &mut stack, 0).unwrap();
    assert!(!result);
}

#[test]
fn test_op_checksig() {
    let script = vec![0x51, 0x51, 0xac];
    let mut stack = Vec::new();
    let result = eval_script(&script, &mut stack, 0).unwrap();
    assert!(!result);
    assert_eq!(stack.len(), 1);
}

#[test]
fn test_op_checksig_insufficient_stack() {
    let script = vec![0x51, 0xac];
    let mut stack = Vec::new();
    let result = eval_script(&script, &mut stack, 0).unwrap();
    assert!(!result);
}

#[test]
fn test_unknown_opcode() {
    let script = vec![0xff];
    let mut stack = Vec::new();
    let result = eval_script(&script, &mut stack, 0).unwrap();
    assert!(!result);
}

#[test]
fn test_script_size_limit() {
    let script = vec![0x51; MAX_SCRIPT_SIZE + 1];
    let mut stack = Vec::new();
    let result = eval_script(&script, &mut stack, 0);
    assert!(result.is_err());
}

#[test]
fn test_operation_count_limit() {
    let script = vec![0x51; MAX_SCRIPT_OPS + 1];
    let mut stack = Vec::new();
    let result = eval_script(&script, &mut stack, 0);
    assert_eq!(result, Ok(false));
    assert_eq!(stack.len(), MAX_SCRIPT_OPS + 1);
}

#[test]
fn test_operation_count_limit_of_non_push_opcodes() {
    let mut script = vec![0x51];
    script.extend(vec![0x76; MAX_SCRIPT_OPS + 1]);
    let mut stack = Vec::new();
    let result = eval_script(&script, &mut stack, 0);
    assert!(result.is_err());
}

#[test]
fn test_stack_underflow_multiple_ops() {
    let script = vec![0x51, 0x87, 0x87];
    let mut stack = Vec::new();
    let result = eval_script(&script, &mut stack, 0).unwrap();
    assert!(!result);
}

#[test]
fn test_final_stack_empty() {
    let script = vec![0x51, 0x52];
    let mut stack = Vec::new();
    let result = eval_script(&script, &mut stack, 0).unwrap();
    assert!(!result);
}

#[test]
fn test_final_stack_false() {
    let script = vec![0x00];
    let mut stack = Vec::new();
    let result = eval_script(&script, &mut stack, 0).unwrap();
    assert!(!result);
}

#[test]
fn test_verify_script_with_witness() {
    let script_sig = vec![0x51];
    let script_pubkey = vec![0x51];
    let witness = vec![0x51];
    let flags = 0;
    let result = verify_script(&script_sig, &script_pubkey, Some(&witness), flags).unwrap();
    assert!(!result);
}

#[test]
fn test_verify_script_failure() {
    let script_sig = vec![0x51];
    let script_pubkey = vec![0x52];
    let witness = None;
    let flags = 0;
    let result = verify_script(&script_sig, &script_pubkey, witness, flags).unwrap();
    assert!(!result);
}

#[test]
fn test_op_ifdup_true() {
    let script = vec![0x51, 0x73];
    let mut stack = Vec::new();
    let result = eval_script(&script, &mut stack, 0).unwrap();
    assert!(!result);
    assert_eq!(stack.len(), 2);
    assert_eq!(stack[0], vec![1]);
    assert_eq!(stack[1], vec![1]);
}

#[test]
fn test_op_ifdup_false() {
    let script = vec![0x00, 0x73];
    let mut stack = Vec::new();
    let result = eval_script(&script, &mut stack, 0).unwrap();
    assert!(!result);
    assert_eq!(stack.len(), 1);
    assert_eq!(stack[0], Vec::<u8>::new());
}

#[test]
fn test_op_depth() {
    let script = vec![0x51, 0x51, 0x74];
    let mut stack = Vec::new();
    let result = eval_script(&script, &mut stack, 0).unwrap();
    assert!(!result);
    assert_eq!(stack.len(), 3);
    assert_eq!(stack[2], vec![2]);
}

#[test]
fn test_op_drop() {
    let script = vec![0x51, 0x52, 0x75];
    let mut stack = Vec::new();
    let result = eval_script(&script, &mut stack, 0).unwrap();
    assert!(result);
    assert_eq!(stack.len(), 1);
    assert_eq!(stack[0], vec![1]);
}

#[test]
fn test_op_drop_empty_stack() {
    let script = vec![0x75];
    let mut stack = Vec::new();
    let result = eval_script(&script, &mut stack, 0).unwrap();
    assert!(!result);
    assert_eq!(stack.len(), 0);
}

#[test]
fn test_op_nip() {
    let script = vec![0x51, 0x52, 0x77];
    let mut stack = Vec::new();
    let result = eval_script(&script, &mut stack, 0).unwrap();
    assert!(result);
    assert_eq!(stack.len(), 1);
    assert_eq!(stack[0], vec![2]);
}

#[test]
fn test_op_nip_insufficient_stack() {
    let script = vec![0x51, 0x77];
    let mut stack = Vec::new();
    let result = eval_script(&script, &mut stack, 0).unwrap();
    assert!(!result);
    assert_eq!(stack.len(), 1);
}

#[test]
fn test_op_over() {
    let script = vec![0x51, 0x52, 0x78];
    let mut stack = Vec::new();
    let result = eval_script(&script, &mut stack, 0).unwrap();
    assert!(!result);
    assert_eq!(stack.len(), 3);
    assert_eq!(stack[0], vec![1]);
    assert_eq!(stack[1], vec![2]);
    assert_eq!(stack[2], vec![1]);
}

#[test]
fn test_op_over_insufficient_stack() {
    let script = vec![0x51, 0x78];
    let mut stack = Vec::new();
    let result = eval_script(&script, &mut stack, 0).unwrap();
    assert!(!result);
    assert_eq!(stack.len(), 1);
}

#[test]
fn test_op_pick() {
    let script = vec![0x51, 0x52, 0x53, 0x51, 0x79];
    let mut stack = Vec::new();
    let result = eval_script(&script, &mut stack, 0).unwrap();
    assert!(!result);
    assert_eq!(stack.len(), 4);
    assert_eq!(stack[3], vec![2]);
}

#[test]
fn test_op_pick_empty_n() {
    let script = vec![0x51, 0x00, 0x79];
    let mut stack = Vec::new();
    let result = eval_script(&script, &mut stack, 0).unwrap();
    assert!(!result);
    assert_eq!(stack.len(), 1);
}

#[test]
fn test_op_pick_invalid_index() {
    let script = vec![0x51, 0x52, 0x79];
    let mut stack = Vec::new();
    let result = eval_script(&script, &mut stack, 0).unwrap();
    assert!(!result);
    assert_eq!(stack.len(), 1);
}

#[test]
fn test_op_roll() {
    let script = vec![0x51, 0x52, 0x53, 0x51, 0x7a];
    let mut stack = Vec::new();
    let result = eval_script(&script, &mut stack, 0).unwrap();
    assert!(!result);
    assert_eq!(stack.len(), 3);
    assert_eq!(stack[0], vec![1]);
    assert_eq!(stack[1], vec![3]);
    assert_eq!(stack[2], vec![2]);
}

#[test]
fn test_op_roll_empty_n() {
    let script = vec![0x51, 0x00, 0x7a];
    let mut stack = Vec::new();
    let result = eval_script(&script, &mut stack, 0).unwrap();
    assert!(!result);
    assert_eq!(stack.len(), 1);
}

#[test]
fn test_op_roll_invalid_index() {
    let script = vec![0x51, 0x52, 0x7a];
    let mut stack = Vec::new();
    let result = eval_script(&script, &mut stack, 0).unwrap();
    assert!(!result);
    assert_eq!(stack.len(), 1);
}

#[test]
fn test_op_rot() {
    let script = vec![0x51, 0x52, 0x53, 0x7b];
    let mut stack = Vec::new();
    let result = eval_script(&script, &mut stack, 0).unwrap();
    assert!(!result);
    assert_eq!(stack.len(), 3);
    assert_eq!(stack[0], vec![2]);
    assert_eq!(stack[1], vec![3]);
    assert_eq!(stack[2], vec![1]);
}

#[test]
fn test_op_rot_insufficient_stack() {
    let script = vec![0x51, 0x52, 0x7b];
    let mut stack = Vec::new();
    let result = eval_script(&script, &mut stack, 0).unwrap();
    assert!(!result);
    assert_eq!(stack.len(), 2);
}

#[test]
fn test_op_swap() {
    let script = vec![0x51, 0x52, 0x7c];
    let mut stack = Vec::new();
    let result = eval_script(&script, &mut stack, 0).unwrap();
    assert!(!result);
    assert_eq!(stack.len(), 2);
    assert_eq!(stack[0], vec![2]);
    assert_eq!(stack[1], vec![1]);
}

#[test]
fn test_op_swap_insufficient_stack() {
    let script = vec![0x51, 0x7c];
    let mut stack = Vec::new();
    let result = eval_script(&script, &mut stack, 0).unwrap();
    assert!(!result);
    assert_eq!(stack.len(), 1);
}

#[test]
fn test_op_tuck() {
    let script = vec![0x51, 0x52, 0x7d];
    let mut stack = Vec::new();
    let result = eval_script(&script, &mut stack, 0).unwrap();
    assert!(!result);
    assert_eq!(stack.len(), 3);
    assert_eq!(stack[0], vec![2]);
    assert_eq!(stack[1], vec![1]);
    assert_eq!(stack[2], vec![2]);
}

#[test]
fn test_op_tuck_insufficient_stack() {
    let script = vec![0x51, 0x7d];
    let mut stack = Vec::new();
    let result = eval_script(&script, &mut stack, 0).unwrap();
    assert!(!result);
    assert_eq!(stack.len(), 1);
}

#[test]
fn test_op_2drop() {
    let script = vec![0x51, 0x52, 0x53, 0x6d];
    let mut stack = Vec::new();
    let result = eval_script(&script, &mut stack, 0).unwrap();
    assert!(result);
    assert_eq!(stack.len(), 1);
    assert_eq!(stack[0], vec![1]);
}

#[test]
fn test_op_2drop_insufficient_stack() {
    let script = vec![0x51, 0x6d];
    let mut stack = Vec::new();
    let result = eval_script(&script, &mut stack, 0).unwrap();
    assert!(!result);
    assert_eq!(stack.len(), 1);
}

#[test]
fn test_op_2dup() {
    let script = vec![0x51, 0x52, 0x6e];
    let mut stack = Vec::new();
    let result = eval_script(&script, &mut stack, 0).unwrap();
    assert!(!result);
    assert_eq!(stack.len(), 4);
    assert_eq!(stack[0], vec![1]);
    assert_eq!(stack[1], vec![2]);
    assert_eq!(stack[2], vec![1]);
    assert_eq!(stack[3], vec![2]);
}

#[test]
fn test_op_2dup_insufficient_stack() {
    let script = vec![0x51, 0x6e];
    let mut stack = Vec::new();
    let result = eval_script(&script, &mut stack, 0).unwrap();
    assert!(!result);
    assert_eq!(stack.len(), 1);
}

#[test]
fn test_op_3dup() {
    let script = vec![0x51, 0x52, 0x53, 0x6f];
    let mut stack = Vec::new();
    let result = eval_script(&script, &mut stack, 0).unwrap();
    assert!(!result);
    assert_eq!(stack.len(), 6);
    assert_eq!(stack[0], vec![1]);
    assert_eq!(stack[1], vec![2]);
    assert_eq!(stack[2], vec![3]);
    assert_eq!(stack[3], vec![1]);
    assert_eq!(stack[4], vec![2]);
    assert_eq!(stack[5], vec![3]);
}

#[test]
fn test_op_3dup_insufficient_stack() {
    let script = vec![0x51, 0x52, 0x6f];
    let mut stack = Vec::new();
    let result = eval_script(&script, &mut stack, 0).unwrap();
    assert!(!result);
    assert_eq!(stack.len(), 2);
}

#[test]
fn test_op_2over() {
    let script = vec![0x51, 0x52, 0x53, 0x54, 0x70];
    let mut stack = Vec::new();
    let result = eval_script(&script, &mut stack, 0).unwrap();
    assert!(!result);
    assert_eq!(stack.len(), 6);
    assert_eq!(stack[4], vec![1]);
    assert_eq!(stack[5], vec![2]);
}

#[test]
fn test_op_2over_insufficient_stack() {
    let script = vec![0x51, 0x52, 0x53, 0x70];
    let mut stack = Vec::new();
    let result = eval_script(&script, &mut stack, 0).unwrap();
    assert!(!result);
    assert_eq!(stack.len(), 3);
}

#[test]
fn test_op_2rot() {
    let script = vec![0x51, 0x52, 0x53, 0x54, 0x55, 0x56, 0x71];
    let mut stack = Vec::new();
    let result = eval_script(&script, &mut stack, 0).unwrap();
    assert!(!result);
    assert_eq!(stack.len(), 6);
    assert_eq!(stack[4], vec![2]);
    assert_eq!(stack[5], vec![1]);
}

#[test]
fn test_op_2rot_insufficient_stack() {
    let script = vec![0x51, 0x52, 0x53, 0x54, 0x71];
    let mut stack = Vec::new();
    let result = eval_script(&script, &mut stack, 0).unwrap();
    assert!(!result);
    assert_eq!(stack.len(), 4);
}

#[test]
fn test_op_2swap() {
    let script = vec![0x51, 0x52, 0x53, 0x54, 0x72];
    let mut stack = Vec::new();
    let result = eval_script(&script, &mut stack, 0).unwrap();
    assert!(!result);
    assert_eq!(stack.len(), 4);
    assert_eq!(stack[0], vec![3]);
    assert_eq!(stack[1], vec![4]);
    assert_eq!(stack[2], vec![1]);
    assert_eq!(stack[3], vec![2]);
}

#[test]
fn test_op_2swap_insufficient_stack() {
    let script = vec![0x51, 0x52, 0x53, 0x72];
    let mut stack = Vec::new();
    let result = eval_script(&script, &mut stack, 0).unwrap();
    assert!(!result);
    assert_eq!(stack.len(), 3);
}

#[test]
fn test_op_size() {
    let script = vec![0x51, 0x82];
    let mut stack = Vec::new();
    let result = eval_script(&script, &mut stack, 0).unwrap();
    assert!(!result);
    assert_eq!(stack.len(), 2);
    assert_eq!(stack[0], vec![1]);
    assert_eq!(stack[1], vec![1]);
}

#[test]
fn test_op_size_empty_stack() {
    let script = vec![0x82];
    let mut stack = Vec::new();
    let result = eval_script(&script, &mut stack, 0).unwrap();
    assert!(!result);
    assert_eq!(stack.len(), 0);
}

#[test]
fn test_op_return() {
    let script = vec![0x51, 0x6a];
    let mut stack = Vec::new();
    let result = eval_script(&script, &mut stack, 0).unwrap();
    assert!(!result);
    assert_eq!(stack.len(), 1);
}

#[test]
fn test_op_checksigverify() {
    let script = vec![0x51, 0x52, 0xad];
    let mut stack = Vec::new();
    let result = eval_script(&script, &mut stack, 0).unwrap();
    assert!(!result);
    assert_eq!(stack.len(), 0);
}

#[test]
fn test_op_checksigverify_insufficient_stack() {
    let script = vec![0x51, 0xad];
    let mut stack = Vec::new();
    let result = eval_script(&script, &mut stack, 0).unwrap();
    assert!(!result);
    assert_eq!(stack.len(), 1);
}

#[test]
fn test_unknown_opcode_comprehensive() {
    let script = vec![0x51, 0xff];
    let mut stack = Vec::new();
    let result = eval_script(&script, &mut stack, 0).unwrap();
    assert!(!result);
    assert_eq!(stack.len(), 1);
}

#[test]
fn test_verify_signature_invalid_pubkey() {
    let invalid_pubkey = vec![0x00];
    let signature = vec![0x30, 0x06, 0x02, 0x01, 0x00, 0x02, 0x01, 0x00];
    let dummy_hash = [0u8; 32];
    let result = verify_signature(&invalid_pubkey, &signature, &dummy_hash, 0);
    assert!(!result);
}

#[test]
fn test_verify_signature_invalid_signature() {
    let pubkey = vec![0x02, 0x79, 0xbe, 0x66, 0x7e, 0xf9, 0xdc, 0xbb, 0xac, 0x55, 0xa0, 0x62, 0x95, 0xce, 0x87, 0x0b, 0x07, 0x02, 0x9b, 0xfc, 0xdb, 0x2d, 0xce, 0x28, 0xd9, 0x59, 0xf2, 0x81, 0x5b, 0x16, 0xf8, 0x17, 0x98];
    let invalid_signature = vec![0x00];
    let dummy_hash = [0u8; 32];
    let result = verify_signature(&pubkey, &invalid_signature, &dummy_hash, 0);
    assert!(!result);
}
