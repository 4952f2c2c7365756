use bllvm_consensus::block::{calculate_tx_id, connect_block};
use bllvm_consensus::block_validation::{
    block_merkle_root, check_block_form, check_block_header, check_coinbase_place, check_coinbase_value,
    check_proof_of_work, compute_merkle_root, get_block_subsidy, median_time_past, sigops_within_limit,
    validate_block, weight_within_limit,
};
use bllvm_consensus::crypto::double_sha256;
use bllvm_consensus::difficulty::{
    byte_length, calculate_next_target, check_difficulty, compress_target, get_next_work_required,
    MAX_REPRESENTABLE_TARGET, TARGET_TIMESPAN,
};
use bllvm_consensus::error::{ConsensusError, PowError};
use bllvm_consensus::median::{median, value_of_rank};
use bllvm_consensus::reorganization::expand_target;
use bllvm_consensus::serialization::compute_block_hash;
use bllvm_consensus::types::{
    Block, BlockHeader, InvalidReason, OutPoint, Transaction, TransactionInput, TransactionOutput,
    ValidationResult, UTXO,
};
use bllvm_consensus::utxo_set::UtxoSet;

const EASY_BITS: u32 = 0x207fffff;

fn coinbase(tag: u8, value: i64) -> Transaction {
    Transaction {
        version: 1,
        inputs: vec![TransactionInput {
            prevout: OutPoint { hash: [0; 32], index: 0xffffffff },
            script_sig: vec![tag],
            sequence: 0xffffffff,
        }],
        outputs: vec![TransactionOutput { value, script_pubkey: vec![0x51, 0x87] }],
        lock_time: 0,
    }
}

fn spend(prev: OutPoint, script_sig: Vec<u8>, values: Vec<i64>) -> Transaction {
    Transaction {
        version: 1,
        inputs: vec![TransactionInput { prevout: prev, script_sig, sequence: 0xffffffff }],
        outputs: values
            .into_iter()
            .map(|value| TransactionOutput { value, script_pubkey: vec![0x51, 0x87] })
            .collect(),
        lock_time: 0,
    }
}

fn mined(mut header: BlockHeader) -> BlockHeader {
    while !check_proof_of_work(&header) {
        header.nonce += 1;
    }
    header
}

fn block_of(timestamp: u32, transactions: Vec<Transaction>) -> Block {
    let mut block = Block {
        header: BlockHeader {
            version: 1,
            prev_block_hash: [0; 32],
            merkle_root: [0; 32],
            timestamp,
            bits: EASY_BITS,
            nonce: 0,
        },
        transactions,
    };
    block.header.merkle_root = block_merkle_root(&block);
    block.header = mined(block.header);
    block
}

fn pair(a: &[u8; 32], b: &[u8; 32]) -> [u8; 32] {
    let mut both = a.to_vec();
    both.extend_from_slice(b);
    double_sha256(&both)
}

#[test]
fn test_block_subsidy_halves() {
    assert_eq!(get_block_subsidy(0), 5_000_000_000);
    assert_eq!(get_block_subsidy(209_999), 5_000_000_000);
    assert_eq!(get_block_subsidy(210_000), 2_500_000_000);
    assert_eq!(get_block_subsidy(419_999), 2_500_000_000);
    assert_eq!(get_block_subsidy(420_000), 1_250_000_000);
    assert_eq!(get_block_subsidy(210_000 * 10), 4_882_812);
    assert_eq!(get_block_subsidy(210_000 * 32), 1);
    assert_eq!(get_block_subsidy(210_000 * 33), 0);
    assert_eq!(get_block_subsidy(210_000 * 64), 0);
    assert_eq!(get_block_subsidy(u32::MAX), 0);
}

#[test]
fn test_merkle_root_levels() {
    let a = [1u8; 32];
    let b = [2u8; 32];
    let c = [3u8; 32];
    let d = [4u8; 32];
    let e = [5u8; 32];
    assert_eq!(compute_merkle_root(&[]), [0u8; 32]);
    assert_eq!(compute_merkle_root(&[a]), a);
    assert_eq!(compute_merkle_root(&[a, b]), pair(&a, &b));
    assert_eq!(compute_merkle_root(&[a, b, c]), pair(&pair(&a, &b), &pair(&c, &c)));
    assert_eq!(compute_merkle_root(&[a, b, c, d]), pair(&pair(&a, &b), &pair(&c, &d)));
    let left = pair(&pair(&a, &b), &pair(&c, &d));
    let right = pair(&pair(&e, &e), &pair(&e, &e));
    assert_eq!(compute_merkle_root(&[a, b, c, d, e]), pair(&left, &right));
    let txs = vec![coinbase(1, 50), coinbase(2, 50), coinbase(3, 50)];
    let ids: Vec<[u8; 32]> = txs.iter().map(calculate_tx_id).collect();
    let block = Block { header: block_of(1, vec![]).header, transactions: txs };
    assert_eq!(block_merkle_root(&block), compute_merkle_root(&ids));
}

#[test]
fn test_proof_of_work_compares_hash_and_target() {
    let mut header = BlockHeader {
        version: 1,
        prev_block_hash: [0; 32],
        merkle_root: [0; 32],
        timestamp: 1,
        bits: EASY_BITS,
        nonce: 0,
    };
    let mut passed = 0;
    let mut failed = 0;
    for nonce in 0..64 {
        header.nonce = nonce;
        let hash = compute_block_hash(&header);
        // the target is 0x7fffff followed by 29 zero bytes
        let expected = hash[31] < 0x7f
            || (hash[31] == 0x7f
                && (hash[30] < 0xff
                    || (hash[30] == 0xff && (hash[29] < 0xff || hash[..29].iter().all(|b| *b == 0)))));
        assert_eq!(check_proof_of_work(&header), expected);
        if expected {
            passed += 1;
        } else {
            failed += 1;
        }
    }
    assert!(passed > 0 && failed > 0);
    for bits in [0x00000000u32, 0x03ffffff, 0x0300ffff, 0x1d00ffff, 0x1f00ffff, 0x20000000, 0xff000000] {
        header.bits = bits;
        assert!(!check_proof_of_work(&header));
    }
    for bits in [0x2100ffffu32, 0x23000001, 0xff000001] {
        header.bits = bits;
        assert!(check_proof_of_work(&header));
    }
}

#[test]
fn test_median_and_ranks() {
    assert_eq!(median(&[]), None);
    assert_eq!(median(&[7]), Some(7));
    assert_eq!(median(&[3, 1, 2]), Some(2));
    assert_eq!(median(&[4, 1, 3, 2]), Some(3));
    assert_eq!(median(&[5, 5, 1, 5]), Some(5));
    let values = [9u32, 2, 7, 2, 5];
    let mut sorted = values.to_vec();
    sorted.sort();
    for rank in 0..values.len() {
        assert_eq!(value_of_rank(&values, rank), Some(sorted[rank]));
    }
    assert_eq!(value_of_rank(&values, 5), None);
}

fn header_at(timestamp: u32) -> BlockHeader {
    BlockHeader { version: 1, prev_block_hash: [0; 32], merkle_root: [0; 32], timestamp, bits: EASY_BITS, nonce: 0 }
}

#[test]
fn test_timestamp_must_exceed_median_of_eleven() {
    assert_eq!(median_time_past(&[]), None);
    let previous: Vec<BlockHeader> = (1..=13).map(|t| header_at(t * 10)).collect();
    // the last eleven are 30, 40, ..., 130; their median is 80
    assert_eq!(median_time_past(&previous), Some(80));
    assert_eq!(median_time_past(&previous[..3]), Some(20));
    let candidate = |timestamp: u32| mined(header_at(timestamp));
    assert_eq!(
        check_block_header(&candidate(80), &previous),
        ValidationResult::Invalid(InvalidReason::TimestampTooEarly)
    );
    assert_eq!(check_block_header(&candidate(81), &previous), ValidationResult::Valid);
    assert_eq!(check_block_header(&candidate(0), &[]), ValidationResult::Valid);
    let mut weak = candidate(81);
    weak.bits = 0x0300ffff;
    assert_eq!(check_block_header(&weak, &previous), ValidationResult::Invalid(InvalidReason::BadProofOfWork));
}

#[test]
fn test_coinbase_place() {
    let place = |transactions: Vec<Transaction>| {
        check_coinbase_place(&Block { header: header_at(1), transactions })
    };
    let other = spend(OutPoint { hash: [1; 32], index: 0 }, vec![], vec![1]);
    assert_eq!(place(vec![]), ValidationResult::Invalid(InvalidReason::EmptyBlock));
    assert_eq!(place(vec![other.clone()]), ValidationResult::Invalid(InvalidReason::FirstNotCoinbase));
    assert_eq!(place(vec![coinbase(1, 1)]), ValidationResult::Valid);
    assert_eq!(place(vec![coinbase(1, 1), other.clone(), other.clone()]), ValidationResult::Valid);
    assert_eq!(
        place(vec![coinbase(1, 1), other.clone(), coinbase(2, 1), coinbase(3, 1)]),
        ValidationResult::Invalid(InvalidReason::ExtraCoinbase { index: 2 })
    );
}

#[test]
fn test_coinbase_value_limit() {
    assert!(check_coinbase_value(&coinbase(1, 5_000_000_000), 0, 0));
    assert!(!check_coinbase_value(&coinbase(1, 5_000_000_001), 0, 0));
    assert!(check_coinbase_value(&coinbase(1, 5_000_000_001), 0, 1));
    assert!(check_coinbase_value(&coinbase(1, 2_500_000_007), 210_000, 7));
    assert!(!check_coinbase_value(&coinbase(1, 2_500_000_008), 210_000, 7));
    assert!(!check_coinbase_value(&coinbase(1, -1), 0, 0));
    let mut two = coinbase(1, 3_000_000_000);
    two.outputs.push(TransactionOutput { value: 2_000_000_001, script_pubkey: vec![] });
    assert!(!check_coinbase_value(&two, 0, 0));
    two.outputs[1].value = 2_000_000_000;
    assert!(check_coinbase_value(&two, 0, 0));
}

#[test]
fn test_weight_and_sigop_limits() {
    let heavy = |len: usize| spend(OutPoint { hash: [1; 32], index: 0 }, vec![0x51; len], vec![1]);
    let light = Block { header: header_at(1), transactions: vec![coinbase(1, 1), heavy(400_000), heavy(400_000)] };
    assert!(weight_within_limit(&light));
    let too_heavy = Block { header: header_at(1), transactions: vec![coinbase(1, 1), heavy(500_000), heavy(500_000)] };
    assert!(!weight_within_limit(&too_heavy));
    // 80 + 1 + 63 + (4 + 1 + 36 + 5 + len + 4 + 1 + 8 + 1 + 2 + 4) = len + 210
    let exact = Block { header: header_at(1), transactions: vec![coinbase(1, 1), heavy(1_000_000 - 210)] };
    assert!(weight_within_limit(&exact));
    let over = Block { header: header_at(1), transactions: vec![coinbase(1, 1), heavy(1_000_000 - 209)] };
    assert!(!weight_within_limit(&over));

    let signing = |count: usize| spend(OutPoint { hash: [1; 32], index: 0 }, vec![0xac; count], vec![1]);
    let allowed = Block { header: header_at(1), transactions: vec![coinbase(1, 1), signing(10_000), signing(10_000)] };
    assert!(sigops_within_limit(&allowed));
    let mut one_more = allowed.clone();
    one_more.transactions[0].outputs[0].script_pubkey = vec![0xad];
    assert!(!sigops_within_limit(&one_more));
    assert_eq!(
        check_block_form(&block_of(1, one_more.transactions), &[]),
        ValidationResult::Invalid(InvalidReason::TooManySigops)
    );
    assert_eq!(
        check_block_form(&block_of(1, too_heavy.transactions), &[]),
        ValidationResult::Invalid(InvalidReason::BlockTooHeavy)
    );
}

fn funded_set() -> (UtxoSet, OutPoint, OutPoint) {
    let a = OutPoint { hash: [1; 32], index: 0 };
    let b = OutPoint { hash: [2; 32], index: 3 };
    let mut set = UtxoSet::new();
    set.insert(a, UTXO { value: 1_000, script_pubkey: vec![0x51, 0x87], height: 1 });
    set.insert(b, UTXO { value: 500, script_pubkey: vec![0x52, 0x87], height: 1 });
    (set, a, b)
}

#[test]
fn test_validate_block_accepts_and_connects() {
    let (set, a, b) = funded_set();
    let first = spend(a, vec![0x51], vec![600, 300]);
    let second = spend(OutPoint { hash: calculate_tx_id(&first), index: 1 }, vec![0x51], vec![250]);
    let third = spend(b, vec![0x52], vec![500]);
    let fees = 100 + 50;
    let block = block_of(100, vec![coinbase(1, 5_000_000_000 + fees), first.clone(), second.clone(), third.clone()]);
    let (expected_verdict, expected_set, expected_undo) = {
        let (copy, _, _) = funded_set();
        connect_block(&block, copy, 7)
    };
    assert_eq!(expected_verdict, ValidationResult::Valid);

    let (verdict, after, undo) = validate_block(&block, set, 7, &[header_at(99)], 0);
    assert_eq!(verdict, ValidationResult::Valid);
    assert_eq!(undo, expected_undo);
    assert_eq!(after.len(), expected_set.len());
    assert_eq!(after.len(), 4);
    assert!(!after.contains_key(&a) && !after.contains_key(&b));
    let height_of = |p: &OutPoint| after.get(p).map(|u| (u.value, u.height));
    assert_eq!(height_of(&OutPoint { hash: calculate_tx_id(&first), index: 0 }), Some((600, 7)));
    assert_eq!(height_of(&OutPoint { hash: calculate_tx_id(&second), index: 0 }), Some((250, 7)));
    assert_eq!(height_of(&OutPoint { hash: calculate_tx_id(&third), index: 0 }), Some((500, 7)));
    assert_eq!(
        height_of(&OutPoint { hash: calculate_tx_id(&block.transactions[0]), index: 0 }),
        Some((5_000_000_150, 7))
    );
}

fn rejected(block: &Block, previous: &[BlockHeader]) -> InvalidReason {
    let (set, a, b) = funded_set();
    let (verdict, after, undo) = validate_block(block, set, 7, previous, 0);
    assert_eq!(after.len(), 2);
    assert_eq!(after.get(&a).map(|u| u.value), Some(1_000));
    assert_eq!(after.get(&b).map(|u| u.value), Some(500));
    assert!(undo.spent.is_empty());
    match verdict {
        ValidationResult::Invalid(reason) => reason,
        ValidationResult::Valid => panic!("the block was accepted"),
    }
}

#[test]
fn test_validate_block_rejections_leave_the_set_alone() {
    let (_, a, b) = funded_set();
    let good = spend(a, vec![0x51], vec![900]);

    let greedy = block_of(100, vec![coinbase(1, 5_000_000_101), good.clone()]);
    assert_eq!(rejected(&greedy, &[]), InvalidReason::CoinbaseValueTooLarge);

    let wrong_script = block_of(100, vec![coinbase(1, 1), good.clone(), spend(b, vec![0x51], vec![500])]);
    assert_eq!(rejected(&wrong_script, &[]), InvalidReason::ScriptFailed { tx_index: 2, input_index: 0 });

    let missing = block_of(100, vec![coinbase(1, 1), spend(OutPoint { hash: [9; 32], index: 0 }, vec![0x51], vec![1])]);
    assert_eq!(rejected(&missing, &[]), InvalidReason::InvalidTransaction { tx_index: 1 });

    let overspent = block_of(100, vec![coinbase(1, 1), spend(a, vec![0x51], vec![1_001])]);
    assert_eq!(rejected(&overspent, &[]), InvalidReason::InvalidTransaction { tx_index: 1 });

    let twice = block_of(100, vec![coinbase(1, 1), good.clone(), spend(a, vec![0x51], vec![1])]);
    assert_eq!(rejected(&twice, &[]), InvalidReason::InvalidTransaction { tx_index: 2 });

    let no_outputs = block_of(100, vec![coinbase(1, 1), spend(a, vec![0x51], vec![])]);
    assert_eq!(rejected(&no_outputs, &[]), InvalidReason::InvalidTransaction { tx_index: 1 });

    let mut bad_root = block_of(100, vec![coinbase(1, 1), good.clone()]);
    bad_root.header.merkle_root[0] ^= 1;
    bad_root.header = mined(bad_root.header);
    assert_eq!(rejected(&bad_root, &[]), InvalidReason::BadMerkleRoot);

    let early = block_of(100, vec![coinbase(1, 1), good.clone()]);
    assert_eq!(rejected(&early, &[header_at(100)]), InvalidReason::TimestampTooEarly);

    let mut weak = block_of(100, vec![coinbase(1, 1), good.clone()]);
    weak.header.bits = 0x1d00ffff;
    assert_eq!(rejected(&weak, &[]), InvalidReason::BadProofOfWork);

    assert_eq!(rejected(&block_of(100, vec![good.clone()]), &[]), InvalidReason::FirstNotCoinbase);
    assert_eq!(rejected(&block_of(100, vec![]), &[]), InvalidReason::EmptyBlock);
    assert_eq!(
        rejected(&block_of(100, vec![coinbase(1, 1), coinbase(2, 1)]), &[]),
        InvalidReason::ExtraCoinbase { index: 1 }
    );
}

#[test]
fn test_next_target_scales_and_clamps() {
    let span = TARGET_TIMESPAN as u32;
    let old = 0xffff_0000_0000u128;
    assert_eq!(calculate_next_target(old, 1_000, 1_000 + span), old);
    assert_eq!(calculate_next_target(old, 1_000, 1_000 + span / 2), old / 2);
    assert_eq!(calculate_next_target(old, 1_000, 1_000 + span * 2), old * 2);
    assert_eq!(calculate_next_target(old, 1_000, 1_000 + span / 4), old / 4);
    assert_eq!(calculate_next_target(old, 1_000, 1_000 + span / 8), old / 4);
    assert_eq!(calculate_next_target(old, 1_000, 999), old / 4);
    assert_eq!(calculate_next_target(old, 1_000, 1_000 + span * 3), old * 3);
    assert_eq!(calculate_next_target(old, 0, span * 4), old * 4);
    assert_eq!(calculate_next_target(old, 0, u32::MAX), old * 4);
    assert_eq!(calculate_next_target(1_000_000, 0, span + 1), 1_000_000);
    assert_eq!(calculate_next_target(1_209_600, 0, span + 1), 1_209_601);
    assert_eq!(calculate_next_target(MAX_REPRESENTABLE_TARGET, 0, span * 2), MAX_REPRESENTABLE_TARGET);
    assert_eq!(calculate_next_target(u128::MAX, 0, span), MAX_REPRESENTABLE_TARGET);
    assert_eq!(calculate_next_target(0, 0, span), 0);
}

#[test]
fn test_compact_form_of_targets() {
    assert_eq!(byte_length(0), 0);
    assert_eq!(byte_length(0xff), 1);
    assert_eq!(byte_length(0x100), 2);
    assert_eq!(byte_length(u128::MAX), 16);
    assert_eq!(compress_target(0), 0);
    assert_eq!(compress_target(0x12), 0x01120000);
    assert_eq!(compress_target(0x80), 0x02008000);
    assert_eq!(compress_target(0x1234), 0x02123400);
    assert_eq!(compress_target(0x123456), 0x03123456);
    assert_eq!(compress_target(0x800000), 0x04008000);
    assert_eq!(compress_target(0x12345678), 0x04123456);
    assert_eq!(compress_target(0x92340000), 0x05009234);
    assert_eq!(compress_target(0xffff << 96), 0x0f00ffff);
    assert_eq!(compress_target(MAX_REPRESENTABLE_TARGET), 0x0f7fffff);
    assert_eq!(compress_target(u128::MAX), 0x0f7fffff);
    for target in [0u128, 1, 0x7f, 0x80, 0xffff, 0x7fffff, 0x800000, 0x12345678, 0xffff << 96, MAX_REPRESENTABLE_TARGET] {
        let bits = compress_target(target);
        let back = expand_target(bits).unwrap();
        assert!(back <= target);
        assert_eq!(compress_target(back), bits);
    }
}

#[test]
fn test_next_work_required() {
    let span = TARGET_TIMESPAN as u32;
    assert_eq!(get_next_work_required(0x0c00ffff, 0, span), Ok(0x0c00ffff));
    assert_eq!(get_next_work_required(0x0c00ffff, 0, span * 2), Ok(0x0c01fffe));
    assert_eq!(get_next_work_required(0x0c00ffff, 0, span / 2), Ok(0x0b7fff80));
    assert_eq!(get_next_work_required(0x0c00ffff, 0, span * 10), Ok(0x0c03fffc));
    assert_eq!(get_next_work_required(0x0f7fffff, 0, span * 4), Ok(0x0f7fffff));
    assert_eq!(
        get_next_work_required(0x1d00ffff, 0, span),
        Err(ConsensusError::InvalidProofOfWork(PowError::TargetTooLarge))
    );
}

#[test]
fn test_difficulty_of_a_header() {
    let span = TARGET_TIMESPAN as u32;
    let with_bits = |bits: u32| BlockHeader { bits, ..header_at(1) };
    let bad = ValidationResult::Invalid(InvalidReason::BadDifficultyBits);
    // between adjustments the target of the block before stays
    assert_eq!(check_difficulty(&with_bits(0x0c00ffff), 2015, 0x0c00ffff, 0, span * 2), ValidationResult::Valid);
    assert_eq!(check_difficulty(&with_bits(0x0c01fffe), 2015, 0x0c00ffff, 0, span * 2), bad);
    assert_eq!(check_difficulty(&with_bits(0x1d00ffff), 1, 0x1d00ffff, 0, 0), ValidationResult::Valid);
    // at an adjustment the target is scaled
    assert_eq!(check_difficulty(&with_bits(0x0c01fffe), 2016, 0x0c00ffff, 0, span * 2), ValidationResult::Valid);
    assert_eq!(check_difficulty(&with_bits(0x0c00ffff), 2016, 0x0c00ffff, 0, span * 2), bad);
    assert_eq!(check_difficulty(&with_bits(0x0c00ffff), 4032, 0x0c00ffff, 5, 5 + span), ValidationResult::Valid);
    assert_eq!(check_difficulty(&with_bits(0x0c00ffff), 0, 0x0c00ffff, 5, 5 + span), ValidationResult::Valid);
    assert_eq!(check_difficulty(&with_bits(0x1d00ffff), 2016, 0x1d00ffff, 0, span), bad);
}
