//! The rules that a block must keep by itself: proof of work, the place of
//! the coinbase and what it may claim, and the Merkle root of its
//! transactions.

use vstd::prelude::*;
use crate::block::{create_ops, spend_ops, tx_spend_ops, UtxoOp, apply_tx, block_ops, calculate_tx_id, connect_spec, connect_undo, indexable, rollback, rollback_spec, run_ops, spent_by, tx_ops, txid_spec, BlockUndo, JournalEntry, SpentView};
use crate::script::{context_digest, verify_script_with_context, verify_spec};
use crate::transaction::{check_transaction, check_transaction_spec, check_tx_inputs, check_tx_inputs_spec, lemma_check_transaction_valid, lemma_check_tx_inputs_valid};
use crate::types::{OutPoint, TransactionOutput};
use crate::utxo_set::{CoinView, UtxoSet};
use crate::bytes::{append_bytes, hash_eq, le_value, lemma_le_value_bytes, pow256, read_le, zeros};
use crate::constants::{HALVING_INTERVAL, INITIAL_SUBSIDY, MAX_BLOCK_SIGOPS_COST, MAX_BLOCK_WEIGHT, MAX_MONEY, MAX_TX_SIZE};
use crate::median::{median, median_spec};
use crate::serialization::varint::varint_len;
use crate::transaction::{serialized_size_up_to, varint_size};
use crate::crypto::{double_sha256, double_sha256_spec};
use crate::error::ConsensusError;
use crate::reorganization::full_target_spec;
use crate::serialization::block::{block_hash_spec, block_size_spec, compute_block_hash, txs_prefix_len};
use crate::transaction::{is_coinbase, is_coinbase_spec, money_range, outputs_total};
use crate::types::{Block, BlockHeader, BlockView, Integer, InvalidReason, Natural, Transaction, TxView, ValidationResult};

verus! {

/// Two to the power `n`.
pub open spec fn pow2(n: nat) -> nat
    decreases n,
{
    if n == 0 {
        1
    } else {
        2 * pow2((n - 1) as nat)
    }
}

/// The subsidy of a block at `height`: 50 coins, halved every
/// `HALVING_INTERVAL` blocks, and nothing after 64 halvings.
pub open spec fn subsidy_spec(height: u32) -> int {
    let halvings = (height as int) / (HALVING_INTERVAL as int);
    if halvings >= 64 {
        0
    } else {
        (INITIAL_SUBSIDY as int) / (pow2(halvings as nat) as int)
    }
}

/// The subsidy of a block at `height`.
pub fn get_block_subsidy(height: Natural) -> (r: Integer)
    ensures
        r as int == subsidy_spec(height),
        0 <= r <= INITIAL_SUBSIDY,
{
    let halvings: u64 = (height as u64) / HALVING_INTERVAL;
    if halvings >= 64 {
        return 0;
    }
    let mut value: i64 = INITIAL_SUBSIDY;
    let mut i: u64 = 0;
    assert(pow2(0) == 1);
    while i < halvings
        invariant
            i <= halvings,
            0 <= value <= INITIAL_SUBSIDY,
            value as int == (INITIAL_SUBSIDY as int) / (pow2(i as nat) as int),
        decreases halvings - i,
    {
        proof {
            let p = pow2(i as nat) as int;
            assert(p >= 1) by {
                lemma_pow2_positive(i as nat);
            }
            assert(pow2((i + 1) as nat) == 2 * pow2(i as nat));
            assert(((INITIAL_SUBSIDY as int) / p) / 2 == (INITIAL_SUBSIDY as int) / (2 * p)) by (nonlinear_arith)
                requires
                    p >= 1,
            ;
        }
        value = value / 2;
        i += 1;
    }
    value
}

proof fn lemma_pow2_positive(n: nat)
    ensures
        pow2(n) >= 1,
    decreases n,
{
    if n > 0 {
        lemma_pow2_positive((n - 1) as nat);
    }
}

/// The hashes of the next level of a Merkle tree: each is the double
/// SHA-256 of two neighbours, the last one paired with itself where it has
/// no neighbour.
pub open spec fn merkle_level(hashes: Seq<Seq<u8>>) -> Seq<Seq<u8>> {
    Seq::new(
        ((hashes.len() + 1) / 2) as nat,
        |i: int|
            double_sha256_spec(
                hashes[2 * i] + hashes[if 2 * i + 1 < hashes.len() {
                    2 * i + 1
                } else {
                    2 * i
                }],
            ),
    )
}

/// The Merkle root of a list of hashes: the one hash that is left when
/// level after level is taken. The root of no hash is 32 zero bytes.
pub open spec fn merkle_root_spec(hashes: Seq<Seq<u8>>) -> Seq<u8>
    decreases hashes.len(),
{
    if hashes.len() == 0 {
        zeros(32)
    } else if hashes.len() == 1 {
        hashes[0]
    } else {
        merkle_root_spec(merkle_level(hashes))
    }
}

/// The byte strings of a list of hashes.
pub open spec fn hashes_view(hashes: Seq<[u8; 32]>) -> Seq<Seq<u8>> {
    Seq::new(hashes.len(), |i: int| hashes[i]@)
}

/// The identifiers of the transactions of a block.
pub open spec fn txids_spec(txs: Seq<TxView>) -> Seq<Seq<u8>> {
    Seq::new(txs.len(), |i: int| txid_spec(txs[i])@)
}

/// The Merkle root of a list of hashes.
pub fn compute_merkle_root(hashes: &[[u8; 32]]) -> (r: [u8; 32])
    ensures
        r@ == merkle_root_spec(hashes_view(hashes@)),
{
    if hashes.len() == 0 {
        let r = [0u8; 32];
        assert(r@ =~= zeros(32));
        return r;
    }
    let mut level: Vec<[u8; 32]> = Vec::with_capacity(hashes.len());
    let mut c: usize = 0;
    while c < hashes.len()
        invariant
            c <= hashes@.len(),
            level@ == hashes@.subrange(0, c as int),
        decreases hashes@.len() - c,
    {
        level.push(hashes[c]);
        assert(level@ =~= hashes@.subrange(0, c + 1));
        c += 1;
    }
    assert(level@ =~= hashes@);
    while level.len() > 1
        invariant
            level@.len() >= 1,
            merkle_root_spec(hashes_view(level@)) == merkle_root_spec(hashes_view(hashes@)),
        decreases level@.len(),
    {
        let n = level.len();
        let mut next: Vec<[u8; 32]> = Vec::with_capacity(n / 2 + n % 2);
        let mut j: usize = 0;
        while j < n
            invariant
                n == level@.len(),
                n >= 2,
                j <= n,
                j % 2 == 0 || j == n,
                next@.len() == (j + 1) / 2,
                forall|k: int| 0 <= k < next@.len() ==> (#[trigger] next@[k])@ == merkle_level(hashes_view(level@))[k],
            decreases n - j,
        {
            let left = level[j];
            let paired = n - j >= 2;
            let right = if paired {
                level[j + 1]
            } else {
                level[j]
            };
            let mut both: Vec<u8> = Vec::with_capacity(64);
            append_bytes(&mut both, left.as_slice());
            append_bytes(&mut both, right.as_slice());
            assert(both@ =~= left@ + right@);
            assert(2 * ((j + 1) / 2) == j);
            next.push(double_sha256(both.as_slice()));
            j = if paired {
                j + 2
            } else {
                n
            };
        }
        assert(hashes_view(next@) =~= merkle_level(hashes_view(level@)));
        level = next;
    }
    level[0]
}

/// The Merkle root of the transactions of `block`.
pub fn block_merkle_root(block: &Block) -> (r: [u8; 32])
    ensures
        r@ == merkle_root_spec(txids_spec(block@.transactions)),
{
    let mut ids: Vec<[u8; 32]> = Vec::with_capacity(block.transactions.len());
    let mut i: usize = 0;
    while i < block.transactions.len()
        invariant
            i <= block.transactions@.len(),
            ids@.len() == i,
            forall|j: int| 0 <= j < i ==> (#[trigger] ids@[j])@ == txids_spec(block@.transactions)[j],
        decreases block.transactions@.len() - i,
    {
        assert(block@.transactions[i as int] == block.transactions@[i as int]@);
        ids.push(calculate_tx_id(&block.transactions[i]));
        i += 1;
    }
    assert(hashes_view(ids@) =~= txids_spec(block@.transactions));
    compute_merkle_root(ids.as_slice())
}

/// The number that a hash stands for: its bytes are the digits, the least
/// significant first.
pub open spec fn hash_value(hash: Seq<u8>) -> nat {
    le_value(hash)
}

/// Whether the header meets its own target: its hash, as a number, is not
/// above the target that its compact form stands for.
pub open spec fn proof_of_work_ok(header: BlockHeader) -> bool {
    hash_value(block_hash_spec(header)@) <= full_target_spec(header.bits)
}

proof fn lemma_le_value_append(a: Seq<u8>, b: Seq<u8>)
    ensures
        le_value(a + b) == le_value(a) + pow256(a.len()) * le_value(b),
    decreases a.len(),
{
    if a.len() == 0 {
        assert(a + b =~= b);
        assert(pow256(0) * le_value(b) == le_value(b)) by (nonlinear_arith)
            requires
                pow256(0) == 1,
        ;
    } else {
        let tail = a.subrange(1, a.len() as int);
        assert((a + b).subrange(1, (a + b).len() as int) =~= tail + b);
        lemma_le_value_append(tail, b);
        assert(256 * (le_value(tail) + pow256(tail.len()) * le_value(b)) == 256 * le_value(tail) + pow256(
            a.len(),
        ) * le_value(b)) by (nonlinear_arith)
            requires
                pow256(a.len()) == 256 * pow256(tail.len()),
        ;
    }
}

proof fn lemma_le_value_zero(s: Seq<u8>)
    ensures
        le_value(s) == 0 <==> forall|i: int| 0 <= i < s.len() ==> s[i] == 0u8,
    decreases s.len(),
{
    if s.len() > 0 {
        let tail = s.subrange(1, s.len() as int);
        lemma_le_value_zero(tail);
        if le_value(s) == 0 {
            assert forall|i: int| 0 <= i < s.len() implies s[i] == 0u8 by {
                if i > 0 {
                    assert(tail[i - 1] == s[i]);
                }
            }
        }
        if forall|i: int| 0 <= i < s.len() ==> s[i] == 0u8 {
            assert forall|i: int| 0 <= i < tail.len() implies tail[i] == 0u8 by {
                assert(tail[i] == s[i + 1]);
            }
        }
    }
}

proof fn lemma_pow256_positive(n: nat)
    ensures
        pow256(n) >= 1,
    decreases n,
{
    if n > 0 {
        lemma_pow256_positive((n - 1) as nat);
    }
}

/// Whether the bytes of `hash` from `from` to `to` are all zero.
fn zero_between(hash: &[u8; 32], from: usize, to: usize) -> (r: bool)
    requires
        from <= to <= 32,
    ensures
        r == (le_value(hash@.subrange(from as int, to as int)) == 0),
{
    proof {
        lemma_le_value_zero(hash@.subrange(from as int, to as int));
    }
    let mut i: usize = from;
    while i < to
        invariant
            from <= i <= to <= 32,
            forall|j: int| from <= j < i ==> hash@[j] == 0u8,
        decreases to - i,
    {
        if hash[i] != 0 {
            proof {
                lemma_le_value_zero(hash@.subrange(from as int, to as int));
                assert(hash@.subrange(from as int, to as int)[i - from] == hash@[i as int]);
            }
            return false;
        }
        i += 1;
    }
    assert forall|j: int| 0 <= j < to - from implies hash@.subrange(from as int, to as int)[j] == 0u8 by {
        assert(hash@.subrange(from as int, to as int)[j] == hash@[from + j]);
    }
    true
}

/// Whether the number that `hash` stands for is at most `mantissa` times
/// 256 to the power `shift`.
fn hash_within_shifted(hash: &[u8; 32], mantissa: u32, shift: usize) -> (r: bool)
    requires
        mantissa < 0x100_0000,
    ensures
        r == (hash_value(hash@) <= (mantissa as nat) * pow256(shift as nat)),
{
    let ghost s = hash@;
    if shift >= 32 {
        proof {
            lemma_le_value_bytes(s);
            crate::bytes::lemma_pow256_grows(32, shift as nat);
            lemma_pow256_positive(shift as nat);
            if mantissa > 0 {
                assert((mantissa as nat) * pow256(shift as nat) >= pow256(32)) by (nonlinear_arith)
                    requires
                        mantissa >= 1,
                        pow256(shift as nat) >= pow256(32),
                ;
            } else {
                assert((mantissa as nat) * pow256(shift as nat) == 0) by (nonlinear_arith)
                    requires
                        mantissa == 0,
                ;
            }
            assert(s.subrange(0, 32) =~= s);
        }
        return mantissa > 0 || zero_between(hash, 0, 32);
    }
    let top: usize = if shift + 3 <= 32 {
        shift + 3
    } else {
        32
    };
    let high_zero = zero_between(hash, top, 32);
    let middle = read_le(hash.as_slice(), shift, top - shift);
    let low_zero = zero_between(hash, 0, shift);
    proof {
        let low = s.subrange(0, shift as int);
        let mid = s.subrange(shift as int, top as int);
        let high = s.subrange(top as int, 32);
        assert(s =~= low + (mid + high));
        lemma_le_value_append(low, mid + high);
        lemma_le_value_append(mid, high);
        lemma_le_value_bytes(low);
        lemma_le_value_bytes(mid);
        lemma_pow256_positive(shift as nat);
        lemma_pow256_positive((top - shift) as nat);
        crate::bytes::lemma_pow256_grows((top - shift) as nat, 3);
        lemma_pow256_values_small();
        let l = le_value(low);
        let m = le_value(mid);
        let h = le_value(high);
        let p = pow256(shift as nat);
        let pm = pow256((top - shift) as nat);
        let t = mantissa as nat;
        assert(le_value(s) == l + p * (m + pm * h));
        if h > 0 {
            assert(top == shift + 3);
            assert(l + p * (m + pm * h) > t * p) by (nonlinear_arith)
                requires
                    h >= 1,
                    pm == 0x100_0000,
                    t < 0x100_0000,
                    p >= 1,
                    l >= 0,
                    m >= 0,
            ;
        } else {
            assert(l + p * (m + pm * h) == l + p * m) by (nonlinear_arith)
                requires
                    h == 0,
            ;
            if m < t {
                assert(l + p * m <= t * p) by (nonlinear_arith)
                    requires
                        m + 1 <= t,
                        l < p,
                ;
            } else if m == t {
                assert((l + p * m <= t * p) == (l == 0)) by (nonlinear_arith)
                    requires
                        m == t,
                        l >= 0,
                ;
            } else {
                assert(l + p * m > t * p) by (nonlinear_arith)
                    requires
                        m >= t + 1,
                        l >= 0,
                        p >= 1,
                ;
            }
        }
    }
    if !high_zero {
        return false;
    }
    if middle < mantissa as u64 {
        true
    } else if middle == mantissa as u64 {
        low_zero
    } else {
        false
    }
}

proof fn lemma_pow256_values_small()
    ensures
        pow256(0) == 1,
        pow256(1) == 0x100,
        pow256(2) == 0x1_0000,
        pow256(3) == 0x100_0000,
{
    reveal_with_fuel(pow256, 4);
}

/// Checks the proof of work of a header: the double SHA-256 of its 80
/// bytes, read as a number with the least significant byte first, must not
/// be above the target that `bits` stands for.
pub fn check_proof_of_work(header: &BlockHeader) -> (r: bool)
    ensures
        r == proof_of_work_ok(*header),
{
    let exponent: u32 = header.bits / 0x100_0000;
    let mantissa: u32 = header.bits % 0x100_0000;
    let hash = compute_block_hash(header);
    proof {
        lemma_pow256_values_small();
    }
    if exponent <= 3 {
        let small: u32 = if exponent == 3 {
            assert(mantissa as nat / pow256(0) == mantissa as nat);
            mantissa
        } else if exponent == 2 {
            mantissa / 0x100
        } else if exponent == 1 {
            mantissa / 0x1_0000
        } else {
            mantissa / 0x100_0000
        };
        assert(small as nat == full_target_spec(header.bits));
        assert((small as nat) * pow256(0) == small as nat) by (nonlinear_arith)
            requires
                pow256(0) == 1,
        ;
        hash_within_shifted(&hash, small, 0)
    } else {
        hash_within_shifted(&hash, mantissa, (exponent - 3) as usize)
    }
}

/// The verdict on the place of the coinbase: a block has transactions, the
/// first is a coinbase, and no other is.
pub open spec fn coinbase_place_spec(txs: Seq<TxView>) -> ValidationResult {
    if txs.len() == 0 {
        ValidationResult::Invalid(InvalidReason::EmptyBlock)
    } else if !is_coinbase_spec(txs[0]) {
        ValidationResult::Invalid(InvalidReason::FirstNotCoinbase)
    } else if exists|i: int| 1 <= i < txs.len() && is_coinbase_spec(#[trigger] txs[i]) {
        ValidationResult::Invalid(
            InvalidReason::ExtraCoinbase {
                index: (choose|i: int|
                    1 <= i < txs.len() && is_coinbase_spec(#[trigger] txs[i]) && forall|j: int|
                        1 <= j < i ==> !is_coinbase_spec(#[trigger] txs[j])) as usize,
            },
        )
    } else {
        ValidationResult::Valid
    }
}

/// Checks the place of the coinbase in `block`.
pub fn check_coinbase_place(block: &Block) -> (r: ValidationResult)
    ensures
        r == coinbase_place_spec(block@.transactions),
        r == ValidationResult::Valid <==> block@.transactions.len() > 0 && is_coinbase_spec(
            block@.transactions[0],
        ) && forall|i: int| 1 <= i < block@.transactions.len() ==> !is_coinbase_spec(#[trigger] block@.transactions[i]),
{
    let ghost txs = block@.transactions;
    if block.transactions.len() == 0 {
        return ValidationResult::Invalid(InvalidReason::EmptyBlock);
    }
    assert(txs[0] == block.transactions@[0]@);
    if !is_coinbase(&block.transactions[0]) {
        return ValidationResult::Invalid(InvalidReason::FirstNotCoinbase);
    }
    let mut i: usize = 1;
    while i < block.transactions.len()
        invariant
            1 <= i <= block.transactions@.len(),
            txs == block@.transactions,
            is_coinbase_spec(txs[0]),
            forall|j: int| 1 <= j < i ==> !is_coinbase_spec(#[trigger] txs[j]),
        decreases block.transactions@.len() - i,
    {
        assert(txs[i as int] == block.transactions@[i as int]@);
        if is_coinbase(&block.transactions[i]) {
            proof {
                let found = choose|k: int|
                    1 <= k < txs.len() && is_coinbase_spec(#[trigger] txs[k]) && forall|j: int|
                        1 <= j < k ==> !is_coinbase_spec(#[trigger] txs[j]);
                assert(1 <= i < txs.len() && is_coinbase_spec(txs[i as int]));
                if found < i {
                    assert(!is_coinbase_spec(txs[found]));
                }
                if found > i {
                    assert(!is_coinbase_spec(txs[i as int]));
                }
            }
            return ValidationResult::Invalid(InvalidReason::ExtraCoinbase { index: i });
        }
        i += 1;
    }
    ValidationResult::Valid
}

/// Whether the coinbase claims no more than it may: every output value is
/// a valid amount, and their total is not above the subsidy at `height` and
/// the fees of the block together.
pub open spec fn coinbase_value_ok(coinbase: TxView, height: u32, fees: int) -> bool {
    (forall|i: int| 0 <= i < coinbase.outputs.len() ==> money_range((#[trigger] coinbase.outputs[i]).value as int))
        && outputs_total(coinbase.outputs, coinbase.outputs.len() as int) <= subsidy_spec(height) + fees
}

/// Checks that the coinbase claims no more than the subsidy at `height` and
/// the fees together.
pub fn check_coinbase_value(coinbase: &Transaction, height: Natural, fees: Integer) -> (r: bool)
    ensures
        r == coinbase_value_ok(coinbase@, height, fees as int),
{
    let allowed: i128 = (get_block_subsidy(height) as i128) + (fees as i128);
    if allowed < 0 {
        proof {
            lemma_total_monotone(coinbase@.outputs, 0, coinbase@.outputs.len() as int);
        }
        return false;
    }
    let mut total: i128 = 0;
    let mut i: usize = 0;
    while i < coinbase.outputs.len()
        invariant
            i <= coinbase.outputs@.len(),
            0 <= total <= allowed,
            allowed == subsidy_spec(height) + fees,
            allowed <= i64::MAX + INITIAL_SUBSIDY,
            total == outputs_total(coinbase@.outputs, i as int),
            forall|j: int| 0 <= j < i ==> money_range((#[trigger] coinbase@.outputs[j]).value as int),
        decreases coinbase.outputs@.len() - i,
    {
        let value = coinbase.outputs[i].value;
        assert(coinbase@.outputs[i as int] == coinbase.outputs@[i as int]@);
        if value < 0 || value > MAX_MONEY {
            return false;
        }
        if total + (value as i128) > allowed {
            proof {
                lemma_total_monotone(coinbase@.outputs, i + 1, coinbase@.outputs.len() as int);
            }
            return false;
        }
        total = total + (value as i128);
        i += 1;
    }
    true
}

/// Among valid amounts a longer list has no smaller a total.
proof fn lemma_total_monotone(outputs: Seq<crate::types::TxOutView>, a: int, b: int)
    requires
        0 <= a <= b <= outputs.len(),
    ensures
        (forall|i: int| 0 <= i < outputs.len() ==> money_range((#[trigger] outputs[i]).value as int))
            ==> outputs_total(outputs, a) <= outputs_total(outputs, b),
    decreases b - a,
{
    if a < b {
        lemma_total_monotone(outputs, a, b - 1);
    }
}

/// The weight of a block: four times its serialized size, since it carries
/// no witness data.
pub open spec fn block_weight_spec(block: BlockView) -> nat {
    4 * block_size_spec(block)
}

/// Whether the weight of `block` is at most `MAX_BLOCK_WEIGHT`.
pub fn weight_within_limit(block: &Block) -> (r: bool)
    ensures
        r == (block_weight_spec(block@) <= MAX_BLOCK_WEIGHT),
{
    let mut total: usize = 80 + varint_size(block.transactions.len());
    let mut i: usize = 0;
    while i < block.transactions.len()
        invariant
            i <= block.transactions@.len(),
            total <= MAX_TX_SIZE,
            total == 80 + varint_len(block@.transactions.len()) + txs_prefix_len(block@.transactions, i as int),
        decreases block.transactions@.len() - i,
    {
        assert(block@.transactions[i as int] == block.transactions@[i as int]@);
        proof {
            lemma_txs_size_grows(block@.transactions, i + 1, block@.transactions.len() as int);
        }
        match serialized_size_up_to(&block.transactions[i]) {
            None => {
                return false;
            },
            Some(size) => {
                if total + size > MAX_TX_SIZE {
                    return false;
                }
                total = total + size;
            },
        }
        i += 1;
    }
    true
}

proof fn lemma_txs_size_grows(txs: Seq<TxView>, a: int, b: int)
    requires
        a <= b,
    ensures
        txs_prefix_len(txs, a) <= txs_prefix_len(txs, b),
    decreases b - a,
{
    if a < b {
        lemma_txs_size_grows(txs, a, b - 1);
    }
}

/// The number of signature opcodes among the first `n` bytes of a script.
pub open spec fn script_sigops(script: Seq<u8>, n: int) -> nat
    decreases n,
{
    if n <= 0 {
        0
    } else {
        script_sigops(script, n - 1) + (if script[n - 1] == 0xac || script[n - 1] == 0xad { 1nat } else { 0nat })
    }
}

/// The number of signature opcodes in the scripts of the first `n` inputs.
pub open spec fn inputs_sigops(tx: TxView, n: int) -> nat
    decreases n,
{
    if n <= 0 {
        0
    } else {
        inputs_sigops(tx, n - 1) + script_sigops(
            tx.inputs[n - 1].script_sig,
            tx.inputs[n - 1].script_sig.len() as int,
        )
    }
}

/// The number of signature opcodes in the scripts of the first `n` outputs.
pub open spec fn outputs_sigops(tx: TxView, n: int) -> nat
    decreases n,
{
    if n <= 0 {
        0
    } else {
        outputs_sigops(tx, n - 1) + script_sigops(
            tx.outputs[n - 1].script_pubkey,
            tx.outputs[n - 1].script_pubkey.len() as int,
        )
    }
}

/// The number of signature opcodes in all scripts of a transaction.
pub open spec fn tx_sigops(tx: TxView) -> nat {
    inputs_sigops(tx, tx.inputs.len() as int) + outputs_sigops(tx, tx.outputs.len() as int)
}

/// The number of signature opcodes in the first `n` transactions.
pub open spec fn txs_sigops(txs: Seq<TxView>, n: int) -> nat
    decreases n,
{
    if n <= 0 {
        0
    } else {
        txs_sigops(txs, n - 1) + tx_sigops(txs[n - 1])
    }
}

/// The cost of the signature operations of a block: four for each
/// signature opcode in a script of the block.
pub open spec fn sigop_cost_spec(block: BlockView) -> nat {
    4 * txs_sigops(block.transactions, block.transactions.len() as int)
}

/// The largest number of signature opcodes that a block may hold.
pub const MAX_BLOCK_SIGOPS: usize = 20_000;

/// Counts the signature opcodes of a script on top of `count`, up to the limit.
fn add_script_sigops(script: &Vec<u8>, count: usize) -> (r: Option<usize>)
    requires
        count <= MAX_BLOCK_SIGOPS,
    ensures
        match r {
            Some(total) => total == count + script_sigops(script@, script@.len() as int) && total
                <= MAX_BLOCK_SIGOPS,
            None => count + script_sigops(script@, script@.len() as int) > MAX_BLOCK_SIGOPS,
        },
{
    let mut total: usize = count;
    let mut i: usize = 0;
    while i < script.len()
        invariant
            i <= script@.len(),
            total <= MAX_BLOCK_SIGOPS,
            total == count + script_sigops(script@, i as int),
        decreases script@.len() - i,
    {
        proof {
            lemma_script_sigops_grow(script@, i + 1, script@.len() as int);
        }
        if script[i] == 0xac || script[i] == 0xad {
            if total == MAX_BLOCK_SIGOPS {
                return None;
            }
            total += 1;
        }
        i += 1;
    }
    Some(total)
}

proof fn lemma_script_sigops_grow(script: Seq<u8>, a: int, b: int)
    requires
        a <= b,
    ensures
        script_sigops(script, a) <= script_sigops(script, b),
    decreases b - a,
{
    if a < b {
        lemma_script_sigops_grow(script, a, b - 1);
    }
}

proof fn lemma_inputs_sigops_grow(tx: TxView, a: int, b: int)
    requires
        a <= b,
    ensures
        inputs_sigops(tx, a) <= inputs_sigops(tx, b),
    decreases b - a,
{
    if a < b {
        lemma_inputs_sigops_grow(tx, a, b - 1);
    }
}

proof fn lemma_outputs_sigops_grow(tx: TxView, a: int, b: int)
    requires
        a <= b,
    ensures
        outputs_sigops(tx, a) <= outputs_sigops(tx, b),
    decreases b - a,
{
    if a < b {
        lemma_outputs_sigops_grow(tx, a, b - 1);
    }
}

proof fn lemma_txs_sigops_grow(txs: Seq<TxView>, a: int, b: int)
    requires
        a <= b,
    ensures
        txs_sigops(txs, a) <= txs_sigops(txs, b),
    decreases b - a,
{
    if a < b {
        lemma_txs_sigops_grow(txs, a, b - 1);
    }
}

/// Counts the signature opcodes of a transaction on top of `count`, up to the limit.
fn add_tx_sigops(tx: &Transaction, count: usize) -> (r: Option<usize>)
    requires
        count <= MAX_BLOCK_SIGOPS,
    ensures
        match r {
            Some(total) => total == count + tx_sigops(tx@) && total <= MAX_BLOCK_SIGOPS,
            None => count + tx_sigops(tx@) > MAX_BLOCK_SIGOPS,
        },
{
    let mut total: usize = count;
    let mut i: usize = 0;
    while i < tx.inputs.len()
        invariant
            i <= tx.inputs@.len(),
            total <= MAX_BLOCK_SIGOPS,
            total == count + inputs_sigops(tx@, i as int),
        decreases tx.inputs@.len() - i,
    {
        assert(tx@.inputs[i as int] == tx.inputs@[i as int]@);
        proof {
            lemma_inputs_sigops_grow(tx@, i + 1, tx@.inputs.len() as int);
        }
        total = match add_script_sigops(&tx.inputs[i].script_sig, total) {
            Some(t) => t,
            None => {
                return None;
            },
        };
        i += 1;
    }
    let mut k: usize = 0;
    while k < tx.outputs.len()
        invariant
            k <= tx.outputs@.len(),
            total <= MAX_BLOCK_SIGOPS,
            total == count + inputs_sigops(tx@, tx@.inputs.len() as int) + outputs_sigops(tx@, k as int),
        decreases tx.outputs@.len() - k,
    {
        assert(tx@.outputs[k as int] == tx.outputs@[k as int]@);
        proof {
            lemma_outputs_sigops_grow(tx@, k + 1, tx@.outputs.len() as int);
        }
        total = match add_script_sigops(&tx.outputs[k].script_pubkey, total) {
            Some(t) => t,
            None => {
                return None;
            },
        };
        k += 1;
    }
    Some(total)
}

/// Whether the signature operations of `block` cost at most `MAX_BLOCK_SIGOPS_COST`.
pub fn sigops_within_limit(block: &Block) -> (r: bool)
    ensures
        r == (sigop_cost_spec(block@) <= MAX_BLOCK_SIGOPS_COST),
{
    let mut total: usize = 0;
    let mut i: usize = 0;
    while i < block.transactions.len()
        invariant
            i <= block.transactions@.len(),
            total <= MAX_BLOCK_SIGOPS,
            total == txs_sigops(block@.transactions, i as int),
        decreases block.transactions@.len() - i,
    {
        assert(block@.transactions[i as int] == block.transactions@[i as int]@);
        proof {
            lemma_txs_sigops_grow(block@.transactions, i + 1, block@.transactions.len() as int);
        }
        total = match add_tx_sigops(&block.transactions[i], total) {
            Some(t) => t,
            None => {
                return false;
            },
        };
        i += 1;
    }
    true
}

/// The timestamps of the last headers, eleven at most.
pub open spec fn recent_timestamps(previous: Seq<BlockHeader>) -> Seq<u32> {
    let from = if previous.len() > 11 {
        previous.len() - 11
    } else {
        0
    };
    Seq::new((previous.len() - from) as nat, |i: int| previous[from + i].timestamp)
}

/// The median of the timestamps of the last headers, eleven at most; there
/// is none where there is no header.
pub fn median_time_past(previous: &[BlockHeader]) -> (r: Option<u32>)
    ensures
        r == median_spec(recent_timestamps(previous@)),
        r is Some <==> previous@.len() > 0,
{
    let n = previous.len();
    let from: usize = if n > 11 {
        n - 11
    } else {
        0
    };
    let mut stamps: Vec<u32> = Vec::with_capacity(11);
    let mut i: usize = from;
    while i < n
        invariant
            from <= i <= n,
            n == previous@.len(),
            stamps@.len() == i - from,
            forall|j: int| 0 <= j < stamps@.len() ==> stamps@[j] == previous@[from + j].timestamp,
        decreases n - i,
    {
        stamps.push(previous[i].timestamp);
        i += 1;
    }
    assert(stamps@ =~= recent_timestamps(previous@));
    median(stamps.as_slice())
}

/// The verdict on a header that follows the headers `previous`: it must
/// meet its target, and its timestamp must be above the median of the
/// timestamps of the last eleven headers.
pub open spec fn header_verdict(header: BlockHeader, previous: Seq<BlockHeader>) -> ValidationResult {
    if !proof_of_work_ok(header) {
        ValidationResult::Invalid(InvalidReason::BadProofOfWork)
    } else if previous.len() > 0 && header.timestamp <= median_spec(recent_timestamps(previous))->Some_0 {
        ValidationResult::Invalid(InvalidReason::TimestampTooEarly)
    } else {
        ValidationResult::Valid
    }
}

/// Checks a header that follows the headers `previous`.
pub fn check_block_header(header: &BlockHeader, previous: &[BlockHeader]) -> (r: ValidationResult)
    ensures
        r == header_verdict(*header, previous@),
{
    if !check_proof_of_work(header) {
        return ValidationResult::Invalid(InvalidReason::BadProofOfWork);
    }
    match median_time_past(previous) {
        Some(m) => {
            if header.timestamp <= m {
                return ValidationResult::Invalid(InvalidReason::TimestampTooEarly);
            }
        },
        None => {},
    }
    ValidationResult::Valid
}

/// The verdict on what a block is by itself: its header, the place of the
/// coinbase, the Merkle root, the weight and the signature operations, in
/// this order.
pub open spec fn block_form_verdict(block: BlockView, previous: Seq<BlockHeader>) -> ValidationResult {
    if header_verdict(block.header, previous) != ValidationResult::Valid {
        header_verdict(block.header, previous)
    } else if coinbase_place_spec(block.transactions) != ValidationResult::Valid {
        coinbase_place_spec(block.transactions)
    } else if merkle_root_spec(txids_spec(block.transactions)) != block.header.merkle_root@ {
        ValidationResult::Invalid(InvalidReason::BadMerkleRoot)
    } else if block_weight_spec(block) > MAX_BLOCK_WEIGHT {
        ValidationResult::Invalid(InvalidReason::BlockTooHeavy)
    } else if sigop_cost_spec(block) > MAX_BLOCK_SIGOPS_COST {
        ValidationResult::Invalid(InvalidReason::TooManySigops)
    } else {
        ValidationResult::Valid
    }
}

/// Checks what `block` is by itself, after the headers `previous`.
pub fn check_block_form(block: &Block, previous: &[BlockHeader]) -> (r: ValidationResult)
    ensures
        r == block_form_verdict(block@, previous@),
{
    let header = check_block_header(&block.header, previous);
    match header {
        ValidationResult::Valid => {},
        _ => {
            return header;
        },
    }
    let place = check_coinbase_place(block);
    match place {
        ValidationResult::Valid => {},
        _ => {
            return place;
        },
    }
    let root = block_merkle_root(block);
    if !hash_eq(&root, &block.header.merkle_root) {
        return ValidationResult::Invalid(InvalidReason::BadMerkleRoot);
    }
    if !weight_within_limit(block) {
        return ValidationResult::Invalid(InvalidReason::BlockTooHeavy);
    }
    if !sigops_within_limit(block) {
        return ValidationResult::Invalid(InvalidReason::TooManySigops);
    }
    ValidationResult::Valid
}

/// Whether the scripts of input `i` of a transaction end with `true`: the
/// unlocking script of the input, then the locking script of the output
/// that it spends, with signatures checked against the signature hash of
/// that input.
pub open spec fn input_script_ok(m: Map<OutPoint, CoinView>, tx: TxView, i: int) -> bool {
    m.contains_key(tx.inputs[i].prevout) && verify_spec(
        tx.inputs[i].script_sig,
        m[tx.inputs[i].prevout].utxo.script_pubkey,
        None::<Seq<u8>>,
        context_digest(tx, i as usize, tx.inputs.len() as usize),
    ) == Ok::<bool, ConsensusError>(true)
}

/// The first of the first `n` inputs whose scripts do not end with `true`.
pub open spec fn first_bad_script(m: Map<OutPoint, CoinView>, tx: TxView, n: int) -> Option<int>
    decreases n,
{
    if n <= 0 {
        None
    } else {
        match first_bad_script(m, tx, n - 1) {
            Some(i) => Some(i),
            None => if input_script_ok(m, tx, n - 1) {
                None
            } else {
                Some(n - 1)
            },
        }
    }
}

/// How far the validation of a block has come: the set of unspent outputs,
/// and the fees so far.
pub ghost struct Progress {
    pub set: Map<OutPoint, CoinView>,
    pub fees: int,
}

/// What the transaction at `index` of a block at `height` does to the
/// progress. The transaction is checked by itself, then its inputs against
/// the set, then the scripts of its inputs, the lowest input first; then
/// its steps are taken on the set.
pub open spec fn tx_outcome(p: Progress, tx: TxView, index: int, height: u32) -> Result<Progress, InvalidReason> {
    let inputs = check_tx_inputs_spec(tx, p.set, height);
    if check_transaction_spec(tx) != ValidationResult::Valid || inputs.0 != ValidationResult::Valid || p.fees
        + inputs.1 > MAX_MONEY {
        Err(InvalidReason::InvalidTransaction { tx_index: index as usize })
    } else if !is_coinbase_spec(tx) && first_bad_script(p.set, tx, tx.inputs.len() as int) is Some {
        Err(
            InvalidReason::ScriptFailed {
                tx_index: index as usize,
                input_index: first_bad_script(p.set, tx, tx.inputs.len() as int)->Some_0 as usize,
            },
        )
    } else {
        match run_ops(p.set, tx_ops(tx, height)) {
            None => Err(InvalidReason::InvalidTransaction { tx_index: index as usize }),
            Some(after) => Ok(Progress { set: after, fees: p.fees + inputs.1 }),
        }
    }
}

/// The progress after the first `n` transactions, or the reason of the
/// first that fails.
pub open spec fn txs_outcome(m: Map<OutPoint, CoinView>, txs: Seq<TxView>, height: u32, n: int) -> Result<
    Progress,
    InvalidReason,
>
    decreases n,
{
    if n <= 0 {
        Ok(Progress { set: m, fees: 0 })
    } else {
        match txs_outcome(m, txs, height, n - 1) {
            Err(e) => Err(e),
            Ok(p) => tx_outcome(p, txs[n - 1], n - 1, height),
        }
    }
}

/// The set of unspent outputs after a block at `height` that follows the
/// headers `previous` is validated and connected, or the reason of the
/// first rule that it breaks. The block is checked by itself; then its
/// transactions are validated and applied in order; then the coinbase must
/// not claim more than the subsidy and the fees.
pub open spec fn block_outcome(m: Map<OutPoint, CoinView>, block: BlockView, height: u32, previous: Seq<BlockHeader>) -> Result<
    Map<OutPoint, CoinView>,
    InvalidReason,
> {
    match block_form_verdict(block, previous) {
        ValidationResult::Invalid(e) => Err(e),
        ValidationResult::Valid => match txs_outcome(m, block.transactions, height, block.transactions.len() as int) {
            Err(e) => Err(e),
            Ok(p) => if coinbase_value_ok(block.transactions[0], height, p.fees) {
                Ok(p.set)
            } else {
                Err(InvalidReason::CoinbaseValueTooLarge)
            },
        },
    }
}

/// The first input of `tx` whose scripts do not end with `true`.
fn first_failing_script(set: &UtxoSet, tx: &Transaction, flags: u32) -> (r: Option<usize>)
    requires
        forall|i: int| 0 <= i < tx@.inputs.len() ==> set@.contains_key((#[trigger] tx@.inputs[i]).prevout),
    ensures
        match r {
            Some(i) => first_bad_script(set@, tx@, tx@.inputs.len() as int) == Some(i as int),
            None => first_bad_script(set@, tx@, tx@.inputs.len() as int) is None,
        },
{
    let n = tx.inputs.len();
    let mut prevouts: Vec<TransactionOutput> = Vec::with_capacity(n);
    let mut c: usize = 0;
    while c < n
        invariant
            c <= n,
            n == tx.inputs@.len(),
            prevouts@.len() == c,
            forall|i: int| 0 <= i < tx@.inputs.len() ==> set@.contains_key((#[trigger] tx@.inputs[i]).prevout),
            forall|j: int|
                0 <= j < c ==> (#[trigger] prevouts@[j]).script_pubkey@ == set@[tx@.inputs[j].prevout].utxo.script_pubkey,
        decreases n - c,
    {
        assert(tx@.inputs[c as int] == tx.inputs@[c as int]@);
        let utxo = set.get(&tx.inputs[c].prevout).unwrap();
        prevouts.push(
            TransactionOutput {
                value: utxo.value,
                script_pubkey: crate::bytes::copy_bytes(utxo.script_pubkey.as_slice()),
            },
        );
        c += 1;
    }
    let mut i: usize = 0;
    while i < n
        invariant
            i <= n,
            n == tx.inputs@.len(),
            prevouts@.len() == n,
            forall|j: int|
                0 <= j < n ==> (#[trigger] prevouts@[j]).script_pubkey@ == set@[tx@.inputs[j].prevout].utxo.script_pubkey,
            forall|j: int| 0 <= j < tx@.inputs.len() ==> set@.contains_key((#[trigger] tx@.inputs[j]).prevout),
            first_bad_script(set@, tx@, i as int) is None,
        decreases n - i,
    {
        assert(tx@.inputs[i as int] == tx.inputs@[i as int]@);
        let verdict = verify_script_with_context(
            &tx.inputs[i].script_sig,
            &prevouts[i].script_pubkey,
            None,
            flags,
            tx,
            i,
            prevouts.as_slice(),
        );
        let passed = match verdict {
            Ok(true) => true,
            _ => false,
        };
        assert(passed == input_script_ok(set@, tx@, i as int));
        if !passed {
            proof {
                lemma_bad_script_stays(set@, tx@, i + 1, n as int);
            }
            return Some(i);
        }
        i += 1;
    }
    None
}

proof fn lemma_bad_script_stays(m: Map<OutPoint, CoinView>, tx: TxView, a: int, b: int)
    requires
        a <= b,
        first_bad_script(m, tx, a) is Some,
    ensures
        first_bad_script(m, tx, b) == first_bad_script(m, tx, a),
    decreases b - a,
{
    if a < b {
        lemma_bad_script_stays(m, tx, a, b - 1);
    }
}

proof fn lemma_outcome_stays(m: Map<OutPoint, CoinView>, txs: Seq<TxView>, height: u32, a: int, b: int)
    requires
        a <= b,
        txs_outcome(m, txs, height, a) is Err,
    ensures
        txs_outcome(m, txs, height, b) == txs_outcome(m, txs, height, a),
    decreases b - a,
{
    if a < b {
        lemma_outcome_stays(m, txs, height, a, b - 1);
    }
}

/// Validates a block at `height` that follows the headers `previous`, and
/// connects it to the set.
///
/// The block is checked by itself. Then each transaction, in order, is
/// checked by itself, its inputs are checked against the set as it then
/// is, the scripts of its inputs are verified, and its steps are taken on
/// the set. At the end the coinbase must not claim more than the subsidy
/// and the fees. The first rule that is broken ends the validation: the
/// verdict is `Invalid` with its reason, the set is the one that was given,
/// unchanged, and the record is empty. Otherwise the verdict is `Valid`,
/// with the new set and the record of what was spent, which are those of
/// connecting the block.
pub fn validate_block(block: &Block, utxo_set: UtxoSet, height: Natural, previous: &[BlockHeader], flags: u32) -> (r: (
    ValidationResult,
    UtxoSet,
    BlockUndo,
))
    ensures
        match block_outcome(utxo_set@, block@, height, previous@) {
            Ok(after) => r.0 == ValidationResult::Valid && r.1@ == after && connect_spec(
                utxo_set@,
                block@.transactions,
                height,
            ) == Some(after) && r.2@ == connect_undo(utxo_set@, block@.transactions, height),
            Err(e) => r.0 == ValidationResult::Invalid(e) && r.1@ == utxo_set@ && r.2@ == Seq::<SpentView>::empty(),
        },
{
    let form = check_block_form(block, previous);
    match form {
        ValidationResult::Valid => {},
        _ => {
            return (form, utxo_set, BlockUndo::new());
        },
    }
    let ghost txs = block@.transactions;
    let ghost start = utxo_set@;
    let mut set = utxo_set;
    let mut journal: Vec<JournalEntry> = Vec::new();
    let mut undo = BlockUndo::new();
    let mut fees: i64 = 0;
    let mut failure: Option<InvalidReason> = None;
    let mut j: usize = 0;
    assert(undo@ =~= spent_by(start, block_ops(txs, height, 0)));
    while j < block.transactions.len() && failure.is_none()
        invariant
            j <= block.transactions@.len(),
            txs == block@.transactions,
            start == utxo_set@,
            0 <= fees <= MAX_MONEY,
            rollback_spec(set@, journal@) == start,
            forall|i: int| 0 <= i < j ==> (#[trigger] txs[i]).outputs.len() <= 0x1_0000_0000,
            match failure {
                Some(e) => txs_outcome(start, txs, height, txs.len() as int) == Err::<Progress, InvalidReason>(e),
                None => txs_outcome(start, txs, height, j as int) == Ok::<Progress, InvalidReason>(
                    Progress { set: set@, fees: fees as int },
                ) && run_ops(start, block_ops(txs, height, j as int)) == Some(set@) && undo@ == spent_by(
                    start,
                    block_ops(txs, height, j as int),
                ),
            },
        decreases block.transactions@.len() - j + (if failure is None { 1int } else { 0int }),
    {
        let tx = &block.transactions[j];
        assert(txs[j as int] == tx@);
        let ghost before = Progress { set: set@, fees: fees as int };
        proof {
            lemma_check_transaction_valid(tx@);
            lemma_check_tx_inputs_valid(tx@, set@, height);
            crate::block::lemma_block_step(start, txs, height, j as int);
        }
        let alone = match check_transaction(tx) {
            Ok(ValidationResult::Valid) => true,
            _ => false,
        };
        let (inputs_ok, fee) = match check_tx_inputs(tx, &set, height) {
            Ok((ValidationResult::Valid, fee)) => (true, fee),
            _ => (false, 0),
        };
        if !alone || !inputs_ok || fees + fee > MAX_MONEY {
            failure = Some(InvalidReason::InvalidTransaction { tx_index: j });
        } else {
            let bad = if is_coinbase(tx) {
                None
            } else {
                first_failing_script(&set, tx, flags)
            };
            match bad {
                Some(input_index) => {
                    failure = Some(InvalidReason::ScriptFailed { tx_index: j, input_index });
                },
                None => {
                    if apply_tx(&mut set, tx, height, &mut journal, &mut undo) {
                        fees = fees + fee;
                    } else {
                        failure = Some(InvalidReason::InvalidTransaction { tx_index: j });
                    }
                },
            }
        }
        proof {
            if failure is Some {
                assert(tx_outcome(before, tx@, j as int, height) == Err::<Progress, InvalidReason>(failure->Some_0));
                lemma_outcome_stays(start, txs, height, j + 1, txs.len() as int);
            }
        }
        if failure.is_none() {
            j += 1;
        }
    }
    match failure {
        Some(e) => {
            rollback(&mut set, &mut journal);
            (ValidationResult::Invalid(e), set, BlockUndo::new())
        },
        None => {
            if check_coinbase_value(&block.transactions[0], height, fees) {
                proof {
                    assert(indexable(txs));
                }
                (ValidationResult::Valid, set, undo)
            } else {
                rollback(&mut set, &mut journal);
                (ValidationResult::Invalid(InvalidReason::CoinbaseValueTooLarge), set, BlockUndo::new())
            }
        },
    }
}

/// Whether every amount in the set is a valid amount.
pub open spec fn amounts_ok(m: Map<OutPoint, CoinView>) -> bool {
    forall|p: OutPoint| m.contains_key(p) ==> money_range((#[trigger] m[p]).utxo.value as int)
}

/// Whether every output that the steps create holds a valid amount.
pub open spec fn creates_ok(ops: Seq<UtxoOp>) -> bool {
    forall|i: int|
        0 <= i < ops.len() ==> (match #[trigger] ops[i] {
            UtxoOp::Create(_, c) => money_range(c.utxo.value as int),
            UtxoOp::Spend(_) => true,
        })
}

proof fn lemma_ops_keep_amounts(m: Map<OutPoint, CoinView>, ops: Seq<UtxoOp>)
    requires
        amounts_ok(m),
        creates_ok(ops),
        run_ops(m, ops) is Some,
    ensures
        amounts_ok(run_ops(m, ops)->Some_0),
    decreases ops.len(),
{
    if ops.len() > 0 {
        let init = ops.drop_last();
        assert(creates_ok(init)) by {
            assert forall|i: int| 0 <= i < init.len() implies (match #[trigger] init[i] {
                UtxoOp::Create(_, c) => money_range(c.utxo.value as int),
                UtxoOp::Spend(_) => true,
            }) by {
                assert(init[i] == ops[i]);
            }
        }
        lemma_ops_keep_amounts(m, init);
        let before = run_ops(m, init)->Some_0;
        let last = ops[ops.len() - 1];
        assert(last == ops.last());
    }
}

proof fn lemma_create_ops_ok(txid: [u8; 32], outputs: Seq<crate::types::TxOutView>, height: u32, coinbase: bool, n: int)
    requires
        0 <= n <= outputs.len(),
        forall|i: int| 0 <= i < outputs.len() ==> money_range((#[trigger] outputs[i]).value as int),
    ensures
        creates_ok(create_ops(txid, outputs, height, coinbase, n)),
        create_ops(txid, outputs, height, coinbase, n).len() == n,
    decreases n,
{
    if n > 0 {
        lemma_create_ops_ok(txid, outputs, height, coinbase, n - 1);
        let ops = create_ops(txid, outputs, height, coinbase, n);
        let init = create_ops(txid, outputs, height, coinbase, n - 1);
        assert forall|i: int| 0 <= i < ops.len() implies (match #[trigger] ops[i] {
            UtxoOp::Create(_, c) => money_range(c.utxo.value as int),
            UtxoOp::Spend(_) => true,
        }) by {
            if i < n - 1 {
                assert(ops[i] == init[i]);
            }
        }
    }
}

proof fn lemma_spend_ops_ok(inputs: Seq<crate::types::TxInView>, n: int)
    requires
        0 <= n,
    ensures
        creates_ok(spend_ops(inputs, n)),
        spend_ops(inputs, n).len() == n,
    decreases n,
{
    if n > 0 {
        lemma_spend_ops_ok(inputs, n - 1);
        let ops = spend_ops(inputs, n);
        let init = spend_ops(inputs, n - 1);
        assert forall|i: int| 0 <= i < ops.len() implies (match #[trigger] ops[i] {
            UtxoOp::Create(_, c) => money_range(c.utxo.value as int),
            UtxoOp::Spend(_) => true,
        }) by {
            if i < n - 1 {
                assert(ops[i] == init[i]);
            }
        }
    }
}

/// The steps of a transaction that is valid by itself create valid amounts only.
proof fn lemma_tx_ops_ok(tx: TxView, height: u32)
    requires
        check_transaction_spec(tx) == ValidationResult::Valid,
    ensures
        creates_ok(tx_ops(tx, height)),
{
    lemma_check_transaction_valid(tx);
    let spends = tx_spend_ops(tx);
    let creates = create_ops(txid_spec(tx), tx.outputs, height, is_coinbase_spec(tx), tx.outputs.len() as int);
    lemma_create_ops_ok(txid_spec(tx), tx.outputs, height, is_coinbase_spec(tx), tx.outputs.len() as int);
    if !is_coinbase_spec(tx) {
        lemma_spend_ops_ok(tx.inputs, tx.inputs.len() as int);
    }
    let all = tx_ops(tx, height);
    assert forall|i: int| 0 <= i < all.len() implies (match #[trigger] all[i] {
        UtxoOp::Create(_, c) => money_range(c.utxo.value as int),
        UtxoOp::Spend(_) => true,
    }) by {
        if i < spends.len() {
            assert(all[i] == spends[i]);
        } else {
            assert(all[i] == creates[i - spends.len()]);
        }
    }
}

proof fn lemma_txs_keep_amounts(m: Map<OutPoint, CoinView>, txs: Seq<TxView>, height: u32, n: int)
    requires
        amounts_ok(m),
        txs_outcome(m, txs, height, n) is Ok,
    ensures
        amounts_ok(txs_outcome(m, txs, height, n)->Ok_0.set),
    decreases n,
{
    if n > 0 {
        lemma_txs_keep_amounts(m, txs, height, n - 1);
        let p = txs_outcome(m, txs, height, n - 1)->Ok_0;
        lemma_tx_ops_ok(txs[n - 1], height);
        lemma_ops_keep_amounts(p.set, tx_ops(txs[n - 1], height));
    }
}

/// A block that is found valid keeps the amounts of the set valid: where
/// every amount in the set is a valid amount before the block, every amount
/// is one after it.
pub proof fn lemma_valid_block_keeps_amounts(
    m: Map<OutPoint, CoinView>,
    block: BlockView,
    height: u32,
    previous: Seq<BlockHeader>,
)
    requires
        amounts_ok(m),
        block_outcome(m, block, height, previous) is Ok,
    ensures
        amounts_ok(block_outcome(m, block, height, previous)->Ok_0),
{
    lemma_txs_keep_amounts(m, block.transactions, height, block.transactions.len() as int);
}

} // verus!
