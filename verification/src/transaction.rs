//! Validation of a transaction by itself, and of its inputs against the set
//! of unspent outputs.

use vstd::prelude::*;
use crate::bytes::{hash_is_zero};
use crate::constants::{COINBASE_MATURITY, MAX_INPUTS, MAX_MONEY, MAX_OUTPUTS, MAX_TX_SIZE};
use crate::error::ConsensusError;
use crate::serialization::transaction::{inputs_len, outputs_len, tx_size};
use crate::serialization::varint::varint_len;
use crate::types::{is_null_outpoint, Integer, InvalidReason, Natural, Transaction, TxInView, TxOutView, TxView, ValidationResult};
use crate::utxo_set::{CoinView, UtxoSet};

verus! {

/// Whether a transaction is a coinbase: it has one input, and that input
/// names the null outpoint.
pub open spec fn is_coinbase_spec(tx: TxView) -> bool {
    tx.inputs.len() == 1 && is_null_outpoint(tx.inputs[0].prevout)
}

/// Whether an amount is in the range of valid amounts.
pub open spec fn money_range(v: int) -> bool {
    0 <= v <= MAX_MONEY
}

/// The sum of the values of the first `n` outputs.
pub open spec fn outputs_total(outputs: Seq<TxOutView>, n: int) -> int
    decreases n,
{
    if n <= 0 {
        0
    } else {
        outputs_total(outputs, n - 1) + outputs[n - 1].value
    }
}

/// What is wrong with the outputs from index `from` on, `sum` being the
/// total of those before: the first value out of range, or the first that
/// takes the total above `MAX_MONEY`, if there is one.
pub open spec fn outputs_verdict(outputs: Seq<TxOutView>, from: int, sum: int) -> Option<InvalidReason>
    decreases outputs.len() - from,
{
    if from < 0 || from >= outputs.len() {
        None
    } else if !money_range(outputs[from].value as int) {
        Some(InvalidReason::OutputValueOutOfRange { index: from as usize })
    } else if sum + outputs[from].value > MAX_MONEY {
        Some(InvalidReason::TotalOutputValueTooLarge)
    } else {
        outputs_verdict(outputs, from + 1, sum + outputs[from].value)
    }
}

/// The verdict on a transaction by itself. The checks come in this order:
/// inputs and outputs are not empty; every output value is a valid amount
/// and their total is one; there are no more inputs than `MAX_INPUTS` and no
/// more outputs than `MAX_OUTPUTS`; the serialized transaction is no longer
/// than `MAX_TX_SIZE`.
pub open spec fn check_transaction_spec(tx: TxView) -> ValidationResult {
    if tx.inputs.len() == 0 || tx.outputs.len() == 0 {
        ValidationResult::Invalid(InvalidReason::EmptyInputsOrOutputs)
    } else if outputs_verdict(tx.outputs, 0, 0) is Some {
        ValidationResult::Invalid(outputs_verdict(tx.outputs, 0, 0)->Some_0)
    } else if tx.inputs.len() > MAX_INPUTS {
        ValidationResult::Invalid(InvalidReason::TooManyInputs { count: tx.inputs.len() as usize })
    } else if tx.outputs.len() > MAX_OUTPUTS {
        ValidationResult::Invalid(InvalidReason::TooManyOutputs { count: tx.outputs.len() as usize })
    } else if tx_size(tx) > MAX_TX_SIZE {
        ValidationResult::Invalid(InvalidReason::TransactionTooLarge)
    } else {
        ValidationResult::Valid
    }
}

/// What makes a transaction valid by itself.
pub open spec fn transaction_well_formed(tx: TxView) -> bool {
    &&& 1 <= tx.inputs.len() <= MAX_INPUTS
    &&& 1 <= tx.outputs.len() <= MAX_OUTPUTS
    &&& forall|i: int| 0 <= i < tx.outputs.len() ==> money_range((#[trigger] tx.outputs[i]).value as int)
    &&& outputs_total(tx.outputs, tx.outputs.len() as int) <= MAX_MONEY
    &&& tx_size(tx) <= MAX_TX_SIZE
}

proof fn lemma_outputs_verdict(outputs: Seq<TxOutView>, from: int)
    requires
        0 <= from <= outputs.len(),
        forall|i: int| 0 <= i < from ==> money_range((#[trigger] outputs[i]).value as int),
        outputs_total(outputs, from) <= MAX_MONEY,
    ensures
        outputs_verdict(outputs, from, outputs_total(outputs, from)) is None <==> ((forall|i: int|
            0 <= i < outputs.len() ==> money_range((#[trigger] outputs[i]).value as int))
            && outputs_total(outputs, outputs.len() as int) <= MAX_MONEY),
    decreases outputs.len() - from,
{
    if from < outputs.len() {
        let v = outputs[from].value;
        let sum = outputs_total(outputs, from);
        assert(outputs_total(outputs, from + 1) == sum + v);
        if !money_range(v as int) {
        } else if sum + v > MAX_MONEY {
            lemma_total_grows(outputs, from + 1, outputs.len() as int);
        } else {
            lemma_outputs_verdict(outputs, from + 1);
        }
    }
}

/// Among valid amounts, a longer prefix has no smaller a total; where an
/// amount is not valid, nothing is claimed.
proof fn lemma_total_grows(outputs: Seq<TxOutView>, a: int, b: int)
    requires
        0 <= a <= b <= outputs.len(),
    ensures
        (forall|i: int| 0 <= i < outputs.len() ==> money_range((#[trigger] outputs[i]).value as int))
            ==> outputs_total(outputs, a) <= outputs_total(outputs, b),
    decreases b - a,
{
    if a < b {
        lemma_total_grows(outputs, a, b - 1);
    }
}

/// A transaction is found valid exactly where it has between one and
/// `MAX_INPUTS` inputs and between one and `MAX_OUTPUTS` outputs, every
/// output value is a valid amount, so is their total, and its serialized
/// size is at most `MAX_TX_SIZE`.
pub proof fn lemma_check_transaction_valid(tx: TxView)
    ensures
        check_transaction_spec(tx) == ValidationResult::Valid <==> transaction_well_formed(tx),
{
    lemma_outputs_verdict(tx.outputs, 0);
}

/// Whether `tx` is a coinbase.
pub fn is_coinbase(tx: &Transaction) -> (r: bool)
    ensures
        r == is_coinbase_spec(tx@),
{
    tx.inputs.len() == 1 && hash_is_zero(&tx.inputs[0].prevout.hash) && tx.inputs[0].prevout.index
        == 0xffff_ffff
}

/// The length of a variable-length integer.
pub fn varint_size(x: usize) -> (n: usize)
    ensures
        n == varint_len(x as nat),
{
    if x < 0xfd {
        1
    } else if x <= 0xffff {
        3
    } else if x <= 0xffff_ffff {
        5
    } else {
        9
    }
}

/// Whether the serialized size of `tx` is at most `MAX_TX_SIZE`.
pub fn size_within_limit(tx: &Transaction) -> (r: bool)
    ensures
        r == (tx_size(tx@) <= MAX_TX_SIZE),
{
    serialized_size_up_to(tx).is_some()
}

/// The serialized size of `tx`, where it is at most `MAX_TX_SIZE`.
pub fn serialized_size_up_to(tx: &Transaction) -> (r: Option<usize>)
    ensures
        match r {
            Some(size) => size == tx_size(tx@) && size <= MAX_TX_SIZE,
            None => tx_size(tx@) > MAX_TX_SIZE,
        },
{
    let mut total: usize = 8 + varint_size(tx.inputs.len()) + varint_size(tx.outputs.len());
    let mut i: usize = 0;
    while i < tx.inputs.len()
        invariant
            i <= tx.inputs.len(),
            total <= 2 * MAX_TX_SIZE + 100,
            total + inputs_len(tx@.inputs, i as int) == 8 + varint_len(tx@.inputs.len()) + varint_len(
                tx@.outputs.len(),
            ) + inputs_len(tx@.inputs, 0),
        decreases tx.inputs.len() - i,
    {
        let len = tx.inputs[i].script_sig.len();
        assert(tx@.inputs[i as int] == tx.inputs@[i as int]@);
        if len > MAX_TX_SIZE || total > MAX_TX_SIZE {
            return None;
        }
        total = total + 40 + varint_size(len) + len;
        i += 1;
    }
    let mut k: usize = 0;
    while k < tx.outputs.len()
        invariant
            k <= tx.outputs.len(),
            total <= 2 * MAX_TX_SIZE + 100,
            total + outputs_len(tx@.outputs, k as int) == tx_size(tx@),
        decreases tx.outputs.len() - k,
    {
        let len = tx.outputs[k].script_pubkey.len();
        assert(tx@.outputs[k as int] == tx.outputs@[k as int]@);
        if len > MAX_TX_SIZE || total > MAX_TX_SIZE {
            return None;
        }
        total = total + 8 + varint_size(len) + len;
        k += 1;
    }
    if total <= MAX_TX_SIZE {
        Some(total)
    } else {
        None
    }
}

/// The size that depends on the counts alone, capped at the largest `usize`.
pub open spec fn structural_size(tx: TxView) -> int {
    if 8 + 41 * tx.inputs.len() + 9 * tx.outputs.len() <= usize::MAX {
        (8 + 41 * tx.inputs.len() + 9 * tx.outputs.len()) as int
    } else {
        usize::MAX as int
    }
}

/// A size that depends on the counts alone: 4 bytes of version, 41 for each
/// input, 9 for each output and 4 of lock time. It is what the inputs and
/// outputs take with empty scripts, and so a lower bound of the serialized
/// size. Where the number does not fit, the largest `usize` is returned.
pub fn calculate_transaction_size(tx: &Transaction) -> (r: usize)
    ensures
        r as int == structural_size(tx@),
{
    let wide: u128 = 8 + 41 * (tx.inputs.len() as u128) + 9 * (tx.outputs.len() as u128);
    if wide <= usize::MAX as u128 {
        wide as usize
    } else {
        usize::MAX
    }
}

/// The size that depends on the counts alone is a lower bound of the
/// serialized size.
pub proof fn lemma_size_lower_bound(tx: TxView)
    ensures
        8 + 41 * tx.inputs.len() + 9 * tx.outputs.len() <= tx_size(tx),
{
    lemma_inputs_lower_bound(tx.inputs, 0);
    lemma_outputs_lower_bound(tx.outputs, 0);
}

proof fn lemma_inputs_lower_bound(inputs: Seq<TxInView>, from: int)
    requires
        0 <= from <= inputs.len(),
    ensures
        41 * (inputs.len() - from) <= inputs_len(inputs, from),
    decreases inputs.len() - from,
{
    if from < inputs.len() {
        lemma_inputs_lower_bound(inputs, from + 1);
    }
}

proof fn lemma_outputs_lower_bound(outputs: Seq<TxOutView>, from: int)
    requires
        0 <= from <= outputs.len(),
    ensures
        9 * (outputs.len() - from) <= outputs_len(outputs, from),
    decreases outputs.len() - from,
{
    if from < outputs.len() {
        lemma_outputs_lower_bound(outputs, from + 1);
    }
}

/// Checks a transaction by itself. The verdict is that of
/// [`check_transaction_spec`]; there is no error.
pub fn check_transaction(tx: &Transaction) -> (r: Result<ValidationResult, ConsensusError>)
    ensures
        r == Ok::<ValidationResult, ConsensusError>(check_transaction_spec(tx@)),
        r == Ok::<ValidationResult, ConsensusError>(ValidationResult::Valid) <==> transaction_well_formed(tx@),
{
    proof {
        lemma_check_transaction_valid(tx@);
    }
    if tx.inputs.len() == 0 || tx.outputs.len() == 0 {
        return Ok(ValidationResult::Invalid(InvalidReason::EmptyInputsOrOutputs));
    }
    let mut sum: i64 = 0;
    let mut i: usize = 0;
    while i < tx.outputs.len()
        invariant
            i <= tx.outputs.len(),
            0 <= sum <= MAX_MONEY,
            tx@.inputs.len() > 0,
            tx@.outputs.len() > 0,
            check_transaction_spec(tx@) == ValidationResult::Valid <==> transaction_well_formed(tx@),
            outputs_verdict(tx@.outputs, i as int, sum as int) == outputs_verdict(tx@.outputs, 0, 0),
        decreases tx.outputs.len() - i,
    {
        let value = tx.outputs[i].value;
        assert(tx@.outputs[i as int] == tx.outputs@[i as int]@);
        if value < 0 || value > MAX_MONEY {
            return Ok(ValidationResult::Invalid(InvalidReason::OutputValueOutOfRange { index: i }));
        }
        if sum + value > MAX_MONEY {
            return Ok(ValidationResult::Invalid(InvalidReason::TotalOutputValueTooLarge));
        }
        sum = sum + value;
        i += 1;
    }
    if tx.inputs.len() > MAX_INPUTS {
        return Ok(ValidationResult::Invalid(InvalidReason::TooManyInputs { count: tx.inputs.len() }));
    }
    if tx.outputs.len() > MAX_OUTPUTS {
        return Ok(ValidationResult::Invalid(InvalidReason::TooManyOutputs { count: tx.outputs.len() }));
    }
    if !size_within_limit(tx) {
        return Ok(ValidationResult::Invalid(InvalidReason::TransactionTooLarge));
    }
    Ok(ValidationResult::Valid)
}

/// Whether an output created at `created`, by a coinbase or not, can be
/// spent at `height`: a coinbase output must be `COINBASE_MATURITY` blocks old.
pub open spec fn mature(coin: CoinView, height: u32) -> bool {
    !coin.coinbase || height as int - coin.utxo.height as int >= COINBASE_MATURITY as int
}

/// The sum of the values of the outputs that the first `n` inputs spend.
/// Every one of them must be in the set.
pub open spec fn inputs_total(utxos: Map<crate::types::OutPoint, CoinView>, inputs: Seq<TxInView>, n: int) -> int
    decreases n,
{
    if n <= 0 {
        0
    } else {
        inputs_total(utxos, inputs, n - 1) + utxos[inputs[n - 1].prevout].utxo.value
    }
}

/// What is wrong with the inputs from index `from` on, `sum` being the
/// total of those before: the first that is missing from the set, not
/// mature, of a value that is no valid amount, or that takes the total
/// above `MAX_MONEY`.
pub open spec fn inputs_verdict(
    utxos: Map<crate::types::OutPoint, CoinView>,
    inputs: Seq<TxInView>,
    height: u32,
    from: int,
    sum: int,
) -> Option<InvalidReason>
    decreases inputs.len() - from,
{
    if from < 0 || from >= inputs.len() {
        None
    } else if !utxos.contains_key(inputs[from].prevout) {
        Some(InvalidReason::MissingInput { index: from as usize })
    } else if !mature(utxos[inputs[from].prevout], height) {
        Some(InvalidReason::ImmatureCoinbase { index: from as usize })
    } else if !money_range(utxos[inputs[from].prevout].utxo.value as int) || sum
        + utxos[inputs[from].prevout].utxo.value > MAX_MONEY {
        Some(InvalidReason::InputValueOutOfRange { index: from as usize })
    } else {
        inputs_verdict(utxos, inputs, height, from + 1, sum + utxos[inputs[from].prevout].utxo.value)
    }
}

/// What is wrong with the outputs from index `from` on, `sum` being the
/// total of those before and `available` the total of the inputs: the
/// first value that is no valid amount, or the first that takes the total
/// above what the inputs give.
pub open spec fn spending_verdict(outputs: Seq<TxOutView>, available: int, from: int, sum: int) -> Option<InvalidReason>
    decreases outputs.len() - from,
{
    if from < 0 || from >= outputs.len() {
        None
    } else if !money_range(outputs[from].value as int) {
        Some(InvalidReason::OutputValueOutOfRange { index: from as usize })
    } else if sum + outputs[from].value > available {
        Some(InvalidReason::InsufficientInputValue)
    } else {
        spending_verdict(outputs, available, from + 1, sum + outputs[from].value)
    }
}

/// The verdict on the inputs of a transaction at `height`, and the fee.
///
/// A coinbase is valid, with fee 0. Otherwise every input must spend an
/// output that is in the set, that is mature and whose value is a valid
/// amount, as their total must be; every output value must be a valid
/// amount, and the outputs must not be worth more than the inputs. The fee
/// is the total of the inputs less that of the outputs; it is 0 where the
/// verdict is not `Valid`.
pub open spec fn check_tx_inputs_spec(tx: TxView, utxos: Map<crate::types::OutPoint, CoinView>, height: u32) -> (
    ValidationResult,
    int,
) {
    if is_coinbase_spec(tx) {
        (ValidationResult::Valid, 0)
    } else if inputs_verdict(utxos, tx.inputs, height, 0, 0) is Some {
        (ValidationResult::Invalid(inputs_verdict(utxos, tx.inputs, height, 0, 0)->Some_0), 0)
    } else {
        let available = inputs_total(utxos, tx.inputs, tx.inputs.len() as int);
        if spending_verdict(tx.outputs, available, 0, 0) is Some {
            (ValidationResult::Invalid(spending_verdict(tx.outputs, available, 0, 0)->Some_0), 0)
        } else {
            (ValidationResult::Valid, available - outputs_total(tx.outputs, tx.outputs.len() as int))
        }
    }
}

/// What makes the inputs of a transaction that is no coinbase valid.
pub open spec fn inputs_spendable(tx: TxView, utxos: Map<crate::types::OutPoint, CoinView>, height: u32) -> bool {
    &&& forall|i: int|
        0 <= i < tx.inputs.len() ==> utxos.contains_key((#[trigger] tx.inputs[i]).prevout) && mature(
            utxos[tx.inputs[i].prevout],
            height,
        ) && money_range(utxos[tx.inputs[i].prevout].utxo.value as int)
    &&& inputs_total(utxos, tx.inputs, tx.inputs.len() as int) <= MAX_MONEY
    &&& forall|i: int| 0 <= i < tx.outputs.len() ==> money_range((#[trigger] tx.outputs[i]).value as int)
    &&& outputs_total(tx.outputs, tx.outputs.len() as int) <= inputs_total(
        utxos,
        tx.inputs,
        tx.inputs.len() as int,
    )
}

proof fn lemma_inputs_total_grows(utxos: Map<crate::types::OutPoint, CoinView>, inputs: Seq<TxInView>, a: int, b: int)
    requires
        0 <= a <= b <= inputs.len(),
    ensures
        (forall|i: int|
            0 <= i < inputs.len() ==> money_range(utxos[(#[trigger] inputs[i]).prevout].utxo.value as int))
            ==> inputs_total(utxos, inputs, a) <= inputs_total(utxos, inputs, b),
    decreases b - a,
{
    if a < b {
        lemma_inputs_total_grows(utxos, inputs, a, b - 1);
    }
}

proof fn lemma_inputs_verdict(utxos: Map<crate::types::OutPoint, CoinView>, inputs: Seq<TxInView>, height: u32, from: int)
    requires
        0 <= from <= inputs.len(),
        forall|i: int|
            0 <= i < from ==> utxos.contains_key((#[trigger] inputs[i]).prevout) && mature(
                utxos[inputs[i].prevout],
                height,
            ) && money_range(utxos[inputs[i].prevout].utxo.value as int),
        inputs_total(utxos, inputs, from) <= MAX_MONEY,
    ensures
        inputs_verdict(utxos, inputs, height, from, inputs_total(utxos, inputs, from)) is None <==> ((
        forall|i: int|
            0 <= i < inputs.len() ==> utxos.contains_key((#[trigger] inputs[i]).prevout) && mature(
                utxos[inputs[i].prevout],
                height,
            ) && money_range(utxos[inputs[i].prevout].utxo.value as int)) && inputs_total(
            utxos,
            inputs,
            inputs.len() as int,
        ) <= MAX_MONEY),
    decreases inputs.len() - from,
{
    if from < inputs.len() {
        let p = inputs[from].prevout;
        let sum = inputs_total(utxos, inputs, from);
        assert(inputs_total(utxos, inputs, from + 1) == sum + utxos[p].utxo.value);
        if !utxos.contains_key(p) || !mature(utxos[p], height) || !money_range(utxos[p].utxo.value as int) {
        } else if sum + utxos[p].utxo.value > MAX_MONEY {
            lemma_inputs_total_grows(utxos, inputs, from + 1, inputs.len() as int);
        } else {
            lemma_inputs_verdict(utxos, inputs, height, from + 1);
        }
    }
}

proof fn lemma_spending_verdict(outputs: Seq<TxOutView>, available: int, from: int)
    requires
        0 <= from <= outputs.len(),
        forall|i: int| 0 <= i < from ==> money_range((#[trigger] outputs[i]).value as int),
        outputs_total(outputs, from) <= available,
    ensures
        spending_verdict(outputs, available, from, outputs_total(outputs, from)) is None <==> ((
        forall|i: int| 0 <= i < outputs.len() ==> money_range((#[trigger] outputs[i]).value as int))
            && outputs_total(outputs, outputs.len() as int) <= available),
    decreases outputs.len() - from,
{
    if from < outputs.len() {
        let v = outputs[from].value;
        let sum = outputs_total(outputs, from);
        assert(outputs_total(outputs, from + 1) == sum + v);
        if !money_range(v as int) {
        } else if sum + v > available {
            lemma_total_grows(outputs, from + 1, outputs.len() as int);
        } else {
            lemma_spending_verdict(outputs, available, from + 1);
        }
    }
}

/// The inputs of a transaction that is no coinbase are found valid exactly
/// where they are spendable, and the fee is then what the inputs are worth
/// more than the outputs. A coinbase is always found valid, with fee 0.
pub proof fn lemma_check_tx_inputs_valid(tx: TxView, utxos: Map<crate::types::OutPoint, CoinView>, height: u32)
    ensures
        is_coinbase_spec(tx) ==> check_tx_inputs_spec(tx, utxos, height) == (ValidationResult::Valid, 0int),
        !is_coinbase_spec(tx) ==> (check_tx_inputs_spec(tx, utxos, height).0 == ValidationResult::Valid
            <==> inputs_spendable(tx, utxos, height)),
        check_tx_inputs_spec(tx, utxos, height).0 == ValidationResult::Valid ==> 0
            <= check_tx_inputs_spec(tx, utxos, height).1 <= MAX_MONEY,
        check_tx_inputs_spec(tx, utxos, height).0 != ValidationResult::Valid ==> check_tx_inputs_spec(
            tx,
            utxos,
            height,
        ).1 == 0,
        !is_coinbase_spec(tx) && inputs_spendable(tx, utxos, height) ==> check_tx_inputs_spec(tx, utxos, height) == (
            ValidationResult::Valid,
            inputs_total(utxos, tx.inputs, tx.inputs.len() as int) - outputs_total(
                tx.outputs,
                tx.outputs.len() as int,
            ),
        ),
{
    lemma_inputs_verdict(utxos, tx.inputs, height, 0);
    if inputs_verdict(utxos, tx.inputs, height, 0, 0) is None {
        let available = inputs_total(utxos, tx.inputs, tx.inputs.len() as int);
        lemma_inputs_total_grows(utxos, tx.inputs, 0, tx.inputs.len() as int);
        lemma_spending_verdict(tx.outputs, available, 0);
        if spending_verdict(tx.outputs, available, 0, 0) is None {
            lemma_total_grows(tx.outputs, 0, tx.outputs.len() as int);
        }
    }
}

/// An output of a coinbase can be spent from `COINBASE_MATURITY` blocks
/// above the block that made it, and not before; any other output at once.
pub proof fn lemma_mature_from(coin: CoinView, height: u32)
    ensures
        mature(coin, height) <==> !coin.coinbase || height >= coin.utxo.height + COINBASE_MATURITY,
{
}

/// A transaction with an input that spends an output of a coinbase fewer
/// than `COINBASE_MATURITY` blocks above the block that made it is not
/// found valid, whatever else it holds.
pub proof fn lemma_immature_coinbase_refused(
    tx: TxView,
    utxos: Map<crate::types::OutPoint, CoinView>,
    height: u32,
    i: int,
)
    requires
        !is_coinbase_spec(tx),
        0 <= i < tx.inputs.len(),
        utxos.contains_key(tx.inputs[i].prevout),
        utxos[tx.inputs[i].prevout].coinbase,
        height < utxos[tx.inputs[i].prevout].utxo.height + COINBASE_MATURITY,
    ensures
        check_tx_inputs_spec(tx, utxos, height).0 != ValidationResult::Valid,
{
    lemma_check_tx_inputs_valid(tx, utxos, height);
    assert(!mature(utxos[tx.inputs[i].prevout], height));
}

/// The height decides through maturity alone: a transaction that is found
/// valid at one height is found valid at another exactly where every output
/// that it spends is mature there, and the fee is then the same.
pub proof fn lemma_height_decides_by_maturity(
    tx: TxView,
    utxos: Map<crate::types::OutPoint, CoinView>,
    height: u32,
    other: u32,
)
    requires
        !is_coinbase_spec(tx),
        check_tx_inputs_spec(tx, utxos, height).0 == ValidationResult::Valid,
    ensures
        check_tx_inputs_spec(tx, utxos, other).0 == ValidationResult::Valid <==> forall|i: int|
            0 <= i < tx.inputs.len() ==> mature(utxos[(#[trigger] tx.inputs[i]).prevout], other),
        check_tx_inputs_spec(tx, utxos, other).0 == ValidationResult::Valid ==> check_tx_inputs_spec(
            tx,
            utxos,
            other,
        ) == check_tx_inputs_spec(tx, utxos, height),
        other >= height ==> check_tx_inputs_spec(tx, utxos, other) == check_tx_inputs_spec(tx, utxos, height),
{
    lemma_check_tx_inputs_valid(tx, utxos, height);
    lemma_check_tx_inputs_valid(tx, utxos, other);
    if other >= height {
        assert forall|i: int| 0 <= i < tx.inputs.len() implies mature(
            utxos[(#[trigger] tx.inputs[i]).prevout],
            other,
        ) by {
            assert(mature(utxos[tx.inputs[i].prevout], height));
        }
    }
}

/// Checks the inputs of `tx` against the set of unspent outputs at
/// `height`, and computes the fee. The verdict and the fee are those of
/// [`check_tx_inputs_spec`]; there is no error.
pub fn check_tx_inputs(tx: &Transaction, utxo_set: &UtxoSet, height: Natural) -> (r: Result<
    (ValidationResult, Integer),
    ConsensusError,
>)
    ensures
        r is Ok,
        r->Ok_0.0 == check_tx_inputs_spec(tx@, utxo_set@, height).0,
        r->Ok_0.1 as int == check_tx_inputs_spec(tx@, utxo_set@, height).1,
        is_coinbase_spec(tx@) ==> r == Ok::<(ValidationResult, Integer), ConsensusError>(
            (ValidationResult::Valid, 0i64),
        ),
{
    if is_coinbase(tx) {
        return Ok((ValidationResult::Valid, 0));
    }
    let mut total_in: i64 = 0;
    let mut i: usize = 0;
    while i < tx.inputs.len()
        invariant
            i <= tx.inputs.len(),
            0 <= total_in <= MAX_MONEY,
            !is_coinbase_spec(tx@),
            total_in == inputs_total(utxo_set@, tx@.inputs, i as int),
            inputs_verdict(utxo_set@, tx@.inputs, height, i as int, total_in as int) == inputs_verdict(
                utxo_set@,
                tx@.inputs,
                height,
                0,
                0,
            ),
        decreases tx.inputs.len() - i,
    {
        assert(tx@.inputs[i as int] == tx.inputs@[i as int]@);
        match utxo_set.get_entry(&tx.inputs[i].prevout) {
            None => {
                return Ok((ValidationResult::Invalid(InvalidReason::MissingInput { index: i }), 0));
            },
            Some(entry) => {
                if entry.coinbase && (height < entry.utxo.height || ((height - entry.utxo.height) as u64)
                    < COINBASE_MATURITY) {
                    return Ok((ValidationResult::Invalid(InvalidReason::ImmatureCoinbase { index: i }), 0));
                }
                let value = entry.utxo.value;
                if value < 0 || value > MAX_MONEY || total_in + value > MAX_MONEY {
                    return Ok(
                        (ValidationResult::Invalid(InvalidReason::InputValueOutOfRange { index: i }), 0),
                    );
                }
                total_in = total_in + value;
            },
        }
        i += 1;
    }
    let mut total_out: i64 = 0;
    let mut k: usize = 0;
    while k < tx.outputs.len()
        invariant
            k <= tx.outputs.len(),
            0 <= total_out <= total_in <= MAX_MONEY,
            !is_coinbase_spec(tx@),
            inputs_verdict(utxo_set@, tx@.inputs, height, 0, 0) is None,
            total_in == inputs_total(utxo_set@, tx@.inputs, tx@.inputs.len() as int),
            total_out == outputs_total(tx@.outputs, k as int),
            spending_verdict(tx@.outputs, total_in as int, k as int, total_out as int) == spending_verdict(
                tx@.outputs,
                total_in as int,
                0,
                0,
            ),
        decreases tx.outputs.len() - k,
    {
        let value = tx.outputs[k].value;
        assert(tx@.outputs[k as int] == tx.outputs@[k as int]@);
        if value < 0 || value > MAX_MONEY {
            return Ok((ValidationResult::Invalid(InvalidReason::OutputValueOutOfRange { index: k }), 0));
        }
        if total_out + value > total_in {
            return Ok((ValidationResult::Invalid(InvalidReason::InsufficientInputValue), 0));
        }
        total_out = total_out + value;
        k += 1;
    }
    Ok((ValidationResult::Valid, total_in - total_out))
}

} // verus!
