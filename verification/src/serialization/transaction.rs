//! Wire format of transactions.
//!
//! `version LE4 || varint(inputs) || inputs || varint(outputs) || outputs ||
//! lock_time LE4`, where an input is `hash 32 || index LE4 || varint(len) ||
//! script || sequence LE4` and an output is `value LE8 || varint(len) ||
//! script`.

use vstd::prelude::*;
use crate::bytes::{append_bytes, append_le, i32_bits, i32_to_bits, i64_bits, i64_to_bits, le_bytes, lemma_le_bytes_len};
use crate::serialization::varint::{append_varint, lemma_varint_len, varint_len, varint_spec};
use crate::types::{OutPoint, Transaction, TransactionInput, TransactionOutput, TxInView, TxOutView, TxView};

verus! {

/// The 36 bytes of an outpoint.
pub open spec fn outpoint_bytes(p: OutPoint) -> Seq<u8> {
    p.hash@ + le_bytes(p.index as nat, 4)
}

/// The bytes of one input.
pub open spec fn input_bytes(input: TxInView) -> Seq<u8> {
    outpoint_bytes(input.prevout) + varint_spec(input.script_sig.len()) + input.script_sig
        + le_bytes(input.sequence as nat, 4)
}

/// The bytes of one output.
pub open spec fn output_bytes(output: TxOutView) -> Seq<u8> {
    le_bytes(i64_bits(output.value), 8) + varint_spec(output.script_pubkey.len())
        + output.script_pubkey
}

/// The bytes of the inputs from index `from` on, one after the other.
pub open spec fn inputs_bytes(inputs: Seq<TxInView>, from: int) -> Seq<u8>
    decreases inputs.len() - from,
{
    if from < 0 || from >= inputs.len() {
        Seq::<u8>::empty()
    } else {
        input_bytes(inputs[from]) + inputs_bytes(inputs, from + 1)
    }
}

/// The bytes of the outputs from index `from` on, one after the other.
pub open spec fn outputs_bytes(outputs: Seq<TxOutView>, from: int) -> Seq<u8>
    decreases outputs.len() - from,
{
    if from < 0 || from >= outputs.len() {
        Seq::<u8>::empty()
    } else {
        output_bytes(outputs[from]) + outputs_bytes(outputs, from + 1)
    }
}

/// The bytes of a transaction.
pub open spec fn tx_bytes(tx: TxView) -> Seq<u8> {
    le_bytes(i32_bits(tx.version), 4) + varint_spec(tx.inputs.len()) + inputs_bytes(tx.inputs, 0)
        + varint_spec(tx.outputs.len()) + outputs_bytes(tx.outputs, 0) + le_bytes(
        tx.lock_time as nat,
        4,
    )
}

/// The length of the bytes of one input.
pub open spec fn input_len(input: TxInView) -> nat {
    36 + varint_len(input.script_sig.len()) + input.script_sig.len() + 4
}

/// The length of the bytes of one output.
pub open spec fn output_len(output: TxOutView) -> nat {
    8 + varint_len(output.script_pubkey.len()) + output.script_pubkey.len()
}

/// The length of the bytes of the inputs from index `from` on.
pub open spec fn inputs_len(inputs: Seq<TxInView>, from: int) -> nat
    decreases inputs.len() - from,
{
    if from < 0 || from >= inputs.len() {
        0
    } else {
        input_len(inputs[from]) + inputs_len(inputs, from + 1)
    }
}

/// The length of the bytes of the outputs from index `from` on.
pub open spec fn outputs_len(outputs: Seq<TxOutView>, from: int) -> nat
    decreases outputs.len() - from,
{
    if from < 0 || from >= outputs.len() {
        0
    } else {
        output_len(outputs[from]) + outputs_len(outputs, from + 1)
    }
}

/// The serialized size of a transaction, in bytes.
pub open spec fn tx_size(tx: TxView) -> nat {
    4 + varint_len(tx.inputs.len()) + inputs_len(tx.inputs, 0) + varint_len(tx.outputs.len())
        + outputs_len(tx.outputs, 0) + 4
}

/// The bytes of an input are as many as its length says.
pub proof fn lemma_input_len(input: TxInView)
    ensures
        input_bytes(input).len() == input_len(input),
{
    lemma_le_bytes_len(input.prevout.index as nat, 4);
    lemma_le_bytes_len(input.sequence as nat, 4);
    lemma_varint_len(input.script_sig.len());
}

/// The bytes of an output are as many as its length says.
pub proof fn lemma_output_len(output: TxOutView)
    ensures
        output_bytes(output).len() == output_len(output),
{
    lemma_le_bytes_len(i64_bits(output.value), 8);
    lemma_varint_len(output.script_pubkey.len());
}

/// The bytes of the inputs are as many as their length says.
pub proof fn lemma_inputs_len(inputs: Seq<TxInView>, from: int)
    ensures
        inputs_bytes(inputs, from).len() == inputs_len(inputs, from),
    decreases inputs.len() - from,
{
    if 0 <= from < inputs.len() {
        lemma_input_len(inputs[from]);
        lemma_inputs_len(inputs, from + 1);
    }
}

/// The bytes of the outputs are as many as their length says.
pub proof fn lemma_outputs_len(outputs: Seq<TxOutView>, from: int)
    ensures
        outputs_bytes(outputs, from).len() == outputs_len(outputs, from),
    decreases outputs.len() - from,
{
    if 0 <= from < outputs.len() {
        lemma_output_len(outputs[from]);
        lemma_outputs_len(outputs, from + 1);
    }
}

/// The bytes of a transaction are as many as its size says.
pub proof fn lemma_tx_size(tx: TxView)
    ensures
        tx_bytes(tx).len() == tx_size(tx),
{
    lemma_le_bytes_len(i32_bits(tx.version), 4);
    lemma_le_bytes_len(tx.lock_time as nat, 4);
    lemma_varint_len(tx.inputs.len());
    lemma_varint_len(tx.outputs.len());
    lemma_inputs_len(tx.inputs, 0);
    lemma_outputs_len(tx.outputs, 0);
}

/// Appends the bytes of one input to `dst`.
pub fn append_input(dst: &mut Vec<u8>, input: &TransactionInput)
    ensures
        final(dst)@ == old(dst)@ + input_bytes(input@),
{
    append_bytes(dst, input.prevout.hash.as_slice());
    append_le(dst, input.prevout.index as u64, 4);
    append_varint(dst, input.script_sig.len() as u64);
    append_bytes(dst, input.script_sig.as_slice());
    append_le(dst, input.sequence as u64, 4);
    assert(dst@ =~= old(dst)@ + input_bytes(input@));
}

/// Appends the bytes of one output to `dst`.
pub fn append_output(dst: &mut Vec<u8>, output: &TransactionOutput)
    ensures
        final(dst)@ == old(dst)@ + output_bytes(output@),
{
    append_le(dst, i64_to_bits(output.value), 8);
    append_varint(dst, output.script_pubkey.len() as u64);
    append_bytes(dst, output.script_pubkey.as_slice());
    assert(dst@ =~= old(dst)@ + output_bytes(output@));
}

/// Appends the bytes of all outputs of `tx` to `dst`.
pub fn append_outputs(dst: &mut Vec<u8>, tx: &Transaction)
    ensures
        final(dst)@ == old(dst)@ + outputs_bytes(tx@.outputs, 0),
{
    let mut i: usize = 0;
    while i < tx.outputs.len()
        invariant
            i <= tx.outputs.len(),
            dst@ + outputs_bytes(tx@.outputs, i as int) == old(dst)@ + outputs_bytes(tx@.outputs, 0),
        decreases tx.outputs.len() - i,
    {
        let ghost before = dst@;
        append_output(dst, &tx.outputs[i]);
        proof {
            assert(tx@.outputs[i as int] == tx.outputs@[i as int]@);
            assert(dst@ + outputs_bytes(tx@.outputs, i + 1) =~= before + outputs_bytes(
                tx@.outputs,
                i as int,
            ));
        }
        i += 1;
    }
    assert(dst@ + Seq::<u8>::empty() =~= dst@);
}

/// Appends the bytes of all inputs of `tx` to `dst`.
pub fn append_inputs(dst: &mut Vec<u8>, tx: &Transaction)
    ensures
        final(dst)@ == old(dst)@ + inputs_bytes(tx@.inputs, 0),
{
    let mut i: usize = 0;
    while i < tx.inputs.len()
        invariant
            i <= tx.inputs.len(),
            dst@ + inputs_bytes(tx@.inputs, i as int) == old(dst)@ + inputs_bytes(tx@.inputs, 0),
        decreases tx.inputs.len() - i,
    {
        let ghost before = dst@;
        append_input(dst, &tx.inputs[i]);
        proof {
            assert(tx@.inputs[i as int] == tx.inputs@[i as int]@);
            assert(dst@ + inputs_bytes(tx@.inputs, i + 1) =~= before + inputs_bytes(
                tx@.inputs,
                i as int,
            ));
        }
        i += 1;
    }
    assert(dst@ + Seq::<u8>::empty() =~= dst@);
}

/// Appends the bytes of `tx` to `dst`.
pub fn append_bytes_of_tx(dst: &mut Vec<u8>, tx: &Transaction)
    ensures
        final(dst)@ == old(dst)@ + tx_bytes(tx@),
{
    append_le(dst, i32_to_bits(tx.version) as u64, 4);
    append_varint(dst, tx.inputs.len() as u64);
    append_inputs(dst, tx);
    append_varint(dst, tx.outputs.len() as u64);
    append_outputs(dst, tx);
    append_le(dst, tx.lock_time as u64, 4);
    assert(dst@ =~= old(dst)@ + tx_bytes(tx@));
}

/// The bytes of `tx` on the wire. Read back, they give `tx` again.
pub fn serialize_transaction(tx: &Transaction) -> (r: Vec<u8>)
    ensures
        r@ == tx_bytes(tx@),
        r@.len() == tx_size(tx@),
        crate::serialization::decode::parse_tx(r@) == Ok::<TxView, crate::serialization::decode::DecodeError>(tx@),
{
    proof {
        crate::serialization::decode::lemma_held_is_encodable(*tx);
        crate::serialization::decode::lemma_roundtrip(tx@);
        lemma_tx_size(tx@);
    }
    let mut r: Vec<u8> = Vec::new();
    append_le(&mut r, i32_to_bits(tx.version) as u64, 4);
    append_varint(&mut r, tx.inputs.len() as u64);
    append_inputs(&mut r, tx);
    append_varint(&mut r, tx.outputs.len() as u64);
    append_outputs(&mut r, tx);
    append_le(&mut r, tx.lock_time as u64, 4);
    assert(r@ =~= tx_bytes(tx@));
    r
}

} // verus!
