//! Reading transactions from their bytes on the wire.
//!
//! Reading is the inverse of writing: the bytes of a transaction read back
//! as that transaction, and nothing else is accepted as its encoding, since
//! counts must be written in their shortest form.

use vstd::prelude::*;
use vstd::slice::slice_subrange;
use crate::bytes::{lemma_split, lemma_tail, copy_bytes, hash_of_seq, i32_bits, i32_from_bits, i64_bits, i64_from_bits, le_bytes, le_value, lemma_hash_of_seq, lemma_le_bytes_len, lemma_le_roundtrip, lemma_le_value_bytes, lemma_pow256_values, pow256, read_hash, read_le};
use crate::serialization::transaction::{input_bytes, input_len, inputs_bytes, inputs_len, lemma_input_len, lemma_inputs_len, lemma_output_len, lemma_outputs_len, lemma_tx_size, output_bytes, output_len, outputs_bytes, outputs_len, tx_bytes, tx_size};
use crate::serialization::varint::{decode_varint, lemma_varint_len, lemma_varint_roundtrip, parse_varint, varint_len, varint_spec, VarIntError};
use crate::transaction_hash::{sighash_preimage_spec, SighashType};
use crate::types::{OutPoint, Transaction, TransactionInput, TransactionOutput, TxInView, TxOutView, TxView};

verus! {

/// Why bytes are not the encoding of a transaction.
#[derive(Debug, Clone, Copy, PartialEq, Eq, Structural)]
pub enum DecodeError {
    /// The bytes end before the transaction does.
    UnexpectedEnd,
    /// A count is written in more bytes than it needs.
    NonCanonicalVarInt,
    /// Bytes follow the transaction.
    TrailingBytes,
}

/// The count that is written at position `pos`, and the position after it.
pub open spec fn varint_at(s: Seq<u8>, pos: int) -> Result<(u64, int), DecodeError> {
    if pos < 0 || pos > s.len() {
        Err(DecodeError::UnexpectedEnd)
    } else {
        match parse_varint(s.subrange(pos, s.len() as int)) {
            Ok((v, used)) => Ok((v, pos + used)),
            Err(VarIntError::UnexpectedEnd) => Err(DecodeError::UnexpectedEnd),
            Err(VarIntError::NonCanonical) => Err(DecodeError::NonCanonicalVarInt),
        }
    }
}

/// The input that is written at position `pos`, and the position after it.
pub open spec fn input_at(s: Seq<u8>, pos: int) -> Result<(TxInView, int), DecodeError> {
    if pos < 0 || pos + 36 > s.len() {
        Err(DecodeError::UnexpectedEnd)
    } else {
        match varint_at(s, pos + 36) {
            Err(e) => Err(e),
            Ok((len, p)) => if p + len + 4 > s.len() {
                Err(DecodeError::UnexpectedEnd)
            } else {
                Ok(
                    (
                        TxInView {
                            prevout: OutPoint {
                                hash: hash_of_seq(s.subrange(pos, pos + 32)),
                                index: le_value(s.subrange(pos + 32, pos + 36)) as u32,
                            },
                            script_sig: s.subrange(p, p + len),
                            sequence: le_value(s.subrange(p + len, p + len + 4)) as u32,
                        },
                        p + len + 4,
                    ),
                )
            },
        }
    }
}

/// The signed number whose two's-complement value is `b`.
pub open spec fn i64_of_bits(b: nat) -> i64 {
    if b < 0x8000_0000_0000_0000 {
        b as i64
    } else {
        (b - 0x1_0000_0000_0000_0000) as i64
    }
}

/// The signed number whose two's-complement value is `b`.
pub open spec fn i32_of_bits(b: nat) -> i32 {
    if b < 0x8000_0000 {
        b as i32
    } else {
        (b - 0x1_0000_0000) as i32
    }
}

/// The output that is written at position `pos`, and the position after it.
pub open spec fn output_at(s: Seq<u8>, pos: int) -> Result<(TxOutView, int), DecodeError> {
    if pos < 0 || pos + 8 > s.len() {
        Err(DecodeError::UnexpectedEnd)
    } else {
        match varint_at(s, pos + 8) {
            Err(e) => Err(e),
            Ok((len, p)) => if p + len > s.len() {
                Err(DecodeError::UnexpectedEnd)
            } else {
                Ok(
                    (
                        TxOutView {
                            value: i64_of_bits(le_value(s.subrange(pos, pos + 8))),
                            script_pubkey: s.subrange(p, p + len),
                        },
                        p + len,
                    ),
                )
            },
        }
    }
}

/// The first `n` inputs that are written from position `pos` on, and the
/// position after them.
pub open spec fn inputs_at(s: Seq<u8>, pos: int, n: nat) -> Result<(Seq<TxInView>, int), DecodeError>
    decreases n,
{
    if n == 0 {
        Ok((Seq::<TxInView>::empty(), pos))
    } else {
        match inputs_at(s, pos, (n - 1) as nat) {
            Err(e) => Err(e),
            Ok((items, p)) => match input_at(s, p) {
                Err(e) => Err(e),
                Ok((item, next)) => Ok((items.push(item), next)),
            },
        }
    }
}

/// The first `n` outputs that are written from position `pos` on, and the
/// position after them.
pub open spec fn outputs_at(s: Seq<u8>, pos: int, n: nat) -> Result<(Seq<TxOutView>, int), DecodeError>
    decreases n,
{
    if n == 0 {
        Ok((Seq::<TxOutView>::empty(), pos))
    } else {
        match outputs_at(s, pos, (n - 1) as nat) {
            Err(e) => Err(e),
            Ok((items, p)) => match output_at(s, p) {
                Err(e) => Err(e),
                Ok((item, next)) => Ok((items.push(item), next)),
            },
        }
    }
}

/// The transaction that is written at position `pos`, and the position
/// after it.
#[verifier::opaque]
pub open spec fn tx_at(s: Seq<u8>, pos: int) -> Result<(TxView, int), DecodeError> {
    if pos < 0 || pos + 4 > s.len() {
        Err(DecodeError::UnexpectedEnd)
    } else {
        match varint_at(s, pos + 4) {
            Err(e) => Err(e),
            Ok((n_in, p1)) => match inputs_at(s, p1, n_in as nat) {
                Err(e) => Err(e),
                Ok((inputs, p2)) => match varint_at(s, p2) {
                    Err(e) => Err(e),
                    Ok((n_out, p3)) => match outputs_at(s, p3, n_out as nat) {
                        Err(e) => Err(e),
                        Ok((outputs, p4)) => if p4 + 4 > s.len() {
                            Err(DecodeError::UnexpectedEnd)
                        } else {
                            Ok(
                                (
                                    TxView {
                                        version: i32_of_bits(le_value(s.subrange(pos, pos + 4))),
                                        inputs,
                                        outputs,
                                        lock_time: le_value(s.subrange(p4, p4 + 4)) as u32,
                                    },
                                    p4 + 4,
                                ),
                            )
                        },
                    },
                },
            },
        }
    }
}

/// The transaction that the bytes `s` are the encoding of.
pub open spec fn parse_tx(s: Seq<u8>) -> Result<TxView, DecodeError> {
    match tx_at(s, 0) {
        Err(e) => Err(e),
        Ok((tx, end)) => if end < s.len() {
            Err(DecodeError::TrailingBytes)
        } else {
            Ok(tx)
        },
    }
}

/// Whether a transaction can be written: its counts and the lengths of its
/// scripts fit in 64 bits.
pub open spec fn encodable(tx: TxView) -> bool {
    &&& tx.inputs.len() <= u64::MAX
    &&& tx.outputs.len() <= u64::MAX
    &&& forall|i: int| 0 <= i < tx.inputs.len() ==> (#[trigger] tx.inputs[i]).script_sig.len() <= u64::MAX
    &&& forall|i: int| 0 <= i < tx.outputs.len() ==> (#[trigger] tx.outputs[i]).script_pubkey.len() <= u64::MAX
}

proof fn lemma_varint_at(s: Seq<u8>, pos: int, x: u64)
    requires
        0 <= pos,
        pos + varint_len(x as nat) <= s.len(),
        s.subrange(pos, pos + varint_len(x as nat)) == varint_spec(x as nat),
    ensures
        varint_at(s, pos) == Ok::<(u64, int), DecodeError>((x, pos + varint_len(x as nat))),
{
    let rest = s.subrange(pos + varint_len(x as nat), s.len() as int);
    lemma_varint_len(x as nat);
    assert(s.subrange(pos, s.len() as int) =~= varint_spec(x as nat) + rest);
    lemma_varint_roundtrip(x, rest);
}

proof fn lemma_le_at(s: Seq<u8>, pos: int, x: nat, n: nat)
    requires
        0 <= pos,
        pos + n <= s.len(),
        x < pow256(n),
        s.subrange(pos, pos + n) == le_bytes(x, n),
    ensures
        le_value(s.subrange(pos, pos + n)) == x,
{
    lemma_le_roundtrip(x, n);
}

/// Where the bytes of an input stand at position `pos`, that input is read there.
proof fn lemma_input_at(s: Seq<u8>, pos: int, input: TxInView)
    requires
        0 <= pos,
        input.script_sig.len() <= u64::MAX,
        pos + input_len(input) <= s.len(),
        s.subrange(pos, pos + input_len(input)) == input_bytes(input),
    ensures
        input_at(s, pos) == Ok::<(TxInView, int), DecodeError>((input, pos + input_len(input))),
{
    let len = input.script_sig.len() as int;
    let vl = varint_len(len as nat) as int;
    let a = input.prevout.hash@;
    let b = le_bytes(input.prevout.index as nat, 4);
    let c = varint_spec(len as nat);
    let d = input.script_sig;
    let e = le_bytes(input.sequence as nat, 4);
    lemma_input_len(input);
    lemma_varint_len(len as nat);
    lemma_le_bytes_len(input.prevout.index as nat, 4);
    lemma_le_bytes_len(input.sequence as nat, 4);
    lemma_pow256_values();
    assert(a.len() == 32);
    assert(input_bytes(input) == (((a + b) + c) + d) + e);
    lemma_split(s, pos, ((a + b) + c) + d, e);
    lemma_split(s, pos, (a + b) + c, d);
    lemma_split(s, pos, a + b, c);
    lemma_split(s, pos, a, b);
    lemma_hash_of_seq(input.prevout.hash);
    lemma_le_at(s, pos + 32, input.prevout.index as nat, 4);
    lemma_varint_at(s, pos + 36, len as u64);
    let p = pos + 36 + vl;
    lemma_le_at(s, p + len, input.sequence as nat, 4);
    assert(OutPoint {
        hash: hash_of_seq(s.subrange(pos, pos + 32)),
        index: le_value(s.subrange(pos + 32, pos + 36)) as u32,
    } == input.prevout);
}

/// Where the bytes of an output stand at position `pos`, that output is read there.
proof fn lemma_output_at(s: Seq<u8>, pos: int, output: TxOutView)
    requires
        0 <= pos,
        output.script_pubkey.len() <= u64::MAX,
        pos + output_len(output) <= s.len(),
        s.subrange(pos, pos + output_len(output)) == output_bytes(output),
    ensures
        output_at(s, pos) == Ok::<(TxOutView, int), DecodeError>((output, pos + output_len(output))),
{
    let len = output.script_pubkey.len() as int;
    let vl = varint_len(len as nat) as int;
    let a = le_bytes(i64_bits(output.value), 8);
    let c = varint_spec(len as nat);
    let d = output.script_pubkey;
    lemma_output_len(output);
    lemma_varint_len(len as nat);
    lemma_le_bytes_len(i64_bits(output.value), 8);
    lemma_pow256_values();
    lemma_bits_roundtrip(0, output.value);
    assert(output_bytes(output) == (a + c) + d);
    lemma_split(s, pos, a + c, d);
    lemma_split(s, pos, a, c);
    lemma_le_at(s, pos, i64_bits(output.value), 8);
    lemma_varint_at(s, pos + 8, len as u64);
}

/// The length of the bytes of the first `n` inputs.
pub open spec fn inputs_prefix_len(inputs: Seq<TxInView>, n: int) -> nat
    decreases n,
{
    if n <= 0 {
        0
    } else {
        inputs_prefix_len(inputs, n - 1) + input_len(inputs[n - 1])
    }
}

/// The length of the bytes of the first `n` outputs.
pub open spec fn outputs_prefix_len(outputs: Seq<TxOutView>, n: int) -> nat
    decreases n,
{
    if n <= 0 {
        0
    } else {
        outputs_prefix_len(outputs, n - 1) + output_len(outputs[n - 1])
    }
}

/// The bytes of all inputs hold, after those of the first `n`, the bytes of
/// the inputs from `n` on.
proof fn lemma_inputs_layout(inputs: Seq<TxInView>, n: int)
    requires
        0 <= n <= inputs.len(),
    ensures
        inputs_prefix_len(inputs, n) + inputs_len(inputs, n) == inputs_len(inputs, 0),
        inputs_bytes(inputs, 0).subrange(
            inputs_prefix_len(inputs, n) as int,
            inputs_len(inputs, 0) as int,
        ) == inputs_bytes(inputs, n),
    decreases n,
{
    lemma_inputs_len(inputs, 0);
    if n == 0 {
        assert(inputs_bytes(inputs, 0).subrange(0, inputs_len(inputs, 0) as int) =~= inputs_bytes(inputs, 0));
    } else {
        lemma_inputs_layout(inputs, n - 1);
        lemma_input_len(inputs[n - 1]);
        lemma_inputs_len(inputs, n - 1);
        lemma_inputs_len(inputs, n);
        let whole = inputs_bytes(inputs, 0);
        let a = inputs_prefix_len(inputs, n - 1) as int;
        assert(whole.subrange(a, whole.len() as int) == input_bytes(inputs[n - 1]) + inputs_bytes(inputs, n));
        lemma_tail(whole, a, input_bytes(inputs[n - 1]), inputs_bytes(inputs, n));
    }
}

proof fn lemma_outputs_layout(outputs: Seq<TxOutView>, n: int)
    requires
        0 <= n <= outputs.len(),
    ensures
        outputs_prefix_len(outputs, n) + outputs_len(outputs, n) == outputs_len(outputs, 0),
        outputs_bytes(outputs, 0).subrange(
            outputs_prefix_len(outputs, n) as int,
            outputs_len(outputs, 0) as int,
        ) == outputs_bytes(outputs, n),
    decreases n,
{
    lemma_outputs_len(outputs, 0);
    if n == 0 {
        assert(outputs_bytes(outputs, 0).subrange(0, outputs_len(outputs, 0) as int) =~= outputs_bytes(
            outputs,
            0,
        ));
    } else {
        lemma_outputs_layout(outputs, n - 1);
        lemma_output_len(outputs[n - 1]);
        lemma_outputs_len(outputs, n - 1);
        lemma_outputs_len(outputs, n);
        let whole = outputs_bytes(outputs, 0);
        let a = outputs_prefix_len(outputs, n - 1) as int;
        assert(whole.subrange(a, whole.len() as int) == output_bytes(outputs[n - 1]) + outputs_bytes(
            outputs,
            n,
        ));
        lemma_tail(whole, a, output_bytes(outputs[n - 1]), outputs_bytes(outputs, n));
    }
}

/// Where the bytes of all inputs stand at position `pos`, the first `n` of
/// them are read there.
proof fn lemma_inputs_at(s: Seq<u8>, pos: int, inputs: Seq<TxInView>, n: int)
    requires
        0 <= pos,
        0 <= n <= inputs.len(),
        forall|i: int| 0 <= i < inputs.len() ==> (#[trigger] inputs[i]).script_sig.len() <= u64::MAX,
        pos + inputs_len(inputs, 0) <= s.len(),
        s.subrange(pos, pos + inputs_len(inputs, 0)) == inputs_bytes(inputs, 0),
    ensures
        inputs_at(s, pos, n as nat) == Ok::<(Seq<TxInView>, int), DecodeError>(
            (inputs.subrange(0, n), pos + inputs_prefix_len(inputs, n)),
        ),
    decreases n,
{
    if n == 0 {
        assert(inputs.subrange(0, 0) =~= Seq::<TxInView>::empty());
    } else {
        lemma_inputs_at(s, pos, inputs, n - 1);
        lemma_inputs_layout(inputs, n - 1);
        lemma_inputs_layout(inputs, n);
        lemma_input_len(inputs[n - 1]);
        lemma_inputs_len(inputs, 0);
        let whole = inputs_bytes(inputs, 0);
        let a = inputs_prefix_len(inputs, n - 1) as int;
        let item = inputs[n - 1];
        assert(whole.subrange(a, whole.len() as int) == input_bytes(item) + inputs_bytes(inputs, n));
        assert(s.subrange(pos + a, pos + a + input_len(item)) =~= input_bytes(item)) by {
            assert forall|k: int| 0 <= k < input_len(item) implies s[pos + a + k] == input_bytes(item)[k] by {
                assert(s.subrange(pos, pos + inputs_len(inputs, 0))[a + k] == s[pos + a + k]);
                assert(whole.subrange(a, whole.len() as int)[k] == whole[a + k]);
            }
        }
        lemma_input_at(s, pos + a, item);
        assert(inputs.subrange(0, n - 1).push(item) =~= inputs.subrange(0, n));
    }
}

proof fn lemma_outputs_at(s: Seq<u8>, pos: int, outputs: Seq<TxOutView>, n: int)
    requires
        0 <= pos,
        0 <= n <= outputs.len(),
        forall|i: int| 0 <= i < outputs.len() ==> (#[trigger] outputs[i]).script_pubkey.len() <= u64::MAX,
        pos + outputs_len(outputs, 0) <= s.len(),
        s.subrange(pos, pos + outputs_len(outputs, 0)) == outputs_bytes(outputs, 0),
    ensures
        outputs_at(s, pos, n as nat) == Ok::<(Seq<TxOutView>, int), DecodeError>(
            (outputs.subrange(0, n), pos + outputs_prefix_len(outputs, n)),
        ),
    decreases n,
{
    if n == 0 {
        assert(outputs.subrange(0, 0) =~= Seq::<TxOutView>::empty());
    } else {
        lemma_outputs_at(s, pos, outputs, n - 1);
        lemma_outputs_layout(outputs, n - 1);
        lemma_outputs_layout(outputs, n);
        lemma_output_len(outputs[n - 1]);
        lemma_outputs_len(outputs, 0);
        let whole = outputs_bytes(outputs, 0);
        let a = outputs_prefix_len(outputs, n - 1) as int;
        let item = outputs[n - 1];
        assert(whole.subrange(a, whole.len() as int) == output_bytes(item) + outputs_bytes(outputs, n));
        assert(s.subrange(pos + a, pos + a + output_len(item)) =~= output_bytes(item)) by {
            assert forall|k: int| 0 <= k < output_len(item) implies s[pos + a + k] == output_bytes(item)[k] by {
                assert(s.subrange(pos, pos + outputs_len(outputs, 0))[a + k] == s[pos + a + k]);
                assert(whole.subrange(a, whole.len() as int)[k] == whole[a + k]);
            }
        }
        lemma_output_at(s, pos + a, item);
        assert(outputs.subrange(0, n - 1).push(item) =~= outputs.subrange(0, n));
    }
}

proof fn lemma_bits_roundtrip(v32: i32, v64: i64)
    ensures
        i32_of_bits(i32_bits(v32)) == v32,
        i64_of_bits(i64_bits(v64)) == v64,
        i32_bits(v32) < 0x1_0000_0000,
        i64_bits(v64) < 0x1_0000_0000_0000_0000,
{
}

/// Where the bytes of a transaction that can be written stand at
/// position `pos`, that transaction is read there.
pub proof fn lemma_tx_at(s: Seq<u8>, pos: int, tx: TxView)
    requires
        0 <= pos,
        encodable(tx),
        pos + tx_size(tx) <= s.len(),
        s.subrange(pos, pos + tx_size(tx)) == tx_bytes(tx),
    ensures
        tx_at(s, pos) == Ok::<(TxView, int), DecodeError>((tx, pos + tx_size(tx))),
{
    reveal(tx_at);
    let n_in = tx.inputs.len();
    let n_out = tx.outputs.len();
    let v = le_bytes(i32_bits(tx.version), 4);
    let c1 = varint_spec(n_in);
    let ins = inputs_bytes(tx.inputs, 0);
    let c2 = varint_spec(n_out);
    let outs = outputs_bytes(tx.outputs, 0);
    let l = le_bytes(tx.lock_time as nat, 4);
    lemma_tx_size(tx);
    lemma_le_bytes_len(i32_bits(tx.version), 4);
    lemma_le_bytes_len(tx.lock_time as nat, 4);
    lemma_varint_len(n_in);
    lemma_varint_len(n_out);
    lemma_inputs_len(tx.inputs, 0);
    lemma_outputs_len(tx.outputs, 0);
    lemma_pow256_values();
    lemma_bits_roundtrip(tx.version, 0);
    assert(tx_bytes(tx) == ((((v + c1) + ins) + c2) + outs) + l);
    lemma_split(s, pos, (((v + c1) + ins) + c2) + outs, l);
    lemma_split(s, pos, ((v + c1) + ins) + c2, outs);
    lemma_split(s, pos, (v + c1) + ins, c2);
    lemma_split(s, pos, v + c1, ins);
    lemma_split(s, pos, v, c1);
    lemma_le_at(s, pos, i32_bits(tx.version), 4);
    lemma_varint_at(s, pos + 4, n_in as u64);
    let p1: int = pos + 4 + c1.len();
    lemma_inputs_at(s, p1, tx.inputs, n_in as int);
    lemma_inputs_layout(tx.inputs, n_in as int);
    assert(inputs_len(tx.inputs, n_in as int) == 0);
    assert(tx.inputs.subrange(0, n_in as int) =~= tx.inputs);
    let p2: int = p1 + ins.len();
    lemma_varint_at(s, p2, n_out as u64);
    let p3: int = p2 + c2.len();
    lemma_outputs_at(s, p3, tx.outputs, n_out as int);
    lemma_outputs_layout(tx.outputs, n_out as int);
    assert(outputs_len(tx.outputs, n_out as int) == 0);
    assert(tx.outputs.subrange(0, n_out as int) =~= tx.outputs);
    let p4: int = p3 + outs.len();
    lemma_le_at(s, p4, tx.lock_time as nat, 4);
}

/// The bytes of a transaction that can be written read back as that
/// transaction; and so the preimage of every signature hash of the
/// transaction read back is that of the transaction itself.
pub proof fn lemma_roundtrip(tx: TxView)
    requires
        encodable(tx),
    ensures
        parse_tx(tx_bytes(tx)) == Ok::<TxView, DecodeError>(tx),
        forall|index: int, sighash_type: SighashType| #[trigger]
            sighash_preimage_spec(parse_tx(tx_bytes(tx))->Ok_0, index, sighash_type) == sighash_preimage_spec(
                tx,
                index,
                sighash_type,
            ),
{
    let s = tx_bytes(tx);
    lemma_tx_size(tx);
    assert(s.subrange(0, s.len() as int) =~= s);
    lemma_tx_at(s, 0, tx);
}

proof fn lemma_inputs_error(s: Seq<u8>, pos: int, i: nat, n: nat)
    requires
        i <= n,
        inputs_at(s, pos, i) is Err,
    ensures
        inputs_at(s, pos, n) == inputs_at(s, pos, i),
    decreases n - i,
{
    if i < n {
        lemma_inputs_error(s, pos, i, (n - 1) as nat);
    }
}

proof fn lemma_outputs_error(s: Seq<u8>, pos: int, i: nat, n: nat)
    requires
        i <= n,
        outputs_at(s, pos, i) is Err,
    ensures
        outputs_at(s, pos, n) == outputs_at(s, pos, i),
    decreases n - i,
{
    if i < n {
        lemma_outputs_error(s, pos, i, (n - 1) as nat);
    }
}

/// Reads the count that is written at `pos`.
fn read_varint_at(data: &[u8], pos: usize) -> (r: Result<(u64, usize), DecodeError>)
    requires
        pos <= data@.len(),
    ensures
        match r {
            Ok((v, next)) => varint_at(data@, pos as int) == Ok::<(u64, int), DecodeError>((v, next as int))
                && pos < next <= data@.len(),
            Err(e) => varint_at(data@, pos as int) == Err::<(u64, int), DecodeError>(e),
        },
{
    let rest = slice_subrange(data, pos, data.len());
    match decode_varint(rest) {
        Ok((v, used)) => {
            proof {
                crate::serialization::varint::lemma_parse_varint_canonical(rest@);
            }
            Ok((v, pos + used))
        },
        Err(VarIntError::UnexpectedEnd) => Err(DecodeError::UnexpectedEnd),
        Err(VarIntError::NonCanonical) => Err(DecodeError::NonCanonicalVarInt),
    }
}

/// Reads four bytes at `pos` as a little-endian number.
fn read_u32_at(data: &[u8], pos: usize) -> (r: u32)
    requires
        pos + 4 <= data@.len(),
    ensures
        r == le_value(data@.subrange(pos as int, pos + 4)) as u32,
        r as nat == le_value(data@.subrange(pos as int, pos + 4)),
{
    let v = read_le(data, pos, 4);
    proof {
        lemma_le_value_bytes(data@.subrange(pos as int, pos + 4));
        lemma_pow256_values();
    }
    v as u32
}

/// Reads the input that is written at `pos`.
fn read_input_at(data: &[u8], pos: usize) -> (r: Result<(TransactionInput, usize), DecodeError>)
    requires
        pos <= data@.len(),
    ensures
        match r {
            Ok((input, next)) => input_at(data@, pos as int) == Ok::<(TxInView, int), DecodeError>(
                (input@, next as int),
            ) && pos < next <= data@.len(),
            Err(e) => input_at(data@, pos as int) == Err::<(TxInView, int), DecodeError>(e),
        },
{
    let n = data.len();
    if n - pos < 36 {
        return Err(DecodeError::UnexpectedEnd);
    }
    let hash = read_hash(data, pos);
    let index = read_u32_at(data, pos + 32);
    let (len, p) = match read_varint_at(data, pos + 36) {
        Ok(found) => found,
        Err(e) => {
            return Err(e);
        },
    };
    if len > ((n - p) as u64) || ((n - p) as u64) - len < 4 {
        return Err(DecodeError::UnexpectedEnd);
    }
    let len: usize = len as usize;
    let script_sig = copy_bytes(slice_subrange(data, p, p + len));
    let sequence = read_u32_at(data, p + len);
    Ok((TransactionInput { prevout: OutPoint { hash, index }, script_sig, sequence }, p + len + 4))
}

/// Reads the output that is written at `pos`.
fn read_output_at(data: &[u8], pos: usize) -> (r: Result<(TransactionOutput, usize), DecodeError>)
    requires
        pos <= data@.len(),
    ensures
        match r {
            Ok((output, next)) => output_at(data@, pos as int) == Ok::<(TxOutView, int), DecodeError>(
                (output@, next as int),
            ) && pos < next <= data@.len(),
            Err(e) => output_at(data@, pos as int) == Err::<(TxOutView, int), DecodeError>(e),
        },
{
    let n = data.len();
    if n - pos < 8 {
        return Err(DecodeError::UnexpectedEnd);
    }
    let bits = read_le(data, pos, 8);
    let value = i64_from_bits(bits);
    proof {
        lemma_bits_roundtrip(0, value);
    }
    let (len, p) = match read_varint_at(data, pos + 8) {
        Ok(found) => found,
        Err(e) => {
            return Err(e);
        },
    };
    if len > ((n - p) as u64) {
        return Err(DecodeError::UnexpectedEnd);
    }
    let len: usize = len as usize;
    let script_pubkey = copy_bytes(slice_subrange(data, p, p + len));
    Ok((TransactionOutput { value, script_pubkey }, p + len))
}

/// The views of a list of inputs.
pub open spec fn inputs_view(inputs: Seq<TransactionInput>) -> Seq<TxInView> {
    Seq::new(inputs.len(), |i: int| inputs[i]@)
}

/// Reads the transaction that is written at `pos`.
pub(crate) fn read_tx_at(data: &[u8], pos: usize) -> (r: Result<(Transaction, usize), DecodeError>)
    requires
        pos <= data@.len(),
    ensures
        match r {
            Ok((tx, next)) => tx_at(data@, pos as int) == Ok::<(TxView, int), DecodeError>((tx@, next as int))
                && pos < next <= data@.len(),
            Err(e) => tx_at(data@, pos as int) == Err::<(TxView, int), DecodeError>(e),
        },
{
    proof {
        reveal(tx_at);
    }
    let n = data.len();
    if n - pos < 4 {
        return Err(DecodeError::UnexpectedEnd);
    }
    let version_bits = read_u32_at(data, pos);
    let version = i32_from_bits(version_bits);
    proof {
        lemma_bits_roundtrip(version, 0);
    }
    let (n_in, p1) = match read_varint_at(data, pos + 4) {
        Ok(found) => found,
        Err(e) => {
            return Err(e);
        },
    };
    let mut inputs: Vec<TransactionInput> = Vec::new();
    let mut at: usize = p1;
    let mut i: u64 = 0;
    assert(inputs_view(inputs@) =~= Seq::<TxInView>::empty());
    while i < n_in
        invariant
            i <= n_in,
            n == data@.len(),
            pos + 4 <= n,
            pos + 4 < p1 <= at,
            at <= n,
            varint_at(data@, pos + 4) == Ok::<(u64, int), DecodeError>((n_in, p1 as int)),
            inputs_at(data@, p1 as int, i as nat) == Ok::<(Seq<TxInView>, int), DecodeError>(
                (inputs_view(inputs@), at as int),
            ),
        decreases n_in - i,
    {
        let ghost before = inputs_view(inputs@);
        match read_input_at(data, at) {
            Err(e) => {
                proof {
                    reveal(tx_at);
                    lemma_inputs_error(data@, p1 as int, (i + 1) as nat, n_in as nat);
                }
                return Err(e);
            },
            Ok((input, next)) => {
                inputs.push(input);
                assert(inputs_view(inputs@) =~= before.push(input@));
                at = next;
            },
        }
        i += 1;
    }
    let p2 = at;
    let (n_out, p3) = match read_varint_at(data, p2) {
        Ok(found) => found,
        Err(e) => {
            return Err(e);
        },
    };
    let mut outputs: Vec<TransactionOutput> = Vec::new();
    let mut k: u64 = 0;
    at = p3;
    assert(crate::types::outputs_view(outputs@) =~= Seq::<TxOutView>::empty());
    while k < n_out
        invariant
            k <= n_out,
            n == data@.len(),
            pos + 4 <= n,
            pos + 4 < p1 <= p2,
            p2 < p3 <= at,
            at <= n,
            varint_at(data@, pos + 4) == Ok::<(u64, int), DecodeError>((n_in, p1 as int)),
            inputs_at(data@, p1 as int, n_in as nat) == Ok::<(Seq<TxInView>, int), DecodeError>(
                (inputs_view(inputs@), p2 as int),
            ),
            varint_at(data@, p2 as int) == Ok::<(u64, int), DecodeError>((n_out, p3 as int)),
            outputs_at(data@, p3 as int, k as nat) == Ok::<(Seq<TxOutView>, int), DecodeError>(
                (crate::types::outputs_view(outputs@), at as int),
            ),
        decreases n_out - k,
    {
        let ghost before = crate::types::outputs_view(outputs@);
        match read_output_at(data, at) {
            Err(e) => {
                proof {
                    reveal(tx_at);
                    lemma_outputs_error(data@, p3 as int, (k + 1) as nat, n_out as nat);
                }
                return Err(e);
            },
            Ok((output, next)) => {
                outputs.push(output);
                assert(crate::types::outputs_view(outputs@) =~= before.push(output@));
                at = next;
            },
        }
        k += 1;
    }
    if n - at < 4 {
        return Err(DecodeError::UnexpectedEnd);
    }
    let lock_time = read_u32_at(data, at);
    let tx = Transaction { version, inputs, outputs, lock_time };
    proof {
        assert(tx@.inputs =~= inputs_view(tx.inputs@));
        assert(tx@.outputs =~= crate::types::outputs_view(tx.outputs@));
    }
    Ok((tx, at + 4))
}

/// Reads a transaction from its bytes on the wire.
///
/// Succeeds exactly where `data` is the encoding of a transaction, with
/// every count in its shortest form and no byte left over; the error says
/// what is wrong at the first place where the bytes cannot be read.
pub fn deserialize_transaction(data: &[u8]) -> (r: Result<Transaction, DecodeError>)
    ensures
        match r {
            Ok(tx) => parse_tx(data@) == Ok::<TxView, DecodeError>(tx@),
            Err(e) => parse_tx(data@) == Err::<TxView, DecodeError>(e),
        },
{
    match read_tx_at(data, 0) {
        Err(e) => Err(e),
        Ok((tx, end)) => {
            if end < data.len() {
                Err(DecodeError::TrailingBytes)
            } else {
                Ok(tx)
            }
        },
    }
}

/// Every transaction that is held in memory can be written.
pub proof fn lemma_held_is_encodable(tx: Transaction)
    ensures
        encodable(tx@),
{
    assert(tx.inputs.len() <= usize::MAX);
    assert(tx.outputs.len() <= usize::MAX);
    assert forall|i: int| 0 <= i < tx@.inputs.len() implies (#[trigger] tx@.inputs[i]).script_sig.len()
        <= u64::MAX by {
        assert(tx.inputs@[i].script_sig.len() <= usize::MAX);
    }
    assert forall|i: int| 0 <= i < tx@.outputs.len() implies (#[trigger] tx@.outputs[i]).script_pubkey.len()
        <= u64::MAX by {
        assert(tx.outputs@[i].script_pubkey.len() <= usize::MAX);
    }
}

} // verus!
