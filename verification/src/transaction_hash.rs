//! The hash that a signature commits to.
//!
//! A signature signs the double SHA-256 of a preimage made from the spending
//! transaction, the index of the input being signed and a type byte that
//! says which parts of the transaction are covered.

use vstd::prelude::*;
use crate::bytes::{append_le, append_zeros, i32_bits, i32_to_bits, le_bytes, zeros};
use crate::crypto::{double_sha256, double_sha256_spec};
use crate::error::ConsensusError;
use crate::serialization::transaction::{append_input, append_output, append_outputs, input_bytes, output_bytes, outputs_bytes};
use crate::serialization::varint::{append_varint, varint_spec};
use crate::types::{Transaction, TransactionOutput, TxInView, TxView};

pub use crate::serialization::varint::encode_varint;

verus! {

/// Which outputs a signature covers.
#[derive(Debug, Clone, Copy, PartialEq, Eq, Structural)]
pub enum SighashBase {
    /// All outputs.
    All,
    /// No output.
    NoOutputs,
    /// The output at the index of the signed input.
    Single,
}

/// What a signature covers: a base type, alone or with the modifier
/// "anyone can pay", which leaves the other inputs out.
#[derive(Debug, Clone, Copy, PartialEq, Eq, Structural)]
pub enum SighashType {
    /// All inputs and all outputs (`0x01`).
    All,
    /// All inputs, no output (`0x02`).
    NoOutputs,
    /// All inputs, the output at the index of the signed input (`0x03`).
    Single,
    /// This input only, all outputs (`0x81`).
    AllAnyoneCanPay,
    /// This input only, no output (`0x82`).
    NoOutputsAnyoneCanPay,
    /// This input only, one output (`0x83`).
    SingleAnyoneCanPay,
}

impl SighashType {
    /// The type byte.
    pub open spec fn byte_spec(self) -> u8 {
        match self {
            SighashType::All => 0x01,
            SighashType::NoOutputs => 0x02,
            SighashType::Single => 0x03,
            SighashType::AllAnyoneCanPay => 0x81,
            SighashType::NoOutputsAnyoneCanPay => 0x82,
            SighashType::SingleAnyoneCanPay => 0x83,
        }
    }

    /// The base type.
    pub open spec fn base_spec(self) -> SighashBase {
        match self {
            SighashType::All | SighashType::AllAnyoneCanPay => SighashBase::All,
            SighashType::NoOutputs | SighashType::NoOutputsAnyoneCanPay => SighashBase::NoOutputs,
            SighashType::Single | SighashType::SingleAnyoneCanPay => SighashBase::Single,
        }
    }

    /// Whether the modifier "anyone can pay" is set.
    pub open spec fn anyone_can_pay_spec(self) -> bool {
        self is AllAnyoneCanPay || self is NoOutputsAnyoneCanPay || self is SingleAnyoneCanPay
    }

    /// Reads a type byte. The bytes `0x01`, `0x02`, `0x03` and the same with
    /// the bit `0x80` set are types; every other byte is refused.
    pub fn from_byte(byte: u8) -> (r: Result<SighashType, ConsensusError>)
        ensures
            match r {
                Ok(t) => t.byte_spec() == byte,
                Err(e) => e == ConsensusError::InvalidSighashType(byte) && forall|t: SighashType|
                    t.byte_spec() != byte,
            },
    {
        match byte {
            0x01 => Ok(SighashType::All),
            0x02 => Ok(SighashType::NoOutputs),
            0x03 => Ok(SighashType::Single),
            0x81 => Ok(SighashType::AllAnyoneCanPay),
            0x82 => Ok(SighashType::NoOutputsAnyoneCanPay),
            0x83 => Ok(SighashType::SingleAnyoneCanPay),
            _ => Err(ConsensusError::InvalidSighashType(byte)),
        }
    }

    /// The type byte.
    pub fn to_byte(self) -> (b: u8)
        ensures
            b == self.byte_spec(),
    {
        match self {
            SighashType::All => 0x01,
            SighashType::NoOutputs => 0x02,
            SighashType::Single => 0x03,
            SighashType::AllAnyoneCanPay => 0x81,
            SighashType::NoOutputsAnyoneCanPay => 0x82,
            SighashType::SingleAnyoneCanPay => 0x83,
        }
    }

    /// The base type.
    pub fn base(self) -> (b: SighashBase)
        ensures
            b == self.base_spec(),
    {
        match self {
            SighashType::All | SighashType::AllAnyoneCanPay => SighashBase::All,
            SighashType::NoOutputs | SighashType::NoOutputsAnyoneCanPay => SighashBase::NoOutputs,
            SighashType::Single | SighashType::SingleAnyoneCanPay => SighashBase::Single,
        }
    }

    /// Whether the modifier "anyone can pay" is set.
    pub fn anyone_can_pay(self) -> (b: bool)
        ensures
            b == self.anyone_can_pay_spec(),
    {
        match self {
            SighashType::All | SighashType::NoOutputs | SighashType::Single => false,
            _ => true,
        }
    }

    /// The same base type with the modifier "anyone can pay" set.
    pub fn with_anyone_can_pay(self) -> (t: SighashType)
        ensures
            t.base_spec() == self.base_spec(),
            t.anyone_can_pay_spec(),
    {
        match self {
            SighashType::All | SighashType::AllAnyoneCanPay => SighashType::AllAnyoneCanPay,
            SighashType::NoOutputs | SighashType::NoOutputsAnyoneCanPay => SighashType::NoOutputsAnyoneCanPay,
            SighashType::Single | SighashType::SingleAnyoneCanPay => SighashType::SingleAnyoneCanPay,
        }
    }
}

/// The 41 bytes that stand for an input that the signature does not cover:
/// a zero outpoint, an empty script and a zero sequence number.
pub open spec fn blank_input_bytes() -> Seq<u8> {
    zeros(32) + zeros(4) + seq![0u8] + zeros(4)
}

/// The bytes of the inputs from index `from` on, as the preimage holds them.
/// With "anyone can pay" every input but the signed one is blank.
pub open spec fn preimage_inputs(inputs: Seq<TxInView>, signing: int, anyone_can_pay: bool, from: int) -> Seq<u8>
    decreases inputs.len() - from,
{
    if from < 0 || from >= inputs.len() {
        Seq::<u8>::empty()
    } else {
        (if anyone_can_pay && from != signing {
            blank_input_bytes()
        } else {
            input_bytes(inputs[from])
        }) + preimage_inputs(inputs, signing, anyone_can_pay, from + 1)
    }
}

/// The bytes of the outputs that the base type covers.
pub open spec fn preimage_outputs(tx: TxView, signing: int, base: SighashBase) -> Seq<u8> {
    match base {
        SighashBase::All => outputs_bytes(tx.outputs, 0),
        SighashBase::NoOutputs => Seq::<u8>::empty(),
        SighashBase::Single => if 0 <= signing < tx.outputs.len() {
            output_bytes(tx.outputs[signing])
        } else {
            Seq::<u8>::empty()
        },
    }
}

/// The preimage of the signature hash of input `signing` of `tx`: the
/// version, the count of inputs and the inputs, the count of outputs and the
/// outputs that are covered, the lock time, and the type byte as four bytes.
pub open spec fn sighash_preimage_spec(tx: TxView, signing: int, sighash_type: SighashType) -> Seq<u8> {
    le_bytes(i32_bits(tx.version), 4) + varint_spec(tx.inputs.len()) + preimage_inputs(
        tx.inputs,
        signing,
        sighash_type.anyone_can_pay_spec(),
        0,
    ) + varint_spec(tx.outputs.len()) + preimage_outputs(tx, signing, sighash_type.base_spec())
        + le_bytes(tx.lock_time as nat, 4) + le_bytes(sighash_type.byte_spec() as nat, 4)
}

/// The signature hash, or the error that refuses the arguments.
pub open spec fn sighash_spec(tx: TxView, input_index: usize, prevouts_len: usize, sighash_type: SighashType) -> Result<Seq<u8>, ConsensusError> {
    if input_index >= tx.inputs.len() {
        Err(ConsensusError::InvalidInputIndex(input_index))
    } else if prevouts_len != tx.inputs.len() {
        Err(ConsensusError::InvalidPrevoutsCount(prevouts_len, tx.inputs.len() as usize))
    } else {
        Ok(double_sha256_spec(sighash_preimage_spec(tx, input_index as int, sighash_type)))
    }
}

/// Builds the preimage of the signature hash of input `input_index` of `tx`.
pub fn sighash_preimage(tx: &Transaction, input_index: usize, sighash_type: SighashType) -> (r: Vec<u8>)
    ensures
        r@ == sighash_preimage_spec(tx@, input_index as int, sighash_type),
{
    let anyone_can_pay = sighash_type.anyone_can_pay();
    let mut r: Vec<u8> = Vec::new();
    append_le(&mut r, i32_to_bits(tx.version) as u64, 4);
    append_varint(&mut r, tx.inputs.len() as u64);
    let ghost head = r@;
    let mut i: usize = 0;
    while i < tx.inputs.len()
        invariant
            i <= tx.inputs.len(),
            r@ + preimage_inputs(tx@.inputs, input_index as int, anyone_can_pay, i as int) == head
                + preimage_inputs(tx@.inputs, input_index as int, anyone_can_pay, 0),
        decreases tx.inputs.len() - i,
    {
        let ghost before = r@;
        if anyone_can_pay && i != input_index {
            append_zeros(&mut r, 32);
            append_zeros(&mut r, 4);
            r.push(0u8);
            append_zeros(&mut r, 4);
            assert(r@ =~= before + blank_input_bytes());
        } else {
            append_input(&mut r, &tx.inputs[i]);
            assert(tx@.inputs[i as int] == tx.inputs@[i as int]@);
        }
        assert(r@ + preimage_inputs(tx@.inputs, input_index as int, anyone_can_pay, i + 1) =~= before
            + preimage_inputs(tx@.inputs, input_index as int, anyone_can_pay, i as int));
        i += 1;
    }
    assert(r@ + Seq::<u8>::empty() =~= r@);
    append_varint(&mut r, tx.outputs.len() as u64);
    match sighash_type.base() {
        SighashBase::All => {
            append_outputs(&mut r, tx);
        },
        SighashBase::NoOutputs => {
            assert(r@ + Seq::<u8>::empty() =~= r@);
        },
        SighashBase::Single => {
            if input_index < tx.outputs.len() {
                append_output(&mut r, &tx.outputs[input_index]);
                assert(tx@.outputs[input_index as int] == tx.outputs@[input_index as int]@);
            } else {
                assert(r@ + Seq::<u8>::empty() =~= r@);
            }
        },
    }
    append_le(&mut r, tx.lock_time as u64, 4);
    append_le(&mut r, sighash_type.to_byte() as u64, 4);
    assert(r@ =~= sighash_preimage_spec(tx@, input_index as int, sighash_type));
    r
}

/// The hash that a signature of input `input_index` of `tx` commits to: the
/// double SHA-256 of the preimage.
///
/// Refuses an index that names no input, and a list of previous outputs that
/// is not as long as the list of inputs.
pub fn calculate_transaction_sighash(
    tx: &Transaction,
    input_index: usize,
    prevouts: &[TransactionOutput],
    sighash_type: SighashType,
) -> (r: Result<[u8; 32], ConsensusError>)
    ensures
        match r {
            Ok(h) => sighash_spec(tx@, input_index, prevouts@.len() as usize, sighash_type) == Ok::<Seq<u8>, ConsensusError>(h@),
            Err(e) => sighash_spec(tx@, input_index, prevouts@.len() as usize, sighash_type) == Err::<Seq<u8>, ConsensusError>(e),
        },
{
    if input_index >= tx.inputs.len() {
        return Err(ConsensusError::InvalidInputIndex(input_index));
    }
    if prevouts.len() != tx.inputs.len() {
        return Err(ConsensusError::InvalidPrevoutsCount(prevouts.len(), tx.inputs.len()));
    }
    let preimage = sighash_preimage(tx, input_index, sighash_type);
    Ok(double_sha256(preimage.as_slice()))
}

} // verus!
