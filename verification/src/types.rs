//! The records that the rules speak of, and their mathematical views.

use vstd::prelude::*;
use crate::bytes::{copy_bytes, hash_eq, zeros};

verus! {

/// A 32-byte hash, stored in its natural byte order.
pub type Hash = [u8; 32];

/// A string of bytes: a script or a stack element.
pub type ByteString = Vec<u8>;

/// A height, an index or a count.
pub type Natural = u32;

/// An amount in satoshis.
pub type Integer = i64;

/// Names one output of one transaction.
#[derive(Debug, Clone, Copy, PartialEq, Eq, Hash)]
pub struct OutPoint {
    /// Identifier of the transaction.
    pub hash: Hash,
    /// Position of the output in that transaction.
    pub index: Natural,
}

/// An input of a transaction: the output it spends and the script that unlocks it.
#[derive(Debug, Clone, PartialEq, Eq)]
pub struct TransactionInput {
    pub prevout: OutPoint,
    pub script_sig: ByteString,
    pub sequence: Natural,
}

/// An output of a transaction: an amount and the script that locks it.
#[derive(Debug, Clone, PartialEq, Eq)]
pub struct TransactionOutput {
    pub value: Integer,
    pub script_pubkey: ByteString,
}

/// A transaction. The order of inputs and of outputs is part of its meaning.
#[derive(Debug, Clone, PartialEq, Eq)]
pub struct Transaction {
    pub version: i32,
    pub inputs: Vec<TransactionInput>,
    pub outputs: Vec<TransactionOutput>,
    pub lock_time: Natural,
}

/// The header of a block; 80 bytes on the wire.
#[derive(Debug, Clone, Copy, PartialEq, Eq)]
pub struct BlockHeader {
    pub version: i32,
    pub prev_block_hash: Hash,
    pub merkle_root: Hash,
    pub timestamp: Natural,
    pub bits: Natural,
    pub nonce: Natural,
}

/// A block: a header and its transactions, the coinbase first.
#[derive(Debug, Clone, PartialEq, Eq)]
pub struct Block {
    pub header: BlockHeader,
    pub transactions: Vec<Transaction>,
}

/// An unspent output, with the height of the block that created it.
#[derive(Debug, Clone, PartialEq, Eq)]
pub struct UTXO {
    pub value: Integer,
    pub script_pubkey: ByteString,
    pub height: Natural,
}

/// Why a transaction or a block is not valid.
#[derive(Debug, Clone, Copy, PartialEq, Eq, Structural)]
pub enum InvalidReason {
    /// The transaction has no input or no output.
    EmptyInputsOrOutputs,
    /// The value of the output at `index` is negative or above `MAX_MONEY`.
    OutputValueOutOfRange { index: usize },
    /// The values of the outputs add up to more than `MAX_MONEY`.
    TotalOutputValueTooLarge,
    /// More than `MAX_INPUTS` inputs.
    TooManyInputs { count: usize },
    /// More than `MAX_OUTPUTS` outputs.
    TooManyOutputs { count: usize },
    /// The serialized transaction is longer than `MAX_TX_SIZE`.
    TransactionTooLarge,
    /// The input at `index` spends an output that is not in the set.
    MissingInput { index: usize },
    /// The input at `index` spends a coinbase output that is not yet mature.
    ImmatureCoinbase { index: usize },
    /// The value of the input at `index` is outside the range of amounts, or the sum is.
    InputValueOutOfRange { index: usize },
    /// The outputs are worth more than the inputs.
    InsufficientInputValue,
    /// The block has no transaction.
    EmptyBlock,
    /// The first transaction of the block is no coinbase.
    FirstNotCoinbase,
    /// The transaction at `index`, which is not the first, is a coinbase.
    ExtraCoinbase { index: usize },
    /// The transaction at `index` has more outputs than an index can name.
    TooManyOutputsToIndex { index: usize },
    /// The transaction at `tx_index` is not valid by itself, its inputs are
    /// not, or a step of it cannot be taken on the set.
    InvalidTransaction { tx_index: usize },
    /// The script of input `input_index` of the transaction at `tx_index`
    /// does not end with `true`.
    ScriptFailed { tx_index: usize, input_index: usize },
    /// The hash of the header is above its target.
    BadProofOfWork,
    /// The timestamp is not above the median of the headers before.
    TimestampTooEarly,
    /// The Merkle root in the header is not that of the transactions.
    BadMerkleRoot,
    /// The weight of the block is above `MAX_BLOCK_WEIGHT`.
    BlockTooHeavy,
    /// The signature operations of the block cost more than `MAX_BLOCK_SIGOPS_COST`.
    TooManySigops,
    /// The coinbase claims more than the subsidy and the fees.
    CoinbaseValueTooLarge,
    /// The compact target of the header is not the one that the chain asks for.
    BadDifficultyBits,
}

/// The verdict of a validation.
#[derive(Debug, Clone, Copy, PartialEq, Eq, Structural)]
pub enum ValidationResult {
    Valid,
    Invalid(InvalidReason),
}

/// View of a transaction input.
pub ghost struct TxInView {
    pub prevout: OutPoint,
    pub script_sig: Seq<u8>,
    pub sequence: u32,
}

/// View of a transaction output.
pub ghost struct TxOutView {
    pub value: i64,
    pub script_pubkey: Seq<u8>,
}

/// View of a transaction.
pub ghost struct TxView {
    pub version: i32,
    pub inputs: Seq<TxInView>,
    pub outputs: Seq<TxOutView>,
    pub lock_time: u32,
}

/// View of a block.
pub ghost struct BlockView {
    pub header: BlockHeader,
    pub transactions: Seq<TxView>,
}

/// View of an unspent output.
pub ghost struct UtxoView {
    pub value: i64,
    pub script_pubkey: Seq<u8>,
    pub height: u32,
}

impl View for TransactionInput {
    type V = TxInView;

    open spec fn view(&self) -> TxInView {
        TxInView { prevout: self.prevout, script_sig: self.script_sig@, sequence: self.sequence }
    }
}

impl View for TransactionOutput {
    type V = TxOutView;

    open spec fn view(&self) -> TxOutView {
        TxOutView { value: self.value, script_pubkey: self.script_pubkey@ }
    }
}

impl View for Transaction {
    type V = TxView;

    open spec fn view(&self) -> TxView {
        TxView {
            version: self.version,
            inputs: Seq::new(self.inputs@.len(), |i: int| self.inputs@[i]@),
            outputs: Seq::new(self.outputs@.len(), |i: int| self.outputs@[i]@),
            lock_time: self.lock_time,
        }
    }
}

impl View for Block {
    type V = BlockView;

    open spec fn view(&self) -> BlockView {
        BlockView {
            header: self.header,
            transactions: Seq::new(self.transactions@.len(), |i: int| self.transactions@[i]@),
        }
    }
}

impl View for UTXO {
    type V = UtxoView;

    open spec fn view(&self) -> UtxoView {
        UtxoView { value: self.value, script_pubkey: self.script_pubkey@, height: self.height }
    }
}

/// The views of a sequence of blocks.
pub open spec fn chain_view(chain: Seq<Block>) -> Seq<BlockView> {
    Seq::new(chain.len(), |i: int| chain[i]@)
}

/// The views of a sequence of outputs.
pub open spec fn outputs_view(outs: Seq<TransactionOutput>) -> Seq<TxOutView> {
    Seq::new(outs.len(), |i: int| outs[i]@)
}

/// The outpoint that marks the input of a coinbase: a zero hash and the largest index.
pub open spec fn is_null_outpoint(p: OutPoint) -> bool {
    p.hash@ == zeros(32) && p.index == 0xffff_ffffu32
}

impl OutPoint {
    /// Whether two outpoints name the same output.
    pub fn same(&self, other: &OutPoint) -> (r: bool)
        ensures
            r == (*self == *other),
    {
        self.index == other.index && hash_eq(&self.hash, &other.hash)
    }
}

impl TransactionInput {
    /// A copy with the same view.
    pub fn duplicate(&self) -> (r: TransactionInput)
        ensures
            r@ == self@,
    {
        TransactionInput {
            prevout: self.prevout,
            script_sig: copy_bytes(self.script_sig.as_slice()),
            sequence: self.sequence,
        }
    }
}

impl TransactionOutput {
    /// A copy with the same view.
    pub fn duplicate(&self) -> (r: TransactionOutput)
        ensures
            r@ == self@,
    {
        TransactionOutput {
            value: self.value,
            script_pubkey: copy_bytes(self.script_pubkey.as_slice()),
        }
    }
}

impl UTXO {
    /// A copy with the same view.
    pub fn duplicate(&self) -> (r: UTXO)
        ensures
            r@ == self@,
    {
        UTXO {
            value: self.value,
            script_pubkey: copy_bytes(self.script_pubkey.as_slice()),
            height: self.height,
        }
    }
}

impl Transaction {
    /// A copy with the same view.
    pub fn duplicate(&self) -> (r: Transaction)
        ensures
            r@ == self@,
    {
        let mut inputs: Vec<TransactionInput> = Vec::with_capacity(self.inputs.len());
        let mut i: usize = 0;
        while i < self.inputs.len()
            invariant
                i <= self.inputs.len(),
                inputs@.len() == i,
                forall|j: int| 0 <= j < i ==> inputs@[j]@ == self.inputs@[j]@,
            decreases self.inputs.len() - i,
        {
            inputs.push(self.inputs[i].duplicate());
            i += 1;
        }
        let mut outputs: Vec<TransactionOutput> = Vec::with_capacity(self.outputs.len());
        let mut k: usize = 0;
        while k < self.outputs.len()
            invariant
                k <= self.outputs.len(),
                outputs@.len() == k,
                forall|j: int| 0 <= j < k ==> outputs@[j]@ == self.outputs@[j]@,
            decreases self.outputs.len() - k,
        {
            outputs.push(self.outputs[k].duplicate());
            k += 1;
        }
        let r = Transaction { version: self.version, inputs, outputs, lock_time: self.lock_time };
        assert(r@.inputs =~= self@.inputs);
        assert(r@.outputs =~= self@.outputs);
        r
    }
}

impl Block {
    /// A copy with the same view.
    pub fn duplicate(&self) -> (r: Block)
        ensures
            r@ == self@,
    {
        let mut transactions: Vec<Transaction> = Vec::with_capacity(self.transactions.len());
        let mut i: usize = 0;
        while i < self.transactions.len()
            invariant
                i <= self.transactions.len(),
                transactions@.len() == i,
                forall|j: int| 0 <= j < i ==> transactions@[j]@ == self.transactions@[j]@,
            decreases self.transactions.len() - i,
        {
            transactions.push(self.transactions[i].duplicate());
            i += 1;
        }
        let r = Block { header: self.header, transactions };
        assert(r@.transactions =~= self@.transactions);
        r
    }
}

/// Copies a chain of blocks.
pub fn duplicate_chain(chain: &[Block]) -> (r: Vec<Block>)
    ensures
        chain_view(r@) == chain_view(chain@),
{
    let mut out: Vec<Block> = Vec::with_capacity(chain.len());
    let mut i: usize = 0;
    while i < chain.len()
        invariant
            i <= chain.len(),
            out@.len() == i,
            forall|j: int| 0 <= j < i ==> out@[j]@ == chain@[j]@,
        decreases chain.len() - i,
    {
        out.push(chain[i].duplicate());
        i += 1;
    }
    assert(chain_view(out@) =~= chain_view(chain@));
    out
}

} // verus!
