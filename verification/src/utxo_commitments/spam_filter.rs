//! The filter that leaves transactions out of the replay during the first
//! synchronisation: those that only carry data, and those that pay less
//! than a floor.

use vstd::prelude::*;
use crate::transaction::{is_coinbase, is_coinbase_spec};
use crate::types::{Integer, Transaction, TxView};

verus! {

/// What the filter leaves out.
#[derive(Debug, Clone, Copy, PartialEq, Eq)]
pub struct SpamFilterConfig {
    /// Whether transactions whose outputs all begin with `OP_RETURN` are left out.
    pub filter_op_return: bool,
    /// Transactions with a known fee below this floor are left out.
    pub min_fee: Integer,
}

/// Why a transaction is left out.
#[derive(Debug, Clone, Copy, PartialEq, Eq, Structural)]
pub enum SpamKind {
    /// Every output begins with `OP_RETURN`.
    OpReturnOnly,
    /// The fee is below the floor.
    LowFee,
}

/// How many transactions of a block were kept and left out.
#[derive(Debug, Clone, Copy, PartialEq, Eq, Structural)]
pub struct SpamSummary {
    /// The number of transactions looked at.
    pub total: usize,
    /// The number of transactions kept.
    pub kept: usize,
    /// The number left out because every output begins with `OP_RETURN`.
    pub filtered_op_return: usize,
    /// The number left out because the fee is below the floor.
    pub filtered_low_fee: usize,
}

/// The filter, with its configuration.
#[derive(Debug, Clone, Copy, PartialEq, Eq)]
pub struct SpamFilter {
    pub config: SpamFilterConfig,
}

impl Default for SpamFilterConfig {
    fn default() -> (r: SpamFilterConfig)
        ensures
            r == (SpamFilterConfig { filter_op_return: true, min_fee: 0 }),
    {
        SpamFilterConfig { filter_op_return: true, min_fee: 0 }
    }
}

/// Whether a script begins with `OP_RETURN`.
pub open spec fn is_op_return_script(script: Seq<u8>) -> bool {
    script.len() > 0 && script[0] == 0x6a
}

/// Whether a transaction has outputs and every one begins with `OP_RETURN`.
pub open spec fn op_return_only(tx: TxView) -> bool {
    tx.outputs.len() > 0 && forall|i: int|
        0 <= i < tx.outputs.len() ==> is_op_return_script((#[trigger] tx.outputs[i]).script_pubkey)
}

/// Why a transaction with the given fee, if the fee is known, is left out;
/// `None` where it is kept. A coinbase is always kept.
pub open spec fn spam_kind(config: SpamFilterConfig, tx: TxView, fee: Option<i64>) -> Option<SpamKind> {
    if is_coinbase_spec(tx) {
        None
    } else if config.filter_op_return && op_return_only(tx) {
        Some(SpamKind::OpReturnOnly)
    } else if fee is Some && fee->Some_0 < config.min_fee {
        Some(SpamKind::LowFee)
    } else {
        None
    }
}

/// Of the first `n` transactions, those that are kept where no fee is known, in order.
pub open spec fn kept_spec(config: SpamFilterConfig, txs: Seq<TxView>, n: int) -> Seq<TxView>
    decreases n,
{
    if n <= 0 {
        Seq::<TxView>::empty()
    } else if spam_kind(config, txs[n - 1], None) is None {
        kept_spec(config, txs, n - 1).push(txs[n - 1])
    } else {
        kept_spec(config, txs, n - 1)
    }
}

/// The views of a list of transactions.
pub open spec fn txs_view(txs: Seq<Transaction>) -> Seq<TxView> {
    Seq::new(txs.len(), |i: int| txs[i]@)
}

impl SpamFilter {
    /// A filter that leaves out transactions that only carry data.
    pub fn new() -> (r: SpamFilter)
        ensures
            r.config == (SpamFilterConfig { filter_op_return: true, min_fee: 0 }),
    {
        SpamFilter { config: SpamFilterConfig { filter_op_return: true, min_fee: 0 } }
    }

    /// A filter with the given configuration.
    pub fn with_config(config: SpamFilterConfig) -> (r: SpamFilter)
        ensures
            r.config == config,
    {
        SpamFilter { config }
    }

    /// Whether `tx` has outputs and every one begins with `OP_RETURN`.
    pub fn is_op_return_only(tx: &Transaction) -> (r: bool)
        ensures
            r == op_return_only(tx@),
    {
        if tx.outputs.len() == 0 {
            return false;
        }
        let mut i: usize = 0;
        while i < tx.outputs.len()
            invariant
                i <= tx.outputs@.len(),
                tx.outputs@.len() > 0,
                forall|j: int| 0 <= j < i ==> is_op_return_script((#[trigger] tx@.outputs[j]).script_pubkey),
            decreases tx.outputs@.len() - i,
        {
            let script = &tx.outputs[i].script_pubkey;
            assert(tx@.outputs[i as int] == tx.outputs@[i as int]@);
            if script.len() == 0 || script[0] != 0x6a {
                return false;
            }
            i += 1;
        }
        true
    }

    /// Why `tx`, with the given fee if the fee is known, is left out;
    /// `None` where it is kept.
    pub fn classify(&self, tx: &Transaction, fee: Option<Integer>) -> (r: Option<SpamKind>)
        ensures
            r == spam_kind(self.config, tx@, fee),
    {
        if is_coinbase(tx) {
            return None;
        }
        if self.config.filter_op_return && SpamFilter::is_op_return_only(tx) {
            return Some(SpamKind::OpReturnOnly);
        }
        match fee {
            Some(f) => {
                if f < self.config.min_fee {
                    Some(SpamKind::LowFee)
                } else {
                    None
                }
            },
            None => None,
        }
    }

    /// The transactions of a block that are kept where no fee is known, in
    /// order, and the count of those kept and left out.
    pub fn filter_block(&self, transactions: &[Transaction]) -> (r: (Vec<Transaction>, SpamSummary))
        ensures
            txs_view(r.0@) == kept_spec(self.config, txs_view(transactions@), transactions@.len() as int),
            r.1.total == transactions@.len(),
            r.1.kept == r.0@.len(),
            r.1.filtered_op_return == transactions@.len() - r.0@.len(),
            r.1.filtered_low_fee == 0,
    {
        let mut kept: Vec<Transaction> = Vec::new();
        let mut i: usize = 0;
        let ghost views = txs_view(transactions@);
        assert(txs_view(kept@) =~= kept_spec(self.config, views, 0));
        while i < transactions.len()
            invariant
                i <= transactions@.len(),
                views == txs_view(transactions@),
                kept@.len() <= i,
                txs_view(kept@) == kept_spec(self.config, views, i as int),
            decreases transactions@.len() - i,
        {
            assert(views[i as int] == transactions@[i as int]@);
            let ghost before = txs_view(kept@);
            if self.classify(&transactions[i], None).is_none() {
                kept.push(transactions[i].duplicate());
                assert(txs_view(kept@) =~= before.push(views[i as int]));
            }
            i += 1;
        }
        let summary = SpamSummary {
            total: transactions.len(),
            kept: kept.len(),
            filtered_op_return: transactions.len() - kept.len(),
            filtered_low_fee: 0,
        };
        (kept, summary)
    }
}

} // verus!
