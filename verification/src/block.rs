//! Connecting a block to the set of unspent outputs, and taking it back.
//!
//! A block changes the set by a list of steps, in the order of its
//! transactions: every input of a transaction that is no coinbase spends
//! an output, then every output of the transaction is created. Connecting
//! runs the steps and records what was spent; disconnecting takes the
//! steps back, last first, with the help of that record.

use vstd::prelude::*;
use crate::bytes::{hash_of_seq, lemma_hash_of_seq};
use crate::crypto::{double_sha256, double_sha256_spec};
use crate::error::{ConsensusError, RuleViolation};
use crate::serialization::transaction::{serialize_transaction, tx_bytes};
use crate::transaction::{is_coinbase, is_coinbase_spec};
use crate::types::{Block, InvalidReason, Natural, OutPoint, Transaction, TxInView, TxOutView, TxView, UtxoView, ValidationResult, UTXO};
use crate::utxo_set::{CoinView, UtxoEntry, UtxoSet};

verus! {

/// One step of a block on the set of unspent outputs.
pub ghost enum UtxoOp {
    /// Takes the output that the outpoint names out of the set.
    Spend(OutPoint),
    /// Puts an output into the set under the outpoint.
    Create(OutPoint, CoinView),
}

/// What was spent: the outpoint, and what the set held for it.
pub ghost struct SpentView {
    pub outpoint: OutPoint,
    pub coin: CoinView,
}

/// The set after one step, or `None` where the step cannot be taken: an
/// output that is spent must be in the set, one that is created must not.
pub open spec fn apply_op(m: Map<OutPoint, CoinView>, op: UtxoOp) -> Option<Map<OutPoint, CoinView>> {
    match op {
        UtxoOp::Spend(p) => if m.contains_key(p) {
            Some(m.remove(p))
        } else {
            None
        },
        UtxoOp::Create(p, c) => if m.contains_key(p) {
            None
        } else {
            Some(m.insert(p, c))
        },
    }
}

/// The set after all steps, in order, or `None` where one of them cannot be taken.
pub open spec fn run_ops(m: Map<OutPoint, CoinView>, ops: Seq<UtxoOp>) -> Option<Map<OutPoint, CoinView>>
    decreases ops.len(),
{
    if ops.len() == 0 {
        Some(m)
    } else {
        match run_ops(m, ops.drop_last()) {
            Some(before) => apply_op(before, ops.last()),
            None => None,
        }
    }
}

/// What the steps spend, in order, when they run from the set `m`.
pub open spec fn spent_by(m: Map<OutPoint, CoinView>, ops: Seq<UtxoOp>) -> Seq<SpentView>
    decreases ops.len(),
{
    if ops.len() == 0 {
        Seq::<SpentView>::empty()
    } else {
        match (ops.last(), run_ops(m, ops.drop_last())) {
            (UtxoOp::Spend(p), Some(before)) => spent_by(m, ops.drop_last()).push(
                SpentView { outpoint: p, coin: before[p] },
            ),
            _ => spent_by(m, ops.drop_last()),
        }
    }
}

/// The outpoints that the steps spend, in order.
pub open spec fn spend_outpoints(ops: Seq<UtxoOp>) -> Seq<OutPoint>
    decreases ops.len(),
{
    if ops.len() == 0 {
        Seq::<OutPoint>::empty()
    } else {
        match ops.last() {
            UtxoOp::Spend(p) => spend_outpoints(ops.drop_last()).push(p),
            _ => spend_outpoints(ops.drop_last()),
        }
    }
}

/// The set after the steps are taken back, last first: what a step created
/// is removed, what it spent is put back as `spent` recorded it.
pub open spec fn revert_ops(m: Map<OutPoint, CoinView>, ops: Seq<UtxoOp>, spent: Seq<SpentView>) -> Map<
    OutPoint,
    CoinView,
>
    decreases ops.len(),
{
    if ops.len() == 0 {
        m
    } else {
        match ops.last() {
            UtxoOp::Spend(p) => revert_ops(m.insert(p, spent.last().coin), ops.drop_last(), spent.drop_last()),
            UtxoOp::Create(p, _) => revert_ops(m.remove(p), ops.drop_last(), spent),
        }
    }
}

/// The outpoints of what was spent.
pub open spec fn spent_outpoints(spent: Seq<SpentView>) -> Seq<OutPoint> {
    Seq::new(spent.len(), |i: int| spent[i].outpoint)
}

/// Taking back the steps that were run, with the record of what they spent,
/// gives the set that they started from.
pub proof fn lemma_revert_after_run(m: Map<OutPoint, CoinView>, ops: Seq<UtxoOp>)
    requires
        run_ops(m, ops) is Some,
    ensures
        revert_ops(run_ops(m, ops)->Some_0, ops, spent_by(m, ops)) == m,
        spent_outpoints(spent_by(m, ops)) == spend_outpoints(ops),
    decreases ops.len(),
{
    if ops.len() > 0 {
        let init = ops.drop_last();
        let before = run_ops(m, init)->Some_0;
        let after = run_ops(m, ops)->Some_0;
        lemma_revert_after_run(m, init);
        match ops.last() {
            UtxoOp::Spend(p) => {
                let sp = spent_by(m, ops);
                assert(sp.drop_last() =~= spent_by(m, init));
                assert(after.insert(p, before[p]) =~= before);
                assert(spent_outpoints(sp) =~= spend_outpoints(init).push(p));
            },
            UtxoOp::Create(p, c) => {
                assert(after.remove(p) =~= before);
            },
        }
    } else {
        assert(spent_outpoints(spent_by(m, ops)) =~= spend_outpoints(ops));
    }
}

/// Steps that cannot all be taken cannot be taken either when more follow.
pub proof fn lemma_run_prefix(m: Map<OutPoint, CoinView>, a: Seq<UtxoOp>, b: Seq<UtxoOp>)
    ensures
        run_ops(m, a) is None ==> run_ops(m, a + b) is None,
        run_ops(m, a) is Some ==> run_ops(m, a + b) == run_ops(run_ops(m, a)->Some_0, b),
        run_ops(m, a + b) is Some ==> spent_by(m, a + b) == spent_by(m, a) + spent_by(
            run_ops(m, a)->Some_0,
            b,
        ),
        spend_outpoints(a + b) == spend_outpoints(a) + spend_outpoints(b),
    decreases b.len(),
{
    if b.len() == 0 {
        assert(a + b =~= a);
        assert(spent_by(m, a) + Seq::<SpentView>::empty() =~= spent_by(m, a));
        assert(spend_outpoints(a) + Seq::<OutPoint>::empty() =~= spend_outpoints(a));
    } else {
        let init = b.drop_last();
        assert((a + b).drop_last() =~= a + init);
        assert((a + b).last() == b.last());
        lemma_run_prefix(m, a, init);
        if run_ops(m, a + b) is Some {
            let mid = run_ops(m, a)->Some_0;
            match (b.last(), run_ops(mid, init)) {
                (UtxoOp::Spend(p), Some(before)) => {
                    assert(spent_by(m, a + b) =~= spent_by(m, a) + spent_by(mid, b));
                },
                _ => {},
            }
        }
        match b.last() {
            UtxoOp::Spend(p) => {
                assert(spend_outpoints(a + b) =~= spend_outpoints(a) + spend_outpoints(b));
            },
            _ => {},
        }
    }
}

/// The outpoint that a step spends or creates.
pub open spec fn op_outpoint(op: UtxoOp) -> OutPoint {
    match op {
        UtxoOp::Spend(p) => p,
        UtxoOp::Create(p, _) => p,
    }
}

/// The last of the steps that spends or creates `q`, if there is one.
pub open spec fn last_step_on(ops: Seq<UtxoOp>, q: OutPoint) -> Option<UtxoOp>
    decreases ops.len(),
{
    if ops.len() == 0 {
        None
    } else if op_outpoint(ops.last()) == q {
        Some(ops.last())
    } else {
        last_step_on(ops.drop_last(), q)
    }
}

/// What a set holds for `q` after steps that run from the set `m`: what
/// the last step on `q` created, nothing where that step spent it, and
/// what `m` held where no step is on `q`.
pub open spec fn held_after(m: Map<OutPoint, CoinView>, ops: Seq<UtxoOp>, q: OutPoint) -> Option<CoinView> {
    match last_step_on(ops, q) {
        Some(UtxoOp::Create(_, c)) => Some(c),
        Some(UtxoOp::Spend(_)) => None,
        None => if m.contains_key(q) {
            Some(m[q])
        } else {
            None
        },
    }
}

/// After steps that can all be taken, the set holds for every outpoint
/// what the last step on it left: an output that was created and not
/// spent after that is there as it was created, one that was spent and
/// not created again is not, and one that no step names is as before.
pub proof fn lemma_run_contents(m: Map<OutPoint, CoinView>, ops: Seq<UtxoOp>, q: OutPoint)
    requires
        run_ops(m, ops) is Some,
    ensures
        run_ops(m, ops)->Some_0.contains_key(q) == (held_after(m, ops, q) is Some),
        held_after(m, ops, q) is Some ==> run_ops(m, ops)->Some_0[q] == held_after(m, ops, q)->Some_0,
    decreases ops.len(),
{
    if ops.len() > 0 {
        lemma_run_contents(m, ops.drop_last(), q);
    }
}

/// The identifier of a transaction: the double SHA-256 of its bytes.
pub open spec fn txid_spec(tx: TxView) -> [u8; 32] {
    hash_of_seq(double_sha256_spec(tx_bytes(tx)))
}

/// What the set holds for an output created at `height`.
pub open spec fn created_coin(output: TxOutView, height: u32, coinbase: bool) -> CoinView {
    CoinView {
        utxo: UtxoView { value: output.value, script_pubkey: output.script_pubkey, height },
        coinbase,
    }
}

/// The steps that spend the first `n` inputs.
pub open spec fn spend_ops(inputs: Seq<TxInView>, n: int) -> Seq<UtxoOp>
    decreases n,
{
    if n <= 0 {
        Seq::<UtxoOp>::empty()
    } else {
        spend_ops(inputs, n - 1).push(UtxoOp::Spend(inputs[n - 1].prevout))
    }
}

/// The steps that create the first `n` outputs of the transaction `txid`.
pub open spec fn create_ops(txid: [u8; 32], outputs: Seq<TxOutView>, height: u32, coinbase: bool, n: int) -> Seq<
    UtxoOp,
>
    decreases n,
{
    if n <= 0 {
        Seq::<UtxoOp>::empty()
    } else {
        create_ops(txid, outputs, height, coinbase, n - 1).push(
            UtxoOp::Create(
                OutPoint { hash: txid, index: (n - 1) as u32 },
                created_coin(outputs[n - 1], height, coinbase),
            ),
        )
    }
}

/// The steps that spend the inputs of a transaction: none for a coinbase.
pub open spec fn tx_spend_ops(tx: TxView) -> Seq<UtxoOp> {
    if is_coinbase_spec(tx) {
        Seq::<UtxoOp>::empty()
    } else {
        spend_ops(tx.inputs, tx.inputs.len() as int)
    }
}

/// The steps of a transaction in a block at `height`: its inputs are
/// spent, then its outputs are created.
pub open spec fn tx_ops(tx: TxView, height: u32) -> Seq<UtxoOp> {
    tx_spend_ops(tx) + create_ops(
        txid_spec(tx),
        tx.outputs,
        height,
        is_coinbase_spec(tx),
        tx.outputs.len() as int,
    )
}

/// The steps of the first `n` transactions of a block at `height`.
pub open spec fn block_ops(txs: Seq<TxView>, height: u32, n: int) -> Seq<UtxoOp>
    decreases n,
{
    if n <= 0 {
        Seq::<UtxoOp>::empty()
    } else {
        block_ops(txs, height, n - 1) + tx_ops(txs[n - 1], height)
    }
}

/// Whether every output of every transaction has an index of 32 bits.
pub open spec fn indexable(txs: Seq<TxView>) -> bool {
    forall|j: int| 0 <= j < txs.len() ==> (#[trigger] txs[j]).outputs.len() <= 0x1_0000_0000
}

/// The set after a block at `height` is connected, or `None` where it cannot
/// be: an input spends what is not in the set, an output is already there,
/// or a transaction has more outputs than an index can name.
pub open spec fn connect_spec(m: Map<OutPoint, CoinView>, txs: Seq<TxView>, height: u32) -> Option<
    Map<OutPoint, CoinView>,
> {
    if indexable(txs) {
        run_ops(m, block_ops(txs, height, txs.len() as int))
    } else {
        None
    }
}

/// The record of what connecting the block spends.
pub open spec fn connect_undo(m: Map<OutPoint, CoinView>, txs: Seq<TxView>, height: u32) -> Seq<SpentView> {
    spent_by(m, block_ops(txs, height, txs.len() as int))
}

/// Whether a record names, in order, the outpoints that the block spends,
/// and every output of the block has an index of 32 bits.
pub open spec fn undo_matches(txs: Seq<TxView>, height: u32, undo: Seq<SpentView>) -> bool {
    indexable(txs) && spent_outpoints(undo) == spend_outpoints(block_ops(txs, height, txs.len() as int))
}

/// The set after a block is disconnected with the record `undo`: the
/// outputs that it created are removed and what it spent is put back, the
/// last step first.
pub open spec fn disconnect_spec(m: Map<OutPoint, CoinView>, txs: Seq<TxView>, height: u32, undo: Seq<SpentView>) -> Map<
    OutPoint,
    CoinView,
> {
    revert_ops(m, block_ops(txs, height, txs.len() as int), undo)
}

/// Disconnecting a block from the set that connecting it gave, with the
/// record that connecting it made, gives back the set from before.
pub proof fn lemma_disconnect_after_connect(m: Map<OutPoint, CoinView>, txs: Seq<TxView>, height: u32)
    requires
        connect_spec(m, txs, height) is Some,
    ensures
        undo_matches(txs, height, connect_undo(m, txs, height)),
        disconnect_spec(connect_spec(m, txs, height)->Some_0, txs, height, connect_undo(m, txs, height))
            == m,
{
    lemma_revert_after_run(m, block_ops(txs, height, txs.len() as int));
}

/// Whether `a` is the beginning of `b`.
pub open spec fn is_prefix(a: Seq<UtxoOp>, b: Seq<UtxoOp>) -> bool {
    a.len() <= b.len() && b.subrange(0, a.len() as int) =~= a
}

proof fn lemma_prefix_facts(m: Map<OutPoint, CoinView>, a: Seq<UtxoOp>, b: Seq<UtxoOp>)
    requires
        is_prefix(a, b),
    ensures
        run_ops(m, a) is None ==> run_ops(m, b) is None,
        spend_outpoints(a).len() <= spend_outpoints(b).len(),
        spend_outpoints(b).subrange(0, spend_outpoints(a).len() as int) == spend_outpoints(a),
{
    let tail = b.subrange(a.len() as int, b.len() as int);
    assert(b =~= a + tail);
    lemma_run_prefix(m, a, tail);
    assert((spend_outpoints(a) + spend_outpoints(tail)).subrange(0, spend_outpoints(a).len() as int)
        =~= spend_outpoints(a));
}

proof fn lemma_spend_ops_prefix(inputs: Seq<TxInView>, i: int, n: int)
    requires
        0 <= i <= n,
    ensures
        is_prefix(spend_ops(inputs, i), spend_ops(inputs, n)),
        spend_ops(inputs, n).len() == n,
        spend_outpoints(spend_ops(inputs, n)).len() == n,
    decreases n,
{
    if n > 0 {
        if i < n {
            lemma_spend_ops_prefix(inputs, i, n - 1);
        } else {
            lemma_spend_ops_prefix(inputs, n - 1, n - 1);
        }
        assert(spend_ops(inputs, n).drop_last() =~= spend_ops(inputs, n - 1));
    }
}

proof fn lemma_create_ops_prefix(txid: [u8; 32], outputs: Seq<TxOutView>, height: u32, coinbase: bool, i: int, n: int)
    requires
        0 <= i <= n,
    ensures
        is_prefix(
            create_ops(txid, outputs, height, coinbase, i),
            create_ops(txid, outputs, height, coinbase, n),
        ),
        create_ops(txid, outputs, height, coinbase, n).len() == n,
        spend_outpoints(create_ops(txid, outputs, height, coinbase, n)).len() == 0,
    decreases n,
{
    if n > 0 {
        if i < n {
            lemma_create_ops_prefix(txid, outputs, height, coinbase, i, n - 1);
        } else {
            lemma_create_ops_prefix(txid, outputs, height, coinbase, n - 1, n - 1);
        }
        assert(create_ops(txid, outputs, height, coinbase, n).drop_last() =~= create_ops(
            txid,
            outputs,
            height,
            coinbase,
            n - 1,
        ));
    }
}

proof fn lemma_block_ops_prefix(txs: Seq<TxView>, height: u32, j: int, n: int)
    requires
        0 <= j <= n,
    ensures
        is_prefix(block_ops(txs, height, j), block_ops(txs, height, n)),
    decreases n,
{
    if j < n {
        lemma_block_ops_prefix(txs, height, j, n - 1);
    }
}

/// Steps that begin the steps of transaction `j` are, after those of the
/// transactions before it, a beginning of the steps of the block.
proof fn lemma_position_prefix(txs: Seq<TxView>, height: u32, j: int, part: Seq<UtxoOp>)
    requires
        0 <= j < txs.len(),
        is_prefix(part, tx_ops(txs[j], height)),
    ensures
        is_prefix(block_ops(txs, height, j) + part, block_ops(txs, height, txs.len() as int)),
{
    let base = block_ops(txs, height, j);
    assert(is_prefix(base + part, block_ops(txs, height, j + 1)));
    lemma_block_ops_prefix(txs, height, j + 1, txs.len() as int);
}

/// What one more step does to the run and to the record of what is spent.
proof fn lemma_push_op(m: Map<OutPoint, CoinView>, done: Seq<UtxoOp>, op: UtxoOp)
    requires
        run_ops(m, done) is Some,
    ensures
        run_ops(m, done.push(op)) == apply_op(run_ops(m, done)->Some_0, op),
        spent_by(m, done.push(op)) == (match op {
            UtxoOp::Spend(p) => spent_by(m, done).push(
                SpentView { outpoint: p, coin: run_ops(m, done)->Some_0[p] },
            ),
            UtxoOp::Create(_, _) => spent_by(m, done),
        }),
{
    assert(done.push(op).drop_last() =~= done);
}

proof fn lemma_spend_push(base: Seq<UtxoOp>, inputs: Seq<TxInView>, i: int)
    requires
        0 <= i < inputs.len(),
    ensures
        base + spend_ops(inputs, i + 1) == (base + spend_ops(inputs, i)).push(UtxoOp::Spend(inputs[i].prevout)),
{
    assert(base + spend_ops(inputs, i + 1) =~= (base + spend_ops(inputs, i)).push(
        UtxoOp::Spend(inputs[i].prevout),
    ));
}

proof fn lemma_create_push(base: Seq<UtxoOp>, txid: [u8; 32], outputs: Seq<TxOutView>, height: u32, coinbase: bool, k: int)
    requires
        0 <= k < outputs.len(),
    ensures
        base + create_ops(txid, outputs, height, coinbase, k + 1) == (base + create_ops(
            txid,
            outputs,
            height,
            coinbase,
            k,
        )).push(
            UtxoOp::Create(
                OutPoint { hash: txid, index: k as u32 },
                created_coin(outputs[k], height, coinbase),
            ),
        ),
{
    assert(base + create_ops(txid, outputs, height, coinbase, k + 1) =~= (base + create_ops(
        txid,
        outputs,
        height,
        coinbase,
        k,
    )).push(
        UtxoOp::Create(OutPoint { hash: txid, index: k as u32 }, created_coin(outputs[k], height, coinbase)),
    ));
}

/// Where the steps of a block cannot be taken up to some step of
/// transaction `j`, they cannot be taken up to the end of that transaction,
/// nor to the end of the block.
proof fn lemma_failure_spreads(m: Map<OutPoint, CoinView>, txs: Seq<TxView>, height: u32, j: int, part: Seq<UtxoOp>)
    requires
        0 <= j < txs.len(),
        is_prefix(part, tx_ops(txs[j], height)),
        run_ops(m, block_ops(txs, height, j) + part) is None,
    ensures
        run_ops(m, block_ops(txs, height, j + 1)) is None,
        run_ops(m, block_ops(txs, height, txs.len() as int)) is None,
{
    let base = block_ops(txs, height, j);
    lemma_position_prefix(txs, height, j, part);
    lemma_prefix_facts(m, base + part, block_ops(txs, height, txs.len() as int));
    assert(is_prefix(base + part, block_ops(txs, height, j + 1)));
    lemma_prefix_facts(m, base + part, block_ops(txs, height, j + 1));
}

proof fn lemma_spend_part_prefix(tx: TxView, height: u32, i: int)
    requires
        !is_coinbase_spec(tx),
        0 <= i <= tx.inputs.len(),
    ensures
        is_prefix(spend_ops(tx.inputs, i), tx_ops(tx, height)),
{
    lemma_spend_ops_prefix(tx.inputs, i, tx.inputs.len() as int);
}

proof fn lemma_create_part_prefix(tx: TxView, height: u32, k: int)
    requires
        0 <= k <= tx.outputs.len(),
    ensures
        is_prefix(
            tx_spend_ops(tx) + create_ops(txid_spec(tx), tx.outputs, height, is_coinbase_spec(tx), k),
            tx_ops(tx, height),
        ),
{
    lemma_create_ops_prefix(txid_spec(tx), tx.outputs, height, is_coinbase_spec(tx), k, tx.outputs.len() as int);
}

/// The record of what connecting a block spent: for every input of every
/// transaction that is no coinbase, in order, the outpoint and what the set
/// held for it.
#[derive(Debug, Clone, PartialEq, Eq)]
pub struct BlockUndo {
    pub spent: Vec<UtxoEntry>,
}

/// The view of one record of the undo data.
pub open spec fn spent_view(e: UtxoEntry) -> SpentView {
    SpentView { outpoint: e.outpoint, coin: e@ }
}

impl View for BlockUndo {
    type V = Seq<SpentView>;

    open spec fn view(&self) -> Seq<SpentView> {
        Seq::new(self.spent@.len(), |i: int| spent_view(self.spent@[i]))
    }
}

impl BlockUndo {
    /// An empty record.
    pub fn new() -> (r: BlockUndo)
        ensures
            r@ == Seq::<SpentView>::empty(),
    {
        let r = BlockUndo { spent: Vec::new() };
        assert(r@ =~= Seq::<SpentView>::empty());
        r
    }
}

/// The identifier of a transaction: the double SHA-256 of its bytes on the wire.
pub fn calculate_tx_id(tx: &Transaction) -> (id: [u8; 32])
    ensures
        id == txid_spec(tx@),
        id@ == double_sha256_spec(tx_bytes(tx@)),
{
    let bytes = serialize_transaction(tx);
    let id = double_sha256(bytes.as_slice());
    proof {
        lemma_hash_of_seq(id);
    }
    id
}

/// One change made to the set: the outpoint, and what the set held for it before.
#[derive(Debug)]
pub struct JournalEntry {
    pub outpoint: OutPoint,
    pub previous: Option<UtxoEntry>,
}

/// The set with one change taken back.
pub open spec fn restore(m: Map<OutPoint, CoinView>, e: JournalEntry) -> Map<OutPoint, CoinView> {
    match e.previous {
        Some(previous) => m.insert(e.outpoint, previous@),
        None => m.remove(e.outpoint),
    }
}

/// The set with all changes of a journal taken back, the last first.
pub open spec fn rollback_spec(m: Map<OutPoint, CoinView>, journal: Seq<JournalEntry>) -> Map<OutPoint, CoinView>
    decreases journal.len(),
{
    if journal.len() == 0 {
        m
    } else {
        rollback_spec(restore(m, journal.last()), journal.drop_last())
    }
}

/// Removes what the set holds for `outpoint`, and notes the change.
fn journaled_remove(set: &mut UtxoSet, journal: &mut Vec<JournalEntry>, outpoint: OutPoint)
    ensures
        final(set)@ == old(set)@.remove(outpoint),
        rollback_spec(final(set)@, final(journal)@) == rollback_spec(old(set)@, old(journal)@),
        final(journal)@.len() == old(journal)@.len() + 1,
{
    let previous = set.remove_entry(&outpoint);
    let entry = JournalEntry { outpoint, previous };
    proof {
        let after = journal@.push(entry);
        assert(after.drop_last() =~= journal@);
        assert(restore(set@, entry) =~= old(set)@);
    }
    journal.push(entry);
}

/// Puts `entry` into the set under its outpoint, and notes the change.
fn journaled_insert(set: &mut UtxoSet, journal: &mut Vec<JournalEntry>, entry: UtxoEntry)
    ensures
        final(set)@ == old(set)@.insert(entry.outpoint, entry@),
        rollback_spec(final(set)@, final(journal)@) == rollback_spec(old(set)@, old(journal)@),
        final(journal)@.len() == old(journal)@.len() + 1,
{
    let outpoint = entry.outpoint;
    let previous = set.insert_entry(entry);
    let noted = JournalEntry { outpoint, previous };
    proof {
        let after = journal@.push(noted);
        assert(after.drop_last() =~= journal@);
        assert(restore(set@, noted) =~= old(set)@);
    }
    journal.push(noted);
}

/// Takes back every change that the journal notes, the last first, and
/// empties the journal.
pub fn rollback(set: &mut UtxoSet, journal: &mut Vec<JournalEntry>)
    ensures
        final(set)@ == rollback_spec(old(set)@, old(journal)@),
        final(journal)@.len() == 0,
{
    while journal.len() > 0
        invariant
            rollback_spec(set@, journal@) == rollback_spec(old(set)@, old(journal)@),
        decreases journal@.len(),
    {
        let ghost before = journal@;
        let ghost set_before = set@;
        let entry = journal.pop().unwrap();
        assert(journal@ =~= before.drop_last());
        match entry.previous {
            Some(previous) => {
                let restored = UtxoEntry {
                    outpoint: entry.outpoint,
                    utxo: previous.utxo,
                    coinbase: previous.coinbase,
                };
                let _ = set.insert_entry(restored);
                assert(set@ == restore(set_before, entry));
            },
            None => {
                let _ = set.remove_entry(&entry.outpoint);
            },
        }
    }
}

/// Whether no transaction of the block has more outputs than an index can
/// name; if one has, the index of the first.
fn first_unindexable(block: &Block) -> (r: Option<usize>)
    ensures
        match r {
            None => indexable(block@.transactions),
            Some(j) => j < block@.transactions.len() && block@.transactions[j as int].outputs.len()
                > 0x1_0000_0000 && forall|i: int|
                0 <= i < j ==> (#[trigger] block@.transactions[i]).outputs.len() <= 0x1_0000_0000,
        },
{
    let mut j: usize = 0;
    while j < block.transactions.len()
        invariant
            j <= block.transactions@.len(),
            forall|i: int| 0 <= i < j ==> (#[trigger] block@.transactions[i]).outputs.len() <= 0x1_0000_0000,
        decreases block.transactions@.len() - j,
    {
        assert(block@.transactions[j as int] == block.transactions@[j as int]@);
        if (block.transactions[j].outputs.len() as u64) > 0x1_0000_0000u64 {
            return Some(j);
        }
        j += 1;
    }
    None
}

/// Runs the steps of one transaction of a block at `height` on `set`,
/// noting every change in `journal` and what is spent in `undo`.
///
/// Says whether all steps could be taken. Where one could not, the set is
/// left as it was when the step failed: the journal tells how to take the
/// changes back.
pub(crate) fn apply_tx(
    set: &mut UtxoSet,
    tx: &Transaction,
    height: Natural,
    journal: &mut Vec<JournalEntry>,
    undo: &mut BlockUndo,
) -> (ok: bool)
    requires
        tx@.outputs.len() <= 0x1_0000_0000,
    ensures
        rollback_spec(final(set)@, final(journal)@) == rollback_spec(old(set)@, old(journal)@),
        ok ==> run_ops(old(set)@, tx_ops(tx@, height)) == Some(final(set)@) && final(undo)@ == old(undo)@
            + spent_by(old(set)@, tx_ops(tx@, height)),
        !ok ==> run_ops(old(set)@, tx_ops(tx@, height)) is None,
{
    let ghost start = set@;
    let ghost undo_start = undo@;
    let coinbase = is_coinbase(tx);
    let txid = calculate_tx_id(tx);
    let ghost none = Seq::<UtxoOp>::empty();
    let ghost all = tx_ops(tx@, height);
    assert(undo@ + spent_by(start, none) =~= undo@);
    if !coinbase {
        let mut i: usize = 0;
        while i < tx.inputs.len()
            invariant
                i <= tx.inputs@.len(),
                !is_coinbase_spec(tx@),
                start == old(set)@,
                undo_start == old(undo)@,
                all == tx_ops(tx@, height),
                rollback_spec(set@, journal@) == rollback_spec(old(set)@, old(journal)@),
                run_ops(start, spend_ops(tx@.inputs, i as int)) == Some(set@),
                undo@ == undo_start + spent_by(start, spend_ops(tx@.inputs, i as int)),
            decreases tx.inputs@.len() - i,
        {
            let prevout = tx.inputs[i].prevout;
            assert(tx@.inputs[i as int] == tx.inputs@[i as int]@);
            let ghost done = spend_ops(tx@.inputs, i as int);
            let ghost before = set@;
            proof {
                lemma_push_op(start, done, UtxoOp::Spend(prevout));
            }
            match set.get_entry(&prevout) {
                None => {
                    proof {
                        lemma_spend_part_prefix(tx@, height, i + 1);
                        lemma_prefix_facts(start, spend_ops(tx@.inputs, i + 1), all);
                    }
                    return false;
                },
                Some(entry) => {
                    let copy = entry.duplicate();
                    let ghost undo_before = undo@;
                    undo.spent.push(copy);
                    assert(undo@ =~= undo_before.push(SpentView { outpoint: prevout, coin: before[prevout] }));
                    assert(undo@ =~= undo_start + spent_by(start, spend_ops(tx@.inputs, i + 1)));
                    journaled_remove(set, journal, prevout);
                },
            }
            i += 1;
        }
    }
    let ghost mid = tx_spend_ops(tx@);
    let mut k: usize = 0;
    assert(mid + create_ops(txid, tx@.outputs, height, coinbase, 0) =~= mid);
    while k < tx.outputs.len()
        invariant
            k <= tx.outputs@.len(),
            tx@.outputs.len() <= 0x1_0000_0000,
            coinbase == is_coinbase_spec(tx@),
            txid == txid_spec(tx@),
            start == old(set)@,
            undo_start == old(undo)@,
            all == tx_ops(tx@, height),
            mid == tx_spend_ops(tx@),
            rollback_spec(set@, journal@) == rollback_spec(old(set)@, old(journal)@),
            run_ops(start, mid + create_ops(txid, tx@.outputs, height, coinbase, k as int)) == Some(set@),
            undo@ == undo_start + spent_by(start, mid + create_ops(txid, tx@.outputs, height, coinbase, k as int)),
        decreases tx.outputs@.len() - k,
    {
        assert(tx@.outputs[k as int] == tx.outputs@[k as int]@);
        let output = &tx.outputs[k];
        let outpoint = OutPoint { hash: txid, index: k as u32 };
        let entry = UtxoEntry {
            outpoint,
            utxo: UTXO {
                value: output.value,
                script_pubkey: crate::bytes::copy_bytes(output.script_pubkey.as_slice()),
                height,
            },
            coinbase,
        };
        let ghost done = mid + create_ops(txid, tx@.outputs, height, coinbase, k as int);
        proof {
            assert(entry@ == created_coin(tx@.outputs[k as int], height, coinbase));
            lemma_create_push(mid, txid, tx@.outputs, height, coinbase, k as int);
            lemma_push_op(start, done, UtxoOp::Create(outpoint, entry@));
        }
        if set.contains_key(&outpoint) {
            proof {
                lemma_create_part_prefix(tx@, height, k + 1);
                lemma_prefix_facts(start, mid + create_ops(txid, tx@.outputs, height, coinbase, k + 1), all);
            }
            return false;
        }
        journaled_insert(set, journal, entry);
        k += 1;
    }
    true
}

/// The steps of one more transaction follow those of the transactions before.
pub proof fn lemma_block_step(m: Map<OutPoint, CoinView>, txs: Seq<TxView>, height: u32, j: int)
    requires
        0 <= j < txs.len(),
        run_ops(m, block_ops(txs, height, j)) is Some,
    ensures
        run_ops(m, block_ops(txs, height, j + 1)) == run_ops(
            run_ops(m, block_ops(txs, height, j))->Some_0,
            tx_ops(txs[j], height),
        ),
        run_ops(m, block_ops(txs, height, j + 1)) is Some ==> spent_by(m, block_ops(txs, height, j + 1))
            == spent_by(m, block_ops(txs, height, j)) + spent_by(
            run_ops(m, block_ops(txs, height, j))->Some_0,
            tx_ops(txs[j], height),
        ),
        run_ops(m, block_ops(txs, height, j + 1)) is None ==> run_ops(
            m,
            block_ops(txs, height, txs.len() as int),
        ) is None,
{
    lemma_run_prefix(m, block_ops(txs, height, j), tx_ops(txs[j], height));
    lemma_block_ops_prefix(txs, height, j + 1, txs.len() as int);
    lemma_prefix_facts(m, block_ops(txs, height, j + 1), block_ops(txs, height, txs.len() as int));
}

/// Runs the steps of `block` on `set`, noting every change in `journal`.
///
/// Gives the record of what was spent where all steps could be taken. Where
/// one could not, gives the reason, and the set is left as it was when the
/// step failed: the journal tells how to take the changes back.
pub fn apply_block(set: &mut UtxoSet, block: &Block, height: Natural, journal: &mut Vec<JournalEntry>) -> (r:
    Result<BlockUndo, InvalidReason>)
    ensures
        rollback_spec(final(set)@, final(journal)@) == rollback_spec(old(set)@, old(journal)@),
        match r {
            Ok(undo) => connect_spec(old(set)@, block@.transactions, height) == Some(final(set)@) && undo@
                == connect_undo(old(set)@, block@.transactions, height),
            Err(reason) => connect_spec(old(set)@, block@.transactions, height) is None
                && connect_failure(old(set)@, block@.transactions, height, reason),
        },
{
    match first_unindexable(block) {
        Some(j) => {
            return Err(InvalidReason::TooManyOutputsToIndex { index: j });
        },
        None => {},
    }
    let ghost txs = block@.transactions;
    let ghost start = set@;
    let mut undo = BlockUndo::new();
    let mut j: usize = 0;
    assert(undo@ =~= spent_by(start, block_ops(txs, height, 0)));
    while j < block.transactions.len()
        invariant
            j <= block.transactions@.len(),
            txs == block@.transactions,
            start == old(set)@,
            indexable(txs),
            rollback_spec(set@, journal@) == rollback_spec(old(set)@, old(journal)@),
            run_ops(start, block_ops(txs, height, j as int)) == Some(set@),
            undo@ == spent_by(start, block_ops(txs, height, j as int)),
        decreases block.transactions@.len() - j,
    {
        let tx = &block.transactions[j];
        assert(txs[j as int] == tx@);
        proof {
            lemma_block_step(start, txs, height, j as int);
        }
        if !apply_tx(set, tx, height, journal, &mut undo) {
            return Err(InvalidReason::InvalidTransaction { tx_index: j });
        }
        j += 1;
    }
    Ok(undo)
}

/// Whether `reason` is what says why the block cannot be connected: the
/// index of the first transaction with more outputs than an index can name,
/// if there is one, and else that of the first transaction with a step that
/// cannot be taken.
pub open spec fn connect_failure(m: Map<OutPoint, CoinView>, txs: Seq<TxView>, height: u32, reason: InvalidReason) -> bool {
    match reason {
        InvalidReason::TooManyOutputsToIndex { index } => index < txs.len() && txs[index as int].outputs.len()
            > 0x1_0000_0000 && forall|i: int|
            0 <= i < index ==> (#[trigger] txs[i]).outputs.len() <= 0x1_0000_0000,
        InvalidReason::InvalidTransaction { tx_index } => indexable(txs) && tx_index < txs.len() && run_ops(
            m,
            block_ops(txs, height, tx_index as int),
        ) is Some && run_ops(m, block_ops(txs, height, tx_index + 1)) is None,
        _ => false,
    }
}

/// Connects `block` at `height` to the set: for each transaction in order,
/// the inputs of one that is no coinbase are spent, then its outputs are
/// created.
///
/// Where every step can be taken the verdict is `Valid`, with the new set
/// and the record of what was spent. Where one cannot, the verdict is
/// `Invalid` with the reason, the set is the one that was given, unchanged,
/// and the record is empty.
pub fn connect_block(block: &Block, utxo_set: UtxoSet, height: Natural) -> (r: (ValidationResult, UtxoSet, BlockUndo))
    ensures
        match connect_spec(utxo_set@, block@.transactions, height) {
            Some(after) => r.0 == ValidationResult::Valid && r.1@ == after && r.2@ == connect_undo(
                utxo_set@,
                block@.transactions,
                height,
            ),
            None => r.0 is Invalid && connect_failure(utxo_set@, block@.transactions, height, r.0->Invalid_0)
                && r.1@ == utxo_set@ && r.2@ == Seq::<SpentView>::empty(),
        },
{
    let mut set = utxo_set;
    let mut journal: Vec<JournalEntry> = Vec::new();
    match apply_block(&mut set, block, height, &mut journal) {
        Ok(undo) => (ValidationResult::Valid, set, undo),
        Err(reason) => {
            rollback(&mut set, &mut journal);
            (ValidationResult::Invalid(reason), set, BlockUndo::new())
        },
    }
}

proof fn lemma_spend_outpoints_push(done: Seq<UtxoOp>, op: UtxoOp)
    ensures
        spend_outpoints(done.push(op)) == (match op {
            UtxoOp::Spend(p) => spend_outpoints(done).push(p),
            UtxoOp::Create(_, _) => spend_outpoints(done),
        }),
{
    assert(done.push(op).drop_last() =~= done);
}

/// The outputs that a transaction creates add nothing to what is spent.
proof fn lemma_tx_spend_outpoints(txs: Seq<TxView>, height: u32, j: int)
    requires
        0 <= j < txs.len(),
    ensures
        spend_outpoints(block_ops(txs, height, j + 1)) == spend_outpoints(
            block_ops(txs, height, j) + tx_spend_ops(txs[j]),
        ),
        spend_outpoints(block_ops(txs, height, j) + tx_spend_ops(txs[j])).len() == spend_outpoints(
            block_ops(txs, height, j),
        ).len() + (if is_coinbase_spec(txs[j]) { 0 } else { txs[j].inputs.len() as int }),
{
    let tx = txs[j];
    let base = block_ops(txs, height, j);
    let creates = create_ops(txid_spec(tx), tx.outputs, height, is_coinbase_spec(tx), tx.outputs.len() as int);
    let m = Map::<OutPoint, CoinView>::empty();
    lemma_create_ops_prefix(
        txid_spec(tx),
        tx.outputs,
        height,
        is_coinbase_spec(tx),
        tx.outputs.len() as int,
        tx.outputs.len() as int,
    );
    assert(block_ops(txs, height, j + 1) =~= (base + tx_spend_ops(tx)) + creates);
    lemma_run_prefix(m, base + tx_spend_ops(tx), creates);
    assert(spend_outpoints(creates) =~= Seq::<OutPoint>::empty());
    assert(spend_outpoints(base + tx_spend_ops(tx)) + Seq::<OutPoint>::empty() =~= spend_outpoints(
        base + tx_spend_ops(tx),
    ));
    lemma_run_prefix(m, base, tx_spend_ops(tx));
    if !is_coinbase_spec(tx) {
        lemma_spend_ops_prefix(tx.inputs, tx.inputs.len() as int, tx.inputs.len() as int);
    } else {
        assert(spend_outpoints(Seq::<UtxoOp>::empty()) =~= Seq::<OutPoint>::empty());
    }
}

proof fn lemma_spend_count(base: Seq<UtxoOp>, inputs: Seq<TxInView>, i: int)
    requires
        0 <= i <= inputs.len(),
    ensures
        spend_outpoints(base + spend_ops(inputs, i)).len() == spend_outpoints(base).len() + i,
{
    lemma_run_prefix(Map::<OutPoint, CoinView>::empty(), base, spend_ops(inputs, i));
    lemma_spend_ops_prefix(inputs, i, i);
}

/// Where a record does not name the outpoint of some step that spends, or
/// ends before it, the record does not match the block.
proof fn lemma_mismatch_spreads(
    txs: Seq<TxView>,
    height: u32,
    j: int,
    i: int,
    undo: Seq<SpentView>,
)
    requires
        0 <= j < txs.len(),
        !is_coinbase_spec(txs[j]),
        0 <= i < txs[j].inputs.len(),
        ({
            let u = spend_outpoints(block_ops(txs, height, j)).len() + i;
            u >= undo.len() || undo[u].outpoint != txs[j].inputs[i].prevout
        }),
    ensures
        !undo_matches(txs, height, undo),
{
    let tx = txs[j];
    let base = block_ops(txs, height, j);
    let done = base + spend_ops(tx.inputs, i);
    let next = base + spend_ops(tx.inputs, i + 1);
    let all = block_ops(txs, height, txs.len() as int);
    let m = Map::<OutPoint, CoinView>::empty();
    lemma_spend_push(base, tx.inputs, i);
    lemma_spend_outpoints_push(done, UtxoOp::Spend(tx.inputs[i].prevout));
    lemma_spend_count(base, tx.inputs, i);
    lemma_spend_part_prefix(tx, height, i + 1);
    lemma_position_prefix(txs, height, j, spend_ops(tx.inputs, i + 1));
    lemma_prefix_facts(m, next, all);
    let u = spend_outpoints(base).len() + i;
    assert(spend_outpoints(next)[u] == tx.inputs[i].prevout);
    assert(spend_outpoints(all).subrange(0, spend_outpoints(next).len() as int)[u] == spend_outpoints(
        next,
    )[u]);
    if undo_matches(txs, height, undo) {
        assert(spent_outpoints(undo)[u] == undo[u].outpoint);
    }
}

/// Whether the record names, in order, the outpoints that the block
/// spends, and no transaction of the block has more outputs than an index
/// can name.
pub fn undo_fits(block: &Block, undo: &BlockUndo, height: Natural) -> (r: bool)
    ensures
        r == undo_matches(block@.transactions, height, undo@),
{
    if first_unindexable(block).is_some() {
        return false;
    }
    let ghost txs = block@.transactions;
    let mut u: usize = 0;
    let mut j: usize = 0;
    while j < block.transactions.len()
        invariant
            j <= block.transactions@.len(),
            txs == block@.transactions,
            indexable(txs),
            u <= undo.spent@.len(),
            u == spend_outpoints(block_ops(txs, height, j as int)).len(),
            spent_outpoints(undo@).subrange(0, u as int) == spend_outpoints(block_ops(txs, height, j as int)),
        decreases block.transactions@.len() - j,
    {
        let tx = &block.transactions[j];
        assert(txs[j as int] == tx@);
        let ghost base = block_ops(txs, height, j as int);
        proof {
            lemma_tx_spend_outpoints(txs, height, j as int);
        }
        if !is_coinbase(tx) {
            let mut i: usize = 0;
            assert(base + spend_ops(tx@.inputs, 0) =~= base);
            while i < tx.inputs.len()
                invariant
                    i <= tx.inputs@.len(),
                    j < block.transactions@.len(),
                    txs == block@.transactions,
                    txs[j as int] == tx@,
                    !is_coinbase_spec(tx@),
                    base == block_ops(txs, height, j as int),
                    u <= undo.spent@.len(),
                    u == spend_outpoints(base).len() + i,
                    spent_outpoints(undo@).subrange(0, u as int) == spend_outpoints(
                        base + spend_ops(tx@.inputs, i as int),
                    ),
                decreases tx.inputs@.len() - i,
            {
                assert(tx@.inputs[i as int] == tx.inputs@[i as int]@);
                if u >= undo.spent.len() || !undo.spent[u].outpoint.same(&tx.inputs[i].prevout) {
                    proof {
                        if u < undo.spent@.len() {
                            assert(undo@[u as int].outpoint == undo.spent@[u as int].outpoint);
                        }
                        lemma_mismatch_spreads(txs, height, j as int, i as int, undo@);
                    }
                    return false;
                }
                proof {
                    let done = base + spend_ops(tx@.inputs, i as int);
                    lemma_spend_push(base, tx@.inputs, i as int);
                    lemma_spend_outpoints_push(done, UtxoOp::Spend(tx@.inputs[i as int].prevout));
                    assert(undo@[u as int].outpoint == undo.spent@[u as int].outpoint);
                    assert(spent_outpoints(undo@).subrange(0, u + 1) =~= spent_outpoints(undo@).subrange(
                        0,
                        u as int,
                    ).push(tx@.inputs[i as int].prevout));
                }
                u += 1;
                i += 1;
            }
        } else {
            assert(base + tx_spend_ops(tx@) =~= base);
        }
        j += 1;
    }
    proof {
        if u == undo.spent@.len() {
            assert(spent_outpoints(undo@).subrange(0, u as int) =~= spent_outpoints(undo@));
        } else {
            assert(spent_outpoints(undo@).len() == undo.spent@.len());
        }
    }
    u == undo.spent.len()
}

proof fn lemma_revert_push(m: Map<OutPoint, CoinView>, done: Seq<UtxoOp>, op: UtxoOp, spent: Seq<SpentView>)
    ensures
        revert_ops(m, done.push(op), spent) == (match op {
            UtxoOp::Spend(p) => revert_ops(m.insert(p, spent.last().coin), done, spent.drop_last()),
            UtxoOp::Create(p, _) => revert_ops(m.remove(p), done, spent),
        }),
{
    assert(done.push(op).drop_last() =~= done);
}

/// Takes the steps of `block` back on `set`, the last first, noting every
/// change in `journal`: what the block created is removed, what it spent is
/// put back as `undo` recorded it. The record must match the block.
pub(crate) fn unapply_block(
    set: &mut UtxoSet,
    block: &Block,
    undo: &BlockUndo,
    height: Natural,
    journal: &mut Vec<JournalEntry>,
)
    requires
        undo_matches(block@.transactions, height, undo@),
    ensures
        final(set)@ == disconnect_spec(old(set)@, block@.transactions, height, undo@),
        rollback_spec(final(set)@, final(journal)@) == rollback_spec(old(set)@, old(journal)@),
{
    let ghost txs = block@.transactions;
    let ghost target = disconnect_spec(set@, txs, height, undo@);
    let mut u: usize = undo.spent.len();
    let mut j: usize = block.transactions.len();
    assert(undo@.subrange(0, u as int) =~= undo@);
    assert(spent_outpoints(undo@).len() == undo@.len());
    while j > 0
        invariant
            j <= block.transactions@.len(),
            txs == block@.transactions,
            indexable(txs),
            u <= undo.spent@.len(),
            u == spend_outpoints(block_ops(txs, height, j as int)).len(),
            rollback_spec(set@, journal@) == rollback_spec(old(set)@, old(journal)@),
            revert_ops(set@, block_ops(txs, height, j as int), undo@.subrange(0, u as int)) == target,
        decreases j,
    {
        j -= 1;
        let tx = &block.transactions[j];
        assert(txs[j as int] == tx@);
        let coinbase = is_coinbase(tx);
        let txid = calculate_tx_id(tx);
        let ghost base = block_ops(txs, height, j as int);
        let ghost mid = base + tx_spend_ops(tx@);
        let mut k: usize = tx.outputs.len();
        proof {
            lemma_tx_spend_outpoints(txs, height, j as int);
            assert(block_ops(txs, height, j + 1) =~= mid + create_ops(
                txid,
                tx@.outputs,
                height,
                coinbase,
                k as int,
            ));
        }
        while k > 0
            invariant
                k <= tx.outputs@.len(),
                j < block.transactions@.len(),
                txs == block@.transactions,
                txs[j as int] == tx@,
                indexable(txs),
                coinbase == is_coinbase_spec(tx@),
                txid == txid_spec(tx@),
                base == block_ops(txs, height, j as int),
                mid == base + tx_spend_ops(tx@),
                u <= undo.spent@.len(),
                u == spend_outpoints(mid).len(),
                rollback_spec(set@, journal@) == rollback_spec(old(set)@, old(journal)@),
                revert_ops(
                    set@,
                    mid + create_ops(txid, tx@.outputs, height, coinbase, k as int),
                    undo@.subrange(0, u as int),
                ) == target,
            decreases k,
        {
            k -= 1;
            let outpoint = OutPoint { hash: txid, index: k as u32 };
            proof {
                let done = mid + create_ops(txid, tx@.outputs, height, coinbase, k as int);
                lemma_create_push(mid, txid, tx@.outputs, height, coinbase, k as int);
                lemma_revert_push(
                    set@,
                    done,
                    UtxoOp::Create(outpoint, created_coin(tx@.outputs[k as int], height, coinbase)),
                    undo@.subrange(0, u as int),
                );
            }
            journaled_remove(set, journal, outpoint);
        }
        assert(mid + create_ops(txid, tx@.outputs, height, coinbase, 0) =~= mid);
        if !coinbase {
            let mut i: usize = tx.inputs.len();
            proof {
                lemma_spend_count(base, tx@.inputs, i as int);
            }
            while i > 0
                invariant
                    i <= tx.inputs@.len(),
                    j < block.transactions@.len(),
                    txs == block@.transactions,
                    txs[j as int] == tx@,
                    !is_coinbase_spec(tx@),
                    base == block_ops(txs, height, j as int),
                    u <= undo.spent@.len(),
                    u == spend_outpoints(base).len() + i,
                    rollback_spec(set@, journal@) == rollback_spec(old(set)@, old(journal)@),
                    revert_ops(set@, base + spend_ops(tx@.inputs, i as int), undo@.subrange(0, u as int))
                        == target,
                decreases i,
            {
                i -= 1;
                u -= 1;
                assert(tx@.inputs[i as int] == tx.inputs@[i as int]@);
                let record = &undo.spent[u];
                let entry = UtxoEntry {
                    outpoint: tx.inputs[i].prevout,
                    utxo: record.utxo.duplicate(),
                    coinbase: record.coinbase,
                };
                proof {
                    let done = base + spend_ops(tx@.inputs, i as int);
                    let sp = undo@.subrange(0, u + 1);
                    lemma_spend_push(base, tx@.inputs, i as int);
                    lemma_revert_push(set@, done, UtxoOp::Spend(tx@.inputs[i as int].prevout), sp);
                    assert(sp.last() == undo@[u as int]);
                    assert(sp.drop_last() =~= undo@.subrange(0, u as int));
                    assert(entry@ == undo@[u as int].coin);
                }
                journaled_insert(set, journal, entry);
            }
            assert(base + spend_ops(tx@.inputs, 0) =~= base);
        } else {
            assert(mid =~= base);
        }
    }
}

/// Disconnects `block` from the set with the record that connecting it
/// made: the outputs that the block created are removed and what it spent
/// is put back, the last step first.
///
/// Fails, with `MissingUndo`, exactly where the record does not name, in
/// order, the outpoints that the block spends.
pub fn disconnect_block(block: &Block, utxo_set: UtxoSet, undo: &BlockUndo, height: Natural) -> (r: Result<
    UtxoSet,
    ConsensusError,
>)
    ensures
        match r {
            Ok(after) => undo_matches(block@.transactions, height, undo@) && after@ == disconnect_spec(
                utxo_set@,
                block@.transactions,
                height,
                undo@,
            ),
            Err(e) => !undo_matches(block@.transactions, height, undo@) && e
                == ConsensusError::ConsensusRuleViolation(RuleViolation::MissingUndo),
        },
{
    if !undo_fits(block, undo, height) {
        return Err(ConsensusError::ConsensusRuleViolation(RuleViolation::MissingUndo));
    }
    let mut set = utxo_set;
    let mut journal: Vec<JournalEntry> = Vec::new();
    unapply_block(&mut set, block, undo, height, &mut journal);
    Ok(set)
}

} // verus!
