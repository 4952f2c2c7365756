//! The first synchronisation: from the peers to an agreed commitment, and
//! from the checkpoint forward block by block.
//!
//! The steps that wait for peers are not taken here. What is decided
//! before the peers are asked is [`InitialSync::plan_initial_sync`]; what is
//! decided once they have answered is [`InitialSync::conclude_initial_sync`].

use vstd::prelude::*;
use crate::block::{calculate_tx_id, created_coin, txid_spec};
use crate::bytes::{copy_bytes, hash_eq};
use crate::constants::MAX_MONEY;
use crate::serialization::block::{block_hash_spec, compute_block_hash};
use crate::transaction::{is_coinbase, is_coinbase_spec, money_range};
use crate::types::{BlockHeader, Integer, Natural, OutPoint, Transaction, TxInView, TxOutView, TxView, UTXO};
use crate::utxo_commitments::data_structures::{UtxoCommitment, UtxoCommitmentError, VerificationFailure};
use crate::utxo_commitments::merkle_tree::{commitment_root, key_spec, key_taken, recorded_count, without_key, UtxoMerkleTree};
use crate::utxo_commitments::peer_consensus::{below_by, checkpoint_spec, diverse_spec, first_majority, has_majority, header_matches, ConsensusConfig, PeerCommitment, PeerConsensus, PeerInfo};
use crate::utxo_commitments::spam_filter::{spam_kind, txs_view, SpamFilter, SpamFilterConfig, SpamKind, SpamSummary};
use crate::utxo_set::{CoinView, UtxoEntry};

pub use crate::block::calculate_tx_id as compute_tx_id;

verus! {

/// What the peers are to be asked: which peers, and for the commitment at
/// which block.
#[derive(Debug)]
pub struct SyncPlan {
    /// The peers to ask: the first of each network.
    pub peers: Vec<PeerInfo>,
    /// The height of the checkpoint.
    pub checkpoint_height: Natural,
    /// The hash of the local header at that height.
    pub checkpoint_hash: [u8; 32],
}

/// The first synchronisation, with its rules of agreement and its filter.
#[derive(Debug)]
pub struct InitialSync {
    peer_consensus: PeerConsensus,
    spam_filter: SpamFilter,
}

/// The height of the tip of a chain of `n` headers, the first at height 0.
pub open spec fn tip_height(n: nat) -> u32 {
    if n - 1 > u32::MAX {
        u32::MAX
    } else {
        (n - 1) as u32
    }
}

/// What is decided before the peers are asked: the height of the
/// checkpoint, or why there is none.
///
/// There must be at least `min_peers` peers of distinct networks. The
/// checkpoint lies the safety margin below the median of the tips of the
/// peers, or, where no tip is known, below the tip of the local chain of
/// headers; the local chain must reach it.
pub open spec fn plan_spec(config: ConsensusConfig, peers: Seq<PeerInfo>, tips: Seq<u32>, headers: Seq<BlockHeader>) -> Result<
    u32,
    UtxoCommitmentError,
> {
    let diverse = diverse_spec(peers, peers.len() as int);
    if diverse.len() < config.min_peers {
        Err(
            UtxoCommitmentError::VerificationFailed(
                VerificationFailure::InsufficientDiversePeers {
                    got: diverse.len() as usize,
                    need: config.min_peers,
                },
            ),
        )
    } else if tips.len() == 0 && headers.len() == 0 {
        Err(UtxoCommitmentError::VerificationFailed(VerificationFailure::NoHeaderChain))
    } else {
        let checkpoint = if tips.len() > 0 {
            checkpoint_spec(tips, config.safety_margin)
        } else {
            below_by(tip_height(headers.len()), config.safety_margin)
        };
        if checkpoint >= headers.len() {
            Err(
                UtxoCommitmentError::VerificationFailed(
                    VerificationFailure::CheckpointBeyondHeaders {
                        checkpoint,
                        headers: headers.len() as usize,
                    },
                ),
            )
        } else {
            Ok(checkpoint)
        }
    }
}

/// What the set holds after `p` is put in with `c`: an outpoint with the
/// same key leaves the set.
pub open spec fn put(m: Map<OutPoint, CoinView>, p: OutPoint, c: CoinView) -> Map<OutPoint, CoinView> {
    without_key(m, key_spec(p)).insert(p, c)
}

/// The set without what the first `n` inputs spend.
pub open spec fn inputs_taken(m: Map<OutPoint, CoinView>, inputs: Seq<TxInView>, n: int) -> Map<OutPoint, CoinView>
    decreases n,
{
    if n <= 0 {
        m
    } else {
        inputs_taken(m, inputs, n - 1).remove(inputs[n - 1].prevout)
    }
}

/// The set with the first `n` outputs of the transaction `txid` put in.
/// Outputs whose index does not fit in 32 bits are passed over.
pub open spec fn outputs_put(
    m: Map<OutPoint, CoinView>,
    txid: [u8; 32],
    outputs: Seq<TxOutView>,
    height: u32,
    coinbase: bool,
    n: int,
) -> Map<OutPoint, CoinView>
    decreases n,
{
    if n <= 0 {
        m
    } else if n - 1 > u32::MAX {
        outputs_put(m, txid, outputs, height, coinbase, n - 1)
    } else {
        put(
            outputs_put(m, txid, outputs, height, coinbase, n - 1),
            OutPoint { hash: txid, index: (n - 1) as u32 },
            created_coin(outputs[n - 1], height, coinbase),
        )
    }
}

/// The set after a transaction in a block at `height` is replayed: what
/// its inputs spend is taken out, unless it is a coinbase, and its outputs
/// are put in.
pub open spec fn replay_tx(m: Map<OutPoint, CoinView>, tx: TxView, height: u32) -> Map<OutPoint, CoinView> {
    let taken = if is_coinbase_spec(tx) {
        m
    } else {
        inputs_taken(m, tx.inputs, tx.inputs.len() as int)
    };
    outputs_put(taken, txid_spec(tx), tx.outputs, height, is_coinbase_spec(tx), tx.outputs.len() as int)
}

/// The total of what the first `n` inputs spend, where every one of them
/// is in the set with a valid amount and the total is a valid amount.
pub open spec fn known_in(m: Map<OutPoint, CoinView>, inputs: Seq<TxInView>, n: int) -> Option<int>
    decreases n,
{
    if n <= 0 {
        Some(0)
    } else {
        match known_in(m, inputs, n - 1) {
            None => None,
            Some(sum) => {
                let p = inputs[n - 1].prevout;
                if m.contains_key(p) && money_range(m[p].utxo.value as int) && sum + m[p].utxo.value
                    <= MAX_MONEY {
                    Some(sum + m[p].utxo.value)
                } else {
                    None
                }
            },
        }
    }
}

/// The total of the first `n` outputs, where every value is a valid amount
/// and the total is one.
pub open spec fn known_out(outputs: Seq<TxOutView>, n: int) -> Option<int>
    decreases n,
{
    if n <= 0 {
        Some(0)
    } else {
        match known_out(outputs, n - 1) {
            None => None,
            Some(sum) => if money_range(outputs[n - 1].value as int) && sum + outputs[n - 1].value
                <= MAX_MONEY {
                Some(sum + outputs[n - 1].value)
            } else {
                None
            },
        }
    }
}

/// The fee of a transaction against the set, where it can be known: the
/// transaction is no coinbase and both totals are known.
pub open spec fn known_fee(m: Map<OutPoint, CoinView>, tx: TxView) -> Option<i64> {
    if is_coinbase_spec(tx) {
        None
    } else {
        match (known_in(m, tx.inputs, tx.inputs.len() as int), known_out(tx.outputs, tx.outputs.len() as int)) {
            (Some(a), Some(b)) => Some((a - b) as i64),
            _ => None,
        }
    }
}

/// The state of a replay: the set, and the counts of the filter.
pub ghost struct ReplayState {
    pub set: Map<OutPoint, CoinView>,
    pub kept: int,
    pub op_return: int,
    pub low_fee: int,
}

/// The state after the first `n` transactions of a block at `height` are
/// looked at in order: each is judged by the filter, with its fee against
/// the set as it then is, and replayed unless it is left out.
pub open spec fn replay(config: SpamFilterConfig, m: Map<OutPoint, CoinView>, txs: Seq<TxView>, height: u32, n: int) -> ReplayState
    decreases n,
{
    if n <= 0 {
        ReplayState { set: m, kept: 0, op_return: 0, low_fee: 0 }
    } else {
        let before = replay(config, m, txs, height, n - 1);
        match spam_kind(config, txs[n - 1], known_fee(before.set, txs[n - 1])) {
            None => ReplayState {
                set: replay_tx(before.set, txs[n - 1], height),
                kept: before.kept + 1,
                op_return: before.op_return,
                low_fee: before.low_fee,
            },
            Some(SpamKind::OpReturnOnly) => ReplayState {
                set: before.set,
                kept: before.kept,
                op_return: before.op_return + 1,
                low_fee: before.low_fee,
            },
            Some(SpamKind::LowFee) => ReplayState {
                set: before.set,
                kept: before.kept,
                op_return: before.op_return,
                low_fee: before.low_fee + 1,
            },
        }
    }
}

/// The set that a list of entries builds, put in one after the other.
pub open spec fn built_spec(entries: Seq<UtxoEntry>, n: int) -> Map<OutPoint, CoinView>
    decreases n,
{
    if n <= 0 {
        Map::<OutPoint, CoinView>::empty()
    } else {
        put(built_spec(entries, n - 1), entries[n - 1].outpoint, entries[n - 1]@)
    }
}

/// Whether no two entries of the list have the same key.
pub open spec fn keys_differ(entries: Seq<UtxoEntry>) -> bool {
    forall|i: int, j: int|
        0 <= i < j < entries.len() ==> key_spec((#[trigger] entries[i]).outpoint) != key_spec(
            (#[trigger] entries[j]).outpoint,
        )
}

/// Whether one of the first `n` entries is the outpoint `q` with the
/// output `c`.
pub open spec fn lists(entries: Seq<UtxoEntry>, n: int, q: OutPoint, c: CoinView) -> bool {
    exists|i: int| 0 <= i < n && i < entries.len() && (#[trigger] entries[i]).outpoint == q && entries[i]@ == c
}

/// What a list of entries with different keys builds is what it lists.
proof fn lemma_built_is_listed(entries: Seq<UtxoEntry>, n: int, q: OutPoint)
    requires
        keys_differ(entries),
        0 <= n <= entries.len(),
    ensures
        built_spec(entries, n).contains_key(q) ==> lists(entries, n, q, built_spec(entries, n)[q]),
        forall|c: CoinView|
            lists(entries, n, q, c) ==> built_spec(entries, n).contains_key(q) && built_spec(entries, n)[q] == c,
    decreases n,
{
    if n > 0 {
        lemma_built_is_listed(entries, n - 1, q);
        let before = built_spec(entries, n - 1);
        let last = entries[n - 1];
        assert(built_spec(entries, n) == put(before, last.outpoint, last@));
        if before.contains_key(q) {
            let i = choose|i: int|
                0 <= i < n - 1 && i < entries.len() && (#[trigger] entries[i]).outpoint == q && entries[i]@
                    == before[q];
            assert(key_spec(entries[i].outpoint) != key_spec(last.outpoint));
        }
        if built_spec(entries, n).contains_key(q) {
            if q == last.outpoint {
                assert(entries[n - 1].outpoint == q && entries[n - 1]@ == built_spec(entries, n)[q]);
            } else {
                let i = choose|i: int|
                    0 <= i < n - 1 && i < entries.len() && (#[trigger] entries[i]).outpoint == q && entries[i]@
                        == before[q];
                assert(entries[i].outpoint == q && entries[i]@ == built_spec(entries, n)[q]);
            }
        }
        assert forall|c: CoinView| lists(entries, n, q, c) implies built_spec(entries, n).contains_key(q)
            && built_spec(entries, n)[q] == c by {
            let i = choose|i: int|
                0 <= i < n && i < entries.len() && (#[trigger] entries[i]).outpoint == q && entries[i]@ == c;
            if i < n - 1 {
                assert(lists(entries, n - 1, q, c));
                assert(key_spec(entries[i].outpoint) != key_spec(last.outpoint));
            }
        }
    }
}

/// The commitment root does not depend on the order in which the set was
/// filled: two lists that hold the same entries, each with no key twice,
/// build the same set, and so the same root.
pub proof fn lemma_root_of_any_order(first: Seq<UtxoEntry>, second: Seq<UtxoEntry>)
    requires
        keys_differ(first),
        keys_differ(second),
        forall|i: int|
            0 <= i < first.len() ==> lists(
                second,
                second.len() as int,
                (#[trigger] first[i]).outpoint,
                first[i]@,
            ),
        forall|i: int|
            0 <= i < second.len() ==> lists(
                first,
                first.len() as int,
                (#[trigger] second[i]).outpoint,
                second[i]@,
            ),
    ensures
        built_spec(first, first.len() as int) == built_spec(second, second.len() as int),
        commitment_root(built_spec(first, first.len() as int)) == commitment_root(
            built_spec(second, second.len() as int),
        ),
{
    let a = built_spec(first, first.len() as int);
    let b = built_spec(second, second.len() as int);
    assert forall|q: OutPoint|
        #![trigger a.dom().contains(q)]
        #![trigger b.dom().contains(q)]
        a.dom().contains(q) == b.dom().contains(q) && (a.dom().contains(q) ==> a[q] == b[q]) by {
        lemma_built_is_listed(first, first.len() as int, q);
        lemma_built_is_listed(second, second.len() as int, q);
        if a.contains_key(q) {
            let i = choose|i: int|
                0 <= i < first.len() && i < first.len() && (#[trigger] first[i]).outpoint == q && first[i]@ == a[q];
            assert(lists(second, second.len() as int, first[i].outpoint, first[i]@));
        }
        if b.contains_key(q) {
            let i = choose|i: int|
                0 <= i < second.len() && i < second.len() && (#[trigger] second[i]).outpoint == q && second[i]@
                    == b[q];
            assert(lists(first, first.len() as int, second[i].outpoint, second[i]@));
        }
    }
    assert(a =~= b);
}

/// The fee of `tx` against the tree, where it can be known.
pub fn tree_fee(tree: &UtxoMerkleTree, tx: &Transaction) -> (r: Option<Integer>)
    ensures
        r == known_fee(tree@, tx@),
{
    if is_coinbase(tx) {
        return None;
    }
    let mut total_in: i64 = 0;
    let mut i: usize = 0;
    while i < tx.inputs.len()
        invariant
            i <= tx.inputs@.len(),
            !is_coinbase_spec(tx@),
            0 <= total_in <= MAX_MONEY,
            known_in(tree@, tx@.inputs, i as int) == Some(total_in as int),
        decreases tx.inputs@.len() - i,
    {
        assert(tx@.inputs[i as int] == tx.inputs@[i as int]@);
        proof {
            lemma_known_in_stays_none(tree@, tx@.inputs, i + 1, tx@.inputs.len() as int);
        }
        match tree.get(&tx.inputs[i].prevout) {
            None => {
                return None;
            },
            Some(utxo) => {
                let value = utxo.value;
                if value < 0 || value > MAX_MONEY || total_in + value > MAX_MONEY {
                    return None;
                }
                total_in = total_in + value;
            },
        }
        i += 1;
    }
    let mut total_out: i64 = 0;
    let mut k: usize = 0;
    while k < tx.outputs.len()
        invariant
            k <= tx.outputs@.len(),
            !is_coinbase_spec(tx@),
            0 <= total_in <= MAX_MONEY,
            0 <= total_out <= MAX_MONEY,
            known_in(tree@, tx@.inputs, tx@.inputs.len() as int) == Some(total_in as int),
            known_out(tx@.outputs, k as int) == Some(total_out as int),
        decreases tx.outputs@.len() - k,
    {
        assert(tx@.outputs[k as int] == tx.outputs@[k as int]@);
        proof {
            lemma_known_out_stays_none(tx@.outputs, k + 1, tx@.outputs.len() as int);
        }
        let value = tx.outputs[k].value;
        if value < 0 || value > MAX_MONEY || total_out + value > MAX_MONEY {
            return None;
        }
        total_out = total_out + value;
        k += 1;
    }
    Some(total_in - total_out)
}

proof fn lemma_known_in_stays_none(m: Map<OutPoint, CoinView>, inputs: Seq<TxInView>, a: int, b: int)
    requires
        a <= b,
    ensures
        known_in(m, inputs, a) is None ==> known_in(m, inputs, b) is None,
    decreases b - a,
{
    if a < b {
        lemma_known_in_stays_none(m, inputs, a, b - 1);
    }
}

proof fn lemma_known_out_stays_none(outputs: Seq<TxOutView>, a: int, b: int)
    requires
        a <= b,
    ensures
        known_out(outputs, a) is None ==> known_out(outputs, b) is None,
    decreases b - a,
{
    if a < b {
        lemma_known_out_stays_none(outputs, a, b - 1);
    }
}

/// One change made to the tree: the outpoint that was put in or taken
/// out, and the entry that the tree held under its key before.
#[derive(Debug)]
pub struct TreeChange {
    pub outpoint: OutPoint,
    pub previous: Option<UtxoEntry>,
}

/// The set with one change taken back.
pub open spec fn tree_restore(m: Map<OutPoint, CoinView>, change: TreeChange) -> Map<OutPoint, CoinView> {
    match change.previous {
        Some(e) => put(m.remove(change.outpoint), e.outpoint, e@),
        None => m.remove(change.outpoint),
    }
}

/// The set with all changes of a journal taken back, the last first.
pub open spec fn tree_rollback_spec(m: Map<OutPoint, CoinView>, journal: Seq<TreeChange>) -> Map<OutPoint, CoinView>
    decreases journal.len(),
{
    if journal.len() == 0 {
        m
    } else {
        tree_rollback_spec(tree_restore(m, journal.last()), journal.drop_last())
    }
}

/// Puts `entry` into the tree, and notes the change.
fn journaled_put(tree: &mut UtxoMerkleTree, journal: &mut Vec<TreeChange>, entry: UtxoEntry)
    ensures
        final(tree)@ == put(old(tree)@, entry.outpoint, entry@),
        tree_rollback_spec(final(tree)@, final(journal)@) == tree_rollback_spec(old(tree)@, old(journal)@),
{
    let outpoint = entry.outpoint;
    let ghost before = tree@;
    proof {
        tree.lemma_one_per_key();
    }
    let previous = tree.replace_entry(entry);
    let ghost held = previous;
    let change = TreeChange { outpoint, previous };
    proof {
        let k = key_spec(outpoint);
        assert(journal@.push(change).drop_last() =~= journal@);
        assert(tree@.remove(outpoint) =~= without_key(before, k));
        match held {
            Some(e) => {
                assert(put(without_key(before, k), e.outpoint, e@) =~= before);
            },
            None => {
                assert(without_key(before, k) =~= before) by {
                    assert forall|q: OutPoint| before.contains_key(q) implies key_spec(q) != k by {
                        if key_spec(q) == k {
                            assert(key_taken(before, k));
                        }
                    }
                }
            },
        }
        assert(tree_restore(tree@, change) == before);
    }
    journal.push(change);
}

/// Takes what the tree holds for `outpoint` out of it, and notes the change.
fn journaled_take(tree: &mut UtxoMerkleTree, journal: &mut Vec<TreeChange>, outpoint: OutPoint)
    ensures
        final(tree)@ == old(tree)@.remove(outpoint),
        tree_rollback_spec(final(tree)@, final(journal)@) == tree_rollback_spec(old(tree)@, old(journal)@),
{
    let ghost before = tree@;
    proof {
        tree.lemma_one_per_key();
    }
    let previous = tree.remove_entry(&outpoint);
    let ghost held = previous;
    let change = TreeChange { outpoint, previous };
    proof {
        assert(journal@.push(change).drop_last() =~= journal@);
        match held {
            Some(e) => {
                assert(put(before.remove(outpoint).remove(outpoint), outpoint, e@) =~= before);
            },
            None => {
                assert(before.remove(outpoint).remove(outpoint) =~= before);
            },
        }
        assert(tree_restore(tree@, change) == before);
    }
    journal.push(change);
}

/// Takes back every change that the journal notes, the last first, and
/// empties the journal.
fn tree_rollback(tree: &mut UtxoMerkleTree, journal: &mut Vec<TreeChange>)
    ensures
        final(tree)@ == tree_rollback_spec(old(tree)@, old(journal)@),
        final(journal)@.len() == 0,
{
    while journal.len() > 0
        invariant
            tree_rollback_spec(tree@, journal@) == tree_rollback_spec(old(tree)@, old(journal)@),
        decreases journal@.len(),
    {
        let ghost noted = journal@;
        let change = journal.pop().unwrap();
        assert(journal@ =~= noted.drop_last());
        let _ = tree.remove_entry(&change.outpoint);
        match change.previous {
            Some(e) => {
                tree.insert_entry(e);
            },
            None => {},
        }
    }
}

/// Replays `tx`, of a block at `height`, into the tree, noting every change.
fn replay_transaction(tree: &mut UtxoMerkleTree, tx: &Transaction, height: Natural, journal: &mut Vec<TreeChange>)
    ensures
        final(tree)@ == replay_tx(old(tree)@, tx@, height),
        tree_rollback_spec(final(tree)@, final(journal)@) == tree_rollback_spec(old(tree)@, old(journal)@),
{
    let coinbase = is_coinbase(tx);
    let txid = calculate_tx_id(tx);
    if !coinbase {
        let mut i: usize = 0;
        while i < tx.inputs.len()
            invariant
                i <= tx.inputs@.len(),
                tree@ == inputs_taken(old(tree)@, tx@.inputs, i as int),
                tree_rollback_spec(tree@, journal@) == tree_rollback_spec(old(tree)@, old(journal)@),
            decreases tx.inputs@.len() - i,
        {
            assert(tx@.inputs[i as int] == tx.inputs@[i as int]@);
            journaled_take(tree, journal, tx.inputs[i].prevout);
            i += 1;
        }
    }
    let ghost taken = tree@;
    let mut k: usize = 0;
    while k < tx.outputs.len()
        invariant
            k <= tx.outputs@.len(),
            txid == txid_spec(tx@),
            coinbase == is_coinbase_spec(tx@),
            tree@ == outputs_put(taken, txid, tx@.outputs, height, coinbase, k as int),
            tree_rollback_spec(tree@, journal@) == tree_rollback_spec(old(tree)@, old(journal)@),
        decreases tx.outputs@.len() - k,
    {
        assert(tx@.outputs[k as int] == tx.outputs@[k as int]@);
        if (k as u64) <= 0xffff_ffffu64 {
            let output = &tx.outputs[k];
            let entry = UtxoEntry {
                outpoint: OutPoint { hash: txid, index: k as u32 },
                utxo: UTXO {
                    value: output.value,
                    script_pubkey: copy_bytes(output.script_pubkey.as_slice()),
                    height,
                },
                coinbase,
            };
            assert(entry@ == created_coin(tx@.outputs[k as int], height, coinbase));
            journaled_put(tree, journal, entry);
        }
        k += 1;
    }
}

/// Replays `tx`, of a block at `height`, into the tree.
pub fn apply_transaction(tree: &mut UtxoMerkleTree, tx: &Transaction, height: Natural)
    ensures
        final(tree)@ == replay_tx(old(tree)@, tx@, height),
{
    let mut journal: Vec<TreeChange> = Vec::new();
    replay_transaction(tree, tx, height, &mut journal);
}

impl InitialSync {
    /// The rules of agreement of this synchronisation.
    pub closed spec fn consensus_config(&self) -> ConsensusConfig {
        self.peer_consensus.config
    }

    /// The configuration of the filter of this synchronisation.
    pub closed spec fn filter_config(&self) -> SpamFilterConfig {
        self.spam_filter.config
    }

    /// A synchronisation with the given rules of agreement and the usual filter.
    pub fn new(config: ConsensusConfig) -> (r: InitialSync)
        ensures
            r.consensus_config() == config,
            r.filter_config() == (SpamFilterConfig { filter_op_return: true, min_fee: 0 }),
    {
        InitialSync { peer_consensus: PeerConsensus::new(config), spam_filter: SpamFilter::new() }
    }

    /// A synchronisation with the given rules of agreement and the given filter.
    pub fn with_spam_filter(config: ConsensusConfig, spam_filter_config: SpamFilterConfig) -> (r: InitialSync)
        ensures
            r.consensus_config() == config,
            r.filter_config() == spam_filter_config,
    {
        InitialSync {
            peer_consensus: PeerConsensus::new(config),
            spam_filter: SpamFilter::with_config(spam_filter_config),
        }
    }

    /// Decides what the peers are to be asked: the peers of distinct
    /// networks, and the checkpoint with the hash of the local header there.
    /// The outcome is that of [`plan_spec`].
    pub fn plan_initial_sync(
        &self,
        all_peers: Vec<PeerInfo>,
        peer_tips: Vec<Natural>,
        header_chain: &[BlockHeader],
    ) -> (r: Result<SyncPlan, UtxoCommitmentError>)
        ensures
            match r {
                Ok(plan) => plan_spec(self.consensus_config(), all_peers@, peer_tips@, header_chain@) == Ok::<
                    u32,
                    UtxoCommitmentError,
                >(plan.checkpoint_height) && plan.peers@ == diverse_spec(all_peers@, all_peers@.len() as int)
                    && plan.checkpoint_height < header_chain@.len() && plan.checkpoint_hash
                    == block_hash_spec(header_chain@[plan.checkpoint_height as int]),
                Err(e) => plan_spec(self.consensus_config(), all_peers@, peer_tips@, header_chain@) == Err::<
                    u32,
                    UtxoCommitmentError,
                >(e),
            },
    {
        let ghost peers_view = all_peers@;
        let diverse_peers = self.peer_consensus.discover_diverse_peers(all_peers);
        if diverse_peers.len() < self.peer_consensus.config.min_peers {
            return Err(
                UtxoCommitmentError::VerificationFailed(
                    VerificationFailure::InsufficientDiversePeers {
                        got: diverse_peers.len(),
                        need: self.peer_consensus.config.min_peers,
                    },
                ),
            );
        }
        let checkpoint: u32 = if peer_tips.len() > 0 {
            self.peer_consensus.determine_checkpoint_height(peer_tips)
        } else if header_chain.len() > 0 {
            let tip: u32 = if (header_chain.len() - 1) as u64 > 0xffff_ffffu64 {
                0xffff_ffff
            } else {
                (header_chain.len() - 1) as u32
            };
            if tip > self.peer_consensus.config.safety_margin {
                tip - self.peer_consensus.config.safety_margin
            } else {
                0
            }
        } else {
            return Err(UtxoCommitmentError::VerificationFailed(VerificationFailure::NoHeaderChain));
        };
        if (checkpoint as u64) >= (header_chain.len() as u64) {
            return Err(
                UtxoCommitmentError::VerificationFailed(
                    VerificationFailure::CheckpointBeyondHeaders { checkpoint, headers: header_chain.len() },
                ),
            );
        }
        let checkpoint_hash = compute_block_hash(&header_chain[checkpoint as usize]);
        Ok(SyncPlan { peers: diverse_peers, checkpoint_height: checkpoint, checkpoint_hash })
    }

    /// Decides on the answers of the peers.
    ///
    /// Succeeds with the agreed commitment where there are at least as many
    /// answers as the quorum, a strict majority of them hold the same
    /// commitment, that commitment is for the checkpoint of the plan, and
    /// the local chain of headers has the block that it names at its
    /// height. Fails with `InsufficientConsensus` where there is no such
    /// majority, and with `CheckpointHeaderMismatch` where the agreed
    /// commitment is for another block.
    pub fn conclude_initial_sync(
        &self,
        plan: &SyncPlan,
        peer_commitments: Vec<PeerCommitment>,
        header_chain: &[BlockHeader],
    ) -> (r: Result<UtxoCommitment, UtxoCommitmentError>)
        ensures
            match r {
                Ok(c) => peer_commitments@.len() >= self.consensus_config().quorum && c.height
                    == plan.checkpoint_height && header_matches(c, header_chain@) && exists|i: int|
                    #[trigger] first_majority(peer_commitments@, i) && c == peer_commitments@[i].commitment,
                Err(e) => if peer_commitments@.len() < self.consensus_config().quorum || forall|i: int|
                    0 <= i < peer_commitments@.len() ==> !has_majority(peer_commitments@, i) {
                    e == (UtxoCommitmentError::InsufficientConsensus {
                        responses: peer_commitments@.len() as usize,
                        quorum: self.consensus_config().quorum,
                    })
                } else {
                    e == UtxoCommitmentError::CheckpointHeaderMismatch && exists|i: int|
                        #[trigger] first_majority(peer_commitments@, i) && !(peer_commitments@[i].commitment.height
                            == plan.checkpoint_height && header_matches(
                            peer_commitments@[i].commitment,
                            header_chain@,
                        ))
                },
            },
    {
        let ghost answers = peer_commitments@;
        let consensus = match self.peer_consensus.find_consensus(peer_commitments) {
            Ok(c) => c,
            Err(e) => {
                return Err(e);
            },
        };
        proof {
            let i = choose|i: int| #[trigger] first_majority(answers, i) && consensus.commitment == answers[i].commitment;
            assert(first_majority(answers, i));
            assert(has_majority(answers, i));
        }
        if consensus.commitment.height != plan.checkpoint_height {
            return Err(UtxoCommitmentError::CheckpointHeaderMismatch);
        }
        match self.peer_consensus.verify_consensus_commitment(&consensus, header_chain) {
            Ok(_) => Ok(consensus.commitment),
            Err(e) => Err(e),
        }
    }

    /// Rebuilds the tree from a downloaded set and checks it against the
    /// agreed commitment.
    ///
    /// Succeeds exactly where the root of the rebuilt tree and its number
    /// of entries are those of the commitment; fails with `RootMismatch`
    /// otherwise.
    pub fn rebuild_and_verify(&self, entries: &[UtxoEntry], commitment: &UtxoCommitment) -> (r: Result<
        UtxoMerkleTree,
        UtxoCommitmentError,
    >)
        ensures
            match r {
                Ok(tree) => tree@ == built_spec(entries@, entries@.len() as int),
                Err(e) => e == UtxoCommitmentError::RootMismatch,
            },
            r is Ok <==> commitment.root@ == commitment_root(built_spec(entries@, entries@.len() as int))
                && commitment.utxo_count == recorded_count(
                built_spec(entries@, entries@.len() as int).dom().len(),
            ),
    {
        let mut tree = UtxoMerkleTree::new();
        let mut i: usize = 0;
        while i < entries.len()
            invariant
                i <= entries@.len(),
                tree@ == built_spec(entries@, i as int),
            decreases entries@.len() - i,
        {
            tree.insert_entry(entries[i].duplicate());
            i += 1;
        }
        let root = tree.root();
        if hash_eq(&root, &commitment.root) && tree.utxo_count() == commitment.utxo_count {
            Ok(tree)
        } else {
            Err(UtxoCommitmentError::RootMismatch)
        }
    }

    /// Replays the transactions of a block into the tree, noting every change.
    fn replay_block(
        &self,
        utxo_tree: &mut UtxoMerkleTree,
        block_height: Natural,
        block_transactions: &[Transaction],
        journal: &mut Vec<TreeChange>,
    ) -> (summary: SpamSummary)
        ensures
            tree_rollback_spec(final(utxo_tree)@, final(journal)@) == tree_rollback_spec(
                old(utxo_tree)@,
                old(journal)@,
            ),
            ({
                let end = replay(
                    self.filter_config(),
                    old(utxo_tree)@,
                    txs_view(block_transactions@),
                    block_height,
                    block_transactions@.len() as int,
                );
                &&& final(utxo_tree)@ == end.set
                &&& summary.total == block_transactions@.len()
                &&& summary.kept == end.kept
                &&& summary.filtered_op_return == end.op_return
                &&& summary.filtered_low_fee == end.low_fee
            }),
    {
        let ghost views = txs_view(block_transactions@);
        let ghost start = utxo_tree@;
        let mut kept: usize = 0;
        let mut op_return: usize = 0;
        let mut low_fee: usize = 0;
        let mut i: usize = 0;
        while i < block_transactions.len()
            invariant
                i <= block_transactions@.len(),
                views == txs_view(block_transactions@),
                start == old(utxo_tree)@,
                kept + op_return + low_fee == i,
                tree_rollback_spec(utxo_tree@, journal@) == tree_rollback_spec(old(utxo_tree)@, old(journal)@),
                utxo_tree@ == replay(self.filter_config(), start, views, block_height, i as int).set,
                kept == replay(self.filter_config(), start, views, block_height, i as int).kept,
                op_return == replay(self.filter_config(), start, views, block_height, i as int).op_return,
                low_fee == replay(self.filter_config(), start, views, block_height, i as int).low_fee,
            decreases block_transactions@.len() - i,
        {
            let tx = &block_transactions[i];
            assert(views[i as int] == tx@);
            let fee = tree_fee(utxo_tree, tx);
            match self.spam_filter.classify(tx, fee) {
                None => {
                    replay_transaction(utxo_tree, tx, block_height, journal);
                    kept += 1;
                },
                Some(SpamKind::OpReturnOnly) => {
                    op_return += 1;
                },
                Some(SpamKind::LowFee) => {
                    low_fee += 1;
                },
            }
            i += 1;
        }
        SpamSummary {
            total: block_transactions.len(),
            kept,
            filtered_op_return: op_return,
            filtered_low_fee: low_fee,
        }
    }

    /// Replays the transactions of a block at `block_height` into the tree.
    ///
    /// Each transaction, in order, is judged by the filter, with its fee
    /// against the tree as it then is; one that is not left out is
    /// replayed. Gives the counts of the filter and the new root. There is
    /// no error.
    pub fn process_filtered_block(
        &self,
        utxo_tree: &mut UtxoMerkleTree,
        block_height: Natural,
        block_transactions: &[Transaction],
    ) -> (r: Result<(SpamSummary, [u8; 32]), UtxoCommitmentError>)
        ensures
            r is Ok,
            ({
                let end = replay(
                    self.filter_config(),
                    old(utxo_tree)@,
                    txs_view(block_transactions@),
                    block_height,
                    block_transactions@.len() as int,
                );
                &&& final(utxo_tree)@ == end.set
                &&& r->Ok_0.0.total == block_transactions@.len()
                &&& r->Ok_0.0.kept == end.kept
                &&& r->Ok_0.0.filtered_op_return == end.op_return
                &&& r->Ok_0.0.filtered_low_fee == end.low_fee
                &&& r->Ok_0.1@ == commitment_root(end.set)
            }),
    {
        let mut journal: Vec<TreeChange> = Vec::new();
        let summary = self.replay_block(utxo_tree, block_height, block_transactions, &mut journal);
        let root = utxo_tree.root();
        Ok((summary, root))
    }

    /// Replays the transactions of a block at `block_height` into the
    /// tree, as [`InitialSync::process_filtered_block`] does, and holds the
    /// root that comes of it against the commitment that the block carries.
    ///
    /// Where the roots differ, the result is `RootMismatch` and the tree is
    /// left exactly as it was: every change is taken back.
    pub fn process_committed_block(
        &self,
        utxo_tree: &mut UtxoMerkleTree,
        block_height: Natural,
        block_transactions: &[Transaction],
        expected_root: &[u8; 32],
    ) -> (r: Result<(SpamSummary, [u8; 32]), UtxoCommitmentError>)
        ensures
            ({
                let end = replay(
                    self.filter_config(),
                    old(utxo_tree)@,
                    txs_view(block_transactions@),
                    block_height,
                    block_transactions@.len() as int,
                );
                match r {
                    Ok((summary, root)) => {
                        &&& commitment_root(end.set) == expected_root@
                        &&& final(utxo_tree)@ == end.set
                        &&& root == *expected_root
                        &&& summary.total == block_transactions@.len()
                        &&& summary.kept == end.kept
                        &&& summary.filtered_op_return == end.op_return
                        &&& summary.filtered_low_fee == end.low_fee
                    },
                    Err(e) => {
                        &&& commitment_root(end.set) != expected_root@
                        &&& e == UtxoCommitmentError::RootMismatch
                        &&& final(utxo_tree)@ == old(utxo_tree)@
                    },
                }
            }),
    {
        let mut journal: Vec<TreeChange> = Vec::new();
        let summary = self.replay_block(utxo_tree, block_height, block_transactions, &mut journal);
        let root = utxo_tree.root();
        if hash_eq(&root, expected_root) {
            Ok((summary, root))
        } else {
            tree_rollback(utxo_tree, &mut journal);
            Err(UtxoCommitmentError::RootMismatch)
        }
    }
}

} // verus!
