//! Choosing between chains, and moving the set of unspent outputs from one
//! chain to another.
//!
//! The chain with more work is kept. To move to another chain, the blocks
//! of the current chain above the last block that both chains hold are
//! disconnected, the tip first, and the blocks of the new chain above it
//! are connected. If a block of the new chain cannot be connected, every
//! change is taken back.

use vstd::prelude::*;
use vstd::arithmetic::div_mod::lemma_div_plus_one;
use crate::block::{apply_block, block_ops, connect_spec, connect_undo, disconnect_spec, held_after, lemma_disconnect_after_connect, lemma_run_contents, lemma_run_prefix, rollback, run_ops, UtxoOp, rollback_spec, unapply_block, undo_fits, undo_matches, BlockUndo, JournalEntry, SpentView};
use crate::bytes::{hash_eq, lemma_pow256_grows, pow256};
use crate::error::{ConsensusError, PowError, RuleViolation};
use crate::serialization::block::{block_hash_spec, compute_block_hash, header_eq};
use crate::types::{chain_view, Block, BlockHeader, BlockView, Natural, OutPoint};
use crate::utxo_set::{CoinView, UtxoSet};

pub use crate::block::{calculate_tx_id, disconnect_block};

verus! {

/// The target that a compact form stands for: a mantissa of 24 bits times
/// 256 to the power of the exponent less 3. `None` where the exponent is 16
/// or more: such a target has more than 128 bits.
pub open spec fn target_spec(bits: u32) -> Option<nat> {
    let exponent = (bits / 0x100_0000) as nat;
    let mantissa = (bits % 0x100_0000) as nat;
    if exponent <= 3 {
        Some(mantissa / pow256((3 - exponent) as nat))
    } else if exponent >= 16 {
        None
    } else {
        Some(mantissa * pow256((exponent - 3) as nat))
    }
}

/// The target that a compact form stands for, whatever its size: a
/// mantissa of 24 bits times 256 to the power of the exponent less 3.
pub open spec fn full_target_spec(bits: u32) -> nat {
    let exponent = (bits / 0x100_0000) as nat;
    let mantissa = (bits % 0x100_0000) as nat;
    if exponent <= 3 {
        mantissa / pow256((3 - exponent) as nat)
    } else {
        mantissa * pow256((exponent - 3) as nat)
    }
}

/// Where a compact form stands for a target of at most 128 bits, that is
/// its target whatever its size.
pub proof fn lemma_full_target(bits: u32)
    ensures
        target_spec(bits) is Some ==> target_spec(bits)->Some_0 == full_target_spec(bits),
{
}

/// The work of a header with the given target: `2^128 / (target + 1)`,
/// rounded down.
pub open spec fn work_spec(target: nat) -> nat {
    pow256(16) / (target + 1)
}

/// The work of the blocks from index `from` on, added to `sum`, or the
/// first error on the way: a target of more than 128 bits, or a sum that
/// does not fit in 128 bits.
pub open spec fn chain_work_from(chain: Seq<BlockView>, from: int, sum: nat) -> Result<nat, PowError>
    decreases chain.len() - from,
{
    if from < 0 || from >= chain.len() {
        Ok(sum)
    } else {
        match target_spec(chain[from].header.bits) {
            None => Err(PowError::TargetTooLarge),
            Some(target) => if sum + work_spec(target) > u128::MAX {
                Err(PowError::WorkOverflow)
            } else {
                chain_work_from(chain, from + 1, sum + work_spec(target))
            },
        }
    }
}

/// The work of a chain: the sum of the work of its headers.
pub open spec fn chain_work_spec(chain: Seq<BlockView>) -> Result<nat, PowError> {
    chain_work_from(chain, 0, 0)
}

proof fn lemma_pow256_small(n: nat)
    requires
        n <= 16,
    ensures
        pow256(n) <= pow256(16),
        pow256(12) == 0x1_0000_0000_0000_0000_0000_0000,
        pow256(16) == 0x1_0000_0000_0000_0000_0000_0000_0000_0000,
        n <= 12 ==> pow256(n) <= pow256(12),
        n >= 1 ==> pow256(n) == 256 * pow256((n - 1) as nat),
        pow256(0) == 1,
        pow256(1) == 256,
        pow256(2) == 0x1_0000,
        pow256(3) == 0x100_0000,
{
    reveal_with_fuel(pow256, 17);
}

/// Expands the compact form of a target.
///
/// Fails, with `TargetTooLarge`, exactly where the exponent, the top byte,
/// is 16 or more.
pub fn expand_target(bits: Natural) -> (r: Result<u128, ConsensusError>)
    ensures
        match r {
            Ok(t) => target_spec(bits) == Some(t as nat),
            Err(e) => target_spec(bits) is None && e == ConsensusError::InvalidProofOfWork(
                PowError::TargetTooLarge,
            ),
        },
{
    let exponent: u32 = bits / 0x100_0000;
    let mantissa: u32 = bits % 0x100_0000;
    proof {
        lemma_pow256_small(0);
    }
    if exponent <= 3 {
        let t: u32 = if exponent == 3 {
            assert(mantissa as nat / pow256(0) == mantissa as nat);
            mantissa
        } else if exponent == 2 {
            mantissa / 0x100
        } else if exponent == 1 {
            mantissa / 0x1_0000
        } else {
            mantissa / 0x100_0000
        };
        assert(t as nat == (mantissa as nat) / pow256((3 - exponent) as nat));
        Ok(t as u128)
    } else if exponent >= 16 {
        Err(ConsensusError::InvalidProofOfWork(PowError::TargetTooLarge))
    } else {
        let mut t: u128 = mantissa as u128;
        let mut i: u32 = 0;
        while i < exponent - 3
            invariant
                3 < exponent < 16,
                i <= exponent - 3,
                mantissa < 0x100_0000,
                t as nat == (mantissa as nat) * pow256(i as nat),
            decreases exponent - 3 - i,
        {
            proof {
                lemma_pow256_small((i + 1) as nat);
                assert((mantissa as nat) * pow256((i + 1) as nat) <= 0xff_ffff * pow256(12))
                    by (nonlinear_arith)
                    requires
                        (mantissa as nat) <= 0xff_ffff,
                        pow256((i + 1) as nat) <= pow256(12),
                ;
                assert((mantissa as nat) * pow256((i + 1) as nat) == 256 * ((mantissa as nat) * pow256(
                    i as nat,
                ))) by (nonlinear_arith)
                    requires
                        pow256((i + 1) as nat) == 256 * pow256(i as nat),
                ;
            }
            t = t * 256;
            i += 1;
        }
        assert(t as nat == (mantissa as nat) * pow256((exponent - 3) as nat));
        Ok(t)
    }
}

/// The work of a header with the given target, or `None` where it does not
/// fit in 128 bits: that is so for the target 0 alone.
pub fn header_work(target: u128) -> (r: Option<u128>)
    ensures
        match r {
            Some(w) => w as nat == work_spec(target as nat),
            None => work_spec(target as nat) > u128::MAX,
        },
{
    proof {
        lemma_pow256_small(16);
    }
    if target == 0 {
        assert(pow256(16) / 1 == pow256(16));
        None
    } else if target == u128::MAX {
        assert(pow256(16) / pow256(16) == 1);
        Some(1)
    } else {
        proof {
            let d = (target + 1) as int;
            let x = (u128::MAX - target) as int;
            lemma_div_plus_one(x, d);
            assert(d + x == pow256(16));
            assert(x / d <= x) by (nonlinear_arith)
                requires
                    x >= 0,
                    d >= 1,
            ;
        }
        let w = (u128::MAX - target) / (target + 1) + 1;
        Some(w)
    }
}

/// The total work of a chain: the sum of the work of its headers.
///
/// Fails with the first error on the way: `TargetTooLarge` for a header
/// whose compact target does not expand, `WorkOverflow` where the sum does
/// not fit in 128 bits.
pub fn calculate_chain_work(chain: &[Block]) -> (r: Result<u128, ConsensusError>)
    ensures
        match r {
            Ok(w) => chain_work_spec(chain_view(chain@)) == Ok::<nat, PowError>(w as nat),
            Err(e) => chain_work_spec(chain_view(chain@)) is Err && e == ConsensusError::InvalidProofOfWork(
                chain_work_spec(chain_view(chain@))->Err_0,
            ),
        },
        r is Ok ==> r->Ok_0 == total_work(chain_view(chain@)),
{
    let mut total: u128 = 0;
    let mut i: usize = 0;
    while i < chain.len()
        invariant
            i <= chain@.len(),
            chain_work_from(chain_view(chain@), i as int, total as nat) == chain_work_spec(chain_view(chain@)),
        decreases chain@.len() - i,
    {
        assert(chain_view(chain@)[i as int] == chain@[i as int]@);
        let target = match expand_target(chain[i].header.bits) {
            Ok(t) => t,
            Err(e) => {
                return Err(e);
            },
        };
        let work = match header_work(target) {
            Some(w) => w,
            None => {
                return Err(ConsensusError::InvalidProofOfWork(PowError::WorkOverflow));
            },
        };
        total = match total.checked_add(work) {
            Some(sum) => sum,
            None => {
                return Err(ConsensusError::InvalidProofOfWork(PowError::WorkOverflow));
            },
        };
        i += 1;
    }
    proof {
        lemma_chain_work_is_total(chain_view(chain@), 0, 0);
    }
    Ok(total)
}

/// The work of a header whose compact target is `bits`, whatever the size
/// of the target: of a target of more than 128 bits it is 0, of the target
/// 0 it is `2^128`.
pub open spec fn bits_work(bits: u32) -> nat {
    work_spec(full_target_spec(bits))
}

/// The work of the first `n` headers of a chain, added up.
pub open spec fn work_up_to(chain: Seq<BlockView>, n: int) -> nat
    decreases n,
{
    if n <= 0 {
        0
    } else {
        work_up_to(chain, n - 1) + bits_work(chain[n - 1].header.bits)
    }
}

/// The work of a chain: the sum of the work of its headers, whatever its
/// size.
pub open spec fn total_work(chain: Seq<BlockView>) -> nat {
    work_up_to(chain, chain.len() as int)
}

/// Where the work of a chain fits in 128 bits and every target does, it is
/// the sum of the work of its headers.
pub proof fn lemma_chain_work_is_total(chain: Seq<BlockView>, from: int, sum: nat)
    requires
        0 <= from <= chain.len(),
        chain_work_from(chain, from, sum) is Ok,
    ensures
        chain_work_from(chain, from, sum)->Ok_0 + work_up_to(chain, from) == sum + total_work(chain),
    decreases chain.len() - from,
{
    if from < chain.len() {
        let target = target_spec(chain[from].header.bits)->Some_0;
        lemma_full_target(chain[from].header.bits);
        lemma_chain_work_is_total(chain, from + 1, sum + work_spec(target));
    }
}

/// A number of up to 256 bits: `high` times `2^128`, and `low`.
struct WideWork {
    high: u128,
    low: u128,
}

impl WideWork {
    /// The number.
    spec fn value(self) -> nat {
        self.high as nat * pow256(16) + self.low as nat
    }
}

/// The work of a header whose compact target is `bits`.
fn work_of_bits(bits: Natural) -> (w: WideWork)
    ensures
        w.value() == bits_work(bits),
        w.high <= 1,
        w.high == 1 ==> w.low == 0,
{
    let exponent: u32 = bits / 0x100_0000;
    let mantissa: u32 = bits % 0x100_0000;
    proof {
        lemma_pow256_small(0);
    }
    let mut target: u128 = mantissa as u128;
    if exponent <= 3 {
        let t: u32 = if exponent == 3 {
            assert(mantissa as nat / pow256(0) == mantissa as nat);
            mantissa
        } else if exponent == 2 {
            mantissa / 0x100
        } else if exponent == 1 {
            mantissa / 0x1_0000
        } else {
            mantissa / 0x100_0000
        };
        target = t as u128;
    } else {
        let mut i: u32 = 0;
        while i < exponent - 3
            invariant
                3 < exponent <= 255,
                exponent == bits / 0x100_0000,
                mantissa == bits % 0x100_0000,
                i <= exponent - 3,
                target as nat == (mantissa as nat) * pow256(i as nat),
            decreases exponent - 3 - i,
        {
            proof {
                lemma_pow256_grows((i + 1) as nat, (exponent - 3) as nat);
                lemma_pow256_small(16);
                assert((mantissa as nat) * pow256((i + 1) as nat) == 256 * ((mantissa as nat) * pow256(
                    i as nat,
                ))) by (nonlinear_arith)
                    requires
                        pow256((i + 1) as nat) == 256 * pow256(i as nat),
                ;
            }
            if target > u128::MAX / 256 {
                proof {
                    let full = full_target_spec(bits);
                    assert(full >= (mantissa as nat) * pow256((i + 1) as nat)) by (nonlinear_arith)
                        requires
                            full == (mantissa as nat) * pow256((exponent - 3) as nat),
                            pow256((i + 1) as nat) <= pow256((exponent - 3) as nat),
                    ;
                    assert(pow256(16) / (full + 1) == 0) by (nonlinear_arith)
                        requires
                            full >= pow256(16),
                    ;
                }
                return WideWork { high: 0, low: 0 };
            }
            target = target * 256;
            i += 1;
        }
    }
    assert(target as nat == full_target_spec(bits));
    match header_work(target) {
        Some(w) => WideWork { high: 0, low: w },
        None => {
            proof {
                lemma_pow256_small(16);
                let d = target as nat + 1;
                assert(pow256(16) / d <= pow256(16)) by (nonlinear_arith)
                    requires
                        d >= 1,
                ;
            }
            WideWork { high: 1, low: 0 }
        },
    }
}

/// The sum of a number and the work of a header.
fn add_work(sum: WideWork, w: WideWork) -> (r: WideWork)
    requires
        sum.high < u128::MAX,
        w.high <= 1,
        w.high == 1 ==> w.low == 0,
    ensures
        r.value() == sum.value() + w.value(),
        r.high <= sum.high + 1,
{
    proof {
        lemma_pow256_small(16);
        assert((sum.high + w.high) as nat * pow256(16) == sum.high as nat * pow256(16) + w.high as nat * pow256(16))
            by (nonlinear_arith);
        assert((sum.high + 1) as nat * pow256(16) == sum.high as nat * pow256(16) + pow256(16)) by (nonlinear_arith);
    }
    match sum.low.checked_add(w.low) {
        Some(low) => WideWork { high: sum.high + w.high, low },
        None => WideWork { high: sum.high + 1, low: sum.low - (u128::MAX - w.low) - 1 },
    }
}

/// The work of a chain.
fn wide_chain_work(chain: &[Block]) -> (r: WideWork)
    ensures
        r.value() == total_work(chain_view(chain@)),
{
    let mut sum = WideWork { high: 0, low: 0 };
    let mut i: usize = 0;
    while i < chain.len()
        invariant
            i <= chain@.len(),
            sum.high <= i,
            sum.value() == work_up_to(chain_view(chain@), i as int),
        decreases chain@.len() - i,
    {
        assert(chain_view(chain@)[i as int] == chain@[i as int]@);
        let w = work_of_bits(chain[i].header.bits);
        sum = add_work(sum, w);
        i += 1;
    }
    sum
}

/// Whether the first number is the larger one.
fn more_work(a: &WideWork, b: &WideWork) -> (r: bool)
    ensures
        r == (a.value() > b.value()),
{
    proof {
        lemma_pow256_small(16);
        let p = pow256(16);
        let (ah, bh) = (a.high as nat, b.high as nat);
        assert(ah > bh ==> ah * p >= bh * p + p) by (nonlinear_arith);
        assert(ah < bh ==> ah * p + p <= bh * p) by (nonlinear_arith);
    }
    a.high > b.high || (a.high == b.high && a.low > b.low)
}

/// Whether the new chain is to replace the current one: exactly where it
/// has more work, whatever the lengths of the two chains. With equal work
/// the current chain, seen first, stays.
///
/// The work is added up without a limit: a header with the target 0 counts
/// `2^128`, one with a target of more than 128 bits counts 0. The answer
/// is always `Ok`.
pub fn should_reorganize(new_chain: &[Block], current_chain: &[Block]) -> (r: Result<bool, ConsensusError>)
    ensures
        r == Ok::<bool, ConsensusError>(
            total_work(chain_view(new_chain@)) > total_work(chain_view(current_chain@)),
        ),
{
    let new_work = wide_chain_work(new_chain);
    let current_work = wide_chain_work(current_chain);
    Ok(more_work(&new_work, &current_work))
}

/// What a reorganization did.
#[derive(Debug)]
pub struct ReorganizationResult {
    /// The height of the new tip.
    pub new_height: Natural,
    /// The header of the last block that both chains hold.
    pub common_ancestor: BlockHeader,
    /// The blocks that were disconnected, the old tip first.
    pub disconnected_blocks: Vec<Block>,
    /// The blocks that were connected, in the order of the chain.
    pub connected_blocks: Vec<Block>,
    /// For each connected block, the record of what it spent.
    pub connected_undo: Vec<BlockUndo>,
    /// The number of blocks that were disconnected.
    pub reorganization_depth: usize,
}

/// The highest index below `k` at which both chains hold the same header.
pub open spec fn common_index(new_chain: Seq<BlockView>, current: Seq<BlockView>, k: int) -> Option<int>
    decreases k,
{
    if k <= 0 || k > new_chain.len() || k > current.len() {
        None
    } else if new_chain[k - 1].header == current[k - 1].header {
        Some(k - 1)
    } else {
        common_index(new_chain, current, k - 1)
    }
}

/// Whether every block above index `a` names the hash of the block before it.
pub open spec fn linked_above(chain: Seq<BlockView>, a: int) -> bool {
    forall|k: int|
        a < k < chain.len() ==> (#[trigger] chain[k]).header.prev_block_hash == block_hash_spec(
            chain[k - 1].header,
        )
}

/// The shorter of two lengths.
pub open spec fn shorter(a: nat, b: nat) -> int {
    if a <= b {
        a as int
    } else {
        b as int
    }
}

/// The index of the common ancestor of two chains that start at the same
/// height: the highest index at which both hold the same header, reached by
/// walking back from both tips along the hashes of the previous blocks.
/// There is none where a chain is empty, where no index holds the same
/// header in both, or where the walk meets a block that does not name the
/// hash of the one before it.
pub open spec fn ancestor_spec(new_chain: Seq<BlockView>, current: Seq<BlockView>) -> Result<int, RuleViolation> {
    if new_chain.len() == 0 || current.len() == 0 {
        Err(RuleViolation::EmptyChain)
    } else {
        match common_index(new_chain, current, shorter(new_chain.len(), current.len())) {
            None => Err(RuleViolation::NoCommonAncestor),
            Some(a) => if linked_above(new_chain, a) && linked_above(current, a) {
                Ok(a)
            } else {
                Err(RuleViolation::NoCommonAncestor)
            },
        }
    }
}

/// The views of a list of records.
pub open spec fn undo_views(undo: Seq<BlockUndo>) -> Seq<Seq<SpentView>> {
    Seq::new(undo.len(), |i: int| undo[i]@)
}

/// Whether the record of every block above index `a` is there and matches
/// its block: the record of the block at index `k` stands at index `k` of
/// the list. Of the blocks up to the ancestor no record is asked. `base` is
/// the height of the first block.
pub open spec fn undo_usable(current: Seq<BlockView>, undo: Seq<Seq<SpentView>>, base: int, a: int) -> bool {
    &&& a + 1 < current.len() ==> current.len() <= undo.len()
    &&& forall|k: int|
        a < k < current.len() ==> undo_matches(
            (#[trigger] current[k]).transactions,
            (base + k) as u32,
            undo[k],
        )
}

/// The set after the blocks above index `a` and below index `k` are
/// disconnected, the highest first.
pub open spec fn disconnect_chain(
    m: Map<OutPoint, CoinView>,
    current: Seq<BlockView>,
    undo: Seq<Seq<SpentView>>,
    base: int,
    a: int,
    k: int,
) -> Map<OutPoint, CoinView>
    decreases k - a,
{
    if k <= a + 1 || k > current.len() {
        m
    } else {
        disconnect_chain(
            disconnect_spec(m, current[k - 1].transactions, (base + k - 1) as u32, undo[k - 1]),
            current,
            undo,
            base,
            a,
            k - 1,
        )
    }
}

/// The set after the blocks from index `from` on are connected, or the
/// index of the first that cannot be.
pub open spec fn connect_chain(m: Map<OutPoint, CoinView>, new_chain: Seq<BlockView>, base: int, from: int) -> Result<
    Map<OutPoint, CoinView>,
    int,
>
    decreases new_chain.len() - from,
{
    if from < 0 || from >= new_chain.len() {
        Ok(m)
    } else {
        match connect_spec(m, new_chain[from].transactions, (base + from) as u32) {
            None => Err(from),
            Some(after) => connect_chain(after, new_chain, base, from + 1),
        }
    }
}

/// The records of what the blocks from index `from` on spend when they are
/// connected, one for each block.
pub open spec fn connect_chain_undo(m: Map<OutPoint, CoinView>, new_chain: Seq<BlockView>, base: int, from: int) -> Seq<
    Seq<SpentView>,
>
    decreases new_chain.len() - from,
{
    if from < 0 || from >= new_chain.len() {
        Seq::<Seq<SpentView>>::empty()
    } else {
        match connect_spec(m, new_chain[from].transactions, (base + from) as u32) {
            None => Seq::<Seq<SpentView>>::empty(),
            Some(after) => seq![connect_undo(m, new_chain[from].transactions, (base + from) as u32)]
                + connect_chain_undo(after, new_chain, base, from + 1),
        }
    }
}

/// The outcome of a reorganization that goes through.
pub ghost struct ReorgView {
    /// The set of unspent outputs afterwards.
    pub set: Map<OutPoint, CoinView>,
    /// The height of the new tip.
    pub new_height: u32,
    /// The index of the common ancestor in both chains.
    pub ancestor: int,
    /// The records of what the connected blocks spent.
    pub connected_undo: Seq<Seq<SpentView>>,
}

/// What a reorganization from the chain `current`, whose tip is at
/// `current_height`, to `new_chain` gives. Both chains start at the same
/// height, `base`, which is below 0 where the chains are longer than the
/// height of the tip: that is in order as long as the common ancestor is
/// not below height 0. The checks come in this order: the common ancestor
/// is found; no more blocks are to be disconnected than the height of the
/// tip allows; the height of the new tip fits in 32 bits; the undo records
/// are usable. Then the blocks of
/// the current chain above the ancestor are disconnected, the tip first,
/// and those of the new chain above it are connected; the first that cannot
/// be connected makes the whole fail.
pub open spec fn reorg_spec(
    new_chain: Seq<BlockView>,
    current: Seq<BlockView>,
    undo: Seq<Seq<SpentView>>,
    m: Map<OutPoint, CoinView>,
    current_height: u32,
) -> Result<ReorgView, RuleViolation> {
    match ancestor_spec(new_chain, current) {
        Err(v) => Err(v),
        Ok(a) => {
            let base = current_height - (current.len() - 1);
            if current.len() - 1 - a > current_height {
                Err(RuleViolation::DepthExceedsHeight)
            } else if base + new_chain.len() - 1 > u32::MAX {
                Err(RuleViolation::HeightOverflow)
            } else if !undo_usable(current, undo, base, a) {
                Err(RuleViolation::MissingUndo)
            } else {
                let low = disconnect_chain(m, current, undo, base, a, current.len() as int);
                match connect_chain(low, new_chain, base, a + 1) {
                    Err(k) => Err(RuleViolation::InvalidBlock { index: k as usize }),
                    Ok(after) => Ok(
                        ReorgView {
                            set: after,
                            new_height: (base + new_chain.len() - 1) as u32,
                            ancestor: a,
                            connected_undo: connect_chain_undo(low, new_chain, base, a + 1),
                        },
                    ),
                }
            }
        },
    }
}

/// A reorganization to a chain of the same length whose tip is the tip of
/// the current chain goes through and changes nothing, whatever the
/// records are: the set and the height stay, the common ancestor is the
/// tip, and nothing is connected.
pub proof fn lemma_same_tip_changes_nothing(
    new_chain: Seq<BlockView>,
    current: Seq<BlockView>,
    undo: Seq<Seq<SpentView>>,
    m: Map<OutPoint, CoinView>,
    current_height: u32,
)
    requires
        current.len() > 0,
        new_chain.len() == current.len(),
        new_chain.last().header == current.last().header,
    ensures
        reorg_spec(new_chain, current, undo, m, current_height) == Ok::<ReorgView, RuleViolation>(
            (ReorgView {
                set: m,
                new_height: current_height,
                ancestor: current.len() - 1,
                connected_undo: Seq::<Seq<SpentView>>::empty(),
            }),
        ),
        reversed_above(current, current.len() - 1) == Seq::<BlockView>::empty(),
        new_chain.subrange(current.len() as int, new_chain.len() as int) == Seq::<BlockView>::empty(),
{
    assert(reversed_above(current, current.len() - 1) =~= Seq::<BlockView>::empty());
    assert(new_chain.subrange(current.len() as int, new_chain.len() as int) =~= Seq::<BlockView>::empty());
}

/// Below the first index from the top at which two chains hold the same
/// header, the search for it finds that index.
proof fn lemma_common_index(new_chain: Seq<BlockView>, current: Seq<BlockView>, a: int, k: int)
    requires
        0 <= a < k,
        k <= new_chain.len(),
        k <= current.len(),
        new_chain[a].header == current[a].header,
        forall|i: int| a < i < k ==> (#[trigger] new_chain[i]).header != current[i].header,
    ensures
        common_index(new_chain, current, k) == Some(a),
    decreases k,
{
    if k > a + 1 {
        lemma_common_index(new_chain, current, a, k - 1);
    }
}

/// The common ancestor is the fork point: where both chains hold the same
/// header at index `a` and different ones at every index above it that
/// both have, and every block above `a` names the block before it, the
/// common ancestor is at `a`.
pub proof fn lemma_fork_point(new_chain: Seq<BlockView>, current: Seq<BlockView>, a: int)
    requires
        0 <= a < new_chain.len(),
        a < current.len(),
        new_chain[a].header == current[a].header,
        forall|i: int|
            a < i < new_chain.len() && i < current.len() ==> (#[trigger] new_chain[i]).header != current[i].header,
        linked_above(new_chain, a),
        linked_above(current, a),
    ensures
        ancestor_spec(new_chain, current) == Ok::<int, RuleViolation>(a),
{
    lemma_common_index(new_chain, current, a, shorter(new_chain.len(), current.len()));
}

/// Disconnecting down to one block lower is disconnecting that block last.
proof fn lemma_disconnect_lowest(
    m: Map<OutPoint, CoinView>,
    current: Seq<BlockView>,
    undo: Seq<Seq<SpentView>>,
    base: int,
    a: int,
    k: int,
)
    requires
        0 <= a,
        a + 1 < k <= current.len(),
    ensures
        disconnect_chain(m, current, undo, base, a, k) == disconnect_spec(
            disconnect_chain(m, current, undo, base, a + 1, k),
            current[a + 1].transactions,
            (base + a + 1) as u32,
            undo[a + 1],
        ),
    decreases k,
{
    if k == a + 2 {
        let lower = disconnect_spec(m, current[k - 1].transactions, (base + k - 1) as u32, undo[k - 1]);
        assert(disconnect_chain(m, current, undo, base, a, k) == disconnect_chain(lower, current, undo, base, a, k - 1));
        assert(disconnect_chain(lower, current, undo, base, a, k - 1) == lower);
        assert(disconnect_chain(m, current, undo, base, a + 1, k) == m);
    } else {
        lemma_disconnect_lowest(
            disconnect_spec(m, current[k - 1].transactions, (base + k - 1) as u32, undo[k - 1]),
            current,
            undo,
            base,
            a,
            k - 1,
        );
    }
}

/// Whether `undo` holds, at the index of every block above index `a`, the
/// record that connecting the block made on the way from the set `s`.
pub open spec fn undo_made_by(
    s: Map<OutPoint, CoinView>,
    current: Seq<BlockView>,
    undo: Seq<Seq<SpentView>>,
    base: int,
    a: int,
) -> bool {
    &&& current.len() <= undo.len()
    &&& forall|k: int|
        a < k < current.len() ==> #[trigger] undo[k] == connect_chain_undo(s, current, base, a + 1)[k - a - 1]
}

/// Disconnecting undoes connecting, along a whole chain: where the blocks
/// of the current chain above index `a` were connected to the set `s`, and
/// the records are those that connecting them made, the records are usable
/// and disconnecting those blocks, the tip first, gives back `s`.
pub proof fn lemma_disconnect_chain_restores(
    s: Map<OutPoint, CoinView>,
    current: Seq<BlockView>,
    undo: Seq<Seq<SpentView>>,
    base: int,
    a: int,
)
    requires
        0 <= a < current.len(),
        connect_chain(s, current, base, a + 1) is Ok,
        undo_made_by(s, current, undo, base, a),
    ensures
        undo_usable(current, undo, base, a),
        disconnect_chain(
            connect_chain(s, current, base, a + 1)->Ok_0,
            current,
            undo,
            base,
            a,
            current.len() as int,
        ) == s,
    decreases current.len() - a,
{
    if a + 1 < current.len() {
        let txs = current[a + 1].transactions;
        let height = (base + a + 1) as u32;
        let next = connect_spec(s, txs, height)->Some_0;
        let made = connect_chain_undo(s, current, base, a + 1);
        let rest = connect_chain_undo(next, current, base, a + 2);
        assert(made == seq![connect_undo(s, txs, height)] + rest);
        assert(undo[a + 1] == made[0]);
        assert forall|k: int| a + 1 < k < current.len() implies #[trigger] undo[k] == rest[k - a - 2] by {
            assert(undo[k] == made[k - a - 1]);
            lemma_undo_count(next, current, base, a + 2);
            assert(made[k - a - 1] == rest[k - a - 2]);
        }
        lemma_disconnect_chain_restores(next, current, undo, base, a + 1);
        lemma_disconnect_after_connect(s, txs, height);
        let m = connect_chain(s, current, base, a + 1)->Ok_0;
        assert(connect_chain(s, current, base, a + 1) == connect_chain(next, current, base, a + 2));
        lemma_disconnect_lowest(m, current, undo, base, a, current.len() as int);
        assert(disconnect_chain(m, current, undo, base, a + 1, current.len() as int) == next);
        assert forall|k: int| a < k < current.len() implies undo_matches(
            (#[trigger] current[k]).transactions,
            (base + k) as u32,
            undo[k],
        ) by {
            if k > a + 1 {
                assert(undo_usable(current, undo, base, a + 1));
            }
        }
    }
}

/// Connecting a chain that goes through makes one record for each block.
proof fn lemma_undo_count(m: Map<OutPoint, CoinView>, chain: Seq<BlockView>, base: int, from: int)
    requires
        0 <= from <= chain.len(),
        connect_chain(m, chain, base, from) is Ok,
    ensures
        connect_chain_undo(m, chain, base, from).len() == chain.len() - from,
    decreases chain.len() - from,
{
    if from < chain.len() {
        lemma_undo_count(
            connect_spec(m, chain[from].transactions, (base + from) as u32)->Some_0,
            chain,
            base,
            from + 1,
        );
    }
}

/// After a reorganization the set is that of the new chain: where the set
/// was made by connecting the blocks of the current chain above the common
/// ancestor to the set `s`, with the records that this made, the
/// reorganization goes through exactly where the blocks of the new chain
/// above the ancestor can be connected to `s`, and the set is then what
/// connecting them to `s` gives. Of the blocks that were disconnected
/// nothing is left.
pub proof fn lemma_reorganization_follows_new_chain(
    new_chain: Seq<BlockView>,
    current: Seq<BlockView>,
    undo: Seq<Seq<SpentView>>,
    s: Map<OutPoint, CoinView>,
    current_height: u32,
)
    requires
        ancestor_spec(new_chain, current) is Ok,
        current_height >= current.len() - 1 - ancestor_spec(new_chain, current)->Ok_0,
        current_height - (current.len() - 1) + new_chain.len() - 1 <= u32::MAX,
        connect_chain(
            s,
            current,
            current_height - (current.len() - 1),
            ancestor_spec(new_chain, current)->Ok_0 + 1,
        ) is Ok,
        undo_made_by(
            s,
            current,
            undo,
            current_height - (current.len() - 1),
            ancestor_spec(new_chain, current)->Ok_0,
        ),
    ensures
        ({
            let a = ancestor_spec(new_chain, current)->Ok_0;
            let base = current_height - (current.len() - 1);
            let m = connect_chain(s, current, base, a + 1)->Ok_0;
            let outcome = reorg_spec(new_chain, current, undo, m, current_height);
            &&& outcome is Ok <==> connect_chain(s, new_chain, base, a + 1) is Ok
            &&& outcome is Ok ==> outcome->Ok_0.set == connect_chain(s, new_chain, base, a + 1)->Ok_0
                && outcome->Ok_0.new_height == base + new_chain.len() - 1 && outcome->Ok_0.ancestor == a
                && outcome->Ok_0.connected_undo == connect_chain_undo(s, new_chain, base, a + 1)
            &&& outcome is Err ==> outcome->Err_0 == RuleViolation::InvalidBlock {
                index: connect_chain(s, new_chain, base, a + 1)->Err_0 as usize,
            }
        }),
{
    let a = ancestor_spec(new_chain, current)->Ok_0;
    let base = current_height - (current.len() - 1);
    lemma_common_index_bound(new_chain, current, shorter(new_chain.len(), current.len()));
    lemma_disconnect_chain_restores(s, current, undo, base, a);
}

/// A reorganization at a fork. Where the two chains part above index `a`,
/// every block above it names the block before it, the height of the tip
/// allows for the blocks above `a`, the set is what connecting the blocks
/// of the current chain above `a` to the set `s` gave, with the records
/// that this made, and the blocks of the new chain above `a` can be
/// connected to `s`: the reorganization goes through, the common ancestor
/// is at `a`, the set is what connecting the blocks of the new chain to `s`
/// gives, and the new tip is as many blocks above the ancestor as the new
/// chain has above `a`.
pub proof fn lemma_reorganization_at_fork(
    new_chain: Seq<BlockView>,
    current: Seq<BlockView>,
    undo: Seq<Seq<SpentView>>,
    s: Map<OutPoint, CoinView>,
    current_height: u32,
    a: int,
)
    requires
        0 <= a < new_chain.len(),
        a < current.len(),
        new_chain[a].header == current[a].header,
        forall|i: int|
            a < i < new_chain.len() && i < current.len() ==> (#[trigger] new_chain[i]).header != current[i].header,
        linked_above(new_chain, a),
        linked_above(current, a),
        current_height >= current.len() - 1 - a,
        current_height - (current.len() - 1) + new_chain.len() - 1 <= u32::MAX,
        connect_chain(s, current, current_height - (current.len() - 1), a + 1) is Ok,
        undo_made_by(s, current, undo, current_height - (current.len() - 1), a),
        connect_chain(s, new_chain, current_height - (current.len() - 1), a + 1) is Ok,
    ensures
        ({
            let base = current_height - (current.len() - 1);
            let m = connect_chain(s, current, base, a + 1)->Ok_0;
            let outcome = reorg_spec(new_chain, current, undo, m, current_height);
            &&& outcome is Ok
            &&& outcome->Ok_0.set == connect_chain(s, new_chain, base, a + 1)->Ok_0
            &&& outcome->Ok_0.new_height == current_height - (current.len() - 1 - a) + (new_chain.len() - 1 - a)
            &&& outcome->Ok_0.ancestor == a
            &&& outcome->Ok_0.connected_undo == connect_chain_undo(s, new_chain, base, a + 1)
        }),
{
    lemma_fork_point(new_chain, current, a);
    lemma_reorganization_follows_new_chain(new_chain, current, undo, s, current_height);
}

/// The blocks that a reorganization at index `a` disconnects are those of
/// the current chain above `a`, the tip first; those that it connects are
/// those of the new chain above `a`, in order.
pub proof fn lemma_blocks_above(new_chain: Seq<BlockView>, current: Seq<BlockView>, a: int)
    requires
        0 <= a < new_chain.len(),
        a < current.len(),
    ensures
        reversed_above(current, a).len() == current.len() - 1 - a,
        forall|i: int|
            0 <= i < current.len() - 1 - a ==> #[trigger] reversed_above(current, a)[i] == current[current.len() - 1
                - i],
        new_chain.subrange(a + 1, new_chain.len() as int).len() == new_chain.len() - 1 - a,
        forall|i: int|
            0 <= i < new_chain.len() - 1 - a ==> #[trigger] new_chain.subrange(a + 1, new_chain.len() as int)[i]
                == new_chain[a + 1 + i],
{
}

/// The steps of the blocks of a chain from index `from` on, in order.
pub open spec fn chain_ops(chain: Seq<BlockView>, base: int, from: int) -> Seq<UtxoOp>
    decreases chain.len() - from,
{
    if from < 0 || from >= chain.len() {
        Seq::<UtxoOp>::empty()
    } else {
        block_ops(chain[from].transactions, (base + from) as u32, chain[from].transactions.len() as int)
            + chain_ops(chain, base, from + 1)
    }
}

/// Connecting the blocks of a chain is taking their steps, one after the
/// other.
pub proof fn lemma_connect_chain_runs(m: Map<OutPoint, CoinView>, chain: Seq<BlockView>, base: int, from: int)
    requires
        0 <= from,
        connect_chain(m, chain, base, from) is Ok,
    ensures
        run_ops(m, chain_ops(chain, base, from)) == Some(connect_chain(m, chain, base, from)->Ok_0),
    decreases chain.len() - from,
{
    if from < chain.len() {
        let txs = chain[from].transactions;
        let height = (base + from) as u32;
        let next = connect_spec(m, txs, height)->Some_0;
        lemma_connect_chain_runs(next, chain, base, from + 1);
        lemma_run_prefix(m, block_ops(txs, height, txs.len() as int), chain_ops(chain, base, from + 1));
    }
}

/// What the set holds after a reorganization. Where the set was made by
/// connecting the blocks of the current chain above the common ancestor to
/// the set `s`, with the records that this made, and the reorganization
/// goes through, the set then holds for every outpoint what the last step
/// on it of the blocks of the new chain above the ancestor left: an output
/// that they create and do not spend after that is there as it was
/// created, one that they spend is not, and one that they do not name is
/// as `s` held it. What the blocks that were disconnected spent is so held
/// again, and what they created is gone, as far as the new chain does not
/// name it.
pub proof fn lemma_reorganized_set(
    new_chain: Seq<BlockView>,
    current: Seq<BlockView>,
    undo: Seq<Seq<SpentView>>,
    s: Map<OutPoint, CoinView>,
    current_height: u32,
    q: OutPoint,
)
    requires
        ancestor_spec(new_chain, current) is Ok,
        current_height >= current.len() - 1 - ancestor_spec(new_chain, current)->Ok_0,
        current_height - (current.len() - 1) + new_chain.len() - 1 <= u32::MAX,
        connect_chain(
            s,
            current,
            current_height - (current.len() - 1),
            ancestor_spec(new_chain, current)->Ok_0 + 1,
        ) is Ok,
        undo_made_by(
            s,
            current,
            undo,
            current_height - (current.len() - 1),
            ancestor_spec(new_chain, current)->Ok_0,
        ),
        reorg_spec(
            new_chain,
            current,
            undo,
            connect_chain(
                s,
                current,
                current_height - (current.len() - 1),
                ancestor_spec(new_chain, current)->Ok_0 + 1,
            )->Ok_0,
            current_height,
        ) is Ok,
    ensures
        ({
            let a = ancestor_spec(new_chain, current)->Ok_0;
            let base = current_height - (current.len() - 1);
            let m = connect_chain(s, current, base, a + 1)->Ok_0;
            let after = reorg_spec(new_chain, current, undo, m, current_height)->Ok_0.set;
            let held = held_after(s, chain_ops(new_chain, base, a + 1), q);
            &&& after.contains_key(q) == (held is Some)
            &&& held is Some ==> after[q] == held->Some_0
        }),
{
    let a = ancestor_spec(new_chain, current)->Ok_0;
    let base = current_height - (current.len() - 1);
    lemma_common_index_bound(new_chain, current, shorter(new_chain.len(), current.len()));
    lemma_reorganization_follows_new_chain(new_chain, current, undo, s, current_height);
    lemma_connect_chain_runs(s, new_chain, base, a + 1);
    lemma_run_contents(s, chain_ops(new_chain, base, a + 1), q);
}

/// An index that the search finds lies below where the search began.
proof fn lemma_common_index_bound(new_chain: Seq<BlockView>, current: Seq<BlockView>, k: int)
    ensures
        common_index(new_chain, current, k) is Some ==> 0 <= common_index(new_chain, current, k)->Some_0 < k,
    decreases k,
{
    if !(k <= 0 || k > new_chain.len() || k > current.len()) && new_chain[k - 1].header != current[k - 1].header {
        lemma_common_index_bound(new_chain, current, k - 1);
    }
}

/// What connecting one more block does to the rest of the way.
proof fn lemma_connect_step(m: Map<OutPoint, CoinView>, new_chain: Seq<BlockView>, base: int, n: int)
    requires
        0 <= n < new_chain.len(),
    ensures
        connect_spec(m, new_chain[n].transactions, (base + n) as u32) is None ==> connect_chain(
            m,
            new_chain,
            base,
            n,
        ) == Err::<Map<OutPoint, CoinView>, int>(n),
        connect_spec(m, new_chain[n].transactions, (base + n) as u32) is Some ==> connect_chain(
            m,
            new_chain,
            base,
            n,
        ) == connect_chain(
            connect_spec(m, new_chain[n].transactions, (base + n) as u32)->Some_0,
            new_chain,
            base,
            n + 1,
        ) && connect_chain_undo(m, new_chain, base, n) == seq![
            connect_undo(m, new_chain[n].transactions, (base + n) as u32),
        ] + connect_chain_undo(
            connect_spec(m, new_chain[n].transactions, (base + n) as u32)->Some_0,
            new_chain,
            base,
            n + 1,
        ),
{
}

proof fn lemma_undo_step(
    done: Seq<Seq<SpentView>>,
    one: Seq<SpentView>,
    rest: Seq<Seq<SpentView>>,
)
    ensures
        done.push(one) + rest == done + (seq![one] + rest),
{
    assert(done.push(one) + rest =~= done + (seq![one] + rest));
}

/// Whether every block of `chain` above index `a` names the hash of the
/// block before it.
fn links_hold(chain: &[Block], a: usize) -> (r: bool)
    requires
        a < chain@.len(),
    ensures
        r == linked_above(chain_view(chain@), a as int),
{
    let len = chain.len();
    let mut k: usize = a + 1;
    while k < chain.len()
        invariant
            a < k <= chain@.len(),
            forall|i: int|
                a < i < k ==> (#[trigger] chain_view(chain@)[i]).header.prev_block_hash == block_hash_spec(
                    chain_view(chain@)[i - 1].header,
                ),
        decreases chain@.len() - k,
    {
        let expected = compute_block_hash(&chain[k - 1].header);
        assert(chain_view(chain@)[k as int] == chain@[k as int]@);
        assert(chain_view(chain@)[k - 1] == chain@[k - 1]@);
        if !hash_eq(&chain[k].header.prev_block_hash, &expected) {
            return false;
        }
        k += 1;
    }
    true
}

/// The index of the common ancestor of the two chains.
fn find_fork(new_chain: &[Block], current_chain: &[Block]) -> (r: Result<usize, ConsensusError>)
    ensures
        match r {
            Ok(a) => ancestor_spec(chain_view(new_chain@), chain_view(current_chain@)) == Ok::<
                int,
                RuleViolation,
            >(a as int) && a < new_chain@.len() && a < current_chain@.len(),
            Err(e) => ancestor_spec(chain_view(new_chain@), chain_view(current_chain@)) is Err && e
                == ConsensusError::ConsensusRuleViolation(
                ancestor_spec(chain_view(new_chain@), chain_view(current_chain@))->Err_0,
            ),
        },
{
    if new_chain.len() == 0 || current_chain.len() == 0 {
        return Err(ConsensusError::ConsensusRuleViolation(RuleViolation::EmptyChain));
    }
    let top: usize = if new_chain.len() <= current_chain.len() {
        new_chain.len()
    } else {
        current_chain.len()
    };
    let ghost nv = chain_view(new_chain@);
    let ghost cv = chain_view(current_chain@);
    let mut k: usize = top;
    while k > 0
        invariant
            k <= top,
            top <= new_chain@.len(),
            top <= current_chain@.len(),
            top == shorter(new_chain@.len(), current_chain@.len()),
            top > 0,
            nv == chain_view(new_chain@),
            cv == chain_view(current_chain@),
            common_index(nv, cv, k as int) == common_index(nv, cv, top as int),
        decreases k,
    {
        assert(nv[k - 1] == new_chain@[k - 1]@);
        assert(cv[k - 1] == current_chain@[k - 1]@);
        if header_eq(&new_chain[k - 1].header, &current_chain[k - 1].header) {
            let a: usize = k - 1;
            if links_hold(new_chain, a) && links_hold(current_chain, a) {
                return Ok(a);
            } else {
                return Err(ConsensusError::ConsensusRuleViolation(RuleViolation::NoCommonAncestor));
            }
        }
        k -= 1;
    }
    Err(ConsensusError::ConsensusRuleViolation(RuleViolation::NoCommonAncestor))
}

/// The header of the common ancestor of two chains that start at the same
/// height: the highest block that both hold.
///
/// Fails with `EmptyChain` where a chain is empty, and with
/// `NoCommonAncestor` where the chains hold no block in common or a block
/// above the common one does not name the hash of the block before it.
pub fn find_common_ancestor(new_chain: &[Block], current_chain: &[Block]) -> (r: Result<BlockHeader, ConsensusError>)
    ensures
        match r {
            Ok(h) => ancestor_spec(chain_view(new_chain@), chain_view(current_chain@)) is Ok && h
                == chain_view(current_chain@)[ancestor_spec(
                chain_view(new_chain@),
                chain_view(current_chain@),
            )->Ok_0].header,
            Err(e) => ancestor_spec(chain_view(new_chain@), chain_view(current_chain@)) is Err && e
                == ConsensusError::ConsensusRuleViolation(
                ancestor_spec(chain_view(new_chain@), chain_view(current_chain@))->Err_0,
            ),
        },
{
    match find_fork(new_chain, current_chain) {
        Ok(a) => {
            assert(chain_view(current_chain@)[a as int] == current_chain@[a as int]@);
            Ok(current_chain[a].header)
        },
        Err(e) => Err(e),
    }
}

/// Whether the record of every block above index `a` is there and matches
/// its block.
fn undo_records_usable(current_chain: &[Block], current_undo: &[BlockUndo], anchor: u32, a: usize) -> (r: bool)
    requires
        a < current_chain@.len(),
        anchor - a + current_chain@.len() - 1 <= u32::MAX,
    ensures
        r == undo_usable(chain_view(current_chain@), undo_views(current_undo@), anchor - a, a as int),
{
    let len = current_chain.len();
    if a + 1 < len && current_undo.len() < len {
        return false;
    }
    let mut k: usize = a + 1;
    while k < current_chain.len()
        invariant
            a < k <= current_chain@.len(),
            a + 1 < current_chain@.len() ==> current_chain@.len() <= current_undo@.len(),
            anchor - a + current_chain@.len() - 1 <= u32::MAX,
            forall|i: int|
                a < i < k ==> undo_matches(
                    (#[trigger] chain_view(current_chain@)[i]).transactions,
                    (anchor - a + i) as u32,
                    undo_views(current_undo@)[i],
                ),
        decreases current_chain@.len() - k,
    {
        assert(chain_view(current_chain@)[k as int] == current_chain@[k as int]@);
        assert(undo_views(current_undo@)[k as int] == current_undo@[k as int]@);
        let height: u32 = anchor + ((k - a) as u32);
        if !undo_fits(&current_chain[k], &current_undo[k], height) {
            return false;
        }
        k += 1;
    }
    true
}

/// The blocks of the chain above index `a`, the last first.
pub open spec fn reversed_above(chain: Seq<BlockView>, a: int) -> Seq<BlockView> {
    Seq::new((chain.len() - 1 - a) as nat, |i: int| chain[chain.len() - 1 - i])
}

/// Moves the set of unspent outputs from the current chain, whose tip is
/// at `current_height`, to the new chain. Both chains start at the same
/// height; `current_undo` holds, at the index of each block of the current
/// chain, the record that connecting it made. Records are asked only of the
/// blocks above the common ancestor: the list may end before them where
/// nothing is to be disconnected.
///
/// The blocks of the current chain above the common ancestor are
/// disconnected, the tip first, and those of the new chain above it are
/// connected. The outcome is that of [`reorg_spec`]. Where it is an error,
/// the set is left exactly as it was: every change made on the way is taken
/// back.
pub fn reorganize_chain(
    new_chain: &[Block],
    current_chain: &[Block],
    current_undo: &[BlockUndo],
    utxo_set: &mut UtxoSet,
    current_height: Natural,
) -> (r: Result<ReorganizationResult, ConsensusError>)
    ensures
        match r {
            Ok(res) => {
                let outcome = reorg_spec(
                    chain_view(new_chain@),
                    chain_view(current_chain@),
                    undo_views(current_undo@),
                    old(utxo_set)@,
                    current_height,
                );
                &&& outcome is Ok
                &&& final(utxo_set)@ == outcome->Ok_0.set
                &&& res.new_height == outcome->Ok_0.new_height
                &&& res.common_ancestor == chain_view(current_chain@)[outcome->Ok_0.ancestor].header
                &&& res.reorganization_depth == current_chain@.len() - 1 - outcome->Ok_0.ancestor
                &&& chain_view(res.disconnected_blocks@) == reversed_above(
                    chain_view(current_chain@),
                    outcome->Ok_0.ancestor,
                )
                &&& chain_view(res.connected_blocks@) == chain_view(new_chain@).subrange(
                    outcome->Ok_0.ancestor + 1,
                    new_chain@.len() as int,
                )
                &&& undo_views(res.connected_undo@) == outcome->Ok_0.connected_undo
            },
            Err(e) => {
                let outcome = reorg_spec(
                    chain_view(new_chain@),
                    chain_view(current_chain@),
                    undo_views(current_undo@),
                    old(utxo_set)@,
                    current_height,
                );
                &&& outcome is Err
                &&& e == ConsensusError::ConsensusRuleViolation(outcome->Err_0)
                &&& final(utxo_set)@ == old(utxo_set)@
            },
        },
{
    let a = match find_fork(new_chain, current_chain) {
        Ok(a) => a,
        Err(e) => {
            return Err(e);
        },
    };
    let depth: usize = current_chain.len() - 1 - a;
    if (current_height as u64) < (depth as u64) {
        return Err(ConsensusError::ConsensusRuleViolation(RuleViolation::DepthExceedsHeight));
    }
    let anchor: u32 = current_height - (depth as u32);
    if (anchor as u128) + ((new_chain.len() - 1 - a) as u128) > 0xffff_ffffu128 {
        return Err(ConsensusError::ConsensusRuleViolation(RuleViolation::HeightOverflow));
    }
    if !undo_records_usable(current_chain, current_undo, anchor, a) {
        return Err(ConsensusError::ConsensusRuleViolation(RuleViolation::MissingUndo));
    }
    let ghost nv = chain_view(new_chain@);
    let ghost cv = chain_view(current_chain@);
    let ghost start = utxo_set@;
    let mut journal: Vec<JournalEntry> = Vec::new();
    let disconnected_blocks = disconnect_above(current_chain, current_undo, utxo_set, anchor, a, &mut journal);
    let ghost low = utxo_set@;
    match connect_above(new_chain, utxo_set, anchor, a, &mut journal) {
        Err(n) => {
            rollback(utxo_set, &mut journal);
            Err(ConsensusError::ConsensusRuleViolation(RuleViolation::InvalidBlock { index: n }))
        },
        Ok((connected_blocks, connected_undo)) => {
            proof {
                assert(cv[a as int] == current_chain@[a as int]@);
            }
            Ok(
                ReorganizationResult {
                    new_height: anchor + ((new_chain.len() - 1 - a) as u32),
                    common_ancestor: current_chain[a].header,
                    disconnected_blocks,
                    connected_blocks,
                    connected_undo,
                    reorganization_depth: depth,
                },
            )
        },
    }
}

/// Disconnects the blocks of the chain above index `a`, the tip first, and
/// gives copies of them in that order.
fn disconnect_above(
    current_chain: &[Block],
    current_undo: &[BlockUndo],
    utxo_set: &mut UtxoSet,
    anchor: u32,
    a: usize,
    journal: &mut Vec<JournalEntry>,
) -> (disconnected_blocks: Vec<Block>)
    requires
        a < current_chain@.len(),
        anchor - a + current_chain@.len() - 1 <= u32::MAX,
        undo_usable(chain_view(current_chain@), undo_views(current_undo@), anchor - a, a as int),
    ensures
        rollback_spec(final(utxo_set)@, final(journal)@) == rollback_spec(old(utxo_set)@, old(journal)@),
        final(utxo_set)@ == disconnect_chain(
            old(utxo_set)@,
            chain_view(current_chain@),
            undo_views(current_undo@),
            anchor - a,
            a as int,
            current_chain@.len() as int,
        ),
        chain_view(disconnected_blocks@) == reversed_above(chain_view(current_chain@), a as int),
{
    let ghost cv = chain_view(current_chain@);
    let ghost uv = undo_views(current_undo@);
    let ghost start = utxo_set@;
    let mut disconnected_blocks: Vec<Block> = Vec::new();
    let mut k: usize = current_chain.len();
    let floor: usize = a + 1;
    while k > floor
        invariant
            a < k <= current_chain@.len(),
            floor == a + 1,
            anchor - a + current_chain@.len() - 1 <= u32::MAX,
            cv == chain_view(current_chain@),
            uv == undo_views(current_undo@),
            undo_usable(cv, uv, anchor - a, a as int),
            rollback_spec(utxo_set@, journal@) == rollback_spec(old(utxo_set)@, old(journal)@),
            disconnect_chain(utxo_set@, cv, uv, anchor - a, a as int, k as int) == disconnect_chain(
                start,
                cv,
                uv,
                anchor - a,
                a as int,
                current_chain@.len() as int,
            ),
            disconnected_blocks@.len() == current_chain@.len() - k,
            forall|i: int|
                0 <= i < disconnected_blocks@.len() ==> (#[trigger] disconnected_blocks@[i])@
                    == cv[current_chain@.len() - 1 - i],
        decreases k,
    {
        k -= 1;
        assert(cv[k as int] == current_chain@[k as int]@);
        assert(k < uv.len());
        assert(uv[k as int] == current_undo@[k as int]@);
        let height: u32 = anchor + ((k - a) as u32);
        unapply_block(utxo_set, &current_chain[k], &current_undo[k], height, journal);
        disconnected_blocks.push(current_chain[k].duplicate());
    }
    assert(chain_view(disconnected_blocks@) =~= reversed_above(cv, a as int));
    disconnected_blocks
}

/// Connects the blocks of the chain above index `a`, in order, and gives
/// copies of them with the records of what they spent; or the index of the
/// first block that cannot be connected.
fn connect_above(
    new_chain: &[Block],
    utxo_set: &mut UtxoSet,
    anchor: u32,
    a: usize,
    journal: &mut Vec<JournalEntry>,
) -> (r: Result<(Vec<Block>, Vec<BlockUndo>), usize>)
    requires
        a < new_chain@.len(),
        anchor - a + new_chain@.len() - 1 <= u32::MAX,
    ensures
        rollback_spec(final(utxo_set)@, final(journal)@) == rollback_spec(old(utxo_set)@, old(journal)@),
        match r {
            Ok((blocks, undo)) => connect_chain(old(utxo_set)@, chain_view(new_chain@), anchor - a, a + 1)
                == Ok::<Map<OutPoint, CoinView>, int>(final(utxo_set)@) && chain_view(blocks@) == chain_view(
                new_chain@,
            ).subrange(a + 1, new_chain@.len() as int) && undo_views(undo@) == connect_chain_undo(
                old(utxo_set)@,
                chain_view(new_chain@),
                anchor - a,
                a + 1,
            ),
            Err(n) => connect_chain(old(utxo_set)@, chain_view(new_chain@), anchor - a, a + 1) == Err::<
                Map<OutPoint, CoinView>,
                int,
            >(n as int),
        },
{
    let ghost nv = chain_view(new_chain@);
    let ghost low = utxo_set@;
    let mut connected_blocks: Vec<Block> = Vec::new();
    let mut connected_undo: Vec<BlockUndo> = Vec::new();
    let len = new_chain.len();
    let mut n: usize = a + 1;
    assert(undo_views(connected_undo@) + connect_chain_undo(low, nv, anchor - a, a + 1) =~= connect_chain_undo(
        low,
        nv,
        anchor - a,
        a + 1,
    ));
    while n < new_chain.len()
        invariant
            a < n <= new_chain@.len(),
            anchor - a + new_chain@.len() - 1 <= u32::MAX,
            nv == chain_view(new_chain@),
            low == old(utxo_set)@,
            rollback_spec(utxo_set@, journal@) == rollback_spec(old(utxo_set)@, old(journal)@),
            connect_chain(utxo_set@, nv, anchor - a, n as int) == connect_chain(low, nv, anchor - a, a + 1),
            undo_views(connected_undo@) + connect_chain_undo(utxo_set@, nv, anchor - a, n as int)
                == connect_chain_undo(low, nv, anchor - a, a + 1),
            connected_blocks@.len() == n - (a + 1),
            forall|i: int|
                0 <= i < connected_blocks@.len() ==> (#[trigger] connected_blocks@[i])@ == nv[a + 1 + i],
        decreases new_chain@.len() - n,
    {
        assert(nv[n as int] == new_chain@[n as int]@);
        let height: u32 = anchor + ((n - a) as u32);
        let ghost before = utxo_set@;
        let ghost undo_before = undo_views(connected_undo@);
        proof {
            lemma_connect_step(before, nv, anchor - a, n as int);
        }
        match apply_block(utxo_set, &new_chain[n], height, journal) {
            Ok(undo) => {
                proof {
                    lemma_undo_step(undo_before, undo@, connect_chain_undo(utxo_set@, nv, anchor - a, n + 1));
                }
                connected_undo.push(undo);
                connected_blocks.push(new_chain[n].duplicate());
                assert(undo_views(connected_undo@) =~= undo_before.push(undo@));
            },
            Err(_) => {
                return Err(n);
            },
        }
        n += 1;
    }
    proof {
        assert(undo_views(connected_undo@) + Seq::<Seq<SpentView>>::empty() =~= undo_views(connected_undo@));
        assert(chain_view(connected_blocks@) =~= nv.subrange(a + 1, new_chain@.len() as int));
    }
    Ok((connected_blocks, connected_undo))
}

} // verus!
