//! The set of unspent outputs.
//!
//! A map from outpoints to unspent outputs, each with a mark that says
//! whether a coinbase created it. The order in which entries were put in
//! does not show: the view is a mathematical map.
//!
//! The entries are kept in an ordered map, under a key of three numbers
//! that stands for the outpoint: the two halves of the transaction
//! identifier, and the index.

use std::collections::BTreeMap;
use vstd::prelude::*;
use vstd::set_lib::lemma_map_size;
use crate::bytes::{le_value, lemma_le_value_bytes, lemma_pow256_grows, pow256};
use crate::types::{OutPoint, UtxoView, UTXO};

verus! {

broadcast use vstd::std_specs::btree::group_btree_axioms;

/// What the set holds for an outpoint: the unspent output, and whether a
/// coinbase created it.
pub ghost struct CoinView {
    pub utxo: UtxoView,
    pub coinbase: bool,
}

/// One entry of the set.
#[derive(Debug, Clone, PartialEq, Eq)]
pub struct UtxoEntry {
    pub outpoint: OutPoint,
    pub utxo: UTXO,
    pub coinbase: bool,
}

impl View for UtxoEntry {
    type V = CoinView;

    open spec fn view(&self) -> CoinView {
        CoinView { utxo: self.utxo@, coinbase: self.coinbase }
    }
}

impl UtxoEntry {
    /// A copy with the same outpoint and the same view.
    pub fn duplicate(&self) -> (r: UtxoEntry)
        ensures
            r@ == self@,
            r.outpoint == self.outpoint,
    {
        UtxoEntry { outpoint: self.outpoint, utxo: self.utxo.duplicate(), coinbase: self.coinbase }
    }
}

/// The number that 16 bytes of a transaction identifier stand for, the
/// least significant byte first: those from index `from` on.
pub open spec fn half_value(hash: Seq<u8>, from: int) -> nat {
    le_value(hash.subrange(from, from + 16))
}

/// The key of an outpoint: the two halves of the transaction identifier as
/// numbers, and the index.
pub open spec fn set_key(p: OutPoint) -> (u128, u128, u32) {
    (half_value(p.hash@, 0) as u128, half_value(p.hash@, 16) as u128, p.index)
}

proof fn lemma_pow256_of_halves()
    ensures
        pow256(15) == 0x1_0000_0000_0000_0000_0000_0000_0000_00,
        pow256(16) == 0x1_0000_0000_0000_0000_0000_0000_0000_0000,
{
    reveal_with_fuel(pow256, 17);
}

/// Two outpoints with the same key are the same outpoint.
pub proof fn lemma_key_names_one(p: OutPoint, q: OutPoint)
    requires
        set_key(p) == set_key(q),
    ensures
        p == q,
{
    lemma_pow256_of_halves();
    let (pl, ph) = (p.hash@.subrange(0, 16), p.hash@.subrange(16, 32));
    let (ql, qh) = (q.hash@.subrange(0, 16), q.hash@.subrange(16, 32));
    lemma_le_value_bytes(pl);
    lemma_le_value_bytes(ph);
    lemma_le_value_bytes(ql);
    lemma_le_value_bytes(qh);
    assert(pl == ql);
    assert(ph == qh);
    assert(p.hash@ =~= pl + ph);
    assert(q.hash@ =~= ql + qh);
    assert(p.hash =~= q.hash);
}

/// The number that the 16 bytes of `hash` from index `from` on stand for.
fn half_of(hash: &[u8; 32], from: usize) -> (v: u128)
    requires
        from == 0 || from == 16,
    ensures
        v == half_value(hash@, from as int),
{
    let ghost part = hash@.subrange(from as int, from + 16);
    let mut v: u128 = 0;
    let mut i: usize = 16;
    assert(part.subrange(16, 16) =~= Seq::<u8>::empty());
    while i > 0
        invariant
            i <= 16,
            from == 0 || from == 16,
            part == hash@.subrange(from as int, from + 16),
            v as nat == le_value(part.subrange(i as int, 16)),
        decreases i,
    {
        proof {
            let rest = part.subrange(i as int, 16);
            let more = part.subrange(i - 1, 16);
            assert(more.subrange(1, more.len() as int) =~= rest);
            lemma_le_value_bytes(rest);
            lemma_pow256_grows((16 - i) as nat, 15);
            lemma_pow256_of_halves();
        }
        i -= 1;
        v = v * 256 + (hash[from + i] as u128);
    }
    assert(part.subrange(0, 16) =~= part);
    v
}

/// The key of an outpoint.
fn key_of(outpoint: &OutPoint) -> (k: (u128, u128, u32))
    ensures
        k == set_key(*outpoint),
{
    proof {
        lemma_pow256_of_halves();
        lemma_le_value_bytes(outpoint.hash@.subrange(0, 16));
        lemma_le_value_bytes(outpoint.hash@.subrange(16, 32));
    }
    (half_of(&outpoint.hash, 0), half_of(&outpoint.hash, 16), outpoint.index)
}

/// The set of unspent outputs: every entry stands under the key of its
/// outpoint.
#[derive(Debug)]
pub struct UtxoSet {
    entries: BTreeMap<(u128, u128, u32), UtxoEntry>,
}

/// Whether every entry stands under the key of its outpoint.
pub open spec fn keyed(m: Map<(u128, u128, u32), UtxoEntry>) -> bool {
    forall|k: (u128, u128, u32)| m.contains_key(k) ==> set_key((#[trigger] m[k]).outpoint) == k
}

/// The map that the entries stand for.
pub open spec fn entries_map(m: Map<(u128, u128, u32), UtxoEntry>) -> Map<OutPoint, CoinView> {
    Map::new(|p: OutPoint| m.contains_key(set_key(p)), |p: OutPoint| m[set_key(p)]@)
}

/// An entry that the set holds for an outpoint has that outpoint.
pub proof fn lemma_lookup(m: Map<(u128, u128, u32), UtxoEntry>, p: OutPoint)
    requires
        keyed(m),
        m.contains_key(set_key(p)),
    ensures
        m[set_key(p)].outpoint == p,
{
    lemma_key_names_one(m[set_key(p)].outpoint, p);
}

/// An entry put under its key is put into the map.
pub proof fn lemma_put(m: Map<(u128, u128, u32), UtxoEntry>, e: UtxoEntry)
    requires
        keyed(m),
    ensures
        keyed(m.insert(set_key(e.outpoint), e)),
        entries_map(m.insert(set_key(e.outpoint), e)) == entries_map(m).insert(e.outpoint, e@),
{
    let m2 = m.insert(set_key(e.outpoint), e);
    assert forall|k: (u128, u128, u32)| m2.contains_key(k) implies set_key((#[trigger] m2[k]).outpoint) == k by {
        if k != set_key(e.outpoint) {
            assert(m.contains_key(k) && m2[k] == m[k]);
        }
    }
    assert forall|q: OutPoint|
        #![trigger entries_map(m2).dom().contains(q)]
        #![trigger entries_map(m).insert(e.outpoint, e@).dom().contains(q)]
        entries_map(m2).dom().contains(q) == entries_map(m).insert(e.outpoint, e@).dom().contains(q) && (
        entries_map(m2).dom().contains(q) ==> entries_map(m2)[q] == entries_map(m).insert(e.outpoint, e@)[q]) by {
        if set_key(q) == set_key(e.outpoint) {
            lemma_key_names_one(q, e.outpoint);
        }
    }
    assert(entries_map(m2) =~= entries_map(m).insert(e.outpoint, e@));
}

/// An entry taken out from under the key of an outpoint is taken out of
/// the map.
pub proof fn lemma_take(m: Map<(u128, u128, u32), UtxoEntry>, p: OutPoint)
    requires
        keyed(m),
    ensures
        keyed(m.remove(set_key(p))),
        entries_map(m.remove(set_key(p))) == entries_map(m).remove(p),
{
    let m2 = m.remove(set_key(p));
    assert forall|k: (u128, u128, u32)| m2.contains_key(k) implies set_key((#[trigger] m2[k]).outpoint) == k by {
        assert(m.contains_key(k) && m2[k] == m[k]);
    }
    assert forall|q: OutPoint|
        #![trigger entries_map(m2).dom().contains(q)]
        #![trigger entries_map(m).remove(p).dom().contains(q)]
        entries_map(m2).dom().contains(q) == entries_map(m).remove(p).dom().contains(q) && (entries_map(
            m2,
        ).dom().contains(q) ==> entries_map(m2)[q] == entries_map(m).remove(p)[q]) by {
        if set_key(q) == set_key(p) {
            lemma_key_names_one(q, p);
        }
    }
    assert(entries_map(m2) =~= entries_map(m).remove(p));
}

/// The map has as many outpoints as there are entries.
pub proof fn lemma_entries_len(m: Map<(u128, u128, u32), UtxoEntry>)
    requires
        keyed(m),
        m.dom().finite(),
    ensures
        entries_map(m).dom().finite(),
        entries_map(m).dom().len() == m.dom().len(),
{
    let named = |k: (u128, u128, u32)| m[k].outpoint;
    assert forall|p: OutPoint| m.dom().map(named).contains(p) == #[trigger] entries_map(m).dom().contains(p) by {
        if m.contains_key(set_key(p)) {
            lemma_lookup(m, p);
            assert(m.dom().contains(set_key(p)) && named(set_key(p)) == p);
        }
        if m.dom().map(named).contains(p) {
            let k = choose|k: (u128, u128, u32)| m.dom().contains(k) && named(k) == p;
            assert(set_key(m[k].outpoint) == k);
        }
    }
    assert(m.dom().map(named) =~= entries_map(m).dom());
    assert(vstd::relations::injective_on(named, m.dom())) by {
        assert forall|a: (u128, u128, u32), b: (u128, u128, u32)|
            m.dom().contains(a) && m.dom().contains(b) && #[trigger] named(a) == #[trigger] named(b) implies a
            == b by {
            assert(set_key(m[a].outpoint) == a && set_key(m[b].outpoint) == b);
        }
    }
    lemma_map_size(m.dom(), entries_map(m).dom(), named);
}

impl UtxoSet {
    #[verifier::type_invariant]
    spec fn every_entry_under_its_key(self) -> bool {
        keyed(self.entries@)
    }

    /// The map from outpoints to what the set holds for them.
    pub closed spec fn view(&self) -> Map<OutPoint, CoinView> {
        entries_map(self.entries@)
    }

    /// The number of entries.
    pub open spec fn spec_len(&self) -> nat {
        self@.dom().len()
    }

    /// An empty set.
    pub fn new() -> (r: UtxoSet)
        ensures
            r@ == Map::<OutPoint, CoinView>::empty(),
            r.spec_len() == 0,
    {
        let r = UtxoSet { entries: BTreeMap::new() };
        assert(r@ =~= Map::<OutPoint, CoinView>::empty());
        assert(r@.dom() =~= Set::<OutPoint>::empty());
        r
    }

    /// The number of entries.
    pub fn len(&self) -> (n: usize)
        ensures
            n == self@.dom().len(),
            self@.dom().finite(),
    {
        proof {
            use_type_invariant(self);
            lemma_entries_len(self.entries@);
        }
        self.entries.len()
    }

    /// Whether the set is empty.
    pub fn is_empty(&self) -> (r: bool)
        ensures
            r == (self.spec_len() == 0),
            r == (self@ == Map::<OutPoint, CoinView>::empty()),
    {
        proof {
            use_type_invariant(self);
            lemma_entries_len(self.entries@);
            if self@.dom().len() == 0 {
                assert(self@.dom() =~= Set::<OutPoint>::empty());
                assert(self@ =~= Map::<OutPoint, CoinView>::empty());
            } else {
                assert(self@.dom() != Set::<OutPoint>::empty());
            }
        }
        self.entries.len() == 0
    }

    /// Whether the set holds an entry for `outpoint`.
    pub fn contains_key(&self, outpoint: &OutPoint) -> (r: bool)
        ensures
            r == self@.contains_key(*outpoint),
    {
        let key = key_of(outpoint);
        self.entries.contains_key(&key)
    }

    /// The unspent output that `outpoint` names, if the set holds it.
    pub fn get(&self, outpoint: &OutPoint) -> (r: Option<&UTXO>)
        ensures
            match r {
                Some(utxo) => self@.contains_key(*outpoint) && self@[*outpoint].utxo == utxo@,
                None => !self@.contains_key(*outpoint),
            },
    {
        match self.get_entry(outpoint) {
            Some(entry) => Some(&entry.utxo),
            None => None,
        }
    }

    /// The entry for `outpoint`, if the set holds one.
    pub fn get_entry(&self, outpoint: &OutPoint) -> (r: Option<&UtxoEntry>)
        ensures
            match r {
                Some(entry) => self@.contains_key(*outpoint) && self@[*outpoint] == entry@
                    && entry.outpoint == *outpoint,
                None => !self@.contains_key(*outpoint),
            },
    {
        let key = key_of(outpoint);
        proof {
            use_type_invariant(self);
            if self.entries@.contains_key(key) {
                lemma_lookup(self.entries@, *outpoint);
            }
        }
        self.entries.get(&key)
    }

    /// Takes the entry for `outpoint` out of the set, if there is one.
    pub fn remove_entry(&mut self, outpoint: &OutPoint) -> (r: Option<UtxoEntry>)
        ensures
            final(self)@ == old(self)@.remove(*outpoint),
            match r {
                Some(entry) => old(self)@.contains_key(*outpoint) && old(self)@[*outpoint] == entry@
                    && entry.outpoint == *outpoint,
                None => !old(self)@.contains_key(*outpoint),
            },
    {
        let key = key_of(outpoint);
        proof {
            use_type_invariant(&*self);
            lemma_take(self.entries@, *outpoint);
            if self.entries@.contains_key(key) {
                lemma_lookup(self.entries@, *outpoint);
            }
        }
        let mut entries: BTreeMap<(u128, u128, u32), UtxoEntry> = BTreeMap::new();
        core::mem::swap(&mut self.entries, &mut entries);
        let taken = entries.remove(&key);
        core::mem::swap(&mut self.entries, &mut entries);
        taken
    }

    /// Puts an entry into the set, in place of the one with the same
    /// outpoint if there is one, which is handed back.
    pub fn insert_entry(&mut self, entry: UtxoEntry) -> (r: Option<UtxoEntry>)
        ensures
            final(self)@ == old(self)@.insert(entry.outpoint, entry@),
            match r {
                Some(before) => old(self)@.contains_key(entry.outpoint) && old(self)@[entry.outpoint]
                    == before@ && before.outpoint == entry.outpoint,
                None => !old(self)@.contains_key(entry.outpoint),
            },
    {
        let key = key_of(&entry.outpoint);
        proof {
            use_type_invariant(&*self);
            lemma_put(self.entries@, entry);
            if self.entries@.contains_key(key) {
                lemma_lookup(self.entries@, entry.outpoint);
            }
        }
        let mut entries: BTreeMap<(u128, u128, u32), UtxoEntry> = BTreeMap::new();
        core::mem::swap(&mut self.entries, &mut entries);
        let before = entries.insert(key, entry);
        core::mem::swap(&mut self.entries, &mut entries);
        before
    }

    /// Puts an unspent output into the set under `outpoint`, marked as not
    /// created by a coinbase. Hands back the output that was there before,
    /// if there was one.
    pub fn insert(&mut self, outpoint: OutPoint, utxo: UTXO) -> (r: Option<UTXO>)
        ensures
            final(self)@ == old(self)@.insert(outpoint, (CoinView { utxo: utxo@, coinbase: false })),
            match r {
                Some(before) => old(self)@.contains_key(outpoint) && old(self)@[outpoint].utxo
                    == before@,
                None => !old(self)@.contains_key(outpoint),
            },
    {
        match self.insert_entry(UtxoEntry { outpoint, utxo, coinbase: false }) {
            Some(before) => Some(before.utxo),
            None => None,
        }
    }

    /// Puts an unspent output into the set under `outpoint`, marked as
    /// created by a coinbase.
    pub fn insert_coinbase(&mut self, outpoint: OutPoint, utxo: UTXO) -> (r: Option<UTXO>)
        ensures
            final(self)@ == old(self)@.insert(outpoint, (CoinView { utxo: utxo@, coinbase: true })),
            match r {
                Some(before) => old(self)@.contains_key(outpoint) && old(self)@[outpoint].utxo
                    == before@,
                None => !old(self)@.contains_key(outpoint),
            },
    {
        match self.insert_entry(UtxoEntry { outpoint, utxo, coinbase: true }) {
            Some(before) => Some(before.utxo),
            None => None,
        }
    }

    /// Takes the unspent output that `outpoint` names out of the set.
    pub fn remove(&mut self, outpoint: &OutPoint) -> (r: Option<UTXO>)
        ensures
            final(self)@ == old(self)@.remove(*outpoint),
            match r {
                Some(utxo) => old(self)@.contains_key(*outpoint) && old(self)@[*outpoint].utxo
                    == utxo@,
                None => !old(self)@.contains_key(*outpoint),
            },
    {
        match self.remove_entry(outpoint) {
            Some(entry) => Some(entry.utxo),
            None => None,
        }
    }
}

} // verus!
