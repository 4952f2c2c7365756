//! A sparse binary Merkle tree of depth 256.
//!
//! A key of 32 bytes names a leaf by its bits, the most significant bit of
//! the first byte first. The hash of a subtree that holds no leaf is a
//! constant of its depth; the hash of a leaf is its value; the hash of any
//! other subtree is the SHA-256 of the hashes of its two halves. The root is
//! therefore a function of the map from keys to values alone.

use vstd::prelude::*;
use crate::block::SpentView;
use crate::bytes::{append_bytes, append_le, i64_bits, i64_to_bits, le_bytes, zeros};
use crate::crypto::{sha256, sha256_digest};
use crate::serialization::transaction::outpoint_bytes;
use crate::serialization::varint::{append_varint, varint_spec};
use crate::types::{OutPoint, UtxoView, UTXO};
use crate::utxo_commitments::data_structures::UtxoCommitment;
use crate::utxo_set::{CoinView, UtxoEntry};

verus! {

/// The weight of bit `j` of a byte, the most significant first.
pub open spec fn bit_weight(j: int) -> int {
    if j == 0 {
        128
    } else if j == 1 {
        64
    } else if j == 2 {
        32
    } else if j == 3 {
        16
    } else if j == 4 {
        8
    } else if j == 5 {
        4
    } else if j == 6 {
        2
    } else {
        1
    }
}

/// Bit `i` of a key.
pub open spec fn key_bit(key: Seq<u8>, i: int) -> bool {
    (key[i / 8] as int / bit_weight(i % 8)) % 2 == 1
}

/// Whether a key of 32 bytes begins with the bits `prefix`.
pub open spec fn under(key: Seq<u8>, prefix: Seq<bool>) -> bool {
    key.len() == 32 && prefix.len() <= 256 && forall|i: int|
        0 <= i < prefix.len() ==> key_bit(key, i) == #[trigger] prefix[i]
}

/// The first `d` bits of a key.
pub open spec fn prefix_of(key: Seq<u8>, d: int) -> Seq<bool> {
    Seq::new(d as nat, |i: int| key_bit(key, i))
}

/// The hash of a subtree at depth `d` that holds no leaf.
pub open spec fn empty_hash(d: nat) -> Seq<u8>
    decreases 256 - d,
{
    if d >= 256 {
        zeros(32)
    } else {
        sha256_digest(empty_hash(d + 1) + empty_hash(d + 1))
    }
}

/// Whether the map holds a key that begins with `prefix`.
pub open spec fn occupied(m: Map<Seq<u8>, Seq<u8>>, prefix: Seq<bool>) -> bool {
    exists|k: Seq<u8>| m.contains_key(k) && under(k, prefix)
}

/// A key of the map that begins with `prefix`.
pub open spec fn key_at(m: Map<Seq<u8>, Seq<u8>>, prefix: Seq<bool>) -> Seq<u8> {
    choose|k: Seq<u8>| m.contains_key(k) && under(k, prefix)
}

/// The hash of the subtree of the keys that begin with `prefix`.
pub open spec fn smt_hash(m: Map<Seq<u8>, Seq<u8>>, prefix: Seq<bool>) -> Seq<u8>
    decreases 256 - prefix.len(),
{
    if !occupied(m, prefix) {
        empty_hash(prefix.len())
    } else if prefix.len() >= 256 {
        m[key_at(m, prefix)]
    } else {
        sha256_digest(smt_hash(m, prefix.push(false)) + smt_hash(m, prefix.push(true)))
    }
}

/// The root of the tree that holds the map.
pub open spec fn smt_root(m: Map<Seq<u8>, Seq<u8>>) -> Seq<u8> {
    smt_hash(m, Seq::<bool>::empty())
}

proof fn lemma_byte_from_bits(a: u8, b: u8)
    requires
        forall|j: int| 0 <= j < 8 ==> ((a as int / bit_weight(j)) % 2 == 1) == ((b as int / bit_weight(j)) % 2 == 1),
    ensures
        a == b,
{
    assert(((a as int / bit_weight(0)) % 2 == 1) == ((b as int / bit_weight(0)) % 2 == 1));
    assert(((a as int / bit_weight(1)) % 2 == 1) == ((b as int / bit_weight(1)) % 2 == 1));
    assert(((a as int / bit_weight(2)) % 2 == 1) == ((b as int / bit_weight(2)) % 2 == 1));
    assert(((a as int / bit_weight(3)) % 2 == 1) == ((b as int / bit_weight(3)) % 2 == 1));
    assert(((a as int / bit_weight(4)) % 2 == 1) == ((b as int / bit_weight(4)) % 2 == 1));
    assert(((a as int / bit_weight(5)) % 2 == 1) == ((b as int / bit_weight(5)) % 2 == 1));
    assert(((a as int / bit_weight(6)) % 2 == 1) == ((b as int / bit_weight(6)) % 2 == 1));
    assert(((a as int / bit_weight(7)) % 2 == 1) == ((b as int / bit_weight(7)) % 2 == 1));
    assert(((a / 128) % 2 == (b / 128) % 2 && (a / 64) % 2 == (b / 64) % 2 && (a / 32) % 2 == (b / 32) % 2
        && (a / 16) % 2 == (b / 16) % 2 && (a / 8) % 2 == (b / 8) % 2 && (a / 4) % 2 == (b / 4) % 2 && (a
        / 2) % 2 == (b / 2) % 2 && (a / 1) % 2 == (b / 1) % 2) ==> a == b) by (bit_vector);
}

/// Two keys with the same 256 bits are the same key.
pub proof fn lemma_key_from_bits(k1: Seq<u8>, k2: Seq<u8>, prefix: Seq<bool>)
    requires
        prefix.len() == 256,
        under(k1, prefix),
        under(k2, prefix),
    ensures
        k1 == k2,
{
    assert forall|b: int| 0 <= b < 32 implies k1[b] == k2[b] by {
        assert forall|j: int| 0 <= j < 8 implies ((k1[b] as int / bit_weight(j)) % 2 == 1) == ((k2[b] as int
            / bit_weight(j)) % 2 == 1) by {
            let i = 8 * b + j;
            assert(i / 8 == b && i % 8 == j);
            assert(key_bit(k1, i) == prefix[i]);
            assert(key_bit(k2, i) == prefix[i]);
        }
        lemma_byte_from_bits(k1[b], k2[b]);
    }
    assert(k1 =~= k2);
}

/// The hash of a subtree depends on the keys of that subtree alone.
pub proof fn lemma_smt_local(m1: Map<Seq<u8>, Seq<u8>>, m2: Map<Seq<u8>, Seq<u8>>, prefix: Seq<bool>)
    requires
        prefix.len() <= 256,
        forall|k: Seq<u8>| #[trigger] under(k, prefix) ==> (m1.contains_key(k) <==> m2.contains_key(k)),
        forall|k: Seq<u8>| #[trigger] under(k, prefix) && m1.contains_key(k) ==> m1[k] == m2[k],
    ensures
        smt_hash(m1, prefix) == smt_hash(m2, prefix),
    decreases 256 - prefix.len(),
{
    if occupied(m1, prefix) {
        let k1 = key_at(m1, prefix);
        assert(m2.contains_key(k1) && under(k1, prefix));
        let k2 = key_at(m2, prefix);
        if prefix.len() >= 256 {
            lemma_key_from_bits(k1, k2, prefix);
        } else {
            lemma_smt_local_child(m1, m2, prefix, false);
            lemma_smt_local_child(m1, m2, prefix, true);
        }
    } else {
        if occupied(m2, prefix) {
            let k2 = key_at(m2, prefix);
            assert(m1.contains_key(k2) && under(k2, prefix));
        }
    }
}

proof fn lemma_smt_local_child(m1: Map<Seq<u8>, Seq<u8>>, m2: Map<Seq<u8>, Seq<u8>>, prefix: Seq<bool>, bit: bool)
    requires
        prefix.len() < 256,
        forall|k: Seq<u8>| #[trigger] under(k, prefix) ==> (m1.contains_key(k) <==> m2.contains_key(k)),
        forall|k: Seq<u8>| #[trigger] under(k, prefix) && m1.contains_key(k) ==> m1[k] == m2[k],
    ensures
        smt_hash(m1, prefix.push(bit)) == smt_hash(m2, prefix.push(bit)),
    decreases 256 - prefix.len(), 0nat,
{
    assert forall|k: Seq<u8>| #[trigger] under(k, prefix.push(bit)) implies under(k, prefix) by {
        lemma_under_shorter(k, prefix, bit);
    }
    lemma_smt_local(m1, m2, prefix.push(bit));
}

/// A key that begins with a prefix and one more bit begins with the prefix.
pub proof fn lemma_under_shorter(k: Seq<u8>, prefix: Seq<bool>, bit: bool)
    requires
        under(k, prefix.push(bit)),
    ensures
        under(k, prefix),
        key_bit(k, prefix.len() as int) == bit,
{
    let longer = prefix.push(bit);
    assert forall|i: int| 0 <= i < prefix.len() implies key_bit(k, i) == #[trigger] prefix[i] by {
        assert(longer[i] == prefix[i]);
    }
    assert(longer[prefix.len() as int] == bit);
}

/// A subtree.
#[derive(Debug)]
pub enum Node {
    /// No leaf.
    Empty,
    /// A leaf, at depth 256: its key, its value, and the entry that the
    /// value is the hash of.
    Leaf { key: [u8; 32], value: [u8; 32], entry: UtxoEntry },
    /// Two halves, and the hash of the subtree.
    Branch { hash: [u8; 32], left: Box<Node>, right: Box<Node> },
}

/// What a leaf is made of.
#[derive(Debug)]
pub struct LeafData {
    pub value: [u8; 32],
    pub entry: UtxoEntry,
}

/// The view of an entry in a leaf: the outpoint and what is held for it.
pub open spec fn leaf_view(e: UtxoEntry) -> SpentView {
    SpentView { outpoint: e.outpoint, coin: e@ }
}

/// The map from keys to values that a subtree holds.
pub open spec fn node_map(n: Node) -> Map<Seq<u8>, Seq<u8>>
    decreases n,
{
    match n {
        Node::Empty => Map::<Seq<u8>, Seq<u8>>::empty(),
        Node::Leaf { key, value, entry } => Map::<Seq<u8>, Seq<u8>>::empty().insert(key@, value@),
        Node::Branch { hash, left, right } => node_map(*left).union_prefer_right(node_map(*right)),
    }
}

/// The map from keys to entries that a subtree holds.
pub open spec fn node_entries(n: Node) -> Map<Seq<u8>, SpentView>
    decreases n,
{
    match n {
        Node::Empty => Map::<Seq<u8>, SpentView>::empty(),
        Node::Leaf { key, value, entry } => Map::<Seq<u8>, SpentView>::empty().insert(key@, leaf_view(entry)),
        Node::Branch { hash, left, right } => node_entries(*left).union_prefer_right(node_entries(*right)),
    }
}

/// The number of leaves of a subtree.
pub open spec fn leaf_count(n: Node) -> nat
    decreases n,
{
    match n {
        Node::Empty => 0,
        Node::Leaf { key, value, entry } => 1,
        Node::Branch { hash, left, right } => leaf_count(*left) + leaf_count(*right),
    }
}

/// The hash that a subtree at depth `d` carries.
pub open spec fn node_hash(n: Node, d: nat) -> Seq<u8> {
    match n {
        Node::Empty => empty_hash(d),
        Node::Leaf { key, value, entry } => value@,
        Node::Branch { hash, left, right } => hash@,
    }
}

/// Whether a subtree is in order at the place that `prefix` names: leaves
/// are at depth 256 under their key, and every other subtree carries the
/// SHA-256 of the hashes of its halves.
pub open spec fn node_wf(n: Node, prefix: Seq<bool>) -> bool
    decreases n,
{
    match n {
        Node::Empty => true,
        Node::Leaf { key, value, entry } => prefix.len() == 256 && under(key@, prefix),
        Node::Branch { hash, left, right } => prefix.len() < 256 && node_wf(*left, prefix.push(false))
            && node_wf(*right, prefix.push(true)) && hash@ == sha256_digest(
            node_hash(*left, prefix.len() + 1) + node_hash(*right, prefix.len() + 1),
        ),
    }
}

/// The key of an outpoint: the SHA-256 of its 36 bytes.
pub open spec fn key_spec(p: OutPoint) -> Seq<u8> {
    sha256_digest(outpoint_bytes(p))
}

/// The bytes of an unspent output: `value LE8 || height LE4 || varint(len) || script`.
pub open spec fn utxo_bytes(u: UtxoView) -> Seq<u8> {
    le_bytes(i64_bits(u.value), 8) + le_bytes(u.height as nat, 4) + varint_spec(u.script_pubkey.len())
        + u.script_pubkey
}

/// The value of the leaf of an unspent output: the SHA-256 of its bytes.
pub open spec fn leaf_spec(u: UtxoView) -> Seq<u8> {
    sha256_digest(utxo_bytes(u))
}

/// Whether every leaf is keyed by the hash of its outpoint and valued by
/// the hash of its unspent output.
pub open spec fn node_coherent(n: Node) -> bool
    decreases n,
{
    match n {
        Node::Empty => true,
        Node::Leaf { key, value, entry } => key@ == key_spec(entry.outpoint) && value@ == leaf_spec(entry@.utxo),
        Node::Branch { hash, left, right } => node_coherent(*left) && node_coherent(*right),
    }
}

/// The keys of a subtree in order begin with its prefix.
pub proof fn lemma_keys_under(n: Node, prefix: Seq<bool>)
    requires
        node_wf(n, prefix),
    ensures
        forall|k: Seq<u8>| node_map(n).contains_key(k) ==> #[trigger] under(k, prefix),
        forall|k: Seq<u8>| #[trigger] node_entries(n).contains_key(k) <==> node_map(n).contains_key(k),
        node_entries(n).dom() == node_map(n).dom(),
    decreases n,
{
    match n {
        Node::Empty => {
            assert(node_entries(n).dom() =~= node_map(n).dom());
        },
        Node::Leaf { key, value, entry } => {
            assert(node_entries(n).dom() =~= node_map(n).dom());
        },
        Node::Branch { hash, left, right } => {
            lemma_keys_under(*left, prefix.push(false));
            lemma_keys_under(*right, prefix.push(true));
            assert(node_entries(n).dom() =~= node_map(n).dom());
            assert forall|k: Seq<u8>| node_map(n).contains_key(k) implies #[trigger] under(k, prefix) by {
                if node_map(*right).contains_key(k) {
                    lemma_under_shorter(k, prefix, true);
                } else {
                    lemma_under_shorter(k, prefix, false);
                }
            }
        },
    }
}

/// In a subtree whose leaves are coherent, every key is the key of the
/// outpoint of its entry, and every value the hash of its unspent output.
pub proof fn lemma_coherent(n: Node, prefix: Seq<bool>)
    requires
        node_wf(n, prefix),
        node_coherent(n),
    ensures
        forall|k: Seq<u8>| #[trigger]
            node_entries(n).contains_key(k) ==> k == key_spec(node_entries(n)[k].outpoint) && node_map(n)[k]
                == leaf_spec(node_entries(n)[k].coin.utxo),
    decreases n,
{
    lemma_keys_under(n, prefix);
    match n {
        Node::Empty => {},
        Node::Leaf { key, value, entry } => {},
        Node::Branch { hash, left, right } => {
            lemma_coherent(*left, prefix.push(false));
            lemma_coherent(*right, prefix.push(true));
            lemma_keys_under(*left, prefix.push(false));
            lemma_keys_under(*right, prefix.push(true));
            assert forall|k: Seq<u8>| #[trigger] node_entries(n).contains_key(k) implies k == key_spec(
                node_entries(n)[k].outpoint,
            ) && node_map(n)[k] == leaf_spec(node_entries(n)[k].coin.utxo) by {
                if node_entries(*right).contains_key(k) {
                    assert(node_map(*right).contains_key(k));
                } else {
                    assert(node_entries(*left).contains_key(k));
                    assert(node_map(*left).contains_key(k));
                    assert(!node_map(*right).contains_key(k));
                }
            }
        },
    }
}

/// The hash that a subtree in order carries is the hash of the map it holds.
pub proof fn lemma_node_hash(n: Node, prefix: Seq<bool>)
    requires
        node_wf(n, prefix),
    ensures
        node_hash(n, prefix.len()) == smt_hash(node_map(n), prefix),
    decreases n,
{
    let m = node_map(n);
    lemma_keys_under(n, prefix);
    match n {
        Node::Empty => {},
        Node::Leaf { key, value, entry } => {
            assert(m.contains_key(key@) && under(key@, prefix));
            lemma_key_from_bits(key@, key_at(m, prefix), prefix);
        },
        Node::Branch { hash, left, right } => {
            let ml = node_map(*left);
            let mr = node_map(*right);
            let p0 = prefix.push(false);
            let p1 = prefix.push(true);
            lemma_node_hash(*left, p0);
            lemma_node_hash(*right, p1);
            lemma_keys_under(*left, p0);
            lemma_keys_under(*right, p1);
            assert forall|k: Seq<u8>| #[trigger] under(k, p0) implies (m.contains_key(k) <==> ml.contains_key(k))
                && (m.contains_key(k) ==> m[k] == ml[k]) by {
                lemma_under_shorter(k, prefix, false);
                if mr.contains_key(k) {
                    lemma_under_shorter(k, prefix, true);
                }
            }
            assert forall|k: Seq<u8>| #[trigger] under(k, p1) implies (m.contains_key(k) <==> mr.contains_key(k))
                && (m.contains_key(k) ==> m[k] == mr[k]) by {
                lemma_under_shorter(k, prefix, true);
                if ml.contains_key(k) {
                    lemma_under_shorter(k, prefix, false);
                }
            }
            lemma_smt_local(m, ml, p0);
            lemma_smt_local(m, mr, p1);
            if !occupied(m, prefix) {
                assert(!occupied(ml, p0)) by {
                    if occupied(ml, p0) {
                        let k = key_at(ml, p0);
                        assert(m.contains_key(k) && under(k, prefix));
                    }
                }
                assert(!occupied(mr, p1)) by {
                    if occupied(mr, p1) {
                        let k = key_at(mr, p1);
                        assert(m.contains_key(k) && under(k, prefix));
                    }
                }
            }
        },
    }
}

/// Whether a table holds the hashes of the empty subtrees, the deepest first.
pub open spec fn levels_ok(levels: Seq<[u8; 32]>) -> bool {
    levels.len() == 257 && forall|i: int| 0 <= i <= 256 ==> (#[trigger] levels[i])@ == empty_hash((256 - i) as nat)
}

/// The map after a key is set to a value, or cleared.
pub open spec fn updated<V>(m: Map<Seq<u8>, V>, key: Seq<u8>, value: Option<V>) -> Map<Seq<u8>, V> {
    match value {
        Some(v) => m.insert(key, v),
        None => m.remove(key),
    }
}

/// The value of a leaf that is set, if one is.
pub open spec fn data_value(data: Option<LeafData>) -> Option<Seq<u8>> {
    match data {
        Some(d) => Some(d.value@),
        None => None,
    }
}

/// The entry of a leaf that is set, if one is.
pub open spec fn data_entry(data: Option<LeafData>) -> Option<SpentView> {
    match data {
        Some(d) => Some(leaf_view(d.entry)),
        None => None,
    }
}

/// Bit `i` of a key.
fn key_bit_at(key: &[u8; 32], i: usize) -> (b: bool)
    requires
        i < 256,
    ensures
        b == key_bit(key@, i as int),
{
    let byte = key[i / 8];
    let j = i % 8;
    let weight: u8 = if j == 0 {
        128
    } else if j == 1 {
        64
    } else if j == 2 {
        32
    } else if j == 3 {
        16
    } else if j == 4 {
        8
    } else if j == 5 {
        4
    } else if j == 6 {
        2
    } else {
        1
    };
    (byte / weight) % 2 == 1
}

/// The SHA-256 of two hashes, one after the other.
fn hash_pair(left: &[u8; 32], right: &[u8; 32]) -> (h: [u8; 32])
    ensures
        h@ == sha256_digest(left@ + right@),
{
    let mut both: Vec<u8> = Vec::with_capacity(64);
    append_bytes(&mut both, left.as_slice());
    append_bytes(&mut both, right.as_slice());
    assert(both@ =~= left@ + right@);
    sha256(both.as_slice())
}

/// The hashes of the empty subtrees, the deepest first.
fn empty_levels() -> (levels: Vec<[u8; 32]>)
    ensures
        levels_ok(levels@),
{
    let mut levels: Vec<[u8; 32]> = Vec::with_capacity(257);
    let bottom = [0u8; 32];
    assert(bottom@ =~= zeros(32));
    levels.push(bottom);
    let mut i: usize = 1;
    while i <= 256
        invariant
            1 <= i <= 257,
            levels@.len() == i,
            forall|j: int| 0 <= j < i ==> (#[trigger] levels@[j])@ == empty_hash((256 - j) as nat),
        decreases 257 - i,
    {
        let below = levels[i - 1];
        let next = hash_pair(&below, &below);
        levels.push(next);
        i += 1;
    }
    levels
}

/// The hash that a subtree at `depth` carries.
fn hash_of(node: &Node, depth: usize, levels: &Vec<[u8; 32]>) -> (h: [u8; 32])
    requires
        depth <= 256,
        levels_ok(levels@),
    ensures
        h@ == node_hash(*node, depth as nat),
{
    match node {
        Node::Empty => levels[256 - depth],
        Node::Leaf { key, value, entry } => *value,
        Node::Branch { hash, left, right } => *hash,
    }
}

/// Whether a subtree holds no leaf at all.
fn is_empty_node(node: &Node) -> (r: bool)
    ensures
        r == (*node is Empty),
{
    match node {
        Node::Empty => true,
        _ => false,
    }
}

proof fn lemma_update_side<V>(
    ml: Map<Seq<u8>, V>,
    mr: Map<Seq<u8>, V>,
    key: Seq<u8>,
    value: Option<V>,
    prefix: Seq<bool>,
    bit: bool,
)
    requires
        prefix.len() < 256,
        under(key, prefix.push(bit)),
        forall|k: Seq<u8>| ml.contains_key(k) ==> #[trigger] under(k, prefix.push(false)),
        forall|k: Seq<u8>| mr.contains_key(k) ==> #[trigger] under(k, prefix.push(true)),
    ensures
        bit ==> ml.union_prefer_right(updated(mr, key, value)) == updated(ml.union_prefer_right(mr), key, value),
        !bit ==> updated(ml, key, value).union_prefer_right(mr) == updated(ml.union_prefer_right(mr), key, value),
{
    lemma_under_shorter(key, prefix, bit);
    if bit {
        if ml.contains_key(key) {
            lemma_under_shorter(key, prefix, false);
        }
        assert(ml.union_prefer_right(updated(mr, key, value)) =~= updated(
            ml.union_prefer_right(mr),
            key,
            value,
        ));
    } else {
        if mr.contains_key(key) {
            lemma_under_shorter(key, prefix, true);
        }
        assert(updated(ml, key, value).union_prefer_right(mr) =~= updated(
            ml.union_prefer_right(mr),
            key,
            value,
        ));
    }
}

/// The subtree after `key` is set to a leaf, or cleared. The second part of
/// the result is the entry that the key held before.
fn update(node: Node, depth: usize, key: &[u8; 32], data: Option<LeafData>, levels: &Vec<[u8; 32]>) -> (r: (
    Node,
    Option<UtxoEntry>,
))
    requires
        depth <= 256,
        levels_ok(levels@),
        node_wf(node, prefix_of(key@, depth as int)),
    ensures
        node_wf(r.0, prefix_of(key@, depth as int)),
        node_map(r.0) == updated(node_map(node), key@, data_value(data)),
        node_entries(r.0) == updated(node_entries(node), key@, data_entry(data)),
        leaf_count(r.0) + (if node_map(node).contains_key(key@) { 1nat } else { 0nat }) == leaf_count(node) + (
        if data is Some { 1nat } else { 0nat }),
        node_coherent(node) && (data is Some ==> key@ == key_spec(data->Some_0.entry.outpoint)
            && data->Some_0.value@ == leaf_spec(data->Some_0.entry@.utxo)) ==> node_coherent(r.0),
        match r.1 {
            Some(before) => node_entries(node).contains_key(key@) && node_entries(node)[key@] == leaf_view(
                before,
            ),
            None => !node_entries(node).contains_key(key@),
        },
    decreases 256 - depth,
{
    let ghost prefix = prefix_of(key@, depth as int);
    proof {
        lemma_keys_under(node, prefix);
    }
    if depth == 256 {
        proof {
            assert(under(key@, prefix));
            match node {
                Node::Leaf { key: other, value: _, entry: _ } => {
                    lemma_key_from_bits(other@, key@, prefix);
                },
                _ => {},
            }
        }
        let before = match node {
            Node::Leaf { key: _, value: _, entry } => Some(entry),
            _ => None,
        };
        match data {
            Some(d) => {
                let r = Node::Leaf { key: *key, value: d.value, entry: d.entry };
                assert(node_map(r) =~= updated(node_map(node), key@, data_value(data)));
                assert(node_entries(r) =~= updated(node_entries(node), key@, data_entry(data)));
                (r, before)
            },
            None => {
                assert(node_map(Node::Empty) =~= updated(node_map(node), key@, data_value(data)));
                assert(node_entries(Node::Empty) =~= updated(node_entries(node), key@, data_entry(data)));
                (Node::Empty, before)
            },
        }
    } else {
        let bit = key_bit_at(key, depth);
        let ghost p0 = prefix.push(false);
        let ghost p1 = prefix.push(true);
        assert(prefix.push(bit) =~= prefix_of(key@, depth + 1));
        let (left, right) = match node {
            Node::Branch { hash, left, right } => (*left, *right),
            _ => (Node::Empty, Node::Empty),
        };
        proof {
            assert(node_wf(left, p0) && node_wf(right, p1));
            assert(node_map(node) =~= node_map(left).union_prefer_right(node_map(right)));
            assert(node_entries(node) =~= node_entries(left).union_prefer_right(node_entries(right)));
            assert(leaf_count(node) == leaf_count(left) + leaf_count(right));
            assert(node_coherent(node) ==> node_coherent(left) && node_coherent(right));
            lemma_keys_under(left, p0);
            lemma_keys_under(right, p1);
            assert(under(key@, prefix_of(key@, depth + 1)));
            lemma_update_side(node_map(left), node_map(right), key@, data_value(data), prefix, bit);
            lemma_update_side(node_entries(left), node_entries(right), key@, data_entry(data), prefix, bit);
            lemma_under_shorter(key@, prefix, bit);
            if bit && node_map(left).contains_key(key@) {
                lemma_under_shorter(key@, prefix, false);
            }
            if !bit && node_map(right).contains_key(key@) {
                lemma_under_shorter(key@, prefix, true);
            }
        }
        let (left2, right2, before) = if bit {
            let (changed, before) = update(right, depth + 1, key, data, levels);
            (left, changed, before)
        } else {
            let (changed, before) = update(left, depth + 1, key, data, levels);
            (changed, right, before)
        };
        if is_empty_node(&left2) && is_empty_node(&right2) {
            assert(node_map(Node::Empty) =~= node_map(left2).union_prefer_right(node_map(right2)));
            assert(node_entries(Node::Empty) =~= node_entries(left2).union_prefer_right(node_entries(right2)));
            (Node::Empty, before)
        } else {
            let hl = hash_of(&left2, depth + 1, levels);
            let hr = hash_of(&right2, depth + 1, levels);
            let hash = hash_pair(&hl, &hr);
            (Node::Branch { hash, left: Box::new(left2), right: Box::new(right2) }, before)
        }
    }
}

/// The entry that the subtree holds for `key`, if it holds one.
fn lookup<'a>(node: &'a Node, depth: usize, key: &[u8; 32]) -> (r: Option<&'a UtxoEntry>)
    requires
        depth <= 256,
        node_wf(*node, prefix_of(key@, depth as int)),
    ensures
        match r {
            Some(e) => node_entries(*node).contains_key(key@) && node_entries(*node)[key@] == leaf_view(*e),
            None => !node_entries(*node).contains_key(key@),
        },
    decreases 256 - depth,
{
    let ghost prefix = prefix_of(key@, depth as int);
    match node {
        Node::Empty => None,
        Node::Leaf { key: other, value, entry } => {
            proof {
                assert(under(key@, prefix));
                lemma_key_from_bits(other@, key@, prefix);
            }
            Some(entry)
        },
        Node::Branch { hash, left, right } => {
            let bit = key_bit_at(key, depth);
            proof {
                assert(prefix.push(bit) =~= prefix_of(key@, depth + 1));
                lemma_keys_under(**left, prefix.push(false));
                lemma_keys_under(**right, prefix.push(true));
                assert(under(key@, prefix_of(key@, depth + 1)));
                lemma_under_shorter(key@, prefix, bit);
                if node_map(**left).contains_key(key@) {
                    lemma_under_shorter(key@, prefix, false);
                }
                if node_map(**right).contains_key(key@) {
                    lemma_under_shorter(key@, prefix, true);
                }
            }
            if bit {
                lookup(right, depth + 1, key)
            } else {
                lookup(left, depth + 1, key)
            }
        },
    }
}

/// The map from outpoints to what is held for them, made from the entries
/// of the leaves: an outpoint is held where the leaf at its key holds it.
pub open spec fn entries_view(es: Map<Seq<u8>, SpentView>) -> Map<OutPoint, CoinView> {
    Map::new(
        |p: OutPoint| es.contains_key(key_spec(p)) && es[key_spec(p)].outpoint == p,
        |p: OutPoint| es[key_spec(p)].coin,
    )
}

/// An outpoint of the set whose key is `k`.
pub open spec fn outpoint_at(m: Map<OutPoint, CoinView>, k: Seq<u8>) -> OutPoint {
    choose|p: OutPoint| m.contains_key(p) && key_spec(p) == k
}

/// The leaves of the tree over a set of unspent outputs: for each outpoint
/// its key, and under it the hash of the unspent output.
pub open spec fn leaf_map(m: Map<OutPoint, CoinView>) -> Map<Seq<u8>, Seq<u8>> {
    Map::new(
        |k: Seq<u8>| exists|p: OutPoint| m.contains_key(p) && key_spec(p) == k,
        |k: Seq<u8>| leaf_spec(m[outpoint_at(m, k)].utxo),
    )
}

/// The commitment root of a set of unspent outputs: the root of the tree
/// over its leaves. It is a function of the set alone.
pub open spec fn commitment_root(m: Map<OutPoint, CoinView>) -> Seq<u8> {
    smt_root(leaf_map(m))
}

/// The set without the outpoints whose key is `k`.
pub open spec fn without_key(m: Map<OutPoint, CoinView>, k: Seq<u8>) -> Map<OutPoint, CoinView> {
    Map::new(|q: OutPoint| m.contains_key(q) && key_spec(q) != k, |q: OutPoint| m[q])
}

/// The leaves of a tree in order are the leaves of the set that it holds.
proof fn lemma_leaf_map(n: Node)
    requires
        node_wf(n, Seq::<bool>::empty()),
        node_coherent(n),
    ensures
        leaf_map(entries_view(node_entries(n))) == node_map(n),
{
    let es = node_entries(n);
    let m = entries_view(es);
    lemma_keys_under(n, Seq::<bool>::empty());
    lemma_coherent(n, Seq::<bool>::empty());
    assert forall|k: Seq<u8>| leaf_map(m).contains_key(k) <==> node_map(n).contains_key(k) by {
        if node_map(n).contains_key(k) {
            assert(es.contains_key(k));
            let p = es[k].outpoint;
            assert(m.contains_key(p) && key_spec(p) == k);
        }
        if leaf_map(m).contains_key(k) {
            let p = outpoint_at(m, k);
            assert(es.contains_key(k));
        }
    }
    assert forall|k: Seq<u8>| leaf_map(m).contains_key(k) implies leaf_map(m)[k] == node_map(n)[k] by {
        let p = outpoint_at(m, k);
        assert(es.contains_key(k));
        assert(m[p] == es[k].coin);
    }
    assert(leaf_map(m) =~= node_map(n));
}

/// A subtree in order holds as many keys as it has leaves.
proof fn lemma_leaf_count(n: Node, prefix: Seq<bool>)
    requires
        node_wf(n, prefix),
    ensures
        node_map(n).dom().finite(),
        node_map(n).dom().len() == leaf_count(n),
    decreases n,
{
    match n {
        Node::Empty => {
            assert(node_map(n).dom() =~= Set::<Seq<u8>>::empty());
        },
        Node::Leaf { key, value, entry } => {
            assert(node_map(n).dom() =~= Set::<Seq<u8>>::empty().insert(key@));
        },
        Node::Branch { hash, left, right } => {
            let dl = node_map(*left).dom();
            let dr = node_map(*right).dom();
            lemma_leaf_count(*left, prefix.push(false));
            lemma_leaf_count(*right, prefix.push(true));
            lemma_keys_under(*left, prefix.push(false));
            lemma_keys_under(*right, prefix.push(true));
            assert(node_map(n).dom() =~= dl.union(dr));
            assert(dl.disjoint(dr)) by {
                assert forall|k: Seq<u8>| dl.contains(k) implies !dr.contains(k) by {
                    if dr.contains(k) {
                        lemma_under_shorter(k, prefix, false);
                        lemma_under_shorter(k, prefix, true);
                    }
                }
            }
            vstd::set_lib::lemma_set_disjoint_lens(dl, dr);
        },
    }
}

/// A tree in order holds as many outpoints as it has leaves.
proof fn lemma_view_count(n: Node)
    requires
        node_wf(n, Seq::<bool>::empty()),
        node_coherent(n),
    ensures
        entries_view(node_entries(n)).dom().finite(),
        entries_view(node_entries(n)).dom().len() == leaf_count(n),
{
    let es = node_entries(n);
    let keys = es.dom();
    let held = entries_view(es).dom();
    let f = |k: Seq<u8>| es[k].outpoint;
    lemma_leaf_count(n, Seq::<bool>::empty());
    lemma_keys_under(n, Seq::<bool>::empty());
    lemma_coherent(n, Seq::<bool>::empty());
    assert(vstd::relations::injective_on(f, keys)) by {
        assert forall|k1: Seq<u8>, k2: Seq<u8>|
            keys.contains(k1) && keys.contains(k2) && #[trigger] f(k1) == #[trigger] f(k2) implies k1 == k2 by {
            assert(es.contains_key(k1) && es.contains_key(k2));
        }
    }
    assert(keys.map(f) =~= held) by {
        assert forall|p: OutPoint| keys.map(f).contains(p) <==> held.contains(p) by {
            if keys.map(f).contains(p) {
                let k = choose|k: Seq<u8>| keys.contains(k) && p == f(k);
                assert(es.contains_key(k));
            }
            if held.contains(p) {
                assert(keys.contains(key_spec(p)) && p == f(key_spec(p)));
            }
        }
    }
    vstd::set_lib::lemma_map_size(keys, held, f);
}

/// Whether no two outpoints of the set have the same key.
pub open spec fn one_per_key(m: Map<OutPoint, CoinView>) -> bool {
    forall|p: OutPoint, q: OutPoint|
        m.contains_key(p) && m.contains_key(q) && key_spec(p) == key_spec(q) ==> p == q
}

/// Whether the set holds an outpoint whose key is `k`.
pub open spec fn key_taken(m: Map<OutPoint, CoinView>, k: Seq<u8>) -> bool {
    exists|q: OutPoint| m.contains_key(q) && key_spec(q) == k
}

/// A number of entries as a commitment records it: the largest number of 64
/// bits stands for every larger one.
pub open spec fn recorded_count(n: nat) -> u64 {
    if n <= u64::MAX {
        n as u64
    } else {
        u64::MAX
    }
}

/// Putting two outpoints with different keys into a set gives the same set
/// in either order, and so the same commitment root: the root does not
/// depend on the order in which the set was filled.
pub proof fn lemma_insertion_order(m: Map<OutPoint, CoinView>, x: OutPoint, cx: CoinView, y: OutPoint, cy: CoinView)
    requires
        key_spec(x) != key_spec(y),
    ensures
        without_key(without_key(m, key_spec(x)).insert(x, cx), key_spec(y)).insert(y, cy) == without_key(
            without_key(m, key_spec(y)).insert(y, cy),
            key_spec(x),
        ).insert(x, cx),
        commitment_root(without_key(without_key(m, key_spec(x)).insert(x, cx), key_spec(y)).insert(y, cy))
            == commitment_root(
            without_key(without_key(m, key_spec(y)).insert(y, cy), key_spec(x)).insert(x, cx),
        ),
{
    assert(without_key(without_key(m, key_spec(x)).insert(x, cx), key_spec(y)).insert(y, cy) =~= without_key(
        without_key(m, key_spec(y)).insert(y, cy),
        key_spec(x),
    ).insert(x, cx));
}

/// The key of an outpoint: the SHA-256 of its 36 bytes.
pub fn outpoint_key(outpoint: &OutPoint) -> (k: [u8; 32])
    ensures
        k@ == key_spec(*outpoint),
{
    let mut bytes: Vec<u8> = Vec::with_capacity(36);
    append_bytes(&mut bytes, outpoint.hash.as_slice());
    append_le(&mut bytes, outpoint.index as u64, 4);
    assert(bytes@ =~= outpoint_bytes(*outpoint));
    sha256(bytes.as_slice())
}

/// The value of the leaf of an unspent output: the SHA-256 of its bytes.
pub fn utxo_leaf(utxo: &UTXO) -> (v: [u8; 32])
    ensures
        v@ == leaf_spec(utxo@),
{
    let mut bytes: Vec<u8> = Vec::new();
    append_le(&mut bytes, i64_to_bits(utxo.value), 8);
    append_le(&mut bytes, utxo.height as u64, 4);
    append_varint(&mut bytes, utxo.script_pubkey.len() as u64);
    append_bytes(&mut bytes, utxo.script_pubkey.as_slice());
    assert(bytes@ =~= utxo_bytes(utxo@));
    sha256(bytes.as_slice())
}

/// The number of leaves of a subtree, or the largest number of 64 bits
/// where there are more.
fn count_leaves(node: &Node) -> (n: u64)
    ensures
        n as nat == if leaf_count(*node) <= u64::MAX {
            leaf_count(*node)
        } else {
            u64::MAX as nat
        },
    decreases node,
{
    match node {
        Node::Empty => 0,
        Node::Leaf { key, value, entry } => 1,
        Node::Branch { hash, left, right } => {
            let a = count_leaves(left);
            let b = count_leaves(right);
            a.saturating_add(b)
        },
    }
}

/// The sparse Merkle tree over the set of unspent outputs.
///
/// The leaf of an outpoint lies under the SHA-256 of the outpoint and holds
/// the SHA-256 of the unspent output. The tree holds at most one outpoint
/// for each key.
#[derive(Debug)]
pub struct UtxoMerkleTree {
    root: Node,
    levels: Vec<[u8; 32]>,
}

impl UtxoMerkleTree {
    #[verifier::type_invariant]
    spec fn in_order(self) -> bool {
        node_wf(self.root, Seq::<bool>::empty()) && node_coherent(self.root) && levels_ok(self.levels@)
    }

    /// The set of unspent outputs that the tree holds.
    pub closed spec fn view(&self) -> Map<OutPoint, CoinView> {
        entries_view(node_entries(self.root))
    }

    /// The number of unspent outputs in the set.
    pub open spec fn spec_len(&self) -> nat {
        self@.dom().len()
    }

    /// A tree over the empty set.
    pub fn new() -> (t: UtxoMerkleTree)
        ensures
            t@ == Map::<OutPoint, CoinView>::empty(),
            t.spec_len() == 0,
    {
        let t = UtxoMerkleTree { root: Node::Empty, levels: empty_levels() };
        assert(t@ =~= Map::<OutPoint, CoinView>::empty());
        assert(t@.dom() =~= Set::<OutPoint>::empty());
        t
    }

    /// The commitment root: a function of the set that the tree holds, and
    /// of nothing else.
    pub fn root(&self) -> (r: [u8; 32])
        ensures
            r@ == commitment_root(self@),
    {
        proof {
            use_type_invariant(self);
            lemma_node_hash(self.root, Seq::<bool>::empty());
            lemma_leaf_map(self.root);
        }
        hash_of(&self.root, 0, &self.levels)
    }

    /// The number of unspent outputs in the tree, or the largest number of
    /// 64 bits where there are more.
    pub fn utxo_count(&self) -> (n: u64)
        ensures
            self@.dom().finite(),
            n == recorded_count(self@.dom().len()),
    {
        proof {
            use_type_invariant(self);
            lemma_view_count(self.root);
        }
        count_leaves(&self.root)
    }

    /// The entry that the tree holds for `outpoint`, if it holds one.
    pub fn get_entry(&self, outpoint: &OutPoint) -> (r: Option<&UtxoEntry>)
        ensures
            match r {
                Some(e) => self@.contains_key(*outpoint) && self@[*outpoint] == e@ && e.outpoint
                    == *outpoint,
                None => !self@.contains_key(*outpoint),
            },
    {
        proof {
            use_type_invariant(self);
        }
        let key = outpoint_key(outpoint);
        assert(prefix_of(key@, 0) =~= Seq::<bool>::empty());
        match lookup(&self.root, 0, &key) {
            Some(e) => {
                if e.outpoint.same(outpoint) {
                    Some(e)
                } else {
                    None
                }
            },
            None => None,
        }
    }

    /// The unspent output that the tree holds for `outpoint`, if it holds one.
    pub fn get(&self, outpoint: &OutPoint) -> (r: Option<&UTXO>)
        ensures
            match r {
                Some(u) => self@.contains_key(*outpoint) && self@[*outpoint].utxo == u@,
                None => !self@.contains_key(*outpoint),
            },
    {
        match self.get_entry(outpoint) {
            Some(e) => Some(&e.utxo),
            None => None,
        }
    }

    /// The tree holds at most one outpoint for each key.
    pub proof fn lemma_one_per_key(&self)
        ensures
            one_per_key(self@),
    {
    }

    /// Puts an entry into the tree under its outpoint. An outpoint with the
    /// same key, if the tree held one, leaves the tree.
    pub fn insert_entry(&mut self, entry: UtxoEntry)
        ensures
            final(self)@ == without_key(old(self)@, key_spec(entry.outpoint)).insert(entry.outpoint, entry@),
            (forall|q: OutPoint|
                old(self)@.contains_key(q) && key_spec(q) == key_spec(entry.outpoint) ==> q
                    == entry.outpoint) ==> final(self)@ == old(self)@.insert(entry.outpoint, entry@),
    {
        let _ = self.replace_entry(entry);
    }

    /// Puts an entry into the tree under its outpoint, and hands back the
    /// entry that the tree held under the same key, if it held one: that
    /// entry leaves the tree.
    pub fn replace_entry(&mut self, entry: UtxoEntry) -> (r: Option<UtxoEntry>)
        ensures
            final(self)@ == without_key(old(self)@, key_spec(entry.outpoint)).insert(entry.outpoint, entry@),
            (forall|q: OutPoint|
                old(self)@.contains_key(q) && key_spec(q) == key_spec(entry.outpoint) ==> q
                    == entry.outpoint) ==> final(self)@ == old(self)@.insert(entry.outpoint, entry@),
            match r {
                Some(e) => old(self)@.contains_key(e.outpoint) && old(self)@[e.outpoint] == e@ && key_spec(
                    e.outpoint,
                ) == key_spec(entry.outpoint),
                None => !key_taken(old(self)@, key_spec(entry.outpoint)),
            },
    {
        proof {
            use_type_invariant(&*self);
            lemma_coherent(self.root, Seq::<bool>::empty());
        }
        let key = outpoint_key(&entry.outpoint);
        let value = utxo_leaf(&entry.utxo);
        assert(prefix_of(key@, 0) =~= Seq::<bool>::empty());
        let ghost es = node_entries(self.root);
        let ghost p = entry.outpoint;
        let ghost c = entry@;
        let mut root = Node::Empty;
        core::mem::swap(&mut self.root, &mut root);
        let (mut changed, before) = update(root, 0, &key, Some(LeafData { value, entry }), &self.levels);
        core::mem::swap(&mut self.root, &mut changed);
        let ghost held = before;
        proof {
            let es2 = node_entries(self.root);
            assert(es2 == es.insert(key@, SpentView { outpoint: p, coin: c }));
            assert(self@ =~= without_key(entries_view(es), key_spec(p)).insert(p, c));
            if forall|q: OutPoint| old(self)@.contains_key(q) && key_spec(q) == key_spec(p) ==> q == p {
                assert(without_key(old(self)@, key_spec(p)).insert(p, c) =~= old(self)@.insert(p, c));
            }
            match held {
                Some(e) => {
                    assert(es.contains_key(key@) && es[key@] == leaf_view(e));
                    assert(key@ == key_spec(e.outpoint));
                },
                None => {
                    if key_taken(old(self)@, key_spec(p)) {
                        let q = choose|q: OutPoint| old(self)@.contains_key(q) && key_spec(q) == key_spec(p);
                        assert(es.contains_key(key_spec(q)));
                    }
                },
            }
        }
        before
    }

    /// Puts an unspent output into the tree under `outpoint`, and gives the
    /// new root.
    pub fn insert(&mut self, outpoint: OutPoint, utxo: UTXO) -> (r: [u8; 32])
        ensures
            final(self)@ == without_key(old(self)@, key_spec(outpoint)).insert(
                outpoint,
                (CoinView { utxo: utxo@, coinbase: false }),
            ),
            r@ == commitment_root(final(self)@),
    {
        self.insert_entry(UtxoEntry { outpoint, utxo, coinbase: false });
        self.root()
    }

    /// Takes the unspent output that `outpoint` names out of the tree, if
    /// the tree holds it.
    pub fn remove(&mut self, outpoint: &OutPoint) -> (r: Option<UTXO>)
        ensures
            final(self)@ == old(self)@.remove(*outpoint),
            match r {
                Some(u) => old(self)@.contains_key(*outpoint) && old(self)@[*outpoint].utxo == u@,
                None => !old(self)@.contains_key(*outpoint),
            },
    {
        match self.remove_entry(outpoint) {
            Some(e) => Some(e.utxo),
            None => None,
        }
    }

    /// Takes the entry that `outpoint` names out of the tree, if the tree
    /// holds it.
    pub fn remove_entry(&mut self, outpoint: &OutPoint) -> (r: Option<UtxoEntry>)
        ensures
            final(self)@ == old(self)@.remove(*outpoint),
            match r {
                Some(e) => old(self)@.contains_key(*outpoint) && old(self)@[*outpoint] == e@ && e.outpoint
                    == *outpoint,
                None => !old(self)@.contains_key(*outpoint),
            },
    {
        proof {
            use_type_invariant(&*self);
        }
        let key = outpoint_key(outpoint);
        assert(prefix_of(key@, 0) =~= Seq::<bool>::empty());
        let held = match lookup(&self.root, 0, &key) {
            Some(e) => e.outpoint.same(outpoint),
            None => false,
        };
        if !held {
            assert(self@ =~= self@.remove(*outpoint));
            return None;
        }
        let ghost es = node_entries(self.root);
        let mut root = Node::Empty;
        core::mem::swap(&mut self.root, &mut root);
        let (mut changed, before) = update(root, 0, &key, None, &self.levels);
        core::mem::swap(&mut self.root, &mut changed);
        proof {
            assert(node_entries(self.root) == es.remove(key@));
            assert(self@ =~= entries_view(es).remove(*outpoint));
        }
        before
    }

    /// The commitment to the set at the block with the given hash and height.
    pub fn generate_commitment(&self, block_hash: [u8; 32], height: u32) -> (c: UtxoCommitment)
        ensures
            c.root@ == commitment_root(self@),
            c.height == height,
            c.block_hash == block_hash,
            c.utxo_count == recorded_count(self@.dom().len()),
    {
        UtxoCommitment { root: self.root(), height, block_hash, utxo_count: self.utxo_count() }
    }
}

} // verus!
