//! Wire format of block headers and blocks.
//!
//! A header is 80 bytes: `version LE4 || prev_hash 32 || merkle_root 32 ||
//! timestamp LE4 || bits LE4 || nonce LE4`. A block is its header, the
//! count of its transactions, and the transactions.

use vstd::prelude::*;
use crate::bytes::{append_bytes, append_le, hash_eq, hash_of_seq, i32_bits, i32_to_bits, le_bytes, lemma_hash_of_seq, lemma_le_bytes_len};
use crate::crypto::{double_sha256, double_sha256_spec};
use crate::bytes::{i32_from_bits, le_value, lemma_le_roundtrip, lemma_le_value_bytes, lemma_pow256_values, lemma_split, lemma_tail, read_hash, read_le};
use crate::serialization::decode::{encodable, i32_of_bits, lemma_held_is_encodable, lemma_tx_at, read_tx_at, tx_at, varint_at, DecodeError};
use crate::serialization::transaction::{append_bytes_of_tx, lemma_tx_size, tx_bytes, tx_size};
use crate::serialization::varint::{append_varint, decode_varint, lemma_parse_varint_canonical, lemma_varint_len, lemma_varint_roundtrip, varint_len, varint_spec, VarIntError};
use crate::types::{Block, BlockHeader, BlockView, Transaction, TxView};
use vstd::slice::slice_subrange;

verus! {

/// The 80 bytes of a header.
pub open spec fn header_bytes(h: BlockHeader) -> Seq<u8> {
    le_bytes(i32_bits(h.version), 4) + h.prev_block_hash@ + h.merkle_root@ + le_bytes(h.timestamp as nat, 4)
        + le_bytes(h.bits as nat, 4) + le_bytes(h.nonce as nat, 4)
}

/// The hash of a header: the double SHA-256 of its 80 bytes.
pub open spec fn block_hash_spec(h: BlockHeader) -> [u8; 32] {
    hash_of_seq(double_sha256_spec(header_bytes(h)))
}

/// The bytes of a header are 80.
pub proof fn lemma_header_len(h: BlockHeader)
    ensures
        header_bytes(h).len() == 80,
{
    lemma_le_bytes_len(i32_bits(h.version), 4);
    lemma_le_bytes_len(h.timestamp as nat, 4);
    lemma_le_bytes_len(h.bits as nat, 4);
    lemma_le_bytes_len(h.nonce as nat, 4);
}

/// The bytes of `header` on the wire.
pub fn serialize_block_header(header: &BlockHeader) -> (r: Vec<u8>)
    ensures
        r@ == header_bytes(*header),
        r@.len() == 80,
{
    let mut r: Vec<u8> = Vec::with_capacity(80);
    append_le(&mut r, i32_to_bits(header.version) as u64, 4);
    append_bytes(&mut r, header.prev_block_hash.as_slice());
    append_bytes(&mut r, header.merkle_root.as_slice());
    append_le(&mut r, header.timestamp as u64, 4);
    append_le(&mut r, header.bits as u64, 4);
    append_le(&mut r, header.nonce as u64, 4);
    proof {
        assert(r@ =~= header_bytes(*header));
        lemma_header_len(*header);
    }
    r
}

/// The hash of `header`: the double SHA-256 of its 80 bytes.
pub fn compute_block_hash(header: &BlockHeader) -> (h: [u8; 32])
    ensures
        h == block_hash_spec(*header),
        h@ == double_sha256_spec(header_bytes(*header)),
{
    let bytes = serialize_block_header(header);
    let h = double_sha256(bytes.as_slice());
    proof {
        lemma_hash_of_seq(h);
    }
    h
}

/// Whether two headers are the same.
pub fn header_eq(a: &BlockHeader, b: &BlockHeader) -> (r: bool)
    ensures
        r == (*a == *b),
{
    a.version == b.version && hash_eq(&a.prev_block_hash, &b.prev_block_hash) && hash_eq(
        &a.merkle_root,
        &b.merkle_root,
    ) && a.timestamp == b.timestamp && a.bits == b.bits && a.nonce == b.nonce
}

/// The header that is written at position `pos`.
pub open spec fn header_at(s: Seq<u8>, pos: int) -> Result<BlockHeader, DecodeError> {
    if pos < 0 || pos + 80 > s.len() {
        Err(DecodeError::UnexpectedEnd)
    } else {
        Ok(
            BlockHeader {
                version: i32_of_bits(le_value(s.subrange(pos, pos + 4))),
                prev_block_hash: hash_of_seq(s.subrange(pos + 4, pos + 36)),
                merkle_root: hash_of_seq(s.subrange(pos + 36, pos + 68)),
                timestamp: le_value(s.subrange(pos + 68, pos + 72)) as u32,
                bits: le_value(s.subrange(pos + 72, pos + 76)) as u32,
                nonce: le_value(s.subrange(pos + 76, pos + 80)) as u32,
            },
        )
    }
}

/// The header that the bytes `s` are the encoding of.
pub open spec fn parse_header(s: Seq<u8>) -> Result<BlockHeader, DecodeError> {
    if s.len() > 80 {
        Err(DecodeError::TrailingBytes)
    } else {
        header_at(s, 0)
    }
}

/// Where the bytes of a header stand at position `pos`, that header is read there.
pub proof fn lemma_header_at(s: Seq<u8>, pos: int, h: BlockHeader)
    requires
        0 <= pos,
        pos + 80 <= s.len(),
        s.subrange(pos, pos + 80) == header_bytes(h),
    ensures
        header_at(s, pos) == Ok::<BlockHeader, DecodeError>(h),
{
    let v = le_bytes(i32_bits(h.version), 4);
    let p = h.prev_block_hash@;
    let m = h.merkle_root@;
    let t = le_bytes(h.timestamp as nat, 4);
    let b = le_bytes(h.bits as nat, 4);
    let n = le_bytes(h.nonce as nat, 4);
    lemma_le_bytes_len(i32_bits(h.version), 4);
    lemma_le_bytes_len(h.timestamp as nat, 4);
    lemma_le_bytes_len(h.bits as nat, 4);
    lemma_le_bytes_len(h.nonce as nat, 4);
    lemma_pow256_values();
    assert(p.len() == 32 && m.len() == 32);
    assert(header_bytes(h) == ((((v + p) + m) + t) + b) + n);
    lemma_split(s, pos, (((v + p) + m) + t) + b, n);
    lemma_split(s, pos, ((v + p) + m) + t, b);
    lemma_split(s, pos, (v + p) + m, t);
    lemma_split(s, pos, v + p, m);
    lemma_split(s, pos, v, p);
    lemma_le_roundtrip(i32_bits(h.version), 4);
    lemma_le_roundtrip(h.timestamp as nat, 4);
    lemma_le_roundtrip(h.bits as nat, 4);
    lemma_le_roundtrip(h.nonce as nat, 4);
    lemma_hash_of_seq(h.prev_block_hash);
    lemma_hash_of_seq(h.merkle_root);
    assert(i32_of_bits(i32_bits(h.version)) == h.version);
}

/// The bytes of a header read back as that header.
pub proof fn lemma_header_roundtrip(h: BlockHeader)
    ensures
        parse_header(header_bytes(h)) == Ok::<BlockHeader, DecodeError>(h),
{
    let s = header_bytes(h);
    lemma_header_len(h);
    assert(s.subrange(0, 80) =~= s);
    lemma_header_at(s, 0, h);
}

/// Reads the header that is written at `pos`.
fn read_header_at(data: &[u8], pos: usize) -> (r: Result<BlockHeader, DecodeError>)
    requires
        pos <= data@.len(),
    ensures
        r == header_at(data@, pos as int),
{
    let n = data.len();
    if n - pos < 80 {
        return Err(DecodeError::UnexpectedEnd);
    }
    proof {
        lemma_pow256_values();
        lemma_le_value_bytes(data@.subrange(pos as int, pos + 4));
        lemma_le_value_bytes(data@.subrange(pos + 68, pos + 72));
        lemma_le_value_bytes(data@.subrange(pos + 72, pos + 76));
        lemma_le_value_bytes(data@.subrange(pos + 76, pos + 80));
    }
    let version_bits = read_le(data, pos, 4) as u32;
    let version = i32_from_bits(version_bits);
    assert(i32_of_bits(i32_bits(version)) == version);
    let prev_block_hash = read_hash(data, pos + 4);
    let merkle_root = read_hash(data, pos + 36);
    let timestamp = read_le(data, pos + 68, 4) as u32;
    let bits = read_le(data, pos + 72, 4) as u32;
    let nonce = read_le(data, pos + 76, 4) as u32;
    Ok(BlockHeader { version, prev_block_hash, merkle_root, timestamp, bits, nonce })
}

/// Reads a header from its 80 bytes on the wire.
///
/// Fails with `UnexpectedEnd` where there are fewer than 80 bytes and with
/// `TrailingBytes` where there are more.
pub fn deserialize_block_header(data: &[u8]) -> (r: Result<BlockHeader, DecodeError>)
    ensures
        r == parse_header(data@),
{
    if data.len() > 80 {
        return Err(DecodeError::TrailingBytes);
    }
    read_header_at(data, 0)
}

/// The bytes of the transactions from index `from` on, one after the other.
pub open spec fn txs_bytes(txs: Seq<TxView>, from: int) -> Seq<u8>
    decreases txs.len() - from,
{
    if from < 0 || from >= txs.len() {
        Seq::<u8>::empty()
    } else {
        tx_bytes(txs[from]) + txs_bytes(txs, from + 1)
    }
}

/// The length of the bytes of the transactions from index `from` on.
pub open spec fn txs_len(txs: Seq<TxView>, from: int) -> nat
    decreases txs.len() - from,
{
    if from < 0 || from >= txs.len() {
        0
    } else {
        tx_size(txs[from]) + txs_len(txs, from + 1)
    }
}

/// The length of the bytes of the first `n` transactions.
pub open spec fn txs_prefix_len(txs: Seq<TxView>, n: int) -> nat
    decreases n,
{
    if n <= 0 {
        0
    } else {
        txs_prefix_len(txs, n - 1) + tx_size(txs[n - 1])
    }
}

/// The serialized size of a block: the header, the count of its
/// transactions, and the transactions.
pub open spec fn block_size_spec(block: BlockView) -> nat {
    80 + varint_len(block.transactions.len()) + txs_prefix_len(
        block.transactions,
        block.transactions.len() as int,
    )
}

/// The bytes of a block.
pub open spec fn block_bytes(block: BlockView) -> Seq<u8> {
    header_bytes(block.header) + varint_spec(block.transactions.len()) + txs_bytes(block.transactions, 0)
}

/// The first `n` transactions that are written from position `pos` on, and
/// the position after them.
pub open spec fn txs_at(s: Seq<u8>, pos: int, n: nat) -> Result<(Seq<TxView>, int), DecodeError>
    decreases n,
{
    if n == 0 {
        Ok((Seq::<TxView>::empty(), pos))
    } else {
        match txs_at(s, pos, (n - 1) as nat) {
            Err(e) => Err(e),
            Ok((items, p)) => match tx_at(s, p) {
                Err(e) => Err(e),
                Ok((item, next)) => Ok((items.push(item), next)),
            },
        }
    }
}

/// The block that the bytes `s` are the encoding of.
pub open spec fn parse_block(s: Seq<u8>) -> Result<BlockView, DecodeError> {
    match header_at(s, 0) {
        Err(e) => Err(e),
        Ok(header) => match varint_at(s, 80) {
            Err(e) => Err(e),
            Ok((n, p)) => match txs_at(s, p, n as nat) {
                Err(e) => Err(e),
                Ok((transactions, end)) => if end < s.len() {
                    Err(DecodeError::TrailingBytes)
                } else {
                    Ok(BlockView { header, transactions })
                },
            },
        },
    }
}

/// Whether a block can be written: the count of its transactions fits in
/// 64 bits, and every transaction can be written.
pub open spec fn encodable_block(block: BlockView) -> bool {
    block.transactions.len() <= u64::MAX && forall|i: int|
        0 <= i < block.transactions.len() ==> encodable(#[trigger] block.transactions[i])
}

proof fn lemma_txs_len(txs: Seq<TxView>, from: int)
    ensures
        txs_bytes(txs, from).len() == txs_len(txs, from),
    decreases txs.len() - from,
{
    if 0 <= from < txs.len() {
        lemma_tx_size(txs[from]);
        lemma_txs_len(txs, from + 1);
    }
}

proof fn lemma_txs_layout(txs: Seq<TxView>, n: int)
    requires
        0 <= n <= txs.len(),
    ensures
        txs_prefix_len(txs, n) + txs_len(txs, n) == txs_len(txs, 0),
        txs_bytes(txs, 0).subrange(txs_prefix_len(txs, n) as int, txs_len(txs, 0) as int) == txs_bytes(txs, n),
    decreases n,
{
    lemma_txs_len(txs, 0);
    if n == 0 {
        assert(txs_bytes(txs, 0).subrange(0, txs_len(txs, 0) as int) =~= txs_bytes(txs, 0));
    } else {
        lemma_txs_layout(txs, n - 1);
        lemma_tx_size(txs[n - 1]);
        lemma_txs_len(txs, n - 1);
        lemma_txs_len(txs, n);
        let whole = txs_bytes(txs, 0);
        let a = txs_prefix_len(txs, n - 1) as int;
        assert(whole.subrange(a, whole.len() as int) == tx_bytes(txs[n - 1]) + txs_bytes(txs, n));
        lemma_tail(whole, a, tx_bytes(txs[n - 1]), txs_bytes(txs, n));
    }
}

proof fn lemma_txs_at(s: Seq<u8>, pos: int, txs: Seq<TxView>, n: int)
    requires
        0 <= pos,
        0 <= n <= txs.len(),
        forall|i: int| 0 <= i < txs.len() ==> encodable(#[trigger] txs[i]),
        pos + txs_len(txs, 0) <= s.len(),
        s.subrange(pos, pos + txs_len(txs, 0)) == txs_bytes(txs, 0),
    ensures
        txs_at(s, pos, n as nat) == Ok::<(Seq<TxView>, int), DecodeError>(
            (txs.subrange(0, n), pos + txs_prefix_len(txs, n)),
        ),
    decreases n,
{
    if n == 0 {
        assert(txs.subrange(0, 0) =~= Seq::<TxView>::empty());
    } else {
        lemma_txs_at(s, pos, txs, n - 1);
        lemma_txs_layout(txs, n - 1);
        lemma_txs_layout(txs, n);
        lemma_tx_size(txs[n - 1]);
        lemma_txs_len(txs, 0);
        let whole = txs_bytes(txs, 0);
        let a = txs_prefix_len(txs, n - 1) as int;
        let item = txs[n - 1];
        assert(whole.subrange(a, whole.len() as int) == tx_bytes(item) + txs_bytes(txs, n));
        assert(s.subrange(pos + a, pos + a + tx_size(item)) =~= tx_bytes(item)) by {
            assert forall|k: int| 0 <= k < tx_size(item) implies s[pos + a + k] == tx_bytes(item)[k] by {
                assert(s.subrange(pos, pos + txs_len(txs, 0))[a + k] == s[pos + a + k]);
                assert(whole.subrange(a, whole.len() as int)[k] == whole[a + k]);
            }
        }
        lemma_tx_at(s, pos + a, item);
        assert(txs.subrange(0, n - 1).push(item) =~= txs.subrange(0, n));
    }
}

/// The bytes of a block are as many as its size says.
pub proof fn lemma_block_size(block: BlockView)
    ensures
        block_bytes(block).len() == block_size_spec(block),
{
    lemma_header_len(block.header);
    lemma_varint_len(block.transactions.len());
    lemma_txs_len(block.transactions, 0);
    lemma_txs_layout(block.transactions, block.transactions.len() as int);
}

/// The bytes of a block that can be written read back as that block.
pub proof fn lemma_block_roundtrip(block: BlockView)
    requires
        encodable_block(block),
    ensures
        parse_block(block_bytes(block)) == Ok::<BlockView, DecodeError>(block),
{
    let s = block_bytes(block);
    let n = block.transactions.len();
    let h = header_bytes(block.header);
    let c = varint_spec(n);
    let t = txs_bytes(block.transactions, 0);
    lemma_header_len(block.header);
    lemma_varint_len(n);
    lemma_txs_len(block.transactions, 0);
    assert(s == (h + c) + t);
    assert(s.subrange(0, s.len() as int) =~= s);
    lemma_split(s, 0, h + c, t);
    lemma_split(s, 0, h, c);
    lemma_header_at(s, 0, block.header);
    let rest = s.subrange((80 + c.len()) as int, s.len() as int);
    assert(s.subrange(80, s.len() as int) =~= c + rest);
    lemma_varint_roundtrip(n as u64, rest);
    lemma_txs_at(s, (80 + c.len()) as int, block.transactions, n as int);
    lemma_txs_layout(block.transactions, n as int);
    assert(txs_len(block.transactions, n as int) == 0);
    assert(block.transactions.subrange(0, n as int) =~= block.transactions);
}

/// The views of a list of transactions.
pub open spec fn transactions_view(txs: Seq<Transaction>) -> Seq<TxView> {
    Seq::new(txs.len(), |i: int| txs[i]@)
}

/// The bytes of `block` on the wire. Read back, they give `block` again.
pub fn serialize_block(block: &Block) -> (r: Vec<u8>)
    ensures
        r@ == block_bytes(block@),
        r@.len() == block_size_spec(block@),
        parse_block(r@) == Ok::<BlockView, DecodeError>(block@),
{
    proof {
        lemma_block_size(block@);
    }
    let mut r = serialize_block_header(&block.header);
    append_varint(&mut r, block.transactions.len() as u64);
    let ghost head = r@;
    let mut i: usize = 0;
    while i < block.transactions.len()
        invariant
            i <= block.transactions@.len(),
            r@ + txs_bytes(block@.transactions, i as int) == head + txs_bytes(block@.transactions, 0),
        decreases block.transactions@.len() - i,
    {
        let ghost before = r@;
        assert(block@.transactions[i as int] == block.transactions@[i as int]@);
        append_bytes_of_tx(&mut r, &block.transactions[i]);
        assert(r@ + txs_bytes(block@.transactions, i + 1) =~= before + txs_bytes(block@.transactions, i as int));
        i += 1;
    }
    proof {
        assert(r@ + Seq::<u8>::empty() =~= r@);
        assert(block.transactions.len() <= usize::MAX);
        assert forall|k: int| 0 <= k < block@.transactions.len() implies encodable(
            #[trigger] block@.transactions[k],
        ) by {
            lemma_held_is_encodable(block.transactions@[k]);
        }
        lemma_block_roundtrip(block@);
    }
    r
}

proof fn lemma_txs_error(s: Seq<u8>, pos: int, i: nat, n: nat)
    requires
        i <= n,
        txs_at(s, pos, i) is Err,
    ensures
        txs_at(s, pos, n) == txs_at(s, pos, i),
    decreases n - i,
{
    if i < n {
        lemma_txs_error(s, pos, i, (n - 1) as nat);
    }
}

/// Reads a block from its bytes on the wire.
///
/// Succeeds exactly where `data` is the encoding of a block, with every
/// count in its shortest form and no byte left over; the error says what
/// is wrong at the first place where the bytes cannot be read.
pub fn deserialize_block(data: &[u8]) -> (r: Result<Block, DecodeError>)
    ensures
        match r {
            Ok(block) => parse_block(data@) == Ok::<BlockView, DecodeError>(block@),
            Err(e) => parse_block(data@) == Err::<BlockView, DecodeError>(e),
        },
{
    let n = data.len();
    let header = match read_header_at(data, 0) {
        Ok(h) => h,
        Err(e) => {
            return Err(e);
        },
    };
    let rest = slice_subrange(data, 80, n);
    let (count, start) = match decode_varint(rest) {
        Ok((v, used)) => {
            proof {
                lemma_parse_varint_canonical(rest@);
            }
            (v, 80 + used)
        },
        Err(VarIntError::UnexpectedEnd) => {
            return Err(DecodeError::UnexpectedEnd);
        },
        Err(VarIntError::NonCanonical) => {
            return Err(DecodeError::NonCanonicalVarInt);
        },
    };
    let mut transactions: Vec<Transaction> = Vec::new();
    let mut at: usize = start;
    let mut i: u64 = 0;
    assert(transactions_view(transactions@) =~= Seq::<TxView>::empty());
    while i < count
        invariant
            i <= count,
            n == data@.len(),
            80 <= n,
            at <= n,
            header_at(data@, 0) == Ok::<BlockHeader, DecodeError>(header),
            varint_at(data@, 80) == Ok::<(u64, int), DecodeError>((count, start as int)),
            txs_at(data@, start as int, i as nat) == Ok::<(Seq<TxView>, int), DecodeError>(
                (transactions_view(transactions@), at as int),
            ),
        decreases count - i,
    {
        let ghost before = transactions_view(transactions@);
        match read_tx_at(data, at) {
            Err(e) => {
                proof {
                    lemma_txs_error(data@, start as int, (i + 1) as nat, count as nat);
                }
                return Err(e);
            },
            Ok((tx, next)) => {
                transactions.push(tx);
                assert(transactions_view(transactions@) =~= before.push(tx@));
                at = next;
            },
        }
        i += 1;
    }
    if at < n {
        return Err(DecodeError::TrailingBytes);
    }
    let block = Block { header, transactions };
    assert(block@.transactions =~= transactions_view(block.transactions@));
    Ok(block)
}

} // verus!
