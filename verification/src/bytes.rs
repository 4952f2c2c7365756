//! Byte strings: comparison, copying and little-endian encoding.

use vstd::prelude::*;

verus! {

/// The `n` low bytes of `x`, least significant first.
pub open spec fn le_bytes(x: nat, n: nat) -> Seq<u8>
    decreases n,
{
    if n == 0 {
        Seq::<u8>::empty()
    } else {
        seq![(x % 256) as u8] + le_bytes(x / 256, (n - 1) as nat)
    }
}

/// The number whose little-endian digits are `s`.
pub open spec fn le_value(s: Seq<u8>) -> nat
    decreases s.len(),
{
    if s.len() == 0 {
        0
    } else {
        (s[0] as nat) + 256 * le_value(s.subrange(1, s.len() as int))
    }
}

/// 256 to the power `n`.
pub open spec fn pow256(n: nat) -> nat
    decreases n,
{
    if n == 0 {
        1
    } else {
        256 * pow256((n - 1) as nat)
    }
}

/// The two's-complement value of a signed 32-bit number.
pub open spec fn i32_bits(v: i32) -> nat {
    if v >= 0 {
        v as nat
    } else {
        (v + 0x1_0000_0000) as nat
    }
}

/// The two's-complement value of a signed 64-bit number.
pub open spec fn i64_bits(v: i64) -> nat {
    if v >= 0 {
        v as nat
    } else {
        (v + 0x1_0000_0000_0000_0000) as nat
    }
}

/// A sequence of `n` zero bytes.
pub open spec fn zeros(n: nat) -> Seq<u8> {
    Seq::new(n, |i: int| 0u8)
}

/// The `n` low bytes of a number are `n` bytes.
pub proof fn lemma_le_bytes_len(x: nat, n: nat)
    ensures
        le_bytes(x, n).len() == n,
    decreases n,
{
    if n > 0 {
        lemma_le_bytes_len(x / 256, (n - 1) as nat);
    }
}

/// Decoding what was encoded gives the number back, as far as it fits in `n` bytes.
pub proof fn lemma_le_roundtrip(x: nat, n: nat)
    requires
        x < pow256(n),
    ensures
        le_value(le_bytes(x, n)) == x,
    decreases n,
{
    if n > 0 {
        let rest = le_bytes(x / 256, (n - 1) as nat);
        let s = le_bytes(x, n);
        assert(s.subrange(1, s.len() as int) =~= rest);
        assert(x / 256 < pow256((n - 1) as nat)) by (nonlinear_arith)
            requires
                x < 256 * pow256((n - 1) as nat),
        ;
        lemma_le_roundtrip(x / 256, (n - 1) as nat);
        assert(x == (x % 256) + 256 * (x / 256)) by (nonlinear_arith);
    }
}

/// Encoding what was decoded gives the bytes back.
pub proof fn lemma_le_value_bytes(s: Seq<u8>)
    ensures
        le_value(s) < pow256(s.len()),
        le_bytes(le_value(s), s.len()) == s,
    decreases s.len(),
{
    if s.len() > 0 {
        let tail = s.subrange(1, s.len() as int);
        lemma_le_value_bytes(tail);
        let v = le_value(s);
        let t = le_value(tail);
        assert(v == (s[0] as nat) + 256 * t);
        assert(v % 256 == s[0] as nat && v / 256 == t) by (nonlinear_arith)
            requires
                v == (s[0] as nat) + 256 * t,
                (s[0] as nat) < 256,
        ;
        assert(v < 256 * pow256(tail.len())) by (nonlinear_arith)
            requires
                v == (s[0] as nat) + 256 * t,
                (s[0] as nat) < 256,
                t < pow256(tail.len()),
        ;
        assert(le_bytes(v, s.len()) =~= s);
    } else {
        assert(le_bytes(0, 0) =~= s);
    }
}

/// The powers of 256 that the sizes of the fixed-width numbers give.
pub proof fn lemma_pow256_values()
    ensures
        pow256(0) == 1,
        pow256(1) == 0x100,
        pow256(2) == 0x1_0000,
        pow256(4) == 0x1_0000_0000,
        pow256(8) == 0x1_0000_0000_0000_0000,
{
    reveal_with_fuel(pow256, 9);
}

/// Whether two byte strings are equal.
pub fn bytes_eq(a: &[u8], b: &[u8]) -> (r: bool)
    ensures
        r == (a@ == b@),
{
    if a.len() != b.len() {
        return false;
    }
    let mut i: usize = 0;
    while i < a.len()
        invariant
            i <= a.len(),
            a.len() == b.len(),
            forall|j: int| 0 <= j < i ==> a@[j] == b@[j],
        decreases a.len() - i,
    {
        if a[i] != b[i] {
            return false;
        }
        i += 1;
    }
    assert(a@ =~= b@);
    true
}

/// Whether two 32-byte hashes are equal.
pub fn hash_eq(a: &[u8; 32], b: &[u8; 32]) -> (r: bool)
    ensures
        r == (*a == *b),
        r == (a@ == b@),
{
    let mut i: usize = 0;
    while i < 32
        invariant
            i <= 32,
            forall|j: int| 0 <= j < i ==> a@[j] == b@[j],
        decreases 32 - i,
    {
        if a[i] != b[i] {
            return false;
        }
        i += 1;
    }
    assert(a@ =~= b@);
    assert(*a =~= *b);
    true
}

/// Whether every byte of a hash is zero.
pub fn hash_is_zero(h: &[u8; 32]) -> (r: bool)
    ensures
        r == (h@ == zeros(32)),
{
    let mut i: usize = 0;
    while i < 32
        invariant
            i <= 32,
            forall|j: int| 0 <= j < i ==> h@[j] == 0u8,
        decreases 32 - i,
    {
        if h[i] != 0 {
            assert(zeros(32)[i as int] == 0u8);
            return false;
        }
        i += 1;
    }
    assert(h@ =~= zeros(32));
    true
}

/// A copy of a byte string.
pub fn copy_bytes(src: &[u8]) -> (r: Vec<u8>)
    ensures
        r@ == src@,
{
    let mut r: Vec<u8> = Vec::with_capacity(src.len());
    let mut i: usize = 0;
    while i < src.len()
        invariant
            i <= src.len(),
            r@ == src@.subrange(0, i as int),
        decreases src.len() - i,
    {
        r.push(src[i]);
        assert(r@ =~= src@.subrange(0, i + 1));
        i += 1;
    }
    assert(r@ =~= src@);
    r
}

/// Appends `src` to `dst`.
pub fn append_bytes(dst: &mut Vec<u8>, src: &[u8])
    ensures
        final(dst)@ == old(dst)@ + src@,
{
    let mut i: usize = 0;
    while i < src.len()
        invariant
            i <= src.len(),
            dst@ == old(dst)@ + src@.subrange(0, i as int),
        decreases src.len() - i,
    {
        dst.push(src[i]);
        assert(dst@ =~= old(dst)@ + src@.subrange(0, i + 1));
        i += 1;
    }
    assert(dst@ =~= old(dst)@ + src@);
}

/// Appends `n` zero bytes to `dst`.
pub fn append_zeros(dst: &mut Vec<u8>, n: usize)
    ensures
        final(dst)@ == old(dst)@ + zeros(n as nat),
{
    let mut i: usize = 0;
    while i < n
        invariant
            i <= n,
            dst@ == old(dst)@ + zeros(i as nat),
        decreases n - i,
    {
        dst.push(0u8);
        assert(dst@ =~= old(dst)@ + zeros((i + 1) as nat));
        i += 1;
    }
}

/// Appends the `n` low bytes of `x` to `dst`, least significant first.
pub(crate) fn append_le(dst: &mut Vec<u8>, x: u64, n: usize)
    requires
        n <= 8,
    ensures
        final(dst)@ == old(dst)@ + le_bytes(x as nat, n as nat),
{
    let mut i: usize = 0;
    let mut rest: u64 = x;
    while i < n
        invariant
            i <= n,
            dst@ + le_bytes(rest as nat, (n - i) as nat) == old(dst)@ + le_bytes(x as nat, n as nat),
        decreases n - i,
    {
        let ghost before = dst@;
        dst.push((rest % 256) as u8);
        proof {
            let tail = le_bytes((rest / 256) as nat, (n - i - 1) as nat);
            assert(le_bytes(rest as nat, (n - i) as nat) == seq![((rest as nat) % 256) as u8] + tail);
            assert(dst@ + tail =~= before + (seq![((rest as nat) % 256) as u8] + tail));
        }
        rest = rest / 256;
        i += 1;
    }
    assert(le_bytes(rest as nat, 0) =~= Seq::<u8>::empty());
    assert(dst@ + Seq::<u8>::empty() =~= dst@);
}

/// The two's-complement value of `v` as an unsigned number.
pub fn i32_to_bits(v: i32) -> (r: u32)
    ensures
        r as nat == i32_bits(v),
{
    if v >= 0 {
        v as u32
    } else {
        ((v as i64) + 0x1_0000_0000i64) as u32
    }
}

/// The two's-complement value of `v` as an unsigned number.
pub fn i64_to_bits(v: i64) -> (r: u64)
    ensures
        r as nat == i64_bits(v),
{
    if v >= 0 {
        v as u64
    } else {
        ((v as i128) + 0x1_0000_0000_0000_0000i128) as u64
    }
}

/// The signed number whose two's-complement value is `b`.
pub fn i32_from_bits(b: u32) -> (r: i32)
    ensures
        i32_bits(r) == b as nat,
{
    if b < 0x8000_0000u32 {
        b as i32
    } else {
        ((b as i64) - 0x1_0000_0000i64) as i32
    }
}

/// The signed number whose two's-complement value is `b`.
pub fn i64_from_bits(b: u64) -> (r: i64)
    ensures
        i64_bits(r) == b as nat,
{
    if b < 0x8000_0000_0000_0000u64 {
        b as i64
    } else {
        ((b as i128) - 0x1_0000_0000_0000_0000i128) as i64
    }
}

/// Reads `n` bytes of `data` at `pos` as a little-endian number.
pub(crate) fn read_le(data: &[u8], pos: usize, n: usize) -> (r: u64)
    requires
        n <= 8,
        pos + n <= data.len(),
    ensures
        r as nat == le_value(data@.subrange(pos as int, pos + n)),
{
    let mut i: usize = n;
    let mut acc: u64 = 0;
    proof {
        lemma_pow256_values();
        assert(data@.subrange(pos + n, pos + n).len() == 0);
    }
    while i > 0
        invariant
            i <= n,
            n <= 8,
            pos + n <= data.len(),
            acc as nat == le_value(data@.subrange(pos + i, pos + n)),
            (acc as nat) < pow256((n - i) as nat),
        decreases i,
    {
        i -= 1;
        proof {
            let s = data@.subrange(pos + i, pos + n);
            assert(s.subrange(1, s.len() as int) =~= data@.subrange(pos + i + 1, pos + n));
            assert(s[0] == data@[pos + i]);
            lemma_pow256_bound((n - i - 1) as nat);
            assert((data@[pos + i] as nat) + 256 * (acc as nat) < 256 * pow256((n - i - 1) as nat))
                by (nonlinear_arith)
                requires
                    (acc as nat) < pow256((n - i - 1) as nat),
                    (data@[pos + i] as nat) < 256,
            ;
            lemma_pow256_bound((n - i) as nat);
        }
        acc = acc * 256 + (data[pos + i] as u64);
    }
    acc
}

/// `pow256` grows with its argument, and eight bytes fill 64 bits.
pub proof fn lemma_pow256_bound(n: nat)
    requires
        n <= 8,
    ensures
        pow256(n) <= 0x1_0000_0000_0000_0000,
        pow256(n) >= 1,
{
    reveal_with_fuel(pow256, 9);
}

/// The array whose bytes are `s`.
pub open spec fn hash_of_seq(s: Seq<u8>) -> [u8; 32] {
    choose|h: [u8; 32]| h@ == s
}

/// The array whose bytes are those of a hash is that hash.
pub proof fn lemma_hash_of_seq(h: [u8; 32])
    ensures
        hash_of_seq(h@) == h,
{
    let c = hash_of_seq(h@);
    assert(c@ == h@);
    assert(c =~= h);
}


/// Reads the 32 bytes of `data` at `pos` as a hash.
pub(crate) fn read_hash(data: &[u8], pos: usize) -> (h: [u8; 32])
    requires
        pos + 32 <= data@.len(),
    ensures
        h@ == data@.subrange(pos as int, pos + 32),
        h == hash_of_seq(data@.subrange(pos as int, pos + 32)),
{
    let mut h = [0u8; 32];
    let mut i: usize = 0;
    let n = data.len();
    while i < 32
        invariant
            i <= 32,
            n == data@.len(),
            pos + 32 <= data@.len(),
            forall|j: int| 0 <= j < i ==> h@[j] == data@[pos + j],
        decreases 32 - i,
    {
        h[i] = data[pos + i];
        i += 1;
    }
    assert(h@ =~= data@.subrange(pos as int, pos + 32));
    proof {
        lemma_hash_of_seq(h);
    }
    h
}

/// Where two strings stand one after the other in `s` at `pos`, each of
/// them stands at its place.
pub proof fn lemma_split(s: Seq<u8>, pos: int, a: Seq<u8>, b: Seq<u8>)
    requires
        0 <= pos,
        pos + a.len() + b.len() <= s.len(),
        s.subrange(pos, pos + a.len() + b.len()) == a + b,
    ensures
        s.subrange(pos, pos + a.len()) == a,
        s.subrange(pos + a.len(), pos + a.len() + b.len()) == b,
{
    let w = s.subrange(pos, pos + a.len() + b.len());
    assert forall|j: int| 0 <= j < a.len() implies s.subrange(pos, pos + a.len())[j] == a[j] by {
        assert(w[j] == s[pos + j]);
        assert((a + b)[j] == a[j]);
    }
    assert(s.subrange(pos, pos + a.len()) =~= a);
    assert forall|j: int| 0 <= j < b.len() implies s.subrange(pos + a.len(), pos + a.len() + b.len())[j]
        == b[j] by {
        assert(w[a.len() + j] == s[pos + a.len() + j]);
        assert((a + b)[a.len() + j] == b[j]);
    }
    assert(s.subrange(pos + a.len(), pos + a.len() + b.len()) =~= b);
}

/// Where the rest of `s` from `pos` on is two strings one after the other,
/// the rest after the first is the second.
pub proof fn lemma_tail(s: Seq<u8>, pos: int, a: Seq<u8>, b: Seq<u8>)
    requires
        0 <= pos <= s.len(),
        s.subrange(pos, s.len() as int) == a + b,
    ensures
        pos + a.len() + b.len() == s.len(),
        s.subrange(pos + a.len(), s.len() as int) == b,
        s.subrange(pos, pos + a.len()) == a,
{
    assert(s.subrange(pos, s.len() as int).len() == a.len() + b.len());
    lemma_split(s, pos, a, b);
}

/// A larger power of 256 is no smaller.
pub proof fn lemma_pow256_grows(a: nat, b: nat)
    requires
        a <= b,
    ensures
        pow256(a) <= pow256(b),
        pow256(a) >= 1,
    decreases b,
{
    if a < b {
        lemma_pow256_grows(a, (b - 1) as nat);
    } else {
        if a > 0 {
            lemma_pow256_grows((a - 1) as nat, (a - 1) as nat);
        }
    }
}

} // verus!
