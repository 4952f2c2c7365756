//! Variable-length integers.
//!
//! A number below `0xfd` is one byte. Larger ones are a marker byte, `0xfd`,
//! `0xfe` or `0xff`, followed by the number in 2, 4 or 8 little-endian bytes.
//! Each number has one encoding: the shortest.

use vstd::prelude::*;
use crate::bytes::{append_le, le_bytes, le_value, lemma_le_bytes_len, lemma_le_roundtrip, lemma_le_value_bytes, lemma_pow256_values, read_le};

verus! {

/// Why bytes are not a variable-length integer.
#[derive(Debug, Clone, Copy, PartialEq, Eq, Structural)]
pub enum VarIntError {
    /// The bytes end before the number does.
    UnexpectedEnd,
    /// The number is written in more bytes than it needs.
    NonCanonical,
}

/// The encoding of `x`.
pub open spec fn varint_spec(x: nat) -> Seq<u8> {
    if x < 0xfd {
        seq![x as u8]
    } else if x <= 0xffff {
        seq![0xfdu8] + le_bytes(x, 2)
    } else if x <= 0xffff_ffff {
        seq![0xfeu8] + le_bytes(x, 4)
    } else {
        seq![0xffu8] + le_bytes(x, 8)
    }
}

/// The length of the encoding of `x`.
pub open spec fn varint_len(x: nat) -> nat {
    if x < 0xfd {
        1
    } else if x <= 0xffff {
        3
    } else if x <= 0xffff_ffff {
        5
    } else {
        9
    }
}

/// What the front of `s` decodes to: the number and the count of bytes read.
pub open spec fn parse_varint(s: Seq<u8>) -> Result<(u64, nat), VarIntError> {
    if s.len() == 0 {
        Err(VarIntError::UnexpectedEnd)
    } else if s[0] < 0xfd {
        Ok((s[0] as u64, 1))
    } else {
        let n: nat = if s[0] == 0xfd { 2 } else if s[0] == 0xfe { 4 } else { 8 };
        if s.len() < 1 + n {
            Err(VarIntError::UnexpectedEnd)
        } else {
            let v = le_value(s.subrange(1, (1 + n) as int));
            if varint_len(v) != 1 + n {
                Err(VarIntError::NonCanonical)
            } else {
                Ok((v as u64, 1 + n))
            }
        }
    }
}

/// The encoding of a number is as long as its length says.
pub proof fn lemma_varint_len(x: nat)
    ensures
        varint_spec(x).len() == varint_len(x),
{
    lemma_le_bytes_len(x, 2);
    lemma_le_bytes_len(x, 4);
    lemma_le_bytes_len(x, 8);
}

/// Decoding an encoding, whatever follows it, gives the number back.
pub proof fn lemma_varint_roundtrip(x: u64, rest: Seq<u8>)
    ensures
        parse_varint(varint_spec(x as nat) + rest) == Ok::<(u64, nat), VarIntError>((x, varint_len(x as nat))),
{
    let s = varint_spec(x as nat) + rest;
    lemma_varint_len(x as nat);
    lemma_pow256_values();
    if x < 0xfd {
        assert(s[0] == x as u8);
    } else {
        let n: nat = if x <= 0xffff { 2 } else if x <= 0xffff_ffff { 4 } else { 8 };
        lemma_le_bytes_len(x as nat, n);
        assert(s.subrange(1, (1 + n) as int) =~= le_bytes(x as nat, n));
        lemma_le_roundtrip(x as nat, n);
        assert(s[0] == varint_spec(x as nat)[0]);
    }
}

/// What decodes to a number is that number's encoding.
pub proof fn lemma_parse_varint_canonical(s: Seq<u8>)
    requires
        parse_varint(s) is Ok,
    ensures
        s.subrange(0, parse_varint(s)->Ok_0.1 as int) == varint_spec(parse_varint(s)->Ok_0.0 as nat),
        parse_varint(s)->Ok_0.1 == varint_len(parse_varint(s)->Ok_0.0 as nat),
        parse_varint(s)->Ok_0.1 <= s.len(),
{
    let (v, used) = parse_varint(s)->Ok_0;
    lemma_pow256_values();
    if s[0] < 0xfd {
        assert(s.subrange(0, 1) =~= seq![s[0]]);
    } else {
        let n: nat = if s[0] == 0xfd { 2 } else if s[0] == 0xfe { 4 } else { 8 };
        let body = s.subrange(1, (1 + n) as int);
        lemma_le_value_bytes(body);
        assert(s.subrange(0, (1 + n) as int) =~= seq![s[0]] + body);
    }
}

/// Encodes `value` as a variable-length integer.
pub fn encode_varint(value: u64) -> (r: Vec<u8>)
    ensures
        r@ == varint_spec(value as nat),
{
    let mut r: Vec<u8> = Vec::new();
    if value < 0xfd {
        r.push(value as u8);
        assert(r@ =~= varint_spec(value as nat));
    } else if value <= 0xffff {
        r.push(0xfdu8);
        append_le(&mut r, value, 2);
        assert(r@ =~= varint_spec(value as nat));
    } else if value <= 0xffff_ffff {
        r.push(0xfeu8);
        append_le(&mut r, value, 4);
        assert(r@ =~= varint_spec(value as nat));
    } else {
        r.push(0xffu8);
        append_le(&mut r, value, 8);
        assert(r@ =~= varint_spec(value as nat));
    }
    r
}

/// Appends the encoding of `value` to `dst`.
pub fn append_varint(dst: &mut Vec<u8>, value: u64)
    ensures
        final(dst)@ == old(dst)@ + varint_spec(value as nat),
{
    if value < 0xfd {
        dst.push(value as u8);
        assert(dst@ =~= old(dst)@ + varint_spec(value as nat));
    } else if value <= 0xffff {
        dst.push(0xfdu8);
        append_le(dst, value, 2);
        assert(dst@ =~= old(dst)@ + varint_spec(value as nat));
    } else if value <= 0xffff_ffff {
        dst.push(0xfeu8);
        append_le(dst, value, 4);
        assert(dst@ =~= old(dst)@ + varint_spec(value as nat));
    } else {
        dst.push(0xffu8);
        append_le(dst, value, 8);
        assert(dst@ =~= old(dst)@ + varint_spec(value as nat));
    }
}

/// Decodes the variable-length integer at the front of `data`: the number and
/// the count of bytes it took.
pub fn decode_varint(data: &[u8]) -> (r: Result<(u64, usize), VarIntError>)
    ensures
        match r {
            Ok((v, used)) => parse_varint(data@) == Ok::<(u64, nat), VarIntError>((v, used as nat)),
            Err(e) => parse_varint(data@) == Err::<(u64, nat), VarIntError>(e),
        },
{
    if data.len() == 0 {
        return Err(VarIntError::UnexpectedEnd);
    }
    let first = data[0];
    if first < 0xfd {
        return Ok((first as u64, 1));
    }
    let n: usize = if first == 0xfd { 2 } else if first == 0xfe { 4 } else { 8 };
    if data.len() < 1 + n {
        return Err(VarIntError::UnexpectedEnd);
    }
    let v = read_le(data, 1, n);
    let shortest: usize = if v < 0xfd { 1 } else if v <= 0xffff { 3 } else if v <= 0xffff_ffff { 5 } else { 9 };
    if shortest != 1 + n {
        return Err(VarIntError::NonCanonical);
    }
    Ok((v, 1 + n))
}

} // verus!
