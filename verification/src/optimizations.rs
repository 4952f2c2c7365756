//! Small helpers for hot paths: checked access, compact records and
//! comparisons with hashes that are known beforehand.

use vstd::prelude::*;
use crate::bytes::{hash_eq, hash_is_zero, zeros};

verus! {

/// The largest 64-bit number.
pub const U64_MAX: u64 = 0xffff_ffff_ffff_ffff;

/// `MAX_MONEY` as an unsigned number.
pub const MAX_MONEY_U64: u64 = 2_100_000_000_000_000;

/// The largest 32-bit number.
pub const U32_MAX: u32 = 0xffff_ffff;

/// Satoshis in one coin.
pub const ONE_BTC_SATOSHIS: i64 = 100_000_000;

/// The SHA-256 hash of the empty string.
pub const EMPTY_STRING_HASH: [u8; 32] = [
    0xe3, 0xb0, 0xc4, 0x42, 0x98, 0xfc, 0x1c, 0x14, 0x9a, 0xfb, 0xf4, 0xc8, 0x99, 0x6f, 0xb9, 0x24,
    0x27, 0xae, 0x41, 0xe4, 0x64, 0x9b, 0x93, 0x4c, 0xa4, 0x95, 0x99, 0x1b, 0x78, 0x52, 0xb8, 0x55,
];

/// The double SHA-256 hash of the empty string.
pub const EMPTY_STRING_DOUBLE_HASH: [u8; 32] = [
    0x5d, 0xf6, 0xe0, 0xe2, 0x76, 0x13, 0x59, 0xd3, 0x0a, 0x82, 0x75, 0x05, 0x8e, 0x29, 0x9f, 0xcc,
    0x03, 0x81, 0x53, 0x45, 0x45, 0xf5, 0x5c, 0xf4, 0x3e, 0x41, 0x98, 0x3f, 0x5d, 0x4c, 0x94, 0x56,
];

/// A hash held apart from its neighbours in memory.
#[derive(Debug, Clone, Copy, PartialEq, Eq)]
pub struct CacheAlignedHash(pub [u8; 32]);

impl CacheAlignedHash {
    /// Wraps a hash.
    pub fn new(hash: [u8; 32]) -> (r: CacheAlignedHash)
        ensures
            r.0 == hash,
    {
        CacheAlignedHash(hash)
    }

    /// The hash inside.
    pub fn as_bytes(&self) -> (r: &[u8; 32])
        ensures
            *r == self.0,
    {
        &self.0
    }
}

/// The state of the interpreter at one opcode, in few bytes.
#[derive(Debug, Clone, Copy, PartialEq, Eq)]
pub struct CompactStackFrame {
    pub opcode: u8,
    pub flags: u32,
    pub script_offset: u16,
    pub stack_height: u16,
}

impl CompactStackFrame {
    /// A frame with the given fields.
    pub fn new(opcode: u8, flags: u32, script_offset: u16, stack_height: u16) -> (r: CompactStackFrame)
        ensures
            r == (CompactStackFrame { opcode, flags, script_offset, stack_height }),
    {
        CompactStackFrame { opcode, flags, script_offset, stack_height }
    }
}

/// The element of `slice` at `index`, if there is one. The flag says
/// whether the caller wants the bound checked; the answer is the same
/// either way.
pub fn get_proven<T>(slice: &[T], index: usize, bound_check: bool) -> (r: Option<&T>)
    ensures
        index < slice@.len() ==> r == Some(&slice@[index as int]),
        index >= slice@.len() ==> r is None,
{
    if index < slice.len() {
        Some(&slice[index])
    } else {
        None
    }
}

/// The element of `array` at `index`, if there is one.
pub fn get_array<T, const N: usize>(array: &[T; N], index: usize) -> (r: Option<&T>)
    ensures
        index < N ==> r == Some(&array@[index as int]),
        index >= N ==> r is None,
{
    if index < N {
        Some(&array[index])
    } else {
        None
    }
}

/// Whether `hash` is the SHA-256 hash of the empty string.
pub fn is_empty_hash(hash: &[u8; 32]) -> (r: bool)
    ensures
        r == (*hash == EMPTY_STRING_HASH),
{
    hash_eq(hash, &EMPTY_STRING_HASH)
}

/// Whether `hash` is the double SHA-256 hash of the empty string.
pub fn is_empty_double_hash(hash: &[u8; 32]) -> (r: bool)
    ensures
        r == (*hash == EMPTY_STRING_DOUBLE_HASH),
{
    hash_eq(hash, &EMPTY_STRING_DOUBLE_HASH)
}

/// Whether every byte of `hash` is zero.
pub fn is_zero_hash(hash: &[u8; 32]) -> (r: bool)
    ensures
        r == (hash@ == zeros(32)),
        r == (forall|i: int| 0 <= i < 32 ==> hash@[i] == 0u8),
{
    let r = hash_is_zero(hash);
    proof {
        if r {
            assert forall|i: int| 0 <= i < 32 implies hash@[i] == 0u8 by {
                assert(zeros(32)[i] == 0u8);
            }
        } else {
            if forall|i: int| 0 <= i < 32 ==> hash@[i] == 0u8 {
                assert(hash@ =~= zeros(32));
            }
        }
    }
    r
}

/// Marks a path that is never taken. Does nothing.
pub fn mark_unused() {
}

/// Says that `condition` is seldom true. Hands it back unchanged.
pub fn unlikely(condition: bool) -> (r: bool)
    ensures
        r == condition,
{
    condition
}

} // verus!
