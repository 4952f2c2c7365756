//! The adjustment of the target, and the compact form of targets.
//!
//! Every `DIFFICULTY_ADJUSTMENT_INTERVAL` blocks the target is scaled by
//! the time that the last interval took over the time that it should have
//! taken, the factor being kept between a quarter and four.

use vstd::prelude::*;
use vstd::arithmetic::div_mod::{lemma_div_denominator, lemma_fundamental_div_mod, lemma_hoist_over_denominator};
use crate::bytes::pow256;
use crate::constants::DIFFICULTY_ADJUSTMENT_INTERVAL;
use crate::error::ConsensusError;
use crate::types::{BlockHeader, InvalidReason, ValidationResult};
use crate::reorganization::{expand_target, target_spec};

verus! {

/// The time that an interval of 2016 blocks should take: two weeks, in seconds.
pub const TARGET_TIMESPAN: u64 = 1_209_600;

/// The largest target that has a compact form: a mantissa of 23 bits and
/// an exponent of 15.
pub const MAX_REPRESENTABLE_TARGET: u128 = 0x7fffff_0000_0000_0000_0000_0000_0000;

/// The time that the interval took, kept between a quarter of the time it
/// should have taken and four times that.
pub open spec fn clamped_timespan(first_timestamp: u32, last_timestamp: u32) -> int {
    let actual = last_timestamp - first_timestamp;
    if actual < TARGET_TIMESPAN / 4 {
        (TARGET_TIMESPAN / 4) as int
    } else if actual > TARGET_TIMESPAN * 4 {
        (TARGET_TIMESPAN * 4) as int
    } else {
        actual
    }
}

/// The target after an adjustment: the old target times the clamped time
/// over the time that the interval should have taken, rounded down, and at
/// most `MAX_REPRESENTABLE_TARGET`.
pub open spec fn next_target_spec(old_target: nat, first_timestamp: u32, last_timestamp: u32) -> nat {
    let scaled = (old_target * clamped_timespan(first_timestamp, last_timestamp)) / (TARGET_TIMESPAN as int);
    if scaled > MAX_REPRESENTABLE_TARGET {
        MAX_REPRESENTABLE_TARGET as nat
    } else {
        scaled as nat
    }
}

/// The target after an adjustment, from the timestamps of the first and
/// the last block of the interval.
pub fn calculate_next_target(old_target: u128, first_timestamp: u32, last_timestamp: u32) -> (r: u128)
    ensures
        r as nat == next_target_spec(old_target as nat, first_timestamp, last_timestamp),
        r <= MAX_REPRESENTABLE_TARGET,
{
    let span: u128 = if last_timestamp < first_timestamp {
        (TARGET_TIMESPAN / 4) as u128
    } else {
        let actual: u64 = (last_timestamp - first_timestamp) as u64;
        if actual < TARGET_TIMESPAN / 4 {
            (TARGET_TIMESPAN / 4) as u128
        } else if actual > TARGET_TIMESPAN * 4 {
            (TARGET_TIMESPAN * 4) as u128
        } else {
            actual as u128
        }
    };
    assert(span as int == clamped_timespan(first_timestamp, last_timestamp));
    let t: u128 = TARGET_TIMESPAN as u128;
    let q: u128 = old_target / t;
    let rem: u128 = old_target % t;
    proof {
        let x = (rem * span) as int;
        let whole = (old_target as int) * (span as int);
        lemma_fundamental_div_mod(old_target as int, t as int);
        lemma_hoist_over_denominator(x, (q * span) as int, t as nat);
        assert(whole == x + (q * span) * t) by (nonlinear_arith)
            requires
                old_target as int == (t as int) * (q as int) + (rem as int),
                x == (rem as int) * (span as int),
                whole == (old_target as int) * (span as int),
        ;
        assert(rem * span <= 1_209_600 * 4_838_400) by (nonlinear_arith)
            requires
                rem < 1_209_600,
                span <= 4_838_400,
        ;
    }
    let low: u128 = (rem * span) / t;
    if q > MAX_REPRESENTABLE_TARGET / span {
        proof {
            let cap = MAX_REPRESENTABLE_TARGET as int;
            lemma_fundamental_div_mod(cap, span as int);
            assert((q as int) * (span as int) > cap) by (nonlinear_arith)
                requires
                    q as int >= cap / (span as int) + 1,
                    span as int >= 1,
                    cap == (span as int) * (cap / (span as int)) + cap % (span as int),
                    0 <= cap % (span as int) < span as int,
            ;
        }
        return MAX_REPRESENTABLE_TARGET;
    }
    proof {
        let cap = MAX_REPRESENTABLE_TARGET as int;
        lemma_fundamental_div_mod(cap, span as int);
        assert((q as int) * (span as int) <= cap) by (nonlinear_arith)
            requires
                q as int <= cap / (span as int),
                span as int >= 1,
                cap == (span as int) * (cap / (span as int)) + cap % (span as int),
                0 <= cap % (span as int),
        ;
    }
    let scaled: u128 = q * span + low;
    if scaled > MAX_REPRESENTABLE_TARGET {
        MAX_REPRESENTABLE_TARGET
    } else {
        scaled
    }
}

/// The number of bytes that a number takes: the least `n` with
/// `x < 256^n`.
pub open spec fn byte_length_spec(x: nat) -> nat
    decreases x,
{
    if x == 0 {
        0
    } else {
        1 + byte_length_spec(x / 256)
    }
}

proof fn lemma_byte_length(x: nat)
    ensures
        x < pow256(byte_length_spec(x)),
        x > 0 ==> x >= pow256((byte_length_spec(x) - 1) as nat),
    decreases x,
{
    if x > 0 {
        lemma_byte_length(x / 256);
        let n = byte_length_spec(x / 256);
        assert(x < 256 * pow256(n)) by (nonlinear_arith)
            requires
                x / 256 < pow256(n),
        ;
        if x / 256 > 0 {
            assert(x >= 256 * pow256((n - 1) as nat)) by (nonlinear_arith)
                requires
                    x / 256 >= pow256((n - 1) as nat),
            ;
        }
    }
}

/// The number of bytes that `x` takes.
pub fn byte_length(x: u128) -> (n: u32)
    ensures
        n == byte_length_spec(x as nat),
        n <= 16,
        x < pow256(n as nat),
        x > 0 ==> x >= pow256((n - 1) as nat),
{
    proof {
        lemma_byte_length(x as nat);
        lemma_length_bound(x as nat);
    }
    let mut rest: u128 = x;
    let mut n: u32 = 0;
    while rest > 0
        invariant
            n + byte_length_spec(rest as nat) == byte_length_spec(x as nat),
            byte_length_spec(x as nat) <= 16,
        decreases rest,
    {
        rest = rest / 256;
        n += 1;
    }
    n
}

proof fn lemma_length_bound(x: nat)
    requires
        x <= u128::MAX,
    ensures
        byte_length_spec(x) <= 16,
{
    reveal_with_fuel(byte_length_spec, 18);
    let a1 = x / 256;
    let a2 = a1 / 256;
    let a3 = a2 / 256;
    let a4 = a3 / 256;
    let a5 = a4 / 256;
    let a6 = a5 / 256;
    let a7 = a6 / 256;
    let a8 = a7 / 256;
    let a9 = a8 / 256;
    let a10 = a9 / 256;
    let a11 = a10 / 256;
    let a12 = a11 / 256;
    let a13 = a12 / 256;
    let a14 = a13 / 256;
    let a15 = a14 / 256;
    let a16 = a15 / 256;
    assert(a16 == 0);
}

/// The three most significant bytes of a number, as a number: a number of
/// fewer bytes is moved up to three.
pub open spec fn top_bytes_spec(target: nat) -> nat {
    let n = byte_length_spec(target);
    if n <= 3 {
        target * pow256((3 - n) as nat)
    } else {
        target / pow256((n - 3) as nat)
    }
}

/// The mantissa and the exponent of the compact form of a target: the
/// three most significant bytes and the number of bytes, with one byte
/// dropped and counted where the top bit of the mantissa would be set.
pub open spec fn compact_parts(target: nat) -> (nat, nat) {
    let n = byte_length_spec(target);
    let mantissa = top_bytes_spec(target);
    if mantissa >= 0x80_0000 {
        (mantissa / 256, n + 1)
    } else {
        (mantissa, n)
    }
}

/// The compact form of a target.
pub open spec fn compact_spec(target: nat) -> nat {
    compact_parts(target).1 * 0x100_0000 + compact_parts(target).0
}

proof fn lemma_pow256_table()
    ensures
        pow256(0) == 1,
        pow256(1) == 256,
        pow256(2) == 0x1_0000,
        pow256(3) == 0x100_0000,
        pow256(15) == 0x1_0000_0000_0000_0000_0000_0000_0000_00,
        forall|n: nat| n >= 1 ==> #[trigger] pow256(n) == 256 * pow256((n - 1) as nat),
        forall|n: nat| #[trigger] pow256(n) >= 1,
{
    reveal_with_fuel(pow256, 17);
    assert forall|n: nat| #[trigger] pow256(n) >= 1 by {
        lemma_pow256_positive(n);
    }
}

proof fn lemma_pow256_positive(n: nat)
    ensures
        pow256(n) >= 1,
    decreases n,
{
    if n > 0 {
        lemma_pow256_positive((n - 1) as nat);
    }
}

proof fn lemma_pow256_add(a: nat, b: nat)
    ensures
        pow256(a + b) == pow256(a) * pow256(b),
    decreases a,
{
    if a == 0 {
        assert(pow256(0) * pow256(b) == pow256(b)) by (nonlinear_arith)
            requires
                pow256(0) == 1,
        ;
    } else {
        lemma_pow256_add((a - 1) as nat, b);
        assert(256 * (pow256((a - 1) as nat) * pow256(b)) == (256 * pow256((a - 1) as nat)) * pow256(b))
            by (nonlinear_arith);
    }
}

/// What the compact form of a target stands for: the target with all but
/// its three, or two, most significant bytes set to zero. The mantissa has
/// no more than 23 bits.
pub proof fn lemma_compact_expands(target: nat)
    requires
        target <= MAX_REPRESENTABLE_TARGET,
    ensures
        compact_parts(target).0 < 0x80_0000,
        compact_parts(target).1 <= 15,
        compact_spec(target) <= u32::MAX,
        target_spec(compact_spec(target) as u32) is Some,
        target_spec(compact_spec(target) as u32)->Some_0 <= target,
        target < target_spec(compact_spec(target) as u32)->Some_0 + pow256(
            (if compact_parts(target).1 > 3 {
                compact_parts(target).1 - 3
            } else {
                0
            }) as nat,
        ),
{
    lemma_pow256_table();
    lemma_byte_length(target);
    let n = byte_length_spec(target);
    assert(n <= 15) by {
        if n >= 16 {
            lemma_pow256_add(15, (n - 16) as nat);
            assert(pow256((n - 1) as nat) >= pow256(15)) by (nonlinear_arith)
                requires
                    pow256((n - 1) as nat) == pow256(15) * pow256((n - 16) as nat),
                    pow256((n - 16) as nat) >= 1,
                    pow256(15) >= 0,
            ;
        }
    }
    let (m, e) = compact_parts(target);
    let bits = compact_spec(target);
    if n <= 3 {
        let raw = target * pow256((3 - n) as nat);
        lemma_pow256_add(n, (3 - n) as nat);
        assert(raw < 0x100_0000) by (nonlinear_arith)
            requires
                target < pow256(n),
                pow256(3) == pow256(n) * pow256((3 - n) as nat),
                pow256(3) == 0x100_0000,
                raw == target * pow256((3 - n) as nat),
                pow256((3 - n) as nat) >= 1,
        ;
        assert(m < 0x80_0000 && e <= 4);
        let b32 = bits as u32;
        assert(b32 as nat == bits);
        assert((b32 / 0x100_0000) as nat == e && (b32 % 0x100_0000) as nat == m);
        if raw >= 0x80_0000 {
            if n == 3 {
                assert(raw == target) by (nonlinear_arith)
                    requires
                        raw == target * pow256(0),
                        pow256(0) == 1,
                ;
                assert(target_spec(b32) == Some((m * pow256(1)) as nat));
                assert(m * 256 <= target && target < m * 256 + 256);
            } else {
                assert(pow256((3 - n) as nat) == 256 * pow256((3 - e) as nat));
                assert(m == target * pow256((3 - e) as nat)) by (nonlinear_arith)
                    requires
                        m == (target * (256 * pow256((3 - e) as nat))) / 256,
                ;
                assert(m / pow256((3 - e) as nat) == target) by (nonlinear_arith)
                    requires
                        m == target * pow256((3 - e) as nat),
                        pow256((3 - e) as nat) >= 1,
                ;
                assert(target_spec(b32) == Some(target));
            }
        } else {
            assert(m / pow256((3 - n) as nat) == target) by (nonlinear_arith)
                requires
                    m == target * pow256((3 - n) as nat),
                    pow256((3 - n) as nat) >= 1,
            ;
            assert(target_spec(b32) == Some(target));
        }
    } else {
        let p = pow256((n - 3) as nat);
        let raw = target / p;
        lemma_pow256_add(3, (n - 3) as nat);
        lemma_fundamental_div_mod(target as int, p as int);
        assert(raw < 0x100_0000) by (nonlinear_arith)
            requires
                target < 0x100_0000 * p,
                p >= 1,
                target == p * raw + target % p,
                0 <= target % p,
        ;
        assert(0 <= (target as int) % (p as int) < p);
        if raw >= 0x80_0000 {
            assert(n <= 14) by {
                if n == 15 {
                    assert(target >= 0x80_0000 * p) by (nonlinear_arith)
                        requires
                            target == p * raw + target % p,
                            raw >= 0x80_0000,
                            0 <= target % p,
                            p >= 1,
                    ;
                    lemma_pow256_add(12, 3);
                    reveal_with_fuel(pow256, 13);
                }
            }
            let b32 = bits as u32;
            assert(b32 as nat == bits);
            assert((b32 / 0x100_0000) as nat == e && (b32 % 0x100_0000) as nat == m);
            assert(pow256((e - 3) as nat) == 256 * p);
            assert(target_spec(b32) == Some((m * pow256((e - 3) as nat)) as nat));
            assert(m * (256 * p) <= target && target < m * (256 * p) + 256 * p) by (nonlinear_arith)
                requires
                    target == p * raw + target % p,
                    0 <= target % p < p,
                    m == raw / 256,
                    raw == 256 * (raw / 256) + raw % 256,
                    0 <= raw % 256 < 256,
                    p >= 1,
            ;
        } else {
            let b32 = bits as u32;
            assert(b32 as nat == bits);
            assert((b32 / 0x100_0000) as nat == e && (b32 % 0x100_0000) as nat == m);
            assert(target_spec(b32) == Some((m * pow256((e - 3) as nat)) as nat));
            assert(m * p <= target && target < m * p + p) by (nonlinear_arith)
                requires
                    target == p * raw + target % p,
                    0 <= target % p < p,
                    m == raw,
            ;
        }
    }
}

proof fn lemma_top_bytes_bound(target: nat)
    ensures
        top_bytes_spec(target) < 0x100_0000,
{
    lemma_pow256_table();
    lemma_byte_length(target);
    let n = byte_length_spec(target);
    if n <= 3 {
        lemma_pow256_add(n, (3 - n) as nat);
        assert(target * pow256((3 - n) as nat) < 0x100_0000) by (nonlinear_arith)
            requires
                target < pow256(n),
                pow256(3) == pow256(n) * pow256((3 - n) as nat),
                pow256(3) == 0x100_0000,
                pow256((3 - n) as nat) >= 1,
        ;
    } else {
        let p = pow256((n - 3) as nat);
        let raw = target / p;
        lemma_pow256_add(3, (n - 3) as nat);
        lemma_fundamental_div_mod(target as int, p as int);
        assert(raw < 0x100_0000) by (nonlinear_arith)
            requires
                target < 0x100_0000 * p,
                p >= 1,
                target == p * raw + target % p,
                0 <= target % p,
        ;
    }
}

/// The three most significant bytes of `target`, which takes `n` bytes.
fn top_bytes(target: u128, n: u32) -> (m: u32)
    requires
        n == byte_length_spec(target as nat),
        n <= 16,
    ensures
        m as nat == top_bytes_spec(target as nat),
        m < 0x100_0000,
{
    proof {
        lemma_top_bytes_bound(target as nat);
        lemma_pow256_table();
        lemma_byte_length(target as nat);
    }
    if n == 0 {
        assert(target == 0);
        assert((target as nat) * pow256(3) == 0) by (nonlinear_arith)
            requires
                target == 0,
        ;
        0
    } else if n == 1 {
        (target * 0x1_0000) as u32
    } else if n == 2 {
        (target * 0x100) as u32
    } else if n == 3 {
        assert((target as nat) * pow256(0) == target as nat) by (nonlinear_arith)
            requires
                pow256(0) == 1,
        ;
        target as u32
    } else {
        let mut value: u128 = target;
        let mut i: u32 = 0;
        assert((target as nat) / pow256(0) == target as nat);
        while i < n - 3
            invariant
                3 < n <= 16,
                i <= n - 3,
                value as nat == (target as nat) / pow256(i as nat),
            decreases n - 3 - i,
        {
            proof {
                lemma_pow256_positive(i as nat);
                lemma_div_denominator(target as int, pow256(i as nat) as int, 256);
                assert(pow256((i + 1) as nat) == 256 * pow256(i as nat));
                assert(pow256(i as nat) * 256 == 256 * pow256(i as nat)) by (nonlinear_arith);
            }
            value = value / 256;
            i += 1;
        }
        value as u32
    }
}

/// The compact form of `target`: the three most significant bytes as the
/// mantissa and the number of bytes as the exponent, in the top byte. A
/// target above `MAX_REPRESENTABLE_TARGET` counts as that.
pub fn compress_target(target: u128) -> (bits: u32)
    ensures
        target <= MAX_REPRESENTABLE_TARGET ==> bits as nat == compact_spec(target as nat),
        target > MAX_REPRESENTABLE_TARGET ==> bits as nat == compact_spec(MAX_REPRESENTABLE_TARGET as nat),
        target_spec(bits) is Some,
        target <= MAX_REPRESENTABLE_TARGET ==> target_spec(bits)->Some_0 <= target,
{
    let capped: u128 = if target > MAX_REPRESENTABLE_TARGET {
        MAX_REPRESENTABLE_TARGET
    } else {
        target
    };
    proof {
        lemma_compact_expands(capped as nat);
    }
    let n = byte_length(capped);
    let raw = top_bytes(capped, n);
    let mantissa: u32 = if raw >= 0x80_0000 {
        raw / 256
    } else {
        raw
    };
    let exponent: u32 = if raw >= 0x80_0000 {
        n + 1
    } else {
        n
    };
    assert(mantissa as nat == compact_parts(capped as nat).0);
    assert(exponent as nat == compact_parts(capped as nat).1);
    exponent * 0x100_0000 + mantissa
}

/// The compact target of the block after an interval, from the compact
/// target of the interval and the timestamps of its first and last block.
///
/// Fails, with `TargetTooLarge`, exactly where `bits` does not expand.
pub fn get_next_work_required(bits: u32, first_timestamp: u32, last_timestamp: u32) -> (r: Result<
    u32,
    ConsensusError,
>)
    ensures
        match r {
            Ok(next) => target_spec(bits) is Some && next as nat == compact_spec(
                next_target_spec(target_spec(bits)->Some_0, first_timestamp, last_timestamp),
            ) && target_spec(next) is Some && target_spec(next)->Some_0 <= next_target_spec(
                target_spec(bits)->Some_0,
                first_timestamp,
                last_timestamp,
            ),
            Err(e) => target_spec(bits) is None && e == ConsensusError::InvalidProofOfWork(
                crate::error::PowError::TargetTooLarge,
            ),
        },
{
    let old_target = match expand_target(bits) {
        Ok(t) => t,
        Err(e) => {
            return Err(e);
        },
    };
    let next = calculate_next_target(old_target, first_timestamp, last_timestamp);
    Ok(compress_target(next))
}

/// The compact target that the chain asks of a block at `height`, after a
/// block with the compact target `previous_bits`: at a height that is a
/// multiple of `DIFFICULTY_ADJUSTMENT_INTERVAL` the adjusted target, from
/// the timestamps `first_timestamp` and `last_timestamp` of the first and
/// last block of the interval that ends; at every other height the target
/// of the block before. There is none where the target of the block before
/// does not expand at a height of adjustment.
pub open spec fn expected_bits_spec(height: u32, previous_bits: u32, first_timestamp: u32, last_timestamp: u32) -> Option<
    u32,
> {
    if height as int % (DIFFICULTY_ADJUSTMENT_INTERVAL as int) != 0 {
        Some(previous_bits)
    } else {
        match target_spec(previous_bits) {
            None => None,
            Some(target) => Some(
                compact_spec(next_target_spec(target, first_timestamp, last_timestamp)) as u32,
            ),
        }
    }
}

/// Checks the compact target of the header of a block at `height` against
/// the one that the chain asks for.
pub fn check_difficulty(
    header: &BlockHeader,
    height: u32,
    previous_bits: u32,
    first_timestamp: u32,
    last_timestamp: u32,
) -> (r: ValidationResult)
    ensures
        r == (if expected_bits_spec(height, previous_bits, first_timestamp, last_timestamp) == Some(header.bits) {
            ValidationResult::Valid
        } else {
            ValidationResult::Invalid(InvalidReason::BadDifficultyBits)
        }),
{
    let expected: u32 = if (height as u64) % DIFFICULTY_ADJUSTMENT_INTERVAL != 0 {
        previous_bits
    } else {
        match get_next_work_required(previous_bits, first_timestamp, last_timestamp) {
            Ok(bits) => bits,
            Err(_) => {
                return ValidationResult::Invalid(InvalidReason::BadDifficultyBits);
            },
        }
    };
    if header.bits == expected {
        ValidationResult::Valid
    } else {
        ValidationResult::Invalid(InvalidReason::BadDifficultyBits)
    }
}

} // verus!
