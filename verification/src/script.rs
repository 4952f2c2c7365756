//! The script interpreter.
//!
//! A script is a string of opcodes, one byte each, run one after the other on
//! a stack of byte strings. An opcode either goes through, or fails the
//! script (a well-formed `false`), or breaks a structural bound (an error).
//! What each opcode does to the stack is given by [`op_result`]; what a whole
//! script does is given by [`run_spec`], and every executable function here
//! is proved to compute exactly that.

use vstd::prelude::*;
use crate::bytes::{bytes_eq, copy_bytes, zeros};
use crate::constants::{MAX_SCRIPT_ELEMENT_SIZE, MAX_SCRIPT_OPS, MAX_SCRIPT_SIZE, MAX_STACK_SIZE, TAPROOT_SCRIPT_LENGTH, WITNESS_COMMITMENT_SCRIPT_LENGTH};
use crate::crypto::{double_sha256, double_sha256_spec, ecdsa_signature_valid, hash160, hash160_spec, verify_signature};
use crate::error::{ConsensusError, ScriptError};
use crate::transaction_hash::{calculate_transaction_sighash, sighash_spec, SighashType};
use crate::types::{ByteString, Transaction, TransactionOutput, TxView};

verus! {

/// `OP_0`: pushes an empty element.
pub const OP_0: u8 = 0x00;
/// `OP_1`: pushes the number 1.
pub const OP_1: u8 = 0x51;
/// `OP_16`: pushes the number 16.
pub const OP_16: u8 = 0x60;
/// `OP_VERIFY`: fails unless the top element is true.
pub const OP_VERIFY: u8 = 0x69;
/// `OP_RETURN`: fails.
pub const OP_RETURN: u8 = 0x6a;
/// `OP_2DROP`: drops two elements.
pub const OP_2DROP: u8 = 0x6d;
/// `OP_2DUP`: copies the two top elements.
pub const OP_2DUP: u8 = 0x6e;
/// `OP_3DUP`: copies the three top elements.
pub const OP_3DUP: u8 = 0x6f;
/// `OP_2OVER`: copies the third and fourth elements to the top.
pub const OP_2OVER: u8 = 0x70;
/// `OP_2ROT`: moves the fifth and sixth elements to the top.
pub const OP_2ROT: u8 = 0x71;
/// `OP_2SWAP`: swaps the two top pairs.
pub const OP_2SWAP: u8 = 0x72;
/// `OP_IFDUP`: copies the top element if it is true.
pub const OP_IFDUP: u8 = 0x73;
/// `OP_DEPTH`: pushes the depth of the stack.
pub const OP_DEPTH: u8 = 0x74;
/// `OP_DROP`: drops the top element.
pub const OP_DROP: u8 = 0x75;
/// `OP_DUP`: copies the top element.
pub const OP_DUP: u8 = 0x76;
/// `OP_NIP`: drops the second element.
pub const OP_NIP: u8 = 0x77;
/// `OP_OVER`: copies the second element to the top.
pub const OP_OVER: u8 = 0x78;
/// `OP_PICK`: copies the element that the top element counts to.
pub const OP_PICK: u8 = 0x79;
/// `OP_ROLL`: moves the element that the top element counts to.
pub const OP_ROLL: u8 = 0x7a;
/// `OP_ROT`: moves the third element to the top.
pub const OP_ROT: u8 = 0x7b;
/// `OP_SWAP`: swaps the two top elements.
pub const OP_SWAP: u8 = 0x7c;
/// `OP_TUCK`: copies the top element below the second.
pub const OP_TUCK: u8 = 0x7d;
/// `OP_SIZE`: pushes the length of the top element.
pub const OP_SIZE: u8 = 0x82;
/// `OP_EQUAL`: pushes whether the two top elements are equal.
pub const OP_EQUAL: u8 = 0x87;
/// `OP_EQUALVERIFY`: fails unless the two top elements are equal.
pub const OP_EQUALVERIFY: u8 = 0x88;
/// `OP_HASH160`: replaces the top element by RIPEMD-160 of its SHA-256.
pub const OP_HASH160: u8 = 0xa9;
/// `OP_HASH256`: replaces the top element by its double SHA-256.
pub const OP_HASH256: u8 = 0xaa;
/// `OP_CHECKSIG`: pushes whether a signature is valid.
pub const OP_CHECKSIG: u8 = 0xac;
/// `OP_CHECKSIGVERIFY`: fails unless a signature is valid.
pub const OP_CHECKSIGVERIFY: u8 = 0xad;

/// The stack as a sequence of byte strings, the top last.
pub open spec fn stack_view(stack: Seq<Vec<u8>>) -> Seq<Seq<u8>> {
    Seq::new(stack.len(), |i: int| stack[i]@)
}

/// Whether an element counts as true: it is not empty and its first byte is not zero.
pub open spec fn truthy(item: Seq<u8>) -> bool {
    item.len() > 0 && item[0] != 0
}

/// The element that stands for a truth value.
pub open spec fn bool_item(b: bool) -> Seq<u8> {
    if b {
        seq![1u8]
    } else {
        seq![0u8]
    }
}

/// The element `k` places below the top.
pub open spec fn peek(s: Seq<Seq<u8>>, k: int) -> Seq<u8> {
    s[s.len() - 1 - k]
}

/// The stack without its `k` top elements.
pub open spec fn below(s: Seq<Seq<u8>>, k: int) -> Seq<Seq<u8>> {
    s.subrange(0, s.len() - k)
}

/// Whether the opcode pushes a constant: such opcodes do not count towards
/// the limit on operations.
pub open spec fn is_push_opcode(op: u8) -> bool {
    op == OP_0 || (OP_1 <= op && op <= OP_16)
}

/// Whether the opcode checks a signature.
pub open spec fn is_signature_opcode(op: u8) -> bool {
    op == OP_CHECKSIG || op == OP_CHECKSIGVERIFY
}

/// Whether the stack is exactly one true element.
pub open spec fn final_stack_ok(s: Seq<Seq<u8>>) -> bool {
    s.len() == 1 && truthy(s[0])
}

/// What one opcode does: whether it goes through, and the stack it leaves.
/// An opcode that finds too few elements fails and leaves what it had not yet
/// taken. `digest` is the hash that signatures are checked against.
pub open spec fn op_result(op: u8, s: Seq<Seq<u8>>, digest: Seq<u8>) -> (bool, Seq<Seq<u8>>) {
    let n = s.len() as int;
    if op == OP_0 {
        (true, s.push(Seq::<u8>::empty()))
    } else if OP_1 <= op && op <= OP_16 {
        (true, s.push(seq![(op - 0x50) as u8]))
    } else if op == OP_DUP {
        if n >= 1 {
            (true, s.push(peek(s, 0)))
        } else {
            (false, s)
        }
    } else if op == OP_HASH160 {
        if n >= 1 {
            (true, below(s, 1).push(hash160_spec(peek(s, 0))))
        } else {
            (false, s)
        }
    } else if op == OP_HASH256 {
        if n >= 1 {
            (true, below(s, 1).push(double_sha256_spec(peek(s, 0))))
        } else {
            (false, s)
        }
    } else if op == OP_EQUAL {
        if n >= 2 {
            (true, below(s, 2).push(bool_item(peek(s, 0) == peek(s, 1))))
        } else {
            (false, s)
        }
    } else if op == OP_EQUALVERIFY {
        if n >= 2 {
            (peek(s, 0) == peek(s, 1), below(s, 2))
        } else {
            (false, s)
        }
    } else if op == OP_CHECKSIG {
        if n >= 2 {
            (true, below(s, 2).push(bool_item(ecdsa_signature_valid(peek(s, 0), peek(s, 1), digest))))
        } else {
            (false, s)
        }
    } else if op == OP_CHECKSIGVERIFY {
        if n >= 2 {
            (ecdsa_signature_valid(peek(s, 0), peek(s, 1), digest), below(s, 2))
        } else {
            (false, s)
        }
    } else if op == OP_RETURN {
        (false, s)
    } else if op == OP_VERIFY {
        if n >= 1 {
            (truthy(peek(s, 0)), below(s, 1))
        } else {
            (false, s)
        }
    } else if op == OP_IFDUP {
        if n >= 1 {
            (true, if truthy(peek(s, 0)) { s.push(peek(s, 0)) } else { s })
        } else {
            (false, s)
        }
    } else if op == OP_DEPTH {
        (true, s.push(seq![(n % 256) as u8]))
    } else if op == OP_DROP {
        if n >= 1 {
            (true, below(s, 1))
        } else {
            (false, s)
        }
    } else if op == OP_NIP {
        if n >= 2 {
            (true, below(s, 2).push(peek(s, 0)))
        } else {
            (false, s)
        }
    } else if op == OP_OVER {
        if n >= 2 {
            (true, s.push(peek(s, 1)))
        } else {
            (false, s)
        }
    } else if op == OP_PICK {
        if n >= 1 {
            let rest = below(s, 1);
            let k = peek(s, 0);
            if k.len() > 0 && (k[0] as int) < rest.len() {
                (true, rest.push(peek(rest, k[0] as int)))
            } else {
                (false, rest)
            }
        } else {
            (false, s)
        }
    } else if op == OP_ROLL {
        if n >= 1 {
            let rest = below(s, 1);
            let k = peek(s, 0);
            if k.len() > 0 && (k[0] as int) < rest.len() {
                (true, rest.remove(rest.len() - 1 - k[0] as int).push(peek(rest, k[0] as int)))
            } else {
                (false, rest)
            }
        } else {
            (false, s)
        }
    } else if op == OP_ROT {
        if n >= 3 {
            (true, below(s, 3).push(peek(s, 1)).push(peek(s, 0)).push(peek(s, 2)))
        } else {
            (false, s)
        }
    } else if op == OP_SWAP {
        if n >= 2 {
            (true, below(s, 2).push(peek(s, 0)).push(peek(s, 1)))
        } else {
            (false, s)
        }
    } else if op == OP_TUCK {
        if n >= 2 {
            (true, below(s, 2).push(peek(s, 0)).push(peek(s, 1)).push(peek(s, 0)))
        } else {
            (false, s)
        }
    } else if op == OP_2DROP {
        if n >= 2 {
            (true, below(s, 2))
        } else {
            (false, s)
        }
    } else if op == OP_2DUP {
        if n >= 2 {
            (true, s.push(peek(s, 1)).push(peek(s, 0)))
        } else {
            (false, s)
        }
    } else if op == OP_3DUP {
        if n >= 3 {
            (true, s.push(peek(s, 2)).push(peek(s, 1)).push(peek(s, 0)))
        } else {
            (false, s)
        }
    } else if op == OP_2OVER {
        if n >= 4 {
            (true, s.push(peek(s, 3)).push(peek(s, 2)))
        } else {
            (false, s)
        }
    } else if op == OP_2ROT {
        if n >= 6 {
            (true, below(s, 6) + s.subrange(n - 4, n) + seq![peek(s, 4), peek(s, 5)])
        } else {
            (false, s)
        }
    } else if op == OP_2SWAP {
        if n >= 4 {
            (true, below(s, 4).push(peek(s, 1)).push(peek(s, 0)).push(peek(s, 3)).push(peek(s, 2)))
        } else {
            (false, s)
        }
    } else if op == OP_SIZE {
        if n >= 1 {
            (true, s.push(seq![(peek(s, 0).len() % 256) as u8]))
        } else {
            (false, s)
        }
    } else {
        (false, s)
    }
}

/// One opcode where the hash of the transaction may be missing: a signature
/// opcode that finds its two elements takes them and then gives the error
/// that refused the hash; everything else is [`op_result`].
pub open spec fn step_spec(op: u8, s: Seq<Seq<u8>>, digest: Result<Seq<u8>, ConsensusError>) -> (
    Result<bool, ConsensusError>,
    Seq<Seq<u8>>,
) {
    match digest {
        Err(e) => if is_signature_opcode(op) && s.len() >= 2 {
            (Err(e), below(s, 2))
        } else {
            (Ok(op_result(op, s, zeros(32)).0), op_result(op, s, zeros(32)).1)
        },
        Ok(d) => (Ok(op_result(op, s, d).0), op_result(op, s, d).1),
    }
}

/// How a script ran that broke no structural bound.
#[derive(Debug, Clone, Copy, PartialEq, Eq, Structural)]
pub enum ScriptRun {
    /// Every opcode went through.
    RanThrough,
    /// An opcode failed, and the script stopped there.
    OpcodeFailed,
}

/// Runs the opcodes of `script` from position `pos` on, `ops` operations
/// having been counted so far. Before an opcode runs, a non-push opcode is
/// counted, and the script stops with an error if that makes more than
/// `MAX_SCRIPT_OPS`. After it, the script stops if the opcode failed, and
/// with an error if the stack has grown beyond `MAX_STACK_SIZE`. The stack
/// at the end is not looked at.
pub open spec fn run_from(
    script: Seq<u8>,
    pos: int,
    s: Seq<Seq<u8>>,
    ops: int,
    digest: Result<Seq<u8>, ConsensusError>,
) -> (Result<ScriptRun, ConsensusError>, Seq<Seq<u8>>)
    decreases script.len() - pos,
{
    if pos < 0 || pos >= script.len() {
        (Ok(ScriptRun::RanThrough), s)
    } else {
        let op = script[pos];
        let counted = if is_push_opcode(op) { ops } else { ops + 1 };
        if counted > MAX_SCRIPT_OPS {
            (Err(ConsensusError::ScriptExecution(ScriptError::OperationLimitExceeded)), s)
        } else {
            let (r, after) = step_spec(op, s, digest);
            match r {
                Err(e) => (Err(e), after),
                Ok(false) => (Ok(ScriptRun::OpcodeFailed), after),
                Ok(true) => if after.len() > MAX_STACK_SIZE {
                    (Err(ConsensusError::ScriptExecution(ScriptError::StackOverflow)), after)
                } else {
                    run_from(script, pos + 1, after, counted, digest)
                },
            }
        }
    }
}

/// What running `script` to its end on the stack `s` gives: how it ran, and
/// the stack that is left. A script longer than `MAX_SCRIPT_SIZE` and a
/// stack deeper than `MAX_STACK_SIZE` are refused before anything runs.
/// What the stack holds at the end plays no part.
pub open spec fn run_spec(script: Seq<u8>, s: Seq<Seq<u8>>, digest: Result<Seq<u8>, ConsensusError>) -> (
    Result<ScriptRun, ConsensusError>,
    Seq<Seq<u8>>,
) {
    if script.len() > MAX_SCRIPT_SIZE {
        (Err(ConsensusError::ScriptExecution(ScriptError::ScriptTooLarge)), s)
    } else if s.len() > MAX_STACK_SIZE {
        (Err(ConsensusError::ScriptExecution(ScriptError::StackOverflow)), s)
    } else {
        run_from(script, 0, s, 0, digest)
    }
}

/// The verdict on a run and the stack it left: the error of the run; `false`
/// where an opcode failed; otherwise whether the stack is exactly one true
/// element.
pub open spec fn verdict_of(run: Result<ScriptRun, ConsensusError>, s: Seq<Seq<u8>>) -> Result<bool, ConsensusError> {
    match run {
        Err(e) => Err(e),
        Ok(ScriptRun::OpcodeFailed) => Ok(false),
        Ok(ScriptRun::RanThrough) => Ok(final_stack_ok(s)),
    }
}

/// What evaluating `script` on the stack `s` gives: the verdict on its run,
/// and the stack that is left.
pub open spec fn eval_spec(script: Seq<u8>, s: Seq<Seq<u8>>, digest: Result<Seq<u8>, ConsensusError>) -> (
    Result<bool, ConsensusError>,
    Seq<Seq<u8>>,
) {
    (verdict_of(run_spec(script, s, digest).0, run_spec(script, s, digest).1), run_spec(script, s, digest).1)
}

/// What verifying an input gives. The unlocking script runs on an empty
/// stack, the locking script on the stack that the unlocking script left,
/// whatever its depth, then the witness, if there is one, on what the
/// locking script left. An error of a script is the result; a script in
/// which an opcode fails gives `false`. Where all run through, the result is
/// whether the stack at the very end is exactly one true element.
pub open spec fn verify_spec(
    script_sig: Seq<u8>,
    script_pubkey: Seq<u8>,
    witness: Option<Seq<u8>>,
    digest: Result<Seq<u8>, ConsensusError>,
) -> Result<bool, ConsensusError> {
    let first = run_spec(script_sig, Seq::<Seq<u8>>::empty(), digest);
    if first.0 != Ok::<ScriptRun, ConsensusError>(ScriptRun::RanThrough) {
        verdict_of(first.0, first.1)
    } else {
        let second = run_spec(script_pubkey, first.1, digest);
        if second.0 != Ok::<ScriptRun, ConsensusError>(ScriptRun::RanThrough) {
            verdict_of(second.0, second.1)
        } else {
            match witness {
                Some(w) => verdict_of(run_spec(w, second.1, digest).0, run_spec(w, second.1, digest).1),
                None => Ok(final_stack_ok(second.1)),
            }
        }
    }
}

/// The hash that signatures are checked against where no transaction is given.
pub open spec fn no_context() -> Result<Seq<u8>, ConsensusError> {
    Ok(zeros(32))
}

/// The hash that signatures of input `input_index` of `tx` are checked
/// against: the signature hash of type "all", or the error that refuses the
/// index or the number of previous outputs.
pub open spec fn context_digest(tx: TxView, input_index: usize, prevouts_len: usize) -> Result<Seq<u8>, ConsensusError> {
    sighash_spec(tx, input_index, prevouts_len, SighashType::All)
}

/// Whether no element is longer than `MAX_SCRIPT_ELEMENT_SIZE`.
pub open spec fn elements_bounded(s: Seq<Seq<u8>>) -> bool {
    forall|i: int| 0 <= i < s.len() ==> (#[trigger] s[i]).len() <= MAX_SCRIPT_ELEMENT_SIZE
}

fn push_item(stack: &mut Vec<ByteString>, item: ByteString)
    ensures
        stack_view(final(stack)@) == stack_view(old(stack)@).push(item@),
        final(stack)@.len() == old(stack)@.len() + 1,
{
    stack.push(item);
    assert(stack_view(stack@) =~= stack_view(old(stack)@).push(item@));
}

fn pop_item(stack: &mut Vec<ByteString>) -> (item: ByteString)
    requires
        old(stack)@.len() > 0,
    ensures
        item@ == peek(stack_view(old(stack)@), 0),
        stack_view(final(stack)@) == below(stack_view(old(stack)@), 1),
        final(stack)@.len() == old(stack)@.len() - 1,
{
    let item = stack.pop().unwrap();
    assert(stack_view(stack@) =~= below(stack_view(old(stack)@), 1));
    item
}

fn copy_item(stack: &Vec<ByteString>, depth: usize) -> (item: ByteString)
    requires
        depth < stack@.len(),
    ensures
        item@ == peek(stack_view(stack@), depth as int),
{
    copy_bytes(stack[stack.len() - 1 - depth].as_slice())
}

fn remove_item(stack: &mut Vec<ByteString>, index: usize) -> (item: ByteString)
    requires
        index < old(stack)@.len(),
    ensures
        item@ == stack_view(old(stack)@)[index as int],
        stack_view(final(stack)@) == stack_view(old(stack)@).remove(index as int),
        final(stack)@.len() == old(stack)@.len() - 1,
{
    let item = stack.remove(index);
    assert(stack_view(stack@) =~= stack_view(old(stack)@).remove(index as int));
    item
}

fn one_byte(b: u8) -> (item: ByteString)
    ensures
        item@ == seq![b],
{
    let mut item: Vec<u8> = Vec::with_capacity(1);
    item.push(b);
    assert(item@ =~= seq![b]);
    item
}

fn truth_item(b: bool) -> (item: ByteString)
    ensures
        item@ == bool_item(b),
{
    if b {
        one_byte(1u8)
    } else {
        one_byte(0u8)
    }
}

fn item_truthy(item: &ByteString) -> (r: bool)
    ensures
        r == truthy(item@),
{
    item.len() > 0 && item[0] != 0
}

/// Checks a signature: takes the key and the signature off the stack and
/// says whether the signature is one of `digest`.
fn take_and_check(stack: &mut Vec<ByteString>, digest: &[u8; 32], flags: u32) -> (valid: bool)
    requires
        old(stack)@.len() >= 2,
    ensures
        valid == ecdsa_signature_valid(
            peek(stack_view(old(stack)@), 0),
            peek(stack_view(old(stack)@), 1),
            digest@,
        ),
        stack_view(final(stack)@) == below(stack_view(old(stack)@), 2),
        final(stack)@.len() == old(stack)@.len() - 2,
{
    let pubkey_bytes = pop_item(stack);
    let signature_bytes = pop_item(stack);
    assert(stack_view(stack@) =~= below(stack_view(old(stack)@), 2));
    verify_signature(pubkey_bytes.as_slice(), signature_bytes.as_slice(), digest, flags)
}

/// Runs one opcode on the stack, with signatures checked against a hash of
/// 32 zero bytes. Gives `Ok(true)` where the opcode goes through and
/// `Ok(false)` where it fails; it never gives an error. The flags do not
/// change the result.
#[verifier::rlimit(60)]
pub fn execute_opcode(opcode: u8, stack: &mut Vec<ByteString>, flags: u32) -> (r: Result<bool, ConsensusError>)
    ensures
        r == Ok::<bool, ConsensusError>(op_result(opcode, stack_view(old(stack)@), zeros(32)).0),
        stack_view(final(stack)@) == op_result(opcode, stack_view(old(stack)@), zeros(32)).1,
        elements_bounded(stack_view(old(stack)@)) ==> elements_bounded(stack_view(final(stack)@)),
{
    let ghost s = stack_view(stack@);
    let n = stack.len();
    match opcode {
        // OP_0
        0x00 => {
            push_item(stack, Vec::new());
            Ok(true)
        },
        // OP_1 to OP_16
        0x51..=0x60 => {
            push_item(stack, one_byte(opcode - 0x50));
            Ok(true)
        },
        // OP_DUP
        0x76 => {
            if n >= 1 {
                let item = copy_item(stack, 0);
                push_item(stack, item);
                Ok(true)
            } else {
                Ok(false)
            }
        },
        // OP_HASH160
        0xa9 => {
            if n >= 1 {
                let item = pop_item(stack);
                let digest = hash160(item.as_slice());
                push_item(stack, copy_bytes(digest.as_slice()));
                Ok(true)
            } else {
                Ok(false)
            }
        },
        // OP_HASH256
        0xaa => {
            if n >= 1 {
                let item = pop_item(stack);
                let digest = double_sha256(item.as_slice());
                push_item(stack, copy_bytes(digest.as_slice()));
                Ok(true)
            } else {
                Ok(false)
            }
        },
        // OP_EQUAL
        0x87 => {
            if n >= 2 {
                let a = pop_item(stack);
                let b = pop_item(stack);
                push_item(stack, truth_item(bytes_eq(a.as_slice(), b.as_slice())));
                assert(stack_view(stack@) =~= op_result(opcode, s, zeros(32)).1);
                Ok(true)
            } else {
                Ok(false)
            }
        },
        // OP_EQUALVERIFY
        0x88 => {
            if n >= 2 {
                let a = pop_item(stack);
                let b = pop_item(stack);
                assert(stack_view(stack@) =~= op_result(opcode, s, zeros(32)).1);
                Ok(bytes_eq(a.as_slice(), b.as_slice()))
            } else {
                Ok(false)
            }
        },
        // OP_CHECKSIG
        0xac => {
            if n >= 2 {
                let digest = [0u8; 32];
                assert(digest@ =~= zeros(32));
                let valid = take_and_check(stack, &digest, flags);
                push_item(stack, truth_item(valid));
                Ok(true)
            } else {
                Ok(false)
            }
        },
        // OP_CHECKSIGVERIFY
        0xad => {
            if n >= 2 {
                let digest = [0u8; 32];
                assert(digest@ =~= zeros(32));
                let valid = take_and_check(stack, &digest, flags);
                Ok(valid)
            } else {
                Ok(false)
            }
        },
        // OP_RETURN
        0x6a => Ok(false),
        // OP_VERIFY
        0x69 => {
            if n >= 1 {
                let item = pop_item(stack);
                Ok(item_truthy(&item))
            } else {
                Ok(false)
            }
        },
        // OP_IFDUP
        0x73 => {
            if n >= 1 {
                let item = copy_item(stack, 0);
                if item_truthy(&item) {
                    push_item(stack, item);
                }
                Ok(true)
            } else {
                Ok(false)
            }
        },
        // OP_DEPTH
        0x74 => {
            push_item(stack, one_byte((n % 256) as u8));
            Ok(true)
        },
        // OP_DROP
        0x75 => {
            if n >= 1 {
                let _ = pop_item(stack);
                Ok(true)
            } else {
                Ok(false)
            }
        },
        // OP_NIP
        0x77 => {
            if n >= 2 {
                let top = pop_item(stack);
                let _ = pop_item(stack);
                push_item(stack, top);
                assert(stack_view(stack@) =~= op_result(opcode, s, zeros(32)).1);
                Ok(true)
            } else {
                Ok(false)
            }
        },
        // OP_OVER
        0x78 => {
            if n >= 2 {
                let second = copy_item(stack, 1);
                push_item(stack, second);
                Ok(true)
            } else {
                Ok(false)
            }
        },
        // OP_PICK
        0x79 => {
            if n >= 1 {
                let k = pop_item(stack);
                if k.len() > 0 && (k[0] as usize) < stack.len() {
                    let item = copy_item(stack, k[0] as usize);
                    push_item(stack, item);
                    Ok(true)
                } else {
                    Ok(false)
                }
            } else {
                Ok(false)
            }
        },
        // OP_ROLL
        0x7a => {
            if n >= 1 {
                let k = pop_item(stack);
                if k.len() > 0 && (k[0] as usize) < stack.len() {
                    let index = stack.len() - 1 - (k[0] as usize);
                    let item = remove_item(stack, index);
                    push_item(stack, item);
                    Ok(true)
                } else {
                    Ok(false)
                }
            } else {
                Ok(false)
            }
        },
        // OP_ROT
        0x7b => {
            if n >= 3 {
                let top = pop_item(stack);
                let second = pop_item(stack);
                let third = pop_item(stack);
                push_item(stack, second);
                push_item(stack, top);
                push_item(stack, third);
                assert(stack_view(stack@) =~= op_result(opcode, s, zeros(32)).1);
                Ok(true)
            } else {
                Ok(false)
            }
        },
        // OP_SWAP
        0x7c => {
            if n >= 2 {
                let top = pop_item(stack);
                let second = pop_item(stack);
                push_item(stack, top);
                push_item(stack, second);
                assert(stack_view(stack@) =~= op_result(opcode, s, zeros(32)).1);
                Ok(true)
            } else {
                Ok(false)
            }
        },
        // OP_TUCK
        0x7d => {
            if n >= 2 {
                let copy = copy_item(stack, 0);
                let top = pop_item(stack);
                let second = pop_item(stack);
                push_item(stack, copy);
                push_item(stack, second);
                push_item(stack, top);
                assert(stack_view(stack@) =~= op_result(opcode, s, zeros(32)).1);
                Ok(true)
            } else {
                Ok(false)
            }
        },
        // OP_2DROP
        0x6d => {
            if n >= 2 {
                let _ = pop_item(stack);
                let _ = pop_item(stack);
                assert(stack_view(stack@) =~= op_result(opcode, s, zeros(32)).1);
                Ok(true)
            } else {
                Ok(false)
            }
        },
        // OP_2DUP
        0x6e => {
            if n >= 2 {
                let top = copy_item(stack, 0);
                let second = copy_item(stack, 1);
                push_item(stack, second);
                push_item(stack, top);
                Ok(true)
            } else {
                Ok(false)
            }
        },
        // OP_3DUP
        0x6f => {
            if n >= 3 {
                let top = copy_item(stack, 0);
                let second = copy_item(stack, 1);
                let third = copy_item(stack, 2);
                push_item(stack, third);
                push_item(stack, second);
                push_item(stack, top);
                Ok(true)
            } else {
                Ok(false)
            }
        },
        // OP_2OVER
        0x70 => {
            if n >= 4 {
                let fourth = copy_item(stack, 3);
                let third = copy_item(stack, 2);
                push_item(stack, fourth);
                push_item(stack, third);
                Ok(true)
            } else {
                Ok(false)
            }
        },
        // OP_2ROT
        0x71 => {
            if n >= 6 {
                let sixth = remove_item(stack, n - 6);
                let fifth = remove_item(stack, n - 6);
                push_item(stack, fifth);
                push_item(stack, sixth);
                assert(stack_view(stack@) =~= op_result(opcode, s, zeros(32)).1);
                Ok(true)
            } else {
                Ok(false)
            }
        },
        // OP_2SWAP
        0x72 => {
            if n >= 4 {
                let top = pop_item(stack);
                let second = pop_item(stack);
                let third = pop_item(stack);
                let fourth = pop_item(stack);
                push_item(stack, second);
                push_item(stack, top);
                push_item(stack, fourth);
                push_item(stack, third);
                assert(stack_view(stack@) =~= op_result(opcode, s, zeros(32)).1);
                Ok(true)
            } else {
                Ok(false)
            }
        },
        // OP_SIZE
        0x82 => {
            if n >= 1 {
                let size = stack[n - 1].len();
                push_item(stack, one_byte((size % 256) as u8));
                Ok(true)
            } else {
                Ok(false)
            }
        },
        _ => Ok(false),
    }
}

/// Runs one opcode on the stack, with signatures checked against the
/// signature hash of input `input_index` of `tx`.
///
/// A signature opcode that finds its two elements takes them, and gives the
/// error of the signature hash where `input_index` names no input of `tx` or
/// `prevouts` is not as long as the inputs. Every other case is that of
/// [`execute_opcode`].
pub fn execute_opcode_with_context(
    opcode: u8,
    stack: &mut Vec<ByteString>,
    flags: u32,
    tx: &Transaction,
    input_index: usize,
    prevouts: &[TransactionOutput],
) -> (r: Result<bool, ConsensusError>)
    ensures
        r == step_spec(
            opcode,
            stack_view(old(stack)@),
            context_digest(tx@, input_index, prevouts@.len() as usize),
        ).0,
        stack_view(final(stack)@) == step_spec(
            opcode,
            stack_view(old(stack)@),
            context_digest(tx@, input_index, prevouts@.len() as usize),
        ).1,
        elements_bounded(stack_view(old(stack)@)) ==> elements_bounded(stack_view(final(stack)@)),
{
    match opcode {
        // OP_CHECKSIG
        0xac => {
            if stack.len() >= 2 {
                let pubkey_bytes = pop_item(stack);
                let signature_bytes = pop_item(stack);
                assert(stack_view(stack@) =~= below(stack_view(old(stack)@), 2));
                match calculate_transaction_sighash(tx, input_index, prevouts, SighashType::All) {
                    Err(e) => Err(e),
                    Ok(sighash) => {
                        let valid = verify_signature(
                            pubkey_bytes.as_slice(),
                            signature_bytes.as_slice(),
                            &sighash,
                            flags,
                        );
                        push_item(stack, truth_item(valid));
                        Ok(true)
                    },
                }
            } else {
                Ok(false)
            }
        },
        // OP_CHECKSIGVERIFY
        0xad => {
            if stack.len() >= 2 {
                let pubkey_bytes = pop_item(stack);
                let signature_bytes = pop_item(stack);
                assert(stack_view(stack@) =~= below(stack_view(old(stack)@), 2));
                match calculate_transaction_sighash(tx, input_index, prevouts, SighashType::All) {
                    Err(e) => Err(e),
                    Ok(sighash) => {
                        let valid = verify_signature(
                            pubkey_bytes.as_slice(),
                            signature_bytes.as_slice(),
                            &sighash,
                            flags,
                        );
                        Ok(valid)
                    },
                }
            } else {
                Ok(false)
            }
        },
        _ => execute_opcode(opcode, stack, flags),
    }
}

/// The hash that the opcodes of a run check signatures against.
pub open spec fn digest_of(context: Option<(&Transaction, usize, &[TransactionOutput])>) -> Result<Seq<u8>, ConsensusError> {
    match context {
        Some((tx, input_index, prevouts)) => context_digest(tx@, input_index, prevouts@.len() as usize),
        None => no_context(),
    }
}

/// Runs a script to its end, with or without a transaction to check
/// signatures against.
fn run_with(
    script: &ByteString,
    stack: &mut Vec<ByteString>,
    flags: u32,
    context: Option<(&Transaction, usize, &[TransactionOutput])>,
) -> (r: Result<ScriptRun, ConsensusError>)
    ensures
        r == run_spec(script@, stack_view(old(stack)@), digest_of(context)).0,
        stack_view(final(stack)@) == run_spec(script@, stack_view(old(stack)@), digest_of(context)).1,
        r is Ok ==> final(stack)@.len() <= MAX_STACK_SIZE,
        elements_bounded(stack_view(old(stack)@)) ==> elements_bounded(stack_view(final(stack)@)),
{
    if script.len() > MAX_SCRIPT_SIZE {
        return Err(ConsensusError::ScriptExecution(ScriptError::ScriptTooLarge));
    }
    if stack.len() > MAX_STACK_SIZE {
        return Err(ConsensusError::ScriptExecution(ScriptError::StackOverflow));
    }
    let ghost digest = digest_of(context);
    let ghost start = stack_view(stack@);
    let mut ops: usize = 0;
    let mut i: usize = 0;
    while i < script.len()
        invariant
            i <= script.len(),
            ops <= MAX_SCRIPT_OPS,
            stack@.len() <= MAX_STACK_SIZE,
            script@.len() <= MAX_SCRIPT_SIZE,
            start == stack_view(old(stack)@),
            start.len() <= MAX_STACK_SIZE,
            digest == digest_of(context),
            run_from(script@, i as int, stack_view(stack@), ops as int, digest) == run_from(
                script@,
                0,
                start,
                0,
                digest,
            ),
            elements_bounded(start) ==> elements_bounded(stack_view(stack@)),
        decreases script.len() - i,
    {
        let opcode = script[i];
        let ghost before = stack_view(stack@);
        let is_push = opcode == 0x00 || (0x51 <= opcode && opcode <= 0x60);
        if !is_push {
            if ops + 1 > MAX_SCRIPT_OPS {
                return Err(ConsensusError::ScriptExecution(ScriptError::OperationLimitExceeded));
            }
            ops += 1;
        }
        let step = match context {
            Some((tx, input_index, prevouts)) => execute_opcode_with_context(
                opcode,
                stack,
                flags,
                tx,
                input_index,
                prevouts,
            ),
            None => execute_opcode(opcode, stack, flags),
        };
        assert(step == step_spec(opcode, before, digest).0);
        assert(stack_view(stack@) == step_spec(opcode, before, digest).1);
        match step {
            Err(e) => {
                return Err(e);
            },
            Ok(false) => {
                assert(stack@.len() <= before.len());
                return Ok(ScriptRun::OpcodeFailed);
            },
            Ok(true) => {},
        }
        if stack.len() > MAX_STACK_SIZE {
            return Err(ConsensusError::ScriptExecution(ScriptError::StackOverflow));
        }
        i += 1;
    }
    Ok(ScriptRun::RanThrough)
}

/// Whether the stack is exactly one true element.
fn stack_is_true(stack: &Vec<ByteString>) -> (r: bool)
    ensures
        r == final_stack_ok(stack_view(stack@)),
{
    stack.len() == 1 && item_truthy(&stack[0])
}

/// Evaluates a script: runs it to its end and gives the verdict.
fn eval_with(
    script: &ByteString,
    stack: &mut Vec<ByteString>,
    flags: u32,
    context: Option<(&Transaction, usize, &[TransactionOutput])>,
) -> (r: Result<bool, ConsensusError>)
    ensures
        r == eval_spec(script@, stack_view(old(stack)@), digest_of(context)).0,
        stack_view(final(stack)@) == eval_spec(script@, stack_view(old(stack)@), digest_of(context)).1,
        r == Ok::<bool, ConsensusError>(true) ==> final_stack_ok(stack_view(final(stack)@)),
        r is Ok ==> final(stack)@.len() <= MAX_STACK_SIZE,
        elements_bounded(stack_view(old(stack)@)) ==> elements_bounded(stack_view(final(stack)@)),
{
    match run_with(script, stack, flags, context) {
        Err(e) => Err(e),
        Ok(ScriptRun::OpcodeFailed) => Ok(false),
        Ok(ScriptRun::RanThrough) => Ok(stack_is_true(stack)),
    }
}

/// Runs `script` to its end on `stack`, with signatures checked against a
/// hash of 32 zero bytes, and says how it ran; what the stack holds at the
/// end plays no part.
///
/// The result and the stack left behind are those of [`run_spec`]: an error
/// where the script is longer than `MAX_SCRIPT_SIZE`, where the stack is or
/// becomes deeper than `MAX_STACK_SIZE`, or where more than `MAX_SCRIPT_OPS`
/// non-push opcodes would run; `OpcodeFailed` where an opcode fails;
/// `RanThrough` otherwise.
pub fn run_script(script: &ByteString, stack: &mut Vec<ByteString>, flags: u32) -> (r: Result<ScriptRun, ConsensusError>)
    ensures
        r == run_spec(script@, stack_view(old(stack)@), no_context()).0,
        stack_view(final(stack)@) == run_spec(script@, stack_view(old(stack)@), no_context()).1,
        r is Ok ==> final(stack)@.len() <= MAX_STACK_SIZE,
        elements_bounded(stack_view(old(stack)@)) ==> elements_bounded(stack_view(final(stack)@)),
{
    run_with(script, stack, flags, None)
}

/// Runs `script` to its end on `stack`, with signatures checked against the
/// signature hash of input `input_index` of `tx`, and says how it ran.
pub fn run_script_with_context(
    script: &ByteString,
    stack: &mut Vec<ByteString>,
    flags: u32,
    tx: &Transaction,
    input_index: usize,
    prevouts: &[TransactionOutput],
) -> (r: Result<ScriptRun, ConsensusError>)
    ensures
        r == run_spec(
            script@,
            stack_view(old(stack)@),
            context_digest(tx@, input_index, prevouts@.len() as usize),
        ).0,
        stack_view(final(stack)@) == run_spec(
            script@,
            stack_view(old(stack)@),
            context_digest(tx@, input_index, prevouts@.len() as usize),
        ).1,
        r is Ok ==> final(stack)@.len() <= MAX_STACK_SIZE,
        elements_bounded(stack_view(old(stack)@)) ==> elements_bounded(stack_view(final(stack)@)),
{
    run_with(script, stack, flags, Some((tx, input_index, prevouts)))
}

/// Runs `script` on `stack`, with signatures checked against a hash of 32
/// zero bytes.
///
/// The result and the stack left behind are those of [`eval_spec`]: an error
/// where the script is longer than `MAX_SCRIPT_SIZE`, where the stack is or
/// becomes deeper than `MAX_STACK_SIZE`, or where more than `MAX_SCRIPT_OPS`
/// non-push opcodes would run; `Ok(false)` where an opcode fails or the
/// stack at the end is not exactly one true element; `Ok(true)` otherwise.
/// The flags do not change the result.
pub fn eval_script(script: &ByteString, stack: &mut Vec<ByteString>, flags: u32) -> (r: Result<bool, ConsensusError>)
    ensures
        r == eval_spec(script@, stack_view(old(stack)@), no_context()).0,
        stack_view(final(stack)@) == eval_spec(script@, stack_view(old(stack)@), no_context()).1,
        r == Ok::<bool, ConsensusError>(true) ==> final_stack_ok(stack_view(final(stack)@)),
        r is Ok ==> final(stack)@.len() <= MAX_STACK_SIZE,
        elements_bounded(stack_view(old(stack)@)) ==> elements_bounded(stack_view(final(stack)@)),
{
    eval_with(script, stack, flags, None)
}

/// Runs `script` on `stack`, with signatures checked against the signature
/// hash of input `input_index` of `tx`.
pub fn eval_script_with_context(
    script: &ByteString,
    stack: &mut Vec<ByteString>,
    flags: u32,
    tx: &Transaction,
    input_index: usize,
    prevouts: &[TransactionOutput],
) -> (r: Result<bool, ConsensusError>)
    ensures
        r == eval_spec(
            script@,
            stack_view(old(stack)@),
            context_digest(tx@, input_index, prevouts@.len() as usize),
        ).0,
        stack_view(final(stack)@) == eval_spec(
            script@,
            stack_view(old(stack)@),
            context_digest(tx@, input_index, prevouts@.len() as usize),
        ).1,
        r == Ok::<bool, ConsensusError>(true) ==> final_stack_ok(stack_view(final(stack)@)),
        r is Ok ==> final(stack)@.len() <= MAX_STACK_SIZE,
        elements_bounded(stack_view(old(stack)@)) ==> elements_bounded(stack_view(final(stack)@)),
{
    eval_with(script, stack, flags, Some((tx, input_index, prevouts)))
}

/// The view of an optional witness script.
pub open spec fn witness_view(witness: Option<&ByteString>) -> Option<Seq<u8>> {
    match witness {
        Some(w) => Some(w@),
        None => None,
    }
}

/// Runs the three scripts of an input, one after the other on one stack,
/// and judges the stack at the very end.
fn verify_scripts(
    script_sig: &ByteString,
    script_pubkey: &ByteString,
    witness: Option<&ByteString>,
    flags: u32,
    context: Option<(&Transaction, usize, &[TransactionOutput])>,
) -> (r: Result<bool, ConsensusError>)
    ensures
        r == verify_spec(script_sig@, script_pubkey@, witness_view(witness), digest_of(context)),
{
    let mut stack: Vec<ByteString> = Vec::with_capacity(20);
    assert(stack_view(stack@) =~= Seq::<Seq<u8>>::empty());
    match run_with(script_sig, &mut stack, flags, context) {
        Err(e) => {
            return Err(e);
        },
        Ok(ScriptRun::OpcodeFailed) => {
            return Ok(false);
        },
        Ok(ScriptRun::RanThrough) => {},
    }
    match run_with(script_pubkey, &mut stack, flags, context) {
        Err(e) => {
            return Err(e);
        },
        Ok(ScriptRun::OpcodeFailed) => {
            return Ok(false);
        },
        Ok(ScriptRun::RanThrough) => {},
    }
    match witness {
        Some(w) => {
            match run_with(w, &mut stack, flags, context) {
                Err(e) => {
                    return Err(e);
                },
                Ok(ScriptRun::OpcodeFailed) => {
                    return Ok(false);
                },
                Ok(ScriptRun::RanThrough) => {},
            }
        },
        None => {},
    }
    Ok(stack_is_true(&stack))
}

/// Verifies an input without a transaction: `script_sig` runs on an empty
/// stack, `script_pubkey` on what is left, then the witness, if there is one.
///
/// Gives the error of the first script that breaks a structural bound,
/// `Ok(false)` where an opcode of one of them fails, and otherwise whether
/// the stack at the very end, after the last script, is exactly one true
/// element. What a script leaves for the next may be of any depth. The
/// result is a function of the arguments: [`verify_spec`].
pub fn verify_script(
    script_sig: &ByteString,
    script_pubkey: &ByteString,
    witness: Option<&ByteString>,
    flags: u32,
) -> (r: Result<bool, ConsensusError>)
    ensures
        r == verify_spec(script_sig@, script_pubkey@, witness_view(witness), no_context()),
{
    verify_scripts(script_sig, script_pubkey, witness, flags, None)
}

/// Verifies input `input_index` of `tx`: as [`verify_script`], with
/// signatures checked against the signature hash of that input.
pub fn verify_script_with_context(
    script_sig: &ByteString,
    script_pubkey: &ByteString,
    witness: Option<&ByteString>,
    flags: u32,
    tx: &Transaction,
    input_index: usize,
    prevouts: &[TransactionOutput],
) -> (r: Result<bool, ConsensusError>)
    ensures
        r == verify_spec(
            script_sig@,
            script_pubkey@,
            witness_view(witness),
            context_digest(tx@, input_index, prevouts@.len() as usize),
        ),
{
    verify_scripts(script_sig, script_pubkey, witness, flags, Some((tx, input_index, prevouts)))
}

/// A script of more than `MAX_SCRIPT_OPS` opcodes, none of them a push,
/// never runs through: an opcode fails on the way, or a bound is broken, at
/// the latest the limit on operations.
pub proof fn lemma_too_many_operations(
    script: Seq<u8>,
    pos: int,
    s: Seq<Seq<u8>>,
    ops: int,
    digest: Result<Seq<u8>, ConsensusError>,
)
    requires
        0 <= pos <= script.len(),
        0 <= ops <= MAX_SCRIPT_OPS,
        script.len() - pos + ops > MAX_SCRIPT_OPS,
        forall|i: int| pos <= i < script.len() ==> !is_push_opcode(#[trigger] script[i]),
    ensures
        run_from(script, pos, s, ops, digest).0 != Ok::<ScriptRun, ConsensusError>(ScriptRun::RanThrough),
    decreases script.len() - pos,
{
    if pos < script.len() {
        let op = script[pos];
        let counted = ops + 1;
        let (r, after) = step_spec(op, s, digest);
        if counted <= MAX_SCRIPT_OPS && r == Ok::<bool, ConsensusError>(true) && after.len() <= MAX_STACK_SIZE {
            lemma_too_many_operations(script, pos + 1, after, counted, digest);
        }
    }
}

/// Whether a script is a witness commitment: `OP_RETURN`, the byte `0x24`
/// and a commitment of 32 bytes.
pub open spec fn is_witness_commitment_spec(script: Seq<u8>) -> bool {
    script.len() == WITNESS_COMMITMENT_SCRIPT_LENGTH && script[0] == OP_RETURN && script[1] == 0x24
}

/// Whether a script pays to a taproot program: `OP_1`, the byte `0x20` and
/// a program of 32 bytes.
pub open spec fn is_taproot_spec(script: Seq<u8>) -> bool {
    script.len() == TAPROOT_SCRIPT_LENGTH && script[0] == OP_1 && script[1] == 0x20
}

/// The 32 bytes that follow the first two of a script of 34 bytes.
fn program_of(script: &ByteString) -> (r: [u8; 32])
    requires
        script@.len() == 34,
    ensures
        r@ == script@.subrange(2, 34),
{
    let mut r = [0u8; 32];
    let mut i: usize = 0;
    while i < 32
        invariant
            i <= 32,
            script@.len() == 34,
            forall|j: int| 0 <= j < i ==> r@[j] == script@[2 + j],
        decreases 32 - i,
    {
        r[i] = script[i + 2];
        i += 1;
    }
    assert(r@ =~= script@.subrange(2, 34));
    r
}

/// The commitment that a witness-commitment script carries, if the script is one.
pub fn witness_commitment(script: &ByteString) -> (r: Option<[u8; 32]>)
    ensures
        match r {
            Some(c) => is_witness_commitment_spec(script@) && c@ == script@.subrange(2, 34),
            None => !is_witness_commitment_spec(script@),
        },
{
    if script.len() == WITNESS_COMMITMENT_SCRIPT_LENGTH && script[0] == 0x6a && script[1] == 0x24 {
        Some(program_of(script))
    } else {
        None
    }
}

/// The program that a taproot script pays to, if the script is one.
pub fn taproot_program(script: &ByteString) -> (r: Option<[u8; 32]>)
    ensures
        match r {
            Some(p) => is_taproot_spec(script@) && p@ == script@.subrange(2, 34),
            None => !is_taproot_spec(script@),
        },
{
    if script.len() == TAPROOT_SCRIPT_LENGTH && script[0] == 0x51 && script[1] == 0x20 {
        Some(program_of(script))
    } else {
        None
    }
}

} // verus!
