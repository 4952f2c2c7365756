//! Error kinds that validation hands back.

use vstd::prelude::*;

verus! {

/// Why a script could not be run to its end.
#[derive(Debug, Clone, Copy, PartialEq, Eq, Structural)]
pub enum ScriptError {
    /// The script is longer than `MAX_SCRIPT_SIZE`.
    ScriptTooLarge,
    /// The stack holds more than `MAX_STACK_SIZE` elements.
    StackOverflow,
    /// More than `MAX_SCRIPT_OPS` non-push operations.
    OperationLimitExceeded,
}

/// Why a compact target or a chain's work could not be computed.
#[derive(Debug, Clone, Copy, PartialEq, Eq, Structural)]
pub enum PowError {
    /// The compact form stands for a target of more than 128 bits.
    TargetTooLarge,
    /// The sum of the work of a chain's headers does not fit in 128 bits.
    WorkOverflow,
}

/// Which rule a reorganization broke.
#[derive(Debug, Clone, Copy, PartialEq, Eq, Structural)]
pub enum RuleViolation {
    /// One of the two chains is empty.
    EmptyChain,
    /// The two chains do not start at the same block.
    NoCommonAncestor,
    /// More blocks are to be disconnected than the current height allows.
    DepthExceedsHeight,
    /// The undo records do not match the blocks to disconnect.
    MissingUndo,
    /// A block of the new chain could not be connected.
    InvalidBlock {
        /// Index of the block in the new chain.
        index: usize,
    },
    /// The new height does not fit in 32 bits.
    HeightOverflow,
}

/// The errors of the consensus functions.
#[derive(Debug, Clone, Copy, PartialEq, Eq, Structural)]
pub enum ConsensusError {
    /// The byte is no signature-hash type.
    InvalidSighashType(u8),
    /// The input index is not below the number of inputs.
    InvalidInputIndex(usize),
    /// The number of previous outputs given, and the number of inputs.
    InvalidPrevoutsCount(usize, usize),
    /// A script broke a structural bound.
    ScriptExecution(ScriptError),
    /// A target or an amount of work is out of range.
    InvalidProofOfWork(PowError),
    /// A chain broke a rule of reorganization.
    ConsensusRuleViolation(RuleViolation),
}

impl ScriptError {
    /// The text that names the error.
    pub open spec fn reason_spec(&self) -> Seq<char> {
        match self {
            ScriptError::ScriptTooLarge => "Script size limit exceeded"@,
            ScriptError::StackOverflow => "Stack overflow"@,
            ScriptError::OperationLimitExceeded => "Operation limit exceeded"@,
        }
    }

    /// A short text for logs.
    pub fn reason(&self) -> (r: &'static str)
        ensures
            r@ == self.reason_spec(),
    {
        match self {
            ScriptError::ScriptTooLarge => {
                proof { reveal_strlit("Script size limit exceeded"); }
                "Script size limit exceeded"
            },
            ScriptError::StackOverflow => {
                proof { reveal_strlit("Stack overflow"); }
                "Stack overflow"
            },
            ScriptError::OperationLimitExceeded => {
                proof { reveal_strlit("Operation limit exceeded"); }
                "Operation limit exceeded"
            },
        }
    }
}

} // verus!
