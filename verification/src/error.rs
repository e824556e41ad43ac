//! The failure taxonomy shared by every execution strategy.
use vstd::prelude::*;

verus! {

/// Why a run (or the construction that precedes it) stopped.
///
/// Every failure is fatal to the run it occurs in and is surfaced to the
/// caller; none is retried. Output bytes appended before the failure remain
/// visible to the caller.
#[derive(Clone, Copy, Debug, PartialEq, Eq, Structural)]
pub enum ExecError {
    /// Unbalanced or incorrectly nested brackets, detected while building
    /// the jump table, translating to operations, or emitting native code —
    /// always before any instruction executes.
    MalformedProgram,
    /// A read instruction executed with no input byte left.
    InputUnavailable,
    /// The data pointer would move below the first tape cell or past the
    /// last one. The tape has a fixed size and pointer motion outside it is
    /// a reported fault, not silent wraparound.
    PointerOutOfRange,
    /// A relative jump displacement in emitted native code does not fit the
    /// signed 32-bit encoding.
    CodeGenLimit,
    /// The run's explicit step budget was exhausted before the program
    /// halted.
    StepLimit,
}

} // verus!
