//! A tape-based virtual machine for a small emoji instruction set: eight
//! opcodes over a fixed tape of 256 byte cells, with bracket-style loops.
//!
//! The decoder ([`instractions`]) turns a source text into an instruction
//! sequence, dropping unrecognized symbols. The engine ([`interpreter`]) runs
//! that sequence against the tape and an input queue, producing an output
//! sequence. The semantics the engine is verified against is stated once, as
//! a small-step machine over mathematical values, in [`machine`].

pub mod instractions;
pub mod interpreter;
pub mod machine;

use vstd::prelude::*;

verus! {

/// The ways a run can fail. Every error is terminal: the engine performs no
/// retry and no recovery, and the first failing step aborts the run.
#[derive(Clone, Copy, PartialEq, Eq, Structural, Debug)]
pub enum EvalError {
    /// The memory pointer would move past the last cell of the tape.
    MemoryOverflow,
    /// The memory pointer would move below the first cell of the tape.
    MemoryUnderflow,
    /// A cell value would leave the byte range (above 255 or below 0).
    MemoryOutOfRange,
    /// An input instruction executed with nothing left in the input queue.
    InputExhausted,
    /// A loop begin has no matching end before the sequence ends, a loop end
    /// executed with no open loop, or loops were still open at termination.
    UnbalancedBracket,
}

} // verus!
