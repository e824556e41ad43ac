//! A verified execution pipeline for a minimal eight-instruction tape
//! language: source filtering, bracket matching, translation to a
//! run-length-encoded operation sequence, a peephole loop optimizer, three
//! interpreters over a fixed-size byte tape, and an x86-64 native-code
//! emitter.
//!
//! All engines consume their input as a byte slice and append their output
//! to a byte vector; the surrounding program does the actual stream I/O and
//! the mapping and invocation of emitted machine code.
//!
//! Every engine takes an explicit upper bound on the number of executed
//! machine steps, so that each run provably terminates; exceeding the bound
//! is reported as a typed error. Moving the data pointer below the tape or
//! past its end is likewise reported as a typed error rather than left
//! undefined.
use vstd::prelude::*;

pub mod emitter;
pub mod error;
pub mod instr;
pub mod interp;
pub mod jumptable;
pub mod ops;
pub mod props;
pub mod semantics;

verus! {

/// Runs a source program under the naive interpreter: the crate's simplest
/// entry point. Only the eight reserved bytes of `s` are significant;
/// `input` supplies the bytes read instructions consume, every output byte
/// is appended to `output` in order, and the run executes at most
/// `max_steps` machine steps.
pub fn run(s: &[u8], input: &[u8], output: &mut Vec<u8>, max_steps: u64) -> (r: Result<
    (),
    error::ExecError,
>)
    ensures
        interp::naive_post(s@, input@, old(output)@, final(output)@, max_steps, r),
{
    interp::run_default(s, input, output, max_steps)
}

} // verus!
