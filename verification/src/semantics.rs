//! The reference semantics that every execution strategy is verified
//! against: a small-step machine over the raw instruction stream (with a
//! jump table) and a small-step machine over the translated operation
//! sequence, each iterated under an explicit fuel bound.
use vstd::prelude::*;

use crate::error::ExecError;
use crate::instr::OP_CLOSE;
use crate::instr::OP_DEC;
use crate::instr::OP_IN;
use crate::instr::OP_INC;
use crate::instr::OP_LEFT;
use crate::instr::OP_OPEN;
use crate::instr::OP_OUT;
use crate::instr::OP_RIGHT;
use crate::ops::Op;

verus! {

/// The canonical tape length, shared by every strategy: a fixed array of
/// zero-initialized byte cells.
pub const TAPE_LEN: usize = 30000;

/// A machine configuration: program counter, data pointer, tape contents,
/// input bytes not yet consumed, and output bytes produced so far.
pub struct MachState {
    /// Index of the next instruction or operation to execute.
    pub pc: nat,
    /// The data pointer, an index into the tape.
    pub ptr: nat,
    /// The tape cells.
    pub tape: Seq<u8>,
    /// The input bytes not yet consumed.
    pub input: Seq<u8>,
    /// The output bytes produced so far, in order.
    pub output: Seq<u8>,
}

/// The result of one machine step.
pub enum Step {
    /// The machine continues in this configuration.
    Next(MachState),
    /// The run fails with this error; the configuration it failed in is
    /// recorded by the caller.
    Fail(ExecError),
}

/// The result of running a machine for a bounded number of steps.
pub enum Outcome {
    /// The fuel ran out in this configuration, before the program halted.
    Ongoing(MachState),
    /// The program counter reached the end of the program.
    Done(MachState),
    /// The run failed with this error, in this configuration. Output bytes
    /// produced before the failure are part of the configuration.
    Failed(ExecError, MachState),
}

/// The configuration every run starts from: both counters at zero, a
/// zeroed tape, the whole input ahead, no output.
pub open spec fn init_state(input: Seq<u8>) -> MachState {
    MachState {
        pc: 0,
        ptr: 0,
        tape: Seq::new(TAPE_LEN as nat, |i: int| 0u8),
        input,
        output: Seq::empty(),
    }
}

/// Addition on a cell, wrapping modulo 256.
pub open spec fn wrap_add(v: u8, n: nat) -> u8 {
    (((v + n) % 256) as u8)
}

/// Subtraction on a cell, wrapping modulo 256.
pub open spec fn wrap_sub(v: u8, n: nat) -> u8 {
    (((v - n) % 256) as u8)
}

/// One step of the naive machine on the raw instruction stream `prog` with
/// jump table `jt`, from configuration `st` (whose `pc` addresses an
/// instruction). A branch lands just past the partner bracket recorded in
/// the table. Pointer motion outside the tape and reading exhausted input
/// fail the run.
pub open spec fn byte_step(prog: Seq<u8>, jt: Seq<usize>, st: MachState) -> Step {
    let c = prog[st.pc as int];
    let cell = st.tape[st.ptr as int];
    if c == OP_RIGHT {
        if st.ptr + 1 < TAPE_LEN {
            Step::Next(MachState { pc: st.pc + 1, ptr: st.ptr + 1, ..st })
        } else {
            Step::Fail(ExecError::PointerOutOfRange)
        }
    } else if c == OP_LEFT {
        if st.ptr >= 1 {
            Step::Next(MachState { pc: st.pc + 1, ptr: (st.ptr - 1) as nat, ..st })
        } else {
            Step::Fail(ExecError::PointerOutOfRange)
        }
    } else if c == OP_INC {
        Step::Next(
            MachState { pc: st.pc + 1, tape: st.tape.update(st.ptr as int, wrap_add(cell, 1)), ..st },
        )
    } else if c == OP_DEC {
        Step::Next(
            MachState { pc: st.pc + 1, tape: st.tape.update(st.ptr as int, wrap_sub(cell, 1)), ..st },
        )
    } else if c == OP_IN {
        if st.input.len() == 0 {
            Step::Fail(ExecError::InputUnavailable)
        } else {
            Step::Next(
                MachState {
                    pc: st.pc + 1,
                    tape: st.tape.update(st.ptr as int, st.input[0]),
                    input: st.input.skip(1),
                    ..st
                },
            )
        }
    } else if c == OP_OUT {
        Step::Next(MachState { pc: st.pc + 1, output: st.output.push(cell), ..st })
    } else if c == OP_OPEN {
        if cell == 0 {
            Step::Next(MachState { pc: (jt[st.pc as int] + 1) as nat, ..st })
        } else {
            Step::Next(MachState { pc: st.pc + 1, ..st })
        }
    } else if c == OP_CLOSE {
        if cell != 0 {
            Step::Next(MachState { pc: (jt[st.pc as int] + 1) as nat, ..st })
        } else {
            Step::Next(MachState { pc: st.pc + 1, ..st })
        }
    } else {
        Step::Fail(ExecError::MalformedProgram)
    }
}

/// Whether the naive machine has halted in `st`, as an outcome.
pub open spec fn byte_frame(prog: Seq<u8>, st: MachState) -> Outcome {
    if st.pc >= prog.len() {
        Outcome::Done(st)
    } else {
        Outcome::Ongoing(st)
    }
}

/// Runs the naive machine for at most `fuel` steps from `st`.
pub open spec fn byte_run(prog: Seq<u8>, jt: Seq<usize>, st: MachState, fuel: nat) -> Outcome
    decreases fuel,
{
    if st.pc >= prog.len() {
        Outcome::Done(st)
    } else if fuel == 0 {
        Outcome::Ongoing(st)
    } else {
        match byte_step(prog, jt, st) {
            Step::Next(st2) => byte_run(prog, jt, st2, (fuel - 1) as nat),
            Step::Fail(e) => Outcome::Failed(e, st),
        }
    }
}

/// Running one more step from a still-ongoing run takes exactly one more
/// machine step.
pub proof fn lemma_byte_run_extend(prog: Seq<u8>, jt: Seq<usize>, st: MachState, fuel: nat)
    ensures
        byte_run(prog, jt, st, fuel) matches Outcome::Ongoing(m) ==> byte_run(
            prog,
            jt,
            st,
            fuel + 1,
        ) == (match byte_step(prog, jt, m) {
            Step::Next(m2) => byte_frame(prog, m2),
            Step::Fail(e) => Outcome::Failed(e, m),
        }),
    decreases fuel,
{
    if st.pc < prog.len() {
        if fuel == 0 {
            match byte_step(prog, jt, st) {
                Step::Next(st2) => {
                    assert(byte_run(prog, jt, st, 1) == byte_run(prog, jt, st2, 0));
                    assert(byte_run(prog, jt, st2, 0) == byte_frame(prog, st2));
                },
                Step::Fail(e) => {
                    assert(byte_run(prog, jt, st, 1) == Outcome::Failed(e, st));
                },
            }
        } else {
            match byte_step(prog, jt, st) {
                Step::Next(st2) => {
                    lemma_byte_run_extend(prog, jt, st2, (fuel - 1) as nat);
                    assert(byte_run(prog, jt, st, fuel) == byte_run(
                        prog,
                        jt,
                        st2,
                        (fuel - 1) as nat,
                    ));
                    assert(byte_run(prog, jt, st, fuel + 1) == byte_run(prog, jt, st2, fuel));
                    assert((fuel - 1) as nat + 1 == fuel);
                },
                Step::Fail(_) => {},
            }
        }
    }
}

/// A finished run (halted or failed) stays exactly as it is under more fuel.
pub proof fn lemma_byte_run_mono(prog: Seq<u8>, jt: Seq<usize>, st: MachState, f1: nat, f2: nat)
    requires
        f1 <= f2,
        !(byte_run(prog, jt, st, f1) matches Outcome::Ongoing(_)),
    ensures
        byte_run(prog, jt, st, f2) == byte_run(prog, jt, st, f1),
    decreases f1,
{
    if st.pc < prog.len() && f1 > 0 {
        match byte_step(prog, jt, st) {
            Step::Next(st2) => {
                lemma_byte_run_mono(prog, jt, st2, (f1 - 1) as nat, (f2 - 1) as nat);
            },
            Step::Fail(_) => {},
        }
    }
}

/// Two fuel bounds that both suffice for the naive machine to finish give
/// the same outcome: the machine is deterministic.
pub proof fn lemma_byte_outcome_unique(
    prog: Seq<u8>,
    jt: Seq<usize>,
    st: MachState,
    f1: nat,
    f2: nat,
)
    requires
        !(byte_run(prog, jt, st, f1) matches Outcome::Ongoing(_)),
        !(byte_run(prog, jt, st, f2) matches Outcome::Ongoing(_)),
    ensures
        byte_run(prog, jt, st, f1) == byte_run(prog, jt, st, f2),
{
    if f1 <= f2 {
        lemma_byte_run_mono(prog, jt, st, f1, f2);
    } else {
        lemma_byte_run_mono(prog, jt, st, f2, f1);
    }
}

/// One step of the operation machine on the sequence `ops`, from
/// configuration `st` (whose `pc` addresses an operation). A branch target
/// `t` continues at `t + 1`. A fused scan ([`Op::LoopMovePtr`]) takes one
/// step per pointer move, leaving `pc` in place until the current cell is
/// zero. Pointer motion outside the tape and reading exhausted input fail
/// the run.
pub open spec fn op_step(ops: Seq<Op>, st: MachState) -> Step {
    let cell = st.tape[st.ptr as int];
    match ops[st.pc as int] {
        Op::IncPtr(n) => if st.ptr + n < TAPE_LEN {
            Step::Next(MachState { pc: st.pc + 1, ptr: (st.ptr + n) as nat, ..st })
        } else {
            Step::Fail(ExecError::PointerOutOfRange)
        },
        Op::DecPtr(n) => if n <= st.ptr {
            Step::Next(MachState { pc: st.pc + 1, ptr: (st.ptr - n) as nat, ..st })
        } else {
            Step::Fail(ExecError::PointerOutOfRange)
        },
        Op::IncData(n) => Step::Next(
            MachState {
                pc: st.pc + 1,
                tape: st.tape.update(st.ptr as int, wrap_add(cell, n as nat)),
                ..st
            },
        ),
        Op::DecData(n) => Step::Next(
            MachState {
                pc: st.pc + 1,
                tape: st.tape.update(st.ptr as int, wrap_sub(cell, n as nat)),
                ..st
            },
        ),
        Op::ReadStdin(n) => if n == 0 {
            Step::Next(MachState { pc: st.pc + 1, ..st })
        } else if n <= st.input.len() {
            Step::Next(
                MachState {
                    pc: st.pc + 1,
                    tape: st.tape.update(st.ptr as int, st.input[n - 1]),
                    input: st.input.skip(n as int),
                    ..st
                },
            )
        } else {
            Step::Fail(ExecError::InputUnavailable)
        },
        Op::WriteStdout(n) => Step::Next(
            MachState { pc: st.pc + 1, output: st.output + Seq::new(n as nat, |i: int| cell), ..st },
        ),
        Op::JumpIfDataIsZero(t) => if cell == 0 {
            Step::Next(MachState { pc: jump_dest(ops, t), ..st })
        } else {
            Step::Next(MachState { pc: st.pc + 1, ..st })
        },
        Op::JumpIfDataIsNotZero(t) => if cell != 0 {
            Step::Next(MachState { pc: jump_dest(ops, t), ..st })
        } else {
            Step::Next(MachState { pc: st.pc + 1, ..st })
        },
        Op::LoopSetToZero => Step::Next(
            MachState { pc: st.pc + 1, tape: st.tape.update(st.ptr as int, 0u8), ..st },
        ),
        Op::LoopMovePtr(m) => if cell == 0 {
            Step::Next(MachState { pc: st.pc + 1, ..st })
        } else if 0 <= st.ptr + m < TAPE_LEN {
            Step::Next(MachState { ptr: (st.ptr + m) as nat, ..st })
        } else {
            Step::Fail(ExecError::PointerOutOfRange)
        },
        Op::LoopMoveData(m) => if cell == 0 {
            Step::Next(MachState { pc: st.pc + 1, ..st })
        } else if 0 <= st.ptr + m < TAPE_LEN {
            Step::Next(
                MachState {
                    pc: st.pc + 1,
                    tape: st.tape.update(
                        st.ptr + m,
                        wrap_add(st.tape[st.ptr + m], cell as nat),
                    ).update(st.ptr as int, 0u8),
                    ..st
                },
            )
        } else {
            Step::Fail(ExecError::PointerOutOfRange)
        },
    }
}

/// Where a branch with target `t` continues: just past `t`, clamped to the
/// end of the sequence.
pub open spec fn jump_dest(ops: Seq<Op>, t: usize) -> nat {
    if t + 1 > ops.len() {
        ops.len()
    } else {
        (t + 1) as nat
    }
}

/// Whether the operation machine has halted in `st`, as an outcome.
pub open spec fn op_frame(ops: Seq<Op>, st: MachState) -> Outcome {
    if st.pc >= ops.len() {
        Outcome::Done(st)
    } else {
        Outcome::Ongoing(st)
    }
}

/// Runs the operation machine for at most `fuel` steps from `st`.
pub open spec fn op_run(ops: Seq<Op>, st: MachState, fuel: nat) -> Outcome
    decreases fuel,
{
    if st.pc >= ops.len() {
        Outcome::Done(st)
    } else if fuel == 0 {
        Outcome::Ongoing(st)
    } else {
        match op_step(ops, st) {
            Step::Next(st2) => op_run(ops, st2, (fuel - 1) as nat),
            Step::Fail(e) => Outcome::Failed(e, st),
        }
    }
}

/// Running one more step from a still-ongoing run takes exactly one more
/// machine step.
pub proof fn lemma_op_run_extend(ops: Seq<Op>, st: MachState, fuel: nat)
    ensures
        op_run(ops, st, fuel) matches Outcome::Ongoing(m) ==> op_run(ops, st, fuel + 1) == (
        match op_step(ops, m) {
            Step::Next(m2) => op_frame(ops, m2),
            Step::Fail(e) => Outcome::Failed(e, m),
        }),
    decreases fuel,
{
    if st.pc < ops.len() {
        if fuel == 0 {
            match op_step(ops, st) {
                Step::Next(st2) => {
                    assert(op_run(ops, st, 1) == op_run(ops, st2, 0));
                    assert(op_run(ops, st2, 0) == op_frame(ops, st2));
                },
                Step::Fail(e) => {
                    assert(op_run(ops, st, 1) == Outcome::Failed(e, st));
                },
            }
        } else {
            match op_step(ops, st) {
                Step::Next(st2) => {
                    lemma_op_run_extend(ops, st2, (fuel - 1) as nat);
                    assert(op_run(ops, st, fuel) == op_run(ops, st2, (fuel - 1) as nat));
                    assert(op_run(ops, st, fuel + 1) == op_run(ops, st2, fuel));
                    assert((fuel - 1) as nat + 1 == fuel);
                },
                Step::Fail(_) => {},
            }
        }
    }
}

/// A finished run (halted or failed) stays exactly as it is under more fuel.
pub proof fn lemma_op_run_mono(ops: Seq<Op>, st: MachState, f1: nat, f2: nat)
    requires
        f1 <= f2,
        !(op_run(ops, st, f1) matches Outcome::Ongoing(_)),
    ensures
        op_run(ops, st, f2) == op_run(ops, st, f1),
    decreases f1,
{
    if st.pc < ops.len() && f1 > 0 {
        match op_step(ops, st) {
            Step::Next(st2) => {
                lemma_op_run_mono(ops, st2, (f1 - 1) as nat, (f2 - 1) as nat);
            },
            Step::Fail(_) => {},
        }
    }
}

/// Two fuel bounds that both suffice for the operation machine to finish
/// give the same outcome: the machine is deterministic.
pub proof fn lemma_op_outcome_unique(ops: Seq<Op>, st: MachState, f1: nat, f2: nat)
    requires
        !(op_run(ops, st, f1) matches Outcome::Ongoing(_)),
        !(op_run(ops, st, f2) matches Outcome::Ongoing(_)),
    ensures
        op_run(ops, st, f1) == op_run(ops, st, f2),
{
    if f1 <= f2 {
        lemma_op_run_mono(ops, st, f1, f2);
    } else {
        lemma_op_run_mono(ops, st, f2, f1);
    }
}

/// What a run function returns and appends for a given machine outcome:
/// success exactly when the program halted within the step budget, the
/// run's error otherwise, and in every case the output produced so far
/// appended to the bytes already in the caller's buffer.
pub open spec fn outcome_post(
    outcome: Outcome,
    old_out: Seq<u8>,
    new_out: Seq<u8>,
    r: Result<(), ExecError>,
) -> bool {
    match outcome {
        Outcome::Done(m) => r == Ok::<(), ExecError>(()) && new_out == old_out + m.output,
        Outcome::Failed(e, m) => r == Err::<(), ExecError>(e) && new_out == old_out + m.output,
        Outcome::Ongoing(m) => r == Err::<(), ExecError>(ExecError::StepLimit) && new_out == old_out
            + m.output,
    }
}

} // verus!
