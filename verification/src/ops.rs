//! Translation of a filtered instruction stream into a run-length-encoded
//! operation sequence, and the peephole loop optimizer.
//!
//! The translator makes a single left-to-right pass. Runs of identical
//! non-bracket instructions collapse into one operation carrying the run
//! length. An opening bracket emits a branch placeholder and records its
//! position on a stack; the matching closing bracket back-patches the
//! placeholder and emits the backward branch — unless the loop optimizer
//! recognizes the loop body and replaces the whole loop by one fused
//! operation.
use vstd::prelude::*;

use crate::error::ExecError;
use crate::instr::OP_CLOSE;
use crate::instr::OP_DEC;
use crate::instr::OP_IN;
use crate::instr::OP_INC;
use crate::instr::OP_LEFT;
use crate::instr::OP_OPEN;
use crate::instr::OP_OUT;
use crate::instr::OP_RIGHT;

verus! {

/// One unit of the translated intermediate representation: a run-length
/// primitive, a resolved conditional branch, or a fused loop idiom.
///
/// A branch target `t` means "continue at operation `t + 1`": the forward
/// branch of a loop targets its backward branch, the backward branch targets
/// the forward one, so either jump lands on the operation just past its
/// partner.
#[derive(Clone, Copy, Debug, PartialEq, Eq, Structural)]
pub enum Op {
    /// Move the data pointer right by the count.
    IncPtr(usize),
    /// Move the data pointer left by the count.
    DecPtr(usize),
    /// Add the count to the current cell, wrapping modulo 256.
    IncData(usize),
    /// Subtract the count from the current cell, wrapping modulo 256.
    DecData(usize),
    /// Read the count of input bytes, each into the current cell.
    ReadStdin(usize),
    /// Write the current cell the count of times.
    WriteStdout(usize),
    /// Branch to just past the operation at the target if the cell is zero.
    JumpIfDataIsZero(usize),
    /// Branch to just past the operation at the target if the cell is nonzero.
    JumpIfDataIsNotZero(usize),
    /// Fused `[-]`-shaped loop: set the current cell to zero.
    LoopSetToZero,
    /// Fused `[>]`-shaped loop: move the pointer by the step while the
    /// current cell is nonzero.
    LoopMovePtr(isize),
    /// Fused `[->+<]`-shaped loop: add the current cell to the cell at the
    /// offset and zero the current cell, once.
    LoopMoveData(isize),
}

/// The length of the run of bytes equal to `x` starting at `k`.
pub open spec fn run_length(insts: Seq<u8>, x: u8, k: int) -> nat
    decreases insts.len() - k,
{
    if 0 <= k < insts.len() && insts[k] == x {
        1 + run_length(insts, x, k + 1)
    } else {
        0
    }
}

/// A run starting at `k` never reaches past the end of the stream.
pub proof fn lemma_run_length_bound(insts: Seq<u8>, x: u8, k: int)
    requires
        0 <= k <= insts.len(),
    ensures
        run_length(insts, x, k) <= insts.len() - k,
    decreases insts.len() - k,
{
    if k < insts.len() && insts[k] == x {
        lemma_run_length_bound(insts, x, k + 1);
    }
}

/// What the loop optimizer returns for the loop whose body is
/// `ops[loop_start + 1 ..]` (the placeholder branch sits at `loop_start`).
///
/// Exactly two shapes are recognized; everything else is left to the
/// generic branch pair:
/// - a body of one data increment or decrement (any amount) becomes
///   [`Op::LoopSetToZero`];
/// - a body of one pointer move becomes [`Op::LoopMovePtr`];
/// - the four-operation cell-transfer idiom (decrement by one, move,
///   increment by one, move back, in either direction) becomes
///   [`Op::LoopMoveData`].
pub open spec fn optimize_spec(ops: Seq<Op>, loop_start: int) -> Option<Op> {
    if ops.len() == loop_start + 2 {
        match ops[loop_start + 1] {
            Op::IncData(_) => Some(Op::LoopSetToZero),
            Op::DecData(_) => Some(Op::LoopSetToZero),
            Op::IncPtr(n) => if n <= isize::MAX as usize {
                Some(Op::LoopMovePtr(n as isize))
            } else {
                None
            },
            Op::DecPtr(n) => if n <= isize::MAX as usize {
                Some(Op::LoopMovePtr((-(n as isize)) as isize))
            } else {
                None
            },
            _ => None,
        }
    } else if ops.len() == loop_start + 5 {
        match (ops[loop_start + 1], ops[loop_start + 3]) {
            (Op::DecData(1), Op::IncData(1)) => match (ops[loop_start + 2], ops[loop_start + 4]) {
                (Op::IncPtr(m), Op::DecPtr(n)) => if m == n && m <= isize::MAX as usize {
                    Some(Op::LoopMoveData(m as isize))
                } else {
                    None
                },
                (Op::DecPtr(m), Op::IncPtr(n)) => if m == n && m <= isize::MAX as usize {
                    Some(Op::LoopMoveData((-(m as isize)) as isize))
                } else {
                    None
                },
                _ => None,
            },
            _ => None,
        }
    } else {
        None
    }
}

/// The peephole loop optimizer, invoked at each closing bracket before the
/// generic branch pair is emitted. Returns the fused replacement for the
/// whole loop, or `None` when the body matches no recognized shape.
pub fn optimize_loop(ops: &Vec<Op>, loop_start: usize) -> (r: Option<Op>)
    ensures
        r == optimize_spec(ops@, loop_start as int),
{
    if ops.len() >= 2 && loop_start == ops.len() - 2 {
        match ops[loop_start + 1] {
            Op::IncData(_) => Some(Op::LoopSetToZero),
            Op::DecData(_) => Some(Op::LoopSetToZero),
            Op::IncPtr(n) => if n <= isize::MAX as usize {
                Some(Op::LoopMovePtr(n as isize))
            } else {
                None
            },
            Op::DecPtr(n) => if n <= isize::MAX as usize {
                Some(Op::LoopMovePtr(-(n as isize)))
            } else {
                None
            },
            _ => None,
        }
    } else if ops.len() >= 5 && loop_start == ops.len() - 5 {
        match (ops[loop_start + 1], ops[loop_start + 3]) {
            (Op::DecData(1), Op::IncData(1)) => match (ops[loop_start + 2], ops[loop_start + 4]) {
                (Op::IncPtr(m), Op::DecPtr(n)) => if m == n && m <= isize::MAX as usize {
                    Some(Op::LoopMoveData(m as isize))
                } else {
                    None
                },
                (Op::DecPtr(m), Op::IncPtr(n)) => if m == n && m <= isize::MAX as usize {
                    Some(Op::LoopMoveData(-(m as isize)))
                } else {
                    None
                },
                _ => None,
            },
            _ => None,
        }
    } else {
        None
    }
}

/// The translator's single pass, from position `pc` with the open-bracket
/// stack `stack` (operation indices of pending placeholders) and the
/// operations `ops` produced so far. `None` means the brackets do not
/// balance.
pub open spec fn translate_rec(
    insts: Seq<u8>,
    pc: int,
    stack: Seq<usize>,
    ops: Seq<Op>,
    opt: bool,
) -> Option<Seq<Op>>
    decreases insts.len() - pc,
    via translate_rec_decreases
{
    if pc < 0 || pc >= insts.len() {
        if stack.len() == 0 {
            Some(ops)
        } else {
            None
        }
    } else if insts[pc] == OP_OPEN {
        translate_rec(insts, pc + 1, stack.push(ops.len() as usize), ops.push(Op::JumpIfDataIsZero(0)), opt)
    } else if insts[pc] == OP_CLOSE {
        if stack.len() == 0 {
            None
        } else {
            let off = stack.last();
            let fused = if opt {
                optimize_spec(ops, off as int)
            } else {
                None
            };
            match fused {
                Some(op) => translate_rec(
                    insts,
                    pc + 1,
                    stack.drop_last(),
                    ops.take(off as int).push(op),
                    opt,
                ),
                None => translate_rec(
                    insts,
                    pc + 1,
                    stack.drop_last(),
                    ops.update(off as int, Op::JumpIfDataIsZero(ops.len() as usize)).push(
                        Op::JumpIfDataIsNotZero(off),
                    ),
                    opt,
                ),
            }
        }
    } else {
        let len = 1 + run_length(insts, insts[pc], pc + 1);
        let c = insts[pc];
        let ops2 = if c == OP_RIGHT {
            ops.push(Op::IncPtr(len as usize))
        } else if c == OP_LEFT {
            ops.push(Op::DecPtr(len as usize))
        } else if c == OP_INC {
            ops.push(Op::IncData(len as usize))
        } else if c == OP_DEC {
            ops.push(Op::DecData(len as usize))
        } else if c == OP_IN {
            ops.push(Op::ReadStdin(len as usize))
        } else if c == OP_OUT {
            ops.push(Op::WriteStdout(len as usize))
        } else {
            ops
        };
        translate_rec(insts, pc + len, stack, ops2, opt)
    }
}

#[via_fn]
proof fn translate_rec_decreases(insts: Seq<u8>, pc: int, stack: Seq<usize>, ops: Seq<Op>, opt: bool) {
    if 0 <= pc && pc < insts.len() {
        lemma_run_length_bound(insts, insts[pc], pc + 1);
    }
}

/// The operation sequence for a filtered instruction stream, or `None` when
/// its brackets do not balance.
pub open spec fn translate_spec(insts: Seq<u8>, opt: bool) -> Option<Seq<Op>> {
    translate_rec(insts, 0, Seq::empty(), Seq::empty(), opt)
}

/// A maximal run of equal bytes has exactly the length that `run_length`
/// gives it.
proof fn lemma_run_length_exact(insts: Seq<u8>, x: u8, start: int, end: int)
    requires
        0 <= start <= end <= insts.len(),
        forall|j: int| start <= j < end ==> insts[j] == x,
        end == insts.len() || insts[end] != x,
    ensures
        run_length(insts, x, start) == end - start,
    decreases end - start,
{
    if start < end {
        lemma_run_length_exact(insts, x, start + 1, end);
    }
}

/// Converts a filtered instruction stream into its operation sequence:
/// consecutive identical non-bracket instructions coalesce into one
/// run-length operation, brackets become a resolved branch pair, and — with
/// `do_optimize_loop` — a recognized loop body is replaced by its fused
/// operation. Fails exactly when the brackets do not balance, before any
/// execution.
pub fn translate_program(instructions: &[u8], do_optimize_loop: bool) -> (r: Result<
    Vec<Op>,
    ExecError,
>)
    ensures
        match r {
            Ok(ops) => translate_spec(instructions@, do_optimize_loop) == Some(ops@),
            Err(e) => {
                &&& e == ExecError::MalformedProgram
                &&& translate_spec(instructions@, do_optimize_loop) is None
            },
        },
{
    let mut ops: Vec<Op> = Vec::new();
    let mut open_bracket_stack: Vec<usize> = Vec::new();
    let mut pc: usize = 0;
    let instructions_size = instructions.len();
    while pc < instructions_size
        invariant
            instructions_size == instructions@.len(),
            pc <= instructions_size,
            translate_rec(instructions@, pc as int, open_bracket_stack@, ops@, do_optimize_loop)
                == translate_spec(instructions@, do_optimize_loop),
            forall|k: int|
                0 <= k < open_bracket_stack@.len() ==> (#[trigger] open_bracket_stack@[k]) < ops@.len(),
            forall|k1: int, k2: int|
                0 <= k1 < k2 < open_bracket_stack@.len() ==> open_bracket_stack@[k1]
                    < open_bracket_stack@[k2],
        decreases instructions_size - pc,
    {
        let ghost pc0 = pc as int;
        let ghost stack0 = open_bracket_stack@;
        let ghost ops0 = ops@;
        let c = instructions[pc];
        if c == OP_OPEN {
            open_bracket_stack.push(ops.len());
            ops.push(Op::JumpIfDataIsZero(0));
            pc = pc + 1;
            proof {
                assert(translate_rec(instructions@, pc0, stack0, ops0, do_optimize_loop)
                    == translate_rec(
                    instructions@,
                    pc as int,
                    open_bracket_stack@,
                    ops@,
                    do_optimize_loop,
                ));
            }
        } else if c == OP_CLOSE {
            let popped = open_bracket_stack.pop();
            match popped {
                None => {
                    proof {
                        assert(translate_rec(instructions@, pc0, stack0, ops0, do_optimize_loop)
                            is None);
                    }
                    return Err(ExecError::MalformedProgram);
                },
                Some(open_bracket_offset) => {
                    let ops_len = ops.len();
                    let fused = if do_optimize_loop {
                        optimize_loop(&ops, open_bracket_offset)
                    } else {
                        None
                    };
                    match fused {
                        Some(op) => {
                            ops.truncate(open_bracket_offset);
                            ops.push(op);
                            proof {
                                assert(ops@ =~= ops0.take(open_bracket_offset as int).push(op));
                            }
                        },
                        None => {
                            ops[open_bracket_offset] = Op::JumpIfDataIsZero(ops_len);
                            ops.push(Op::JumpIfDataIsNotZero(open_bracket_offset));
                            proof {
                                assert(ops@ =~= ops0.update(
                                    open_bracket_offset as int,
                                    Op::JumpIfDataIsZero(ops_len),
                                ).push(Op::JumpIfDataIsNotZero(open_bracket_offset)));
                            }
                        },
                    }
                    pc = pc + 1;
                    proof {
                        assert(stack0.last() == open_bracket_offset);
                        assert(open_bracket_stack@ =~= stack0.drop_last());
                        assert(translate_rec(instructions@, pc0, stack0, ops0, do_optimize_loop)
                            == translate_rec(
                            instructions@,
                            pc as int,
                            open_bracket_stack@,
                            ops@,
                            do_optimize_loop,
                        ));
                    }
                },
            }
        } else {
            let start = pc;
            pc = pc + 1;
            while pc < instructions_size && instructions[pc] == c
                invariant
                    instructions_size == instructions@.len(),
                    start < pc <= instructions_size,
                    instructions@[start as int] == c,
                    forall|j: int| start <= j < pc ==> instructions@[j] == c,
                decreases instructions_size - pc,
            {
                pc = pc + 1;
            }
            let repeats = pc - start;
            proof {
                lemma_run_length_exact(instructions@, c, start + 1, pc as int);
                assert(1 + run_length(instructions@, c, start + 1) == repeats);
            }
            if c == OP_RIGHT {
                ops.push(Op::IncPtr(repeats));
            } else if c == OP_LEFT {
                ops.push(Op::DecPtr(repeats));
            } else if c == OP_INC {
                ops.push(Op::IncData(repeats));
            } else if c == OP_DEC {
                ops.push(Op::DecData(repeats));
            } else if c == OP_IN {
                ops.push(Op::ReadStdin(repeats));
            } else if c == OP_OUT {
                ops.push(Op::WriteStdout(repeats));
            }
            proof {
                assert(translate_rec(instructions@, pc0, stack0, ops0, do_optimize_loop)
                    == translate_rec(
                    instructions@,
                    pc as int,
                    open_bracket_stack@,
                    ops@,
                    do_optimize_loop,
                ));
            }
        }
    }
    if open_bracket_stack.len() == 0 {
        Ok(ops)
    } else {
        Err(ExecError::MalformedProgram)
    }
}

} // verus!
