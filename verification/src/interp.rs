//! The three verified execution engines and the strategy dispatch.
//!
//! Each engine consumes its input from a byte slice and appends its output
//! to a byte vector, under an explicit step budget; its contract states the
//! exact outcome of the matching reference machine of [`crate::semantics`].
use vstd::prelude::*;

use crate::error::ExecError;
use crate::instr::all_instructions;
use crate::instr::filter_instructions;
use crate::instr::filter_spec;
use crate::instr::lemma_filter_all_instructions;
use crate::instr::OP_CLOSE;
use crate::instr::OP_DEC;
use crate::instr::OP_IN;
use crate::instr::OP_INC;
use crate::instr::OP_LEFT;
use crate::instr::OP_OPEN;
use crate::instr::OP_OUT;
use crate::instr::OP_RIGHT;
use crate::jumptable::balanced;
use crate::jumptable::create_jumptable;
use crate::jumptable::jt_matched;
use crate::jumptable::jumptable_spec;
use crate::jumptable::lemma_jumptable_matched;
use crate::ops::translate_program;
use crate::ops::translate_spec;
use crate::ops::Op;
use crate::semantics::byte_frame;
use crate::semantics::byte_run;
use crate::semantics::byte_step;
use crate::semantics::init_state;
use crate::semantics::lemma_byte_run_extend;
use crate::semantics::lemma_byte_run_mono;
use crate::semantics::lemma_op_run_extend;
use crate::semantics::lemma_op_run_mono;
use crate::semantics::op_frame;
use crate::semantics::op_run;
use crate::semantics::op_step;
use crate::semantics::outcome_post;
use crate::semantics::wrap_add;
use crate::semantics::wrap_sub;
use crate::semantics::MachState;
use crate::semantics::Outcome;
use crate::semantics::Step;
use crate::semantics::TAPE_LEN;

verus! {

/// Addition on a cell, wrapping modulo 256.
fn cell_add(v: u8, n: usize) -> (r: u8)
    ensures
        r == wrap_add(v, n as nat),
{
    let r: usize = (v as usize + n % 256) % 256;
    proof {
        vstd::arithmetic::div_mod::lemma_small_mod(v as nat, 256);
        vstd::arithmetic::div_mod::lemma_add_mod_noop(v as int, n as int, 256);
    }
    r as u8
}

/// Subtraction on a cell, wrapping modulo 256.
fn cell_sub(v: u8, n: usize) -> (r: u8)
    ensures
        r == wrap_sub(v, n as nat),
{
    let r: usize = (v as usize + 256 - n % 256) % 256;
    proof {
        vstd::arithmetic::div_mod::lemma_small_mod(v as nat, 256);
        vstd::arithmetic::div_mod::lemma_sub_mod_noop(v as int, n as int, 256);
        vstd::arithmetic::div_mod::lemma_mod_add_multiples_vanish(v - n % 256, 256);
    }
    r as u8
}

/// A fresh zeroed tape, as every run starts with.
fn zero_tape() -> (t: Vec<u8>)
    ensures
        t@ == init_state(Seq::<u8>::empty()).tape,
        t@.len() == TAPE_LEN,
{
    let mut t: Vec<u8> = Vec::new();
    while t.len() < TAPE_LEN
        invariant
            t@.len() <= TAPE_LEN,
            forall|i: int| 0 <= i < t@.len() ==> t@[i] == 0u8,
        decreases TAPE_LEN - t@.len(),
    {
        t.push(0);
    }
    proof {
        assert(t@ =~= Seq::new(TAPE_LEN as nat, |i: int| 0u8));
    }
    t
}

/// The naive engine: walks the raw instruction stream one instruction at a
/// time, consulting the jump table at brackets. Returns and appends exactly
/// what the naive reference machine gives for `max_steps` fuel.
fn run_bytes(
    prog: &Vec<u8>,
    jt: &Vec<usize>,
    input: &[u8],
    output: &mut Vec<u8>,
    max_steps: u64,
) -> (r: Result<(), ExecError>)
    requires
        all_instructions(prog@),
        jt_matched(prog@, jt@),
    ensures
        outcome_post(
            byte_run(prog@, jt@, init_state(input@), max_steps as nat),
            old(output)@,
            final(output)@,
            r,
        ),
{
    let ghost init = init_state(input@);
    let ghost base = output@;
    let mut tape: Vec<u8> = zero_tape();
    let mut pc: usize = 0;
    let mut ptr: usize = 0;
    let mut idx: usize = 0;
    let mut steps: u64 = 0;
    proof {
        assert(init.tape =~= tape@);
        assert(input@.skip(0) =~= input@);
        assert(output@.take(base.len() as int) =~= base);
        assert(output@.skip(base.len() as int) =~= Seq::<u8>::empty());
        assert(byte_run(prog@, jt@, init, 0) == byte_frame(
            prog@,
            MachState {
                pc: 0,
                ptr: 0,
                tape: tape@,
                input: input@.skip(0),
                output: output@.skip(base.len() as int),
            },
        ));
    }
    while pc < prog.len() && steps < max_steps
        invariant
            init == init_state(input@),
            base == old(output)@,
            all_instructions(prog@),
            jt_matched(prog@, jt@),
            tape@.len() == TAPE_LEN,
            ptr < TAPE_LEN,
            idx <= input@.len(),
            pc <= prog@.len(),
            steps <= max_steps,
            base.len() <= output@.len(),
            output@.take(base.len() as int) == base,
            byte_run(prog@, jt@, init, steps as nat) == byte_frame(
                prog@,
                MachState {
                    pc: pc as nat,
                    ptr: ptr as nat,
                    tape: tape@,
                    input: input@.skip(idx as int),
                    output: output@.skip(base.len() as int),
                },
            ),
        decreases max_steps - steps,
    {
        let ghost pre = MachState {
            pc: pc as nat,
            ptr: ptr as nat,
            tape: tape@,
            input: input@.skip(idx as int),
            output: output@.skip(base.len() as int),
        };
        proof {
            assert(byte_run(prog@, jt@, init, steps as nat) == Outcome::Ongoing(pre));
            lemma_byte_run_extend(prog@, jt@, init, steps as nat);
        }
        let c = prog[pc];
        if c == OP_RIGHT {
            if ptr + 1 < TAPE_LEN {
                ptr = ptr + 1;
                pc = pc + 1;
            } else {
                proof {
                    lemma_byte_run_mono(prog@, jt@, init, (steps + 1) as nat, max_steps as nat);
                    assert(output@ =~= base + pre.output);
                }
                return Err(ExecError::PointerOutOfRange);
            }
        } else if c == OP_LEFT {
            if ptr >= 1 {
                ptr = ptr - 1;
                pc = pc + 1;
            } else {
                proof {
                    lemma_byte_run_mono(prog@, jt@, init, (steps + 1) as nat, max_steps as nat);
                    assert(output@ =~= base + pre.output);
                }
                return Err(ExecError::PointerOutOfRange);
            }
        } else if c == OP_INC {
            tape[ptr] = cell_add(tape[ptr], 1);
            pc = pc + 1;
        } else if c == OP_DEC {
            tape[ptr] = cell_sub(tape[ptr], 1);
            pc = pc + 1;
        } else if c == OP_IN {
            if idx < input.len() {
                tape[ptr] = input[idx];
                idx = idx + 1;
                pc = pc + 1;
                proof {
                    assert(pre.input[0] == input@[idx - 1]);
                    assert(input@.skip(idx as int) =~= pre.input.skip(1));
                }
            } else {
                proof {
                    assert(pre.input.len() == 0);
                    lemma_byte_run_mono(prog@, jt@, init, (steps + 1) as nat, max_steps as nat);
                    assert(output@ =~= base + pre.output);
                }
                return Err(ExecError::InputUnavailable);
            }
        } else if c == OP_OUT {
            let b = tape[ptr];
            output.push(b);
            pc = pc + 1;
            proof {
                assert(output@.take(base.len() as int) =~= base);
                assert(output@.skip(base.len() as int) =~= pre.output.push(b));
            }
        } else if c == OP_OPEN {
            if tape[ptr] == 0 {
                pc = jt[pc] + 1;
            } else {
                pc = pc + 1;
            }
        } else {
            if tape[ptr] != 0 {
                pc = jt[pc] + 1;
            } else {
                pc = pc + 1;
            }
        }
        steps = steps + 1;
        proof {
            let post = MachState {
                pc: pc as nat,
                ptr: ptr as nat,
                tape: tape@,
                input: input@.skip(idx as int),
                output: output@.skip(base.len() as int),
            };
            assert(byte_step(prog@, jt@, pre) == Step::Next(post));
            assert(byte_run(prog@, jt@, init, steps as nat) == byte_frame(prog@, post));
        }
    }
    let ghost cur = MachState {
        pc: pc as nat,
        ptr: ptr as nat,
        tape: tape@,
        input: input@.skip(idx as int),
        output: output@.skip(base.len() as int),
    };
    proof {
        assert(output@ =~= base + cur.output);
    }
    if pc >= prog.len() {
        proof {
            assert(byte_run(prog@, jt@, init, steps as nat) == Outcome::Done(cur));
            lemma_byte_run_mono(prog@, jt@, init, steps as nat, max_steps as nat);
        }
        Ok(())
    } else {
        proof {
            assert(steps == max_steps);
            assert(byte_run(prog@, jt@, init, max_steps as nat) == Outcome::Ongoing(cur));
        }
        Err(ExecError::StepLimit)
    }
}

/// The operation engine: walks an operation sequence — with or without
/// fused loop idioms — one reference-machine step per iteration. Returns
/// and appends exactly what the operation reference machine gives for
/// `max_steps` fuel.
pub fn run_ops(ops: &Vec<Op>, input: &[u8], output: &mut Vec<u8>, max_steps: u64) -> (r: Result<
    (),
    ExecError,
>)
    ensures
        outcome_post(
            op_run(ops@, init_state(input@), max_steps as nat),
            old(output)@,
            final(output)@,
            r,
        ),
{
    let ghost init = init_state(input@);
    let ghost base = output@;
    let mut tape: Vec<u8> = zero_tape();
    let mut pc: usize = 0;
    let mut ptr: usize = 0;
    let mut idx: usize = 0;
    let mut steps: u64 = 0;
    proof {
        assert(init.tape =~= tape@);
        assert(input@.skip(0) =~= input@);
        assert(output@.take(base.len() as int) =~= base);
        assert(output@.skip(base.len() as int) =~= Seq::<u8>::empty());
        assert(op_run(ops@, init, 0) == op_frame(
            ops@,
            MachState {
                pc: 0,
                ptr: 0,
                tape: tape@,
                input: input@.skip(0),
                output: output@.skip(base.len() as int),
            },
        ));
    }
    while pc < ops.len() && steps < max_steps
        invariant
            init == init_state(input@),
            base == old(output)@,
            tape@.len() == TAPE_LEN,
            ptr < TAPE_LEN,
            idx <= input@.len(),
            steps <= max_steps,
            base.len() <= output@.len(),
            output@.take(base.len() as int) == base,
            op_run(ops@, init, steps as nat) == op_frame(
                ops@,
                MachState {
                    pc: pc as nat,
                    ptr: ptr as nat,
                    tape: tape@,
                    input: input@.skip(idx as int),
                    output: output@.skip(base.len() as int),
                },
            ),
        decreases max_steps - steps,
    {
        let ghost pre = MachState {
            pc: pc as nat,
            ptr: ptr as nat,
            tape: tape@,
            input: input@.skip(idx as int),
            output: output@.skip(base.len() as int),
        };
        proof {
            assert(op_run(ops@, init, steps as nat) == Outcome::Ongoing(pre));
            lemma_op_run_extend(ops@, init, steps as nat);
        }
        match ops[pc] {
            Op::IncPtr(n) => {
                if n < TAPE_LEN - ptr {
                    ptr = ptr + n;
                    pc = pc + 1;
                } else {
                    proof {
                        lemma_op_run_mono(ops@, init, (steps + 1) as nat, max_steps as nat);
                        assert(output@ =~= base + pre.output);
                    }
                    return Err(ExecError::PointerOutOfRange);
                }
            },
            Op::DecPtr(n) => {
                if n <= ptr {
                    ptr = ptr - n;
                    pc = pc + 1;
                } else {
                    proof {
                        lemma_op_run_mono(ops@, init, (steps + 1) as nat, max_steps as nat);
                        assert(output@ =~= base + pre.output);
                    }
                    return Err(ExecError::PointerOutOfRange);
                }
            },
            Op::IncData(n) => {
                tape[ptr] = cell_add(tape[ptr], n);
                pc = pc + 1;
            },
            Op::DecData(n) => {
                tape[ptr] = cell_sub(tape[ptr], n);
                pc = pc + 1;
            },
            Op::ReadStdin(n) => {
                if n == 0 {
                    pc = pc + 1;
                } else if n <= input.len() - idx {
                    tape[ptr] = input[idx + n - 1];
                    idx = idx + n;
                    pc = pc + 1;
                    proof {
                        assert(pre.input[n - 1] == input@[idx - 1]);
                        assert(input@.skip(idx as int) =~= pre.input.skip(n as int));
                    }
                } else {
                    proof {
                        assert(pre.input.len() < n);
                        lemma_op_run_mono(ops@, init, (steps + 1) as nat, max_steps as nat);
                        assert(output@ =~= base + pre.output);
                    }
                    return Err(ExecError::InputUnavailable);
                }
            },
            Op::WriteStdout(n) => {
                let b = tape[ptr];
                let ghost out0 = output@;
                let mut k: usize = 0;
                while k < n
                    invariant
                        k <= n,
                        output@ == out0 + Seq::new(k as nat, |i: int| b),
                    decreases n - k,
                {
                    output.push(b);
                    k = k + 1;
                    proof {
                        assert(output@ =~= out0 + Seq::new(k as nat, |i: int| b));
                    }
                }
                pc = pc + 1;
                proof {
                    assert(output@.take(base.len() as int) =~= base);
                    assert(output@.skip(base.len() as int) =~= pre.output + Seq::new(
                        n as nat,
                        |i: int| b,
                    ));
                }
            },
            Op::JumpIfDataIsZero(t) => {
                if tape[ptr] == 0 {
                    pc = if t >= ops.len() {
                        ops.len()
                    } else {
                        t + 1
                    };
                } else {
                    pc = pc + 1;
                }
            },
            Op::JumpIfDataIsNotZero(t) => {
                if tape[ptr] != 0 {
                    pc = if t >= ops.len() {
                        ops.len()
                    } else {
                        t + 1
                    };
                } else {
                    pc = pc + 1;
                }
            },
            Op::LoopSetToZero => {
                tape[ptr] = 0;
                pc = pc + 1;
            },
            Op::LoopMovePtr(m) => {
                if tape[ptr] == 0 {
                    pc = pc + 1;
                } else if m >= 0 {
                    let mm = m as usize;
                    if mm < TAPE_LEN - ptr {
                        ptr = ptr + mm;
                    } else {
                        proof {
                            lemma_op_run_mono(ops@, init, (steps + 1) as nat, max_steps as nat);
                            assert(output@ =~= base + pre.output);
                        }
                        return Err(ExecError::PointerOutOfRange);
                    }
                } else {
                    let mm = ((-1 - m) as usize) + 1;
                    proof {
                        assert(ptr + m == ptr - mm);
                    }
                    if mm <= ptr {
                        ptr = ptr - mm;
                    } else {
                        proof {
                            lemma_op_run_mono(ops@, init, (steps + 1) as nat, max_steps as nat);
                            assert(output@ =~= base + pre.output);
                        }
                        return Err(ExecError::PointerOutOfRange);
                    }
                }
            },
            Op::LoopMoveData(m) => {
                if tape[ptr] == 0 {
                    pc = pc + 1;
                } else {
                    let cell = tape[ptr];
                    if m >= 0 {
                        let mm = m as usize;
                        if mm < TAPE_LEN - ptr {
                            let dst = ptr + mm;
                            tape[dst] = cell_add(tape[dst], cell as usize);
                            tape[ptr] = 0;
                            pc = pc + 1;
                        } else {
                            proof {
                                lemma_op_run_mono(ops@, init, (steps + 1) as nat, max_steps as nat);
                                assert(output@ =~= base + pre.output);
                            }
                            return Err(ExecError::PointerOutOfRange);
                        }
                    } else {
                        let mm = ((-1 - m) as usize) + 1;
                        proof {
                            assert(ptr + m == ptr - mm);
                        }
                        if mm <= ptr {
                            let dst = ptr - mm;
                            tape[dst] = cell_add(tape[dst], cell as usize);
                            tape[ptr] = 0;
                            pc = pc + 1;
                        } else {
                            proof {
                                lemma_op_run_mono(ops@, init, (steps + 1) as nat, max_steps as nat);
                                assert(output@ =~= base + pre.output);
                            }
                            return Err(ExecError::PointerOutOfRange);
                        }
                    }
                }
            },
        }
        steps = steps + 1;
        proof {
            let post = MachState {
                pc: pc as nat,
                ptr: ptr as nat,
                tape: tape@,
                input: input@.skip(idx as int),
                output: output@.skip(base.len() as int),
            };
            assert(op_step(ops@, pre) == Step::Next(post));
            assert(op_run(ops@, init, steps as nat) == op_frame(ops@, post));
        }
    }
    let ghost cur = MachState {
        pc: pc as nat,
        ptr: ptr as nat,
        tape: tape@,
        input: input@.skip(idx as int),
        output: output@.skip(base.len() as int),
    };
    proof {
        assert(output@ =~= base + cur.output);
    }
    if pc >= ops.len() {
        proof {
            assert(op_run(ops@, init, steps as nat) == Outcome::Done(cur));
            lemma_op_run_mono(ops@, init, steps as nat, max_steps as nat);
        }
        Ok(())
    } else {
        proof {
            assert(steps == max_steps);
            assert(op_run(ops@, init, max_steps as nat) == Outcome::Ongoing(cur));
        }
        Err(ExecError::StepLimit)
    }
}

/// What running a source program under the naive strategy returns and
/// appends: the malformed-program error on unbalanced brackets (with no
/// output), otherwise exactly the outcome of the naive reference machine on
/// the filtered stream.
pub open spec fn naive_post(
    source: Seq<u8>,
    input: Seq<u8>,
    old_out: Seq<u8>,
    new_out: Seq<u8>,
    max_steps: u64,
    r: Result<(), ExecError>,
) -> bool {
    let prog = filter_spec(source);
    if balanced(prog) {
        outcome_post(
            byte_run(prog, jumptable_spec(prog).unwrap(), init_state(input), max_steps as nat),
            old_out,
            new_out,
            r,
        )
    } else {
        r == Err::<(), ExecError>(ExecError::MalformedProgram) && new_out == old_out
    }
}

/// What running a source program under an operation strategy (optimized or
/// not) returns and appends: the malformed-program error on unbalanced
/// brackets (with no output), otherwise exactly the outcome of the
/// operation reference machine on the translated sequence.
pub open spec fn ops_post(
    source: Seq<u8>,
    opt: bool,
    input: Seq<u8>,
    old_out: Seq<u8>,
    new_out: Seq<u8>,
    max_steps: u64,
    r: Result<(), ExecError>,
) -> bool {
    let prog = filter_spec(source);
    match translate_spec(prog, opt) {
        Some(ops) => outcome_post(
            op_run(ops, init_state(input), max_steps as nat),
            old_out,
            new_out,
            r,
        ),
        None => r == Err::<(), ExecError>(ExecError::MalformedProgram) && new_out == old_out,
    }
}

/// Runs a source program under the default (naive) strategy.
pub fn run_default(s: &[u8], input: &[u8], output: &mut Vec<u8>, max_steps: u64) -> (r: Result<
    (),
    ExecError,
>)
    ensures
        naive_post(s@, input@, old(output)@, final(output)@, max_steps, r),
{
    let instructions = filter_instructions(s);
    match create_jumptable(&instructions) {
        Err(e) => Err(e),
        Ok(jt) => {
            proof {
                lemma_filter_all_instructions(s@);
                assert(instructions@.len() == instructions.len());
                lemma_jumptable_matched(instructions@);
            }
            run_bytes(&instructions, &jt, input, output, max_steps)
        },
    }
}

/// Runs a source program under the selected strategy: `None` or `Some(1)`
/// pick the naive interpreter, `Some(2)` the run-length operation
/// interpreter, `Some(3)` the loop-optimized operation interpreter. Any
/// other selector is excluded by contract. The native strategy is not
/// dispatched here: mapping and invoking emitted machine code is beyond
/// what this crate does itself, so callers wanting it use
/// [`crate::emitter::emit_program`] and own that boundary.
pub fn run(
    s: &[u8],
    input: &[u8],
    output: &mut Vec<u8>,
    optimize: Option<u64>,
    max_steps: u64,
) -> (r: Result<(), ExecError>)
    requires
        match optimize {
            Some(o) => 1 <= o <= 3,
            None => true,
        },
    ensures
        match optimize {
            None => naive_post(s@, input@, old(output)@, final(output)@, max_steps, r),
            Some(o) => {
                &&& o == 1 ==> naive_post(s@, input@, old(output)@, final(output)@, max_steps, r)
                &&& o == 2 ==> ops_post(
                    s@,
                    false,
                    input@,
                    old(output)@,
                    final(output)@,
                    max_steps,
                    r,
                )
                &&& o == 3 ==> ops_post(
                    s@,
                    true,
                    input@,
                    old(output)@,
                    final(output)@,
                    max_steps,
                    r,
                )
            },
        },
{
    match optimize {
        None => run_default(s, input, output, max_steps),
        Some(o) => {
            if o == 1 {
                run_default(s, input, output, max_steps)
            } else {
                let do_optimize_loop = o == 3;
                let instructions = filter_instructions(s);
                match translate_program(instructions.as_slice(), do_optimize_loop) {
                    Err(e) => Err(e),
                    Ok(ops) => run_ops(&ops, input, output, max_steps),
                }
            }
        },
    }
}

/// An execution strategy: built once from raw source text, then run against
/// an input and an output buffer under a step budget. Each implementation
/// states its own construction and run contracts through the two spec
/// functions.
pub trait Brainfuck: Sized {
    /// The invariant that a successfully built strategy maintains.
    spec fn wf(&self) -> bool;

    /// What construction from this source promises.
    spec fn new_ens(source: Seq<u8>, r: Result<Self, ExecError>) -> bool;

    /// What a run promises, relating input, the output buffer before and
    /// after, the step budget and the returned result.
    spec fn run_ens(
        &self,
        input: Seq<u8>,
        old_out: Seq<u8>,
        new_out: Seq<u8>,
        max_steps: u64,
        r: Result<(), ExecError>,
    ) -> bool;

    /// Builds the strategy from raw source text; fails — before any
    /// execution — when the program is malformed.
    fn new(s: &[u8]) -> (r: Result<Self, ExecError>)
        ensures
            Self::new_ens(s@, r),
            r matches Ok(b) ==> b.wf(),
    ;

    /// Runs the compiled form against `input`, appending every output byte
    /// to `output` in order, for at most `max_steps` machine steps.
    fn run(&self, input: &[u8], output: &mut Vec<u8>, max_steps: u64) -> (r: Result<
        (),
        ExecError,
    >)
        requires
            self.wf(),
        ensures
            self.run_ens(input@, old(output)@, final(output)@, max_steps, r),
    ;
}

/// The naive interpreter: the filtered instruction stream plus its
/// precomputed bracket jump table.
pub struct Interpreter1 {
    /// The filtered instruction stream.
    pub instructions: Vec<u8>,
    /// The symmetric bracket jump table over `instructions`.
    pub jumptable: Vec<usize>,
}

impl Brainfuck for Interpreter1 {
    open spec fn wf(&self) -> bool {
        &&& all_instructions(self.instructions@)
        &&& jumptable_spec(self.instructions@) == Some(self.jumptable@)
    }

    open spec fn new_ens(source: Seq<u8>, r: Result<Self, ExecError>) -> bool {
        match r {
            Ok(b) => b.instructions@ == filter_spec(source) && jumptable_spec(b.instructions@)
                == Some(b.jumptable@),
            Err(e) => e == ExecError::MalformedProgram && !balanced(filter_spec(source)),
        }
    }

    open spec fn run_ens(
        &self,
        input: Seq<u8>,
        old_out: Seq<u8>,
        new_out: Seq<u8>,
        max_steps: u64,
        r: Result<(), ExecError>,
    ) -> bool {
        outcome_post(
            byte_run(self.instructions@, self.jumptable@, init_state(input), max_steps as nat),
            old_out,
            new_out,
            r,
        )
    }

    fn new(s: &[u8]) -> (r: Result<Self, ExecError>) {
        let instructions = filter_instructions(s);
        proof {
            lemma_filter_all_instructions(s@);
        }
        match create_jumptable(&instructions) {
            Err(e) => Err(e),
            Ok(jumptable) => Ok(Interpreter1 { instructions, jumptable }),
        }
    }

    fn run(&self, input: &[u8], output: &mut Vec<u8>, max_steps: u64) -> (r: Result<
        (),
        ExecError,
    >) {
        proof {
            assert(self.instructions@.len() == self.instructions.len());
            lemma_jumptable_matched(self.instructions@);
        }
        run_bytes(&self.instructions, &self.jumptable, input, output, max_steps)
    }
}

/// The run-length operation interpreter: the translated, unoptimized
/// operation sequence.
pub struct Interpreter2 {
    /// The translated operation sequence, without fused loop idioms.
    pub ops: Vec<Op>,
}

impl Brainfuck for Interpreter2 {
    open spec fn wf(&self) -> bool {
        true
    }

    open spec fn new_ens(source: Seq<u8>, r: Result<Self, ExecError>) -> bool {
        match r {
            Ok(b) => translate_spec(filter_spec(source), false) == Some(b.ops@),
            Err(e) => e == ExecError::MalformedProgram && translate_spec(
                filter_spec(source),
                false,
            ) is None,
        }
    }

    open spec fn run_ens(
        &self,
        input: Seq<u8>,
        old_out: Seq<u8>,
        new_out: Seq<u8>,
        max_steps: u64,
        r: Result<(), ExecError>,
    ) -> bool {
        outcome_post(op_run(self.ops@, init_state(input), max_steps as nat), old_out, new_out, r)
    }

    fn new(s: &[u8]) -> (r: Result<Self, ExecError>) {
        let instructions = filter_instructions(s);
        match translate_program(instructions.as_slice(), false) {
            Err(e) => Err(e),
            Ok(ops) => Ok(Interpreter2 { ops }),
        }
    }

    fn run(&self, input: &[u8], output: &mut Vec<u8>, max_steps: u64) -> (r: Result<
        (),
        ExecError,
    >) {
        run_ops(&self.ops, input, output, max_steps)
    }
}

/// The loop-optimized operation interpreter: the translated operation
/// sequence with recognized loops fused.
pub struct Interpreter3 {
    /// The translated operation sequence, with fused loop idioms.
    pub ops: Vec<Op>,
}

impl Brainfuck for Interpreter3 {
    open spec fn wf(&self) -> bool {
        true
    }

    open spec fn new_ens(source: Seq<u8>, r: Result<Self, ExecError>) -> bool {
        match r {
            Ok(b) => translate_spec(filter_spec(source), true) == Some(b.ops@),
            Err(e) => e == ExecError::MalformedProgram && translate_spec(
                filter_spec(source),
                true,
            ) is None,
        }
    }

    open spec fn run_ens(
        &self,
        input: Seq<u8>,
        old_out: Seq<u8>,
        new_out: Seq<u8>,
        max_steps: u64,
        r: Result<(), ExecError>,
    ) -> bool {
        outcome_post(op_run(self.ops@, init_state(input), max_steps as nat), old_out, new_out, r)
    }

    fn new(s: &[u8]) -> (r: Result<Self, ExecError>) {
        let instructions = filter_instructions(s);
        match translate_program(instructions.as_slice(), true) {
            Err(e) => Err(e),
            Ok(ops) => Ok(Interpreter3 { ops }),
        }
    }

    fn run(&self, input: &[u8], output: &mut Vec<u8>, max_steps: u64) -> (r: Result<
        (),
        ExecError,
    >) {
        run_ops(&self.ops, input, output, max_steps)
    }
}

} // verus!
