//! The laws that relate the crate's components, stated and proved over the
//! reference semantics and the translation specs that the executable
//! functions' contracts use.
use vstd::prelude::*;

use crate::error::ExecError;
use crate::instr::all_instructions;
use crate::instr::filter_spec;
use crate::instr::is_bracket;
use crate::instr::is_instruction;
use crate::instr::OP_CLOSE;
use crate::instr::OP_DEC;
use crate::instr::OP_IN;
use crate::instr::OP_INC;
use crate::instr::OP_LEFT;
use crate::instr::OP_OPEN;
use crate::instr::OP_OUT;
use crate::instr::OP_RIGHT;
use crate::interp::naive_post;
use crate::interp::ops_post;
use crate::jumptable::balanced;
use crate::jumptable::jumptable_spec;
use crate::jumptable::lemma_jumptable_matched;
use crate::ops::lemma_run_length_bound;
use crate::ops::optimize_spec;
use crate::ops::run_length;
use crate::ops::translate_rec;
use crate::ops::translate_spec;
use crate::ops::Op;
use crate::semantics::byte_run;
use crate::semantics::byte_step;
use crate::semantics::init_state;
use crate::semantics::lemma_byte_outcome_unique;
use crate::semantics::lemma_op_outcome_unique;
use crate::semantics::op_run;
use crate::semantics::op_step;
use crate::semantics::wrap_add;
use crate::semantics::wrap_sub;
use crate::semantics::MachState;
use crate::semantics::Outcome;
use crate::semantics::Step;
use crate::semantics::TAPE_LEN;

verus! {

/// Law: translating the same filtered instruction stream twice, with the
/// same optimizer switch, yields structurally identical operation
/// sequences — translation is a pure function of the stream and the
/// switch, which the translator's exact contract pins down.
pub proof fn lemma_translate_deterministic(insts: Seq<u8>, opt: bool, r1: Seq<Op>, r2: Seq<Op>)
    requires
        translate_spec(insts, opt) == Some(r1),
        translate_spec(insts, opt) == Some(r2),
    ensures
        r1 == r2,
{
}

/// Law: the jump table round-trips — for every bracket index `i` of a
/// balanced stream, `jt[i]` is in range and `jt[jt[i]] == i`.
pub proof fn lemma_jumptable_round_trip(prog: Seq<u8>, jt: Seq<usize>, i: int)
    requires
        prog.len() <= usize::MAX,
        jumptable_spec(prog) == Some(jt),
        0 <= i < prog.len(),
        is_bracket(prog[i]),
    ensures
        0 <= jt[i] < prog.len(),
        jt[jt[i] as int] == i,
{
    lemma_jumptable_matched(prog);
}

/// Law (strategy determinism): once the step budget suffices — the run did
/// not stop for the budget — the naive strategy's result and the output it
/// appends depend only on the program and the input, not on the budget or
/// on what the output buffer already held.
pub proof fn lemma_naive_run_deterministic(
    s: Seq<u8>,
    input: Seq<u8>,
    old1: Seq<u8>,
    new1: Seq<u8>,
    f1: u64,
    r1: Result<(), ExecError>,
    old2: Seq<u8>,
    new2: Seq<u8>,
    f2: u64,
    r2: Result<(), ExecError>,
)
    requires
        naive_post(s, input, old1, new1, f1, r1),
        naive_post(s, input, old2, new2, f2, r2),
        r1 != Err::<(), ExecError>(ExecError::StepLimit),
        r2 != Err::<(), ExecError>(ExecError::StepLimit),
    ensures
        r1 == r2,
        new1.skip(old1.len() as int) == new2.skip(old2.len() as int),
{
    let prog = filter_spec(s);
    if balanced(prog) {
        let jt = jumptable_spec(prog).unwrap();
        let st = init_state(input);
        lemma_byte_outcome_unique(prog, jt, st, f1 as nat, f2 as nat);
        match byte_run(prog, jt, st, f1 as nat) {
            Outcome::Done(m) => {
                assert(new1.skip(old1.len() as int) =~= m.output);
                assert(new2.skip(old2.len() as int) =~= m.output);
            },
            Outcome::Failed(_, m) => {
                assert(new1.skip(old1.len() as int) =~= m.output);
                assert(new2.skip(old2.len() as int) =~= m.output);
            },
            Outcome::Ongoing(_) => {},
        }
    } else {
        assert(new1.skip(old1.len() as int) =~= Seq::<u8>::empty());
        assert(new2.skip(old2.len() as int) =~= Seq::<u8>::empty());
    }
}

/// Law (strategy determinism): the same, for either operation strategy —
/// with and without the loop optimizer.
pub proof fn lemma_ops_run_deterministic(
    s: Seq<u8>,
    opt: bool,
    input: Seq<u8>,
    old1: Seq<u8>,
    new1: Seq<u8>,
    f1: u64,
    r1: Result<(), ExecError>,
    old2: Seq<u8>,
    new2: Seq<u8>,
    f2: u64,
    r2: Result<(), ExecError>,
)
    requires
        ops_post(s, opt, input, old1, new1, f1, r1),
        ops_post(s, opt, input, old2, new2, f2, r2),
        r1 != Err::<(), ExecError>(ExecError::StepLimit),
        r2 != Err::<(), ExecError>(ExecError::StepLimit),
    ensures
        r1 == r2,
        new1.skip(old1.len() as int) == new2.skip(old2.len() as int),
{
    let prog = filter_spec(s);
    match translate_spec(prog, opt) {
        Some(ops) => {
            let st = init_state(input);
            lemma_op_outcome_unique(ops, st, f1 as nat, f2 as nat);
            match op_run(ops, st, f1 as nat) {
                Outcome::Done(m) => {
                    assert(new1.skip(old1.len() as int) =~= m.output);
                    assert(new2.skip(old2.len() as int) =~= m.output);
                },
                Outcome::Failed(_, m) => {
                    assert(new1.skip(old1.len() as int) =~= m.output);
                    assert(new2.skip(old2.len() as int) =~= m.output);
                },
                Outcome::Ongoing(_) => {},
            }
        },
        None => {
            assert(new1.skip(old1.len() as int) =~= Seq::<u8>::empty());
            assert(new2.skip(old2.len() as int) =~= Seq::<u8>::empty());
        },
    }
}

/// With no closing bracket ahead, the optimizer switch never comes into
/// play: both translations take the same steps.
proof fn lemma_translate_rec_opt_unused(insts: Seq<u8>, pc: int, stack: Seq<usize>, ops: Seq<Op>)
    requires
        forall|j: int| pc <= j < insts.len() ==> insts[j] != OP_CLOSE,
    ensures
        translate_rec(insts, pc, stack, ops, true) == translate_rec(insts, pc, stack, ops, false),
    decreases insts.len() - pc,
{
    if 0 <= pc < insts.len() {
        if insts[pc] == OP_OPEN {
            lemma_translate_rec_opt_unused(
                insts,
                pc + 1,
                stack.push(ops.len() as usize),
                ops.push(Op::JumpIfDataIsZero(0)),
            );
        } else {
            let len = 1 + run_length(insts, insts[pc], pc + 1);
            lemma_run_length_bound(insts, insts[pc], pc + 1);
            let c = insts[pc];
            let ops2 = if c == OP_RIGHT {
                ops.push(Op::IncPtr(len as usize))
            } else if c == OP_LEFT {
                ops.push(Op::DecPtr(len as usize))
            } else if c == OP_INC {
                ops.push(Op::IncData(len as usize))
            } else if c == OP_DEC {
                ops.push(Op::DecData(len as usize))
            } else if c == OP_IN {
                ops.push(Op::ReadStdin(len as usize))
            } else if c == OP_OUT {
                ops.push(Op::WriteStdout(len as usize))
            } else {
                ops
            };
            lemma_translate_rec_opt_unused(insts, pc + len, stack, ops2);
        }
    }
}

/// Law (cross-strategy agreement without loops): on a source program whose
/// instruction stream contains no closing bracket — in particular on any
/// loop-free program — the loop-optimized and unoptimized translations are
/// identical, so the two operation strategies run the very same operation
/// sequence and, by [`lemma_ops_run_deterministic`], return the same result
/// and output on every input and sufficient budget.
pub proof fn lemma_strategies_agree_without_loops(s: Seq<u8>)
    requires
        forall|j: int| 0 <= j < filter_spec(s).len() ==> filter_spec(s)[j] != OP_CLOSE,
    ensures
        translate_spec(filter_spec(s), true) == translate_spec(filter_spec(s), false),
{
    lemma_translate_rec_opt_unused(filter_spec(s), 0, Seq::empty(), Seq::empty());
}

/// The generic branch-pair form of a decrement-by-one loop, as the
/// translator emits it for `[-]`.
pub open spec fn dec_loop_ops() -> Seq<Op> {
    seq![Op::JumpIfDataIsZero(2), Op::DecData(1), Op::JumpIfDataIsNotZero(0)]
}

/// Iterating the decrement loop from its body entry drives the current
/// cell to zero and halts, changing nothing else.
proof fn lemma_dec_loop_iterates(st: MachState)
    requires
        st.pc == 1,
        st.ptr < st.tape.len(),
        st.tape.len() == TAPE_LEN,
        st.tape[st.ptr as int] != 0,
    ensures
        exists|f: nat|
            op_run(dec_loop_ops(), st, f) == Outcome::Done(
                MachState { pc: 3, tape: st.tape.update(st.ptr as int, 0u8), ..st },
            ),
    decreases st.tape[st.ptr as int],
{
    let a = dec_loop_ops();
    let v = st.tape[st.ptr as int];
    vstd::arithmetic::div_mod::lemma_small_mod((v - 1) as nat, 256);
    assert(wrap_sub(v, 1) == (v - 1) as u8);
    let st2 = MachState { pc: 2, tape: st.tape.update(st.ptr as int, (v - 1) as u8), ..st };
    assert(op_step(a, st) == Step::Next(st2));
    if v == 1 {
        let st3 = MachState { pc: 3, ..st2 };
        assert(op_step(a, st2) == Step::Next(st3));
        assert(op_run(a, st, 3) == op_run(a, st2, 2));
        assert(op_run(a, st2, 2) == op_run(a, st3, 1));
        assert(op_run(a, st3, 1) == Outcome::Done(st3));
        assert(st3.tape =~= st.tape.update(st.ptr as int, 0u8));
        assert(op_run(a, st, 3) == Outcome::Done(
            MachState { pc: 3, tape: st.tape.update(st.ptr as int, 0u8), ..st },
        ));
    } else {
        let st3 = MachState { pc: 1, ..st2 };
        assert(op_step(a, st2) == Step::Next(st3));
        assert(st3.tape[st3.ptr as int] == (v - 1) as u8);
        lemma_dec_loop_iterates(st3);
        let f = choose|f: nat|
            op_run(a, st3, f) == Outcome::Done(
                MachState { pc: 3, tape: st3.tape.update(st3.ptr as int, 0u8), ..st3 },
            );
        assert(st3.tape.update(st.ptr as int, 0u8) =~= st.tape.update(st.ptr as int, 0u8));
        assert(op_run(a, st, f + 2) == op_run(a, st2, f + 1));
        assert(op_run(a, st2, f + 1) == op_run(a, st3, f));
        assert(op_run(a, st, f + 2) == Outcome::Done(
            MachState { pc: 3, tape: st.tape.update(st.ptr as int, 0u8), ..st },
        ));
    }
}

/// The generic branch-pair form of an increment-by-one loop, as the
/// translator emits it for `[+]`.
pub open spec fn inc_loop_ops() -> Seq<Op> {
    seq![Op::JumpIfDataIsZero(2), Op::IncData(1), Op::JumpIfDataIsNotZero(0)]
}

/// Iterating the increment loop from its body entry wraps the current cell
/// around to zero and halts, changing nothing else.
proof fn lemma_inc_loop_iterates(st: MachState)
    requires
        st.pc == 1,
        st.ptr < st.tape.len(),
        st.tape.len() == TAPE_LEN,
        st.tape[st.ptr as int] != 0,
    ensures
        exists|f: nat|
            op_run(inc_loop_ops(), st, f) == Outcome::Done(
                MachState { pc: 3, tape: st.tape.update(st.ptr as int, 0u8), ..st },
            ),
    decreases 256 - st.tape[st.ptr as int],
{
    let a = inc_loop_ops();
    let v = st.tape[st.ptr as int];
    if v == 255 {
        assert(wrap_add(v, 1) == 0u8);
    } else {
        vstd::arithmetic::div_mod::lemma_small_mod((v + 1) as nat, 256);
        assert(wrap_add(v, 1) == (v + 1) as u8);
    }
    let st2 = MachState { pc: 2, tape: st.tape.update(st.ptr as int, wrap_add(v, 1)), ..st };
    assert(op_step(a, st) == Step::Next(st2));
    if v == 255 {
        let st3 = MachState { pc: 3, ..st2 };
        assert(op_step(a, st2) == Step::Next(st3));
        assert(op_run(a, st, 3) == op_run(a, st2, 2));
        assert(op_run(a, st2, 2) == op_run(a, st3, 1));
        assert(op_run(a, st3, 1) == Outcome::Done(st3));
        assert(st3.tape =~= st.tape.update(st.ptr as int, 0u8));
        assert(op_run(a, st, 3) == Outcome::Done(
            MachState { pc: 3, tape: st.tape.update(st.ptr as int, 0u8), ..st },
        ));
    } else {
        let st3 = MachState { pc: 1, ..st2 };
        assert(op_step(a, st2) == Step::Next(st3));
        assert(st3.tape[st3.ptr as int] == (v + 1) as u8);
        lemma_inc_loop_iterates(st3);
        let f = choose|f: nat|
            op_run(a, st3, f) == Outcome::Done(
                MachState { pc: 3, tape: st3.tape.update(st3.ptr as int, 0u8), ..st3 },
            );
        assert(st3.tape.update(st.ptr as int, 0u8) =~= st.tape.update(st.ptr as int, 0u8));
        assert(op_run(a, st, f + 2) == op_run(a, st2, f + 1));
        assert(op_run(a, st2, f + 1) == op_run(a, st3, f));
        assert(op_run(a, st, f + 2) == Outcome::Done(
            MachState { pc: 3, tape: st.tape.update(st.ptr as int, 0u8), ..st },
        ));
    }
}

/// Law (loop-optimizer transparency, zero-cell shape with unit increment):
/// the increment-by-one loop wraps the current cell around to zero, exactly
/// as the fused [`Op::LoopSetToZero`] does.
pub proof fn lemma_zero_cell_transparent_inc(st: MachState)
    requires
        st.pc == 0,
        st.ptr < st.tape.len(),
        st.tape.len() == TAPE_LEN,
    ensures
        op_run(seq![Op::LoopSetToZero], st, 1) == Outcome::Done(
            MachState { pc: 1, tape: st.tape.update(st.ptr as int, 0u8), ..st },
        ),
        exists|f: nat|
            op_run(inc_loop_ops(), st, f) == Outcome::Done(
                MachState { pc: 3, tape: st.tape.update(st.ptr as int, 0u8), ..st },
            ),
{
    let a = inc_loop_ops();
    let b = seq![Op::LoopSetToZero];
    let fused = MachState { pc: 1, tape: st.tape.update(st.ptr as int, 0u8), ..st };
    assert(op_step(b, st) == Step::Next(fused));
    assert(op_run(b, st, 1) == op_run(b, fused, 0));
    assert(op_run(b, fused, 0) == Outcome::Done(fused));
    if st.tape[st.ptr as int] == 0 {
        let st1 = MachState { pc: 3, ..st };
        assert(op_step(a, st) == Step::Next(st1));
        assert(op_run(a, st, 1) == op_run(a, st1, 0));
        assert(op_run(a, st1, 0) == Outcome::Done(st1));
        assert(st.tape.update(st.ptr as int, 0u8) =~= st.tape);
        assert(op_run(a, st, 1) == Outcome::Done(
            MachState { pc: 3, tape: st.tape.update(st.ptr as int, 0u8), ..st },
        ));
    } else {
        let st1 = MachState { pc: 1, ..st };
        assert(op_step(a, st) == Step::Next(st1));
        lemma_inc_loop_iterates(st1);
        let f = choose|f: nat|
            op_run(a, st1, f) == Outcome::Done(
                MachState { pc: 3, tape: st1.tape.update(st1.ptr as int, 0u8), ..st1 },
            );
        assert(op_run(a, st, f + 1) == op_run(a, st1, f));
        assert(op_run(a, st, f + 1) == Outcome::Done(
            MachState { pc: 3, tape: st.tape.update(st.ptr as int, 0u8), ..st },
        ));
    }
}

/// Law (loop-optimizer transparency, zero-cell shape with unit step): for
/// any reachable starting cell state, the decrement-by-one loop and the
/// fused [`Op::LoopSetToZero`] reach the same tape, pointer, remaining
/// input and output — both leave the current cell zero and touch nothing
/// else. For step sizes that share a factor with 256 the loop need not
/// terminate at all (a step of two starting from an odd cell), so the law
/// is stated for the unit step the idiom is written with.
pub proof fn lemma_zero_cell_transparent(st: MachState)
    requires
        st.pc == 0,
        st.ptr < st.tape.len(),
        st.tape.len() == TAPE_LEN,
    ensures
        op_run(seq![Op::LoopSetToZero], st, 1) == Outcome::Done(
            MachState { pc: 1, tape: st.tape.update(st.ptr as int, 0u8), ..st },
        ),
        exists|f: nat|
            op_run(dec_loop_ops(), st, f) == Outcome::Done(
                MachState { pc: 3, tape: st.tape.update(st.ptr as int, 0u8), ..st },
            ),
{
    let a = dec_loop_ops();
    let b = seq![Op::LoopSetToZero];
    let fused = MachState { pc: 1, tape: st.tape.update(st.ptr as int, 0u8), ..st };
    assert(op_step(b, st) == Step::Next(fused));
    assert(op_run(b, st, 1) == op_run(b, fused, 0));
    assert(op_run(b, fused, 0) == Outcome::Done(fused));
    if st.tape[st.ptr as int] == 0 {
        let st1 = MachState { pc: 3, ..st };
        assert(op_step(a, st) == Step::Next(st1));
        assert(op_run(a, st, 1) == op_run(a, st1, 0));
        assert(op_run(a, st1, 0) == Outcome::Done(st1));
        assert(st.tape.update(st.ptr as int, 0u8) =~= st.tape);
        assert(op_run(a, st, 1) == Outcome::Done(
            MachState { pc: 3, tape: st.tape.update(st.ptr as int, 0u8), ..st },
        ));
    } else {
        let st1 = MachState { pc: 1, ..st };
        assert(op_step(a, st) == Step::Next(st1));
        lemma_dec_loop_iterates(st1);
        let f = choose|f: nat|
            op_run(a, st1, f) == Outcome::Done(
                MachState { pc: 3, tape: st1.tape.update(st1.ptr as int, 0u8), ..st1 },
            );
        assert(op_run(a, st, f + 1) == op_run(a, st1, f));
        assert(op_run(a, st, f + 1) == Outcome::Done(
            MachState { pc: 3, tape: st.tape.update(st.ptr as int, 0u8), ..st },
        ));
    }
}

/// The two forms of [`lemma_zero_cell_transparent`] are exactly what the
/// translator emits for the canonical zero-cell loop, without and with the
/// loop optimizer.
pub proof fn lemma_zero_cell_translations()
    ensures
        translate_spec(seq![OP_OPEN, OP_DEC, OP_CLOSE], false) == Some(dec_loop_ops()),
        translate_spec(seq![OP_OPEN, OP_DEC, OP_CLOSE], true) == Some(seq![Op::LoopSetToZero]),
{
    let s = seq![OP_OPEN, OP_DEC, OP_CLOSE];
    assert(run_length(s, OP_DEC, 2) == 0);
    let ops1 = seq![Op::JumpIfDataIsZero(0)];
    let ops2 = ops1.push(Op::DecData(1));
    assert(translate_rec(s, 0, Seq::empty(), Seq::empty(), false) == translate_rec(
        s,
        1,
        seq![0usize],
        ops1,
        false,
    ));
    assert(translate_rec(s, 1, seq![0usize], ops1, false) == translate_rec(
        s,
        2,
        seq![0usize],
        ops2,
        false,
    ));
    assert(seq![0usize].last() == 0usize && seq![0usize].drop_last() =~= Seq::<usize>::empty());
    assert(translate_rec(s, 2, seq![0usize], ops2, false) == translate_rec(
        s,
        3,
        Seq::empty(),
        ops2.update(0, Op::JumpIfDataIsZero(2)).push(Op::JumpIfDataIsNotZero(0)),
        false,
    ));
    assert(ops2.update(0, Op::JumpIfDataIsZero(2)).push(Op::JumpIfDataIsNotZero(0))
        =~= dec_loop_ops());
    assert(translate_rec(s, 3, Seq::empty(), dec_loop_ops(), false) == Some(dec_loop_ops()));

    assert(translate_rec(s, 0, Seq::empty(), Seq::empty(), true) == translate_rec(
        s,
        1,
        seq![0usize],
        ops1,
        true,
    ));
    assert(translate_rec(s, 1, seq![0usize], ops1, true) == translate_rec(
        s,
        2,
        seq![0usize],
        ops2,
        true,
    ));
    assert(optimize_spec(ops2, 0) == Some(Op::LoopSetToZero));
    assert(ops2.take(0).push(Op::LoopSetToZero) =~= seq![Op::LoopSetToZero]);
    assert(translate_rec(s, 2, seq![0usize], ops2, true) == translate_rec(
        s,
        3,
        Seq::empty(),
        seq![Op::LoopSetToZero],
        true,
    ));
    assert(translate_rec(s, 3, Seq::empty(), seq![Op::LoopSetToZero], true) == Some(
        seq![Op::LoopSetToZero],
    ));
}

/// The generic branch-pair form of the rightward cell-transfer loop with
/// offset `m`, as the translator emits it for `[->+<]` (with `m` pointer
/// moves).
pub open spec fn transfer_loop_ops(m: usize) -> Seq<Op> {
    seq![
        Op::JumpIfDataIsZero(5),
        Op::DecData(1),
        Op::IncPtr(m),
        Op::IncData(1),
        Op::DecPtr(m),
        Op::JumpIfDataIsNotZero(0),
    ]
}

/// Iterating the transfer loop from its body entry moves the whole current
/// cell into the cell `m` to the right (wrapping) and halts, changing
/// nothing else.
proof fn lemma_transfer_loop_iterates(m: usize, st: MachState)
    requires
        1 <= m,
        st.pc == 1,
        st.tape.len() == TAPE_LEN,
        st.ptr + m < TAPE_LEN,
        st.tape[st.ptr as int] != 0,
    ensures
        exists|f: nat|
            op_run(transfer_loop_ops(m), st, f) == Outcome::Done(
                MachState {
                    pc: 6,
                    tape: st.tape.update(
                        st.ptr + m,
                        wrap_add(st.tape[st.ptr + m], st.tape[st.ptr as int] as nat),
                    ).update(st.ptr as int, 0u8),
                    ..st
                },
            ),
    decreases st.tape[st.ptr as int],
{
    let a = transfer_loop_ops(m);
    let v = st.tape[st.ptr as int];
    let d = st.tape[st.ptr + m];
    vstd::arithmetic::div_mod::lemma_small_mod((v - 1) as nat, 256);
    assert(wrap_sub(v, 1) == (v - 1) as u8);
    let tape1 = st.tape.update(st.ptr as int, (v - 1) as u8);
    let st2 = MachState { pc: 2, tape: tape1, ..st };
    assert(op_step(a, st) == Step::Next(st2));
    let st3 = MachState { pc: 3, ptr: (st.ptr + m) as nat, ..st2 };
    assert(op_step(a, st2) == Step::Next(st3));
    assert(st3.tape[st3.ptr as int] == d);
    let tape2 = tape1.update(st.ptr + m, wrap_add(d, 1));
    let st4 = MachState { pc: 4, tape: tape2, ..st3 };
    assert(op_step(a, st3) == Step::Next(st4));
    let st5 = MachState { pc: 5, ptr: st.ptr, ..st4 };
    assert(op_step(a, st4) == Step::Next(st5));
    assert(st5.tape[st5.ptr as int] == (v - 1) as u8);
    let target_tape = st.tape.update(st.ptr + m, wrap_add(d, v as nat)).update(
        st.ptr as int,
        0u8,
    );
    if v == 1 {
        let st6 = MachState { pc: 6, ..st5 };
        assert(op_step(a, st5) == Step::Next(st6));
        assert(wrap_add(d, 1) == wrap_add(d, v as nat));
        assert(st6.tape =~= target_tape);
        assert(op_run(a, st, 5) == op_run(a, st2, 4));
        assert(op_run(a, st2, 4) == op_run(a, st3, 3));
        assert(op_run(a, st3, 3) == op_run(a, st4, 2));
        assert(op_run(a, st4, 2) == op_run(a, st5, 1));
        assert(op_run(a, st5, 1) == op_run(a, st6, 0));
        assert(op_run(a, st6, 0) == Outcome::Done(st6));
        assert(op_run(a, st, 5) == Outcome::Done(MachState { pc: 6, tape: target_tape, ..st }));
    } else {
        let st6 = MachState { pc: 1, ..st5 };
        assert(op_step(a, st5) == Step::Next(st6));
        assert(st6.tape[st6.ptr as int] == (v - 1) as u8);
        assert(st6.ptr + m < TAPE_LEN);
        lemma_transfer_loop_iterates(m, st6);
        let f = choose|f: nat|
            op_run(a, st6, f) == Outcome::Done(
                MachState {
                    pc: 6,
                    tape: st6.tape.update(
                        st6.ptr + m,
                        wrap_add(st6.tape[st6.ptr + m], st6.tape[st6.ptr as int] as nat),
                    ).update(st6.ptr as int, 0u8),
                    ..st6
                },
            );
        assert(st6.tape[st6.ptr + m] == wrap_add(d, 1));
        assert(wrap_add(wrap_add(d, 1), (v - 1) as nat) == wrap_add(d, v as nat)) by {
            vstd::arithmetic::div_mod::lemma_small_mod((v - 1) as nat, 256);
            vstd::arithmetic::div_mod::lemma_add_mod_noop(d + 1, v - 1, 256);
        }
        assert(st6.tape.update(st6.ptr + m, wrap_add(wrap_add(d, 1), (v - 1) as nat)).update(
            st6.ptr as int,
            0u8,
        ) =~= target_tape);
        assert(op_run(a, st, f + 5) == op_run(a, st2, f + 4));
        assert(op_run(a, st2, f + 4) == op_run(a, st3, f + 3));
        assert(op_run(a, st3, f + 3) == op_run(a, st4, f + 2));
        assert(op_run(a, st4, f + 2) == op_run(a, st5, f + 1));
        assert(op_run(a, st5, f + 1) == op_run(a, st6, f));
        assert(op_run(a, st, f + 5) == Outcome::Done(
            MachState { pc: 6, tape: target_tape, ..st },
        ));
    }
}

/// Law (loop-optimizer transparency, cell-transfer shape, rightward): for
/// any reachable starting state, the canonical transfer loop and the fused
/// [`Op::LoopMoveData`] reach the same tape, pointer, remaining input and
/// output — the whole current cell is added (wrapping) to the cell `m` to
/// the right and the current cell ends zero. The leftward form is the
/// mirror image and is not separately stated.
pub proof fn lemma_transfer_cell_transparent(m: usize, st: MachState)
    requires
        1 <= m <= isize::MAX as usize,
        st.pc == 0,
        st.tape.len() == TAPE_LEN,
        st.ptr + m < TAPE_LEN,
    ensures
        op_run(seq![Op::LoopMoveData(m as isize)], st, 1) == Outcome::Done(
            MachState {
                pc: 1,
                tape: st.tape.update(
                    st.ptr + m,
                    wrap_add(st.tape[st.ptr + m], st.tape[st.ptr as int] as nat),
                ).update(st.ptr as int, 0u8),
                ..st
            },
        ),
        exists|f: nat|
            op_run(transfer_loop_ops(m), st, f) == Outcome::Done(
                MachState {
                    pc: 6,
                    tape: st.tape.update(
                        st.ptr + m,
                        wrap_add(st.tape[st.ptr + m], st.tape[st.ptr as int] as nat),
                    ).update(st.ptr as int, 0u8),
                    ..st
                },
            ),
{
    let a = transfer_loop_ops(m);
    let b = seq![Op::LoopMoveData(m as isize)];
    let v = st.tape[st.ptr as int];
    let d = st.tape[st.ptr + m];
    let target_tape = st.tape.update(st.ptr + m, wrap_add(d, v as nat)).update(
        st.ptr as int,
        0u8,
    );
    if v == 0 {
        vstd::arithmetic::div_mod::lemma_small_mod(d as nat, 256);
        assert(wrap_add(d, 0) == d);
        assert(target_tape =~= st.tape);
        let fused = MachState { pc: 1, ..st };
        assert(op_step(b, st) == Step::Next(fused));
        assert(op_run(b, st, 1) == op_run(b, fused, 0));
        assert(op_run(b, fused, 0) == Outcome::Done(fused));
        assert(op_run(b, st, 1) == Outcome::Done(MachState { pc: 1, tape: target_tape, ..st }));
        let st1 = MachState { pc: 6, ..st };
        assert(op_step(a, st) == Step::Next(st1));
        assert(op_run(a, st, 1) == op_run(a, st1, 0));
        assert(op_run(a, st1, 0) == Outcome::Done(st1));
        assert(op_run(a, st, 1) == Outcome::Done(MachState { pc: 6, tape: target_tape, ..st }));
    } else {
        let fused = MachState { pc: 1, tape: target_tape, ..st };
        assert(op_step(b, st) == Step::Next(fused));
        assert(op_run(b, st, 1) == op_run(b, fused, 0));
        assert(op_run(b, fused, 0) == Outcome::Done(fused));
        let st1 = MachState { pc: 1, ..st };
        assert(op_step(a, st) == Step::Next(st1));
        lemma_transfer_loop_iterates(m, st1);
        let f = choose|f: nat|
            op_run(a, st1, f) == Outcome::Done(
                MachState {
                    pc: 6,
                    tape: st1.tape.update(
                        st1.ptr + m,
                        wrap_add(st1.tape[st1.ptr + m], st1.tape[st1.ptr as int] as nat),
                    ).update(st1.ptr as int, 0u8),
                    ..st1
                },
            );
        assert(op_run(a, st, f + 1) == op_run(a, st1, f));
        assert(op_run(a, st, f + 1) == Outcome::Done(
            MachState { pc: 6, tape: target_tape, ..st },
        ));
    }
}

/// The generic branch-pair form of the leftward cell-transfer loop with
/// offset `m`, as the translator emits it for `[-<+>]` (with `m` pointer
/// moves).
pub open spec fn transfer_loop_ops_left(m: usize) -> Seq<Op> {
    seq![
        Op::JumpIfDataIsZero(5),
        Op::DecData(1),
        Op::DecPtr(m),
        Op::IncData(1),
        Op::IncPtr(m),
        Op::JumpIfDataIsNotZero(0),
    ]
}

/// Iterating the leftward transfer loop from its body entry moves the whole
/// current cell into the cell `m` to the left (wrapping) and halts,
/// changing nothing else.
proof fn lemma_transfer_loop_left_iterates(m: usize, st: MachState)
    requires
        1 <= m <= st.ptr,
        st.pc == 1,
        st.tape.len() == TAPE_LEN,
        st.ptr < TAPE_LEN,
        st.tape[st.ptr as int] != 0,
    ensures
        exists|f: nat|
            op_run(transfer_loop_ops_left(m), st, f) == Outcome::Done(
                MachState {
                    pc: 6,
                    tape: st.tape.update(
                        st.ptr - m,
                        wrap_add(st.tape[st.ptr - m], st.tape[st.ptr as int] as nat),
                    ).update(st.ptr as int, 0u8),
                    ..st
                },
            ),
    decreases st.tape[st.ptr as int],
{
    let a = transfer_loop_ops_left(m);
    let v = st.tape[st.ptr as int];
    let d = st.tape[st.ptr - m];
    vstd::arithmetic::div_mod::lemma_small_mod((v - 1) as nat, 256);
    assert(wrap_sub(v, 1) == (v - 1) as u8);
    let tape1 = st.tape.update(st.ptr as int, (v - 1) as u8);
    let st2 = MachState { pc: 2, tape: tape1, ..st };
    assert(op_step(a, st) == Step::Next(st2));
    let st3 = MachState { pc: 3, ptr: (st.ptr - m) as nat, ..st2 };
    assert(op_step(a, st2) == Step::Next(st3));
    assert(st3.tape[st3.ptr as int] == d);
    let tape2 = tape1.update(st.ptr - m, wrap_add(d, 1));
    let st4 = MachState { pc: 4, tape: tape2, ..st3 };
    assert(op_step(a, st3) == Step::Next(st4));
    let st5 = MachState { pc: 5, ptr: st.ptr, ..st4 };
    assert(op_step(a, st4) == Step::Next(st5));
    assert(st5.tape[st5.ptr as int] == (v - 1) as u8);
    let target_tape = st.tape.update(st.ptr - m, wrap_add(d, v as nat)).update(
        st.ptr as int,
        0u8,
    );
    if v == 1 {
        let st6 = MachState { pc: 6, ..st5 };
        assert(op_step(a, st5) == Step::Next(st6));
        assert(wrap_add(d, 1) == wrap_add(d, v as nat));
        assert(st6.tape =~= target_tape);
        assert(op_run(a, st, 5) == op_run(a, st2, 4));
        assert(op_run(a, st2, 4) == op_run(a, st3, 3));
        assert(op_run(a, st3, 3) == op_run(a, st4, 2));
        assert(op_run(a, st4, 2) == op_run(a, st5, 1));
        assert(op_run(a, st5, 1) == op_run(a, st6, 0));
        assert(op_run(a, st6, 0) == Outcome::Done(st6));
        assert(op_run(a, st, 5) == Outcome::Done(MachState { pc: 6, tape: target_tape, ..st }));
    } else {
        let st6 = MachState { pc: 1, ..st5 };
        assert(op_step(a, st5) == Step::Next(st6));
        assert(st6.tape[st6.ptr as int] == (v - 1) as u8);
        lemma_transfer_loop_left_iterates(m, st6);
        let f = choose|f: nat|
            op_run(a, st6, f) == Outcome::Done(
                MachState {
                    pc: 6,
                    tape: st6.tape.update(
                        st6.ptr - m,
                        wrap_add(st6.tape[st6.ptr - m], st6.tape[st6.ptr as int] as nat),
                    ).update(st6.ptr as int, 0u8),
                    ..st6
                },
            );
        assert(st6.tape[st6.ptr - m] == wrap_add(d, 1));
        assert(wrap_add(wrap_add(d, 1), (v - 1) as nat) == wrap_add(d, v as nat)) by {
            vstd::arithmetic::div_mod::lemma_small_mod((v - 1) as nat, 256);
            vstd::arithmetic::div_mod::lemma_add_mod_noop(d + 1, v - 1, 256);
        }
        assert(st6.tape.update(st6.ptr - m, wrap_add(wrap_add(d, 1), (v - 1) as nat)).update(
            st6.ptr as int,
            0u8,
        ) =~= target_tape);
        assert(op_run(a, st, f + 5) == op_run(a, st2, f + 4));
        assert(op_run(a, st2, f + 4) == op_run(a, st3, f + 3));
        assert(op_run(a, st3, f + 3) == op_run(a, st4, f + 2));
        assert(op_run(a, st4, f + 2) == op_run(a, st5, f + 1));
        assert(op_run(a, st5, f + 1) == op_run(a, st6, f));
        assert(op_run(a, st, f + 5) == Outcome::Done(
            MachState { pc: 6, tape: target_tape, ..st },
        ));
    }
}

/// Law (loop-optimizer transparency, cell-transfer shape, leftward): the
/// mirror image of [`lemma_transfer_cell_transparent`] — the whole current
/// cell is added (wrapping) to the cell `m` to the left and the current
/// cell ends zero, under the loop and under the fused operation alike.
pub proof fn lemma_transfer_cell_left_transparent(m: usize, st: MachState)
    requires
        1 <= m <= st.ptr,
        m <= isize::MAX as usize,
        st.pc == 0,
        st.tape.len() == TAPE_LEN,
        st.ptr < TAPE_LEN,
    ensures
        op_run(seq![Op::LoopMoveData((-(m as isize)) as isize)], st, 1) == Outcome::Done(
            MachState {
                pc: 1,
                tape: st.tape.update(
                    st.ptr - m,
                    wrap_add(st.tape[st.ptr - m], st.tape[st.ptr as int] as nat),
                ).update(st.ptr as int, 0u8),
                ..st
            },
        ),
        exists|f: nat|
            op_run(transfer_loop_ops_left(m), st, f) == Outcome::Done(
                MachState {
                    pc: 6,
                    tape: st.tape.update(
                        st.ptr - m,
                        wrap_add(st.tape[st.ptr - m], st.tape[st.ptr as int] as nat),
                    ).update(st.ptr as int, 0u8),
                    ..st
                },
            ),
{
    let a = transfer_loop_ops_left(m);
    let b = seq![Op::LoopMoveData((-(m as isize)) as isize)];
    let v = st.tape[st.ptr as int];
    let d = st.tape[st.ptr - m];
    let target_tape = st.tape.update(st.ptr - m, wrap_add(d, v as nat)).update(
        st.ptr as int,
        0u8,
    );
    if v == 0 {
        vstd::arithmetic::div_mod::lemma_small_mod(d as nat, 256);
        assert(wrap_add(d, 0) == d);
        assert(target_tape =~= st.tape);
        let fused = MachState { pc: 1, ..st };
        assert(op_step(b, st) == Step::Next(fused));
        assert(op_run(b, st, 1) == op_run(b, fused, 0));
        assert(op_run(b, fused, 0) == Outcome::Done(fused));
        assert(op_run(b, st, 1) == Outcome::Done(MachState { pc: 1, tape: target_tape, ..st }));
        let st1 = MachState { pc: 6, ..st };
        assert(op_step(a, st) == Step::Next(st1));
        assert(op_run(a, st, 1) == op_run(a, st1, 0));
        assert(op_run(a, st1, 0) == Outcome::Done(st1));
        assert(op_run(a, st, 1) == Outcome::Done(MachState { pc: 6, tape: target_tape, ..st }));
    } else {
        let fused = MachState { pc: 1, tape: target_tape, ..st };
        assert(op_step(b, st) == Step::Next(fused));
        assert(op_run(b, st, 1) == op_run(b, fused, 0));
        assert(op_run(b, fused, 0) == Outcome::Done(fused));
        let st1 = MachState { pc: 1, ..st };
        assert(op_step(a, st) == Step::Next(st1));
        lemma_transfer_loop_left_iterates(m, st1);
        let f = choose|f: nat|
            op_run(a, st1, f) == Outcome::Done(
                MachState {
                    pc: 6,
                    tape: st1.tape.update(
                        st1.ptr - m,
                        wrap_add(st1.tape[st1.ptr - m], st1.tape[st1.ptr as int] as nat),
                    ).update(st1.ptr as int, 0u8),
                    ..st1
                },
            );
        assert(op_run(a, st, f + 1) == op_run(a, st1, f));
        assert(op_run(a, st, f + 1) == Outcome::Done(
            MachState { pc: 6, tape: target_tape, ..st },
        ));
    }
}

/// The generic branch-pair form of the rightward pointer-scan loop with
/// step `n`, as the translator emits it for `[>]` (with `n` pointer moves).
pub open spec fn scan_loop_ops(n: usize) -> Seq<Op> {
    seq![Op::JumpIfDataIsZero(2), Op::IncPtr(n), Op::JumpIfDataIsNotZero(0)]
}

/// Law (loop-optimizer transparency, pointer-scan shape, rightward):
/// whenever the fused [`Op::LoopMovePtr`] halts within some fuel, the
/// generic scan loop halts in the same tape, pointer, remaining input and
/// output. [`lemma_scan_ptr_left_transparent`] is the leftward mirror.
pub proof fn lemma_scan_ptr_transparent(n: usize, st: MachState, f: nat, m: MachState)
    requires
        1 <= n <= isize::MAX as usize,
        st.pc == 0,
        st.tape.len() == TAPE_LEN,
        st.ptr < TAPE_LEN,
        op_run(seq![Op::LoopMovePtr(n as isize)], st, f) == Outcome::Done(m),
    ensures
        exists|f2: nat|
            op_run(scan_loop_ops(n), st, f2) == Outcome::Done(MachState { pc: 3, ..m }),
    decreases f,
{
    let a = scan_loop_ops(n);
    let b = seq![Op::LoopMovePtr(n as isize)];
    assert(f > 0);
    let v = st.tape[st.ptr as int];
    if v == 0 {
        let sb1 = MachState { pc: 1, ..st };
        assert(op_step(b, st) == Step::Next(sb1));
        assert(op_run(b, st, f) == op_run(b, sb1, (f - 1) as nat));
        assert(op_run(b, sb1, (f - 1) as nat) == Outcome::Done(sb1));
        assert(m == sb1);
        let sa1 = MachState { pc: 3, ..st };
        assert(op_step(a, st) == Step::Next(sa1));
        assert(op_run(a, st, 1) == op_run(a, sa1, 0));
        assert(op_run(a, sa1, 0) == Outcome::Done(sa1));
        assert(sa1 == MachState { pc: 3, ..m });
    } else {
        assert(0 <= st.ptr + (n as isize) < TAPE_LEN) by {
            if !(st.ptr + (n as isize) < TAPE_LEN) {
                assert(op_step(b, st) == Step::Fail(ExecError::PointerOutOfRange));
                assert(op_run(b, st, f) == Outcome::Failed(ExecError::PointerOutOfRange, st));
            }
        }
        let sb2 = MachState { ptr: (st.ptr + n) as nat, ..st };
        assert(op_step(b, st) == Step::Next(sb2));
        assert(op_run(b, st, f) == op_run(b, sb2, (f - 1) as nat));
        lemma_scan_ptr_transparent(n, sb2, (f - 1) as nat, m);
        let f2 = choose|f2: nat|
            op_run(a, sb2, f2) == Outcome::Done(MachState { pc: 3, ..m });
        assert(f2 > 0);
        // From `sb2` at the loop head and at the backward branch, the very
        // next configuration is the same, so the two runs coincide from
        // fuel one on.
        let sa_head = sb2;
        let sa_back = MachState { pc: 2, ..sb2 };
        assert(op_step(a, sa_head) == op_step(a, sa_back));
        assert(op_run(a, sa_back, f2) == op_run(a, sa_head, f2));
        let sa1 = MachState { pc: 1, ..st };
        assert(op_step(a, st) == Step::Next(sa1));
        assert(op_step(a, sa1) == Step::Next(sa_back));
        assert(op_run(a, st, f2 + 2) == op_run(a, sa1, f2 + 1));
        assert(op_run(a, sa1, f2 + 1) == op_run(a, sa_back, f2));
        assert(op_run(a, st, f2 + 2) == Outcome::Done(MachState { pc: 3, ..m }));
    }
}

/// The generic branch-pair form of the leftward pointer-scan loop with
/// step `n`, as the translator emits it for `[<]` (with `n` pointer moves).
pub open spec fn scan_loop_ops_left(n: usize) -> Seq<Op> {
    seq![Op::JumpIfDataIsZero(2), Op::DecPtr(n), Op::JumpIfDataIsNotZero(0)]
}

/// Law (loop-optimizer transparency, pointer-scan shape, leftward): the
/// mirror image of [`lemma_scan_ptr_transparent`].
pub proof fn lemma_scan_ptr_left_transparent(n: usize, st: MachState, f: nat, m: MachState)
    requires
        1 <= n <= isize::MAX as usize,
        st.pc == 0,
        st.tape.len() == TAPE_LEN,
        st.ptr < TAPE_LEN,
        op_run(seq![Op::LoopMovePtr((-(n as isize)) as isize)], st, f) == Outcome::Done(m),
    ensures
        exists|f2: nat|
            op_run(scan_loop_ops_left(n), st, f2) == Outcome::Done(MachState { pc: 3, ..m }),
    decreases f,
{
    let a = scan_loop_ops_left(n);
    let b = seq![Op::LoopMovePtr((-(n as isize)) as isize)];
    assert(f > 0);
    let v = st.tape[st.ptr as int];
    if v == 0 {
        let sb1 = MachState { pc: 1, ..st };
        assert(op_step(b, st) == Step::Next(sb1));
        assert(op_run(b, st, f) == op_run(b, sb1, (f - 1) as nat));
        assert(op_run(b, sb1, (f - 1) as nat) == Outcome::Done(sb1));
        assert(m == sb1);
        let sa1 = MachState { pc: 3, ..st };
        assert(op_step(a, st) == Step::Next(sa1));
        assert(op_run(a, st, 1) == op_run(a, sa1, 0));
        assert(op_run(a, sa1, 0) == Outcome::Done(sa1));
        assert(sa1 == MachState { pc: 3, ..m });
    } else {
        assert(n <= st.ptr) by {
            if !(n <= st.ptr) {
                assert(op_step(b, st) == Step::Fail(ExecError::PointerOutOfRange));
                assert(op_run(b, st, f) == Outcome::Failed(ExecError::PointerOutOfRange, st));
            }
        }
        let sb2 = MachState { ptr: (st.ptr - n) as nat, ..st };
        assert(op_step(b, st) == Step::Next(sb2));
        assert(op_run(b, st, f) == op_run(b, sb2, (f - 1) as nat));
        lemma_scan_ptr_left_transparent(n, sb2, (f - 1) as nat, m);
        let f2 = choose|f2: nat|
            op_run(a, sb2, f2) == Outcome::Done(MachState { pc: 3, ..m });
        assert(f2 > 0);
        // From `sb2` at the loop head and at the backward branch, the very
        // next configuration is the same, so the two runs coincide from
        // fuel one on.
        let sa_head = sb2;
        let sa_back = MachState { pc: 2, ..sb2 };
        assert(op_step(a, sa_head) == op_step(a, sa_back));
        assert(op_run(a, sa_back, f2) == op_run(a, sa_head, f2));
        let sa1 = MachState { pc: 1, ..st };
        assert(op_step(a, st) == Step::Next(sa1));
        assert(op_step(a, sa1) == Step::Next(sa_back));
        assert(op_run(a, st, f2 + 2) == op_run(a, sa1, f2 + 1));
        assert(op_run(a, sa1, f2 + 1) == op_run(a, sa_back, f2));
        assert(op_run(a, st, f2 + 2) == Outcome::Done(MachState { pc: 3, ..m }));
    }
}

/// Law (loop-optimizer transparency, pointer-scan shape, rightward, failing
/// runs): whenever the fused [`Op::LoopMovePtr`] runs off the tape, the
/// generic scan loop fails with the same error, the same output produced,
/// and the same configuration up to the program counter.
pub proof fn lemma_scan_ptr_transparent_fail(n: usize, st: MachState, f: nat, m: MachState)
    requires
        1 <= n <= isize::MAX as usize,
        st.pc == 0,
        st.tape.len() == TAPE_LEN,
        st.ptr < TAPE_LEN,
        op_run(seq![Op::LoopMovePtr(n as isize)], st, f) == Outcome::Failed(
            ExecError::PointerOutOfRange,
            m,
        ),
    ensures
        exists|f2: nat|
            op_run(scan_loop_ops(n), st, f2) == Outcome::Failed(
                ExecError::PointerOutOfRange,
                MachState { pc: 1, ..m },
            ),
    decreases f,
{
    let a = scan_loop_ops(n);
    let b = seq![Op::LoopMovePtr(n as isize)];
    assert(f > 0);
    let v = st.tape[st.ptr as int];
    if v == 0 {
        let sb1 = MachState { pc: 1, ..st };
        assert(op_step(b, st) == Step::Next(sb1));
        assert(op_run(b, st, f) == op_run(b, sb1, (f - 1) as nat));
        assert(op_run(b, sb1, (f - 1) as nat) == Outcome::Done(sb1));
    } else if !(st.ptr + n < TAPE_LEN) {
        assert(op_step(b, st) == Step::Fail(ExecError::PointerOutOfRange));
        assert(op_run(b, st, f) == Outcome::Failed(ExecError::PointerOutOfRange, st));
        assert(m == st);
        let sa1 = MachState { pc: 1, ..st };
        assert(op_step(a, st) == Step::Next(sa1));
        assert(op_step(a, sa1) == Step::Fail(ExecError::PointerOutOfRange));
        assert(op_run(a, st, 2) == op_run(a, sa1, 1));
        assert(op_run(a, sa1, 1) == Outcome::Failed(ExecError::PointerOutOfRange, sa1));
        assert(sa1 == MachState { pc: 1, ..m });
    } else {
        let sb2 = MachState { ptr: (st.ptr + n) as nat, ..st };
        assert(op_step(b, st) == Step::Next(sb2));
        assert(op_run(b, st, f) == op_run(b, sb2, (f - 1) as nat));
        lemma_scan_ptr_transparent_fail(n, sb2, (f - 1) as nat, m);
        let f2 = choose|f2: nat|
            op_run(a, sb2, f2) == Outcome::Failed(
                ExecError::PointerOutOfRange,
                MachState { pc: 1, ..m },
            );
        assert(f2 > 0);
        let sa_back = MachState { pc: 2, ..sb2 };
        assert(op_step(a, sb2) == op_step(a, sa_back));
        assert(op_run(a, sa_back, f2) == op_run(a, sb2, f2)) by {
            match op_step(a, sb2) {
                Step::Next(s2) => {
                    assert(op_run(a, sa_back, f2) == op_run(a, s2, (f2 - 1) as nat));
                    assert(op_run(a, sb2, f2) == op_run(a, s2, (f2 - 1) as nat));
                },
                Step::Fail(_) => {},
            }
        }
        let sa1 = MachState { pc: 1, ..st };
        assert(op_step(a, st) == Step::Next(sa1));
        assert(op_step(a, sa1) == Step::Next(sa_back));
        assert(op_run(a, st, f2 + 2) == op_run(a, sa1, f2 + 1));
        assert(op_run(a, sa1, f2 + 1) == op_run(a, sa_back, f2));
        assert(op_run(a, st, f2 + 2) == Outcome::Failed(
            ExecError::PointerOutOfRange,
            MachState { pc: 1, ..m },
        ));
    }
}

/// Law (loop-optimizer transparency, pointer-scan shape, leftward, failing
/// runs): the mirror image of [`lemma_scan_ptr_transparent_fail`].
pub proof fn lemma_scan_ptr_left_transparent_fail(n: usize, st: MachState, f: nat, m: MachState)
    requires
        1 <= n <= isize::MAX as usize,
        st.pc == 0,
        st.tape.len() == TAPE_LEN,
        st.ptr < TAPE_LEN,
        op_run(seq![Op::LoopMovePtr((-(n as isize)) as isize)], st, f) == Outcome::Failed(
            ExecError::PointerOutOfRange,
            m,
        ),
    ensures
        exists|f2: nat|
            op_run(scan_loop_ops_left(n), st, f2) == Outcome::Failed(
                ExecError::PointerOutOfRange,
                MachState { pc: 1, ..m },
            ),
    decreases f,
{
    let a = scan_loop_ops_left(n);
    let b = seq![Op::LoopMovePtr((-(n as isize)) as isize)];
    assert(f > 0);
    let v = st.tape[st.ptr as int];
    if v == 0 {
        let sb1 = MachState { pc: 1, ..st };
        assert(op_step(b, st) == Step::Next(sb1));
        assert(op_run(b, st, f) == op_run(b, sb1, (f - 1) as nat));
        assert(op_run(b, sb1, (f - 1) as nat) == Outcome::Done(sb1));
    } else if !(n <= st.ptr) {
        assert(op_step(b, st) == Step::Fail(ExecError::PointerOutOfRange));
        assert(op_run(b, st, f) == Outcome::Failed(ExecError::PointerOutOfRange, st));
        assert(m == st);
        let sa1 = MachState { pc: 1, ..st };
        assert(op_step(a, st) == Step::Next(sa1));
        assert(op_step(a, sa1) == Step::Fail(ExecError::PointerOutOfRange));
        assert(op_run(a, st, 2) == op_run(a, sa1, 1));
        assert(op_run(a, sa1, 1) == Outcome::Failed(ExecError::PointerOutOfRange, sa1));
        assert(sa1 == MachState { pc: 1, ..m });
    } else {
        let sb2 = MachState { ptr: (st.ptr - n) as nat, ..st };
        assert(op_step(b, st) == Step::Next(sb2));
        assert(op_run(b, st, f) == op_run(b, sb2, (f - 1) as nat));
        lemma_scan_ptr_left_transparent_fail(n, sb2, (f - 1) as nat, m);
        let f2 = choose|f2: nat|
            op_run(a, sb2, f2) == Outcome::Failed(
                ExecError::PointerOutOfRange,
                MachState { pc: 1, ..m },
            );
        assert(f2 > 0);
        let sa_back = MachState { pc: 2, ..sb2 };
        assert(op_step(a, sb2) == op_step(a, sa_back));
        assert(op_run(a, sa_back, f2) == op_run(a, sb2, f2)) by {
            match op_step(a, sb2) {
                Step::Next(s2) => {
                    assert(op_run(a, sa_back, f2) == op_run(a, s2, (f2 - 1) as nat));
                    assert(op_run(a, sb2, f2) == op_run(a, s2, (f2 - 1) as nat));
                },
                Step::Fail(_) => {},
            }
        }
        let sa1 = MachState { pc: 1, ..st };
        assert(op_step(a, st) == Step::Next(sa1));
        assert(op_step(a, sa1) == Step::Next(sa_back));
        assert(op_run(a, st, f2 + 2) == op_run(a, sa1, f2 + 1));
        assert(op_run(a, sa1, f2 + 1) == op_run(a, sa_back, f2));
        assert(op_run(a, st, f2 + 2) == Outcome::Failed(
            ExecError::PointerOutOfRange,
            MachState { pc: 1, ..m },
        ));
    }
}

/// Whether the stream holds no bracket instruction at all: such a program
/// is loop-free.
pub open spec fn no_brackets(prog: Seq<u8>) -> bool {
    forall|j: int| 0 <= j < prog.len() ==> !is_bracket(#[trigger] prog[j])
}

/// Every byte inside a run equals the run's byte.
proof fn lemma_run_length_covers(insts: Seq<u8>, x: u8, p: int)
    requires
        0 <= p <= insts.len(),
    ensures
        forall|j: int| p <= j < p + run_length(insts, x, p) ==> insts[j] == x,
    decreases insts.len() - p,
{
    if p < insts.len() && insts[p] == x {
        lemma_run_length_covers(insts, x, p + 1);
    }
}

/// The run-length encoding of a loop-free instruction stream from `pos`:
/// one operation per maximal run.
pub open spec fn rle_ops(prog: Seq<u8>, pos: int) -> Seq<Op>
    decreases prog.len() - pos,
    via rle_ops_decreases
{
    if pos < 0 || pos >= prog.len() {
        Seq::empty()
    } else {
        let c = prog[pos];
        let len = 1 + run_length(prog, c, pos + 1);
        let op = if c == OP_RIGHT {
            seq![Op::IncPtr(len as usize)]
        } else if c == OP_LEFT {
            seq![Op::DecPtr(len as usize)]
        } else if c == OP_INC {
            seq![Op::IncData(len as usize)]
        } else if c == OP_DEC {
            seq![Op::DecData(len as usize)]
        } else if c == OP_IN {
            seq![Op::ReadStdin(len as usize)]
        } else if c == OP_OUT {
            seq![Op::WriteStdout(len as usize)]
        } else {
            Seq::empty()
        };
        op + rle_ops(prog, pos + len)
    }
}

#[via_fn]
proof fn rle_ops_decreases(prog: Seq<u8>, pos: int) {
    if 0 <= pos && pos < prog.len() {
        lemma_run_length_bound(prog, prog[pos], pos + 1);
    }
}

/// On a loop-free stream the translator produces exactly the run-length
/// encoding, appended to whatever it has built so far.
proof fn lemma_translate_loop_free(prog: Seq<u8>, pos: int, ops: Seq<Op>, opt: bool)
    requires
        no_brackets(prog),
        0 <= pos <= prog.len(),
    ensures
        translate_rec(prog, pos, Seq::empty(), ops, opt) == Some(ops + rle_ops(prog, pos)),
    decreases prog.len() - pos,
{
    if pos >= prog.len() {
        assert(ops + rle_ops(prog, pos) =~= ops);
    } else {
        let c = prog[pos];
        let len = 1 + run_length(prog, c, pos + 1);
        lemma_run_length_bound(prog, c, pos + 1);
        assert(!is_bracket(c));
        let ops2 = if c == OP_RIGHT {
            ops.push(Op::IncPtr(len as usize))
        } else if c == OP_LEFT {
            ops.push(Op::DecPtr(len as usize))
        } else if c == OP_INC {
            ops.push(Op::IncData(len as usize))
        } else if c == OP_DEC {
            ops.push(Op::DecData(len as usize))
        } else if c == OP_IN {
            ops.push(Op::ReadStdin(len as usize))
        } else if c == OP_OUT {
            ops.push(Op::WriteStdout(len as usize))
        } else {
            ops
        };
        lemma_translate_loop_free(prog, pos + len, ops2, opt);
        assert(ops2 + rle_ops(prog, pos + len) =~= ops + rle_ops(prog, pos));
    }
}

/// A run of `n` pointer-right instructions moves the pointer `n` cells in
/// `n` naive-machine steps.
proof fn lemma_bytes_right(prog: Seq<u8>, jt: Seq<usize>, st: MachState, n: nat)
    requires
        st.pc + n <= prog.len(),
        forall|j: int| st.pc <= j < st.pc + n ==> prog[j] == OP_RIGHT,
        st.ptr + n < TAPE_LEN,
    ensures
        forall|f: nat|
            f >= n ==> byte_run(prog, jt, st, f) == byte_run(
                prog,
                jt,
                MachState { pc: (st.pc + n) as nat, ptr: (st.ptr + n) as nat, ..st },
                (f - n) as nat,
            ),
    decreases n,
{
    if n == 0 {
        assert(MachState { pc: (st.pc + 0) as nat, ptr: (st.ptr + 0) as nat, ..st } == st);
    } else {
        let st1 = MachState { pc: st.pc + 1, ptr: (st.ptr + 1) as nat, ..st };
        assert(byte_step(prog, jt, st) == Step::Next(st1));
        lemma_bytes_right(prog, jt, st1, (n - 1) as nat);
        assert(forall|f: nat|
            f >= n ==> byte_run(prog, jt, st, f) == byte_run(prog, jt, st1, (f - 1) as nat));
    }
}

/// A run of `n` pointer-left instructions moves the pointer `n` cells in
/// `n` naive-machine steps.
proof fn lemma_bytes_left(prog: Seq<u8>, jt: Seq<usize>, st: MachState, n: nat)
    requires
        st.pc + n <= prog.len(),
        forall|j: int| st.pc <= j < st.pc + n ==> prog[j] == OP_LEFT,
        n <= st.ptr,
    ensures
        forall|f: nat|
            f >= n ==> byte_run(prog, jt, st, f) == byte_run(
                prog,
                jt,
                MachState { pc: (st.pc + n) as nat, ptr: (st.ptr - n) as nat, ..st },
                (f - n) as nat,
            ),
    decreases n,
{
    if n == 0 {
        assert(MachState { pc: (st.pc + 0) as nat, ptr: (st.ptr - 0) as nat, ..st } == st);
    } else {
        let st1 = MachState { pc: st.pc + 1, ptr: (st.ptr - 1) as nat, ..st };
        assert(byte_step(prog, jt, st) == Step::Next(st1));
        lemma_bytes_left(prog, jt, st1, (n - 1) as nat);
        assert(forall|f: nat|
            f >= n ==> byte_run(prog, jt, st, f) == byte_run(prog, jt, st1, (f - 1) as nat));
    }
}

/// A run of `n` increments adds `n` to the current cell (wrapping) in `n`
/// naive-machine steps.
proof fn lemma_bytes_inc(prog: Seq<u8>, jt: Seq<usize>, st: MachState, n: nat)
    requires
        st.pc + n <= prog.len(),
        forall|j: int| st.pc <= j < st.pc + n ==> prog[j] == OP_INC,
        st.ptr < st.tape.len(),
    ensures
        forall|f: nat|
            f >= n ==> byte_run(prog, jt, st, f) == byte_run(
                prog,
                jt,
                MachState {
                    pc: (st.pc + n) as nat,
                    tape: st.tape.update(st.ptr as int, wrap_add(st.tape[st.ptr as int], n)),
                    ..st
                },
                (f - n) as nat,
            ),
    decreases n,
{
    let v = st.tape[st.ptr as int];
    if n == 0 {
        vstd::arithmetic::div_mod::lemma_small_mod(v as nat, 256);
        assert(st.tape.update(st.ptr as int, wrap_add(v, 0)) =~= st.tape);
        assert(MachState {
            pc: (st.pc + 0) as nat,
            tape: st.tape.update(st.ptr as int, wrap_add(v, 0)),
            ..st
        } == st);
    } else {
        let st1 = MachState { pc: st.pc + 1, tape: st.tape.update(st.ptr as int, wrap_add(v, 1)), ..st };
        assert(byte_step(prog, jt, st) == Step::Next(st1));
        lemma_bytes_inc(prog, jt, st1, (n - 1) as nat);
        assert(wrap_add(wrap_add(v, 1), (n - 1) as nat) == wrap_add(v, n)) by {
            vstd::arithmetic::div_mod::lemma_add_mod_noop_right(
                (v + 1) % 256,
                n - 1,
                256,
            );
            vstd::arithmetic::div_mod::lemma_add_mod_noop(v + 1, n - 1, 256);
            vstd::arithmetic::div_mod::lemma_mod_twice(n - 1, 256);
        }
        assert(st1.tape.update(st.ptr as int, wrap_add(wrap_add(v, 1), (n - 1) as nat)) =~= st.tape.update(
            st.ptr as int,
            wrap_add(v, n),
        ));
        assert(forall|f: nat|
            f >= n ==> byte_run(prog, jt, st, f) == byte_run(prog, jt, st1, (f - 1) as nat));
    }
}

/// A run of `n` decrements subtracts `n` from the current cell (wrapping)
/// in `n` naive-machine steps.
proof fn lemma_bytes_dec(prog: Seq<u8>, jt: Seq<usize>, st: MachState, n: nat)
    requires
        st.pc + n <= prog.len(),
        forall|j: int| st.pc <= j < st.pc + n ==> prog[j] == OP_DEC,
        st.ptr < st.tape.len(),
    ensures
        forall|f: nat|
            f >= n ==> byte_run(prog, jt, st, f) == byte_run(
                prog,
                jt,
                MachState {
                    pc: (st.pc + n) as nat,
                    tape: st.tape.update(st.ptr as int, wrap_sub(st.tape[st.ptr as int], n)),
                    ..st
                },
                (f - n) as nat,
            ),
    decreases n,
{
    let v = st.tape[st.ptr as int];
    if n == 0 {
        vstd::arithmetic::div_mod::lemma_small_mod(v as nat, 256);
        assert(st.tape.update(st.ptr as int, wrap_sub(v, 0)) =~= st.tape);
        assert(MachState {
            pc: (st.pc + 0) as nat,
            tape: st.tape.update(st.ptr as int, wrap_sub(v, 0)),
            ..st
        } == st);
    } else {
        let st1 = MachState { pc: st.pc + 1, tape: st.tape.update(st.ptr as int, wrap_sub(v, 1)), ..st };
        assert(byte_step(prog, jt, st) == Step::Next(st1));
        lemma_bytes_dec(prog, jt, st1, (n - 1) as nat);
        assert(wrap_sub(wrap_sub(v, 1), (n - 1) as nat) == wrap_sub(v, n)) by {
            vstd::arithmetic::div_mod::lemma_sub_mod_noop_right(
                (v - 1) % 256,
                n - 1,
                256,
            );
            vstd::arithmetic::div_mod::lemma_sub_mod_noop(v - 1, n - 1, 256);
            vstd::arithmetic::div_mod::lemma_mod_twice(n - 1, 256);
        }
        assert(st1.tape.update(st.ptr as int, wrap_sub(wrap_sub(v, 1), (n - 1) as nat)) =~= st.tape.update(
            st.ptr as int,
            wrap_sub(v, n),
        ));
        assert(forall|f: nat|
            f >= n ==> byte_run(prog, jt, st, f) == byte_run(prog, jt, st1, (f - 1) as nat));
    }
}

/// A run of `n` reads consumes `n` input bytes, leaving the last one in the
/// current cell, in `n` naive-machine steps.
proof fn lemma_bytes_read(prog: Seq<u8>, jt: Seq<usize>, st: MachState, n: nat)
    requires
        st.pc + n <= prog.len(),
        forall|j: int| st.pc <= j < st.pc + n ==> prog[j] == OP_IN,
        st.ptr < st.tape.len(),
        1 <= n <= st.input.len(),
    ensures
        forall|f: nat|
            f >= n ==> byte_run(prog, jt, st, f) == byte_run(
                prog,
                jt,
                MachState {
                    pc: (st.pc + n) as nat,
                    tape: st.tape.update(st.ptr as int, st.input[n - 1]),
                    input: st.input.skip(n as int),
                    ..st
                },
                (f - n) as nat,
            ),
    decreases n,
{
    let st1 = MachState {
        pc: st.pc + 1,
        tape: st.tape.update(st.ptr as int, st.input[0]),
        input: st.input.skip(1),
        ..st
    };
    assert(byte_step(prog, jt, st) == Step::Next(st1));
    if n == 1 {
        assert(forall|f: nat|
            f >= 1 ==> byte_run(prog, jt, st, f) == byte_run(prog, jt, st1, (f - 1) as nat));
    } else {
        lemma_bytes_read(prog, jt, st1, (n - 1) as nat);
        assert(st1.input[n - 2] == st.input[n - 1]);
        assert(st1.tape.update(st.ptr as int, st1.input[n - 2]) =~= st.tape.update(
            st.ptr as int,
            st.input[n - 1],
        ));
        assert(st1.input.skip(n - 1) =~= st.input.skip(n as int));
        assert(forall|f: nat|
            f >= n ==> byte_run(prog, jt, st, f) == byte_run(prog, jt, st1, (f - 1) as nat));
    }
}

/// A run of `n` writes appends `n` copies of the current cell in `n`
/// naive-machine steps.
proof fn lemma_bytes_write(prog: Seq<u8>, jt: Seq<usize>, st: MachState, n: nat)
    requires
        st.pc + n <= prog.len(),
        forall|j: int| st.pc <= j < st.pc + n ==> prog[j] == OP_OUT,
        st.ptr < st.tape.len(),
    ensures
        forall|f: nat|
            f >= n ==> byte_run(prog, jt, st, f) == byte_run(
                prog,
                jt,
                MachState {
                    pc: (st.pc + n) as nat,
                    output: st.output + Seq::new(n, |i: int| st.tape[st.ptr as int]),
                    ..st
                },
                (f - n) as nat,
            ),
    decreases n,
{
    let cell = st.tape[st.ptr as int];
    if n == 0 {
        assert(st.output + Seq::new(0, |i: int| cell) =~= st.output);
        assert(MachState {
            pc: (st.pc + 0) as nat,
            output: st.output + Seq::new(0, |i: int| cell),
            ..st
        } == st);
    } else {
        let st1 = MachState { pc: st.pc + 1, output: st.output.push(cell), ..st };
        assert(byte_step(prog, jt, st) == Step::Next(st1));
        lemma_bytes_write(prog, jt, st1, (n - 1) as nat);
        assert(st1.output + Seq::new((n - 1) as nat, |i: int| cell) =~= st.output + Seq::new(
            n,
            |i: int| cell,
        ));
        assert(forall|f: nat|
            f >= n ==> byte_run(prog, jt, st, f) == byte_run(prog, jt, st1, (f - 1) as nat));
    }
}

/// The simulation behind the loop-free equivalence law: whenever the
/// operation machine finishes the run-length encoding of the stream from
/// source position `pos` on, the naive machine finishes the stream from the
/// aligned configuration with the very same tape, pointer, input and
/// output.
#[verifier::rlimit(50)]
proof fn lemma_rle_simulation(
    prog: Seq<u8>,
    jt: Seq<usize>,
    ops: Seq<Op>,
    pos: int,
    st: MachState,
    fo: nat,
    mo: MachState,
)
    requires
        prog.len() <= usize::MAX,
        no_brackets(prog),
        all_instructions(prog),
        0 <= pos <= prog.len(),
        0 <= st.pc <= ops.len(),
        ops.skip(st.pc as int) == rle_ops(prog, pos),
        st.ptr < TAPE_LEN,
        st.tape.len() == TAPE_LEN,
        op_run(ops, st, fo) == Outcome::Done(mo),
    ensures
        exists|fb: nat|
            #[trigger] byte_run(prog, jt, MachState { pc: pos as nat, ..st }, fb)
                == Outcome::Done(MachState { pc: prog.len(), ..mo }),
    decreases fo,
{
    let sb = MachState { pc: pos as nat, ..st };
    if st.pc >= ops.len() {
        assert(mo == st);
        assert(rle_ops(prog, pos).len() == 0);
        assert(pos >= prog.len()) by {
            if pos < prog.len() {
                assert(is_instruction(prog[pos]));
                assert(rle_ops(prog, pos).len() >= 1);
            }
        }
        assert(byte_run(prog, jt, sb, 0) == Outcome::Done(sb));
        assert(sb == MachState { pc: prog.len(), ..mo });
    } else {
        assert(fo > 0);
        assert(pos < prog.len()) by {
            if pos >= prog.len() {
                assert(rle_ops(prog, pos).len() == 0);
                assert(ops.skip(st.pc as int).len() >= 1);
            }
        }
        let c = prog[pos];
        let n = 1 + run_length(prog, c, pos + 1);
        lemma_run_length_bound(prog, c, pos + 1);
        lemma_run_length_covers(prog, c, pos + 1);
        assert(forall|j: int| pos <= j < pos + n ==> prog[j] == c);
        let tail = rle_ops(prog, pos + n);
        assert(is_instruction(c) && !is_bracket(c));
        let op = ops[st.pc as int];
        assert(ops.skip(st.pc as int)[0] == ops[st.pc as int]);
        let v = st.tape[st.ptr as int];
        if c == OP_RIGHT {
            assert(rle_ops(prog, pos) =~= seq![Op::IncPtr(n as usize)] + tail);
            assert((seq![Op::IncPtr(n as usize)] + tail)[0] == Op::IncPtr(n as usize));
            assert(op == Op::IncPtr(n as usize));
            assert(ops.skip(st.pc as int + 1) =~= tail) by {
                assert forall|i: int| 0 <= i < tail.len() implies ops.skip(st.pc as int + 1)[i]
                    == tail[i] by {
                    assert((seq![Op::IncPtr(n as usize)] + tail)[i + 1] == tail[i]);
                    assert(ops.skip(st.pc as int)[i + 1] == ops[st.pc as int + 1 + i]);
                    assert(ops.skip(st.pc as int + 1)[i] == ops[st.pc as int + 1 + i]);
                }
            }
            assert(st.ptr + n < TAPE_LEN) by {
                if !(st.ptr + n < TAPE_LEN) {
                    assert(op_step(ops, st) == Step::Fail(ExecError::PointerOutOfRange));
                }
            }
            let st2 = MachState { pc: st.pc + 1, ptr: (st.ptr + n) as nat, ..st };
            assert(op_step(ops, st) == Step::Next(st2));
            assert(op_run(ops, st, fo) == op_run(ops, st2, (fo - 1) as nat));
            lemma_rle_simulation(prog, jt, ops, pos + n, st2, (fo - 1) as nat, mo);
            let fb = choose|fb: nat|
                #[trigger] byte_run(prog, jt, MachState { pc: (pos + n) as nat, ..st2 }, fb)
                    == Outcome::Done(MachState { pc: prog.len(), ..mo });
            lemma_bytes_right(prog, jt, sb, n);
            assert(MachState { pc: (sb.pc + n) as nat, ptr: (sb.ptr + n) as nat, ..sb }
                == MachState { pc: (pos + n) as nat, ..st2 });
            assert(byte_run(prog, jt, sb, fb + n) == Outcome::Done(
                MachState { pc: prog.len(), ..mo },
            ));
        } else if c == OP_LEFT {
            assert(rle_ops(prog, pos) =~= seq![Op::DecPtr(n as usize)] + tail);
            assert((seq![Op::DecPtr(n as usize)] + tail)[0] == Op::DecPtr(n as usize));
            assert(op == Op::DecPtr(n as usize));
            assert(ops.skip(st.pc as int + 1) =~= tail) by {
                assert forall|i: int| 0 <= i < tail.len() implies ops.skip(st.pc as int + 1)[i]
                    == tail[i] by {
                    assert((seq![Op::DecPtr(n as usize)] + tail)[i + 1] == tail[i]);
                    assert(ops.skip(st.pc as int)[i + 1] == ops[st.pc as int + 1 + i]);
                    assert(ops.skip(st.pc as int + 1)[i] == ops[st.pc as int + 1 + i]);
                }
            }
            assert(n <= st.ptr) by {
                if !(n <= st.ptr) {
                    assert(op_step(ops, st) == Step::Fail(ExecError::PointerOutOfRange));
                }
            }
            let st2 = MachState { pc: st.pc + 1, ptr: (st.ptr - n) as nat, ..st };
            assert(op_step(ops, st) == Step::Next(st2));
            assert(op_run(ops, st, fo) == op_run(ops, st2, (fo - 1) as nat));
            lemma_rle_simulation(prog, jt, ops, pos + n, st2, (fo - 1) as nat, mo);
            let fb = choose|fb: nat|
                #[trigger] byte_run(prog, jt, MachState { pc: (pos + n) as nat, ..st2 }, fb)
                    == Outcome::Done(MachState { pc: prog.len(), ..mo });
            lemma_bytes_left(prog, jt, sb, n);
            assert(MachState { pc: (sb.pc + n) as nat, ptr: (sb.ptr - n) as nat, ..sb }
                == MachState { pc: (pos + n) as nat, ..st2 });
            assert(byte_run(prog, jt, sb, fb + n) == Outcome::Done(
                MachState { pc: prog.len(), ..mo },
            ));
        } else if c == OP_INC {
            assert(rle_ops(prog, pos) =~= seq![Op::IncData(n as usize)] + tail);
            assert((seq![Op::IncData(n as usize)] + tail)[0] == Op::IncData(n as usize));
            assert(op == Op::IncData(n as usize));
            assert(ops.skip(st.pc as int + 1) =~= tail) by {
                assert forall|i: int| 0 <= i < tail.len() implies ops.skip(st.pc as int + 1)[i]
                    == tail[i] by {
                    assert((seq![Op::IncData(n as usize)] + tail)[i + 1] == tail[i]);
                    assert(ops.skip(st.pc as int)[i + 1] == ops[st.pc as int + 1 + i]);
                    assert(ops.skip(st.pc as int + 1)[i] == ops[st.pc as int + 1 + i]);
                }
            }
            let st2 = MachState { pc: st.pc + 1, tape: st.tape.update(st.ptr as int, wrap_add(v, n)), ..st };
            assert(op_step(ops, st) == Step::Next(st2));
            assert(op_run(ops, st, fo) == op_run(ops, st2, (fo - 1) as nat));
            lemma_rle_simulation(prog, jt, ops, pos + n, st2, (fo - 1) as nat, mo);
            let fb = choose|fb: nat|
                #[trigger] byte_run(prog, jt, MachState { pc: (pos + n) as nat, ..st2 }, fb)
                    == Outcome::Done(MachState { pc: prog.len(), ..mo });
            lemma_bytes_inc(prog, jt, sb, n);
            assert(MachState {
                pc: (sb.pc + n) as nat,
                tape: sb.tape.update(sb.ptr as int, wrap_add(sb.tape[sb.ptr as int], n)),
                ..sb
            } == MachState { pc: (pos + n) as nat, ..st2 });
            assert(byte_run(prog, jt, sb, fb + n) == Outcome::Done(
                MachState { pc: prog.len(), ..mo },
            ));
        } else if c == OP_DEC {
            assert(rle_ops(prog, pos) =~= seq![Op::DecData(n as usize)] + tail);
            assert((seq![Op::DecData(n as usize)] + tail)[0] == Op::DecData(n as usize));
            assert(op == Op::DecData(n as usize));
            assert(ops.skip(st.pc as int + 1) =~= tail) by {
                assert forall|i: int| 0 <= i < tail.len() implies ops.skip(st.pc as int + 1)[i]
                    == tail[i] by {
                    assert((seq![Op::DecData(n as usize)] + tail)[i + 1] == tail[i]);
                    assert(ops.skip(st.pc as int)[i + 1] == ops[st.pc as int + 1 + i]);
                    assert(ops.skip(st.pc as int + 1)[i] == ops[st.pc as int + 1 + i]);
                }
            }
            let st2 = MachState { pc: st.pc + 1, tape: st.tape.update(st.ptr as int, wrap_sub(v, n)), ..st };
            assert(op_step(ops, st) == Step::Next(st2));
            assert(op_run(ops, st, fo) == op_run(ops, st2, (fo - 1) as nat));
            lemma_rle_simulation(prog, jt, ops, pos + n, st2, (fo - 1) as nat, mo);
            let fb = choose|fb: nat|
                #[trigger] byte_run(prog, jt, MachState { pc: (pos + n) as nat, ..st2 }, fb)
                    == Outcome::Done(MachState { pc: prog.len(), ..mo });
            lemma_bytes_dec(prog, jt, sb, n);
            assert(MachState {
                pc: (sb.pc + n) as nat,
                tape: sb.tape.update(sb.ptr as int, wrap_sub(sb.tape[sb.ptr as int], n)),
                ..sb
            } == MachState { pc: (pos + n) as nat, ..st2 });
            assert(byte_run(prog, jt, sb, fb + n) == Outcome::Done(
                MachState { pc: prog.len(), ..mo },
            ));
        } else if c == OP_IN {
            assert(rle_ops(prog, pos) =~= seq![Op::ReadStdin(n as usize)] + tail);
            assert((seq![Op::ReadStdin(n as usize)] + tail)[0] == Op::ReadStdin(n as usize));
            assert(op == Op::ReadStdin(n as usize));
            assert(ops.skip(st.pc as int + 1) =~= tail) by {
                assert forall|i: int| 0 <= i < tail.len() implies ops.skip(st.pc as int + 1)[i]
                    == tail[i] by {
                    assert((seq![Op::ReadStdin(n as usize)] + tail)[i + 1] == tail[i]);
                    assert(ops.skip(st.pc as int)[i + 1] == ops[st.pc as int + 1 + i]);
                    assert(ops.skip(st.pc as int + 1)[i] == ops[st.pc as int + 1 + i]);
                }
            }
            assert(n <= st.input.len()) by {
                if !(n <= st.input.len()) {
                    assert(op_step(ops, st) == Step::Fail(ExecError::InputUnavailable));
                }
            }
            let st2 = MachState {
                pc: st.pc + 1,
                tape: st.tape.update(st.ptr as int, st.input[n - 1]),
                input: st.input.skip(n as int),
                ..st
            };
            assert(op_step(ops, st) == Step::Next(st2));
            assert(op_run(ops, st, fo) == op_run(ops, st2, (fo - 1) as nat));
            lemma_rle_simulation(prog, jt, ops, pos + n, st2, (fo - 1) as nat, mo);
            let fb = choose|fb: nat|
                #[trigger] byte_run(prog, jt, MachState { pc: (pos + n) as nat, ..st2 }, fb)
                    == Outcome::Done(MachState { pc: prog.len(), ..mo });
            lemma_bytes_read(prog, jt, sb, n);
            assert(MachState {
                pc: (sb.pc + n) as nat,
                tape: sb.tape.update(sb.ptr as int, sb.input[n - 1]),
                input: sb.input.skip(n as int),
                ..sb
            } == MachState { pc: (pos + n) as nat, ..st2 });
            assert(byte_run(prog, jt, sb, fb + n) == Outcome::Done(
                MachState { pc: prog.len(), ..mo },
            ));
        } else {
            assert(c == OP_OUT);
            assert(rle_ops(prog, pos) =~= seq![Op::WriteStdout(n as usize)] + tail);
            assert((seq![Op::WriteStdout(n as usize)] + tail)[0] == Op::WriteStdout(n as usize));
            assert(op == Op::WriteStdout(n as usize));
            assert(ops.skip(st.pc as int + 1) =~= tail) by {
                assert forall|i: int| 0 <= i < tail.len() implies ops.skip(st.pc as int + 1)[i]
                    == tail[i] by {
                    assert((seq![Op::WriteStdout(n as usize)] + tail)[i + 1] == tail[i]);
                    assert(ops.skip(st.pc as int)[i + 1] == ops[st.pc as int + 1 + i]);
                    assert(ops.skip(st.pc as int + 1)[i] == ops[st.pc as int + 1 + i]);
                }
            }
            let st2 = MachState {
                pc: st.pc + 1,
                output: st.output + Seq::new(n, |i: int| v),
                ..st
            };
            assert(op_step(ops, st) == Step::Next(st2));
            assert(op_run(ops, st, fo) == op_run(ops, st2, (fo - 1) as nat));
            lemma_rle_simulation(prog, jt, ops, pos + n, st2, (fo - 1) as nat, mo);
            let fb = choose|fb: nat|
                #[trigger] byte_run(prog, jt, MachState { pc: (pos + n) as nat, ..st2 }, fb)
                    == Outcome::Done(MachState { pc: prog.len(), ..mo });
            lemma_bytes_write(prog, jt, sb, n);
            assert(sb.output + Seq::new(n, |i: int| sb.tape[sb.ptr as int]) =~= st2.output);
            assert(MachState {
                pc: (sb.pc + n) as nat,
                output: sb.output + Seq::new(n, |i: int| sb.tape[sb.ptr as int]),
                ..sb
            } == MachState { pc: (pos + n) as nat, ..st2 });
            assert(byte_run(prog, jt, sb, fb + n) == Outcome::Done(
                MachState { pc: prog.len(), ..mo },
            ));
        }
    }
}

/// Law (cross-strategy equivalence, loop-free programs): on a filtered
/// stream with no brackets, whenever the run-length operation strategy
/// finishes within some budget, the naive strategy finishes with exactly
/// the same tape, pointer, remaining input and output. Together with
/// [`lemma_strategies_agree_without_loops`] this covers all three
/// interpreters on loop-free programs; the general case with loops is
/// exercised by tests rather than proved.
pub proof fn lemma_naive_matches_ops_loop_free(
    prog: Seq<u8>,
    jt: Seq<usize>,
    ops: Seq<Op>,
    input: Seq<u8>,
    fo: nat,
    mo: MachState,
)
    requires
        prog.len() <= usize::MAX,
        no_brackets(prog),
        all_instructions(prog),
        translate_spec(prog, false) == Some(ops),
        op_run(ops, init_state(input), fo) == Outcome::Done(mo),
    ensures
        exists|fb: nat|
            #[trigger] byte_run(prog, jt, init_state(input), fb) == Outcome::Done(
                MachState { pc: prog.len(), ..mo },
            ),
{
    lemma_translate_loop_free(prog, 0, Seq::empty(), false);
    assert(ops =~= rle_ops(prog, 0));
    let st = init_state(input);
    assert(st.tape.len() == TAPE_LEN);
    assert(ops.skip(0) =~= rle_ops(prog, 0));
    lemma_rle_simulation(prog, jt, ops, 0, st, fo, mo);
    assert(MachState { pc: 0nat, ..st } == st);
}

} // verus!
