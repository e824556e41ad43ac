//! The bracket matcher: a symmetric jump table over a filtered instruction
//! stream, built once before the naive interpreter runs.
//!
//! Index `i` of the table holds the position of the partner of the bracket
//! at `i`; entries at non-bracket positions are unused and stay zero.
//! Construction fails — before any execution — exactly when the brackets do
//! not balance.
use vstd::prelude::*;

use crate::error::ExecError;
use crate::instr::is_bracket;
use crate::instr::OP_CLOSE;
use crate::instr::OP_OPEN;

verus! {

/// One left-to-right pass from position `p`: `stack` holds the positions of
/// the open brackets not yet matched, `jt` the table built so far. Every
/// closing bracket pairs with the nearest unmatched opening one and the two
/// entries are recorded symmetrically. `None` means the brackets do not
/// balance.
pub open spec fn build_jt(prog: Seq<u8>, p: int, stack: Seq<usize>, jt: Seq<usize>) -> Option<
    Seq<usize>,
>
    decreases prog.len() - p,
{
    if p < 0 || p >= prog.len() {
        if stack.len() == 0 {
            Some(jt)
        } else {
            None
        }
    } else if prog[p] == OP_OPEN {
        build_jt(prog, p + 1, stack.push(p as usize), jt)
    } else if prog[p] == OP_CLOSE {
        if stack.len() == 0 {
            None
        } else {
            build_jt(
                prog,
                p + 1,
                stack.drop_last(),
                jt.update(stack.last() as int, p as usize).update(p, stack.last()),
            )
        }
    } else {
        build_jt(prog, p + 1, stack, jt)
    }
}

/// The jump table of a filtered instruction stream, or `None` when its
/// brackets do not balance.
pub open spec fn jumptable_spec(prog: Seq<u8>) -> Option<Seq<usize>> {
    build_jt(prog, 0, Seq::empty(), Seq::new(prog.len(), |i: int| 0usize))
}

/// Whether the brackets of `prog` balance: every opening bracket has a
/// matching closing one at a greater index, correctly nested.
pub open spec fn balanced(prog: Seq<u8>) -> bool {
    jumptable_spec(prog) is Some
}

/// What a correct jump table promises: it has one entry per instruction,
/// every bracket's entry points at its partner of the opposite kind on the
/// proper side, and following an entry twice leads back to where it started.
pub open spec fn jt_matched(prog: Seq<u8>, jt: Seq<usize>) -> bool {
    &&& jt.len() == prog.len()
    &&& forall|i: int|
        0 <= i < prog.len() && is_bracket(prog[i]) ==> {
            let j = (#[trigger] jt[i]) as int;
            &&& 0 <= j < prog.len()
            &&& jt[j] == i
            &&& (prog[i] == OP_OPEN ==> prog[j] == OP_CLOSE && i < j)
            &&& (prog[i] == OP_CLOSE ==> prog[j] == OP_OPEN && j < i)
        }
}

/// The invariant that one pass of [`build_jt`] maintains: stack entries are
/// strictly increasing positions of open brackets before `p`, and every
/// bracket before `p` that is not still on the stack is already matched in
/// `jt` with its partner, symmetrically.
spec fn build_inv(prog: Seq<u8>, p: int, stack: Seq<usize>, jt: Seq<usize>) -> bool {
    &&& prog.len() <= usize::MAX
    &&& jt.len() == prog.len()
    &&& 0 <= p <= prog.len()
    &&& forall|k: int|
        0 <= k < stack.len() ==> (#[trigger] stack[k]) < p && prog[stack[k] as int] == OP_OPEN
    &&& forall|k1: int, k2: int| 0 <= k1 < k2 < stack.len() ==> stack[k1] < stack[k2]
    &&& forall|i: int|
        0 <= i < p && is_bracket(prog[i]) && !stack.contains(i as usize) ==> {
            let j = (#[trigger] jt[i]) as int;
            &&& 0 <= j < p
            &&& jt[j] == i
            &&& !stack.contains(j as usize)
            &&& (prog[i] == OP_OPEN ==> prog[j] == OP_CLOSE && i < j)
            &&& (prog[i] == OP_CLOSE ==> prog[j] == OP_OPEN && j < i)
        }
}

/// If a pass that satisfies its invariant completes, the finished table
/// matches every bracket (in particular `jt[jt[i]] == i` for every bracket
/// index `i`).
proof fn lemma_build_jt_matched(prog: Seq<u8>, p: int, stack: Seq<usize>, jt: Seq<usize>)
    requires
        build_inv(prog, p, stack, jt),
        build_jt(prog, p, stack, jt) is Some,
    ensures
        jt_matched(prog, build_jt(prog, p, stack, jt).unwrap()),
    decreases prog.len() - p,
{
    if p >= prog.len() {
        assert(stack.len() == 0);
        assert forall|i: int| 0 <= i < prog.len() && is_bracket(prog[i]) implies {
            let j = (#[trigger] jt[i]) as int;
            &&& 0 <= j < prog.len()
            &&& jt[j] == i
            &&& (prog[i] == OP_OPEN ==> prog[j] == OP_CLOSE && i < j)
            &&& (prog[i] == OP_CLOSE ==> prog[j] == OP_OPEN && j < i)
        } by {
            assert(!stack.contains(i as usize));
        }
    } else if prog[p] == OP_OPEN {
        let stack2 = stack.push(p as usize);
        assert(forall|k: int|
            0 <= k < stack.len() ==> (#[trigger] stack2[k]) == stack[k]);
        assert(stack2[stack2.len() - 1] == p as usize);
        assert forall|k1: int, k2: int| 0 <= k1 < k2 < stack2.len() implies stack2[k1]
            < stack2[k2] by {
            if k2 == stack.len() {
                assert(stack2[k1] == stack[k1]);
                assert(stack2[k2] == p as usize);
            }
        }
        assert forall|i: int|
            0 <= i < p + 1 && is_bracket(prog[i]) && !stack2.contains(i as usize) implies {
            let j = (#[trigger] jt[i]) as int;
            &&& 0 <= j < p + 1
            &&& jt[j] == i
            &&& !stack2.contains(j as usize)
            &&& (prog[i] == OP_OPEN ==> prog[j] == OP_CLOSE && i < j)
            &&& (prog[i] == OP_CLOSE ==> prog[j] == OP_OPEN && j < i)
        } by {
            assert(i != p) by {
                if i == p {
                    assert(stack2.contains(i as usize));
                }
            }
            assert(!stack.contains(i as usize)) by {
                if stack.contains(i as usize) {
                    let k = choose|k: int| 0 <= k < stack.len() && stack[k] == i as usize;
                    assert(stack2[k] == i as usize);
                    assert(stack2.contains(i as usize));
                }
            }
            let j = jt[i] as int;
            assert(!stack.contains(j as usize));
            assert(j != p);
            assert(!stack2.contains(j as usize)) by {
                if stack2.contains(j as usize) {
                    let k = choose|k: int| 0 <= k < stack2.len() && stack2[k] == j as usize;
                    if k < stack.len() {
                        assert(stack[k] == j as usize);
                        assert(stack.contains(j as usize));
                    } else {
                        assert(stack2[k] == p as usize);
                    }
                }
            }
        }
        assert(build_inv(prog, p + 1, stack2, jt));
        lemma_build_jt_matched(prog, p + 1, stack2, jt);
    } else if prog[p] == OP_CLOSE {
        assert(stack.len() > 0);
        let o = stack.last();
        let stack2 = stack.drop_last();
        let jt2 = jt.update(o as int, p as usize).update(p, o);
        assert(o < p && prog[o as int] == OP_OPEN);
        assert forall|i: int|
            0 <= i < p + 1 && is_bracket(prog[i]) && !stack2.contains(i as usize) implies {
            let j = (#[trigger] jt2[i]) as int;
            &&& 0 <= j < p + 1
            &&& jt2[j] == i
            &&& !stack2.contains(j as usize)
            &&& (prog[i] == OP_OPEN ==> prog[j] == OP_CLOSE && i < j)
            &&& (prog[i] == OP_CLOSE ==> prog[j] == OP_OPEN && j < i)
        } by {
            if i == o as int {
                assert(jt2[i] == p as usize);
                assert(jt2[p] == o);
                assert(!stack2.contains(p as usize));
                assert(!stack2.contains(o as usize)) by {
                    if stack2.contains(o as usize) {
                        let k = choose|k: int|
                            0 <= k < stack2.len() && stack2[k] == o;
                        assert(stack[k] == o);
                        assert(stack[k] < stack[stack.len() - 1]);
                    }
                }
            } else if i == p {
                assert(jt2[p] == o);
                assert(jt2[o as int] == p as usize);
                assert(!stack2.contains(o as usize)) by {
                    if stack2.contains(o as usize) {
                        let k = choose|k: int|
                            0 <= k < stack2.len() && stack2[k] == o;
                        assert(stack[k] == o);
                        assert(stack[k] < stack[stack.len() - 1]);
                    }
                }
            } else {
                assert(!stack.contains(i as usize)) by {
                    if stack.contains(i as usize) {
                        let k = choose|k: int|
                            0 <= k < stack.len() && stack[k] == i;
                        if k < stack.len() - 1 {
                            assert(stack2[k] == i as usize);
                        }
                    }
                }
                let j = jt[i] as int;
                assert(0 <= j < p && jt[j] == i && !stack.contains(j as usize));
                assert(j != o as int && j != p);
                assert(jt2[i] == jt[i] && jt2[j] == jt[j]);
                assert(!stack2.contains(j as usize)) by {
                    if stack2.contains(j as usize) {
                        let k = choose|k: int|
                            0 <= k < stack2.len() && stack2[k] == j;
                        assert(stack[k] == j);
                    }
                }
            }
        }
        assert(build_inv(prog, p + 1, stack2, jt2)) by {
            assert(forall|k: int|
                0 <= k < stack2.len() ==> (#[trigger] stack2[k]) == stack[k]);
        }
        lemma_build_jt_matched(prog, p + 1, stack2, jt2);
    } else {
        assert(build_inv(prog, p + 1, stack, jt));
        lemma_build_jt_matched(prog, p + 1, stack, jt);
    }
}

/// The table built for a balanced stream matches every bracket: for every
/// bracket index `i`, `jt[i]` is the partner of the opposite kind on the
/// proper side, and `jt[jt[i]] == i`.
pub proof fn lemma_jumptable_matched(prog: Seq<u8>)
    requires
        balanced(prog),
        prog.len() <= usize::MAX,
    ensures
        jt_matched(prog, jumptable_spec(prog).unwrap()),
{
    let jt0 = Seq::new(prog.len(), |i: int| 0usize);
    assert(build_inv(prog, 0, Seq::empty(), jt0));
    lemma_build_jt_matched(prog, 0, Seq::empty(), jt0);
}

/// Builds the jump table for a filtered instruction stream: both indices of
/// every bracket pair are recorded symmetrically. Fails exactly when the
/// brackets do not balance, before any execution.
pub fn create_jumptable(instructions: &Vec<u8>) -> (r: Result<Vec<usize>, ExecError>)
    ensures
        match r {
            Ok(jt) => jumptable_spec(instructions@) == Some(jt@),
            Err(e) => {
                &&& e == ExecError::MalformedProgram
                &&& !balanced(instructions@)
            },
        },
{
    let program_size = instructions.len();
    let mut jumptable: Vec<usize> = Vec::new();
    while jumptable.len() < program_size
        invariant
            jumptable@.len() <= program_size,
            forall|i: int| 0 <= i < jumptable@.len() ==> jumptable@[i] == 0usize,
        decreases program_size - jumptable@.len(),
    {
        jumptable.push(0);
    }
    proof {
        assert(jumptable@ =~= Seq::new(instructions@.len(), |i: int| 0usize));
    }
    let mut stack: Vec<usize> = Vec::new();
    let mut pc: usize = 0;
    while pc < program_size
        invariant
            program_size == instructions@.len(),
            pc <= program_size,
            jumptable@.len() == program_size,
            build_jt(instructions@, pc as int, stack@, jumptable@) == jumptable_spec(
                instructions@,
            ),
            forall|k: int| 0 <= k < stack@.len() ==> (#[trigger] stack@[k]) < pc,
        decreases program_size - pc,
    {
        let ghost pc0 = pc as int;
        let ghost stack0 = stack@;
        let ghost jt0 = jumptable@;
        let c = instructions[pc];
        if c == OP_OPEN {
            stack.push(pc);
        } else if c == OP_CLOSE {
            match stack.pop() {
                None => {
                    proof {
                        assert(build_jt(instructions@, pc0, stack0, jt0) is None);
                    }
                    return Err(ExecError::MalformedProgram);
                },
                Some(open_pos) => {
                    jumptable[open_pos] = pc;
                    jumptable[pc] = open_pos;
                    proof {
                        assert(stack0.last() == open_pos);
                        assert(stack@ =~= stack0.drop_last());
                        assert(jumptable@ =~= jt0.update(open_pos as int, pc as usize).update(
                            pc0,
                            open_pos,
                        ));
                    }
                },
            }
        }
        pc = pc + 1;
        proof {
            assert(build_jt(instructions@, pc0, stack0, jt0) == build_jt(
                instructions@,
                pc as int,
                stack@,
                jumptable@,
            ));
        }
    }
    if stack.len() == 0 {
        Ok(jumptable)
    } else {
        Err(ExecError::MalformedProgram)
    }
}

} // verus!
