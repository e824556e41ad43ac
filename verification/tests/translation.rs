use brainfuck::error::ExecError;
use brainfuck::instr::filter_instructions;
use brainfuck::jumptable::create_jumptable;
use brainfuck::ops::optimize_loop;
use brainfuck::ops::translate_program;
use brainfuck::ops::Op;

#[test]
fn filter_keeps_only_instructions() {
    let r = filter_instructions(b"a+b- c . hello , [world]><!");
    assert_eq!(r, b"+-.,[]><".to_vec());
    assert_eq!(filter_instructions(b""), Vec::<u8>::new());
    assert_eq!(filter_instructions(b"comment only"), Vec::<u8>::new());
}

#[test]
fn translation_is_idempotent() {
    let s = b"++++++++[>++++++++<-]>+.,[-][->+<]";
    for opt in [false, true] {
        let a = translate_program(s, opt).unwrap();
        let b = translate_program(s, opt).unwrap();
        assert_eq!(a, b);
    }
}

#[test]
fn runs_collapse_to_one_operation() {
    let ops = translate_program(b"+++>>..,,,<-", false).unwrap();
    assert_eq!(
        ops,
        vec![
            Op::IncData(3),
            Op::IncPtr(2),
            Op::WriteStdout(2),
            Op::ReadStdin(3),
            Op::DecPtr(1),
            Op::DecData(1),
        ]
    );
}

#[test]
fn branch_pair_targets() {
    let ops = translate_program(b"[-]", false).unwrap();
    assert_eq!(
        ops,
        vec![Op::JumpIfDataIsZero(2), Op::DecData(1), Op::JumpIfDataIsNotZero(0)]
    );
}

#[test]
fn translation_rejects_unbalanced() {
    assert_eq!(translate_program(b"[", false), Err(ExecError::MalformedProgram));
    assert_eq!(translate_program(b"]", false), Err(ExecError::MalformedProgram));
    assert_eq!(translate_program(b"[[]", true), Err(ExecError::MalformedProgram));
}

#[test]
fn optimizer_recognizes_zero_cell() {
    let ops = vec![Op::JumpIfDataIsZero(0), Op::DecData(3)];
    assert_eq!(optimize_loop(&ops, 0), Some(Op::LoopSetToZero));
    let ops = vec![Op::JumpIfDataIsZero(0), Op::IncData(1)];
    assert_eq!(optimize_loop(&ops, 0), Some(Op::LoopSetToZero));
}

#[test]
fn optimizer_recognizes_pointer_scan() {
    let ops = vec![Op::JumpIfDataIsZero(0), Op::IncPtr(4)];
    assert_eq!(optimize_loop(&ops, 0), Some(Op::LoopMovePtr(4)));
    let ops = vec![Op::JumpIfDataIsZero(0), Op::DecPtr(2)];
    assert_eq!(optimize_loop(&ops, 0), Some(Op::LoopMovePtr(-2)));
}

#[test]
fn optimizer_recognizes_cell_transfer() {
    let ops = vec![
        Op::JumpIfDataIsZero(0),
        Op::DecData(1),
        Op::IncPtr(2),
        Op::IncData(1),
        Op::DecPtr(2),
    ];
    assert_eq!(optimize_loop(&ops, 0), Some(Op::LoopMoveData(2)));
    let ops = vec![
        Op::JumpIfDataIsZero(0),
        Op::DecData(1),
        Op::DecPtr(3),
        Op::IncData(1),
        Op::IncPtr(3),
    ];
    assert_eq!(optimize_loop(&ops, 0), Some(Op::LoopMoveData(-3)));
}

#[test]
fn optimizer_leaves_other_shapes_alone() {
    let ops = vec![Op::JumpIfDataIsZero(0), Op::WriteStdout(1)];
    assert_eq!(optimize_loop(&ops, 0), None);
    let ops = vec![
        Op::JumpIfDataIsZero(0),
        Op::DecData(1),
        Op::IncPtr(2),
        Op::IncData(1),
        Op::DecPtr(3),
    ];
    assert_eq!(optimize_loop(&ops, 0), None);
    let ops = vec![
        Op::JumpIfDataIsZero(0),
        Op::DecData(2),
        Op::IncPtr(1),
        Op::IncData(1),
        Op::DecPtr(1),
    ];
    assert_eq!(optimize_loop(&ops, 0), None);
}

#[test]
fn optimized_translation_fuses_loops() {
    assert_eq!(translate_program(b"[-]", true).unwrap(), vec![Op::LoopSetToZero]);
    assert_eq!(translate_program(b"[>>]", true).unwrap(), vec![Op::LoopMovePtr(2)]);
    assert_eq!(translate_program(b"[->+<]", true).unwrap(), vec![Op::LoopMoveData(1)]);
    assert_eq!(translate_program(b"[-<+>]", true).unwrap(), vec![Op::LoopMoveData(-1)]);
    // An unrecognized body keeps the generic branch pair.
    assert_eq!(
        translate_program(b"[.]", true).unwrap(),
        vec![Op::JumpIfDataIsZero(2), Op::WriteStdout(1), Op::JumpIfDataIsNotZero(0)]
    );
}

#[test]
fn jump_table_round_trips() {
    let prog = filter_instructions(b"++[>[-]<[->+<]]");
    let jt = create_jumptable(&prog).unwrap();
    assert_eq!(jt.len(), prog.len());
    for (i, &c) in prog.iter().enumerate() {
        if c == b'[' || c == b']' {
            assert_eq!(jt[jt[i]], i);
            if c == b'[' {
                assert!(jt[i] > i);
                assert_eq!(prog[jt[i]], b']');
            } else {
                assert!(jt[i] < i);
                assert_eq!(prog[jt[i]], b'[');
            }
        }
    }
    assert_eq!(create_jumptable(&b"[][]".to_vec()).unwrap(), vec![1, 0, 3, 2]);
    assert_eq!(create_jumptable(&b"[[]]".to_vec()).unwrap(), vec![3, 2, 1, 0]);
}

#[test]
fn jump_table_rejects_unbalanced() {
    assert_eq!(create_jumptable(&b"[".to_vec()), Err(ExecError::MalformedProgram));
    assert_eq!(create_jumptable(&b"]".to_vec()), Err(ExecError::MalformedProgram));
    assert_eq!(create_jumptable(&b"][".to_vec()), Err(ExecError::MalformedProgram));
    assert_eq!(create_jumptable(&b"[]]".to_vec()), Err(ExecError::MalformedProgram));
}
