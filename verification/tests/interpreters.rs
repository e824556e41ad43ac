use brainfuck::error::ExecError;
use brainfuck::interp::run;
use brainfuck::interp::run_default;
use brainfuck::interp::Brainfuck;
use brainfuck::interp::Interpreter1;
use brainfuck::interp::Interpreter2;
use brainfuck::interp::Interpreter3;

const BUDGET: u64 = 10_000_000;

#[test]
fn brainfuck_simple_test() {
    let mut out = Vec::new();
    run_default(b"", &[] as &[u8], &mut out, BUDGET).unwrap();
    assert_eq!(out, b"");

    let s = br"
++++++++ ++++++++ ++++++++ ++++++++ ++++++++ ++++++++
>+++++
[<+.>-]
";
    let mut out = Vec::new();
    run_default(s, &[] as &[u8], &mut out, BUDGET).unwrap();
    assert_eq!(out, b"12345");
}

#[test]
fn lib_simple_test() {
    let mut out = Vec::new();
    brainfuck::run(b"", &[] as &[u8], &mut out, BUDGET).unwrap();
    assert_eq!(out, b"");

    let s = br"
++++++++ ++++++++ ++++++++ ++++++++ ++++++++ ++++++++
>+++++
[<+.>-]
";
    let mut out = Vec::new();
    brainfuck::run(s, &[] as &[u8], &mut out, BUDGET).unwrap();
    assert_eq!(out, b"12345");
}

fn run_with(strategy: u64, s: &[u8], input: &[u8]) -> Result<Vec<u8>, ExecError> {
    let mut out = Vec::new();
    run(s, input, &mut out, Some(strategy), BUDGET)?;
    Ok(out)
}

#[test]
fn empty_program_empty_input() {
    for strategy in 1..=3u64 {
        let out = run_with(strategy, b"", b"").unwrap();
        assert_eq!(out, b"");
    }
}

#[test]
fn letter_a_under_every_strategy() {
    let s = b"++++++++[>++++++++<-]>+.";
    for strategy in 1..=3u64 {
        let out = run_with(strategy, s, b"").unwrap();
        assert_eq!(out, vec![65u8]);
    }
    let mut out = Vec::new();
    run(s, b"", &mut out, None, BUDGET).unwrap();
    assert_eq!(out, vec![65u8]);
}

#[test]
fn echo_one_byte() {
    for strategy in 1..=3u64 {
        let out = run_with(strategy, b",.", b"X").unwrap();
        assert_eq!(out, b"X");
    }
}

#[test]
fn echo_without_input_fails() {
    for strategy in 1..=3u64 {
        let mut out = Vec::new();
        let r = run(b",.", b"", &mut out, Some(strategy), BUDGET);
        assert_eq!(r, Err(ExecError::InputUnavailable));
        assert_eq!(out, b"");
    }
}

#[test]
fn decrement_loop_zeroes_cell() {
    // Cell starts at 200 (read from input); the loop must end with it zero
    // under both generic and optimized execution.
    for strategy in 2..=3u64 {
        let out = run_with(strategy, b",[-].", &[200u8]).unwrap();
        assert_eq!(out, vec![0u8]);
    }
}

#[test]
fn transfer_loop_moves_cell() {
    // Source cell 5, destination cell 0: the source ends 0 and the
    // destination ends 5, under both generic and optimized execution.
    for strategy in 2..=3u64 {
        let out = run_with(strategy, b",[->+<].>.", &[5u8]).unwrap();
        assert_eq!(out, vec![0u8, 5u8]);
    }
}

#[test]
fn unmatched_open_bracket_fails_before_output() {
    for strategy in 1..=3u64 {
        let mut out = Vec::new();
        let r = run(b".[", b"", &mut out, Some(strategy), BUDGET);
        assert_eq!(r, Err(ExecError::MalformedProgram));
        assert_eq!(out, b"");
    }
}

#[test]
fn unmatched_close_bracket_fails() {
    for strategy in 1..=3u64 {
        let mut out = Vec::new();
        let r = run(b"]", b"", &mut out, Some(strategy), BUDGET);
        assert_eq!(r, Err(ExecError::MalformedProgram));
        assert_eq!(out, b"");
    }
}

#[test]
fn pointer_below_tape_fails() {
    for strategy in 1..=3u64 {
        let mut out = Vec::new();
        let r = run(b"<", b"", &mut out, Some(strategy), BUDGET);
        assert_eq!(r, Err(ExecError::PointerOutOfRange));
    }
}

#[test]
fn pointer_past_tape_end_fails() {
    let s = vec![b'>'; brainfuck::semantics::TAPE_LEN];
    for strategy in 1..=3u64 {
        let mut out = Vec::new();
        let r = run(&s, b"", &mut out, Some(strategy), BUDGET);
        assert_eq!(r, Err(ExecError::PointerOutOfRange));
    }
}

#[test]
fn step_budget_is_enforced() {
    for strategy in 1..=3u64 {
        let mut out = Vec::new();
        let r = run(b"+[]", b"", &mut out, Some(strategy), 1000);
        assert_eq!(r, Err(ExecError::StepLimit));
    }
}

#[test]
fn even_step_loop_at_modulus_boundary() {
    // A decrement-by-two loop from an even cell terminates under both
    // engines; from an odd cell it never reaches zero, so only the fused
    // zero-cell form halts — the optimizer's documented assumption.
    for strategy in 2..=3u64 {
        let out = run_with(strategy, b",[--].", &[2u8]).unwrap();
        assert_eq!(out, vec![0u8]);
    }
    let out = run_with(3, b",[--].", &[1u8]).unwrap();
    assert_eq!(out, vec![0u8]);
    let mut out = Vec::new();
    let r = run(b",[--].", &[1u8], &mut out, Some(2), 100_000);
    assert_eq!(r, Err(ExecError::StepLimit));
}

#[test]
fn scan_loop_matches_generic_run() {
    // `[>]` scans right to the next zero cell under both engines.
    for strategy in 2..=3u64 {
        let out = run_with(strategy, b",>,><<[>].", &[7u8, 9u8]).unwrap();
        assert_eq!(out, vec![0u8]);
    }
}

#[test]
fn interpreters_built_through_trait() {
    let s = b"++++++++[>++++++++<-]>+.";
    let mut out = Vec::new();
    Interpreter1::new(s).unwrap().run(b"", &mut out, BUDGET).unwrap();
    assert_eq!(out, vec![65u8]);
    let mut out = Vec::new();
    Interpreter2::new(s).unwrap().run(b"", &mut out, BUDGET).unwrap();
    assert_eq!(out, vec![65u8]);
    let mut out = Vec::new();
    Interpreter3::new(s).unwrap().run(b"", &mut out, BUDGET).unwrap();
    assert_eq!(out, vec![65u8]);
    assert!(Interpreter1::new(b"[").is_err());
    assert!(Interpreter2::new(b"[").is_err());
    assert!(Interpreter3::new(b"[").is_err());
}

#[test]
fn loop_free_program_agrees_across_strategies() {
    // Cross-strategy equivalence on a loop-free program: every interpreter
    // produces byte-identical output.
    let s = b"+++>++.<-.,.";
    let expected = vec![2u8, 2u8, 9u8];
    for strategy in 1..=3u64 {
        let out = run_with(strategy, s, &[9u8]).unwrap();
        assert_eq!(out, expected);
    }
}

#[test]
fn output_is_appended_in_order() {
    let mut out = vec![1u8, 2u8];
    run_default(b"+.+.", b"", &mut out, BUDGET).unwrap();
    assert_eq!(out, vec![1u8, 2u8, 1u8, 2u8]);
}
