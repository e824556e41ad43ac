use brainfuck::emitter::compute_relative_32bit_offset;
use brainfuck::emitter::emit_program;
use brainfuck::emitter::CodeEmitter;
use brainfuck::error::ExecError;

#[test]
fn relative_offsets_encode_two_s_complement() {
    assert_eq!(compute_relative_32bit_offset(0, 16), Ok(16));
    assert_eq!(compute_relative_32bit_offset(10, 4), Ok(0xFFFF_FFFA));
    assert_eq!(compute_relative_32bit_offset(5, 5), Ok(0));
    assert_eq!(compute_relative_32bit_offset(0, 0x7FFF_FFFF), Ok(0x7FFF_FFFF));
}

#[test]
fn relative_offsets_reject_wide_jumps() {
    assert_eq!(
        compute_relative_32bit_offset(0, 0x8000_0000),
        Err(ExecError::CodeGenLimit)
    );
    assert_eq!(compute_relative_32bit_offset(0x8000_0000, 0), Ok(0x8000_0000));
    assert_eq!(
        compute_relative_32bit_offset(0x8000_0001, 0),
        Err(ExecError::CodeGenLimit)
    );
}

#[test]
fn emitter_appends_bytes_in_order() {
    let mut e = CodeEmitter::new();
    assert_eq!(e.size(), 0);
    e.emit_byte(0xC3);
    e.emit_bytes(&[1, 2, 3]);
    e.emit_u32(0x0403_0201);
    e.emit_u64(0x0807_0605_0403_0201);
    assert_eq!(e.size(), 16);
    let code = e.into_code();
    assert_eq!(
        code,
        vec![0xC3, 1, 2, 3, 1, 2, 3, 4, 1, 2, 3, 4, 5, 6, 7, 8]
    );
}

#[test]
fn emitter_patches_placeholders() {
    let mut e = CodeEmitter::new();
    e.emit_u32(0);
    e.emit_byte(0xFF);
    e.replace_u32_at_offset(0, 0x0403_0201);
    assert_eq!(e.into_code(), vec![1, 2, 3, 4, 0xFF]);
}

#[test]
fn empty_program_emits_prologue_and_ret() {
    let code = emit_program(b"", 0x1122_3344_5566_7788).unwrap();
    assert_eq!(
        code,
        vec![0x49, 0xBD, 0x88, 0x77, 0x66, 0x55, 0x44, 0x33, 0x22, 0x11, 0xC3]
    );
}

#[test]
fn instructions_emit_their_fixed_sequences() {
    let code = emit_program(b"><+-", 0).unwrap();
    let mut expected = vec![0x49, 0xBD, 0, 0, 0, 0, 0, 0, 0, 0];
    expected.extend_from_slice(&[0x49, 0xFF, 0xC5]);
    expected.extend_from_slice(&[0x49, 0xFF, 0xCD]);
    expected.extend_from_slice(&[0x41, 0x80, 0x45, 0x00, 0x01]);
    expected.extend_from_slice(&[0x41, 0x80, 0x6D, 0x00, 0x01]);
    expected.push(0xC3);
    assert_eq!(code, expected);
}

#[test]
fn comment_bytes_emit_nothing() {
    assert_eq!(emit_program(b"a b c", 7), emit_program(b"", 7));
}

#[test]
fn bracket_pair_back_patches_both_jumps() {
    let code = emit_program(b"[]", 0).unwrap();
    // Prologue: 10 bytes. `[`: cmp at 10..15, jz at 15..17, placeholder at
    // 17..21. `]`: cmp at 21..26, jnz at 26..28, displacement at 28..32.
    // Ret at 32. Both jumps span 11 bytes: forward from the end of the jz
    // (21) to 32, backward from the end of the jnz (32) to 21.
    assert_eq!(code.len(), 33);
    assert_eq!(&code[15..17], &[0x0F, 0x84]);
    assert_eq!(&code[17..21], &[11, 0, 0, 0]);
    assert_eq!(&code[26..28], &[0x0F, 0x85]);
    assert_eq!(&code[28..32], &[0xF5, 0xFF, 0xFF, 0xFF]);
    assert_eq!(code[32], 0xC3);
}

#[test]
fn emission_rejects_unbalanced_brackets() {
    assert_eq!(emit_program(b"[", 0), Err(ExecError::MalformedProgram));
    assert_eq!(emit_program(b"]", 0), Err(ExecError::MalformedProgram));
    assert_eq!(emit_program(b"[[]", 0), Err(ExecError::MalformedProgram));
}

#[test]
fn io_instructions_emit_syscalls() {
    let code = emit_program(b".", 0).unwrap();
    // write(1, r13, 1): rax=1, rdi=1, rsi=r13, rdx=1, syscall.
    assert_eq!(&code[10..17], &[0x48, 0xC7, 0xC0, 0x01, 0x00, 0x00, 0x00]);
    assert_eq!(&code[17..24], &[0x48, 0xC7, 0xC7, 0x01, 0x00, 0x00, 0x00]);
    assert_eq!(&code[24..27], &[0x4C, 0x89, 0xEE]);
    assert_eq!(&code[27..34], &[0x48, 0xC7, 0xC2, 0x01, 0x00, 0x00, 0x00]);
    assert_eq!(&code[34..36], &[0x0F, 0x05]);
    let code = emit_program(b",", 0).unwrap();
    // read(0, r13, 1): rax=0, rdi=0, rsi=r13, rdx=1, syscall.
    assert_eq!(&code[10..17], &[0x48, 0xC7, 0xC0, 0x00, 0x00, 0x00, 0x00]);
    assert_eq!(&code[17..24], &[0x48, 0xC7, 0xC7, 0x00, 0x00, 0x00, 0x00]);
    assert_eq!(&code[24..27], &[0x4C, 0x89, 0xEE]);
    assert_eq!(&code[27..34], &[0x48, 0xC7, 0xC2, 0x01, 0x00, 0x00, 0x00]);
    assert_eq!(&code[34..36], &[0x0F, 0x05]);
}
