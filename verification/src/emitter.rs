//! The native-code emitter: translates a filtered instruction stream
//! directly into x86-64 machine code for the System V AMD64 ABI, in a
//! single pass with symmetric back-patching of bracket jumps.
//!
//! This module only produces the code bytes, with an exact contract; the
//! surrounding program owns the one unsafe boundary that maps the buffer
//! executable and invokes it. The emitted function keeps the tape address
//! in one dedicated callee-saved register for its whole run, performs cell
//! I/O through raw `read`/`write` system calls on the standard descriptors,
//! and ends in a `ret`.
use vstd::prelude::*;

use crate::error::ExecError;
use crate::instr::OP_CLOSE;
use crate::instr::OP_DEC;
use crate::instr::OP_IN;
use crate::instr::OP_INC;
use crate::instr::OP_LEFT;
use crate::instr::OP_OPEN;
use crate::instr::OP_OUT;
use crate::instr::OP_RIGHT;

verus! {

/// The four bytes of `n`, least significant first.
pub open spec fn le_u32(n: u32) -> Seq<u8> {
    seq![
        (n & 0xFF) as u8,
        ((n >> 8) & 0xFF) as u8,
        ((n >> 16) & 0xFF) as u8,
        ((n >> 24) & 0xFF) as u8,
    ]
}

/// The eight bytes of `n`, least significant first: the low word then the
/// high word, each little-endian.
pub open spec fn le_u64(n: u64) -> Seq<u8> {
    le_u32((n & 0xFFFF_FFFF) as u32) + le_u32((n >> 32) as u32)
}

/// `code` with the four bytes at `offset` replaced by `n`, little-endian.
pub open spec fn patch32(code: Seq<u8>, offset: int, n: u32) -> Seq<u8> {
    code.update(offset, le_u32(n)[0]).update(offset + 1, le_u32(n)[1]).update(
        offset + 2,
        le_u32(n)[2],
    ).update(offset + 3, le_u32(n)[3])
}

/// The signed 32-bit relative displacement from `from` to `to`, as its
/// unsigned two's-complement encoding, or the code-generation-limit error
/// when the distance does not fit: a forward distance must stay below
/// 2^31, a backward one at most 2^31.
pub open spec fn rel32_spec(jump_from: int, jump_to: int) -> Result<u32, ExecError> {
    if jump_to > jump_from {
        if jump_to - jump_from < 0x8000_0000 {
            Ok((jump_to - jump_from) as u32)
        } else {
            Err(ExecError::CodeGenLimit)
        }
    } else {
        if jump_from - jump_to <= 0x8000_0000 {
            Ok(((0x1_0000_0000 - (jump_from - jump_to)) % 0x1_0000_0000) as u32)
        } else {
            Err(ExecError::CodeGenLimit)
        }
    }
}

/// Computes the signed 32-bit relative displacement between two code
/// positions, in its unsigned two's-complement encoding. Fails with the
/// code-generation-limit error exactly when the distance does not fit the
/// encoding. The displacement depends only on the distance and direction,
/// so both positions may be shifted by the same amount.
pub fn compute_relative_32bit_offset(jump_from: usize, jump_to: usize) -> (r: Result<
    u32,
    ExecError,
>)
    ensures
        r == rel32_spec(jump_from as int, jump_to as int),
{
    if jump_to > jump_from {
        let diff = jump_to - jump_from;
        if diff < 0x8000_0000 {
            Ok(diff as u32)
        } else {
            Err(ExecError::CodeGenLimit)
        }
    } else {
        let diff = jump_from - jump_to;
        if diff <= 0x8000_0000 {
            let encoded: u64 = (0x1_0000_0000u64 - diff as u64) % 0x1_0000_0000u64;
            Ok(encoded as u32)
        } else {
            Err(ExecError::CodeGenLimit)
        }
    }
}

/// A growable machine-code buffer with the emission primitives the code
/// generator needs.
pub struct CodeEmitter {
    code: Vec<u8>,
}

impl View for CodeEmitter {
    type V = Seq<u8>;

    closed spec fn view(&self) -> Seq<u8> {
        self.code@
    }
}

impl CodeEmitter {
    /// An empty buffer.
    pub fn new() -> (r: CodeEmitter)
        ensures
            r@ == Seq::<u8>::empty(),
    {
        CodeEmitter { code: Vec::new() }
    }

    /// Appends one byte.
    pub fn emit_byte(&mut self, byte: u8)
        ensures
            final(self)@ == old(self)@.push(byte),
    {
        self.code.push(byte);
    }

    /// Appends a byte slice.
    pub fn emit_bytes(&mut self, bytes: &[u8])
        ensures
            final(self)@ == old(self)@ + bytes@,
    {
        let mut i: usize = 0;
        while i < bytes.len()
            invariant
                i <= bytes@.len(),
                self@ == old(self)@ + bytes@.take(i as int),
            decreases bytes@.len() - i,
        {
            self.code.push(bytes[i]);
            i = i + 1;
            proof {
                assert(self@ =~= old(self)@ + bytes@.take(i as int));
            }
        }
        proof {
            assert(old(self)@ + bytes@.take(bytes@.len() as int) =~= old(self)@ + bytes@);
        }
    }

    /// Appends two bytes.
    fn emit2(&mut self, a: u8, b: u8)
        ensures
            final(self)@ == old(self)@ + seq![a, b],
    {
        self.code.push(a);
        self.code.push(b);
        proof {
            assert(self@ =~= old(self)@ + seq![a, b]);
        }
    }

    /// Appends three bytes.
    fn emit3(&mut self, a: u8, b: u8, c: u8)
        ensures
            final(self)@ == old(self)@ + seq![a, b, c],
    {
        self.code.push(a);
        self.code.push(b);
        self.code.push(c);
        proof {
            assert(self@ =~= old(self)@ + seq![a, b, c]);
        }
    }

    /// Appends five bytes.
    fn emit5(&mut self, a: u8, b: u8, c: u8, d: u8, e: u8)
        ensures
            final(self)@ == old(self)@ + seq![a, b, c, d, e],
    {
        self.code.push(a);
        self.code.push(b);
        self.code.push(c);
        self.code.push(d);
        self.code.push(e);
        proof {
            assert(self@ =~= old(self)@ + seq![a, b, c, d, e]);
        }
    }

    /// Appends seven bytes.
    fn emit7(&mut self, a: u8, b: u8, c: u8, d: u8, e: u8, f: u8, g: u8)
        ensures
            final(self)@ == old(self)@ + seq![a, b, c, d, e, f, g],
    {
        self.code.push(a);
        self.code.push(b);
        self.code.push(c);
        self.code.push(d);
        self.code.push(e);
        self.code.push(f);
        self.code.push(g);
        proof {
            assert(self@ =~= old(self)@ + seq![a, b, c, d, e, f, g]);
        }
    }

    /// Appends `n`, little-endian.
    pub fn emit_u32(&mut self, n: u32)
        ensures
            final(self)@ == old(self)@ + le_u32(n),
    {
        self.code.push((n & 0xFF) as u8);
        self.code.push(((n >> 8) & 0xFF) as u8);
        self.code.push(((n >> 16) & 0xFF) as u8);
        self.code.push(((n >> 24) & 0xFF) as u8);
        proof {
            assert(self@ =~= old(self)@ + le_u32(n));
        }
    }

    /// Appends `n`, little-endian.
    pub fn emit_u64(&mut self, n: u64)
        ensures
            final(self)@ == old(self)@ + le_u64(n),
    {
        self.emit_u32((n & 0xFFFF_FFFF) as u32);
        self.emit_u32((n >> 32) as u32);
        proof {
            assert(self@ =~= old(self)@ + le_u64(n));
        }
    }

    /// The number of bytes emitted so far.
    pub fn size(&self) -> (r: usize)
        ensures
            r == self@.len(),
    {
        self.code.len()
    }

    /// The finished buffer.
    pub fn into_code(self) -> (r: Vec<u8>)
        ensures
            r@ == self@,
    {
        self.code
    }

    /// Replaces the four bytes at `offset` by `n`, little-endian: the
    /// back-patch of a forward branch placeholder.
    pub fn replace_u32_at_offset(&mut self, offset: usize, n: u32)
        requires
            offset + 4 <= old(self)@.len(),
        ensures
            final(self)@ == patch32(old(self)@, offset as int, n),
    {
        let len: usize = self.code.len();
        self.code[offset] = (n & 0xFF) as u8;
        self.code[offset + 1] = ((n >> 8) & 0xFF) as u8;
        self.code[offset + 2] = ((n >> 16) & 0xFF) as u8;
        self.code[offset + 3] = ((n >> 24) & 0xFF) as u8;
        proof {
            assert(self@ =~= patch32(old(self)@, offset as int, n));
        }
    }
}

/// `movabs <tape_addr>, %r13`: the prologue pins the tape base address in
/// the dedicated register.
pub open spec fn code_prologue(tape_addr: u64) -> Seq<u8> {
    seq![0x49u8, 0xBD] + le_u64(tape_addr)
}

/// `inc %r13`.
pub open spec fn code_inc_ptr() -> Seq<u8> {
    seq![0x49u8, 0xFF, 0xC5]
}

/// `dec %r13`.
pub open spec fn code_dec_ptr() -> Seq<u8> {
    seq![0x49u8, 0xFF, 0xCD]
}

/// `addb $1, 0(%r13)`.
pub open spec fn code_inc_data() -> Seq<u8> {
    seq![0x41u8, 0x80, 0x45, 0x00, 0x01]
}

/// `subb $1, 0(%r13)`.
pub open spec fn code_dec_data() -> Seq<u8> {
    seq![0x41u8, 0x80, 0x6D, 0x00, 0x01]
}

/// The `write` system call on descriptor 1 for the one byte at the data
/// pointer: `mov $1, %rax; mov $1, %rdi; mov %r13, %rsi; mov $1, %rdx;
/// syscall`.
pub open spec fn code_write_call() -> Seq<u8> {
    seq![0x48u8, 0xC7, 0xC0, 0x01, 0x00, 0x00, 0x00] + seq![
        0x48u8,
        0xC7,
        0xC7,
        0x01,
        0x00,
        0x00,
        0x00,
    ] + seq![0x4Cu8, 0x89, 0xEE] + seq![0x48u8, 0xC7, 0xC2, 0x01, 0x00, 0x00, 0x00] + seq![
        0x0Fu8,
        0x05,
    ]
}

/// The `read` system call on descriptor 0 into the one byte at the data
/// pointer: `mov $0, %rax; mov $0, %rdi; mov %r13, %rsi; mov $1, %rdx;
/// syscall`.
pub open spec fn code_read_call() -> Seq<u8> {
    seq![0x48u8, 0xC7, 0xC0, 0x00, 0x00, 0x00, 0x00] + seq![
        0x48u8,
        0xC7,
        0xC7,
        0x00,
        0x00,
        0x00,
        0x00,
    ] + seq![0x4Cu8, 0x89, 0xEE] + seq![0x48u8, 0xC7, 0xC2, 0x01, 0x00, 0x00, 0x00] + seq![
        0x0Fu8,
        0x05,
    ]
}

/// `cmpb $0, 0(%r13)`: emitted before either conditional bracket jump.
pub open spec fn code_cmp_cell() -> Seq<u8> {
    seq![0x41u8, 0x80, 0x7D, 0x00, 0x00]
}

/// The `jz` opcode of a forward bracket branch, followed by its 32-bit
/// displacement placeholder.
pub open spec fn code_jz_placeholder() -> Seq<u8> {
    seq![0x0Fu8, 0x84] + le_u32(0)
}

/// The emitter's single pass, from instruction `i` with code `code` emitted
/// so far and `stack` holding, for each open bracket not yet closed, the
/// buffer offset of its `jz` opcode. Produces the finished code (ending in
/// `ret`), the malformed-program error on unbalanced brackets, or the
/// code-generation-limit error when a displacement does not fit. Bytes that
/// are no instruction are skipped.
pub open spec fn jit_rec(insts: Seq<u8>, i: int, code: Seq<u8>, stack: Seq<usize>) -> Result<
    Seq<u8>,
    ExecError,
>
    decreases insts.len() - i,
{
    if i < 0 || i >= insts.len() {
        if stack.len() == 0 {
            Ok(code.push(0xC3))
        } else {
            Err(ExecError::MalformedProgram)
        }
    } else {
        let c = insts[i];
        if c == OP_RIGHT {
            jit_rec(insts, i + 1, code + code_inc_ptr(), stack)
        } else if c == OP_LEFT {
            jit_rec(insts, i + 1, code + code_dec_ptr(), stack)
        } else if c == OP_INC {
            jit_rec(insts, i + 1, code + code_inc_data(), stack)
        } else if c == OP_DEC {
            jit_rec(insts, i + 1, code + code_dec_data(), stack)
        } else if c == OP_OUT {
            jit_rec(insts, i + 1, code + code_write_call(), stack)
        } else if c == OP_IN {
            jit_rec(insts, i + 1, code + code_read_call(), stack)
        } else if c == OP_OPEN {
            jit_rec(
                insts,
                i + 1,
                code + code_cmp_cell() + code_jz_placeholder(),
                stack.push((code.len() + 5) as usize),
            )
        } else if c == OP_CLOSE {
            if stack.len() == 0 {
                Err(ExecError::MalformedProgram)
            } else {
                let open = stack.last();
                let code1 = code + code_cmp_cell();
                match rel32_spec(code1.len() as int, open as int) {
                    Err(e) => Err(e),
                    Ok(back) => {
                        let code2 = code1 + seq![0x0Fu8, 0x85] + le_u32(back);
                        match rel32_spec(open as int, code2.len() - 6) {
                            Err(e) => Err(e),
                            Ok(forward) => jit_rec(
                                insts,
                                i + 1,
                                patch32(code2, open + 2, forward),
                                stack.drop_last(),
                            ),
                        }
                    },
                }
            }
        } else {
            jit_rec(insts, i + 1, code, stack)
        }
    }
}

/// The machine code emitted for a filtered instruction stream, with the
/// tape base address baked into the prologue, or the error that stops
/// emission.
pub open spec fn jit_spec(insts: Seq<u8>, tape_addr: u64) -> Result<Seq<u8>, ExecError> {
    jit_rec(insts, 0, code_prologue(tape_addr), Seq::empty())
}

/// Emits one native function for the filtered instruction stream: prologue,
/// one fixed code sequence per instruction, a back-patched conditional
/// branch pair per bracket pair, and a final `ret`. Fails — before any code
/// could run — on unbalanced brackets or on a jump displacement that does
/// not fit its 32-bit encoding. `tape_addr` is the address of the tape the
/// caller allocates; the caller maps the returned bytes executable and
/// invokes them.
pub fn emit_program(instructions: &[u8], tape_addr: u64) -> (r: Result<Vec<u8>, ExecError>)
    ensures
        match r {
            Ok(code) => jit_spec(instructions@, tape_addr) == Ok::<Seq<u8>, ExecError>(code@),
            Err(e) => jit_spec(instructions@, tape_addr) == Err::<Seq<u8>, ExecError>(e),
        },
{
    let mut emitter = CodeEmitter::new();
    let mut open_bracket_stack: Vec<usize> = Vec::new();
    emitter.emit2(0x49, 0xBD);
    emitter.emit_u64(tape_addr);
    proof {
        assert(emitter@ =~= code_prologue(tape_addr));
    }
    let n = instructions.len();
    let mut i: usize = 0;
    while i < n
        invariant
            n == instructions@.len(),
            i <= n,
            jit_rec(instructions@, i as int, emitter@, open_bracket_stack@) == jit_spec(
                instructions@,
                tape_addr,
            ),
            forall|k: int|
                0 <= k < open_bracket_stack@.len() ==> (#[trigger] open_bracket_stack@[k]) + 6
                    <= emitter@.len(),
        decreases n - i,
    {
        let ghost i0 = i as int;
        let ghost stack0 = open_bracket_stack@;
        let ghost code0 = emitter@;
        let c = instructions[i];
        if c == OP_RIGHT {
            emitter.emit3(0x49, 0xFF, 0xC5);
        } else if c == OP_LEFT {
            emitter.emit3(0x49, 0xFF, 0xCD);
        } else if c == OP_INC {
            emitter.emit5(0x41, 0x80, 0x45, 0x00, 0x01);
        } else if c == OP_DEC {
            emitter.emit5(0x41, 0x80, 0x6D, 0x00, 0x01);
        } else if c == OP_OUT {
            emitter.emit7(0x48, 0xC7, 0xC0, 0x01, 0x00, 0x00, 0x00);
            emitter.emit7(0x48, 0xC7, 0xC7, 0x01, 0x00, 0x00, 0x00);
            emitter.emit3(0x4C, 0x89, 0xEE);
            emitter.emit7(0x48, 0xC7, 0xC2, 0x01, 0x00, 0x00, 0x00);
            emitter.emit2(0x0F, 0x05);
            proof {
                assert(emitter@ =~= code0 + code_write_call());
            }
        } else if c == OP_IN {
            emitter.emit7(0x48, 0xC7, 0xC0, 0x00, 0x00, 0x00, 0x00);
            emitter.emit7(0x48, 0xC7, 0xC7, 0x00, 0x00, 0x00, 0x00);
            emitter.emit3(0x4C, 0x89, 0xEE);
            emitter.emit7(0x48, 0xC7, 0xC2, 0x01, 0x00, 0x00, 0x00);
            emitter.emit2(0x0F, 0x05);
            proof {
                assert(emitter@ =~= code0 + code_read_call());
            }
        } else if c == OP_OPEN {
            emitter.emit5(0x41, 0x80, 0x7D, 0x00, 0x00);
            open_bracket_stack.push(emitter.size());
            emitter.emit2(0x0F, 0x84);
            emitter.emit_u32(0);
            proof {
                assert(emitter@ =~= code0 + code_cmp_cell() + code_jz_placeholder());
            }
        } else if c == OP_CLOSE {
            match open_bracket_stack.pop() {
                None => {
                    proof {
                        assert(jit_rec(instructions@, i0, code0, stack0) == Err::<
                            Seq<u8>,
                            ExecError,
                        >(ExecError::MalformedProgram));
                    }
                    return Err(ExecError::MalformedProgram);
                },
                Some(open_bracket_offset) => {
                    proof {
                        assert(stack0.last() == open_bracket_offset);
                        assert(open_bracket_stack@ =~= stack0.drop_last());
                    }
                    emitter.emit5(0x41, 0x80, 0x7D, 0x00, 0x00);
                    proof {
                        assert(emitter@ =~= code0 + code_cmp_cell());
                    }
                    // The two positions of each displacement are shifted
                    // together, so only the distance enters the encoding.
                    let back = match compute_relative_32bit_offset(
                        emitter.size(),
                        open_bracket_offset,
                    ) {
                        Err(e) => {
                            return Err(e);
                        },
                        Ok(b) => b,
                    };
                    emitter.emit2(0x0F, 0x85);
                    emitter.emit_u32(back);
                    proof {
                        assert(emitter@ =~= (code0 + code_cmp_cell()) + seq![0x0Fu8, 0x85]
                            + le_u32(back));
                    }
                    let forward = match compute_relative_32bit_offset(
                        open_bracket_offset,
                        emitter.size() - 6,
                    ) {
                        Err(e) => {
                            return Err(e);
                        },
                        Ok(f) => f,
                    };
                    emitter.replace_u32_at_offset(open_bracket_offset + 2, forward);
                },
            }
        }
        i = i + 1;
        proof {
            assert(jit_rec(instructions@, i0, code0, stack0) == jit_rec(
                instructions@,
                i as int,
                emitter@,
                open_bracket_stack@,
            ));
        }
    }
    if open_bracket_stack.len() == 0 {
        emitter.emit_byte(0xC3);
        Ok(emitter.into_code())
    } else {
        Err(ExecError::MalformedProgram)
    }
}

} // verus!
