//! The instruction alphabet and the source filter.
//!
//! A source program is an arbitrary byte sequence; only the eight reserved
//! instruction bytes are significant, every other byte is a comment and is
//! silently dropped.
use vstd::prelude::*;

verus! {

/// `>` — move the data pointer one cell to the right.
pub const OP_RIGHT: u8 = 62;
/// `<` — move the data pointer one cell to the left.
pub const OP_LEFT: u8 = 60;
/// `+` — increment the current cell, wrapping modulo 256.
pub const OP_INC: u8 = 43;
/// `-` — decrement the current cell, wrapping modulo 256.
pub const OP_DEC: u8 = 45;
/// `.` — write the current cell to the output.
pub const OP_OUT: u8 = 46;
/// `,` — read one input byte into the current cell.
pub const OP_IN: u8 = 44;
/// `[` — jump past the matching `]` if the current cell is zero.
pub const OP_OPEN: u8 = 91;
/// `]` — jump back to the matching `[` if the current cell is nonzero.
pub const OP_CLOSE: u8 = 93;

/// Whether a byte is one of the eight reserved instruction bytes.
pub open spec fn is_instruction(c: u8) -> bool {
    ||| c == OP_RIGHT
    ||| c == OP_LEFT
    ||| c == OP_INC
    ||| c == OP_DEC
    ||| c == OP_OUT
    ||| c == OP_IN
    ||| c == OP_OPEN
    ||| c == OP_CLOSE
}

/// Whether a byte is a bracket instruction.
pub open spec fn is_bracket(c: u8) -> bool {
    c == OP_OPEN || c == OP_CLOSE
}

/// The subsequence of `s` retaining only instruction bytes, in order.
pub open spec fn filter_spec(s: Seq<u8>) -> Seq<u8>
    decreases s.len(),
{
    if s.len() == 0 {
        Seq::empty()
    } else if is_instruction(s.last()) {
        filter_spec(s.drop_last()).push(s.last())
    } else {
        filter_spec(s.drop_last())
    }
}

/// Whether every byte of `s` is an instruction byte.
pub open spec fn all_instructions(s: Seq<u8>) -> bool {
    forall|i: int| 0 <= i < s.len() ==> is_instruction(#[trigger] s[i])
}

/// Filtering leaves only instruction bytes, and never grows the sequence.
pub proof fn lemma_filter_all_instructions(s: Seq<u8>)
    ensures
        all_instructions(filter_spec(s)),
        filter_spec(s).len() <= s.len(),
    decreases s.len(),
{
    if s.len() > 0 {
        lemma_filter_all_instructions(s.drop_last());
    }
}

/// Whether a byte is an instruction byte, decided at run time.
pub fn is_instruction_byte(c: u8) -> (r: bool)
    ensures
        r == is_instruction(c),
{
    c == OP_RIGHT || c == OP_LEFT || c == OP_INC || c == OP_DEC || c == OP_OUT || c == OP_IN
        || c == OP_OPEN || c == OP_CLOSE
}

/// Strips comment bytes from raw source text: the result is exactly the
/// subsequence of instruction bytes, in their original order. No failure
/// mode; every non-instruction byte is dropped.
pub fn filter_instructions(s: &[u8]) -> (r: Vec<u8>)
    ensures
        r@ == filter_spec(s@),
{
    let mut r: Vec<u8> = Vec::new();
    let mut i: usize = 0;
    while i < s.len()
        invariant
            i <= s@.len(),
            r@ == filter_spec(s@.take(i as int)),
        decreases s@.len() - i,
    {
        let c = s[i];
        proof {
            assert(s@.take(i + 1).drop_last() =~= s@.take(i as int));
            assert(s@.take(i + 1).last() == s@[i as int]);
        }
        if is_instruction_byte(c) {
            r.push(c);
        }
        i = i + 1;
    }
    proof {
        assert(s@.take(s@.len() as int) =~= s@);
    }
    r
}

} // verus!
