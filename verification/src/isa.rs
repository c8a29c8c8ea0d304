//! The instruction-set facts the decoder relies on: how long an instruction
//! is, and which opcodes end a basic block or branch.

use vstd::prelude::*;

verus! {

/// Encoded length in bytes of an instruction with opcode `op`:
/// nine for the opcodes that carry an eight-byte immediate, three for those
/// with a two-byte operand, five for conditional branches, one otherwise.
pub open spec fn opcode_length(op: u8) -> nat {
    if op == 51 || op == 80 || op == 180 {
        9
    } else if (70 <= op && op <= 73) || (120 <= op && op <= 123) || (131 <= op && op <= 179) {
        3
    } else if op >= 181 {
        5
    } else {
        1
    }
}

/// Opcodes that end a basic block: trap, fallthrough, jump, indirect jump,
/// load-immediate-and-jump, and every conditional branch.
pub open spec fn opcode_is_terminator(op: u8) -> bool {
    op == 0 || op == 1 || op == 40 || op == 50 || op == 180 || op >= 181
}

/// Conditional branches occupy the opcode range 181..=255.
pub open spec fn opcode_is_branch(op: u8) -> bool {
    op >= 181
}

/// Get instruction length
pub fn instruction_length(opcode: u8) -> (len: u8)
    ensures
        len == opcode_length(opcode),
        1 <= len <= 9,
{
    match opcode {
        0..=39 => 1,
        40..=49 => 1,
        50 => 1,
        51 => 9,
        52..=69 => 1,
        70..=73 => 3,
        74..=79 => 1,
        80 => 9,
        81..=89 => 1,
        90..=99 => 1,
        100 => 1,
        101..=119 => 1,
        120..=123 => 3,
        124..=130 => 1,
        131..=179 => 3,
        180 => 9,
        181..=255 => 5,
    }
}

/// Check if opcode is a terminator (ends basic block)
pub fn is_terminator(opcode: u8) -> (b: bool)
    ensures
        b == opcode_is_terminator(opcode),
{
    match opcode {
        0 | 1 | 40 | 50 | 180 => true,
        181..=255 => true,
        _ => false,
    }
}

/// Check if opcode is a branch
pub fn is_branch(opcode: u8) -> (b: bool)
    ensures
        b == opcode_is_branch(opcode),
{
    opcode >= 181
}

/// Every conditional branch ends its basic block.
pub proof fn lemma_branches_end_blocks(op: u8)
    ensures
        opcode_is_branch(op) ==> opcode_is_terminator(op),
{
}

} // verus!
