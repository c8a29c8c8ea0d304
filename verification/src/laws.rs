//! What the decoder's building blocks compute, stated from their inputs:
//! the instruction-set table, the operand bitmask ranking, and the fields
//! of a decoded instruction.

use vstd::prelude::*;
use vstd::arithmetic::power2::{lemma2_to64, pow2};
use crate::bitmask::{bit_at, bitmask_lookup, byte_has_bit, ones_before, ones_below, ones_in_bytes};
use crate::bytes::lemma_le_value_step;
use crate::inst::Opcode;
use crate::interpreter::{block_start_at_or_before, decoded_at};
use crate::isa::{opcode_is_branch, opcode_is_terminator, opcode_length};
use crate::layout::{
    block_end_at, in_block, instruction_index_at, lemma_in_block_same_end, lemma_instructions_between_next,
    lemma_reaches_next, next_pc_of, reaches,
};
use crate::program::{eager_due, InterpreterProgram};

verus! {

/// The encoded length of every opcode, range by range of the opcode map.
pub proof fn lemma_opcode_length_table(op: u8)
    ensures
        op <= 39 ==> opcode_length(op) == 1,
        40 <= op <= 49 ==> opcode_length(op) == 1,
        op == 50 ==> opcode_length(op) == 1,
        op == 51 ==> opcode_length(op) == 9,
        52 <= op <= 69 ==> opcode_length(op) == 1,
        70 <= op <= 73 ==> opcode_length(op) == 3,
        74 <= op <= 79 ==> opcode_length(op) == 1,
        op == 80 ==> opcode_length(op) == 9,
        81 <= op <= 89 ==> opcode_length(op) == 1,
        90 <= op <= 99 ==> opcode_length(op) == 1,
        op == 100 ==> opcode_length(op) == 1,
        101 <= op <= 119 ==> opcode_length(op) == 1,
        120 <= op <= 123 ==> opcode_length(op) == 3,
        124 <= op <= 130 ==> opcode_length(op) == 1,
        131 <= op <= 179 ==> opcode_length(op) == 3,
        op == 180 ==> opcode_length(op) == 9,
        181 <= op ==> opcode_length(op) == 5,
{
}

/// Which opcodes end a basic block and which branch: trap (0),
/// fallthrough (1), jump (40), indirect jump (50), load-immediate-and-jump
/// (180) and the conditional branches 181..=255 end blocks; only the
/// conditional branches branch.
pub proof fn lemma_block_enders(op: u8)
    ensures
        opcode_is_terminator(op) <==> (op == 0 || op == 1 || op == 40 || op == 50 || op == 180 || op >= 181),
        opcode_is_branch(op) <==> op >= 181,
        opcode_is_branch(op) ==> opcode_is_terminator(op),
{
}

/// Bit `pos` of the bitmask, read arithmetically: bit `pos % 8` of byte
/// `pos / 8`, counting from the least significant.
pub open spec fn bit_is_set(bm: Seq<u8>, pos: int) -> bool {
    (bm[pos / 8] as int / pow2((pos % 8) as nat) as int) % 2 == 1
}

/// Number of set bits of the bitmask at positions `0..n`.
pub open spec fn set_bits_before(bm: Seq<u8>, n: int) -> nat
    decreases n,
{
    if n <= 0 {
        0
    } else {
        set_bits_before(bm, n - 1) + if bit_is_set(bm, n - 1) { 1nat } else { 0nat }
    }
}

proof fn lemma_byte_bit(b: u8, k: int)
    requires
        0 <= k < 8,
    ensures
        byte_has_bit(b, k) <==> (b as int / pow2(k as nat) as int) % 2 == 1,
{
    lemma2_to64();
    if k == 0 {
        assert(b & (1u8 << 0u8) != 0 <==> (b / 1) % 2 == 1) by (bit_vector);
    } else if k == 1 {
        assert(b & (1u8 << 1u8) != 0 <==> (b / 2) % 2 == 1) by (bit_vector);
    } else if k == 2 {
        assert(b & (1u8 << 2u8) != 0 <==> (b / 4) % 2 == 1) by (bit_vector);
    } else if k == 3 {
        assert(b & (1u8 << 3u8) != 0 <==> (b / 8) % 2 == 1) by (bit_vector);
    } else if k == 4 {
        assert(b & (1u8 << 4u8) != 0 <==> (b / 16) % 2 == 1) by (bit_vector);
    } else if k == 5 {
        assert(b & (1u8 << 5u8) != 0 <==> (b / 32) % 2 == 1) by (bit_vector);
    } else if k == 6 {
        assert(b & (1u8 << 6u8) != 0 <==> (b / 64) % 2 == 1) by (bit_vector);
    } else {
        assert(b & (1u8 << 7u8) != 0 <==> (b / 128) % 2 == 1) by (bit_vector);
    }
}

proof fn lemma_ones_before_counts_bits(bm: Seq<u8>, n: int)
    requires
        0 <= n < bm.len() * 8,
    ensures
        ones_before(bm, n) == set_bits_before(bm, n),
        bit_at(bm, n) == bit_is_set(bm, n),
    decreases n,
{
    lemma_byte_bit(bm[n / 8], n % 8);
    if n > 0 {
        lemma_ones_before_counts_bits(bm, n - 1);
        let m = n - 1;
        if n % 8 == 0 {
            assert(m / 8 == n / 8 - 1 && m % 8 == 7);
            assert(ones_in_bytes(bm, n / 8) == ones_in_bytes(bm, m / 8) + ones_below(bm[m / 8], 8));
        } else {
            assert(m / 8 == n / 8 && m % 8 == n % 8 - 1);
        }
    }
}

/// A register lookup succeeds exactly where the bit at `pos` is set and the
/// set bits at all earlier positions number `index`.
pub proof fn lemma_register_lookup(bm: Seq<u8>, pos: int, index: int)
    requires
        0 <= pos,
    ensures
        bitmask_lookup(bm, pos, index) == if pos < bm.len() * 8 && bit_is_set(bm, pos) && set_bits_before(
            bm,
            pos,
        ) == index {
            Some(0u8)
        } else {
            None
        },
{
    if pos < bm.len() * 8 {
        lemma_ones_before_counts_bits(bm, pos);
    }
}

/// The register operands of a decoded instruction: slot 0 is `ra`, slot 1
/// is `rb`, slot 2 is `rd`. A slot holds `0` where the bit at `pc` is set
/// and exactly that many set bits come before it, `NO_REG` (0xFF) otherwise.
pub proof fn lemma_decoded_registers(p: InterpreterProgram, pc: u32)
    ensures
        ({
            let bm = p.bitmask@;
            let d = decoded_at(p, pc);
            let present = pc < bm.len() * 8 && bit_is_set(bm, pc as int);
            let rank = set_bits_before(bm, pc as int);
            &&& d.ra == if present && rank == 0 { 0u8 } else { 0xFFu8 }
            &&& d.rb == if present && rank == 1 { 0u8 } else { 0xFFu8 }
            &&& d.rd == if present && rank == 2 { 0u8 } else { 0xFFu8 }
        }),
{
    lemma_register_lookup(p.bitmask@, pc as int, 0);
    lemma_register_lookup(p.bitmask@, pc as int, 1);
    lemma_register_lookup(p.bitmask@, pc as int, 2);
}

/// The immediates of a decoded instruction, read from the code bytes after
/// the opcode, least significant first: opcodes 20 and 51 carry all eight
/// bytes; a conditional branch carries a four-byte offset, sign-extended to
/// 64 bits; every other instruction carries none. The second immediate is
/// always zero.
pub proof fn lemma_decoded_immediates(p: InterpreterProgram, pc: u32)
    requires
        (pc as int) < p.code@.len(),
    ensures
        ({
            let c = p.code@;
            let i = pc as int;
            let op = c[i];
            let d = decoded_at(p, pc);
            &&& (op == 20 || op == 51) && i + 9 <= c.len() ==> d.imm1 == c[i + 1] + 0x100 * c[i + 2]
                + 0x1_0000 * c[i + 3] + 0x100_0000 * c[i + 4] + 0x1_0000_0000 * c[i + 5]
                + 0x100_0000_0000 * c[i + 6] + 0x1_0000_0000_0000 * c[i + 7]
                + 0x100_0000_0000_0000 * c[i + 8]
            &&& op >= 181 && i + 5 <= c.len() ==> {
                let raw = c[i + 1] + 0x100 * c[i + 2] + 0x1_0000 * c[i + 3] + 0x100_0000 * c[i + 4];
                d.imm1 == if raw < 0x8000_0000 { raw } else { raw + 0xFFFF_FFFF_0000_0000 }
            }
            &&& !(op == 20 || op == 51 || op >= 181) ==> d.imm1 == 0
            &&& d.imm2 == 0
        }),
{
    let c = p.code@;
    let i = pc as int;
    let op = c[i];
    if (op == 20 || op == 51) && i + 9 <= c.len() {
        lemma_le_value_step(c, i + 1, i + 9);
        lemma_le_value_step(c, i + 2, i + 9);
        lemma_le_value_step(c, i + 3, i + 9);
        lemma_le_value_step(c, i + 4, i + 9);
        lemma_le_value_step(c, i + 5, i + 9);
        lemma_le_value_step(c, i + 6, i + 9);
        lemma_le_value_step(c, i + 7, i + 9);
        lemma_le_value_step(c, i + 8, i + 9);
        assert(c.subrange(i + 9, i + 9).len() == 0);
    }
    if op >= 181 && i + 5 <= c.len() {
        lemma_le_value_step(c, i + 1, i + 5);
        lemma_le_value_step(c, i + 2, i + 5);
        lemma_le_value_step(c, i + 3, i + 5);
        lemma_le_value_step(c, i + 4, i + 5);
        assert(c.subrange(i + 5, i + 5).len() == 0);
    }
}

/// The branch target of a conditional branch at `pc`: the position
/// `pc + offset + 5`, with the signed four-byte little-endian offset that
/// follows the opcode. Where that position lies in the code, the target
/// index is the index table's entry for it; where it lies past the end of
/// the code, the target index is `0`. Every other instruction has target
/// index `0`.
pub proof fn lemma_decoded_branch_target(p: InterpreterProgram, pc: u32)
    requires
        (pc as int) < p.code@.len(),
        p.code@.len() <= u32::MAX,
    ensures
        ({
            let c = p.code@;
            let i = pc as int;
            let d = decoded_at(p, pc);
            &&& c[i] >= 181 && i + 5 <= c.len() ==> {
                let raw = c[i + 1] + 0x100 * c[i + 2] + 0x1_0000 * c[i + 3] + 0x100_0000 * c[i + 4];
                let offset = if raw < 0x8000_0000 { raw } else { raw - 0x1_0000_0000 };
                let target = i + offset + 5;
                &&& 0 <= target < c.len() ==> d.target_idx == p.pc_to_idx@[target]
                &&& c.len() <= target < 0x1_0000_0000 ==> d.target_idx == 0
            }
            &&& c[i] < 181 ==> d.target_idx == 0
        }),
{
    let c = p.code@;
    let i = pc as int;
    if c[i] >= 181 && i + 5 <= c.len() {
        lemma_le_value_step(c, i + 1, i + 5);
        lemma_le_value_step(c, i + 2, i + 5);
        lemma_le_value_step(c, i + 3, i + 5);
        lemma_le_value_step(c, i + 4, i + 5);
        assert(c.subrange(i + 5, i + 5).len() == 0);
        let raw = c[i + 1] + 0x100 * c[i + 2] + 0x1_0000 * c[i + 3] + 0x100_0000 * c[i + 4];
        let offset = if raw < 0x8000_0000 { raw } else { raw - 0x1_0000_0000 };
        let target = i + offset + 5;
        assert(crate::interpreter::branch_offset_raw(c, i) == raw);
        if 0 <= target < 0x1_0000_0000 {
            vstd::arithmetic::div_mod::lemma_small_mod(target as nat, 0x1_0000_0000);
            assert(crate::interpreter::branch_target(c, i) == target);
        }
    }
}

/// The position fields of a decoded instruction: its opcode is the byte at
/// `pc`, it records `pc`, the next instruction starts `opcode_length` bytes
/// on, and `next_idx` is the index table's entry for that position when it
/// lies in the code, `0` otherwise.
pub proof fn lemma_decoded_position(p: InterpreterProgram, pc: u32)
    requires
        (pc as int) < p.code@.len(),
        (pc as int) + 9 <= u32::MAX,
    ensures
        ({
            let c = p.code@;
            let i = pc as int;
            let d = decoded_at(p, pc);
            let next = i + opcode_length(c[i]);
            &&& d.opcode == Opcode(c[i])
            &&& d.pc == pc
            &&& d.next_pc == next
            &&& d.next_idx == if next < c.len() { p.pc_to_idx@[next] } else { 0 }
        }),
{
}

/// The gas cost of a decoded instruction is that of the block containing
/// it: the cost entry of the last block start at or before `pc`, `0` when
/// that start has no cost entry or no block starts at or before `pc`.
pub proof fn lemma_decoded_gas(p: InterpreterProgram, pc: u32)
    ensures
        ({
            let starts = p.basic_block_starts@;
            let costs = p.block_gas_costs@;
            let d = decoded_at(p, pc);
            &&& forall|s: int|
                #![trigger starts[s]]
                (0 <= s <= pc && s < starts.len() && starts[s] && forall|t: int|
                    #![trigger starts[t]]
                    s < t <= pc && t < starts.len() ==> !starts[t]) ==> d.bb_gas_cost == if s
                    < costs.len() {
                    costs[s]
                } else {
                    0
                }
            &&& (forall|s: int| #![trigger starts[s]] 0 <= s <= pc && s < starts.len() ==> !starts[s])
                ==> d.bb_gas_cost == 0
        }),
{
    let starts = p.basic_block_starts@;
    lemma_block_start_found(starts, pc as int);
}

/// The switch to eager mode is due once more blocks have been decoded than
/// remain undecoded, and at once for a program without blocks.
pub proof fn lemma_eager_threshold(decoded: u32, total: u32)
    ensures
        total == 0 ==> eager_due(decoded, total),
        total > 0 ==> (eager_due(decoded, total) <==> decoded > total - decoded),
{
}

/// A block ends just past its first terminator, or at the end of the code
/// when it runs off it without one; it starts with the instruction it is
/// entered at.
pub proof fn lemma_block_end(code: Seq<u8>, pc: int, q: int)
    requires
        in_block(code, pc, q),
    ensures
        in_block(code, pc, pc),
        pc <= q < code.len(),
        opcode_is_terminator(code[q]) ==> block_end_at(code, pc) == q + opcode_length(code[q]),
        !opcode_is_terminator(code[q]) && q + opcode_length(code[q]) >= code.len() ==> block_end_at(code, pc)
            == code.len(),
    decreases code.len() + 9 - pc,
{
    lemma_in_block_same_end(code, pc, q);
    if pc != q {
        lemma_block_end(code, next_pc_of(code, pc), q);
    } else if !opcode_is_terminator(code[q]) && next_pc_of(code, q) >= code.len() {
        assert(block_end_at(code, next_pc_of(code, q)) == code.len());
    }
}

/// The index table numbers the instructions in order: the instruction at
/// position 0 is number 0, and each next instruction is one more.
pub proof fn lemma_instruction_numbering(code: Seq<u8>, a: int)
    ensures
        code.len() > 0 ==> instruction_index_at(code, 0) == 0,
        0 <= a < code.len() && reaches(code, 0, a) && a + opcode_length(code[a]) < code.len() ==> {
            &&& reaches(code, 0, a + opcode_length(code[a]))
            &&& instruction_index_at(code, a + opcode_length(code[a])) == instruction_index_at(code, a) + 1
        },
{
    if 0 <= a < code.len() && reaches(code, 0, a) {
        lemma_reaches_next(code, 0, a);
        lemma_instructions_between_next(code, 0, a);
    }
}

proof fn lemma_block_start_found(starts: Seq<bool>, pos: int)
    requires
        pos >= -1,
    ensures
        ({
            let s = block_start_at_or_before(starts, pos);
            &&& s == -1 || (0 <= s <= pos && s < starts.len() && starts[s])
            &&& forall|t: int| #![trigger starts[t]] s < t <= pos && 0 <= t < starts.len() ==> !starts[t]
        }),
    decreases pos + 1,
{
    if pos >= 0 && !(pos < starts.len() && starts[pos]) {
        lemma_block_start_found(starts, pos - 1);
    }
}

} // verus!
