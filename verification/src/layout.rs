//! The layout of a program: how instructions follow each other in the code,
//! where basic blocks end, and which block index each instruction gets.

use vstd::prelude::*;
use crate::isa::{instruction_length, opcode_is_terminator, opcode_length};
use crate::inst::DecodedInst;

verus! {

/// Largest code length whose positions, and the position just past its last
/// instruction, all fit in a `u32` program counter.
pub open spec fn code_len_fits(len: nat) -> bool {
    len + 8 <= u32::MAX
}

/// Position of the instruction that follows the one at `pc`.
pub open spec fn next_pc_of(code: Seq<u8>, pc: int) -> int {
    pc + opcode_length(code[pc]) as int
}

/// Stepping from instruction to instruction, starting at `from`, lands on
/// `to` while still inside the code.
pub open spec fn reaches(code: Seq<u8>, from: int, to: int) -> bool
    decreases code.len() + 9 - from,
{
    if from == to {
        true
    } else if from > to || from < 0 || from >= code.len() {
        false
    } else {
        reaches(code, next_pc_of(code, from), to)
    }
}

/// Number of instructions met when stepping from `from` up to (not
/// including) position `to`.
pub open spec fn instructions_between(code: Seq<u8>, from: int, to: int) -> nat
    decreases code.len() + 9 - from,
{
    if from >= to || from < 0 || from >= code.len() {
        0
    } else {
        1 + instructions_between(code, next_pc_of(code, from), to)
    }
}

/// Instruction index of code position `pos`: for the start of an
/// instruction reached from position 0, the number of instructions before
/// it; `0` for every other position.
pub open spec fn instruction_index_at(code: Seq<u8>, pos: int) -> nat {
    if 0 <= pos < code.len() && reaches(code, 0, pos) {
        instructions_between(code, 0, pos)
    } else {
        0
    }
}

/// The index table gives distinct instruction starts (positions reached
/// from 0) distinct indices.
pub open spec fn index_distinct(code: Seq<u8>, pc_to_idx: Seq<u32>) -> bool {
    forall|a: int, b: int|
        #![trigger reaches(code, 0, a), reaches(code, 0, b)]
        0 <= a < code.len() && 0 <= b < code.len() && a < pc_to_idx.len() && b < pc_to_idx.len()
            && reaches(code, 0, a) && reaches(code, 0, b) && pc_to_idx[a] == pc_to_idx[b] ==> a == b
}

/// Where the basic block that starts at `pc` ends: just past the first
/// terminator met when stepping from `pc`, or the end of the code when
/// none is met.
pub open spec fn block_end_at(code: Seq<u8>, pc: int) -> int
    decreases code.len() + 9 - pc,
{
    if pc < 0 || pc >= code.len() {
        code.len() as int
    } else if opcode_is_terminator(code[pc]) {
        next_pc_of(code, pc)
    } else {
        block_end_at(code, next_pc_of(code, pc))
    }
}

/// Position `q` is the start of an instruction of the basic block that
/// begins at `pc`.
pub open spec fn in_block(code: Seq<u8>, pc: int, q: int) -> bool
    decreases code.len() + 9 - pc,
{
    if pc < 0 || pc >= code.len() || pc > q {
        false
    } else if pc == q {
        true
    } else if opcode_is_terminator(code[pc]) {
        false
    } else {
        in_block(code, next_pc_of(code, pc), q)
    }
}

pub proof fn lemma_reaches_next(code: Seq<u8>, a: int, pc: int)
    requires
        0 <= a,
        0 <= pc < code.len(),
        reaches(code, a, pc),
    ensures
        reaches(code, a, next_pc_of(code, pc)),
    decreases code.len() + 9 - a,
{
    if a != pc {
        lemma_reaches_next(code, next_pc_of(code, a), pc);
    } else {
        assert(reaches(code, next_pc_of(code, pc), next_pc_of(code, pc)));
    }
}

pub proof fn lemma_reaches_skips_inside(code: Seq<u8>, a: int, pc: int, q: int)
    requires
        0 <= a,
        0 <= pc < code.len(),
        pc < q < next_pc_of(code, pc),
        reaches(code, a, pc),
    ensures
        !reaches(code, a, q),
    decreases code.len() + 9 - a,
{
    if a != pc {
        lemma_reaches_skips_inside(code, next_pc_of(code, a), pc, q);
    } else {
        assert(reaches(code, a, q) == reaches(code, next_pc_of(code, pc), q));
    }
}

pub proof fn lemma_instructions_between_next(code: Seq<u8>, a: int, pc: int)
    requires
        0 <= a,
        0 <= pc < code.len(),
        reaches(code, a, pc),
    ensures
        instructions_between(code, a, next_pc_of(code, pc)) == instructions_between(code, a, pc) + 1,
    decreases code.len() + 9 - a,
{
    if a != pc {
        lemma_instructions_between_next(code, next_pc_of(code, a), pc);
    } else {
        assert(instructions_between(code, next_pc_of(code, pc), next_pc_of(code, pc)) == 0);
    }
}

pub proof fn lemma_instructions_between_bound(code: Seq<u8>, a: int, b: int)
    requires
        0 <= a,
    ensures
        instructions_between(code, a, b) <= if a < b { b - a } else { 0 },
    decreases code.len() + 9 - a,
{
    if a < b && a < code.len() {
        lemma_instructions_between_bound(code, next_pc_of(code, a), b);
    }
}

/// Stepping on past an instruction start counts at least that instruction.
pub proof fn lemma_instructions_between_grows(code: Seq<u8>, x: int, a: int, b: int)
    requires
        0 <= x,
        0 <= a < code.len(),
        a < b,
        reaches(code, x, a),
    ensures
        instructions_between(code, x, b) >= instructions_between(code, x, a) + 1,
    decreases code.len() + 9 - x,
{
    if x != a {
        lemma_instructions_between_grows(code, next_pc_of(code, x), a, b);
    }
}

/// Distinct instruction starts get distinct instruction indices.
pub proof fn lemma_instruction_index_distinct(code: Seq<u8>, a: int, b: int)
    requires
        0 <= a < code.len(),
        0 <= b < code.len(),
        reaches(code, 0, a),
        reaches(code, 0, b),
        a != b,
    ensures
        instruction_index_at(code, a) != instruction_index_at(code, b),
{
    if a < b {
        lemma_instructions_between_grows(code, 0, a, b);
    } else {
        lemma_instructions_between_grows(code, 0, b, a);
    }
}

/// Within one block, every instruction has the same block end.
pub proof fn lemma_in_block_same_end(code: Seq<u8>, pc: int, q: int)
    requires
        in_block(code, pc, q),
    ensures
        block_end_at(code, pc) == block_end_at(code, q),
        0 <= q < code.len(),
    decreases code.len() + 9 - pc,
{
    if pc != q {
        lemma_in_block_same_end(code, next_pc_of(code, pc), q);
    }
}

/// The instruction after a non-terminator of a block belongs to the block,
/// when it lies inside the code.
pub proof fn lemma_in_block_next(code: Seq<u8>, pc: int, q: int)
    requires
        in_block(code, pc, q),
        !opcode_is_terminator(code[q]),
        next_pc_of(code, q) < code.len(),
    ensures
        in_block(code, pc, next_pc_of(code, q)),
    decreases code.len() + 9 - pc,
{
    if pc != q {
        lemma_in_block_next(code, next_pc_of(code, pc), q);
    } else {
        assert(in_block(code, next_pc_of(code, q), next_pc_of(code, q)));
    }
}

/// Compute PC to instruction index mapping
pub fn compute_pc_to_idx(code: &[u8], _bitmask: &[u8], _basic_block_starts: &[bool]) -> (pc_to_idx: Vec<u32>)
    requires
        code_len_fits(code@.len()),
    ensures
        pc_to_idx@.len() == code@.len(),
        forall|p: int| 0 <= p < code@.len() ==> pc_to_idx@[p] == instruction_index_at(code@, p),
        index_distinct(code@, pc_to_idx@),
{
    let mut pc_to_idx: Vec<u32> = Vec::new();
    let mut k: usize = 0;
    while k < code.len()
        invariant
            k <= code.len(),
            pc_to_idx@.len() == k,
            forall|p: int| 0 <= p < k ==> pc_to_idx@[p] == 0,
        decreases code.len() - k,
    {
        pc_to_idx.push(0);
        k = k + 1;
    }
    let ghost cs = code@;
    let mut current_idx: u32 = 0;
    let mut pc: u32 = 0;
    while pc < code.len() as u32
        invariant
            code@ == cs,
            code_len_fits(cs.len()),
            pc_to_idx@.len() == cs.len(),
            reaches(cs, 0, pc as int),
            current_idx == instructions_between(cs, 0, pc as int),
            forall|p: int|
                0 <= p < cs.len() ==> pc_to_idx@[p] == if p < pc { instruction_index_at(cs, p) } else { 0 },
        decreases cs.len() + 9 - pc,
    {
        let ghost old_pc = pc as int;
        let ghost old_map = pc_to_idx@;
        pc_to_idx.set(pc as usize, current_idx);
        proof {
            lemma_instructions_between_bound(cs, 0, old_pc);
        }
        current_idx = current_idx + 1;
        pc = pc + instruction_length(code[pc as usize]) as u32;
        proof {
            lemma_reaches_next(cs, 0, old_pc);
            lemma_instructions_between_next(cs, 0, old_pc);
            assert forall|p: int| 0 <= p < cs.len() implies pc_to_idx@[p] == if p < pc { instruction_index_at(cs, p) } else { 0 } by {
                if old_pc < p < pc {
                    lemma_reaches_skips_inside(cs, 0, old_pc, p);
                }
            }
        }
    }
    proof {
        assert forall|a: int, b: int|
            #![trigger reaches(cs, 0, a), reaches(cs, 0, b)]
            0 <= a < cs.len() && 0 <= b < cs.len() && a < pc_to_idx@.len() && b < pc_to_idx@.len()
                && reaches(cs, 0, a) && reaches(cs, 0, b) && pc_to_idx@[a] == pc_to_idx@[b] implies a == b by {
            if a != b {
                lemma_instruction_index_distinct(cs, a, b);
            }
        }
    }
    pc_to_idx
}

/// Basic block starts of the code: a single block, starting at position 0.
pub fn compute_basic_block_starts(_code: &[u8], _bitmask: &[u8]) -> (starts: Vec<bool>)
    ensures
        starts@ == seq![true],
{
    vec![true]
}

/// Gas block starts of the code: a single gas block, starting at position 0.
pub fn compute_gas_block_starts(_code: &[u8], _bitmask: &[u8]) -> (starts: Vec<bool>)
    ensures
        starts@ == seq![true],
{
    vec![true]
}

/// Gas cost of each gas block: one unit for the single block.
pub fn compute_block_gas_costs(
    _code: &[u8],
    _bitmask: &[u8],
    _gas_block_starts: &[bool],
    _mem_cycles: u8,
) -> (costs: Vec<u32>)
    ensures
        costs@ == seq![1u32],
{
    vec![1]
}

/// The instruction table that full pre-decoding builds: empty.
pub open spec fn predecoded_insts(code: Seq<u8>) -> Seq<DecodedInst> {
    Seq::empty()
}

/// The index table that full pre-decoding builds: empty.
pub open spec fn predecoded_index(code: Seq<u8>) -> Seq<u32> {
    Seq::empty()
}

/// Full pre-decode of the code: no instructions and an empty index map.
pub fn predecode_instructions(
    code: &[u8],
    _bitmask: &[u8],
    _basic_block_starts: &[bool],
    _gas_block_starts: &[bool],
    _block_gas_costs: &[u32],
) -> (decoded: (Vec<DecodedInst>, Vec<u32>))
    ensures
        decoded.0@ == predecoded_insts(code@),
        decoded.1@ == predecoded_index(code@),
{
    (Vec::new(), Vec::new())
}

} // verus!
