//! On-demand decoding: an instruction is decoded, together with the rest of
//! its basic block, the first time the interpreter asks for it.

use vstd::prelude::*;
use crate::bitmask::{bitmask_count_fits, bitmask_get, bitmask_lookup};
use crate::bytes::{
    as_signed32, le_value, read_le_u32, read_le_u64, sign_extend32, sign_extend_to_u64, signed32,
};
use crate::inst::{DecodedInst, Opcode};
use crate::isa::{
    instruction_length, is_branch, is_terminator, opcode_is_branch, opcode_is_terminator,
    opcode_length,
};
use crate::layout::{
    block_end_at, code_len_fits, compute_gas_block_starts, in_block, lemma_in_block_next,
    lemma_in_block_same_end, lemma_reaches_next, next_pc_of, predecode_instructions, predecoded_index,
    predecoded_insts, reaches, index_distinct,
};
use crate::program::{
    cache_entry, cache_with, eager_due, same_tables, switched_from, valid_with, InterpreterProgram,
};

verus! {

/// Sentinel value for "no register"
pub const NO_REG: u8 = 0xFF;

/// An interpreter running one program.
pub struct Interpreter {
    pub program: InterpreterProgram,
}

/// Register operand `slot` of the instruction at `pc`: the bitmask lookup's
/// value, or `NO_REG` where it finds none.
pub open spec fn register_operand(bm: Seq<u8>, pc: int, slot: int) -> u8 {
    match bitmask_lookup(bm, pc, slot) {
        Some(v) => v,
        None => NO_REG,
    }
}

/// The nearest block start at or before position `pos`, `-1` when there is
/// none.
pub open spec fn block_start_at_or_before(starts: Seq<bool>, pos: int) -> int
    decreases pos + 1,
{
    if pos < 0 {
        -1
    } else if pos < starts.len() && starts[pos] {
        pos
    } else {
        block_start_at_or_before(starts, pos - 1)
    }
}

/// Gas cost charged at `pc`: the cost of the block that contains it, whose
/// start is the nearest block start at or before `pc`; `0` when there is no
/// such start or it has no cost entry.
pub open spec fn block_gas_cost_at(starts: Seq<bool>, costs: Seq<u32>, pc: int) -> u32 {
    let start = block_start_at_or_before(starts, pc);
    if 0 <= start < costs.len() {
        costs[start]
    } else {
        0
    }
}

proof fn lemma_no_start_past_end(starts: Seq<bool>, pos: int)
    requires
        pos >= starts.len(),
    ensures
        block_start_at_or_before(starts, pos) == block_start_at_or_before(starts, starts.len() - 1),
    decreases pos + 1,
{
    if pos > starts.len() {
        lemma_no_start_past_end(starts, pos - 1);
    }
}

/// The four offset bytes that follow a branch opcode at `pc`, as an unsigned
/// little-endian value.
pub open spec fn branch_offset_raw(code: Seq<u8>, pc: int) -> int {
    le_value(code.subrange(pc + 1, pc + 5)) as int
}

/// The target of the branch at `pc`: the branch position plus its signed
/// offset plus its length, wrapped to 32 bits.
pub open spec fn branch_target(code: Seq<u8>, pc: int) -> int {
    (pc + signed32(branch_offset_raw(code, pc)) + opcode_length(code[pc])) % 0x1_0000_0000
}

/// The branch target is computed in `i32` arithmetic, from the branch
/// position read as `i32`; this holds where that computation stays in range.
pub open spec fn branch_target_fits(code: Seq<u8>, pc: int) -> bool {
    let partial = signed32(pc) + signed32(branch_offset_raw(code, pc));
    &&& i32::MIN <= partial
    &&& partial + opcode_length(code[pc]) <= i32::MAX
}

/// Instruction index of the branch target, `0` when it lies outside the code.
pub open spec fn branch_target_index(code: Seq<u8>, pc_to_idx: Seq<u32>, pc: int) -> u32 {
    let target = branch_target(code, pc);
    if target >= code.len() {
        0
    } else {
        pc_to_idx[target]
    }
}

/// The immediates of instruction `op` at `pc`: an eight-byte little-endian
/// value for opcodes 20 and 51, the sign-extended four-byte branch offset
/// for conditional branches, none otherwise.
pub open spec fn immediates_of(code: Seq<u8>, pc: int, op: u8) -> (u64, u64) {
    if op == 20 || op == 51 {
        (le_value(code.subrange(pc + 1, pc + 9)) as u64, 0)
    } else if opcode_is_branch(op) {
        (sign_extend32(branch_offset_raw(code, pc)) as u64, 0)
    } else {
        (0, 0)
    }
}

/// The instruction at `pc` of program `p`, decoded.
pub open spec fn decoded_at(p: InterpreterProgram, pc: u32) -> DecodedInst {
    let code = p.code@;
    let op = code[pc as int];
    let next = pc + opcode_length(op);
    let imm = immediates_of(code, pc as int, op);
    DecodedInst {
        opcode: Opcode(op),
        ra: register_operand(p.bitmask@, pc as int, 0),
        rb: register_operand(p.bitmask@, pc as int, 1),
        rd: register_operand(p.bitmask@, pc as int, 2),
        imm1: imm.0,
        imm2: imm.1,
        pc: pc,
        next_pc: next as u32,
        next_idx: if next < code.len() { p.pc_to_idx@[next] } else { 0 },
        target_idx: if opcode_is_branch(op) {
            branch_target_index(code, p.pc_to_idx@, pc as int)
        } else {
            0
        },
        bb_gas_cost: block_gas_cost_at(p.basic_block_starts@, p.block_gas_costs@, pc as int),
    }
}

/// The instruction at `pc` can be decoded: it lies in the code, its operand
/// bits can be ranked, its immediates lie in the code, its branch target
/// can be computed, and the index table covers the positions it looks up.
pub open spec fn decodable(p: InterpreterProgram, pc: int) -> bool {
    let code = p.code@;
    let op = code[pc];
    let next = pc + opcode_length(op);
    &&& 0 <= pc < code.len()
    &&& p.bitmask@.len() * 8 <= u32::MAX
    &&& bitmask_count_fits(p.bitmask@, pc)
    &&& (op == 20 || op == 51) ==> pc + 9 <= code.len()
    &&& opcode_is_branch(op) ==> {
        &&& pc + 5 <= code.len()
        &&& branch_target_fits(code, pc)
        &&& branch_target(code, pc) < code.len() ==> branch_target(code, pc) < p.pc_to_idx@.len()
    }
    &&& next < code.len() ==> next < p.pc_to_idx@.len()
}

/// Decoding the block instructions from `pc` up to `end`, starting from
/// `cache`, reads the index table inside its bounds, and every instruction
/// it finds uncached can be decoded and stored under its index.
pub open spec fn fill_ok(p: InterpreterProgram, cache: Seq<Option<DecodedInst>>, pc: int, end: int) -> bool
    decreases end + 9 - pc,
{
    if pc >= end || pc < 0 || pc >= p.code@.len() {
        true
    } else {
        let idx = p.pc_to_idx@[pc] as int;
        let next = next_pc_of(p.code@, pc);
        &&& pc < p.pc_to_idx@.len()
        &&& if cache_entry(cache, idx).is_some() {
            fill_ok(p, cache, next, end)
        } else {
            &&& decodable(p, pc)
            &&& idx < usize::MAX
            &&& fill_ok(p, cache_with(cache, idx, decoded_at(p, pc as u32)), next, end)
        }
    }
}

/// Decoding the block that starts at `start` on demand does not fail.
pub open spec fn block_decodable(p: InterpreterProgram, start: int) -> bool {
    &&& code_len_fits(p.code@.len())
    &&& fill_ok(p, p.decoded_cache@, start, block_end_at(p.code@, start))
}

/// The two caches after decoding the block instructions from `pc` up to
/// `end`: each one whose instruction index holds nothing yet is decoded and
/// stored there.
pub open spec fn fill_block(
    p: InterpreterProgram,
    cache: Seq<Option<DecodedInst>>,
    valid: Seq<u32>,
    pc: int,
    end: int,
) -> (Seq<Option<DecodedInst>>, Seq<u32>)
    decreases end + 9 - pc,
{
    if pc >= end || pc < 0 || pc >= p.code@.len() {
        (cache, valid)
    } else {
        let idx = p.pc_to_idx@[pc] as int;
        if cache_entry(cache, idx).is_some() {
            fill_block(p, cache, valid, next_pc_of(p.code@, pc), end)
        } else {
            fill_block(
                p,
                cache_with(cache, idx, decoded_at(p, pc as u32)),
                valid_with(cache.len() as int, valid, idx),
                next_pc_of(p.code@, pc),
                end,
            )
        }
    }
}

/// For every instruction start of the code, whatever the cache holds under
/// its instruction index is that instruction, decoded.
pub open spec fn cache_matches(p: InterpreterProgram, cache: Seq<Option<DecodedInst>>) -> bool {
    forall|q: int|
        #![trigger reaches(p.code@, 0, q)]
        0 <= q < p.code@.len() && q < p.pc_to_idx@.len() && reaches(p.code@, 0, q) && cache_entry(
            cache,
            p.pc_to_idx@[q] as int,
        ).is_some() ==> cache_entry(cache, p.pc_to_idx@[q] as int) == Some(decoded_at(p, q as u32))
}

/// A cache that holds nothing, as `InterpreterProgram::new` leaves it,
/// matches the program.
pub proof fn lemma_empty_cache_matches(p: InterpreterProgram)
    requires
        forall|j: int| 0 <= j < p.decoded_cache@.len() ==> p.decoded_cache@[j].is_none(),
    ensures
        cache_matches(p, p.decoded_cache@),
{
}

/// Decoding a block of instruction starts only ever stores, under an
/// instruction's index, that instruction decoded, when the index table
/// keeps instruction starts apart.
pub proof fn lemma_fill_matches(
    p: InterpreterProgram,
    cache: Seq<Option<DecodedInst>>,
    valid: Seq<u32>,
    pc: int,
    end: int,
)
    requires
        cache_matches(p, cache),
        index_distinct(p.code@, p.pc_to_idx@),
        fill_ok(p, cache, pc, end),
        0 <= pc,
        reaches(p.code@, 0, pc),
    ensures
        cache_matches(p, fill_block(p, cache, valid, pc, end).0),
    decreases end + 9 - pc,
{
    let code = p.code@;
    if !(pc >= end || pc < 0 || pc >= code.len()) {
        let idx = p.pc_to_idx@[pc] as int;
        let next = next_pc_of(code, pc);
        lemma_reaches_next(code, 0, pc);
        if cache_entry(cache, idx).is_some() {
            lemma_fill_matches(p, cache, valid, next, end);
        } else {
            let c2 = cache_with(cache, idx, decoded_at(p, pc as u32));
            let v2 = valid_with(cache.len() as int, valid, idx);
            assert forall|q: int|
                #![trigger reaches(code, 0, q)]
                0 <= q < code.len() && q < p.pc_to_idx@.len() && reaches(code, 0, q) && cache_entry(
                    c2,
                    p.pc_to_idx@[q] as int,
                ).is_some() implies cache_entry(c2, p.pc_to_idx@[q] as int) == Some(
                decoded_at(p, q as u32),
            ) by {
                if p.pc_to_idx@[q] as int != idx {
                    assert(cache_entry(c2, p.pc_to_idx@[q] as int) == cache_entry(cache, p.pc_to_idx@[q] as int));
                } else {
                    assert(reaches(code, 0, q) && reaches(code, 0, pc));
                    assert(q == pc);
                }
            }
            lemma_fill_matches(p, c2, v2, next, end);
        }
    }
}

/// Decoding a block never changes an instruction that was already cached.
pub proof fn lemma_fill_keeps(
    p: InterpreterProgram,
    cache: Seq<Option<DecodedInst>>,
    valid: Seq<u32>,
    pc: int,
    end: int,
    j: int,
)
    requires
        cache_entry(cache, j).is_some(),
    ensures
        cache_entry(fill_block(p, cache, valid, pc, end).0, j) == cache_entry(cache, j),
    decreases end + 9 - pc,
{
    if !(pc >= end || pc < 0 || pc >= p.code@.len()) {
        let idx = p.pc_to_idx@[pc] as int;
        let next = next_pc_of(p.code@, pc);
        if cache_entry(cache, idx).is_some() {
            lemma_fill_keeps(p, cache, valid, next, end, j);
        } else {
            let c2 = cache_with(cache, idx, decoded_at(p, pc as u32));
            let v2 = valid_with(cache.len() as int, valid, idx);
            assert(cache_entry(c2, j) == cache_entry(cache, j));
            lemma_fill_keeps(p, c2, v2, next, end, j);
        }
    }
}

proof fn lemma_block_end_after(code: Seq<u8>, pc: int)
    requires
        0 <= pc < code.len(),
    ensures
        block_end_at(code, pc) > pc,
    decreases code.len() + 9 - pc,
{
    if !opcode_is_terminator(code[pc]) {
        let next = next_pc_of(code, pc);
        if next < code.len() {
            lemma_block_end_after(code, next);
        }
    }
}

/// Decoding the block that starts at `pc` leaves every one of its
/// instructions cached under its instruction index.
pub proof fn lemma_fill_covers_block(
    p: InterpreterProgram,
    cache: Seq<Option<DecodedInst>>,
    valid: Seq<u32>,
    pc: int,
    q: int,
)
    requires
        in_block(p.code@, pc, q),
    ensures
        cache_entry(
            fill_block(p, cache, valid, pc, block_end_at(p.code@, pc)).0,
            p.pc_to_idx@[q] as int,
        ).is_some(),
    decreases p.code@.len() + 9 - pc,
{
    let code = p.code@;
    let end = block_end_at(code, pc);
    let idx = p.pc_to_idx@[pc] as int;
    let next = next_pc_of(code, pc);
    lemma_block_end_after(code, pc);
    let (c2, v2) = if cache_entry(cache, idx).is_some() {
        (cache, valid)
    } else {
        (cache_with(cache, idx, decoded_at(p, pc as u32)), valid_with(cache.len() as int, valid, idx))
    };
    assert(fill_block(p, cache, valid, pc, end) == fill_block(p, c2, v2, next, end));
    assert(cache_entry(c2, idx).is_some());
    if q == pc {
        lemma_fill_keeps(p, c2, v2, next, end, idx);
    } else {
        assert(!opcode_is_terminator(code[pc]));
        assert(in_block(code, next, q));
        assert(block_end_at(code, next) == end);
        lemma_fill_covers_block(p, c2, v2, next, q);
    }
}

/// When the block start is not cached yet, decoding its block stores it,
/// decoded, under its instruction index.
proof fn lemma_fill_stores_start(p: InterpreterProgram, cache: Seq<Option<DecodedInst>>, valid: Seq<u32>, pc: int)
    requires
        0 <= pc < p.code@.len(),
        cache_entry(cache, p.pc_to_idx@[pc] as int).is_none(),
    ensures
        cache_entry(
            fill_block(p, cache, valid, pc, block_end_at(p.code@, pc)).0,
            p.pc_to_idx@[pc] as int,
        ) == Some(decoded_at(p, pc as u32)),
{
    let end = block_end_at(p.code@, pc);
    let idx = p.pc_to_idx@[pc] as int;
    let next = next_pc_of(p.code@, pc);
    lemma_block_end_after(p.code@, pc);
    let c2 = cache_with(cache, idx, decoded_at(p, pc as u32));
    let v2 = valid_with(cache.len() as int, valid, idx);
    assert(fill_block(p, cache, valid, pc, end) == fill_block(p, c2, v2, next, end));
    lemma_fill_keeps(p, c2, v2, next, end, idx);
}

/// A tables-preserving change keeps what decoding gives.
proof fn lemma_decoded_at_tables(a: InterpreterProgram, b: InterpreterProgram, pc: u32)
    requires
        same_tables(a, b),
    ensures
        decoded_at(a, pc) == decoded_at(b, pc),
        decodable(a, pc as int) == decodable(b, pc as int),
{
}

/// `q` is `p` after the block that starts at `pc` was decoded on demand:
/// every instruction of the block whose instruction index held nothing is
/// decoded into the cache, the block is counted, and once more than half the
/// blocks are counted the program is switched to eager mode.
pub open spec fn block_decoded(p: InterpreterProgram, q: InterpreterProgram, pc: int) -> bool {
    let filled = fill_block(p, p.decoded_cache@, p.cache_valid_until@, pc, block_end_at(p.code@, pc));
    let count = (p.decoded_block_count + 1) as u32;
    &&& q.decoded_block_count == count
    &&& q.cache_valid_until@ == filled.1
    &&& q.basic_block_starts@ == p.basic_block_starts@
    &&& q.block_gas_costs@ == p.block_gas_costs@
    &&& q.code@ == p.code@
    &&& q.bitmask@ == p.bitmask@
    &&& q.jump_table@ == p.jump_table@
    &&& q.mem_cycles == p.mem_cycles
    &&& q.total_block_count == p.total_block_count
    &&& if eager_due(count, p.total_block_count) {
        &&& q.decoded_insts@ == predecoded_insts(p.code@)
        &&& q.pc_to_idx@ == predecoded_index(p.code@)
        &&& q.decoded_cache@.len() == 0
        &&& !q.lazy_enabled
    } else {
        &&& q.decoded_cache@ == filled.0
        &&& same_tables(q, p)
        &&& forall|r: int|
            #![trigger in_block(p.code@, pc, r)]
            in_block(p.code@, pc, r) ==> cache_entry(q.decoded_cache@, p.pc_to_idx@[r] as int).is_some()
        &&& (cache_matches(p, p.decoded_cache@) && index_distinct(p.code@, p.pc_to_idx@) && 0 <= pc
            && reaches(p.code@, 0, pc)) ==> cache_matches(q, q.decoded_cache@)
    }
}

/// Wraps `s` to 32 bits.
fn wrap_to_u32(s: i32) -> (r: u32)
    ensures
        r == (s as int) % 0x1_0000_0000,
{
    let r = s as u32;
    assert(s >= 0 ==> r as i64 == s as i64) by (bit_vector)
        requires
            r == s as u32,
    ;
    assert(s < 0 ==> r as i64 == s as i64 + 0x1_0000_0000i64) by (bit_vector)
        requires
            r == s as u32,
    ;
    r
}

impl Interpreter {
    /// An interpreter for `program`.
    pub fn new_with_program(program: InterpreterProgram) -> (interp: Self)
        ensures
            interp.program == program,
    {
        Interpreter { program }
    }

    /// On-demand get decoded instruction
    ///
    /// If the instruction is already cached, return it directly.
    /// Otherwise, decode the entire basic block and cache all instructions.
    /// When that decoding crosses the eager-switch threshold, the program
    /// switches to eager mode and the instruction is still returned.
    pub fn get_decoded(&mut self, pc: u32) -> (inst: DecodedInst)
        requires
            (pc as int) < old(self).program.pc_to_idx@.len(),
            !old(self).program.lazy_enabled ==> (old(self).program.pc_to_idx@[pc as int] as int)
                < old(self).program.decoded_insts@.len(),
            old(self).program.lazy_enabled && cache_entry(
                old(self).program.decoded_cache@,
                old(self).program.pc_to_idx@[pc as int] as int,
            ).is_none() ==> {
                &&& (pc as int) < old(self).program.code@.len()
                &&& block_decodable(old(self).program, pc as int)
                &&& old(self).program.decoded_block_count < u32::MAX
            },
        ensures
            ({
                let p = old(self).program;
                let q = final(self).program;
                let idx = p.pc_to_idx@[pc as int] as int;
                if !p.lazy_enabled {
                    &&& inst == p.decoded_insts@[idx]
                    &&& *final(self) == *old(self)
                } else if cache_entry(p.decoded_cache@, idx).is_some() {
                    &&& Some(inst) == cache_entry(p.decoded_cache@, idx)
                    &&& (cache_matches(p, p.decoded_cache@) && (pc as int) < p.code@.len() && reaches(
                        p.code@,
                        0,
                        pc as int,
                    )) ==> inst == decoded_at(p, pc)
                    &&& *final(self) == *old(self)
                } else {
                    &&& inst == decoded_at(p, pc)
                    &&& block_decoded(p, q, pc as int)
                }
            }),
    {
        let idx = self.program.pc_to_idx[pc as usize];
        if self.program.lazy_enabled {
            if self.program.is_cached(idx) {
                *self.program.get_cached(idx).expect("cached instruction")
            } else {
                proof {
                    lemma_fill_stores_start(
                        self.program,
                        self.program.decoded_cache@,
                        self.program.cache_valid_until@,
                        pc as int,
                    );
                }
                self.lazy_decode_block(pc).expect("lazy_decode_block should have populated cache")
            }
        } else {
            self.program.decoded_insts[idx as usize]
        }
    }

    /// Lazily decode a single basic block
    ///
    /// Decodes all instructions within the basic block starting at `start_pc`.
    /// Results are stored in `decoded_cache`. Returns what the cache holds for
    /// `start_pc` once the block is decoded, before any switch to eager mode
    /// releases it.
    fn lazy_decode_block(&mut self, start_pc: u32) -> (first: Option<DecodedInst>)
        requires
            block_decodable(old(self).program, start_pc as int),
            old(self).program.decoded_block_count < u32::MAX,
        ensures
            ({
                let p = old(self).program;
                let filled = fill_block(
                    p,
                    p.decoded_cache@,
                    p.cache_valid_until@,
                    start_pc as int,
                    block_end_at(p.code@, start_pc as int),
                );
                first == if (start_pc as int) < p.code@.len() {
                    cache_entry(filled.0, p.pc_to_idx@[start_pc as int] as int)
                } else {
                    None
                }
            }),
            block_decoded(old(self).program, final(self).program, start_pc as int),
    {
        let ghost p0 = self.program;
        let block_end = self.find_block_end(start_pc);
        let mut pc = start_pc;
        while pc < block_end
            invariant
                same_tables(self.program, p0),
                self.program.decoded_block_count == p0.decoded_block_count,
                code_len_fits(p0.code@.len()),
                block_end == block_end_at(p0.code@, start_pc as int),
                start_pc <= pc,
                pc < block_end ==> in_block(p0.code@, start_pc as int, pc as int),
                fill_ok(p0, self.program.decoded_cache@, pc as int, block_end as int),
                fill_block(
                    p0,
                    self.program.decoded_cache@,
                    self.program.cache_valid_until@,
                    pc as int,
                    block_end as int,
                ) == fill_block(
                    p0,
                    p0.decoded_cache@,
                    p0.cache_valid_until@,
                    start_pc as int,
                    block_end as int,
                ),
            ensures
                pc >= block_end,
            decreases block_end + 9 - pc,
        {
            let ghost code = p0.code@;
            proof {
                lemma_in_block_same_end(code, start_pc as int, pc as int);
                lemma_decoded_at_tables(self.program, p0, pc);
            }
            let idx = self.program.pc_to_idx[pc as usize];
            if !self.program.is_cached(idx) {
                let inst = self.decode_single_instruction(pc);
                self.program.set_cached(idx, inst);
            }
            let ghost old_pc = pc as int;
            pc = self.get_next_pc(pc);
            proof {
                if pc < block_end {
                    // Past a terminator the block has ended, and past the
                    // code's end so has the block.
                    assert(!opcode_is_terminator(code[old_pc]));
                    if pc as int >= code.len() {
                        assert(block_end_at(code, pc as int) == code.len());
                    }
                    lemma_in_block_next(code, start_pc as int, old_pc);
                }
            }
            if pc <= start_pc && pc != block_end {
                break;
            }
        }
        let ghost end = block_end as int;
        proof {
            let p = p0;
            let start = start_pc as int;
            if start < p.code@.len() {
                lemma_block_end_after(p.code@, start);
            }
            assert forall|r: int|
                #![trigger in_block(p.code@, start, r)]
                in_block(p.code@, start, r) implies cache_entry(
                    self.program.decoded_cache@,
                    p.pc_to_idx@[r] as int,
                ).is_some() by {
                lemma_fill_covers_block(p, p.decoded_cache@, p.cache_valid_until@, start, r);
            }
            if cache_matches(p, p.decoded_cache@) && index_distinct(p.code@, p.pc_to_idx@) && 0 <= start
                && reaches(p.code@, 0, start) {
                lemma_fill_matches(p, p.decoded_cache@, p.cache_valid_until@, start, end);
                assert forall|q: int|
                    #![trigger reaches(self.program.code@, 0, q)]
                    0 <= q < self.program.code@.len() && q < self.program.pc_to_idx@.len() && reaches(
                        self.program.code@,
                        0,
                        q,
                    ) && cache_entry(self.program.decoded_cache@, self.program.pc_to_idx@[q] as int).is_some()
                        implies cache_entry(self.program.decoded_cache@, self.program.pc_to_idx@[q] as int)
                        == Some(decoded_at(self.program, q as u32)) by {
                    lemma_decoded_at_tables(self.program, p, q as u32);
                    assert(reaches(p.code@, 0, q));
                }
            }
        }
        let first = if (start_pc as usize) < self.program.code.len() {
            let idx = self.program.pc_to_idx[start_pc as usize];
            match self.program.get_cached(idx) {
                Some(inst) => Some(*inst),
                None => None,
            }
        } else {
            None
        };
        self.program.increment_decoded_blocks();
        if self.program.should_eager_decode() {
            self.switch_to_eager_mode();
        }
        first
    }

    /// Decode a single instruction at the given PC
    ///
    /// This is a simplified version that only decodes what's needed
    /// for execution, without full pre-decoding optimization.
    fn decode_single_instruction(&self, pc: u32) -> (inst: DecodedInst)
        requires
            code_len_fits(self.program.code@.len()),
            decodable(self.program, pc as int),
        ensures
            inst == decoded_at(self.program, pc),
    {
        let code = &self.program.code;
        let bitmask = &self.program.bitmask;
        let opcode_byte = code[pc as usize];
        let raw_ra = bitmask_get(bitmask, pc, 0).unwrap_or(NO_REG);
        let raw_rb = bitmask_get(bitmask, pc, 1).unwrap_or(NO_REG);
        let raw_rd = bitmask_get(bitmask, pc, 2).unwrap_or(NO_REG);
        let bb_gas_cost = self.compute_gas_cost_for_block(pc);
        let (imm1, imm2) = self.parse_immediates(pc, opcode_byte);
        let next_pc = self.get_next_pc(pc);
        let next_idx = if next_pc < code.len() as u32 {
            self.program.pc_to_idx[next_pc as usize]
        } else {
            0
        };
        let target_idx = if is_branch(opcode_byte) {
            self.resolve_branch_target_idx(pc, raw_ra, raw_rb)
        } else {
            0
        };
        DecodedInst {
            opcode: Opcode::from(opcode_byte),
            ra: raw_ra,
            rb: raw_rb,
            rd: raw_rd,
            imm1,
            imm2,
            pc,
            next_pc,
            next_idx,
            target_idx,
            bb_gas_cost,
        }
    }

    /// Compute gas cost for the block containing the given PC
    fn compute_gas_cost_for_block(&self, pc: u32) -> (cost: u32)
        ensures
            cost == block_gas_cost_at(self.program.basic_block_starts@, self.program.block_gas_costs@, pc as int),
    {
        let starts = &self.program.basic_block_starts;
        let costs = &self.program.block_gas_costs;
        // Scan down from `pc` (or the last start entry) to the nearest start.
        let mut i: usize = if (pc as usize) < starts.len() {
            pc as usize + 1
        } else {
            proof {
                lemma_no_start_past_end(starts@, pc as int);
            }
            starts.len()
        };
        while i > 0
            invariant
                i <= starts@.len(),
                i <= pc + 1,
                starts@ == self.program.basic_block_starts@,
                costs@ == self.program.block_gas_costs@,
                block_start_at_or_before(starts@, i - 1) == block_start_at_or_before(starts@, pc as int),
            decreases i,
        {
            i = i - 1;
            if starts[i] {
                if i < costs.len() {
                    return costs[i];
                }
                return 0;
            }
        }
        0
    }

    /// Parse immediates for an instruction
    fn parse_immediates(&self, pc: u32, opcode: u8) -> (imm: (u64, u64))
        requires
            (opcode == 20 || opcode == 51) ==> pc + 9 <= self.program.code@.len(),
            opcode_is_branch(opcode) ==> pc + 5 <= self.program.code@.len(),
        ensures
            imm == immediates_of(self.program.code@, pc as int, opcode),
    {
        let code = &self.program.code;
        assert(code@.len() == code.len());
        if opcode == 20 || opcode == 51 {
            let imm = read_le_u64(code, pc as usize + 1);
            (imm, 0)
        } else if opcode >= 181 {
            let raw = read_le_u32(code, pc as usize + 1);
            let offset = sign_extend_to_u64(raw);
            (offset, 0)
        } else {
            (0, 0)
        }
    }

    /// Find the end of a basic block starting at `start_pc`
    fn find_block_end(&self, start_pc: u32) -> (end: u32)
        requires
            code_len_fits(self.program.code@.len()),
        ensures
            end == block_end_at(self.program.code@, start_pc as int),
    {
        let code = &self.program.code;
        let code_len = code.len() as u32;
        let mut pc = start_pc;
        while pc < code_len
            invariant
                code_len == code@.len(),
                code_len_fits(code@.len()),
                code@ == self.program.code@,
                block_end_at(code@, pc as int) == block_end_at(code@, start_pc as int),
            decreases code_len + 9 - pc,
        {
            let opcode = code[pc as usize];
            if is_terminator(opcode) {
                return pc + instruction_length(opcode) as u32;
            }
            pc = self.get_next_pc(pc);
        }
        code_len
    }

    /// Get the PC of the next instruction after the one at `pc`
    fn get_next_pc(&self, pc: u32) -> (next: u32)
        requires
            (pc as int) < self.program.code@.len(),
            code_len_fits(self.program.code@.len()),
        ensures
            next == next_pc_of(self.program.code@, pc as int),
    {
        let opcode = self.program.code[pc as usize];
        pc + instruction_length(opcode) as u32
    }

    /// Resolve a branch target to its entry in the index table
    fn resolve_branch_target_idx(&self, pc: u32, _ra: u8, _rb: u8) -> (idx: u32)
        requires
            code_len_fits(self.program.code@.len()),
            pc + 5 <= self.program.code@.len(),
            branch_target_fits(self.program.code@, pc as int),
            branch_target(self.program.code@, pc as int) < self.program.code@.len()
                ==> branch_target(self.program.code@, pc as int) < self.program.pc_to_idx@.len(),
        ensures
            idx == branch_target_index(self.program.code@, self.program.pc_to_idx@, pc as int),
    {
        let code = &self.program.code;
        let offset = as_signed32(read_le_u32(code, pc as usize + 1));
        let target_sum = as_signed32(pc) + offset + instruction_length(code[pc as usize]) as i32;
        let target_pc = wrap_to_u32(target_sum);
        proof {
            let raw = branch_offset_raw(code@, pc as int);
            let len = opcode_length(code@[pc as int]) as int;
            let x = pc as int + signed32(raw) + len;
            if pc >= 0x8000_0000 {
                vstd::arithmetic::div_mod::lemma_mod_multiples_vanish(1, x - 0x1_0000_0000, 0x1_0000_0000);
            }
        }
        if target_pc >= code.len() as u32 {
            return 0;
        }
        self.program.pc_to_idx[target_pc as usize]
    }

    /// Switch to eager pre-decode mode
    ///
    /// This is called when we've decoded enough blocks that eager mode
    /// would be more efficient.
    fn switch_to_eager_mode(&mut self)
        ensures
            switched_from(old(self).program, final(self).program),
    {
        let gas_block_starts = compute_gas_block_starts(
            self.program.code.as_slice(),
            self.program.bitmask.as_slice(),
        );
        let (decoded_insts, pc_to_idx) = predecode_instructions(
            self.program.code.as_slice(),
            self.program.bitmask.as_slice(),
            self.program.basic_block_starts.as_slice(),
            gas_block_starts.as_slice(),
            self.program.block_gas_costs.as_slice(),
        );
        self.program.decoded_insts = decoded_insts;
        self.program.pc_to_idx = pc_to_idx;
        self.program.lazy_enabled = false;
        let _ = self.program.drain_cache();
    }
}

} // verus!
