//! The program as the interpreter holds it: code, layout tables, and the
//! cache of lazily decoded instructions.

use vstd::prelude::*;
use crate::inst::DecodedInst;
use crate::layout::{
    code_len_fits, index_distinct, instruction_index_at, compute_basic_block_starts, compute_block_gas_costs,
    compute_gas_block_starts, compute_pc_to_idx, predecode_instructions, predecoded_index,
    predecoded_insts,
};

verus! {

/// A program prepared for interpretation.
pub struct InterpreterProgram {
    /// Instructions decoded ahead of time (eager mode).
    pub decoded_insts: Vec<DecodedInst>,
    /// Instruction index of each code position: in lazy mode as
    /// `compute_pc_to_idx` gives it (also the key of the decode cache), in
    /// eager mode the index into `decoded_insts` that pre-decoding gives.
    pub pc_to_idx: Vec<u32>,
    /// Which code positions start a basic block.
    pub basic_block_starts: Vec<bool>,
    /// Gas cost of each gas block.
    pub block_gas_costs: Vec<u32>,
    /// Raw bytecode.
    pub code: Vec<u8>,
    /// Operand bitmask.
    pub bitmask: Vec<u8>,
    /// Dynamic jump table.
    pub jump_table: Vec<u32>,
    /// Memory tier cycles.
    pub mem_cycles: u8,
    /// Lazily decoded instructions, by instruction index; `None` where not
    /// decoded yet.
    pub decoded_cache: Vec<Option<DecodedInst>>,
    /// Block boundary cache, kept as long as the decode cache.
    pub cache_valid_until: Vec<u32>,
    /// Number of blocks decoded so far.
    pub decoded_block_count: u32,
    /// Number of basic blocks of the program.
    pub total_block_count: u32,
    /// Decode lazily (`true`) or use the eager tables (`false`).
    pub lazy_enabled: bool,
}

/// The instruction cached at `idx`, if any.
pub open spec fn cache_entry(cache: Seq<Option<DecodedInst>>, idx: int) -> Option<DecodedInst> {
    if 0 <= idx < cache.len() {
        cache[idx]
    } else {
        None
    }
}

/// `v` cut down, or padded with zeros, to length `n`.
pub open spec fn resized_zeros(v: Seq<u32>, n: int) -> Seq<u32> {
    if n <= v.len() {
        v.subrange(0, n)
    } else {
        v + Seq::new((n - v.len()) as nat, |i: int| 0u32)
    }
}

/// The decode cache after storing `inst` at `idx`, growing it with empty
/// entries first where it is too short.
pub open spec fn cache_with(cache: Seq<Option<DecodedInst>>, idx: int, inst: DecodedInst) -> Seq<
    Option<DecodedInst>,
> {
    let grown = if idx < cache.len() {
        cache
    } else {
        cache + Seq::new((idx + 1 - cache.len()) as nat, |i: int| None::<DecodedInst>)
    };
    grown.update(idx, Some(inst))
}

/// The block boundary cache after an instruction is stored at `idx` in a
/// decode cache of length `cache_len`: resized to `idx + 1` entries when the
/// decode cache had to grow, else unchanged.
pub open spec fn valid_with(cache_len: int, valid: Seq<u32>, idx: int) -> Seq<u32> {
    if idx < cache_len {
        valid
    } else {
        resized_zeros(valid, idx + 1)
    }
}

/// The cached instructions, in index order.
pub open spec fn cached_insts(cache: Seq<Option<DecodedInst>>) -> Seq<DecodedInst>
    decreases cache.len(),
{
    if cache.len() == 0 {
        Seq::empty()
    } else {
        let rest = cached_insts(cache.drop_last());
        match cache.last() {
            Some(inst) => rest.push(inst),
            None => rest,
        }
    }
}

/// More than half of the blocks have been decoded (or there are none).
pub open spec fn eager_due(decoded: u32, total: u32) -> bool {
    total == 0 || 2 * decoded > total
}

/// Number of `true` entries of `s`.
pub open spec fn count_true(s: Seq<bool>) -> nat
    decreases s.len(),
{
    if s.len() == 0 {
        0
    } else {
        count_true(s.drop_last()) + if s.last() { 1nat } else { 0nat }
    }
}

/// `a` and `b` agree on everything but the two caches and the decoded
/// block count.
pub open spec fn same_tables(a: InterpreterProgram, b: InterpreterProgram) -> bool {
    &&& a.decoded_insts@ == b.decoded_insts@
    &&& a.pc_to_idx@ == b.pc_to_idx@
    &&& a.basic_block_starts@ == b.basic_block_starts@
    &&& a.block_gas_costs@ == b.block_gas_costs@
    &&& a.code@ == b.code@
    &&& a.bitmask@ == b.bitmask@
    &&& a.jump_table@ == b.jump_table@
    &&& a.mem_cycles == b.mem_cycles
    &&& a.total_block_count == b.total_block_count
    &&& a.lazy_enabled == b.lazy_enabled
}

/// An instruction stored at an index is the one read back there, and every
/// other index reads as it did before.
pub proof fn lemma_read_after_write(cache: Seq<Option<DecodedInst>>, idx: u32, inst: DecodedInst, j: int)
    ensures
        cache_entry(cache_with(cache, idx as int, inst), idx as int) == Some(inst),
        j != idx ==> cache_entry(cache_with(cache, idx as int, inst), j) == cache_entry(cache, j),
{
}

/// Every instruction held in the cache is among those that draining it
/// returns.
pub proof fn lemma_drain_returns_cached(cache: Seq<Option<DecodedInst>>, j: int)
    requires
        cache_entry(cache, j).is_some(),
    ensures
        cached_insts(cache).contains(cache_entry(cache, j).unwrap()),
    decreases cache.len(),
{
    let rest = cache.drop_last();
    if j == cache.len() - 1 {
        assert(cached_insts(cache) == cached_insts(rest).push(cache[j].unwrap()));
        assert(cached_insts(cache)[cached_insts(rest).len() as int] == cache[j].unwrap());
    } else {
        assert(cache_entry(rest, j) == cache_entry(cache, j));
        lemma_drain_returns_cached(rest, j);
        let x = cache_entry(cache, j).unwrap();
        let k = choose|k: int| 0 <= k < cached_insts(rest).len() && cached_insts(rest)[k] == x;
        match cache.last() {
            Some(y) => {
                assert(cached_insts(cache)[k] == x);
            },
            None => {},
        }
    }
}

/// `q` is `p` switched to eager mode: the pre-decoded tables in place, lazy
/// decoding off, the decode cache released, everything else kept.
pub open spec fn switched_from(p: InterpreterProgram, q: InterpreterProgram) -> bool {
    &&& q.decoded_insts@ == predecoded_insts(p.code@)
    &&& q.pc_to_idx@ == predecoded_index(p.code@)
    &&& q.decoded_cache@.len() == 0
    &&& !q.lazy_enabled
    &&& q.cache_valid_until@ == p.cache_valid_until@
    &&& q.decoded_block_count == p.decoded_block_count
    &&& q.basic_block_starts@ == p.basic_block_starts@
    &&& q.block_gas_costs@ == p.block_gas_costs@
    &&& q.code@ == p.code@
    &&& q.bitmask@ == p.bitmask@
    &&& q.jump_table@ == p.jump_table@
    &&& q.mem_cycles == p.mem_cycles
    &&& q.total_block_count == p.total_block_count
}

/// Switching to eager mode a second time changes nothing.
pub proof fn lemma_switch_idempotent(p0: InterpreterProgram, p1: InterpreterProgram, p2: InterpreterProgram)
    requires
        switched_from(p0, p1),
        switched_from(p1, p2),
    ensures
        same_tables(p2, p1),
        p2.decoded_cache@ == p1.decoded_cache@,
        p2.cache_valid_until@ == p1.cache_valid_until@,
        p2.decoded_block_count == p1.decoded_block_count,
{
}

/// A vector of `n` copies of `value`.
fn filled<T: Copy>(n: usize, value: T) -> (v: Vec<T>)
    ensures
        v@ == Seq::new(n as nat, |i: int| value),
{
    let mut v: Vec<T> = Vec::new();
    let mut k: usize = 0;
    while k < n
        invariant
            k <= n,
            v@ == Seq::new(k as nat, |i: int| value),
        decreases n - k,
    {
        v.push(value);
        k = k + 1;
        assert(v@ =~= Seq::new(k as nat, |i: int| value));
    }
    v
}

/// Number of `true` entries of `starts`.
fn count_block_starts(starts: &[bool]) -> (n: u32)
    requires
        starts@.len() <= u32::MAX,
    ensures
        n == count_true(starts@),
{
    let mut n: u32 = 0;
    let mut k: usize = 0;
    while k < starts.len()
        invariant
            k <= starts@.len() <= u32::MAX,
            n == count_true(starts@.subrange(0, k as int)),
            n <= k,
        decreases starts@.len() - k,
    {
        assert(starts@.subrange(0, k + 1).drop_last() =~= starts@.subrange(0, k as int));
        if starts[k] {
            n = n + 1;
        }
        k = k + 1;
    }
    assert(starts@.subrange(0, starts@.len() as int) =~= starts@);
    n
}

/// `v` cut down, or padded with zeros, to length `n`.
fn resize_zeros(v: &mut Vec<u32>, n: usize)
    ensures
        final(v)@ == resized_zeros(old(v)@, n as int),
{
    if n <= v.len() {
        v.truncate(n);
    } else {
        let ghost start = v@;
        while v.len() < n
            invariant
                start.len() <= v@.len() <= n,
                v@ == start + Seq::new((v@.len() - start.len()) as nat, |i: int| 0u32),
            decreases n - v@.len(),
        {
            v.push(0);
            assert(v@ =~= start + Seq::new((v@.len() - start.len()) as nat, |i: int| 0u32));
        }
    }
}

/// `v` padded with empty entries up to length `n`.
fn pad_with_none(v: &mut Vec<Option<DecodedInst>>, n: usize)
    requires
        old(v)@.len() <= n,
    ensures
        final(v)@ == old(v)@ + Seq::new((n - old(v)@.len()) as nat, |i: int| None::<DecodedInst>),
{
    let ghost start = v@;
    while v.len() < n
        invariant
            start.len() <= v@.len() <= n,
            v@ == start + Seq::new((v@.len() - start.len()) as nat, |i: int| None::<DecodedInst>),
        decreases n - v@.len(),
    {
        v.push(None);
        assert(v@ =~= start + Seq::new((v@.len() - start.len()) as nat, |i: int| None::<DecodedInst>));
    }
}

impl InterpreterProgram {
    /// Create a new InterpreterProgram with optional lazy pre-decode
    ///
    /// # Arguments
    ///
    /// * `code` - Raw bytecode
    /// * `bitmask` - Opcode bitmask
    /// * `jump_table` - Dynamic jump table
    /// * `mem_cycles` - Memory tier cycles (25/50/75/100)
    /// * `lazy_enabled` - Enable lazy pre-decode (recommended for short programs)
    pub fn new(code: Vec<u8>, bitmask: Vec<u8>, jump_table: Vec<u32>, mem_cycles: u8, lazy_enabled: bool) -> (p: Self)
        requires
            lazy_enabled ==> code_len_fits(code@.len()),
        ensures
            p.basic_block_starts@ == seq![true],
            lazy_enabled ==> p.decoded_insts@.len() == 0,
            lazy_enabled ==> p.pc_to_idx@.len() == code@.len(),
            lazy_enabled ==> forall|q: int|
                0 <= q < code@.len() ==> p.pc_to_idx@[q] == instruction_index_at(code@, q),
            lazy_enabled ==> index_distinct(code@, p.pc_to_idx@),
            !lazy_enabled ==> p.decoded_insts@ == predecoded_insts(code@),
            !lazy_enabled ==> p.pc_to_idx@ == predecoded_index(code@),
            p.block_gas_costs@ == seq![1u32],
            p.code@ == code@,
            p.bitmask@ == bitmask@,
            p.jump_table@ == jump_table@,
            p.mem_cycles == mem_cycles,
            p.decoded_cache@ == Seq::new(code@.len(), |i: int| None::<DecodedInst>),
            p.cache_valid_until@ == Seq::new(code@.len(), |i: int| 0u32),
            p.decoded_block_count == 0,
            p.total_block_count == 1,
            p.lazy_enabled == lazy_enabled,
    {
        let basic_block_starts = compute_basic_block_starts(code.as_slice(), bitmask.as_slice());
        let gas_block_starts = compute_gas_block_starts(code.as_slice(), bitmask.as_slice());
        let block_gas_costs = compute_block_gas_costs(
            code.as_slice(),
            bitmask.as_slice(),
            gas_block_starts.as_slice(),
            mem_cycles,
        );
        let (decoded_insts, pc_to_idx) = if lazy_enabled {
            // Block structure only; instructions are decoded on first use.
            (Vec::new(), compute_pc_to_idx(code.as_slice(), bitmask.as_slice(), basic_block_starts.as_slice()))
        } else {
            predecode_instructions(
                code.as_slice(),
                bitmask.as_slice(),
                basic_block_starts.as_slice(),
                gas_block_starts.as_slice(),
                block_gas_costs.as_slice(),
            )
        };
        let total_block_count = count_block_starts(basic_block_starts.as_slice());
        proof {
            reveal_with_fuel(count_true, 2);
        }
        let decoded_cache: Vec<Option<DecodedInst>> = filled(code.len(), None);
        let cache_valid_until: Vec<u32> = filled(code.len(), 0);
        InterpreterProgram {
            decoded_insts,
            pc_to_idx,
            basic_block_starts,
            block_gas_costs,
            code,
            bitmask,
            jump_table,
            mem_cycles,
            decoded_cache,
            cache_valid_until,
            decoded_block_count: 0,
            total_block_count,
            lazy_enabled,
        }
    }

    /// Check if we should switch to eager pre-decode mode
    ///
    /// When more than 50% of blocks have been decoded, eager mode
    /// becomes more efficient than continuing with lazy decoding.
    pub fn should_eager_decode(&self) -> (b: bool)
        ensures
            b == eager_due(self.decoded_block_count, self.total_block_count),
    {
        if self.total_block_count == 0 {
            return true;
        }
        (self.decoded_block_count as u64) * 2 > self.total_block_count as u64
    }

    /// Check if decoded instruction is cached
    pub fn is_cached(&self, idx: u32) -> (b: bool)
        ensures
            b == cache_entry(self.decoded_cache@, idx as int).is_some(),
    {
        (idx as usize) < self.decoded_cache.len() && self.decoded_cache[idx as usize].is_some()
    }

    /// Get cached decoded instruction
    pub fn get_cached(&self, idx: u32) -> (r: Option<&DecodedInst>)
        ensures
            match r {
                Some(inst) => cache_entry(self.decoded_cache@, idx as int) == Some(*inst),
                None => cache_entry(self.decoded_cache@, idx as int).is_none(),
            },
    {
        if (idx as usize) < self.decoded_cache.len() {
            match &self.decoded_cache[idx as usize] {
                Some(inst) => Some(inst),
                None => None,
            }
        } else {
            None
        }
    }

    /// Set cached decoded instruction
    pub fn set_cached(&mut self, idx: u32, inst: DecodedInst)
        requires
            idx < usize::MAX,
        ensures
            final(self).decoded_cache@ == cache_with(old(self).decoded_cache@, idx as int, inst),
            final(self).cache_valid_until@ == valid_with(
                old(self).decoded_cache@.len() as int,
                old(self).cache_valid_until@,
                idx as int,
            ),
            cache_entry(final(self).decoded_cache@, idx as int) == Some(inst),
            forall|j: int|
                j != idx ==> cache_entry(final(self).decoded_cache@, j) == cache_entry(
                    old(self).decoded_cache@,
                    j,
                ),
            same_tables(*final(self), *old(self)),
            final(self).decoded_block_count == old(self).decoded_block_count,
            old(self).decoded_cache@.len() == old(self).cache_valid_until@.len() ==> {
                &&& final(self).decoded_cache@.len() == final(self).cache_valid_until@.len()
                &&& forall|j: int|
                    0 <= j < old(self).cache_valid_until@.len() ==> final(self).cache_valid_until@[j]
                        == old(self).cache_valid_until@[j]
                &&& forall|j: int|
                    old(self).cache_valid_until@.len() <= j < final(self).cache_valid_until@.len()
                        ==> final(self).cache_valid_until@[j] == 0
            },
    {
        if idx as usize >= self.decoded_cache.len() {
            let n = idx as usize + 1;
            pad_with_none(&mut self.decoded_cache, n);
            resize_zeros(&mut self.cache_valid_until, n);
        }
        self.decoded_cache.set(idx as usize, Some(inst));
    }

    /// Increment decoded block counter
    pub fn increment_decoded_blocks(&mut self)
        requires
            old(self).decoded_block_count < u32::MAX,
        ensures
            final(self).decoded_block_count == old(self).decoded_block_count + 1,
            final(self).decoded_cache@ == old(self).decoded_cache@,
            final(self).cache_valid_until@ == old(self).cache_valid_until@,
            same_tables(*final(self), *old(self)),
    {
        self.decoded_block_count += 1;
    }

    /// Check if lazy mode is enabled
    pub fn is_lazy_enabled(&self) -> (b: bool)
        ensures
            b == self.lazy_enabled,
    {
        self.lazy_enabled
    }

    /// Drain the cache and return decoded instructions
    /// Used when switching to eager mode
    pub fn drain_cache(&mut self) -> (result: Vec<DecodedInst>)
        ensures
            result@ == cached_insts(old(self).decoded_cache@),
            final(self).decoded_cache@.len() == 0,
            final(self).cache_valid_until@ == old(self).cache_valid_until@,
            final(self).decoded_block_count == old(self).decoded_block_count,
            same_tables(*final(self), *old(self)),
    {
        let mut drained: Vec<Option<DecodedInst>> = Vec::new();
        std::mem::swap(&mut drained, &mut self.decoded_cache);
        let mut result: Vec<DecodedInst> = Vec::with_capacity(drained.len());
        let mut k: usize = 0;
        while k < drained.len()
            invariant
                k <= drained@.len(),
                result@ == cached_insts(drained@.subrange(0, k as int)),
            decreases drained@.len() - k,
        {
            assert(drained@.subrange(0, k + 1).drop_last() =~= drained@.subrange(0, k as int));
            if let Some(inst) = drained[k] {
                result.push(inst);
            }
            k = k + 1;
        }
        assert(drained@.subrange(0, drained@.len() as int) =~= drained@);
        result
    }
}

} // verus!
