//! The operand bitmask: one bit per code byte, least significant bit of
//! each byte first. A register operand is present where the bit is set, and
//! its rank among the set bits says which operand slot it is.

use vstd::prelude::*;

verus! {

/// Bit `k` (counting from the least significant) of byte `b` is set.
pub open spec fn byte_has_bit(b: u8, k: int) -> bool {
    b & (1u8 << (k as u8)) != 0
}

/// Number of set bits of `b` below bit `k`.
pub open spec fn ones_below(b: u8, k: int) -> nat
    decreases k,
{
    if k <= 0 {
        0
    } else {
        ones_below(b, k - 1) + if byte_has_bit(b, k - 1) { 1nat } else { 0nat }
    }
}

/// Number of set bits in the first `j` bytes of `bm`.
pub open spec fn ones_in_bytes(bm: Seq<u8>, j: int) -> nat
    decreases j,
{
    if j <= 0 {
        0
    } else {
        ones_in_bytes(bm, j - 1) + ones_below(bm[j - 1], 8)
    }
}

/// Bit `pos` of the whole bitmask is set.
pub open spec fn bit_at(bm: Seq<u8>, pos: int) -> bool {
    byte_has_bit(bm[pos / 8], pos % 8)
}

/// Number of set bits of the bitmask at positions before `pos`.
pub open spec fn ones_before(bm: Seq<u8>, pos: int) -> nat {
    ones_in_bytes(bm, pos / 8) + ones_below(bm[pos / 8], pos % 8)
}

/// What a register lookup gives: nothing past the end of the bitmask or
/// where the bit is clear; otherwise `Some(0)` exactly when the set bits
/// before `pos` number `index`.
pub open spec fn bitmask_lookup(bm: Seq<u8>, pos: int, index: int) -> Option<u8> {
    if pos >= bm.len() * 8 {
        None
    } else if !bit_at(bm, pos) {
        None
    } else if ones_before(bm, pos) == index {
        Some(0u8)
    } else {
        None
    }
}

/// The lookup at `pos` counts the set bits before it in a byte-sized
/// counter; this holds where that count fits.
pub open spec fn bitmask_count_fits(bm: Seq<u8>, pos: int) -> bool {
    (0 <= pos < bm.len() * 8 && bit_at(bm, pos)) ==> ones_before(bm, pos) <= 255
}

proof fn lemma_ones_below_monotone(b: u8, j: int, k: int)
    requires
        0 <= j <= k,
    ensures
        ones_below(b, j) <= ones_below(b, k),
        ones_below(b, k) <= ones_below(b, j) + (k - j),
    decreases k - j,
{
    if j < k {
        lemma_ones_below_monotone(b, j, k - 1);
    }
}

proof fn lemma_ones_in_bytes_monotone(bm: Seq<u8>, j: int, k: int)
    requires
        0 <= j <= k,
    ensures
        ones_in_bytes(bm, j) <= ones_in_bytes(bm, k),
    decreases k - j,
{
    if j < k {
        lemma_ones_in_bytes_monotone(bm, j, k - 1);
    }
}

/// Number of set bits of `b`.
pub fn byte_count_ones(b: u8) -> (n: u8)
    ensures
        n == ones_below(b, 8),
{
    let mut n: u8 = 0;
    let mut k: u8 = 0;
    while k < 8
        invariant
            k <= 8,
            n == ones_below(b, k as int),
            n <= k,
        decreases 8 - k,
    {
        proof {
            lemma_ones_below_monotone(b, k as int, k + 1);
        }
        if b & (1u8 << k) != 0 {
            n = n + 1;
        }
        k = k + 1;
    }
    n
}

/// Get bitmask value at position
pub fn bitmask_get(bitmask: &Vec<u8>, pc: u32, index: u8) -> (r: Option<u8>)
    requires
        bitmask.len() * 8 <= u32::MAX,
        bitmask_count_fits(bitmask@, pc as int),
    ensures
        r == bitmask_lookup(bitmask@, pc as int, index as int),
{
    if pc >= bitmask.len() as u32 * 8 {
        return None;
    }
    let byte_idx = pc as usize / 8;
    let bit_offset = pc as usize % 8;
    let byte = bitmask[byte_idx];
    if byte & (1u8 << (bit_offset as u8)) == 0 {
        return None;
    }
    let ghost total = ones_before(bitmask@, pc as int);
    let mut count: u8 = 0;
    let mut i: usize = 0;
    while i < bit_offset
        invariant
            i <= bit_offset < 8,
            byte_idx < bitmask.len(),
            byte == bitmask@[byte_idx as int],
            count == ones_below(byte, i as int),
            total == ones_in_bytes(bitmask@, byte_idx as int) + ones_below(byte, bit_offset as int),
            total <= 255,
        decreases bit_offset - i,
    {
        proof {
            lemma_ones_below_monotone(byte, i + 1, bit_offset as int);
        }
        if byte & (1u8 << (i as u8)) != 0 {
            count = count + 1;
        }
        i = i + 1;
    }
    let mut j: usize = 0;
    while j < byte_idx
        invariant
            j <= byte_idx < bitmask.len(),
            byte == bitmask@[byte_idx as int],
            count == ones_below(byte, bit_offset as int) + ones_in_bytes(bitmask@, j as int),
            total == ones_in_bytes(bitmask@, byte_idx as int) + ones_below(byte, bit_offset as int),
            total <= 255,
        decreases byte_idx - j,
    {
        proof {
            lemma_ones_in_bytes_monotone(bitmask@, j + 1, byte_idx as int);
        }
        count = count + byte_count_ones(bitmask[j]);
        j = j + 1;
    }
    if count == index {
        Some(0)
    } else {
        None
    }
}

} // verus!
