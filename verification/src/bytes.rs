//! Little-endian immediates as they sit in the bytecode.

use vstd::prelude::*;

verus! {

/// The unsigned integer that the bytes `s` encode, least significant first.
pub open spec fn le_value(s: Seq<u8>) -> nat
    decreases s.len(),
{
    if s.len() == 0 {
        0
    } else {
        s[0] as nat + 256 * le_value(s.drop_first())
    }
}

/// `256` raised to `n`.
pub open spec fn pow256(n: nat) -> nat
    decreases n,
{
    if n == 0 {
        1
    } else {
        256 * pow256((n - 1) as nat)
    }
}

/// The two's-complement reading of a 32-bit pattern.
pub open spec fn signed32(raw: int) -> int {
    if raw < 0x8000_0000 {
        raw
    } else {
        raw - 0x1_0000_0000
    }
}

/// A 32-bit pattern read as `i32` and widened to `u64` with its sign.
pub open spec fn sign_extend32(raw: int) -> int {
    if raw < 0x8000_0000 {
        raw
    } else {
        raw + 0xFFFF_FFFF_0000_0000
    }
}

pub proof fn lemma_le_value_step(s: Seq<u8>, a: int, b: int)
    requires
        0 <= a < b <= s.len(),
    ensures
        le_value(s.subrange(a, b)) == s[a] as nat + 256 * le_value(s.subrange(a + 1, b)),
{
    assert(s.subrange(a, b).drop_first() =~= s.subrange(a + 1, b));
}

proof fn lemma_pow256_monotone(m: nat, n: nat)
    requires
        m <= n,
    ensures
        pow256(m) <= pow256(n),
    decreases n - m,
{
    if m < n {
        lemma_pow256_monotone(m, (n - 1) as nat);
    }
}

proof fn lemma_pow256_eight()
    ensures
        pow256(4) == 0x1_0000_0000,
        pow256(8) == 0x1_0000_0000_0000_0000,
{
    reveal_with_fuel(pow256, 9);
}

/// Reads the `n` bytes of `code` from `start` on as a little-endian
/// unsigned integer.
pub fn read_le(code: &Vec<u8>, start: usize, n: usize) -> (v: u64)
    requires
        n <= 8,
        start + n <= code.len(),
    ensures
        v == le_value(code@.subrange(start as int, start + n)),
        v < pow256(n as nat),
{
    let mut v: u64 = 0;
    let mut i: usize = n;
    proof {
        lemma_pow256_eight();
    }
    while i > 0
        invariant
            i <= n <= 8,
            start + n <= code.len(),
            v == le_value(code@.subrange(start + i, start + n)),
            v < pow256((n - i) as nat),
            pow256(8) == 0x1_0000_0000_0000_0000,
        decreases i,
    {
        proof {
            lemma_le_value_step(code@, start + i - 1, (start + n) as int);
            lemma_pow256_monotone((n - i + 1) as nat, 8);
            assert(pow256((n - i + 1) as nat) == 256 * pow256((n - i) as nat));
        }
        v = v * 256 + code[start + i - 1] as u64;
        i = i - 1;
    }
    v
}

/// Reads eight bytes from `start` as a little-endian `u64`.
pub fn read_le_u64(code: &Vec<u8>, start: usize) -> (v: u64)
    requires
        start + 8 <= code.len(),
    ensures
        v == le_value(code@.subrange(start as int, start + 8)),
{
    read_le(code, start, 8)
}

/// Reads four bytes from `start` as a little-endian `u32`.
pub fn read_le_u32(code: &Vec<u8>, start: usize) -> (v: u32)
    requires
        start + 4 <= code.len(),
    ensures
        v == le_value(code@.subrange(start as int, start + 4)),
{
    proof {
        lemma_pow256_eight();
    }
    let w = read_le(code, start, 4);
    w as u32
}

/// The 32-bit pattern `raw` read as `i32`.
pub fn as_signed32(raw: u32) -> (s: i32)
    ensures
        s == signed32(raw as int),
{
    let s = raw as i32;
    assert(raw < 0x8000_0000 ==> s == raw) by (bit_vector)
        requires
            s == raw as i32,
    ;
    assert(raw >= 0x8000_0000 ==> s == raw - 0x1_0000_0000) by (bit_vector)
        requires
            s == raw as i32,
    ;
    s
}

/// The 32-bit pattern `raw` read as `i32` and sign-extended into a `u64`.
pub fn sign_extend_to_u64(raw: u32) -> (w: u64)
    ensures
        w == sign_extend32(raw as int),
{
    let w = (raw as i32) as u64;
    assert(raw < 0x8000_0000 ==> w == raw) by (bit_vector)
        requires
            w == (raw as i32) as u64,
    ;
    assert(raw >= 0x8000_0000 ==> w == raw + 0xFFFF_FFFF_0000_0000) by (bit_vector)
        requires
            w == (raw as i32) as u64,
    ;
    w
}

} // verus!
