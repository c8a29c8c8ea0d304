//! A decoded instruction, as the interpreter's dispatch loop consumes it.

use vstd::prelude::*;

verus! {

/// An opcode, kept as the byte it was encoded as.
#[derive(Clone, Copy, Debug, PartialEq, Eq, Structural)]
pub struct Opcode(pub u8);

impl From<u8> for Opcode {
    fn from(byte: u8) -> (op: Opcode) {
        Opcode(byte)
    }
}

impl vstd::std_specs::convert::FromSpecImpl<u8> for Opcode {
    open spec fn obeys_from_spec() -> bool {
        true
    }

    open spec fn from_spec(byte: u8) -> Opcode {
        Opcode(byte)
    }
}

/// One instruction with its operands resolved.
#[derive(Clone, Copy, Debug, PartialEq, Eq, Structural)]
pub struct DecodedInst {
    pub opcode: Opcode,
    pub ra: u8,
    pub rb: u8,
    pub rd: u8,
    pub imm1: u64,
    pub imm2: u64,
    pub pc: u32,
    pub next_pc: u32,
    pub next_idx: u32,
    pub target_idx: u32,
    pub bb_gas_cost: u32,
}

} // verus!
