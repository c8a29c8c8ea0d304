use lib::inst::{DecodedInst, Opcode};
use lib::interpreter::{Interpreter, NO_REG};
use lib::program::InterpreterProgram;

fn lazy_program(code: Vec<u8>, bitmask: Vec<u8>) -> InterpreterProgram {
    let mut p = InterpreterProgram::new(code, bitmask, vec![], 25, true);
    p.total_block_count = 100;
    p
}

#[test]
fn lazy_decode_fills_whole_block() {
    // 90 (one byte) then the fallthrough terminator 1
    let program = lazy_program(vec![90, 1], vec![0b0000_0001]);
    let mut interp = Interpreter::new_with_program(program);
    let first = interp.get_decoded(0);
    assert_eq!(
        first,
        DecodedInst {
            opcode: Opcode(90),
            ra: 0,
            rb: NO_REG,
            rd: NO_REG,
            imm1: 0,
            imm2: 0,
            pc: 0,
            next_pc: 1,
            next_idx: 1,
            target_idx: 0,
            bb_gas_cost: 1,
        }
    );
    assert_eq!(interp.program.decoded_block_count, 1);
    assert!(interp.program.is_lazy_enabled());
    assert!(interp.program.is_cached(0));
    assert!(interp.program.is_cached(1));
    let second = *interp.program.get_cached(1).unwrap();
    assert_eq!(
        second,
        DecodedInst {
            opcode: Opcode(1),
            ra: NO_REG,
            rb: NO_REG,
            rd: NO_REG,
            imm1: 0,
            imm2: 0,
            pc: 1,
            next_pc: 2,
            next_idx: 0,
            target_idx: 0,
            bb_gas_cost: 1,
        }
    );
    // A second lookup is served from the cache and decodes nothing more.
    assert_eq!(interp.get_decoded(0), first);
    assert_eq!(interp.get_decoded(1), second);
    assert_eq!(interp.program.decoded_block_count, 1);
}

#[test]
fn cached_entry_is_returned_as_is() {
    let mut program = lazy_program(vec![90, 1], vec![]);
    let planted = DecodedInst {
        opcode: Opcode(7),
        ra: 1,
        rb: 2,
        rd: 3,
        imm1: 4,
        imm2: 5,
        pc: 6,
        next_pc: 7,
        next_idx: 8,
        target_idx: 9,
        bb_gas_cost: 10,
    };
    program.set_cached(0, planted);
    let mut interp = Interpreter::new_with_program(program);
    assert_eq!(interp.get_decoded(0), planted);
    assert_eq!(interp.program.decoded_block_count, 0);
    assert!(!interp.program.is_cached(1));
}

#[test]
fn load_immediate_is_little_endian() {
    let code = vec![51, 42, 1, 0, 0, 0, 0, 0, 0, 0];
    let mut interp = Interpreter::new_with_program(lazy_program(code, vec![]));
    let inst = interp.get_decoded(0);
    assert_eq!(inst.opcode, Opcode(51));
    assert_eq!(inst.imm1, 0x012A);
    assert_eq!(inst.imm2, 0);
    assert_eq!(inst.next_pc, 9);
    assert_eq!(inst.next_idx, 1);
    assert_eq!((inst.ra, inst.rb, inst.rd), (NO_REG, NO_REG, NO_REG));
    // Instruction indices: the load at 0 is instruction 0, the trap at 9 is 1.
    assert_eq!(interp.program.pc_to_idx[9], 1);
    assert!(interp.program.is_cached(1));
    assert!(!interp.program.is_cached(9));
    assert_eq!(interp.get_decoded(9).opcode, Opcode(0));
}

#[test]
fn branch_offset_and_target() {
    // 90, then a branch at 1 with offset +1 (target 1 + 1 + 5 = 7), then traps
    let code = vec![90, 181, 1, 0, 0, 0, 0, 0, 0, 0];
    let mut interp = Interpreter::new_with_program(lazy_program(code, vec![0, 0]));
    let inst = interp.get_decoded(1);
    assert_eq!(inst.opcode, Opcode(181));
    assert_eq!(inst.imm1, 1);
    assert_eq!(inst.next_pc, 6);
    assert_eq!(interp.program.pc_to_idx, vec![0, 1, 0, 0, 0, 0, 2, 3, 4, 5]);
    assert_eq!(inst.next_idx, 2);
    assert_eq!(inst.target_idx, 3);
    assert_eq!(inst.bb_gas_cost, 1);
    assert_eq!(interp.program.decoded_block_count, 1);
}

#[test]
fn backward_branch_sign_extends() {
    // a branch at 1 with offset -1: target 1 - 1 + 5 = 5, inside an immediate
    let code = vec![90, 200, 0xFF, 0xFF, 0xFF, 0xFF, 0, 0, 0, 0];
    let mut interp = Interpreter::new_with_program(lazy_program(code, vec![]));
    let inst = interp.get_decoded(1);
    assert_eq!(inst.imm1, u64::MAX);
    assert_eq!(inst.target_idx, 0);
}

#[test]
fn branch_outside_code_has_index_zero() {
    let code = vec![181, 100, 0, 0, 0, 0];
    let mut interp = Interpreter::new_with_program(lazy_program(code, vec![]));
    let inst = interp.get_decoded(0);
    assert_eq!(inst.imm1, 100);
    assert_eq!(inst.target_idx, 0);
    assert_eq!(inst.next_pc, 5);
    assert_eq!(inst.next_idx, 1);
}

#[test]
fn eager_mode_reads_decoded_table() {
    let mut program = InterpreterProgram::new(vec![90, 1], vec![], vec![], 25, false);
    let inst = DecodedInst {
        opcode: Opcode(90),
        ra: 0,
        rb: 0,
        rd: 0,
        imm1: 0,
        imm2: 0,
        pc: 0,
        next_pc: 1,
        next_idx: 1,
        target_idx: 0,
        bb_gas_cost: 1,
    };
    let other = DecodedInst { pc: 1, ..inst };
    assert!(program.decoded_insts.is_empty());
    assert!(program.pc_to_idx.is_empty());
    program.decoded_insts = vec![inst, other];
    program.pc_to_idx = vec![0, 1];
    let mut interp = Interpreter::new_with_program(program);
    assert_eq!(interp.get_decoded(0), inst);
    assert_eq!(interp.get_decoded(1), other);
    assert_eq!(interp.program.decoded_block_count, 0);
    assert!(!interp.program.is_cached(0));
}

#[test]
fn cache_hit_decodes_no_block() {
    // A fresh program counts a single block; a cache hit decodes nothing,
    // so no block is counted and the program stays lazy.
    let program = InterpreterProgram::new(vec![90, 1], vec![], vec![], 25, true);
    let mut interp = Interpreter::new_with_program(program);
    interp.program.set_cached(1, DecodedInst {
        opcode: Opcode(1),
        ra: 0,
        rb: 0,
        rd: 0,
        imm1: 0,
        imm2: 0,
        pc: 1,
        next_pc: 2,
        next_idx: 0,
        target_idx: 0,
        bb_gas_cost: 1,
    });
    assert_eq!(interp.get_decoded(1).pc, 1);
    assert_eq!(interp.program.decoded_block_count, 0);
    assert!(interp.program.is_lazy_enabled());
}

#[test]
fn each_instruction_has_its_own_cache_entry() {
    // Three instructions in one block, each under its own instruction index.
    let mut interp = Interpreter::new_with_program(lazy_program(vec![90, 90, 0], vec![]));
    assert_eq!(interp.program.pc_to_idx, vec![0, 1, 2]);
    assert_eq!(interp.get_decoded(0).pc, 0);
    let at_two = interp.get_decoded(2);
    assert_eq!(at_two.pc, 2);
    assert_eq!(at_two.opcode, Opcode(0));
    assert_eq!(at_two.next_pc, 3);
    assert_eq!(interp.get_decoded(1).pc, 1);
    assert_eq!(interp.program.decoded_block_count, 1);
}

#[test]
fn switch_to_eager_still_returns_the_instruction() {
    // A fresh program counts one block, so decoding it crosses the
    // threshold: the instruction comes back and the program turns eager.
    let program = InterpreterProgram::new(vec![90, 1], vec![], vec![], 25, true);
    let mut interp = Interpreter::new_with_program(program);
    let inst = interp.get_decoded(0);
    assert_eq!(inst.pc, 0);
    assert_eq!(inst.opcode, Opcode(90));
    assert_eq!(inst.next_pc, 1);
    assert_eq!(inst.next_idx, 1);
    assert!(!interp.program.is_lazy_enabled());
    assert_eq!(interp.program.decoded_block_count, 1);
    assert!(interp.program.decoded_cache.is_empty());
    assert!(interp.program.decoded_insts.is_empty());
    assert!(interp.program.pc_to_idx.is_empty());
    assert_eq!(interp.program.cache_valid_until, vec![0, 0]);
}

#[test]
fn gas_cost_of_the_containing_block() {
    let mut program = lazy_program(vec![90, 1], vec![]);
    program.basic_block_starts = vec![true, true];
    program.block_gas_costs = vec![5, 7];
    let mut interp = Interpreter::new_with_program(program);
    assert_eq!(interp.get_decoded(0).bb_gas_cost, 5);
    assert_eq!(interp.get_decoded(1).bb_gas_cost, 7);

    let mut program = lazy_program(vec![90, 1, 0], vec![]);
    program.basic_block_starts = vec![false, true];
    program.block_gas_costs = vec![5];
    let mut interp = Interpreter::new_with_program(program);
    assert_eq!(interp.get_decoded(0).bb_gas_cost, 0);
    assert_eq!(interp.get_decoded(1).bb_gas_cost, 0);
    // Position 2 lies past the start table; its block starts at 1.
    assert_eq!(interp.get_decoded(2).bb_gas_cost, 0);

    let mut program = lazy_program(vec![90, 90, 90, 0], vec![]);
    program.basic_block_starts = vec![true, false, true];
    program.block_gas_costs = vec![2, 3, 4];
    let mut interp = Interpreter::new_with_program(program);
    assert_eq!(interp.get_decoded(1).bb_gas_cost, 2);
    assert_eq!(interp.get_decoded(3).bb_gas_cost, 4);
}
