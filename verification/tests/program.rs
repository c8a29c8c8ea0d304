use lib::inst::{DecodedInst, Opcode};
use lib::layout::{compute_basic_block_starts, compute_pc_to_idx, predecode_instructions};
use lib::program::InterpreterProgram;

fn sample_inst(pc: u32) -> DecodedInst {
    DecodedInst {
        opcode: Opcode::from(90u8),
        ra: 0,
        rb: 1,
        rd: 2,
        imm1: 7,
        imm2: 0,
        pc,
        next_pc: pc + 1,
        next_idx: 0,
        target_idx: 0,
        bb_gas_cost: 1,
    }
}

#[test]
fn pc_to_idx_follows_instructions() {
    // 90 (1 byte), 51 (9 bytes), 1 (1 byte)
    let code = vec![90u8, 51, 1, 2, 3, 4, 5, 6, 7, 8, 1];
    let map = compute_pc_to_idx(&code, &[], &[true, true]);
    assert_eq!(map, vec![0, 1, 0, 0, 0, 0, 0, 0, 0, 0, 2]);
    let map = compute_pc_to_idx(&code, &[], &[true]);
    assert_eq!(map, vec![0, 1, 0, 0, 0, 0, 0, 0, 0, 0, 2]);
    // One index per instruction, whatever the block layout.
    let map = compute_pc_to_idx(&code, &[], &[false, true, true, true]);
    assert_eq!(map, vec![0, 1, 0, 0, 0, 0, 0, 0, 0, 0, 2]);
    let map = compute_pc_to_idx(&[0, 0, 0, 181, 1, 2, 3, 4], &[], &[true]);
    assert_eq!(map, vec![0, 1, 2, 3, 0, 0, 0, 0]);
    assert_eq!(compute_pc_to_idx(&[], &[], &[true]), Vec::<u32>::new());
}

#[test]
fn block_tables_of_a_program() {
    assert_eq!(compute_basic_block_starts(&[1, 2, 3], &[]), vec![true]);
    let (insts, map) = predecode_instructions(&[0, 1], &[], &[true], &[true], &[1]);
    assert!(insts.is_empty());
    assert!(map.is_empty());
}

#[test]
fn new_program_is_lazy_and_empty() {
    let code = vec![90u8, 0, 1];
    let p = InterpreterProgram::new(code.clone(), vec![0xFF], vec![4, 5], 50, true);
    assert!(p.is_lazy_enabled());
    assert!(p.decoded_insts.is_empty());
    assert_eq!(p.pc_to_idx, vec![0, 1, 2]);
    assert_eq!(p.basic_block_starts, vec![true]);
    assert_eq!(p.block_gas_costs, vec![1]);
    assert_eq!(p.code, code);
    assert_eq!(p.bitmask, vec![0xFF]);
    assert_eq!(p.jump_table, vec![4, 5]);
    assert_eq!(p.mem_cycles, 50);
    assert_eq!(p.decoded_cache, vec![None, None, None]);
    assert_eq!(p.cache_valid_until, vec![0, 0, 0]);
    assert_eq!(p.decoded_block_count, 0);
    assert_eq!(p.total_block_count, 1);
    for idx in 0..4 {
        assert!(!p.is_cached(idx));
        assert!(p.get_cached(idx).is_none());
    }
    let q = InterpreterProgram::new(vec![], vec![], vec![], 25, false);
    assert!(!q.is_lazy_enabled());
    assert!(q.decoded_cache.is_empty());
    let e = InterpreterProgram::new(vec![90, 0, 1], vec![], vec![], 25, false);
    assert!(!e.is_lazy_enabled());
    assert!(e.decoded_insts.is_empty());
    assert!(e.pc_to_idx.is_empty());
    assert_eq!(e.decoded_cache, vec![None, None, None]);
}

#[test]
fn eager_switch_above_half() {
    let mut p = InterpreterProgram::new(vec![0u8; 4], vec![], vec![], 25, true);
    p.total_block_count = 0;
    assert!(p.should_eager_decode());
    p.total_block_count = 4;
    p.decoded_block_count = 2;
    assert!(!p.should_eager_decode());
    p.increment_decoded_blocks();
    assert_eq!(p.decoded_block_count, 3);
    assert!(p.should_eager_decode());
    p.total_block_count = 3;
    p.decoded_block_count = 1;
    assert!(!p.should_eager_decode());
    p.decoded_block_count = 2;
    assert!(p.should_eager_decode());
    p.total_block_count = u32::MAX;
    p.decoded_block_count = u32::MAX / 2;
    assert!(!p.should_eager_decode());
    p.decoded_block_count = u32::MAX / 2 + 1;
    assert!(p.should_eager_decode());
}

#[test]
fn set_then_get_cached() {
    let mut p = InterpreterProgram::new(vec![0u8; 2], vec![], vec![], 25, true);
    let a = sample_inst(0);
    p.set_cached(1, a);
    assert!(p.is_cached(1));
    assert!(!p.is_cached(0));
    assert_eq!(p.get_cached(1), Some(&a));
    assert_eq!(p.decoded_cache.len(), 2);
    let b = sample_inst(9);
    p.set_cached(5, b);
    assert_eq!(p.decoded_cache.len(), 6);
    assert_eq!(p.cache_valid_until, vec![0; 6]);
    assert_eq!(p.get_cached(5), Some(&b));
    assert_eq!(p.get_cached(1), Some(&a));
    assert!(!p.is_cached(3));
    assert!(!p.is_cached(6));
    p.set_cached(1, b);
    assert_eq!(p.get_cached(1), Some(&b));
}

#[test]
fn set_cached_resizes_boundary_cache() {
    let mut p = InterpreterProgram::new(vec![0u8; 2], vec![], vec![], 25, true);
    p.cache_valid_until = vec![3, 3, 3, 3, 3, 3];
    p.set_cached(2, sample_inst(2));
    assert_eq!(p.cache_valid_until, vec![3, 3, 3]);
    assert_eq!(p.decoded_cache.len(), 3);
    p.cache_valid_until = vec![9];
    p.set_cached(4, sample_inst(4));
    assert_eq!(p.cache_valid_until, vec![9, 0, 0, 0, 0]);
}

#[test]
fn drain_returns_cached_in_order() {
    let mut p = InterpreterProgram::new(vec![0u8; 4], vec![], vec![], 25, true);
    let a = sample_inst(0);
    let b = sample_inst(3);
    p.set_cached(3, b);
    p.set_cached(1, a);
    let drained = p.drain_cache();
    assert_eq!(drained, vec![a, b]);
    assert!(p.decoded_cache.is_empty());
    assert_eq!(p.cache_valid_until.len(), 4);
    assert!(!p.is_cached(1));
    assert!(!p.is_cached(3));
    assert!(p.drain_cache().is_empty());
}

#[test]
fn opcode_from_byte() {
    assert_eq!(Opcode::from(181u8), Opcode(181));
}
