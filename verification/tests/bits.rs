use lib::bitmask::{bitmask_get, byte_count_ones};
use lib::bytes::{as_signed32, read_le, read_le_u32, read_le_u64, sign_extend_to_u64};

#[test]
fn bitmask_lookup_ranks_set_bits() {
    let bm = vec![0b0000_0101u8, 0b0000_0010u8];
    assert_eq!(bitmask_get(&bm, 0, 0), Some(0));
    assert_eq!(bitmask_get(&bm, 0, 1), None);
    assert_eq!(bitmask_get(&bm, 1, 0), None);
    assert_eq!(bitmask_get(&bm, 2, 1), Some(0));
    assert_eq!(bitmask_get(&bm, 2, 0), None);
    assert_eq!(bitmask_get(&bm, 9, 2), Some(0));
    assert_eq!(bitmask_get(&bm, 9, 1), None);
    assert_eq!(bitmask_get(&bm, 16, 0), None);
    assert_eq!(bitmask_get(&[].to_vec(), 0, 0), None);
}

#[test]
fn count_ones_of_bytes() {
    assert_eq!(byte_count_ones(0), 0);
    assert_eq!(byte_count_ones(0xFF), 8);
    assert_eq!(byte_count_ones(0b1010_0110), 4);
}

#[test]
fn little_endian_reads() {
    let bytes = vec![0x78u8, 0x56, 0x34, 0x12, 0xEF, 0xCD, 0xAB, 0x90, 0x01];
    assert_eq!(read_le_u32(&bytes, 0), 0x1234_5678);
    assert_eq!(read_le_u64(&bytes, 0), 0x90AB_CDEF_1234_5678);
    assert_eq!(read_le_u64(&bytes, 1), 0x0190_ABCD_EF12_3456);
    assert_eq!(read_le(&bytes, 2, 2), 0x1234);
    assert_eq!(read_le(&bytes, 9, 0), 0);
}

#[test]
fn signed_offsets() {
    assert_eq!(as_signed32(0xFFFF_FFFF), -1);
    assert_eq!(as_signed32(0x7FFF_FFFF), i32::MAX);
    assert_eq!(as_signed32(0x8000_0000), i32::MIN);
    assert_eq!(sign_extend_to_u64(0xFFFF_FFFF), u64::MAX);
    assert_eq!(sign_extend_to_u64(5), 5);
    assert_eq!(sign_extend_to_u64(0x8000_0000), 0xFFFF_FFFF_8000_0000);
}
