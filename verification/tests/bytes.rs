use kstorage::bytes::{read_be_u32, read_be_u64, read_le_u16, read_le_u32, read_le_u64};

#[test]
fn little_endian_numbers() {
    let b: [u8; 8] = [0x78, 0x56, 0x34, 0x12, 0xEF, 0xCD, 0xAB, 0x90];
    assert_eq!(read_le_u16(&b, 0), 0x5678);
    assert_eq!(read_le_u32(&b, 0), 0x1234_5678);
    assert_eq!(read_le_u64(&b, 0), 0x90AB_CDEF_1234_5678);
}

#[test]
fn big_endian_numbers() {
    let b: [u8; 9] = [0, 0x12, 0x34, 0x56, 0x78, 0x9A, 0xBC, 0xDE, 0xF0];
    assert_eq!(read_be_u32(&b, 1), 0x1234_5678);
    assert_eq!(read_be_u64(&b, 1), 0x1234_5678_9ABC_DEF0);
}
