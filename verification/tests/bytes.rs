use laby2_repack::bytes::{
    u16_from_be_bytes, u16_to_be_bytes, u32_from_be_bytes, u32_to_be_bytes, u64_from_be_bytes,
    u64_to_be_bytes,
};

#[test]
fn u16_big_endian() {
    assert_eq!(u16_to_be_bytes(0x1234), [0x12, 0x34]);
    assert_eq!(u16_from_be_bytes([0x12, 0x34]), 0x1234);
    assert_eq!(u16_to_be_bytes(0), [0, 0]);
    assert_eq!(u16_from_be_bytes([0xFF, 0xFF]), u16::MAX);
}

#[test]
fn u32_big_endian() {
    assert_eq!(u32_to_be_bytes(0x0102_0304), [1, 2, 3, 4]);
    assert_eq!(u32_from_be_bytes([1, 2, 3, 4]), 0x0102_0304);
    assert_eq!(u32_to_be_bytes(64), [0, 0, 0, 64]);
    assert_eq!(u32_from_be_bytes([0xFF; 4]), u32::MAX);
}

#[test]
fn u64_big_endian() {
    assert_eq!(u64_to_be_bytes(0x0102_0304_0506_0708), [1, 2, 3, 4, 5, 6, 7, 8]);
    assert_eq!(u64_from_be_bytes([1, 2, 3, 4, 5, 6, 7, 8]), 0x0102_0304_0506_0708);
    assert_eq!(u64_from_be_bytes([0xFF; 8]), u64::MAX);
    assert_eq!(u64_to_be_bytes(2), [0, 0, 0, 0, 0, 0, 0, 2]);
}

#[test]
fn big_endian_agrees_with_std() {
    for x in [0u64, 1, 255, 256, 0xDEAD_BEEF, 0x8000_0000_0000_0000, u64::MAX] {
        assert_eq!(u64_to_be_bytes(x), x.to_be_bytes());
        assert_eq!(u64_from_be_bytes(x.to_be_bytes()), x);
        let y = x as u32;
        assert_eq!(u32_to_be_bytes(y), y.to_be_bytes());
        assert_eq!(u32_from_be_bytes(y.to_be_bytes()), y);
        let z = x as u16;
        assert_eq!(u16_to_be_bytes(z), z.to_be_bytes());
        assert_eq!(u16_from_be_bytes(z.to_be_bytes()), z);
    }
}
