use rusty_mara::globals::{log2, log2_32, log2_64};

#[test]
pub fn test_log() {
    assert_eq!(log2_32(0xffff_ffff), 31);
    assert_eq!(log2_32(0x0001_0001), 16);
    assert_eq!(log2_32(0x0001_0000), 16);
    assert_eq!(log2_32(0x0000_ffff), 15);
    assert_eq!(log2_32(0x0000_0101), 8);
    assert_eq!(log2_32(0x0000_0100), 8);
    assert_eq!(log2_32(0x0000_00ff), 7);
    assert_eq!(log2_32(0x0000_0011), 4);
    assert_eq!(log2_32(0x0000_0010), 4);
    assert_eq!(log2_32(0x0000_000f), 3);
    assert_eq!(log2_32(0x0000_0005), 2);
    assert_eq!(log2_32(0x0000_0004), 2);
    assert_eq!(log2_32(0x0000_0003), 1);
    assert_eq!(log2_32(0x0000_0002), 1);
    assert_eq!(log2_32(0x0000_0001), 0);

    assert_eq!(log2_64(0xffff_ffff_ffff_ffff), 63);
    assert_eq!(log2_64(0x0000_0001_0000_0001), 32);
    assert_eq!(log2_64(0x0000_0001_0000_0000), 32);
    assert_eq!(log2_64(0x0000_0000_ffff_ffff), 31);
    assert_eq!(log2_64(0x0000_0000_0001_0001), 16);
    assert_eq!(log2_64(0x0000_0000_0001_0000), 16);
    assert_eq!(log2_64(0x0000_0000_0000_ffff), 15);
    assert_eq!(log2_64(0x0000_0000_0000_0101), 8);
    assert_eq!(log2_64(0x0000_0000_0000_0100), 8);
    assert_eq!(log2_64(0x0000_0000_0000_00ff), 7);
    assert_eq!(log2_64(0x0000_0000_0000_0011), 4);
    assert_eq!(log2_64(0x0000_0000_0000_0010), 4);
    assert_eq!(log2_64(0x0000_0000_0000_000f), 3);
    assert_eq!(log2_64(0x0000_0000_0000_0005), 2);
    assert_eq!(log2_64(0x0000_0000_0000_0004), 2);
    assert_eq!(log2_64(0x0000_0000_0000_0003), 1);
    assert_eq!(log2_64(0x0000_0000_0000_0002), 1);
    assert_eq!(log2_64(0x0000_0000_0000_0001), 0);

    assert_eq!(log2(0x10), 4);
}
