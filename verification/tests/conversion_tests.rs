use langpack::conversion::{
    decimal, little_endian_2_bytes, little_endian_2_bytes_as_u8, little_endian_3_bytes,
    little_endian_4_bytes, little_endian_4_version,
};
use langpack::error::Fatal;

#[test]
fn four_bytes_low_byte_first() {
    assert_eq!(little_endian_4_bytes(&[0x78, 0x56, 0x34, 0x12]), 0x12345678);
    assert_eq!(little_endian_4_bytes(&[0xFF, 0xFF, 0xFF, 0xFF]), 0xFFFF_FFFF);
    assert_eq!(little_endian_4_bytes(&[1, 0, 0, 0, 9]), 1);
}

#[test]
fn three_bytes_low_byte_first() {
    assert_eq!(little_endian_3_bytes(&[0x56, 0x34, 0x12]), 0x123456);
    assert_eq!(little_endian_3_bytes(&[0xFF, 0xFF, 0xFF]), 0xFF_FFFF);
    assert_eq!(little_endian_3_bytes(&[52, 0, 0, 0xAA]), 52);
}

#[test]
fn two_bytes_low_byte_first() {
    assert_eq!(little_endian_2_bytes(&[0x34, 0x12]), 0x1234);
    assert_eq!(little_endian_2_bytes(&[0xFF, 0xFF]), 65535);
    assert_eq!(little_endian_2_bytes(&[0, 1]), 256);
}

#[test]
fn two_bytes_as_one_refuses_a_high_byte() {
    assert_eq!(little_endian_2_bytes_as_u8(&[7, 0]), Ok(7));
    assert_eq!(little_endian_2_bytes_as_u8(&[255, 0]), Ok(255));
    assert_eq!(little_endian_2_bytes_as_u8(&[7, 1]), Err(Fatal::ValueTooLarge));
}

#[test]
fn version_reads_from_the_last_byte_to_the_first() {
    assert_eq!(little_endian_4_version(&[4, 3, 2, 1]), "V1.2.3.4");
    assert_eq!(little_endian_4_version(&[0, 10, 200, 255]), "V255.200.10.0");
}

#[test]
fn decimal_has_no_leading_zeros() {
    assert_eq!(decimal(0), "0");
    assert_eq!(decimal(9), "9");
    assert_eq!(decimal(10), "10");
    assert_eq!(decimal(65535), "65535");
    assert_eq!(decimal(u64::MAX), "18446744073709551615");
}
