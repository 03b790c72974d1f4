use junctiontrace::checksum::{crc16, ones32, rolling32, rotate32, section_score};

#[test]
fn crc16_of_empty_is_seed() {
    assert_eq!(crc16(&[]), 0x5a5a);
}

#[test]
fn crc16_of_magic() {
    assert_eq!(crc16(b"JTRC"), 0x9219);
}

#[test]
fn rolling32_of_empty_is_mixed_seed() {
    assert_eq!(rolling32(0, &[]), 0x9e37_79b9);
}

#[test]
fn rolling32_of_three_bytes() {
    assert_eq!(rolling32(7, b"abc"), 0x9360_2012);
}

#[test]
fn section_score_mixes_header_and_length() {
    assert_eq!(section_score(2, 5, 1, b"xyz"), 0xa846_9944);
}

#[test]
fn rotate32_matches_std() {
    for &(x, n) in &[(1u32, 0u32), (0x8000_0001, 1), (0x1234_5678, 13), (0xdead_beef, 31)] {
        assert_eq!(rotate32(x, n), x.rotate_left(n));
    }
}

#[test]
fn ones32_matches_std() {
    for &x in &[0u32, 1, 0xffff_ffff, 0x8000_0000, 0x1234_5678] {
        assert_eq!(ones32(x), x.count_ones());
    }
}
