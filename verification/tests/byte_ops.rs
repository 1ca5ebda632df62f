use byte_utils::arith::{bytes_add_byte, bytes_add_bytes, invert_bytes, negate_bytes};
use byte_utils::codec::{bytes4_to_u32, bytes8_to_u64, u32_to_bytes4, u64_to_bytes8};
use byte_utils::view::{slice4_as_array4, slice8_as_array8};

#[test]
fn test_negate_bytes() {
    // Test for '0'
    let mut buf = vec![0x00];
    negate_bytes(&mut buf);
    assert_eq!(buf, vec![0x00]);
    // Test for '1'
    let mut buf = vec![0x00, 0x01];
    negate_bytes(&mut buf);
    assert_eq!(buf, vec![0xFF, 0xFF]);
    // Test for '-1' == '0xFF'
    let mut buf = vec![0xFF, 0xFF];
    negate_bytes(&mut buf);
    assert_eq!(buf, vec![0x00, 0x01]);
    // Test for '42' == '0x2A'
    //
    // 0000 0000 0010 1010 | input
    // 1111 1111 1101 0101 | flipped
    // 1111 1111 1101 0110 | +1
    //    F    F    D    6 | hex
    let mut buf = vec![0x00, 0x2A];
    negate_bytes(&mut buf);
    assert_eq!(buf, vec![0xFF, 0xD6]);
}

#[test]
fn test_slice_as_array() {
    assert_eq!(slice4_as_array4::<i32>(&[]), None);
    assert_eq!(slice4_as_array4(&[1, 2, 3, 4, 5]), None);
    assert_eq!(slice4_as_array4(&[1, 2, 3, 4]), Some([1, 2, 3, 4]));
    assert_eq!(slice4_as_array4(&[1, 2, 3]), None);
}

#[test]
fn test_bytes_add_bytes() {
    // 0 + 0 == 0
    let mut lhs = vec![0x00, 0x00, 0x00, 0x00];
    bytes_add_bytes(&mut lhs, &[0x00, 0x00, 0x00, 0x00]);
    assert_eq!(lhs, vec![0x00, 0x00, 0x00, 0x00]);
    let mut lhs = vec![0x00, 0x00, 0x00, 0x00];
    bytes_add_bytes(&mut lhs, &[0x00, 0x00, 0x00, 0x00]);
    assert_eq!(lhs, vec![0x00, 0x00, 0x00, 0x00]);
    // 0 + 0x42 == 0x42
    let mut lhs = vec![0x00, 0x00, 0x00, 0x00];
    bytes_add_bytes(&mut lhs, &[0x00, 0x00, 0x00, 0x42]);
    assert_eq!(lhs, vec![0x00, 0x00, 0x00, 0x42]);
    // Changing lhs with rhs should not change the result.
    let mut lhs = vec![0x00, 0x00, 0x00, 0x42];
    bytes_add_bytes(&mut lhs, &[0x00, 0x00, 0x00, 0x00]);
    assert_eq!(lhs, vec![0x00, 0x00, 0x00, 0x42]);
    // u32::MAX + 1 == 0
    let mut lhs = vec![0xFF, 0xFF, 0xFF, 0xFF];
    bytes_add_bytes(&mut lhs, &[0x00, 0x00, 0x00, 0x01]);
    assert_eq!(lhs, vec![0x00, 0x00, 0x00, 0x00]);
    let mut lhs = vec![0x00, 0x00, 0x00, 0x01];
    bytes_add_bytes(&mut lhs, &[0xFF, 0xFF, 0xFF, 0xFF]);
    assert_eq!(lhs, vec![0x00, 0x00, 0x00, 0x00]);
    // 0 + u32::MAX == u32::MAX
    let mut lhs = vec![0x00, 0x00, 0x00, 0x00];
    bytes_add_bytes(&mut lhs, &[0xFF, 0xFF, 0xFF, 0xFF]);
    assert_eq!(lhs, vec![0xFF, 0xFF, 0xFF, 0xFF]);
    let mut lhs = vec![0xFF, 0xFF, 0xFF, 0xFF];
    bytes_add_bytes(&mut lhs, &[0x00, 0x00, 0x00, 0x00]);
    assert_eq!(lhs, vec![0xFF, 0xFF, 0xFF, 0xFF]);
    // 0x12345678 + 0x9ABCDEF0 = 0xACF13568
    let mut lhs = vec![0x12, 0x34, 0x56, 0x78];
    bytes_add_bytes(&mut lhs, &[0x9A, 0xBC, 0xDE, 0xF0]);
    assert_eq!(lhs, vec![0xAC, 0xF1, 0x35, 0x68]);
    let mut lhs = vec![0x9A, 0xBC, 0xDE, 0xF0];
    bytes_add_bytes(&mut lhs, &[0x12, 0x34, 0x56, 0x78]);
    assert_eq!(lhs, vec![0xAC, 0xF1, 0x35, 0x68]);
}

#[test]
fn u32_and_bytes_conv() {
    let cases: [(u32, [u8; 4]); 4] = [
        (0x00_00_00_00, [0x00, 0x00, 0x00, 0x00]),
        (0xFF_FF_FF_FF, [0xFF, 0xFF, 0xFF, 0xFF]),
        (0x00_00_00_01, [0x00, 0x00, 0x00, 0x01]),
        (0x12_34_56_78, [0x12, 0x34, 0x56, 0x78]),
    ];
    for (val, bytes) in cases {
        assert_eq!(bytes4_to_u32(&u32_to_bytes4(val)), val);
        assert_eq!(u32_to_bytes4(bytes4_to_u32(&bytes)), bytes);
        assert_eq!(u32_to_bytes4(val), bytes);
    }
}

#[test]
fn u64_and_bytes_conv() {
    let cases: [(u64, [u8; 8]); 4] = [
        // Test for 0
        (
            0x00_00_00_00_00_00_00_00,
            [0x00, 0x00, 0x00, 0x00, 0x00, 0x00, 0x00, 0x00],
        ),
        // Test for MAX
        (
            0xFF_FF_FF_FF_FF_FF_FF_FF,
            [0xFF, 0xFF, 0xFF, 0xFF, 0xFF, 0xFF, 0xFF, 0xFF],
        ),
        // Test for 1
        (
            0x00_00_00_00_00_00_00_01,
            [0x00, 0x00, 0x00, 0x00, 0x00, 0x00, 0x00, 0x01],
        ),
        // Test for unique bytes
        (
            0x12_34_56_78_9A_BC_DE_F0,
            [0x12, 0x34, 0x56, 0x78, 0x9A, 0xBC, 0xDE, 0xF0],
        ),
    ];
    for (val, bytes) in cases {
        assert_eq!(bytes8_to_u64(&u64_to_bytes8(val)), val);
        assert_eq!(u64_to_bytes8(bytes8_to_u64(&bytes)), bytes);
        assert_eq!(u64_to_bytes8(val), bytes);
    }
}

#[test]
fn negate_twice_restores_buffer() {
    for original in [
        vec![0x00],
        vec![0x2A],
        vec![0x80],
        vec![0x00, 0x2A],
        vec![0xFF, 0xFF],
        vec![0x12, 0x34, 0x56, 0x78],
    ] {
        let mut buf = original.clone();
        negate_bytes(&mut buf);
        negate_bytes(&mut buf);
        assert_eq!(buf, original);
    }
}

#[test]
fn negate_all_zero_stays_zero() {
    let mut buf = vec![0x00, 0x00, 0x00];
    negate_bytes(&mut buf);
    assert_eq!(buf, vec![0x00, 0x00, 0x00]);
}

#[test]
fn add_negation_yields_zero() {
    for original in [vec![0x01], vec![0x00, 0x2A], vec![0x12, 0x34, 0x56, 0x78]] {
        let mut negated = original.clone();
        negate_bytes(&mut negated);
        let mut sum = original.clone();
        bytes_add_bytes(&mut sum, &negated);
        assert_eq!(sum, vec![0x00; original.len()]);
    }
}

#[test]
fn invert_flips_every_byte() {
    let mut buf = vec![0x00, 0xF0, 0x5A];
    invert_bytes(&mut buf);
    assert_eq!(buf, vec![0xFF, 0x0F, 0xA5]);
}

#[test]
fn add_byte_reports_overflow() {
    let mut buf = vec![0xFF];
    assert!(bytes_add_byte(&mut buf, 0x01));
    assert_eq!(buf, vec![0x00]);

    let mut buf = vec![0x00, 0xFF];
    assert!(!bytes_add_byte(&mut buf, 0x01));
    assert_eq!(buf, vec![0x01, 0x00]);

    let mut buf = vec![0x10];
    assert!(!bytes_add_byte(&mut buf, 0x25));
    assert_eq!(buf, vec![0x35]);
}

#[test]
fn slice8_matches_only_exact_length() {
    assert_eq!(slice8_as_array8::<u8>(&[]), None);
    assert_eq!(slice8_as_array8(&[1, 2, 3, 4, 5, 6, 7]), None);
    assert_eq!(slice8_as_array8(&[1, 2, 3, 4, 5, 6, 7, 8, 9]), None);
    assert_eq!(
        slice8_as_array8(&[1, 2, 3, 4, 5, 6, 7, 8]),
        Some([1, 2, 3, 4, 5, 6, 7, 8])
    );
}

#[test]
fn codec_distinguishes_byte_order() {
    assert_eq!(bytes4_to_u32(&[0x12, 0x34, 0x56, 0x78]), 0x12_34_56_78);
    assert_eq!(bytes4_to_u32(&[0x78, 0x56, 0x34, 0x12]), 0x78_56_34_12);
    assert_eq!(bytes8_to_u64(&[0x01, 0x00, 0x00, 0x00, 0x00, 0x00, 0x00, 0x00]), 1u64 << 56);
}
