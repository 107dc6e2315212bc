use uvarint::{
    encode_u128, encode_u128_into, encode_u16, encode_u16_into, encode_u32, encode_u32_into,
    encode_u64, encode_u64_into, UVarintError,
};

#[test]
fn test_encode_u16_single_byte() {
    assert_eq!(encode_u16(0), vec![0x00]);
    assert_eq!(encode_u16(1), vec![0x01]);
    assert_eq!(encode_u16(5), vec![0x05]);
    assert_eq!(encode_u16(127), vec![0x7F]);
}

#[test]
fn test_encode_u16_two_bytes() {
    assert_eq!(encode_u16(128), vec![0x80, 0x01]);
    assert_eq!(encode_u16(300), vec![0xAC, 0x02]);
    assert_eq!(encode_u16(16_383), vec![0xFF, 0x7F]);
}

#[test]
fn test_encode_u16_step_by_step() {
    let mut value = 300_u32;
    let mut result = Vec::new();

    let mut byte = (value & 0x7F) as u8;
    assert_eq!(byte, 44);

    value >>= 7;
    assert_eq!(value, 2);

    byte |= 0x80;
    assert_eq!(byte, 0xAC);
    result.push(byte);

    byte = (value & 0x7F) as u8;
    assert_eq!(byte, 2);

    value >>= 7;
    assert_eq!(value, 0);

    assert_eq!(byte, 0x02);
    result.push(byte);

    assert_eq!(result, vec![0xAC, 0x02]);
    assert_eq!(encode_u32(300), vec![0xAC, 0x02]);
}

#[test]
fn test_encode_max_u16() {
    let encoded = encode_u16(u16::MAX);
    assert_eq!(encoded.len(), 3);
    assert_eq!(encoded, vec![0xFF, 0xFF, 0x03]);
}

#[test]
fn test_encode_u32_single_byte() {
    assert_eq!(encode_u32(0), vec![0x00]);
    assert_eq!(encode_u32(1), vec![0x01]);
    assert_eq!(encode_u32(5), vec![0x05]);
    assert_eq!(encode_u32(127), vec![0x7F]);
}

#[test]
fn test_encode_u32_two_bytes() {
    // 128 is the smallest two-byte value
    assert_eq!(encode_u32(128), vec![0x80, 0x01]);

    assert_eq!(encode_u32(300), vec![0xAC, 0x02]);

    // 16,383 is the largest two-byte value
    assert_eq!(encode_u32(16_383), vec![0xFF, 0x7F]);
}

#[test]
fn test_encode_u32_step_by_step() {
    let mut value = 300_u32;
    let mut result = Vec::new();

    let mut byte = (value & 0x7F) as u8;
    assert_eq!(byte, 44);

    value >>= 7;
    assert_eq!(value, 2);

    byte |= 0x80;
    assert_eq!(byte, 0xAC);
    result.push(byte);

    byte = (value & 0x7F) as u8;
    assert_eq!(byte, 2);

    value >>= 7;
    assert_eq!(value, 0);

    assert_eq!(byte, 0x02);
    result.push(byte);

    assert_eq!(result, vec![0xAC, 0x02]);
    assert_eq!(encode_u32(300), vec![0xAC, 0x02]);
}

#[test]
fn test_encode_max_u32() {
    let encoded = encode_u32(u32::MAX);
    assert_eq!(encoded.len(), 5);
    assert_eq!(encoded, vec![0xFF, 0xFF, 0xFF, 0xFF, 0x0F]);
}

#[test]
fn test_encode_u64_single_byte() {
    assert_eq!(encode_u64(0), vec![0x00]);
    assert_eq!(encode_u64(1), vec![0x01]);
    assert_eq!(encode_u64(5), vec![0x05]);
    assert_eq!(encode_u64(127), vec![0x7F]);
}

#[test]
fn test_encode_u64_two_bytes() {
    // 128 is the smallest two-byte value
    assert_eq!(encode_u64(128), vec![0x80, 0x01]);

    assert_eq!(encode_u64(300), vec![0xAC, 0x02]);

    // 16,383 is the largest two-byte value
    assert_eq!(encode_u64(16_383), vec![0xFF, 0x7F]);
}

#[test]
fn test_encode_u64_step_by_step_300() {
    let mut value = 300_u64;
    let mut result = Vec::new();

    // 300 = 0b1_0010_1100; the low seven bits are 0b010_1100 = 44
    let mut byte = (value & 0x7F) as u8;
    assert_eq!(byte, 44);

    value >>= 7;
    assert_eq!(value, 2);

    // more groups follow: 44 | 128 = 172 = 0xAC
    byte |= 0x80;
    assert_eq!(byte, 0xAC);
    result.push(byte);

    byte = (value & 0x7F) as u8;
    assert_eq!(byte, 2);

    value >>= 7;
    assert_eq!(value, 0);

    // last group: the high bit stays clear
    assert_eq!(byte, 0x02);
    result.push(byte);

    assert_eq!(result, vec![0xAC, 0x02]);
    assert_eq!(encode_u64(300), vec![0xAC, 0x02]);
}

#[test]
fn test_encode_max_u64() {
    let encoded = encode_u64(u64::MAX);
    assert_eq!(encoded.len(), 10);
    assert_eq!(
        encoded,
        vec![0xFF, 0xFF, 0xFF, 0xFF, 0xFF, 0xFF, 0xFF, 0xFF, 0xFF, 0x01]
    );
}

#[test]
fn encode_max_u128() {
    let encoded = encode_u128(u128::MAX);
    assert_eq!(encoded.len(), 19);
    assert!(encoded[..18].iter().all(|&b| b == 0xFF));
    assert_eq!(encoded[18], 0x03);
}

#[test]
fn encoding_lengths_are_minimal() {
    let cases: [(u64, usize); 9] = [
        (0, 1),
        (1, 1),
        (127, 1),
        (128, 2),
        (16_383, 2),
        (16_384, 3),
        ((1 << 21) - 1, 3),
        (1 << 21, 4),
        (1 << 63, 10),
    ];
    for (v, len) in cases {
        let e = encode_u64(v);
        assert_eq!(e.len(), len);
        for b in &e[..len - 1] {
            assert!(b & 0x80 != 0);
        }
        assert!(e[len - 1] & 0x80 == 0);
        if len > 1 {
            assert_ne!(e[len - 1], 0);
        }
    }
}

#[test]
fn encode_into_writes_the_same_bytes() {
    let mut buf = [0xEEu8; 8];
    assert_eq!(encode_u32_into(300, &mut buf), Ok(2));
    assert_eq!(buf, [0xAC, 0x02, 0xEE, 0xEE, 0xEE, 0xEE, 0xEE, 0xEE]);

    let mut buf = [0xEEu8; 3];
    assert_eq!(encode_u16_into(0, &mut buf), Ok(1));
    assert_eq!(buf, [0x00, 0xEE, 0xEE]);

    let mut buf = [0u8; 10];
    assert_eq!(encode_u64_into(u64::MAX, &mut buf), Ok(10));
    assert_eq!(buf.to_vec(), encode_u64(u64::MAX));

    let mut buf = [0u8; 19];
    assert_eq!(encode_u128_into(u128::MAX, &mut buf), Ok(19));
    assert_eq!(buf.to_vec(), encode_u128(u128::MAX));
}

#[test]
fn encode_into_buffer_too_small() {
    let mut buf = [0u8; 1];
    assert_eq!(encode_u32_into(300, &mut buf), Err(UVarintError::BufferTooSmall));

    let mut empty: [u8; 0] = [];
    assert_eq!(encode_u16_into(0, &mut empty), Err(UVarintError::BufferTooSmall));

    let mut buf = [0u8; 4];
    assert_eq!(encode_u32_into(u32::MAX, &mut buf), Err(UVarintError::BufferTooSmall));

    let mut buf = [0u8; 9];
    assert_eq!(encode_u64_into(u64::MAX, &mut buf), Err(UVarintError::BufferTooSmall));

    let mut buf = [0u8; 18];
    assert_eq!(encode_u128_into(u128::MAX, &mut buf), Err(UVarintError::BufferTooSmall));
}

#[test]
fn encode_into_exact_fit() {
    let mut buf = [0u8; 5];
    assert_eq!(encode_u32_into(u32::MAX, &mut buf), Ok(5));
    assert_eq!(buf, [0xFF, 0xFF, 0xFF, 0xFF, 0x0F]);
}
