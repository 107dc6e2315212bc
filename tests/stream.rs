use std::io::{Cursor, Read, Write};
use uvarint::{encode_u32, encode_u64, StreamDecoder, UVarintError};

fn read_u64<R: Read>(reader: &mut R) -> Result<u64, UVarintError> {
    let mut decoder = StreamDecoder::new(64);
    loop {
        let mut byte = [0u8; 1];
        if reader.read_exact(&mut byte).is_err() {
            return Err(UVarintError::Incomplete);
        }
        if decoder.feed(byte[0]) {
            return decoder.value_u64();
        }
    }
}

fn read_u32<R: Read>(reader: &mut R) -> Result<u32, UVarintError> {
    let mut decoder = StreamDecoder::new(32);
    loop {
        let mut byte = [0u8; 1];
        if reader.read_exact(&mut byte).is_err() {
            return Err(UVarintError::Incomplete);
        }
        if decoder.feed(byte[0]) {
            return decoder.value_u32();
        }
    }
}

fn write_u64<W: Write>(writer: &mut W, value: u64) -> Result<usize, UVarintError> {
    let bytes = encode_u64(value);
    writer.write_all(&bytes).map_err(|_| UVarintError::WriteFailed)?;
    Ok(bytes.len())
}

fn write_u32<W: Write>(writer: &mut W, value: u32) -> Result<usize, UVarintError> {
    let bytes = encode_u32(value);
    writer.write_all(&bytes).map_err(|_| UVarintError::WriteFailed)?;
    Ok(bytes.len())
}

#[test]
fn test_read_u64() {
    let data = vec![0xAC, 0x02];
    let mut cursor = Cursor::new(data);
    assert_eq!(read_u64(&mut cursor).unwrap(), 300);
}

#[test]
fn test_read_u32() {
    let data = vec![0xAC, 0x02];
    let mut cursor = Cursor::new(data);
    assert_eq!(read_u32(&mut cursor).unwrap(), 300);
}

#[test]
fn test_write_u64() {
    let mut buf = Vec::new();
    let bytes_written = write_u64(&mut buf, 300).unwrap();
    assert_eq!(bytes_written, 2);
    assert_eq!(buf, vec![0xAC, 0x02]);
}

#[test]
fn test_write_u32() {
    let mut buf = Vec::new();
    let bytes_written = write_u32(&mut buf, 300).unwrap();
    assert_eq!(bytes_written, 2);
    assert_eq!(buf, vec![0xAC, 0x02]);
}

#[test]
fn test_read_multiple_varints() {
    let data = vec![
        0xAC, 0x02, // 300
        0xFF, 0x01, // 255
        0x05, // 5
    ];
    let mut cursor = Cursor::new(data);

    assert_eq!(read_u64(&mut cursor).unwrap(), 300);
    assert_eq!(read_u64(&mut cursor).unwrap(), 255);
    assert_eq!(read_u64(&mut cursor).unwrap(), 5);
}

#[test]
fn test_write_multiple_varints() {
    let mut buf = Vec::new();

    write_u64(&mut buf, 300).unwrap();
    write_u64(&mut buf, 255).unwrap();
    write_u64(&mut buf, 5).unwrap();

    assert_eq!(buf, vec![0xAC, 0x02, 0xFF, 0x01, 0x05]);
}

#[test]
fn test_read_write_roundtrip() {
    let values = vec![0, 1, 127, 128, 300, 16_383, 16_384, u32::MAX as u64];

    for &value in &values {
        let mut buf = Vec::new();
        write_u64(&mut buf, value).unwrap();

        let mut cursor = Cursor::new(buf);
        let decoded = read_u64(&mut cursor).unwrap();

        assert_eq!(decoded, value);
    }
}

#[test]
fn test_read_incomplete() {
    let data = vec![0x80];
    let mut cursor = Cursor::new(data);

    assert!(matches!(read_u64(&mut cursor), Err(UVarintError::Incomplete)));
}

#[test]
fn stream_stops_after_the_final_byte() {
    let mut decoder = StreamDecoder::new(32);
    assert!(!decoder.is_complete());
    assert!(!decoder.feed(0xAC));
    assert!(decoder.feed(0x02));
    assert!(decoder.is_complete());
    assert_eq!(decoder.value_u32(), Ok(300));
}

#[test]
fn stream_malformed_takes_exactly_the_width_limit() {
    let data = vec![0x80u8; 12];
    let mut cursor = Cursor::new(data);
    assert_eq!(read_u32(&mut cursor), Err(UVarintError::Incomplete));
    assert_eq!(cursor.position(), 5);

    let data = vec![0xFFu8; 12];
    let mut cursor = Cursor::new(data);
    assert_eq!(read_u64(&mut cursor), Err(UVarintError::Overflow));
    assert_eq!(cursor.position(), 10);
}

#[test]
fn stream_value_before_completion_is_incomplete() {
    let mut decoder = StreamDecoder::new(64);
    assert_eq!(decoder.value_u64(), Err(UVarintError::Incomplete));
    decoder.feed(0x80);
    assert_eq!(decoder.value_u64(), Err(UVarintError::Incomplete));
}
