use kimage::io::{
    read_u16_be, read_u16_le, read_u32_be, read_u32_le, write_u16_be, write_u16_le, write_u32_be,
    write_u32_le, ByteReader,
};
use kimage::IoErrorKind;

#[test]
fn read_u16_le_reads_little_endian_value() {
    let mut reader = ByteReader::new(&[0x34, 0x12]);

    assert_eq!(read_u16_le(&mut reader).unwrap(), 0x1234);
}

#[test]
fn read_u32_le_reads_little_endian_value() {
    let mut reader = ByteReader::new(&[0x78, 0x56, 0x34, 0x12]);

    assert_eq!(read_u32_le(&mut reader).unwrap(), 0x1234_5678);
}

#[test]
fn read_u16_be_reads_big_endian_value() {
    let mut reader = ByteReader::new(&[0x12, 0x34]);

    assert_eq!(read_u16_be(&mut reader).unwrap(), 0x1234);
}

#[test]
fn read_u32_be_reads_big_endian_value() {
    let mut reader = ByteReader::new(&[0x12, 0x34, 0x56, 0x78]);

    assert_eq!(read_u32_be(&mut reader).unwrap(), 0x1234_5678);
}

#[test]
fn write_u16_le_writes_little_endian_value() {
    let mut writer = Vec::new();

    write_u16_le(&mut writer, 0x1234).unwrap();

    assert_eq!(writer, [0x34, 0x12]);
}

#[test]
fn write_u32_le_writes_little_endian_value() {
    let mut writer = Vec::new();

    write_u32_le(&mut writer, 0x1234_5678).unwrap();

    assert_eq!(writer, [0x78, 0x56, 0x34, 0x12]);
}

#[test]
fn write_u16_be_writes_big_endian_value() {
    let mut writer = Vec::new();

    write_u16_be(&mut writer, 0x1234).unwrap();

    assert_eq!(writer, [0x12, 0x34]);
}

#[test]
fn write_u32_be_writes_big_endian_value() {
    let mut writer = Vec::new();

    write_u32_be(&mut writer, 0x1234_5678).unwrap();

    assert_eq!(writer, [0x12, 0x34, 0x56, 0x78]);
}

#[test]
fn read_u16_le_returns_unexpected_eof_for_short_input() {
    let mut reader = ByteReader::new(&[0x34]);
    let error = read_u16_le(&mut reader).unwrap_err();

    assert_eq!(error, IoErrorKind::UnexpectedEof);
}

#[test]
fn read_u32_be_returns_unexpected_eof_for_short_input() {
    let mut reader = ByteReader::new(&[0x12, 0x34, 0x56]);
    let error = read_u32_be(&mut reader).unwrap_err();

    assert_eq!(error, IoErrorKind::UnexpectedEof);
}

#[test]
fn reads_advance_through_consecutive_values() {
    let mut reader = ByteReader::new(&[0x34, 0x12, 0x78, 0x56, 0x34, 0x12, 0xff]);

    assert_eq!(read_u16_le(&mut reader).unwrap(), 0x1234);
    assert_eq!(read_u32_le(&mut reader).unwrap(), 0x1234_5678);
    assert_eq!(reader.position, 6);
    assert_eq!(read_u16_be(&mut reader).unwrap_err(), IoErrorKind::UnexpectedEof);
    assert_eq!(reader.position, 7);
}

#[test]
fn written_values_read_back() {
    let mut writer = Vec::new();
    write_u32_le(&mut writer, 0xdead_beef).unwrap();
    write_u16_be(&mut writer, 0xcafe).unwrap();
    write_u32_be(&mut writer, 7).unwrap();
    write_u16_le(&mut writer, 0x00ff).unwrap();

    let mut reader = ByteReader::new(&writer);
    assert_eq!(read_u32_le(&mut reader).unwrap(), 0xdead_beef);
    assert_eq!(read_u16_be(&mut reader).unwrap(), 0xcafe);
    assert_eq!(read_u32_be(&mut reader).unwrap(), 7);
    assert_eq!(read_u16_le(&mut reader).unwrap(), 0x00ff);
}
