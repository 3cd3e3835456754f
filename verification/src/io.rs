use vstd::prelude::*;

use crate::error::IoErrorKind;

verus! {

/// A read position in a byte slice; reads advance it, as a cursor's do.
pub struct ByteReader<'a> {
    pub data: &'a [u8],
    pub position: usize,
}

impl<'a> ByteReader<'a> {
    /// A reader at the start of `data`.
    pub fn new(data: &'a [u8]) -> (r: Self)
        ensures
            r.data@ == data@,
            r.position == 0,
    {
        ByteReader { data, position: 0 }
    }
}

/// How many bytes are left to read.
pub open spec fn remaining(r: ByteReader<'_>) -> int {
    if r.position >= r.data@.len() {
        0
    } else {
        r.data@.len() - r.position
    }
}

/// What a read of `n` bytes does: `Some` of the bytes read, the reader then
/// standing after them; or `None` when fewer bytes are left, the reader then
/// standing at the end of its input.
pub open spec fn read_step(before: ByteReader<'_>, after: ByteReader<'_>, n: int, got: Option<Seq<u8>>) -> bool {
    &&& after.data@ == before.data@
    &&& match got {
        Some(bytes) => remaining(before) >= n && bytes == before.data@.subrange(
            before.position as int,
            before.position + n,
        ) && after.position == before.position + n,
        None => remaining(before) < n && after.position == before.data@.len(),
    }
}

/// The `u16` that two bytes hold, least significant first.
pub open spec fn le16_value(b: Seq<u8>) -> u16 {
    (b[0] + 256 * b[1]) as u16
}

/// The `u32` that four bytes hold, least significant first.
pub open spec fn le32_value(b: Seq<u8>) -> u32 {
    (b[0] + 256 * b[1] + 65536 * b[2] + 16777216 * b[3]) as u32
}

/// The `u16` that two bytes hold, most significant first.
pub open spec fn be16_value(b: Seq<u8>) -> u16 {
    (256 * b[0] + b[1]) as u16
}

/// The `u32` that four bytes hold, most significant first.
pub open spec fn be32_value(b: Seq<u8>) -> u32 {
    (16777216 * b[0] + 65536 * b[1] + 256 * b[2] + b[3]) as u32
}

/// The two bytes of a `u16`, least significant first.
pub open spec fn le16_bytes(v: u16) -> Seq<u8> {
    seq![(v % 256) as u8, (v / 256) as u8]
}

/// The four bytes of a `u32`, least significant first.
pub open spec fn le32_bytes(v: u32) -> Seq<u8> {
    seq![(v % 256) as u8, (v / 256 % 256) as u8, (v / 65536 % 256) as u8, (v / 16777216) as u8]
}

/// The two bytes of a `u16`, most significant first.
pub open spec fn be16_bytes(v: u16) -> Seq<u8> {
    seq![(v / 256) as u8, (v % 256) as u8]
}

/// The four bytes of a `u32`, most significant first.
pub open spec fn be32_bytes(v: u32) -> Seq<u8> {
    seq![(v / 16777216) as u8, (v / 65536 % 256) as u8, (v / 256 % 256) as u8, (v % 256) as u8]
}

/// Reads the next `n` bytes, or moves to the end when fewer are left.
fn read_exact<'a>(reader: &mut ByteReader<'a>, n: usize) -> (res: Result<&'a [u8], IoErrorKind>)
    requires
        n > 0,
    ensures
        read_step(
            *old(reader),
            *final(reader),
            n as int,
            match res {
                Ok(b) => Some(b@),
                Err(_) => None,
            },
        ),
        res is Err ==> res == Err::<&[u8], IoErrorKind>(IoErrorKind::UnexpectedEof),
{
    let len = reader.data.len();
    if reader.position >= len || len - reader.position < n {
        reader.position = len;
        return Err(IoErrorKind::UnexpectedEof);
    }
    let start = reader.position;
    let bytes = slice_range(reader.data, start, start + n);
    reader.position = start + n;
    Ok(bytes)
}

/// The bytes of `data` from `start` up to `end`.
fn slice_range<'a>(data: &'a [u8], start: usize, end: usize) -> (r: &'a [u8])
    requires
        start <= end <= data@.len(),
    ensures
        r@ == data@.subrange(start as int, end as int),
{
    &data[start..end]
}

/// Reads a little-endian `u16`.
pub fn read_u16_le(reader: &mut ByteReader<'_>) -> (res: Result<u16, IoErrorKind>)
    ensures
        read_step(
            *old(reader),
            *final(reader),
            2,
            match res {
                Ok(_) => Some(old(reader).data@.subrange(old(reader).position as int, old(reader).position + 2)),
                Err(_) => None,
            },
        ),
        match res {
            Ok(v) => v == le16_value(old(reader).data@.subrange(old(reader).position as int, old(reader).position + 2)),
            Err(k) => k == IoErrorKind::UnexpectedEof,
        },
{
    match read_exact(reader, 2) {
        Ok(b) => Ok(b[0] as u16 + 256 * b[1] as u16),
        Err(k) => Err(k),
    }
}

/// Reads a little-endian `u32`.
pub fn read_u32_le(reader: &mut ByteReader<'_>) -> (res: Result<u32, IoErrorKind>)
    ensures
        read_step(
            *old(reader),
            *final(reader),
            4,
            match res {
                Ok(_) => Some(old(reader).data@.subrange(old(reader).position as int, old(reader).position + 4)),
                Err(_) => None,
            },
        ),
        match res {
            Ok(v) => v == le32_value(old(reader).data@.subrange(old(reader).position as int, old(reader).position + 4)),
            Err(k) => k == IoErrorKind::UnexpectedEof,
        },
{
    match read_exact(reader, 4) {
        Ok(b) => Ok(b[0] as u32 + 256 * b[1] as u32 + 65536 * b[2] as u32 + 16777216 * b[3] as u32),
        Err(k) => Err(k),
    }
}

/// Reads a big-endian `u16`.
pub fn read_u16_be(reader: &mut ByteReader<'_>) -> (res: Result<u16, IoErrorKind>)
    ensures
        read_step(
            *old(reader),
            *final(reader),
            2,
            match res {
                Ok(_) => Some(old(reader).data@.subrange(old(reader).position as int, old(reader).position + 2)),
                Err(_) => None,
            },
        ),
        match res {
            Ok(v) => v == be16_value(old(reader).data@.subrange(old(reader).position as int, old(reader).position + 2)),
            Err(k) => k == IoErrorKind::UnexpectedEof,
        },
{
    match read_exact(reader, 2) {
        Ok(b) => Ok(256 * b[0] as u16 + b[1] as u16),
        Err(k) => Err(k),
    }
}

/// Reads a big-endian `u32`.
pub fn read_u32_be(reader: &mut ByteReader<'_>) -> (res: Result<u32, IoErrorKind>)
    ensures
        read_step(
            *old(reader),
            *final(reader),
            4,
            match res {
                Ok(_) => Some(old(reader).data@.subrange(old(reader).position as int, old(reader).position + 4)),
                Err(_) => None,
            },
        ),
        match res {
            Ok(v) => v == be32_value(old(reader).data@.subrange(old(reader).position as int, old(reader).position + 4)),
            Err(k) => k == IoErrorKind::UnexpectedEof,
        },
{
    match read_exact(reader, 4) {
        Ok(b) => Ok(16777216 * b[0] as u32 + 65536 * b[1] as u32 + 256 * b[2] as u32 + b[3] as u32),
        Err(k) => Err(k),
    }
}

/// Writes a little-endian `u16`.
pub fn write_u16_le(writer: &mut Vec<u8>, value: u16) -> (res: Result<(), IoErrorKind>)
    ensures
        res is Ok,
        final(writer)@ == old(writer)@ + le16_bytes(value),
{
    writer.push((value % 256) as u8);
    writer.push((value / 256) as u8);
    assert(writer@ =~= old(writer)@ + le16_bytes(value));
    Ok(())
}

/// Writes a little-endian `u32`.
pub fn write_u32_le(writer: &mut Vec<u8>, value: u32) -> (res: Result<(), IoErrorKind>)
    ensures
        res is Ok,
        final(writer)@ == old(writer)@ + le32_bytes(value),
{
    writer.push((value % 256) as u8);
    writer.push((value / 256 % 256) as u8);
    writer.push((value / 65536 % 256) as u8);
    writer.push((value / 16777216) as u8);
    assert(writer@ =~= old(writer)@ + le32_bytes(value));
    Ok(())
}

/// Writes a big-endian `u16`.
pub fn write_u16_be(writer: &mut Vec<u8>, value: u16) -> (res: Result<(), IoErrorKind>)
    ensures
        res is Ok,
        final(writer)@ == old(writer)@ + be16_bytes(value),
{
    writer.push((value / 256) as u8);
    writer.push((value % 256) as u8);
    assert(writer@ =~= old(writer)@ + be16_bytes(value));
    Ok(())
}

/// Writes a big-endian `u32`.
pub fn write_u32_be(writer: &mut Vec<u8>, value: u32) -> (res: Result<(), IoErrorKind>)
    ensures
        res is Ok,
        final(writer)@ == old(writer)@ + be32_bytes(value),
{
    writer.push((value / 16777216) as u8);
    writer.push((value / 65536 % 256) as u8);
    writer.push((value / 256 % 256) as u8);
    writer.push((value % 256) as u8);
    assert(writer@ =~= old(writer)@ + be32_bytes(value));
    Ok(())
}

/// A `u16` written least significant byte first reads back as itself.
pub proof fn lemma_u16_le_roundtrip(v: u16)
    ensures
        le16_value(le16_bytes(v)) == v,
{
}

/// A `u32` written least significant byte first reads back as itself.
pub proof fn lemma_u32_le_roundtrip(v: u32)
    ensures
        le32_value(le32_bytes(v)) == v,
{
}

/// A `u16` written most significant byte first reads back as itself.
pub proof fn lemma_u16_be_roundtrip(v: u16)
    ensures
        be16_value(be16_bytes(v)) == v,
{
}

/// A `u32` written most significant byte first reads back as itself.
pub proof fn lemma_u32_be_roundtrip(v: u32)
    ensures
        be32_value(be32_bytes(v)) == v,
{
}

/// Two bytes read little-endian and written back are the same two bytes.
pub proof fn lemma_le16_bytes_of_value(b: Seq<u8>)
    requires
        b.len() == 2,
    ensures
        le16_bytes(le16_value(b)) == b,
{
    assert(le16_bytes(le16_value(b)) =~= b);
}

/// Four bytes read little-endian and written back are the same four bytes.
pub proof fn lemma_le32_bytes_of_value(b: Seq<u8>)
    requires
        b.len() == 4,
    ensures
        le32_bytes(le32_value(b)) == b,
{
    assert(le32_bytes(le32_value(b)) =~= b);
}

} // verus!
