use vstd::prelude::*;

use crate::error::{ImageError, IoErrorKind};
use crate::image::{Image, ImageModel, ImageView, PixelFormat, image_result, new_image_spec};
use crate::io::{
    ByteReader, read_u16_le, read_u32_le, write_u16_le, write_u32_le, le16_value, le32_value, le16_bytes,
    le32_bytes, remaining, lemma_u16_le_roundtrip, lemma_u32_le_roundtrip,
};
use crate::text::append_bytes;
use crate::codecs::netpbm::{writes, view_check, validate_image_view, packed_image_data, lemma_checked_view};
use crate::image::{row_len, strided_len, packed_len, lemma_pixels_len, image_new_error};
use std::collections::HashMap;
use vstd::arithmetic::power2::pow2;

verus! {

/// Size of the BMP file header.
pub const FILE_HEADER_SIZE: u32 = 14;

/// Size of a `BITMAPINFOHEADER`.
pub const INFO_HEADER_SIZE: u32 = 40;

/// Where the pixels start when no color table stands between them and the headers.
pub const PIXEL_OFFSET: u32 = FILE_HEADER_SIZE + INFO_HEADER_SIZE;

/// The only number of color planes a BMP may declare.
pub const PLANES: u16 = 1;

pub const BITS_PER_PIXEL_INDEXED1: u16 = 1;

pub const BITS_PER_PIXEL_INDEXED4: u16 = 4;

pub const BITS_PER_PIXEL_INDEXED8: u16 = 8;

pub const BITS_PER_PIXEL_RGB24: u16 = 24;

/// Uncompressed pixels.
pub const COMPRESSION_BI_RGB: u32 = 0;

/// Size of one color table entry.
pub const COLOR_TABLE_ENTRY_SIZE: u32 = 4;

/// Output options used when encoding a generic image view as BMP.
#[derive(Clone, Debug, Eq, PartialEq)]
pub struct BmpEncodeOptions {
    pub pixel_encoding: BmpPixelEncoding,
    pub orientation: BmpOrientation,
    pub x_pixels_per_meter: i32,
    pub y_pixels_per_meter: i32,
}

/// Pixel array representation used when encoding BMP.
#[derive(Clone, Debug, Eq, PartialEq)]
pub enum BmpPixelEncoding {
    Rgb24,
    Indexed8 { color_table: Vec<BmpColorTableEntry> },
    AutoIndexed8OrRgb24,
}

/// BMP row order.
#[derive(Clone, Copy, Debug, Eq, PartialEq, Structural)]
pub enum BmpOrientation {
    BottomUp,
    TopDown,
}

/// Native BMP image representation.
#[derive(Clone, Debug, Eq, PartialEq)]
pub struct BmpImage {
    pub file_header: BmpFileHeader,
    pub dib_header: BmpDibHeader,
    pub color_masks: Vec<u32>,
    pub color_table: Vec<BmpColorTableEntry>,
    pub pixel_array: Vec<u8>,
}

/// BMP file header fields.
#[derive(Clone, Copy, Debug, Eq, PartialEq)]
pub struct BmpFileHeader {
    pub file_size: u32,
    pub reserved1: u16,
    pub reserved2: u16,
    pub pixel_offset: u32,
}

/// Supported BMP DIB headers.
#[derive(Clone, Copy, Debug, Eq, PartialEq)]
pub enum BmpDibHeader {
    BitmapInfoHeader(BmpInfoHeader),
}

/// BITMAPINFOHEADER fields.
#[derive(Clone, Copy, Debug, Eq, PartialEq)]
pub struct BmpInfoHeader {
    pub width: i32,
    pub height: i32,
    pub planes: u16,
    pub bits_per_pixel: u16,
    pub compression: u32,
    pub image_size: u32,
    pub x_pixels_per_meter: i32,
    pub y_pixels_per_meter: i32,
    pub colors_used: u32,
    pub important_colors: u32,
}

/// BMP color table entry.
#[derive(Clone, Copy, Debug, Eq, PartialEq)]
pub struct BmpColorTableEntry {
    pub blue: u8,
    pub green: u8,
    pub red: u8,
    pub reserved: u8,
}

/// The mathematical value of a `BmpImage`.
pub struct BmpModel {
    pub file_header: BmpFileHeader,
    pub dib_header: BmpDibHeader,
    pub color_masks: Seq<u32>,
    pub color_table: Seq<BmpColorTableEntry>,
    pub pixel_array: Seq<u8>,
}

impl View for BmpImage {
    type V = BmpModel;

    open spec fn view(&self) -> BmpModel {
        BmpModel {
            file_header: self.file_header,
            dib_header: self.dib_header,
            color_masks: self.color_masks@,
            color_table: self.color_table@,
            pixel_array: self.pixel_array@,
        }
    }
}

/// The mathematical value of a `BmpPixelEncoding`.
pub enum PixelEncodingModel {
    Rgb24,
    Indexed8 { color_table: Seq<BmpColorTableEntry> },
    AutoIndexed8OrRgb24,
}

impl View for BmpPixelEncoding {
    type V = PixelEncodingModel;

    open spec fn view(&self) -> PixelEncodingModel {
        match self {
            BmpPixelEncoding::Rgb24 => PixelEncodingModel::Rgb24,
            BmpPixelEncoding::Indexed8 { color_table } => PixelEncodingModel::Indexed8 {
                color_table: color_table@,
            },
            BmpPixelEncoding::AutoIndexed8OrRgb24 => PixelEncodingModel::AutoIndexed8OrRgb24,
        }
    }
}

/// The mathematical value of `BmpEncodeOptions`.
pub struct EncodeOptionsModel {
    pub pixel_encoding: PixelEncodingModel,
    pub orientation: BmpOrientation,
    pub x_pixels_per_meter: i32,
    pub y_pixels_per_meter: i32,
}

impl View for BmpEncodeOptions {
    type V = EncodeOptionsModel;

    open spec fn view(&self) -> EncodeOptionsModel {
        EncodeOptionsModel {
            pixel_encoding: self.pixel_encoding@,
            orientation: self.orientation,
            x_pixels_per_meter: self.x_pixels_per_meter,
            y_pixels_per_meter: self.y_pixels_per_meter,
        }
    }
}

/// A result holding a BMP image, seen through its model.
pub open spec fn bmp_result(r: Result<BmpImage, ImageError>) -> Result<BmpModel, ImageError> {
    match r {
        Ok(image) => Ok(image@),
        Err(e) => Err(e),
    }
}

/// The info header of a DIB header.
pub open spec fn info_of(d: BmpDibHeader) -> BmpInfoHeader {
    match d {
        BmpDibHeader::BitmapInfoHeader(h) => h,
    }
}

/// The magnitude of a signed height.
pub open spec fn abs_height(h: i32) -> u32 {
    if h < 0 {
        (-h) as u32
    } else {
        h as u32
    }
}

/// The magnitude of a signed height.
pub fn unsigned_abs(h: i32) -> (r: u32)
    ensures
        r == abs_height(h),
{
    if h < 0 {
        (-(h as i64)) as u32
    } else {
        h as u32
    }
}

/// The `i32` whose two's-complement bits a `u32` holds.
pub open spec fn i32_of(v: u32) -> i32 {
    if v < 0x8000_0000 {
        v as i32
    } else {
        (v - 0x1_0000_0000) as i32
    }
}

/// The `u32` that holds the two's-complement bits of an `i32`.
pub open spec fn u32_of(v: i32) -> u32 {
    if v >= 0 {
        v as u32
    } else {
        (v + 0x1_0000_0000) as u32
    }
}

/// The refusal of an image too large for the BMP layout arithmetic.
pub open spec fn too_large_rgb(width: u32, height: u32) -> ImageError {
    ImageError::ImageDimensionsTooLarge { width, height, bytes_per_pixel: 3 }
}

fn too_large_rgb_exec(width: u32, height: u32) -> (e: ImageError)
    ensures
        e == too_large_rgb(width, height),
{
    ImageError::ImageDimensionsTooLarge { width, height, bytes_per_pixel: 3 }
}

/// The refusal of a color table of the wrong length, read from a header.
pub open spec fn table_len_error() -> ImageError {
    ImageError::InvalidHeader { reason: "invalid BMP color table length" }
}

/// The refusal of a pixel data offset.
pub open spec fn pixel_offset_error() -> ImageError {
    ImageError::InvalidHeader { reason: "invalid pixel data offset" }
}

/// The refusal of an input that ends inside the headers.
pub open spec fn eof_error() -> ImageError {
    ImageError::Io { kind: IoErrorKind::UnexpectedEof }
}

// ---------------------------------------------------------------------------
// Layout arithmetic.
// ---------------------------------------------------------------------------

/// The check of an info header's dimensions and planes.
pub open spec fn header_shape_check(h: BmpInfoHeader) -> Option<ImageError> {
    if h.width <= 0 || h.height == 0 {
        Some(
            ImageError::InvalidHeader {
                reason: "width and height must be non-zero, and width must be positive",
            },
        )
    } else if h.planes != 1 {
        Some(ImageError::InvalidHeader { reason: "invalid BMP planes value" })
    } else {
        None
    }
}

/// Whether a bit depth is one this crate reads and writes.
pub open spec fn supported_depth(bits_per_pixel: u16) -> bool {
    bits_per_pixel == 1 || bits_per_pixel == 4 || bits_per_pixel == 8 || bits_per_pixel == 24
}

/// The check of an info header: `None` when this crate supports it.
pub open spec fn info_header_check(h: BmpInfoHeader) -> Option<ImageError> {
    match header_shape_check(h) {
        Some(e) => Some(e),
        None => if supported_depth(h.bits_per_pixel) && h.compression == 0 {
            None
        } else {
            Some(ImageError::UnsupportedFormat)
        },
    }
}

/// Checks that an info header describes a supported, uncompressed BMP.
pub fn validate_supported_info_header(info_header: &BmpInfoHeader) -> (res: Result<(), ImageError>)
    ensures
        match info_header_check(*info_header) {
            Some(e) => res == Err::<(), _>(e),
            None => res is Ok,
        },
{
    if info_header.width <= 0 || info_header.height == 0 {
        return Err(ImageError::InvalidHeader {
            reason: "width and height must be non-zero, and width must be positive",
        });
    }
    if info_header.planes != PLANES {
        return Err(ImageError::InvalidHeader { reason: "invalid BMP planes value" });
    }
    let bpp = info_header.bits_per_pixel;
    if (bpp == BITS_PER_PIXEL_INDEXED1 || bpp == BITS_PER_PIXEL_INDEXED4 || bpp == BITS_PER_PIXEL_INDEXED8
        || bpp == BITS_PER_PIXEL_RGB24) && info_header.compression == COMPRESSION_BI_RGB {
        Ok(())
    } else {
        Err(ImageError::UnsupportedFormat)
    }
}

/// The number of entries a full color table has at a bit depth, for the
/// indexed depths.
pub open spec fn max_table_entries(bits_per_pixel: u16) -> Option<int> {
    if bits_per_pixel == 1 {
        Some(2)
    } else if bits_per_pixel == 4 {
        Some(16)
    } else if bits_per_pixel == 8 {
        Some(256)
    } else {
        None
    }
}

/// The number of entries a full color table has at a bit depth.
pub fn max_color_table_entries(bits_per_pixel: u16) -> (r: Option<usize>)
    ensures
        match max_table_entries(bits_per_pixel) {
            Some(n) => r == Some(n as usize),
            None => r is None,
        },
{
    if bits_per_pixel == BITS_PER_PIXEL_INDEXED1 {
        Some(2)
    } else if bits_per_pixel == BITS_PER_PIXEL_INDEXED4 {
        Some(16)
    } else if bits_per_pixel == BITS_PER_PIXEL_INDEXED8 {
        Some(256)
    } else {
        None
    }
}

/// The number of color table entries an info header declares: all of them
/// when `colors_used` is zero.
pub open spec fn table_entry_count(h: BmpInfoHeader) -> Result<int, ImageError> {
    match max_table_entries(h.bits_per_pixel) {
        None => Ok(0),
        Some(m) => if h.colors_used == 0 {
            Ok(m)
        } else if h.colors_used > m {
            Err(table_len_error())
        } else {
            Ok(h.colors_used as int)
        },
    }
}

/// The number of color table entries an info header declares.
pub fn color_table_entry_count(info_header: &BmpInfoHeader) -> (res: Result<usize, ImageError>)
    ensures
        match table_entry_count(*info_header) {
            Ok(n) => res == Ok::<usize, ImageError>(n as usize) && n <= 256,
            Err(e) => res == Err::<usize, _>(e),
        },
{
    let max_entries = match max_color_table_entries(info_header.bits_per_pixel) {
        Some(m) => m,
        None => return Ok(0),
    };
    if info_header.colors_used == 0 {
        return Ok(max_entries);
    }
    let colors_used = info_header.colors_used as usize;
    if colors_used > max_entries {
        return Err(ImageError::InvalidHeader { reason: "invalid BMP color table length" });
    }
    Ok(colors_used)
}

/// The first byte the pixels may start at, after a color table of `n` entries.
pub open spec fn min_pixel_offset(n: int) -> Result<u32, ImageError> {
    if 54 + 4 * n <= u32::MAX {
        Ok((54 + 4 * n) as u32)
    } else {
        Err(table_len_error())
    }
}

/// The first byte the pixels may start at, after a color table of `entry_count` entries.
pub fn expected_min_pixel_offset_for_color_table(entry_count: usize) -> (res: Result<u32, ImageError>)
    ensures
        match min_pixel_offset(entry_count as int) {
            Ok(p) => res == Ok::<u32, ImageError>(p),
            Err(e) => res == Err::<u32, _>(e),
        },
{
    if entry_count > 0x3fff_fff2 {
        return Err(ImageError::InvalidHeader { reason: "invalid BMP color table length" });
    }
    let table_bytes = entry_count as u32 * COLOR_TABLE_ENTRY_SIZE;
    Ok(PIXEL_OFFSET + table_bytes)
}

/// The bytes of one BMP row: its pixel bits rounded up to whole 32-bit words.
pub open spec fn row_size_spec(width: u32, bits_per_pixel: u16) -> Result<int, ImageError> {
    let bits = width * bits_per_pixel;
    if bits + 31 > usize::MAX {
        Err(ImageError::ImageDimensionsTooLarge { width, height: 1, bytes_per_pixel: 3 })
    } else {
        Ok((bits + 31) / 32 * 4)
    }
}

/// The bytes of one BMP row.
pub fn bmp_row_size(width: u32, bits_per_pixel: u16) -> (res: Result<usize, ImageError>)
    ensures
        match row_size_spec(width, bits_per_pixel) {
            Ok(n) => res == Ok::<usize, ImageError>(n as usize),
            Err(e) => res == Err::<usize, _>(e),
        },
{
    let row_bits = match (width as usize).checked_mul(bits_per_pixel as usize) {
        Some(b) => b,
        None => return Err(ImageError::ImageDimensionsTooLarge { width, height: 1, bytes_per_pixel: 3 }),
    };
    match row_bits.checked_add(31) {
        Some(bits) => Ok(bits / 32 * 4),
        None => Err(ImageError::ImageDimensionsTooLarge { width, height: 1, bytes_per_pixel: 3 }),
    }
}

/// The bytes of a BMP pixel array.
pub open spec fn pixel_array_len_spec(width: u32, height: u32, bits_per_pixel: u16) -> Result<int, ImageError> {
    match row_size_spec(width, bits_per_pixel) {
        Err(e) => Err(e),
        Ok(rs) => if rs * height > usize::MAX {
            Err(too_large_rgb(width, height))
        } else {
            Ok(rs * height)
        },
    }
}

/// The bytes of a BMP pixel array.
pub fn bmp_pixel_array_len(width: u32, height: u32, bits_per_pixel: u16) -> (res: Result<usize, ImageError>)
    ensures
        match pixel_array_len_spec(width, height, bits_per_pixel) {
            Ok(n) => res == Ok::<usize, ImageError>(n as usize),
            Err(e) => res == Err::<usize, _>(e),
        },
{
    let row_size = bmp_row_size(width, bits_per_pixel)?;
    match row_size.checked_mul(height as usize) {
        Some(n) => Ok(n),
        None => Err(too_large_rgb_exec(width, height)),
    }
}

// ---------------------------------------------------------------------------
// Reading the headers.
// ---------------------------------------------------------------------------

/// The little-endian `u16` at byte `p`.
pub open spec fn le16_at(d: Seq<u8>, p: int) -> u16 {
    le16_value(d.subrange(p, p + 2))
}

/// The little-endian `u32` at byte `p`.
pub open spec fn le32_at(d: Seq<u8>, p: int) -> u32 {
    le32_value(d.subrange(p, p + 4))
}

/// The file header that starts a BMP input.
pub open spec fn file_header_at(d: Seq<u8>) -> BmpFileHeader {
    BmpFileHeader {
        file_size: le32_at(d, 2),
        reserved1: le16_at(d, 6),
        reserved2: le16_at(d, 8),
        pixel_offset: le32_at(d, 10),
    }
}

/// The info header that follows the file header.
pub open spec fn info_header_at(d: Seq<u8>) -> BmpInfoHeader {
    BmpInfoHeader {
        width: i32_of(le32_at(d, 18)),
        height: i32_of(le32_at(d, 22)),
        planes: le16_at(d, 26),
        bits_per_pixel: le16_at(d, 28),
        compression: le32_at(d, 30),
        image_size: le32_at(d, 34),
        x_pixels_per_meter: i32_of(le32_at(d, 38)),
        y_pixels_per_meter: i32_of(le32_at(d, 42)),
        colors_used: le32_at(d, 46),
        important_colors: le32_at(d, 50),
    }
}

/// The color table entry whose four bytes start at `p`: blue, green, red, reserved.
pub open spec fn entry_at(d: Seq<u8>, p: int) -> BmpColorTableEntry {
    BmpColorTableEntry { blue: d[p], green: d[p + 1], red: d[p + 2], reserved: d[p + 3] }
}

/// The `n` color table entries that follow the headers.
pub open spec fn color_table_at(d: Seq<u8>, n: int) -> Seq<BmpColorTableEntry> {
    Seq::new(n as nat, |i: int| entry_at(d, 54 + 4 * i))
}

/// What decoding a BMP input gives: its native fields, or the first error.
pub open spec fn decode_native_spec(d: Seq<u8>) -> Result<BmpModel, ImageError> {
    if d.len() < 2 {
        Err(eof_error())
    } else if d[0] != 0x42 || d[1] != 0x4d {
        Err(ImageError::UnsupportedFormat)
    } else if d.len() < 18 {
        Err(eof_error())
    } else if le32_at(d, 14) != 40 {
        Err(ImageError::UnsupportedFormat)
    } else if d.len() < 54 {
        Err(eof_error())
    } else {
        let fh = file_header_at(d);
        let ih = info_header_at(d);
        match info_header_check(ih) {
            Some(e) => Err(e),
            None => {
                let w = ih.width as u32;
                let h = abs_height(ih.height);
                match table_entry_count(ih) {
                    Err(e) => Err(e),
                    Ok(n) => match min_pixel_offset(n) {
                        Err(e) => Err(e),
                        Ok(min_offset) => if fh.pixel_offset < min_offset || fh.pixel_offset > d.len() {
                            Err(pixel_offset_error())
                        } else {
                            match pixel_array_len_spec(w, h, ih.bits_per_pixel) {
                                Err(e) => Err(e),
                                Ok(len) => if fh.pixel_offset + len > usize::MAX {
                                    Err(too_large_rgb(w, h))
                                } else if fh.pixel_offset + len > d.len() {
                                    Err(
                                        ImageError::InvalidBufferLength {
                                            expected: (fh.pixel_offset + len) as usize,
                                            actual: d.len() as usize,
                                        },
                                    )
                                } else {
                                    Ok(
                                        BmpModel {
                                            file_header: fh,
                                            dib_header: BmpDibHeader::BitmapInfoHeader(ih),
                                            color_masks: Seq::empty(),
                                            color_table: color_table_at(d, n),
                                            pixel_array: d.subrange(
                                                fh.pixel_offset as int,
                                                fh.pixel_offset + len,
                                            ),
                                        },
                                    )
                                },
                            }
                        },
                    },
                }
            },
        }
    }
}

/// Reads a little-endian `u16` header field.
fn field_u16(reader: &mut ByteReader<'_>) -> (res: Result<u16, ImageError>)
    ensures
        final(reader).data@ == old(reader).data@,
        match res {
            Ok(v) => remaining(*old(reader)) >= 2 && v == le16_at(old(reader).data@, old(reader).position as int)
                && final(reader).position == old(reader).position + 2,
            Err(e) => remaining(*old(reader)) < 2 && e == eof_error(),
        },
{
    match read_u16_le(reader) {
        Ok(v) => Ok(v),
        Err(kind) => Err(ImageError::Io { kind }),
    }
}

/// Reads a little-endian `u32` header field.
fn field_u32(reader: &mut ByteReader<'_>) -> (res: Result<u32, ImageError>)
    ensures
        final(reader).data@ == old(reader).data@,
        match res {
            Ok(v) => remaining(*old(reader)) >= 4 && v == le32_at(old(reader).data@, old(reader).position as int)
                && final(reader).position == old(reader).position + 4,
            Err(e) => remaining(*old(reader)) < 4 && e == eof_error(),
        },
{
    match read_u32_le(reader) {
        Ok(v) => Ok(v),
        Err(kind) => Err(ImageError::Io { kind }),
    }
}

/// The `i32` whose two's-complement bits a `u32` holds.
pub fn i32_from_bits(v: u32) -> (r: i32)
    ensures
        r == i32_of(v),
{
    if v < 0x8000_0000 {
        v as i32
    } else {
        (v as i64 - 0x1_0000_0000) as i32
    }
}

/// The `u32` that holds the two's-complement bits of an `i32`.
pub fn bits_of_i32(v: i32) -> (r: u32)
    ensures
        r == u32_of(v),
{
    if v >= 0 {
        v as u32
    } else {
        (v as i64 + 0x1_0000_0000) as u32
    }
}

/// Reads a little-endian `i32` header field.
fn field_i32(reader: &mut ByteReader<'_>) -> (res: Result<i32, ImageError>)
    ensures
        final(reader).data@ == old(reader).data@,
        match res {
            Ok(v) => remaining(*old(reader)) >= 4 && v == i32_of(
                le32_at(old(reader).data@, old(reader).position as int),
            ) && final(reader).position == old(reader).position + 4,
            Err(e) => remaining(*old(reader)) < 4 && e == eof_error(),
        },
{
    let v = field_u32(reader)?;
    Ok(i32_from_bits(v))
}

/// Checks the pixel data offset against the color table and the input.
pub fn validate_pixel_offset(pixel_offset: u32, input_len: usize, min_pixel_offset: u32) -> (res: Result<
    usize,
    ImageError,
>)
    ensures
        if pixel_offset < min_pixel_offset || pixel_offset > input_len {
            res == Err::<usize, _>(pixel_offset_error())
        } else {
            res == Ok::<usize, ImageError>(pixel_offset as usize)
        },
{
    if pixel_offset < min_pixel_offset || pixel_offset as usize > input_len {
        return Err(ImageError::InvalidHeader { reason: "invalid pixel data offset" });
    }
    Ok(pixel_offset as usize)
}

/// Reads the color table entries that follow the headers.
pub fn read_color_table(data: &[u8], entry_count: usize) -> (table: Vec<BmpColorTableEntry>)
    requires
        54 + 4 * entry_count <= data@.len(),
    ensures
        table@ == color_table_at(data@, entry_count as int),
{
    let mut table: Vec<BmpColorTableEntry> = Vec::new();
    let total = data.len();
    let mut i: usize = 0;
    while i < entry_count
        invariant
            total == data@.len(),
            54 + 4 * entry_count <= data@.len(),
            i <= entry_count,
            table@ == color_table_at(data@, i as int),
        decreases entry_count - i,
    {
        let p = 54 + 4 * i;
        table.push(BmpColorTableEntry { blue: data[p], green: data[p + 1], red: data[p + 2], reserved: data[p + 3] });
        i = i + 1;
        assert(table@ =~= color_table_at(data@, i as int));
    }
    table
}

/// The bytes of `data` from `start` up to `end`, copied.
fn copy_range(data: &[u8], start: usize, end: usize) -> (v: Vec<u8>)
    requires
        start <= end <= data@.len(),
    ensures
        v@ == data@.subrange(start as int, end as int),
{
    let mut v: Vec<u8> = Vec::new();
    let mut i: usize = start;
    while i < end
        invariant
            start <= i <= end <= data@.len(),
            v@ == data@.subrange(start as int, i as int),
        decreases end - i,
    {
        v.push(data[i]);
        i = i + 1;
        assert(v@ =~= data@.subrange(start as int, i as int));
    }
    v
}

/// Decodes a BMP image while preserving native BMP fields.
pub fn decode_native(data: &[u8]) -> (res: Result<BmpImage, ImageError>)
    ensures
        bmp_result(res) == decode_native_spec(data@),
{
    if data.len() < 2 {
        return Err(ImageError::Io { kind: IoErrorKind::UnexpectedEof });
    }
    if data[0] != 0x42 || data[1] != 0x4d {
        return Err(ImageError::UnsupportedFormat);
    }
    let ghost d = data@;
    let mut reader = ByteReader { data, position: 2 };
    let file_size = field_u32(&mut reader)?;
    let reserved1 = field_u16(&mut reader)?;
    let reserved2 = field_u16(&mut reader)?;
    let pixel_offset = field_u32(&mut reader)?;
    let dib_header_size = field_u32(&mut reader)?;
    if dib_header_size != INFO_HEADER_SIZE {
        return Err(ImageError::UnsupportedFormat);
    }
    let width = field_i32(&mut reader)?;
    let height = field_i32(&mut reader)?;
    let planes = field_u16(&mut reader)?;
    let bits_per_pixel = field_u16(&mut reader)?;
    let compression = field_u32(&mut reader)?;
    let image_size = field_u32(&mut reader)?;
    let x_pixels_per_meter = field_i32(&mut reader)?;
    let y_pixels_per_meter = field_i32(&mut reader)?;
    let colors_used = field_u32(&mut reader)?;
    let important_colors = field_u32(&mut reader)?;
    let file_header = BmpFileHeader { file_size, reserved1, reserved2, pixel_offset };
    let info_header = BmpInfoHeader {
        width,
        height,
        planes,
        bits_per_pixel,
        compression,
        image_size,
        x_pixels_per_meter,
        y_pixels_per_meter,
        colors_used,
        important_colors,
    };
    assert(data@.len() >= 54);
    assert(file_header == file_header_at(d));
    assert(info_header == info_header_at(d));
    validate_supported_info_header(&info_header)?;
    let w = width as u32;
    let h = unsigned_abs(height);
    let color_table_entry_count = color_table_entry_count(&info_header)?;
    let min_pixel_offset = expected_min_pixel_offset_for_color_table(color_table_entry_count)?;
    let pixel_offset = validate_pixel_offset(file_header.pixel_offset, data.len(), min_pixel_offset)?;
    let color_table = read_color_table(data, color_table_entry_count);
    let pixel_data_len = bmp_pixel_array_len(w, h, bits_per_pixel)?;
    let pixel_end = match pixel_offset.checked_add(pixel_data_len) {
        Some(e) => e,
        None => return Err(too_large_rgb_exec(w, h)),
    };
    if pixel_end > data.len() {
        return Err(ImageError::InvalidBufferLength { expected: pixel_end, actual: data.len() });
    }
    Ok(BmpImage {
        file_header,
        dib_header: BmpDibHeader::BitmapInfoHeader(info_header),
        color_masks: Vec::new(),
        color_table,
        pixel_array: copy_range(data, pixel_offset, pixel_end),
    })
}


// ---------------------------------------------------------------------------
// Checks of a native image.
// ---------------------------------------------------------------------------

/// The checks made of a native image's header, color table and pixel array
/// before it is written or converted: `None` when they hold, else the error.
pub open spec fn pixels_check(m: BmpModel) -> Option<ImageError> {
    let ih = info_of(m.dib_header);
    if m.color_masks.len() != 0 {
        Some(ImageError::UnsupportedFormat)
    } else {
        match info_header_check(ih) {
            Some(e) => Some(e),
            None => match table_entry_count(ih) {
                Err(e) => Some(e),
                Ok(n) => if m.color_table.len() != n {
                    Some(table_len_error())
                } else {
                    match pixel_array_len_spec(ih.width as u32, abs_height(ih.height), ih.bits_per_pixel) {
                        Err(e) => Some(e),
                        Ok(size) => if m.pixel_array.len() != size {
                            Some(
                                ImageError::InvalidBufferLength {
                                    expected: size as usize,
                                    actual: m.pixel_array.len() as usize,
                                },
                            )
                        } else {
                            None
                        },
                    }
                },
            },
        }
    }
}

/// Checks a native image's header, color table and pixel array length.
pub fn validate_bmp_image_pixels(image: &BmpImage) -> (res: Result<(), ImageError>)
    ensures
        match pixels_check(image@) {
            Some(e) => res == Err::<(), _>(e),
            None => res is Ok,
        },
{
    if image.color_masks.len() != 0 {
        return Err(ImageError::UnsupportedFormat);
    }
    let info_header = match &image.dib_header {
        BmpDibHeader::BitmapInfoHeader(h) => h,
    };
    validate_supported_info_header(info_header)?;
    let expected_entry_count = color_table_entry_count(info_header)?;
    if image.color_table.len() != expected_entry_count {
        return Err(ImageError::InvalidHeader { reason: "invalid BMP color table length" });
    }
    let width = info_header.width as u32;
    let height = unsigned_abs(info_header.height);
    let image_size = bmp_pixel_array_len(width, height, info_header.bits_per_pixel)?;
    if image.pixel_array.len() != image_size {
        return Err(ImageError::InvalidBufferLength { expected: image_size, actual: image.pixel_array.len() });
    }
    Ok(())
}

/// A BMP row, rounded up to whole words, holds the bits of every pixel.
pub proof fn lemma_row_size_covers(width: u32, bits_per_pixel: u16)
    requires
        row_size_spec(width, bits_per_pixel) is Ok,
    ensures
        row_size_spec(width, bits_per_pixel)->Ok_0 * 8 >= width * bits_per_pixel,
        row_size_spec(width, bits_per_pixel)->Ok_0 >= 0,
{
    let bits = width * bits_per_pixel;
    let q = (bits + 31) / 32;
    assert(q * 32 >= bits) by (nonlinear_arith)
        requires
            q == (bits + 31) / 32,
            bits >= 0,
    ;
}

// ---------------------------------------------------------------------------
// Rows in file order.
// ---------------------------------------------------------------------------

/// The row of an image that the `k`-th row of a BMP file holds, and the other
/// way round: bottom-up files store the last image row first.
pub open spec fn source_row(height: int, bottom_up: bool, k: int) -> int {
    if bottom_up {
        height - 1 - k
    } else {
        k
    }
}

/// `pad` zero bytes.
pub open spec fn zeros(pad: nat) -> Seq<u8> {
    Seq::new(pad, |i: int| 0u8)
}

/// The first `n` rows taken from `src` in the order `source_row` gives:
/// `take` bytes of each, rows `stride` bytes apart, each followed by `pad`
/// zero bytes.
pub open spec fn gathered_rows(
    src: Seq<u8>,
    stride: int,
    take: int,
    pad: nat,
    height: int,
    bottom_up: bool,
    n: nat,
) -> Seq<u8>
    decreases n,
{
    if n == 0 {
        Seq::empty()
    } else {
        let r = source_row(height, bottom_up, n - 1);
        gathered_rows(src, stride, take, pad, height, bottom_up, (n - 1) as nat) + src.subrange(
            r * stride,
            r * stride + take,
        ) + zeros(pad)
    }
}

/// Appends the rows of `src` in the order `source_row` gives, `take` bytes
/// of each and `pad` zero bytes after each.
pub fn gather_rows(
    out: &mut Vec<u8>,
    src: &[u8],
    stride: usize,
    take: usize,
    pad: usize,
    height: usize,
    bottom_up: bool,
)
    requires
        take <= stride,
        height * stride <= src@.len(),
    ensures
        final(out)@ == old(out)@ + gathered_rows(
            src@,
            stride as int,
            take as int,
            pad as nat,
            height as int,
            bottom_up,
            height as nat,
        ),
{
    let ghost start = out@;
    let total = src.len();
    let mut k: usize = 0;
    while k < height
        invariant
            total == src@.len(),
            take <= stride,
            height * stride <= src@.len(),
            k <= height,
            out@ == start + gathered_rows(
                src@,
                stride as int,
                take as int,
                pad as nat,
                height as int,
                bottom_up,
                k as nat,
            ),
        decreases height - k,
    {
        let r = if bottom_up {
            height - 1 - k
        } else {
            k
        };
        assert(r * stride + stride <= height * stride) by (nonlinear_arith)
            requires
                r < height,
                stride >= 0,
        ;
        let row_start = r * stride;
        append_bytes(out, &src[row_start..row_start + take]);
        let ghost with_row = out@;
        let mut z: usize = 0;
        while z < pad
            invariant
                z <= pad,
                out@ == with_row + zeros(z as nat),
            decreases pad - z,
        {
            out.push(0);
            z = z + 1;
            assert(out@ =~= with_row + zeros(z as nat));
        }
        k = k + 1;
        assert(out@ =~= start + gathered_rows(
            src@,
            stride as int,
            take as int,
            pad as nat,
            height as int,
            bottom_up,
            k as nat,
        ));
    }
}

/// The length of gathered rows.
pub proof fn lemma_gathered_len(
    src: Seq<u8>,
    stride: int,
    take: int,
    pad: nat,
    height: int,
    bottom_up: bool,
    n: nat,
)
    requires
        0 <= take <= stride,
        n <= height,
        height * stride <= src.len(),
    ensures
        gathered_rows(src, stride, take, pad, height, bottom_up, n).len() == n * (take + pad),
    decreases n,
{
    if n > 0 {
        lemma_gathered_len(src, stride, take, pad, height, bottom_up, (n - 1) as nat);
        let r = source_row(height, bottom_up, n - 1);
        assert(r * stride + stride <= height * stride) by (nonlinear_arith)
            requires
                0 <= r < height,
                0 <= stride,
        ;
        assert(0 <= r * stride) by (nonlinear_arith)
            requires
                0 <= r, 0 <= stride,
        ;
        assert((n - 1) * (take + pad) + (take + pad) == n * (take + pad)) by (nonlinear_arith);
        assert(src.subrange(r * stride, r * stride + take).len() == take);
        assert(zeros(pad).len() == pad);
        assert(gathered_rows(src, stride, take, pad, height, bottom_up, n).len() == gathered_rows(
            src,
            stride,
            take,
            pad,
            height,
            bottom_up,
            (n - 1) as nat,
        ).len() + take + pad);
    } else {
        assert(0 * (take + pad) == 0) by (nonlinear_arith);
    }
}

// ---------------------------------------------------------------------------
// Conversion to the generic image.
// ---------------------------------------------------------------------------

/// Every pixel's three bytes reversed: blue-green-red becomes red-green-blue
/// and back.
pub open spec fn bgr_swap(s: Seq<u8>) -> Seq<u8> {
    Seq::new(s.len(), |i: int| s[i - i % 3 + 2 - i % 3])
}

/// Reverses the three bytes of every pixel.
pub fn swap_bgr(s: &[u8]) -> (out: Vec<u8>)
    requires
        s@.len() % 3 == 0,
    ensures
        out@ == bgr_swap(s@),
{
    let mut out: Vec<u8> = Vec::new();
    let mut i: usize = 0;
    while i < s.len()
        invariant
            s@.len() % 3 == 0,
            i % 3 == 0,
            i <= s@.len(),
            out@.len() == i,
            forall|k: int| 0 <= k < i ==> out@[k] == bgr_swap(s@)[k],
        decreases s@.len() - i,
    {
        out.push(s[i + 2]);
        out.push(s[i + 1]);
        out.push(s[i]);
        i = i + 3;
    }
    assert(out@ =~= bgr_swap(s@));
    out
}

/// The palette index of pixel `x` in a packed row of 1, 4 or 8 bits per pixel.
pub open spec fn index_at(row: Seq<u8>, x: int, bits_per_pixel: u16) -> u8 {
    if bits_per_pixel == 1 {
        (row[x / 8] >> ((7 - x % 8) as u8)) & 1u8
    } else if bits_per_pixel == 4 {
        if x % 2 == 0 {
            row[x / 2] >> 4u8
        } else {
            row[x / 2] & 0x0fu8
        }
    } else {
        row[x]
    }
}

/// The palette indexes of the first `width` pixels of a packed row.
pub open spec fn row_indices(row: Seq<u8>, width: int, bits_per_pixel: u16) -> Seq<u8> {
    Seq::new(width as nat, |x: int| index_at(row, x, bits_per_pixel))
}

/// The palette indexes of the first `n` image rows of an indexed pixel array.
pub open spec fn index_rows(
    arr: Seq<u8>,
    row_size: int,
    width: int,
    bits_per_pixel: u16,
    height: int,
    bottom_up: bool,
    n: nat,
) -> Seq<u8>
    decreases n,
{
    if n == 0 {
        Seq::empty()
    } else {
        let r = source_row(height, bottom_up, n - 1);
        index_rows(arr, row_size, width, bits_per_pixel, height, bottom_up, (n - 1) as nat) + row_indices(
            arr.subrange(r * row_size, r * row_size + row_size),
            width,
            bits_per_pixel,
        )
    }
}

/// Reads the palette index of pixel `x` of a packed row.
pub fn indexed_pixel(row: &[u8], x: usize, bits_per_pixel: u16) -> (r: u8)
    requires
        bits_per_pixel == 1 || bits_per_pixel == 4 || bits_per_pixel == 8,
        x * bits_per_pixel < row@.len() * 8,
    ensures
        r == index_at(row@, x as int, bits_per_pixel),
{
    if bits_per_pixel == BITS_PER_PIXEL_INDEXED1 {
        let byte = row[x / 8];
        (byte >> ((7 - x % 8) as u8)) & 0x01
    } else if bits_per_pixel == BITS_PER_PIXEL_INDEXED4 {
        let byte = row[x / 2];
        if x % 2 == 0 {
            byte >> 4
        } else {
            byte & 0x0f
        }
    } else {
        row[x]
    }
}

/// Appends the palette indexes of the first `width` pixels of a packed row.
fn append_row_indices(out: &mut Vec<u8>, row: &[u8], width: usize, bits_per_pixel: u16)
    requires
        bits_per_pixel == 1 || bits_per_pixel == 4 || bits_per_pixel == 8,
        width * bits_per_pixel <= row@.len() * 8,
    ensures
        final(out)@ == old(out)@ + row_indices(row@, width as int, bits_per_pixel),
{
    let ghost start = out@;
    let mut x: usize = 0;
    while x < width
        invariant
            bits_per_pixel == 1 || bits_per_pixel == 4 || bits_per_pixel == 8,
            width * bits_per_pixel <= row@.len() * 8,
            x <= width,
            out@ == start + row_indices(row@, width as int, bits_per_pixel).take(x as int),
        decreases width - x,
    {
        assert(x * bits_per_pixel < width * bits_per_pixel) by (nonlinear_arith)
            requires
                x < width, bits_per_pixel > 0,
        ;
        let index = indexed_pixel(row, x, bits_per_pixel);
        out.push(index);
        x = x + 1;
        assert(out@ =~= start + row_indices(row@, width as int, bits_per_pixel).take(x as int));
    }
    assert(row_indices(row@, width as int, bits_per_pixel).take(width as int) =~= row_indices(
        row@,
        width as int,
        bits_per_pixel,
    ));
}

/// The red, green and blue bytes of the palette entries that indexes name.
pub open spec fn palette_colors(table: Seq<BmpColorTableEntry>, idx: Seq<u8>) -> Seq<u8> {
    Seq::new(
        3 * idx.len(),
        |i: int|
            {
                let e = table[idx[i / 3] as int];
                if i % 3 == 0 {
                    e.red
                } else if i % 3 == 1 {
                    e.green
                } else {
                    e.blue
                }
            },
    )
}

/// Whether every index names an entry of the table.
pub open spec fn indexes_in_table(table: Seq<BmpColorTableEntry>, idx: Seq<u8>) -> bool {
    forall|i: int| 0 <= i < idx.len() ==> (idx[i] as int) < table.len()
}

/// The refusal of an index past the end of the color table.
pub open spec fn index_error() -> ImageError {
    ImageError::InvalidData { reason: "BMP color index out of range" }
}

/// Looks up the color of every index.
pub fn lookup_palette_colors(table: &[BmpColorTableEntry], idx: &[u8]) -> (res: Result<Vec<u8>, ImageError>)
    ensures
        match res {
            Ok(v) => indexes_in_table(table@, idx@) && v@ == palette_colors(table@, idx@),
            Err(e) => !indexes_in_table(table@, idx@) && e == index_error(),
        },
{
    let mut out: Vec<u8> = Vec::new();
    let mut i: usize = 0;
    while i < idx.len()
        invariant
            i <= idx@.len(),
            out@.len() == 3 * i,
            forall|k: int| 0 <= k < i ==> (idx@[k] as int) < table@.len(),
            forall|k: int| 0 <= k < 3 * i ==> out@[k] == palette_colors(table@, idx@)[k],
        decreases idx@.len() - i,
    {
        let index = idx[i] as usize;
        if index >= table.len() {
            return Err(ImageError::InvalidData { reason: "BMP color index out of range" });
        }
        let entry = table[index];
        out.push(entry.red);
        out.push(entry.green);
        out.push(entry.blue);
        i = i + 1;
    }
    assert(out@ =~= palette_colors(table@, idx@));
    Ok(out)
}

/// What converting a native image gives.
pub open spec fn to_image_spec(m: BmpModel) -> Result<ImageModel, ImageError> {
    let ih = info_of(m.dib_header);
    let w = ih.width as u32;
    let h = abs_height(ih.height);
    let bottom_up = ih.height > 0;
    match info_header_check(ih) {
        Some(e) => Err(e),
        None => match pixels_check(m) {
            Some(e) => Err(e),
            None => match row_size_spec(w, ih.bits_per_pixel) {
                Err(e) => Err(e),
                Ok(rs) => if ih.bits_per_pixel == 24 {
                    new_image_spec(
                        w,
                        h,
                        PixelFormat::Rgb8,
                        bgr_swap(gathered_rows(m.pixel_array, rs, 3 * w, 0, h as int, bottom_up, h as nat)),
                    )
                } else if w * h * 3 > usize::MAX {
                    Err(too_large_rgb(w, h))
                } else {
                    let idx = index_rows(m.pixel_array, rs, w as int, ih.bits_per_pixel, h as int, bottom_up, h as nat);
                    if !indexes_in_table(m.color_table, idx) {
                        Err(index_error())
                    } else {
                        new_image_spec(w, h, PixelFormat::Rgb8, palette_colors(m.color_table, idx))
                    }
                },
            },
        },
    }
}

/// Appends the palette indexes of every image row of an indexed pixel array.
fn append_index_rows(
    out: &mut Vec<u8>,
    arr: &[u8],
    row_size: usize,
    width: usize,
    bits_per_pixel: u16,
    height: usize,
    bottom_up: bool,
)
    requires
        bits_per_pixel == 1 || bits_per_pixel == 4 || bits_per_pixel == 8,
        width * bits_per_pixel <= row_size * 8,
        height * row_size <= arr@.len(),
    ensures
        final(out)@ == old(out)@ + index_rows(
            arr@,
            row_size as int,
            width as int,
            bits_per_pixel,
            height as int,
            bottom_up,
            height as nat,
        ),
{
    let ghost start = out@;
    let total = arr.len();
    let mut k: usize = 0;
    while k < height
        invariant
            total == arr@.len(),
            bits_per_pixel == 1 || bits_per_pixel == 4 || bits_per_pixel == 8,
            width * bits_per_pixel <= row_size * 8,
            height * row_size <= arr@.len(),
            k <= height,
            out@ == start + index_rows(
                arr@,
                row_size as int,
                width as int,
                bits_per_pixel,
                height as int,
                bottom_up,
                k as nat,
            ),
        decreases height - k,
    {
        let r = if bottom_up {
            height - 1 - k
        } else {
            k
        };
        assert(r * row_size + row_size <= height * row_size) by (nonlinear_arith)
            requires
                r < height,
                row_size >= 0,
        ;
        let row_start = r * row_size;
        let row = &arr[row_start..row_start + row_size];
        append_row_indices(out, row, width, bits_per_pixel);
        k = k + 1;
        assert(out@ =~= start + index_rows(
            arr@,
            row_size as int,
            width as int,
            bits_per_pixel,
            height as int,
            bottom_up,
            k as nat,
        ));
    }
}

impl BmpImage {
    /// Converts this native BMP image into the generic normalized image buffer.
    pub fn to_image(&self) -> (res: Result<Image, ImageError>)
        ensures
            image_result(res) == to_image_spec(self@),
    {
        let info_header = match &self.dib_header {
            BmpDibHeader::BitmapInfoHeader(h) => h,
        };
        validate_supported_info_header(info_header)?;
        validate_bmp_image_pixels(self)?;
        let width = info_header.width as u32;
        let height = unsigned_abs(info_header.height);
        let bottom_up = info_header.height > 0;
        let bpp = info_header.bits_per_pixel;
        let row_size = bmp_row_size(width, bpp)?;
        proof {
            lemma_row_size_covers(width, bpp);
            let size = row_size * height;
            assert(self.pixel_array@.len() == size);
            assert(height * row_size == size) by (nonlinear_arith)
                requires
                    size == row_size * height,
            ;
        }
        if bpp == BITS_PER_PIXEL_RGB24 {
            assert(row_size * 8 >= width * 24);
            assert(3 * width <= row_size);
            let mut rows: Vec<u8> = Vec::new();
            gather_rows(&mut rows, self.pixel_array.as_slice(), row_size, 3 * width as usize, 0, height as usize, bottom_up);
            proof {
                lemma_gathered_len(
                    self.pixel_array@,
                    row_size as int,
                    3 * width,
                    0,
                    height as int,
                    bottom_up,
                    height as nat,
                );
                assert(rows@.len() == height * (3 * width)) by (nonlinear_arith)
                    requires
                        rows@.len() == height * (3 * width + 0),
                ;
                vstd::arithmetic::div_mod::lemma_mod_multiples_basic(height * width, 3);
                assert(height * (3 * width) == (height * width) * 3) by (nonlinear_arith);
            }
            Image::new(width, height, PixelFormat::Rgb8, swap_bgr(rows.as_slice()))
        } else {
            let pixels = match (width as usize).checked_mul(height as usize) {
                Some(p) => p,
                None => return Err(too_large_rgb_exec(width, height)),
            };
            if pixels.checked_mul(3).is_none() {
                return Err(too_large_rgb_exec(width, height));
            }
            let mut idx: Vec<u8> = Vec::new();
            append_index_rows(
                &mut idx,
                self.pixel_array.as_slice(),
                row_size,
                width as usize,
                bpp,
                height as usize,
                bottom_up,
            );
            let colors = lookup_palette_colors(self.color_table.as_slice(), idx.as_slice())?;
            Image::new(width, height, PixelFormat::Rgb8, colors)
        }
    }
}


// ---------------------------------------------------------------------------
// The file layout of a native image.
// ---------------------------------------------------------------------------

/// Whether some color table entry has a nonzero reserved byte.
pub open spec fn any_reserved(t: Seq<BmpColorTableEntry>) -> bool {
    exists|i: int| 0 <= i < t.len() && t[i].reserved != 0
}

/// Finds whether some color table entry has a nonzero reserved byte.
pub fn has_reserved(t: &[BmpColorTableEntry]) -> (r: bool)
    ensures
        r == any_reserved(t@),
{
    let mut i: usize = 0;
    while i < t.len()
        invariant
            i <= t@.len(),
            forall|k: int| 0 <= k < i ==> t@[k].reserved == 0,
        decreases t@.len() - i,
    {
        if t[i].reserved != 0 {
            return true;
        }
        i = i + 1;
    }
    false
}

/// The check that a native image describes a consistent BMP file: offsets
/// and sizes that agree with the table and the pixels.
pub open spec fn layout_check(m: BmpModel) -> Option<ImageError> {
    let ih = info_of(m.dib_header);
    let fh = m.file_header;
    let w = ih.width as u32;
    let h = abs_height(ih.height);
    match pixels_check(m) {
        Some(e) => Some(e),
        None => match pixel_array_len_spec(w, h, ih.bits_per_pixel) {
            Err(e) => Some(e),
            Ok(size) => if size > u32::MAX || fh.pixel_offset + size > u32::MAX {
                Some(too_large_rgb(w, h))
            } else if fh.pixel_offset != 54 + 4 * m.color_table.len() {
                Some(pixel_offset_error())
            } else if fh.file_size != fh.pixel_offset + size {
                Some(ImageError::InvalidHeader { reason: "invalid BMP file size" })
            } else if ih.image_size != 0 && ih.image_size != size {
                Some(ImageError::InvalidHeader { reason: "invalid BMP image size" })
            } else if any_reserved(m.color_table) {
                Some(ImageError::InvalidHeader { reason: "invalid BMP color table reserved value" })
            } else {
                None
            },
        },
    }
}

impl BmpImage {
    /// Validates whether the native fields describe a consistent BMP file layout.
    pub fn validate_file_layout(&self) -> (res: Result<(), ImageError>)
        ensures
            match layout_check(self@) {
                Some(e) => res == Err::<(), _>(e),
                None => res is Ok,
            },
    {
        validate_bmp_image_pixels(self)?;
        let info_header = match &self.dib_header {
            BmpDibHeader::BitmapInfoHeader(h) => h,
        };
        let width = info_header.width as u32;
        let height = unsigned_abs(info_header.height);
        let image_size = bmp_pixel_array_len(width, height, info_header.bits_per_pixel)?;
        if image_size > 0xffff_ffff {
            return Err(too_large_rgb_exec(width, height));
        }
        let image_size_u32 = image_size as u32;
        let expected_file_size = match self.file_header.pixel_offset.checked_add(image_size_u32) {
            Some(n) => n,
            None => return Err(too_large_rgb_exec(width, height)),
        };
        let expected_pixel_offset = expected_min_pixel_offset_for_color_table(self.color_table.len())?;
        if self.file_header.pixel_offset != expected_pixel_offset {
            return Err(ImageError::InvalidHeader { reason: "invalid pixel data offset" });
        }
        if self.file_header.file_size != expected_file_size {
            return Err(ImageError::InvalidHeader { reason: "invalid BMP file size" });
        }
        if info_header.image_size != 0 && info_header.image_size != image_size_u32 {
            return Err(ImageError::InvalidHeader { reason: "invalid BMP image size" });
        }
        if has_reserved(self.color_table.as_slice()) {
            return Err(ImageError::InvalidHeader { reason: "invalid BMP color table reserved value" });
        }
        Ok(())
    }
}

// ---------------------------------------------------------------------------
// Writing a native image.
// ---------------------------------------------------------------------------

/// The four bytes of a color table entry: blue, green, red, reserved.
pub open spec fn entry_bytes(e: BmpColorTableEntry) -> Seq<u8> {
    seq![e.blue, e.green, e.red, e.reserved]
}

/// The bytes of a color table.
pub open spec fn table_bytes(t: Seq<BmpColorTableEntry>) -> Seq<u8>
    decreases t.len(),
{
    if t.len() == 0 {
        Seq::empty()
    } else {
        table_bytes(t.drop_last()) + entry_bytes(t.last())
    }
}

/// The bytes of the file header and the info header.
pub open spec fn header_bytes(fh: BmpFileHeader, ih: BmpInfoHeader) -> Seq<u8> {
    seq![0x42u8, 0x4du8] + le32_bytes(fh.file_size) + le16_bytes(fh.reserved1) + le16_bytes(fh.reserved2)
        + le32_bytes(fh.pixel_offset) + le32_bytes(40) + le32_bytes(u32_of(ih.width)) + le32_bytes(
        u32_of(ih.height),
    ) + le16_bytes(ih.planes) + le16_bytes(ih.bits_per_pixel) + le32_bytes(ih.compression) + le32_bytes(
        ih.image_size,
    ) + le32_bytes(u32_of(ih.x_pixels_per_meter)) + le32_bytes(u32_of(ih.y_pixels_per_meter)) + le32_bytes(
        ih.colors_used,
    ) + le32_bytes(ih.important_colors)
}

/// The bytes of a BMP file for a native image, its fields written as they are.
pub open spec fn bmp_file_bytes(m: BmpModel) -> Seq<u8> {
    header_bytes(m.file_header, info_of(m.dib_header)) + table_bytes(m.color_table) + m.pixel_array
}

/// What writing a native image gives.
pub open spec fn encode_native_spec(m: BmpModel) -> Result<Seq<u8>, ImageError> {
    match pixels_check(m) {
        Some(e) => Err(e),
        None => Ok(bmp_file_bytes(m)),
    }
}

fn put_u16(writer: &mut Vec<u8>, value: u16)
    ensures
        final(writer)@ == old(writer)@ + le16_bytes(value),
{
    let _ = write_u16_le(writer, value);
}

fn put_u32(writer: &mut Vec<u8>, value: u32)
    ensures
        final(writer)@ == old(writer)@ + le32_bytes(value),
{
    let _ = write_u32_le(writer, value);
}

fn put_i32(writer: &mut Vec<u8>, value: i32)
    ensures
        final(writer)@ == old(writer)@ + le32_bytes(u32_of(value)),
{
    let _ = write_u32_le(writer, bits_of_i32(value));
}

/// Writes the file header and the info header.
fn write_headers(writer: &mut Vec<u8>, fh: &BmpFileHeader, ih: &BmpInfoHeader)
    ensures
        final(writer)@ == old(writer)@ + header_bytes(*fh, *ih),
{
    writer.push(0x42);
    writer.push(0x4d);
    put_u32(writer, fh.file_size);
    put_u16(writer, fh.reserved1);
    put_u16(writer, fh.reserved2);
    put_u32(writer, fh.pixel_offset);
    put_u32(writer, INFO_HEADER_SIZE);
    put_i32(writer, ih.width);
    put_i32(writer, ih.height);
    put_u16(writer, ih.planes);
    put_u16(writer, ih.bits_per_pixel);
    put_u32(writer, ih.compression);
    put_u32(writer, ih.image_size);
    put_i32(writer, ih.x_pixels_per_meter);
    put_i32(writer, ih.y_pixels_per_meter);
    put_u32(writer, ih.colors_used);
    put_u32(writer, ih.important_colors);
    assert(writer@ =~= old(writer)@ + header_bytes(*fh, *ih));
}

/// Writes the entries of a color table.
fn write_color_table(writer: &mut Vec<u8>, table: &[BmpColorTableEntry])
    ensures
        final(writer)@ == old(writer)@ + table_bytes(table@),
{
    let ghost start = writer@;
    let mut i: usize = 0;
    assert(table@.take(0) =~= Seq::<BmpColorTableEntry>::empty());
    assert(writer@ =~= start + table_bytes(table@.take(0)));
    while i < table.len()
        invariant
            i <= table@.len(),
            writer@ == start + table_bytes(table@.take(i as int)),
        decreases table@.len() - i,
    {
        let e = table[i];
        writer.push(e.blue);
        writer.push(e.green);
        writer.push(e.red);
        writer.push(e.reserved);
        assert(table@.take(i + 1).drop_last() =~= table@.take(i as int));
        i = i + 1;
        assert(writer@ =~= start + table_bytes(table@.take(i as int)));
    }
    assert(table@.take(table@.len() as int) =~= table@);
}

/// Encodes a native BMP image.
pub fn encode_native(writer: &mut Vec<u8>, image: &BmpImage) -> (res: Result<(), ImageError>)
    ensures
        writes(res, old(writer)@, final(writer)@, encode_native_spec(image@)),
{
    validate_bmp_image_pixels(image)?;
    let info_header = match &image.dib_header {
        BmpDibHeader::BitmapInfoHeader(h) => h,
    };
    write_headers(writer, &image.file_header, info_header);
    write_color_table(writer, image.color_table.as_slice());
    append_bytes(writer, image.pixel_array.as_slice());
    assert(writer@ =~= old(writer)@ + bmp_file_bytes(image@));
    Ok(())
}

// ---------------------------------------------------------------------------
// Converting an image view.
// ---------------------------------------------------------------------------

/// Whether rows are written bottom-up.
pub open spec fn is_bottom_up(o: BmpOrientation) -> bool {
    o == BmpOrientation::BottomUp
}

/// The signed height written for an orientation.
pub open spec fn signed_height(h: u32, o: BmpOrientation) -> i32 {
    if is_bottom_up(o) {
        h as i32
    } else {
        (-(h as int)) as i32
    }
}

/// The info header written for a converted view.
pub open spec fn encoded_info(
    w: u32,
    h: u32,
    o: EncodeOptionsModel,
    bits_per_pixel: u16,
    image_size: int,
    colors_used: int,
) -> BmpInfoHeader {
    BmpInfoHeader {
        width: w as i32,
        height: signed_height(h, o.orientation),
        planes: 1,
        bits_per_pixel,
        compression: 0,
        image_size: image_size as u32,
        x_pixels_per_meter: o.x_pixels_per_meter,
        y_pixels_per_meter: o.y_pixels_per_meter,
        colors_used: colors_used as u32,
        important_colors: 0,
    }
}

/// The native image of a view written as 24-bit BGR rows.
pub open spec fn rgb24_native_spec(v: ImageView<'_>, o: EncodeOptionsModel) -> Result<BmpModel, ImageError> {
    let w = v.width;
    let h = v.height;
    match view_check(v, PixelFormat::Rgb8) {
        Some(e) => Err(e),
        None => if w > i32::MAX || h > i32::MAX {
            Err(too_large_rgb(w, h))
        } else {
            match row_size_spec(w, 24) {
                Err(e) => Err(e),
                Ok(rs) => match pixel_array_len_spec(w, h, 24) {
                    Err(e) => Err(e),
                    Ok(size) => if size > u32::MAX || 54 + size > u32::MAX {
                        Err(too_large_rgb(w, h))
                    } else {
                        Ok(
                            BmpModel {
                                file_header: BmpFileHeader {
                                    file_size: (54 + size) as u32,
                                    reserved1: 0,
                                    reserved2: 0,
                                    pixel_offset: 54,
                                },
                                dib_header: BmpDibHeader::BitmapInfoHeader(encoded_info(w, h, o, 24, size, 0)),
                                color_masks: Seq::empty(),
                                color_table: Seq::empty(),
                                pixel_array: gathered_rows(
                                    bgr_swap(v.pixels()),
                                    3 * w,
                                    3 * w,
                                    (rs - 3 * w) as nat,
                                    h as int,
                                    is_bottom_up(o.orientation),
                                    h as nat,
                                ),
                            },
                        )
                    },
                },
            }
        },
    }
}

/// The refusal of a dimension too large for a signed BMP field.
fn bmp_i32_dimension(value: u32, width: u32, height: u32) -> (res: Result<i32, ImageError>)
    ensures
        if value > i32::MAX {
            res == Err::<i32, _>(too_large_rgb(width, height))
        } else {
            res == Ok::<i32, ImageError>(value as i32)
        },
{
    if value > 0x7fff_ffff {
        return Err(too_large_rgb_exec(width, height));
    }
    Ok(value as i32)
}

/// The signed height written for an orientation.
fn orient_height(height: i32, orientation: BmpOrientation) -> (r: i32)
    requires
        height >= 0,
    ensures
        r == signed_height(height as u32, orientation),
{
    match orientation {
        BmpOrientation::BottomUp => height,
        BmpOrientation::TopDown => -height,
    }
}

/// Converts a view into a native image of 24-bit BGR rows.
fn image_view_to_rgb24_bmp_native(image: ImageView<'_>, options: &BmpEncodeOptions) -> (res: Result<
    BmpImage,
    ImageError,
>)
    ensures
        bmp_result(res) == rgb24_native_spec(image, options@),
{
    let view = validate_image_view(image, PixelFormat::Rgb8)?;
    let width_i32 = bmp_i32_dimension(view.width, view.width, view.height)?;
    let height_i32 = bmp_i32_dimension(view.height, view.width, view.height)?;
    let row_size = bmp_row_size(view.width, BITS_PER_PIXEL_RGB24)?;
    let image_size = bmp_pixel_array_len(view.width, view.height, BITS_PER_PIXEL_RGB24)?;
    if image_size > 0xffff_ffff || image_size > 0xffff_ffff - 54 {
        return Err(too_large_rgb_exec(view.width, view.height));
    }
    let image_size_u32 = image_size as u32;
    let file_size = PIXEL_OFFSET + image_size_u32;
    proof {
        lemma_row_size_covers(view.width, BITS_PER_PIXEL_RGB24);
        lemma_pixels_len(view);
    }
    let row_len = 3 * view.width as usize;
    let padding_len = row_size - row_len;
    let px = packed_image_data(view);
    proof {
        vstd::arithmetic::div_mod::lemma_mod_multiples_basic(view.height * view.width, 3);
        assert(view.height * (3 * view.width) == (view.height * view.width) * 3) by (nonlinear_arith);
    }
    let bgr = swap_bgr(px.as_slice());
    let mut pixel_array: Vec<u8> = Vec::new();
    gather_rows(
        &mut pixel_array,
        bgr.as_slice(),
        row_len,
        row_len,
        padding_len,
        view.height as usize,
        options.orientation == BmpOrientation::BottomUp,
    );
    Ok(BmpImage {
        file_header: BmpFileHeader { file_size, reserved1: 0, reserved2: 0, pixel_offset: PIXEL_OFFSET },
        dib_header: BmpDibHeader::BitmapInfoHeader(BmpInfoHeader {
            width: width_i32,
            height: orient_height(height_i32, options.orientation),
            planes: PLANES,
            bits_per_pixel: BITS_PER_PIXEL_RGB24,
            compression: COMPRESSION_BI_RGB,
            image_size: image_size_u32,
            x_pixels_per_meter: options.x_pixels_per_meter,
            y_pixels_per_meter: options.y_pixels_per_meter,
            colors_used: 0,
            important_colors: 0,
        }),
        color_masks: Vec::new(),
        color_table: Vec::new(),
        pixel_array,
    })
}


/// Whether a color table entry holds a color.
pub open spec fn entry_matches(e: BmpColorTableEntry, r: u8, g: u8, b: u8) -> bool {
    e.red == r && e.green == g && e.blue == b
}

/// The first entry at or after `from` that holds a color.
pub open spec fn find_color(t: Seq<BmpColorTableEntry>, r: u8, g: u8, b: u8, from: nat) -> Option<nat>
    decreases t.len() - from,
{
    if from >= t.len() {
        None
    } else if entry_matches(t[from as int], r, g, b) {
        Some(from)
    } else {
        find_color(t, r, g, b, from + 1)
    }
}

/// A found entry holds the color and stands in the table.
pub proof fn lemma_find_color(t: Seq<BmpColorTableEntry>, r: u8, g: u8, b: u8, from: nat)
    ensures
        match find_color(t, r, g, b, from) {
            Some(i) => from <= i < t.len() && entry_matches(t[i as int], r, g, b),
            None => forall|k: int| from <= k < t.len() ==> !entry_matches(#[trigger] t[k], r, g, b),
        },
    decreases t.len() - from,
{
    if from < t.len() && !entry_matches(t[from as int], r, g, b) {
        lemma_find_color(t, r, g, b, from + 1);
    }
}

/// The hash key of a color: its three bytes as one 24-bit number.
pub open spec fn color_key(r: u8, g: u8, b: u8) -> u32 {
    (r * 65536 + g * 256 + b) as u32
}

/// The hash key of a color.
pub fn color_key_exec(r: u8, g: u8, b: u8) -> (k: u32)
    ensures
        k == color_key(r, g, b),
{
    (r as u32) * 65536 + (g as u32) * 256 + (b as u32)
}

/// Different colors have different keys.
pub proof fn lemma_color_key_injective(r: u8, g: u8, b: u8, r2: u8, g2: u8, b2: u8)
    requires
        color_key(r, g, b) == color_key(r2, g2, b2),
    ensures
        r == r2 && g == g2 && b == b2,
{
    assert(r * 65536 + g * 256 + b == r2 * 65536 + g2 * 256 + b2);
}

/// The index of the first entry of each color of a table, by color key.
pub open spec fn index_map(t: Seq<BmpColorTableEntry>) -> Map<u32, u8>
    decreases t.len(),
{
    if t.len() == 0 {
        Map::empty()
    } else {
        let p = index_map(t.drop_last());
        let e = t.last();
        let k = color_key(e.red, e.green, e.blue);
        if p.contains_key(k) {
            p
        } else {
            p.insert(k, (t.len() - 1) as u8)
        }
    }
}

/// Searching a table with one more entry finds what the shorter table
/// holds, else the new entry when it holds the color.
pub proof fn lemma_find_color_push(
    s: Seq<BmpColorTableEntry>,
    e: BmpColorTableEntry,
    r: u8,
    g: u8,
    b: u8,
    from: nat,
)
    requires
        from <= s.len(),
    ensures
        find_color(s.push(e), r, g, b, from) == match find_color(s, r, g, b, from) {
            Some(i) => Some(i),
            None => if entry_matches(e, r, g, b) {
                Some(s.len())
            } else {
                None::<nat>
            },
        },
    decreases s.len() - from,
{
    if from < s.len() {
        assert(s.push(e)[from as int] == s[from as int]);
        lemma_find_color_push(s, e, r, g, b, from + 1);
    } else {
        assert(s.push(e)[from as int] == e);
        assert(find_color(s.push(e), r, g, b, from + 1) is None);
    }
}

/// A color's key is in the index map of a table of at most 256 entries
/// exactly when the table holds the color, and it maps to the first entry
/// that does.
pub proof fn lemma_index_map(t: Seq<BmpColorTableEntry>, r: u8, g: u8, b: u8)
    requires
        t.len() <= 256,
    ensures
        index_map(t).contains_key(color_key(r, g, b)) == find_color(t, r, g, b, 0) is Some,
        find_color(t, r, g, b, 0) is Some ==> index_map(t)[color_key(r, g, b)] == find_color(
            t,
            r,
            g,
            b,
            0,
        )->Some_0 as u8,
    decreases t.len(),
{
    if t.len() > 0 {
        let p = t.drop_last();
        let e = t.last();
        assert(p.push(e) =~= t);
        lemma_index_map(p, r, g, b);
        lemma_index_map(p, e.red, e.green, e.blue);
        lemma_find_color_push(p, e, r, g, b, 0);
        lemma_find_color_push(p, e, e.red, e.green, e.blue, 0);
        let k = color_key(r, g, b);
        let ke = color_key(e.red, e.green, e.blue);
        if k == ke {
            lemma_color_key_injective(r, g, b, e.red, e.green, e.blue);
        }
        lemma_find_color(p, r, g, b, 0);
    }
}

/// The index map of a table of at most 256 entries: the first index of
/// each color, as an entry API with `or_insert` keeps it.
fn palette_index_map(t: &[BmpColorTableEntry]) -> (m: HashMap<u32, u8>)
    requires
        t@.len() <= 256,
    ensures
        m@ == index_map(t@),
{
    broadcast use vstd::std_specs::hash::group_hash_axioms;

    let mut m: HashMap<u32, u8> = HashMap::with_capacity(t.len());
    let mut i: usize = 0;
    assert(t@.take(0) =~= Seq::<BmpColorTableEntry>::empty());
    while i < t.len()
        invariant
            i <= t@.len(),
            t@.len() <= 256,
            m@ == index_map(t@.take(i as int)),
        decreases t@.len() - i,
    {
        let e = t[i];
        let k = color_key_exec(e.red, e.green, e.blue);
        assert(t@.take(i as int + 1).drop_last() =~= t@.take(i as int));
        if !m.contains_key(&k) {
            m.insert(k, i as u8);
        }
        i = i + 1;
    }
    assert(t@.take(t@.len() as int) =~= t@);
    m
}

/// The color of pixel `i` of packed RGB bytes.
pub open spec fn color_at(t: Seq<BmpColorTableEntry>, px: Seq<u8>, i: int) -> Option<nat> {
    find_color(t, px[3 * i], px[3 * i + 1], px[3 * i + 2], 0)
}

/// Whether the table holds the color of every pixel.
pub open spec fn colors_in_table(t: Seq<BmpColorTableEntry>, px: Seq<u8>) -> bool {
    forall|i: int| 0 <= i < px.len() / 3 ==> #[trigger] color_at(t, px, i) is Some
}

/// The table index of every pixel's color.
pub open spec fn palette_index_bytes(t: Seq<BmpColorTableEntry>, px: Seq<u8>) -> Seq<u8> {
    Seq::new(px.len() / 3, |i: int| color_at(t, px, i)->Some_0 as u8)
}

/// The refusal of a pixel whose color the palette lacks.
pub open spec fn palette_error() -> ImageError {
    ImageError::InvalidData { reason: "BMP palette does not contain input color" }
}

/// Replaces every pixel by the index of its color in a table of at most 256 entries.
pub fn palette_indexes(t: &[BmpColorTableEntry], px: &[u8]) -> (res: Result<Vec<u8>, ImageError>)
    requires
        t@.len() <= 256,
    ensures
        match res {
            Ok(v) => colors_in_table(t@, px@) && v@ == palette_index_bytes(t@, px@),
            Err(e) => !colors_in_table(t@, px@) && e == palette_error(),
        },
{
    broadcast use vstd::std_specs::hash::group_hash_axioms;

    let indexes = palette_index_map(t);
    let total = px.len();
    let n = total / 3;
    let mut out: Vec<u8> = Vec::new();
    let mut i: usize = 0;
    while i < n
        invariant
            total == px@.len(),
            t@.len() <= 256,
            indexes@ == index_map(t@),
            n == px@.len() / 3,
            i <= n,
            out@.len() == i,
            forall|k: int| 0 <= k < i ==> #[trigger] color_at(t@, px@, k) is Some,
            forall|k: int| 0 <= k < i ==> out@[k] == palette_index_bytes(t@, px@)[k],
        decreases n - i,
    {
        let key = color_key_exec(px[3 * i], px[3 * i + 1], px[3 * i + 2]);
        proof {
            lemma_index_map(t@, px@[3 * i], px@[3 * i + 1], px@[3 * i + 2]);
        }
        match indexes.get(&key) {
            Some(index) => {
                out.push(*index);
            },
            None => {
                assert(color_at(t@, px@, i as int) is None);
                return Err(ImageError::InvalidData { reason: "BMP palette does not contain input color" });
            },
        }
        i = i + 1;
    }
    assert(out@ =~= palette_index_bytes(t@, px@));
    Ok(out)
}

/// The check of a palette given for encoding.
pub open spec fn encode_table_check(t: Seq<BmpColorTableEntry>) -> Option<ImageError> {
    if t.len() == 0 || t.len() > 256 {
        Some(ImageError::InvalidData { reason: "invalid BMP color table length" })
    } else if any_reserved(t) {
        Some(ImageError::InvalidData { reason: "invalid BMP color table reserved value" })
    } else {
        None
    }
}

/// Checks a palette given for encoding.
pub fn validate_encode_color_table(t: &[BmpColorTableEntry]) -> (res: Result<(), ImageError>)
    ensures
        match encode_table_check(t@) {
            Some(e) => res == Err::<(), _>(e),
            None => res is Ok,
        },
{
    if t.len() == 0 || t.len() > 256 {
        return Err(ImageError::InvalidData { reason: "invalid BMP color table length" });
    }
    if has_reserved(t) {
        return Err(ImageError::InvalidData { reason: "invalid BMP color table reserved value" });
    }
    Ok(())
}

/// The native image of a view written as 8-bit indexes into a palette.
pub open spec fn indexed8_native_spec(v: ImageView<'_>, o: EncodeOptionsModel, t: Seq<BmpColorTableEntry>) -> Result<
    BmpModel,
    ImageError,
> {
    let w = v.width;
    let h = v.height;
    match view_check(v, PixelFormat::Rgb8) {
        Some(e) => Err(e),
        None => match encode_table_check(t) {
            Some(e) => Err(e),
            None => if w > i32::MAX || h > i32::MAX {
                Err(too_large_rgb(w, h))
            } else {
                match row_size_spec(w, 8) {
                    Err(e) => Err(e),
                    Ok(rs) => match pixel_array_len_spec(w, h, 8) {
                        Err(e) => Err(e),
                        Ok(size) => if size > u32::MAX {
                            Err(too_large_rgb(w, h))
                        } else {
                            match min_pixel_offset(t.len() as int) {
                                Err(e) => Err(e),
                                Ok(offset) => if offset + size > u32::MAX {
                                    Err(too_large_rgb(w, h))
                                } else if !colors_in_table(t, v.pixels()) {
                                    Err(palette_error())
                                } else {
                                    Ok(
                                        BmpModel {
                                            file_header: BmpFileHeader {
                                                file_size: (offset + size) as u32,
                                                reserved1: 0,
                                                reserved2: 0,
                                                pixel_offset: offset,
                                            },
                                            dib_header: BmpDibHeader::BitmapInfoHeader(
                                                encoded_info(w, h, o, 8, size, t.len() as int),
                                            ),
                                            color_masks: Seq::empty(),
                                            color_table: t,
                                            pixel_array: gathered_rows(
                                                palette_index_bytes(t, v.pixels()),
                                                w as int,
                                                w as int,
                                                (rs - w) as nat,
                                                h as int,
                                                is_bottom_up(o.orientation),
                                                h as nat,
                                            ),
                                        },
                                    )
                                },
                            }
                        },
                    },
                }
            },
        },
    }
}

/// Converts a view into a native image of 8-bit indexes into a palette.
fn image_view_to_indexed8_bmp_native(
    image: ImageView<'_>,
    options: &BmpEncodeOptions,
    color_table: &[BmpColorTableEntry],
) -> (res: Result<BmpImage, ImageError>)
    ensures
        bmp_result(res) == indexed8_native_spec(image, options@, color_table@),
{
    let view = validate_image_view(image, PixelFormat::Rgb8)?;
    validate_encode_color_table(color_table)?;
    let width_i32 = bmp_i32_dimension(view.width, view.width, view.height)?;
    let height_i32 = bmp_i32_dimension(view.height, view.width, view.height)?;
    let row_size = bmp_row_size(view.width, BITS_PER_PIXEL_INDEXED8)?;
    let image_size = bmp_pixel_array_len(view.width, view.height, BITS_PER_PIXEL_INDEXED8)?;
    if image_size > 0xffff_ffff {
        return Err(too_large_rgb_exec(view.width, view.height));
    }
    let image_size_u32 = image_size as u32;
    let pixel_offset = expected_min_pixel_offset_for_color_table(color_table.len())?;
    let file_size = match pixel_offset.checked_add(image_size_u32) {
        Some(n) => n,
        None => return Err(too_large_rgb_exec(view.width, view.height)),
    };
    proof {
        lemma_row_size_covers(view.width, BITS_PER_PIXEL_INDEXED8);
        lemma_pixels_len(view);
    }
    let padding_len = row_size - view.width as usize;
    let px = packed_image_data(view);
    let indexes = palette_indexes(color_table, px.as_slice())?;
    proof {
        assert(view.height * (3 * view.width) == (view.height * view.width) * 3) by (nonlinear_arith);
        assert(((view.height * view.width) * 3) / 3 == view.height * view.width) by (nonlinear_arith);
        assert(view.height * view.width == view.width * view.height) by (nonlinear_arith);
    }
    let mut pixel_array: Vec<u8> = Vec::new();
    gather_rows(
        &mut pixel_array,
        indexes.as_slice(),
        view.width as usize,
        view.width as usize,
        padding_len,
        view.height as usize,
        options.orientation == BmpOrientation::BottomUp,
    );
    Ok(BmpImage {
        file_header: BmpFileHeader { file_size, reserved1: 0, reserved2: 0, pixel_offset },
        dib_header: BmpDibHeader::BitmapInfoHeader(BmpInfoHeader {
            width: width_i32,
            height: orient_height(height_i32, options.orientation),
            planes: PLANES,
            bits_per_pixel: BITS_PER_PIXEL_INDEXED8,
            compression: COMPRESSION_BI_RGB,
            image_size: image_size_u32,
            x_pixels_per_meter: options.x_pixels_per_meter,
            y_pixels_per_meter: options.y_pixels_per_meter,
            colors_used: color_table.len() as u32,
            important_colors: 0,
        }),
        color_masks: Vec::new(),
        color_table: copy_table(color_table),
        pixel_array,
    })
}

/// A copy of a color table.
fn copy_table(t: &[BmpColorTableEntry]) -> (v: Vec<BmpColorTableEntry>)
    ensures
        v@ == t@,
{
    let mut v: Vec<BmpColorTableEntry> = Vec::new();
    let mut i: usize = 0;
    while i < t.len()
        invariant
            i <= t@.len(),
            v@ == t@.take(i as int),
        decreases t@.len() - i,
    {
        v.push(t[i]);
        i = i + 1;
        assert(v@ =~= t@.take(i as int));
    }
    assert(t@.take(t@.len() as int) =~= t@);
    v
}


/// A palette entry for a color.
pub open spec fn new_entry(r: u8, g: u8, b: u8) -> BmpColorTableEntry {
    BmpColorTableEntry { blue: b, green: g, red: r, reserved: 0 }
}

/// The distinct colors of the first `n` pixels of packed RGB bytes, in the
/// order they first appear.
pub open spec fn distinct_entries(px: Seq<u8>, n: nat) -> Seq<BmpColorTableEntry>
    decreases n,
{
    if n == 0 {
        Seq::empty()
    } else {
        let prev = distinct_entries(px, (n - 1) as nat);
        let i = n - 1;
        if find_color(prev, px[3 * i], px[3 * i + 1], px[3 * i + 2], 0) is Some {
            prev
        } else {
            prev.push(new_entry(px[3 * i], px[3 * i + 1], px[3 * i + 2]))
        }
    }
}

/// More pixels never have fewer distinct colors.
pub proof fn lemma_distinct_entries_grow(px: Seq<u8>, i: nat, n: nat)
    requires
        i <= n,
    ensures
        distinct_entries(px, i).len() <= distinct_entries(px, n).len(),
    decreases n - i,
{
    if i < n {
        lemma_distinct_entries_grow(px, i, (n - 1) as nat);
    }
}

/// The palette of the distinct colors of an image, given up after 257 of them.
fn auto_color_table(px: &[u8], n: usize) -> (t: Vec<BmpColorTableEntry>)
    requires
        px@.len() == 3 * n,
    ensures
        t@.len() <= 256 ==> t@ == distinct_entries(px@, n as nat),
        t@.len() > 256 ==> distinct_entries(px@, n as nat).len() > 256,
{
    broadcast use vstd::std_specs::hash::group_hash_axioms;

    let mut indexes: HashMap<u32, u8> = HashMap::with_capacity(256);
    let mut table: Vec<BmpColorTableEntry> = Vec::new();
    let total = px.len();
    let mut i: usize = 0;
    while i < n
        invariant
            total == px@.len(),
            px@.len() == 3 * n,
            i <= n,
            table@.len() <= 256,
            table@ == distinct_entries(px@, i as nat),
            indexes@ == index_map(table@),
        decreases n - i,
    {
        let r = px[3 * i];
        let g = px[3 * i + 1];
        let b = px[3 * i + 2];
        let key = color_key_exec(r, g, b);
        proof {
            lemma_index_map(table@, r, g, b);
        }
        match indexes.contains_key(&key) {
            true => {},
            false => {
                if table.len() == 256 {
                    table.push(BmpColorTableEntry { blue: b, green: g, red: r, reserved: 0 });
                    proof {
                        assert(table@ == distinct_entries(px@, (i + 1) as nat));
                        lemma_distinct_entries_grow(px@, (i + 1) as nat, n as nat);
                    }
                    return table;
                }
                indexes.insert(key, table.len() as u8);
                let ghost before = table@;
                table.push(BmpColorTableEntry { blue: b, green: g, red: r, reserved: 0 });
                assert(table@.drop_last() =~= before);
            },
        }
        i = i + 1;
    }
    table
}

/// The native image of a view under automatic palette selection: indexes into
/// the image's own colors when there are at most 256 of them, BGR rows otherwise.
pub open spec fn auto_native_spec(v: ImageView<'_>, o: EncodeOptionsModel) -> Result<BmpModel, ImageError> {
    match view_check(v, PixelFormat::Rgb8) {
        Some(e) => Err(e),
        None => {
            let t = distinct_entries(v.pixels(), (v.width * v.height) as nat);
            if t.len() > 256 {
                rgb24_native_spec(v, o)
            } else {
                indexed8_native_spec(v, o, t)
            }
        },
    }
}

/// Automatic palette selection converts a view exactly as an explicit
/// `Indexed8` palette of the view's distinct colors (in the order they first
/// appear, reserved bytes 0) does when there are at most 256 of them, and
/// exactly as `Rgb24` does otherwise; the other options stay as they are.
pub proof fn lemma_auto_encoding(v: ImageView<'_>, o: EncodeOptionsModel)
    ensures
        ({
            let d = distinct_entries(v.pixels(), (v.width * v.height) as nat);
            view_to_bmp_spec(v, EncodeOptionsModel { pixel_encoding: PixelEncodingModel::AutoIndexed8OrRgb24, ..o })
                == if d.len() <= 256 {
                view_to_bmp_spec(
                    v,
                    EncodeOptionsModel { pixel_encoding: PixelEncodingModel::Indexed8 { color_table: d }, ..o },
                )
            } else {
                view_to_bmp_spec(v, EncodeOptionsModel { pixel_encoding: PixelEncodingModel::Rgb24, ..o })
            }
        }),
{
    let d = distinct_entries(v.pixels(), (v.width * v.height) as nat);
    let auto = EncodeOptionsModel { pixel_encoding: PixelEncodingModel::AutoIndexed8OrRgb24, ..o };
    let indexed = EncodeOptionsModel { pixel_encoding: PixelEncodingModel::Indexed8 { color_table: d }, ..o };
    let rgb = EncodeOptionsModel { pixel_encoding: PixelEncodingModel::Rgb24, ..o };
    assert(rgb24_native_spec(v, auto) == rgb24_native_spec(v, rgb));
    assert(indexed8_native_spec(v, auto, d) == indexed8_native_spec(v, indexed, d));
}

/// Converts a view choosing 8-bit indexes for at most 256 colors, BGR rows otherwise.
#[verifier::spinoff_prover]
fn image_view_to_auto_indexed8_or_rgb24_bmp_native(image: ImageView<'_>, options: &BmpEncodeOptions) -> (res:
    Result<BmpImage, ImageError>)
    ensures
        bmp_result(res) == auto_native_spec(image, options@),
{
    let view = validate_image_view(image, PixelFormat::Rgb8)?;
    proof {
        lemma_pixels_len(view);
        assert(view.height * (3 * view.width) == 3 * (view.width * view.height)) by (nonlinear_arith);
    }
    let px = packed_image_data(view);
    let total = px.len();
    proof {
        assert(row_len(view.width, view.pixel_format) == 3 * view.width);
        assert(px@.len() == view.height * (3 * view.width));
        assert(px@.len() == 3 * (view.width * view.height));
    }
    assert(view.width * view.height <= total);
    let pixels = view.width as usize * view.height as usize;
    let color_table = auto_color_table(px.as_slice(), pixels);
    if color_table.len() > 256 {
        return image_view_to_rgb24_bmp_native(view, options);
    }
    image_view_to_indexed8_bmp_native(view, options, color_table.as_slice())
}

/// The native image that a view and encoding options give.
pub open spec fn view_to_bmp_spec(v: ImageView<'_>, o: EncodeOptionsModel) -> Result<BmpModel, ImageError> {
    match o.pixel_encoding {
        PixelEncodingModel::Rgb24 => rgb24_native_spec(v, o),
        PixelEncodingModel::Indexed8 { color_table } => indexed8_native_spec(v, o, color_table),
        PixelEncodingModel::AutoIndexed8OrRgb24 => auto_native_spec(v, o),
    }
}

/// Converts an image view into a native BMP image.
pub fn image_view_to_bmp_native(image: ImageView<'_>, options: BmpEncodeOptions) -> (res: Result<
    BmpImage,
    ImageError,
>)
    ensures
        bmp_result(res) == view_to_bmp_spec(image, options@),
{
    match &options.pixel_encoding {
        BmpPixelEncoding::Rgb24 => image_view_to_rgb24_bmp_native(image, &options),
        BmpPixelEncoding::Indexed8 { color_table } => image_view_to_indexed8_bmp_native(
            image,
            &options,
            color_table.as_slice(),
        ),
        BmpPixelEncoding::AutoIndexed8OrRgb24 => image_view_to_auto_indexed8_or_rgb24_bmp_native(image, &options),
    }
}

/// What encoding a view gives.
pub open spec fn encode_spec(v: ImageView<'_>, o: EncodeOptionsModel) -> Result<Seq<u8>, ImageError> {
    match view_to_bmp_spec(v, o) {
        Err(e) => Err(e),
        Ok(m) => encode_native_spec(m),
    }
}

/// Encodes an image view as a BMP image using the selected options.
pub fn encode(writer: &mut Vec<u8>, image: ImageView<'_>, options: BmpEncodeOptions) -> (res: Result<
    (),
    ImageError,
>)
    ensures
        writes(res, old(writer)@, final(writer)@, encode_spec(image, options@)),
{
    let native = image_view_to_bmp_native(image, options)?;
    encode_native(writer, &native)
}

/// What decoding a BMP input into a generic image gives.
pub open spec fn decode_spec(d: Seq<u8>) -> Result<ImageModel, ImageError> {
    match decode_native_spec(d) {
        Err(e) => Err(e),
        Ok(m) => to_image_spec(m),
    }
}

/// Decodes an uncompressed BMP image.
pub fn decode(data: &[u8]) -> (res: Result<Image, ImageError>)
    ensures
        image_result(res) == decode_spec(data@),
{
    let native = decode_native(data)?;
    native.to_image()
}

// ---------------------------------------------------------------------------
// Encoding options.
// ---------------------------------------------------------------------------

/// The options `BmpEncodeOptions::new` gives: BGR rows, bottom-up, no resolution.
pub open spec fn default_options() -> EncodeOptionsModel {
    EncodeOptionsModel {
        pixel_encoding: PixelEncodingModel::Rgb24,
        orientation: BmpOrientation::BottomUp,
        x_pixels_per_meter: 0,
        y_pixels_per_meter: 0,
    }
}

impl BmpEncodeOptions {
    /// Options for 24-bit bottom-up rows with no resolution metadata.
    pub fn new() -> (r: Self)
        ensures
            r@ == default_options(),
    {
        BmpEncodeOptions {
            pixel_encoding: BmpPixelEncoding::Rgb24,
            orientation: BmpOrientation::BottomUp,
            x_pixels_per_meter: 0,
            y_pixels_per_meter: 0,
        }
    }

    /// The same options with another row order.
    pub fn with_orientation(self, orientation: BmpOrientation) -> (r: Self)
        ensures
            r@ == (EncodeOptionsModel { orientation, ..self@ }),
    {
        BmpEncodeOptions { orientation, ..self }
    }

    /// The same options with another resolution.
    pub fn with_resolution(self, x_pixels_per_meter: i32, y_pixels_per_meter: i32) -> (r: Self)
        ensures
            r@ == (EncodeOptionsModel { x_pixels_per_meter, y_pixels_per_meter, ..self@ }),
    {
        BmpEncodeOptions { x_pixels_per_meter, y_pixels_per_meter, ..self }
    }

    /// The same options with another pixel encoding.
    pub fn with_pixel_encoding(self, pixel_encoding: BmpPixelEncoding) -> (r: Self)
        ensures
            r@ == (EncodeOptionsModel { pixel_encoding: pixel_encoding@, ..self@ }),
    {
        BmpEncodeOptions { pixel_encoding, ..self }
    }
}

impl Default for BmpEncodeOptions {
    fn default() -> (r: Self)
        ensures
            r@ == default_options(),
    {
        BmpEncodeOptions::new()
    }
}


// ---------------------------------------------------------------------------
// Laws.
// ---------------------------------------------------------------------------

/// Signed fields survive being written as their two's-complement bits.
pub proof fn lemma_i32_bits(v: i32)
    ensures
        i32_of(u32_of(v)) == v,
{
}

/// The bytes of a color table: entry `i` fills bytes `4i` to `4i + 3`.
pub proof fn lemma_table_bytes(t: Seq<BmpColorTableEntry>)
    ensures
        table_bytes(t).len() == 4 * t.len(),
        forall|i: int| 0 <= i < t.len() ==> #[trigger] entry_at(table_bytes(t), 4 * i) == t[i],
    decreases t.len(),
{
    if t.len() > 0 {
        let p = t.drop_last();
        lemma_table_bytes(p);
        let b = table_bytes(t);
        assert(b == table_bytes(p) + entry_bytes(t.last()));
        assert forall|i: int| 0 <= i < t.len() implies #[trigger] entry_at(table_bytes(t), 4 * i) == t[i] by {
            if i < t.len() - 1 {
                assert(entry_at(table_bytes(p), 4 * i) == p[i]);
            }
        }
    }
}

/// The fields of the headers that `header_bytes` writes stand where a reader
/// looks for them.
#[verifier::spinoff_prover]
pub proof fn lemma_header_fields(fh: BmpFileHeader, ih: BmpInfoHeader, rest: Seq<u8>)
    ensures
        ({
            let d = header_bytes(fh, ih) + rest;
            &&& header_bytes(fh, ih).len() == 54
            &&& d[0] == 0x42 && d[1] == 0x4d
            &&& le32_at(d, 14) == 40
            &&& file_header_at(d) == fh
            &&& info_header_at(d) == ih
        }),
{
    let h = header_bytes(fh, ih);
    let d = h + rest;
    assert(h.len() == 54);
    assert(d.subrange(2, 6) =~= le32_bytes(fh.file_size));
    assert(d.subrange(6, 8) =~= le16_bytes(fh.reserved1));
    assert(d.subrange(8, 10) =~= le16_bytes(fh.reserved2));
    assert(d.subrange(10, 14) =~= le32_bytes(fh.pixel_offset));
    assert(d.subrange(14, 18) =~= le32_bytes(40));
    assert(d.subrange(18, 22) =~= le32_bytes(u32_of(ih.width)));
    assert(d.subrange(22, 26) =~= le32_bytes(u32_of(ih.height)));
    assert(d.subrange(26, 28) =~= le16_bytes(ih.planes));
    assert(d.subrange(28, 30) =~= le16_bytes(ih.bits_per_pixel));
    assert(d.subrange(30, 34) =~= le32_bytes(ih.compression));
    assert(d.subrange(34, 38) =~= le32_bytes(ih.image_size));
    assert(d.subrange(38, 42) =~= le32_bytes(u32_of(ih.x_pixels_per_meter)));
    assert(d.subrange(42, 46) =~= le32_bytes(u32_of(ih.y_pixels_per_meter)));
    assert(d.subrange(46, 50) =~= le32_bytes(ih.colors_used));
    assert(d.subrange(50, 54) =~= le32_bytes(ih.important_colors));
    lemma_u32_le_roundtrip(fh.file_size);
    lemma_u16_le_roundtrip(fh.reserved1);
    lemma_u16_le_roundtrip(fh.reserved2);
    lemma_u32_le_roundtrip(fh.pixel_offset);
    lemma_u32_le_roundtrip(40);
    lemma_u32_le_roundtrip(u32_of(ih.width));
    lemma_u32_le_roundtrip(u32_of(ih.height));
    lemma_u16_le_roundtrip(ih.planes);
    lemma_u16_le_roundtrip(ih.bits_per_pixel);
    lemma_u32_le_roundtrip(ih.compression);
    lemma_u32_le_roundtrip(ih.image_size);
    lemma_u32_le_roundtrip(u32_of(ih.x_pixels_per_meter));
    lemma_u32_le_roundtrip(u32_of(ih.y_pixels_per_meter));
    lemma_u32_le_roundtrip(ih.colors_used);
    lemma_u32_le_roundtrip(ih.important_colors);
    lemma_i32_bits(ih.width);
    lemma_i32_bits(ih.height);
    lemma_i32_bits(ih.x_pixels_per_meter);
    lemma_i32_bits(ih.y_pixels_per_meter);
}

/// What decoding gives once the headers read back as given and every check passes.
proof fn lemma_decode_native_parts(d: Seq<u8>, fh: BmpFileHeader, ih: BmpInfoHeader, n: int, size: int)
    requires
        d.len() >= 54,
        d[0] == 0x42 && d[1] == 0x4d,
        le32_at(d, 14) == 40,
        file_header_at(d) == fh,
        info_header_at(d) == ih,
        info_header_check(ih) is None,
        table_entry_count(ih) == Ok::<int, ImageError>(n),
        min_pixel_offset(n) == Ok::<u32, ImageError>(fh.pixel_offset),
        pixel_array_len_spec(ih.width as u32, abs_height(ih.height), ih.bits_per_pixel) == Ok::<int, ImageError>(size),
        fh.pixel_offset + size == d.len(),
        d.len() <= usize::MAX,
    ensures
        decode_native_spec(d) == Ok::<BmpModel, ImageError>(
            BmpModel {
                file_header: fh,
                dib_header: BmpDibHeader::BitmapInfoHeader(ih),
                color_masks: Seq::empty(),
                color_table: color_table_at(d, n),
                pixel_array: d.subrange(fh.pixel_offset as int, fh.pixel_offset + size),
            },
        ),
{
}

/// Decoding what `encode_native` writes gives the native image back, whenever
/// it writes at all, the pixel data offset points right after the color
/// table, and the file fits the address space.
#[verifier::spinoff_prover]
pub proof fn lemma_bmp_native_roundtrip(m: BmpModel)
    requires
        encode_native_spec(m) is Ok,
        m.file_header.pixel_offset == 54 + 4 * m.color_table.len(),
        bmp_file_bytes(m).len() <= usize::MAX,
    ensures
        decode_native_spec(encode_native_spec(m)->Ok_0) == Ok::<BmpModel, ImageError>(m),
{
    let fh = m.file_header;
    let ih = info_of(m.dib_header);
    let t = m.color_table;
    let d = bmp_file_bytes(m);
    let p = m.pixel_array;
    lemma_header_fields(fh, ih, table_bytes(t) + p);
    lemma_table_bytes(t);
    let n = t.len() as int;
    assert(d == header_bytes(fh, ih) + (table_bytes(t) + p));
    assert(color_table_at(d, n) =~= t) by {
        assert forall|i: int| 0 <= i < n implies #[trigger] color_table_at(d, n)[i] == t[i] by {
            assert(entry_at(table_bytes(t), 4 * i) == t[i]);
            assert(d[54 + 4 * i] == table_bytes(t)[4 * i]);
            assert(d[54 + 4 * i + 1] == table_bytes(t)[4 * i + 1]);
            assert(d[54 + 4 * i + 2] == table_bytes(t)[4 * i + 2]);
            assert(d[54 + 4 * i + 3] == table_bytes(t)[4 * i + 3]);
        }
    }
    let po = fh.pixel_offset as int;
    assert(d.len() == po + p.len());
    assert(d.subrange(po, po + p.len()) =~= p);
    let size = p.len() as int;
    lemma_decode_native_parts(d, fh, ih, n, size);
    assert(m.dib_header == BmpDibHeader::BitmapInfoHeader(ih));
    assert(m.color_masks =~= Seq::<u32>::empty());
}


/// Byte `c` of the `k`-th gathered row.
pub proof fn lemma_gathered_index(
    src: Seq<u8>,
    stride: int,
    take: int,
    pad: nat,
    height: int,
    bottom_up: bool,
    n: nat,
    k: int,
    c: int,
)
    requires
        0 <= take <= stride,
        n <= height,
        height * stride <= src.len(),
        0 <= k < n,
        0 <= c < take + pad,
    ensures
        gathered_rows(src, stride, take, pad, height, bottom_up, n)[k * (take + pad) + c] == if c < take {
            src[source_row(height, bottom_up, k) * stride + c]
        } else {
            0u8
        },
    decreases n,
{
    let prev = gathered_rows(src, stride, take, pad, height, bottom_up, (n - 1) as nat);
    lemma_gathered_len(src, stride, take, pad, height, bottom_up, (n - 1) as nat);
    let r = source_row(height, bottom_up, n - 1);
    assert(r * stride + stride <= height * stride) by (nonlinear_arith)
        requires
            0 <= r < height,
            0 <= stride,
    ;
    assert(0 <= r * stride) by (nonlinear_arith)
        requires
            0 <= r,
            0 <= stride,
    ;
    if k < n - 1 {
        assert(k * (take + pad) + c < (n - 1) * (take + pad)) by (nonlinear_arith)
            requires
                0 <= k < n - 1,
                0 <= c < take + pad,
        ;
        assert(0 <= k * (take + pad)) by (nonlinear_arith)
            requires
                0 <= k,
                0 <= take + pad,
        ;
        lemma_gathered_index(src, stride, take, pad, height, bottom_up, (n - 1) as nat, k, c);
    } else {
        assert(k * (take + pad) == (n - 1) * (take + pad));
    }
}

/// Gathering the rows of a BMP pixel array in file order undoes writing them
/// in file order: padding drops out and every row returns to its place.
pub proof fn lemma_regather(src: Seq<u8>, len: int, pad: nat, height: int, bottom_up: bool)
    requires
        len >= 0,
        height >= 0,
        src.len() == height * len,
    ensures
        gathered_rows(
            gathered_rows(src, len, len, pad, height, bottom_up, height as nat),
            len + pad,
            len,
            0,
            height,
            bottom_up,
            height as nat,
        ) == src,
{
    let a = gathered_rows(src, len, len, pad, height, bottom_up, height as nat);
    let b = gathered_rows(a, len + pad, len, 0, height, bottom_up, height as nat);
    lemma_gathered_len(src, len, len, pad, height, bottom_up, height as nat);
    assert(height * (len + pad) == height * (len + pad + 0));
    lemma_gathered_len(a, len + pad, len, 0, height, bottom_up, height as nat);
    assert(b.len() == src.len()) by (nonlinear_arith)
        requires
            b.len() == height * (len + 0),
            src.len() == height * len,
    ;
    assert forall|i: int| 0 <= i < src.len() implies #[trigger] b[i] == src[i] by {
        assert(len > 0) by (nonlinear_arith)
            requires
                0 <= i < height * len,
                height >= 0,
                len >= 0,
        ;
        let y = i / len;
        let c = i % len;
        vstd::arithmetic::div_mod::lemma_fundamental_div_mod(i, len);
        vstd::arithmetic::div_mod::lemma_mod_pos_bound(i, len);
        assert(0 <= y < height) by (nonlinear_arith)
            requires
                i == len * y + c,
                0 <= c < len,
                0 <= i < height * len,
        ;
        assert(i == y * (len + 0) + c) by (nonlinear_arith)
            requires
                i == len * y + c,
        ;
        lemma_gathered_index(a, len + pad, len, 0, height, bottom_up, height as nat, y, c);
        let k = source_row(height, bottom_up, y);
        assert(0 <= k < height);
        assert(source_row(height, bottom_up, k) == y);
        assert(k * (len + pad) + c == k * (len + pad) + c);
        lemma_gathered_index(src, len, len, pad, height, bottom_up, height as nat, k, c);
        assert(y * len + c == i) by (nonlinear_arith)
            requires
                i == len * y + c,
        ;
    }
    assert(b =~= src);
}

/// Swapping the byte order of every pixel twice changes nothing.
pub proof fn lemma_bgr_swap_twice(s: Seq<u8>)
    requires
        s.len() % 3 == 0,
    ensures
        bgr_swap(bgr_swap(s)) == s,
{
    assert(bgr_swap(bgr_swap(s)) =~= s);
}

/// The indexes of 8-bit rows are the rows' first bytes.
pub proof fn lemma_index_rows_8(arr: Seq<u8>, row_size: int, width: int, height: int, bottom_up: bool, n: nat)
    requires
        0 <= width <= row_size,
        n <= height,
        height * row_size <= arr.len(),
    ensures
        index_rows(arr, row_size, width, 8, height, bottom_up, n) == gathered_rows(
            arr,
            row_size,
            width,
            0,
            height,
            bottom_up,
            n,
        ),
    decreases n,
{
    if n > 0 {
        lemma_index_rows_8(arr, row_size, width, height, bottom_up, (n - 1) as nat);
        let r = source_row(height, bottom_up, n - 1);
        assert(r * row_size + row_size <= height * row_size) by (nonlinear_arith)
            requires
                0 <= r < height,
                0 <= row_size,
        ;
        assert(0 <= r * row_size) by (nonlinear_arith)
            requires
                0 <= r,
                0 <= row_size,
        ;
        assert(row_indices(arr.subrange(r * row_size, r * row_size + row_size), width, 8) =~= arr.subrange(
            r * row_size,
            r * row_size + width,
        ) + zeros(0));
    }
}

/// Looking up the palette index of every pixel and then the color of every
/// index gives the pixels back.
pub proof fn lemma_palette_roundtrip(t: Seq<BmpColorTableEntry>, px: Seq<u8>)
    requires
        t.len() <= 256,
        colors_in_table(t, px),
        px.len() % 3 == 0,
    ensures
        indexes_in_table(t, palette_index_bytes(t, px)),
        palette_colors(t, palette_index_bytes(t, px)) == px,
{
    let idx = palette_index_bytes(t, px);
    assert forall|i: int| 0 <= i < idx.len() implies (#[trigger] idx[i] as int) < t.len() by {
        assert(color_at(t, px, i) is Some);
        lemma_find_color(t, px[3 * i], px[3 * i + 1], px[3 * i + 2], 0);
    }
    let colors = palette_colors(t, idx);
    assert forall|i: int| 0 <= i < px.len() implies #[trigger] colors[i] == px[i] by {
        let q = i / 3;
        assert(color_at(t, px, q) is Some);
        lemma_find_color(t, px[3 * q], px[3 * q + 1], px[3 * q + 2], 0);
    }
    assert(colors =~= px);
}

/// A view that `view_check` accepts holds `height` packed rows whose bytes fit
/// the address space, so a packed image of its pixels can be made.
pub proof fn lemma_checked_view_packs(v: ImageView<'_>, pf: PixelFormat)
    requires
        view_check(v, pf) is None,
    ensures
        v.pixels().len() == packed_len(v.width, v.height, v.pixel_format),
        image_new_error(v.width, v.height, v.pixel_format, v.pixels().len() as int) is None,
        v.covers(),
{
    let r = row_len(v.width, v.pixel_format);
    let bpp = v.pixel_format.spec_bytes_per_pixel();
    lemma_pixels_len(v);
    assert(v.height * r == v.width * v.height * bpp) by (nonlinear_arith)
        requires
            r == v.width * bpp,
    ;
    assert(v.height * r <= strided_len(v.width, v.height, v.pixel_format, v.stride as int)) by (nonlinear_arith)
        requires
            v.stride >= r,
            r >= 0,
            v.height > 0,
            strided_len(v.width, v.height, v.pixel_format, v.stride as int) == (v.height - 1) * v.stride + r,
    ;
}

/// The packed pixels of a checked `Rgb8` view: `height` rows of `3 * width` bytes.
proof fn lemma_rgb_view_pixels(v: ImageView<'_>)
    requires
        view_check(v, PixelFormat::Rgb8) is None,
    ensures
        v.pixels().len() == v.height * (3 * v.width),
        v.pixels().len() % 3 == 0,
        v.pixels().len() / 3 == v.height * v.width,
        image_new_error(v.width, v.height, PixelFormat::Rgb8, v.pixels().len() as int) is None,
        v.width * v.height * 3 <= usize::MAX,
{
    lemma_checked_view_packs(v, PixelFormat::Rgb8);
    let n = v.pixels().len();
    assert(n == v.height * (3 * v.width)) by (nonlinear_arith)
        requires
            n == v.width * v.height * 3,
    ;
    vstd::arithmetic::div_mod::lemma_mod_multiples_basic(v.height * v.width, 3);
    assert(v.height * (3 * v.width) == (v.height * v.width) * 3) by (nonlinear_arith);
}

/// Decoding a view converted to 24-bit BGR rows gives its pixels back.
#[verifier::spinoff_prover]
proof fn lemma_rgb24_to_image(v: ImageView<'_>, o: EncodeOptionsModel)
    requires
        rgb24_native_spec(v, o) is Ok,
    ensures
        to_image_spec(rgb24_native_spec(v, o)->Ok_0) == Ok::<ImageModel, ImageError>(
            ImageModel { width: v.width, height: v.height, pixel_format: PixelFormat::Rgb8, data: v.pixels() },
        ),
{
    let m = rgb24_native_spec(v, o)->Ok_0;
    lemma_rgb_view_pixels(v);
    let w = v.width;
    let h = v.height;
    let px = v.pixels();
    let bottom_up = is_bottom_up(o.orientation);
    let rs = row_size_spec(w, 24)->Ok_0;
    lemma_row_size_covers(w, 24);
    let bgr = bgr_swap(px);
    lemma_regather(bgr, 3 * w, (rs - 3 * w) as nat, h as int, bottom_up);
    lemma_bgr_swap_twice(px);
    let ih = info_of(m.dib_header);
    assert(ih.width as u32 == w);
    assert(abs_height(ih.height) == h);
    assert((ih.height > 0) == bottom_up);
    assert(m.pixel_array == gathered_rows(bgr, 3 * w, 3 * w, (rs - 3 * w) as nat, h as int, bottom_up, h as nat));
    assert(gathered_rows(m.pixel_array, 3 * w + (rs - 3 * w), 3 * w, 0, h as int, bottom_up, h as nat) == bgr);
    lemma_gathered_len(bgr, 3 * w, 3 * w, (rs - 3 * w) as nat, h as int, bottom_up, h as nat);
    assert(h * (3 * w + (rs - 3 * w)) == rs * h) by (nonlinear_arith);
    assert(info_header_check(ih) is None);
    assert(pixels_check(m) is None);
    assert(to_image_spec(m) == new_image_spec(w, h, PixelFormat::Rgb8, bgr_swap(bgr)));
}

/// Decoding a view converted to 8-bit palette indexes gives its pixels back.
#[verifier::spinoff_prover]
proof fn lemma_indexed8_to_image(v: ImageView<'_>, o: EncodeOptionsModel, t: Seq<BmpColorTableEntry>)
    requires
        indexed8_native_spec(v, o, t) is Ok,
    ensures
        to_image_spec(indexed8_native_spec(v, o, t)->Ok_0) == Ok::<ImageModel, ImageError>(
            ImageModel { width: v.width, height: v.height, pixel_format: PixelFormat::Rgb8, data: v.pixels() },
        ),
{
    let m = indexed8_native_spec(v, o, t)->Ok_0;
    lemma_rgb_view_pixels(v);
    let w = v.width;
    let h = v.height;
    let px = v.pixels();
    let bottom_up = is_bottom_up(o.orientation);
    let rs = row_size_spec(w, 8)->Ok_0;
    lemma_row_size_covers(w, 8);
    let idx = palette_index_bytes(t, px);
    assert(idx.len() == h * w);
    lemma_regather(idx, w as int, (rs - w) as nat, h as int, bottom_up);
    lemma_gathered_len(idx, w as int, w as int, (rs - w) as nat, h as int, bottom_up, h as nat);
    assert(h * (w + (rs - w)) == h * rs);
    let ih = info_of(m.dib_header);
    assert(ih.width as u32 == w);
    assert(abs_height(ih.height) == h);
    assert((ih.height > 0) == bottom_up);
    assert(m.pixel_array == gathered_rows(idx, w as int, w as int, (rs - w) as nat, h as int, bottom_up, h as nat));
    lemma_index_rows_8(m.pixel_array, rs, w as int, h as int, bottom_up, h as nat);
    assert(gathered_rows(m.pixel_array, w + (rs - w), w as int, 0, h as int, bottom_up, h as nat) == idx);
    lemma_palette_roundtrip(t, px);
    assert(h * (w + (rs - w)) == rs * h) by (nonlinear_arith);
    assert(info_header_check(ih) is None);
    assert(pixels_check(m) is None);
    assert(to_image_spec(m) == new_image_spec(w, h, PixelFormat::Rgb8, palette_colors(t, idx)));
}

/// A view converted to a native image has its pixels right after its color
/// table, in a file whose size fits a `u32`.
#[verifier::spinoff_prover]
proof fn lemma_view_native_layout(v: ImageView<'_>, o: EncodeOptionsModel)
    requires
        view_to_bmp_spec(v, o) is Ok,
    ensures
        view_to_bmp_spec(v, o)->Ok_0.file_header.pixel_offset == 54 + 4 * view_to_bmp_spec(
            v,
            o,
        )->Ok_0.color_table.len(),
        bmp_file_bytes(view_to_bmp_spec(v, o)->Ok_0).len() <= u32::MAX,
{
    let m = view_to_bmp_spec(v, o)->Ok_0;
    lemma_table_bytes(m.color_table);
    lemma_rgb_view_pixels(v);
    let w = v.width;
    let h = v.height;
    let bottom_up = is_bottom_up(o.orientation);
    if info_of(m.dib_header).bits_per_pixel == 24 {
        let rs = row_size_spec(w, 24)->Ok_0;
        lemma_row_size_covers(w, 24);
        lemma_gathered_len(bgr_swap(v.pixels()), 3 * w, 3 * w, (rs - 3 * w) as nat, h as int, bottom_up, h as nat);
        assert(h * (3 * w + (rs - 3 * w)) == rs * h) by (nonlinear_arith);
    } else {
        let rs = row_size_spec(w, 8)->Ok_0;
        lemma_row_size_covers(w, 8);
        lemma_gathered_len(
            palette_index_bytes(m.color_table, v.pixels()),
            w as int,
            w as int,
            (rs - w) as nat,
            h as int,
            bottom_up,
            h as nat,
        );
        assert(h * (w + (rs - w)) == rs * h) by (nonlinear_arith);
    }
}

/// Decoding a converted view gives its pixels back.
proof fn lemma_view_to_image(v: ImageView<'_>, o: EncodeOptionsModel)
    requires
        view_to_bmp_spec(v, o) is Ok,
    ensures
        to_image_spec(view_to_bmp_spec(v, o)->Ok_0) == Ok::<ImageModel, ImageError>(
            ImageModel { width: v.width, height: v.height, pixel_format: PixelFormat::Rgb8, data: v.pixels() },
        ),
{
    match o.pixel_encoding {
        PixelEncodingModel::Rgb24 => {
            lemma_rgb24_to_image(v, o);
        },
        PixelEncodingModel::Indexed8 { color_table } => {
            lemma_indexed8_to_image(v, o, color_table);
        },
        PixelEncodingModel::AutoIndexed8OrRgb24 => {
            let t = distinct_entries(v.pixels(), (v.width * v.height) as nat);
            if t.len() > 256 {
                lemma_rgb24_to_image(v, o);
            } else {
                lemma_indexed8_to_image(v, o, t);
            }
        },
    }
}

/// Encoding an image view as BMP and decoding the result gives the view's
/// pixels back as a packed `Rgb8` image, whatever pixel encoding, row order
/// and resolution were chosen, whenever encoding succeeds.
pub proof fn lemma_bmp_roundtrip(v: ImageView<'_>, o: EncodeOptionsModel)
    requires
        encode_spec(v, o) is Ok,
    ensures
        decode_spec(encode_spec(v, o)->Ok_0) == Ok::<ImageModel, ImageError>(
            ImageModel { width: v.width, height: v.height, pixel_format: PixelFormat::Rgb8, data: v.pixels() },
        ),
{
    let m = view_to_bmp_spec(v, o)->Ok_0;
    lemma_view_native_layout(v, o);
    lemma_bmp_native_roundtrip(m);
    lemma_view_to_image(v, o);
}


/// The palette of an image's own colors has no reserved bytes set.
proof fn lemma_distinct_entries_plain(px: Seq<u8>, n: nat)
    ensures
        !any_reserved(distinct_entries(px, n)),
    decreases n,
{
    if n > 0 {
        lemma_distinct_entries_plain(px, (n - 1) as nat);
        let prev = distinct_entries(px, (n - 1) as nat);
        let cur = distinct_entries(px, n);
        assert forall|i: int| 0 <= i < cur.len() implies cur[i].reserved == 0 by {
            if i < prev.len() {
                assert(cur[i] == prev[i]);
            }
        }
    }
}

/// Every native image converted from a view describes a consistent BMP file
/// layout.
#[verifier::spinoff_prover]
pub proof fn lemma_converted_layout_consistent(v: ImageView<'_>, o: EncodeOptionsModel)
    requires
        view_to_bmp_spec(v, o) is Ok,
    ensures
        layout_check(view_to_bmp_spec(v, o)->Ok_0) is None,
{
    let m = view_to_bmp_spec(v, o)->Ok_0;
    lemma_view_native_layout(v, o);
    lemma_rgb_view_pixels(v);
    let w = v.width;
    let h = v.height;
    let bottom_up = is_bottom_up(o.orientation);
    if info_of(m.dib_header).bits_per_pixel == 24 {
        let rs = row_size_spec(w, 24)->Ok_0;
        lemma_row_size_covers(w, 24);
        lemma_gathered_len(bgr_swap(v.pixels()), 3 * w, 3 * w, (rs - 3 * w) as nat, h as int, bottom_up, h as nat);
        assert(h * (3 * w + (rs - 3 * w)) == rs * h) by (nonlinear_arith);
    } else {
        let rs = row_size_spec(w, 8)->Ok_0;
        lemma_row_size_covers(w, 8);
        lemma_gathered_len(
            palette_index_bytes(m.color_table, v.pixels()),
            w as int,
            w as int,
            (rs - w) as nat,
            h as int,
            bottom_up,
            h as nat,
        );
        assert(h * (w + (rs - w)) == rs * h) by (nonlinear_arith);
        lemma_distinct_entries_plain(v.pixels(), (v.width * v.height) as nat);
    }
}


/// Unpacked rows hold one palette index per pixel.
proof fn lemma_index_rows_len(arr: Seq<u8>, rs: int, w: int, bpp: u16, height: int, bottom_up: bool, n: nat)
    requires
        0 <= w,
    ensures
        index_rows(arr, rs, w, bpp, height, bottom_up, n).len() == n * w,
    decreases n,
{
    if n > 0 {
        lemma_index_rows_len(arr, rs, w, bpp, height, bottom_up, (n - 1) as nat);
        let r = source_row(height, bottom_up, n - 1);
        let ri = row_indices(arr.subrange(r * rs, r * rs + rs), w, bpp);
        assert(ri.len() == w);
        assert(index_rows(arr, rs, w, bpp, height, bottom_up, n) == index_rows(
            arr,
            rs,
            w,
            bpp,
            height,
            bottom_up,
            (n - 1) as nat,
        ) + ri);
        assert((n - 1) * w + w == n * w) by (nonlinear_arith);
    } else {
        assert(0 * w == 0) by (nonlinear_arith);
    }
}

/// The palette index of pixel `x` of image row `k` is read from the file row
/// that `source_row` names.
proof fn lemma_index_rows_index(
    arr: Seq<u8>,
    rs: int,
    w: int,
    bpp: u16,
    height: int,
    bottom_up: bool,
    n: nat,
    k: int,
    x: int,
)
    requires
        0 <= w,
        0 <= k < n,
        0 <= x < w,
    ensures
        index_rows(arr, rs, w, bpp, height, bottom_up, n)[k * w + x] == index_at(
            arr.subrange(source_row(height, bottom_up, k) * rs, source_row(height, bottom_up, k) * rs + rs),
            x,
            bpp,
        ),
    decreases n,
{
    let prev = index_rows(arr, rs, w, bpp, height, bottom_up, (n - 1) as nat);
    lemma_index_rows_len(arr, rs, w, bpp, height, bottom_up, (n - 1) as nat);
    let r = source_row(height, bottom_up, n - 1);
    let ri = row_indices(arr.subrange(r * rs, r * rs + rs), w, bpp);
    let all = index_rows(arr, rs, w, bpp, height, bottom_up, n);
    assert(all == prev + ri);
    if k < n - 1 {
        assert(k * w + x < (n - 1) * w) by (nonlinear_arith)
            requires
                0 <= k < n - 1,
                0 <= x < w,
        ;
        assert(0 <= k * w) by (nonlinear_arith)
            requires
                0 <= k,
                0 <= w,
        ;
        lemma_index_rows_index(arr, rs, w, bpp, height, bottom_up, (n - 1) as nat, k, x);
        assert(all[k * w + x] == prev[k * w + x]);
    } else {
        assert(k * w == (n - 1) * w);
        assert(all[k * w + x] == ri[x]);
    }
}

/// A pixel of a decoded BMP image. The image is as wide and as tall as the
/// header says, `Rgb8`. Its row `y` comes from file row `height - 1 - y` of
/// a bottom-up file (positive header height) and from file row `y` of a
/// top-down one, rows being `(width * bits_per_pixel + 31) / 32 * 4` bytes
/// apart. At 24 bits pixel `x` is the row's bytes `3x..3x+3` in blue, green,
/// red order. At 8 bits it is the palette entry of the row's byte `x`; at 4
/// bits that of the high half of byte `x / 2` for even `x` and the low half
/// for odd `x`; at 1 bit that of bit `7 - x % 8` of byte `x / 8`.
pub proof fn lemma_bmp_decoded_pixel(m: BmpModel, y: int, x: int, c: int)
    requires
        to_image_spec(m) is Ok,
        0 <= y < abs_height(info_of(m.dib_header).height),
        0 <= x < info_of(m.dib_header).width,
        0 <= c < 3,
    ensures
        ({
            let ih = info_of(m.dib_header);
            let w = ih.width as int;
            let h = abs_height(ih.height) as int;
            let rs = (w * ih.bits_per_pixel + 31) / 32 * 4;
            let base = (if ih.height > 0 {
                h - 1 - y
            } else {
                y
            }) * rs;
            let arr = m.pixel_array;
            let img = to_image_spec(m)->Ok_0;
            let value = img.data[3 * (y * w + x) + c];
            let index: int = if ih.bits_per_pixel == 1 {
                (arr[base + x / 8] as int / pow2((7 - x % 8) as nat) as int) % 2
            } else if ih.bits_per_pixel == 4 {
                if x % 2 == 0 {
                    arr[base + x / 2] as int / 16
                } else {
                    arr[base + x / 2] as int % 16
                }
            } else {
                arr[base + x] as int
            };
            &&& img.width == ih.width as u32
            &&& img.height == h
            &&& img.pixel_format == PixelFormat::Rgb8
            &&& img.data.len() == 3 * (w * h)
            &&& if ih.bits_per_pixel == 24 {
                value == arr[base + 3 * x + 2 - c]
            } else {
                &&& 0 <= index < m.color_table.len()
                &&& value == if c == 0 {
                    m.color_table[index].red
                } else if c == 1 {
                    m.color_table[index].green
                } else {
                    m.color_table[index].blue
                }
            }
        }),
{
    let ih = info_of(m.dib_header);
    let wu = ih.width as u32;
    let w = ih.width as int;
    let hu = abs_height(ih.height);
    let h = hu as int;
    let bpp = ih.bits_per_pixel;
    let bottom_up = ih.height > 0;
    let arr = m.pixel_array;
    assert(info_header_check(ih) is None);
    assert(pixels_check(m) is None);
    assert(row_size_spec(wu, bpp) is Ok);
    let rs = row_size_spec(wu, bpp)->Ok_0;
    assert(rs == (w * bpp + 31) / 32 * 4);
    lemma_row_size_covers(wu, bpp);
    assert(arr.len() == rs * h);
    assert(h * rs == rs * h) by (nonlinear_arith);
    let k = source_row(h, bottom_up, y);
    assert(0 <= k < h);
    assert(k * rs + rs <= h * rs) by (nonlinear_arith)
        requires
            0 <= k < h,
            0 <= rs,
    ;
    assert(0 <= k * rs) by (nonlinear_arith)
        requires
            0 <= k,
            0 <= rs,
    ;
    let base = k * rs;
    let q = y * w + x;
    assert(0 <= q < w * h) by (nonlinear_arith)
        requires
            q == y * w + x,
            0 <= y < h,
            0 <= x < w,
    ;
    assert((3 * q + c) / 3 == q && (3 * q + c) % 3 == c);
    if bpp == 24 {
        let g = gathered_rows(arr, rs, 3 * w, 0, h, bottom_up, hu as nat);
        lemma_gathered_len(arr, rs, 3 * w, 0, h, bottom_up, hu as nat);
        assert(h * (3 * w + 0) == 3 * (w * h)) by (nonlinear_arith);
        assert(y * (3 * w + 0) + (3 * x + 2 - c) == 3 * q + 2 - c) by (nonlinear_arith)
            requires
                q == y * w + x,
        ;
        lemma_gathered_index(arr, rs, 3 * w, 0, h, bottom_up, hu as nat, y, 3 * x + 2 - c);
        assert(bgr_swap(g)[3 * q + c] == g[3 * q + 2 - c]);
    } else {
        let idx = index_rows(arr, rs, w, bpp, h, bottom_up, hu as nat);
        lemma_index_rows_len(arr, rs, w, bpp, h, bottom_up, hu as nat);
        lemma_index_rows_index(arr, rs, w, bpp, h, bottom_up, hu as nat, y, x);
        assert(h * w == w * h) by (nonlinear_arith);
        let row = arr.subrange(base, base + rs);
        assert(indexes_in_table(m.color_table, idx));
        assert(idx[q] == index_at(row, x, bpp));
        if bpp == 1 {
            assert(x / 8 < rs) by (nonlinear_arith)
                requires
                    rs * 8 >= w * 1,
                    0 <= x < w,
            ;
            let b = arr[base + x / 8];
            assert(row[x / 8] == b);
            let s = (7 - x % 8) as u8;
            vstd::bits::lemma_u8_shr_is_div(b, s);
            let v = b >> s;
            assert(v & 1u8 == v % 2) by (bit_vector);
        } else if bpp == 4 {
            assert(x / 2 < rs) by (nonlinear_arith)
                requires
                    rs * 8 >= w * 4,
                    0 <= x < w,
            ;
            let b = arr[base + x / 2];
            assert(row[x / 2] == b);
            assert(b >> 4u8 == b / 16) by (bit_vector);
            assert(b & 0x0fu8 == b % 16) by (bit_vector);
        } else {
            assert(bpp == 8);
            assert(x < rs);
            assert(row[x] == arr[base + x]);
        }
    }
}


/// What the `k`-th file row of a converted view holds at pixel `x`,
/// color `c`: see `lemma_bmp_encoded_pixel`.
spec fn encoded_pixel_law(v: ImageView<'_>, o: EncodeOptionsModel, m: BmpModel, k: int, x: int, c: int) -> bool {
    let ih = info_of(m.dib_header);
    let w = v.width as int;
    let h = v.height as int;
    let rs = (w * ih.bits_per_pixel + 31) / 32 * 4;
    let y = if o.orientation == BmpOrientation::BottomUp {
        h - 1 - k
    } else {
        k
    };
    let px = v.pixels();
    let p = 3 * (y * w + x);
    let arr = m.pixel_array;
    &&& ih.width == w
    &&& abs_height(ih.height) == h
    &&& (ih.height > 0 <==> o.orientation == BmpOrientation::BottomUp)
    &&& arr.len() == rs * h
    &&& if ih.bits_per_pixel == 24 {
        arr[k * rs + 3 * x + c] == px[p + 2 - c]
    } else {
        let index = arr[k * rs + x] as int;
        &&& ih.bits_per_pixel == 8
        &&& 0 <= index < m.color_table.len()
        &&& px[p + c] == if c == 0 {
            m.color_table[index].red
        } else if c == 1 {
            m.color_table[index].green
        } else {
            m.color_table[index].blue
        }
    }
}

proof fn lemma_rgb24_encoded_pixel(v: ImageView<'_>, o: EncodeOptionsModel, k: int, x: int, c: int)
    requires
        rgb24_native_spec(v, o) is Ok,
        0 <= k < v.height,
        0 <= x < v.width,
        0 <= c < 3,
    ensures
        encoded_pixel_law(v, o, rgb24_native_spec(v, o)->Ok_0, k, x, c),
{
    let m = rgb24_native_spec(v, o)->Ok_0;
    let w = v.width as int;
    let h = v.height as int;
    assert(view_check(v, PixelFormat::Rgb8) is None);
    lemma_checked_view(v);
    let px = v.pixels();
    assert(px.len() == h * (3 * w)) by (nonlinear_arith)
        requires
            px.len() == v.width * v.height * 3,
            w == v.width,
            h == v.height,
    ;
    let rs = row_size_spec(v.width, 24)->Ok_0;
    lemma_row_size_covers(v.width, 24);
    let bu = is_bottom_up(o.orientation);
    let pad = (rs - 3 * w) as nat;
    let src = bgr_swap(px);
    assert(rs == 3 * w + pad);
    lemma_gathered_len(src, 3 * w, 3 * w, pad, h, bu, h as nat);
    assert(h * (3 * w + pad) == rs * h) by (nonlinear_arith)
        requires
            rs == 3 * w + pad,
    ;
    lemma_gathered_index(src, 3 * w, 3 * w, pad, h, bu, h as nat, k, 3 * x + c);
    let r = source_row(h, bu, k);
    assert(0 <= r < h);
    assert(r * (3 * w) + 3 * x + c == 3 * (r * w + x) + c) by (nonlinear_arith);
    assert(0 <= r * w + x < w * h) by (nonlinear_arith)
        requires
            0 <= r < h,
            0 <= x < w,
    ;
    let q = r * w + x;
    assert((3 * q + c) % 3 == c);
    assert(src[3 * q + c] == px[3 * q + 2 - c]);
}

proof fn lemma_indexed8_encoded_pixel(
    v: ImageView<'_>,
    o: EncodeOptionsModel,
    t: Seq<BmpColorTableEntry>,
    k: int,
    x: int,
    c: int,
)
    requires
        indexed8_native_spec(v, o, t) is Ok,
        0 <= k < v.height,
        0 <= x < v.width,
        0 <= c < 3,
    ensures
        encoded_pixel_law(v, o, indexed8_native_spec(v, o, t)->Ok_0, k, x, c),
{
    let m = indexed8_native_spec(v, o, t)->Ok_0;
    let w = v.width as int;
    let h = v.height as int;
    assert(view_check(v, PixelFormat::Rgb8) is None);
    lemma_checked_view(v);
    let px = v.pixels();
    assert(px.len() == 3 * (w * h)) by (nonlinear_arith)
        requires
            px.len() == v.width * v.height * 3,
            w == v.width,
            h == v.height,
    ;
    assert(t.len() <= 256);
    assert(colors_in_table(t, px));
    let rs = row_size_spec(v.width, 8)->Ok_0;
    lemma_row_size_covers(v.width, 8);
    let bu = is_bottom_up(o.orientation);
    let pad = (rs - w) as nat;
    let src = palette_index_bytes(t, px);
    assert(src.len() == w * h);
    assert(h * w == w * h) by (nonlinear_arith);
    lemma_gathered_len(src, w, w, pad, h, bu, h as nat);
    assert(h * (w + pad) == rs * h) by (nonlinear_arith)
        requires
            rs == w + pad,
    ;
    lemma_gathered_index(src, w, w, pad, h, bu, h as nat, k, x);
    let r = source_row(h, bu, k);
    assert(0 <= r < h);
    assert(0 <= r * w + x < w * h) by (nonlinear_arith)
        requires
            0 <= r < h,
            0 <= x < w,
    ;
    let q = r * w + x;
    assert(q < px.len() / 3);
    assert(color_at(t, px, q) is Some);
    lemma_find_color(t, px[3 * q], px[3 * q + 1], px[3 * q + 2], 0);
    assert(3 * (r * w + x) == 3 * q);
}

/// A pixel of the BMP file a view is converted to, under any encoding and
/// row order. The header holds the view's width and height, the height
/// positive exactly for bottom-up rows, and rows are
/// `(width * bits_per_pixel + 31) / 32 * 4` bytes. File row `k` holds image
/// row `height - 1 - k` bottom-up and image row `k` top-down. At 24 bits the
/// row's bytes `3x..3x+3` are pixel `x` in blue, green, red order; otherwise
/// the rows are 8 bits and byte `x` names a palette entry holding pixel `x`'s
/// color.
pub proof fn lemma_bmp_encoded_pixel(v: ImageView<'_>, o: EncodeOptionsModel, k: int, x: int, c: int)
    requires
        view_to_bmp_spec(v, o) is Ok,
        0 <= k < v.height,
        0 <= x < v.width,
        0 <= c < 3,
    ensures
        ({
            let m = view_to_bmp_spec(v, o)->Ok_0;
            let ih = info_of(m.dib_header);
            let w = v.width as int;
            let h = v.height as int;
            let rs = (w * ih.bits_per_pixel + 31) / 32 * 4;
            let y = if o.orientation == BmpOrientation::BottomUp {
                h - 1 - k
            } else {
                k
            };
            let px = v.pixels();
            let p = 3 * (y * w + x);
            let arr = m.pixel_array;
            &&& ih.width == w
            &&& abs_height(ih.height) == h
            &&& (ih.height > 0 <==> o.orientation == BmpOrientation::BottomUp)
            &&& arr.len() == rs * h
            &&& if ih.bits_per_pixel == 24 {
                arr[k * rs + 3 * x + c] == px[p + 2 - c]
            } else {
                let index = arr[k * rs + x] as int;
                &&& ih.bits_per_pixel == 8
                &&& 0 <= index < m.color_table.len()
                &&& px[p + c] == if c == 0 {
                    m.color_table[index].red
                } else if c == 1 {
                    m.color_table[index].green
                } else {
                    m.color_table[index].blue
                }
            }
        }),
{
    match o.pixel_encoding {
        PixelEncodingModel::Rgb24 => lemma_rgb24_encoded_pixel(v, o, k, x, c),
        PixelEncodingModel::Indexed8 { color_table } => lemma_indexed8_encoded_pixel(v, o, color_table, k, x, c),
        PixelEncodingModel::AutoIndexed8OrRgb24 => {
            let d = distinct_entries(v.pixels(), (v.width * v.height) as nat);
            if d.len() > 256 {
                lemma_rgb24_encoded_pixel(v, o, k, x, c);
            } else {
                lemma_indexed8_encoded_pixel(v, o, d, k, x, c);
            }
        },
    }
    assert(encoded_pixel_law(v, o, view_to_bmp_spec(v, o)->Ok_0, k, x, c));
}

} // verus!
