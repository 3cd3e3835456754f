use vstd::prelude::*;
use vstd::utf8::{valid_utf8, decode_utf8, encode_utf8, encode_utf8_valid_utf8};

use crate::codecs::netpbm::{
    bad_max_value, exceeds_max, le16, swap_pairs, append_swapped_pairs, normalized_bytes,
    normalize_samples, images_result, writes, view_check, validate_image_view, packed_image_data,
    lemma_checked_view, lemma_normalized_full_range, scaled_to_full_range, lemma_normalized_bytes_scaled,
};
use crate::image::{Image, ImageModel, ImageView, PixelFormat, image_result, new_image_spec};
use crate::error::ImageError;
use crate::text::{
    is_ascii_space, trim, trim_ascii_whitespace, contains_ascii_whitespace, is_utf8, utf8_text,
    parse_u32, parse_u32_spec, bytes_equal, append_bytes, decimal, push_decimal, trim_start, trim_end,
    all_digits, is_digit, lemma_decimal_digits, lemma_parse_decimal, lemma_ascii_valid_utf8,
};

verus! {

/// A PAM image with its native header fields and samples.
#[derive(Clone, Debug, Eq, PartialEq)]
pub struct PamImage {
    pub width: u32,
    pub height: u32,
    pub depth: u32,
    pub maxval: u16,
    pub tuple_type: Option<PamTupleType>,
    pub data: Vec<u8>,
}

/// The `TUPLTYPE` of a PAM image.
#[derive(Clone, Debug, Eq, PartialEq)]
pub enum PamTupleType {
    BlackAndWhite,
    Grayscale,
    Rgb,
    BlackAndWhiteAlpha,
    GrayscaleAlpha,
    RgbAlpha,
    Other(String),
}

/// The tuple types that an image view can be encoded as.
#[derive(Clone, Copy, Debug, Eq, PartialEq, Structural)]
pub enum PamEncodeTupleType {
    BlackAndWhite,
    Grayscale,
    Rgb,
    BlackAndWhiteAlpha,
    GrayscaleAlpha,
    RgbAlpha,
}

/// The mathematical value of a `PamTupleType`.
pub enum PamTupleModel {
    BlackAndWhite,
    Grayscale,
    Rgb,
    BlackAndWhiteAlpha,
    GrayscaleAlpha,
    RgbAlpha,
    Other(Seq<char>),
}

impl View for PamTupleType {
    type V = PamTupleModel;

    open spec fn view(&self) -> PamTupleModel {
        match self {
            PamTupleType::BlackAndWhite => PamTupleModel::BlackAndWhite,
            PamTupleType::Grayscale => PamTupleModel::Grayscale,
            PamTupleType::Rgb => PamTupleModel::Rgb,
            PamTupleType::BlackAndWhiteAlpha => PamTupleModel::BlackAndWhiteAlpha,
            PamTupleType::GrayscaleAlpha => PamTupleModel::GrayscaleAlpha,
            PamTupleType::RgbAlpha => PamTupleModel::RgbAlpha,
            PamTupleType::Other(s) => PamTupleModel::Other(s@),
        }
    }
}

/// The mathematical value of a `PamImage`.
pub struct PamModel {
    pub width: u32,
    pub height: u32,
    pub depth: u32,
    pub maxval: u16,
    pub tuple_type: Option<PamTupleModel>,
    pub data: Seq<u8>,
}

pub open spec fn tuple_option(t: Option<PamTupleType>) -> Option<PamTupleModel> {
    match t {
        Some(t) => Some(t@),
        None => None,
    }
}

impl View for PamImage {
    type V = PamModel;

    open spec fn view(&self) -> PamModel {
        PamModel {
            width: self.width,
            height: self.height,
            depth: self.depth,
            maxval: self.maxval,
            tuple_type: tuple_option(self.tuple_type),
            data: self.data@,
        }
    }
}

/// A result holding a PAM image, seen through its model.
pub open spec fn pam_result(r: Result<PamImage, ImageError>) -> Result<PamModel, ImageError> {
    match r {
        Ok(image) => Ok(image@),
        Err(e) => Err(e),
    }
}

/// A result holding PAM images, seen through their models.
pub open spec fn pams_result(r: Result<Vec<PamImage>, ImageError>) -> Result<Seq<PamModel>, ImageError> {
    match r {
        Ok(images) => Ok(images@.map_values(|i: PamImage| i@)),
        Err(e) => Err(e),
    }
}

// ---------------------------------------------------------------------------
// Header lines.
// ---------------------------------------------------------------------------

/// The first line feed at or after `p`, or the end of the input.
pub open spec fn line_feed_at(d: Seq<u8>, p: int) -> int
    decreases d.len() - p,
{
    if p >= d.len() || d[p] == 0x0a {
        p
    } else {
        line_feed_at(d, p + 1)
    }
}

/// The header line that starts at `p`, line feed included, as its start and
/// end, and the position after it.
pub open spec fn scan_line(d: Seq<u8>, p: int) -> (Result<(int, int), ImageError>, int) {
    if p >= d.len() {
        (Err(ImageError::InvalidHeader { reason: "unexpected end of header" }), p)
    } else if line_feed_at(d, p) >= d.len() {
        (Err(ImageError::InvalidHeader { reason: "PAM header line is not newline terminated" }), d.len() as int)
    } else {
        (Ok((p, line_feed_at(d, p) + 1)), line_feed_at(d, p) + 1)
    }
}

pub proof fn lemma_line_feed_bounds(d: Seq<u8>, p: int)
    requires
        0 <= p,
    ensures
        p <= line_feed_at(d, p),
        p < d.len() ==> line_feed_at(d, p) <= d.len(),
        line_feed_at(d, p) < d.len() ==> d[line_feed_at(d, p)] == 0x0a,
    decreases d.len() - p,
{
    if p < d.len() && d[p] != 0x0a {
        lemma_line_feed_bounds(d, p + 1);
    }
}

/// Reads the header line at `position`, line feed included.
pub fn read_line<'a>(data: &'a [u8], position: &mut usize) -> (res: Result<&'a [u8], ImageError>)
    ensures
        *final(position) == scan_line(data@, *old(position) as int).1,
        match scan_line(data@, *old(position) as int).0 {
            Ok((s, e)) => res is Ok && res.unwrap()@ == data@.subrange(s, e),
            Err(e) => res == Err::<&[u8], _>(e),
        },
{
    if *position >= data.len() {
        return Err(ImageError::InvalidHeader { reason: "unexpected end of header" });
    }
    let start = *position;
    proof {
        lemma_line_feed_bounds(data@, start as int);
    }
    while *position < data.len() && data[*position] != 0x0a
        invariant
            start <= *position <= data.len(),
            line_feed_at(data@, *position as int) == line_feed_at(data@, start as int),
        decreases data.len() - *position,
    {
        *position = *position + 1;
    }
    if *position >= data.len() {
        return Err(ImageError::InvalidHeader {
            reason: "PAM header line is not newline terminated",
        });
    }
    *position = *position + 1;
    Ok(&data[start..*position])
}

/// A line without one trailing line feed, then without one trailing
/// carriage return.
pub open spec fn trim_line_end_spec(line: Seq<u8>) -> Seq<u8> {
    let a = if line.len() > 0 && line.last() == 0x0a {
        line.drop_last()
    } else {
        line
    };
    if a.len() > 0 && a.last() == 0x0d {
        a.drop_last()
    } else {
        a
    }
}

/// Removes one trailing line feed, then one trailing carriage return.
pub fn trim_line_end(line: &[u8]) -> (r: &[u8])
    ensures
        r@ == trim_line_end_spec(line@),
{
    let mut end = line.len();
    if end > 0 && line[end - 1] == 0x0a {
        end = end - 1;
    }
    if end > 0 && line[end - 1] == 0x0d {
        end = end - 1;
    }
    let r = &line[0..end];
    assert(r@ =~= trim_line_end_spec(line@));
    r
}

/// The first token of a line (up to the first ASCII whitespace) and what
/// follows that whitespace byte.
pub open spec fn token_len(line: Seq<u8>, i: int) -> int
    decreases line.len() - i,
{
    if i >= line.len() || is_ascii_space(line[i]) {
        i
    } else {
        token_len(line, i + 1)
    }
}

pub open spec fn split_first_token_spec(line: Seq<u8>) -> (Seq<u8>, Seq<u8>) {
    let i = token_len(line, 0);
    (line.take(i), if i < line.len() {
        line.skip(i + 1)
    } else {
        Seq::empty()
    })
}

pub proof fn lemma_token_len_bounds(line: Seq<u8>, i: int)
    requires
        0 <= i <= line.len(),
    ensures
        i <= token_len(line, i) <= line.len(),
    decreases line.len() - i,
{
    if i < line.len() && !is_ascii_space(line[i]) {
        lemma_token_len_bounds(line, i + 1);
    }
}

/// Splits a line into its first token and the rest after one whitespace byte.
pub fn split_first_token(line: &[u8]) -> (r: (&[u8], &[u8]))
    ensures
        (r.0@, r.1@) == split_first_token_spec(line@),
{
    let mut index: usize = 0;
    proof {
        lemma_token_len_bounds(line@, 0);
    }
    while index < line.len() && !is_ascii_whitespace_byte(line[index])
        invariant
            index <= line.len(),
            token_len(line@, index as int) == token_len(line@, 0),
        decreases line.len() - index,
    {
        index = index + 1;
    }
    let rest: &[u8] = if index < line.len() {
        &line[index + 1..line.len()]
    } else {
        &[]
    };
    assert(rest@ =~= split_first_token_spec(line@).1);
    (&line[0..index], rest)
}

fn is_ascii_whitespace_byte(byte: u8) -> (r: bool)
    ensures
        r == is_ascii_space(byte),
{
    crate::text::is_ascii_whitespace(byte)
}


// ---------------------------------------------------------------------------
// Keywords.
// ---------------------------------------------------------------------------

/// The bytes of `WIDTH`.
pub open spec fn width_key() -> Seq<u8> {
    seq![0x57u8, 0x49u8, 0x44u8, 0x54u8, 0x48u8]
}

/// The bytes of `WIDTH`, as an array.
pub fn width_key_bytes() -> (r: [u8; 5])
    ensures
        r@ == width_key(),
{
    let r: [u8; 5] = [0x57, 0x49, 0x44, 0x54, 0x48];
    assert(r@ =~= width_key());
    r
}

/// The bytes of `HEIGHT`.
pub open spec fn height_key() -> Seq<u8> {
    seq![0x48u8, 0x45u8, 0x49u8, 0x47u8, 0x48u8, 0x54u8]
}

/// The bytes of `HEIGHT`, as an array.
pub fn height_key_bytes() -> (r: [u8; 6])
    ensures
        r@ == height_key(),
{
    let r: [u8; 6] = [0x48, 0x45, 0x49, 0x47, 0x48, 0x54];
    assert(r@ =~= height_key());
    r
}

/// The bytes of `DEPTH`.
pub open spec fn depth_key() -> Seq<u8> {
    seq![0x44u8, 0x45u8, 0x50u8, 0x54u8, 0x48u8]
}

/// The bytes of `DEPTH`, as an array.
pub fn depth_key_bytes() -> (r: [u8; 5])
    ensures
        r@ == depth_key(),
{
    let r: [u8; 5] = [0x44, 0x45, 0x50, 0x54, 0x48];
    assert(r@ =~= depth_key());
    r
}

/// The bytes of `MAXVAL`.
pub open spec fn maxval_key() -> Seq<u8> {
    seq![0x4du8, 0x41u8, 0x58u8, 0x56u8, 0x41u8, 0x4cu8]
}

/// The bytes of `MAXVAL`, as an array.
pub fn maxval_key_bytes() -> (r: [u8; 6])
    ensures
        r@ == maxval_key(),
{
    let r: [u8; 6] = [0x4d, 0x41, 0x58, 0x56, 0x41, 0x4c];
    assert(r@ =~= maxval_key());
    r
}

/// The bytes of `TUPLTYPE`.
pub open spec fn tupltype_key() -> Seq<u8> {
    seq![0x54u8, 0x55u8, 0x50u8, 0x4cu8, 0x54u8, 0x59u8, 0x50u8, 0x45u8]
}

/// The bytes of `TUPLTYPE`, as an array.
pub fn tupltype_key_bytes() -> (r: [u8; 8])
    ensures
        r@ == tupltype_key(),
{
    let r: [u8; 8] = [0x54, 0x55, 0x50, 0x4c, 0x54, 0x59, 0x50, 0x45];
    assert(r@ =~= tupltype_key());
    r
}

/// The bytes of `ENDHDR`.
pub open spec fn endhdr_key() -> Seq<u8> {
    seq![0x45u8, 0x4eu8, 0x44u8, 0x48u8, 0x44u8, 0x52u8]
}

/// The bytes of `ENDHDR`, as an array.
pub fn endhdr_key_bytes() -> (r: [u8; 6])
    ensures
        r@ == endhdr_key(),
{
    let r: [u8; 6] = [0x45, 0x4e, 0x44, 0x48, 0x44, 0x52];
    assert(r@ =~= endhdr_key());
    r
}

/// The bytes of `P7`.
pub open spec fn magic_p7() -> Seq<u8> {
    seq![0x50u8, 0x37u8]
}

/// The bytes of `P7`, as an array.
pub fn magic_p7_bytes() -> (r: [u8; 2])
    ensures
        r@ == magic_p7(),
{
    let r: [u8; 2] = [0x50, 0x37];
    assert(r@ =~= magic_p7());
    r
}

/// The bytes of `BLACKANDWHITE`.
pub open spec fn bw_name() -> Seq<u8> {
    seq![0x42u8, 0x4cu8, 0x41u8, 0x43u8, 0x4bu8, 0x41u8, 0x4eu8, 0x44u8, 0x57u8, 0x48u8, 0x49u8, 0x54u8, 0x45u8]
}

/// The bytes of `BLACKANDWHITE`, as an array.
pub fn bw_name_bytes() -> (r: [u8; 13])
    ensures
        r@ == bw_name(),
{
    let r: [u8; 13] = [0x42, 0x4c, 0x41, 0x43, 0x4b, 0x41, 0x4e, 0x44, 0x57, 0x48, 0x49, 0x54, 0x45];
    assert(r@ =~= bw_name());
    r
}

/// The bytes of `GRAYSCALE`.
pub open spec fn gray_name() -> Seq<u8> {
    seq![0x47u8, 0x52u8, 0x41u8, 0x59u8, 0x53u8, 0x43u8, 0x41u8, 0x4cu8, 0x45u8]
}

/// The bytes of `GRAYSCALE`, as an array.
pub fn gray_name_bytes() -> (r: [u8; 9])
    ensures
        r@ == gray_name(),
{
    let r: [u8; 9] = [0x47, 0x52, 0x41, 0x59, 0x53, 0x43, 0x41, 0x4c, 0x45];
    assert(r@ =~= gray_name());
    r
}

/// The bytes of `RGB`.
pub open spec fn rgb_name() -> Seq<u8> {
    seq![0x52u8, 0x47u8, 0x42u8]
}

/// The bytes of `RGB`, as an array.
pub fn rgb_name_bytes() -> (r: [u8; 3])
    ensures
        r@ == rgb_name(),
{
    let r: [u8; 3] = [0x52, 0x47, 0x42];
    assert(r@ =~= rgb_name());
    r
}

/// The bytes of `BLACKANDWHITE_ALPHA`.
pub open spec fn bwa_name() -> Seq<u8> {
    seq![0x42u8, 0x4cu8, 0x41u8, 0x43u8, 0x4bu8, 0x41u8, 0x4eu8, 0x44u8, 0x57u8, 0x48u8, 0x49u8, 0x54u8, 0x45u8, 0x5fu8, 0x41u8, 0x4cu8, 0x50u8, 0x48u8, 0x41u8]
}

/// The bytes of `BLACKANDWHITE_ALPHA`, as an array.
pub fn bwa_name_bytes() -> (r: [u8; 19])
    ensures
        r@ == bwa_name(),
{
    let r: [u8; 19] = [0x42, 0x4c, 0x41, 0x43, 0x4b, 0x41, 0x4e, 0x44, 0x57, 0x48, 0x49, 0x54, 0x45, 0x5f, 0x41, 0x4c, 0x50, 0x48, 0x41];
    assert(r@ =~= bwa_name());
    r
}

/// The bytes of `GRAYSCALE_ALPHA`.
pub open spec fn graya_name() -> Seq<u8> {
    seq![0x47u8, 0x52u8, 0x41u8, 0x59u8, 0x53u8, 0x43u8, 0x41u8, 0x4cu8, 0x45u8, 0x5fu8, 0x41u8, 0x4cu8, 0x50u8, 0x48u8, 0x41u8]
}

/// The bytes of `GRAYSCALE_ALPHA`, as an array.
pub fn graya_name_bytes() -> (r: [u8; 15])
    ensures
        r@ == graya_name(),
{
    let r: [u8; 15] = [0x47, 0x52, 0x41, 0x59, 0x53, 0x43, 0x41, 0x4c, 0x45, 0x5f, 0x41, 0x4c, 0x50, 0x48, 0x41];
    assert(r@ =~= graya_name());
    r
}

/// The bytes of `RGB_ALPHA`.
pub open spec fn rgba_name() -> Seq<u8> {
    seq![0x52u8, 0x47u8, 0x42u8, 0x5fu8, 0x41u8, 0x4cu8, 0x50u8, 0x48u8, 0x41u8]
}

/// The bytes of `RGB_ALPHA`, as an array.
pub fn rgba_name_bytes() -> (r: [u8; 9])
    ensures
        r@ == rgba_name(),
{
    let r: [u8; 9] = [0x52, 0x47, 0x42, 0x5f, 0x41, 0x4c, 0x50, 0x48, 0x41];
    assert(r@ =~= rgba_name());
    r
}

// ---------------------------------------------------------------------------
// Header fields.
// ---------------------------------------------------------------------------

/// Header fields read so far; `tuple_type` holds the `TUPLTYPE` values read
/// so far, joined by single spaces.
pub struct PamHeader {
    pub width: Option<u32>,
    pub height: Option<u32>,
    pub depth: Option<u32>,
    pub maxval: Option<u16>,
    pub tuple_type: Option<Vec<u8>>,
}

/// The mathematical value of a `PamHeader`.
pub struct PamHeaderModel {
    pub width: Option<u32>,
    pub height: Option<u32>,
    pub depth: Option<u32>,
    pub maxval: Option<u16>,
    pub tuple_type: Option<Seq<u8>>,
}

impl View for PamHeader {
    type V = PamHeaderModel;

    open spec fn view(&self) -> PamHeaderModel {
        PamHeaderModel {
            width: self.width,
            height: self.height,
            depth: self.depth,
            maxval: self.maxval,
            tuple_type: match self.tuple_type {
                Some(v) => Some(v@),
                None => None,
            },
        }
    }
}

pub open spec fn empty_header() -> PamHeaderModel {
    PamHeaderModel { width: None, height: None, depth: None, maxval: None, tuple_type: None }
}

/// What a numeric header value stands for.
pub open spec fn header_u32(data: Seq<u8>, name: &'static str) -> Result<u32, ImageError> {
    let t = trim(data);
    if exists|i: int| 0 <= i < t.len() && is_ascii_space(t[i]) {
        Err(ImageError::InvalidHeader { reason: name })
    } else if !valid_utf8(t) {
        Err(ImageError::InvalidHeader { reason: "header contains non-UTF-8 token" })
    } else {
        match parse_u32_spec(t) {
            Some(v) => Ok(v),
            None => Err(ImageError::InvalidHeader { reason: name }),
        }
    }
}

/// Parses a numeric header value; `name` is the reason reported when it is
/// not one.
pub fn parse_u32_token(data: &[u8], name: &'static str) -> (res: Result<u32, ImageError>)
    ensures
        res == header_u32(data@, name),
{
    let data = trim_ascii_whitespace(data);
    if contains_ascii_whitespace(data) {
        return Err(ImageError::InvalidHeader { reason: name });
    }
    if !is_utf8(data) {
        return Err(ImageError::InvalidHeader { reason: "header contains non-UTF-8 token" });
    }
    match parse_u32(data) {
        Some(v) => Ok(v),
        None => Err(ImageError::InvalidHeader { reason: name }),
    }
}

pub open spec fn duplicate_field() -> ImageError {
    ImageError::InvalidHeader { reason: "duplicate PAM header field" }
}

/// The header after one more field line.
pub open spec fn parse_line_spec(line: Seq<u8>, h: PamHeaderModel) -> Result<PamHeaderModel, ImageError> {
    let (key, rest) = split_first_token_spec(line);
    if key == width_key() {
        if h.width is Some {
            Err(duplicate_field())
        } else {
            match header_u32(rest, "width") {
                Ok(v) => Ok(PamHeaderModel { width: Some(v), ..h }),
                Err(e) => Err(e),
            }
        }
    } else if key == height_key() {
        if h.height is Some {
            Err(duplicate_field())
        } else {
            match header_u32(rest, "height") {
                Ok(v) => Ok(PamHeaderModel { height: Some(v), ..h }),
                Err(e) => Err(e),
            }
        }
    } else if key == depth_key() {
        if h.depth is Some {
            Err(duplicate_field())
        } else {
            match header_u32(rest, "depth") {
                Ok(v) => Ok(PamHeaderModel { depth: Some(v), ..h }),
                Err(e) => Err(e),
            }
        }
    } else if key == maxval_key() {
        if h.maxval is Some {
            Err(duplicate_field())
        } else {
            match header_u32(rest, "max value") {
                Ok(v) => if 1 <= v <= 65535 {
                    Ok(PamHeaderModel { maxval: Some(v as u16), ..h })
                } else {
                    Err(bad_max_value())
                },
                Err(e) => Err(e),
            }
        }
    } else if key == tupltype_key() {
        let value = trim(rest);
        if value.len() == 0 {
            Err(ImageError::InvalidHeader { reason: "missing TUPLTYPE value" })
        } else if !valid_utf8(value) {
            Err(ImageError::InvalidHeader { reason: "header contains non-UTF-8 tuple type" })
        } else {
            Ok(
                PamHeaderModel {
                    tuple_type: Some(
                        match h.tuple_type {
                            Some(p) => p + seq![0x20u8] + value,
                            None => value,
                        },
                    ),
                    ..h
                },
            )
        }
    } else {
        Err(ImageError::InvalidHeader { reason: "unknown PAM header field" })
    }
}

/// Parses one header field line into the header.
pub fn parse_header_line(line: &[u8], header: &mut PamHeader) -> (res: Result<(), ImageError>)
    ensures
        match parse_line_spec(line@, old(header)@) {
            Ok(h) => res is Ok && final(header)@ == h,
            Err(e) => res == Err::<(), _>(e),
        },
{
    let (key, rest) = split_first_token(line);
    if bytes_equal(key, &width_key_bytes()) {
        if header.width.is_some() {
            return Err(ImageError::InvalidHeader { reason: "duplicate PAM header field" });
        }
        match parse_u32_token(rest, "width") {
            Ok(v) => header.width = Some(v),
            Err(e) => return Err(e),
        }
    } else if bytes_equal(key, &height_key_bytes()) {
        if header.height.is_some() {
            return Err(ImageError::InvalidHeader { reason: "duplicate PAM header field" });
        }
        match parse_u32_token(rest, "height") {
            Ok(v) => header.height = Some(v),
            Err(e) => return Err(e),
        }
    } else if bytes_equal(key, &depth_key_bytes()) {
        if header.depth.is_some() {
            return Err(ImageError::InvalidHeader { reason: "duplicate PAM header field" });
        }
        match parse_u32_token(rest, "depth") {
            Ok(v) => header.depth = Some(v),
            Err(e) => return Err(e),
        }
    } else if bytes_equal(key, &maxval_key_bytes()) {
        if header.maxval.is_some() {
            return Err(ImageError::InvalidHeader { reason: "duplicate PAM header field" });
        }
        let maxval = match parse_u32_token(rest, "max value") {
            Ok(v) => v,
            Err(e) => return Err(e),
        };
        if !(1 <= maxval && maxval <= 65535) {
            return Err(ImageError::InvalidHeader { reason: "max value must be between 1 and 65535" });
        }
        header.maxval = Some(maxval as u16);
    } else if bytes_equal(key, &tupltype_key_bytes()) {
        let value = trim_ascii_whitespace(rest);
        if value.len() == 0 {
            return Err(ImageError::InvalidHeader { reason: "missing TUPLTYPE value" });
        }
        if !is_utf8(value) {
            return Err(ImageError::InvalidHeader { reason: "header contains non-UTF-8 tuple type" });
        }
        let mut joined: Vec<u8> = Vec::new();
        match &header.tuple_type {
            Some(previous) => {
                append_bytes(&mut joined, previous.as_slice());
                joined.push(0x20);
            },
            None => {},
        }
        append_bytes(&mut joined, value);
        assert(joined@ =~= match old(header)@.tuple_type {
            Some(p) => p + seq![0x20u8] + value@,
            None => value@,
        });
        header.tuple_type = Some(joined);
    } else {
        return Err(ImageError::InvalidHeader { reason: "unknown PAM header field" });
    }
    Ok(())
}


// ---------------------------------------------------------------------------
// The whole header.
// ---------------------------------------------------------------------------

/// The header fields after the lines from `p` on, up to `ENDHDR`, and the
/// position after that line.
pub open spec fn header_lines(d: Seq<u8>, p: int, h: PamHeaderModel) -> (Result<PamHeaderModel, ImageError>, int)
    decreases d.len() - p,
{
    if p < 0 || p >= d.len() {
        (Err(ImageError::InvalidHeader { reason: "missing ENDHDR" }), p)
    } else {
        let (r, q) = scan_line(d, p);
        match r {
            Err(e) => (Err(e), q),
            Ok((s, e)) => if q <= p || q > d.len() {
                (Err(ImageError::InvalidHeader { reason: "missing ENDHDR" }), q)
            } else {
                let t = trim(trim_line_end_spec(d.subrange(s, e)));
                if t.len() == 0 || t[0] == 0x23 {
                    header_lines(d, q, h)
                } else if t == endhdr_key() {
                    (Ok(h), q)
                } else {
                    match parse_line_spec(t, h) {
                        Err(e) => (Err(e), q),
                        Ok(h2) => header_lines(d, q, h2),
                    }
                }
            },
        }
    }
}

/// The tuple type that a `TUPLTYPE` value names.
pub open spec fn tuple_from_bytes(v: Seq<u8>) -> Result<PamTupleModel, ImageError> {
    if v == bw_name() {
        Ok(PamTupleModel::BlackAndWhite)
    } else if v == gray_name() {
        Ok(PamTupleModel::Grayscale)
    } else if v == rgb_name() {
        Ok(PamTupleModel::Rgb)
    } else if v == bwa_name() {
        Ok(PamTupleModel::BlackAndWhiteAlpha)
    } else if v == graya_name() {
        Ok(PamTupleModel::GrayscaleAlpha)
    } else if v == rgba_name() {
        Ok(PamTupleModel::RgbAlpha)
    } else if valid_utf8(v) {
        Ok(PamTupleModel::Other(decode_utf8(v)))
    } else {
        Err(ImageError::InvalidHeader { reason: "header contains non-UTF-8 tuple type" })
    }
}

/// Names the tuple type of a `TUPLTYPE` value.
pub fn tuple_type_from_header_value(value: &[u8]) -> (res: Result<PamTupleType, ImageError>)
    ensures
        match res {
            Ok(t) => tuple_from_bytes(value@) == Ok::<PamTupleModel, ImageError>(t@),
            Err(e) => tuple_from_bytes(value@) == Err::<PamTupleModel, _>(e),
        },
{
    if bytes_equal(value, &bw_name_bytes()) {
        Ok(PamTupleType::BlackAndWhite)
    } else if bytes_equal(value, &gray_name_bytes()) {
        Ok(PamTupleType::Grayscale)
    } else if bytes_equal(value, &rgb_name_bytes()) {
        Ok(PamTupleType::Rgb)
    } else if bytes_equal(value, &bwa_name_bytes()) {
        Ok(PamTupleType::BlackAndWhiteAlpha)
    } else if bytes_equal(value, &graya_name_bytes()) {
        Ok(PamTupleType::GrayscaleAlpha)
    } else if bytes_equal(value, &rgba_name_bytes()) {
        Ok(PamTupleType::RgbAlpha)
    } else {
        match utf8_text(value) {
            Some(text) => Ok(PamTupleType::Other(text)),
            None => Err(ImageError::InvalidHeader { reason: "header contains non-UTF-8 tuple type" }),
        }
    }
}

/// The fields of a complete header.
pub struct CompletePamHeader {
    pub width: u32,
    pub height: u32,
    pub depth: u32,
    pub maxval: u16,
    pub tuple_type: Option<PamTupleType>,
}

/// The mathematical value of a `CompletePamHeader`.
pub struct CompleteHeaderModel {
    pub width: u32,
    pub height: u32,
    pub depth: u32,
    pub maxval: u16,
    pub tuple_type: Option<PamTupleModel>,
}

impl View for CompletePamHeader {
    type V = CompleteHeaderModel;

    open spec fn view(&self) -> CompleteHeaderModel {
        CompleteHeaderModel {
            width: self.width,
            height: self.height,
            depth: self.depth,
            maxval: self.maxval,
            tuple_type: tuple_option(self.tuple_type),
        }
    }
}

/// The complete header made of the fields read, or what is missing.
pub open spec fn complete_header(h: PamHeaderModel) -> Result<CompleteHeaderModel, ImageError> {
    if h.width is None {
        Err(ImageError::InvalidHeader { reason: "missing WIDTH" })
    } else if h.height is None {
        Err(ImageError::InvalidHeader { reason: "missing HEIGHT" })
    } else if h.depth is None {
        Err(ImageError::InvalidHeader { reason: "missing DEPTH" })
    } else if h.maxval is None {
        Err(ImageError::InvalidHeader { reason: "missing MAXVAL" })
    } else if h.width.unwrap() == 0 || h.height.unwrap() == 0 || h.depth.unwrap() == 0 {
        Err(ImageError::InvalidHeader { reason: "width, height, and depth must be greater than zero" })
    } else {
        match h.tuple_type {
            None => Ok(
                CompleteHeaderModel {
                    width: h.width.unwrap(),
                    height: h.height.unwrap(),
                    depth: h.depth.unwrap(),
                    maxval: h.maxval.unwrap(),
                    tuple_type: None,
                },
            ),
            Some(v) => match tuple_from_bytes(v) {
                Err(e) => Err(e),
                Ok(t) => Ok(
                    CompleteHeaderModel {
                        width: h.width.unwrap(),
                        height: h.height.unwrap(),
                        depth: h.depth.unwrap(),
                        maxval: h.maxval.unwrap(),
                        tuple_type: Some(t),
                    },
                ),
            },
        }
    }
}

/// The header that starts at `p`, and the position after its `ENDHDR` line.
pub open spec fn read_header_spec(d: Seq<u8>, p: int) -> (Result<CompleteHeaderModel, ImageError>, int) {
    let (r, q) = scan_line(d, p);
    match r {
        Err(e) => (Err(e), q),
        Ok((s, e)) => if trim_line_end_spec(d.subrange(s, e)) != magic_p7() {
            (Err(ImageError::UnsupportedFormat), q)
        } else {
            finish_header(header_lines(d, q, empty_header()))
        },
    }
}

/// The complete header after the field lines were read.
pub open spec fn finish_header(r: (Result<PamHeaderModel, ImageError>, int)) -> (Result<
    CompleteHeaderModel,
    ImageError,
>, int) {
    match r.0 {
        Err(e) => (Err(e), r.1),
        Ok(h) => (complete_header(h), r.1),
    }
}

/// Reads a PAM header: the `P7` line, then field lines up to `ENDHDR`.
pub fn read_header(data: &[u8], position: &mut usize) -> (res: Result<CompletePamHeader, ImageError>)
    ensures
        match read_header_spec(data@, *old(position) as int) {
            (Ok(h), q) => res is Ok && res.unwrap()@ == h && *final(position) == q,
            (Err(e), _) => res == Err::<CompletePamHeader, _>(e),
        },
{
    let ghost d = data@;
    let ghost p0 = *position as int;
    let magic = match read_line(data, position) {
        Ok(line) => line,
        Err(e) => return Err(e),
    };
    if !bytes_equal(trim_line_end(magic), &magic_p7_bytes()) {
        return Err(ImageError::UnsupportedFormat);
    }
    let ghost start = *position as int;
    let mut header = PamHeader { width: None, height: None, depth: None, maxval: None, tuple_type: None };
    assert(header@ == empty_header());
    let mut done = false;
    while !done
        invariant
            d == data@,
            p0 == *old(position) as int,
            read_header_spec(d, p0) == finish_header(header_lines(d, start, empty_header())),
            done ==> header_lines(d, start, empty_header()) == (Ok::<PamHeaderModel, ImageError>(header@), *position as int),
            !done ==> header_lines(d, *position as int, header@) == header_lines(d, start, empty_header()),
        decreases d.len() - *position, if done { 0int } else { 1int },
    {
        let ghost p = *position as int;
        if *position >= data.len() {
            return Err(ImageError::InvalidHeader { reason: "missing ENDHDR" });
        }
        proof {
            lemma_line_feed_bounds(d, p);
        }
        let line = match read_line(data, position) {
            Ok(line) => trim_line_end(line),
            Err(e) => return Err(e),
        };
        let trimmed = trim_ascii_whitespace(line);
        if trimmed.len() == 0 || trimmed[0] == 0x23 {
        } else if bytes_equal(trimmed, &endhdr_key_bytes()) {
            done = true;
        } else {
            match parse_header_line(trimmed, &mut header) {
                Ok(()) => {},
                Err(e) => return Err(e),
            }
        }
    }
    let width = match header.width {
        Some(v) => v,
        None => return Err(ImageError::InvalidHeader { reason: "missing WIDTH" }),
    };
    let height = match header.height {
        Some(v) => v,
        None => return Err(ImageError::InvalidHeader { reason: "missing HEIGHT" }),
    };
    let depth = match header.depth {
        Some(v) => v,
        None => return Err(ImageError::InvalidHeader { reason: "missing DEPTH" }),
    };
    let maxval = match header.maxval {
        Some(v) => v,
        None => return Err(ImageError::InvalidHeader { reason: "missing MAXVAL" }),
    };
    if width == 0 || height == 0 || depth == 0 {
        return Err(ImageError::InvalidHeader {
            reason: "width, height, and depth must be greater than zero",
        });
    }
    let tuple_type = match &header.tuple_type {
        None => None,
        Some(v) => match tuple_type_from_header_value(v.as_slice()) {
            Ok(t) => Some(t),
            Err(e) => return Err(e),
        },
    };
    Ok(CompletePamHeader { width, height, depth, maxval, tuple_type })
}


// ---------------------------------------------------------------------------
// Rasters and checks.
// ---------------------------------------------------------------------------

pub open spec fn sample_bytes(maxval: u16) -> int {
    if maxval < 256 {
        1
    } else {
        2
    }
}

/// Bytes of a raster with these fields, or the error that it does not fit.
pub open spec fn pam_raster_len_spec(width: u32, height: u32, depth: u32, maxval: u16) -> Result<
    int,
    ImageError,
> {
    let bps = sample_bytes(maxval);
    let bpt = depth * bps;
    if bpt > usize::MAX {
        Err(ImageError::ImageDimensionsTooLarge { width: 0, height: 0, bytes_per_pixel: bps as usize })
    } else if width * height > usize::MAX || width * height * bpt > usize::MAX {
        Err(ImageError::ImageDimensionsTooLarge { width, height, bytes_per_pixel: bpt as usize })
    } else {
        Ok(width * height * bpt)
    }
}

/// Bytes of one tuple: depth samples of one or two bytes.
pub fn bytes_per_tuple(depth: u32, maxval: u16) -> (res: Result<usize, ImageError>)
    ensures
        match res {
            Ok(n) => n == depth * sample_bytes(maxval),
            Err(e) => depth * sample_bytes(maxval) > usize::MAX && e
                == ImageError::ImageDimensionsTooLarge {
                width: 0,
                height: 0,
                bytes_per_pixel: sample_bytes(maxval) as usize,
            },
        },
{
    let bps: usize = if maxval < 256 {
        1
    } else {
        2
    };
    match (depth as usize).checked_mul(bps) {
        Some(n) => Ok(n),
        None => Err(ImageError::ImageDimensionsTooLarge { width: 0, height: 0, bytes_per_pixel: bps }),
    }
}

/// Returns the number of bytes of a raster with these fields.
pub fn pam_raster_len(width: u32, height: u32, depth: u32, maxval: u16) -> (res: Result<usize, ImageError>)
    ensures
        match res {
            Ok(n) => pam_raster_len_spec(width, height, depth, maxval) == Ok::<int, ImageError>(n as int),
            Err(e) => pam_raster_len_spec(width, height, depth, maxval) == Err::<int, _>(e),
        },
{
    let bpt = match bytes_per_tuple(depth, maxval) {
        Ok(n) => n,
        Err(e) => return Err(e),
    };
    let pixels = match (width as usize).checked_mul(height as usize) {
        Some(n) => n,
        None => return Err(ImageError::ImageDimensionsTooLarge { width, height, bytes_per_pixel: bpt }),
    };
    match pixels.checked_mul(bpt) {
        Some(n) => Ok(n),
        None => Err(ImageError::ImageDimensionsTooLarge { width, height, bytes_per_pixel: bpt }),
    }
}

/// The `k`-th big-endian 16-bit value of a byte sequence.
pub open spec fn be16(d: Seq<u8>, k: int) -> u16 {
    (d[2 * k] * 256 + d[2 * k + 1]) as u16
}

pub open spec fn any_byte_above(d: Seq<u8>, maxval: u16) -> bool {
    exists|i: int| 0 <= i < d.len() && d[i] > maxval
}

pub open spec fn any_le16_above(d: Seq<u8>, maxval: u16) -> bool {
    exists|k: int| 0 <= k < d.len() / 2 && le16(d, k) > maxval
}

pub open spec fn any_be16_above(d: Seq<u8>, maxval: u16) -> bool {
    exists|k: int| 0 <= k < d.len() / 2 && be16(d, k) > maxval
}

/// Rejects 8-bit samples above the maximum.
pub fn validate_8_bit_samples(data: &[u8], maxval: u16) -> (res: Result<(), ImageError>)
    ensures
        res is Ok <==> !any_byte_above(data@, maxval),
        res is Err ==> res == Err::<(), _>(exceeds_max()),
{
    let mut i: usize = 0;
    while i < data.len()
        invariant
            i <= data.len(),
            forall|j: int| 0 <= j < i ==> data@[j] <= maxval,
        decreases data.len() - i,
    {
        if data[i] as u16 > maxval {
            assert(data@[i as int] > maxval);
            return Err(ImageError::InvalidData { reason: "sample value exceeds max value" });
        }
        i = i + 1;
    }
    Ok(())
}

/// Rejects little-endian 16-bit samples above the maximum.
pub fn validate_16_bit_samples(data: &[u8], maxval: u16) -> (res: Result<(), ImageError>)
    ensures
        res is Ok <==> !any_le16_above(data@, maxval),
        res is Err ==> res == Err::<(), _>(exceeds_max()),
{
    let pairs = data.len() / 2;
    let mut k: usize = 0;
    while k < pairs
        invariant
            pairs == data@.len() / 2,
            k <= pairs,
            forall|j: int| 0 <= j < k ==> le16(data@, j) <= maxval,
        decreases pairs - k,
    {
        assert(2 * k + 1 < data.len());
        let sample = (data[2 * k] as u16) + (data[2 * k + 1] as u16) * 256;
        assert(sample == le16(data@, k as int));
        if sample > maxval {
            return Err(ImageError::InvalidData { reason: "sample value exceeds max value" });
        }
        k = k + 1;
    }
    Ok(())
}

/// Converts big-endian 16-bit samples into little-endian bytes, rejecting
/// samples above the maximum.
pub fn be_samples_to_le_bytes(data: &[u8], maxval: u16) -> (res: Result<Vec<u8>, ImageError>)
    ensures
        match res {
            Ok(out) => !any_be16_above(data@, maxval) && out@ == swap_pairs(data@),
            Err(e) => any_be16_above(data@, maxval) && e == exceeds_max(),
        },
{
    let pairs = data.len() / 2;
    let mut k: usize = 0;
    while k < pairs
        invariant
            pairs == data@.len() / 2,
            k <= pairs,
            forall|j: int| 0 <= j < k ==> be16(data@, j) <= maxval,
        decreases pairs - k,
    {
        assert(2 * k + 1 < data.len());
        let sample = (data[2 * k] as u16) * 256 + (data[2 * k + 1] as u16);
        assert(sample == be16(data@, k as int));
        if sample > maxval {
            return Err(ImageError::InvalidData { reason: "sample value exceeds max value" });
        }
        k = k + 1;
    }
    let mut out: Vec<u8> = Vec::new();
    append_swapped_pairs(&mut out, data);
    assert(out@ =~= swap_pairs(data@));
    Ok(out)
}

/// The check that a tuple type fits the depth and maximum: `None` when it
/// does, else the error.
pub open spec fn tuple_shape_check(depth: u32, maxval: u16, tuple_type: Option<PamTupleModel>) -> Option<
    ImageError,
> {
    match tuple_type {
        None => None,
        Some(t) => match t {
            PamTupleModel::Other(_) => None,
            _ => {
                if t is BlackAndWhite && maxval != 1 {
                    Some(ImageError::InvalidHeader { reason: "BLACKANDWHITE PAM requires maxval 1" })
                } else if t is BlackAndWhiteAlpha && maxval != 1 {
                    Some(ImageError::InvalidHeader { reason: "BLACKANDWHITE_ALPHA PAM requires maxval 1" })
                } else if depth != tuple_depth(t) {
                    Some(ImageError::InvalidHeader { reason: "PAM tuple type does not match depth" })
                } else {
                    None
                }
            },
        },
    }
}

/// The depth that a known tuple type has.
pub open spec fn tuple_depth(t: PamTupleModel) -> u32 {
    match t {
        PamTupleModel::BlackAndWhite => 1,
        PamTupleModel::Grayscale => 1,
        PamTupleModel::BlackAndWhiteAlpha => 2,
        PamTupleModel::GrayscaleAlpha => 2,
        PamTupleModel::Rgb => 3,
        PamTupleModel::RgbAlpha => 4,
        PamTupleModel::Other(_) => 0,
    }
}

/// Checks that a tuple type fits the depth and maximum.
pub fn validate_tuple_type_shape(depth: u32, maxval: u16, tuple_type: &Option<PamTupleType>) -> (res:
    Result<(), ImageError>)
    ensures
        match tuple_shape_check(depth, maxval, tuple_option(*tuple_type)) {
            Some(e) => res == Err::<(), _>(e),
            None => res is Ok,
        },
{
    let expected: u32 = match tuple_type {
        None => return Ok(()),
        Some(PamTupleType::BlackAndWhite) => {
            if maxval != 1 {
                return Err(ImageError::InvalidHeader { reason: "BLACKANDWHITE PAM requires maxval 1" });
            }
            1
        },
        Some(PamTupleType::BlackAndWhiteAlpha) => {
            if maxval != 1 {
                return Err(ImageError::InvalidHeader {
                    reason: "BLACKANDWHITE_ALPHA PAM requires maxval 1",
                });
            }
            2
        },
        Some(PamTupleType::Grayscale) => 1,
        Some(PamTupleType::GrayscaleAlpha) => 2,
        Some(PamTupleType::Rgb) => 3,
        Some(PamTupleType::RgbAlpha) => 4,
        Some(PamTupleType::Other(_)) => return Ok(()),
    };
    if depth != expected {
        return Err(ImageError::InvalidHeader { reason: "PAM tuple type does not match depth" });
    }
    Ok(())
}

/// The checks made of a native PAM image before it is written or converted:
/// `None` when it is sound, else the error.
pub open spec fn pam_check(m: PamModel) -> Option<ImageError> {
    if m.width == 0 || m.height == 0 || m.depth == 0 {
        Some(ImageError::InvalidData { reason: "width, height, and depth must be greater than zero" })
    } else if m.maxval == 0 {
        Some(bad_max_value())
    } else if tuple_shape_check(m.depth, m.maxval, m.tuple_type) is Some {
        tuple_shape_check(m.depth, m.maxval, m.tuple_type)
    } else {
        match pam_raster_len_spec(m.width, m.height, m.depth, m.maxval) {
            Err(e) => Some(e),
            Ok(n) => if m.data.len() != n {
                Some(ImageError::InvalidBufferLength { expected: n as usize, actual: m.data.len() as usize })
            } else if m.maxval < 256 && any_byte_above(m.data, m.maxval) {
                Some(exceeds_max())
            } else if m.maxval >= 256 && any_le16_above(m.data, m.maxval) {
                Some(exceeds_max())
            } else {
                None
            },
        }
    }
}

/// Checks the fields of a native PAM image.
pub fn validate_pam_image(image: &PamImage) -> (res: Result<(), ImageError>)
    ensures
        match pam_check(image@) {
            Some(e) => res == Err::<(), _>(e),
            None => res is Ok,
        },
{
    if image.width == 0 || image.height == 0 || image.depth == 0 {
        return Err(ImageError::InvalidData {
            reason: "width, height, and depth must be greater than zero",
        });
    }
    if image.maxval == 0 {
        return Err(ImageError::InvalidHeader { reason: "max value must be between 1 and 65535" });
    }
    match validate_tuple_type_shape(image.depth, image.maxval, &image.tuple_type) {
        Ok(()) => {},
        Err(e) => return Err(e),
    }
    let expected = match pam_raster_len(image.width, image.height, image.depth, image.maxval) {
        Ok(n) => n,
        Err(e) => return Err(e),
    };
    if image.data.len() != expected {
        return Err(ImageError::InvalidBufferLength { expected, actual: image.data.len() });
    }
    if image.maxval < 256 {
        validate_8_bit_samples(image.data.as_slice(), image.maxval)
    } else {
        validate_16_bit_samples(image.data.as_slice(), image.maxval)
    }
}

// ---------------------------------------------------------------------------
// Decoding.
// ---------------------------------------------------------------------------

/// One PAM image that starts at `p`, and the position after it.
pub open spec fn decode_one_spec(d: Seq<u8>, p: int) -> (Result<PamModel, ImageError>, int) {
    let (hr, q) = read_header_spec(d, p);
    match hr {
        Err(e) => (Err(e), q),
        Ok(h) => match pam_raster_len_spec(h.width, h.height, h.depth, h.maxval) {
            Err(e) => (Err(e), q),
            Ok(n) => if q + n > usize::MAX {
                (
                    Err(
                        ImageError::ImageDimensionsTooLarge {
                            width: h.width,
                            height: h.height,
                            bytes_per_pixel: (h.depth * sample_bytes(h.maxval)) as usize,
                        },
                    ),
                    q,
                )
            } else if q + n > d.len() {
                (
                    Err(
                        ImageError::InvalidBufferLength {
                            expected: n as usize,
                            actual: (if d.len() > q {
                                d.len() - q
                            } else {
                                0
                            }) as usize,
                        },
                    ),
                    q,
                )
            } else {
                let raster = d.subrange(q, q + n);
                if h.maxval < 256 && any_byte_above(raster, h.maxval) {
                    (Err(exceeds_max()), q)
                } else if h.maxval >= 256 && any_be16_above(raster, h.maxval) {
                    (Err(exceeds_max()), q)
                } else {
                    let m = PamModel {
                        width: h.width,
                        height: h.height,
                        depth: h.depth,
                        maxval: h.maxval,
                        tuple_type: h.tuple_type,
                        data: if h.maxval < 256 {
                            raster
                        } else {
                            swap_pairs(raster)
                        },
                    };
                    match tuple_shape_check(h.depth, h.maxval, h.tuple_type) {
                        Some(e) => (Err(e), q + n),
                        None => (Ok(m), q + n),
                    }
                }
            },
        },
    }
}

/// Decodes the PAM image at `position` and moves past it.
pub fn decode_one_native(data: &[u8], position: &mut usize) -> (res: Result<PamImage, ImageError>)
    ensures
        match decode_one_spec(data@, *old(position) as int) {
            (Ok(m), q) => res is Ok && res.unwrap()@ == m && *final(position) == q,
            (Err(e), _) => res == Err::<PamImage, _>(e),
        },
{
    let header = match read_header(data, position) {
        Ok(h) => h,
        Err(e) => return Err(e),
    };
    let raster_len = match pam_raster_len(header.width, header.height, header.depth, header.maxval) {
        Ok(n) => n,
        Err(e) => return Err(e),
    };
    let raster_start = *position;
    let raster_end = match raster_start.checked_add(raster_len) {
        Some(n) => n,
        None => {
            let bpt = match bytes_per_tuple(header.depth, header.maxval) {
                Ok(n) => n,
                Err(e) => return Err(e),
            };
            return Err(ImageError::ImageDimensionsTooLarge {
                width: header.width,
                height: header.height,
                bytes_per_pixel: bpt,
            });
        },
    };
    if raster_end > data.len() {
        return Err(ImageError::InvalidBufferLength {
            expected: raster_len,
            actual: data.len().saturating_sub(raster_start),
        });
    }
    let raster = &data[raster_start..raster_end];
    let samples = if header.maxval < 256 {
        match validate_8_bit_samples(raster, header.maxval) {
            Ok(()) => {},
            Err(e) => return Err(e),
        }
        let mut v: Vec<u8> = Vec::new();
        append_bytes(&mut v, raster);
        assert(v@ =~= raster@);
        v
    } else {
        match be_samples_to_le_bytes(raster, header.maxval) {
            Ok(v) => v,
            Err(e) => return Err(e),
        }
    };
    *position = raster_end;
    let image = PamImage {
        width: header.width,
        height: header.height,
        depth: header.depth,
        maxval: header.maxval,
        tuple_type: header.tuple_type,
        data: samples,
    };
    match validate_tuple_type_shape(image.depth, image.maxval, &image.tuple_type) {
        Ok(()) => {},
        Err(e) => return Err(e),
    }
    Ok(image)
}


/// Reading header lines never moves backwards.
pub proof fn lemma_header_lines_progress(d: Seq<u8>, p: int, h: PamHeaderModel)
    requires
        p >= 0,
    ensures
        header_lines(d, p, h).1 >= p,
    decreases d.len() - p,
{
    if p < d.len() {
        lemma_line_feed_bounds(d, p);
        let (r, q) = scan_line(d, p);
        if let Ok((s, e)) = r {
            if !(q <= p || q > d.len()) {
                let t = trim(trim_line_end_spec(d.subrange(s, e)));
                if t.len() == 0 || t[0] == 0x23 {
                    lemma_header_lines_progress(d, q, h);
                } else if t != endhdr_key() {
                    if let Ok(h2) = parse_line_spec(t, h) {
                        lemma_header_lines_progress(d, q, h2);
                    }
                }
            }
        }
    }
}

/// A decoded image ends after where the scan began and inside the input.
pub proof fn lemma_decode_one_progress(d: Seq<u8>, p: int)
    requires
        p >= 0,
    ensures
        decode_one_spec(d, p).0 is Ok ==> p < decode_one_spec(d, p).1 <= d.len(),
{
    lemma_line_feed_bounds(d, p);
    let (r, q) = scan_line(d, p);
    if r is Ok {
        lemma_header_lines_progress(d, q, empty_header());
    }
}

/// The images of a PAM stream from `p` on.
pub open spec fn pam_stream(d: Seq<u8>, p: int) -> Result<Seq<PamModel>, ImageError>
    decreases d.len() - p,
{
    if p >= d.len() {
        Ok(Seq::empty())
    } else {
        let (r, q) = decode_one_spec(d, p);
        match r {
            Err(e) => Err(e),
            Ok(m) => if q <= p || q > d.len() {
                Err(ImageError::UnsupportedFormat)
            } else {
                match pam_stream(d, q) {
                    Ok(rest) => Ok(seq![m] + rest),
                    Err(e) => Err(e),
                }
            },
        }
    }
}

/// The one PAM image that the input holds.
pub open spec fn pam_single(d: Seq<u8>) -> Result<PamModel, ImageError> {
    let (r, q) = decode_one_spec(d, 0);
    match r {
        Err(e) => Err(e),
        Ok(m) => if q < d.len() {
            Err(ImageError::InvalidData { reason: "too many images" })
        } else {
            Ok(m)
        },
    }
}

/// Decodes a single PAM image; more data after it is refused.
pub fn decode_native(data: &[u8]) -> (res: Result<PamImage, ImageError>)
    ensures
        pam_result(res) == pam_single(data@),
{
    let mut position: usize = 0;
    let image = match decode_one_native(data, &mut position) {
        Ok(image) => image,
        Err(e) => return Err(e),
    };
    if has_more_data(data, position) {
        return Err(ImageError::InvalidData { reason: "too many images" });
    }
    Ok(image)
}

/// Whether input remains after `position`.
pub fn has_more_data(data: &[u8], position: usize) -> (r: bool)
    ensures
        r == (position < data@.len()),
{
    position < data.len()
}

pub open spec fn prepend_pams(done: Seq<PamModel>, rest: Result<Seq<PamModel>, ImageError>) -> Result<
    Seq<PamModel>,
    ImageError,
> {
    match rest {
        Ok(r) => Ok(done + r),
        Err(e) => Err(e),
    }
}

/// Decodes every PAM image of a multi-image stream.
pub fn decode_all_native(data: &[u8]) -> (res: Result<Vec<PamImage>, ImageError>)
    ensures
        pams_result(res) == pam_stream(data@, 0),
{
    let mut position: usize = 0;
    let mut images: Vec<PamImage> = Vec::new();
    let ghost d = data@;
    assert(images@.map_values(|i: PamImage| i@) =~= Seq::<PamModel>::empty());
    assert(Seq::<PamModel>::empty() + pam_stream(d, 0).unwrap() =~= pam_stream(d, 0).unwrap());
    while has_more_data(data, position)
        invariant
            d == data@,
            prepend_pams(images@.map_values(|i: PamImage| i@), pam_stream(d, position as int))
                == pam_stream(d, 0),
        decreases d.len() - position,
    {
        proof {
            lemma_decode_one_progress(d, position as int);
        }
        let image = match decode_one_native(data, &mut position) {
            Ok(image) => image,
            Err(e) => return Err(e),
        };
        let ghost before = images@.map_values(|i: PamImage| i@);
        images.push(image);
        assert(images@.map_values(|i: PamImage| i@) =~= before + seq![image@]);
        proof {
            match pam_stream(d, position as int) {
                Ok(rest) => {
                    assert(before + seq![image@] + rest =~= before + (seq![image@] + rest));
                },
                Err(e) => {},
            }
        }
    }
    assert(images@.map_values(|i: PamImage| i@) + Seq::<PamModel>::empty() =~= images@.map_values(
        |i: PamImage| i@,
    ));
    Ok(images)
}

// ---------------------------------------------------------------------------
// Conversion to the generic image.
// ---------------------------------------------------------------------------

/// Black-and-white samples as `Gray8`: 0 stays 0, anything else is 255.
pub open spec fn bw_gray(d: Seq<u8>) -> Seq<u8> {
    Seq::new(
        d.len(),
        |i: int|
            if d[i] == 0 {
                0u8
            } else {
                255u8
            },
    )
}

/// The generic image of a native PAM image of a known tuple type.
pub open spec fn pam_image_spec(m: PamModel) -> Result<ImageModel, ImageError> {
    match pam_check(m) {
        Some(e) => Err(e),
        None => {
            let wide = m.maxval >= 256;
            let scaled = normalized_bytes(m.data, m.maxval);
            match m.tuple_type {
                Some(PamTupleModel::BlackAndWhite) => new_image_spec(
                    m.width,
                    m.height,
                    PixelFormat::Gray8,
                    bw_gray(m.data),
                ),
                Some(PamTupleModel::BlackAndWhiteAlpha) => new_image_spec(
                    m.width,
                    m.height,
                    PixelFormat::GrayAlpha8,
                    bw_gray(m.data),
                ),
                Some(PamTupleModel::Grayscale) => new_image_spec(
                    m.width,
                    m.height,
                    if wide {
                        PixelFormat::Gray16
                    } else {
                        PixelFormat::Gray8
                    },
                    scaled,
                ),
                Some(PamTupleModel::GrayscaleAlpha) => new_image_spec(
                    m.width,
                    m.height,
                    if wide {
                        PixelFormat::GrayAlpha16
                    } else {
                        PixelFormat::GrayAlpha8
                    },
                    scaled,
                ),
                Some(PamTupleModel::Rgb) => new_image_spec(
                    m.width,
                    m.height,
                    if wide {
                        PixelFormat::Rgb16
                    } else {
                        PixelFormat::Rgb8
                    },
                    scaled,
                ),
                Some(PamTupleModel::RgbAlpha) => new_image_spec(
                    m.width,
                    m.height,
                    if wide {
                        PixelFormat::Rgba16
                    } else {
                        PixelFormat::Rgba8
                    },
                    scaled,
                ),
                _ => Err(ImageError::UnsupportedFormat),
            }
        },
    }
}

/// Maps black-and-white samples to `Gray8`.
pub fn black_and_white_to_gray(data: &[u8]) -> (out: Vec<u8>)
    ensures
        out@ == bw_gray(data@),
{
    let mut out: Vec<u8> = Vec::new();
    let mut i: usize = 0;
    while i < data.len()
        invariant
            i <= data.len(),
            out@.len() == i,
            forall|j: int| 0 <= j < i ==> out@[j] == bw_gray(data@)[j],
        decreases data.len() - i,
    {
        out.push(
            if data[i] == 0 {
                0
            } else {
                255
            },
        );
        i = i + 1;
    }
    assert(out@ =~= bw_gray(data@));
    out
}

/// Converts a native PAM image into the generic normalized image buffer.
pub fn pam_image_to_image(image: &PamImage) -> (res: Result<Image, ImageError>)
    ensures
        image_result(res) == pam_image_spec(image@),
{
    match validate_pam_image(image) {
        Ok(()) => {},
        Err(e) => return Err(e),
    }
    let wide = image.maxval >= 256;
    let pixel_format = match &image.tuple_type {
        Some(PamTupleType::BlackAndWhite) => {
            return Image::new(
                image.width,
                image.height,
                PixelFormat::Gray8,
                black_and_white_to_gray(image.data.as_slice()),
            );
        },
        Some(PamTupleType::BlackAndWhiteAlpha) => {
            return Image::new(
                image.width,
                image.height,
                PixelFormat::GrayAlpha8,
                black_and_white_to_gray(image.data.as_slice()),
            );
        },
        Some(PamTupleType::Grayscale) => if wide {
            PixelFormat::Gray16
        } else {
            PixelFormat::Gray8
        },
        Some(PamTupleType::GrayscaleAlpha) => if wide {
            PixelFormat::GrayAlpha16
        } else {
            PixelFormat::GrayAlpha8
        },
        Some(PamTupleType::Rgb) => if wide {
            PixelFormat::Rgb16
        } else {
            PixelFormat::Rgb8
        },
        Some(PamTupleType::RgbAlpha) => if wide {
            PixelFormat::Rgba16
        } else {
            PixelFormat::Rgba8
        },
        _ => return Err(ImageError::UnsupportedFormat),
    };
    Image::new(image.width, image.height, pixel_format, normalize_samples(image.data.as_slice(), image.maxval))
}

impl PamImage {
    /// Converts this native image into the generic normalized image buffer.
    pub fn to_image(&self) -> (res: Result<Image, ImageError>)
        ensures
            image_result(res) == pam_image_spec(self@),
    {
        pam_image_to_image(self)
    }
}

/// A decoded native result, converted to the generic image.
pub open spec fn pam_to_image_spec(r: Result<PamModel, ImageError>) -> Result<ImageModel, ImageError> {
    match r {
        Ok(m) => pam_image_spec(m),
        Err(e) => Err(e),
    }
}

/// Decodes a single PAM image into the generic normalized image buffer.
pub fn decode(data: &[u8]) -> (res: Result<Image, ImageError>)
    ensures
        image_result(res) == pam_to_image_spec(pam_single(data@)),
{
    match decode_native(data) {
        Ok(image) => pam_image_to_image(&image),
        Err(e) => Err(e),
    }
}

/// The generic images of native PAM images, or the first failure.
pub open spec fn pam_images_of(ms: Seq<PamModel>) -> Result<Seq<ImageModel>, ImageError>
    decreases ms.len(),
{
    if ms.len() == 0 {
        Ok(Seq::empty())
    } else {
        match pam_images_of(ms.drop_last()) {
            Err(e) => Err(e),
            Ok(out) => match pam_image_spec(ms.last()) {
                Err(e) => Err(e),
                Ok(m) => Ok(out.push(m)),
            },
        }
    }
}

pub proof fn lemma_pam_images_error_persists(ms: Seq<PamModel>, i: nat)
    requires
        i <= ms.len(),
        pam_images_of(ms.take(i as int)) is Err,
    ensures
        pam_images_of(ms) == pam_images_of(ms.take(i as int)),
    decreases ms.len() - i,
{
    if i < ms.len() {
        assert(ms.take(i as int + 1).drop_last() =~= ms.take(i as int));
        lemma_pam_images_error_persists(ms, i + 1);
    } else {
        assert(ms.take(i as int) =~= ms);
    }
}

/// Converting native PAM images gives, in order, the conversion of each one
/// when all of them convert, and otherwise the failure of the first one that
/// does not.
pub proof fn lemma_pam_images_of(ms: Seq<PamModel>)
    ensures
        (forall|i: int| 0 <= i < ms.len() ==> (#[trigger] pam_image_spec(ms[i])) is Ok) ==> {
            &&& pam_images_of(ms) is Ok
            &&& pam_images_of(ms)->Ok_0.len() == ms.len()
            &&& forall|i: int|
                0 <= i < ms.len() ==> pam_images_of(ms)->Ok_0[i] == (#[trigger] pam_image_spec(
                    ms[i],
                ))->Ok_0
        },
        forall|k: int|
            0 <= k < ms.len() && (#[trigger] pam_image_spec(ms[k])) is Err && (forall|j: int|
                0 <= j < k ==> (#[trigger] pam_image_spec(ms[j])) is Ok) ==> pam_images_of(ms)
                == Err::<Seq<ImageModel>, ImageError>(pam_image_spec(ms[k])->Err_0),
    decreases ms.len(),
{
    if ms.len() > 0 {
        let p = ms.drop_last();
        let n = ms.len() - 1;
        lemma_pam_images_of(p);
        assert forall|i: int| 0 <= i < p.len() implies p[i] == ms[i] by {}
        if forall|i: int| 0 <= i < ms.len() ==> (#[trigger] pam_image_spec(ms[i])) is Ok {
            assert forall|i: int| 0 <= i < p.len() implies (#[trigger] pam_image_spec(p[i])) is Ok by {
                assert(pam_image_spec(ms[i]) is Ok);
            }
            assert(pam_image_spec(ms[n]) is Ok);
        }
        assert forall|k: int|
            0 <= k < ms.len() && (#[trigger] pam_image_spec(ms[k])) is Err && (forall|j: int|
                0 <= j < k ==> (#[trigger] pam_image_spec(ms[j])) is Ok) implies pam_images_of(ms)
            == Err::<Seq<ImageModel>, ImageError>(pam_image_spec(ms[k])->Err_0) by {
            if k < n {
                assert(p[k] == ms[k]);
                assert forall|j: int| 0 <= j < k implies (#[trigger] pam_image_spec(p[j])) is Ok by {
                    assert(p[j] == ms[j]);
                    assert(pam_image_spec(ms[j]) is Ok);
                }
            } else {
                assert forall|i: int| 0 <= i < p.len() implies (#[trigger] pam_image_spec(p[i]))
                    is Ok by {
                    assert(p[i] == ms[i]);
                    assert(pam_image_spec(ms[i]) is Ok);
                }
            }
        }
    }
}

/// Decoded native results, converted to generic images.
pub open spec fn pam_to_images_spec(r: Result<Seq<PamModel>, ImageError>) -> Result<Seq<ImageModel>, ImageError> {
    match r {
        Ok(ms) => pam_images_of(ms),
        Err(e) => Err(e),
    }
}

/// Decodes every PAM image of a multi-image stream into generic images.
pub fn decode_all(data: &[u8]) -> (res: Result<Vec<Image>, ImageError>)
    ensures
        images_result(res) == pam_to_images_spec(pam_stream(data@, 0)),
{
    let natives = match decode_all_native(data) {
        Ok(n) => n,
        Err(e) => return Err(e),
    };
    let ghost models = natives@.map_values(|i: PamImage| i@);
    let ghost d = data@;
    let mut out: Vec<Image> = Vec::new();
    let mut i: usize = 0;
    assert(models.take(0) =~= Seq::<PamModel>::empty());
    assert(out@.map_values(|i: Image| i@) =~= Seq::<ImageModel>::empty());
    while i < natives.len()
        invariant
            i <= natives@.len(),
            models == natives@.map_values(|i: PamImage| i@),
            d == data@,
            pam_stream(d, 0) == Ok::<Seq<PamModel>, ImageError>(models),
            pam_images_of(models.take(i as int)) == Ok::<Seq<ImageModel>, ImageError>(
                out@.map_values(|i: Image| i@),
            ),
        decreases natives@.len() - i,
    {
        assert(models.take(i as int + 1).drop_last() =~= models.take(i as int));
        match pam_image_to_image(&natives[i]) {
            Ok(converted) => {
                let ghost before = out@.map_values(|i: Image| i@);
                out.push(converted);
                assert(out@.map_values(|i: Image| i@) =~= before.push(converted@));
            },
            Err(e) => {
                proof {
                    lemma_pam_images_error_persists(models, (i + 1) as nat);
                    assert(models[i as int] == natives@[i as int]@);
                }
                return Err(e);
            },
        }
        i = i + 1;
    }
    assert(models.take(natives@.len() as int) =~= models);
    Ok(out)
}


// ---------------------------------------------------------------------------
// Encoding.
// ---------------------------------------------------------------------------

/// The `TUPLTYPE` value written for a tuple type.
pub open spec fn tuple_name(t: PamTupleModel) -> Seq<u8> {
    match t {
        PamTupleModel::BlackAndWhite => bw_name(),
        PamTupleModel::Grayscale => gray_name(),
        PamTupleModel::Rgb => rgb_name(),
        PamTupleModel::BlackAndWhiteAlpha => bwa_name(),
        PamTupleModel::GrayscaleAlpha => graya_name(),
        PamTupleModel::RgbAlpha => rgba_name(),
        PamTupleModel::Other(s) => encode_utf8(s),
    }
}

/// A header line: a keyword, a space, a value and a line feed.
pub open spec fn field_line(key: Seq<u8>, value: Seq<u8>) -> Seq<u8> {
    key.push(0x20) + value.push(0x0a)
}

/// The `TUPLTYPE` line of a header, if the image has a tuple type.
pub open spec fn tuple_line(t: Option<PamTupleModel>) -> Seq<u8> {
    match t {
        Some(t) => field_line(tupltype_key(), tuple_name(t)),
        None => Seq::empty(),
    }
}

/// The header written for a PAM image.
pub open spec fn pam_header_bytes(m: PamModel) -> Seq<u8> {
    magic_p7().push(0x0a) + field_line(width_key(), decimal(m.width as nat)) + field_line(
        height_key(),
        decimal(m.height as nat),
    ) + field_line(depth_key(), decimal(m.depth as nat)) + field_line(
        maxval_key(),
        decimal(m.maxval as nat),
    ) + tuple_line(m.tuple_type) + endhdr_key().push(0x0a)
}

/// The raster written for a PAM image: bytes as they are, or 16-bit samples
/// turned big-endian.
pub open spec fn pam_raster_bytes(m: PamModel) -> Seq<u8> {
    if m.maxval < 256 {
        m.data
    } else {
        swap_pairs(m.data)
    }
}

/// The bytes of a PAM file for an image.
pub open spec fn pam_file_bytes(m: PamModel) -> Seq<u8> {
    pam_header_bytes(m) + pam_raster_bytes(m)
}

/// The encoding of a native PAM image, or the error that refuses it.
pub open spec fn encode_pam_spec(m: PamModel) -> Result<Seq<u8>, ImageError> {
    match pam_check(m) {
        Some(e) => Err(e),
        None => Ok(pam_file_bytes(m)),
    }
}

/// Writes a keyword, a space, a number and a line feed.
fn write_field_line(writer: &mut Vec<u8>, key: &[u8], value: u32)
    ensures
        final(writer)@ == old(writer)@ + field_line(key@, decimal(value as nat)),
{
    append_bytes(writer, key);
    writer.push(0x20);
    push_decimal(writer, value);
    writer.push(0x0a);
    assert(writer@ =~= old(writer)@ + field_line(key@, decimal(value as nat)));
}

/// Writes the `TUPLTYPE` value of a tuple type.
fn write_tuple_name(writer: &mut Vec<u8>, t: &PamTupleType)
    ensures
        final(writer)@ == old(writer)@ + tuple_name(t@),
{
    match t {
        PamTupleType::BlackAndWhite => append_bytes(writer, &bw_name_bytes()),
        PamTupleType::Grayscale => append_bytes(writer, &gray_name_bytes()),
        PamTupleType::Rgb => append_bytes(writer, &rgb_name_bytes()),
        PamTupleType::BlackAndWhiteAlpha => append_bytes(writer, &bwa_name_bytes()),
        PamTupleType::GrayscaleAlpha => append_bytes(writer, &graya_name_bytes()),
        PamTupleType::RgbAlpha => append_bytes(writer, &rgba_name_bytes()),
        PamTupleType::Other(s) => append_bytes(writer, s.as_str().as_bytes()),
    }
}

/// Writes the header of a PAM image.
pub fn write_pam_header(writer: &mut Vec<u8>, image: &PamImage)
    ensures
        final(writer)@ == old(writer)@ + pam_header_bytes(image@),
{
    append_bytes(writer, &magic_p7_bytes());
    writer.push(0x0a);
    write_field_line(writer, &width_key_bytes(), image.width);
    write_field_line(writer, &height_key_bytes(), image.height);
    write_field_line(writer, &depth_key_bytes(), image.depth);
    write_field_line(writer, &maxval_key_bytes(), image.maxval as u32);
    let ghost before_tuple = writer@;
    match &image.tuple_type {
        Some(t) => {
            append_bytes(writer, &tupltype_key_bytes());
            writer.push(0x20);
            write_tuple_name(writer, t);
            writer.push(0x0a);
            assert(writer@ =~= before_tuple + tuple_line(image@.tuple_type));
        },
        None => {
            assert(writer@ =~= before_tuple + tuple_line(image@.tuple_type));
        },
    }
    append_bytes(writer, &endhdr_key_bytes());
    writer.push(0x0a);
    assert(writer@ =~= old(writer)@ + pam_header_bytes(image@));
}

/// Checks a native PAM image and writes it.
pub fn encode_native(writer: &mut Vec<u8>, image: &PamImage) -> (res: Result<(), ImageError>)
    ensures
        writes(res, old(writer)@, final(writer)@, encode_pam_spec(image@)),
{
    match validate_pam_image(image) {
        Ok(()) => {},
        Err(e) => return Err(e),
    }
    write_pam_header(writer, image);
    if image.maxval < 256 {
        append_bytes(writer, image.data.as_slice());
    } else {
        append_swapped_pairs(writer, image.data.as_slice());
    }
    assert(writer@ =~= old(writer)@ + pam_file_bytes(image@));
    Ok(())
}

/// The first refusal among native images, in order.
pub open spec fn pam_checks(ms: Seq<PamModel>) -> Option<ImageError>
    decreases ms.len(),
{
    if ms.len() == 0 {
        None
    } else {
        match pam_checks(ms.drop_last()) {
            Some(e) => Some(e),
            None => pam_check(ms.last()),
        }
    }
}

/// The PAM files of images, one after another.
pub open spec fn pam_files(ms: Seq<PamModel>) -> Seq<u8>
    decreases ms.len(),
{
    if ms.len() == 0 {
        Seq::empty()
    } else {
        pam_files(ms.drop_last()) + pam_file_bytes(ms.last())
    }
}

/// The encoding of a multi-image stream: every image is checked first, so a
/// refused image leaves nothing written.
pub open spec fn encode_all_pam_spec(ms: Seq<PamModel>) -> Result<Seq<u8>, ImageError> {
    match pam_checks(ms) {
        Some(e) => Err(e),
        None => Ok(pam_files(ms)),
    }
}

/// Once a prefix holds a refused image, the whole sequence is refused for it.
pub proof fn lemma_pam_checks_error_persists(ms: Seq<PamModel>, i: nat)
    requires
        i <= ms.len(),
        pam_checks(ms.take(i as int)) is Some,
    ensures
        pam_checks(ms) == pam_checks(ms.take(i as int)),
    decreases ms.len() - i,
{
    if i < ms.len() {
        assert(ms.take(i as int + 1).drop_last() =~= ms.take(i as int));
        lemma_pam_checks_error_persists(ms, i + 1);
    } else {
        assert(ms.take(i as int) =~= ms);
    }
}

/// When no image of a sequence is refused, none of them is.
pub proof fn lemma_pam_checks_each(ms: Seq<PamModel>, k: int)
    requires
        pam_checks(ms) is None,
        0 <= k < ms.len(),
    ensures
        pam_check(ms[k]) is None,
    decreases ms.len(),
{
    if k < ms.len() - 1 {
        assert(ms.drop_last()[k] == ms[k]);
        lemma_pam_checks_each(ms.drop_last(), k);
    }
}

/// Checks every native image, then writes them as a multi-image stream.
pub fn encode_all_native(writer: &mut Vec<u8>, images: &[PamImage]) -> (res: Result<(), ImageError>)
    ensures
        writes(
            res,
            old(writer)@,
            final(writer)@,
            encode_all_pam_spec(images@.map_values(|i: PamImage| i@)),
        ),
{
    let ghost models = images@.map_values(|i: PamImage| i@);
    let mut i: usize = 0;
    assert(models.take(0) =~= Seq::<PamModel>::empty());
    while i < images.len()
        invariant
            i <= images@.len(),
            models == images@.map_values(|i: PamImage| i@),
            pam_checks(models.take(i as int)) is None,
            writer@ == old(writer)@,
        decreases images@.len() - i,
    {
        assert(models.take(i as int + 1).drop_last() =~= models.take(i as int));
        assert(models[i as int] == images@[i as int]@);
        match validate_pam_image(&images[i]) {
            Ok(()) => {},
            Err(e) => {
                proof {
                    lemma_pam_checks_error_persists(models, (i + 1) as nat);
                }
                return Err(e);
            },
        }
        i = i + 1;
    }
    assert(models.take(images@.len() as int) =~= models);
    let mut j: usize = 0;
    while j < images.len()
        invariant
            j <= images@.len(),
            models == images@.map_values(|i: PamImage| i@),
            pam_checks(models) is None,
            writer@ == old(writer)@ + pam_files(models.take(j as int)),
        decreases images@.len() - j,
    {
        proof {
            lemma_pam_checks_each(models, j as int);
        }
        assert(models.take(j as int + 1).drop_last() =~= models.take(j as int));
        assert(models[j as int] == images@[j as int]@);
        match encode_native(writer, &images[j]) {
            Ok(()) => {},
            Err(e) => return Err(e),
        }
        j = j + 1;
        assert(writer@ =~= old(writer)@ + pam_files(models.take(j as int)));
    }
    assert(models.take(images@.len() as int) =~= models);
    Ok(())
}

/// Whether every sample is 0 or 255, as a black-and-white conversion needs.
pub open spec fn bw_samples_ok(px: Seq<u8>) -> bool {
    forall|i: int| 0 <= i < px.len() ==> px[i] == 0 || px[i] == 255
}

/// Black-and-white samples of 0 or 255 written as 0 or 1.
pub open spec fn bw_bits(px: Seq<u8>) -> Seq<u8> {
    Seq::new(
        px.len(),
        |i: int|
            if px[i] == 0 {
                0u8
            } else {
                1u8
            },
    )
}

/// The refusal of a black-and-white conversion of other samples.
pub open spec fn bw_conversion_error() -> ImageError {
    ImageError::InvalidData {
        reason: "black-and-white PAM conversion requires samples to be 0 or 255",
    }
}

/// Turns samples of 0 or 255 into black-and-white samples of 0 or 1.
pub fn black_and_white_samples(px: &[u8]) -> (res: Result<Vec<u8>, ImageError>)
    ensures
        match res {
            Ok(v) => bw_samples_ok(px@) && v@ == bw_bits(px@),
            Err(e) => !bw_samples_ok(px@) && e == bw_conversion_error(),
        },
{
    let mut out: Vec<u8> = Vec::new();
    let mut i: usize = 0;
    while i < px.len()
        invariant
            i <= px.len(),
            out@.len() == i,
            forall|k: int| 0 <= k < i ==> (px@[k] == 0 || px@[k] == 255) && out@[k] == bw_bits(px@)[k],
        decreases px.len() - i,
    {
        if px[i] == 0 {
            out.push(0);
        } else if px[i] == 255 {
            out.push(1);
        } else {
            return Err(ImageError::InvalidData {
                reason: "black-and-white PAM conversion requires samples to be 0 or 255",
            });
        }
        i = i + 1;
    }
    assert(out@ =~= bw_bits(px@));
    Ok(out)
}

/// A native PAM image of a view's dimensions.
pub open spec fn view_pam_model(
    image: ImageView<'_>,
    depth: u32,
    maxval: u16,
    t: PamTupleModel,
    data: Seq<u8>,
) -> PamModel {
    PamModel {
        width: image.width,
        height: image.height,
        depth,
        maxval,
        tuple_type: Some(t),
        data,
    }
}

/// The native PAM image that a view becomes under a tuple type.
pub open spec fn view_to_pam_spec(image: ImageView<'_>, t: PamEncodeTupleType) -> Result<PamModel, ImageError> {
    match view_check(image, image.pixel_format) {
        Some(e) => Err(e),
        None => {
            let pf = image.pixel_format;
            let px = image.pixels();
            let unsupported = ImageError::UnsupportedPixelFormat { pixel_format: pf };
            match t {
                PamEncodeTupleType::BlackAndWhite => if pf != PixelFormat::Gray8 {
                    Err(unsupported)
                } else if !bw_samples_ok(px) {
                    Err(bw_conversion_error())
                } else {
                    Ok(view_pam_model(image, 1, 1, PamTupleModel::BlackAndWhite, bw_bits(px)))
                },
                PamEncodeTupleType::Grayscale => if pf == PixelFormat::Gray8 {
                    Ok(view_pam_model(image, 1, 255, PamTupleModel::Grayscale, px))
                } else if pf == PixelFormat::Gray16 {
                    Ok(view_pam_model(image, 1, 65535, PamTupleModel::Grayscale, px))
                } else {
                    Err(unsupported)
                },
                PamEncodeTupleType::Rgb => if pf == PixelFormat::Rgb8 {
                    Ok(view_pam_model(image, 3, 255, PamTupleModel::Rgb, px))
                } else if pf == PixelFormat::Rgb16 {
                    Ok(view_pam_model(image, 3, 65535, PamTupleModel::Rgb, px))
                } else {
                    Err(unsupported)
                },
                PamEncodeTupleType::BlackAndWhiteAlpha => if pf != PixelFormat::GrayAlpha8 {
                    Err(unsupported)
                } else if !bw_samples_ok(px) {
                    Err(bw_conversion_error())
                } else {
                    Ok(view_pam_model(image, 2, 1, PamTupleModel::BlackAndWhiteAlpha, bw_bits(px)))
                },
                PamEncodeTupleType::GrayscaleAlpha => if pf == PixelFormat::GrayAlpha8 {
                    Ok(view_pam_model(image, 2, 255, PamTupleModel::GrayscaleAlpha, px))
                } else if pf == PixelFormat::GrayAlpha16 {
                    Ok(view_pam_model(image, 2, 65535, PamTupleModel::GrayscaleAlpha, px))
                } else {
                    Err(unsupported)
                },
                PamEncodeTupleType::RgbAlpha => if pf == PixelFormat::Rgba8 {
                    Ok(view_pam_model(image, 4, 255, PamTupleModel::RgbAlpha, px))
                } else if pf == PixelFormat::Rgba16 {
                    Ok(view_pam_model(image, 4, 65535, PamTupleModel::RgbAlpha, px))
                } else {
                    Err(unsupported)
                },
            }
        },
    }
}

/// Builds a native PAM image from a view's packed samples.
fn view_pam(image: ImageView<'_>, depth: u32, maxval: u16, t: PamTupleType, data: Vec<u8>) -> (p: PamImage)
    ensures
        p@ == view_pam_model(image, depth, maxval, t@, data@),
{
    PamImage { width: image.width, height: image.height, depth, maxval, tuple_type: Some(t), data }
}

/// Converts a view into a native PAM image of a tuple type.
pub fn image_view_to_pam_native(image: ImageView<'_>, tuple_type: PamEncodeTupleType) -> (res: Result<
    PamImage,
    ImageError,
>)
    ensures
        pam_result(res) == view_to_pam_spec(image, tuple_type),
{
    let view = match validate_image_view(image, image.pixel_format) {
        Ok(v) => v,
        Err(e) => return Err(e),
    };
    let pf = view.pixel_format;
    let unsupported = ImageError::UnsupportedPixelFormat { pixel_format: pf };
    match tuple_type {
        PamEncodeTupleType::BlackAndWhite => match pf {
            PixelFormat::Gray8 => match black_and_white_samples(packed_image_data(view).as_slice()) {
                Ok(bits) => Ok(view_pam(view, 1, 1, PamTupleType::BlackAndWhite, bits)),
                Err(e) => Err(e),
            },
            _ => Err(unsupported),
        },
        PamEncodeTupleType::Grayscale => match pf {
            PixelFormat::Gray8 => Ok(view_pam(view, 1, 255, PamTupleType::Grayscale, packed_image_data(view))),
            PixelFormat::Gray16 => Ok(view_pam(view, 1, 65535, PamTupleType::Grayscale, packed_image_data(view))),
            _ => Err(unsupported),
        },
        PamEncodeTupleType::Rgb => match pf {
            PixelFormat::Rgb8 => Ok(view_pam(view, 3, 255, PamTupleType::Rgb, packed_image_data(view))),
            PixelFormat::Rgb16 => Ok(view_pam(view, 3, 65535, PamTupleType::Rgb, packed_image_data(view))),
            _ => Err(unsupported),
        },
        PamEncodeTupleType::BlackAndWhiteAlpha => match pf {
            PixelFormat::GrayAlpha8 => match black_and_white_samples(packed_image_data(view).as_slice()) {
                Ok(bits) => Ok(view_pam(view, 2, 1, PamTupleType::BlackAndWhiteAlpha, bits)),
                Err(e) => Err(e),
            },
            _ => Err(unsupported),
        },
        PamEncodeTupleType::GrayscaleAlpha => match pf {
            PixelFormat::GrayAlpha8 => Ok(
                view_pam(view, 2, 255, PamTupleType::GrayscaleAlpha, packed_image_data(view)),
            ),
            PixelFormat::GrayAlpha16 => Ok(
                view_pam(view, 2, 65535, PamTupleType::GrayscaleAlpha, packed_image_data(view)),
            ),
            _ => Err(unsupported),
        },
        PamEncodeTupleType::RgbAlpha => match pf {
            PixelFormat::Rgba8 => Ok(view_pam(view, 4, 255, PamTupleType::RgbAlpha, packed_image_data(view))),
            PixelFormat::Rgba16 => Ok(
                view_pam(view, 4, 65535, PamTupleType::RgbAlpha, packed_image_data(view)),
            ),
            _ => Err(unsupported),
        },
    }
}

/// The encoding of a view under a tuple type.
pub open spec fn encode_view_pam_spec(image: ImageView<'_>, t: PamEncodeTupleType) -> Result<Seq<u8>, ImageError> {
    match view_to_pam_spec(image, t) {
        Err(e) => Err(e),
        Ok(m) => encode_pam_spec(m),
    }
}

/// Converts a view to a native PAM image of a tuple type and writes it.
pub fn encode(writer: &mut Vec<u8>, image: ImageView<'_>, tuple_type: PamEncodeTupleType) -> (res: Result<
    (),
    ImageError,
>)
    ensures
        writes(res, old(writer)@, final(writer)@, encode_view_pam_spec(image, tuple_type)),
{
    match image_view_to_pam_native(image, tuple_type) {
        Ok(native) => encode_native(writer, &native),
        Err(e) => Err(e),
    }
}

/// The native PAM images of views, or the first failure.
pub open spec fn pam_views(views: Seq<ImageView<'_>>, t: PamEncodeTupleType) -> Result<Seq<PamModel>, ImageError>
    decreases views.len(),
{
    if views.len() == 0 {
        Ok(Seq::empty())
    } else {
        match pam_views(views.drop_last(), t) {
            Err(e) => Err(e),
            Ok(ms) => match view_to_pam_spec(views.last(), t) {
                Err(e) => Err(e),
                Ok(m) => Ok(ms.push(m)),
            },
        }
    }
}

/// Once converting a prefix failed, converting the whole fails the same way.
pub proof fn lemma_pam_views_error_persists(views: Seq<ImageView<'_>>, t: PamEncodeTupleType, i: nat)
    requires
        i <= views.len(),
        pam_views(views.take(i as int), t) is Err,
    ensures
        pam_views(views, t) == pam_views(views.take(i as int), t),
    decreases views.len() - i,
{
    if i < views.len() {
        assert(views.take(i as int + 1).drop_last() =~= views.take(i as int));
        lemma_pam_views_error_persists(views, t, i + 1);
    } else {
        assert(views.take(i as int) =~= views);
    }
}

/// The encoding of views as a multi-image stream.
pub open spec fn encode_all_views_pam_spec(views: Seq<ImageView<'_>>, t: PamEncodeTupleType) -> Result<
    Seq<u8>,
    ImageError,
> {
    match pam_views(views, t) {
        Err(e) => Err(e),
        Ok(ms) => encode_all_pam_spec(ms),
    }
}

/// Converts views to native PAM images of a tuple type and writes them as a
/// multi-image stream; nothing is written when any of them is refused.
pub fn encode_all(writer: &mut Vec<u8>, images: &[ImageView<'_>], tuple_type: PamEncodeTupleType) -> (res:
    Result<(), ImageError>)
    ensures
        writes(res, old(writer)@, final(writer)@, encode_all_views_pam_spec(images@, tuple_type)),
{
    let mut natives: Vec<PamImage> = Vec::new();
    let mut i: usize = 0;
    assert(images@.take(0) =~= Seq::<ImageView>::empty());
    assert(natives@.map_values(|n: PamImage| n@) =~= Seq::<PamModel>::empty());
    while i < images.len()
        invariant
            i <= images@.len(),
            pam_views(images@.take(i as int), tuple_type) == Ok::<Seq<PamModel>, ImageError>(
                natives@.map_values(|n: PamImage| n@),
            ),
        decreases images@.len() - i,
    {
        assert(images@.take(i as int + 1).drop_last() =~= images@.take(i as int));
        assert(images@.take(i as int + 1).last() == images@[i as int]);
        match image_view_to_pam_native(images[i], tuple_type) {
            Ok(native) => {
                let ghost before = natives@.map_values(|n: PamImage| n@);
                natives.push(native);
                assert(natives@.map_values(|n: PamImage| n@) =~= before.push(native@));
            },
            Err(e) => {
                proof {
                    lemma_pam_views_error_persists(images@, tuple_type, (i + 1) as nat);
                }
                return Err(e);
            },
        }
        i = i + 1;
    }
    assert(images@.take(images@.len() as int) =~= images@);
    encode_all_native(writer, natives.as_slice())
}


// ---------------------------------------------------------------------------
// Laws.
// ---------------------------------------------------------------------------

/// Whether a tuple type's name reads back as the same tuple type: always for
/// the known ones; for another, when its bytes are not empty, do not start or
/// end with whitespace, hold no line feed, and are not a known name.
pub open spec fn name_roundtrips(t: PamTupleModel) -> bool {
    match t {
        PamTupleModel::Other(s) => {
            let b = encode_utf8(s);
            &&& b.len() > 0
            &&& !is_ascii_space(b[0])
            &&& !is_ascii_space(b.last())
            &&& forall|i: int| 0 <= i < b.len() ==> b[i] != 0x0a
            &&& tuple_from_bytes(b) == Ok::<PamTupleModel, ImageError>(t)
        },
        _ => true,
    }
}

/// Whether an image's tuple type, if it has one, reads back as itself.
pub open spec fn tuple_roundtrips(t: Option<PamTupleModel>) -> bool {
    match t {
        Some(t) => name_roundtrips(t),
        None => true,
    }
}

/// A line feed at `p + k` and none before it from `p` on.
proof fn lemma_line_feed_at(d: Seq<u8>, p: int, k: int, i: int)
    requires
        0 <= p,
        0 <= i <= k,
        p + k < d.len(),
        d[p + k] == 0x0a,
        forall|j: int| p <= j < p + k ==> d[j] != 0x0a,
    ensures
        line_feed_at(d, p + i) == p + k,
    decreases k - i,
{
    if i < k {
        lemma_line_feed_at(d, p, k, i + 1);
    }
}

/// A header line: bytes without line feeds, then a line feed.
pub open spec fn plain_line(line: Seq<u8>) -> bool {
    forall|i: int| 0 <= i < line.len() ==> line[i] != 0x0a
}

/// A line that stands at `p` is read as itself.
proof fn lemma_scan_plain_line(d: Seq<u8>, p: int, line: Seq<u8>)
    requires
        0 <= p,
        p + line.len() + 1 <= d.len(),
        d.subrange(p, p + line.len() + 1) == line.push(0x0a),
        plain_line(line),
    ensures
        scan_line(d, p) == (Ok::<(int, int), ImageError>((p, p + line.len() + 1)), p + line.len() + 1),
{
    let k = line.len() as int;
    assert(d[p + k] == line.push(0x0a)[k]);
    assert forall|j: int| p <= j < p + k implies d[j] != 0x0a by {
        assert(d.subrange(p, p + k + 1)[j - p] == line.push(0x0a)[j - p]);
    }
    lemma_line_feed_at(d, p, k, 0);
}

/// A line whose ends are not whitespace is its own trimmed form, line feed
/// and all.
proof fn lemma_trim_plain_line(line: Seq<u8>)
    requires
        line.len() > 0,
        !is_ascii_space(line[0]),
        !is_ascii_space(line.last()),
    ensures
        trim(trim_line_end_spec(line.push(0x0a))) == line,
{
    assert(line.push(0x0a).drop_last() =~= line);
    assert(trim_start(line) == line);
    assert(trim_end(line) == line);
}

/// The key of a field line and its value, split at the space between them.
proof fn lemma_split_field(key: Seq<u8>, value: Seq<u8>)
    requires
        forall|i: int| 0 <= i < key.len() ==> !is_ascii_space(#[trigger] key[i]),
    ensures
        split_first_token_spec(key.push(0x20) + value) == (key, value),
{
    let line = key.push(0x20) + value;
    assert(line.take(key.len() as int) =~= key);
    assert forall|i: int| 0 <= i <= key.len() implies token_len(line, i) == key.len() by {
        lemma_token_len_at(line, key, i);
    }
    assert(line.skip(key.len() as int + 1) =~= value);
}

proof fn lemma_token_len_at(line: Seq<u8>, key: Seq<u8>, i: int)
    requires
        0 <= i <= key.len(),
        key.len() < line.len(),
        line.take(key.len() as int) == key,
        line[key.len() as int] == 0x20,
        forall|j: int| 0 <= j < key.len() ==> !is_ascii_space(#[trigger] key[j]),
    ensures
        token_len(line, i) == key.len(),
    decreases key.len() - i,
{
    if i < key.len() {
        assert(line[i] == key[i]);
        lemma_token_len_at(line, key, i + 1);
    }
}

/// A decimal number reads back as a header value.
proof fn lemma_header_u32_decimal(n: u32, name: &'static str)
    ensures
        header_u32(decimal(n as nat), name) == Ok::<u32, ImageError>(n),
        decimal(n as nat).len() > 0,
        forall|i: int| 0 <= i < decimal(n as nat).len() ==> is_digit(#[trigger] decimal(n as nat)[i]),
{
    let s = decimal(n as nat);
    lemma_decimal_digits(n as nat);
    lemma_parse_decimal(n);
    assert(is_digit(s[0]));
    assert(is_digit(s.last()));
    assert(trim_start(s) == s);
    assert(trim_end(s) == s);
    assert forall|i: int| 0 <= i < s.len() implies #[trigger] s[i] < 0x80 by {
        assert(is_digit(s[i]));
    }
    lemma_ascii_valid_utf8(s);
    assert(!(exists|i: int| 0 <= i < s.len() && is_ascii_space(s[i]))) by {
        assert forall|i: int| 0 <= i < s.len() implies !is_ascii_space(s[i]) by {
            assert(is_digit(s[i]));
        }
    }
}

/// What a numeric field line of the header makes of a header.
proof fn lemma_numeric_line(key: Seq<u8>, n: u32, name: &'static str)
    requires
        forall|i: int| 0 <= i < key.len() ==> !is_ascii_space(#[trigger] key[i]),
    ensures
        split_first_token_spec(key.push(0x20) + decimal(n as nat)) == (key, decimal(n as nat)),
        header_u32(decimal(n as nat), name) == Ok::<u32, ImageError>(n),
        plain_line(key.push(0x20) + decimal(n as nat)) <== plain_line(key),
{
    lemma_split_field(key, decimal(n as nat));
    lemma_header_u32_decimal(n, name);
    let line = key.push(0x20) + decimal(n as nat);
    if plain_line(key) {
        assert forall|i: int| 0 <= i < line.len() implies line[i] != 0x0a by {
            if i > key.len() {
                assert(is_digit(decimal(n as nat)[i - key.len() - 1]));
            }
        }
    }
}

/// One header line read from `p` moves the header on.
proof fn lemma_header_step(d: Seq<u8>, p: int, line: Seq<u8>, h: PamHeaderModel, h2: PamHeaderModel)
    requires
        0 <= p,
        p + line.len() + 1 <= d.len(),
        d.subrange(p, p + line.len() + 1) == line.push(0x0a),
        plain_line(line),
        line.len() > 0,
        !is_ascii_space(line[0]),
        !is_ascii_space(line.last()),
        line[0] != 0x23,
        line != endhdr_key(),
        parse_line_spec(line, h) == Ok::<PamHeaderModel, ImageError>(h2),
    ensures
        header_lines(d, p, h) == header_lines(d, p + line.len() + 1, h2),
{
    lemma_scan_plain_line(d, p, line);
    lemma_trim_plain_line(line);
}

/// The `ENDHDR` line ends the header.
proof fn lemma_header_end(d: Seq<u8>, p: int, h: PamHeaderModel)
    requires
        0 <= p,
        p + 7 <= d.len(),
        d.subrange(p, p + 7) == endhdr_key().push(0x0a),
    ensures
        header_lines(d, p, h) == (Ok::<PamHeaderModel, ImageError>(h), p + 7),
{
    lemma_scan_plain_line(d, p, endhdr_key());
    lemma_trim_plain_line(endhdr_key());
}

/// The names of the known tuple types: bytes that are neither whitespace nor
/// line feeds, read back as their types.
proof fn lemma_tuple_name(t: PamTupleModel)
    requires
        name_roundtrips(t),
    ensures
        tuple_name(t).len() > 0,
        !is_ascii_space(tuple_name(t)[0]),
        !is_ascii_space(tuple_name(t).last()),
        plain_line(tuple_name(t)),
        valid_utf8(tuple_name(t)),
        tuple_from_bytes(tuple_name(t)) == Ok::<PamTupleModel, ImageError>(t),
{
    let b = tuple_name(t);
    match t {
        PamTupleModel::Other(s) => {
            encode_utf8_valid_utf8(s);
        },
        _ => {
            assert forall|i: int| 0 <= i < b.len() implies #[trigger] b[i] < 0x80 by {}
            lemma_ascii_valid_utf8(b);
        },
    }
}

/// Two pieces that stand together at `p` stand one after the other.
proof fn lemma_split_at(d: Seq<u8>, p: int, a: Seq<u8>, b: Seq<u8>)
    requires
        0 <= p,
        p + a.len() + b.len() <= d.len(),
        d.subrange(p, p + a.len() + b.len()) == a + b,
    ensures
        d.subrange(p, p + a.len()) == a,
        d.subrange(p + a.len(), p + a.len() + b.len()) == b,
{
    assert forall|i: int| 0 <= i < a.len() implies d.subrange(p, p + a.len())[i] == a[i] by {
        assert(d.subrange(p, p + a.len() + b.len())[i] == (a + b)[i]);
    }
    assert forall|i: int| 0 <= i < b.len() implies d.subrange(p + a.len(), p + a.len() + b.len())[i] == b[i] by {
        assert(d.subrange(p, p + a.len() + b.len())[a.len() + i] == (a + b)[a.len() + i]);
        assert(d.subrange(p, p + a.len() + b.len())[a.len() + i] == d[p + a.len() + i]);
        assert(d.subrange(p + a.len(), p + a.len() + b.len())[i] == d[p + a.len() + i]);
        assert((a + b)[a.len() + i] == b[i]);
    }
    assert(d.subrange(p, p + a.len()) =~= a);
    assert(d.subrange(p + a.len(), p + a.len() + b.len()) =~= b);
}

/// A numeric field line of the header, without its line feed.
pub open spec fn numeric_line(key: Seq<u8>, n: nat) -> Seq<u8> {
    key.push(0x20) + decimal(n)
}

/// The field lines of an image's header after the `P7` line, grouped from
/// the right.
pub open spec fn field_lines(m: PamModel) -> Seq<u8> {
    numeric_line(width_key(), m.width as nat).push(0x0a) + (numeric_line(height_key(), m.height as nat).push(0x0a) + (
    numeric_line(depth_key(), m.depth as nat).push(0x0a) + (numeric_line(maxval_key(), m.maxval as nat).push(0x0a)
        + (tuple_line(m.tuple_type) + endhdr_key().push(0x0a)))))
}

/// A numeric field line read from `p`.
proof fn lemma_numeric_step(
    d: Seq<u8>,
    p: int,
    key: Seq<u8>,
    n: u32,
    name: &'static str,
    rest: Seq<u8>,
    h: PamHeaderModel,
    h2: PamHeaderModel,
)
    requires
        0 <= p,
        forall|i: int| 0 <= i < key.len() ==> !is_ascii_space(#[trigger] key[i]),
        plain_line(key),
        key.len() > 0,
        key[0] != 0x23,
        numeric_line(key, n as nat) != endhdr_key(),
        p + numeric_line(key, n as nat).len() + 1 + rest.len() <= d.len(),
        d.subrange(p, p + numeric_line(key, n as nat).len() + 1 + rest.len()) == numeric_line(
            key,
            n as nat,
        ).push(0x0a) + rest,
        parse_line_spec(numeric_line(key, n as nat), h) == Ok::<PamHeaderModel, ImageError>(h2),
    ensures
        header_lines(d, p, h) == header_lines(d, p + numeric_line(key, n as nat).len() + 1, h2),
        d.subrange(
            p + numeric_line(key, n as nat).len() + 1,
            p + numeric_line(key, n as nat).len() + 1 + rest.len(),
        ) == rest,
{
    let line = numeric_line(key, n as nat);
    lemma_numeric_line(key, n, name);
    lemma_split_at(d, p, line.push(0x0a), rest);
    lemma_decimal_digits(n as nat);
    assert(line.last() == decimal(n as nat).last());
    assert(is_digit(decimal(n as nat).last()));
    assert(line[0] == key[0]);
    lemma_header_step(d, p, line, h, h2);
}

/// The `WIDTH` line sets the width.
proof fn lemma_parse_width_line(n: u32, h: PamHeaderModel)
    requires
        h.width is None,
    ensures
        parse_line_spec(numeric_line(width_key(), n as nat), h) == Ok::<PamHeaderModel, ImageError>(
            PamHeaderModel { width: Some(n), ..h },
        ),
{
    lemma_numeric_line(width_key(), n, "width");
}

/// The `HEIGHT` line sets the height.
proof fn lemma_parse_height_line(n: u32, h: PamHeaderModel)
    requires
        h.height is None,
    ensures
        parse_line_spec(numeric_line(height_key(), n as nat), h) == Ok::<PamHeaderModel, ImageError>(
            PamHeaderModel { height: Some(n), ..h },
        ),
{
    lemma_numeric_line(height_key(), n, "height");
}

/// The `DEPTH` line sets the depth.
proof fn lemma_parse_depth_line(n: u32, h: PamHeaderModel)
    requires
        h.depth is None,
    ensures
        parse_line_spec(numeric_line(depth_key(), n as nat), h) == Ok::<PamHeaderModel, ImageError>(
            PamHeaderModel { depth: Some(n), ..h },
        ),
{
    lemma_numeric_line(depth_key(), n, "depth");
}

/// The `MAXVAL` line sets the maximum.
proof fn lemma_parse_maxval_line(n: u16, h: PamHeaderModel)
    requires
        h.maxval is None,
        n >= 1,
    ensures
        parse_line_spec(numeric_line(maxval_key(), n as nat), h) == Ok::<PamHeaderModel, ImageError>(
            PamHeaderModel { maxval: Some(n), ..h },
        ),
{
    lemma_numeric_line(maxval_key(), n as u32, "max value");
    assert((n as u32) as u16 == n);
}

/// The header lines of an image after the `P7` line, read from `p`.
#[verifier::spinoff_prover]
#[verifier::rlimit(40)]
proof fn lemma_header_fields_read(d: Seq<u8>, p: int, m: PamModel)
    requires
        0 <= p,
        tuple_roundtrips(m.tuple_type),
        1 <= m.maxval,
        p + field_lines(m).len() <= d.len(),
        d.subrange(p, p + field_lines(m).len()) == field_lines(m),
    ensures
        header_lines(d, p, empty_header()) == (
            Ok::<PamHeaderModel, ImageError>(
                PamHeaderModel {
                    width: Some(m.width),
                    height: Some(m.height),
                    depth: Some(m.depth),
                    maxval: Some(m.maxval),
                    tuple_type: match m.tuple_type {
                        Some(t) => Some(tuple_name(t)),
                        None => None,
                    },
                },
            ),
            p + field_lines(m).len(),
        ),
{
    let lw = numeric_line(width_key(), m.width as nat);
    let lh = numeric_line(height_key(), m.height as nat);
    let ld = numeric_line(depth_key(), m.depth as nat);
    let lm = numeric_line(maxval_key(), m.maxval as nat);
    let lt = tuple_line(m.tuple_type);
    let le = endhdr_key().push(0x0a);
    let r4 = lt + le;
    let r3 = lm.push(0x0a) + r4;
    let r2 = ld.push(0x0a) + r3;
    let r1 = lh.push(0x0a) + r2;
    let h0 = empty_header();
    let h1 = PamHeaderModel { width: Some(m.width), ..h0 };
    let h2 = PamHeaderModel { height: Some(m.height), ..h1 };
    let h3 = PamHeaderModel { depth: Some(m.depth), ..h2 };
    let h4 = PamHeaderModel { maxval: Some(m.maxval), ..h3 };
    lemma_parse_width_line(m.width, h0);
    lemma_parse_height_line(m.height, h1);
    lemma_parse_depth_line(m.depth, h2);
    lemma_parse_maxval_line(m.maxval, h3);
    let p1 = p + lw.len() + 1;
    let p2 = p1 + lh.len() + 1;
    let p3 = p2 + ld.len() + 1;
    let p4 = p3 + lm.len() + 1;
    lemma_numeric_step(d, p, width_key(), m.width, "width", r1, h0, h1);
    lemma_numeric_step(d, p1, height_key(), m.height, "height", r2, h1, h2);
    lemma_numeric_step(d, p2, depth_key(), m.depth, "depth", r3, h2, h3);
    assert(numeric_line(maxval_key(), (m.maxval as u32) as nat) == lm);
    lemma_numeric_step(d, p3, maxval_key(), m.maxval as u32, "max value", r4, h3, h4);
    match m.tuple_type {
        Some(t) => {
            lemma_tuple_name(t);
            let name = tuple_name(t);
            let ltt = tupltype_key().push(0x20) + name;
            lemma_split_field(tupltype_key(), name);
            assert(trim_start(name) == name);
            assert(trim_end(name) == name);
            assert(lt == ltt.push(0x0a));
            assert(plain_line(ltt)) by {
                assert forall|i: int| 0 <= i < ltt.len() implies ltt[i] != 0x0a by {
                    if i > 8 {
                        assert(ltt[i] == name[i - 9]);
                    }
                }
            }
            let h5 = PamHeaderModel { tuple_type: Some(name), ..h4 };
            lemma_split_at(d, p4, lt, le);
            assert(ltt.last() == name.last());
            lemma_header_step(d, p4, ltt, h4, h5);
            let p5 = p4 + ltt.len() + 1;
            lemma_header_end(d, p5, h5);
        },
        None => {
            assert(r4 =~= le);
            lemma_header_end(d, p4, h4);
        },
    }
}

/// The header of an image, read from `p`, gives back its fields.
#[verifier::spinoff_prover]
proof fn lemma_read_header_encoded(d: Seq<u8>, p: int, m: PamModel)
    requires
        0 <= p,
        tuple_roundtrips(m.tuple_type),
        pam_check(m) is None,
        p + pam_header_bytes(m).len() <= d.len(),
        d.subrange(p, p + pam_header_bytes(m).len()) == pam_header_bytes(m),
    ensures
        read_header_spec(d, p) == (
            Ok::<CompleteHeaderModel, ImageError>(
                CompleteHeaderModel {
                    width: m.width,
                    height: m.height,
                    depth: m.depth,
                    maxval: m.maxval,
                    tuple_type: m.tuple_type,
                },
            ),
            p + pam_header_bytes(m).len(),
        ),
{
    let hb = pam_header_bytes(m);
    let fl = field_lines(m);
    assert(hb =~= magic_p7().push(0x0a) + fl);
    lemma_split_at(d, p, magic_p7().push(0x0a), fl);
    lemma_scan_plain_line(d, p, magic_p7());
    assert(magic_p7().push(0x0a).drop_last() =~= magic_p7());
    lemma_header_fields_read(d, p + 3, m);
    match m.tuple_type {
        Some(t) => {
            lemma_tuple_name(t);
        },
        None => {},
    }
}

/// `swap_pairs` undoes itself on an even number of bytes.
proof fn lemma_swap_pairs_twice(s: Seq<u8>)
    requires
        s.len() % 2 == 0,
    ensures
        swap_pairs(swap_pairs(s)) == s,
        swap_pairs(s).len() == s.len(),
{
    assert(swap_pairs(swap_pairs(s)) =~= s);
}

/// Samples read big-endian after swapping are the samples read little-endian.
proof fn lemma_swapped_samples(s: Seq<u8>, maxval: u16)
    requires
        s.len() % 2 == 0,
    ensures
        any_be16_above(swap_pairs(s), maxval) == any_le16_above(s, maxval),
{
    let w = swap_pairs(s);
    assert(w.len() == s.len());
    if any_le16_above(s, maxval) {
        let k = choose|k: int| 0 <= k < s.len() / 2 && le16(s, k) > maxval;
        assert(be16(w, k) == le16(s, k));
    }
    if any_be16_above(w, maxval) {
        let k = choose|k: int| 0 <= k < w.len() / 2 && be16(w, k) > maxval;
        assert(be16(w, k) == le16(s, k));
    }
}

/// A file written for an image, found at `p`, is decoded as that image and
/// read to its end.
#[verifier::spinoff_prover]
pub proof fn lemma_decode_one_encoded(d: Seq<u8>, p: int, m: PamModel)
    requires
        0 <= p,
        pam_check(m) is None,
        tuple_roundtrips(m.tuple_type),
        p + pam_file_bytes(m).len() <= d.len(),
        d.len() <= usize::MAX,
        d.subrange(p, p + pam_file_bytes(m).len()) == pam_file_bytes(m),
    ensures
        decode_one_spec(d, p) == (Ok::<PamModel, ImageError>(m), p + pam_file_bytes(m).len()),
{
    let hb = pam_header_bytes(m);
    let rb = pam_raster_bytes(m);
    assert(d.subrange(p, p + hb.len()) =~= hb);
    lemma_read_header_encoded(d, p, m);
    let q = p + hb.len();
    let n = m.data.len() as int;
    assert(pam_raster_len_spec(m.width, m.height, m.depth, m.maxval) == Ok::<int, ImageError>(n));
    if m.maxval >= 256 {
        assert(n == m.width * m.height * (m.depth * 2));
        assert(n == (m.width * m.height * m.depth) * 2) by (nonlinear_arith)
            requires
                n == m.width * m.height * (m.depth * 2),
        ;
        vstd::arithmetic::div_mod::lemma_mod_multiples_basic(m.width * m.height * m.depth, 2);
        lemma_swap_pairs_twice(m.data);
        lemma_swapped_samples(m.data, m.maxval);
    }
    assert(rb.len() == n);
    let f = pam_file_bytes(m);
    assert forall|i: int| 0 <= i < n implies d.subrange(q, q + n)[i] == rb[i] by {
        assert(d.subrange(p, p + f.len())[hb.len() + i] == f[hb.len() + i]);
    }
    assert(d.subrange(q, q + n) =~= rb);
}

/// Decoding what `encode_native` writes gives the native image back, for
/// every image it writes whose tuple type name reads back as itself, when the
/// file fits the address space.
pub proof fn lemma_pam_roundtrip(m: PamModel)
    requires
        encode_pam_spec(m) is Ok,
        tuple_roundtrips(m.tuple_type),
        pam_file_bytes(m).len() <= usize::MAX,
    ensures
        pam_single(encode_pam_spec(m)->Ok_0) == Ok::<PamModel, ImageError>(m),
{
    let f = pam_file_bytes(m);
    assert(f.subrange(0, f.len() as int) =~= f);
    lemma_decode_one_encoded(f, 0, m);
}


/// The files of `n` images are the files of `n - 1` of them and one more.
proof fn lemma_pam_files_step(ms: Seq<PamModel>, n: int)
    requires
        0 < n <= ms.len(),
    ensures
        pam_files(ms.take(n)) == pam_files(ms.take(n - 1)) + pam_file_bytes(ms[n - 1]),
{
    assert(ms.take(n).drop_last() =~= ms.take(n - 1));
}

/// The files of the first `j` images begin the files of the first `n`.
proof fn lemma_pam_files_prefix(ms: Seq<PamModel>, j: int, n: int)
    requires
        0 <= j <= n <= ms.len(),
    ensures
        pam_files(ms.take(j)).len() <= pam_files(ms.take(n)).len(),
        pam_files(ms.take(n)).subrange(0, pam_files(ms.take(j)).len() as int) == pam_files(ms.take(j)),
    decreases n - j,
{
    if j < n {
        lemma_pam_files_prefix(ms, j, n - 1);
        lemma_pam_files_step(ms, n);
        let a = pam_files(ms.take(n - 1));
        let b = pam_files(ms.take(j));
        assert(pam_files(ms.take(n)).subrange(0, b.len() as int) =~= a.subrange(0, b.len() as int));
    } else {
        assert(pam_files(ms.take(n)).subrange(0, pam_files(ms.take(j)).len() as int) =~= pam_files(ms.take(j)));
    }
}

/// The stream of written files, read from the end of the first `k`, gives
/// the rest of the images.
#[verifier::spinoff_prover]
proof fn lemma_pam_stream_from(ms: Seq<PamModel>, k: int)
    requires
        0 <= k <= ms.len(),
        forall|i: int| 0 <= i < ms.len() ==> pam_check(#[trigger] ms[i]) is None,
        forall|i: int| 0 <= i < ms.len() ==> tuple_roundtrips(#[trigger] ms[i].tuple_type),
        pam_files(ms).len() <= usize::MAX,
    ensures
        pam_stream(pam_files(ms), pam_files(ms.take(k)).len() as int) == Ok::<Seq<PamModel>, ImageError>(
            ms.skip(k),
        ),
    decreases ms.len() - k,
{
    let d = pam_files(ms);
    assert(ms.take(ms.len() as int) =~= ms);
    let p = pam_files(ms.take(k)).len() as int;
    if k == ms.len() {
        assert(ms.skip(k) =~= Seq::<PamModel>::empty());
    } else {
        lemma_pam_files_step(ms, k + 1);
        lemma_pam_files_prefix(ms, k + 1, ms.len() as int);
        let f = pam_file_bytes(ms[k]);
        let next = pam_files(ms.take(k + 1));
        assert(next == pam_files(ms.take(k)) + f);
        assert(pam_file_bytes(ms[k]).len() > 0);
        assert(d.subrange(p, p + f.len()) =~= f) by {
            assert forall|i: int| 0 <= i < f.len() implies d.subrange(p, p + f.len())[i] == f[i] by {
                assert(d.subrange(0, next.len() as int)[p + i] == next[p + i]);
            }
        }
        lemma_decode_one_encoded(d, p, ms[k]);
        lemma_pam_stream_from(ms, k + 1);
        assert(seq![ms[k]] + ms.skip(k + 1) =~= ms.skip(k));
    }
}

/// Decoding the multi-image stream that `encode_all_native` writes gives the
/// images back, for every sequence it writes whose tuple type names read
/// back as themselves, when the stream fits the address space.
pub proof fn lemma_pam_stream_roundtrip(ms: Seq<PamModel>)
    requires
        encode_all_pam_spec(ms) is Ok,
        forall|i: int| 0 <= i < ms.len() ==> tuple_roundtrips(#[trigger] ms[i].tuple_type),
        pam_files(ms).len() <= usize::MAX,
    ensures
        pam_stream(encode_all_pam_spec(ms)->Ok_0, 0) == Ok::<Seq<PamModel>, ImageError>(ms),
{
    assert forall|i: int| 0 <= i < ms.len() implies pam_check(#[trigger] ms[i]) is None by {
        lemma_pam_checks_each(ms, i);
    }
    assert(ms.take(0) =~= Seq::<PamModel>::empty());
    lemma_pam_stream_from(ms, 0);
    assert(ms.skip(0) =~= ms);
}


/// Pixel bytes made of whole 16-bit samples are left as they are by scaling
/// from the full 16-bit range.
proof fn lemma_even_pixels_full_range(px: Seq<u8>, n: int, bpp: nat)
    requires
        n >= 0,
        px.len() == n * bpp,
        bpp % 2 == 0,
    ensures
        normalized_bytes(px, 65535) == px,
{
    assert(px.len() == (n * (bpp / 2)) * 2) by (nonlinear_arith)
        requires
            px.len() == n * bpp,
            bpp % 2 == 0,
    ;
    assert(n * (bpp / 2) >= 0) by (nonlinear_arith)
        requires
            n >= 0,
    ;
    vstd::arithmetic::div_mod::lemma_mod_multiples_basic(n * (bpp / 2), 2);
    lemma_normalized_full_range(px);
}

/// A native image made from a view is read back from its file as it is.
#[verifier::spinoff_prover]
proof fn lemma_view_pam_file_roundtrip(v: ImageView<'_>, t: PamEncodeTupleType)
    requires
        encode_view_pam_spec(v, t) is Ok,
        encode_view_pam_spec(v, t)->Ok_0.len() <= usize::MAX,
    ensures
        pam_single(encode_view_pam_spec(v, t)->Ok_0) == Ok::<PamModel, ImageError>(
            view_to_pam_spec(v, t)->Ok_0,
        ),
{
    lemma_pam_roundtrip(view_to_pam_spec(v, t)->Ok_0);
}

/// A native image made from a view converts back to the view's pixels.
#[verifier::spinoff_prover]
proof fn lemma_view_pam_converts(v: ImageView<'_>, t: PamEncodeTupleType)
    requires
        view_to_pam_spec(v, t) is Ok,
    ensures
        pam_image_spec(view_to_pam_spec(v, t)->Ok_0) == Ok::<ImageModel, ImageError>(
            ImageModel { width: v.width, height: v.height, pixel_format: v.pixel_format, data: v.pixels() },
        ),
{
    let m = view_to_pam_spec(v, t)->Ok_0;
    assert(view_check(v, v.pixel_format) is None);
    lemma_checked_view(v);
    let px = v.pixels();
    match t {
        PamEncodeTupleType::BlackAndWhite => {
            assert(bw_gray(bw_bits(px)) =~= px);
        },
        PamEncodeTupleType::BlackAndWhiteAlpha => {
            assert(bw_gray(bw_bits(px)) =~= px);
        },
        _ => {
            if m.maxval >= 256 {
                lemma_even_pixels_full_range(px, v.width * v.height, v.pixel_format.spec_bytes_per_pixel());
            }
        },
    }
}

/// Encoding a view as PAM under any tuple type and decoding the file gives
/// the view's pixels back in its own pixel format, whenever the view is
/// written and the file fits the address space.
pub proof fn lemma_pam_image_roundtrip(v: ImageView<'_>, t: PamEncodeTupleType)
    requires
        encode_view_pam_spec(v, t) is Ok,
        encode_view_pam_spec(v, t)->Ok_0.len() <= usize::MAX,
    ensures
        pam_to_image_spec(pam_single(encode_view_pam_spec(v, t)->Ok_0)) == Ok::<ImageModel, ImageError>(
            ImageModel { width: v.width, height: v.height, pixel_format: v.pixel_format, data: v.pixels() },
        ),
{
    lemma_view_pam_file_roundtrip(v, t);
    lemma_view_pam_converts(v, t);
}


/// The generic image of a native PAM image. Black-and-white samples (with or
/// without alpha) become `Gray8`/`GrayAlpha8` bytes, 0 for a 0 sample and
/// 255 otherwise. Grayscale, RGB and their alpha forms keep their channels
/// and have every sample scaled to the full range and rounded to nearest,
/// into 8-bit formats for maxval below 256 and 16-bit ones from 256 on.
/// Every sample is at most maxval; other tuple types do not convert.
pub proof fn lemma_pam_pixels(m: PamModel, i: int)
    requires
        pam_image_spec(m) is Ok,
    ensures
        ({
            let img = pam_image_spec(m)->Ok_0;
            let wide = m.maxval >= 256;
            &&& img.width == m.width
            &&& img.height == m.height
            &&& (!wide && 0 <= i < m.data.len()) ==> m.data[i] <= m.maxval
            &&& (wide && 0 <= i && 2 * i + 1 < m.data.len()) ==> m.data[2 * i] + 256 * m.data[2 * i + 1]
                <= m.maxval
            &&& match m.tuple_type {
                Some(PamTupleModel::BlackAndWhite) | Some(PamTupleModel::BlackAndWhiteAlpha) => {
                    &&& img.pixel_format == if m.tuple_type == Some(PamTupleModel::BlackAndWhite) {
                        PixelFormat::Gray8
                    } else {
                        PixelFormat::GrayAlpha8
                    }
                    &&& img.data.len() == m.data.len()
                    &&& 0 <= i < m.data.len() ==> img.data[i] == if m.data[i] == 0 {
                        0u8
                    } else {
                        255u8
                    }
                },
                Some(PamTupleModel::Grayscale) => img.pixel_format == (if wide {
                    PixelFormat::Gray16
                } else {
                    PixelFormat::Gray8
                }) && scaled_to_full_range(m.maxval, m.data, img.data, i),
                Some(PamTupleModel::GrayscaleAlpha) => img.pixel_format == (if wide {
                    PixelFormat::GrayAlpha16
                } else {
                    PixelFormat::GrayAlpha8
                }) && scaled_to_full_range(m.maxval, m.data, img.data, i),
                Some(PamTupleModel::Rgb) => img.pixel_format == (if wide {
                    PixelFormat::Rgb16
                } else {
                    PixelFormat::Rgb8
                }) && scaled_to_full_range(m.maxval, m.data, img.data, i),
                Some(PamTupleModel::RgbAlpha) => img.pixel_format == (if wide {
                    PixelFormat::Rgba16
                } else {
                    PixelFormat::Rgba8
                }) && scaled_to_full_range(m.maxval, m.data, img.data, i),
                _ => false,
            }
        }),
{
    assert(pam_check(m) is None);
    let wide = m.maxval >= 256;
    if !wide && 0 <= i < m.data.len() {
        if m.data[i] > m.maxval {
            assert(any_byte_above(m.data, m.maxval));
        }
    }
    if wide && 0 <= i && 2 * i + 1 < m.data.len() {
        if m.data[2 * i] + 256 * m.data[2 * i + 1] > m.maxval {
            assert(le16(m.data, i) == m.data[2 * i] + 256 * m.data[2 * i + 1]);
            assert(i < m.data.len() / 2);
            assert(any_le16_above(m.data, m.maxval));
        }
    }
    lemma_normalized_bytes_scaled(m.data, m.maxval, i);
}

} // verus!
