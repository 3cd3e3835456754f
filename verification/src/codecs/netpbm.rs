use vstd::prelude::*;
use vstd::utf8::valid_utf8;
use vstd::string::StringSliceAdditionalSpecFns;

use crate::error::ImageError;
use crate::image::{ImageView, PixelFormat, Image, ImageModel, row_len, too_large, image_view_new_error, packed_len, strided_len, image_new_error, lemma_pixels_len};
use crate::text::{
    is_blank, is_whitespace, parse_u32, parse_u32_spec, is_utf8, decimal, push_decimal,
    append_bytes, bytes_equal, is_digit, lemma_decimal_digits, lemma_parse_decimal,
    lemma_ascii_valid_utf8,
};

verus! {

/// Largest sample maximum that Netpbm allows.
pub const MAX_SUPPORTED_VALUE: u32 = 65_535;

/// Width and height read from a Netpbm header.
#[derive(Clone, Copy, Debug, Eq, PartialEq, Structural)]
pub struct Dimensions {
    pub width: u32,
    pub height: u32,
}

// ---------------------------------------------------------------------------
// The header grammar, as functions of the input bytes and a position.
// ---------------------------------------------------------------------------

/// Where skipping whitespace and `#` comments from `p` stops; `in_comment`
/// says that `p` lies inside a comment, which ends at a carriage return or a
/// line feed.
pub open spec fn skip_from(d: Seq<u8>, p: int, in_comment: bool) -> int
    decreases d.len() - p,
{
    if p >= d.len() {
        p
    } else if in_comment {
        if d[p] == 0x0d || d[p] == 0x0a {
            skip_from(d, p + 1, false)
        } else {
            skip_from(d, p + 1, true)
        }
    } else if is_blank(d[p]) {
        skip_from(d, p + 1, false)
    } else if d[p] == 0x23 {
        skip_from(d, p + 1, true)
    } else {
        p
    }
}

/// Where skipping whitespace and comments from `p` stops.
pub open spec fn skip_blank(d: Seq<u8>, p: int) -> int {
    skip_from(d, p, false)
}

/// The end of the token that starts at `p`: the first whitespace byte or the
/// end of the input.
pub open spec fn token_end(d: Seq<u8>, p: int) -> int
    decreases d.len() - p,
{
    if p >= d.len() {
        p
    } else if is_blank(d[p]) {
        p
    } else {
        token_end(d, p + 1)
    }
}

pub open spec fn end_of_header() -> ImageError {
    ImageError::InvalidHeader { reason: "unexpected end of header" }
}

/// The next token after `p`, as its start and end, and the position after it.
pub open spec fn scan_token(d: Seq<u8>, p: int) -> (Result<(int, int), ImageError>, int) {
    let s = skip_blank(d, p);
    if s >= d.len() {
        (Err(end_of_header()), s)
    } else {
        (Ok((s, token_end(d, s))), token_end(d, s))
    }
}

/// What a numeric header token stands for.
pub open spec fn token_u32(tok: Seq<u8>, name: &'static str) -> Result<u32, ImageError> {
    if !valid_utf8(tok) {
        Err(ImageError::InvalidHeader { reason: "header contains non-UTF-8 token" })
    } else {
        match parse_u32_spec(tok) {
            Some(v) => Ok(v),
            None => Err(ImageError::InvalidHeader { reason: name }),
        }
    }
}

/// The next number after `p` and the position after it.
pub open spec fn scan_u32(d: Seq<u8>, p: int, name: &'static str) -> (Result<u32, ImageError>, int) {
    let (t, q) = scan_token(d, p);
    match t {
        Err(e) => (Err(e), q),
        Ok((s, e)) => (token_u32(d.subrange(s, e), name), q),
    }
}

pub open spec fn exceeds_max() -> ImageError {
    ImageError::InvalidData { reason: "sample value exceeds max value" }
}

pub open spec fn bad_max_value() -> ImageError {
    ImageError::InvalidHeader { reason: "max value must be between 1 and 65535" }
}

pub open spec fn zero_dimensions_header() -> ImageError {
    ImageError::InvalidHeader { reason: "width and height must be greater than zero" }
}

pub open spec fn zero_dimensions_data() -> ImageError {
    ImageError::InvalidData { reason: "width and height must be greater than zero" }
}

/// The next sample after `p` as an 8-bit value at most `max_value`.
pub open spec fn scan_u8_sample(d: Seq<u8>, p: int, max_value: u32) -> (Result<u8, ImageError>, int) {
    let (r, q) = scan_u32(d, p, "sample");
    match r {
        Err(e) => (Err(e), q),
        Ok(v) => if v > max_value {
            (Err(exceeds_max()), q)
        } else if v > 255 {
            (Err(ImageError::InvalidData { reason: "sample value is larger than u8" }), q)
        } else {
            (Ok(v as u8), q)
        },
    }
}

/// The next sample after `p` as a 16-bit value at most `max_value`.
pub open spec fn scan_u16_sample(d: Seq<u8>, p: int, max_value: u32) -> (Result<u16, ImageError>, int) {
    let (r, q) = scan_u32(d, p, "sample");
    match r {
        Err(e) => (Err(e), q),
        Ok(v) => if v > max_value {
            (Err(exceeds_max()), q)
        } else if v > 65535 {
            (Err(ImageError::InvalidData { reason: "sample value is larger than u16" }), q)
        } else {
            (Ok(v as u16), q)
        },
    }
}

/// The next maximum sample value after `p`.
pub open spec fn scan_max_value(d: Seq<u8>, p: int) -> (Result<u32, ImageError>, int) {
    let (r, q) = scan_u32(d, p, "max value");
    match r {
        Err(e) => (Err(e), q),
        Ok(v) => if 1 <= v <= MAX_SUPPORTED_VALUE {
            (Ok(v), q)
        } else {
            (Err(bad_max_value()), q)
        },
    }
}

/// Whether anything but whitespace and comments follows `p`.
pub open spec fn more_tokens(d: Seq<u8>, p: int) -> bool {
    skip_blank(d, p) < d.len()
}

/// The position after the single whitespace (or CR LF) that separates a
/// binary header from its raster.
pub open spec fn scan_separator(d: Seq<u8>, p: int) -> Result<int, ImageError> {
    if p >= d.len() || !is_blank(d[p]) {
        Err(ImageError::InvalidHeader { reason: "missing raster separator" })
    } else if d[p] == 0x0d && p + 1 < d.len() && d[p + 1] == 0x0a {
        Ok(p + 2)
    } else {
        Ok(p + 1)
    }
}

/// Magic number, width and height of a header that starts at `p`.
pub open spec fn scan_bitmap_header(d: Seq<u8>, p: int, magic: Seq<u8>) -> (Result<
    Dimensions,
    ImageError,
>, int) {
    let (t, q1) = scan_token(d, p);
    match t {
        Err(e) => (Err(e), q1),
        Ok((s, e)) => if d.subrange(s, e) != magic {
            (Err(ImageError::UnsupportedFormat), q1)
        } else {
            let (w, q2) = scan_u32(d, q1, "width");
            match w {
                Err(e) => (Err(e), q2),
                Ok(w) => {
                    let (h, q3) = scan_u32(d, q2, "height");
                    match h {
                        Err(e) => (Err(e), q3),
                        Ok(h) => if w == 0 || h == 0 {
                            (Err(zero_dimensions_header()), q3)
                        } else {
                            (Ok(Dimensions { width: w, height: h }), q3)
                        },
                    }
                },
            }
        },
    }
}

/// Magic number, width, height and maximum sample value of a header.
pub open spec fn scan_sample_header(d: Seq<u8>, p: int, magic: Seq<u8>) -> (Result<
    (Dimensions, u16),
    ImageError,
>, int) {
    let (r, q) = scan_bitmap_header(d, p, magic);
    match r {
        Err(e) => (Err(e), q),
        Ok(dims) => {
            let (m, q2) = scan_max_value(d, q);
            match m {
                Err(e) => (Err(e), q2),
                Ok(m) => (Ok((dims, m as u16)), q2),
            }
        },
    }
}

// ---------------------------------------------------------------------------
// Facts about the grammar.
// ---------------------------------------------------------------------------

pub proof fn lemma_skip_from_bounds(d: Seq<u8>, p: int, c: bool)
    requires
        p >= 0,
    ensures
        p <= skip_from(d, p, c),
        skip_from(d, p, c) < d.len() ==> !is_blank(d[skip_from(d, p, c)]) && d[skip_from(d, p, c)]
            != 0x23,
        p >= d.len() ==> skip_from(d, p, c) == p,
        skip_from(d, p, c) <= d.len() || skip_from(d, p, c) == p,
    decreases d.len() - p,
{
    if p < d.len() {
        if c {
            if d[p] == 0x0d || d[p] == 0x0a {
                lemma_skip_from_bounds(d, p + 1, false);
            } else {
                lemma_skip_from_bounds(d, p + 1, true);
            }
        } else if is_blank(d[p]) {
            lemma_skip_from_bounds(d, p + 1, false);
        } else if d[p] == 0x23 {
            lemma_skip_from_bounds(d, p + 1, true);
        }
    }
}

pub proof fn lemma_token_end_bounds(d: Seq<u8>, p: int)
    requires
        p >= 0,
    ensures
        p <= token_end(d, p),
        p < d.len() ==> token_end(d, p) <= d.len(),
        p < d.len() && !is_blank(d[p]) ==> p < token_end(d, p),
    decreases d.len() - p,
{
    if p < d.len() && !is_blank(d[p]) {
        lemma_token_end_bounds(d, p + 1);
    }
}

/// After a token was found, the position lies strictly after where the scan
/// began.
pub proof fn lemma_scan_token_progress(d: Seq<u8>, p: int)
    requires
        0 <= p,
    ensures
        p <= scan_token(d, p).1,
        scan_token(d, p).1 <= d.len() || scan_token(d, p).1 == p,
        scan_token(d, p).0 matches Ok((s, e)) ==> p <= s < e <= d.len() && e == scan_token(d, p).1,
{
    lemma_skip_from_bounds(d, p, false);
    let s = skip_blank(d, p);
    if s < d.len() {
        lemma_token_end_bounds(d, s);
    }
}

// ---------------------------------------------------------------------------
// The parser over a byte buffer.
// ---------------------------------------------------------------------------

/// A cursor over the bytes of a Netpbm header.
pub struct HeaderParser<'a> {
    data: &'a [u8],
    position: usize,
}

impl<'a> HeaderParser<'a> {
    /// The bytes under the cursor.
    pub closed spec fn bytes(&self) -> Seq<u8> {
        self.data@
    }

    /// The cursor's position.
    pub closed spec fn pos(&self) -> int {
        self.position as int
    }

    pub fn new(data: &'a [u8]) -> (parser: Self)
        ensures
            parser.bytes() == data@,
            parser.pos() == 0,
    {
        HeaderParser { data, position: 0 }
    }

    pub fn position(&self) -> (n: usize)
        ensures
            n == self.pos(),
    {
        self.position
    }

    pub fn set_position(&mut self, position: usize)
        ensures
            final(self).bytes() == old(self).bytes(),
            final(self).pos() == position,
    {
        self.position = position;
    }

    /// Moves past whitespace and comments.
    fn skip_whitespace_and_comments(&mut self)
        ensures
            final(self).bytes() == old(self).bytes(),
            final(self).pos() == skip_blank(old(self).bytes(), old(self).pos()),
    {
        let ghost d = self.data@;
        let ghost target = skip_blank(d, self.position as int);
        let mut in_comment = false;
        loop
            invariant
                self.data@ == d,
                self.data@ == old(self).data@,
                skip_from(d, self.position as int, in_comment) == target,
            ensures
                self.data@ == old(self).data@,
                self.position == target,
            decreases d.len() - self.position,
        {
            if self.position >= self.data.len() {
                break;
            }
            let byte = self.data[self.position];
            if in_comment {
                if byte == 0x0d || byte == 0x0a {
                    in_comment = false;
                }
                self.position = self.position + 1;
            } else if is_whitespace(byte) {
                self.position = self.position + 1;
            } else if byte == 0x23 {
                in_comment = true;
                self.position = self.position + 1;
            } else {
                break;
            }
        }
    }

    /// Reads the next whitespace-separated token.
    pub fn next_token(&mut self) -> (res: Result<&'a [u8], ImageError>)
        ensures
            final(self).bytes() == old(self).bytes(),
            final(self).pos() == scan_token(old(self).bytes(), old(self).pos()).1,
            match res {
                Ok(tok) => scan_token(old(self).bytes(), old(self).pos()).0 matches Ok((s, e))
                    && tok@ == old(self).bytes().subrange(s, e),
                Err(e) => scan_token(old(self).bytes(), old(self).pos()).0 == Err::<(int, int), _>(
                    e,
                ),
            },
    {
        self.skip_whitespace_and_comments();
        if self.position >= self.data.len() {
            return Err(ImageError::InvalidHeader { reason: "unexpected end of header" });
        }
        let start = self.position;
        let ghost d = self.data@;
        while self.position < self.data.len() && !is_whitespace(self.data[self.position])
            invariant
                self.data@ == d,
                self.data@ == old(self).data@,
                start <= self.position <= d.len(),
                token_end(d, self.position as int) == token_end(d, start as int),
            decreases d.len() - self.position,
        {
            self.position = self.position + 1;
        }
        let data = self.data;
        Ok(&data[start..self.position])
    }

    /// Reads the next token as an unsigned decimal number; `name` is the
    /// reason reported when the token is not one.
    pub fn next_u32(&mut self, name: &'static str) -> (res: Result<u32, ImageError>)
        ensures
            final(self).bytes() == old(self).bytes(),
            final(self).pos() == scan_u32(old(self).bytes(), old(self).pos(), name).1,
            res == scan_u32(old(self).bytes(), old(self).pos(), name).0,
    {
        let token = match self.next_token() {
            Ok(token) => token,
            Err(e) => return Err(e),
        };
        if !is_utf8(token) {
            return Err(ImageError::InvalidHeader { reason: "header contains non-UTF-8 token" });
        }
        match parse_u32(token) {
            Some(v) => Ok(v),
            None => Err(ImageError::InvalidHeader { reason: name }),
        }
    }

    /// Reads the next sample as an 8-bit value no larger than `max_value`.
    pub fn next_u8_sample(&mut self, max_value: u32) -> (res: Result<u8, ImageError>)
        ensures
            final(self).bytes() == old(self).bytes(),
            final(self).pos() == scan_u8_sample(old(self).bytes(), old(self).pos(), max_value).1,
            res == scan_u8_sample(old(self).bytes(), old(self).pos(), max_value).0,
    {
        let sample = match self.next_u32("sample") {
            Ok(v) => v,
            Err(e) => return Err(e),
        };
        if sample > max_value {
            return Err(ImageError::InvalidData { reason: "sample value exceeds max value" });
        }
        if sample > 255 {
            return Err(ImageError::InvalidData { reason: "sample value is larger than u8" });
        }
        Ok(sample as u8)
    }

    /// Reads the next sample as a 16-bit value no larger than `max_value`.
    pub fn next_u16_sample(&mut self, max_value: u32) -> (res: Result<u16, ImageError>)
        ensures
            final(self).bytes() == old(self).bytes(),
            final(self).pos() == scan_u16_sample(old(self).bytes(), old(self).pos(), max_value).1,
            res == scan_u16_sample(old(self).bytes(), old(self).pos(), max_value).0,
    {
        let sample = match self.next_u32("sample") {
            Ok(v) => v,
            Err(e) => return Err(e),
        };
        if sample > max_value {
            return Err(ImageError::InvalidData { reason: "sample value exceeds max value" });
        }
        if sample > 65535 {
            return Err(ImageError::InvalidData { reason: "sample value is larger than u16" });
        }
        Ok(sample as u16)
    }

    /// Reads the maximum sample value, which must lie in `1..=65535`.
    pub fn next_max_value(&mut self) -> (res: Result<u32, ImageError>)
        ensures
            final(self).bytes() == old(self).bytes(),
            final(self).pos() == scan_max_value(old(self).bytes(), old(self).pos()).1,
            res == scan_max_value(old(self).bytes(), old(self).pos()).0,
    {
        let max_value = match self.next_u32("max value") {
            Ok(v) => v,
            Err(e) => return Err(e),
        };
        if !(1 <= max_value && max_value <= MAX_SUPPORTED_VALUE) {
            return Err(ImageError::InvalidHeader { reason: "max value must be between 1 and 65535" });
        }
        Ok(max_value)
    }

    /// Whether anything but whitespace and comments remains; moves past them.
    pub fn has_more_tokens(&mut self) -> (r: bool)
        ensures
            final(self).bytes() == old(self).bytes(),
            final(self).pos() == skip_blank(old(self).bytes(), old(self).pos()),
            r == more_tokens(old(self).bytes(), old(self).pos()),
    {
        self.skip_whitespace_and_comments();
        self.position < self.data.len()
    }

    /// Consumes the single whitespace byte (or CR LF pair) between a binary
    /// header and its raster.
    pub fn consume_raster_separator(&mut self) -> (res: Result<(), ImageError>)
        ensures
            final(self).bytes() == old(self).bytes(),
            match scan_separator(old(self).bytes(), old(self).pos()) {
                Ok(q) => res is Ok && final(self).pos() == q,
                Err(e) => res == Err::<(), _>(e) && final(self).pos() == old(self).pos(),
            },
    {
        if self.position >= self.data.len() || !is_whitespace(self.data[self.position]) {
            return Err(ImageError::InvalidHeader { reason: "missing raster separator" });
        }
        if self.data[self.position] == 0x0d && self.position + 1 < self.data.len() && self.data[
            self.position + 1] == 0x0a {
            self.position = self.position + 2;
            return Ok(());
        }
        self.position = self.position + 1;
        Ok(())
    }
}


// ---------------------------------------------------------------------------
// Headers.
// ---------------------------------------------------------------------------

/// Reads a magic number, which must be `expected_magic`, then width and
/// height, which must not be zero.
pub fn read_bitmap_header(parser: &mut HeaderParser<'_>, expected_magic: &[u8]) -> (res: Result<
    Dimensions,
    ImageError,
>)
    ensures
        final(parser).bytes() == old(parser).bytes(),
        final(parser).pos() == scan_bitmap_header(old(parser).bytes(), old(parser).pos(), expected_magic@).1,
        res == scan_bitmap_header(old(parser).bytes(), old(parser).pos(), expected_magic@).0,
{
    let magic = match parser.next_token() {
        Ok(t) => t,
        Err(e) => return Err(e),
    };
    if !bytes_equal(magic, expected_magic) {
        return Err(ImageError::UnsupportedFormat);
    }
    let width = match parser.next_u32("width") {
        Ok(v) => v,
        Err(e) => return Err(e),
    };
    let height = match parser.next_u32("height") {
        Ok(v) => v,
        Err(e) => return Err(e),
    };
    let dimensions = Dimensions { width, height };
    match validate_dimensions(dimensions) {
        Ok(()) => {},
        Err(e) => return Err(e),
    }
    Ok(dimensions)
}

/// Reads a bitmap header followed by the maximum sample value.
pub fn read_any_sample_header(parser: &mut HeaderParser<'_>, expected_magic: &[u8]) -> (res: Result<
    (Dimensions, u16),
    ImageError,
>)
    ensures
        final(parser).bytes() == old(parser).bytes(),
        final(parser).pos() == scan_sample_header(old(parser).bytes(), old(parser).pos(), expected_magic@).1,
        res == scan_sample_header(old(parser).bytes(), old(parser).pos(), expected_magic@).0,
{
    let dimensions = match read_bitmap_header(parser, expected_magic) {
        Ok(d) => d,
        Err(e) => return Err(e),
    };
    let max_value = match parser.next_max_value() {
        Ok(v) => v,
        Err(e) => return Err(e),
    };
    Ok((dimensions, max_value as u16))
}

/// Rejects zero width or height.
pub fn validate_dimensions(dimensions: Dimensions) -> (res: Result<(), ImageError>)
    ensures
        res is Ok <==> dimensions.width != 0 && dimensions.height != 0,
        res is Err ==> res == Err::<(), _>(zero_dimensions_header()),
{
    if dimensions.width == 0 || dimensions.height == 0 {
        return Err(ImageError::InvalidHeader {
            reason: "width and height must be greater than zero",
        });
    }
    Ok(())
}

/// The check that an image view is in `pixel_format`, not empty, and covered
/// by its buffer: `None` when it is, else the error.
pub open spec fn view_check(image: ImageView<'_>, pixel_format: PixelFormat) -> Option<ImageError> {
    if image.pixel_format != pixel_format {
        Some(ImageError::UnsupportedPixelFormat { pixel_format: image.pixel_format })
    } else if image.width == 0 || image.height == 0 {
        Some(zero_dimensions_data())
    } else {
        image_view_new_error(
            image.width,
            image.height,
            image.pixel_format,
            image.stride,
            image.data@.len() as int,
        )
    }
}

/// Checks that an image view has the expected pixel format, is not empty,
/// and that its buffer covers every row.
pub fn validate_image_view(image: ImageView<'_>, pixel_format: PixelFormat) -> (res: Result<
    ImageView<'_>,
    ImageError,
>)
    ensures
        match res {
            Ok(view) => view_check(image, pixel_format) is None && view == image && view.covers(),
            Err(e) => view_check(image, pixel_format) == Some(e),
        },
{
    if image.pixel_format != pixel_format {
        return Err(ImageError::UnsupportedPixelFormat { pixel_format: image.pixel_format });
    }
    if image.width == 0 || image.height == 0 {
        return Err(ImageError::InvalidData {
            reason: "width and height must be greater than zero",
        });
    }
    ImageView::new(image.width, image.height, image.pixel_format, image.stride, image.data)
}

// ---------------------------------------------------------------------------
// ASCII samples.
// ---------------------------------------------------------------------------

/// How one ASCII sample is read and stored.
#[derive(Clone, Copy, Debug, Eq, PartialEq, Structural)]
pub enum SampleKind {
    /// A PBM bit, `0` or `1`, stored as one byte.
    Bit,
    /// A sample at most the given maximum, stored as one byte.
    Narrow(u32),
    /// A sample at most the given maximum, stored as two little-endian bytes.
    Wide(u32),
}

pub open spec fn le_bytes(v: u16) -> Seq<u8> {
    seq![(v % 256) as u8, (v / 256) as u8]
}

/// The stored bytes of the next ASCII sample after `p`, and the position
/// after it.
pub open spec fn scan_sample(d: Seq<u8>, p: int, kind: SampleKind) -> (Result<Seq<u8>, ImageError>, int) {
    match kind {
        SampleKind::Bit => {
            let (r, q) = scan_u32(d, p, "bitmap sample");
            match r {
                Err(e) => (Err(e), q),
                Ok(v) => if v == 0 || v == 1 {
                    (Ok(seq![v as u8]), q)
                } else {
                    (Err(ImageError::InvalidData { reason: "invalid PBM sample" }), q)
                },
            }
        },
        SampleKind::Narrow(max) => {
            let (r, q) = scan_u8_sample(d, p, max);
            match r {
                Err(e) => (Err(e), q),
                Ok(v) => (Ok(seq![v]), q),
            }
        },
        SampleKind::Wide(max) => {
            let (r, q) = scan_u16_sample(d, p, max);
            match r {
                Err(e) => (Err(e), q),
                Ok(v) => (Ok(le_bytes(v)), q),
            }
        },
    }
}

/// The stored bytes of the next `n` ASCII samples after `p`, and the
/// position after them (or after the sample that failed).
pub open spec fn scan_samples(d: Seq<u8>, p: int, n: nat, kind: SampleKind) -> (Result<
    Seq<u8>,
    ImageError,
>, int)
    decreases n,
{
    if n == 0 {
        (Ok(Seq::empty()), p)
    } else {
        let (r, q) = scan_samples(d, p, (n - 1) as nat, kind);
        match r {
            Err(e) => (Err(e), q),
            Ok(acc) => {
                let (r2, q2) = scan_sample(d, q, kind);
                match r2 {
                    Err(e) => (Err(e), q2),
                    Ok(b) => (Ok(acc + b), q2),
                }
            },
        }
    }
}

/// The `n` ASCII samples after `p`, which must be the last tokens of the input.
pub open spec fn scan_ascii_raster(d: Seq<u8>, p: int, n: nat, kind: SampleKind) -> Result<
    Seq<u8>,
    ImageError,
> {
    let (r, q) = scan_samples(d, p, n, kind);
    match r {
        Err(e) => Err(e),
        Ok(bytes) => if more_tokens(d, q) {
            Err(ImageError::InvalidData { reason: "too many samples" })
        } else {
            Ok(bytes)
        },
    }
}

/// Once a run of samples failed, longer runs fail the same way.
pub proof fn lemma_scan_samples_error_persists(d: Seq<u8>, p: int, i: nat, j: nat, kind: SampleKind)
    requires
        i <= j,
        scan_samples(d, p, i, kind).0 is Err,
    ensures
        scan_samples(d, p, j, kind) == scan_samples(d, p, i, kind),
    decreases j,
{
    if j > i {
        lemma_scan_samples_error_persists(d, p, i, (j - 1) as nat, kind);
    }
}

/// Reads one ASCII sample and returns its stored bytes.
pub fn read_ascii_sample(parser: &mut HeaderParser<'_>, kind: SampleKind) -> (res: Result<
    Vec<u8>,
    ImageError,
>)
    ensures
        final(parser).bytes() == old(parser).bytes(),
        final(parser).pos() == scan_sample(old(parser).bytes(), old(parser).pos(), kind).1,
        match res {
            Ok(v) => scan_sample(old(parser).bytes(), old(parser).pos(), kind).0 == Ok::<
                Seq<u8>,
                ImageError,
            >(v@),
            Err(e) => scan_sample(old(parser).bytes(), old(parser).pos(), kind).0 == Err::<
                Seq<u8>,
                _,
            >(e),
        },
{
    let mut out: Vec<u8> = Vec::new();
    match kind {
        SampleKind::Bit => {
            let sample = match parser.next_u32("bitmap sample") {
                Ok(v) => v,
                Err(e) => return Err(e),
            };
            match validate_pbm_sample(sample) {
                Ok(v) => out.push(v),
                Err(e) => return Err(e),
            }
        },
        SampleKind::Narrow(max) => {
            match parser.next_u8_sample(max) {
                Ok(v) => out.push(v),
                Err(e) => return Err(e),
            }
        },
        SampleKind::Wide(max) => {
            match parser.next_u16_sample(max) {
                Ok(v) => {
                    out.push((v % 256) as u8);
                    out.push((v / 256) as u8);
                },
                Err(e) => return Err(e),
            }
        },
    }
    assert(out@ =~= match kind {
        SampleKind::Bit => seq![out@[0]],
        SampleKind::Narrow(_) => seq![out@[0]],
        SampleKind::Wide(_) => seq![out@[0], out@[1]],
    });
    Ok(out)
}

/// Accepts a PBM sample, which must be `0` or `1`.
pub fn validate_pbm_sample(sample: u32) -> (res: Result<u8, ImageError>)
    ensures
        res == (if sample == 0 || sample == 1 {
            Ok::<u8, ImageError>(sample as u8)
        } else {
            Err(ImageError::InvalidData { reason: "invalid PBM sample" })
        }),
{
    match sample {
        0 => Ok(0),
        1 => Ok(1),
        _ => Err(ImageError::InvalidData { reason: "invalid PBM sample" }),
    }
}

/// Reads `expected` ASCII samples, which must be the last tokens of the
/// input, and returns their stored bytes.
pub fn read_ascii_samples(parser: &mut HeaderParser<'_>, expected: usize, kind: SampleKind) -> (res:
    Result<Vec<u8>, ImageError>)
    ensures
        final(parser).bytes() == old(parser).bytes(),
        match res {
            Ok(v) => scan_ascii_raster(old(parser).bytes(), old(parser).pos(), expected as nat, kind)
                == Ok::<Seq<u8>, ImageError>(v@),
            Err(e) => scan_ascii_raster(old(parser).bytes(), old(parser).pos(), expected as nat, kind)
                == Err::<Seq<u8>, _>(e),
        },
{
    let ghost d = parser.bytes();
    let ghost p0 = parser.pos();
    let mut pixels: Vec<u8> = Vec::new();
    let mut i: usize = 0;
    while i < expected
        invariant
            i <= expected,
            parser.bytes() == d,
            d == old(parser).bytes(),
            p0 == old(parser).pos(),
            scan_samples(d, p0, i as nat, kind) == (Ok::<Seq<u8>, ImageError>(pixels@), parser.pos()),
        decreases expected - i,
    {
        let sample = read_ascii_sample(parser, kind);
        match sample {
            Ok(bytes) => {
                let ghost before = pixels@;
                append_bytes(&mut pixels, bytes.as_slice());
                assert(scan_samples(d, p0, (i + 1) as nat, kind).0 == Ok::<Seq<u8>, ImageError>(
                    before + bytes@,
                ));
            },
            Err(e) => {
                proof {
                    lemma_scan_samples_error_persists(d, p0, (i + 1) as nat, expected as nat, kind);
                }
                return Err(e);
            },
        }
        i = i + 1;
    }
    match reject_trailing_tokens(parser) {
        Ok(()) => {},
        Err(e) => return Err(e),
    }
    Ok(pixels)
}

/// Reads `expected` ASCII samples no larger than `max_value` as bytes.
pub fn read_ascii_samples_with_max_value(
    parser: &mut HeaderParser<'_>,
    expected: usize,
    max_value: u32,
) -> (res: Result<Vec<u8>, ImageError>)
    ensures
        final(parser).bytes() == old(parser).bytes(),
        match res {
            Ok(v) => scan_ascii_raster(
                old(parser).bytes(),
                old(parser).pos(),
                expected as nat,
                SampleKind::Narrow(max_value),
            ) == Ok::<Seq<u8>, ImageError>(v@),
            Err(e) => scan_ascii_raster(
                old(parser).bytes(),
                old(parser).pos(),
                expected as nat,
                SampleKind::Narrow(max_value),
            ) == Err::<Seq<u8>, _>(e),
        },
{
    read_ascii_samples(parser, expected, SampleKind::Narrow(max_value))
}

/// How ASCII samples with this maximum are stored: one byte below 256, two
/// little-endian bytes from 256 on.
pub open spec fn kind_for_max(max_value: u16) -> SampleKind {
    if max_value < 256 {
        SampleKind::Narrow(max_value as u32)
    } else {
        SampleKind::Wide(max_value as u32)
    }
}

/// Reads `expected_samples` ASCII samples no larger than `max_value`, one
/// byte each below 256 and two little-endian bytes each from 256 on.
pub fn read_ascii_sample_bytes_with_max_value(
    parser: &mut HeaderParser<'_>,
    expected_samples: usize,
    max_value: u16,
) -> (res: Result<Vec<u8>, ImageError>)
    ensures
        final(parser).bytes() == old(parser).bytes(),
        match res {
            Ok(v) => scan_ascii_raster(
                old(parser).bytes(),
                old(parser).pos(),
                expected_samples as nat,
                kind_for_max(max_value),
            ) == Ok::<Seq<u8>, ImageError>(v@),
            Err(e) => scan_ascii_raster(
                old(parser).bytes(),
                old(parser).pos(),
                expected_samples as nat,
                kind_for_max(max_value),
            ) == Err::<Seq<u8>, _>(e),
        },
{
    if max_value < 256 {
        read_ascii_samples(parser, expected_samples, SampleKind::Narrow(max_value as u32))
    } else {
        read_ascii_samples(parser, expected_samples, SampleKind::Wide(max_value as u32))
    }
}

/// Fails when anything but whitespace and comments remains.
pub fn reject_trailing_tokens(parser: &mut HeaderParser<'_>) -> (res: Result<(), ImageError>)
    ensures
        final(parser).bytes() == old(parser).bytes(),
        final(parser).pos() == skip_blank(old(parser).bytes(), old(parser).pos()),
        res is Ok <==> !more_tokens(old(parser).bytes(), old(parser).pos()),
        res is Err ==> res == Err::<(), _>(ImageError::InvalidData { reason: "too many samples" }),
{
    if parser.has_more_tokens() {
        return Err(ImageError::InvalidData { reason: "too many samples" });
    }
    Ok(())
}


// ---------------------------------------------------------------------------
// Binary rasters.
// ---------------------------------------------------------------------------

/// Bytes of a binary raster in `pixel_format`: the row length must fit a
/// `u32` and the raster a `usize`.
pub open spec fn raster_len_spec(dimensions: Dimensions, pixel_format: PixelFormat) -> Result<
    int,
    ImageError,
> {
    let row = dimensions.width * pixel_format.spec_bytes_per_pixel();
    if row > u32::MAX || row * dimensions.height > usize::MAX {
        Err(too_large(dimensions.width, dimensions.height, pixel_format))
    } else {
        Ok(row * dimensions.height)
    }
}

/// Where the raster that starts at `p` lies in the input.
pub open spec fn raster_range(d: Seq<u8>, p: int, dimensions: Dimensions, pixel_format: PixelFormat) -> Result<
    (int, int),
    ImageError,
> {
    match raster_len_spec(dimensions, pixel_format) {
        Err(e) => Err(e),
        Ok(n) => if p + n > usize::MAX {
            Err(too_large(dimensions.width, dimensions.height, pixel_format))
        } else if p + n > d.len() {
            Err(
                ImageError::InvalidBufferLength {
                    expected: n as usize,
                    actual: (if d.len() > p {
                        d.len() - p
                    } else {
                        0
                    }) as usize,
                },
            )
        } else {
            Ok((p, p + n))
        },
    }
}

/// Returns the number of bytes of a binary raster in `pixel_format`.
pub fn packed_raster_len(dimensions: Dimensions, pixel_format: PixelFormat) -> (res: Result<
    usize,
    ImageError,
>)
    ensures
        match res {
            Ok(n) => raster_len_spec(dimensions, pixel_format) == Ok::<int, ImageError>(n as int),
            Err(e) => raster_len_spec(dimensions, pixel_format) == Err::<int, _>(e),
        },
{
    let bpp = pixel_format.bytes_per_pixel();
    let row_len = match dimensions.width.checked_mul(bpp as u32) {
        Some(r) => r,
        None => return Err(ImageError::ImageDimensionsTooLarge {
            width: dimensions.width,
            height: dimensions.height,
            bytes_per_pixel: bpp,
        }),
    };
    match (row_len as usize).checked_mul(dimensions.height as usize) {
        Some(n) => Ok(n),
        None => Err(ImageError::ImageDimensionsTooLarge {
            width: dimensions.width,
            height: dimensions.height,
            bytes_per_pixel: bpp,
        }),
    }
}

/// Returns the binary raster that starts at the parser's position.
pub fn raster_slice<'a>(
    data: &'a [u8],
    parser: &HeaderParser<'_>,
    dimensions: Dimensions,
    pixel_format: PixelFormat,
) -> (res: Result<&'a [u8], ImageError>)
    ensures
        match raster_range(data@, parser.pos(), dimensions, pixel_format) {
            Ok((s, e)) => res is Ok && res.unwrap()@ == data@.subrange(s, e),
            Err(e) => res == Err::<&[u8], _>(e),
        },
{
    let raster_start = parser.position();
    let raster_len = match packed_raster_len(dimensions, pixel_format) {
        Ok(n) => n,
        Err(e) => return Err(e),
    };
    let raster_end = match raster_start.checked_add(raster_len) {
        Some(e) => e,
        None => return Err(ImageError::ImageDimensionsTooLarge {
            width: dimensions.width,
            height: dimensions.height,
            bytes_per_pixel: pixel_format.bytes_per_pixel(),
        }),
    };
    if raster_end > data.len() {
        return Err(ImageError::InvalidBufferLength {
            expected: raster_len,
            actual: data.len().saturating_sub(raster_start),
        });
    }
    Ok(&data[raster_start..raster_end])
}

/// Pairs of bytes with their two bytes swapped; a trailing odd byte is
/// dropped. Turns big-endian 16-bit samples into little-endian ones and back.
pub open spec fn swap_pairs(d: Seq<u8>) -> Seq<u8> {
    Seq::new(
        (d.len() - d.len() % 2) as nat,
        |i: int|
            if i % 2 == 0 {
                d[i + 1]
            } else {
                d[i - 1]
            },
    )
}

/// Converts big-endian 16-bit samples into little-endian bytes.
pub fn be_samples_to_le_bytes(data: &[u8]) -> (out: Vec<u8>)
    ensures
        out@ == swap_pairs(data@),
{
    let mut out: Vec<u8> = Vec::new();
    append_swapped_pairs(&mut out, data);
    assert(out@ =~= swap_pairs(data@));
    out
}

/// Appends bytes with the two bytes of each pair swapped.
pub fn append_swapped_pairs(out: &mut Vec<u8>, data: &[u8])
    ensures
        final(out)@ == old(out)@ + swap_pairs(data@),
{
    let ghost start = out@;
    let ghost sw = swap_pairs(data@);
    let pairs = data.len() / 2;
    let mut k: usize = 0;
    while k < pairs
        invariant
            pairs == data@.len() / 2,
            sw == swap_pairs(data@),
            k <= pairs,
            out@.len() == start.len() + 2 * k,
            forall|i: int| 0 <= i < start.len() ==> out@[i] == start[i],
            forall|i: int| start.len() <= i < start.len() + 2 * k ==> out@[i] == sw[i - start.len()],
        decreases pairs - k,
    {
        assert(2 * k + 1 < data.len());
        let i = 2 * k;
        out.push(data[i + 1]);
        out.push(data[i]);
        k = k + 1;
    }
    assert(out@ =~= start + sw);
}

// ---------------------------------------------------------------------------
// Native images.
// ---------------------------------------------------------------------------

/// A PBM, PGM or PPM image with its native sample values.
#[derive(Clone, Debug, Eq, PartialEq)]
pub enum NetpbmImage {
    Pbm { width: u32, height: u32, data: Vec<u8> },
    Pgm { width: u32, height: u32, maxval: u16, data: Vec<u8> },
    Ppm { width: u32, height: u32, maxval: u16, data: Vec<u8> },
}

/// The mathematical value of a `NetpbmImage`.
pub enum NetpbmModel {
    Pbm { width: u32, height: u32, data: Seq<u8> },
    Pgm { width: u32, height: u32, maxval: u16, data: Seq<u8> },
    Ppm { width: u32, height: u32, maxval: u16, data: Seq<u8> },
}

impl View for NetpbmImage {
    type V = NetpbmModel;

    open spec fn view(&self) -> NetpbmModel {
        match self {
            NetpbmImage::Pbm { width, height, data } => NetpbmModel::Pbm {
                width: *width,
                height: *height,
                data: data@,
            },
            NetpbmImage::Pgm { width, height, maxval, data } => NetpbmModel::Pgm {
                width: *width,
                height: *height,
                maxval: *maxval,
                data: data@,
            },
            NetpbmImage::Ppm { width, height, maxval, data } => NetpbmModel::Ppm {
                width: *width,
                height: *height,
                maxval: *maxval,
                data: data@,
            },
        }
    }
}

/// A result holding a native image, seen through the image's model.
pub open spec fn native_result(r: Result<NetpbmImage, ImageError>) -> Result<NetpbmModel, ImageError> {
    match r {
        Ok(image) => Ok(image@),
        Err(e) => Err(e),
    }
}

/// A result holding native images, seen through their models.
pub open spec fn natives_result(r: Result<Vec<NetpbmImage>, ImageError>) -> Result<
    Seq<NetpbmModel>,
    ImageError,
> {
    match r {
        Ok(images) => Ok(images@.map_values(|i: NetpbmImage| i@)),
        Err(e) => Err(e),
    }
}

// ---------------------------------------------------------------------------
// Writing headers and rows.
// ---------------------------------------------------------------------------

/// `magic`, a line break, width and height, and a line break.
pub open spec fn bitmap_header_bytes(magic: Seq<u8>, width: u32, height: u32) -> Seq<u8> {
    magic + seq![0x0au8] + decimal(width as nat) + seq![0x20u8] + decimal(height as nat) + seq![
        0x0au8,
    ]
}

/// A bitmap header followed by the maximum sample value and a line break.
pub open spec fn sample_header_bytes(magic: Seq<u8>, width: u32, height: u32, maxval: u16) -> Seq<u8> {
    bitmap_header_bytes(magic, width, height) + decimal(maxval as nat) + seq![0x0au8]
}

/// Appends a bitmap header given by the bytes of its magic number.
pub fn write_header_dimensions(writer: &mut Vec<u8>, magic: &[u8], width: u32, height: u32)
    ensures
        final(writer)@ == old(writer)@ + bitmap_header_bytes(magic@, width, height),
{
    append_bytes(writer, magic);
    writer.push(0x0a);
    push_decimal(writer, width);
    writer.push(0x20);
    push_decimal(writer, height);
    writer.push(0x0a);
    assert(final(writer)@ =~= old(writer)@ + bitmap_header_bytes(magic@, width, height));
}

/// Appends a header with a maximum sample value given by the bytes of its
/// magic number.
pub fn write_header_max_value(writer: &mut Vec<u8>, magic: &[u8], width: u32, height: u32, maxval: u16)
    ensures
        final(writer)@ == old(writer)@ + sample_header_bytes(magic@, width, height, maxval),
{
    write_header_dimensions(writer, magic, width, height);
    push_decimal(writer, maxval as u32);
    writer.push(0x0a);
    assert(final(writer)@ =~= old(writer)@ + sample_header_bytes(magic@, width, height, maxval));
}

/// Writes a header with a maximum sample value.
pub fn write_sample_header_with_max_value(
    writer: &mut Vec<u8>,
    magic: &str,
    width: u32,
    height: u32,
    maxval: u16,
) -> (res: Result<(), ImageError>)
    ensures
        res is Ok,
        final(writer)@ == old(writer)@ + sample_header_bytes(magic.spec_bytes(), width, height, maxval),
{
    write_header_max_value(writer, magic.as_bytes(), width, height, maxval);
    Ok(())
}

/// Writes a bitmap header for an image view.
pub fn write_bitmap_header(writer: &mut Vec<u8>, magic: &str, image: ImageView<'_>) -> (res: Result<
    (),
    ImageError,
>)
    ensures
        res is Ok,
        final(writer)@ == old(writer)@ + bitmap_header_bytes(magic.spec_bytes(), image.width, image.height),
{
    write_bitmap_header_dimensions(writer, magic, image.width, image.height)
}

/// Writes a bitmap header.
pub fn write_bitmap_header_dimensions(writer: &mut Vec<u8>, magic: &str, width: u32, height: u32) -> (res:
    Result<(), ImageError>)
    ensures
        res is Ok,
        final(writer)@ == old(writer)@ + bitmap_header_bytes(magic.spec_bytes(), width, height),
{
    write_header_dimensions(writer, magic.as_bytes(), width, height);
    Ok(())
}

/// Row `row` of a covered view lies inside its buffer.
pub proof fn lemma_row_in_view(view: ImageView<'_>, row: int)
    requires
        view.covers(),
        0 <= row < view.height,
    ensures
        0 <= row * view.stride,
        row * view.stride + row_len(view.width, view.pixel_format) <= view.data@.len(),
        row_len(view.width, view.pixel_format) >= 0,
{
    let r = row_len(view.width, view.pixel_format);
    let s = view.stride as int;
    assert(r >= 0) by (nonlinear_arith)
        requires
            r == view.width * view.pixel_format.spec_bytes_per_pixel(),
    ;
    assert(0 <= row * s <= (view.height - 1) * s) by (nonlinear_arith)
        requires
            0 <= row <= view.height - 1,
            s >= 0,
    ;
}

/// Appends the pixel bytes of a covered view, row after row.
pub fn append_rows(writer: &mut Vec<u8>, image: ImageView<'_>)
    requires
        image.covers(),
    ensures
        final(writer)@ == old(writer)@ + image.pixels(),
{
    let len = row_len_of(image);
    let ghost start = writer@;
    let mut row: usize = 0;
    while row < image.height as usize
        invariant
            image.covers(),
            row <= image.height,
            len == row_len(image.width, image.pixel_format),
            writer@ == start + crate::image::strided_rows(
                image.data@,
                image.stride as int,
                len as int,
                row as nat,
            ),
        decreases image.height - row,
    {
        proof {
            lemma_row_in_view(image, row as int);
        }
        let total = image.data.len();
        assert(row * image.stride + len <= total);
        let start_index = row * image.stride;
        let end = start_index + len;
        append_bytes(writer, &image.data[start_index..end]);
        row = row + 1;
        assert(writer@ =~= start + crate::image::strided_rows(
            image.data@,
            image.stride as int,
            len as int,
            row as nat,
        ));
    }
}

/// The row length of a covered view, which fits its stride.
pub fn row_len_of(image: ImageView<'_>) -> (n: usize)
    requires
        image.covers(),
    ensures
        n == row_len(image.width, image.pixel_format),
{
    match crate::image::row_len_exec(image.width, image.pixel_format) {
        Some(n) => n,
        None => 0,
    }
}

/// Writes the pixel bytes of a covered view, row after row, leaving out the
/// bytes between rows.
pub fn write_packed_rows(writer: &mut Vec<u8>, image: ImageView<'_>) -> (res: Result<(), ImageError>)
    requires
        image.covers(),
    ensures
        res is Ok,
        final(writer)@ == old(writer)@ + image.pixels(),
{
    append_rows(writer, image);
    Ok(())
}

/// The pixel bytes of a covered view, row after row.
pub fn packed_image_data(image: ImageView<'_>) -> (data: Vec<u8>)
    requires
        image.covers(),
    ensures
        data@ == image.pixels(),
{
    let mut data: Vec<u8> = Vec::new();
    append_rows(&mut data, image);
    assert(data@ =~= image.pixels());
    data
}


// ---------------------------------------------------------------------------
// Sample normalization and conversion to the generic image.
// ---------------------------------------------------------------------------

/// An 8-bit sample scaled from `0..=maxval` to `0..=255`, rounded to nearest.
pub open spec fn norm8(sample: u8, maxval: u16) -> u8 {
    ((sample * 255 + maxval / 2) / maxval as int) as u8
}

/// A 16-bit sample scaled from `0..=maxval` to `0..=65535`, rounded to nearest.
pub open spec fn norm16(sample: u16, maxval: u16) -> u16 {
    ((sample * 65535 + maxval / 2) / maxval as int) as u16
}

/// The `k`-th little-endian 16-bit value of a byte sequence.
pub open spec fn le16(d: Seq<u8>, k: int) -> u16 {
    (d[2 * k] + d[2 * k + 1] * 256) as u16
}

/// Scales a sample from `0..=maxval` to `0..=255`, rounding to nearest.
pub fn normalize_sample_to_u8(sample: u8, maxval: u16) -> (r: u8)
    requires
        maxval >= 1,
    ensures
        r == norm8(sample, maxval),
{
    let sample = sample as u32;
    let maxval = maxval as u32;
    ((sample * 255 + maxval / 2) / maxval) as u8
}

/// Scales a sample from `0..=maxval` to `0..=65535`, rounding to nearest.
pub fn normalize_sample_to_u16(sample: u16, maxval: u16) -> (r: u16)
    requires
        maxval >= 1,
    ensures
        r == norm16(sample, maxval),
{
    let sample = sample as u32;
    let maxval = maxval as u32;
    ((sample * 65535 + maxval / 2) / maxval) as u16
}

/// Native sample bytes scaled to the full range: unchanged for maxval 255,
/// each byte scaled below 256, each little-endian pair scaled from 256 on.
pub open spec fn normalized_bytes(data: Seq<u8>, maxval: u16) -> Seq<u8> {
    if maxval == 255 {
        data
    } else if maxval < 256 {
        Seq::new(data.len(), |i: int| norm8(data[i], maxval))
    } else {
        Seq::new(
            (data.len() - data.len() % 2) as nat,
            |i: int|
                {
                    let v = norm16(le16(data, i / 2), maxval);
                    if i % 2 == 0 {
                        (v % 256) as u8
                    } else {
                        (v / 256) as u8
                    }
                },
        )
    }
}

/// Scales native sample bytes to the full range.
pub fn normalize_samples(data: &[u8], maxval: u16) -> (out: Vec<u8>)
    requires
        maxval >= 1,
    ensures
        out@ == normalized_bytes(data@, maxval),
{
    let mut out: Vec<u8> = Vec::new();
    if maxval == 255 {
        append_bytes(&mut out, data);
        assert(out@ =~= data@);
        return out;
    }
    if maxval < 256 {
        let mut i: usize = 0;
        while i < data.len()
            invariant
                maxval >= 1,
                maxval < 256,
                i <= data.len(),
                out@.len() == i,
                forall|j: int| 0 <= j < i ==> out@[j] == norm8(data@[j], maxval),
            decreases data.len() - i,
        {
            out.push(normalize_sample_to_u8(data[i], maxval));
            i = i + 1;
        }
        assert(out@ =~= normalized_bytes(data@, maxval));
        return out;
    }
    let pairs = data.len() / 2;
    let mut k: usize = 0;
    while k < pairs
        invariant
            maxval >= 256,
            pairs == data@.len() / 2,
            k <= pairs,
            out@.len() == 2 * k,
            forall|j: int| 0 <= j < 2 * k ==> out@[j] == normalized_bytes(data@, maxval)[j],
        decreases pairs - k,
    {
        assert(2 * k + 1 < data.len());
        let sample = (data[2 * k] as u16) + (data[2 * k + 1] as u16) * 256;
        assert(sample == le16(data@, k as int));
        let v = normalize_sample_to_u16(sample, maxval);
        out.push((v % 256) as u8);
        out.push((v / 256) as u8);
        proof {
            assert((2 * k as int) / 2 == k);
            assert((2 * k as int + 1) / 2 == k);
        }
        k = k + 1;
    }
    assert(out@ =~= normalized_bytes(data@, maxval));
    out
}

/// The generic image of native samples with a maximum: `narrow` below 256,
/// `wide` from 256 on; maxval 0 is refused.
pub open spec fn samples_image(
    width: u32,
    height: u32,
    maxval: u16,
    data: Seq<u8>,
    narrow: PixelFormat,
    wide: PixelFormat,
) -> Result<crate::image::ImageModel, ImageError> {
    if maxval == 0 {
        Err(bad_max_value())
    } else {
        crate::image::new_image_spec(
            width,
            height,
            if maxval < 256 {
                narrow
            } else {
                wide
            },
            normalized_bytes(data, maxval),
        )
    }
}

/// Builds a generic image from native samples with a maximum.
pub fn samples_to_image(
    width: u32,
    height: u32,
    maxval: u16,
    data: &[u8],
    narrow: PixelFormat,
    wide: PixelFormat,
) -> (res: Result<Image, ImageError>)
    ensures
        crate::image::image_result(res) == samples_image(width, height, maxval, data@, narrow, wide),
{
    if maxval == 0 {
        return Err(ImageError::InvalidHeader { reason: "max value must be between 1 and 65535" });
    }
    let normalized = normalize_samples(data, maxval);
    let pixel_format = if maxval < 256 {
        narrow
    } else {
        wide
    };
    Image::new(width, height, pixel_format, normalized)
}

/// PBM bits as `Gray8`: `0` (white) becomes 255, anything else (black) 0.
pub open spec fn pbm_gray(data: Seq<u8>) -> Seq<u8> {
    Seq::new(
        data.len(),
        |i: int|
            if data[i] == 0 {
                255u8
            } else {
                0u8
            },
    )
}

/// The generic image of a native image: PBM as `Gray8`, PGM as `Gray8` or
/// `Gray16`, PPM as `Rgb8` or `Rgb16`, samples scaled to the full range.
pub open spec fn netpbm_image_spec(image: NetpbmModel) -> Result<crate::image::ImageModel, ImageError> {
    match image {
        NetpbmModel::Pbm { width, height, data } => crate::image::new_image_spec(
            width,
            height,
            PixelFormat::Gray8,
            pbm_gray(data),
        ),
        NetpbmModel::Pgm { width, height, maxval, data } => samples_image(
            width,
            height,
            maxval,
            data,
            PixelFormat::Gray8,
            PixelFormat::Gray16,
        ),
        NetpbmModel::Ppm { width, height, maxval, data } => samples_image(
            width,
            height,
            maxval,
            data,
            PixelFormat::Rgb8,
            PixelFormat::Rgb16,
        ),
    }
}

/// Converts a native image into the generic normalized image buffer.
pub fn netpbm_to_image(image: NetpbmImage) -> (res: Result<Image, ImageError>)
    ensures
        crate::image::image_result(res) == netpbm_image_spec(image@),
{
    netpbm_ref_to_image(&image)
}

/// Converts a borrowed native image into the generic normalized image buffer.
pub fn netpbm_ref_to_image(image: &NetpbmImage) -> (res: Result<Image, ImageError>)
    ensures
        crate::image::image_result(res) == netpbm_image_spec(image@),
{
    match image {
        NetpbmImage::Pbm { width, height, data } => {
            let mut gray: Vec<u8> = Vec::new();
            let mut i: usize = 0;
            while i < data.len()
                invariant
                    i <= data.len(),
                    gray@.len() == i,
                    forall|j: int| 0 <= j < i ==> gray@[j] == pbm_gray(data@)[j],
                decreases data.len() - i,
            {
                gray.push(
                    if data[i] == 0 {
                        255
                    } else {
                        0
                    },
                );
                i = i + 1;
            }
            assert(gray@ =~= pbm_gray(data@));
            Image::new(*width, *height, PixelFormat::Gray8, gray)
        },
        NetpbmImage::Pgm { width, height, maxval, data } => samples_to_image(
            *width,
            *height,
            *maxval,
            data.as_slice(),
            PixelFormat::Gray8,
            PixelFormat::Gray16,
        ),
        NetpbmImage::Ppm { width, height, maxval, data } => samples_to_image(
            *width,
            *height,
            *maxval,
            data.as_slice(),
            PixelFormat::Rgb8,
            PixelFormat::Rgb16,
        ),
    }
}

/// The generic images of a sequence of native images, or the first failure.
pub open spec fn images_of(images: Seq<NetpbmModel>) -> Result<Seq<crate::image::ImageModel>, ImageError>
    decreases images.len(),
{
    if images.len() == 0 {
        Ok(Seq::empty())
    } else {
        match images_of(images.drop_last()) {
            Err(e) => Err(e),
            Ok(out) => match netpbm_image_spec(images.last()) {
                Err(e) => Err(e),
                Ok(m) => Ok(out.push(m)),
            },
        }
    }
}

/// A result holding generic images, seen through their models.
pub open spec fn images_result(r: Result<Vec<Image>, ImageError>) -> Result<Seq<crate::image::ImageModel>, ImageError> {
    match r {
        Ok(images) => Ok(images@.map_values(|i: Image| i@)),
        Err(e) => Err(e),
    }
}

/// A decoded native result, converted to the generic image.
pub open spec fn to_image_spec(r: Result<NetpbmModel, ImageError>) -> Result<crate::image::ImageModel, ImageError> {
    match r {
        Ok(m) => netpbm_image_spec(m),
        Err(e) => Err(e),
    }
}

/// Decoded native results, converted to generic images.
pub open spec fn to_images_spec(r: Result<Seq<NetpbmModel>, ImageError>) -> Result<
    Seq<crate::image::ImageModel>,
    ImageError,
> {
    match r {
        Ok(ms) => images_of(ms),
        Err(e) => Err(e),
    }
}

/// Once converting a prefix failed, converting the whole fails the same way.
pub proof fn lemma_images_of_error_persists(images: Seq<NetpbmModel>, i: nat)
    requires
        i <= images.len(),
        images_of(images.take(i as int)) is Err,
    ensures
        images_of(images) == images_of(images.take(i as int)),
    decreases images.len() - i,
{
    if i < images.len() {
        assert(images.take(i as int + 1).drop_last() =~= images.take(i as int));
        lemma_images_of_error_persists(images, i + 1);
    } else {
        assert(images.take(i as int) =~= images);
    }
}

/// Converts native images into generic images, stopping at the first
/// failure.
pub fn netpbm_all_to_images(images: &Vec<NetpbmImage>) -> (res: Result<Vec<Image>, ImageError>)
    ensures
        images_result(res) == images_of(images@.map_values(|i: NetpbmImage| i@)),
{
    let ghost models = images@.map_values(|i: NetpbmImage| i@);
    let mut out: Vec<Image> = Vec::new();
    let mut i: usize = 0;
    assert(models.take(0) =~= Seq::<NetpbmModel>::empty());
    assert(out@.map_values(|i: Image| i@) =~= Seq::<crate::image::ImageModel>::empty());
    while i < images.len()
        invariant
            i <= images@.len(),
            models == images@.map_values(|i: NetpbmImage| i@),
            images_of(models.take(i as int)) == Ok::<Seq<crate::image::ImageModel>, ImageError>(
                out@.map_values(|i: Image| i@),
            ),
        decreases images@.len() - i,
    {
        assert(models.take(i as int + 1).drop_last() =~= models.take(i as int));
        assert(models.take(i as int + 1).last() == images@[i as int]@);
        match netpbm_ref_to_image(&images[i]) {
            Ok(converted) => {
                let ghost before = out@.map_values(|i: Image| i@);
                out.push(converted);
                assert(out@.map_values(|i: Image| i@) =~= before.push(converted@));
            },
            Err(e) => {
                proof {
                    lemma_images_of_error_persists(models, (i + 1) as nat);
                }
                return Err(e);
            },
        }
        i = i + 1;
    }
    assert(models.take(images@.len() as int) =~= models);
    Ok(out)
}

// ---------------------------------------------------------------------------
// Conversion from image views to native images.
// ---------------------------------------------------------------------------

/// The maximum sample value for a view format: 255 for the 8-bit format,
/// 65535 for the 16-bit one.
pub open spec fn view_maxval(actual: PixelFormat, eight_bit: PixelFormat, sixteen_bit: PixelFormat) -> Result<
    u16,
    ImageError,
> {
    if actual == eight_bit {
        Ok(255)
    } else if actual == sixteen_bit {
        Ok(65535)
    } else {
        Err(ImageError::UnsupportedPixelFormat { pixel_format: actual })
    }
}

/// Returns the maximum sample value that a view format is written with.
pub fn image_maxval(actual: PixelFormat, eight_bit: PixelFormat, sixteen_bit: PixelFormat) -> (res:
    Result<u16, ImageError>)
    ensures
        res == view_maxval(actual, eight_bit, sixteen_bit),
{
    if actual == eight_bit {
        Ok(255)
    } else if actual == sixteen_bit {
        Ok(65535)
    } else {
        Err(ImageError::UnsupportedPixelFormat { pixel_format: actual })
    }
}

pub open spec fn pbm_conversion_error() -> ImageError {
    ImageError::InvalidData { reason: "PBM conversion requires Gray8 samples to be 0 or 255" }
}

/// Gray8 pixels as PBM bits: 0 (black) becomes 1, 255 (white) 0.
pub open spec fn gray_bits(px: Seq<u8>) -> Seq<u8> {
    Seq::new(
        px.len(),
        |i: int|
            if px[i] == 0 {
                1u8
            } else {
                0u8
            },
    )
}

/// The native PBM image of a `Gray8` view whose samples are all 0 or 255.
pub open spec fn view_pbm_spec(image: ImageView<'_>) -> Result<NetpbmModel, ImageError> {
    match view_check(image, PixelFormat::Gray8) {
        Some(e) => Err(e),
        None => {
            let px = image.pixels();
            if exists|i: int| 0 <= i < px.len() && px[i] != 0 && px[i] != 255 {
                Err(pbm_conversion_error())
            } else {
                Ok(NetpbmModel::Pbm { width: image.width, height: image.height, data: gray_bits(px) })
            }
        },
    }
}

/// Converts a `Gray8` view whose samples are all 0 or 255 into a native PBM
/// image.
pub fn image_view_to_pbm_native(image: ImageView<'_>) -> (res: Result<NetpbmImage, ImageError>)
    ensures
        native_result(res) == view_pbm_spec(image),
{
    let view = match validate_image_view(image, PixelFormat::Gray8) {
        Ok(v) => v,
        Err(e) => return Err(e),
    };
    let px = packed_image_data(view);
    let mut bits: Vec<u8> = Vec::new();
    let mut i: usize = 0;
    while i < px.len()
        invariant
            i <= px@.len(),
            px@ == image.pixels(),
            view == image,
            view_check(image, PixelFormat::Gray8) is None,
            bits@.len() == i,
            forall|j: int| 0 <= j < i ==> bits@[j] == gray_bits(px@)[j],
            forall|j: int| 0 <= j < i ==> px@[j] == 0 || px@[j] == 255,
        decreases px@.len() - i,
    {
        if px[i] == 0 {
            bits.push(1);
        } else if px[i] == 255 {
            bits.push(0);
        } else {
            assert(px@[i as int] != 0 && px@[i as int] != 255);
            return Err(ImageError::InvalidData {
                reason: "PBM conversion requires Gray8 samples to be 0 or 255",
            });
        }
        i = i + 1;
    }
    assert(bits@ =~= gray_bits(px@));
    Ok(NetpbmImage::Pbm { width: view.width, height: view.height, data: bits })
}

/// The native image of a view whose format is `eight_bit` or `sixteen_bit`,
/// its samples kept as they are.
pub open spec fn view_samples_spec(
    image: ImageView<'_>,
    eight_bit: PixelFormat,
    sixteen_bit: PixelFormat,
) -> Result<(u16, Seq<u8>), ImageError> {
    match view_maxval(image.pixel_format, eight_bit, sixteen_bit) {
        Err(e) => Err(e),
        Ok(m) => match view_check(image, image.pixel_format) {
            Some(e) => Err(e),
            None => Ok((m, image.pixels())),
        },
    }
}

/// Checks a view of format `eight_bit` or `sixteen_bit` and returns its
/// maximum sample value and packed samples.
pub fn view_samples(image: ImageView<'_>, eight_bit: PixelFormat, sixteen_bit: PixelFormat) -> (res:
    Result<(u16, Vec<u8>), ImageError>)
    ensures
        match res {
            Ok((m, data)) => view_samples_spec(image, eight_bit, sixteen_bit) == Ok::<
                (u16, Seq<u8>),
                ImageError,
            >((m, data@)),
            Err(e) => view_samples_spec(image, eight_bit, sixteen_bit) == Err::<(u16, Seq<u8>), _>(e),
        },
{
    let maxval = match image_maxval(image.pixel_format, eight_bit, sixteen_bit) {
        Ok(m) => m,
        Err(e) => return Err(e),
    };
    let image = match validate_image_view(image, image.pixel_format) {
        Ok(v) => v,
        Err(e) => return Err(e),
    };
    Ok((maxval, packed_image_data(image)))
}

/// The native PGM image of a `Gray8` or `Gray16` view.
pub open spec fn view_pgm_spec(image: ImageView<'_>) -> Result<NetpbmModel, ImageError> {
    match view_samples_spec(image, PixelFormat::Gray8, PixelFormat::Gray16) {
        Err(e) => Err(e),
        Ok((m, data)) => Ok(NetpbmModel::Pgm { width: image.width, height: image.height, maxval: m, data }),
    }
}

/// The native PPM image of an `Rgb8` or `Rgb16` view.
pub open spec fn view_ppm_spec(image: ImageView<'_>) -> Result<NetpbmModel, ImageError> {
    match view_samples_spec(image, PixelFormat::Rgb8, PixelFormat::Rgb16) {
        Err(e) => Err(e),
        Ok((m, data)) => Ok(NetpbmModel::Ppm { width: image.width, height: image.height, maxval: m, data }),
    }
}

/// Converts a `Gray8` or `Gray16` view into a native PGM image with maxval
/// 255 or 65535.
pub fn image_view_to_pgm_native(image: ImageView<'_>) -> (res: Result<NetpbmImage, ImageError>)
    ensures
        native_result(res) == view_pgm_spec(image),
{
    match view_samples(image, PixelFormat::Gray8, PixelFormat::Gray16) {
        Ok((maxval, data)) => Ok(NetpbmImage::Pgm { width: image.width, height: image.height, maxval, data }),
        Err(e) => Err(e),
    }
}

/// Converts an `Rgb8` or `Rgb16` view into a native PPM image with maxval
/// 255 or 65535.
pub fn image_view_to_ppm_native(image: ImageView<'_>) -> (res: Result<NetpbmImage, ImageError>)
    ensures
        native_result(res) == view_ppm_spec(image),
{
    match view_samples(image, PixelFormat::Rgb8, PixelFormat::Rgb16) {
        Ok((maxval, data)) => Ok(NetpbmImage::Ppm { width: image.width, height: image.height, maxval, data }),
        Err(e) => Err(e),
    }
}


// ---------------------------------------------------------------------------
// PBM bit rows.
// ---------------------------------------------------------------------------

/// One unpacked PBM row of `width` bits, most significant bit first.
pub open spec fn unpack_row(bytes: Seq<u8>, width: int) -> Seq<u8> {
    Seq::new(width as nat, |x: int| (bytes[x / 8] >> ((7 - x % 8) as u8)) & 1u8)
}

/// The first `n` unpacked rows of a PBM raster with `row_bytes` bytes a row.
pub open spec fn unpack_rows(raster: Seq<u8>, width: int, row_bytes: int, n: nat) -> Seq<u8>
    decreases n,
{
    if n == 0 {
        Seq::empty()
    } else {
        unpack_rows(raster, width, row_bytes, (n - 1) as nat) + unpack_row(
            raster.subrange((n - 1) * row_bytes, n * row_bytes),
            width,
        )
    }
}

/// The bit at `i`, or 0 past the end.
pub open spec fn bit_at(bits: Seq<u8>, i: int) -> u8 {
    if 0 <= i < bits.len() {
        bits[i]
    } else {
        0
    }
}

/// The first `k` bits from `base` packed into a byte, most significant first.
pub open spec fn pack_byte(bits: Seq<u8>, base: int, k: nat) -> u8
    decreases k,
{
    if k == 0 {
        0
    } else {
        pack_byte(bits, base, (k - 1) as nat) | (bit_at(bits, base + k - 1) << ((8 - k) as u8))
    }
}

/// A row of bits packed into bytes, eight to a byte, the last byte padded
/// with zero bits.
pub open spec fn pack_row(bits: Seq<u8>) -> Seq<u8> {
    Seq::new(((bits.len() + 7) / 8) as nat, |j: int| pack_byte(bits, 8 * j, 8))
}

/// The first `n` rows of `width` bits, each packed.
pub open spec fn pack_rows(bits: Seq<u8>, width: int, n: nat) -> Seq<u8>
    decreases n,
{
    if n == 0 {
        Seq::empty()
    } else {
        pack_rows(bits, width, (n - 1) as nat) + pack_row(bits.subrange((n - 1) * width, n * width))
    }
}

/// Unpacks one row of `width` bits.
pub fn unpack_bit_row(out: &mut Vec<u8>, bytes: &[u8], width: usize)
    requires
        bytes@.len() * 8 >= width,
    ensures
        final(out)@ == old(out)@ + unpack_row(bytes@, width as int),
{
    let ghost start = out@;
    let mut x: usize = 0;
    while x < width
        invariant
            x <= width,
            bytes@.len() * 8 >= width,
            out@ == start + unpack_row(bytes@, width as int).take(x as int),
        decreases width - x,
    {
        let byte = bytes[x / 8];
        let bit = (byte >> ((7 - x % 8) as u8)) & 1;
        out.push(bit);
        x = x + 1;
        assert(unpack_row(bytes@, width as int).take(x as int) =~= unpack_row(
            bytes@,
            width as int,
        ).take(x - 1).push(bit));
    }
    assert(unpack_row(bytes@, width as int).take(width as int) =~= unpack_row(bytes@, width as int));
}

/// Packs one row of bits.
pub fn pack_bit_row(out: &mut Vec<u8>, bits: &[u8])
    ensures
        final(out)@ == old(out)@ + pack_row(bits@),
{
    let ghost start = out@;
    let row_bytes = bits.len() / 8 + if bits.len() % 8 == 0 {
        0
    } else {
        1
    };
    assert(row_bytes == (bits@.len() + 7) / 8);
    let mut j: usize = 0;
    while j < row_bytes
        invariant
            j <= row_bytes,
            row_bytes == (bits@.len() + 7) / 8,
            out@ == start + pack_row(bits@).take(j as int),
        decreases row_bytes - j,
    {
        let mut packed: u8 = 0;
        let mut k: usize = 0;
        while k < 8
            invariant
                k <= 8,
                j < row_bytes,
                row_bytes == (bits@.len() + 7) / 8,
                packed == pack_byte(bits@, 8 * j, k as nat),
            decreases 8 - k,
        {
            let total = bits.len();
            assert(8 * j <= total);
            let base = 8 * j;
            let bit: u8 = if k < bits.len() - base {
                bits[base + k]
            } else {
                0
            };
            packed = packed | (bit << ((7 - k) as u8));
            k = k + 1;
        }
        out.push(packed);
        j = j + 1;
        assert(pack_row(bits@).take(j as int) =~= pack_row(bits@).take(j - 1).push(packed));
    }
    assert(pack_row(bits@).take(row_bytes as int) =~= pack_row(bits@));
}

/// Packs `height` rows of `width` bits each.
pub fn pack_bit_rows(out: &mut Vec<u8>, bits: &[u8], width: usize, height: usize)
    requires
        width * height == bits@.len(),
    ensures
        final(out)@ == old(out)@ + pack_rows(bits@, width as int, height as nat),
{
    let ghost start = out@;
    let mut row: usize = 0;
    while row < height
        invariant
            row <= height,
            width * height == bits@.len(),
            out@ == start + pack_rows(bits@, width as int, row as nat),
        decreases height - row,
    {
        assert((row + 1) * width <= width * height) by (nonlinear_arith)
            requires
                row + 1 <= height,
        ;
        assert((row + 1) * width == row * width + width) by (nonlinear_arith);
        let total = bits.len();
        assert(row * width + width <= total);
        let begin = row * width;
        pack_bit_row(out, &bits[begin..begin + width]);
        row = row + 1;
        assert(out@ =~= start + pack_rows(bits@, width as int, row as nat));
    }
}

// ---------------------------------------------------------------------------
// ASCII rows of numbers.
// ---------------------------------------------------------------------------

/// Numbers separated by single spaces.
pub open spec fn text_line(vals: Seq<u32>) -> Seq<u8>
    decreases vals.len(),
{
    if vals.len() == 0 {
        Seq::empty()
    } else if vals.len() == 1 {
        decimal(vals[0] as nat)
    } else {
        text_line(vals.drop_last()) + seq![0x20u8] + decimal(vals.last() as nat)
    }
}

/// The first `n` lines of `per_line` numbers each, every line ended by a
/// line feed.
pub open spec fn text_rows(vals: Seq<u32>, per_line: int, n: nat) -> Seq<u8>
    decreases n,
{
    if n == 0 {
        Seq::empty()
    } else {
        text_rows(vals, per_line, (n - 1) as nat) + text_line(
            vals.subrange((n - 1) * per_line, n * per_line),
        ) + seq![0x0au8]
    }
}

/// Appends numbers separated by single spaces.
pub fn write_text_line(out: &mut Vec<u8>, vals: &[u32])
    ensures
        final(out)@ == old(out)@ + text_line(vals@),
{
    let ghost start = out@;
    let mut i: usize = 0;
    while i < vals.len()
        invariant
            i <= vals.len(),
            out@ == start + text_line(vals@.take(i as int)),
        decreases vals.len() - i,
    {
        if i > 0 {
            out.push(0x20);
        }
        push_decimal(out, vals[i]);
        i = i + 1;
        let ghost t = vals@.take(i as int);
        assert(t.drop_last() =~= vals@.take(i - 1));
        if i == 1 {
            assert(vals@.take(0) =~= Seq::<u32>::empty());
        }
        assert(out@ =~= start + text_line(t));
    }
    assert(vals@.take(vals@.len() as int) =~= vals@);
}

/// Appends lines of `per_line` numbers each.
pub fn write_text_rows(out: &mut Vec<u8>, vals: &[u32], per_line: usize, lines: usize)
    requires
        per_line * lines == vals@.len(),
    ensures
        final(out)@ == old(out)@ + text_rows(vals@, per_line as int, lines as nat),
{
    let ghost start = out@;
    let mut row: usize = 0;
    while row < lines
        invariant
            row <= lines,
            per_line * lines == vals@.len(),
            out@ == start + text_rows(vals@, per_line as int, row as nat),
        decreases lines - row,
    {
        assert((row + 1) * per_line <= per_line * lines) by (nonlinear_arith)
            requires
                row + 1 <= lines,
        ;
        assert((row + 1) * per_line == row * per_line + per_line) by (nonlinear_arith);
        let total = vals.len();
        assert(row * per_line + per_line <= total);
        let begin = row * per_line;
        write_text_line(out, &vals[begin..begin + per_line]);
        out.push(0x0a);
        row = row + 1;
        assert(out@ =~= start + text_rows(vals@, per_line as int, row as nat));
    }
}

/// Byte samples as numbers.
pub open spec fn u8_values(d: Seq<u8>) -> Seq<u32> {
    Seq::new(d.len(), |i: int| d[i] as u32)
}

/// Little-endian 16-bit samples as numbers.
pub open spec fn u16_values(d: Seq<u8>) -> Seq<u32> {
    Seq::new(d.len() / 2, |k: int| le16(d, k) as u32)
}

/// Stored samples as numbers: bytes below maxval 256, little-endian pairs from
/// 256 on.
pub open spec fn sample_values(d: Seq<u8>, maxval: u16) -> Seq<u32> {
    if maxval < 256 {
        u8_values(d)
    } else {
        u16_values(d)
    }
}

/// Reads stored samples as numbers.
pub fn sample_values_of(d: &[u8], maxval: u16) -> (vals: Vec<u32>)
    ensures
        vals@ == sample_values(d@, maxval),
{
    let mut vals: Vec<u32> = Vec::new();
    if maxval < 256 {
        let mut i: usize = 0;
        while i < d.len()
            invariant
                i <= d.len(),
                vals@.len() == i,
                forall|j: int| 0 <= j < i ==> vals@[j] == d@[j] as u32,
            decreases d.len() - i,
        {
            vals.push(d[i] as u32);
            i = i + 1;
        }
        assert(vals@ =~= sample_values(d@, maxval));
    } else {
        let pairs = d.len() / 2;
        let mut k: usize = 0;
        while k < pairs
            invariant
                pairs == d@.len() / 2,
                k <= pairs,
                vals@.len() == k,
                forall|j: int| 0 <= j < k ==> vals@[j] == le16(d@, j) as u32,
            decreases pairs - k,
        {
            assert(2 * k + 1 < d.len());
            vals.push((d[2 * k] as u32) + (d[2 * k + 1] as u32) * 256);
            k = k + 1;
        }
        assert(vals@ =~= sample_values(d@, maxval));
    }
    vals
}


// ---------------------------------------------------------------------------
// Checks of native images.
// ---------------------------------------------------------------------------

/// Bytes of one stored sample.
pub open spec fn sample_size(maxval: u16) -> int {
    if maxval < 256 {
        1
    } else {
        2
    }
}

/// The checks made before a native PGM or PPM image is written: `None` when
/// it is sound, else the error.
pub open spec fn native_sample_check(
    width: u32,
    height: u32,
    maxval: u16,
    data: Seq<u8>,
    channels: int,
) -> Option<ImageError> {
    let expected = width * height * channels * sample_size(maxval);
    if maxval == 0 {
        Some(bad_max_value())
    } else if width == 0 || height == 0 {
        Some(zero_dimensions_data())
    } else if expected > usize::MAX {
        Some(
            ImageError::ImageDimensionsTooLarge {
                width,
                height,
                bytes_per_pixel: (channels * sample_size(maxval)) as usize,
            },
        )
    } else if data.len() != expected {
        Some(ImageError::InvalidBufferLength { expected: expected as usize, actual: data.len() as usize })
    } else if maxval < 256 && exists|i: int| 0 <= i < data.len() && data[i] > maxval {
        Some(exceeds_max())
    } else if maxval >= 256 && exists|k: int| 0 <= k < data.len() / 2 && le16(data, k) > maxval {
        Some(exceeds_max())
    } else {
        None
    }
}

/// Checks the fields of a native PGM or PPM image with `channels` samples a
/// pixel.
#[verifier::loop_isolation(false)]
pub fn validate_native_sample_image(
    width: u32,
    height: u32,
    maxval: u16,
    data: &[u8],
    channels: usize,
) -> (res: Result<(), ImageError>)
    requires
        1 <= channels <= 4,
    ensures
        match native_sample_check(width, height, maxval, data@, channels as int) {
            Some(e) => res == Err::<(), _>(e),
            None => res is Ok,
        },
{
    if maxval == 0 {
        return Err(ImageError::InvalidHeader { reason: "max value must be between 1 and 65535" });
    }
    if width == 0 || height == 0 {
        return Err(ImageError::InvalidData {
            reason: "width and height must be greater than zero",
        });
    }
    let bps: usize = if maxval < 256 {
        1
    } else {
        2
    };
    let too_large = ImageError::ImageDimensionsTooLarge {
        width,
        height,
        bytes_per_pixel: channels * bps,
    };
    let ghost w = width as int;
    let ghost h = height as int;
    assert(w * h <= w * h * channels && w * h * channels <= w * h * channels * bps) by (
    nonlinear_arith)
        requires
            w >= 0,
            h >= 0,
            channels >= 1,
            bps >= 1,
    ;
    let pixels = match (width as usize).checked_mul(height as usize) {
        Some(n) => n,
        None => return Err(too_large),
    };
    let samples = match pixels.checked_mul(channels) {
        Some(n) => n,
        None => return Err(too_large),
    };
    let expected = match samples.checked_mul(bps) {
        Some(n) => n,
        None => return Err(too_large),
    };
    if data.len() != expected {
        return Err(ImageError::InvalidBufferLength { expected, actual: data.len() });
    }
    if maxval < 256 {
        let mut i: usize = 0;
        while i < data.len()
            invariant
                i <= data.len(),
                forall|j: int| 0 <= j < i ==> data@[j] <= maxval,
            decreases data.len() - i,
        {
            if data[i] as u16 > maxval {
                assert(data@[i as int] > maxval);
                return Err(ImageError::InvalidData { reason: "sample value exceeds max value" });
            }
            i = i + 1;
        }
    } else {
        let pairs = data.len() / 2;
        let mut k: usize = 0;
        while k < pairs
            invariant
                pairs == data@.len() / 2,
                k <= pairs,
                forall|j: int| 0 <= j < k ==> le16(data@, j) <= maxval,
            decreases pairs - k,
        {
            assert(2 * k + 1 < data.len());
            let sample = (data[2 * k] as u16) + (data[2 * k + 1] as u16) * 256;
            assert(sample == le16(data@, k as int));
            if sample > maxval {
                assert(le16(data@, k as int) > maxval);
                return Err(ImageError::InvalidData { reason: "sample value exceeds max value" });
            }
            k = k + 1;
        }
    }
    Ok(())
}

/// The checks made before a native PBM image is written.
pub open spec fn native_pbm_check(width: u32, height: u32, data: Seq<u8>) -> Option<ImageError> {
    if width == 0 || height == 0 {
        Some(zero_dimensions_data())
    } else if width * height > usize::MAX {
        Some(ImageError::ImageDimensionsTooLarge { width, height, bytes_per_pixel: 1 })
    } else if data.len() != width * height {
        Some(ImageError::InvalidBufferLength { expected: (width * height) as usize, actual: data.len() as usize })
    } else if exists|i: int| 0 <= i < data.len() && data[i] > 1 {
        Some(ImageError::InvalidData { reason: "invalid PBM sample" })
    } else {
        None
    }
}

/// Checks the fields of a native PBM image.
#[verifier::loop_isolation(false)]
pub fn validate_native_pbm_fields(width: u32, height: u32, data: &[u8]) -> (res: Result<(), ImageError>)
    ensures
        match native_pbm_check(width, height, data@) {
            Some(e) => res == Err::<(), _>(e),
            None => res is Ok,
        },
{
    if width == 0 || height == 0 {
        return Err(ImageError::InvalidData {
            reason: "width and height must be greater than zero",
        });
    }
    let expected = match (width as usize).checked_mul(height as usize) {
        Some(n) => n,
        None => return Err(ImageError::ImageDimensionsTooLarge { width, height, bytes_per_pixel: 1 }),
    };
    if data.len() != expected {
        return Err(ImageError::InvalidBufferLength { expected, actual: data.len() });
    }
    let mut i: usize = 0;
    while i < data.len()
        invariant
            i <= data.len(),
            forall|j: int| 0 <= j < i ==> data@[j] <= 1,
        decreases data.len() - i,
    {
        if data[i] > 1 {
            assert(data@[i as int] > 1);
            return Err(ImageError::InvalidData { reason: "invalid PBM sample" });
        }
        i = i + 1;
    }
    Ok(())
}

// ---------------------------------------------------------------------------
// Decoding, one image at a time and as streams.
// ---------------------------------------------------------------------------

/// The three Netpbm families.
#[derive(Clone, Copy, Debug, Eq, PartialEq, Structural)]
pub enum NetpbmKind {
    Pbm,
    Pgm,
    Ppm,
}

/// The binary magic number of a family: `P4`, `P5` or `P6`.
pub open spec fn binary_magic(kind: NetpbmKind) -> Seq<u8> {
    match kind {
        NetpbmKind::Pbm => seq![0x50u8, 0x34u8],
        NetpbmKind::Pgm => seq![0x50u8, 0x35u8],
        NetpbmKind::Ppm => seq![0x50u8, 0x36u8],
    }
}

/// The ASCII magic number of a family: `P1`, `P2` or `P3`.
pub open spec fn ascii_magic(kind: NetpbmKind) -> Seq<u8> {
    match kind {
        NetpbmKind::Pbm => seq![0x50u8, 0x31u8],
        NetpbmKind::Pgm => seq![0x50u8, 0x32u8],
        NetpbmKind::Ppm => seq![0x50u8, 0x33u8],
    }
}

/// The binary magic number of a family, as bytes.
pub fn binary_magic_bytes(kind: NetpbmKind) -> (m: [u8; 2])
    ensures
        m@ == binary_magic(kind),
{
    let m: [u8; 2] = match kind {
        NetpbmKind::Pbm => [0x50, 0x34],
        NetpbmKind::Pgm => [0x50, 0x35],
        NetpbmKind::Ppm => [0x50, 0x36],
    };
    assert(m@ =~= binary_magic(kind));
    m
}

/// The ASCII magic number of a family, as bytes.
pub fn ascii_magic_bytes(kind: NetpbmKind) -> (m: [u8; 2])
    ensures
        m@ == ascii_magic(kind),
{
    let m: [u8; 2] = match kind {
        NetpbmKind::Pbm => [0x50, 0x31],
        NetpbmKind::Pgm => [0x50, 0x32],
        NetpbmKind::Ppm => [0x50, 0x33],
    };
    assert(m@ =~= ascii_magic(kind));
    m
}

/// Color channels of a family: one for PBM and PGM, three for PPM.
pub open spec fn kind_channels(kind: NetpbmKind) -> int {
    match kind {
        NetpbmKind::Ppm => 3,
        _ => 1,
    }
}

/// The pixel format a family's raster has with this maxval.
pub open spec fn kind_format(kind: NetpbmKind, maxval: u16) -> PixelFormat {
    match kind {
        NetpbmKind::Ppm => if maxval < 256 {
            PixelFormat::Rgb8
        } else {
            PixelFormat::Rgb16
        },
        _ => if maxval < 256 {
            PixelFormat::Gray8
        } else {
            PixelFormat::Gray16
        },
    }
}

/// A native image of a family from its fields.
pub open spec fn kind_model(kind: NetpbmKind, width: u32, height: u32, maxval: u16, data: Seq<u8>) -> NetpbmModel {
    match kind {
        NetpbmKind::Pbm => NetpbmModel::Pbm { width, height, data },
        NetpbmKind::Pgm => NetpbmModel::Pgm { width, height, maxval, data },
        NetpbmKind::Ppm => NetpbmModel::Ppm { width, height, maxval, data },
    }
}

/// Where a packed PBM raster that starts at `p` lies in the input.
pub open spec fn pbm_raster_range(d: Seq<u8>, p: int, dimensions: Dimensions) -> Result<
    (int, int),
    ImageError,
> {
    let w = dimensions.width as int;
    let h = dimensions.height as int;
    let err = too_large(dimensions.width, dimensions.height, PixelFormat::Gray8);
    if w + 7 > usize::MAX || (w + 7) / 8 * h > usize::MAX || p + (w + 7) / 8 * h > usize::MAX {
        Err(err)
    } else if p + (w + 7) / 8 * h > d.len() {
        Err(
            ImageError::InvalidBufferLength {
                expected: ((w + 7) / 8 * h) as usize,
                actual: (if d.len() > p {
                    d.len() - p
                } else {
                    0
                }) as usize,
            },
        )
    } else {
        Ok((p, p + (w + 7) / 8 * h))
    }
}

/// One binary image of a family that starts at `p`, and the position after it.
pub open spec fn decode_one_spec(kind: NetpbmKind, d: Seq<u8>, p: int) -> (Result<NetpbmModel, ImageError>, int) {
    match kind {
        NetpbmKind::Pbm => {
            let (hd, q) = scan_bitmap_header(d, p, binary_magic(kind));
            match hd {
                Err(e) => (Err(e), q),
                Ok(dims) => match scan_separator(d, q) {
                    Err(e) => (Err(e), q),
                    Ok(q2) => match pbm_raster_range(d, q2, dims) {
                        Err(e) => (Err(e), q2),
                        Ok((s, e)) => (
                            Ok(
                                NetpbmModel::Pbm {
                                    width: dims.width,
                                    height: dims.height,
                                    data: unpack_rows(
                                        d.subrange(s, e),
                                        dims.width as int,
                                        (dims.width + 7) / 8,
                                        dims.height as nat,
                                    ),
                                },
                            ),
                            e,
                        ),
                    },
                },
            }
        },
        _ => {
            let (hd, q) = scan_sample_header(d, p, binary_magic(kind));
            match hd {
                Err(e) => (Err(e), q),
                Ok((dims, maxval)) => match scan_separator(d, q) {
                    Err(e) => (Err(e), q),
                    Ok(q2) => match raster_range(d, q2, dims, kind_format(kind, maxval)) {
                        Err(e) => (Err(e), q2),
                        Ok((s, e)) => {
                            let raster = d.subrange(s, e);
                            (
                                Ok(
                                    kind_model(
                                        kind,
                                        dims.width,
                                        dims.height,
                                        maxval,
                                        if maxval < 256 {
                                            raster
                                        } else {
                                            swap_pairs(raster)
                                        },
                                    ),
                                ),
                                e,
                            )
                        },
                    },
                },
            }
        },
    }
}

/// Unpacks `height` PBM rows of `width` bits from a raster of
/// `row_bytes * height` bytes.
pub fn unpack_bit_rows(raster: &[u8], width: usize, row_bytes: usize, height: usize) -> (out: Vec<u8>)
    requires
        raster@.len() == row_bytes * height,
        row_bytes * 8 >= width,
    ensures
        out@ == unpack_rows(raster@, width as int, row_bytes as int, height as nat),
{
    let mut out: Vec<u8> = Vec::new();
    let mut row: usize = 0;
    while row < height
        invariant
            row <= height,
            raster@.len() == row_bytes * height,
            row_bytes * 8 >= width,
            out@ == unpack_rows(raster@, width as int, row_bytes as int, row as nat),
        decreases height - row,
    {
        assert((row + 1) * row_bytes <= row_bytes * height) by (nonlinear_arith)
            requires
                row + 1 <= height,
        ;
        assert((row + 1) * row_bytes == row * row_bytes + row_bytes) by (nonlinear_arith);
        let total = raster.len();
        assert(row * row_bytes + row_bytes <= total);
        let begin = row * row_bytes;
        unpack_bit_row(&mut out, &raster[begin..begin + row_bytes], width);
        row = row + 1;
        assert(out@ =~= unpack_rows(raster@, width as int, row_bytes as int, row as nat));
    }
    out
}

/// Decodes one binary image of a family at the parser's position and moves
/// the parser past it.
pub fn decode_one_native(kind: NetpbmKind, data: &[u8], parser: &mut HeaderParser<'_>) -> (res: Result<
    NetpbmImage,
    ImageError,
>)
    requires
        old(parser).bytes() == data@,
    ensures
        final(parser).bytes() == data@,
        match decode_one_spec(kind, data@, old(parser).pos()) {
            (Ok(m), q) => res is Ok && res.unwrap()@ == m && final(parser).pos() == q,
            (Err(e), _) => res == Err::<NetpbmImage, _>(e),
        },
{
    let magic = binary_magic_bytes(kind);
    match kind {
        NetpbmKind::Pbm => {
            let dimensions = match read_bitmap_header(parser, &magic) {
                Ok(d) => d,
                Err(e) => return Err(e),
            };
            match parser.consume_raster_separator() {
                Ok(()) => {},
                Err(e) => return Err(e),
            }
            let ghost q2 = parser.pos();
            let row_bytes = match (dimensions.width as usize).checked_add(7) {
                Some(n) => n / 8,
                None => return Err(ImageError::ImageDimensionsTooLarge {
                    width: dimensions.width,
                    height: dimensions.height,
                    bytes_per_pixel: 1,
                }),
            };
            let raster_len = match row_bytes.checked_mul(dimensions.height as usize) {
                Some(n) => n,
                None => return Err(ImageError::ImageDimensionsTooLarge {
                    width: dimensions.width,
                    height: dimensions.height,
                    bytes_per_pixel: 1,
                }),
            };
            let raster_start = parser.position();
            let raster_end = match raster_start.checked_add(raster_len) {
                Some(n) => n,
                None => return Err(ImageError::ImageDimensionsTooLarge {
                    width: dimensions.width,
                    height: dimensions.height,
                    bytes_per_pixel: 1,
                }),
            };
            if raster_end > data.len() {
                return Err(ImageError::InvalidBufferLength {
                    expected: raster_len,
                    actual: data.len().saturating_sub(raster_start),
                });
            }
            let raster = &data[raster_start..raster_end];
            let pixels = unpack_bit_rows(
                raster,
                dimensions.width as usize,
                row_bytes,
                dimensions.height as usize,
            );
            parser.set_position(raster_end);
            Ok(NetpbmImage::Pbm { width: dimensions.width, height: dimensions.height, data: pixels })
        },
        _ => {
            let (dimensions, maxval) = match read_any_sample_header(parser, &magic) {
                Ok(h) => h,
                Err(e) => return Err(e),
            };
            match parser.consume_raster_separator() {
                Ok(()) => {},
                Err(e) => return Err(e),
            }
            let pixel_format = match kind {
                NetpbmKind::Ppm => if maxval < 256 {
                    PixelFormat::Rgb8
                } else {
                    PixelFormat::Rgb16
                },
                _ => if maxval < 256 {
                    PixelFormat::Gray8
                } else {
                    PixelFormat::Gray16
                },
            };
            let raster = match raster_slice(data, parser, dimensions, pixel_format) {
                Ok(r) => r,
                Err(e) => return Err(e),
            };
            let next_position = parser.position() + raster.len();
            let samples = if maxval < 256 {
                let mut v: Vec<u8> = Vec::new();
                append_bytes(&mut v, raster);
                assert(v@ =~= raster@);
                v
            } else {
                be_samples_to_le_bytes(raster)
            };
            parser.set_position(next_position);
            match kind {
                NetpbmKind::Ppm => Ok(
                    NetpbmImage::Ppm {
                        width: dimensions.width,
                        height: dimensions.height,
                        maxval,
                        data: samples,
                    },
                ),
                _ => Ok(
                    NetpbmImage::Pgm {
                        width: dimensions.width,
                        height: dimensions.height,
                        maxval,
                        data: samples,
                    },
                ),
            }
        },
    }
}


/// Skipping whitespace and comments twice stops where skipping once does.
pub proof fn lemma_skip_blank_idempotent(d: Seq<u8>, p: int)
    requires
        p >= 0,
    ensures
        skip_blank(d, skip_blank(d, p)) == skip_blank(d, p),
        more_tokens(d, skip_blank(d, p)) == more_tokens(d, p),
        scan_token(d, skip_blank(d, p)) == scan_token(d, p),
{
    lemma_skip_from_bounds(d, p, false);
}

/// Scanning a number never moves backwards.
pub proof fn lemma_scan_u32_progress(d: Seq<u8>, p: int, name: &'static str)
    requires
        p >= 0,
    ensures
        p <= scan_u32(d, p, name).1,
{
    lemma_scan_token_progress(d, p);
}

/// A decoded image ends after where the scan began and inside the input.
pub proof fn lemma_decode_one_progress(kind: NetpbmKind, d: Seq<u8>, p: int)
    requires
        p >= 0,
    ensures
        decode_one_spec(kind, d, p).0 is Ok ==> p < decode_one_spec(kind, d, p).1 <= d.len(),
{
    lemma_scan_token_progress(d, p);
    let q1 = scan_token(d, p).1;
    if scan_token(d, p).0 is Ok {
        lemma_scan_u32_progress(d, q1, "width");
        let q2 = scan_u32(d, q1, "width").1;
        lemma_scan_u32_progress(d, q2, "height");
        let q3 = scan_u32(d, q2, "height").1;
        lemma_scan_u32_progress(d, q3, "max value");
    }
}

/// Decoding from where whitespace and comments end is decoding from before
/// them.
pub proof fn lemma_decode_one_skip(kind: NetpbmKind, d: Seq<u8>, p: int)
    requires
        p >= 0,
    ensures
        decode_one_spec(kind, d, skip_blank(d, p)) == decode_one_spec(kind, d, p),
{
    lemma_skip_blank_idempotent(d, p);
}

/// The images of a stream of binary images of one family, from `p` on.
pub open spec fn decode_stream(kind: NetpbmKind, d: Seq<u8>, p: int) -> Result<Seq<NetpbmModel>, ImageError>
    decreases d.len() - p,
{
    if !more_tokens(d, p) {
        Ok(Seq::empty())
    } else {
        let (r, q) = decode_one_spec(kind, d, p);
        match r {
            Err(e) => Err(e),
            Ok(m) => if q <= p || q > d.len() {
                Err(ImageError::UnsupportedFormat)
            } else {
                match decode_stream(kind, d, q) {
                    Ok(rest) => Ok(seq![m] + rest),
                    Err(e) => Err(e),
                }
            },
        }
    }
}

/// Images decoded so far in front of the result for the rest of a stream.
pub open spec fn prepend_models(done: Seq<NetpbmModel>, rest: Result<Seq<NetpbmModel>, ImageError>) -> Result<
    Seq<NetpbmModel>,
    ImageError,
> {
    match rest {
        Ok(r) => Ok(done + r),
        Err(e) => Err(e),
    }
}

/// Decodes every binary image of one family from a stream.
pub fn decode_all_of_kind(kind: NetpbmKind, data: &[u8]) -> (res: Result<Vec<NetpbmImage>, ImageError>)
    ensures
        natives_result(res) == decode_stream(kind, data@, 0),
{
    let mut parser = HeaderParser::new(data);
    let mut images: Vec<NetpbmImage> = Vec::new();
    let ghost d = data@;
    loop
        invariant
            parser.bytes() == d,
            d == data@,
            parser.pos() >= 0,
            prepend_models(images@.map_values(|i: NetpbmImage| i@), decode_stream(kind, d, parser.pos()))
                == decode_stream(kind, d, 0),
        decreases d.len() - parser.pos(),
    {
        let ghost p = parser.pos();
        proof {
            lemma_skip_blank_idempotent(d, p);
            lemma_skip_from_bounds(d, p, false);
        }
        if !parser.has_more_tokens() {
            assert(images@.map_values(|i: NetpbmImage| i@) + Seq::<NetpbmModel>::empty() =~= images@.map_values(
                |i: NetpbmImage| i@,
            ));
            return Ok(images);
        }
        let ghost p2 = parser.pos();
        proof {
            lemma_decode_one_skip(kind, d, p);
            lemma_decode_one_progress(kind, d, p2);
        }
        let image = match decode_one_native(kind, data, &mut parser) {
            Ok(image) => image,
            Err(e) => return Err(e),
        };
        let ghost before = images@.map_values(|i: NetpbmImage| i@);
        images.push(image);
        assert(images@.map_values(|i: NetpbmImage| i@) =~= before + seq![image@]);
        proof {
            match decode_stream(kind, d, parser.pos()) {
                Ok(rest) => {
                    assert(before + seq![image@] + rest =~= before + (seq![image@] + rest));
                },
                Err(e) => {},
            }
        }
    }
}

/// The one ASCII image of a family that the input holds.
pub open spec fn decode_ascii_spec(kind: NetpbmKind, d: Seq<u8>) -> Result<NetpbmModel, ImageError> {
    match kind {
        NetpbmKind::Pbm => {
            let (hd, q) = scan_bitmap_header(d, 0, ascii_magic(kind));
            match hd {
                Err(e) => Err(e),
                Ok(dims) => if dims.width * dims.height > usize::MAX {
                    Err(too_large(dims.width, dims.height, PixelFormat::Gray8))
                } else {
                    match scan_ascii_raster(d, q, (dims.width * dims.height) as nat, SampleKind::Bit) {
                        Err(e) => Err(e),
                        Ok(px) => Ok(NetpbmModel::Pbm { width: dims.width, height: dims.height, data: px }),
                    }
                },
            }
        },
        _ => {
            let (hd, q) = scan_sample_header(d, 0, ascii_magic(kind));
            match hd {
                Err(e) => Err(e),
                Ok((dims, maxval)) => {
                    let n = dims.width * dims.height * kind_channels(kind);
                    if n > usize::MAX {
                        Err(too_large(dims.width, dims.height, kind_format(kind, maxval)))
                    } else {
                        match scan_ascii_raster(d, q, n as nat, kind_for_max(maxval)) {
                            Err(e) => Err(e),
                            Ok(px) => Ok(kind_model(kind, dims.width, dims.height, maxval, px)),
                        }
                    }
                },
            }
        },
    }
}

/// Decodes the one ASCII image of a family that the input holds.
pub fn decode_ascii_of_kind(kind: NetpbmKind, data: &[u8]) -> (res: Result<NetpbmImage, ImageError>)
    ensures
        native_result(res) == decode_ascii_spec(kind, data@),
{
    let mut parser = HeaderParser::new(data);
    let magic = ascii_magic_bytes(kind);
    match kind {
        NetpbmKind::Pbm => {
            let dimensions = match read_bitmap_header(&mut parser, &magic) {
                Ok(d) => d,
                Err(e) => return Err(e),
            };
            let expected = match (dimensions.width as usize).checked_mul(dimensions.height as usize) {
                Some(n) => n,
                None => return Err(ImageError::ImageDimensionsTooLarge {
                    width: dimensions.width,
                    height: dimensions.height,
                    bytes_per_pixel: 1,
                }),
            };
            match read_ascii_samples(&mut parser, expected, SampleKind::Bit) {
                Ok(pixels) => Ok(
                    NetpbmImage::Pbm { width: dimensions.width, height: dimensions.height, data: pixels },
                ),
                Err(e) => Err(e),
            }
        },
        _ => {
            let (dimensions, maxval) = match read_any_sample_header(&mut parser, &magic) {
                Ok(h) => h,
                Err(e) => return Err(e),
            };
            let channels: usize = match kind {
                NetpbmKind::Ppm => 3,
                _ => 1,
            };
            let pixel_format = match kind {
                NetpbmKind::Ppm => if maxval < 256 {
                    PixelFormat::Rgb8
                } else {
                    PixelFormat::Rgb16
                },
                _ => if maxval < 256 {
                    PixelFormat::Gray8
                } else {
                    PixelFormat::Gray16
                },
            };
            let too_large = ImageError::ImageDimensionsTooLarge {
                width: dimensions.width,
                height: dimensions.height,
                bytes_per_pixel: pixel_format.bytes_per_pixel(),
            };
            let ghost w = dimensions.width as int;
            let ghost h = dimensions.height as int;
            assert(w * h <= w * h * channels) by (nonlinear_arith)
                requires
                    w >= 0,
                    h >= 0,
                    channels >= 1,
            ;
            let pixels = match (dimensions.width as usize).checked_mul(dimensions.height as usize) {
                Some(n) => n,
                None => return Err(too_large),
            };
            let expected = match pixels.checked_mul(channels) {
                Some(n) => n,
                None => return Err(too_large),
            };
            let samples = match read_ascii_sample_bytes_with_max_value(&mut parser, expected, maxval) {
                Ok(s) => s,
                Err(e) => return Err(e),
            };
            match kind {
                NetpbmKind::Ppm => Ok(
                    NetpbmImage::Ppm {
                        width: dimensions.width,
                        height: dimensions.height,
                        maxval,
                        data: samples,
                    },
                ),
                _ => Ok(
                    NetpbmImage::Pgm {
                        width: dimensions.width,
                        height: dimensions.height,
                        maxval,
                        data: samples,
                    },
                ),
            }
        },
    }
}


// ---------------------------------------------------------------------------
// Encoding.
// ---------------------------------------------------------------------------

/// What an encoder did to its output: on success it appended the bytes, on
/// failure it left the output as it was.
pub open spec fn writes(
    res: Result<(), ImageError>,
    before: Seq<u8>,
    after: Seq<u8>,
    out: Result<Seq<u8>, ImageError>,
) -> bool {
    match out {
        Ok(bytes) => res is Ok && after == before + bytes,
        Err(e) => res == Err::<(), ImageError>(e) && after == before,
    }
}

/// Gray8 samples thresholded to PBM bits: below 128 is black (1).
pub open spec fn threshold_bits(px: Seq<u8>) -> Seq<u8> {
    Seq::new(
        px.len(),
        |i: int|
            if px[i] < 128 {
                1u8
            } else {
                0u8
            },
    )
}

/// The encoding of a view as a PBM, PGM or PPM file, ASCII or binary.
pub open spec fn encode_view_spec(kind: NetpbmKind, ascii: bool, image: ImageView<'_>) -> Result<
    Seq<u8>,
    ImageError,
> {
    let magic = if ascii {
        ascii_magic(kind)
    } else {
        binary_magic(kind)
    };
    match kind {
        NetpbmKind::Pbm => match view_check(image, PixelFormat::Gray8) {
            Some(e) => Err(e),
            None => {
                let bits = threshold_bits(image.pixels());
                let header = bitmap_header_bytes(magic, image.width, image.height);
                if ascii {
                    Ok(header + text_rows(u8_values(bits), image.width as int, image.height as nat))
                } else {
                    Ok(header + pack_rows(bits, image.width as int, image.height as nat))
                }
            },
        },
        _ => {
            let formats = if kind == NetpbmKind::Ppm {
                (PixelFormat::Rgb8, PixelFormat::Rgb16)
            } else {
                (PixelFormat::Gray8, PixelFormat::Gray16)
            };
            match view_samples_spec(image, formats.0, formats.1) {
                Err(e) => Err(e),
                Ok((m, px)) => {
                    let header = sample_header_bytes(magic, image.width, image.height, m);
                    if ascii {
                        let vals = sample_values(px, m);
                        Ok(header + text_rows(vals, kind_channels(kind), (vals.len() as int / kind_channels(kind)) as nat))
                    } else if m < 256 {
                        Ok(header + px)
                    } else {
                        Ok(header + swap_pairs(px))
                    }
                },
            }
        },
    }
}

/// Appends samples as ASCII lines of `channels` numbers.
pub fn write_sample_lines(writer: &mut Vec<u8>, samples: &[u8], maxval: u16, channels: usize)
    requires
        channels == 1 || channels == 3,
        maxval < 256 ==> samples@.len() as int % channels as int == 0,
        maxval >= 256 ==> samples@.len() as int % (2 * channels as int) == 0,
    ensures
        final(writer)@ == old(writer)@ + text_rows(
            sample_values(samples@, maxval),
            channels as int,
            (sample_values(samples@, maxval).len() as int / channels as int) as nat,
        ),
{
    let vals = sample_values_of(samples, maxval);
    let lines = vals.len() / channels;
    assert(channels * lines == vals@.len());
    write_text_rows(writer, vals.as_slice(), channels, lines);
}

/// Encodes a view as a PBM, PGM or PPM file, ASCII or binary.
#[verifier::spinoff_prover]
pub fn encode_view(kind: NetpbmKind, ascii: bool, writer: &mut Vec<u8>, image: ImageView<'_>) -> (res:
    Result<(), ImageError>)
    ensures
        writes(res, old(writer)@, final(writer)@, encode_view_spec(kind, ascii, image)),
{
    let magic = if ascii {
        ascii_magic_bytes(kind)
    } else {
        binary_magic_bytes(kind)
    };
    match kind {
        NetpbmKind::Pbm => {
            let view = match validate_image_view(image, PixelFormat::Gray8) {
                Ok(v) => v,
                Err(e) => return Err(e),
            };
            let px = packed_image_data(view);
            proof {
                crate::image::lemma_pixels_len(view);
            }
            let mut bits: Vec<u8> = Vec::new();
            let mut i: usize = 0;
            while i < px.len()
                invariant
                    i <= px@.len(),
                    bits@.len() == i,
                    forall|j: int| 0 <= j < i ==> bits@[j] == threshold_bits(px@)[j],
                decreases px@.len() - i,
            {
                bits.push(
                    if px[i] < 128 {
                        1
                    } else {
                        0
                    },
                );
                i = i + 1;
            }
            assert(bits@ =~= threshold_bits(px@));
            write_header_dimensions(writer, &magic, view.width, view.height);
            if ascii {
                let vals = sample_values_of(bits.as_slice(), 255);
                write_text_rows(writer, vals.as_slice(), view.width as usize, view.height as usize);
            } else {
                pack_bit_rows(writer, bits.as_slice(), view.width as usize, view.height as usize);
            }
            assert(final(writer)@ =~= old(writer)@ + encode_view_spec(kind, ascii, image).unwrap());
            Ok(())
        },
        _ => {
            let (narrow, wide) = match kind {
                NetpbmKind::Ppm => (PixelFormat::Rgb8, PixelFormat::Rgb16),
                _ => (PixelFormat::Gray8, PixelFormat::Gray16),
            };
            let (maxval, px) = match view_samples(image, narrow, wide) {
                Ok(r) => r,
                Err(e) => return Err(e),
            };
            proof {
                crate::image::lemma_pixels_len(image);
                let bpp = image.pixel_format.spec_bytes_per_pixel() as int;
                let wi = image.width as int;
                let hi = image.height as int;
                assert(hi * (wi * bpp) == (wi * hi) * bpp) by (nonlinear_arith);
                assert(((wi * hi) * bpp) % bpp == 0) by (nonlinear_arith)
                    requires
                        bpp >= 1,
                ;
            }
            write_header_max_value(writer, &magic, image.width, image.height, maxval);
            let channels: usize = match kind {
                NetpbmKind::Ppm => 3,
                _ => 1,
            };
            if ascii {
                proof {
                    let n = (image.width as int * image.height as int);
                    if kind == NetpbmKind::Ppm {
                        assert((n * 3) % 3 == 0) by (nonlinear_arith);
                        assert((n * 6) % 6 == 0) by (nonlinear_arith);
                    }
                    assert((n * 2) % 2 == 0) by (nonlinear_arith);
                }
                write_sample_lines(writer, px.as_slice(), maxval, channels);
            } else if maxval < 256 {
                append_bytes(writer, px.as_slice());
            } else {
                append_swapped_pairs(writer, px.as_slice());
            }
            assert(final(writer)@ =~= old(writer)@ + encode_view_spec(kind, ascii, image).unwrap());
            Ok(())
        },
    }
}


/// The encoding of a native image as a file of its family, ASCII or binary;
/// an image of another family is refused.
pub open spec fn encode_native_spec(kind: NetpbmKind, ascii: bool, image: NetpbmModel) -> Result<
    Seq<u8>,
    ImageError,
> {
    let magic = if ascii {
        ascii_magic(kind)
    } else {
        binary_magic(kind)
    };
    match image {
        NetpbmModel::Pbm { width, height, data } => if kind != NetpbmKind::Pbm {
            Err(ImageError::UnsupportedFormat)
        } else {
            match native_pbm_check(width, height, data) {
                Some(e) => Err(e),
                None => {
                    let header = bitmap_header_bytes(magic, width, height);
                    if ascii {
                        Ok(header + text_rows(u8_values(data), width as int, height as nat))
                    } else {
                        Ok(header + pack_rows(data, width as int, height as nat))
                    }
                },
            }
        },
        NetpbmModel::Pgm { width, height, maxval, data } => if kind != NetpbmKind::Pgm {
            Err(ImageError::UnsupportedFormat)
        } else {
            native_samples_encoding(kind, ascii, magic, width, height, maxval, data)
        },
        NetpbmModel::Ppm { width, height, maxval, data } => if kind != NetpbmKind::Ppm {
            Err(ImageError::UnsupportedFormat)
        } else {
            native_samples_encoding(kind, ascii, magic, width, height, maxval, data)
        },
    }
}

/// The encoding of the fields of a native PGM or PPM image.
pub open spec fn native_samples_encoding(
    kind: NetpbmKind,
    ascii: bool,
    magic: Seq<u8>,
    width: u32,
    height: u32,
    maxval: u16,
    data: Seq<u8>,
) -> Result<Seq<u8>, ImageError> {
    match native_sample_check(width, height, maxval, data, kind_channels(kind)) {
        Some(e) => Err(e),
        None => {
            let header = sample_header_bytes(magic, width, height, maxval);
            if ascii {
                let vals = sample_values(data, maxval);
                Ok(header + text_rows(vals, kind_channels(kind), (vals.len() as int / kind_channels(kind)) as nat))
            } else if maxval < 256 {
                Ok(header + data)
            } else {
                Ok(header + swap_pairs(data))
            }
        },
    }
}

/// Encodes a native image as a file of its family, ASCII or binary.
pub fn encode_native_of_kind(kind: NetpbmKind, ascii: bool, writer: &mut Vec<u8>, image: &NetpbmImage) -> (res:
    Result<(), ImageError>)
    ensures
        writes(res, old(writer)@, final(writer)@, encode_native_spec(kind, ascii, image@)),
{
    let magic = if ascii {
        ascii_magic_bytes(kind)
    } else {
        binary_magic_bytes(kind)
    };
    match image {
        NetpbmImage::Pbm { width, height, data } => {
            if kind != NetpbmKind::Pbm {
                return Err(ImageError::UnsupportedFormat);
            }
            match validate_native_pbm_fields(*width, *height, data.as_slice()) {
                Ok(()) => {},
                Err(e) => return Err(e),
            }
            write_header_dimensions(writer, &magic, *width, *height);
            if ascii {
                let vals = sample_values_of(data.as_slice(), 255);
                write_text_rows(writer, vals.as_slice(), *width as usize, *height as usize);
            } else {
                pack_bit_rows(writer, data.as_slice(), *width as usize, *height as usize);
            }
            assert(final(writer)@ =~= old(writer)@ + encode_native_spec(kind, ascii, image@).unwrap());
            Ok(())
        },
        NetpbmImage::Pgm { width, height, maxval, data } => {
            if kind != NetpbmKind::Pgm {
                return Err(ImageError::UnsupportedFormat);
            }
            write_native_samples(kind, ascii, writer, &magic, *width, *height, *maxval, data.as_slice())
        },
        NetpbmImage::Ppm { width, height, maxval, data } => {
            if kind != NetpbmKind::Ppm {
                return Err(ImageError::UnsupportedFormat);
            }
            write_native_samples(kind, ascii, writer, &magic, *width, *height, *maxval, data.as_slice())
        },
    }
}

/// Checks and writes the fields of a native PGM or PPM image.
pub fn write_native_samples(
    kind: NetpbmKind,
    ascii: bool,
    writer: &mut Vec<u8>,
    magic: &[u8],
    width: u32,
    height: u32,
    maxval: u16,
    data: &[u8],
) -> (res: Result<(), ImageError>)
    requires
        kind != NetpbmKind::Pbm,
    ensures
        writes(
            res,
            old(writer)@,
            final(writer)@,
            native_samples_encoding(kind, ascii, magic@, width, height, maxval, data@),
        ),
{
    let channels: usize = match kind {
        NetpbmKind::Ppm => 3,
        _ => 1,
    };
    match validate_native_sample_image(width, height, maxval, data, channels) {
        Ok(()) => {},
        Err(e) => return Err(e),
    }
    write_header_max_value(writer, magic, width, height, maxval);
    if ascii {
        proof {
            let n = width as int * height as int;
            assert((n * channels * 1) % (channels as int) == 0) by (nonlinear_arith)
                requires
                    channels >= 1,
            ;
            assert(n * channels * 2 == n * (2 * channels as int)) by (nonlinear_arith);
            vstd::arithmetic::div_mod::lemma_mod_multiples_basic(n, 2 * channels as int);
        }
        write_sample_lines(writer, data, maxval, channels);
    } else if maxval < 256 {
        append_bytes(writer, data);
    } else {
        append_swapped_pairs(writer, data);
    }
    assert(final(writer)@ =~= old(writer)@ + native_samples_encoding(
        kind,
        ascii,
        magic@,
        width,
        height,
        maxval,
        data@,
    ).unwrap());
    Ok(())
}

/// The binary encodings of the first images of a sequence, back to back.
pub open spec fn encode_all_spec(kind: NetpbmKind, images: Seq<NetpbmModel>) -> Result<Seq<u8>, ImageError>
    decreases images.len(),
{
    if images.len() == 0 {
        Ok(Seq::empty())
    } else {
        match encode_all_spec(kind, images.drop_last()) {
            Err(e) => Err(e),
            Ok(b) => match encode_native_spec(kind, false, images.last()) {
                Err(e) => Err(e),
                Ok(b2) => Ok(b + b2),
            },
        }
    }
}

/// What writing a sequence of images did: on success the output grew by all
/// their encodings; on failure it grew by those of the images before the
/// first one that failed.
pub open spec fn writes_all(
    kind: NetpbmKind,
    res: Result<(), ImageError>,
    before: Seq<u8>,
    after: Seq<u8>,
    images: Seq<NetpbmModel>,
) -> bool {
    match encode_all_spec(kind, images) {
        Ok(bytes) => res is Ok && after == before + bytes,
        Err(e) => res == Err::<(), ImageError>(e) && exists|k: int|
            0 <= k < images.len() && (#[trigger] encode_all_spec(kind, images.take(k)) == Ok::<
                Seq<u8>,
                ImageError,
            >(after.subrange(before.len() as int, after.len() as int))) && encode_native_spec(
                kind,
                false,
                images[k],
            ) == Err::<Seq<u8>, _>(e) && after =~= before + after.subrange(
                before.len() as int,
                after.len() as int,
            ),
    }
}

/// Writes native images as a binary multi-image stream.
pub fn encode_all_native_of_kind(kind: NetpbmKind, writer: &mut Vec<u8>, images: &[NetpbmImage]) -> (res:
    Result<(), ImageError>)
    ensures
        writes_all(kind, res, old(writer)@, final(writer)@, images@.map_values(|i: NetpbmImage| i@)),
{
    let ghost models = images@.map_values(|i: NetpbmImage| i@);
    assert(models.take(0) =~= Seq::<NetpbmModel>::empty());
    assert(writer@.subrange(writer@.len() as int, writer@.len() as int) =~= Seq::<u8>::empty());
    assert(writer@.take(writer@.len() as int) =~= writer@);
    let mut i: usize = 0;
    while i < images.len()
        invariant
            i <= images@.len(),
            models == images@.map_values(|i: NetpbmImage| i@),
            encode_all_spec(kind, models.take(i as int)) == Ok::<Seq<u8>, ImageError>(
                writer@.subrange(old(writer)@.len() as int, writer@.len() as int),
            ),
            writer@.len() >= old(writer)@.len(),
            writer@.take(old(writer)@.len() as int) == old(writer)@,
        decreases images@.len() - i,
    {
        let ghost before = writer@;
        let ghost prefix = models.take(i as int);
        assert(models.take(i + 1).drop_last() =~= prefix);
        assert(models.take(i + 1).last() == models[i as int]);
        match encode_native_of_kind(kind, false, writer, &images[i]) {
            Ok(()) => {},
            Err(e) => {
                proof {
                    assert(writer@ =~= old(writer)@ + writer@.subrange(
                        old(writer)@.len() as int,
                        writer@.len() as int,
                    ));
                    lemma_encode_all_error_persists(kind, models, (i + 1) as nat);
                }
                return Err(e);
            },
        }
        i = i + 1;
        assert(writer@.subrange(old(writer)@.len() as int, writer@.len() as int) =~= before.subrange(
            old(writer)@.len() as int,
            before.len() as int,
        ) + encode_native_spec(kind, false, models[i - 1]).unwrap());
        assert(writer@.take(old(writer)@.len() as int) =~= before.take(old(writer)@.len() as int));
    }
    assert(models.take(images@.len() as int) =~= models);
    assert(writer@ =~= old(writer)@ + writer@.subrange(old(writer)@.len() as int, writer@.len() as int));
    Ok(())
}

/// Once writing a prefix failed, every longer prefix fails the same way.
pub proof fn lemma_encode_all_error_persists(kind: NetpbmKind, images: Seq<NetpbmModel>, i: nat)
    requires
        i <= images.len(),
        encode_all_spec(kind, images.take(i as int)) is Err,
    ensures
        encode_all_spec(kind, images) == encode_all_spec(kind, images.take(i as int)),
    decreases images.len() - i,
{
    if i < images.len() {
        let t = images.take(i as int + 1);
        assert(t.drop_last() =~= images.take(i as int));
        lemma_encode_all_error_persists(kind, images, i + 1);
    } else {
        assert(images.take(i as int) =~= images);
    }
}


/// The native image of a view in a family.
pub open spec fn view_to_native_spec(kind: NetpbmKind, image: ImageView<'_>) -> Result<NetpbmModel, ImageError> {
    match kind {
        NetpbmKind::Pbm => view_pbm_spec(image),
        NetpbmKind::Pgm => view_pgm_spec(image),
        NetpbmKind::Ppm => view_ppm_spec(image),
    }
}

/// Converts a view into a native image of a family.
pub fn view_to_native(kind: NetpbmKind, image: ImageView<'_>) -> (res: Result<NetpbmImage, ImageError>)
    ensures
        native_result(res) == view_to_native_spec(kind, image),
{
    match kind {
        NetpbmKind::Pbm => image_view_to_pbm_native(image),
        NetpbmKind::Pgm => image_view_to_pgm_native(image),
        NetpbmKind::Ppm => image_view_to_ppm_native(image),
    }
}

/// The native images of a sequence of views, or the first failure.
pub open spec fn convert_views(kind: NetpbmKind, views: Seq<ImageView<'_>>) -> Result<Seq<NetpbmModel>, ImageError>
    decreases views.len(),
{
    if views.len() == 0 {
        Ok(Seq::empty())
    } else {
        match convert_views(kind, views.drop_last()) {
            Err(e) => Err(e),
            Ok(ms) => match view_to_native_spec(kind, views.last()) {
                Err(e) => Err(e),
                Ok(m) => Ok(ms.push(m)),
            },
        }
    }
}

/// Once converting a prefix failed, converting the whole fails the same way.
pub proof fn lemma_convert_views_error_persists(kind: NetpbmKind, views: Seq<ImageView<'_>>, i: nat)
    requires
        i <= views.len(),
        convert_views(kind, views.take(i as int)) is Err,
    ensures
        convert_views(kind, views) == convert_views(kind, views.take(i as int)),
    decreases views.len() - i,
{
    if i < views.len() {
        assert(views.take(i as int + 1).drop_last() =~= views.take(i as int));
        lemma_convert_views_error_persists(kind, views, i + 1);
    } else {
        assert(views.take(i as int) =~= views);
    }
}

/// Converts views into native images of a family, then writes them as a
/// binary multi-image stream; nothing is written when a conversion fails.
pub fn encode_all_views(kind: NetpbmKind, writer: &mut Vec<u8>, images: &[ImageView<'_>]) -> (res: Result<
    (),
    ImageError,
>)
    ensures
        match convert_views(kind, images@) {
            Err(e) => res == Err::<(), _>(e) && final(writer)@ == old(writer)@,
            Ok(models) => writes_all(kind, res, old(writer)@, final(writer)@, models),
        },
{
    let mut natives: Vec<NetpbmImage> = Vec::new();
    let mut i: usize = 0;
    assert(images@.take(0) =~= Seq::<ImageView>::empty());
    assert(natives@.map_values(|n: NetpbmImage| n@) =~= Seq::<NetpbmModel>::empty());
    while i < images.len()
        invariant
            i <= images@.len(),
            convert_views(kind, images@.take(i as int)) == Ok::<Seq<NetpbmModel>, ImageError>(
                natives@.map_values(|n: NetpbmImage| n@),
            ),
        decreases images@.len() - i,
    {
        assert(images@.take(i as int + 1).drop_last() =~= images@.take(i as int));
        assert(images@.take(i as int + 1).last() == images@[i as int]);
        match view_to_native(kind, images[i]) {
            Ok(native) => {
                let ghost before = natives@.map_values(|n: NetpbmImage| n@);
                natives.push(native);
                assert(natives@.map_values(|n: NetpbmImage| n@) =~= before.push(native@));
            },
            Err(e) => {
                proof {
                    lemma_convert_views_error_persists(kind, images@, (i + 1) as nat);
                }
                return Err(e);
            },
        }
        i = i + 1;
    }
    assert(images@.take(images@.len() as int) =~= images@);
    encode_all_native_of_kind(kind, writer, natives.as_slice())
}


// ---------------------------------------------------------------------------
// Laws.
// ---------------------------------------------------------------------------

/// A token of non-blank bytes from `s` ends at the first blank after it.
proof fn lemma_token_end_at(d: Seq<u8>, s: int, k: int, i: int)
    requires
        0 <= s,
        0 <= i <= k,
        s + k < d.len(),
        is_blank(d[s + k]),
        forall|j: int| s <= j < s + k ==> !is_blank(#[trigger] d[j]),
    ensures
        token_end(d, s + i) == s + k,
    decreases k - i,
{
    if i < k {
        lemma_token_end_at(d, s, k, i + 1);
    }
}

/// A decimal number reads back as a header number.
proof fn lemma_token_u32_decimal(n: u32, name: &'static str)
    ensures
        token_u32(decimal(n as nat), name) == Ok::<u32, ImageError>(n),
        decimal(n as nat).len() > 0,
        forall|i: int| 0 <= i < decimal(n as nat).len() ==> is_digit(#[trigger] decimal(n as nat)[i]),
{
    let s = decimal(n as nat);
    lemma_decimal_digits(n as nat);
    lemma_parse_decimal(n);
    assert forall|i: int| 0 <= i < s.len() implies #[trigger] s[i] < 0x80 by {
        assert(is_digit(s[i]));
    }
    lemma_ascii_valid_utf8(s);
}

/// A number written after one blank byte at `p` and followed by a blank is
/// read back, and the scan stops at the blank after it.
proof fn lemma_scan_written_number(d: Seq<u8>, p: int, n: u32, name: &'static str)
    requires
        0 <= p,
        p + 1 + decimal(n as nat).len() < d.len(),
        is_blank(d[p]),
        d.subrange(p + 1, p + 1 + decimal(n as nat).len()) == decimal(n as nat),
        is_blank(d[p + 1 + decimal(n as nat).len()]),
    ensures
        scan_u32(d, p, name) == (Ok::<u32, ImageError>(n), p + 1 + decimal(n as nat).len()),
{
    let dec = decimal(n as nat);
    let k = dec.len() as int;
    lemma_token_u32_decimal(n, name);
    assert forall|j: int| p + 1 <= j < p + 1 + k implies !is_blank(#[trigger] d[j]) by {
        assert(d.subrange(p + 1, p + 1 + k)[j - p - 1] == dec[j - p - 1]);
        assert(is_digit(dec[j - p - 1]));
    }
    assert(!is_blank(d[p + 1]) && d[p + 1] != 0x23);
    assert(skip_from(d, p + 1, false) == p + 1);
    assert(skip_blank(d, p) == p + 1);
    lemma_token_end_at(d, p + 1, k, 0);
}

/// The header of a binary PGM or PPM image and its raster, as written.
pub open spec fn written_samples(kind: NetpbmKind, width: u32, height: u32, maxval: u16, data: Seq<u8>) -> Seq<u8> {
    sample_header_bytes(binary_magic(kind), width, height, maxval) + if maxval < 256 {
        data
    } else {
        swap_pairs(data)
    }
}

/// A magic number as this crate writes them: `P` and a digit.
pub open spec fn plain_magic(magic: Seq<u8>) -> bool {
    magic.len() == 2 && magic[0] == 0x50 && !is_blank(magic[1])
}

/// The header of a written PGM or PPM image is read back.
#[verifier::spinoff_prover]
proof fn lemma_scan_written_sample_header(d: Seq<u8>, p: int, magic: Seq<u8>, width: u32, height: u32, maxval: u16)
    requires
        0 <= p,
        plain_magic(magic),
        maxval >= 1,
        width > 0,
        height > 0,
        p + sample_header_bytes(magic, width, height, maxval).len() <= d.len(),
        d.subrange(p, p + sample_header_bytes(magic, width, height, maxval).len()) == sample_header_bytes(
            magic,
            width,
            height,
            maxval,
        ),
    ensures
        scan_sample_header(d, p, magic) == (
            Ok::<(Dimensions, u16), ImageError>((Dimensions { width, height }, maxval)),
            p + sample_header_bytes(magic, width, height, maxval).len() - 1,
        ),
{
    let hb = sample_header_bytes(magic, width, height, maxval);
    let dw = decimal(width as nat);
    let dh = decimal(height as nat);
    let dm = decimal(maxval as nat);
    lemma_token_u32_decimal(width, "width");
    lemma_token_u32_decimal(height, "height");
    lemma_token_u32_decimal(maxval as u32, "max value");
    assert forall|j: int| p <= j < p + hb.len() implies #[trigger] d[j] == hb[j - p] by {
        assert(d.subrange(p, p + hb.len())[j - p] == hb[j - p]);
    }
    let a = p + 3;
    let b = a + dw.len() + 1;
    let c = b + dh.len() + 1;
    let q = c + dm.len();
    assert(hb.len() == 3 + dw.len() + 1 + dh.len() + 1 + dm.len() + 1);
    assert(d[p] == 0x50);
    assert(!is_blank(d[p]) && d[p] != 0x23);
    assert(skip_blank(d, p) == p);
    assert(d[p + 2] == 0x0a);
    assert(!is_blank(d[p + 1]));
    lemma_token_end_at(d, p, 2, 0);
    assert(d.subrange(p, p + 2) =~= magic);
    assert(d.subrange(a, a + dw.len()) =~= dw);
    assert(d[a + dw.len()] == 0x20);
    lemma_scan_written_number(d, p + 2, width, "width");
    assert(d.subrange(b, b + dh.len()) =~= dh);
    assert(d[b + dh.len()] == 0x0a);
    lemma_scan_written_number(d, a + dw.len(), height, "height");
    assert(d.subrange(c, c + dm.len()) =~= dm);
    assert(d[q] == 0x0a);
    lemma_scan_written_number(d, b + dh.len(), maxval as u32, "max value");
    assert((maxval as u32) as u16 == maxval);
}

/// `swap_pairs` undoes itself on an even number of bytes.
pub proof fn lemma_swap_pairs_involution(s: Seq<u8>)
    requires
        s.len() % 2 == 0,
    ensures
        swap_pairs(swap_pairs(s)) == s,
        swap_pairs(s).len() == s.len(),
{
    assert(swap_pairs(swap_pairs(s)) =~= s);
}

/// A written binary PGM or PPM image, found at `p`, is decoded as that image
/// and read to its end, when its rows are short enough for a `u32`.
#[verifier::spinoff_prover]
pub proof fn lemma_decode_written_samples(
    d: Seq<u8>,
    p: int,
    kind: NetpbmKind,
    width: u32,
    height: u32,
    maxval: u16,
    data: Seq<u8>,
)
    requires
        kind != NetpbmKind::Pbm,
        0 <= p,
        native_sample_check(width, height, maxval, data, kind_channels(kind)) is None,
        width * kind_format(kind, maxval).spec_bytes_per_pixel() <= u32::MAX,
        p + written_samples(kind, width, height, maxval, data).len() <= d.len(),
        d.len() <= usize::MAX,
        d.subrange(p, p + written_samples(kind, width, height, maxval, data).len()) == written_samples(
            kind,
            width,
            height,
            maxval,
            data,
        ),
    ensures
        decode_one_spec(kind, d, p) == (
            Ok::<NetpbmModel, ImageError>(kind_model(kind, width, height, maxval, data)),
            p + written_samples(kind, width, height, maxval, data).len(),
        ),
{
    let magic = binary_magic(kind);
    let hb = sample_header_bytes(magic, width, height, maxval);
    let raster = if maxval < 256 {
        data
    } else {
        swap_pairs(data)
    };
    let f = written_samples(kind, width, height, maxval, data);
    let c = kind_channels(kind);
    let ss = sample_size(maxval);
    let n = width * height * c * ss;
    assert(data.len() == n);
    assert(kind_format(kind, maxval).spec_bytes_per_pixel() == c * ss);
    if maxval >= 256 {
        assert(n == (width * height * c) * 2);
        vstd::arithmetic::div_mod::lemma_mod_multiples_basic(width * height * c, 2);
        lemma_swap_pairs_involution(data);
    }
    assert(raster.len() == n);
    assert(f == hb + raster);
    assert(n > 0) by (nonlinear_arith)
        requires
            width > 0,
            height > 0,
            c >= 1,
            ss >= 1,
            n == width * height * c * ss,
    ;
    lemma_split_written(d, p, hb, raster);
    lemma_scan_written_sample_header(d, p, magic, width, height, maxval);
    let q = p + hb.len() - 1;
    assert(d[q] == hb[hb.len() - 1]);
    assert(width * (c * ss) * height == n) by (nonlinear_arith)
        requires
            n == width * height * c * ss,
    ;
}

/// Two pieces that stand together at `p` stand one after the other.
proof fn lemma_split_written(d: Seq<u8>, p: int, a: Seq<u8>, b: Seq<u8>)
    requires
        0 <= p,
        p + a.len() + b.len() <= d.len(),
        d.subrange(p, p + a.len() + b.len()) == a + b,
    ensures
        d.subrange(p, p + a.len()) == a,
        d.subrange(p + a.len(), p + a.len() + b.len()) == b,
{
    assert forall|i: int| 0 <= i < a.len() implies d.subrange(p, p + a.len())[i] == a[i] by {
        assert(d.subrange(p, p + a.len() + b.len())[i] == (a + b)[i]);
    }
    assert forall|i: int| 0 <= i < b.len() implies d.subrange(p + a.len(), p + a.len() + b.len())[i] == b[i] by {
        assert(d.subrange(p, p + a.len() + b.len())[a.len() + i] == (a + b)[a.len() + i]);
        assert(d.subrange(p, p + a.len() + b.len())[a.len() + i] == d[p + a.len() + i]);
        assert(d.subrange(p + a.len(), p + a.len() + b.len())[i] == d[p + a.len() + i]);
        assert((a + b)[a.len() + i] == b[i]);
    }
    assert(d.subrange(p, p + a.len()) =~= a);
    assert(d.subrange(p + a.len(), p + a.len() + b.len()) =~= b);
}


/// Eight bits packed most significant first come out again one by one.
proof fn lemma_eight_bits(b0: u8, b1: u8, b2: u8, b3: u8, b4: u8, b5: u8, b6: u8, b7: u8, r: u8)
    by (bit_vector)
    requires
        b0 <= 1,
        b1 <= 1,
        b2 <= 1,
        b3 <= 1,
        b4 <= 1,
        b5 <= 1,
        b6 <= 1,
        b7 <= 1,
        r < 8,
    ensures
        ((((((((((0u8 | (b0 << 7u8)) | (b1 << 6u8)) | (b2 << 5u8)) | (b3 << 4u8)) | (b4 << 3u8)) | (b5
            << 2u8)) | (b6 << 1u8)) | (b7 << 0u8)) >> ((7u8 - r) as u8)) & 1u8) == (if r == 0 {
            b0
        } else if r == 1 {
            b1
        } else if r == 2 {
            b2
        } else if r == 3 {
            b3
        } else if r == 4 {
            b4
        } else if r == 5 {
            b5
        } else if r == 6 {
            b6
        } else {
            b7
        }),
{
}

/// Bit `r` of a packed byte is the bit it packed.
proof fn lemma_pack_byte_bit(bits: Seq<u8>, base: int, r: int)
    requires
        0 <= r < 8,
        forall|i: int| 0 <= i < bits.len() ==> #[trigger] bits[i] <= 1,
    ensures
        (pack_byte(bits, base, 8) >> ((7 - r) as u8)) & 1u8 == bit_at(bits, base + r),
{
    let b0 = bit_at(bits, base);
    let b1 = bit_at(bits, base + 1);
    let b2 = bit_at(bits, base + 2);
    let b3 = bit_at(bits, base + 3);
    let b4 = bit_at(bits, base + 4);
    let b5 = bit_at(bits, base + 5);
    let b6 = bit_at(bits, base + 6);
    let b7 = bit_at(bits, base + 7);
    assert(pack_byte(bits, base, 8) == ((((((((0u8 | (b0 << 7u8)) | (b1 << 6u8)) | (b2 << 5u8)) | (b3 << 4u8))
        | (b4 << 3u8)) | (b5 << 2u8)) | (b6 << 1u8)) | (b7 << 0u8))) by {
        reveal_with_fuel(pack_byte, 9);
    }
    lemma_eight_bits(b0, b1, b2, b3, b4, b5, b6, b7, r as u8);
    assert((7 - r) as u8 == (7u8 - (r as u8)) as u8);
}

/// Unpacking a packed row gives the row back.
proof fn lemma_unpack_pack_row(bits: Seq<u8>)
    requires
        forall|i: int| 0 <= i < bits.len() ==> #[trigger] bits[i] <= 1,
    ensures
        unpack_row(pack_row(bits), bits.len() as int) == bits,
        pack_row(bits).len() == (bits.len() + 7) / 8,
{
    let packed = pack_row(bits);
    assert forall|x: int| 0 <= x < bits.len() implies #[trigger] unpack_row(packed, bits.len() as int)[x]
        == bits[x] by {
        assert(x / 8 < (bits.len() + 7) / 8);
        lemma_pack_byte_bit(bits, 8 * (x / 8), x % 8);
        assert(8 * (x / 8) + x % 8 == x);
    }
    assert(unpack_row(packed, bits.len() as int) =~= bits);
}

/// Packed rows take `(width + 7) / 8` bytes each.
proof fn lemma_pack_rows_len(bits: Seq<u8>, width: int, n: nat)
    requires
        0 < width,
        n * width <= bits.len(),
    ensures
        pack_rows(bits, width, n).len() == n * ((width + 7) / 8),
    decreases n,
{
    let rb = (width + 7) / 8;
    if n > 0 {
        assert((n - 1) * width + width == n * width) by (nonlinear_arith);
        assert(0 <= (n - 1) * width) by (nonlinear_arith) requires n >= 1, width > 0;
        lemma_pack_rows_len(bits, width, (n - 1) as nat);
        let row = bits.subrange((n - 1) * width, n * width);
        assert(row.len() == width);
        assert(pack_row(row).len() == rb);
        assert((n - 1) * rb + rb == n * rb) by (nonlinear_arith);
    } else {
        assert(0 * rb == 0) by (nonlinear_arith);
    }
}

/// The packed rows of the first `n` rows begin the packed rows of all `h`.
proof fn lemma_pack_rows_prefix(bits: Seq<u8>, width: int, n: nat, h: nat)
    requires
        0 < width,
        n <= h,
        bits.len() == width * h,
    ensures
        pack_rows(bits, width, h).subrange(0, n * ((width + 7) / 8)) == pack_rows(bits, width, n),
    decreases h - n,
{
    let rb = (width + 7) / 8;
    assert(h * width == width * h) by (nonlinear_arith);
    assert(n * width <= h * width) by (nonlinear_arith) requires n <= h, width > 0;
    assert(n * rb <= h * rb) by (nonlinear_arith) requires n <= h, rb >= 0;
    lemma_pack_rows_len(bits, width, h);
    lemma_pack_rows_len(bits, width, n);
    if n < h {
        assert((n + 1) * width <= h * width) by (nonlinear_arith) requires n + 1 <= h, width > 0;
        assert((n + 1) * rb <= h * rb) by (nonlinear_arith) requires n + 1 <= h, rb >= 0;
        assert(n * width + width == (n + 1) * width) by (nonlinear_arith);
        assert(0 <= n * width) by (nonlinear_arith) requires width > 0;
        lemma_pack_rows_len(bits, width, n + 1);
        lemma_pack_rows_prefix(bits, width, n + 1, h);
        let a = pack_rows(bits, width, n + 1);
        let pn = pack_rows(bits, width, n);
        assert(a == pn + pack_row(bits.subrange(n * width, (n + 1) * width)));
        assert((n + 1) * rb == n * rb + rb) by (nonlinear_arith);
        let all = pack_rows(bits, width, h);
        assert forall|i: int| 0 <= i < n * rb implies all.subrange(0, n * rb)[i] == pn[i] by {
            assert(all.subrange(0, (n + 1) * rb)[i] == a[i]);
            assert(a[i] == pn[i]);
        }
        assert(all.subrange(0, n * rb) =~= pn);
    } else {
        assert(pack_rows(bits, width, h).subrange(0, n * rb) =~= pack_rows(bits, width, n));
    }
}

/// Unpacking the packed rows of a bitmap gives the bitmap back.
#[verifier::spinoff_prover]
proof fn lemma_unpack_pack_rows(bits: Seq<u8>, width: int, n: nat, h: nat)
    requires
        0 < width,
        n <= h,
        bits.len() == width * h,
        forall|i: int| 0 <= i < bits.len() ==> #[trigger] bits[i] <= 1,
    ensures
        unpack_rows(pack_rows(bits, width, h), width, (width + 7) / 8, n) == bits.take(n * width),
    decreases n,
{
    let rb = (width + 7) / 8;
    let all = pack_rows(bits, width, h);
    assert(h * width == width * h) by (nonlinear_arith);
    lemma_pack_rows_len(bits, width, h);
    if n == 0 {
        assert(bits.take(0) =~= Seq::<u8>::empty());
    } else {
        lemma_unpack_pack_rows(bits, width, (n - 1) as nat, h);
        lemma_pack_rows_prefix(bits, width, n, h);
        assert(n * width <= h * width) by (nonlinear_arith) requires n <= h, width > 0;
        assert((n - 1) * width + width == n * width) by (nonlinear_arith);
        assert(0 <= (n - 1) * width) by (nonlinear_arith) requires n >= 1, width > 0;
        lemma_pack_rows_len(bits, width, (n - 1) as nat);
        lemma_pack_rows_len(bits, width, n);
        assert(n * rb <= h * rb) by (nonlinear_arith) requires n <= h, rb >= 0;
        assert((n - 1) * rb + rb == n * rb) by (nonlinear_arith);
        assert(0 <= (n - 1) * rb) by (nonlinear_arith) requires n >= 1, rb >= 0;
        let row = bits.subrange((n - 1) * width, n * width);
        assert forall|i: int| 0 <= i < row.len() implies #[trigger] row[i] <= 1 by {
            assert(row[i] == bits[(n - 1) * width + i]);
        }
        lemma_unpack_pack_row(row);
        let pn = pack_rows(bits, width, n);
        assert(pn == pack_rows(bits, width, (n - 1) as nat) + pack_row(row));
        assert(all.subrange((n - 1) * rb, n * rb) =~= pack_row(row)) by {
            assert forall|i: int| 0 <= i < rb implies all.subrange((n - 1) * rb, n * rb)[i] == pack_row(row)[i] by {
                assert(all.subrange(0, n * rb)[(n - 1) * rb + i] == pn[(n - 1) * rb + i]);
            }
        }
        assert(unpack_row(pack_row(row), width) == row);
        assert(unpack_rows(all, width, rb, n) == unpack_rows(all, width, rb, (n - 1) as nat) + unpack_row(
            all.subrange((n - 1) * rb, n * rb),
            width,
        ));
        assert(bits.take(n * width) =~= bits.take((n - 1) * width) + row);
    }
}

/// The header and packed raster of a binary PBM image, as written.
pub open spec fn written_bitmap(width: u32, height: u32, data: Seq<u8>) -> Seq<u8> {
    bitmap_header_bytes(binary_magic(NetpbmKind::Pbm), width, height) + pack_rows(data, width as int, height as nat)
}

/// The header of a written PBM image is read back.
#[verifier::spinoff_prover]
proof fn lemma_scan_written_bitmap_header(d: Seq<u8>, p: int, magic: Seq<u8>, width: u32, height: u32)
    requires
        0 <= p,
        plain_magic(magic),
        width > 0,
        height > 0,
        p + bitmap_header_bytes(magic, width, height).len() <= d.len(),
        d.subrange(p, p + bitmap_header_bytes(magic, width, height).len()) == bitmap_header_bytes(
            magic,
            width,
            height,
        ),
    ensures
        scan_bitmap_header(d, p, magic) == (
            Ok::<Dimensions, ImageError>(Dimensions { width, height }),
            p + bitmap_header_bytes(magic, width, height).len() - 1,
        ),
{
    let hb = bitmap_header_bytes(magic, width, height);
    let dw = decimal(width as nat);
    let dh = decimal(height as nat);
    lemma_token_u32_decimal(width, "width");
    lemma_token_u32_decimal(height, "height");
    assert forall|j: int| p <= j < p + hb.len() implies #[trigger] d[j] == hb[j - p] by {
        assert(d.subrange(p, p + hb.len())[j - p] == hb[j - p]);
    }
    let a = p + 3;
    let b = a + dw.len() + 1;
    assert(hb.len() == 3 + dw.len() + 1 + dh.len() + 1);
    assert(d[p] == 0x50);
    assert(skip_blank(d, p) == p);
    assert(d[p + 2] == 0x0a);
    assert(!is_blank(d[p + 1]));
    lemma_token_end_at(d, p, 2, 0);
    assert(d.subrange(p, p + 2) =~= magic);
    assert(d.subrange(a, a + dw.len()) =~= dw);
    assert(d[a + dw.len()] == 0x20);
    lemma_scan_written_number(d, p + 2, width, "width");
    assert(d.subrange(b, b + dh.len()) =~= dh);
    assert(d[b + dh.len()] == 0x0a);
    lemma_scan_written_number(d, a + dw.len(), height, "height");
}

/// A written binary PBM image, found at `p`, is decoded as that image and read
/// to its end.
#[verifier::spinoff_prover]
pub proof fn lemma_decode_written_bitmap(d: Seq<u8>, p: int, width: u32, height: u32, data: Seq<u8>)
    requires
        0 <= p,
        width + 7 <= usize::MAX,
        native_pbm_check(width, height, data) is None,
        p + written_bitmap(width, height, data).len() <= d.len(),
        d.len() <= usize::MAX,
        d.subrange(p, p + written_bitmap(width, height, data).len()) == written_bitmap(width, height, data),
    ensures
        decode_one_spec(NetpbmKind::Pbm, d, p) == (
            Ok::<NetpbmModel, ImageError>(NetpbmModel::Pbm { width, height, data }),
            p + written_bitmap(width, height, data).len(),
        ),
{
    let hb = bitmap_header_bytes(binary_magic(NetpbmKind::Pbm), width, height);
    let w = width as int;
    let h = height as int;
    let rb = (w + 7) / 8;
    assert(data.len() == w * h);
    assert(h * w == w * h) by (nonlinear_arith);
    assert forall|i: int| 0 <= i < data.len() implies #[trigger] data[i] <= 1 by {}
    let raster = pack_rows(data, w, height as nat);
    lemma_pack_rows_len(data, w, height as nat);
    assert(raster.len() == h * rb);
    assert(rb >= 1);
    assert(raster.len() > 0) by (nonlinear_arith) requires raster.len() == h * rb, h > 0, rb >= 1;
    lemma_split_written(d, p, hb, raster);
    lemma_scan_written_bitmap_header(d, p, binary_magic(NetpbmKind::Pbm), width, height);
    let q = p + hb.len() - 1;
    assert(d[q] == hb[hb.len() - 1]);
    assert(rb * h == h * rb) by (nonlinear_arith);
    lemma_unpack_pack_rows(data, w, height as nat, height as nat);
    assert(h * w == w * h) by (nonlinear_arith);
    assert(data.take(h * w) =~= data);
    assert(d.subrange(q + 1, q + 1 + h * rb) == raster);
    assert(rb <= w);
    assert(rb * h <= w * h) by (nonlinear_arith) requires rb <= w, h >= 0;
    assert(pbm_raster_range(d, q + 1, Dimensions { width, height }) == Ok::<(int, int), ImageError>(
        (q + 1, q + 1 + rb * h),
    ));
}


/// Whether a native image's rows are short enough for the decoder's
/// arithmetic: for PBM the width plus seven fits a `usize`, for PGM and PPM a
/// row's bytes fit a `u32`.
pub open spec fn rows_fit(m: NetpbmModel) -> bool {
    match m {
        NetpbmModel::Pbm { width, .. } => width + 7 <= usize::MAX,
        NetpbmModel::Pgm { width, maxval, .. } => width * kind_format(NetpbmKind::Pgm, maxval).spec_bytes_per_pixel()
            <= u32::MAX,
        NetpbmModel::Ppm { width, maxval, .. } => width * kind_format(NetpbmKind::Ppm, maxval).spec_bytes_per_pixel()
            <= u32::MAX,
    }
}

/// A binary file written for a native image, found at `p`, is decoded as that
/// image and read to its end.
pub proof fn lemma_decode_written(kind: NetpbmKind, d: Seq<u8>, p: int, m: NetpbmModel)
    requires
        0 <= p,
        encode_native_spec(kind, false, m) is Ok,
        rows_fit(m),
        p + encode_native_spec(kind, false, m)->Ok_0.len() <= d.len(),
        d.len() <= usize::MAX,
        d.subrange(p, p + encode_native_spec(kind, false, m)->Ok_0.len()) == encode_native_spec(
            kind,
            false,
            m,
        )->Ok_0,
    ensures
        decode_one_spec(kind, d, p) == (
            Ok::<NetpbmModel, ImageError>(m),
            p + encode_native_spec(kind, false, m)->Ok_0.len(),
        ),
{
    match m {
        NetpbmModel::Pbm { width, height, data } => {
            lemma_decode_written_bitmap(d, p, width, height, data);
        },
        NetpbmModel::Pgm { width, height, maxval, data } => {
            lemma_decode_written_samples(d, p, kind, width, height, maxval, data);
        },
        NetpbmModel::Ppm { width, height, maxval, data } => {
            lemma_decode_written_samples(d, p, kind, width, height, maxval, data);
        },
    }
}

/// Decoding what `encode_native` writes in binary gives the native image
/// back, for every image it writes whose rows fit the decoder's arithmetic,
/// when the file fits the address space.
pub proof fn lemma_netpbm_roundtrip(kind: NetpbmKind, m: NetpbmModel)
    requires
        encode_native_spec(kind, false, m) is Ok,
        rows_fit(m),
        encode_native_spec(kind, false, m)->Ok_0.len() <= usize::MAX,
    ensures
        decode_one_spec(kind, encode_native_spec(kind, false, m)->Ok_0, 0).0 == Ok::<NetpbmModel, ImageError>(m),
{
    let f = encode_native_spec(kind, false, m)->Ok_0;
    assert(f.subrange(0, f.len() as int) =~= f);
    lemma_decode_written(kind, f, 0, m);
}

/// The files of `n` images are the files of `n - 1` of them and one more.
proof fn lemma_encode_all_step(kind: NetpbmKind, ms: Seq<NetpbmModel>, n: int)
    requires
        0 < n <= ms.len(),
        encode_all_spec(kind, ms.take(n)) is Ok,
    ensures
        encode_all_spec(kind, ms.take(n - 1)) is Ok,
        encode_native_spec(kind, false, ms[n - 1]) is Ok,
        encode_all_spec(kind, ms.take(n))->Ok_0 == encode_all_spec(kind, ms.take(n - 1))->Ok_0
            + encode_native_spec(kind, false, ms[n - 1])->Ok_0,
{
    assert(ms.take(n).drop_last() =~= ms.take(n - 1));
}

/// The files of the first `j` images begin the files of the first `n`.
proof fn lemma_encode_all_prefix(kind: NetpbmKind, ms: Seq<NetpbmModel>, j: int, n: int)
    requires
        0 <= j <= n <= ms.len(),
        encode_all_spec(kind, ms.take(n)) is Ok,
    ensures
        encode_all_spec(kind, ms.take(j)) is Ok,
        encode_all_spec(kind, ms.take(j))->Ok_0.len() <= encode_all_spec(kind, ms.take(n))->Ok_0.len(),
        encode_all_spec(kind, ms.take(n))->Ok_0.subrange(0, encode_all_spec(kind, ms.take(j))->Ok_0.len() as int)
            == encode_all_spec(kind, ms.take(j))->Ok_0,
    decreases n - j,
{
    if j < n {
        lemma_encode_all_step(kind, ms, n);
        lemma_encode_all_prefix(kind, ms, j, n - 1);
        let a = encode_all_spec(kind, ms.take(n - 1))->Ok_0;
        let b = encode_all_spec(kind, ms.take(j))->Ok_0;
        assert(encode_all_spec(kind, ms.take(n))->Ok_0.subrange(0, b.len() as int) =~= a.subrange(0, b.len() as int));
    } else {
        let b = encode_all_spec(kind, ms.take(j))->Ok_0;
        assert(b.subrange(0, b.len() as int) =~= b);
    }
}

/// A written binary file starts with its magic number.
proof fn lemma_written_starts(kind: NetpbmKind, m: NetpbmModel)
    requires
        encode_native_spec(kind, false, m) is Ok,
    ensures
        encode_native_spec(kind, false, m)->Ok_0.len() > 0,
        encode_native_spec(kind, false, m)->Ok_0[0] == 0x50,
{
}

/// The stream of written files, read from the end of the first `k`, gives
/// the rest of the images.
#[verifier::spinoff_prover]
#[verifier::rlimit(40)]
proof fn lemma_stream_from(kind: NetpbmKind, ms: Seq<NetpbmModel>, k: int)
    requires
        0 <= k <= ms.len(),
        encode_all_spec(kind, ms) is Ok,
        forall|i: int| 0 <= i < ms.len() ==> rows_fit(#[trigger] ms[i]),
        encode_all_spec(kind, ms)->Ok_0.len() <= usize::MAX,
    ensures
        encode_all_spec(kind, ms.take(k)) is Ok,
        decode_stream(kind, encode_all_spec(kind, ms)->Ok_0, encode_all_spec(kind, ms.take(k))->Ok_0.len() as int)
            == Ok::<Seq<NetpbmModel>, ImageError>(ms.skip(k)),
    decreases ms.len() - k,
{
    assert(ms.take(ms.len() as int) =~= ms);
    let d = encode_all_spec(kind, ms)->Ok_0;
    lemma_encode_all_prefix(kind, ms, k, ms.len() as int);
    let p = encode_all_spec(kind, ms.take(k))->Ok_0.len() as int;
    if k == ms.len() {
        assert(skip_blank(d, p) == p);
        assert(ms.skip(k) =~= Seq::<NetpbmModel>::empty());
    } else {
        lemma_encode_all_prefix(kind, ms, k + 1, ms.len() as int);
        lemma_encode_all_step(kind, ms, k + 1);
        let f = encode_native_spec(kind, false, ms[k])->Ok_0;
        let next = encode_all_spec(kind, ms.take(k + 1))->Ok_0;
        lemma_written_starts(kind, ms[k]);
        assert(d.subrange(p, p + f.len()) =~= f) by {
            assert forall|i: int| 0 <= i < f.len() implies d.subrange(p, p + f.len())[i] == f[i] by {
                assert(d.subrange(0, next.len() as int)[p + i] == next[p + i]);
            }
        }
        assert(d[p] == f[0]);
        assert(skip_blank(d, p) == p);
        lemma_decode_written(kind, d, p, ms[k]);
        lemma_stream_from(kind, ms, k + 1);
        assert(seq![ms[k]] + ms.skip(k + 1) =~= ms.skip(k));
    }
}

/// Decoding the binary multi-image stream that `encode_all_native` writes
/// gives the images back, for every sequence it writes whose rows fit the
/// decoder's arithmetic, when the stream fits the address space.
pub proof fn lemma_netpbm_stream_roundtrip(kind: NetpbmKind, ms: Seq<NetpbmModel>)
    requires
        encode_all_spec(kind, ms) is Ok,
        forall|i: int| 0 <= i < ms.len() ==> rows_fit(#[trigger] ms[i]),
        encode_all_spec(kind, ms)->Ok_0.len() <= usize::MAX,
    ensures
        decode_stream(kind, encode_all_spec(kind, ms)->Ok_0, 0) == Ok::<Seq<NetpbmModel>, ImageError>(ms),
{
    assert(ms.take(0) =~= Seq::<NetpbmModel>::empty());
    lemma_stream_from(kind, ms, 0);
    assert(ms.skip(0) =~= ms);
}


/// Gray samples below 128 turned black (0) and the rest white (255).
pub open spec fn thresholded(px: Seq<u8>) -> Seq<u8> {
    Seq::new(
        px.len(),
        |i: int|
            if px[i] < 128 {
                0u8
            } else {
                255u8
            },
    )
}

/// A view that `view_check` accepts holds `height` packed rows whose bytes fit
/// the address space, so a packed image of its pixels can be made.
pub proof fn lemma_checked_view(v: ImageView<'_>)
    requires
        view_check(v, v.pixel_format) is None,
    ensures
        v.pixels().len() == packed_len(v.width, v.height, v.pixel_format),
        v.pixels().len() == v.width * v.height * v.pixel_format.spec_bytes_per_pixel(),
        image_new_error(v.width, v.height, v.pixel_format, v.pixels().len() as int) is None,
        v.width > 0,
        v.height > 0,
{
    let r = row_len(v.width, v.pixel_format);
    let bpp = v.pixel_format.spec_bytes_per_pixel();
    lemma_pixels_len(v);
    assert(v.height * r == v.width * v.height * bpp) by (nonlinear_arith)
        requires
            r == v.width * bpp,
    ;
    assert(v.height * r <= strided_len(v.width, v.height, v.pixel_format, v.stride as int)) by (nonlinear_arith)
        requires
            v.stride >= r,
            r >= 0,
            v.height > 0,
            strided_len(v.width, v.height, v.pixel_format, v.stride as int) == (v.height - 1) * v.stride + r,
    ;
}

/// Scaling full-range 16-bit samples leaves them as they are.
pub proof fn lemma_normalized_full_range(px: Seq<u8>)
    requires
        px.len() % 2 == 0,
    ensures
        normalized_bytes(px, 65535) == px,
{
    let out = normalized_bytes(px, 65535);
    assert forall|i: int| 0 <= i < px.len() implies #[trigger] out[i] == px[i] by {
        let k = i / 2;
        let s = le16(px, k);
        assert(2 * k == i || 2 * k + 1 == i);
        assert(s == px[2 * k] + px[2 * k + 1] * 256);
        assert((s * 65535 + 32767) / 65535 == s) by (nonlinear_arith)
            requires
                0 <= s <= 65535,
        ;
        assert(norm16(s, 65535) == s);
    }
    assert(out =~= px);
}

/// A view converted for writing as a native image of its family: samples
/// with the maximum of its pixel format, or bits thresholded at 128.
pub open spec fn view_native(kind: NetpbmKind, v: ImageView<'_>) -> NetpbmModel {
    match kind {
        NetpbmKind::Pbm => NetpbmModel::Pbm { width: v.width, height: v.height, data: threshold_bits(v.pixels()) },
        _ => kind_model(
            kind,
            v.width,
            v.height,
            if v.pixel_format == PixelFormat::Gray8 || v.pixel_format == PixelFormat::Rgb8 {
                255
            } else {
                65535
            },
            v.pixels(),
        ),
    }
}

/// Writing a view is writing its native image.
proof fn lemma_view_written_as_native(kind: NetpbmKind, ascii: bool, v: ImageView<'_>)
    requires
        encode_view_spec(kind, ascii, v) is Ok,
    ensures
        encode_native_spec(kind, ascii, view_native(kind, v)) == encode_view_spec(kind, ascii, v),
        view_check(v, v.pixel_format) is None,
{
    lemma_checked_view(v);
    let px = v.pixels();
    match kind {
        NetpbmKind::Pbm => {
            assert(px.len() == v.width * v.height);
        },
        _ => {
            let bpp = v.pixel_format.spec_bytes_per_pixel();
            let m = if v.pixel_format == PixelFormat::Gray8 || v.pixel_format == PixelFormat::Rgb8 {
                255u16
            } else {
                65535u16
            };
            assert(px.len() == v.width * v.height * kind_channels(kind) * sample_size(m)) by (nonlinear_arith)
                requires
                    px.len() == v.width * v.height * bpp,
                    bpp == kind_channels(kind) * sample_size(m),
            ;
            if m >= 256 {
                assert(px.len() == (v.width * v.height * kind_channels(kind)) * 2);
                vstd::arithmetic::div_mod::lemma_mod_multiples_basic(v.width * v.height * kind_channels(kind), 2);
            }
        },
    }
}

/// Encoding a view as a binary PGM or PPM file and decoding it gives the
/// view's pixels back in its own pixel format; for PBM it gives them back
/// thresholded at 128. This holds for every view that is written, when its
/// rows fit the decoder's arithmetic and the file fits the address space.
pub proof fn lemma_netpbm_image_roundtrip(kind: NetpbmKind, v: ImageView<'_>)
    requires
        encode_view_spec(kind, false, v) is Ok,
        rows_fit(view_native(kind, v)),
        encode_view_spec(kind, false, v)->Ok_0.len() <= usize::MAX,
    ensures
        to_image_spec(decode_one_spec(kind, encode_view_spec(kind, false, v)->Ok_0, 0).0) == Ok::<
            ImageModel,
            ImageError,
        >(
            ImageModel {
                width: v.width,
                height: v.height,
                pixel_format: v.pixel_format,
                data: if kind == NetpbmKind::Pbm {
                    thresholded(v.pixels())
                } else {
                    v.pixels()
                },
            },
        ),
{
    lemma_view_written_as_native(kind, false, v);
    lemma_checked_view(v);
    let m = view_native(kind, v);
    lemma_netpbm_roundtrip(kind, m);
    let px = v.pixels();
    match kind {
        NetpbmKind::Pbm => {
            assert(pbm_gray(threshold_bits(px)) =~= thresholded(px));
        },
        _ => {
            if !(v.pixel_format == PixelFormat::Gray8 || v.pixel_format == PixelFormat::Rgb8) {
                let c = kind_channels(kind);
                assert(px.len() == (v.width * v.height * c) * 2) by (nonlinear_arith)
                    requires
                        px.len() == v.width * v.height * v.pixel_format.spec_bytes_per_pixel(),
                        v.pixel_format.spec_bytes_per_pixel() == c * 2,
                ;
                vstd::arithmetic::div_mod::lemma_mod_multiples_basic(v.width * v.height * c, 2);
                lemma_normalized_full_range(px);
            }
        },
    }
}


// ---------------------------------------------------------------------------
// ASCII round trips.
// ---------------------------------------------------------------------------

/// The bytes that a value read as an ASCII sample is stored as: one byte for
/// bits and narrow samples, two little-endian bytes for wide ones.
pub open spec fn value_bytes(v: u32, kind: SampleKind) -> Seq<u8> {
    match kind {
        SampleKind::Wide(_) => le_bytes(v as u16),
        _ => seq![v as u8],
    }
}

/// The stored bytes of a run of values.
pub open spec fn values_bytes(vals: Seq<u32>, kind: SampleKind) -> Seq<u8>
    decreases vals.len(),
{
    if vals.len() == 0 {
        Seq::empty()
    } else {
        values_bytes(vals.drop_last(), kind) + value_bytes(vals.last(), kind)
    }
}

/// Whether a sample kind accepts a value.
pub open spec fn value_fits(v: u32, kind: SampleKind) -> bool {
    match kind {
        SampleKind::Bit => v <= 1,
        SampleKind::Narrow(max) => v <= max && v <= 255,
        SampleKind::Wide(max) => v <= max && v <= 65535,
    }
}

/// A written value after a blank at `p` is read as a sample of its kind.
proof fn lemma_scan_value(d: Seq<u8>, p: int, v: u32, kind: SampleKind)
    requires
        0 <= p,
        p + 1 + decimal(v as nat).len() < d.len(),
        is_blank(d[p]),
        d.subrange(p + 1, p + 1 + decimal(v as nat).len()) == decimal(v as nat),
        is_blank(d[p + 1 + decimal(v as nat).len()]),
        value_fits(v, kind),
    ensures
        scan_sample(d, p, kind) == (
            Ok::<Seq<u8>, ImageError>(value_bytes(v, kind)),
            p + 1 + decimal(v as nat).len(),
        ),
{
    match kind {
        SampleKind::Bit => {
            lemma_scan_written_number(d, p, v, "bitmap sample");
        },
        _ => {
            lemma_scan_written_number(d, p, v, "sample");
        },
    }
}

/// A line of numbers grows by a space and one more number.
proof fn lemma_text_line_step(vals: Seq<u32>, k: int)
    requires
        1 <= k < vals.len(),
    ensures
        text_line(vals.take(k + 1)) == text_line(vals.take(k)) + seq![0x20u8] + decimal(vals[k] as nat),
{
    assert(vals.take(k + 1).drop_last() =~= vals.take(k));
}

/// A line's first number.
proof fn lemma_text_line_first(vals: Seq<u32>)
    requires
        vals.len() >= 1,
    ensures
        text_line(vals.take(1)) == decimal(vals[0] as nat),
{
}

/// The lines of `r + 1` rows are the lines of `r` rows and one more line.
proof fn lemma_text_rows_step(vals: Seq<u32>, per_line: int, r: int)
    requires
        0 <= r,
        per_line >= 1,
    ensures
        text_rows(vals, per_line, (r + 1) as nat) == text_rows(vals, per_line, r as nat) + text_line(
            vals.subrange(r * per_line, r * per_line + per_line),
        ) + seq![0x0au8],
{
    assert((r + 1 - 1) * per_line == r * per_line);
    assert((r + 1) * per_line == r * per_line + per_line) by (nonlinear_arith);
}

/// The lines of the first `r` rows begin the lines of the first `n`.
proof fn lemma_text_rows_prefix(vals: Seq<u32>, per_line: int, r: nat, n: nat)
    requires
        r <= n,
        per_line >= 1,
    ensures
        text_rows(vals, per_line, r).len() <= text_rows(vals, per_line, n).len(),
        text_rows(vals, per_line, n).subrange(0, text_rows(vals, per_line, r).len() as int) == text_rows(
            vals,
            per_line,
            r,
        ),
    decreases n - r,
{
    if r < n {
        lemma_text_rows_prefix(vals, per_line, r, (n - 1) as nat);
        let a = text_rows(vals, per_line, (n - 1) as nat);
        let b = text_rows(vals, per_line, r);
        assert(text_rows(vals, per_line, n).subrange(0, b.len() as int) =~= a.subrange(0, b.len() as int));
    } else {
        let b = text_rows(vals, per_line, r);
        assert(b.subrange(0, b.len() as int) =~= b);
    }
}

/// A line's first numbers begin the line.
proof fn lemma_text_line_prefix(vals: Seq<u32>, k: int)
    requires
        1 <= k <= vals.len(),
    ensures
        text_line(vals.take(k)).len() <= text_line(vals).len(),
        text_line(vals).subrange(0, text_line(vals.take(k)).len() as int) == text_line(vals.take(k)),
    decreases vals.len() - k,
{
    if k < vals.len() {
        lemma_text_line_prefix(vals, k + 1);
        lemma_text_line_step(vals, k);
        let a = text_line(vals.take(k + 1));
        let b = text_line(vals.take(k));
        assert(text_line(vals).subrange(0, b.len() as int) =~= a.subrange(0, b.len() as int));
    } else {
        assert(vals.take(k) =~= vals);
        let b = text_line(vals);
        assert(b.subrange(0, b.len() as int) =~= b);
    }
}

/// The stored bytes of a run of values grow by the bytes of the next one.
proof fn lemma_values_bytes_step(vals: Seq<u32>, k: int, kind: SampleKind)
    requires
        0 <= k < vals.len(),
    ensures
        values_bytes(vals.take(k + 1), kind) == values_bytes(vals.take(k), kind) + value_bytes(vals[k], kind),
{
    assert(vals.take(k + 1).drop_last() =~= vals.take(k));
}

/// Numbers are not blank and hold no blank.
proof fn lemma_decimal_not_blank(v: u32)
    ensures
        decimal(v as nat).len() > 0,
        forall|i: int| 0 <= i < decimal(v as nat).len() ==> !is_blank(#[trigger] decimal(v as nat)[i]),
{
    lemma_token_u32_decimal(v, "sample");
    assert forall|i: int| 0 <= i < decimal(v as nat).len() implies !is_blank(#[trigger] decimal(v as nat)[i]) by {
        assert(is_digit(decimal(v as nat)[i]));
    }
}

/// Reading the numbers of line `r`: after `j` of them the scan stands on the
/// blank after the `j`-th.
#[verifier::spinoff_prover]
#[verifier::rlimit(40)]
proof fn lemma_scan_line(
    d: Seq<u8>,
    q: int,
    vals: Seq<u32>,
    per_line: int,
    rows: nat,
    r: int,
    j: int,
    kind: SampleKind,
)
    requires
        0 <= q,
        per_line >= 1,
        vals.len() == per_line * rows,
        0 <= r < rows,
        0 <= j <= per_line,
        forall|i: int| 0 <= i < vals.len() ==> value_fits(#[trigger] vals[i], kind),
        is_blank(d[q]),
        q + 1 + text_rows(vals, per_line, rows).len() <= d.len(),
        forall|i: int|
            q + 1 <= i < q + 1 + text_rows(vals, per_line, rows).len() ==> #[trigger] d[i] == text_rows(
                vals,
                per_line,
                rows,
            )[i - q - 1],
        scan_samples(d, q, (r * per_line) as nat, kind) == (
            Ok::<Seq<u8>, ImageError>(values_bytes(vals.take(r * per_line), kind)),
            q + text_rows(vals, per_line, r as nat).len(),
        ),
    ensures
        scan_samples(d, q, (r * per_line + j) as nat, kind) == (
            Ok::<Seq<u8>, ImageError>(values_bytes(vals.take(r * per_line + j), kind)),
            q + text_rows(vals, per_line, r as nat).len() + if j == 0 {
                0
            } else {
                1 + text_line(vals.subrange(r * per_line, r * per_line + per_line).take(j)).len()
            },
        ),
    decreases j,
{
    if j > 0 {
        lemma_scan_line(d, q, vals, per_line, rows, r, j - 1, kind);
        let t_all = text_rows(vals, per_line, rows);
        let t_r = text_rows(vals, per_line, r as nat);
        let line = vals.subrange(r * per_line, r * per_line + per_line);
        assert((r + 1) * per_line <= per_line * rows) by (nonlinear_arith)
            requires
                r + 1 <= rows,
                per_line >= 1,
        ;
        assert(r * per_line + per_line == (r + 1) * per_line) by (nonlinear_arith);
        assert(0 <= r * per_line) by (nonlinear_arith) requires r >= 0, per_line >= 1;
        let lt = text_line(line);
        lemma_text_rows_step(vals, per_line, r);
        lemma_text_rows_prefix(vals, per_line, (r + 1) as nat, rows);
        let t_next = text_rows(vals, per_line, (r + 1) as nat);
        assert(t_next == t_r + lt + seq![0x0au8]);
        // the text of line r stands at q + 1 + |t_r|
        let base = q + 1 + t_r.len();
        assert forall|a: int| base <= a < base + lt.len() + 1 implies #[trigger] d[a] == (lt + seq![0x0au8])[a
            - base] by {
            assert(t_all.subrange(0, t_next.len() as int)[a - q - 1] == t_next[a - q - 1]);
            assert(d[a] == t_all[a - q - 1]);
        }
        let k = j - 1;
        let v = line[k];
        let dv = decimal(v as nat);
        lemma_decimal_not_blank(v);
        assert(v == vals[r * per_line + k]);
        let before = if k == 0 {
            0
        } else {
            1 + text_line(line.take(k)).len()
        };
        let p = q + t_r.len() + before;
        let now = text_line(line.take(j));
        if k == 0 {
            lemma_text_line_first(line);
            assert(now == dv);
        } else {
            lemma_text_line_step(line, k);
            assert(now == text_line(line.take(k)) + seq![0x20u8] + dv);
        }
        lemma_text_line_prefix(line, j);
        assert(lt.subrange(0, now.len() as int) == now);
        // the blank before the value
        if k == 0 {
            if r == 0 {
                assert(t_r.len() == 0);
            } else {
                lemma_text_rows_step(vals, per_line, r - 1);
                lemma_text_rows_prefix(vals, per_line, r as nat, rows);
                assert(t_all.subrange(0, t_r.len() as int)[t_r.len() - 1] == t_r[t_r.len() - 1]);
                assert(d[q + t_r.len()] == t_all[t_r.len() - 1]);
            }
            assert(is_blank(d[p]));
        } else {
            assert(lt[text_line(line.take(k)).len() as int] == now[text_line(line.take(k)).len() as int]);
            assert(d[p] == d[base + text_line(line.take(k)).len()]);
            assert(is_blank(d[p]));
        }
        // the digits of the value
        assert(p + 1 == base + now.len() - dv.len());
        assert forall|i: int| 0 <= i < dv.len() implies d.subrange(p + 1, p + 1 + dv.len())[i] == dv[i] by {
            let a = p + 1 + i;
            assert(d[a] == (lt + seq![0x0au8])[a - base]);
            assert(lt[now.len() - dv.len() + i] == now[now.len() - dv.len() + i]);
            assert(now[now.len() - dv.len() + i] == dv[i]);
        }
        assert(d.subrange(p + 1, p + 1 + dv.len()) =~= dv);
        // the blank after the value
        let after = p + 1 + dv.len();
        assert(after == base + now.len());
        if j < per_line {
            lemma_text_line_step(line, j);
            lemma_text_line_prefix(line, j + 1);
            let next = text_line(line.take(j + 1));
            assert(lt[now.len() as int] == next[now.len() as int]);
            assert(d[after] == lt[now.len() as int]);
        } else {
            assert(line.take(j) =~= line);
            assert(d[after] == (lt + seq![0x0au8])[lt.len() as int]);
        }
        assert(is_blank(d[after]));
        assert(r * per_line + k < vals.len());
        assert(value_fits(vals[r * per_line + k], kind));
        lemma_scan_value(d, p, v, kind);
        lemma_values_bytes_step(vals, r * per_line + k, kind);
        assert((r * per_line + j) as nat - 1 == (r * per_line + k) as nat);
    }
}

/// Reading the numbers of the first `r` lines.
proof fn lemma_scan_rows(d: Seq<u8>, q: int, vals: Seq<u32>, per_line: int, rows: nat, r: int, kind: SampleKind)
    requires
        0 <= q,
        per_line >= 1,
        vals.len() == per_line * rows,
        0 <= r <= rows,
        forall|i: int| 0 <= i < vals.len() ==> value_fits(#[trigger] vals[i], kind),
        is_blank(d[q]),
        q + 1 + text_rows(vals, per_line, rows).len() <= d.len(),
        forall|i: int|
            q + 1 <= i < q + 1 + text_rows(vals, per_line, rows).len() ==> #[trigger] d[i] == text_rows(
                vals,
                per_line,
                rows,
            )[i - q - 1],
    ensures
        scan_samples(d, q, (r * per_line) as nat, kind) == (
            Ok::<Seq<u8>, ImageError>(values_bytes(vals.take(r * per_line), kind)),
            q + text_rows(vals, per_line, r as nat).len(),
        ),
    decreases r,
{
    if r == 0 {
        assert(r * per_line == 0) by (nonlinear_arith) requires r == 0;
        assert(vals.take(0) =~= Seq::<u32>::empty());
    } else {
        lemma_scan_rows(d, q, vals, per_line, rows, r - 1, kind);
        lemma_scan_line(d, q, vals, per_line, rows, r - 1, per_line, kind);
        assert((r - 1) * per_line + per_line == r * per_line) by (nonlinear_arith);
        assert(r * per_line <= per_line * rows) by (nonlinear_arith) requires r <= rows, per_line >= 1;
        assert(0 <= (r - 1) * per_line) by (nonlinear_arith) requires r >= 1, per_line >= 1;
        lemma_text_rows_step(vals, per_line, r - 1);
        let line = vals.subrange((r - 1) * per_line, (r - 1) * per_line + per_line);
        assert(line.len() == per_line);
        assert(line.take(per_line) =~= line);
        assert(text_rows(vals, per_line, r as nat).len() == text_rows(vals, per_line, (r - 1) as nat).len()
            + text_line(line).len() + 1);
    }
}


/// Bytes read back as one-byte values are stored as themselves.
proof fn lemma_values_bytes_narrow(data: Seq<u8>, kind: SampleKind)
    requires
        !(kind is Wide),
    ensures
        values_bytes(u8_values(data), kind) == data,
    decreases data.len(),
{
    if data.len() > 0 {
        lemma_values_bytes_narrow(data.drop_last(), kind);
        assert(u8_values(data).drop_last() =~= u8_values(data.drop_last()));
        assert(value_bytes(u8_values(data).last(), kind) =~= seq![data.last()]);
        assert(data.drop_last() + seq![data.last()] =~= data);
    } else {
        assert(u8_values(data) =~= Seq::<u32>::empty());
    }
}

/// Little-endian pairs read back as two-byte values are stored as themselves.
proof fn lemma_values_bytes_wide(data: Seq<u8>, max: u32)
    requires
        data.len() % 2 == 0,
    ensures
        values_bytes(u16_values(data), SampleKind::Wide(max)) == data,
    decreases data.len(),
{
    if data.len() > 0 {
        let front = data.subrange(0, data.len() - 2);
        lemma_values_bytes_wide(front, max);
        assert(u16_values(data).drop_last() =~= u16_values(front)) by {
            assert forall|k: int| 0 <= k < front.len() / 2 implies u16_values(data).drop_last()[k] == u16_values(
                front,
            )[k] by {
                assert(le16(data, k) == le16(front, k));
            }
        }
        let k = data.len() / 2 - 1;
        let v = le16(data, k);
        assert(le_bytes(v) =~= seq![data[2 * k], data[2 * k + 1]]);
        assert(front + le_bytes(v) =~= data);
    } else {
        assert(u16_values(data) =~= Seq::<u32>::empty());
    }
}

/// The samples of a written ASCII file, read after its header, are the
/// stored bytes of its values, and nothing follows them.
proof fn lemma_scan_written_text(
    d: Seq<u8>,
    header: Seq<u8>,
    vals: Seq<u32>,
    per_line: int,
    rows: nat,
    kind: SampleKind,
)
    requires
        header.len() > 0,
        header.last() == 0x0a,
        per_line >= 1,
        rows >= 1,
        vals.len() == per_line * rows,
        forall|i: int| 0 <= i < vals.len() ==> value_fits(#[trigger] vals[i], kind),
        d == header + text_rows(vals, per_line, rows),
    ensures
        scan_ascii_raster(d, header.len() - 1, (rows * per_line) as nat, kind) == Ok::<Seq<u8>, ImageError>(
            values_bytes(vals, kind),
        ),
{
    let q = header.len() - 1;
    let t = text_rows(vals, per_line, rows);
    assert forall|i: int| q + 1 <= i < q + 1 + t.len() implies #[trigger] d[i] == t[i - q - 1] by {}
    assert(d[q] == 0x0a);
    lemma_scan_rows(d, q, vals, per_line, rows, rows as int, kind);
    assert(rows * per_line == per_line * rows) by (nonlinear_arith);
    assert(vals.take(rows * per_line) =~= vals);
    lemma_text_rows_step(vals, per_line, rows - 1);
    let end = q + t.len();
    assert(end == d.len() - 1);
    assert(d[end] == 0x0a);
    assert(skip_from(d, end + 1, false) == end + 1);
    assert(skip_blank(d, end) == d.len());
}

/// Decoding what `encode_ascii_native` writes gives the native image back,
/// for every image it writes.
#[verifier::spinoff_prover]
pub proof fn lemma_netpbm_ascii_roundtrip(kind: NetpbmKind, m: NetpbmModel)
    requires
        encode_native_spec(kind, true, m) is Ok,
    ensures
        decode_ascii_spec(kind, encode_native_spec(kind, true, m)->Ok_0) == Ok::<NetpbmModel, ImageError>(m),
{
    let d = encode_native_spec(kind, true, m)->Ok_0;
    let magic = ascii_magic(kind);
    match m {
        NetpbmModel::Pbm { width, height, data } => {
            let header = bitmap_header_bytes(magic, width, height);
            let vals = u8_values(data);
            assert(d == header + text_rows(vals, width as int, height as nat));
            assert(d.subrange(0, header.len() as int) =~= header);
            lemma_scan_written_bitmap_header(d, 0, magic, width, height);
            assert(vals.len() == width * height);
            assert(width * height == height * width) by (nonlinear_arith);
            assert forall|i: int| 0 <= i < vals.len() implies value_fits(#[trigger] vals[i], SampleKind::Bit) by {
                assert(data[i] <= 1);
            }
            lemma_scan_written_text(d, header, vals, width as int, height as nat, SampleKind::Bit);
            lemma_values_bytes_narrow(data, SampleKind::Bit);
        },
        NetpbmModel::Pgm { width, height, maxval, data } => {
            lemma_ascii_samples_roundtrip(kind, d, width, height, maxval, data);
        },
        NetpbmModel::Ppm { width, height, maxval, data } => {
            lemma_ascii_samples_roundtrip(kind, d, width, height, maxval, data);
        },
    }
}

/// An ASCII PGM or PPM file, written for its fields, is read back.
#[verifier::spinoff_prover]
proof fn lemma_ascii_samples_roundtrip(kind: NetpbmKind, d: Seq<u8>, width: u32, height: u32, maxval: u16, data: Seq<u8>)
    requires
        kind != NetpbmKind::Pbm,
        native_sample_check(width, height, maxval, data, kind_channels(kind)) is None,
        d == native_samples_encoding(kind, true, ascii_magic(kind), width, height, maxval, data)->Ok_0,
    ensures
        decode_ascii_spec(kind, d) == Ok::<NetpbmModel, ImageError>(kind_model(kind, width, height, maxval, data)),
{
    let magic = ascii_magic(kind);
    let c = kind_channels(kind);
    let header = sample_header_bytes(magic, width, height, maxval);
    let vals = sample_values(data, maxval);
    let n = width * height * c;
    let ss = sample_size(maxval);
    assert(data.len() == n * ss);
    assert(vals.len() == n) by {
        if maxval >= 256 {
            assert(data.len() == n * 2);
        }
    }
    assert(n == c * (width * height)) by (nonlinear_arith)
        requires
            n == width * height * c,
    ;
    assert(width * height >= 1) by (nonlinear_arith) requires width >= 1, height >= 1;
    assert(vals.len() as int / c == width * height) by (nonlinear_arith)
        requires
            vals.len() == c * (width * height),
            c >= 1,
    ;
    let rows = (width * height) as nat;
    assert(d == header + text_rows(vals, c, rows));
    assert(d.subrange(0, header.len() as int) =~= header);
    lemma_scan_written_sample_header(d, 0, magic, width, height, maxval);
    let kind_s = kind_for_max(maxval);
    if maxval < 256 {
        assert forall|i: int| 0 <= i < vals.len() implies value_fits(#[trigger] vals[i], kind_s) by {
            assert(data[i] <= maxval);
        }
        lemma_scan_written_text(d, header, vals, c, rows, kind_s);
        lemma_values_bytes_narrow(data, kind_s);
    } else {
        assert forall|i: int| 0 <= i < vals.len() implies value_fits(#[trigger] vals[i], kind_s) by {
            assert(le16(data, i) <= maxval);
        }
        lemma_scan_written_text(d, header, vals, c, rows, kind_s);
        vstd::arithmetic::div_mod::lemma_mod_multiples_basic(n, 2);
        lemma_values_bytes_wide(data, maxval as u32);
    }
    assert(rows * c == n) by (nonlinear_arith)
        requires
            rows == width * height,
            n == width * height * c,
    ;
}

/// Encoding a view as an ASCII PGM or PPM file and decoding it gives the
/// view's pixels back in its own pixel format; for PBM it gives them back
/// thresholded at 128. This holds for every view that is written.
pub proof fn lemma_netpbm_ascii_image_roundtrip(kind: NetpbmKind, v: ImageView<'_>)
    requires
        encode_view_spec(kind, true, v) is Ok,
    ensures
        to_image_spec(decode_ascii_spec(kind, encode_view_spec(kind, true, v)->Ok_0)) == Ok::<ImageModel, ImageError>(
            ImageModel {
                width: v.width,
                height: v.height,
                pixel_format: v.pixel_format,
                data: if kind == NetpbmKind::Pbm {
                    thresholded(v.pixels())
                } else {
                    v.pixels()
                },
            },
        ),
{
    lemma_view_written_as_native(kind, true, v);
    lemma_checked_view(v);
    let m = view_native(kind, v);
    lemma_netpbm_ascii_roundtrip(kind, m);
    let px = v.pixels();
    match kind {
        NetpbmKind::Pbm => {
            assert(pbm_gray(threshold_bits(px)) =~= thresholded(px));
        },
        _ => {
            if !(v.pixel_format == PixelFormat::Gray8 || v.pixel_format == PixelFormat::Rgb8) {
                let c = kind_channels(kind);
                assert(px.len() == (v.width * v.height * c) * 2) by (nonlinear_arith)
                    requires
                        px.len() == v.width * v.height * v.pixel_format.spec_bytes_per_pixel(),
                        v.pixel_format.spec_bytes_per_pixel() == c * 2,
                ;
                vstd::arithmetic::div_mod::lemma_mod_multiples_basic(v.width * v.height * c, 2);
                lemma_normalized_full_range(px);
            }
        },
    }
}


/// Converting native Netpbm images gives, in order, the conversion of each
/// one when all of them convert, and otherwise the failure of the first one
/// that does not.
pub proof fn lemma_images_of(ms: Seq<NetpbmModel>)
    ensures
        (forall|i: int| 0 <= i < ms.len() ==> (#[trigger] netpbm_image_spec(ms[i])) is Ok) ==> {
            &&& images_of(ms) is Ok
            &&& images_of(ms)->Ok_0.len() == ms.len()
            &&& forall|i: int|
                0 <= i < ms.len() ==> images_of(ms)->Ok_0[i] == (#[trigger] netpbm_image_spec(
                    ms[i],
                ))->Ok_0
        },
        forall|k: int|
            0 <= k < ms.len() && (#[trigger] netpbm_image_spec(ms[k])) is Err && (forall|j: int|
                0 <= j < k ==> (#[trigger] netpbm_image_spec(ms[j])) is Ok) ==> images_of(ms)
                == Err::<Seq<ImageModel>, ImageError>(netpbm_image_spec(ms[k])->Err_0),
    decreases ms.len(),
{
    if ms.len() > 0 {
        let p = ms.drop_last();
        let n = ms.len() - 1;
        lemma_images_of(p);
        assert forall|i: int| 0 <= i < p.len() implies p[i] == ms[i] by {}
        if forall|i: int| 0 <= i < ms.len() ==> (#[trigger] netpbm_image_spec(ms[i])) is Ok {
            assert forall|i: int| 0 <= i < p.len() implies (#[trigger] netpbm_image_spec(p[i])) is Ok by {
                assert(p[i] == ms[i]);
                assert(netpbm_image_spec(ms[i]) is Ok);
            }
            assert(netpbm_image_spec(ms[n]) is Ok);
        }
        assert forall|k: int|
            0 <= k < ms.len() && (#[trigger] netpbm_image_spec(ms[k])) is Err && (forall|j: int|
                0 <= j < k ==> (#[trigger] netpbm_image_spec(ms[j])) is Ok) implies images_of(ms)
            == Err::<Seq<ImageModel>, ImageError>(netpbm_image_spec(ms[k])->Err_0) by {
            if k < n {
                assert(p[k] == ms[k]);
                assert forall|j: int| 0 <= j < k implies (#[trigger] netpbm_image_spec(p[j])) is Ok by {
                    assert(p[j] == ms[j]);
                    assert(netpbm_image_spec(ms[j]) is Ok);
                }
            } else {
                assert forall|i: int| 0 <= i < p.len() implies (#[trigger] netpbm_image_spec(p[i]))
                    is Ok by {
                    assert(p[i] == ms[i]);
                    assert(netpbm_image_spec(ms[i]) is Ok);
                }
            }
        }
    }
}

/// Unpacked PBM rows hold `width` bits a row, each 0 or 1.
#[verifier::spinoff_prover]
pub proof fn lemma_unpack_rows_bits(raster: Seq<u8>, width: int, row_bytes: int, n: nat)
    requires
        width >= 0,
    ensures
        unpack_rows(raster, width, row_bytes, n).len() == n * width,
        forall|i: int|
            0 <= i < n * width ==> #[trigger] unpack_rows(raster, width, row_bytes, n)[i] <= 1,
    decreases n,
{
    if n == 0 {
        assert(n * width == 0);
    } else {
        let m = (n - 1) as nat;
        lemma_unpack_rows_bits(raster, width, row_bytes, m);
        let row = unpack_row(raster.subrange(m * row_bytes, n * row_bytes), width);
        let all = unpack_rows(raster, width, row_bytes, n);
        let before = unpack_rows(raster, width, row_bytes, m);
        assert(all == before + row);
        assert(row.len() == width);
        assert(n * width == m * width + width) by (nonlinear_arith)
            requires
                n == m + 1,
        ;
        assert forall|x: int| 0 <= x < width implies #[trigger] row[x] <= 1 by {
            let b = raster.subrange(m * row_bytes, n * row_bytes)[x / 8];
            let sh = (7 - x % 8) as u8;
            assert((b >> sh) & 1u8 <= 1u8) by (bit_vector);
        }
        assert forall|i: int| 0 <= i < n * width implies #[trigger] all[i] <= 1 by {
            if i < m * width {
                assert(all[i] == before[i]);
            } else {
                assert(all[i] == row[i - m * width]);
            }
        }
    }
}

/// Decoding a binary PBM image to the generic form is decoding it natively
/// and mapping each bit to `Gray8`: 0 (white) to 255 and 1 (black) to 0.
/// The native pixels hold one 0 or 1 per pixel, so the conversion succeeds
/// whenever they fit the address space.
pub proof fn lemma_pbm_decode(d: Seq<u8>, p: int)
    requires
        p >= 0,
    ensures
        decode_one_spec(NetpbmKind::Pbm, d, p).0 is Err ==> to_image_spec(
            decode_one_spec(NetpbmKind::Pbm, d, p).0,
        ) == Err::<ImageModel, ImageError>(decode_one_spec(NetpbmKind::Pbm, d, p).0->Err_0),
        decode_one_spec(NetpbmKind::Pbm, d, p).0 is Ok ==> decode_one_spec(
            NetpbmKind::Pbm,
            d,
            p,
        ).0->Ok_0 is Pbm,
        decode_one_spec(NetpbmKind::Pbm, d, p).0 matches Ok(NetpbmModel::Pbm { width, height, data })
            ==> {
            &&& data.len() == width * height
            &&& forall|i: int| 0 <= i < data.len() ==> #[trigger] data[i] <= 1
            &&& data.len() <= usize::MAX ==> to_image_spec(decode_one_spec(NetpbmKind::Pbm, d, p).0)
                == Ok::<ImageModel, ImageError>(
                ImageModel { width, height, pixel_format: PixelFormat::Gray8, data: pbm_gray(data) },
            )
        },
{
    let (hd, q) = scan_bitmap_header(d, p, binary_magic(NetpbmKind::Pbm));
    if let Ok(dims) = hd {
        if let Ok(q2) = scan_separator(d, q) {
            if let Ok((s, e)) = pbm_raster_range(d, q2, dims) {
                let w = dims.width as int;
                let h = dims.height as int;
                lemma_unpack_rows_bits(d.subrange(s, e), w, (w + 7) / 8, h as nat);
                assert(w * h == w * h * 1);
                assert(pbm_gray(unpack_rows(d.subrange(s, e), w, (w + 7) / 8, h as nat)).len() == w * h);
            }
        }
    }
}

/// What the generic image of decoded PGM or PPM samples is: the samples
/// (at least one maxval, filling the image exactly) scaled to the full range,
/// 8-bit ones by `norm8`, and kept as they are for maxval 255 or 65535.
pub open spec fn samples_convert(
    kind: NetpbmKind,
    width: u32,
    height: u32,
    maxval: u16,
    data: Seq<u8>,
    converted: Result<ImageModel, ImageError>,
) -> bool {
    &&& 1 <= maxval
    &&& data.len() == packed_len(width, height, kind_format(kind, maxval))
    &&& converted == Ok::<ImageModel, ImageError>(
        ImageModel {
            width,
            height,
            pixel_format: kind_format(kind, maxval),
            data: normalized_bytes(data, maxval),
        },
    )
    &&& (maxval < 256 ==> forall|i: int|
        0 <= i < data.len() ==> #[trigger] normalized_bytes(data, maxval)[i] == norm8(data[i], maxval))
    &&& (maxval == 255 || maxval == 65535 ==> normalized_bytes(data, maxval) == data)
}

/// Decoding a binary PGM or PPM image to the generic form is decoding it
/// natively and scaling each sample from `0..=maxval` to the full range:
/// 8-bit samples (maxval below 256) to `(s * 255 + maxval / 2) / maxval`,
/// 16-bit ones to `(s * 65535 + maxval / 2) / maxval`, stored little-endian.
/// The native image always converts.
#[verifier::spinoff_prover]
pub proof fn lemma_samples_decode(kind: NetpbmKind, d: Seq<u8>, p: int)
    requires
        kind != NetpbmKind::Pbm,
        p >= 0,
    ensures
        decode_one_spec(kind, d, p).0 is Err ==> to_image_spec(decode_one_spec(kind, d, p).0)
            == Err::<ImageModel, ImageError>(decode_one_spec(kind, d, p).0->Err_0),
        decode_one_spec(kind, d, p).0 is Ok ==> (if kind == NetpbmKind::Pgm {
            decode_one_spec(kind, d, p).0->Ok_0 is Pgm
        } else {
            decode_one_spec(kind, d, p).0->Ok_0 is Ppm
        }),
        decode_one_spec(kind, d, p).0 matches Ok(NetpbmModel::Pgm { width, height, maxval, data })
            ==> samples_convert(kind, width, height, maxval, data, to_image_spec(decode_one_spec(kind, d, p).0)),
        decode_one_spec(kind, d, p).0 matches Ok(NetpbmModel::Ppm { width, height, maxval, data })
            ==> samples_convert(kind, width, height, maxval, data, to_image_spec(decode_one_spec(kind, d, p).0)),
{
    lemma_scan_token_progress(d, p);
    let q1 = scan_token(d, p).1;
    lemma_scan_u32_progress(d, q1, "width");
    let qw = scan_u32(d, q1, "width").1;
    lemma_scan_u32_progress(d, qw, "height");
    let qh = scan_u32(d, qw, "height").1;
    lemma_scan_u32_progress(d, qh, "max value");
    let (hd, q) = scan_sample_header(d, p, binary_magic(kind));
    if let Ok((dims, maxval)) = hd {
        if let Ok(q2) = scan_separator(d, q) {
            let pf = kind_format(kind, maxval);
            if let Ok((s, e)) = raster_range(d, q2, dims, pf) {
                let raster = d.subrange(s, e);
                let data = if maxval < 256 {
                    raster
                } else {
                    swap_pairs(raster)
                };
                let w = dims.width as int;
                let h = dims.height as int;
                let b = pf.spec_bytes_per_pixel() as int;
                assert(raster_len_spec(dims, pf) == Ok::<int, ImageError>(w * b * h));
                assert(e - s == w * b * h);
                assert(raster.len() == w * b * h);
                assert(w * b * h == w * h * b) by (nonlinear_arith);
                if maxval >= 256 {
                    assert(b % 2 == 0);
                    assert(raster.len() == (w * h * (b / 2)) * 2) by (nonlinear_arith)
                        requires
                            raster.len() == w * h * b,
                            b % 2 == 0,
                    ;
                    assert(w * h * (b / 2) >= 0) by (nonlinear_arith)
                        requires
                            w >= 0,
                            h >= 0,
                            b >= 0,
                    ;
                    vstd::arithmetic::div_mod::lemma_mod_multiples_basic(w * h * (b / 2), 2);
                    assert(data.len() == raster.len());
                    if maxval == 65535 {
                        lemma_normalized_full_range(data);
                    }
                }
                assert(normalized_bytes(data, maxval).len() == data.len());
                if maxval == 255 {
                    assert(normalized_bytes(data, maxval) == data);
                }
            }
        }
    }
}


/// `q` is `(s * full + maxval / 2) / maxval`: the nearest whole number to
/// `s * full / maxval`, halves rounded up, and at most `full` when `s` is at
/// most `maxval`.
proof fn lemma_rounded_quotient(s: int, maxval: int, full: int)
    requires
        1 <= maxval,
        0 <= s <= maxval,
        1 <= full,
    ensures
        ({
            let q = (s * full + maxval / 2) / maxval;
            &&& 0 <= q <= full
            &&& q * maxval <= s * full + maxval / 2 < (q + 1) * maxval
        }),
{
    let x = s * full + maxval / 2;
    let q = x / maxval;
    assert(0 <= s * full <= maxval * full) by (nonlinear_arith)
        requires
            0 <= s <= maxval,
            1 <= full,
    ;
    vstd::arithmetic::div_mod::lemma_fundamental_div_mod(x, maxval);
    vstd::arithmetic::div_mod::lemma_mod_pos_bound(x, maxval);
    assert(maxval * q == q * maxval) by (nonlinear_arith);
    assert((q + 1) * maxval == q * maxval + maxval) by (nonlinear_arith);
    assert(x < (full + 1) * maxval) by (nonlinear_arith)
        requires
            x == s * full + maxval / 2,
            s * full <= maxval * full,
            maxval >= 1,
    ;
    assert(q <= full) by (nonlinear_arith)
        requires
            q * maxval <= x,
            x < (full + 1) * maxval,
            maxval >= 1,
    ;
    assert(0 <= q) by (nonlinear_arith)
        requires
            x >= 0,
            maxval >= 1,
            q == x / maxval,
    ;
}

/// Whether `out` holds the samples of `data` scaled from `0..=maxval` to the
/// full range and rounded to nearest: for maxval below 256 each byte `s`
/// becomes the byte `r` with `r * maxval <= s * 255 + maxval / 2 < (r + 1) *
/// maxval`, and from 256 on each little-endian 16-bit sample `s` becomes the
/// little-endian `v` with `v * maxval <= s * 65535 + maxval / 2 < (v + 1) *
/// maxval`, for every sample at most maxval. A sample equal to maxval thus
/// becomes 255 or 65535 and a zero sample 0.
pub open spec fn scaled_to_full_range(maxval: u16, data: Seq<u8>, out: Seq<u8>, i: int) -> bool {
    &&& out.len() == if maxval < 256 {
        data.len() as int
    } else {
        data.len() - data.len() % 2
    }
    &&& (maxval < 256 && 0 <= i < data.len() && data[i] <= maxval) ==> out[i] * maxval <= data[i] * 255
        + maxval / 2 < (out[i] + 1) * maxval
    &&& (maxval >= 256 && 0 <= i && 2 * i + 1 < data.len() && data[2 * i] + 256 * data[2 * i + 1]
        <= maxval) ==> {
        let s = data[2 * i] + 256 * data[2 * i + 1];
        let v = out[2 * i] + 256 * out[2 * i + 1];
        v * maxval <= s * 65535 + maxval / 2 < (v + 1) * maxval
    }
}

/// Scaling native samples scales each one to the full range, rounded to
/// nearest, whatever the maxval (from 1 on).
pub proof fn lemma_normalized_bytes_scaled(data: Seq<u8>, maxval: u16, i: int)
    requires
        1 <= maxval,
    ensures
        scaled_to_full_range(maxval, data, normalized_bytes(data, maxval), i),
{
    let out = normalized_bytes(data, maxval);
    let m = maxval as int;
    if maxval < 256 {
        if 0 <= i < data.len() && data[i] <= maxval {
            let s = data[i] as int;
            lemma_rounded_quotient(s, m, 255);
            if maxval != 255 {
                assert(out[i] == norm8(data[i], maxval));
            }
        }
    } else {
        if 0 <= i && 2 * i + 1 < data.len() && data[2 * i] + 256 * data[2 * i + 1] <= maxval {
            let s = data[2 * i] + 256 * data[2 * i + 1];
            assert(le16(data, i) == s);
            lemma_rounded_quotient(s, m, 65535);
            let v = norm16(le16(data, i), maxval);
            assert(v == (s * 65535 + m / 2) / m);
            assert((2 * i) / 2 == i && (2 * i) % 2 == 0);
            assert((2 * i + 1) / 2 == i && (2 * i + 1) % 2 == 1);
            assert(out[2 * i] == (v % 256) as u8);
            assert(out[2 * i + 1] == (v / 256) as u8);
            assert(out[2 * i] + 256 * out[2 * i + 1] == v);
        }
    }
}

/// The field accessors of a native image with a maxval.
pub open spec fn sample_maxval(m: NetpbmModel) -> u16 {
    match m {
        NetpbmModel::Pbm { .. } => 1,
        NetpbmModel::Pgm { maxval, .. } => maxval,
        NetpbmModel::Ppm { maxval, .. } => maxval,
    }
}

/// The sample bytes of a native image.
pub open spec fn sample_data(m: NetpbmModel) -> Seq<u8> {
    match m {
        NetpbmModel::Pbm { data, .. } => data,
        NetpbmModel::Pgm { data, .. } => data,
        NetpbmModel::Ppm { data, .. } => data,
    }
}

/// The generic image of a native Netpbm image. A PBM bit 0 (white) becomes
/// the `Gray8` value 255 and a bit 1 (black) becomes 0. PGM and PPM samples
/// are scaled to the full range and rounded to nearest, into 8-bit formats
/// for maxval below 256 and 16-bit ones from 256 on.
pub proof fn lemma_netpbm_pixels(m: NetpbmModel, i: int)
    requires
        netpbm_image_spec(m) is Ok,
    ensures
        ({
            let img = netpbm_image_spec(m)->Ok_0;
            let data = sample_data(m);
            let maxval = sample_maxval(m);
            match m {
                NetpbmModel::Pbm { .. } => {
                    &&& img.pixel_format == PixelFormat::Gray8
                    &&& img.data.len() == data.len()
                    &&& 0 <= i < data.len() ==> img.data[i] == if data[i] == 0 {
                        255u8
                    } else {
                        0u8
                    }
                },
                NetpbmModel::Pgm { .. } => {
                    &&& img.pixel_format == if maxval < 256 {
                        PixelFormat::Gray8
                    } else {
                        PixelFormat::Gray16
                    }
                    &&& scaled_to_full_range(maxval, data, img.data, i)
                },
                NetpbmModel::Ppm { .. } => {
                    &&& img.pixel_format == if maxval < 256 {
                        PixelFormat::Rgb8
                    } else {
                        PixelFormat::Rgb16
                    }
                    &&& scaled_to_full_range(maxval, data, img.data, i)
                },
            }
        }),
{
    match m {
        NetpbmModel::Pbm { .. } => {},
        _ => {
            let maxval = sample_maxval(m);
            let data = sample_data(m);
            let img = netpbm_image_spec(m)->Ok_0;
            assert(maxval >= 1);
            assert(img.data == normalized_bytes(data, maxval));
            lemma_normalized_bytes_scaled(data, maxval, i);
        },
    }
}

} // verus!
