use vstd::prelude::*;

use crate::image::PixelFormat;
use vstd::string::StringExecFns;

verus! {

/// The kind of a failed lower-level read or write.
#[derive(Debug, Clone, Copy, PartialEq, Eq, Structural)]
pub enum IoErrorKind {
    /// The input ended before the requested bytes were available.
    UnexpectedEof,
    /// Any other input or output failure.
    Other,
}

/// Error type used by image decoding, encoding, and buffer validation.
#[derive(Debug, Clone, PartialEq, Eq)]
pub enum ImageError {
    /// A lower-level read or write failed.
    Io { kind: IoErrorKind },
    /// The image header is malformed.
    InvalidHeader { reason: &'static str },
    /// The image payload is malformed.
    InvalidData { reason: &'static str },
    /// The provided pixel buffer does not match the expected size.
    InvalidBufferLength { expected: usize, actual: usize },
    /// The provided row stride is too small for the image width and pixel format.
    InvalidStride { minimum: usize, actual: usize },
    /// The image dimensions overflow the platform address size.
    ImageDimensionsTooLarge { width: u32, height: u32, bytes_per_pixel: usize },
    /// The image format is not supported by this crate.
    UnsupportedFormat,
    /// The pixel format is not supported by a specific operation.
    UnsupportedPixelFormat { pixel_format: PixelFormat },
}


/// The character of a decimal digit.
pub open spec fn digit_char(d: nat) -> char {
    (0x30 + d) as char
}

/// The shortest decimal representation of a number.
pub open spec fn decimal_chars(n: nat) -> Seq<char>
    decreases n,
{
    if n < 10 {
        seq![digit_char(n)]
    } else {
        decimal_chars(n / 10).push(digit_char(n % 10))
    }
}

/// The name of a pixel format, as its `Debug` form writes it.
pub open spec fn pixel_format_name(pf: PixelFormat) -> Seq<char> {
    match pf {
        PixelFormat::Gray8 => "Gray8"@,
        PixelFormat::GrayAlpha8 => "GrayAlpha8"@,
        PixelFormat::Gray16 => "Gray16"@,
        PixelFormat::GrayAlpha16 => "GrayAlpha16"@,
        PixelFormat::Rgb8 => "Rgb8"@,
        PixelFormat::Rgba8 => "Rgba8"@,
        PixelFormat::Rgb16 => "Rgb16"@,
        PixelFormat::Rgba16 => "Rgba16"@,
    }
}

/// The description of a failure kind, as the reads of this library report it.
pub open spec fn io_kind_text(kind: IoErrorKind) -> Seq<char> {
    match kind {
        IoErrorKind::UnexpectedEof => "failed to fill whole buffer"@,
        IoErrorKind::Other => "other error"@,
    }
}

/// The message that describes an error.
pub open spec fn message_text(e: ImageError) -> Seq<char> {
    match e {
        ImageError::Io { kind } => "io error: "@ + io_kind_text(kind),
        ImageError::InvalidHeader { reason } => "invalid image header: "@ + reason@,
        ImageError::InvalidData { reason } => "invalid image data: "@ + reason@,
        ImageError::InvalidBufferLength { expected, actual } => "invalid buffer length: expected "@
            + decimal_chars(expected as nat) + " bytes, got "@ + decimal_chars(actual as nat) + " bytes"@,
        ImageError::InvalidStride { minimum, actual } => "invalid row stride: expected at least "@
            + decimal_chars(minimum as nat) + " bytes, got "@ + decimal_chars(actual as nat) + " bytes"@,
        ImageError::ImageDimensionsTooLarge { width, height, bytes_per_pixel } =>
            "image dimensions are too large: "@ + decimal_chars(width as nat) + "x"@ + decimal_chars(
            height as nat,
        ) + " at "@ + decimal_chars(bytes_per_pixel as nat) + " bytes per pixel"@,
        ImageError::UnsupportedFormat => "unsupported image format"@,
        ImageError::UnsupportedPixelFormat { pixel_format } => "unsupported pixel format: "@
            + pixel_format_name(pixel_format),
    }
}

/// The one-character string of a decimal digit.
fn digit_str(d: usize) -> (s: &'static str)
    requires
        d < 10,
    ensures
        s@ == seq![digit_char(d as nat)],
{
    proof {
        reveal_strlit("0");
        reveal_strlit("1");
        reveal_strlit("2");
        reveal_strlit("3");
        reveal_strlit("4");
        reveal_strlit("5");
        reveal_strlit("6");
        reveal_strlit("7");
        reveal_strlit("8");
        reveal_strlit("9");
    }
    let s = if d == 0 {
        "0"
    } else if d == 1 {
        "1"
    } else if d == 2 {
        "2"
    } else if d == 3 {
        "3"
    } else if d == 4 {
        "4"
    } else if d == 5 {
        "5"
    } else if d == 6 {
        "6"
    } else if d == 7 {
        "7"
    } else if d == 8 {
        "8"
    } else {
        "9"
    };
    assert(s@ =~= seq![digit_char(d as nat)]);
    s
}

/// Appends the decimal representation of a number.
fn append_decimal(out: &mut String, n: usize)
    ensures
        final(out)@ == old(out)@ + decimal_chars(n as nat),
    decreases n,
{
    if n >= 10 {
        append_decimal(out, n / 10);
    }
    out.append(digit_str(n % 10));
    proof {
        if n < 10 {
            assert(out@ =~= old(out)@ + decimal_chars(n as nat));
        } else {
            assert(out@ =~= old(out)@ + decimal_chars(n as nat));
        }
    }
}

/// The name of a pixel format.
fn pixel_format_str(pf: PixelFormat) -> (s: &'static str)
    ensures
        s@ == pixel_format_name(pf),
{
    match pf {
        PixelFormat::Gray8 => "Gray8",
        PixelFormat::GrayAlpha8 => "GrayAlpha8",
        PixelFormat::Gray16 => "Gray16",
        PixelFormat::GrayAlpha16 => "GrayAlpha16",
        PixelFormat::Rgb8 => "Rgb8",
        PixelFormat::Rgba8 => "Rgba8",
        PixelFormat::Rgb16 => "Rgb16",
        PixelFormat::Rgba16 => "Rgba16",
    }
}

impl ImageError {
    /// The human-readable message for this error.
    pub fn message(&self) -> (s: String)
        ensures
            s@ == message_text(*self),
    {
        let mut s = String::new();
        match self {
            ImageError::Io { kind } => {
                s.append("io error: ");
                match kind {
                    IoErrorKind::UnexpectedEof => s.append("failed to fill whole buffer"),
                    IoErrorKind::Other => s.append("other error"),
                }
            },
            ImageError::InvalidHeader { reason } => {
                s.append("invalid image header: ");
                s.append(reason);
            },
            ImageError::InvalidData { reason } => {
                s.append("invalid image data: ");
                s.append(reason);
            },
            ImageError::InvalidBufferLength { expected, actual } => {
                s.append("invalid buffer length: expected ");
                append_decimal(&mut s, *expected);
                s.append(" bytes, got ");
                append_decimal(&mut s, *actual);
                s.append(" bytes");
            },
            ImageError::InvalidStride { minimum, actual } => {
                s.append("invalid row stride: expected at least ");
                append_decimal(&mut s, *minimum);
                s.append(" bytes, got ");
                append_decimal(&mut s, *actual);
                s.append(" bytes");
            },
            ImageError::ImageDimensionsTooLarge { width, height, bytes_per_pixel } => {
                s.append("image dimensions are too large: ");
                append_decimal(&mut s, *width as usize);
                s.append("x");
                append_decimal(&mut s, *height as usize);
                s.append(" at ");
                append_decimal(&mut s, *bytes_per_pixel);
                s.append(" bytes per pixel");
            },
            ImageError::UnsupportedFormat => {
                s.append("unsupported image format");
            },
            ImageError::UnsupportedPixelFormat { pixel_format } => {
                s.append("unsupported pixel format: ");
                s.append(pixel_format_str(*pixel_format));
            },
        }
        assert(s@ =~= message_text(*self));
        s
    }
}

} // verus!
