use vstd::prelude::*;

use crate::codecs::{bmp, pam, pbm, pgm, ppm};
use crate::codecs::netpbm::{NetpbmKind, decode_ascii_spec, decode_one_spec, to_image_spec};
use crate::error::ImageError;
use crate::image::{Image, ImageModel, image_result};

verus! {

/// The formats that the first two bytes of an input tell apart.
#[derive(Clone, Copy, Debug, Eq, PartialEq, Structural)]
enum ImageFormat {
    PbmAscii,
    PgmAscii,
    PpmAscii,
    PbmBinary,
    PgmBinary,
    PpmBinary,
    Pam,
    Bmp,
}

/// The format that an input's magic number names, if any.
spec fn format_of(d: Seq<u8>) -> Option<ImageFormat> {
    if d.len() < 2 {
        None
    } else if d[0] == 0x50 && d[1] == 0x31 {
        Some(ImageFormat::PbmAscii)
    } else if d[0] == 0x50 && d[1] == 0x32 {
        Some(ImageFormat::PgmAscii)
    } else if d[0] == 0x50 && d[1] == 0x33 {
        Some(ImageFormat::PpmAscii)
    } else if d[0] == 0x50 && d[1] == 0x34 {
        Some(ImageFormat::PbmBinary)
    } else if d[0] == 0x50 && d[1] == 0x35 {
        Some(ImageFormat::PgmBinary)
    } else if d[0] == 0x50 && d[1] == 0x36 {
        Some(ImageFormat::PpmBinary)
    } else if d[0] == 0x50 && d[1] == 0x37 {
        Some(ImageFormat::Pam)
    } else if d[0] == 0x42 && d[1] == 0x4d {
        Some(ImageFormat::Bmp)
    } else {
        None
    }
}

/// What decoding an input of any supported format gives: the decoder its magic
/// number names is applied, and an unknown or missing magic number is refused.
pub open spec fn decode_spec(d: Seq<u8>) -> Result<ImageModel, ImageError> {
    if d.len() < 2 {
        Err(ImageError::UnsupportedFormat)
    } else if d[0] == 0x50 && d[1] == 0x31 {
        to_image_spec(decode_ascii_spec(NetpbmKind::Pbm, d))
    } else if d[0] == 0x50 && d[1] == 0x32 {
        to_image_spec(decode_ascii_spec(NetpbmKind::Pgm, d))
    } else if d[0] == 0x50 && d[1] == 0x33 {
        to_image_spec(decode_ascii_spec(NetpbmKind::Ppm, d))
    } else if d[0] == 0x50 && d[1] == 0x34 {
        to_image_spec(decode_one_spec(NetpbmKind::Pbm, d, 0).0)
    } else if d[0] == 0x50 && d[1] == 0x35 {
        to_image_spec(decode_one_spec(NetpbmKind::Pgm, d, 0).0)
    } else if d[0] == 0x50 && d[1] == 0x36 {
        to_image_spec(decode_one_spec(NetpbmKind::Ppm, d, 0).0)
    } else if d[0] == 0x50 && d[1] == 0x37 {
        pam::pam_to_image_spec(pam::pam_single(d))
    } else if d[0] == 0x42 && d[1] == 0x4d {
        bmp::decode_spec(d)
    } else {
        Err(ImageError::UnsupportedFormat)
    }
}

/// Names the format of an input by its first two bytes.
fn detect_format(data: &[u8]) -> (res: Result<ImageFormat, ImageError>)
    ensures
        match format_of(data@) {
            Some(f) => res == Ok::<ImageFormat, ImageError>(f),
            None => res == Err::<ImageFormat, _>(ImageError::UnsupportedFormat),
        },
{
    if data.len() < 2 {
        return Err(ImageError::UnsupportedFormat);
    }
    let (a, b) = (data[0], data[1]);
    if a == 0x50 && b == 0x31 {
        Ok(ImageFormat::PbmAscii)
    } else if a == 0x50 && b == 0x32 {
        Ok(ImageFormat::PgmAscii)
    } else if a == 0x50 && b == 0x33 {
        Ok(ImageFormat::PpmAscii)
    } else if a == 0x50 && b == 0x34 {
        Ok(ImageFormat::PbmBinary)
    } else if a == 0x50 && b == 0x35 {
        Ok(ImageFormat::PgmBinary)
    } else if a == 0x50 && b == 0x36 {
        Ok(ImageFormat::PpmBinary)
    } else if a == 0x50 && b == 0x37 {
        Ok(ImageFormat::Pam)
    } else if a == 0x42 && b == 0x4d {
        Ok(ImageFormat::Bmp)
    } else {
        Err(ImageError::UnsupportedFormat)
    }
}

/// Decodes an image by detecting its format from the input bytes.
pub fn decode(data: &[u8]) -> (res: Result<Image, ImageError>)
    ensures
        image_result(res) == decode_spec(data@),
{
    match detect_format(data)? {
        ImageFormat::PbmAscii => pbm::decode_ascii(data),
        ImageFormat::PgmAscii => pgm::decode_ascii(data),
        ImageFormat::PpmAscii => ppm::decode_ascii(data),
        ImageFormat::PbmBinary => pbm::decode(data),
        ImageFormat::PgmBinary => pgm::decode(data),
        ImageFormat::PpmBinary => ppm::decode(data),
        ImageFormat::Pam => pam::decode(data),
        ImageFormat::Bmp => bmp::decode(data),
    }
}

} // verus!
