use vstd::prelude::*;

use crate::codecs::netpbm::{
    NetpbmImage, NetpbmKind, NetpbmModel, decode_one_spec, decode_ascii_spec, decode_stream,
    native_result, natives_result, to_image_spec, netpbm_to_image, decode_ascii_of_kind,
    decode_one_native, decode_all_of_kind, HeaderParser,
};
use crate::error::ImageError;
use crate::image::{Image, image_result};

verus! {

/// The native image of a PBM, PGM or PPM file, by its `P1`..`P6` magic number.
pub open spec fn pnm_native_spec(d: Seq<u8>) -> Result<NetpbmModel, ImageError> {
    if d.len() < 2 || d[0] != 0x50 {
        Err(ImageError::UnsupportedFormat)
    } else if d[1] == 0x31 {
        decode_ascii_spec(NetpbmKind::Pbm, d)
    } else if d[1] == 0x32 {
        decode_ascii_spec(NetpbmKind::Pgm, d)
    } else if d[1] == 0x33 {
        decode_ascii_spec(NetpbmKind::Ppm, d)
    } else if d[1] == 0x34 {
        decode_one_spec(NetpbmKind::Pbm, d, 0).0
    } else if d[1] == 0x35 {
        decode_one_spec(NetpbmKind::Pgm, d, 0).0
    } else if d[1] == 0x36 {
        decode_one_spec(NetpbmKind::Ppm, d, 0).0
    } else {
        Err(ImageError::UnsupportedFormat)
    }
}

/// The native images of a binary PBM, PGM or PPM stream, by its first magic
/// number; empty input holds no image.
pub open spec fn pnm_stream_spec(d: Seq<u8>) -> Result<Seq<NetpbmModel>, ImageError> {
    if d.len() == 0 {
        Ok(Seq::empty())
    } else if d.len() < 2 || d[0] != 0x50 {
        Err(ImageError::UnsupportedFormat)
    } else if d[1] == 0x34 {
        decode_stream(NetpbmKind::Pbm, d, 0)
    } else if d[1] == 0x35 {
        decode_stream(NetpbmKind::Pgm, d, 0)
    } else if d[1] == 0x36 {
        decode_stream(NetpbmKind::Ppm, d, 0)
    } else {
        Err(ImageError::UnsupportedFormat)
    }
}

/// Decodes a PBM, PGM, or PPM image by detecting the P1..P6 magic number.
pub fn decode(data: &[u8]) -> (res: Result<Image, ImageError>)
    ensures
        image_result(res) == to_image_spec(pnm_native_spec(data@)),
{
    match decode_native(data) {
        Ok(image) => netpbm_to_image(image),
        Err(e) => Err(e),
    }
}

/// Decodes a native PBM, PGM, or PPM image by detecting the P1..P6 magic number.
pub fn decode_native(data: &[u8]) -> (res: Result<NetpbmImage, ImageError>)
    ensures
        native_result(res) == pnm_native_spec(data@),
{
    if data.len() < 2 || data[0] != 0x50 {
        return Err(ImageError::UnsupportedFormat);
    }
    let mut parser = HeaderParser::new(data);
    match data[1] {
        0x31 => decode_ascii_of_kind(NetpbmKind::Pbm, data),
        0x32 => decode_ascii_of_kind(NetpbmKind::Pgm, data),
        0x33 => decode_ascii_of_kind(NetpbmKind::Ppm, data),
        0x34 => decode_one_native(NetpbmKind::Pbm, data, &mut parser),
        0x35 => decode_one_native(NetpbmKind::Pgm, data, &mut parser),
        0x36 => decode_one_native(NetpbmKind::Ppm, data, &mut parser),
        _ => Err(ImageError::UnsupportedFormat),
    }
}

/// Decodes all native images from a binary PBM, PGM, or PPM multi-image stream.
pub fn decode_all_native(data: &[u8]) -> (res: Result<Vec<NetpbmImage>, ImageError>)
    ensures
        natives_result(res) == pnm_stream_spec(data@),
{
    if data.len() == 0 {
        let empty: Vec<NetpbmImage> = Vec::new();
        assert(empty@.map_values(|i: NetpbmImage| i@) =~= Seq::<NetpbmModel>::empty());
        return Ok(empty);
    }
    if data.len() < 2 || data[0] != 0x50 {
        return Err(ImageError::UnsupportedFormat);
    }
    match data[1] {
        0x34 => decode_all_of_kind(NetpbmKind::Pbm, data),
        0x35 => decode_all_of_kind(NetpbmKind::Pgm, data),
        0x36 => decode_all_of_kind(NetpbmKind::Ppm, data),
        _ => Err(ImageError::UnsupportedFormat),
    }
}

} // verus!
