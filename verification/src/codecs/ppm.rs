use vstd::prelude::*;

use crate::codecs::netpbm::{
    NetpbmImage, NetpbmKind, decode_one_spec, decode_ascii_spec, decode_stream, native_result,
    natives_result, to_image_spec, to_images_spec, encode_view_spec, encode_native_spec, writes,
    writes_all, convert_views, HeaderParser, decode_one_native, decode_ascii_of_kind,
    decode_all_of_kind, netpbm_to_image, netpbm_all_to_images, encode_view, encode_native_of_kind,
    encode_all_native_of_kind, encode_all_views, images_result,
};
use crate::error::ImageError;
use crate::image::{Image, ImageView, image_result};

verus! {

/// Decodes a binary PPM image.
pub fn decode(data: &[u8]) -> (res: Result<Image, ImageError>)
    ensures
        image_result(res) == to_image_spec(decode_one_spec(NetpbmKind::Ppm, data@, 0).0),
{
    match decode_native(data) {
        Ok(image) => netpbm_to_image(image),
        Err(e) => Err(e),
    }
}

/// Decodes a binary PPM image without normalizing its samples.
pub fn decode_native(data: &[u8]) -> (res: Result<NetpbmImage, ImageError>)
    ensures
        native_result(res) == decode_one_spec(NetpbmKind::Ppm, data@, 0).0,
{
    let mut parser = HeaderParser::new(data);
    decode_one_native(NetpbmKind::Ppm, data, &mut parser)
}

/// Decodes all binary PPM images from a multi-image stream.
pub fn decode_all_native(data: &[u8]) -> (res: Result<Vec<NetpbmImage>, ImageError>)
    ensures
        natives_result(res) == decode_stream(NetpbmKind::Ppm, data@, 0),
{
    decode_all_of_kind(NetpbmKind::Ppm, data)
}

/// Decodes an ASCII PPM image.
pub fn decode_ascii(data: &[u8]) -> (res: Result<Image, ImageError>)
    ensures
        image_result(res) == to_image_spec(decode_ascii_spec(NetpbmKind::Ppm, data@)),
{
    match decode_ascii_native(data) {
        Ok(image) => netpbm_to_image(image),
        Err(e) => Err(e),
    }
}

/// Decodes an ASCII PPM image without normalizing its samples.
pub fn decode_ascii_native(data: &[u8]) -> (res: Result<NetpbmImage, ImageError>)
    ensures
        native_result(res) == decode_ascii_spec(NetpbmKind::Ppm, data@),
{
    decode_ascii_of_kind(NetpbmKind::Ppm, data)
}

/// Encodes an image view as a binary PPM image.
///
/// This implementation supports `PixelFormat::Rgb8` and `PixelFormat::Rgb16`.
pub fn encode(writer: &mut Vec<u8>, image: ImageView<'_>) -> (res: Result<(), ImageError>)
    ensures
        writes(res, old(writer)@, final(writer)@, encode_view_spec(NetpbmKind::Ppm, false, image)),
{
    encode_view(NetpbmKind::Ppm, false, writer, image)
}

/// Encodes an image view as an ASCII PPM image.
///
/// This implementation supports `PixelFormat::Rgb8` and `PixelFormat::Rgb16`.
pub fn encode_ascii(writer: &mut Vec<u8>, image: ImageView<'_>) -> (res: Result<(), ImageError>)
    ensures
        writes(res, old(writer)@, final(writer)@, encode_view_spec(NetpbmKind::Ppm, true, image)),
{
    encode_view(NetpbmKind::Ppm, true, writer, image)
}

/// Encodes a native PPM image as a binary PPM image.
pub fn encode_native(writer: &mut Vec<u8>, image: &NetpbmImage) -> (res: Result<(), ImageError>)
    ensures
        writes(res, old(writer)@, final(writer)@, encode_native_spec(NetpbmKind::Ppm, false, image@)),
{
    encode_native_of_kind(NetpbmKind::Ppm, false, writer, image)
}

/// Encodes a native PPM image as an ASCII PPM image.
pub fn encode_ascii_native(writer: &mut Vec<u8>, image: &NetpbmImage) -> (res: Result<(), ImageError>)
    ensures
        writes(res, old(writer)@, final(writer)@, encode_native_spec(NetpbmKind::Ppm, true, image@)),
{
    encode_native_of_kind(NetpbmKind::Ppm, true, writer, image)
}

} // verus!
