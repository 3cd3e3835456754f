use vstd::prelude::*;

use crate::codecs::netpbm::{
    NetpbmImage, NetpbmKind, decode_one_spec, decode_ascii_spec, decode_stream, native_result,
    natives_result, to_image_spec, to_images_spec, encode_view_spec, encode_native_spec, writes,
    writes_all, convert_views, HeaderParser, decode_one_native, decode_ascii_of_kind,
    decode_all_of_kind, netpbm_to_image, netpbm_all_to_images, encode_view, encode_native_of_kind,
    encode_all_native_of_kind, encode_all_views, images_result,
};
use crate::error::ImageError;
use crate::image::{Image, ImageView, image_result};

verus! {

/// Decodes a binary PGM image.
pub fn decode(data: &[u8]) -> (res: Result<Image, ImageError>)
    ensures
        image_result(res) == to_image_spec(decode_one_spec(NetpbmKind::Pgm, data@, 0).0),
{
    match decode_native(data) {
        Ok(image) => netpbm_to_image(image),
        Err(e) => Err(e),
    }
}

/// Decodes a binary PGM image without normalizing its samples.
pub fn decode_native(data: &[u8]) -> (res: Result<NetpbmImage, ImageError>)
    ensures
        native_result(res) == decode_one_spec(NetpbmKind::Pgm, data@, 0).0,
{
    let mut parser = HeaderParser::new(data);
    decode_one_native(NetpbmKind::Pgm, data, &mut parser)
}

/// Decodes all binary PGM images from a multi-image stream.
pub fn decode_all_native(data: &[u8]) -> (res: Result<Vec<NetpbmImage>, ImageError>)
    ensures
        natives_result(res) == decode_stream(NetpbmKind::Pgm, data@, 0),
{
    decode_all_of_kind(NetpbmKind::Pgm, data)
}

/// Decodes an ASCII PGM image.
pub fn decode_ascii(data: &[u8]) -> (res: Result<Image, ImageError>)
    ensures
        image_result(res) == to_image_spec(decode_ascii_spec(NetpbmKind::Pgm, data@)),
{
    match decode_ascii_native(data) {
        Ok(image) => netpbm_to_image(image),
        Err(e) => Err(e),
    }
}

/// Decodes an ASCII PGM image without normalizing its samples.
pub fn decode_ascii_native(data: &[u8]) -> (res: Result<NetpbmImage, ImageError>)
    ensures
        native_result(res) == decode_ascii_spec(NetpbmKind::Pgm, data@),
{
    decode_ascii_of_kind(NetpbmKind::Pgm, data)
}

/// Encodes an image view as a binary PGM image.
///
/// This implementation supports `PixelFormat::Gray8` and `PixelFormat::Gray16`.
pub fn encode(writer: &mut Vec<u8>, image: ImageView<'_>) -> (res: Result<(), ImageError>)
    ensures
        writes(res, old(writer)@, final(writer)@, encode_view_spec(NetpbmKind::Pgm, false, image)),
{
    encode_view(NetpbmKind::Pgm, false, writer, image)
}

/// Encodes an image view as an ASCII PGM image.
///
/// This implementation supports `PixelFormat::Gray8` and `PixelFormat::Gray16`.
pub fn encode_ascii(writer: &mut Vec<u8>, image: ImageView<'_>) -> (res: Result<(), ImageError>)
    ensures
        writes(res, old(writer)@, final(writer)@, encode_view_spec(NetpbmKind::Pgm, true, image)),
{
    encode_view(NetpbmKind::Pgm, true, writer, image)
}

/// Encodes a native PGM image as a binary PGM image.
pub fn encode_native(writer: &mut Vec<u8>, image: &NetpbmImage) -> (res: Result<(), ImageError>)
    ensures
        writes(res, old(writer)@, final(writer)@, encode_native_spec(NetpbmKind::Pgm, false, image@)),
{
    encode_native_of_kind(NetpbmKind::Pgm, false, writer, image)
}

/// Encodes a native PGM image as an ASCII PGM image.
pub fn encode_ascii_native(writer: &mut Vec<u8>, image: &NetpbmImage) -> (res: Result<(), ImageError>)
    ensures
        writes(res, old(writer)@, final(writer)@, encode_native_spec(NetpbmKind::Pgm, true, image@)),
{
    encode_native_of_kind(NetpbmKind::Pgm, true, writer, image)
}

/// Encodes image views as a binary PGM multi-image stream; nothing is
/// written when a view cannot be converted.
pub fn encode_all(writer: &mut Vec<u8>, images: &[ImageView<'_>]) -> (res: Result<(), ImageError>)
    ensures
        match convert_views(NetpbmKind::Pgm, images@) {
            Err(e) => res == Err::<(), _>(e) && final(writer)@ == old(writer)@,
            Ok(models) => writes_all(NetpbmKind::Pgm, res, old(writer)@, final(writer)@, models),
        },
{
    encode_all_views(NetpbmKind::Pgm, writer, images)
}

/// Encodes native PGM images as a binary multi-image stream.
pub fn encode_all_native(writer: &mut Vec<u8>, images: &[NetpbmImage]) -> (res: Result<(), ImageError>)
    ensures
        writes_all(NetpbmKind::Pgm, res, old(writer)@, final(writer)@, images@.map_values(|i: NetpbmImage| i@)),
{
    encode_all_native_of_kind(NetpbmKind::Pgm, writer, images)
}

} // verus!
