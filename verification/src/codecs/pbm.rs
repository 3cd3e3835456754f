use vstd::prelude::*;

use crate::codecs::netpbm::{
    NetpbmImage, NetpbmKind, decode_one_spec, decode_ascii_spec, decode_stream, native_result,
    natives_result, to_image_spec, to_images_spec, encode_view_spec, encode_native_spec, writes,
    writes_all, convert_views, HeaderParser, decode_one_native, decode_ascii_of_kind,
    decode_all_of_kind, netpbm_to_image, netpbm_all_to_images, encode_view, encode_native_of_kind,
    encode_all_native_of_kind, encode_all_views, images_result,
};
use crate::error::ImageError;
use crate::image::{Image, ImageView, image_result};

verus! {

/// Decodes a binary PBM image.
pub fn decode(data: &[u8]) -> (res: Result<Image, ImageError>)
    ensures
        image_result(res) == to_image_spec(decode_one_spec(NetpbmKind::Pbm, data@, 0).0),
{
    match decode_native(data) {
        Ok(image) => netpbm_to_image(image),
        Err(e) => Err(e),
    }
}

/// Decodes a binary PBM image without normalizing its samples.
pub fn decode_native(data: &[u8]) -> (res: Result<NetpbmImage, ImageError>)
    ensures
        native_result(res) == decode_one_spec(NetpbmKind::Pbm, data@, 0).0,
{
    let mut parser = HeaderParser::new(data);
    decode_one_native(NetpbmKind::Pbm, data, &mut parser)
}

/// Decodes all binary PBM images from a multi-image stream.
pub fn decode_all_native(data: &[u8]) -> (res: Result<Vec<NetpbmImage>, ImageError>)
    ensures
        natives_result(res) == decode_stream(NetpbmKind::Pbm, data@, 0),
{
    decode_all_of_kind(NetpbmKind::Pbm, data)
}

/// Decodes all binary PBM images from a multi-image stream, normalized.
pub fn decode_all(data: &[u8]) -> (res: Result<Vec<Image>, ImageError>)
    ensures
        images_result(res) == to_images_spec(decode_stream(NetpbmKind::Pbm, data@, 0)),
{
    match decode_all_native(data) {
        Ok(images) => netpbm_all_to_images(&images),
        Err(e) => Err(e),
    }
}

/// Decodes an ASCII PBM image.
pub fn decode_ascii(data: &[u8]) -> (res: Result<Image, ImageError>)
    ensures
        image_result(res) == to_image_spec(decode_ascii_spec(NetpbmKind::Pbm, data@)),
{
    match decode_ascii_native(data) {
        Ok(image) => netpbm_to_image(image),
        Err(e) => Err(e),
    }
}

/// Decodes an ASCII PBM image without normalizing its samples.
pub fn decode_ascii_native(data: &[u8]) -> (res: Result<NetpbmImage, ImageError>)
    ensures
        native_result(res) == decode_ascii_spec(NetpbmKind::Pbm, data@),
{
    decode_ascii_of_kind(NetpbmKind::Pbm, data)
}

/// Encodes an image view as a binary PBM image.
///
/// `PixelFormat::Gray8` values are thresholded: values below 128 become black,
/// and values 128 or above become white.
pub fn encode(writer: &mut Vec<u8>, image: ImageView<'_>) -> (res: Result<(), ImageError>)
    ensures
        writes(res, old(writer)@, final(writer)@, encode_view_spec(NetpbmKind::Pbm, false, image)),
{
    encode_view(NetpbmKind::Pbm, false, writer, image)
}

/// Encodes an image view as an ASCII PBM image.
///
/// `PixelFormat::Gray8` values are thresholded: values below 128 become black,
/// and values 128 or above become white.
pub fn encode_ascii(writer: &mut Vec<u8>, image: ImageView<'_>) -> (res: Result<(), ImageError>)
    ensures
        writes(res, old(writer)@, final(writer)@, encode_view_spec(NetpbmKind::Pbm, true, image)),
{
    encode_view(NetpbmKind::Pbm, true, writer, image)
}

/// Encodes a native PBM image as a binary PBM image.
pub fn encode_native(writer: &mut Vec<u8>, image: &NetpbmImage) -> (res: Result<(), ImageError>)
    ensures
        writes(res, old(writer)@, final(writer)@, encode_native_spec(NetpbmKind::Pbm, false, image@)),
{
    encode_native_of_kind(NetpbmKind::Pbm, false, writer, image)
}

/// Encodes a native PBM image as an ASCII PBM image.
pub fn encode_ascii_native(writer: &mut Vec<u8>, image: &NetpbmImage) -> (res: Result<(), ImageError>)
    ensures
        writes(res, old(writer)@, final(writer)@, encode_native_spec(NetpbmKind::Pbm, true, image@)),
{
    encode_native_of_kind(NetpbmKind::Pbm, true, writer, image)
}

/// Encodes image views as a binary PBM multi-image stream; nothing is
/// written when a view cannot be converted.
pub fn encode_all(writer: &mut Vec<u8>, images: &[ImageView<'_>]) -> (res: Result<(), ImageError>)
    ensures
        match convert_views(NetpbmKind::Pbm, images@) {
            Err(e) => res == Err::<(), _>(e) && final(writer)@ == old(writer)@,
            Ok(models) => writes_all(NetpbmKind::Pbm, res, old(writer)@, final(writer)@, models),
        },
{
    encode_all_views(NetpbmKind::Pbm, writer, images)
}

/// Encodes native PBM images as a binary multi-image stream.
pub fn encode_all_native(writer: &mut Vec<u8>, images: &[NetpbmImage]) -> (res: Result<(), ImageError>)
    ensures
        writes_all(NetpbmKind::Pbm, res, old(writer)@, final(writer)@, images@.map_values(|i: NetpbmImage| i@)),
{
    encode_all_native_of_kind(NetpbmKind::Pbm, writer, images)
}

} // verus!
