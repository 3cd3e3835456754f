use kimage::codecs::bmp::{self, BmpColorTableEntry, BmpEncodeOptions, BmpPixelEncoding};
use kimage::codecs::netpbm::NetpbmImage;
use kimage::codecs::{pam, pbm, ppm};
use kimage::{Image, ImageError, ImageView, PixelFormat};

#[test]
fn image_view_of_image_is_accepted_by_image_view_new() {
    let image = Image::new(3, 2, PixelFormat::Rgb8, (0..18).collect()).unwrap();
    let view = image.as_view();
    let rebuilt = ImageView::new(view.width, view.height, view.pixel_format, view.stride, view.data);

    assert_eq!(rebuilt, Ok(view));
    assert_eq!(view.stride, 9);
}

#[test]
fn pam_decode_all_converts_each_native_image_in_order() {
    let data = b"P7\nWIDTH 1\nHEIGHT 1\nDEPTH 1\nMAXVAL 15\nTUPLTYPE GRAYSCALE\nENDHDR\n\x0fP7\nWIDTH 2\nHEIGHT 1\nDEPTH 1\nMAXVAL 255\nTUPLTYPE GRAYSCALE\nENDHDR\n\x01\x02";
    let natives = pam::decode_all_native(data).unwrap();
    let images = pam::decode_all(data).unwrap();

    assert_eq!(images.len(), natives.len());
    for (image, native) in images.iter().zip(natives.iter()) {
        assert_eq!(image, &native.to_image().unwrap());
    }
    assert_eq!(images[0].data, vec![255]);
    assert_eq!(images[1].data, vec![1, 2]);
}

#[test]
fn pam_decode_all_reports_first_failed_conversion() {
    let data = b"P7\nWIDTH 1\nHEIGHT 1\nDEPTH 1\nMAXVAL 255\nTUPLTYPE GRAYSCALE\nENDHDR\n\x01P7\nWIDTH 1\nHEIGHT 1\nDEPTH 1\nMAXVAL 255\nTUPLTYPE HEIGHTMAP\nENDHDR\n\x02";

    assert!(pam::decode_all_native(data).is_ok());
    assert_eq!(pam::decode_all(data).unwrap_err(), ImageError::UnsupportedFormat);
}

#[test]
fn pbm_decode_maps_native_bits_to_gray() {
    let data = b"P4\n3 2\n\x40\xa0";
    let native = pbm::decode_native(data).unwrap();
    let image = pbm::decode(data).unwrap();

    assert_eq!(
        native,
        NetpbmImage::Pbm {
            width: 3,
            height: 2,
            data: vec![0, 1, 0, 1, 0, 1]
        }
    );
    assert_eq!(image.pixel_format, PixelFormat::Gray8);
    assert_eq!(image.data, vec![255, 0, 255, 0, 255, 0]);
}

#[test]
fn ppm_decode_scales_samples_to_full_range() {
    let image = ppm::decode(b"P6\n1 1\n15\n\x0f\x00\x05").unwrap();

    assert_eq!(image.pixel_format, PixelFormat::Rgb8);
    assert_eq!(image.data, vec![255, 0, 85]);
}

#[test]
fn ppm_decode_keeps_full_range_16_bit_samples() {
    let image = ppm::decode(b"P6\n1 1\n65535\n\x12\x34\x00\x01\xff\xfe").unwrap();

    assert_eq!(image.pixel_format, PixelFormat::Rgb16);
    assert_eq!(image.data, vec![0x34, 0x12, 0x01, 0x00, 0xfe, 0xff]);
}

fn entry(red: u8, green: u8, blue: u8) -> BmpColorTableEntry {
    BmpColorTableEntry {
        blue,
        green,
        red,
        reserved: 0,
    }
}

#[test]
fn bmp_auto_encoding_equals_palette_of_distinct_colors() {
    let data = [9, 8, 7, 1, 2, 3, 9, 8, 7, 4, 5, 6];
    let view = ImageView::new(2, 2, PixelFormat::Rgb8, 6, &data).unwrap();
    let auto = bmp::image_view_to_bmp_native(
        view,
        BmpEncodeOptions::new().with_pixel_encoding(BmpPixelEncoding::AutoIndexed8OrRgb24),
    )
    .unwrap();
    let explicit = bmp::image_view_to_bmp_native(
        view,
        BmpEncodeOptions::new().with_pixel_encoding(BmpPixelEncoding::Indexed8 {
            color_table: vec![entry(9, 8, 7), entry(1, 2, 3), entry(4, 5, 6)],
        }),
    )
    .unwrap();

    assert_eq!(auto, explicit);
}

#[test]
fn bmp_auto_encoding_equals_rgb24_beyond_256_colors() {
    let mut data = Vec::new();
    for i in 0..257u32 {
        data.extend_from_slice(&[(i % 256) as u8, (i / 256) as u8, 0]);
    }
    let view = ImageView::new(257, 1, PixelFormat::Rgb8, 257 * 3, &data).unwrap();
    let auto = bmp::image_view_to_bmp_native(
        view,
        BmpEncodeOptions::new().with_pixel_encoding(BmpPixelEncoding::AutoIndexed8OrRgb24),
    )
    .unwrap();
    let rgb = bmp::image_view_to_bmp_native(view, BmpEncodeOptions::new()).unwrap();

    assert_eq!(auto, rgb);
    assert!(auto.color_table.is_empty());
}
