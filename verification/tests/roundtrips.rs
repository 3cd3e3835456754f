use kimage::codecs::bmp::{self, BmpEncodeOptions, BmpOrientation, BmpPixelEncoding};
use kimage::codecs::netpbm::NetpbmImage;
use kimage::codecs::pam::{self, PamEncodeTupleType, PamImage, PamTupleType};
use kimage::codecs::{pbm, pgm, ppm};
use kimage::{Image, ImageError, ImageView, PixelFormat};

#[test]
fn bmp_top_down_indexed_roundtrip_preserves_pixels() {
    let data = [1, 2, 3, 4, 5, 6, 1, 2, 3, 9, 9, 9, 4, 5, 6, 1, 2, 3];
    let image = ImageView::new(3, 2, PixelFormat::Rgb8, 9, &data).unwrap();
    let options = BmpEncodeOptions::new()
        .with_orientation(BmpOrientation::TopDown)
        .with_pixel_encoding(BmpPixelEncoding::AutoIndexed8OrRgb24)
        .with_resolution(7, -7);
    let mut output = Vec::new();

    bmp::encode(&mut output, image, options).unwrap();
    let native = bmp::decode_native(&output).unwrap();
    native.validate_file_layout().unwrap();
    let decoded = bmp::decode(&output).unwrap();

    assert_eq!(native.color_table.len(), 3);
    assert_eq!(decoded.data, data);
}

#[test]
fn bmp_native_roundtrip_preserves_fields() {
    let data = [10, 20, 30, 40, 50, 60];
    let image = ImageView::new(1, 2, PixelFormat::Rgb8, 3, &data).unwrap();
    let native = bmp::image_view_to_bmp_native(image, BmpEncodeOptions::default()).unwrap();
    let mut output = Vec::new();

    bmp::encode_native(&mut output, &native).unwrap();

    assert_eq!(output.len(), 54 + 8);
    assert_eq!(bmp::decode_native(&output).unwrap(), native);
}

#[test]
fn bmp_rejects_truncated_header_as_unexpected_eof() {
    let error = bmp::decode_native(b"BM\x01\x02").unwrap_err();

    assert_eq!(
        error,
        ImageError::Io {
            kind: kimage::IoErrorKind::UnexpectedEof
        }
    );
}

#[test]
fn pgm_stream_roundtrip_preserves_images() {
    let images = [
        NetpbmImage::Pgm {
            width: 1,
            height: 1,
            maxval: 1000,
            data: vec![0xe8, 0x03],
        },
        NetpbmImage::Pgm {
            width: 2,
            height: 1,
            maxval: 7,
            data: vec![7, 0],
        },
    ];
    let mut output = Vec::new();

    pgm::encode_all_native(&mut output, &images).unwrap();

    assert_eq!(pgm::decode_all_native(&output).unwrap(), images);
}

#[test]
fn ppm_16_bit_image_roundtrip_preserves_pixels() {
    let data = [0x34, 0x12, 0xff, 0xff, 0, 0x80];
    let image = ImageView::new(1, 1, PixelFormat::Rgb16, 6, &data).unwrap();
    let mut output = Vec::new();

    ppm::encode(&mut output, image).unwrap();
    let decoded = ppm::decode(&output).unwrap();

    assert_eq!(decoded, Image::new(1, 1, PixelFormat::Rgb16, data.to_vec()).unwrap());
}

#[test]
fn pbm_roundtrip_thresholds_pixels() {
    let data = [0, 127, 128, 255, 3, 200, 64, 190, 1];
    let image = ImageView::new(9, 1, PixelFormat::Gray8, 9, &data).unwrap();
    let mut output = Vec::new();

    pbm::encode(&mut output, image).unwrap();
    let decoded = pbm::decode(&output).unwrap();

    assert_eq!(decoded.data, [0, 0, 255, 255, 0, 255, 0, 255, 0]);
}

#[test]
fn pam_black_and_white_alpha_roundtrip_preserves_pixels() {
    let data = [255, 0, 0, 255];
    let image = ImageView::new(2, 1, PixelFormat::GrayAlpha8, 4, &data).unwrap();
    let mut output = Vec::new();

    pam::encode(&mut output, image, PamEncodeTupleType::BlackAndWhiteAlpha).unwrap();
    let decoded = pam::decode(&output).unwrap();

    assert_eq!(decoded.pixel_format, PixelFormat::GrayAlpha8);
    assert_eq!(decoded.data, data);
}

#[test]
fn pam_unknown_tuple_type_roundtrip_preserves_name() {
    let image = PamImage {
        width: 1,
        height: 1,
        depth: 2,
        maxval: 255,
        tuple_type: Some(PamTupleType::Other("GRÅ SKALA".into())),
        data: vec![1, 2],
    };
    let mut output = Vec::new();

    pam::encode_native(&mut output, &image).unwrap();

    assert_eq!(pam::decode_native(&output).unwrap(), image);
}

#[test]
fn pam_rejects_non_utf8_tuple_type() {
    let input = b"P7\nWIDTH 1\nHEIGHT 1\nDEPTH 1\nMAXVAL 255\nTUPLTYPE \xff\xfe\nENDHDR\n\0";
    let error = pam::decode_native(input).unwrap_err();

    assert_eq!(
        error,
        ImageError::InvalidHeader {
            reason: "header contains non-UTF-8 tuple type"
        }
    );
}

#[test]
fn pam_refused_stream_leaves_writer_untouched() {
    let good = PamImage {
        width: 1,
        height: 1,
        depth: 1,
        maxval: 255,
        tuple_type: None,
        data: vec![9],
    };
    let bad = PamImage {
        maxval: 0,
        ..good.clone()
    };
    let mut output = vec![42];

    let error = pam::encode_all_native(&mut output, &[good, bad]).unwrap_err();

    assert_eq!(
        error,
        ImageError::InvalidHeader {
            reason: "max value must be between 1 and 65535"
        }
    );
    assert_eq!(output, [42]);
}
