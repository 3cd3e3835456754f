use kimage::codecs::pam::{
    decode, decode_all, decode_all_native, decode_native, encode, encode_all, encode_all_native,
    encode_native, PamEncodeTupleType, PamImage, PamTupleType,
};
use kimage::{Image, ImageError, ImageView, PixelFormat};



#[test]
fn decode_native_reads_grayscale_pam() {
    let input =
        b"P7\nWIDTH 2\nHEIGHT 1\nDEPTH 1\nMAXVAL 15\nTUPLTYPE GRAYSCALE\nENDHDR\n\0\x0f";
    let image = decode_native(&input[..]).unwrap();

    assert_eq!(
        image,
        PamImage {
            width: 2,
            height: 1,
            depth: 1,
            maxval: 15,
            tuple_type: Some(PamTupleType::Grayscale),
            data: vec![0, 15],
        }
    );
}

#[test]
fn decode_native_reads_rgb_16_bit_samples_as_little_endian() {
    let input =
        b"P7\nWIDTH 1\nHEIGHT 1\nDEPTH 3\nMAXVAL 65535\nTUPLTYPE RGB\nENDHDR\n\x12\x34\x56\x78\xff\xff";
    let image = decode_native(&input[..]).unwrap();

    assert_eq!(
        image,
        PamImage {
            width: 1,
            height: 1,
            depth: 3,
            maxval: 65535,
            tuple_type: Some(PamTupleType::Rgb),
            data: vec![0x34, 0x12, 0x78, 0x56, 0xff, 0xff],
        }
    );
}

#[test]
fn decode_native_reads_header_without_tuple_type() {
    let input = b"P7\nWIDTH 1\nHEIGHT 1\nDEPTH 2\nMAXVAL 255\nENDHDR\n\x01\x02";
    let image = decode_native(&input[..]).unwrap();

    assert_eq!(
        image,
        PamImage {
            width: 1,
            height: 1,
            depth: 2,
            maxval: 255,
            tuple_type: None,
            data: vec![1, 2],
        }
    );
}

#[test]
fn decode_native_preserves_unknown_tuple_type() {
    let input = b"P7\nWIDTH 1\nHEIGHT 1\nDEPTH 2\nMAXVAL 255\nTUPLTYPE FOO\nTUPLTYPE BAR\nENDHDR\n\x01\x02";
    let image = decode_native(&input[..]).unwrap();

    assert_eq!(
        image.tuple_type,
        Some(PamTupleType::Other("FOO BAR".into()))
    );
    assert_eq!(image.data, [1, 2]);
}

#[test]
fn decode_all_native_reads_multi_image_stream() {
    let input = b"P7\nWIDTH 1\nHEIGHT 1\nDEPTH 1\nMAXVAL 255\nTUPLTYPE GRAYSCALE\nENDHDR\n\0P7\nWIDTH 1\nHEIGHT 1\nDEPTH 1\nMAXVAL 255\nTUPLTYPE GRAYSCALE\nENDHDR\n\xff";
    let images = decode_all_native(&input[..]).unwrap();

    assert_eq!(
        images,
        [
            PamImage {
                width: 1,
                height: 1,
                depth: 1,
                maxval: 255,
                tuple_type: Some(PamTupleType::Grayscale),
                data: vec![0],
            },
            PamImage {
                width: 1,
                height: 1,
                depth: 1,
                maxval: 255,
                tuple_type: Some(PamTupleType::Grayscale),
                data: vec![255],
            },
        ]
    );
}

#[test]
fn decode_all_reads_multi_image_stream_as_images() {
    let input = b"P7\nWIDTH 1\nHEIGHT 1\nDEPTH 3\nMAXVAL 255\nTUPLTYPE RGB\nENDHDR\n\0\0\0P7\nWIDTH 1\nHEIGHT 1\nDEPTH 3\nMAXVAL 255\nTUPLTYPE RGB\nENDHDR\n\xff\xff\xff";
    let images = decode_all(&input[..]).unwrap();

    assert_eq!(images.len(), 2);
    assert_eq!(images[0].pixel_format, PixelFormat::Rgb8);
    assert_eq!(images[0].data, [0, 0, 0]);
    assert_eq!(images[1].pixel_format, PixelFormat::Rgb8);
    assert_eq!(images[1].data, [255, 255, 255]);
}

#[test]
fn decode_all_rejects_unsupported_image_conversion() {
    let input = b"P7\nWIDTH 1\nHEIGHT 1\nDEPTH 1\nMAXVAL 255\nTUPLTYPE HEIGHTMAP\nENDHDR\n\x80";
    let error = decode_all(&input[..]).unwrap_err();

    assert_eq!(error, ImageError::UnsupportedFormat);
}

#[test]
fn decode_converts_black_and_white_to_gray8() {
    let input =
        b"P7\nWIDTH 2\nHEIGHT 1\nDEPTH 1\nMAXVAL 1\nTUPLTYPE BLACKANDWHITE\nENDHDR\n\0\x01";
    let image = decode(&input[..]).unwrap();

    assert_eq!(image.pixel_format, PixelFormat::Gray8);
    assert_eq!(image.data, [0, 255]);
}

#[test]
fn decode_normalizes_grayscale_to_gray8() {
    let input =
        b"P7\nWIDTH 2\nHEIGHT 1\nDEPTH 1\nMAXVAL 15\nTUPLTYPE GRAYSCALE\nENDHDR\n\0\x0f";
    let image = decode(&input[..]).unwrap();

    assert_eq!(image.pixel_format, PixelFormat::Gray8);
    assert_eq!(image.data, [0, 255]);
}

#[test]
fn decode_normalizes_rgb_to_rgb16() {
    let input =
        b"P7\nWIDTH 1\nHEIGHT 1\nDEPTH 3\nMAXVAL 1000\nTUPLTYPE RGB\nENDHDR\n\x03\xe8\x01\xf4\0\0";
    let image = decode(&input[..]).unwrap();

    assert_eq!(image.pixel_format, PixelFormat::Rgb16);
    assert_eq!(image.data, [0xff, 0xff, 0x00, 0x80, 0, 0]);
}

#[test]
fn decode_converts_rgb_alpha_to_rgba8() {
    let input =
        b"P7\nWIDTH 1\nHEIGHT 1\nDEPTH 4\nMAXVAL 15\nTUPLTYPE RGB_ALPHA\nENDHDR\n\x0f\0\x08\x04";
    let image = decode(&input[..]).unwrap();

    assert_eq!(image.pixel_format, PixelFormat::Rgba8);
    assert_eq!(image.data, [255, 0, 136, 68]);
}

#[test]
fn decode_converts_black_and_white_alpha_to_gray_alpha8() {
    let input =
        b"P7\nWIDTH 1\nHEIGHT 1\nDEPTH 2\nMAXVAL 1\nTUPLTYPE BLACKANDWHITE_ALPHA\nENDHDR\n\x01\0";
    let image = decode(&input[..]).unwrap();

    assert_eq!(image.pixel_format, PixelFormat::GrayAlpha8);
    assert_eq!(image.data, [255, 0]);
}

#[test]
fn decode_converts_grayscale_alpha_to_gray_alpha16() {
    let input =
        b"P7\nWIDTH 1\nHEIGHT 1\nDEPTH 2\nMAXVAL 1000\nTUPLTYPE GRAYSCALE_ALPHA\nENDHDR\n\x03\xe8\x01\xf4";
    let image = decode(&input[..]).unwrap();

    assert_eq!(image.pixel_format, PixelFormat::GrayAlpha16);
    assert_eq!(image.data, [0xff, 0xff, 0x00, 0x80]);
}

#[test]
fn decode_converts_rgb_alpha_to_rgba16() {
    let input =
        b"P7\nWIDTH 1\nHEIGHT 1\nDEPTH 4\nMAXVAL 1000\nTUPLTYPE RGB_ALPHA\nENDHDR\n\x03\xe8\x01\xf4\0\0\x03\xe8";
    let image = decode(&input[..]).unwrap();

    assert_eq!(image.pixel_format, PixelFormat::Rgba16);
    assert_eq!(image.data, [0xff, 0xff, 0x00, 0x80, 0, 0, 0xff, 0xff]);
}

#[test]
fn decode_rejects_unknown_tuple_type_for_image_conversion() {
    let input = b"P7\nWIDTH 1\nHEIGHT 1\nDEPTH 1\nMAXVAL 255\nTUPLTYPE HEIGHTMAP\nENDHDR\n\x80";
    let error = decode(&input[..]).unwrap_err();

    assert_eq!(error, ImageError::UnsupportedFormat);
}

#[test]
fn encode_writes_rgb8_image_as_rgb_pam() {
    let data = [255, 0, 128];
    let image = ImageView::new(1, 1, PixelFormat::Rgb8, 3, &data).unwrap();
    let mut output = Vec::new();

    encode(&mut output, image, PamEncodeTupleType::Rgb).unwrap();

    assert_eq!(
        output,
        b"P7\nWIDTH 1\nHEIGHT 1\nDEPTH 3\nMAXVAL 255\nTUPLTYPE RGB\nENDHDR\n\xff\0\x80"
    );
}

#[test]
fn encode_writes_rgba8_image_as_rgb_alpha_pam() {
    let data = [255, 0, 128, 64];
    let image = ImageView::new(1, 1, PixelFormat::Rgba8, 4, &data).unwrap();
    let mut output = Vec::new();

    encode(&mut output, image, PamEncodeTupleType::RgbAlpha).unwrap();

    assert_eq!(
        output,
        b"P7\nWIDTH 1\nHEIGHT 1\nDEPTH 4\nMAXVAL 255\nTUPLTYPE RGB_ALPHA\nENDHDR\n\xff\0\x80\x40"
    );
}

#[test]
fn encode_writes_gray8_image_as_black_and_white_pam() {
    let data = [0, 255];
    let image = ImageView::new(2, 1, PixelFormat::Gray8, 2, &data).unwrap();
    let mut output = Vec::new();

    encode(&mut output, image, PamEncodeTupleType::BlackAndWhite).unwrap();

    assert_eq!(
        output,
        b"P7\nWIDTH 2\nHEIGHT 1\nDEPTH 1\nMAXVAL 1\nTUPLTYPE BLACKANDWHITE\nENDHDR\n\0\x01"
    );
}

#[test]
fn encode_writes_gray_alpha16_image_as_grayscale_alpha_pam() {
    let data = [0x34, 0x12, 0xff, 0xff];
    let image = ImageView::new(1, 1, PixelFormat::GrayAlpha16, 4, &data).unwrap();
    let mut output = Vec::new();

    encode(&mut output, image, PamEncodeTupleType::GrayscaleAlpha).unwrap();

    assert_eq!(
        output,
        b"P7\nWIDTH 1\nHEIGHT 1\nDEPTH 2\nMAXVAL 65535\nTUPLTYPE GRAYSCALE_ALPHA\nENDHDR\n\x12\x34\xff\xff"
    );
}

#[test]
fn encode_writes_rgba16_image_as_rgb_alpha_pam() {
    let data = [0x34, 0x12, 0x78, 0x56, 0xff, 0xff, 0, 0];
    let image = ImageView::new(1, 1, PixelFormat::Rgba16, 8, &data).unwrap();
    let mut output = Vec::new();

    encode(&mut output, image, PamEncodeTupleType::RgbAlpha).unwrap();

    assert_eq!(
        output,
        b"P7\nWIDTH 1\nHEIGHT 1\nDEPTH 4\nMAXVAL 65535\nTUPLTYPE RGB_ALPHA\nENDHDR\n\x12\x34\x56\x78\xff\xff\0\0"
    );
}

#[test]
fn encode_rejects_non_black_and_white_samples() {
    let data = [128];
    let image = ImageView::new(1, 1, PixelFormat::Gray8, 1, &data).unwrap();
    let error = encode(&mut Vec::new(), image, PamEncodeTupleType::BlackAndWhite).unwrap_err();

    assert_eq!(
        error,
        ImageError::InvalidData {
            reason: "black-and-white PAM conversion requires samples to be 0 or 255"
        }
    );
}

#[test]
fn encode_rejects_pixel_format_not_matching_tuple_type() {
    let data = [255, 0, 128];
    let image = ImageView::new(1, 1, PixelFormat::Rgb8, 3, &data).unwrap();
    let error = encode(&mut Vec::new(), image, PamEncodeTupleType::Grayscale).unwrap_err();

    assert_eq!(
        error,
        ImageError::UnsupportedPixelFormat {
            pixel_format: PixelFormat::Rgb8
        }
    );
}

#[test]
fn encode_all_writes_multi_image_stream() {
    let first_data = [0, 0, 0];
    let second_data = [255, 255, 255];
    let images = [
        ImageView::new(1, 1, PixelFormat::Rgb8, 3, &first_data).unwrap(),
        ImageView::new(1, 1, PixelFormat::Rgb8, 3, &second_data).unwrap(),
    ];
    let mut output = Vec::new();

    encode_all(&mut output, &images, PamEncodeTupleType::Rgb).unwrap();

    assert_eq!(
        decode_all(&output[..]).unwrap(),
        [
            Image::new(1, 1, PixelFormat::Rgb8, vec![0, 0, 0]).unwrap(),
            Image::new(1, 1, PixelFormat::Rgb8, vec![255, 255, 255]).unwrap(),
        ]
    );
}

#[test]
fn encode_all_rejects_invalid_image_without_writing() {
    let image = ImageView {
        width: 0,
        height: 1,
        pixel_format: PixelFormat::Rgb8,
        stride: 0,
        data: &[],
    };
    let mut output = Vec::new();
    let error = encode_all(&mut output, &[image], PamEncodeTupleType::Rgb).unwrap_err();

    assert_eq!(
        error,
        ImageError::InvalidData {
            reason: "width and height must be greater than zero"
        }
    );
    assert!(output.is_empty());
}

#[test]
fn encode_native_writes_16_bit_samples_as_big_endian() {
    let image = PamImage {
        width: 1,
        height: 1,
        depth: 3,
        maxval: 65535,
        tuple_type: Some(PamTupleType::Rgb),
        data: vec![0x34, 0x12, 0x78, 0x56, 0xff, 0xff],
    };
    let mut output = Vec::new();

    encode_native(&mut output, &image).unwrap();

    assert_eq!(
        output,
        b"P7\nWIDTH 1\nHEIGHT 1\nDEPTH 3\nMAXVAL 65535\nTUPLTYPE RGB\nENDHDR\n\x12\x34\x56\x78\xff\xff"
    );
}

#[test]
fn encode_all_native_writes_multi_image_stream() {
    let images = [
        PamImage {
            width: 1,
            height: 1,
            depth: 1,
            maxval: 255,
            tuple_type: Some(PamTupleType::Grayscale),
            data: vec![0],
        },
        PamImage {
            width: 1,
            height: 1,
            depth: 1,
            maxval: 255,
            tuple_type: Some(PamTupleType::Grayscale),
            data: vec![255],
        },
    ];
    let mut output = Vec::new();

    encode_all_native(&mut output, &images).unwrap();

    assert_eq!(decode_all_native(&output[..]).unwrap(), images);
}

#[test]
fn encode_all_native_rejects_invalid_image_without_writing() {
    let images = [PamImage {
        width: 1,
        height: 1,
        depth: 1,
        maxval: 255,
        tuple_type: Some(PamTupleType::Grayscale),
        data: vec![0, 1],
    }];
    let mut output = Vec::new();
    let error = encode_all_native(&mut output, &images).unwrap_err();

    assert_eq!(
        error,
        ImageError::InvalidBufferLength {
            expected: 1,
            actual: 2
        }
    );
    assert!(output.is_empty());
}

#[test]
fn decode_rejects_missing_required_header() {
    let input = b"P7\nWIDTH 1\nHEIGHT 1\nMAXVAL 255\nENDHDR\n\0";
    let error = decode_native(&input[..]).unwrap_err();

    assert_eq!(
        error,
        ImageError::InvalidHeader {
            reason: "missing DEPTH"
        }
    );
}

#[test]
fn decode_rejects_duplicate_required_header() {
    let input = b"P7\nWIDTH 1\nWIDTH 1\nHEIGHT 1\nDEPTH 1\nMAXVAL 255\nENDHDR\n\0";
    let error = decode_native(&input[..]).unwrap_err();

    assert_eq!(
        error,
        ImageError::InvalidHeader {
            reason: "duplicate PAM header field"
        }
    );
}

#[test]
fn decode_rejects_unknown_header_field() {
    let input = b"P7\nWIDTH 1\nHEIGHT 1\nDEPTH 1\nMAXVAL 255\nFOO 1\nENDHDR\n\0";
    let error = decode_native(&input[..]).unwrap_err();

    assert_eq!(
        error,
        ImageError::InvalidHeader {
            reason: "unknown PAM header field"
        }
    );
}

#[test]
fn decode_rejects_missing_endhdr() {
    let input = b"P7\nWIDTH 1\nHEIGHT 1\nDEPTH 1\nMAXVAL 255\n\0";
    let error = decode_native(&input[..]).unwrap_err();

    assert_eq!(
        error,
        ImageError::InvalidHeader {
            reason: "PAM header line is not newline terminated"
        }
    );
}

#[test]
fn decode_rejects_tuple_type_depth_mismatch() {
    let input = b"P7\nWIDTH 1\nHEIGHT 1\nDEPTH 2\nMAXVAL 255\nTUPLTYPE GRAYSCALE\nENDHDR\n\0\0";
    let error = decode_native(&input[..]).unwrap_err();

    assert_eq!(
        error,
        ImageError::InvalidHeader {
            reason: "PAM tuple type does not match depth"
        }
    );
}

#[test]
fn decode_rejects_zero_maxval() {
    let input = b"P7\nWIDTH 1\nHEIGHT 1\nDEPTH 1\nMAXVAL 0\nENDHDR\n\0";
    let error = decode_native(&input[..]).unwrap_err();

    assert_eq!(
        error,
        ImageError::InvalidHeader {
            reason: "max value must be between 1 and 65535"
        }
    );
}

#[test]
fn decode_rejects_short_raster() {
    let input = b"P7\nWIDTH 2\nHEIGHT 1\nDEPTH 1\nMAXVAL 255\nENDHDR\n\0";
    let error = decode_native(&input[..]).unwrap_err();

    assert_eq!(
        error,
        ImageError::InvalidBufferLength {
            expected: 2,
            actual: 1
        }
    );
}

#[test]
fn decode_rejects_sample_above_maxval() {
    let input = b"P7\nWIDTH 1\nHEIGHT 1\nDEPTH 1\nMAXVAL 15\nENDHDR\n\x10";
    let error = decode_native(&input[..]).unwrap_err();

    assert_eq!(
        error,
        ImageError::InvalidData {
            reason: "sample value exceeds max value"
        }
    );
}
