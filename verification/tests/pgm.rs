use kimage::codecs::netpbm::NetpbmImage;
use kimage::codecs::pgm::{
    decode, decode_all_native, decode_ascii, decode_ascii_native, decode_native, encode,
    encode_all, encode_all_native, encode_ascii, encode_ascii_native, encode_native,
};
use kimage::{ImageError, ImageView, PixelFormat};




#[test]
fn decode_reads_pgm_p5_gray8_image() {
    let input = b"P5\n2 2\n255\n\x00\x55\xaa\xff";
    let image = decode(&input[..]).unwrap();

    assert_eq!(image.width, 2);
    assert_eq!(image.height, 2);
    assert_eq!(image.pixel_format, PixelFormat::Gray8);
    assert_eq!(image.data, [0, 85, 170, 255]);
}

#[test]
fn decode_native_reads_pgm_p5_with_max_value() {
    let input = b"P5\n2 1\n15\n\x00\x0f";
    let image = decode_native(&input[..]).unwrap();

    assert_eq!(
        image,
        NetpbmImage::Pgm {
            width: 2,
            height: 1,
            maxval: 15,
            data: vec![0, 15]
        }
    );
}

#[test]
fn pgm_decode_all_native_returns_empty_vec_for_empty_input() {
    let images = decode_all_native(&[]).unwrap();

    assert!(images.is_empty());
}

#[test]
fn decode_all_native_reads_single_pgm_p5_image() {
    let input = b"P5\n2 1\n15\n\x00\x0f";
    let images = decode_all_native(&input[..]).unwrap();

    assert_eq!(
        images,
        [NetpbmImage::Pgm {
            width: 2,
            height: 1,
            maxval: 15,
            data: vec![0, 15]
        }]
    );
}

#[test]
fn decode_all_native_reads_concatenated_pgm_p5_images() {
    let input = b"P5\n2 1\n15\n\x00\x0fP5\n1 1\n255\n\x80";
    let images = decode_all_native(&input[..]).unwrap();

    assert_eq!(
        images,
        [
            NetpbmImage::Pgm {
                width: 2,
                height: 1,
                maxval: 15,
                data: vec![0, 15]
            },
            NetpbmImage::Pgm {
                width: 1,
                height: 1,
                maxval: 255,
                data: vec![128]
            }
        ]
    );
}

#[test]
fn decode_all_native_preserves_16_bit_samples() {
    let input = b"P5\n1 1\n65535\n\x12\x34P5\n1 1\n256\n\x01\0";
    let images = decode_all_native(&input[..]).unwrap();

    assert_eq!(
        images,
        [
            NetpbmImage::Pgm {
                width: 1,
                height: 1,
                maxval: 65535,
                data: vec![0x34, 0x12]
            },
            NetpbmImage::Pgm {
                width: 1,
                height: 1,
                maxval: 256,
                data: vec![0x00, 0x01]
            }
        ]
    );
}

#[test]
fn pgm_decode_all_native_accepts_whitespace_and_comments_between_images() {
    let input = b"P5\n1 1\n255\n\x00\n# next image\nP5\n1 1\n255\n\xff";
    let images = decode_all_native(&input[..]).unwrap();

    assert_eq!(
        images,
        [
            NetpbmImage::Pgm {
                width: 1,
                height: 1,
                maxval: 255,
                data: vec![0]
            },
            NetpbmImage::Pgm {
                width: 1,
                height: 1,
                maxval: 255,
                data: vec![255]
            }
        ]
    );
}

#[test]
fn pgm_decode_all_native_rejects_mixed_magic() {
    let input = b"P5\n1 1\n255\n\0P6\n1 1\n255\n\0\0\0";
    let error = decode_all_native(&input[..]).unwrap_err();

    assert_eq!(error, ImageError::UnsupportedFormat);
}

#[test]
fn pgm_decode_all_native_rejects_broken_second_image() {
    let input = b"P5\n1 1\n255\n\0P5\n2 1\n255\n\x80";
    let error = decode_all_native(&input[..]).unwrap_err();

    assert_eq!(
        error,
        ImageError::InvalidBufferLength {
            expected: 2,
            actual: 1
        }
    );
}

#[test]
fn decode_native_reads_pgm_p5_16_bit_samples_as_little_endian() {
    let input = b"P5\n2 1\n65535\n\x12\x34\xff\xff";
    let image = decode_native(&input[..]).unwrap();

    assert_eq!(
        image,
        NetpbmImage::Pgm {
            width: 2,
            height: 1,
            maxval: 65535,
            data: vec![0x34, 0x12, 0xff, 0xff]
        }
    );
}

#[test]
fn decode_reads_pgm_p5_16_bit_as_gray16_image() {
    let input = b"P5\n2 1\n65535\n\x12\x34\xff\xff";
    let image = decode(&input[..]).unwrap();

    assert_eq!(image.width, 2);
    assert_eq!(image.height, 1);
    assert_eq!(image.pixel_format, PixelFormat::Gray16);
    assert_eq!(image.data, [0x34, 0x12, 0xff, 0xff]);
}

#[test]
fn decode_normalizes_pgm_p5_max_value_to_gray8() {
    let input = b"P5\n4 1\n15\n\x00\x05\x0a\x0f";
    let image = decode(&input[..]).unwrap();

    assert_eq!(image.width, 4);
    assert_eq!(image.height, 1);
    assert_eq!(image.pixel_format, PixelFormat::Gray8);
    assert_eq!(image.data, [0, 85, 170, 255]);
}

#[test]
fn decode_normalizes_pgm_p5_max_value_with_nearest_rounding() {
    let input = b"P5\n1 1\n10\n\x05";
    let image = decode(&input[..]).unwrap();

    assert_eq!(image.data, [128]);
}

#[test]
fn pgm_decode_accepts_comments_before_header_tokens() {
    let input = b"P5\n# comment\n2 # width\n1\n255\n\x10\x20";
    let image = decode(&input[..]).unwrap();

    assert_eq!(image.width, 2);
    assert_eq!(image.height, 1);
    assert_eq!(image.data, [16, 32]);
}

#[test]
fn pgm_decode_accepts_crlf_raster_separator() {
    let input = b"P5\r\n1 1\r\n255\r\n\x80";
    let image = decode(&input[..]).unwrap();

    assert_eq!(image.width, 1);
    assert_eq!(image.height, 1);
    assert_eq!(image.data, [128]);
}

#[test]
fn decode_rejects_non_pgm_p5_magic() {
    let input = b"P2\n1 1\n255\n0";
    let error = decode(&input[..]).unwrap_err();

    assert_eq!(error, ImageError::UnsupportedFormat);
}

#[test]
fn pgm_decode_rejects_zero_dimensions() {
    let input = b"P5\n0 1\n255\n";
    let error = decode(&input[..]).unwrap_err();

    assert_eq!(
        error,
        ImageError::InvalidHeader {
            reason: "width and height must be greater than zero"
        }
    );
}

#[test]
fn pgm_decode_rejects_short_16_bit_raster_data() {
    let input = b"P5\n1 1\n65535\n\0";
    let error = decode(&input[..]).unwrap_err();

    assert_eq!(
        error,
        ImageError::InvalidBufferLength {
            expected: 2,
            actual: 1
        }
    );
}

#[test]
fn pgm_decode_rejects_short_raster_data() {
    let input = b"P5\n2 1\n255\n\x01";
    let error = decode(&input[..]).unwrap_err();

    assert_eq!(
        error,
        ImageError::InvalidBufferLength {
            expected: 2,
            actual: 1
        }
    );
}

#[test]
fn encode_writes_pgm_p5_gray8_image() {
    let data = [0, 255];
    let image = ImageView::new(2, 1, PixelFormat::Gray8, 2, &data).unwrap();
    let mut output = Vec::new();

    encode(&mut output, image).unwrap();

    assert_eq!(output, b"P5\n2 1\n255\n\0\xff");
}

#[test]
fn encode_native_writes_pgm_p5_with_max_value() {
    let image = NetpbmImage::Pgm {
        width: 2,
        height: 1,
        maxval: 15,
        data: vec![0, 15],
    };
    let mut output = Vec::new();

    encode_native(&mut output, &image).unwrap();

    assert_eq!(output, b"P5\n2 1\n15\n\0\x0f");
}

#[test]
fn encode_native_writes_pgm_p5_16_bit_samples_as_big_endian() {
    let image = NetpbmImage::Pgm {
        width: 2,
        height: 1,
        maxval: 65535,
        data: vec![0x34, 0x12, 0xff, 0xff],
    };
    let mut output = Vec::new();

    encode_native(&mut output, &image).unwrap();

    assert_eq!(output, b"P5\n2 1\n65535\n\x12\x34\xff\xff");
}

#[test]
fn pgm_encode_all_native_writes_empty_stream_for_empty_slice() {
    let mut output = Vec::new();

    encode_all_native(&mut output, &[]).unwrap();

    assert!(output.is_empty());
}

#[test]
fn pgm_encode_all_writes_empty_stream_for_empty_slice() {
    let mut output = Vec::new();

    encode_all(&mut output, &[]).unwrap();

    assert!(output.is_empty());
}

#[test]
fn encode_all_writes_pgm_p5_multi_image_stream() {
    let first_data = [0, 255];
    let second_data = [0x34, 0x12, 0xff, 0xff];
    let images = [
        ImageView::new(2, 1, PixelFormat::Gray8, 2, &first_data).unwrap(),
        ImageView::new(2, 1, PixelFormat::Gray16, 4, &second_data).unwrap(),
    ];
    let expected = [
        NetpbmImage::Pgm {
            width: 2,
            height: 1,
            maxval: 255,
            data: vec![0, 255],
        },
        NetpbmImage::Pgm {
            width: 2,
            height: 1,
            maxval: 65535,
            data: vec![0x34, 0x12, 0xff, 0xff],
        },
    ];
    let mut output = Vec::new();

    encode_all(&mut output, &images).unwrap();

    assert_eq!(
        decode_all_native(&output[..]).unwrap(),
        expected
    );
}

#[test]
fn encode_all_rejects_unsupported_pixel_format_without_writing() {
    let data = [0, 0, 0];
    let image = ImageView::new(1, 1, PixelFormat::Rgb8, 3, &data).unwrap();
    let mut output = Vec::new();
    let error = encode_all(&mut output, &[image]).unwrap_err();

    assert_eq!(
        error,
        ImageError::UnsupportedPixelFormat {
            pixel_format: PixelFormat::Rgb8
        }
    );
    assert!(output.is_empty());
}

#[test]
fn encode_all_native_writes_pgm_p5_multi_image_stream() {
    let images = [
        NetpbmImage::Pgm {
            width: 2,
            height: 1,
            maxval: 15,
            data: vec![0, 15],
        },
        NetpbmImage::Pgm {
            width: 2,
            height: 1,
            maxval: 65535,
            data: vec![0x34, 0x12, 0xff, 0xff],
        },
    ];
    let mut output = Vec::new();

    encode_all_native(&mut output, &images).unwrap();

    assert_eq!(decode_all_native(&output[..]).unwrap(), images);
}

#[test]
fn pgm_encode_all_native_rejects_mixed_format() {
    let images = [
        NetpbmImage::Pgm {
            width: 1,
            height: 1,
            maxval: 255,
            data: vec![0],
        },
        NetpbmImage::Ppm {
            width: 1,
            height: 1,
            maxval: 255,
            data: vec![0, 0, 0],
        },
    ];
    let error = encode_all_native(&mut Vec::new(), &images).unwrap_err();

    assert_eq!(error, ImageError::UnsupportedFormat);
}

#[test]
fn encode_writes_pgm_p5_gray16_image_as_big_endian() {
    let data = [0x34, 0x12, 0xff, 0xff];
    let image = ImageView::new(2, 1, PixelFormat::Gray16, 4, &data).unwrap();
    let mut output = Vec::new();

    encode(&mut output, image).unwrap();

    assert_eq!(output, b"P5\n2 1\n65535\n\x12\x34\xff\xff");
}

#[test]
fn pgm_encode_writes_only_pixel_bytes_from_strided_rows() {
    let data = [10, 99, 20, 88];
    let image = ImageView::new(1, 2, PixelFormat::Gray8, 2, &data).unwrap();
    let mut output = Vec::new();

    encode(&mut output, image).unwrap();

    assert_eq!(output, b"P5\n1 2\n255\n\x0a\x14");
}

#[test]
fn pgm_encode_rejects_non_gray8_pixel_format() {
    let data = [0, 0, 0];
    let image = ImageView::new(1, 1, PixelFormat::Rgb8, 3, &data).unwrap();
    let error = encode(&mut Vec::new(), image).unwrap_err();

    assert_eq!(
        error,
        ImageError::UnsupportedPixelFormat {
            pixel_format: PixelFormat::Rgb8
        }
    );
}

#[test]
fn pgm_encode_rejects_zero_dimensions() {
    let image = ImageView {
        width: 0,
        height: 1,
        pixel_format: PixelFormat::Gray8,
        stride: 0,
        data: &[],
    };
    let error = encode(&mut Vec::new(), image).unwrap_err();

    assert_eq!(
        error,
        ImageError::InvalidData {
            reason: "width and height must be greater than zero"
        }
    );
}

#[test]
fn decode_ascii_reads_pgm_p2_gray8_image() {
    let input = b"P2\n2 2\n255\n0 85\n170 255\n";
    let image = decode_ascii(&input[..]).unwrap();

    assert_eq!(image.width, 2);
    assert_eq!(image.height, 2);
    assert_eq!(image.pixel_format, PixelFormat::Gray8);
    assert_eq!(image.data, [0, 85, 170, 255]);
}

#[test]
fn decode_ascii_native_reads_pgm_p2_with_max_value() {
    let input = b"P2\n2 1\n15\n0 15\n";
    let image = decode_ascii_native(&input[..]).unwrap();

    assert_eq!(
        image,
        NetpbmImage::Pgm {
            width: 2,
            height: 1,
            maxval: 15,
            data: vec![0, 15]
        }
    );
}

#[test]
fn decode_ascii_native_reads_pgm_p2_16_bit_samples_as_little_endian() {
    let input = b"P2\n2 1\n65535\n4660 65535\n";
    let image = decode_ascii_native(&input[..]).unwrap();

    assert_eq!(
        image,
        NetpbmImage::Pgm {
            width: 2,
            height: 1,
            maxval: 65535,
            data: vec![0x34, 0x12, 0xff, 0xff]
        }
    );
}

#[test]
fn decode_ascii_normalizes_pgm_p2_max_value_to_gray8() {
    let input = b"P2\n4 1\n15\n0 5 10 15\n";
    let image = decode_ascii(&input[..]).unwrap();

    assert_eq!(image.width, 4);
    assert_eq!(image.height, 1);
    assert_eq!(image.pixel_format, PixelFormat::Gray8);
    assert_eq!(image.data, [0, 85, 170, 255]);
}

#[test]
fn decode_ascii_reads_pgm_p2_16_bit_as_gray16_image() {
    let input = b"P2\n2 1\n65535\n4660 65535\n";
    let image = decode_ascii(&input[..]).unwrap();

    assert_eq!(image.width, 2);
    assert_eq!(image.height, 1);
    assert_eq!(image.pixel_format, PixelFormat::Gray16);
    assert_eq!(image.data, [0x34, 0x12, 0xff, 0xff]);
}

#[test]
fn pgm_decode_ascii_accepts_comments_and_multiple_whitespace() {
    let input = b"P2\r\n# comment\r\n1 2\r\n255\r\n128\t255\r\n";
    let image = decode_ascii(&input[..]).unwrap();

    assert_eq!(image.width, 1);
    assert_eq!(image.height, 2);
    assert_eq!(image.data, [128, 255]);
}

#[test]
fn decode_ascii_rejects_non_pgm_p2_magic() {
    let input = b"P5\n1 1\n255\n0";
    let error = decode_ascii(&input[..]).unwrap_err();

    assert_eq!(error, ImageError::UnsupportedFormat);
}

#[test]
fn pgm_decode_ascii_rejects_short_samples() {
    let input = b"P2\n2 1\n255\n0";
    let error = decode_ascii(&input[..]).unwrap_err();

    assert_eq!(
        error,
        ImageError::InvalidHeader {
            reason: "unexpected end of header"
        }
    );
}

#[test]
fn pgm_decode_ascii_rejects_too_many_samples() {
    let input = b"P2\n1 1\n255\n0 1";
    let error = decode_ascii(&input[..]).unwrap_err();

    assert_eq!(
        error,
        ImageError::InvalidData {
            reason: "too many samples"
        }
    );
}

#[test]
fn pgm_decode_ascii_rejects_sample_above_max_value() {
    let input = b"P2\n1 1\n255\n256";
    let error = decode_ascii(&input[..]).unwrap_err();

    assert_eq!(
        error,
        ImageError::InvalidData {
            reason: "sample value exceeds max value"
        }
    );
}

#[test]
fn encode_ascii_writes_pgm_p2_gray8_image() {
    let data = [0, 255];
    let image = ImageView::new(2, 1, PixelFormat::Gray8, 2, &data).unwrap();
    let mut output = Vec::new();

    encode_ascii(&mut output, image).unwrap();

    assert_eq!(output, b"P2\n2 1\n255\n0\n255\n");
}

#[test]
fn encode_ascii_native_writes_pgm_p2_with_max_value() {
    let image = NetpbmImage::Pgm {
        width: 2,
        height: 1,
        maxval: 15,
        data: vec![0, 15],
    };
    let mut output = Vec::new();

    encode_ascii_native(&mut output, &image).unwrap();

    assert_eq!(output, b"P2\n2 1\n15\n0\n15\n");
}

#[test]
fn encode_ascii_native_writes_pgm_p2_16_bit_samples() {
    let image = NetpbmImage::Pgm {
        width: 2,
        height: 1,
        maxval: 65535,
        data: vec![0x34, 0x12, 0xff, 0xff],
    };
    let mut output = Vec::new();

    encode_ascii_native(&mut output, &image).unwrap();

    assert_eq!(output, b"P2\n2 1\n65535\n4660\n65535\n");
}

#[test]
fn encode_ascii_writes_pgm_p2_gray16_image() {
    let data = [0x34, 0x12, 0xff, 0xff];
    let image = ImageView::new(2, 1, PixelFormat::Gray16, 4, &data).unwrap();
    let mut output = Vec::new();

    encode_ascii(&mut output, image).unwrap();

    assert_eq!(output, b"P2\n2 1\n65535\n4660\n65535\n");
}

#[test]
fn pgm_encode_ascii_writes_only_pixel_bytes_from_strided_rows() {
    let data = [10, 99, 20, 88];
    let image = ImageView::new(1, 2, PixelFormat::Gray8, 2, &data).unwrap();
    let mut output = Vec::new();

    encode_ascii(&mut output, image).unwrap();

    assert_eq!(output, b"P2\n1 2\n255\n10\n20\n");
}

#[test]
fn encode_ascii_rejects_non_gray8_pixel_format() {
    let data = [0, 0, 0];
    let image = ImageView::new(1, 1, PixelFormat::Rgb8, 3, &data).unwrap();
    let error = encode_ascii(&mut Vec::new(), image).unwrap_err();

    assert_eq!(
        error,
        ImageError::UnsupportedPixelFormat {
            pixel_format: PixelFormat::Rgb8
        }
    );
}

#[test]
fn pgm_integration_decode_encode_roundtrip_preserves_pixels() {
    let input = b"P5\n2 1\n255\n\x10\x20";
    let image = decode(&input[..]).unwrap();
    let mut output = Vec::new();

    encode(&mut output, image.as_view()).unwrap();
    let decoded = decode(&output[..]).unwrap();

    assert_eq!(decoded, image);
}

#[test]
fn pgm_integration_decode_encode_ascii_roundtrip_preserves_pixels() {
    let input = b"P2\n2 1\n255\n16 32\n";
    let image = decode_ascii(&input[..]).unwrap();
    let mut output = Vec::new();

    encode_ascii(&mut output, image.as_view()).unwrap();
    let decoded = decode_ascii(&output[..]).unwrap();

    assert_eq!(decoded, image);
}
