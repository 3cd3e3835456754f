use kimage::codecs::netpbm::NetpbmImage;
use kimage::codecs::ppm::{
    decode, decode_all_native, decode_ascii, decode_ascii_native, decode_native, encode,
    encode_ascii, encode_ascii_native, encode_native,
};
use kimage::{ImageError, ImageView, PixelFormat};




#[test]
fn decode_reads_ppm_p6_rgb8_image() {
    let input = b"P6\n2 2\n255\n\xff\0\0\0\xff\0\0\0\xff\xff\xff\xff";
    let image = decode(&input[..]).unwrap();

    assert_eq!(image.width, 2);
    assert_eq!(image.height, 2);
    assert_eq!(image.pixel_format, PixelFormat::Rgb8);
    assert_eq!(image.data, [255, 0, 0, 0, 255, 0, 0, 0, 255, 255, 255, 255]);
}

#[test]
fn decode_native_reads_ppm_p6_with_max_value() {
    let input = b"P6\n2 1\n15\n\x0f\0\0\0\x0f\0";
    let image = decode_native(&input[..]).unwrap();

    assert_eq!(
        image,
        NetpbmImage::Ppm {
            width: 2,
            height: 1,
            maxval: 15,
            data: vec![15, 0, 0, 0, 15, 0]
        }
    );
}

#[test]
fn decode_native_reads_ppm_p6_16_bit_samples_as_little_endian() {
    let input = b"P6\n1 1\n65535\n\x12\x34\x56\x78\xff\xff";
    let image = decode_native(&input[..]).unwrap();

    assert_eq!(
        image,
        NetpbmImage::Ppm {
            width: 1,
            height: 1,
            maxval: 65535,
            data: vec![0x34, 0x12, 0x78, 0x56, 0xff, 0xff]
        }
    );
}

#[test]
fn decode_reads_ppm_p6_16_bit_as_rgb16_image() {
    let input = b"P6\n1 1\n65535\n\x12\x34\x56\x78\xff\xff";
    let image = decode(&input[..]).unwrap();

    assert_eq!(image.width, 1);
    assert_eq!(image.height, 1);
    assert_eq!(image.pixel_format, PixelFormat::Rgb16);
    assert_eq!(image.data, [0x34, 0x12, 0x78, 0x56, 0xff, 0xff]);
}

#[test]
fn decode_normalizes_ppm_p6_max_value_to_rgb8() {
    let input = b"P6\n2 1\n15\n\x0f\0\x05\0\x0a\x0f";
    let image = decode(&input[..]).unwrap();

    assert_eq!(image.width, 2);
    assert_eq!(image.height, 1);
    assert_eq!(image.pixel_format, PixelFormat::Rgb8);
    assert_eq!(image.data, [255, 0, 85, 0, 170, 255]);
}

#[test]
fn decode_normalizes_ppm_p6_max_value_with_nearest_rounding() {
    let input = b"P6\n1 1\n10\n\x05\0\x0a";
    let image = decode(&input[..]).unwrap();

    assert_eq!(image.data, [128, 0, 255]);
}

#[test]
fn ppm_decode_accepts_comments_before_header_tokens() {
    let input = b"P6\n# comment\n2 # width\n1\n255\n\x01\x02\x03\x04\x05\x06";
    let image = decode(&input[..]).unwrap();

    assert_eq!(image.width, 2);
    assert_eq!(image.height, 1);
    assert_eq!(image.data, [1, 2, 3, 4, 5, 6]);
}

#[test]
fn ppm_decode_accepts_crlf_raster_separator() {
    let input = b"P6\r\n1 1\r\n255\r\n\x01\x02\x03";
    let image = decode(&input[..]).unwrap();

    assert_eq!(image.width, 1);
    assert_eq!(image.height, 1);
    assert_eq!(image.data, [1, 2, 3]);
}

#[test]
fn decode_rejects_non_ppm_p6_magic() {
    let input = b"P3\n1 1\n255\n0 0 0";
    let error = decode(&input[..]).unwrap_err();

    assert_eq!(error, ImageError::UnsupportedFormat);
}

#[test]
fn ppm_decode_rejects_zero_dimensions() {
    let input = b"P6\n0 1\n255\n";
    let error = decode(&input[..]).unwrap_err();

    assert_eq!(
        error,
        ImageError::InvalidHeader {
            reason: "width and height must be greater than zero"
        }
    );
}

#[test]
fn ppm_decode_rejects_short_16_bit_raster_data() {
    let input = b"P6\n1 1\n65535\n\0\0\0";
    let error = decode(&input[..]).unwrap_err();

    assert_eq!(
        error,
        ImageError::InvalidBufferLength {
            expected: 6,
            actual: 3
        }
    );
}

#[test]
fn ppm_decode_rejects_short_raster_data() {
    let input = b"P6\n2 1\n255\n\x01\x02\x03";
    let error = decode(&input[..]).unwrap_err();

    assert_eq!(
        error,
        ImageError::InvalidBufferLength {
            expected: 6,
            actual: 3
        }
    );
}

#[test]
fn encode_writes_ppm_p6_rgb8_image() {
    let data = [255, 0, 0, 0, 255, 0];
    let image = ImageView::new(2, 1, PixelFormat::Rgb8, 6, &data).unwrap();
    let mut output = Vec::new();

    encode(&mut output, image).unwrap();

    assert_eq!(output, b"P6\n2 1\n255\n\xff\0\0\0\xff\0");
}

#[test]
fn encode_native_writes_ppm_p6_with_max_value() {
    let image = NetpbmImage::Ppm {
        width: 2,
        height: 1,
        maxval: 15,
        data: vec![15, 0, 0, 0, 15, 0],
    };
    let mut output = Vec::new();

    encode_native(&mut output, &image).unwrap();

    assert_eq!(output, b"P6\n2 1\n15\n\x0f\0\0\0\x0f\0");
}

#[test]
fn encode_native_writes_ppm_p6_16_bit_samples_as_big_endian() {
    let image = NetpbmImage::Ppm {
        width: 1,
        height: 1,
        maxval: 65535,
        data: vec![0x34, 0x12, 0x78, 0x56, 0xff, 0xff],
    };
    let mut output = Vec::new();

    encode_native(&mut output, &image).unwrap();

    assert_eq!(output, b"P6\n1 1\n65535\n\x12\x34\x56\x78\xff\xff");
}

#[test]
fn encode_writes_ppm_p6_rgb16_image_as_big_endian() {
    let data = [0x34, 0x12, 0x78, 0x56, 0xff, 0xff];
    let image = ImageView::new(1, 1, PixelFormat::Rgb16, 6, &data).unwrap();
    let mut output = Vec::new();

    encode(&mut output, image).unwrap();

    assert_eq!(output, b"P6\n1 1\n65535\n\x12\x34\x56\x78\xff\xff");
}

#[test]
fn ppm_encode_writes_only_pixel_bytes_from_strided_rows() {
    let data = [255, 0, 0, 99, 0, 255, 0, 88];
    let image = ImageView::new(1, 2, PixelFormat::Rgb8, 4, &data).unwrap();
    let mut output = Vec::new();

    encode(&mut output, image).unwrap();

    assert_eq!(output, b"P6\n1 2\n255\n\xff\0\0\0\xff\0");
}

#[test]
fn ppm_encode_rejects_non_rgb8_pixel_format() {
    let data = [0, 0, 0, 255];
    let image = ImageView::new(1, 1, PixelFormat::Rgba8, 4, &data).unwrap();
    let error = encode(&mut Vec::new(), image).unwrap_err();

    assert_eq!(
        error,
        ImageError::UnsupportedPixelFormat {
            pixel_format: PixelFormat::Rgba8
        }
    );
}

#[test]
fn ppm_encode_rejects_zero_dimensions() {
    let image = ImageView {
        width: 0,
        height: 1,
        pixel_format: PixelFormat::Rgb8,
        stride: 0,
        data: &[],
    };
    let error = encode(&mut Vec::new(), image).unwrap_err();

    assert_eq!(
        error,
        ImageError::InvalidData {
            reason: "width and height must be greater than zero"
        }
    );
}

#[test]
fn decode_ascii_reads_ppm_p3_rgb8_image() {
    let input = b"P3\n2 1\n255\n255 0 0\n0 255 0\n";
    let image = decode_ascii(&input[..]).unwrap();

    assert_eq!(image.width, 2);
    assert_eq!(image.height, 1);
    assert_eq!(image.pixel_format, PixelFormat::Rgb8);
    assert_eq!(image.data, [255, 0, 0, 0, 255, 0]);
}

#[test]
fn decode_ascii_native_reads_ppm_p3_with_max_value() {
    let input = b"P3\n2 1\n15\n15 0 0\n0 15 0\n";
    let image = decode_ascii_native(&input[..]).unwrap();

    assert_eq!(
        image,
        NetpbmImage::Ppm {
            width: 2,
            height: 1,
            maxval: 15,
            data: vec![15, 0, 0, 0, 15, 0]
        }
    );
}

#[test]
fn decode_ascii_native_reads_ppm_p3_16_bit_samples_as_little_endian() {
    let input = b"P3\n1 1\n65535\n4660 22136 65535\n";
    let image = decode_ascii_native(&input[..]).unwrap();

    assert_eq!(
        image,
        NetpbmImage::Ppm {
            width: 1,
            height: 1,
            maxval: 65535,
            data: vec![0x34, 0x12, 0x78, 0x56, 0xff, 0xff]
        }
    );
}

#[test]
fn decode_ascii_normalizes_ppm_p3_max_value_to_rgb8() {
    let input = b"P3\n2 1\n15\n15 0 5\n0 10 15\n";
    let image = decode_ascii(&input[..]).unwrap();

    assert_eq!(image.width, 2);
    assert_eq!(image.height, 1);
    assert_eq!(image.pixel_format, PixelFormat::Rgb8);
    assert_eq!(image.data, [255, 0, 85, 0, 170, 255]);
}

#[test]
fn decode_ascii_reads_ppm_p3_16_bit_as_rgb16_image() {
    let input = b"P3\n1 1\n65535\n4660 22136 65535\n";
    let image = decode_ascii(&input[..]).unwrap();

    assert_eq!(image.width, 1);
    assert_eq!(image.height, 1);
    assert_eq!(image.pixel_format, PixelFormat::Rgb16);
    assert_eq!(image.data, [0x34, 0x12, 0x78, 0x56, 0xff, 0xff]);
}

#[test]
fn ppm_decode_ascii_accepts_comments_and_multiple_whitespace() {
    let input = b"P3\r\n# comment\r\n1 2\r\n255\r\n255\t0 0\n\n0 0 255\r\n";
    let image = decode_ascii(&input[..]).unwrap();

    assert_eq!(image.width, 1);
    assert_eq!(image.height, 2);
    assert_eq!(image.data, [255, 0, 0, 0, 0, 255]);
}

#[test]
fn decode_ascii_rejects_non_ppm_p3_magic() {
    let input = b"P6\n1 1\n255\n0 0 0";
    let error = decode_ascii(&input[..]).unwrap_err();

    assert_eq!(error, ImageError::UnsupportedFormat);
}

#[test]
fn ppm_decode_ascii_rejects_short_samples() {
    let input = b"P3\n1 1\n255\n0 0";
    let error = decode_ascii(&input[..]).unwrap_err();

    assert_eq!(
        error,
        ImageError::InvalidHeader {
            reason: "unexpected end of header"
        }
    );
}

#[test]
fn ppm_decode_ascii_rejects_too_many_samples() {
    let input = b"P3\n1 1\n255\n0 0 0 1";
    let error = decode_ascii(&input[..]).unwrap_err();

    assert_eq!(
        error,
        ImageError::InvalidData {
            reason: "too many samples"
        }
    );
}

#[test]
fn ppm_decode_ascii_rejects_sample_above_max_value() {
    let input = b"P3\n1 1\n255\n256 0 0";
    let error = decode_ascii(&input[..]).unwrap_err();

    assert_eq!(
        error,
        ImageError::InvalidData {
            reason: "sample value exceeds max value"
        }
    );
}

#[test]
fn encode_ascii_writes_ppm_p3_rgb8_image() {
    let data = [255, 0, 0, 0, 255, 0];
    let image = ImageView::new(2, 1, PixelFormat::Rgb8, 6, &data).unwrap();
    let mut output = Vec::new();

    encode_ascii(&mut output, image).unwrap();

    assert_eq!(output, b"P3\n2 1\n255\n255 0 0\n0 255 0\n");
}

#[test]
fn encode_ascii_native_writes_ppm_p3_with_max_value() {
    let image = NetpbmImage::Ppm {
        width: 2,
        height: 1,
        maxval: 15,
        data: vec![15, 0, 0, 0, 15, 0],
    };
    let mut output = Vec::new();

    encode_ascii_native(&mut output, &image).unwrap();

    assert_eq!(output, b"P3\n2 1\n15\n15 0 0\n0 15 0\n");
}

#[test]
fn encode_ascii_native_writes_ppm_p3_16_bit_samples() {
    let image = NetpbmImage::Ppm {
        width: 1,
        height: 1,
        maxval: 65535,
        data: vec![0x34, 0x12, 0x78, 0x56, 0xff, 0xff],
    };
    let mut output = Vec::new();

    encode_ascii_native(&mut output, &image).unwrap();

    assert_eq!(output, b"P3\n1 1\n65535\n4660 22136 65535\n");
}

#[test]
fn encode_ascii_writes_ppm_p3_rgb16_image() {
    let data = [0x34, 0x12, 0x78, 0x56, 0xff, 0xff];
    let image = ImageView::new(1, 1, PixelFormat::Rgb16, 6, &data).unwrap();
    let mut output = Vec::new();

    encode_ascii(&mut output, image).unwrap();

    assert_eq!(output, b"P3\n1 1\n65535\n4660 22136 65535\n");
}

#[test]
fn ppm_encode_ascii_writes_only_pixel_bytes_from_strided_rows() {
    let data = [255, 0, 0, 99, 0, 255, 0, 88];
    let image = ImageView::new(1, 2, PixelFormat::Rgb8, 4, &data).unwrap();
    let mut output = Vec::new();

    encode_ascii(&mut output, image).unwrap();

    assert_eq!(output, b"P3\n1 2\n255\n255 0 0\n0 255 0\n");
}

#[test]
fn encode_ascii_rejects_non_rgb8_pixel_format() {
    let data = [0];
    let image = ImageView::new(1, 1, PixelFormat::Gray8, 1, &data).unwrap();
    let error = encode_ascii(&mut Vec::new(), image).unwrap_err();

    assert_eq!(
        error,
        ImageError::UnsupportedPixelFormat {
            pixel_format: PixelFormat::Gray8
        }
    );
}

#[test]
fn ppm_integration_decode_encode_roundtrip_preserves_pixels() {
    let input = b"P6\n2 1\n255\n\x10\x20\x30\x40\x50\x60";
    let image = decode(&input[..]).unwrap();
    let mut output = Vec::new();

    encode(&mut output, image.as_view()).unwrap();
    let decoded = decode(&output[..]).unwrap();

    assert_eq!(decoded, image);
}

#[test]
fn ppm_integration_decode_encode_ascii_roundtrip_preserves_pixels() {
    let input = b"P3\n2 1\n255\n16 32 48\n64 80 96\n";
    let image = decode_ascii(&input[..]).unwrap();
    let mut output = Vec::new();

    encode_ascii(&mut output, image.as_view()).unwrap();
    let decoded = decode_ascii(&output[..]).unwrap();

    assert_eq!(decoded, image);
}
