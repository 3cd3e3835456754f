use kimage::codecs::netpbm::NetpbmImage;
use kimage::codecs::pbm::{
    decode, decode_all, decode_all_native, decode_ascii, decode_ascii_native, decode_native, encode,
    encode_all, encode_all_native, encode_ascii, encode_ascii_native, encode_native,
};
use kimage::{ImageError, ImageView, PixelFormat};



#[test]
fn decode_ascii_reads_pbm_p1_as_gray8_image() {
    let input = b"P1\n3 2\n0 1 0\n1 0 1\n";
    let image = decode_ascii(&input[..]).unwrap();

    assert_eq!(image.width, 3);
    assert_eq!(image.height, 2);
    assert_eq!(image.pixel_format, PixelFormat::Gray8);
    assert_eq!(image.data, [255, 0, 255, 0, 255, 0]);
}

#[test]
fn decode_ascii_native_reads_pbm_p1_samples() {
    let input = b"P1\n3 1\n0 1 0\n";
    let image = decode_ascii_native(&input[..]).unwrap();

    assert_eq!(
        image,
        NetpbmImage::Pbm {
            width: 3,
            height: 1,
            data: vec![0, 1, 0]
        }
    );
}

#[test]
fn pbm_decode_ascii_accepts_comments_and_multiple_whitespace() {
    let input = b"P1\r\n# comment\r\n2 1\r\n0\t1\r\n";
    let image = decode_ascii(&input[..]).unwrap();

    assert_eq!(image.width, 2);
    assert_eq!(image.height, 1);
    assert_eq!(image.data, [255, 0]);
}

#[test]
fn decode_ascii_rejects_non_pbm_p1_magic() {
    let input = b"P4\n1 1\n\0";
    let error = decode_ascii(&input[..]).unwrap_err();

    assert_eq!(error, ImageError::UnsupportedFormat);
}

#[test]
fn decode_ascii_rejects_invalid_bitmap_sample() {
    let input = b"P1\n1 1\n2";
    let error = decode_ascii(&input[..]).unwrap_err();

    assert_eq!(
        error,
        ImageError::InvalidData {
            reason: "invalid PBM sample"
        }
    );
}

#[test]
fn pbm_decode_ascii_rejects_short_samples() {
    let input = b"P1\n2 1\n0";
    let error = decode_ascii(&input[..]).unwrap_err();

    assert_eq!(
        error,
        ImageError::InvalidHeader {
            reason: "unexpected end of header"
        }
    );
}

#[test]
fn pbm_decode_ascii_rejects_too_many_samples() {
    let input = b"P1\n1 1\n0 1";
    let error = decode_ascii(&input[..]).unwrap_err();

    assert_eq!(
        error,
        ImageError::InvalidData {
            reason: "too many samples"
        }
    );
}

#[test]
fn decode_reads_pbm_p4_as_gray8_image() {
    let input = b"P4\n3 2\n\x40\xa0";
    let image = decode(&input[..]).unwrap();

    assert_eq!(image.width, 3);
    assert_eq!(image.height, 2);
    assert_eq!(image.pixel_format, PixelFormat::Gray8);
    assert_eq!(image.data, [255, 0, 255, 0, 255, 0]);
}

#[test]
fn decode_native_reads_pbm_p4_bits() {
    let input = b"P4\n3 2\n\x40\xa0";
    let image = decode_native(&input[..]).unwrap();

    assert_eq!(
        image,
        NetpbmImage::Pbm {
            width: 3,
            height: 2,
            data: vec![0, 1, 0, 1, 0, 1]
        }
    );
}

#[test]
fn pbm_decode_all_native_returns_empty_vec_for_empty_input() {
    let images = decode_all_native(&[]).unwrap();

    assert!(images.is_empty());
}

#[test]
fn decode_all_native_reads_single_pbm_p4_image() {
    let input = b"P4\n3 1\n\x40";
    let images = decode_all_native(&input[..]).unwrap();

    assert_eq!(
        images,
        [NetpbmImage::Pbm {
            width: 3,
            height: 1,
            data: vec![0, 1, 0]
        }]
    );
}

#[test]
fn decode_all_native_reads_concatenated_pbm_p4_images() {
    let input = b"P4\n3 1\n\x40P4\n2 1\n\xc0";
    let images = decode_all_native(&input[..]).unwrap();

    assert_eq!(
        images,
        [
            NetpbmImage::Pbm {
                width: 3,
                height: 1,
                data: vec![0, 1, 0]
            },
            NetpbmImage::Pbm {
                width: 2,
                height: 1,
                data: vec![1, 1]
            }
        ]
    );
}

#[test]
fn pbm_decode_all_native_accepts_whitespace_and_comments_between_images() {
    let input = b"P4\n1 1\n\0\n# next image\nP4\n1 1\n\x80";
    let images = decode_all_native(&input[..]).unwrap();

    assert_eq!(
        images,
        [
            NetpbmImage::Pbm {
                width: 1,
                height: 1,
                data: vec![0]
            },
            NetpbmImage::Pbm {
                width: 1,
                height: 1,
                data: vec![1]
            }
        ]
    );
}

#[test]
fn decode_all_reads_normalized_pbm_p4_images() {
    let input = b"P4\n1 1\n\0P4\n1 1\n\x80";
    let images = decode_all(&input[..]).unwrap();

    assert_eq!(images.len(), 2);
    assert_eq!(images[0].pixel_format, PixelFormat::Gray8);
    assert_eq!(images[0].data, [255]);
    assert_eq!(images[1].pixel_format, PixelFormat::Gray8);
    assert_eq!(images[1].data, [0]);
}

#[test]
fn pbm_decode_all_native_rejects_mixed_magic() {
    let input = b"P4\n1 1\n\0P5\n1 1\n255\n\0";
    let error = decode_all_native(&input[..]).unwrap_err();

    assert_eq!(error, ImageError::UnsupportedFormat);
}

#[test]
fn pbm_decode_all_native_rejects_broken_second_image() {
    let input = b"P4\n1 1\n\0P4\n9 1\n\x80";
    let error = decode_all_native(&input[..]).unwrap_err();

    assert_eq!(
        error,
        ImageError::InvalidBufferLength {
            expected: 2,
            actual: 1
        }
    );
}

#[test]
fn pbm_decode_accepts_crlf_raster_separator() {
    let input = b"P4\r\n1 1\r\n\x80";
    let image = decode(&input[..]).unwrap();

    assert_eq!(image.width, 1);
    assert_eq!(image.height, 1);
    assert_eq!(image.data, [0]);
}

#[test]
fn decode_rejects_non_pbm_p4_magic() {
    let input = b"P1\n1 1\n0";
    let error = decode(&input[..]).unwrap_err();

    assert_eq!(error, ImageError::UnsupportedFormat);
}

#[test]
fn decode_rejects_short_bitmap_data() {
    let input = b"P4\n9 1\n\x80";
    let error = decode(&input[..]).unwrap_err();

    assert_eq!(
        error,
        ImageError::InvalidBufferLength {
            expected: 2,
            actual: 1
        }
    );
}

#[test]
fn encode_ascii_writes_pbm_p1_from_gray8_image() {
    let data = [255, 0, 128, 127];
    let image = ImageView::new(4, 1, PixelFormat::Gray8, 4, &data).unwrap();
    let mut output = Vec::new();

    encode_ascii(&mut output, image).unwrap();

    assert_eq!(output, b"P1\n4 1\n0 1 0 1\n");
}

#[test]
fn encode_ascii_native_writes_pbm_p1_samples() {
    let image = NetpbmImage::Pbm {
        width: 4,
        height: 1,
        data: vec![0, 1, 0, 1],
    };
    let mut output = Vec::new();

    encode_ascii_native(&mut output, &image).unwrap();

    assert_eq!(output, b"P1\n4 1\n0 1 0 1\n");
}

#[test]
fn pbm_encode_ascii_writes_only_pixel_bytes_from_strided_rows() {
    let data = [255, 99, 0, 88];
    let image = ImageView::new(1, 2, PixelFormat::Gray8, 2, &data).unwrap();
    let mut output = Vec::new();

    encode_ascii(&mut output, image).unwrap();

    assert_eq!(output, b"P1\n1 2\n0\n1\n");
}

#[test]
fn encode_writes_pbm_p4_from_gray8_image() {
    let data = [255, 0, 255, 0, 255, 0];
    let image = ImageView::new(3, 2, PixelFormat::Gray8, 3, &data).unwrap();
    let mut output = Vec::new();

    encode(&mut output, image).unwrap();

    assert_eq!(output, b"P4\n3 2\n\x40\xa0");
}

#[test]
fn encode_native_writes_pbm_p4_bits() {
    let image = NetpbmImage::Pbm {
        width: 3,
        height: 2,
        data: vec![0, 1, 0, 1, 0, 1],
    };
    let mut output = Vec::new();

    encode_native(&mut output, &image).unwrap();

    assert_eq!(output, b"P4\n3 2\n\x40\xa0");
}

#[test]
fn pbm_encode_all_native_writes_empty_stream_for_empty_slice() {
    let mut output = Vec::new();

    encode_all_native(&mut output, &[]).unwrap();

    assert!(output.is_empty());
}

#[test]
fn pbm_encode_all_writes_empty_stream_for_empty_slice() {
    let mut output = Vec::new();

    encode_all(&mut output, &[]).unwrap();

    assert!(output.is_empty());
}

#[test]
fn encode_all_writes_pbm_p4_multi_image_stream() {
    let first_data = [255, 0, 255];
    let second_data = [0, 0];
    let images = [
        ImageView::new(3, 1, PixelFormat::Gray8, 3, &first_data).unwrap(),
        ImageView::new(2, 1, PixelFormat::Gray8, 2, &second_data).unwrap(),
    ];
    let expected = [
        NetpbmImage::Pbm {
            width: 3,
            height: 1,
            data: vec![0, 1, 0],
        },
        NetpbmImage::Pbm {
            width: 2,
            height: 1,
            data: vec![1, 1],
        },
    ];
    let mut output = Vec::new();

    encode_all(&mut output, &images).unwrap();

    assert_eq!(
        decode_all_native(&output[..]).unwrap(),
        expected
    );
}

#[test]
fn encode_all_rejects_invalid_sample_without_writing() {
    let data = [128];
    let image = ImageView::new(1, 1, PixelFormat::Gray8, 1, &data).unwrap();
    let mut output = Vec::new();
    let error = encode_all(&mut output, &[image]).unwrap_err();

    assert_eq!(
        error,
        ImageError::InvalidData {
            reason: "PBM conversion requires Gray8 samples to be 0 or 255"
        }
    );
    assert!(output.is_empty());
}

#[test]
fn encode_all_native_writes_pbm_p4_multi_image_stream() {
    let images = [
        NetpbmImage::Pbm {
            width: 3,
            height: 1,
            data: vec![0, 1, 0],
        },
        NetpbmImage::Pbm {
            width: 2,
            height: 1,
            data: vec![1, 1],
        },
    ];
    let mut output = Vec::new();

    encode_all_native(&mut output, &images).unwrap();

    assert_eq!(decode_all_native(&output[..]).unwrap(), images);
}

#[test]
fn pbm_encode_all_native_rejects_mixed_format() {
    let images = [
        NetpbmImage::Pbm {
            width: 1,
            height: 1,
            data: vec![0],
        },
        NetpbmImage::Pgm {
            width: 1,
            height: 1,
            maxval: 255,
            data: vec![0],
        },
    ];
    let error = encode_all_native(&mut Vec::new(), &images).unwrap_err();

    assert_eq!(error, ImageError::UnsupportedFormat);
}

#[test]
fn pbm_encode_writes_only_pixel_bytes_from_strided_rows() {
    let data = [255, 99, 0, 88];
    let image = ImageView::new(1, 2, PixelFormat::Gray8, 2, &data).unwrap();
    let mut output = Vec::new();

    encode(&mut output, image).unwrap();

    assert_eq!(output, b"P4\n1 2\n\0\x80");
}

#[test]
fn pbm_encode_rejects_non_gray8_pixel_format() {
    let data = [0, 0, 0];
    let image = ImageView::new(1, 1, PixelFormat::Rgb8, 3, &data).unwrap();
    let error = encode(&mut Vec::new(), image).unwrap_err();

    assert_eq!(
        error,
        ImageError::UnsupportedPixelFormat {
            pixel_format: PixelFormat::Rgb8
        }
    );
}

#[test]
fn pbm_encode_rejects_zero_dimensions() {
    let image = ImageView {
        width: 0,
        height: 1,
        pixel_format: PixelFormat::Gray8,
        stride: 0,
        data: &[],
    };
    let error = encode(&mut Vec::new(), image).unwrap_err();

    assert_eq!(
        error,
        ImageError::InvalidData {
            reason: "width and height must be greater than zero"
        }
    );
}

#[test]
fn integration_decode_encode_ascii_roundtrip_preserves_thresholded_pixels() {
    let input = b"P1\n4 1\n0 1 0 1\n";
    let image = decode_ascii(&input[..]).unwrap();
    let mut output = Vec::new();

    encode_ascii(&mut output, image.as_view()).unwrap();
    let decoded = decode_ascii(&output[..]).unwrap();

    assert_eq!(decoded, image);
}

#[test]
fn integration_decode_encode_roundtrip_preserves_thresholded_pixels() {
    let input = b"P4\n3 2\n\x40\xa0";
    let image = decode(&input[..]).unwrap();
    let mut output = Vec::new();

    encode(&mut output, image.as_view()).unwrap();
    let decoded = decode(&output[..]).unwrap();

    assert_eq!(decoded, image);
}
