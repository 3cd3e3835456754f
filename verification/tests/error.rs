use kimage::{ImageError, IoErrorKind, PixelFormat};

#[test]
fn display_invalid_buffer_length_includes_expected_and_actual() {
    let error = ImageError::InvalidBufferLength {
        expected: 12,
        actual: 10,
    };

    assert_eq!(
        error.message(),
        "invalid buffer length: expected 12 bytes, got 10 bytes"
    );
}

#[test]
fn message_describes_each_variant() {
    assert_eq!(
        ImageError::InvalidHeader { reason: "missing DEPTH" }.message(),
        "invalid image header: missing DEPTH"
    );
    assert_eq!(
        ImageError::InvalidData { reason: "too many images" }.message(),
        "invalid image data: too many images"
    );
    assert_eq!(
        ImageError::InvalidStride { minimum: 6, actual: 0 }.message(),
        "invalid row stride: expected at least 6 bytes, got 0 bytes"
    );
    assert_eq!(
        ImageError::ImageDimensionsTooLarge {
            width: 4294967295,
            height: 10,
            bytes_per_pixel: 3
        }
        .message(),
        "image dimensions are too large: 4294967295x10 at 3 bytes per pixel"
    );
    assert_eq!(ImageError::UnsupportedFormat.message(), "unsupported image format");
    assert_eq!(
        ImageError::UnsupportedPixelFormat {
            pixel_format: PixelFormat::GrayAlpha16
        }
        .message(),
        "unsupported pixel format: GrayAlpha16"
    );
    assert_eq!(
        ImageError::Io {
            kind: IoErrorKind::UnexpectedEof
        }
        .message(),
        "io error: failed to fill whole buffer"
    );
}
