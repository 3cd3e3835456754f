use kimage::codecs::netpbm::{
    Dimensions, HeaderParser, normalize_sample_to_u8, packed_raster_len, raster_slice,
    read_any_sample_header, read_ascii_samples_with_max_value, read_bitmap_header,
    reject_trailing_tokens, validate_image_view, write_bitmap_header, write_packed_rows,
    write_sample_header_with_max_value,
};
use kimage::{ImageError, ImageView, PixelFormat};


#[test]
fn next_token_skips_whitespace_and_comments() {
    let mut parser = HeaderParser::new(b" \n# comment\nP6 2");

    assert_eq!(parser.next_token().unwrap(), b"P6");
    assert_eq!(parser.next_token().unwrap(), b"2");
}

#[test]
fn next_token_treats_vertical_tab_and_form_feed_as_whitespace() {
    let mut parser = HeaderParser::new(b"\x0bP5\x0c2");

    assert_eq!(parser.next_token().unwrap(), b"P5");
    assert_eq!(parser.next_token().unwrap(), b"2");
}

#[test]
fn next_token_ends_comment_at_carriage_return() {
    let mut parser = HeaderParser::new(b"# comment\rP6");

    assert_eq!(parser.next_token().unwrap(), b"P6");
}

#[test]
fn next_u32_parses_integer_token() {
    let mut parser = HeaderParser::new(b"255");

    assert_eq!(parser.next_u32("max value").unwrap(), 255);
}

#[test]
fn next_u32_rejects_invalid_integer_token() {
    let mut parser = HeaderParser::new(b"abc");
    let error = parser.next_u32("width").unwrap_err();

    assert_eq!(error, ImageError::InvalidHeader { reason: "width" });
}

#[test]
fn next_u8_sample_parses_sample_within_max_value() {
    let mut parser = HeaderParser::new(b"128");

    assert_eq!(parser.next_u8_sample(255).unwrap(), 128);
}

#[test]
fn next_u8_sample_rejects_sample_above_max_value() {
    let mut parser = HeaderParser::new(b"256");
    let error = parser.next_u8_sample(255).unwrap_err();

    assert_eq!(
        error,
        ImageError::InvalidData {
            reason: "sample value exceeds max value"
        }
    );
}

#[test]
fn next_max_value_accepts_spec_range() {
    let mut parser = HeaderParser::new(b"65535");

    assert_eq!(parser.next_max_value().unwrap(), 65_535);
}

#[test]
fn next_max_value_rejects_zero() {
    let mut parser = HeaderParser::new(b"0");
    let error = parser.next_max_value().unwrap_err();

    assert_eq!(
        error,
        ImageError::InvalidHeader {
            reason: "max value must be between 1 and 65535"
        }
    );
}

#[test]
fn next_max_value_rejects_value_above_spec_range() {
    let mut parser = HeaderParser::new(b"65536");
    let error = parser.next_max_value().unwrap_err();

    assert_eq!(
        error,
        ImageError::InvalidHeader {
            reason: "max value must be between 1 and 65535"
        }
    );
}

#[test]
fn has_more_tokens_skips_comments_before_checking() {
    let mut parser = HeaderParser::new(b"  # comment\n");

    assert!(!parser.has_more_tokens());
}

#[test]
fn consume_raster_separator_consumes_single_whitespace() {
    let mut parser = HeaderParser::new(b"255\nabc");

    assert_eq!(parser.next_token().unwrap(), b"255");
    parser.consume_raster_separator().unwrap();
    assert_eq!(parser.position(), 4);
}

#[test]
fn consume_raster_separator_consumes_crlf_as_one_separator() {
    let mut parser = HeaderParser::new(b"255\r\nabc");

    assert_eq!(parser.next_token().unwrap(), b"255");
    parser.consume_raster_separator().unwrap();
    assert_eq!(parser.position(), 5);
}

#[test]
fn read_bitmap_header_reads_magic_and_dimensions() {
    let mut parser = HeaderParser::new(b"P1\n3 2\n");

    assert_eq!(
        read_bitmap_header(&mut parser, b"P1").unwrap(),
        Dimensions {
            width: 3,
            height: 2
        }
    );
}

#[test]
fn read_bitmap_header_rejects_unexpected_magic() {
    let mut parser = HeaderParser::new(b"P4\n1 1\n");
    let error = read_bitmap_header(&mut parser, b"P1").unwrap_err();

    assert_eq!(error, ImageError::UnsupportedFormat);
}

#[test]
fn read_any_sample_header_reads_magic_dimensions_and_max_value() {
    let mut parser = HeaderParser::new(b"P6\n2 1\n255\n");

    assert_eq!(
        read_any_sample_header(&mut parser, b"P6").unwrap(),
        (
            Dimensions {
                width: 2,
                height: 1
            },
            255
        )
    );
}

#[test]
fn read_any_sample_header_accepts_max_value_above_255() {
    let mut parser = HeaderParser::new(b"P6\n1 1\n256\n");

    assert_eq!(
        read_any_sample_header(&mut parser, b"P6").unwrap(),
        (
            Dimensions {
                width: 1,
                height: 1
            },
            256
        )
    );
}

#[test]
fn read_any_sample_header_rejects_zero_max_value() {
    let mut parser = HeaderParser::new(b"P6\n1 1\n0\n");
    let error = read_any_sample_header(&mut parser, b"P6").unwrap_err();

    assert_eq!(
        error,
        ImageError::InvalidHeader {
            reason: "max value must be between 1 and 65535"
        }
    );
}

#[test]
fn validate_image_view_accepts_matching_format() {
    let data = [1, 2, 3, 4, 5, 6];
    let image = ImageView::new(2, 1, PixelFormat::Rgb8, 6, &data).unwrap();

    assert!(validate_image_view(image, PixelFormat::Rgb8).is_ok());
}

#[test]
fn validate_image_view_rejects_unexpected_format() {
    let data = [1];
    let image = ImageView::new(1, 1, PixelFormat::Gray8, 1, &data).unwrap();
    let error = validate_image_view(image, PixelFormat::Rgb8).unwrap_err();

    assert_eq!(
        error,
        ImageError::UnsupportedPixelFormat {
            pixel_format: PixelFormat::Gray8
        }
    );
}

#[test]
fn read_ascii_samples_reads_expected_samples() {
    let mut parser = HeaderParser::new(b"1 2 3");

    assert_eq!(
        read_ascii_samples_with_max_value(&mut parser, 3, 255).unwrap(),
        [1, 2, 3]
    );
}

#[test]
fn reject_trailing_tokens_rejects_extra_sample() {
    let mut parser = HeaderParser::new(b"1");
    let error = reject_trailing_tokens(&mut parser).unwrap_err();

    assert_eq!(
        error,
        ImageError::InvalidData {
            reason: "too many samples"
        }
    );
}

#[test]
fn write_sample_header_with_max_value_writes_custom_max_value() {
    let mut output = Vec::new();

    write_sample_header_with_max_value(&mut output, "P2", 2, 1, 15).unwrap();

    assert_eq!(output, b"P2\n2 1\n15\n");
}

#[test]
fn normalize_sample_to_u8_scales_to_full_range() {
    assert_eq!(normalize_sample_to_u8(0, 15), 0);
    assert_eq!(normalize_sample_to_u8(5, 15), 85);
    assert_eq!(normalize_sample_to_u8(10, 15), 170);
    assert_eq!(normalize_sample_to_u8(15, 15), 255);
}

#[test]
fn normalize_sample_to_u8_rounds_to_nearest() {
    assert_eq!(normalize_sample_to_u8(5, 10), 128);
}

#[test]
fn write_bitmap_header_writes_magic_and_dimensions() {
    let data = [1];
    let image = ImageView::new(1, 1, PixelFormat::Gray8, 1, &data).unwrap();
    let mut output = Vec::new();

    write_bitmap_header(&mut output, "P4", image).unwrap();

    assert_eq!(output, b"P4\n1 1\n");
}

#[test]
fn write_packed_rows_writes_only_pixel_bytes_from_strided_rows() {
    let data = [1, 2, 99, 3, 4, 88];
    let image = ImageView::new(2, 2, PixelFormat::Gray8, 3, &data).unwrap();
    let mut output = Vec::new();

    write_packed_rows(&mut output, image).unwrap();

    assert_eq!(output, [1, 2, 3, 4]);
}

#[test]
fn packed_raster_len_returns_required_byte_count() {
    let dimensions = Dimensions {
        width: 2,
        height: 3,
    };

    assert_eq!(
        packed_raster_len(dimensions, PixelFormat::Rgb8).unwrap(),
        18
    );
}

#[test]
fn raster_slice_returns_only_current_image_raster() {
    let data = b"P5\n2 1\n255\n\x10\x20P5\n1 1\n255\n\x30";
    let mut parser = HeaderParser::new(data);
    let (dimensions, _) = read_any_sample_header(&mut parser, b"P5").unwrap();
    parser.consume_raster_separator().unwrap();

    assert_eq!(
        raster_slice(data, &parser, dimensions, PixelFormat::Gray8).unwrap(),
        b"\x10\x20"
    );
}

#[test]
fn raster_slice_rejects_short_raster() {
    let data = b"P5\n2 1\n255\n\x10";
    let mut parser = HeaderParser::new(data);
    let (dimensions, _) = read_any_sample_header(&mut parser, b"P5").unwrap();
    parser.consume_raster_separator().unwrap();
    let error = raster_slice(data, &parser, dimensions, PixelFormat::Gray8).unwrap_err();

    assert_eq!(
        error,
        ImageError::InvalidBufferLength {
            expected: 2,
            actual: 1
        }
    );
}
