use kimage::codecs::bmp::{
    decode, decode_native, encode, encode_native, image_view_to_bmp_native, BmpColorTableEntry,
    BmpDibHeader, BmpEncodeOptions, BmpFileHeader, BmpInfoHeader, BmpOrientation,
    BmpPixelEncoding, BITS_PER_PIXEL_INDEXED1, BITS_PER_PIXEL_INDEXED4, BITS_PER_PIXEL_INDEXED8,
    COLOR_TABLE_ENTRY_SIZE, PIXEL_OFFSET,
};
use kimage::{ImageError, ImageView, PixelFormat};



#[test]
fn decode_reads_24_bit_bottom_up_bmp_image() {
    let input = two_by_two_bmp();
    let image = decode(&input[..]).unwrap();

    assert_eq!(image.width, 2);
    assert_eq!(image.height, 2);
    assert_eq!(image.pixel_format, PixelFormat::Rgb8);
    assert_eq!(
        image.data,
        [255, 0, 0, 0, 255, 0, 0, 0, 255, 255, 255, 255,]
    );
}

#[test]
fn decode_reads_24_bit_top_down_bmp_image() {
    let input = two_by_two_top_down_bmp();
    let image = decode(&input[..]).unwrap();

    assert_eq!(
        image.data,
        [255, 0, 0, 0, 255, 0, 0, 0, 255, 255, 255, 255,]
    );
}

#[test]
fn decode_reads_1_bit_indexed_bmp_image() {
    let image = decode(&two_by_two_indexed1_bmp()[..]).unwrap();

    assert_eq!(image.width, 2);
    assert_eq!(image.height, 2);
    assert_eq!(image.pixel_format, PixelFormat::Rgb8);
    assert_eq!(image.data, [0, 0, 0, 255, 0, 0, 255, 0, 0, 0, 0, 0]);
}

#[test]
fn decode_reads_1_bit_indexed_top_down_bmp_image() {
    let image = decode(&two_by_two_indexed1_top_down_bmp()[..]).unwrap();

    assert_eq!(image.width, 2);
    assert_eq!(image.height, 2);
    assert_eq!(image.pixel_format, PixelFormat::Rgb8);
    assert_eq!(image.data, [255, 0, 0, 0, 0, 0, 0, 0, 0, 255, 0, 0]);
}

#[test]
fn decode_reads_4_bit_indexed_bmp_image() {
    let image = decode(&two_by_two_indexed4_bmp()[..]).unwrap();

    assert_eq!(image.width, 2);
    assert_eq!(image.height, 2);
    assert_eq!(image.pixel_format, PixelFormat::Rgb8);
    assert_eq!(image.data, [0, 0, 0, 255, 0, 0, 255, 0, 0, 0, 0, 0]);
}

#[test]
fn decode_reads_4_bit_indexed_top_down_bmp_image() {
    let image = decode(&two_by_two_indexed4_top_down_bmp()[..]).unwrap();

    assert_eq!(image.width, 2);
    assert_eq!(image.height, 2);
    assert_eq!(image.pixel_format, PixelFormat::Rgb8);
    assert_eq!(image.data, [255, 0, 0, 0, 0, 0, 0, 0, 0, 255, 0, 0]);
}

#[test]
fn decode_reads_8_bit_indexed_bmp_image() {
    let image = decode(&two_by_two_indexed8_bmp()[..]).unwrap();

    assert_eq!(image.width, 2);
    assert_eq!(image.height, 2);
    assert_eq!(image.pixel_format, PixelFormat::Rgb8);
    assert_eq!(image.data, [0, 0, 0, 255, 0, 0, 255, 0, 0, 0, 0, 0]);
}

#[test]
fn decode_reads_8_bit_indexed_top_down_bmp_image() {
    let image = decode(&two_by_two_indexed8_top_down_bmp()[..]).unwrap();

    assert_eq!(image.width, 2);
    assert_eq!(image.height, 2);
    assert_eq!(image.pixel_format, PixelFormat::Rgb8);
    assert_eq!(image.data, [255, 0, 0, 0, 0, 0, 0, 0, 0, 255, 0, 0]);
}

#[test]
fn decode_native_preserves_bmp_fields() {
    let image = decode_native(&two_by_two_bmp()[..]).unwrap();

    assert_eq!(
        image.file_header,
        BmpFileHeader {
            file_size: 70,
            reserved1: 0,
            reserved2: 0,
            pixel_offset: 54,
        }
    );
    assert_eq!(
        image.dib_header,
        BmpDibHeader::BitmapInfoHeader(BmpInfoHeader {
            width: 2,
            height: 2,
            planes: 1,
            bits_per_pixel: 24,
            compression: 0,
            image_size: 16,
            x_pixels_per_meter: 0,
            y_pixels_per_meter: 0,
            colors_used: 0,
            important_colors: 0,
        })
    );
    assert_eq!(image.pixel_array.len(), 16);
}

#[test]
fn decode_native_reads_1_bit_indexed_bmp() {
    let image = decode_native(&two_by_two_indexed1_bmp()[..]).unwrap();

    assert_eq!(
        image.file_header,
        BmpFileHeader {
            file_size: 70,
            reserved1: 0,
            reserved2: 0,
            pixel_offset: 62,
        }
    );
    assert_eq!(
        image.dib_header,
        BmpDibHeader::BitmapInfoHeader(BmpInfoHeader {
            width: 2,
            height: 2,
            planes: 1,
            bits_per_pixel: 1,
            compression: 0,
            image_size: 8,
            x_pixels_per_meter: 0,
            y_pixels_per_meter: 0,
            colors_used: 0,
            important_colors: 0,
        })
    );
    assert_eq!(image.color_table, black_and_red_color_table());
    assert_eq!(image.pixel_array, [0x80, 0, 0, 0, 0x40, 0, 0, 0]);
}

#[test]
fn decode_native_reads_4_bit_indexed_bmp() {
    let image = decode_native(&two_by_two_indexed4_bmp()[..]).unwrap();

    assert_eq!(
        image.file_header,
        BmpFileHeader {
            file_size: 70,
            reserved1: 0,
            reserved2: 0,
            pixel_offset: 62,
        }
    );
    assert_eq!(
        image.dib_header,
        BmpDibHeader::BitmapInfoHeader(BmpInfoHeader {
            width: 2,
            height: 2,
            planes: 1,
            bits_per_pixel: 4,
            compression: 0,
            image_size: 8,
            x_pixels_per_meter: 0,
            y_pixels_per_meter: 0,
            colors_used: 2,
            important_colors: 0,
        })
    );
    assert_eq!(image.color_table, black_and_red_color_table());
    assert_eq!(image.pixel_array, [0x10, 0, 0, 0, 0x01, 0, 0, 0]);
}

#[test]
fn decode_native_reads_8_bit_indexed_bmp() {
    let image = decode_native(&two_by_two_indexed8_bmp()[..]).unwrap();

    assert_eq!(
        image.file_header,
        BmpFileHeader {
            file_size: 70,
            reserved1: 0,
            reserved2: 0,
            pixel_offset: 62,
        }
    );
    assert_eq!(
        image.dib_header,
        BmpDibHeader::BitmapInfoHeader(BmpInfoHeader {
            width: 2,
            height: 2,
            planes: 1,
            bits_per_pixel: 8,
            compression: 0,
            image_size: 8,
            x_pixels_per_meter: 0,
            y_pixels_per_meter: 0,
            colors_used: 2,
            important_colors: 0,
        })
    );
    assert_eq!(
        image.color_table,
        [
            BmpColorTableEntry {
                blue: 0,
                green: 0,
                red: 0,
                reserved: 0,
            },
            BmpColorTableEntry {
                blue: 0,
                green: 0,
                red: 255,
                reserved: 0,
            },
        ]
    );
    assert_eq!(image.pixel_array, [1, 0, 0, 0, 0, 1, 0, 0]);
}

#[test]
fn decode_native_uses_default_color_table_len_for_8_bit_bmp() {
    let image =
        decode_native(&two_by_two_indexed8_bmp_with_256_colors()[..]).unwrap();

    assert_eq!(image.color_table.len(), 256);
    assert_eq!(image.file_header.pixel_offset, 1078);
}

#[test]
fn decode_native_uses_default_color_table_len_for_1_bit_bmp() {
    let image = decode_native(&two_by_two_indexed1_bmp_with_color_table(
        2,
    )[..])
    .unwrap();

    assert_eq!(image.color_table.len(), 2);
    assert_eq!(image.file_header.pixel_offset, 62);
}

#[test]
fn decode_native_uses_default_color_table_len_for_4_bit_bmp() {
    let image = decode_native(&two_by_two_indexed4_bmp_with_color_table(
        16,
    )[..])
    .unwrap();

    assert_eq!(image.color_table.len(), 16);
    assert_eq!(image.file_header.pixel_offset, 118);
}

#[test]
fn validate_file_layout_accepts_consistent_bmp_image() {
    let image = decode_native(&two_by_two_bmp()[..]).unwrap();

    image.validate_file_layout().unwrap();
}

#[test]
fn validate_file_layout_accepts_consistent_8_bit_indexed_bmp() {
    let image = decode_native(&two_by_two_indexed8_bmp()[..]).unwrap();

    image.validate_file_layout().unwrap();
}

#[test]
fn validate_file_layout_accepts_consistent_1_bit_indexed_bmp() {
    let image = decode_native(&two_by_two_indexed1_bmp()[..]).unwrap();

    image.validate_file_layout().unwrap();
}

#[test]
fn validate_file_layout_accepts_consistent_4_bit_indexed_bmp() {
    let image = decode_native(&two_by_two_indexed4_bmp()[..]).unwrap();

    image.validate_file_layout().unwrap();
}

#[test]
fn validate_file_layout_rejects_pixel_offset_after_unknown_gap() {
    let image = decode_native(&two_by_two_bmp_with_pixel_gap()[..]).unwrap();
    let error = image.validate_file_layout().unwrap_err();

    assert_eq!(
        error,
        ImageError::InvalidHeader {
            reason: "invalid pixel data offset"
        }
    );
}

#[test]
fn validate_file_layout_rejects_inconsistent_file_size() {
    let mut image = decode_native(&two_by_two_bmp()[..]).unwrap();
    image.file_header.file_size += 1;
    let error = image.validate_file_layout().unwrap_err();

    assert_eq!(
        error,
        ImageError::InvalidHeader {
            reason: "invalid BMP file size"
        }
    );
}

#[test]
fn validate_file_layout_rejects_inconsistent_nonzero_image_size() {
    let mut image = decode_native(&two_by_two_bmp()[..]).unwrap();
    let BmpDibHeader::BitmapInfoHeader(info_header) = &mut image.dib_header;
    info_header.image_size += 1;
    let error = image.validate_file_layout().unwrap_err();

    assert_eq!(
        error,
        ImageError::InvalidHeader {
            reason: "invalid BMP image size"
        }
    );
}

#[test]
fn validate_file_layout_allows_zero_image_size_for_bi_rgb() {
    let mut image = decode_native(&two_by_two_bmp()[..]).unwrap();
    let BmpDibHeader::BitmapInfoHeader(info_header) = &mut image.dib_header;
    info_header.image_size = 0;

    image.validate_file_layout().unwrap();
}

#[test]
fn validate_file_layout_rejects_nonzero_color_table_reserved_value() {
    let mut image = decode_native(&two_by_two_indexed8_bmp()[..]).unwrap();
    image.color_table[0].reserved = 1;
    let error = image.validate_file_layout().unwrap_err();

    assert_eq!(
        error,
        ImageError::InvalidHeader {
            reason: "invalid BMP color table reserved value"
        }
    );
}

#[test]
fn decode_allows_file_size_larger_than_input_when_pixels_are_present() {
    let mut input = two_by_two_bmp();
    input[2..6].copy_from_slice(&100_u32.to_le_bytes());

    let image = decode(&input[..]).unwrap();

    assert_eq!(image.width, 2);
    assert_eq!(image.height, 2);
}

#[test]
fn decode_uses_pixel_offset_after_unknown_gap() {
    let input = two_by_two_bmp_with_pixel_gap();
    let image = decode(&input[..]).unwrap();

    assert_eq!(image.width, 2);
    assert_eq!(image.height, 2);
    assert_eq!(
        image.data,
        [255, 0, 0, 0, 255, 0, 0, 0, 255, 255, 255, 255,]
    );
}

#[test]
fn decode_rejects_non_bmp_magic() {
    let mut input = two_by_two_bmp();
    input[0] = b'Z';
    let error = decode(&input[..]).unwrap_err();

    assert_eq!(error, ImageError::UnsupportedFormat);
}

#[test]
fn decode_rejects_unsupported_dib_header_size() {
    let mut input = two_by_two_bmp();
    input[14] = 12;
    input[15] = 0;
    input[16] = 0;
    input[17] = 0;
    let error = decode(&input[..]).unwrap_err();

    assert_eq!(error, ImageError::UnsupportedFormat);
}

#[test]
fn decode_rejects_unsupported_bits_per_pixel() {
    let mut input = two_by_two_bmp();
    input[28] = 32;
    input[29] = 0;
    let error = decode(&input[..]).unwrap_err();

    assert_eq!(error, ImageError::UnsupportedFormat);
}

#[test]
fn decode_rejects_unsupported_compression() {
    let mut input = two_by_two_bmp();
    input[30] = 1;
    let error = decode(&input[..]).unwrap_err();

    assert_eq!(error, ImageError::UnsupportedFormat);
}

#[test]
fn decode_rejects_8_bit_color_index_out_of_range() {
    let mut input = two_by_two_indexed8_bmp();
    input[62] = 2;
    let error = decode(&input[..]).unwrap_err();

    assert_eq!(
        error,
        ImageError::InvalidData {
            reason: "BMP color index out of range"
        }
    );
}

#[test]
fn decode_rejects_1_bit_color_index_out_of_range() {
    let input = two_by_two_indexed1_bmp_with_color_table(1);
    let error = decode(&input[..]).unwrap_err();

    assert_eq!(
        error,
        ImageError::InvalidData {
            reason: "BMP color index out of range"
        }
    );
}

#[test]
fn decode_rejects_4_bit_color_index_out_of_range() {
    let input = two_by_two_indexed4_bmp_with_color_table(1);
    let error = decode(&input[..]).unwrap_err();

    assert_eq!(
        error,
        ImageError::InvalidData {
            reason: "BMP color index out of range"
        }
    );
}

#[test]
fn decode_ignores_8_bit_color_table_reserved_byte() {
    let mut input = two_by_two_indexed8_bmp();
    input[57] = 1;
    let image = decode(&input[..]).unwrap();

    assert_eq!(image.data, [0, 0, 0, 255, 0, 0, 255, 0, 0, 0, 0, 0]);
}

#[test]
fn decode_native_rejects_8_bit_color_table_larger_than_max() {
    let mut input = two_by_two_indexed8_bmp();
    input[46..50].copy_from_slice(&257_u32.to_le_bytes());
    let error = decode_native(&input[..]).unwrap_err();

    assert_eq!(
        error,
        ImageError::InvalidHeader {
            reason: "invalid BMP color table length"
        }
    );
}

#[test]
fn decode_native_rejects_1_bit_color_table_larger_than_max() {
    let mut input = two_by_two_indexed1_bmp();
    input[46..50].copy_from_slice(&3_u32.to_le_bytes());
    let error = decode_native(&input[..]).unwrap_err();

    assert_eq!(
        error,
        ImageError::InvalidHeader {
            reason: "invalid BMP color table length"
        }
    );
}

#[test]
fn decode_native_rejects_4_bit_color_table_larger_than_max() {
    let mut input = two_by_two_indexed4_bmp();
    input[46..50].copy_from_slice(&17_u32.to_le_bytes());
    let error = decode_native(&input[..]).unwrap_err();

    assert_eq!(
        error,
        ImageError::InvalidHeader {
            reason: "invalid BMP color table length"
        }
    );
}

#[test]
fn decode_native_rejects_pixel_offset_inside_color_table() {
    let mut input = two_by_two_indexed8_bmp();
    input[10..14].copy_from_slice(&58_u32.to_le_bytes());
    let error = decode_native(&input[..]).unwrap_err();

    assert_eq!(
        error,
        ImageError::InvalidHeader {
            reason: "invalid pixel data offset"
        }
    );
}

#[test]
fn decode_rejects_short_pixel_data() {
    let mut input = two_by_two_bmp();
    input.truncate(input.len() - 1);
    let file_size = input.len() as u32;
    input[2..6].copy_from_slice(&file_size.to_le_bytes());
    let error = decode(&input[..]).unwrap_err();

    assert_eq!(
        error,
        ImageError::InvalidBufferLength {
            expected: 70,
            actual: 69
        }
    );
}

#[test]
fn encode_writes_24_bit_bottom_up_bmp_image() {
    let data = [255, 0, 0, 0, 255, 0, 0, 0, 255, 255, 255, 255];
    let image = ImageView::new(2, 2, PixelFormat::Rgb8, 6, &data).unwrap();
    let mut output = Vec::new();

    encode(&mut output, image, BmpEncodeOptions::default()).unwrap();

    assert_eq!(output, two_by_two_bmp());
}

#[test]
fn encode_writes_24_bit_top_down_bmp_image() {
    let data = [255, 0, 0, 0, 255, 0, 0, 0, 255, 255, 255, 255];
    let image = ImageView::new(2, 2, PixelFormat::Rgb8, 6, &data).unwrap();
    let mut output = Vec::new();

    encode(
        &mut output,
        image,
        BmpEncodeOptions::new().with_orientation(BmpOrientation::TopDown),
    )
    .unwrap();

    assert_eq!(output, two_by_two_top_down_bmp());
}

#[test]
fn encode_writes_resolution_metadata() {
    let data = [255, 0, 0];
    let image = ImageView::new(1, 1, PixelFormat::Rgb8, 3, &data).unwrap();
    let mut output = Vec::new();

    encode(
        &mut output,
        image,
        BmpEncodeOptions::new().with_resolution(100, 200),
    )
    .unwrap();
    let native = decode_native(&output[..]).unwrap();

    assert_eq!(
        native.dib_header,
        BmpDibHeader::BitmapInfoHeader(BmpInfoHeader {
            width: 1,
            height: 1,
            planes: 1,
            bits_per_pixel: 24,
            compression: 0,
            image_size: 4,
            x_pixels_per_meter: 100,
            y_pixels_per_meter: 200,
            colors_used: 0,
            important_colors: 0,
        })
    );
}

#[test]
fn encode_writes_8_bit_indexed_bmp_with_palette() {
    let data = [0, 0, 0, 255, 0, 0, 255, 0, 0, 0, 0, 0];
    let image = ImageView::new(2, 2, PixelFormat::Rgb8, 6, &data).unwrap();
    let options = BmpEncodeOptions::new().with_pixel_encoding(BmpPixelEncoding::Indexed8 {
        color_table: black_and_red_color_table(),
    });
    let mut output = Vec::new();

    encode(&mut output, image, options).unwrap();

    assert_eq!(output, two_by_two_indexed8_bmp());
}

#[test]
fn encode_native_writes_bmp_image() {
    let image = decode_native(&two_by_two_bmp()[..]).unwrap();
    let mut output = Vec::new();

    encode_native(&mut output, &image).unwrap();

    assert_eq!(output, two_by_two_bmp());
}

#[test]
fn encode_native_writes_8_bit_indexed_bmp() {
    let image = decode_native(&two_by_two_indexed8_bmp()[..]).unwrap();
    let mut output = Vec::new();

    encode_native(&mut output, &image).unwrap();

    assert_eq!(output, two_by_two_indexed8_bmp());
}

#[test]
fn encode_native_allows_zero_image_size_for_bi_rgb() {
    let mut image = decode_native(&two_by_two_bmp()[..]).unwrap();
    let BmpDibHeader::BitmapInfoHeader(info_header) = &mut image.dib_header;
    info_header.image_size = 0;
    let mut output = Vec::new();

    encode_native(&mut output, &image).unwrap();

    assert_eq!(&output[34..38], &0_u32.to_le_bytes());
    assert_eq!(decode(&output[..]).unwrap().width, 2);
}

#[test]
fn encode_native_preserves_reserved_file_header_fields() {
    let mut image = decode_native(&two_by_two_bmp()[..]).unwrap();
    image.file_header.reserved1 = 1;
    image.file_header.reserved2 = 2;
    let mut output = Vec::new();

    encode_native(&mut output, &image).unwrap();

    assert_eq!(&output[6..8], &1_u16.to_le_bytes());
    assert_eq!(&output[8..10], &2_u16.to_le_bytes());
}

#[test]
fn encode_native_preserves_inconsistent_file_header_fields() {
    let mut image = decode_native(&two_by_two_bmp()[..]).unwrap();
    image.file_header.file_size += 1;
    let mut output = Vec::new();

    encode_native(&mut output, &image).unwrap();

    assert_eq!(&output[2..6], &71_u32.to_le_bytes());
}

#[test]
fn encode_native_preserves_inconsistent_nonzero_image_size() {
    let mut image = decode_native(&two_by_two_bmp()[..]).unwrap();
    let BmpDibHeader::BitmapInfoHeader(info_header) = &mut image.dib_header;
    info_header.image_size += 1;
    let mut output = Vec::new();

    encode_native(&mut output, &image).unwrap();

    assert_eq!(&output[34..38], &17_u32.to_le_bytes());
}

#[test]
fn image_view_to_bmp_native_converts_rgb8_image() {
    let data = [255, 0, 0];
    let image = ImageView::new(1, 1, PixelFormat::Rgb8, 3, &data).unwrap();

    let native = image_view_to_bmp_native(image, BmpEncodeOptions::default()).unwrap();

    assert_eq!(native.file_header.file_size, 58);
    assert_eq!(native.file_header.pixel_offset, 54);
    assert_eq!(native.pixel_array, [0, 0, 255, 0]);
}

#[test]
fn image_view_to_bmp_native_converts_rgb8_image_to_indexed8_with_palette() {
    let data = [0, 0, 0, 255, 0, 0, 255, 0, 0, 0, 0, 0];
    let image = ImageView::new(2, 2, PixelFormat::Rgb8, 6, &data).unwrap();
    let options = BmpEncodeOptions::new().with_pixel_encoding(BmpPixelEncoding::Indexed8 {
        color_table: black_and_red_color_table(),
    });

    let native = image_view_to_bmp_native(image, options).unwrap();

    assert_eq!(native.file_header.file_size, 70);
    assert_eq!(native.file_header.pixel_offset, 62);
    assert_eq!(
        native.dib_header,
        BmpDibHeader::BitmapInfoHeader(BmpInfoHeader {
            width: 2,
            height: 2,
            planes: 1,
            bits_per_pixel: 8,
            compression: 0,
            image_size: 8,
            x_pixels_per_meter: 0,
            y_pixels_per_meter: 0,
            colors_used: 2,
            important_colors: 0,
        })
    );
    assert_eq!(native.color_table, black_and_red_color_table());
    assert_eq!(native.pixel_array, [1, 0, 0, 0, 0, 1, 0, 0]);
}

#[test]
fn image_view_to_bmp_native_rejects_indexed8_palette_without_input_color() {
    let data = [0, 255, 0];
    let image = ImageView::new(1, 1, PixelFormat::Rgb8, 3, &data).unwrap();
    let options = BmpEncodeOptions::new().with_pixel_encoding(BmpPixelEncoding::Indexed8 {
        color_table: black_and_red_color_table(),
    });

    let error = image_view_to_bmp_native(image, options).unwrap_err();

    assert_eq!(
        error,
        ImageError::InvalidData {
            reason: "BMP palette does not contain input color"
        }
    );
}

#[test]
fn image_view_to_bmp_native_rejects_empty_indexed8_palette() {
    let data = [0, 0, 0];
    let image = ImageView::new(1, 1, PixelFormat::Rgb8, 3, &data).unwrap();
    let options = BmpEncodeOptions::new().with_pixel_encoding(BmpPixelEncoding::Indexed8 {
        color_table: Vec::new(),
    });

    let error = image_view_to_bmp_native(image, options).unwrap_err();

    assert_eq!(
        error,
        ImageError::InvalidData {
            reason: "invalid BMP color table length"
        }
    );
}

#[test]
fn image_view_to_bmp_native_rejects_indexed8_palette_reserved_value() {
    let data = [0, 0, 0];
    let image = ImageView::new(1, 1, PixelFormat::Rgb8, 3, &data).unwrap();
    let options = BmpEncodeOptions::new().with_pixel_encoding(BmpPixelEncoding::Indexed8 {
        color_table: vec![BmpColorTableEntry {
            blue: 0,
            green: 0,
            red: 0,
            reserved: 1,
        }],
    });

    let error = image_view_to_bmp_native(image, options).unwrap_err();

    assert_eq!(
        error,
        ImageError::InvalidData {
            reason: "invalid BMP color table reserved value"
        }
    );
}

#[test]
fn image_view_to_bmp_native_auto_uses_indexed8_for_256_or_fewer_colors() {
    let data = [0, 0, 0, 255, 0, 0, 255, 0, 0, 0, 0, 0];
    let image = ImageView::new(2, 2, PixelFormat::Rgb8, 6, &data).unwrap();

    let native = image_view_to_bmp_native(
        image,
        BmpEncodeOptions::new().with_pixel_encoding(BmpPixelEncoding::AutoIndexed8OrRgb24),
    )
    .unwrap();

    let BmpDibHeader::BitmapInfoHeader(info_header) = native.dib_header;
    assert_eq!(info_header.bits_per_pixel, 8);
    assert_eq!(info_header.colors_used, 2);
    assert_eq!(native.color_table, black_and_red_color_table());
    assert_eq!(native.pixel_array, [1, 0, 0, 0, 0, 1, 0, 0]);
}

#[test]
fn image_view_to_bmp_native_auto_uses_rgb24_for_more_than_256_colors() {
    let mut data = Vec::new();
    for value in 0..257_u32 {
        data.extend_from_slice(&[(value & 0xff) as u8, (value >> 8) as u8, 0]);
    }
    let image = ImageView::new(257, 1, PixelFormat::Rgb8, 257 * 3, &data).unwrap();

    let native = image_view_to_bmp_native(
        image,
        BmpEncodeOptions::new().with_pixel_encoding(BmpPixelEncoding::AutoIndexed8OrRgb24),
    )
    .unwrap();

    let BmpDibHeader::BitmapInfoHeader(info_header) = native.dib_header;
    assert_eq!(info_header.bits_per_pixel, 24);
    assert_eq!(info_header.colors_used, 0);
    assert!(native.color_table.is_empty());
}

#[test]
fn bmp_encode_writes_only_pixel_bytes_from_strided_rows() {
    let data = [255, 0, 0, 99, 0, 255, 0, 88];
    let image = ImageView::new(1, 2, PixelFormat::Rgb8, 4, &data).unwrap();
    let mut output = Vec::new();

    encode(&mut output, image, BmpEncodeOptions::default()).unwrap();
    let decoded = decode(&output[..]).unwrap();

    assert_eq!(decoded.width, 1);
    assert_eq!(decoded.height, 2);
    assert_eq!(decoded.data, [255, 0, 0, 0, 255, 0]);
}

#[test]
fn bmp_encode_rejects_non_rgb8_pixel_format() {
    let data = [0];
    let image = ImageView::new(1, 1, PixelFormat::Gray8, 1, &data).unwrap();
    let error = encode(&mut Vec::new(), image, BmpEncodeOptions::default()).unwrap_err();

    assert_eq!(
        error,
        ImageError::UnsupportedPixelFormat {
            pixel_format: PixelFormat::Gray8
        }
    );
}

#[test]
fn bmp_encode_rejects_zero_dimensions() {
    let image = ImageView {
        width: 0,
        height: 1,
        pixel_format: PixelFormat::Rgb8,
        stride: 0,
        data: &[],
    };
    let error = encode(&mut Vec::new(), image, BmpEncodeOptions::default()).unwrap_err();

    assert_eq!(
        error,
        ImageError::InvalidData {
            reason: "width and height must be greater than zero"
        }
    );
}

#[test]
fn bmp_integration_decode_encode_roundtrip_preserves_pixels() {
    let input = two_by_two_bmp();
    let image = decode(&input[..]).unwrap();
    let mut output = Vec::new();

    encode(&mut output, image.as_view(), BmpEncodeOptions::default()).unwrap();
    let decoded = decode(&output[..]).unwrap();

    assert_eq!(decoded, image);
}

fn two_by_two_bmp() -> Vec<u8> {
    two_by_two_bmp_with_height(2)
}

fn two_by_two_top_down_bmp() -> Vec<u8> {
    let mut data = Vec::new();

    data.extend_from_slice(b"BM");
    data.extend_from_slice(&70_u32.to_le_bytes());
    data.extend_from_slice(&0_u16.to_le_bytes());
    data.extend_from_slice(&0_u16.to_le_bytes());
    data.extend_from_slice(&54_u32.to_le_bytes());

    data.extend_from_slice(&40_u32.to_le_bytes());
    data.extend_from_slice(&2_i32.to_le_bytes());
    data.extend_from_slice(&(-2_i32).to_le_bytes());
    data.extend_from_slice(&1_u16.to_le_bytes());
    data.extend_from_slice(&24_u16.to_le_bytes());
    data.extend_from_slice(&0_u32.to_le_bytes());
    data.extend_from_slice(&16_u32.to_le_bytes());
    data.extend_from_slice(&0_i32.to_le_bytes());
    data.extend_from_slice(&0_i32.to_le_bytes());
    data.extend_from_slice(&0_u32.to_le_bytes());
    data.extend_from_slice(&0_u32.to_le_bytes());

    data.extend_from_slice(&[0, 0, 255, 0, 255, 0, 0, 0]);
    data.extend_from_slice(&[255, 0, 0, 255, 255, 255, 0, 0]);

    data
}

fn two_by_two_indexed1_bmp() -> Vec<u8> {
    two_by_two_indexed_bmp_with_color_table(
        BITS_PER_PIXEL_INDEXED1,
        2,
        &[0x80, 0, 0, 0, 0x40, 0, 0, 0],
    )
}

fn two_by_two_indexed1_top_down_bmp() -> Vec<u8> {
    let mut data = two_by_two_indexed1_bmp();
    data[22..26].copy_from_slice(&(-2_i32).to_le_bytes());
    data[62..70].copy_from_slice(&[0x80, 0, 0, 0, 0x40, 0, 0, 0]);
    data
}

fn two_by_two_indexed1_bmp_with_color_table(color_count: usize) -> Vec<u8> {
    two_by_two_indexed_bmp_with_color_table(
        BITS_PER_PIXEL_INDEXED1,
        color_count,
        &[0x80, 0, 0, 0, 0x40, 0, 0, 0],
    )
}

fn two_by_two_indexed4_bmp() -> Vec<u8> {
    two_by_two_indexed4_bmp_with_color_table(2)
}

fn two_by_two_indexed4_top_down_bmp() -> Vec<u8> {
    let mut data = two_by_two_indexed4_bmp();
    data[22..26].copy_from_slice(&(-2_i32).to_le_bytes());
    data[62..70].copy_from_slice(&[0x10, 0, 0, 0, 0x01, 0, 0, 0]);
    data
}

fn two_by_two_indexed4_bmp_with_color_table(color_count: usize) -> Vec<u8> {
    two_by_two_indexed_bmp_with_color_table(
        BITS_PER_PIXEL_INDEXED4,
        color_count,
        &[0x10, 0, 0, 0, 0x01, 0, 0, 0],
    )
}

fn two_by_two_indexed8_bmp() -> Vec<u8> {
    two_by_two_indexed8_bmp_with_color_table(2)
}

fn two_by_two_indexed8_top_down_bmp() -> Vec<u8> {
    let mut data = two_by_two_indexed8_bmp();
    data[22..26].copy_from_slice(&(-2_i32).to_le_bytes());
    data[62..70].copy_from_slice(&[1, 0, 0, 0, 0, 1, 0, 0]);
    data
}

fn two_by_two_indexed8_bmp_with_256_colors() -> Vec<u8> {
    two_by_two_indexed8_bmp_with_color_table(256)
}

fn black_and_red_color_table() -> Vec<BmpColorTableEntry> {
    vec![
        BmpColorTableEntry {
            blue: 0,
            green: 0,
            red: 0,
            reserved: 0,
        },
        BmpColorTableEntry {
            blue: 0,
            green: 0,
            red: 255,
            reserved: 0,
        },
    ]
}

fn two_by_two_indexed8_bmp_with_color_table(color_count: usize) -> Vec<u8> {
    two_by_two_indexed_bmp_with_color_table(
        BITS_PER_PIXEL_INDEXED8,
        color_count,
        &[1, 0, 0, 0, 0, 1, 0, 0],
    )
}

fn two_by_two_indexed_bmp_with_color_table(
    bits_per_pixel: u16,
    color_count: usize,
    pixel_array: &[u8],
) -> Vec<u8> {
    let color_table_len = color_count * COLOR_TABLE_ENTRY_SIZE as usize;
    let pixel_offset = PIXEL_OFFSET as usize + color_table_len;
    let file_size = pixel_offset + pixel_array.len();
    let max_colors = 1_usize << bits_per_pixel;
    let mut data = Vec::new();

    data.extend_from_slice(b"BM");
    data.extend_from_slice(&(file_size as u32).to_le_bytes());
    data.extend_from_slice(&0_u16.to_le_bytes());
    data.extend_from_slice(&0_u16.to_le_bytes());
    data.extend_from_slice(&(pixel_offset as u32).to_le_bytes());

    data.extend_from_slice(&40_u32.to_le_bytes());
    data.extend_from_slice(&2_i32.to_le_bytes());
    data.extend_from_slice(&2_i32.to_le_bytes());
    data.extend_from_slice(&1_u16.to_le_bytes());
    data.extend_from_slice(&bits_per_pixel.to_le_bytes());
    data.extend_from_slice(&0_u32.to_le_bytes());
    data.extend_from_slice(&(pixel_array.len() as u32).to_le_bytes());
    data.extend_from_slice(&0_i32.to_le_bytes());
    data.extend_from_slice(&0_i32.to_le_bytes());
    data.extend_from_slice(
        &(if color_count == max_colors {
            0
        } else {
            color_count as u32
        })
        .to_le_bytes(),
    );
    data.extend_from_slice(&0_u32.to_le_bytes());

    data.extend_from_slice(&[0, 0, 0, 0]);
    data.extend_from_slice(&[0, 0, 255, 0]);
    for _ in 2..color_count {
        data.extend_from_slice(&[0, 0, 0, 0]);
    }
    data.extend_from_slice(pixel_array);

    data
}

fn two_by_two_bmp_with_pixel_gap() -> Vec<u8> {
    let mut data = two_by_two_bmp();
    data[2..6].copy_from_slice(&72_u32.to_le_bytes());
    data[10..14].copy_from_slice(&56_u32.to_le_bytes());
    data.splice(54..54, [0xaa, 0xbb]);
    data
}

fn two_by_two_bmp_with_height(height: i32) -> Vec<u8> {
    let mut data = Vec::new();

    data.extend_from_slice(b"BM");
    data.extend_from_slice(&70_u32.to_le_bytes());
    data.extend_from_slice(&0_u16.to_le_bytes());
    data.extend_from_slice(&0_u16.to_le_bytes());
    data.extend_from_slice(&54_u32.to_le_bytes());

    data.extend_from_slice(&40_u32.to_le_bytes());
    data.extend_from_slice(&2_i32.to_le_bytes());
    data.extend_from_slice(&height.to_le_bytes());
    data.extend_from_slice(&1_u16.to_le_bytes());
    data.extend_from_slice(&24_u16.to_le_bytes());
    data.extend_from_slice(&0_u32.to_le_bytes());
    data.extend_from_slice(&16_u32.to_le_bytes());
    data.extend_from_slice(&0_i32.to_le_bytes());
    data.extend_from_slice(&0_i32.to_le_bytes());
    data.extend_from_slice(&0_u32.to_le_bytes());
    data.extend_from_slice(&0_u32.to_le_bytes());

    data.extend_from_slice(&[255, 0, 0, 255, 255, 255, 0, 0]);
    data.extend_from_slice(&[0, 0, 255, 0, 255, 0, 0, 0]);

    data
}
