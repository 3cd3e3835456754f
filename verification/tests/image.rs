use kimage::{Image, ImageError, ImageView, PixelFormat};


#[test]
fn pixel_format_channels_returns_channel_count() {
    assert_eq!(PixelFormat::Gray8.channels(), 1);
    assert_eq!(PixelFormat::Gray16.channels(), 1);
    assert_eq!(PixelFormat::Rgb8.channels(), 3);
    assert_eq!(PixelFormat::Rgb16.channels(), 3);
    assert_eq!(PixelFormat::Rgba8.channels(), 4);
}

#[test]
fn pixel_format_bytes_per_pixel_returns_byte_count() {
    assert_eq!(PixelFormat::Gray8.bytes_per_pixel(), 1);
    assert_eq!(PixelFormat::Gray16.bytes_per_pixel(), 2);
    assert_eq!(PixelFormat::Rgb8.bytes_per_pixel(), 3);
    assert_eq!(PixelFormat::Rgb16.bytes_per_pixel(), 6);
    assert_eq!(PixelFormat::Rgba8.bytes_per_pixel(), 4);
}

#[test]
fn image_new_accepts_matching_buffer_length() {
    let image = Image::new(2, 2, PixelFormat::Rgb8, vec![0; 12]).unwrap();

    assert_eq!(image.width, 2);
    assert_eq!(image.height, 2);
    assert_eq!(image.pixel_format, PixelFormat::Rgb8);
    assert_eq!(image.data.len(), 12);
}

#[test]
fn image_new_rejects_invalid_buffer_length() {
    let error = Image::new(2, 2, PixelFormat::Rgb8, vec![0; 11]).unwrap_err();

    assert_eq!(
        error,
        ImageError::InvalidBufferLength {
            expected: 12,
            actual: 11
        }
    );
}

#[test]
fn image_stride_returns_packed_row_length() {
    let image = Image::new(3, 2, PixelFormat::Rgba8, vec![0; 24]).unwrap();

    assert_eq!(image.stride(), 12);
}

#[test]
fn image_as_view_borrows_image_buffer() {
    let image = Image::new(2, 2, PixelFormat::Rgba8, vec![1; 16]).unwrap();
    let view = image.as_view();

    assert_eq!(view.width, 2);
    assert_eq!(view.height, 2);
    assert_eq!(view.pixel_format, PixelFormat::Rgba8);
    assert_eq!(view.stride, 8);
    assert_eq!(view.data, image.data.as_slice());
}

#[test]
fn image_view_new_accepts_matching_strided_buffer() {
    let data = [0; 16];
    let view = ImageView::new(2, 2, PixelFormat::Rgb8, 8, &data).unwrap();

    assert_eq!(view.stride, 8);
    assert_eq!(view.data.len(), 16);
}

#[test]
fn image_view_new_rejects_stride_smaller_than_row_length() {
    let data = [0; 12];
    let error = ImageView::new(2, 2, PixelFormat::Rgb8, 5, &data).unwrap_err();

    assert_eq!(
        error,
        ImageError::InvalidStride {
            minimum: 6,
            actual: 5
        }
    );
}

#[test]
fn image_view_new_rejects_short_strided_buffer() {
    let data = [0; 13];
    let error = ImageView::new(2, 2, PixelFormat::Rgb8, 8, &data).unwrap_err();

    assert_eq!(
        error,
        ImageError::InvalidBufferLength {
            expected: 14,
            actual: 13
        }
    );
}
