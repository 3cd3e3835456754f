use vstd::prelude::*;

use crate::error::ImageError;

verus! {

/// Pixel formats supported by the core image container.
#[derive(Debug, Clone, Copy, PartialEq, Eq, Structural)]
pub enum PixelFormat {
    Gray8,
    Gray16,
    Rgb8,
    Rgb16,
    Rgba8,
    GrayAlpha8,
    GrayAlpha16,
    Rgba16,
}

impl PixelFormat {
    /// Number of color channels of the format, as a number.
    pub open spec fn spec_channels(self) -> nat {
        match self {
            PixelFormat::Gray8 => 1,
            PixelFormat::Gray16 => 1,
            PixelFormat::Rgb8 => 3,
            PixelFormat::Rgb16 => 3,
            PixelFormat::Rgba8 => 4,
            PixelFormat::GrayAlpha8 => 2,
            PixelFormat::GrayAlpha16 => 2,
            PixelFormat::Rgba16 => 4,
        }
    }

    /// Number of bytes of one pixel of the format, as a number.
    pub open spec fn spec_bytes_per_pixel(self) -> nat {
        match self {
            PixelFormat::Gray8 => 1,
            PixelFormat::Gray16 => 2,
            PixelFormat::Rgb8 => 3,
            PixelFormat::Rgb16 => 6,
            PixelFormat::Rgba8 => 4,
            PixelFormat::GrayAlpha8 => 2,
            PixelFormat::GrayAlpha16 => 4,
            PixelFormat::Rgba16 => 8,
        }
    }

    /// Returns the number of color channels in this pixel format.
    pub fn channels(self) -> (n: usize)
        ensures
            n == self.spec_channels(),
    {
        match self {
            PixelFormat::Gray8 => 1,
            PixelFormat::Gray16 => 1,
            PixelFormat::Rgb8 => 3,
            PixelFormat::Rgb16 => 3,
            PixelFormat::Rgba8 => 4,
            PixelFormat::GrayAlpha8 => 2,
            PixelFormat::GrayAlpha16 => 2,
            PixelFormat::Rgba16 => 4,
        }
    }

    /// Returns the number of bytes used by one pixel in this pixel format.
    pub fn bytes_per_pixel(self) -> (n: usize)
        ensures
            n == self.spec_bytes_per_pixel(),
            1 <= n <= 8,
    {
        match self {
            PixelFormat::Gray8 => 1,
            PixelFormat::Gray16 => 2,
            PixelFormat::Rgb8 => 3,
            PixelFormat::Rgb16 => 6,
            PixelFormat::Rgba8 => 4,
            PixelFormat::GrayAlpha8 => 2,
            PixelFormat::GrayAlpha16 => 4,
            PixelFormat::Rgba16 => 8,
        }
    }
}

/// Bytes of one tightly packed row.
pub open spec fn row_len(width: u32, pixel_format: PixelFormat) -> int {
    width * pixel_format.spec_bytes_per_pixel()
}

/// Bytes of a tightly packed image.
pub open spec fn packed_len(width: u32, height: u32, pixel_format: PixelFormat) -> int {
    width * height * pixel_format.spec_bytes_per_pixel()
}

/// Bytes that a strided buffer must hold: every row but the last takes a full
/// stride, the last only its pixels.
pub open spec fn strided_len(width: u32, height: u32, pixel_format: PixelFormat, stride: int) -> int {
    if height == 0 {
        0
    } else {
        (height - 1) * stride + row_len(width, pixel_format)
    }
}

/// The error that an image with these dimensions is too large for memory.
pub open spec fn too_large(width: u32, height: u32, pixel_format: PixelFormat) -> ImageError {
    ImageError::ImageDimensionsTooLarge {
        width,
        height,
        bytes_per_pixel: pixel_format.spec_bytes_per_pixel() as usize,
    }
}

/// The rows `0..n` of a strided buffer, each `row` bytes long and `stride`
/// bytes apart, concatenated.
pub open spec fn strided_rows(data: Seq<u8>, stride: int, row: int, n: nat) -> Seq<u8>
    decreases n,
{
    if n == 0 {
        Seq::empty()
    } else {
        strided_rows(data, stride, row, (n - 1) as nat) + data.subrange(
            (n - 1) * stride,
            (n - 1) * stride + row,
        )
    }
}

/// The mathematical value of an `Image`: its fields, the buffer as a sequence.
pub struct ImageModel {
    pub width: u32,
    pub height: u32,
    pub pixel_format: PixelFormat,
    pub data: Seq<u8>,
}

/// What `Image::new` makes of its arguments.
pub open spec fn new_image_spec(width: u32, height: u32, pixel_format: PixelFormat, data: Seq<u8>) -> Result<
    ImageModel,
    ImageError,
> {
    match image_new_error(width, height, pixel_format, data.len() as int) {
        Some(e) => Err(e),
        None => Ok(ImageModel { width, height, pixel_format, data }),
    }
}

/// A result holding an image, seen through the image's model.
pub open spec fn image_result(r: Result<Image, ImageError>) -> Result<ImageModel, ImageError> {
    match r {
        Ok(image) => Ok(image@),
        Err(e) => Err(e),
    }
}

/// An owned, tightly packed image buffer.
#[derive(Debug, Clone, PartialEq, Eq)]
pub struct Image {
    pub width: u32,
    pub height: u32,
    pub pixel_format: PixelFormat,
    pub data: Vec<u8>,
}

/// The check that `Image::new` makes: `None` when the buffer fits the
/// dimensions, else the error it reports.
pub open spec fn image_new_error(
    width: u32,
    height: u32,
    pixel_format: PixelFormat,
    len: int,
) -> Option<ImageError> {
    let expected = packed_len(width, height, pixel_format);
    if expected > usize::MAX {
        Some(too_large(width, height, pixel_format))
    } else if len != expected {
        Some(ImageError::InvalidBufferLength { expected: expected as usize, actual: len as usize })
    } else {
        None
    }
}

impl View for Image {
    type V = ImageModel;

    open spec fn view(&self) -> ImageModel {
        ImageModel {
            width: self.width,
            height: self.height,
            pixel_format: self.pixel_format,
            data: self.data@,
        }
    }
}

impl Image {
    /// The buffer length matches the dimensions.
    pub open spec fn wf(&self) -> bool {
        self.data.len() == packed_len(self.width, self.height, self.pixel_format)
    }

    /// Creates an image and validates that the buffer length matches its dimensions.
    pub fn new(width: u32, height: u32, pixel_format: PixelFormat, data: Vec<u8>) -> (res: Result<
        Self,
        ImageError,
    >)
        ensures
            match res {
                Ok(image) => {
                    &&& image_new_error(width, height, pixel_format, data.len() as int) is None
                    &&& image.width == width
                    &&& image.height == height
                    &&& image.pixel_format == pixel_format
                    &&& image.data@ == data@
                    &&& image.wf()
                },
                Err(e) => image_new_error(width, height, pixel_format, data.len() as int) == Some(
                    e,
                ),
            },
            image_result(res) == new_image_spec(width, height, pixel_format, data@),
            match res {
                Ok(image) => true,
                Err(e) => image_new_error(width, height, pixel_format, data.len() as int) == Some(
                    e,
                ),
            },
    {
        let expected = match packed_buffer_len(width, height, pixel_format) {
            Ok(expected) => expected,
            Err(e) => return Err(e),
        };
        let actual = data.len();

        if actual != expected {
            return Err(ImageError::InvalidBufferLength { expected, actual });
        }
        Ok(Image { width, height, pixel_format, data })
    }

    /// Returns the number of bytes in a tightly packed row.
    pub fn stride(&self) -> (n: usize)
        requires
            row_len(self.width, self.pixel_format) <= usize::MAX,
        ensures
            n == row_len(self.width, self.pixel_format),
    {
        match row_len_exec(self.width, self.pixel_format) {
            Some(n) => n,
            None => 0,
        }
    }

    /// Borrows this image as a read-only image view.
    pub fn as_view(&self) -> (view: ImageView<'_>)
        requires
            row_len(self.width, self.pixel_format) <= usize::MAX,
        ensures
            view.width == self.width,
            view.height == self.height,
            view.pixel_format == self.pixel_format,
            view.stride == row_len(self.width, self.pixel_format),
            view.data@ == self.data@,
            self.wf() ==> view.covers() && view.pixels() == self.data@,
            self.wf() ==> image_view_new_error(
                view.width,
                view.height,
                view.pixel_format,
                view.stride,
                view.data@.len() as int,
            ) is None,
    {
        let view = ImageView {
            width: self.width,
            height: self.height,
            pixel_format: self.pixel_format,
            stride: self.stride(),
            data: self.data.as_slice(),
        };
        proof {
            if self.wf() {
                lemma_packed_view(self.data@, self.width, self.height, self.pixel_format);
                lemma_image_view_accepted(*self);
            }
        }
        view
    }
}

/// A borrowed image buffer with an explicit row stride.
#[derive(Debug, Clone, Copy, PartialEq, Eq)]
pub struct ImageView<'a> {
    pub width: u32,
    pub height: u32,
    pub pixel_format: PixelFormat,
    pub stride: usize,
    pub data: &'a [u8],
}

/// The check that `ImageView::new` makes: `None` when the buffer covers
/// every row, else the error it reports.
pub open spec fn image_view_new_error(
    width: u32,
    height: u32,
    pixel_format: PixelFormat,
    stride: usize,
    len: int,
) -> Option<ImageError> {
    let minimum = row_len(width, pixel_format);
    let expected = strided_len(width, height, pixel_format, stride as int);
    if minimum > usize::MAX {
        Some(too_large(width, height, pixel_format))
    } else if stride < minimum {
        Some(ImageError::InvalidStride { minimum: minimum as usize, actual: stride })
    } else if expected > usize::MAX {
        Some(too_large(width, height, pixel_format))
    } else if len < expected {
        Some(ImageError::InvalidBufferLength { expected: expected as usize, actual: len as usize })
    } else {
        None
    }
}

impl<'a> ImageView<'a> {
    /// The stride holds a row and the buffer holds every row.
    pub open spec fn covers(&self) -> bool {
        &&& self.stride >= row_len(self.width, self.pixel_format)
        &&& strided_len(self.width, self.height, self.pixel_format, self.stride as int)
            <= self.data@.len()
    }

    /// The pixel bytes of the view, row after row, without the stride gaps.
    pub open spec fn pixels(&self) -> Seq<u8> {
        strided_rows(
            self.data@,
            self.stride as int,
            row_len(self.width, self.pixel_format),
            self.height as nat,
        )
    }

    /// Creates an image view and validates that the buffer covers every row.
    pub fn new(
        width: u32,
        height: u32,
        pixel_format: PixelFormat,
        stride: usize,
        data: &'a [u8],
    ) -> (res: Result<Self, ImageError>)
        ensures
            match res {
                Ok(view) => {
                    &&& image_view_new_error(width, height, pixel_format, stride, data@.len() as int)
                        is None
                    &&& view == (ImageView { width, height, pixel_format, stride, data })
                    &&& view.covers()
                },
                Err(e) => image_view_new_error(
                    width,
                    height,
                    pixel_format,
                    stride,
                    data@.len() as int,
                ) == Some(e),
            },
    {
        let minimum_stride = match row_len_exec(width, pixel_format) {
            Some(n) => n,
            None => return Err(too_large_exec(width, height, pixel_format)),
        };

        if stride < minimum_stride {
            return Err(ImageError::InvalidStride { minimum: minimum_stride, actual: stride });
        }
        let expected = match strided_buffer_len(width, height, pixel_format, stride) {
            Ok(expected) => expected,
            Err(e) => return Err(e),
        };
        let actual = data.len();

        if actual < expected {
            return Err(ImageError::InvalidBufferLength { expected, actual });
        }
        Ok(ImageView { width, height, pixel_format, stride, data })
    }
}

/// Bytes of one tightly packed row, or `None` where that does not fit a
/// `usize` (never on a 64-bit target).
pub fn row_len_exec(width: u32, pixel_format: PixelFormat) -> (n: Option<usize>)
    ensures
        match n {
            Some(n) => n == row_len(width, pixel_format),
            None => row_len(width, pixel_format) > usize::MAX,
        },
{
    (width as usize).checked_mul(pixel_format.bytes_per_pixel())
}

/// The error that an image with these dimensions is too large for memory.
pub fn too_large_exec(width: u32, height: u32, pixel_format: PixelFormat) -> (e: ImageError)
    ensures
        e == too_large(width, height, pixel_format),
{
    ImageError::ImageDimensionsTooLarge {
        width,
        height,
        bytes_per_pixel: pixel_format.bytes_per_pixel(),
    }
}

/// Length of a tightly packed buffer, or the error that it does not fit memory.
pub fn packed_buffer_len(width: u32, height: u32, pixel_format: PixelFormat) -> (res: Result<
    usize,
    ImageError,
>)
    ensures
        match res {
            Ok(n) => n == packed_len(width, height, pixel_format),
            Err(e) => packed_len(width, height, pixel_format) > usize::MAX && e == too_large(
                width,
                height,
                pixel_format,
            ),
        },
{
    let bpp = pixel_format.bytes_per_pixel();
    match (width as usize).checked_mul(height as usize) {
        Some(pixels) => match pixels.checked_mul(bpp) {
            Some(n) => Ok(n),
            None => Err(ImageError::ImageDimensionsTooLarge { width, height, bytes_per_pixel: bpp }),
        },
        None => {
            assert(width * height * bpp >= width * height) by (nonlinear_arith)
                requires
                    bpp >= 1,
                    width * height >= 0,
            ;
            Err(ImageError::ImageDimensionsTooLarge { width, height, bytes_per_pixel: bpp })
        },
    }
}

/// Length of a strided buffer, or the error that it does not fit memory.
pub fn strided_buffer_len(width: u32, height: u32, pixel_format: PixelFormat, stride: usize) -> (res:
    Result<usize, ImageError>)
    ensures
        match res {
            Ok(n) => n == strided_len(width, height, pixel_format, stride as int),
            Err(e) => strided_len(width, height, pixel_format, stride as int) > usize::MAX && e
                == too_large(width, height, pixel_format),
        },
{
    if height == 0 {
        return Ok(0);
    }
    let bpp = pixel_format.bytes_per_pixel();
    let row = match row_len_exec(width, pixel_format) {
        Some(n) => n,
        None => return Err(ImageError::ImageDimensionsTooLarge { width, height, bytes_per_pixel: bpp }),
    };
    match (height as usize - 1).checked_mul(stride) {
        Some(previous_rows) => match previous_rows.checked_add(row) {
            Some(n) => Ok(n),
            None => Err(ImageError::ImageDimensionsTooLarge { width, height, bytes_per_pixel: bpp }),
        },
        None => Err(ImageError::ImageDimensionsTooLarge { width, height, bytes_per_pixel: bpp }),
    }
}

/// A well-formed image, seen with its packed row length as stride, is a view
/// that `ImageView::new` accepts: the view that `Image::as_view` gives is
/// exactly what `ImageView::new` returns for the same fields.
pub proof fn lemma_image_view_accepted(image: Image)
    requires
        image.wf(),
        row_len(image.width, image.pixel_format) <= usize::MAX,
    ensures
        image_view_new_error(
            image.width,
            image.height,
            image.pixel_format,
            row_len(image.width, image.pixel_format) as usize,
            image.data@.len() as int,
        ) is None,
{
    let w = image.width as int;
    let h = image.height as int;
    let b = image.pixel_format.spec_bytes_per_pixel() as int;
    let r = row_len(image.width, image.pixel_format);
    assert(r == w * b);
    if h > 0 {
        assert((h - 1) * (w * b) + w * b == w * h * b) by (nonlinear_arith);
    }
    assert(strided_len(image.width, image.height, image.pixel_format, r) == packed_len(
        image.width,
        image.height,
        image.pixel_format,
    ));
}

/// Rows that lie back to back in a buffer concatenate to its prefix.
pub proof fn lemma_contiguous_rows(data: Seq<u8>, row: int, n: nat)
    requires
        row >= 0,
        n * row <= data.len(),
    ensures
        strided_rows(data, row, row, n) == data.take(n * row),
    decreases n,
{
    if n > 0 {
        let k = (n - 1) * row;
        assert(k + row == n * row) by (nonlinear_arith)
            requires
                k == (n - 1) * row,
        ;
        assert(k >= 0) by (nonlinear_arith)
            requires
                k == (n - 1) * row,
                n >= 1,
                row >= 0,
        ;
        lemma_contiguous_rows(data, row, (n - 1) as nat);
        assert(strided_rows(data, row, row, n) == strided_rows(data, row, row, (n - 1) as nat)
            + data.subrange(k, k + row));
        assert(data.take(n * row) =~= data.take(k) + data.subrange(k, k + row));
    } else {
        assert(n * row == 0) by (nonlinear_arith)
            requires
                n == 0,
        ;
        assert(data.take(0) =~= Seq::<u8>::empty());
    }
}

/// A tightly packed image seen with its own row length as stride covers its
/// buffer, and its pixels are the whole buffer.
pub proof fn lemma_packed_view(data: Seq<u8>, width: u32, height: u32, pixel_format: PixelFormat)
    requires
        data.len() == packed_len(width, height, pixel_format),
    ensures
        height > 0 ==> (height - 1) * row_len(width, pixel_format) + row_len(width, pixel_format)
            == data.len(),
        strided_rows(data, row_len(width, pixel_format), row_len(width, pixel_format), height as nat)
            == data,
{
    let r = row_len(width, pixel_format);
    assert(width * height * pixel_format.spec_bytes_per_pixel() == height * r) by (nonlinear_arith)
        requires
            r == width * pixel_format.spec_bytes_per_pixel(),
    ;
    assert(r >= 0) by (nonlinear_arith)
        requires
            r == width * pixel_format.spec_bytes_per_pixel(),
    ;
    if height > 0 {
        assert((height - 1) * r + r == height * r) by (nonlinear_arith);
    }
    lemma_contiguous_rows(data, r, height as nat);
    assert(data.take(height * r) =~= data);
}

/// Rows that lie inside a buffer concatenate to `n` rows' worth of bytes.
pub proof fn lemma_strided_rows_len(data: Seq<u8>, stride: int, row: int, n: nat)
    requires
        0 <= row <= stride,
        n == 0 || (n - 1) * stride + row <= data.len(),
    ensures
        strided_rows(data, stride, row, n).len() == n * row,
    decreases n,
{
    if n > 0 {
        assert((n - 1) * stride >= 0) by (nonlinear_arith)
            requires
                n >= 1,
                stride >= 0,
        ;
        if n > 1 {
            assert((n - 2) * stride <= (n - 1) * stride) by (nonlinear_arith)
                requires
                    stride >= 0,
            ;
        }
        lemma_strided_rows_len(data, stride, row, (n - 1) as nat);
        assert((n - 1) * row + row == n * row) by (nonlinear_arith);
    }
}

/// The pixels of a covered view are `height` rows of `row_len` bytes.
pub proof fn lemma_pixels_len(view: ImageView<'_>)
    requires
        view.covers(),
    ensures
        view.pixels().len() == view.height * row_len(view.width, view.pixel_format),
{
    let r = row_len(view.width, view.pixel_format);
    assert(r >= 0) by (nonlinear_arith)
        requires
            r == view.width * view.pixel_format.spec_bytes_per_pixel(),
    ;
    lemma_strided_rows_len(view.data@, view.stride as int, r, view.height as nat);
}

} // verus!
