//! From an image file to the grid of grey samples that the hash is computed from.
//! Finding the format, the conversion to grey and the resampling are the `image`
//! crate's; this module fixes what is asked of it and sorts the failures. Decoding
//! is the caller's: the grid is made of what the decoder returned.

use crate::keys::is_nan_bits;
use vstd::prelude::*;

verus! {

/// The side of the sample grid.
pub const GRID_SIDE: u32 = 32;

/// The number of samples in the grid.
pub const GRID_LEN: usize = 1024;

/// Why no hash could be computed for a path. Each failure concerns that path alone.
#[derive(Clone, Copy, Debug, PartialEq, Eq, Structural)]
pub enum HashError {
    /// The file could not be read.
    Unreadable,
    /// The file's first bytes are those of no known image format.
    UnknownFormat,
    /// The file begins like a known format, but could not be decoded as such, or
    /// what it decodes to is no image that a grid can be made of.
    Undecodable,
}

impl HashError {
    /// The message shown for this failure.
    pub fn message(self) -> (text: &'static str)
        ensures
            text@ == match self {
                HashError::Unreadable => "Error reading image"@,
                HashError::UnknownFormat => "Error guessing image format"@,
                HashError::Undecodable => "Error decoding image"@,
            },
    {
        match self {
            HashError::Unreadable => "Error reading image",
            HashError::UnknownFormat => "Error guessing image format",
            HashError::Undecodable => "Error decoding image",
        }
    }
}

/// A decoded image of any pixel type, as the `image` crate holds it.
#[verifier::external_type_specification]
#[verifier::external_body]
pub struct ExDynamicImage(image::DynamicImage);

/// The `image` crate's error. Only that there was one is used.
#[verifier::external_type_specification]
#[verifier::external_body]
pub struct ExImageError(image::ImageError);

/// The `image` crate's list of formats. A value is handed on, never looked at.
#[verifier::external_type_specification]
#[verifier::external_body]
pub struct ExImageFormat(image::ImageFormat);

/// The `image` crate's choice of resampling filters.
#[verifier::external_type_specification]
pub struct ExFilterType(image::imageops::FilterType);

/// An image of one 8-bit grey sample per pixel, as the `image` crate holds it
/// (`ImageBuffer<Luma<u8>, Vec<u8>>`).
#[verifier::external_body]
pub struct GrayImage {
    inner: image::ImageBuffer<image::Luma<u8>, Vec<u8>>,
}

/// The format that `image::guess_format` finds in the first bytes of `data`.
pub uninterp spec fn guessed_format(data: Seq<u8>) -> Option<image::ImageFormat>;

/// The width of a decoded image, in pixels.
pub uninterp spec fn image_width(img: image::DynamicImage) -> nat;

/// The height of a decoded image, in pixels.
pub uninterp spec fn image_height(img: image::DynamicImage) -> nat;

/// The samples of a decoded image whose samples are 32-bit floating-point numbers,
/// each as its bit pattern. Empty for an image of integer samples.
pub uninterp spec fn sample_bits(img: image::DynamicImage) -> Seq<u32>;

/// The grey samples of a decoded image, row by row, as `image::imageops::grayscale`
/// computes them.
pub uninterp spec fn grey_of(img: image::DynamicImage) -> Seq<u8>;

/// The width of a grey image, in pixels.
pub uninterp spec fn gray_width(img: GrayImage) -> nat;

/// The height of a grey image, in pixels.
pub uninterp spec fn gray_height(img: GrayImage) -> nat;

/// The samples that a grey image holds, row by row.
pub uninterp spec fn gray_samples(img: GrayImage) -> Seq<u8>;

/// One of the samples is no number.
pub open spec fn has_nan(bits: Seq<u32>) -> bool {
    exists|i: int| 0 <= i < bits.len() && is_nan_bits(#[trigger] bits[i])
}

/// Whether an image of this width can be resampled in this machine's memory.
pub open spec fn resamplable(width: nat) -> bool {
    512 * width <= isize::MAX
}

/// Whether an image of these dimensions has its pixels in rows: an image without
/// columns has no more than one row.
pub open spec fn in_rows(width: nat, height: nat) -> bool {
    width > 0 || height <= 1
}

/// Whether a grid can be made of an image.
pub open spec fn usable(img: image::DynamicImage) -> bool {
    &&& resamplable(image_width(img))
    &&& in_rows(image_width(img), image_height(img))
    &&& !has_nan(sample_bits(img))
}

/// `image::guess_format` looks at the first bytes of the buffer and at nothing else:
/// it succeeds where they are the signature of a format, and then names that format.
pub assume_specification[ image::guess_format ](buffer: &[u8]) -> (r: Result<
    image::ImageFormat,
    image::ImageError,
>)
    ensures
        r matches Ok(format) ==> guessed_format(buffer@) == Some(format),
        r is Err ==> guessed_format(buffer@) is None,
;

/// `DynamicImage::width` tells the width.
pub assume_specification[ image::DynamicImage::width ](img: &image::DynamicImage) -> (w: u32)
    ensures
        w == image_width(*img),
;

/// `DynamicImage::height` tells the height.
pub assume_specification[ image::DynamicImage::height ](img: &image::DynamicImage) -> (h: u32)
    ensures
        h == image_height(*img),
;

/// The samples of an image of the variants `ImageRgb32F` and `ImageRgba32F`, by
/// `ImageBuffer::as_raw`, each turned into its bits; nothing for the other variants.
#[verifier::external_body]
fn floating_samples(img: &image::DynamicImage) -> (bits: Vec<u32>)
    ensures
        bits@ == sample_bits(*img),
{
    match img {
        image::DynamicImage::ImageRgb32F(buffer) => {
            buffer.as_raw().iter().map(|v| v.to_bits()).collect()
        },
        image::DynamicImage::ImageRgba32F(buffer) => {
            buffer.as_raw().iter().map(|v| v.to_bits()).collect()
        },
        _ => Vec::new(),
    }
}

/// `image::imageops::grayscale`, on a decoded image. The grey image has the
/// dimensions of the image it was made from and one sample for each pixel. The
/// conversion of a floating-point sample gives up on one that is no number, and the
/// walk over the pixels on an image of several rows without columns: such images
/// are left out.
#[verifier::external_body]
fn grayscale(img: &image::DynamicImage) -> (gray: GrayImage)
    requires
        !has_nan(sample_bits(*img)),
        in_rows(image_width(*img), image_height(*img)),
    ensures
        gray_width(gray) == image_width(*img),
        gray_height(gray) == image_height(*img),
        gray_samples(gray) == grey_of(*img),
        gray_samples(gray).len() == image_width(*img) * image_height(*img),
{
    GrayImage { inner: image::imageops::grayscale(img) }
}

/// `image::imageops::resize`. The result has the dimensions asked for, so that many
/// samples; where these are the dimensions the image has already, the samples are
/// copied. What the samples are otherwise gets no name: the filter's weights come
/// from the sine of the platform, whose last bit differs from machine to machine.
/// Between its two passes the function holds an image of the old width and the new
/// height, of four channels of four bytes each: that many bytes must be within what
/// one allocation can hold.
#[verifier::external_body]
fn resize(img: &GrayImage, nwidth: u32, nheight: u32, filter: image::imageops::FilterType) -> (out:
    GrayImage)
    requires
        16 * gray_width(*img) * nheight <= isize::MAX,
        nwidth * nheight <= isize::MAX,
    ensures
        gray_samples(out).len() == nwidth * nheight,
        gray_width(*img) == nwidth && gray_height(*img) == nheight && gray_samples(*img).len()
            == nwidth * nheight ==> gray_samples(out) == gray_samples(*img),
{
    GrayImage { inner: image::imageops::resize(&img.inner, nwidth, nheight, filter) }
}

/// `ImageBuffer::into_vec` hands out the samples.
#[verifier::external_body]
fn into_vec(img: GrayImage) -> (samples: Vec<u8>)
    ensures
        samples@ == gray_samples(img),
{
    img.inner.into_vec()
}

/// Whether one of the bit patterns is that of no number.
pub fn nan_among(bits: &Vec<u32>) -> (found: bool)
    ensures
        found == has_nan(bits@),
{
    let mut i: usize = 0;
    while i < bits.len()
        invariant
            i <= bits@.len(),
            forall|k: int| 0 <= k < i ==> !is_nan_bits(#[trigger] bits@[k]),
        decreases bits@.len() - i,
    {
        let b: u32 = bits[i];
        if b & 0x7F80_0000 == 0x7F80_0000 && b & 0x007F_FFFF != 0 {
            return true;
        }
        i += 1;
    }
    false
}

/// The format of an image file, found in its first bytes.
pub fn image_format(data: &[u8]) -> (r: Result<image::ImageFormat, HashError>)
    ensures
        r matches Ok(format) ==> guessed_format(data@) == Some(format),
        r matches Err(e) ==> guessed_format(data@) is None && e == HashError::UnknownFormat,
{
    match image::guess_format(data) {
        Ok(format) => Ok(format),
        Err(_) => Err(HashError::UnknownFormat),
    }
}

/// The sample grid of a decoded image: the image in grey, resampled to 32×32 with
/// the Lanczos filter of window 3, row by row. An image that is 32×32 already gives
/// its grey samples as they are. A failed decoding is an `Undecodable` file, and so
/// is an image that is not usable: one too wide to be resampled, one of several rows
/// without columns, or one that holds a sample that is no number.
pub fn grid_of(decoded: Result<image::DynamicImage, image::ImageError>) -> (r: Result<
    Vec<u8>,
    HashError,
>)
    ensures
        decoded is Err ==> r is Err,
        decoded matches Ok(img) ==> (r is Ok <==> usable(img)),
        r matches Ok(samples) ==> samples@.len() == GRID_LEN,
        decoded matches Ok(img) ==> (r matches Ok(samples) ==> (image_width(img) == GRID_SIDE
            && image_height(img) == GRID_SIDE ==> samples@ == grey_of(img))),
        r matches Err(e) ==> e == HashError::Undecodable,
{
    match decoded {
        Err(_) => Err(HashError::Undecodable),
        Ok(img) => {
            let w: u32 = img.width();
            let h: u32 = img.height();
            if w as u64 > (isize::MAX as u64) / 512 {
                return Err(HashError::Undecodable);
            }
            if w == 0 && h > 1 {
                return Err(HashError::Undecodable);
            }
            if nan_among(&floating_samples(&img)) {
                return Err(HashError::Undecodable);
            }
            let gray = grayscale(&img);
            let small = resize(&gray, GRID_SIDE, GRID_SIDE, image::imageops::FilterType::Lanczos3);
            Ok(into_vec(small))
        },
    }
}

} // verus!
