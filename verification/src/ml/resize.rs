use fast_image_resize::images::Image;
use fast_image_resize::{FilterType, PixelType, ResizeAlg, ResizeOptions, Resizer};
use vstd::prelude::*;

use crate::ml::raster::{GrayPixels, RgbPixels};

verus! {

/// How an image is resampled.
#[derive(Clone, Copy, Debug, PartialEq, Eq, Structural)]
pub enum Resampling {
    /// Each output pixel copies the input pixel under its centre.
    Nearest,
    /// Bilinear interpolation from the nearest samples.
    BilinearInterpolation,
    /// Convolution with the bilinear filter, widened when downscaling.
    BilinearConvolution,
    /// Convolution with the Catmull-Rom filter.
    CatmullRom,
    /// Convolution with the Lanczos3 filter.
    Lanczos3,
}

/// Every sample of `out` is some sample of `source`.
pub open spec fn drawn_from(out: Seq<u8>, source: Seq<u8>) -> bool {
    forall|i: int| 0 <= i < out.len() ==> source.contains(#[trigger] out[i])
}

/// What fast_image_resize's `Resizer::resize` gives for a row-major 8-bit
/// image of `channels` samples per pixel resampled from `width` by `height`
/// to `new_width` by `new_height`.
pub uninterp spec fn resampled(
    resampling: Resampling,
    channels: nat,
    pixels: Seq<u8>,
    width: nat,
    height: nat,
    new_width: nat,
    new_height: nat,
) -> Seq<u8>;

/// Resamples an 8-bit image (1 or 3 samples per pixel) through
/// fast_image_resize's `Resizer::resize`. The result depends on the
/// arguments alone. Its source copies the image unchanged where the sizes
/// agree, and in nearest-neighbour mode copies for each output pixel one
/// input pixel; what the filters compute is left to the name.
#[verifier::external_body]
fn resample(
    pixels: &Vec<u8>,
    channels: u32,
    width: u32,
    height: u32,
    new_width: u32,
    new_height: u32,
    resampling: Resampling,
) -> (out: Vec<u8>)
    requires
        channels == 1 || channels == 3,
        pixels@.len() == channels * (width * height),
    ensures
        out@ == resampled(
            resampling,
            channels as nat,
            pixels@,
            width as nat,
            height as nat,
            new_width as nat,
            new_height as nat,
        ),
        out@.len() == channels * (new_width * new_height),
        width == new_width && height == new_height ==> out@ == pixels@,
        resampling == Resampling::Nearest && channels == 1 && width > 0 && height > 0 ==> drawn_from(out@, pixels@),
{
    let pixel_type = if channels == 3 { PixelType::U8x3 } else { PixelType::U8 };
    let source = Image::from_vec_u8(width, height, pixels.clone(), pixel_type).unwrap();
    let mut target = Image::new(new_width, new_height, pixel_type);
    let algorithm = match resampling {
        Resampling::Nearest => ResizeAlg::Nearest,
        Resampling::BilinearInterpolation => ResizeAlg::Interpolation(FilterType::Bilinear),
        Resampling::BilinearConvolution => ResizeAlg::Convolution(FilterType::Bilinear),
        Resampling::CatmullRom => ResizeAlg::Convolution(FilterType::CatmullRom),
        Resampling::Lanczos3 => ResizeAlg::Convolution(FilterType::Lanczos3),
    };
    Resizer::new().resize(&source, &mut target, &ResizeOptions::new().resize_alg(algorithm)).unwrap();
    target.into_vec()
}

/// An RGB image resampled to `new_width` by `new_height`.
pub fn resize_rgb(image: &RgbPixels, new_width: u32, new_height: u32, resampling: Resampling) -> (out: RgbPixels)
    requires
        image.well_formed(),
    ensures
        out.width == new_width,
        out.height == new_height,
        out.well_formed(),
        out.pixels@ == resampled(
            resampling,
            3,
            image.pixels@,
            image.width as nat,
            image.height as nat,
            new_width as nat,
            new_height as nat,
        ),
{
    let pixels = resample(&image.pixels, 3, image.width, image.height, new_width, new_height, resampling);
    RgbPixels { width: new_width, height: new_height, pixels }
}

/// A single-channel image resampled to `new_width` by `new_height`.
pub fn resize_gray(image: &GrayPixels, new_width: u32, new_height: u32, resampling: Resampling) -> (out: GrayPixels)
    requires
        image.well_formed(),
    ensures
        out.width == new_width,
        out.height == new_height,
        out.well_formed(),
        out.pixels@ == resampled(
            resampling,
            1,
            image.pixels@,
            image.width as nat,
            image.height as nat,
            new_width as nat,
            new_height as nat,
        ),
        image.width == new_width && image.height == new_height ==> out.pixels@ == image.pixels@,
        resampling == Resampling::Nearest && image.width > 0 && image.height > 0 ==> drawn_from(out.pixels@, image.pixels@),
{
    proof {
        assert(image.pixels@.len() == 1 * (image.width * image.height));
    }
    let pixels = resample(&image.pixels, 1, image.width, image.height, new_width, new_height, resampling);
    GrayPixels { width: new_width, height: new_height, pixels }
}

} // verus!
