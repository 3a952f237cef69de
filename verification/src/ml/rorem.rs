use vstd::prelude::*;

use crate::ml::morphology::{chebyshev_dilate, chebyshev_dilated};
use crate::ml::raster::{GrayPixels, RgbPixels, restore_unmasked};
use crate::ml::resize::{Resampling, drawn_from, resampled, resize_gray, resize_rgb};

verus! {

/// Why an inpainting request cannot run.
#[derive(Clone, Copy, Debug, PartialEq, Eq, Structural)]
pub enum RoremError {
    /// The image has no pixels.
    EmptyImage,
    /// The image and the mask differ in size.
    SizeMismatch,
    /// The resolution is neither 512 nor 1024.
    UnsupportedResolution,
    /// No inference step was asked for.
    NoInferenceSteps,
    /// The guidance scale is not finite and positive.
    InvalidGuidance,
    /// The strength is not finite and strictly between 0 and 1.
    InvalidStrength,
    /// The prompt holds a NUL character.
    NulInPrompt,
    /// The negative prompt holds a NUL character.
    NulInNegativePrompt,
    /// The model returned an image of another size than it was asked for.
    UnexpectedOutputSize,
}

/// The error an inpainting request meets first, checked in order: the
/// image is empty, the mask differs in size, the resolution is unsupported,
/// no step is asked for, the guidance or the strength is out of range, a
/// prompt holds a NUL.
pub open spec fn first_problem(
    image_width: u32,
    image_height: u32,
    mask_width: u32,
    mask_height: u32,
    resolution: u32,
    steps: i32,
    guidance_ok: bool,
    strength_ok: bool,
    prompt: Seq<char>,
    negative_prompt: Seq<char>,
) -> Option<RoremError> {
    if image_width == 0 || image_height == 0 {
        Some(RoremError::EmptyImage)
    } else if image_width != mask_width || image_height != mask_height {
        Some(RoremError::SizeMismatch)
    } else if resolution != 512 && resolution != 1024 {
        Some(RoremError::UnsupportedResolution)
    } else if steps <= 0 {
        Some(RoremError::NoInferenceSteps)
    } else if !guidance_ok {
        Some(RoremError::InvalidGuidance)
    } else if !strength_ok {
        Some(RoremError::InvalidStrength)
    } else if prompt.contains('\0') {
        Some(RoremError::NulInPrompt)
    } else if negative_prompt.contains('\0') {
        Some(RoremError::NulInNegativePrompt)
    } else {
        None
    }
}

fn holds_nul(text: &str) -> (found: bool)
    ensures
        found == text@.contains('\0'),
{
    let chars = crate::text::chars_of(text);
    let mut i: usize = 0;
    while i < chars.len()
        invariant
            chars@ == text@,
            i <= chars@.len(),
            forall|j: int| 0 <= j < i ==> chars@[j] != '\0',
        decreases chars@.len() - i,
    {
        if chars[i] == '\0' {
            proof {
                assert(text@[i as int] == '\0');
            }
            return true;
        }
        i = i + 1;
    }
    false
}

/// Checks an inpainting request; `guidance_ok` and `strength_ok` tell
/// whether the guidance scale and the strength are in range.
pub fn validate(
    image_width: u32,
    image_height: u32,
    mask_width: u32,
    mask_height: u32,
    resolution: u32,
    steps: i32,
    guidance_ok: bool,
    strength_ok: bool,
    prompt: &str,
    negative_prompt: &str,
) -> (result: Result<(), RoremError>)
    ensures
        match result {
            Ok(()) => first_problem(
                image_width,
                image_height,
                mask_width,
                mask_height,
                resolution,
                steps,
                guidance_ok,
                strength_ok,
                prompt@,
                negative_prompt@,
            ) is None,
            Err(error) => first_problem(
                image_width,
                image_height,
                mask_width,
                mask_height,
                resolution,
                steps,
                guidance_ok,
                strength_ok,
                prompt@,
                negative_prompt@,
            ) == Some(error),
        },
{
    if image_width == 0 || image_height == 0 {
        Err(RoremError::EmptyImage)
    } else if image_width != mask_width || image_height != mask_height {
        Err(RoremError::SizeMismatch)
    } else if resolution != 512 && resolution != 1024 {
        Err(RoremError::UnsupportedResolution)
    } else if steps <= 0 {
        Err(RoremError::NoInferenceSteps)
    } else if !guidance_ok {
        Err(RoremError::InvalidGuidance)
    } else if !strength_ok {
        Err(RoremError::InvalidStrength)
    } else if holds_nul(prompt) {
        Err(RoremError::NulInPrompt)
    } else if holds_nul(negative_prompt) {
        Err(RoremError::NulInNegativePrompt)
    } else {
        Ok(())
    }
}

/// The mask with samples below 128 set to 0 and the rest to 255.
pub open spec fn binarized(m: Seq<u8>) -> Seq<u8> {
    Seq::new(m.len(), |i: int| if m[i] < 128 { 0u8 } else { 255u8 })
}

/// Whether every sample is 0 or 255.
pub open spec fn is_binary(m: Seq<u8>) -> bool {
    forall|i: int| 0 <= i < m.len() ==> #[trigger] m[i] == 0 || m[i] == 255
}

/// The mask the model sees: binarized, brought to `resolution` square by
/// nearest-neighbour resampling where its size differs, then grown by a
/// Chebyshev radius of `dilation` where that is positive.
pub open spec fn model_mask(m: Seq<u8>, w: nat, h: nat, resolution: nat, dilation: nat) -> Seq<u8> {
    let binary = binarized(m);
    let resized = if w == resolution && h == resolution {
        binary
    } else {
        resampled(Resampling::Nearest, 1, binary, w, h, resolution, resolution)
    };
    if dilation > 0 {
        chebyshev_dilated(resized, resolution as int, resolution as int, dilation as int)
    } else {
        resized
    }
}

/// The mask the model sees, which is always binary.
pub fn resize_mask(mask: &GrayPixels, resolution: u32, dilation: u8) -> (out: GrayPixels)
    requires
        mask.well_formed(),
    ensures
        out.width == resolution,
        out.height == resolution,
        out.well_formed(),
        out.pixels@ == model_mask(mask.pixels@, mask.width as nat, mask.height as nat, resolution as nat, dilation as nat),
        mask.width > 0 && mask.height > 0 ==> is_binary(out.pixels@),
{
    let mut binary: Vec<u8> = Vec::new();
    let mut i: usize = 0;
    while i < mask.pixels.len()
        invariant
            i <= mask.pixels@.len(),
            binary@ == binarized(mask.pixels@).take(i as int),
        decreases mask.pixels@.len() - i,
    {
        binary.push(if mask.pixels[i] < 128 { 0 } else { 255 });
        proof {
            assert(binary@ =~= binarized(mask.pixels@).take(i + 1));
        }
        i = i + 1;
    }
    proof {
        assert(binary@ =~= binarized(mask.pixels@));
    }
    let binary = GrayPixels { width: mask.width, height: mask.height, pixels: binary };
    let resized = if mask.width == resolution && mask.height == resolution {
        binary
    } else {
        let out = resize_gray(&binary, resolution, resolution, Resampling::Nearest);
        proof {
            if mask.width > 0 && mask.height > 0 {
                assert forall|k: int| 0 <= k < out.pixels@.len() implies #[trigger] out.pixels@[k] == 0
                    || out.pixels@[k] == 255 by {
                    assert(binary.pixels@.contains(out.pixels@[k]));
                }
            }
        }
        out
    };
    if dilation > 0 {
        chebyshev_dilate(&resized, dilation)
    } else {
        resized
    }
}

/// The image the model starts from: brought to `resolution` square by
/// Lanczos3 resampling where its size differs.
pub fn resize_image(image: &RgbPixels, resolution: u32) -> (out: RgbPixels)
    requires
        image.well_formed(),
    ensures
        out.width == resolution,
        out.height == resolution,
        out.well_formed(),
        out.pixels@ == if image.width == resolution && image.height == resolution {
            image.pixels@
        } else {
            resampled(Resampling::Lanczos3, 3, image.pixels@, image.width as nat, image.height as nat, resolution as nat, resolution as nat)
        },
{
    if image.width == resolution && image.height == resolution {
        RgbPixels { width: image.width, height: image.height, pixels: image.pixels.clone() }
    } else {
        resize_rgb(image, resolution, resolution, Resampling::Lanczos3)
    }
}

/// Whether every sample of the mask is 0, so that nothing is to be inpainted.
pub fn is_blank(mask: &GrayPixels) -> (blank: bool)
    ensures
        blank == forall|i: int| 0 <= i < mask.pixels@.len() ==> #[trigger] mask.pixels@[i] == 0,
{
    let mut i: usize = 0;
    while i < mask.pixels.len()
        invariant
            i <= mask.pixels@.len(),
            forall|j: int| 0 <= j < i ==> #[trigger] mask.pixels@[j] == 0,
        decreases mask.pixels@.len() - i,
    {
        if mask.pixels[i] != 0 {
            return false;
        }
        i = i + 1;
    }
    true
}

/// Whether `out` is `generated` put back onto `original`: the generated
/// image resampled (Lanczos3) and the model mask resampled (nearest) to the
/// original's size where sizes differ, then every pixel the mask leaves at 0
/// taken from the original.
pub open spec fn composites(out: Seq<u8>, original: RgbPixels, native_mask: GrayPixels, generated: RgbPixels) -> bool {
    let (w, h) = (original.width as nat, original.height as nat);
    let g = if generated.width == w && generated.height == h {
        generated.pixels@
    } else {
        resampled(Resampling::Lanczos3, 3, generated.pixels@, generated.width as nat, generated.height as nat, w, h)
    };
    let m = if native_mask.width == w && native_mask.height == h {
        native_mask.pixels@
    } else {
        resampled(Resampling::Nearest, 1, native_mask.pixels@, native_mask.width as nat, native_mask.height as nat, w, h)
    };
    forall|p: int, c: int| 0 <= p < w * h && 0 <= c < 3 ==> #[trigger] out[3 * p + c] == if m[p] == 0 {
        original.pixels@[3 * p + c]
    } else {
        g[3 * p + c]
    }
}

/// Puts an inpainted square back at the original's size: the generated
/// image resampled (Lanczos3) and the model mask resampled (nearest) to the
/// original's size where sizes differ, then every pixel the mask leaves at 0
/// taken from the original.
pub fn composite(original: &RgbPixels, native_mask: &GrayPixels, generated: &RgbPixels) -> (out: RgbPixels)
    requires
        original.well_formed(),
        native_mask.well_formed(),
        generated.well_formed(),
    ensures
        out.width == original.width,
        out.height == original.height,
        out.well_formed(),
        composites(out.pixels@, *original, *native_mask, *generated),
{
    let width = original.width;
    let height = original.height;
    let resized = if generated.width == width && generated.height == height {
        RgbPixels { width, height, pixels: generated.pixels.clone() }
    } else {
        resize_rgb(generated, width, height, Resampling::Lanczos3)
    };
    let mask = if native_mask.width == width && native_mask.height == height {
        GrayPixels { width, height, pixels: native_mask.pixels.clone() }
    } else {
        resize_gray(native_mask, width, height, Resampling::Nearest)
    };
    restore_unmasked(&resized, original, &mask, 1)
}

/// Finishes an inpainting run: fails where the model returned another size
/// than `resolution` square, else composites the result onto the original.
pub fn finish(original: &RgbPixels, native_mask: &GrayPixels, generated: &RgbPixels, resolution: u32) -> (result: Result<RgbPixels, RoremError>)
    requires
        original.well_formed(),
        native_mask.well_formed(),
        generated.well_formed(),
    ensures
        match result {
            Ok(out) => generated.width == resolution && generated.height == resolution
                && out.width == original.width && out.height == original.height && out.well_formed()
                && composites(out.pixels@, *original, *native_mask, *generated),
            Err(error) => error == RoremError::UnexpectedOutputSize && !(generated.width == resolution
                && generated.height == resolution),
        },
{
    if generated.width != resolution || generated.height != resolution {
        return Err(RoremError::UnexpectedOutputSize);
    }
    Ok(composite(original, native_mask, generated))
}

} // verus!
