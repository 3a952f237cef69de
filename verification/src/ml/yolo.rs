use vstd::prelude::*;

verus! {

/// `numerator / denominator` rounded to the nearest integer, ties to even
/// (Python's `round`), for a positive denominator.
pub open spec fn round_half_even(numerator: int, denominator: int) -> int {
    let q = numerator / denominator;
    let r = numerator % denominator;
    if 2 * r < denominator {
        q
    } else if 2 * r > denominator {
        q + 1
    } else if q % 2 == 0 {
        q
    } else {
        q + 1
    }
}

/// Rounds `numerator / denominator` half to even.
pub fn round_half_even_exec(numerator: u64, denominator: u64) -> (rounded: u64)
    requires
        denominator > 0,
        numerator / denominator < u64::MAX,
    ensures
        rounded == round_half_even(numerator as int, denominator as int),
{
    let q = numerator / denominator;
    let r = numerator % denominator;
    if r < denominator - r {
        q
    } else if r > denominator - r {
        q + 1
    } else if q % 2 == 0 {
        q
    } else {
        q + 1
    }
}

pub open spec fn clamp_to(value: int, low: int, high: int) -> int {
    if value < low {
        low
    } else if value > high {
        high
    } else {
        value
    }
}

/// Ultralytics' rectangular letterbox (`auto=True`, stride 32) for an image of
/// `original_width` x `original_height` and model size `input_size`.
#[derive(Clone, Debug, PartialEq, Eq)]
pub struct LetterBox {
    pub original_width: u32,
    pub original_height: u32,
    pub resized_width: u32,
    pub resized_height: u32,
    pub output_width: u32,
    pub output_height: u32,
    pub pad_x: u32,
    pub pad_y: u32,
}

/// Why an image cannot be letterboxed.
#[derive(Clone, Copy, Debug, PartialEq, Eq, Structural)]
pub enum LetterBoxError {
    EmptyImage,
}

/// One side scaled by `input_size / longer`, rounded half to even and kept in
/// `[1, input_size]`.
pub open spec fn letterbox_side(side: int, longer: int, input_size: int) -> int {
    clamp_to(round_half_even(side * input_size, longer), 1, input_size)
}

/// The letterbox geometry as Ultralytics computes it.
pub open spec fn letterbox_fits(b: LetterBox, width: int, height: int, input_size: int) -> bool {
    let longer = if width >= height { width } else { height };
    let rw = letterbox_side(width, longer, input_size);
    let rh = letterbox_side(height, longer, input_size);
    let pw = (input_size - rw) % 32;
    let ph = (input_size - rh) % 32;
    &&& b.original_width == width
    &&& b.original_height == height
    &&& b.resized_width == rw
    &&& b.resized_height == rh
    &&& b.output_width == rw + pw
    &&& b.output_height == rh + ph
    &&& b.pad_x == pw / 2
    &&& b.pad_y == ph / 2
}

fn scaled_side(side: u32, longer: u32, input_size: u32) -> (scaled: u32)
    requires
        0 < longer,
        side <= longer,
        1 <= input_size,
    ensures
        scaled as int == letterbox_side(side as int, longer as int, input_size as int),
{
    proof {
        assert((side as int) * (input_size as int) <= u32::MAX * u32::MAX) by (nonlinear_arith)
            requires side <= u32::MAX, input_size <= u32::MAX;
    }
    let product = side as u64 * input_size as u64;
    proof {
        assert(product / (longer as u64) <= input_size) by (nonlinear_arith)
            requires product == side * input_size, side <= longer, longer > 0;
    }
    let rounded = round_half_even_exec(product, longer as u64);
    if rounded < 1 {
        1
    } else if rounded > input_size as u64 {
        input_size
    } else {
        rounded as u32
    }
}

impl LetterBox {
    /// The letterbox that fits the image into `input_size`: the longer side
    /// is scaled to `input_size`, and each side is padded up to the next
    /// multiple of 32, the padding split with the smaller half before.
    pub fn new(original_width: u32, original_height: u32, input_size: u32) -> (result: Result<LetterBox, LetterBoxError>)
        requires
            input_size >= 1,
        ensures
            match result {
                Ok(b) => original_width > 0 && original_height > 0 && letterbox_fits(
                    b,
                    original_width as int,
                    original_height as int,
                    input_size as int,
                ),
                Err(error) => error == LetterBoxError::EmptyImage && (original_width == 0
                    || original_height == 0),
            },
    {
        if original_width == 0 || original_height == 0 {
            return Err(LetterBoxError::EmptyImage);
        }
        let longer = if original_width >= original_height { original_width } else { original_height };
        let resized_width = scaled_side(original_width, longer, input_size);
        let resized_height = scaled_side(original_height, longer, input_size);
        let padding_width = (input_size - resized_width) % 32;
        let padding_height = (input_size - resized_height) % 32;
        Ok(LetterBox {
            original_width,
            original_height,
            resized_width,
            resized_height,
            output_width: resized_width + padding_width,
            output_height: resized_height + padding_height,
            pad_x: padding_width / 2,
            pad_y: padding_height / 2,
        })
    }
}

/// The letterboxed image keeps the aspect ratio within rounding, fits in the
/// model size, and its padded size is a multiple of 32 whenever the model
/// size is.
pub proof fn lemma_letterbox_output_is_stride_aligned(b: LetterBox, width: int, height: int, input_size: int)
    requires
        width > 0,
        height > 0,
        input_size >= 1,
        letterbox_fits(b, width, height, input_size),
    ensures
        1 <= b.resized_width <= input_size,
        1 <= b.resized_height <= input_size,
        b.resized_width <= b.output_width <= input_size,
        b.resized_height <= b.output_height <= input_size,
        input_size % 32 == 0 ==> b.output_width % 32 == 0 && b.output_height % 32 == 0,
        b.pad_x + b.resized_width <= b.output_width,
        b.pad_y + b.resized_height <= b.output_height,
{
}

/// A YOLO11 instance mask: `width` x `height` pixels placed at `(x, y)`.
#[derive(Clone, Debug, PartialEq, Eq)]
pub struct Yolo11nSpeechBubbleMask {
    pub x: u32,
    pub y: u32,
    pub width: u32,
    pub height: u32,
    pub pixels: Vec<u8>,
}

impl Yolo11nSpeechBubbleMask {
    /// Whether the mask covers no pixel.
    pub fn is_empty(&self) -> (empty: bool)
        ensures
            empty == (self.width == 0 || self.height == 0 || self.pixels@.len() == 0),
    {
        self.width == 0 || self.height == 0 || self.pixels.len() == 0
    }
}

/// A YOLOv8 instance mask: `width` x `height` pixels placed at `(x, y)`.
#[derive(Clone, Debug, PartialEq, Eq)]
pub struct YoloV8mSpeechBubbleMask {
    pub x: u32,
    pub y: u32,
    pub width: u32,
    pub height: u32,
    pub pixels: Vec<u8>,
}

impl YoloV8mSpeechBubbleMask {
    /// A mask at `(x, y)` that covers nothing.
    pub fn empty(x: u32, y: u32) -> (mask: Self)
        ensures
            mask.x == x,
            mask.y == y,
            mask.width == 0,
            mask.height == 0,
            mask.pixels@.len() == 0,
    {
        YoloV8mSpeechBubbleMask { x, y, width: 0, height: 0, pixels: Vec::new() }
    }

    /// Whether the mask covers no pixel.
    pub fn is_empty(&self) -> (empty: bool)
        ensures
            empty == (self.width == 0 || self.height == 0 || self.pixels@.len() == 0),
    {
        self.width == 0 || self.height == 0 || self.pixels.len() == 0
    }
}

} // verus!
