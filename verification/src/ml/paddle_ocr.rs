use vstd::prelude::*;

use crate::ml::raster::RgbPixels;
use crate::math::{ceil_sqrt, floor_sqrt, isqrt, is_floor_sqrt, lemma_isqrt, round_half_even, round_half_even_u128};

verus! {

/// The recognition tasks PaddleOCR-VL is prompted for.
#[derive(Clone, Copy, Debug, PartialEq, Eq, Structural)]
pub enum PaddleOCRVLTask {
    Ocr,
    Table,
    Formula,
    Chart,
    Spotting,
    Seal,
}

/// The words that select a task.
pub open spec fn task_prompt(task: PaddleOCRVLTask) -> Seq<char> {
    match task {
        PaddleOCRVLTask::Ocr => "OCR:"@,
        PaddleOCRVLTask::Table => "Table Recognition:"@,
        PaddleOCRVLTask::Formula => "Formula Recognition:"@,
        PaddleOCRVLTask::Chart => "Chart Recognition:"@,
        PaddleOCRVLTask::Spotting => "Spotting:"@,
        PaddleOCRVLTask::Seal => "Seal Recognition:"@,
    }
}

impl PaddleOCRVLTask {
    /// The text that selects the task.
    pub fn prompt(self) -> (prompt: &'static str)
        ensures
            prompt@ == task_prompt(self),
    {
        match self {
            PaddleOCRVLTask::Ocr => "OCR:",
            PaddleOCRVLTask::Table => "Table Recognition:",
            PaddleOCRVLTask::Formula => "Formula Recognition:",
            PaddleOCRVLTask::Chart => "Chart Recognition:",
            PaddleOCRVLTask::Spotting => "Spotting:",
            PaddleOCRVLTask::Seal => "Seal Recognition:",
        }
    }
}

/// Recognised text of one image.
#[derive(Clone, Debug, PartialEq, Eq)]
pub struct PaddleOCRVLResult {
    pub text: String,
}

/// Multimodal rotary position embedding sections of the text model.
#[derive(Clone, Debug, PartialEq, Eq)]
pub struct RopeScaling {
    pub mrope_section: Vec<i64>,
    pub rope_type: String,
}

impl RopeScaling {
    /// The released configuration: sections 16, 24, 24 of the default rope type.
    pub fn default() -> (scaling: Self)
        ensures
            scaling.mrope_section@ == seq![16i64, 24, 24],
            scaling.rope_type@ == "default"@,
    {
        let mrope_section = vec![16i64, 24, 24];
        proof {
            assert(mrope_section@ =~= seq![16i64, 24, 24]);
        }
        RopeScaling { mrope_section, rope_type: String::from_str("default") }
    }
}

// ---------------------------------------------------------------------------
// Image resizing (Transformers' Qwen2-VL style `smart_resize`)
// ---------------------------------------------------------------------------

/// Why an image cannot be resized for the vision encoder.
#[derive(Clone, Copy, Debug, PartialEq, Eq, Structural)]
pub enum SmartResizeError {
    /// The longer side exceeds 200 times the shorter one.
    AspectRatioTooLarge,
}

/// Sides shorter than `factor` are brought up to `factor`, scaling the other
/// side to keep the aspect ratio (rounded half to even).
pub open spec fn widened(height: int, width: int, factor: int) -> (int, int) {
    let (h1, w1) = if height < factor {
        (factor, round_half_even(width * factor, height))
    } else {
        (height, width)
    };
    if w1 < factor {
        (round_half_even(h1 * factor, w1), factor)
    } else {
        (h1, w1)
    }
}

pub open spec fn aspect_within_limit(height: int, width: int) -> bool {
    if height >= width {
        height <= 200 * width
    } else {
        width <= 200 * height
    }
}

pub open spec fn ceil_div(a: int, b: int) -> int {
    (a + b - 1) / b
}

/// The target size: each side rounded to a multiple of `factor`; when that
/// exceeds `max_pixels` (or falls short of `min_pixels`) both sides are
/// scaled by the same factor `beta` and rounded down (up) to multiples of
/// `factor`, computed exactly: `floor(side / beta / factor)` is the integer
/// square root of `side * max_pixels / (factor^2 * other side)`.
pub open spec fn smart_resized(height: int, width: int, factor: int, min_pixels: int, max_pixels: int) -> (int, int) {
    let (h, w) = widened(height, width, factor);
    let rh = round_half_even(h, factor) * factor;
    let rw = round_half_even(w, factor) * factor;
    if rh * rw > max_pixels {
        let qh = (h * max_pixels) / (factor * factor * w);
        let qw = (w * max_pixels) / (factor * factor * h);
        let sh = isqrt((if qh < 0 { 0 } else { qh }) as nat) * factor;
        let sw = isqrt((if qw < 0 { 0 } else { qw }) as nat) * factor;
        (if sh < factor { factor } else { sh }, if sw < factor { factor } else { sw })
    } else if rh * rw < min_pixels {
        (
            ceil_sqrt(ceil_div(h * min_pixels, factor * factor * w) as nat) * factor,
            ceil_sqrt(ceil_div(w * min_pixels, factor * factor * h) as nat) * factor,
        )
    } else {
        (rh, rw)
    }
}

proof fn lemma_isqrt_bound(n: nat, bound: nat)
    requires
        n < bound * bound,
    ensures
        isqrt(n) < bound,
{
    lemma_isqrt(n);
    let k = isqrt(n) as int;
    if k >= bound {
        assert(k * k >= bound * bound) by (nonlinear_arith)
            requires k >= bound, bound >= 0;
    }
}

/// What keeps the resizing of a `height` by `width` image within `i64`
/// where the aspect ratio is accepted: the widened area, the area rounded to
/// multiples of `factor`, and the resulting sides all fit.
pub open spec fn smart_resize_fits(height: int, width: int, factor: int, min_pixels: int, max_pixels: int) -> bool {
    let (h, w) = widened(height, width, factor);
    aspect_within_limit(h, w) ==> {
        &&& h * w <= i64::MAX
        &&& (round_half_even(h, factor) * factor) * (round_half_even(w, factor) * factor) <= i64::MAX
        &&& smart_resized(height, width, factor, min_pixels, max_pixels).0 <= i64::MAX
        &&& smart_resized(height, width, factor, min_pixels, max_pixels).1 <= i64::MAX
    }
}

proof fn lemma_ceil_div_bounds(a: int, b: int)
    requires
        0 <= a,
        1 <= b,
    ensures
        (ceil_div(a, b) - 1) * b < a <= ceil_div(a, b) * b,
        0 <= ceil_div(a, b) <= a + 1,
{
    let q = (a + b - 1) / b;
    let r = (a + b - 1) % b;
    assert(a + b - 1 == q * b + r && 0 <= r < b) by (nonlinear_arith)
        requires
            q == (a + b - 1) / b,
            r == (a + b - 1) % b,
            1 <= b,
    ;
    assert((q - 1) * b < a <= q * b) by (nonlinear_arith)
        requires
            a + b - 1 == q * b + r,
            0 <= r < b,
    ;
    assert(0 <= q <= a + 1) by (nonlinear_arith)
        requires
            (q - 1) * b < a,
            a <= q * b,
            0 <= a,
            1 <= b,
    ;
}

/// `ceil(ceil(a / b) / c) == ceil(a / (b * c))`.
proof fn lemma_ceil_div_twice(a: int, b: int, c: int)
    requires
        0 <= a,
        1 <= b,
        1 <= c,
    ensures
        ceil_div(ceil_div(a, b), c) == ceil_div(a, b * c),
        0 <= ceil_div(a, b) <= a + 1,
{
    lemma_ceil_div_bounds(a, b);
    let x = ceil_div(a, b);
    lemma_ceil_div_bounds(x, c);
    let p = ceil_div(x, c);
    assert(1 <= b * c) by (nonlinear_arith)
        requires
            1 <= b,
            1 <= c,
    ;
    lemma_ceil_div_bounds(a, b * c);
    let q = ceil_div(a, b * c);
    assert((p - 1) * (b * c) < a) by (nonlinear_arith)
        requires
            (p - 1) * c < x,
            (x - 1) * b < a,
            1 <= b,
            1 <= c,
    ;
    assert(a <= p * (b * c)) by (nonlinear_arith)
        requires
            a <= x * b,
            x <= p * c,
            1 <= b,
            1 <= c,
    ;
    assert(p == q) by (nonlinear_arith)
        requires
            (p - 1) * (b * c) < a,
            a <= p * (b * c),
            (q - 1) * (b * c) < a,
            a <= q * (b * c),
            1 <= b * c,
    ;
}

/// A widened side is at least `factor`, and so is a rounded one.
proof fn lemma_widened_at_least_factor(height: int, width: int, factor: int)
    requires
        1 <= height,
        1 <= width,
        1 <= factor,
    ensures
        widened(height, width, factor).0 >= factor,
        widened(height, width, factor).1 >= factor,
{
    let h1 = if height < factor { factor } else { height };
    let w1 = if height < factor { round_half_even(width * factor, height) } else { width };
    if height < factor {
        assert(width * factor / height >= 1) by (nonlinear_arith)
            requires
                width >= 1,
                factor > height,
                height >= 1,
        ;
    }
    assert(w1 >= 1);
    if w1 < factor {
        assert(h1 * factor / w1 >= h1) by (nonlinear_arith)
            requires
                h1 >= 1,
                1 <= w1 < factor,
        ;
    }
}

/// Where PaddleOCR-VL's resizing accepts an image, both sides of the result
/// are positive multiples of `factor`.
pub proof fn lemma_smart_resized_shape(height: int, width: int, factor: int, min_pixels: int, max_pixels: int)
    requires
        1 <= height,
        1 <= width,
        1 <= factor,
        aspect_within_limit(widened(height, width, factor).0, widened(height, width, factor).1),
    ensures
        smart_resized(height, width, factor, min_pixels, max_pixels).0 % factor == 0,
        smart_resized(height, width, factor, min_pixels, max_pixels).1 % factor == 0,
        smart_resized(height, width, factor, min_pixels, max_pixels).0 >= factor,
        smart_resized(height, width, factor, min_pixels, max_pixels).1 >= factor,
{
    lemma_widened_at_least_factor(height, width, factor);
    let (h, w) = widened(height, width, factor);
    let bh = round_half_even(h, factor);
    let bw = round_half_even(w, factor);
    assert(h / factor >= 1 && w / factor >= 1) by (nonlinear_arith)
        requires
            h >= factor,
            w >= factor,
            factor >= 1,
    ;
    assert(bh >= 1 && bw >= 1);
    let rh = bh * factor;
    let rw = bw * factor;
    assert(rh % factor == 0 && rw % factor == 0 && rh >= factor && rw >= factor) by (nonlinear_arith)
        requires
            rh == bh * factor,
            rw == bw * factor,
            bh >= 1,
            bw >= 1,
            factor >= 1,
    ;
    if rh * rw > max_pixels {
        let qh = (h * max_pixels) / (factor * factor * w);
        let qw = (w * max_pixels) / (factor * factor * h);
        let kh = isqrt((if qh < 0 { 0 } else { qh }) as nat) as int;
        let kw = isqrt((if qw < 0 { 0 } else { qw }) as nat) as int;
        assert((kh * factor) % factor == 0 && (kw * factor) % factor == 0) by (nonlinear_arith)
            requires
                kh >= 0,
                kw >= 0,
                factor >= 1,
        ;
        assert(factor % factor == 0) by (nonlinear_arith)
            requires
                factor >= 1,
        ;
    } else if rh * rw < min_pixels {
        assert(rh * rw >= 1) by (nonlinear_arith)
            requires
                rh >= 1,
                rw >= 1,
        ;
        let dh = factor * factor * w;
        let dw = factor * factor * h;
        assert(dh >= 1 && dw >= 1) by (nonlinear_arith)
            requires
                dh == factor * factor * w,
                dw == factor * factor * h,
                factor >= 1,
                w >= 1,
                h >= 1,
        ;
        assert(h * min_pixels >= 1 && w * min_pixels >= 1) by (nonlinear_arith)
            requires
                min_pixels > rh * rw,
                rh * rw >= 1,
                h >= 1,
                w >= 1,
        ;
        lemma_ceil_div_bounds(h * min_pixels, dh);
        lemma_ceil_div_bounds(w * min_pixels, dw);
        let ch = ceil_div(h * min_pixels, dh);
        let cw = ceil_div(w * min_pixels, dw);
        assert(ch >= 1 && cw >= 1) by (nonlinear_arith)
            requires
                h * min_pixels <= ch * dh,
                w * min_pixels <= cw * dw,
                h * min_pixels >= 1,
                w * min_pixels >= 1,
                dh >= 1,
                dw >= 1,
        ;
        lemma_isqrt(ch as nat);
        lemma_isqrt(cw as nat);
        let sh = isqrt(ch as nat) as int;
        let sw = isqrt(cw as nat) as int;
        assert(sh >= 1) by (nonlinear_arith)
            requires
                ch < (sh + 1) * (sh + 1),
                sh >= 0,
                ch >= 1,
        ;
        assert(sw >= 1) by (nonlinear_arith)
            requires
                cw < (sw + 1) * (sw + 1),
                sw >= 0,
                cw >= 1,
        ;
        let eh = ceil_sqrt(ch as nat) as int;
        let ew = ceil_sqrt(cw as nat) as int;
        assert(eh >= 1 && ew >= 1);
        assert((eh * factor) % factor == 0 && (ew * factor) % factor == 0 && eh * factor >= factor && ew * factor
            >= factor) by (nonlinear_arith)
            requires
                eh >= 1,
                ew >= 1,
                factor >= 1,
        ;
    }
}

/// The image size PaddleOCR-VL's processor resizes to, in `(height, width)`:
/// both sides multiples of `factor`, the pixel count brought within
/// `[min_pixels, max_pixels]` when rounding leaves it outside. Images whose
/// longer side exceeds 200 times the shorter one are refused.
pub fn smart_resize(height: i64, width: i64, factor: i64, min_pixels: i64, max_pixels: i64) -> (result: Result<(i64, i64), SmartResizeError>)
    requires
        1 <= height,
        1 <= width,
        1 <= factor,
        smart_resize_fits(height as int, width as int, factor as int, min_pixels as int, max_pixels as int),
    ensures
        match result {
            Ok((h, w)) => aspect_within_limit(widened(height as int, width as int, factor as int).0,
                widened(height as int, width as int, factor as int).1)
                && (h as int, w as int) == smart_resized(height as int, width as int, factor as int, min_pixels as int, max_pixels as int),
            Err(error) => error == SmartResizeError::AspectRatioTooLarge && !aspect_within_limit(
                widened(height as int, width as int, factor as int).0,
                widened(height as int, width as int, factor as int).1,
            ),
        },
{
    let big: u128 = 0x8000_0000_0000_0000;
    let f = factor as u128;
    let mut h = height as u128;
    let mut w = width as u128;
    if h < f {
        proof {
            assert(w * f <= big * big) by (nonlinear_arith)
                requires
                    w <= big,
                    f <= big,
            ;
        }
        let scaled = w * f;
        proof {
            assert(scaled / h <= scaled) by (nonlinear_arith)
                requires
                    h >= 1,
                    scaled >= 0,
            ;
            assert(scaled >= h) by (nonlinear_arith)
                requires
                    w >= 1,
                    f > h,
                    scaled == w * f,
            ;
            assert(scaled / h >= 1) by (nonlinear_arith)
                requires
                    scaled >= h,
                    h >= 1,
            ;
        }
        w = round_half_even_u128(scaled, h);
        h = f;
    }
    assert(h <= big);
    assert(w <= big * big + 1);
    if w < f {
        proof {
            assert(h * f <= big * big) by (nonlinear_arith)
                requires
                    h <= big,
                    f <= big,
            ;
        }
        let scaled = h * f;
        proof {
            assert(scaled / w <= scaled) by (nonlinear_arith)
                requires
                    w >= 1,
                    scaled >= 0,
            ;
            assert(scaled >= w) by (nonlinear_arith)
                requires
                    h >= 1,
                    f > w,
                    scaled == h * f,
            ;
            assert(scaled / w >= 1) by (nonlinear_arith)
                requires
                    scaled >= w,
                    w >= 1,
            ;
        }
        h = round_half_even_u128(scaled, w);
        w = f;
    }
    assert(h <= big * big + 1);
    assert(w <= big * big + 1);
    let ghost (hi, wi) = widened(height as int, width as int, factor as int);
    assert(h == hi && w == wi);
    let limit: u128 = 0x100_0000_0000_0000_0000_0000_0000_0000;
    let within = if h >= w {
        w >= limit || h <= 200 * w
    } else {
        h >= limit || w <= 200 * h
    };
    assert(within == aspect_within_limit(hi as int, wi as int));
    if !within {
        return Err(SmartResizeError::AspectRatioTooLarge);
    }
    assert(h <= big && w <= big) by (nonlinear_arith)
        requires
            h * w <= 0x7fff_ffff_ffff_ffff,
            h >= 1,
            w >= 1,
            big == 0x8000_0000_0000_0000,
    ;
    let bh = round_half_even_u128(h, f);
    let bw = round_half_even_u128(w, f);
    proof {
        assert(bh * f <= h + f) by (nonlinear_arith)
            requires
                bh <= h / f + 1,
                f >= 1,
        ;
        assert(bw * f <= w + f) by (nonlinear_arith)
            requires
                bw <= w / f + 1,
                f >= 1,
        ;
    }
    let rh = bh * f;
    let rw = bw * f;
    proof {
        assert(rh * rw <= (2 * big) * (2 * big)) by (nonlinear_arith)
            requires
                rh <= 2 * big,
                rw <= 2 * big,
        ;
        assert(1 <= f * f <= big * big) by (nonlinear_arith)
            requires
                1 <= f <= big,
        ;
    }
    let area = rh * rw;
    let ff = f * f;
    if max_pixels < 0 {
        proof {
            assert(rh * rw >= 0) by (nonlinear_arith)
                requires
                    rh >= 0,
                    rw >= 0,
            ;
            assert(f * f * w >= 1 && f * f * h >= 1) by (nonlinear_arith)
                requires
                    f >= 1,
                    w >= 1,
                    h >= 1,
            ;
            assert((h * max_pixels) / (f * f * w) < 0) by (nonlinear_arith)
                requires
                    h >= 1,
                    max_pixels < 0,
                    f * f * w >= 1,
            ;
            assert((w * max_pixels) / (f * f * h) < 0) by (nonlinear_arith)
                requires
                    w >= 1,
                    max_pixels < 0,
                    f * f * h >= 1,
            ;
            let (hs, ws) = (h as int, w as int);
            let fs = factor as int;
            assert((hs * max_pixels) / (fs * fs * ws) < 0);
            assert((ws * max_pixels) / (fs * fs * hs) < 0);
            assert(isqrt(0) == 0);
            assert(widened(height as int, width as int, fs).0 == hs);
            assert(widened(height as int, width as int, fs).1 == ws);
            assert(rh as int == round_half_even(hs, fs) * fs);
            assert(rw as int == round_half_even(ws, fs) * fs);
            assert(rh as int * rw as int > max_pixels);
            assert((round_half_even(hs, fs) * fs) * (round_half_even(ws, fs) * fs) > max_pixels);
            let qh = (hs * max_pixels) / (fs * fs * ws);
            let qw = (ws * max_pixels) / (fs * fs * hs);
            assert(isqrt((if qh < 0 { 0 } else { qh }) as nat) == 0);
            assert(isqrt((if qw < 0 { 0 } else { qw }) as nat) == 0);
            assert(smart_resized(height as int, width as int, factor as int, min_pixels as int, max_pixels as int) == (
                fs,
                fs,
            ));
        }
        return Ok((factor, factor));
    }
    let maxp = max_pixels as u128;
    let minp: u128 = if min_pixels < 0 { 0 } else { min_pixels as u128 };
    if area > maxp {
        proof {
            assert(h * maxp <= big * big) by (nonlinear_arith)
                requires
                    h <= big,
                    maxp <= big,
            ;
            assert(w * maxp <= big * big) by (nonlinear_arith)
                requires
                    w <= big,
                    maxp <= big,
            ;
            vstd::arithmetic::div_mod::lemma_div_denominator((h * maxp) as int, w as int, ff as int);
            vstd::arithmetic::div_mod::lemma_div_denominator((w * maxp) as int, h as int, ff as int);
            assert(w * ff == f * f * w) by (nonlinear_arith)
                requires
                    ff == f * f,
            ;
            assert(h * ff == f * f * h) by (nonlinear_arith)
                requires
                    ff == f * f,
            ;
        }
        let qh = (h * maxp) / w / ff;
        let qw = (w * maxp) / h / ff;
        let kh = floor_sqrt(qh);
        let kw = floor_sqrt(qw);
        proof {
            assert(kh * f <= 0x1_0000_0000_0000_0000 * big) by (nonlinear_arith)
                requires
                    kh <= 0xffff_ffff_ffff_ffff,
                    f <= big,
            ;
            assert(kw * f <= 0x1_0000_0000_0000_0000 * big) by (nonlinear_arith)
                requires
                    kw <= 0xffff_ffff_ffff_ffff,
                    f <= big,
            ;
        }
        let sh = kh * f;
        let sw = kw * f;
        let out_h = if sh < f { f } else { sh };
        let out_w = if sw < f { f } else { sw };
        Ok((out_h as i64, out_w as i64))
    } else if area < minp {
        proof {
            assert(h * minp <= big * big) by (nonlinear_arith)
                requires
                    h <= big,
                    minp <= big,
            ;
            assert(w * minp <= big * big) by (nonlinear_arith)
                requires
                    w <= big,
                    minp <= big,
            ;
            lemma_ceil_div_twice((h * minp) as int, w as int, ff as int);
            lemma_ceil_div_twice((w * minp) as int, h as int, ff as int);
            assert(w * ff == f * f * w) by (nonlinear_arith)
                requires
                    ff == f * f,
            ;
            assert(h * ff == f * f * h) by (nonlinear_arith)
                requires
                    ff == f * f,
            ;
        }
        let ch1 = (h * minp + w - 1) / w;
        let cw1 = (w * minp + h - 1) / h;
        let ch = (ch1 + ff - 1) / ff;
        let cw = (cw1 + ff - 1) / ff;
        let kh = floor_sqrt(ch);
        let kw = floor_sqrt(cw);
        proof {
            assert(kh * kh <= 0xffff_ffff_ffff_ffff * 0xffff_ffff_ffff_ffff) by (nonlinear_arith)
                requires
                    kh <= 0xffff_ffff_ffff_ffff,
            ;
            assert(kw * kw <= 0xffff_ffff_ffff_ffff * 0xffff_ffff_ffff_ffff) by (nonlinear_arith)
                requires
                    kw <= 0xffff_ffff_ffff_ffff,
            ;
        }
        let eh = if kh * kh == ch { kh } else { kh + 1 };
        let ew = if kw * kw == cw { kw } else { kw + 1 };
        proof {
            assert(eh * f <= 0x1_0000_0000_0000_0000 * big) by (nonlinear_arith)
                requires
                    eh <= 0x1_0000_0000_0000_0000,
                    f <= big,
            ;
            assert(ew * f <= 0x1_0000_0000_0000_0000 * big) by (nonlinear_arith)
                requires
                    ew <= 0x1_0000_0000_0000_0000,
                    f <= big,
            ;
        }
        Ok(((eh * f) as i64, (ew * f) as i64))
    } else {
        Ok((rh as i64, rw as i64))
    }
}

#[verifier::external_type_specification]
#[verifier::external_body]
pub struct ExTokenizer(tokenizers::Tokenizer);

/// Why a prompt cannot be encoded or an answer decoded.
#[derive(Clone, Debug, PartialEq, Eq)]
pub enum PaddleError {
    /// The tokenizer refused the input, with its message.
    Tokenizer(String),
    /// A generated token id does not fit a `u32`.
    InvalidTokenId(i64),
}

pub open spec fn prompt_head() -> Seq<char> {
    "<|begin_of_sentence|>User: <|IMAGE_START|>"@
}

pub open spec fn image_placeholder() -> Seq<char> {
    "<|IMAGE_PLACEHOLDER|>"@
}

pub open spec fn image_end() -> Seq<char> {
    "<|IMAGE_END|>"@
}

pub open spec fn prompt_tail() -> Seq<char> {
    "\nAssistant:\n"@
}

/// `text` written `count` times in a row.
pub open spec fn repeated(text: Seq<char>, count: nat) -> Seq<char>
    decreases count,
{
    if count == 0 {
        Seq::empty()
    } else {
        repeated(text, (count - 1) as nat) + text
    }
}

/// The chat prompt for `task` over an image of `image_tokens` merged patches.
pub open spec fn chat_prompt(task: PaddleOCRVLTask, image_tokens: nat) -> Seq<char> {
    prompt_head() + repeated(image_placeholder(), image_tokens) + image_end() + task_prompt(task) + prompt_tail()
}

/// The chat prompt for `task` over an image of `image_tokens` merged patches.
pub fn prompt_text(task: PaddleOCRVLTask, image_tokens: usize) -> (prompt: String)
    ensures
        prompt@ == chat_prompt(task, image_tokens as nat),
{
    let mut prompt = String::from_str("<|begin_of_sentence|>User: <|IMAGE_START|>");
    let mut k: usize = 0;
    while k < image_tokens
        invariant
            k <= image_tokens,
            prompt@ == prompt_head() + repeated(image_placeholder(), k as nat),
        decreases image_tokens - k,
    {
        prompt.append("<|IMAGE_PLACEHOLDER|>");
        k = k + 1;
    }
    prompt.append("<|IMAGE_END|>");
    prompt.append(task.prompt());
    prompt.append("\nAssistant:\n");
    proof {
        assert(prompt@ =~= chat_prompt(task, image_tokens as nat));
    }
    prompt
}

/// Marks which tokens are image placeholders (1) and which text (0).
pub fn token_type_ids(ids: &Vec<i64>, image_token_id: i64) -> (types: Vec<i64>)
    ensures
        types@.len() == ids@.len(),
        forall|i: int| 0 <= i < ids@.len() ==> #[trigger] types@[i] == if ids@[i] == image_token_id {
            1i64
        } else {
            0i64
        },
{
    let mut types: Vec<i64> = Vec::new();
    let mut k: usize = 0;
    while k < ids.len()
        invariant
            k <= ids@.len(),
            types@.len() == k,
            forall|i: int| 0 <= i < k ==> #[trigger] types@[i] == if ids@[i] == image_token_id {
                1i64
            } else {
                0i64
            },
        decreases ids@.len() - k,
    {
        types.push(if ids[k] == image_token_id { 1 } else { 0 });
        k = k + 1;
    }
    types
}

/// Whether the model of `tokenizer` is set to sample: a BPE model with a
/// dropout set, or a Unigram model with an `alpha` set. Only such a model
/// makes tokenizers' `Tokenizer::encode` draw on chance.
pub uninterp spec fn samples_at_random(tokenizer: tokenizers::Tokenizer) -> bool;

/// Whether the model of `tokenizer` is set to sample, read from tokenizers'
/// `Tokenizer::get_model`: the `dropout` of a BPE model or the `alpha` of a
/// Unigram model is set.
#[verifier::external_body]
fn tokenizer_samples(tokenizer: &tokenizers::Tokenizer) -> (samples: bool)
    ensures
        samples == samples_at_random(*tokenizer),
{
    match tokenizer.get_model() {
        tokenizers::models::ModelWrapper::BPE(model) => model.dropout.is_some(),
        tokenizers::models::ModelWrapper::Unigram(model) => model.alpha.is_some(),
        tokenizers::models::ModelWrapper::WordPiece(_) => false,
        tokenizers::models::ModelWrapper::WordLevel(_) => false,
    }
}

/// What tokenizers' `Tokenizer::encode` without added special tokens gives
/// for `text`: the ids of the encoding, or the error's message.
pub uninterp spec fn encoded_ids(tokenizer: tokenizers::Tokenizer, text: Seq<char>) -> Result<Seq<u32>, Seq<char>>;

/// What tokenizers' `Tokenizer::decode` without skipping special tokens
/// gives for `ids`: the text, or the error's message.
pub uninterp spec fn decoded_text(tokenizer: tokenizers::Tokenizer, ids: Seq<u32>) -> Result<Seq<char>, Seq<char>>;

/// Encodes `text` without added special tokens through tokenizers'
/// `Tokenizer::encode`, giving the ids of the encoding or the error's
/// message. Its source normalises, pre-tokenises and runs the model on the
/// text alone, so the result is a function of the tokenizer and the text,
/// except where the model samples (BPE dropout, Unigram `alpha`); that case
/// is left open.
#[verifier::external_body]
fn tokenizer_encode(tokenizer: &tokenizers::Tokenizer, text: &str) -> (ids: Result<Vec<u32>, String>)
    ensures
        !samples_at_random(*tokenizer) ==> match (ids, encoded_ids(*tokenizer, text@)) {
            (Ok(ids), Ok(expected)) => ids@ == expected,
            (Err(message), Err(expected)) => message@ == expected,
            _ => false,
        },
{
    match tokenizer.encode(text, false) {
        Ok(encoding) => Ok(encoding.get_ids().to_vec()),
        Err(error) => Err(error.to_string()),
    }
}

/// Decodes ids without skipping special tokens through tokenizers'
/// `Tokenizer::decode`, giving the text or the error's message; the result
/// is a function of the tokenizer and the ids.
#[verifier::external_body]
fn tokenizer_decode(tokenizer: &tokenizers::Tokenizer, ids: &Vec<u32>) -> (text: Result<String, String>)
    ensures
        match (text, decoded_text(*tokenizer, ids@)) {
            (Ok(text), Ok(expected)) => text@ == expected,
            (Err(message), Err(expected)) => message@ == expected,
            _ => false,
        },
{
    match tokenizer.decode(ids.as_slice(), false) {
        Ok(text) => Ok(text),
        Err(error) => Err(error.to_string()),
    }
}

/// The prompt ids a tokenizer encoding gives: each id widened to `i64`,
/// and for each whether it is the image placeholder `image_token_id` (1) or
/// text (0).
pub fn prompt_ids(raw: &Vec<u32>, image_token_id: i64) -> (encoded: (Vec<i64>, Vec<i64>))
    ensures
        encoded.0@.len() == raw@.len(),
        encoded.1@.len() == raw@.len(),
        forall|i: int| 0 <= i < raw@.len() ==> {
            &&& #[trigger] encoded.0@[i] == raw@[i] as i64
            &&& encoded.1@[i] == if raw@[i] as i64 == image_token_id { 1i64 } else { 0i64 }
        },
{
    let mut ids: Vec<i64> = Vec::new();
    let mut k: usize = 0;
    while k < raw.len()
        invariant
            k <= raw@.len(),
            ids@.len() == k,
            forall|i: int| 0 <= i < k ==> #[trigger] ids@[i] == raw@[i] as i64,
        decreases raw@.len() - k,
    {
        ids.push(raw[k] as i64);
        k = k + 1;
    }
    let types = token_type_ids(&ids, image_token_id);
    (ids, types)
}

/// PaddleOCR-VL's prompt encoder and answer decoder.
pub struct PromptCodec {
    pub tokenizer: tokenizers::Tokenizer,
    pub image_token_id: i64,
    pub merge_size: i64,
}

/// The number of merged patches an image of `grid` patches yields.
pub open spec fn merged_tokens(grid: [i64; 3], merge_size: i64) -> int {
    (grid[0] * grid[1] * grid[2]) / (merge_size * merge_size)
}

impl PromptCodec {
    /// Whether the tokenizer encodes the same text to the same ids every
    /// time: its model does not sample.
    pub fn encodes_deterministically(&self) -> (deterministic: bool)
        ensures
            deterministic == !samples_at_random(self.tokenizer),
    {
        !tokenizer_samples(&self.tokenizer)
    }

    /// Encodes the chat prompt for `task` over an image of `grid` patches:
    /// the tokenizer's ids of the prompt, and for each id whether it is an
    /// image placeholder.
    pub fn encode_prompt(&self, task: PaddleOCRVLTask, grid: [i64; 3]) -> (encoded: Result<(Vec<i64>, Vec<i64>), PaddleError>)
        requires
            self.merge_size != 0,
            self.merge_size * self.merge_size <= i64::MAX,
            i64::MIN <= grid[0] * grid[1] <= i64::MAX,
            0 <= grid[0] * grid[1] * grid[2] <= i64::MAX,
            merged_tokens(grid, self.merge_size) <= usize::MAX,
        ensures
            match encoded {
                Ok((ids, types)) => types@.len() == ids@.len() && forall|i: int| 0 <= i < ids@.len() ==> {
                    &&& 0 <= #[trigger] ids@[i] <= u32::MAX
                    &&& types@[i] == if ids@[i] == self.image_token_id { 1i64 } else { 0i64 }
                },
                Err(error) => error is Tokenizer,
            },
            !samples_at_random(self.tokenizer) ==> match (
                encoded,
                encoded_ids(self.tokenizer, chat_prompt(task, merged_tokens(grid, self.merge_size) as nat)),
            ) {
                (Ok((ids, _)), Ok(raw)) => ids@ == raw.map_values(|id: u32| id as i64),
                (Err(PaddleError::Tokenizer(message)), Err(expected)) => message@ == expected,
                _ => false,
            },
    {
        assert(1 <= self.merge_size * self.merge_size) by (nonlinear_arith)
            requires self.merge_size != 0;
        let area = self.merge_size * self.merge_size;
        let product = grid[0] * grid[1] * grid[2];
        let tokens = product / area;
        let prompt = prompt_text(task, tokens as usize);
        match tokenizer_encode(&self.tokenizer, prompt.as_str()) {
            Err(message) => Err(PaddleError::Tokenizer(message)),
            Ok(raw) => {
                let encoded = prompt_ids(&raw, self.image_token_id);
                assert(encoded.0@ =~= raw@.map_values(|id: u32| id as i64));
                Ok(encoded)
            },
        }
    }

    /// Decodes generated token ids to text; fails on the first id that does
    /// not fit a `u32`, or where the tokenizer refuses the ids.
    pub fn decode(&self, token_ids: &[i64]) -> (text: Result<String, PaddleError>)
        ensures
            match text {
                Ok(_) => forall|i: int| 0 <= i < token_ids@.len() ==> 0 <= #[trigger] token_ids@[i] <= u32::MAX,
                Err(PaddleError::InvalidTokenId(id)) => exists|i: int|
                    0 <= i < token_ids@.len() && #[trigger] token_ids@[i] == id && !(0 <= id <= u32::MAX)
                        && forall|j: int| 0 <= j < i ==> 0 <= #[trigger] token_ids@[j] <= u32::MAX,
                Err(PaddleError::Tokenizer(_)) => forall|i: int| 0 <= i < token_ids@.len() ==> 0 <= #[trigger] token_ids@[i] <= u32::MAX,
            },
            (forall|i: int| 0 <= i < token_ids@.len() ==> 0 <= #[trigger] token_ids@[i] <= u32::MAX) ==> match (
                text,
                decoded_text(self.tokenizer, token_ids@.map_values(|id: i64| id as u32)),
            ) {
                (Ok(text), Ok(expected)) => text@ == expected,
                (Err(PaddleError::Tokenizer(message)), Err(expected)) => message@ == expected,
                _ => false,
            },
    {
        let mut ids: Vec<u32> = Vec::new();
        let mut k: usize = 0;
        while k < token_ids.len()
            invariant
                k <= token_ids@.len(),
                ids@.len() == k,
                forall|j: int| 0 <= j < k ==> 0 <= #[trigger] token_ids@[j] <= u32::MAX,
            ids@ == token_ids@.take(k as int).map_values(|id: i64| id as u32),
            decreases token_ids@.len() - k,
        {
            let id = token_ids[k];
            if id < 0 || id > 0xffff_ffff {
                return Err(PaddleError::InvalidTokenId(id));
            }
            ids.push(id as u32);
            proof {
                assert(ids@ =~= token_ids@.take(k + 1).map_values(|id: i64| id as u32));
            }
            k = k + 1;
        }
        proof {
            assert(token_ids@.take(token_ids@.len() as int) =~= token_ids@);
        }
        match tokenizer_decode(&self.tokenizer, &ids) {
            Ok(text) => Ok(text),
            Err(message) => Err(PaddleError::Tokenizer(message)),
        }
    }
}

/// How an image is brought to PaddleOCR-VL's input.
#[derive(Clone, Copy, Debug, PartialEq, Eq)]
pub struct PreprocessPlan {
    /// The size the image is first resampled to (doubled for small
    /// spotting inputs, else its own).
    pub source_width: u32,
    pub source_height: u32,
    /// The model input size.
    pub height: i64,
    pub width: i64,
    /// Temporal, vertical and horizontal patch counts.
    pub grid: [i64; 3],
}

/// Why an image cannot be brought to PaddleOCR-VL's input.
#[derive(Clone, Copy, Debug, PartialEq, Eq, Structural)]
pub enum PreprocessError {
    /// The image has no pixels.
    EmptyImage,
    /// The longer side exceeds 200 times the shorter one.
    AspectRatioTooLarge,
    /// Resizing with another mode than bicubic was asked for.
    UnsupportedResampling,
}

/// Whether a spotting input is small enough to be doubled first.
pub open spec fn doubles(task: PaddleOCRVLTask, width: int, height: int) -> bool {
    task == PaddleOCRVLTask::Spotting && width < 1500 && height < 1500
}

/// What the image crate's `imageops::resize` with the Lanczos3 filter gives
/// for a `width` by `height` RGB image resized to `new_width` by `new_height`.
pub uninterp spec fn lanczos3_resized(pixels: Seq<u8>, width: nat, height: nat, new_width: nat, new_height: nat) -> Seq<u8>;

/// Resizes an RGB image to exactly `new_width` by `new_height` through the
/// image crate's `imageops::resize` with the Lanczos3 filter (what
/// `DynamicImage::resize_exact` does for RGB images); the result, a
/// `new_width` by `new_height` buffer, depends on the arguments alone.
#[verifier::external_body]
fn resize_exact_lanczos3(image: &RgbPixels, new_width: u32, new_height: u32) -> (out: RgbPixels)
    requires
        image.well_formed(),
        3 * (new_width * new_height) <= usize::MAX,
    ensures
        out.width == new_width,
        out.height == new_height,
        out.well_formed(),
        out.pixels@ == lanczos3_resized(
            image.pixels@,
            image.width as nat,
            image.height as nat,
            new_width as nat,
            new_height as nat,
        ),
{
    let source = image::RgbImage::from_raw(image.width, image.height, image.pixels.clone()).unwrap();
    let out = image::imageops::resize(&source, new_width, new_height, image::imageops::FilterType::Lanczos3);
    RgbPixels { width: out.width(), height: out.height(), pixels: out.into_raw() }
}

/// The image PaddleOCR-VL works from: a small spotting input resized to
/// twice its size with the Lanczos3 filter, any other image as it is.
pub fn spotting_source(image: &RgbPixels, task: PaddleOCRVLTask) -> (source: RgbPixels)
    requires
        image.well_formed(),
    ensures
        source.well_formed(),
        doubles(task, image.width as int, image.height as int) ==> {
            &&& source.width == 2 * image.width
            &&& source.height == 2 * image.height
            &&& source.pixels@ == lanczos3_resized(
                image.pixels@,
                image.width as nat,
                image.height as nat,
                (2 * image.width) as nat,
                (2 * image.height) as nat,
            )
        },
        !doubles(task, image.width as int, image.height as int) ==> source.width == image.width && source.height
            == image.height && source.pixels@ == image.pixels@,
{
    let spotting = match task {
        PaddleOCRVLTask::Spotting => true,
        _ => false,
    };
    if spotting && image.width < 1500 && image.height < 1500 {
        assert(3 * ((2 * image.width) * (2 * image.height)) <= 3 * 3000 * 3000) by (nonlinear_arith)
            requires
                image.width < 1500,
                image.height < 1500,
        ;
        resize_exact_lanczos3(image, image.width * 2, image.height * 2)
    } else {
        let mut pixels: Vec<u8> = Vec::new();
        let mut k: usize = 0;
        while k < image.pixels.len()
            invariant
                k <= image.pixels@.len(),
                pixels@ == image.pixels@.take(k as int),
            decreases image.pixels@.len() - k,
        {
            pixels.push(image.pixels[k]);
            proof {
                assert(pixels@ =~= image.pixels@.take(k + 1));
            }
            k = k + 1;
        }
        proof {
            assert(image.pixels@.take(image.pixels@.len() as int) =~= image.pixels@);
        }
        RgbPixels { width: image.width, height: image.height, pixels }
    }
}

/// Plans the preprocessing of a `width` by `height` image for `task`:
/// small spotting inputs are doubled, the size is fitted by `smart_resize`
/// to multiples of `patch_size * merge_size` (with a larger pixel budget for
/// spotting), and the patch grid follows.
pub fn plan_preprocess(
    width: u32,
    height: u32,
    task: PaddleOCRVLTask,
    patch_size: i64,
    merge_size: i64,
    min_pixels: i64,
    max_pixels: i64,
    do_resize: bool,
    resample: i64,
) -> (plan: Result<PreprocessPlan, PreprocessError>)
    requires
        1 <= patch_size,
        1 <= merge_size,
        patch_size * merge_size <= i64::MAX,
        ({
            let (sw, sh) = if doubles(task, width as int, height as int) {
                (2 * width, 2 * height)
            } else {
                (width as int, height as int)
            };
            let budget = if task == PaddleOCRVLTask::Spotting { 2048 * 28 * 28int } else { max_pixels as int };
            smart_resize_fits(sh, sw, patch_size * merge_size, min_pixels as int, budget)
        }),
    ensures
        match plan {
            Ok(plan) => {
                let (sw, sh) = if doubles(task, width as int, height as int) {
                    (2 * width, 2 * height)
                } else {
                    (width as int, height as int)
                };
                let budget = if task == PaddleOCRVLTask::Spotting { 2048 * 28 * 28int } else { max_pixels as int };
                let factor = patch_size * merge_size;
                &&& width > 0 && height > 0
                &&& plan.source_width == sw && plan.source_height == sh
                &&& aspect_within_limit(widened(sh, sw, factor).0, widened(sh, sw, factor).1)
                &&& (plan.height as int, plan.width as int) == smart_resized(sh, sw, factor, min_pixels as int, budget)
                &&& !do_resize || resample == 3
                &&& plan.grid[0] == 1
                &&& plan.grid[1] == plan.height / patch_size
                &&& plan.grid[2] == plan.width / patch_size
            },
            Err(error) => if width == 0 || height == 0 {
                error == PreprocessError::EmptyImage
            } else {
                let (sw, sh) = if doubles(task, width as int, height as int) {
                    (2 * width, 2 * height)
                } else {
                    (width as int, height as int)
                };
                let factor = patch_size * merge_size;
                if !aspect_within_limit(widened(sh, sw, factor).0, widened(sh, sw, factor).1) {
                    error == PreprocessError::AspectRatioTooLarge
                } else {
                    error == PreprocessError::UnsupportedResampling && do_resize && resample != 3
                }
            },
        },
{
    if width == 0 || height == 0 {
        return Err(PreprocessError::EmptyImage);
    }
    let spotting = match task {
        PaddleOCRVLTask::Spotting => true,
        _ => false,
    };
    let (source_width, source_height) = if spotting && width < 1500 && height < 1500 {
        (width * 2, height * 2)
    } else {
        (width, height)
    };
    let budget: i64 = if spotting { 2048 * 28 * 28 } else { max_pixels };
    assert(1 <= patch_size * merge_size) by (nonlinear_arith)
        requires 1 <= patch_size, 1 <= merge_size;
    let factor = patch_size * merge_size;
    match smart_resize(source_height as i64, source_width as i64, factor, min_pixels, budget) {
        Err(_) => Err(PreprocessError::AspectRatioTooLarge),
        Ok((resized_height, resized_width)) => {
            if do_resize && resample != 3 {
                return Err(PreprocessError::UnsupportedResampling);
            }
            Ok(PreprocessPlan {
                source_width,
                source_height,
                height: resized_height,
                width: resized_width,
                grid: [1, resized_height / patch_size, resized_width / patch_size],
            })
        },
    }
}

} // verus!
