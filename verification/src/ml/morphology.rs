use image::GrayImage;
use imageproc::distance_transform::Norm;
use imageproc::morphology::Mask;
use vstd::prelude::*;

use crate::math::{floor_sqrt, isqrt};
use crate::ml::raster::GrayPixels;
use crate::ml::text_mask::{at, in_bounds};

verus! {

/// An image given pixel by pixel: `w * h` samples, row by row, sample `i`
/// being `f` of column `i % w` and row `i / w`.
pub open spec fn image_of(w: int, h: int, f: spec_fn(int, int) -> u8) -> Seq<u8> {
    Seq::new((w * h) as nat, |i: int| f(i % w, i / w))
}

/// Whether kernel element `n` (row by row) is set and, centred on `(x, y)`,
/// covers a pixel of the `w` by `h` image.
pub open spec fn covers(w: int, h: int, kernel: Seq<u8>, kw: int, cx: int, cy: int, x: int, y: int, n: int) -> bool {
    kernel[n] != 0 && in_bounds(w, h, x + n % kw - cx, y + n / kw - cy)
}

/// The image sample under kernel element `n` centred on `(x, y)`.
pub open spec fn under(m: Seq<u8>, w: int, kw: int, cx: int, cy: int, x: int, y: int, n: int) -> u8 {
    m[at(w, x + n % kw - cx, y + n / kw - cy)]
}

/// The largest sample under the first `n` kernel elements centred on
/// `(x, y)`, or 0 where none covers the image.
pub open spec fn window_max(
    m: Seq<u8>,
    w: int,
    h: int,
    kernel: Seq<u8>,
    kw: int,
    cx: int,
    cy: int,
    x: int,
    y: int,
    n: int,
) -> u8
    decreases n,
{
    if n <= 0 {
        0
    } else {
        let prev = window_max(m, w, h, kernel, kw, cx, cy, x, y, n - 1);
        if covers(w, h, kernel, kw, cx, cy, x, y, n - 1) && under(m, w, kw, cx, cy, x, y, n - 1) > prev {
            under(m, w, kw, cx, cy, x, y, n - 1)
        } else {
            prev
        }
    }
}

/// The smallest sample under the first `n` kernel elements centred on
/// `(x, y)`, or 255 where none covers the image.
pub open spec fn window_min(
    m: Seq<u8>,
    w: int,
    h: int,
    kernel: Seq<u8>,
    kw: int,
    cx: int,
    cy: int,
    x: int,
    y: int,
    n: int,
) -> u8
    decreases n,
{
    if n <= 0 {
        255
    } else {
        let prev = window_min(m, w, h, kernel, kw, cx, cy, x, y, n - 1);
        if covers(w, h, kernel, kw, cx, cy, x, y, n - 1) && under(m, w, kw, cx, cy, x, y, n - 1) < prev {
            under(m, w, kw, cx, cy, x, y, n - 1)
        } else {
            prev
        }
    }
}

/// Grayscale dilation: each pixel becomes the largest sample that the
/// kernel, centred on it at `(cx, cy)`, covers.
pub open spec fn dilated(m: Seq<u8>, w: int, h: int, kernel: Seq<u8>, kw: int, kh: int, cx: int, cy: int) -> Seq<u8> {
    image_of(w, h, |x: int, y: int| window_max(m, w, h, kernel, kw, cx, cy, x, y, kw * kh))
}

/// Grayscale erosion: each pixel becomes the smallest sample that the
/// kernel, centred on it at `(cx, cy)`, covers.
pub open spec fn eroded(m: Seq<u8>, w: int, h: int, kernel: Seq<u8>, kw: int, kh: int, cx: int, cy: int) -> Seq<u8> {
    image_of(w, h, |x: int, y: int| window_min(m, w, h, kernel, kw, cx, cy, x, y, kw * kh))
}

/// Whether some non-zero pixel lies within Chebyshev distance `k` of `(x, y)`.
pub open spec fn foreground_within(m: Seq<u8>, w: int, h: int, x: int, y: int, k: int) -> bool {
    exists|fx: int, fy: int|
        #![trigger m[at(w, fx, fy)]]
        in_bounds(w, h, fx, fy) && m[at(w, fx, fy)] != 0 && -k <= fx - x <= k && -k <= fy - y <= k
}

/// The cap of the distances in a `w` by `h` image: `min(w + h, 255)`.
pub open spec fn distance_cap(w: int, h: int) -> int {
    if w + h <= 255 {
        w + h
    } else {
        255
    }
}

/// Binary dilation by Chebyshev radius `k`: white where the Chebyshev
/// distance to the nearest non-zero pixel, capped at `min(w + h, 255)`, is
/// at most `k`, black elsewhere. So a pixel turns white where a non-zero
/// pixel lies within distance `k`, and every pixel does when the cap is at
/// most `k`.
pub open spec fn chebyshev_dilated(m: Seq<u8>, w: int, h: int, k: int) -> Seq<u8> {
    image_of(
        w,
        h,
        |x: int, y: int|
            if foreground_within(m, w, h, x, y, k) || distance_cap(w, h) <= k {
                255u8
            } else {
                0u8
            },
    )
}

/// Grayscale dilation through imageproc's `grayscale_dilate`, with a mask
/// built by imageproc's `Mask::from_image` from the non-zero pixels of
/// `kernel` relative to `(cx, cy)`; imageproc documents each output pixel as
/// the maximum of the input pixels the mask covers there, 0 where it covers none.
#[verifier::external_body]
pub(crate) fn grayscale_dilate(image: &GrayPixels, kernel: &GrayPixels, cx: u8, cy: u8) -> (out: GrayPixels)
    requires
        image.well_formed(),
        image.width > 0,
        kernel.well_formed(),
        kernel.width < 512,
        kernel.height < 512,
    ensures
        out.width == image.width,
        out.height == image.height,
        out.pixels@ == dilated(
            image.pixels@,
            image.width as int,
            image.height as int,
            kernel.pixels@,
            kernel.width as int,
            kernel.height as int,
            cx as int,
            cy as int,
        ),
{
    let source = GrayImage::from_raw(image.width, image.height, image.pixels.clone()).unwrap();
    let shape = GrayImage::from_raw(kernel.width, kernel.height, kernel.pixels.clone()).unwrap();
    let mask = Mask::from_image(&shape, cx, cy);
    let out = imageproc::morphology::grayscale_dilate(&source, &mask);
    GrayPixels { width: out.width(), height: out.height(), pixels: out.into_raw() }
}

/// Grayscale erosion through imageproc's `grayscale_erode`, with a mask
/// built by imageproc's `Mask::from_image` from the non-zero pixels of
/// `kernel` relative to `(cx, cy)`; imageproc documents each output pixel as
/// the minimum of the input pixels the mask covers there, 255 where it covers none.
#[verifier::external_body]
pub(crate) fn grayscale_erode(image: &GrayPixels, kernel: &GrayPixels, cx: u8, cy: u8) -> (out: GrayPixels)
    requires
        image.well_formed(),
        image.width > 0,
        kernel.well_formed(),
        kernel.width < 512,
        kernel.height < 512,
    ensures
        out.width == image.width,
        out.height == image.height,
        out.pixels@ == eroded(
            image.pixels@,
            image.width as int,
            image.height as int,
            kernel.pixels@,
            kernel.width as int,
            kernel.height as int,
            cx as int,
            cy as int,
        ),
{
    let source = GrayImage::from_raw(image.width, image.height, image.pixels.clone()).unwrap();
    let shape = GrayImage::from_raw(kernel.width, kernel.height, kernel.pixels.clone()).unwrap();
    let mask = Mask::from_image(&shape, cx, cy);
    let out = imageproc::morphology::grayscale_erode(&source, &mask);
    GrayPixels { width: out.width(), height: out.height(), pixels: out.into_raw() }
}

/// Binary dilation through imageproc's `dilate` with the `LInf` norm. Its
/// source takes the `LInf` distance transform to the nearest non-zero pixel,
/// starting every pixel at `min(w + h, 255)` so that no distance exceeds
/// that cap, and sets to 255 exactly the pixels whose capped distance is at
/// most `k`, the rest to 0.
#[verifier::external_body]
pub(crate) fn chebyshev_dilate(image: &GrayPixels, k: u8) -> (out: GrayPixels)
    requires
        image.well_formed(),
    ensures
        out.width == image.width,
        out.height == image.height,
        out.pixels@ == chebyshev_dilated(image.pixels@, image.width as int, image.height as int, k as int),
{
    let source = GrayImage::from_raw(image.width, image.height, image.pixels.clone()).unwrap();
    let out = imageproc::morphology::dilate(&source, Norm::LInf, k);
    GrayPixels { width: out.width(), height: out.height(), pixels: out.into_raw() }
}

/// The integer nearest to the square root of `n` (never a tie for an integer `n`).
pub open spec fn nearest_sqrt(n: nat) -> int {
    let k = isqrt(n) as int;
    if n >= k * k + k + 1 {
        k + 1
    } else {
        k
    }
}

/// Whether pixel `(x, y)` of a `size` by `size` kernel lies in OpenCV's
/// elliptic structuring element: within each row `dy` from the centre, the
/// columns up to the nearest integer to `sqrt(r * r - dy * dy)` from the centre.
pub open spec fn in_ellipse(size: int, x: int, y: int) -> bool {
    let r = size / 2;
    let dy = y - r;
    let dx = x - r;
    -r <= dy <= r && -nearest_sqrt((r * r - dy * dy) as nat) <= dx <= nearest_sqrt((r * r - dy * dy) as nat)
}

/// OpenCV's elliptic structuring element as a `size` by `size` kernel image.
pub open spec fn ellipse_kernel(size: int) -> Seq<u8> {
    image_of(size, size, |x: int, y: int| if in_ellipse(size, x, y) { 255u8 } else { 0u8 })
}

pub proof fn lemma_index_splits(w: int, h: int, i: int)
    requires
        0 < w,
        0 <= i < w * h,
    ensures
        in_bounds(w, h, i % w, i / w),
        at(w, i % w, i / w) == i,
{
    vstd::arithmetic::div_mod::lemma_fundamental_div_mod(i, w);
    assert(0 <= i % w < w) by {
        vstd::arithmetic::div_mod::lemma_mod_bound(i, w);
    }
    assert(0 <= i / w < h) by (nonlinear_arith)
        requires
            0 < w,
            0 <= i < w * h,
            i == w * (i / w) + i % w,
            0 <= i % w < w,
    ;
    assert(at(w, i % w, i / w) == (i / w) * w + i % w);
    assert((i / w) * w == w * (i / w)) by (nonlinear_arith);
}

/// OpenCV's elliptic structuring element of odd side `size`.
pub fn opencv_ellipse(size: u8) -> (kernel: GrayPixels)
    requires
        size % 2 == 1,
    ensures
        kernel.width == size,
        kernel.height == size,
        kernel.well_formed(),
        kernel.pixels@ == ellipse_kernel(size as int),
{
    let n: u32 = size as u32;
    let r: u32 = n / 2;
    let mut pixels: Vec<u8> = Vec::new();
    let mut y: u32 = 0;
    proof {
        assert(n == 2 * r + 1);
    }
    while y < n
        invariant
            n == size,
            r == n / 2,
            n == 2 * r + 1,
            y <= n,
            pixels@.len() == y * n,
            forall|i: int| 0 <= i < y * n ==> #[trigger] pixels@[i] == (if in_ellipse(n as int, i % (n as int), i / (n as int)) {
                255u8
            } else {
                0u8
            }),
        decreases n - y,
    {
        proof {
            assert(n <= 255);
            if y >= r {
                assert((y - r) * (y - r) <= 127 * 127) by (nonlinear_arith)
                    requires y - r <= 127, y >= r;
            } else {
                assert((r - y) * (r - y) <= 127 * 127) by (nonlinear_arith)
                    requires r - y <= 127, r > y;
            }
        }
        let dy2: u32 = if y >= r { (y - r) * (y - r) } else { (r - y) * (r - y) };
        proof {
            assert(dy2 <= r * r) by (nonlinear_arith)
                requires
                    dy2 == (if y >= r { (y - r) * (y - r) } else { (r - y) * (r - y) }),
                    y < n,
                    n == 2 * r + 1,
            ;
        }
        proof {
            assert(r * r <= 127 * 127) by (nonlinear_arith)
                requires r <= 127;
        }
        let a: u32 = r * r - dy2;
        let k: u128 = floor_sqrt(a as u128);
        proof {
            crate::math::lemma_isqrt(a as nat);
            assert(k * k <= a);
            assert(k <= 127) by (nonlinear_arith)
                requires
                    k * k <= a,
                    a <= 127 * 127,
            ;
        }
        let half: u32 = if (a as u128) >= k * k + k + 1 { (k + 1) as u32 } else { k as u32 };
        let ghost dy: int = y - r;
        proof {
            assert(dy2 == dy * dy) by (nonlinear_arith)
                requires
                    dy2 == (if y >= r { (y - r) * (y - r) } else { (r - y) * (r - y) }),
                    dy == y - r,
            ;
            assert(half as int == nearest_sqrt((r * r - dy * dy) as nat));
        }
        let mut x: u32 = 0;
        while x < n
            invariant
                n == size,
                r == n / 2,
                n == 2 * r + 1,
                y < n,
                x <= n,
                dy == y - r,
                half as int == nearest_sqrt((r * r - dy * dy) as nat),
                pixels@.len() == y * n + x,
                forall|i: int| 0 <= i < y * n + x ==> #[trigger] pixels@[i] == (if in_ellipse(n as int, i % (n as int), i / (n as int)) {
                    255u8
                } else {
                    0u8
                }),
            decreases n - x,
        {
            let inside = (x >= r && x - r <= half) || (x < r && r - x <= half);
            proof {
                let i = y * n + x;
                vstd::arithmetic::div_mod::lemma_fundamental_div_mod_converse(i, n as int, y as int, x as int);
                assert(inside == in_ellipse(n as int, x as int, y as int));
            }
            pixels.push(if inside { 255 } else { 0 });
            proof {
                assert((y * n + x) + 1 == y * n + (x + 1));
            }
            x = x + 1;
        }
        proof {
            assert(y * n + n == (y + 1) * n) by (nonlinear_arith);
        }
        y = y + 1;
    }
    proof {
        assert(y * n == n * n) by (nonlinear_arith)
            requires y == n;
    }
    let kernel = GrayPixels { width: n, height: n, pixels };
    proof {
        assert(kernel.pixels@ =~= ellipse_kernel(size as int));
    }
    kernel
}

} // verus!
