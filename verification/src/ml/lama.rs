use vstd::prelude::*;

use crate::ml::raster::{GrayPixels, RgbPixels, restore_unmasked};
use crate::ml::resize::{Resampling, resampled, resize_gray, resize_rgb};
use crate::ml::text_mask::{at, in_bounds, lemma_at_bounds, lemma_at_injective};

verus! {

/// How LaMa treats an image larger than its working size.
#[derive(Clone, Copy, Debug, Default, PartialEq, Eq, Structural)]
pub enum HDStrategy {
    /// Run on the whole image as it is.
    Original,
    /// Downscale, inpaint, and upscale back.
    Resize,
    /// Inpaint crops around each masked region.
    #[default]
    Crop,
}

/// IOPaint-compatible options of one inpainting call.
#[derive(Clone, Debug, PartialEq, Eq)]
pub struct InpaintRequest {
    pub hd_strategy: HDStrategy,
    pub hd_strategy_crop_trigger_size: u32,
    pub hd_strategy_crop_margin: u32,
    pub hd_strategy_resize_limit: u32,
    pub sd_keep_unmasked_area: bool,
}

impl InpaintRequest {
    /// IOPaint's defaults: crop around masks once the longer side exceeds 800
    /// pixels, with a 128-pixel margin.
    pub fn default() -> (request: Self)
        ensures
            request.hd_strategy == HDStrategy::Crop,
            request.hd_strategy_crop_trigger_size == 800,
            request.hd_strategy_crop_margin == 128,
            request.hd_strategy_resize_limit == 1280,
            request.sd_keep_unmasked_area,
    {
        InpaintRequest {
            hd_strategy: HDStrategy::Crop,
            hd_strategy_crop_trigger_size: 800,
            hd_strategy_crop_margin: 128,
            hd_strategy_resize_limit: 1280,
            sd_keep_unmasked_area: true,
        }
    }
}

/// `numerator / denominator` rounded half up, for a positive denominator.
pub open spec fn round_half_up(numerator: int, denominator: int) -> int {
    (2 * numerator + denominator) / (2 * denominator)
}

/// Scales `(width, height)` so that the longer side becomes `size_limit`,
/// rounding each side half up; an image with no pixels stays `(0, 0)`.
pub open spec fn scaled_dimensions(width: int, height: int, size_limit: int) -> (int, int) {
    let longer = if width >= height { width } else { height };
    if longer == 0 {
        (0, 0)
    } else {
        (round_half_up(width * size_limit, longer), round_half_up(height * size_limit, longer))
    }
}

/// Output size of the resize strategy: the longer side becomes `size_limit`
/// and the aspect ratio is kept, each side rounded half up.
pub fn resize_dimensions(width: u32, height: u32, size_limit: u32) -> (size: (u32, u32))
    ensures
        size.0 as int == scaled_dimensions(width as int, height as int, size_limit as int).0,
        size.1 as int == scaled_dimensions(width as int, height as int, size_limit as int).1,
{
    let longer: u128 = if width >= height { width as u128 } else { height as u128 };
    if longer == 0 {
        return (0, 0);
    }
    let w = width as u128;
    let h = height as u128;
    let limit = size_limit as u128;
    proof {
        assert(w * limit <= u32::MAX * u32::MAX) by (nonlinear_arith)
            requires w <= u32::MAX, limit <= u32::MAX;
        assert(h * limit <= u32::MAX * u32::MAX) by (nonlinear_arith)
            requires h <= u32::MAX, limit <= u32::MAX;
    }
    let scaled_w = (2 * (w * limit) + longer) / (2 * longer);
    let scaled_h = (2 * (h * limit) + longer) / (2 * longer);
    proof {
        assert(scaled_w <= limit) by (nonlinear_arith)
            requires
                scaled_w == (2 * (w * limit) + longer) / (2 * longer),
                w <= longer,
                longer > 0,
        ;
        assert(scaled_h <= limit) by (nonlinear_arith)
            requires
                scaled_h == (2 * (h * limit) + longer) / (2 * longer),
                h <= longer,
                longer > 0,
        ;
    }
    (scaled_w as u32, scaled_h as u32)
}

/// The smallest multiple of `modulo` that is at least `value`.
pub fn ceil_modulo(value: u32, modulo: u32) -> (result: u32)
    requires
        modulo > 0,
        value + modulo <= u32::MAX,
    ensures
        result % modulo == 0,
        value <= result < value + modulo,
{
    if value % modulo == 0 {
        value
    } else {
        proof {
            assert((value / modulo + 1) * modulo == value / modulo * modulo + modulo) by (nonlinear_arith);
            assert(value / modulo * modulo + value % modulo == value) by (nonlinear_arith)
                requires modulo > 0;
        }
        let result = (value / modulo + 1) * modulo;
        proof {
            assert(result % modulo == 0) by (nonlinear_arith)
                requires result == (value / modulo + 1) * modulo, modulo > 0;
        }
        result
    }
}

/// Mirror padding: position `index` of the sequence `0, 1, .., length - 1,
/// length - 1, .., 1, 0` repeated forever.
pub open spec fn reflected(index: int, length: int) -> int {
    let folded = index % (2 * length);
    if folded < length {
        folded
    } else {
        2 * length - folded - 1
    }
}

/// Source index that symmetric padding reads for output position `index`.
pub fn symmetric_index(index: u32, length: u32) -> (source: u32)
    requires
        length > 0,
        2 * length <= u32::MAX,
    ensures
        source as int == reflected(index as int, length as int),
        source < length,
{
    let folded = index % (length * 2);
    if folded < length {
        folded
    } else {
        length * 2 - folded - 1
    }
}

/// The source index of every output position when an axis of `length`
/// samples is padded symmetrically to `output_length` samples.
pub fn symmetric_indices(length: u32, output_length: u32) -> (indices: Vec<u32>)
    requires
        length > 0,
        2 * length <= u32::MAX,
    ensures
        indices@.len() == output_length,
        forall|i: int| 0 <= i < output_length ==> indices@[i] as int == reflected(i, length as int),
{
    let mut indices: Vec<u32> = Vec::new();
    let mut index: u32 = 0;
    while index < output_length
        invariant
            length > 0,
            2 * length <= u32::MAX,
            index <= output_length,
            indices@.len() == index,
            forall|i: int| 0 <= i < index ==> indices@[i] as int == reflected(i, length as int),
        decreases output_length - index,
    {
        indices.push(symmetric_index(index, length));
        index = index + 1;
    }
    indices
}

/// One axis of a crop window: centre a span of `hi - lo + 2 * margin` on the
/// box, shift it back inside `[0, size]` where it sticks out, and clamp.
pub open spec fn crop_axis(lo: int, hi: int, margin: int, size: int) -> (int, int) {
    let span = (hi - lo) + margin * 2;
    let center = (lo + hi) / 2;
    let raw_lo = center - span / 2;
    let raw_hi = center + span / 2;
    let start = if raw_lo < 0 { 0 } else { raw_lo };
    let end = if raw_hi > size { size } else { raw_hi };
    let end = if raw_lo < 0 { end - raw_lo } else { end };
    let start = if raw_hi > size { start - (raw_hi - size) } else { start };
    (clamp(start, size), clamp(end, size))
}

pub open spec fn clamp(value: int, size: int) -> int {
    if value < 0 {
        0
    } else if value > size {
        size
    } else {
        value
    }
}

fn crop_axis_exec(lo: u32, hi: u32, margin: u32, size: u32) -> (result: (u32, u32))
    requires
        lo <= hi,
    ensures
        result.0 as int == crop_axis(lo as int, hi as int, margin as int, size as int).0,
        result.1 as int == crop_axis(lo as int, hi as int, margin as int, size as int).1,
{
    let size = size as i64;
    let span = (hi - lo) as i64 + margin as i64 * 2;
    let center = (lo as i64 + hi as i64) / 2;
    let raw_lo = center - span / 2;
    let raw_hi = center + span / 2;
    let mut start = if raw_lo < 0 { 0 } else { raw_lo };
    let mut end = if raw_hi > size { size } else { raw_hi };
    if raw_lo < 0 {
        end = end - raw_lo;
    }
    if raw_hi > size {
        start = start - (raw_hi - size);
    }
    let start = if start < 0 { 0 } else if start > size { size } else { start };
    let end = if end < 0 { 0 } else if end > size { size } else { end };
    (start as u32, end as u32)
}

/// The crop window that LaMa inpaints around the box `[left, top, right, bottom]`:
/// the box grown by `margin` on every side, kept inside the image.
pub fn crop_box(image_width: u32, image_height: u32, bounds: [u32; 4], margin: u32) -> (window: [u32; 4])
    requires
        bounds[0] <= bounds[2],
        bounds[1] <= bounds[3],
    ensures
        window[0] as int == crop_axis(bounds[0] as int, bounds[2] as int, margin as int, image_width as int).0,
        window[2] as int == crop_axis(bounds[0] as int, bounds[2] as int, margin as int, image_width as int).1,
        window[1] as int == crop_axis(bounds[1] as int, bounds[3] as int, margin as int, image_height as int).0,
        window[3] as int == crop_axis(bounds[1] as int, bounds[3] as int, margin as int, image_height as int).1,
{
    let (left, right) = crop_axis_exec(bounds[0], bounds[2], margin, image_width);
    let (top, bottom) = crop_axis_exec(bounds[1], bounds[3], margin, image_height);
    [left, top, right, bottom]
}

/// A crop window never leaves the image and never has negative extent; with a
/// positive margin it holds the whole box it was made for.
pub proof fn lemma_crop_window_inside(lo: int, hi: int, margin: int, size: int)
    requires
        0 <= lo <= hi,
        0 <= margin,
        0 <= size,
    ensures
        0 <= crop_axis(lo, hi, margin, size).0 <= crop_axis(lo, hi, margin, size).1 <= size,
        margin > 0 && hi <= size ==> crop_axis(lo, hi, margin, size).0 <= lo && hi <= crop_axis(
            lo,
            hi,
            margin,
            size,
        ).1,
{
}

/// A contour as `find_contours_with_threshold` reports it: whether it is an
/// outer border, the index of its parent contour, and its points `(x, y)`.
pub type ContourView = (bool, Option<usize>, Seq<(u32, u32)>);

/// The borders that `imageproc::contours::find_contours_with_threshold` finds
/// in a `width` x `height` image whose samples are `pixels`.
pub uninterp spec fn border_contours(pixels: Seq<u8>, width: nat, height: nat, threshold: u8) -> Seq<ContourView>;

/// Calls `imageproc::contours::find_contours_with_threshold::<u32>` on the
/// image. The result is named by `border_contours`; beside the name, what
/// imageproc documents and its source shows is claimed: every border point
/// lies inside the image on a pixel brighter than `threshold`; and where the
/// first column holds no such pixel but some other pixel is, the scan meets
/// the first such pixel in raster order with nothing before it in its row,
/// so the first border it traces is an outer border without parent, of at
/// least that point.
#[verifier::external_body]
fn find_contours(pixels: &Vec<u8>, width: u32, height: u32, threshold: u8) -> (contours: Vec<(bool, Option<usize>, Vec<(u32, u32)>)>)
    requires
        pixels@.len() == width * height,
    ensures
        contours.deep_view() == border_contours(pixels@, width as nat, height as nat, threshold),
        forall|i: int, k: int|
            0 <= i < contours@.len() && 0 <= k < contours@[i].2@.len() ==> {
                let p = #[trigger] contours@[i].2@[k];
                &&& p.0 < width
                &&& p.1 < height
                &&& pixels@[at(width as int, p.0 as int, p.1 as int)] > threshold
            },
        (forall|y: int| 0 <= y < height ==> #[trigger] pixels@[at(width as int, 0, y)] <= threshold) && (exists|x: int, y: int|
            in_bounds(width as int, height as int, x, y) && #[trigger] pixels@[at(width as int, x, y)] > threshold) ==> {
            &&& contours@.len() > 0
            &&& contours@[0].0
            &&& contours@[0].1 is None
            &&& contours@[0].2@.len() > 0
        },
{
    let image = image::GrayImage::from_raw(width, height, pixels.clone()).unwrap();
    imageproc::contours::find_contours_with_threshold::<u32>(&image, threshold)
        .into_iter()
        .map(|contour| (
            matches!(contour.border_type, imageproc::contours::BorderType::Outer),
            contour.parent,
            contour.points.into_iter().map(|point| (point.x, point.y)).collect(),
        ))
        .collect()
}

pub open spec fn is_masked(m: Seq<u8>, w: int, x: int, y: int) -> bool {
    m[at(w, x, y)] > 127
}

pub open spec fn any_masked(m: Seq<u8>, w: int, h: int) -> bool {
    exists|x: int, y: int| in_bounds(w, h, x, y) && #[trigger] is_masked(m, w, x, y)
}

/// `[l, r) x [t, b)` is the smallest box holding every masked pixel.
pub open spec fn tight_bounds(m: Seq<u8>, w: int, h: int, l: int, t: int, r: int, b: int) -> bool {
    &&& forall|x: int, y: int|
        in_bounds(w, h, x, y) && #[trigger] is_masked(m, w, x, y) ==> l <= x < r && t <= y < b
    &&& exists|x: int, y: int| in_bounds(w, h, x, y) && #[trigger] is_masked(m, w, x, y) && x == l
    &&& exists|x: int, y: int| in_bounds(w, h, x, y) && #[trigger] is_masked(m, w, x, y) && x == r - 1
    &&& exists|x: int, y: int| in_bounds(w, h, x, y) && #[trigger] is_masked(m, w, x, y) && y == t
    &&& exists|x: int, y: int| in_bounds(w, h, x, y) && #[trigger] is_masked(m, w, x, y) && y == b - 1
}

/// `p` is the `cw` x `ch` crop of `m` at `(l, t)` with a one-pixel zero frame.
pub open spec fn is_padded_crop(p: Seq<u8>, m: Seq<u8>, w: int, l: int, t: int, cw: int, ch: int) -> bool {
    &&& p.len() == (cw + 2) * (ch + 2)
    &&& forall|x: int, y: int|
        in_bounds(cw + 2, ch + 2, x, y) ==> #[trigger] p[at(cw + 2, x, y)] == if 1 <= x <= cw && 1 <= y <= ch {
            m[at(w, l + x - 1, t + y - 1)]
        } else {
            0u8
        }
}

/// Smallest and largest coordinates of a non-empty point list.
pub open spec fn point_extent(ps: Seq<(u32, u32)>) -> (int, int, int, int)
    decreases ps.len(),
{
    if ps.len() <= 1 {
        (ps[0].0 as int, ps[0].1 as int, ps[0].0 as int, ps[0].1 as int)
    } else {
        let e = point_extent(ps.drop_last());
        let p = ps.last();
        (
            if (p.0 as int) < e.0 { p.0 as int } else { e.0 },
            if (p.1 as int) < e.1 { p.1 as int } else { e.1 },
            if (p.0 as int) > e.2 { p.0 as int } else { e.2 },
            if (p.1 as int) > e.3 { p.1 as int } else { e.3 },
        )
    }
}

/// Image-space box of a contour found in the padded crop at `(l, t)`.
pub open spec fn contour_box(ps: Seq<(u32, u32)>, l: int, t: int, w: int, h: int) -> (int, int, int, int) {
    let e = point_extent(ps);
    (
        l + if e.0 >= 1 { e.0 - 1 } else { 0 },
        t + if e.1 >= 1 { e.1 - 1 } else { 0 },
        if l + e.2 < w { l + e.2 } else { w },
        if t + e.3 < h { t + e.3 } else { h },
    )
}

/// Whether a contour yields a box: an outer border without parent, with points,
/// whose box is not empty.
pub open spec fn keeps_contour(c: ContourView, l: int, t: int, w: int, h: int) -> bool {
    &&& c.0
    &&& c.1 is None
    &&& c.2.len() > 0
    &&& contour_box(c.2, l, t, w, h).2 > contour_box(c.2, l, t, w, h).0
    &&& contour_box(c.2, l, t, w, h).3 > contour_box(c.2, l, t, w, h).1
}

/// The boxes of the kept contours, in contour order.
pub open spec fn contour_boxes(cs: Seq<ContourView>, l: int, t: int, w: int, h: int) -> Seq<(int, int, int, int)>
    decreases cs.len(),
{
    if cs.len() == 0 {
        Seq::empty()
    } else {
        contour_boxes(cs.drop_last(), l, t, w, h) + if keeps_contour(cs.last(), l, t, w, h) {
            seq![contour_box(cs.last().2, l, t, w, h)]
        } else {
            Seq::empty()
        }
    }
}

pub open spec fn box_is(bx: [u32; 4], b: (int, int, int, int)) -> bool {
    bx[0] as int == b.0 && bx[1] as int == b.1 && bx[2] as int == b.2 && bx[3] as int == b.3
}

fn first_masked_in_row(m: &Vec<u8>, width: u32, height: u32, y: u32) -> (found: Option<u32>)
    requires
        m@.len() == width * height,
        y < height,
    ensures
        match found {
            Some(x) => x < width && is_masked(m@, width as int, x as int, y as int) && forall|x2: int|
                0 <= x2 < x ==> !#[trigger] is_masked(m@, width as int, x2, y as int),
            None => forall|x2: int| 0 <= x2 < width ==> !#[trigger] is_masked(m@, width as int, x2, y as int),
        },
{
    let mut x: u32 = 0;
    while x < width
        invariant
            m@.len() == width * height,
            y < height,
            x <= width,
            forall|x2: int| 0 <= x2 < x ==> !#[trigger] is_masked(m@, width as int, x2, y as int),
        decreases width - x,
    {
        let len = m.len();
        proof {
            lemma_at_bounds(width as int, height as int, x as int, y as int);
            assert((y as int) * (width as int) <= (y as int) * (width as int) + x);
            assert((y as int) * (width as int) + x < len);
        }
        let index = y as usize * width as usize + x as usize;
        if m[index] > 127 {
            return Some(x);
        }
        x = x + 1;
    }
    None
}

fn last_masked_in_row(m: &Vec<u8>, width: u32, height: u32, y: u32) -> (found: Option<u32>)
    requires
        m@.len() == width * height,
        y < height,
    ensures
        match found {
            Some(x) => x < width && is_masked(m@, width as int, x as int, y as int) && forall|x2: int|
                x < x2 < width ==> !#[trigger] is_masked(m@, width as int, x2, y as int),
            None => forall|x2: int| 0 <= x2 < width ==> !#[trigger] is_masked(m@, width as int, x2, y as int),
        },
{
    let mut x: u32 = width;
    while x > 0
        invariant
            m@.len() == width * height,
            y < height,
            x <= width,
            forall|x2: int| x <= x2 < width ==> !#[trigger] is_masked(m@, width as int, x2, y as int),
        decreases x,
    {
        let len = m.len();
        proof {
            lemma_at_bounds(width as int, height as int, x - 1, y as int);
            assert((y as int) * (width as int) <= (y as int) * (width as int) + (x - 1));
            assert((y as int) * (width as int) + (x - 1) < len);
        }
        let index = y as usize * width as usize + (x - 1) as usize;
        if m[index] > 127 {
            return Some(x - 1);
        }
        x = x - 1;
    }
    None
}

/// Copies the `cw` x `ch` crop of `m` at `(left, top)` into a zero image two
/// pixels wider and taller, one pixel in from each edge.
fn padded_crop(m: &Vec<u8>, width: u32, height: u32, left: u32, top: u32, cw: u32, ch: u32) -> (padded: Vec<u8>)
    requires
        m@.len() == width * height,
        left + cw <= width,
        top + ch <= height,
        cw + 2 <= u32::MAX,
        ch + 2 <= u32::MAX,
        (cw + 2) * (ch + 2) <= usize::MAX,
    ensures
        is_padded_crop(padded@, m@, width as int, left as int, top as int, cw as int, ch as int),
{
    let pw = cw as usize + 2;
    let ph = ch as usize + 2;
    let total = pw * ph;
    let ghost (pwi, phi, wi) = (pw as int, ph as int, width as int);
    let mut padded: Vec<u8> = Vec::new();
    while padded.len() < total
        invariant
            padded@.len() <= total,
            forall|i: int| 0 <= i < padded@.len() ==> padded@[i] == 0,
        decreases total - padded@.len(),
    {
        padded.push(0);
    }
    proof {
        assert forall|x: int, y: int| in_bounds(pwi, phi, x, y) implies #[trigger] padded@[at(pwi, x, y)] == 0u8 by {
            lemma_at_bounds(pwi, phi, x, y);
        }
    }
    let len = m.len();
    let mut yy: u32 = 0;
    while yy < ch
        invariant
            m@.len() == width * height,
            len == m@.len(),
            left + cw <= width,
            top + ch <= height,
            pw == cw + 2,
            ph == ch + 2,
            pwi == pw,
            phi == ph,
            wi == width,
            total == pw * ph,
            padded@.len() == total,
            yy <= ch,
            forall|x: int, y: int| in_bounds(pwi, phi, x, y) ==> #[trigger] padded@[at(pwi, x, y)] == if 1 <= x <= cw && 1 <= y <= yy {
                m@[at(wi, left + x - 1, top + y - 1)]
            } else {
                0u8
            },
        decreases ch - yy,
    {
        let mut xx: u32 = 0;
        while xx < cw
            invariant
                m@.len() == width * height,
                len == m@.len(),
                left + cw <= width,
                top + ch <= height,
                pw == cw + 2,
                ph == ch + 2,
                pwi == pw,
                phi == ph,
                wi == width,
                total == pw * ph,
                padded@.len() == total,
                yy < ch,
                xx <= cw,
                forall|x: int, y: int| in_bounds(pwi, phi, x, y) ==> #[trigger] padded@[at(pwi, x, y)] == if 1 <= x <= cw && 1 <= y <= yy + 1 && (y <= yy || x <= xx) {
                    m@[at(wi, left + x - 1, top + y - 1)]
                } else {
                    0u8
                },
            decreases cw - xx,
        {
            let ghost old_padded = padded@;
            proof {
                lemma_at_bounds(wi, height as int, (left + xx) as int, (top + yy) as int);
                lemma_at_bounds(pwi, phi, (xx + 1) as int, (yy + 1) as int);
                assert(((top + yy) as int) * wi <= ((top + yy) as int) * wi + (left + xx) as int);
                assert(((top + yy) as int) * wi + ((left + xx) as int) < len);
                assert(((yy + 1) as int) * pwi <= ((yy + 1) as int) * pwi + (xx + 1) as int);
            }
            let source = (top + yy) as usize * width as usize + (left + xx) as usize;
            let target = (yy as usize + 1) * pw + xx as usize + 1;
            let value = m[source];
            padded.set(target, value);
            proof {
                assert forall|x: int, y: int| in_bounds(pwi, phi, x, y) implies #[trigger] padded@[at(pwi, x, y)] == if 1 <= x <= cw && 1 <= y <= yy + 1 && (y <= yy || x <= xx + 1) {
                    m@[at(wi, left + x - 1, top + y - 1)]
                } else {
                    0u8
                } by {
                    lemma_at_bounds(pwi, phi, x, y);
                    if at(pwi, x, y) == target {
                        lemma_at_injective(pwi, x, y, (xx + 1) as int, (yy + 1) as int);
                    } else {
                        assert(padded@[at(pwi, x, y)] == old_padded[at(pwi, x, y)]);
                    }
                }
            }
            xx = xx + 1;
        }
        yy = yy + 1;
    }
    padded
}

/// The extent of points that all lie in `[lx, hx] x [ly, hy]` lies there too,
/// its smallest coordinates no larger than its largest.
proof fn lemma_point_extent_bounds(ps: Seq<(u32, u32)>, lx: int, hx: int, ly: int, hy: int)
    requires
        ps.len() > 0,
        forall|k: int| 0 <= k < ps.len() ==> lx <= (#[trigger] ps[k]).0 <= hx && ly <= ps[k].1 <= hy,
    ensures
        lx <= point_extent(ps).0 <= point_extent(ps).2 <= hx,
        ly <= point_extent(ps).1 <= point_extent(ps).3 <= hy,
    decreases ps.len(),
{
    if ps.len() > 1 {
        let p = ps.drop_last();
        assert forall|k: int| 0 <= k < p.len() implies lx <= (#[trigger] p[k]).0 <= hx && ly <= p[k].1 <= hy by {
            assert(p[k] == ps[k]);
        }
        lemma_point_extent_bounds(p, lx, hx, ly, hy);
        assert(lx <= ps[ps.len() - 1].0 <= hx);
    } else {
        assert(lx <= ps[0].0 <= hx);
    }
}

/// Contours of which one yields a box yield at least one box.
proof fn lemma_contour_boxes_nonempty(cs: Seq<ContourView>, j: int, l: int, t: int, w: int, h: int)
    requires
        0 <= j < cs.len(),
        keeps_contour(cs[j], l, t, w, h),
    ensures
        contour_boxes(cs, l, t, w, h).len() > 0,
    decreases cs.len(),
{
    if j < cs.len() - 1 {
        assert(cs.drop_last()[j] == cs[j]);
        lemma_contour_boxes_nonempty(cs.drop_last(), j, l, t, w, h);
    }
}

/// Whether `boxes` are the boxes around the separate masked regions of the
/// `w` by `h` mask `m` (pixels above 127): the outer contours, found in the
/// tight crop of the masked area framed by one zero pixel, each grown by
/// one pixel up and left and kept inside the image; none when nothing is
/// masked. Every box is non-empty and inside the image.
pub open spec fn are_mask_boxes(m: Seq<u8>, w: int, h: int, boxes: Seq<[u32; 4]>) -> bool {
    &&& !any_masked(m, w, h) ==> boxes.len() == 0
    &&& any_masked(m, w, h) ==> exists|l: int, t: int, r: int, b: int, padded: Seq<u8>| {
        &&& #[trigger] tight_bounds(m, w, h, l, t, r, b)
        &&& #[trigger] is_padded_crop(padded, m, w, l, t, r - l, b - t)
        &&& {
            let expected = contour_boxes(border_contours(padded, (r - l + 2) as nat, (b - t + 2) as nat, 127), l, t, w, h);
            &&& boxes.len() == expected.len()
            &&& forall|i: int| 0 <= i < expected.len() ==> box_is(#[trigger] boxes[i], expected[i])
        }
    }
    &&& forall|i: int| 0 <= i < boxes.len() ==> #[trigger] boxes[i][0] < boxes[i][2] <= w && boxes[i][1] < boxes[i][3] <= h
}

/// The boxes around the separate masked regions of `mask` (pixels above
/// 127), found as the outer contours of the masked area, each grown by one
/// pixel up and left and kept inside the image. Empty when nothing is masked.
pub fn boxes_from_mask(mask: &GrayPixels) -> (boxes: Vec<[u32; 4]>)
    requires
        mask.well_formed(),
        mask.width + 2 <= u32::MAX,
        mask.height + 2 <= u32::MAX,
        (mask.width + 2) * (mask.height + 2) <= usize::MAX,
    ensures
        are_mask_boxes(mask.pixels@, mask.width as int, mask.height as int, boxes@),
        any_masked(mask.pixels@, mask.width as int, mask.height as int) ==> boxes@.len() > 0,
{
    let width = mask.width;
    let height = mask.height;
    let m = &mask.pixels;
    let ghost (w, h) = (width as int, height as int);
    let mut left: u32 = width;
    let mut top: u32 = height;
    let mut right: u32 = 0;
    let mut bottom: u32 = 0;
    let mut y: u32 = 0;
    while y < height
        invariant
            m@.len() == width * height,
            w == width,
            h == height,
            y <= height,
            (right == 0) <==> !(exists|x: int, y2: int| 0 <= x < w && 0 <= y2 < y && #[trigger] is_masked(m@, w, x, y2)),
            right == 0 ==> left == width && top == height && bottom == 0,
            right > 0 ==> {
                &&& left < right <= width
                &&& top < bottom <= y
                &&& forall|x: int, y2: int|
                    0 <= x < w && 0 <= y2 < y && #[trigger] is_masked(m@, w, x, y2) ==> left <= x < right && top <= y2 < bottom
                &&& exists|x: int, y2: int| in_bounds(w, h, x, y2) && #[trigger] is_masked(m@, w, x, y2) && x == left
                &&& exists|x: int, y2: int| in_bounds(w, h, x, y2) && #[trigger] is_masked(m@, w, x, y2) && x == right - 1
                &&& exists|x: int, y2: int| in_bounds(w, h, x, y2) && #[trigger] is_masked(m@, w, x, y2) && y2 == top
                &&& exists|x: int, y2: int| in_bounds(w, h, x, y2) && #[trigger] is_masked(m@, w, x, y2) && y2 == bottom - 1
            },
        decreases height - y,
    {
        match first_masked_in_row(m, width, height, y) {
            None => {},
            Some(row_left) => {
                let row_right = match last_masked_in_row(m, width, height, y) {
                    Some(x) => x,
                    None => row_left,
                };
                proof {
                    assert(is_masked(m@, w, row_right as int, y as int));
                }
                if right == 0 {
                    left = row_left;
                    top = y;
                    right = row_right + 1;
                } else {
                    if row_left < left {
                        left = row_left;
                    }
                    if row_right + 1 > right {
                        right = row_right + 1;
                    }
                }
                bottom = y + 1;
            },
        }
        y = y + 1;
    }
    if right <= left || bottom <= top {
        proof {
            assert forall|x: int, y2: int| in_bounds(w, h, x, y2) implies !#[trigger] is_masked(m@, w, x, y2) by {}
        }
        return Vec::new();
    }
    let cropped_width = right - left;
    let cropped_height = bottom - top;
    proof {
        assert((cropped_width + 2) * (cropped_height + 2) <= (width + 2) * (height + 2)) by (nonlinear_arith)
            requires cropped_width <= width, cropped_height <= height;
    }
    let padded = padded_crop(m, width, height, left, top, cropped_width, cropped_height);
    let contours = find_contours(&padded, cropped_width + 2, cropped_height + 2, 127);
    let ghost cs = contours.deep_view();
    let mut boxes: Vec<[u32; 4]> = Vec::new();
    let mut i: usize = 0;
    while i < contours.len()
        invariant
            cs == contours.deep_view(),
            i <= contours@.len(),
            left < right <= width,
            top < bottom <= height,
            cropped_width == right - left,
            cropped_height == bottom - top,
            w == width,
            h == height,
            padded@.len() == (cropped_width + 2) * (cropped_height + 2),
            forall|c: int, k: int|
                0 <= c < contours@.len() && 0 <= k < contours@[c].2@.len() ==> {
                    let p = #[trigger] contours@[c].2@[k];
                    &&& p.0 < cropped_width + 2
                    &&& p.1 < cropped_height + 2
                },
            ({
                let expected = contour_boxes(cs.take(i as int), left as int, top as int, w, h);
                &&& boxes@.len() == expected.len()
                &&& forall|j: int| 0 <= j < expected.len() ==> box_is(#[trigger] boxes@[j], expected[j])
            }),
            forall|j: int| 0 <= j < boxes@.len() ==> #[trigger] boxes@[j][0] < boxes@[j][2] <= w && boxes@[j][1] < boxes@[j][3] <= h,
        decreases contours@.len() - i,
    {
        let contour = &contours[i];
        let ghost old_boxes = boxes@;
        let ghost c = cs[i as int];
        proof {
            assert(cs.take(i + 1).drop_last() =~= cs.take(i as int));
            assert(cs.take(i + 1).last() == c);
            assert(c.0 == contour.0 && c.1 == contour.1);
            assert(c.2 =~= contour.2@);
        }
        if contour.0 && contour.1.is_none() && contour.2.len() > 0 {
            let points = &contour.2;
            let mut min_x = points[0].0;
            let mut min_y = points[0].1;
            let mut max_x = points[0].0;
            let mut max_y = points[0].1;
            let mut k: usize = 1;
            proof {
                assert(points@.take(1) =~= seq![points@[0]]);
                assert(points@[0] == contours@[i as int].2@[0]);
            }
            while k < points.len()
                invariant
                    1 <= k <= points@.len(),
                    point_extent(points@.take(k as int)) == (min_x as int, min_y as int, max_x as int, max_y as int),
                    min_x < cropped_width + 2,
                    min_y < cropped_height + 2,
                    max_x < cropped_width + 2,
                    max_y < cropped_height + 2,
                    forall|k2: int| 0 <= k2 < points@.len() ==> #[trigger] points@[k2].0 < cropped_width + 2 && points@[k2].1 < cropped_height + 2,
                decreases points@.len() - k,
            {
                let p = points[k];
                proof {
                    assert(points@.take(k + 1).drop_last() =~= points@.take(k as int));
                }
                if p.0 < min_x {
                    min_x = p.0;
                }
                if p.1 < min_y {
                    min_y = p.1;
                }
                if p.0 > max_x {
                    max_x = p.0;
                }
                if p.1 > max_y {
                    max_y = p.1;
                }
                k = k + 1;
            }
            proof {
                assert(points@.take(points@.len() as int) =~= points@);
            }
            let box_left = left + if min_x >= 1 { min_x - 1 } else { 0 };
            let box_top = top + if min_y >= 1 { min_y - 1 } else { 0 };
            let box_right = if (left as u64) + (max_x as u64) < width as u64 { left + max_x } else { width };
            let box_bottom = if (top as u64) + (max_y as u64) < height as u64 { top + max_y } else { height };
            proof {
                assert(contour_box(c.2, left as int, top as int, w, h) == (box_left as int, box_top as int, box_right as int, box_bottom as int));
            }
            if box_right > box_left && box_bottom > box_top {
                boxes.push([box_left, box_top, box_right, box_bottom]);
                proof {
                    assert(box_is(boxes@[old_boxes.len() as int], contour_box(c.2, left as int, top as int, w, h)));
                }
            }
        }
        proof {
            let expected = contour_boxes(cs.take(i + 1), left as int, top as int, w, h);
            let prev = contour_boxes(cs.take(i as int), left as int, top as int, w, h);
            assert(expected == prev + if keeps_contour(c, left as int, top as int, w, h) {
                seq![contour_box(c.2, left as int, top as int, w, h)]
            } else {
                Seq::empty()
            });
            assert forall|j: int| 0 <= j < expected.len() implies box_is(#[trigger] boxes@[j], expected[j]) by {
                if j < prev.len() {
                    assert(boxes@[j] == old_boxes[j]);
                    assert(expected[j] == prev[j]);
                }
            }
        }
        i = i + 1;
    }
    proof {
        assert(cs.take(contours@.len() as int) =~= cs);
        assert(tight_bounds(m@, w, h, left as int, top as int, right as int, bottom as int));
        lemma_first_box(m@, w, h, left as int, top as int, right as int, bottom as int, padded@, contours, cs);
    }
    boxes
}

/// The tight crop of a non-empty masked area, framed by zero pixels, has a
/// first contour that yields a box.
proof fn lemma_first_box(
    m: Seq<u8>,
    w: int,
    h: int,
    l: int,
    t: int,
    r: int,
    b: int,
    padded: Seq<u8>,
    contours: Vec<(bool, Option<usize>, Vec<(u32, u32)>)>,
    cs: Seq<ContourView>,
)
    requires
        0 <= l < r <= w,
        0 <= t < b <= h,
        r - l + 2 <= u32::MAX,
        b - t + 2 <= u32::MAX,
        tight_bounds(m, w, h, l, t, r, b),
        is_padded_crop(padded, m, w, l, t, r - l, b - t),
        cs == contours.deep_view(),
        forall|i: int, k: int|
            0 <= i < contours@.len() && 0 <= k < contours@[i].2@.len() ==> {
                let p = #[trigger] contours@[i].2@[k];
                &&& p.0 < r - l + 2
                &&& p.1 < b - t + 2
                &&& padded[at(r - l + 2, p.0 as int, p.1 as int)] > 127
            },
        (forall|y: int| 0 <= y < b - t + 2 ==> #[trigger] padded[at(r - l + 2, 0, y)] <= 127) && (exists|x: int, y: int|
            in_bounds(r - l + 2, b - t + 2, x, y) && #[trigger] padded[at(r - l + 2, x, y)] > 127) ==> {
            &&& contours@.len() > 0
            &&& contours@[0].0
            &&& contours@[0].1 is None
            &&& contours@[0].2@.len() > 0
        },
    ensures
        contour_boxes(cs, l, t, w, h).len() > 0,
{
    let (pw, ph) = (r - l + 2, b - t + 2);
    assert forall|y: int| 0 <= y < ph implies #[trigger] padded[at(pw, 0, y)] <= 127 by {
        assert(in_bounds(pw, ph, 0, y));
    }
    let (x0, y0) = choose|x: int, y: int| in_bounds(w, h, x, y) && #[trigger] is_masked(m, w, x, y) && x == l;
    assert(t <= y0 < b);
    assert(in_bounds(pw, ph, 1, y0 - t + 1));
    assert(padded[at(pw, 1, y0 - t + 1)] == m[at(w, x0, y0)]);
    assert(padded[at(pw, 1, y0 - t + 1)] > 127);
    let c = cs[0];
    assert(c.2 =~= contours@[0].2@);
    assert forall|k: int| 0 <= k < c.2.len() implies 1 <= (#[trigger] c.2[k]).0 <= r - l && 1 <= c.2[k].1 <= b - t by {
        let p = contours@[0].2@[k];
        assert(c.2[k] == p);
        assert(in_bounds(pw, ph, p.0 as int, p.1 as int));
        if p.0 == 0 || p.0 as int == r - l + 1 || p.1 == 0 || p.1 as int == b - t + 1 {
            assert(padded[at(pw, p.0 as int, p.1 as int)] == 0u8);
        }
    }
    lemma_point_extent_bounds(c.2, 1, r - l, 1, b - t);
    assert(keeps_contour(c, l, t, w, h));
    lemma_contour_boxes_nonempty(cs, 0, l, t, w, h);
}

/// What an inpainting call runs the model on.
#[derive(Clone, Debug, PartialEq, Eq)]
pub enum InpaintPlan {
    /// The whole image as it is.
    Whole,
    /// Each `[left, top, right, bottom)` window, pasted back in order.
    Crops(Vec<[u32; 4]>),
    /// The image scaled to `(width, height)` and scaled back.
    Resized(u32, u32),
}

/// Why an inpainting call cannot run.
#[derive(Clone, Copy, Debug, PartialEq, Eq, Structural)]
pub enum LamaError {
    /// The image and the mask differ in size.
    SizeMismatch,
    /// The image has no pixels.
    EmptyImage,
}

/// Whether `windows` are the crop windows of `boxes`, one each, in order.
pub open spec fn crops_around(boxes: Seq<[u32; 4]>, windows: Seq<[u32; 4]>, w: int, h: int, margin: int) -> bool {
    &&& windows.len() == boxes.len()
    &&& forall|i: int| 0 <= i < boxes.len() ==> {
        let b = #[trigger] boxes[i];
        let x = crop_axis(b[0] as int, b[2] as int, margin, w);
        let y = crop_axis(b[1] as int, b[3] as int, margin, h);
        &&& windows[i][0] as int == x.0
        &&& windows[i][2] as int == x.1
        &&& windows[i][1] as int == y.0
        &&& windows[i][3] as int == y.1
    }
}

/// The crop window of each box, in order.
fn crop_windows(width: u32, height: u32, boxes: &Vec<[u32; 4]>, margin: u32) -> (windows: Vec<[u32; 4]>)
    requires
        forall|i: int| 0 <= i < boxes@.len() ==> #[trigger] boxes@[i][0] < boxes@[i][2] && boxes@[i][1] < boxes@[i][3],
    ensures
        crops_around(boxes@, windows@, width as int, height as int, margin as int),
{
    let mut windows: Vec<[u32; 4]> = Vec::new();
    let mut i: usize = 0;
    while i < boxes.len()
        invariant
            i <= boxes@.len(),
            forall|k: int| 0 <= k < boxes@.len() ==> #[trigger] boxes@[k][0] < boxes@[k][2] && boxes@[k][1] < boxes@[k][3],
            crops_around(boxes@.take(i as int), windows@, width as int, height as int, margin as int),
        decreases boxes@.len() - i,
    {
        let b = boxes[i];
        proof {
            assert(boxes@[i as int][0] < boxes@[i as int][2] && boxes@[i as int][1] < boxes@[i as int][3]);
        }
        windows.push(crop_box(width, height, b, margin));
        proof {
            let taken = boxes@.take(i + 1);
            assert forall|k: int| 0 <= k < taken.len() implies {
                let bk = #[trigger] taken[k];
                let x = crop_axis(bk[0] as int, bk[2] as int, margin as int, width as int);
                let y = crop_axis(bk[1] as int, bk[3] as int, margin as int, height as int);
                &&& windows@[k][0] as int == x.0
                &&& windows@[k][2] as int == x.1
                &&& windows@[k][1] as int == y.0
                &&& windows@[k][3] as int == y.1
            } by {
                if k < i {
                    assert(taken[k] == boxes@.take(i as int)[k]);
                }
            }
        }
        i = i + 1;
    }
    proof {
        assert(boxes@.take(boxes@.len() as int) =~= boxes@);
    }
    windows
}

/// Decides how to inpaint a `width` by `height` image under `mask`: crops
/// around the masked regions, or a scaled copy, once the longer side exceeds
/// the strategy's trigger; the whole image otherwise.
#[verifier::spinoff_prover]
pub fn plan_inpainting(width: u32, height: u32, mask: &GrayPixels, request: &InpaintRequest) -> (plan: Result<InpaintPlan, LamaError>)
    requires
        mask.well_formed(),
        mask.width + 2 <= u32::MAX,
        mask.height + 2 <= u32::MAX,
        (mask.width + 2) * (mask.height + 2) <= usize::MAX,
    ensures
        match plan {
            Err(error) => if width != mask.width || height != mask.height {
                error == LamaError::SizeMismatch
            } else {
                error == LamaError::EmptyImage && (width == 0 || height == 0)
            },
            Ok(plan) => {
                let longer = if width >= height { width } else { height };
                &&& width == mask.width && height == mask.height && width > 0 && height > 0
                &&& match plan {
                    InpaintPlan::Crops(windows) => request.hd_strategy == HDStrategy::Crop
                        && longer > request.hd_strategy_crop_trigger_size && exists|boxes: Seq<[u32; 4]>|
                        #[trigger] are_mask_boxes(mask.pixels@, width as int, height as int, boxes) && crops_around(
                            boxes,
                            windows@,
                            width as int,
                            height as int,
                            request.hd_strategy_crop_margin as int,
                        ),
                    InpaintPlan::Resized(w, h) => request.hd_strategy == HDStrategy::Resize
                        && longer > request.hd_strategy_resize_limit
                        && (w as int, h as int) == scaled_dimensions(width as int, height as int, request.hd_strategy_resize_limit as int),
                    InpaintPlan::Whole => !(request.hd_strategy == HDStrategy::Crop && longer > request.hd_strategy_crop_trigger_size)
                        && !(request.hd_strategy == HDStrategy::Resize && longer > request.hd_strategy_resize_limit),
                }
            },
        },
{
    if width != mask.width || height != mask.height {
        return Err(LamaError::SizeMismatch);
    }
    if width == 0 || height == 0 {
        return Err(LamaError::EmptyImage);
    }
    let longer = if width >= height { width } else { height };
    let crop = match request.hd_strategy {
        HDStrategy::Crop => longer > request.hd_strategy_crop_trigger_size,
        _ => false,
    };
    let shrink = match request.hd_strategy {
        HDStrategy::Resize => longer > request.hd_strategy_resize_limit,
        _ => false,
    };
    if crop {
            let boxes = boxes_from_mask(mask);
            let windows = crop_windows(width, height, &boxes, request.hd_strategy_crop_margin);
            proof {
                assert(are_mask_boxes(mask.pixels@, width as int, height as int, boxes@));
                assert(crops_around(boxes@, windows@, width as int, height as int, request.hd_strategy_crop_margin as int));
            }
            Ok(InpaintPlan::Crops(windows))
    } else if shrink {
        let (w, h) = resize_dimensions(width, height, request.hd_strategy_resize_limit);
        Ok(InpaintPlan::Resized(w, h))
    } else {
        Ok(InpaintPlan::Whole)
    }
}

/// The image and the mask scaled to `(width, height)` for the resize
/// strategy, both with the Catmull-Rom filter.
pub fn shrink_for_inpainting(image: &RgbPixels, mask: &GrayPixels, width: u32, height: u32) -> (scaled: (RgbPixels, GrayPixels))
    requires
        image.well_formed(),
        mask.well_formed(),
    ensures
        scaled.0.width == width && scaled.0.height == height && scaled.0.well_formed(),
        scaled.1.width == width && scaled.1.height == height && scaled.1.well_formed(),
        scaled.0.pixels@ == resampled(Resampling::CatmullRom, 3, image.pixels@, image.width as nat, image.height as nat, width as nat, height as nat),
        scaled.1.pixels@ == resampled(Resampling::CatmullRom, 1, mask.pixels@, mask.width as nat, mask.height as nat, width as nat, height as nat),
{
    (resize_rgb(image, width, height, Resampling::CatmullRom), resize_gray(mask, width, height, Resampling::CatmullRom))
}

/// Finishes the resize strategy: the inpainted copy scaled back to the
/// original's size (Catmull-Rom), with every pixel whose mask sample is
/// below 127 taken from the original.
pub fn restore_after_resize(inpainted: &RgbPixels, original: &RgbPixels, mask: &GrayPixels) -> (out: RgbPixels)
    requires
        inpainted.well_formed(),
        original.well_formed(),
        mask.well_formed(),
        original.width == mask.width,
        original.height == mask.height,
    ensures
        out.width == original.width,
        out.height == original.height,
        out.well_formed(),
        forall|p: int, c: int| 0 <= p < mask.pixels@.len() && 0 <= c < 3 ==> #[trigger] out.pixels@[3 * p + c] == if mask.pixels@[p] < 127 {
            original.pixels@[3 * p + c]
        } else {
            resampled(Resampling::CatmullRom, 3, inpainted.pixels@, inpainted.width as nat, inpainted.height as nat, original.width as nat, original.height as nat)[3 * p + c]
        },
{
    let scaled = resize_rgb(inpainted, original.width, original.height, Resampling::CatmullRom);
    restore_unmasked(&scaled, original, mask, 127)
}

} // verus!
