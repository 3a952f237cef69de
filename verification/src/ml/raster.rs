use vstd::prelude::*;

verus! {

/// An 8-bit single-channel image stored row by row.
#[derive(Clone, Debug, PartialEq, Eq)]
pub struct GrayPixels {
    pub width: u32,
    pub height: u32,
    pub pixels: Vec<u8>,
}

/// An 8-bit RGB image stored row by row, three samples per pixel.
#[derive(Clone, Debug, PartialEq, Eq)]
pub struct RgbPixels {
    pub width: u32,
    pub height: u32,
    pub pixels: Vec<u8>,
}

impl GrayPixels {
    /// The sample buffer holds exactly one byte per pixel.
    pub open spec fn well_formed(&self) -> bool {
        self.pixels@.len() == self.width * self.height
    }
}

impl RgbPixels {
    /// The sample buffer holds exactly three bytes per pixel.
    pub open spec fn well_formed(&self) -> bool {
        self.pixels@.len() == 3 * (self.width * self.height)
    }
}

/// Whether the `cw` by `ch` window at `(left, top)` lies inside a `w` by `h` image.
pub open spec fn window_inside(w: int, h: int, left: int, top: int, cw: int, ch: int) -> bool {
    0 <= left && 0 <= top && 0 <= cw && 0 <= ch && left + cw <= w && top + ch <= h
}

/// Whether `out` is the `cw` by `ch` window at `(left, top)` of the
/// `w`-wide image `m`, with `channels` samples per pixel.
pub open spec fn is_window(out: Seq<u8>, m: Seq<u8>, w: int, left: int, top: int, cw: int, ch: int, channels: int) -> bool {
    &&& out.len() == channels * (cw * ch)
    &&& forall|x: int, y: int, c: int|
        0 <= x < cw && 0 <= y < ch && 0 <= c < channels ==> #[trigger] out[channels * (y * cw + x) + c]
            == m[channels * ((top + y) * w + left + x) + c]
}

proof fn lemma_pixel_index(w: int, h: int, x: int, y: int, channels: int, c: int)
    requires
        0 <= x < w,
        0 <= y < h,
        0 <= c < channels,
    ensures
        0 <= channels * (y * w + x) + c < channels * (w * h),
{
    assert(0 <= y * w + x < w * h) by (nonlinear_arith)
        requires 0 <= x < w, 0 <= y < h;
    assert(0 <= channels * (y * w + x) + c < channels * (w * h)) by (nonlinear_arith)
        requires 0 <= y * w + x < w * h, 0 <= c < channels;
}

proof fn lemma_index_before(channels: int, cw: int, y2: int, x2: int, c2: int, y: int, x: int)
    requires
        0 <= c2 < channels,
        0 <= x2 < cw,
        0 <= x <= cw,
        0 <= y2,
        y2 < y || (y2 == y && x2 < x),
    ensures
        channels * (y2 * cw + x2) + c2 < channels * (y * cw + x),
{
    assert(y2 * cw + x2 + 1 <= y * cw + x) by (nonlinear_arith)
        requires
            0 <= x2 < cw,
            0 <= x <= cw,
            0 <= y2,
            y2 < y || (y2 == y && x2 < x),
    ;
    assert(channels * (y2 * cw + x2) + channels <= channels * (y * cw + x)) by (nonlinear_arith)
        requires
            y2 * cw + x2 + 1 <= y * cw + x,
            channels > 0,
    ;
}

proof fn lemma_pixel_split(w: int, x1: int, y1: int, c1: int, x2: int, y2: int, c2: int)
    requires
        0 <= x1 < w,
        0 <= x2 < w,
        0 <= y1,
        0 <= y2,
        0 <= c1 < 3,
        0 <= c2 < 3,
        3 * (y1 * w + x1) + c1 == 3 * (y2 * w + x2) + c2,
    ensures
        x1 == x2 && y1 == y2 && c1 == c2,
{
    let p1 = y1 * w + x1;
    let p2 = y2 * w + x2;
    vstd::arithmetic::div_mod::lemma_fundamental_div_mod_converse(3 * p1 + c1, 3, p1, c1);
    vstd::arithmetic::div_mod::lemma_fundamental_div_mod_converse(3 * p2 + c2, 3, p2, c2);
    vstd::arithmetic::div_mod::lemma_fundamental_div_mod_converse(p1, w, y1, x1);
    vstd::arithmetic::div_mod::lemma_fundamental_div_mod_converse(p2, w, y2, x2);
}

/// Copies the `cw` by `ch` window at `(left, top)` out of a row-major
/// buffer `w` pixels wide with `channels` samples per pixel.
fn copy_window(
    m: &Vec<u8>,
    w: u32,
    h: u32,
    channels: u32,
    left: u32,
    top: u32,
    cw: u32,
    ch: u32,
) -> (out: Vec<u8>)
    requires
        1 <= channels <= 3,
        m@.len() == channels * (w * h),
        window_inside(w as int, h as int, left as int, top as int, cw as int, ch as int),
    ensures
        is_window(out@, m@, w as int, left as int, top as int, cw as int, ch as int, channels as int),
{
    let mut out: Vec<u8> = Vec::new();
    let mut y: u32 = 0;
    let len = m.len();
    proof {
        assert(channels * (0 * cw) == 0) by (nonlinear_arith);
    }
    while y < ch
        invariant
            len == m@.len(),
            1 <= channels <= 3,
            m@.len() == channels * (w * h),
            window_inside(w as int, h as int, left as int, top as int, cw as int, ch as int),
            y <= ch,
            out@.len() == channels * (y * cw),
            forall|x2: int, y2: int, c: int|
                0 <= x2 < cw && 0 <= y2 < y && 0 <= c < channels ==> #[trigger] out@[channels * (y2 * cw + x2) + c]
                    == m@[channels * ((top + y2) * w + left + x2) + c],
        decreases ch - y,
    {
        let mut x: u32 = 0;
        proof {
            assert(channels * (y * cw + 0) == channels * (y * cw));
        }
        while x < cw
            invariant
                len == m@.len(),
                1 <= channels <= 3,
                m@.len() == channels * (w * h),
                window_inside(w as int, h as int, left as int, top as int, cw as int, ch as int),
                y < ch,
                x <= cw,
                out@.len() == channels * (y * cw + x),
                forall|x2: int, y2: int, c: int|
                    0 <= x2 < cw && 0 <= y2 < y && 0 <= c < channels ==> #[trigger] out@[channels * (y2 * cw + x2) + c]
                        == m@[channels * ((top + y2) * w + left + x2) + c],
                forall|x2: int, c: int|
                    0 <= x2 < x && 0 <= c < channels ==> #[trigger] out@[channels * (y * cw + x2) + c]
                        == m@[channels * ((top + y) * w + left + x2) + c],
            decreases cw - x,
        {
            let mut c: u32 = 0;
            while c < channels
                invariant
                    len == m@.len(),
                    1 <= channels <= 3,
                    m@.len() == channels * (w * h),
                    window_inside(w as int, h as int, left as int, top as int, cw as int, ch as int),
                    y < ch,
                    x < cw,
                    c <= channels,
                    out@.len() == channels * (y * cw + x) + c,
                    forall|x2: int, y2: int, c2: int|
                        0 <= x2 < cw && 0 <= y2 < y && 0 <= c2 < channels ==> #[trigger] out@[channels * (y2 * cw + x2) + c2]
                            == m@[channels * ((top + y2) * w + left + x2) + c2],
                    forall|x2: int, c2: int|
                        0 <= x2 < x && 0 <= c2 < channels ==> #[trigger] out@[channels * (y * cw + x2) + c2]
                            == m@[channels * ((top + y) * w + left + x2) + c2],
                    forall|c2: int| 0 <= c2 < c ==> #[trigger] out@[channels * (y * cw + x) + c2]
                        == m@[channels * ((top + y) * w + left + x) + c2],
                decreases channels - c,
            {
                proof {
                    lemma_pixel_index(w as int, h as int, (left + x) as int, (top + y) as int, channels as int, c as int);
                    assert(channels * ((top + y) * w + left + x) + c == channels * ((top + y) * w + (left + x)) + c);
                }
                assert(((top + y) as u128) * (w as u128) <= 0xffff_ffff * 0xffff_ffff) by (nonlinear_arith)
                    requires (top + y) as u128 <= 0xffff_ffff, w <= 0xffff_ffff;
                assert((channels as u128) * (((top + y) as u128) * (w as u128) + (left + x) as u128) <= 3 * (0xffff_ffff * 0xffff_ffff + 0xffff_ffff)) by (nonlinear_arith)
                    requires
                        ((top + y) as u128) * (w as u128) <= 0xffff_ffff * 0xffff_ffff,
                        (left + x) as u128 <= 0xffff_ffff,
                        channels <= 3,
                ;
                let wide: u128 = (channels as u128) * (((top + y) as u128) * (w as u128) + (left + x) as u128) + c as u128;
                let index: usize = wide as usize;
                let ghost before = out@;
                out.push(m[index]);
                proof {
                    assert forall|x2: int, y2: int, c2: int|
                        0 <= x2 < cw && 0 <= y2 < y && 0 <= c2 < channels implies #[trigger] out@[channels * (y2 * cw + x2) + c2]
                            == m@[channels * ((top + y2) * w + left + x2) + c2] by {
                        lemma_index_before(channels as int, cw as int, y2, x2, c2, y as int, x as int);
                        assert(out@[channels * (y2 * cw + x2) + c2] == before[channels * (y2 * cw + x2) + c2]);
                    }
                    assert forall|x2: int, c2: int|
                        0 <= x2 < x && 0 <= c2 < channels implies #[trigger] out@[channels * (y * cw + x2) + c2]
                            == m@[channels * ((top + y) * w + left + x2) + c2] by {
                        lemma_index_before(channels as int, cw as int, y as int, x2, c2, y as int, x as int);
                        assert(out@[channels * (y * cw + x2) + c2] == before[channels * (y * cw + x2) + c2]);
                    }
                }
                c = c + 1;
            }
            proof {
                assert(channels * (y * cw + x) + channels == channels * (y * cw + (x + 1))) by (nonlinear_arith);
            }
            x = x + 1;
        }
        proof {
            assert(channels * (y * cw + cw) == channels * ((y + 1) * cw)) by (nonlinear_arith);
        }
        y = y + 1;
    }
    proof {
        assert(channels * (ch * cw) == channels * (cw * ch)) by (nonlinear_arith);
    }
    out
}

/// The `[left, top, right, bottom)` window of an RGB image, as image's `crop_imm`.
pub fn crop_rgb(image: &RgbPixels, window: [u32; 4]) -> (crop: RgbPixels)
    requires
        image.well_formed(),
        window[0] <= window[2] <= image.width,
        window[1] <= window[3] <= image.height,
    ensures
        crop.width == window[2] - window[0],
        crop.height == window[3] - window[1],
        crop.well_formed(),
        is_window(
            crop.pixels@,
            image.pixels@,
            image.width as int,
            window[0] as int,
            window[1] as int,
            crop.width as int,
            crop.height as int,
            3,
        ),
{
    let cw = window[2] - window[0];
    let ch = window[3] - window[1];
    let pixels = copy_window(&image.pixels, image.width, image.height, 3, window[0], window[1], cw, ch);
    RgbPixels { width: cw, height: ch, pixels }
}

/// The `[left, top, right, bottom)` window of a single-channel image, as image's `crop_imm`.
pub fn crop_gray(image: &GrayPixels, window: [u32; 4]) -> (crop: GrayPixels)
    requires
        image.well_formed(),
        window[0] <= window[2] <= image.width,
        window[1] <= window[3] <= image.height,
    ensures
        crop.width == window[2] - window[0],
        crop.height == window[3] - window[1],
        crop.well_formed(),
        is_window(
            crop.pixels@,
            image.pixels@,
            image.width as int,
            window[0] as int,
            window[1] as int,
            crop.width as int,
            crop.height as int,
            1,
        ),
{
    let cw = window[2] - window[0];
    let ch = window[3] - window[1];
    proof {
        assert(image.pixels@.len() == 1 * (image.width * image.height));
    }
    let pixels = copy_window(&image.pixels, image.width, image.height, 1, window[0], window[1], cw, ch);
    proof {
        assert(pixels@.len() == cw * ch);
    }
    GrayPixels { width: cw, height: ch, pixels }
}

/// Whether sample `k` of a `w`-wide RGB image falls inside the `pw` by `ph`
/// patch placed at `(left, top)`.
pub open spec fn in_patch(k: int, w: int, left: int, top: int, pw: int, ph: int) -> bool {
    let p = k / 3;
    left <= p % w < left + pw && top <= p / w < top + ph
}

/// `dest` with `patch` written over it at `(left, top)`, as image's
/// `imageops::replace` does for a patch that fits.
pub fn paste_rgb(dest: &mut RgbPixels, patch: &RgbPixels, left: u32, top: u32)
    requires
        old(dest).well_formed(),
        patch.well_formed(),
        window_inside(old(dest).width as int, old(dest).height as int, left as int, top as int, patch.width as int, patch.height as int),
    ensures
        final(dest).width == old(dest).width,
        final(dest).height == old(dest).height,
        final(dest).well_formed(),
        is_window(
            patch.pixels@,
            final(dest).pixels@,
            old(dest).width as int,
            left as int,
            top as int,
            patch.width as int,
            patch.height as int,
            3,
        ),
        forall|x: int, y: int, c: int|
            0 <= x < old(dest).width && 0 <= y < old(dest).height && 0 <= c < 3 && !(left <= x < left + patch.width
                && top <= y < top + patch.height) ==> #[trigger] final(dest).pixels@[3 * (y * old(dest).width + x) + c]
                == old(dest).pixels@[3 * (y * old(dest).width + x) + c],
{
    let w = dest.width;
    let h = dest.height;
    let pw = patch.width;
    let ph = patch.height;
    let ghost original = dest.pixels@;
    let mut y: u32 = 0;
    while y < ph
        invariant
            dest.width == w,
            dest.height == h,
            pw == patch.width,
            ph == patch.height,
            patch.well_formed(),
            original.len() == 3 * (w * h),
            dest.pixels@.len() == 3 * (w * h),
            window_inside(w as int, h as int, left as int, top as int, pw as int, ph as int),
            y <= ph,
            forall|x2: int, y2: int, c: int|
                0 <= x2 < pw && 0 <= y2 < y && 0 <= c < 3 ==> #[trigger] dest.pixels@[3 * ((top + y2) * w + left + x2) + c]
                    == patch.pixels@[3 * (y2 * pw + x2) + c],
            forall|x2: int, y2: int, c: int|
                0 <= x2 < w && 0 <= y2 < h && 0 <= c < 3 && !(left <= x2 < left + pw && top <= y2 < top + y)
                    ==> #[trigger] dest.pixels@[3 * (y2 * w + x2) + c] == original[3 * (y2 * w + x2) + c],
        decreases ph - y,
    {
        let mut x: u32 = 0;
        while x < pw
            invariant
                dest.width == w,
                dest.height == h,
                pw == patch.width,
                ph == patch.height,
                patch.well_formed(),
                original.len() == 3 * (w * h),
                dest.pixels@.len() == 3 * (w * h),
                window_inside(w as int, h as int, left as int, top as int, pw as int, ph as int),
                y < ph,
                x <= pw,
                forall|x2: int, y2: int, c: int|
                    0 <= x2 < pw && 0 <= y2 < y && 0 <= c < 3 ==> #[trigger] dest.pixels@[3 * ((top + y2) * w + left + x2) + c]
                        == patch.pixels@[3 * (y2 * pw + x2) + c],
                forall|x2: int, c: int|
                    0 <= x2 < x && 0 <= c < 3 ==> #[trigger] dest.pixels@[3 * ((top + y) * w + left + x2) + c]
                        == patch.pixels@[3 * (y * pw + x2) + c],
                forall|x2: int, y2: int, c: int|
                    0 <= x2 < w && 0 <= y2 < h && 0 <= c < 3 && !(left <= x2 < left + pw && top <= y2 < top + y)
                        && !(left <= x2 < left + x && y2 == top + y) ==> #[trigger] dest.pixels@[3 * (y2 * w + x2) + c]
                        == original[3 * (y2 * w + x2) + c],
            decreases pw - x,
        {
            let mut c: u32 = 0;
            while c < 3
                invariant
                    dest.width == w,
                    dest.height == h,
                    pw == patch.width,
                    ph == patch.height,
                    patch.well_formed(),
                    original.len() == 3 * (w * h),
                    dest.pixels@.len() == 3 * (w * h),
                    window_inside(w as int, h as int, left as int, top as int, pw as int, ph as int),
                    y < ph,
                    x < pw,
                    c <= 3,
                    forall|x2: int, y2: int, c2: int|
                        0 <= x2 < pw && 0 <= y2 < y && 0 <= c2 < 3 ==> #[trigger] dest.pixels@[3 * ((top + y2) * w + left + x2) + c2]
                            == patch.pixels@[3 * (y2 * pw + x2) + c2],
                    forall|x2: int, c2: int|
                        0 <= x2 < x && 0 <= c2 < 3 ==> #[trigger] dest.pixels@[3 * ((top + y) * w + left + x2) + c2]
                            == patch.pixels@[3 * (y * pw + x2) + c2],
                    forall|c2: int| 0 <= c2 < c ==> #[trigger] dest.pixels@[3 * ((top + y) * w + left + x) + c2]
                        == patch.pixels@[3 * (y * pw + x) + c2],
                    forall|x2: int, y2: int, c2: int|
                        0 <= x2 < w && 0 <= y2 < h && 0 <= c2 < 3 && !(left <= x2 < left + pw && top <= y2 < top + y)
                            && !(left <= x2 < left + x && y2 == top + y) && !(x2 == left + x && y2 == top + y && c2 < c)
                            ==> #[trigger] dest.pixels@[3 * (y2 * w + x2) + c2] == original[3 * (y2 * w + x2) + c2],
                decreases 3 - c,
            {
                proof {
                    lemma_pixel_index(w as int, h as int, (left + x) as int, (top + y) as int, 3, c as int);
                    lemma_pixel_index(pw as int, ph as int, x as int, y as int, 3, c as int);
                }
                assert(((top + y) as u128) * (w as u128) <= 0xffff_ffff * 0xffff_ffff) by (nonlinear_arith)
                    requires (top + y) as u128 <= 0xffff_ffff, w <= 0xffff_ffff;
                assert((y as u128) * (pw as u128) <= 0xffff_ffff * 0xffff_ffff) by (nonlinear_arith)
                    requires y <= 0xffff_ffff, pw <= 0xffff_ffff;
                let wide_target: u128 = 3 * (((top + y) as u128) * (w as u128) + (left + x) as u128) + c as u128;
                let wide_source: u128 = 3 * ((y as u128) * (pw as u128) + x as u128) + c as u128;
                let dest_len = dest.pixels.len();
                let patch_len = patch.pixels.len();
                proof {
                    assert(wide_target == 3 * ((top + y) * w + (left + x)) + c);
                    assert(wide_source == 3 * (y * pw + x) + c);
                }
                let target: usize = wide_target as usize;
                let source: usize = wide_source as usize;
                proof {
                    assert(target == 3 * ((top + y) * w + (left + x)) + c);
                    assert(source == 3 * (y * pw + x) + c);
                    assert(3 * ((top + y) * w + left + x) + c == 3 * ((top + y) * w + (left + x)) + c);
                }
                let value = patch.pixels[source];
                let ghost before = dest.pixels@;
                dest.pixels.set(target, value);
                proof {
                    assert forall|x2: int, y2: int, c2: int|
                        #![trigger dest.pixels@[3 * (y2 * w + x2) + c2]]
                        0 <= x2 < w && 0 <= y2 < h && 0 <= c2 < 3 && !(x2 == left + x && y2 == top + y && c2 == c)
                            implies dest.pixels@[3 * (y2 * w + x2) + c2] == before[3 * (y2 * w + x2) + c2] by {
                        lemma_pixel_index(w as int, h as int, x2, y2, 3, c2);
                        if 3 * (y2 * w + x2) + c2 == target {
                            lemma_pixel_split(w as int, x2, y2, c2, (left + x) as int, (top + y) as int, c as int);
                        }
                    }
                    assert forall|x2: int, y2: int, c2: int|
                        #![trigger dest.pixels@[3 * ((top + y2) * w + left + x2) + c2]]
                        0 <= x2 < pw && 0 <= y2 <= y && 0 <= c2 < 3 && !(x2 == x && y2 == y && c2 == c)
                            implies dest.pixels@[3 * ((top + y2) * w + left + x2) + c2] == before[3 * ((top + y2) * w + left + x2) + c2] by {
                        lemma_pixel_index(w as int, h as int, left + x2, top + y2, 3, c2);
                        assert(3 * ((top + y2) * w + left + x2) + c2 == 3 * ((top + y2) * w + (left + x2)) + c2);
                        if 3 * ((top + y2) * w + (left + x2)) + c2 == target {
                            lemma_pixel_split(w as int, left + x2, top + y2, c2, (left + x) as int, (top + y) as int, c as int);
                        }
                    }
                }
                c = c + 1;
            }
            x = x + 1;
        }
        y = y + 1;
    }
    proof {
        assert forall|x2: int, y2: int, c: int|
            0 <= x2 < pw && 0 <= y2 < ph && 0 <= c < 3 implies #[trigger] patch.pixels@[3 * (y2 * pw + x2) + c]
                == dest.pixels@[3 * ((top + y2) * w + left + x2) + c] by {
            assert(dest.pixels@[3 * ((top + y2) * w + left + x2) + c] == patch.pixels@[3 * (y2 * pw + x2) + c]);
        }
    }
}

/// An RGB image that takes `original`'s pixel wherever `mask` is below
/// `below` and `generated`'s elsewhere.
pub fn restore_unmasked(generated: &RgbPixels, original: &RgbPixels, mask: &GrayPixels, below: u8) -> (out: RgbPixels)
    requires
        generated.well_formed(),
        original.well_formed(),
        mask.well_formed(),
        generated.width == original.width == mask.width,
        generated.height == original.height == mask.height,
    ensures
        out.width == original.width,
        out.height == original.height,
        out.well_formed(),
        forall|p: int, c: int| 0 <= p < mask.pixels@.len() && 0 <= c < 3 ==> #[trigger] out.pixels@[3 * p + c] == if mask.pixels@[p] < below {
            original.pixels@[3 * p + c]
        } else {
            generated.pixels@[3 * p + c]
        },
{
    let count = mask.pixels.len();
    let total = original.pixels.len();
    let mut pixels: Vec<u8> = Vec::new();
    let mut p: usize = 0;
    while p < count
        invariant
            count == mask.pixels@.len(),
            total == 3 * count,
            generated.pixels@.len() == 3 * count,
            original.pixels@.len() == 3 * count,
            p <= count,
            pixels@.len() == 3 * p,
            forall|q: int, c: int| 0 <= q < p && 0 <= c < 3 ==> #[trigger] pixels@[3 * q + c] == if mask.pixels@[q] < below {
                original.pixels@[3 * q + c]
            } else {
                generated.pixels@[3 * q + c]
            },
        decreases count - p,
    {
        let keep = mask.pixels[p] < below;
        let ghost before = pixels@;
        let mut c: usize = 0;
        while c < 3
            invariant
                count == mask.pixels@.len(),
                total == 3 * count,
                generated.pixels@.len() == 3 * count,
                original.pixels@.len() == 3 * count,
                p < count,
                c <= 3,
                keep == (mask.pixels@[p as int] < below),
                pixels@.len() == 3 * p + c,
                pixels@.take(3 * p) == before,
                before.len() == 3 * p,
                forall|c2: int| 0 <= c2 < c ==> #[trigger] pixels@[3 * p + c2] == if keep {
                    original.pixels@[3 * p + c2]
                } else {
                    generated.pixels@[3 * p + c2]
                },
            decreases 3 - c,
        {
            let value = if keep { original.pixels[3 * p + c] } else { generated.pixels[3 * p + c] };
            pixels.push(value);
            proof {
                assert(pixels@.take(3 * p) =~= before);
            }
            c = c + 1;
        }
        proof {
            assert forall|q: int, c2: int| 0 <= q < p + 1 && 0 <= c2 < 3 implies #[trigger] pixels@[3 * q + c2] == if mask.pixels@[q] < below {
                original.pixels@[3 * q + c2]
            } else {
                generated.pixels@[3 * q + c2]
            } by {
                if q < p {
                    assert(pixels@[3 * q + c2] == pixels@.take(3 * p)[3 * q + c2]);
                }
            }
        }
        p = p + 1;
    }
    RgbPixels { width: original.width, height: original.height, pixels }
}

} // verus!
