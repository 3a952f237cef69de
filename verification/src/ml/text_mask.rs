use std::collections::VecDeque;

use vstd::prelude::*;

use crate::math::{round_half_even, round_half_even_u128};
use crate::ml::morphology::{
    chebyshev_dilate, chebyshev_dilated, dilated, distance_cap, eroded, ellipse_kernel, foreground_within,
    grayscale_dilate, grayscale_erode, image_of, lemma_index_splits, opencv_ellipse,
};
use crate::ml::raster::{GrayPixels, RgbPixels};
use crate::ml::resize::{Resampling, resampled, resize_rgb};

verus! {

/// Row-major index of pixel `(x, y)` in an image `w` pixels wide.
pub open spec fn at(w: int, x: int, y: int) -> int {
    y * w + x
}

pub open spec fn in_bounds(w: int, h: int, x: int, y: int) -> bool {
    0 <= x < w && 0 <= y < h
}

/// Pixel `(x, y)` lies in the image and is zero.
pub open spec fn is_background(m: Seq<u8>, w: int, h: int, x: int, y: int) -> bool {
    in_bounds(w, h, x, y) && m[at(w, x, y)] == 0
}

pub open spec fn on_border(w: int, h: int, x: int, y: int) -> bool {
    x == 0 || y == 0 || x == w - 1 || y == h - 1
}

/// The two pixels touch horizontally, vertically or diagonally (or coincide).
pub open spec fn adjacent(x1: int, y1: int, x2: int, y2: int) -> bool {
    -1 <= x1 - x2 <= 1 && -1 <= y1 - y2 <= 1
}

/// `s` holds every background pixel on the image border, and every background
/// pixel that touches a pixel of `s`.
pub open spec fn encloses_exterior(m: Seq<u8>, w: int, h: int, s: Set<(int, int)>) -> bool {
    &&& forall|x: int, y: int|
        is_background(m, w, h, x, y) && on_border(w, h, x, y) ==> #[trigger] s.contains((x, y))
    &&& forall|x1: int, y1: int, x2: int, y2: int|
        #[trigger] s.contains((x1, y1)) && is_background(m, w, h, x2, y2) && adjacent(x1, y1, x2, y2)
            ==> #[trigger] s.contains((x2, y2))
}

/// Background pixel `(x, y)` is reachable from the image border through
/// 8-connected background pixels: it lies in every set that encloses the exterior.
pub open spec fn exterior(m: Seq<u8>, w: int, h: int, x: int, y: int) -> bool {
    forall|s: Set<(int, int)>| encloses_exterior(m, w, h, s) ==> #[trigger] s.contains((x, y))
}

/// The mask after hole filling: a zero pixel that the border cannot reach
/// becomes 255, every other pixel keeps its value.
pub open spec fn filled_value(m: Seq<u8>, w: int, h: int, x: int, y: int) -> u8 {
    if m[at(w, x, y)] == 0 && !exterior(m, w, h, x, y) {
        255
    } else {
        m[at(w, x, y)]
    }
}

pub proof fn lemma_at_bounds(w: int, h: int, x: int, y: int)
    requires
        in_bounds(w, h, x, y),
    ensures
        0 <= at(w, x, y) < w * h,
{
    assert(0 <= y * w + x < w * h) by (nonlinear_arith)
        requires
            0 <= x < w,
            0 <= y < h,
    ;
}

pub proof fn lemma_at_injective(w: int, x1: int, y1: int, x2: int, y2: int)
    requires
        0 <= x1 < w,
        0 <= x2 < w,
        0 <= y1,
        0 <= y2,
        at(w, x1, y1) == at(w, x2, y2),
    ensures
        x1 == x2 && y1 == y2,
{
    if y1 < y2 {
        assert(y1 * w + w <= y2 * w) by (nonlinear_arith)
            requires
                y1 < y2,
                0 < w,
        ;
    } else if y2 < y1 {
        assert(y2 * w + w <= y1 * w) by (nonlinear_arith)
            requires
                y2 < y1,
                0 < w,
        ;
    }
}

spec fn marked(o: Seq<bool>, w: int, x: int, y: int) -> bool {
    o[at(w, x, y)]
}

/// Every marked pixel is an exterior background pixel.
spec fn marks_sound(m: Seq<u8>, w: int, h: int, o: Seq<bool>) -> bool {
    forall|x: int, y: int|
        in_bounds(w, h, x, y) && #[trigger] marked(o, w, x, y) ==> m[at(w, x, y)] == 0 && exterior(
            m,
            w,
            h,
            x,
            y,
        )
}

spec fn queued(q: Seq<(usize, usize)>, x: int, y: int) -> bool {
    exists|k: int| 0 <= k < q.len() && q[k].0 == x && q[k].1 == y
}

/// Every queued pixel is in the image and marked.
spec fn queue_marked(w: int, h: int, o: Seq<bool>, q: Seq<(usize, usize)>) -> bool {
    forall|k: int|
        0 <= k < q.len() ==> in_bounds(w, h, #[trigger] q[k].0 as int, q[k].1 as int) && marked(
            o,
            w,
            q[k].0 as int,
            q[k].1 as int,
        )
}

/// Every background neighbour of `(x, y)` is marked.
spec fn neighbours_marked(m: Seq<u8>, w: int, h: int, o: Seq<bool>, x: int, y: int) -> bool {
    forall|x2: int, y2: int|
        is_background(m, w, h, x2, y2) && adjacent(x, y, x2, y2) ==> #[trigger] marked(o, w, x2, y2)
}

/// A marked pixel is still queued, is the one being expanded, or has all of
/// its background neighbours marked.
spec fn marks_closed(
    m: Seq<u8>,
    w: int,
    h: int,
    o: Seq<bool>,
    q: Seq<(usize, usize)>,
    cur: (int, int),
) -> bool {
    forall|x: int, y: int|
        in_bounds(w, h, x, y) && #[trigger] marked(o, w, x, y) ==> queued(q, x, y) || (x, y) == cur
            || neighbours_marked(m, w, h, o, x, y)
}

spec fn border_marked(m: Seq<u8>, w: int, h: int, o: Seq<bool>) -> bool {
    forall|x: int, y: int|
        is_background(m, w, h, x, y) && on_border(w, h, x, y) ==> #[trigger] marked(o, w, x, y)
}

/// Number of unmarked entries.
spec fn unmarked_count(o: Seq<bool>) -> nat
    decreases o.len(),
{
    if o.len() == 0 {
        0
    } else {
        unmarked_count(o.drop_last()) + if o.last() {
            0nat
        } else {
            1nat
        }
    }
}

proof fn lemma_mark_decreases(o: Seq<bool>, i: int)
    requires
        0 <= i < o.len(),
        !o[i],
    ensures
        unmarked_count(o.update(i, true)) + 1 == unmarked_count(o),
    decreases o.len(),
{
    let u = o.update(i, true);
    if i == o.len() - 1 {
        assert(u.drop_last() =~= o.drop_last());
    } else {
        lemma_mark_decreases(o.drop_last(), i);
        assert(u.drop_last() =~= o.drop_last().update(i, true));
    }
}

/// Marks background pixel `(x, y)` and queues it, unless it is foreground or
/// already marked. The caller vouches that the pixel lies on the border or
/// touches the marked pixel `from`.
fn push_background(
    m: &Vec<u8>,
    w: usize,
    h: usize,
    x: usize,
    y: usize,
    outside: &mut Vec<bool>,
    queue: &mut VecDeque<(usize, usize)>,
    Ghost(from): Ghost<(int, int)>,
)
    requires
        m@.len() == w * h,
        old(outside)@.len() == w * h,
        in_bounds(w as int, h as int, x as int, y as int),
        on_border(w as int, h as int, x as int, y as int) || (in_bounds(
            w as int,
            h as int,
            from.0,
            from.1,
        ) && marked(old(outside)@, w as int, from.0, from.1) && adjacent(
            from.0,
            from.1,
            x as int,
            y as int,
        )),
        marks_sound(m@, w as int, h as int, old(outside)@),
    ensures
        ({
            let i = at(w as int, x as int, y as int);
            if m@[i] == 0 && !old(outside)@[i] {
                &&& final(outside)@ == old(outside)@.update(i, true)
                &&& final(queue)@ == old(queue)@.push((x, y))
            } else {
                &&& final(outside)@ == old(outside)@
                &&& final(queue)@ == old(queue)@
            }
        }),
        marks_sound(m@, w as int, h as int, final(outside)@),
{
    let ghost (wi, hi, xi, yi) = (w as int, h as int, x as int, y as int);
    let len = m.len();
    proof {
        lemma_at_bounds(wi, hi, xi, yi);
        assert(yi * wi <= yi * wi + xi);
        assert(yi * wi + xi < len);
    }
    let index = y * w + x;
    if m[index] == 0 && !outside[index] {
        outside.set(index, true);
        queue.push_back((x, y));
        proof {
            let o0 = old(outside)@;
            let o1 = outside@;
            assert(exterior(m@, wi, hi, xi, yi)) by {
                assert forall|s: Set<(int, int)>| encloses_exterior(m@, wi, hi, s) implies #[trigger] s.contains(
                    (xi, yi),
                ) by {
                    if !on_border(wi, hi, xi, yi) {
                        assert(exterior(m@, wi, hi, from.0, from.1));
                        assert(s.contains((from.0, from.1)));
                        assert(is_background(m@, wi, hi, xi, yi));
                    } else {
                        assert(is_background(m@, wi, hi, xi, yi));
                    }
                }
            }
            assert forall|x2: int, y2: int|
                in_bounds(wi, hi, x2, y2) && #[trigger] marked(o1, wi, x2, y2) implies m@[at(
                    wi,
                    x2,
                    y2,
                )] == 0 && exterior(m@, wi, hi, x2, y2) by {
                lemma_at_bounds(wi, hi, x2, y2);
                if at(wi, x2, y2) == at(wi, xi, yi) {
                    lemma_at_injective(wi, x2, y2, xi, yi);
                } else {
                    assert(marked(o0, wi, x2, y2));
                }
            }
        }
    }
}

/// What `push_background` leaves behind keeps the flood-fill bookkeeping:
/// queued pixels stay marked, marks stay closed, and marks only grow.
proof fn lemma_after_push(
    m: Seq<u8>,
    w: int,
    h: int,
    o0: Seq<bool>,
    q0: Seq<(usize, usize)>,
    o1: Seq<bool>,
    q1: Seq<(usize, usize)>,
    x: usize,
    y: usize,
    cur: (int, int),
)
    requires
        m.len() == w * h,
        o0.len() == w * h,
        in_bounds(w, h, x as int, y as int),
        ({
            let i = at(w, x as int, y as int);
            if m[i] == 0 && !o0[i] {
                o1 == o0.update(i, true) && q1 == q0.push((x, y))
            } else {
                o1 == o0 && q1 == q0
            }
        }),
        marks_closed(m, w, h, o0, q0, cur),
        queue_marked(w, h, o0, q0),
    ensures
        o1.len() == w * h,
        marks_closed(m, w, h, o1, q1, cur),
        queue_marked(w, h, o1, q1),
        forall|x2: int, y2: int|
            in_bounds(w, h, x2, y2) && marked(o0, w, x2, y2) ==> #[trigger] marked(o1, w, x2, y2),
        is_background(m, w, h, x as int, y as int) ==> marked(o1, w, x as int, y as int),
        border_marked(m, w, h, o0) ==> border_marked(m, w, h, o1),
{
    let i = at(w, x as int, y as int);
    lemma_at_bounds(w, h, x as int, y as int);
    if m[i] == 0 && !o0[i] {
        assert forall|x2: int, y2: int|
            in_bounds(w, h, x2, y2) && marked(o0, w, x2, y2) implies #[trigger] marked(
            o1,
            w,
            x2,
            y2,
        ) by {
            lemma_at_bounds(w, h, x2, y2);
        }
        assert forall|x2: int, y2: int|
            in_bounds(w, h, x2, y2) && #[trigger] marked(o1, w, x2, y2) implies queued(q1, x2, y2)
                || (x2, y2) == cur || neighbours_marked(m, w, h, o1, x2, y2) by {
            lemma_at_bounds(w, h, x2, y2);
            if at(w, x2, y2) == i {
                lemma_at_injective(w, x2, y2, x as int, y as int);
                assert(q1[q0.len() as int] == (x, y));
            } else {
                assert(marked(o0, w, x2, y2));
                if queued(q0, x2, y2) {
                    let k = choose|k: int| 0 <= k < q0.len() && q0[k].0 == x2 && q0[k].1 == y2;
                    assert(q1[k] == q0[k]);
                } else if neighbours_marked(m, w, h, o0, x2, y2) {
                    assert forall|x3: int, y3: int|
                        is_background(m, w, h, x3, y3) && adjacent(x2, y2, x3, y3) implies #[trigger] marked(
                        o1,
                        w,
                        x3,
                        y3,
                    ) by {
                        assert(marked(o0, w, x3, y3));
                        lemma_at_bounds(w, h, x3, y3);
                    }
                }
            }
        }
        assert forall|k: int| 0 <= k < q1.len() implies in_bounds(
            w,
            h,
            #[trigger] q1[k].0 as int,
            q1[k].1 as int,
        ) && marked(o1, w, q1[k].0 as int, q1[k].1 as int) by {
            if k < q0.len() {
                assert(q1[k] == q0[k]);
                lemma_at_bounds(w, h, q0[k].0 as int, q0[k].1 as int);
            }
        }
    }
}

/// Fills every hole of a binary mask: each zero pixel that no 8-connected
/// path of zero pixels joins to the image border becomes 255.
pub fn fill_holes(mask: &mut GrayPixels)
    requires
        old(mask).well_formed(),
        (old(mask).width == 0) == (old(mask).height == 0),
    ensures
        final(mask).width == old(mask).width,
        final(mask).height == old(mask).height,
        final(mask).well_formed(),
        forall|x: int, y: int|
            in_bounds(old(mask).width as int, old(mask).height as int, x, y) ==> final(mask).pixels@[at(
                old(mask).width as int,
                x,
                y,
            )] == filled_value(
                old(mask).pixels@,
                old(mask).width as int,
                old(mask).height as int,
                x,
                y,
            ),
{
    let width = mask.width as usize;
    assert((mask.width == 0) == (mask.height == 0));
    let height = mask.height as usize;
    let ghost m = mask.pixels@;
    let ghost (w, h) = (width as int, height as int);
    let ghost none: (int, int) = (-1, -1);
    let len = mask.pixels.len();
    let mut outside: Vec<bool> = Vec::new();
    while outside.len() < len
        invariant
            outside@.len() <= len,
            forall|i: int| 0 <= i < outside@.len() ==> !outside@[i],
        decreases len - outside@.len(),
    {
        outside.push(false);
    }
    let mut queue: VecDeque<(usize, usize)> = VecDeque::new();
    proof {
        assert forall|x: int, y: int| in_bounds(w, h, x, y) && #[trigger] marked(outside@, w, x, y) implies false by {
            lemma_at_bounds(w, h, x, y);
        }
    }

    let mut x: usize = 0;
    while x < width
        invariant
            mask.pixels@ == m,
            none == (-1int, -1int),
            m.len() == w * h,
            w == width,
            h == height,
            (width == 0) == (height == 0),
            x <= width,
            outside@.len() == w * h,
            marks_sound(m, w, h, outside@),
            queue_marked(w, h, outside@, queue@),
            marks_closed(m, w, h, outside@, queue@, none),
            forall|x2: int, y2: int|
                is_background(m, w, h, x2, y2) && (y2 == 0 || y2 == h - 1) && x2 < x ==> #[trigger] marked(
                    outside@,
                    w,
                    x2,
                    y2,
                ),
        decreases width - x,
    {
        let ghost (o0, q0) = (outside@, queue@);
        push_background(&mask.pixels, width, height, x, 0, &mut outside, &mut queue, Ghost(none));
        proof {
            lemma_after_push(m, w, h, o0, q0, outside@, queue@, x, 0, none);
        }
        if height > 1 {
            let ghost (o1, q1) = (outside@, queue@);
            push_background(
                &mask.pixels,
                width,
                height,
                x,
                height - 1,
                &mut outside,
                &mut queue,
                Ghost(none),
            );
            proof {
                lemma_after_push(m, w, h, o1, q1, outside@, queue@, x, (height - 1) as usize, none);
            }
        }
        x = x + 1;
    }

    let mut y: usize = 0;
    while y < height
        invariant
            mask.pixels@ == m,
            none == (-1int, -1int),
            m.len() == w * h,
            w == width,
            h == height,
            (width == 0) == (height == 0),
            y <= height,
            outside@.len() == w * h,
            marks_sound(m, w, h, outside@),
            queue_marked(w, h, outside@, queue@),
            marks_closed(m, w, h, outside@, queue@, none),
            forall|x2: int, y2: int|
                is_background(m, w, h, x2, y2) && (y2 == 0 || y2 == h - 1) ==> #[trigger] marked(
                    outside@,
                    w,
                    x2,
                    y2,
                ),
            forall|x2: int, y2: int|
                is_background(m, w, h, x2, y2) && (x2 == 0 || x2 == w - 1) && y2 < y ==> #[trigger] marked(
                    outside@,
                    w,
                    x2,
                    y2,
                ),
        decreases height - y,
    {
        let ghost (o0, q0) = (outside@, queue@);
        push_background(&mask.pixels, width, height, 0, y, &mut outside, &mut queue, Ghost(none));
        proof {
            lemma_after_push(m, w, h, o0, q0, outside@, queue@, 0, y, none);
        }
        if width > 1 {
            let ghost (o1, q1) = (outside@, queue@);
            push_background(
                &mask.pixels,
                width,
                height,
                width - 1,
                y,
                &mut outside,
                &mut queue,
                Ghost(none),
            );
            proof {
                lemma_after_push(m, w, h, o1, q1, outside@, queue@, (width - 1) as usize, y, none);
            }
        }
        y = y + 1;
    }

    while queue.len() > 0
        invariant
            mask.pixels@ == m,
            none == (-1int, -1int),
            m.len() == w * h,
            w == width,
            h == height,
            outside@.len() == w * h,
            marks_sound(m, w, h, outside@),
            queue_marked(w, h, outside@, queue@),
            marks_closed(m, w, h, outside@, queue@, none),
            border_marked(m, w, h, outside@),
        decreases unmarked_count(outside@), queue@.len(),
    {
        let ghost q_start = queue@;
        let (px, py) = queue.pop_front().unwrap();
        let ghost cur = (px as int, py as int);
        let ghost (c0, q0) = (unmarked_count(outside@), queue@.len());
        proof {
            assert(q_start[0] == (px, py));
            assert(marks_closed(m, w, h, outside@, q_start, none));
            assert forall|x2: int, y2: int|
                in_bounds(w, h, x2, y2) && #[trigger] marked(outside@, w, x2, y2) implies queued(
                    queue@,
                    x2,
                    y2,
                ) || (x2, y2) == cur || neighbours_marked(m, w, h, outside@, x2, y2) by {
                assert(queued(q_start, x2, y2) || neighbours_marked(m, w, h, outside@, x2, y2));
                if queued(q_start, x2, y2) {
                    let k = choose|k: int| 0 <= k < q_start.len() && q_start[k].0 == x2 && q_start[k].1 == y2;
                    if k > 0 {
                        assert(queue@[k - 1] == q_start[k]);
                        assert(queued(queue@, x2, y2));
                    } else {
                        assert((x2, y2) == cur);
                    }
                }
            }
            assert forall|k: int| 0 <= k < queue@.len() implies in_bounds(
                w,
                h,
                #[trigger] queue@[k].0 as int,
                queue@[k].1 as int,
            ) && marked(outside@, w, queue@[k].0 as int, queue@[k].1 as int) by {
                assert(queue@[k] == q_start[k + 1]);
            }
            assert(in_bounds(w, h, px as int, py as int) && marked(outside@, w, px as int, py as int));
        }
        let min_x = if px > 0 { px - 1 } else { 0 };
        let max_x = if px + 1 < width { px + 1 } else { width - 1 };
        let min_y = if py > 0 { py - 1 } else { 0 };
        let max_y = if py + 1 < height { py + 1 } else { height - 1 };
        let mut ny = min_y;
        while ny <= max_y
            invariant
                mask.pixels@ == m,
                none == (-1int, -1int),
                m.len() == w * h,
                w == width,
                h == height,
                in_bounds(w, h, px as int, py as int),
                min_x == (if px > 0 { px - 1 } else { 0 }),
                max_x == (if px + 1 < width { px + 1 } else { width - 1 }),
                min_y == (if py > 0 { py - 1 } else { 0 }),
                max_y == (if py + 1 < height { py + 1 } else { height - 1 }),
                min_y <= ny <= max_y + 1,
                cur == (px as int, py as int),
                outside@.len() == w * h,
                marked(outside@, w, px as int, py as int),
                marks_sound(m, w, h, outside@),
                queue_marked(w, h, outside@, queue@),
                marks_closed(m, w, h, outside@, queue@, cur),
                border_marked(m, w, h, outside@),
                unmarked_count(outside@) < c0 || (unmarked_count(outside@) == c0 && queue@.len() == q0),
                forall|x2: int, y2: int|
                    is_background(m, w, h, x2, y2) && adjacent(px as int, py as int, x2, y2) && y2 < ny
                        ==> #[trigger] marked(outside@, w, x2, y2),
            decreases max_y + 1 - ny,
        {
            let mut nx = min_x;
            while nx <= max_x
                invariant
                    mask.pixels@ == m,
                    none == (-1int, -1int),
                    m.len() == w * h,
                    w == width,
                    h == height,
                    in_bounds(w, h, px as int, py as int),
                    min_x == (if px > 0 { px - 1 } else { 0 }),
                    max_x == (if px + 1 < width { px + 1 } else { width - 1 }),
                    min_y == (if py > 0 { py - 1 } else { 0 }),
                    max_y == (if py + 1 < height { py + 1 } else { height - 1 }),
                    min_y <= ny <= max_y,
                    min_x <= nx <= max_x + 1,
                    cur == (px as int, py as int),
                    outside@.len() == w * h,
                    marked(outside@, w, px as int, py as int),
                    marks_sound(m, w, h, outside@),
                    queue_marked(w, h, outside@, queue@),
                    marks_closed(m, w, h, outside@, queue@, cur),
                    border_marked(m, w, h, outside@),
                    unmarked_count(outside@) < c0 || (unmarked_count(outside@) == c0 && queue@.len()
                        == q0),
                    forall|x2: int, y2: int|
                        is_background(m, w, h, x2, y2) && adjacent(px as int, py as int, x2, y2) && (y2
                            < ny || (y2 == ny && x2 < nx)) ==> #[trigger] marked(outside@, w, x2, y2),
                decreases max_x + 1 - nx,
            {
                let ghost (o1, q1) = (outside@, queue@);
                proof {
                    assert(in_bounds(w, h, nx as int, ny as int));
                    assert(in_bounds(w, h, cur.0, cur.1));
                    assert(marked(o1, w, cur.0, cur.1));
                    assert(adjacent(cur.0, cur.1, nx as int, ny as int));
                }
                push_background(
                    &mask.pixels,
                    width,
                    height,
                    nx,
                    ny,
                    &mut outside,
                    &mut queue,
                    Ghost(cur),
                );
                proof {
                    lemma_after_push(m, w, h, o1, q1, outside@, queue@, nx, ny, cur);
                    let i = at(w, nx as int, ny as int);
                    lemma_at_bounds(w, h, nx as int, ny as int);
                    if m[i] == 0 && !o1[i] {
                        lemma_mark_decreases(o1, i);
                    }
                    assert forall|x2: int, y2: int|
                        is_background(m, w, h, x2, y2) && adjacent(px as int, py as int, x2, y2) && y2
                            == ny && x2 == nx implies #[trigger] marked(outside@, w, x2, y2) by {}
                }
                nx = nx + 1;
            }
            ny = ny + 1;
        }
        proof {
            assert(neighbours_marked(m, w, h, outside@, px as int, py as int));
            assert forall|x2: int, y2: int|
                in_bounds(w, h, x2, y2) && #[trigger] marked(outside@, w, x2, y2) implies queued(
                    queue@,
                    x2,
                    y2,
                ) || (x2, y2) == none || neighbours_marked(m, w, h, outside@, x2, y2) by {}
        }
    }

    let mut i: usize = 0;
    while i < len
        invariant
            mask.width == width,
            mask.height == height,
            len == m.len(),
            mask.pixels@.len() == len,
            outside@.len() == len,
            i <= len,
            forall|j: int| 0 <= j < i ==> mask.pixels@[j] == (if m[j] == 0 && !outside@[j] { 255u8 } else { m[j] }),
            forall|j: int| i <= j < len ==> mask.pixels@[j] == m[j],
        decreases len - i,
    {
        if mask.pixels[i] == 0 && !outside[i] {
            mask.pixels.set(i, 255);
        }
        i = i + 1;
    }

    proof {
        let o = outside@;
        let s = Set::new(|p: (int, int)| in_bounds(w, h, p.0, p.1) && marked(o, w, p.0, p.1));
        assert(encloses_exterior(m, w, h, s)) by {
            assert forall|x1: int, y1: int, x2: int, y2: int|
                #[trigger] s.contains((x1, y1)) && is_background(m, w, h, x2, y2) && adjacent(x1, y1, x2, y2)
                    implies #[trigger] s.contains((x2, y2)) by {
                assert(marked(o, w, x1, y1));
                assert(neighbours_marked(m, w, h, o, x1, y1));
                assert(marked(o, w, x2, y2));
            }
        }
        assert forall|x: int, y: int| in_bounds(w, h, x, y) implies mask.pixels@[at(w, x, y)] == filled_value(m, w, h, x, y) by {
            lemma_at_bounds(w, h, x, y);
            if m[at(w, x, y)] == 0 && exterior(m, w, h, x, y) {
                assert(s.contains((x, y)));
                assert(marked(o, w, x, y));
            }
            if marked(o, w, x, y) {
                assert(exterior(m, w, h, x, y));
            }
        }
    }
}

/// The side lengths an image is scaled to so that its longer side is
/// `max_side`: each side scaled by `max_side` over the longer side, rounded
/// half to even, and at least 1; an image with no pixels gives `(1, 1)`.
pub open spec fn scaled_to_fit(width: int, height: int, max_side: int) -> (int, int) {
    let longer = if width >= height { width } else { height };
    if longer == 0 {
        (1, 1)
    } else {
        let w = round_half_even(width * max_side, longer);
        let h = round_half_even(height * max_side, longer);
        (if w >= 1 { w } else { 1 }, if h >= 1 { h } else { 1 })
    }
}

proof fn lemma_round_within(n: int, d: int, m: int)
    requires
        0 <= n <= m * d,
        d > 0,
    ensures
        round_half_even(n, d) <= m,
{
    let q = n / d;
    let r = n % d;
    vstd::arithmetic::div_mod::lemma_fundamental_div_mod(n, d);
    vstd::arithmetic::div_mod::lemma_mod_bound(n, d);
    assert(q <= m) by (nonlinear_arith)
        requires
            n == d * q + r,
            0 <= r < d,
            n <= m * d,
            d > 0,
    ;
    if q == m {
        assert(r == 0) by (nonlinear_arith)
            requires
                n == d * q + r,
                0 <= r,
                n <= m * d,
                q == m,
        ;
    }
}

/// The side lengths an image is scaled to so that its longer side is `max_side`.
pub fn resize_dimensions(width: u32, height: u32, max_side: u32) -> (size: (u32, u32))
    ensures
        size.0 == scaled_to_fit(width as int, height as int, max_side as int).0,
        size.1 == scaled_to_fit(width as int, height as int, max_side as int).1,
{
    let longer: u128 = if width >= height { width as u128 } else { height as u128 };
    if longer == 0 {
        return (1, 1);
    }
    proof {
        assert((width as u128) * (max_side as u128) <= 0xffff_ffff * 0xffff_ffff) by (nonlinear_arith)
            requires width <= 0xffff_ffff, max_side <= 0xffff_ffff;
        assert((height as u128) * (max_side as u128) <= 0xffff_ffff * 0xffff_ffff) by (nonlinear_arith)
            requires height <= 0xffff_ffff, max_side <= 0xffff_ffff;
        assert((width * max_side) / (longer as int) <= max_side) by (nonlinear_arith)
            requires width as u128 <= longer, longer > 0;
        assert((height * max_side) / (longer as int) <= max_side) by (nonlinear_arith)
            requires height as u128 <= longer, longer > 0;
    }
    let w = round_half_even_u128((width as u128) * (max_side as u128), longer);
    let h = round_half_even_u128((height as u128) * (max_side as u128), longer);
    proof {
        assert(width * max_side <= max_side * longer) by (nonlinear_arith)
            requires width <= longer, 0 <= max_side;
        assert(height * max_side <= max_side * longer) by (nonlinear_arith)
            requires height <= longer, 0 <= max_side;
        lemma_round_within(width * max_side, longer as int, max_side as int);
        lemma_round_within(height * max_side, longer as int, max_side as int);
    }
    let w: u128 = if w >= 1 { w } else { 1 };
    let h: u128 = if h >= 1 { h } else { 1 };
    (w as u32, h as u32)
}

/// How much an input side is padded to reach a multiple of 32.
pub fn stride_padding(side: u32) -> (padding: u32)
    ensures
        padding == (32 - side % 32) % 32,
        (side + padding) % 32 == 0,
        padding < 32,
{
    (32 - side % 32) % 32
}

/// Why a text mask input cannot be prepared.
#[derive(Clone, Copy, Debug, PartialEq, Eq, Structural)]
pub enum TextMaskError {
    /// The image has no pixels.
    EmptyInput,
    /// A longest-side limit of zero was asked for.
    ZeroMaxSide,
    /// More than 10 padding iterations were asked for.
    PaddingTooLarge,
    /// A gap-closing kernel larger than 10 was asked for.
    KernelTooLarge,
}

/// The size a `width` by `height` image enters the segmentation model at:
/// scaled down so its longer side is `max_side` where it is longer than
/// that; refused when empty or when a limit of zero is asked for.
pub open spec fn model_input_size(width: u32, height: u32, max_side: Option<u32>) -> Result<(int, int), TextMaskError> {
    if width == 0 || height == 0 {
        Err(TextMaskError::EmptyInput)
    } else {
        match max_side {
            Some(limit) => if limit == 0 {
                Err(TextMaskError::ZeroMaxSide)
            } else if width > limit || height > limit {
                Ok(scaled_to_fit(width as int, height as int, limit as int))
            } else {
                Ok((width as int, height as int))
            },
            None => Ok((width as int, height as int)),
        }
    }
}

/// The size a `width` by `height` image enters the segmentation model at.
pub fn input_size(width: u32, height: u32, max_side: Option<u32>) -> (size: Result<(u32, u32), TextMaskError>)
    ensures
        match size {
            Ok((w, h)) => model_input_size(width, height, max_side) == Ok::<(int, int), TextMaskError>((w as int, h as int)),
            Err(error) => model_input_size(width, height, max_side) == Err::<(int, int), TextMaskError>(error),
        },
        max_side is Some && max_side->Some_0 > 0 && width > 0 && height > 0 ==> {
            let limit = max_side->Some_0;
            &&& size is Ok
            &&& 1 <= size->Ok_0.0 <= limit
            &&& 1 <= size->Ok_0.1 <= limit
            &&& (size->Ok_0 == (width, height) <==> (width <= limit && height <= limit))
        },
{
    proof {
        if let Some(limit) = max_side {
            if limit > 0 && width > 0 && height > 0 {
                lemma_model_input_within_limit(width, height, limit);
            }
        }
    }
    if width == 0 || height == 0 {
        return Err(TextMaskError::EmptyInput);
    }
    match max_side {
        Some(limit) => {
            if limit == 0 {
                return Err(TextMaskError::ZeroMaxSide);
            }
            if width > limit || height > limit {
                Ok(resize_dimensions(width, height, limit))
            } else {
                Ok((width, height))
            }
        },
        None => Ok((width, height)),
    }
}

/// A non-empty image under a longest-side limit enters the model with both
/// sides between 1 and the limit, and unchanged exactly when neither side
/// exceeds the limit: a page taller or wider than the limit is scaled down
/// so that its longer side is the limit.
pub proof fn lemma_model_input_within_limit(width: u32, height: u32, limit: u32)
    requires
        width > 0,
        height > 0,
        limit > 0,
    ensures
        model_input_size(width, height, Some(limit)) is Ok,
        1 <= model_input_size(width, height, Some(limit))->Ok_0.0 <= limit,
        1 <= model_input_size(width, height, Some(limit))->Ok_0.1 <= limit,
        model_input_size(width, height, Some(limit))->Ok_0 == (width as int, height as int) <==> (width <= limit
            && height <= limit),
        (width > limit || height > limit) ==> (if width >= height {
            model_input_size(width, height, Some(limit))->Ok_0.0
        } else {
            model_input_size(width, height, Some(limit))->Ok_0.1
        }) == limit,
{
    if width > limit || height > limit {
        let longer: int = if width >= height { width as int } else { height as int };
        let m = limit as int;
        assert(width * m <= m * longer) by (nonlinear_arith)
            requires
                width <= longer,
                0 <= m,
        ;
        assert(height * m <= m * longer) by (nonlinear_arith)
            requires
                height <= longer,
                0 <= m,
        ;
        assert(0 <= width * m && 0 <= height * m) by (nonlinear_arith)
            requires
                0 <= width,
                0 <= height,
                0 <= m,
        ;
        lemma_round_within(width * m, longer, m);
        lemma_round_within(height * m, longer, m);
        vstd::arithmetic::div_mod::lemma_div_by_multiple(m, longer);
        vstd::arithmetic::div_mod::lemma_mod_multiples_basic(m, longer);
        assert(longer * m == m * longer) by (nonlinear_arith);
        assert(round_half_even(longer * m, longer) == m);
    }
}

/// How a thresholded text mask is cleaned up.
#[derive(Clone, Copy, Debug, PartialEq, Eq, Structural)]
pub struct MaskCleaning {
    /// Chebyshev radius the text is grown by at the end; at most 10.
    pub padding_iterations: u32,
    /// Whether enclosed background is filled.
    pub fill_holes: bool,
    /// Size of the elliptic kernel that closes gaps first (made odd); 0
    /// skips the step; at most 10.
    pub close_gaps_kernel: u32,
}

impl MaskCleaning {
    /// The cleaning steps used unless others are asked for.
    pub fn default() -> (cleaning: Self)
        ensures
            cleaning.padding_iterations == 2,
            cleaning.fill_holes,
            cleaning.close_gaps_kernel == 2,
    {
        MaskCleaning { padding_iterations: 2, fill_holes: true, close_gaps_kernel: 2 }
    }
}

/// The odd kernel size a gap-closing size of `k` turns into.
pub open spec fn odd_kernel_size(k: int) -> int {
    if k % 2 == 0 {
        k + 1
    } else {
        k
    }
}

/// The mask after hole filling, as an image.
pub open spec fn holes_filled(m: Seq<u8>, w: int, h: int) -> Seq<u8> {
    image_of(w, h, |x: int, y: int| filled_value(m, w, h, x, y))
}

/// A binary text mask after its gaps are closed by dilating then eroding
/// with an elliptic kernel, where asked for.
pub open spec fn closed_mask(m: Seq<u8>, w: int, h: int, cleaning: MaskCleaning) -> Seq<u8> {
    let size = odd_kernel_size(cleaning.close_gaps_kernel as int);
    let kernel = ellipse_kernel(size);
    if cleaning.close_gaps_kernel > 0 {
        eroded(dilated(m, w, h, kernel, size, size, size / 2, size / 2), w, h, kernel, size, size, size / 2, size / 2)
    } else {
        m
    }
}

/// A binary text mask after cleaning: gaps closed by dilating then eroding
/// with an elliptic kernel, holes filled, then grown by a Chebyshev radius;
/// each step only where asked for.
pub open spec fn cleaned(m: Seq<u8>, w: int, h: int, cleaning: MaskCleaning) -> Seq<u8> {
    let closed = closed_mask(m, w, h, cleaning);
    let filled = if cleaning.fill_holes {
        holes_filled(closed, w, h)
    } else {
        closed
    };
    if cleaning.padding_iterations > 0 {
        chebyshev_dilated(filled, w, h, cleaning.padding_iterations as int)
    } else {
        filled
    }
}

proof fn lemma_image_of_at(w: int, h: int, f: spec_fn(int, int) -> u8, x: int, y: int)
    requires
        in_bounds(w, h, x, y),
    ensures
        image_of(w, h, f).len() == w * h,
        0 <= at(w, x, y) < w * h,
        image_of(w, h, f)[at(w, x, y)] == f(x, y),
{
    lemma_at_bounds(w, h, x, y);
    let i = at(w, x, y);
    lemma_index_splits(w, h, i);
    lemma_at_injective(w, i % w, i / w, x, y);
}

/// With hole filling asked for, the cleaned mask is nowhere darker than the
/// closed mask with its holes filled: every background pixel of the closed
/// mask that the border cannot reach through background comes out white
/// (255), and every pixel keeps at least its value after closing.
pub proof fn lemma_cleaned_fills_holes(m: Seq<u8>, w: int, h: int, cleaning: MaskCleaning, x: int, y: int)
    requires
        cleaning.fill_holes,
        in_bounds(w, h, x, y),
    ensures
        cleaned(m, w, h, cleaning)[at(w, x, y)] >= filled_value(closed_mask(m, w, h, cleaning), w, h, x, y),
        closed_mask(m, w, h, cleaning)[at(w, x, y)] == 0 && !exterior(closed_mask(m, w, h, cleaning), w, h, x, y)
            ==> cleaned(m, w, h, cleaning)[at(w, x, y)] == 255,
{
    let closed = closed_mask(m, w, h, cleaning);
    let filled = holes_filled(closed, w, h);
    lemma_image_of_at(w, h, |px: int, py: int| filled_value(closed, w, h, px, py), x, y);
    assert(filled[at(w, x, y)] == filled_value(closed, w, h, x, y));
    if cleaning.padding_iterations > 0 {
        let k = cleaning.padding_iterations as int;
        let grow = |px: int, py: int|
            if foreground_within(filled, w, h, px, py, k) || distance_cap(w, h) <= k {
                255u8
            } else {
                0u8
            };
        lemma_image_of_at(w, h, grow, x, y);
        assert(chebyshev_dilated(filled, w, h, k) == image_of(w, h, grow));
        if filled[at(w, x, y)] != 0 {
            assert(foreground_within(filled, w, h, x, y, k));
        }
    }
}

/// Cleans a binary text mask: closes gaps, fills holes and grows the text
/// as `cleaning` asks. Fails where more than 10 padding iterations, or a
/// gap-closing kernel larger than 10, is asked for.
pub fn clean_mask(mask: &GrayPixels, cleaning: &MaskCleaning) -> (result: Result<GrayPixels, TextMaskError>)
    requires
        mask.well_formed(),
        mask.width > 0,
        mask.height > 0,
    ensures
        match result {
            Ok(out) => {
                &&& cleaning.padding_iterations <= 10
                &&& cleaning.close_gaps_kernel <= 10
                &&& out.width == mask.width
                &&& out.height == mask.height
                &&& out.pixels@ == cleaned(mask.pixels@, mask.width as int, mask.height as int, *cleaning)
                &&& cleaning.fill_holes ==> forall|x: int, y: int|
                    in_bounds(mask.width as int, mask.height as int, x, y) ==> #[trigger] out.pixels@[at(
                        mask.width as int,
                        x,
                        y,
                    )] >= filled_value(
                        closed_mask(mask.pixels@, mask.width as int, mask.height as int, *cleaning),
                        mask.width as int,
                        mask.height as int,
                        x,
                        y,
                    )
            },
            Err(error) => if cleaning.padding_iterations > 10 {
                error == TextMaskError::PaddingTooLarge
            } else {
                error == TextMaskError::KernelTooLarge && cleaning.close_gaps_kernel > 10
            },
        },
{
    if cleaning.padding_iterations > 10 {
        return Err(TextMaskError::PaddingTooLarge);
    }
    if cleaning.close_gaps_kernel > 10 {
        return Err(TextMaskError::KernelTooLarge);
    }
    let ghost (w, h) = (mask.width as int, mask.height as int);
    let ghost size = odd_kernel_size(cleaning.close_gaps_kernel as int);
    let mut current = GrayPixels { width: mask.width, height: mask.height, pixels: mask.pixels.clone() };
    if cleaning.close_gaps_kernel > 0 {
        let k = cleaning.close_gaps_kernel;
        let odd: u8 = if k % 2 == 0 { (k + 1) as u8 } else { k as u8 };
        let kernel = opencv_ellipse(odd);
        let center = odd / 2;
        let grown = grayscale_dilate(&current, &kernel, center, center);
        proof {
            assert(grown.well_formed());
        }
        current = grayscale_erode(&grown, &kernel, center, center);
    }
    proof {
        assert(current.well_formed());
    }
    if cleaning.fill_holes {
        let ghost before = current.pixels@;
        fill_holes(&mut current);
        proof {
            assert forall|i: int| 0 <= i < w * h implies #[trigger] current.pixels@[i] == holes_filled(before, w, h)[i] by {
                lemma_index_splits(w, h, i);
            }
            assert(current.pixels@ =~= holes_filled(before, w, h));
        }
    }
    if cleaning.padding_iterations > 0 {
        current = chebyshev_dilate(&current, cleaning.padding_iterations as u8);
    }
    proof {
        if cleaning.fill_holes {
            assert forall|x: int, y: int| in_bounds(w, h, x, y) implies #[trigger] current.pixels@[at(w, x, y)]
                >= filled_value(closed_mask(mask.pixels@, w, h, *cleaning), w, h, x, y) by {
                lemma_cleaned_fills_holes(mask.pixels@, w, h, *cleaning, x, y);
            }
        }
    }
    Ok(current)
}

/// The image the segmentation model sees before padding: refused when
/// empty or when a longest-side limit of zero is asked for; scaled down by
/// bilinear interpolation where its longer side exceeds the limit.
pub fn fit_input(image: &RgbPixels, max_side: Option<u32>) -> (input: Result<RgbPixels, TextMaskError>)
    requires
        image.well_formed(),
    ensures
        match input {
            Ok(out) => out.well_formed() && match model_input_size(image.width, image.height, max_side) {
                Ok((w, h)) => out.width == w && out.height == h && out.pixels@ == if w == image.width && h
                    == image.height {
                    image.pixels@
                } else {
                    resampled(Resampling::BilinearInterpolation, 3, image.pixels@, image.width as nat, image.height as nat, w as nat, h as nat)
                },
                Err(_) => false,
            },
            Err(error) => model_input_size(image.width, image.height, max_side) == Err::<(int, int), TextMaskError>(error),
        },
{
    match input_size(image.width, image.height, max_side) {
        Err(error) => Err(error),
        Ok((w, h)) => {
            if w == image.width && h == image.height {
                Ok(RgbPixels { width: w, height: h, pixels: image.pixels.clone() })
            } else {
                Ok(resize_rgb(image, w, h, Resampling::BilinearInterpolation))
            }
        },
    }
}

} // verus!
