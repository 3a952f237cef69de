use vstd::prelude::*;

verus! {

/// Why the rotary position ids of a PaddleOCR-VL prompt cannot be laid out.
#[derive(Clone, Copy, Debug, PartialEq, Eq, Structural)]
pub enum RopeError {
    /// The prompt holds a second run of image tokens.
    MultipleImages,
    /// An image run's length differs from the patch count of the merged grid.
    GridMismatch,
    /// A token type other than text (0) or image (1).
    UnsupportedModality(i64),
    /// The prompt holds no image token.
    NoImage,
}

/// The temporal, row and column position of each prompt token, and the
/// offset from the prompt length to the first position after it.
pub struct RopeIndex {
    pub temporal: Vec<i64>,
    pub rows: Vec<i64>,
    pub columns: Vec<i64>,
    pub delta: i64,
}

/// The positions laid out so far: one sequence per axis, the next free
/// position, and whether an image run was met.
pub struct RopeLayout {
    pub temporal: Seq<int>,
    pub rows: Seq<int>,
    pub columns: Seq<int>,
    pub next: int,
    pub has_image: bool,
}

/// The end of the run of equal token types that starts at `start`, scanning
/// on from `j`.
pub open spec fn run_end(types: Seq<i64>, start: int, j: int) -> int
    decreases types.len() - j,
{
    if 0 <= j < types.len() && types[j] == types[start] {
        run_end(types, start, j + 1)
    } else {
        j
    }
}

/// `count` text positions from `first` on, one after the other.
pub open spec fn text_positions(first: int, count: int) -> Seq<int> {
    Seq::new(count as nat, |k: int| first + k)
}

/// The temporal, row and column positions of `count` image patches laid out
/// frame by frame and row by row over `height` by `width` patches, counted
/// from `first`.
pub open spec fn image_positions(first: int, count: int, height: int, width: int) -> (Seq<int>, Seq<int>, Seq<int>) {
    (
        Seq::new(count as nat, |k: int| first + k / (height * width)),
        Seq::new(count as nat, |k: int| first + (k / width) % height),
        Seq::new(count as nat, |k: int| first + k % width),
    )
}

/// The merged patch grid `(frames, rows, columns)` of an image of `grid`
/// patches.
pub open spec fn merged_grid(grid: [i64; 3], merge_size: int) -> (int, int, int) {
    (grid[0] as int, grid[1] as int / merge_size, grid[2] as int / merge_size)
}

/// Lays out the runs of `types` from `offset` on after `acc`: a text run
/// takes the next positions on all three axes; the single image run takes
/// its frame, row and column positions from the next free position, which
/// then moves on by the larger side of the merged grid.
pub open spec fn layout_runs(types: Seq<i64>, grid: [i64; 3], merge_size: int, offset: int, acc: RopeLayout) -> Result<
    RopeLayout,
    RopeError,
>
    decreases types.len() - offset,
{
    if offset < 0 || offset >= types.len() {
        Ok(acc)
    } else {
        let end = run_end(types, offset, offset + 1);
        let count = end - offset;
        let modality = types[offset];
        proof {
            lemma_run_end(types, offset, offset + 1);
        }
        if modality == 0 {
            let text = text_positions(acc.next, count);
            layout_runs(
                types,
                grid,
                merge_size,
                end,
                RopeLayout {
                    temporal: acc.temporal + text,
                    rows: acc.rows + text,
                    columns: acc.columns + text,
                    next: acc.next + count,
                    has_image: acc.has_image,
                },
            )
        } else if modality == 1 {
            let (frames, height, width) = merged_grid(grid, merge_size);
            if acc.has_image {
                Err(RopeError::MultipleImages)
            } else if count != frames * height * width {
                Err(RopeError::GridMismatch)
            } else {
                let (t, r, c) = image_positions(acc.next, count, height, width);
                layout_runs(
                    types,
                    grid,
                    merge_size,
                    end,
                    RopeLayout {
                        temporal: acc.temporal + t,
                        rows: acc.rows + r,
                        columns: acc.columns + c,
                        next: acc.next + if height >= width { height } else { width },
                        has_image: true,
                    },
                )
            }
        } else {
            Err(RopeError::UnsupportedModality(modality))
        }
    }
}

pub open spec fn empty_layout() -> RopeLayout {
    RopeLayout { temporal: Seq::empty(), rows: Seq::empty(), columns: Seq::empty(), next: 0, has_image: false }
}

/// The layout of a whole prompt, which must hold an image.
pub open spec fn rope_layout(types: Seq<i64>, grid: [i64; 3], merge_size: int) -> Result<RopeLayout, RopeError> {
    match layout_runs(types, grid, merge_size, 0, empty_layout()) {
        Ok(layout) => if layout.has_image {
            Ok(layout)
        } else {
            Err(RopeError::NoImage)
        },
        Err(error) => Err(error),
    }
}

/// Laying out runs from `offset` on after positions for the first `offset`
/// tokens gives every token one position on each axis.
proof fn lemma_layout_runs_cover(types: Seq<i64>, grid: [i64; 3], merge_size: int, offset: int, acc: RopeLayout)
    requires
        0 <= offset <= types.len(),
        acc.temporal.len() == offset,
        acc.rows.len() == offset,
        acc.columns.len() == offset,
    ensures
        layout_runs(types, grid, merge_size, offset, acc) matches Ok(layout) ==> layout.temporal.len() == types.len()
            && layout.rows.len() == types.len() && layout.columns.len() == types.len(),
    decreases types.len() - offset,
{
    if offset < types.len() {
        let end = run_end(types, offset, offset + 1);
        lemma_run_end(types, offset, offset + 1);
        let count = end - offset;
        if types[offset] == 0 {
            let text = text_positions(acc.next, count);
            lemma_layout_runs_cover(
                types,
                grid,
                merge_size,
                end,
                RopeLayout {
                    temporal: acc.temporal + text,
                    rows: acc.rows + text,
                    columns: acc.columns + text,
                    next: acc.next + count,
                    has_image: acc.has_image,
                },
            );
        } else if types[offset] == 1 {
            let (frames, height, width) = merged_grid(grid, merge_size);
            let (t, r, c) = image_positions(acc.next, count, height, width);
            lemma_layout_runs_cover(
                types,
                grid,
                merge_size,
                end,
                RopeLayout {
                    temporal: acc.temporal + t,
                    rows: acc.rows + r,
                    columns: acc.columns + c,
                    next: acc.next + if height >= width { height } else { width },
                    has_image: true,
                },
            );
        }
    }
}

/// Every token of a prompt that can be laid out gets exactly one position
/// on each axis, and the prompt holds an image run.
pub proof fn lemma_layout_covers_prompt(types: Seq<i64>, grid: [i64; 3], merge_size: int)
    ensures
        rope_layout(types, grid, merge_size) matches Ok(layout) ==> {
            &&& layout.temporal.len() == types.len()
            &&& layout.rows.len() == types.len()
            &&& layout.columns.len() == types.len()
            &&& layout.has_image
        },
{
    lemma_layout_runs_cover(types, grid, merge_size, 0, empty_layout());
}

/// Every image token among the first `n` has its row and column positions
/// below `bound`, and its frame position too where `frames_too` holds.
pub open spec fn image_below(types: Seq<i64>, l: RopeLayout, n: int, bound: int, frames_too: bool) -> bool {
    forall|j: int|
        0 <= j < n && #[trigger] types[j] == 1 ==> l.rows[j] < bound && l.columns[j] < bound && (frames_too
            ==> l.temporal[j] < bound)
}

/// Every text token among the first `n` has one position on all three axes.
pub open spec fn text_on_diagonal(types: Seq<i64>, l: RopeLayout, n: int) -> bool {
    forall|i: int| 0 <= i < n && #[trigger] types[i] == 0 ==> l.temporal[i] == l.rows[i] && l.columns[i] == l.rows[i]
}

/// Among the first `n` tokens, every text token after an image token lies
/// past that image token's row and column positions, and past its frame
/// position too where `frames_too` holds.
pub open spec fn text_after_image(types: Seq<i64>, l: RopeLayout, n: int, frames_too: bool) -> bool {
    forall|i: int, j: int|
        #![trigger types[i], types[j]]
        0 <= j < i < n && types[j] == 1 && types[i] == 0 ==> l.rows[j] < l.rows[i] && l.columns[j] < l.rows[i] && (
        frames_too ==> l.temporal[j] < l.rows[i])
}

/// Whether an image of `grid` patches merged `merge_size` by `merge_size`
/// has no more frames than the larger side of its merged grid.
pub open spec fn frames_within_side(grid: [i64; 3], merge_size: int) -> bool {
    let (frames, height, width) = merged_grid(grid, merge_size);
    frames <= height || frames <= width
}

proof fn lemma_order_text_step(types: Seq<i64>, offset: int, end: int, acc: RopeLayout, frames_too: bool)
    requires
        0 <= offset < end <= types.len(),
        forall|k: int| offset <= k < end ==> types[k] == 0,
        acc.temporal.len() == offset,
        acc.rows.len() == offset,
        acc.columns.len() == offset,
        image_below(types, acc, offset, acc.next, frames_too),
        text_on_diagonal(types, acc, offset),
        text_after_image(types, acc, offset, frames_too),
    ensures
        ({
            let text = text_positions(acc.next, end - offset);
            let next = RopeLayout {
                temporal: acc.temporal + text,
                rows: acc.rows + text,
                columns: acc.columns + text,
                next: acc.next + (end - offset),
                has_image: acc.has_image,
            };
            &&& image_below(types, next, end, next.next, frames_too)
            &&& text_on_diagonal(types, next, end)
            &&& text_after_image(types, next, end, frames_too)
        }),
{
    let text = text_positions(acc.next, end - offset);
    let next = RopeLayout {
        temporal: acc.temporal + text,
        rows: acc.rows + text,
        columns: acc.columns + text,
        next: acc.next + (end - offset),
        has_image: acc.has_image,
    };
    assert forall|j: int| 0 <= j < end && #[trigger] types[j] == 1 implies next.rows[j] < next.next
        && next.columns[j] < next.next && (frames_too ==> next.temporal[j] < next.next) by {
        assert(j < offset);
    }
    assert forall|i: int| 0 <= i < end && #[trigger] types[i] == 0 implies next.temporal[i] == next.rows[i]
        && next.columns[i] == next.rows[i] by {
        if i >= offset {
            assert(next.rows[i] == text[i - offset]);
        }
    }
    assert forall|i: int, j: int|
        #![trigger types[i], types[j]]
        0 <= j < i < end && types[j] == 1 && types[i] == 0 implies next.rows[j] < next.rows[i] && next.columns[j]
        < next.rows[i] && (frames_too ==> next.temporal[j] < next.rows[i]) by {
        assert(j < offset);
        if i >= offset {
            assert(next.rows[i] == acc.next + (i - offset));
            assert(types[j] == 1);
        }
    }
}

proof fn lemma_patch_within(k: int, frames: int, height: int, width: int)
    requires
        0 <= k < frames * height * width,
        1 <= height,
        1 <= width,
    ensures
        0 <= k / (height * width) < frames,
        0 <= (k / width) % height < height,
        0 <= k % width < width,
{
    assert(1 <= height * width) by (nonlinear_arith)
        requires
            1 <= height,
            1 <= width,
    ;
    assert(0 <= k / (height * width) < frames) by (nonlinear_arith)
        requires
            0 <= k < frames * height * width,
            1 <= height * width,
    ;
    assert(0 <= k / width) by (nonlinear_arith)
        requires
            0 <= k,
            1 <= width,
    ;
    vstd::arithmetic::div_mod::lemma_mod_bound(k / width, height);
    vstd::arithmetic::div_mod::lemma_mod_bound(k, width);
}

proof fn lemma_order_image_step(
    types: Seq<i64>,
    offset: int,
    end: int,
    acc: RopeLayout,
    frames: int,
    height: int,
    width: int,
    frames_too: bool,
)
    requires
        0 <= offset < end <= types.len(),
        forall|k: int| offset <= k < end ==> types[k] == 1,
        end - offset == frames * height * width,
        0 <= frames,
        0 <= height,
        0 <= width,
        frames_too ==> frames <= height || frames <= width,
        acc.temporal.len() == offset,
        acc.rows.len() == offset,
        acc.columns.len() == offset,
        image_below(types, acc, offset, acc.next, frames_too),
        text_on_diagonal(types, acc, offset),
        text_after_image(types, acc, offset, frames_too),
    ensures
        ({
            let (t, r, c) = image_positions(acc.next, end - offset, height, width);
            let next = RopeLayout {
                temporal: acc.temporal + t,
                rows: acc.rows + r,
                columns: acc.columns + c,
                next: acc.next + if height >= width { height } else { width },
                has_image: true,
            };
            &&& image_below(types, next, end, next.next, frames_too)
            &&& text_on_diagonal(types, next, end)
            &&& text_after_image(types, next, end, frames_too)
        }),
{
    let count = end - offset;
    let (t, r, c) = image_positions(acc.next, count, height, width);
    let next = RopeLayout {
        temporal: acc.temporal + t,
        rows: acc.rows + r,
        columns: acc.columns + c,
        next: acc.next + if height >= width { height } else { width },
        has_image: true,
    };
    assert(1 <= height && 1 <= width) by (nonlinear_arith)
        requires
            count == frames * height * width,
            1 <= count,
            0 <= frames,
            0 <= height,
            0 <= width,
    ;
    assert forall|j: int| 0 <= j < end && #[trigger] types[j] == 1 implies next.rows[j] < next.next
        && next.columns[j] < next.next && (frames_too ==> next.temporal[j] < next.next) by {
        if j >= offset {
            let k = j - offset;
            lemma_patch_within(k, frames, height, width);
            assert(next.rows[j] == r[k]);
            assert(next.columns[j] == c[k]);
            assert(next.temporal[j] == t[k]);
        }
    }
    assert forall|i: int| 0 <= i < end && #[trigger] types[i] == 0 implies next.temporal[i] == next.rows[i]
        && next.columns[i] == next.rows[i] by {
        assert(i < offset);
    }
    assert forall|i: int, j: int|
        #![trigger types[i], types[j]]
        0 <= j < i < end && types[j] == 1 && types[i] == 0 implies next.rows[j] < next.rows[i] && next.columns[j]
        < next.rows[i] && (frames_too ==> next.temporal[j] < next.rows[i]) by {
        assert(i < offset);
    }
}

proof fn lemma_layout_runs_order(
    types: Seq<i64>,
    grid: [i64; 3],
    merge_size: int,
    offset: int,
    acc: RopeLayout,
)
    requires
        1 <= merge_size,
        0 <= grid[0],
        0 <= grid[1],
        0 <= grid[2],
        0 <= offset <= types.len(),
        acc.temporal.len() == offset,
        acc.rows.len() == offset,
        acc.columns.len() == offset,
        image_below(types, acc, offset, acc.next, frames_within_side(grid, merge_size)),
        text_on_diagonal(types, acc, offset),
        text_after_image(types, acc, offset, frames_within_side(grid, merge_size)),
    ensures
        layout_runs(types, grid, merge_size, offset, acc) matches Ok(layout) ==> {
            &&& text_on_diagonal(types, layout, types.len() as int)
            &&& text_after_image(types, layout, types.len() as int, frames_within_side(grid, merge_size))
        },
    decreases types.len() - offset,
{
    let frames_too = frames_within_side(grid, merge_size);
    if offset < types.len() {
        let end = run_end(types, offset, offset + 1);
        lemma_run_end(types, offset, offset + 1);
        let count = end - offset;
        if types[offset] == 0 {
            lemma_order_text_step(types, offset, end, acc, frames_too);
            let text = text_positions(acc.next, count);
            lemma_layout_runs_order(
                types,
                grid,
                merge_size,
                end,
                RopeLayout {
                    temporal: acc.temporal + text,
                    rows: acc.rows + text,
                    columns: acc.columns + text,
                    next: acc.next + count,
                    has_image: acc.has_image,
                },
            );
        } else if types[offset] == 1 {
            let (frames, height, width) = merged_grid(grid, merge_size);
            if !acc.has_image && count == frames * height * width {
                assert(0 <= height && 0 <= width) by (nonlinear_arith)
                    requires
                        height == grid[1] as int / merge_size,
                        width == grid[2] as int / merge_size,
                        0 <= grid[1],
                        0 <= grid[2],
                        1 <= merge_size,
                ;
                lemma_order_image_step(types, offset, end, acc, frames, height, width, frames_too);
                let (t, r, c) = image_positions(acc.next, count, height, width);
                lemma_layout_runs_order(
                    types,
                    grid,
                    merge_size,
                    end,
                    RopeLayout {
                        temporal: acc.temporal + t,
                        rows: acc.rows + r,
                        columns: acc.columns + c,
                        next: acc.next + if height >= width { height } else { width },
                        has_image: true,
                    },
                );
            }
        }
    }
}

/// In a prompt that can be laid out, a text token after the image run takes
/// one position on all three axes, and that position lies past every row
/// and column position of the image run; it lies past the image's frame
/// positions too where the image has no more frames than the larger side
/// of its merged grid.
pub proof fn lemma_text_after_image_is_later(types: Seq<i64>, grid: [i64; 3], merge_size: int, i: int, j: int)
    requires
        1 <= merge_size,
        0 <= grid[0],
        0 <= grid[1],
        0 <= grid[2],
        rope_layout(types, grid, merge_size) is Ok,
        0 <= j < i < types.len(),
        types[j] == 1,
        types[i] == 0,
    ensures
        ({
            let layout = rope_layout(types, grid, merge_size)->Ok_0;
            &&& layout.temporal[i] == layout.rows[i]
            &&& layout.columns[i] == layout.rows[i]
            &&& layout.rows[j] < layout.rows[i]
            &&& layout.columns[j] < layout.rows[i]
            &&& frames_within_side(grid, merge_size) ==> layout.temporal[j] < layout.rows[i]
        }),
{
    lemma_layout_runs_order(types, grid, merge_size, 0, empty_layout());
    let layout = rope_layout(types, grid, merge_size)->Ok_0;
    assert(types[i] == 0 && types[j] == 1);
}

/// The largest element of `s`, or 0 for none.
pub open spec fn seq_max(s: Seq<int>) -> int
    decreases s.len(),
{
    if s.len() == 0 {
        0
    } else {
        max3(seq_max(s.drop_last()), s.last(), 0)
    }
}

pub open spec fn max3(a: int, b: int, c: int) -> int {
    let ab = if a >= b { a } else { b };
    if ab >= c { ab } else { c }
}

/// The largest position of a layout on any axis, or 0 for none.
pub open spec fn layout_max(layout: RopeLayout) -> int {
    max3(seq_max(layout.temporal), seq_max(layout.rows), seq_max(layout.columns))
}

/// Whether the executable positions `values` are the positions `s`.
pub open spec fn same_positions(values: Seq<i64>, s: Seq<int>) -> bool {
    values.len() == s.len() && forall|i: int| 0 <= i < s.len() ==> values[i] as int == #[trigger] s[i]
}

pub proof fn lemma_run_end(types: Seq<i64>, start: int, j: int)
    requires
        0 <= start < j,
    ensures
        j <= run_end(types, start, j),
        j <= types.len() ==> run_end(types, start, j) <= types.len(),
        forall|k: int| j <= k < run_end(types, start, j) ==> types[k] == types[start],
        run_end(types, start, j) < types.len() ==> types[run_end(types, start, j)] != types[start],
    decreases types.len() - j,
{
    if 0 <= j < types.len() && types[j] == types[start] {
        lemma_run_end(types, start, j + 1);
    }
}

proof fn lemma_seq_max_push(s: Seq<int>, x: int)
    ensures
        seq_max(s.push(x)) == max3(seq_max(s), x, 0),
{
    assert(s.push(x).drop_last() =~= s);
}

proof fn lemma_seq_max_nonnegative(s: Seq<int>)
    ensures
        seq_max(s) >= 0,
    decreases s.len(),
{
}

proof fn lemma_seq_max_concat(a: Seq<int>, b: Seq<int>)
    ensures
        seq_max(a + b) == max3(seq_max(a), seq_max(b), 0),
    decreases b.len(),
{
    if b.len() == 0 {
        assert(a + b =~= a);
        lemma_seq_max_nonnegative(a);
    } else {
        assert(a + b =~= (a + b.drop_last()).push(b.last()));
        lemma_seq_max_concat(a, b.drop_last());
        lemma_seq_max_push(a + b.drop_last(), b.last());
    }
}

proof fn lemma_same_append(before: Seq<i64>, after: Seq<i64>, s: Seq<int>, added: Seq<int>)
    requires
        same_positions(before, s),
        after.len() == before.len() + added.len(),
        forall|i: int| 0 <= i < before.len() ==> after[i] == before[i],
        forall|i: int| 0 <= i < added.len() ==> after[before.len() + i] as int == #[trigger] added[i],
    ensures
        same_positions(after, s + added),
{
    assert forall|i: int| 0 <= i < (s + added).len() implies after[i] as int == #[trigger] (s + added)[i] by {
        if i >= s.len() {
            assert(after[before.len() + (i - s.len())] as int == added[i - s.len()]);
        }
    }
}

proof fn lemma_patch_bounds(k: int, height: int, width: int)
    requires
        0 <= k,
        1 <= height,
        1 <= width,
    ensures
        0 <= k / (height * width) <= k,
        0 <= (k / width) % height <= k,
        0 <= k % width <= k,
        1 <= height * width,
{
    assert(1 <= height * width) by (nonlinear_arith)
        requires
            1 <= height,
            1 <= width,
    ;
    assert(0 <= k / (height * width) <= k) by (nonlinear_arith)
        requires
            0 <= k,
            1 <= height * width,
    ;
    assert(0 <= k / width <= k) by (nonlinear_arith)
        requires
            0 <= k,
            1 <= width,
    ;
    assert((k / width) % height <= k / width) by (nonlinear_arith)
        requires
            0 <= k / width,
            1 <= height,
    ;
    assert(k % width <= k) by (nonlinear_arith)
        requires
            0 <= k,
            1 <= width,
    ;
}

fn larger(a: i64, b: i64) -> (m: i64)
    ensures
        m == if a >= b { a } else { b },
{
    if a >= b {
        a
    } else {
        b
    }
}

/// The three axes of a run: the text positions on all three for a text run,
/// else the image positions.
pub open spec fn run_positions(first: int, count: int, image: bool, height: int, width: int) -> (Seq<int>, Seq<int>, Seq<int>) {
    if image {
        image_positions(first, count, height, width)
    } else {
        (text_positions(first, count), text_positions(first, count), text_positions(first, count))
    }
}

/// Appends the positions of a run of `count` tokens from `first` on to each
/// axis and returns the largest of them, or 0 for none.
fn push_positions(
    temporal: &mut Vec<i64>,
    rows: &mut Vec<i64>,
    columns: &mut Vec<i64>,
    first: i64,
    count: i64,
    image: bool,
    height: i64,
    width: i64,
) -> (largest: i64)
    requires
        0 <= first <= 0x2000_0000_0000_0000,
        0 <= count <= 0x1000_0000_0000_0000,
        image ==> 1 <= height && 1 <= width && height * width <= 0x1000_0000_0000_0000,
    ensures
        ({
            let (t, r, c) = run_positions(first as int, count as int, image, height as int, width as int);
            &&& final(temporal)@.len() == old(temporal)@.len() + count
            &&& final(rows)@.len() == old(rows)@.len() + count
            &&& final(columns)@.len() == old(columns)@.len() + count
            &&& forall|i: int| 0 <= i < old(temporal)@.len() ==> final(temporal)@[i] == old(temporal)@[i]
            &&& forall|i: int| 0 <= i < old(rows)@.len() ==> final(rows)@[i] == old(rows)@[i]
            &&& forall|i: int| 0 <= i < old(columns)@.len() ==> final(columns)@[i] == old(columns)@[i]
            &&& forall|i: int| 0 <= i < count ==> final(temporal)@[old(temporal)@.len() + i] as int == #[trigger] t[i]
            &&& forall|i: int| 0 <= i < count ==> final(rows)@[old(rows)@.len() + i] as int == #[trigger] r[i]
            &&& forall|i: int| 0 <= i < count ==> final(columns)@[old(columns)@.len() + i] as int == #[trigger] c[i]
            &&& largest == max3(seq_max(t), seq_max(r), seq_max(c))
        }),
        0 <= largest <= first + count,
{
    let ghost t0 = temporal@;
    let ghost r0 = rows@;
    let ghost c0 = columns@;
    let ghost positions = run_positions(first as int, count as int, image, height as int, width as int);
    let mut k: i64 = 0;
    let mut largest: i64 = 0;
    while k < count
        invariant
            0 <= first <= 0x2000_0000_0000_0000,
            0 <= count <= 0x1000_0000_0000_0000,
            0 <= k <= count,
            image ==> 1 <= height && 1 <= width && height * width <= 0x1000_0000_0000_0000,
            positions == run_positions(first as int, count as int, image, height as int, width as int),
            temporal@.len() == t0.len() + k,
            rows@.len() == r0.len() + k,
            columns@.len() == c0.len() + k,
            forall|i: int| 0 <= i < t0.len() ==> temporal@[i] == t0[i],
            forall|i: int| 0 <= i < r0.len() ==> rows@[i] == r0[i],
            forall|i: int| 0 <= i < c0.len() ==> columns@[i] == c0[i],
            forall|i: int| 0 <= i < k ==> temporal@[t0.len() + i] as int == #[trigger] positions.0[i],
            forall|i: int| 0 <= i < k ==> rows@[r0.len() + i] as int == #[trigger] positions.1[i],
            forall|i: int| 0 <= i < k ==> columns@[c0.len() + i] as int == #[trigger] positions.2[i],
            largest == max3(seq_max(positions.0.take(k as int)), seq_max(positions.1.take(k as int)), seq_max(positions.2.take(k as int))),
            0 <= largest <= first + count,
        decreases count - k,
    {
        let (a, b, d) = if image {
            proof {
                lemma_patch_bounds(k as int, height as int, width as int);
            }
            let area = height * width;
            (first + k / area, first + (k / width) % height, first + k % width)
        } else {
            (first + k, first + k, first + k)
        };
        assert(positions.0[k as int] == a && positions.1[k as int] == b && positions.2[k as int] == d);
        temporal.push(a);
        rows.push(b);
        columns.push(d);
        proof {
            assert(positions.0.take(k + 1) =~= positions.0.take(k as int).push(a as int));
            assert(positions.1.take(k + 1) =~= positions.1.take(k as int).push(b as int));
            assert(positions.2.take(k + 1) =~= positions.2.take(k as int).push(d as int));
            lemma_seq_max_push(positions.0.take(k as int), a as int);
            lemma_seq_max_push(positions.1.take(k as int), b as int);
            lemma_seq_max_push(positions.2.take(k as int), d as int);
        }
        largest = larger(larger(larger(largest, a), b), d);
        k = k + 1;
    }
    proof {
        assert(positions.0.take(count as int) =~= positions.0);
        assert(positions.1.take(count as int) =~= positions.1);
        assert(positions.2.take(count as int) =~= positions.2);
    }
    largest
}

/// Lays out the rotary position ids of a PaddleOCR-VL prompt whose token
/// types are `token_types` (0 for text, 1 for image), for an image of
/// `grid` patches merged `merge_size` by `merge_size`: the positions of
/// `rope_layout` on each axis, and the offset from the prompt length to the
/// position after the largest.
pub fn rope_index(token_types: &Vec<i64>, grid: [i64; 3], merge_size: i64) -> (index: Result<RopeIndex, RopeError>)
    requires
        token_types@.len() <= 0x1000_0000_0000_0000,
        1 <= merge_size,
        0 <= grid[0],
        0 <= grid[1],
        0 <= grid[2],
        grid[0] * (grid[1] / merge_size) <= i64::MAX,
        grid[0] * (grid[1] / merge_size) * (grid[2] / merge_size) <= i64::MAX,
    ensures
        match (index, rope_layout(token_types@, grid, merge_size as int)) {
            (Ok(index), Ok(layout)) => {
                &&& same_positions(index.temporal@, layout.temporal)
                &&& same_positions(index.rows@, layout.rows)
                &&& same_positions(index.columns@, layout.columns)
                &&& index.delta == layout_max(layout) + 1 - token_types@.len()
            },
            (Err(error), Err(expected)) => error == expected,
            _ => false,
        },
{
    let n = token_types.len();
    let ghost types = token_types@;
    let frames = grid[0];
    let height = grid[1] / merge_size;
    let width = grid[2] / merge_size;
    let mut temporal: Vec<i64> = Vec::new();
    let mut rows: Vec<i64> = Vec::new();
    let mut columns: Vec<i64> = Vec::new();
    let mut current: i64 = 0;
    let mut image = false;
    let mut top: i64 = 0;
    let mut offset: usize = 0;
    let ghost mut acc = empty_layout();
    proof {
        assert(same_positions(temporal@, acc.temporal));
        assert(same_positions(rows@, acc.rows));
        assert(same_positions(columns@, acc.columns));
    }
    while offset < n
        invariant
            n == types.len(),
            types == token_types@,
            n <= 0x1000_0000_0000_0000,
            1 <= merge_size,
            (frames as int, height as int, width as int) == merged_grid(grid, merge_size as int),
            0 <= frames,
            0 <= height,
            0 <= width,
            0 <= frames * height <= i64::MAX,
            0 <= frames * height * width <= i64::MAX,
            0 <= offset <= n,
            layout_runs(types, grid, merge_size as int, 0, empty_layout()) == layout_runs(
                types,
                grid,
                merge_size as int,
                offset as int,
                acc,
            ),
            same_positions(temporal@, acc.temporal),
            same_positions(rows@, acc.rows),
            same_positions(columns@, acc.columns),
            acc.next == current,
            acc.has_image == image,
            0 <= current <= offset,
            top == layout_max(acc),
            0 <= top <= offset,
        decreases n - offset,
    {
        let modality = token_types[offset];
        let mut end = offset + 1;
        while end < n && token_types[end] == modality
            invariant
                n == types.len(),
                types == token_types@,
                0 <= offset < end <= n,
                modality == types[offset as int],
                run_end(types, offset as int, offset + 1) == run_end(types, offset as int, end as int),
            decreases n - end,
        {
            end = end + 1;
        }
        proof {
            lemma_run_end(types, offset as int, offset + 1);
        }
        assert(run_end(types, offset as int, offset + 1) == end);
        let count = (end - offset) as i64;
        if modality == 0 {
            let ghost text = text_positions(current as int, count as int);
            let ghost t_before = temporal@;
            let ghost r_before = rows@;
            let ghost c_before = columns@;
            let largest = push_positions(&mut temporal, &mut rows, &mut columns, current, count, false, 0, 0);
            proof {
                lemma_same_append(t_before, temporal@, acc.temporal, text);
                lemma_same_append(r_before, rows@, acc.rows, text);
                lemma_same_append(c_before, columns@, acc.columns, text);
                lemma_seq_max_concat(acc.temporal, text);
                lemma_seq_max_concat(acc.rows, text);
                lemma_seq_max_concat(acc.columns, text);
                acc = RopeLayout {
                    temporal: acc.temporal + text,
                    rows: acc.rows + text,
                    columns: acc.columns + text,
                    next: acc.next + count,
                    has_image: acc.has_image,
                };
            }
            top = larger(top, largest);
            current = current + count;
        } else if modality == 1 {
            if image {
                return Err(RopeError::MultipleImages);
            }
            if count != frames * height * width {
                return Err(RopeError::GridMismatch);
            }
            assert(1 <= height && 1 <= width && height * width <= count && height <= count && width <= count)
                by (nonlinear_arith)
                requires
                    count == frames * height * width,
                    1 <= count,
                    0 <= frames,
                    0 <= height,
                    0 <= width,
            ;
            let ghost (t, r, c) = image_positions(current as int, count as int, height as int, width as int);
            let ghost t_before = temporal@;
            let ghost r_before = rows@;
            let ghost c_before = columns@;
            let largest = push_positions(&mut temporal, &mut rows, &mut columns, current, count, true, height, width);
            proof {
                lemma_same_append(t_before, temporal@, acc.temporal, t);
                lemma_same_append(r_before, rows@, acc.rows, r);
                lemma_same_append(c_before, columns@, acc.columns, c);
                lemma_seq_max_concat(acc.temporal, t);
                lemma_seq_max_concat(acc.rows, r);
                lemma_seq_max_concat(acc.columns, c);
                acc = RopeLayout {
                    temporal: acc.temporal + t,
                    rows: acc.rows + r,
                    columns: acc.columns + c,
                    next: acc.next + if height >= width { height as int } else { width as int },
                    has_image: true,
                };
            }
            top = larger(top, largest);
            current = current + larger(height, width);
            image = true;
        } else {
            return Err(RopeError::UnsupportedModality(modality));
        }
        offset = end;
    }
    if !image {
        return Err(RopeError::NoImage);
    }
    Ok(RopeIndex { temporal, rows, columns, delta: top + 1 - n as i64 })
}

/// The row and column of each vision patch of an image of `grid` patches,
/// frame by frame and row by row.
pub fn vision_positions(grid: [i64; 3]) -> (positions: (Vec<i64>, Vec<i64>))
    requires
        0 <= grid[0],
        0 <= grid[1],
        0 <= grid[2],
        grid[0] * grid[1] <= i64::MAX,
        grid[0] * grid[1] * grid[2] <= 0x1000_0000_0000_0000,
    ensures
        ({
            let count = if grid[1] > 0 && grid[2] > 0 { grid[0] * grid[1] * grid[2] } else { 0 };
            let (_, r, c) = image_positions(0, count, grid[1] as int, grid[2] as int);
            &&& same_positions(positions.0@, r)
            &&& same_positions(positions.1@, c)
        }),
{
    let mut rows: Vec<i64> = Vec::new();
    let mut columns: Vec<i64> = Vec::new();
    let mut temporal: Vec<i64> = Vec::new();
    if grid[0] > 0 && grid[1] > 0 && grid[2] > 0 {
        assert(0 <= grid[0] * grid[1]) by (nonlinear_arith)
            requires
                0 <= grid[0],
                0 <= grid[1],
        ;
        assert(0 <= grid[0] * grid[1] * grid[2]) by (nonlinear_arith)
            requires
                0 <= grid[0] * grid[1],
                0 <= grid[2],
        ;
        assert(grid[1] * grid[2] <= grid[0] * grid[1] * grid[2]) by (nonlinear_arith)
            requires
                1 <= grid[0],
                0 <= grid[1],
                0 <= grid[2],
        ;
        let count = grid[0] * grid[1] * grid[2];
        let ghost (t, r, c) = image_positions(0, count as int, grid[1] as int, grid[2] as int);
        push_positions(&mut temporal, &mut rows, &mut columns, 0, count, true, grid[1], grid[2]);
        proof {
            lemma_same_append(Seq::empty(), rows@, Seq::empty(), r);
            lemma_same_append(Seq::empty(), columns@, Seq::empty(), c);
            assert(Seq::<int>::empty() + r =~= r);
            assert(Seq::<int>::empty() + c =~= c);
        }
    } else {
        proof {
            if grid[1] > 0 && grid[2] > 0 {
                assert(grid[0] == 0);
                assert(grid[0] * grid[1] * grid[2] == 0) by (nonlinear_arith)
                    requires
                        grid[0] == 0,
                ;
            }
            assert(same_positions(rows@, Seq::new(0, |k: int| 0 + (k / grid[2] as int) % grid[1] as int)));
            assert(same_positions(columns@, Seq::new(0, |k: int| 0 + k % grid[2] as int)));
        }
    }
    (rows, columns)
}

} // verus!
