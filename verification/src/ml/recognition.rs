use vstd::prelude::*;

verus! {

/// A height and a width in pixels.
#[derive(Clone, Copy, Debug, PartialEq, Eq, Structural)]
pub struct SizeDict {
    pub height: i64,
    pub width: i64,
}

/// The width a text line is resized to before recognition, in exact
/// arithmetic: the line keeps its aspect ratio at the model's input height
/// (rounded down), is never narrower than the model's input width unless the
/// line itself is, and never wider than `max_image_width`.
pub open spec fn recognition_width(size: SizeDict, max_image_width: int, height: int, width: int) -> int {
    let scaled = (size.height * width) / height;
    let target = if scaled > size.width {
        scaled
    } else {
        size.width as int
    };
    if target > max_image_width {
        max_image_width
    } else {
        let resized = (size.height * width + height - 1) / height;
        if target >= resized {
            resized
        } else {
            target
        }
    }
}

/// A text line at least as wide as the model input, once scaled to the
/// model's input height, and no wider than `max_image_width` there keeps
/// its aspect ratio: its width becomes `size.height * width / height`
/// (exactly, where that divides evenly, else rounded down). No line
/// comes out wider than `max_image_width`.
pub proof fn lemma_recognition_width_keeps_aspect(size: SizeDict, max_image_width: int, height: int, width: int)
    requires
        1 <= size.height,
        0 <= size.width,
        1 <= height,
        0 <= width,
    ensures
        recognition_width(size, max_image_width, height, width) <= max_image_width,
        size.width <= (size.height * width) / height <= max_image_width ==> recognition_width(
            size,
            max_image_width,
            height,
            width,
        ) == (size.height * width) / height,
        size.width <= (size.height * width) / height <= max_image_width && (size.height * width) % height == 0
            ==> recognition_width(size, max_image_width, height, width) * height == size.height * width,
{
    let n = size.height * width;
    assert(n >= 0) by (nonlinear_arith)
        requires
            n == size.height * width,
            1 <= size.height,
            0 <= width,
    ;
    vstd::arithmetic::div_mod::lemma_fundamental_div_mod(n, height);
    vstd::arithmetic::div_mod::lemma_mod_bound(n, height);
    let q = n / height;
    let c = (n + height - 1) / height;
    if n % height == 0 {
        assert(c == q) by (nonlinear_arith)
            requires
                n == height * q,
                c == (n + height - 1) / height,
                height >= 1,
        ;
        assert(q * height == n) by (nonlinear_arith)
            requires
                n == height * q,
        ;
    } else {
        assert(c == q + 1) by (nonlinear_arith)
            requires
                n == height * q + n % height,
                1 <= n % height < height,
                c == (n + height - 1) / height,
                height >= 1,
        ;
    }
}

/// The width a `height` by `width` text line is resized to before
/// recognition, for a model with input size `size`.
pub fn target_width(size: SizeDict, max_image_width: i64, height: i64, width: i64) -> (target: i64)
    requires
        1 <= size.height <= u32::MAX,
        0 <= size.width <= u32::MAX,
        1 <= height <= u32::MAX,
        0 <= width <= u32::MAX,
    ensures
        target == recognition_width(size, max_image_width as int, height as int, width as int),
        target <= max_image_width,
        size.width <= (size.height * width) / (height as int) <= max_image_width ==> target == (size.height
            * width) / (height as int),
{
    proof {
        lemma_recognition_width_keeps_aspect(size, max_image_width as int, height as int, width as int);
    }
    assert((size.height as i128) * (width as i128) <= 0xffff_ffff * 0xffff_ffff) by (nonlinear_arith)
        requires
            1 <= size.height <= u32::MAX,
            0 <= width <= u32::MAX,
    ;
    let product: i128 = (size.height as i128) * (width as i128);
    assert(0 <= product <= 0xffff_ffff * 0xffff_ffff) by (nonlinear_arith)
        requires
            product == size.height * width,
            1 <= size.height <= u32::MAX,
            0 <= width <= u32::MAX,
    ;
    let scaled: i128 = product / (height as i128);
    assert(scaled <= product) by (nonlinear_arith)
        requires
            scaled == product / (height as i128),
            product >= 0,
            height >= 1,
    ;
    let target: i128 = if scaled > size.width as i128 { scaled } else { size.width as i128 };
    if target > max_image_width as i128 {
        max_image_width
    } else {
        let resized: i128 = (product + (height as i128) - 1) / (height as i128);
        if target >= resized {
            resized as i64
        } else {
            target as i64
        }
    }
}

/// Whether position `p` of a best-path token sequence emits a character:
/// its token is no blank and does not repeat the previous position's.
pub open spec fn emits(indices: Seq<i64>, p: int) -> bool {
    indices[p] != 0 && (p == 0 || indices[p] != indices[p - 1])
}

/// Whether `index` names an entry of a character list of `len` entries.
pub open spec fn in_list(index: i64, len: int) -> bool {
    0 <= index < len
}

/// The text a best-path token sequence decodes to: the characters of the
/// emitting positions, in order.
pub open spec fn ctc_text(indices: Seq<i64>, characters: Seq<Seq<char>>, n: int) -> Seq<char>
    decreases n,
{
    if n <= 0 {
        Seq::empty()
    } else if emits(indices, n - 1) {
        ctc_text(indices, characters, n - 1) + characters[indices[n - 1] as int]
    } else {
        ctc_text(indices, characters, n - 1)
    }
}

/// The emitting positions among the first `n`, in order.
pub open spec fn ctc_positions(indices: Seq<i64>, n: int) -> Seq<int>
    decreases n,
{
    if n <= 0 {
        Seq::empty()
    } else if emits(indices, n - 1) {
        ctc_positions(indices, n - 1).push(n - 1)
    } else {
        ctc_positions(indices, n - 1)
    }
}

/// A best-path decoding: the text and the positions whose scores it keeps.
#[derive(Clone, Debug)]
pub struct CtcDecoding {
    pub text: String,
    pub positions: Vec<usize>,
}

/// Why a best-path token sequence cannot be decoded.
#[derive(Clone, Copy, Debug, PartialEq, Eq, Structural)]
pub enum CtcError {
    /// An emitting position holds a token that names no character.
    InvalidToken(i64),
}

/// Collapses a best-path token sequence: drops the blank token 0 and every
/// repeat of the previous position's token, and spells out the rest from
/// `characters`. Fails on the first emitting token that names no character.
pub fn ctc_decode(indices: &Vec<i64>, characters: &Vec<String>) -> (decoded: Result<CtcDecoding, CtcError>)
    ensures
        match decoded {
            Ok(decoding) => {
                &&& forall|p: int| 0 <= p < indices@.len() && emits(indices@, p) ==> in_list(
                    #[trigger] indices@[p],
                    characters@.len() as int,
                )
                &&& decoding.text@ == ctc_text(
                    indices@,
                    characters@.map_values(|c: String| c@),
                    indices@.len() as int,
                )
                &&& decoding.positions@.map_values(|p: usize| p as int) == ctc_positions(
                    indices@,
                    indices@.len() as int,
                )
            },
            Err(CtcError::InvalidToken(index)) => exists|p: int|
                0 <= p < indices@.len() && emits(indices@, p) && #[trigger] indices@[p] == index
                    && !in_list(index, characters@.len() as int) && forall|q: int|
                    0 <= q < p && emits(indices@, q) ==> in_list(
                        #[trigger] indices@[q],
                        characters@.len() as int,
                    ),
        },
{
    let ghost spelled = characters@.map_values(|c: String| c@);
    let mut text = String::new();
    let mut positions: Vec<usize> = Vec::new();
    let mut p: usize = 0;
    while p < indices.len()
        invariant
            p <= indices@.len(),
            spelled == characters@.map_values(|c: String| c@),
            forall|q: int| 0 <= q < p && emits(indices@, q) ==> in_list(
                #[trigger] indices@[q],
                characters@.len() as int,
            ),
            text@ == ctc_text(indices@, spelled, p as int),
            positions@.map_values(|x: usize| x as int) == ctc_positions(indices@, p as int),
        decreases indices@.len() - p,
    {
        let index = indices[p];
        let emitting = index != 0 && (p == 0 || index != indices[p - 1]);
        if emitting {
            if index < 0 || index as u64 >= characters.len() as u64 {
                return Err(CtcError::InvalidToken(index));
            }
            text.append(characters[index as usize].as_str());
            let ghost before = positions@;
            positions.push(p);
            proof {
                assert(positions@.map_values(|x: usize| x as int) =~= before.map_values(
                    |x: usize| x as int,
                ).push(p as int));
            }
        }
        p = p + 1;
    }
    Ok(CtcDecoding { text, positions })
}

} // verus!
