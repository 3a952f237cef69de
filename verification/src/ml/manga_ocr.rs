use vstd::prelude::*;

use crate::ml::raster::RgbPixels;
use crate::ml::resize::{Resampling, resampled, resize_rgb};

use crate::text::{
    char_from_scalar, chars_equal, chars_of, is_white_space, string_from_chars, white_space,
};

verus! {

// ---------------------------------------------------------------------------
// Text post-processing (manga-ocr's `post_process`, with jaconv's h2z)
// ---------------------------------------------------------------------------

/// `s` without its white-space characters.
pub open spec fn without_white_space(s: Seq<char>) -> Seq<char>
    decreases s.len(),
{
    if s.len() == 0 {
        s
    } else {
        without_white_space(s.drop_last()) + if is_white_space(s.last()) {
            Seq::empty()
        } else {
            seq![s.last()]
        }
    }
}

/// `s` with each horizontal ellipsis spelled as three full stops.
pub open spec fn ellipses_spelled_out(s: Seq<char>) -> Seq<char>
    decreases s.len(),
{
    if s.len() == 0 {
        s
    } else {
        ellipses_spelled_out(s.drop_last()) + if s.last() == '\u{2026}' {
            seq!['.', '.', '.']
        } else {
            seq![s.last()]
        }
    }
}

pub open spec fn is_dot(c: char) -> bool {
    c == '.' || c == '\u{30fb}'
}

/// Appends a run of dots: a run of two or more becomes that many full stops,
/// a single dot stays as it is.
pub open spec fn flushed(out: Seq<char>, run: Seq<char>) -> Seq<char> {
    if run.len() >= 2 {
        out + Seq::new(run.len(), |i: int| '.')
    } else {
        out + run
    }
}

/// Scans `s` left to right: the text emitted so far and the pending dot run.
pub open spec fn dot_scan(s: Seq<char>) -> (Seq<char>, Seq<char>)
    decreases s.len(),
{
    if s.len() == 0 {
        (Seq::empty(), Seq::empty())
    } else {
        let (out, run) = dot_scan(s.drop_last());
        if is_dot(s.last()) {
            (out, run.push(s.last()))
        } else {
            (flushed(out, run).push(s.last()), Seq::empty())
        }
    }
}

/// `s` with every run of two or more dots (full stops or katakana middle
/// dots) replaced by as many full stops.
pub open spec fn dots_normalized(s: Seq<char>) -> Seq<char> {
    flushed(dot_scan(s).0, dot_scan(s).1)
}

/// Fullwidth katakana for the halfwidth forms U+FF61..=U+FF9D.
pub open spec fn katakana_table() -> Seq<char> {
    seq![
        '。', '「', '」', '、', '・', 'ヲ', 'ァ', 'ィ', 'ゥ', 'ェ', 'ォ', 'ャ', 'ュ', 'ョ', 'ッ',
        'ー', 'ア', 'イ', 'ウ', 'エ', 'オ', 'カ', 'キ', 'ク', 'ケ', 'コ', 'サ', 'シ', 'ス', 'セ',
        'ソ', 'タ', 'チ', 'ツ', 'テ', 'ト', 'ナ', 'ニ', 'ヌ', 'ネ', 'ノ', 'ハ', 'ヒ', 'フ', 'ヘ',
        'ホ', 'マ', 'ミ', 'ム', 'メ', 'モ', 'ヤ', 'ユ', 'ヨ', 'ラ', 'リ', 'ル', 'レ', 'ロ', 'ワ',
        'ン',
    ]
}

pub open spec fn voiced_bases() -> Seq<char> {
    seq![
        'ウ', 'カ', 'キ', 'ク', 'ケ', 'コ', 'サ', 'シ', 'ス', 'セ', 'ソ', 'タ', 'チ', 'ツ', 'テ',
        'ト', 'ハ', 'ヒ', 'フ', 'ヘ', 'ホ',
    ]
}

pub open spec fn voiced_forms() -> Seq<char> {
    seq![
        'ヴ', 'ガ', 'ギ', 'グ', 'ゲ', 'ゴ', 'ザ', 'ジ', 'ズ', 'ゼ', 'ゾ', 'ダ', 'ヂ', 'ヅ', 'デ',
        'ド', 'バ', 'ビ', 'ブ', 'ベ', 'ボ',
    ]
}

pub open spec fn semi_voiced_bases() -> Seq<char> {
    seq!['ハ', 'ヒ', 'フ', 'ヘ', 'ホ']
}

pub open spec fn semi_voiced_forms() -> Seq<char> {
    seq!['パ', 'ピ', 'プ', 'ペ', 'ポ']
}

/// The entry of `forms` at the first position where `bases` holds `c`.
pub open spec fn lookup(bases: Seq<char>, forms: Seq<char>, c: char) -> Option<char>
    decreases bases.len(),
{
    if bases.len() == 0 || forms.len() == 0 {
        None
    } else if bases[0] == c {
        Some(forms[0])
    } else {
        lookup(bases.drop_first(), forms.drop_first(), c)
    }
}

/// The precomposed katakana for `base` followed by the halfwidth voiced
/// (U+FF9E) or, otherwise, semi-voiced sound mark.
pub open spec fn composed(base: char, mark: char) -> Option<char> {
    if mark == '\u{ff9e}' {
        lookup(voiced_bases(), voiced_forms(), base)
    } else {
        lookup(semi_voiced_bases(), semi_voiced_forms(), base)
    }
}

pub open spec fn is_sound_mark(c: char) -> bool {
    c == '\u{ff9e}' || c == '\u{ff9f}'
}

pub open spec fn is_halfwidth_katakana(c: char) -> bool {
    0xff61 <= c as u32 <= 0xff9d
}

pub open spec fn is_printable_ascii(c: char) -> bool {
    0x21 <= c as u32 <= 0x7e
}

/// One step of the halfwidth-to-fullwidth conversion.
pub open spec fn fullwidth_step(out: Seq<char>, c: char) -> Seq<char> {
    if is_printable_ascii(c) {
        out.push(((c as u32) + 0xfee0) as char)
    } else if c == ' ' {
        out.push('\u{3000}')
    } else if is_sound_mark(c) {
        if out.len() > 0 && composed(out.last(), c) is Some {
            out.drop_last().push(composed(out.last(), c)->0)
        } else {
            out.push(c)
        }
    } else if is_halfwidth_katakana(c) {
        out.push(katakana_table()[(c as u32) - 0xff61])
    } else {
        out.push(c)
    }
}

/// jaconv's `h2z(kana=True, ascii=True, digit=True)`: printable ASCII and
/// space become fullwidth, halfwidth katakana become fullwidth katakana, and
/// a sound mark joins the katakana before it where a precomposed form exists.
pub open spec fn fullwidth(s: Seq<char>) -> Seq<char>
    decreases s.len(),
{
    if s.len() == 0 {
        s
    } else {
        fullwidth_step(fullwidth(s.drop_last()), s.last())
    }
}

/// The whole manga-ocr text clean-up.
pub open spec fn post_processed(s: Seq<char>) -> Seq<char> {
    fullwidth(dots_normalized(ellipses_spelled_out(without_white_space(s))))
}

// ---------------------------------------------------------------------------
// Cleaning twice gives the same text as cleaning once
// ---------------------------------------------------------------------------

/// A character the clean-up keeps as it is wherever it stands (a sound mark
/// still may join the character before it).
pub open spec fn settled(c: char) -> bool {
    &&& !is_white_space(c)
    &&& c != '\u{2026}'
    &&& !is_printable_ascii(c)
    &&& !is_halfwidth_katakana(c)
}

/// A character that may enter the dot and width steps of the clean-up:
/// no white space, no ellipsis, and no halfwidth middle dot, which widens
/// into a katakana middle dot.
pub open spec fn admissible(c: char) -> bool {
    !is_white_space(c) && c != '\u{2026}' && c != '\u{ff65}'
}

/// No two katakana middle dots stand side by side.
pub open spec fn single_middle_dots(t: Seq<char>) -> bool {
    forall|i: int| 0 < i < t.len() ==> !(t[i - 1] == '\u{30fb}' && #[trigger] t[i] == '\u{30fb}')
}

/// Every character is settled, and no sound mark can join the character
/// before it.
pub open spec fn width_stable(t: Seq<char>) -> bool {
    forall|i: int|
        0 <= i < t.len() ==> settled(#[trigger] t[i]) && (is_sound_mark(t[i]) && i > 0 ==> composed(t[i - 1], t[i]) is None)
}

pub open spec fn all_admissible(t: Seq<char>) -> bool {
    forall|i: int| 0 <= i < t.len() ==> admissible(#[trigger] t[i])
}

/// What the clean-up needs of a widened katakana: settled, no sound mark,
/// and a middle dot only for the halfwidth middle dot (entry 4).
pub open spec fn table_entry_fits(c: char, i: int) -> bool {
    settled(c) && !is_sound_mark(c) && (c == '\u{30fb}' ==> i == 4)
}

/// What the clean-up needs of a composed katakana: settled, no sound mark
/// and no middle dot.
pub open spec fn composed_form_fits(c: char) -> bool {
    settled(c) && !is_sound_mark(c) && c != '\u{30fb}'
}

proof fn lemma_table_entries()
    ensures
        katakana_table().len() == 61,
        forall|i: int| 0 <= i < 61 ==> table_entry_fits(#[trigger] katakana_table()[i], i),
{
    assert(katakana_table()[0] == '。' && katakana_table()[1] == '「' && katakana_table()[2] == '」' && katakana_table()[3] == '、' && katakana_table()[4] == '・' && katakana_table()[5] == 'ヲ' && katakana_table()[6] == 'ァ' && katakana_table()[7] == 'ィ' && katakana_table()[8] == 'ゥ' && katakana_table()[9] == 'ェ' && katakana_table()[10] == 'ォ' && katakana_table()[11] == 'ャ' && katakana_table()[12] == 'ュ' && katakana_table()[13] == 'ョ' && katakana_table()[14] == 'ッ' && katakana_table()[15] == 'ー' && katakana_table()[16] == 'ア' && katakana_table()[17] == 'イ' && katakana_table()[18] == 'ウ' && katakana_table()[19] == 'エ' && katakana_table()[20] == 'オ' && katakana_table()[21] == 'カ' && katakana_table()[22] == 'キ' && katakana_table()[23] == 'ク' && katakana_table()[24] == 'ケ' && katakana_table()[25] == 'コ' && katakana_table()[26] == 'サ' && katakana_table()[27] == 'シ' && katakana_table()[28] == 'ス' && katakana_table()[29] == 'セ' && katakana_table()[30] == 'ソ' && katakana_table()[31] == 'タ' && katakana_table()[32] == 'チ' && katakana_table()[33] == 'ツ' && katakana_table()[34] == 'テ' && katakana_table()[35] == 'ト' && katakana_table()[36] == 'ナ' && katakana_table()[37] == 'ニ' && katakana_table()[38] == 'ヌ' && katakana_table()[39] == 'ネ' && katakana_table()[40] == 'ノ' && katakana_table()[41] == 'ハ' && katakana_table()[42] == 'ヒ' && katakana_table()[43] == 'フ' && katakana_table()[44] == 'ヘ' && katakana_table()[45] == 'ホ' && katakana_table()[46] == 'マ' && katakana_table()[47] == 'ミ' && katakana_table()[48] == 'ム' && katakana_table()[49] == 'メ' && katakana_table()[50] == 'モ' && katakana_table()[51] == 'ヤ' && katakana_table()[52] == 'ユ' && katakana_table()[53] == 'ヨ' && katakana_table()[54] == 'ラ' && katakana_table()[55] == 'リ' && katakana_table()[56] == 'ル' && katakana_table()[57] == 'レ' && katakana_table()[58] == 'ロ' && katakana_table()[59] == 'ワ' && katakana_table()[60] == 'ン');
    assert forall|i: int| 0 <= i < 61 implies table_entry_fits(#[trigger] katakana_table()[i], i) by {
        if i == 0 {
        } else if i == 1 {
        } else if i == 2 {
        } else if i == 3 {
        } else if i == 4 {
        } else if i == 5 {
        } else if i == 6 {
        } else if i == 7 {
        } else if i == 8 {
        } else if i == 9 {
        } else if i == 10 {
        } else if i == 11 {
        } else if i == 12 {
        } else if i == 13 {
        } else if i == 14 {
        } else if i == 15 {
        } else if i == 16 {
        } else if i == 17 {
        } else if i == 18 {
        } else if i == 19 {
        } else if i == 20 {
        } else if i == 21 {
        } else if i == 22 {
        } else if i == 23 {
        } else if i == 24 {
        } else if i == 25 {
        } else if i == 26 {
        } else if i == 27 {
        } else if i == 28 {
        } else if i == 29 {
        } else if i == 30 {
        } else if i == 31 {
        } else if i == 32 {
        } else if i == 33 {
        } else if i == 34 {
        } else if i == 35 {
        } else if i == 36 {
        } else if i == 37 {
        } else if i == 38 {
        } else if i == 39 {
        } else if i == 40 {
        } else if i == 41 {
        } else if i == 42 {
        } else if i == 43 {
        } else if i == 44 {
        } else if i == 45 {
        } else if i == 46 {
        } else if i == 47 {
        } else if i == 48 {
        } else if i == 49 {
        } else if i == 50 {
        } else if i == 51 {
        } else if i == 52 {
        } else if i == 53 {
        } else if i == 54 {
        } else if i == 55 {
        } else if i == 56 {
        } else if i == 57 {
        } else if i == 58 {
        } else if i == 59 {
        } else if i == 60 {
        }
    }
}

proof fn lemma_forms_entries()
    ensures
        voiced_forms().len() == 21,
        semi_voiced_forms().len() == 5,
        forall|i: int| 0 <= i < 21 ==> composed_form_fits(#[trigger] voiced_forms()[i]),
        forall|i: int| 0 <= i < 5 ==> composed_form_fits(#[trigger] semi_voiced_forms()[i]),
{
    assert(voiced_forms()[0] == 'ヴ' && voiced_forms()[1] == 'ガ' && voiced_forms()[2] == 'ギ' && voiced_forms()[3] == 'グ' && voiced_forms()[4] == 'ゲ' && voiced_forms()[5] == 'ゴ' && voiced_forms()[6] == 'ザ' && voiced_forms()[7] == 'ジ' && voiced_forms()[8] == 'ズ' && voiced_forms()[9] == 'ゼ' && voiced_forms()[10] == 'ゾ' && voiced_forms()[11] == 'ダ' && voiced_forms()[12] == 'ヂ' && voiced_forms()[13] == 'ヅ' && voiced_forms()[14] == 'デ' && voiced_forms()[15] == 'ド' && voiced_forms()[16] == 'バ' && voiced_forms()[17] == 'ビ' && voiced_forms()[18] == 'ブ' && voiced_forms()[19] == 'ベ' && voiced_forms()[20] == 'ボ');
    assert(semi_voiced_forms()[0] == 'パ' && semi_voiced_forms()[1] == 'ピ' && semi_voiced_forms()[2] == 'プ' && semi_voiced_forms()[3] == 'ペ' && semi_voiced_forms()[4] == 'ポ');
    assert forall|i: int| 0 <= i < 21 implies composed_form_fits(#[trigger] voiced_forms()[i]) by {
        if i == 0 {
        } else if i == 1 {
        } else if i == 2 {
        } else if i == 3 {
        } else if i == 4 {
        } else if i == 5 {
        } else if i == 6 {
        } else if i == 7 {
        } else if i == 8 {
        } else if i == 9 {
        } else if i == 10 {
        } else if i == 11 {
        } else if i == 12 {
        } else if i == 13 {
        } else if i == 14 {
        } else if i == 15 {
        } else if i == 16 {
        } else if i == 17 {
        } else if i == 18 {
        } else if i == 19 {
        } else if i == 20 {
        }
    }
    assert forall|i: int| 0 <= i < 5 implies composed_form_fits(#[trigger] semi_voiced_forms()[i]) by {
        if i == 0 {
        } else if i == 1 {
        } else if i == 2 {
        } else if i == 3 {
        } else if i == 4 {
        }
    }
}

proof fn lemma_lookup_in_forms(bases: Seq<char>, forms: Seq<char>, c: char)
    ensures
        lookup(bases, forms, c) matches Some(x) ==> exists|k: int| 0 <= k < forms.len() && forms[k] == x,
    decreases bases.len(),
{
    if bases.len() == 0 || forms.len() == 0 {
    } else if bases[0] == c {
        assert(forms[0] == forms[0]);
    } else {
        lemma_lookup_in_forms(bases.drop_first(), forms.drop_first(), c);
        if let Some(x) = lookup(bases, forms, c) {
            let k = choose|k: int| 0 <= k < forms.drop_first().len() && forms.drop_first()[k] == x;
            assert(forms[k + 1] == x);
        }
    }
}

/// A composed katakana is settled, no sound mark and no middle dot.
proof fn lemma_composed_settled(base: char, mark: char)
    ensures
        composed(base, mark) matches Some(x) ==> settled(x) && !is_sound_mark(x) && x != '\u{30fb}',
{
    lemma_forms_entries();
    lemma_lookup_in_forms(voiced_bases(), voiced_forms(), base);
    lemma_lookup_in_forms(semi_voiced_bases(), semi_voiced_forms(), base);
    if let Some(x) = composed(base, mark) {
        if mark == '\u{ff9e}' {
            let k = choose|k: int| 0 <= k < voiced_forms().len() && voiced_forms()[k] == x;
            assert(composed_form_fits(voiced_forms()[k]));
        } else {
            let k = choose|k: int| 0 <= k < semi_voiced_forms().len() && semi_voiced_forms()[k] == x;
            assert(composed_form_fits(semi_voiced_forms()[k]));
        }
    }
}

/// Appending a settled character that joins nothing and puts no middle dot
/// beside another keeps text width-stable with middle dots apart.
proof fn lemma_push_stable(f: Seq<char>, x: char)
    requires
        width_stable(f),
        single_middle_dots(f),
        settled(x),
        is_sound_mark(x) && f.len() > 0 ==> composed(f.last(), x) is None,
        f.len() > 0 && f.last() == '\u{30fb}' ==> x != '\u{30fb}',
    ensures
        width_stable(f.push(x)),
        single_middle_dots(f.push(x)),
{
    let out = f.push(x);
    assert forall|i: int| 0 <= i < out.len() implies settled(#[trigger] out[i]) && (is_sound_mark(out[i]) && i > 0
        ==> composed(out[i - 1], out[i]) is None) by {
        if i < f.len() {
            assert(out[i] == f[i]);
            if i > 0 {
                assert(out[i - 1] == f[i - 1]);
            }
        } else if i > 0 {
            assert(out[i - 1] == f.last());
        }
    }
    assert forall|i: int| 0 < i < out.len() implies !(out[i - 1] == '\u{30fb}' && #[trigger] out[i] == '\u{30fb}') by {
        if i < f.len() {
            assert(out[i] == f[i] && out[i - 1] == f[i - 1]);
        } else {
            assert(out[i - 1] == f.last());
        }
    }
}

/// A prefix of width-stable text with middle dots apart is so too.
proof fn lemma_prefix_stable(f: Seq<char>)
    requires
        width_stable(f),
        single_middle_dots(f),
        f.len() > 0,
    ensures
        width_stable(f.drop_last()),
        single_middle_dots(f.drop_last()),
{
    let p = f.drop_last();
    assert forall|i: int| 0 <= i < p.len() implies settled(#[trigger] p[i]) && (is_sound_mark(p[i]) && i > 0
        ==> composed(p[i - 1], p[i]) is None) by {
        assert(p[i] == f[i]);
        if i > 0 {
            assert(p[i - 1] == f[i - 1]);
        }
    }
    assert forall|i: int| 0 < i < p.len() implies !(p[i - 1] == '\u{30fb}' && #[trigger] p[i] == '\u{30fb}') by {
        assert(p[i] == f[i] && p[i - 1] == f[i - 1]);
    }
}

/// One widening step after width-stable text keeps it width-stable with
/// middle dots apart, where the character puts no middle dot beside another.
proof fn lemma_fullwidth_step_stable(f: Seq<char>, c: char)
    requires
        width_stable(f),
        single_middle_dots(f),
        admissible(c),
        f.len() > 0 && f.last() == '\u{30fb}' ==> c != '\u{30fb}',
    ensures
        width_stable(fullwidth_step(f, c)),
        single_middle_dots(fullwidth_step(f, c)),
        fullwidth_step(f, c).len() > 0,
        fullwidth_step(f, c).last() == '\u{30fb}' ==> c == '\u{30fb}',
{
    if is_printable_ascii(c) {
        let x = ((c as u32) + 0xfee0) as char;
        lemma_push_stable(f, x);
    } else if is_sound_mark(c) {
        if f.len() > 0 && composed(f.last(), c) is Some {
            let x = composed(f.last(), c)->0;
            lemma_composed_settled(f.last(), c);
            lemma_prefix_stable(f);
            lemma_push_stable(f.drop_last(), x);
        } else {
            lemma_push_stable(f, c);
        }
    } else if is_halfwidth_katakana(c) {
        let k = (c as u32) - 0xff61;
        lemma_table_entries();
        assert(c as u32 != 0xff65);
        assert(table_entry_fits(katakana_table()[k as int], k as int));
        lemma_push_stable(f, katakana_table()[k as int]);
    } else {
        lemma_push_stable(f, c);
    }
}

/// Widening admissible text with no two middle dots side by side gives
/// width-stable text with no two middle dots side by side.
proof fn lemma_fullwidth_stable(d: Seq<char>)
    requires
        all_admissible(d),
        single_middle_dots(d),
    ensures
        width_stable(fullwidth(d)),
        single_middle_dots(fullwidth(d)),
        fullwidth(d).len() > 0 && fullwidth(d).last() == '\u{30fb}' ==> d.len() > 0 && d.last() == '\u{30fb}',
    decreases d.len(),
{
    if d.len() > 0 {
        let p = d.drop_last();
        let c = d.last();
        assert(all_admissible(p)) by {
            assert forall|i: int| 0 <= i < p.len() implies admissible(#[trigger] p[i]) by {
                assert(p[i] == d[i]);
            }
        }
        assert(single_middle_dots(p)) by {
            assert forall|i: int| 0 < i < p.len() implies !(p[i - 1] == '\u{30fb}' && #[trigger] p[i] == '\u{30fb}') by {
                assert(p[i] == d[i] && p[i - 1] == d[i - 1]);
            }
        }
        lemma_fullwidth_stable(p);
        let f = fullwidth(p);
        assert(admissible(d[d.len() - 1]));
        if f.len() > 0 && f.last() == '\u{30fb}' && c == '\u{30fb}' {
            assert(d[d.len() - 2] == p.last());
            assert(false);
        }
        lemma_fullwidth_step_stable(f, c);
    }
}

/// Width-stable text widens to itself.
proof fn lemma_fullwidth_fixed(t: Seq<char>)
    requires
        width_stable(t),
    ensures
        fullwidth(t) == t,
    decreases t.len(),
{
    if t.len() > 0 {
        let p = t.drop_last();
        assert(width_stable(p)) by {
            assert forall|i: int| 0 <= i < p.len() implies settled(#[trigger] p[i]) && (is_sound_mark(p[i]) && i > 0
                ==> composed(p[i - 1], p[i]) is None) by {
                assert(p[i] == t[i]);
                if i > 0 {
                    assert(p[i - 1] == t[i - 1]);
                }
            }
        }
        lemma_fullwidth_fixed(p);
        assert(settled(t[t.len() - 1]));
        if t.len() > 1 {
            assert(p.last() == t[t.len() - 2]);
        }
        assert(fullwidth(t) =~= p.push(t.last()));
    }
}

/// Dropping white space keeps every other character, and is the identity on
/// text without white space.
proof fn lemma_without_white_space(s: Seq<char>)
    ensures
        forall|i: int| 0 <= i < without_white_space(s).len() ==> !is_white_space(#[trigger] without_white_space(s)[i])
            && s.contains(without_white_space(s)[i]),
        (forall|i: int| 0 <= i < s.len() ==> !is_white_space(#[trigger] s[i])) ==> without_white_space(s) == s,
    decreases s.len(),
{
    if s.len() > 0 {
        let p = s.drop_last();
        lemma_without_white_space(p);
        let w = without_white_space(s);
        let wp = without_white_space(p);
        assert forall|i: int| 0 <= i < w.len() implies !is_white_space(#[trigger] w[i]) && s.contains(w[i]) by {
            if i < wp.len() {
                assert(w[i] == wp[i]);
                let j = choose|j: int| 0 <= j < p.len() && p[j] == wp[i];
                assert(s[j] == p[j]);
            } else {
                assert(w[i] == s.last());
                assert(s[s.len() - 1] == s.last());
            }
        }
        if forall|i: int| 0 <= i < s.len() ==> !is_white_space(#[trigger] s[i]) {
            assert forall|i: int| 0 <= i < p.len() implies !is_white_space(#[trigger] p[i]) by {
                assert(p[i] == s[i]);
            }
            assert(!is_white_space(s[s.len() - 1]));
            assert(w =~= s);
        }
    }
}

/// Spelling out ellipses leaves no ellipsis and brings in only full stops,
/// and is the identity on text without ellipses.
proof fn lemma_ellipses(s: Seq<char>)
    ensures
        forall|i: int|
            0 <= i < ellipses_spelled_out(s).len() ==> #[trigger] ellipses_spelled_out(s)[i] != '\u{2026}' && (
            ellipses_spelled_out(s)[i] == '.' || s.contains(ellipses_spelled_out(s)[i])),
        (forall|i: int| 0 <= i < s.len() ==> #[trigger] s[i] != '\u{2026}') ==> ellipses_spelled_out(s) == s,
    decreases s.len(),
{
    if s.len() > 0 {
        let p = s.drop_last();
        lemma_ellipses(p);
        let e = ellipses_spelled_out(s);
        let ep = ellipses_spelled_out(p);
        assert forall|i: int| 0 <= i < e.len() implies #[trigger] e[i] != '\u{2026}' && (e[i] == '.' || s.contains(e[i])) by {
            if i < ep.len() {
                assert(e[i] == ep[i]);
                if ep[i] != '.' {
                    let j = choose|j: int| 0 <= j < p.len() && p[j] == ep[i];
                    assert(s[j] == p[j]);
                }
            } else if s.last() != '\u{2026}' {
                assert(e[i] == s.last());
                assert(s[s.len() - 1] == s.last());
            }
        }
        if forall|i: int| 0 <= i < s.len() ==> #[trigger] s[i] != '\u{2026}' {
            assert forall|i: int| 0 <= i < p.len() implies #[trigger] p[i] != '\u{2026}' by {
                assert(p[i] == s[i]);
            }
            assert(s[s.len() - 1] != '\u{2026}');
            assert(e =~= s);
        }
    }
}

/// What the dot scan keeps: admissible characters, a pending run of dots
/// only, no two middle dots side by side, and emitted text that ends in no dot.
proof fn lemma_dot_scan(s: Seq<char>)
    requires
        all_admissible(s),
    ensures
        all_admissible(dot_scan(s).0),
        all_admissible(dot_scan(s).1),
        single_middle_dots(dot_scan(s).0),
        forall|i: int| 0 <= i < dot_scan(s).1.len() ==> is_dot(#[trigger] dot_scan(s).1[i]),
        dot_scan(s).0.len() > 0 ==> !is_dot(dot_scan(s).0.last()),
    decreases s.len(),
{
    if s.len() > 0 {
        let p = s.drop_last();
        assert(all_admissible(p)) by {
            assert forall|i: int| 0 <= i < p.len() implies admissible(#[trigger] p[i]) by {
                assert(p[i] == s[i]);
            }
        }
        lemma_dot_scan(p);
        let (out, run) = dot_scan(p);
        let c = s.last();
        assert(admissible(s[s.len() - 1]));
        if is_dot(c) {
            let r2 = run.push(c);
            assert forall|i: int| 0 <= i < r2.len() implies admissible(#[trigger] r2[i]) && is_dot(r2[i]) by {
                if i < run.len() {
                    assert(r2[i] == run[i]);
                }
            }
        } else {
            let fl = flushed(out, run);
            lemma_flushed(out, run);
            let o2 = fl.push(c);
            assert forall|i: int| 0 <= i < o2.len() implies admissible(#[trigger] o2[i]) by {
                if i < fl.len() {
                    assert(o2[i] == fl[i]);
                }
            }
            assert forall|i: int| 0 < i < o2.len() implies !(o2[i - 1] == '\u{30fb}' && #[trigger] o2[i] == '\u{30fb}') by {
                if i < fl.len() {
                    assert(o2[i] == fl[i] && o2[i - 1] == fl[i - 1]);
                }
            }
        }
    }
}

/// Flushing a dot run after text ending in no dot keeps characters
/// admissible and middle dots apart.
proof fn lemma_flushed(out: Seq<char>, run: Seq<char>)
    requires
        all_admissible(out),
        all_admissible(run),
        single_middle_dots(out),
        forall|i: int| 0 <= i < run.len() ==> is_dot(#[trigger] run[i]),
        out.len() > 0 ==> !is_dot(out.last()),
    ensures
        all_admissible(flushed(out, run)),
        single_middle_dots(flushed(out, run)),
{
    let fl = flushed(out, run);
    if run.len() >= 2 {
        let dots = Seq::new(run.len(), |i: int| '.');
        assert(fl == out + dots);
        assert forall|i: int| 0 <= i < fl.len() implies admissible(#[trigger] fl[i]) by {
            if i < out.len() {
                assert(fl[i] == out[i]);
            } else {
                assert(fl[i] == '.');
            }
        }
        assert forall|i: int| 0 < i < fl.len() implies !(fl[i - 1] == '\u{30fb}' && #[trigger] fl[i] == '\u{30fb}') by {
            if i < out.len() {
                assert(fl[i] == out[i] && fl[i - 1] == out[i - 1]);
            } else {
                assert(fl[i] == '.');
            }
        }
    } else {
        assert(fl == out + run);
        assert forall|i: int| 0 <= i < fl.len() implies admissible(#[trigger] fl[i]) by {
            if i < out.len() {
                assert(fl[i] == out[i]);
            } else {
                assert(fl[i] == run[i - out.len()]);
            }
        }
        assert forall|i: int| 0 < i < fl.len() implies !(fl[i - 1] == '\u{30fb}' && #[trigger] fl[i] == '\u{30fb}') by {
            if i < out.len() {
                assert(fl[i] == out[i] && fl[i - 1] == out[i - 1]);
            } else {
                assert(i == out.len());
                assert(fl[i - 1] == out.last());
                assert(is_dot(run[0]));
            }
        }
    }
}

/// Text with no full stop and no two middle dots side by side scans into
/// itself, with at most one dot pending.
proof fn lemma_dot_scan_fixed(t: Seq<char>)
    requires
        forall|i: int| 0 <= i < t.len() ==> #[trigger] t[i] != '.',
        single_middle_dots(t),
    ensures
        dot_scan(t).0 + dot_scan(t).1 == t,
        dot_scan(t).1.len() <= 1,
        dot_scan(t).1.len() == 1 ==> dot_scan(t).1[0] == t.last(),
    decreases t.len(),
{
    if t.len() > 0 {
        let p = t.drop_last();
        assert forall|i: int| 0 <= i < p.len() implies #[trigger] p[i] != '.' by {
            assert(p[i] == t[i]);
        }
        assert(single_middle_dots(p)) by {
            assert forall|i: int| 0 < i < p.len() implies !(p[i - 1] == '\u{30fb}' && #[trigger] p[i] == '\u{30fb}') by {
                assert(p[i] == t[i] && p[i - 1] == t[i - 1]);
            }
        }
        lemma_dot_scan_fixed(p);
        let (out, run) = dot_scan(p);
        let c = t.last();
        assert(t[t.len() - 1] != '.');
        if is_dot(c) {
            if run.len() == 1 {
                assert(run[0] == p.last());
                assert(p.last() == t[t.len() - 2]);
                assert(false);
            }
            assert(run.push(c) =~= seq![c]);
            assert(out + run.push(c) =~= t);
        } else {
            assert(flushed(out, run) == out + run);
            assert(flushed(out, run).push(c) + Seq::<char>::empty() =~= t);
        }
    }
}

/// Cleaning a text twice gives the same as cleaning it once, for text
/// without the halfwidth middle dot (which widens into a katakana middle
/// dot that can start a new dot run); the cleaned text holds no white
/// space, no printable ASCII and no ellipsis.
pub proof fn lemma_post_processed_idempotent(s: Seq<char>)
    requires
        !s.contains('\u{ff65}'),
    ensures
        post_processed(post_processed(s)) == post_processed(s),
        forall|i: int|
            0 <= i < post_processed(s).len() ==> !is_white_space(#[trigger] post_processed(s)[i]) && !is_printable_ascii(
                post_processed(s)[i],
            ) && post_processed(s)[i] != '\u{2026}',
{
    let w = without_white_space(s);
    lemma_without_white_space(s);
    let e = ellipses_spelled_out(w);
    lemma_ellipses(w);
    assert(all_admissible(e)) by {
        assert forall|i: int| 0 <= i < e.len() implies admissible(#[trigger] e[i]) by {
            if e[i] != '.' {
                let j = choose|j: int| 0 <= j < w.len() && w[j] == e[i];
                let k = choose|k: int| 0 <= k < s.len() && s[k] == w[j];
                assert(s[k] != '\u{ff65}');
            }
        }
    }
    lemma_dot_scan(e);
    lemma_flushed(dot_scan(e).0, dot_scan(e).1);
    let d = dots_normalized(e);
    lemma_fullwidth_stable(d);
    let t = fullwidth(d);
    assert(t == post_processed(s));
    // The second pass changes nothing.
    assert forall|i: int| 0 <= i < t.len() implies !is_white_space(#[trigger] t[i]) by {
        assert(settled(t[i]));
    }
    lemma_without_white_space(t);
    assert forall|i: int| 0 <= i < t.len() implies #[trigger] t[i] != '\u{2026}' by {
        assert(settled(t[i]));
    }
    lemma_ellipses(t);
    assert forall|i: int| 0 <= i < t.len() implies #[trigger] t[i] != '.' by {
        assert(settled(t[i]));
    }
    lemma_dot_scan_fixed(t);
    let (out, run) = dot_scan(t);
    assert(flushed(out, run) == out + run);
    assert(dots_normalized(t) == t);
    lemma_fullwidth_fixed(t);
    assert forall|i: int|
        0 <= i < t.len() implies !is_white_space(#[trigger] t[i]) && !is_printable_ascii(t[i]) && t[i] != '\u{2026}' by {
        assert(settled(t[i]));
    }
}

fn halfwidth_katakana(c: char) -> (full: char)
    requires
        is_halfwidth_katakana(c),
    ensures
        full == katakana_table()[(c as u32) - 0xff61],
{
    let table: [char; 61] = [
        '。', '「', '」', '、', '・', 'ヲ', 'ァ', 'ィ', 'ゥ', 'ェ', 'ォ', 'ャ', 'ュ', 'ョ', 'ッ',
        'ー', 'ア', 'イ', 'ウ', 'エ', 'オ', 'カ', 'キ', 'ク', 'ケ', 'コ', 'サ', 'シ', 'ス', 'セ',
        'ソ', 'タ', 'チ', 'ツ', 'テ', 'ト', 'ナ', 'ニ', 'ヌ', 'ネ', 'ノ', 'ハ', 'ヒ', 'フ', 'ヘ',
        'ホ', 'マ', 'ミ', 'ム', 'メ', 'モ', 'ヤ', 'ユ', 'ヨ', 'ラ', 'リ', 'ル', 'レ', 'ロ', 'ワ',
        'ン',
    ];
    proof {
        assert(table@ =~= katakana_table());
    }
    table[(c as u32 - 0xff61) as usize]
}

fn lookup_exec(bases: &[char], forms: &[char], c: char) -> (found: Option<char>)
    requires
        bases@.len() == forms@.len(),
    ensures
        found == lookup(bases@, forms@, c),
{
    let mut i: usize = 0;
    proof {
        assert(bases@.skip(0) =~= bases@);
        assert(forms@.skip(0) =~= forms@);
    }
    while i < bases.len()
        invariant
            bases@.len() == forms@.len(),
            i <= bases@.len(),
            lookup(bases@, forms@, c) == lookup(bases@.skip(i as int), forms@.skip(i as int), c),
        decreases bases@.len() - i,
    {
        proof {
            assert(bases@.skip(i as int).drop_first() =~= bases@.skip(i + 1));
            assert(forms@.skip(i as int).drop_first() =~= forms@.skip(i + 1));
        }
        if bases[i] == c {
            return Some(forms[i]);
        }
        i = i + 1;
    }
    None
}

/// Joins a katakana with a following halfwidth sound mark where a precomposed
/// form exists.
fn compose_katakana(base: char, mark: char) -> (found: Option<char>)
    ensures
        found == composed(base, mark),
{
    if mark == '\u{ff9e}' {
        let bases = [
            'ウ', 'カ', 'キ', 'ク', 'ケ', 'コ', 'サ', 'シ', 'ス', 'セ', 'ソ', 'タ', 'チ', 'ツ',
            'テ', 'ト', 'ハ', 'ヒ', 'フ', 'ヘ', 'ホ',
        ];
        let forms = [
            'ヴ', 'ガ', 'ギ', 'グ', 'ゲ', 'ゴ', 'ザ', 'ジ', 'ズ', 'ゼ', 'ゾ', 'ダ', 'ヂ', 'ヅ',
            'デ', 'ド', 'バ', 'ビ', 'ブ', 'ベ', 'ボ',
        ];
        proof {
            assert(bases@ =~= voiced_bases());
            assert(forms@ =~= voiced_forms());
        }
        lookup_exec(&bases, &forms, base)
    } else {
        let bases = ['ハ', 'ヒ', 'フ', 'ヘ', 'ホ'];
        let forms = ['パ', 'ピ', 'プ', 'ペ', 'ポ'];
        proof {
            assert(bases@ =~= semi_voiced_bases());
            assert(forms@ =~= semi_voiced_forms());
        }
        lookup_exec(&bases, &forms, base)
    }
}

/// Halfwidth to fullwidth conversion of the whole text.
pub fn halfwidth_to_fullwidth(text: &Vec<char>) -> (output: Vec<char>)
    ensures
        output@ == fullwidth(text@),
{
    let mut output: Vec<char> = Vec::new();
    let mut i: usize = 0;
    while i < text.len()
        invariant
            i <= text@.len(),
            output@ == fullwidth(text@.take(i as int)),
        decreases text@.len() - i,
    {
        let c = text[i];
        proof {
            assert(text@.take(i + 1).drop_last() =~= text@.take(i as int));
        }
        let v = c as u32;
        if 0x21 <= v && v <= 0x7e {
            match char_from_scalar(v + 0xfee0) {
                Some(full) => output.push(full),
                None => output.push(c),
            }
        } else if c == ' ' {
            output.push('\u{3000}');
        } else if c == '\u{ff9e}' || c == '\u{ff9f}' {
            let ghost before = output@;
            let previous = output.pop();
            let joined = match previous {
                Some(base) => compose_katakana(base, c),
                None => None,
            };
            match joined {
                Some(full) => output.push(full),
                None => {
                    match previous {
                        Some(base) => output.push(base),
                        None => {},
                    }
                    output.push(c);
                },
            }
            proof {
                if before.len() > 0 {
                    assert(before =~= before.drop_last().push(before.last()));
                }
            }
        } else if 0xff61 <= v && v <= 0xff9d {
            output.push(halfwidth_katakana(c));
        } else {
            output.push(c);
        }
        i = i + 1;
    }
    proof {
        assert(text@.take(text@.len() as int) =~= text@);
    }
    output
}

/// Appends the pending dot run to `output` and empties the run.
fn flush_dot_run(output: &mut Vec<char>, run: &mut Vec<char>)
    ensures
        final(output)@ == flushed(old(output)@, old(run)@),
        final(run)@.len() == 0,
{
    let ghost start = output@;
    if run.len() >= 2 {
        let mut k: usize = 0;
        while k < run.len()
            invariant
                k <= run@.len(),
                run@ == old(run)@,
                start == old(output)@,
                output@ == start + Seq::new(k as nat, |i: int| '.'),
            decreases run@.len() - k,
        {
            output.push('.');
            proof {
                assert(start + Seq::new((k + 1) as nat, |i: int| '.') =~= (start + Seq::new(
                    k as nat,
                    |i: int| '.',
                )).push('.'));
            }
            k = k + 1;
        }
    } else {
        let mut k: usize = 0;
        while k < run.len()
            invariant
                k <= run@.len(),
                run@ == old(run)@,
                start == old(output)@,
                output@ == start + run@.take(k as int),
            decreases run@.len() - k,
        {
            output.push(run[k]);
            proof {
                assert(start + run@.take(k + 1) =~= (start + run@.take(k as int)).push(run@[k as int]));
            }
            k = k + 1;
        }
        proof {
            assert(run@.take(run@.len() as int) =~= run@);
        }
    }
    run.clear();
}

/// manga-ocr's clean-up of decoded text: drop white space, spell out
/// ellipses, turn runs of two or more dots into full stops, and convert
/// halfwidth characters to fullwidth.
pub fn post_process_chars(text: &Vec<char>) -> (output: Vec<char>)
    ensures
        output@ == post_processed(text@),
{
    let mut kept: Vec<char> = Vec::new();
    let mut i: usize = 0;
    while i < text.len()
        invariant
            i <= text@.len(),
            kept@ == without_white_space(text@.take(i as int)),
        decreases text@.len() - i,
    {
        proof {
            assert(text@.take(i + 1).drop_last() =~= text@.take(i as int));
        }
        if !white_space(text[i]) {
            kept.push(text[i]);
        }
        i = i + 1;
    }
    proof {
        assert(text@.take(text@.len() as int) =~= text@);
    }

    let mut spelled: Vec<char> = Vec::new();
    let mut i: usize = 0;
    while i < kept.len()
        invariant
            i <= kept@.len(),
            spelled@ == ellipses_spelled_out(kept@.take(i as int)),
        decreases kept@.len() - i,
    {
        proof {
            assert(kept@.take(i + 1).drop_last() =~= kept@.take(i as int));
        }
        if kept[i] == '\u{2026}' {
            spelled.push('.');
            spelled.push('.');
            spelled.push('.');
            proof {
                assert(spelled@ =~= ellipses_spelled_out(kept@.take(i as int)) + seq!['.', '.', '.']);
            }
        } else {
            spelled.push(kept[i]);
        }
        i = i + 1;
    }
    proof {
        assert(kept@.take(kept@.len() as int) =~= kept@);
    }

    let mut dots: Vec<char> = Vec::new();
    let mut run: Vec<char> = Vec::new();
    let mut i: usize = 0;
    while i < spelled.len()
        invariant
            i <= spelled@.len(),
            (dots@, run@) == dot_scan(spelled@.take(i as int)),
        decreases spelled@.len() - i,
    {
        proof {
            assert(spelled@.take(i + 1).drop_last() =~= spelled@.take(i as int));
        }
        let c = spelled[i];
        if c == '.' || c == '\u{30fb}' {
            run.push(c);
        } else {
            flush_dot_run(&mut dots, &mut run);
            dots.push(c);
            proof {
                assert(run@ =~= Seq::<char>::empty());
            }
        }
        i = i + 1;
    }
    proof {
        assert(spelled@.take(spelled@.len() as int) =~= spelled@);
    }
    flush_dot_run(&mut dots, &mut run);
    halfwidth_to_fullwidth(&dots)
}

/// `post_process_chars` on a string.
pub fn post_process(text: &str) -> (output: String)
    ensures
        output@ == post_processed(text@),
{
    let chars = chars_of(text);
    let processed = post_process_chars(&chars);
    string_from_chars(&processed)
}

// ---------------------------------------------------------------------------
// Character vocabulary decoding
// ---------------------------------------------------------------------------

/// BERT special tokens, which decoding drops.
pub open spec fn is_special_token(token: Seq<char>) -> bool {
    ||| token == seq!['[', 'U', 'N', 'K', ']']
    ||| token == seq!['[', 'S', 'E', 'P', ']']
    ||| token == seq!['[', 'P', 'A', 'D', ']']
    ||| token == seq!['[', 'C', 'L', 'S', ']']
    ||| token == seq!['[', 'M', 'A', 'S', 'K', ']']
}

/// What a vocabulary entry contributes to the text: nothing for a special
/// token, the entry without its `##` continuation prefix otherwise.
pub open spec fn token_text(token: Seq<char>) -> Seq<char> {
    if is_special_token(token) {
        Seq::empty()
    } else if token.len() >= 2 && token[0] == '#' && token[1] == '#' {
        token.skip(2)
    } else {
        token
    }
}

pub open spec fn valid_token(id: i64, vocabulary_len: int) -> bool {
    0 <= id < vocabulary_len
}

/// The concatenated texts of the tokens `ids`, all valid.
pub open spec fn joined_tokens(vocabulary: Seq<Seq<char>>, ids: Seq<i64>) -> Seq<char>
    decreases ids.len(),
{
    if ids.len() == 0 {
        Seq::empty()
    } else {
        joined_tokens(vocabulary, ids.drop_last()) + token_text(vocabulary[ids.last() as int])
    }
}

/// Why a vocabulary cannot be built or a token sequence cannot be decoded.
#[derive(Clone, Copy, Debug, PartialEq, Eq, Structural)]
pub enum TokenizerError {
    EmptyVocabulary,
    InvalidTokenId(i64),
}

/// Manga OCR's character-level BERT vocabulary.
pub struct MangaOcrTokenizer {
    vocabulary: Vec<String>,
}

impl MangaOcrTokenizer {
    /// The vocabulary entries, as character sequences.
    pub closed spec fn entries(&self) -> Seq<Seq<char>> {
        self.vocabulary@.map_values(|entry: String| entry@)
    }

    /// A tokenizer over `vocabulary`, one entry per token id; refused when empty.
    pub fn new(vocabulary: Vec<String>) -> (result: Result<MangaOcrTokenizer, TokenizerError>)
        ensures
            match result {
                Ok(tokenizer) => tokenizer.entries() == vocabulary@.map_values(|entry: String| entry@)
                    && vocabulary@.len() > 0,
                Err(error) => error == TokenizerError::EmptyVocabulary && vocabulary@.len() == 0,
            },
    {
        if vocabulary.len() == 0 {
            Err(TokenizerError::EmptyVocabulary)
        } else {
            Ok(MangaOcrTokenizer { vocabulary })
        }
    }

    /// Number of vocabulary entries.
    pub fn len(&self) -> (count: usize)
        ensures
            count == self.entries().len(),
    {
        self.vocabulary.len()
    }

    /// Decodes token ids to cleaned-up text: each valid id contributes its
    /// vocabulary entry (special tokens nothing, `##` prefixes dropped), and
    /// the joined text goes through `post_process`. The first id outside the
    /// vocabulary is reported instead.
    pub fn decode(&self, token_ids: &[i64]) -> (result: Result<String, TokenizerError>)
        ensures
            match result {
                Ok(text) => (forall|k: int| 0 <= k < token_ids@.len() ==> valid_token(
                    #[trigger] token_ids@[k],
                    self.entries().len() as int,
                )) && text@ == post_processed(joined_tokens(self.entries(), token_ids@)),
                Err(error) => exists|k: int|
                    0 <= k < token_ids@.len() && !valid_token(#[trigger] token_ids@[k], self.entries().len() as int)
                        && error == TokenizerError::InvalidTokenId(token_ids@[k]) && forall|j: int|
                        0 <= j < k ==> valid_token(#[trigger] token_ids@[j], self.entries().len() as int),
            },
    {
        let mut text: Vec<char> = Vec::new();
        let mut i: usize = 0;
        while i < token_ids.len()
            invariant
                i <= token_ids@.len(),
                forall|j: int| 0 <= j < i ==> valid_token(#[trigger] token_ids@[j], self.entries().len() as int),
                text@ == joined_tokens(self.entries(), token_ids@.take(i as int)),
            decreases token_ids@.len() - i,
        {
            let id = token_ids[i];
            if id < 0 || id as u64 >= self.vocabulary.len() as u64 {
                return Err(TokenizerError::InvalidTokenId(id));
            }
            let token = chars_of(self.vocabulary[id as usize].as_str());
            proof {
                assert(token_ids@.take(i + 1).drop_last() =~= token_ids@.take(i as int));
                assert(token@ == self.entries()[id as int]);
            }
            let special = chars_equal(&token, &['[', 'U', 'N', 'K', ']'])
                || chars_equal(&token, &['[', 'S', 'E', 'P', ']'])
                || chars_equal(&token, &['[', 'P', 'A', 'D', ']'])
                || chars_equal(&token, &['[', 'C', 'L', 'S', ']'])
                || chars_equal(&token, &['[', 'M', 'A', 'S', 'K', ']']);
            if !special {
                let start: usize = if token.len() >= 2 && token[0] == '#' && token[1] == '#' { 2 } else { 0 };
                let ghost before = text@;
                let mut k = start;
                while k < token.len()
                    invariant
                        start <= k <= token@.len(),
                        text@ == before + token@.subrange(start as int, k as int),
                    decreases token@.len() - k,
                {
                    text.push(token[k]);
                    proof {
                        assert(token@.subrange(start as int, k + 1) =~= token@.subrange(start as int, k as int).push(token@[k as int]));
                    }
                    k = k + 1;
                }
                proof {
                    assert(token@.subrange(start as int, token@.len() as int) =~= token_text(token@));
                }
            } else {
                proof {
                    assert(token_text(token@) =~= Seq::<char>::empty());
                }
            }
            i = i + 1;
        }
        proof {
            assert(token_ids@.take(token_ids@.len() as int) =~= token_ids@);
        }
        let processed = post_process_chars(&text);
        Ok(string_from_chars(&processed))
    }
}

// ---------------------------------------------------------------------------
// Beam search repetition control
// ---------------------------------------------------------------------------

/// The window of `n` tokens at `start` ends with the same `n - 1` tokens as
/// the whole sequence does.
pub open spec fn window_repeats_suffix(s: Seq<i64>, n: int, start: int) -> bool {
    s.subrange(start, start + n - 1) == s.subrange(s.len() - (n - 1), s.len() as int)
}

/// Tokens that close the first `count` windows whose first `n - 1` tokens
/// repeat the sequence's last `n - 1` tokens.
pub open spec fn banned_in_windows(s: Seq<i64>, n: int, count: int) -> Seq<i64>
    decreases count,
{
    if count <= 0 {
        Seq::empty()
    } else {
        banned_in_windows(s, n, count - 1) + if window_repeats_suffix(s, n, count - 1) {
            seq![s[count - 1 + n - 1]]
        } else {
            Seq::empty()
        }
    }
}

/// The tokens that would repeat an n-gram already in `s`.
pub open spec fn banned_tokens(s: Seq<i64>, n: int) -> Seq<i64> {
    if n == 0 || s.len() + 1 < n {
        Seq::empty()
    } else {
        banned_in_windows(s, n, s.len() - n + 1)
    }
}

/// Tokens that `no_repeat_ngram_size = ngram_size` forbids next: for every
/// earlier n-gram whose first `ngram_size - 1` tokens equal the last
/// `ngram_size - 1` tokens of `sequence`, its final token, in order.
pub fn banned_ngram_tokens(sequence: &[i64], ngram_size: usize) -> (banned: Vec<i64>)
    ensures
        banned@ == banned_tokens(sequence@, ngram_size as int),
{
    if ngram_size == 0 || sequence.len() < ngram_size - 1 {
        return Vec::new();
    }
    let prefix_length = ngram_size - 1;
    let length = sequence.len();
    let suffix_start = length - prefix_length;
    let mut banned: Vec<i64> = Vec::new();
    if length < ngram_size {
        proof {
            assert(banned_tokens(sequence@, ngram_size as int) =~= Seq::<i64>::empty());
        }
        return banned;
    }
    let windows = length - ngram_size + 1;
    let mut start: usize = 0;
    while start < windows
        invariant
            ngram_size >= 1,
            prefix_length == ngram_size - 1,
            length == sequence@.len(),
            length >= ngram_size,
            suffix_start == length - prefix_length,
            windows == length - ngram_size + 1,
            start <= windows,
            banned@ == banned_in_windows(sequence@, ngram_size as int, start as int),
        decreases windows - start,
    {
        let mut k: usize = 0;
        let mut same = true;
        while k < prefix_length
            invariant
                k <= prefix_length,
                prefix_length == ngram_size - 1,
                length == sequence@.len(),
                start < windows,
                windows == length - ngram_size + 1,
                suffix_start == length - prefix_length,
                same == forall|j: int| 0 <= j < k ==> #[trigger] sequence@[start + j] == sequence@[suffix_start + j],
            decreases prefix_length - k,
        {
            if sequence[start + k] != sequence[suffix_start + k] {
                same = false;
            }
            k = k + 1;
        }
        proof {
            let a = sequence@.subrange(start as int, start + ngram_size - 1);
            let b = sequence@.subrange(length - (ngram_size - 1), length as int);
            if same {
                assert forall|j: int| 0 <= j < a.len() implies a[j] == b[j] by {
                    assert(sequence@[start + j] == sequence@[suffix_start + j]);
                }
                assert(a =~= b);
            } else {
                let j = choose|j: int| 0 <= j < prefix_length && #[trigger] sequence@[start + j] != sequence@[suffix_start + j];
                assert(a[j] != b[j]);
            }
        }
        if same {
            banned.push(sequence[start + prefix_length]);
        }
        start = start + 1;
    }
    banned
}

/// Whether `token` is forbidden next after `s` by the n-gram rule.
pub open spec fn is_banned(s: Seq<i64>, ngram_size: int, token: int) -> bool {
    banned_tokens(s, ngram_size).contains(token as i64)
}

/// The row and column of the flat index `i` in rows of `width` entries.
proof fn lemma_flat_index(i: int, row: int, width: int)
    requires
        0 < width,
        row * width <= i < row * width + width,
    ensures
        i / width == row,
        i % width == i - row * width,
{
    vstd::arithmetic::div_mod::lemma_fundamental_div_mod_converse(i, width, row, i - row * width);
}

/// The flat mask of forbidden next tokens, one row of `vocab_size` flags per
/// beam: 1 where the token would repeat an n-gram of that beam's sequence.
pub fn no_repeat_ngram_flags(sequences: &Vec<Vec<i64>>, ngram_size: usize, vocab_size: usize) -> (flags: Vec<u8>)
    requires
        0 < vocab_size <= i64::MAX,
        sequences@.len() * vocab_size <= usize::MAX,
        forall|r: int, i: int|
            0 <= r < sequences@.len() && 0 <= i < sequences@[r]@.len() ==> 0 <= #[trigger] sequences@[r]@[i] < vocab_size,
    ensures
        flags@.len() == sequences@.len() * vocab_size,
        forall|i: int|
            0 <= i < flags@.len() ==> #[trigger] flags@[i] == if is_banned(
                sequences@[i / vocab_size as int]@,
                ngram_size as int,
                i % vocab_size as int,
            ) {
                1u8
            } else {
                0u8
            },
{
    let rows = sequences.len();
    let total = rows * vocab_size;
    let mut flags: Vec<u8> = Vec::new();
    while flags.len() < total
        invariant
            flags@.len() <= total,
            forall|i: int| 0 <= i < flags@.len() ==> flags@[i] == 0u8,
        decreases total - flags@.len(),
    {
        flags.push(0);
    }
    let mut row: usize = 0;
    while row < rows
        invariant
            0 < vocab_size <= i64::MAX,
            rows == sequences@.len(),
            total == rows * vocab_size,
            row <= rows,
            flags@.len() == total,
            forall|r: int, i: int|
                0 <= r < sequences@.len() && 0 <= i < sequences@[r]@.len() ==> 0 <= #[trigger] sequences@[r]@[i] < vocab_size,
            forall|i: int|
                0 <= i < row * vocab_size ==> #[trigger] flags@[i] == if is_banned(
                    sequences@[i / vocab_size as int]@,
                    ngram_size as int,
                    i % vocab_size as int,
                ) {
                    1u8
                } else {
                    0u8
                },
            forall|i: int| row * vocab_size <= i < total ==> #[trigger] flags@[i] == 0u8,
        decreases rows - row,
    {
        assert((row + 1) * vocab_size <= rows * vocab_size) by (nonlinear_arith)
            requires
                row < rows,
                0 < vocab_size,
        ;
        assert((row + 1) * vocab_size == row * vocab_size + vocab_size) by (nonlinear_arith);
        let base = row * vocab_size;
        let banned = banned_ngram_tokens(sequences[row].as_slice(), ngram_size);
        proof {
            lemma_banned_within(sequences@[row as int]@, ngram_size as int, vocab_size as int);
        }
        let mut j: usize = 0;
        while j < banned.len()
            invariant
                0 < vocab_size <= i64::MAX,
                rows == sequences@.len(),
                total == rows * vocab_size,
                row < rows,
                base == row * vocab_size,
                base + vocab_size <= total,
                flags@.len() == total,
                j <= banned@.len(),
                banned@ == banned_tokens(sequences@[row as int]@, ngram_size as int),
                forall|k: int| 0 <= k < banned@.len() ==> 0 <= #[trigger] banned@[k] < vocab_size,
                forall|i: int|
                    0 <= i < base ==> #[trigger] flags@[i] == if is_banned(
                        sequences@[i / vocab_size as int]@,
                        ngram_size as int,
                        i % vocab_size as int,
                    ) {
                        1u8
                    } else {
                        0u8
                    },
                forall|i: int|
                    base <= i < base + vocab_size ==> #[trigger] flags@[i] == if banned@.take(j as int).contains(
                        (i - base) as i64,
                    ) {
                        1u8
                    } else {
                        0u8
                    },
                forall|i: int| base + vocab_size <= i < total ==> #[trigger] flags@[i] == 0u8,
            decreases banned@.len() - j,
        {
            let token = banned[j];
            let index = base + token as usize;
            let ghost previous = flags@;
            flags.set(index, 1);
            proof {
                let before = banned@.take(j as int);
                let after = banned@.take(j + 1);
                assert(after =~= before.push(token));
                assert forall|i: int| base <= i < base + vocab_size implies #[trigger] flags@[i] == if after.contains(
                    (i - base) as i64,
                ) {
                    1u8
                } else {
                    0u8
                } by {
                    assert(previous[i] == if before.contains((i - base) as i64) {
                        1u8
                    } else {
                        0u8
                    });
                    if after.contains((i - base) as i64) && !before.contains((i - base) as i64) {
                        let k = choose|k: int| 0 <= k < after.len() && after[k] == (i - base) as i64;
                        if k < before.len() {
                            assert(before[k] == after[k]);
                        }
                    }
                    if before.contains((i - base) as i64) {
                        let k = choose|k: int| 0 <= k < before.len() && before[k] == (i - base) as i64;
                        assert(after[k] == before[k]);
                    }
                    if i == index {
                        assert(after[j as int] == token);
                        assert((i - base) as i64 == token);
                        assert(after.contains(token));
                        assert(flags@[i] == 1u8);
                    } else {
                        assert(flags@[i] == previous[i]);
                        assert((i - base) as i64 != token);
                    }
                }
            }
            j = j + 1;
        }
        proof {
            assert(banned@.take(banned@.len() as int) =~= banned@);
            assert forall|i: int|
                0 <= i < (row + 1) * vocab_size implies #[trigger] flags@[i] == if is_banned(
                    sequences@[i / vocab_size as int]@,
                    ngram_size as int,
                    i % vocab_size as int,
                ) {
                    1u8
                } else {
                    0u8
                } by {
                if i >= base {
                    lemma_flat_index(i, row as int, vocab_size as int);
                }
            }
        }
        row = row + 1;
    }
    flags
}

/// Forbidden tokens are tokens of the sequence, so they keep its bounds.
proof fn lemma_banned_within(s: Seq<i64>, n: int, bound: int)
    requires
        0 <= n,
        forall|i: int| 0 <= i < s.len() ==> 0 <= #[trigger] s[i] < bound,
    ensures
        forall|k: int| 0 <= k < banned_tokens(s, n).len() ==> 0 <= #[trigger] banned_tokens(s, n)[k] < bound,
{
    if !(n == 0 || s.len() + 1 < n) {
        lemma_banned_in_windows_within(s, n, s.len() - n + 1, bound);
    }
}

proof fn lemma_banned_in_windows_within(s: Seq<i64>, n: int, count: int, bound: int)
    requires
        1 <= n,
        count <= s.len() - n + 1,
        forall|i: int| 0 <= i < s.len() ==> 0 <= #[trigger] s[i] < bound,
    ensures
        forall|k: int|
            0 <= k < banned_in_windows(s, n, count).len() ==> 0 <= #[trigger] banned_in_windows(s, n, count)[k] < bound,
    decreases count,
{
    if count > 0 {
        lemma_banned_in_windows_within(s, n, count - 1, bound);
        let last = count - 1 + n - 1;
        assert(0 <= s[last] < bound);
        let earlier = banned_in_windows(s, n, count - 1);
        let tail = if window_repeats_suffix(s, n, count - 1) {
            seq![s[last]]
        } else {
            Seq::empty()
        };
        assert(banned_in_windows(s, n, count) == earlier + tail);
        assert forall|k: int| 0 <= k < (earlier + tail).len() implies 0 <= #[trigger] (earlier + tail)[k] < bound by {
            if k >= earlier.len() {
                assert(tail[k - earlier.len()] == s[last]);
            } else {
                assert((earlier + tail)[k] == earlier[k]);
            }
        }
    }
}

// ---------------------------------------------------------------------------
// Image preprocessing
// ---------------------------------------------------------------------------

/// Pillow's ITU-R 601-2 luma in 16-bit fixed point.
pub open spec fn pillow_luma(r: u8, g: u8, b: u8) -> int {
    (19595 * r + 38470 * g + 7471 * b + 32768) / 65536
}

/// Manga OCR's grayscale step: every pixel becomes Pillow's `L` conversion
/// of it, repeated on the three channels.
#[verifier::spinoff_prover]
pub fn pillow_grayscale(image: &RgbPixels) -> (gray: RgbPixels)
    requires
        image.well_formed(),
    ensures
        gray.width == image.width,
        gray.height == image.height,
        gray.pixels@.len() == image.pixels@.len(),
        forall|i: int|
            0 <= i < image.pixels@.len() ==> #[trigger] gray.pixels@[i] as int == pillow_luma(
                image.pixels@[i - i % 3],
                image.pixels@[i - i % 3 + 1],
                image.pixels@[i - i % 3 + 2],
            ),
{
    let len = image.pixels.len();
    let n = len / 3;
    let mut pixels: Vec<u8> = Vec::new();
    let mut p: usize = 0;
    while p < n
        invariant
            image.well_formed(),
            n == image.pixels@.len() / 3,
            len == image.pixels@.len(),
            image.pixels@.len() == 3 * n,
            p <= n,
            pixels@.len() == 3 * p,
            forall|i: int|
                0 <= i < 3 * p ==> #[trigger] pixels@[i] as int == pillow_luma(
                    image.pixels@[i - i % 3],
                    image.pixels@[i - i % 3 + 1],
                    image.pixels@[i - i % 3 + 2],
                ),
        decreases n - p,
    {
        proof {
            assert(3 * p + 2 < len);
        }
        let r = image.pixels[3 * p] as u32;
        let g = image.pixels[3 * p + 1] as u32;
        let b = image.pixels[3 * p + 2] as u32;
        let weighted: u32 = 19595 * r + 38470 * g + 7471 * b + 32768;
        proof {
            assert(weighted >> 16 == weighted / 65536) by (bit_vector);
        }
        let luma = (weighted >> 16) as u8;
        pixels.push(luma);
        pixels.push(luma);
        pixels.push(luma);
        p = p + 1;
    }
    RgbPixels { width: image.width, height: image.height, pixels }
}

/// The samples of an RGB image after Pillow's `L` conversion, repeated on
/// the three channels.
pub open spec fn pillow_gray(pixels: Seq<u8>) -> Seq<u8> {
    Seq::new(
        pixels.len(),
        |i: int| pillow_luma(pixels[i - i % 3], pixels[i - i % 3 + 1], pixels[i - i % 3 + 2]) as u8,
    )
}

/// Why an image cannot be prepared for Manga OCR.
#[derive(Clone, Copy, Debug, PartialEq, Eq, Structural)]
pub enum OcrInputError {
    /// The image has no pixels.
    EmptyImage,
    /// The configured Pillow resampling filter is not bilinear (2).
    UnsupportedResampling(i64),
}

/// Manga OCR's input image: refused when empty or when another filter than
/// bilinear is configured; else converted to Pillow grayscale and, where
/// resizing is on and the image is not `size` square, resized to it by
/// bilinear convolution.
pub fn ocr_input(image: &RgbPixels, size: u32, do_resize: bool, resample: i64) -> (input: Result<RgbPixels, OcrInputError>)
    requires
        image.well_formed(),
    ensures
        match input {
            Ok(out) => {
                let gray = pillow_gray(image.pixels@);
                &&& image.width > 0 && image.height > 0 && resample == 2
                &&& out.well_formed()
                &&& if do_resize && (image.width != size || image.height != size) {
                    out.width == size && out.height == size && out.pixels@ == resampled(
                        Resampling::BilinearConvolution,
                        3,
                        gray,
                        image.width as nat,
                        image.height as nat,
                        size as nat,
                        size as nat,
                    )
                } else {
                    out.width == image.width && out.height == image.height && out.pixels@ == gray
                }
            },
            Err(error) => if image.width == 0 || image.height == 0 {
                error == OcrInputError::EmptyImage
            } else {
                error == OcrInputError::UnsupportedResampling(resample) && resample != 2
            },
        },
{
    if image.width == 0 || image.height == 0 {
        return Err(OcrInputError::EmptyImage);
    }
    if resample != 2 {
        return Err(OcrInputError::UnsupportedResampling(resample));
    }
    let gray = pillow_grayscale(image);
    proof {
        assert(gray.pixels@ =~= pillow_gray(image.pixels@));
    }
    if do_resize && (gray.width != size || gray.height != size) {
        Ok(resize_rgb(&gray, size, size, Resampling::BilinearConvolution))
    } else {
        Ok(gray)
    }
}

} // verus!
