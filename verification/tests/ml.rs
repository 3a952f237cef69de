use koharu::ml::lama::{boxes_from_mask, ceil_modulo, crop_box, resize_dimensions, symmetric_index, symmetric_indices};
use koharu::ml::manga_ocr::{banned_ngram_tokens, no_repeat_ngram_flags, pillow_grayscale, post_process, MangaOcrTokenizer, TokenizerError};
use koharu::ml::raster::{GrayPixels, RgbPixels};
use koharu::ml::text_mask::fill_holes;
use koharu::ml::rope::{rope_index, vision_positions, RopeError};
use koharu::ml::decoding::{DecodeAction, GreedyDecoding};
use koharu::ml::beam::{
    closed_answer, continues, finished_sequences, initial_beams, next_beams, select_beams, BeamChoice, BeamError,
    FinishedBeam,
};

#[test]
fn post_processing_matches_manga_ocr() {
    assert_eq!(post_process(" A 12…・・. ｶﾞﾊﾟ "), "Ａ１２．．．．．．ガパ");
    assert_eq!(post_process("・ ﾞ"), "・ﾞ");
}

#[test]
fn no_repeat_trigram_matches_transformers() {
    assert_eq!(banned_ngram_tokens(&[2, 10, 11, 10, 11], 3), [10]);
}

#[test]
fn banned_ngrams_are_empty_for_short_sequences_and_unigrams_ban_everything() {
    assert!(banned_ngram_tokens(&[1, 2], 4).is_empty());
    assert!(banned_ngram_tokens(&[1, 2, 3], 0).is_empty());
    assert_eq!(banned_ngram_tokens(&[4, 5, 4], 1), [4, 5, 4]);
}

#[test]
fn hole_filling_keeps_exterior_background() {
    let mut pixels = vec![255u8; 25];
    pixels[2 * 5 + 2] = 0;
    pixels[0] = 0;
    let mut mask = GrayPixels { width: 5, height: 5, pixels };
    fill_holes(&mut mask);
    assert_eq!(mask.pixels[2 * 5 + 2], 255);
    assert_eq!(mask.pixels[0], 0);
}

#[test]
fn hole_filling_follows_diagonal_background_paths() {
    // A zero pixel joined to the border only diagonally stays zero.
    let mut pixels = vec![255u8; 16];
    pixels[0] = 0;
    pixels[5] = 0;
    let mut mask = GrayPixels { width: 4, height: 4, pixels };
    fill_holes(&mut mask);
    assert_eq!(mask.pixels[5], 0);
}

#[test]
fn pillow_grayscale_matches_reference_luma() {
    let image = RgbPixels {
        width: 3,
        height: 2,
        pixels: vec![255, 0, 0, 0, 255, 0, 0, 0, 255, 255, 255, 255, 0, 0, 0, 128, 64, 32],
    };
    let gray = pillow_grayscale(&image);
    let expected: Vec<u8> = [76u8, 150, 29, 255, 0, 79].iter().flat_map(|v| [*v; 3]).collect();
    assert_eq!(gray.pixels, expected);
}

#[test]
fn tokenizer_decodes_and_reports_invalid_ids() {
    let vocabulary = ["[CLS]", "ｶ", "##ﾞ", "[SEP]", "a"].iter().map(|s| s.to_string()).collect();
    let tokenizer = MangaOcrTokenizer::new(vocabulary).unwrap();
    assert_eq!(tokenizer.len(), 5);
    assert_eq!(tokenizer.decode(&[0, 1, 2, 4, 3]).unwrap(), "ガａ");
    assert_eq!(tokenizer.decode(&[1, 7]), Err(TokenizerError::InvalidTokenId(7)));
    assert_eq!(tokenizer.decode(&[-1]), Err(TokenizerError::InvalidTokenId(-1)));
    assert!(matches!(MangaOcrTokenizer::new(Vec::new()), Err(TokenizerError::EmptyVocabulary)));
}

#[test]
fn crop_box_grows_by_margin_and_shifts_inside_the_image() {
    assert_eq!(crop_box(1000, 1000, [400, 400, 500, 500], 128), [272, 272, 628, 628]);
    assert_eq!(crop_box(1000, 1000, [0, 0, 100, 100], 128), [0, 0, 356, 356]);
    assert_eq!(crop_box(300, 200, [0, 0, 300, 200], 128), [0, 0, 300, 200]);
}

#[test]
fn lama_resize_keeps_aspect_ratio_rounding_half_up() {
    assert_eq!(resize_dimensions(2000, 1000, 1280), (1280, 640));
    assert_eq!(resize_dimensions(3, 2, 1), (1, 1));
}

#[test]
fn symmetric_padding_reflects_indices() {
    assert_eq!(ceil_modulo(13, 8), 16);
    assert_eq!(ceil_modulo(16, 8), 16);
    assert_eq!(symmetric_index(5, 4), 2);
    assert_eq!(symmetric_indices(3, 8), [0, 1, 2, 2, 1, 0, 0, 1]);
}

#[test]
fn boxes_from_mask_finds_separate_regions() {
    let mut pixels = vec![0u8; 100];
    for y in 1..3 {
        for x in 1..4 {
            pixels[y * 10 + x] = 255;
        }
    }
    for y in 6..9 {
        for x in 6..8 {
            pixels[y * 10 + x] = 200;
        }
    }
    let mask = GrayPixels { width: 10, height: 10, pixels };
    let mut boxes = boxes_from_mask(&mask);
    boxes.sort();
    assert_eq!(boxes, vec![[1, 1, 4, 3], [6, 6, 8, 9]]);
    assert!(boxes_from_mask(&GrayPixels { width: 3, height: 3, pixels: vec![127; 9] }).is_empty());
}

#[test]
fn rope_positions_follow_text_and_image_runs() {
    let index = rope_index(&vec![0, 0, 1, 1, 1, 1, 0], [1, 4, 4], 2).unwrap();
    assert_eq!(index.temporal, [0, 1, 2, 2, 2, 2, 4]);
    assert_eq!(index.rows, [0, 1, 2, 2, 3, 3, 4]);
    assert_eq!(index.columns, [0, 1, 2, 3, 2, 3, 4]);
    assert_eq!(index.delta, -2);
}

#[test]
fn rope_positions_reject_malformed_prompts() {
    assert!(matches!(rope_index(&vec![0, 1, 0, 1], [1, 2, 2], 2), Err(RopeError::MultipleImages)));
    assert!(matches!(rope_index(&vec![1, 1], [1, 4, 4], 2), Err(RopeError::GridMismatch)));
    assert!(matches!(rope_index(&vec![0, 2], [1, 2, 2], 2), Err(RopeError::UnsupportedModality(2))));
    assert!(matches!(rope_index(&vec![0, 0], [1, 2, 2], 2), Err(RopeError::NoImage)));
}

#[test]
fn vision_positions_walk_rows_then_columns() {
    let (rows, columns) = vision_positions([2, 2, 3]);
    assert_eq!(rows, [0, 0, 0, 1, 1, 1, 0, 0, 0, 1, 1, 1]);
    assert_eq!(columns, [0, 1, 2, 0, 1, 2, 0, 1, 2, 0, 1, 2]);
}

#[test]
fn beam_step_carries_ranked_candidates_and_keeps_early_endings() {
    let selection = select_beams(&vec![12, 5, 22, 17, 3], 10, 2, 2).unwrap();
    assert_eq!(
        selection.continued,
        [BeamChoice { rank: 1, beam: 0, token: 5 }, BeamChoice { rank: 3, beam: 1, token: 7 }]
    );
    assert_eq!(selection.finished, [FinishedBeam { rank: 0, beam: 1 }]);
}

#[test]
fn beam_step_fails_when_every_candidate_ends() {
    assert!(matches!(select_beams(&vec![2, 12], 10, 2, 1), Err(BeamError::Unfilled)));
}

#[test]
fn greedy_decoding_feeds_tokens_until_the_bound() {
    let mut decoding = GreedyDecoding::new(3, 10, -2, 99);
    assert_eq!(decoding.step(5), DecodeAction::Feed { token: 5, position: 8, newly_seen: true });
    assert_eq!(decoding.step(5), DecodeAction::Feed { token: 5, position: 9, newly_seen: false });
    assert_eq!(decoding.step(7), DecodeAction::Stop);
    assert_eq!(decoding.generated, [5, 5, 7]);
    assert_eq!(decoding.seen, [5]);
    assert!(decoding.finished);
}

#[test]
fn greedy_decoding_stops_at_end_of_sequence() {
    let mut decoding = GreedyDecoding::new(5, 4, 0, 99);
    assert_eq!(decoding.step(99), DecodeAction::Stop);
    assert!(decoding.generated.is_empty());
    assert!(GreedyDecoding::new(0, 4, 0, 99).finished);
}

#[test]
fn repetition_mask_flags_banned_tokens_per_beam() {
    let flags = no_repeat_ngram_flags(&vec![vec![2, 10, 11, 10, 11], vec![3, 4, 3]], 2, 12);
    assert_eq!(flags.len(), 24);
    let set: Vec<usize> = (0..24).filter(|&i| flags[i] == 1).collect();
    assert_eq!(set, [10, 12 + 4]);
    assert!(no_repeat_ngram_flags(&vec![vec![1, 1, 1]], 0, 4).iter().all(|&flag| flag == 0));
}

#[test]
fn cleaning_twice_gives_the_same_text() {
    for text in [" A 12…・・. ｶﾞﾊﾟ ", "・ ﾞ", "a・b・・c ﾞﾞ", "…"] {
        let once = post_process(text);
        assert_eq!(post_process(&once), once);
    }
}

#[test]
fn beam_bookkeeping_extends_and_closes_sequences() {
    let beams = initial_beams(2, 2);
    assert_eq!(beams, vec![vec![2], vec![2]]);
    let selection = select_beams(&vec![12, 5, 22, 17, 3], 10, 3, 2).unwrap();
    let next = next_beams(&beams, &selection.continued);
    assert_eq!(next, vec![vec![2, 2], vec![2, 5]]);
    let ended = finished_sequences(&next, &[FinishedBeam { rank: 0, beam: 1 }].to_vec());
    assert_eq!(ended, vec![vec![2, 5]]);
    assert!(continues(2, 3) && !continues(3, 3));
    assert_eq!(closed_answer(vec![2, 5], 3, 3), [2, 5, 3]);
    assert_eq!(closed_answer(vec![2, 5, 6], 3, 3), [2, 5, 6]);
}

#[test]
fn an_empty_image_keeps_its_empty_size() {
    assert_eq!(resize_dimensions(0, 0, 1280), (0, 0));
}
