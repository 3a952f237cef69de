use image::GrayImage;
use imageproc::morphology::{grayscale_dilate, Mask};
use koharu::ml::backbone::{
    doclayout_labels, doclayout_num_labels, fixed_spatial_shapes, hgnet_channels, level_start_index,
    resolve_out_features, stage_index, stage_name, stage_out_channels, Activation, BlockConfig, OutFeaturesError,
    Spatial,
};
use koharu::ml::lama::{plan_inpainting, restore_after_resize, HDStrategy, InpaintPlan, InpaintRequest, LamaError};
use koharu::ml::manga_ocr::{ocr_input, OcrInputError};
use koharu::ml::morphology::opencv_ellipse;
use koharu::ml::paddle_ocr::{
    plan_preprocess, prompt_ids, prompt_text, smart_resize, spotting_source, token_type_ids, PaddleOCRVLTask, PromptCodec, PreprocessError, SmartResizeError,
};
use koharu::ml::raster::{crop_gray, crop_rgb, paste_rgb, restore_unmasked, GrayPixels, RgbPixels};
use koharu::ml::recognition::{ctc_decode, target_width, CtcError, SizeDict};
use koharu::ml::rorem::{composite, finish, is_blank, resize_mask, validate, RoremError};
use koharu::ml::text_mask::{
    clean_mask, fit_input, input_size, resize_dimensions, stride_padding, MaskCleaning, TextMaskError,
};
use koharu::ml::yolo::LetterBox;

#[test]
fn resize_preserves_aspect_ratio() {
    assert_eq!(resize_dimensions(1000, 500, 640), (640, 320));
    assert_eq!(resize_dimensions(500, 1000, 640), (320, 640));
}

#[test]
fn text_mask_inputs_are_limited_and_padded_to_the_stride() {
    assert_eq!(input_size(1000, 500, Some(640)), Ok((640, 320)));
    assert_eq!(input_size(600, 500, Some(640)), Ok((600, 500)));
    assert_eq!(input_size(600, 500, None), Ok((600, 500)));
    assert_eq!(input_size(0, 500, None), Err(TextMaskError::EmptyInput));
    assert_eq!(input_size(10, 10, Some(0)), Err(TextMaskError::ZeroMaxSide));
    assert_eq!(resize_dimensions(3, 1000, 10), (1, 10));
    assert_eq!(stride_padding(640), 0);
    assert_eq!(stride_padding(641), 31);
    assert_eq!(stride_padding(20), 12);
    let image = RgbPixels { width: 4, height: 2, pixels: vec![9; 24] };
    assert_eq!(fit_input(&image, Some(2)).unwrap().width, 2);
    assert_eq!(fit_input(&image, None).unwrap().pixels, image.pixels);
}

#[test]
fn smart_resize_matches_transformers_fixture_shapes() {
    let cases = [
        ((178, 99), (476, 252)),
        ((251, 188), (392, 308)),
        ((103, 62), (448, 280)),
        ((115, 406), (196, 644)),
        ((313, 69), (728, 168)),
        ((54, 204), (196, 672)),
    ];
    for ((height, width), expected) in cases {
        assert_eq!(smart_resize(height, width, 28, 112_896, 1_003_520), Ok(expected));
    }
}

#[test]
fn smart_resize_rejects_extreme_aspect_ratios() {
    assert_eq!(smart_resize(28, 28 * 201, 28, 112_896, 1_003_520), Err(SmartResizeError::AspectRatioTooLarge));
}

#[test]
fn paddle_preprocessing_doubles_small_spotting_inputs() {
    let plan = plan_preprocess(99, 178, PaddleOCRVLTask::Ocr, 14, 2, 112_896, 1_003_520, true, 3).unwrap();
    assert_eq!((plan.height, plan.width), (476, 252));
    assert_eq!(plan.grid, [1, 34, 18]);
    let spotting = plan_preprocess(100, 100, PaddleOCRVLTask::Spotting, 14, 2, 112_896, 1_003_520, true, 3).unwrap();
    assert_eq!((spotting.source_width, spotting.source_height), (200, 200));
    assert_eq!(
        plan_preprocess(0, 10, PaddleOCRVLTask::Ocr, 14, 2, 112_896, 1_003_520, true, 3),
        Err(PreprocessError::EmptyImage)
    );
    assert_eq!(
        plan_preprocess(99, 178, PaddleOCRVLTask::Ocr, 14, 2, 112_896, 1_003_520, true, 2),
        Err(PreprocessError::UnsupportedResampling)
    );
}

#[test]
fn paddle_prompt_holds_one_placeholder_per_merged_patch() {
    let prompt = prompt_text(PaddleOCRVLTask::Ocr, 2);
    assert_eq!(
        prompt,
        "<|begin_of_sentence|>User: <|IMAGE_START|><|IMAGE_PLACEHOLDER|><|IMAGE_PLACEHOLDER|><|IMAGE_END|>OCR:\nAssistant:\n"
    );
    assert_eq!(PaddleOCRVLTask::Table.prompt(), "Table Recognition:");
    assert_eq!(token_type_ids(&vec![5, 9, 9, 1], 9), vec![0, 1, 1, 0]);
}

#[test]
fn recognition_width_matches_transformers() {
    let size = SizeDict { height: 48, width: 320 };
    assert_eq!(target_width(size, 3200, 48, 100), 100);
    assert_eq!(target_width(size, 3200, 100, 100), 48);
    assert_eq!(target_width(size, 3200, 10, 1000), 3200);
}

#[test]
fn ctc_decoding_collapses_repeats_and_blanks() {
    let characters: Vec<String> = ["", "a", "b", "c"].iter().map(|s| s.to_string()).collect();
    let decoded = ctc_decode(&vec![1, 1, 0, 1, 2, 2, 0, 0, 3], &characters).unwrap();
    assert_eq!(decoded.text, "aabc");
    assert_eq!(decoded.positions, vec![0, 3, 4, 8]);
    assert_eq!(ctc_decode(&vec![1, 7, 9], &characters).unwrap_err(), CtcError::InvalidToken(7));
    assert_eq!(ctc_decode(&vec![0, 0], &characters).unwrap().text, "");
}

#[test]
fn letterbox_matches_ultralytics_rectangular_prediction() {
    let letterbox = LetterBox::new(770, 1080, 1600).unwrap();
    assert_eq!((letterbox.resized_width, letterbox.resized_height), (1141, 1600));
    assert_eq!((letterbox.output_width, letterbox.output_height), (1152, 1600));
    assert_eq!((letterbox.pad_x, letterbox.pad_y), (5, 0));
}

#[test]
fn letterbox_keeps_stride_aligned_landscape_sizes() {
    let letterbox = LetterBox::new(1000, 500, 640).unwrap();
    assert_eq!((letterbox.resized_width, letterbox.resized_height), (640, 320));
    assert_eq!((letterbox.pad_x, letterbox.pad_y), (0, 0));
    assert_eq!((letterbox.output_width, letterbox.output_height), (640, 320));
    assert!(LetterBox::new(0, 10, 640).is_err());
}

#[test]
fn ellipse_matches_opencv_five_by_five_shape() {
    let kernel = opencv_ellipse(5);
    let shape = GrayImage::from_raw(kernel.width, kernel.height, kernel.pixels).unwrap();
    let source = GrayImage::from_fn(5, 5, |x, y| if x == 2 && y == 2 { image::Luma([255]) } else { image::Luma([0]) });
    let dilated = grayscale_dilate(&source, &Mask::from_image(&shape, 2, 2));
    let rows = dilated.as_raw().chunks(5).map(|row| row.iter().filter(|&&value| value != 0).count()).collect::<Vec<_>>();
    assert_eq!(rows, [1, 5, 5, 5, 1]);
}

#[test]
fn process_returns_the_padded_mask() {
    let mut pixels = vec![0u8; 9];
    pixels[4] = 255;
    let mask = GrayPixels { width: 3, height: 3, pixels };
    let cleaned = clean_mask(&mask, &MaskCleaning::default()).unwrap();
    assert!(cleaned.pixels.iter().all(|&pixel| pixel == 255));
}

#[test]
fn cleaning_refuses_oversized_steps_and_can_do_nothing() {
    let mask = GrayPixels { width: 2, height: 2, pixels: vec![0, 255, 0, 0] };
    let too_much = MaskCleaning { padding_iterations: 11, fill_holes: true, close_gaps_kernel: 2 };
    assert_eq!(clean_mask(&mask, &too_much), Err(TextMaskError::PaddingTooLarge));
    let big_kernel = MaskCleaning { padding_iterations: 1, fill_holes: true, close_gaps_kernel: 11 };
    assert_eq!(clean_mask(&mask, &big_kernel), Err(TextMaskError::KernelTooLarge));
    let nothing = MaskCleaning { padding_iterations: 0, fill_holes: false, close_gaps_kernel: 0 };
    assert_eq!(clean_mask(&mask, &nothing).unwrap().pixels, mask.pixels);
}

#[test]
fn mask_is_binary_and_can_be_dilated() {
    let mut pixels = vec![0u8; 512 * 512];
    pixels[256 * 512 + 256] = 128;
    let mask = GrayPixels { width: 512, height: 512, pixels };
    let mask = resize_mask(&mask, 512, 1);
    let at = |x: usize, y: usize| mask.pixels[y * 512 + x];
    assert_eq!(at(255, 255), 255);
    assert_eq!(at(256, 256), 255);
    assert_eq!(at(257, 257), 255);
    assert_eq!(at(258, 258), 0);
}

#[test]
fn compositing_restores_original_size_and_unmasked_pixels() {
    let original = RgbPixels {
        width: 3840,
        height: 2160,
        pixels: [10u8, 20, 30].iter().copied().cycle().take(3840 * 2160 * 3).collect(),
    };
    let generated = RgbPixels {
        width: 512,
        height: 512,
        pixels: [200u8, 210, 220].iter().copied().cycle().take(512 * 512 * 3).collect(),
    };
    let mut mask_pixels = vec![0u8; 512 * 512];
    for y in 0..512 {
        for x in 256..512 {
            mask_pixels[y * 512 + x] = 255;
        }
    }
    let mask = GrayPixels { width: 512, height: 512, pixels: mask_pixels };
    let output = composite(&original, &mask, &generated);
    assert_eq!((output.width, output.height), (3840, 2160));
    let pixel = |x: usize, y: usize| {
        let offset = 3 * (y * 3840 + x);
        [output.pixels[offset], output.pixels[offset + 1], output.pixels[offset + 2]]
    };
    assert_eq!(pixel(0, 1080), [10, 20, 30]);
    assert_eq!(pixel(3839, 1080), [200, 210, 220]);
}

#[test]
fn rorem_requests_are_checked_in_order() {
    assert_eq!(validate(4, 4, 4, 4, 512, 30, true, true, "clean", "text"), Ok(()));
    assert_eq!(validate(0, 4, 4, 4, 512, 30, true, true, "", ""), Err(RoremError::EmptyImage));
    assert_eq!(validate(4, 4, 4, 5, 700, 30, true, true, "", ""), Err(RoremError::SizeMismatch));
    assert_eq!(validate(4, 4, 4, 4, 700, 30, true, true, "", ""), Err(RoremError::UnsupportedResolution));
    assert_eq!(validate(4, 4, 4, 4, 1024, 0, true, true, "", ""), Err(RoremError::NoInferenceSteps));
    assert_eq!(validate(4, 4, 4, 4, 1024, 1, false, false, "", ""), Err(RoremError::InvalidGuidance));
    assert_eq!(validate(4, 4, 4, 4, 1024, 1, true, false, "", ""), Err(RoremError::InvalidStrength));
    assert_eq!(validate(4, 4, 4, 4, 1024, 1, true, true, "a\0b", ""), Err(RoremError::NulInPrompt));
    assert_eq!(validate(4, 4, 4, 4, 1024, 1, true, true, "", "\0"), Err(RoremError::NulInNegativePrompt));
    assert!(is_blank(&GrayPixels { width: 2, height: 1, pixels: vec![0, 0] }));
    assert!(!is_blank(&GrayPixels { width: 2, height: 1, pixels: vec![0, 3] }));
    let original = RgbPixels { width: 1, height: 1, pixels: vec![1, 2, 3] };
    let mask = GrayPixels { width: 1, height: 1, pixels: vec![255] };
    let wrong = RgbPixels { width: 2, height: 2, pixels: vec![0; 12] };
    assert_eq!(finish(&original, &mask, &wrong, 512).unwrap_err(), RoremError::UnexpectedOutputSize);
}

#[test]
fn lama_plans_crops_resizes_or_the_whole_image() {
    let mut pixels = vec![0u8; 1000 * 10];
    pixels[5 * 1000 + 500] = 255;
    let mask = GrayPixels { width: 1000, height: 10, pixels };
    let request = InpaintRequest::default();
    match plan_inpainting(1000, 10, &mask, &request).unwrap() {
        InpaintPlan::Crops(windows) => assert_eq!(windows, vec![[372, 0, 628, 10]]),
        other => panic!("expected crops, got {other:?}"),
    }
    let resize = InpaintRequest { hd_strategy: HDStrategy::Resize, hd_strategy_resize_limit: 500, ..InpaintRequest::default() };
    assert_eq!(plan_inpainting(1000, 10, &mask, &resize), Ok(InpaintPlan::Resized(500, 5)));
    let original = InpaintRequest { hd_strategy: HDStrategy::Original, ..InpaintRequest::default() };
    assert_eq!(plan_inpainting(1000, 10, &mask, &original), Ok(InpaintPlan::Whole));
    assert_eq!(plan_inpainting(999, 10, &mask, &request), Err(LamaError::SizeMismatch));
}

#[test]
fn lama_restores_unmasked_pixels_after_resizing() {
    let original = RgbPixels { width: 2, height: 1, pixels: vec![1, 2, 3, 4, 5, 6] };
    let inpainted = RgbPixels { width: 2, height: 1, pixels: vec![9, 9, 9, 8, 8, 8] };
    let mask = GrayPixels { width: 2, height: 1, pixels: vec![126, 127] };
    let restored = restore_after_resize(&inpainted, &original, &mask);
    assert_eq!(restored.pixels, vec![1, 2, 3, 8, 8, 8]);
}

#[test]
fn crops_and_pastes_round_trip() {
    let image = RgbPixels { width: 3, height: 2, pixels: (0..18).collect() };
    let crop = crop_rgb(&image, [1, 0, 3, 2]);
    assert_eq!(crop.pixels, vec![3, 4, 5, 6, 7, 8, 12, 13, 14, 15, 16, 17]);
    let gray = GrayPixels { width: 3, height: 2, pixels: vec![1, 2, 3, 4, 5, 6] };
    assert_eq!(crop_gray(&gray, [0, 1, 2, 2]).pixels, vec![4, 5]);
    let mut canvas = RgbPixels { width: 3, height: 2, pixels: vec![0; 18] };
    paste_rgb(&mut canvas, &crop, 1, 0);
    assert_eq!(crop_rgb(&canvas, [1, 0, 3, 2]).pixels, crop.pixels);
    assert_eq!(&canvas.pixels[0..3], &[0, 0, 0]);
    let restored = restore_unmasked(&canvas, &image, &GrayPixels { width: 3, height: 2, pixels: vec![0, 9, 9, 9, 9, 0] }, 1);
    assert_eq!(&restored.pixels[0..3], &[0, 1, 2]);
}

#[test]
fn pillow_image_processing_matches_reference() {
    let image = RgbPixels {
        width: 3,
        height: 2,
        pixels: vec![255, 0, 0, 0, 255, 0, 0, 0, 255, 255, 255, 255, 0, 0, 0, 128, 64, 32],
    };
    let gray = ocr_input(&image, 3, false, 2).unwrap();
    let expected: Vec<u8> = [76u8, 150, 29, 255, 0, 79].iter().flat_map(|v| [*v; 3]).collect();
    assert_eq!(gray.pixels, expected);
    let resized = ocr_input(&image, 2, true, 2).unwrap();
    let expected: Vec<u8> = [104u8, 74, 159, 49].iter().flat_map(|v| [*v; 3]).collect();
    assert_eq!(resized.pixels, expected);
    assert_eq!(ocr_input(&image, 2, true, 3).unwrap_err(), OcrInputError::UnsupportedResampling(3));
}

#[test]
fn derives_output_features_from_output_indices() {
    let (features, indices) = resolve_out_features(None, Some(vec![1, 3]), 4, Vec::new(), Vec::new()).unwrap();
    assert_eq!(features, ["stage1", "stage3"]);
    assert_eq!(indices, [1, 3]);
}

#[test]
fn rejects_inconsistent_output_features_and_indices() {
    let resolved = resolve_out_features(Some(vec!["stage1".to_owned()]), Some(vec![2]), 4, Vec::new(), Vec::new());
    assert_eq!(resolved, Err(OutFeaturesError::Inconsistent));
}

#[test]
fn output_stage_names_read_back() {
    assert_eq!(stage_name(0, 4).as_deref(), Some("stem"));
    assert_eq!(stage_name(4, 4).as_deref(), Some("stage4"));
    assert_eq!(stage_name(5, 4), None);
    assert_eq!(stage_index("stage2", 4), Some(2));
    assert_eq!(stage_index("stem", 4), Some(0));
    assert_eq!(stage_index("stage0", 4), None);
    assert_eq!(stage_index("stage9", 4), None);
    assert_eq!(
        resolve_out_features(Some(vec!["stem".to_owned(), "stage3".to_owned()]), None, 4, Vec::new(), Vec::new()),
        Ok((vec!["stem".to_owned(), "stage3".to_owned()], vec![0, 3]))
    );
    assert_eq!(
        resolve_out_features(None, None, 4, vec!["stage4".to_owned()], vec![4]),
        Ok((vec!["stage4".to_owned()], vec![4]))
    );
    assert_eq!(resolve_out_features(None, Some(vec![5]), 4, Vec::new(), Vec::new()), Err(OutFeaturesError::InvalidIndices));
}

#[test]
fn backbone_shapes_follow_the_configuration() {
    assert_eq!(Spatial::Scalar(2).pair(), [2, 2]);
    assert_eq!(Spatial::Pair([2, 1]).pair(), [2, 1]);
    let block = |out_channels| BlockConfig {
        kernel_size: 3,
        in_channels: 96,
        out_channels,
        stride: Spatial::Scalar(1),
        use_squeeze_excitation: false,
    };
    assert_eq!(stage_out_channels(&vec![vec![block(96)], Vec::new(), vec![block(96), block(192)]]), vec![96, 192]);
    assert_eq!(fixed_spatial_shapes(&[800, 608], &[8, 16, 32], 4), Some(vec![(100, 76), (50, 38), (25, 19), (12, 9)]));
    assert_eq!(fixed_spatial_shapes(&[800], &[8], 1), None);
    assert_eq!(level_start_index(&vec![(2, 3), (4, 5), (1, 1)]), vec![0, 6, 26]);
    assert_eq!(Activation::from_name("swish"), Activation::Silu);
    assert_eq!(Activation::from_name("gelu_new"), Activation::Gelu);
    assert_eq!(Activation::from_name("tanh"), Activation::Identity);
    let features = vec!["stem".to_owned(), "stage2".to_owned(), "stage9".to_owned(), "stage4".to_owned()];
    assert_eq!(hgnet_channels(&features, &vec![3, 32, 48], &vec![128, 512, 1024, 2048]), vec![48, 512, 2048]);
}

#[test]
fn doclayout_labels_come_in_id_order() {
    assert_eq!(doclayout_num_labels(None, 0), 2);
    assert_eq!(doclayout_num_labels(Some(25), 3), 25);
    assert_eq!(doclayout_labels(Some(3), &Vec::new()), vec!["LABEL_0", "LABEL_1", "LABEL_2"]);
    let named = vec![
        ("10".to_owned(), "text".to_owned()),
        ("x".to_owned(), "ignored".to_owned()),
        ("2".to_owned(), "title".to_owned()),
    ];
    assert_eq!(doclayout_labels(None, &named), vec!["title", "text"]);
}

#[test]
fn doclayout_labels_with_equal_ids_keep_their_configured_order() {
    let named = vec![
        ("01".to_owned(), "first".to_owned()),
        ("0".to_owned(), "zero".to_owned()),
        ("1".to_owned(), "second".to_owned()),
    ];
    assert_eq!(doclayout_labels(None, &named), vec!["zero", "first", "second"]);
}

#[test]
fn tokenizer_ids_become_prompt_ids_and_types() {
    let (ids, types) = prompt_ids(&vec![7, 100295, 100295, 4000000000], 100295);
    assert_eq!(ids, [7, 100295, 100295, 4000000000]);
    assert_eq!(types, [0, 1, 1, 0]);
}

#[test]
fn dilation_distances_are_capped_at_the_image_span() {
    let blank = GrayPixels { width: 100, height: 100, pixels: vec![0; 100 * 100] };
    assert!(resize_mask(&blank, 100, 200).pixels.iter().all(|&p| p == 255));
    assert!(resize_mask(&blank, 100, 199).pixels.iter().all(|&p| p == 0));
    let mut pixels = vec![0u8; 100 * 100];
    pixels[0] = 255;
    let corner = GrayPixels { width: 100, height: 100, pixels };
    let grown = resize_mask(&corner, 100, 3);
    assert_eq!(grown.pixels[3 * 100 + 3], 255);
    assert_eq!(grown.pixels[4], 0);
}

#[test]
fn smart_resize_handles_large_images() {
    assert_eq!(smart_resize(100_000_000, 1_000_000, 28, 0, 1_003_520), Ok((9996, 84)));
}

#[test]
fn small_spotting_inputs_are_doubled() {
    let image = RgbPixels { width: 2, height: 1, pixels: vec![10, 20, 30, 40, 50, 60] };
    let doubled = spotting_source(&image, PaddleOCRVLTask::Spotting);
    assert_eq!((doubled.width, doubled.height, doubled.pixels.len()), (4, 2, 24));
    let kept = spotting_source(&image, PaddleOCRVLTask::Ocr);
    assert_eq!((kept.width, kept.height), (2, 1));
    assert_eq!(kept.pixels, image.pixels);
}

#[test]
fn sampling_tokenizers_are_told_apart() {
    let plain = PromptCodec {
        tokenizer: tokenizers::Tokenizer::new(tokenizers::models::bpe::BPE::default()),
        image_token_id: 1,
        merge_size: 2,
    };
    assert!(plain.encodes_deterministically());
    let dropout = tokenizers::models::bpe::BPE::builder().dropout(0.5).build().unwrap();
    let sampling = PromptCodec { tokenizer: tokenizers::Tokenizer::new(dropout), image_token_id: 1, merge_size: 2 };
    assert!(!sampling.encodes_deterministically());
}

#[test]
fn an_empty_image_scales_to_one_pixel() {
    assert_eq!(resize_dimensions(0, 0, 640), (1, 1));
    assert_eq!(resize_dimensions(0, 0, 0), (1, 1));
}

#[test]
fn smart_resize_treats_negative_budgets_as_no_room() {
    assert_eq!(smart_resize(100, 100, 28, -5, -1), Ok((28, 28)));
    assert_eq!(smart_resize(100, 100, 28, -5, 1_003_520), Ok((112, 112)));
}
