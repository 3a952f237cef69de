use koharu::pipeline::execution::{RunAction, RunState, RunStatus};
use koharu::pipeline::error::{ErrorKind, PipelineError};
use koharu::pipeline::config::{
    ConfigError, Flux2KleinConfig, InpaintingModel, InpaintingProfiles, OcrModel, RoremMixedConfig,
};
use koharu::pipeline::providers::{
    apply_utilization, card_id, card_name, card_sample, gather_samples, linux_samples, parse_counter,
    parse_pci_id, reports_nvidia, sort_by_id, utf16_name, CardReading, Utilization,
};
use koharu::pipeline::request::{Operation, OperationError, StopToken};
use koharu::pipeline::resources::{
    is_accelerated, map_samples, names_match, select_sample, unavailable, vendor, vendor_matches_backend, Backend, Device,
    DeviceType, Sample, Vendor,
};
use koharu::pipeline::runtime::{image_media_type, other_stages, retry_wait, ModelSlot, StageSlots};
use koharu::pipeline::scope::{
    check_entity_scope, keep_listed, scope_pages, semantic_closure, Relation, ScopeError,
};
use koharu::pipeline::stage::Stage;
use koharu::pipeline::translation::{translation_targets, translations_to_write, written_translation, TextLayer};

#[test]
fn operations_expand_to_the_supported_workflows() {
    assert_eq!(
        Operation::Through { stage: Stage::Translation }.stages().unwrap(),
        vec![Stage::Detection, Stage::Ocr, Stage::Translation],
    );
    assert_eq!(
        Operation::Through { stage: Stage::Inpainting }.stages().unwrap(),
        vec![Stage::Detection, Stage::Inpainting],
    );
    assert_eq!(Operation::Only { stage: Stage::Translation }.stages().unwrap(), vec![Stage::Translation]);
    assert_eq!(
        Operation::Stages { stages: vec![Stage::Translation, Stage::Detection, Stage::Translation] }
            .stages()
            .unwrap(),
        vec![Stage::Detection, Stage::Translation],
    );
}

#[test]
fn full_operation_runs_every_stage_and_empty_lists_are_refused() {
    assert_eq!(
        Operation::Full.stages().unwrap(),
        vec![Stage::Detection, Stage::Ocr, Stage::Translation, Stage::Inpainting]
    );
    assert_eq!(Operation::default(), Operation::Full);
    assert_eq!(Operation::Stages { stages: Vec::new() }.stages(), Err(OperationError::NoStageSelected));
    assert_eq!(Operation::Through { stage: Stage::Detection }.stages().unwrap(), vec![Stage::Detection]);
}

#[test]
fn expanding_an_expansion_again_changes_nothing() {
    let first = Operation::Through { stage: Stage::Ocr }.stages().unwrap();
    let again = Operation::Stages { stages: first.clone() }.stages().unwrap();
    assert_eq!(first, again);
}

#[test]
fn stop_token_is_shared_between_clones() {
    let token = StopToken::default();
    let other = token.clone();
    assert!(!other.stopped());
    token.stop();
    assert!(other.stopped());
}

#[test]
fn stage_names_read_back_in_any_ascii_case() {
    assert_eq!(Stage::Inpainting.name(), "inpainting");
    for stage in Stage::all() {
        assert_eq!(Stage::parse(stage.name()), Some(stage));
    }
    assert_eq!(Stage::parse("OCR"), Some(Stage::Ocr));
    assert_eq!(Stage::parse("Translation"), Some(Stage::Translation));
    assert_eq!(Stage::parse("render"), None);
    assert_eq!(Stage::ALL.len(), 4);
}

#[test]
fn ocr_model_names_read_back() {
    assert_eq!(OcrModel::from_name("manga-ocr"), Ok(OcrModel::MangaOcr));
    assert_eq!(OcrModel::from_name("paddleocr-vl-1.6"), Ok(OcrModel::PaddleOcrVl1_6));
    assert_eq!(OcrModel::from_name("Manga-OCR"), Err(ConfigError::UnsupportedOcrModel));
    for model in [OcrModel::PaddleOcrVl1_6, OcrModel::MangaOcr, OcrModel::BaberuOcr, OcrModel::HayaiOcr] {
        assert_eq!(OcrModel::from_name(model.name()), Ok(model));
    }
}

#[test]
fn inpainting_selection_takes_saved_profiles() {
    let profiles = InpaintingProfiles {
        flux2_klein: None,
        rorem_mixed: Some(RoremMixedConfig {
            prompt: "Remove the lettering.".to_owned(),
            negative_prompt: "letters, words".to_owned(),
        }),
    };
    let model = InpaintingModel::from_name("rorem-mixed", &profiles).unwrap();
    assert_eq!(
        model,
        InpaintingModel::RoremMixed(RoremMixedConfig {
            prompt: "Remove the lettering.".to_owned(),
            negative_prompt: "letters, words".to_owned(),
        })
    );
    assert_eq!(InpaintingModel::from_name("lama", &profiles), Ok(InpaintingModel::LaMa {}));
    assert_eq!(
        InpaintingModel::from_name("flux2-klein", &profiles),
        Ok(InpaintingModel::Flux2Klein(Flux2KleinConfig { prompt: String::new() }))
    );
    assert_eq!(
        InpaintingModel::from_name("stable-diffusion", &profiles),
        Err(ConfigError::UnsupportedInpaintingModel)
    );
}

#[test]
fn keeps_profiles_separate_from_active_model() {
    let active = InpaintingModel::Flux2Klein(Flux2KleinConfig { prompt: "active prompt".to_owned() });
    let profiles = InpaintingProfiles {
        flux2_klein: Some(Flux2KleinConfig { prompt: "saved prompt".to_owned() }),
        rorem_mixed: None,
    };
    assert_eq!(
        active.resolve(&profiles),
        InpaintingModel::Flux2Klein(Flux2KleinConfig { prompt: "saved prompt".to_owned() })
    );
    assert_eq!(
        active.resolve(&InpaintingProfiles::default()),
        InpaintingModel::Flux2Klein(Flux2KleinConfig { prompt: "active prompt".to_owned() })
    );
}

#[test]
fn saved_configuration_reads_back_the_same_model() {
    let active = InpaintingModel::Flux2Klein(Flux2KleinConfig { prompt: "Keep the line art.".to_owned() });
    let profiles = InpaintingProfiles::default();
    let saved = active.save_profile(&profiles);
    assert_eq!(saved.flux2_klein, Some(Flux2KleinConfig { prompt: "Keep the line art.".to_owned() }));
    let read = InpaintingModel::from_name(active.name(), &saved).unwrap();
    assert_eq!(read.resolve(&saved), active.resolve(&profiles));
}

#[test]
fn nvml_and_dxgi_names_match_without_case_sensitivity() {
    assert!(names_match("NVIDIA GeForce RTX 5090", "nvidia geforce rtx 5090"));
    assert!(names_match("GeForce RTX 5090", "NVIDIA GeForce RTX 5090"));
    assert!(!names_match("NVIDIA RTX 5090", "AMD Radeon"));
    assert!(!names_match("", ""));
}

#[test]
fn names_are_trimmed_before_matching() {
    assert!(names_match("  Radeon RX 7900 \n", "radeon rx 7900"));
    assert!(!names_match("   ", "Radeon"));
}

fn gpu(id: usize, name: &str, vendor: Vendor) -> Sample {
    Sample {
        id,
        name: name.to_owned(),
        vendor,
        budget_bytes: 8 * 1024 * 1024 * 1024,
        used_bytes: 2 * 1024 * 1024 * 1024,
        utilization_percent: Some(25),
    }
}

fn cuda(index: usize) -> Device {
    Device {
        device_type: DeviceType::Gpu,
        backend: Backend::Cuda,
        index,
        name: format!("cuda:{index}"),
        description: format!("CUDA device {index}"),
    }
}

#[test]
fn selects_the_backend_specific_device() {
    let devices = map_samples(
        &cuda(1),
        vec![
            gpu(0, "AMD Radeon", Vendor::Amd),
            gpu(0, "NVIDIA RTX 4080", Vendor::Nvidia),
            gpu(1, "NVIDIA RTX 4090", Vendor::Nvidia),
        ],
    );
    assert!(!devices[0].selected);
    assert!(!devices[1].selected);
    assert!(devices[2].selected);
    assert_eq!(devices[2].memory_budget_bytes, Some(8 * 1024 * 1024 * 1024));
    assert_eq!(devices[2].utilization_percent, Some(25));
}

#[test]
fn selection_prefers_names_then_ids_then_positions() {
    let mut target = cuda(0);
    target.description = "NVIDIA RTX 4090".to_owned();
    let samples = vec![gpu(0, "NVIDIA RTX 4080", Vendor::Nvidia), gpu(1, "NVIDIA RTX 4090", Vendor::Nvidia)];
    assert_eq!(select_sample(&target, &samples), Some(1));
    let vulkan = Device {
        device_type: DeviceType::Gpu,
        backend: Backend::Vulkan,
        index: 1,
        name: "vulkan".to_owned(),
        description: "Vulkan".to_owned(),
    };
    let samples = vec![gpu(5, "X1", Vendor::Intel), gpu(6, "Y2", Vendor::Amd), gpu(7, "Z3", Vendor::Amd)];
    assert_eq!(select_sample(&vulkan, &samples), Some(1));
    assert_eq!(select_sample(&cuda(9), &vec![gpu(3, "AMD", Vendor::Amd)]), Some(0));
    assert_eq!(select_sample(&cuda(0), &Vec::new()), None);
}

#[test]
fn samples_without_budget_show_no_memory() {
    let mut sample = gpu(0, "GPU", Vendor::Nvidia);
    sample.budget_bytes = 0;
    let devices = map_samples(&cuda(0), vec![sample]);
    assert_eq!(devices[0].memory_budget_bytes, None);
    assert_eq!(devices[0].memory_used_bytes, None);
}

#[test]
fn unknown_metrics_remain_unknown() {
    let vulkan = Device {
        device_type: DeviceType::Gpu,
        backend: Backend::Vulkan,
        index: 0,
        name: "vulkan:0".to_owned(),
        description: "Vulkan device 0".to_owned(),
    };
    let devices = unavailable(&vulkan);
    assert!(devices[0].selected);
    assert_eq!(devices[0].memory_budget_bytes, None);
    let cpu = Device {
        device_type: DeviceType::Cpu,
        backend: Backend::Cpu,
        index: 0,
        name: "cpu".to_owned(),
        description: "CPU".to_owned(),
    };
    assert!(unavailable(&cpu).is_empty());
}

#[test]
fn vendors_follow_pci_ids_and_backends() {
    assert_eq!(vendor(0x10de), Vendor::Nvidia);
    assert_eq!(vendor(0x1022), Vendor::Amd);
    assert_eq!(vendor(0x8086), Vendor::Intel);
    assert_eq!(vendor(0x1234), Vendor::Unknown);
    assert!(vendor_matches_backend(Vendor::Amd, &Backend::Rocm));
    assert!(!vendor_matches_backend(Vendor::Amd, &Backend::Cuda));
    assert!(vendor_matches_backend(Vendor::Unknown, &Backend::Other("dml".to_owned())));
    assert!(!vendor_matches_backend(Vendor::Nvidia, &Backend::Cpu));
}

#[test]
fn sysfs_values_parse_as_std_does() {
    assert_eq!(parse_counter(" 8589934592\n"), Some(8_589_934_592));
    assert_eq!(parse_counter("+7"), Some(7));
    assert_eq!(parse_counter("-7"), None);
    assert_eq!(parse_counter("18446744073709551616"), None);
    assert_eq!(parse_counter(""), None);
    assert_eq!(parse_pci_id("0x10de\n"), Some(0x10de));
    assert_eq!(parse_pci_id("0x0x1002"), Some(0x1002));
    assert_eq!(parse_pci_id("ABCD"), Some(0xabcd));
    assert_eq!(parse_pci_id("0x"), None);
    assert_eq!(parse_pci_id("100000000"), None);
}

#[test]
fn drm_cards_are_named_and_numbered() {
    assert_eq!(card_id("card0"), Some(0));
    assert_eq!(card_id("card12"), Some(12));
    assert_eq!(card_id("card0-DP-1"), None);
    assert_eq!(card_id("renderD128"), None);
    assert_eq!(card_name(Vendor::Amd, "card1"), "AMD card1");
    assert_eq!(card_name(Vendor::Unknown, "card1"), "card1");
    let reading = CardReading {
        card: "card1".to_owned(),
        vendor_id: Some(0x1002),
        memory: Some((100, 40)),
        busy_percent: Some(12),
    };
    let sample = card_sample(&reading, false).unwrap();
    assert_eq!((sample.id, sample.name.as_str(), sample.vendor), (1, "AMD card1", Vendor::Amd));
    assert_eq!((sample.budget_bytes, sample.used_bytes, sample.utilization_percent), (100, 40, Some(12)));
    let nvidia = CardReading { card: "card0".to_owned(), vendor_id: Some(0x10de), memory: Some((1, 1)), busy_percent: None };
    assert!(card_sample(&nvidia, true).is_none());
    assert!(card_sample(&nvidia, false).is_some());
    let no_memory = CardReading { card: "card2".to_owned(), vendor_id: None, memory: None, busy_percent: None };
    assert!(card_sample(&no_memory, false).is_none());
}

#[test]
fn samples_are_sorted_by_id() {
    let sorted = sort_by_id(vec![gpu(3, "c", Vendor::Amd), gpu(1, "a", Vendor::Amd), gpu(2, "b", Vendor::Amd)]);
    let ids: Vec<usize> = sorted.iter().map(|sample| sample.id).collect();
    assert_eq!(ids, [1, 2, 3]);
}

#[test]
fn nvml_readings_keep_the_first_error_only_when_nothing_reads() {
    let gathered = gather_samples(vec![Err("first".to_owned()), Ok(gpu(1, "b", Vendor::Nvidia)), Err("third".to_owned())]);
    assert_eq!(gathered.unwrap().len(), 1);
    let failed = gather_samples(vec![Err("first".to_owned()), Err("second".to_owned())]);
    assert_eq!(failed.unwrap_err(), "first");
    assert!(gather_samples(Vec::new()).unwrap().is_empty());
    assert!(reports_nvidia(&vec![gpu(0, "a", Vendor::Amd), gpu(1, "b", Vendor::Nvidia)]));
    assert!(!reports_nvidia(&vec![gpu(0, "a", Vendor::Amd)]));
    assert_eq!(linux_samples(vec![gpu(0, "a", Vendor::Nvidia)], vec![gpu(1, "b", Vendor::Amd)]).unwrap().len(), 2);
    assert!(linux_samples(Vec::new(), Vec::new()).is_err());
}

#[test]
fn nvml_utilization_goes_to_matching_adapters_once() {
    let mut samples = vec![
        gpu(0, "NVIDIA GeForce RTX 4090", Vendor::Nvidia),
        gpu(1, "Intel UHD", Vendor::Intel),
        gpu(2, "NVIDIA GeForce RTX 3060", Vendor::Nvidia),
    ];
    for sample in &mut samples {
        sample.utilization_percent = None;
    }
    let devices = vec![
        Utilization { name: "NVIDIA GeForce RTX 3060".to_owned(), percent: 7 },
        Utilization { name: "NVIDIA GeForce RTX 4090".to_owned(), percent: 91 },
    ];
    apply_utilization(&mut samples, devices);
    assert_eq!(samples[0].utilization_percent, Some(91));
    assert_eq!(samples[1].utilization_percent, None);
    assert_eq!(samples[2].utilization_percent, Some(7));
}

#[test]
fn dxgi_names_stop_at_the_first_zero() {
    let units: Vec<u16> = "Radeon".encode_utf16().chain([0, 65, 66]).collect();
    assert_eq!(utf16_name(&units), "Radeon");
    let full: Vec<u16> = "GPU".encode_utf16().collect();
    assert_eq!(utf16_name(&full), "GPU");
}

#[test]
fn page_scope_keeps_project_order() {
    let pages = vec![10, 20, 30];
    assert_eq!(scope_pages(&pages, &vec![30, 10]), Ok(vec![10, 30]));
    assert_eq!(scope_pages(&pages, &Vec::new()), Err(ScopeError::EmptyPageScope));
    assert_eq!(scope_pages(&pages, &vec![40, 10, 35]), Err(ScopeError::UnknownPage(35)));
    assert_eq!(keep_listed(&pages, &vec![20, 20]), vec![20]);
}

#[test]
fn entity_scope_refuses_page_only_stages() {
    assert_eq!(
        check_entity_scope(true, &vec![Stage::Ocr, Stage::Inpainting]),
        Err(ScopeError::EntityScopeUnsupported)
    );
    assert_eq!(check_entity_scope(true, &vec![Stage::Ocr, Stage::Translation]), Ok(()));
    assert_eq!(check_entity_scope(false, &vec![Stage::Detection]), Ok(()));
}

#[test]
fn semantic_closure_follows_relations_both_ways() {
    let relations = vec![
        Relation { source: 1, target: 2, semantic: true },
        Relation { source: 3, target: 2, semantic: true },
        Relation { source: 3, target: 4, semantic: false },
        Relation { source: 5, target: 6, semantic: true },
    ];
    let mut closure = semantic_closure(&vec![1, 1], &relations);
    closure.sort();
    assert_eq!(closure, vec![1, 2, 3]);
    let mut alone = semantic_closure(&vec![7], &relations);
    alone.sort();
    assert_eq!(alone, vec![7]);
}

#[test]
fn translation_targets_skip_blank_and_out_of_scope_layers() {
    let layers = vec![
        TextLayer { content: 1, in_scope: true, source: Some("こんにちは".to_owned()) },
        TextLayer { content: 2, in_scope: true, source: Some("   ".to_owned()) },
        TextLayer { content: 3, in_scope: false, source: Some("外".to_owned()) },
        TextLayer { content: 4, in_scope: true, source: None },
        TextLayer { content: 5, in_scope: true, source: Some("…".to_owned()) },
    ];
    let targets = translation_targets(&layers);
    assert_eq!(targets, vec![(1, "こんにちは".to_owned()), (5, "…".to_owned())]);
    let writes = translations_to_write(&targets, vec!["Hello".to_owned(), "...".to_owned()], &vec![false, false]);
    assert_eq!(writes, vec![(1, "Hello".to_owned()), (5, "…".to_owned())]);
    let kept = translations_to_write(&targets, vec!["Hello".to_owned()], &vec![true, false]);
    assert!(kept.is_empty());
    assert_eq!(written_translation(" … ", "dots".to_owned()), "…");
    assert_eq!(written_translation("……", "dots".to_owned()), "dots");
}

#[test]
fn retry_delays_double_up_to_thirty_seconds() {
    assert_eq!(retry_wait(1, 1000), (1137, 2000));
    assert_eq!(retry_wait(2, 16_000), (16_023, 30_000));
    assert_eq!(retry_wait(3, 30_000), (30_160, 30_000));
    let mut delay = 1000;
    for attempt in 1..10 {
        delay = retry_wait(attempt, delay).1;
    }
    assert_eq!(delay, 30_000);
}

#[test]
fn loads_once_until_unloaded() {
    let mut slot = ModelSlot::new();
    assert!(slot.needs_load());
    slot.fill(1_u32);
    slot.fill(2_u32);
    assert_eq!(slot.get(), Some(&1));
    assert!(slot.unload());
    assert!(!slot.unload());
    slot.fill(3_u32);
    assert_eq!(slot.get(), Some(&3));
}

#[test]
fn other_stages_are_unloaded_in_pipeline_order() {
    assert_eq!(other_stages(Stage::Ocr), vec![Stage::Detection, Stage::Translation, Stage::Inpainting]);
}

#[test]
fn media_types_follow_the_extension() {
    assert_eq!(image_media_type(Some("JPG")), "image/jpeg");
    assert_eq!(image_media_type(Some("jpeg")), "image/jpeg");
    assert_eq!(image_media_type(Some("WebP")), "image/webp");
    assert_eq!(image_media_type(Some("png")), "image/png");
    assert_eq!(image_media_type(None), "image/png");
}

#[test]
fn only_accelerator_targets_share_a_lane() {
    assert!(is_accelerated(&cuda(0)));
    let mut host = cuda(0);
    host.backend = Backend::Cpu;
    assert!(!is_accelerated(&host));
    let mut cpu = cuda(0);
    cpu.device_type = DeviceType::Cpu;
    assert!(!is_accelerated(&cpu));
}

#[test]
fn sorting_by_id_keeps_equal_ids_in_their_order() {
    let sorted = sort_by_id(vec![
        gpu(2, "first two", Vendor::Amd),
        gpu(1, "one", Vendor::Intel),
        gpu(2, "second two", Vendor::Amd),
        gpu(0, "zero", Vendor::Amd),
    ]);
    let names: Vec<&str> = sorted.iter().map(|sample| sample.name.as_str()).collect();
    assert_eq!(names, ["zero", "one", "first two", "second two"]);
}

#[test]
fn error_messages_name_the_stage_and_the_cause() {
    assert_eq!(PipelineError::compose_message(Some(Stage::Ocr), "model missing"), "pipeline ocr failed: model missing");
    assert_eq!(PipelineError::compose_message(None, "stopped"), "pipeline failed: stopped");
    let error = PipelineError::new(ErrorKind::Processing, Some(Stage::Detection), anyhow::Error::msg("bad page"));
    assert_eq!(error.message(), "pipeline detection failed: bad page");
}

#[test]
fn adapter_names_decode_pairs_and_replace_lone_surrogates() {
    let units = vec![0x47, 0xD83D, 0xDE00, 0xDC00, 0xD800, 0x41, 0, 0x42];
    assert_eq!(utf16_name(&units), "G\u{1F600}\u{FFFD}\u{FFFD}A");
}

#[test]
fn recovering_unloads_every_other_stage() {
    let mut slots: StageSlots<u8, u8, u8, u8> = StageSlots {
        detection: ModelSlot::new(),
        ocr: ModelSlot::new(),
        translation: ModelSlot::new(),
        inpainting: ModelSlot::new(),
    };
    slots.ocr.fill(1);
    slots.inpainting.fill(2);
    assert!(slots.unload_other_models(Stage::Inpainting));
    assert!(slots.ocr.needs_load());
    assert!(!slots.inpainting.needs_load());
    assert!(!slots.unload_other_models(Stage::Inpainting));
}

#[test]
fn a_stop_before_the_first_page_ends_with_nothing_done() {
    let mut run = RunState::new(0);
    assert_eq!(run.next(true), RunAction::Finish(RunStatus::Stopped));
    assert_eq!(run.completed, 0);
    assert_eq!(run.next(false), RunAction::Finish(RunStatus::Stopped));
}

#[test]
fn a_stop_after_a_page_keeps_it_done() {
    let mut run = RunState::new(2);
    assert_eq!(run.next(false), RunAction::RunPage(0));
    run.page_done();
    assert_eq!(run.next(true), RunAction::Finish(RunStatus::Stopped));
    assert_eq!((run.completed, run.total), (1, 2));
}

#[test]
fn a_run_without_stop_completes_every_page() {
    let mut run = RunState::new(2);
    assert_eq!(run.next(false), RunAction::RunPage(0));
    run.page_done();
    assert_eq!(run.next(false), RunAction::RunPage(1));
    run.page_done();
    assert_eq!(run.next(false), RunAction::Finish(RunStatus::Completed));
    assert_eq!(run.finished, Some(RunStatus::Completed));
}

#[test]
fn chain_messages_list_every_cause() {
    let error = PipelineError::new(ErrorKind::Commit, None, anyhow::Error::msg("disk full").context("saving page"));
    assert_eq!(error.message(), "pipeline failed: saving page");
    assert_eq!(error.chain_message(), "pipeline failed: saving page: disk full");
}
