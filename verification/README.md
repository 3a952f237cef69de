# koharu

The decision logic of Koharu's manga translation pipeline and of the
pre- and post-processing around its machine-learning models, written in Verus
with its contracts proved.

## Layout

- `src/pipeline/`: stages and operations (`stage`, `request`), the error type
  (`error`), the page-by-page run with its stop handling (`execution`), model selection and saved profiles (`config`), accelerator
  telemetry (`resources`, `providers`), scope checks and the semantic closure
  of a selection (`scope`), translation targets (`translation`), and runtime
  helpers such as the retry schedule and the lazily filled model slot
  (`runtime`).
- `src/ml/`: image buffers and windows (`raster`), resampling through
  fast_image_resize (`resize`), morphology through imageproc (`morphology`),
  text mask cleaning and hole filling (`text_mask`), LaMa inpainting plans
  (`lama`), RoRem mask handling and compositing (`rorem`), Manga OCR text
  post-processing, tokenizer and repetition control (`manga_ocr`), beam
  selection (`beam`), PaddleOCR-VL prompts, resizing, rotary positions and
  greedy decoding (`paddle_ocr`, `rope`, `decoding`), CTC decoding
  (`recognition`), backbone configuration (`backbone`) and YOLO letterboxing
  (`yolo`).
- `src/text.rs`, `src/math.rs`: character and integer helpers with their
  specifications.
- `tests/`: executable tests of the library.
- `app/`: the command-line front end, which reads the page image and the
  host's accelerator counters and hands them to the library.
