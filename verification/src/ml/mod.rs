pub mod backbone;
pub mod beam;
pub mod decoding;
pub mod lama;
pub mod manga_ocr;
pub mod morphology;
pub mod paddle_ocr;
pub mod raster;
pub mod recognition;
pub mod resize;
pub mod rope;
pub mod rorem;
pub mod text_mask;
pub mod yolo;
