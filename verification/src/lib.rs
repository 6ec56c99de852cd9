//! Text-line recognition around a sequence model: page segmentation, line normalisation,
//! label decoding and accuracy scoring.

pub mod bands;
pub mod decoder;
pub mod edits;
pub mod model_manager;
pub mod monocr;
pub mod output;
pub mod pages;
pub mod pipeline;
pub mod profile;
pub mod raster;
pub mod resample;
pub mod segmenter;
pub mod tensor;
pub mod text;
pub mod utils;

pub use monocr::{LineResult, MonOcr, MonOcrBuilder};
pub use pipeline::OcrResult;
pub use raster::GrayImage;
pub use utils::calculate_accuracy;
