//! Image-stack assembly, render planning and sidecar bookkeeping for a RAW
//! photo editor.

pub mod acceptance;
pub mod background;
pub mod bounds;
pub mod color_samples;
pub mod crop;
pub mod descriptors;
pub mod exposure;
pub mod features;
pub mod fill;
pub mod flood;
pub mod focus_layer;
pub mod focus_stack;
pub mod grid;
pub mod layer_shift;
pub mod masks;
pub mod matching;
pub mod mosaic;
pub mod mosaic_ownership;
pub mod order;
pub mod ownership;
pub mod panorama;
pub mod paths;
pub mod preview_protocol;
pub mod ransac;
pub mod raster;
pub mod raw_processing;
pub mod registration;
pub mod render_layer;
pub mod render_strategy;
pub mod resample;
pub mod seam_band;
pub mod seam_cut;
pub mod seam_distance;
pub mod seam_path;
pub mod shift_search;
pub mod sidecar_storage;
pub mod text;
pub mod tiles;
pub mod window;
