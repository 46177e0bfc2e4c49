pub mod calibration;
pub mod calibration_file;
pub mod cli;
pub mod exact;
pub mod file_laws;
pub mod flags;
pub mod gpu;
pub mod gui;
pub mod images;
pub mod jpeg;
pub mod jpeg_laws;
pub mod lens_laws;
pub mod order;
pub mod parallel;
pub mod paths;
pub mod pipeline;
pub mod pixel_laws;
mod reals;
pub mod remap;
pub mod remap_laws;
pub mod scalar;
pub mod search;
pub mod text;
pub mod thumbnail_laws;
pub mod xmp;
