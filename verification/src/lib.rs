//! Subtitle band detection on luma planes: thresholding, gap bridging,
//! band projection, run-length connected components, region scoring and
//! merging, frame sampling, and the small helpers around them.

pub mod text;
pub mod grid;
pub mod mask;
pub mod bridge;
pub mod bands;
pub mod dsu;
pub mod runs;
pub mod components;
pub mod integral;
pub mod region;
pub mod merge;
pub mod detector;
pub mod frame;
pub mod sink;
pub mod cli;
pub mod gui;
pub mod projection;
pub mod sampler;
pub mod presence;
pub mod dump;
pub mod model;
pub mod backend;
pub mod closing;
pub mod score_map;
pub mod detection;
pub mod gui_text;
pub mod session;
