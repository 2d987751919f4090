//! Modified Median Cut Quantization (MMCQ): reduces the color palette of an
//! image, given as a flat sequence of RGBA pixels, to a small set of
//! representative axis-aligned regions of quantized color space.

pub mod color_calc;
pub mod counting;
pub mod data_models;
pub mod mmcq;
pub mod queue;
pub mod stats;
