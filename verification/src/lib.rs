//! Turns palette-indexed bitmap subtitle events into cropped, bordered,
//! binarized line images and assembles per-event recognized text, with the
//! segmentation and ordering logic verified.

pub mod ocr;
pub mod opt;
pub mod preprocessor;
