//! Configuration surface consumed by the segmentation pipeline and the OCR
//! outcome logic: plain values only, validated by their well-formedness
//! predicates.

use vstd::prelude::*;

verus! {

/// The character script the recognition engine is asked to detect.
#[derive(Clone, Copy, Debug)]
pub enum Script {
    Autodetect,
    SimplifiedChinese,
    TraditionalChinese,
}

/// Binarization threshold as an exact rational in [0, 1]: a visible palette
/// slot is ink when its luminance, normalized by the maximum visible
/// luminance, strictly exceeds `num / den`.
#[derive(Clone, Copy, Debug)]
pub struct Threshold {
    pub num: u32,
    pub den: u32,
}

impl Threshold {
    pub open spec fn wf(self) -> bool {
        0 < self.den && self.num <= self.den
    }
}

/// Values the core works from; path handling, argument parsing and defaults
/// are the caller's business.
pub struct Opt {
    /// Threshold for subtitle image binarization.
    pub threshold: Threshold,
    /// Resolution hint handed to the recognition engine.
    pub dpi: i32,
    /// White border, in pixels, around each rendered line image.
    pub border: usize,
    /// Engine model-data directory, if not the engine's default.
    pub tessdata_dir: Option<String>,
    /// Engine language code.
    pub lang: String,
    /// Characters the engine is told never to produce.
    pub blacklist: String,
    /// Ordered engine-variable overrides as (name, value) pairs, applied
    /// after the built-in settings so that user overrides win on conflict.
    pub config: Vec<(String, String)>,
}

impl Opt {
    pub open spec fn wf(self) -> bool {
        self.threshold.wf() && self.dpi > 0
    }
}

} // verus!
