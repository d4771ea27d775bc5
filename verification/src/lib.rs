//! Verified core of GameReader: the logic that turns OCR'd subtitle text into
//! dialogue-line matches, plus the geometry, queueing and configuration rules
//! around it.

pub mod capture;
pub mod text;
pub mod similarity;
pub mod matcher;
pub mod text_filters;
pub mod dedup;
pub mod hotkeys;
pub mod resolution;
pub mod validation;
pub mod region;
pub mod presets;
pub mod audio;
pub mod logging;
pub mod ocr;
pub mod preprocessing;
pub mod actions;
pub mod engine;
pub mod windows;
pub mod state;
pub mod text_grouping;
