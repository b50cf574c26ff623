//! Statistical detection of machine code in binary files.
//!
//! A reference corpus holds one byte sample per architecture. The library
//! counts the byte n-grams of every sample and of every window of a target
//! file, ranks the architectures of each window by divergence, and decides
//! which architecture, if any, a window is labelled with.
//!
//! The library works on integers throughout. Frequencies are exact
//! fractions, and a divergence is a fixed-point number in millionths. The
//! one thing that the library leaves to its caller is the logarithm: it
//! hands out the terms of a divergence, takes the logarithm of each back,
//! and weights and sums them exactly.

pub mod arch_map;
pub mod color;
pub mod corpus;
pub mod detection;
pub mod divergence;
pub mod heuristic;
pub mod names;
pub mod ngram;
pub mod order;
pub mod output;
pub mod processed;
pub mod range_map;
pub mod stats;
pub mod window;

pub use crate::arch_map::ArchMap;
pub use crate::color::arch_idx_to_color;
pub use crate::corpus::{
    corpus_entry, load_corpus, window_stats, BaseCount, CorpusStats, Divergences, KlTerm, KlTerms,
    NgramFreqs, Ratio,
};
pub use crate::detection::{calculate_kl, DetectionResult, KlRes, RangeFullKlRes};
pub use crate::divergence::{divergence, KlLogs};
pub use crate::heuristic::{final_range_result, is_strict, RangeResult};
pub use crate::output::CliJsonOutput;
pub use crate::processed::ProcessedDetectionResult;
pub use crate::range_map::RangeMap;
pub use crate::stats::{calculate_mean, calculate_variance};
pub use crate::window::{half_window, plan_windows, windows};
