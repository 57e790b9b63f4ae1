//! Masked byte-pattern search over a read-only buffer, driven by 128-bit
//! vector comparisons.
//!
//! A textual signature such as `"48 8B ?? 05"` is compiled into a byte
//! sequence, a per-byte inclusion mask and a leading-wildcard count. The
//! scan engine broadcasts the first concrete byte (the anchor) into a
//! 16-lane vector, sweeps the haystack in 16-byte windows to find anchor
//! candidates, and verifies each candidate against 16-byte pattern blocks
//! using a match table of the concrete byte offsets. The vector layer is a
//! portable, bounds-checked backend with the exact lane semantics of the
//! native 128-bit instructions, so every step of the search is verified.

pub mod blocks;
pub mod match_table;
pub mod pattern;
pub mod scan;
pub mod vector;

pub use blocks::pattern_to_vec;
pub use match_table::build_match_indexes;
pub use pattern::ParseError;
pub use pattern::SimdPatternScanData;
pub use scan::find_pattern_neon;
pub use scan::get_offset_neon;
pub use vector::Vector128;
