//! Screenshot ingestion and retrieval library.
//!
//! Captured screenshots are deduplicated by a perceptual difference hash,
//! stored on disk under a path computed from their capture time and source
//! screen, and their extracted text is indexed for full-text search.

use vstd::prelude::*;

pub mod datetime;
pub mod dedup;
pub mod fingerprint;
pub mod rebuild;
pub mod search;
pub mod service;
pub mod snippet;
pub mod storage;

verus! {

/// Width of the downscaled luminance signature, in sample columns that
/// contribute a bit (one extra column is kept for the horizontal gradient).
pub const IMG_WIDTH: usize = 16;

/// Height of the downscaled luminance signature.
pub const IMG_HEIGHT: usize = 9;

/// Number of bits in a fingerprint.
pub const IMG_SIZE: usize = 144;

} // verus!
