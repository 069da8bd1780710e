//! Perceptual similarity: bit distance between 64-bit fingerprints and the
//! grouping of images whose fingerprints lie close to each other.

pub mod distance;
pub mod grouping;
pub mod links;
pub mod percent;
pub mod ranking;
pub mod report;

pub use distance::{fingerprint_from_flags, hamming_distance, FINGERPRINT_BITS};
pub use grouping::{collect_groups, label_groups};
pub use report::{find_similar_images, ImageEntry, SimilarGroup};
