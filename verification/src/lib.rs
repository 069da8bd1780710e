//! A local content-addressable file index: records keyed by content hash,
//! deletion history, scan snapshots and near-duplicate image clustering.

pub mod category;
pub mod clock;
pub mod hashing;
pub mod history;
pub mod index;
pub mod integrity;
pub mod keys;
pub mod locate;
pub mod messages;
pub mod paths;
pub mod records;
pub mod scan;
pub mod similarity;
pub mod sorted;
pub mod text;
pub mod vault;
