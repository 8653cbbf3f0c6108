//! A verified core for a personal media-library browser.
//!
//! The crate walks an in-memory picture of a directory tree, filters it by
//! file extension, aggregates per-file tag metadata into deterministic
//! category hierarchies, and keeps a persistent cache of those hierarchies
//! in an embedded key-value store.

pub mod file_tree;
pub mod media_metadata;
pub mod right_panel;
pub mod sled_store;
pub mod tag_codec;
pub mod text;
pub mod utils;
pub mod xspf;
