//! Note cache and file-sync reconciliation engine.
//!
//! Notes live as markdown files with a structured header inside a notes
//! directory that other programs may touch at any time.  This crate holds the
//! logic that keeps a side cache of parsed notes in agreement with that
//! directory: change detection by modification time, tag extraction and
//! content fingerprinting, suppression of the application's own write echoes,
//! and the reconciliation drivers for full and incremental resyncs.

pub mod cache;
pub mod hashing;
pub mod naming;
pub mod ops;
pub mod parse;
pub mod reconcile;
pub mod model;
pub mod tags;
pub mod text;
pub mod tracker;
