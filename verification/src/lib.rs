//! Core engine of `si`: a local catalog of downloaded machine-learning model
//! artifacts, kept consistent with an on-disk artifact cache.
//!
//! The crate is organised around plain data: the catalog document is
//! modelled as an in-memory text medium, and the artifact cache as a
//! snapshot of plain values. All decisions — loading and saving the catalog,
//! upserting records, scanning the cache for candidate models,
//! reconstructing records from cache contents, and the sync (reconcile)
//! algorithm — are made and verified here. The thin binary around this
//! crate performs the actual file, network and terminal I/O and hands the
//! results in as plain values.

pub mod cache;
pub mod catalog;
pub mod codec;
pub mod commands;
pub mod models;
pub mod sync;

pub use catalog::ModelIndex;
pub use models::{ModelFile, ModelInfo, SyncResult};
