//! Incremental directory-size scanner: a path-addressed store of folders
//! whose aggregate sizes stay consistent while traversal events are folded
//! in and entries are deleted.
//!
//! - `folder_entry`, `folder`: listing rows and folders, their sizes, sort
//!   orders and per-extension chart.
//! - `store`: folders by path and the active path.
//! - `traversal`: folding one discovered entry into the store.
//! - `deletion`: the store after the selected entry is deleted from disk.
//! - `sync`: reconciling a fresh listing with the store.
//! - `task_manager`: draining the traversal's event channel.
//! - `logger`, `spinner`, `config`: debug log, loading glyphs, settings.
//! - `ordering`: the stable sort all orders go through.

pub mod ordering;
pub mod folder_entry;
pub mod folder;
pub mod store;
pub mod traversal;
pub mod deletion;
pub mod sync;
pub mod logger;
pub mod task_manager;
pub mod spinner;
pub mod config;
