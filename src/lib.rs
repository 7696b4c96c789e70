//! Verified core of a backup tool that mirrors remote directory trees over SSH.
//!
//! The library holds the decisions and data transformations: path joining,
//! change detection for the persisted index, the per-file transfer policy and
//! outcome rules, SHA-1 accumulation, the rsync-style delta engine and the
//! wire formats of its signature and delta files, the manifest line format and
//! configuration records. Transport, file system and database access live
//! outside the library and hand it plain values.

pub mod string_path;
pub mod text;
pub mod hex;
pub mod hashing;
pub mod index_store;
pub mod transfer;
pub mod delta;
pub mod wire;
pub mod manifest;
pub mod app_conf;

pub use string_path::{join_path, is_windows_path_start};
