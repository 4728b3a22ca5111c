//! Packaging, resolution and caching logic for dynamic libraries and
//! WebAssembly modules distributed as `.dllpack` manifests.
//!
//! The library holds the verified core: the manifest model and its checks,
//! the on-disk cache layout, the dependency resolver with its load order,
//! the loader's decisions and the bookkeeping of the process caches.
//! Network, file system, dynamic linking and WebAssembly execution are
//! supplied by the caller.
pub mod cached;
pub mod dependency;
pub mod dllpack_file;
pub mod download;
pub mod error;
pub mod fs_utils;
pub mod load;
pub mod process_cache;
pub mod resolve;
pub mod text;
pub mod type_utils;
pub mod urls;
