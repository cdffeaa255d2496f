//! nofs: a pool of directory branches shared as one namespace, without FUSE.
//!
//! The library holds the rules of the tool: how branch specifications, policies,
//! sizes and share-qualified paths are parsed, how a branch is chosen for a new or
//! an existing file, and how conflicting copies are recognised.
pub mod branch;
pub mod cache;
pub mod commands;
pub mod config;
pub mod conflict;
pub mod error;
pub mod nearest;
pub mod output;
pub mod policy;
pub mod pool;
pub mod size;
pub mod text;
pub mod utils;
