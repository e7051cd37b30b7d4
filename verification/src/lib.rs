//! ClipRoam's clipboard-history core: content trees, summaries, paths, the
//! download scheduler and the small text rules the app depends on.

pub mod text;
pub mod tree;
pub mod hashing;
pub mod paths;
pub mod sql;
pub mod glob;
pub mod pending;
pub mod geometry;
pub mod downloads;
pub mod entry;
pub mod edit;
pub mod descriptor;
pub mod config;
pub mod manifest;
pub mod packing;
pub mod misc;
pub mod identity;
pub mod capture;
pub mod metadata;
pub mod retry;
pub mod save;
pub mod remote;
