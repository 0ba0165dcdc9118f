//! A read-only virtual file system that merges the directory trees of several
//! storage backends into one tree, indexes it by path, and publishes link-free
//! listings of it.

pub mod meta;
pub mod file;
pub mod dir;
pub mod index;
pub mod hidden;
pub mod json;
pub mod rcu;
pub mod wheel;
