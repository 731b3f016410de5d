//! Recursive graph-bisection reordering engine.
//!
//! Given a directed graph as adjacency lists, the engine computes a
//! relabeling (a permutation) of node identifiers that clusters nodes with
//! similar neighborhoods close together in identifier space, so that a
//! downstream gap/delta encoder produces a smaller compressed representation.
//!
//! The engine is a recursive divide-and-conquer partitioner combined with a
//! gain-based local-search swap optimizer, bounded by depth and size limits.
//! Graph loading and file writing are left to the caller; this crate only
//! computes orders, permutations and the byte layouts of the output files.

pub mod bisect;
pub mod component;
pub mod cost;
pub mod doc;
pub mod encode;
pub mod engine;
pub mod optimizer;
pub mod perm;
pub mod planner;
