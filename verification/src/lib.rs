//! Disjoint-set (union-find) structures over the dense index range `0..len`.
//!
//! [`DisjointSet`] tracks which indices are joined; [`DisjointSetVec`] pairs
//! such a structure with one value per index.  Every "query" that resolves a
//! root shortens the paths it walks, so queries take `&mut self`: callers that
//! share a structure between threads must treat them as writers.
//!
//! The modules:
//!
//! - [`disjoint_set`]: the engine, with root resolution by path splitting and
//!   union by rank;
//! - [`disjoint_set_vec`]: the container of values;
//! - [`partition`]: partitions of `0..n`, in which the contracts are stated;
//! - [`forest`]: parent pointers and ranks, and why they induce a partition;
//! - [`laws`]: what holds of every structure;
//! - [`std_specs`]: what is taken on trust of `std`.

pub mod disjoint_set;
pub mod disjoint_set_vec;
pub mod forest;
pub mod laws;
pub mod partition;
pub mod std_specs;

pub use crate::disjoint_set::DisjointSet;
pub use crate::disjoint_set_vec::DisjointSetVec;
