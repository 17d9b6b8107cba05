//! Weakly connected components of directed graphs, built on a union-find
//! structure whose parent links always point to a lower or equal index.
//!
//! `dss` holds the union-find structure, `graph` the directed graph with its
//! out-lists and in-lists, `components` what it means for a structure to
//! describe the weakly connected components, `histogram` the most frequent
//! value of a sample, and `wcc` the algorithms.

pub mod dss;
pub mod graph;
pub mod histogram;
pub mod components;
pub mod wcc;
