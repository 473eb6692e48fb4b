//! A weighted-graph path-search library.
//!
//! The heart of the crate is [`astar`]: a mutable collection of 3D-positioned
//! vertices with directed adjacency, supporting best-path queries that degrade
//! to a best-effort partial result when no route exists.

pub mod astar;
pub mod loader;
pub mod manager;
pub mod reflect;
