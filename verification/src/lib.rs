//! Persistent maps with structural sharing, kept as red-black trees.
pub mod entries;
pub mod iter;
pub mod iter_utils;
pub mod laws;
pub mod map;
mod node;
pub mod order;
mod remove;
mod shared;

pub use iter::IterArc;
pub use map::RedBlackTreeMap;
