//! A generic n-ary spatial index: a tree that divides a region into as many
//! sub-regions as the region's own `split` yields, keeps points in the leaf
//! whose region holds them, and splits a leaf that is full.
//!
//! All geometry comes from the [`Region`] trait; the tree never looks inside
//! a region.

pub mod insert;
pub mod laws;
pub mod order;
pub mod query;
pub mod rect;
pub mod region;
pub mod remove;
pub mod tree;

pub use query::RangeQuery;
pub use rect::Rect;
pub use region::Region;
pub use tree::NTree;
