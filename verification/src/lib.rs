//! Spatial index core: a quadtree over regions whose geometry the user
//! supplies, with an id cache; Morton (Z-order) codes for linear quadtree
//! indexing; the rules by which cells store, split and route nodes; and the
//! JSON framing and status codes of the index's JavaScript interface; and
//! laws over sequences of calls on the index.

pub mod error;
pub mod history;
pub mod json;
pub mod morton;
pub mod quadtree;
pub mod rules;
pub mod status;

pub use error::QuadtreeError;
pub use morton::interleave;
pub use quadtree::{NodeData, Quadtree, QuadtreeNode, Region};
