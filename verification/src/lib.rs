//! An ordered key-value container backed by an implicit treap: a randomized
//! balanced binary search tree that keeps, per node, only a random weight and
//! a cached subtree size. All structural changes route through split and
//! merge; "smaller weight wins" at merge is the sole balancing rule.
//!
//! The map is specified against its in-order sequence of key-value pairs,
//! which is strictly sorted by key. A key-only set wrapper is derived from it.

pub mod model;
mod rng;
pub mod map;
pub mod iter;
pub mod set;
pub mod laws;

pub use map::TreapMap;
pub use iter::Iter;
pub use set::TreapSet;
