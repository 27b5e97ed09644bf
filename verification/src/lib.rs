//! Algorithmic building blocks centred on a generic lazy-propagation segment
//! tree: a `Monoid` interface for aggregate values, a `MapMonoid` interface
//! for composable range actions, the tree itself, and binary search helpers.

pub mod binary_search;
pub mod lazy_segtree;
pub mod monoid;
pub mod node_index;
pub mod seq_fold;
