//! A generic lazy-propagation segment tree.
//!
//! The tree aggregates a fixed-length sequence of values over arbitrary
//! ranges in logarithmic time, while range updates are deferred as pending
//! tags and pushed down the tree only when a descendant is read or written.
//! It is parameterized over a combine monoid (used to merge sibling
//! aggregates), an update monoid (used to compose pending tags), and an
//! apply function connecting the two through homomorphism laws.

pub mod algebra;
pub mod folds;
pub mod laws;
pub mod tree;
