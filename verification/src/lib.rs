//! Ordered associative containers that compare keys directly.
//!
//! This crate provides [`IdentityMap`] and [`IdentitySet`], analogues of the
//! standard library's hash containers in which keys are used as they are --
//! as if transformed by the identity function -- instead of being hashed.
//! Entries live in one contiguous buffer, kept sorted by key in strictly
//! ascending order, so lookup is a binary search and iteration yields entries
//! in key order.
//!
//! Key types implement [`TotalOrder`], which couples an executable three-way
//! comparison with a specification-level ordering and proofs of its laws.
//! Every public operation carries a contract stating exactly how it changes
//! the container's entry sequence.

pub mod identity_map;
pub mod identity_set;
pub mod iter;
pub mod laws;
pub mod order;

pub use crate::identity_map::IdentityMap;
pub use crate::identity_set::IdentitySet;
pub use crate::order::TotalOrder;
