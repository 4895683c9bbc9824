//! Exclusive upper bounds for string prefix ranges.
//!
//! Given a prefix, [`upper_bound_from_prefix`] computes the smallest string
//! that sorts strictly after every string starting with that prefix, so that
//! "all keys with prefix P" can be answered by the half-open range
//! `[P, upper_bound_from_prefix(P))` over a lexicographically ordered
//! container. [`prefixed_set`] uses that bound to carve the prefix-matching
//! part out of an ordered set of strings with two splits.

pub mod bound;
pub mod order;
pub mod prefix_set;

pub use bound::upper_bound_from_prefix;
pub use prefix_set::prefixed_set;
pub use prefix_set::StrSet;
