//! Index-based containers used by the simplifier.
pub mod binary_heap;
pub mod disjoint_set;
pub mod order;
