//! Hand-rolled containers (a linked sequence, a growable buffer and a stack on
//! top of it) together with the in-place algorithms that work on them, each
//! with a proved contract.

pub mod datastruct;
pub mod sort_analysis;
