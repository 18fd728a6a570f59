//! Sorting routines on plain arrays.

pub mod bub_sort;
