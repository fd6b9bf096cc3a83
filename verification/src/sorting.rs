//! Comparison sorts and a counting sort.

pub mod basic_sorting;
pub mod selection_sort;
