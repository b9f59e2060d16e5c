//! Bottom-up merge sort whose merges of one pass run in parallel.
//!
//! The sort moves elements, never clones them: while it runs, the sequence is held as slots
//! that each own one element, and a merge moves its first run out to a scratch area and back.
pub mod merge;
pub mod order;
pub mod pass;
pub mod sort;

pub use sort::{merge_sort, merge_sort_in, scratch_len, sorted_copy, ExecutionMode};
