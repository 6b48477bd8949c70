//! Concurrently readable data structures.
//!
//! [`bptree::BptreeMap`] is an ordered map that many readers can use while one writer
//! prepares the next version of it.

pub mod bptree;
