//! Aggregation of `station;temperature` measurement records into per-station
//! minimum, mean and maximum, with verified parsing, block slicing, merging
//! and rendering.

pub mod search;
pub mod line;
pub mod station;
pub mod order;
pub mod ref_hashmap;
pub mod lines;
pub mod aggregate;
pub mod worker;
pub mod reader;
pub mod render;
pub mod pool;
pub mod laws;
