//! A bucket-based unordered container with stable element handles.

pub mod allocator;
pub mod group;
mod free_list;
pub mod contents;
pub mod skipfield;
mod tag;
pub mod hive;
pub mod iter;
pub mod pool;
pub mod sort;

pub use crate::contents::Handle;
pub use crate::hive::{BlockCapacityLimits, Hive, IncompatibleSplice, InvalidBlockCapacityLimits};
pub use crate::pool::{Pool, Pooled};
