//! The allocator that a hive's storage is associated with.
use vstd::prelude::*;

verus! {

/// A source of storage for a hive's blocks.
///
/// Block storage is obtained through the standard library's global allocator
/// (via `Vec`); a type implementing this trait is carried by a hive and handed
/// back by [`crate::hive::Hive::get_allocator`].
pub trait Allocator {
}

/// The error type for failed allocations.
#[derive(Debug, Clone, Copy, PartialEq, Eq)]
pub struct AllocError;

/// The global memory allocator.
#[derive(Debug, Clone, Copy)]
pub struct Global;

impl Allocator for Global {
}

impl Default for Global {
    fn default() -> (g: Self) {
        Global
    }
}

} // verus!
