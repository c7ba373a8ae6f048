//! Alternative implementation of `EnumVec` with `Vec<u64>` storage.

use vstd::prelude::*;

verus! {

/// A vector which efficiently stores enum variants in 64-bit words.
pub type EnumVec<T> = crate::engine::EnumVec<T, u64, Vec<u64>>;

/// Alias for `EnumVec<bool>`.
pub type BitVec = EnumVec<bool>;

} // verus!
