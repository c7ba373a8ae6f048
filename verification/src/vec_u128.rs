//! Alternative implementation of `EnumVec` with `Vec<u128>` storage.

use vstd::prelude::*;

verus! {

/// A vector which efficiently stores enum variants in 128-bit words.
pub type EnumVec<T> = crate::engine::EnumVec<T, u128, Vec<u128>>;

/// Alias for `EnumVec<bool>`.
pub type BitVec = EnumVec<bool>;

} // verus!
