//! Alternative implementation of `EnumVec` with `Vec<u8>` storage.

use vstd::prelude::*;

verus! {

/// A vector which efficiently stores enum variants in 8-bit words.
pub type EnumVec<T> = crate::engine::EnumVec<T, u8, Vec<u8>>;

/// Alias for `EnumVec<bool>`.
pub type BitVec = EnumVec<bool>;

} // verus!
