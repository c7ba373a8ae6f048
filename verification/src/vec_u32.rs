//! Default `EnumVec` with `Vec<u32>` storage.

use vstd::prelude::*;

verus! {

/// A vector which efficiently stores enum variants in 32-bit words.
pub type EnumVec<T> = crate::engine::EnumVec<T, u32, Vec<u32>>;

/// Alias for `EnumVec<bool>`.
pub type BitVec = EnumVec<bool>;

} // verus!
