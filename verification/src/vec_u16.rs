//! Alternative implementation of `EnumVec` with `Vec<u16>` storage.

use vstd::prelude::*;

verus! {

/// A vector which efficiently stores enum variants in 16-bit words.
pub type EnumVec<T> = crate::engine::EnumVec<T, u16, Vec<u16>>;

/// Alias for `EnumVec<bool>`.
pub type BitVec = EnumVec<bool>;

} // verus!
