//! `==` on packed vectors.

use vstd::prelude::*;
use vstd::std_specs::cmp::PartialEqSpecImpl;
use crate::engine::EnumVec;
use crate::enum_like::EnumLike;
use crate::storage::BlockStorage;
use crate::word::Word;

verus! {

/// Two vectors are equal where they have the same length and, place by
/// place, the same codes.
impl<T: EnumLike, W: Word, S: BlockStorage<W>> PartialEq for EnumVec<T, W, S> {
    fn eq(&self, other: &Self) -> (r: bool) {
        self.same_codes(other)
    }
}

impl<T: EnumLike, W: Word, S: BlockStorage<W>> Eq for EnumVec<T, W, S> {
}

impl<T: EnumLike, W: Word, S: BlockStorage<W>> PartialEqSpecImpl for EnumVec<T, W, S> {
    open spec fn obeys_eq_spec() -> bool {
        true
    }

    open spec fn eq_spec(&self, other: &Self) -> bool {
        self.equal_codes(other)
    }
}

} // verus!
