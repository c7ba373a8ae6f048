//! A single value, stored as its code in one small integer.

use vstd::prelude::*;
use crate::enum_like::EnumLike;
use std::marker::PhantomData;

verus! {

/// Packs an `EnumLike` value into a `u8`, if possible.
#[derive(Debug, Hash, PartialEq, Eq, PartialOrd, Ord)]
pub struct PackedU8<T> {
    discr: u8,
    _phantom: PhantomData<T>,
}

impl<T> Clone for PackedU8<T> {
    fn clone(&self) -> (r: Self)
        ensures
            r == *self,
    {
        Self { discr: self.discr, _phantom: PhantomData }
    }
}

impl<T> Copy for PackedU8<T> {
}

impl<T: EnumLike> PackedU8<T> {
    /// The stored integer is the code of a value of a well-formed type.
    pub closed spec fn wf(self) -> bool {
        T::well_formed() && (self.discr as nat) < T::NUM_VARIANTS
    }

    /// The value that is packed.
    pub closed spec fn view(self) -> T {
        T::decode(self.discr as nat)
    }

    /// The stored code.
    pub closed spec fn code(self) -> nat {
        self.discr as nat
    }

    /// Packs `T` into 8 bits. A type with more than 2^8 values does not fit.
    pub fn new(a: T) -> (r: Self)
        requires
            T::well_formed(),
            T::NUM_VARIANTS <= 0x100,
        ensures
            r.wf(),
            r@ == a,
            r.code() == a.encode(),
    {
        let d = T::to_discr(a);
        Self { discr: d as u8, _phantom: PhantomData }
    }

    /// Return the packed value.
    pub fn get(self) -> (r: T)
        requires
            self.wf(),
        ensures
            r == self@,
    {
        T::from_discr(self.discr as usize)
    }
}

/// Packs an `EnumLike` value into a `u16`, if possible.
#[derive(Debug, Hash, PartialEq, Eq, PartialOrd, Ord)]
pub struct PackedU16<T> {
    discr: u16,
    _phantom: PhantomData<T>,
}

impl<T> Clone for PackedU16<T> {
    fn clone(&self) -> (r: Self)
        ensures
            r == *self,
    {
        Self { discr: self.discr, _phantom: PhantomData }
    }
}

impl<T> Copy for PackedU16<T> {
}

impl<T: EnumLike> PackedU16<T> {
    /// The stored integer is the code of a value of a well-formed type.
    pub closed spec fn wf(self) -> bool {
        T::well_formed() && (self.discr as nat) < T::NUM_VARIANTS
    }

    /// The value that is packed.
    pub closed spec fn view(self) -> T {
        T::decode(self.discr as nat)
    }

    /// The stored code.
    pub closed spec fn code(self) -> nat {
        self.discr as nat
    }

    /// Packs `T` into 16 bits. A type with more than 2^16 values does not fit.
    pub fn new(a: T) -> (r: Self)
        requires
            T::well_formed(),
            T::NUM_VARIANTS <= 0x10000,
        ensures
            r.wf(),
            r@ == a,
            r.code() == a.encode(),
    {
        let d = T::to_discr(a);
        Self { discr: d as u16, _phantom: PhantomData }
    }

    /// Return the packed value.
    pub fn get(self) -> (r: T)
        requires
            self.wf(),
        ensures
            r == self@,
    {
        T::from_discr(self.discr as usize)
    }
}

} // verus!
