//! Walking over every value of a type, in the order of the codes.

use vstd::prelude::*;
use crate::enum_like::EnumLike;
use std::marker::PhantomData;

verus! {

/// Helper trait to walk over all the possible values of a type.
/// It is provided for every `EnumLike` type.
pub trait EnumValues: EnumLike {
    /// Returns a cursor over the values of `Self`, placed before the first.
    fn values() -> (r: Values<Self>)
        requires
            Self::well_formed(),
        ensures
            r.wf(),
            r@ == all_values::<Self>(),
    {
        Values::of()
    }
}

impl<T: EnumLike> EnumValues for T {
}

/// Every value of `T`, in the order of the codes.
pub open spec fn all_values<T: EnumLike>() -> Seq<T> {
    Seq::new(T::NUM_VARIANTS as nat, |i: int| T::decode(i as nat))
}

/// A cursor over the values of `T`, in the order of the codes.
#[derive(Debug)]
pub struct Values<T: EnumLike> {
    current: usize,
    max: usize,
    _p: PhantomData<T>,
}

impl<T: EnumLike> Clone for Values<T> {
    fn clone(&self) -> (r: Self)
        ensures
            r == *self,
    {
        Self { current: self.current, max: self.max, _p: PhantomData }
    }
}

impl<T: EnumLike> Copy for Values<T> {
}

impl<T: EnumLike> Values<T> {
    /// The cursor stands between two codes of a well-formed type.
    pub closed spec fn wf(&self) -> bool {
        &&& T::well_formed()
        &&& self.max == T::NUM_VARIANTS
        &&& self.current <= self.max
    }

    /// The values that are still to come, in order.
    pub closed spec fn view(&self) -> Seq<T> {
        Seq::new(
            (self.max - self.current) as nat,
            |k: int| T::decode((self.current + k) as nat),
        )
    }

    /// A cursor placed before the first value.
    pub fn of() -> (r: Self)
        requires
            T::well_formed(),
        ensures
            r.wf(),
            r@ == all_values::<T>(),
    {
        let r = Self { current: 0, max: T::NUM_VARIANTS, _p: PhantomData };
        proof {
            assert(r@ =~= all_values::<T>());
        }
        r
    }

    /// Hands out the next value, if one is left.
    pub fn next(&mut self) -> (r: Option<T>)
        requires
            old(self).wf(),
        ensures
            final(self).wf(),
            old(self)@.len() == 0 ==> r.is_none() && final(self)@ == old(self)@,
            old(self)@.len() > 0 ==> r == Some(old(self)@[0]) && final(self)@ == old(self)@.skip(1),
    {
        if self.current < self.max {
            let x = T::from_discr(self.current);
            self.current += 1;
            proof {
                assert(final(self)@ =~= old(self)@.skip(1));
            }
            Some(x)
        } else {
            None
        }
    }

    /// The number of values left, as a lower and an upper bound.
    pub fn size_hint(&self) -> (r: (usize, Option<usize>))
        requires
            self.wf(),
        ensures
            r.0 as nat == self@.len(),
            r.1 == Some(r.0),
    {
        let remaining_elements = self.max - self.current;
        (remaining_elements, Some(remaining_elements))
    }

    /// The number of values left.
    pub fn count(self) -> (r: usize)
        requires
            self.wf(),
        ensures
            r as nat == self@.len(),
    {
        self.max - self.current
    }

    /// The last of the values left, if there is one.
    pub fn last(self) -> (r: Option<T>)
        requires
            self.wf(),
        ensures
            self@.len() == 0 ==> r.is_none(),
            self@.len() > 0 ==> r == Some(self@.last()),
    {
        if self.max == 0 || self.current == self.max {
            None
        } else {
            Some(T::from_discr(self.max - 1))
        }
    }

    /// Skips `n` values and hands out the one after them. Where fewer than
    /// `n + 1` values are left, none is handed out and none is left.
    pub fn nth(&mut self, n: usize) -> (r: Option<T>)
        requires
            old(self).wf(),
        ensures
            final(self).wf(),
            n < old(self)@.len() ==> r == Some(old(self)@[n as int]) && final(self)@ == old(
                self,
            )@.skip(n + 1),
            n >= old(self)@.len() ==> r.is_none() && final(self)@.len() == 0,
    {
        if n < self.max - self.current {
            self.current += n;
            let x = T::from_discr(self.current);
            self.current += 1;
            proof {
                assert(final(self)@ =~= old(self)@.skip(n + 1));
            }
            Some(x)
        } else {
            self.current = self.max;
            None
        }
    }
}

} // verus!
