//! Codecs of the longer product types: a tuple is coded as the pair of its
//! leading fields and its last field, so the first field is always the lowest
//! digit.

use vstd::prelude::*;
use crate::enum_like::{lawful, lemma_pair_lawful, EnumLike};

verus! {

impl<A: EnumLike, B: EnumLike, C: EnumLike> EnumLike for (A, B, C) {
    open spec fn well_formed() -> bool {
        <((A, B), C)>::well_formed()
    }

    open spec fn encode(self) -> nat {
        ((self.0, self.1), self.2).encode()
    }

    open spec fn decode(i: nat) -> Self {
        let nested = <((A, B), C)>::decode(i);
        (nested.0.0, nested.0.1, nested.1)
    }

    const NUM_VARIANTS: usize = <((A, B), C)>::NUM_VARIANTS;

    fn to_discr(self) -> (r: usize) {
        ((self.0, self.1), self.2).to_discr()
    }

    fn from_discr(x: usize) -> (r: Self) {
        let nested = <((A, B), C)>::from_discr(x);
        (nested.0.0, nested.0.1, nested.1)
    }
}

impl<A: EnumLike, B: EnumLike, C: EnumLike, D: EnumLike> EnumLike for (A, B, C, D) {
    open spec fn well_formed() -> bool {
        <((A, B, C), D)>::well_formed()
    }

    open spec fn encode(self) -> nat {
        ((self.0, self.1, self.2), self.3).encode()
    }

    open spec fn decode(i: nat) -> Self {
        let nested = <((A, B, C), D)>::decode(i);
        (nested.0.0, nested.0.1, nested.0.2, nested.1)
    }

    const NUM_VARIANTS: usize = <((A, B, C), D)>::NUM_VARIANTS;

    fn to_discr(self) -> (r: usize) {
        ((self.0, self.1, self.2), self.3).to_discr()
    }

    fn from_discr(x: usize) -> (r: Self) {
        let nested = <((A, B, C), D)>::from_discr(x);
        (nested.0.0, nested.0.1, nested.0.2, nested.1)
    }
}

impl<T: EnumLike> EnumLike for [T; 0] {
    open spec fn well_formed() -> bool {
        true
    }

    open spec fn encode(self) -> nat {
        0
    }

    open spec fn decode(i: nat) -> Self {
        arbitrary()
    }

    const NUM_VARIANTS: usize = 1;

    fn to_discr(self) -> (r: usize) {
        proof {
            assert(self@ =~= Self::decode(0)@);
        }
        0
    }

    fn from_discr(_x: usize) -> (r: Self) {
        let r: [T; 0] = [];
        proof {
            assert(r@ =~= Self::decode(0)@);
        }
        r
    }
}

impl<T: EnumLike + Copy> EnumLike for [T; 1] {
    open spec fn well_formed() -> bool {
        T::well_formed()
    }

    open spec fn encode(self) -> nat {
        self[0].encode()
    }

    open spec fn decode(i: nat) -> Self {
        [T::decode(i)]
    }

    const NUM_VARIANTS: usize = T::NUM_VARIANTS;

    fn to_discr(self) -> (r: usize) {
        self[0].to_discr()
    }

    fn from_discr(x: usize) -> (r: Self) {
        [T::from_discr(x)]
    }
}

impl<T: EnumLike + Copy> EnumLike for [T; 2] {
    open spec fn well_formed() -> bool {
        <(T, T)>::well_formed()
    }

    open spec fn encode(self) -> nat {
        (self[0], self[1]).encode()
    }

    open spec fn decode(i: nat) -> Self {
        let t = <(T, T)>::decode(i);
        [t.0, t.1]
    }

    const NUM_VARIANTS: usize = <(T, T)>::NUM_VARIANTS;

    fn to_discr(self) -> (r: usize) {
        (self[0], self[1]).to_discr()
    }

    fn from_discr(x: usize) -> (r: Self) {
        let t = <(T, T)>::from_discr(x);
        [t.0, t.1]
    }
}

impl<T: EnumLike + Copy> EnumLike for [T; 3] {
    open spec fn well_formed() -> bool {
        <(T, T, T)>::well_formed()
    }

    open spec fn encode(self) -> nat {
        (self[0], self[1], self[2]).encode()
    }

    open spec fn decode(i: nat) -> Self {
        let t = <(T, T, T)>::decode(i);
        [t.0, t.1, t.2]
    }

    const NUM_VARIANTS: usize = <(T, T, T)>::NUM_VARIANTS;

    fn to_discr(self) -> (r: usize) {
        (self[0], self[1], self[2]).to_discr()
    }

    fn from_discr(x: usize) -> (r: Self) {
        let t = <(T, T, T)>::from_discr(x);
        [t.0, t.1, t.2]
    }
}

impl<T: EnumLike + Copy> EnumLike for [T; 4] {
    open spec fn well_formed() -> bool {
        <(T, T, T, T)>::well_formed()
    }

    open spec fn encode(self) -> nat {
        (self[0], self[1], self[2], self[3]).encode()
    }

    open spec fn decode(i: nat) -> Self {
        let t = <(T, T, T, T)>::decode(i);
        [t.0, t.1, t.2, t.3]
    }

    const NUM_VARIANTS: usize = <(T, T, T, T)>::NUM_VARIANTS;

    fn to_discr(self) -> (r: usize) {
        (self[0], self[1], self[2], self[3]).to_discr()
    }

    fn from_discr(x: usize) -> (r: Self) {
        let t = <(T, T, T, T)>::from_discr(x);
        [t.0, t.1, t.2, t.3]
    }
}

/// `(A, B, C)` has as many values as the product of those of its fields,
/// and its codec is a bijection where those of the fields are.
pub proof fn lemma_triple_lawful<A: EnumLike, B: EnumLike, C: EnumLike>()
    requires
        lawful::<A>(),
        lawful::<B>(),
        lawful::<C>(),
        <(A, B, C)>::well_formed(),
    ensures
        <(A, B, C)>::NUM_VARIANTS == A::NUM_VARIANTS * B::NUM_VARIANTS * C::NUM_VARIANTS,
        lawful::<(A, B, C)>(),
{
    lemma_pair_lawful::<A, B>();
    lemma_pair_lawful::<(A, B), C>();
    assert forall|v: (A, B, C)|
        (#[trigger] v.encode()) < <(A, B, C)>::NUM_VARIANTS && <(A, B, C)>::decode(v.encode())
            == v by {
        let nested = ((v.0, v.1), v.2);
        assert(nested.encode() < <((A, B), C)>::NUM_VARIANTS
            && <((A, B), C)>::decode(nested.encode()) == nested);
    }
    assert forall|i: nat| i < <(A, B, C)>::NUM_VARIANTS
        implies (#[trigger] <(A, B, C)>::decode(i)).encode() == i by {
        assert(<((A, B), C)>::decode(i).encode() == i);
    }
}

/// `(A, B, C, D)` has as many values as the product of those of its
/// fields, and its codec is a bijection where those of the fields are.
pub proof fn lemma_quadruple_lawful<A: EnumLike, B: EnumLike, C: EnumLike, D: EnumLike>()
    requires
        lawful::<A>(),
        lawful::<B>(),
        lawful::<C>(),
        lawful::<D>(),
        <(A, B, C, D)>::well_formed(),
    ensures
        <(A, B, C, D)>::NUM_VARIANTS == A::NUM_VARIANTS * B::NUM_VARIANTS * C::NUM_VARIANTS
            * D::NUM_VARIANTS,
        lawful::<(A, B, C, D)>(),
{
    lemma_triple_lawful::<A, B, C>();
    lemma_pair_lawful::<(A, B, C), D>();
    assert forall|v: (A, B, C, D)|
        (#[trigger] v.encode()) < <(A, B, C, D)>::NUM_VARIANTS
            && <(A, B, C, D)>::decode(v.encode()) == v by {
        let nested = ((v.0, v.1, v.2), v.3);
        assert(nested.encode() < <((A, B, C), D)>::NUM_VARIANTS
            && <((A, B, C), D)>::decode(nested.encode()) == nested);
    }
    assert forall|i: nat|
        i < <(A, B, C, D)>::NUM_VARIANTS implies (#[trigger] <(A, B, C, D)>::decode(i)).encode()
        == i by {
        assert(<((A, B, C), D)>::decode(i).encode() == i);
    }
}

/// An array of two has as many values as the square of those of its
/// element type, and its codec is a bijection where that of the element
/// type is one.
pub proof fn lemma_array2_lawful<T: EnumLike + Copy>()
    requires
        lawful::<T>(),
        <[T; 2]>::well_formed(),
    ensures
        <[T; 2]>::NUM_VARIANTS == T::NUM_VARIANTS * T::NUM_VARIANTS,
        lawful::<[T; 2]>(),
{
    lemma_pair_lawful::<T, T>();
    assert forall|v: [T; 2]|
        (#[trigger] v.encode()) < <[T; 2]>::NUM_VARIANTS && <[T; 2]>::decode(v.encode()) == v by {
        let pair = (v[0], v[1]);
        assert(pair.encode() < <(T, T)>::NUM_VARIANTS && <(T, T)>::decode(pair.encode()) == pair);
        assert(v@ =~= <[T; 2]>::decode(v.encode())@);
    }
    assert forall|i: nat| i < <[T; 2]>::NUM_VARIANTS
        implies (#[trigger] <[T; 2]>::decode(i)).encode() == i by {
        assert(<(T, T)>::decode(i).encode() == i);
    }
}

/// The array without elements has one value, and its codec is a bijection.
pub proof fn lemma_array0_lawful<T: EnumLike>()
    ensures
        <[T; 0]>::NUM_VARIANTS == 1,
        lawful::<[T; 0]>(),
{
    assert forall|v: [T; 0]|
        (#[trigger] v.encode()) < <[T; 0]>::NUM_VARIANTS && <[T; 0]>::decode(v.encode()) == v by {
        assert(v@ =~= <[T; 0]>::decode(v.encode())@);
    }
}

/// An array of one has as many values as its element type, and its codec
/// is a bijection where that of the element type is one.
pub proof fn lemma_array1_lawful<T: EnumLike + Copy>()
    requires
        lawful::<T>(),
    ensures
        <[T; 1]>::NUM_VARIANTS == T::NUM_VARIANTS,
        lawful::<[T; 1]>(),
{
    assert forall|v: [T; 1]|
        (#[trigger] v.encode()) < <[T; 1]>::NUM_VARIANTS && <[T; 1]>::decode(v.encode()) == v by {
        assert(v[0].encode() < T::NUM_VARIANTS && T::decode(v[0].encode()) == v[0]);
        assert(v@ =~= <[T; 1]>::decode(v.encode())@);
    }
    assert forall|i: nat| i < <[T; 1]>::NUM_VARIANTS
        implies (#[trigger] <[T; 1]>::decode(i)).encode() == i by {
        assert(T::decode(i).encode() == i);
    }
}

/// An array of three has as many values as the cube of those of its
/// element type, and its codec is a bijection where that of the element
/// type is one.
pub proof fn lemma_array3_lawful<T: EnumLike + Copy>()
    requires
        lawful::<T>(),
        <[T; 3]>::well_formed(),
    ensures
        <[T; 3]>::NUM_VARIANTS == T::NUM_VARIANTS * T::NUM_VARIANTS * T::NUM_VARIANTS,
        lawful::<[T; 3]>(),
{
    lemma_triple_lawful::<T, T, T>();
    assert forall|v: [T; 3]|
        (#[trigger] v.encode()) < <[T; 3]>::NUM_VARIANTS && <[T; 3]>::decode(v.encode()) == v by {
        let t = (v[0], v[1], v[2]);
        assert(t.encode() < <(T, T, T)>::NUM_VARIANTS && <(T, T, T)>::decode(t.encode()) == t);
        assert(v@ =~= <[T; 3]>::decode(v.encode())@);
    }
    assert forall|i: nat| i < <[T; 3]>::NUM_VARIANTS
        implies (#[trigger] <[T; 3]>::decode(i)).encode() == i by {
        assert(<(T, T, T)>::decode(i).encode() == i);
    }
}

/// An array of four has as many values as the fourth power of those of its
/// element type, and its codec is a bijection where that of the element
/// type is one.
pub proof fn lemma_array4_lawful<T: EnumLike + Copy>()
    requires
        lawful::<T>(),
        <[T; 4]>::well_formed(),
    ensures
        <[T; 4]>::NUM_VARIANTS == T::NUM_VARIANTS * T::NUM_VARIANTS * T::NUM_VARIANTS
            * T::NUM_VARIANTS,
        lawful::<[T; 4]>(),
{
    lemma_quadruple_lawful::<T, T, T, T>();
    assert forall|v: [T; 4]|
        (#[trigger] v.encode()) < <[T; 4]>::NUM_VARIANTS && <[T; 4]>::decode(v.encode()) == v by {
        let t = (v[0], v[1], v[2], v[3]);
        assert(t.encode() < <(T, T, T, T)>::NUM_VARIANTS && <(T, T, T, T)>::decode(t.encode())
            == t);
        assert(v@ =~= <[T; 4]>::decode(v.encode())@);
    }
    assert forall|i: nat| i < <[T; 4]>::NUM_VARIANTS
        implies (#[trigger] <[T; 4]>::decode(i)).encode() == i by {
        assert(<(T, T, T, T)>::decode(i).encode() == i);
    }
}

} // verus!
