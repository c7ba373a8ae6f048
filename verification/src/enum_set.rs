//! A set for enum variants.
//!
//! It is implemented as a wrapper over the `bit-set` crate, which provides a
//! set for integer values: the set holds the codes of its elements.

use vstd::prelude::*;
use bit_set::BitSet;
use std::marker::PhantomData;
use crate::enum_like::EnumLike;

verus! {

/// A `BitSet` of the `bit-set` crate.
///
/// The `BitSet` is opaque here: what it holds is `bits_of`, and every access
/// goes through one of the functions below, each of which stands for one
/// function of `BitSet`.
#[verifier::external_body]
#[derive(Debug, Hash, PartialEq, Eq, PartialOrd, Ord)]
pub struct Bits {
    inner: BitSet,
}

/// The integers that the `BitSet` holds.
pub uninterp spec fn bits_of(b: Bits) -> Set<nat>;

/// `v` lists the members of `s` once each, in rising order.
pub open spec fn lists_rising(v: Seq<usize>, s: Set<nat>) -> bool {
    &&& forall|i: int, j: int| 0 <= i < j < v.len() ==> v[i] < v[j]
    &&& forall|i: int| 0 <= i < v.len() ==> s.contains(#[trigger] v[i] as nat)
    &&& forall|x: nat| s.contains(x) ==> exists|i: int| 0 <= i < v.len() && #[trigger] v[i] == x
}

/// Codes that are listed from a set of codes below `n` are below `n`.
pub proof fn lemma_listed_below(v: Seq<usize>, s: Set<nat>, n: nat)
    requires
        lists_rising(v, s),
        forall|c: nat| s.contains(c) ==> c < n,
    ensures
        forall|i: int| 0 <= i < v.len() ==> (#[trigger] v[i] as nat) < n,
{
    assert forall|i: int| 0 <= i < v.len() implies (#[trigger] v[i] as nat) < n by {
        assert(s.contains(v[i] as nat));
    }
}

/// `BitSet::new`: the new set is empty.
#[verifier::external_body]
fn bits_new() -> (b: Bits)
    ensures
        bits_of(b) == Set::<nat>::empty(),
{
    Bits { inner: BitSet::new() }
}

/// `BitSet::clone`: the copy holds the same integers.
#[verifier::external_body]
fn bits_clone(b: &Bits) -> (r: Bits)
    ensures
        bits_of(r) == bits_of(*b),
{
    Bits { inner: b.inner.clone() }
}

/// `BitSet::shrink_to_fit`: the set holds the same integers.
#[verifier::external_body]
fn bits_shrink_to_fit(b: &mut Bits)
    ensures
        bits_of(*final(b)) == bits_of(*old(b)),
{
    b.inner.shrink_to_fit()
}

/// `BitSet::iter`: the members, once each, in rising order.
#[verifier::external_body]
fn bits_iter(b: &Bits) -> (r: Vec<usize>)
    ensures
        lists_rising(r@, bits_of(*b)),
{
    b.inner.iter().collect()
}

/// `BitSet::union`: the members of either set, once each, in rising order.
#[verifier::external_body]
fn bits_union(a: &Bits, b: &Bits) -> (r: Vec<usize>)
    ensures
        lists_rising(r@, bits_of(*a).union(bits_of(*b))),
{
    a.inner.union(&b.inner).collect()
}

/// `BitSet::intersection`: the members of both sets, once each, in rising
/// order.
#[verifier::external_body]
fn bits_intersection(a: &Bits, b: &Bits) -> (r: Vec<usize>)
    ensures
        lists_rising(r@, bits_of(*a).intersect(bits_of(*b))),
{
    a.inner.intersection(&b.inner).collect()
}

/// `BitSet::difference`: the members of the first set that are not in the
/// second, once each, in rising order.
#[verifier::external_body]
fn bits_difference(a: &Bits, b: &Bits) -> (r: Vec<usize>)
    ensures
        lists_rising(r@, bits_of(*a).difference(bits_of(*b))),
{
    a.inner.difference(&b.inner).collect()
}

/// `BitSet::symmetric_difference`: the members of exactly one of the sets,
/// once each, in rising order.
#[verifier::external_body]
fn bits_symmetric_difference(a: &Bits, b: &Bits) -> (r: Vec<usize>)
    ensures
        lists_rising(
            r@,
            bits_of(*a).difference(bits_of(*b)).union(bits_of(*b).difference(bits_of(*a))),
        ),
{
    a.inner.symmetric_difference(&b.inner).collect()
}

/// `BitSet::union_with`: the set takes the members of the other in.
#[verifier::external_body]
fn bits_union_with(a: &mut Bits, b: &Bits)
    ensures
        bits_of(*final(a)) == bits_of(*old(a)).union(bits_of(*b)),
{
    a.inner.union_with(&b.inner)
}

/// `BitSet::intersect_with`: the set keeps the members that the other has
/// too.
#[verifier::external_body]
fn bits_intersect_with(a: &mut Bits, b: &Bits)
    ensures
        bits_of(*final(a)) == bits_of(*old(a)).intersect(bits_of(*b)),
{
    a.inner.intersect_with(&b.inner)
}

/// `BitSet::difference_with`: the set loses the members that the other has.
#[verifier::external_body]
fn bits_difference_with(a: &mut Bits, b: &Bits)
    ensures
        bits_of(*final(a)) == bits_of(*old(a)).difference(bits_of(*b)),
{
    a.inner.difference_with(&b.inner)
}

/// `BitSet::symmetric_difference_with`: the set becomes the members of
/// exactly one of the two.
#[verifier::external_body]
fn bits_symmetric_difference_with(a: &mut Bits, b: &Bits)
    ensures
        bits_of(*final(a)) == bits_of(*old(a)).difference(bits_of(*b)).union(
            bits_of(*b).difference(bits_of(*old(a))),
        ),
{
    a.inner.symmetric_difference_with(&b.inner)
}

/// `BitSet::count`: the number of members.
#[verifier::external_body]
fn bits_count(b: &Bits) -> (r: usize)
    ensures
        r == bits_of(*b).len(),
{
    b.inner.count()
}

/// `BitSet::is_empty`: whether the set has no member.
#[verifier::external_body]
fn bits_is_empty(b: &Bits) -> (r: bool)
    ensures
        r <==> bits_of(*b) == Set::<nat>::empty(),
{
    b.inner.is_empty()
}

/// `BitSet::make_empty`: the set loses every member.
#[verifier::external_body]
fn bits_make_empty(b: &mut Bits)
    ensures
        bits_of(*final(b)) == Set::<nat>::empty(),
{
    b.inner.make_empty()
}

/// `BitSet::contains`: whether the integer is a member.
#[verifier::external_body]
fn bits_contains(b: &Bits, value: usize) -> (r: bool)
    ensures
        r <==> bits_of(*b).contains(value as nat),
{
    b.inner.contains(value)
}

/// `BitSet::is_disjoint`: whether the sets have no member in common.
#[verifier::external_body]
fn bits_is_disjoint(a: &Bits, b: &Bits) -> (r: bool)
    ensures
        r <==> bits_of(*a).disjoint(bits_of(*b)),
{
    a.inner.is_disjoint(&b.inner)
}

/// `BitSet::is_subset`: whether every member of the first set is a member
/// of the second.
#[verifier::external_body]
fn bits_is_subset(a: &Bits, b: &Bits) -> (r: bool)
    ensures
        r <==> bits_of(*a).subset_of(bits_of(*b)),
{
    a.inner.is_subset(&b.inner)
}

/// `BitSet::is_superset`: whether every member of the second set is a
/// member of the first.
#[verifier::external_body]
fn bits_is_superset(a: &Bits, b: &Bits) -> (r: bool)
    ensures
        r <==> bits_of(*b).subset_of(bits_of(*a)),
{
    a.inner.is_superset(&b.inner)
}

/// `BitSet::insert`: the integer becomes a member; the result tells whether
/// it was none before. The set grows to `value + 1` bits, a number that must
/// fit in a `usize`.
#[verifier::external_body]
fn bits_insert(b: &mut Bits, value: usize) -> (r: bool)
    requires
        value < usize::MAX,
    ensures
        bits_of(*final(b)) == bits_of(*old(b)).insert(value as nat),
        r <==> !bits_of(*old(b)).contains(value as nat),
{
    b.inner.insert(value)
}

/// `BitSet::remove`: the integer is no member any more; the result tells
/// whether it was one before.
#[verifier::external_body]
fn bits_remove(b: &mut Bits, value: usize) -> (r: bool)
    ensures
        bits_of(*final(b)) == bits_of(*old(b)).remove(value as nat),
        r <==> bits_of(*old(b)).contains(value as nat),
{
    b.inner.remove(value)
}

/// A `BitSet` indexed by an `EnumLike` type.
#[derive(Debug, Hash, PartialEq, Eq, PartialOrd, Ord)]
pub struct EnumSet<E: EnumLike> {
    inner: Bits,
    _phantom: PhantomData<E>,
}

impl<E: EnumLike> Clone for EnumSet<E> {
    fn clone(&self) -> (r: Self)
        ensures
            r@ == self@,
    {
        Self { inner: bits_clone(&self.inner), _phantom: PhantomData }
    }
}

impl<E: EnumLike> EnumSet<E> {
    /// The codes of the elements.
    pub closed spec fn view(&self) -> Set<nat> {
        bits_of(self.inner)
    }

    /// The set is in order: its members are codes of a well-formed type.
    pub open spec fn wf(&self) -> bool {
        &&& E::well_formed()
        &&& forall|c: nat| #[trigger] self@.contains(c) ==> c < E::NUM_VARIANTS
    }

    /// Whether `value` is an element.
    pub open spec fn has(&self, value: E) -> bool {
        self@.contains(value.encode())
    }

    /// Creates a new `EnumSet`.
    pub fn new() -> (r: Self)
        requires
            E::well_formed(),
        ensures
            r.wf(),
            r@ == Set::<nat>::empty(),
    {
        Self { inner: bits_new(), _phantom: PhantomData }
    }

    /// Attemps to minimalize the memory usage of the inner `BitSet`.
    pub fn shrink_to_fit(&mut self)
        ensures
            final(self)@ == old(self)@,
    {
        bits_shrink_to_fit(&mut self.inner)
    }

    /// Cursor over each element in the set, in the order of the codes.
    pub fn iter(&self) -> (r: WrapIter<E>)
        requires
            self.wf(),
        ensures
            r.wf(),
            r.pending() == r.codes(),
            lists_rising(r.codes(), self@),
    {
        let codes = bits_iter(&self.inner);
        proof {
            lemma_listed_below(codes@, self@, E::NUM_VARIANTS as nat);
        }
        WrapIter::new(codes)
    }

    /// Cursor over each element in `set || other`.
    pub fn union(&self, other: &Self) -> (r: WrapIter<E>)
        requires
            self.wf(),
            other.wf(),
        ensures
            r.wf(),
            r.pending() == r.codes(),
            lists_rising(r.codes(), self@.union(other@)),
    {
        let codes = bits_union(&self.inner, &other.inner);
        proof {
            lemma_listed_below(codes@, self@.union(other@), E::NUM_VARIANTS as nat);
        }
        WrapIter::new(codes)
    }

    /// Cursor over each element in `set && other`.
    pub fn intersection(&self, other: &Self) -> (r: WrapIter<E>)
        requires
            self.wf(),
            other.wf(),
        ensures
            r.wf(),
            r.pending() == r.codes(),
            lists_rising(r.codes(), self@.intersect(other@)),
    {
        let codes = bits_intersection(&self.inner, &other.inner);
        proof {
            lemma_listed_below(codes@, self@.intersect(other@), E::NUM_VARIANTS as nat);
        }
        WrapIter::new(codes)
    }

    /// Cursor over each element in `set - other`.
    pub fn difference(&self, other: &Self) -> (r: WrapIter<E>)
        requires
            self.wf(),
            other.wf(),
        ensures
            r.wf(),
            r.pending() == r.codes(),
            lists_rising(r.codes(), self@.difference(other@)),
    {
        let codes = bits_difference(&self.inner, &other.inner);
        proof {
            lemma_listed_below(codes@, self@.difference(other@), E::NUM_VARIANTS as nat);
        }
        WrapIter::new(codes)
    }

    /// Cursor over each element in `set ^ other`.
    pub fn symmetric_difference(&self, other: &Self) -> (r: WrapIter<E>)
        requires
            self.wf(),
            other.wf(),
        ensures
            r.wf(),
            r.pending() == r.codes(),
            lists_rising(r.codes(), self@.difference(other@).union(other@.difference(self@))),
    {
        let codes = bits_symmetric_difference(&self.inner, &other.inner);
        proof {
            lemma_listed_below(
                codes@,
                self@.difference(other@).union(other@.difference(self@)),
                E::NUM_VARIANTS as nat,
            );
        }
        WrapIter::new(codes)
    }

    /// Computes the union with the other set, in-place.
    pub fn union_with(&mut self, other: &Self)
        ensures
            final(self)@ == old(self)@.union(other@),
            old(self).wf() && other.wf() ==> final(self).wf(),
    {
        bits_union_with(&mut self.inner, &other.inner);
        proof {
            if old(self).wf() && other.wf() {
                assert forall|c: nat| #[trigger] self@.contains(c) implies c < E::NUM_VARIANTS by {
                    assert(old(self)@.contains(c) || other@.contains(c));
                }
            }
        }
    }

    /// Computes the intersection with the other set, in-place.
    pub fn intersect_with(&mut self, other: &Self)
        ensures
            final(self)@ == old(self)@.intersect(other@),
            old(self).wf() ==> final(self).wf(),
    {
        bits_intersect_with(&mut self.inner, &other.inner);
        proof {
            if old(self).wf() {
                assert forall|c: nat| #[trigger] self@.contains(c) implies c < E::NUM_VARIANTS by {
                    assert(old(self)@.contains(c));
                }
            }
        }
    }

    /// Computes the difference with the other set, in-place.
    pub fn difference_with(&mut self, other: &Self)
        ensures
            final(self)@ == old(self)@.difference(other@),
            old(self).wf() ==> final(self).wf(),
    {
        bits_difference_with(&mut self.inner, &other.inner);
        proof {
            if old(self).wf() {
                assert forall|c: nat| #[trigger] self@.contains(c) implies c < E::NUM_VARIANTS by {
                    assert(old(self)@.contains(c));
                }
            }
        }
    }

    /// Computes the symmetric difference with the other set, in-place.
    pub fn symmetric_difference_with(&mut self, other: &Self)
        ensures
            final(self)@ == old(self)@.difference(other@).union(other@.difference(old(self)@)),
            old(self).wf() && other.wf() ==> final(self).wf(),
    {
        bits_symmetric_difference_with(&mut self.inner, &other.inner);
        proof {
            if old(self).wf() && other.wf() {
                assert forall|c: nat| #[trigger] self@.contains(c) implies c < E::NUM_VARIANTS by {
                    assert(old(self)@.contains(c) || other@.contains(c));
                }
            }
        }
    }

    /// Returns the number of elements in the set.
    pub fn len(&self) -> (r: usize)
        ensures
            r == self@.len(),
    {
        bits_count(&self.inner)
    }

    /// Returns `true` if there are no elements in the set.
    pub fn is_empty(&self) -> (r: bool)
        ensures
            r <==> self@ == Set::<nat>::empty(),
    {
        bits_is_empty(&self.inner)
    }

    /// Clears all elements in the set.
    pub fn clear(&mut self)
        ensures
            final(self)@ == Set::<nat>::empty(),
            E::well_formed() ==> final(self).wf(),
    {
        bits_make_empty(&mut self.inner)
    }

    /// Returns `true` if the set contains this value.
    pub fn contains(&self, value: E) -> (r: bool)
        requires
            E::well_formed(),
        ensures
            r <==> self.has(value),
    {
        let d = value.to_discr();
        bits_contains(&self.inner, d)
    }

    /// Returns `true` if the set has no elements in common with `other`.
    pub fn is_disjoint(&self, other: &Self) -> (r: bool)
        ensures
            r <==> self@.disjoint(other@),
    {
        bits_is_disjoint(&self.inner, &other.inner)
    }

    /// Returns `true` if every element of the set is an element of `other`.
    pub fn is_subset(&self, other: &Self) -> (r: bool)
        ensures
            r <==> self@.subset_of(other@),
    {
        bits_is_subset(&self.inner, &other.inner)
    }

    /// Returns `true` if every element of `other` is an element of the set.
    pub fn is_superset(&self, other: &Self) -> (r: bool)
        ensures
            r <==> other@.subset_of(self@),
    {
        bits_is_superset(&self.inner, &other.inner)
    }

    /// Returns `true` if the value was not already present in the set.
    pub fn insert(&mut self, value: E) -> (r: bool)
        requires
            E::well_formed(),
        ensures
            final(self)@ == old(self)@.insert(value.encode()),
            r <==> !old(self).has(value),
            old(self).wf() ==> final(self).wf(),
    {
        let d = value.to_discr();
        bits_insert(&mut self.inner, d)
    }

    /// Returns `true` if the value was already present in the set.
    pub fn remove(&mut self, value: E) -> (r: bool)
        requires
            E::well_formed(),
        ensures
            final(self)@ == old(self)@.remove(value.encode()),
            r <==> old(self).has(value),
            old(self).wf() ==> final(self).wf(),
    {
        let d = value.to_discr();
        bits_remove(&mut self.inner, d)
    }

    /// Adds every element of `items` to the set.
    pub fn extend(&mut self, items: Vec<E>)
        requires
            old(self).wf(),
        ensures
            final(self).wf(),
            forall|c: nat|
                final(self)@.contains(c) <==> old(self)@.contains(c) || exists|i: int|
                    0 <= i < items@.len() && #[trigger] items@[i].encode() == c,
    {
        let mut items = items;
        let ghost all = items@;
        while items.len() > 0
            invariant
                self.wf(),
                items@ == all.take(items@.len() as int),
                items@.len() <= all.len(),
                forall|c: nat|
                    self@.contains(c) <==> old(self)@.contains(c) || exists|i: int|
                        items@.len() <= i < all.len() && #[trigger] all[i].encode() == c,
            decreases items@.len(),
        {
            let ghost before = self@;
            let ghost k = items@.len() - 1;
            let x = items.pop().unwrap();
            proof {
                assert(x == all[k]);
            }
            self.insert(x);
            proof {
                assert(items@ =~= all.take(items@.len() as int));
                assert forall|c: nat|
                    self@.contains(c) <==> old(self)@.contains(c) || exists|i: int|
                        items@.len() <= i < all.len() && #[trigger] all[i].encode() == c by {
                    if before.contains(c) && !old(self)@.contains(c) {
                        let i = choose|i: int|
                            k + 1 <= i < all.len() && #[trigger] all[i].encode() == c;
                        assert(items@.len() <= i < all.len() && all[i].encode() == c);
                    }
                    if c == x.encode() {
                        assert(items@.len() <= k < all.len() && all[k].encode() == c);
                    }
                }
            }
        }
    }
}

/// Hands the codes of a set out as values of `E`, one after the other.
#[derive(Debug)]
pub struct WrapIter<E: EnumLike> {
    inner: Vec<usize>,
    next: usize,
    _phantom: PhantomData<E>,
}

impl<E: EnumLike> WrapIter<E> {
    /// All the codes that the cursor was made for.
    pub closed spec fn codes(&self) -> Seq<usize> {
        self.inner@
    }

    /// The codes that are still to come.
    pub closed spec fn pending(&self) -> Seq<usize> {
        self.inner@.skip(self.next as int)
    }

    /// The cursor stands among codes of a well-formed type.
    pub closed spec fn wf(&self) -> bool {
        &&& E::well_formed()
        &&& self.next <= self.inner@.len()
        &&& forall|i: int| 0 <= i < self.inner@.len() ==>
            #[trigger] self.inner@[i] < E::NUM_VARIANTS
    }

    /// A cursor placed before the first of the given codes.
    pub fn new(inner: Vec<usize>) -> (r: Self)
        requires
            E::well_formed(),
            forall|i: int| 0 <= i < inner@.len() ==> #[trigger] inner@[i] < E::NUM_VARIANTS,
        ensures
            r.wf(),
            r.codes() == inner@,
            r.pending() == inner@,
    {
        let r = Self { inner, next: 0, _phantom: PhantomData };
        proof {
            assert(r.pending() =~= inner@);
        }
        r
    }

    /// Hands out the value of the next code, if one is left.
    pub fn next(&mut self) -> (r: Option<E>)
        requires
            old(self).wf(),
        ensures
            final(self).wf(),
            final(self).codes() == old(self).codes(),
            old(self).pending().len() == 0 ==>
                r.is_none() && final(self).pending() == old(self).pending(),
            old(self).pending().len() > 0 ==> r == Some(E::decode(old(self).pending()[0] as nat))
                && final(self).pending() == old(self).pending().skip(1),
    {
        if self.next < self.inner.len() {
            let x = E::from_discr(self.inner[self.next]);
            self.next += 1;
            proof {
                assert(self.pending() =~= old(self).pending().skip(1));
            }
            Some(x)
        } else {
            None
        }
    }

    /// The number of values left, as a lower and an upper bound.
    pub fn size_hint(&self) -> (r: (usize, Option<usize>))
        requires
            self.wf(),
        ensures
            r.0 as nat == self.pending().len(),
            r.1 == Some(r.0),
    {
        let n = self.inner.len() - self.next;
        (n, Some(n))
    }
}

} // verus!
