//! The packed vector: a resizable sequence of values of an `EnumLike` type,
//! each stored as its code in a slot of `bits_per_elem` bits, several slots
//! to a storage word.

use vstd::prelude::*;
use vstd::arithmetic::power2::pow2;
use std::marker::PhantomData;
use crate::enum_like::EnumLike;
use crate::layout::{
    bits_for, bits_per_elem, lemma_bits_cover, lemma_blocks_bound, lemma_place_in_blocks,
    lemma_place_slot, lemma_slot_in_word, lemma_slot_place,
};
use crate::storage::BlockStorage;
use crate::word::Word;

verus! {

/// A type with `n` values can be packed into words of `word_bits` bits: it
/// has at least two values, so that a code takes at least one bit, and a code
/// takes no more bits than a word has.
pub open spec fn domain_fits(n: nat, word_bits: nat) -> bool {
    2 <= n && bits_per_elem(n) <= word_bits
}

/// The code in slot `i` of a row of words, `per_block` slots of `bits` bits to
/// a word.
pub open spec fn slot_of<W: Word>(blocks: Seq<W>, per_block: nat, bits: nat, i: int) -> nat {
    blocks[i / per_block as int].field(((i % per_block as int) * bits) as nat, bits)
}

/// A vector which efficiently stores enum variants.
///
/// `T` is the type of the elements, `W` the storage word and `S` the
/// sequence that holds the words.
#[derive(Debug)]
pub struct EnumVec<T: EnumLike, W: Word, S: BlockStorage<W>> {
    storage: S,
    num_elements: usize,
    bits: usize,
    per_block: usize,
    _elem: PhantomData<T>,
    _word: PhantomData<W>,
}

impl<T: EnumLike, W: Word, S: BlockStorage<W>> EnumVec<T, W, S> {
    /// The number of bits that one element takes.
    pub open spec fn bits_per_elem() -> nat {
        bits_per_elem(T::NUM_VARIANTS as nat)
    }

    /// The number of elements that one storage word holds.
    pub open spec fn elems_per_block() -> nat {
        W::BITS as nat / Self::bits_per_elem()
    }

    /// The storage words, in order. There may be more of them than the
    /// elements need.
    pub closed spec fn blocks(&self) -> Seq<W> {
        self.storage.blocks()
    }

    /// The number of elements.
    pub closed spec fn spec_len(&self) -> usize {
        self.num_elements
    }

    /// The number of slots in the storage words.
    pub open spec fn slot_count(&self) -> nat {
        self.blocks().len() * Self::elems_per_block()
    }

    /// The codes in all the slots of the storage words, in order. The first
    /// `len` of them are the codes of the elements.
    pub open spec fn slots(&self) -> Seq<nat> {
        Seq::new(
            self.slot_count(),
            |i: int| slot_of(self.blocks(), Self::elems_per_block(), Self::bits_per_elem(), i),
        )
    }

    /// The codes of the elements, in order.
    pub open spec fn codes(&self) -> Seq<nat> {
        self.slots().take(self.spec_len() as int)
    }

    /// The elements, in order.
    pub open spec fn view(&self) -> Seq<T> {
        Seq::new(self.spec_len() as nat, |i: int| T::decode(self.slots()[i]))
    }

    /// The vector is in order: the element type can be packed into the
    /// storage word, the storage words have a slot for every element, and
    /// every slot holds a code of the element type.
    pub closed spec fn wf(&self) -> bool {
        &&& T::well_formed()
        &&& domain_fits(T::NUM_VARIANTS as nat, W::BITS as nat)
        &&& self.bits as nat == Self::bits_per_elem()
        &&& self.per_block as nat == Self::elems_per_block()
        &&& self.spec_len() <= self.slot_count()
        &&& S::holds(self.blocks().len())
        &&& forall|i: int|
            0 <= i < self.slot_count() ==> #[trigger] self.slots()[i] < T::NUM_VARIANTS
    }

    /// The storage can be asked to grow by the words that `additional` more
    /// elements may take.
    pub open spec fn can_grow(&self, additional: nat) -> bool {
        S::holds(self.blocks().len() + additional / Self::elems_per_block() + 1)
    }

    /// What `wf` says of the layout and of the slots.
    pub proof fn lemma_wf(&self)
        requires
            self.wf(),
        ensures
            T::well_formed(),
            domain_fits(T::NUM_VARIANTS as nat, W::BITS as nat),
            1 <= Self::bits_per_elem() <= 64,
            1 <= Self::elems_per_block(),
            Self::elems_per_block() * Self::bits_per_elem() <= W::BITS,
            self.spec_len() <= self.slot_count(),
            self@.len() == self.spec_len(),
            S::holds(self.blocks().len()),
            forall|i: int| 0 <= i < self.slot_count() ==>
                #[trigger] self.slots()[i] < T::NUM_VARIANTS,
    {
        Self::lemma_layout();
    }

    /// A storage that can grow by the words of `additional` elements can
    /// hold `blocks` words, where these have no more slots than the words
    /// that are there and `additional` slots beside.
    pub proof fn lemma_can_grow(&self, additional: nat, blocks: nat)
        requires
            self.wf(),
            self.can_grow(additional),
            blocks >= 1 ==> (blocks - 1) * Self::elems_per_block() <= self.slot_count()
                + additional,
        ensures
            S::holds(blocks),
    {
        Self::lemma_layout();
        let e = Self::elems_per_block();
        if blocks >= 1 {
            assert(self.slot_count() == self.blocks().len() * e);
            lemma_blocks_bound((blocks - 1) as nat, self.blocks().len(), additional, e);
        }
        S::lemma_holds_fewer(self.blocks().len() + additional / e + 1, blocks);
    }

    /// The layout that a fitting element type has in the storage word.
    pub proof fn lemma_layout()
        requires
            domain_fits(T::NUM_VARIANTS as nat, W::BITS as nat),
        ensures
            1 <= Self::bits_per_elem() <= 64,
            1 <= Self::elems_per_block(),
            Self::elems_per_block() * Self::bits_per_elem() <= W::BITS,
            T::NUM_VARIANTS <= pow2(Self::bits_per_elem()),
    {
        let n = T::NUM_VARIANTS as nat;
        let b = bits_per_elem(n);
        crate::layout::lemma_bits_tight(n);
        lemma_bits_cover(n);
        vstd::arithmetic::power2::lemma2_to64();
        vstd::arithmetic::power2::lemma2_to64_rest();
        crate::layout::lemma_bits_least(n, 64);
        vstd::arithmetic::div_mod::lemma_fundamental_div_mod(W::BITS as int, b as int);
        assert(b * (W::BITS as nat / b) == (W::BITS as nat / b) * b) by (nonlinear_arith);
        if W::BITS as nat / b == 0 {
            assert(false);
        }
    }

    /// The layout of the element type in the storage word: the bits of one
    /// element, and the elements of one word. Both are 0 where the type has
    /// fewer than two values or its codes are wider than a word.
    fn layout() -> (r: (usize, usize))
        ensures
            domain_fits(T::NUM_VARIANTS as nat, W::BITS as nat) ==> r.0 as nat
                == Self::bits_per_elem() && r.1 as nat == Self::elems_per_block(),
            !domain_fits(T::NUM_VARIANTS as nat, W::BITS as nat) ==> r == (0usize, 0usize),
    {
        let bits = bits_for(T::NUM_VARIANTS);
        if T::NUM_VARIANTS < 2 || bits > W::BITS {
            (0, 0)
        } else {
            proof {
                crate::layout::lemma_bits_tight(T::NUM_VARIANTS as nat);
            }
            (bits, W::BITS / bits)
        }
    }

    /// An empty vector.
    pub fn new() -> (r: Self)
        requires
            T::well_formed(),
            domain_fits(T::NUM_VARIANTS as nat, W::BITS as nat),
        ensures
            r.wf(),
            r@ == Seq::<T>::empty(),
            r@.len() == 0,
            r.blocks().len() == 0,
    {
        Default::default()
    }

    /// An empty vector, where the element type can be packed into the
    /// storage word, and nothing where it cannot.
    pub fn try_new() -> (r: Option<Self>)
        requires
            T::well_formed(),
        ensures
            r.is_some() <==> domain_fits(T::NUM_VARIANTS as nat, W::BITS as nat),
            r.is_some() ==> r.unwrap().wf() && r.unwrap()@ == Seq::<T>::empty()
                && r.unwrap().blocks().len() == 0,
    {
        let (bits, _per_block) = Self::layout();
        if bits == 0 {
            proof {
                if domain_fits(T::NUM_VARIANTS as nat, W::BITS as nat) {
                    Self::lemma_layout();
                }
            }
            None
        } else {
            Some(Self::new())
        }
    }

    /// An empty vector with room for `n` elements: `n` divided by the
    /// elements of a word, rounded up, is the number of words for which room
    /// is made.
    pub fn with_capacity(n: usize) -> (r: Self)
        requires
            T::well_formed(),
            domain_fits(T::NUM_VARIANTS as nat, W::BITS as nat),
            S::holds(spec_blocks_for_elements(n as nat, Self::elems_per_block())),
        ensures
            r.wf(),
            r@ == Seq::<T>::empty(),
            r@.len() == 0,
            r.blocks().len() == 0,
    {
        let (bits, per_block) = Self::layout();
        proof {
            Self::lemma_layout();
        }
        let r = Self {
            storage: S::empty_with_room(blocks_for_elements(n, per_block)),
            num_elements: 0,
            bits,
            per_block,
            _elem: PhantomData,
            _word: PhantomData,
        };
        proof {
            assert(r.slot_count() == 0) by (nonlinear_arith)
                requires
                    r.slot_count() == 0 * Self::elems_per_block(),
            ;
            assert(r@ =~= Seq::<T>::empty());
            S::lemma_holds_fewer(0, 0);
        }
        r
    }

    /// Returns the number of elements that can be held without allocating
    /// new memory: the room of the storage in words, times the elements of a
    /// word, or `usize::MAX` where that is more.
    pub fn capacity(&self) -> (r: usize)
        requires
            self.wf(),
        ensures
            r >= self@.len(),
            r == usize::MAX || (r >= self.slot_count() && r as nat % Self::elems_per_block() == 0),
    {
        let room = self.storage.room();
        proof {
            self.lemma_wf();
            assert(room * self.per_block >= self.slot_count()) by (nonlinear_arith)
                requires
                    room >= self.blocks().len(),
                    self.slot_count() == self.blocks().len() * (self.per_block as nat),
            ;
            lemma_slot_place(room as nat, 0, Self::elems_per_block());
        }
        saturating_product(room, self.per_block)
    }

    /// Returns the length of the vector, the number of elements it holds.
    #[verifier::when_used_as_spec(spec_len)]
    pub fn len(&self) -> (r: usize)
        ensures
            r == self@.len(),
    {
        self.num_elements
    }

    /// Whether the vector holds no element.
    pub fn is_empty(&self) -> (r: bool)
        ensures
            r <==> self@.len() == 0,
    {
        self.num_elements == 0
    }
}

impl<T: EnumLike, W: Word, S: BlockStorage<W>> EnumVec<T, W, S> {
    /// The block of slot `i`, and the bit at which the slot begins there.
    fn block_index(&self, i: usize) -> (r: (usize, usize))
        requires
            self.wf(),
        ensures
            r.0 as nat == i as nat / Self::elems_per_block(),
            r.1 as nat == (i as nat % Self::elems_per_block()) * Self::bits_per_elem(),
            r.1 + Self::bits_per_elem() <= W::BITS,
            i < self.slot_count() <==> r.0 < self.blocks().len(),
    {
        proof {
            self.lemma_wf();
            lemma_place_slot(i as nat, Self::elems_per_block());
            lemma_place_in_blocks(i as nat, Self::elems_per_block(), self.blocks().len());
            lemma_slot_in_word(
                i as nat % Self::elems_per_block(),
                Self::bits_per_elem(),
                W::BITS as nat,
            );
        }
        (i / self.per_block, (i % self.per_block) * self.bits)
    }

    /// Get the raw code in slot `i`, which may lie beyond the elements but
    /// not beyond the storage words.
    pub fn get_raw_unchecked(&self, i: usize) -> (r: usize)
        requires
            self.wf(),
            i < self.slot_count(),
        ensures
            r as nat == self.slots()[i as int],
            r < T::NUM_VARIANTS,
    {
        let (b, off) = self.block_index(i);
        proof {
            self.lemma_wf();
        }
        let d = self.storage.block(b).get_field(off, self.bits);
        d as usize
    }

    /// Set the raw code in slot `i`, which may lie beyond the elements but
    /// not beyond the storage words. The code is one of the element type.
    pub fn set_raw_unchecked(&mut self, i: usize, discr: usize)
        requires
            old(self).wf(),
            i < old(self).slot_count(),
            discr < T::NUM_VARIANTS,
        ensures
            final(self).wf(),
            final(self)@.len() == old(self)@.len(),
            final(self).blocks().len() == old(self).blocks().len(),
            final(self).slots() == old(self).slots().update(i as int, discr as nat),
    {
        let (b, off) = self.block_index(i);
        proof {
            self.lemma_wf();
            Self::lemma_layout();
        }
        let word = self.storage.block(b).set_field(off, self.bits, discr as u64);
        self.storage.set_block(b, word);
        proof {
            let e = Self::elems_per_block();
            let w = Self::bits_per_elem();
            assert(self.slot_count() == old(self).slot_count());
            assert forall|j: int| 0 <= j < old(self).slot_count()
                implies #[trigger] self.slots()[j]
                    == old(self).slots().update(i as int, discr as nat)[j] by {
                lemma_place_slot(j as nat, e);
                lemma_place_slot(i as nat, e);
                lemma_place_in_blocks(j as nat, e, old(self).blocks().len());
                lemma_slot_in_word(j as nat % e, w, W::BITS as nat);
                if j / e as int == b as int && j != i as int {
                    let kj = j as nat % e;
                    let ki = i as nat % e;
                    assert(kj * w + w <= ki * w || ki * w + w <= kj * w) by (nonlinear_arith)
                        requires
                            kj != ki,
                    ;
                }
            }
            assert(self.slots() =~= old(self).slots().update(i as int, discr as nat));
        }
    }

    /// The raw code of element `i`, if there is such an element.
    fn get_raw(&self, i: usize) -> (r: Option<usize>)
        requires
            self.wf(),
        ensures
            i < self.spec_len() ==> r == Some(self.slots()[i as int] as usize)
                && self.slots()[i as int] < T::NUM_VARIANTS,
            i >= self.spec_len() ==> r.is_none(),
    {
        if i >= self.len() {
            return None;
        }
        proof {
            self.lemma_wf();
        }
        Some(self.get_raw_unchecked(i))
    }

    /// Overwrites the raw code of element `i`.
    fn set_raw(&mut self, i: usize, discr: usize)
        requires
            old(self).wf(),
            i < old(self).spec_len(),
            discr < T::NUM_VARIANTS,
        ensures
            final(self).wf(),
            final(self).spec_len() == old(self).spec_len(),
            final(self).blocks().len() == old(self).blocks().len(),
            final(self).slots() == old(self).slots().update(i as int, discr as nat),
    {
        proof {
            self.lemma_wf();
        }
        self.set_raw_unchecked(i, discr);
    }

    /// The element at position `i`, or nothing where `i` is not below the
    /// length.
    pub fn get(&self, i: usize) -> (r: Option<T>)
        requires
            self.wf(),
        ensures
            i < self@.len() ==> r == Some(self@[i as int]),
            i >= self@.len() ==> r.is_none(),
    {
        match self.get_raw(i) {
            Some(x) => Some(T::from_discr(x)),
            None => None,
        }
    }

    /// Overwrites the element at position `i`, which must exist: `set` never
    /// extends the vector.
    pub fn set(&mut self, i: usize, x: T)
        requires
            old(self).wf(),
            i < old(self)@.len(),
        ensures
            final(self).wf(),
            final(self)@ == old(self)@.update(i as int, x),
            final(self)@.len() == old(self)@.len(),
            final(self).blocks().len() == old(self).blocks().len(),
    {
        proof {
            self.lemma_wf();
        }
        let d = x.to_discr();
        self.set_raw(i, d);
        proof {
            assert(self@ =~= old(self)@.update(i as int, x));
        }
    }

    /// The slots as they are once room for one more element is made: where
    /// every slot is taken, a word of zeroed slots is added.
    spec fn grown_slots(&self) -> Seq<nat> {
        if self.spec_len() == self.slot_count() {
            self.slots() + Seq::new(Self::elems_per_block(), |i: int| 0nat)
        } else {
            self.slots()
        }
    }

    /// Adds a zeroed storage word where the next element would not find a
    /// slot.
    fn grow_if_needed(&mut self)
        requires
            old(self).wf(),
            old(self).spec_len() == old(self).slot_count() ==> S::holds(
                old(self).blocks().len() + 1,
            ),
        ensures
            final(self).wf(),
            final(self).spec_len() == old(self).spec_len(),
            final(self).spec_len() < final(self).slot_count(),
            final(self).blocks().len() == old(self).blocks().len() + (if old(self).spec_len()
                == old(self).slot_count() {
                1int
            } else {
                0int
            }),
            final(self).slots() == old(self).grown_slots(),
    {
        let ghost e = Self::elems_per_block();
        let ghost n0 = self.blocks().len();
        let ghost c0 = self.slot_count();
        proof {
            self.lemma_wf();
            lemma_place_slot(self.spec_len() as nat, e);
            lemma_slot_place(n0, 0, e);
        }
        if (self.len() % self.per_block == 0) && (self.len() / self.per_block
            == self.storage.block_count()) {
            self.storage.push_block(W::zero());
            proof {
                let c1 = self.slot_count();
                assert(c1 == c0 + e) by (nonlinear_arith)
                    requires
                        c1 == (n0 + 1) * e,
                        c0 == n0 * e,
                ;
                assert forall|j: int| 0 <= j < c1
                    implies #[trigger] self.slots()[j] == old(self).grown_slots()[j] by {
                    lemma_place_in_blocks(j as nat, e, n0);
                    lemma_place_in_blocks(j as nat, e, n0 + 1);
                }
                assert(self.slots() =~= old(self).grown_slots());
            }
        } else {
            proof {
                if self.spec_len() == c0 {
                    assert(self.spec_len() as nat / e == n0);
                    assert(false);
                }
                assert(self.slots() =~= old(self).grown_slots());
            }
        }
    }

    /// Adds an element at the end. The storage grows by exactly one word
    /// where every slot of the storage words is taken, and not at all
    /// otherwise.
    pub fn push(&mut self, x: T)
        requires
            old(self).wf(),
            old(self)@.len() < usize::MAX,
            old(self)@.len() == old(self).slot_count() ==> S::holds(
                old(self).blocks().len() + 1,
            ),
        ensures
            final(self).wf(),
            final(self)@ == old(self)@.push(x),
            final(self).blocks().len() == old(self).blocks().len() + (if old(self)@.len()
                == old(self).slot_count() {
                1int
            } else {
                0int
            }),
    {
        let d = x.to_discr();
        self.push_raw(d);
        proof {
            assert(self@ =~= old(self)@.push(x));
        }
    }

    /// Adds an element at the end, given by its code.
    fn push_raw(&mut self, d: usize)
        requires
            old(self).wf(),
            old(self).spec_len() < usize::MAX,
            old(self).spec_len() == old(self).slot_count() ==> S::holds(
                old(self).blocks().len() + 1,
            ),
            d < T::NUM_VARIANTS,
        ensures
            final(self).wf(),
            final(self).spec_len() == old(self).spec_len() + 1,
            final(self).slots() == old(self).grown_slots().update(
                old(self).spec_len() as int,
                d as nat,
            ),
            final(self).codes() == old(self).codes().push(d as nat),
            final(self).blocks().len() == old(self).blocks().len() + (if old(self).spec_len()
                == old(self).slot_count() {
                1int
            } else {
                0int
            }),
    {
        self.grow_if_needed();
        let idx = self.num_elements;
        self.num_elements = self.num_elements + 1;
        self.set_raw(idx, d);
        proof {
            assert(self.codes() =~= old(self).codes().push(d as nat));
        }
    }

    /// Removes the last element and returns it, or returns nothing where the
    /// vector is empty.
    pub fn pop(&mut self) -> (r: Option<T>)
        requires
            old(self).wf(),
        ensures
            final(self).wf(),
            final(self).blocks() == old(self).blocks(),
            old(self)@.len() == 0 ==> r.is_none() && final(self)@ == old(self)@,
            old(self)@.len() > 0 ==>
                r == Some(old(self)@.last()) && final(self)@ == old(self)@.drop_last(),
    {
        if self.is_empty() {
            None
        } else {
            let x = self.get(self.num_elements - 1);
            self.num_elements -= 1;
            proof {
                assert(self@ =~= old(self)@.drop_last());
            }
            x
        }
    }
}

/// The slots after the slots of one block, `e` slots from `start` on, have
/// moved one place up and `d` has taken the lowest place of the block.
spec fn block_shifted_up(s: Seq<nat>, start: int, e: int, d: nat) -> Seq<nat> {
    Seq::new(
        s.len(),
        |j: int|
            if j < start || j >= start + e {
                s[j]
            } else if j == start {
                d
            } else {
                s[j - 1]
            },
    )
}

/// The slots after the slots of one block, `e` slots from `start` on, have
/// moved one place down and `d` has taken the highest place of the block.
spec fn block_shifted_down(s: Seq<nat>, start: int, e: int, d: nat) -> Seq<nat> {
    Seq::new(
        s.len(),
        |j: int|
            if j < start || j >= start + e {
                s[j]
            } else if j == start + e - 1 {
                d
            } else {
                s[j + 1]
            },
    )
}

/// The slots `a` while `d` is being inserted at `index`: the slots from
/// `index` up to `p` have moved one place up already.
spec fn insert_progress(a: Seq<nat>, index: int, p: int, d: nat) -> Seq<nat> {
    Seq::new(
        a.len(),
        |j: int|
            if j < index || j >= p {
                a[j]
            } else if j == index {
                d
            } else {
                a[j - 1]
            },
    )
}

/// The slots `a` while the slot at `index` is being removed: the slots from
/// `index` up to `i` hold their upper neighbours already, and so do the slots
/// from `lo` up to `t`; slot `t` holds `last`.
spec fn remove_progress(
    a: Seq<nat>,
    index: int,
    i: int,
    lo: int,
    t: int,
    last: nat,
) -> Seq<nat> {
    Seq::new(
        a.len(),
        |j: int|
            if j < index {
                a[j]
            } else if j < i {
                a[j + 1]
            } else if j < lo {
                a[j]
            } else if j < t {
                a[j + 1]
            } else if j == t {
                last
            } else {
                a[j]
            },
    )
}

impl<T: EnumLike, W: Word, S: BlockStorage<W>> EnumVec<T, W, S> {
    /// Shifts the slots of block `b` one place up, puts `d` into its lowest
    /// slot and returns what its highest slot held.
    fn shift_block_up(&mut self, b: usize, d: usize) -> (carry: usize)
        requires
            old(self).wf(),
            b < old(self).blocks().len(),
            d < T::NUM_VARIANTS,
        ensures
            final(self).wf(),
            final(self).spec_len() == old(self).spec_len(),
            final(self).blocks().len() == old(self).blocks().len(),
            carry < T::NUM_VARIANTS,
            carry as nat == old(self).slots()[b * Self::elems_per_block() + Self::elems_per_block()
                - 1],
            final(self).slots() == block_shifted_up(
                old(self).slots(),
                b * Self::elems_per_block(),
                Self::elems_per_block() as int,
                d as nat,
            ),
    {
        let ghost e = Self::elems_per_block();
        let ghost w = Self::bits_per_elem();
        let ghost n = self.blocks().len();
        proof {
            self.lemma_wf();
            Self::lemma_layout();
            lemma_slot_in_word((e - 1) as nat, w, W::BITS as nat);
            lemma_slot_place(b as nat, (e - 1) as nat, e);
            lemma_place_in_blocks((b * e + e - 1) as nat, e, n);
        }
        let word = self.storage.block(b);
        let carry = word.get_field((self.per_block - 1) * self.bits, self.bits);
        proof {
            assert(carry as nat == self.slots()[b * e + e - 1]);
        }
        let shifted = word.shift_up(self.bits, d as u64);
        self.storage.set_block(b, shifted);
        proof {
            let target = block_shifted_up(old(self).slots(), b * e, e as int, d as nat);
            assert forall|j: int| 0 <= j < old(self).slot_count() implies #[trigger] self.slots()[j]
                == target[j] by {
                lemma_place_slot(j as nat, e);
                lemma_place_in_blocks(j as nat, e, n);
                let k = j as nat % e;
                lemma_slot_in_word(k, w, W::BITS as nat);
                if j / e as int == b as int {
                    lemma_slot_place(b as nat, k, e);
                    if k > 0 {
                        lemma_slot_place(b as nat, (k - 1) as nat, e);
                        assert(k * w - w == (k - 1) * w) by (nonlinear_arith);
                        assert(k * w >= w) by (nonlinear_arith)
                            requires
                                k >= 1,
                        ;
                    } else {
                        assert(k * w == 0) by (nonlinear_arith)
                            requires
                                k == 0,
                        ;
                    }
                } else {
                    if b * e <= j < b * e + e {
                        lemma_slot_place(b as nat, (j - b * e) as nat, e);
                    }
                }
            }
            assert(self.slots() =~= target);
        }
        carry as usize
    }

    /// Shifts the slots of block `b` one place down, puts `d` into its
    /// highest slot and returns what its lowest slot held.
    fn shift_block_down(&mut self, b: usize, d: usize) -> (carry: usize)
        requires
            old(self).wf(),
            b < old(self).blocks().len(),
            d < T::NUM_VARIANTS,
        ensures
            final(self).wf(),
            final(self).spec_len() == old(self).spec_len(),
            final(self).blocks().len() == old(self).blocks().len(),
            carry < T::NUM_VARIANTS,
            carry as nat == old(self).slots()[b * Self::elems_per_block()],
            final(self).slots() == block_shifted_down(
                old(self).slots(),
                b * Self::elems_per_block(),
                Self::elems_per_block() as int,
                d as nat,
            ),
    {
        let ghost e = Self::elems_per_block();
        let ghost w = Self::bits_per_elem();
        let ghost n = self.blocks().len();
        proof {
            self.lemma_wf();
            Self::lemma_layout();
            lemma_slot_in_word((e - 1) as nat, w, W::BITS as nat);
            lemma_slot_in_word(0, w, W::BITS as nat);
            lemma_slot_place(b as nat, 0, e);
            lemma_place_in_blocks((b * e) as nat, e, n);
            lemma_slot_place(b as nat, (e - 1) as nat, e);
            lemma_place_in_blocks((b * e + e - 1) as nat, e, n);
            assert(0 * w == 0) by (nonlinear_arith);
        }
        let word = self.storage.block(b);
        let carry = word.get_field(0, self.bits);
        proof {
            assert(carry as nat == self.slots()[b * e]);
        }
        let shifted = word.shift_down(self.bits, (self.per_block - 1) * self.bits, d as u64);
        self.storage.set_block(b, shifted);
        proof {
            let target = block_shifted_down(old(self).slots(), b * e, e as int, d as nat);
            assert forall|j: int| 0 <= j < old(self).slot_count() implies #[trigger] self.slots()[j]
                == target[j] by {
                lemma_place_slot(j as nat, e);
                lemma_place_in_blocks(j as nat, e, n);
                let k = j as nat % e;
                lemma_slot_in_word(k, w, W::BITS as nat);
                if j / e as int == b as int {
                    lemma_slot_place(b as nat, k, e);
                    if k + 1 < e {
                        lemma_slot_place(b as nat, k + 1, e);
                        lemma_place_in_blocks((j + 1) as nat, e, n);
                        assert(k * w + w == (k + 1) * w) by (nonlinear_arith);
                        assert((k + 1) * w <= (e - 1) * w) by (nonlinear_arith)
                            requires
                                k + 1 <= e - 1,
                        ;
                        assert(shifted.field(k * w, w) == word.field(k * w + w, w));
                        assert(old(self).slots()[j + 1] == word.field((k + 1) * w, w));
                        assert(self.slots()[j] == target[j]);
                    } else {
                        assert(k == e - 1);
                        assert(shifted.field(((e - 1) * w) as nat, w) == d as nat);
                        assert(self.slots()[j] == target[j]);
                    }
                } else {
                    if b * e <= j < b * e + e {
                        lemma_slot_place(b as nat, (j - b * e) as nat, e);
                    }
                }
            }
            assert(self.slots() =~= target);
            assert forall|j: int| 0 <= j < self.slot_count() implies #[trigger] self.slots()[j]
                < T::NUM_VARIANTS by {
                if b * e <= j < b * e + e - 1 {
                    assert(old(self).slots()[j + 1] < T::NUM_VARIANTS);
                } else {
                    assert(j == b * e + e - 1 || old(self).slots()[j] < T::NUM_VARIANTS);
                }
            }
        }
        carry as usize
    }
}

impl<T: EnumLike, W: Word, S: BlockStorage<W>> EnumVec<T, W, S> {
    /// Insert an element into an arbitrary position. This operation is very
    /// expensive, as it must shift all the elements to make space for the new
    /// one: slot by slot up to the end of the word in which the position
    /// lies, then word by word, the highest slot of each word moving into
    /// the lowest slot of the next. Prefer using `push()`.
    pub fn insert(&mut self, index: usize, element: T)
        requires
            old(self).wf(),
            index <= old(self)@.len(),
            old(self)@.len() < usize::MAX,
            old(self)@.len() == old(self).slot_count() ==> S::holds(
                old(self).blocks().len() + 1,
            ),
        ensures
            final(self).wf(),
            final(self)@ == old(self)@.insert(index as int, element),
            final(self).blocks().len() == old(self).blocks().len() + (if old(self)@.len()
                == old(self).slot_count() {
                1int
            } else {
                0int
            }),
    {
        let d = element.to_discr();
        proof {
            self.lemma_wf();
        }
        // Increment the len by 1 and allocate memory if needed
        self.push_raw(d);
        let ghost a = self.slots();
        let ghost e = Self::elems_per_block();
        let ghost n = self.blocks().len();
        proof {
            self.lemma_wf();
            assert(self.slots() =~= insert_progress(a, index as int, index as int, d as nat));
        }
        let per_block = self.per_block;
        let slow_insert = index % per_block;
        let self_len = self.len();
        let mut prev = d;
        let mut i = index;
        // Skip this part if index % per_block == 0
        if slow_insert > 0 {
            let rest = per_block - slow_insert;
            let slow_limit = if self_len - index > rest {
                index + rest
            } else {
                self_len
            };
            while i < slow_limit
                invariant
                    self.wf(),
                    self.spec_len() == self_len,
                    self.blocks().len() == n,
                    a.len() == self.slot_count(),
                    index <= i <= slow_limit <= self_len,
                    prev < T::NUM_VARIANTS,
                    prev as nat == (if i == index {
                        d as nat
                    } else {
                        a[i - 1]
                    }),
                    self.slots() == insert_progress(a, index as int, i as int, d as nat),
                decreases slow_limit - i,
            {
                proof {
                    self.lemma_wf();
                }
                let next = self.get_raw_unchecked(i);
                self.set_raw_unchecked(i, prev);
                prev = next;
                i += 1;
                proof {
                    assert(self.slots() =~= insert_progress(a, index as int, i as int, d as nat));
                }
            }
        }
        if i < self.len() {
            // Shift the storage blocks, including the last block
            let blocks = self.storage.block_count();
            proof {
                let q = index as nat / e;
                let m = index as nat % e;
                lemma_place_slot(index as nat, e);
                if slow_insert > 0 {
                    assert(i == (q + 1) * e) by (nonlinear_arith)
                        requires
                            i == index - m + e,
                            index == q * e + m,
                    ;
                    lemma_slot_place(q + 1, 0, e);
                } else {
                    lemma_slot_place(q, 0, e);
                }
                lemma_place_slot(i as nat, e);
                lemma_place_in_blocks((self_len - 1) as nat, e, n);
                vstd::arithmetic::div_mod::lemma_div_is_ordered(
                    i as int,
                    self_len - 1,
                    e as int,
                );
            }
            let ib = i / per_block;
            let last_ib = (self.len() - 1) / per_block;
            let mut b = ib;
            while b <= last_ib
                invariant
                    self.wf(),
                    self.spec_len() == self_len,
                    self.blocks().len() == n,
                    a.len() == self.slot_count(),
                    e == Self::elems_per_block(),
                    e >= 1,
                    index <= ib * e,
                    ib <= b <= last_ib + 1,
                    last_ib < n,
                    n == blocks,
                    prev < T::NUM_VARIANTS,
                    prev as nat == (if b * e == index {
                        d as nat
                    } else {
                        a[b * e - 1]
                    }),
                    self.slots() == insert_progress(a, index as int, b * e, d as nat),
                decreases last_ib + 1 - b,
            {
                proof {
                    assert(ib * e <= b * e) by (nonlinear_arith)
                        requires
                            ib <= b,
                    ;
                    assert((b + 1) * e == b * e + e) by (nonlinear_arith);
                    assert((b + 1) * e <= n * e) by (nonlinear_arith)
                        requires
                            b + 1 <= n,
                    ;
                }
                prev = self.shift_block_up(b, prev);
                b += 1;
                proof {
                    assert(self.slots() =~= insert_progress(a, index as int, b * e, d as nat));
                }
            }
            proof {
                lemma_place_slot((self_len - 1) as nat, e);
                assert((last_ib + 1) * e == last_ib * e + e) by (nonlinear_arith);
            }
        }
        proof {
            assert(self@ =~= old(self)@.insert(index as int, element));
        }
    }

    /// Remove an element from an arbitrary position. This operation is very
    /// expensive, as it must shift all the elements to fill the hole: slot
    /// by slot up to the end of the word in which the position lies, then
    /// word by word, the lowest slot of each word moving into the highest
    /// slot of the word before. When preserving the order is not important,
    /// consider using `swap_remove()`.
    pub fn remove(&mut self, index: usize) -> (x: T)
        requires
            old(self).wf(),
            index < old(self)@.len(),
        ensures
            final(self).wf(),
            x == old(self)@[index as int],
            final(self)@ == old(self)@.remove(index as int),
            final(self).blocks().len() == old(self).blocks().len(),
    {
        proof {
            self.lemma_wf();
        }
        let x = T::from_discr(self.get_raw_unchecked(index));
        let ghost a = self.slots();
        let ghost e = Self::elems_per_block();
        let ghost n = self.blocks().len();
        let ghost full = self.slot_count() as int;
        let per_block = self.per_block;
        let old_len = self.len();
        let length = old_len - 1;
        let mut i = index;
        let rest = per_block - 1 - index % per_block;
        let slow_limit = if length - index > rest {
            index + rest + 1
        } else {
            length
        };
        proof {
            assert(self.slots() =~= remove_progress(a, index as int, i as int, full, full, 0));
        }
        while i < slow_limit
            invariant
                self.wf(),
                self.spec_len() == old_len,
                self.blocks().len() == n,
                a.len() == self.slot_count(),
                full == a.len(),
                index <= i <= slow_limit <= length,
                length == old_len - 1,
                self.slots() == remove_progress(a, index as int, i as int, full, full, 0),
            decreases slow_limit - i,
        {
            proof {
                self.lemma_wf();
            }
            let next = self.get_raw_unchecked(i + 1);
            self.set_raw_unchecked(i, next);
            i += 1;
            proof {
                assert(self.slots() =~= remove_progress(a, index as int, i as int, full, full, 0));
            }
        }
        proof {
            self.lemma_wf();
        }
        let prev0 = self.get_raw_unchecked(old_len - 1);
        self.num_elements -= 1;
        if i < self.len() {
            // Shift the storage blocks, including the last block
            proof {
                let q = index as nat / e;
                let m = index as nat % e;
                lemma_place_slot(index as nat, e);
                assert(i == (q + 1) * e) by (nonlinear_arith)
                    requires
                        i == index + (e - 1 - m) + 1,
                        index == q * e + m,
                ;
                lemma_slot_place(q + 1, 0, e);
                lemma_place_slot((length - 1) as nat, e);
                lemma_place_in_blocks((length - 1) as nat, e, n);
                vstd::arithmetic::div_mod::lemma_div_is_ordered(i as int, length - 1, e as int);
            }
            let ib = i / per_block;
            let last_ib = (self.len() - 1) / per_block;
            let ghost t = last_ib * e + e - 1;
            let mut b1 = last_ib + 1;
            let mut prev = prev0;
            proof {
                assert((last_ib + 1) * e == last_ib * e + e) by (nonlinear_arith);
                assert((last_ib + 1) * e <= n * e) by (nonlinear_arith)
                    requires
                        last_ib + 1 <= n,
                ;
                assert(ib * e <= last_ib * e) by (nonlinear_arith)
                    requires
                        ib <= last_ib,
                ;
                assert(self.slots() =~= remove_progress(
                    a,
                    index as int,
                    i as int,
                    b1 * e,
                    t,
                    prev0 as nat,
                ));
            }
            while b1 > ib
                invariant
                    self.wf(),
                    self.spec_len() == length,
                    self.blocks().len() == n,
                    a.len() == self.slot_count(),
                    a.len() == n * e,
                    e == Self::elems_per_block(),
                    e >= 1,
                    i == ib * e,
                    index < i,
                    ib <= b1 <= last_ib + 1,
                    last_ib < n,
                    t == last_ib * e + e - 1,
                    t < a.len(),
                    old_len - 1 <= t + 1,
                    old_len - 1 < a.len(),
                    prev0 as nat == a[old_len - 1],
                    prev < T::NUM_VARIANTS,
                    prev as nat == (if b1 == last_ib + 1 {
                        prev0 as nat
                    } else {
                        a[b1 * e]
                    }),
                    self.slots() == remove_progress(
                        a,
                        index as int,
                        i as int,
                        b1 * e,
                        t,
                        prev0 as nat,
                    ),
                decreases b1,
            {
                b1 -= 1;
                proof {
                    assert((b1 + 1) * e == b1 * e + e) by (nonlinear_arith);
                    assert(ib * e <= b1 * e) by (nonlinear_arith)
                        requires
                            ib <= b1,
                    ;
                    assert(b1 * e + e <= last_ib * e + e) by (nonlinear_arith)
                        requires
                            b1 <= last_ib,
                    ;
                }
                let ghost before = self.slots();
                let ghost given = prev;
                prev = self.shift_block_down(b1, prev);
                proof {
                    let target = remove_progress(
                        a,
                        index as int,
                        i as int,
                        b1 * e,
                        t,
                        prev0 as nat,
                    );
                    assert forall|j: int| 0 <= j < a.len() implies #[trigger] self.slots()[j]
                        == target[j] by {
                        if b1 * e <= j < b1 * e + e - 1 {
                            assert(self.slots()[j] == before[j + 1]);
                            assert(before[j + 1] == a[j + 1]);
                            assert(target[j] == a[j + 1]);
                        } else if j == b1 * e + e - 1 {
                            assert(self.slots()[j] == given as nat);
                            if b1 == last_ib {
                                assert(target[j] == prev0 as nat);
                            } else {
                                assert(b1 * e + e <= last_ib * e) by (nonlinear_arith)
                                    requires
                                        b1 + 1 <= last_ib,
                                ;
                                assert(given as nat == a[j + 1]);
                                assert(j < t);
                                assert(target[j] == a[j + 1]);
                            }
                        } else {
                            assert(self.slots()[j] == before[j]);
                            assert(before[j] == target[j]);
                        }
                    }
                    assert(self.slots() =~= target);
                }
            }
        }
        proof {
            assert(self@ =~= old(self)@.remove(index as int));
        }
        x
    }
}

impl<T: EnumLike, W: Word, S: BlockStorage<W>> EnumVec<T, W, S> {
    /// Sets the length to `len`, which the slots of the storage words must
    /// cover. Elements that come into view are whatever their slots hold.
    pub fn set_len(&mut self, len: usize)
        requires
            old(self).wf(),
            len <= old(self).slot_count(),
        ensures
            final(self).wf(),
            final(self)@.len() == len,
            final(self).blocks() == old(self).blocks(),
            len <= old(self)@.len() ==> final(self)@ == old(self)@.take(len as int),
            len >= old(self)@.len() ==> final(self)@.take(old(self)@.len() as int) == old(self)@,
    {
        self.num_elements = len;
        proof {
            if len <= old(self).spec_len() {
                assert(self@ =~= old(self)@.take(len as int));
            } else {
                assert(self@.take(old(self).spec_len() as int) =~= old(self)@);
            }
        }
    }

    /// Shortens the vector to `len` elements. A vector that is not longer
    /// stays as it is. The storage words are left untouched.
    pub fn truncate(&mut self, len: usize)
        requires
            old(self).wf(),
        ensures
            final(self).wf(),
            final(self).blocks() == old(self).blocks(),
            len < old(self)@.len() ==> final(self)@ == old(self)@.take(len as int),
            len >= old(self)@.len() ==> final(self)@ == old(self)@,
    {
        if len < self.num_elements {
            proof {
                self.lemma_wf();
            }
            self.set_len(len);
        }
    }

    /// Sets the length to zero, removing all the elements. The storage words
    /// are left untouched.
    pub fn clear(&mut self)
        requires
            old(self).wf(),
        ensures
            final(self).wf(),
            final(self).blocks() == old(self).blocks(),
            final(self)@ == Seq::<T>::empty(),
    {
        self.truncate(0);
        proof {
            assert(self@ =~= Seq::<T>::empty());
        }
    }

    /// Drops the storage words that hold no element.
    fn fix_storage(&mut self)
        requires
            old(self).wf(),
        ensures
            final(self).wf(),
            final(self).spec_len() == old(self).spec_len(),
            final(self).codes() == old(self).codes(),
            final(self)@ == old(self)@,
            final(self).blocks().len() == spec_blocks_for_elements(
                old(self).spec_len() as nat,
                Self::elems_per_block(),
            ),
            final(self).blocks() == old(self).blocks().take(final(self).blocks().len() as int),
    {
        let ghost e = Self::elems_per_block();
        let ghost n = self.blocks().len();
        proof {
            self.lemma_wf();
        }
        let keep = blocks_for_elements(self.len(), self.per_block);
        proof {
            if keep > n {
                assert(n * e <= (keep - 1) * e) by (nonlinear_arith)
                    requires
                        n <= keep - 1,
                ;
                assert(false);
            }
        }
        self.storage.truncate_blocks(keep);
        proof {
            S::lemma_holds_fewer(n, keep as nat);
            assert(self.blocks() =~= old(self).blocks().take(keep as int));
            assert forall|j: int| 0 <= j < self.slot_count() implies #[trigger] self.slots()[j]
                == old(self).slots()[j] by {
                lemma_place_in_blocks(j as nat, e, keep as nat);
                lemma_place_in_blocks(j as nat, e, n);
            }
            assert(keep * e <= n * e) by (nonlinear_arith)
                requires
                    keep <= n,
                    e >= 0,
            ;
            assert(self.codes() =~= old(self).codes());
            assert(self@ =~= old(self)@);
        }
    }

    /// Shrinks the capacity as much as possible: the storage words that
    /// hold no element are dropped, and the storage gives back its spare
    /// room.
    pub fn shrink_to_fit(&mut self)
        requires
            old(self).wf(),
        ensures
            final(self).wf(),
            final(self)@ == old(self)@,
            final(self).blocks().len() == spec_blocks_for_elements(
                old(self)@.len(),
                Self::elems_per_block(),
            ),
    {
        self.fix_storage();
        self.storage.shrink_blocks();
        proof {
            assert(self@ =~= old(self)@);
        }
    }

    /// Swap two elements.
    pub fn swap(&mut self, ia: usize, ib: usize)
        requires
            old(self).wf(),
            ia < old(self)@.len(),
            ib < old(self)@.len(),
        ensures
            final(self).wf(),
            final(self).blocks().len() == old(self).blocks().len(),
            final(self)@ == old(self)@.update(ia as int, old(self)@[ib as int]).update(
                ib as int,
                old(self)@[ia as int],
            ),
    {
        proof {
            self.lemma_wf();
        }
        let a = self.get_raw_unchecked(ia);
        let b = self.get_raw_unchecked(ib);
        self.set_raw(ia, b);
        self.set_raw(ib, a);
        proof {
            assert(self@ =~= old(self)@.update(ia as int, old(self)@[ib as int]).update(
                ib as int,
                old(self)@[ia as int],
            ));
        }
    }

    /// Remove an element from an arbitrary position in O(1) time, but
    /// without preserving the ordering. This is accomplished by swapping the
    /// desired element with the last element, and then calling `pop()`.
    pub fn swap_remove(&mut self, index: usize) -> (x: T)
        requires
            old(self).wf(),
            index < old(self)@.len(),
        ensures
            final(self).wf(),
            x == old(self)@[index as int],
            final(self)@ == old(self)@.update(index as int, old(self)@.last()).drop_last(),
            final(self).blocks().len() == old(self).blocks().len(),
    {
        let length = self.len();
        self.swap(index, length - 1);
        let x = self.pop();
        proof {
            assert(self@ =~= old(self)@.update(index as int, old(self)@.last()).drop_last());
        }
        x.unwrap()
    }
}

impl<T: EnumLike, W: Word, S: BlockStorage<W>> EnumVec<T, W, S> {
    /// The codes in the slots of one storage word.
    spec fn block_slots(w: W) -> Seq<nat> {
        Seq::new(
            Self::elems_per_block(),
            |k: int| w.field((k * Self::bits_per_elem()) as nat, Self::bits_per_elem()),
        )
    }

    /// Adds a storage word, every slot of which holds a code of the element
    /// type.
    fn push_block_raw(&mut self, w: W)
        requires
            old(self).wf(),
            S::holds(old(self).blocks().len() + 1),
            forall|k: int|
                0 <= k < Self::elems_per_block() ==> #[trigger] Self::block_slots(w)[k]
                    < T::NUM_VARIANTS,
        ensures
            final(self).wf(),
            final(self).spec_len() == old(self).spec_len(),
            final(self).blocks() == old(self).blocks().push(w),
            final(self).slots() == old(self).slots() + Self::block_slots(w),
            final(self).codes() == old(self).codes(),
            final(self)@ == old(self)@,
    {
        let ghost e = Self::elems_per_block();
        let ghost n0 = self.blocks().len();
        let ghost c0 = self.slot_count();
        proof {
            self.lemma_wf();
        }
        self.storage.push_block(w);
        proof {
            let c1 = self.slot_count();
            assert(c1 == c0 + e) by (nonlinear_arith)
                requires
                    c1 == (n0 + 1) * e,
                    c0 == n0 * e,
            ;
            let target = old(self).slots() + Self::block_slots(w);
            assert forall|j: int| 0 <= j < c1 implies #[trigger] self.slots()[j] == target[j] by {
                lemma_place_in_blocks(j as nat, e, n0);
                lemma_place_in_blocks(j as nat, e, n0 + 1);
                if j >= c0 {
                    lemma_slot_place(n0, (j - c0) as nat, e);
                }
            }
            assert(self.slots() =~= target);
            assert forall|j: int| 0 <= j < c1 implies #[trigger] self.slots()[j]
                < T::NUM_VARIANTS by {
                if j >= c0 {
                    assert(Self::block_slots(w)[j - c0] < T::NUM_VARIANTS);
                } else {
                    assert(old(self).slots()[j] < T::NUM_VARIANTS);
                }
            }
            assert(self.codes() =~= old(self).codes());
            assert(self@ =~= old(self)@);
        }
    }

    /// Reserves room for at least `additional` more elements: zeroed storage
    /// words are added until the slots cover them.
    pub fn reserve(&mut self, additional: usize)
        requires
            old(self).wf(),
            old(self)@.len() + additional < usize::MAX,
            old(self).can_grow(additional as nat),
        ensures
            final(self).wf(),
            final(self)@ == old(self)@,
            final(self).codes() == old(self).codes(),
            final(self)@.len() == old(self)@.len(),
            final(self)@.len() + additional < final(self).slot_count(),
            final(self).blocks().len() == vstd::math::max(
                old(self).blocks().len() as int,
                ((old(self)@.len() + additional) as nat / Self::elems_per_block() + 1) as int,
            ),
    {
        let ghost e = Self::elems_per_block();
        proof {
            self.lemma_wf();
        }
        let desired_cap = self.len() + additional;
        let target = desired_cap / self.per_block + 1;
        let have = self.storage.block_count();
        proof {
            lemma_place_slot(desired_cap as nat, e);
            self.lemma_can_grow(additional as nat, target as nat);
        }
        if target > have {
            self.storage.reserve_blocks(target - have);
            proof {
                assert(self.slots() =~= old(self).slots());
                assert(self@ =~= old(self)@);
            }
            let mut k = have;
            while k < target
                invariant
                    self.wf(),
                    have <= k <= target,
                    S::holds(target as nat),
                    self.blocks().len() == k,
                    self.spec_len() == old(self).spec_len(),
                    self.codes() == old(self).codes(),
                    self@ == old(self)@,
                decreases target - k,
            {
                let zero = W::zero();
                proof {
                    self.lemma_wf();
                    S::lemma_holds_fewer(target as nat, (k + 1) as nat);
                    assert forall|m: int|
                        0 <= m < Self::elems_per_block() implies #[trigger] Self::block_slots(
                        zero,
                    )[m] < T::NUM_VARIANTS by {}
                }
                self.push_block_raw(zero);
                k += 1;
            }
        }
        proof {
            let n = self.blocks().len();
            lemma_place_slot(desired_cap as nat, e);
            assert(n * e >= (desired_cap as nat / e + 1) * e) by (nonlinear_arith)
                requires
                    n >= desired_cap as nat / e + 1,
            ;
            assert((desired_cap as nat / e + 1) * e == (desired_cap as nat / e) * e + e)
                by (nonlinear_arith);
        }
    }
}

impl<T: EnumLike, W: Word, S: BlockStorage<W>> EnumVec<T, W, S> {
    /// Adds `count` elements at the end, all with the code `d`.
    fn push_raw_n(&mut self, d: usize, count: usize)
        requires
            old(self).wf(),
            old(self).spec_len() + count <= usize::MAX,
            old(self).can_grow(count as nat),
            d < T::NUM_VARIANTS,
        ensures
            final(self).wf(),
            final(self).spec_len() == old(self).spec_len() + count,
            final(self).codes() == old(self).codes() + Seq::new(count as nat, |i: int| d as nat),
    {
        let mut k: usize = 0;
        let ghost e = Self::elems_per_block();
        let ghost b0 = self.blocks().len();
        proof {
            self.lemma_wf();
            assert(self.codes() =~= old(self).codes() + Seq::new(0, |i: int| d as nat));
        }
        while k < count
            invariant
                self.wf(),
                k <= count,
                e == Self::elems_per_block(),
                e >= 1,
                old(self).spec_len() + count <= usize::MAX,
                old(self).spec_len() <= b0 * e,
                S::holds(b0 + count as nat / e + 1),
                d < T::NUM_VARIANTS,
                self.spec_len() == old(self).spec_len() + k,
                self.codes() == old(self).codes() + Seq::new(k as nat, |i: int| d as nat),
            decreases count - k,
        {
            proof {
                if self.spec_len() == self.slot_count() {
                    lemma_blocks_bound(self.blocks().len(), b0, count as nat, e);
                    S::lemma_holds_fewer(b0 + count as nat / e + 1, self.blocks().len() + 1);
                }
            }
            self.push_raw(d);
            k += 1;
            proof {
                assert(self.codes() =~= old(self).codes() + Seq::new(k as nat, |i: int| d as nat));
            }
        }
    }

    /// A storage word in which every slot holds the code `d`: the code is
    /// shifted in once for every slot.
    fn splat(&self, d: usize) -> (r: W)
        requires
            self.wf(),
            d < T::NUM_VARIANTS,
        ensures
            Self::block_slots(r) == Seq::new(Self::elems_per_block(), |k: int| d as nat),
    {
        let ghost e = Self::elems_per_block();
        let ghost w = Self::bits_per_elem();
        proof {
            self.lemma_wf();
            Self::lemma_layout();
        }
        let mut r = W::zero();
        let mut k: usize = 0;
        while k < self.per_block
            invariant
                self.wf(),
                e == Self::elems_per_block(),
                w == Self::bits_per_elem(),
                1 <= w <= 64,
                w <= W::BITS,
                e == self.per_block,
                w == self.bits,
                d < pow2(w),
                k <= e,
                forall|m: int| 0 <= m < k ==> #[trigger] Self::block_slots(r)[m] == d as nat,
            decreases self.per_block - k,
        {
            let ghost before = r;
            r = r.shift_up(self.bits, d as u64);
            k += 1;
            proof {
                assert forall|m: int| 0 <= m < k implies #[trigger] Self::block_slots(r)[m]
                    == d as nat by {
                    if m > 0 {
                        lemma_slot_in_word(m as nat, w, W::BITS as nat);
                        assert(m * w - w == (m - 1) * w) by (nonlinear_arith);
                        assert(m * w >= w) by (nonlinear_arith)
                            requires
                                m >= 1,
                                w >= 0,
                        ;
                        assert(Self::block_slots(before)[m - 1] == d as nat);
                    } else {
                        assert(m * w == 0) by (nonlinear_arith)
                            requires
                                m == 0,
                        ;
                    }
                }
            }
        }
        proof {
            assert(Self::block_slots(r) =~= Seq::new(e, |k: int| d as nat));
        }
        r
    }

    /// Adds `count` copies of `value` at the end. The value is encoded once.
    /// Beyond a few words' worth of elements, the last storage word is
    /// filled up first, then whole words that hold the code in every slot
    /// are added, and the rest follows element by element.
    pub fn extend_with_value(&mut self, value: T, count: usize)
        requires
            old(self).wf(),
            old(self)@.len() + count <= usize::MAX,
            old(self).can_grow(count as nat),
        ensures
            final(self).wf(),
            final(self)@ == old(self)@ + Seq::new(count as nat, |i: int| value),
    {
        proof {
            self.lemma_wf();
        }
        let d = value.to_discr();
        let ghost c0 = self.codes();
        if count <= saturating_product(4, self.per_block) {
            // Slow path, the overhead is not worth it
            self.push_raw_n(d, count);
        } else {
            let ghost e = Self::elems_per_block();
            let ghost b0 = self.blocks().len();
            let ghost l0 = self.spec_len() as nat;
            // First fill out the last storage block:
            let to_insert_first = self.per_block - (self.len() % self.per_block);
            proof {
                vstd::arithmetic::div_mod::lemma_div_is_ordered(
                    to_insert_first as int,
                    count as int,
                    e as int,
                );
                S::lemma_holds_fewer(
                    b0 + count as nat / e + 1,
                    b0 + to_insert_first as nat / e + 1,
                );
            }
            self.push_raw_n(d, to_insert_first);
            let count_end = count - to_insert_first;
            proof {
                lemma_place_slot(count_end as nat, e);
            }
            let count_blocks = count_end / self.per_block;
            let to_insert_mid = count_blocks * self.per_block;
            let to_insert_last = count_end - to_insert_mid;
            proof {
                lemma_place_slot(old(self).spec_len() as nat, e);
                let q = old(self).spec_len() as nat / e;
                assert((q + 1) * e == q * e + e) by (nonlinear_arith);
                lemma_slot_place(q + 1, 0, e);
                self.lemma_wf();
            }
            let block_value = self.splat(d);
            // Drop the storage words beyond the elements, so that adding a
            // word adds elements
            self.fix_storage();
            let room = if to_insert_last > 0 {
                count_blocks + 1
            } else {
                count_blocks
            };
            let ghost b1 = self.blocks().len();
            proof {
                let x = b1 + room as nat;
                assert(b1 * e == l0 + to_insert_first);
                if x >= 1 {
                    assert((x - 1) * e == b1 * e + room * e - e) by (nonlinear_arith)
                        requires
                            x == b1 + room,
                    ;
                    assert((count_blocks + 1) * e == count_blocks * e + e) by (nonlinear_arith);
                    lemma_blocks_bound((x - 1) as nat, b0, count as nat, e);
                }
                S::lemma_holds_fewer(b0 + count as nat / e + 1, x);
            }
            self.storage.reserve_blocks(room);
            proof {
                assert(self.codes() =~= c0 + Seq::new(to_insert_first as nat, |i: int| d as nat));
            }
            // Now fill the intermediate blocks with whole words
            let mut k: usize = 0;
            while k < count_blocks
                invariant
                    self.wf(),
                    e == Self::elems_per_block(),
                    e == self.per_block,
                    e >= 1,
                    k <= count_blocks,
                    count_blocks <= room,
                    S::holds(b1 + room as nat),
                    self.blocks().len() == b1 + k,
                    count_blocks * e == to_insert_mid,
                    old(self).spec_len() + to_insert_first + to_insert_mid <= usize::MAX,
                    self.spec_len() == old(self).spec_len() + to_insert_first + k * e,
                    self.spec_len() == self.slot_count(),
                    Self::block_slots(block_value) == Seq::new(e, |m: int| d as nat),
                    d < T::NUM_VARIANTS,
                    self.codes() == c0 + Seq::new(
                        (to_insert_first + k * e) as nat,
                        |i: int| d as nat,
                    ),
                decreases count_blocks - k,
            {
                proof {
                    assert((k + 1) * e == k * e + e) by (nonlinear_arith);
                    assert((k + 1) * e <= count_blocks * e) by (nonlinear_arith)
                        requires
                            k + 1 <= count_blocks,
                            e >= 0,
                    ;
                    assert forall|m: int| 0 <= m < e implies #[trigger] Self::block_slots(
                        block_value,
                    )[m] < T::NUM_VARIANTS by {}
                    assert(self.codes() =~= self.slots());
                    S::lemma_holds_fewer(b1 + room as nat, b1 + k as nat + 1);
                }
                self.push_block_raw(block_value);
                self.num_elements = self.num_elements + self.per_block;
                k += 1;
                proof {
                    assert(self.codes() =~= self.slots());
                    assert(self.codes() =~= c0 + Seq::new(
                        (to_insert_first + k * e) as nat,
                        |i: int| d as nat,
                    ));
                }
            }
            // Finally fill out the remaining elements
            if to_insert_last > 0 {
                proof {
                    vstd::arithmetic::div_mod::lemma_basic_div(to_insert_last as int, e as int);
                }
                self.push_raw_n(d, to_insert_last);
            }
        }
        proof {
            assert(self.codes() =~= c0 + Seq::new(count as nat, |i: int| d as nat));
            assert forall|i: int| 0 <= i < self@.len() implies #[trigger] self@[i] == (old(self)@
                + Seq::new(count as nat, |i: int| value))[i] by {
                self.lemma_wf();
                assert(self@[i] == T::decode(self.codes()[i]));
                if i < old(self).spec_len() {
                    assert(old(self)@[i] == T::decode(c0[i]));
                }
            }
            assert(self@ =~= old(self)@ + Seq::new(count as nat, |i: int| value));
        }
    }

    /// Makes the vector `new_len` elements long: a longer vector is cut, a
    /// shorter one is filled up with copies of `value`.
    pub fn resize(&mut self, new_len: usize, value: T)
        requires
            old(self).wf(),
            new_len > old(self)@.len() ==> old(self).can_grow(
                (new_len - old(self)@.len()) as nat,
            ),
        ensures
            final(self).wf(),
            new_len <= old(self)@.len() ==> final(self)@ == old(self)@.take(new_len as int),
            new_len > old(self)@.len() ==> final(self)@ == old(self)@ + Seq::new(
                (new_len - old(self)@.len()) as nat,
                |i: int| value,
            ),
    {
        let len = self.len();
        if new_len > len {
            self.extend_with_value(value, new_len - len);
        } else {
            self.truncate(new_len);
            proof {
                assert(old(self)@.take(old(self).spec_len() as int) =~= old(self)@);
            }
        }
    }

    /// A vector of `n` copies of `x`.
    pub fn from_elem(x: T, n: usize) -> (r: Self)
        requires
            T::well_formed(),
            domain_fits(T::NUM_VARIANTS as nat, W::BITS as nat),
            S::holds(n as nat / Self::elems_per_block() + 1),
        ensures
            r.wf(),
            r@ == Seq::new(n as nat, |i: int| x),
    {
        let mut v = Self::new();
        proof {
            Self::lemma_layout();
        }
        v.extend_with_value(x, n);
        proof {
            assert(v@ =~= Seq::new(n as nat, |i: int| x));
        }
        v
    }

    /// Copies `self` into a plain `Vec`.
    pub fn to_vec(&self) -> (r: Vec<T>)
        requires
            self.wf(),
        ensures
            r@ == self@,
    {
        let n = self.len();
        let mut v: Vec<T> = Vec::with_capacity(n);
        let mut i: usize = 0;
        while i < n
            invariant
                self.wf(),
                n == self.spec_len(),
                i <= n,
                v@ == self@.take(i as int),
            decreases n - i,
        {
            proof {
                self.lemma_wf();
            }
            let x = T::from_discr(self.get_raw_unchecked(i));
            v.push(x);
            i += 1;
            proof {
                assert(v@ =~= self@.take(i as int));
            }
        }
        proof {
            self.lemma_wf();
            assert(self@.take(n as int) =~= self@);
        }
        v
    }

    /// Adds the elements of `items` at the end, in order.
    pub fn extend(&mut self, items: Vec<T>)
        requires
            old(self).wf(),
            old(self)@.len() + items@.len() < usize::MAX,
            old(self).can_grow(items@.len()),
        ensures
            final(self).wf(),
            final(self)@ == old(self)@ + items@,
    {
        let mut items = items;
        let ghost all = items@;
        let n = items.len();
        self.reserve(n);
        // The codes of the items, last item first
        let mut rev: Vec<usize> = Vec::with_capacity(n);
        while items.len() > 0
            invariant
                T::well_formed(),
                items@.len() + rev@.len() == all.len(),
                items@ == all.take(items@.len() as int),
                forall|k: int|
                    0 <= k < rev@.len() ==> rev@[k] < T::NUM_VARIANTS && T::decode(
                        (#[trigger] rev@[k]) as nat,
                    ) == all[all.len() - 1 - k],
            decreases items@.len(),
        {
            let x = items.pop().unwrap();
            let d = x.to_discr();
            rev.push(d);
            proof {
                assert(items@ =~= all.take(items@.len() as int));
            }
        }
        let ghost c0 = self.codes();
        proof {
            assert(self.codes() =~= c0 + Seq::new(0, |i: int| rev@[all.len() - 1 - i] as nat));
        }
        let ghost codes = rev@;
        while rev.len() > 0
            invariant
                self.wf(),
                codes.len() == all.len(),
                rev@.len() <= codes.len(),
                rev@ == codes.take(rev@.len() as int),
                self.spec_len() + rev@.len() < self.slot_count(),
                self.spec_len() + rev@.len() == old(self).spec_len() + all.len(),
                old(self).spec_len() + all.len() < usize::MAX,
                forall|k: int| 0 <= k < codes.len() ==> #[trigger] codes[k] < T::NUM_VARIANTS,
                self.codes() == c0 + Seq::new(
                    (all.len() - rev@.len()) as nat,
                    |i: int| codes[all.len() - 1 - i] as nat,
                ),
            decreases rev@.len(),
        {
            let ghost before = rev@;
            let d = rev.pop().unwrap();
            proof {
                assert(d == before[before.len() - 1]);
                assert(before[before.len() - 1] == codes[before.len() - 1]);
            }
            self.push_raw(d);
            proof {
                assert(rev@ =~= codes.take(rev@.len() as int));
                assert(self.codes() =~= c0 + Seq::new(
                    (all.len() - rev@.len()) as nat,
                    |i: int| codes[all.len() - 1 - i] as nat,
                ));
            }
        }
        proof {
            self.lemma_wf();
            assert forall|i: int| 0 <= i < self@.len() implies #[trigger] self@[i] == (old(self)@
                + all)[i] by {
                assert(self@[i] == T::decode(self.codes()[i]));
                if i < old(self).spec_len() {
                    assert(old(self)@[i] == T::decode(c0[i]));
                } else {
                    let k = all.len() - 1 - (i - old(self).spec_len());
                    assert(T::decode(codes[k] as nat) == all[all.len() - 1 - k]);
                }
            }
            assert(self@ =~= old(self)@ + all);
        }
    }

    /// Access the internal storage.
    pub fn storage(&self) -> (r: &S)
        ensures
            r.blocks() == self.blocks(),
    {
        &self.storage
    }
}

impl<T: EnumLike + Copy, W: Word, S: BlockStorage<W>> EnumVec<T, W, S> {
    /// A vector that holds the elements of `x`, in order.
    pub fn from_slice(x: &[T]) -> (r: Self)
        requires
            T::well_formed(),
            domain_fits(T::NUM_VARIANTS as nat, W::BITS as nat),
            x@.len() < usize::MAX,
            S::holds(x@.len() / Self::elems_per_block() + 1),
        ensures
            r.wf(),
            r@ == x@,
    {
        let mut v = Self::new();
        let n = x.len();
        proof {
            Self::lemma_layout();
        }
        v.reserve(n);
        let mut i: usize = 0;
        while i < n
            invariant
                v.wf(),
                n == x@.len(),
                n < usize::MAX,
                i <= n,
                n < v.slot_count(),
                v.spec_len() == i,
                v@ == x@.take(i as int),
            decreases n - i,
        {
            proof {
                v.lemma_wf();
            }
            v.push(x[i]);
            i += 1;
            proof {
                assert(v@ =~= x@.take(i as int));
            }
        }
        proof {
            assert(x@.take(n as int) =~= x@);
        }
        v
    }
}

/// The elements of `s` that are kept, in order, where `keep` says of each
/// element whether it is.
pub open spec fn retained<T>(s: Seq<T>, keep: Seq<bool>) -> Seq<T>
    decreases s.len(),
{
    if s.len() == 0 || keep.len() != s.len() {
        Seq::empty()
    } else if keep.last() {
        retained(s.drop_last(), keep.drop_last()).push(s.last())
    } else {
        retained(s.drop_last(), keep.drop_last())
    }
}

impl<T: EnumLike, W: Word, S: BlockStorage<W>> EnumVec<T, W, S> {
    /// Appends all the elements from `other` into `self`, leaving `other`
    /// empty. Where the length of `self` is a multiple of the elements of a
    /// word, the storage words of `other` are added as they are; otherwise
    /// the elements are copied one by one, as codes.
    pub fn append(&mut self, other: &mut Self)
        requires
            old(self).wf(),
            old(other).wf(),
            old(self)@.len() + old(other)@.len() < usize::MAX,
            old(self).can_grow(old(other)@.len()),
        ensures
            final(self).wf(),
            final(other).wf(),
            final(self)@ == old(self)@ + old(other)@,
            final(other)@ == Seq::<T>::empty(),
    {
        let ghost e = Self::elems_per_block();
        proof {
            self.lemma_wf();
            other.lemma_wf();
        }
        let other_len = other.len();
        let ghost c0 = self.codes();
        let ghost oc = other.codes();
        if self.len() % self.per_block == 0 {
            // If the last block is full, we can just append the raw
            // representation. But first, we must fix the storage because its
            // len may be bigger than necessary
            self.fix_storage();
            other.fix_storage();
            proof {
                self.lemma_wf();
                other.lemma_wf();
                lemma_place_slot(self.spec_len() as nat, e);
                assert(self.codes() =~= self.slots());
            }
            let blocks = other.storage.block_count();
            let ghost b1 = self.blocks().len();
            proof {
                let x = b1 + blocks as nat;
                lemma_blocks_for_elements(old(self).spec_len() as nat, e);
                lemma_blocks_for_elements(other_len as nat, e);
                if blocks > 0 {
                    assert((x - 1) * e == b1 * e + (blocks - 1) * e) by (nonlinear_arith)
                        requires
                            x == b1 + blocks,
                    ;
                    old(self).lemma_can_grow(other_len as nat, x);
                }
            }
            let mut k: usize = 0;
            while k < blocks
                invariant
                    self.wf(),
                    other.wf(),
                    e == Self::elems_per_block(),
                    e >= 1,
                    blocks == other.blocks().len(),
                    k <= blocks,
                    blocks > 0 ==> S::holds(b1 + blocks as nat),
                    self.blocks().len() == b1 + k,
                    self.spec_len() == old(self).spec_len(),
                    self.slot_count() == self.spec_len() + k * e,
                    self.slots() == c0 + other.slots().take(k * e),
                decreases blocks - k,
            {
                let w = other.storage.block(k);
                proof {
                    other.lemma_wf();
                    assert((k + 1) * e == k * e + e) by (nonlinear_arith);
                    assert((k + 1) * e <= blocks * e) by (nonlinear_arith)
                        requires
                            k + 1 <= blocks,
                            e >= 0,
                    ;
                    assert forall|m: int| 0 <= m < e implies #[trigger] Self::block_slots(w)[m]
                        == other.slots()[k * e + m] by {
                        lemma_slot_place(k as nat, m as nat, e);
                    }
                    S::lemma_holds_fewer(b1 + blocks as nat, b1 + k as nat + 1);
                }
                self.push_block_raw(w);
                k += 1;
                proof {
                    assert(self.slots() =~= c0 + other.slots().take(k * e));
                }
            }
            self.num_elements = self.num_elements + other_len;
            proof {
                assert(other.slots().take(blocks * e) =~= other.slots());
                assert(self.codes() =~= c0 + oc);
            }
            other.clear();
        } else {
            // Otherwise, just push every element
            self.reserve(other_len);
            let mut i: usize = 0;
            proof {
                assert(self.codes() =~= c0 + oc.take(0));
            }
            while i < other_len
                invariant
                    self.wf(),
                    other.wf(),
                    other_len == other.spec_len(),
                    oc == other.codes(),
                    i <= other_len,
                    old(self).spec_len() + other_len < self.slot_count(),
                    self.spec_len() == old(self).spec_len() + i,
                    old(self).spec_len() + other_len < usize::MAX,
                    self.codes() == c0 + oc.take(i as int),
                decreases other_len - i,
            {
                proof {
                    other.lemma_wf();
                }
                let d = other.get_raw_unchecked(i);
                self.push_raw(d);
                i += 1;
                proof {
                    assert(self.codes() =~= c0 + oc.take(i as int));
                }
            }
            proof {
                assert(oc.take(other_len as int) =~= oc);
            }
            other.clear();
        }
        proof {
            self.lemma_wf();
            assert forall|i: int| 0 <= i < self@.len() implies #[trigger] self@[i] == (old(self)@
                + old(other)@)[i] by {
                assert(self@[i] == T::decode(self.codes()[i]));
                if i < old(self).spec_len() {
                    assert(old(self)@[i] == T::decode(c0[i]));
                } else {
                    assert(old(other)@[i - old(self).spec_len()] == T::decode(
                        oc[i - old(self).spec_len()],
                    ));
                }
            }
            assert(self@ =~= old(self)@ + old(other)@);
        }
    }

    /// Splits the vector in two at the position `at`: `self` keeps the
    /// elements before it, and the elements from it on are returned.
    pub fn split_off(&mut self, at: usize) -> (other: Self)
        requires
            old(self).wf(),
            at <= old(self)@.len(),
        ensures
            final(self).wf(),
            other.wf(),
            final(self)@ == old(self)@.take(at as int),
            other@ == old(self)@.skip(at as int),
            final(self).blocks() == old(self).blocks(),
    {
        proof {
            self.lemma_wf();
        }
        let other_len = self.len() - at;
        let ghost e = Self::elems_per_block();
        let ghost n = self.blocks().len();
        proof {
            lemma_blocks_for_elements(other_len as nat, e);
            let need = spec_blocks_for_elements(other_len as nat, e);
            if need > n {
                assert(n * e <= (need - 1) * e) by (nonlinear_arith)
                    requires
                        n <= need - 1,
                        e >= 1,
                ;
            }
            S::lemma_holds_fewer(n, need);
        }
        let mut other = Self::with_capacity(other_len);
        let mut i: usize = 0;
        proof {
            assert(other.codes() =~= self.codes().subrange(at as int, at as int));
        }
        while i < other_len
            invariant
                self.wf(),
                other.wf(),
                e == Self::elems_per_block(),
                e >= 1,
                n == self.blocks().len(),
                other_len <= n * e,
                other_len == self.spec_len() - at,
                i <= other_len,
                other.spec_len() == i,
                other.codes() == self.codes().subrange(at as int, at + i),
            decreases other_len - i,
        {
            proof {
                self.lemma_wf();
            }
            let d = self.get_raw_unchecked(at + i);
            proof {
                if other.spec_len() == other.slot_count() {
                    let ob = other.blocks().len();
                    if ob + 1 > n {
                        assert(n * e <= ob * e) by (nonlinear_arith)
                            requires
                                n <= ob,
                                e >= 1,
                        ;
                    }
                    S::lemma_holds_fewer(n, ob + 1);
                }
            }
            other.push_raw(d);
            i += 1;
            proof {
                assert(other.codes() =~= self.codes().subrange(at as int, at + i));
            }
        }
        proof {
            other.lemma_wf();
            assert forall|j: int| 0 <= j < other@.len() implies #[trigger] other@[j] == self@.skip(
                at as int,
            )[j] by {
                assert(other@[j] == T::decode(other.codes()[j]));
                assert(self@[at + j] == T::decode(self.codes()[at + j]));
            }
            assert(other@ =~= self@.skip(at as int));
        }
        self.set_len(at);
        other
    }

    /// Retains only the elements that `f` accepts, in their order.
    pub fn retain<F: Fn(&T) -> bool>(&mut self, f: F)
        requires
            old(self).wf(),
            forall|x: T| call_requires(f, (&x,)),
        ensures
            final(self).wf(),
            final(self).blocks().len() == old(self).blocks().len(),
            exists|keep: Seq<bool>|
                {
                    &&& keep.len() == old(self)@.len()
                    &&& forall|i: int|
                        0 <= i < keep.len() ==> call_ensures(
                            f,
                            (&old(self)@[i],),
                            #[trigger] keep[i],
                        )
                    &&& final(self)@ == retained(old(self)@, keep)
                },
    {
        let mut i_get: usize = 0;
        let mut i_set: usize = 0;
        let ghost a = self@;
        let ghost keep = Seq::<bool>::empty();
        let l = self.len();
        proof {
            self.lemma_wf();
            assert(self@.take(0) =~= retained(a.take(0), keep));
        }
        while i_get < l
            invariant
                self.wf(),
                self.spec_len() == l,
                self.blocks().len() == old(self).blocks().len(),
                a.len() == l,
                forall|x: T| call_requires(f, (&x,)),
                i_set <= i_get <= l,
                keep.len() == i_get,
                forall|i: int| 0 <= i < keep.len() ==>
                    call_ensures(f, (&a[i],), #[trigger] keep[i]),
                self@.take(i_set as int) == retained(a.take(i_get as int), keep),
                forall|j: int| i_get <= j < l ==> #[trigger] self@[j] == a[j],
            decreases l - i_get,
        {
            proof {
                self.lemma_wf();
            }
            let ghost before = self@;
            let x = T::from_discr(self.get_raw_unchecked(i_get));
            let kept = f(&x);
            proof {
                assert(self@[i_get as int] == a[i_get as int]);
                assert(x == a[i_get as int]);
                assert(a.take(i_get + 1).drop_last() =~= a.take(i_get as int));
                assert(keep.push(kept).drop_last() =~= keep);
            }
            if kept {
                self.set(i_set, x);
                proof {
                    assert(self@.take(i_set + 1) =~= before.take(i_set as int).push(x));
                }
                i_set += 1;
            }
            i_get += 1;
            proof {
                keep = keep.push(kept);
            }
        }
        proof {
            self.lemma_wf();
            assert(a.take(l as int) =~= a);
        }
        self.set_len(i_set);
    }

    /// Apply a function to each element in place: every element is
    /// replaced by what `f` makes of it.
    pub fn for_each<F: Fn(T) -> T>(&mut self, f: F)
        requires
            old(self).wf(),
            forall|x: T| call_requires(f, (x,)),
        ensures
            final(self).wf(),
            final(self)@.len() == old(self)@.len(),
            final(self).blocks().len() == old(self).blocks().len(),
            forall|i: int|
                0 <= i < old(self)@.len() ==> call_ensures(
                    f,
                    (old(self)@[i],),
                    #[trigger] final(self)@[i],
                ),
    {
        let l = self.len();
        let mut i: usize = 0;
        proof {
            self.lemma_wf();
        }
        while i < l
            invariant
                self.wf(),
                self.spec_len() == l,
                old(self).spec_len() == l,
                self.blocks().len() == old(self).blocks().len(),
                forall|x: T| call_requires(f, (x,)),
                i <= l,
                forall|j: int|
                    0 <= j < i ==> call_ensures(f, (old(self)@[j],), #[trigger] self@[j]),
                forall|j: int| i <= j < l ==> #[trigger] self@[j] == old(self)@[j],
            decreases l - i,
        {
            proof {
                self.lemma_wf();
            }
            let ghost before = self@;
            let x = T::from_discr(self.get_raw_unchecked(i));
            proof {
                assert(self@[i as int] == old(self)@[i as int]);
            }
            let y = f(x);
            self.set(i, y);
            i += 1;
            proof {
                assert forall|j: int| 0 <= j < i implies call_ensures(
                    f,
                    (old(self)@[j],),
                    #[trigger] self@[j],
                ) by {
                    if j < i - 1 {
                        assert(self@[j] == before[j]);
                    }
                }
                assert forall|j: int| i <= j < l implies #[trigger] self@[j] == old(self)@[j] by {
                    assert(self@[j] == before[j]);
                }
            }
        }
        proof {
            self.lemma_wf();
            old(self).lemma_wf();
        }
    }
}

/// The number of words that `n` elements take, `per_block` elements to a
/// word: `n / per_block`, rounded up.
pub open spec fn spec_blocks_for_elements(n: nat, per_block: nat) -> nat {
    if n % per_block == 0 {
        n / per_block
    } else {
        n / per_block + 1
    }
}

impl<T: EnumLike, W: Word, S: BlockStorage<W>> EnumVec<T, W, S> {
    /// The code in slot `i`, read with what the vector itself says of its
    /// layout; nothing where the layout does not reach the slot.
    spec fn raw_at(&self, i: int) -> Option<u64> {
        let k = i % (self.per_block as int);
        if self.per_block >= 1 && 1 <= self.bits <= 64 && 0 <= i && i / (self.per_block as int)
            < self.blocks().len() && k * self.bits + self.bits <= W::BITS {
            Some(
                self.blocks()[i / (self.per_block as int)].field(
                    (k * self.bits) as nat,
                    self.bits as nat,
                ) as u64,
            )
        } else {
            None
        }
    }

    /// Reads the code in slot `i`, whatever state the vector is in.
    fn read_raw(&self, i: usize) -> (r: Option<u64>)
        ensures
            r == self.raw_at(i as int),
    {
        if self.per_block == 0 || self.bits == 0 || self.bits > 64 {
            return None;
        }
        let b = i / self.per_block;
        let k = i % self.per_block;
        if b >= self.storage.block_count() {
            return None;
        }
        match k.checked_mul(self.bits) {
            Some(off) => {
                if off <= W::BITS && self.bits <= W::BITS - off {
                    Some(self.storage.block(b).get_field(off, self.bits))
                } else {
                    None
                }
            },
            None => None,
        }
    }

    /// The two vectors have the same length and, place by place, the same
    /// codes. Storage words beyond the elements do not count.
    pub closed spec fn equal_codes(&self, other: &Self) -> bool {
        &&& self.num_elements == other.num_elements
        &&& forall|i: int|
            0 <= i < self.num_elements ==> #[trigger] self.raw_at(i) == other.raw_at(i)
    }

    /// For vectors that are in order, to have equal codes is to have the
    /// same sequence of codes, and then the elements are the same too.
    pub proof fn lemma_equal_codes(&self, other: &Self)
        requires
            self.wf(),
            other.wf(),
        ensures
            self.equal_codes(other) <==> self.codes() == other.codes(),
            self.equal_codes(other) ==> self@ == other@,
    {
        self.lemma_wf();
        other.lemma_wf();
        Self::lemma_layout();
        let e = Self::elems_per_block();
        let w = Self::bits_per_elem();
        assert forall|i: int| 0 <= i < self.slot_count() implies #[trigger] self.raw_at(i) == Some(
            self.slots()[i] as u64,
        ) by {
            lemma_place_slot(i as nat, e);
            lemma_place_in_blocks(i as nat, e, self.blocks().len());
            lemma_slot_in_word(i as nat % e, w, W::BITS as nat);
        }
        assert forall|i: int| 0 <= i < other.slot_count() implies #[trigger] other.raw_at(i)
            == Some(other.slots()[i] as u64) by {
            lemma_place_slot(i as nat, e);
            lemma_place_in_blocks(i as nat, e, other.blocks().len());
            lemma_slot_in_word(i as nat % e, w, W::BITS as nat);
        }
        if self.equal_codes(other) {
            assert forall|i: int| 0 <= i < self.codes().len() implies self.codes()[i]
                == other.codes()[i] by {
                assert(self.raw_at(i) == other.raw_at(i));
                assert(self.slots()[i] < T::NUM_VARIANTS);
                assert(other.slots()[i] < T::NUM_VARIANTS);
            }
            assert(self.codes() =~= other.codes());
            assert forall|j: int| 0 <= j < self@.len() implies #[trigger] self@[j] == other@[j] by {
                assert(self.codes()[j] == other.codes()[j]);
            }
            assert(self@ =~= other@);
        }
        if self.codes() == other.codes() {
            assert(self.codes().len() == other.codes().len());
            assert forall|i: int| 0 <= i < self.num_elements implies #[trigger] self.raw_at(i)
                == other.raw_at(i) by {
                assert(self.codes()[i] == other.codes()[i]);
            }
        }
    }

    /// Whether the two vectors have equal codes.
    pub fn same_codes(&self, other: &Self) -> (r: bool)
        ensures
            r == self.equal_codes(other),
    {
        if self.num_elements != other.num_elements {
            return false;
        }
        let l = self.num_elements;
        let mut i: usize = 0;
        while i < l
            invariant
                l == self.num_elements,
                l == other.num_elements,
                i <= l,
                forall|j: int| 0 <= j < i ==> #[trigger] self.raw_at(j) == other.raw_at(j),
            decreases l - i,
        {
            if self.read_raw(i) != other.read_raw(i) {
                return false;
            }
            i += 1;
        }
        true
    }

    /// A vector that holds the elements of `v`, in order.
    pub fn from_vec(v: Vec<T>) -> (r: Self)
        requires
            T::well_formed(),
            domain_fits(T::NUM_VARIANTS as nat, W::BITS as nat),
            v@.len() < usize::MAX,
            S::holds(v@.len() / Self::elems_per_block() + 1),
        ensures
            r.wf(),
            r@ == v@,
    {
        let mut r = Self::new();
        proof {
            Self::lemma_layout();
        }
        r.extend(v);
        proof {
            assert(r@ =~= v@);
        }
        r
    }

    /// The elements, in order, as a plain `Vec`.
    pub fn into_vec(self) -> (r: Vec<T>)
        requires
            self.wf(),
        ensures
            r@ == self@,
    {
        self.to_vec()
    }
}

impl<T: EnumLike, W: Word, S: BlockStorage<W>> Clone for EnumVec<T, W, S> {
    /// A copy of the vector, storage words and all.
    fn clone(&self) -> (r: Self)
        ensures
            r.blocks() == self.blocks(),
            r@ == self@,
            self.wf() ==> r.wf(),
    {
        let r = Self {
            storage: self.storage.duplicate(),
            num_elements: self.num_elements,
            bits: self.bits,
            per_block: self.per_block,
            _elem: PhantomData,
            _word: PhantomData,
        };
        proof {
            assert(r.slots() =~= self.slots());
            assert(r@ =~= self@);
        }
        r
    }
}

impl<T: EnumLike, W: Word, S: BlockStorage<W>> Default for EnumVec<T, W, S> {
    /// An empty vector. It is in order where the element type can be packed
    /// into the storage word.
    fn default() -> (r: Self)
        ensures
            r@.len() == 0,
            r.blocks().len() == 0,
            T::well_formed() && domain_fits(T::NUM_VARIANTS as nat, W::BITS as nat) ==> r.wf() && r@
                == Seq::<T>::empty(),
    {
        let (bits, per_block) = Self::layout();
        let r = Self {
            storage: S::empty(),
            num_elements: 0,
            bits,
            per_block,
            _elem: PhantomData,
            _word: PhantomData,
        };
        proof {
            assert(r.slot_count() == 0) by (nonlinear_arith)
                requires
                    r.slot_count() == 0 * Self::elems_per_block(),
            ;
            assert(r@ =~= Seq::<T>::empty());
            S::lemma_holds_fewer(0, 0);
        }
        r
    }
}

/// The words that `n` elements take have a slot for each of them, and the
/// last of the words is not empty.
pub proof fn lemma_blocks_for_elements(n: nat, per_block: nat)
    requires
        per_block >= 1,
    ensures
        n <= spec_blocks_for_elements(n, per_block) * per_block,
        spec_blocks_for_elements(n, per_block) > 0 ==> (spec_blocks_for_elements(n, per_block)
            - 1) * per_block < n,
{
    lemma_place_slot(n, per_block);
    let q = n / per_block;
    assert((q + 1) * per_block == q * per_block + per_block) by (nonlinear_arith);
    assert((q - 1) * per_block == q * per_block - per_block) by (nonlinear_arith);
}

/// The number of words that `n` elements take.
pub fn blocks_for_elements(n: usize, per_block: usize) -> (r: usize)
    requires
        per_block >= 1,
    ensures
        r as nat == spec_blocks_for_elements(n as nat, per_block as nat),
        n <= r * per_block,
        r > 0 ==> (r - 1) * per_block < n,
{
    proof {
        lemma_place_slot(n as nat, per_block as nat);
        let q = n as nat / per_block as nat;
        assert((q + 1) * per_block == q * per_block + per_block) by (nonlinear_arith);
        assert((q - 1) * per_block == q * per_block - per_block) by (nonlinear_arith);
        if per_block > 1 {
            assert(2 * q <= n) by (nonlinear_arith)
                requires
                    q * per_block <= n,
                    per_block >= 2,
                    q >= 0,
            ;
        }
    }
    if n % per_block == 0 {
        n / per_block
    } else {
        n / per_block + 1
    }
}

/// `a * b`, or `usize::MAX` where the product is more.
pub fn saturating_product(a: usize, b: usize) -> (r: usize)
    ensures
        a * b <= usize::MAX ==> r == a * b,
        a * b > usize::MAX ==> r == usize::MAX,
{
    if b == 0 {
        assert(a * b == 0) by (nonlinear_arith)
            requires
                b == 0,
        ;
        0
    } else if a > usize::MAX / b {
        proof {
            vstd::arithmetic::div_mod::lemma_fundamental_div_mod(usize::MAX as int, b as int);
            assert(a * b > usize::MAX) by (nonlinear_arith)
                requires
                    a >= usize::MAX / b + 1,
                    usize::MAX == b * (usize::MAX / b) + usize::MAX % b,
                    0 <= usize::MAX % b < b,
                    b > 0,
            ;
        }
        usize::MAX
    } else {
        proof {
            vstd::arithmetic::div_mod::lemma_fundamental_div_mod(usize::MAX as int, b as int);
            assert(a * b <= usize::MAX) by (nonlinear_arith)
                requires
                    a <= usize::MAX / b,
                    usize::MAX == b * (usize::MAX / b) + usize::MAX % b,
                    0 <= usize::MAX % b < b,
                    b > 0,
            ;
        }
        a * b
    }
}

} // verus!
