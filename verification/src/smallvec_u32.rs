//! `SmallEnumVec`: an `EnumVec` whose 32-bit storage words live in a
//! `SmallVec`, which keeps up to four of them inline.

use vstd::prelude::*;
use smallvec::SmallVec;
use crate::storage::BlockStorage;

verus! {

/// A `SmallVec` that keeps up to four 32-bit words inline.
///
/// The `SmallVec` is opaque here: what it holds is `small_words`, and every
/// access goes through one of the functions below, each of which stands for
/// one function of `SmallVec`. Those that change the `SmallVec` are taken
/// not to unwind on the inputs they admit: beyond these inputs `SmallVec`
/// panics, and where memory runs out it aborts.
#[verifier::external_body]
#[derive(Debug)]
pub struct SmallWords {
    inner: SmallVec<[u32; 4]>,
}

/// The words that the `SmallVec` holds, in order.
pub uninterp spec fn small_words(v: SmallWords) -> Seq<u32>;

/// The longest sequence of words that a `SmallVec` is asked to hold here.
/// A `SmallVec` grows to the next power of two, and an allocation has at most
/// `isize::MAX` bytes, so up to this length no size computation fails.
pub open spec fn small_limit() -> nat {
    isize::MAX as nat / 8
}

/// `SmallVec::new`: the new vector is empty.
#[verifier::external_body]
fn small_new() -> (v: SmallWords)
    ensures
        small_words(v) == Seq::<u32>::empty(),
{
    SmallWords { inner: SmallVec::new() }
}

/// `SmallVec::with_capacity`: the new vector is empty. It computes the size
/// of `n` words in bytes, which must not exceed `isize::MAX`.
#[verifier::external_body]
fn small_with_capacity(n: usize) -> (v: SmallWords)
    requires
        n <= small_limit(),
    ensures
        small_words(v) == Seq::<u32>::empty(),
{
    SmallWords { inner: SmallVec::with_capacity(n) }
}

/// `SmallVec::len`: the number of words held.
#[verifier::external_body]
fn small_len(v: &SmallWords) -> (r: usize)
    ensures
        r == small_words(*v).len(),
{
    v.inner.len()
}

/// `SmallVec::capacity`: never below the length.
#[verifier::external_body]
fn small_capacity(v: &SmallWords) -> (r: usize)
    ensures
        r >= small_words(*v).len(),
{
    v.inner.capacity()
}

/// Indexing a `SmallVec`: the word at position `i`, which must exist.
#[verifier::external_body]
fn small_get(v: &SmallWords, i: usize) -> (r: u32)
    requires
        i < small_words(*v).len(),
    ensures
        r == small_words(*v)[i as int],
{
    v.inner[i]
}

/// Assigning through an index of a `SmallVec`: the word at position `i`,
/// which must exist, is replaced and the others stay.
#[verifier::external_body]
fn small_set(v: &mut SmallWords, i: usize, w: u32)
    requires
        i < small_words(*old(v)).len(),
    ensures
        small_words(*final(v)) == small_words(*old(v)).update(i as int, w),
    no_unwind
{
    v.inner[i] = w;
}

/// `SmallVec::push`: the word is added at the end. A full vector grows to
/// the next power of two, whose size in bytes must not exceed `isize::MAX`.
#[verifier::external_body]
fn small_push(v: &mut SmallWords, w: u32)
    requires
        small_words(*old(v)).len() + 1 <= small_limit(),
    ensures
        small_words(*final(v)) == small_words(*old(v)).push(w),
    no_unwind
{
    v.inner.push(w)
}

/// `SmallVec::truncate`: the first `n` words are kept; a vector that is not
/// longer stays as it is.
#[verifier::external_body]
fn small_truncate(v: &mut SmallWords, n: usize)
    ensures
        n <= small_words(*old(v)).len() ==>
            small_words(*final(v)) == small_words(*old(v)).take(n as int),
        n > small_words(*old(v)).len() ==> small_words(*final(v)) == small_words(*old(v)),
    no_unwind
{
    v.inner.truncate(n)
}

/// `SmallVec::reserve`: the words stay as they are. The vector may grow to
/// the next power of two above the length asked for, whose size in bytes
/// must not exceed `isize::MAX`.
#[verifier::external_body]
fn small_reserve(v: &mut SmallWords, additional: usize)
    requires
        small_words(*old(v)).len() + additional <= small_limit(),
    ensures
        small_words(*final(v)) == small_words(*old(v)),
    no_unwind
{
    v.inner.reserve(additional)
}

/// `SmallVec::shrink_to_fit`: the words stay as they are.
#[verifier::external_body]
fn small_shrink_to_fit(v: &mut SmallWords)
    ensures
        small_words(*final(v)) == small_words(*old(v)),
    no_unwind
{
    v.inner.shrink_to_fit()
}

/// Storage words in a `SmallVec` that keeps up to four of them inline.
#[derive(Debug)]
pub struct SmallBlocks {
    words: SmallWords,
}

impl SmallBlocks {
    /// The words are never more than a `SmallVec` is asked to hold here.
    #[verifier::type_invariant]
    spec fn within_limit(&self) -> bool {
        small_words(self.words).len() <= small_limit()
    }

    /// The number of words held.
    pub fn len(&self) -> (r: usize)
        ensures
            r == self.blocks().len(),
    {
        small_len(&self.words)
    }
}

impl BlockStorage<u32> for SmallBlocks {
    closed spec fn blocks(&self) -> Seq<u32> {
        small_words(self.words)
    }

    open spec fn holds(n: nat) -> bool {
        n <= small_limit()
    }

    proof fn lemma_holds_fewer(n: nat, m: nat) {
    }

    fn empty() -> (r: Self) {
        SmallBlocks { words: small_new() }
    }

    fn empty_with_room(n: usize) -> (r: Self) {
        SmallBlocks { words: small_with_capacity(n) }
    }

    fn block_count(&self) -> (r: usize) {
        proof {
            use_type_invariant(self);
        }
        small_len(&self.words)
    }

    fn room(&self) -> (r: usize) {
        small_capacity(&self.words)
    }

    fn block(&self, i: usize) -> (r: u32) {
        small_get(&self.words, i)
    }

    fn set_block(&mut self, i: usize, w: u32) {
        proof {
            use_type_invariant(&*self);
        }
        small_set(&mut self.words, i, w);
    }

    fn push_block(&mut self, w: u32) {
        small_push(&mut self.words, w);
    }

    fn truncate_blocks(&mut self, n: usize) {
        proof {
            use_type_invariant(&*self);
        }
        small_truncate(&mut self.words, n);
    }

    fn reserve_blocks(&mut self, additional: usize) {
        proof {
            use_type_invariant(&*self);
        }
        small_reserve(&mut self.words, additional);
    }

    fn shrink_blocks(&mut self) {
        proof {
            use_type_invariant(&*self);
        }
        small_shrink_to_fit(&mut self.words);
    }

    fn duplicate(&self) -> (r: Self) {
        proof {
            use_type_invariant(self);
        }
        let n = small_len(&self.words);
        let mut words = small_with_capacity(n);
        let mut i: usize = 0;
        while i < n
            invariant
                n == small_words(self.words).len(),
                n <= small_limit(),
                i <= n,
                small_words(words) == small_words(self.words).take(i as int),
            decreases n - i,
        {
            let w = small_get(&self.words, i);
            small_push(&mut words, w);
            i += 1;
            proof {
                assert(small_words(words) =~= small_words(self.words).take(i as int));
            }
        }
        proof {
            assert(small_words(self.words).take(n as int) =~= small_words(self.words));
        }
        SmallBlocks { words }
    }
}

/// A vector which efficiently stores enum variants in 32-bit words, the
/// first four of which need no allocation.
pub type EnumVec<T> = crate::engine::EnumVec<T, u32, SmallBlocks>;

/// Alias for `EnumVec<bool>`.
pub type BitVec = EnumVec<bool>;

} // verus!
