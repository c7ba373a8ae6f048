//! The growable sequence of storage words behind a packed vector.

use vstd::prelude::*;
use crate::word::Word;

verus! {

/// An owned, growable sequence of storage words.
///
/// `blocks` is the sequence that is held. How much room is set aside beyond
/// it is left to the implementation. `holds` says how long a sequence the
/// implementation can be asked to hold: growing beyond that is not on offer.
pub trait BlockStorage<W: Word>: Sized {
    /// The words that are held, in order.
    spec fn blocks(&self) -> Seq<W>;

    /// A sequence of `n` words is within what the implementation can be
    /// asked to hold.
    spec fn holds(n: nat) -> bool;

    /// What can hold a sequence can hold a shorter one, and the empty one in
    /// any case.
    proof fn lemma_holds_fewer(n: nat, m: nat)
        requires
            m <= n,
            Self::holds(n) || m == 0,
        ensures
            Self::holds(m),
    ;

    /// An empty sequence.
    fn empty() -> (r: Self)
        ensures
            r.blocks() == Seq::<W>::empty(),
    ;

    /// An empty sequence with room for `n` words.
    fn empty_with_room(n: usize) -> (r: Self)
        requires
            Self::holds(n as nat),
        ensures
            r.blocks() == Seq::<W>::empty(),
    ;

    /// The number of words held, which is within what can be held.
    fn block_count(&self) -> (r: usize)
        ensures
            r == self.blocks().len(),
            Self::holds(r as nat),
    ;

    /// The number of words that can be held without asking for memory.
    fn room(&self) -> (r: usize)
        ensures
            r >= self.blocks().len(),
    ;

    /// The word at position `i`.
    fn block(&self, i: usize) -> (r: W)
        requires
            i < self.blocks().len(),
        ensures
            r == self.blocks()[i as int],
    ;

    /// Replaces the word at position `i`.
    fn set_block(&mut self, i: usize, w: W)
        requires
            i < old(self).blocks().len(),
        ensures
            final(self).blocks() == old(self).blocks().update(i as int, w),
    ;

    /// Adds a word at the end.
    fn push_block(&mut self, w: W)
        requires
            Self::holds(old(self).blocks().len() + 1),
        ensures
            final(self).blocks() == old(self).blocks().push(w),
    ;

    /// Drops every word from position `n` on.
    fn truncate_blocks(&mut self, n: usize)
        ensures
            n <= old(self).blocks().len() ==> final(self).blocks() == old(self).blocks().take(
                n as int,
            ),
            n > old(self).blocks().len() ==> final(self).blocks() == old(self).blocks(),
    ;

    /// Sets room aside for `additional` more words.
    fn reserve_blocks(&mut self, additional: usize)
        requires
            Self::holds(old(self).blocks().len() + additional as nat),
        ensures
            final(self).blocks() == old(self).blocks(),
    ;

    /// Gives back the room that is not in use.
    fn shrink_blocks(&mut self)
        ensures
            final(self).blocks() == old(self).blocks(),
    ;

    /// A copy of the sequence.
    fn duplicate(&self) -> (r: Self)
        ensures
            r.blocks() == self.blocks(),
    ;
}

/// `Vec::capacity`: the capacity is never below the length.
#[verifier::external_body]
fn vec_capacity<W>(v: &Vec<W>) -> (r: usize)
    ensures
        r >= v@.len(),
{
    v.capacity()
}

/// `Vec::shrink_to_fit`: the elements stay as they are.
#[verifier::external_body]
fn vec_shrink_to_fit<W>(v: &mut Vec<W>)
    ensures
        final(v)@ == old(v)@,
{
    v.shrink_to_fit()
}

impl<W: Word> BlockStorage<W> for Vec<W> {
    open spec fn blocks(&self) -> Seq<W> {
        self@
    }

    open spec fn holds(n: nat) -> bool {
        true
    }

    proof fn lemma_holds_fewer(n: nat, m: nat) {
    }

    fn empty() -> (r: Self) {
        Vec::new()
    }

    fn empty_with_room(n: usize) -> (r: Self) {
        Vec::with_capacity(n)
    }

    fn block_count(&self) -> (r: usize) {
        self.len()
    }

    fn room(&self) -> (r: usize) {
        vec_capacity(self)
    }

    fn block(&self, i: usize) -> (r: W) {
        self[i]
    }

    fn set_block(&mut self, i: usize, w: W) {
        self[i] = w;
    }

    fn push_block(&mut self, w: W) {
        self.push(w);
    }

    fn truncate_blocks(&mut self, n: usize) {
        self.truncate(n);
    }

    fn reserve_blocks(&mut self, additional: usize) {
        self.reserve(additional);
    }

    fn shrink_blocks(&mut self) {
        vec_shrink_to_fit(self);
    }

    fn duplicate(&self) -> (r: Self) {
        let n = self.len();
        let mut r: Vec<W> = Vec::with_capacity(n);
        let mut i: usize = 0;
        while i < n
            invariant
                n == self@.len(),
                i <= n,
                r@ == self@.take(i as int),
            decreases n - i,
        {
            r.push(self[i]);
            i += 1;
            proof {
                assert(r@ =~= self@.take(i as int));
            }
        }
        proof {
            assert(self@.take(n as int) =~= self@);
        }
        r
    }
}

} // verus!
