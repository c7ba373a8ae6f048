//! Cursors over a packed vector, from either end.

use vstd::prelude::*;
use crate::engine::EnumVec;
use crate::enum_like::EnumLike;
use crate::storage::BlockStorage;
use crate::word::Word;

verus! {

/// Cursor over the elements of a borrowed `EnumVec`.
pub struct EnumVecIter<'a, T: EnumLike, W: Word, S: BlockStorage<W>> {
    v: &'a EnumVec<T, W, S>,
    start: usize,
    end: usize,
}

/// Cursor over the elements of an `EnumVec` that it owns.
pub struct EnumVecIntoIter<T: EnumLike, W: Word, S: BlockStorage<W>> {
    v: EnumVec<T, W, S>,
    start: usize,
    end: usize,
}

impl<T: EnumLike, W: Word, S: BlockStorage<W>> EnumVec<T, W, S> {
    /// A cursor over the elements, placed before the first.
    pub fn iter<'a>(&'a self) -> (r: EnumVecIter<'a, T, W, S>)
        requires
            self.wf(),
        ensures
            r.wf(),
            r@ == self@,
    {
        let l = self.len();
        let r = EnumVecIter { v: self, start: 0, end: l };
        proof {
            self.lemma_wf();
            assert(r@ =~= self@);
        }
        r
    }

    /// A cursor that takes the vector over, placed before the first
    /// element.
    pub fn into_iter(self) -> (r: EnumVecIntoIter<T, W, S>)
        requires
            self.wf(),
        ensures
            r.wf(),
            r@ == self@,
    {
        let l = self.len();
        proof {
            self.lemma_wf();
        }
        let ghost elems = self@;
        let r = EnumVecIntoIter { v: self, start: 0, end: l };
        proof {
            assert(r@ =~= elems);
        }
        r
    }
}

impl<'a, T: EnumLike, W: Word, S: BlockStorage<W>> EnumVecIter<'a, T, W, S> {
    /// The cursor stands inside a vector that is in order.
    pub closed spec fn wf(&self) -> bool {
        self.v.wf() && self.start <= self.end <= self.v.spec_len()
    }

    /// The elements that are still to come, in order.
    pub closed spec fn view(&self) -> Seq<T> {
        self.v@.subrange(self.start as int, self.end as int)
    }

    /// Hands out the next element from the front, if one is left.
    pub fn next(&mut self) -> (r: Option<T>)
        requires
            old(self).wf(),
        ensures
            final(self).wf(),
            old(self)@.len() == 0 ==> r.is_none() && final(self)@ == old(self)@,
            old(self)@.len() > 0 ==> r == Some(old(self)@[0]) && final(self)@ == old(self)@.skip(1),
    {
        proof {
            self.v.lemma_wf();
        }
        if self.start < self.end {
            let x = self.v.get(self.start);
            self.start += 1;
            proof {
                assert(self@ =~= old(self)@.skip(1));
            }
            x
        } else {
            None
        }
    }

    /// Hands out the next element from the back, if one is left.
    pub fn next_back(&mut self) -> (r: Option<T>)
        requires
            old(self).wf(),
        ensures
            final(self).wf(),
            old(self)@.len() == 0 ==> r.is_none() && final(self)@ == old(self)@,
            old(self)@.len() > 0 ==>
                r == Some(old(self)@.last()) && final(self)@ == old(self)@.drop_last(),
    {
        proof {
            self.v.lemma_wf();
        }
        if self.start < self.end {
            self.end -= 1;
            let x = self.v.get(self.end);
            proof {
                assert(self@ =~= old(self)@.drop_last());
            }
            x
        } else {
            None
        }
    }

    /// Skips `n` elements and hands out the one after them. Where fewer
    /// than `n + 1` elements are left, none is handed out and none is left.
    pub fn nth(&mut self, n: usize) -> (r: Option<T>)
        requires
            old(self).wf(),
        ensures
            final(self).wf(),
            n < old(self)@.len() ==>
                r == Some(old(self)@[n as int]) && final(self)@ == old(self)@.skip(n + 1),
            n >= old(self)@.len() ==> r.is_none() && final(self)@.len() == 0,
    {
        proof {
            self.v.lemma_wf();
        }
        if n < self.end - self.start {
            self.start += n;
            let x = self.v.get(self.start);
            self.start += 1;
            proof {
                assert(self@ =~= old(self)@.skip(n + 1));
            }
            x
        } else {
            self.start = self.end;
            None
        }
    }

    /// The number of elements left, as a lower and an upper bound.
    pub fn size_hint(&self) -> (r: (usize, Option<usize>))
        requires
            self.wf(),
        ensures
            r.0 as nat == self@.len(),
            r.1 == Some(r.0),
    {
        proof {
            self.v.lemma_wf();
        }
        let n = self.end - self.start;
        (n, Some(n))
    }

    /// The number of elements left.
    pub fn count(self) -> (r: usize)
        requires
            self.wf(),
        ensures
            r as nat == self@.len(),
    {
        self.size_hint().0
    }

    /// The last of the elements left, if there is one.
    pub fn last(self) -> (r: Option<T>)
        requires
            self.wf(),
        ensures
            self@.len() == 0 ==> r.is_none(),
            self@.len() > 0 ==> r == Some(self@.last()),
    {
        proof {
            self.v.lemma_wf();
        }
        if self.start < self.end {
            self.v.get(self.end - 1)
        } else {
            None
        }
    }
}

impl<T: EnumLike, W: Word, S: BlockStorage<W>> EnumVecIntoIter<T, W, S> {
    /// The cursor stands inside a vector that is in order.
    pub closed spec fn wf(&self) -> bool {
        self.v.wf() && self.start <= self.end <= self.v.spec_len()
    }

    /// The elements that are still to come, in order.
    pub closed spec fn view(&self) -> Seq<T> {
        self.v@.subrange(self.start as int, self.end as int)
    }

    /// Hands out the next element from the front, if one is left.
    pub fn next(&mut self) -> (r: Option<T>)
        requires
            old(self).wf(),
        ensures
            final(self).wf(),
            old(self)@.len() == 0 ==> r.is_none() && final(self)@ == old(self)@,
            old(self)@.len() > 0 ==> r == Some(old(self)@[0]) && final(self)@ == old(self)@.skip(1),
    {
        proof {
            self.v.lemma_wf();
        }
        if self.start < self.end {
            let x = self.v.get(self.start);
            self.start += 1;
            proof {
                assert(self@ =~= old(self)@.skip(1));
            }
            x
        } else {
            None
        }
    }

    /// Hands out the next element from the back, if one is left.
    pub fn next_back(&mut self) -> (r: Option<T>)
        requires
            old(self).wf(),
        ensures
            final(self).wf(),
            old(self)@.len() == 0 ==> r.is_none() && final(self)@ == old(self)@,
            old(self)@.len() > 0 ==>
                r == Some(old(self)@.last()) && final(self)@ == old(self)@.drop_last(),
    {
        proof {
            self.v.lemma_wf();
        }
        if self.start < self.end {
            self.end -= 1;
            let x = self.v.get(self.end);
            proof {
                assert(self@ =~= old(self)@.drop_last());
            }
            x
        } else {
            None
        }
    }

    /// Skips `n` elements and hands out the one after them. Where fewer
    /// than `n + 1` elements are left, none is handed out and none is left.
    pub fn nth(&mut self, n: usize) -> (r: Option<T>)
        requires
            old(self).wf(),
        ensures
            final(self).wf(),
            n < old(self)@.len() ==>
                r == Some(old(self)@[n as int]) && final(self)@ == old(self)@.skip(n + 1),
            n >= old(self)@.len() ==> r.is_none() && final(self)@.len() == 0,
    {
        proof {
            self.v.lemma_wf();
        }
        if n < self.end - self.start {
            self.start += n;
            let x = self.v.get(self.start);
            self.start += 1;
            proof {
                assert(self@ =~= old(self)@.skip(n + 1));
            }
            x
        } else {
            self.start = self.end;
            None
        }
    }

    /// The number of elements left, as a lower and an upper bound.
    pub fn size_hint(&self) -> (r: (usize, Option<usize>))
        requires
            self.wf(),
        ensures
            r.0 as nat == self@.len(),
            r.1 == Some(r.0),
    {
        proof {
            self.v.lemma_wf();
        }
        let n = self.end - self.start;
        (n, Some(n))
    }

    /// The number of elements left.
    pub fn count(self) -> (r: usize)
        requires
            self.wf(),
        ensures
            r as nat == self@.len(),
    {
        self.size_hint().0
    }

    /// The last of the elements left, if there is one.
    pub fn last(self) -> (r: Option<T>)
        requires
            self.wf(),
        ensures
            self@.len() == 0 ==> r.is_none(),
            self@.len() > 0 ==> r == Some(self@.last()),
    {
        proof {
            self.v.lemma_wf();
        }
        if self.start < self.end {
            self.v.get(self.end - 1)
        } else {
            None
        }
    }
}

} // verus!
