//! What holds of every packed vector, stated over the sequences that the
//! contracts of its operations speak of.

use vstd::prelude::*;

verus! {

/// One operation on a sequence.
pub enum Op<T> {
    /// Add an element at the end.
    Push(T),
    /// Take the last element off, if there is one.
    Pop,
    /// Put an element at a position, moving the elements from there on up.
    Insert(int, T),
    /// Take the element at a position out, moving the elements after it
    /// down.
    Remove(int),
}

/// The operation can be done on `s`.
pub open spec fn allowed<T>(s: Seq<T>, op: Op<T>) -> bool {
    match op {
        Op::Push(_) => true,
        Op::Pop => true,
        Op::Insert(i, _) => 0 <= i <= s.len(),
        Op::Remove(i) => 0 <= i < s.len(),
    }
}

/// The sequence after the operation, as `push`, `pop`, `insert` and
/// `remove` of the packed vector leave it.
pub open spec fn apply<T>(s: Seq<T>, op: Op<T>) -> Seq<T> {
    match op {
        Op::Push(x) => s.push(x),
        Op::Pop => if s.len() == 0 {
            s
        } else {
            s.drop_last()
        },
        Op::Insert(i, x) => s.insert(i, x),
        Op::Remove(i) => s.remove(i),
    }
}

/// By how much the operation changes the length: a push or an insert adds
/// one, a remove or a pop that finds an element takes one away.
pub open spec fn growth<T>(s: Seq<T>, op: Op<T>) -> int {
    match op {
        Op::Push(_) => 1,
        Op::Pop => if s.len() == 0 {
            0
        } else {
            -1
        },
        Op::Insert(_, _) => 1,
        Op::Remove(_) => -1,
    }
}

/// Every operation of `ops` can be done, one after the other, from `s` on.
pub open spec fn all_allowed<T>(s: Seq<T>, ops: Seq<Op<T>>) -> bool
    decreases ops.len(),
{
    ops.len() == 0 || (allowed(s, ops[0]) && all_allowed(apply(s, ops[0]), ops.skip(1)))
}

/// The sequence after all operations of `ops`.
pub open spec fn apply_all<T>(s: Seq<T>, ops: Seq<Op<T>>) -> Seq<T>
    decreases ops.len(),
{
    if ops.len() == 0 {
        s
    } else {
        apply_all(apply(s, ops[0]), ops.skip(1))
    }
}

/// The sum of the changes in length over all operations of `ops`.
pub open spec fn net_growth<T>(s: Seq<T>, ops: Seq<Op<T>>) -> int
    decreases ops.len(),
{
    if ops.len() == 0 {
        0
    } else {
        growth(s, ops[0]) + net_growth(apply(s, ops[0]), ops.skip(1))
    }
}

/// After any sequence of pushes, pops, inserts and removes, the length is
/// the length before, plus the pushes and inserts, minus the removes and the
/// pops that found an element.
pub proof fn lemma_length_after_ops<T>(s: Seq<T>, ops: Seq<Op<T>>)
    requires
        all_allowed(s, ops),
    ensures
        apply_all(s, ops).len() == s.len() + net_growth(s, ops),
    decreases ops.len(),
{
    if ops.len() > 0 {
        lemma_length_after_ops(apply(s, ops[0]), ops.skip(1));
    }
}

/// Inserting an element and removing it again at the same position restores
/// the sequence, and the element that is removed is the one that was
/// inserted.
pub proof fn lemma_insert_then_remove<T>(s: Seq<T>, i: int, x: T)
    requires
        0 <= i <= s.len(),
    ensures
        s.insert(i, x)[i] == x,
        s.insert(i, x).remove(i) == s,
{
    assert(s.insert(i, x).remove(i) =~= s);
}

} // verus!
