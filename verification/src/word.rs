//! Storage words: fixed-width unsigned integers that are read and written as
//! rows of bit fields.

use vstd::prelude::*;
use vstd::arithmetic::power2::pow2;

verus! {

/// An unsigned integer of `BITS` bits that holds several bit fields.
///
/// A field is named by the position `off` of its lowest bit and by its width
/// `w`; `field` is the number that the bits `off .. off + w` spell. The
/// operations below read one field, overwrite one field, and shift the whole
/// row of `w`-bit fields by one place in either direction. Each says what
/// happens to every field that lies inside the word.
pub trait Word: Copy {
    /// The number that the `w` bits from bit `off` upward spell.
    spec fn field(self, off: nat, w: nat) -> nat;

    /// The number of bits in the word.
    const BITS: usize;

    /// The word in which every bit is clear.
    fn zero() -> (r: Self)
        ensures
            forall|off: nat, w: nat| #[trigger] r.field(off, w) == 0,
    ;

    /// Reads the `w`-bit field at bit `off`.
    fn get_field(self, off: usize, w: usize) -> (r: u64)
        requires
            1 <= w <= 64,
            off + w <= Self::BITS,
        ensures
            r as nat == self.field(off as nat, w as nat),
            (r as nat) < pow2(w as nat),
    ;

    /// Overwrites the `w`-bit field at bit `off` with `d`. Every field of the
    /// same width that does not overlap it keeps its value.
    fn set_field(self, off: usize, w: usize, d: u64) -> (r: Self)
        requires
            1 <= w <= 64,
            off + w <= Self::BITS,
            (d as nat) < pow2(w as nat),
        ensures
            r.field(off as nat, w as nat) == d as nat,
            forall|o: nat|
                o + w <= Self::BITS && (o + w <= off || off + w <= o) ==> #[trigger] r.field(
                    o,
                    w as nat,
                ) == self.field(o, w as nat),
    ;

    /// Moves every `w`-bit field one place up, that is `w` bits toward the
    /// high end, and puts `d` into the lowest place. The bits that leave the
    /// word at the high end are lost.
    fn shift_up(self, w: usize, d: u64) -> (r: Self)
        requires
            1 <= w <= 64,
            w <= Self::BITS,
            (d as nat) < pow2(w as nat),
        ensures
            r.field(0, w as nat) == d as nat,
            forall|o: nat|
                w <= o && o + w <= Self::BITS ==> #[trigger] r.field(o, w as nat) == self.field(
                    (o - w) as nat,
                    w as nat,
                ),
    ;

    /// Moves every `w`-bit field one place down, that is `w` bits toward the
    /// low end, and puts `d` into the field at bit `top`. The lowest field
    /// is lost.
    fn shift_down(self, w: usize, top: usize, d: u64) -> (r: Self)
        requires
            1 <= w <= 64,
            top + w <= Self::BITS,
            (d as nat) < pow2(w as nat),
        ensures
            r.field(top as nat, w as nat) == d as nat,
            forall|o: nat|
                o + w <= top ==> #[trigger] r.field(o, w as nat) == self.field(
                    o + w as nat,
                    w as nat,
                ),
    ;
}

} // verus!
