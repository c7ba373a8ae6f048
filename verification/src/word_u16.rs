//! Storage words of 16 bits.

use vstd::prelude::*;
use vstd::arithmetic::power2::pow2;
use crate::word::Word;

verus! {

/// The all-ones word, shifted down until `w` ones are left, is `2^w - 1`.
proof fn lemma_u16_mask(w: u16)
    requires
        1 <= w <= 16,
    ensures
        (u16::MAX >> ((16 - w) as u16)) as nat + 1 == pow2(w as nat),
    decreases w,
{
    vstd::arithmetic::power2::lemma2_to64();
    if w == 1 {
        assert(u16::MAX >> 15u16 == 1) by (bit_vector);
    } else {
        lemma_u16_mask((w - 1) as u16);
        let hi = u16::MAX >> ((16 - w) as u16);
        let lo = u16::MAX >> ((17 - w) as u16);
        assert(hi == 2 * lo + 1) by (bit_vector)
            requires
                2 <= w <= 16,
                hi == u16::MAX >> ((16 - w) as u16),
                lo == u16::MAX >> ((17 - w) as u16),
        ;
        vstd::arithmetic::power2::lemma_pow2_unfold(w as nat);
    }
}

/// A field that spans the whole word is the word.
proof fn lemma_u16_whole(x: u16)
    ensures
        (x >> 0u16) & (u16::MAX >> 0u16) == x,
{
    assert((x >> 0u16) & (u16::MAX >> 0u16) == x) by (bit_vector);
}

/// Overwriting one field of a word: the field holds the new value.
proof fn lemma_u16_set_same(x: u16, o: u16, w: u16, d: u16)
    requires
        1 <= w <= 16,
        o <= 16 - w,
        d <= u16::MAX >> ((16 - w) as u16),
    ensures
        ({
            let m = u16::MAX >> ((16 - w) as u16);
            let r = (x & !(m << o)) | (d << o);
            (r >> o) & m == d
        }),
{
    let m = u16::MAX >> ((16 - w) as u16);
    let r = (x & !(m << o)) | (d << o);
    assert((r >> o) & m == d) by (bit_vector)
        requires
            1 <= w <= 16,
            o <= 16 - w,
            d <= m,
            m == u16::MAX >> ((16 - w) as u16),
            r == (x & !(m << o)) | (d << o),
    ;
}

/// Overwriting one field of a word: a field beside it holds what it held.
proof fn lemma_u16_set_other(x: u16, o: u16, o2: u16, w: u16, d: u16)
    requires
        1 <= w <= 16,
        o <= 16 - w,
        o2 <= 16 - w,
        o2 + w <= o || o + w <= o2,
        d <= u16::MAX >> ((16 - w) as u16),
    ensures
        ({
            let m = u16::MAX >> ((16 - w) as u16);
            let r = (x & !(m << o)) | (d << o);
            (r >> o2) & m == (x >> o2) & m
        }),
{
    let m = u16::MAX >> ((16 - w) as u16);
    let r = (x & !(m << o)) | (d << o);
    assert((r >> o2) & m == (x >> o2) & m) by (bit_vector)
        requires
            1 <= w <= 16,
            o <= 16 - w,
            o2 <= 16 - w,
            o2 + w <= o || o + w <= o2,
            d <= m,
            m == u16::MAX >> ((16 - w) as u16),
            r == (x & !(m << o)) | (d << o),
    ;
}

/// A word shifted up by one field, with a value put into the lowest field,
/// is the shifted word with its lowest field overwritten.
proof fn lemma_u16_shift_up_sets(x: u16, w: u16, d: u16)
    requires
        1 <= w < 16,
    ensures
        ({
            let m = u16::MAX >> ((16 - w) as u16);
            (x << w) | d == ((x << w) & !(m << 0u16)) | (d << 0u16)
        }),
{
    let m = u16::MAX >> ((16 - w) as u16);
    assert((x << w) | d == ((x << w) & !(m << 0u16)) | (d << 0u16)) by (bit_vector)
        requires
            1 <= w < 16,
            m == u16::MAX >> ((16 - w) as u16),
    ;
}

/// In a word shifted up by one field, a field holds what the field below
/// it held.
proof fn lemma_u16_shifted_up(x: u16, o: u16, w: u16)
    requires
        1 <= w < 16,
        w <= o,
        o <= 16 - w,
    ensures
        ({
            let m = u16::MAX >> ((16 - w) as u16);
            ((x << w) >> o) & m == (x >> ((o - w) as u16)) & m
        }),
{
    let m = u16::MAX >> ((16 - w) as u16);
    let p = (o - w) as u16;
    assert(((x << w) >> o) & m == (x >> p) & m) by (bit_vector)
        requires
            1 <= w < 16,
            w <= o,
            o <= 16 - w,
            p == o - w,
            m == u16::MAX >> ((16 - w) as u16),
    ;
}

/// In a word shifted down by one field, a field holds what the field above
/// it held.
proof fn lemma_u16_shifted_down(x: u16, o: u16, w: u16)
    requires
        1 <= w < 16,
        o + w <= 16 - w,
    ensures
        ({
            let m = u16::MAX >> ((16 - w) as u16);
            ((x >> w) >> o) & m == (x >> ((o + w) as u16)) & m
        }),
{
    let m = u16::MAX >> ((16 - w) as u16);
    let p = (o + w) as u16;
    assert(((x >> w) >> o) & m == (x >> p) & m) by (bit_vector)
        requires
            1 <= w < 16,
            o + w <= 16 - w,
            p == o + w,
            m == u16::MAX >> ((16 - w) as u16),
    ;
}

/// A `u16` has 16 bits.
pub proof fn lemma_u16_bits()
    ensures
        <u16 as Word>::BITS == 16,
{
}

impl Word for u16 {
    open spec fn field(self, off: nat, w: nat) -> nat {
        ((self >> (off as u16)) & (u16::MAX >> ((16 - w) as u16))) as nat
    }

    const BITS: usize = 16;

    fn zero() -> (r: Self) {
        assert forall|off: nat, w: nat| #[trigger] 0u16.field(off, w) == 0 by {
            let o = off as u16;
            let m = u16::MAX >> ((16 - w) as u16);
            assert((0u16 >> o) & m == 0) by (bit_vector);
        }
        0
    }

    fn get_field(self, off: usize, w: usize) -> (r: u64) {
        let o = off as u16;
        let m = u16::MAX >> ((16 - w) as u16);
        let v = (self >> o) & m;
        proof {
            lemma_u16_mask(w as u16);
            assert(v <= m) by (bit_vector)
                requires
                    v == (self >> o) & m,
            ;
        }
        v as u64
    }

    fn set_field(self, off: usize, w: usize, d: u64) -> (r: Self) {
        let o = off as u16;
        let m = u16::MAX >> ((16 - w) as u16);
        proof {
            lemma_u16_mask(w as u16);
        }
        let v = d as u16;
        let r = (self & !(m << o)) | (v << o);
        proof {
            lemma_u16_set_same(self, o, w as u16, v);
            assert forall|o2: nat|
                o2 + w <= 16 && (o2 + w <= off || off + w <= o2) implies #[trigger] r.field(
                o2,
                w as nat,
            ) == self.field(o2, w as nat) by {
                lemma_u16_set_other(self, o, o2 as u16, w as u16, v);
            }
        }
        r
    }

    fn shift_up(self, w: usize, d: u64) -> (r: Self) {
        proof {
            lemma_u16_mask(w as u16);
        }
        let v = d as u16;
        if w == 16 {
            proof {
                lemma_u16_whole(v);
            }
            v
        } else {
            let s = w as u16;
            let r = (self << s) | v;
            proof {
                let up = self << s;
                lemma_u16_shift_up_sets(self, s, v);
                lemma_u16_set_same(up, 0, s, v);
                assert forall|o: nat| w <= o && o + w <= 16 implies #[trigger] r.field(
                    o,
                    w as nat,
                ) == self.field((o - w) as nat, w as nat) by {
                    lemma_u16_set_other(up, 0, o as u16, s, v);
                    lemma_u16_shifted_up(self, o as u16, s);
                }
            }
            r
        }
    }

    fn shift_down(self, w: usize, top: usize, d: u64) -> (r: Self) {
        proof {
            lemma_u16_mask(w as u16);
        }
        let v = d as u16;
        if w == 16 {
            proof {
                lemma_u16_whole(v);
            }
            v
        } else {
            let s = w as u16;
            let t = top as u16;
            let m = u16::MAX >> ((16 - w) as u16);
            let r = ((self >> s) & !(m << t)) | (v << t);
            proof {
                let down = self >> s;
                lemma_u16_set_same(down, t, s, v);
                assert forall|o: nat| o + w <= top implies #[trigger] r.field(o, w as nat)
                    == self.field(o + w as nat, w as nat) by {
                    lemma_u16_set_other(down, t, o as u16, s, v);
                    lemma_u16_shifted_down(self, o as u16, s);
                }
            }
            r
        }
    }
}

} // verus!
