//! Storage words of 32 bits.

use vstd::prelude::*;
use vstd::arithmetic::power2::pow2;
use crate::word::Word;

verus! {

/// The all-ones word, shifted down until `w` ones are left, is `2^w - 1`.
proof fn lemma_u32_mask(w: u32)
    requires
        1 <= w <= 32,
    ensures
        (u32::MAX >> ((32 - w) as u32)) as nat + 1 == pow2(w as nat),
    decreases w,
{
    vstd::arithmetic::power2::lemma2_to64();
    if w == 1 {
        assert(u32::MAX >> 31u32 == 1) by (bit_vector);
    } else {
        lemma_u32_mask((w - 1) as u32);
        let hi = u32::MAX >> ((32 - w) as u32);
        let lo = u32::MAX >> ((33 - w) as u32);
        assert(hi == 2 * lo + 1) by (bit_vector)
            requires
                2 <= w <= 32,
                hi == u32::MAX >> ((32 - w) as u32),
                lo == u32::MAX >> ((33 - w) as u32),
        ;
        vstd::arithmetic::power2::lemma_pow2_unfold(w as nat);
    }
}

/// A field that spans the whole word is the word.
proof fn lemma_u32_whole(x: u32)
    ensures
        (x >> 0u32) & (u32::MAX >> 0u32) == x,
{
    assert((x >> 0u32) & (u32::MAX >> 0u32) == x) by (bit_vector);
}

/// Overwriting one field of a word: the field holds the new value.
proof fn lemma_u32_set_same(x: u32, o: u32, w: u32, d: u32)
    requires
        1 <= w <= 32,
        o <= 32 - w,
        d <= u32::MAX >> ((32 - w) as u32),
    ensures
        ({
            let m = u32::MAX >> ((32 - w) as u32);
            let r = (x & !(m << o)) | (d << o);
            (r >> o) & m == d
        }),
{
    let m = u32::MAX >> ((32 - w) as u32);
    let r = (x & !(m << o)) | (d << o);
    assert((r >> o) & m == d) by (bit_vector)
        requires
            1 <= w <= 32,
            o <= 32 - w,
            d <= m,
            m == u32::MAX >> ((32 - w) as u32),
            r == (x & !(m << o)) | (d << o),
    ;
}

/// Overwriting one field of a word: a field beside it holds what it held.
proof fn lemma_u32_set_other(x: u32, o: u32, o2: u32, w: u32, d: u32)
    requires
        1 <= w <= 32,
        o <= 32 - w,
        o2 <= 32 - w,
        o2 + w <= o || o + w <= o2,
        d <= u32::MAX >> ((32 - w) as u32),
    ensures
        ({
            let m = u32::MAX >> ((32 - w) as u32);
            let r = (x & !(m << o)) | (d << o);
            (r >> o2) & m == (x >> o2) & m
        }),
{
    let m = u32::MAX >> ((32 - w) as u32);
    let r = (x & !(m << o)) | (d << o);
    assert((r >> o2) & m == (x >> o2) & m) by (bit_vector)
        requires
            1 <= w <= 32,
            o <= 32 - w,
            o2 <= 32 - w,
            o2 + w <= o || o + w <= o2,
            d <= m,
            m == u32::MAX >> ((32 - w) as u32),
            r == (x & !(m << o)) | (d << o),
    ;
}

/// A word shifted up by one field, with a value put into the lowest field,
/// is the shifted word with its lowest field overwritten.
proof fn lemma_u32_shift_up_sets(x: u32, w: u32, d: u32)
    requires
        1 <= w < 32,
    ensures
        ({
            let m = u32::MAX >> ((32 - w) as u32);
            (x << w) | d == ((x << w) & !(m << 0u32)) | (d << 0u32)
        }),
{
    let m = u32::MAX >> ((32 - w) as u32);
    assert((x << w) | d == ((x << w) & !(m << 0u32)) | (d << 0u32)) by (bit_vector)
        requires
            1 <= w < 32,
            m == u32::MAX >> ((32 - w) as u32),
    ;
}

/// In a word shifted up by one field, a field holds what the field below
/// it held.
proof fn lemma_u32_shifted_up(x: u32, o: u32, w: u32)
    requires
        1 <= w < 32,
        w <= o,
        o <= 32 - w,
    ensures
        ({
            let m = u32::MAX >> ((32 - w) as u32);
            ((x << w) >> o) & m == (x >> ((o - w) as u32)) & m
        }),
{
    let m = u32::MAX >> ((32 - w) as u32);
    let p = (o - w) as u32;
    assert(((x << w) >> o) & m == (x >> p) & m) by (bit_vector)
        requires
            1 <= w < 32,
            w <= o,
            o <= 32 - w,
            p == o - w,
            m == u32::MAX >> ((32 - w) as u32),
    ;
}

/// In a word shifted down by one field, a field holds what the field above
/// it held.
proof fn lemma_u32_shifted_down(x: u32, o: u32, w: u32)
    requires
        1 <= w < 32,
        o + w <= 32 - w,
    ensures
        ({
            let m = u32::MAX >> ((32 - w) as u32);
            ((x >> w) >> o) & m == (x >> ((o + w) as u32)) & m
        }),
{
    let m = u32::MAX >> ((32 - w) as u32);
    let p = (o + w) as u32;
    assert(((x >> w) >> o) & m == (x >> p) & m) by (bit_vector)
        requires
            1 <= w < 32,
            o + w <= 32 - w,
            p == o + w,
            m == u32::MAX >> ((32 - w) as u32),
    ;
}

/// A `u32` has 32 bits.
pub proof fn lemma_u32_bits()
    ensures
        <u32 as Word>::BITS == 32,
{
}

impl Word for u32 {
    open spec fn field(self, off: nat, w: nat) -> nat {
        ((self >> (off as u32)) & (u32::MAX >> ((32 - w) as u32))) as nat
    }

    const BITS: usize = 32;

    fn zero() -> (r: Self) {
        assert forall|off: nat, w: nat| #[trigger] 0u32.field(off, w) == 0 by {
            let o = off as u32;
            let m = u32::MAX >> ((32 - w) as u32);
            assert((0u32 >> o) & m == 0) by (bit_vector);
        }
        0
    }

    fn get_field(self, off: usize, w: usize) -> (r: u64) {
        let o = off as u32;
        let m = u32::MAX >> ((32 - w) as u32);
        let v = (self >> o) & m;
        proof {
            lemma_u32_mask(w as u32);
            assert(v <= m) by (bit_vector)
                requires
                    v == (self >> o) & m,
            ;
        }
        v as u64
    }

    fn set_field(self, off: usize, w: usize, d: u64) -> (r: Self) {
        let o = off as u32;
        let m = u32::MAX >> ((32 - w) as u32);
        proof {
            lemma_u32_mask(w as u32);
        }
        let v = d as u32;
        let r = (self & !(m << o)) | (v << o);
        proof {
            lemma_u32_set_same(self, o, w as u32, v);
            assert forall|o2: nat|
                o2 + w <= 32 && (o2 + w <= off || off + w <= o2) implies #[trigger] r.field(
                o2,
                w as nat,
            ) == self.field(o2, w as nat) by {
                lemma_u32_set_other(self, o, o2 as u32, w as u32, v);
            }
        }
        r
    }

    fn shift_up(self, w: usize, d: u64) -> (r: Self) {
        proof {
            lemma_u32_mask(w as u32);
        }
        let v = d as u32;
        if w == 32 {
            proof {
                lemma_u32_whole(v);
            }
            v
        } else {
            let s = w as u32;
            let r = (self << s) | v;
            proof {
                let up = self << s;
                lemma_u32_shift_up_sets(self, s, v);
                lemma_u32_set_same(up, 0, s, v);
                assert forall|o: nat| w <= o && o + w <= 32 implies #[trigger] r.field(
                    o,
                    w as nat,
                ) == self.field((o - w) as nat, w as nat) by {
                    lemma_u32_set_other(up, 0, o as u32, s, v);
                    lemma_u32_shifted_up(self, o as u32, s);
                }
            }
            r
        }
    }

    fn shift_down(self, w: usize, top: usize, d: u64) -> (r: Self) {
        proof {
            lemma_u32_mask(w as u32);
        }
        let v = d as u32;
        if w == 32 {
            proof {
                lemma_u32_whole(v);
            }
            v
        } else {
            let s = w as u32;
            let t = top as u32;
            let m = u32::MAX >> ((32 - w) as u32);
            let r = ((self >> s) & !(m << t)) | (v << t);
            proof {
                let down = self >> s;
                lemma_u32_set_same(down, t, s, v);
                assert forall|o: nat| o + w <= top implies #[trigger] r.field(o, w as nat)
                    == self.field(o + w as nat, w as nat) by {
                    lemma_u32_set_other(down, t, o as u32, s, v);
                    lemma_u32_shifted_down(self, o as u32, s);
                }
            }
            r
        }
    }
}

} // verus!
