//! Storage words of 8 bits.

use vstd::prelude::*;
use vstd::arithmetic::power2::pow2;
use crate::word::Word;

verus! {

/// The all-ones word, shifted down until `w` ones are left, is `2^w - 1`.
proof fn lemma_u8_mask(w: u8)
    requires
        1 <= w <= 8,
    ensures
        (u8::MAX >> ((8 - w) as u8)) as nat + 1 == pow2(w as nat),
    decreases w,
{
    vstd::arithmetic::power2::lemma2_to64();
    if w == 1 {
        assert(u8::MAX >> 7u8 == 1) by (bit_vector);
    } else {
        lemma_u8_mask((w - 1) as u8);
        let hi = u8::MAX >> ((8 - w) as u8);
        let lo = u8::MAX >> ((9 - w) as u8);
        assert(hi == 2 * lo + 1) by (bit_vector)
            requires
                2 <= w <= 8,
                hi == u8::MAX >> ((8 - w) as u8),
                lo == u8::MAX >> ((9 - w) as u8),
        ;
        vstd::arithmetic::power2::lemma_pow2_unfold(w as nat);
    }
}

/// A field that spans the whole word is the word.
proof fn lemma_u8_whole(x: u8)
    ensures
        (x >> 0u8) & (u8::MAX >> 0u8) == x,
{
    assert((x >> 0u8) & (u8::MAX >> 0u8) == x) by (bit_vector);
}

/// Overwriting one field of a word: the field holds the new value.
proof fn lemma_u8_set_same(x: u8, o: u8, w: u8, d: u8)
    requires
        1 <= w <= 8,
        o <= 8 - w,
        d <= u8::MAX >> ((8 - w) as u8),
    ensures
        ({
            let m = u8::MAX >> ((8 - w) as u8);
            let r = (x & !(m << o)) | (d << o);
            (r >> o) & m == d
        }),
{
    let m = u8::MAX >> ((8 - w) as u8);
    let r = (x & !(m << o)) | (d << o);
    assert((r >> o) & m == d) by (bit_vector)
        requires
            1 <= w <= 8,
            o <= 8 - w,
            d <= m,
            m == u8::MAX >> ((8 - w) as u8),
            r == (x & !(m << o)) | (d << o),
    ;
}

/// Overwriting one field of a word: a field beside it holds what it held.
proof fn lemma_u8_set_other(x: u8, o: u8, o2: u8, w: u8, d: u8)
    requires
        1 <= w <= 8,
        o <= 8 - w,
        o2 <= 8 - w,
        o2 + w <= o || o + w <= o2,
        d <= u8::MAX >> ((8 - w) as u8),
    ensures
        ({
            let m = u8::MAX >> ((8 - w) as u8);
            let r = (x & !(m << o)) | (d << o);
            (r >> o2) & m == (x >> o2) & m
        }),
{
    let m = u8::MAX >> ((8 - w) as u8);
    let r = (x & !(m << o)) | (d << o);
    assert((r >> o2) & m == (x >> o2) & m) by (bit_vector)
        requires
            1 <= w <= 8,
            o <= 8 - w,
            o2 <= 8 - w,
            o2 + w <= o || o + w <= o2,
            d <= m,
            m == u8::MAX >> ((8 - w) as u8),
            r == (x & !(m << o)) | (d << o),
    ;
}

/// A word shifted up by one field, with a value put into the lowest field,
/// is the shifted word with its lowest field overwritten.
proof fn lemma_u8_shift_up_sets(x: u8, w: u8, d: u8)
    requires
        1 <= w < 8,
    ensures
        ({
            let m = u8::MAX >> ((8 - w) as u8);
            (x << w) | d == ((x << w) & !(m << 0u8)) | (d << 0u8)
        }),
{
    let m = u8::MAX >> ((8 - w) as u8);
    assert((x << w) | d == ((x << w) & !(m << 0u8)) | (d << 0u8)) by (bit_vector)
        requires
            1 <= w < 8,
            m == u8::MAX >> ((8 - w) as u8),
    ;
}

/// In a word shifted up by one field, a field holds what the field below
/// it held.
proof fn lemma_u8_shifted_up(x: u8, o: u8, w: u8)
    requires
        1 <= w < 8,
        w <= o,
        o <= 8 - w,
    ensures
        ({
            let m = u8::MAX >> ((8 - w) as u8);
            ((x << w) >> o) & m == (x >> ((o - w) as u8)) & m
        }),
{
    let m = u8::MAX >> ((8 - w) as u8);
    let p = (o - w) as u8;
    assert(((x << w) >> o) & m == (x >> p) & m) by (bit_vector)
        requires
            1 <= w < 8,
            w <= o,
            o <= 8 - w,
            p == o - w,
            m == u8::MAX >> ((8 - w) as u8),
    ;
}

/// In a word shifted down by one field, a field holds what the field above
/// it held.
proof fn lemma_u8_shifted_down(x: u8, o: u8, w: u8)
    requires
        1 <= w < 8,
        o + w <= 8 - w,
    ensures
        ({
            let m = u8::MAX >> ((8 - w) as u8);
            ((x >> w) >> o) & m == (x >> ((o + w) as u8)) & m
        }),
{
    let m = u8::MAX >> ((8 - w) as u8);
    let p = (o + w) as u8;
    assert(((x >> w) >> o) & m == (x >> p) & m) by (bit_vector)
        requires
            1 <= w < 8,
            o + w <= 8 - w,
            p == o + w,
            m == u8::MAX >> ((8 - w) as u8),
    ;
}

/// A `u8` has 8 bits.
pub proof fn lemma_u8_bits()
    ensures
        <u8 as Word>::BITS == 8,
{
}

impl Word for u8 {
    open spec fn field(self, off: nat, w: nat) -> nat {
        ((self >> (off as u8)) & (u8::MAX >> ((8 - w) as u8))) as nat
    }

    const BITS: usize = 8;

    fn zero() -> (r: Self) {
        assert forall|off: nat, w: nat| #[trigger] 0u8.field(off, w) == 0 by {
            let o = off as u8;
            let m = u8::MAX >> ((8 - w) as u8);
            assert((0u8 >> o) & m == 0) by (bit_vector);
        }
        0
    }

    fn get_field(self, off: usize, w: usize) -> (r: u64) {
        let o = off as u8;
        let m = u8::MAX >> ((8 - w) as u8);
        let v = (self >> o) & m;
        proof {
            lemma_u8_mask(w as u8);
            assert(v <= m) by (bit_vector)
                requires
                    v == (self >> o) & m,
            ;
        }
        v as u64
    }

    fn set_field(self, off: usize, w: usize, d: u64) -> (r: Self) {
        let o = off as u8;
        let m = u8::MAX >> ((8 - w) as u8);
        proof {
            lemma_u8_mask(w as u8);
        }
        let v = d as u8;
        let r = (self & !(m << o)) | (v << o);
        proof {
            lemma_u8_set_same(self, o, w as u8, v);
            assert forall|o2: nat|
                o2 + w <= 8 && (o2 + w <= off || off + w <= o2) implies #[trigger] r.field(
                o2,
                w as nat,
            ) == self.field(o2, w as nat) by {
                lemma_u8_set_other(self, o, o2 as u8, w as u8, v);
            }
        }
        r
    }

    fn shift_up(self, w: usize, d: u64) -> (r: Self) {
        proof {
            lemma_u8_mask(w as u8);
        }
        let v = d as u8;
        if w == 8 {
            proof {
                lemma_u8_whole(v);
            }
            v
        } else {
            let s = w as u8;
            let r = (self << s) | v;
            proof {
                let up = self << s;
                lemma_u8_shift_up_sets(self, s, v);
                lemma_u8_set_same(up, 0, s, v);
                assert forall|o: nat| w <= o && o + w <= 8 implies #[trigger] r.field(
                    o,
                    w as nat,
                ) == self.field((o - w) as nat, w as nat) by {
                    lemma_u8_set_other(up, 0, o as u8, s, v);
                    lemma_u8_shifted_up(self, o as u8, s);
                }
            }
            r
        }
    }

    fn shift_down(self, w: usize, top: usize, d: u64) -> (r: Self) {
        proof {
            lemma_u8_mask(w as u8);
        }
        let v = d as u8;
        if w == 8 {
            proof {
                lemma_u8_whole(v);
            }
            v
        } else {
            let s = w as u8;
            let t = top as u8;
            let m = u8::MAX >> ((8 - w) as u8);
            let r = ((self >> s) & !(m << t)) | (v << t);
            proof {
                let down = self >> s;
                lemma_u8_set_same(down, t, s, v);
                assert forall|o: nat| o + w <= top implies #[trigger] r.field(o, w as nat)
                    == self.field(o + w as nat, w as nat) by {
                    lemma_u8_set_other(down, t, o as u8, s, v);
                    lemma_u8_shifted_down(self, o as u8, s);
                }
            }
            r
        }
    }
}

} // verus!
