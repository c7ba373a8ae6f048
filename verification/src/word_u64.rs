//! Storage words of 64 bits.

use vstd::prelude::*;
use vstd::arithmetic::power2::pow2;
use crate::word::Word;

verus! {

/// The all-ones word, shifted down until `w` ones are left, is `2^w - 1`.
proof fn lemma_u64_mask(w: u64)
    requires
        1 <= w <= 64,
    ensures
        (u64::MAX >> ((64 - w) as u64)) as nat + 1 == pow2(w as nat),
    decreases w,
{
    vstd::arithmetic::power2::lemma2_to64();
    if w == 1 {
        assert(u64::MAX >> 63u64 == 1) by (bit_vector);
    } else {
        lemma_u64_mask((w - 1) as u64);
        let hi = u64::MAX >> ((64 - w) as u64);
        let lo = u64::MAX >> ((65 - w) as u64);
        assert(hi == 2 * lo + 1) by (bit_vector)
            requires
                2 <= w <= 64,
                hi == u64::MAX >> ((64 - w) as u64),
                lo == u64::MAX >> ((65 - w) as u64),
        ;
        vstd::arithmetic::power2::lemma_pow2_unfold(w as nat);
    }
}

/// A field that spans the whole word is the word.
proof fn lemma_u64_whole(x: u64)
    ensures
        (x >> 0u64) & (u64::MAX >> 0u64) == x,
{
    assert((x >> 0u64) & (u64::MAX >> 0u64) == x) by (bit_vector);
}

/// Overwriting one field of a word: the field holds the new value.
proof fn lemma_u64_set_same(x: u64, o: u64, w: u64, d: u64)
    requires
        1 <= w <= 64,
        o <= 64 - w,
        d <= u64::MAX >> ((64 - w) as u64),
    ensures
        ({
            let m = u64::MAX >> ((64 - w) as u64);
            let r = (x & !(m << o)) | (d << o);
            (r >> o) & m == d
        }),
{
    let m = u64::MAX >> ((64 - w) as u64);
    let r = (x & !(m << o)) | (d << o);
    assert((r >> o) & m == d) by (bit_vector)
        requires
            1 <= w <= 64,
            o <= 64 - w,
            d <= m,
            m == u64::MAX >> ((64 - w) as u64),
            r == (x & !(m << o)) | (d << o),
    ;
}

/// Overwriting one field of a word: a field beside it holds what it held.
proof fn lemma_u64_set_other(x: u64, o: u64, o2: u64, w: u64, d: u64)
    requires
        1 <= w <= 64,
        o <= 64 - w,
        o2 <= 64 - w,
        o2 + w <= o || o + w <= o2,
        d <= u64::MAX >> ((64 - w) as u64),
    ensures
        ({
            let m = u64::MAX >> ((64 - w) as u64);
            let r = (x & !(m << o)) | (d << o);
            (r >> o2) & m == (x >> o2) & m
        }),
{
    let m = u64::MAX >> ((64 - w) as u64);
    let r = (x & !(m << o)) | (d << o);
    assert((r >> o2) & m == (x >> o2) & m) by (bit_vector)
        requires
            1 <= w <= 64,
            o <= 64 - w,
            o2 <= 64 - w,
            o2 + w <= o || o + w <= o2,
            d <= m,
            m == u64::MAX >> ((64 - w) as u64),
            r == (x & !(m << o)) | (d << o),
    ;
}

/// A word shifted up by one field, with a value put into the lowest field,
/// is the shifted word with its lowest field overwritten.
proof fn lemma_u64_shift_up_sets(x: u64, w: u64, d: u64)
    requires
        1 <= w < 64,
    ensures
        ({
            let m = u64::MAX >> ((64 - w) as u64);
            (x << w) | d == ((x << w) & !(m << 0u64)) | (d << 0u64)
        }),
{
    let m = u64::MAX >> ((64 - w) as u64);
    assert((x << w) | d == ((x << w) & !(m << 0u64)) | (d << 0u64)) by (bit_vector)
        requires
            1 <= w < 64,
            m == u64::MAX >> ((64 - w) as u64),
    ;
}

/// In a word shifted up by one field, a field holds what the field below
/// it held.
proof fn lemma_u64_shifted_up(x: u64, o: u64, w: u64)
    requires
        1 <= w < 64,
        w <= o,
        o <= 64 - w,
    ensures
        ({
            let m = u64::MAX >> ((64 - w) as u64);
            ((x << w) >> o) & m == (x >> ((o - w) as u64)) & m
        }),
{
    let m = u64::MAX >> ((64 - w) as u64);
    let p = (o - w) as u64;
    assert(((x << w) >> o) & m == (x >> p) & m) by (bit_vector)
        requires
            1 <= w < 64,
            w <= o,
            o <= 64 - w,
            p == o - w,
            m == u64::MAX >> ((64 - w) as u64),
    ;
}

/// In a word shifted down by one field, a field holds what the field above
/// it held.
proof fn lemma_u64_shifted_down(x: u64, o: u64, w: u64)
    requires
        1 <= w < 64,
        o + w <= 64 - w,
    ensures
        ({
            let m = u64::MAX >> ((64 - w) as u64);
            ((x >> w) >> o) & m == (x >> ((o + w) as u64)) & m
        }),
{
    let m = u64::MAX >> ((64 - w) as u64);
    let p = (o + w) as u64;
    assert(((x >> w) >> o) & m == (x >> p) & m) by (bit_vector)
        requires
            1 <= w < 64,
            o + w <= 64 - w,
            p == o + w,
            m == u64::MAX >> ((64 - w) as u64),
    ;
}

/// A `u64` has 64 bits.
pub proof fn lemma_u64_bits()
    ensures
        <u64 as Word>::BITS == 64,
{
}

impl Word for u64 {
    open spec fn field(self, off: nat, w: nat) -> nat {
        ((self >> (off as u64)) & (u64::MAX >> ((64 - w) as u64))) as nat
    }

    const BITS: usize = 64;

    fn zero() -> (r: Self) {
        assert forall|off: nat, w: nat| #[trigger] 0u64.field(off, w) == 0 by {
            let o = off as u64;
            let m = u64::MAX >> ((64 - w) as u64);
            assert((0u64 >> o) & m == 0) by (bit_vector);
        }
        0
    }

    fn get_field(self, off: usize, w: usize) -> (r: u64) {
        let o = off as u64;
        let m = u64::MAX >> ((64 - w) as u64);
        let v = (self >> o) & m;
        proof {
            lemma_u64_mask(w as u64);
            assert(v <= m) by (bit_vector)
                requires
                    v == (self >> o) & m,
            ;
        }
        v as u64
    }

    fn set_field(self, off: usize, w: usize, d: u64) -> (r: Self) {
        let o = off as u64;
        let m = u64::MAX >> ((64 - w) as u64);
        proof {
            lemma_u64_mask(w as u64);
        }
        let v = d as u64;
        let r = (self & !(m << o)) | (v << o);
        proof {
            lemma_u64_set_same(self, o, w as u64, v);
            assert forall|o2: nat|
                o2 + w <= 64 && (o2 + w <= off || off + w <= o2) implies #[trigger] r.field(
                o2,
                w as nat,
            ) == self.field(o2, w as nat) by {
                lemma_u64_set_other(self, o, o2 as u64, w as u64, v);
            }
        }
        r
    }

    fn shift_up(self, w: usize, d: u64) -> (r: Self) {
        proof {
            lemma_u64_mask(w as u64);
        }
        let v = d as u64;
        if w == 64 {
            proof {
                lemma_u64_whole(v);
            }
            v
        } else {
            let s = w as u64;
            let r = (self << s) | v;
            proof {
                let up = self << s;
                lemma_u64_shift_up_sets(self, s, v);
                lemma_u64_set_same(up, 0, s, v);
                assert forall|o: nat| w <= o && o + w <= 64 implies #[trigger] r.field(
                    o,
                    w as nat,
                ) == self.field((o - w) as nat, w as nat) by {
                    lemma_u64_set_other(up, 0, o as u64, s, v);
                    lemma_u64_shifted_up(self, o as u64, s);
                }
            }
            r
        }
    }

    fn shift_down(self, w: usize, top: usize, d: u64) -> (r: Self) {
        proof {
            lemma_u64_mask(w as u64);
        }
        let v = d as u64;
        if w == 64 {
            proof {
                lemma_u64_whole(v);
            }
            v
        } else {
            let s = w as u64;
            let t = top as u64;
            let m = u64::MAX >> ((64 - w) as u64);
            let r = ((self >> s) & !(m << t)) | (v << t);
            proof {
                let down = self >> s;
                lemma_u64_set_same(down, t, s, v);
                assert forall|o: nat| o + w <= top implies #[trigger] r.field(o, w as nat)
                    == self.field(o + w as nat, w as nat) by {
                    lemma_u64_set_other(down, t, o as u64, s, v);
                    lemma_u64_shifted_down(self, o as u64, s);
                }
            }
            r
        }
    }
}

} // verus!
