//! Storage words of 128 bits.

use vstd::prelude::*;
use vstd::arithmetic::power2::pow2;
use crate::word::Word;

verus! {

/// The all-ones word, shifted down until `w` ones are left, is `2^w - 1`.
proof fn lemma_u128_mask(w: u128)
    requires
        1 <= w <= 128,
    ensures
        (u128::MAX >> ((128 - w) as u128)) as nat + 1 == pow2(w as nat),
    decreases w,
{
    vstd::arithmetic::power2::lemma2_to64();
    if w == 1 {
        assert(u128::MAX >> 127u128 == 1) by (bit_vector);
    } else {
        lemma_u128_mask((w - 1) as u128);
        let hi = u128::MAX >> ((128 - w) as u128);
        let lo = u128::MAX >> ((129 - w) as u128);
        assert(hi == 2 * lo + 1) by (bit_vector)
            requires
                2 <= w <= 128,
                hi == u128::MAX >> ((128 - w) as u128),
                lo == u128::MAX >> ((129 - w) as u128),
        ;
        vstd::arithmetic::power2::lemma_pow2_unfold(w as nat);
    }
}

/// A field that spans the whole word is the word.
proof fn lemma_u128_whole(x: u128)
    ensures
        (x >> 0u128) & (u128::MAX >> 0u128) == x,
{
    assert((x >> 0u128) & (u128::MAX >> 0u128) == x) by (bit_vector);
}

/// Overwriting one field of a word: the field holds the new value.
proof fn lemma_u128_set_same(x: u128, o: u128, w: u128, d: u128)
    requires
        1 <= w <= 128,
        o <= 128 - w,
        d <= u128::MAX >> ((128 - w) as u128),
    ensures
        ({
            let m = u128::MAX >> ((128 - w) as u128);
            let r = (x & !(m << o)) | (d << o);
            (r >> o) & m == d
        }),
{
    let m = u128::MAX >> ((128 - w) as u128);
    let r = (x & !(m << o)) | (d << o);
    assert((r >> o) & m == d) by (bit_vector)
        requires
            1 <= w <= 128,
            o <= 128 - w,
            d <= m,
            m == u128::MAX >> ((128 - w) as u128),
            r == (x & !(m << o)) | (d << o),
    ;
}

/// Overwriting one field of a word: a field beside it holds what it held.
#[verifier::rlimit(100)]
proof fn lemma_u128_set_other(x: u128, o: u128, o2: u128, w: u128, d: u128)
    requires
        1 <= w <= 128,
        o <= 128 - w,
        o2 <= 128 - w,
        o2 + w <= o || o + w <= o2,
        d <= u128::MAX >> ((128 - w) as u128),
    ensures
        ({
            let m = u128::MAX >> ((128 - w) as u128);
            let r = (x & !(m << o)) | (d << o);
            (r >> o2) & m == (x >> o2) & m
        }),
{
    let m = u128::MAX >> ((128 - w) as u128);
    let r = (x & !(m << o)) | (d << o);
    assert((r >> o2) & m == (x >> o2) & m) by (bit_vector)
        requires
            1 <= w <= 128,
            o <= 128 - w,
            o2 <= 128 - w,
            o2 + w <= o || o + w <= o2,
            d <= m,
            m == u128::MAX >> ((128 - w) as u128),
            r == (x & !(m << o)) | (d << o),
    ;
}

/// A word shifted up by one field, with a value put into the lowest field,
/// is the shifted word with its lowest field overwritten.
proof fn lemma_u128_shift_up_sets(x: u128, w: u128, d: u128)
    requires
        1 <= w < 128,
    ensures
        ({
            let m = u128::MAX >> ((128 - w) as u128);
            (x << w) | d == ((x << w) & !(m << 0u128)) | (d << 0u128)
        }),
{
    let m = u128::MAX >> ((128 - w) as u128);
    assert((x << w) | d == ((x << w) & !(m << 0u128)) | (d << 0u128)) by (bit_vector)
        requires
            1 <= w < 128,
            m == u128::MAX >> ((128 - w) as u128),
    ;
}

/// In a word shifted up by one field, a field holds what the field below
/// it held.
#[verifier::rlimit(100)]
proof fn lemma_u128_shifted_up(x: u128, o: u128, w: u128)
    requires
        1 <= w < 128,
        w <= o,
        o <= 128 - w,
    ensures
        ({
            let m = u128::MAX >> ((128 - w) as u128);
            ((x << w) >> o) & m == (x >> ((o - w) as u128)) & m
        }),
{
    let m = u128::MAX >> ((128 - w) as u128);
    let p = (o - w) as u128;
    assert(((x << w) >> o) & m == (x >> p) & m) by (bit_vector)
        requires
            1 <= w < 128,
            w <= o,
            o <= 128 - w,
            p == o - w,
            m == u128::MAX >> ((128 - w) as u128),
    ;
}

/// In a word shifted down by one field, a field holds what the field above
/// it held.
#[verifier::rlimit(100)]
proof fn lemma_u128_shifted_down(x: u128, o: u128, w: u128)
    requires
        1 <= w < 128,
        o + w <= 128 - w,
    ensures
        ({
            let m = u128::MAX >> ((128 - w) as u128);
            ((x >> w) >> o) & m == (x >> ((o + w) as u128)) & m
        }),
{
    let m = u128::MAX >> ((128 - w) as u128);
    let p = (o + w) as u128;
    assert(((x >> w) >> o) & m == (x >> p) & m) by (bit_vector)
        requires
            1 <= w < 128,
            o + w <= 128 - w,
            p == o + w,
            m == u128::MAX >> ((128 - w) as u128),
    ;
}

/// A `u128` has 128 bits.
pub proof fn lemma_u128_bits()
    ensures
        <u128 as Word>::BITS == 128,
{
}

impl Word for u128 {
    open spec fn field(self, off: nat, w: nat) -> nat {
        ((self >> (off as u128)) & (u128::MAX >> ((128 - w) as u128))) as nat
    }

    const BITS: usize = 128;

    fn zero() -> (r: Self) {
        assert forall|off: nat, w: nat| #[trigger] 0u128.field(off, w) == 0 by {
            let o = off as u128;
            let m = u128::MAX >> ((128 - w) as u128);
            assert((0u128 >> o) & m == 0) by (bit_vector);
        }
        0
    }

    fn get_field(self, off: usize, w: usize) -> (r: u64) {
        let o = off as u128;
        let m = u128::MAX >> ((128 - w) as u128);
        let v = (self >> o) & m;
        proof {
            lemma_u128_mask(w as u128);
            assert(v <= m) by (bit_vector)
                requires
                    v == (self >> o) & m,
            ;
            vstd::arithmetic::power2::lemma2_to64();
            vstd::arithmetic::power2::lemma2_to64_rest();
            if w < 64 {
                vstd::arithmetic::power2::lemma_pow2_strictly_increases(w as nat, 64);
            }
        }
        v as u64
    }

    fn set_field(self, off: usize, w: usize, d: u64) -> (r: Self) {
        let o = off as u128;
        let m = u128::MAX >> ((128 - w) as u128);
        proof {
            lemma_u128_mask(w as u128);
        }
        let v = d as u128;
        let r = (self & !(m << o)) | (v << o);
        proof {
            lemma_u128_set_same(self, o, w as u128, v);
            assert forall|o2: nat|
                o2 + w <= 128 && (o2 + w <= off || off + w <= o2) implies #[trigger] r.field(
                o2,
                w as nat,
            ) == self.field(o2, w as nat) by {
                lemma_u128_set_other(self, o, o2 as u128, w as u128, v);
            }
        }
        r
    }

    fn shift_up(self, w: usize, d: u64) -> (r: Self) {
        proof {
            lemma_u128_mask(w as u128);
        }
        let v = d as u128;
        if w == 128 {
            proof {
                lemma_u128_whole(v);
            }
            v
        } else {
            let s = w as u128;
            let r = (self << s) | v;
            proof {
                let up = self << s;
                lemma_u128_shift_up_sets(self, s, v);
                lemma_u128_set_same(up, 0, s, v);
                assert forall|o: nat| w <= o && o + w <= 128 implies #[trigger] r.field(
                    o,
                    w as nat,
                ) == self.field((o - w) as nat, w as nat) by {
                    lemma_u128_set_other(up, 0, o as u128, s, v);
                    lemma_u128_shifted_up(self, o as u128, s);
                }
            }
            r
        }
    }

    fn shift_down(self, w: usize, top: usize, d: u64) -> (r: Self) {
        proof {
            lemma_u128_mask(w as u128);
        }
        let v = d as u128;
        if w == 128 {
            proof {
                lemma_u128_whole(v);
            }
            v
        } else {
            let s = w as u128;
            let t = top as u128;
            let m = u128::MAX >> ((128 - w) as u128);
            let r = ((self >> s) & !(m << t)) | (v << t);
            proof {
                let down = self >> s;
                lemma_u128_set_same(down, t, s, v);
                assert forall|o: nat| o + w <= top implies #[trigger] r.field(o, w as nat)
                    == self.field(o + w as nat, w as nat) by {
                    lemma_u128_set_other(down, t, o as u128, s, v);
                    lemma_u128_shifted_down(self, o as u128, s);
                }
            }
            r
        }
    }
}

} // verus!
