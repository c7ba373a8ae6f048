//! How many bits a code takes, and where the slot of an element lies.

use vstd::prelude::*;
use vstd::arithmetic::power2::{pow2, lemma_pow2_unfold, lemma2_to64};
use vstd::arithmetic::div_mod::{lemma_fundamental_div_mod, lemma_fundamental_div_mod_converse};

verus! {

/// The number of bits that a code of a type with `n` values takes: the least
/// `b` with `n <= 2^b`.
pub open spec fn bits_per_elem(n: nat) -> nat
    decreases n,
{
    if n <= 1 {
        0
    } else {
        1 + bits_per_elem((n + 1) / 2)
    }
}

/// `bits_per_elem(n)` bits are enough for `n` codes.
pub proof fn lemma_bits_cover(n: nat)
    ensures
        n <= pow2(bits_per_elem(n)),
    decreases n,
{
    lemma2_to64();
    if n > 1 {
        lemma_bits_cover((n + 1) / 2);
        lemma_pow2_unfold(bits_per_elem(n));
    }
}

/// One bit less than `bits_per_elem(n)` is not enough for `n` codes.
pub proof fn lemma_bits_tight(n: nat)
    requires
        n >= 2,
    ensures
        bits_per_elem(n) >= 1,
        pow2((bits_per_elem(n) - 1) as nat) < n,
    decreases n,
{
    lemma2_to64();
    let h = (n + 1) / 2;
    if h >= 2 {
        lemma_bits_tight(h);
        lemma_pow2_unfold(bits_per_elem(h));
    } else {
        assert(bits_per_elem(h) == 0);
    }
}

/// Whatever number of bits is enough for `n` codes, `bits_per_elem(n)` is
/// not more.
pub proof fn lemma_bits_least(n: nat, k: nat)
    requires
        n <= pow2(k),
    ensures
        bits_per_elem(n) <= k,
    decreases k,
{
    lemma2_to64();
    if n > 1 {
        if k == 0 {
            assert(false);
        } else {
            lemma_pow2_unfold(k);
            lemma_bits_least((n + 1) / 2, (k - 1) as nat);
        }
    }
}

/// Computes `bits_per_elem`.
pub fn bits_for(n: usize) -> (b: usize)
    ensures
        b as nat == bits_per_elem(n as nat),
        b <= 64,
{
    let mut b: usize = 0;
    let mut m: usize = n;
    proof {
        lemma2_to64();
        vstd::arithmetic::power2::lemma2_to64_rest();
        lemma_bits_least(n as nat, 64);
    }
    while m > 1
        invariant
            bits_per_elem(n as nat) == b + bits_per_elem(m as nat),
            bits_per_elem(n as nat) <= 64,
        decreases m,
    {
        m = m / 2 + m % 2;
        b += 1;
    }
    b
}

/// The place of slot `k` of block `b` in the row of all slots, and back.
pub proof fn lemma_slot_place(b: nat, k: nat, per_block: nat)
    requires
        k < per_block,
    ensures
        (b * per_block + k) / per_block == b,
        (b * per_block + k) % per_block == k,
{
    lemma_fundamental_div_mod_converse(
        (b * per_block + k) as int,
        per_block as int,
        b as int,
        k as int,
    );
}

/// A place in the row of all slots names a block and a slot inside it.
pub proof fn lemma_place_slot(i: nat, per_block: nat)
    requires
        per_block > 0,
    ensures
        i == (i / per_block) * per_block + i % per_block,
        i % per_block < per_block,
{
    lemma_fundamental_div_mod(i as int, per_block as int);
    assert((i / per_block) * per_block == per_block * (i / per_block)) by (nonlinear_arith);
}

/// A place below `blocks * per_block` lies in one of the first `blocks`
/// blocks, and the other way round.
pub proof fn lemma_place_in_blocks(i: nat, per_block: nat, blocks: nat)
    requires
        per_block > 0,
    ensures
        i < blocks * per_block <==> i / per_block < blocks,
{
    lemma_place_slot(i, per_block);
    let q = i / per_block;
    if q < blocks {
        assert(q * per_block + per_block <= blocks * per_block) by (nonlinear_arith)
            requires
                q + 1 <= blocks,
        ;
    } else {
        assert(blocks * per_block <= q * per_block) by (nonlinear_arith)
            requires
                blocks <= q,
        ;
    }
}

/// Every slot of a word of `word_bits` bits lies inside the word.
pub proof fn lemma_slot_in_word(k: nat, bits: nat, word_bits: nat)
    requires
        bits > 0,
        k < word_bits / bits,
    ensures
        k * bits + bits <= word_bits,
        k * bits + bits <= (word_bits / bits) * bits,
{
    lemma_fundamental_div_mod(word_bits as int, bits as int);
    let e = word_bits / bits;
    assert(k * bits + bits <= e * bits) by (nonlinear_arith)
        requires
            k + 1 <= e,
    ;
    assert(e * bits == bits * e) by (nonlinear_arith);
}

/// Blocks that hold no more slots than `b0` blocks and `c` further slots
/// are no more than `b0` blocks and the whole blocks among the `c` slots.
pub proof fn lemma_blocks_bound(x: nat, b0: nat, c: nat, e: nat)
    requires
        e >= 1,
        x * e <= b0 * e + c,
    ensures
        x <= b0 + c / e,
{
    lemma_place_slot(c, e);
    let q = c / e;
    if x >= b0 + q + 1 {
        assert(x * e >= (b0 + q + 1) * e) by (nonlinear_arith)
            requires
                x >= b0 + q + 1,
                e >= 1,
        ;
        assert((b0 + q + 1) * e == b0 * e + q * e + e) by (nonlinear_arith);
        assert(false);
    }
}

} // verus!
