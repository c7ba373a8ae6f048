//! The codec of a product type, computed from the cardinalities of its
//! fields: the code of a value is the mixed-radix number whose digits are
//! the codes of the fields, the first field being the lowest digit.

use vstd::prelude::*;
use vstd::arithmetic::div_mod::{
    lemma_basic_div, lemma_div_denominator, lemma_fundamental_div_mod,
};
use crate::enum_like::{lemma_mixed_radix_digits};

verus! {

/// The product of the first `n` cardinalities: the weight of digit `n`.
pub open spec fn product(cards: Seq<usize>, n: nat) -> nat
    decreases n,
{
    if n == 0 {
        1
    } else {
        product(cards, (n - 1) as nat) * (cards[n - 1] as nat)
    }
}

/// The product of the cardinalities from place `i` on.
pub open spec fn product_from(cards: Seq<usize>, i: nat) -> nat
    decreases cards.len() - i,
{
    if i >= cards.len() {
        1
    } else {
        (cards[i as int] as nat) * product_from(cards, i + 1)
    }
}

/// Every digit is below the cardinality of its place.
pub open spec fn valid_digits(cards: Seq<usize>, digits: Seq<usize>) -> bool {
    &&& digits.len() == cards.len()
    &&& forall|i: int| 0 <= i < cards.len() ==> #[trigger] digits[i] < cards[i]
}

/// The mixed-radix number that the digits from place `i` on spell, the digit
/// at place `i` being the lowest.
pub open spec fn radix_value(cards: Seq<usize>, digits: Seq<usize>, i: nat) -> nat
    decreases cards.len() - i,
{
    if i >= cards.len() {
        0
    } else {
        (digits[i as int] as nat) + (cards[i as int] as nat) * radix_value(cards, digits, i + 1)
    }
}

/// The digit of `value` at place `i`.
pub open spec fn digit_of(cards: Seq<usize>, value: nat, i: nat) -> nat {
    (value / product(cards, i)) % (cards[i as int] as nat)
}

/// Every running product of the cardinalities fits in a `usize`.
pub open spec fn products_fit(cards: Seq<usize>) -> bool {
    forall|n: nat| n <= cards.len() ==> #[trigger] product(cards, n) <= usize::MAX
}

/// The product of all cardinalities is the product of the first `i` times
/// the product of the rest.
pub proof fn lemma_product_split(cards: Seq<usize>, i: nat)
    requires
        i <= cards.len(),
    ensures
        product(cards, cards.len()) == product(cards, i) * product_from(cards, i),
    decreases cards.len() - i,
{
    if i < cards.len() {
        lemma_product_split(cards, i + 1);
        let p = product(cards, i);
        let c = cards[i as int] as nat;
        let q = product_from(cards, i + 1);
        assert((p * c) * q == p * (c * q)) by (nonlinear_arith);
    } else {
        assert(product(cards, i) * 1 == product(cards, i)) by (nonlinear_arith);
    }
}

/// Where the product of all cardinalities is not 0, no cardinality is 0 and
/// no running product is 0.
pub proof fn lemma_product_positive(cards: Seq<usize>, n: nat)
    requires
        n <= cards.len(),
        product(cards, n) > 0,
    ensures
        forall|i: int| 0 <= i < n ==> #[trigger] cards[i] > 0,
        forall|k: nat| k <= n ==> #[trigger] product(cards, k) > 0,
    decreases n,
{
    if n > 0 {
        let p = product(cards, (n - 1) as nat);
        let c = cards[n - 1] as nat;
        assert(p > 0 && c > 0) by (nonlinear_arith)
            requires
                p * c > 0,
                p >= 0,
                c >= 0,
        ;
        lemma_product_positive(cards, (n - 1) as nat);
    }
}

/// The number that valid digits spell from place `i` on is below the product
/// of the cardinalities from that place on.
pub proof fn lemma_radix_bound(cards: Seq<usize>, digits: Seq<usize>, i: nat)
    requires
        valid_digits(cards, digits),
        i <= cards.len(),
    ensures
        radix_value(cards, digits, i) < product_from(cards, i),
    decreases cards.len() - i,
{
    if i < cards.len() {
        lemma_radix_bound(cards, digits, i + 1);
        let d = digits[i as int] as nat;
        let c = cards[i as int] as nat;
        let r = radix_value(cards, digits, i + 1);
        let q = product_from(cards, i + 1);
        assert(d + c * r < c * q) by (nonlinear_arith)
            requires
                d < c,
                r < q,
        ;
    }
}

/// The code of a product value is below the product of the cardinalities.
pub proof fn lemma_radix_below_product(cards: Seq<usize>, digits: Seq<usize>)
    requires
        valid_digits(cards, digits),
    ensures
        radix_value(cards, digits, 0) < product(cards, cards.len()),
{
    lemma_radix_bound(cards, digits, 0);
    lemma_product_split(cards, 0);
    assert(1 * product_from(cards, 0) == product_from(cards, 0)) by (nonlinear_arith);
}

/// Dividing the number that valid digits spell by the weight of place `i`
/// leaves the number that the digits from place `i` on spell.
pub proof fn lemma_radix_shift(cards: Seq<usize>, digits: Seq<usize>, i: nat)
    requires
        valid_digits(cards, digits),
        i <= cards.len(),
    ensures
        product(cards, i) > 0,
        radix_value(cards, digits, 0) / product(cards, i) == radix_value(cards, digits, i),
    decreases i,
{
    let v = radix_value(cards, digits, 0);
    if i == 0 {
        vstd::arithmetic::div_mod::lemma_div_basics(v as int);
    } else {
        let j = (i - 1) as nat;
        lemma_radix_shift(cards, digits, j);
        let p = product(cards, j);
        let c = cards[j as int] as nat;
        let d = digits[j as int] as nat;
        let r = radix_value(cards, digits, i);
        assert(d < c);
        lemma_div_denominator(v as int, p as int, c as int);
        assert(radix_value(cards, digits, j) == d + c * r);
        assert(d + c * r == d + r * c) by (nonlinear_arith);
        lemma_mixed_radix_digits(d, r, c);
    }
}

/// Decoding the code of a product value gives the digits back.
pub proof fn lemma_digits_of_radix_value(cards: Seq<usize>, digits: Seq<usize>, i: nat)
    requires
        valid_digits(cards, digits),
        i < cards.len(),
    ensures
        digit_of(cards, radix_value(cards, digits, 0), i) == digits[i as int],
{
    lemma_radix_shift(cards, digits, i);
    let c = cards[i as int] as nat;
    let d = digits[i as int] as nat;
    let r = radix_value(cards, digits, i + 1);
    assert(d < c);
    assert(d + c * r == d + r * c) by (nonlinear_arith);
    lemma_mixed_radix_digits(d, r, c);
}

/// The digits of a code below the product of the cardinalities are valid,
/// and from place `i` on they spell the code divided by the weight of that
/// place.
pub proof fn lemma_radix_value_of_digits(cards: Seq<usize>, digits: Seq<usize>, value: nat, i: nat)
    requires
        digits.len() == cards.len(),
        value < product(cards, cards.len()),
        forall|k: int| 0 <= k < cards.len() ==>
            #[trigger] digits[k] == digit_of(cards, value, k as nat),
        i <= cards.len(),
    ensures
        valid_digits(cards, digits),
        radix_value(cards, digits, i) == value / product(cards, i),
    decreases cards.len() - i,
{
    lemma_product_positive(cards, cards.len());
    assert forall|k: int| 0 <= k < cards.len() implies #[trigger] digits[k] < cards[k] by {
        assert(cards[k] > 0);
        assert(digits[k] == digit_of(cards, value, k as nat));
        vstd::arithmetic::div_mod::lemma_mod_bound(
            (value / product(cards, k as nat)) as int,
            cards[k] as int,
        );
    }
    if i >= cards.len() {
        lemma_basic_div(value as int, product(cards, cards.len()) as int);
    } else {
        lemma_radix_value_of_digits(cards, digits, value, i + 1);
        let p = product(cards, i);
        let c = cards[i as int] as nat;
        assert(p > 0);
        assert(c > 0);
        let x = value / p;
        lemma_div_denominator(value as int, p as int, c as int);
        lemma_fundamental_div_mod(x as int, c as int);
        assert(digits[i as int] == digit_of(cards, value, i));
        assert(x % c + c * (x / c) == x);
    }
}

/// Encoding the digits of a code below the product of the cardinalities
/// gives the code back.
pub proof fn lemma_radix_round_trip(cards: Seq<usize>, digits: Seq<usize>, value: nat)
    requires
        digits.len() == cards.len(),
        value < product(cards, cards.len()),
        forall|k: int| 0 <= k < cards.len() ==>
            #[trigger] digits[k] == digit_of(cards, value, k as nat),
    ensures
        valid_digits(cards, digits),
        radix_value(cards, digits, 0) == value,
{
    lemma_radix_value_of_digits(cards, digits, value, 0);
    vstd::arithmetic::div_mod::lemma_div_basics(value as int);
}

/// For a product type with the given field cardinalities, the weights of
/// its digits and, last, the product of all cardinalities:
/// `[1, c0, c0 * c1, ...]`. Nothing is returned where one of these does not
/// fit in a `usize`.
pub fn num_variants_product(cards: &[usize]) -> (r: Option<Vec<usize>>)
    ensures
        r.is_some() <==> products_fit(cards@),
        r.is_some() ==> r.unwrap()@.len() == cards@.len() + 1 && forall|i: int|
            0 <= i <= cards@.len() ==>
                #[trigger] r.unwrap()@[i] as nat == product(cards@, i as nat),
{
    let n = cards.len();
    let mut products: Vec<usize> = Vec::new();
    let mut last_p: usize = 1;
    products.push(last_p);
    let mut i: usize = 0;
    while i < n
        invariant
            n == cards@.len(),
            i <= n,
            last_p as nat == product(cards@, i as nat),
            products@.len() == i + 1,
            forall|k: int| 0 <= k <= i ==>
                #[trigger] products@[k] as nat == product(cards@, k as nat),
        decreases n - i,
    {
        match last_p.checked_mul(cards[i]) {
            Some(p) => {
                last_p = p;
                products.push(last_p);
            },
            None => {
                proof {
                    assert(product(cards@, (i + 1) as nat) > usize::MAX);
                }
                return None;
            },
        }
        i += 1;
    }
    proof {
        assert forall|k: nat| k <= cards@.len() implies #[trigger] product(cards@, k)
            <= usize::MAX by {
            assert(products@[k as int] as nat == product(cards@, k));
        }
    }
    Some(products)
}

/// The product of the given cardinalities, where it and every running
/// product before it fits in a `usize`.
pub fn total_num_variants_product(cards: &[usize]) -> (r: Option<usize>)
    ensures
        r.is_some() <==> products_fit(cards@),
        r.is_some() ==> r.unwrap() as nat == product(cards@, cards@.len()),
{
    match num_variants_product(cards) {
        Some(products) => Some(products[cards.len()]),
        None => None,
    }
}

/// The code of a product value: `offset`, plus each digit times the weight
/// of its place.
pub fn to_discr_body(cards: &[usize], digits: &[usize], offset: usize) -> (r: usize)
    requires
        valid_digits(cards@, digits@),
        products_fit(cards@),
        offset + product(cards@, cards@.len()) <= usize::MAX,
    ensures
        r as nat == offset + radix_value(cards@, digits@, 0),
{
    let n = cards.len();
    let mut acc: usize = 0;
    let mut p: usize = 1;
    let mut i: usize = 0;
    let ghost total = radix_value(cards@, digits@, 0);
    proof {
        lemma_radix_below_product(cards@, digits@);
        assert(1 * total == total) by (nonlinear_arith);
    }
    while i < n
        invariant
            n == cards@.len(),
            i <= n,
            valid_digits(cards@, digits@),
            products_fit(cards@),
            total == radix_value(cards@, digits@, 0),
            total < product(cards@, cards@.len()),
            offset + product(cards@, cards@.len()) <= usize::MAX,
            p as nat == product(cards@, i as nat),
            acc + p * radix_value(cards@, digits@, i as nat) == total,
        decreases n - i,
    {
        let ghost rest = radix_value(cards@, digits@, (i + 1) as nat);
        let ghost d = digits@[i as int] as nat;
        let ghost c = cards@[i as int] as nat;
        proof {
            assert(radix_value(cards@, digits@, i as nat) == d + c * rest);
            assert(p * (d + c * rest) == p * d + (p * c) * rest) by (nonlinear_arith);
            assert(p * d >= 0 && (p * c) * rest >= 0) by (nonlinear_arith)
                requires
                    p >= 0,
                    d >= 0,
                    c >= 0,
                    rest >= 0,
            ;
            assert(product(cards@, (i + 1) as nat) == p * c);
            assert(product(cards@, (i + 1) as nat) <= usize::MAX);
        }
        acc = acc + p * digits[i];
        p = p * cards[i];
        i += 1;
    }
    proof {
        assert(p * 0 == 0) by (nonlinear_arith);
    }
    offset + acc
}

/// The digits of a code of a product value: for each place, the code
/// divided by the weight of the place, modulo the cardinality of the place.
pub fn from_discr_body(cards: &[usize], value: usize) -> (r: Vec<usize>)
    requires
        products_fit(cards@),
        value < product(cards@, cards@.len()),
    ensures
        r@.len() == cards@.len(),
        forall|k: int|
            0 <= k < cards@.len() ==>
                #[trigger] r@[k] as nat == digit_of(cards@, value as nat, k as nat),
        valid_digits(cards@, r@),
        radix_value(cards@, r@, 0) == value,
{
    let n = cards.len();
    let mut digits: Vec<usize> = Vec::with_capacity(n);
    let mut p: usize = 1;
    let mut i: usize = 0;
    proof {
        lemma_product_positive(cards@, cards@.len());
    }
    while i < n
        invariant
            n == cards@.len(),
            i <= n,
            products_fit(cards@),
            forall|k: int| 0 <= k < n ==> #[trigger] cards@[k] > 0,
            forall|k: nat| k <= n ==> #[trigger] product(cards@, k) > 0,
            p as nat == product(cards@, i as nat),
            digits@.len() == i,
            forall|k: int|
                0 <= k < i ==> #[trigger] digits@[k] as nat
                    == digit_of(cards@, value as nat, k as nat),
        decreases n - i,
    {
        proof {
            assert(cards@[i as int] > 0);
            assert(product(cards@, i as nat) > 0);
            assert(product(cards@, (i + 1) as nat) == p * cards@[i as int]);
            assert(product(cards@, (i + 1) as nat) <= usize::MAX);
        }
        digits.push((value / p) % cards[i]);
        p = p * cards[i];
        i += 1;
    }
    proof {
        lemma_radix_round_trip(cards@, digits@, value as nat);
    }
    digits
}

} // verus!
