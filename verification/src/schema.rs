//! The codec of a sum type, computed from a description of its variants.
//!
//! A variant is described by the cardinalities of its fields; a variant
//! without fields is a unit variant. The unit variants take the codes from 0
//! on, in the order of their declaration. The variants with fields follow:
//! each takes as many codes as the product type of its fields has values,
//! the first of them right after the unit variants, each next one right
//! after the one before.

use vstd::prelude::*;
use crate::radix::{
    from_discr_body, product, products_fit, radix_value, to_discr_body,
    total_num_variants_product, valid_digits,
};

verus! {

/// The number of codes that a variant with the given field cardinalities
/// takes: one for a unit variant, the product of the cardinalities
/// otherwise.
pub open spec fn arm_size(cards: Seq<usize>) -> nat {
    product(cards, cards.len())
}

/// The number of unit variants among the first `k` variants.
pub open spec fn units_before(variants: Seq<Vec<usize>>, k: nat) -> nat
    decreases k,
{
    if k == 0 {
        0
    } else if variants[k - 1]@.len() == 0 {
        units_before(variants, (k - 1) as nat) + 1
    } else {
        units_before(variants, (k - 1) as nat)
    }
}

/// The number of codes that the variants with fields among the first `k`
/// variants take.
pub open spec fn data_before(variants: Seq<Vec<usize>>, k: nat) -> nat
    decreases k,
{
    if k == 0 {
        0
    } else if variants[k - 1]@.len() == 0 {
        data_before(variants, (k - 1) as nat)
    } else {
        data_before(variants, (k - 1) as nat) + arm_size(variants[k - 1]@)
    }
}

/// The first code of variant `k`.
pub open spec fn arm_start(variants: Seq<Vec<usize>>, k: int) -> nat {
    if variants[k]@.len() == 0 {
        units_before(variants, k as nat)
    } else {
        units_before(variants, variants.len()) + data_before(variants, k as nat)
    }
}

/// The number of values of the sum type.
pub open spec fn sum_cardinality(variants: Seq<Vec<usize>>) -> nat {
    units_before(variants, variants.len()) + data_before(variants, variants.len())
}

/// The code `x` belongs to variant `k`.
pub open spec fn arm_covers(variants: Seq<Vec<usize>>, k: int, x: nat) -> bool {
    arm_start(variants, k) <= x < arm_start(variants, k) + arm_size(variants[k]@)
}

/// The counts of unit variants and of codes of variants with fields grow
/// with the number of variants counted.
pub proof fn lemma_counts_grow(variants: Seq<Vec<usize>>, j: nat, k: nat)
    requires
        j <= k,
    ensures
        units_before(variants, j) <= units_before(variants, k),
        data_before(variants, j) <= data_before(variants, k),
        units_before(variants, k) <= units_before(variants, j) + (k - j),
    decreases k - j,
{
    if j < k {
        lemma_counts_grow(variants, j, (k - 1) as nat);
    }
}

/// Two different variants have no code in common.
pub proof fn lemma_arms_disjoint(variants: Seq<Vec<usize>>, j: int, k: int, x: nat)
    requires
        0 <= j < k < variants.len(),
        arm_covers(variants, j, x),
    ensures
        !arm_covers(variants, k, x),
{
    let n = variants.len();
    lemma_counts_grow(variants, (j + 1) as nat, k as nat);
    lemma_counts_grow(variants, k as nat, n);
    lemma_counts_grow(variants, (j + 1) as nat, n);
    if variants[j]@.len() == 0 {
        assert(arm_size(variants[j]@) == 1);
        assert(units_before(variants, (j + 1) as nat) == units_before(variants, j as nat) + 1);
    } else {
        assert(data_before(variants, (j + 1) as nat) == data_before(variants, j as nat)
            + arm_size(variants[j]@));
    }
    if variants[k]@.len() == 0 {
        assert(arm_size(variants[k]@) == 1);
        assert(units_before(variants, (k + 1) as nat) == units_before(variants, k as nat) + 1);
        lemma_counts_grow(variants, (k + 1) as nat, n);
    }
}

/// Every code below the cardinality belongs to some variant among the first
/// `m`, as far as those variants reach.
pub proof fn lemma_arms_cover(variants: Seq<Vec<usize>>, x: nat, m: nat) -> (k: int)
    requires
        m <= variants.len(),
        x < units_before(variants, m) || units_before(variants, variants.len()) <= x
            < units_before(variants, variants.len()) + data_before(variants, m),
    ensures
        0 <= k < m,
        arm_covers(variants, k, x),
    decreases m,
{
    let n = variants.len();
    let j = (m - 1) as nat;
    lemma_counts_grow(variants, m, n);
    if variants[j as int]@.len() == 0 {
        assert(arm_size(variants[j as int]@) == 1);
        if x == units_before(variants, j) {
            j as int
        } else {
            lemma_arms_cover(variants, x, j)
        }
    } else {
        if units_before(variants, n) + data_before(variants, j) <= x {
            j as int
        } else {
            lemma_arms_cover(variants, x, j)
        }
    }
}

/// The place of one variant among the codes of a sum type.
#[derive(Debug)]
pub struct MatchArm {
    /// For a unit variant, its code. For a variant with fields, the number
    /// of unit variants of the type.
    pub offset: usize,
    /// The number of codes that the variants with fields before this one
    /// take; 0 for a unit variant.
    pub range_high: usize,
    /// The cardinalities of the fields; empty for a unit variant.
    pub type_cards: Vec<usize>,
}

impl MatchArm {
    /// The arm describes variant `k` of the given variants.
    pub open spec fn describes(&self, variants: Seq<Vec<usize>>, k: int) -> bool {
        &&& self.type_cards@ == variants[k]@
        &&& products_fit(self.type_cards@)
        &&& if variants[k]@.len() == 0 {
            self.offset as nat == units_before(variants, k as nat) && self.range_high == 0
        } else {
            self.offset as nat == units_before(variants, variants.len()) && self.range_high as nat
                == data_before(variants, k as nat)
        }
    }

    /// The arm of a unit variant, which has the code `offset`.
    pub fn unit(offset: usize) -> (r: Self)
        ensures
            r.offset == offset,
            r.range_high == 0,
            r.type_cards@ == Seq::<usize>::empty(),
    {
        MatchArm { offset, range_high: 0, type_cards: Vec::new() }
    }

    /// The arm of a variant with fields of the given cardinalities, which
    /// comes after `offset` unit variants and after variants with fields
    /// that take `range_high` codes.
    pub fn from_fields(type_cards: Vec<usize>, offset: usize, range_high: usize) -> (r: Self)
        ensures
            r.offset == offset,
            r.range_high == range_high,
            r.type_cards == type_cards,
    {
        MatchArm { offset, range_high, type_cards }
    }

    /// The number of codes of this arm, where it fits in a `usize`.
    pub fn num_variants(&self) -> (r: Option<usize>)
        ensures
            r.is_some() <==> products_fit(self.type_cards@),
            r.is_some() ==> r.unwrap() as nat == arm_size(self.type_cards@),
    {
        total_num_variants_product(self.type_cards.as_slice())
    }

    /// The number of codes that the variants with fields up to and
    /// including this one take, where it fits in a `usize`.
    pub fn next_range_high(&self) -> (r: Option<usize>)
        ensures
            r.is_some() <==> products_fit(self.type_cards@) && self.range_high
                + arm_size(self.type_cards@) <= usize::MAX,
            r.is_some() ==> r.unwrap() as nat == self.range_high + arm_size(self.type_cards@),
    {
        match self.num_variants() {
            Some(n) => self.range_high.checked_add(n),
            None => None,
        }
    }

    /// The code of the value of this variant whose fields have the given
    /// codes.
    pub fn to_discr(&self, digits: &[usize]) -> (r: usize)
        requires
            valid_digits(self.type_cards@, digits@),
            products_fit(self.type_cards@),
            self.offset + self.range_high + arm_size(self.type_cards@) <= usize::MAX,
        ensures
            r as nat == self.offset + self.range_high + radix_value(self.type_cards@, digits@, 0),
            self.offset + self.range_high <= r < self.offset + self.range_high
                + arm_size(self.type_cards@),
    {
        proof {
            crate::radix::lemma_radix_below_product(self.type_cards@, digits@);
        }
        to_discr_body(self.type_cards.as_slice(), digits, self.offset + self.range_high)
    }

    /// The codes of the fields of the value of this variant that has the
    /// code `x`, or nothing where `x` is not a code of this variant.
    pub fn from_discr(&self, x: usize) -> (r: Option<Vec<usize>>)
        requires
            products_fit(self.type_cards@),
            self.offset + self.range_high + arm_size(self.type_cards@) <= usize::MAX,
        ensures
            r.is_some() <==> self.offset + self.range_high <= x < self.offset + self.range_high
                + arm_size(self.type_cards@),
            r.is_some() ==> valid_digits(self.type_cards@, r.unwrap()@) && self.offset
                + self.range_high + radix_value(self.type_cards@, r.unwrap()@, 0) == x,
    {
        let start = self.offset + self.range_high;
        match self.num_variants() {
            Some(n) => {
                if x >= start && x - start < n {
                    Some(from_discr_body(self.type_cards.as_slice(), x - start))
                } else {
                    None
                }
            },
            None => None,
        }
    }
}

/// The arms are the layout of the variants, one arm for each, in the order
/// of the declaration.
pub open spec fn is_layout(arms: Seq<MatchArm>, variants: Seq<Vec<usize>>) -> bool {
    &&& arms.len() == variants.len()
    &&& sum_cardinality(variants) <= usize::MAX
    &&& forall|k: int| 0 <= k < arms.len() ==> (#[trigger] arms[k]).describes(variants, k)
}

/// Lays the variants of a sum type out: the unit variants first, in the
/// order of their declaration, then the variants with fields, each after the
/// one before. Nothing is returned where the number of values of a variant,
/// or of the type, does not fit in a `usize`.
pub fn all_variants_of(variants: &[Vec<usize>]) -> (r: Option<Vec<MatchArm>>)
    ensures
        r.is_some() <==> sum_cardinality(variants@) <= usize::MAX && forall|k: int|
            0 <= k < variants@.len() ==> products_fit(#[trigger] variants@[k]@),
        r.is_some() ==> is_layout(r.unwrap()@, variants@),
{
    let n = variants.len();
    // All the unit-like variants go from 0 to offset
    let mut offset: usize = 0;
    let mut i: usize = 0;
    while i < n
        invariant
            n == variants@.len(),
            i <= n,
            offset as nat == units_before(variants@, i as nat),
            offset <= i,
        decreases n - i,
    {
        if variants[i].len() == 0 {
            offset += 1;
        }
        i += 1;
    }
    // range_high is the number of codes taken by the variants with fields
    // so far
    let mut range_high: usize = 0;
    let mut unit_index: usize = 0;
    let mut arms: Vec<MatchArm> = Vec::with_capacity(n);
    let mut k: usize = 0;
    while k < n
        invariant
            n == variants@.len(),
            k <= n,
            offset as nat == units_before(variants@, n as nat),
            unit_index as nat == units_before(variants@, k as nat),
            range_high as nat == data_before(variants@, k as nat),
            arms@.len() == k,
            forall|j: int| 0 <= j < k ==> products_fit(#[trigger] variants@[j]@),
            forall|j: int| 0 <= j < k ==> (#[trigger] arms@[j]).describes(variants@, j),
        decreases n - k,
    {
        proof {
            lemma_counts_grow(variants@, (k + 1) as nat, n as nat);
        }
        if variants[k].len() == 0 {
            proof {
                assert(variants@[k as int]@ =~= Seq::<usize>::empty());
                assert(products_fit(variants@[k as int]@)) by {
                    assert forall|m: nat| m <= variants@[k as int]@.len()
                        implies #[trigger] product(
                        variants@[k as int]@,
                        m,
                    ) <= usize::MAX by {}
                }
            }
            arms.push(MatchArm::unit(unit_index));
            unit_index += 1;
        } else {
            let arm = MatchArm::from_fields(variants[k].clone(), offset, range_high);
            proof {
                assert(arm.type_cards@ =~= variants@[k as int]@);
            }
            match arm.next_range_high() {
                Some(next) => {
                    range_high = next;
                    arms.push(arm);
                },
                None => {
                    proof {
                        lemma_counts_grow(variants@, (k + 1) as nat, n as nat);
                    }
                    return None;
                },
            }
        }
        k += 1;
    }
    match offset.checked_add(range_high) {
        Some(_) => Some(arms),
        None => None,
    }
}

/// A variant and what comes before it stay within the cardinality of the
/// type.
pub proof fn lemma_arm_within(variants: Seq<Vec<usize>>, k: int)
    requires
        0 <= k < variants.len(),
    ensures
        arm_start(variants, k) + arm_size(variants[k]@) <= sum_cardinality(variants),
{
    lemma_counts_grow(variants, (k + 1) as nat, variants.len());
    if variants[k]@.len() == 0 {
        assert(arm_size(variants[k]@) == 1);
    }
}

/// The code of the value of variant `k` whose fields have the codes
/// `digits`.
pub open spec fn sum_code(variants: Seq<Vec<usize>>, k: int, digits: Seq<usize>) -> nat {
    arm_start(variants, k) + radix_value(variants[k]@, digits, 0)
}

/// Two values of a sum type that have the same code are the same variant
/// with the same field codes.
pub proof fn lemma_sum_code_unique(
    variants: Seq<Vec<usize>>,
    j: int,
    digits_j: Seq<usize>,
    k: int,
    digits_k: Seq<usize>,
)
    requires
        0 <= j < variants.len(),
        0 <= k < variants.len(),
        valid_digits(variants[j]@, digits_j),
        valid_digits(variants[k]@, digits_k),
        sum_code(variants, j, digits_j) == sum_code(variants, k, digits_k),
    ensures
        j == k,
        digits_j == digits_k,
{
    let x = sum_code(variants, j, digits_j);
    crate::radix::lemma_radix_below_product(variants[j]@, digits_j);
    crate::radix::lemma_radix_below_product(variants[k]@, digits_k);
    if j < k {
        lemma_arms_disjoint(variants, j, k, x);
    } else if k < j {
        lemma_arms_disjoint(variants, k, j, x);
    }
    assert forall|i: int| 0 <= i < digits_j.len() implies digits_j[i] == digits_k[i] by {
        crate::radix::lemma_digits_of_radix_value(variants[j]@, digits_j, i as nat);
        crate::radix::lemma_digits_of_radix_value(variants[j]@, digits_k, i as nat);
    }
    assert(digits_j =~= digits_k);
}

/// The codec of a sum type: its variants, and where each of them lies
/// among the codes.
#[derive(Debug)]
pub struct SumLayout {
    variants: Vec<Vec<usize>>,
    arms: Vec<MatchArm>,
    num_variants: usize,
}

impl SumLayout {
    /// The variants, each as the cardinalities of its fields.
    pub closed spec fn view(&self) -> Seq<Vec<usize>> {
        self.variants@
    }

    /// The arms lay the variants out, and the cardinality is that of the
    /// type.
    pub closed spec fn wf(&self) -> bool {
        &&& is_layout(self.arms@, self.variants@)
        &&& self.num_variants as nat == sum_cardinality(self.variants@)
    }

    /// The number of values of the type.
    pub closed spec fn spec_num_variants(&self) -> usize {
        self.num_variants
    }

    /// What `wf` says of the cardinality.
    pub proof fn lemma_wf(&self)
        requires
            self.wf(),
        ensures
            self.spec_num_variants() as nat == sum_cardinality(self@),
            forall|k: int| 0 <= k < self@.len() ==> products_fit(#[trigger] self@[k]@),
    {
        assert forall|k: int| 0 <= k < self@.len() implies products_fit(#[trigger] self@[k]@) by {
            assert(self.arms@[k].describes(self.variants@, k));
        }
    }

    /// The codec of the sum type with the given variants. Nothing is
    /// returned where the number of values of a variant, or of the type,
    /// does not fit in a `usize`.
    pub fn new(variants: Vec<Vec<usize>>) -> (r: Option<Self>)
        ensures
            r.is_some() <==> sum_cardinality(variants@) <= usize::MAX && forall|k: int|
                0 <= k < variants@.len() ==> products_fit(#[trigger] variants@[k]@),
            r.is_some() ==> r.unwrap().wf() && r.unwrap()@ == variants@,
    {
        match all_variants_of(variants.as_slice()) {
            Some(arms) => {
                let n = arms.len();
                let mut total: usize = 0;
                let mut k: usize = 0;
                while k < n
                    invariant
                        n == arms@.len(),
                        is_layout(arms@, variants@),
                        k <= n,
                        total as nat == units_before(variants@, k as nat)
                            + data_before(variants@, k as nat),
                    decreases n - k,
                {
                    proof {
                        lemma_counts_grow(variants@, (k + 1) as nat, n as nat);
                        assert(arms@[k as int].describes(variants@, k as int));
                    }
                    let size = arms[k].num_variants();
                    total = total + size.unwrap();
                    k += 1;
                }
                Some(SumLayout { variants, arms, num_variants: total })
            },
            None => None,
        }
    }

    /// The number of values of the type.
    #[verifier::when_used_as_spec(spec_num_variants)]
    pub fn num_variants(&self) -> (r: usize)
        ensures
            r == self.spec_num_variants(),
    {
        self.num_variants
    }

    /// The code of the value of variant `variant` whose fields have the
    /// codes `digits`.
    pub fn to_discr(&self, variant: usize, digits: &[usize]) -> (r: usize)
        requires
            self.wf(),
            variant < self@.len(),
            valid_digits(self@[variant as int]@, digits@),
        ensures
            r as nat == sum_code(self@, variant as int, digits@),
            r < self.spec_num_variants(),
    {
        proof {
            lemma_arm_within(self.variants@, variant as int);
            assert(self.arms@[variant as int].describes(self.variants@, variant as int));
        }
        self.arms[variant].to_discr(digits)
    }

    /// The variant of the value that has the code `x`, and the codes of its
    /// fields; nothing where `x` is not below the number of values.
    pub fn from_discr(&self, x: usize) -> (r: Option<(usize, Vec<usize>)>)
        requires
            self.wf(),
        ensures
            r.is_some() <==> x < self.spec_num_variants(),
            r.is_some() ==> {
                let (variant, digits) = r.unwrap();
                &&& variant < self@.len()
                &&& valid_digits(self@[variant as int]@, digits@)
                &&& sum_code(self@, variant as int, digits@) == x
            },
    {
        let n = self.arms.len();
        let mut k: usize = 0;
        while k < n
            invariant
                self.wf(),
                n == self.arms@.len(),
                k <= n,
                forall|j: int| 0 <= j < k ==> !arm_covers(self.variants@, j, x as nat),
            decreases n - k,
        {
            proof {
                lemma_arm_within(self.variants@, k as int);
                assert(self.arms@[k as int].describes(self.variants@, k as int));
            }
            match self.arms[k].from_discr(x) {
                Some(digits) => {
                    return Some((k, digits));
                },
                None => {},
            }
            k += 1;
        }
        proof {
            if x < self.num_variants {
                let j = lemma_arms_cover(self.variants@, x as nat, n as nat);
                assert(false);
            }
        }
        None
    }
}

} // verus!
