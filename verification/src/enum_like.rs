//! The codec contract: a bijection between the values of a type and the
//! integers below its cardinality, together with the codecs of the built-in
//! sum and product types.

use vstd::prelude::*;

verus! {

/// A type with finitely many values, each of which has a code in
/// `[0, NUM_VARIANTS)`.
///
/// `encode` and `decode` are the mathematical codec. `to_discr` and
/// `from_discr` compute them, and their contracts carry the two laws that make
/// the codec a bijection between the values of the type and the codes:
/// decoding the code of a value gives the value back, and encoding the value
/// of a code gives the code back.
///
/// A composite type computes `NUM_VARIANTS` from the cardinalities of its
/// parts. The type is `well_formed` when none of these computations leaves
/// the range of `usize`; only then do the machine functions agree with the
/// model.
///
/// An implementation states its own `encode`, `decode` and `well_formed`,
/// and proves its `to_discr` and `from_discr` against them.
pub trait EnumLike: Sized {
    /// `NUM_VARIANTS`, and every cardinality it was computed from, fits in a
    /// `usize`.
    open spec fn well_formed() -> bool {
        true
    }

    /// The code of a value.
    open spec fn encode(self) -> nat {
        0
    }

    /// The value of a code. Only codes below `NUM_VARIANTS` are meaningful.
    open spec fn decode(i: nat) -> Self {
        arbitrary()
    }

    /// The number of variants of this type.
    const NUM_VARIANTS: usize;

    /// Converts a value to its code.
    fn to_discr(self) -> (r: usize)
        requires
            Self::well_formed(),
        ensures
            r as nat == self.encode(),
            r < Self::NUM_VARIANTS,
            Self::decode(r as nat) == self,
    ;

    /// Builds the value that has the given code.
    fn from_discr(x: usize) -> (r: Self)
        requires
            Self::well_formed(),
            x < Self::NUM_VARIANTS,
        ensures
            r == Self::decode(x as nat),
            r.encode() == x as nat,
    ;
}

impl EnumLike for () {
    open spec fn well_formed() -> bool {
        true
    }

    open spec fn encode(self) -> nat {
        0
    }

    open spec fn decode(i: nat) -> Self {
        ()
    }

    const NUM_VARIANTS: usize = 1;

    #[inline(always)]
    fn to_discr(self) -> (r: usize) {
        0
    }

    #[inline(always)]
    fn from_discr(_x: usize) -> (r: Self) {
        ()
    }
}

impl EnumLike for bool {
    open spec fn well_formed() -> bool {
        true
    }

    open spec fn encode(self) -> nat {
        if self {
            1
        } else {
            0
        }
    }

    open spec fn decode(i: nat) -> Self {
        i != 0
    }

    const NUM_VARIANTS: usize = 2;

    #[inline(always)]
    fn to_discr(self) -> (r: usize) {
        if self {
            1
        } else {
            0
        }
    }

    #[inline(always)]
    fn from_discr(x: usize) -> (r: Self) {
        x != 0
    }
}

/// `None` is the one alternative without data and takes code 0; `Some(x)`
/// follows with the code of `x` plus one.
impl<T: EnumLike> EnumLike for Option<T> {
    open spec fn well_formed() -> bool {
        T::well_formed() && 1 + T::NUM_VARIANTS <= usize::MAX
    }

    open spec fn encode(self) -> nat {
        match self {
            None => 0,
            Some(x) => 1 + x.encode(),
        }
    }

    open spec fn decode(i: nat) -> Self {
        if i == 0 {
            None
        } else {
            Some(T::decode((i - 1) as nat))
        }
    }

    const NUM_VARIANTS: usize = 1 + T::NUM_VARIANTS;

    #[inline(always)]
    fn to_discr(self) -> (r: usize) {
        match self {
            None => 0,
            Some(x) => 1 + x.to_discr(),
        }
    }

    #[inline(always)]
    fn from_discr(x: usize) -> (r: Self) {
        if x == 0 {
            None
        } else {
            Some(T::from_discr(x - 1))
        }
    }
}

/// `Ok` comes first, with the codes of its payload; `Err` follows, offset by
/// the cardinality of the `Ok` payload.
impl<T: EnumLike, S: EnumLike> EnumLike for Result<T, S> {
    open spec fn well_formed() -> bool {
        T::well_formed() && S::well_formed() && T::NUM_VARIANTS + S::NUM_VARIANTS <= usize::MAX
    }

    open spec fn encode(self) -> nat {
        match self {
            Ok(x) => x.encode(),
            Err(x) => T::NUM_VARIANTS as nat + x.encode(),
        }
    }

    open spec fn decode(i: nat) -> Self {
        if i < T::NUM_VARIANTS {
            Ok(T::decode(i))
        } else {
            Err(S::decode((i - T::NUM_VARIANTS) as nat))
        }
    }

    const NUM_VARIANTS: usize = T::NUM_VARIANTS + S::NUM_VARIANTS;

    #[inline(always)]
    fn to_discr(self) -> (r: usize) {
        match self {
            Ok(x) => x.to_discr(),
            Err(x) => T::NUM_VARIANTS + x.to_discr(),
        }
    }

    #[inline(always)]
    fn from_discr(x: usize) -> (r: Self) {
        if x < T::NUM_VARIANTS {
            Ok(T::from_discr(x))
        } else {
            Err(S::from_discr(x - T::NUM_VARIANTS))
        }
    }
}

impl<T: EnumLike> EnumLike for (T,) {
    open spec fn well_formed() -> bool {
        T::well_formed()
    }

    open spec fn encode(self) -> nat {
        self.0.encode()
    }

    open spec fn decode(i: nat) -> Self {
        (T::decode(i),)
    }

    const NUM_VARIANTS: usize = T::NUM_VARIANTS;

    #[inline(always)]
    fn to_discr(self) -> (r: usize) {
        self.0.to_discr()
    }

    #[inline(always)]
    fn from_discr(x: usize) -> (r: Self) {
        (T::from_discr(x),)
    }
}

/// The code of a pair is a two-digit number in mixed radix: the first field is
/// the low digit, in base `T::NUM_VARIANTS`, and the second field is the high
/// digit. Every other product type is built from this one.
impl<T: EnumLike, S: EnumLike> EnumLike for (T, S) {
    open spec fn well_formed() -> bool {
        T::well_formed() && S::well_formed() && T::NUM_VARIANTS * S::NUM_VARIANTS <= usize::MAX
    }

    open spec fn encode(self) -> nat {
        self.0.encode() + self.1.encode() * (T::NUM_VARIANTS as nat)
    }

    open spec fn decode(i: nat) -> Self {
        (T::decode(i % (T::NUM_VARIANTS as nat)), S::decode(i / (T::NUM_VARIANTS as nat)))
    }

    const NUM_VARIANTS: usize = T::NUM_VARIANTS * S::NUM_VARIANTS;

    fn to_discr(self) -> (r: usize) {
        let low = self.0.to_discr();
        let high = self.1.to_discr();
        proof {
            lemma_mixed_radix_bound(
                low as nat,
                high as nat,
                T::NUM_VARIANTS as nat,
                S::NUM_VARIANTS as nat,
            );
            lemma_mixed_radix_digits(low as nat, high as nat, T::NUM_VARIANTS as nat);
        }
        low + high * T::NUM_VARIANTS
    }

    fn from_discr(x: usize) -> (r: Self) {
        proof {
            lemma_mixed_radix_split(x as nat, T::NUM_VARIANTS as nat, S::NUM_VARIANTS as nat);
        }
        (T::from_discr(x % T::NUM_VARIANTS), S::from_discr(x / T::NUM_VARIANTS))
    }
}

/// A two-digit number in mixed radix is below the product of the two bases,
/// and so is its high part alone.
pub proof fn lemma_mixed_radix_bound(low: nat, high: nat, n: nat, m: nat)
    by (nonlinear_arith)
    requires
        low < n,
        high < m,
    ensures
        low + high * n < n * m,
        high * n <= low + high * n,
{
}

/// Division and remainder by the low base recover the two digits.
pub proof fn lemma_mixed_radix_digits(low: nat, high: nat, n: nat)
    requires
        low < n,
    ensures
        (low + high * n) % n == low,
        (low + high * n) / n == high,
{
    vstd::arithmetic::div_mod::lemma_fundamental_div_mod_converse(
        (low + high * n) as int,
        n as int,
        high as int,
        low as int,
    );
}

/// A number below the product of two bases splits into a low digit below the
/// first base and a high digit below the second, and is their mixed-radix sum.
pub proof fn lemma_mixed_radix_split(i: nat, n: nat, m: nat)
    requires
        i < n * m,
    ensures
        n > 0,
        i % n < n,
        i / n < m,
        i % n + (i / n) * n == i,
{
    assert(n > 0) by (nonlinear_arith)
        requires
            i < n * m,
    ;
    vstd::arithmetic::div_mod::lemma_fundamental_div_mod(i as int, n as int);
    assert(i / n < m) by (nonlinear_arith)
        requires
            i < n * m,
            n > 0,
            i == n * (i / n) + i % n,
            0 <= i % n,
    ;
    assert((i / n) * n == n * (i / n)) by (nonlinear_arith);
}

/// The codec of `T` is a bijection between the values of `T` and the codes
/// below `T::NUM_VARIANTS`: every code of a value is below `NUM_VARIANTS`,
/// decoding the code of a value gives the value back, and encoding the value
/// of a code gives the code back.
pub open spec fn lawful<T: EnumLike>() -> bool {
    &&& forall|v: T| (#[trigger] v.encode()) < T::NUM_VARIANTS && T::decode(v.encode()) == v
    &&& forall|i: nat| i < T::NUM_VARIANTS ==> (#[trigger] T::decode(i)).encode() == i
}

/// The unit type has one value, and its codec is a bijection.
pub proof fn lemma_unit_lawful()
    ensures
        <()>::NUM_VARIANTS == 1,
        lawful::<()>(),
{
}

/// `bool` has two values, and its codec is a bijection.
pub proof fn lemma_bool_lawful()
    ensures
        <bool>::NUM_VARIANTS == 2,
        lawful::<bool>(),
{
}

/// `Option<T>` has one value more than `T`, and its codec is a bijection
/// where that of `T` is one.
pub proof fn lemma_option_lawful<T: EnumLike>()
    requires
        lawful::<T>(),
        <Option<T>>::well_formed(),
    ensures
        <Option<T>>::NUM_VARIANTS == 1 + T::NUM_VARIANTS,
        lawful::<Option<T>>(),
{
    assert forall|v: Option<T>|
        (#[trigger] v.encode()) < <Option<T>>::NUM_VARIANTS && <Option<T>>::decode(v.encode())
            == v by {
        if let Some(x) = v {
            assert(x.encode() < T::NUM_VARIANTS && T::decode(x.encode()) == x);
        }
    }
    assert forall|i: nat| i < <Option<T>>::NUM_VARIANTS
        implies (#[trigger] <Option<T>>::decode(i)).encode() == i by {
        if i != 0 {
            assert(T::decode((i - 1) as nat).encode() == (i - 1) as nat);
        }
    }
}

/// `Result<T, S>` has as many values as `T` and `S` together, and its codec
/// is a bijection where those of `T` and `S` are.
pub proof fn lemma_result_lawful<T: EnumLike, S: EnumLike>()
    requires
        lawful::<T>(),
        lawful::<S>(),
        <Result<T, S>>::well_formed(),
    ensures
        <Result<T, S>>::NUM_VARIANTS == T::NUM_VARIANTS + S::NUM_VARIANTS,
        lawful::<Result<T, S>>(),
{
    assert forall|v: Result<T, S>|
        (#[trigger] v.encode()) < <Result<T, S>>::NUM_VARIANTS
            && <Result<T, S>>::decode(v.encode()) == v by {
        match v {
            Ok(x) => {
                assert(x.encode() < T::NUM_VARIANTS && T::decode(x.encode()) == x);
            },
            Err(x) => {
                assert(x.encode() < S::NUM_VARIANTS && S::decode(x.encode()) == x);
            },
        }
    }
    assert forall|i: nat| i < <Result<T, S>>::NUM_VARIANTS
        implies (#[trigger] <Result<T, S>>::decode(i)).encode() == i by {
        if i < T::NUM_VARIANTS {
            assert(T::decode(i).encode() == i);
        } else {
            assert(S::decode((i - T::NUM_VARIANTS) as nat).encode()
                == (i - T::NUM_VARIANTS) as nat);
        }
    }
}

/// `(T,)` has as many values as `T`, and its codec is a bijection where
/// that of `T` is one.
pub proof fn lemma_tuple1_lawful<T: EnumLike>()
    requires
        lawful::<T>(),
    ensures
        <(T,)>::NUM_VARIANTS == T::NUM_VARIANTS,
        lawful::<(T,)>(),
{
    assert forall|v: (T,)|
        (#[trigger] v.encode()) < <(T,)>::NUM_VARIANTS && <(T,)>::decode(v.encode()) == v by {
        assert(v.0.encode() < T::NUM_VARIANTS && T::decode(v.0.encode()) == v.0);
    }
    assert forall|i: nat| i < <(T,)>::NUM_VARIANTS implies (#[trigger] <(T,)>::decode(i)).encode()
        == i by {
        assert(T::decode(i).encode() == i);
    }
}

/// `(T, S)` has as many values as the product of those of `T` and `S`, and
/// its codec is a bijection where those of `T` and `S` are.
pub proof fn lemma_pair_lawful<T: EnumLike, S: EnumLike>()
    requires
        lawful::<T>(),
        lawful::<S>(),
        <(T, S)>::well_formed(),
    ensures
        <(T, S)>::NUM_VARIANTS == T::NUM_VARIANTS * S::NUM_VARIANTS,
        lawful::<(T, S)>(),
{
    let n = T::NUM_VARIANTS as nat;
    let m = S::NUM_VARIANTS as nat;
    assert forall|v: (T, S)|
        (#[trigger] v.encode()) < <(T, S)>::NUM_VARIANTS && <(T, S)>::decode(v.encode()) == v by {
        assert(v.0.encode() < T::NUM_VARIANTS && T::decode(v.0.encode()) == v.0);
        assert(v.1.encode() < S::NUM_VARIANTS && S::decode(v.1.encode()) == v.1);
        lemma_mixed_radix_bound(v.0.encode(), v.1.encode(), n, m);
        lemma_mixed_radix_digits(v.0.encode(), v.1.encode(), n);
    }
    assert forall|i: nat| i < <(T, S)>::NUM_VARIANTS
        implies (#[trigger] <(T, S)>::decode(i)).encode() == i by {
        lemma_mixed_radix_split(i, n, m);
        assert(T::decode(i % n).encode() == i % n);
        assert(S::decode(i / n).encode() == i / n);
    }
}

} // verus!
