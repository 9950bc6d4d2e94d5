//! The field abstraction.
//!
//! Witness solving, lowering and checking are generic over [`ZkField`]
//! rather than tied to one concrete field. Each operation is specified by a
//! spec function of the trait, so generic code states its results in terms of
//! the field's own operations; the algebraic laws that generic proofs need are
//! proof functions of the trait, which every implementation in this crate
//! proves.
use vstd::prelude::*;
use vstd::string::StringSliceAdditionalSpecFns;

verus! {

/// `true` for the ASCII bytes `'0'..='9'`.
pub open spec fn is_digit_byte(b: u8) -> bool {
    48 <= b <= 57
}

/// The digits of a decimal text: everything after an optional leading `-`.
pub open spec fn decimal_digits(bytes: Seq<u8>) -> Seq<u8> {
    if bytes.len() > 0 && bytes[0] == 45 {
        bytes.drop_first()
    } else {
        bytes
    }
}

/// Whether a byte string is a decimal integer with an optional leading `-`.
pub open spec fn is_decimal_text(bytes: Seq<u8>) -> bool {
    let digits = decimal_digits(bytes);
    digits.len() > 0 && forall|i: int| 0 <= i < digits.len() ==> is_digit_byte(#[trigger] digits[i])
}

/// Horner's method over a string of decimal digits, in the field `F`.
pub open spec fn horner_decimal<F: ZkField>(digits: Seq<u8>) -> F
    decreases digits.len(),
{
    if digits.len() == 0 {
        F::spec_zero()
    } else {
        horner_decimal::<F>(digits.drop_last()).spec_mul(F::spec_from_u64(10)).spec_add(
            F::spec_from_u64((digits.last() - 48) as u64),
        )
    }
}

/// The element a decimal text denotes under Horner's method (meaningful when
/// `is_decimal_text(bytes)`): the digits, negated after a leading `-`.
pub open spec fn decimal_value<F: ZkField>(bytes: Seq<u8>) -> F {
    let magnitude = horner_decimal::<F>(decimal_digits(bytes));
    if bytes.len() > 0 && bytes[0] == 45 {
        magnitude.spec_neg()
    } else {
        magnitude
    }
}

/// Parse a decimal string, which may carry a leading `-`, by Horner's method,
/// so arbitrary lengths work. The IR encodes constants as decimal strings
/// because field elements routinely exceed 64 bits.
#[verifier::spinoff_prover]
#[verifier::rlimit(40)]
pub fn parse_decimal<F: ZkField>(text: &str) -> (r: Result<F, String>)
    ensures
        r is Ok <==> is_decimal_text(text.spec_bytes()),
        r matches Ok(v) ==> v == decimal_value::<F>(text.spec_bytes()),
{
    let bytes = text.as_bytes();
    let negative = bytes.len() > 0 && bytes[0] == 45u8;
    let start: usize = if negative {
        1
    } else {
        0
    };
    let ghost digits = decimal_digits(bytes@);
    assert(digits =~= bytes@.subrange(start as int, bytes@.len() as int));
    assert(digits.len() == bytes@.len() - start);
    if start >= bytes.len() {
        assert(!is_decimal_text(bytes@));
        return Err(not_decimal_message(text));
    }
    let ten = F::from_u64(10);
    let mut accumulator = F::zero();
    assert(digits.subrange(0, 0) =~= Seq::<u8>::empty());
    let mut i = start;
    while i < bytes.len()
        invariant
            start <= i <= bytes@.len(),
            digits =~= bytes@.subrange(start as int, bytes@.len() as int),
                digits == decimal_digits(bytes@),
                bytes@ == text.spec_bytes(),
                negative == (bytes@.len() > 0 && bytes@[0] == 45),
            ten == F::spec_from_u64(10),
            forall|j: int| 0 <= j < i - start ==> is_digit_byte(#[trigger] digits[j]),
            accumulator == horner_decimal::<F>(digits.subrange(0, i - start)),
        decreases bytes@.len() - i,
    {
        let byte = bytes[i];
        if !(48u8 <= byte && byte <= 57u8) {
            assert(digits[i - start] == byte);
            assert(!is_digit_byte(digits[i - start]));
            assert(!is_decimal_text(bytes@));
            return Err(not_decimal_message(text));
        }
        let ghost before = digits.subrange(0, i - start);
        let ghost after = digits.subrange(0, i + 1 - start);
        assert(after.drop_last() =~= before);
        accumulator = accumulator.mul(ten).add(F::from_u64((byte - 48u8) as u64));
        i = i + 1;
    }
    assert(digits.subrange(0, digits.len() as int) =~= digits);
    Ok(
        if negative {
            accumulator.neg()
        } else {
            accumulator
        },
    )
}


pub proof fn lemma_add_comm<F: ZkField>(a: F, b: F)
    ensures
        a.spec_add(b) == b.spec_add(a),
{
    F::law_add_comm(a, b);
}

pub proof fn lemma_mul_comm<F: ZkField>(a: F, b: F)
    ensures
        a.spec_mul(b) == b.spec_mul(a),
{
    F::law_mul_comm(a, b);
}

pub proof fn lemma_add_assoc<F: ZkField>(a: F, b: F, c: F)
    ensures
        a.spec_add(b).spec_add(c) == a.spec_add(b.spec_add(c)),
{
    F::law_add_assoc(a, b, c);
}

pub proof fn lemma_mul_assoc<F: ZkField>(a: F, b: F, c: F)
    ensures
        a.spec_mul(b).spec_mul(c) == a.spec_mul(b.spec_mul(c)),
{
    F::law_mul_assoc(a, b, c);
}

pub proof fn lemma_distrib<F: ZkField>(a: F, b: F, c: F)
    ensures
        a.spec_mul(b.spec_add(c)) == a.spec_mul(b).spec_add(a.spec_mul(c)),
{
    F::law_distrib(a, b, c);
}

/// Identities and closure: `a + 0 = a`, `a · 1 = a`, `a · 0 = 0 = 0 · a`,
/// `a + (-a) = 0`, `a - b = a + (-b)`, and every result is canonical.
pub proof fn lemma_basics<F: ZkField>(a: F, b: F)
    ensures
        a.wf() ==> a.spec_add(F::spec_zero()) == a,
        a.wf() ==> F::spec_zero().spec_add(a) == a,
        a.wf() ==> a.spec_mul(F::spec_one()) == a,
        a.spec_mul(F::spec_zero()) == F::spec_zero(),
        F::spec_zero().spec_mul(a) == F::spec_zero(),
        a.spec_add(a.spec_neg()) == F::spec_zero(),
        a.spec_sub(b) == a.spec_add(b.spec_neg()),
        a.spec_add(b).wf(),
        a.spec_mul(b).wf(),
        a.spec_sub(b).wf(),
        a.spec_neg().wf(),
        F::spec_zero().wf(),
        F::spec_one().wf(),
        F::spec_one() != F::spec_zero(),
{
    F::law_identities(a);
    F::law_closure(a, b);
    F::law_closure(a, b.spec_neg());
    F::law_add_comm(F::spec_zero(), a);
    F::law_mul_comm(F::spec_zero(), a);
}

/// For canonical elements, `a - b = 0` exactly when `a = b`.
pub proof fn lemma_sub_zero_iff<F: ZkField>(a: F, b: F)
    requires
        a.wf(),
        b.wf(),
    ensures
        (a.spec_sub(b) == F::spec_zero()) <==> (a == b),
{
    let nb = b.spec_neg();
    lemma_basics(a, b);
    lemma_basics(b, a);
    if a.spec_sub(b) == F::spec_zero() {
        // b + (a + (-b)) is b + 0 = b, and also (b + (-b)) + a = 0 + a = a.
        lemma_add_comm(a, nb);
        lemma_add_assoc(b, nb, a);
        lemma_basics(a, a);
    }
}

/// `-x` is `x · (-1)`.
pub proof fn lemma_neg_is_times_minus_one<F: ZkField>(x: F)
    requires
        x.wf(),
    ensures
        x.spec_neg() == x.spec_mul(F::spec_one().spec_neg()),
{
    let one = F::spec_one();
    let m = x.spec_mul(one.spec_neg());
    lemma_basics(x, one);
    lemma_basics(x, one.spec_neg());
    lemma_basics(one, one);
    // x + m = x·1 + x·(-1) = x·(1 + (-1)) = x·0 = 0
    lemma_distrib(x, one, one.spec_neg());
    lemma_basics(x.spec_mul(one.spec_neg()), one);
    // -x = -x + (x + m) = (-x + x) + m = m
    lemma_add_cancel(x, m);
}

/// If `x + m = 0` then `m = -x`.
pub proof fn lemma_add_cancel<F: ZkField>(x: F, m: F)
    requires
        m.wf(),
        x.spec_add(m) == F::spec_zero(),
    ensures
        m == x.spec_neg(),
{
    let n = x.spec_neg();
    lemma_basics(x, m);
    lemma_basics(n, m);
    lemma_basics(m, m);
    lemma_add_assoc(n, x, m);
    lemma_add_comm(n, x);
}

/// The message for a text that is not a decimal integer.
#[verifier::external_body]
pub(crate) fn not_decimal_message(text: &str) -> String {
    format!("not a decimal integer: {text:?}")
}

/// A finite field, as the compiler and the prover use it.
pub trait ZkField: Copy + PartialEq + core::fmt::Debug + Sized {
    spec fn spec_zero() -> Self;

    spec fn spec_one() -> Self;

    spec fn spec_add(self, other: Self) -> Self;

    spec fn spec_sub(self, other: Self) -> Self;

    spec fn spec_mul(self, other: Self) -> Self;

    spec fn spec_neg(self) -> Self;

    /// `None` exactly for zero.
    spec fn spec_inverse(self) -> Option<Self>;

    spec fn spec_from_u64(value: u64) -> Self;

    /// The canonical decimal representation.
    spec fn spec_to_decimal(self) -> Seq<char>;

    /// The element a decimal text denotes (meaningful when
    /// `is_decimal_text(bytes)`).
    spec fn spec_decimal_value(bytes: Seq<u8>) -> Self;

    /// Whether a value is a canonical element (every value an operation
    /// returns is one).
    spec fn wf(self) -> bool;

    proof fn law_add_comm(a: Self, b: Self)
        ensures
            a.spec_add(b) == b.spec_add(a),
    ;

    proof fn law_mul_comm(a: Self, b: Self)
        ensures
            a.spec_mul(b) == b.spec_mul(a),
    ;

    proof fn law_add_assoc(a: Self, b: Self, c: Self)
        ensures
            a.spec_add(b).spec_add(c) == a.spec_add(b.spec_add(c)),
    ;

    proof fn law_mul_assoc(a: Self, b: Self, c: Self)
        ensures
            a.spec_mul(b).spec_mul(c) == a.spec_mul(b.spec_mul(c)),
    ;

    proof fn law_distrib(a: Self, b: Self, c: Self)
        ensures
            a.spec_mul(b.spec_add(c)) == a.spec_mul(b).spec_add(a.spec_mul(c)),
    ;

    /// Zero and one are the identities, zero annihilates, and `-a` is the
    /// additive inverse.
    proof fn law_identities(a: Self)
        ensures
            a.wf() ==> a.spec_add(Self::spec_zero()) == a,
            a.wf() ==> a.spec_mul(Self::spec_one()) == a,
            a.spec_mul(Self::spec_zero()) == Self::spec_zero(),
            a.spec_add(a.spec_neg()) == Self::spec_zero(),
    ;

    /// Every operation yields a canonical element, subtraction adds the
    /// negation, and the field is not trivial.
    proof fn law_closure(a: Self, b: Self)
        ensures
            a.spec_sub(b) == a.spec_add(b.spec_neg()),
            a.spec_add(b).wf(),
            a.spec_mul(b).wf(),
            a.spec_neg().wf(),
            Self::spec_zero().wf(),
            Self::spec_one().wf(),
            Self::spec_one() != Self::spec_zero(),
    ;

    /// The element a decimal text denotes is canonical.
    proof fn lemma_decimal_wf(bytes: Seq<u8>)
        ensures
            Self::spec_decimal_value(bytes).wf(),
    ;

    /// The canonical decimal representation is a nonempty string of ASCII
    /// digits.
    proof fn lemma_decimal_digits(a: Self)
        ensures
            a.spec_to_decimal().len() > 0,
            forall|i: int| 0 <= i < a.spec_to_decimal().len() ==> '0' <= #[trigger] a.spec_to_decimal()[i] <= '9',
    ;

    /// An element made from an integer is canonical.
    proof fn lemma_from_u64_wf(v: u64)
        ensures
            Self::spec_from_u64(v).wf(),
    ;

    /// An inverse, where there is one, is canonical.
    proof fn lemma_inverse_wf(a: Self)
        ensures
            a.spec_inverse() matches Some(v) ==> v.wf(),
            a.wf() ==> (a.spec_inverse() is Some <==> a != Self::spec_zero()),
    ;

    fn zero() -> (r: Self)
        ensures
            r == Self::spec_zero(),
    ;

    fn one() -> (r: Self)
        ensures
            r == Self::spec_one(),
    ;

    fn add(self, other: Self) -> (r: Self)
        ensures
            r == self.spec_add(other),
    ;

    fn sub(self, other: Self) -> (r: Self)
        ensures
            r == self.spec_sub(other),
    ;

    fn mul(self, other: Self) -> (r: Self)
        ensures
            r == self.spec_mul(other),
    ;

    fn neg(self) -> (r: Self)
        ensures
            r == self.spec_neg(),
    ;

    fn inverse(self) -> (r: Option<Self>)
        ensures
            r == self.spec_inverse(),
    ;

    /// Element equality, the `==` of generic code.
    fn equals(self, other: Self) -> (r: bool)
        ensures
            r == (self == other),
    ;

    fn is_zero(self) -> (r: bool)
        ensures
            r == (self == Self::spec_zero()),
    {
        self.equals(Self::zero())
    }

    /// Parse a decimal string, which may carry a leading `-`.
    fn from_decimal(text: &str) -> (r: Result<Self, String>)
        ensures
            r is Ok <==> is_decimal_text(text.spec_bytes()),
            r matches Ok(v) ==> v == Self::spec_decimal_value(text.spec_bytes()),
    ;

    fn from_u64(value: u64) -> (r: Self)
        ensures
            r == Self::spec_from_u64(value),
    ;

    /// Canonical decimal representation.
    fn to_decimal(self) -> (r: String)
        ensures
            r@ == self.spec_to_decimal(),
    ;
}

/// A field whose multiplicative group has a large power-of-two subgroup, so
/// that radix-2 FFTs exist.
pub trait TwoAdicField: ZkField {
    /// The largest `k` with a primitive `2^k`-th root of unity.
    spec fn spec_two_adicity() -> nat;

    /// The chosen generator of the subgroup of order `2^bits`.
    spec fn spec_two_adic_generator(bits: u32) -> Self;

    /// The generator of order `2^bits` is canonical, and primitive: its
    /// `2^(bits-1)`-th power is `-1`.
    proof fn lemma_generator_primitive(bits: u32)
        requires
            1 <= bits <= Self::spec_two_adicity(),
        ensures
            Self::spec_two_adic_generator(bits).wf(),
            crate::fft::fpow(Self::spec_two_adic_generator(bits), crate::merkle::two_pow((bits - 1) as nat))
                == Self::spec_one().spec_neg(),
    ;

    /// Squaring the generator of order `2^bits` gives the generator of order
    /// `2^(bits-1)`: the subgroups are nested.
    proof fn lemma_generator_square(bits: u32)
        requires
            1 <= bits <= Self::spec_two_adicity(),
        ensures
            Self::spec_two_adic_generator(bits).spec_mul(Self::spec_two_adic_generator(bits))
                == Self::spec_two_adic_generator((bits - 1) as u32),
    ;

    /// The generator of order `2^bits` has an inverse, and that inverse is
    /// primitive of the same order: its `2^(bits-1)`-th power is `-1`.
    proof fn lemma_generator_inverse_primitive(bits: u32)
        requires
            1 <= bits <= Self::spec_two_adicity(),
        ensures
            Self::spec_two_adic_generator(bits).spec_inverse() is Some,
            crate::fft::fpow(Self::spec_two_adic_generator(bits).spec_inverse()->0, crate::merkle::two_pow((bits - 1) as nat))
                == Self::spec_one().spec_neg(),
    ;

    /// The size `2^k` of a subgroup that exists is a canonical nonzero
    /// element.
    proof fn lemma_subgroup_size_nonzero(k: u32)
        requires
            k <= Self::spec_two_adicity(),
        ensures
            Self::spec_from_u64(crate::merkle::two_pow(k as nat) as u64).wf(),
            Self::spec_from_u64(crate::merkle::two_pow(k as nat) as u64) != Self::spec_zero(),
    ;

    fn two_adicity() -> (r: u32)
        ensures
            r == Self::spec_two_adicity(),
    ;

    fn two_adic_generator(bits: u32) -> (r: Self)
        requires
            bits <= Self::spec_two_adicity(),
        ensures
            r == Self::spec_two_adic_generator(bits),
    ;
}


/// Over Goldilocks the element a decimal text denotes is what Horner's
/// method computes over its digits, negated after a leading `-`.
pub proof fn law_goldilocks_decimal_value_is_horner(bytes: Seq<u8>)
    requires
        is_decimal_text(bytes),
    ensures
        crate::goldilocks::Goldilocks::spec_decimal_value(bytes) == decimal_value::<crate::goldilocks::Goldilocks>(bytes),
{
    let digits = decimal_digits(bytes);
    let n = crate::goldilocks::digits_nat(digits);
    assert forall|i: int| 0 <= i < digits.len() implies is_digit_byte(#[trigger] digits[i]) by {}
    crate::goldilocks::lemma_horner_digits(digits);
    crate::goldilocks::Goldilocks::lemma_from_nat(n);
}


/// Over Goldilocks a leading `-` negates: the text `-d` denotes the
/// negation of what the digits `d` denote.
pub proof fn law_goldilocks_decimal_negation(digits: Seq<u8>)
    requires
        digits.len() > 0,
        forall|i: int| 0 <= i < digits.len() ==> is_digit_byte(#[trigger] digits[i]),
    ensures
        crate::goldilocks::Goldilocks::spec_decimal_value(seq![45u8] + digits)
            == crate::goldilocks::Goldilocks::spec_decimal_value(digits).spec_neg(),
{
    let neg = seq![45u8] + digits;
    assert(neg.drop_first() =~= digits);
    assert(decimal_digits(neg) == digits);
    assert(!is_digit_byte(45u8));
    assert(decimal_digits(digits) == digits);
    law_goldilocks_decimal_value_is_horner(neg);
    law_goldilocks_decimal_value_is_horner(digits);
}

} // verus!
