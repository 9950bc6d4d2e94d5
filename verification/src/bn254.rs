//! The BN254 scalar field, the field of the R1CS and Groth16 path.
//!
//! An element is held as the four little-endian 64-bit limbs of its canonical
//! value `< r`. The arithmetic itself is arkworks': each operation converts
//! the limbs to an `ark_bn254::Fr`, operates, and converts back.
use ark_ff::{BigInt, Field, PrimeField};
use vstd::arithmetic::div_mod::*;
use vstd::arithmetic::mul::*;
use vstd::arithmetic::power::*;
use vstd::prelude::*;

use crate::field::{decimal_digits, is_decimal_text, is_digit_byte, ZkField};
use crate::goldilocks::{digits_nat, lemma_nat_to_decimal_digits, nat_to_decimal};
use vstd::string::StringSliceAdditionalSpecFns;

verus! {

/// The BN254 scalar modulus `r`.
pub open spec fn r() -> nat {
    21888242871839275222246405745257275088548364400416034343698204186575808495617nat
}

/// `2^64`, the limb base.
pub open spec fn base() -> nat {
    0x1_0000_0000_0000_0000
}

/// The integer four little-endian limbs denote.
pub open spec fn limbs_value(l0: u64, l1: u64, l2: u64, l3: u64) -> nat {
    l0 as nat + base() * (l1 as nat + base() * (l2 as nat + base() * l3 as nat))
}

/// An element of the BN254 scalar field, always stored reduced (`value < r`).
#[derive(Clone, Copy, PartialEq, Eq, Structural, Hash, Debug)]
pub struct Fr {
    l0: u64,
    l1: u64,
    l2: u64,
    l3: u64,
}

/// The element whose limbs are those of `n` (meaningful for `n < 2^256`).
pub open spec fn limbs_of(n: nat) -> Fr {
    Fr::from_limbs_spec(
        (n % base()) as u64,
        ((n / base()) % base()) as u64,
        ((n / base() / base()) % base()) as u64,
        (n / base() / base() / base()) as u64,
    )
}

/// The canonical element of value `n mod r`.
pub open spec fn from_nat(n: nat) -> Fr {
    limbs_of(n % r())
}

/// Splitting off one limb: `x = x mod 2^64 + 2^64 · (x / 2^64)`, with the
/// limb below `2^64`.
proof fn lemma_split(x: nat)
    ensures
        x == (x % base()) + base() * (x / base()),
        x % base() < base(),
        x / base() <= x,
{
    lemma_fundamental_div_mod(x as int, base() as int);
    lemma_mod_bound(x as int, base() as int);
    let q = x / base();
    let rem = x % base();
    assert(q <= x) by (nonlinear_arith)
        requires
            x == rem + base() * q,
            rem >= 0,
            q >= 0,
            base() >= 1,
    ;
}

/// A limb decomposition is unique: the lowest limb is the value mod `2^64`.
proof fn lemma_split_unique(x: nat, low: nat, high: nat)
    requires
        low < base(),
        x == low + base() * high,
    ensures
        low == x % base(),
        high == x / base(),
{
    lemma_fundamental_div_mod_converse(x as int, base() as int, high as int, low as int);
}

impl Fr {
    pub closed spec fn from_limbs_spec(l0: u64, l1: u64, l2: u64, l3: u64) -> Fr {
        Fr { l0, l1, l2, l3 }
    }

    /// The integer the limbs denote.
    pub closed spec fn raw(self) -> nat {
        limbs_value(self.l0, self.l1, self.l2, self.l3)
    }

    /// The field value of an element, in `[0, r)`.
    pub closed spec fn value(self) -> nat {
        self.raw() % r()
    }

    /// Whether the stored limbs are the canonical ones.
    pub closed spec fn canonical(self) -> bool {
        self.raw() < r()
    }

    #[verifier::type_invariant]
    spec fn stored_reduced(self) -> bool {
        self.raw() < r()
    }

    /// Limbs of a number below `2^256` denote it.
    proof fn lemma_limbs_of(n: nat)
        requires
            n < base() * base() * base() * base(),
        ensures
            limbs_of(n).raw() == n,
    {
        let b = base();
        let q1 = n / b;
        let q2 = q1 / b;
        let q3 = q2 / b;
        lemma_split(n);
        lemma_split(q1);
        lemma_split(q2);
        assert(n / b / b == q2);
        let r0 = n % b;
        let r1 = q1 % b;
        let r2 = q2 % b;
        assert(q3 < b) by (nonlinear_arith)
            requires
                n == r0 + b * q1,
                q1 == r1 + b * q2,
                q2 == r2 + b * q3,
                n < b * b * b * b,
                b > 0,
                r0 >= 0,
                r1 >= 0,
                r2 >= 0,
                q3 >= 0,
        ;
        let f = limbs_of(n);
        assert(f.l0 as nat == n % b);
        assert(f.l1 as nat == q1 % b);
        assert(f.l2 as nat == q2 % b);
        assert(f.l3 as nat == q3);
    }

    /// Equal denotations mean equal limbs.
    proof fn lemma_raw_injective(a: Fr, b: Fr)
        requires
            a.raw() == b.raw(),
        ensures
            a == b,
    {
        let bb = base();
        let ra = a.l1 as nat + bb * (a.l2 as nat + bb * a.l3 as nat);
        let rb = b.l1 as nat + bb * (b.l2 as nat + bb * b.l3 as nat);
        lemma_split_unique(a.raw(), a.l0 as nat, ra);
        lemma_split_unique(b.raw(), b.l0 as nat, rb);
        let sa = a.l2 as nat + bb * a.l3 as nat;
        let sb = b.l2 as nat + bb * b.l3 as nat;
        lemma_split_unique(ra, a.l1 as nat, sa);
        lemma_split_unique(rb, b.l1 as nat, sb);
        lemma_split_unique(sa, a.l2 as nat, a.l3 as nat);
        lemma_split_unique(sb, b.l2 as nat, b.l3 as nat);
    }

    pub proof fn lemma_from_nat(n: nat)
        ensures
            from_nat(n).value() == n % r(),
            from_nat(n).canonical(),
    {
        lemma_mod_bound(n as int, r() as int);
        assert(r() < base() * base() * base() * base());
        Self::lemma_limbs_of(n % r());
        lemma_small_mod((n % r()) as nat, r());
    }

    /// Two canonical elements are equal exactly when their values are.
    pub proof fn lemma_value_injective(a: Fr, b: Fr)
        requires
            a.canonical(),
            b.canonical(),
        ensures
            (a == b) <==> (a.value() == b.value()),
    {
        lemma_small_mod(a.raw(), r());
        lemma_small_mod(b.raw(), r());
        if a.value() == b.value() {
            Self::lemma_raw_injective(a, b);
        }
    }

    /// A canonical element is the canonical element of its value.
    pub proof fn lemma_canonical_from_value(a: Fr)
        requires
            a.canonical(),
        ensures
            from_nat(a.value()) == a,
    {
        Self::lemma_from_nat(a.value());
        Self::lemma_value_injective(from_nat(a.value()), a);
        lemma_small_mod(a.raw(), r());
        lemma_small_mod(a.value(), r());
    }
}

/// `ark_bn254::Fr` addition (`Add`): the canonical sum modulo `r`.
#[verifier::external_body]
fn ark_add(a: Fr, b: Fr) -> (c: Fr)
    ensures
        c == from_nat(a.value() + b.value()),
{
    let x = ark_bn254::Fr::from_bigint(BigInt([a.l0, a.l1, a.l2, a.l3])).unwrap();
    let y = ark_bn254::Fr::from_bigint(BigInt([b.l0, b.l1, b.l2, b.l3])).unwrap();
    let z = (x + y).into_bigint().0;
    Fr { l0: z[0], l1: z[1], l2: z[2], l3: z[3] }
}

/// `ark_bn254::Fr` subtraction (`Sub`): the canonical difference modulo `r`.
#[verifier::external_body]
fn ark_sub(a: Fr, b: Fr) -> (c: Fr)
    ensures
        c == from_nat((a.value() + r() - b.value()) as nat),
{
    let x = ark_bn254::Fr::from_bigint(BigInt([a.l0, a.l1, a.l2, a.l3])).unwrap();
    let y = ark_bn254::Fr::from_bigint(BigInt([b.l0, b.l1, b.l2, b.l3])).unwrap();
    let z = (x - y).into_bigint().0;
    Fr { l0: z[0], l1: z[1], l2: z[2], l3: z[3] }
}

/// `ark_bn254::Fr` multiplication (`Mul`): the canonical product modulo `r`.
#[verifier::external_body]
fn ark_mul(a: Fr, b: Fr) -> (c: Fr)
    ensures
        c == from_nat(a.value() * b.value()),
{
    let x = ark_bn254::Fr::from_bigint(BigInt([a.l0, a.l1, a.l2, a.l3])).unwrap();
    let y = ark_bn254::Fr::from_bigint(BigInt([b.l0, b.l1, b.l2, b.l3])).unwrap();
    let z = (x * y).into_bigint().0;
    Fr { l0: z[0], l1: z[1], l2: z[2], l3: z[3] }
}

/// `ark_bn254::Fr` negation (`Neg`): the canonical `r - a` (zero for zero).
#[verifier::external_body]
fn ark_neg(a: Fr) -> (c: Fr)
    ensures
        c == from_nat((r() - a.value()) as nat),
{
    let x = ark_bn254::Fr::from_bigint(BigInt([a.l0, a.l1, a.l2, a.l3])).unwrap();
    let z = (-x).into_bigint().0;
    Fr { l0: z[0], l1: z[1], l2: z[2], l3: z[3] }
}

/// `ark_ff::Field::inverse` on `ark_bn254::Fr`: `None` for zero, else the
/// inverse, which in a prime field is `a^(r-2)` (Fermat).
#[verifier::external_body]
fn ark_inverse(a: Fr) -> (c: Option<Fr>)
    ensures
        c == (if a.value() == 0 {
            None
        } else {
            Some(from_nat(pow(a.value() as int, (r() - 2) as nat) as nat))
        }),
{
    let x = ark_bn254::Fr::from_bigint(BigInt([a.l0, a.l1, a.l2, a.l3])).unwrap();
    match x.inverse() {
        Some(v) => {
            let z = v.into_bigint().0;
            Some(Fr { l0: z[0], l1: z[1], l2: z[2], l3: z[3] })
        },
        None => None,
    }
}

/// The decimal rendering (`Display`) of an `ark_bn254::Fr`'s canonical
/// integer: the value's digits, most significant first.
#[verifier::external_body]
fn ark_to_decimal(a: Fr) -> (s: String)
    ensures
        s@ == nat_to_decimal(a.value()),
{
    let x = ark_bn254::Fr::from_bigint(BigInt([a.l0, a.l1, a.l2, a.l3])).unwrap();
    x.into_bigint().to_string()
}

impl ZkField for Fr {
    open spec fn spec_zero() -> Self {
        from_nat(0)
    }

    open spec fn spec_one() -> Self {
        from_nat(1)
    }

    open spec fn spec_add(self, other: Self) -> Self {
        from_nat(self.value() + other.value())
    }

    open spec fn spec_sub(self, other: Self) -> Self {
        from_nat((self.value() + r() - other.value()) as nat)
    }

    open spec fn spec_mul(self, other: Self) -> Self {
        from_nat(self.value() * other.value())
    }

    open spec fn spec_neg(self) -> Self {
        from_nat((r() - self.value()) as nat)
    }

    open spec fn spec_inverse(self) -> Option<Self> {
        if self.value() == 0 {
            None
        } else {
            Some(from_nat(pow(self.value() as int, (r() - 2) as nat) as nat))
        }
    }

    open spec fn spec_from_u64(value: u64) -> Self {
        from_nat(value as nat)
    }

    open spec fn spec_to_decimal(self) -> Seq<char> {
        nat_to_decimal(self.value())
    }

    open spec fn spec_decimal_value(bytes: Seq<u8>) -> Self {
        let n = digits_nat(decimal_digits(bytes));
        if bytes.len() > 0 && bytes[0] == 45 {
            from_nat((r() - n % r()) as nat)
        } else {
            from_nat(n)
        }
    }

    open spec fn wf(self) -> bool {
        self.canonical()
    }


    proof fn law_add_comm(a: Self, b: Self) {
        lemma_ring_laws_bn254();
    }

    proof fn law_mul_comm(a: Self, b: Self) {
        lemma_ring_laws_bn254();
    }

    proof fn law_add_assoc(a: Self, b: Self, c: Self) {
        lemma_ring_laws_bn254();
    }

    proof fn law_mul_assoc(a: Self, b: Self, c: Self) {
        lemma_ring_laws_bn254();
    }

    proof fn law_distrib(a: Self, b: Self, c: Self) {
        lemma_ring_laws_bn254();
    }

    proof fn law_identities(a: Self) {
        lemma_ring_laws_bn254();
    }

    proof fn law_closure(a: Self, b: Self) {
        lemma_ring_laws_bn254();
    }

    proof fn lemma_from_u64_wf(v: u64) {
        Self::lemma_from_nat(v as nat);
    }

    proof fn lemma_decimal_digits(a: Self) {
        lemma_nat_to_decimal_digits(a.value());
    }

    proof fn lemma_inverse_wf(a: Self) {
        if a.value() != 0 {
            Self::lemma_from_nat(pow(a.value() as int, (r() - 2) as nat) as nat);
        }
        Self::lemma_from_nat(0);
        lemma_small_mod(0, r());
        if a.wf() {
            Self::lemma_value_injective(a, Self::spec_zero());
        }
    }

    proof fn lemma_decimal_wf(bytes: Seq<u8>) {
        let n = digits_nat(decimal_digits(bytes));
        Self::lemma_from_nat(n);
        Self::lemma_from_nat((r() - n % r()) as nat);
    }

    fn equals(self, other: Self) -> (r: bool) {
        self == other
    }

    fn zero() -> (r: Self) {
        proof {
            lemma_small_mod(0, r());
        }
        Fr { l0: 0, l1: 0, l2: 0, l3: 0 }
    }

    fn one() -> (r: Self) {
        proof {
            lemma_small_mod(1, r());
        }
        Fr { l0: 1, l1: 0, l2: 0, l3: 0 }
    }

    fn add(self, other: Self) -> (r: Self) {
        ark_add(self, other)
    }

    fn sub(self, other: Self) -> (r: Self) {
        ark_sub(self, other)
    }

    fn mul(self, other: Self) -> (r: Self) {
        ark_mul(self, other)
    }

    fn neg(self) -> (r: Self) {
        ark_neg(self)
    }

    fn inverse(self) -> (r: Option<Self>) {
        ark_inverse(self)
    }

    #[verifier::spinoff_prover]
    #[verifier::rlimit(40)]
    fn from_decimal(text: &str) -> (r: Result<Self, String>) {
        let bytes = text.as_bytes();
        let negative = bytes.len() > 0 && bytes[0] == 45u8;
        let start: usize = if negative {
            1
        } else {
            0
        };
        let ghost digits = decimal_digits(bytes@);
        assert(digits =~= bytes@.subrange(start as int, bytes@.len() as int));
        assert(digits.len() == bytes@.len() - start);
        if start >= bytes.len() {
            assert(!is_decimal_text(bytes@));
            return Err(crate::field::not_decimal_message(text));
        }
        let ten = Self::from_u64(10);
        let mut accumulator = Self::zero();
        assert(digits.subrange(0, 0) =~= Seq::<u8>::empty());
        proof {
            lemma_small_mod(0, r());
        }
        let mut i = start;
        while i < bytes.len()
            invariant
                start <= i <= bytes@.len(),
                digits =~= bytes@.subrange(start as int, bytes@.len() as int),
                digits == decimal_digits(bytes@),
                bytes@ == text.spec_bytes(),
                negative == (bytes@.len() > 0 && bytes@[0] == 45),
                ten == Self::spec_from_u64(10),
                forall|j: int| 0 <= j < i - start ==> is_digit_byte(#[trigger] digits[j]),
                accumulator.value() == digits_nat(digits.subrange(0, i - start)) % r(),
            decreases bytes@.len() - i,
        {
            let byte = bytes[i];
            if !(48u8 <= byte && byte <= 57u8) {
                assert(digits[i - start] == byte);
            assert(!is_digit_byte(digits[i - start]));
            assert(!is_decimal_text(bytes@));
                return Err(crate::field::not_decimal_message(text));
            }
            let ghost before = digits.subrange(0, i - start);
            let ghost after = digits.subrange(0, i + 1 - start);
            assert(after.drop_last() =~= before);
            let ghost n = digits_nat(before);
            accumulator = accumulator.mul(ten).add(Self::from_u64((byte - 48u8) as u64));
            proof {
                let pi = r() as int;
                let d = (byte - 48) as int;
                lemma_small_mod(10, r());
                lemma_small_mod(d as nat, r());
                lemma_mul_mod_noop_left(n as int, 10, pi);
                lemma_add_mod_noop(n as int * 10, d, pi);
                lemma_mod_twice(n as int * 10, pi);
                assert(digits_nat(after) == n * 10 + d);
            }
            i = i + 1;
        }
        assert(digits.subrange(0, digits.len() as int) =~= digits);
        proof {
            use_type_invariant(&accumulator);
            Self::lemma_canonical_from_value(accumulator);
        }
        Ok(
            if negative {
                accumulator.neg()
            } else {
                accumulator
            },
        )
    }


    fn from_u64(value: u64) -> (r: Self) {
        proof {
            lemma_small_mod(value as nat, r());
            lemma_small_mod(value as nat, base());
            lemma_basic_div(value as int, base() as int);
        }
        Fr { l0: value, l1: 0, l2: 0, l3: 0 }
    }

    fn to_decimal(self) -> (r: String) {
        ark_to_decimal(self)
    }
}

#[verifier::spinoff_prover]
#[verifier::rlimit(80)]
proof fn lemma_ring_laws_bn254()
    ensures
        Fr::spec_zero().wf(),
        Fr::spec_one().wf(),
        forall|a: Fr, b: Fr| #[trigger] a.spec_add(b) == b.spec_add(a),
        forall|a: Fr, b: Fr| #[trigger] a.spec_mul(b) == b.spec_mul(a),
        forall|a: Fr, b: Fr, c: Fr| #[trigger]
            a.spec_add(b).spec_add(c) == a.spec_add(b.spec_add(c)),
        forall|a: Fr, b: Fr, c: Fr| #[trigger]
            a.spec_mul(b).spec_mul(c) == a.spec_mul(b.spec_mul(c)),
        forall|a: Fr, b: Fr, c: Fr| #[trigger]
            a.spec_mul(b.spec_add(c)) == a.spec_mul(b).spec_add(a.spec_mul(c)),
        forall|a: Fr| a.wf() ==> #[trigger] a.spec_add(Fr::spec_zero()) == a,
        forall|a: Fr| a.wf() ==> #[trigger] a.spec_mul(Fr::spec_one()) == a,
        forall|a: Fr| #[trigger] a.spec_mul(Fr::spec_zero()) == Fr::spec_zero(),
        forall|a: Fr| #[trigger] a.spec_add(a.spec_neg()) == Fr::spec_zero(),
        forall|a: Fr, b: Fr| #[trigger] a.spec_sub(b) == a.spec_add(b.spec_neg()),
        forall|a: Fr, b: Fr| #[trigger] a.spec_add(b).wf(),
        forall|a: Fr, b: Fr| #[trigger] a.spec_mul(b).wf(),
        forall|a: Fr| #[trigger] a.spec_neg().wf(),
        Fr::spec_one() != Fr::spec_zero(),
{
    let pi = r() as int;
    Fr::lemma_from_nat(0);
    Fr::lemma_from_nat(1);
    lemma_small_mod(0, r());
    lemma_small_mod(1, r());
    assert(Fr::spec_one().value() != Fr::spec_zero().value());
    assert forall|a: Fr, b: Fr| #[trigger] a.spec_add(b).wf() by {
        Fr::lemma_from_nat(a.value() + b.value());
    }
    assert forall|a: Fr, b: Fr| #[trigger] a.spec_mul(b).wf() by {
        Fr::lemma_from_nat(a.value() * b.value());
    }
    assert forall|a: Fr| #[trigger] a.spec_neg().wf() by {
        Fr::lemma_from_nat((r() - a.value()) as nat);
    }
    assert forall|a: Fr, b: Fr| #[trigger] a.spec_mul(b) == b.spec_mul(a) by {
        lemma_mul_is_commutative(a.value() as int, b.value() as int);
    }
    assert forall|a: Fr, b: Fr, c: Fr| #[trigger]
        a.spec_add(b).spec_add(c) == a.spec_add(b.spec_add(c)) by {
        let (x, y, z) = (a.value() as int, b.value() as int, c.value() as int);
        Fr::lemma_from_nat((x + y) as nat);
        Fr::lemma_from_nat((y + z) as nat);
        lemma_add_mod_noop(x + y, z, pi);
        lemma_add_mod_noop(x, y + z, pi);
        lemma_mod_twice(x + y, pi);
        lemma_mod_twice(y + z, pi);
        lemma_small_mod(z as nat, r());
        lemma_small_mod(x as nat, r());
    }
    assert forall|a: Fr, b: Fr, c: Fr| #[trigger]
        a.spec_mul(b).spec_mul(c) == a.spec_mul(b.spec_mul(c)) by {
        let (x, y, z) = (a.value() as int, b.value() as int, c.value() as int);
        Fr::lemma_from_nat((x * y) as nat);
        Fr::lemma_from_nat((y * z) as nat);
        lemma_mul_mod_noop_left(x * y, z, pi);
        lemma_mul_mod_noop_right(x, y * z, pi);
        lemma_mul_is_associative(x, y, z);
        lemma_mul_nonnegative(x, y);
        lemma_mul_nonnegative(y, z);
    }
    assert forall|a: Fr, b: Fr, c: Fr| #[trigger]
        a.spec_mul(b.spec_add(c)) == a.spec_mul(b).spec_add(a.spec_mul(c)) by {
        let (x, y, z) = (a.value() as int, b.value() as int, c.value() as int);
        Fr::lemma_from_nat((y + z) as nat);
        Fr::lemma_from_nat((x * y) as nat);
        Fr::lemma_from_nat((x * z) as nat);
        lemma_mul_nonnegative(x, y);
        lemma_mul_nonnegative(x, z);
        lemma_mul_mod_noop_right(x, y + z, pi);
        lemma_mul_is_distributive_add(x, y, z);
        lemma_add_mod_noop(x * y, x * z, pi);
    }
    assert forall|a: Fr| a.wf() implies #[trigger] a.spec_add(Fr::spec_zero()) == a by {
        Fr::lemma_canonical_from_value(a);
    }
    assert forall|a: Fr| a.wf() implies #[trigger] a.spec_mul(Fr::spec_one()) == a by {
        Fr::lemma_canonical_from_value(a);
        lemma_small_mod(1, r());
        assert(Fr::spec_one().value() == 1);
        assert(a.value() * 1 == a.value());
    }
    assert forall|a: Fr| #[trigger] a.spec_mul(Fr::spec_zero()) == Fr::spec_zero() by {
    }
    assert forall|a: Fr| #[trigger] a.spec_add(a.spec_neg()) == Fr::spec_zero() by {
        let x = a.value() as int;
        Fr::lemma_from_nat((r() - x) as nat);
        if x == 0 {
            lemma_mod_self_0(pi);
        } else {
            lemma_small_mod((r() - x) as nat, r());
            lemma_mod_self_0(pi);
        }
    }
    assert forall|a: Fr, b: Fr| #[trigger] a.spec_sub(b) == a.spec_add(b.spec_neg()) by {
        let (x, y) = (a.value() as int, b.value() as int);
        Fr::lemma_from_nat((r() - y) as nat);
        lemma_add_mod_noop(x, pi - y, pi);
        lemma_mod_twice(pi - y, pi);
        lemma_small_mod(x as nat, r());
    }
}



/// Decimal text round-trips: the decimal a canonical element renders is a
/// decimal text, and it parses back to the element.
pub proof fn law_bn254_decimal_round_trip(x: Fr)
    requires
        x.wf(),
    ensures
        is_decimal_text(vstd::utf8::encode_utf8(x.spec_to_decimal())),
        Fr::spec_decimal_value(vstd::utf8::encode_utf8(x.spec_to_decimal())) == x,
{
    let n = x.value();
    let s = nat_to_decimal(n);
    lemma_nat_to_decimal_digits(n);
    assert(vstd::utf8::is_ascii_chars(s));
    vstd::utf8::is_ascii_chars_encode_utf8(s);
    let b = vstd::utf8::encode_utf8(s);
    assert(b[0] == s[0] as u8);
    assert(decimal_digits(b) == b);
    assert forall|i: int| 0 <= i < b.len() implies is_digit_byte(#[trigger] b[i]) by {
        assert(b[i] == s[i] as u8);
        assert('0' <= s[i] <= '9');
    }
    crate::goldilocks::lemma_digits_nat_of_chars(s, b);
    lemma_mod_bound(x.raw() as int, r() as int);
    Fr::lemma_from_nat(n);
    lemma_small_mod(n, r());
    Fr::lemma_value_injective(from_nat(n), x);
}


/// Horner's method over decimal digits computes the element of their value.
proof fn lemma_horner_digits(digits: Seq<u8>)
    requires
        forall|i: int| 0 <= i < digits.len() ==> is_digit_byte(#[trigger] digits[i]),
    ensures
        crate::field::horner_decimal::<Fr>(digits) == from_nat(digits_nat(digits)),
    decreases digits.len(),
{
    Fr::lemma_from_nat(0);
    if digits.len() > 0 {
        let init = digits.drop_last();
        assert forall|i: int| 0 <= i < init.len() implies is_digit_byte(#[trigger] init[i]) by {
            assert(init[i] == digits[i]);
        }
        lemma_horner_digits(init);
        let m = digits_nat(init);
        let c = (digits.last() - 48) as nat;
        assert(is_digit_byte(digits[digits.len() - 1]));
        assert(c < 10);
        assert(((digits.last() - 48) as u64) as nat == c);
        Fr::lemma_from_nat(m);
        Fr::lemma_from_nat(10);
        Fr::lemma_from_nat(c);
        Fr::lemma_from_nat((m % r()) * 10);
        lemma_small_mod(10, r());
        lemma_small_mod(c, r());
        let a = ((m % r()) * 10) % r();
        Fr::lemma_from_nat(a + c);
        lemma_mul_mod_noop_left(m as int, 10, r() as int);
        lemma_add_mod_noop((m * 10) as int, c as int, r() as int);
        lemma_mod_twice((m * 10) as int, r() as int);
        lemma_add_mod_noop(a as int, c as int, r() as int);
        lemma_mod_twice(a as int, r() as int);
        assert((a + c) % r() == (m * 10 + c) % r());
    }
}


/// The element a decimal text denotes is what Horner's method computes in
/// the field over its digits, negated after a leading `-`.
pub proof fn law_bn254_decimal_value_is_horner(bytes: Seq<u8>)
    requires
        is_decimal_text(bytes),
    ensures
        Fr::spec_decimal_value(bytes) == crate::field::decimal_value::<Fr>(bytes),
{
    let digits = decimal_digits(bytes);
    let n = digits_nat(digits);
    lemma_horner_digits(digits);
    Fr::lemma_from_nat(n);
}

/// A leading `-` negates: the text `-d` denotes the negation of what the
/// digits `d` denote.
pub proof fn law_bn254_decimal_negation(digits: Seq<u8>)
    requires
        digits.len() > 0,
        forall|i: int| 0 <= i < digits.len() ==> is_digit_byte(#[trigger] digits[i]),
    ensures
        Fr::spec_decimal_value(seq![45u8] + digits) == Fr::spec_decimal_value(digits).spec_neg(),
{
    let neg = seq![45u8] + digits;
    assert(neg.drop_first() =~= digits);
    assert(decimal_digits(neg) == digits);
    assert(!is_digit_byte(45u8));
    assert(decimal_digits(digits) == digits);
    law_bn254_decimal_value_is_horner(neg);
    law_bn254_decimal_value_is_horner(digits);
}

} // verus!
