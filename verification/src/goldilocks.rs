//! The Goldilocks field, `p = 2^64 - 2^32 + 1`, hand-written.
//!
//! Every element is a `u64 < p`, so arithmetic is register-width and a product
//! is a single `u64 * u64 -> u128`. Because `2^64 ≡ 2^32 - 1 (mod p)`, a
//! 128-bit product reduces with a few word operations and no division — see
//! [`Goldilocks::reduce128`]. `p - 1 = 2^32 · (2^32 - 1)`, so domains of every
//! power-of-two size up to `2^32` exist.
use vstd::arithmetic::div_mod::*;
use vstd::arithmetic::mul::*;
use vstd::arithmetic::power::*;
use vstd::prelude::*;

use crate::field::{decimal_digits, is_decimal_text, is_digit_byte, TwoAdicField, ZkField};
use vstd::string::StringSliceAdditionalSpecFns;

verus! {

/// The Goldilocks prime, `2^64 - 2^32 + 1`.
pub const MODULUS: u64 = 0xFFFF_FFFF_0000_0001;

/// `2^64 mod p = 2^32 - 1`. The constant that makes reduction cheap.
const EPSILON: u64 = 0xFFFF_FFFF;

/// The modulus as a mathematical integer.
pub open spec fn p() -> nat {
    18446744069414584321
}

/// The canonical element of value `n mod p`.
pub open spec fn from_nat(n: nat) -> Goldilocks {
    Goldilocks::from_raw_spec((n % p()) as u64)
}

/// An element of the Goldilocks field, always stored reduced (`0 <= value < p`).
#[derive(Clone, Copy, PartialEq, Eq, Structural, Hash, Debug)]
pub struct Goldilocks(u64);

impl Goldilocks {
    /// The element holding `raw` (meaningful for `raw < p`).
    pub closed spec fn from_raw_spec(raw: u64) -> Goldilocks {
        Goldilocks(raw)
    }

    /// The field value of an element, in `[0, p)`.
    pub closed spec fn value(self) -> nat {
        (self.0 as nat) % p()
    }

    /// Whether the stored representative is the canonical one.
    pub closed spec fn canonical(self) -> bool {
        self.0 < p()
    }

    #[verifier::type_invariant]
    spec fn stored_reduced(self) -> bool {
        self.0 < p()
    }

    pub proof fn lemma_from_nat(n: nat)
        ensures
            from_nat(n).value() == n % p(),
            from_nat(n).canonical(),
    {
        lemma_mod_bound(n as int, p() as int);
        lemma_small_mod((n % p()) as nat, p());
    }

    /// Two canonical elements are equal exactly when their values are.
    pub proof fn lemma_value_injective(a: Goldilocks, b: Goldilocks)
        requires
            a.canonical(),
            b.canonical(),
        ensures
            (a == b) <==> (a.value() == b.value()),
    {
        lemma_small_mod(a.0 as nat, p());
        lemma_small_mod(b.0 as nat, p());
    }

    /// A canonical element is the canonical element of its value.
    pub proof fn lemma_canonical_from_value(a: Goldilocks)
        requires
            a.canonical(),
        ensures
            from_nat(a.value()) == a,
    {
        lemma_small_mod(a.0 as nat, p());
        lemma_small_mod(a.0 as nat, p());
    }

    /// Reduce an arbitrary `u64` (which may be `>= p`) into canonical form.
    pub fn from_canonical_u64(value: u64) -> (r: Self)
        ensures
            r == from_nat(value as nat),
            r.value() == value as nat % p(),
    {
        let raw = if value >= MODULUS {
            value - MODULUS
        } else {
            value
        };
        proof {
            if value >= MODULUS {
                lemma_mod_add_multiples_vanish(raw as int, p() as int);
                lemma_small_mod(raw as nat, p());
            } else {
                lemma_small_mod(value as nat, p());
            }
            Self::lemma_from_nat(value as nat);
        }
        Goldilocks(raw)
    }

    /// The raw representative, in `[0, p)`.
    pub fn as_u64(self) -> (r: u64)
        ensures
            r as nat == self.value(),
            r < MODULUS,
    {
        proof {
            use_type_invariant(&self);
            lemma_small_mod(self.0 as nat, p());
        }
        self.0
    }

    /// Reduce a 128-bit value modulo `p`, cheaply.
    ///
    /// Write `x = hi · 2^64 + lo` and `hi = hi_hi · 2^32 + hi_lo`. Since
    /// `2^64 ≡ 2^32 - 1` and `2^96 ≡ -1`, `x ≡ lo - hi_hi + hi_lo · (2^32 - 1)`;
    /// the borrow of the subtraction and the carry of the addition are each
    /// corrected by one `p`, and a final conditional subtraction canonicalises.
    pub fn reduce128(x: u128) -> (r: Self)
        ensures
            r == from_nat(x as nat),
            r.value() == x as nat % p(),
    {
        let lo = x as u64;
        let hi = (x >> 64u128) as u64;
        let hi_hi = hi >> 32u64;
        let hi_lo = hi & 0xFFFF_FFFFu64;
        proof {
            assert(x == (lo as u128) + (hi as u128) * 0x1_0000_0000_0000_0000u128) by (bit_vector)
                requires
                    lo == x as u64,
                    hi == (x >> 64u128) as u64,
            ;
            assert(hi == hi_hi * 0x1_0000_0000u64 + hi_lo && hi_hi <= 0xFFFF_FFFFu64 && hi_lo
                <= 0xFFFF_FFFFu64) by (bit_vector)
                requires
                    hi_hi == hi >> 32u64,
                    hi_lo == hi & 0xFFFF_FFFFu64,
            ;
        }
        // t0 = lo - hi_hi, borrowing a p if it underflows.
        let borrow = lo < hi_hi;
        let mut t0 = lo.wrapping_sub(hi_hi);
        if borrow {
            t0 = t0.wrapping_sub(EPSILON);
        }
        // t1 = hi_lo · (2^32 - 1), which fits in 64 bits.
        let t1 = hi_lo * EPSILON;
        // Sum t0 + t1 modulo p, with a carry correction.
        let sum = t0.wrapping_add(t1);
        let carry = sum < t0;
        let mut result = sum;
        if carry {
            result = result.wrapping_add(EPSILON);
        }
        proof {
            let ghost xi = x as int;
            let ghost pi = p() as int;
            let ghost core = lo as int - hi_hi as int + hi_lo as int * 0xFFFF_FFFF;
            assert(xi == core + pi * (hi_lo as int + hi_hi as int * 0x1_0000_0001));
            assert(t1 as int == hi_lo as int * 0xFFFF_FFFF);
            if borrow {
                assert(t0 as int == lo as int - hi_hi as int + pi);
            } else {
                assert(t0 as int == lo as int - hi_hi as int);
            }
            if carry {
                assert(result as int == t0 as int + t1 as int - pi);
            } else {
                assert(result as int == t0 as int + t1 as int);
            }
            let ghost k: int = (hi_lo as int + hi_hi as int * 0x1_0000_0001) + (if borrow {
                -1int
            } else {
                0int
            }) + (if carry {
                1int
            } else {
                0int
            });
            assert(xi == result as int + pi * k);
            lemma_mod_multiples_vanish(k, result as int, pi);
            assert((pi * k + result as int) % pi == (result as int) % pi);
        }
        Self::from_canonical_u64(result)
    }

    /// `self^exponent`, by square-and-multiply.
    pub fn pow(self, exponent: u64) -> (r: Self)
        ensures
            r == from_nat(pow(self.value() as int, exponent as nat) as nat),
            r.value() == pow(self.value() as int, exponent as nat) % (p() as int),
    {
        let ghost a = self.value() as int;
        let ghost pi = p() as int;
        let mut base = self;
        let mut acc = Goldilocks(1);
        let mut e = exponent;
        proof {
            lemma_pow0(base.value() as int);
            lemma_small_mod(1, p());
            assert(acc.value() == 1);
            assert(base.value() == self.value());
            assert(1 * pow(a, exponent as nat) == pow(a, exponent as nat));
        }
        while e > 0
            invariant
                pi == p() as int,
                a == self.value() as int,
                (acc.value() as int * pow(base.value() as int, e as nat)) % pi == pow(
                    a,
                    exponent as nat,
                ) % pi,
            decreases e,
        {
            let ghost b = base.value() as int;
            let ghost c = acc.value() as int;
            let ghost ee = e as nat;
            proof {
                lemma_pow_adds(b, (ee / 2 * 2) as nat, (ee % 2) as nat);
                lemma_pow_multiplies(b, 2, ee / 2);
                lemma_pow_nonneg(b, ee);
            }
            if e & 1 == 1 {
                proof {
                    assert(e & 1 == e % 2) by (bit_vector);
                    lemma_pow1(b);
                    assert(pow(b, ee) == pow(b, 2 * (ee / 2)) * b);
                }
                acc = ZkField::mul(acc, base);
            } else {
                proof {
                    assert(e & 1 == e % 2) by (bit_vector);
                    lemma_pow0(b);
                    assert(pow(b, ee) == pow(b, 2 * (ee / 2)));
                }
            }
            base = ZkField::mul(base, base);
            proof {
                let ghost c2 = acc.value() as int;
                let ghost b2 = base.value() as int;
                lemma_pow2_is_square(b);
                lemma_pow_mod_noop(b * b, ee / 2, pi);
                lemma_pow_mod_noop(pow(b, 2), ee / 2, pi);
                lemma_mul_mod_noop_general(c2, pow(b2, ee / 2), pi);
                lemma_mul_mod_noop_general(c2, pow(pow(b, 2), ee / 2), pi);
                if ee % 2 == 1 {
                    lemma_mul_mod_noop_general(c, b, pi);
                    assert(c2 == (c * b) % pi);
                    lemma_mul_mod_noop_general(c * b, pow(pow(b, 2), ee / 2), pi);
                    lemma_mul_is_associative(c, b, pow(pow(b, 2), ee / 2));
                    lemma_mul_is_commutative(b, pow(pow(b, 2), ee / 2));
                    lemma_mul_is_associative(c, pow(pow(b, 2), ee / 2), b);
                } else {
                    assert(c2 == c) by {
                        lemma_small_mod(acc.value(), p());
                    }
                }
            }
            let ghost e_before = e;
            e = e >> 1;
            proof {
                assert(e == e_before / 2) by (bit_vector)
                    requires
                        e == e_before >> 1u64,
                ;
            }
        }
        proof {
            use_type_invariant(&acc);
            lemma_pow0(base.value() as int);
            lemma_small_mod(acc.value(), p());
            lemma_from_nat_value(acc);
            lemma_pow_nonneg(a, exponent as nat);
        }
        acc
    }
}

/// The natural number a string of decimal digits denotes.
pub open spec fn digits_nat(digits: Seq<u8>) -> nat
    decreases digits.len(),
{
    if digits.len() == 0 {
        0
    } else {
        digits_nat(digits.drop_last()) * 10 + (digits.last() - 48) as nat
    }
}

/// Decimal digits of a natural number, most significant first.
pub open spec fn nat_to_decimal(n: nat) -> Seq<char>
    decreases n,
{
    if n < 10 {
        seq![digit_char(n)]
    } else {
        nat_to_decimal(n / 10).push(digit_char(n % 10))
    }
}

/// The decimal rendering of `n` is nonempty and all digits, and denotes `n`.
pub proof fn lemma_nat_to_decimal_digits(n: nat)
    ensures
        nat_to_decimal(n).len() > 0,
        forall|i: int| 0 <= i < nat_to_decimal(n).len() ==> '0' <= #[trigger] nat_to_decimal(n)[i] <= '9',
        crate::transcript::digits_value(nat_to_decimal(n)) == n,
    decreases n,
{
    reveal_with_fuel(crate::transcript::digits_value, 2);
    if n < 10 {
        assert(nat_to_decimal(n) =~= seq![digit_char(n)]);
        assert(nat_to_decimal(n).drop_last() =~= Seq::<char>::empty());
    } else {
        lemma_nat_to_decimal_digits(n / 10);
        let s = nat_to_decimal(n);
        assert(s.drop_last() =~= nat_to_decimal(n / 10));
        assert forall|i: int| 0 <= i < s.len() implies '0' <= #[trigger] s[i] <= '9' by {
            if i < s.len() - 1 {
                assert(s[i] == nat_to_decimal(n / 10)[i]);
            }
        }
    }
}

/// The ASCII digit for `d < 10`.
pub open spec fn digit_char(d: nat) -> char {
    (48 + d) as char
}

/// The standard library's decimal rendering of a `u64`.
#[verifier::external_body]
fn u64_to_decimal_string(value: u64) -> (r: String)
    ensures
        r@ == nat_to_decimal(value as nat),
{
    value.to_string()
}

impl ZkField for Goldilocks {
    open spec fn spec_zero() -> Self {
        from_nat(0)
    }

    open spec fn spec_one() -> Self {
        from_nat(1)
    }

    open spec fn spec_add(self, other: Self) -> Self {
        from_nat(self.value() + other.value())
    }

    open spec fn spec_sub(self, other: Self) -> Self {
        from_nat((self.value() + p() - other.value()) as nat)
    }

    open spec fn spec_mul(self, other: Self) -> Self {
        from_nat(self.value() * other.value())
    }

    open spec fn spec_neg(self) -> Self {
        from_nat((p() - self.value()) as nat)
    }

    open spec fn spec_inverse(self) -> Option<Self> {
        if self.value() == 0 {
            None
        } else {
            Some(from_nat(pow(self.value() as int, (p() - 2) as nat) as nat))
        }
    }

    open spec fn spec_from_u64(value: u64) -> Self {
        from_nat(value as nat)
    }

    open spec fn spec_to_decimal(self) -> Seq<char> {
        nat_to_decimal(self.value())
    }

    open spec fn spec_decimal_value(bytes: Seq<u8>) -> Self {
        let n = digits_nat(decimal_digits(bytes));
        if bytes.len() > 0 && bytes[0] == 45 {
            from_nat((p() - n % p()) as nat)
        } else {
            from_nat(n)
        }
    }

    open spec fn wf(self) -> bool {
        self.canonical()
    }


    proof fn law_add_comm(a: Self, b: Self) {
        lemma_ring_laws_goldilocks();
    }

    proof fn law_mul_comm(a: Self, b: Self) {
        lemma_ring_laws_goldilocks();
    }

    proof fn law_add_assoc(a: Self, b: Self, c: Self) {
        lemma_ring_laws_goldilocks();
    }

    proof fn law_mul_assoc(a: Self, b: Self, c: Self) {
        lemma_ring_laws_goldilocks();
    }

    proof fn law_distrib(a: Self, b: Self, c: Self) {
        lemma_ring_laws_goldilocks();
    }

    proof fn law_identities(a: Self) {
        lemma_ring_laws_goldilocks();
    }

    proof fn law_closure(a: Self, b: Self) {
        lemma_ring_laws_goldilocks();
    }

    proof fn lemma_from_u64_wf(v: u64) {
        Self::lemma_from_nat(v as nat);
    }

    proof fn lemma_decimal_digits(a: Self) {
        lemma_nat_to_decimal_digits(a.value());
    }

    proof fn lemma_inverse_wf(a: Self) {
        if a.value() != 0 {
            Self::lemma_from_nat(pow(a.value() as int, (p() - 2) as nat) as nat);
        }
        Self::lemma_from_nat(0);
        lemma_small_mod(0, p());
        if a.wf() {
            Self::lemma_value_injective(a, Self::spec_zero());
        }
    }

    proof fn lemma_decimal_wf(bytes: Seq<u8>) {
        let n = digits_nat(decimal_digits(bytes));
        Self::lemma_from_nat(n);
        Self::lemma_from_nat((p() - n % p()) as nat);
    }

    fn equals(self, other: Self) -> (r: bool) {
        self == other
    }

    fn zero() -> (r: Self) {
        proof {
            lemma_small_mod(0, p());
        }
        Goldilocks(0)
    }

    fn one() -> (r: Self) {
        proof {
            lemma_small_mod(1, p());
        }
        Goldilocks(1)
    }

    fn add(self, other: Self) -> (r: Self) {
        proof {
            use_type_invariant(&self);
            use_type_invariant(&other);
            lemma_small_mod(self.0 as nat, p());
            lemma_small_mod(other.0 as nat, p());
        }
        // a + b may overflow 64 bits; the overflow is one p, corrected by
        // adding EPSILON (since 2^64 ≡ 2^32 - 1) and reducing once.
        let sum = self.0.wrapping_add(other.0);
        let carry = sum < self.0;
        let mut result = sum;
        if carry {
            result = result.wrapping_add(EPSILON);
        }
        proof {
            let ghost total = self.0 as int + other.0 as int;
            if carry {
                assert(result as int == total - p());
                lemma_mod_add_multiples_vanish(result as int, p() as int);
            } else {
                assert(result as int == total);
            }
        }
        Self::from_canonical_u64(result)
    }

    fn sub(self, other: Self) -> (r: Self) {
        proof {
            use_type_invariant(&self);
            use_type_invariant(&other);
            lemma_small_mod(self.0 as nat, p());
            lemma_small_mod(other.0 as nat, p());
        }
        // a - b borrows one p on underflow; borrowing p subtracts EPSILON from
        // the low word.
        let borrow = self.0 < other.0;
        let diff = self.0.wrapping_sub(other.0);
        let mut result = diff;
        if borrow {
            result = result.wrapping_sub(EPSILON);
        }
        proof {
            let ghost total = self.0 as int + p() - other.0 as int;
            if borrow {
                assert(result as int == total);
            } else {
                assert(result as int == total - p());
                lemma_mod_add_multiples_vanish(result as int, p() as int);
            }
        }
        Self::from_canonical_u64(result)
    }

    fn mul(self, other: Self) -> (r: Self) {
        proof {
            use_type_invariant(&self);
            use_type_invariant(&other);
            lemma_small_mod(self.0 as nat, p());
            lemma_small_mod(other.0 as nat, p());
            assert((self.0 as u128) * (other.0 as u128) <= 0xFFFF_FFFF_FFFF_FFFF_FFFF_FFFF_FFFF_FFFFu128) by (nonlinear_arith)
                requires self.0 < 0x1_0000_0000_0000_0000u128, other.0 < 0x1_0000_0000_0000_0000u128;
        }
        Self::reduce128((self.0 as u128) * (other.0 as u128))
    }

    fn neg(self) -> (r: Self) {
        proof {
            use_type_invariant(&self);
            lemma_small_mod(self.0 as nat, p());
        }
        if self.0 == 0 {
            proof {
                lemma_mod_self_0(p() as int);
            }
            self
        } else {
            proof {
                lemma_small_mod((p() - self.0) as nat, p());
            }
            Goldilocks(MODULUS - self.0)
        }
    }

    fn inverse(self) -> (r: Option<Self>) {
        proof {
            use_type_invariant(&self);
            lemma_small_mod(self.0 as nat, p());
        }
        if self.0 == 0 {
            return None;
        }
        // Fermat: a^(p-2) = a^{-1}.
        Some(self.pow(MODULUS - 2))
    }

    #[verifier::spinoff_prover]
    #[verifier::rlimit(40)]
    fn from_decimal(text: &str) -> (r: Result<Self, String>) {
        let bytes = text.as_bytes();
        let negative = bytes.len() > 0 && bytes[0] == 45u8;
        let start: usize = if negative {
            1
        } else {
            0
        };
        let ghost digits = decimal_digits(bytes@);
        assert(digits =~= bytes@.subrange(start as int, bytes@.len() as int));
        assert(digits.len() == bytes@.len() - start);
        if start >= bytes.len() {
            assert(!is_decimal_text(bytes@));
            return Err(crate::field::not_decimal_message(text));
        }
        let ten = Self::from_u64(10);
        let mut accumulator = Self::zero();
        assert(digits.subrange(0, 0) =~= Seq::<u8>::empty());
        proof {
            lemma_small_mod(0, p());
        }
        let mut i = start;
        while i < bytes.len()
            invariant
                start <= i <= bytes@.len(),
                digits =~= bytes@.subrange(start as int, bytes@.len() as int),
                digits == decimal_digits(bytes@),
                bytes@ == text.spec_bytes(),
                negative == (bytes@.len() > 0 && bytes@[0] == 45),
                ten == Self::spec_from_u64(10),
                forall|j: int| 0 <= j < i - start ==> is_digit_byte(#[trigger] digits[j]),
                accumulator.value() == digits_nat(digits.subrange(0, i - start)) % p(),
            decreases bytes@.len() - i,
        {
            let byte = bytes[i];
            if !(48u8 <= byte && byte <= 57u8) {
                assert(digits[i - start] == byte);
            assert(!is_digit_byte(digits[i - start]));
            assert(!is_decimal_text(bytes@));
                return Err(crate::field::not_decimal_message(text));
            }
            let ghost before = digits.subrange(0, i - start);
            let ghost after = digits.subrange(0, i + 1 - start);
            assert(after.drop_last() =~= before);
            let ghost n = digits_nat(before);
            accumulator = accumulator.mul(ten).add(Self::from_u64((byte - 48u8) as u64));
            proof {
                let pi = p() as int;
                let d = (byte - 48) as int;
                lemma_small_mod(10, p());
                lemma_small_mod(d as nat, p());
                lemma_mul_mod_noop_left(n as int, 10, pi);
                lemma_add_mod_noop(n as int * 10, d, pi);
                lemma_mod_twice(n as int * 10, pi);
                assert(digits_nat(after) == n * 10 + d);
            }
            i = i + 1;
        }
        assert(digits.subrange(0, digits.len() as int) =~= digits);
        proof {
            use_type_invariant(&accumulator);
            Self::lemma_canonical_from_value(accumulator);
        }
        Ok(
            if negative {
                accumulator.neg()
            } else {
                accumulator
            },
        )
    }


    fn from_u64(value: u64) -> (r: Self) {
        Self::from_canonical_u64(value)
    }

    fn to_decimal(self) -> (r: String) {
        let v = self.as_u64();
        u64_to_decimal_string(v)
    }
}

proof fn lemma_ring_laws_goldilocks()
    ensures
        Goldilocks::spec_zero().wf(),
        Goldilocks::spec_one().wf(),
        forall|a: Goldilocks, b: Goldilocks| #[trigger] a.spec_add(b) == b.spec_add(a),
        forall|a: Goldilocks, b: Goldilocks| #[trigger] a.spec_mul(b) == b.spec_mul(a),
        forall|a: Goldilocks, b: Goldilocks, c: Goldilocks| #[trigger]
            a.spec_add(b).spec_add(c) == a.spec_add(b.spec_add(c)),
        forall|a: Goldilocks, b: Goldilocks, c: Goldilocks| #[trigger]
            a.spec_mul(b).spec_mul(c) == a.spec_mul(b.spec_mul(c)),
        forall|a: Goldilocks, b: Goldilocks, c: Goldilocks| #[trigger]
            a.spec_mul(b.spec_add(c)) == a.spec_mul(b).spec_add(a.spec_mul(c)),
        forall|a: Goldilocks| a.wf() ==> #[trigger] a.spec_add(Goldilocks::spec_zero()) == a,
        forall|a: Goldilocks| a.wf() ==> #[trigger] a.spec_mul(Goldilocks::spec_one()) == a,
        forall|a: Goldilocks| #[trigger] a.spec_mul(Goldilocks::spec_zero()) == Goldilocks::spec_zero(),
        forall|a: Goldilocks| #[trigger] a.spec_add(a.spec_neg()) == Goldilocks::spec_zero(),
        forall|a: Goldilocks, b: Goldilocks| #[trigger] a.spec_sub(b) == a.spec_add(b.spec_neg()),
        forall|a: Goldilocks, b: Goldilocks| #[trigger] a.spec_add(b).wf(),
        forall|a: Goldilocks, b: Goldilocks| #[trigger] a.spec_mul(b).wf(),
        forall|a: Goldilocks| #[trigger] a.spec_neg().wf(),
        Goldilocks::spec_one() != Goldilocks::spec_zero(),
{
    let pi = p() as int;
    Goldilocks::lemma_from_nat(0);
    Goldilocks::lemma_from_nat(1);
    lemma_small_mod(0, p());
    lemma_small_mod(1, p());
    assert(Goldilocks::spec_one().value() != Goldilocks::spec_zero().value());
    assert forall|a: Goldilocks, b: Goldilocks| #[trigger] a.spec_add(b).wf() by {
        Goldilocks::lemma_from_nat(a.value() + b.value());
    }
    assert forall|a: Goldilocks, b: Goldilocks| #[trigger] a.spec_mul(b).wf() by {
        Goldilocks::lemma_from_nat(a.value() * b.value());
    }
    assert forall|a: Goldilocks| #[trigger] a.spec_neg().wf() by {
        Goldilocks::lemma_from_nat((p() - a.value()) as nat);
    }
    assert forall|a: Goldilocks, b: Goldilocks| #[trigger] a.spec_mul(b) == b.spec_mul(a) by {
        lemma_mul_is_commutative(a.value() as int, b.value() as int);
    }
    assert forall|a: Goldilocks, b: Goldilocks, c: Goldilocks| #[trigger]
        a.spec_add(b).spec_add(c) == a.spec_add(b.spec_add(c)) by {
        let (x, y, z) = (a.value() as int, b.value() as int, c.value() as int);
        Goldilocks::lemma_from_nat((x + y) as nat);
        Goldilocks::lemma_from_nat((y + z) as nat);
        lemma_add_mod_noop(x + y, z, pi);
        lemma_add_mod_noop(x, y + z, pi);
        lemma_mod_twice(x + y, pi);
        lemma_mod_twice(y + z, pi);
        lemma_small_mod(z as nat, p());
        lemma_small_mod(x as nat, p());
    }
    assert forall|a: Goldilocks, b: Goldilocks, c: Goldilocks| #[trigger]
        a.spec_mul(b).spec_mul(c) == a.spec_mul(b.spec_mul(c)) by {
        let (x, y, z) = (a.value() as int, b.value() as int, c.value() as int);
        Goldilocks::lemma_from_nat((x * y) as nat);
        Goldilocks::lemma_from_nat((y * z) as nat);
        lemma_mul_mod_noop_left(x * y, z, pi);
        lemma_mul_mod_noop_right(x, y * z, pi);
        lemma_mul_is_associative(x, y, z);
        lemma_mul_nonnegative(x, y);
        lemma_mul_nonnegative(y, z);
    }
    assert forall|a: Goldilocks, b: Goldilocks, c: Goldilocks| #[trigger]
        a.spec_mul(b.spec_add(c)) == a.spec_mul(b).spec_add(a.spec_mul(c)) by {
        let (x, y, z) = (a.value() as int, b.value() as int, c.value() as int);
        Goldilocks::lemma_from_nat((y + z) as nat);
        Goldilocks::lemma_from_nat((x * y) as nat);
        Goldilocks::lemma_from_nat((x * z) as nat);
        lemma_mul_nonnegative(x, y);
        lemma_mul_nonnegative(x, z);
        lemma_mul_mod_noop_right(x, y + z, pi);
        lemma_mul_is_distributive_add(x, y, z);
        lemma_add_mod_noop(x * y, x * z, pi);
    }
    assert forall|a: Goldilocks| a.wf() implies #[trigger] a.spec_add(Goldilocks::spec_zero()) == a by {
        Goldilocks::lemma_canonical_from_value(a);
    }
    assert forall|a: Goldilocks| a.wf() implies #[trigger] a.spec_mul(Goldilocks::spec_one()) == a by {
        Goldilocks::lemma_canonical_from_value(a);
        lemma_small_mod(1, p());
        assert(Goldilocks::spec_one().value() == 1);
        assert(a.value() * 1 == a.value());
    }
    assert forall|a: Goldilocks| #[trigger] a.spec_mul(Goldilocks::spec_zero()) == Goldilocks::spec_zero() by {
    }
    assert forall|a: Goldilocks| #[trigger] a.spec_add(a.spec_neg()) == Goldilocks::spec_zero() by {
        let x = a.value() as int;
        Goldilocks::lemma_from_nat((p() - x) as nat);
        if x == 0 {
            lemma_mod_self_0(pi);
        } else {
            lemma_small_mod((p() - x) as nat, p());
            lemma_mod_self_0(pi);
        }
    }
    assert forall|a: Goldilocks, b: Goldilocks| #[trigger] a.spec_sub(b) == a.spec_add(b.spec_neg()) by {
        let (x, y) = (a.value() as int, b.value() as int);
        Goldilocks::lemma_from_nat((p() - y) as nat);
        lemma_add_mod_noop(x, pi - y, pi);
        lemma_mod_twice(pi - y, pi);
        lemma_small_mod(x as nat, p());
    }
}

impl TwoAdicField for Goldilocks {
    open spec fn spec_two_adicity() -> nat {
        32
    }

    open spec fn spec_two_adic_generator(bits: u32) -> Self {
        square_times(full_two_adic_generator(), (32 - bits) as nat)
    }

    proof fn lemma_subgroup_size_nonzero(k: u32) {
        lemma_two_pow_small(k as nat);
        let v = crate::merkle::two_pow(k as nat);
        Self::lemma_from_nat(v);
        Self::lemma_from_nat(0);
        lemma_small_mod(v, p());
        lemma_small_mod(0, p());
    }

    proof fn lemma_generator_primitive(bits: u32) {
        lemma_generator_primitive_goldilocks(bits);
    }

    proof fn lemma_generator_inverse_primitive(bits: u32) {
        lemma_generator_inverse_primitive_goldilocks(bits);
    }

    proof fn lemma_generator_square(bits: u32) {
        assert((32 - (bits - 1) as u32) as nat == (32 - bits) as nat + 1);
    }

    fn two_adicity() -> (r: u32) {
        32
    }

    fn two_adic_generator(bits: u32) -> (r: Self) {
        // A generator of the full 2^32 subgroup, g = 7^((p-1)/2^32), squared
        // down to the subgroup of size 2^bits.
        let full = Goldilocks::from_canonical_u64(7).pow(0xFFFF_FFFF);
        let mut generator = full;
        let mut i: u32 = 0;
        while i < 32 - bits
            invariant
                bits <= 32,
                i <= 32 - bits,
                full == full_two_adic_generator(),
                generator == square_times(full, i as nat),
            decreases 32 - bits - i,
        {
            generator = ZkField::mul(generator, generator);
            i = i + 1;
        }
        generator
    }
}

/// `2^k` for `k <= 32` is at least one and well below `p`.
proof fn lemma_two_pow_small(k: nat)
    requires
        k <= 32,
    ensures
        1 <= crate::merkle::two_pow(k) <= 0x1_0000_0000,
{
    assert(crate::merkle::two_pow(32) == 0x1_0000_0000) by {
        reveal_with_fuel(crate::merkle::two_pow, 33);
    }
    crate::fft::lemma_two_pow_add(k, (32 - k) as nat);
    crate::fft::lemma_two_pow_pos(k);
    crate::fft::lemma_two_pow_pos((32 - k) as nat);
    let a = crate::merkle::two_pow(k);
    let b = crate::merkle::two_pow((32 - k) as nat);
    assert(a <= a * b) by (nonlinear_arith)
        requires
            b >= 1,
    ;
}

/// `b^e mod m`, reducing after every step.
spec fn pow_mod(b: nat, e: nat, m: nat) -> nat
    decreases e,
{
    if e == 0 {
        1nat % m
    } else if e % 2 == 0 {
        let h = pow_mod(b, e / 2, m);
        (h * h) % m
    } else {
        (b * pow_mod(b, (e - 1) as nat, m)) % m
    }
}

proof fn lemma_pow_mod(b: nat, e: nat, m: nat)
    requires
        m > 0,
    ensures
        pow(b as int, e) % (m as int) == pow_mod(b, e, m) as int,
    decreases e,
{
    if e == 0 {
        lemma_pow0(b as int);
    } else if e % 2 == 0 {
        lemma_pow_mod(b, e / 2, m);
        lemma_pow_adds(b as int, e / 2, e / 2);
        assert(e / 2 + e / 2 == e);
        lemma_mul_mod_noop_general(pow(b as int, e / 2), pow(b as int, e / 2), m as int);
    } else {
        lemma_pow_mod(b, (e - 1) as nat, m);
        lemma_pow_adds(b as int, 1, (e - 1) as nat);
        lemma_pow1(b as int);
        lemma_mul_mod_noop_right(b as int, pow(b as int, (e - 1) as nat), m as int);
    }
}

/// `x^(2^k)` by repeated squaring is `x` squared `k` times.
proof fn lemma_fpow_two_pow(x: Goldilocks, k: nat)
    requires
        x.wf(),
    ensures
        crate::fft::fpow(x, crate::merkle::two_pow(k)) == square_times(x, k),
        square_times(x, k).wf(),
    decreases k,
{
    let one = Goldilocks::spec_one();
    if k == 0 {
        reveal_with_fuel(crate::fft::fpow, 2);
        assert(crate::merkle::two_pow(0) == 1);
        crate::field::lemma_mul_comm(one, x);
        crate::field::lemma_basics(x, x);
    } else {
        let k1 = (k - 1) as nat;
        lemma_fpow_two_pow(x, k1);
        let y = square_times(x, k1);
        crate::fft::lemma_fpow_mul(x, crate::merkle::two_pow(k1), 2);
        assert(crate::merkle::two_pow(k) == crate::merkle::two_pow(k1) * 2);
        reveal_with_fuel(crate::fft::fpow, 3);
        crate::field::lemma_mul_comm(one, y);
        crate::field::lemma_basics(y, y);
    }
}

proof fn lemma_square_times_add(x: Goldilocks, a: nat, b: nat)
    ensures
        square_times(square_times(x, a), b) == square_times(x, a + b),
    decreases b,
{
    if b > 0 {
        lemma_square_times_add(x, a, (b - 1) as nat);
        assert(a + b - 1 == a + (b - 1) as nat);
    }
}

/// `7^(2^32 - 1) mod p`, step by step.
proof fn lemma_pow_mod_generator()
    ensures
        pow_mod(7, 0xFFFF_FFFF, 18446744069414584321) == 1753635133440165772,
{
    assert(pow_mod(7, 0, 18446744069414584321) == 1);
    assert(pow_mod(7, 1, 18446744069414584321) == 7);
    assert(pow_mod(7, 2, 18446744069414584321) == (pow_mod(7, 1, 18446744069414584321) * pow_mod(7, 1, 18446744069414584321)) % 18446744069414584321);
    assert((pow_mod(7, 1, 18446744069414584321) * pow_mod(7, 1, 18446744069414584321)) % 18446744069414584321 == 49) by (nonlinear_arith)
        requires
            pow_mod(7, 1, 18446744069414584321) == 7,
    ;
    assert(pow_mod(7, 3, 18446744069414584321) == 343);
    assert(pow_mod(7, 6, 18446744069414584321) == (pow_mod(7, 3, 18446744069414584321) * pow_mod(7, 3, 18446744069414584321)) % 18446744069414584321);
    assert((pow_mod(7, 3, 18446744069414584321) * pow_mod(7, 3, 18446744069414584321)) % 18446744069414584321 == 117649) by (nonlinear_arith)
        requires
            pow_mod(7, 3, 18446744069414584321) == 343,
    ;
    assert(pow_mod(7, 7, 18446744069414584321) == 823543);
    assert(pow_mod(7, 14, 18446744069414584321) == (pow_mod(7, 7, 18446744069414584321) * pow_mod(7, 7, 18446744069414584321)) % 18446744069414584321);
    assert((pow_mod(7, 7, 18446744069414584321) * pow_mod(7, 7, 18446744069414584321)) % 18446744069414584321 == 678223072849) by (nonlinear_arith)
        requires
            pow_mod(7, 7, 18446744069414584321) == 823543,
    ;
    assert(pow_mod(7, 15, 18446744069414584321) == 4747561509943);
    assert(pow_mod(7, 30, 18446744069414584321) == (pow_mod(7, 15, 18446744069414584321) * pow_mod(7, 15, 18446744069414584321)) % 18446744069414584321);
    assert((pow_mod(7, 15, 18446744069414584321) * pow_mod(7, 15, 18446744069414584321)) % 18446744069414584321 == 1582037354089406189) by (nonlinear_arith)
        requires
            pow_mod(7, 15, 18446744069414584321) == 4747561509943,
    ;
    assert(pow_mod(7, 31, 18446744069414584321) == 11074261478625843323);
    assert(pow_mod(7, 62, 18446744069414584321) == (pow_mod(7, 31, 18446744069414584321) * pow_mod(7, 31, 18446744069414584321)) % 18446744069414584321);
    assert((pow_mod(7, 31, 18446744069414584321) * pow_mod(7, 31, 18446744069414584321)) % 18446744069414584321 == 14911712358349047125) by (nonlinear_arith)
        requires
            pow_mod(7, 31, 18446744069414584321) == 11074261478625843323,
    ;
    assert(pow_mod(7, 63, 18446744069414584321) == 12148266161370408270);
    assert(pow_mod(7, 126, 18446744069414584321) == (pow_mod(7, 63, 18446744069414584321) * pow_mod(7, 63, 18446744069414584321)) % 18446744069414584321);
    assert((pow_mod(7, 63, 18446744069414584321) * pow_mod(7, 63, 18446744069414584321)) % 18446744069414584321 == 14177331716484271384) by (nonlinear_arith)
        requires
            pow_mod(7, 63, 18446744069414584321) == 12148266161370408270,
    ;
    assert(pow_mod(7, 127, 18446744069414584321) == 7007601668316978083);
    assert(pow_mod(7, 254, 18446744069414584321) == (pow_mod(7, 127, 18446744069414584321) * pow_mod(7, 127, 18446744069414584321)) % 18446744069414584321);
    assert((pow_mod(7, 127, 18446744069414584321) * pow_mod(7, 127, 18446744069414584321)) % 18446744069414584321 == 1160753142525841411) by (nonlinear_arith)
        requires
            pow_mod(7, 127, 18446744069414584321) == 7007601668316978083,
    ;
    assert(pow_mod(7, 255, 18446744069414584321) == 8125271997680889877);
    assert(pow_mod(7, 510, 18446744069414584321) == (pow_mod(7, 255, 18446744069414584321) * pow_mod(7, 255, 18446744069414584321)) % 18446744069414584321);
    assert((pow_mod(7, 255, 18446744069414584321) * pow_mod(7, 255, 18446744069414584321)) % 18446744069414584321 == 10915923311382173605) by (nonlinear_arith)
        requires
            pow_mod(7, 255, 18446744069414584321) == 8125271997680889877,
    ;
    assert(pow_mod(7, 511, 18446744069414584321) == 2624486902016877951);
    assert(pow_mod(7, 1022, 18446744069414584321) == (pow_mod(7, 511, 18446744069414584321) * pow_mod(7, 511, 18446744069414584321)) % 18446744069414584321);
    assert((pow_mod(7, 511, 18446744069414584321) * pow_mod(7, 511, 18446744069414584321)) % 18446744069414584321 == 1179017105118043277) by (nonlinear_arith)
        requires
            pow_mod(7, 511, 18446744069414584321) == 2624486902016877951,
    ;
    assert(pow_mod(7, 1023, 18446744069414584321) == 8253119735826302939);
    assert(pow_mod(7, 2046, 18446744069414584321) == (pow_mod(7, 1023, 18446744069414584321) * pow_mod(7, 1023, 18446744069414584321)) % 18446744069414584321);
    assert((pow_mod(7, 1023, 18446744069414584321) * pow_mod(7, 1023, 18446744069414584321)) % 18446744069414584321 == 13682469552810377440) by (nonlinear_arith)
        requires
            pow_mod(7, 1023, 18446744069414584321) == 8253119735826302939,
    ;
    assert(pow_mod(7, 2047, 18446744069414584321) == 3543566522599720475);
    assert(pow_mod(7, 4094, 18446744069414584321) == (pow_mod(7, 2047, 18446744069414584321) * pow_mod(7, 2047, 18446744069414584321)) % 18446744069414584321);
    assert((pow_mod(7, 2047, 18446744069414584321) * pow_mod(7, 2047, 18446744069414584321)) % 18446744069414584321 == 12252646851770615269) by (nonlinear_arith)
        requires
            pow_mod(7, 2047, 18446744069414584321) == 3543566522599720475,
    ;
    assert(pow_mod(7, 4095, 18446744069414584321) == 11981551684735969599);
    assert(pow_mod(7, 8190, 18446744069414584321) == (pow_mod(7, 4095, 18446744069414584321) * pow_mod(7, 4095, 18446744069414584321)) % 18446744069414584321);
    assert((pow_mod(7, 4095, 18446744069414584321) * pow_mod(7, 4095, 18446744069414584321)) % 18446744069414584321 == 9343193256669382154) by (nonlinear_arith)
        requires
            pow_mod(7, 4095, 18446744069414584321) == 11981551684735969599,
    ;
    assert(pow_mod(7, 8191, 18446744069414584321) == 10062120588441922115);
    assert(pow_mod(7, 16382, 18446744069414584321) == (pow_mod(7, 8191, 18446744069414584321) * pow_mod(7, 8191, 18446744069414584321)) % 18446744069414584321);
    assert((pow_mod(7, 8191, 18446744069414584321) * pow_mod(7, 8191, 18446744069414584321)) % 18446744069414584321 == 4133221502128927102) by (nonlinear_arith)
        requires
            pow_mod(7, 8191, 18446744069414584321) == 10062120588441922115,
    ;
    assert(pow_mod(7, 16383, 18446744069414584321) == 10485806445487905393);
    assert(pow_mod(7, 32766, 18446744069414584321) == (pow_mod(7, 16383, 18446744069414584321) * pow_mod(7, 16383, 18446744069414584321)) % 18446744069414584321);
    assert((pow_mod(7, 16383, 18446744069414584321) * pow_mod(7, 16383, 18446744069414584321)) % 18446744069414584321 == 5861853314594190514) by (nonlinear_arith)
        requires
            pow_mod(7, 16383, 18446744069414584321) == 10485806445487905393,
    ;
    assert(pow_mod(7, 32767, 18446744069414584321) == 4139485063330164956);
    assert(pow_mod(7, 65534, 18446744069414584321) == (pow_mod(7, 32767, 18446744069414584321) * pow_mod(7, 32767, 18446744069414584321)) % 18446744069414584321);
    assert((pow_mod(7, 32767, 18446744069414584321) * pow_mod(7, 32767, 18446744069414584321)) % 18446744069414584321 == 7004045467739516513) by (nonlinear_arith)
        requires
            pow_mod(7, 32767, 18446744069414584321) == 4139485063330164956,
    ;
    assert(pow_mod(7, 65535, 18446744069414584321) == 12134830135347446949);
    assert(pow_mod(7, 131070, 18446744069414584321) == (pow_mod(7, 65535, 18446744069414584321) * pow_mod(7, 65535, 18446744069414584321)) % 18446744069414584321);
    assert((pow_mod(7, 65535, 18446744069414584321) * pow_mod(7, 65535, 18446744069414584321)) % 18446744069414584321 == 618113109518621269) by (nonlinear_arith)
        requires
            pow_mod(7, 65535, 18446744069414584321) == 12134830135347446949,
    ;
    assert(pow_mod(7, 131071, 18446744069414584321) == 4326791766630348883);
    assert(pow_mod(7, 262142, 18446744069414584321) == (pow_mod(7, 131071, 18446744069414584321) * pow_mod(7, 131071, 18446744069414584321)) % 18446744069414584321);
    assert((pow_mod(7, 131071, 18446744069414584321) * pow_mod(7, 131071, 18446744069414584321)) % 18446744069414584321 == 13205783127219969319) by (nonlinear_arith)
        requires
            pow_mod(7, 131071, 18446744069414584321) == 4326791766630348883,
    ;
    assert(pow_mod(7, 262143, 18446744069414584321) == 206761543466863628);
    assert(pow_mod(7, 524286, 18446744069414584321) == (pow_mod(7, 262143, 18446744069414584321) * pow_mod(7, 262143, 18446744069414584321)) % 18446744069414584321);
    assert((pow_mod(7, 262143, 18446744069414584321) * pow_mod(7, 262143, 18446744069414584321)) % 18446744069414584321 == 14617186517222294718) by (nonlinear_arith)
        requires
            pow_mod(7, 262143, 18446744069414584321) == 206761543466863628,
    ;
    assert(pow_mod(7, 524287, 18446744069414584321) == 10086585273483141421);
    assert(pow_mod(7, 1048574, 18446744069414584321) == (pow_mod(7, 524287, 18446744069414584321) * pow_mod(7, 524287, 18446744069414584321)) % 18446744069414584321);
    assert((pow_mod(7, 524287, 18446744069414584321) * pow_mod(7, 524287, 18446744069414584321)) % 18446744069414584321 == 5535602650859329748) by (nonlinear_arith)
        requires
            pow_mod(7, 524287, 18446744069414584321) == 10086585273483141421,
    ;
    assert(pow_mod(7, 1048575, 18446744069414584321) == 1855730417186139594);
    assert(pow_mod(7, 2097150, 18446744069414584321) == (pow_mod(7, 1048575, 18446744069414584321) * pow_mod(7, 1048575, 18446744069414584321)) % 18446744069414584321);
    assert((pow_mod(7, 1048575, 18446744069414584321) * pow_mod(7, 1048575, 18446744069414584321)) % 18446744069414584321 == 3724741596018185032) by (nonlinear_arith)
        requires
            pow_mod(7, 1048575, 18446744069414584321) == 1855730417186139594,
    ;
    assert(pow_mod(7, 2097151, 18446744069414584321) == 7626447102712710903);
    assert(pow_mod(7, 4194302, 18446744069414584321) == (pow_mod(7, 2097151, 18446744069414584321) * pow_mod(7, 2097151, 18446744069414584321)) % 18446744069414584321);
    assert((pow_mod(7, 2097151, 18446744069414584321) * pow_mod(7, 2097151, 18446744069414584321)) % 18446744069414584321 == 11653985196031332500) by (nonlinear_arith)
        requires
            pow_mod(7, 2097151, 18446744069414584321) == 7626447102712710903,
    ;
    assert(pow_mod(7, 4194303, 18446744069414584321) == 7790920094560990216);
    assert(pow_mod(7, 8388606, 18446744069414584321) == (pow_mod(7, 4194303, 18446744069414584321) * pow_mod(7, 4194303, 18446744069414584321)) % 18446744069414584321);
    assert((pow_mod(7, 4194303, 18446744069414584321) * pow_mod(7, 4194303, 18446744069414584321)) % 18446744069414584321 == 16654626667483233145) by (nonlinear_arith)
        requires
            pow_mod(7, 4194303, 18446744069414584321) == 7790920094560990216,
    ;
    assert(pow_mod(7, 8388607, 18446744069414584321) == 5901922255895126089);
    assert(pow_mod(7, 16777214, 18446744069414584321) == (pow_mod(7, 8388607, 18446744069414584321) * pow_mod(7, 8388607, 18446744069414584321)) % 18446744069414584321);
    assert((pow_mod(7, 8388607, 18446744069414584321) * pow_mod(7, 8388607, 18446744069414584321)) % 18446744069414584321 == 9182212999444825067) by (nonlinear_arith)
        requires
            pow_mod(7, 8388607, 18446744069414584321) == 5901922255895126089,
    ;
    assert(pow_mod(7, 16777215, 18446744069414584321) == 8935258787870022506);
    assert(pow_mod(7, 33554430, 18446744069414584321) == (pow_mod(7, 16777215, 18446744069414584321) * pow_mod(7, 16777215, 18446744069414584321)) % 18446744069414584321);
    assert((pow_mod(7, 16777215, 18446744069414584321) * pow_mod(7, 16777215, 18446744069414584321)) % 18446744069414584321 == 17682034324931514088) by (nonlinear_arith)
        requires
            pow_mod(7, 16777215, 18446744069414584321) == 8935258787870022506,
    ;
    assert(pow_mod(7, 33554431, 18446744069414584321) == 13093775858033092690);
    assert(pow_mod(7, 67108862, 18446744069414584321) == (pow_mod(7, 33554431, 18446744069414584321) * pow_mod(7, 33554431, 18446744069414584321)) % 18446744069414584321);
    assert((pow_mod(7, 33554431, 18446744069414584321) * pow_mod(7, 33554431, 18446744069414584321)) % 18446744069414584321 == 9511995656157268947) by (nonlinear_arith)
        requires
            pow_mod(7, 33554431, 18446744069414584321) == 13093775858033092690,
    ;
    assert(pow_mod(7, 67108863, 18446744069414584321) == 11243737384857129666);
    assert(pow_mod(7, 134217726, 18446744069414584321) == (pow_mod(7, 67108863, 18446744069414584321) * pow_mod(7, 67108863, 18446744069414584321)) % 18446744069414584321);
    assert((pow_mod(7, 67108863, 18446744069414584321) * pow_mod(7, 67108863, 18446744069414584321)) % 18446744069414584321 == 16106297366990222687) by (nonlinear_arith)
        requires
            pow_mod(7, 67108863, 18446744069414584321) == 11243737384857129666,
    ;
    assert(pow_mod(7, 134217727, 18446744069414584321) == 2063617152444052883);
    assert(pow_mod(7, 268435454, 18446744069414584321) == (pow_mod(7, 134217727, 18446744069414584321) * pow_mod(7, 134217727, 18446744069414584321)) % 18446744069414584321);
    assert((pow_mod(7, 134217727, 18446744069414584321) * pow_mod(7, 134217727, 18446744069414584321)) % 18446744069414584321 == 4501656151559876649) by (nonlinear_arith)
        requires
            pow_mod(7, 134217727, 18446744069414584321) == 2063617152444052883,
    ;
    assert(pow_mod(7, 268435455, 18446744069414584321) == 13064848991504552222);
    assert(pow_mod(7, 536870910, 18446744069414584321) == (pow_mod(7, 268435455, 18446744069414584321) * pow_mod(7, 268435455, 18446744069414584321)) % 18446744069414584321);
    assert((pow_mod(7, 268435455, 18446744069414584321) * pow_mod(7, 268435455, 18446744069414584321)) % 18446744069414584321 == 2370486178716065012) by (nonlinear_arith)
        requires
            pow_mod(7, 268435455, 18446744069414584321) == 13064848991504552222,
    ;
    assert(pow_mod(7, 536870911, 18446744069414584321) == 16593403251012455084);
    assert(pow_mod(7, 1073741822, 18446744069414584321) == (pow_mod(7, 536870911, 18446744069414584321) * pow_mod(7, 536870911, 18446744069414584321)) % 18446744069414584321);
    assert((pow_mod(7, 536870911, 18446744069414584321) * pow_mod(7, 536870911, 18446744069414584321)) % 18446744069414584321 == 14013264900002007546) by (nonlinear_arith)
        requires
            pow_mod(7, 536870911, 18446744069414584321) == 16593403251012455084,
    ;
    assert(pow_mod(7, 1073741823, 18446744069414584321) == 5859133952941131217);
    assert(pow_mod(7, 2147483646, 18446744069414584321) == (pow_mod(7, 1073741823, 18446744069414584321) * pow_mod(7, 1073741823, 18446744069414584321)) % 18446744069414584321);
    assert((pow_mod(7, 1073741823, 18446744069414584321) * pow_mod(7, 1073741823, 18446744069414584321)) % 18446744069414584321 == 10142762553374040318) by (nonlinear_arith)
        requires
            pow_mod(7, 1073741823, 18446744069414584321) == 5859133952941131217,
    ;
    assert(pow_mod(7, 2147483647, 18446744069414584321) == 15659105665374529263);
    assert(pow_mod(7, 4294967294, 18446744069414584321) == (pow_mod(7, 2147483647, 18446744069414584321) * pow_mod(7, 2147483647, 18446744069414584321)) % 18446744069414584321);
    assert((pow_mod(7, 2147483647, 18446744069414584321) * pow_mod(7, 2147483647, 18446744069414584321)) % 18446744069414584321 == 16062014221418238814) by (nonlinear_arith)
        requires
            pow_mod(7, 2147483647, 18446744069414584321) == 15659105665374529263,
    ;
    assert(pow_mod(7, 4294967295, 18446744069414584321) == 1753635133440165772);
}

/// The generator of the `2^32`-torsion, squared 31 times, is `p - 1`.
proof fn lemma_generator_squares()
    ensures
        square_times(from_nat(1753635133440165772), 31) == from_nat(18446744069414584320),
{
    Goldilocks::lemma_from_nat(1753635133440165772);
    assert(square_times(from_nat(1753635133440165772), 0).value() == 1753635133440165772);
    assert(square_times(from_nat(1753635133440165772), 0).value() * square_times(from_nat(1753635133440165772), 0).value() == 3075236181235708013440281258840355984) by (nonlinear_arith)
        requires
            square_times(from_nat(1753635133440165772), 0).value() == 1753635133440165772,
    ;
    assert(square_times(from_nat(1753635133440165772), 1) == from_nat(4614640910117430873));
    Goldilocks::lemma_from_nat(4614640910117430873);
    assert(square_times(from_nat(1753635133440165772), 1).value() == 4614640910117430873);
    assert(square_times(from_nat(1753635133440165772), 1).value() * square_times(from_nat(1753635133440165772), 1).value() == 21294910729329430721299418869933542129) by (nonlinear_arith)
        requires
            square_times(from_nat(1753635133440165772), 1).value() == 4614640910117430873,
    ;
    assert(square_times(from_nat(1753635133440165772), 2) == from_nat(9123114210336311365));
    Goldilocks::lemma_from_nat(9123114210336311365);
    assert(square_times(from_nat(1753635133440165772), 2).value() == 9123114210336311365);
    assert(square_times(from_nat(1753635133440165772), 2).value() * square_times(from_nat(1753635133440165772), 2).value() == 83231212894840338086145098634228163225) by (nonlinear_arith)
        requires
            square_times(from_nat(1753635133440165772), 2).value() == 9123114210336311365,
    ;
    assert(square_times(from_nat(1753635133440165772), 3) == from_nat(16116352524544190054));
    Goldilocks::lemma_from_nat(16116352524544190054);
    assert(square_times(from_nat(1753635133440165772), 3).value() == 16116352524544190054);
    assert(square_times(from_nat(1753635133440165772), 3).value() * square_times(from_nat(1753635133440165772), 3).value() == 259736818695381888076933335406872522916) by (nonlinear_arith)
        requires
            square_times(from_nat(1753635133440165772), 3).value() == 16116352524544190054,
    ;
    assert(square_times(from_nat(1753635133440165772), 4) == from_nat(6414415596519834757));
    Goldilocks::lemma_from_nat(6414415596519834757);
    assert(square_times(from_nat(1753635133440165772), 4).value() == 6414415596519834757);
    assert(square_times(from_nat(1753635133440165772), 4).value() * square_times(from_nat(1753635133440165772), 4).value() == 41144727444876907561557568518585249049) by (nonlinear_arith)
        requires
            square_times(from_nat(1753635133440165772), 4).value() == 6414415596519834757,
    ;
    assert(square_times(from_nat(1753635133440165772), 5) == from_nat(1213594585890690845));
    Goldilocks::lemma_from_nat(1213594585890690845);
    assert(square_times(from_nat(1753635133440165772), 5).value() == 1213594585890690845);
    assert(square_times(from_nat(1753635133440165772), 5).value() * square_times(from_nat(1753635133440165772), 5).value() == 1472811818903197398595478831366814025) by (nonlinear_arith)
        requires
            square_times(from_nat(1753635133440165772), 5).value() == 1213594585890690845,
    ;
    assert(square_times(from_nat(1753635133440165772), 6) == from_nat(17096174751763063430));
    Goldilocks::lemma_from_nat(17096174751763063430);
    assert(square_times(from_nat(1753635133440165772), 6).value() == 17096174751763063430);
    assert(square_times(from_nat(1753635133440165772), 6).value() * square_times(from_nat(1753635133440165772), 6).value() == 292279191142820843492337177658203364900) by (nonlinear_arith)
        requires
            square_times(from_nat(1753635133440165772), 6).value() == 17096174751763063430,
    ;
    assert(square_times(from_nat(1753635133440165772), 7) == from_nat(5456943929260765144));
    Goldilocks::lemma_from_nat(5456943929260765144);
    assert(square_times(from_nat(1753635133440165772), 7).value() == 5456943929260765144);
    assert(square_times(from_nat(1753635133440165772), 7).value() * square_times(from_nat(1753635133440165772), 7).value() == 29778237047095918579959220012325340736) by (nonlinear_arith)
        requires
            square_times(from_nat(1753635133440165772), 7).value() == 5456943929260765144,
    ;
    assert(square_times(from_nat(1753635133440165772), 8) == from_nat(9713644485405565297));
    Goldilocks::lemma_from_nat(9713644485405565297);
    assert(square_times(from_nat(1753635133440165772), 8).value() == 9713644485405565297);
    assert(square_times(from_nat(1753635133440165772), 8).value() * square_times(from_nat(1753635133440165772), 8).value() == 94354889188849949446187357300130698209) by (nonlinear_arith)
        requires
            square_times(from_nat(1753635133440165772), 8).value() == 9713644485405565297,
    ;
    assert(square_times(from_nat(1753635133440165772), 9) == from_nat(16905767614792059275));
    Goldilocks::lemma_from_nat(16905767614792059275);
    assert(square_times(from_nat(1753635133440165772), 9).value() == 16905767614792059275);
    assert(square_times(from_nat(1753635133440165772), 9).value() * square_times(from_nat(1753635133440165772), 9).value() == 285804978645351993075953997595113525625) by (nonlinear_arith)
        requires
            square_times(from_nat(1753635133440165772), 9).value() == 16905767614792059275,
    ;
    assert(square_times(from_nat(1753635133440165772), 10) == from_nat(5416168637041100469));
    Goldilocks::lemma_from_nat(5416168637041100469);
    assert(square_times(from_nat(1753635133440165772), 10).value() == 5416168637041100469);
    assert(square_times(from_nat(1753635133440165772), 10).value() * square_times(from_nat(1753635133440165772), 10).value() == 29334882704867651911329270754552019961) by (nonlinear_arith)
        requires
            square_times(from_nat(1753635133440165772), 10).value() == 5416168637041100469,
    ;
    assert(square_times(from_nat(1753635133440165772), 11) == from_nat(17654865857378133588));
    Goldilocks::lemma_from_nat(17654865857378133588);
    assert(square_times(from_nat(1753635133440165772), 11).value() == 17654865857378133588);
    assert(square_times(from_nat(1753635133440165772), 11).value() * square_times(from_nat(1753635133440165772), 11).value() == 311694288442016139993475194842373753744) by (nonlinear_arith)
        requires
            square_times(from_nat(1753635133440165772), 11).value() == 17654865857378133588,
    ;
    assert(square_times(from_nat(1753635133440165772), 12) == from_nat(3511170319078647661));
    Goldilocks::lemma_from_nat(3511170319078647661);
    assert(square_times(from_nat(1753635133440165772), 12).value() == 3511170319078647661);
    assert(square_times(from_nat(1753635133440165772), 12).value() * square_times(from_nat(1753635133440165772), 12).value() == 12328317009578852426930133172580770921) by (nonlinear_arith)
        requires
            square_times(from_nat(1753635133440165772), 12).value() == 3511170319078647661,
    ;
    assert(square_times(from_nat(1753635133440165772), 13) == from_nat(18146160046829613826));
    Goldilocks::lemma_from_nat(18146160046829613826);
    assert(square_times(from_nat(1753635133440165772), 13).value() == 18146160046829613826);
    assert(square_times(from_nat(1753635133440165772), 13).value() * square_times(from_nat(1753635133440165772), 13).value() == 329283124445155332642629051092290358276) by (nonlinear_arith)
        requires
            square_times(from_nat(1753635133440165772), 13).value() == 18146160046829613826,
    ;
    assert(square_times(from_nat(1753635133440165772), 14) == from_nat(9306717745644682924));
    Goldilocks::lemma_from_nat(9306717745644682924);
    assert(square_times(from_nat(1753635133440165772), 14).value() == 9306717745644682924);
    assert(square_times(from_nat(1753635133440165772), 14).value() * square_times(from_nat(1753635133440165772), 14).value() == 86614995197097649042794188832497189776) by (nonlinear_arith)
        requires
            square_times(from_nat(1753635133440165772), 14).value() == 9306717745644682924,
    ;
    assert(square_times(from_nat(1753635133440165772), 15) == from_nat(12380578893860276750));
    Goldilocks::lemma_from_nat(12380578893860276750);
    assert(square_times(from_nat(1753635133440165772), 15).value() == 12380578893860276750);
    assert(square_times(from_nat(1753635133440165772), 15).value() * square_times(from_nat(1753635133440165772), 15).value() == 153278733747098553796117351586590562500) by (nonlinear_arith)
        requires
            square_times(from_nat(1753635133440165772), 15).value() == 12380578893860276750,
    ;
    assert(square_times(from_nat(1753635133440165772), 16) == from_nat(6115771955107415310));
    Goldilocks::lemma_from_nat(6115771955107415310);
    assert(square_times(from_nat(1753635133440165772), 16).value() == 6115771955107415310);
    assert(square_times(from_nat(1753635133440165772), 16).value() * square_times(from_nat(1753635133440165772), 16).value() == 37402666606878377105882800148822396100) by (nonlinear_arith)
        requires
            square_times(from_nat(1753635133440165772), 16).value() == 6115771955107415310,
    ;
    assert(square_times(from_nat(1753635133440165772), 17) == from_nat(17776499369601055404));
    Goldilocks::lemma_from_nat(17776499369601055404);
    assert(square_times(from_nat(1753635133440165772), 17).value() == 17776499369601055404);
    assert(square_times(from_nat(1753635133440165772), 17).value() * square_times(from_nat(1753635133440165772), 17).value() == 316003929837426720181241347750677603216) by (nonlinear_arith)
        requires
            square_times(from_nat(1753635133440165772), 17).value() == 17776499369601055404,
    ;
    assert(square_times(from_nat(1753635133440165772), 18) == from_nat(16207902636198568418));
    Goldilocks::lemma_from_nat(16207902636198568418);
    assert(square_times(from_nat(1753635133440165772), 18).value() == 16207902636198568418);
    assert(square_times(from_nat(1753635133440165772), 18).value() * square_times(from_nat(1753635133440165772), 18).value() == 262696107864492503667096529112627022724) by (nonlinear_arith)
        requires
            square_times(from_nat(1753635133440165772), 18).value() == 16207902636198568418,
    ;
    assert(square_times(from_nat(1753635133440165772), 19) == from_nat(1532612707718625687));
    Goldilocks::lemma_from_nat(1532612707718625687);
    assert(square_times(from_nat(1753635133440165772), 19).value() == 1532612707718625687);
    assert(square_times(from_nat(1753635133440165772), 19).value() * square_times(from_nat(1753635133440165772), 19).value() == 2348901711860617568462032296016221969) by (nonlinear_arith)
        requires
            square_times(from_nat(1753635133440165772), 19).value() == 1532612707718625687,
    ;
    assert(square_times(from_nat(1753635133440165772), 20) == from_nat(17492915097719143606));
    Goldilocks::lemma_from_nat(17492915097719143606);
    assert(square_times(from_nat(1753635133440165772), 20).value() == 17492915097719143606);
    assert(square_times(from_nat(1753635133440165772), 20).value() * square_times(from_nat(1753635133440165772), 20).value() == 306002078616010355494134007090050683236) by (nonlinear_arith)
        requires
            square_times(from_nat(1753635133440165772), 20).value() == 17492915097719143606,
    ;
    assert(square_times(from_nat(1753635133440165772), 21) == from_nat(455906449640507599));
    Goldilocks::lemma_from_nat(455906449640507599);
    assert(square_times(from_nat(1753635133440165772), 21).value() == 455906449640507599);
    assert(square_times(from_nat(1753635133440165772), 21).value() * square_times(from_nat(1753635133440165772), 21).value() == 207850690823812691445461886376744801) by (nonlinear_arith)
        requires
            square_times(from_nat(1753635133440165772), 21).value() == 455906449640507599,
    ;
    assert(square_times(from_nat(1753635133440165772), 22) == from_nat(11353340290879379826));
    Goldilocks::lemma_from_nat(11353340290879379826);
    assert(square_times(from_nat(1753635133440165772), 22).value() == 11353340290879379826);
    assert(square_times(from_nat(1753635133440165772), 22).value() * square_times(from_nat(1753635133440165772), 22).value() == 128898335760505080918251287958375790276) by (nonlinear_arith)
        requires
            square_times(from_nat(1753635133440165772), 22).value() == 11353340290879379826,
    ;
    assert(square_times(from_nat(1753635133440165772), 23) == from_nat(1803076106186727246));
    Goldilocks::lemma_from_nat(1803076106186727246);
    assert(square_times(from_nat(1753635133440165772), 23).value() == 1803076106186727246);
    assert(square_times(from_nat(1753635133440165772), 23).value() * square_times(from_nat(1753635133440165772), 23).value() == 3251083444701490107238435216398744516) by (nonlinear_arith)
        requires
            square_times(from_nat(1753635133440165772), 23).value() == 1803076106186727246,
    ;
    assert(square_times(from_nat(1753635133440165772), 24) == from_nat(13797081185216407910));
    Goldilocks::lemma_from_nat(13797081185216407910);
    assert(square_times(from_nat(1753635133440165772), 24).value() == 13797081185216407910);
    assert(square_times(from_nat(1753635133440165772), 24).value() * square_times(from_nat(1753635133440165772), 24).value() == 190359449231452599231739179083510568100) by (nonlinear_arith)
        requires
            square_times(from_nat(1753635133440165772), 24).value() == 13797081185216407910,
    ;
    assert(square_times(from_nat(1753635133440165772), 25) == from_nat(17870292113338400769));
    Goldilocks::lemma_from_nat(17870292113338400769);
    assert(square_times(from_nat(1753635133440165772), 25).value() == 17870292113338400769);
    assert(square_times(from_nat(1753635133440165772), 25).value() * square_times(from_nat(1753635133440165772), 25).value() == 319347340216044645955702184874459791361) by (nonlinear_arith)
        requires
            square_times(from_nat(1753635133440165772), 25).value() == 17870292113338400769,
    ;
    assert(square_times(from_nat(1753635133440165772), 26) == from_nat(549755813888));
    Goldilocks::lemma_from_nat(549755813888);
    assert(square_times(from_nat(1753635133440165772), 26).value() == 549755813888);
    assert(square_times(from_nat(1753635133440165772), 26).value() * square_times(from_nat(1753635133440165772), 26).value() == 302231454903657293676544) by (nonlinear_arith)
        requires
            square_times(from_nat(1753635133440165772), 26).value() == 549755813888,
    ;
    assert(square_times(from_nat(1753635133440165772), 27) == from_nat(70368744161280));
    Goldilocks::lemma_from_nat(70368744161280);
    assert(square_times(from_nat(1753635133440165772), 27).value() == 70368744161280);
    assert(square_times(from_nat(1753635133440165772), 27).value() * square_times(from_nat(1753635133440165772), 27).value() == 4951760154835678090651238400) by (nonlinear_arith)
        requires
            square_times(from_nat(1753635133440165772), 27).value() == 70368744161280,
    ;
    assert(square_times(from_nat(1753635133440165772), 28) == from_nat(17293822564807737345));
    Goldilocks::lemma_from_nat(17293822564807737345);
    assert(square_times(from_nat(1753635133440165772), 28).value() == 17293822564807737345);
    assert(square_times(from_nat(1753635133440165772), 28).value() * square_times(from_nat(1753635133440165772), 28).value() == 299076298903053266742145344778507649025) by (nonlinear_arith)
        requires
            square_times(from_nat(1753635133440165772), 28).value() == 17293822564807737345,
    ;
    assert(square_times(from_nat(1753635133440165772), 29) == from_nat(18446744069397807105));
    Goldilocks::lemma_from_nat(18446744069397807105);
    assert(square_times(from_nat(1753635133440165772), 29).value() == 18446744069397807105);
    assert(square_times(from_nat(1753635133440165772), 29).value() * square_times(from_nat(1753635133440165772), 29).value() == 340282366761863168470687870982788481025) by (nonlinear_arith)
        requires
            square_times(from_nat(1753635133440165772), 29).value() == 18446744069397807105,
    ;
    assert(square_times(from_nat(1753635133440165772), 30) == from_nat(281474976710656));
    Goldilocks::lemma_from_nat(281474976710656);
    assert(square_times(from_nat(1753635133440165772), 30).value() == 281474976710656);
    assert(square_times(from_nat(1753635133440165772), 30).value() * square_times(from_nat(1753635133440165772), 30).value() == 79228162514264337593543950336) by (nonlinear_arith)
        requires
            square_times(from_nat(1753635133440165772), 30).value() == 281474976710656,
    ;
    assert(square_times(from_nat(1753635133440165772), 31) == from_nat(18446744069414584320));
    Goldilocks::lemma_from_nat(18446744069414584320);
}

proof fn lemma_generator_primitive_goldilocks(bits: u32)
    requires
        1 <= bits <= 32,
    ensures
        Goldilocks::spec_two_adic_generator(bits).wf(),
        crate::fft::fpow(Goldilocks::spec_two_adic_generator(bits), crate::merkle::two_pow((bits - 1) as nat))
            == Goldilocks::spec_one().spec_neg(),
{
    let g = full_two_adic_generator();
    lemma_pow_mod(7, 0xFFFF_FFFF, p());
    lemma_pow_mod_generator();
    lemma_pow_nonneg(7, 0xFFFF_FFFF);
    assert((pow(7, 0xFFFF_FFFF) as nat) % p() == 1753635133440165772);
    assert(g == from_nat(1753635133440165772));
    Goldilocks::lemma_from_nat(1753635133440165772);
    lemma_generator_squares();
    lemma_fpow_two_pow(g, (32 - bits) as nat);
    let h = square_times(g, (32 - bits) as nat);
    lemma_fpow_two_pow(h, (bits - 1) as nat);
    lemma_square_times_add(g, (32 - bits) as nat, (bits - 1) as nat);
    assert((32 - bits) as nat + (bits - 1) as nat == 31);
    Goldilocks::lemma_from_nat(1);
    lemma_small_mod(1, p());
}

/// Raising to a power commutes with reduction: `from_nat(x)^e = from_nat(x^e)`.
proof fn lemma_fpow_from_nat(x: nat, e: nat)
    ensures
        crate::fft::fpow(from_nat(x), e) == from_nat(pow(x as int, e) as nat),
    decreases e,
{
    reveal(pow);
    lemma_pow_nonneg(x as int, e);
    if e == 0 {
        assert(pow(x as int, 0) == 1);
    } else {
        lemma_fpow_from_nat(x, (e - 1) as nat);
        let a = pow(x as int, (e - 1) as nat);
        lemma_pow_nonneg(x as int, (e - 1) as nat);
        assert(pow(x as int, e) == x * a);
        Goldilocks::lemma_from_nat(a as nat);
        Goldilocks::lemma_from_nat(x);
        lemma_mul_mod_noop(a, x as int, p() as int);
        assert((a as nat % p()) * (x % p()) >= 0) by (nonlinear_arith);
        assert(a * x == x * a) by (nonlinear_arith);
        assert(((a as nat % p()) * (x % p())) % p() == (x * a) as nat % p());
    }
}

/// The inverse of each subgroup generator is primitive of the same order:
/// with `g^h = -1` and `g⁻¹ = g^(p-2)`, `(g⁻¹)^h = -1` too.
proof fn lemma_generator_inverse_primitive_goldilocks(bits: u32)
    requires
        1 <= bits <= 32,
    ensures
        Goldilocks::spec_two_adic_generator(bits).spec_inverse() is Some,
        crate::fft::fpow(Goldilocks::spec_two_adic_generator(bits).spec_inverse()->0, crate::merkle::two_pow((bits - 1) as nat))
            == Goldilocks::spec_one().spec_neg(),
{
    let g = Goldilocks::spec_two_adic_generator(bits);
    let h = crate::merkle::two_pow((bits - 1) as nat);
    lemma_generator_primitive_goldilocks(bits);
    lemma_from_nat_value(g);
    let v = g.value();
    // g is not zero: a power of zero is zero, and -1 is not.
    Goldilocks::lemma_from_nat(1);
    Goldilocks::lemma_from_nat((p() - 1) as nat);
    if v == 0 {
        crate::fft::lemma_two_pow_pos((bits - 1) as nat);
        lemma_fpow_zero_base(h);
        Goldilocks::lemma_from_nat(0);
        assert(false);
    }
    lemma_fpow_from_nat(v, (p() - 2) as nat);
    crate::fft::lemma_power_keeps_primitive(g, h, (p() - 2) as nat);
}

/// `(-1)^2 = 1`.
proof fn lemma_minus_one_squared()
    ensures
        crate::fft::fpow(Goldilocks::spec_one().spec_neg(), 2) == Goldilocks::spec_one(),
{
    let one = Goldilocks::spec_one();
    let m = one.spec_neg();
    reveal_with_fuel(crate::fft::fpow, 3);
    crate::field::lemma_basics(one, one);
    crate::field::lemma_basics(m, m);
    crate::field::lemma_mul_comm(one, m);
    crate::fft::lemma_neg_mul(one, m);
    crate::fft::lemma_neg_neg(one);
}

/// The full two-adic generator has order `2^32`: `g^(2^32) = 1`.
proof fn lemma_full_generator_order()
    ensures
        crate::fft::fpow(full_two_adic_generator(), crate::merkle::two_pow(32)) == Goldilocks::spec_one(),
{
    let g = full_two_adic_generator();
    lemma_generator_primitive_goldilocks(32);
    assert(Goldilocks::spec_two_adic_generator(32) == g);
    crate::fft::lemma_fpow_mul(g, crate::merkle::two_pow(31), 2);
    assert(crate::merkle::two_pow(32) == crate::merkle::two_pow(31) * 2);
    lemma_minus_one_squared();
}

/// `a^(2^32 - 1)` raised to `2^32` is `a^(p-1)`.
proof fn lemma_order_split(a: Goldilocks)
    ensures
        crate::fft::fpow(crate::fft::fpow(a, 0xFFFF_FFFF), crate::merkle::two_pow(32)) == crate::fft::fpow(a, (p() - 1) as nat),
        crate::fft::fpow(crate::fft::fpow(a, crate::merkle::two_pow(32)), 0xFFFF_FFFF) == crate::fft::fpow(a, (p() - 1) as nat),
{
    assert(crate::merkle::two_pow(32) == 0x1_0000_0000) by {
        reveal_with_fuel(crate::merkle::two_pow, 33);
    }
    crate::fft::lemma_fpow_mul(a, 0xFFFF_FFFF, crate::merkle::two_pow(32));
    crate::fft::lemma_fpow_mul(a, crate::merkle::two_pow(32), 0xFFFF_FFFF);
    assert(0xFFFF_FFFFnat * 0x1_0000_0000nat == (p() - 1) as nat);
}

/// `7^(p-1) = 1`: 7 to the power `2^32 - 1` is the full generator, whose
/// order is `2^32`.
proof fn lemma_seven_order()
    ensures
        crate::fft::fpow(from_nat(7), (p() - 1) as nat) == Goldilocks::spec_one(),
{
    lemma_full_generator_order();
    lemma_fpow_from_nat(7, 0xFFFF_FFFF);
    lemma_pow_nonneg(7, 0xFFFF_FFFF);
    lemma_order_split(from_nat(7));
}

/// Each subgroup generator `g` has `g^(p-1) = 1`.
proof fn lemma_generator_order(bits: u32)
    requires
        bits <= 32,
    ensures
        crate::fft::fpow(Goldilocks::spec_two_adic_generator(bits), (p() - 1) as nat) == Goldilocks::spec_one(),
{
    let full = full_two_adic_generator();
    let k = (32 - bits) as nat;
    let q = (p() - 1) as nat;
    Goldilocks::lemma_from_nat(pow(7, 0xFFFF_FFFF) as nat);
    lemma_fpow_two_pow(full, k);
    lemma_full_generator_order();
    lemma_order_split(full);
    crate::fft::lemma_fpow_of_one::<Goldilocks>(0xFFFF_FFFF);
    crate::fft::lemma_fpow_mul(full, crate::merkle::two_pow(k), q);
    crate::fft::lemma_fpow_mul(full, q, crate::merkle::two_pow(k));
    assert(crate::merkle::two_pow(k) * q == q * crate::merkle::two_pow(k)) by (nonlinear_arith);
    crate::fft::lemma_fpow_of_one::<Goldilocks>(crate::merkle::two_pow(k));
}

/// `2^(p-1) = 1`, since `2^192 = 1` and `192` divides `p - 1`.
proof fn lemma_two_order()
    ensures
        crate::fft::fpow(from_nat(2), (p() - 1) as nat) == Goldilocks::spec_one(),
{
    lemma_fpow_from_nat(2, 192);
    vstd::arithmetic::power::lemma_pow_multiplies(2, 64, 3);
    vstd::arithmetic::power2::lemma_pow2(64);
    vstd::arithmetic::power2::lemma2_to64();
    let x: int = 0x1_0000_0000_0000_0000;
    assert(pow(2, 64) == x);
    assert(pow(x, 3) == x * x * x) by {
        reveal_with_fuel(pow, 4);
    }
    assert((x * x * x) % (p() as int) == 1);
    assert(from_nat(pow(2, 192) as nat) == from_nat(1));
    crate::fft::lemma_fpow_mul(from_nat(2), 192, 96076792028200960);
    assert(192nat * 96076792028200960nat == (p() - 1) as nat);
    crate::fft::lemma_fpow_of_one::<Goldilocks>(96076792028200960);
}

/// An element with `x^(p-1) = 1` has an inverse, and it is exact.
proof fn lemma_inverse_exact_of_order(x: Goldilocks)
    requires
        x.canonical(),
        crate::fft::fpow(x, (p() - 1) as nat) == Goldilocks::spec_one(),
    ensures
        crate::fold::inverse_exact(x),
{
    let v = x.value();
    lemma_from_nat_value(x);
    Goldilocks::lemma_from_nat(0);
    Goldilocks::lemma_from_nat(1);
    if v == 0 {
        lemma_fpow_zero_base((p() - 1) as nat);
        assert(false);
    }
    lemma_fpow_from_nat(v, (p() - 2) as nat);
    let y = crate::fft::fpow(x, (p() - 2) as nat);
    assert(crate::fft::fpow(x, (p() - 1) as nat) == y.spec_mul(x));
    crate::field::lemma_mul_comm(x, y);
}

/// Over Goldilocks every inverse a FRI fold takes is exact: `2`, and each
/// point `shift_r · g_r^j`, have `x^(p-1) = 1`, so `x^(p-2)` is their inverse.
pub proof fn law_goldilocks_fold_inverses_exact(domain: nat, rounds: nat)
    requires
        crate::fft::subgroup_size::<Goldilocks>(domain),
        rounds <= crate::fft::log2(domain),
    ensures
        crate::fold::fold_inverses_exact::<Goldilocks>(domain, rounds),
{
    let one = Goldilocks::spec_one();
    let q = (p() - 1) as nat;
    let seven = from_nat(7);
    Goldilocks::lemma_from_nat(1);
    Goldilocks::lemma_from_nat(2);
    Goldilocks::lemma_from_nat(7);
    lemma_two_order();
    lemma_inverse_exact_of_order(from_nat(2));
    assert(Goldilocks::spec_from_u64(2) == one.spec_add(one));
    lemma_seven_order();
    let big_l = crate::fft::log2(domain);
    assert forall|r: nat, j: nat| r < rounds && j < domain / crate::merkle::two_pow(r) / 2 implies crate::fold::inverse_exact(
        #[trigger] crate::fold::fold_point::<Goldilocks>(domain, r, j),
    ) by {
        let m = domain / crate::merkle::two_pow(r);
        crate::fft::lemma_two_pow_add(r, (big_l - r) as nat);
        crate::fft::lemma_two_pow_pos(r);
        vstd::arithmetic::div_mod::lemma_div_multiples_vanish(
            crate::merkle::two_pow((big_l - r) as nat) as int,
            crate::merkle::two_pow(r) as int,
        );
        assert(m == crate::merkle::two_pow((big_l - r) as nat));
        crate::air::lemma_log2_of_two_pow((big_l - r) as nat);
        let bits = crate::fft::log2(m) as u32;
        lemma_generator_order(bits);
        let g = Goldilocks::spec_two_adic_generator(bits);
        assert(crate::fft::subgroup_root::<Goldilocks>(m) == g);
        let s = crate::fri::round_shift::<Goldilocks>(r);
        let gj = crate::fft::fpow(g, j);
        // s^(p-1) = (7^(p-1))^(2^r) = 1
        crate::fft::lemma_fpow_mul(seven, crate::merkle::two_pow(r), q);
        crate::fft::lemma_fpow_mul(seven, q, crate::merkle::two_pow(r));
        assert(crate::merkle::two_pow(r) * q == q * crate::merkle::two_pow(r)) by (nonlinear_arith);
        crate::fft::lemma_fpow_of_one::<Goldilocks>(crate::merkle::two_pow(r));
        // (g^j)^(p-1) = (g^(p-1))^j = 1
        crate::fft::lemma_fpow_mul(g, j, q);
        crate::fft::lemma_fpow_mul(g, q, j);
        assert(j * q == q * j) by (nonlinear_arith);
        crate::fft::lemma_fpow_of_one::<Goldilocks>(j);
        crate::fft::lemma_fpow_mul_base(s, gj, q);
        crate::field::lemma_basics(one, one);
        crate::field::lemma_basics(s, gj);
        lemma_inverse_exact_of_order(s.spec_mul(gj));
    }
}

/// Over Goldilocks every FRI run over a two-adic coset can fold: `2` and
/// every point a fold divides by are invertible.
pub proof fn law_goldilocks_fri_invertible(domain: nat, rounds: nat)
    requires
        crate::fft::subgroup_size::<Goldilocks>(domain),
        rounds <= crate::fft::log2(domain),
    ensures
        crate::fri::fri_invertible::<Goldilocks>(domain, rounds),
{
    law_goldilocks_fold_inverses_exact(domain, rounds);
    assert forall|r: nat| r < rounds implies #[trigger] crate::fri::coset_invertible::<Goldilocks>(
        crate::fft::fpow(Goldilocks::spec_from_u64(7), crate::merkle::two_pow(r)),
        domain / crate::merkle::two_pow(r),
    ) by {
        let m = domain / crate::merkle::two_pow(r);
        assert forall|j: nat| j < m / 2 implies (#[trigger] crate::fft::fpow(Goldilocks::spec_from_u64(7), crate::merkle::two_pow(r)).spec_mul(
            crate::fft::fpow(crate::fft::subgroup_root::<Goldilocks>(m), j),
        )).spec_inverse() is Some by {
            assert(crate::fold::inverse_exact(crate::fold::fold_point::<Goldilocks>(domain, r, j)));
        }
    }
}

/// `7` squared `32` times, i.e. `7^(2^32)`, is not `1`: `7` lies outside
/// the `2^32`-torsion.
proof fn lemma_seven_squares()
    ensures
        square_times(from_nat(7), 32) == from_nat(12275445934081160404),
{
    Goldilocks::lemma_from_nat(7);
    assert(square_times(from_nat(7), 0).value() == 7);
    assert(square_times(from_nat(7), 0).value() * square_times(from_nat(7), 0).value() == 49) by (nonlinear_arith)
        requires
            square_times(from_nat(7), 0).value() == 7,
    ;
    assert(square_times(from_nat(7), 1) == from_nat(49));
    Goldilocks::lemma_from_nat(49);
    assert(square_times(from_nat(7), 1).value() == 49);
    assert(square_times(from_nat(7), 1).value() * square_times(from_nat(7), 1).value() == 2401) by (nonlinear_arith)
        requires
            square_times(from_nat(7), 1).value() == 49,
    ;
    assert(square_times(from_nat(7), 2) == from_nat(2401));
    Goldilocks::lemma_from_nat(2401);
    assert(square_times(from_nat(7), 2).value() == 2401);
    assert(square_times(from_nat(7), 2).value() * square_times(from_nat(7), 2).value() == 5764801) by (nonlinear_arith)
        requires
            square_times(from_nat(7), 2).value() == 2401,
    ;
    assert(square_times(from_nat(7), 3) == from_nat(5764801));
    Goldilocks::lemma_from_nat(5764801);
    assert(square_times(from_nat(7), 3).value() == 5764801);
    assert(square_times(from_nat(7), 3).value() * square_times(from_nat(7), 3).value() == 33232930569601) by (nonlinear_arith)
        requires
            square_times(from_nat(7), 3).value() == 5764801,
    ;
    assert(square_times(from_nat(7), 4) == from_nat(33232930569601));
    Goldilocks::lemma_from_nat(33232930569601);
    assert(square_times(from_nat(7), 4).value() == 33232930569601);
    assert(square_times(from_nat(7), 4).value() * square_times(from_nat(7), 4).value() == 1104427674243920646305299201) by (nonlinear_arith)
        requires
            square_times(from_nat(7), 4).value() == 33232930569601,
    ;
    assert(square_times(from_nat(7), 5) == from_nat(3732854072722565977));
    Goldilocks::lemma_from_nat(3732854072722565977);
    assert(square_times(from_nat(7), 5).value() == 3732854072722565977);
    assert(square_times(from_nat(7), 5).value() * square_times(from_nat(7), 5).value() == 13934199528241447883588318279117964529) by (nonlinear_arith)
        requires
            square_times(from_nat(7), 5).value() == 3732854072722565977,
    ;
    assert(square_times(from_nat(7), 6) == from_nat(11250886851934520606));
    Goldilocks::lemma_from_nat(11250886851934520606);
    assert(square_times(from_nat(7), 6).value() == 11250886851934520606);
    assert(square_times(from_nat(7), 6).value() * square_times(from_nat(7), 6).value() == 126582454955033067397941232175038607236) by (nonlinear_arith)
        requires
            square_times(from_nat(7), 6).value() == 11250886851934520606,
    ;
    assert(square_times(from_nat(7), 7) == from_nat(12159723539389677939));
    Goldilocks::lemma_from_nat(12159723539389677939);
    assert(square_times(from_nat(7), 7).value() == 12159723539389677939);
    assert(square_times(from_nat(7), 7).value() * square_times(from_nat(7), 7).value() == 147858876554387436536126461138143287721) by (nonlinear_arith)
        requires
            square_times(from_nat(7), 7).value() == 12159723539389677939,
    ;
    assert(square_times(from_nat(7), 8) == from_nat(1536671775522476176));
    Goldilocks::lemma_from_nat(1536671775522476176);
    assert(square_times(from_nat(7), 8).value() == 1536671775522476176);
    assert(square_times(from_nat(7), 8).value() * square_times(from_nat(7), 8).value() == 2361360145687399410811246154487582976) by (nonlinear_arith)
        requires
            square_times(from_nat(7), 8).value() == 1536671775522476176,
    ;
    assert(square_times(from_nat(7), 9) == from_nat(18371408314118145657));
    Goldilocks::lemma_from_nat(18371408314118145657);
    assert(square_times(from_nat(7), 9).value() == 18371408314118145657);
    assert(square_times(from_nat(7), 9).value() * square_times(from_nat(7), 9).value() == 337508643444049326806559542992267961649) by (nonlinear_arith)
        requires
            square_times(from_nat(7), 9).value() == 18371408314118145657,
    ;
    assert(square_times(from_nat(7), 10) == from_nat(2431605942540367610));
    Goldilocks::lemma_from_nat(2431605942540367610);
    assert(square_times(from_nat(7), 10).value() == 2431605942540367610);
    assert(square_times(from_nat(7), 10).value() * square_times(from_nat(7), 10).value() == 5912707459797629546972674393937112100) by (nonlinear_arith)
        requires
            square_times(from_nat(7), 10).value() == 2431605942540367610,
    ;
    assert(square_times(from_nat(7), 11) == from_nat(6358221588783459004));
    Goldilocks::lemma_from_nat(6358221588783459004);
    assert(square_times(from_nat(7), 11).value() == 6358221588783459004);
    assert(square_times(from_nat(7), 11).value() * square_times(from_nat(7), 11).value() == 40426981772072053649705364714948672016) by (nonlinear_arith)
        requires
            square_times(from_nat(7), 11).value() == 6358221588783459004,
    ;
    assert(square_times(from_nat(7), 12) == from_nat(10083885515493449909));
    Goldilocks::lemma_from_nat(10083885515493449909);
    assert(square_times(from_nat(7), 12).value() == 10083885515493449909);
    assert(square_times(from_nat(7), 12).value() * square_times(from_nat(7), 12).value() == 101684747089578600004729829082692108281) by (nonlinear_arith)
        requires
            square_times(from_nat(7), 12).value() == 10083885515493449909,
    ;
    assert(square_times(from_nat(7), 13) == from_nat(15094611910849701842));
    Goldilocks::lemma_from_nat(15094611910849701842);
    assert(square_times(from_nat(7), 13).value() == 15094611910849701842);
    assert(square_times(from_nat(7), 13).value() * square_times(from_nat(7), 13).value() == 227847308739165687189126269660298192964) by (nonlinear_arith)
        requires
            square_times(from_nat(7), 13).value() == 15094611910849701842,
    ;
    assert(square_times(from_nat(7), 14) == from_nat(18060412910171584788));
    Goldilocks::lemma_from_nat(18060412910171584788);
    assert(square_times(from_nat(7), 14).value() == 18060412910171584788);
    assert(square_times(from_nat(7), 14).value() * square_times(from_nat(7), 14).value() == 326178514485892452340739067499473004944) by (nonlinear_arith)
        requires
            square_times(from_nat(7), 14).value() == 18060412910171584788,
    ;
    assert(square_times(from_nat(7), 15) == from_nat(10529651373896570371));
    Goldilocks::lemma_from_nat(10529651373896570371);
    assert(square_times(from_nat(7), 15).value() == 10529651373896570371);
    assert(square_times(from_nat(7), 15).value() * square_times(from_nat(7), 15).value() == 110873558055801932005786377196155077641) by (nonlinear_arith)
        requires
            square_times(from_nat(7), 15).value() == 10529651373896570371,
    ;
    assert(square_times(from_nat(7), 16) == from_nat(11156834669773791359));
    Goldilocks::lemma_from_nat(11156834669773791359);
    assert(square_times(from_nat(7), 16).value() == 11156834669773791359);
    assert(square_times(from_nat(7), 16).value() * square_times(from_nat(7), 16).value() == 124474959848666464082926403409263066881) by (nonlinear_arith)
        requires
            square_times(from_nat(7), 16).value() == 11156834669773791359,
    ;
    assert(square_times(from_nat(7), 17) == from_nat(11840798296997857860));
    Goldilocks::lemma_from_nat(11840798296997857860);
    assert(square_times(from_nat(7), 17).value() == 11840798296997857860);
    assert(square_times(from_nat(7), 17).value() * square_times(from_nat(7), 17).value() == 140204504310187370913672133428763779600) by (nonlinear_arith)
        requires
            square_times(from_nat(7), 17).value() == 11840798296997857860,
    ;
    assert(square_times(from_nat(7), 18) == from_nat(1447330804268045396));
    Goldilocks::lemma_from_nat(1447330804268045396);
    assert(square_times(from_nat(7), 18).value() == 1447330804268045396);
    assert(square_times(from_nat(7), 18).value() * square_times(from_nat(7), 18).value() == 2094766456983187133074205102316796816) by (nonlinear_arith)
        requires
            square_times(from_nat(7), 18).value() == 1447330804268045396,
    ;
    assert(square_times(from_nat(7), 19) == from_nat(15265864706138236984));
    Goldilocks::lemma_from_nat(15265864706138236984);
    assert(square_times(from_nat(7), 19).value() == 15265864706138236984);
    assert(square_times(from_nat(7), 19).value() * square_times(from_nat(7), 19).value() == 233046625226117080626238082871745416256) by (nonlinear_arith)
        requires
            square_times(from_nat(7), 19).value() == 15265864706138236984,
    ;
    assert(square_times(from_nat(7), 20) == from_nat(12990112920302977158));
    Goldilocks::lemma_from_nat(12990112920302977158);
    assert(square_times(from_nat(7), 20).value() == 12990112920302977158);
    assert(square_times(from_nat(7), 20).value() * square_times(from_nat(7), 20).value() == 168743033682222341389293157878269756964) by (nonlinear_arith)
        requires
            square_times(from_nat(7), 20).value() == 12990112920302977158,
    ;
    assert(square_times(from_nat(7), 21) == from_nat(16491641580159807679));
    Goldilocks::lemma_from_nat(16491641580159807679);
    assert(square_times(from_nat(7), 21).value() == 16491641580159807679);
    assert(square_times(from_nat(7), 21).value() * square_times(from_nat(7), 21).value() == 271974242008455878327624924134267367041) by (nonlinear_arith)
        requires
            square_times(from_nat(7), 21).value() == 16491641580159807679,
    ;
    assert(square_times(from_nat(7), 22) == from_nat(17642952523097762870));
    Goldilocks::lemma_from_nat(17642952523097762870);
    assert(square_times(from_nat(7), 22).value() == 17642952523097762870);
    assert(square_times(from_nat(7), 22).value() * square_times(from_nat(7), 22).value() == 311273773732281716876853999598750636900) by (nonlinear_arith)
        requires
            square_times(from_nat(7), 22).value() == 17642952523097762870,
    ;
    assert(square_times(from_nat(7), 23) == from_nat(4419967652436713981));
    Goldilocks::lemma_from_nat(4419967652436713981);
    assert(square_times(from_nat(7), 23).value() == 4419967652436713981);
    assert(square_times(from_nat(7), 23).value() * square_times(from_nat(7), 23).value() == 19536114048586916442583004325200868361) by (nonlinear_arith)
        requires
            square_times(from_nat(7), 23).value() == 4419967652436713981,
    ;
    assert(square_times(from_nat(7), 24) == from_nat(7206579306846404579));
    Goldilocks::lemma_from_nat(7206579306846404579);
    assert(square_times(from_nat(7), 24).value() == 7206579306846404579);
    assert(square_times(from_nat(7), 24).value() * square_times(from_nat(7), 24).value() == 51934785305866805083766485059352167241) by (nonlinear_arith)
        requires
            square_times(from_nat(7), 24).value() == 7206579306846404579,
    ;
    assert(square_times(from_nat(7), 25) == from_nat(17869454728573311546));
    Goldilocks::lemma_from_nat(17869454728573311546);
    assert(square_times(from_nat(7), 25).value() == 17869454728573311546);
    assert(square_times(from_nat(7), 25).value() * square_times(from_nat(7), 25).value() == 319317412296531083416902065104776910116) by (nonlinear_arith)
        requires
            square_times(from_nat(7), 25).value() == 17869454728573311546,
    ;
    assert(square_times(from_nat(7), 26) == from_nat(4919185416341570378));
    Goldilocks::lemma_from_nat(4919185416341570378);
    assert(square_times(from_nat(7), 26).value() == 4919185416341570378);
    assert(square_times(from_nat(7), 26).value() * square_times(from_nat(7), 26).value() == 24198385160347589100107084819127062884) by (nonlinear_arith)
        requires
            square_times(from_nat(7), 26).value() == 4919185416341570378,
    ;
    assert(square_times(from_nat(7), 27) == from_nat(14445320067108370181));
    Goldilocks::lemma_from_nat(14445320067108370181);
    assert(square_times(from_nat(7), 27).value() == 14445320067108370181);
    assert(square_times(from_nat(7), 27).value() * square_times(from_nat(7), 27).value() == 208667271841203768389539188350129972761) by (nonlinear_arith)
        requires
            square_times(from_nat(7), 27).value() == 14445320067108370181,
    ;
    assert(square_times(from_nat(7), 28) == from_nat(17666966662873528270));
    Goldilocks::lemma_from_nat(17666966662873528270);
    assert(square_times(from_nat(7), 28).value() == 17666966662873528270);
    assert(square_times(from_nat(7), 28).value() * square_times(from_nat(7), 28).value() == 312121711067084611893572121118489192900) by (nonlinear_arith)
        requires
            square_times(from_nat(7), 28).value() == 17666966662873528270,
    ;
    assert(square_times(from_nat(7), 29) == from_nat(5473358340599679662));
    Goldilocks::lemma_from_nat(5473358340599679662);
    assert(square_times(from_nat(7), 29).value() == 5473358340599679662);
    assert(square_times(from_nat(7), 29).value() * square_times(from_nat(7), 29).value() == 29957651524612078959031777857016434244) by (nonlinear_arith)
        requires
            square_times(from_nat(7), 29).value() == 5473358340599679662,
    ;
    assert(square_times(from_nat(7), 30) == from_nat(4120449531758749877));
    Goldilocks::lemma_from_nat(4120449531758749877);
    assert(square_times(from_nat(7), 30).value() == 4120449531758749877);
    assert(square_times(from_nat(7), 30).value() * square_times(from_nat(7), 30).value() == 16978104343770901111237616749847515129) by (nonlinear_arith)
        requires
            square_times(from_nat(7), 30).value() == 4120449531758749877,
    ;
    assert(square_times(from_nat(7), 31) == from_nat(17380019310548783236));
    Goldilocks::lemma_from_nat(17380019310548783236);
    assert(square_times(from_nat(7), 31).value() == 17380019310548783236);
    assert(square_times(from_nat(7), 31).value() * square_times(from_nat(7), 31).value() == 302065071235048602577669737360114631696) by (nonlinear_arith)
        requires
            square_times(from_nat(7), 31).value() == 17380019310548783236,
    ;
    assert(square_times(from_nat(7), 32) == from_nat(12275445934081160404));
}

/// Every subgroup generator lies in the `2^32`-torsion: `g^(2^32) = 1`.
proof fn lemma_generator_torsion(bits: u32)
    requires
        bits <= 32,
    ensures
        crate::fft::fpow(Goldilocks::spec_two_adic_generator(bits), crate::merkle::two_pow(32)) == Goldilocks::spec_one(),
{
    let full = full_two_adic_generator();
    let k = (32 - bits) as nat;
    let big = crate::merkle::two_pow(32);
    Goldilocks::lemma_from_nat(pow(7, 0xFFFF_FFFF) as nat);
    lemma_full_generator_order();
    lemma_fpow_two_pow(full, k);
    crate::fft::lemma_fpow_mul(full, crate::merkle::two_pow(k), big);
    crate::fft::lemma_fpow_mul(full, big, crate::merkle::two_pow(k));
    assert(crate::merkle::two_pow(k) * big == big * crate::merkle::two_pow(k)) by (nonlinear_arith);
    crate::fft::lemma_fpow_of_one::<Goldilocks>(crate::merkle::two_pow(k));
}

/// `2^a` as a field element is `2` raised to `a`.
proof fn lemma_fpow_two(a: nat)
    requires
        a <= 32,
    ensures
        crate::fft::fpow(from_nat(2), a) == from_nat(crate::merkle::two_pow(a)),
    decreases a,
{
    Goldilocks::lemma_from_nat(2);
    Goldilocks::lemma_from_nat(1);
    if a == 0 {
        assert(crate::merkle::two_pow(0) == 1);
    } else {
        let b = (a - 1) as nat;
        lemma_fpow_two(b);
        lemma_two_pow_small(b);
        lemma_two_pow_small(a);
        let t = crate::merkle::two_pow(b);
        Goldilocks::lemma_from_nat(t);
        assert(crate::merkle::two_pow(a) == 2 * t);
        assert(crate::fft::fpow(from_nat(2), a) == from_nat(t).spec_mul(from_nat(2)));
        assert(from_nat(t).value() == t);
        assert(from_nat(2).value() == 2);
        assert(from_nat(t).value() * from_nat(2).value() == 2 * t) by (nonlinear_arith)
            requires
                from_nat(t).value() == t,
                from_nat(2).value() == 2,
        ;
    }
}

/// No point of the coset `7·H` lies in a two-adic subgroup: `x^n ≠ 1`.
proof fn lemma_coset_point_not_root(n: nat, domain: nat, j: nat)
    requires
        crate::fft::subgroup_size::<Goldilocks>(n),
        crate::fft::subgroup_size::<Goldilocks>(domain),
    ensures
        crate::fft::fpow(crate::stark::coset_point::<Goldilocks>(domain, j), n) != Goldilocks::spec_one(),
{
    let one = Goldilocks::spec_one();
    let big = crate::merkle::two_pow(32);
    let seven = from_nat(7);
    let w = crate::fft::subgroup_root::<Goldilocks>(domain);
    let wj = crate::fft::fpow(w, j);
    let x = crate::stark::coset_point::<Goldilocks>(domain, j);
    let a = crate::fft::log2(n);
    let v: nat = 12275445934081160404;
    assert(Goldilocks::spec_from_u64(7) == seven);
    assert(x == seven.spec_mul(wj));
    // w^(2^32) = 1, hence (w^j)^(2^32) = 1.
    lemma_generator_torsion(crate::fft::log2(domain) as u32);
    crate::fft::lemma_fpow_mul(w, j, big);
    crate::fft::lemma_fpow_mul(w, big, j);
    assert(j * big == big * j) by (nonlinear_arith);
    crate::fft::lemma_fpow_of_one::<Goldilocks>(j);
    // x^(2^32) = 7^(2^32) · 1 = 7^(2^32), which is not 1.
    crate::fft::lemma_fpow_mul_base(seven, wj, big);
    Goldilocks::lemma_from_nat(7);
    lemma_fpow_two_pow(seven, 32);
    lemma_seven_squares();
    crate::fft::lemma_fpow_wf(seven, big);
    crate::field::lemma_basics(crate::fft::fpow(seven, big), one);
    Goldilocks::lemma_from_nat(v);
    Goldilocks::lemma_from_nat(1);
    assert(crate::fft::fpow(x, big) == from_nat(v));
    assert(from_nat(v) != one);
    if crate::fft::fpow(x, n) == one {
        // 2^32 = n · 2^(32-a), so x^(2^32) = (x^n)^(2^(32-a)) = 1.
        crate::fft::lemma_two_pow_add(a, (32 - a) as nat);
        assert(a + (32 - a) as nat == 32);
        crate::fft::lemma_fpow_mul(x, n, crate::merkle::two_pow((32 - a) as nat));
        crate::fft::lemma_fpow_of_one::<Goldilocks>(crate::merkle::two_pow((32 - a) as nat));
        assert(false);
    }
}

/// A two-adic size `n = 2^a` has an exact inverse: `n^(p-1) = 1`.
proof fn lemma_size_inverse_exact(n: nat)
    requires
        crate::fft::subgroup_size::<Goldilocks>(n),
    ensures
        crate::fold::inverse_exact(Goldilocks::spec_from_u64(n as u64)),
        Goldilocks::spec_from_u64(n as u64) == from_nat(n),
        n <= 0x1_0000_0000,
{
    let t = Goldilocks::spec_from_u64(n as u64);
    let a = crate::fft::log2(n);
    lemma_two_pow_small(a);
    assert(n as u64 == n);
    assert(t == from_nat(n));
    lemma_fpow_two(a);
    lemma_two_order();
    crate::fft::lemma_fpow_mul(from_nat(2), a, (p() - 1) as nat);
    crate::fft::lemma_fpow_mul(from_nat(2), (p() - 1) as nat, a);
    assert(a * ((p() - 1) as nat) == ((p() - 1) as nat) * a) by (nonlinear_arith);
    crate::fft::lemma_fpow_of_one::<Goldilocks>(a);
    Goldilocks::lemma_from_nat(n);
    lemma_inverse_exact_of_order(t);
}

/// `n` ones add up to `n`, below `p`.
proof fn lemma_ones_goldilocks(n: nat)
    requires
        n < p(),
    ensures
        crate::roundtrip::ones::<Goldilocks>(n) == from_nat(n),
    decreases n,
{
    Goldilocks::lemma_from_nat(0);
    if n > 0 {
        let m = (n - 1) as nat;
        lemma_ones_goldilocks(m);
        Goldilocks::lemma_from_nat(m);
        Goldilocks::lemma_from_nat(1);
        Goldilocks::lemma_from_nat(n);
        assert(crate::roundtrip::ones::<Goldilocks>(n) == crate::roundtrip::ones::<Goldilocks>(m).spec_add(Goldilocks::spec_one()));
        assert(from_nat(m).value() + from_nat(1).value() == n);
    }
}

/// Over Goldilocks the transform of every two-adic size is invertible:
/// each subgroup generator and each size have exact inverses, and a size is
/// the sum of that many ones.
pub proof fn law_goldilocks_ntt_invertible(n: nat)
    requires
        crate::fft::subgroup_size::<Goldilocks>(n),
    ensures
        crate::roundtrip::ntt_invertible::<Goldilocks>(n),
{
    lemma_size_inverse_exact(n);
    lemma_ones_goldilocks(n);
    let bits = crate::fft::log2(n) as u32;
    assert(bits as nat == crate::fft::log2(n));
    lemma_generator_order(bits);
    let full = full_two_adic_generator();
    Goldilocks::lemma_from_nat(pow(7, 0xFFFF_FFFF) as nat);
    lemma_fpow_two_pow(full, (32 - bits) as nat);
    lemma_inverse_exact_of_order(Goldilocks::spec_two_adic_generator(bits));
}

/// `7`, the coset shift, has an exact inverse over Goldilocks.
pub proof fn law_goldilocks_shift_inverse_exact()
    ensures
        crate::fold::inverse_exact(Goldilocks::spec_from_u64(7)),
{
    Goldilocks::lemma_from_nat(7);
    lemma_seven_order();
    lemma_inverse_exact_of_order(from_nat(7));
}

/// A two-adic size times a nonzero element is invertible: `n = 2^a` has
/// `n^(p-1) = 1`, so `n·n⁻¹ = 1`, and `n·y = 0` would give `y = 0`.
proof fn lemma_size_times_nonzero_invertible(n: nat, y: Goldilocks)
    requires
        crate::fft::subgroup_size::<Goldilocks>(n),
        y.wf(),
        y != Goldilocks::spec_zero(),
    ensures
        Goldilocks::spec_from_u64(n as u64).spec_mul(y).spec_inverse() is Some,
{
    let zero = Goldilocks::spec_zero();
    let t = Goldilocks::spec_from_u64(n as u64);
    lemma_size_inverse_exact(n);
    let t_inv = t.spec_inverse()->0;
    crate::field::lemma_basics(t, y);
    crate::field::lemma_basics(y, t);
    if t.spec_mul(y) == zero {
        crate::field::lemma_mul_comm(t, y);
        crate::field::lemma_mul_assoc(y, t, t_inv);
        crate::field::lemma_basics(t_inv, t_inv);
        crate::field::lemma_mul_comm(zero, t_inv);
        assert(false);
    }
    Goldilocks::lemma_inverse_wf(t.spec_mul(y));
}

/// Over Goldilocks the constraint quotient only divides by invertible
/// elements: at every point `x` of the coset `7·H_D`, both `x^n - 1` and
/// `n·(x - 1)` are nonzero, for every two-adic `n` and `D`.
pub proof fn law_goldilocks_quotient_invertible(n: nat, domain: nat)
    requires
        crate::fft::subgroup_size::<Goldilocks>(n),
        crate::fft::subgroup_size::<Goldilocks>(domain),
    ensures
        crate::stark::quotient_invertible::<Goldilocks>(n, domain),
{
    let one = Goldilocks::spec_one();
    assert forall|j: nat| j < domain implies {
        let x = #[trigger] crate::stark::coset_point::<Goldilocks>(domain, j);
        &&& Goldilocks::spec_from_u64(n as u64).spec_mul(x.spec_sub(Goldilocks::spec_one())).spec_inverse() is Some
        &&& crate::fft::fpow(x, n).spec_sub(Goldilocks::spec_one()).spec_inverse() is Some
    } by {
        let x = crate::stark::coset_point::<Goldilocks>(domain, j);
        let xn = crate::fft::fpow(x, n);
        lemma_coset_point_not_root(n, domain, j);
        crate::field::lemma_basics(x, one);
        crate::field::lemma_basics(xn, one);
        crate::fft::lemma_fpow_wf(x, n);
        assert(x.wf()) by {
            crate::field::lemma_basics(Goldilocks::spec_from_u64(7), crate::fft::fpow(crate::fft::subgroup_root::<Goldilocks>(domain), j));
        }
        crate::field::lemma_sub_zero_iff(xn, one);
        Goldilocks::lemma_inverse_wf(xn.spec_sub(one));
        // x ≠ 1, since 1^n = 1.
        crate::fft::lemma_fpow_of_one::<Goldilocks>(n);
        crate::field::lemma_sub_zero_iff(x, one);
        lemma_size_times_nonzero_invertible(n, x.spec_sub(one));
    }
}

/// Over Goldilocks the verifier's `L_0` denominator `n·(ζ - 1)` is
/// invertible at every canonical `ζ ≠ 1`, for every two-adic `n`.
pub proof fn law_goldilocks_ood_denominator_invertible(n: nat, zeta: Goldilocks)
    requires
        crate::fft::subgroup_size::<Goldilocks>(n),
        zeta.wf(),
        zeta != Goldilocks::spec_one(),
    ensures
        Goldilocks::spec_from_u64(n as u64).spec_mul(zeta.spec_sub(Goldilocks::spec_one())).spec_inverse() is Some,
{
    let one = Goldilocks::spec_one();
    crate::field::lemma_basics(zeta, one);
    crate::field::lemma_sub_zero_iff(zeta, one);
    lemma_size_times_nonzero_invertible(n, zeta.spec_sub(one));
}

/// Over Goldilocks the STARK's field conditions hold at every size that
/// fits: `n` rows and a blowup, both powers of two, whose evaluation domain
/// lies inside the `2^32` subgroup and whose sizes fit in `usize`.
pub proof fn law_goldilocks_field_ready(n: nat, blowup: nat)
    requires
        n >= 1,
        crate::fft::subgroup_size::<Goldilocks>(n),
        blowup >= 1,
        crate::merkle::two_pow(crate::fft::log2(blowup)) == blowup,
        n * blowup * 12 <= usize::MAX,
        crate::fft::subgroup_size::<Goldilocks>(crate::stark::stark_degree_bound(n) * blowup),
    ensures
        crate::stark::field_ready::<Goldilocks>(n, blowup),
{
    let db = crate::stark::stark_degree_bound(n);
    let domain = db * blowup;
    let kd = crate::fft::log2(db);
    let kb = crate::fft::log2(blowup);
    assert(crate::merkle::two_pow(0) == 1);
    crate::stark::lemma_pow2_from_is_pow2(3 * n, 1, 0);
    crate::fft::lemma_two_pow_add(kd, kb);
    crate::air::lemma_log2_of_two_pow(kd + kb);
    law_goldilocks_fri_invertible(domain, kd);
    law_goldilocks_quotient_invertible(n, domain);
}

/// Over Goldilocks an honest STARK proof the prover returned is accepted
/// wherever the polynomial facts its remaining checks rest on hold and the
/// `L_0` denominator at `ζ` is invertible: every inverse the transforms and
/// FRI folds take is exact there.
pub proof fn law_goldilocks_honest_stark_proof_accepted_given_polynomial_facts<H: crate::hash::Hasher<Goldilocks>>(
    air: crate::air::Air<Goldilocks>,
    trace: crate::air::Trace<Goldilocks>,
    config: crate::fri::FriConfig,
    proof: crate::stark::StarkProof<Goldilocks>,
)
    requires
        crate::stark::stark_air_ready(air),
        crate::stark::field_ready::<Goldilocks>(air.n as nat, config.blowup as nat),
        crate::stark::stark_honest::<Goldilocks, H>(air, trace, config, None, proof),
        !crate::stark::stark_prover_fails::<Goldilocks, H>(air, trace, config, None),
        crate::stark::stark_polynomial_facts::<Goldilocks, H>(air, trace, config, proof),
        crate::stark::ood_denominator_invertible::<Goldilocks, H>(air, config, proof),
        trace.a@.len() == air.n && trace.b@.len() == air.n && trace.c@.len() == air.n,
        crate::fft::all_wf(trace.a@) && crate::fft::all_wf(trace.b@) && crate::fft::all_wf(trace.c@),
    ensures
        crate::stark::stark_accepts::<Goldilocks, H>(air, proof, config),
{
    let n = air.n as nat;
    let blowup = config.blowup as nat;
    let db = crate::stark::stark_degree_bound(n);
    let domain = db * blowup;
    let kd = crate::fft::log2(db);
    let kb = crate::fft::log2(blowup);
    assert(crate::merkle::two_pow(0) == 1);
    crate::stark::lemma_pow2_from_is_pow2(3 * n, 1, 0);
    crate::fft::lemma_two_pow_add(kd, kb);
    crate::air::lemma_log2_of_two_pow(kd + kb);
    law_goldilocks_fold_inverses_exact(domain, kd);
    law_goldilocks_ntt_invertible(domain);
    law_goldilocks_shift_inverse_exact();
    law_goldilocks_field_inverses_exact();
    crate::stark::law_honest_stark_proof_accepted_given_polynomial_facts::<Goldilocks, H>(air, trace, config, proof);
}

/// Digits read as bytes denote what they denote as characters.
pub(crate) proof fn lemma_digits_nat_of_chars(chars: Seq<char>, bytes: Seq<u8>)
    requires
        chars.len() == bytes.len(),
        forall|i: int| 0 <= i < chars.len() ==> chars[i] as u8 == #[trigger] bytes[i],
        forall|i: int| 0 <= i < chars.len() ==> '0' <= #[trigger] chars[i] <= '9',
    ensures
        digits_nat(bytes) == crate::transcript::digits_value(chars),
    decreases chars.len(),
{
    if chars.len() > 0 {
        let n = chars.len() - 1;
        lemma_digits_nat_of_chars(chars.drop_last(), bytes.drop_last());
        assert('0' <= chars[n] <= '9');
        assert(bytes[n] == chars[n] as u8);
        assert((chars[n] as nat) < 256);
    }
}

/// Decimal text round-trips: the decimal a canonical element renders is a
/// decimal text, and it parses back to the element.
pub proof fn law_goldilocks_decimal_round_trip(x: Goldilocks)
    requires
        x.wf(),
    ensures
        is_decimal_text(vstd::utf8::encode_utf8(x.spec_to_decimal())),
        Goldilocks::spec_decimal_value(vstd::utf8::encode_utf8(x.spec_to_decimal())) == x,
{
    let n = x.value();
    let s = nat_to_decimal(n);
    lemma_nat_to_decimal_digits(n);
    assert(vstd::utf8::is_ascii_chars(s));
    vstd::utf8::is_ascii_chars_encode_utf8(s);
    let b = vstd::utf8::encode_utf8(s);
    assert(b[0] == s[0] as u8);
    assert(decimal_digits(b) == b);
    assert forall|i: int| 0 <= i < b.len() implies is_digit_byte(#[trigger] b[i]) by {
        assert(b[i] == s[i] as u8);
        assert('0' <= s[i] <= '9');
    }
    lemma_digits_nat_of_chars(s, b);
    lemma_from_nat_value(x);
}

/// A positive power of zero is zero.
proof fn lemma_fpow_zero_base(e: nat)
    requires
        e >= 1,
    ensures
        crate::fft::fpow(from_nat(0), e) == from_nat(0),
    decreases e,
{
    Goldilocks::lemma_from_nat(0);
    crate::field::lemma_basics(crate::fft::fpow(from_nat(0), (e - 1) as nat), from_nat(0));
    if e > 1 {
        lemma_fpow_zero_base((e - 1) as nat);
    }
}

/// `7^(2^32 - 1)`: 7 generates the multiplicative group, so this generates
/// its `2^32`-torsion.
pub open spec fn full_two_adic_generator() -> Goldilocks {
    from_nat(pow(7, 0xFFFF_FFFF) as nat)
}

/// `g` squared `k` times, i.e. `g^(2^k)`.
pub open spec fn square_times(g: Goldilocks, k: nat) -> Goldilocks
    decreases k,
{
    if k == 0 {
        g
    } else {
        let h = square_times(g, (k - 1) as nat);
        h.spec_mul(h)
    }
}

proof fn lemma_pow_nonneg(b: int, e: nat)
    requires
        b >= 0,
    ensures
        pow(b, e) >= 0,
{
    if b > 0 {
        lemma_pow_positive(b, e);
    } else {
        lemma_pow0(b);
        if e > 0 {
            reveal(pow);
            lemma_pow_nonneg_zero(e);
        }
    }
}

proof fn lemma_pow_nonneg_zero(e: nat)
    ensures
        pow(0, e) >= 0,
    decreases e,
{
    reveal(pow);
    if e > 0 {
        lemma_pow_nonneg_zero((e - 1) as nat);
    }
}

proof fn lemma_pow2_is_square(b: int)
    ensures
        pow(b, 2) == b * b,
{
    reveal_with_fuel(pow, 3);
}

proof fn lemma_from_nat_value(a: Goldilocks)
    requires
        a.canonical(),
    ensures
        from_nat(a.value()) == a,
{
    Goldilocks::lemma_canonical_from_value(a);
}

/// A query index drawn over Goldilocks is an algebraic reduction of the
/// challenge: the residue of its canonical representative modulo the domain
/// size.
pub proof fn law_query_index_is_canonical_residue(challenge: Goldilocks, domain: nat)
    requires
        domain > 0,
    ensures
        crate::transcript::digits_value(challenge.spec_to_decimal()) % domain == challenge.value() % domain,
{
    lemma_nat_to_decimal_digits(challenge.value());
}


/// `s^((2^32 - 1)/3)` for `s = 7^(2^32)`, step by step.
proof fn lemma_shift_power_3()
    ensures
        pow_mod(12275445934081160404, 1431655765, 18446744069414584321) == 18446744065119617025,
{
    assert(pow_mod(12275445934081160404, 0, 18446744069414584321) == 1);
    assert(pow_mod(12275445934081160404, 1, 18446744069414584321) == (12275445934081160404 * pow_mod(12275445934081160404, 0, 18446744069414584321)) % 18446744069414584321);
    assert((12275445934081160404 * pow_mod(12275445934081160404, 0, 18446744069414584321)) % 18446744069414584321 == 12275445934081160404) by (nonlinear_arith)
        requires
            pow_mod(12275445934081160404, 0, 18446744069414584321) == 1,
    ;
    assert(pow_mod(12275445934081160404, 2, 18446744069414584321) == (pow_mod(12275445934081160404, 1, 18446744069414584321) * pow_mod(12275445934081160404, 1, 18446744069414584321)) % 18446744069414584321);
    assert((pow_mod(12275445934081160404, 1, 18446744069414584321) * pow_mod(12275445934081160404, 1, 18446744069414584321)) % 18446744069414584321 == 4756475762779100925) by (nonlinear_arith)
        requires
            pow_mod(12275445934081160404, 1, 18446744069414584321) == 12275445934081160404,
    ;
    assert(pow_mod(12275445934081160404, 4, 18446744069414584321) == (pow_mod(12275445934081160404, 2, 18446744069414584321) * pow_mod(12275445934081160404, 2, 18446744069414584321)) % 18446744069414584321);
    assert((pow_mod(12275445934081160404, 2, 18446744069414584321) * pow_mod(12275445934081160404, 2, 18446744069414584321)) % 18446744069414584321 == 8312008622371998338) by (nonlinear_arith)
        requires
            pow_mod(12275445934081160404, 2, 18446744069414584321) == 4756475762779100925,
    ;
    assert(pow_mod(12275445934081160404, 5, 18446744069414584321) == (12275445934081160404 * pow_mod(12275445934081160404, 4, 18446744069414584321)) % 18446744069414584321);
    assert((12275445934081160404 * pow_mod(12275445934081160404, 4, 18446744069414584321)) % 18446744069414584321 == 7781028390488215464) by (nonlinear_arith)
        requires
            pow_mod(12275445934081160404, 4, 18446744069414584321) == 8312008622371998338,
    ;
    assert(pow_mod(12275445934081160404, 10, 18446744069414584321) == (pow_mod(12275445934081160404, 5, 18446744069414584321) * pow_mod(12275445934081160404, 5, 18446744069414584321)) % 18446744069414584321);
    assert((pow_mod(12275445934081160404, 5, 18446744069414584321) * pow_mod(12275445934081160404, 5, 18446744069414584321)) % 18446744069414584321 == 16538725463549498621) by (nonlinear_arith)
        requires
            pow_mod(12275445934081160404, 5, 18446744069414584321) == 7781028390488215464,
    ;
    assert(pow_mod(12275445934081160404, 20, 18446744069414584321) == (pow_mod(12275445934081160404, 10, 18446744069414584321) * pow_mod(12275445934081160404, 10, 18446744069414584321)) % 18446744069414584321);
    assert((pow_mod(12275445934081160404, 10, 18446744069414584321) * pow_mod(12275445934081160404, 10, 18446744069414584321)) % 18446744069414584321 == 7240278926970958133) by (nonlinear_arith)
        requires
            pow_mod(12275445934081160404, 10, 18446744069414584321) == 16538725463549498621,
    ;
    assert(pow_mod(12275445934081160404, 21, 18446744069414584321) == (12275445934081160404 * pow_mod(12275445934081160404, 20, 18446744069414584321)) % 18446744069414584321);
    assert((12275445934081160404 * pow_mod(12275445934081160404, 20, 18446744069414584321)) % 18446744069414584321 == 8246665031048405574) by (nonlinear_arith)
        requires
            pow_mod(12275445934081160404, 20, 18446744069414584321) == 7240278926970958133,
    ;
    assert(pow_mod(12275445934081160404, 42, 18446744069414584321) == (pow_mod(12275445934081160404, 21, 18446744069414584321) * pow_mod(12275445934081160404, 21, 18446744069414584321)) % 18446744069414584321);
    assert((pow_mod(12275445934081160404, 21, 18446744069414584321) * pow_mod(12275445934081160404, 21, 18446744069414584321)) % 18446744069414584321 == 2750330294025098837) by (nonlinear_arith)
        requires
            pow_mod(12275445934081160404, 21, 18446744069414584321) == 8246665031048405574,
    ;
    assert(pow_mod(12275445934081160404, 84, 18446744069414584321) == (pow_mod(12275445934081160404, 42, 18446744069414584321) * pow_mod(12275445934081160404, 42, 18446744069414584321)) % 18446744069414584321);
    assert((pow_mod(12275445934081160404, 42, 18446744069414584321) * pow_mod(12275445934081160404, 42, 18446744069414584321)) % 18446744069414584321 == 15490647926983690299) by (nonlinear_arith)
        requires
            pow_mod(12275445934081160404, 42, 18446744069414584321) == 2750330294025098837,
    ;
    assert(pow_mod(12275445934081160404, 85, 18446744069414584321) == (12275445934081160404 * pow_mod(12275445934081160404, 84, 18446744069414584321)) % 18446744069414584321);
    assert((12275445934081160404 * pow_mod(12275445934081160404, 84, 18446744069414584321)) % 18446744069414584321 == 4733570987445959623) by (nonlinear_arith)
        requires
            pow_mod(12275445934081160404, 84, 18446744069414584321) == 15490647926983690299,
    ;
    assert(pow_mod(12275445934081160404, 170, 18446744069414584321) == (pow_mod(12275445934081160404, 85, 18446744069414584321) * pow_mod(12275445934081160404, 85, 18446744069414584321)) % 18446744069414584321);
    assert((pow_mod(12275445934081160404, 85, 18446744069414584321) * pow_mod(12275445934081160404, 85, 18446744069414584321)) % 18446744069414584321 == 10619881994662283040) by (nonlinear_arith)
        requires
            pow_mod(12275445934081160404, 85, 18446744069414584321) == 4733570987445959623,
    ;
    assert(pow_mod(12275445934081160404, 340, 18446744069414584321) == (pow_mod(12275445934081160404, 170, 18446744069414584321) * pow_mod(12275445934081160404, 170, 18446744069414584321)) % 18446744069414584321);
    assert((pow_mod(12275445934081160404, 170, 18446744069414584321) * pow_mod(12275445934081160404, 170, 18446744069414584321)) % 18446744069414584321 == 14683850830539800883) by (nonlinear_arith)
        requires
            pow_mod(12275445934081160404, 170, 18446744069414584321) == 10619881994662283040,
    ;
    assert(pow_mod(12275445934081160404, 341, 18446744069414584321) == (12275445934081160404 * pow_mod(12275445934081160404, 340, 18446744069414584321)) % 18446744069414584321);
    assert((12275445934081160404 * pow_mod(12275445934081160404, 340, 18446744069414584321)) % 18446744069414584321 == 18361179848640336464) by (nonlinear_arith)
        requires
            pow_mod(12275445934081160404, 340, 18446744069414584321) == 14683850830539800883,
    ;
    assert(pow_mod(12275445934081160404, 682, 18446744069414584321) == (pow_mod(12275445934081160404, 341, 18446744069414584321) * pow_mod(12275445934081160404, 341, 18446744069414584321)) % 18446744069414584321);
    assert((pow_mod(12275445934081160404, 341, 18446744069414584321) * pow_mod(12275445934081160404, 341, 18446744069414584321)) % 18446744069414584321 == 950055633415809085) by (nonlinear_arith)
        requires
            pow_mod(12275445934081160404, 341, 18446744069414584321) == 18361179848640336464,
    ;
    assert(pow_mod(12275445934081160404, 1364, 18446744069414584321) == (pow_mod(12275445934081160404, 682, 18446744069414584321) * pow_mod(12275445934081160404, 682, 18446744069414584321)) % 18446744069414584321);
    assert((pow_mod(12275445934081160404, 682, 18446744069414584321) * pow_mod(12275445934081160404, 682, 18446744069414584321)) % 18446744069414584321 == 2008868305916221889) by (nonlinear_arith)
        requires
            pow_mod(12275445934081160404, 682, 18446744069414584321) == 950055633415809085,
    ;
    assert(pow_mod(12275445934081160404, 1365, 18446744069414584321) == (12275445934081160404 * pow_mod(12275445934081160404, 1364, 18446744069414584321)) % 18446744069414584321);
    assert((12275445934081160404 * pow_mod(12275445934081160404, 1364, 18446744069414584321)) % 18446744069414584321 == 14539522463670894480) by (nonlinear_arith)
        requires
            pow_mod(12275445934081160404, 1364, 18446744069414584321) == 2008868305916221889,
    ;
    assert(pow_mod(12275445934081160404, 2730, 18446744069414584321) == (pow_mod(12275445934081160404, 1365, 18446744069414584321) * pow_mod(12275445934081160404, 1365, 18446744069414584321)) % 18446744069414584321);
    assert((pow_mod(12275445934081160404, 1365, 18446744069414584321) * pow_mod(12275445934081160404, 1365, 18446744069414584321)) % 18446744069414584321 == 871452039643317218) by (nonlinear_arith)
        requires
            pow_mod(12275445934081160404, 1365, 18446744069414584321) == 14539522463670894480,
    ;
    assert(pow_mod(12275445934081160404, 5460, 18446744069414584321) == (pow_mod(12275445934081160404, 2730, 18446744069414584321) * pow_mod(12275445934081160404, 2730, 18446744069414584321)) % 18446744069414584321);
    assert((pow_mod(12275445934081160404, 2730, 18446744069414584321) * pow_mod(12275445934081160404, 2730, 18446744069414584321)) % 18446744069414584321 == 6918236945318845013) by (nonlinear_arith)
        requires
            pow_mod(12275445934081160404, 2730, 18446744069414584321) == 871452039643317218,
    ;
    assert(pow_mod(12275445934081160404, 5461, 18446744069414584321) == (12275445934081160404 * pow_mod(12275445934081160404, 5460, 18446744069414584321)) % 18446744069414584321);
    assert((12275445934081160404 * pow_mod(12275445934081160404, 5460, 18446744069414584321)) % 18446744069414584321 == 11310299617345086484) by (nonlinear_arith)
        requires
            pow_mod(12275445934081160404, 5460, 18446744069414584321) == 6918236945318845013,
    ;
    assert(pow_mod(12275445934081160404, 10922, 18446744069414584321) == (pow_mod(12275445934081160404, 5461, 18446744069414584321) * pow_mod(12275445934081160404, 5461, 18446744069414584321)) % 18446744069414584321);
    assert((pow_mod(12275445934081160404, 5461, 18446744069414584321) * pow_mod(12275445934081160404, 5461, 18446744069414584321)) % 18446744069414584321 == 15244413738397616579) by (nonlinear_arith)
        requires
            pow_mod(12275445934081160404, 5461, 18446744069414584321) == 11310299617345086484,
    ;
    assert(pow_mod(12275445934081160404, 21844, 18446744069414584321) == (pow_mod(12275445934081160404, 10922, 18446744069414584321) * pow_mod(12275445934081160404, 10922, 18446744069414584321)) % 18446744069414584321);
    assert((pow_mod(12275445934081160404, 10922, 18446744069414584321) * pow_mod(12275445934081160404, 10922, 18446744069414584321)) % 18446744069414584321 == 13415808726118018742) by (nonlinear_arith)
        requires
            pow_mod(12275445934081160404, 10922, 18446744069414584321) == 15244413738397616579,
    ;
    assert(pow_mod(12275445934081160404, 21845, 18446744069414584321) == (12275445934081160404 * pow_mod(12275445934081160404, 21844, 18446744069414584321)) % 18446744069414584321);
    assert((12275445934081160404 * pow_mod(12275445934081160404, 21844, 18446744069414584321)) % 18446744069414584321 == 144820208228696286) by (nonlinear_arith)
        requires
            pow_mod(12275445934081160404, 21844, 18446744069414584321) == 13415808726118018742,
    ;
    assert(pow_mod(12275445934081160404, 43690, 18446744069414584321) == (pow_mod(12275445934081160404, 21845, 18446744069414584321) * pow_mod(12275445934081160404, 21845, 18446744069414584321)) % 18446744069414584321);
    assert((pow_mod(12275445934081160404, 21845, 18446744069414584321) * pow_mod(12275445934081160404, 21845, 18446744069414584321)) % 18446744069414584321 == 3684268560309858177) by (nonlinear_arith)
        requires
            pow_mod(12275445934081160404, 21845, 18446744069414584321) == 144820208228696286,
    ;
    assert(pow_mod(12275445934081160404, 87380, 18446744069414584321) == (pow_mod(12275445934081160404, 43690, 18446744069414584321) * pow_mod(12275445934081160404, 43690, 18446744069414584321)) % 18446744069414584321);
    assert((pow_mod(12275445934081160404, 43690, 18446744069414584321) * pow_mod(12275445934081160404, 43690, 18446744069414584321)) % 18446744069414584321 == 2363289453392170952) by (nonlinear_arith)
        requires
            pow_mod(12275445934081160404, 43690, 18446744069414584321) == 3684268560309858177,
    ;
    assert(pow_mod(12275445934081160404, 87381, 18446744069414584321) == (12275445934081160404 * pow_mod(12275445934081160404, 87380, 18446744069414584321)) % 18446744069414584321);
    assert((12275445934081160404 * pow_mod(12275445934081160404, 87380, 18446744069414584321)) % 18446744069414584321 == 18342191855603989543) by (nonlinear_arith)
        requires
            pow_mod(12275445934081160404, 87380, 18446744069414584321) == 2363289453392170952,
    ;
    assert(pow_mod(12275445934081160404, 174762, 18446744069414584321) == (pow_mod(12275445934081160404, 87381, 18446744069414584321) * pow_mod(12275445934081160404, 87381, 18446744069414584321)) % 18446744069414584321);
    assert((pow_mod(12275445934081160404, 87381, 18446744069414584321) * pow_mod(12275445934081160404, 87381, 18446744069414584321)) % 18446744069414584321 == 14551972485095996566) by (nonlinear_arith)
        requires
            pow_mod(12275445934081160404, 87381, 18446744069414584321) == 18342191855603989543,
    ;
    assert(pow_mod(12275445934081160404, 349524, 18446744069414584321) == (pow_mod(12275445934081160404, 174762, 18446744069414584321) * pow_mod(12275445934081160404, 174762, 18446744069414584321)) % 18446744069414584321);
    assert((pow_mod(12275445934081160404, 174762, 18446744069414584321) * pow_mod(12275445934081160404, 174762, 18446744069414584321)) % 18446744069414584321 == 858123293477080600) by (nonlinear_arith)
        requires
            pow_mod(12275445934081160404, 174762, 18446744069414584321) == 14551972485095996566,
    ;
    assert(pow_mod(12275445934081160404, 349525, 18446744069414584321) == (12275445934081160404 * pow_mod(12275445934081160404, 349524, 18446744069414584321)) % 18446744069414584321);
    assert((12275445934081160404 * pow_mod(12275445934081160404, 349524, 18446744069414584321)) % 18446744069414584321 == 16561037900262977897) by (nonlinear_arith)
        requires
            pow_mod(12275445934081160404, 349524, 18446744069414584321) == 858123293477080600,
    ;
    assert(pow_mod(12275445934081160404, 699050, 18446744069414584321) == (pow_mod(12275445934081160404, 349525, 18446744069414584321) * pow_mod(12275445934081160404, 349525, 18446744069414584321)) % 18446744069414584321);
    assert((pow_mod(12275445934081160404, 349525, 18446744069414584321) * pow_mod(12275445934081160404, 349525, 18446744069414584321)) % 18446744069414584321 == 12047248418557059035) by (nonlinear_arith)
        requires
            pow_mod(12275445934081160404, 349525, 18446744069414584321) == 16561037900262977897,
    ;
    assert(pow_mod(12275445934081160404, 1398100, 18446744069414584321) == (pow_mod(12275445934081160404, 699050, 18446744069414584321) * pow_mod(12275445934081160404, 699050, 18446744069414584321)) % 18446744069414584321);
    assert((pow_mod(12275445934081160404, 699050, 18446744069414584321) * pow_mod(12275445934081160404, 699050, 18446744069414584321)) % 18446744069414584321 == 4091240428172690146) by (nonlinear_arith)
        requires
            pow_mod(12275445934081160404, 699050, 18446744069414584321) == 12047248418557059035,
    ;
    assert(pow_mod(12275445934081160404, 1398101, 18446744069414584321) == (12275445934081160404 * pow_mod(12275445934081160404, 1398100, 18446744069414584321)) % 18446744069414584321);
    assert((12275445934081160404 * pow_mod(12275445934081160404, 1398100, 18446744069414584321)) % 18446744069414584321 == 5709593261608934014) by (nonlinear_arith)
        requires
            pow_mod(12275445934081160404, 1398100, 18446744069414584321) == 4091240428172690146,
    ;
    assert(pow_mod(12275445934081160404, 2796202, 18446744069414584321) == (pow_mod(12275445934081160404, 1398101, 18446744069414584321) * pow_mod(12275445934081160404, 1398101, 18446744069414584321)) % 18446744069414584321);
    assert((pow_mod(12275445934081160404, 1398101, 18446744069414584321) * pow_mod(12275445934081160404, 1398101, 18446744069414584321)) % 18446744069414584321 == 2874022416960892837) by (nonlinear_arith)
        requires
            pow_mod(12275445934081160404, 1398101, 18446744069414584321) == 5709593261608934014,
    ;
    assert(pow_mod(12275445934081160404, 5592404, 18446744069414584321) == (pow_mod(12275445934081160404, 2796202, 18446744069414584321) * pow_mod(12275445934081160404, 2796202, 18446744069414584321)) % 18446744069414584321);
    assert((pow_mod(12275445934081160404, 2796202, 18446744069414584321) * pow_mod(12275445934081160404, 2796202, 18446744069414584321)) % 18446744069414584321 == 17140426604283717845) by (nonlinear_arith)
        requires
            pow_mod(12275445934081160404, 2796202, 18446744069414584321) == 2874022416960892837,
    ;
    assert(pow_mod(12275445934081160404, 5592405, 18446744069414584321) == (12275445934081160404 * pow_mod(12275445934081160404, 5592404, 18446744069414584321)) % 18446744069414584321);
    assert((12275445934081160404 * pow_mod(12275445934081160404, 5592404, 18446744069414584321)) % 18446744069414584321 == 7802345761617692924) by (nonlinear_arith)
        requires
            pow_mod(12275445934081160404, 5592404, 18446744069414584321) == 17140426604283717845,
    ;
    assert(pow_mod(12275445934081160404, 11184810, 18446744069414584321) == (pow_mod(12275445934081160404, 5592405, 18446744069414584321) * pow_mod(12275445934081160404, 5592405, 18446744069414584321)) % 18446744069414584321);
    assert((pow_mod(12275445934081160404, 5592405, 18446744069414584321) * pow_mod(12275445934081160404, 5592405, 18446744069414584321)) % 18446744069414584321 == 18222847149760681567) by (nonlinear_arith)
        requires
            pow_mod(12275445934081160404, 5592405, 18446744069414584321) == 7802345761617692924,
    ;
    assert(pow_mod(12275445934081160404, 22369620, 18446744069414584321) == (pow_mod(12275445934081160404, 11184810, 18446744069414584321) * pow_mod(12275445934081160404, 11184810, 18446744069414584321)) % 18446744069414584321);
    assert((pow_mod(12275445934081160404, 11184810, 18446744069414584321) * pow_mod(12275445934081160404, 11184810, 18446744069414584321)) % 18446744069414584321 == 17499387918775256010) by (nonlinear_arith)
        requires
            pow_mod(12275445934081160404, 11184810, 18446744069414584321) == 18222847149760681567,
    ;
    assert(pow_mod(12275445934081160404, 22369621, 18446744069414584321) == (12275445934081160404 * pow_mod(12275445934081160404, 22369620, 18446744069414584321)) % 18446744069414584321);
    assert((12275445934081160404 * pow_mod(12275445934081160404, 22369620, 18446744069414584321)) % 18446744069414584321 == 13093268643099712084) by (nonlinear_arith)
        requires
            pow_mod(12275445934081160404, 22369620, 18446744069414584321) == 17499387918775256010,
    ;
    assert(pow_mod(12275445934081160404, 44739242, 18446744069414584321) == (pow_mod(12275445934081160404, 22369621, 18446744069414584321) * pow_mod(12275445934081160404, 22369621, 18446744069414584321)) % 18446744069414584321);
    assert((pow_mod(12275445934081160404, 22369621, 18446744069414584321) * pow_mod(12275445934081160404, 22369621, 18446744069414584321)) % 18446744069414584321 == 14805989675903260522) by (nonlinear_arith)
        requires
            pow_mod(12275445934081160404, 22369621, 18446744069414584321) == 13093268643099712084,
    ;
    assert(pow_mod(12275445934081160404, 89478484, 18446744069414584321) == (pow_mod(12275445934081160404, 44739242, 18446744069414584321) * pow_mod(12275445934081160404, 44739242, 18446744069414584321)) % 18446744069414584321);
    assert((pow_mod(12275445934081160404, 44739242, 18446744069414584321) * pow_mod(12275445934081160404, 44739242, 18446744069414584321)) % 18446744069414584321 == 6114279652891903562) by (nonlinear_arith)
        requires
            pow_mod(12275445934081160404, 44739242, 18446744069414584321) == 14805989675903260522,
    ;
    assert(pow_mod(12275445934081160404, 89478485, 18446744069414584321) == (12275445934081160404 * pow_mod(12275445934081160404, 89478484, 18446744069414584321)) % 18446744069414584321);
    assert((12275445934081160404 * pow_mod(12275445934081160404, 89478484, 18446744069414584321)) % 18446744069414584321 == 6515397714927682743) by (nonlinear_arith)
        requires
            pow_mod(12275445934081160404, 89478484, 18446744069414584321) == 6114279652891903562,
    ;
    assert(pow_mod(12275445934081160404, 178956970, 18446744069414584321) == (pow_mod(12275445934081160404, 89478485, 18446744069414584321) * pow_mod(12275445934081160404, 89478485, 18446744069414584321)) % 18446744069414584321);
    assert((pow_mod(12275445934081160404, 89478485, 18446744069414584321) * pow_mod(12275445934081160404, 89478485, 18446744069414584321)) % 18446744069414584321 == 11178342284497030948) by (nonlinear_arith)
        requires
            pow_mod(12275445934081160404, 89478485, 18446744069414584321) == 6515397714927682743,
    ;
    assert(pow_mod(12275445934081160404, 357913940, 18446744069414584321) == (pow_mod(12275445934081160404, 178956970, 18446744069414584321) * pow_mod(12275445934081160404, 178956970, 18446744069414584321)) % 18446744069414584321);
    assert((pow_mod(12275445934081160404, 178956970, 18446744069414584321) * pow_mod(12275445934081160404, 178956970, 18446744069414584321)) % 18446744069414584321 == 7620522375449696705) by (nonlinear_arith)
        requires
            pow_mod(12275445934081160404, 178956970, 18446744069414584321) == 11178342284497030948,
    ;
    assert(pow_mod(12275445934081160404, 357913941, 18446744069414584321) == (12275445934081160404 * pow_mod(12275445934081160404, 357913940, 18446744069414584321)) % 18446744069414584321);
    assert((12275445934081160404 * pow_mod(12275445934081160404, 357913940, 18446744069414584321)) % 18446744069414584321 == 11368723234197765731) by (nonlinear_arith)
        requires
            pow_mod(12275445934081160404, 357913940, 18446744069414584321) == 7620522375449696705,
    ;
    assert(pow_mod(12275445934081160404, 715827882, 18446744069414584321) == (pow_mod(12275445934081160404, 357913941, 18446744069414584321) * pow_mod(12275445934081160404, 357913941, 18446744069414584321)) % 18446744069414584321);
    assert((pow_mod(12275445934081160404, 357913941, 18446744069414584321) * pow_mod(12275445934081160404, 357913941, 18446744069414584321)) % 18446744069414584321 == 4315988950561070367) by (nonlinear_arith)
        requires
            pow_mod(12275445934081160404, 357913941, 18446744069414584321) == 11368723234197765731,
    ;
    assert(pow_mod(12275445934081160404, 1431655764, 18446744069414584321) == (pow_mod(12275445934081160404, 715827882, 18446744069414584321) * pow_mod(12275445934081160404, 715827882, 18446744069414584321)) % 18446744069414584321);
    assert((pow_mod(12275445934081160404, 715827882, 18446744069414584321) * pow_mod(12275445934081160404, 715827882, 18446744069414584321)) % 18446744069414584321 == 12705811026716418861) by (nonlinear_arith)
        requires
            pow_mod(12275445934081160404, 715827882, 18446744069414584321) == 4315988950561070367,
    ;
    assert(pow_mod(12275445934081160404, 1431655765, 18446744069414584321) == (12275445934081160404 * pow_mod(12275445934081160404, 1431655764, 18446744069414584321)) % 18446744069414584321);
    assert((12275445934081160404 * pow_mod(12275445934081160404, 1431655764, 18446744069414584321)) % 18446744069414584321 == 18446744065119617025) by (nonlinear_arith)
        requires
            pow_mod(12275445934081160404, 1431655764, 18446744069414584321) == 12705811026716418861,
    ;
}

/// `s^((2^32 - 1)/5)` for `s = 7^(2^32)`, step by step.
proof fn lemma_shift_power_5()
    ensures
        pow_mod(12275445934081160404, 858993459, 18446744069414584321) == 1373043270956696022,
{
    assert(pow_mod(12275445934081160404, 0, 18446744069414584321) == 1);
    assert(pow_mod(12275445934081160404, 1, 18446744069414584321) == (12275445934081160404 * pow_mod(12275445934081160404, 0, 18446744069414584321)) % 18446744069414584321);
    assert((12275445934081160404 * pow_mod(12275445934081160404, 0, 18446744069414584321)) % 18446744069414584321 == 12275445934081160404) by (nonlinear_arith)
        requires
            pow_mod(12275445934081160404, 0, 18446744069414584321) == 1,
    ;
    assert(pow_mod(12275445934081160404, 2, 18446744069414584321) == (pow_mod(12275445934081160404, 1, 18446744069414584321) * pow_mod(12275445934081160404, 1, 18446744069414584321)) % 18446744069414584321);
    assert((pow_mod(12275445934081160404, 1, 18446744069414584321) * pow_mod(12275445934081160404, 1, 18446744069414584321)) % 18446744069414584321 == 4756475762779100925) by (nonlinear_arith)
        requires
            pow_mod(12275445934081160404, 1, 18446744069414584321) == 12275445934081160404,
    ;
    assert(pow_mod(12275445934081160404, 3, 18446744069414584321) == (12275445934081160404 * pow_mod(12275445934081160404, 2, 18446744069414584321)) % 18446744069414584321);
    assert((12275445934081160404 * pow_mod(12275445934081160404, 2, 18446744069414584321)) % 18446744069414584321 == 1279992132519201448) by (nonlinear_arith)
        requires
            pow_mod(12275445934081160404, 2, 18446744069414584321) == 4756475762779100925,
    ;
    assert(pow_mod(12275445934081160404, 6, 18446744069414584321) == (pow_mod(12275445934081160404, 3, 18446744069414584321) * pow_mod(12275445934081160404, 3, 18446744069414584321)) % 18446744069414584321);
    assert((pow_mod(12275445934081160404, 3, 18446744069414584321) * pow_mod(12275445934081160404, 3, 18446744069414584321)) % 18446744069414584321 == 11302600489504509467) by (nonlinear_arith)
        requires
            pow_mod(12275445934081160404, 3, 18446744069414584321) == 1279992132519201448,
    ;
    assert(pow_mod(12275445934081160404, 12, 18446744069414584321) == (pow_mod(12275445934081160404, 6, 18446744069414584321) * pow_mod(12275445934081160404, 6, 18446744069414584321)) % 18446744069414584321);
    assert((pow_mod(12275445934081160404, 6, 18446744069414584321) * pow_mod(12275445934081160404, 6, 18446744069414584321)) % 18446744069414584321 == 15099809066790865939) by (nonlinear_arith)
        requires
            pow_mod(12275445934081160404, 6, 18446744069414584321) == 11302600489504509467,
    ;
    assert(pow_mod(12275445934081160404, 24, 18446744069414584321) == (pow_mod(12275445934081160404, 12, 18446744069414584321) * pow_mod(12275445934081160404, 12, 18446744069414584321)) % 18446744069414584321);
    assert((pow_mod(12275445934081160404, 12, 18446744069414584321) * pow_mod(12275445934081160404, 12, 18446744069414584321)) % 18446744069414584321 == 14878451024585790464) by (nonlinear_arith)
        requires
            pow_mod(12275445934081160404, 12, 18446744069414584321) == 15099809066790865939,
    ;
    assert(pow_mod(12275445934081160404, 25, 18446744069414584321) == (12275445934081160404 * pow_mod(12275445934081160404, 24, 18446744069414584321)) % 18446744069414584321);
    assert((12275445934081160404 * pow_mod(12275445934081160404, 24, 18446744069414584321)) % 18446744069414584321 == 11395689535312925715) by (nonlinear_arith)
        requires
            pow_mod(12275445934081160404, 24, 18446744069414584321) == 14878451024585790464,
    ;
    assert(pow_mod(12275445934081160404, 50, 18446744069414584321) == (pow_mod(12275445934081160404, 25, 18446744069414584321) * pow_mod(12275445934081160404, 25, 18446744069414584321)) % 18446744069414584321);
    assert((pow_mod(12275445934081160404, 25, 18446744069414584321) * pow_mod(12275445934081160404, 25, 18446744069414584321)) % 18446744069414584321 == 1659512918415654813) by (nonlinear_arith)
        requires
            pow_mod(12275445934081160404, 25, 18446744069414584321) == 11395689535312925715,
    ;
    assert(pow_mod(12275445934081160404, 51, 18446744069414584321) == (12275445934081160404 * pow_mod(12275445934081160404, 50, 18446744069414584321)) % 18446744069414584321);
    assert((12275445934081160404 * pow_mod(12275445934081160404, 50, 18446744069414584321)) % 18446744069414584321 == 3080292546802250491) by (nonlinear_arith)
        requires
            pow_mod(12275445934081160404, 50, 18446744069414584321) == 1659512918415654813,
    ;
    assert(pow_mod(12275445934081160404, 102, 18446744069414584321) == (pow_mod(12275445934081160404, 51, 18446744069414584321) * pow_mod(12275445934081160404, 51, 18446744069414584321)) % 18446744069414584321);
    assert((pow_mod(12275445934081160404, 51, 18446744069414584321) * pow_mod(12275445934081160404, 51, 18446744069414584321)) % 18446744069414584321 == 17006525114682413860) by (nonlinear_arith)
        requires
            pow_mod(12275445934081160404, 51, 18446744069414584321) == 3080292546802250491,
    ;
    assert(pow_mod(12275445934081160404, 204, 18446744069414584321) == (pow_mod(12275445934081160404, 102, 18446744069414584321) * pow_mod(12275445934081160404, 102, 18446744069414584321)) % 18446744069414584321);
    assert((pow_mod(12275445934081160404, 102, 18446744069414584321) * pow_mod(12275445934081160404, 102, 18446744069414584321)) % 18446744069414584321 == 8083283331813898072) by (nonlinear_arith)
        requires
            pow_mod(12275445934081160404, 102, 18446744069414584321) == 17006525114682413860,
    ;
    assert(pow_mod(12275445934081160404, 408, 18446744069414584321) == (pow_mod(12275445934081160404, 204, 18446744069414584321) * pow_mod(12275445934081160404, 204, 18446744069414584321)) % 18446744069414584321);
    assert((pow_mod(12275445934081160404, 204, 18446744069414584321) * pow_mod(12275445934081160404, 204, 18446744069414584321)) % 18446744069414584321 == 16743901597616345696) by (nonlinear_arith)
        requires
            pow_mod(12275445934081160404, 204, 18446744069414584321) == 8083283331813898072,
    ;
    assert(pow_mod(12275445934081160404, 409, 18446744069414584321) == (12275445934081160404 * pow_mod(12275445934081160404, 408, 18446744069414584321)) % 18446744069414584321);
    assert((12275445934081160404 * pow_mod(12275445934081160404, 408, 18446744069414584321)) % 18446744069414584321 == 7481955408674006565) by (nonlinear_arith)
        requires
            pow_mod(12275445934081160404, 408, 18446744069414584321) == 16743901597616345696,
    ;
    assert(pow_mod(12275445934081160404, 818, 18446744069414584321) == (pow_mod(12275445934081160404, 409, 18446744069414584321) * pow_mod(12275445934081160404, 409, 18446744069414584321)) % 18446744069414584321);
    assert((pow_mod(12275445934081160404, 409, 18446744069414584321) * pow_mod(12275445934081160404, 409, 18446744069414584321)) % 18446744069414584321 == 8845957947426692066) by (nonlinear_arith)
        requires
            pow_mod(12275445934081160404, 409, 18446744069414584321) == 7481955408674006565,
    ;
    assert(pow_mod(12275445934081160404, 819, 18446744069414584321) == (12275445934081160404 * pow_mod(12275445934081160404, 818, 18446744069414584321)) % 18446744069414584321);
    assert((12275445934081160404 * pow_mod(12275445934081160404, 818, 18446744069414584321)) % 18446744069414584321 == 8229424189471531445) by (nonlinear_arith)
        requires
            pow_mod(12275445934081160404, 818, 18446744069414584321) == 8845957947426692066,
    ;
    assert(pow_mod(12275445934081160404, 1638, 18446744069414584321) == (pow_mod(12275445934081160404, 819, 18446744069414584321) * pow_mod(12275445934081160404, 819, 18446744069414584321)) % 18446744069414584321);
    assert((pow_mod(12275445934081160404, 819, 18446744069414584321) * pow_mod(12275445934081160404, 819, 18446744069414584321)) % 18446744069414584321 == 11544158429850306753) by (nonlinear_arith)
        requires
            pow_mod(12275445934081160404, 819, 18446744069414584321) == 8229424189471531445,
    ;
    assert(pow_mod(12275445934081160404, 3276, 18446744069414584321) == (pow_mod(12275445934081160404, 1638, 18446744069414584321) * pow_mod(12275445934081160404, 1638, 18446744069414584321)) % 18446744069414584321);
    assert((pow_mod(12275445934081160404, 1638, 18446744069414584321) * pow_mod(12275445934081160404, 1638, 18446744069414584321)) % 18446744069414584321 == 6575894157890375372) by (nonlinear_arith)
        requires
            pow_mod(12275445934081160404, 1638, 18446744069414584321) == 11544158429850306753,
    ;
    assert(pow_mod(12275445934081160404, 6552, 18446744069414584321) == (pow_mod(12275445934081160404, 3276, 18446744069414584321) * pow_mod(12275445934081160404, 3276, 18446744069414584321)) % 18446744069414584321);
    assert((pow_mod(12275445934081160404, 3276, 18446744069414584321) * pow_mod(12275445934081160404, 3276, 18446744069414584321)) % 18446744069414584321 == 14087742727050003168) by (nonlinear_arith)
        requires
            pow_mod(12275445934081160404, 3276, 18446744069414584321) == 6575894157890375372,
    ;
    assert(pow_mod(12275445934081160404, 6553, 18446744069414584321) == (12275445934081160404 * pow_mod(12275445934081160404, 6552, 18446744069414584321)) % 18446744069414584321);
    assert((12275445934081160404 * pow_mod(12275445934081160404, 6552, 18446744069414584321)) % 18446744069414584321 == 15468026419318992136) by (nonlinear_arith)
        requires
            pow_mod(12275445934081160404, 6552, 18446744069414584321) == 14087742727050003168,
    ;
    assert(pow_mod(12275445934081160404, 13106, 18446744069414584321) == (pow_mod(12275445934081160404, 6553, 18446744069414584321) * pow_mod(12275445934081160404, 6553, 18446744069414584321)) % 18446744069414584321);
    assert((pow_mod(12275445934081160404, 6553, 18446744069414584321) * pow_mod(12275445934081160404, 6553, 18446744069414584321)) % 18446744069414584321 == 14043702205220635206) by (nonlinear_arith)
        requires
            pow_mod(12275445934081160404, 6553, 18446744069414584321) == 15468026419318992136,
    ;
    assert(pow_mod(12275445934081160404, 13107, 18446744069414584321) == (12275445934081160404 * pow_mod(12275445934081160404, 13106, 18446744069414584321)) % 18446744069414584321);
    assert((12275445934081160404 * pow_mod(12275445934081160404, 13106, 18446744069414584321)) % 18446744069414584321 == 13117622064007455443) by (nonlinear_arith)
        requires
            pow_mod(12275445934081160404, 13106, 18446744069414584321) == 14043702205220635206,
    ;
    assert(pow_mod(12275445934081160404, 26214, 18446744069414584321) == (pow_mod(12275445934081160404, 13107, 18446744069414584321) * pow_mod(12275445934081160404, 13107, 18446744069414584321)) % 18446744069414584321);
    assert((pow_mod(12275445934081160404, 13107, 18446744069414584321) * pow_mod(12275445934081160404, 13107, 18446744069414584321)) % 18446744069414584321 == 9907097673348654079) by (nonlinear_arith)
        requires
            pow_mod(12275445934081160404, 13107, 18446744069414584321) == 13117622064007455443,
    ;
    assert(pow_mod(12275445934081160404, 52428, 18446744069414584321) == (pow_mod(12275445934081160404, 26214, 18446744069414584321) * pow_mod(12275445934081160404, 26214, 18446744069414584321)) % 18446744069414584321);
    assert((pow_mod(12275445934081160404, 26214, 18446744069414584321) * pow_mod(12275445934081160404, 26214, 18446744069414584321)) % 18446744069414584321 == 6822962341432118346) by (nonlinear_arith)
        requires
            pow_mod(12275445934081160404, 26214, 18446744069414584321) == 9907097673348654079,
    ;
    assert(pow_mod(12275445934081160404, 104856, 18446744069414584321) == (pow_mod(12275445934081160404, 52428, 18446744069414584321) * pow_mod(12275445934081160404, 52428, 18446744069414584321)) % 18446744069414584321);
    assert((pow_mod(12275445934081160404, 52428, 18446744069414584321) * pow_mod(12275445934081160404, 52428, 18446744069414584321)) % 18446744069414584321 == 8387774438723502474) by (nonlinear_arith)
        requires
            pow_mod(12275445934081160404, 52428, 18446744069414584321) == 6822962341432118346,
    ;
    assert(pow_mod(12275445934081160404, 104857, 18446744069414584321) == (12275445934081160404 * pow_mod(12275445934081160404, 104856, 18446744069414584321)) % 18446744069414584321);
    assert((12275445934081160404 * pow_mod(12275445934081160404, 104856, 18446744069414584321)) % 18446744069414584321 == 10170028983955575304) by (nonlinear_arith)
        requires
            pow_mod(12275445934081160404, 104856, 18446744069414584321) == 8387774438723502474,
    ;
    assert(pow_mod(12275445934081160404, 209714, 18446744069414584321) == (pow_mod(12275445934081160404, 104857, 18446744069414584321) * pow_mod(12275445934081160404, 104857, 18446744069414584321)) % 18446744069414584321);
    assert((pow_mod(12275445934081160404, 104857, 18446744069414584321) * pow_mod(12275445934081160404, 104857, 18446744069414584321)) % 18446744069414584321 == 11536242063402177297) by (nonlinear_arith)
        requires
            pow_mod(12275445934081160404, 104857, 18446744069414584321) == 10170028983955575304,
    ;
    assert(pow_mod(12275445934081160404, 209715, 18446744069414584321) == (12275445934081160404 * pow_mod(12275445934081160404, 209714, 18446744069414584321)) % 18446744069414584321);
    assert((12275445934081160404 * pow_mod(12275445934081160404, 209714, 18446744069414584321)) % 18446744069414584321 == 3714462262458937287) by (nonlinear_arith)
        requires
            pow_mod(12275445934081160404, 209714, 18446744069414584321) == 11536242063402177297,
    ;
    assert(pow_mod(12275445934081160404, 419430, 18446744069414584321) == (pow_mod(12275445934081160404, 209715, 18446744069414584321) * pow_mod(12275445934081160404, 209715, 18446744069414584321)) % 18446744069414584321);
    assert((pow_mod(12275445934081160404, 209715, 18446744069414584321) * pow_mod(12275445934081160404, 209715, 18446744069414584321)) % 18446744069414584321 == 10207503010611174361) by (nonlinear_arith)
        requires
            pow_mod(12275445934081160404, 209715, 18446744069414584321) == 3714462262458937287,
    ;
    assert(pow_mod(12275445934081160404, 838860, 18446744069414584321) == (pow_mod(12275445934081160404, 419430, 18446744069414584321) * pow_mod(12275445934081160404, 419430, 18446744069414584321)) % 18446744069414584321);
    assert((pow_mod(12275445934081160404, 419430, 18446744069414584321) * pow_mod(12275445934081160404, 419430, 18446744069414584321)) % 18446744069414584321 == 4650203334667317280) by (nonlinear_arith)
        requires
            pow_mod(12275445934081160404, 419430, 18446744069414584321) == 10207503010611174361,
    ;
    assert(pow_mod(12275445934081160404, 1677720, 18446744069414584321) == (pow_mod(12275445934081160404, 838860, 18446744069414584321) * pow_mod(12275445934081160404, 838860, 18446744069414584321)) % 18446744069414584321);
    assert((pow_mod(12275445934081160404, 838860, 18446744069414584321) * pow_mod(12275445934081160404, 838860, 18446744069414584321)) % 18446744069414584321 == 15783591772153663619) by (nonlinear_arith)
        requires
            pow_mod(12275445934081160404, 838860, 18446744069414584321) == 4650203334667317280,
    ;
    assert(pow_mod(12275445934081160404, 1677721, 18446744069414584321) == (12275445934081160404 * pow_mod(12275445934081160404, 1677720, 18446744069414584321)) % 18446744069414584321);
    assert((12275445934081160404 * pow_mod(12275445934081160404, 1677720, 18446744069414584321)) % 18446744069414584321 == 7079038093298791840) by (nonlinear_arith)
        requires
            pow_mod(12275445934081160404, 1677720, 18446744069414584321) == 15783591772153663619,
    ;
    assert(pow_mod(12275445934081160404, 3355442, 18446744069414584321) == (pow_mod(12275445934081160404, 1677721, 18446744069414584321) * pow_mod(12275445934081160404, 1677721, 18446744069414584321)) % 18446744069414584321);
    assert((pow_mod(12275445934081160404, 1677721, 18446744069414584321) * pow_mod(12275445934081160404, 1677721, 18446744069414584321)) % 18446744069414584321 == 17472379961143050728) by (nonlinear_arith)
        requires
            pow_mod(12275445934081160404, 1677721, 18446744069414584321) == 7079038093298791840,
    ;
    assert(pow_mod(12275445934081160404, 3355443, 18446744069414584321) == (12275445934081160404 * pow_mod(12275445934081160404, 3355442, 18446744069414584321)) % 18446744069414584321);
    assert((12275445934081160404 * pow_mod(12275445934081160404, 3355442, 18446744069414584321)) % 18446744069414584321 == 750328663734657815) by (nonlinear_arith)
        requires
            pow_mod(12275445934081160404, 3355442, 18446744069414584321) == 17472379961143050728,
    ;
    assert(pow_mod(12275445934081160404, 6710886, 18446744069414584321) == (pow_mod(12275445934081160404, 3355443, 18446744069414584321) * pow_mod(12275445934081160404, 3355443, 18446744069414584321)) % 18446744069414584321);
    assert((pow_mod(12275445934081160404, 3355443, 18446744069414584321) * pow_mod(12275445934081160404, 3355443, 18446744069414584321)) % 18446744069414584321 == 7983852518127489983) by (nonlinear_arith)
        requires
            pow_mod(12275445934081160404, 3355443, 18446744069414584321) == 750328663734657815,
    ;
    assert(pow_mod(12275445934081160404, 13421772, 18446744069414584321) == (pow_mod(12275445934081160404, 6710886, 18446744069414584321) * pow_mod(12275445934081160404, 6710886, 18446744069414584321)) % 18446744069414584321);
    assert((pow_mod(12275445934081160404, 6710886, 18446744069414584321) * pow_mod(12275445934081160404, 6710886, 18446744069414584321)) % 18446744069414584321 == 3938614147066682552) by (nonlinear_arith)
        requires
            pow_mod(12275445934081160404, 6710886, 18446744069414584321) == 7983852518127489983,
    ;
    assert(pow_mod(12275445934081160404, 26843544, 18446744069414584321) == (pow_mod(12275445934081160404, 13421772, 18446744069414584321) * pow_mod(12275445934081160404, 13421772, 18446744069414584321)) % 18446744069414584321);
    assert((pow_mod(12275445934081160404, 13421772, 18446744069414584321) * pow_mod(12275445934081160404, 13421772, 18446744069414584321)) % 18446744069414584321 == 9599392867228085585) by (nonlinear_arith)
        requires
            pow_mod(12275445934081160404, 13421772, 18446744069414584321) == 3938614147066682552,
    ;
    assert(pow_mod(12275445934081160404, 26843545, 18446744069414584321) == (12275445934081160404 * pow_mod(12275445934081160404, 26843544, 18446744069414584321)) % 18446744069414584321);
    assert((12275445934081160404 * pow_mod(12275445934081160404, 26843544, 18446744069414584321)) % 18446744069414584321 == 17105565073236396267) by (nonlinear_arith)
        requires
            pow_mod(12275445934081160404, 26843544, 18446744069414584321) == 9599392867228085585,
    ;
    assert(pow_mod(12275445934081160404, 53687090, 18446744069414584321) == (pow_mod(12275445934081160404, 26843545, 18446744069414584321) * pow_mod(12275445934081160404, 26843545, 18446744069414584321)) % 18446744069414584321);
    assert((pow_mod(12275445934081160404, 26843545, 18446744069414584321) * pow_mod(12275445934081160404, 26843545, 18446744069414584321)) % 18446744069414584321 == 6231672803829649819) by (nonlinear_arith)
        requires
            pow_mod(12275445934081160404, 26843545, 18446744069414584321) == 17105565073236396267,
    ;
    assert(pow_mod(12275445934081160404, 53687091, 18446744069414584321) == (12275445934081160404 * pow_mod(12275445934081160404, 53687090, 18446744069414584321)) % 18446744069414584321);
    assert((12275445934081160404 * pow_mod(12275445934081160404, 53687090, 18446744069414584321)) % 18446744069414584321 == 7734626918933084012) by (nonlinear_arith)
        requires
            pow_mod(12275445934081160404, 53687090, 18446744069414584321) == 6231672803829649819,
    ;
    assert(pow_mod(12275445934081160404, 107374182, 18446744069414584321) == (pow_mod(12275445934081160404, 53687091, 18446744069414584321) * pow_mod(12275445934081160404, 53687091, 18446744069414584321)) % 18446744069414584321);
    assert((pow_mod(12275445934081160404, 53687091, 18446744069414584321) * pow_mod(12275445934081160404, 53687091, 18446744069414584321)) % 18446744069414584321 == 4412797120506850337) by (nonlinear_arith)
        requires
            pow_mod(12275445934081160404, 53687091, 18446744069414584321) == 7734626918933084012,
    ;
    assert(pow_mod(12275445934081160404, 214748364, 18446744069414584321) == (pow_mod(12275445934081160404, 107374182, 18446744069414584321) * pow_mod(12275445934081160404, 107374182, 18446744069414584321)) % 18446744069414584321);
    assert((pow_mod(12275445934081160404, 107374182, 18446744069414584321) * pow_mod(12275445934081160404, 107374182, 18446744069414584321)) % 18446744069414584321 == 3875766691360155617) by (nonlinear_arith)
        requires
            pow_mod(12275445934081160404, 107374182, 18446744069414584321) == 4412797120506850337,
    ;
    assert(pow_mod(12275445934081160404, 429496728, 18446744069414584321) == (pow_mod(12275445934081160404, 214748364, 18446744069414584321) * pow_mod(12275445934081160404, 214748364, 18446744069414584321)) % 18446744069414584321);
    assert((pow_mod(12275445934081160404, 214748364, 18446744069414584321) * pow_mod(12275445934081160404, 214748364, 18446744069414584321)) % 18446744069414584321 == 6241495314292722355) by (nonlinear_arith)
        requires
            pow_mod(12275445934081160404, 214748364, 18446744069414584321) == 3875766691360155617,
    ;
    assert(pow_mod(12275445934081160404, 429496729, 18446744069414584321) == (12275445934081160404 * pow_mod(12275445934081160404, 429496728, 18446744069414584321)) % 18446744069414584321);
    assert((12275445934081160404 * pow_mod(12275445934081160404, 429496728, 18446744069414584321)) % 18446744069414584321 == 17358023527338233849) by (nonlinear_arith)
        requires
            pow_mod(12275445934081160404, 429496728, 18446744069414584321) == 6241495314292722355,
    ;
    assert(pow_mod(12275445934081160404, 858993458, 18446744069414584321) == (pow_mod(12275445934081160404, 429496729, 18446744069414584321) * pow_mod(12275445934081160404, 429496729, 18446744069414584321)) % 18446744069414584321);
    assert((pow_mod(12275445934081160404, 429496729, 18446744069414584321) * pow_mod(12275445934081160404, 429496729, 18446744069414584321)) % 18446744069414584321 == 2893082935152309876) by (nonlinear_arith)
        requires
            pow_mod(12275445934081160404, 429496729, 18446744069414584321) == 17358023527338233849,
    ;
    assert(pow_mod(12275445934081160404, 858993459, 18446744069414584321) == (12275445934081160404 * pow_mod(12275445934081160404, 858993458, 18446744069414584321)) % 18446744069414584321);
    assert((12275445934081160404 * pow_mod(12275445934081160404, 858993458, 18446744069414584321)) % 18446744069414584321 == 1373043270956696022) by (nonlinear_arith)
        requires
            pow_mod(12275445934081160404, 858993458, 18446744069414584321) == 2893082935152309876,
    ;
}

/// `s^((2^32 - 1)/17)` for `s = 7^(2^32)`, step by step.
proof fn lemma_shift_power_17()
    ensures
        pow_mod(12275445934081160404, 252645135, 18446744069414584321) == 16301593560560007290,
{
    assert(pow_mod(12275445934081160404, 0, 18446744069414584321) == 1);
    assert(pow_mod(12275445934081160404, 1, 18446744069414584321) == (12275445934081160404 * pow_mod(12275445934081160404, 0, 18446744069414584321)) % 18446744069414584321);
    assert((12275445934081160404 * pow_mod(12275445934081160404, 0, 18446744069414584321)) % 18446744069414584321 == 12275445934081160404) by (nonlinear_arith)
        requires
            pow_mod(12275445934081160404, 0, 18446744069414584321) == 1,
    ;
    assert(pow_mod(12275445934081160404, 2, 18446744069414584321) == (pow_mod(12275445934081160404, 1, 18446744069414584321) * pow_mod(12275445934081160404, 1, 18446744069414584321)) % 18446744069414584321);
    assert((pow_mod(12275445934081160404, 1, 18446744069414584321) * pow_mod(12275445934081160404, 1, 18446744069414584321)) % 18446744069414584321 == 4756475762779100925) by (nonlinear_arith)
        requires
            pow_mod(12275445934081160404, 1, 18446744069414584321) == 12275445934081160404,
    ;
    assert(pow_mod(12275445934081160404, 3, 18446744069414584321) == (12275445934081160404 * pow_mod(12275445934081160404, 2, 18446744069414584321)) % 18446744069414584321);
    assert((12275445934081160404 * pow_mod(12275445934081160404, 2, 18446744069414584321)) % 18446744069414584321 == 1279992132519201448) by (nonlinear_arith)
        requires
            pow_mod(12275445934081160404, 2, 18446744069414584321) == 4756475762779100925,
    ;
    assert(pow_mod(12275445934081160404, 6, 18446744069414584321) == (pow_mod(12275445934081160404, 3, 18446744069414584321) * pow_mod(12275445934081160404, 3, 18446744069414584321)) % 18446744069414584321);
    assert((pow_mod(12275445934081160404, 3, 18446744069414584321) * pow_mod(12275445934081160404, 3, 18446744069414584321)) % 18446744069414584321 == 11302600489504509467) by (nonlinear_arith)
        requires
            pow_mod(12275445934081160404, 3, 18446744069414584321) == 1279992132519201448,
    ;
    assert(pow_mod(12275445934081160404, 7, 18446744069414584321) == (12275445934081160404 * pow_mod(12275445934081160404, 6, 18446744069414584321)) % 18446744069414584321);
    assert((12275445934081160404 * pow_mod(12275445934081160404, 6, 18446744069414584321)) % 18446744069414584321 == 4549350404001778198) by (nonlinear_arith)
        requires
            pow_mod(12275445934081160404, 6, 18446744069414584321) == 11302600489504509467,
    ;
    assert(pow_mod(12275445934081160404, 14, 18446744069414584321) == (pow_mod(12275445934081160404, 7, 18446744069414584321) * pow_mod(12275445934081160404, 7, 18446744069414584321)) % 18446744069414584321);
    assert((pow_mod(12275445934081160404, 7, 18446744069414584321) * pow_mod(12275445934081160404, 7, 18446744069414584321)) % 18446744069414584321 == 11016800570561344835) by (nonlinear_arith)
        requires
            pow_mod(12275445934081160404, 7, 18446744069414584321) == 4549350404001778198,
    ;
    assert(pow_mod(12275445934081160404, 15, 18446744069414584321) == (12275445934081160404 * pow_mod(12275445934081160404, 14, 18446744069414584321)) % 18446744069414584321);
    assert((12275445934081160404 * pow_mod(12275445934081160404, 14, 18446744069414584321)) % 18446744069414584321 == 11274872323250451096) by (nonlinear_arith)
        requires
            pow_mod(12275445934081160404, 14, 18446744069414584321) == 11016800570561344835,
    ;
    assert(pow_mod(12275445934081160404, 30, 18446744069414584321) == (pow_mod(12275445934081160404, 15, 18446744069414584321) * pow_mod(12275445934081160404, 15, 18446744069414584321)) % 18446744069414584321);
    assert((pow_mod(12275445934081160404, 15, 18446744069414584321) * pow_mod(12275445934081160404, 15, 18446744069414584321)) % 18446744069414584321 == 12069298394184580155) by (nonlinear_arith)
        requires
            pow_mod(12275445934081160404, 15, 18446744069414584321) == 11274872323250451096,
    ;
    assert(pow_mod(12275445934081160404, 60, 18446744069414584321) == (pow_mod(12275445934081160404, 30, 18446744069414584321) * pow_mod(12275445934081160404, 30, 18446744069414584321)) % 18446744069414584321);
    assert((pow_mod(12275445934081160404, 30, 18446744069414584321) * pow_mod(12275445934081160404, 30, 18446744069414584321)) % 18446744069414584321 == 5428282574489895836) by (nonlinear_arith)
        requires
            pow_mod(12275445934081160404, 30, 18446744069414584321) == 12069298394184580155,
    ;
    assert(pow_mod(12275445934081160404, 120, 18446744069414584321) == (pow_mod(12275445934081160404, 60, 18446744069414584321) * pow_mod(12275445934081160404, 60, 18446744069414584321)) % 18446744069414584321);
    assert((pow_mod(12275445934081160404, 60, 18446744069414584321) * pow_mod(12275445934081160404, 60, 18446744069414584321)) % 18446744069414584321 == 15488913980707339956) by (nonlinear_arith)
        requires
            pow_mod(12275445934081160404, 60, 18446744069414584321) == 5428282574489895836,
    ;
    assert(pow_mod(12275445934081160404, 240, 18446744069414584321) == (pow_mod(12275445934081160404, 120, 18446744069414584321) * pow_mod(12275445934081160404, 120, 18446744069414584321)) % 18446744069414584321);
    assert((pow_mod(12275445934081160404, 120, 18446744069414584321) * pow_mod(12275445934081160404, 120, 18446744069414584321)) % 18446744069414584321 == 14489374604437787495) by (nonlinear_arith)
        requires
            pow_mod(12275445934081160404, 120, 18446744069414584321) == 15488913980707339956,
    ;
    assert(pow_mod(12275445934081160404, 480, 18446744069414584321) == (pow_mod(12275445934081160404, 240, 18446744069414584321) * pow_mod(12275445934081160404, 240, 18446744069414584321)) % 18446744069414584321);
    assert((pow_mod(12275445934081160404, 240, 18446744069414584321) * pow_mod(12275445934081160404, 240, 18446744069414584321)) % 18446744069414584321 == 12206518770029942281) by (nonlinear_arith)
        requires
            pow_mod(12275445934081160404, 240, 18446744069414584321) == 14489374604437787495,
    ;
    assert(pow_mod(12275445934081160404, 481, 18446744069414584321) == (12275445934081160404 * pow_mod(12275445934081160404, 480, 18446744069414584321)) % 18446744069414584321);
    assert((12275445934081160404 * pow_mod(12275445934081160404, 480, 18446744069414584321)) % 18446744069414584321 == 17837368160142808105) by (nonlinear_arith)
        requires
            pow_mod(12275445934081160404, 480, 18446744069414584321) == 12206518770029942281,
    ;
    assert(pow_mod(12275445934081160404, 962, 18446744069414584321) == (pow_mod(12275445934081160404, 481, 18446744069414584321) * pow_mod(12275445934081160404, 481, 18446744069414584321)) % 18446744069414584321);
    assert((pow_mod(12275445934081160404, 481, 18446744069414584321) * pow_mod(12275445934081160404, 481, 18446744069414584321)) % 18446744069414584321 == 5743916551702962506) by (nonlinear_arith)
        requires
            pow_mod(12275445934081160404, 481, 18446744069414584321) == 17837368160142808105,
    ;
    assert(pow_mod(12275445934081160404, 963, 18446744069414584321) == (12275445934081160404 * pow_mod(12275445934081160404, 962, 18446744069414584321)) % 18446744069414584321);
    assert((12275445934081160404 * pow_mod(12275445934081160404, 962, 18446744069414584321)) % 18446744069414584321 == 12508716582751049819) by (nonlinear_arith)
        requires
            pow_mod(12275445934081160404, 962, 18446744069414584321) == 5743916551702962506,
    ;
    assert(pow_mod(12275445934081160404, 1926, 18446744069414584321) == (pow_mod(12275445934081160404, 963, 18446744069414584321) * pow_mod(12275445934081160404, 963, 18446744069414584321)) % 18446744069414584321);
    assert((pow_mod(12275445934081160404, 963, 18446744069414584321) * pow_mod(12275445934081160404, 963, 18446744069414584321)) % 18446744069414584321 == 535259180718935157) by (nonlinear_arith)
        requires
            pow_mod(12275445934081160404, 963, 18446744069414584321) == 12508716582751049819,
    ;
    assert(pow_mod(12275445934081160404, 1927, 18446744069414584321) == (12275445934081160404 * pow_mod(12275445934081160404, 1926, 18446744069414584321)) % 18446744069414584321);
    assert((12275445934081160404 * pow_mod(12275445934081160404, 1926, 18446744069414584321)) % 18446744069414584321 == 16600212635661691142) by (nonlinear_arith)
        requires
            pow_mod(12275445934081160404, 1926, 18446744069414584321) == 535259180718935157,
    ;
    assert(pow_mod(12275445934081160404, 3854, 18446744069414584321) == (pow_mod(12275445934081160404, 1927, 18446744069414584321) * pow_mod(12275445934081160404, 1927, 18446744069414584321)) % 18446744069414584321);
    assert((pow_mod(12275445934081160404, 1927, 18446744069414584321) * pow_mod(12275445934081160404, 1927, 18446744069414584321)) % 18446744069414584321 == 10943260163112079055) by (nonlinear_arith)
        requires
            pow_mod(12275445934081160404, 1927, 18446744069414584321) == 16600212635661691142,
    ;
    assert(pow_mod(12275445934081160404, 3855, 18446744069414584321) == (12275445934081160404 * pow_mod(12275445934081160404, 3854, 18446744069414584321)) % 18446744069414584321);
    assert((12275445934081160404 * pow_mod(12275445934081160404, 3854, 18446744069414584321)) % 18446744069414584321 == 17081009302073449373) by (nonlinear_arith)
        requires
            pow_mod(12275445934081160404, 3854, 18446744069414584321) == 10943260163112079055,
    ;
    assert(pow_mod(12275445934081160404, 7710, 18446744069414584321) == (pow_mod(12275445934081160404, 3855, 18446744069414584321) * pow_mod(12275445934081160404, 3855, 18446744069414584321)) % 18446744069414584321);
    assert((pow_mod(12275445934081160404, 3855, 18446744069414584321) * pow_mod(12275445934081160404, 3855, 18446744069414584321)) % 18446744069414584321 == 9712290447447227715) by (nonlinear_arith)
        requires
            pow_mod(12275445934081160404, 3855, 18446744069414584321) == 17081009302073449373,
    ;
    assert(pow_mod(12275445934081160404, 15420, 18446744069414584321) == (pow_mod(12275445934081160404, 7710, 18446744069414584321) * pow_mod(12275445934081160404, 7710, 18446744069414584321)) % 18446744069414584321);
    assert((pow_mod(12275445934081160404, 7710, 18446744069414584321) * pow_mod(12275445934081160404, 7710, 18446744069414584321)) % 18446744069414584321 == 18353052305479501654) by (nonlinear_arith)
        requires
            pow_mod(12275445934081160404, 7710, 18446744069414584321) == 9712290447447227715,
    ;
    assert(pow_mod(12275445934081160404, 30840, 18446744069414584321) == (pow_mod(12275445934081160404, 15420, 18446744069414584321) * pow_mod(12275445934081160404, 15420, 18446744069414584321)) % 18446744069414584321);
    assert((pow_mod(12275445934081160404, 15420, 18446744069414584321) * pow_mod(12275445934081160404, 15420, 18446744069414584321)) % 18446744069414584321 == 3495479116764033220) by (nonlinear_arith)
        requires
            pow_mod(12275445934081160404, 15420, 18446744069414584321) == 18353052305479501654,
    ;
    assert(pow_mod(12275445934081160404, 61680, 18446744069414584321) == (pow_mod(12275445934081160404, 30840, 18446744069414584321) * pow_mod(12275445934081160404, 30840, 18446744069414584321)) % 18446744069414584321);
    assert((pow_mod(12275445934081160404, 30840, 18446744069414584321) * pow_mod(12275445934081160404, 30840, 18446744069414584321)) % 18446744069414584321 == 3168539979805436219) by (nonlinear_arith)
        requires
            pow_mod(12275445934081160404, 30840, 18446744069414584321) == 3495479116764033220,
    ;
    assert(pow_mod(12275445934081160404, 123360, 18446744069414584321) == (pow_mod(12275445934081160404, 61680, 18446744069414584321) * pow_mod(12275445934081160404, 61680, 18446744069414584321)) % 18446744069414584321);
    assert((pow_mod(12275445934081160404, 61680, 18446744069414584321) * pow_mod(12275445934081160404, 61680, 18446744069414584321)) % 18446744069414584321 == 3637221273663582256) by (nonlinear_arith)
        requires
            pow_mod(12275445934081160404, 61680, 18446744069414584321) == 3168539979805436219,
    ;
    assert(pow_mod(12275445934081160404, 123361, 18446744069414584321) == (12275445934081160404 * pow_mod(12275445934081160404, 123360, 18446744069414584321)) % 18446744069414584321);
    assert((12275445934081160404 * pow_mod(12275445934081160404, 123360, 18446744069414584321)) % 18446744069414584321 == 2173454143271796195) by (nonlinear_arith)
        requires
            pow_mod(12275445934081160404, 123360, 18446744069414584321) == 3637221273663582256,
    ;
    assert(pow_mod(12275445934081160404, 246722, 18446744069414584321) == (pow_mod(12275445934081160404, 123361, 18446744069414584321) * pow_mod(12275445934081160404, 123361, 18446744069414584321)) % 18446744069414584321);
    assert((pow_mod(12275445934081160404, 123361, 18446744069414584321) * pow_mod(12275445934081160404, 123361, 18446744069414584321)) % 18446744069414584321 == 10115547794579823426) by (nonlinear_arith)
        requires
            pow_mod(12275445934081160404, 123361, 18446744069414584321) == 2173454143271796195,
    ;
    assert(pow_mod(12275445934081160404, 246723, 18446744069414584321) == (12275445934081160404 * pow_mod(12275445934081160404, 246722, 18446744069414584321)) % 18446744069414584321);
    assert((12275445934081160404 * pow_mod(12275445934081160404, 246722, 18446744069414584321)) % 18446744069414584321 == 1214334918687997890) by (nonlinear_arith)
        requires
            pow_mod(12275445934081160404, 246722, 18446744069414584321) == 10115547794579823426,
    ;
    assert(pow_mod(12275445934081160404, 493446, 18446744069414584321) == (pow_mod(12275445934081160404, 246723, 18446744069414584321) * pow_mod(12275445934081160404, 246723, 18446744069414584321)) % 18446744069414584321);
    assert((pow_mod(12275445934081160404, 246723, 18446744069414584321) * pow_mod(12275445934081160404, 246723, 18446744069414584321)) % 18446744069414584321 == 2331351119047787362) by (nonlinear_arith)
        requires
            pow_mod(12275445934081160404, 246723, 18446744069414584321) == 1214334918687997890,
    ;
    assert(pow_mod(12275445934081160404, 493447, 18446744069414584321) == (12275445934081160404 * pow_mod(12275445934081160404, 493446, 18446744069414584321)) % 18446744069414584321);
    assert((12275445934081160404 * pow_mod(12275445934081160404, 493446, 18446744069414584321)) % 18446744069414584321 == 5013457521129386188) by (nonlinear_arith)
        requires
            pow_mod(12275445934081160404, 493446, 18446744069414584321) == 2331351119047787362,
    ;
    assert(pow_mod(12275445934081160404, 986894, 18446744069414584321) == (pow_mod(12275445934081160404, 493447, 18446744069414584321) * pow_mod(12275445934081160404, 493447, 18446744069414584321)) % 18446744069414584321);
    assert((pow_mod(12275445934081160404, 493447, 18446744069414584321) * pow_mod(12275445934081160404, 493447, 18446744069414584321)) % 18446744069414584321 == 12367592634475528824) by (nonlinear_arith)
        requires
            pow_mod(12275445934081160404, 493447, 18446744069414584321) == 5013457521129386188,
    ;
    assert(pow_mod(12275445934081160404, 986895, 18446744069414584321) == (12275445934081160404 * pow_mod(12275445934081160404, 986894, 18446744069414584321)) % 18446744069414584321);
    assert((12275445934081160404 * pow_mod(12275445934081160404, 986894, 18446744069414584321)) % 18446744069414584321 == 15021829110735092015) by (nonlinear_arith)
        requires
            pow_mod(12275445934081160404, 986894, 18446744069414584321) == 12367592634475528824,
    ;
    assert(pow_mod(12275445934081160404, 1973790, 18446744069414584321) == (pow_mod(12275445934081160404, 986895, 18446744069414584321) * pow_mod(12275445934081160404, 986895, 18446744069414584321)) % 18446744069414584321);
    assert((pow_mod(12275445934081160404, 986895, 18446744069414584321) * pow_mod(12275445934081160404, 986895, 18446744069414584321)) % 18446744069414584321 == 12875054229430057774) by (nonlinear_arith)
        requires
            pow_mod(12275445934081160404, 986895, 18446744069414584321) == 15021829110735092015,
    ;
    assert(pow_mod(12275445934081160404, 3947580, 18446744069414584321) == (pow_mod(12275445934081160404, 1973790, 18446744069414584321) * pow_mod(12275445934081160404, 1973790, 18446744069414584321)) % 18446744069414584321);
    assert((pow_mod(12275445934081160404, 1973790, 18446744069414584321) * pow_mod(12275445934081160404, 1973790, 18446744069414584321)) % 18446744069414584321 == 13189085413205303086) by (nonlinear_arith)
        requires
            pow_mod(12275445934081160404, 1973790, 18446744069414584321) == 12875054229430057774,
    ;
    assert(pow_mod(12275445934081160404, 7895160, 18446744069414584321) == (pow_mod(12275445934081160404, 3947580, 18446744069414584321) * pow_mod(12275445934081160404, 3947580, 18446744069414584321)) % 18446744069414584321);
    assert((pow_mod(12275445934081160404, 3947580, 18446744069414584321) * pow_mod(12275445934081160404, 3947580, 18446744069414584321)) % 18446744069414584321 == 7390837058150600142) by (nonlinear_arith)
        requires
            pow_mod(12275445934081160404, 3947580, 18446744069414584321) == 13189085413205303086,
    ;
    assert(pow_mod(12275445934081160404, 15790320, 18446744069414584321) == (pow_mod(12275445934081160404, 7895160, 18446744069414584321) * pow_mod(12275445934081160404, 7895160, 18446744069414584321)) % 18446744069414584321);
    assert((pow_mod(12275445934081160404, 7895160, 18446744069414584321) * pow_mod(12275445934081160404, 7895160, 18446744069414584321)) % 18446744069414584321 == 1279620912662927432) by (nonlinear_arith)
        requires
            pow_mod(12275445934081160404, 7895160, 18446744069414584321) == 7390837058150600142,
    ;
    assert(pow_mod(12275445934081160404, 31580640, 18446744069414584321) == (pow_mod(12275445934081160404, 15790320, 18446744069414584321) * pow_mod(12275445934081160404, 15790320, 18446744069414584321)) % 18446744069414584321);
    assert((pow_mod(12275445934081160404, 15790320, 18446744069414584321) * pow_mod(12275445934081160404, 15790320, 18446744069414584321)) % 18446744069414584321 == 296945591247470081) by (nonlinear_arith)
        requires
            pow_mod(12275445934081160404, 15790320, 18446744069414584321) == 1279620912662927432,
    ;
    assert(pow_mod(12275445934081160404, 31580641, 18446744069414584321) == (12275445934081160404 * pow_mod(12275445934081160404, 31580640, 18446744069414584321)) % 18446744069414584321);
    assert((12275445934081160404 * pow_mod(12275445934081160404, 31580640, 18446744069414584321)) % 18446744069414584321 == 1129246164337980946) by (nonlinear_arith)
        requires
            pow_mod(12275445934081160404, 31580640, 18446744069414584321) == 296945591247470081,
    ;
    assert(pow_mod(12275445934081160404, 63161282, 18446744069414584321) == (pow_mod(12275445934081160404, 31580641, 18446744069414584321) * pow_mod(12275445934081160404, 31580641, 18446744069414584321)) % 18446744069414584321);
    assert((pow_mod(12275445934081160404, 31580641, 18446744069414584321) * pow_mod(12275445934081160404, 31580641, 18446744069414584321)) % 18446744069414584321 == 17769458208704991266) by (nonlinear_arith)
        requires
            pow_mod(12275445934081160404, 31580641, 18446744069414584321) == 1129246164337980946,
    ;
    assert(pow_mod(12275445934081160404, 63161283, 18446744069414584321) == (12275445934081160404 * pow_mod(12275445934081160404, 63161282, 18446744069414584321)) % 18446744069414584321);
    assert((12275445934081160404 * pow_mod(12275445934081160404, 63161282, 18446744069414584321)) % 18446744069414584321 == 11392130255474453357) by (nonlinear_arith)
        requires
            pow_mod(12275445934081160404, 63161282, 18446744069414584321) == 17769458208704991266,
    ;
    assert(pow_mod(12275445934081160404, 126322566, 18446744069414584321) == (pow_mod(12275445934081160404, 63161283, 18446744069414584321) * pow_mod(12275445934081160404, 63161283, 18446744069414584321)) % 18446744069414584321);
    assert((pow_mod(12275445934081160404, 63161283, 18446744069414584321) * pow_mod(12275445934081160404, 63161283, 18446744069414584321)) % 18446744069414584321 == 15766643916822819967) by (nonlinear_arith)
        requires
            pow_mod(12275445934081160404, 63161283, 18446744069414584321) == 11392130255474453357,
    ;
    assert(pow_mod(12275445934081160404, 126322567, 18446744069414584321) == (12275445934081160404 * pow_mod(12275445934081160404, 126322566, 18446744069414584321)) % 18446744069414584321);
    assert((12275445934081160404 * pow_mod(12275445934081160404, 126322566, 18446744069414584321)) % 18446744069414584321 == 13350968192455222727) by (nonlinear_arith)
        requires
            pow_mod(12275445934081160404, 126322566, 18446744069414584321) == 15766643916822819967,
    ;
    assert(pow_mod(12275445934081160404, 252645134, 18446744069414584321) == (pow_mod(12275445934081160404, 126322567, 18446744069414584321) * pow_mod(12275445934081160404, 126322567, 18446744069414584321)) % 18446744069414584321);
    assert((pow_mod(12275445934081160404, 126322567, 18446744069414584321) * pow_mod(12275445934081160404, 126322567, 18446744069414584321)) % 18446744069414584321 == 14139047897054251237) by (nonlinear_arith)
        requires
            pow_mod(12275445934081160404, 126322567, 18446744069414584321) == 13350968192455222727,
    ;
    assert(pow_mod(12275445934081160404, 252645135, 18446744069414584321) == (12275445934081160404 * pow_mod(12275445934081160404, 252645134, 18446744069414584321)) % 18446744069414584321);
    assert((12275445934081160404 * pow_mod(12275445934081160404, 252645134, 18446744069414584321)) % 18446744069414584321 == 16301593560560007290) by (nonlinear_arith)
        requires
            pow_mod(12275445934081160404, 252645134, 18446744069414584321) == 14139047897054251237,
    ;
}

/// `s^((2^32 - 1)/257)` for `s = 7^(2^32)`, step by step.
proof fn lemma_shift_power_257()
    ensures
        pow_mod(12275445934081160404, 16711935, 18446744069414584321) == 995085315851368103,
{
    assert(pow_mod(12275445934081160404, 0, 18446744069414584321) == 1);
    assert(pow_mod(12275445934081160404, 1, 18446744069414584321) == (12275445934081160404 * pow_mod(12275445934081160404, 0, 18446744069414584321)) % 18446744069414584321);
    assert((12275445934081160404 * pow_mod(12275445934081160404, 0, 18446744069414584321)) % 18446744069414584321 == 12275445934081160404) by (nonlinear_arith)
        requires
            pow_mod(12275445934081160404, 0, 18446744069414584321) == 1,
    ;
    assert(pow_mod(12275445934081160404, 2, 18446744069414584321) == (pow_mod(12275445934081160404, 1, 18446744069414584321) * pow_mod(12275445934081160404, 1, 18446744069414584321)) % 18446744069414584321);
    assert((pow_mod(12275445934081160404, 1, 18446744069414584321) * pow_mod(12275445934081160404, 1, 18446744069414584321)) % 18446744069414584321 == 4756475762779100925) by (nonlinear_arith)
        requires
            pow_mod(12275445934081160404, 1, 18446744069414584321) == 12275445934081160404,
    ;
    assert(pow_mod(12275445934081160404, 3, 18446744069414584321) == (12275445934081160404 * pow_mod(12275445934081160404, 2, 18446744069414584321)) % 18446744069414584321);
    assert((12275445934081160404 * pow_mod(12275445934081160404, 2, 18446744069414584321)) % 18446744069414584321 == 1279992132519201448) by (nonlinear_arith)
        requires
            pow_mod(12275445934081160404, 2, 18446744069414584321) == 4756475762779100925,
    ;
    assert(pow_mod(12275445934081160404, 6, 18446744069414584321) == (pow_mod(12275445934081160404, 3, 18446744069414584321) * pow_mod(12275445934081160404, 3, 18446744069414584321)) % 18446744069414584321);
    assert((pow_mod(12275445934081160404, 3, 18446744069414584321) * pow_mod(12275445934081160404, 3, 18446744069414584321)) % 18446744069414584321 == 11302600489504509467) by (nonlinear_arith)
        requires
            pow_mod(12275445934081160404, 3, 18446744069414584321) == 1279992132519201448,
    ;
    assert(pow_mod(12275445934081160404, 7, 18446744069414584321) == (12275445934081160404 * pow_mod(12275445934081160404, 6, 18446744069414584321)) % 18446744069414584321);
    assert((12275445934081160404 * pow_mod(12275445934081160404, 6, 18446744069414584321)) % 18446744069414584321 == 4549350404001778198) by (nonlinear_arith)
        requires
            pow_mod(12275445934081160404, 6, 18446744069414584321) == 11302600489504509467,
    ;
    assert(pow_mod(12275445934081160404, 14, 18446744069414584321) == (pow_mod(12275445934081160404, 7, 18446744069414584321) * pow_mod(12275445934081160404, 7, 18446744069414584321)) % 18446744069414584321);
    assert((pow_mod(12275445934081160404, 7, 18446744069414584321) * pow_mod(12275445934081160404, 7, 18446744069414584321)) % 18446744069414584321 == 11016800570561344835) by (nonlinear_arith)
        requires
            pow_mod(12275445934081160404, 7, 18446744069414584321) == 4549350404001778198,
    ;
    assert(pow_mod(12275445934081160404, 15, 18446744069414584321) == (12275445934081160404 * pow_mod(12275445934081160404, 14, 18446744069414584321)) % 18446744069414584321);
    assert((12275445934081160404 * pow_mod(12275445934081160404, 14, 18446744069414584321)) % 18446744069414584321 == 11274872323250451096) by (nonlinear_arith)
        requires
            pow_mod(12275445934081160404, 14, 18446744069414584321) == 11016800570561344835,
    ;
    assert(pow_mod(12275445934081160404, 30, 18446744069414584321) == (pow_mod(12275445934081160404, 15, 18446744069414584321) * pow_mod(12275445934081160404, 15, 18446744069414584321)) % 18446744069414584321);
    assert((pow_mod(12275445934081160404, 15, 18446744069414584321) * pow_mod(12275445934081160404, 15, 18446744069414584321)) % 18446744069414584321 == 12069298394184580155) by (nonlinear_arith)
        requires
            pow_mod(12275445934081160404, 15, 18446744069414584321) == 11274872323250451096,
    ;
    assert(pow_mod(12275445934081160404, 31, 18446744069414584321) == (12275445934081160404 * pow_mod(12275445934081160404, 30, 18446744069414584321)) % 18446744069414584321);
    assert((12275445934081160404 * pow_mod(12275445934081160404, 30, 18446744069414584321)) % 18446744069414584321 == 4304519570518954644) by (nonlinear_arith)
        requires
            pow_mod(12275445934081160404, 30, 18446744069414584321) == 12069298394184580155,
    ;
    assert(pow_mod(12275445934081160404, 62, 18446744069414584321) == (pow_mod(12275445934081160404, 31, 18446744069414584321) * pow_mod(12275445934081160404, 31, 18446744069414584321)) % 18446744069414584321);
    assert((pow_mod(12275445934081160404, 31, 18446744069414584321) * pow_mod(12275445934081160404, 31, 18446744069414584321)) % 18446744069414584321 == 12324806857078391184) by (nonlinear_arith)
        requires
            pow_mod(12275445934081160404, 31, 18446744069414584321) == 4304519570518954644,
    ;
    assert(pow_mod(12275445934081160404, 63, 18446744069414584321) == (12275445934081160404 * pow_mod(12275445934081160404, 62, 18446744069414584321)) % 18446744069414584321);
    assert((12275445934081160404 * pow_mod(12275445934081160404, 62, 18446744069414584321)) % 18446744069414584321 == 16394889243316335910) by (nonlinear_arith)
        requires
            pow_mod(12275445934081160404, 62, 18446744069414584321) == 12324806857078391184,
    ;
    assert(pow_mod(12275445934081160404, 126, 18446744069414584321) == (pow_mod(12275445934081160404, 63, 18446744069414584321) * pow_mod(12275445934081160404, 63, 18446744069414584321)) % 18446744069414584321);
    assert((pow_mod(12275445934081160404, 63, 18446744069414584321) * pow_mod(12275445934081160404, 63, 18446744069414584321)) % 18446744069414584321 == 12473340957261074445) by (nonlinear_arith)
        requires
            pow_mod(12275445934081160404, 63, 18446744069414584321) == 16394889243316335910,
    ;
    assert(pow_mod(12275445934081160404, 127, 18446744069414584321) == (12275445934081160404 * pow_mod(12275445934081160404, 126, 18446744069414584321)) % 18446744069414584321);
    assert((12275445934081160404 * pow_mod(12275445934081160404, 126, 18446744069414584321)) % 18446744069414584321 == 3679734199234472637) by (nonlinear_arith)
        requires
            pow_mod(12275445934081160404, 126, 18446744069414584321) == 12473340957261074445,
    ;
    assert(pow_mod(12275445934081160404, 254, 18446744069414584321) == (pow_mod(12275445934081160404, 127, 18446744069414584321) * pow_mod(12275445934081160404, 127, 18446744069414584321)) % 18446744069414584321);
    assert((pow_mod(12275445934081160404, 127, 18446744069414584321) * pow_mod(12275445934081160404, 127, 18446744069414584321)) % 18446744069414584321 == 8578194262823733392) by (nonlinear_arith)
        requires
            pow_mod(12275445934081160404, 127, 18446744069414584321) == 3679734199234472637,
    ;
    assert(pow_mod(12275445934081160404, 255, 18446744069414584321) == (12275445934081160404 * pow_mod(12275445934081160404, 254, 18446744069414584321)) % 18446744069414584321);
    assert((12275445934081160404 * pow_mod(12275445934081160404, 254, 18446744069414584321)) % 18446744069414584321 == 17588058450869219263) by (nonlinear_arith)
        requires
            pow_mod(12275445934081160404, 254, 18446744069414584321) == 8578194262823733392,
    ;
    assert(pow_mod(12275445934081160404, 510, 18446744069414584321) == (pow_mod(12275445934081160404, 255, 18446744069414584321) * pow_mod(12275445934081160404, 255, 18446744069414584321)) % 18446744069414584321);
    assert((pow_mod(12275445934081160404, 255, 18446744069414584321) * pow_mod(12275445934081160404, 255, 18446744069414584321)) % 18446744069414584321 == 683923235602147932) by (nonlinear_arith)
        requires
            pow_mod(12275445934081160404, 255, 18446744069414584321) == 17588058450869219263,
    ;
    assert(pow_mod(12275445934081160404, 1020, 18446744069414584321) == (pow_mod(12275445934081160404, 510, 18446744069414584321) * pow_mod(12275445934081160404, 510, 18446744069414584321)) % 18446744069414584321);
    assert((pow_mod(12275445934081160404, 510, 18446744069414584321) * pow_mod(12275445934081160404, 510, 18446744069414584321)) % 18446744069414584321 == 8835979233172182436) by (nonlinear_arith)
        requires
            pow_mod(12275445934081160404, 510, 18446744069414584321) == 683923235602147932,
    ;
    assert(pow_mod(12275445934081160404, 2040, 18446744069414584321) == (pow_mod(12275445934081160404, 1020, 18446744069414584321) * pow_mod(12275445934081160404, 1020, 18446744069414584321)) % 18446744069414584321);
    assert((pow_mod(12275445934081160404, 1020, 18446744069414584321) * pow_mod(12275445934081160404, 1020, 18446744069414584321)) % 18446744069414584321 == 3355407709622930266) by (nonlinear_arith)
        requires
            pow_mod(12275445934081160404, 1020, 18446744069414584321) == 8835979233172182436,
    ;
    assert(pow_mod(12275445934081160404, 4080, 18446744069414584321) == (pow_mod(12275445934081160404, 2040, 18446744069414584321) * pow_mod(12275445934081160404, 2040, 18446744069414584321)) % 18446744069414584321);
    assert((pow_mod(12275445934081160404, 2040, 18446744069414584321) * pow_mod(12275445934081160404, 2040, 18446744069414584321)) % 18446744069414584321 == 17799430507262292938) by (nonlinear_arith)
        requires
            pow_mod(12275445934081160404, 2040, 18446744069414584321) == 3355407709622930266,
    ;
    assert(pow_mod(12275445934081160404, 8160, 18446744069414584321) == (pow_mod(12275445934081160404, 4080, 18446744069414584321) * pow_mod(12275445934081160404, 4080, 18446744069414584321)) % 18446744069414584321);
    assert((pow_mod(12275445934081160404, 4080, 18446744069414584321) * pow_mod(12275445934081160404, 4080, 18446744069414584321)) % 18446744069414584321 == 11182389913569094181) by (nonlinear_arith)
        requires
            pow_mod(12275445934081160404, 4080, 18446744069414584321) == 17799430507262292938,
    ;
    assert(pow_mod(12275445934081160404, 16320, 18446744069414584321) == (pow_mod(12275445934081160404, 8160, 18446744069414584321) * pow_mod(12275445934081160404, 8160, 18446744069414584321)) % 18446744069414584321);
    assert((pow_mod(12275445934081160404, 8160, 18446744069414584321) * pow_mod(12275445934081160404, 8160, 18446744069414584321)) % 18446744069414584321 == 11350173437670463340) by (nonlinear_arith)
        requires
            pow_mod(12275445934081160404, 8160, 18446744069414584321) == 11182389913569094181,
    ;
    assert(pow_mod(12275445934081160404, 32640, 18446744069414584321) == (pow_mod(12275445934081160404, 16320, 18446744069414584321) * pow_mod(12275445934081160404, 16320, 18446744069414584321)) % 18446744069414584321);
    assert((pow_mod(12275445934081160404, 16320, 18446744069414584321) * pow_mod(12275445934081160404, 16320, 18446744069414584321)) % 18446744069414584321 == 13348485338936455432) by (nonlinear_arith)
        requires
            pow_mod(12275445934081160404, 16320, 18446744069414584321) == 11350173437670463340,
    ;
    assert(pow_mod(12275445934081160404, 65280, 18446744069414584321) == (pow_mod(12275445934081160404, 32640, 18446744069414584321) * pow_mod(12275445934081160404, 32640, 18446744069414584321)) % 18446744069414584321);
    assert((pow_mod(12275445934081160404, 32640, 18446744069414584321) * pow_mod(12275445934081160404, 32640, 18446744069414584321)) % 18446744069414584321 == 13464544557546266752) by (nonlinear_arith)
        requires
            pow_mod(12275445934081160404, 32640, 18446744069414584321) == 13348485338936455432,
    ;
    assert(pow_mod(12275445934081160404, 130560, 18446744069414584321) == (pow_mod(12275445934081160404, 65280, 18446744069414584321) * pow_mod(12275445934081160404, 65280, 18446744069414584321)) % 18446744069414584321);
    assert((pow_mod(12275445934081160404, 65280, 18446744069414584321) * pow_mod(12275445934081160404, 65280, 18446744069414584321)) % 18446744069414584321 == 2636486945714830121) by (nonlinear_arith)
        requires
            pow_mod(12275445934081160404, 65280, 18446744069414584321) == 13464544557546266752,
    ;
    assert(pow_mod(12275445934081160404, 130561, 18446744069414584321) == (12275445934081160404 * pow_mod(12275445934081160404, 130560, 18446744069414584321)) % 18446744069414584321);
    assert((12275445934081160404 * pow_mod(12275445934081160404, 130560, 18446744069414584321)) % 18446744069414584321 == 1513428289589361160) by (nonlinear_arith)
        requires
            pow_mod(12275445934081160404, 130560, 18446744069414584321) == 2636486945714830121,
    ;
    assert(pow_mod(12275445934081160404, 261122, 18446744069414584321) == (pow_mod(12275445934081160404, 130561, 18446744069414584321) * pow_mod(12275445934081160404, 130561, 18446744069414584321)) % 18446744069414584321);
    assert((pow_mod(12275445934081160404, 130561, 18446744069414584321) * pow_mod(12275445934081160404, 130561, 18446744069414584321)) % 18446744069414584321 == 9328946377164922880) by (nonlinear_arith)
        requires
            pow_mod(12275445934081160404, 130561, 18446744069414584321) == 1513428289589361160,
    ;
    assert(pow_mod(12275445934081160404, 261123, 18446744069414584321) == (12275445934081160404 * pow_mod(12275445934081160404, 261122, 18446744069414584321)) % 18446744069414584321);
    assert((12275445934081160404 * pow_mod(12275445934081160404, 261122, 18446744069414584321)) % 18446744069414584321 == 4375310131417860027) by (nonlinear_arith)
        requires
            pow_mod(12275445934081160404, 261122, 18446744069414584321) == 9328946377164922880,
    ;
    assert(pow_mod(12275445934081160404, 522246, 18446744069414584321) == (pow_mod(12275445934081160404, 261123, 18446744069414584321) * pow_mod(12275445934081160404, 261123, 18446744069414584321)) % 18446744069414584321);
    assert((pow_mod(12275445934081160404, 261123, 18446744069414584321) * pow_mod(12275445934081160404, 261123, 18446744069414584321)) % 18446744069414584321 == 2804087297162569030) by (nonlinear_arith)
        requires
            pow_mod(12275445934081160404, 261123, 18446744069414584321) == 4375310131417860027,
    ;
    assert(pow_mod(12275445934081160404, 522247, 18446744069414584321) == (12275445934081160404 * pow_mod(12275445934081160404, 522246, 18446744069414584321)) % 18446744069414584321);
    assert((12275445934081160404 * pow_mod(12275445934081160404, 522246, 18446744069414584321)) % 18446744069414584321 == 2157233494186566964) by (nonlinear_arith)
        requires
            pow_mod(12275445934081160404, 522246, 18446744069414584321) == 2804087297162569030,
    ;
    assert(pow_mod(12275445934081160404, 1044494, 18446744069414584321) == (pow_mod(12275445934081160404, 522247, 18446744069414584321) * pow_mod(12275445934081160404, 522247, 18446744069414584321)) % 18446744069414584321);
    assert((pow_mod(12275445934081160404, 522247, 18446744069414584321) * pow_mod(12275445934081160404, 522247, 18446744069414584321)) % 18446744069414584321 == 6471035013242133362) by (nonlinear_arith)
        requires
            pow_mod(12275445934081160404, 522247, 18446744069414584321) == 2157233494186566964,
    ;
    assert(pow_mod(12275445934081160404, 1044495, 18446744069414584321) == (12275445934081160404 * pow_mod(12275445934081160404, 1044494, 18446744069414584321)) % 18446744069414584321);
    assert((12275445934081160404 * pow_mod(12275445934081160404, 1044494, 18446744069414584321)) % 18446744069414584321 == 18009115704370032030) by (nonlinear_arith)
        requires
            pow_mod(12275445934081160404, 1044494, 18446744069414584321) == 6471035013242133362,
    ;
    assert(pow_mod(12275445934081160404, 2088990, 18446744069414584321) == (pow_mod(12275445934081160404, 1044495, 18446744069414584321) * pow_mod(12275445934081160404, 1044495, 18446744069414584321)) % 18446744069414584321);
    assert((pow_mod(12275445934081160404, 1044495, 18446744069414584321) * pow_mod(12275445934081160404, 1044495, 18446744069414584321)) % 18446744069414584321 == 3075563262800370696) by (nonlinear_arith)
        requires
            pow_mod(12275445934081160404, 1044495, 18446744069414584321) == 18009115704370032030,
    ;
    assert(pow_mod(12275445934081160404, 2088991, 18446744069414584321) == (12275445934081160404 * pow_mod(12275445934081160404, 2088990, 18446744069414584321)) % 18446744069414584321);
    assert((12275445934081160404 * pow_mod(12275445934081160404, 2088990, 18446744069414584321)) % 18446744069414584321 == 12804583452587087305) by (nonlinear_arith)
        requires
            pow_mod(12275445934081160404, 2088990, 18446744069414584321) == 3075563262800370696,
    ;
    assert(pow_mod(12275445934081160404, 4177982, 18446744069414584321) == (pow_mod(12275445934081160404, 2088991, 18446744069414584321) * pow_mod(12275445934081160404, 2088991, 18446744069414584321)) % 18446744069414584321);
    assert((pow_mod(12275445934081160404, 2088991, 18446744069414584321) * pow_mod(12275445934081160404, 2088991, 18446744069414584321)) % 18446744069414584321 == 4733907453246213470) by (nonlinear_arith)
        requires
            pow_mod(12275445934081160404, 2088991, 18446744069414584321) == 12804583452587087305,
    ;
    assert(pow_mod(12275445934081160404, 4177983, 18446744069414584321) == (12275445934081160404 * pow_mod(12275445934081160404, 4177982, 18446744069414584321)) % 18446744069414584321);
    assert((12275445934081160404 * pow_mod(12275445934081160404, 4177982, 18446744069414584321)) % 18446744069414584321 == 16894534560283711836) by (nonlinear_arith)
        requires
            pow_mod(12275445934081160404, 4177982, 18446744069414584321) == 4733907453246213470,
    ;
    assert(pow_mod(12275445934081160404, 8355966, 18446744069414584321) == (pow_mod(12275445934081160404, 4177983, 18446744069414584321) * pow_mod(12275445934081160404, 4177983, 18446744069414584321)) % 18446744069414584321);
    assert((pow_mod(12275445934081160404, 4177983, 18446744069414584321) * pow_mod(12275445934081160404, 4177983, 18446744069414584321)) % 18446744069414584321 == 4248078958172097799) by (nonlinear_arith)
        requires
            pow_mod(12275445934081160404, 4177983, 18446744069414584321) == 16894534560283711836,
    ;
    assert(pow_mod(12275445934081160404, 8355967, 18446744069414584321) == (12275445934081160404 * pow_mod(12275445934081160404, 8355966, 18446744069414584321)) % 18446744069414584321);
    assert((12275445934081160404 * pow_mod(12275445934081160404, 8355966, 18446744069414584321)) % 18446744069414584321 == 17537846203270146108) by (nonlinear_arith)
        requires
            pow_mod(12275445934081160404, 8355966, 18446744069414584321) == 4248078958172097799,
    ;
    assert(pow_mod(12275445934081160404, 16711934, 18446744069414584321) == (pow_mod(12275445934081160404, 8355967, 18446744069414584321) * pow_mod(12275445934081160404, 8355967, 18446744069414584321)) % 18446744069414584321);
    assert((pow_mod(12275445934081160404, 8355967, 18446744069414584321) * pow_mod(12275445934081160404, 8355967, 18446744069414584321)) % 18446744069414584321 == 3324089624542632827) by (nonlinear_arith)
        requires
            pow_mod(12275445934081160404, 8355967, 18446744069414584321) == 17537846203270146108,
    ;
    assert(pow_mod(12275445934081160404, 16711935, 18446744069414584321) == (12275445934081160404 * pow_mod(12275445934081160404, 16711934, 18446744069414584321)) % 18446744069414584321);
    assert((12275445934081160404 * pow_mod(12275445934081160404, 16711934, 18446744069414584321)) % 18446744069414584321 == 995085315851368103) by (nonlinear_arith)
        requires
            pow_mod(12275445934081160404, 16711934, 18446744069414584321) == 3324089624542632827,
    ;
}

/// `s^((2^32 - 1)/65537)` for `s = 7^(2^32)`, step by step.
proof fn lemma_shift_power_65537()
    ensures
        pow_mod(12275445934081160404, 65535, 18446744069414584321) == 8478886009461009681,
{
    assert(pow_mod(12275445934081160404, 0, 18446744069414584321) == 1);
    assert(pow_mod(12275445934081160404, 1, 18446744069414584321) == (12275445934081160404 * pow_mod(12275445934081160404, 0, 18446744069414584321)) % 18446744069414584321);
    assert((12275445934081160404 * pow_mod(12275445934081160404, 0, 18446744069414584321)) % 18446744069414584321 == 12275445934081160404) by (nonlinear_arith)
        requires
            pow_mod(12275445934081160404, 0, 18446744069414584321) == 1,
    ;
    assert(pow_mod(12275445934081160404, 2, 18446744069414584321) == (pow_mod(12275445934081160404, 1, 18446744069414584321) * pow_mod(12275445934081160404, 1, 18446744069414584321)) % 18446744069414584321);
    assert((pow_mod(12275445934081160404, 1, 18446744069414584321) * pow_mod(12275445934081160404, 1, 18446744069414584321)) % 18446744069414584321 == 4756475762779100925) by (nonlinear_arith)
        requires
            pow_mod(12275445934081160404, 1, 18446744069414584321) == 12275445934081160404,
    ;
    assert(pow_mod(12275445934081160404, 3, 18446744069414584321) == (12275445934081160404 * pow_mod(12275445934081160404, 2, 18446744069414584321)) % 18446744069414584321);
    assert((12275445934081160404 * pow_mod(12275445934081160404, 2, 18446744069414584321)) % 18446744069414584321 == 1279992132519201448) by (nonlinear_arith)
        requires
            pow_mod(12275445934081160404, 2, 18446744069414584321) == 4756475762779100925,
    ;
    assert(pow_mod(12275445934081160404, 6, 18446744069414584321) == (pow_mod(12275445934081160404, 3, 18446744069414584321) * pow_mod(12275445934081160404, 3, 18446744069414584321)) % 18446744069414584321);
    assert((pow_mod(12275445934081160404, 3, 18446744069414584321) * pow_mod(12275445934081160404, 3, 18446744069414584321)) % 18446744069414584321 == 11302600489504509467) by (nonlinear_arith)
        requires
            pow_mod(12275445934081160404, 3, 18446744069414584321) == 1279992132519201448,
    ;
    assert(pow_mod(12275445934081160404, 7, 18446744069414584321) == (12275445934081160404 * pow_mod(12275445934081160404, 6, 18446744069414584321)) % 18446744069414584321);
    assert((12275445934081160404 * pow_mod(12275445934081160404, 6, 18446744069414584321)) % 18446744069414584321 == 4549350404001778198) by (nonlinear_arith)
        requires
            pow_mod(12275445934081160404, 6, 18446744069414584321) == 11302600489504509467,
    ;
    assert(pow_mod(12275445934081160404, 14, 18446744069414584321) == (pow_mod(12275445934081160404, 7, 18446744069414584321) * pow_mod(12275445934081160404, 7, 18446744069414584321)) % 18446744069414584321);
    assert((pow_mod(12275445934081160404, 7, 18446744069414584321) * pow_mod(12275445934081160404, 7, 18446744069414584321)) % 18446744069414584321 == 11016800570561344835) by (nonlinear_arith)
        requires
            pow_mod(12275445934081160404, 7, 18446744069414584321) == 4549350404001778198,
    ;
    assert(pow_mod(12275445934081160404, 15, 18446744069414584321) == (12275445934081160404 * pow_mod(12275445934081160404, 14, 18446744069414584321)) % 18446744069414584321);
    assert((12275445934081160404 * pow_mod(12275445934081160404, 14, 18446744069414584321)) % 18446744069414584321 == 11274872323250451096) by (nonlinear_arith)
        requires
            pow_mod(12275445934081160404, 14, 18446744069414584321) == 11016800570561344835,
    ;
    assert(pow_mod(12275445934081160404, 30, 18446744069414584321) == (pow_mod(12275445934081160404, 15, 18446744069414584321) * pow_mod(12275445934081160404, 15, 18446744069414584321)) % 18446744069414584321);
    assert((pow_mod(12275445934081160404, 15, 18446744069414584321) * pow_mod(12275445934081160404, 15, 18446744069414584321)) % 18446744069414584321 == 12069298394184580155) by (nonlinear_arith)
        requires
            pow_mod(12275445934081160404, 15, 18446744069414584321) == 11274872323250451096,
    ;
    assert(pow_mod(12275445934081160404, 31, 18446744069414584321) == (12275445934081160404 * pow_mod(12275445934081160404, 30, 18446744069414584321)) % 18446744069414584321);
    assert((12275445934081160404 * pow_mod(12275445934081160404, 30, 18446744069414584321)) % 18446744069414584321 == 4304519570518954644) by (nonlinear_arith)
        requires
            pow_mod(12275445934081160404, 30, 18446744069414584321) == 12069298394184580155,
    ;
    assert(pow_mod(12275445934081160404, 62, 18446744069414584321) == (pow_mod(12275445934081160404, 31, 18446744069414584321) * pow_mod(12275445934081160404, 31, 18446744069414584321)) % 18446744069414584321);
    assert((pow_mod(12275445934081160404, 31, 18446744069414584321) * pow_mod(12275445934081160404, 31, 18446744069414584321)) % 18446744069414584321 == 12324806857078391184) by (nonlinear_arith)
        requires
            pow_mod(12275445934081160404, 31, 18446744069414584321) == 4304519570518954644,
    ;
    assert(pow_mod(12275445934081160404, 63, 18446744069414584321) == (12275445934081160404 * pow_mod(12275445934081160404, 62, 18446744069414584321)) % 18446744069414584321);
    assert((12275445934081160404 * pow_mod(12275445934081160404, 62, 18446744069414584321)) % 18446744069414584321 == 16394889243316335910) by (nonlinear_arith)
        requires
            pow_mod(12275445934081160404, 62, 18446744069414584321) == 12324806857078391184,
    ;
    assert(pow_mod(12275445934081160404, 126, 18446744069414584321) == (pow_mod(12275445934081160404, 63, 18446744069414584321) * pow_mod(12275445934081160404, 63, 18446744069414584321)) % 18446744069414584321);
    assert((pow_mod(12275445934081160404, 63, 18446744069414584321) * pow_mod(12275445934081160404, 63, 18446744069414584321)) % 18446744069414584321 == 12473340957261074445) by (nonlinear_arith)
        requires
            pow_mod(12275445934081160404, 63, 18446744069414584321) == 16394889243316335910,
    ;
    assert(pow_mod(12275445934081160404, 127, 18446744069414584321) == (12275445934081160404 * pow_mod(12275445934081160404, 126, 18446744069414584321)) % 18446744069414584321);
    assert((12275445934081160404 * pow_mod(12275445934081160404, 126, 18446744069414584321)) % 18446744069414584321 == 3679734199234472637) by (nonlinear_arith)
        requires
            pow_mod(12275445934081160404, 126, 18446744069414584321) == 12473340957261074445,
    ;
    assert(pow_mod(12275445934081160404, 254, 18446744069414584321) == (pow_mod(12275445934081160404, 127, 18446744069414584321) * pow_mod(12275445934081160404, 127, 18446744069414584321)) % 18446744069414584321);
    assert((pow_mod(12275445934081160404, 127, 18446744069414584321) * pow_mod(12275445934081160404, 127, 18446744069414584321)) % 18446744069414584321 == 8578194262823733392) by (nonlinear_arith)
        requires
            pow_mod(12275445934081160404, 127, 18446744069414584321) == 3679734199234472637,
    ;
    assert(pow_mod(12275445934081160404, 255, 18446744069414584321) == (12275445934081160404 * pow_mod(12275445934081160404, 254, 18446744069414584321)) % 18446744069414584321);
    assert((12275445934081160404 * pow_mod(12275445934081160404, 254, 18446744069414584321)) % 18446744069414584321 == 17588058450869219263) by (nonlinear_arith)
        requires
            pow_mod(12275445934081160404, 254, 18446744069414584321) == 8578194262823733392,
    ;
    assert(pow_mod(12275445934081160404, 510, 18446744069414584321) == (pow_mod(12275445934081160404, 255, 18446744069414584321) * pow_mod(12275445934081160404, 255, 18446744069414584321)) % 18446744069414584321);
    assert((pow_mod(12275445934081160404, 255, 18446744069414584321) * pow_mod(12275445934081160404, 255, 18446744069414584321)) % 18446744069414584321 == 683923235602147932) by (nonlinear_arith)
        requires
            pow_mod(12275445934081160404, 255, 18446744069414584321) == 17588058450869219263,
    ;
    assert(pow_mod(12275445934081160404, 511, 18446744069414584321) == (12275445934081160404 * pow_mod(12275445934081160404, 510, 18446744069414584321)) % 18446744069414584321);
    assert((12275445934081160404 * pow_mod(12275445934081160404, 510, 18446744069414584321)) % 18446744069414584321 == 13474118253388618134) by (nonlinear_arith)
        requires
            pow_mod(12275445934081160404, 510, 18446744069414584321) == 683923235602147932,
    ;
    assert(pow_mod(12275445934081160404, 1022, 18446744069414584321) == (pow_mod(12275445934081160404, 511, 18446744069414584321) * pow_mod(12275445934081160404, 511, 18446744069414584321)) % 18446744069414584321);
    assert((pow_mod(12275445934081160404, 511, 18446744069414584321) * pow_mod(12275445934081160404, 511, 18446744069414584321)) % 18446744069414584321 == 9597581785288495783) by (nonlinear_arith)
        requires
            pow_mod(12275445934081160404, 511, 18446744069414584321) == 13474118253388618134,
    ;
    assert(pow_mod(12275445934081160404, 1023, 18446744069414584321) == (12275445934081160404 * pow_mod(12275445934081160404, 1022, 18446744069414584321)) % 18446744069414584321);
    assert((12275445934081160404 * pow_mod(12275445934081160404, 1022, 18446744069414584321)) % 18446744069414584321 == 3424231069583294856) by (nonlinear_arith)
        requires
            pow_mod(12275445934081160404, 1022, 18446744069414584321) == 9597581785288495783,
    ;
    assert(pow_mod(12275445934081160404, 2046, 18446744069414584321) == (pow_mod(12275445934081160404, 1023, 18446744069414584321) * pow_mod(12275445934081160404, 1023, 18446744069414584321)) % 18446744069414584321);
    assert((pow_mod(12275445934081160404, 1023, 18446744069414584321) * pow_mod(12275445934081160404, 1023, 18446744069414584321)) % 18446744069414584321 == 4346132479700773704) by (nonlinear_arith)
        requires
            pow_mod(12275445934081160404, 1023, 18446744069414584321) == 3424231069583294856,
    ;
    assert(pow_mod(12275445934081160404, 2047, 18446744069414584321) == (12275445934081160404 * pow_mod(12275445934081160404, 2046, 18446744069414584321)) % 18446744069414584321);
    assert((12275445934081160404 * pow_mod(12275445934081160404, 2046, 18446744069414584321)) % 18446744069414584321 == 3212278696635431411) by (nonlinear_arith)
        requires
            pow_mod(12275445934081160404, 2046, 18446744069414584321) == 4346132479700773704,
    ;
    assert(pow_mod(12275445934081160404, 4094, 18446744069414584321) == (pow_mod(12275445934081160404, 2047, 18446744069414584321) * pow_mod(12275445934081160404, 2047, 18446744069414584321)) % 18446744069414584321);
    assert((pow_mod(12275445934081160404, 2047, 18446744069414584321) * pow_mod(12275445934081160404, 2047, 18446744069414584321)) % 18446744069414584321 == 16719443524623950531) by (nonlinear_arith)
        requires
            pow_mod(12275445934081160404, 2047, 18446744069414584321) == 3212278696635431411,
    ;
    assert(pow_mod(12275445934081160404, 4095, 18446744069414584321) == (12275445934081160404 * pow_mod(12275445934081160404, 4094, 18446744069414584321)) % 18446744069414584321);
    assert((12275445934081160404 * pow_mod(12275445934081160404, 4094, 18446744069414584321)) % 18446744069414584321 == 8674491644268464123) by (nonlinear_arith)
        requires
            pow_mod(12275445934081160404, 4094, 18446744069414584321) == 16719443524623950531,
    ;
    assert(pow_mod(12275445934081160404, 8190, 18446744069414584321) == (pow_mod(12275445934081160404, 4095, 18446744069414584321) * pow_mod(12275445934081160404, 4095, 18446744069414584321)) % 18446744069414584321);
    assert((pow_mod(12275445934081160404, 4095, 18446744069414584321) * pow_mod(12275445934081160404, 4095, 18446744069414584321)) % 18446744069414584321 == 6277783851271942210) by (nonlinear_arith)
        requires
            pow_mod(12275445934081160404, 4095, 18446744069414584321) == 8674491644268464123,
    ;
    assert(pow_mod(12275445934081160404, 8191, 18446744069414584321) == (12275445934081160404 * pow_mod(12275445934081160404, 8190, 18446744069414584321)) % 18446744069414584321);
    assert((12275445934081160404 * pow_mod(12275445934081160404, 8190, 18446744069414584321)) % 18446744069414584321 == 7614671795105477622) by (nonlinear_arith)
        requires
            pow_mod(12275445934081160404, 8190, 18446744069414584321) == 6277783851271942210,
    ;
    assert(pow_mod(12275445934081160404, 16382, 18446744069414584321) == (pow_mod(12275445934081160404, 8191, 18446744069414584321) * pow_mod(12275445934081160404, 8191, 18446744069414584321)) % 18446744069414584321);
    assert((pow_mod(12275445934081160404, 8191, 18446744069414584321) * pow_mod(12275445934081160404, 8191, 18446744069414584321)) % 18446744069414584321 == 8462854283528089452) by (nonlinear_arith)
        requires
            pow_mod(12275445934081160404, 8191, 18446744069414584321) == 7614671795105477622,
    ;
    assert(pow_mod(12275445934081160404, 16383, 18446744069414584321) == (12275445934081160404 * pow_mod(12275445934081160404, 16382, 18446744069414584321)) % 18446744069414584321);
    assert((12275445934081160404 * pow_mod(12275445934081160404, 16382, 18446744069414584321)) % 18446744069414584321 == 565825823434018290) by (nonlinear_arith)
        requires
            pow_mod(12275445934081160404, 16382, 18446744069414584321) == 8462854283528089452,
    ;
    assert(pow_mod(12275445934081160404, 32766, 18446744069414584321) == (pow_mod(12275445934081160404, 16383, 18446744069414584321) * pow_mod(12275445934081160404, 16383, 18446744069414584321)) % 18446744069414584321);
    assert((pow_mod(12275445934081160404, 16383, 18446744069414584321) * pow_mod(12275445934081160404, 16383, 18446744069414584321)) % 18446744069414584321 == 4756329067240810750) by (nonlinear_arith)
        requires
            pow_mod(12275445934081160404, 16383, 18446744069414584321) == 565825823434018290,
    ;
    assert(pow_mod(12275445934081160404, 32767, 18446744069414584321) == (12275445934081160404 * pow_mod(12275445934081160404, 32766, 18446744069414584321)) % 18446744069414584321);
    assert((12275445934081160404 * pow_mod(12275445934081160404, 32766, 18446744069414584321)) % 18446744069414584321 == 1614949354278806530) by (nonlinear_arith)
        requires
            pow_mod(12275445934081160404, 32766, 18446744069414584321) == 4756329067240810750,
    ;
    assert(pow_mod(12275445934081160404, 65534, 18446744069414584321) == (pow_mod(12275445934081160404, 32767, 18446744069414584321) * pow_mod(12275445934081160404, 32767, 18446744069414584321)) % 18446744069414584321);
    assert((pow_mod(12275445934081160404, 32767, 18446744069414584321) * pow_mod(12275445934081160404, 32767, 18446744069414584321)) % 18446744069414584321 == 2104588347148204427) by (nonlinear_arith)
        requires
            pow_mod(12275445934081160404, 32767, 18446744069414584321) == 1614949354278806530,
    ;
    assert(pow_mod(12275445934081160404, 65535, 18446744069414584321) == (12275445934081160404 * pow_mod(12275445934081160404, 65534, 18446744069414584321)) % 18446744069414584321);
    assert((12275445934081160404 * pow_mod(12275445934081160404, 65534, 18446744069414584321)) % 18446744069414584321 == 8478886009461009681) by (nonlinear_arith)
        requires
            pow_mod(12275445934081160404, 65534, 18446744069414584321) == 2104588347148204427,
    ;
}


/// The greatest common divisor, by Euclid's algorithm.
pub open spec fn gcd(a: nat, b: nat) -> nat
    decreases b,
{
    if b == 0 {
        a
    } else {
        gcd(b, a % b)
    }
}

/// `gcd(a, b)` divides both and is positive when `a` or `b` is.
proof fn lemma_gcd_divides(a: nat, b: nat)
    requires
        a > 0 || b > 0,
    ensures
        gcd(a, b) > 0,
        a % gcd(a, b) == 0,
        b % gcd(a, b) == 0,
    decreases b,
{
    if b > 0 {
        let r = a % b;
        lemma_gcd_divides(b, r);
        let g = gcd(b, r);
        lemma_fundamental_div_mod(a as int, b as int);
        lemma_fundamental_div_mod(b as int, g as int);
        lemma_fundamental_div_mod(r as int, g as int);
        let q = a / b;
        let kb = b / g;
        let kr = r / g;
        assert(a == g * (kb * q + kr)) by (nonlinear_arith)
            requires
                a == b * q + r,
                b == g * kb,
                r == g * kr,
        ;
        assert(kb * q + kr >= 0) by (nonlinear_arith)
            requires
                kb >= 0,
                q >= 0,
                kr >= 0,
        ;
        lemma_mod_multiples_basic((kb * q + kr) as int, g as int);
        assert(g * (kb * q + kr) == (kb * q + kr) * g) by (nonlinear_arith);
    } else {
        lemma_mod_self_0(a as int);
        lemma_small_mod(0, a);
    }
}

/// Bézout: `a·x + b·y = gcd(a, b)` for some integers `x, y`.
proof fn lemma_bezout(a: nat, b: nat) -> (r: (int, int))
    ensures
        a * r.0 + b * r.1 == gcd(a, b),
    decreases b,
{
    if b == 0 {
        (1, 0)
    } else {
        let m = a % b;
        let (x, y) = lemma_bezout(b, m);
        lemma_fundamental_div_mod(a as int, b as int);
        let q = a / b;
        assert(a * y + b * (x - q * y) == b * x + m * y) by (nonlinear_arith)
            requires
                a == b * q + m,
        ;
        (y, x - q * y)
    }
}

/// Euclid's lemma: `t` coprime to `q` and dividing `q·x` divides `x`.
proof fn lemma_euclid(t: nat, q: nat, x: nat)
    requires
        t > 0,
        gcd(t, q) == 1,
        (q * x) % t == 0,
    ensures
        x % t == 0,
{
    let (u, v) = lemma_bezout(t, q);
    lemma_fundamental_div_mod((q * x) as int, t as int);
    let k = (q * x) / t;
    assert(x == t * (x * u + k * v)) by (nonlinear_arith)
        requires
            t * u + q * v == 1,
            q * x == t * k,
    ;
    lemma_mod_multiples_basic(x * u + k * v, t as int);
    assert(t * (x * u + k * v) == (x * u + k * v) * t) by (nonlinear_arith);
}

/// A divisor of `q` that is neither `1` nor `q` shows `q` composite.
proof fn lemma_coprime_to_prime(t: nat, q: nat)
    requires
        t > 0,
        q >= 2,
        t % q != 0,
        forall|d: nat| 2 <= d < q ==> #[trigger] (q % d) != 0,
    ensures
        gcd(t, q) == 1,
{
    lemma_gcd_divides(t, q);
    let g = gcd(t, q);
    lemma_fundamental_div_mod(q as int, g as int);
    assert(g <= q) by (nonlinear_arith)
        requires
            q == g * (q / g),
            g > 0,
            q > 0,
    ;
    if g == q {
        assert(false);
    } else if g >= 2 {
        assert(q % g != 0);
        assert(false);
    }
}

/// Dividing `2^k·x` and odd, `t` divides `x`.
proof fn lemma_peel_twos(t: nat, k: nat, x: nat)
    requires
        t > 0,
        t % 2 != 0,
        (crate::merkle::two_pow(k) * x) % t == 0,
    ensures
        x % t == 0,
    decreases k,
{
    if k > 0 {
        let y = crate::merkle::two_pow((k - 1) as nat) * x;
        assert(crate::merkle::two_pow(k) * x == 2 * y) by (nonlinear_arith)
            requires
                crate::merkle::two_pow(k) == 2 * crate::merkle::two_pow((k - 1) as nat),
                y == crate::merkle::two_pow((k - 1) as nat) * x,
        ;
        assert forall|d: nat| 2 <= d < 2 implies #[trigger] (2nat % d) != 0 by {}
        lemma_coprime_to_prime(t, 2);
        assert((2 * y) % t == 0);
        lemma_euclid(t, 2, y);
        assert(y % t == 0);
        lemma_peel_twos(t, (k - 1) as nat, x);
    } else {
        assert(crate::merkle::two_pow(0) == 1);
        assert(crate::merkle::two_pow(k) * x == x) by (nonlinear_arith)
            requires
                crate::merkle::two_pow(k) == 1,
        ;
    }
}

/// `65537` has no divisor strictly between `1` and itself.
proof fn lemma_f4_prime_bits()
    by (bit_vector)
    ensures
        forall|d: u32| 2 <= d && d < 65537 ==> #[trigger] (65537u32 % d) != 0,
{
}

/// `257` has no divisor strictly between `1` and itself.
proof fn lemma_f3_prime_bits()
    by (bit_vector)
    ensures
        forall|d: u32| 2 <= d && d < 257 ==> #[trigger] (257u32 % d) != 0,
{
}

/// The odd primes of `p - 1 = 2^32·3·5·17·257·65537` have no divisor but
/// `1` and themselves.
proof fn lemma_small_primes()
    ensures
        forall|d: nat| 2 <= d < 3 ==> #[trigger] (3nat % d) != 0,
        forall|d: nat| 2 <= d < 5 ==> #[trigger] (5nat % d) != 0,
        forall|d: nat| 2 <= d < 17 ==> #[trigger] (17nat % d) != 0,
        forall|d: nat| 2 <= d < 257 ==> #[trigger] (257nat % d) != 0,
        forall|d: nat| 2 <= d < 65537 ==> #[trigger] (65537nat % d) != 0,
{
    lemma_f4_prime_bits();
    lemma_f3_prime_bits();
    assert forall|d: nat| 2 <= d < 65537 implies #[trigger] (65537nat % d) != 0 by {
        assert((65537u32 % (d as u32)) != 0);
    }
    assert forall|d: nat| 2 <= d < 257 implies #[trigger] (257nat % d) != 0 by {
        assert((257u32 % (d as u32)) != 0);
    }
    assert forall|d: nat| 2 <= d < 17 implies #[trigger] (17nat % d) != 0 by {
        assert(2 <= d <= 16);
        if d == 2 {} else if d == 3 {} else if d == 4 {} else if d == 5 {} else if d == 6 {} else if d == 7 {}
        else if d == 8 {} else if d == 9 {} else if d == 10 {} else if d == 11 {} else if d == 12 {}
        else if d == 13 {} else if d == 14 {} else if d == 15 {} else {}
    }
    assert forall|d: nat| 2 <= d < 5 implies #[trigger] (5nat % d) != 0 by {
        if d == 2 {} else if d == 3 {} else {}
    }
}


/// A divisor `t >= 2` of `p - 1 = 2^32·3·5·17·257·65537` is divisible by
/// one of those primes.
proof fn lemma_divisor_has_prime_factor(t: nat)
    requires
        t >= 2,
        ((p() - 1) as nat) % t == 0,
    ensures
        t % 2 == 0 || t % 3 == 0 || t % 5 == 0 || t % 17 == 0 || t % 257 == 0 || t % 65537 == 0,
{
    if !(t % 2 == 0 || t % 3 == 0 || t % 5 == 0 || t % 17 == 0 || t % 257 == 0 || t % 65537 == 0) {
        lemma_small_primes();
        assert(crate::merkle::two_pow(32) == 0x1_0000_0000) by {
            reveal_with_fuel(crate::merkle::two_pow, 33);
        }
        assert((crate::merkle::two_pow(32) * 4294967295nat) == (p() - 1) as nat);
        lemma_peel_twos(t, 32, 4294967295);
        lemma_coprime_to_prime(t, 3);
        assert(3nat * 1431655765nat == 4294967295nat);
        lemma_euclid(t, 3, 1431655765);
        lemma_coprime_to_prime(t, 5);
        assert(5nat * 286331153nat == 1431655765nat);
        lemma_euclid(t, 5, 286331153);
        lemma_coprime_to_prime(t, 17);
        assert(17nat * 16843009nat == 286331153nat);
        lemma_euclid(t, 17, 16843009);
        lemma_coprime_to_prime(t, 257);
        assert(257nat * 65537nat == 16843009nat);
        lemma_euclid(t, 257, 65537);
        lemma_coprime_to_prime(t, 65537);
        assert(65537nat * 1nat == 65537nat);
        lemma_euclid(t, 65537, 1);
        lemma_small_mod(1, t);
    }
}

/// `x^a = 1` and `x^b = 1` give `x^gcd(a, b) = 1`.
proof fn lemma_pow_gcd(x: Goldilocks, a: nat, b: nat)
    requires
        x.wf(),
        crate::fft::fpow(x, a) == Goldilocks::spec_one(),
        crate::fft::fpow(x, b) == Goldilocks::spec_one(),
    ensures
        crate::fft::fpow(x, gcd(a, b)) == Goldilocks::spec_one(),
    decreases b,
{
    if b > 0 {
        let q = a / b;
        let r = a % b;
        lemma_fundamental_div_mod(a as int, b as int);
        assert(a == b * q + r);
        crate::fft::lemma_fpow_add(x, b * q, r);
        crate::fft::lemma_fpow_mul(x, b, q);
        crate::fft::lemma_fpow_of_one::<Goldilocks>(q);
        crate::fft::lemma_fpow_wf(x, r);
        crate::field::lemma_basics(crate::fft::fpow(x, r), Goldilocks::spec_one());
        crate::field::lemma_mul_comm(Goldilocks::spec_one(), crate::fft::fpow(x, r));
        lemma_pow_gcd(x, b, r);
    }
}

/// `7^((p-1)/q) ≠ 1` for a power `s^e` computed by `pow_mod`.
proof fn lemma_shift_power_not_one(e: nat, res: nat)
    requires
        pow_mod(12275445934081160404, e, p()) == res,
        res != 1,
        res < p(),
    ensures
        crate::fft::fpow(from_nat(7), crate::merkle::two_pow(32) * e) != Goldilocks::spec_one(),
{
    let s: nat = 12275445934081160404;
    Goldilocks::lemma_from_nat(7);
    lemma_fpow_two_pow(from_nat(7), 32);
    lemma_seven_squares();
    crate::fft::lemma_fpow_mul(from_nat(7), crate::merkle::two_pow(32), e);
    lemma_fpow_from_nat(s, e);
    lemma_pow_mod(s, e, p());
    lemma_pow_nonneg(s as int, e);
    Goldilocks::lemma_from_nat(pow(s as int, e) as nat);
    Goldilocks::lemma_from_nat(1);
}

proof fn lemma_two_pow_32()
    ensures
        crate::merkle::two_pow(32) == 0x1_0000_0000,
{
    reveal_with_fuel(crate::merkle::two_pow, 33);
}

proof fn lemma_cofactor_3()
    ensures
        crate::fft::fpow(from_nat(7), 6148914689804861440) != Goldilocks::spec_one(),
{
    lemma_two_pow_32();
    lemma_shift_power_3();
    lemma_shift_power_not_one(1431655765, 18446744065119617025);
    assert(crate::merkle::two_pow(32) * 1431655765 == 6148914689804861440nat);
}

proof fn lemma_cofactor_5()
    ensures
        crate::fft::fpow(from_nat(7), 3689348813882916864) != Goldilocks::spec_one(),
{
    lemma_two_pow_32();
    lemma_shift_power_5();
    lemma_shift_power_not_one(858993459, 1373043270956696022);
    assert(crate::merkle::two_pow(32) * 858993459 == 3689348813882916864nat);
}

proof fn lemma_cofactor_17()
    ensures
        crate::fft::fpow(from_nat(7), 1085102592318504960) != Goldilocks::spec_one(),
{
    lemma_two_pow_32();
    lemma_shift_power_17();
    lemma_shift_power_not_one(252645135, 16301593560560007290);
    assert(crate::merkle::two_pow(32) * 252645135 == 1085102592318504960nat);
}

#[verifier::spinoff_prover]
#[verifier::rlimit(40)]
proof fn lemma_cofactor_257()
    ensures
        crate::fft::fpow(from_nat(7), 71777214277877760) != Goldilocks::spec_one(),
{
    lemma_two_pow_32();
    lemma_shift_power_257();
    lemma_shift_power_not_one(16711935, 995085315851368103);
    assert(crate::merkle::two_pow(32) * 16711935 == 71777214277877760nat);
}

proof fn lemma_cofactor_65537()
    ensures
        crate::fft::fpow(from_nat(7), 281470681743360) != Goldilocks::spec_one(),
{
    lemma_two_pow_32();
    lemma_shift_power_65537();
    lemma_shift_power_not_one(65535, 8478886009461009681);
    assert(crate::merkle::two_pow(32) * 65535 == 281470681743360nat);
}

/// `7^((p-1)/2) = g^(2^31) = -1` for the full generator `g = 7^(2^32-1)`.
proof fn lemma_cofactor_2()
    ensures
        crate::fft::fpow(from_nat(7), 9223372034707292160) != Goldilocks::spec_one(),
{
    let g = full_two_adic_generator();
    lemma_generator_primitive_goldilocks(32);
    assert(Goldilocks::spec_two_adic_generator(32) == g);
    assert(crate::merkle::two_pow(31) == 0x8000_0000) by {
        reveal_with_fuel(crate::merkle::two_pow, 32);
    }
    lemma_fpow_from_nat(7, 0xFFFF_FFFF);
    crate::fft::lemma_fpow_mul(from_nat(7), 0xFFFF_FFFF, crate::merkle::two_pow(31));
    assert(0xFFFF_FFFFnat * 0x8000_0000nat == 9223372034707292160nat);
    Goldilocks::lemma_from_nat(1);
    Goldilocks::lemma_from_nat((p() - 1) as nat);
    assert(Goldilocks::spec_one().spec_neg() == from_nat((p() - 1) as nat));
}

/// With `7^d = 1` and `p - 1 = d·t`, every prime `q` of `t` has
/// `7^((p-1)/q) = 1`.
proof fn lemma_cofactor_from_order(d: nat, t: nat, q: nat)
    requires
        crate::fft::fpow(from_nat(7), d) == Goldilocks::spec_one(),
        (p() - 1) as nat == d * t,
        q >= 2,
        t % q == 0,
    ensures
        crate::fft::fpow(from_nat(7), ((p() - 1) as nat) / q) == Goldilocks::spec_one(),
{
    let big_n = (p() - 1) as nat;
    lemma_fundamental_div_mod(t as int, q as int);
    let u = t / q;
    assert(big_n == q * (d * u)) by (nonlinear_arith)
        requires
            big_n == d * t,
            t == q * u,
    ;
    lemma_div_multiples_vanish((d * u) as int, q as int);
    crate::fft::lemma_fpow_mul(from_nat(7), d, u);
    crate::fft::lemma_fpow_of_one::<Goldilocks>(u);
}

/// `7` has order exactly `p - 1`: no smaller positive power is `1`.
#[verifier::spinoff_prover]
#[verifier::rlimit(40)]
proof fn lemma_seven_primitive(k: nat)
    requires
        0 < k < (p() - 1) as nat,
    ensures
        crate::fft::fpow(from_nat(7), k) != Goldilocks::spec_one(),
{
    let seven = from_nat(7);
    let big_n = (p() - 1) as nat;
    if crate::fft::fpow(seven, k) == Goldilocks::spec_one() {
        Goldilocks::lemma_from_nat(7);
        lemma_seven_order();
        lemma_pow_gcd(seven, k, big_n);
        let d = gcd(k, big_n);
        lemma_gcd_divides(k, big_n);
        lemma_fundamental_div_mod(k as int, d as int);
        lemma_fundamental_div_mod(big_n as int, d as int);
        assert(d <= k) by (nonlinear_arith)
            requires
                k == d * (k / d),
                d > 0,
                k > 0,
        ;
        let t = big_n / d;
        assert(big_n == d * t);
        assert(t >= 2) by (nonlinear_arith)
            requires
                big_n == d * t,
                d < big_n,
                d > 0,
        ;
        lemma_mod_multiples_basic(d as int, t as int);
        assert(d * t == t * d) by (nonlinear_arith);
        lemma_divisor_has_prime_factor(t);
        if t % 2 == 0 {
            lemma_cofactor_from_order(d, t, 2);
            lemma_cofactor_2();
        } else if t % 3 == 0 {
            lemma_cofactor_from_order(d, t, 3);
            lemma_cofactor_3();
        } else if t % 5 == 0 {
            lemma_cofactor_from_order(d, t, 5);
            lemma_cofactor_5();
        } else if t % 17 == 0 {
            lemma_cofactor_from_order(d, t, 17);
            lemma_cofactor_17();
        } else if t % 257 == 0 {
            lemma_cofactor_from_order(d, t, 257);
            lemma_cofactor_257();
        } else {
            lemma_cofactor_from_order(d, t, 65537);
            lemma_cofactor_65537();
        }
    }
}


/// Distinct exponents below `p - 1` give distinct powers of `7`.
proof fn lemma_seven_powers_distinct(i: nat, j: nat)
    requires
        i < j < (p() - 1) as nat,
    ensures
        crate::fft::fpow(from_nat(7), i) != crate::fft::fpow(from_nat(7), j),
{
    let seven = from_nat(7);
    let one = Goldilocks::spec_one();
    let big_n = (p() - 1) as nat;
    if crate::fft::fpow(seven, i) == crate::fft::fpow(seven, j) {
        Goldilocks::lemma_from_nat(7);
        lemma_seven_order();
        // 1 = 7^(N-i)·7^i = 7^(N-i)·7^j = 7^(N + (j-i)) = 7^(j-i)
        crate::fft::lemma_fpow_add(seven, (big_n - i) as nat, i);
        crate::fft::lemma_fpow_add(seven, (big_n - i) as nat, j);
        assert((big_n - i) as nat + j == big_n + (j - i) as nat);
        crate::fft::lemma_fpow_add(seven, big_n, (j - i) as nat);
        crate::fft::lemma_fpow_wf(seven, (j - i) as nat);
        crate::field::lemma_basics(crate::fft::fpow(seven, (j - i) as nat), one);
        crate::field::lemma_mul_comm(one, crate::fft::fpow(seven, (j - i) as nat));
        lemma_seven_primitive((j - i) as nat);
    }
}

/// No power of `7` is zero.
proof fn lemma_seven_power_nonzero(k: nat)
    requires
        k <= (p() - 1) as nat,
    ensures
        crate::fft::fpow(from_nat(7), k) != Goldilocks::spec_zero(),
{
    let seven = from_nat(7);
    let big_n = (p() - 1) as nat;
    if crate::fft::fpow(seven, k) == Goldilocks::spec_zero() {
        Goldilocks::lemma_from_nat(7);
        lemma_seven_order();
        crate::fft::lemma_fpow_add(seven, k, (big_n - k) as nat);
        crate::field::lemma_basics(crate::fft::fpow(seven, (big_n - k) as nat), crate::fft::fpow(seven, (big_n - k) as nat));
        crate::field::lemma_mul_comm(Goldilocks::spec_zero(), crate::fft::fpow(seven, (big_n - k) as nat));
        crate::field::lemma_basics(Goldilocks::spec_one(), Goldilocks::spec_one());
    }
}

/// `7` generates the multiplicative group: every nonzero element is a power
/// of `7` below `p - 1`, since those `p - 1` powers are distinct and nonzero.
proof fn lemma_power_of_seven(a: Goldilocks)
    requires
        a.wf(),
        a != Goldilocks::spec_zero(),
    ensures
        exists|k: nat| k < (p() - 1) as nat && #[trigger] crate::fft::fpow(from_nat(7), k) == a,
{
    let seven = from_nat(7);
    let big_n = (p() - 1) as nat;
    let f = |k: int| crate::fft::fpow(seven, k as nat).value() as int;
    let dom = vstd::set_lib::set_int_range(0, big_n as int);
    let target = vstd::set_lib::set_int_range(1, p() as int);
    let image = dom.map(f);
    Goldilocks::lemma_from_nat(7);
    assert(vstd::relations::injective_on(f, dom)) by {
        assert forall|i: int, j: int| dom.contains(i) && dom.contains(j) && #[trigger] f(i) == #[trigger] f(j) implies i == j by {
            crate::fft::lemma_fpow_wf(seven, i as nat);
            crate::fft::lemma_fpow_wf(seven, j as nat);
            Goldilocks::lemma_value_injective(crate::fft::fpow(seven, i as nat), crate::fft::fpow(seven, j as nat));
            if i < j {
                lemma_seven_powers_distinct(i as nat, j as nat);
            } else if j < i {
                lemma_seven_powers_distinct(j as nat, i as nat);
            }
        }
    }
    vstd::set_lib::lemma_int_range(0, big_n as int);
    vstd::set_lib::lemma_int_range(1, p() as int);
    vstd::set_lib::lemma_map_size(dom, image, f);
    assert(image.subset_of(target)) by {
        assert forall|v: int| image.contains(v) implies target.contains(v) by {
            let k = choose|k: int| dom.contains(k) && f(k) == v;
            let x = crate::fft::fpow(seven, k as nat);
            crate::fft::lemma_fpow_wf(seven, k as nat);
            lemma_seven_power_nonzero(k as nat);
            Goldilocks::lemma_from_nat(0);
            Goldilocks::lemma_value_injective(x, from_nat(0));
            lemma_mod_bound(x.value() as int, p() as int);
        }
    }
    vstd::set_lib::lemma_subset_equality(image, target);
    Goldilocks::lemma_from_nat(0);
    Goldilocks::lemma_value_injective(a, from_nat(0));
    assert(target.contains(a.value() as int));
    assert(image.contains(a.value() as int));
    let k = choose|k: int| dom.contains(k) && f(k) == a.value() as int;
    crate::fft::lemma_fpow_wf(seven, k as nat);
    Goldilocks::lemma_value_injective(crate::fft::fpow(seven, k as nat), a);
    assert(crate::fft::fpow(from_nat(7), k as nat) == a);
}

/// Over Goldilocks every nonzero element's inverse is exact: `a·a⁻¹ = 1`.
/// (Fermat: `a = 7^k`, so `a^(p-1) = (7^(p-1))^k = 1`.)
pub proof fn law_goldilocks_inverse_exact(a: Goldilocks)
    requires
        a.wf(),
        a != Goldilocks::spec_zero(),
    ensures
        crate::fold::inverse_exact(a),
        a.spec_mul(a.spec_inverse()->0) == Goldilocks::spec_one(),
{
    let seven = from_nat(7);
    let big_n = (p() - 1) as nat;
    lemma_power_of_seven(a);
    let k = choose|k: nat| k < big_n && #[trigger] crate::fft::fpow(from_nat(7), k) == a;
    Goldilocks::lemma_from_nat(7);
    lemma_seven_order();
    crate::fft::lemma_fpow_mul(seven, k, big_n);
    crate::fft::lemma_fpow_mul(seven, big_n, k);
    assert(k * big_n == big_n * k) by (nonlinear_arith);
    crate::fft::lemma_fpow_of_one::<Goldilocks>(k);
    lemma_inverse_exact_of_order(a);
}


/// Over Goldilocks every inverse is exact.
pub proof fn law_goldilocks_field_inverses_exact()
    ensures
        crate::fold::field_inverses_exact::<Goldilocks>(),
{
    assert forall|x: Goldilocks| x.wf() && x != Goldilocks::spec_zero() implies #[trigger] crate::fold::inverse_exact(x) by {
        law_goldilocks_inverse_exact(x);
    }
}


/// Over Goldilocks an `inv` hint the prover does not override solves to a
/// value that multiplies its argument to one.
pub proof fn law_goldilocks_inverse_hint_multiplies_to_one(
    ir: &crate::ir::Ir,
    inputs: Seq<(String, Goldilocks)>,
    overrides: Seq<(String, Goldilocks)>,
    k: int,
)
    requires
        crate::witness::well_formed(ir),
        crate::witness::entries_wf(inputs),
        crate::witness::entries_wf(overrides),
        0 <= k < ir.nodes@.len(),
        ir.nodes@[k].op is Hint,
        ir.nodes@[k].op->hint == crate::ir::HintKind::Inv,
        crate::witness::lookup(overrides, ir.nodes@[k].op->name@) is None,
        crate::witness::solved(ir, inputs, overrides) is Some,
    ensures
        ({
            let values = crate::witness::solved(ir, inputs, overrides)->0;
            values[ir.nodes@[k].wire as int].spec_mul(values[ir.nodes@[k].op.spec_args()[0] as int]) == Goldilocks::spec_one()
        }),
{
    law_goldilocks_field_inverses_exact();
    crate::witness::law_inverse_hint_is_inverse(ir, inputs, overrides, k);
}



/// Horner's method over decimal digits computes the element of their value.
#[verifier::spinoff_prover]
pub(crate) proof fn lemma_horner_digits(digits: Seq<u8>)
    requires
        forall|i: int| 0 <= i < digits.len() ==> is_digit_byte(#[trigger] digits[i]),
    ensures
        crate::field::horner_decimal::<Goldilocks>(digits) == from_nat(digits_nat(digits)),
    decreases digits.len(),
{
    Goldilocks::lemma_from_nat(0);
    if digits.len() > 0 {
        let init = digits.drop_last();
        assert forall|i: int| 0 <= i < init.len() implies is_digit_byte(#[trigger] init[i]) by {
            assert(init[i] == digits[i]);
        }
        lemma_horner_digits(init);
        let m = digits_nat(init);
        let c = (digits.last() - 48) as nat;
        assert(is_digit_byte(digits[digits.len() - 1]));
        assert(c < 10);
        assert(((digits.last() - 48) as u64) as nat == c);
        Goldilocks::lemma_from_nat(m);
        Goldilocks::lemma_from_nat(10);
        Goldilocks::lemma_from_nat(c);
        Goldilocks::lemma_from_nat((m % p()) * 10);
        lemma_small_mod(10, p());
        lemma_small_mod(c, p());
        let a = ((m % p()) * 10) % p();
        Goldilocks::lemma_from_nat(a + c);
        lemma_mul_mod_noop_left(m as int, 10, p() as int);
        lemma_add_mod_noop((m * 10) as int, c as int, p() as int);
        lemma_mod_twice((m * 10) as int, p() as int);
        lemma_add_mod_noop(a as int, c as int, p() as int);
        lemma_mod_twice(a as int, p() as int);
        assert((a + c) % p() == (m * 10 + c) % p());
    }
}




} // verus!
