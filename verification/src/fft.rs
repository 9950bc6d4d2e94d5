//! Number-theoretic transform and low-degree extension.
//!
//! FRI is built on the FFT, and the FFT over a finite field is the
//! number-theoretic transform: the same Cooley–Tukey butterflies, with a
//! primitive `2^k`-th root of unity in place of `e^{2πi/n}`.
//!
//!   * [`ntt`] / [`intt`] — evaluate a polynomial (given by coefficients) on
//!     the size-`n` multiplicative subgroup, and invert;
//!   * [`coset_lde`] — interpolate `n` values, then evaluate the same
//!     polynomial on a larger coset.
//!
//! Everything is generic over [`TwoAdicField`]; nothing here names Goldilocks.
use vstd::prelude::*;

use vstd::arithmetic::div_mod::lemma_fundamental_div_mod_converse;

use crate::field::{
    lemma_add_assoc, lemma_add_comm, lemma_basics, lemma_distrib, lemma_mul_assoc, lemma_mul_comm,
    lemma_neg_is_times_minus_one, TwoAdicField, ZkField,
};
use crate::merkle::two_pow;

verus! {

/// `base^exponent` in the field.
pub open spec fn fpow<F: ZkField>(base: F, exponent: nat) -> F
    decreases exponent,
{
    if exponent == 0 {
        F::spec_one()
    } else {
        fpow(base, (exponent - 1) as nat).spec_mul(base)
    }
}

/// A power is canonical.
pub proof fn lemma_fpow_wf<F: ZkField>(base: F, e: nat)
    ensures
        fpow(base, e).wf(),
    decreases e,
{
    lemma_basics(base, base);
    if e > 0 {
        lemma_fpow_wf(base, (e - 1) as nat);
        lemma_basics(fpow(base, (e - 1) as nat), base);
    }
}

/// `b^(m+n) = b^m · b^n`.
pub proof fn lemma_fpow_add<F: ZkField>(b: F, m: nat, n: nat)
    ensures
        fpow(b, m + n) == fpow(b, m).spec_mul(fpow(b, n)),
    decreases n,
{
    if n == 0 {
        lemma_fpow_wf(b, m);
        lemma_basics(fpow(b, m), b);
    } else {
        lemma_fpow_add(b, m, (n - 1) as nat);
        assert(fpow(b, m + n) == fpow(b, (m + n - 1) as nat).spec_mul(b));
        lemma_mul_assoc(fpow(b, m), fpow(b, (n - 1) as nat), b);
    }
}

/// `b^(m·n) = (b^m)^n`.
pub proof fn lemma_fpow_mul<F: ZkField>(b: F, m: nat, n: nat)
    ensures
        fpow(b, m * n) == fpow(fpow(b, m), n),
    decreases n,
{
    if n > 0 {
        lemma_fpow_mul(b, m, (n - 1) as nat);
        assert(m * n == m * (n - 1) + m) by (nonlinear_arith)
            requires
                n > 0,
        ;
        lemma_fpow_add(b, m * ((n - 1) as nat), m);
    } else {
        assert(m * n == 0) by (nonlinear_arith)
            requires
                n == 0,
        ;
    }
}

/// `1^k = 1`.
pub(crate) proof fn lemma_fpow_of_one<F: ZkField>(k: nat)
    ensures
        fpow(F::spec_one(), k) == F::spec_one(),
    decreases k,
{
    lemma_basics(F::spec_one(), F::spec_one());
    if k > 0 {
        lemma_fpow_of_one::<F>((k - 1) as nat);
    }
}

/// Powers are multiplicative: `(a·b)^n = a^n · b^n`.
pub(crate) proof fn lemma_fpow_mul_base<F: ZkField>(a: F, b: F, n: nat)
    ensures
        fpow(a.spec_mul(b), n) == fpow(a, n).spec_mul(fpow(b, n)),
    decreases n,
{
    let one = F::spec_one();
    lemma_basics(one, one);
    if n > 0 {
        let k = (n - 1) as nat;
        lemma_fpow_mul_base(a, b, k);
        let (x, y) = (fpow(a, k), fpow(b, k));
        // (x·y)·(a·b) = (x·a)·(y·b)
        lemma_mul_assoc(x, y, a.spec_mul(b));
        lemma_mul_assoc(y, a, b);
        lemma_mul_comm(y, a);
        lemma_mul_assoc(a, y, b);
        lemma_mul_assoc(x, a, y.spec_mul(b));
    }
}

/// If `g^h = -1`, then every power `x = g^q` with `q + 1` even has
/// `x^h = -1` as well: `x^h · g^h = g^(h(q+1)) = (g^h)^(q+1) = 1`, so
/// `x^h = (-1)⁻¹ = -1`.
pub proof fn lemma_power_keeps_primitive<F: ZkField>(g: F, h: nat, q: nat)
    requires
        fpow(g, h) == F::spec_one().spec_neg(),
        (q + 1) % 2 == 0,
    ensures
        fpow(fpow(g, q), h) == F::spec_one().spec_neg(),
{
    let one = F::spec_one();
    let m = one.spec_neg();
    let k = ((q + 1) / 2) as nat;
    lemma_fpow_mul(g, q, h);
    let x = fpow(g, q * h);
    lemma_fpow_add(g, q * h, h);
    assert(q * h + h == h * (2 * k)) by (nonlinear_arith)
        requires
            (q + 1) % 2 == 0,
            k == (q + 1) / 2,
    ;
    lemma_fpow_mul(g, h, 2 * k);
    lemma_fpow_mul(m, 2, k);
    // (-1)^2 = 1
    assert(fpow(m, 2) == one) by {
        reveal_with_fuel(fpow, 3);
        lemma_basics(one, one);
        lemma_basics(m, m);
        lemma_mul_comm(one, m);
        lemma_neg_mul(one, m);
        lemma_neg_neg(one);
    }
    lemma_fpow_of_one::<F>(k);
    // x·(-1) = 1, so x = x·((-1)(-1)) = (x·(-1))·(-1) = -1
    assert(x.spec_mul(m) == one);
    lemma_fpow_wf(g, q * h);
    lemma_basics(x, one);
    lemma_basics(m, m);
    lemma_basics(one, one);
    lemma_mul_comm(one, m);
    lemma_neg_mul(one, m);
    lemma_neg_neg(one);
    assert(m.spec_mul(m) == one);
    lemma_mul_assoc(x, m, m);
}

/// `(b·b)^k = b^(2k)`.
pub(crate) proof fn lemma_fpow_square<F: ZkField>(b: F, k: nat)
    requires
        b.wf(),
    ensures
        fpow(b.spec_mul(b), k) == fpow(b, 2 * k),
{
    assert(fpow(b, 2) == b.spec_mul(b)) by {
        reveal_with_fuel(fpow, 3);
        lemma_basics(b, b);
        lemma_mul_comm(F::spec_one(), b);
        lemma_basics(F::spec_one(), b);
        lemma_fpow_wf(b, 0);
    }
    lemma_fpow_mul(b, 2, k);
}

/// `base^exponent`, by square-and-multiply.
pub(crate) fn pow<F: ZkField>(base: F, exponent: u64) -> (r: F)
    requires
        base.wf(),
    ensures
        r == fpow(base, exponent as nat),
{
    let mut acc = F::one();
    let mut b = base;
    let mut e = exponent;
    proof {
        lemma_fpow_wf(base, exponent as nat);
        lemma_basics(fpow(base, exponent as nat), F::spec_one());
        lemma_mul_comm(F::spec_one(), fpow(base, exponent as nat));
    }
    while e > 0
        invariant
            acc.wf(),
            b.wf(),
            acc.spec_mul(fpow(b, e as nat)) == fpow(base, exponent as nat),
        decreases e,
    {
        let ghost (acc0, b0, e0) = (acc, b, e);
        proof {
            assert((e & 1 == 1) == (e % 2 == 1)) by (bit_vector);
            assert(e >> 1 == e / 2) by (bit_vector);
            lemma_fpow_square(b0, (e0 / 2) as nat);
            lemma_basics(b0, b0);
        }
        if e & 1 == 1 {
            acc = acc.mul(b);
            proof {
                // b^e = (b·b)^(e/2) · b
                assert(e0 as nat == 2 * (e0 / 2) as nat + 1);
                lemma_fpow_add(b0, 2 * (e0 / 2) as nat, 1);
                reveal_with_fuel(fpow, 2);
                lemma_basics(b0, b0);
                lemma_mul_comm(F::spec_one(), b0);
                lemma_basics(F::spec_one(), b0);
                let q = fpow(b0.spec_mul(b0), (e0 / 2) as nat);
                lemma_mul_comm(q, b0);
                lemma_mul_assoc(acc0, b0, q);
                lemma_basics(acc0, b0);
            }
        } else {
            proof {
                assert(e0 as nat == 2 * (e0 / 2) as nat);
            }
        }
        b = b.mul(b);
        e = e >> 1;
    }
    proof {
        assert(fpow(b, 0) == F::spec_one());
        lemma_basics(acc, acc);
    }
    acc
}

/// The polynomial with coefficients `c` (constant term first) at `x`, in
/// Horner form.
pub open spec fn poly_eval<F: ZkField>(c: Seq<F>, x: F) -> F
    decreases c.len(),
{
    if c.len() == 0 {
        F::spec_zero()
    } else {
        c[0].spec_add(x.spec_mul(poly_eval(c.drop_first(), x)))
    }
}

/// Evaluate a coefficient polynomial at a single point, by Horner.
pub fn evaluate<F: ZkField>(coefficients: &[F], point: F) -> (r: F)
    ensures
        r == poly_eval(coefficients@, point),
{
    let n = coefficients.len();
    let mut acc = F::zero();
    let mut i: usize = n;
    assert(coefficients@.subrange(n as int, n as int) =~= Seq::<F>::empty());
    while i > 0
        invariant
            i <= n,
            n == coefficients@.len(),
            acc == poly_eval(coefficients@.subrange(i as int, n as int), point),
        decreases i,
    {
        let ghost tail = coefficients@.subrange(i as int, n as int);
        let ghost next = coefficients@.subrange(i as int - 1, n as int);
        assert(next.drop_first() =~= tail);
        proof {
            lemma_mul_comm(acc, point);
            lemma_add_comm(acc.spec_mul(point), coefficients@[i as int - 1]);
        }
        acc = acc.mul(point).add(coefficients[i - 1]);
        i = i - 1;
    }
    assert(coefficients@.subrange(0, n as int) =~= coefficients@);
    acc
}

/// The lowest `bits` bits of `i`, in reverse order.
pub open spec fn rev_bits(i: nat, bits: nat) -> nat
    decreases bits,
{
    if bits == 0 {
        0
    } else {
        (i % 2) * two_pow((bits - 1) as nat) + rev_bits(i / 2, (bits - 1) as nat)
    }
}

pub proof fn lemma_two_pow_pos(k: nat)
    ensures
        two_pow(k) >= 1,
    decreases k,
{
    if k > 0 {
        lemma_two_pow_pos((k - 1) as nat);
    }
}

pub proof fn lemma_two_pow_add(a: nat, b: nat)
    ensures
        two_pow(a + b) == two_pow(a) * two_pow(b),
    decreases b,
{
    if b > 0 {
        let b1 = (b - 1) as nat;
        lemma_two_pow_add(a, b1);
        let x = two_pow(a);
        let y = two_pow(b1);
        assert(a + b == (a + b1) + 1);
        assert(two_pow(a + b) == 2 * two_pow(a + b1));
        assert(two_pow(b) == 2 * y);
        assert(x * (2 * y) == 2 * (x * y)) by (nonlinear_arith);
    } else {
        assert(two_pow(0) == 1);
        assert(two_pow(a) * 1 == two_pow(a));
        assert(a + b == a);
    }
}

proof fn lemma_rev_bound(i: nat, bits: nat)
    ensures
        rev_bits(i, bits) < two_pow(bits),
    decreases bits,
{
    if bits > 0 {
        let b1 = (bits - 1) as nat;
        lemma_rev_bound(i / 2, b1);
        lemma_two_pow_pos(b1);
        let x = two_pow(b1);
        let bit = i % 2;
        assert(bit * x <= x) by (nonlinear_arith)
            requires
                bit <= 1,
        ;
    }
}

/// Accumulating from the top: `rev(i, k+1) = 2·rev(i, k) + bit k of i`.
proof fn lemma_rev_step(i: nat, k: nat)
    ensures
        rev_bits(i, k + 1) == 2 * rev_bits(i, k) + (i / two_pow(k)) % 2,
    decreases k,
{
    if k == 0 {
        assert(two_pow(0) == 1);
        assert(rev_bits(i, 0) == 0);
        assert(rev_bits(i, 1) == (i % 2) * two_pow(0) + rev_bits(i / 2, 0));
        assert((i % 2) * 1 == i % 2);
        assert(i / 1 == i);
    } else {
        let k1 = (k - 1) as nat;
        lemma_rev_step(i / 2, k1);
        lemma_two_pow_pos(k1);
        let x = two_pow(k1);
        let bit = i % 2;
        // (i / 2) / 2^(k-1) = i / 2^k
        vstd::arithmetic::div_mod::lemma_div_denominator(i as int, 2, x as int);
        assert(two_pow(k) == 2 * x);
        assert(bit * (2 * x) == 2 * (bit * x)) by (nonlinear_arith);
        assert(rev_bits(i, k + 1) == bit * two_pow(k) + rev_bits(i / 2, k));
        assert(rev_bits(i, k) == bit * x + rev_bits(i / 2, k1));
        assert(k1 + 1 == k);
    }
}

/// Reverse the lowest `bits` bits of `i`.
fn reverse_index(i: usize, bits: u32) -> (r: usize)
    requires
        two_pow(bits as nat) <= usize::MAX,
    ensures
        r == rev_bits(i as nat, bits as nat),
{
    let mut r: usize = 0;
    let mut x: usize = i;
    let mut k: u32 = 0;
    assert(two_pow(0) == 1);
    assert(i as nat / 1 == i as nat);
    while k < bits
        invariant
            k <= bits,
            two_pow(bits as nat) <= usize::MAX,
            r == rev_bits(i as nat, k as nat),
            x == i as nat / two_pow(k as nat),
        decreases bits - k,
    {
        proof {
            lemma_rev_step(i as nat, k as nat);
            lemma_rev_bound(i as nat, k as nat + 1);
            lemma_two_pow_add(k as nat + 1, (bits - k - 1) as nat);
            lemma_two_pow_pos((bits - k - 1) as nat);
            assert(two_pow(k as nat + 1) <= two_pow(bits as nat)) by (nonlinear_arith)
                requires
                    two_pow(bits as nat) == two_pow(k as nat + 1) * two_pow((bits - k - 1) as nat),
                    two_pow((bits - k - 1) as nat) >= 1,
            ;
            lemma_two_pow_pos(k as nat);
            vstd::arithmetic::div_mod::lemma_div_denominator(i as int, two_pow(k as nat) as int, 2);
            assert(two_pow(k as nat + 1) == two_pow(k as nat) * 2);
        }
        r = r * 2 + x % 2;
        x = x / 2;
        k = k + 1;
    }
    r
}

/// Reorder `values` so that position `i` holds what was at the bit reversal
/// of `i`.
fn bit_reverse_permute<F: Copy>(values: &mut [F], bits: u32)
    requires
        old(values)@.len() == two_pow(bits as nat),
        two_pow(bits as nat) <= usize::MAX,
    ensures
        final(values)@.len() == old(values)@.len(),
        forall|i: int| 0 <= i < old(values)@.len() ==> #[trigger] final(values)@[i] == old(values)@[rev_bits(
            i as nat,
            bits as nat,
        ) as int],
{
    let n = values.len();
    let mut original: Vec<F> = Vec::new();
    let mut i: usize = 0;
    while i < n
        invariant
            i <= n,
            n == values@.len(),
            original@ == values@.subrange(0, i as int),
        decreases n - i,
    {
        original.push(values[i]);
        i = i + 1;
    }
    assert(original@ =~= old(values)@);
    let mut i: usize = 0;
    while i < n
        invariant
            i <= n,
            n == values@.len(),
            n == old(values)@.len(),
            n == two_pow(bits as nat),
            two_pow(bits as nat) <= usize::MAX,
            original@ == old(values)@,
            forall|j: int| 0 <= j < i ==> #[trigger] values@[j] == original@[rev_bits(j as nat, bits as nat) as int],
        decreases n - i,
    {
        let j = reverse_index(i, bits);
        proof {
            lemma_rev_bound(i as nat, bits as nat);
        }
        values[i] = original[j];
        i = i + 1;
    }
}

/// The coefficients `c[offset + stride·t]` for `t < len`.
pub open spec fn strided<F>(c: Seq<F>, offset: nat, stride: nat, len: nat) -> Seq<F> {
    Seq::new(len, |t: int| c[offset + stride * t])
}

/// Every element is canonical.
pub open spec fn all_wf<F: ZkField>(s: Seq<F>) -> bool {
    forall|i: int| 0 <= i < s.len() ==> (#[trigger] s[i]).wf()
}

/// A polynomial's value is canonical.
pub(crate) proof fn lemma_poly_eval_wf<F: ZkField>(c: Seq<F>, x: F)
    ensures
        poly_eval(c, x).wf(),
    decreases c.len(),
{
    lemma_basics(x, x);
    if c.len() > 0 {
        lemma_basics(c[0], x.spec_mul(poly_eval(c.drop_first(), x)));
    }
}

/// Even/odd split: `P(x) = E(x²) + x·O(x²)`, where `E` takes the even-indexed
/// coefficients of `P` and `O` the odd-indexed ones.
pub(crate) proof fn lemma_poly_split<F: ZkField>(s: Seq<F>, x: F, h: nat)
    requires
        s.len() == 2 * h,
        all_wf(s),
        x.wf(),
    ensures
        poly_eval(s, x) == poly_eval(strided(s, 0, 2, h), x.spec_mul(x)).spec_add(
            x.spec_mul(poly_eval(strided(s, 1, 2, h), x.spec_mul(x))),
        ),
    decreases h,
{
    let xx = x.spec_mul(x);
    let e = strided(s, 0, 2, h);
    let o = strided(s, 1, 2, h);
    lemma_basics(x, x);
    if h == 0 {
        assert(e.len() == 0 && o.len() == 0);
        lemma_basics(x.spec_mul(F::spec_zero()), x);
        lemma_basics(F::spec_zero(), F::spec_zero());
    } else {
        let rest = s.subrange(2, s.len() as int);
        assert(all_wf(rest));
        lemma_poly_split(rest, x, (h - 1) as nat);
        let e2 = strided(rest, 0, 2, (h - 1) as nat);
        let o2 = strided(rest, 1, 2, (h - 1) as nat);
        assert(e.drop_first() =~= e2);
        assert(o.drop_first() =~= o2);
        assert(s.drop_first().drop_first() =~= rest);
        let pe = poly_eval(e2, xx);
        let po = poly_eval(o2, xx);
        let pr = poly_eval(rest, x);
        let s0 = s[0];
        let s1 = s[1];
        assert(s0.wf() && s1.wf());
        lemma_poly_eval_wf(e2, xx);
        lemma_poly_eval_wf(o2, xx);
        lemma_poly_eval_wf(rest, x);
        // P(x) = s0 + x·(s1 + x·R(x)), R(x) = E'(x²) + x·O'(x²).
        assert(s.drop_first()[0] == s1);
        assert(poly_eval(s.drop_first(), x) == s1.spec_add(x.spec_mul(pr)));
        assert(poly_eval(s, x) == s0.spec_add(x.spec_mul(s1.spec_add(x.spec_mul(pr)))));
        assert(pr == pe.spec_add(x.spec_mul(po)));
        // E(x²) = s0 + x²·E'(x²),  O(x²) = s1 + x²·O'(x²).
        assert(poly_eval(e, xx) == s0.spec_add(xx.spec_mul(pe)));
        assert(poly_eval(o, xx) == s1.spec_add(xx.spec_mul(po)));
        // Expand both sides into s0 + x·s1 + x²·E' + x·(x²·O').
        let a = x.spec_mul(s1);
        let b = xx.spec_mul(pe);
        let c = x.spec_mul(xx.spec_mul(po));
        lemma_basics(x, s1);
        lemma_basics(xx, pe);
        lemma_basics(xx, po);
        lemma_basics(x, xx.spec_mul(po));
        lemma_basics(x, po);
        lemma_basics(x, pr);
        // left: x·(s1 + x·(pe + x·po)) = a + (b + c)
        lemma_distrib(x, pe, x.spec_mul(po));
        lemma_mul_assoc(x, x, pe);
        lemma_mul_assoc(x, x, x.spec_mul(po));
        lemma_mul_assoc(x, x, po);
        lemma_mul_comm(x, xx);
        lemma_mul_assoc(x, xx, po);
        lemma_mul_assoc(xx, x, po);
        lemma_mul_comm(x, po);
        lemma_mul_assoc(xx, po, x);
        lemma_distrib(x, s1, x.spec_mul(pr));
        assert(x.spec_mul(x.spec_mul(pr)) == b.spec_add(c)) by {
            lemma_distrib(xx, pe, x.spec_mul(po));
            lemma_mul_assoc(x, x, pr);
            assert(x.spec_mul(pr) == x.spec_mul(pe).spec_add(x.spec_mul(x.spec_mul(po))));
            lemma_distrib(x, x.spec_mul(pe), x.spec_mul(x.spec_mul(po)));
            lemma_mul_assoc(x, x, x.spec_mul(po));
            lemma_mul_assoc(xx, x, po);
        }
        // right: (s0 + b) + x·(s1 + x²·po) = (s0 + b) + (a + c)
        lemma_distrib(x, s1, xx.spec_mul(po));
        lemma_basics(s0, b);
        lemma_basics(a, c);
        lemma_basics(b, c);
        lemma_basics(a, b.spec_add(c));
        lemma_add_assoc(s0, a, b.spec_add(c));
        lemma_add_assoc(s0, b, a.spec_add(c));
        lemma_add_assoc(a, b, c);
        lemma_add_assoc(b, a, c);
        lemma_add_comm(a, b);
    }
}


/// `(-x)·o = -(x·o)`.
pub(crate) proof fn lemma_neg_mul<F: ZkField>(x: F, o: F)
    requires
        x.wf(),
        o.wf(),
    ensures
        x.spec_neg().spec_mul(o) == x.spec_mul(o).spec_neg(),
{
    let one = F::spec_one();
    lemma_basics(x, o);
    lemma_basics(one, one);
    lemma_neg_is_times_minus_one(x);
    // (x·(-1))·o = (x·o)·(-1) = -(x·o)
    lemma_mul_assoc(x, one.spec_neg(), o);
    lemma_mul_comm(one.spec_neg(), o);
    lemma_mul_assoc(x, o, one.spec_neg());
    lemma_neg_is_times_minus_one(x.spec_mul(o));
}

/// `-(-a) = a`.
pub(crate) proof fn lemma_neg_neg<F: ZkField>(a: F)
    requires
        a.wf(),
    ensures
        a.spec_neg().spec_neg() == a,
{
    lemma_basics(a, a);
    lemma_basics(a.spec_neg(), a);
    lemma_add_comm(a.spec_neg(), a);
    crate::field::lemma_add_cancel(a.spec_neg(), a);
}

/// After the butterfly layers for blocks of size `2^t`, position `p` holds the
/// size-`2^t` transform of one strided sub-polynomial of `c`, at `p`'s place
/// in its block: the block's coefficients are those of `c` at the bit-reversed
/// block index plus multiples of `2^(m-t)`.
pub open spec fn level_value<F: ZkField>(c: Seq<F>, root: F, m: nat, t: nat, p: nat) -> F {
    let size = two_pow(t);
    let stride = two_pow((m - t) as nat);
    poly_eval(strided(c, rev_bits(p / size, (m - t) as nat), stride, size), fpow(root, stride * (p % size)))
}

/// Blocks of size one: the bit-reversed coefficients.
proof fn lemma_level_zero<F: ZkField>(c: Seq<F>, root: F, m: nat, p: nat)
    requires
        all_wf(c),
        c.len() == two_pow(m),
        p < two_pow(m),
    ensures
        level_value(c, root, m, 0, p) == c[rev_bits(p, m) as int],
{
    lemma_rev_bound(p, m);
    assert(two_pow(0) == 1);
    let s = strided(c, rev_bits(p, m), two_pow(m), 1);
    assert(p / 1 == p && p % 1 == 0);
    assert(s[0] == c[rev_bits(p, m) as int]);
    assert(s.drop_first().len() == 0);
    let x = fpow(root, two_pow(m) * 0);
    let v = c[rev_bits(p, m) as int];
    assert(v.wf());
    lemma_basics(x, x);
    lemma_basics(v, x);
    assert(poly_eval(s.drop_first(), x) == F::spec_zero());
    assert(poly_eval(s, x) == v);
    assert(level_value(c, root, m, 0, p) == poly_eval(s, x));
}

/// One block of size `2^m`: the transform of `c` itself.
proof fn lemma_level_top<F: ZkField>(c: Seq<F>, root: F, m: nat, p: nat)
    requires
        c.len() == two_pow(m),
        p < two_pow(m),
    ensures
        level_value(c, root, m, m, p) == poly_eval(c, fpow(root, p)),
{
    lemma_fundamental_div_mod_converse(p as int, two_pow(m) as int, 0, p as int);
    assert(two_pow(0) == 1);
    assert(strided(c, 0, 1, two_pow(m)) =~= c);
    assert(1 * p == p);
}

/// One butterfly: combining two blocks of size `2^(t-1)` into one of size
/// `2^t`. `lo` is at offset `k` in the lower half of block `b`, `hi` the
/// same offset in the upper half, and `x` the `k`-th power of the level's
/// root of unity.
proof fn lemma_butterfly<F: ZkField>(c: Seq<F>, root: F, m: nat, t: nat, b: nat, k: nat)
    requires
        all_wf(c),
        c.len() == two_pow(m),
        root.wf(),
        1 <= t <= m,
        fpow(root, two_pow((m - 1) as nat)) == F::spec_one().spec_neg(),
        k < two_pow((t - 1) as nat),
        b * two_pow(t) + two_pow(t) <= two_pow(m),
    ensures
        ({
            let h = two_pow((t - 1) as nat);
            let lo = b * two_pow(t) + k;
            let x = fpow(root, two_pow((m - t) as nat) * k);
            let e = level_value(c, root, m, (t - 1) as nat, lo);
            let o = level_value(c, root, m, (t - 1) as nat, lo + h);
            &&& level_value(c, root, m, t, lo) == e.spec_add(o.spec_mul(x))
            &&& level_value(c, root, m, t, lo + h) == e.spec_sub(o.spec_mul(x))
        }),
{
    let t1 = (t - 1) as nat;
    let j = (m - t) as nat;
    let h = two_pow(t1);
    let size = two_pow(t);
    let st = two_pow(j);
    let lo = b * size + k;
    let hi = lo + h;
    assert(size == 2 * h);
    assert((m - t1) as nat == j + 1);
    assert(two_pow(j + 1) == 2 * st);
    lemma_two_pow_pos(t1);
    lemma_two_pow_pos(j);
    // Index arithmetic.
    assert(lo == (2 * b) * h + k) by (nonlinear_arith)
        requires
            lo == b * size + k,
            size == 2 * h,
    ;
    assert(hi == (2 * b + 1) * h + k) by (nonlinear_arith)
        requires
            hi == lo + h,
            lo == (2 * b) * h + k,
    ;
    lemma_fundamental_div_mod_converse(lo as int, h as int, (2 * b) as int, k as int);
    lemma_fundamental_div_mod_converse(hi as int, h as int, (2 * b + 1) as int, k as int);
    lemma_fundamental_div_mod_converse(lo as int, size as int, b as int, k as int);
    lemma_fundamental_div_mod_converse(hi as int, size as int, b as int, (k + h) as int);
    // Bit reversal of the two half-blocks.
    assert(rev_bits(2 * b, j + 1) == rev_bits(b, j)) by {
        assert((2 * b) % 2 == 0 && (2 * b) / 2 == b);
    }
    assert(rev_bits(2 * b + 1, j + 1) == st + rev_bits(b, j)) by {
        assert((2 * b + 1) % 2 == 1 && (2 * b + 1) / 2 == b);
    }
    let off = rev_bits(b, j);
    let s = strided(c, off, st, size);
    lemma_rev_bound(b, j);
    assert forall|i: int| 0 <= i < s.len() implies (#[trigger] s[i]).wf() by {
        assert(off + st * i < two_pow(m)) by {
            lemma_two_pow_add(j, t);
            assert(j + t == m);
            assert(st * i <= st * (size - 1)) by (nonlinear_arith)
                requires
                    0 <= i < size,
                    st >= 1,
            ;
            assert(st * (size - 1) + st == st * size) by (nonlinear_arith);
        }
    }
    // The halves are the even and odd coefficients of the block.
    assert(strided(c, rev_bits(2 * b, j + 1), 2 * st, h) =~= strided(s, 0, 2, h)) by {
        assert forall|u: int| 0 <= u < h implies #[trigger] strided(c, off, 2 * st, h)[u] == strided(s, 0, 2, h)[u] by {
            assert(st * (2 * u) == (2 * st) * u) by (nonlinear_arith);
        }
    }
    assert(strided(c, rev_bits(2 * b + 1, j + 1), 2 * st, h) =~= strided(s, 1, 2, h)) by {
        assert forall|u: int| 0 <= u < h implies #[trigger] strided(c, st + off, 2 * st, h)[u] == strided(s, 1, 2, h)[u] by {
            assert(st * (1 + 2 * u) == st + (2 * st) * u) by (nonlinear_arith);
        }
    }
    // The points.
    let x = fpow(root, st * k);
    let y = fpow(root, st * (k + h));
    lemma_fpow_wf(root, st * k);
    lemma_fpow_add(root, st * k, st * k);
    assert(st * k + st * k == (2 * st) * k) by (nonlinear_arith);
    assert(fpow(root, (2 * st) * k) == x.spec_mul(x));
    assert(st * (k + h) == st * k + st * h) by (nonlinear_arith);
    lemma_fpow_add(root, st * k, st * h);
    lemma_two_pow_add(j, t1);
    assert(j + t1 == (m - 1) as nat);
    assert(st * h == two_pow((m - 1) as nat));
    lemma_neg_is_times_minus_one(x);
    assert(y == x.spec_neg());
    lemma_basics(x, x);
    lemma_neg_mul(x, x);
    lemma_mul_comm(x, x.spec_neg());
    lemma_neg_mul(x, x.spec_neg());
    lemma_neg_neg(x.spec_mul(x));
    assert(y.spec_mul(y) == x.spec_mul(x));
    // Split the block's polynomial at x and at -x.
    lemma_poly_split(s, x, h);
    lemma_poly_split(s, y, h);
    let e = poly_eval(strided(s, 0, 2, h), x.spec_mul(x));
    let o = poly_eval(strided(s, 1, 2, h), x.spec_mul(x));
    assert(level_value(c, root, m, t1, lo) == e);
    assert(level_value(c, root, m, t1, hi) == o);
    lemma_poly_eval_wf(strided(s, 1, 2, h), x.spec_mul(x));
    lemma_mul_comm(x, o);
    lemma_neg_mul(x, o);
    lemma_basics(e, o.spec_mul(x));
    assert(level_value(c, root, m, t, lo) == poly_eval(s, x));
    assert(level_value(c, root, m, t, hi) == poly_eval(s, y));
}


/// Which positions a butterfly layer has finished: every block before
/// `start`, and the first `offset` pairs of the block at `start`.
pub open spec fn merged(p: nat, start: nat, half: nat, offset: nat) -> bool {
    ||| p < start
    ||| start <= p < start + offset
    ||| start + half <= p < start + half + offset
}

/// `log2(n)` for a power of two `n`.
pub open spec fn log2(n: nat) -> nat
    decreases n,
{
    if n <= 1 {
        0
    } else {
        1 + log2(n / 2)
    }
}

/// Iterative Cooley–Tukey with a given primitive `2^bits`-th root.
/// Decimation in time: bit-reverse, then `bits` layers of butterflies.
fn transform<F: ZkField>(values: &mut [F], root: F, bits: u32)
    requires
        old(values)@.len() == two_pow(bits as nat),
        1 <= bits < 64,
        two_pow(bits as nat) <= usize::MAX,
        all_wf(old(values)@),
        root.wf(),
    ensures
        final(values)@.len() == old(values)@.len(),
        all_wf(final(values)@),
        fpow(root, two_pow((bits - 1) as nat)) == F::spec_one().spec_neg() ==> final(values)@ == dft(
            old(values)@,
            root,
        ),
{
    let ghost c = old(values)@;
    let ghost m = bits as nat;
    let ghost primitive = fpow(root, two_pow((bits - 1) as nat)) == F::spec_one().spec_neg();
    let n = values.len();
    bit_reverse_permute(values, bits);
    proof {
        assert forall|p: int| 0 <= p < n implies #[trigger] values@[p] == level_value(c, root, m, 0, p as nat) by {
            lemma_level_zero(c, root, m, p as nat);
        }
        assert forall|p: int| 0 <= p < n implies (#[trigger] values@[p]).wf() by {
            lemma_rev_bound(p as nat, m);
        }
    }
    let mut length: usize = 2;
    let mut t: u32 = 1;
    proof {
        assert(two_pow(0) == 1);
        assert(two_pow(1) == 2);
    }
    while t <= bits
        invariant
            1 <= t <= bits + 1,
            bits < 64,
            m == bits as nat,
            n == values@.len(),
            n == two_pow(m),
            n == c.len(),
            all_wf(c),
            root.wf(),
            primitive == (fpow(root, two_pow((bits - 1) as nat)) == F::spec_one().spec_neg()),
            t <= bits ==> length == two_pow(t as nat),
            all_wf(values@),
            primitive ==> forall|p: int| 0 <= p < n ==> #[trigger] values@[p] == level_value(c, root, m, (t - 1) as nat, p as nat),
        decreases bits + 1 - t,
    {
        let ghost tt = t as nat;
        let ghost j = (m - tt) as nat;
        proof {
            lemma_two_pow_add(j, tt);
            lemma_two_pow_pos(j);
            lemma_two_pow_pos(tt);
            assert(j + tt == m);
            assert(two_pow(tt) == 2 * two_pow((tt - 1) as nat));
        }
        // `w_length` is a primitive `length`-th root: root^(n/length).
        let step = n / length;
        proof {
            lemma_fundamental_div_mod_converse(n as int, length as int, two_pow(j) as int, 0);
        }
        let w_length = pow(root, step as u64);
        proof {
            lemma_fpow_wf(root, step as nat);
        }
        let half = length / 2;
        let ghost nb = step as nat;
        let mut start: usize = 0;
        let ghost mut blk: nat = 0;
        while start < n
            invariant
                m == bits as nat,
                tt == t as nat,
                1 <= t <= bits,
                j == (m - tt) as nat,
                n == values@.len(),
                n == two_pow(m),
                n == c.len(),
                all_wf(c),
                root.wf(),
                primitive == (fpow(root, two_pow((bits - 1) as nat)) == F::spec_one().spec_neg()),
                all_wf(values@),
                length == two_pow(tt),
                half == two_pow((tt - 1) as nat),
                length == 2 * half,
                step == two_pow(j),
                step as nat == nb,
                n == nb * length,
                w_length == fpow(root, step as nat),
                w_length.wf(),
                start == blk * length,
                start <= n,
                primitive ==> forall|p: int| 0 <= p < n ==> #[trigger] values@[p] == (if p < start {
                    level_value(c, root, m, tt, p as nat)
                } else {
                    level_value(c, root, m, (tt - 1) as nat, p as nat)
                }),
            decreases n - start,
        {
            proof {
                lemma_two_pow_pos((tt - 1) as nat);
                assert(blk < nb) by (nonlinear_arith)
                    requires
                        blk * length < nb * length,
                ;
                assert(blk * length + length <= n) by (nonlinear_arith)
                    requires
                        blk < nb,
                        n == nb * length,
                ;
                lemma_fpow_wf(w_length, 0);
            }
            let mut w = F::one();
            let mut offset: usize = 0;
            while offset < half
                invariant
                    m == bits as nat,
                    tt == t as nat,
                    1 <= t <= bits,
                    j == (m - tt) as nat,
                    n == values@.len(),
                    n == two_pow(m),
                    n == c.len(),
                    all_wf(c),
                    root.wf(),
                    primitive == (fpow(root, two_pow((bits - 1) as nat)) == F::spec_one().spec_neg()),
                    all_wf(values@),
                    length == two_pow(tt),
                    half == two_pow((tt - 1) as nat),
                    length == 2 * half,
                    step == two_pow(j),
                    w_length == fpow(root, step as nat),
                    w_length.wf(),
                    start == blk * length,
                    start + length <= n,
                    offset <= half,
                    w == fpow(w_length, offset as nat),
                    primitive ==> forall|p: int| 0 <= p < n ==> #[trigger] values@[p] == (if merged(p as nat, start as nat, half as nat, offset as nat) {
                        level_value(c, root, m, tt, p as nat)
                    } else {
                        level_value(c, root, m, (tt - 1) as nat, p as nat)
                    }),
                decreases half - offset,
            {
                let lo = start + offset;
                let hi = lo + half;
                proof {
                    if primitive {
                        lemma_butterfly(c, root, m, tt, blk, offset as nat);
                    }
                    lemma_fpow_mul(root, step as nat, offset as nat);
                    assert(lo == blk * two_pow(tt) + offset);
                    assert(!merged(lo as nat, start as nat, half as nat, offset as nat));
                    assert(!merged(hi as nat, start as nat, half as nat, offset as nat));
                }
                let a = values[lo];
                let b = values[hi].mul(w);
                values[lo] = a.add(b);
                values[hi] = a.sub(b);
                proof {
                    lemma_fpow_wf(w_length, offset as nat);
                    lemma_basics(w_length, w_length);
                    lemma_basics(a, b);
                    assert forall|p: int| 0 <= p < n implies (#[trigger] values@[p]).wf() by {}
                }
                w = w.mul(w_length);
                offset = offset + 1;
            }
            proof {
                if primitive {
                    assert forall|p: int| 0 <= p < n implies #[trigger] values@[p] == (if p < start + length {
                        level_value(c, root, m, tt, p as nat)
                    } else {
                        level_value(c, root, m, (tt - 1) as nat, p as nat)
                    }) by {
                        assert(merged(p as nat, start as nat, half as nat, half as nat) == (p < start + length));
                    }
                }
                assert(start + length == (blk + 1) * length) by (nonlinear_arith)
                    requires
                        start == blk * length,
                ;
            }
            start = start + length;
            proof {
                blk = blk + 1;
            }
        }
        proof {
            assert(start == n);
        }
        t = t + 1;
        if t <= bits {
            proof {
                lemma_two_pow_add(tt + 1, (m - tt - 1) as nat);
                lemma_two_pow_pos((m - tt - 1) as nat);
                assert(two_pow(tt + 1) <= two_pow(m)) by (nonlinear_arith)
                    requires
                        two_pow(m) == two_pow(tt + 1) * two_pow((m - tt - 1) as nat),
                        two_pow((m - tt - 1) as nat) >= 1,
                ;
            }
            length = length * 2;
        }
    }
    proof {
        if primitive {
            assert forall|p: int| 0 <= p < n implies #[trigger] values@[p] == poly_eval(c, fpow(root, p as nat)) by {
                lemma_level_top(c, root, m, p as nat);
            }
            assert(values@ =~= dft(c, root));
        }
    }
}


/// The transform of `c` at the powers of `root`: `P(root^j)` for each `j`.
pub open spec fn dft<F: ZkField>(c: Seq<F>, root: F) -> Seq<F> {
    Seq::new(c.len(), |j: int| poly_eval(c, fpow(root, j as nat)))
}

/// The generator of the multiplicative subgroup of size `n`.
pub open spec fn subgroup_root<F: TwoAdicField>(n: nat) -> F {
    F::spec_two_adic_generator(log2(n) as u32)
}

/// `n` is a power of two small enough to have a subgroup of that size.
pub open spec fn subgroup_size<F: TwoAdicField>(n: nat) -> bool {
    &&& two_pow(log2(n)) == n
    &&& log2(n) <= F::spec_two_adicity()
}

/// `a <= b` implies `2^a <= 2^b`.
pub proof fn lemma_two_pow_mono(a: nat, b: nat)
    requires
        a <= b,
    ensures
        two_pow(a) <= two_pow(b),
{
    lemma_two_pow_add(a, (b - a) as nat);
    lemma_two_pow_pos((b - a) as nat);
    let x = two_pow(a);
    let y = two_pow((b - a) as nat);
    assert(x <= x * y) by (nonlinear_arith)
        requires
            y >= 1,
    ;
}

/// A power of two that fits a `usize` has fewer than 64 halvings.
pub(crate) proof fn lemma_log2_small(n: nat)
    requires
        two_pow(log2(n)) == n,
        n <= usize::MAX,
    ensures
        log2(n) < 64,
{
    if log2(n) >= 64 {
        assert(two_pow(64) == 0x1_0000_0000_0000_0000) by {
            reveal_with_fuel(two_pow, 65);
        }
        lemma_two_pow_mono(64, log2(n));
    }
}

/// `log2(n)`, by halving.
pub(crate) fn exact_log2(n: usize) -> (r: u32)
    requires
        two_pow(log2(n as nat)) == n,
    ensures
        r == log2(n as nat),
        r < 64,
{
    proof {
        lemma_log2_small(n as nat);
    }
    let mut m = n;
    let mut bits: u32 = 0;
    while m > 1
        invariant
            m >= 1,
            bits + log2(m as nat) == log2(n as nat),
            log2(n as nat) < 64,
        decreases m,
    {
        m = m / 2;
        bits = bits + 1;
    }
    bits
}

/// Every positive power of zero is zero.
proof fn lemma_fpow_zero<F: ZkField>(e: nat)
    requires
        e >= 1,
    ensures
        fpow(F::spec_zero(), e) == F::spec_zero(),
{
    lemma_basics(fpow(F::spec_zero(), (e - 1) as nat), F::spec_zero());
}

/// A transform of size one is the identity.
proof fn lemma_dft_one<F: ZkField>(c: Seq<F>, root: F)
    requires
        c.len() == 1,
        all_wf(c),
    ensures
        dft(c, root) == c,
{
    let x = fpow(root, 0);
    assert(c.drop_first().len() == 0);
    lemma_basics(x, x);
    lemma_basics(c[0], x);
    assert(c[0].wf());
    assert(poly_eval(c.drop_first(), x) == F::spec_zero());
    assert(poly_eval(c, x) == c[0]);
    assert(dft(c, root)[0] == poly_eval(c, x));
    assert(dft(c, root) =~= c);
}

/// The forward NTT, in place. `values` holds polynomial coefficients on entry
/// and its evaluations on the size-`n` subgroup on exit.
pub fn ntt<F: TwoAdicField>(values: &mut [F])
    requires
        subgroup_size::<F>(old(values)@.len()),
        all_wf(old(values)@),
    ensures
        final(values)@ == dft(old(values)@, subgroup_root::<F>(old(values)@.len())),
{
    let n = values.len();
    if n <= 1 {
        proof {
            assert(two_pow(log2(0)) == 1);
            lemma_dft_one(values@, subgroup_root::<F>(n as nat));
        }
        return;
    }
    let bits = exact_log2(n);
    proof {
        F::lemma_generator_primitive(bits);
    }
    let root = F::two_adic_generator(bits);
    transform(values, root, bits);
}

/// The inverse of the generator of the size-`n` subgroup.
pub open spec fn inverse_root<F: TwoAdicField>(n: nat) -> F {
    subgroup_root::<F>(n).spec_inverse()->0
}

/// Whether that inverse is itself a primitive root of the same order, as it
/// is in a field, where `g·g⁻¹ = 1` (trivially so for `n = 1`).
pub open spec fn inverse_is_primitive<F: TwoAdicField>(n: nat) -> bool {
    n <= 1 || fpow(inverse_root::<F>(n), two_pow((log2(n) - 1) as nat)) == F::spec_one().spec_neg()
}

/// In every subgroup of a size that fits a `usize`, the inverse root is
/// primitive of the same order.
pub proof fn lemma_inverse_is_primitive<F: TwoAdicField>(n: nat)
    requires
        subgroup_size::<F>(n),
        n <= usize::MAX,
    ensures
        inverse_is_primitive::<F>(n),
{
    if n > 1 {
        lemma_log2_small(n);
        if log2(n) == 0 {
            assert(two_pow(0) == 1);
        }
        F::lemma_generator_inverse_primitive(log2(n) as u32);
    }
}

/// What the inverse NTT computes: the transform at the inverse root, scaled
/// by `n^{-1}` (and nothing at all for `n = 1`).
pub open spec fn interpolated<F: TwoAdicField>(v: Seq<F>) -> Seq<F> {
    if v.len() <= 1 {
        v
    } else {
        Seq::new(
            v.len(),
            |j: int|
                poly_eval(v, fpow(inverse_root::<F>(v.len()), j as nat)).spec_mul(
                    F::spec_from_u64(v.len() as u64).spec_inverse()->0,
                ),
        )
    }
}

/// The inverse NTT: evaluations back to coefficients, with the inverse root,
/// scaled by `n^{-1}`.
pub fn intt<F: TwoAdicField>(values: &mut [F])
    requires
        subgroup_size::<F>(old(values)@.len()),
        all_wf(old(values)@),
    ensures
        final(values)@.len() == old(values)@.len(),
        all_wf(final(values)@),
        final(values)@ == interpolated(old(values)@),
{
    let n = values.len();
    if n <= 1 {
        proof {
            assert(two_pow(log2(0)) == 1);
        }
        return;
    }
    let bits = exact_log2(n);
    proof {
        F::lemma_generator_primitive(bits);
        F::lemma_generator_inverse_primitive(bits);
        F::lemma_subgroup_size_nonzero(bits);
    }
    let root = F::two_adic_generator(bits);
    let ghost c = values@;
    proof {
        F::lemma_inverse_wf(root);
        if root == F::spec_zero() {
            lemma_two_pow_pos((bits - 1) as nat);
            lemma_fpow_zero::<F>(two_pow((bits - 1) as nat));
            lemma_basics(F::spec_one(), F::spec_one());
        }
    }
    let inverse_root = root.inverse().unwrap();
    proof {
        F::lemma_inverse_wf(root);
    }
    transform(values, inverse_root, bits);
    let n_field = F::from_u64(n as u64);
    proof {
        F::lemma_inverse_wf(n_field);
    }
    let n_inverse = n_field.inverse().unwrap();
    let ghost transformed = values@;
    let mut i: usize = 0;
    while i < n
        invariant
            i <= n,
            n == values@.len(),
            n_inverse.wf(),
            forall|k: int| 0 <= k < i ==> #[trigger] values@[k] == transformed[k].spec_mul(n_inverse),
            forall|k: int| i <= k < n ==> #[trigger] values@[k] == transformed[k],
        decreases n - i,
    {
        values[i] = values[i].mul(n_inverse);
        i = i + 1;
    }
    proof {
        assert forall|k: int| 0 <= k < n implies (#[trigger] values@[k]).wf() by {
            lemma_basics(transformed[k], n_inverse);
        }
        assert(inverse_is_primitive::<F>(n as nat));
        assert(values@ =~= interpolated(c));
    }
}


/// Coefficient `i` scaled by `s^i`.
pub open spec fn scaled<F: ZkField>(c: Seq<F>, s: F) -> Seq<F> {
    Seq::new(c.len(), |i: int| c[i].spec_mul(fpow(s, i as nat)))
}

/// Every coefficient multiplied by `k`.
spec fn times<F: ZkField>(c: Seq<F>, k: F) -> Seq<F> {
    Seq::new(c.len(), |i: int| k.spec_mul(c[i]))
}

proof fn lemma_eval_times<F: ZkField>(c: Seq<F>, k: F, x: F)
    requires
        all_wf(c),
        k.wf(),
        x.wf(),
    ensures
        poly_eval(times(c, k), x) == k.spec_mul(poly_eval(c, x)),
    decreases c.len(),
{
    lemma_basics(k, x);
    if c.len() == 0 {
        lemma_basics(k, k);
    } else {
        let rest = c.drop_first();
        assert(times(c, k).drop_first() =~= times(rest, k));
        lemma_eval_times(rest, k, x);
        let p = poly_eval(rest, x);
        lemma_poly_eval_wf(rest, x);
        lemma_basics(x, p);
        // k·c0 + x·(k·p) = k·(c0 + x·p)
        lemma_mul_assoc(x, k, p);
        lemma_mul_comm(x, k);
        lemma_mul_assoc(k, x, p);
        lemma_distrib(k, c[0], x.spec_mul(p));
    }
}

pub(crate) proof fn lemma_eval_scaled<F: ZkField>(c: Seq<F>, s: F, x: F)
    requires
        all_wf(c),
        s.wf(),
        x.wf(),
    ensures
        poly_eval(scaled(c, s), x) == poly_eval(c, s.spec_mul(x)),
    decreases c.len(),
{
    lemma_basics(s, x);
    if c.len() > 0 {
        let rest = c.drop_first();
        assert(all_wf(rest));
        lemma_eval_scaled(rest, s, x);
        let sr = scaled(rest, s);
        assert forall|i: int| 0 <= i < sr.len() implies (#[trigger] sr[i]).wf() by {
            lemma_basics(rest[i], fpow(s, i as nat));
        }
        assert(scaled(c, s).drop_first() =~= times(sr, s)) by {
            assert forall|i: int| 0 <= i < sr.len() implies #[trigger] scaled(c, s).drop_first()[i] == times(sr, s)[i] by {
                // c[i+1]·s^(i+1) = s·(c[i+1]·s^i)
                lemma_fpow_wf(s, i as nat);
                lemma_mul_comm(fpow(s, i as nat), s);
                lemma_mul_assoc(rest[i], fpow(s, i as nat), s);
                lemma_mul_comm(rest[i].spec_mul(fpow(s, i as nat)), s);
            }
        }
        lemma_eval_times(sr, s, x);
        let p = poly_eval(sr, x);
        lemma_poly_eval_wf(sr, x);
        lemma_mul_assoc(x, s, p);
        lemma_mul_comm(x, s);
        // c0·s^0 = c0
        assert(fpow(s, 0) == F::spec_one());
        lemma_basics(c[0], c[0]);
    }
}

proof fn lemma_eval_zeros<F: ZkField>(k: nat, x: F)
    ensures
        poly_eval(Seq::new(k, |i: int| F::spec_zero()), x) == F::spec_zero(),
    decreases k,
{
    lemma_basics(x, x);
    lemma_basics(F::spec_zero(), F::spec_zero());
    if k > 0 {
        assert(Seq::new(k, |i: int| F::spec_zero()).drop_first() =~= Seq::new((k - 1) as nat, |i: int| F::spec_zero()));
        lemma_eval_zeros((k - 1) as nat, x);
    }
}

/// Trailing zero coefficients do not change a polynomial.
pub(crate) proof fn lemma_eval_padded<F: ZkField>(c: Seq<F>, k: nat, x: F)
    requires
        all_wf(c),
    ensures
        poly_eval(c + Seq::new(k, |i: int| F::spec_zero()), x) == poly_eval(c, x),
    decreases c.len(),
{
    let z = Seq::new(k, |i: int| F::spec_zero());
    if c.len() == 0 {
        assert(c + z =~= z);
        lemma_eval_zeros(k, x);
    } else {
        assert((c + z).drop_first() =~= c.drop_first() + z);
        lemma_eval_padded(c.drop_first(), k, x);
    }
}

/// Evaluate a coefficient polynomial on the coset `shift · <ω>` of size `size`.
///
/// Scaling coefficient `i` by `shift^i` turns evaluation on the subgroup (which
/// the NTT does) into evaluation at `shift · ω^j`.
pub fn coset_evaluate<F: TwoAdicField>(coefficients: &[F], shift: F, size: usize) -> (r: Vec<F>)
    requires
        subgroup_size::<F>(size as nat),
        coefficients@.len() <= size,
        all_wf(coefficients@),
        shift.wf(),
    ensures
        r@.len() == size,
        forall|j: int| 0 <= j < size ==> #[trigger] r@[j] == poly_eval(
            coefficients@,
            shift.spec_mul(fpow(subgroup_root::<F>(size as nat), j as nat)),
        ),
{
    let mut buffer: Vec<F> = Vec::new();
    let mut i: usize = 0;
    while i < size
        invariant
            i <= size,
            buffer@.len() == i,
            forall|k: int| 0 <= k < i ==> #[trigger] buffer@[k] == F::spec_zero(),
        decreases size - i,
    {
        buffer.push(F::zero());
        i = i + 1;
    }
    let mut shift_power = F::one();
    let ghost c = coefficients@;
    let mut i: usize = 0;
    while i < coefficients.len()
        invariant
            i <= c.len(),
            c.len() <= size,
            c == coefficients@,
            buffer@.len() == size,
            shift_power == fpow(shift, i as nat),
            forall|k: int| 0 <= k < i ==> #[trigger] buffer@[k] == c[k].spec_mul(fpow(shift, k as nat)),
            forall|k: int| i <= k < size ==> #[trigger] buffer@[k] == F::spec_zero(),
        decreases c.len() - i,
    {
        buffer.set(i, coefficients[i].mul(shift_power));
        shift_power = shift_power.mul(shift);
        i = i + 1;
    }
    let ghost z = Seq::new((size - c.len()) as nat, |k: int| F::spec_zero());
    proof {
        assert(buffer@ =~= scaled(c, shift) + z);
        lemma_basics(F::spec_zero(), F::spec_zero());
        assert forall|k: int| 0 <= k < size implies (#[trigger] buffer@[k]).wf() by {
            if k < c.len() {
                lemma_basics(c[k], fpow(shift, k as nat));
            }
        }
    }
    let ghost before = buffer@;
    ntt(buffer.as_mut_slice());
    proof {
        let w = subgroup_root::<F>(size as nat);
        assert forall|j: int| 0 <= j < size implies #[trigger] buffer@[j] == poly_eval(c, shift.spec_mul(fpow(w, j as nat))) by {
            let x = fpow(w, j as nat);
            lemma_fpow_wf(w, j as nat);
            assert(all_wf(scaled(c, shift))) by {
                assert forall|k: int| 0 <= k < c.len() implies (#[trigger] scaled(c, shift)[k]).wf() by {
                    lemma_basics(c[k], fpow(shift, k as nat));
                }
            }
            lemma_eval_padded(scaled(c, shift), (size - c.len()) as nat, x);
            lemma_eval_scaled(c, shift, x);
        }
    }
    buffer
}

/// The inverse of [`coset_evaluate`]: evaluations on `shift · <ω>` back to
/// coefficients. Interpolate on the subgroup, then undo the `shift^i` scaling.
pub fn coset_interpolate<F: TwoAdicField>(evaluations: &[F], shift: F) -> (r: Vec<F>)
    requires
        subgroup_size::<F>(evaluations@.len()),
        all_wf(evaluations@),
        shift.wf(),
        shift != F::spec_zero(),
    ensures
        r@.len() == evaluations@.len(),
        all_wf(r@),
        forall|i: int| 0 <= i < r@.len() ==> #[trigger] r@[i] == interpolated(evaluations@)[i].spec_mul(
            fpow(shift.spec_inverse()->0, i as nat),
        ),
{
    let mut coefficients: Vec<F> = Vec::new();
    let mut i: usize = 0;
    while i < evaluations.len()
        invariant
            i <= evaluations@.len(),
            coefficients@ == evaluations@.subrange(0, i as int),
        decreases evaluations@.len() - i,
    {
        coefficients.push(evaluations[i]);
        i = i + 1;
    }
    assert(coefficients@ =~= evaluations@);
    intt(coefficients.as_mut_slice());
    proof {
        F::lemma_inverse_wf(shift);
    }
    let shift_inverse = shift.inverse().unwrap();
    let ghost interp = coefficients@;
    let mut shift_power = F::one();
    let mut i: usize = 0;
    while i < coefficients.len()
        invariant
            i <= interp.len(),
            coefficients@.len() == interp.len(),
            all_wf(interp),
            shift_power == fpow(shift_inverse, i as nat),
            forall|k: int| 0 <= k < i ==> #[trigger] coefficients@[k] == interp[k].spec_mul(fpow(shift_inverse, k as nat)),
            forall|k: int| i <= k < interp.len() ==> #[trigger] coefficients@[k] == interp[k],
        decreases interp.len() - i,
    {
        let v = coefficients[i].mul(shift_power);
        coefficients.set(i, v);
        shift_power = shift_power.mul(shift_inverse);
        i = i + 1;
    }
    proof {
        assert forall|k: int| 0 <= k < coefficients@.len() implies (#[trigger] coefficients@[k]).wf() by {
            lemma_basics(interp[k], fpow(shift_inverse, k as nat));
        }
    }
    coefficients
}

/// Low-degree extension over a coset.
///
/// Given `n` evaluations of a polynomial on the size-`n` subgroup, return its
/// evaluations on a coset of the size-`n·blowup` subgroup — the redundant
/// encoding FRI's low-degree test relies on.
pub fn coset_lde<F: TwoAdicField>(evaluations: &[F], blowup: usize, shift: F) -> (r: Vec<F>)
    requires
        subgroup_size::<F>(evaluations@.len()),
        blowup >= 1,
        evaluations@.len() * blowup <= usize::MAX,
        subgroup_size::<F>((evaluations@.len() * blowup) as nat),
        all_wf(evaluations@),
        shift.wf(),
    ensures
        r@.len() == evaluations@.len() * blowup,
        forall|j: int| 0 <= j < r@.len() ==> #[trigger] r@[j] == poly_eval(
            interpolated(evaluations@),
            shift.spec_mul(fpow(subgroup_root::<F>((evaluations@.len() * blowup) as nat), j as nat)),
        ),
{
    let n = evaluations.len();
    // 1. Interpolate: evaluations on the subgroup -> coefficients.
    let mut coefficients: Vec<F> = Vec::new();
    let mut i: usize = 0;
    while i < n
        invariant
            i <= n,
            n == evaluations@.len(),
            coefficients@ == evaluations@.subrange(0, i as int),
        decreases n - i,
    {
        coefficients.push(evaluations[i]);
        i = i + 1;
    }
    assert(coefficients@ =~= evaluations@);
    intt(coefficients.as_mut_slice());
    // 2.–3. Zero-extend to the larger domain with the coset shift applied to
    // the coefficients, and evaluate on the larger subgroup.
    let big = n * blowup;
    proof {
        assert(n <= big) by (nonlinear_arith)
            requires
                blowup >= 1,
                big == n * blowup,
        ;
    }
    coset_evaluate(coefficients.as_slice(), shift, big)
}


} // verus!
