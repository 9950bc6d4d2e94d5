//! Coefficient polynomials: linear combinations, shifts by powers of `X`,
//! and division by `X - z`, each with what it does to a polynomial's value.
use vstd::prelude::*;

use crate::fft::{all_wf, fpow, poly_eval};
use crate::field::{lemma_add_assoc, lemma_add_comm, lemma_basics, lemma_distrib, lemma_mul_assoc, lemma_mul_comm, ZkField};
use crate::roundtrip::{lemma_eval_as_sum, sum_of};

verus! {

/// Coefficient `k` of `c`, zero past its end.
pub open spec fn coeff<F: ZkField>(c: Seq<F>, k: nat) -> F {
    if k < c.len() {
        c[k as int]
    } else {
        F::spec_zero()
    }
}

/// `s·a + t·b`, coefficient by coefficient, over `len` coefficients.
pub open spec fn lin<F: ZkField>(a: Seq<F>, s: F, b: Seq<F>, t: F, len: nat) -> Seq<F> {
    Seq::new(len, |k: int| s.spec_mul(coeff(a, k as nat)).spec_add(t.spec_mul(coeff(b, k as nat))))
}

/// `X^e · c`: `e` zero coefficients in front.
pub open spec fn shifted<F: ZkField>(c: Seq<F>, e: nat) -> Seq<F>
    decreases e,
{
    if e == 0 {
        c
    } else {
        seq![F::spec_zero()] + shifted(c, (e - 1) as nat)
    }
}

/// The quotient of `P` by `X - z`: `P(X) = P(z) + (X - z)·S(X)`.
pub open spec fn synthetic<F: ZkField>(p: Seq<F>, z: F) -> Seq<F>
    decreases p.len(),
{
    if p.len() <= 1 {
        Seq::empty()
    } else {
        let r = p.drop_first();
        lin(r, F::spec_one(), synthetic(r, z), z, r.len())
    }
}

/// A polynomial's value as a sum over any number of coefficients at least
/// its length.
proof fn lemma_eval_coeffs<F: ZkField>(c: Seq<F>, x: F, len: nat)
    requires
        all_wf(c),
        x.wf(),
        len >= c.len(),
    ensures
        poly_eval(c, x) == sum_of(len, |k: nat| coeff(c, k).spec_mul(fpow(x, k))),
{
    let pad = Seq::new((len - c.len()) as nat, |i: int| F::spec_zero());
    let padded = c + pad;
    lemma_basics(F::spec_zero(), F::spec_zero());
    assert(all_wf(padded)) by {
        assert forall|i: int| 0 <= i < padded.len() implies (#[trigger] padded[i]).wf() by {
            if i >= c.len() {
                assert(padded[i] == F::spec_zero());
            }
        }
    }
    crate::fft::lemma_eval_padded(c, (len - c.len()) as nat, x);
    lemma_eval_as_sum(padded, x);
    crate::roundtrip::lemma_sum_ext(
        len,
        |k: nat| padded[k as int].spec_mul(fpow(x, k)),
        |k: nat| coeff(c, k).spec_mul(fpow(x, k)),
    );
}

/// A linear combination's value is the combination of the values.
pub proof fn lemma_eval_lin<F: ZkField>(a: Seq<F>, s: F, b: Seq<F>, t: F, len: nat, x: F)
    requires
        all_wf(a),
        all_wf(b),
        x.wf(),
        len >= a.len(),
        len >= b.len(),
    ensures
        poly_eval(lin(a, s, b, t, len), x) == s.spec_mul(poly_eval(a, x)).spec_add(t.spec_mul(poly_eval(b, x))),
        all_wf(lin(a, s, b, t, len)),
        lin(a, s, b, t, len).len() == len,
{
    let l = lin(a, s, b, t, len);
    let fa = |k: nat| coeff(a, k).spec_mul(fpow(x, k));
    let fb = |k: nat| coeff(b, k).spec_mul(fpow(x, k));
    assert(all_wf(l)) by {
        assert forall|i: int| 0 <= i < l.len() implies (#[trigger] l[i]).wf() by {
            lemma_basics(s.spec_mul(coeff(a, i as nat)), t.spec_mul(coeff(b, i as nat)));
        }
    }
    lemma_eval_coeffs(a, x, len);
    lemma_eval_coeffs(b, x, len);
    lemma_eval_coeffs(l, x, len);
    let sa = |k: nat| s.spec_mul(fa(k));
    let tb = |k: nat| t.spec_mul(fb(k));
    crate::roundtrip::lemma_sum_scale(len, s, fa);
    crate::roundtrip::lemma_sum_ext(len, |k: nat| s.spec_mul(fa(k)), sa);
    crate::roundtrip::lemma_sum_scale(len, t, fb);
    crate::roundtrip::lemma_sum_ext(len, |k: nat| t.spec_mul(fb(k)), tb);
    crate::roundtrip::lemma_sum_add(len, sa, tb);
    crate::roundtrip::lemma_sum_ext(len, |k: nat| sa(k).spec_add(tb(k)), |k: nat| s.spec_mul(fa(k)).spec_add(t.spec_mul(fb(k))));
    assert(poly_eval(a, x) == sum_of(len, fa));
    assert(poly_eval(b, x) == sum_of(len, fb));
    assert forall|k: nat| k < len implies #[trigger] coeff(l, k).spec_mul(fpow(x, k)) == s.spec_mul(fa(k)).spec_add(
        t.spec_mul(fb(k)),
    ) by {
        let xk = fpow(x, k);
        let ca = coeff(a, k);
        let cb = coeff(b, k);
        lemma_mul_comm(s.spec_mul(ca).spec_add(t.spec_mul(cb)), xk);
        lemma_distrib(xk, s.spec_mul(ca), t.spec_mul(cb));
        lemma_mul_comm(xk, s.spec_mul(ca));
        lemma_mul_comm(xk, t.spec_mul(cb));
        lemma_mul_assoc(s, ca, xk);
        lemma_mul_assoc(t, cb, xk);
    }
    crate::roundtrip::lemma_sum_ext(
        len,
        |k: nat| coeff(l, k).spec_mul(fpow(x, k)),
        |k: nat| s.spec_mul(fa(k)).spec_add(t.spec_mul(fb(k))),
    );
}

/// Shifting by `e` multiplies the value by `x^e`.
pub proof fn lemma_eval_shifted<F: ZkField>(c: Seq<F>, e: nat, x: F)
    requires
        all_wf(c),
        x.wf(),
    ensures
        poly_eval(shifted(c, e), x) == fpow(x, e).spec_mul(poly_eval(c, x)),
        shifted(c, e).len() == c.len() + e,
        all_wf(shifted(c, e)),
    decreases e,
{
    let one = F::spec_one();
    let zero = F::spec_zero();
    crate::fft::lemma_poly_eval_wf(c, x);
    let v = poly_eval(c, x);
    lemma_basics(v, v);
    lemma_basics(one, one);
    if e == 0 {
        lemma_mul_comm(one, v);
    } else {
        let e1 = (e - 1) as nat;
        lemma_eval_shifted(c, e1, x);
        let s = shifted(c, e);
        let s1 = shifted(c, e1);
        assert(s.drop_first() =~= s1);
        assert(s[0] == zero);
        assert(poly_eval(s, x) == zero.spec_add(x.spec_mul(poly_eval(s1, x))));
        crate::fft::lemma_poly_eval_wf(s1, x);
        lemma_basics(x.spec_mul(poly_eval(s1, x)), zero);
        assert(fpow(x, e) == fpow(x, e1).spec_mul(x));
        lemma_basics(zero, zero);
        let xe1 = fpow(x, e1);
        crate::fft::lemma_fpow_wf(x, e1);
        lemma_basics(x, xe1.spec_mul(v));
        lemma_mul_assoc(x, xe1, v);
        lemma_mul_comm(x, xe1);
        assert forall|i: int| 0 <= i < s.len() implies (#[trigger] s[i]).wf() by {
            if i > 0 {
                assert(s[i] == s1[i - 1]);
            }
        }
    }
}

/// `p0 + x·R(x) = (p0 + z·R(z)) + d·(R(x) + z·T)` where `x = z + d` and
/// `R(x) = R(z) + d·T`.
proof fn lemma_synthetic_step<F: ZkField>(p0: F, x: F, z: F, d: F, rx: F, rz: F, t: F)
    requires
        x == z.spec_add(d),
        rx == rz.spec_add(d.spec_mul(t)),
    ensures
        p0.spec_add(x.spec_mul(rx)) == p0.spec_add(z.spec_mul(rz)).spec_add(d.spec_mul(rx.spec_add(z.spec_mul(t)))),
{
    let zrz = z.spec_mul(rz);
    let dt = d.spec_mul(t);
    let zdt = z.spec_mul(dt);
    let drx = d.spec_mul(rx);
    // d·(rx + z·t) = d·rx + z·(d·t)
    lemma_distrib(d, rx, z.spec_mul(t));
    lemma_mul_assoc(d, z, t);
    lemma_mul_comm(d, z);
    lemma_mul_assoc(z, d, t);
    // z·rx = z·rz + z·(d·t)
    lemma_distrib(z, rz, dt);
    // x·rx = z·rx + d·rx
    lemma_mul_comm(z.spec_add(d), rx);
    lemma_distrib(rx, z, d);
    lemma_mul_comm(rx, z);
    lemma_mul_comm(rx, d);
    // (p0 + zrz) + (drx + zdt) = p0 + ((zrz + zdt) + drx)
    lemma_add_assoc(p0, zrz, drx.spec_add(zdt));
    lemma_add_comm(drx, zdt);
    lemma_add_assoc(zrz, zdt, drx);
}

/// Division by `X - z`: `P(x) = P(z) + (x - z)·S(x)` for every `x`, with
/// `S` one coefficient shorter than `P`.
pub proof fn lemma_synthetic<F: ZkField>(p: Seq<F>, z: F, x: F)
    requires
        all_wf(p),
        x.wf(),
    ensures
        poly_eval(p, x) == poly_eval(p, z).spec_add(x.spec_sub(z).spec_mul(poly_eval(synthetic(p, z), x))),
        all_wf(synthetic(p, z)),
        synthetic(p, z).len() == (if p.len() == 0 { 0 } else { p.len() - 1 }),
    decreases p.len(),
{
    let zero = F::spec_zero();
    let one = F::spec_one();
    let d = x.spec_sub(z);
    lemma_basics(x, z);
    lemma_basics(zero, zero);
    lemma_basics(d, zero);
    crate::fft::lemma_poly_eval_wf(p, x);
    crate::fft::lemma_poly_eval_wf(p, z);
    if p.len() <= 1 {
        reveal_with_fuel(poly_eval, 2);
        if p.len() == 1 {
            lemma_basics(p[0], x);
            lemma_basics(p[0], z);
            lemma_basics(x, zero);
            lemma_basics(z, zero);
            assert(p.drop_first().len() == 0);
        }
        let v = poly_eval(p, x);
        lemma_basics(v, v);
    } else {
        let r = p.drop_first();
        let s1 = synthetic(r, z);
        lemma_synthetic(r, z, x);
        let rx = poly_eval(r, x);
        let rz = poly_eval(r, z);
        let tx = poly_eval(s1, x);
        crate::fft::lemma_poly_eval_wf(r, x);
        crate::fft::lemma_poly_eval_wf(r, z);
        crate::fft::lemma_poly_eval_wf(s1, x);
        lemma_basics(one, one);
        lemma_eval_lin(r, one, s1, z, r.len(), x);
        lemma_mul_comm(one, rx);
        lemma_basics(rx, rx);
        // x = z + (x - z)
        crate::field::lemma_add_comm(z, d);
        crate::field::lemma_sub_zero_iff(x, x);
        lemma_basics(x, z);
        lemma_basics(z, x);
        lemma_add_assoc(x, z.spec_neg(), z);
        lemma_add_comm(z.spec_neg(), z);
        lemma_basics(z, z);
        lemma_add_comm(z, z.spec_neg());
        lemma_basics(z, zero);
        assert(x == z.spec_add(d));
        lemma_synthetic_step(p[0], x, z, d, rx, rz, tx);
    }
}

} // verus!
