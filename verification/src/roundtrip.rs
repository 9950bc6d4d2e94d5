//! The transform and its inverse undo each other.
//!
//! Evaluating on the subgroup of `n`-th roots of unity and interpolating
//! back are inverse maps, because the character sums
//! `Σ_{i<n} (ω^a·ω^{-b})^i` are `n` for `a = b` and `0` otherwise. For a
//! power-of-two `n` the vanishing needs no division: the sum factors as
//! `Π_t (1 + x^{2^t})`, and one factor is `1 + (-1)`.
use vstd::prelude::*;

use crate::fft::{all_wf, dft, fpow, interpolated, inverse_root, log2, poly_eval, scaled, subgroup_root, subgroup_size};
use crate::field::{lemma_add_assoc, lemma_add_comm, lemma_basics, lemma_distrib, lemma_mul_assoc, lemma_mul_comm, TwoAdicField, ZkField};
use crate::fold::inverse_exact;
use crate::merkle::two_pow;

verus! {

/// `Σ_{k<n} f(k)`, added from the front.
pub open spec fn sum_of<F: ZkField>(n: nat, f: spec_fn(nat) -> F) -> F
    decreases n,
{
    if n == 0 {
        F::spec_zero()
    } else {
        sum_of((n - 1) as nat, f).spec_add(f((n - 1) as nat))
    }
}

/// The element `1 + 1 + ... + 1` with `n` terms.
pub open spec fn ones<F: ZkField>(n: nat) -> F {
    sum_of(n, |k: nat| F::spec_one())
}

proof fn lemma_sum_wf<F: ZkField>(n: nat, f: spec_fn(nat) -> F)
    ensures
        sum_of(n, f).wf(),
{
    lemma_basics(F::spec_zero(), F::spec_zero());
    if n > 0 {
        lemma_basics(sum_of((n - 1) as nat, f), f((n - 1) as nat));
    }
}

/// Sums of pointwise equal terms are equal.
pub(crate) proof fn lemma_sum_ext<F: ZkField>(n: nat, f: spec_fn(nat) -> F, g: spec_fn(nat) -> F)
    requires
        forall|k: nat| k < n ==> #[trigger] f(k) == g(k),
    ensures
        sum_of(n, f) == sum_of(n, g),
    decreases n,
{
    if n > 0 {
        lemma_sum_ext((n - 1) as nat, f, g);
    }
}

/// `Σ (f + g) = Σ f + Σ g`.
pub(crate) proof fn lemma_sum_add<F: ZkField>(n: nat, f: spec_fn(nat) -> F, g: spec_fn(nat) -> F)
    ensures
        sum_of(n, |k: nat| f(k).spec_add(g(k))) == sum_of(n, f).spec_add(sum_of(n, g)),
    decreases n,
{
    let h = |k: nat| f(k).spec_add(g(k));
    lemma_basics(F::spec_zero(), F::spec_zero());
    if n > 0 {
        let m = (n - 1) as nat;
        lemma_sum_add(m, f, g);
        let (a, b, c, d) = (sum_of(m, f), sum_of(m, g), f(m), g(m));
        // (a + b) + (c + d) = (a + c) + (b + d)
        lemma_add_assoc(a, b, c.spec_add(d));
        lemma_add_assoc(b, c, d);
        lemma_add_comm(b, c);
        lemma_add_assoc(c, b, d);
        lemma_add_assoc(a, c, b.spec_add(d));
        lemma_add_assoc(a.spec_add(c), b, d);
        lemma_add_assoc(a, c, b);
    }
}

/// `s · Σ f = Σ s·f`.
pub(crate) proof fn lemma_sum_scale<F: ZkField>(n: nat, s: F, f: spec_fn(nat) -> F)
    ensures
        s.spec_mul(sum_of(n, f)) == sum_of(n, |k: nat| s.spec_mul(f(k))),
    decreases n,
{
    lemma_basics(s, s);
    if n > 0 {
        let m = (n - 1) as nat;
        lemma_sum_scale(m, s, f);
        lemma_distrib(s, sum_of(m, f), f(m));
    }
}

/// Splitting off the first term: `Σ_{k<n} f(k) = f(0) + Σ_{k<n-1} g(k)`
/// where `g(k) = f(k+1)`.
proof fn lemma_sum_first<F: ZkField>(n: nat, f: spec_fn(nat) -> F, g: spec_fn(nat) -> F)
    requires
        n >= 1,
        f(0).wf(),
        forall|k: nat| k + 1 < n ==> #[trigger] g(k) == f(k + 1),
    ensures
        sum_of(n, f) == f(0).spec_add(sum_of((n - 1) as nat, g)),
    decreases n,
{
    lemma_basics(f(0), f(0));
    if n > 1 {
        let m = (n - 1) as nat;
        lemma_sum_first(m, f, g);
        assert(g((m - 1) as nat) == f(m));
        assert(sum_of(m, g) == sum_of((m - 1) as nat, g).spec_add(g((m - 1) as nat)));
        lemma_add_assoc(f(0), sum_of((m - 1) as nat, g), f(m));
    } else {
        assert(sum_of(0, f) == F::spec_zero());
        assert(sum_of(0, g) == F::spec_zero());
        lemma_basics(F::spec_zero(), f(0));
        lemma_add_comm(F::spec_zero(), f(0));
    }
}

/// Splitting in halves: `Σ_{k<2h} f(k) = Σ_{k<h} f(k) + Σ_{k<h} f(h+k)`.
proof fn lemma_sum_halves<F: ZkField>(h: nat, m: nat, f: spec_fn(nat) -> F)
    requires
        m <= h,
        sum_of(h, f).wf(),
    ensures
        sum_of(h + m, f) == sum_of(h, f).spec_add(sum_of(m, |k: nat| f(h + k))),
    decreases m,
{
    let g = |k: nat| f(h + k);
    if m == 0 {
        lemma_basics(sum_of(h, f), sum_of(h, f));
    } else {
        let m1 = (m - 1) as nat;
        lemma_sum_halves(h, m1, f);
        assert(g(m1) == f(h + m1));
        assert((h + m - 1) as nat == h + m1);
        lemma_add_assoc(sum_of(h, f), sum_of(m1, g), g(m1));
    }
}

/// Exchanging the order of a double sum.
proof fn lemma_sum_swap<F: ZkField>(n: nat, m: nat, f: spec_fn(nat, nat) -> F)
    ensures
        sum_of(n, |i: nat| sum_of(m, |k: nat| f(i, k))) == sum_of(m, |k: nat| sum_of(n, |i: nat| f(i, k))),
    decreases n,
{
    let rows = |i: nat| sum_of(m, |k: nat| f(i, k));
    let cols = |k: nat| sum_of(n, |i: nat| f(i, k));
    if n == 0 {
        assert forall|k: nat| k < m implies #[trigger] cols(k) == F::spec_zero() by {}
        lemma_sum_ext(m, cols, |k: nat| F::spec_zero());
        lemma_sum_zero::<F>(m);
    } else {
        let n1 = (n - 1) as nat;
        lemma_sum_swap(n1, m, f);
        let cols1 = |k: nat| sum_of(n1, |i: nat| f(i, k));
        let last = |k: nat| f(n1, k);
        assert(rows(n1) == sum_of(m, last)) by {
            lemma_sum_ext(m, |k: nat| f(n1, k), last);
        }
        lemma_sum_add(m, cols1, last);
        assert forall|k: nat| k < m implies #[trigger] cols(k) == cols1(k).spec_add(last(k)) by {}
        lemma_sum_ext(m, cols, |k: nat| cols1(k).spec_add(last(k)));
        assert(sum_of(n1, rows) == sum_of(m, cols1)) by {
            lemma_sum_ext(n1, rows, |i: nat| sum_of(m, |k: nat| f(i, k)));
        }
    }
}

/// A sum of zeros is zero.
proof fn lemma_sum_zero<F: ZkField>(n: nat)
    ensures
        sum_of(n, |k: nat| F::spec_zero()) == F::spec_zero(),
    decreases n,
{
    lemma_basics(F::spec_zero(), F::spec_zero());
    if n > 0 {
        lemma_sum_zero::<F>((n - 1) as nat);
    }
}

/// A sum whose terms vanish but at `j` is its `j`-th term.
proof fn lemma_sum_single<F: ZkField>(n: nat, f: spec_fn(nat) -> F, j: nat)
    requires
        j < n,
        f(j).wf(),
        forall|k: nat| k < n && k != j ==> #[trigger] f(k) == F::spec_zero(),
    ensures
        sum_of(n, f) == f(j),
    decreases n,
{
    let zero = F::spec_zero();
    lemma_basics(f(j), f(j));
    lemma_basics(zero, zero);
    let m = (n - 1) as nat;
    if j == m {
        assert forall|k: nat| k < m implies #[trigger] f(k) == zero by {}
        lemma_sum_ext(m, f, |k: nat| zero);
        lemma_sum_zero::<F>(m);
    } else {
        lemma_sum_single(m, f, j);
        assert(f(m) == zero);
    }
}


/// Horner evaluation is the sum `Σ_k c_k·x^k`.
pub proof fn lemma_eval_as_sum<F: ZkField>(c: Seq<F>, x: F)
    requires
        all_wf(c),
        x.wf(),
    ensures
        poly_eval(c, x) == sum_of(c.len(), |k: nat| c[k as int].spec_mul(fpow(x, k))),
    decreases c.len(),
{
    let f = |k: nat| c[k as int].spec_mul(fpow(x, k));
    if c.len() == 0 {
    } else {
        let rest = c.drop_first();
        let m = rest.len();
        lemma_eval_as_sum(rest, x);
        let h = |k: nat| rest[k as int].spec_mul(fpow(x, k));
        let g = |k: nat| x.spec_mul(h(k));
        assert forall|k: nat| k + 1 < c.len() implies #[trigger] g(k) == f(k + 1) by {
            let a = rest[k as int];
            let b = fpow(x, k);
            lemma_mul_comm(x, a.spec_mul(b));
            lemma_mul_assoc(a, b, x);
            assert(fpow(x, k + 1) == b.spec_mul(x));
        }
        assert(fpow(x, 0) == F::spec_one());
        lemma_basics(c[0], x);
        lemma_sum_first(c.len(), f, g);
        lemma_sum_scale(m, x, h);
        lemma_sum_ext(m, |k: nat| x.spec_mul(h(k)), g);
    }
}

/// `(-1)^e` is `1` for even `e` and `-1` for odd `e`.
proof fn lemma_neg_one_pow<F: ZkField>(e: nat)
    ensures
        fpow(F::spec_one().spec_neg(), e) == (if e % 2 == 0 {
            F::spec_one()
        } else {
            F::spec_one().spec_neg()
        }),
    decreases e,
{
    let one = F::spec_one();
    let m = one.spec_neg();
    lemma_basics(one, one);
    lemma_basics(m, one);
    if e > 0 {
        lemma_neg_one_pow::<F>((e - 1) as nat);
        lemma_mul_comm(one, m);
        crate::fft::lemma_neg_mul(one, m);
        crate::fft::lemma_neg_neg(one);
    }
}

/// The geometric sum `Σ_{i<n} x^i`.
pub open spec fn geom<F: ZkField>(x: F, n: nat) -> F {
    sum_of(n, |i: nat| fpow(x, i))
}

/// `Σ_{i<2h} x^i = Σ_{i<h} x^i + x^h·Σ_{i<h} x^i`.
proof fn lemma_geom_double<F: ZkField>(x: F, h: nat)
    requires
        x.wf(),
    ensures
        geom(x, 2 * h) == geom(x, h).spec_add(fpow(x, h).spec_mul(geom(x, h))),
{
    let p = |i: nat| fpow(x, i);
    lemma_sum_wf(h, p);
    lemma_sum_halves(h, h, p);
    assert(h + h == 2 * h);
    let xh = fpow(x, h);
    assert forall|k: nat| k < h implies #[trigger] fpow(x, h + k) == xh.spec_mul(p(k)) by {
        crate::fft::lemma_fpow_add(x, h, k);
    }
    lemma_sum_ext(h, |k: nat| p(h + k), |k: nat| xh.spec_mul(p(k)));
    lemma_sum_scale(h, xh, p);
}

/// For `w` of order `2^L` (`w^{2^{L-1}} = -1`) and `e` not a multiple of
/// `2^L`, the geometric sum of `w^e` over `2^L` terms vanishes.
proof fn lemma_orthogonal<F: ZkField>(w: F, big_l: nat, e: nat)
    requires
        big_l >= 1,
        w.wf(),
        fpow(w, two_pow((big_l - 1) as nat)) == F::spec_one().spec_neg(),
        e % two_pow(big_l) != 0,
    ensures
        geom(fpow(w, e), two_pow(big_l)) == F::spec_zero(),
    decreases big_l,
{
    let one = F::spec_one();
    let zero = F::spec_zero();
    let h = two_pow((big_l - 1) as nat);
    let x = fpow(w, e);
    crate::fft::lemma_fpow_wf(w, e);
    assert(two_pow(big_l) == 2 * h);
    lemma_geom_double(x, h);
    let s = geom(x, h);
    lemma_sum_wf(h, |i: nat| fpow(x, i));
    // x^h = (w^h)^e = (-1)^e
    crate::fft::lemma_fpow_mul(w, e, h);
    crate::fft::lemma_fpow_mul(w, h, e);
    assert(e * h == h * e) by (nonlinear_arith);
    lemma_neg_one_pow::<F>(e);
    lemma_basics(s, one);
    lemma_basics(one, s);
    if e % 2 == 1 {
        // s + (-1)·s = s + (-s) = 0
        crate::field::lemma_neg_is_times_minus_one(s);
        lemma_mul_comm(one.spec_neg(), s);
    } else {
        let e2 = e / 2;
        assert(e == 2 * e2);
        if big_l == 1 {
            assert(two_pow(1) == 2);
            assert(false);
        }
        let w2 = fpow(w, 2);
        crate::fft::lemma_fpow_wf(w, 2);
        crate::fft::lemma_fpow_mul(w, 2, two_pow((big_l - 2) as nat));
        assert(two_pow((big_l - 1) as nat) == 2 * two_pow((big_l - 2) as nat));
        crate::fft::lemma_two_pow_pos((big_l - 1) as nat);
        assert(e2 % two_pow((big_l - 1) as nat) != 0) by {
            if e2 % two_pow((big_l - 1) as nat) == 0 {
                let q = e2 / two_pow((big_l - 1) as nat);
                assert(e2 == two_pow((big_l - 1) as nat) * q) by (nonlinear_arith)
                    requires
                        e2 % two_pow((big_l - 1) as nat) == 0,
                        two_pow((big_l - 1) as nat) > 0,
                        q == e2 / two_pow((big_l - 1) as nat),
                ;
                assert(e == two_pow(big_l) * q) by (nonlinear_arith)
                    requires
                        e == 2 * e2,
                        e2 == two_pow((big_l - 1) as nat) * q,
                        two_pow(big_l) == 2 * two_pow((big_l - 1) as nat),
                ;
                vstd::arithmetic::div_mod::lemma_mod_multiples_basic(q as int, two_pow(big_l) as int);
                assert(false);
            }
        }
        crate::fft::lemma_two_pow_pos((big_l - 1) as nat);
        lemma_orthogonal(w2, (big_l - 1) as nat, e2);
        crate::fft::lemma_fpow_mul(w, 2, e2);
        assert(fpow(w2, e2) == x);
        lemma_basics(fpow(x, h), zero);
    }
}


/// For `w` of order `2^L` and `ρ = w⁻¹`, the character sum
/// `Σ_{i<2^L} (w^a·ρ^b)^i` is `2^L` (as `1 + ... + 1`) for `a = b` and `0`
/// otherwise.
proof fn lemma_char_sum<F: ZkField>(w: F, rho: F, big_l: nat, a: nat, b: nat)
    requires
        big_l >= 1,
        w.wf(),
        rho.wf(),
        w.spec_mul(rho) == F::spec_one(),
        fpow(w, two_pow((big_l - 1) as nat)) == F::spec_one().spec_neg(),
        a < two_pow(big_l),
        b < two_pow(big_l),
    ensures
        geom(fpow(w, a).spec_mul(fpow(rho, b)), two_pow(big_l)) == (if a == b {
            ones::<F>(two_pow(big_l))
        } else {
            F::spec_zero()
        }),
{
    let one = F::spec_one();
    let n = two_pow(big_l);
    let h = two_pow((big_l - 1) as nat);
    assert(n == 2 * h);
    crate::fft::lemma_two_pow_pos((big_l - 1) as nat);
    // w^n = (w^h)^2 = 1
    crate::fft::lemma_fpow_mul(w, h, 2);
    lemma_neg_one_pow::<F>(2);
    assert(h * 2 == n);
    // ρ = w^(n-1)
    let p = fpow(w, (n - 1) as nat);
    crate::fft::lemma_fpow_wf(w, (n - 1) as nat);
    assert(fpow(w, n) == p.spec_mul(w));
    lemma_basics(rho, one);
    lemma_basics(p, one);
    lemma_mul_comm(p, w);
    lemma_mul_assoc(rho, w, p);
    lemma_mul_comm(rho, w);
    lemma_mul_comm(one, p);
    assert(rho == p);
    if a == b {
        crate::fft::lemma_fpow_mul_base(w, rho, a);
        crate::fft::lemma_fpow_of_one::<F>(a);
        assert forall|i: nat| i < n implies #[trigger] fpow(one, i) == one by {
            crate::fft::lemma_fpow_of_one::<F>(i);
        }
        lemma_sum_ext(n, |i: nat| fpow(fpow(w, a).spec_mul(fpow(rho, b)), i), |i: nat| one);
    } else {
        crate::fft::lemma_fpow_mul(w, (n - 1) as nat, b);
        crate::fft::lemma_fpow_add(w, a, ((n - 1) * b) as nat);
        let e = (a + (n - 1) * b) as nat;
        assert(e % n != 0) by {
            if a > b {
                assert(e == b * n + (a - b)) by (nonlinear_arith)
                    requires
                        e == a + (n - 1) * b,
                ;
                vstd::arithmetic::div_mod::lemma_fundamental_div_mod_converse(e as int, n as int, b as int, (a - b) as int);
            } else {
                assert(e == (b - 1) * n + (n - (b - a))) by (nonlinear_arith)
                    requires
                        e == a + (n - 1) * b,
                        b >= 1,
                ;
                vstd::arithmetic::div_mod::lemma_fundamental_div_mod_converse(
                    e as int,
                    n as int,
                    (b - 1) as int,
                    (n - (b - a)) as int,
                );
            }
        }
        lemma_orthogonal(w, big_l, e);
    }
}

/// Interpolating the transform gives each coefficient back:
/// `n⁻¹·Σ_i (Σ_k c_k w^{ik})·ρ^{ij} = c_j`.
proof fn lemma_interpolate_transform<F: ZkField>(c: Seq<F>, w: F, rho: F, ninv: F, big_l: nat, j: nat)
    requires
        big_l >= 1,
        c.len() == two_pow(big_l),
        all_wf(c),
        w.wf(),
        rho.wf(),
        ninv.wf(),
        w.spec_mul(rho) == F::spec_one(),
        fpow(w, two_pow((big_l - 1) as nat)) == F::spec_one().spec_neg(),
        ones::<F>(two_pow(big_l)).spec_mul(ninv) == F::spec_one(),
        j < two_pow(big_l),
    ensures
        poly_eval(dft(c, w), fpow(rho, j)).spec_mul(ninv) == c[j as int],
{
    let n = two_pow(big_l);
    let zero = F::spec_zero();
    let x = fpow(rho, j);
    let d = dft(c, w);
    crate::fft::lemma_fpow_wf(rho, j);
    assert(all_wf(d)) by {
        assert forall|i: int| 0 <= i < d.len() implies (#[trigger] d[i]).wf() by {
            crate::fft::lemma_poly_eval_wf(c, fpow(w, i as nat));
        }
    }
    let y = |k: nat| fpow(w, k).spec_mul(x);
    let t = |i: nat, k: nat| c[k as int].spec_mul(fpow(y(k), i));
    let outer = |i: nat| d[i as int].spec_mul(fpow(x, i));
    lemma_eval_as_sum(d, x);
    // Each term of the outer sum is a row of the double sum.
    assert forall|i: nat| i < n implies #[trigger] outer(i) == sum_of(n, |k: nat| t(i, k)) by {
        let wi = fpow(w, i);
        crate::fft::lemma_fpow_wf(w, i);
        lemma_eval_as_sum(c, wi);
        let xi = fpow(x, i);
        crate::fft::lemma_fpow_wf(x, i);
        let inner = |k: nat| c[k as int].spec_mul(fpow(wi, k));
        lemma_sum_wf(n, inner);
        lemma_mul_comm(d[i as int], xi);
        lemma_sum_scale(n, xi, inner);
        assert forall|k: nat| k < n implies #[trigger] xi.spec_mul(inner(k)) == t(i, k) by {
            let ck = c[k as int];
            let wk = fpow(w, k);
            crate::fft::lemma_fpow_mul(w, i, k);
            crate::fft::lemma_fpow_mul(w, k, i);
            assert(i * k == k * i) by (nonlinear_arith);
            crate::fft::lemma_fpow_mul_base(wk, x, i);
            // xi·(ck·W) = ck·(W·xi)
            lemma_mul_comm(xi, ck.spec_mul(fpow(wi, k)));
            lemma_mul_assoc(ck, fpow(wi, k), xi);
        }
        lemma_sum_ext(n, |k: nat| xi.spec_mul(inner(k)), |k: nat| t(i, k));
    }
    lemma_sum_ext(n, outer, |i: nat| sum_of(n, |k: nat| t(i, k)));
    lemma_sum_swap(n, n, t);
    // Each column is `c_k` times a character sum.
    let col = |k: nat| sum_of(n, |i: nat| t(i, k));
    let cj = c[j as int];
    lemma_basics(cj, zero);
    assert forall|k: nat| k < n implies #[trigger] col(k) == (if k == j {
        cj.spec_mul(ones::<F>(n))
    } else {
        zero
    }) by {
        let ck = c[k as int];
        let yk = fpow(w, k).spec_mul(fpow(rho, j));
        let g = |i: nat| fpow(yk, i);
        assert(yk == y(k));
        lemma_sum_scale(n, ck, g);
        lemma_sum_ext(n, |i: nat| t(i, k), |i: nat| ck.spec_mul(g(i)));
        assert(col(k) == sum_of(n, |i: nat| t(i, k)));
        lemma_char_sum(w, rho, big_l, k, j);
        lemma_sum_ext(n, g, |i: nat| fpow(yk, i));
        assert(geom(yk, n) == sum_of(n, g));
        lemma_basics(ck, zero);
    }
    lemma_sum_wf(n, |i: nat| F::spec_one());
    lemma_basics(cj, ones::<F>(n));
    lemma_sum_single(n, col, j);
    lemma_mul_assoc(cj, ones::<F>(n), ninv);
    lemma_basics(cj, cj);
}


/// What the transform of size `n` needs of the field to be invertible: the
/// root of order `n` and `n` itself have exact inverses, and `n` as an
/// element is `1 + ... + 1`.
pub open spec fn ntt_invertible<F: TwoAdicField>(n: nat) -> bool {
    &&& inverse_exact(subgroup_root::<F>(n))
    &&& inverse_exact(F::spec_from_u64(n as u64))
    &&& F::spec_from_u64(n as u64) == ones::<F>(n)
}

/// Scaling every coefficient scales the value: `Σ (P_k·s)·z^k = (Σ P_k·z^k)·s`.
proof fn lemma_eval_scaled_coefficients<F: ZkField>(p: Seq<F>, q: Seq<F>, s: F, z: F)
    requires
        all_wf(p),
        s.wf(),
        z.wf(),
        q.len() == p.len(),
        forall|k: int| 0 <= k < p.len() ==> #[trigger] q[k] == p[k].spec_mul(s),
    ensures
        poly_eval(q, z) == poly_eval(p, z).spec_mul(s),
{
    assert(all_wf(q)) by {
        assert forall|k: int| 0 <= k < q.len() implies (#[trigger] q[k]).wf() by {
            lemma_basics(p[k], s);
        }
    }
    lemma_eval_as_sum(p, z);
    lemma_eval_as_sum(q, z);
    let fp = |k: nat| p[k as int].spec_mul(fpow(z, k));
    lemma_sum_wf(p.len(), fp);
    lemma_mul_comm(sum_of(p.len(), fp), s);
    lemma_sum_scale(p.len(), s, fp);
    assert forall|k: nat| k < p.len() implies #[trigger] q[k as int].spec_mul(fpow(z, k)) == s.spec_mul(fp(k)) by {
        lemma_mul_comm(p[k as int], s);
        lemma_mul_assoc(s, p[k as int], fpow(z, k));
    }
    lemma_sum_ext(p.len(), |k: nat| q[k as int].spec_mul(fpow(z, k)), |k: nat| s.spec_mul(fp(k)));
}

/// The facts about the root of order `n` and its inverse the round trips use.
proof fn lemma_root_facts<F: TwoAdicField>(n: nat)
    requires
        subgroup_size::<F>(n),
        n >= 2,
        n <= usize::MAX,
        ntt_invertible::<F>(n),
    ensures
        log2(n) >= 1,
        two_pow(log2(n)) == n,
        subgroup_root::<F>(n).wf(),
        inverse_root::<F>(n).wf(),
        fpow(subgroup_root::<F>(n), two_pow((log2(n) - 1) as nat)) == F::spec_one().spec_neg(),
        subgroup_root::<F>(n).spec_mul(inverse_root::<F>(n)) == F::spec_one(),
        (F::spec_from_u64(n as u64).spec_inverse()->0).wf(),
        ones::<F>(n).spec_mul(F::spec_from_u64(n as u64).spec_inverse()->0) == F::spec_one(),
{
    let big_l = log2(n);
    crate::fft::lemma_log2_small(n);
    if big_l == 0 {
        assert(two_pow(0) == 1);
    }
    assert((big_l as u32) as nat == big_l);
    F::lemma_generator_primitive(big_l as u32);
    F::lemma_inverse_wf(subgroup_root::<F>(n));
    F::lemma_inverse_wf(F::spec_from_u64(n as u64));
}

/// The inverse transform undoes the transform: interpolating the values of a
/// polynomial with `n` coefficients on the `n`-th roots of unity gives the
/// coefficients back.
pub proof fn law_intt_undoes_ntt<F: TwoAdicField>(c: Seq<F>)
    requires
        subgroup_size::<F>(c.len()),
        c.len() <= usize::MAX,
        all_wf(c),
        ntt_invertible::<F>(c.len()),
    ensures
        interpolated(dft(c, subgroup_root::<F>(c.len()))) == c,
{
    let n = c.len();
    let w = subgroup_root::<F>(n);
    let d = dft(c, w);
    if n <= 1 {
        if n == 0 {
            assert(two_pow(0) == 1);
        }
        reveal_with_fuel(poly_eval, 2);
        lemma_basics(F::spec_one(), F::spec_zero());
        lemma_basics(c[0], c[0]);
        assert(d =~= c);
    } else {
        lemma_root_facts::<F>(n);
        let ninv = F::spec_from_u64(n as u64).spec_inverse()->0;
        assert forall|j: int| 0 <= j < n implies #[trigger] interpolated(d)[j] == c[j] by {
            lemma_interpolate_transform(c, w, inverse_root::<F>(n), ninv, log2(n), j as nat);
        }
        assert(interpolated(d) =~= c);
    }
}

/// The transform undoes the inverse transform: the polynomial interpolating
/// `n` values on the `n`-th roots of unity takes those values there.
pub proof fn law_ntt_undoes_intt<F: TwoAdicField>(v: Seq<F>)
    requires
        subgroup_size::<F>(v.len()),
        v.len() <= usize::MAX,
        all_wf(v),
        ntt_invertible::<F>(v.len()),
    ensures
        dft(interpolated(v), subgroup_root::<F>(v.len())) == v,
{
    let n = v.len();
    let w = subgroup_root::<F>(n);
    if n <= 1 {
        if n == 0 {
            assert(two_pow(0) == 1);
        }
        reveal_with_fuel(poly_eval, 2);
        lemma_basics(F::spec_one(), F::spec_zero());
        lemma_basics(v[0], v[0]);
        assert(dft(interpolated(v), w) =~= v);
    } else {
        lemma_root_facts::<F>(n);
        crate::fft::lemma_inverse_is_primitive::<F>(n);
        let rho = inverse_root::<F>(n);
        let ninv = F::spec_from_u64(n as u64).spec_inverse()->0;
        let p = dft(v, rho);
        let q = interpolated(v);
        assert(all_wf(p)) by {
            assert forall|k: int| 0 <= k < p.len() implies (#[trigger] p[k]).wf() by {
                crate::fft::lemma_poly_eval_wf(v, fpow(rho, k as nat));
            }
        }
        lemma_mul_comm(w, rho);
        assert forall|j: int| 0 <= j < n implies #[trigger] dft(q, w)[j] == v[j] by {
            crate::fft::lemma_fpow_wf(w, j as nat);
            lemma_eval_scaled_coefficients(p, q, ninv, fpow(w, j as nat));
            lemma_interpolate_transform(v, rho, w, ninv, log2(n), j as nat);
        }
        assert(dft(q, w) =~= v);
    }
}


/// The coefficients `coset_interpolate` returns for `values` and `shift`.
pub open spec fn coset_coefficients<F: TwoAdicField>(values: Seq<F>, shift: F) -> Seq<F> {
    Seq::new(values.len(), |i: int| interpolated(values)[i].spec_mul(fpow(shift.spec_inverse()->0, i as nat)))
}

/// The values `coset_evaluate` returns for `coefficients` on the coset
/// `shift·H` of size `size`.
pub open spec fn coset_values<F: TwoAdicField>(coefficients: Seq<F>, shift: F, size: nat) -> Seq<F> {
    Seq::new(size, |j: int| poly_eval(coefficients, shift.spec_mul(fpow(subgroup_root::<F>(size), j as nat))))
}

pub(crate) proof fn lemma_interpolated_wf<F: TwoAdicField>(values: Seq<F>)
    requires
        all_wf(values),
    ensures
        all_wf(interpolated(values)),
        interpolated(values).len() == values.len(),
{
    assert forall|k: int| 0 <= k < interpolated(values).len() implies (#[trigger] interpolated(values)[k]).wf() by {
        if values.len() > 1 {
            lemma_basics(
                poly_eval(values, fpow(inverse_root::<F>(values.len()), k as nat)),
                F::spec_from_u64(values.len() as u64).spec_inverse()->0,
            );
        }
    }
}

/// Evaluating on a coset undoes interpolating on it: the polynomial
/// `coset_interpolate` finds for `values` takes those values on the coset.
pub proof fn law_coset_evaluate_undoes_coset_interpolate<F: TwoAdicField>(values: Seq<F>, shift: F)
    requires
        subgroup_size::<F>(values.len()),
        values.len() <= usize::MAX,
        all_wf(values),
        shift.wf(),
        inverse_exact(shift),
        ntt_invertible::<F>(values.len()),
    ensures
        coset_values(coset_coefficients(values, shift), shift, values.len()) == values,
{
    let n = values.len();
    let one = F::spec_one();
    let sinv = shift.spec_inverse()->0;
    let w = subgroup_root::<F>(n);
    let interp = interpolated(values);
    F::lemma_inverse_wf(shift);
    law_ntt_undoes_intt(values);
    lemma_interpolated_wf(values);
    let coeffs = coset_coefficients(values, shift);
    assert(coeffs =~= scaled(interp, sinv));
    assert forall|j: int| 0 <= j < n implies #[trigger] coset_values(coeffs, shift, n)[j] == values[j] by {
        let wj = fpow(w, j as nat);
        crate::fft::lemma_fpow_wf(w, j as nat);
        let x = shift.spec_mul(wj);
        lemma_basics(shift, wj);
        crate::fft::lemma_eval_scaled(interp, sinv, x);
        lemma_mul_assoc(sinv, shift, wj);
        lemma_mul_comm(sinv, shift);
        lemma_mul_comm(one, wj);
        lemma_basics(wj, wj);
        assert(dft(interp, w)[j] == poly_eval(interp, wj));
    }
    assert(coset_values(coeffs, shift, n) =~= values);
}

/// Interpolating on a coset undoes evaluating on it: the coefficients come
/// back, padded with zeros to the coset's size.
pub proof fn law_coset_interpolate_undoes_coset_evaluate<F: TwoAdicField>(c: Seq<F>, shift: F, size: nat)
    requires
        subgroup_size::<F>(size),
        size <= usize::MAX,
        c.len() <= size,
        all_wf(c),
        shift.wf(),
        inverse_exact(shift),
        ntt_invertible::<F>(size),
    ensures
        coset_coefficients(coset_values(c, shift, size), shift) == c + Seq::new(
            (size - c.len()) as nat,
            |i: int| F::spec_zero(),
        ),
{
    let one = F::spec_one();
    let zero = F::spec_zero();
    let sinv = shift.spec_inverse()->0;
    let w = subgroup_root::<F>(size);
    let padded = c + Seq::new((size - c.len()) as nat, |i: int| F::spec_zero());
    lemma_basics(zero, zero);
    assert(all_wf(padded)) by {
        assert forall|i: int| 0 <= i < padded.len() implies (#[trigger] padded[i]).wf() by {
            if i >= c.len() {
                assert(padded[i] == zero);
            }
        }
    }
    let sc = scaled(padded, shift);
    assert(all_wf(sc)) by {
        assert forall|i: int| 0 <= i < sc.len() implies (#[trigger] sc[i]).wf() by {
            lemma_basics(padded[i], fpow(shift, i as nat));
        }
    }
    let vals = coset_values(c, shift, size);
    assert forall|j: int| 0 <= j < size implies #[trigger] vals[j] == dft(sc, w)[j] by {
        let wj = fpow(w, j as nat);
        crate::fft::lemma_fpow_wf(w, j as nat);
        crate::fft::lemma_eval_padded(c, (size - c.len()) as nat, shift.spec_mul(wj));
        crate::fft::lemma_eval_scaled(padded, shift, wj);
    }
    assert(vals =~= dft(sc, w));
    law_intt_undoes_ntt(sc);
    F::lemma_inverse_wf(shift);
    let out = coset_coefficients(vals, shift);
    assert forall|i: int| 0 <= i < size implies #[trigger] out[i] == padded[i] by {
        let si = fpow(shift, i as nat);
        let ti = fpow(sinv, i as nat);
        crate::fft::lemma_fpow_mul_base(shift, sinv, i as nat);
        crate::fft::lemma_fpow_of_one::<F>(i as nat);
        lemma_mul_assoc(padded[i], si, ti);
        lemma_basics(padded[i], one);
    }
    assert(out =~= padded);
}

} // verus!
