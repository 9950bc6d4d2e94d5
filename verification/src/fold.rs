//! Why an honest FRI run ends on a constant codeword.
//!
//! Folding the evaluations of `P(x) = E(x²) + x·O(x²)` at `x` and `-x` with
//! challenge `α` gives `E(x²) + α·O(x²)`: the evaluations, on the squared
//! coset, of a polynomial with half as many coefficients. A polynomial with at
//! most `degree_bound` coefficients is down to a single coefficient after
//! `log2(degree_bound)` folds, and its codeword is constant.
//!
//! The algebra needs the field's inverses to be inverses — `2·2⁻¹ = 1` and
//! `x·x⁻¹ = 1` at every point a fold divides by — which is what
//! [`fold_inverses_exact`] states.
use vstd::prelude::*;

use crate::air::lemma_log2_of_two_pow;
use crate::fft::{
    all_wf, fpow, lemma_eval_padded, lemma_fpow_add, lemma_fpow_mul, lemma_fpow_square, lemma_fpow_wf, lemma_neg_mul,
    lemma_log2_small, lemma_neg_neg, lemma_poly_eval_wf, lemma_poly_split, lemma_two_pow_add, lemma_two_pow_pos, log2,
    poly_eval, strided, subgroup_root, subgroup_size,
};
use crate::field::{
    lemma_add_assoc, lemma_add_comm, lemma_basics, lemma_distrib, lemma_mul_assoc, lemma_mul_comm,
    lemma_neg_is_times_minus_one, TwoAdicField, ZkField,
};
use crate::fri::{fold_seq, fold_value, fri_accepts, fri_alphas, fri_layer, honest_fri, law_honest_proof_accepted, round_shift};
use crate::hash::Hasher;
use crate::merkle::two_pow;

verus! {

/// `2` is `1 + 1`, and its inverse is one.
pub open spec fn two_inverse_exact<F: ZkField>() -> bool {
    let two = F::spec_from_u64(2);
    &&& two == F::spec_one().spec_add(F::spec_one())
    &&& two.spec_inverse() is Some
    &&& two.spec_mul(two.spec_inverse()->0) == F::spec_one()
}

/// `x` has an inverse, and it is one.
pub open spec fn inverse_exact<F: ZkField>(x: F) -> bool {
    &&& x.spec_inverse() is Some
    &&& x.spec_mul(x.spec_inverse()->0) == F::spec_one()
}

/// Every canonical nonzero element's inverse is exact: `x·x⁻¹ = 1`.
pub open spec fn field_inverses_exact<F: ZkField>() -> bool {
    forall|x: F| x.wf() && x != F::spec_zero() ==> #[trigger] inverse_exact(x)
}

/// `(A + B) + (C + D) = (A + C) + (B + D)`.
proof fn lemma_add_swap_middle<F: ZkField>(a: F, b: F, c: F, d: F)
    ensures
        a.spec_add(b).spec_add(c.spec_add(d)) == a.spec_add(c).spec_add(b.spec_add(d)),
{
    lemma_add_assoc(a, b, c.spec_add(d));
    lemma_add_assoc(b, c, d);
    lemma_add_comm(b, c);
    lemma_add_assoc(c, b, d);
    lemma_add_assoc(a, c, b.spec_add(d));
}

/// `-(a + b) = -a + -b`.
proof fn lemma_neg_add<F: ZkField>(a: F, b: F)
    requires
        a.wf(),
        b.wf(),
    ensures
        a.spec_add(b).spec_neg() == a.spec_neg().spec_add(b.spec_neg()),
{
    let m = F::spec_one().spec_neg();
    lemma_basics(a, b);
    lemma_neg_is_times_minus_one(a.spec_add(b));
    lemma_neg_is_times_minus_one(a);
    lemma_neg_is_times_minus_one(b);
    lemma_mul_comm(a.spec_add(b), m);
    lemma_distrib(m, a, b);
    lemma_mul_comm(m, a);
    lemma_mul_comm(m, b);
}

/// `(a + t) + (a + -t) = a + a`.
proof fn lemma_cancel_pair<F: ZkField>(a: F, t: F)
    requires
        a.wf(),
        t.wf(),
    ensures
        a.spec_add(t).spec_add(a.spec_add(t.spec_neg())) == a.spec_add(a),
{
    lemma_basics(a, t);
    lemma_basics(t, a);
    lemma_basics(a, a);
    lemma_basics(a.spec_add(a), t);
    lemma_add_swap_middle(a, t, a, t.spec_neg());
}

/// `(a + a)·2⁻¹ = a`.
proof fn lemma_halve<F: ZkField>(a: F)
    requires
        a.wf(),
        two_inverse_exact::<F>(),
    ensures
        a.spec_add(a).spec_mul(F::spec_from_u64(2).spec_inverse()->0) == a,
{
    let one = F::spec_one();
    let two = F::spec_from_u64(2);
    let inv = two.spec_inverse()->0;
    lemma_basics(a, one);
    lemma_distrib(a, one, one);
    lemma_mul_assoc(a, two, inv);
}

/// Folding `(E + x·O, E - x·O)` at `x` with `α` gives `E + α·O`.
pub proof fn lemma_fold_even_odd<F: ZkField>(e: F, o: F, x: F, alpha: F)
    requires
        e.wf(),
        o.wf(),
        x.wf(),
        two_inverse_exact::<F>(),
        inverse_exact(x),
    ensures
        fold_value(e.spec_add(x.spec_mul(o)), e.spec_add(x.spec_mul(o).spec_neg()), x, alpha) == e.spec_add(
            alpha.spec_mul(o),
        ),
{
    let t = x.spec_mul(o);
    let lo = e.spec_add(t);
    let hi = e.spec_add(t.spec_neg());
    let inv2 = F::spec_from_u64(2).spec_inverse()->0;
    let invx = x.spec_inverse()->0;
    lemma_basics(x, o);
    lemma_basics(e, t);
    lemma_basics(t, e);
    // The sum is `e + e`, so its half is `e`.
    lemma_cancel_pair(e, t);
    lemma_halve(e);
    // The difference is `t + t`, so its half is `t`, and `t·x⁻¹ = o`.
    lemma_neg_add(e, t.spec_neg());
    lemma_neg_neg(t);
    lemma_basics(e.spec_neg(), t);
    lemma_add_comm(e.spec_neg(), t);
    lemma_add_comm(e, t);
    lemma_basics(lo, hi);
    assert(lo.spec_sub(hi) == t.spec_add(e).spec_add(t.spec_add(e.spec_neg())));
    lemma_cancel_pair(t, e);
    lemma_halve(t);
    F::lemma_inverse_wf(x);
    lemma_mul_comm(x, o);
    lemma_mul_assoc(o, x, invx);
    lemma_basics(o, x);
    assert(t.spec_mul(invx) == o);
}

/// Evaluation is linear in the coefficients: `(a + α·b)(y) = a(y) + α·b(y)`.
pub proof fn lemma_poly_lincomb<F: ZkField>(a: Seq<F>, b: Seq<F>, alpha: F, y: F)
    requires
        a.len() == b.len(),
        all_wf(a),
        all_wf(b),
        y.wf(),
    ensures
        poly_eval(Seq::new(a.len(), |i: int| a[i].spec_add(alpha.spec_mul(b[i]))), y) == poly_eval(a, y).spec_add(
            alpha.spec_mul(poly_eval(b, y)),
        ),
    decreases a.len(),
{
    let c = Seq::new(a.len(), |i: int| a[i].spec_add(alpha.spec_mul(b[i])));
    let zero = F::spec_zero();
    lemma_basics(alpha, zero);
    lemma_basics(zero, zero);
    if a.len() > 0 {
        let a1 = a.drop_first();
        let b1 = b.drop_first();
        assert(c.drop_first() =~= Seq::new(a1.len(), |i: int| a1[i].spec_add(alpha.spec_mul(b1[i]))));
        lemma_poly_lincomb(a1, b1, alpha, y);
        let pa = poly_eval(a1, y);
        let pb = poly_eval(b1, y);
        lemma_poly_eval_wf(a1, y);
        lemma_poly_eval_wf(b1, y);
        let (a0, b0) = (a[0], b[0]);
        assert(a0.wf() && b0.wf());
        // y·(pa + α·pb) = y·pa + α·(y·pb)
        lemma_distrib(y, pa, alpha.spec_mul(pb));
        lemma_mul_assoc(y, alpha, pb);
        lemma_mul_comm(y, alpha);
        lemma_mul_assoc(alpha, y, pb);
        // α·(b0 + y·pb) = α·b0 + α·(y·pb)
        lemma_distrib(alpha, b0, y.spec_mul(pb));
        lemma_add_swap_middle(a0, alpha.spec_mul(b0), y.spec_mul(pa), alpha.spec_mul(y.spec_mul(pb)));
    }
}

/// The coefficients after one fold: `c[2i] + α·c[2i+1]`.
pub open spec fn fold_coeffs<F: ZkField>(c: Seq<F>, alpha: F) -> Seq<F> {
    Seq::new(c.len() / 2, |i: int| c[2 * i].spec_add(alpha.spec_mul(c[2 * i + 1])))
}

/// At `-x`: `P(-x) = E(x²) - x·O(x²)`.
proof fn lemma_poly_at_neg<F: ZkField>(s: Seq<F>, x: F, h: nat)
    requires
        s.len() == 2 * h,
        all_wf(s),
        x.wf(),
    ensures
        poly_eval(s, x.spec_neg()) == poly_eval(strided(s, 0, 2, h), x.spec_mul(x)).spec_add(
            x.spec_mul(poly_eval(strided(s, 1, 2, h), x.spec_mul(x))).spec_neg(),
        ),
{
    let n = x.spec_neg();
    lemma_basics(x, x);
    lemma_poly_split(s, n, h);
    // (-x)·(-x) = -(x·(-x)) = -((-x)·x) = -(-(x·x)) = x·x
    lemma_neg_mul(x, n);
    lemma_mul_comm(x, n);
    lemma_neg_mul(x, x);
    lemma_neg_neg(x.spec_mul(x));
    let o = poly_eval(strided(s, 1, 2, h), x.spec_mul(x));
    lemma_poly_eval_wf(strided(s, 1, 2, h), x.spec_mul(x));
    lemma_neg_mul(x, o);
}

/// One fold of the pair `(P(x), P(-x))` is the folded polynomial at `x²`.
pub proof fn lemma_fold_pair<F: ZkField>(c: Seq<F>, h: nat, x: F, alpha: F)
    requires
        c.len() == 2 * h,
        all_wf(c),
        x.wf(),
        two_inverse_exact::<F>(),
        inverse_exact(x),
    ensures
        fold_value(poly_eval(c, x), poly_eval(c, x.spec_neg()), x, alpha) == poly_eval(
            fold_coeffs(c, alpha),
            x.spec_mul(x),
        ),
        all_wf(fold_coeffs(c, alpha)),
        fold_coeffs(c, alpha).len() == h,
{
    let xx = x.spec_mul(x);
    let ev = strided(c, 0, 2, h);
    let od = strided(c, 1, 2, h);
    lemma_basics(x, x);
    lemma_poly_split(c, x, h);
    lemma_poly_at_neg(c, x, h);
    lemma_poly_eval_wf(ev, xx);
    lemma_poly_eval_wf(od, xx);
    lemma_fold_even_odd(poly_eval(ev, xx), poly_eval(od, xx), x, alpha);
    assert forall|i: int| 0 <= i < h implies (#[trigger] ev[i]).wf() && od[i].wf() by {
        assert(ev[i] == c[2 * i]);
        assert(od[i] == c[2 * i + 1]);
    }
    lemma_poly_lincomb(ev, od, alpha, xx);
    assert(fold_coeffs(c, alpha) =~= Seq::new(ev.len(), |i: int| ev[i].spec_add(alpha.spec_mul(od[i]))));
    assert forall|i: int| 0 <= i < h implies (#[trigger] fold_coeffs(c, alpha)[i]).wf() by {
        lemma_basics(alpha, c[2 * i + 1]);
        lemma_basics(c[2 * i], alpha.spec_mul(c[2 * i + 1]));
    }
}

/// The coefficients after the first `r` folds, with the challenges in order.
pub open spec fn folded<F: ZkField>(c: Seq<F>, alphas: Seq<F>, r: nat) -> Seq<F>
    decreases r,
{
    if r == 0 {
        c
    } else {
        fold_coeffs(folded(c, alphas, (r - 1) as nat), alphas[r - 1])
    }
}

/// The point round `r` of a FRI run over the size-`domain` coset folds at,
/// for position `j`: the round's shift times the `j`-th power of its
/// subgroup's generator.
pub open spec fn fold_point<F: TwoAdicField>(domain: nat, r: nat, j: nat) -> F {
    round_shift::<F>(r).spec_mul(fpow(subgroup_root::<F>(domain / two_pow(r)), j))
}

/// Every inverse the first `rounds` folds of a size-`domain` run take is
/// exact: that of `2`, and that of each point a fold divides by.
pub open spec fn fold_inverses_exact<F: TwoAdicField>(domain: nat, rounds: nat) -> bool {
    &&& two_inverse_exact::<F>()
    &&& forall|r: nat, j: nat|
        r < rounds && j < domain / two_pow(r) / 2 ==> inverse_exact(#[trigger] fold_point::<F>(domain, r, j))
}

/// `(s·a)·(s·a) = (s·s)·(a·a)`.
proof fn lemma_mul_square_pair<F: ZkField>(s: F, a: F)
    ensures
        s.spec_mul(a).spec_mul(s.spec_mul(a)) == s.spec_mul(s).spec_mul(a.spec_mul(a)),
{
    lemma_mul_assoc(s, a, s.spec_mul(a));
    lemma_mul_assoc(a, s, a);
    lemma_mul_comm(a, s);
    lemma_mul_assoc(s, a, a);
    lemma_mul_assoc(s, s, a.spec_mul(a));
}

/// `b^2 = b·b`.
proof fn lemma_fpow_two<F: ZkField>(b: F)
    requires
        b.wf(),
    ensures
        fpow(b, 2) == b.spec_mul(b),
{
    reveal_with_fuel(fpow, 3);
    lemma_basics(b, b);
    lemma_mul_comm(F::spec_one(), b);
}

/// `2^a / 2^r = 2^(a-r)` and `2^a = 2·2^(a-1)`.
proof fn lemma_two_pow_facts(a: nat, r: nat)
    requires
        r <= a,
    ensures
        two_pow(a) / two_pow(r) == two_pow((a - r) as nat),
        two_pow(r) >= 1,
{
    lemma_two_pow_add(r, (a - r) as nat);
    lemma_two_pow_pos(r);
    vstd::arithmetic::div_mod::lemma_div_multiples_vanish(two_pow((a - r) as nat) as int, two_pow(r) as int);
}

/// The codeword of FRI round `r` is the `r`-times folded polynomial
/// evaluated on the round's coset.
proof fn lemma_layer_is_folded<F: TwoAdicField>(coeffs: Seq<F>, e: nat, lb: nat, alphas: Seq<F>, r: nat)
    requires
        r <= e,
        e + lb <= F::spec_two_adicity(),
        e + lb < 64,
        coeffs.len() <= two_pow(e),
        all_wf(coeffs),
        alphas.len() >= e,
        fold_inverses_exact::<F>(two_pow(e + lb), e),
    ensures
        ({
            let c = coeffs + Seq::new((two_pow(e) - coeffs.len()) as nat, |i: int| F::spec_zero());
            let domain = two_pow(e + lb);
            &&& fri_layer(coeffs, domain, alphas, r).len() == two_pow((e + lb - r) as nat)
            &&& folded(c, alphas, r).len() == two_pow((e - r) as nat)
            &&& all_wf(folded(c, alphas, r))
            &&& forall|j: nat| #![trigger fri_layer(coeffs, domain, alphas, r)[j as int]]
                j < two_pow((e + lb - r) as nat) ==> fri_layer(coeffs, domain, alphas, r)[j as int] == poly_eval(
                    folded(c, alphas, r),
                    fold_point::<F>(domain, r, j),
                )
        }),
    decreases r,
{
    let zeros = Seq::new((two_pow(e) - coeffs.len()) as nat, |i: int| F::spec_zero());
    let c = coeffs + zeros;
    let domain = two_pow(e + lb);
    let seven = F::spec_from_u64(7);
    F::lemma_from_u64_wf(7);
    lemma_basics(seven, seven);
    if r == 0 {
        assert(two_pow(0) == 1);
        assert(domain / 1 == domain);
        assert forall|i: int| 0 <= i < c.len() implies (#[trigger] c[i]).wf() by {
            if i >= coeffs.len() {
                assert(c[i] == zeros[i - coeffs.len()]);
            }
        }
        // round_shift(0) = 7^1 = 7
        reveal_with_fuel(fpow, 2);
        lemma_mul_comm(F::spec_one(), seven);
        assert forall|j: nat| #![trigger fri_layer(coeffs, domain, alphas, 0)[j as int]]
            j < two_pow((e + lb) as nat) implies fri_layer(coeffs, domain, alphas, 0)[j as int] == poly_eval(
                c,
                fold_point::<F>(domain, 0, j),
            ) by {
            let x = seven.spec_mul(fpow(subgroup_root::<F>(domain), j));
            lemma_basics(seven, fpow(subgroup_root::<F>(domain), j));
            lemma_eval_padded(coeffs, (two_pow(e) - coeffs.len()) as nat, x);
        }
    } else {
        let r1 = (r - 1) as nat;
        lemma_layer_is_folded(coeffs, e, lb, alphas, r1);
        let k = (e + lb - r1) as nat;
        let m = two_pow(k);
        let half = two_pow((k - 1) as nat);
        assert(m == 2 * half);
        let layer = fri_layer(coeffs, domain, alphas, r1);
        let p = folded(c, alphas, r1);
        let h = two_pow((e - r) as nat);
        assert(two_pow((e - r1) as nat) == 2 * h);
        let alpha = alphas[r1 as int];
        let s = round_shift::<F>(r1);
        lemma_fpow_wf(seven, two_pow(r1));
        // This round's domain and subgroup.
        lemma_two_pow_facts(e + lb, r1);
        lemma_two_pow_facts(e + lb, r);
        assert(domain / two_pow(r1) == m);
        assert(domain / two_pow(r) == half);
        lemma_log2_of_two_pow(k);
        lemma_log2_of_two_pow((k - 1) as nat);
        let g = subgroup_root::<F>(m);
        F::lemma_generator_primitive(k as u32);
        F::lemma_generator_square(k as u32);
        assert(g == F::spec_two_adic_generator(k as u32));
        assert(subgroup_root::<F>(half) == g.spec_mul(g));
        // The shift squares too: 7^(2^r) = (7^(2^(r-1)))^2.
        lemma_fpow_mul(seven, two_pow(r1), 2);
        lemma_fpow_two(s);
        assert(round_shift::<F>(r) == s.spec_mul(s));
        assert(fri_layer(coeffs, domain, alphas, r) == fold_seq(layer, s, alpha));
        lemma_fold_pair_facts(p, h, alpha);
        assert forall|j: nat| #![trigger fri_layer(coeffs, domain, alphas, r)[j as int]]
            j < half implies fri_layer(coeffs, domain, alphas, r)[j as int] == poly_eval(
                folded(c, alphas, r),
                fold_point::<F>(domain, r, j),
            ) by {
            let gj = fpow(g, j);
            let x = s.spec_mul(gj);
            lemma_fpow_wf(g, j);
            lemma_basics(s, gj);
            assert(x == fold_point::<F>(domain, r1, j));
            assert(inverse_exact(fold_point::<F>(domain, r1, j)));
            // The partner position holds the value at -x.
            lemma_fpow_add(g, j, half);
            lemma_neg_is_times_minus_one(gj);
            lemma_mul_assoc(s, gj, F::spec_one().spec_neg());
            lemma_neg_is_times_minus_one(x);
            assert(fold_point::<F>(domain, r1, j + half) == x.spec_neg());
            assert(layer[j as int] == poly_eval(p, x));
            assert(layer[(j + half) as int] == poly_eval(p, fold_point::<F>(domain, r1, j + half)));
            lemma_fold_pair(p, h, x, alpha);
            // x² is this round's point: (s·g^j)² = s²·(g²)^j.
            lemma_mul_square_pair(s, gj);
            lemma_fpow_square(g, j);
            lemma_fpow_add(g, j, j);
            assert(2 * j == j + j);
        }
    }
}

/// The facts about one fold of the coefficients that do not depend on the
/// point: its length and canonical entries.
proof fn lemma_fold_pair_facts<F: ZkField>(c: Seq<F>, h: nat, alpha: F)
    requires
        c.len() == 2 * h,
        all_wf(c),
    ensures
        fold_coeffs(c, alpha).len() == h,
        all_wf(fold_coeffs(c, alpha)),
{
    assert forall|i: int| 0 <= i < h implies (#[trigger] fold_coeffs(c, alpha)[i]).wf() by {
        lemma_basics(alpha, c[2 * i + 1]);
        lemma_basics(c[2 * i], alpha.spec_mul(c[2 * i + 1]));
    }
}

/// A low-degree input folds to a constant: on a polynomial with at most
/// `degree_bound` coefficients, the codeword FRI reaches after `log2` of the
/// degree bound folds is constant, whatever the challenges.
pub proof fn law_low_degree_folds_to_constant<F: TwoAdicField>(
    coeffs: Seq<F>,
    degree_bound: nat,
    blowup: nat,
    alphas: Seq<F>,
)
    requires
        degree_bound >= 1,
        two_pow(log2(degree_bound)) == degree_bound,
        blowup >= 1,
        two_pow(log2(blowup)) == blowup,
        subgroup_size::<F>(degree_bound * blowup),
        degree_bound * blowup <= usize::MAX,
        coeffs.len() <= degree_bound,
        all_wf(coeffs),
        alphas.len() >= log2(degree_bound),
        fold_inverses_exact::<F>(degree_bound * blowup, log2(degree_bound)),
    ensures
        ({
            let last = fri_layer(coeffs, degree_bound * blowup, alphas, log2(degree_bound));
            &&& last.len() == blowup
            &&& forall|i: int| 0 <= i < last.len() ==> #[trigger] last[i] == last[0]
        }),
{
    let e = log2(degree_bound);
    let lb = log2(blowup);
    let domain = degree_bound * blowup;
    lemma_two_pow_add(e, lb);
    assert(domain == two_pow(e + lb));
    lemma_log2_of_two_pow(e + lb);
    lemma_log2_small(domain);
    lemma_layer_is_folded(coeffs, e, lb, alphas, e);
    let c = coeffs + Seq::new((two_pow(e) - coeffs.len()) as nat, |i: int| F::spec_zero());
    let q = folded(c, alphas, e);
    let last = fri_layer(coeffs, domain, alphas, e);
    assert(two_pow(0) == 1);
    assert((e + lb - e) as nat == lb);
    // A single coefficient evaluates to itself everywhere.
    assert forall|j: nat| j < blowup implies #[trigger] poly_eval(q, fold_point::<F>(domain, e, j)) == q[0] by {
        let y = fold_point::<F>(domain, e, j);
        assert(q.drop_first().len() == 0);
        reveal_with_fuel(poly_eval, 2);
        assert(q[0].wf());
        lemma_basics(y, F::spec_zero());
        lemma_basics(q[0], y);
    }
    assert forall|i: int| 0 <= i < last.len() implies #[trigger] last[i] == last[0] by {
        assert(last[i] == poly_eval(q, fold_point::<F>(domain, e, i as nat)));
        assert(last[0] == poly_eval(q, fold_point::<F>(domain, e, 0)));
    }
}

/// Completeness of FRI: an honest proof for a polynomial with at most
/// `degree_bound` coefficients is accepted.
pub proof fn law_honest_low_degree_proof_accepted<F: TwoAdicField, H: Hasher<F>>(
    proof: crate::fri::FriProof<F>,
    coeffs: Seq<F>,
    degree_bound: nat,
    blowup: nat,
    num_queries: nat,
    start: Seq<F>,
)
    requires
        honest_fri::<F, H>(proof, coeffs, degree_bound, blowup, num_queries, start),
        degree_bound >= 2,
        two_pow(log2(degree_bound)) == degree_bound,
        blowup >= 1,
        two_pow(log2(blowup)) == blowup,
        subgroup_size::<F>(degree_bound * blowup),
        degree_bound * blowup <= usize::MAX,
        coeffs.len() <= degree_bound,
        all_wf(coeffs),
        fold_inverses_exact::<F>(degree_bound * blowup, log2(degree_bound)),
    ensures
        fri_accepts::<F, H>(proof, degree_bound, blowup, num_queries, start),
{
    let alphas = fri_alphas::<F, H>(start, proof.roots@);
    law_low_degree_folds_to_constant(coeffs, degree_bound, blowup, alphas);
    law_honest_proof_accepted::<F, H>(proof, coeffs, degree_bound, blowup, num_queries, start);
}

/// Over Goldilocks FRI is complete outright: there every inverse a fold
/// takes is exact, so an honest proof for a polynomial with at most
/// `degree_bound` coefficients is accepted.
pub proof fn law_goldilocks_fri_complete<H: Hasher<crate::goldilocks::Goldilocks>>(
    proof: crate::fri::FriProof<crate::goldilocks::Goldilocks>,
    coeffs: Seq<crate::goldilocks::Goldilocks>,
    degree_bound: nat,
    blowup: nat,
    num_queries: nat,
    start: Seq<crate::goldilocks::Goldilocks>,
)
    requires
        honest_fri::<crate::goldilocks::Goldilocks, H>(proof, coeffs, degree_bound, blowup, num_queries, start),
        degree_bound >= 2,
        two_pow(log2(degree_bound)) == degree_bound,
        blowup >= 1,
        two_pow(log2(blowup)) == blowup,
        subgroup_size::<crate::goldilocks::Goldilocks>(degree_bound * blowup),
        degree_bound * blowup <= usize::MAX,
        coeffs.len() <= degree_bound,
        all_wf(coeffs),
    ensures
        fri_accepts::<crate::goldilocks::Goldilocks, H>(proof, degree_bound, blowup, num_queries, start),
{
    let e = log2(degree_bound);
    let lb = log2(blowup);
    lemma_two_pow_add(e, lb);
    lemma_log2_of_two_pow(e + lb);
    crate::goldilocks::law_goldilocks_fold_inverses_exact(degree_bound * blowup, e);
    law_honest_low_degree_proof_accepted::<crate::goldilocks::Goldilocks, H>(
        proof,
        coeffs,
        degree_bound,
        blowup,
        num_queries,
        start,
    );
}

} // verus!
