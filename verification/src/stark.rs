//! The STARK prover and verifier.
//!
//! Two things are proved, not one:
//!
//!   * the **gate identity** holds on every row — via the quotient
//!     `Q_gate = C_gate / Z_H`, which is a polynomial iff every gate is
//!     satisfied; and
//!   * the **wiring** holds — via a PLONK-style grand-product permutation
//!     argument over the copy constraints, so that cells tied by a copy
//!     constraint are forced to hold equal values.
//!
//! Both are folded into one composite constraint with a random challenge `α`
//! and divided by the vanishing polynomial to a single quotient `Q`.
//!
//! ## The permutation argument, briefly
//!
//! Each witness cell has a position and two labels: an *identity* label and a
//! *permuted* label under `σ` (built in the AIR from the copy constraints).
//! With transcript challenges `β, γ`, the prover accumulates a grand product
//!
//! ```text
//!   Z(ω^{i+1}) = Z(ω^i) · ∏_j (col_j + β·id_j + γ) / ∏_j (col_j + β·σ_j + γ)
//! ```
//!
//! starting at `Z(ω^0) = 1`. It returns to 1 after a full turn iff the two
//! multisets match, which happens iff every `σ`-cycle holds a single value —
//! i.e. iff the wiring is respected.
//!
//! ## DEEP: what binds the committed columns
//!
//! An **out-of-domain point `ζ`** is drawn from the transcript after every
//! commitment. The prover sends the columns' values there, and the composite
//! identity is checked **once, at `ζ`**. What ties the claimed values back to
//! the commitments is a batch of quotients `(P(x) - P(ζ)) / (x - ζ)`, one per
//! committed column, combined with random challenges into one function that
//! FRI tests. Each quotient enters the batch multiplied by `λ + λ'·x^e`, with
//! `e` chosen so the padded term just fits under the FRI bound, so that the
//! batch tests each column against its own degree.
//!
//! Generic over the field and the [`Hasher`]; no cryptography beyond the hash.
use vstd::prelude::*;

use crate::air::{
    air_of, gate_at, is_domain_for, lemma_domain_unique, lemma_log2_of_two_pow, padded_selector, spec_column_reps, trace_of, Air,
    Trace,
};
use crate::fft::{
    all_wf, coset_evaluate, coset_interpolate, evaluate, fpow, interpolated, intt, inverse_is_primitive, lemma_fpow_wf, lemma_inverse_is_primitive,
    log2, poly_eval, scaled, subgroup_root, subgroup_size,
};
use crate::field::{lemma_basics, TwoAdicField, ZkField};
use crate::fri::{self, coset_shift, fri_accepts, FriConfig, FriProof};
use crate::hash::{Digest, Hasher};
use crate::merkle::{path_root, two_pow, verify_opening, MerkleTree, Opening};
use crate::polynomial::{lin, shifted};
use crate::plonkish::Plonkish;
use crate::transcript::{squeeze, Transcript};

verus! {

/// The transcript's domain separator.
pub open spec fn spec_domain_separator<F: ZkField>() -> Seq<F> {
    seq![F::spec_from_u64(0x7A6B635F737461), F::spec_from_u64(0x726b)]
}

fn domain_separator<F: ZkField>() -> (r: Vec<F>)
    ensures
        r@ == spec_domain_separator::<F>(),
{
    let mut r: Vec<F> = Vec::new();
    r.push(F::from_u64(0x7A_6B_63_5F_73_74_61));
    r.push(F::from_u64(0x726b));
    assert(r@ =~= spec_domain_separator::<F>());
    r
}

/// The six DEEP quotients: `a`, `b`, `c`, `Z` at `ζ`, `Z` at `ζω`, `Q`.
const NUM_DEEP_QUOTIENTS: usize = 6;

pub struct StarkProof<F> {
    pub trace_root: Digest<F>,
    pub z_root: Digest<F>,
    /// The quotient is committed now rather than going straight into FRI: DEEP
    /// needs a claimed value for it at `ζ`, and a claim needs a commitment to
    /// be a claim about.
    pub q_root: Digest<F>,
    pub ood: OodValues<F>,
    pub fri: FriProof<F>,
    pub queries: Vec<StarkQuery<F>>,
    pub degree_bound: usize,
}

/// Every committed column's value at the out-of-domain point `ζ`, plus `Z`'s at
/// the rotated point `ζω` that the permutation recursion needs. These six field
/// elements are where the constraint check happens.
#[derive(Clone, PartialEq, Eq, Debug)]
pub struct OodValues<F> {
    pub a: F,
    pub b: F,
    pub c: F,
    pub z: F,
    pub z_next: F,
    pub q: F,
}

impl<F: Copy> OodValues<F> {
    /// The six values, in transcript order.
    pub open spec fn spec_values(&self) -> Seq<F> {
        seq![self.a, self.b, self.c, self.z, self.z_next, self.q]
    }

    fn as_slice(&self) -> (r: [F; 6])
        ensures
            r@ == self.spec_values(),
    {
        let r = [self.a, self.b, self.c, self.z, self.z_next, self.q];
        assert(r@ =~= self.spec_values());
        r
    }
}

/// Everything opened at one FRI query's low/high positions.
pub struct StarkQuery<F> {
    pub lo: OpenedPoint<F>,
    pub hi: OpenedPoint<F>,
}

/// One position's openings.
pub struct OpenedPoint<F> {
    pub a: F,
    pub b: F,
    pub c: F,
    pub trace_proof: Opening<F>,
    pub z: F,
    pub z_proof: Opening<F>,
    pub q: F,
    pub q_proof: Opening<F>,
}

/// Column values to coefficients: the inverse NTT.
fn to_coeffs<F: TwoAdicField>(column: &[F]) -> (r: Vec<F>)
    requires
        subgroup_size::<F>(column@.len()),
        all_wf(column@),
    ensures
        r@.len() == column@.len(),
        all_wf(r@),
        r@ == interpolated(column@),
{
    let mut coeffs: Vec<F> = Vec::new();
    let mut i: usize = 0;
    while i < column.len()
        invariant
            i <= column@.len(),
            coeffs@ == column@.subrange(0, i as int),
        decreases column@.len() - i,
    {
        coeffs.push(column[i]);
        i = i + 1;
    }
    assert(coeffs@ =~= column@);
    intt(coeffs.as_mut_slice());
    coeffs
}

/// Powers `ω^0 .. ω^{n-1}` of the trace-domain generator.
fn omega_powers<F: TwoAdicField>(n: usize) -> (r: Vec<F>)
    requires
        subgroup_size::<F>(n as nat),
    ensures
        r@.len() == n,
        forall|i: int| 0 <= i < n ==> #[trigger] r@[i] == fpow(subgroup_root::<F>(n as nat), i as nat),
{
    let bits = crate::fft::exact_log2(n);
    let omega = F::two_adic_generator(bits);
    let mut powers: Vec<F> = Vec::new();
    let mut cur = F::one();
    let mut i: usize = 0;
    while i < n
        invariant
            i <= n,
            omega == subgroup_root::<F>(n as nat),
            cur == fpow(omega, i as nat),
            powers@.len() == i,
            forall|k: int| 0 <= k < i ==> #[trigger] powers@[k] == fpow(omega, k as nat),
        decreases n - i,
    {
        powers.push(cur);
        cur = cur.mul(omega);
        i = i + 1;
    }
    powers
}

/// A candidate `ζ` DEEP can use: outside the evaluation coset (whose
/// elements all share `x^domain = shift^domain`), off the trace domain
/// (`ζ^n ≠ 1`), and not 1.
pub open spec fn ood_acceptable<F: ZkField>(candidate: F, n: nat, domain: nat, shift: F) -> bool {
    &&& fpow(candidate, domain) != fpow(shift, domain)
    &&& fpow(candidate, n) != F::spec_one()
    &&& candidate != F::spec_one()
}

/// The first acceptable candidate among the squeezes `k .. 64` of a
/// transcript with history `state`, if any.
pub open spec fn ood_draw<F: ZkField, H: Hasher<F>>(state: Seq<F>, k: nat, n: nat, domain: nat, shift: F) -> Option<F>
    decreases 64 - k,
{
    if k >= 64 {
        None
    } else if ood_acceptable(squeeze::<F, H>(state, k), n, domain, shift) {
        Some(squeeze::<F, H>(state, k))
    } else {
        ood_draw::<F, H>(state, k + 1, n, domain, shift)
    }
}

/// Draw `ζ` from the transcript, rejecting the points at which DEEP would be
/// undefined or meaningless.
///
/// Three rejections. **Inside the evaluation coset**, `x - ζ` vanishes at a
/// domain point, so the quotient is undefined. **On the trace domain `H`**,
/// the vanishing polynomial `Z_H(ζ)` is zero and the check
/// `composite(ζ) = Q(ζ)·Z_H(ζ)` degenerates to `0 = 0`. **At `ζ = 1`**,
/// `L_0` is `0/0`.
///
/// Both sides run this, so both must run it identically. A rejection is
/// astronomically unlikely, but the loop is real and its exhaustion is an
/// error rather than an assumption.
fn draw_ood_point<F: TwoAdicField, H: Hasher<F>>(
    transcript: &mut Transcript<F, H>,
    n: usize,
    domain_size: usize,
    shift: F,
) -> (r: Option<F>)
    requires
        H::WIDTH >= 1,
        old(transcript).spec_counter() == 0,
        shift.wf(),
    ensures
        r == ood_draw::<F, H>(old(transcript).spec_state(), 0, n as nat, domain_size as nat, shift),
        final(transcript).spec_state() == old(transcript).spec_state(),
        r matches Some(z) ==> z.wf(),
{
    let ghost state = transcript.spec_state();
    let coset_signature = crate::fft::pow(shift, domain_size as u64);
    let mut k: usize = 0;
    while k < 64
        invariant
            H::WIDTH >= 1,
            k <= 64,
            shift.wf(),
            coset_signature == fpow(shift, domain_size as nat),
            state == old(transcript).spec_state(),
            transcript.spec_state() == state,
            transcript.spec_counter() == k,
            ood_draw::<F, H>(state, 0, n as nat, domain_size as nat, shift) == ood_draw::<F, H>(
                state,
                k as nat,
                n as nat,
                domain_size as nat,
                shift,
            ),
        decreases 64 - k,
    {
        let candidate = transcript.challenge();
        let in_coset = crate::fft::pow(candidate, domain_size as u64).equals(coset_signature);
        let on_trace_domain = crate::fft::pow(candidate, n as u64).equals(F::one());
        if !in_coset && !on_trace_domain && !candidate.equals(F::one()) {
            return Some(candidate);
        }
        k = k + 1;
    }
    None
}

/// The six DEEP quotient values at a point and the degree correction each
/// is padded with.
pub open spec fn deep_terms<F: ZkField>(
    ood: OodValues<F>,
    a: F,
    b: F,
    c: F,
    z: F,
    q: F,
    inv_zeta: F,
    inv_zeta_next: F,
    adjust_column: F,
    adjust_quotient: F,
) -> Seq<(F, F)> {
    seq![
        (a.spec_sub(ood.a).spec_mul(inv_zeta), adjust_column),
        (b.spec_sub(ood.b).spec_mul(inv_zeta), adjust_column),
        (c.spec_sub(ood.c).spec_mul(inv_zeta), adjust_column),
        (z.spec_sub(ood.z).spec_mul(inv_zeta), adjust_column),
        (z.spec_sub(ood.z_next).spec_mul(inv_zeta_next), adjust_column),
        (q.spec_sub(ood.q).spec_mul(inv_zeta), adjust_quotient),
    ]
}

/// The first `k` terms of the batch: term `i` weighted by
/// `λ_{2i} + λ_{2i+1}·adjust_i`.
pub open spec fn deep_sum<F: ZkField>(lambdas: Seq<F>, terms: Seq<(F, F)>, k: nat) -> F
    decreases k,
{
    if k == 0 {
        F::spec_zero()
    } else {
        let i = k - 1;
        let coefficient = lambdas[2 * i].spec_add(lambdas[2 * i + 1].spec_mul(terms[i].1));
        deep_sum(lambdas, terms, i as nat).spec_add(coefficient.spec_mul(terms[i].0))
    }
}

/// The DEEP batch at one point of the evaluation domain.
///
/// Prover and verifier both need this — the prover across the whole domain to
/// build the FRI input, the verifier at the queried positions to check what FRI
/// opened. Writing it once is the point.
///
/// `adjust_column` and `adjust_quotient` are the degree corrections described in
/// the module docs, already raised to the right power of `x`.
fn deep_batch<F: ZkField>(
    lambdas: &[F],
    ood: &OodValues<F>,
    a: F,
    b: F,
    c: F,
    z: F,
    q: F,
    inv_zeta: F,
    inv_zeta_next: F,
    adjust_column: F,
    adjust_quotient: F,
) -> (r: F)
    requires
        lambdas@.len() >= 2 * NUM_DEEP_QUOTIENTS,
    ensures
        r == deep_sum(
            lambdas@,
            deep_terms(*ood, a, b, c, z, q, inv_zeta, inv_zeta_next, adjust_column, adjust_quotient),
            6,
        ),
{
    let quotients = [
        (a.sub(ood.a).mul(inv_zeta), adjust_column),
        (b.sub(ood.b).mul(inv_zeta), adjust_column),
        (c.sub(ood.c).mul(inv_zeta), adjust_column),
        (z.sub(ood.z).mul(inv_zeta), adjust_column),
        (z.sub(ood.z_next).mul(inv_zeta_next), adjust_column),
        (q.sub(ood.q).mul(inv_zeta), adjust_quotient),
    ];
    let ghost terms = deep_terms(*ood, a, b, c, z, q, inv_zeta, inv_zeta_next, adjust_column, adjust_quotient);
    assert(quotients@ =~= terms);
    let mut acc = F::zero();
    let mut i: usize = 0;
    while i < NUM_DEEP_QUOTIENTS
        invariant
            i <= 6,
            lambdas@.len() >= 12,
            quotients@ == terms,
            acc == deep_sum(lambdas@, terms, i as nat),
        decreases 6 - i,
    {
        let (quotient, adjust) = quotients[i];
        let coefficient = lambdas[2 * i].add(lambdas[2 * i + 1].mul(adjust));
        acc = acc.add(coefficient.mul(quotient));
        i = i + 1;
    }
    acc
}

/// The least power of two at least `m`, doubling from `p`.
pub open spec fn pow2_from(m: nat, p: nat) -> nat
    decreases m - p,
{
    if p >= m || p == 0 {
        p
    } else if 2 * p >= m {
        2 * p
    } else {
        pow2_from(m, 2 * p)
    }
}

/// The STARK's degree bound for `n` rows: the composite quotient's degree is
/// dominated by the permutation recursion (degree `< 4n`), so `Q` has degree
/// `< 3n`, rounded up to a power of two.
pub open spec fn stark_degree_bound(n: nat) -> nat {
    pow2_from(3 * n, 1)
}

/// Doubling from a power of two ends at a power of two.
pub(crate) proof fn lemma_pow2_from_is_pow2(m: nat, p: nat, k: nat)
    requires
        p == two_pow(k),
    ensures
        two_pow(crate::fft::log2(pow2_from(m, p))) == pow2_from(m, p),
    decreases m - p,
{
    crate::fft::lemma_two_pow_pos(k);
    if p >= m || p == 0 {
        lemma_log2_of_two_pow(k);
    } else {
        assert(two_pow(k + 1) == 2 * p);
        if 2 * p >= m {
            lemma_log2_of_two_pow(k + 1);
        } else {
            lemma_pow2_from_is_pow2(m, 2 * p, k + 1);
        }
    }
}

/// `(3n).next_power_of_two()`.
fn next_power_of_two(m: usize) -> (r: usize)
    requires
        1 <= m,
        m * 2 <= usize::MAX,
    ensures
        r == pow2_from(m as nat, 1),
        is_domain_for(r as nat, m as nat),
        r < 2 * m,
{
    let mut p: usize = 1;
    let ghost mut k: nat = 0;
    assert(two_pow(0) == 1);
    while p < m
        invariant
            1 <= m,
            m * 2 <= usize::MAX,
            1 <= p,
            p < 2 * m,
            p == two_pow(k),
            pow2_from(m as nat, 1) == pow2_from(m as nat, p as nat),
        decreases 2 * m - p,
    {
        p = p * 2;
        proof {
            k = k + 1;
        }
    }
    proof {
        lemma_log2_of_two_pow(k);
    }
    p
}

/// An AIR the STARK runs on: `n` rows, a power of two with a subgroup,
/// the selectors one canonical value per row, and `σ` a map on the `3n`
/// cell positions.
pub open spec fn stark_air_ready<F: TwoAdicField>(air: Air<F>) -> bool {
    let n = air.n as nat;
    &&& n >= 1
    &&& subgroup_size::<F>(n)
    &&& 3 * n <= usize::MAX
    &&& air.q_l@.len() == n
    &&& air.q_r@.len() == n
    &&& air.q_o@.len() == n
    &&& air.q_m@.len() == n
    &&& air.q_c@.len() == n
    &&& all_wf(air.q_l@)
    &&& all_wf(air.q_r@)
    &&& all_wf(air.q_o@)
    &&& all_wf(air.q_m@)
    &&& all_wf(air.q_c@)
    &&& air.sigma@.len() == 3 * n
    &&& forall|p: int| 0 <= p < 3 * n ==> #[trigger] air.sigma@[p] < 3 * n
}

/// The identity labels of column `j` on `H`: `k_j · ω^i`.
pub open spec fn id_labels<F: TwoAdicField>(n: nat, j: int) -> Seq<F> {
    Seq::new(n, |i: int| spec_column_reps::<F>()[j].spec_mul(fpow(subgroup_root::<F>(n), i as nat)))
}

/// The permuted labels of column `j`: each cell gets the label of the cell
/// `σ` sends it to.
pub open spec fn sigma_labels<F: TwoAdicField>(air: Air<F>, j: int) -> Seq<F> {
    let n = air.n as int;
    Seq::new(
        air.n as nat,
        |i: int|
            {
                let t = air.sigma@[j * n + i] as int;
                spec_column_reps::<F>()[t / n].spec_mul(fpow(subgroup_root::<F>(n as nat), (t % n) as nat))
            },
    )
}

/// The polynomial interpolating `values` on `H`, evaluated at `x`.
pub open spec fn at_point<F: TwoAdicField>(values: Seq<F>, x: F) -> F {
    poly_eval(interpolated(values), x)
}

/// `∏_j (col_j + β·label_j + γ)` over the three columns, from 1.
pub open spec fn perm_product<F: ZkField>(cols: Seq<F>, labels: Seq<F>, beta: F, gamma: F) -> F {
    F::spec_one().spec_mul(cols[0].spec_add(beta.spec_mul(labels[0])).spec_add(gamma)).spec_mul(
        cols[1].spec_add(beta.spec_mul(labels[1])).spec_add(gamma),
    ).spec_mul(cols[2].spec_add(beta.spec_mul(labels[2])).spec_add(gamma))
}

/// The quotient at the coset point `x`, from the values there of the three
/// columns, the five selectors, the identity and permuted labels, and `Z`
/// at `x` and one rotation on: the composite constraint — the row identity,
/// plus `α·L_0·(Z - 1)`, plus `α²·(Z(xω)·g - Z(x)·f)` — over `x^n - 1`.
pub open spec fn quotient_from<F: TwoAdicField>(
    n: nat,
    x: F,
    cols: Seq<F>,
    sel: Seq<F>,
    ids: Seq<F>,
    sigmas: Seq<F>,
    z_here: F,
    z_shift: F,
    beta: F,
    gamma: F,
    alpha: F,
) -> F {
    let one = F::spec_one();
    let c_gate = gate_at(cols[0], cols[1], cols[2], sel[0], sel[1], sel[2], sel[3], sel[4]);
    let f = perm_product(cols, ids, beta, gamma);
    let g = perm_product(cols, sigmas, beta, gamma);
    let xn_minus_1 = fpow(x, n).spec_sub(one);
    let l0 = xn_minus_1.spec_mul(F::spec_from_u64(n as u64).spec_mul(x.spec_sub(one)).spec_inverse()->0);
    let c_start = l0.spec_mul(z_here.spec_sub(one));
    let c_rec = z_shift.spec_mul(g).spec_sub(z_here.spec_mul(f));
    let composite = c_gate.spec_add(alpha.spec_mul(c_start)).spec_add(alpha.spec_mul(alpha).spec_mul(c_rec));
    composite.spec_mul(xn_minus_1.spec_inverse()->0)
}

/// The honest quotient's value at coset position `pos`: `quotient_from` on
/// the low-degree extensions of the trace, the AIR's selectors and labels,
/// and the grand product `z`.
pub open spec fn quotient_at<F: TwoAdicField>(
    air: Air<F>,
    trace: Trace<F>,
    z: Seq<F>,
    beta: F,
    gamma: F,
    alpha: F,
    domain: nat,
    pos: nat,
) -> F {
    let n = air.n as nat;
    let x = coset_point::<F>(domain, pos);
    let x_next = coset_point::<F>(domain, (pos + domain / n) % domain);
    quotient_from(
        n,
        x,
        seq![at_point(trace.a@, x), at_point(trace.b@, x), at_point(trace.c@, x)],
        seq![
            at_point(air.q_l@, x),
            at_point(air.q_r@, x),
            at_point(air.q_o@, x),
            at_point(air.q_m@, x),
            at_point(air.q_c@, x),
        ],
        seq![at_point(id_labels::<F>(n, 0), x), at_point(id_labels::<F>(n, 1), x), at_point(id_labels::<F>(n, 2), x)],
        seq![at_point(sigma_labels(air, 0), x), at_point(sigma_labels(air, 1), x), at_point(sigma_labels(air, 2), x)],
        at_point(z, x),
        at_point(z, x_next),
        beta,
        gamma,
        alpha,
    )
}

/// The grand product `Z` on `H`, its first `k` values: `Z_0 = 1` and
/// `Z_{i+1} = Z_i · f_i · g_i⁻¹`, where `f_i` and `g_i` are row `i`'s
/// products over the identity and the permuted labels. `None` where some
/// `g_i` has no inverse.
pub open spec fn grand_product_of<F: ZkField>(
    cols: Seq<Seq<F>>,
    ids: Seq<Seq<F>>,
    sigmas: Seq<Seq<F>>,
    beta: F,
    gamma: F,
    k: nat,
) -> Option<Seq<F>>
    decreases k,
{
    if k <= 1 {
        Some(seq![F::spec_one()])
    } else {
        let i = k - 2;
        match grand_product_of(cols, ids, sigmas, beta, gamma, (k - 1) as nat) {
            None => None,
            Some(z) => {
                let row = seq![cols[0][i], cols[1][i], cols[2][i]];
                let f = perm_product(row, seq![ids[0][i], ids[1][i], ids[2][i]], beta, gamma);
                let g = perm_product(row, seq![sigmas[0][i], sigmas[1][i], sigmas[2][i]], beta, gamma);
                match g.spec_inverse() {
                    None => None,
                    Some(g_inverse) => Some(z.push(z[i].spec_mul(f).spec_mul(g_inverse))),
                }
            },
        }
    }
}

/// The grand product of a trace under an AIR's labels, for `β, γ`.
pub open spec fn trace_grand_product<F: TwoAdicField>(air: Air<F>, trace: Trace<F>, beta: F, gamma: F) -> Option<Seq<F>> {
    let n = air.n as nat;
    grand_product_of(
        seq![trace.a@, trace.b@, trace.c@],
        seq![id_labels::<F>(n, 0), id_labels::<F>(n, 1), id_labels::<F>(n, 2)],
        seq![sigma_labels(air, 0), sigma_labels(air, 1), sigma_labels(air, 2)],
        beta,
        gamma,
        n,
    )
}

/// The composite constraint at `ζ`, from the claimed column values: the row
/// identity, plus `α·L_0·(Z - 1)`, plus `α²·(Z(ζω)·g - Z(ζ)·f)`.
pub open spec fn composite_at<F: TwoAdicField>(air: Air<F>, ood: OodValues<F>, beta: F, gamma: F, alpha: F, zeta: F) -> F {
    let n = air.n as nat;
    let one = F::spec_one();
    let c_gate = gate_at(
        ood.a,
        ood.b,
        ood.c,
        at_point(air.q_l@, zeta),
        at_point(air.q_r@, zeta),
        at_point(air.q_o@, zeta),
        at_point(air.q_m@, zeta),
        at_point(air.q_c@, zeta),
    );
    let cols = seq![ood.a, ood.b, ood.c];
    let f = perm_product(
        cols,
        seq![at_point(id_labels::<F>(n, 0), zeta), at_point(id_labels::<F>(n, 1), zeta), at_point(id_labels::<F>(n, 2), zeta)],
        beta,
        gamma,
    );
    let g = perm_product(
        cols,
        seq![at_point(sigma_labels(air, 0), zeta), at_point(sigma_labels(air, 1), zeta), at_point(sigma_labels(air, 2), zeta)],
        beta,
        gamma,
    );
    let z_h = fpow(zeta, n).spec_sub(one);
    let l0 = z_h.spec_mul(F::spec_from_u64(n as u64).spec_mul(zeta.spec_sub(one)).spec_inverse()->0);
    let c_start = l0.spec_mul(ood.z.spec_sub(one));
    let c_rec = ood.z_next.spec_mul(g).spec_sub(ood.z.spec_mul(f));
    c_gate.spec_add(alpha.spec_mul(c_start)).spec_add(alpha.spec_mul(alpha).spec_mul(c_rec))
}

/// The transcript history once the trace root is absorbed.
pub open spec fn state_after_trace<F: ZkField>(proof: StarkProof<F>) -> Seq<F> {
    spec_domain_separator::<F>() + proof.trace_root.0@
}

/// ... and the grand product's root.
pub open spec fn state_after_z<F: ZkField>(proof: StarkProof<F>) -> Seq<F> {
    state_after_trace(proof) + proof.z_root.0@
}

/// ... and the quotient's root: where `ζ` is drawn from.
pub open spec fn state_after_q<F: ZkField>(proof: StarkProof<F>) -> Seq<F> {
    state_after_z(proof) + proof.q_root.0@
}

/// ... and the values at `ζ`: where the DEEP weights and FRI continue from.
pub open spec fn state_after_ood<F: ZkField>(proof: StarkProof<F>) -> Seq<F> {
    state_after_q(proof) + proof.ood.spec_values()
}

/// The DEEP weights `λ_0 .. λ_11`.
pub open spec fn deep_lambdas<F: ZkField, H: Hasher<F>>(proof: StarkProof<F>) -> Seq<F> {
    Seq::new(12, |i: int| squeeze::<F, H>(state_after_ood(proof), i as nat))
}

/// A column opening sits under `root` at `pos` and carries exactly `leaf`.
pub open spec fn opened_at<F: ZkField, H: Hasher<F>>(opening: Opening<F>, root: Digest<F>, pos: nat, leaf: Seq<F>) -> bool {
    &&& path_root::<F, H>(H::spec_hash(opening.leaf@), opening.index as nat, opening.sibling_view()) == root.0@
    &&& opening.index == pos
    &&& opening.leaf@ == leaf
}

/// What the verifier checks at one queried position: the three openings,
/// the two DEEP denominators, and the batch rebuilt from the opened columns
/// against the value FRI opened there.
pub open spec fn point_accepted<F: TwoAdicField, H: Hasher<F>>(
    proof: StarkProof<F>,
    point: OpenedPoint<F>,
    pos: nat,
    batch_value: F,
    domain: nat,
    zeta: F,
    zeta_next: F,
    column_exponent: nat,
) -> bool {
    let x = F::spec_from_u64(7).spec_mul(fpow(subgroup_root::<F>(domain), pos));
    &&& opened_at::<F, H>(point.trace_proof, proof.trace_root, pos, seq![point.a, point.b, point.c])
    &&& opened_at::<F, H>(point.z_proof, proof.z_root, pos, seq![point.z])
    &&& opened_at::<F, H>(point.q_proof, proof.q_root, pos, seq![point.q])
    &&& x.spec_sub(zeta).spec_inverse() is Some
    &&& x.spec_sub(zeta_next).spec_inverse() is Some
    &&& deep_sum(
        deep_lambdas::<F, H>(proof),
        deep_terms(
            proof.ood,
            point.a,
            point.b,
            point.c,
            point.z,
            point.q,
            x.spec_sub(zeta).spec_inverse()->0,
            x.spec_sub(zeta_next).spec_inverse()->0,
            fpow(x, column_exponent),
            x,
        ),
        6,
    ) == batch_value
}

/// Query `q` of a proof checks out at both of its positions.
pub open spec fn stark_query_accepted<F: TwoAdicField, H: Hasher<F>>(
    proof: StarkProof<F>,
    q: int,
    domain: nat,
    zeta: F,
    zeta_next: F,
    column_exponent: nat,
) -> bool {
    let fq = proof.fri.queries@[q];
    let opened = proof.queries@[q];
    let half = domain / 2;
    let lo = fq.index as nat % half;
    &&& point_accepted::<F, H>(proof, opened.lo, lo, fq.layers@[0].lo, domain, zeta, zeta_next, column_exponent)
    &&& point_accepted::<F, H>(proof, opened.hi, lo + half, fq.layers@[0].hi, domain, zeta, zeta_next, column_exponent)
}

/// What the STARK verifier accepts, with every challenge replayed from the
/// proof's own commitments: the degree bound is the circuit's, an
/// acceptable `ζ` is drawn, the composite identity holds at `ζ`, FRI accepts
/// the DEEP batch, and every query's openings rebuild the batch value FRI
/// opened.
pub open spec fn stark_accepts<F: TwoAdicField, H: Hasher<F>>(air: Air<F>, proof: StarkProof<F>, config: FriConfig) -> bool {
    let n = air.n as nat;
    let db = proof.degree_bound as nat;
    let domain = (db * config.blowup) as nat;
    let beta = squeeze::<F, H>(state_after_trace(proof), 0);
    let gamma = squeeze::<F, H>(state_after_trace(proof), 1);
    let alpha = squeeze::<F, H>(state_after_z(proof), 0);
    let drawn = ood_draw::<F, H>(state_after_q(proof), 0, n, domain, F::spec_from_u64(7));
    let zeta = drawn->0;
    let zeta_next = zeta.spec_mul(subgroup_root::<F>(n));
    let column_exponent = (db - (n - 1)) as nat;
    &&& db == stark_degree_bound(n)
    &&& drawn is Some
    &&& F::spec_from_u64(n as u64).spec_mul(zeta.spec_sub(F::spec_one())).spec_inverse() is Some
    &&& composite_at(air, proof.ood, beta, gamma, alpha, zeta) == proof.ood.q.spec_mul(
        fpow(zeta, n).spec_sub(F::spec_one()),
    )
    &&& fri_accepts::<F, H>(proof.fri, db, config.blowup as nat, config.num_queries as nat, state_after_ood(proof))
    &&& proof.queries@.len() == proof.fri.queries@.len()
    &&& forall|q: int|
        0 <= q < proof.queries@.len() ==> #[trigger] stark_query_accepted::<F, H>(
            proof,
            q,
            domain,
            zeta,
            zeta_next,
            column_exponent,
        )
}

/// Whether a leaf is exactly the three values `a, b, c`.
fn is_triple<F: ZkField>(leaf: &Vec<F>, a: F, b: F, c: F) -> (r: bool)
    ensures
        r == (leaf@ == seq![a, b, c]),
{
    if leaf.len() != 3 {
        return false;
    }
    let same = leaf[0].equals(a) && leaf[1].equals(b) && leaf[2].equals(c);
    proof {
        if same {
            assert(leaf@ =~= seq![a, b, c]);
        }
    }
    same
}

/// `format!` of a STARK verification failure and its position: `std`'s
/// formatting writes the description, a space and the position in decimal.
#[verifier::external_body]
fn msg_at(what: &str, pos: usize) -> (r: String)
    ensures
        r@ == what@ + " "@ + crate::goldilocks::nat_to_decimal(pos as nat),
{
    format!("{what} {pos}")
}

/// Check one queried position: its three openings, then the DEEP batch
/// rebuilt from the opened columns against the value FRI proved low-degree.
/// Agreement here is what carries the low-degree property back to each
/// individual column.
fn check_point<F: TwoAdicField, H: Hasher<F>>(
    proof: &StarkProof<F>,
    point: &OpenedPoint<F>,
    pos: usize,
    batch_value: F,
    domain_size: usize,
    gen: F,
    zeta: F,
    zeta_next: F,
    lambdas: &[F],
    column_exponent: u64,
) -> (r: Result<(), String>)
    requires
        gen == subgroup_root::<F>(domain_size as nat),
        gen.wf(),
        lambdas@ == deep_lambdas::<F, H>(*proof),
    ensures
        r is Ok <==> point_accepted::<F, H>(
            *proof,
            *point,
            pos as nat,
            batch_value,
            domain_size as nat,
            zeta,
            zeta_next,
            column_exponent as nat,
        ),
{
    if !verify_opening::<F, H>(&proof.trace_root, &point.trace_proof) || point.trace_proof.index != pos
        || !is_triple(&point.trace_proof.leaf, point.a, point.b, point.c) {
        return Err(msg_at("bad trace opening at", pos));
    }
    if !verify_opening::<F, H>(&proof.z_root, &point.z_proof) || point.z_proof.index != pos
        || !crate::fri::is_single(&point.z_proof.leaf, point.z) {
        return Err(msg_at("bad Z opening at", pos));
    }
    if !verify_opening::<F, H>(&proof.q_root, &point.q_proof) || point.q_proof.index != pos
        || !crate::fri::is_single(&point.q_proof.leaf, point.q) {
        return Err(msg_at("bad quotient opening at", pos));
    }
    let shift = coset_shift::<F>();
    let x = shift.mul(crate::fft::pow(gen, pos as u64));
    let inv_zeta = match x.sub(zeta).inverse() {
        Some(v) => v,
        None => {
            return Err("ζ landed in the evaluation domain".to_string());
        },
    };
    let inv_zeta_next = match x.sub(zeta_next).inverse() {
        Some(v) => v,
        None => {
            return Err("ζω landed in the evaluation domain".to_string());
        },
    };
    proof {
        lemma_basics(shift, crate::fft::fpow(gen, pos as nat));
    }
    let expected = deep_batch(
        lambdas,
        &proof.ood,
        point.a,
        point.b,
        point.c,
        point.z,
        point.q,
        inv_zeta,
        inv_zeta_next,
        crate::fft::pow(x, column_exponent),
        x,
    );
    if !expected.equals(batch_value) {
        return Err(msg_at("DEEP batch mismatch at", pos));
    }
    Ok(())
}

/// One rejected query rejects the proof.
proof fn lemma_stark_query_rejected<F: TwoAdicField, H: Hasher<F>>(
    air: Air<F>,
    proof: StarkProof<F>,
    config: FriConfig,
    q: int,
)
    requires
        0 <= q < proof.queries@.len(),
        ({
            let n = air.n as nat;
            let db = proof.degree_bound as nat;
            let domain = (db * config.blowup) as nat;
            let zeta = ood_draw::<F, H>(state_after_q(proof), 0, n, domain, F::spec_from_u64(7))->0;
            !stark_query_accepted::<F, H>(
                proof,
                q,
                domain,
                zeta,
                zeta.spec_mul(subgroup_root::<F>(n)),
                (db - (n - 1)) as nat,
            )
        }),
    ensures
        !stark_accepts::<F, H>(air, proof, config),
{
}

/// What the verifier needs of the field and the sizes for `n` rows: the
/// subgroups and inverses the protocol divides by, sizes that fit, and a
/// power-of-two blowup. Nothing is asked of the proof: its shape is checked.
pub open spec fn verifier_ready<F: TwoAdicField>(n: nat, config: FriConfig) -> bool {
    let db = stark_degree_bound(n);
    let domain = db * (config.blowup as nat);
    &&& config.blowup >= 1
    &&& two_pow(log2(config.blowup as nat)) == config.blowup
    &&& n * (config.blowup as nat) * 6 <= usize::MAX
    &&& subgroup_size::<F>(domain)
    &&& crate::fri::fri_invertible::<F>(domain, log2(db))
}

/// The verifier against an explicit AIR.
pub fn verify_with_air<F: TwoAdicField, H: Hasher<F>>(
    air: &Air<F>,
    proof: &StarkProof<F>,
    config: &FriConfig,
) -> (r: Result<(), String>)
    requires
        H::WIDTH >= 1,
        stark_air_ready(*air),
        verifier_ready::<F>(air.n as nat, *config),
    ensures
        r is Ok <==> stark_accepts::<F, H>(*air, *proof, *config),
{
    let n = air.n;
    let blowup = config.blowup;
    assert(3 * n * 2 <= usize::MAX) by (nonlinear_arith)
        requires
            n * blowup * 6 <= usize::MAX,
            blowup >= 1,
    ;
    let degree_bound = next_power_of_two(3 * n);
    if proof.degree_bound != degree_bound {
        return Err("degree bound does not match the circuit".to_string());
    }
    let ghost db = degree_bound as nat;
    assert(degree_bound * blowup <= usize::MAX) by (nonlinear_arith)
        requires
            n * blowup * 6 <= usize::MAX,
            degree_bound < 2 * (3 * n),
    ;
    proof {
        crate::fft::lemma_two_pow_pos(log2(config.blowup as nat));
        crate::fft::lemma_two_pow_add(log2(db), log2(config.blowup as nat));
        lemma_log2_of_two_pow(log2(db) + log2(config.blowup as nat));
    }
    let domain_size = degree_bound * config.blowup;
    let shift = coset_shift::<F>();
    let domain_bits = crate::fft::exact_log2(domain_size);
    let gen = F::two_adic_generator(domain_bits);
    let n_field = F::from_u64(n as u64);
    proof {
        F::lemma_from_u64_wf(7);
        F::lemma_generator_primitive(domain_bits);
    }

    let omega_pows = omega_powers::<F>(n);
    let (id_evals, sigma_evals) = air.permutation_label_evals(&omega_pows);
    proof {
        assert forall|j: int| 0 <= j < 3 implies #[trigger] id_evals@[j]@ == id_labels::<F>(n as nat, j) && all_wf(
            id_evals@[j]@,
        ) && sigma_evals@[j]@ == sigma_labels(*air, j) && all_wf(sigma_evals@[j]@) by {
            assert forall|i: int|
                #![trigger id_evals@[j]@[i]]
                #![trigger sigma_evals@[j]@[i]]
                0 <= i < n implies id_evals@[j]@[i].wf() && sigma_evals@[j]@[i].wf()
                && id_evals@[j]@[i] == id_labels::<F>(n as nat, j)[i] && sigma_evals@[j]@[i] == sigma_labels(*air, j)[i] by {
                assert(0 <= j * n + i < 3 * n) by (nonlinear_arith)
                    requires
                        0 <= j < 3,
                        0 <= i < n,
                ;
                let t = air.sigma@[j * n + i] as int;
                assert(0 <= t % (n as int) < n && 0 <= t / (n as int) < 3) by (nonlinear_arith)
                    requires
                        n > 0,
                        0 <= t < 3 * n,
                ;
                assert(omega_pows@[t % (n as int)] == fpow(subgroup_root::<F>(n as nat), (t % (n as int)) as nat));
                assert(id_evals@[j]@[i] == id_labels::<F>(n as nat, j)[i]);
                assert(sigma_evals@[j]@[i] == spec_column_reps::<F>()[t / (n as int)].spec_mul(omega_pows@[t % (n as int)]));
                assert(sigma_evals@[j]@[i] == sigma_labels(*air, j)[i]);
                lemma_basics(spec_column_reps::<F>()[j], omega_pows@[i]);
                lemma_basics(spec_column_reps::<F>()[t / (n as int)], omega_pows@[t % (n as int)]);
            }
            assert(id_evals@[j]@ =~= id_labels::<F>(n as nat, j));
            assert(sigma_evals@[j]@ =~= sigma_labels(*air, j));
        }
    }
    let id_c0 = to_coeffs(&id_evals[0]);
    let id_c1 = to_coeffs(&id_evals[1]);
    let id_c2 = to_coeffs(&id_evals[2]);
    let sigma_c0 = to_coeffs(&sigma_evals[0]);
    let sigma_c1 = to_coeffs(&sigma_evals[1]);
    let sigma_c2 = to_coeffs(&sigma_evals[2]);
    let ql_c = to_coeffs(&air.q_l);
    let qr_c = to_coeffs(&air.q_r);
    let qo_c = to_coeffs(&air.q_o);
    let qm_c = to_coeffs(&air.q_m);
    let qc_c = to_coeffs(&air.q_c);

    // Replay: trace, permutation challenges, Z, folding challenge, quotient.
    let mut transcript = Transcript::<F, H>::new(&domain_separator::<F>());
    transcript.absorb_digest(&proof.trace_root);
    let beta = transcript.challenge();
    let gamma = transcript.challenge();
    transcript.absorb_digest(&proof.z_root);
    let alpha = transcript.challenge();
    let alpha2 = alpha.mul(alpha);
    transcript.absorb_digest(&proof.q_root);
    let drawn = draw_ood_point::<F, H>(&mut transcript, n, domain_size, shift);
    let zeta = match drawn {
        Some(z) => z,
        None => {
            return Err("no acceptable out-of-domain point".to_string());
        },
    };
    let omega = F::two_adic_generator(crate::fft::exact_log2(n));
    let zeta_next = zeta.mul(omega);
    let ood = &proof.ood;
    let ood_values = ood.as_slice();
    transcript.absorb(&ood_values);
    let lambdas = transcript.challenges(2 * NUM_DEEP_QUOTIENTS);
    proof {
        assert(lambdas@ =~= deep_lambdas::<F, H>(*proof));
    }

    // The constraint check, once, out of domain. On its own it says nothing:
    // what makes it binding is the DEEP batch below, which is low-degree only
    // if each of the six values is the true value of its committed column at ζ.
    let c_gate = air.gate_identity(
        ood.a,
        ood.b,
        ood.c,
        evaluate(&ql_c, zeta),
        evaluate(&qr_c, zeta),
        evaluate(&qo_c, zeta),
        evaluate(&qm_c, zeta),
        evaluate(&qc_c, zeta),
    );
    let f = F::one().mul(ood.a.add(beta.mul(evaluate(&id_c0, zeta))).add(gamma)).mul(
        ood.b.add(beta.mul(evaluate(&id_c1, zeta))).add(gamma),
    ).mul(ood.c.add(beta.mul(evaluate(&id_c2, zeta))).add(gamma));
    let g = F::one().mul(ood.a.add(beta.mul(evaluate(&sigma_c0, zeta))).add(gamma)).mul(
        ood.b.add(beta.mul(evaluate(&sigma_c1, zeta))).add(gamma),
    ).mul(ood.c.add(beta.mul(evaluate(&sigma_c2, zeta))).add(gamma));
    let z_h_zeta = crate::fft::pow(zeta, n as u64).sub(F::one());
    let l0_inverse = match n_field.mul(zeta.sub(F::one())).inverse() {
        Some(v) => v,
        None => {
            return Err("ζ = 1 is excluded by the draw".to_string());
        },
    };
    let l0 = z_h_zeta.mul(l0_inverse);
    let c_start = l0.mul(ood.z.sub(F::one()));
    let c_rec = ood.z_next.mul(g).sub(ood.z.mul(f));
    let composite = c_gate.add(alpha.mul(c_start)).add(alpha2.mul(c_rec));
    proof {
        assert(composite == composite_at(*air, proof.ood, beta, gamma, alpha, zeta));
    }
    if !composite.equals(ood.q.mul(z_h_zeta)) {
        return Err("constraint check failed at ζ: composite ≠ Q·Z_H".to_string());
    }

    // The low-degree test, now carrying every committed column.
    match fri::verify::<F, H>(&proof.fri, degree_bound, config, &mut transcript) {
        Ok(()) => {},
        Err(e) => {
            return Err(e);
        },
    }

    if proof.queries.len() != proof.fri.queries.len() {
        return Err("stark openings do not match FRI queries".to_string());
    }

    let column_exponent = (degree_bound - (n - 1)) as u64;
    let half0 = domain_size / 2;
    let ghost domain = domain_size as nat;
    let mut qi: usize = 0;
    while qi < proof.queries.len()
        invariant
            qi <= proof.queries@.len(),
            proof.queries@.len() == proof.fri.queries@.len(),
            forall|q: int| 0 <= q < proof.fri.queries@.len() ==> 1 <= (#[trigger] proof.fri.queries@[q]).layers@.len(),
            domain == domain_size,
            domain_size == proof.degree_bound * config.blowup,
            half0 == domain_size / 2,
            half0 >= 1,
            gen == subgroup_root::<F>(domain_size as nat),
            gen.wf(),
            lambdas@ == deep_lambdas::<F, H>(*proof),
            zeta == ood_draw::<F, H>(state_after_q(*proof), 0, n as nat, domain, F::spec_from_u64(7))->0,
            zeta_next == zeta.spec_mul(subgroup_root::<F>(n as nat)),
            column_exponent == (proof.degree_bound - (n - 1)) as nat,
            n == air.n,
            forall|q: int|
                0 <= q < qi ==> #[trigger] stark_query_accepted::<F, H>(
                    *proof,
                    q,
                    domain,
                    zeta,
                    zeta_next,
                    column_exponent as nat,
                ),
        decreases proof.queries@.len() - qi,
    {
        let query = &proof.fri.queries[qi];
        let opened = &proof.queries[qi];
        let lo = query.index % half0;
        let hi = lo + half0;
        let first = &query.layers[0];
        match check_point::<F, H>(proof, &opened.lo, lo, first.lo, domain_size, gen, zeta, zeta_next, &lambdas, column_exponent) {
            Ok(()) => {},
            Err(e) => {
                proof {
                    lemma_stark_query_rejected::<F, H>(*air, *proof, *config, qi as int);
                }
                return Err(e);
            },
        }
        match check_point::<F, H>(proof, &opened.hi, hi, first.hi, domain_size, gen, zeta, zeta_next, &lambdas, column_exponent) {
            Ok(()) => {},
            Err(e) => {
                proof {
                    lemma_stark_query_rejected::<F, H>(*air, *proof, *config, qi as int);
                }
                return Err(e);
            },
        }
        qi = qi + 1;
    }
    Ok(())
}

/// A tree committing `leaves` one per leaf-level position, with `size`
/// leaves at least.
pub open spec fn commits<F: ZkField, H: Hasher<F>>(tree: MerkleTree<F>, leaves: Seq<Vec<F>>) -> bool {
    &&& tree.wf::<H>()
    &&& leaves.len() <= tree.spec_layers()[0].len()
    &&& forall|j: int| 0 <= j < leaves.len() ==> #[trigger] tree.spec_layers()[0][j] == H::spec_hash(leaves[j]@)
}

/// An honest opening of a committed leaf leads to the root.
fn open_leaf<F: ZkField, H: Hasher<F>>(tree: &MerkleTree<F>, leaves: &Vec<Vec<F>>, pos: usize) -> (r: Opening<F>)
    requires
        commits::<F, H>(*tree, leaves@),
        pos < leaves@.len(),
    ensures
        r.index == pos,
        r.leaf@ == leaves@[pos as int]@,
        path_root::<F, H>(H::spec_hash(r.leaf@), pos as nat, r.sibling_view()) == tree.spec_root(),
{
    let r = tree.open(pos, leaves[pos].as_slice());
    proof {
        crate::merkle::law_honest_path_reaches_root::<F, H>(*tree, pos as nat, leaves@[pos as int]@);
    }
    r
}

/// Commit to one leaf per position.
fn commit_leaves<F: ZkField, H: Hasher<F>>(leaves: &Vec<Vec<F>>) -> (r: (MerkleTree<F>, Digest<F>))
    requires
        leaves@.len() > 0,
        leaves@.len() * 2 <= usize::MAX,
    ensures
        commits::<F, H>(r.0, leaves@),
        r.1.0@ == r.0.spec_root(),
        two_pow(log2(leaves@.len() as nat)) == leaves@.len() ==> r.1.0@ == crate::merkle::level_root::<F, H>(
            crate::merkle::leaf_level::<F, H>(leaves@.map_values(|l: Vec<F>| l@), leaves@.len() as nat),
        ),
{
    let tree = MerkleTree::commit::<H>(leaves.as_slice());
    let root = tree.root();
    proof {
        let n = leaves@.len() as nat;
        if two_pow(log2(n)) == n {
            tree.lemma_root_of_leaf_level::<H>();
            let layers = tree.spec_layers();
            let a = (layers.len() - 1) as nat;
            let b = log2(n);
            assert(layers[0].len() == two_pow(a));
            if a > b {
                crate::fft::lemma_two_pow_mono(b + 1, a);
                assert(two_pow(b + 1) == 2 * two_pow(b));
            } else if a < b {
                crate::fft::lemma_two_pow_mono(a, (b - 1) as nat);
                assert(two_pow(b) == 2 * two_pow((b - 1) as nat));
            }
            assert(layers[0] =~= crate::merkle::leaf_level::<F, H>(leaves@.map_values(|l: Vec<F>| l@), n));
        }
    }
    (tree, root)
}

/// One value per leaf.
fn single_leaves<F: ZkField>(values: &Vec<F>) -> (r: Vec<Vec<F>>)
    ensures
        r@.len() == values@.len(),
        forall|j: int| 0 <= j < values@.len() ==> (#[trigger] r@[j])@ == seq![values@[j]],
{
    let mut leaves: Vec<Vec<F>> = Vec::new();
    let mut j: usize = 0;
    while j < values.len()
        invariant
            j <= values@.len(),
            leaves@.len() == j,
            forall|k: int| 0 <= k < j ==> (#[trigger] leaves@[k])@ == seq![values@[k]],
        decreases values@.len() - j,
    {
        let mut leaf: Vec<F> = Vec::new();
        leaf.push(values[j]);
        leaves.push(leaf);
        j = j + 1;
    }
    leaves
}

/// An element-for-element copy.
fn copy_values<F: Copy>(values: &Vec<F>) -> (r: Vec<F>)
    ensures
        r@ == values@,
{
    let mut out: Vec<F> = Vec::new();
    let mut i: usize = 0;
    while i < values.len()
        invariant
            i <= values@.len(),
            out@ == values@.subrange(0, i as int),
        decreases values@.len() - i,
    {
        out.push(values[i]);
        i = i + 1;
    }
    assert(out@ =~= values@);
    out
}

/// The point of the evaluation coset at position `pos`.
pub open spec fn coset_point<F: TwoAdicField>(domain: nat, pos: nat) -> F {
    F::spec_from_u64(7).spec_mul(fpow(subgroup_root::<F>(domain), pos))
}

/// The `a` column as committed: the trace's low-degree extension, shifted by
/// `delta` at the corrupted position, if any.
pub open spec fn committed_a<F: TwoAdicField>(trace: Trace<F>, corruption: Option<(usize, F)>, domain: nat, pos: nat) -> F {
    let honest = at_point(trace.a@, coset_point::<F>(domain, pos));
    match corruption {
        Some((position, delta)) => if pos == position {
            honest.spec_add(delta)
        } else {
            honest
        },
        None => honest,
    }
}

/// An opened point as an honest prover produces it: the three openings lead
/// to their roots, and the opened trace values are the committed columns'.
pub open spec fn honest_point<F: TwoAdicField, H: Hasher<F>>(
    roots: (Digest<F>, Digest<F>, Digest<F>),
    point: OpenedPoint<F>,
    pos: nat,
    trace: Trace<F>,
    corruption: Option<(usize, F)>,
    n: nat,
    domain: nat,
    z: Seq<F>,
    q: Seq<F>,
) -> bool {
    &&& opened_at::<F, H>(point.trace_proof, roots.0, pos, seq![point.a, point.b, point.c])
    &&& opened_at::<F, H>(point.z_proof, roots.1, pos, seq![point.z])
    &&& opened_at::<F, H>(point.q_proof, roots.2, pos, seq![point.q])
    &&& point.a == committed_a(trace, corruption, domain, pos)
    &&& point.b == at_point(trace.b@, coset_point::<F>(domain, pos))
    &&& point.c == at_point(trace.c@, coset_point::<F>(domain, pos))
    &&& point.z == at_point(z, coset_point::<F>(domain, pos))
    &&& point.q == q[pos as int]
}

/// The pair opened for FRI query `index`: at its low position in the
/// half-domain and at that position plus half the domain.
pub open spec fn honest_query_points<F: TwoAdicField, H: Hasher<F>>(
    roots: (Digest<F>, Digest<F>, Digest<F>),
    opened: StarkQuery<F>,
    index: nat,
    trace: Trace<F>,
    corruption: Option<(usize, F)>,
    n: nat,
    domain: nat,
    z: Seq<F>,
    q: Seq<F>,
) -> bool {
    let half = domain / 2;
    &&& honest_point::<F, H>(roots, opened.lo, index % half, trace, corruption, n, domain, z, q)
    &&& honest_point::<F, H>(roots, opened.hi, index % half + half, trace, corruption, n, domain, z, q)
}

/// The DEEP batch on the evaluation coset, as the prover forms it from the
/// committed columns, the values at `ζ` and the weights the transcript drew.
pub open spec fn honest_batch<F: TwoAdicField, H: Hasher<F>>(
    trace: Trace<F>,
    corruption: Option<(usize, F)>,
    z: Seq<F>,
    q_evals: Seq<F>,
    proof: StarkProof<F>,
    n: nat,
    domain: nat,
    zeta: F,
) -> Seq<F> {
    let column_exponent = (proof.degree_bound - (n - 1)) as nat;
    Seq::new(
        domain,
        |j: int|
            batch_at(
                deep_lambdas::<F, H>(proof),
                proof.ood,
                seq![
                    committed_a(trace, corruption, domain, j as nat),
                    at_point(trace.b@, coset_point::<F>(domain, j as nat)),
                    at_point(trace.c@, coset_point::<F>(domain, j as nat)),
                    at_point(z, coset_point::<F>(domain, j as nat)),
                    q_evals[j],
                ],
                zeta,
                zeta.spec_mul(subgroup_root::<F>(n)),
                coset_point::<F>(domain, j as nat),
                column_exponent,
            ),
    )
}

/// A STARK proof as the prover produces it for `trace`: the circuit's degree
/// bound, the roots of the committed trace, `Z` and quotient columns, one
/// opened pair per FRI query, honest openings, the columns' true values at
/// `ζ`, and an honest FRI proof of the DEEP batch from the transcript's state
/// after the values at `ζ`.
pub open spec fn stark_honest<F: TwoAdicField, H: Hasher<F>>(
    air: Air<F>,
    trace: Trace<F>,
    config: FriConfig,
    corruption: Option<(usize, F)>,
    proof: StarkProof<F>,
) -> bool {
    let n = air.n as nat;
    let db = stark_degree_bound(n);
    let domain = (db * config.blowup) as nat;
    let half = domain / 2;
    let zeta = ood_draw::<F, H>(state_after_q(proof), 0, n, domain, F::spec_from_u64(7))->0;
    let beta = squeeze::<F, H>(state_after_trace(proof), 0);
    let gamma = squeeze::<F, H>(state_after_trace(proof), 1);
    let z = trace_grand_product(air, trace, beta, gamma)->0;
    let alpha = squeeze::<F, H>(state_after_z(proof), 0);
    let q_evals = Seq::new(domain, |j: int| quotient_at(air, trace, z, beta, gamma, alpha, domain, j as nat));
    &&& proof.degree_bound == db
    &&& trace_grand_product(air, trace, beta, gamma) is Some
    &&& proof.trace_root.0@ == trace_commitment::<F, H>(trace, corruption, domain)
    &&& proof.z_root.0@ == column_commitment::<F, H>(Seq::new(domain, |j: int| at_point(z, coset_point::<F>(domain, j as nat))))
    &&& proof.q_root.0@ == column_commitment::<F, H>(q_evals)
    &&& proof.fri.queries@.len() == config.num_queries
    &&& proof.queries@.len() == proof.fri.queries@.len()
    &&& crate::fri::honest_fri::<F, H>(
        proof.fri,
        scaled(interpolated(honest_batch::<F, H>(trace, corruption, z, q_evals, proof, n, domain, zeta)), F::spec_from_u64(7).spec_inverse()->0),
        db,
        config.blowup as nat,
        config.num_queries as nat,
        state_after_ood(proof),
    )
    &&& forall|q: int|
        0 <= q < proof.queries@.len() ==> #[trigger] honest_query_points::<F, H>(
            (proof.trace_root, proof.z_root, proof.q_root),
            proof.queries@[q],
            proof.fri.queries@[q].index as nat,
            trace,
            corruption,
            n,
            domain,
            z,
            q_evals,
        )
    &&& proof.ood.a == at_point(trace.a@, zeta)
    &&& proof.ood.b == at_point(trace.b@, zeta)
    &&& proof.ood.c == at_point(trace.c@, zeta)
    &&& proof.ood.z == at_point(z, zeta)
    &&& proof.ood.z_next == at_point(z, zeta.spec_mul(subgroup_root::<F>(n)))
    &&& proof.ood.q == poly_eval(scaled(interpolated(q_evals), F::spec_from_u64(7).spec_inverse()->0), zeta)
}

/// The constraint quotient's divisions are defined on the whole evaluation
/// coset: `n·(x - 1)` and `x^n - 1` are invertible at every coset point.
pub open spec fn quotient_invertible<F: TwoAdicField>(n: nat, domain: nat) -> bool {
    forall|j: nat|
        j < domain ==> {
            let x = #[trigger] coset_point::<F>(domain, j);
            &&& F::spec_from_u64(n as u64).spec_mul(x.spec_sub(F::spec_one())).spec_inverse() is Some
            &&& fpow(x, n).spec_sub(F::spec_one()).spec_inverse() is Some
        }
}

/// What the protocol needs of the field and the sizes for `n` rows and a
/// blowup: a power-of-two blowup, sizes that fit, the trace
/// and evaluation subgroups, and the inverses FRI and the quotient divide by.
pub open spec fn field_ready<F: TwoAdicField>(n: nat, blowup: nat) -> bool {
    let db = stark_degree_bound(n);
    let domain = db * blowup;
    &&& n >= 1
    &&& subgroup_size::<F>(n)
    &&& blowup >= 1
    &&& two_pow(log2(blowup)) == blowup
    &&& n * blowup * 12 <= usize::MAX
    &&& subgroup_size::<F>(domain)
    &&& crate::fri::fri_invertible::<F>(domain, log2(db))
    &&& quotient_invertible::<F>(n, domain)
}

/// What the prover needs of its inputs: a ready AIR and field, a trace of
/// one canonical value per row, and a corrupted position, if any, inside the
/// evaluation domain.
pub open spec fn prover_ready<F: TwoAdicField>(
    air: Air<F>,
    trace: Trace<F>,
    config: FriConfig,
    corruption: Option<(usize, F)>,
) -> bool {
    let n = air.n as nat;
    &&& stark_air_ready(air)
    &&& field_ready::<F>(n, config.blowup as nat)
    &&& trace.a@.len() == n
    &&& trace.b@.len() == n
    &&& trace.c@.len() == n
    &&& all_wf(trace.a@)
    &&& all_wf(trace.b@)
    &&& all_wf(trace.c@)
    &&& (corruption matches Some((position, delta)) ==> position < stark_degree_bound(n) * (config.blowup as nat))
}

/// Open the three committed columns at `pos`.
fn open_point<F: TwoAdicField, H: Hasher<F>>(
    pos: usize,
    a: &Vec<F>,
    b: &Vec<F>,
    c: &Vec<F>,
    trace_tree: &MerkleTree<F>,
    trace_leaves: &Vec<Vec<F>>,
    z: &Vec<F>,
    z_tree: &MerkleTree<F>,
    z_leaves: &Vec<Vec<F>>,
    q: &Vec<F>,
    q_tree: &MerkleTree<F>,
    q_leaves: &Vec<Vec<F>>,
) -> (r: OpenedPoint<F>)
    requires
        pos < a@.len(),
        b@.len() == a@.len(),
        c@.len() == a@.len(),
        z@.len() == a@.len(),
        q@.len() == a@.len(),
        trace_leaves@.len() == a@.len(),
        z_leaves@.len() == a@.len(),
        q_leaves@.len() == a@.len(),
        commits::<F, H>(*trace_tree, trace_leaves@),
        commits::<F, H>(*z_tree, z_leaves@),
        commits::<F, H>(*q_tree, q_leaves@),
        forall|j: int| 0 <= j < a@.len() ==> (#[trigger] trace_leaves@[j])@ == seq![a@[j], b@[j], c@[j]],
        forall|j: int| 0 <= j < a@.len() ==> (#[trigger] z_leaves@[j])@ == seq![z@[j]],
        forall|j: int| 0 <= j < a@.len() ==> (#[trigger] q_leaves@[j])@ == seq![q@[j]],
    ensures
        r.a == a@[pos as int],
        r.b == b@[pos as int],
        r.c == c@[pos as int],
        r.z == z@[pos as int],
        r.q == q@[pos as int],
        path_root::<F, H>(H::spec_hash(r.trace_proof.leaf@), pos as nat, r.trace_proof.sibling_view())
            == trace_tree.spec_root(),
        r.trace_proof.index == pos,
        r.trace_proof.leaf@ == seq![r.a, r.b, r.c],
        path_root::<F, H>(H::spec_hash(r.z_proof.leaf@), pos as nat, r.z_proof.sibling_view()) == z_tree.spec_root(),
        r.z_proof.index == pos,
        r.z_proof.leaf@ == seq![r.z],
        path_root::<F, H>(H::spec_hash(r.q_proof.leaf@), pos as nat, r.q_proof.sibling_view()) == q_tree.spec_root(),
        r.q_proof.index == pos,
        r.q_proof.leaf@ == seq![r.q],
{
    let trace_proof = open_leaf::<F, H>(trace_tree, trace_leaves, pos);
    let z_proof = open_leaf::<F, H>(z_tree, z_leaves, pos);
    let q_proof = open_leaf::<F, H>(q_tree, q_leaves, pos);
    assert(trace_leaves@[pos as int]@ == seq![a@[pos as int], b@[pos as int], c@[pos as int]]);
    OpenedPoint { a: a[pos], b: b[pos], c: c[pos], trace_proof, z: z[pos], z_proof, q: q[pos], q_proof }
}

/// The trace's leaves: one row `(a, b, c)` per evaluation point.
fn trace_rows<F: Copy>(a: &Vec<F>, b: &Vec<F>, c: &Vec<F>) -> (r: Vec<Vec<F>>)
    requires
        b@.len() == a@.len(),
        c@.len() == a@.len(),
    ensures
        r@.len() == a@.len(),
        forall|j: int| 0 <= j < a@.len() ==> (#[trigger] r@[j])@ == seq![a@[j], b@[j], c@[j]],
{
    let mut leaves: Vec<Vec<F>> = Vec::new();
    let mut j: usize = 0;
    while j < a.len()
        invariant
            j <= a@.len(),
            b@.len() == a@.len(),
            c@.len() == a@.len(),
            leaves@.len() == j,
            forall|k: int| 0 <= k < j ==> (#[trigger] leaves@[k])@ == seq![a@[k], b@[k], c@[k]],
        decreases a@.len() - j,
    {
        let mut leaf: Vec<F> = Vec::new();
        leaf.push(a[j]);
        leaf.push(b[j]);
        leaf.push(c[j]);
        assert(leaf@ =~= seq![a@[j as int], b@[j as int], c@[j as int]]);
        leaves.push(leaf);
        j = j + 1;
    }
    leaves
}

/// The grand product `Z` on `H`: `Z(ω^0) = 1` and
/// `Z(ω^{i+1}) = Z(ω^i) · f_i / g_i`. `None` where a denominator `g_i` —
/// a product of transcript-derived factors — vanishes.
fn grand_product<F: TwoAdicField>(
    a: &Vec<F>,
    b: &Vec<F>,
    c: &Vec<F>,
    ids: &[Vec<F>; 3],
    sigmas: &[Vec<F>; 3],
    beta: F,
    gamma: F,
    n: usize,
) -> (r: Option<Vec<F>>)
    requires
        n >= 1,
        a@.len() == n,
        b@.len() == n,
        c@.len() == n,
        forall|j: int| 0 <= j < 3 ==> (#[trigger] ids@[j])@.len() == n && sigmas@[j]@.len() == n,
    ensures
        r matches Some(z) ==> z@.len() == n && all_wf(z@) && z@[0] == F::spec_one(),
        r is Some <==> grand_product_of(
            seq![a@, b@, c@],
            seq![ids@[0]@, ids@[1]@, ids@[2]@],
            seq![sigmas@[0]@, sigmas@[1]@, sigmas@[2]@],
            beta,
            gamma,
            n as nat,
        ) is Some,
        r matches Some(z) ==> Some(z@) == grand_product_of(
            seq![a@, b@, c@],
            seq![ids@[0]@, ids@[1]@, ids@[2]@],
            seq![sigmas@[0]@, sigmas@[1]@, sigmas@[2]@],
            beta,
            gamma,
            n as nat,
        ),
{
    let ghost cols = seq![a@, b@, c@];
    let ghost id_cols = seq![ids@[0]@, ids@[1]@, ids@[2]@];
    let ghost sigma_cols = seq![sigmas@[0]@, sigmas@[1]@, sigmas@[2]@];
    assert(ids@[0]@.len() == n && ids@[1]@.len() == n && ids@[2]@.len() == n);
    assert(sigmas@[0]@.len() == n && sigmas@[1]@.len() == n && sigmas@[2]@.len() == n);
    let mut z_h: Vec<F> = Vec::new();
    z_h.push(F::one());
    proof {
        lemma_basics(F::spec_one(), F::spec_one());
    }
    let mut i: usize = 0;
    while i + 1 < n
        invariant
            n >= 1,
            a@.len() == n,
            b@.len() == n,
            c@.len() == n,
            ids@[0]@.len() == n && ids@[1]@.len() == n && ids@[2]@.len() == n,
            sigmas@[0]@.len() == n && sigmas@[1]@.len() == n && sigmas@[2]@.len() == n,
            z_h@.len() == i + 1,
            i + 1 <= n,
            z_h@[0] == F::spec_one(),
            all_wf(z_h@),
            cols == seq![a@, b@, c@],
            id_cols == seq![ids@[0]@, ids@[1]@, ids@[2]@],
            sigma_cols == seq![sigmas@[0]@, sigmas@[1]@, sigmas@[2]@],
            Some(z_h@) == grand_product_of(cols, id_cols, sigma_cols, beta, gamma, (i + 1) as nat),
        decreases n - i,
    {
        let f = F::one().mul(a[i].add(beta.mul(ids[0][i])).add(gamma)).mul(b[i].add(beta.mul(ids[1][i])).add(gamma)).mul(
            c[i].add(beta.mul(ids[2][i])).add(gamma),
        );
        let g = F::one().mul(a[i].add(beta.mul(sigmas[0][i])).add(gamma)).mul(
            b[i].add(beta.mul(sigmas[1][i])).add(gamma),
        ).mul(c[i].add(beta.mul(sigmas[2][i])).add(gamma));
        let g_inverse = match g.inverse() {
            Some(v) => v,
            None => {
                proof {
                    lemma_grand_product_none_stays(cols, id_cols, sigma_cols, beta, gamma, (i + 2) as nat, n as nat);
                }
                return None;
            },
        };
        let next = z_h[i].mul(f).mul(g_inverse);
        proof {
            lemma_basics(z_h@[i as int].spec_mul(f), g_inverse);
        }
        z_h.push(next);
        i = i + 1;
    }
    Some(z_h)
}

/// Once the grand product fails at some length, it fails at every greater
/// length.
proof fn lemma_grand_product_none_stays<F: ZkField>(
    cols: Seq<Seq<F>>,
    ids: Seq<Seq<F>>,
    sigmas: Seq<Seq<F>>,
    beta: F,
    gamma: F,
    k: nat,
    m: nat,
)
    requires
        grand_product_of(cols, ids, sigmas, beta, gamma, k) is None,
        k <= m,
    ensures
        grand_product_of(cols, ids, sigmas, beta, gamma, m) is None,
    decreases m - k,
{
    if k < m {
        lemma_grand_product_none_stays(cols, ids, sigmas, beta, gamma, k, (m - 1) as nat);
    }
}

/// The composite constraint on the evaluation coset, divided by the
/// vanishing polynomial `x^n - 1` of `H`: the quotient's evaluations.
fn quotient_evals<F: TwoAdicField>(
    air: &Air<F>,
    a_e: &Vec<F>,
    b_e: &Vec<F>,
    c_e: &Vec<F>,
    selectors: &[Vec<F>; 5],
    ids: &[Vec<F>; 3],
    sigmas: &[Vec<F>; 3],
    z_e: &Vec<F>,
    beta: F,
    gamma: F,
    alpha: F,
    domain_size: usize,
) -> (r: Vec<F>)
    requires
        air.n >= 1,
        domain_size * 2 <= usize::MAX,
        subgroup_size::<F>(domain_size as nat),
        quotient_invertible::<F>(air.n as nat, domain_size as nat),
        a_e@.len() == domain_size && b_e@.len() == domain_size && c_e@.len() == domain_size,
        selectors@[0]@.len() == domain_size && selectors@[1]@.len() == domain_size && selectors@[2]@.len()
            == domain_size && selectors@[3]@.len() == domain_size && selectors@[4]@.len() == domain_size,
        ids@[0]@.len() == domain_size && ids@[1]@.len() == domain_size && ids@[2]@.len() == domain_size,
        sigmas@[0]@.len() == domain_size && sigmas@[1]@.len() == domain_size && sigmas@[2]@.len() == domain_size,
        z_e@.len() == domain_size,
    ensures
        r@.len() == domain_size,
        all_wf(r@),
        forall|j: int|
            0 <= j < domain_size ==> #[trigger] r@[j] == quotient_from(
                air.n as nat,
                coset_point::<F>(domain_size as nat, j as nat),
                seq![a_e@[j], b_e@[j], c_e@[j]],
                seq![selectors@[0]@[j], selectors@[1]@[j], selectors@[2]@[j], selectors@[3]@[j], selectors@[4]@[j]],
                seq![ids@[0]@[j], ids@[1]@[j], ids@[2]@[j]],
                seq![sigmas@[0]@[j], sigmas@[1]@[j], sigmas@[2]@[j]],
                z_e@[j],
                z_e@[(j + domain_size / air.n) % (domain_size as int)],
                beta,
                gamma,
                alpha,
            ),
{
    let n = air.n;
    let rotation = domain_size / n;
    assert(rotation <= domain_size) by (nonlinear_arith)
        requires
            n >= 1,
            rotation == domain_size / n,
    ;
    let shift = coset_shift::<F>();
    let bits = crate::fft::exact_log2(domain_size);
    let gen = F::two_adic_generator(bits);
    let n_field = F::from_u64(n as u64);
    let alpha2 = alpha.mul(alpha);
    let mut x = shift;
    proof {
        F::lemma_from_u64_wf(7);
        lemma_basics(shift, shift);
        crate::field::lemma_mul_comm(shift, F::spec_one());
        assert(fpow(gen, 0) == F::spec_one());
    }
    let mut q_e: Vec<F> = Vec::new();
    let mut jx: usize = 0;
    while jx < domain_size
        invariant
            jx <= domain_size,
            n == air.n,
            n >= 1,
            domain_size * 2 <= usize::MAX,
            gen == subgroup_root::<F>(domain_size as nat),
            shift == F::spec_from_u64(7),
            x == shift.spec_mul(fpow(gen, jx as nat)),
            n_field == F::spec_from_u64(n as u64),
            rotation <= domain_size,
            quotient_invertible::<F>(n as nat, domain_size as nat),
            a_e@.len() == domain_size && b_e@.len() == domain_size && c_e@.len() == domain_size,
            selectors@[0]@.len() == domain_size && selectors@[1]@.len() == domain_size && selectors@[2]@.len()
                == domain_size && selectors@[3]@.len() == domain_size && selectors@[4]@.len() == domain_size,
            ids@[0]@.len() == domain_size && ids@[1]@.len() == domain_size && ids@[2]@.len() == domain_size,
            sigmas@[0]@.len() == domain_size && sigmas@[1]@.len() == domain_size && sigmas@[2]@.len() == domain_size,
            z_e@.len() == domain_size,
            q_e@.len() == jx,
            all_wf(q_e@),
            rotation == domain_size / n,
            alpha2 == alpha.spec_mul(alpha),
            forall|j: int|
                0 <= j < jx ==> #[trigger] q_e@[j] == quotient_from(
                    air.n as nat,
                    coset_point::<F>(domain_size as nat, j as nat),
                    seq![a_e@[j], b_e@[j], c_e@[j]],
                    seq![selectors@[0]@[j], selectors@[1]@[j], selectors@[2]@[j], selectors@[3]@[j], selectors@[4]@[j]],
                    seq![ids@[0]@[j], ids@[1]@[j], ids@[2]@[j]],
                    seq![sigmas@[0]@[j], sigmas@[1]@[j], sigmas@[2]@[j]],
                    z_e@[j],
                    z_e@[(j + domain_size / air.n) % (domain_size as int)],
                    beta,
                    gamma,
                    alpha,
                ),
        decreases domain_size - jx,
    {
        let a = a_e[jx];
        let b = b_e[jx];
        let c = c_e[jx];

        // Gate constraint.
        let c_gate = air.gate_identity(
            a,
            b,
            c,
            selectors[0][jx],
            selectors[1][jx],
            selectors[2][jx],
            selectors[3][jx],
            selectors[4][jx],
        );

        // Permutation: f and g at this point.
        let f = F::one().mul(a.add(beta.mul(ids[0][jx])).add(gamma)).mul(b.add(beta.mul(ids[1][jx])).add(gamma)).mul(
            c.add(beta.mul(ids[2][jx])).add(gamma),
        );
        let g = F::one().mul(a.add(beta.mul(sigmas[0][jx])).add(gamma)).mul(b.add(beta.mul(sigmas[1][jx])).add(gamma)).mul(
            c.add(beta.mul(sigmas[2][jx])).add(gamma),
        );
        let z_here = z_e[jx];
        let z_shift = z_e[(jx + rotation) % domain_size];

        // L_0(x) = (x^n - 1) / (n (x - 1)); the recursion and the start.
        proof {
            assert(x == coset_point::<F>(domain_size as nat, jx as nat));
            lemma_basics(shift, fpow(gen, jx as nat));
        }
        let xn_minus_1 = crate::fft::pow(x, n as u64).sub(F::one());
        let l0 = xn_minus_1.mul(n_field.mul(x.sub(F::one())).inverse().unwrap());
        let c_start = l0.mul(z_here.sub(F::one()));
        let c_rec = z_shift.mul(g).sub(z_here.mul(f));
        let composite = c_gate.add(alpha.mul(c_start)).add(alpha2.mul(c_rec));
        let value = composite.mul(xn_minus_1.inverse().unwrap());
        proof {
            lemma_basics(composite, xn_minus_1.spec_inverse()->0);
        }
        q_e.push(value);
        proof {
            crate::field::lemma_mul_assoc(shift, fpow(gen, jx as nat), gen);
        }
        x = x.mul(gen);
        jx = jx + 1;
    }
    q_e
}

/// A nonempty batch is canonical.
proof fn lemma_deep_sum_wf<F: ZkField>(lambdas: Seq<F>, terms: Seq<(F, F)>, k: nat)
    requires
        k > 0,
    ensures
        deep_sum(lambdas, terms, k).wf(),
{
    let i = k - 1;
    let coefficient = lambdas[2 * i].spec_add(lambdas[2 * i + 1].spec_mul(terms[i].1));
    lemma_basics(deep_sum(lambdas, terms, i as nat), coefficient.spec_mul(terms[i].0));
}

/// The DEEP batch across the evaluation coset. `None` where `ζ` or `ζω`
/// falls on the coset, so that a quotient's denominator vanishes.
/// Every point of the size-`domain` coset is apart from `ζ` and from `ζω`:
/// the DEEP quotients are defined across the whole coset.
pub open spec fn batch_defined<F: TwoAdicField>(zeta: F, zeta_next: F, domain: nat) -> bool {
    forall|j: nat|
        j < domain ==> {
            &&& (#[trigger] coset_point::<F>(domain, j)).spec_sub(zeta).spec_inverse() is Some
            &&& coset_point::<F>(domain, j).spec_sub(zeta_next).spec_inverse() is Some
        }
}

/// The DEEP batch at the coset point `x`, from the columns' values there.
pub open spec fn batch_at<F: TwoAdicField>(
    lambdas: Seq<F>,
    ood: OodValues<F>,
    values: Seq<F>,
    zeta: F,
    zeta_next: F,
    x: F,
    column_exponent: nat,
) -> F {
    deep_sum(
        lambdas,
        deep_terms(
            ood,
            values[0],
            values[1],
            values[2],
            values[3],
            values[4],
            x.spec_sub(zeta).spec_inverse()->0,
            x.spec_sub(zeta_next).spec_inverse()->0,
            fpow(x, column_exponent),
            x,
        ),
        6,
    )
}

/// The root the prover commits the trace rows under: one leaf per coset
/// point, holding the committed `a` and the extensions of `b` and `c`.
pub open spec fn trace_commitment<F: TwoAdicField, H: Hasher<F>>(
    trace: Trace<F>,
    corruption: Option<(usize, F)>,
    domain: nat,
) -> Seq<F> {
    crate::merkle::level_root::<F, H>(
        crate::merkle::leaf_level::<F, H>(
            Seq::new(
                domain,
                |j: int|
                    seq![
                        committed_a(trace, corruption, domain, j as nat),
                        at_point(trace.b@, coset_point::<F>(domain, j as nat)),
                        at_point(trace.c@, coset_point::<F>(domain, j as nat)),
                    ],
            ),
            domain,
        ),
    )
}

/// The root a column of values is committed under, one value per leaf.
pub open spec fn column_commitment<F: ZkField, H: Hasher<F>>(values: Seq<F>) -> Seq<F> {
    crate::merkle::level_root::<F, H>(
        crate::merkle::leaf_level::<F, H>(Seq::new(values.len(), |j: int| seq![values[j]]), values.len()),
    )
}

/// Whether the prover finds no proof for `trace`: with the challenges the
/// transcript gives at each commitment, the grand product divides by zero,
/// no acceptable out-of-domain point is drawn, or the DEEP quotients are
/// undefined somewhere on the coset.
pub open spec fn stark_prover_fails<F: TwoAdicField, H: Hasher<F>>(
    air: Air<F>,
    trace: Trace<F>,
    config: FriConfig,
    corruption: Option<(usize, F)>,
) -> bool {
    let n = air.n as nat;
    let domain = stark_degree_bound(n) * (config.blowup as nat);
    let after_trace = spec_domain_separator::<F>() + trace_commitment::<F, H>(trace, corruption, domain);
    let beta = squeeze::<F, H>(after_trace, 0);
    let gamma = squeeze::<F, H>(after_trace, 1);
    match trace_grand_product(air, trace, beta, gamma) {
        None => true,
        Some(z) => {
            let after_z = after_trace + column_commitment::<F, H>(
                Seq::new(domain, |j: int| at_point(z, coset_point::<F>(domain, j as nat))),
            );
            let alpha = squeeze::<F, H>(after_z, 0);
            let after_q = after_z + column_commitment::<F, H>(
                Seq::new(domain, |j: int| quotient_at(air, trace, z, beta, gamma, alpha, domain, j as nat)),
            );
            match ood_draw::<F, H>(after_q, 0, n, domain, F::spec_from_u64(7)) {
                None => true,
                Some(zeta) => !batch_defined(zeta, zeta.spec_mul(subgroup_root::<F>(n)), domain),
            }
        },
    }
}

fn batch_evals<F: TwoAdicField>(
    lambdas: &Vec<F>,
    ood: &OodValues<F>,
    a: &Vec<F>,
    b: &Vec<F>,
    c: &Vec<F>,
    z: &Vec<F>,
    q: &Vec<F>,
    zeta: F,
    zeta_next: F,
    domain_size: usize,
    column_exponent: u64,
) -> (r: Option<Vec<F>>)
    requires
        lambdas@.len() >= 12,
        subgroup_size::<F>(domain_size as nat),
        a@.len() == domain_size && b@.len() == domain_size && c@.len() == domain_size && z@.len() == domain_size
            && q@.len() == domain_size,
    ensures
        r matches Some(v) ==> v@.len() == domain_size && all_wf(v@),
        r is Some <==> batch_defined(zeta, zeta_next, domain_size as nat),
        r matches Some(v) ==> forall|j: int|
            0 <= j < domain_size ==> #[trigger] v@[j] == batch_at(
                lambdas@,
                *ood,
                seq![a@[j], b@[j], c@[j], z@[j], q@[j]],
                zeta,
                zeta_next,
                coset_point::<F>(domain_size as nat, j as nat),
                column_exponent as nat,
            ),
{
    let shift = coset_shift::<F>();
    let bits = crate::fft::exact_log2(domain_size);
    let gen = F::two_adic_generator(bits);
    let mut x = shift;
    proof {
        F::lemma_from_u64_wf(7);
        lemma_basics(shift, shift);
        crate::field::lemma_mul_comm(shift, F::spec_one());
        assert(fpow(gen, 0) == F::spec_one());
    }
    let mut batch_e: Vec<F> = Vec::new();
    let mut jx: usize = 0;
    while jx < domain_size
        invariant
            jx <= domain_size,
            lambdas@.len() >= 12,
            gen == subgroup_root::<F>(domain_size as nat),
            shift == F::spec_from_u64(7),
            x == shift.spec_mul(fpow(gen, jx as nat)),
            a@.len() == domain_size && b@.len() == domain_size && c@.len() == domain_size && z@.len() == domain_size
                && q@.len() == domain_size,
            batch_e@.len() == jx,
            all_wf(batch_e@),
            forall|j: nat|
                j < jx ==> {
                    &&& (#[trigger] coset_point::<F>(domain_size as nat, j)).spec_sub(zeta).spec_inverse() is Some
                    &&& coset_point::<F>(domain_size as nat, j).spec_sub(zeta_next).spec_inverse() is Some
                },
            forall|j: int|
                0 <= j < jx ==> #[trigger] batch_e@[j] == batch_at(
                    lambdas@,
                    *ood,
                    seq![a@[j], b@[j], c@[j], z@[j], q@[j]],
                    zeta,
                    zeta_next,
                    coset_point::<F>(domain_size as nat, j as nat),
                    column_exponent as nat,
                ),
        decreases domain_size - jx,
    {
        proof {
            assert(x == coset_point::<F>(domain_size as nat, jx as nat));
        }
        let inv_zeta = match x.sub(zeta).inverse() {
            Some(v) => v,
            None => {
                proof {
                    assert(!batch_defined(zeta, zeta_next, domain_size as nat)) by {
                        assert(coset_point::<F>(domain_size as nat, jx as nat).spec_sub(zeta).spec_inverse() is None);
                    }
                }
                return None;
            },
        };
        let inv_zeta_next = match x.sub(zeta_next).inverse() {
            Some(v) => v,
            None => {
                proof {
                    assert(!batch_defined(zeta, zeta_next, domain_size as nat)) by {
                        assert(coset_point::<F>(domain_size as nat, jx as nat).spec_sub(zeta_next).spec_inverse() is None);
                    }
                }
                return None;
            },
        };
        proof {
            lemma_basics(shift, fpow(gen, jx as nat));
        }
        let value = deep_batch(
            lambdas.as_slice(),
            ood,
            a[jx],
            b[jx],
            c[jx],
            z[jx],
            q[jx],
            inv_zeta,
            inv_zeta_next,
            crate::fft::pow(x, column_exponent),
            x,
        );
        proof {
            lemma_deep_sum_wf(
                lambdas@,
                deep_terms(
                    *ood,
                    a@[jx as int],
                    b@[jx as int],
                    c@[jx as int],
                    z@[jx as int],
                    q@[jx as int],
                    inv_zeta,
                    inv_zeta_next,
                    fpow(x, column_exponent as nat),
                    x,
                ),
                6,
            );
        }
        let ghost before = batch_e@;
        batch_e.push(value);
        proof {
            crate::field::lemma_mul_assoc(shift, fpow(gen, jx as nat), gen);
            assert(seq![a@[jx as int], b@[jx as int], c@[jx as int], z@[jx as int], q@[jx as int]][3] == z@[jx as int]);
            assert forall|j: int| 0 <= j < jx + 1 implies #[trigger] batch_e@[j] == batch_at(
                lambdas@,
                *ood,
                seq![a@[j], b@[j], c@[j], z@[j], q@[j]],
                zeta,
                zeta_next,
                coset_point::<F>(domain_size as nat, j as nat),
                column_exponent as nat,
            ) by {
                if j < jx {
                    assert(batch_e@[j] == before[j]);
                }
            }
        }
        x = x.mul(gen);
        jx = jx + 1;
    }
    proof {
        assert forall|j: nat| j < domain_size implies {
            &&& (#[trigger] coset_point::<F>(domain_size as nat, j)).spec_sub(zeta).spec_inverse() is Some
            &&& coset_point::<F>(domain_size as nat, j).spec_sub(zeta_next).spec_inverse() is Some
        } by {}
    }
    Some(batch_e)
}

/// The label vectors, as the sequences the grand product reads.
proof fn lemma_labels_seq<F: TwoAdicField>(air: Air<F>, ids: Seq<Vec<F>>, sigmas: Seq<Vec<F>>)
    requires
        forall|j: int| 0 <= j < 3 ==> #[trigger] ids[j]@ == id_labels::<F>(air.n as nat, j) && sigmas[j]@ == sigma_labels(air, j),
    ensures
        seq![ids[0]@, ids[1]@, ids[2]@] == seq![
            id_labels::<F>(air.n as nat, 0),
            id_labels::<F>(air.n as nat, 1),
            id_labels::<F>(air.n as nat, 2),
        ],
        seq![sigmas[0]@, sigmas[1]@, sigmas[2]@] == seq![sigma_labels(air, 0), sigma_labels(air, 1), sigma_labels(air, 2)],
{
    assert(ids[0]@ == id_labels::<F>(air.n as nat, 0));
    assert(ids[1]@ == id_labels::<F>(air.n as nat, 1));
    assert(ids[2]@ == id_labels::<F>(air.n as nat, 2));
    assert(sigmas[0]@ == sigma_labels(air, 0));
    assert(sigmas[1]@ == sigma_labels(air, 1));
    assert(sigmas[2]@ == sigma_labels(air, 2));
}

/// The identity and permuted labels are canonical and are the spec's.
proof fn lemma_labels<F: TwoAdicField>(air: Air<F>, omega_pows: Seq<F>, ids: Seq<Vec<F>>, sigmas: Seq<Vec<F>>)
    requires
        stark_air_ready(air),
        omega_pows.len() == air.n,
        forall|i: int| 0 <= i < air.n ==> #[trigger] omega_pows[i] == fpow(subgroup_root::<F>(air.n as nat), i as nat),
        ids.len() == 3,
        sigmas.len() == 3,
        forall|j: int| 0 <= j < 3 ==> (#[trigger] ids[j])@.len() == air.n && sigmas[j]@.len() == air.n,
        forall|j: int, i: int|
            0 <= j < 3 && 0 <= i < air.n ==> {
                let target = air.sigma@[j * air.n + i] as int;
                &&& #[trigger] ids[j]@[i] == spec_column_reps::<F>()[j].spec_mul(omega_pows[i])
                &&& sigmas[j]@[i] == spec_column_reps::<F>()[target / (air.n as int)].spec_mul(
                    omega_pows[target % (air.n as int)],
                )
            },
    ensures
        forall|j: int|
            0 <= j < 3 ==> #[trigger] ids[j]@ == id_labels::<F>(air.n as nat, j) && all_wf(ids[j]@) && sigmas[j]@
                == sigma_labels(air, j) && all_wf(sigmas[j]@),
{
    let n = air.n;
    assert forall|j: int| 0 <= j < 3 implies #[trigger] ids[j]@ == id_labels::<F>(n as nat, j) && all_wf(ids[j]@)
        && sigmas[j]@ == sigma_labels(air, j) && all_wf(sigmas[j]@) by {
        assert forall|i: int|
            #![trigger ids[j]@[i]]
            #![trigger sigmas[j]@[i]]
            0 <= i < n implies ids[j]@[i].wf() && sigmas[j]@[i].wf() && ids[j]@[i] == id_labels::<F>(n as nat, j)[i]
            && sigmas[j]@[i] == sigma_labels(air, j)[i] by {
            assert(0 <= j * n + i < 3 * n) by (nonlinear_arith)
                requires
                    0 <= j < 3,
                    0 <= i < n,
            ;
            let t = air.sigma@[j * n + i] as int;
            assert(0 <= t % (n as int) < n && 0 <= t / (n as int) < 3) by (nonlinear_arith)
                requires
                    n > 0,
                    0 <= t < 3 * n,
            ;
            assert(omega_pows[t % (n as int)] == fpow(subgroup_root::<F>(n as nat), (t % (n as int)) as nat));
            lemma_basics(spec_column_reps::<F>()[j], omega_pows[i]);
            lemma_basics(spec_column_reps::<F>()[t / (n as int)], omega_pows[t % (n as int)]);
            assert(ids[j]@[i] == id_labels::<F>(n as nat, j)[i]);
            assert(sigmas[j]@[i] == spec_column_reps::<F>()[t / (n as int)].spec_mul(omega_pows[t % (n as int)]));
            assert(sigmas[j]@[i] == sigma_labels(air, j)[i]);
        }
        assert(ids[j]@ =~= id_labels::<F>(n as nat, j));
        assert(sigmas[j]@ =~= sigma_labels(air, j));
    }
}

/// The prover. `None` where a transcript-derived quantity the protocol
/// divides by vanishes: a grand-product denominator, or `ζ` drawn onto
/// the evaluation coset (or no acceptable `ζ` in 64 draws).
fn prove_inner<F: TwoAdicField, H: Hasher<F>>(
    air: &Air<F>,
    trace: &Trace<F>,
    config: &FriConfig,
    corruption: Option<(usize, F)>,
) -> (r: Option<StarkProof<F>>)
    requires
        H::WIDTH >= 1,
        prover_ready(*air, *trace, *config, corruption),
    ensures
        r matches Some(p) ==> stark_honest::<F, H>(*air, *trace, *config, corruption, p),
        r is None <==> stark_prover_fails::<F, H>(*air, *trace, *config, corruption),
{
    let n = air.n;
    let blowup = config.blowup;
    assert(3 * n * 2 <= usize::MAX) by (nonlinear_arith)
        requires
            n * blowup * 12 <= usize::MAX,
            blowup >= 1,
    ;
    let omega_pows = omega_powers::<F>(n);
    let (id_evals, sigma_evals) = air.permutation_label_evals(&omega_pows);
    proof {
        lemma_labels(*air, omega_pows@, id_evals@, sigma_evals@);
    }

    // The composite quotient's degree is dominated by the permutation
    // recursion (degree < 4n), so Q = composite/Z_H has degree < 3n.
    let degree_bound = next_power_of_two(3 * n);
    assert(degree_bound * blowup * 2 <= usize::MAX && degree_bound >= n) by (nonlinear_arith)
        requires
            n * blowup * 12 <= usize::MAX,
            degree_bound < 2 * (3 * n),
            degree_bound >= 3 * n,
    ;
    let domain_size = degree_bound * blowup;
    assert(domain_size >= degree_bound) by (nonlinear_arith)
        requires
            domain_size == degree_bound * blowup,
            blowup >= 1,
    ;
    let ghost domain = domain_size as nat;
    let shift = coset_shift::<F>();
    proof {
        F::lemma_from_u64_wf(7);
        // The shift itself is the coset's first point, which FRI inverts.
        if log2(degree_bound as nat) == 0 {
            assert(two_pow(0) == 1);
        }
        assert(two_pow(0) == 1);
        assert(domain / two_pow(0) == domain);
        assert(crate::fri::coset_invertible::<F>(fpow(F::spec_from_u64(7), two_pow(0)), domain / two_pow(0)));
        assert(fpow(shift, 1) == F::spec_one().spec_mul(shift)) by {
            reveal_with_fuel(fpow, 2);
        }
        lemma_basics(shift, shift);
        lemma_basics(F::spec_one(), shift);
        crate::field::lemma_mul_comm(F::spec_one(), shift);
        assert(fpow(F::spec_from_u64(7), two_pow(0)) == shift);
        assert(fpow(subgroup_root::<F>(domain), 0) == F::spec_one());
        assert(domain / 2 > 0);
        assert((fpow(F::spec_from_u64(7), two_pow(0)).spec_mul(fpow(subgroup_root::<F>(domain / two_pow(0)), 0))).spec_inverse() is Some);
        crate::field::lemma_mul_comm(shift, F::spec_one());
        assert(shift.spec_inverse() is Some);
        F::lemma_inverse_wf(shift);
    }

    // Column and selector coefficients, then coset evaluations.
    proof {
        lemma_inverse_is_primitive::<F>(n as nat);
    }
    let a_c = to_coeffs(&trace.a);
    let b_c = to_coeffs(&trace.b);
    let c_c = to_coeffs(&trace.c);
    let ql_c = to_coeffs(&air.q_l);
    let qr_c = to_coeffs(&air.q_r);
    let qo_c = to_coeffs(&air.q_o);
    let qm_c = to_coeffs(&air.q_m);
    let qc_c = to_coeffs(&air.q_c);

    let a_e = coset_evaluate(&a_c, shift, domain_size);
    let b_e = coset_evaluate(&b_c, shift, domain_size);
    let c_e = coset_evaluate(&c_c, shift, domain_size);
    let ql_e = coset_evaluate(&ql_c, shift, domain_size);
    let qr_e = coset_evaluate(&qr_c, shift, domain_size);
    let qo_e = coset_evaluate(&qo_c, shift, domain_size);
    let qm_e = coset_evaluate(&qm_c, shift, domain_size);
    let qc_e = coset_evaluate(&qc_c, shift, domain_size);

    // What gets committed need not be what the quotient is built from — that
    // gap is exactly what `prove_with_corrupted_column` exercises, and what the
    // DEEP batch closes. For an honest prover the two are the same vector.
    let a_committed = match corruption {
        None => copy_values(&a_e),
        Some((position, delta)) => {
            let mut corrupted = copy_values(&a_e);
            let shifted = corrupted[position].add(delta);
            corrupted.set(position, shifted);
            corrupted
        },
    };
    proof {
        assert forall|j: int| 0 <= j < domain_size implies (#[trigger] a_committed@[j]) == committed_a(
            *trace,
            corruption,
            domain,
            j as nat,
        ) by {
            assert(coset_point::<F>(domain, j as nat) == shift.spec_mul(fpow(subgroup_root::<F>(domain), j as nat)));
        }
    }

    // Commit the trace, then draw the permutation challenges from it.
    let trace_leaves = trace_rows(&a_committed, &b_e, &c_e);
    let (trace_tree, trace_root) = commit_leaves::<F, H>(&trace_leaves);
    let ghost trace_values = Seq::new(
        domain,
        |j: int|
            seq![
                committed_a(*trace, corruption, domain, j as nat),
                at_point(trace.b@, coset_point::<F>(domain, j as nat)),
                at_point(trace.c@, coset_point::<F>(domain, j as nat)),
            ],
    );
    let ghost trace_views = trace_leaves@.map_values(|l: Vec<F>| l@);
    proof {
        assert forall|j: int| 0 <= j < domain implies #[trigger] trace_views[j] == trace_values[j] by {
            assert(coset_point::<F>(domain, j as nat) == shift.spec_mul(fpow(subgroup_root::<F>(domain), j as nat)));
        }
        assert(trace_views =~= trace_values);
        assert(trace_root.0@ == trace_commitment::<F, H>(*trace, corruption, domain));
    }

    let separator = domain_separator::<F>();
    let mut transcript = Transcript::<F, H>::new(separator.as_slice());
    transcript.absorb_digest(&trace_root);
    let beta = transcript.challenge();
    let gamma = transcript.challenge();
    let ghost after_trace = spec_domain_separator::<F>() + trace_commitment::<F, H>(*trace, corruption, domain);
    proof {
        assert(beta == squeeze::<F, H>(after_trace, 0));
        assert(gamma == squeeze::<F, H>(after_trace, 1));
        assert(stark_degree_bound(n as nat) * (config.blowup as nat) == domain);
    }

    // Grand product Z on H.
    let z_h = match grand_product(&trace.a, &trace.b, &trace.c, &id_evals, &sigma_evals, beta, gamma, n) {
        Some(z) => z,
        None => {
            proof {
                lemma_labels_seq(*air, id_evals@, sigma_evals@);
                assert(trace_grand_product(*air, *trace, beta, gamma) is None);
            }
            return None;
        },
    };
    proof {
        lemma_labels_seq(*air, id_evals@, sigma_evals@);
    }
    let ghost z_spec = z_h@;
    let z_c = to_coeffs(&z_h);
    let z_e = coset_evaluate(&z_c, shift, domain_size);
    let z_leaves = single_leaves(&z_e);
    let (z_tree, z_root) = commit_leaves::<F, H>(&z_leaves);
    let ghost z_values = Seq::new(domain, |j: int| at_point(z_spec, coset_point::<F>(domain, j as nat)));
    let ghost z_views = z_leaves@.map_values(|l: Vec<F>| l@);
    proof {
        assert forall|j: int| 0 <= j < domain implies #[trigger] z_views[j] == seq![z_values[j]] by {
            assert(coset_point::<F>(domain, j as nat) == shift.spec_mul(fpow(subgroup_root::<F>(domain), j as nat)));
        }
        assert(z_views =~= Seq::new(z_values.len(), |j: int| seq![z_values[j]]));
        assert(z_root.0@ == column_commitment::<F, H>(z_values));
    }
    transcript.absorb_digest(&z_root);
    let alpha = transcript.challenge();
    let ghost after_z = after_trace + column_commitment::<F, H>(z_values);
    proof {
        assert(trace_grand_product(*air, *trace, beta, gamma) == Some(z_spec));
        assert(alpha == squeeze::<F, H>(after_z, 0));
    }

    // Label polynomials on the coset.
    let id_e = [
        coset_evaluate(&to_coeffs(&id_evals[0]), shift, domain_size),
        coset_evaluate(&to_coeffs(&id_evals[1]), shift, domain_size),
        coset_evaluate(&to_coeffs(&id_evals[2]), shift, domain_size),
    ];
    let sigma_e = [
        coset_evaluate(&to_coeffs(&sigma_evals[0]), shift, domain_size),
        coset_evaluate(&to_coeffs(&sigma_evals[1]), shift, domain_size),
        coset_evaluate(&to_coeffs(&sigma_evals[2]), shift, domain_size),
    ];
    let selectors_e = [ql_e, qr_e, qo_e, qm_e, qc_e];

    // Composite constraint on the coset, then the quotient.
    let q_e = quotient_evals(air, &a_e, &b_e, &c_e, &selectors_e, &id_e, &sigma_e, &z_e, beta, gamma, alpha, domain_size);
    let q_c = coset_interpolate(&q_e, shift);

    // Commit the quotient, then go out of domain. Every column the verifier
    // will hear a claim about is now fixed, so ζ cannot be chosen to suit them.
    let ghost q_values = Seq::new(
        domain,
        |j: int| quotient_at(*air, *trace, z_spec, beta, gamma, alpha, domain, j as nat),
    );
    proof {
        assert forall|j: int| 0 <= j < domain implies #[trigger] q_e@[j] == q_values[j] by {
            let jn = (j + domain_size / air.n) % (domain_size as int);
            assert(0 <= jn < domain);
            assert(coset_point::<F>(domain, j as nat) == shift.spec_mul(fpow(subgroup_root::<F>(domain), j as nat)));
            assert(coset_point::<F>(domain, jn as nat) == shift.spec_mul(fpow(subgroup_root::<F>(domain), jn as nat)));
            assert(id_evals@[0]@ == id_labels::<F>(n as nat, 0));
            assert(id_evals@[1]@ == id_labels::<F>(n as nat, 1));
            assert(id_evals@[2]@ == id_labels::<F>(n as nat, 2));
            assert(sigma_evals@[0]@ == sigma_labels(*air, 0));
            assert(sigma_evals@[1]@ == sigma_labels(*air, 1));
            assert(sigma_evals@[2]@ == sigma_labels(*air, 2));
        }
    }
    proof {
        assert(q_e@ =~= q_values);
        assert(q_c@ =~= scaled(interpolated(q_values), F::spec_from_u64(7).spec_inverse()->0));
    }
    let q_leaves = single_leaves(&q_e);
    let (q_tree, q_root) = commit_leaves::<F, H>(&q_leaves);
    let ghost q_views = q_leaves@.map_values(|l: Vec<F>| l@);
    proof {
        assert forall|j: int| 0 <= j < domain implies #[trigger] q_views[j] == seq![q_values[j]] by {}
        assert(q_views =~= Seq::new(q_values.len(), |j: int| seq![q_values[j]]));
        assert(q_root.0@ == column_commitment::<F, H>(q_values));
    }
    transcript.absorb_digest(&q_root);
    let ghost after_q = after_z + column_commitment::<F, H>(q_values);

    let zeta = match draw_ood_point::<F, H>(&mut transcript, n, domain_size, shift) {
        Some(z) => z,
        None => {
            proof {
                assert(ood_draw::<F, H>(after_q, 0, n as nat, domain, F::spec_from_u64(7)) is None);
            }
            return None;
        },
    };
    let omega = F::two_adic_generator(crate::fft::exact_log2(n));
    let zeta_next = zeta.mul(omega);
    proof {
        assert(ood_draw::<F, H>(after_q, 0, n as nat, domain, F::spec_from_u64(7)) == Some(zeta));
        assert(omega == subgroup_root::<F>(n as nat));
    }

    let ood = OodValues {
        a: evaluate(&a_c, zeta),
        b: evaluate(&b_c, zeta),
        c: evaluate(&c_c, zeta),
        z: evaluate(&z_c, zeta),
        z_next: evaluate(&z_c, zeta_next),
        q: evaluate(&q_c, zeta),
    };
    proof {
        assert(ood.q == poly_eval(scaled(interpolated(q_values), F::spec_from_u64(7).spec_inverse()->0), zeta));
    }
    let ood_values = ood.as_slice();
    transcript.absorb(&ood_values);
    let lambdas = transcript.challenges(2 * NUM_DEEP_QUOTIENTS);

    // The DEEP batch across the domain, then FRI on it. Degree corrections: the
    // column quotients have degree < n-1 and the quotient's < degree_bound-1, so
    // each padded term lands just inside the FRI bound.
    let column_exponent = (degree_bound - (n - 1)) as u64;
    let batch_e = match batch_evals(
        &lambdas,
        &ood,
        &a_committed,
        &b_e,
        &c_e,
        &z_e,
        &q_e,
        zeta,
        zeta_next,
        domain_size,
        column_exponent,
    ) {
        Some(v) => v,
        None => {
            proof {
                assert(!batch_defined(zeta, zeta_next, domain));
            }
            return None;
        },
    };
    proof {
        assert(batch_defined(zeta, zeta.spec_mul(subgroup_root::<F>(n as nat)), domain));
        assert(!stark_prover_fails::<F, H>(*air, *trace, *config, corruption));
    }
    let batch_c = coset_interpolate(&batch_e, shift);
    let ghost batch_values = Seq::new(
        domain,
        |j: int|
            batch_at(
                lambdas@,
                ood,
                seq![
                    committed_a(*trace, corruption, domain, j as nat),
                    at_point(trace.b@, coset_point::<F>(domain, j as nat)),
                    at_point(trace.c@, coset_point::<F>(domain, j as nat)),
                    at_point(z_spec, coset_point::<F>(domain, j as nat)),
                    q_values[j],
                ],
                zeta,
                zeta_next,
                coset_point::<F>(domain, j as nat),
                column_exponent as nat,
            ),
    );
    proof {
        assert forall|j: int| 0 <= j < domain implies #[trigger] batch_e@[j] == batch_values[j] by {
            assert(coset_point::<F>(domain, j as nat) == shift.spec_mul(fpow(subgroup_root::<F>(domain), j as nat)));
            assert(seq![a_committed@[j], b_e@[j], c_e@[j], z_e@[j], q_e@[j]] =~= seq![
                committed_a(*trace, corruption, domain, j as nat),
                at_point(trace.b@, coset_point::<F>(domain, j as nat)),
                at_point(trace.c@, coset_point::<F>(domain, j as nat)),
                at_point(z_spec, coset_point::<F>(domain, j as nat)),
                q_values[j],
            ]);
        }
        assert(batch_e@ =~= batch_values);
        assert(batch_c@ =~= scaled(interpolated(batch_values), F::spec_from_u64(7).spec_inverse()->0));
    }
    let ghost fri_start = transcript.spec_state();
    let fri_proof = fri::prove::<F, H>(&batch_c, degree_bound, config, &mut transcript);

    let half0 = domain_size / 2;
    let ghost roots = (trace_root, z_root, q_root);
    let mut queries: Vec<StarkQuery<F>> = Vec::new();
    let mut qi: usize = 0;
    while qi < fri_proof.queries.len()
        invariant
            qi <= fri_proof.queries@.len(),
            half0 == domain_size / 2,
            domain == domain_size,
            domain_size >= 2,
            a_committed@.len() == domain_size,
            b_e@.len() == domain_size,
            c_e@.len() == domain_size,
            z_e@.len() == domain_size,
            q_e@.len() == domain_size,
            trace_leaves@.len() == domain_size,
            z_leaves@.len() == domain_size,
            q_leaves@.len() == domain_size,
            commits::<F, H>(trace_tree, trace_leaves@),
            commits::<F, H>(z_tree, z_leaves@),
            commits::<F, H>(q_tree, q_leaves@),
            trace_root.0@ == trace_tree.spec_root(),
            z_root.0@ == z_tree.spec_root(),
            q_root.0@ == q_tree.spec_root(),
            roots == (trace_root, z_root, q_root),
            forall|j: int| 0 <= j < domain_size ==> (#[trigger] trace_leaves@[j])@ == seq![a_committed@[j], b_e@[j], c_e@[j]],
            forall|j: int| 0 <= j < domain_size ==> (#[trigger] z_leaves@[j])@ == seq![z_e@[j]],
            forall|j: int| 0 <= j < domain_size ==> (#[trigger] q_leaves@[j])@ == seq![q_e@[j]],
            forall|j: int|
                0 <= j < domain_size ==> (#[trigger] a_committed@[j]) == committed_a(*trace, corruption, domain, j as nat),
            forall|j: int|
                0 <= j < domain_size ==> #[trigger] b_e@[j] == poly_eval(
                    b_c@,
                    shift.spec_mul(fpow(subgroup_root::<F>(domain_size as nat), j as nat)),
                ),
            forall|j: int|
                0 <= j < domain_size ==> #[trigger] c_e@[j] == poly_eval(
                    c_c@,
                    shift.spec_mul(fpow(subgroup_root::<F>(domain_size as nat), j as nat)),
                ),
            inverse_is_primitive::<F>(n as nat),
            b_c@ == interpolated(trace.b@),
            c_c@ == interpolated(trace.c@),
            shift == F::spec_from_u64(7),
            n == air.n,
            queries@.len() == qi,
            forall|q: int|
                0 <= q < qi ==> #[trigger] honest_query_points::<F, H>(
                    roots,
                    queries@[q],
                    fri_proof.queries@[q].index as nat,
                    *trace,
                    corruption,
                    n as nat,
                    domain,
                    z_h@,
                    q_values,
                ),
            forall|j: int| 0 <= j < domain_size ==> #[trigger] q_e@[j] == q_values[j],
            forall|j: int|
                0 <= j < domain_size ==> #[trigger] z_e@[j] == poly_eval(
                    z_c@,
                    shift.spec_mul(fpow(subgroup_root::<F>(domain_size as nat), j as nat)),
                ),
            z_c@ == interpolated(z_h@),
        decreases fri_proof.queries@.len() - qi,
    {
        let lo = fri_proof.queries[qi].index % half0;
        let hi = lo + half0;
        let lo_point = open_point::<F, H>(
            lo,
            &a_committed,
            &b_e,
            &c_e,
            &trace_tree,
            &trace_leaves,
            &z_e,
            &z_tree,
            &z_leaves,
            &q_e,
            &q_tree,
            &q_leaves,
        );
        let hi_point = open_point::<F, H>(
            hi,
            &a_committed,
            &b_e,
            &c_e,
            &trace_tree,
            &trace_leaves,
            &z_e,
            &z_tree,
            &z_leaves,
            &q_e,
            &q_tree,
            &q_leaves,
        );
        proof {
            assert(coset_point::<F>(domain, lo as nat) == shift.spec_mul(fpow(subgroup_root::<F>(domain), lo as nat)));
            assert(coset_point::<F>(domain, hi as nat) == shift.spec_mul(fpow(subgroup_root::<F>(domain), hi as nat)));
        }
        queries.push(StarkQuery { lo: lo_point, hi: hi_point });
        qi = qi + 1;
    }
    let proof = StarkProof { trace_root, z_root, q_root, ood, fri: fri_proof, queries, degree_bound };
    proof {
        assert(fri_start == state_after_ood(proof));
        assert(lambdas@ =~= deep_lambdas::<F, H>(proof));
        assert(batch_values =~= honest_batch::<F, H>(*trace, corruption, z_spec, q_values, proof, n as nat, domain, zeta));
        assert(crate::fri::honest_fri::<F, H>(
            proof.fri,
            batch_c@,
            degree_bound as nat,
            config.blowup as nat,
            config.num_queries as nat,
            state_after_ood(proof),
        ));
    }
    Some(proof)
}

/// A zero shift at position `position` commits the honest column.
proof fn lemma_zero_shift_commits_honestly<F: TwoAdicField>(trace: Trace<F>, position: usize, domain: nat)
    ensures
        forall|pos: nat| #[trigger] committed_a(trace, Some((position, F::spec_zero())), domain, pos) == committed_a(trace, None, domain, pos),
{
    assert forall|pos: nat| #[trigger] committed_a(trace, Some((position, F::spec_zero())), domain, pos) == committed_a(trace, None, domain, pos) by {
        let honest = at_point(trace.a@, coset_point::<F>(domain, pos));
        crate::fft::lemma_poly_eval_wf(interpolated(trace.a@), coset_point::<F>(domain, pos));
        lemma_basics(honest, honest);
    }
}

/// A corruption of zero corrupts nothing: the prover that shifts one
/// committed value by zero fails exactly when the honest prover does, and the
/// proofs it may produce are the honest prover's.
pub proof fn law_zero_corruption_is_honest<F: TwoAdicField, H: Hasher<F>>(
    air: Air<F>,
    trace: Trace<F>,
    config: FriConfig,
    position: usize,
    proof: StarkProof<F>,
)
    ensures
        stark_prover_fails::<F, H>(air, trace, config, Some((position, F::spec_zero()))) == stark_prover_fails::<F, H>(
            air,
            trace,
            config,
            None,
        ),
        stark_honest::<F, H>(air, trace, config, Some((position, F::spec_zero())), proof) == stark_honest::<F, H>(
            air,
            trace,
            config,
            None,
            proof,
        ),
{
    let zc = Some((position, F::spec_zero()));
    let n = air.n as nat;
    let domain = (stark_degree_bound(n) * config.blowup) as nat;
    assert(domain == stark_degree_bound(n) * (config.blowup as nat));
    lemma_zero_shift_commits_honestly(trace, position, domain);
    let leaves_z = Seq::new(
        domain,
        |j: int|
            seq![
                committed_a(trace, zc, domain, j as nat),
                at_point(trace.b@, coset_point::<F>(domain, j as nat)),
                at_point(trace.c@, coset_point::<F>(domain, j as nat)),
            ],
    );
    let leaves_h = Seq::new(
        domain,
        |j: int|
            seq![
                committed_a(trace, None, domain, j as nat),
                at_point(trace.b@, coset_point::<F>(domain, j as nat)),
                at_point(trace.c@, coset_point::<F>(domain, j as nat)),
            ],
    );
    assert(leaves_z =~= leaves_h) by {
        assert forall|j: int| 0 <= j < domain implies #[trigger] leaves_z[j] == leaves_h[j] by {
            assert(committed_a(trace, zc, domain, j as nat) == committed_a(trace, None, domain, j as nat));
            assert(leaves_z[j] =~= leaves_h[j]);
        }
    }
    assert(trace_commitment::<F, H>(trace, zc, domain) == trace_commitment::<F, H>(trace, None, domain));
    let db = stark_degree_bound(n);
    let zeta = ood_draw::<F, H>(state_after_q(proof), 0, n, domain, F::spec_from_u64(7))->0;
    let beta = squeeze::<F, H>(state_after_trace(proof), 0);
    let gamma = squeeze::<F, H>(state_after_trace(proof), 1);
    let z = trace_grand_product(air, trace, beta, gamma)->0;
    let alpha = squeeze::<F, H>(state_after_z(proof), 0);
    let q_evals = Seq::new(domain, |j: int| quotient_at(air, trace, z, beta, gamma, alpha, domain, j as nat));
    let bz = honest_batch::<F, H>(trace, zc, z, q_evals, proof, n, domain, zeta);
    let bh = honest_batch::<F, H>(trace, None, z, q_evals, proof, n, domain, zeta);
    assert(bz =~= bh) by {
        assert forall|j: int| 0 <= j < domain implies #[trigger] bz[j] == bh[j] by {
            assert(committed_a(trace, zc, domain, j as nat) == committed_a(trace, None, domain, j as nat));
            assert(seq![
                committed_a(trace, zc, domain, j as nat),
                at_point(trace.b@, coset_point::<F>(domain, j as nat)),
                at_point(trace.c@, coset_point::<F>(domain, j as nat)),
                at_point(z, coset_point::<F>(domain, j as nat)),
                q_evals[j],
            ] =~= seq![
                committed_a(trace, None, domain, j as nat),
                at_point(trace.b@, coset_point::<F>(domain, j as nat)),
                at_point(trace.c@, coset_point::<F>(domain, j as nat)),
                at_point(z, coset_point::<F>(domain, j as nat)),
                q_evals[j],
            ]);
        }
    }
    assert forall|q: int| 0 <= q < proof.queries@.len() implies #[trigger] honest_query_points::<F, H>(
        (proof.trace_root, proof.z_root, proof.q_root),
        proof.queries@[q],
        proof.fri.queries@[q].index as nat,
        trace,
        zc,
        n,
        domain,
        z,
        q_evals,
    ) == honest_query_points::<F, H>(
        (proof.trace_root, proof.z_root, proof.q_root),
        proof.queries@[q],
        proof.fri.queries@[q].index as nat,
        trace,
        None,
        n,
        domain,
        z,
        q_evals,
    ) by {
        let half = domain / 2;
        let idx = proof.fri.queries@[q].index as nat;
        assert(committed_a(trace, zc, domain, idx % half) == committed_a(trace, None, domain, idx % half));
        assert(committed_a(trace, zc, domain, idx % half + half) == committed_a(trace, None, domain, idx % half + half));
    }
    assert(scaled(interpolated(bz), F::spec_from_u64(7).spec_inverse()->0) == scaled(interpolated(bh), F::spec_from_u64(7).spec_inverse()->0));
    let roots = (proof.trace_root, proof.z_root, proof.q_root);
    let all_z = forall|q: int|
        0 <= q < proof.queries@.len() ==> #[trigger] honest_query_points::<F, H>(
            roots,
            proof.queries@[q],
            proof.fri.queries@[q].index as nat,
            trace,
            zc,
            n,
            domain,
            z,
            q_evals,
        );
    let all_h = forall|q: int|
        0 <= q < proof.queries@.len() ==> #[trigger] honest_query_points::<F, H>(
            roots,
            proof.queries@[q],
            proof.fri.queries@[q].index as nat,
            trace,
            None,
            n,
            domain,
            z,
            q_evals,
        );
    if all_z {
        assert forall|q: int| 0 <= q < proof.queries@.len() implies #[trigger] honest_query_points::<F, H>(
            roots,
            proof.queries@[q],
            proof.fri.queries@[q].index as nat,
            trace,
            None,
            n,
            domain,
            z,
            q_evals,
        ) by {
            assert(honest_query_points::<F, H>(roots, proof.queries@[q], proof.fri.queries@[q].index as nat, trace, zc, n, domain, z, q_evals));
        }
    }
    if all_h {
        assert forall|q: int| 0 <= q < proof.queries@.len() implies #[trigger] honest_query_points::<F, H>(
            roots,
            proof.queries@[q],
            proof.fri.queries@[q].index as nat,
            trace,
            zc,
            n,
            domain,
            z,
            q_evals,
        ) by {
            assert(honest_query_points::<F, H>(roots, proof.queries@[q], proof.fri.queries@[q].index as nat, trace, None, n, domain, z, q_evals));
        }
    }
    assert(all_z == all_h);
}

/// A row's five selectors are canonical.
pub open spec fn selectors_wf<F: ZkField>(row: crate::plonkish::Row<F>) -> bool {
    row.q_l.wf() && row.q_r.wf() && row.q_o.wf() && row.q_m.wf() && row.q_c.wf()
}

/// What extracting an AIR from a circuit needs, and what the STARK needs of
/// the circuit's selectors.
pub open spec fn circuit_extractable<F: ZkField>(circuit: Plonkish<F>) -> bool {
    &&& circuit.rows@.len() * 6 <= usize::MAX
    &&& circuit.copies_within(circuit.rows@.len())
    &&& forall|k: int|
        0 <= k < circuit.public_cells@.len() ==> (#[trigger] circuit.public_cells@[k]).1.row < circuit.rows@.len()
    &&& forall|k: int| 0 <= k < circuit.rows@.len() ==> selectors_wf(#[trigger] circuit.rows@[k])
}

/// An extracted AIR is ready for the STARK once its domain has the field's
/// support.
proof fn lemma_air_ready<F: TwoAdicField>(circuit: Plonkish<F>, air: Air<F>)
    requires
        circuit_extractable(circuit),
        air_of(circuit, air),
        subgroup_size::<F>(air.n as nat),
        air.n * 3 <= usize::MAX,
    ensures
        stark_air_ready(air),
{
    let rows = circuit.rows@;
    let n = air.n as nat;
    F::law_closure(F::spec_zero(), F::spec_zero());
    assert forall|i: int| 0 <= i < n implies (#[trigger] air.q_l@[i]).wf() && air.q_r@[i].wf() && air.q_o@[i].wf()
        && air.q_m@[i].wf() && air.q_c@[i].wf() by {
        if i < rows.len() {
            assert(selectors_wf(rows[i]));
        }
    }
}

/// Prove a circuit satisfied by `wire_values`. `None` where a
/// transcript-derived quantity the protocol divides by vanishes.
pub fn prove<F: TwoAdicField, H: Hasher<F>>(
    circuit: &Plonkish<F>,
    wire_values: &[F],
    config: &FriConfig,
) -> (r: Option<StarkProof<F>>)
    requires
        H::WIDTH >= 1,
        circuit_extractable(*circuit),
        circuit.cells_below(wire_values@.len()),
        all_wf(wire_values@),
        forall|n: nat| is_domain_for(n, circuit.rows@.len()) ==> #[trigger] field_ready::<F>(n, config.blowup as nat),
    ensures
        r matches Some(p) ==> exists|air: Air<F>, trace: Trace<F>|
            #![trigger air_of(*circuit, air), trace_of(*circuit, wire_values@, trace)]
            air_of(*circuit, air) && trace_of(*circuit, wire_values@, trace) && stark_honest::<F, H>(
                air,
                trace,
                *config,
                None,
                p,
            ),
        r is None ==> exists|air: Air<F>, trace: Trace<F>|
            #![trigger air_of(*circuit, air), trace_of(*circuit, wire_values@, trace)]
            air_of(*circuit, air) && trace_of(*circuit, wire_values@, trace) && stark_prover_fails::<F, H>(
                air,
                trace,
                *config,
                None,
            ),
{
    let air = Air::from_plonkish(circuit);
    let trace = Air::trace(circuit, wire_values);
    proof {
        let rows = circuit.rows@.len();
        assert(is_domain_for(air.n as nat, rows));
        lemma_domain_unique(air.n as nat, trace.a@.len(), rows);
        assert(field_ready::<F>(air.n as nat, config.blowup as nat));
        assert(air.n * 3 <= usize::MAX) by (nonlinear_arith)
            requires
                air.n * config.blowup * 12 <= usize::MAX,
                config.blowup >= 1,
        ;
        lemma_air_ready(*circuit, air);
        F::law_closure(F::spec_zero(), F::spec_zero());
        assert forall|i: int|
            #![trigger trace.a@[i]]
            #![trigger trace.b@[i]]
            #![trigger trace.c@[i]]
            0 <= i < air.n implies trace.a@[i].wf() && trace.b@[i].wf() && trace.c@[i].wf() by {
            let _ = trace.a@[i];
            if i < rows {
                let row = circuit.rows@[i];
                assert(circuit.cells_below(wire_values@.len()));
                assert(row.cells@[0] matches Some(w) ==> w < wire_values@.len());
                assert(row.cells@[1] matches Some(w) ==> w < wire_values@.len());
                assert(row.cells@[2] matches Some(w) ==> w < wire_values@.len());
            }
        }
    }
    proof {
        assert(stark_air_ready(air));
        assert(trace.a@.len() == air.n);
        assert(all_wf(trace.a@));
        assert(all_wf(trace.b@));
        assert(all_wf(trace.c@));
    }
    let r = prove_inner::<F, H>(&air, &trace, config, None);
    proof {
        assert(air_of(*circuit, air) && trace_of(*circuit, wire_values@, trace));
    }
    r
}

/// The prover, taking an explicit trace. Exposed so tests can craft a trace
/// that satisfies the gates but violates the wiring — the case only the
/// permutation argument catches — or one that is no polynomial at all, the case
/// only DEEP catches.
pub fn prove_with_trace<F: TwoAdicField, H: Hasher<F>>(
    air: &Air<F>,
    trace: &Trace<F>,
    config: &FriConfig,
) -> (r: Option<StarkProof<F>>)
    requires
        H::WIDTH >= 1,
        prover_ready(*air, *trace, *config, None),
    ensures
        r matches Some(p) ==> stark_honest::<F, H>(*air, *trace, *config, None, p),
        r is None <==> stark_prover_fails::<F, H>(*air, *trace, *config, None),
{
    prove_inner::<F, H>(air, trace, config, None)
}

/// A prover that commits a column which is *not* the low-degree extension of
/// the trace: the `a` column's committed evaluation at `position` is shifted by
/// `delta`, while the quotient is built from the honest one.
///
/// This is the shape of the prover DEEP exists to refuse. Everything here stays
/// self-consistent: the quotient really is low-degree, the constraint identity
/// holds at every position except one, and the Merkle openings check out,
/// because the corrupted value is what was committed.
pub fn prove_with_corrupted_column<F: TwoAdicField, H: Hasher<F>>(
    air: &Air<F>,
    trace: &Trace<F>,
    config: &FriConfig,
    position: usize,
    delta: F,
) -> (r: Option<StarkProof<F>>)
    requires
        H::WIDTH >= 1,
        prover_ready(*air, *trace, *config, Some((position, delta))),
    ensures
        r matches Some(p) ==> stark_honest::<F, H>(*air, *trace, *config, Some((position, delta)), p),
        r is None <==> stark_prover_fails::<F, H>(*air, *trace, *config, Some((position, delta))),
{
    prove_inner::<F, H>(air, trace, config, Some((position, delta)))
}

/// Verify a proof against a circuit.
pub fn verify<F: TwoAdicField, H: Hasher<F>>(
    circuit: &Plonkish<F>,
    proof: &StarkProof<F>,
    config: &FriConfig,
) -> (r: Result<(), String>)
    requires
        H::WIDTH >= 1,
        circuit_extractable(*circuit),
        forall|n: nat|
            is_domain_for(n, circuit.rows@.len()) ==> #[trigger] verifier_ready::<F>(n, *config) && subgroup_size::<
                F,
            >(n),
    ensures
        exists|air: Air<F>| #[trigger] air_of(*circuit, air) && (r is Ok <==> stark_accepts::<F, H>(air, *proof, *config)),
{
    let air = Air::from_plonkish(circuit);
    proof {
        assert(is_domain_for(air.n as nat, circuit.rows@.len()));
        assert(verifier_ready::<F>(air.n as nat, *config));
        assert(air.n * 3 <= usize::MAX) by (nonlinear_arith)
            requires
                air.n * config.blowup * 6 <= usize::MAX,
                config.blowup >= 1,
        ;
        lemma_air_ready(*circuit, air);
    }
    let r = verify_with_air::<F, H>(&air, proof, config);
    proof {
        assert(air_of(*circuit, air));
    }
    r
}

/// Doubling from `p >= 1` ends at least at `m` and at `p`.
proof fn lemma_pow2_from_covers(m: nat, p: nat)
    requires
        p >= 1,
    ensures
        pow2_from(m, p) >= m,
        pow2_from(m, p) >= p,
        p <= m ==> pow2_from(m, p) < 2 * m,
    decreases m - p,
{
    if p < m && 2 * p < m {
        lemma_pow2_from_covers(m, 2 * p);
    }
}

/// Trailing zero coefficients change no FRI codeword.
proof fn lemma_fri_layer_padded<F: TwoAdicField>(c: Seq<F>, k: nat, domain: nat, alphas: Seq<F>, r: nat)
    requires
        all_wf(c),
    ensures
        fri::fri_layer(c + Seq::new(k, |i: int| F::spec_zero()), domain, alphas, r) == fri::fri_layer(c, domain, alphas, r),
    decreases r,
{
    let padded = c + Seq::new(k, |i: int| F::spec_zero());
    if r == 0 {
        let lp = fri::fri_layer(padded, domain, alphas, 0);
        let lc = fri::fri_layer(c, domain, alphas, 0);
        assert forall|j: int| 0 <= j < domain implies lp[j] == lc[j] by {
            crate::fft::lemma_eval_padded(c, k, F::spec_from_u64(7).spec_mul(fpow(subgroup_root::<F>(domain), j as nat)));
        }
        assert(lp =~= lc);
    } else {
        lemma_fri_layer_padded(c, k, domain, alphas, (r - 1) as nat);
    }
}

/// FRI accepts the honest proof of a coset batch whose interpolant has
/// degree below the bound, where every fold's inverse is exact.
proof fn lemma_honest_batch_fri_accepted<F: TwoAdicField, H: Hasher<F>>(
    fri_proof: FriProof<F>,
    batch: Seq<F>,
    db: nat,
    blowup: nat,
    num_queries: nat,
    start: Seq<F>,
)
    requires
        fri::honest_fri::<F, H>(
            fri_proof,
            scaled(interpolated(batch), F::spec_from_u64(7).spec_inverse()->0),
            db,
            blowup,
            num_queries,
            start,
        ),
        batch.len() == db * blowup,
        db >= 2,
        two_pow(log2(db)) == db,
        blowup >= 1,
        two_pow(log2(blowup)) == blowup,
        subgroup_size::<F>(db * blowup),
        db * blowup <= usize::MAX,
        crate::fold::fold_inverses_exact::<F>(db * blowup, log2(db)),
        forall|i: int| db <= i < db * blowup ==> #[trigger] interpolated(batch)[i] == F::spec_zero(),
    ensures
        fri_accepts::<F, H>(fri_proof, db, blowup, num_queries, start),
{
    let domain = db * blowup;
    let s7 = F::spec_from_u64(7).spec_inverse()->0;
    let coeffs = scaled(interpolated(batch), s7);
    let low = coeffs.subrange(0, db as int);
    assert(interpolated(batch).len() == domain);
    assert(coeffs.len() == domain);
    assert(db <= domain) by (nonlinear_arith)
        requires
            domain == db * blowup,
            blowup >= 1,
    ;
    assert(coeffs =~= low + Seq::new((domain - db) as nat, |i: int| F::spec_zero())) by {
        assert forall|i: int| db <= i < domain implies coeffs[i] == F::spec_zero() by {
            assert(interpolated(batch)[i] == F::spec_zero());
            lemma_basics(fpow(s7, i as nat), F::spec_zero());
        }
    }
    assert(all_wf(low)) by {
        assert forall|i: int| 0 <= i < low.len() implies (#[trigger] low[i]).wf() by {
            lemma_basics(interpolated(batch)[i], fpow(s7, i as nat));
        }
    }
    let alphas = fri::fri_alphas::<F, H>(start, fri_proof.roots@);
    lemma_fri_layer_padded(low, (domain - db) as nat, domain, alphas, log2(db));
    crate::fold::law_low_degree_folds_to_constant(low, db, blowup, alphas);
    fri::law_honest_proof_accepted::<F, H>(fri_proof, coeffs, db, blowup, num_queries, start);
}

/// The polynomial interpolating `values` on the coset `7·H` gives each of
/// them back at its coset point.
pub open spec fn coset_interpolation_exact<F: TwoAdicField>(values: Seq<F>, domain: nat) -> bool {
    forall|j: nat|
        j < domain ==> poly_eval(
            scaled(interpolated(values), F::spec_from_u64(7).spec_inverse()->0),
            #[trigger] coset_point::<F>(domain, j),
        ) == values[j as int]
}

/// The verifier's `L_0` denominator `n·(ζ - 1)` is invertible at the `ζ` a
/// proof's transcript gives (over Goldilocks,
/// `law_goldilocks_ood_denominator_invertible` shows this for every
/// canonical `ζ ≠ 1`).
pub open spec fn ood_denominator_invertible<F: TwoAdicField, H: Hasher<F>>(
    air: Air<F>,
    config: FriConfig,
    proof: StarkProof<F>,
) -> bool {
    let n = air.n as nat;
    let domain = (stark_degree_bound(n) * config.blowup) as nat;
    let zeta = ood_draw::<F, H>(state_after_q(proof), 0, n, domain, F::spec_from_u64(7))->0;
    F::spec_from_u64(n as u64).spec_mul(zeta.spec_sub(F::spec_one())).spec_inverse() is Some
}

/// The DEEP terms of the honest batch at coset position `j`.
pub open spec fn batch_terms_at<F: TwoAdicField, H: Hasher<F>>(
    trace: Trace<F>,
    z: Seq<F>,
    q_evals: Seq<F>,
    proof: StarkProof<F>,
    n: nat,
    domain: nat,
    zeta: F,
    j: int,
) -> Seq<(F, F)> {
    let x = coset_point::<F>(domain, j as nat);
    let zeta_next = zeta.spec_mul(subgroup_root::<F>(n));
    deep_terms(
        proof.ood,
        committed_a(trace, None, domain, j as nat),
        at_point(trace.b@, x),
        at_point(trace.c@, x),
        at_point(z, x),
        q_evals[j],
        x.spec_sub(zeta).spec_inverse()->0,
        x.spec_sub(zeta_next).spec_inverse()->0,
        fpow(x, (proof.degree_bound - (n - 1)) as nat),
        x,
    )
}

/// On the evaluation coset `7·H`, interpolation gives any values back,
/// wherever the transform of that size is invertible and the shift `7` has
/// an exact inverse.
pub proof fn law_coset_interpolation_exact<F: TwoAdicField>(values: Seq<F>, domain: nat)
    requires
        subgroup_size::<F>(domain),
        domain <= usize::MAX,
        values.len() == domain,
        all_wf(values),
        crate::roundtrip::ntt_invertible::<F>(domain),
        crate::fold::inverse_exact(F::spec_from_u64(7)),
    ensures
        coset_interpolation_exact(values, domain),
{
    let s = F::spec_from_u64(7);
    let sinv = s.spec_inverse()->0;
    let one = F::spec_one();
    let w = subgroup_root::<F>(domain);
    let interp = interpolated(values);
    F::lemma_from_u64_wf(7);
    F::lemma_inverse_wf(s);
    crate::roundtrip::law_ntt_undoes_intt(values);
    assert(all_wf(interp)) by {
        assert forall|k: int| 0 <= k < interp.len() implies (#[trigger] interp[k]).wf() by {
            if values.len() > 1 {
                lemma_basics(
                    poly_eval(values, fpow(crate::fft::inverse_root::<F>(values.len()), k as nat)),
                    F::spec_from_u64(values.len() as u64).spec_inverse()->0,
                );
            }
        }
    }
    assert forall|j: nat| j < domain implies poly_eval(
        scaled(interp, sinv),
        #[trigger] coset_point::<F>(domain, j),
    ) == values[j as int] by {
        let wj = fpow(w, j);
        crate::fft::lemma_fpow_wf(w, j);
        let x = coset_point::<F>(domain, j);
        lemma_basics(s, wj);
        crate::fft::lemma_eval_scaled(interp, sinv, x);
        crate::field::lemma_mul_assoc(sinv, s, wj);
        crate::field::lemma_mul_comm(sinv, s);
        crate::field::lemma_mul_comm(one, wj);
        lemma_basics(wj, wj);
        assert(crate::fft::dft(interp, w)[j as int] == poly_eval(interp, wj));
    }
}

/// The facts about polynomials that an honest proof's acceptance rests on,
/// at the challenges and the `ζ` its transcript gives: the composite
/// constraint at `ζ` equals `Q(ζ)·(ζ^n - 1)`, and the quotient's
/// interpolant on the evaluation coset has degree below `db - 1`.
pub open spec fn stark_polynomial_facts<F: TwoAdicField, H: Hasher<F>>(
    air: Air<F>,
    trace: Trace<F>,
    config: FriConfig,
    proof: StarkProof<F>,
) -> bool {
    let n = air.n as nat;
    let domain = (stark_degree_bound(n) * config.blowup) as nat;
    let beta = squeeze::<F, H>(state_after_trace(proof), 0);
    let gamma = squeeze::<F, H>(state_after_trace(proof), 1);
    let alpha = squeeze::<F, H>(state_after_z(proof), 0);
    let zeta = ood_draw::<F, H>(state_after_q(proof), 0, n, domain, F::spec_from_u64(7))->0;
    let z = trace_grand_product(air, trace, beta, gamma)->0;
    let q_evals = Seq::new(domain, |j: int| quotient_at(air, trace, z, beta, gamma, alpha, domain, j as nat));
    &&& composite_at(air, proof.ood, beta, gamma, alpha, zeta) == proof.ood.q.spec_mul(
        fpow(zeta, n).spec_sub(F::spec_one()),
    )
    &&& forall|i: int|
        stark_degree_bound(n) - 1 <= i < domain ==> #[trigger] honest_quotient_poly::<F, H>(air, trace, config, proof)[i]
            == F::spec_zero()
}

/// A proof the honest prover returned passes every check the verifier
/// replays from the transcript — the degree bound, the drawn `ζ`, FRI's
/// commitments, folds, openings and final codeword (the DEEP batch is shown
/// to be a polynomial below the degree bound), and each query's openings and
/// batch value — and so is accepted, wherever the two facts about the
/// constraint quotient hold (`stark_polynomial_facts`), the `L_0`
/// denominator at `ζ` is invertible, and the field's inverses are exact (over
/// Goldilocks every field condition here holds: see
/// `law_goldilocks_honest_stark_proof_accepted_given_polynomial_facts`).
#[verifier::rlimit(60)]
pub proof fn law_honest_stark_proof_accepted_given_polynomial_facts<F: TwoAdicField, H: Hasher<F>>(
    air: Air<F>,
    trace: Trace<F>,
    config: FriConfig,
    proof: StarkProof<F>,
)
    requires
        stark_air_ready(air),
        field_ready::<F>(air.n as nat, config.blowup as nat),
        stark_honest::<F, H>(air, trace, config, None, proof),
        !stark_prover_fails::<F, H>(air, trace, config, None),
        stark_polynomial_facts::<F, H>(air, trace, config, proof),
        ood_denominator_invertible::<F, H>(air, config, proof),
        crate::fold::fold_inverses_exact::<F>(
            stark_degree_bound(air.n as nat) * (config.blowup as nat),
            log2(stark_degree_bound(air.n as nat)),
        ),
        crate::roundtrip::ntt_invertible::<F>(stark_degree_bound(air.n as nat) * (config.blowup as nat)),
        crate::fold::inverse_exact(F::spec_from_u64(7)),
        crate::fold::field_inverses_exact::<F>(),
        trace.a@.len() == air.n && trace.b@.len() == air.n && trace.c@.len() == air.n,
        all_wf(trace.a@) && all_wf(trace.b@) && all_wf(trace.c@),
    ensures
        stark_accepts::<F, H>(air, proof, config),
{
    let n = air.n as nat;
    let db = stark_degree_bound(n);
    let blowup = config.blowup as nat;
    let domain = (db * config.blowup) as nat;
    assert(domain == db * blowup);
    let beta = squeeze::<F, H>(state_after_trace(proof), 0);
    let gamma = squeeze::<F, H>(state_after_trace(proof), 1);
    let alpha = squeeze::<F, H>(state_after_z(proof), 0);
    let z = trace_grand_product(air, trace, beta, gamma)->0;
    let q_evals = Seq::new(domain, |j: int| quotient_at(air, trace, z, beta, gamma, alpha, domain, j as nat));
    // The transcript the verifier replays is the one the prover ran.
    let after_trace = spec_domain_separator::<F>() + trace_commitment::<F, H>(trace, None, domain);
    assert(state_after_trace(proof) == after_trace);
    let zcol = Seq::new(domain, |j: int| at_point(z, coset_point::<F>(domain, j as nat)));
    let after_z = after_trace + column_commitment::<F, H>(zcol);
    assert(state_after_z(proof) == after_z);
    let after_q = after_z + column_commitment::<F, H>(q_evals);
    assert(state_after_q(proof) == after_q);
    let drawn = ood_draw::<F, H>(after_q, 0, n, domain, F::spec_from_u64(7));
    assert(drawn is Some);
    let zeta = drawn->0;
    let zeta_next = zeta.spec_mul(subgroup_root::<F>(n));
    assert(batch_defined(zeta, zeta_next, domain));
    // FRI accepts the honest proof of the batch.
    assert(two_pow(0) == 1);
    lemma_pow2_from_is_pow2(3 * n, 1, 0);
    lemma_pow2_from_covers(3 * n, 1);
    let batch = honest_batch::<F, H>(trace, None, z, q_evals, proof, n, domain, zeta);
    let start = state_after_ood(proof);
    assert(db * blowup <= usize::MAX) by (nonlinear_arith)
        requires
            db < 2 * (3 * n),
            n * blowup * 12 <= usize::MAX,
    ;
    assert(db <= domain) by (nonlinear_arith)
        requires
            domain == db * blowup,
            blowup >= 1,
    ;
    assert(honest_quotient_poly::<F, H>(air, trace, config, proof) == scaled(
        interpolated(q_evals),
        F::spec_from_u64(7).spec_inverse()->0,
    ));
    lemma_honest_batch_low_degree::<F, H>(air, trace, config, proof);
    lemma_honest_batch_fri_accepted::<F, H>(proof.fri, batch, db, blowup, config.num_queries as nat, start);
    // Interpolation on the coset gives the batch back.
    assert(all_wf(batch)) by {
        assert forall|j: int| 0 <= j < batch.len() implies (#[trigger] batch[j]).wf() by {
            lemma_deep_sum_wf(deep_lambdas::<F, H>(proof), batch_terms_at::<F, H>(trace, z, q_evals, proof, n, domain, zeta, j), 6);
        }
    }
    law_coset_interpolation_exact(batch, domain);
    // Every query's openings rebuild the batch value FRI opened.
    let half = domain / 2;
    let column_exponent = (db - (n - 1)) as nat;
    assert(two_pow(1) == 2);
    crate::fft::lemma_two_pow_add(log2(db), log2(blowup));
    assert(domain % 2 == 0 && half * 2 == domain) by {
        assert(db % 2 == 0) by {
            crate::air::lemma_log2_of_two_pow(log2(db));
            assert(two_pow(log2(db)) == 2 * two_pow((log2(db) - 1) as nat));
        }
        let k = db / 2;
        assert(db * blowup == 2 * (k * blowup)) by (nonlinear_arith)
            requires
                db == 2 * k,
        ;
    }
    assert(domain >= 2) by (nonlinear_arith)
        requires
            domain == db * blowup,
            db >= 2,
            blowup >= 1,
    ;
    assert forall|q: int| 0 <= q < proof.queries@.len() implies #[trigger] stark_query_accepted::<F, H>(
        proof,
        q,
        domain,
        zeta,
        zeta_next,
        column_exponent,
    ) by {
        lemma_honest_query_accepted::<F, H>(air, trace, config, proof, q);
    }
}

/// One query of an honest proof checks out, where the DEEP quotients are
/// defined on the coset and interpolation there gives the batch back.
#[verifier::spinoff_prover]
proof fn lemma_honest_query_accepted<F: TwoAdicField, H: Hasher<F>>(
    air: Air<F>,
    trace: Trace<F>,
    config: FriConfig,
    proof: StarkProof<F>,
    q: int,
)
    requires
        stark_honest::<F, H>(air, trace, config, None, proof),
        ({
            let n = air.n as nat;
            let db = stark_degree_bound(n);
            let domain = (db * config.blowup) as nat;
            let beta = squeeze::<F, H>(state_after_trace(proof), 0);
            let gamma = squeeze::<F, H>(state_after_trace(proof), 1);
            let alpha = squeeze::<F, H>(state_after_z(proof), 0);
            let z = trace_grand_product(air, trace, beta, gamma)->0;
            let q_evals = Seq::new(domain, |j: int| quotient_at(air, trace, z, beta, gamma, alpha, domain, j as nat));
            let zeta = ood_draw::<F, H>(state_after_q(proof), 0, n, domain, F::spec_from_u64(7))->0;
            &&& batch_defined(zeta, zeta.spec_mul(subgroup_root::<F>(n)), domain)
            &&& coset_interpolation_exact(honest_batch::<F, H>(trace, None, z, q_evals, proof, n, domain, zeta), domain)
            &&& db >= 2
            &&& two_pow(log2(db)) == db
            &&& (domain / 2) * 2 == domain
            &&& domain >= 2
        }),
        0 <= q < proof.queries@.len(),
    ensures
        ({
            let n = air.n as nat;
            let db = stark_degree_bound(n);
            let domain = (db * config.blowup) as nat;
            let zeta = ood_draw::<F, H>(state_after_q(proof), 0, n, domain, F::spec_from_u64(7))->0;
            stark_query_accepted::<F, H>(
                proof,
                q,
                domain,
                zeta,
                zeta.spec_mul(subgroup_root::<F>(n)),
                (db - (n - 1)) as nat,
            )
        }),
{
    let n = air.n as nat;
    let db = stark_degree_bound(n);
    let domain = (db * config.blowup) as nat;
    let beta = squeeze::<F, H>(state_after_trace(proof), 0);
    let gamma = squeeze::<F, H>(state_after_trace(proof), 1);
    let alpha = squeeze::<F, H>(state_after_z(proof), 0);
    let z = trace_grand_product(air, trace, beta, gamma)->0;
    let q_evals = Seq::new(domain, |j: int| quotient_at(air, trace, z, beta, gamma, alpha, domain, j as nat));
    let zeta = ood_draw::<F, H>(state_after_q(proof), 0, n, domain, F::spec_from_u64(7))->0;
    let batch = honest_batch::<F, H>(trace, None, z, q_evals, proof, n, domain, zeta);
    let coeffs = scaled(interpolated(batch), F::spec_from_u64(7).spec_inverse()->0);
    let start = state_after_ood(proof);
    let half = domain / 2;
    let alphas = fri::fri_alphas::<F, H>(start, proof.fri.roots@);
    let layer0 = fri::fri_layer(coeffs, domain, alphas, 0);
    assert(two_pow(0) == 1);
    assert(two_pow(1) == 2);
    if log2(db) == 0 {
        assert(two_pow(0) == 1);
    }
    let fq = proof.fri.queries@[q];
    assert(fri::honest_query::<F, H>(fq, q as nat, domain, proof.fri.roots@, proof.fri.final_poly@, coeffs, start));
    assert(honest_query_points::<F, H>(
        (proof.trace_root, proof.z_root, proof.q_root),
        proof.queries@[q],
        fq.index as nat,
        trace,
        None,
        n,
        domain,
        z,
        q_evals,
    ));
    assert(fri::honest_opening::<F, H>(
        fq.layers@[0],
        layer0,
        proof.fri.roots@[0],
        fq.index as nat % (domain / two_pow(1)),
        domain / two_pow(1),
    ));
    let lo = fq.index as nat % half;
    let hi = lo + half;
    assert(coset_point::<F>(domain, lo) == F::spec_from_u64(7).spec_mul(fpow(subgroup_root::<F>(domain), lo)));
    assert(coset_point::<F>(domain, hi) == F::spec_from_u64(7).spec_mul(fpow(subgroup_root::<F>(domain), hi)));
    assert(layer0[lo as int] == batch[lo as int]);
    assert(layer0[hi as int] == batch[hi as int]);
}


/// The DEEP batch as a polynomial over `len` coefficients: the sum over the
/// first `k` terms of `λ_{2t}·S_t + λ_{2t+1}·X^{e_t}·S_t`.
pub open spec fn deep_poly<F: ZkField>(lambdas: Seq<F>, quotients: Seq<Seq<F>>, exps: Seq<nat>, k: nat, len: nat) -> Seq<F>
    decreases k,
{
    if k == 0 {
        Seq::new(len, |i: int| F::spec_zero())
    } else {
        let i = (k - 1) as nat;
        lin(
            deep_poly(lambdas, quotients, exps, i, len),
            F::spec_one(),
            lin(quotients[i as int], lambdas[(2 * i) as int], shifted(quotients[i as int], exps[i as int]), lambdas[(2 * i + 1) as int], len),
            F::spec_one(),
            len,
        )
    }
}

/// The DEEP polynomial takes the DEEP sum's value wherever each term is its
/// quotient's value weighted by `x^{e_t}`.
proof fn lemma_deep_poly_eval<F: ZkField>(
    lambdas: Seq<F>,
    quotients: Seq<Seq<F>>,
    exps: Seq<nat>,
    terms: Seq<(F, F)>,
    k: nat,
    len: nat,
    x: F,
)
    requires
        x.wf(),
        lambdas.len() >= 2 * k,
        quotients.len() >= k,
        exps.len() >= k,
        terms.len() >= k,
        forall|t: int| 0 <= t < k ==> all_wf(#[trigger] quotients[t]),
        forall|t: int| 0 <= t < k ==> #[trigger] quotients[t].len() + exps[t] <= len,
        forall|t: int| 0 <= t < k ==> (#[trigger] terms[t]).0 == poly_eval(quotients[t], x),
        forall|t: int| 0 <= t < k ==> (#[trigger] terms[t]).1 == fpow(x, exps[t]),
    ensures
        poly_eval(deep_poly(lambdas, quotients, exps, k, len), x) == deep_sum(lambdas, terms, k),
        all_wf(deep_poly(lambdas, quotients, exps, k, len)),
        deep_poly(lambdas, quotients, exps, k, len).len() == len,
    decreases k,
{
    let zero = F::spec_zero();
    let one = F::spec_one();
    lemma_basics(one, one);
    lemma_basics(zero, zero);
    if k == 0 {
        let zs = Seq::new(len, |i: int| zero);
        crate::fft::lemma_eval_padded(Seq::<F>::empty(), len, x);
        assert(Seq::<F>::empty() + zs =~= zs);
    } else {
        let i = (k - 1) as nat;
        lemma_deep_poly_eval(lambdas, quotients, exps, terms, i, len, x);
        let prev = deep_poly(lambdas, quotients, exps, i, len);
        let q = quotients[i as int];
        let e = exps[i as int];
        let l0 = lambdas[(2 * i) as int];
        let l1 = lambdas[(2 * i + 1) as int];
        assert(all_wf(q));
        assert(q.len() + e <= len);
        crate::polynomial::lemma_eval_shifted(q, e, x);
        let sh = shifted(q, e);
        crate::polynomial::lemma_eval_lin(q, l0, sh, l1, len, x);
        let inner = lin(q, l0, sh, l1, len);
        crate::polynomial::lemma_eval_lin(prev, one, inner, one, len, x);
        let sv = poly_eval(q, x);
        let xe = fpow(x, e);
        let pv = poly_eval(prev, x);
        let iv = poly_eval(inner, x);
        crate::fft::lemma_poly_eval_wf(q, x);
        crate::fft::lemma_poly_eval_wf(prev, x);
        crate::fft::lemma_poly_eval_wf(inner, x);
        crate::fft::lemma_fpow_wf(x, e);
        lemma_basics(pv, one);
        lemma_basics(iv, one);
        crate::field::lemma_mul_comm(one, pv);
        crate::field::lemma_mul_comm(one, iv);
        // (l0 + l1·x^e)·S = l0·S + l1·(x^e·S)
        let coefficient = l0.spec_add(l1.spec_mul(xe));
        crate::field::lemma_mul_comm(coefficient, sv);
        crate::field::lemma_distrib(sv, l0, l1.spec_mul(xe));
        crate::field::lemma_mul_comm(sv, l0);
        crate::field::lemma_mul_comm(sv, l1.spec_mul(xe));
        crate::field::lemma_mul_assoc(l1, xe, sv);
        assert(terms[i as int].0 == sv);
        assert(terms[i as int].1 == xe);
    }
}

/// `a = b + c` gives `a - b = c`.
proof fn lemma_sub_of_sum<F: ZkField>(a: F, b: F, c: F)
    requires
        b.wf(),
        c.wf(),
        a == b.spec_add(c),
    ensures
        a.spec_sub(b) == c,
{
    lemma_basics(a, b);
    lemma_basics(b, c);
    lemma_basics(c, c);
    crate::field::lemma_add_comm(b, c);
    crate::field::lemma_add_assoc(c, b, b.spec_neg());
}

/// A DEEP quotient `(P(x) - P(z))·(x - z)⁻¹` is the value at `x` of `P`'s
/// quotient by `X - z`, where that inverse is exact.
proof fn lemma_deep_term<F: ZkField>(p: Seq<F>, z: F, x: F)
    requires
        all_wf(p),
        x.wf(),
        crate::fold::inverse_exact(x.spec_sub(z)),
    ensures
        poly_eval(p, x).spec_sub(poly_eval(p, z)).spec_mul(x.spec_sub(z).spec_inverse()->0) == poly_eval(
            crate::polynomial::synthetic(p, z),
            x,
        ),
{
    let d = x.spec_sub(z);
    let inv = d.spec_inverse()->0;
    let s = crate::polynomial::synthetic(p, z);
    crate::polynomial::lemma_synthetic(p, z, x);
    crate::fft::lemma_poly_eval_wf(p, z);
    crate::fft::lemma_poly_eval_wf(s, x);
    lemma_basics(d, poly_eval(s, x));
    lemma_sub_of_sum(poly_eval(p, x), poly_eval(p, z), d.spec_mul(poly_eval(s, x)));
    crate::field::lemma_mul_comm(d, poly_eval(s, x));
    crate::field::lemma_mul_assoc(poly_eval(s, x), d, inv);
    lemma_basics(poly_eval(s, x), poly_eval(s, x));
}


/// A grand product has one value per row and canonical values.
proof fn lemma_grand_product_shape<F: ZkField>(
    cols: Seq<Seq<F>>,
    ids: Seq<Seq<F>>,
    sigmas: Seq<Seq<F>>,
    beta: F,
    gamma: F,
    k: nat,
)
    ensures
        grand_product_of(cols, ids, sigmas, beta, gamma, k) matches Some(z) ==> z.len() == (if k <= 1 {
            1
        } else {
            k
        }) && all_wf(z),
    decreases k,
{
    lemma_basics(F::spec_one(), F::spec_one());
    if k > 1 {
        lemma_grand_product_shape(cols, ids, sigmas, beta, gamma, (k - 1) as nat);
        let i = k - 2;
        if let Some(z) = grand_product_of(cols, ids, sigmas, beta, gamma, (k - 1) as nat) {
            let row = seq![cols[0][i], cols[1][i], cols[2][i]];
            let f = perm_product(row, seq![ids[0][i], ids[1][i], ids[2][i]], beta, gamma);
            let g = perm_product(row, seq![sigmas[0][i], sigmas[1][i], sigmas[2][i]], beta, gamma);
            if let Some(gi) = g.spec_inverse() {
                lemma_basics(z[i].spec_mul(f), gi);
                let z2 = z.push(z[i].spec_mul(f).spec_mul(gi));
                assert forall|j: int| 0 <= j < z2.len() implies (#[trigger] z2[j]).wf() by {
                    if j < z.len() {
                        assert(z2[j] == z[j]);
                    }
                }
            }
        }
    } else {
        let z = seq![F::spec_one()];
        assert forall|j: int| 0 <= j < z.len() implies (#[trigger] z[j]).wf() by {}
    }
}

/// A quotient value is canonical: it is a product.
proof fn lemma_quotient_from_wf<F: TwoAdicField>(
    n: nat,
    x: F,
    cols: Seq<F>,
    sel: Seq<F>,
    ids: Seq<F>,
    sigmas: Seq<F>,
    z_here: F,
    z_shift: F,
    beta: F,
    gamma: F,
    alpha: F,
)
    ensures
        quotient_from(n, x, cols, sel, ids, sigmas, z_here, z_shift, beta, gamma, alpha).wf(),
{
    let one = F::spec_one();
    let c_gate = gate_at(cols[0], cols[1], cols[2], sel[0], sel[1], sel[2], sel[3], sel[4]);
    let f = perm_product(cols, ids, beta, gamma);
    let g = perm_product(cols, sigmas, beta, gamma);
    let xn_minus_1 = fpow(x, n).spec_sub(one);
    let l0 = xn_minus_1.spec_mul(F::spec_from_u64(n as u64).spec_mul(x.spec_sub(one)).spec_inverse()->0);
    let c_start = l0.spec_mul(z_here.spec_sub(one));
    let c_rec = z_shift.spec_mul(g).spec_sub(z_here.spec_mul(f));
    let composite = c_gate.spec_add(alpha.spec_mul(c_start)).spec_add(alpha.spec_mul(alpha).spec_mul(c_rec));
    lemma_basics(composite, xn_minus_1.spec_inverse()->0);
}

/// The honest constraint quotient as coefficients on the evaluation coset.
pub open spec fn honest_quotient_poly<F: TwoAdicField, H: Hasher<F>>(
    air: Air<F>,
    trace: Trace<F>,
    config: FriConfig,
    proof: StarkProof<F>,
) -> Seq<F> {
    let n = air.n as nat;
    let domain = (stark_degree_bound(n) * config.blowup) as nat;
    let beta = squeeze::<F, H>(state_after_trace(proof), 0);
    let gamma = squeeze::<F, H>(state_after_trace(proof), 1);
    let alpha = squeeze::<F, H>(state_after_z(proof), 0);
    let z = trace_grand_product(air, trace, beta, gamma)->0;
    let q_evals = Seq::new(domain, |j: int| quotient_at(air, trace, z, beta, gamma, alpha, domain, j as nat));
    scaled(interpolated(q_evals), F::spec_from_u64(7).spec_inverse()->0)
}

/// The DEEP quotients of the honest proof's six terms, by `X - ζ` (and
/// `X - ζω` for the shifted grand product), with the quotient cut to its
/// first `db - 1` coefficients.
pub open spec fn honest_deep_quotients<F: TwoAdicField, H: Hasher<F>>(
    air: Air<F>,
    trace: Trace<F>,
    config: FriConfig,
    proof: StarkProof<F>,
) -> Seq<Seq<F>> {
    let n = air.n as nat;
    let db = stark_degree_bound(n);
    let domain = (db * config.blowup) as nat;
    let beta = squeeze::<F, H>(state_after_trace(proof), 0);
    let gamma = squeeze::<F, H>(state_after_trace(proof), 1);
    let z = trace_grand_product(air, trace, beta, gamma)->0;
    let zeta = ood_draw::<F, H>(state_after_q(proof), 0, n, domain, F::spec_from_u64(7))->0;
    let zeta_next = zeta.spec_mul(subgroup_root::<F>(n));
    let pq = honest_quotient_poly::<F, H>(air, trace, config, proof).subrange(0, db - 1);
    seq![
        crate::polynomial::synthetic(interpolated(trace.a@), zeta),
        crate::polynomial::synthetic(interpolated(trace.b@), zeta),
        crate::polynomial::synthetic(interpolated(trace.c@), zeta),
        crate::polynomial::synthetic(interpolated(z), zeta),
        crate::polynomial::synthetic(interpolated(z), zeta_next),
        crate::polynomial::synthetic(pq, zeta),
    ]
}

/// The DEEP weights' exponents: `X^{db-(n-1)}` for the columns, `X` for the
/// quotient.
pub open spec fn honest_deep_exps<F: TwoAdicField>(air: Air<F>, proof: StarkProof<F>) -> Seq<nat> {
    let ce = (proof.degree_bound - (air.n as nat - 1)) as nat;
    seq![ce, ce, ce, ce, ce, 1nat]
}

/// The conditions under which the honest batch is a low-degree polynomial's
/// evaluations.
pub open spec fn honest_batch_ready<F: TwoAdicField, H: Hasher<F>>(
    air: Air<F>,
    trace: Trace<F>,
    config: FriConfig,
    proof: StarkProof<F>,
) -> bool {
    let n = air.n as nat;
    let db = stark_degree_bound(n);
    let domain = (db * config.blowup) as nat;
    let zeta = ood_draw::<F, H>(state_after_q(proof), 0, n, domain, F::spec_from_u64(7))->0;
    &&& stark_honest::<F, H>(air, trace, config, None, proof)
    &&& air.n >= 1
    &&& trace.a@.len() == air.n && trace.b@.len() == air.n && trace.c@.len() == air.n
    &&& all_wf(trace.a@) && all_wf(trace.b@) && all_wf(trace.c@)
    &&& crate::fold::field_inverses_exact::<F>()
    &&& crate::fold::inverse_exact(F::spec_from_u64(7))
    &&& batch_defined(zeta, zeta.spec_mul(subgroup_root::<F>(n)), domain)
    &&& crate::roundtrip::ntt_invertible::<F>(domain)
    &&& subgroup_size::<F>(domain)
    &&& domain <= usize::MAX
    &&& n < db <= domain
    &&& forall|i: int| db - 1 <= i < domain ==> #[trigger] honest_quotient_poly::<F, H>(air, trace, config, proof)[i] == F::spec_zero()
}


/// At each coset point the DEEP polynomial takes the honest batch's value.
#[verifier::spinoff_prover]
#[verifier::rlimit(60)]
proof fn lemma_honest_batch_point<F: TwoAdicField, H: Hasher<F>>(
    air: Air<F>,
    trace: Trace<F>,
    config: FriConfig,
    proof: StarkProof<F>,
    j: nat,
)
    requires
        honest_batch_ready::<F, H>(air, trace, config, proof),
        j < (stark_degree_bound(air.n as nat) * config.blowup) as nat,
    ensures
        ({
            let n = air.n as nat;
            let db = stark_degree_bound(n);
            let domain = (db * config.blowup) as nat;
            let beta = squeeze::<F, H>(state_after_trace(proof), 0);
            let gamma = squeeze::<F, H>(state_after_trace(proof), 1);
            let alpha = squeeze::<F, H>(state_after_z(proof), 0);
            let z = trace_grand_product(air, trace, beta, gamma)->0;
            let q_evals = Seq::new(domain, |j: int| quotient_at(air, trace, z, beta, gamma, alpha, domain, j as nat));
            let zeta = ood_draw::<F, H>(state_after_q(proof), 0, n, domain, F::spec_from_u64(7))->0;
            let b = deep_poly(
                deep_lambdas::<F, H>(proof),
                honest_deep_quotients::<F, H>(air, trace, config, proof),
                honest_deep_exps(air, proof),
                6,
                db,
            );
            &&& poly_eval(b, coset_point::<F>(domain, j)) == honest_batch::<F, H>(trace, None, z, q_evals, proof, n, domain, zeta)[j as int]
            &&& all_wf(b)
            &&& b.len() == db
        }),
{
    let zero = F::spec_zero();
    let one = F::spec_one();
    let n = air.n as nat;
    let db = stark_degree_bound(n);
    let domain = (db * config.blowup) as nat;
    let beta = squeeze::<F, H>(state_after_trace(proof), 0);
    let gamma = squeeze::<F, H>(state_after_trace(proof), 1);
    let alpha = squeeze::<F, H>(state_after_z(proof), 0);
    let z = trace_grand_product(air, trace, beta, gamma)->0;
    let q_evals = Seq::new(domain, |j: int| quotient_at(air, trace, z, beta, gamma, alpha, domain, j as nat));
    let zeta = ood_draw::<F, H>(state_after_q(proof), 0, n, domain, F::spec_from_u64(7))->0;
    let zeta_next = zeta.spec_mul(subgroup_root::<F>(n));
    let s7 = F::spec_from_u64(7);
    let x = coset_point::<F>(domain, j);
    let lambdas = deep_lambdas::<F, H>(proof);
    let quotients = honest_deep_quotients::<F, H>(air, trace, config, proof);
    let exps = honest_deep_exps(air, proof);
    let terms = batch_terms_at::<F, H>(trace, z, q_evals, proof, n, domain, zeta, j as int);
    F::lemma_from_u64_wf(7);
    lemma_basics(zero, zero);
    lemma_basics(one, one);
    crate::fft::lemma_fpow_wf(subgroup_root::<F>(domain), j);
    lemma_basics(s7, fpow(subgroup_root::<F>(domain), j));
    assert(x.wf());
    // The columns.
    lemma_grand_product_shape(
        seq![trace.a@, trace.b@, trace.c@],
        seq![id_labels::<F>(n, 0), id_labels::<F>(n, 1), id_labels::<F>(n, 2)],
        seq![sigma_labels(air, 0), sigma_labels(air, 1), sigma_labels(air, 2)],
        beta,
        gamma,
        n,
    );
    let pa = interpolated(trace.a@);
    let pb = interpolated(trace.b@);
    let pc = interpolated(trace.c@);
    let pz = interpolated(z);
    crate::roundtrip::lemma_interpolated_wf(trace.a@);
    crate::roundtrip::lemma_interpolated_wf(trace.b@);
    crate::roundtrip::lemma_interpolated_wf(trace.c@);
    crate::roundtrip::lemma_interpolated_wf(z);
    // The quotient.
    assert(all_wf(q_evals)) by {
        assert forall|k: int| 0 <= k < q_evals.len() implies (#[trigger] q_evals[k]).wf() by {
            let y = coset_point::<F>(domain, k as nat);
            let y_next = coset_point::<F>(domain, ((k as nat) + domain / n) % domain);
            lemma_quotient_from_wf(
                n,
                y,
                seq![at_point(trace.a@, y), at_point(trace.b@, y), at_point(trace.c@, y)],
                seq![
                    at_point(air.q_l@, y),
                    at_point(air.q_r@, y),
                    at_point(air.q_o@, y),
                    at_point(air.q_m@, y),
                    at_point(air.q_c@, y),
                ],
                seq![at_point(id_labels::<F>(n, 0), y), at_point(id_labels::<F>(n, 1), y), at_point(id_labels::<F>(n, 2), y)],
                seq![at_point(sigma_labels(air, 0), y), at_point(sigma_labels(air, 1), y), at_point(sigma_labels(air, 2), y)],
                at_point(z, y),
                at_point(z, y_next),
                beta,
                gamma,
                alpha,
            );
        }
    }
    let pqf = honest_quotient_poly::<F, H>(air, trace, config, proof);
    let s7inv = s7.spec_inverse()->0;
    assert(pqf == scaled(interpolated(q_evals), s7inv));
    crate::roundtrip::lemma_interpolated_wf(q_evals);
    let pq = pqf.subrange(0, db - 1);
    let pad = Seq::new((domain - (db - 1)) as nat, |i: int| F::spec_zero());
    assert(pqf =~= pq + pad) by {
        assert forall|i: int| 0 <= i < pqf.len() implies pqf[i] == (pq + pad)[i] by {
            if i >= db - 1 {
                assert(pqf[i] == zero);
            }
        }
    }
    assert(all_wf(pq)) by {
        assert forall|i: int| 0 <= i < pq.len() implies (#[trigger] pq[i]).wf() by {
            lemma_basics(interpolated(q_evals)[i], fpow(s7inv, i as nat));
        }
    }
    law_coset_interpolation_exact(q_evals, domain);
    assert(poly_eval(pqf, x) == q_evals[j as int]);
    crate::fft::lemma_eval_padded(pq, (domain - (db - 1)) as nat, x);
    crate::fft::lemma_eval_padded(pq, (domain - (db - 1)) as nat, zeta);
    // The denominators are exact.
    assert(crate::fold::inverse_exact(x.spec_sub(zeta))) by {
        assert(x.spec_sub(zeta).spec_inverse() is Some);
        lemma_basics(x, zeta);
        F::lemma_inverse_wf(x.spec_sub(zeta));
    }
    assert(crate::fold::inverse_exact(x.spec_sub(zeta_next))) by {
        assert(x.spec_sub(zeta_next).spec_inverse() is Some);
        lemma_basics(x, zeta_next);
        F::lemma_inverse_wf(x.spec_sub(zeta_next));
    }
    // Each term is its quotient's value.
    lemma_deep_term(pa, zeta, x);
    lemma_deep_term(pb, zeta, x);
    lemma_deep_term(pc, zeta, x);
    lemma_deep_term(pz, zeta, x);
    lemma_deep_term(pz, zeta_next, x);
    lemma_deep_term(pq, zeta, x);
    crate::polynomial::lemma_synthetic(pa, zeta, x);
    crate::polynomial::lemma_synthetic(pb, zeta, x);
    crate::polynomial::lemma_synthetic(pc, zeta, x);
    crate::polynomial::lemma_synthetic(pz, zeta, x);
    crate::polynomial::lemma_synthetic(pz, zeta_next, x);
    crate::polynomial::lemma_synthetic(pq, zeta, x);
    assert(fpow(x, 1) == x) by {
        reveal_with_fuel(fpow, 2);
        lemma_basics(x, x);
        crate::field::lemma_mul_comm(one, x);
    }
    assert forall|t: int| 0 <= t < 6 implies all_wf(#[trigger] quotients[t]) by {}
    assert forall|t: int| 0 <= t < 6 implies #[trigger] quotients[t].len() + exps[t] <= db by {}
    assert forall|t: int| 0 <= t < 6 implies (#[trigger] terms[t]).0 == poly_eval(quotients[t], x) by {}
    assert forall|t: int| 0 <= t < 6 implies (#[trigger] terms[t]).1 == fpow(x, exps[t]) by {}
    lemma_deep_poly_eval(lambdas, quotients, exps, terms, 6, db, x);
}

/// The honest DEEP batch is the evaluation on the coset of a polynomial with
/// fewer than `db` coefficients, so its interpolant vanishes from `db` on.
proof fn lemma_honest_batch_low_degree<F: TwoAdicField, H: Hasher<F>>(
    air: Air<F>,
    trace: Trace<F>,
    config: FriConfig,
    proof: StarkProof<F>,
)
    requires
        honest_batch_ready::<F, H>(air, trace, config, proof),
    ensures
        ({
            let n = air.n as nat;
            let db = stark_degree_bound(n);
            let domain = (db * config.blowup) as nat;
            let beta = squeeze::<F, H>(state_after_trace(proof), 0);
            let gamma = squeeze::<F, H>(state_after_trace(proof), 1);
            let alpha = squeeze::<F, H>(state_after_z(proof), 0);
            let z = trace_grand_product(air, trace, beta, gamma)->0;
            let q_evals = Seq::new(domain, |j: int| quotient_at(air, trace, z, beta, gamma, alpha, domain, j as nat));
            let zeta = ood_draw::<F, H>(state_after_q(proof), 0, n, domain, F::spec_from_u64(7))->0;
            forall|i: int|
                db <= i < domain ==> #[trigger] interpolated(
                    honest_batch::<F, H>(trace, None, z, q_evals, proof, n, domain, zeta),
                )[i] == F::spec_zero()
        }),
{
    let zero = F::spec_zero();
    let n = air.n as nat;
    let db = stark_degree_bound(n);
    let domain = (db * config.blowup) as nat;
    let beta = squeeze::<F, H>(state_after_trace(proof), 0);
    let gamma = squeeze::<F, H>(state_after_trace(proof), 1);
    let alpha = squeeze::<F, H>(state_after_z(proof), 0);
    let z = trace_grand_product(air, trace, beta, gamma)->0;
    let q_evals = Seq::new(domain, |j: int| quotient_at(air, trace, z, beta, gamma, alpha, domain, j as nat));
    let zeta = ood_draw::<F, H>(state_after_q(proof), 0, n, domain, F::spec_from_u64(7))->0;
    let batch = honest_batch::<F, H>(trace, None, z, q_evals, proof, n, domain, zeta);
    let b = deep_poly(
        deep_lambdas::<F, H>(proof),
        honest_deep_quotients::<F, H>(air, trace, config, proof),
        honest_deep_exps(air, proof),
        6,
        db,
    );
    let s7 = F::spec_from_u64(7);
    let w = subgroup_root::<F>(domain);
    F::lemma_from_u64_wf(7);
    lemma_basics(zero, zero);
    lemma_honest_batch_point::<F, H>(air, trace, config, proof, 0);
    let bp = b + Seq::new((domain - db) as nat, |i: int| F::spec_zero());
    assert(all_wf(bp)) by {
        assert forall|i: int| 0 <= i < bp.len() implies (#[trigger] bp[i]).wf() by {
            if i >= db {
                assert(bp[i] == zero);
            }
        }
    }
    let sc = scaled(bp, s7);
    assert(all_wf(sc)) by {
        assert forall|i: int| 0 <= i < sc.len() implies (#[trigger] sc[i]).wf() by {
            lemma_basics(bp[i], fpow(s7, i as nat));
        }
    }
    assert forall|j: int| 0 <= j < domain implies #[trigger] crate::fft::dft(sc, w)[j] == batch[j] by {
        lemma_honest_batch_point::<F, H>(air, trace, config, proof, j as nat);
        crate::fft::lemma_fpow_wf(w, j as nat);
        crate::fft::lemma_eval_scaled(bp, s7, fpow(w, j as nat));
        crate::fft::lemma_eval_padded(b, (domain - db) as nat, s7.spec_mul(fpow(w, j as nat)));
    }
    assert(batch =~= crate::fft::dft(sc, w));
    crate::roundtrip::law_intt_undoes_ntt(sc);
    assert forall|i: int| db <= i < domain implies #[trigger] interpolated(batch)[i] == zero by {
        assert(bp[i] == zero);
        lemma_basics(fpow(s7, i as nat), zero);
    }
}

} // verus!
