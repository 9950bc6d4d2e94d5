//! FRI: the low-degree test at the heart of the STARK.
//!
//! FRI shrinks the problem by half each round. Split a polynomial into even
//! and odd parts, `f(x) = f_e(x²) + x·f_o(x²)`, and combine them with a
//! verifier challenge `α`: `f'(x²) = f_e(x²) + α·f_o(x²)`. In point form, using
//! `f(x)` and `f(-x)`:
//!
//! ```text
//!   f'(x²) = (f(x) + f(-x))/2  +  α · (f(x) - f(-x)) / (2x)
//! ```
//!
//! After `log₂(degree bound)` rounds the polynomial is a constant, sent in the
//! clear. Soundness comes from the query phase: a prover who folded a
//! high-degree function cannot keep the fold relation consistent across
//! rounds at random points.
use vstd::prelude::*;

use crate::air::{is_domain_for, lemma_domain_unique, lemma_log2_of_two_pow};
use crate::fft::{
    all_wf, coset_evaluate, fpow, lemma_fpow_add, lemma_fpow_wf, lemma_two_pow_add, lemma_two_pow_pos, log2,
    poly_eval, subgroup_root, subgroup_size,
};
use crate::field::{lemma_basics, TwoAdicField, ZkField};
use crate::hash::{Digest, Hasher};
use crate::merkle::{law_honest_path_reaches_root, path_root, two_pow, verify_opening, MerkleTree, Opening};
use crate::transcript::{digits_value, squeeze, Transcript};

verus! {

/// A fixed coset shift for the FRI evaluation domain, disjoint from the
/// subgroups the trace lives on.
pub fn coset_shift<F: ZkField>() -> (r: F)
    ensures
        r == F::spec_from_u64(7),
{
    F::from_u64(7)
}

pub struct FriConfig {
    /// Domain-size to degree-bound ratio; larger means more redundancy and
    /// fewer queries for the same soundness.
    pub blowup: usize,
    /// Independent query positions. Soundness error falls exponentially in this.
    pub num_queries: usize,
}

impl Clone for FriConfig {
    fn clone(&self) -> (r: Self)
        ensures
            r.blowup == self.blowup,
            r.num_queries == self.num_queries,
    {
        FriConfig { blowup: self.blowup, num_queries: self.num_queries }
    }
}

impl Default for FriConfig {
    fn default() -> (r: Self)
        ensures
            r.blowup == 4,
            r.num_queries == 32,
    {
        FriConfig { blowup: 4, num_queries: 32 }
    }
}

/// One query's opened pair at one fold layer, with Merkle proofs.
pub struct LayerOpening<F> {
    pub lo: F,
    pub hi: F,
    pub lo_proof: Opening<F>,
    pub hi_proof: Opening<F>,
}

pub struct FriQuery<F> {
    pub index: usize,
    pub layers: Vec<LayerOpening<F>>,
}

pub struct FriProof<F> {
    pub roots: Vec<Digest<F>>,
    pub final_poly: Vec<F>,
    pub queries: Vec<FriQuery<F>>,
    /// Domain-0 size, so the verifier can rebuild every layer's geometry.
    pub domain_size: usize,
}

/// The points `shift · gen^j` of the first half of a size-`m` coset, and
/// the element 2, all have inverses: folding never divides by zero.
pub open spec fn coset_invertible<F: TwoAdicField>(shift: F, m: nat) -> bool {
    &&& F::spec_from_u64(2).spec_inverse() is Some
    &&& forall|j: nat| j < m / 2 ==> (#[trigger] shift.spec_mul(fpow(subgroup_root::<F>(m), j))).spec_inverse() is Some
}

/// Every fold of a FRI run over a size-`domain` coset of the standard shift
/// is well defined.
pub open spec fn fri_invertible<F: TwoAdicField>(domain: nat, rounds: nat) -> bool {
    forall|r: nat| r < rounds ==> #[trigger] coset_invertible::<F>(
        fpow(F::spec_from_u64(7), two_pow(r)),
        domain / two_pow(r),
    )
}

/// The fold of the pair `(f(x), f(-x))` with challenge `α`:
/// `(lo + hi)/2 + α·(lo - hi)/(2x)`.
pub open spec fn fold_value<F: ZkField>(lo: F, hi: F, x: F, alpha: F) -> F {
    let two_inverse = F::spec_from_u64(2).spec_inverse()->0;
    let sum = lo.spec_add(hi).spec_mul(two_inverse);
    let diff = lo.spec_sub(hi).spec_mul(two_inverse).spec_mul(x.spec_inverse()->0);
    sum.spec_add(alpha.spec_mul(diff))
}

/// Fold one layer's evaluations to the next, given challenge `α`. The domain of
/// `layer` is `shift · <gen>` of size `m`; the result lives on `shift² · <gen²>`
/// of size `m/2`.
fn fold_layer<F: TwoAdicField>(layer: &[F], shift: F, alpha: F) -> (r: Vec<F>)
    requires
        subgroup_size::<F>(layer@.len()),
        shift.wf(),
        coset_invertible::<F>(shift, layer@.len()),
    ensures
        r@.len() == layer@.len() / 2,
        forall|j: int| 0 <= j < r@.len() ==> #[trigger] r@[j] == fold_value(
            layer@[j],
            layer@[j + layer@.len() / 2],
            shift.spec_mul(fpow(subgroup_root::<F>(layer@.len()), j as nat)),
            alpha,
        ),
{
    let m = layer.len();
    let half = m / 2;
    let bits = crate::fft::exact_log2(m);
    let gen = F::two_adic_generator(bits);
    let two_inverse = F::from_u64(2).inverse().unwrap();
    let mut folded: Vec<F> = Vec::new();
    let mut x = shift;
    proof {
        lemma_basics(shift, shift);
        crate::field::lemma_mul_comm(shift, F::spec_one());
        assert(fpow(gen, 0) == F::spec_one());
    }
    let mut j: usize = 0;
    while j < half
        invariant
            j <= half,
            half == m / 2,
            m == layer@.len(),
            gen == subgroup_root::<F>(m as nat),
            coset_invertible::<F>(shift, m as nat),
            two_inverse == F::spec_from_u64(2).spec_inverse()->0,
            x == shift.spec_mul(fpow(gen, j as nat)),
            folded@.len() == j,
            forall|k: int| 0 <= k < j ==> #[trigger] folded@[k] == fold_value(
                layer@[k],
                layer@[k + half],
                shift.spec_mul(fpow(gen, k as nat)),
                alpha,
            ),
        decreases half - j,
    {
        let f_lo = layer[j];
        let f_hi = layer[j + half];
        let sum = f_lo.add(f_hi).mul(two_inverse);
        proof {
            assert(x.spec_inverse() is Some);
        }
        let diff = f_lo.sub(f_hi).mul(two_inverse).mul(x.inverse().unwrap());
        folded.push(sum.add(alpha.mul(diff)));
        proof {
            crate::field::lemma_mul_assoc(shift, fpow(gen, j as nat), gen);
        }
        x = x.mul(gen);
        j = j + 1;
    }
    folded
}


/// `2^e = 2^r · 2^(e-r)`, so halving `r` times leaves `2^(e-r)`.
proof fn lemma_pow_split(e: nat, r: nat)
    requires
        r <= e,
    ensures
        two_pow(e) == two_pow(r) * two_pow((e - r) as nat),
        two_pow(e) / two_pow(r) == two_pow((e - r) as nat),
        two_pow(r) >= 1,
{
    lemma_two_pow_add(r, (e - r) as nat);
    lemma_two_pow_pos(r);
    vstd::arithmetic::div_mod::lemma_div_multiples_vanish(two_pow((e - r) as nat) as int, two_pow(r) as int);
}

/// The transcript history once the first `k` layer roots are absorbed.
pub open spec fn roots_absorbed<F>(start: Seq<F>, roots: Seq<Digest<F>>, k: nat) -> Seq<F>
    decreases k,
{
    if k == 0 || k > roots.len() {
        start
    } else {
        roots_absorbed(start, roots, (k - 1) as nat) + roots[k - 1].0@
    }
}

/// Appending roots does not change the history of the earlier ones.
proof fn lemma_roots_absorbed_push<F>(start: Seq<F>, roots: Seq<Digest<F>>, root: Digest<F>, k: nat)
    requires
        k <= roots.len(),
    ensures
        roots_absorbed(start, roots.push(root), k) == roots_absorbed(start, roots, k),
    decreases k,
{
    if k > 0 {
        lemma_roots_absorbed_push(start, roots, root, (k - 1) as nat);
    }
}

/// The folding challenges: round `r`'s is squeezed right after its root.
pub open spec fn fri_alphas<F: ZkField, H: Hasher<F>>(start: Seq<F>, roots: Seq<Digest<F>>) -> Seq<F> {
    Seq::new(roots.len(), |r: int| squeeze::<F, H>(roots_absorbed(start, roots, (r + 1) as nat), 0))
}

/// The coset shift of round `r`: the standard shift squared `r` times.
pub open spec fn round_shift<F: ZkField>(r: nat) -> F {
    fpow(F::spec_from_u64(7), two_pow(r))
}

/// One fold over a whole codeword on `shift · <g>`.
pub open spec fn fold_seq<F: TwoAdicField>(layer: Seq<F>, shift: F, alpha: F) -> Seq<F> {
    Seq::new(
        layer.len() / 2,
        |j: int|
            fold_value(
                layer[j],
                layer[j + layer.len() / 2],
                shift.spec_mul(fpow(subgroup_root::<F>(layer.len()), j as nat)),
                alpha,
            ),
    )
}

/// The codeword of round `r`: the polynomial on the size-`domain` coset of
/// the standard shift, folded once per earlier round with its challenge.
pub open spec fn fri_layer<F: TwoAdicField>(coeffs: Seq<F>, domain: nat, alphas: Seq<F>, r: nat) -> Seq<F>
    decreases r,
{
    if r == 0 {
        Seq::new(
            domain,
            |j: int| poly_eval(coeffs, F::spec_from_u64(7).spec_mul(fpow(subgroup_root::<F>(domain), j as nat))),
        )
    } else {
        fold_seq(fri_layer(coeffs, domain, alphas, (r - 1) as nat), round_shift::<F>((r - 1) as nat), alphas[r - 1])
    }
}

/// A codeword depends only on the challenges of earlier rounds.
proof fn lemma_fri_layer_prefix<F: TwoAdicField>(coeffs: Seq<F>, domain: nat, a1: Seq<F>, a2: Seq<F>, r: nat)
    requires
        r <= a1.len(),
        r <= a2.len(),
        forall|i: int| 0 <= i < r ==> a1[i] == a2[i],
    ensures
        fri_layer(coeffs, domain, a1, r) == fri_layer(coeffs, domain, a2, r),
    decreases r,
{
    if r > 0 {
        lemma_fri_layer_prefix(coeffs, domain, a1, a2, (r - 1) as nat);
    }
}

/// A layer opening that is exactly the codeword's pair at `(lo, lo + half)`,
/// each value with a path that leads to `root`.
pub open spec fn honest_opening<F: ZkField, H: Hasher<F>>(
    o: LayerOpening<F>,
    layer: Seq<F>,
    root: Digest<F>,
    lo: nat,
    half: nat,
) -> bool {
    &&& o.lo == layer[lo as int]
    &&& o.hi == layer[(lo + half) as int]
    &&& o.lo_proof.index == lo
    &&& o.hi_proof.index == lo + half
    &&& o.lo_proof.leaf@ == seq![o.lo]
    &&& o.hi_proof.leaf@ == seq![o.hi]
    &&& path_root::<F, H>(H::spec_hash(o.lo_proof.leaf@), lo, o.lo_proof.sibling_view()) == root.0@
    &&& path_root::<F, H>(H::spec_hash(o.hi_proof.leaf@), lo + half, o.hi_proof.sibling_view()) == root.0@
}

/// The query position a transcript with history `state` draws as its `q`-th
/// squeeze, in a half-domain of size `half`.
pub open spec fn query_index<F: ZkField, H: Hasher<F>>(state: Seq<F>, q: nat, half: nat) -> nat {
    digits_value(squeeze::<F, H>(state, q).spec_to_decimal()) % half
}

/// The transcript history once the layer roots and the final codeword are
/// absorbed: what the query positions are drawn from.
pub open spec fn fri_query_state<F>(start: Seq<F>, roots: Seq<Digest<F>>, final_poly: Seq<F>) -> Seq<F> {
    roots_absorbed(start, roots, roots.len()) + final_poly
}

/// An honest query: drawn from the transcript, with one honest opening per
/// round at the position the query index reaches in that round's codeword.
pub open spec fn honest_query<F: TwoAdicField, H: Hasher<F>>(
    query: FriQuery<F>,
    q: nat,
    domain: nat,
    roots: Seq<Digest<F>>,
    final_poly: Seq<F>,
    coeffs: Seq<F>,
    start: Seq<F>,
) -> bool {
    let alphas = fri_alphas::<F, H>(start, roots);
    &&& query.index == query_index::<F, H>(fri_query_state(start, roots, final_poly), q, domain / 2)
    &&& query.layers@.len() == roots.len()
    &&& forall|r: int|
        0 <= r < roots.len() ==> #[trigger] honest_opening::<F, H>(
            query.layers@[r],
            fri_layer(coeffs, domain, alphas, r as nat),
            roots[r],
            query.index as nat % (domain / two_pow((r + 1) as nat)),
            domain / two_pow((r + 1) as nat),
        )
}

/// The FRI proof an honest prover produces for `coeffs` from a transcript with
/// history `start`: one root per round, the last codeword in the clear, and
/// `num_queries` honest queries.
pub open spec fn honest_fri<F: TwoAdicField, H: Hasher<F>>(
    proof: FriProof<F>,
    coeffs: Seq<F>,
    degree_bound: nat,
    blowup: nat,
    num_queries: nat,
    start: Seq<F>,
) -> bool {
    let domain = degree_bound * blowup;
    let rounds = log2(degree_bound);
    &&& proof.domain_size == domain
    &&& proof.roots@.len() == rounds
    &&& proof.final_poly@ == fri_layer(coeffs, domain, fri_alphas::<F, H>(start, proof.roots@), rounds)
    &&& proof.queries@.len() == num_queries
    &&& forall|q: int|
        0 <= q < num_queries ==> #[trigger] honest_query::<F, H>(
            proof.queries@[q],
            q as nat,
            domain,
            proof.roots@,
            proof.final_poly@,
            coeffs,
            start,
        )
}

/// A committed round: the tree over the codeword, one value per leaf, and
/// its root.
pub open spec fn committed_layer<F: ZkField, H: Hasher<F>>(
    tree: MerkleTree<F>,
    root: Digest<F>,
    values: Seq<F>,
    expected: Seq<F>,
    size: nat,
) -> bool {
    &&& tree.wf::<H>()
    &&& tree.spec_root() == root.0@
    &&& values == expected
    &&& values.len() == size
    &&& tree.spec_layers()[0].len() == size
    &&& forall|j: int| 0 <= j < size ==> #[trigger] tree.spec_layers()[0][j] == H::spec_hash(seq![values[j]])
}

/// Commit a layer's evaluations as a Merkle tree, one evaluation per leaf.
fn commit_layer<F: ZkField, H: Hasher<F>>(layer: &[F]) -> (tree: MerkleTree<F>)
    requires
        layer@.len() > 0,
        layer@.len() * 2 <= usize::MAX,
        two_pow(log2(layer@.len())) == layer@.len(),
    ensures
        tree.wf::<H>(),
        tree.spec_layers()[0].len() == layer@.len(),
        forall|j: int| 0 <= j < layer@.len() ==> #[trigger] tree.spec_layers()[0][j] == H::spec_hash(seq![layer@[j]]),
{
    let mut leaves: Vec<Vec<F>> = Vec::new();
    let mut i: usize = 0;
    while i < layer.len()
        invariant
            i <= layer@.len(),
            leaves@.len() == i,
            forall|k: int| 0 <= k < i ==> (#[trigger] leaves@[k])@ == seq![layer@[k]],
        decreases layer@.len() - i,
    {
        let mut leaf: Vec<F> = Vec::new();
        leaf.push(layer[i]);
        leaves.push(leaf);
        i = i + 1;
    }
    let tree = MerkleTree::commit::<H>(&leaves);
    proof {
        let n = layer@.len();
        let l = tree.spec_layers()[0].len();
        let k = (tree.spec_layers().len() - 1) as nat;
        assert(l == two_pow(k));
        lemma_log2_of_two_pow(k);
        assert(is_domain_for(l, n));
        assert(is_domain_for(n, n));
        lemma_domain_unique(l, n, n);
    }
    tree
}

/// Prove that `coefficients` (degree `< degree_bound`) is low-degree.
///
/// The transcript is threaded through so the STARK can bind FRI's challenges
/// to its trace commitment — the folding challenges and the query positions
/// both come from it.
pub fn prove<F: TwoAdicField, H: Hasher<F>>(
    coefficients: &[F],
    degree_bound: usize,
    config: &FriConfig,
    transcript: &mut Transcript<F, H>,
) -> (proof: FriProof<F>)
    requires
        H::WIDTH >= 1,
        degree_bound >= 1,
        two_pow(log2(degree_bound as nat)) == degree_bound,
        config.blowup >= 1,
        degree_bound * config.blowup >= 2,
        two_pow(log2(config.blowup as nat)) == config.blowup,
        degree_bound * config.blowup * 2 <= usize::MAX,
        subgroup_size::<F>((degree_bound * config.blowup) as nat),
        coefficients@.len() <= degree_bound * config.blowup,
        all_wf(coefficients@),
        fri_invertible::<F>((degree_bound * config.blowup) as nat, log2(degree_bound as nat)),
    ensures
        honest_fri::<F, H>(
            proof,
            coefficients@,
            degree_bound as nat,
            config.blowup as nat,
            config.num_queries as nat,
            old(transcript).spec_state(),
        ),
        final(transcript).spec_state() == fri_query_state(
            old(transcript).spec_state(),
            proof.roots@,
            proof.final_poly@,
        ),
        final(transcript).spec_counter() == config.num_queries,
{
    let domain_size = degree_bound * config.blowup;
    let shift = coset_shift::<F>();
    let ghost start = transcript.spec_state();
    let ghost coeffs = coefficients@;
    let ghost rounds = log2(degree_bound as nat);
    let ghost lb = log2(config.blowup as nat);
    let ghost e = rounds + lb;
    proof {
        lemma_two_pow_add(rounds, lb);
        lemma_log2_of_two_pow(e);
        assert(log2(domain_size as nat) == e);
        F::lemma_from_u64_wf(7);
        lemma_basics(shift, shift);
        lemma_basics(F::spec_one(), shift);
        crate::field::lemma_mul_comm(F::spec_one(), shift);
        assert(fpow(shift, 1) == F::spec_one().spec_mul(shift)) by {
            reveal_with_fuel(fpow, 2);
        }
        assert(two_pow(0) == 1);
        lemma_two_pow_pos(lb);
        if e == 0 {
            assert(domain_size == 1);
        }
        assert(e >= 1);
    }
    // Layer 0: the polynomial on the full coset.
    let mut layer = coset_evaluate(coefficients, shift, domain_size);
    let mut layer_shift = shift;
    let num_rounds = crate::fft::exact_log2(degree_bound) as usize;
    let mut trees: Vec<MerkleTree<F>> = Vec::new();
    let mut roots: Vec<Digest<F>> = Vec::new();
    let mut layers: Vec<Vec<F>> = Vec::new();
    proof {
        assert(layer@ =~= fri_layer(coeffs, domain_size as nat, fri_alphas::<F, H>(start, roots@), 0));
        assert(layer_shift == round_shift::<F>(0));
    }
    let mut round: usize = 0;
    while round < num_rounds
        invariant
            H::WIDTH >= 1,
            coeffs == coefficients@,
            num_rounds == rounds,
            e == rounds + lb,
            e >= 1,
            domain_size == two_pow(e),
            e <= F::spec_two_adicity(),
            domain_size * 2 <= usize::MAX,
            round <= num_rounds,
            fri_invertible::<F>(domain_size as nat, rounds),
            layer@.len() == two_pow((e - round) as nat),
            layer@ == fri_layer(coeffs, domain_size as nat, fri_alphas::<F, H>(start, roots@), round as nat),
            layer_shift == round_shift::<F>(round as nat),
            transcript.spec_state() == roots_absorbed(start, roots@, round as nat),
            trees@.len() == round,
            roots@.len() == round,
            layers@.len() == round,
            forall|r: int|
                0 <= r < round ==> #[trigger] committed_layer::<F, H>(
                    trees@[r],
                    roots@[r],
                    layers@[r]@,
                    fri_layer(coeffs, domain_size as nat, fri_alphas::<F, H>(start, roots@), r as nat),
                    two_pow((e - r) as nat),
                ),
        decreases num_rounds - round,
    {
        let ghost size = two_pow((e - round) as nat);
        let ghost old_roots = roots@;
        let ghost old_layer = layer@;
        proof {
            lemma_log2_of_two_pow((e - round) as nat);
            crate::fft::lemma_two_pow_mono((e - round) as nat, e);
            lemma_two_pow_pos((e - round) as nat);
            lemma_pow_split(e, round as nat);
        }
        let tree = commit_layer::<F, H>(&layer);
        let root = tree.root();
        transcript.absorb_digest(&root);
        let alpha = transcript.challenge();
        let mut kept: Vec<F> = Vec::new();
        let mut i: usize = 0;
        while i < layer.len()
            invariant
                i <= layer@.len(),
                kept@ == layer@.subrange(0, i as int),
            decreases layer@.len() - i,
        {
            kept.push(layer[i]);
            i = i + 1;
        }
        proof {
            assert(kept@ =~= layer@);
            lemma_fpow_wf(F::spec_from_u64(7), two_pow(round as nat));
            assert(coset_invertible::<F>(
                fpow(F::spec_from_u64(7), two_pow(round as nat)),
                (domain_size as nat) / two_pow(round as nat),
            ));
        }
        let next = fold_layer(&layer, layer_shift, alpha);
        layers.push(kept);
        trees.push(tree);
        roots.push(root);
        proof {
            let new_alphas = fri_alphas::<F, H>(start, roots@);
            let old_alphas = fri_alphas::<F, H>(start, old_roots);
            assert(roots@ == old_roots.push(root));
            assert forall|i: int| 0 <= i <= round implies #[trigger] roots_absorbed(start, roots@, i as nat)
                == roots_absorbed(start, old_roots, i as nat) by {
                lemma_roots_absorbed_push(start, old_roots, root, i as nat);
            }
            assert(roots@[round as int] == root);
            assert(roots_absorbed(start, roots@, round as nat) == roots_absorbed(start, old_roots, round as nat));
            assert(roots_absorbed(start, roots@, (round + 1) as nat) == roots_absorbed(start, roots@, round as nat)
                + roots@[round as int].0@);
            assert(new_alphas[round as int] == alpha);
            assert forall|i: int| 0 <= i < round implies #[trigger] new_alphas[i] == old_alphas[i] by {
                assert(roots_absorbed(start, roots@, (i + 1) as nat) == roots_absorbed(start, old_roots, (i + 1) as nat));
            }
            assert forall|r: int| 0 <= r <= round implies #[trigger] fri_layer(coeffs, domain_size as nat, new_alphas, r as nat)
                == fri_layer(coeffs, domain_size as nat, old_alphas, r as nat) by {
                lemma_fri_layer_prefix(coeffs, domain_size as nat, new_alphas, old_alphas, r as nat);
            }
            assert(next@ =~= fold_seq(old_layer, round_shift::<F>(round as nat), alpha));
            assert(fri_layer(coeffs, domain_size as nat, new_alphas, round as nat) == old_layer);
            assert(fri_layer(coeffs, domain_size as nat, new_alphas, (round + 1) as nat) == fold_seq(
                fri_layer(coeffs, domain_size as nat, new_alphas, round as nat),
                round_shift::<F>(round as nat),
                new_alphas[round as int],
            ));
            assert(next@ == fri_layer(coeffs, domain_size as nat, new_alphas, (round + 1) as nat));
            assert(two_pow((e - round) as nat) == 2 * two_pow((e - round - 1) as nat));
            assert forall|r: int| 0 <= r < round + 1 implies #[trigger] committed_layer::<F, H>(
                trees@[r],
                roots@[r],
                layers@[r]@,
                fri_layer(coeffs, domain_size as nat, new_alphas, r as nat),
                two_pow((e - r) as nat),
            ) by {
                if r < round {
                    assert(committed_layer::<F, H>(
                        trees@[r],
                        roots@[r],
                        layers@[r]@,
                        fri_layer(coeffs, domain_size as nat, old_alphas, r as nat),
                        two_pow((e - r) as nat),
                    ));
                }
            }
            // The next shift is this one squared.
            lemma_fpow_add(F::spec_from_u64(7), two_pow(round as nat), two_pow(round as nat));
            assert(two_pow((round + 1) as nat) == two_pow(round as nat) + two_pow(round as nat));
        }
        layer = next;
        layer_shift = layer_shift.mul(layer_shift);
        round = round + 1;
    }
    // `layer` is now the final, lowest-degree codeword (size `blowup`); it is a
    // constant polynomial's evaluations if the input was genuinely low-degree.
    let final_poly = layer;
    let ghost after_roots = transcript.spec_state();
    proof {
        assert(e - rounds == lb);
        assert(final_poly@.len() == config.blowup);
    }
    let mut i: usize = 0;
    while i < final_poly.len()
        invariant
            i <= final_poly@.len(),
            final_poly@.len() >= 1,
            transcript.spec_state() == after_roots + final_poly@.subrange(0, i as int),
            i > 0 ==> transcript.spec_counter() == 0,
        decreases final_poly@.len() - i,
    {
        let element: [F; 1] = [final_poly[i]];
        transcript.absorb(&element);
        proof {
            assert(final_poly@.subrange(0, i as int + 1) =~= final_poly@.subrange(0, i as int).push(final_poly@[i as int]));
            assert(element@ =~= seq![final_poly@[i as int]]);
        }
        i = i + 1;
    }
    assert(final_poly@.subrange(0, final_poly@.len() as int) =~= final_poly@);
    let ghost qstate = transcript.spec_state();
    let ghost alphas = fri_alphas::<F, H>(start, roots@);
    assert(qstate == fri_query_state(start, roots@, final_poly@));

    // Query phase: positions from the transcript, openings at each layer.
    let half0 = domain_size / 2;
    proof {
        assert(two_pow(e) == 2 * two_pow((e - 1) as nat));
        lemma_log2_of_two_pow((e - 1) as nat);
    }
    let mut queries: Vec<FriQuery<F>> = Vec::new();
    let mut qi: usize = 0;
    while qi < config.num_queries
        invariant
            H::WIDTH >= 1,
            coeffs == coefficients@,
            num_rounds == rounds,
            e == rounds + lb,
            e >= 1,
            domain_size == two_pow(e),
            half0 == two_pow((e - 1) as nat),
            half0 * 2 == domain_size,
            two_pow(log2(half0 as nat)) == half0,
            qi <= config.num_queries,
            transcript.spec_state() == qstate,
            transcript.spec_counter() == qi,
            qstate == fri_query_state(start, roots@, final_poly@),
            alphas == fri_alphas::<F, H>(start, roots@),
            trees@.len() == num_rounds,
            roots@.len() == num_rounds,
            layers@.len() == num_rounds,
            forall|r: int|
                0 <= r < num_rounds ==> #[trigger] committed_layer::<F, H>(
                    trees@[r],
                    roots@[r],
                    layers@[r]@,
                    fri_layer(coeffs, domain_size as nat, alphas, r as nat),
                    two_pow((e - r) as nat),
                ),
            queries@.len() == qi,
            forall|q: int|
                0 <= q < qi ==> #[trigger] honest_query::<F, H>(
                    queries@[q],
                    q as nat,
                    domain_size as nat,
                    roots@,
                    final_poly@,
                    coeffs,
                    start,
                ),
        decreases config.num_queries - qi,
    {
        let index = transcript.challenge_index(half0);
        let mut layer_openings: Vec<LayerOpening<F>> = Vec::new();
        let mut position = index;
        let mut size = domain_size;
        proof {
            vstd::arithmetic::div_mod::lemma_small_mod(index as nat, domain_size as nat);
        }
        let mut round: usize = 0;
        while round < num_rounds
            invariant
                num_rounds == rounds,
                e == rounds + lb,
                e >= 1,
                domain_size == two_pow(e),
                round <= num_rounds,
                size == two_pow((e - round) as nat),
                position as nat == index as nat % (size as nat),
                trees@.len() == num_rounds,
                roots@.len() == num_rounds,
                layers@.len() == num_rounds,
                forall|r: int|
                    0 <= r < num_rounds ==> #[trigger] committed_layer::<F, H>(
                        trees@[r],
                        roots@[r],
                        layers@[r]@,
                        fri_layer(coeffs, domain_size as nat, alphas, r as nat),
                        two_pow((e - r) as nat),
                    ),
                layer_openings@.len() == round,
                forall|r: int|
                    0 <= r < round ==> #[trigger] honest_opening::<F, H>(
                        layer_openings@[r],
                        fri_layer(coeffs, domain_size as nat, alphas, r as nat),
                        roots@[r],
                        index as nat % (domain_size as nat / two_pow((r + 1) as nat)),
                        domain_size as nat / two_pow((r + 1) as nat),
                    ),
            decreases num_rounds - round,
        {
            proof {
                assert(two_pow((e - round) as nat) == 2 * two_pow((e - round - 1) as nat));
                lemma_two_pow_pos((e - round - 1) as nat);
                lemma_pow_split(e, (round + 1) as nat);
                assert((e - (round + 1)) as nat == (e - round - 1) as nat);
            }
            let half = size / 2;
            let lo = position % half;
            let hi = lo + half;
            proof {
                vstd::arithmetic::div_mod::lemma_mod_mod(index as int, half as int, 2);
                assert(half * 2 == size);
                assert(committed_layer::<F, H>(
                    trees@[round as int],
                    roots@[round as int],
                    layers@[round as int]@,
                    fri_layer(coeffs, domain_size as nat, alphas, round as nat),
                    two_pow((e - round) as nat),
                ));
            }
            let tree = &trees[round];
            let evals = &layers[round];
            let lo_value = evals[lo];
            let hi_value = evals[hi];
            let lo_leaf: [F; 1] = [lo_value];
            let hi_leaf: [F; 1] = [hi_value];
            let lo_proof = tree.open(lo, &lo_leaf);
            let hi_proof = tree.open(hi, &hi_leaf);
            proof {
                assert(lo_leaf@ =~= seq![lo_value]);
                assert(hi_leaf@ =~= seq![hi_value]);
                law_honest_path_reaches_root::<F, H>(*tree, lo as nat, seq![lo_value]);
                law_honest_path_reaches_root::<F, H>(*tree, hi as nat, seq![hi_value]);
            }
            layer_openings.push(LayerOpening { lo: lo_value, hi: hi_value, lo_proof, hi_proof });
            position = lo;
            size = half;
            round = round + 1;
        }
        queries.push(FriQuery { index, layers: layer_openings });
        proof {
            assert(index == query_index::<F, H>(qstate, qi as nat, (domain_size / 2) as nat));
        }
        qi = qi + 1;
    }
    FriProof { roots, final_poly, queries, domain_size }
}

/// The position a query index reaches in round `r`: its low opening.
pub open spec fn fri_lo(index: nat, domain: nat, r: nat) -> nat {
    index % (domain / two_pow(r + 1))
}

/// Which of a round's two opened values sits at `position` of its codeword.
pub open spec fn fri_pick<F>(o: LayerOpening<F>, position: nat, half: nat) -> F {
    if position < half {
        o.lo
    } else {
        o.hi
    }
}

/// The fold of round `r`'s opened pair at its low position `lo`.
pub open spec fn opened_fold<F: TwoAdicField>(o: LayerOpening<F>, r: nat, lo: nat, domain: nat, alpha: F) -> F {
    fold_value(o.lo, o.hi, round_shift::<F>(r).spec_mul(fpow(subgroup_root::<F>(domain / two_pow(r)), lo)), alpha)
}

/// Both of a round's openings sit under its root, at `lo` and `lo + half`,
/// and carry exactly the claimed values.
pub open spec fn opening_checks<F: ZkField, H: Hasher<F>>(o: LayerOpening<F>, root: Digest<F>, lo: nat, half: nat) -> bool {
    &&& path_root::<F, H>(H::spec_hash(o.lo_proof.leaf@), o.lo_proof.index as nat, o.lo_proof.sibling_view()) == root.0@
    &&& o.lo_proof.index == lo
    &&& o.lo_proof.leaf@ == seq![o.lo]
    &&& path_root::<F, H>(H::spec_hash(o.hi_proof.leaf@), o.hi_proof.index as nat, o.hi_proof.sibling_view()) == root.0@
    &&& o.hi_proof.index == lo + half
    &&& o.hi_proof.leaf@ == seq![o.hi]
}

/// Round `r` of a query continues round `r - 1`: the value it opens at the
/// carried position is the previous round's fold.
pub open spec fn chain_holds<F: TwoAdicField>(query: FriQuery<F>, r: nat, domain: nat, alphas: Seq<F>) -> bool {
    fri_pick(query.layers@[r as int], query.index as nat % (domain / two_pow(r)), domain / two_pow(r + 1)) == opened_fold(
        query.layers@[r - 1],
        (r - 1) as nat,
        fri_lo(query.index as nat, domain, (r - 1) as nat),
        domain,
        alphas[r - 1],
    )
}

/// What the verifier checks of one query: its index is the transcript's,
/// every round's openings check out, every round continues the previous
/// one, and the last fold lands on the final codeword.
pub open spec fn query_accepted<F: TwoAdicField, H: Hasher<F>>(
    query: FriQuery<F>,
    q: int,
    domain: nat,
    roots: Seq<Digest<F>>,
    final_poly: Seq<F>,
    alphas: Seq<F>,
    qstate: Seq<F>,
) -> bool {
    let rounds = query.layers@.len();
    let index = query.index as nat;
    &&& index == query_index::<F, H>(qstate, q as nat, domain / 2)
    &&& forall|r: int|
        0 <= r < rounds ==> #[trigger] opening_checks::<F, H>(
            query.layers@[r],
            roots[r],
            fri_lo(index, domain, r as nat),
            domain / two_pow((r + 1) as nat),
        )
    &&& forall|r: int| 1 <= r < rounds ==> #[trigger] chain_holds(query, r as nat, domain, alphas)
    &&& final_poly[((index % (domain / two_pow(rounds))) % final_poly.len()) as int] == opened_fold(
        query.layers@[rounds - 1],
        (rounds - 1) as nat,
        fri_lo(index, domain, (rounds - 1) as nat),
        domain,
        alphas[rounds - 1],
    )
}

/// What the verifier accepts: the proof's shape matches the degree bound
/// and configuration (a nonempty final codeword, each query opening one
/// layer per round, and at least one), the final codeword is a constant, and
/// every query checks out.
pub open spec fn fri_accepts<F: TwoAdicField, H: Hasher<F>>(
    proof: FriProof<F>,
    degree_bound: nat,
    blowup: nat,
    num_queries: nat,
    start: Seq<F>,
) -> bool {
    let domain = proof.domain_size as nat;
    let alphas = fri_alphas::<F, H>(start, proof.roots@);
    let qstate = fri_query_state(start, proof.roots@, proof.final_poly@);
    &&& domain == degree_bound * blowup
    &&& proof.roots@.len() == log2(degree_bound)
    &&& proof.queries@.len() == num_queries
    &&& proof.final_poly@.len() > 0
    &&& forall|q: int| 0 <= q < num_queries ==> 1 <= (#[trigger] proof.queries@[q]).layers@.len() == log2(degree_bound)
    &&& forall|i: int| 0 <= i < proof.final_poly@.len() ==> #[trigger] proof.final_poly@[i] == proof.final_poly@[0]
    &&& forall|q: int|
        0 <= q < num_queries ==> #[trigger] query_accepted::<F, H>(
            proof.queries@[q],
            q,
            domain,
            proof.roots@,
            proof.final_poly@,
            alphas,
            qstate,
        )
}

/// One rejected query rejects the proof.
proof fn lemma_query_rejected<F: TwoAdicField, H: Hasher<F>>(
    proof: FriProof<F>,
    degree_bound: nat,
    blowup: nat,
    num_queries: nat,
    start: Seq<F>,
    q: nat,
)
    requires
        q < num_queries,
        !query_accepted::<F, H>(
            proof.queries@[q as int],
            q as int,
            proof.domain_size as nat,
            proof.roots@,
            proof.final_poly@,
            fri_alphas::<F, H>(start, proof.roots@),
            fri_query_state(start, proof.roots@, proof.final_poly@),
        ),
    ensures
        !fri_accepts::<F, H>(proof, degree_bound, blowup, num_queries, start),
{
    if fri_accepts::<F, H>(proof, degree_bound, blowup, num_queries, start) {
        let domain = proof.domain_size as nat;
        let alphas = fri_alphas::<F, H>(start, proof.roots@);
        let qstate = fri_query_state(start, proof.roots@, proof.final_poly@);
        assert(forall|i: int|
            0 <= i < num_queries ==> #[trigger] query_accepted::<F, H>(
                proof.queries@[i],
                i,
                domain,
                proof.roots@,
                proof.final_poly@,
                alphas,
                qstate,
            ));
        assert(query_accepted::<F, H>(
            proof.queries@[q as int],
            q as int,
            proof.domain_size as nat,
            proof.roots@,
            proof.final_poly@,
            fri_alphas::<F, H>(start, proof.roots@),
            fri_query_state(start, proof.roots@, proof.final_poly@),
        ));
    }
}

/// Whether a leaf is exactly the single value `v`.
pub(crate) fn is_single<F: ZkField>(leaf: &Vec<F>, v: F) -> (r: bool)
    ensures
        r == (leaf@ == seq![v]),
{
    if leaf.len() != 1 {
        return false;
    }
    let same = leaf[0].equals(v);
    proof {
        if same {
            assert(leaf@ =~= seq![v]);
        }
    }
    same
}

/// `format!` of a FRI verification failure and its round: `std`'s
/// formatting writes the description, a space and the round in decimal.
#[verifier::external_body]
fn msg_round(what: &str, round: usize) -> (r: String)
    ensures
        r@ == what@ + " "@ + crate::goldilocks::nat_to_decimal(round as nat),
{
    format!("{what} {round}")
}

/// Verify a FRI proof: replay the transcript for challenges, then check every
/// query's fold chain and Merkle openings, and that the final codeword is a
/// constant.
pub fn verify<F: TwoAdicField, H: Hasher<F>>(
    proof: &FriProof<F>,
    degree_bound: usize,
    config: &FriConfig,
    transcript: &mut Transcript<F, H>,
) -> (r: Result<(), String>)
    requires
        H::WIDTH >= 1,
        degree_bound >= 2,
        two_pow(log2(degree_bound as nat)) == degree_bound,
        config.blowup >= 1,
        two_pow(log2(config.blowup as nat)) == config.blowup,
        degree_bound * config.blowup <= usize::MAX,
        subgroup_size::<F>((degree_bound * config.blowup) as nat),
        fri_invertible::<F>((degree_bound * config.blowup) as nat, log2(degree_bound as nat)),
    ensures
        r is Ok <==> fri_accepts::<F, H>(
            *proof,
            degree_bound as nat,
            config.blowup as nat,
            config.num_queries as nat,
            old(transcript).spec_state(),
        ),
        r is Ok ==> final(transcript).spec_state() == fri_query_state(
            old(transcript).spec_state(),
            proof.roots@,
            proof.final_poly@,
        ),
        r is Ok ==> final(transcript).spec_counter() == config.num_queries,
{
    let ghost start = transcript.spec_state();
    let domain_size = proof.domain_size;
    if domain_size != degree_bound * config.blowup {
        return Err("domain size does not match degree bound".to_string());
    }
    let num_rounds = crate::fft::exact_log2(degree_bound) as usize;
    if proof.roots.len() != num_rounds {
        return Err("wrong number of fold layers".to_string());
    }
    // The query count is the verifier's security parameter: a proof with fewer
    // queries than the config demands is weaker, so it must be rejected rather
    // than silently accepted for the queries it does contain.
    if proof.queries.len() != config.num_queries {
        return Err("proof does not contain the required number of queries".to_string());
    }
    // Shapes an honest prover never sends: checked before anything is read.
    if proof.final_poly.len() == 0 {
        return Err("empty final FRI codeword".to_string());
    }
    let mut qk: usize = 0;
    while qk < proof.queries.len()
        invariant
            qk <= proof.queries@.len(),
            num_rounds == log2(degree_bound as nat),
            forall|q: int| 0 <= q < qk ==> 1 <= (#[trigger] proof.queries@[q]).layers@.len() == num_rounds,
        decreases proof.queries@.len() - qk,
    {
        let layers = proof.queries[qk].layers.len();
        if layers == 0 || layers != num_rounds {
            proof {
                assert(!(1 <= proof.queries@[qk as int].layers@.len() == log2(degree_bound as nat)));
            }
            return Err("query opens the wrong number of layers".to_string());
        }
        qk = qk + 1;
    }
    let shift = coset_shift::<F>();
    let ghost rounds = log2(degree_bound as nat);
    let ghost lb = log2(config.blowup as nat);
    let ghost e = rounds + lb;
    let ghost domain = domain_size as nat;
    let ghost all_alphas = fri_alphas::<F, H>(start, proof.roots@);
    let ghost qstate = fri_query_state(start, proof.roots@, proof.final_poly@);
    proof {
        lemma_two_pow_add(rounds, lb);
        lemma_log2_of_two_pow(e);
        F::lemma_from_u64_wf(7);
        lemma_basics(shift, shift);
        lemma_basics(F::spec_one(), shift);
        crate::field::lemma_mul_comm(F::spec_one(), shift);
        assert(fpow(shift, 1) == F::spec_one().spec_mul(shift)) by {
            reveal_with_fuel(fpow, 2);
        }
        assert(two_pow(0) == 1);
        if rounds == 0 {
            assert(degree_bound == 1);
        }
    }

    // Replay to recover the folding challenges, in lockstep with the prover.
    let mut alphas: Vec<F> = Vec::new();
    let mut k: usize = 0;
    while k < num_rounds
        invariant
            H::WIDTH >= 1,
            k <= num_rounds,
            proof.roots@.len() == num_rounds,
            all_alphas == fri_alphas::<F, H>(start, proof.roots@),
            transcript.spec_state() == roots_absorbed(start, proof.roots@, k as nat),
            alphas@ == all_alphas.subrange(0, k as int),
        decreases num_rounds - k,
    {
        transcript.absorb_digest(&proof.roots[k]);
        let alpha = transcript.challenge();
        alphas.push(alpha);
        proof {
            assert(alphas@ =~= all_alphas.subrange(0, k as int + 1));
        }
        k = k + 1;
    }
    assert(alphas@ =~= all_alphas);
    let ghost after_roots = transcript.spec_state();
    let mut i: usize = 0;
    while i < proof.final_poly.len()
        invariant
            i <= proof.final_poly@.len(),
            proof.final_poly@.len() > 0,
            transcript.spec_state() == after_roots + proof.final_poly@.subrange(0, i as int),
            i > 0 ==> transcript.spec_counter() == 0,
        decreases proof.final_poly@.len() - i,
    {
        let element: [F; 1] = [proof.final_poly[i]];
        transcript.absorb(&element);
        proof {
            assert(proof.final_poly@.subrange(0, i as int + 1) =~= proof.final_poly@.subrange(0, i as int).push(
                proof.final_poly@[i as int],
            ));
            assert(element@ =~= seq![proof.final_poly@[i as int]]);
        }
        i = i + 1;
    }
    assert(proof.final_poly@.subrange(0, proof.final_poly@.len() as int) =~= proof.final_poly@);
    assert(transcript.spec_state() == qstate);

    // The final codeword must be a constant (degree 0): all entries equal.
    let final_constant = proof.final_poly[0];
    let mut i: usize = 0;
    while i < proof.final_poly.len()
        invariant
            i <= proof.final_poly@.len(),
            final_constant == proof.final_poly@[0],
            forall|j: int| 0 <= j < i ==> #[trigger] proof.final_poly@[j] == final_constant,
        decreases proof.final_poly@.len() - i,
    {
        if !proof.final_poly[i].equals(final_constant) {
            return Err("final FRI codeword is not constant (input was not low-degree)".to_string());
        }
        i = i + 1;
    }

    let half0 = domain_size / 2;
    proof {
        assert(two_pow(e) == 2 * two_pow((e - 1) as nat));
        lemma_log2_of_two_pow((e - 1) as nat);
    }
    let mut qi: usize = 0;
    while qi < proof.queries.len()
        invariant
            H::WIDTH >= 1,
            num_rounds == rounds,
            rounds >= 1,
            e == rounds + lb,
            domain_size == two_pow(e),
            domain == domain_size,
            domain_size == proof.domain_size,
            start == old(transcript).spec_state(),
            e <= F::spec_two_adicity(),
            half0 == two_pow((e - 1) as nat),
            half0 * 2 == domain_size,
            two_pow(log2(half0 as nat)) == half0,
            shift == F::spec_from_u64(7),
            shift == round_shift::<F>(0),
            shift.wf(),
            fri_invertible::<F>(domain, rounds),
            proof.roots@.len() == num_rounds,
            proof.queries@.len() == config.num_queries,
            forall|q: int|
                0 <= q < proof.queries@.len() ==> 1 <= (#[trigger] proof.queries@[q]).layers@.len() <= rounds,
            proof.final_poly@.len() > 0,
            alphas@ == all_alphas,
            all_alphas == fri_alphas::<F, H>(start, proof.roots@),
            qstate == fri_query_state(start, proof.roots@, proof.final_poly@),
            qi <= proof.queries@.len(),
            transcript.spec_state() == qstate,
            transcript.spec_counter() == qi,
            forall|q: int|
                0 <= q < qi ==> #[trigger] query_accepted::<F, H>(
                    proof.queries@[q],
                    q,
                    domain,
                    proof.roots@,
                    proof.final_poly@,
                    all_alphas,
                    qstate,
                ),
        decreases proof.queries@.len() - qi,
    {
        let query = &proof.queries[qi];
        // Positions are the verifier's to derive, not the prover's to choose.
        let index = transcript.challenge_index(half0);
        if index != query.index {
            proof {
                assert(!query_accepted::<F, H>(
                    proof.queries@[qi as int],
                    qi as int,
                    domain,
                    proof.roots@,
                    proof.final_poly@,
                    all_alphas,
                    qstate,
                ));
                lemma_query_rejected::<F, H>(*proof, degree_bound as nat, config.blowup as nat, config.num_queries as nat, start, qi as nat);
            }
            return Err("query index was not drawn from the transcript".to_string());
        }
        proof {
            vstd::arithmetic::div_mod::lemma_small_mod(index as nat, domain_size as nat);
        }
        let mut position = index;
        let mut size = domain_size;
        let mut layer_shift = shift;
        let mut previous_fold: Option<F> = None;
        let mut round: usize = 0;
        while round < query.layers.len()
            invariant
                num_rounds == rounds,
                rounds >= 1,
                e == rounds + lb,
                domain_size == two_pow(e),
                domain == domain_size,
                domain_size == proof.domain_size,
                start == old(transcript).spec_state(),
                proof.queries@.len() == config.num_queries,
                qi < proof.queries@.len(),
                qstate == fri_query_state(start, proof.roots@, proof.final_poly@),
                all_alphas == fri_alphas::<F, H>(start, proof.roots@),
                e <= F::spec_two_adicity(),
                fri_invertible::<F>(domain, rounds),
                proof.roots@.len() == num_rounds,
                1 <= query.layers@.len() <= num_rounds,
                query == proof.queries@[qi as int],
                index == query.index,
                index < half0,
                half0 * 2 == domain_size,
                alphas@ == all_alphas,
                all_alphas.len() == num_rounds,
                round <= query.layers@.len(),
                size == two_pow((e - round) as nat),
                position as nat == index as nat % (size as nat),
                layer_shift == round_shift::<F>(round as nat),
                layer_shift.wf(),
                (round == 0) == (previous_fold is None),
                round > 0 ==> previous_fold == Some(
                    opened_fold(
                        query.layers@[round - 1],
                        (round - 1) as nat,
                        fri_lo(index as nat, domain, (round - 1) as nat),
                        domain,
                        all_alphas[round - 1],
                    ),
                ),
                forall|r: int|
                    0 <= r < round ==> #[trigger] opening_checks::<F, H>(
                        query.layers@[r],
                        proof.roots@[r],
                        fri_lo(index as nat, domain, r as nat),
                        domain / two_pow((r + 1) as nat),
                    ),
                forall|r: int| 1 <= r < round ==> #[trigger] chain_holds(*query, r as nat, domain, all_alphas),
            decreases query.layers@.len() - round,
        {
            let opening = &query.layers[round];
            proof {
                assert(two_pow((e - round) as nat) == 2 * two_pow((e - round - 1) as nat));
                lemma_two_pow_pos((e - round - 1) as nat);
                lemma_pow_split(e, (round + 1) as nat);
                lemma_pow_split(e, round as nat);
                assert((e - (round + 1)) as nat == (e - round - 1) as nat);
            }
            let half = size / 2;
            let lo = position % half;
            let hi = lo + half;
            proof {
                vstd::arithmetic::div_mod::lemma_mod_mod(index as int, half as int, 2);
                assert(half * 2 == size);
                assert(lo == fri_lo(index as nat, domain, round as nat));
            }

            // Merkle: both openings must sit under this layer's committed root.
            if !verify_opening::<F, H>(&proof.roots[round], &opening.lo_proof) || opening.lo_proof.index != lo
                || !is_single(&opening.lo_proof.leaf, opening.lo) {
                proof {
                    assert(!opening_checks::<F, H>(
                        query.layers@[round as int],
                        proof.roots@[round as int],
                        fri_lo(index as nat, domain, round as nat),
                        domain / two_pow((round + 1) as nat),
                    ));
                    assert(!query_accepted::<F, H>(
                        proof.queries@[qi as int],
                        qi as int,
                        domain,
                        proof.roots@,
                        proof.final_poly@,
                        all_alphas,
                        qstate,
                    ));
                    lemma_query_rejected::<F, H>(*proof, degree_bound as nat, config.blowup as nat, config.num_queries as nat, start, qi as nat);
                }
                return Err(msg_round("bad low opening at round", round));
            }
            if !verify_opening::<F, H>(&proof.roots[round], &opening.hi_proof) || opening.hi_proof.index != hi
                || !is_single(&opening.hi_proof.leaf, opening.hi) {
                proof {
                    assert(!opening_checks::<F, H>(
                        query.layers@[round as int],
                        proof.roots@[round as int],
                        fri_lo(index as nat, domain, round as nat),
                        domain / two_pow((round + 1) as nat),
                    ));
                    assert(!query_accepted::<F, H>(
                        proof.queries@[qi as int],
                        qi as int,
                        domain,
                        proof.roots@,
                        proof.final_poly@,
                        all_alphas,
                        qstate,
                    ));
                    lemma_query_rejected::<F, H>(*proof, degree_bound as nat, config.blowup as nat, config.num_queries as nat, start, qi as nat);
                }
                return Err(msg_round("bad high opening at round", round));
            }

            // Chain: the previous round's fold must equal whichever of this
            // layer's two openings sits at the carried-in position.
            match previous_fold {
                Some(expected) => {
                    let actual = if position < half {
                        opening.lo
                    } else {
                        opening.hi
                    };
                    if !actual.equals(expected) {
                        proof {
                            assert(!chain_holds(*query, round as nat, domain, all_alphas));
                            assert(!query_accepted::<F, H>(
                                proof.queries@[qi as int],
                                qi as int,
                                domain,
                                proof.roots@,
                                proof.final_poly@,
                                all_alphas,
                                qstate,
                            ));
                            lemma_query_rejected::<F, H>(*proof, degree_bound as nat, config.blowup as nat, config.num_queries as nat, start, qi as nat);
                        }
                        return Err(msg_round("fold inconsistency entering round", round));
                    }
                },
                None => {},
            }

            // This round's fold, to check against the next layer.
            proof {
                lemma_log2_of_two_pow((e - round) as nat);
                crate::fft::lemma_two_pow_mono((e - round) as nat, e);
                lemma_log2_of_two_pow(e);
                assert(coset_invertible::<F>(
                    fpow(F::spec_from_u64(7), two_pow(round as nat)),
                    domain / two_pow(round as nat),
                ));
            }
            let bits = crate::fft::exact_log2(size);
            proof {
                F::lemma_generator_primitive(bits);
            }
            let gen = F::two_adic_generator(bits);
            let x = layer_shift.mul(crate::fft::pow(gen, lo as u64));
            let two_inverse = F::from_u64(2).inverse().unwrap();
            let sum = opening.lo.add(opening.hi).mul(two_inverse);
            proof {
                assert(x.spec_inverse() is Some);
            }
            let diff = opening.lo.sub(opening.hi).mul(two_inverse).mul(x.inverse().unwrap());
            previous_fold = Some(sum.add(alphas[round].mul(diff)));
            proof {
                lemma_fpow_add(F::spec_from_u64(7), two_pow(round as nat), two_pow(round as nat));
                assert(two_pow((round + 1) as nat) == two_pow(round as nat) + two_pow(round as nat));
                lemma_fpow_wf(F::spec_from_u64(7), two_pow((round + 1) as nat));
                assert forall|r: int| 1 <= r < round + 1 implies #[trigger] chain_holds(*query, r as nat, domain, all_alphas) by {
                    if r == round {
                        assert(previous_fold is Some);
                    }
                }
            }
            position = lo;
            size = half;
            layer_shift = layer_shift.mul(layer_shift);
            round = round + 1;
        }

        // The last fold must match the final codeword at the carried position.
        let expected_final = previous_fold.unwrap();
        proof {
            lemma_pow_split(e, query.layers@.len());
        }
        if !proof.final_poly[position % proof.final_poly.len()].equals(expected_final) {
            proof {
                assert(!query_accepted::<F, H>(
                    proof.queries@[qi as int],
                    qi as int,
                    domain,
                    proof.roots@,
                    proof.final_poly@,
                    all_alphas,
                    qstate,
                ));
                lemma_query_rejected::<F, H>(*proof, degree_bound as nat, config.blowup as nat, config.num_queries as nat, start, qi as nat);
            }
            return Err("final fold does not match the committed constant".to_string());
        }
        proof {
            assert(query_accepted::<F, H>(
                proof.queries@[qi as int],
                qi as int,
                domain,
                proof.roots@,
                proof.final_poly@,
                all_alphas,
                qstate,
            ));
        }
        qi = qi + 1;
    }
    Ok(())
}

/// Round `r`'s codeword has `2^(e-r)` entries on a domain of `2^e`.
proof fn lemma_fri_layer_len<F: TwoAdicField>(coeffs: Seq<F>, e: nat, alphas: Seq<F>, r: nat)
    requires
        r <= e,
    ensures
        fri_layer(coeffs, two_pow(e), alphas, r).len() == two_pow((e - r) as nat),
    decreases r,
{
    if r > 0 {
        lemma_fri_layer_len(coeffs, e, alphas, (r - 1) as nat);
        assert(two_pow((e - (r - 1)) as nat) == 2 * two_pow((e - r) as nat));
    }
}

/// Round `r` of an honest query continues round `r - 1`.
proof fn lemma_honest_chain<F: TwoAdicField, H: Hasher<F>>(
    query: FriQuery<F>,
    r: nat,
    e: nat,
    coeffs: Seq<F>,
    roots: Seq<Digest<F>>,
    alphas: Seq<F>,
)
    requires
        1 <= r < roots.len(),
        roots.len() <= e,
        alphas.len() == roots.len(),
        honest_opening::<F, H>(
            query.layers@[r - 1],
            fri_layer(coeffs, two_pow(e), alphas, (r - 1) as nat),
            roots[r - 1],
            query.index as nat % (two_pow(e) / two_pow(r)),
            two_pow(e) / two_pow(r),
        ),
        honest_opening::<F, H>(
            query.layers@[r as int],
            fri_layer(coeffs, two_pow(e), alphas, r),
            roots[r as int],
            query.index as nat % (two_pow(e) / two_pow(r + 1)),
            two_pow(e) / two_pow(r + 1),
        ),
    ensures
        chain_holds(query, r, two_pow(e), alphas),
{
    let domain = two_pow(e);
    let index = query.index as nat;
    lemma_pow_split(e, (r - 1) as nat);
    lemma_pow_split(e, r);
    lemma_pow_split(e, r + 1);
    assert(two_pow((e - (r - 1)) as nat) == 2 * two_pow((e - r) as nat));
    assert(two_pow((e - r) as nat) == 2 * two_pow((e - r - 1) as nat));
    assert((e - (r + 1)) as nat == (e - r - 1) as nat);
    lemma_two_pow_pos((e - r - 1) as nat);
    let size = two_pow((e - r) as nat);
    let half = two_pow((e - r - 1) as nat);
    let prev = index % size;
    vstd::arithmetic::div_mod::lemma_mod_mod(index as int, half as int, 2);
    lemma_fri_layer_len(coeffs, e, alphas, (r - 1) as nat);
    lemma_fri_layer_len(coeffs, e, alphas, r);
    let before = fri_layer(coeffs, domain, alphas, (r - 1) as nat);
    let layer = fri_layer(coeffs, domain, alphas, r);
    assert(layer == fold_seq(before, round_shift::<F>((r - 1) as nat), alphas[r - 1]));
    assert(layer[prev as int] == fold_value(
        before[prev as int],
        before[(prev + size) as int],
        round_shift::<F>((r - 1) as nat).spec_mul(fpow(subgroup_root::<F>(before.len()), prev)),
        alphas[r - 1],
    ));
    if prev < half {
        vstd::arithmetic::div_mod::lemma_small_mod(prev, half);
    } else {
        vstd::arithmetic::div_mod::lemma_mod_add_multiples_vanish(prev - half, half as int);
        vstd::arithmetic::div_mod::lemma_small_mod((prev - half) as nat, half);
    }
}

/// An honest proof passes every check the verifier makes but the final
/// codeword's constancy — the one that rests on the input's degree — and
/// with a constant final codeword it is accepted.
pub proof fn law_honest_proof_accepted<F: TwoAdicField, H: Hasher<F>>(
    proof: FriProof<F>,
    coeffs: Seq<F>,
    degree_bound: nat,
    blowup: nat,
    num_queries: nat,
    start: Seq<F>,
)
    requires
        honest_fri::<F, H>(proof, coeffs, degree_bound, blowup, num_queries, start),
        degree_bound >= 2,
        two_pow(log2(degree_bound)) == degree_bound,
        blowup >= 1,
        two_pow(log2(blowup)) == blowup,
        forall|i: int| 0 <= i < proof.final_poly@.len() ==> #[trigger] proof.final_poly@[i] == proof.final_poly@[0],
    ensures
        fri_accepts::<F, H>(proof, degree_bound, blowup, num_queries, start),
{
    let rounds = log2(degree_bound);
    let lb = log2(blowup);
    let e = rounds + lb;
    lemma_two_pow_add(rounds, lb);
    let domain = degree_bound * blowup;
    assert(domain == two_pow(e));
    if rounds == 0 {
        assert(degree_bound == 1);
    }
    let alphas = fri_alphas::<F, H>(start, proof.roots@);
    let qstate = fri_query_state(start, proof.roots@, proof.final_poly@);
    assert forall|q: int| 0 <= q < num_queries implies #[trigger] query_accepted::<F, H>(
        proof.queries@[q],
        q,
        domain,
        proof.roots@,
        proof.final_poly@,
        alphas,
        qstate,
    ) by {
        let query = proof.queries@[q];
        assert(honest_query::<F, H>(query, q as nat, domain, proof.roots@, proof.final_poly@, coeffs, start));
        let index = query.index as nat;
        assert forall|r: int| 0 <= r < rounds implies #[trigger] opening_checks::<F, H>(
            query.layers@[r],
            proof.roots@[r],
            fri_lo(index, domain, r as nat),
            domain / two_pow((r + 1) as nat),
        ) by {
            assert(honest_opening::<F, H>(
                query.layers@[r],
                fri_layer(coeffs, domain, alphas, r as nat),
                proof.roots@[r],
                index % (domain / two_pow((r + 1) as nat)),
                domain / two_pow((r + 1) as nat),
            ));
        }
        assert forall|r: int| 1 <= r < rounds implies #[trigger] chain_holds(query, r as nat, domain, alphas) by {
            let p = r - 1;
            assert(honest_opening::<F, H>(
                query.layers@[p],
                fri_layer(coeffs, domain, alphas, p as nat),
                proof.roots@[p],
                index % (domain / two_pow((p + 1) as nat)),
                domain / two_pow((p + 1) as nat),
            ));
            assert((p + 1) as nat == r as nat);
            assert(honest_opening::<F, H>(
                query.layers@[r],
                fri_layer(coeffs, domain, alphas, r as nat),
                proof.roots@[r],
                index % (domain / two_pow((r + 1) as nat)),
                domain / two_pow((r + 1) as nat),
            ));
            lemma_honest_chain::<F, H>(query, r as nat, e, coeffs, proof.roots@, alphas);
        }
        // The last fold lands on the final codeword.
        let last = (rounds - 1) as nat;
        assert(honest_opening::<F, H>(
            query.layers@[last as int],
            fri_layer(coeffs, domain, alphas, last),
            proof.roots@[last as int],
            index % (domain / two_pow(last + 1)),
            domain / two_pow(last + 1),
        ));
        lemma_pow_split(e, last);
        lemma_pow_split(e, rounds);
        assert(two_pow((e - last) as nat) == 2 * two_pow((e - rounds) as nat));
        lemma_two_pow_pos((e - rounds) as nat);
        lemma_fri_layer_len(coeffs, e, alphas, last);
        lemma_fri_layer_len(coeffs, e, alphas, rounds);
        let lo = index % (domain / two_pow(rounds));
        vstd::arithmetic::div_mod::lemma_small_mod(lo, two_pow((e - rounds) as nat));
        let before = fri_layer(coeffs, domain, alphas, last);
        assert(fri_layer(coeffs, domain, alphas, rounds) == fold_seq(before, round_shift::<F>(last), alphas[last as int]));
    }
    lemma_fri_layer_len(coeffs, e, alphas, rounds);
    lemma_two_pow_pos((e - rounds) as nat);
    assert(proof.final_poly@.len() > 0);
    assert forall|q: int| 0 <= q < num_queries implies 1 <= (#[trigger] proof.queries@[q]).layers@.len() == rounds by {
        assert(honest_query::<F, H>(proof.queries@[q], q as nat, domain, proof.roots@, proof.final_poly@, coeffs, start));
    }
}

} // verus!
