//! The query index is a Fiat-Shamir value derived as an honest algebraic
//! reduction — `challenge mod domain`, the low bits of the canonical
//! representative.

use zkc_core::field::ZkField;
use zkc_core::goldilocks::Goldilocks;
use zkc_core::hash::{Digest, Hasher};
use zkc_core::transcript::Transcript;

type F = Goldilocks;
fn g(v: u64) -> F {
    F::from_u64(v)
}
fn sbox(x: F) -> F {
    let x2 = x.mul(x);
    x2.mul(x2).mul(x2).mul(x)
}
#[derive(Clone)]
struct H;
impl Hasher<F> for H {
    const WIDTH: usize = 1;
    fn hash(input: &[F]) -> Digest<F> {
        let mut acc = F::zero();
        for (i, x) in input.iter().enumerate() {
            acc = acc.add(x.add(g(i as u64 + 1)));
        }
        Digest(vec![sbox(acc)])
    }
    fn compress(l: &Digest<F>, r: &Digest<F>) -> Digest<F> {
        Digest(vec![sbox(l.0[0].add(g(2))).add(sbox(r.0[0].add(g(3))))])
    }
}

/// The canonical reduction the in-circuit derivation would target.
fn value_mod(value: F, domain: usize) -> usize {
    value
        .to_decimal()
        .bytes()
        .fold(0usize, |acc, b| (acc * 10 + (b - b'0') as usize) % domain)
}

#[test]
fn the_query_index_is_an_algebraic_reduction_of_the_challenge() {
    // Two identical transcripts: one draws the index, the other the raw
    // challenge. The index must be exactly .
    let domain = 64usize;
    let mut t_index = Transcript::<_, H>::new(&[g(9)]);
    t_index.absorb(&[g(1), g(2), g(3)]);
    let mut t_raw = Transcript::<_, H>::new(&[g(9)]);
    t_raw.absorb(&[g(1), g(2), g(3)]);

    for _ in 0..64 {
        let idx = t_index.challenge_index(domain);
        let raw = t_raw.challenge();
        assert!(idx < domain);
        assert_eq!(idx, value_mod(raw, domain), "the index is challenge mod domain");
    }
}
