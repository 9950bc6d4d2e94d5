//! DEEP: the committed columns are inside the low-degree test.
//!
//! The prover exercised here (`prove_with_corrupted_column`) commits a column
//! that differs from the honest low-degree extension at exactly one position,
//! and everything else about it is impeccable: the quotient is built from the
//! honest polynomial, every Merkle opening checks out. The tests find a
//! position no query opens and watch the proof be rejected anyway.

use std::collections::HashSet;

use zkc_core::air::{Air, Trace};
use zkc_core::field::ZkField;
use zkc_core::fri::FriConfig;
use zkc_core::goldilocks::Goldilocks;
use zkc_core::hash::{Digest, Hasher};
use zkc_core::ir::{Assertion, Determinacy, HintKind, Input, Ir, Node, NodeOp, Visibility};
use zkc_core::plonkish::lower_plonkish;
use zkc_core::stark::{prove_with_corrupted_column, prove_with_trace, verify_with_air, StarkProof};
use zkc_core::witness::{solve, SolveInputs};

type F = Goldilocks;

#[derive(Clone)]
struct ToyHash;
fn g(v: u64) -> F {
    F::from_u64(v)
}
fn sbox(x: F) -> F {
    let x2 = ZkField::mul(x, x);
    let x4 = ZkField::mul(x2, x2);
    ZkField::mul(ZkField::mul(x4, x2), x)
}
impl Hasher<F> for ToyHash {
    const WIDTH: usize = 1;
    fn hash(input: &[F]) -> Digest<F> {
        let mut s = g(0x9E37_79B9_7F4A_7C15);
        for (i, x) in input.iter().enumerate() {
            s = sbox(ZkField::add(s, ZkField::add(*x, g(i as u64 + 1))));
        }
        Digest(vec![sbox(s)])
    }
    fn compress(l: &Digest<F>, r: &Digest<F>) -> Digest<F> {
        Self::hash(&[l.0[0], r.0[0]])
    }
}

/// The IsZero circuit as the frontend emits it.
fn iszero_ir() -> Ir {
    let input = |wire: u32, name: &str, visibility: Visibility, line: u32| Input {
        wire,
        name: name.to_string(),
        visibility,
        line,
    };
    let node = |wire: u32, op: NodeOp| Node { wire, advice_derived: false, op };
    let assertion = |lhs: u32, rhs: u32, label: &str, line: u32| Assertion {
        lhs,
        rhs,
        label: label.to_string(),
        line,
    };
    let ir = Ir {
        schema_version: 2,
        name: "IsZero".to_string(),
        field: "bn254".to_string(),
        const_one_wire: 0,
        inputs: vec![input(1, "x", Visibility::Private, 0), input(2, "out", Visibility::Output, 20)],
        nodes: vec![
            node(
                3,
                NodeOp::Hint {
                    hint: HintKind::InvOrZero,
                    name: "inv".to_string(),
                    gadget: "is_zero".to_string(),
                    line: 0,
                    args: vec![1],
                },
            ),
            node(4, NodeOp::Mul { args: vec![1, 3] }),
            node(5, NodeOp::Const { value: "1".to_string() }),
            node(6, NodeOp::Sub { args: vec![5, 2] }),
            node(7, NodeOp::Mul { args: vec![1, 2] }),
            node(8, NodeOp::Const { value: "0".to_string() }),
        ],
        assertions: vec![
            assertion(4, 6, "(x * inv) == (1 - out)", 22),
            assertion(7, 8, "(x * out) == 0", 23),
        ],
        determinacy: Determinacy {
            proved: true,
            targets: vec!["out".to_string()],
            branches: vec![vec!["x == 0".to_string()], vec!["x != 0".to_string()]],
        },
    };
    ir.validate().unwrap();
    ir
}

fn inputs(pairs: &[(&str, &str)]) -> Vec<(String, F)> {
    pairs.iter().map(|(k, v)| (k.to_string(), F::from_decimal(v).unwrap())).collect()
}

/// The IsZero circuit with its honest witness, as an AIR and a trace.
fn iszero() -> (Air<F>, Trace<F>) {
    let ir = iszero_ir();
    let circuit = lower_plonkish::<F>(&ir).unwrap();
    let wires = solve::<F>(
        &ir,
        &SolveInputs { inputs: &inputs(&[("x", "0"), ("out", "1")]), advice_overrides: &Vec::new() },
    )
    .unwrap();
    let air = Air::from_plonkish(&circuit);
    let trace = Air::trace(&circuit, &wires);
    (air, trace)
}

/// Every domain position any query opens.
fn opened_positions(proof: &StarkProof<F>, config: &FriConfig) -> HashSet<usize> {
    let half0 = proof.degree_bound * config.blowup / 2;
    proof
        .fri
        .queries
        .iter()
        .flat_map(|query| {
            let lo = query.index % half0;
            [lo, lo + half0]
        })
        .collect()
}

#[test]
fn the_honest_proof_still_verifies_through_the_deep_batch() {
    let (air, trace) = iszero();
    let config = FriConfig::default();
    let proof = prove_with_trace::<F, ToyHash>(&air, &trace, &config).unwrap();
    assert!(
        verify_with_air::<F, ToyHash>(&air, &proof, &config).is_ok(),
        "the honest witness no longer verifies"
    );
}

#[test]
fn the_corruption_mechanism_itself_changes_nothing() {
    // A zero corruption must be indistinguishable from no corruption.
    let (air, trace) = iszero();
    let config = FriConfig::default();
    let proof =
        prove_with_corrupted_column::<F, ToyHash>(&air, &trace, &config, 3, F::zero()).unwrap();
    assert!(
        verify_with_air::<F, ToyHash>(&air, &proof, &config).is_ok(),
        "a corruption of zero must leave an honest proof honest"
    );
}

#[test]
fn a_corrupted_column_is_refused_at_a_position_no_query_opens() {
    let (air, trace) = iszero();
    let config = FriConfig { blowup: 4, num_queries: 8 };
    let domain_size = {
        let probe = prove_with_trace::<F, ToyHash>(&air, &trace, &config).unwrap();
        probe.degree_bound * config.blowup
    };

    let mut chosen = None;
    for position in 0..domain_size {
        let proof =
            prove_with_corrupted_column::<F, ToyHash>(&air, &trace, &config, position, g(1)).unwrap();
        if !opened_positions(&proof, &config).contains(&position) {
            chosen = Some((position, proof));
            break;
        }
    }
    let (position, proof) = chosen.expect("some position escapes the queries");

    let opened = opened_positions(&proof, &config);
    assert!(!opened.contains(&position), "the test needs a position outside the queried set");
    assert!(opened.len() < domain_size, "the queries must not cover the domain");

    let outcome = verify_with_air::<F, ToyHash>(&air, &proof, &config);
    assert!(outcome.is_err(), "a corrupted column at position {position} was accepted");

    // It fails in the low-degree test, on the column that was never opened.
    let reason = outcome.unwrap_err();
    assert_eq!(reason, "final FRI codeword is not constant (input was not low-degree)");
}

#[test]
fn no_position_escapes_the_low_degree_test() {
    let (air, trace) = iszero();
    let config = FriConfig { blowup: 4, num_queries: 4 };
    let domain_size = {
        let probe = prove_with_trace::<F, ToyHash>(&air, &trace, &config).unwrap();
        probe.degree_bound * config.blowup
    };

    for position in 0..domain_size {
        let proof =
            prove_with_corrupted_column::<F, ToyHash>(&air, &trace, &config, position, g(1)).unwrap();
        assert!(
            verify_with_air::<F, ToyHash>(&air, &proof, &config).is_err(),
            "a corrupted column at position {position} was accepted"
        );
    }
}

#[test]
fn an_invented_out_of_domain_value_is_refused() {
    // The constraint is checked at ζ, so the six values claimed there are
    // load-bearing. Changing one must not go unnoticed.
    let (air, trace) = iszero();
    let config = FriConfig::default();

    for which in 0..6 {
        let mut proof = prove_with_trace::<F, ToyHash>(&air, &trace, &config).unwrap();
        let ood = &mut proof.ood;
        let slot = match which {
            0 => &mut ood.a,
            1 => &mut ood.b,
            2 => &mut ood.c,
            3 => &mut ood.z,
            4 => &mut ood.z_next,
            _ => &mut ood.q,
        };
        *slot = ZkField::add(*slot, F::one());
        assert!(
            verify_with_air::<F, ToyHash>(&air, &proof, &config).is_err(),
            "an altered out-of-domain value (slot {which}) was accepted"
        );
    }
}

#[test]
fn the_quotient_commitment_is_bound_to_the_transcript() {
    // Swapping the quotient root changes ζ and every batching challenge, so
    // nothing downstream can still line up.
    let (air, trace) = iszero();
    let config = FriConfig::default();
    let mut proof = prove_with_trace::<F, ToyHash>(&air, &trace, &config).unwrap();
    proof.q_root = Digest(vec![ZkField::add(proof.q_root.0[0], F::one())]);
    assert!(
        verify_with_air::<F, ToyHash>(&air, &proof, &config).is_err(),
        "a substituted quotient root was accepted"
    );
}
