//! End-to-end STARK tests: the FRI-STARK over the hand-written Goldilocks
//! field with a stand-in hash, on small Plonkish circuits.

use zkc_core::air::{Air, Trace};
use zkc_core::field::ZkField;
use zkc_core::fri::FriConfig;
use zkc_core::goldilocks::Goldilocks;
use zkc_core::hash::{Digest, Hasher};
use zkc_core::ir::{Assertion, Determinacy, HintKind, Input, Ir, Node, NodeOp, Visibility};
use zkc_core::plonkish::{lower_plonkish, Cell, Column, Plonkish, Row};
use zkc_core::witness::{solve, SolveInputs};
use zkc_core::stark::{prove, prove_with_corrupted_column, prove_with_trace, verify, verify_with_air};

type F = Goldilocks;

#[derive(Clone)]
struct ToyHash;
fn g(v: u64) -> F {
    F::from_u64(v)
}
fn sbox(x: F) -> F {
    let x2 = ZkField::mul(x, x);
    let x4 = ZkField::mul(x2, x2);
    ZkField::mul(ZkField::mul(x4, x2), x)
}
impl Hasher<F> for ToyHash {
    const WIDTH: usize = 1;
    fn hash(input: &[F]) -> Digest<F> {
        let mut s = g(0x9E3779B97F4A7C15);
        for (i, x) in input.iter().enumerate() {
            s = sbox(ZkField::add(s, ZkField::add(*x, g(i as u64 + 1))));
        }
        Digest(vec![sbox(s)])
    }
    fn compress(l: &Digest<F>, r: &Digest<F>) -> Digest<F> {
        Self::hash(&[l.0[0], r.0[0]])
    }
}

/// The IsZero circuit as the frontend emits it: `out` is 1 exactly when `x`
/// is 0, through an `inv_or_zero` hint.
fn iszero_ir() -> Ir {
    let input = |wire: u32, name: &str, visibility: Visibility, line: u32| Input {
        wire,
        name: name.to_string(),
        visibility,
        line,
    };
    let node = |wire: u32, op: NodeOp| Node { wire, advice_derived: false, op };
    let assertion = |lhs: u32, rhs: u32, label: &str, line: u32| Assertion {
        lhs,
        rhs,
        label: label.to_string(),
        line,
    };
    let ir = Ir {
        schema_version: 2,
        name: "IsZero".to_string(),
        field: "bn254".to_string(),
        const_one_wire: 0,
        inputs: vec![input(1, "x", Visibility::Private, 0), input(2, "out", Visibility::Output, 20)],
        nodes: vec![
            node(
                3,
                NodeOp::Hint {
                    hint: HintKind::InvOrZero,
                    name: "inv".to_string(),
                    gadget: "is_zero".to_string(),
                    line: 0,
                    args: vec![1],
                },
            ),
            node(4, NodeOp::Mul { args: vec![1, 3] }),
            node(5, NodeOp::Const { value: "1".to_string() }),
            node(6, NodeOp::Sub { args: vec![5, 2] }),
            node(7, NodeOp::Mul { args: vec![1, 2] }),
            node(8, NodeOp::Const { value: "0".to_string() }),
        ],
        assertions: vec![
            assertion(4, 6, "(x * inv) == (1 - out)", 22),
            assertion(7, 8, "(x * out) == 0", 23),
        ],
        determinacy: Determinacy {
            proved: true,
            targets: vec!["out".to_string()],
            branches: vec![vec!["x == 0".to_string()], vec!["x != 0".to_string()]],
        },
    };
    ir.validate().unwrap();
    ir
}

fn inputs(pairs: &[(&str, &str)]) -> Vec<(String, F)> {
    pairs.iter().map(|(k, v)| (k.to_string(), F::from_decimal(v).unwrap())).collect()
}

/// IsZero lowered, with the wire values a witness solves to.
fn iszero_with(values: &[(&str, &str)], advice: &[(&str, &str)]) -> (Plonkish<F>, Vec<F>) {
    let ir = iszero_ir();
    let circuit = lower_plonkish::<F>(&ir).unwrap();
    let wires = solve::<F>(
        &ir,
        &SolveInputs { inputs: &inputs(values), advice_overrides: &inputs(advice) },
    )
    .unwrap();
    (circuit, wires)
}

#[test]
fn an_honest_witness_proves_and_verifies() {
    // x = 0 forces out = 1; the honest witness must yield an accepted proof.
    let (circuit, wires) = iszero_with(&[("x", "0"), ("out", "1")], &[]);
    let config = FriConfig::default();
    let proof = prove::<F, ToyHash>(&circuit, &wires, &config).unwrap();
    assert!(
        verify::<F, ToyHash>(&circuit, &proof, &config).is_ok(),
        "honest witness did not verify"
    );
}

#[test]
fn the_phase_zero_forgery_yields_no_accepted_proof() {
    // The forgery sets inv = 0 with x = 5, out = 1, so the identity `x·out = 0`
    // fails. Either no proof comes out or the one that does is refused.
    let (circuit, wires) = iszero_with(&[("x", "5"), ("out", "1")], &[("inv", "0")]);
    let config = FriConfig::default();
    if let Some(proof) = prove::<F, ToyHash>(&circuit, &wires, &config) {
        assert!(
            verify::<F, ToyHash>(&circuit, &proof, &config).is_err(),
            "the phase-0 forgery produced an accepted proof"
        );
    }
}

#[test]
fn a_tampered_proof_is_rejected() {
    let (circuit, wires) = iszero_with(&[("x", "0"), ("out", "1")], &[]);
    let config = FriConfig::default();
    let mut proof = prove::<F, ToyHash>(&circuit, &wires, &config).unwrap();

    // Corrupt an opened trace value: the consistency check or Merkle must catch it.
    proof.queries[0].lo.a = g(999999);
    assert!(
        verify::<F, ToyHash>(&circuit, &proof, &config).is_err(),
        "a tampered trace opening was accepted"
    );
}

#[test]
fn the_verifier_binds_to_the_transcript() {
    // A proof made under one transcript must not verify under a mismatched
    // config (different query count changes the challenges).
    let (circuit, wires) = iszero_with(&[("x", "0"), ("out", "1")], &[]);
    let proof =
        prove::<F, ToyHash>(&circuit, &wires, &FriConfig { blowup: 4, num_queries: 20 }).unwrap();
    let result = verify::<F, ToyHash>(&circuit, &proof, &FriConfig { blowup: 4, num_queries: 24 });
    assert!(result.is_err(), "proof verified under a mismatched transcript");
}

/// Two gate-less rows whose `a` cells are wired together.
fn wired_pair() -> Plonkish<F> {
    let zero = F::zero();
    let row = |origin: &str| Row {
        q_l: zero, q_r: zero, q_o: zero, q_m: zero, q_c: zero,
        cells: [Some(0), None, None],
        origin: origin.to_string(),
    };
    let (row0, row1) = (row("wire cell A"), row("wire cell B"));
    Plonkish {
        rows: vec![row0, row1],
        // wire 0 sits in (row 0, col A) and (row 1, col A): they must agree.
        copies: vec![(Cell::new(0, Column::A), Cell::new(1, Column::A))],
        public_cells: vec![],
    }
}

/// One multiplication gate `a · b - c = 0` on wires 0, 1, 2.
fn one_product() -> Plonkish<F> {
    let zero = F::zero();
    Plonkish {
        rows: vec![Row {
            q_l: zero,
            q_r: zero,
            q_o: ZkField::neg(F::one()),
            q_m: F::one(),
            q_c: zero,
            cells: [Some(0), Some(1), Some(2)],
            origin: "c == a * b".to_string(),
        }],
        copies: vec![],
        public_cells: vec![],
    }
}

#[test]
fn a_wiring_violation_is_caught_by_the_permutation_argument() {
    // The capability the permutation argument adds. Build a tiny circuit whose
    // two rows carry NO gate (all selectors zero, so the row identity is 0=0
    // everywhere) but whose two cells are wired together by a copy constraint.
    // An honest trace puts the same value in both; a violating trace puts
    // different values in them. The gates are satisfied either way — only the
    // wiring argument can tell the two apart.
    let circuit = wired_pair();
    let air = Air::from_plonkish(&circuit);
    let config = FriConfig::default();

    // Honest: both cells hold 42. The permutation argument must accept.
    let honest = Trace { a: vec![g(42), g(42)], b: vec![g(0), g(0)], c: vec![g(0), g(0)] };
    let proof = prove_with_trace::<F, ToyHash>(&air, &honest, &config).unwrap();
    assert!(
        verify_with_air::<F, ToyHash>(&air, &proof, &config).is_ok(),
        "honest wiring rejected"
    );

    // Violating: the two wired cells disagree (5 vs 7). Gates still hold (all
    // selectors zero), but the wiring is broken — this must be rejected.
    let broken = Trace { a: vec![g(5), g(7)], b: vec![g(0), g(0)], c: vec![g(0), g(0)] };
    let proof = prove_with_trace::<F, ToyHash>(&air, &broken, &config).unwrap();
    assert!(
        verify_with_air::<F, ToyHash>(&air, &proof, &config).is_err(),
        "a broken wire slipped past the permutation argument"
    );
}

#[test]
fn an_honest_product_proves_and_verifies_through_the_circuit() {
    let circuit = one_product();
    let config = FriConfig::default();
    let wires = vec![g(6), g(7), g(42)];
    let proof = prove::<F, ToyHash>(&circuit, &wires, &config).unwrap();
    assert_eq!(proof.degree_bound, 4); // (3 · 1 row, padded to 1) -> 4
    assert_eq!(proof.queries.len(), config.num_queries);
    assert_eq!(proof.fri.queries.len(), config.num_queries);
    assert!(verify::<F, ToyHash>(&circuit, &proof, &config).is_ok());
}

#[test]
fn a_false_product_yields_no_accepted_proof() {
    let circuit = one_product();
    let config = FriConfig::default();
    let wires = vec![g(6), g(7), g(43)];
    let proof = prove::<F, ToyHash>(&circuit, &wires, &config).unwrap();
    assert!(verify::<F, ToyHash>(&circuit, &proof, &config).is_err());
}

#[test]
fn a_tampered_opening_is_rejected() {
    let circuit = wired_pair();
    let air = Air::from_plonkish(&circuit);
    let config = FriConfig::default();
    let honest = Trace { a: vec![g(42), g(42)], b: vec![g(0), g(0)], c: vec![g(0), g(0)] };
    let mut proof = prove_with_trace::<F, ToyHash>(&air, &honest, &config).unwrap();
    proof.queries[0].lo.a = g(999999);
    assert!(verify_with_air::<F, ToyHash>(&air, &proof, &config).is_err());
}

#[test]
fn a_wrong_degree_bound_is_refused() {
    let circuit = wired_pair();
    let air = Air::from_plonkish(&circuit);
    let config = FriConfig::default();
    let honest = Trace { a: vec![g(42), g(42)], b: vec![g(0), g(0)], c: vec![g(0), g(0)] };
    let mut proof = prove_with_trace::<F, ToyHash>(&air, &honest, &config).unwrap();
    proof.degree_bound = 16;
    assert_eq!(
        verify_with_air::<F, ToyHash>(&air, &proof, &config),
        Err("degree bound does not match the circuit".to_string())
    );
}

#[test]
fn a_mismatched_query_count_is_refused() {
    let circuit = wired_pair();
    let air = Air::from_plonkish(&circuit);
    let honest = Trace { a: vec![g(42), g(42)], b: vec![g(0), g(0)], c: vec![g(0), g(0)] };
    let proof = prove_with_trace::<F, ToyHash>(&air, &honest, &FriConfig { blowup: 4, num_queries: 20 }).unwrap();
    let result = verify_with_air::<F, ToyHash>(&air, &proof, &FriConfig { blowup: 4, num_queries: 24 });
    assert!(result.is_err(), "proof verified under a mismatched transcript");
}

#[test]
fn the_corruption_mechanism_with_no_shift_changes_nothing() {
    let circuit = wired_pair();
    let air = Air::from_plonkish(&circuit);
    let config = FriConfig::default();
    let honest = Trace { a: vec![g(42), g(42)], b: vec![g(0), g(0)], c: vec![g(0), g(0)] };
    let proof = prove_with_corrupted_column::<F, ToyHash>(&air, &honest, &config, 3, F::zero()).unwrap();
    assert!(verify_with_air::<F, ToyHash>(&air, &proof, &config).is_ok());
}

#[test]
fn a_corrupted_column_is_refused() {
    let circuit = wired_pair();
    let air = Air::from_plonkish(&circuit);
    let config = FriConfig::default();
    let honest = Trace { a: vec![g(42), g(42)], b: vec![g(0), g(0)], c: vec![g(0), g(0)] };
    let domain = 4 * config.blowup;
    for position in 0..domain {
        let proof = prove_with_corrupted_column::<F, ToyHash>(&air, &honest, &config, position, g(1)).unwrap();
        assert!(
            verify_with_air::<F, ToyHash>(&air, &proof, &config).is_err(),
            "a corrupted position {position} escaped"
        );
    }
}

#[test]
fn a_copy_into_a_padding_row_is_extracted() {
    // Three rows pad to four; a copy and a public cell in the padding row are
    // still positions of the padded table.
    let zero = F::zero();
    let empty = |origin: &str| Row {
        q_l: zero,
        q_r: zero,
        q_o: zero,
        q_m: zero,
        q_c: zero,
        cells: [None, None, None],
        origin: origin.to_string(),
    };
    let circuit = Plonkish {
        rows: vec![empty("r0"), empty("r1"), empty("r2")],
        copies: vec![(Cell::new(0, Column::A), Cell::new(3, Column::A))],
        public_cells: vec![(1, Cell::new(3, Column::B))],
    };
    let air = Air::from_plonkish(&circuit);
    assert_eq!(air.n, 4);
    assert_eq!(air.sigma.len(), 12);
    // Positions 0 (row 0 of a) and 3 (row 3 of a) form one cycle.
    assert_eq!(air.sigma[0], 3);
    assert_eq!(air.sigma[3], 0);
    assert_eq!(air.public_positions, vec![(1, 4 + 3)]);
}
