//! Backend tests.
//!
//! The IR fixtures below are written out by hand rather than produced by the
//! compiler. That is deliberate: these tests pin down the *contract* at the
//! frontend/backend boundary, so they must fail if the backend's reading of
//! the schema drifts, even when the frontend drifts with it.

use serde_json::Value;
use zkc_core::bn254::Fr;
use zkc_core::field::ZkField;
use zkc_core::ir::{Assertion, Determinacy, HintKind, Input, Ir, Node, NodeOp, Visibility};
use zkc_core::lower::{lower, lower_with};
use zkc_core::plonkish::{lower_plonkish, lower_plonkish_with, Cell, Column, Plonkish};
use zkc_core::witness::{solve, SolveInputs};

// --- Fixtures ------------------------------------------------------------

const ISZERO_IR: &str = r#"{
  "schema_version": 2, "name": "IsZero", "field": "bn254", "const_one_wire": 0,
  "inputs": [
    {"wire": 1, "name": "x", "visibility": "private"},
    {"wire": 2, "name": "out", "visibility": "output", "line": 21}],
  "nodes": [
    {"wire": 3, "advice_derived": true, "op": "hint", "hint": "inv_or_zero",
     "name": "inv", "gadget": "is_zero", "line": 24, "args": [1]},
    {"wire": 4, "advice_derived": true, "op": "mul", "args": [1, 3]},
    {"wire": 5, "advice_derived": false, "op": "const", "value": "1"},
    {"wire": 6, "advice_derived": false, "op": "sub", "args": [5, 2]},
    {"wire": 7, "advice_derived": false, "op": "mul", "args": [1, 2]},
    {"wire": 8, "advice_derived": false, "op": "const", "value": "0"}],
  "assertions": [
    {"lhs": 4, "rhs": 6, "label": "(x * inv) == (1 - out)", "line": 26},
    {"lhs": 7, "rhs": 8, "label": "(x * out) == 0", "line": 27}],
  "determinacy": {"proved": true, "targets": ["out"],
                  "branches": [["x == 0"], ["x != 0"]]}
}"#;

/// The same circuit with the second assertion (and its nodes) removed.
///
/// The phase-2 frontend refuses to compile this, so it can only be written
/// by hand — which is exactly why it belongs here. It pins down the fact
/// that the *constraint system* really does admit two witnesses: the
/// frontend check is preventing a real vulnerability, not a theoretical one.
///
/// Note `out` is declared `public`, not `output`. As a relation ("I know x
/// and out satisfying this equation") the circuit is not lying about
/// anything, so the backend's soundness check has nothing to object to. It is
/// the claim that `out` is *computed* that needs a proof — see
/// `an_ir_claiming_outputs_without_a_proof_is_refused`.
const ISZERO_BROKEN_IR: &str = r#"{
  "schema_version": 2, "name": "IsZeroBroken", "field": "bn254", "const_one_wire": 0,
  "inputs": [
    {"wire": 1, "name": "x", "visibility": "private"},
    {"wire": 2, "name": "out", "visibility": "public"}],
  "nodes": [
    {"wire": 3, "op": "hint", "hint": "inv_or_zero", "name": "inv", "args": [1]},
    {"wire": 4, "op": "mul", "args": [1, 3]},
    {"wire": 5, "op": "const", "value": "1"},
    {"wire": 6, "op": "sub", "args": [5, 2]}],
  "assertions": [
    {"lhs": 4, "rhs": 6, "label": "(x * inv) == (1 - out)", "line": 17}]
}"#;

/// Only linear operations, so lowering should emit no multiplication
/// constraints at all — one constraint per assertion and nothing else.
const LINEAR_IR: &str = r#"{
  "schema_version": 2, "name": "Linear", "field": "bn254", "const_one_wire": 0,
  "inputs": [
    {"wire": 1, "name": "a", "visibility": "private"},
    {"wire": 2, "name": "z", "visibility": "output", "line": 3}],
  "nodes": [
    {"wire": 3, "op": "const", "value": "3"},
    {"wire": 4, "op": "add", "args": [1, 3]},
    {"wire": 5, "op": "neg", "args": [4]},
    {"wire": 6, "op": "sub", "args": [1, 5]}],
  "assertions": [
    {"lhs": 2, "rhs": 6, "label": "z == a - (-(a + 3))", "line": 5}],
  "determinacy": {"proved": true, "targets": ["z"], "branches": [[]]}
}"#;

/// `c == (a * b) * (a * b)`. The inner `a * b` feeds the outer mul (used
/// twice), so it is NOT fusible and keeps its variable; only the outer mul,
/// which feeds the single assertion, fuses. Proves fusion is precise about
/// "feeds exactly one assertion and nothing else".
const MULSQUARE_IR: &str = r#"{
  "schema_version": 2, "name": "MulSquare", "field": "bn254", "const_one_wire": 0,
  "inputs": [
    {"wire": 1, "name": "a", "visibility": "private"},
    {"wire": 2, "name": "b", "visibility": "private"},
    {"wire": 3, "name": "c", "visibility": "output", "line": 4}],
  "nodes": [
    {"wire": 4, "op": "mul", "args": [1, 2]},
    {"wire": 5, "op": "mul", "args": [4, 4]}],
  "assertions": [
    {"lhs": 3, "rhs": 5, "label": "c == (a * b) * (a * b)", "line": 6}],
  "determinacy": {"proved": true, "targets": ["c"], "branches": [[]]}
}"#;


/// `z == a + b + c + d + e + f`. No multiplication at all — the shape where
/// R1CS's free linear algebra wins and no amount of gate fusion can catch up.
const WIDESUM_IR: &str = r##"{"schema_version": 2, "name": "WideSum", "field": "bn254", "const_one_wire": 0, "inputs": [{"wire": 1, "name": "a", "visibility": "private", "line": 2}, {"wire": 2, "name": "b", "visibility": "private", "line": 2}, {"wire": 3, "name": "c", "visibility": "private", "line": 2}, {"wire": 4, "name": "d", "visibility": "private", "line": 3}, {"wire": 5, "name": "e", "visibility": "private", "line": 3}, {"wire": 6, "name": "f", "visibility": "private", "line": 3}, {"wire": 7, "name": "z", "visibility": "output", "line": 4}], "nodes": [{"wire": 8, "advice_derived": false, "op": "add", "args": [1, 2]}, {"wire": 9, "advice_derived": false, "op": "add", "args": [8, 3]}, {"wire": 10, "advice_derived": false, "op": "add", "args": [9, 4]}, {"wire": 11, "advice_derived": false, "op": "add", "args": [10, 5]}, {"wire": 12, "advice_derived": false, "op": "add", "args": [11, 6]}], "assertions": [{"lhs": 7, "rhs": 12, "label": "z == (((((a + b) + c) + d) + e) + f)", "line": 5}], "determinacy": {"proved": true, "targets": ["z"], "branches": [[]]}}"##;


// --- Loading fixtures ----------------------------------------------------

/// Read a fixture the way the IR loader does: the JSON shape, with the
/// loader's defaults for optional fields, then the validator.
fn ir_from_json(text: &str) -> Result<Ir, String> {
    let json: Value = serde_json::from_str(text).map_err(|e| format!("malformed IR JSON: {e}"))?;
    let ir = ir_of(&json).map_err(|e| format!("malformed IR JSON: {e}"))?;
    ir.validate()?;
    Ok(ir)
}

fn field<'a>(json: &'a Value, key: &str) -> Result<&'a Value, String> {
    json.get(key).ok_or_else(|| format!("missing field `{key}`"))
}
fn number(json: &Value, key: &str) -> Result<u32, String> {
    field(json, key)?.as_u64().map(|v| v as u32).ok_or_else(|| format!("`{key}` is not a number"))
}
fn number_or_zero(json: &Value, key: &str) -> Result<u32, String> {
    if json.get(key).is_some() { number(json, key) } else { Ok(0) }
}
fn text(json: &Value, key: &str) -> Result<String, String> {
    field(json, key)?.as_str().map(str::to_string).ok_or_else(|| format!("`{key}` is not a string"))
}
fn list<'a>(json: &'a Value, key: &str) -> Result<&'a Vec<Value>, String> {
    field(json, key)?.as_array().ok_or_else(|| format!("`{key}` is not a list"))
}
fn wires(json: &Value) -> Result<Vec<u32>, String> {
    list(json, "args")?.iter().map(|v| v.as_u64().map(|w| w as u32).ok_or("bad wire".to_string())).collect()
}
fn strings(json: &Value) -> Vec<String> {
    json.as_array().map(|a| a.iter().filter_map(|v| v.as_str().map(str::to_string)).collect()).unwrap_or_default()
}

fn ir_of(json: &Value) -> Result<Ir, String> {
    let mut inputs = Vec::new();
    for input in list(json, "inputs")? {
        let visibility = match text(input, "visibility")?.as_str() {
            "private" => Visibility::Private,
            "public" => Visibility::Public,
            "output" => Visibility::Output,
            other => return Err(format!("unknown visibility `{other}`")),
        };
        inputs.push(Input {
            wire: number(input, "wire")?,
            name: text(input, "name")?,
            visibility,
            line: number_or_zero(input, "line")?,
        });
    }
    let mut nodes = Vec::new();
    for node in list(json, "nodes")? {
        let op = match text(node, "op")?.as_str() {
            "const" => NodeOp::Const { value: text(node, "value")? },
            "add" => NodeOp::Add { args: wires(node)? },
            "sub" => NodeOp::Sub { args: wires(node)? },
            "mul" => NodeOp::Mul { args: wires(node)? },
            "neg" => NodeOp::Neg { args: wires(node)? },
            "hint" => NodeOp::Hint {
                hint: match text(node, "hint")?.as_str() {
                    "inv_or_zero" => HintKind::InvOrZero,
                    "inv" => HintKind::Inv,
                    other => return Err(format!("unknown hint `{other}`")),
                },
                name: text(node, "name")?,
                gadget: if node.get("gadget").is_some() { text(node, "gadget")? } else { String::new() },
                line: number_or_zero(node, "line")?,
                args: wires(node)?,
            },
            other => return Err(format!("unknown op `{other}`")),
        };
        let advice_derived = node.get("advice_derived").and_then(Value::as_bool).unwrap_or(false);
        nodes.push(Node { wire: number(node, "wire")?, advice_derived, op });
    }
    let mut assertions = Vec::new();
    for assertion in list(json, "assertions")? {
        assertions.push(Assertion {
            lhs: number(assertion, "lhs")?,
            rhs: number(assertion, "rhs")?,
            label: text(assertion, "label")?,
            line: number(assertion, "line")?,
        });
    }
    let determinacy = match json.get("determinacy") {
        Some(d) => Determinacy {
            proved: d.get("proved").and_then(Value::as_bool).unwrap_or(false),
            targets: d.get("targets").map(strings).unwrap_or_default(),
            branches: d
                .get("branches")
                .and_then(Value::as_array)
                .map(|bs| bs.iter().map(strings).collect())
                .unwrap_or_default(),
        },
        None => Determinacy { proved: false, targets: Vec::new(), branches: Vec::new() },
    };
    Ok(Ir {
        schema_version: number(json, "schema_version")?,
        name: text(json, "name")?,
        field: text(json, "field")?,
        const_one_wire: number(json, "const_one_wire")?,
        inputs,
        nodes,
        assertions,
        determinacy,
    })
}

fn inputs(pairs: &[(&str, &str)]) -> Vec<(String, Fr)> {
    pairs.iter().map(|(name, value)| ((*name).to_string(), Fr::from_decimal(value).unwrap())).collect()
}

fn run(ir: &Ir, given: &[(&str, &str)], advice: &[(&str, &str)]) -> (Vec<Fr>, Vec<String>) {
    let given = inputs(given);
    let advice = inputs(advice);
    let wire_values = solve(ir, &SolveInputs { inputs: &given, advice_overrides: &advice }).unwrap();
    let r1cs = lower::<Fr>(ir).unwrap();
    let assignment = r1cs.assignment(&wire_values);
    let origins = r1cs.check(&assignment).into_iter().map(|v| v.origin).collect();
    (wire_values, origins)
}

// --- Field ---------------------------------------------------------------

#[test]
fn decimal_round_trips_including_large_and_negative_values() {
    for text in ["0", "1", "5", "123456789012345678901234567890"] {
        let value = Fr::from_decimal(text).unwrap();
        assert_eq!(value.to_decimal(), text);
    }
    // Negative literals reduce into the field, as the IR's folded constants may.
    let minus_one = Fr::from_decimal("-1").unwrap();
    assert_eq!(minus_one.add(Fr::one()), Fr::zero());
    assert!(Fr::from_decimal("12x").is_err());
    assert!(Fr::from_decimal("").is_err());
}

#[test]
fn zero_has_no_inverse() {
    assert!(Fr::zero().inverse().is_none());
    let five = Fr::from_decimal("5").unwrap();
    assert_eq!(five.mul(five.inverse().unwrap()), Fr::one());
}

// --- IR validation -------------------------------------------------------

#[test]
fn valid_ir_loads() {
    let ir = ir_from_json(ISZERO_IR).unwrap();
    assert_eq!(ir.name, "IsZero");
    assert_eq!(ir.wire_count(), 9);
    assert_eq!(ir.advice_wires(), vec![(3, "inv")]);
}

#[test]
fn rejects_a_future_schema_version() {
    let text = ISZERO_IR.replace("\"schema_version\": 2", "\"schema_version\": 99");
    let message = ir_from_json(&text).unwrap_err();
    assert!(message.contains("unsupported IR schema version"), "{message}");
}

#[test]
fn rejects_forward_references() {
    // A node that reads a wire defined later would break the solver, so the
    // topological-order invariant is checked, not assumed.
    let text = ISZERO_IR.replace(
        r#"{"wire": 4, "advice_derived": true, "op": "mul", "args": [1, 3]}"#,
        r#"{"wire": 4, "advice_derived": true, "op": "mul", "args": [1, 7]}"#,
    );
    let message = ir_from_json(&text).unwrap_err();
    assert!(message.contains("topologically ordered"), "{message}");
}

#[test]
fn rejects_wrong_arity() {
    let text = ISZERO_IR.replace(
        r#"{"wire": 4, "advice_derived": true, "op": "mul", "args": [1, 3]}"#,
        r#"{"wire": 4, "advice_derived": true, "op": "mul", "args": [1]}"#,
    );
    let message = ir_from_json(&text).unwrap_err();
    assert!(message.contains("expected 2"), "{message}");
}

#[test]
fn an_ir_claiming_outputs_without_a_proof_is_refused() {
    // Schema v2 carries the frontend's determinacy proof inside the artifact,
    // and the backend treats a missing proof as a refusal rather than a
    // default-allow. Stripping the record from an otherwise valid IR must not
    // be a way to get a proving key for an under-constrained circuit.
    let text = ISZERO_IR.replace(
        r#""determinacy": {"proved": true, "targets": ["out"],
                  "branches": [["x == 0"], ["x != 0"]]}"#,
        r#""determinacy": {"proved": false, "targets": [], "branches": []}"#,
    );
    let message = ir_from_json(&text).unwrap_err();
    assert!(message.contains("determinacy"), "{message}");
}

#[test]
fn a_relation_without_outputs_needs_no_determinacy_proof() {
    // Not every circuit computes something. A relation over public inputs has
    // no output to pin down, so the check must stay quiet rather than demand a
    // proof that does not apply.
    let ir = ir_from_json(ISZERO_BROKEN_IR).unwrap();
    assert!(!ir.determinacy.proved);
    assert_eq!(ir.name, "IsZeroBroken");
}

#[test]
fn rejects_sparse_wire_numbering() {
    let text = ISZERO_IR.replace(r#""wire": 5, "advice_derived": false, "op": "const""#,
                      r#""wire": 50, "advice_derived": false, "op": "const""#);
    assert!(ir_from_json(&text).is_err());
}

// --- Lowering ------------------------------------------------------------

#[test]
fn linear_operations_cost_nothing() {
    // add/sub/neg/const fold into linear combinations, so the only constraint
    // is the assertion itself. This is the concrete reason the Core IR is not
    // shaped like R1CS: the cost model is a property of the *backend*.
    let ir = ir_from_json(LINEAR_IR).unwrap();
    let r1cs = lower::<Fr>(&ir).unwrap();
    assert_eq!(r1cs.constraints.len(), 1);
    // Variables: constant one, plus the two inputs. No node allocated any.
    assert_eq!(r1cs.num_vars, 3);
}

#[test]
fn without_fusion_each_multiplication_costs_its_own_variable() {
    // The phase-2 lowering, preserved behind `fuse = false`: each of IsZero's
    // two muls allocates a variable and a constraint, and each assertion adds
    // another. This is the baseline the fusion is measured against.
    let ir = ir_from_json(ISZERO_IR).unwrap();
    let r1cs = lower_with::<Fr>(&ir, false).unwrap();
    // one + x + out + inv(hint) + two multiplication results
    assert_eq!(r1cs.num_vars, 6);
    // two multiplications + two assertions
    assert_eq!(r1cs.constraints.len(), 4);
    // Exactly one public input, and it is `out`.
    assert_eq!(r1cs.public_vars.len(), 1);
}

#[test]
fn fusion_folds_each_iszero_multiplication_into_its_assertion() {
    // Both of IsZero's muls feed exactly one assertion and nothing else, so
    // both fuse: the two intermediate variables and the two equality
    // constraints all vanish, leaving one rank-1 constraint per assertion.
    let ir = ir_from_json(ISZERO_IR).unwrap();
    let r1cs = lower::<Fr>(&ir).unwrap();
    assert_eq!(r1cs.num_vars, 4); // one + x + out + inv; no mul variables
    assert_eq!(r1cs.constraints.len(), 2); // two fused constraints, down from four
    // The public interface is untouched by an internal optimisation.
    assert_eq!(r1cs.public_vars.len(), 1);
}

#[test]
fn a_hint_adds_a_variable_but_no_constraint() {
    // The mechanical statement of "advice is unconstrained": removing the
    // hint's *constraint* is impossible, because there never was one. The one
    // multiplication fuses into the assertion, but the hint variable remains,
    // constraintless — which is the whole point.
    let ir = ir_from_json(ISZERO_BROKEN_IR).unwrap();
    let r1cs = lower::<Fr>(&ir).unwrap();
    assert_eq!(r1cs.num_vars, 4); // one + x + out + inv; the mul fused away
    assert_eq!(r1cs.constraints.len(), 1); // one fused constraint, down from two
}

#[test]
fn fusion_is_precise_only_the_mul_feeding_the_assertion_folds() {
    // The inner a*b is used by the outer mul, so it must keep its variable and
    // constraint; only the outer mul folds into the assertion.
    let ir = ir_from_json(MULSQUARE_IR).unwrap();
    let unfused = lower_with::<Fr>(&ir, false).unwrap();
    let fused = lower::<Fr>(&ir).unwrap();
    assert_eq!(unfused.constraints.len(), 3); // inner mul + outer mul + assertion
    assert_eq!(fused.constraints.len(), 2); // inner mul + fused assertion
    assert_eq!(unfused.num_vars, 6); // one + a + b + c + ab + abab
    assert_eq!(fused.num_vars, 5); // one + a + b + c + ab (outer mul folded)
}

#[test]
fn fusion_preserves_satisfaction_and_still_catches_a_lie() {
    // Same witness, both lowerings: honest values satisfy, a wrong output is
    // caught. Fusion must change the cost, never the meaning.
    let ir = ir_from_json(MULSQUARE_IR).unwrap();
    let wires = solve(
        &ir,
        &SolveInputs { inputs: &inputs(&[("a", "2"), ("b", "3"), ("c", "36")]), advice_overrides: &Vec::new() },
    )
    .unwrap();
    for fuse in [false, true] {
        let r1cs = lower_with::<Fr>(&ir, fuse).unwrap();
        assert!(r1cs.is_satisfied(&r1cs.assignment(&wires)), "honest witness rejected (fuse={fuse})");
    }
    // A forged output (c = 35 instead of 36) is caught either way. We check the
    // constraint system directly by overriding c in the assignment.
    for fuse in [false, true] {
        let r1cs = lower_with::<Fr>(&ir, fuse).unwrap();
        let mut assignment = r1cs.assignment(&wires);
        // Variable for `c` is the third input variable (one, a, b, c -> index 3).
        assignment[3] = Fr::from_decimal("35").unwrap();
        assert!(!r1cs.is_satisfied(&assignment), "forged output accepted (fuse={fuse})");
    }
}

/// Build an IR of `n` independent `assert o_i == a_i * b_i` products — the
/// shape fusion targets, and a stand-in for the multiplication-heavy circuits
/// (SHA-256, Merkle) the full benchmark will use once the gadget stdlib lands.
fn many_products_ir(n: usize) -> String {
    let mut inputs = String::new();
    for i in 0..n {
        let (a, b, o) = (3 * i + 1, 3 * i + 2, 3 * i + 3);
        inputs.push_str(&format!(
            "{{\"wire\":{a},\"name\":\"a{i}\",\"visibility\":\"private\"}},\
             {{\"wire\":{b},\"name\":\"b{i}\",\"visibility\":\"private\"}},\
             {{\"wire\":{o},\"name\":\"o{i}\",\"visibility\":\"output\"}}"
        ));
        if i + 1 < n {
            inputs.push(',');
        }
    }
    let first_node = 3 * n + 1;
    let mut nodes = String::new();
    let mut assertions = String::new();
    let mut targets = String::new();
    for i in 0..n {
        let (a, b, o) = (3 * i + 1, 3 * i + 2, 3 * i + 3);
        let mul_wire = first_node + i;
        nodes.push_str(&format!("{{\"wire\":{mul_wire},\"op\":\"mul\",\"args\":[{a},{b}]}}"));
        assertions.push_str(&format!(
            "{{\"lhs\":{o},\"rhs\":{mul_wire},\"label\":\"o{i} == a{i} * b{i}\",\"line\":{i}}}"
        ));
        targets.push_str(&format!("\"o{i}\""));
        if i + 1 < n {
            nodes.push(',');
            assertions.push(',');
            targets.push(',');
        }
    }
    format!(
        "{{\"schema_version\":2,\"name\":\"ManyProducts\",\"field\":\"bn254\",\
          \"const_one_wire\":0,\"inputs\":[{inputs}],\"nodes\":[{nodes}],\
          \"assertions\":[{assertions}],\
          \"determinacy\":{{\"proved\":true,\"targets\":[{targets}],\"branches\":[[]]}}}}"
    )
}

#[test]
fn benchmark_fusion_halves_constraints_on_a_multiplication_heavy_circuit() {
    // The headline number, pinned to a test. On N independent products, the
    // naive lowering emits 2N constraints (a mul + an equality each); fusion
    // emits exactly N. The machine-readable line is what a benchmark harness
    // would diff across runs (and, later, against Circom's --r1cs counts).
    let n = 64;
    let ir = ir_from_json(&many_products_ir(n)).unwrap();
    let unfused = lower_with::<Fr>(&ir, false).unwrap();
    let fused = lower::<Fr>(&ir).unwrap();

    println!(
        "BENCH circuit=ManyProducts n={n} \
         constraints_unfused={} constraints_fused={} \
         vars_unfused={} vars_fused={} reduction={:.2}",
        unfused.constraints.len(),
        fused.constraints.len(),
        unfused.num_vars,
        fused.num_vars,
        1.0 - (fused.constraints.len() as f64) / (unfused.constraints.len() as f64),
    );

    assert_eq!(unfused.constraints.len(), 2 * n);
    assert_eq!(fused.constraints.len(), n);
    // Fusion removes exactly the N intermediate multiplication variables.
    assert_eq!(unfused.num_vars - fused.num_vars, n);
}

#[test]
fn assertion_violations_report_the_source_line() {
    let ir = ir_from_json(ISZERO_IR).unwrap();
    let (_, violated) = run(&ir, &[("x", "5"), ("out", "1")], &[]);
    assert!(
        violated.iter().any(|origin| origin.contains("line 26")),
        "expected the source-level origin, got {violated:?}"
    );
}

// --- Witness solving and the forgery -------------------------------------

#[test]
fn honest_witnesses_satisfy_the_correct_circuit() {
    let ir = ir_from_json(ISZERO_IR).unwrap();
    for (x, out) in [("0", "1"), ("5", "0"), ("123456789", "0")] {
        let (_, violated) = run(&ir, &[("x", x), ("out", out)], &[]);
        assert!(violated.is_empty(), "x={x} rejected: {violated:?}");
    }
}

#[test]
fn the_hint_computes_the_inverse_or_zero() {
    let ir = ir_from_json(ISZERO_IR).unwrap();
    let (wires, _) = run(&ir, &[("x", "5"), ("out", "0")], &[]);
    let five = Fr::from_decimal("5").unwrap();
    assert_eq!(wires[3], five.inverse().unwrap());

    let (wires, _) = run(&ir, &[("x", "0"), ("out", "1")], &[]);
    assert_eq!(wires[3], Fr::zero(), "inv_or_zero(0) must be 0");
}

#[test]
fn the_correct_circuit_refuses_the_forgery() {
    // The prover ignores the hint and picks inv = (1 - out)/x = 0 to satisfy
    // assertion (1) while claiming out = 1. Assertion (2) catches it.
    let ir = ir_from_json(ISZERO_IR).unwrap();
    let (_, violated) = run(&ir, &[("x", "5"), ("out", "1")], &[("inv", "0")]);
    assert_eq!(violated.len(), 1);
    assert!(violated[0].contains("(x * out) == 0"), "{violated:?}");
}

#[test]
fn the_under_constrained_circuit_accepts_the_forgery() {
    // THE point of the whole phase: identical inputs, identical forged advice,
    // one missing assertion — and the constraint system is satisfied, so a
    // prover can produce a real proof of "5 == 0".
    let ir = ir_from_json(ISZERO_BROKEN_IR).unwrap();
    let (_, violated) = run(&ir, &[("x", "5"), ("out", "1")], &[("inv", "0")]);
    assert!(violated.is_empty(), "expected the forgery to pass: {violated:?}");
}

#[test]
fn the_broken_circuit_also_accepts_honest_witnesses() {
    // Which is why the bug ships: honest testing never sees it.
    let ir = ir_from_json(ISZERO_BROKEN_IR).unwrap();
    for (x, out) in [("0", "1"), ("5", "0")] {
        let (_, violated) = run(&ir, &[("x", x), ("out", out)], &[]);
        assert!(violated.is_empty(), "x={x}: {violated:?}");
    }
}

#[test]
fn missing_input_values_are_reported_by_name() {
    let ir = ir_from_json(ISZERO_IR).unwrap();
    let given = inputs(&[("x", "5")]);
    let advice = Vec::new();
    let error = solve(&ir, &SolveInputs { inputs: &given, advice_overrides: &advice })
        .unwrap_err();
    assert!(error.contains("'out'"), "{error}");
}

#[test]
fn solve_names_the_missing_input_and_the_inverted_zero() {
    let ir = ir_from_json(ISZERO_IR).unwrap();
    let advice = Vec::new();
    let given = inputs(&[("x", "5")]);
    let error = solve(&ir, &SolveInputs { inputs: &given, advice_overrides: &advice }).unwrap_err();
    assert_eq!(error, "no value supplied for input 'out'");
    let strict = ir_from_json(&ISZERO_IR.replace("\"inv_or_zero\"", "\"inv\"")).unwrap();
    let given = inputs(&[("x", "0"), ("out", "1")]);
    let error = solve(&strict, &SolveInputs { inputs: &given, advice_overrides: &advice }).unwrap_err();
    assert_eq!(error, "hint inv('inv') is undefined: the argument is zero");
    let given = inputs(&[("x", "5"), ("out", "0")]);
    assert!(solve(&strict, &SolveInputs { inputs: &given, advice_overrides: &advice }).is_ok());
}
#[test]
fn plonkish_asserts_the_wiring_instead_of_assuming_it() {
    // The property with no R1CS counterpart: a value produced in one row and
    // consumed in another occupies two unrelated cells, and only a copy
    // constraint makes them the same value.
    let ir = ir_from_json(ISZERO_IR).unwrap();
    let circuit = lower_plonkish::<Fr>(&ir).unwrap();
    assert!(
        !circuit.copies.is_empty(),
        "a connected circuit must produce copy constraints"
    );
    // Every copy relates two genuinely different cells.
    for (left, right) in &circuit.copies {
        assert!(left != right, "a cell copied to itself is not wiring");
    }
}

#[test]
fn plonkish_accepts_the_honest_witness() {
    // x = 0 forces out = 1; the solved witness must satisfy every gate and
    // every copy constraint.
    let ir = ir_from_json(ISZERO_IR).unwrap();
    let wires = solve(
        &ir,
        &SolveInputs {
            inputs: &inputs(&[("x", "0"), ("out", "1")]),
            advice_overrides: &Vec::new(),
        },
    )
    .unwrap();
    let circuit = lower_plonkish::<Fr>(&ir).unwrap();
    let assignment = circuit.assignment(&wires);
    let violations = circuit.check(&assignment);
    assert!(violations.is_empty(), "honest witness rejected: {violations:?}");
}

#[test]
fn plonkish_catches_a_tampered_cell_through_a_copy_constraint() {
    // Copy constraints are satisfied by construction when the table is built
    // from wire values, so the check only earns its keep against a table that
    // did NOT come from there. Rewrite one cell and it must be caught.
    let ir = ir_from_json(ISZERO_IR).unwrap();
    let wires = solve(
        &ir,
        &SolveInputs {
            inputs: &inputs(&[("x", "0"), ("out", "1")]),
            advice_overrides: &Vec::new(),
        },
    )
    .unwrap();
    let circuit = lower_plonkish::<Fr>(&ir).unwrap();
    let mut assignment = circuit.assignment(&wires);
    // Pick a wire that really is shared, and corrupt its second occurrence.
    let (_, second) = circuit.copies[0];
    assignment[second.row][second.column.index()] = Fr::from_decimal("12345").unwrap();
    assert!(
        !circuit.is_satisfied(&assignment),
        "a cell that disagrees with its copy must be rejected"
    );
}

#[test]
fn plonkish_binds_every_public_input_to_a_cell() {
    // The verifier needs somewhere to point at for each public value.
    let ir = ir_from_json(ISZERO_IR).unwrap();
    let circuit = lower_plonkish::<Fr>(&ir).unwrap();
    let public = ir.inputs.iter().filter(|i| i.visibility.is_public()).count();
    assert_eq!(circuit.public_cells.len(), public);
    for (_, cell) in &circuit.public_cells {
        assert!(cell.row < circuit.num_rows());
    }
}

/// Do both arithmetizations reach the same answer on these solved wires?
///
/// R1CS builds one assignment vector; Plonkish builds a per-row cell table
/// from the same wire values. Both are honest functions of the shared witness,
/// so this compares the two encodings, not two witnesses.
fn answers_agree(ir: &Ir, wires: &[Fr]) -> Result<bool, (bool, bool)> {
    let r1cs = lower::<Fr>(ir).unwrap();
    let r1cs_ok = r1cs.is_satisfied(&r1cs.assignment(wires));

    let plonk = lower_plonkish::<Fr>(ir).unwrap();
    let plonk_ok = plonk.is_satisfied(&plonk.assignment(wires));
    if plonk_ok != r1cs_ok {
        return Err((r1cs_ok, plonk_ok));
    }
    Ok(r1cs_ok)
}

#[test]
fn equivalence_the_honest_witness_satisfies_both() {
    // x = 0 forces out = 1; the honestly solved witness must satisfy R1CS and
    // Plonkish alike.
    let ir = ir_from_json(ISZERO_IR).unwrap();
    let wires = solve(
        &ir,
        &SolveInputs { inputs: &inputs(&[("x", "0"), ("out", "1")]), advice_overrides: &Vec::new() },
    )
    .unwrap();
    assert_eq!(answers_agree(&ir, &wires), Ok(true), "honest witness split the two lowerings");
}

#[test]
fn equivalence_the_phase_zero_forgery_is_rejected_by_both() {
    // The forgery that started the whole project: inputs x = 5, out = 1, with
    // the hint overridden to inv = 0 so assertion (1) holds while claiming a
    // false output. R1CS catches it on assertion (2); Plonkish must catch it
    // too, or the second arithmetization is weaker than the first.
    let ir = ir_from_json(ISZERO_IR).unwrap();
    let wires = solve(
        &ir,
        &SolveInputs {
            inputs: &inputs(&[("x", "5"), ("out", "1")]),
            advice_overrides: &inputs(&[("inv", "0")]),
        },
    )
    .unwrap();
    // Both must REJECT: they agree, and the answer is "unsatisfied".
    assert_eq!(
        answers_agree(&ir, &wires),
        Ok(false),
        "the phase-0 forgery was not rejected identically by both arithmetizations"
    );
}

#[test]
fn equivalence_the_broken_circuit_accepts_the_forgery_in_both() {
    // The other half of the phase-0 demo: with the second assertion GONE, the
    // same forged witness satisfies the circuit — and it must do so in both
    // arithmetizations, because being under-constrained is a property of the
    // IR, which both lower faithfully. If Plonkish rejected here while R1CS
    // accepted, the two would disagree about what the circuit even says.
    let ir = ir_from_json(ISZERO_BROKEN_IR).unwrap();
    let wires = solve(
        &ir,
        &SolveInputs {
            inputs: &inputs(&[("x", "5"), ("out", "1")]),
            advice_overrides: &inputs(&[("inv", "0")]),
        },
    )
    .unwrap();
    assert_eq!(
        answers_agree(&ir, &wires),
        Ok(true),
        "the two arithmetizations disagree about the under-constrained circuit"
    );
}

#[test]
fn equivalence_holds_under_random_perturbation_of_atoms() {
    // The general claim, stress-tested — but on the right variables.
    //
    // A subtlety worth stating, because finding it is half the value of a
    // differential test: R1CS and Plonkish do NOT agree on an assignment that
    // gives a computed wire a value inconsistent with its inputs. R1CS never
    // reads such a wire — it recomputes `a * b` from the argument cells and
    // ignores whatever the product wire holds — while Plonkish places that
    // wire in a cell and checks `a·b - c = 0`, so it catches the inconsistency.
    // Both are correct; they simply encode "the witness solver already
    // computed the intermediates" differently.
    //
    // The witness solver is the arbiter of intermediate values, and it is
    // shared. So the meaningful free variables — the ones a prover actually
    // chooses — are the ATOMS: inputs and advice. Perturb those, re-solve so
    // the intermediates stay consistent, and the two arithmetizations must
    // agree. (Perturbing a computed wire directly tests a witness no honest
    // solver would ever produce, and is the job of the per-lowering checks,
    // not the equivalence one.)
    let cases: &[(&str, &[(&str, &str)], &[&str])] = &[
        (ISZERO_IR, &[("x", "0"), ("out", "1")], &["x", "out", "inv"]),
        (ISZERO_BROKEN_IR, &[("x", "5"), ("out", "1")], &["x", "out", "inv"]),
        (MULSQUARE_IR, &[("a", "2"), ("b", "3"), ("c", "36")], &["a", "b", "c"]),
        (WIDESUM_IR,
         &[("a","1"),("b","2"),("c","3"),("d","4"),("e","5"),("f","6"),("z","21")],
         &["a","b","c","d","e","f","z"]),
    ];

    let mut state: u64 = 0x9e3779b97f4a7c15;
    let mut next = || {
        state = state.wrapping_mul(6364136223846793005).wrapping_add(1442695040888963407);
        state >> 33
    };

    for (fixture, base_inputs, atoms) in cases {
        let ir = ir_from_json(fixture).unwrap();
        let input_names: std::collections::HashSet<&str> =
            ir.inputs.iter().map(|i| i.name.as_str()).collect();

        for _ in 0..300 {
            // A random value for each atom: inputs go through the solver,
            // advice through overrides, so every intermediate stays consistent
            // with the atoms that produced it.
            let mut input_map: Vec<(String, Fr)> = Vec::new();
            let mut advice_map: Vec<(String, Fr)> = Vec::new();
            for name in *atoms {
                let value = Fr::from_u64(next());
                if input_names.contains(name) {
                    input_map.push(((*name).to_string(), value));
                } else {
                    advice_map.push(((*name).to_string(), value));
                }
            }
            // Any base input not chosen as an atom still needs a value.
            for (name, value) in inputs(base_inputs) {
                if !input_map.iter().any(|(n, _)| *n == name) {
                    input_map.push((name, value));
                }
            }

            let wires = solve(
                &ir,
                &SolveInputs { inputs: &input_map, advice_overrides: &advice_map },
            )
            .unwrap();

            match answers_agree(&ir, &wires) {
                Ok(_) => {}
                Err((r1cs_ok, plonk_ok)) => panic!(
                    "arithmetizations diverged on a consistent witness of {}:                      R1CS satisfied = {r1cs_ok}, Plonkish satisfied = {plonk_ok}",
                    ir.name
                ),
            }
        }
    }
}

#[test]
fn equivalence_a_forged_output_is_caught_by_both_across_circuits() {
    // Directed rather than random: for each circuit with an output, solve
    // honestly, then overwrite the output wire with a wrong value everywhere
    // it appears. Both arithmetizations must reject — the property that makes
    // the determinacy guarantee survive the choice of arithmetization.
    let cases: &[(&str, &[(&str, &str)], &str, &str)] = &[
        (ISZERO_IR, &[("x", "0"), ("out", "1")], "out", "0"),
        (MULSQUARE_IR, &[("a", "2"), ("b", "3"), ("c", "36")], "c", "35"),
        (WIDESUM_IR, &[("a","1"),("b","2"),("c","3"),("d","4"),("e","5"),("f","6"),("z","21")], "z", "20"),
    ];
    for (fixture, base_inputs, output, lie) in cases {
        let ir = ir_from_json(fixture).unwrap();
        let wires = solve(
            &ir,
            &SolveInputs { inputs: &inputs(base_inputs), advice_overrides: &Vec::new() },
        )
        .unwrap();
        let wire = ir.inputs.iter().find(|i| &i.name == output).unwrap().wire;
        let mut forged = wires.clone();
        forged[wire as usize] = Fr::from_decimal(lie).unwrap();

        assert_eq!(
            answers_agree(&ir, &forged),
            Ok(false),
            "a forged output of {} was not rejected identically by both", ir.name
        );
    }
}
// --- Cost accounting ---------------------------------------------------------

use zkc_core::stats::{measure, Cheaper};

#[test]
fn measure_counts_both_arithmetizations_of_iszero() {
    let ir = ir_from_json(ISZERO_IR).unwrap();
    let report = measure::<Fr>(&ir).unwrap();
    assert_eq!(report.name, "IsZero");
    assert_eq!(report.field, "bn254");
    assert_eq!(report.inputs, 2);
    assert_eq!(report.public_inputs, 1);
    assert_eq!(report.nodes, 6);
    assert_eq!(report.multiplications, 2);
    assert_eq!(report.hints, 1);
    assert_eq!(report.assertions, 2);
    assert_eq!(report.r1cs_constraints_unfused, 4);
    assert_eq!(report.r1cs_constraints, 2);
    assert_eq!(report.r1cs_variables, 4);
    // Unfused, every arithmetic node gets a row and every assertion one
    // more; fused, each assertion is one gate and nothing else is left.
    assert_eq!(report.plonkish_rows_unfused, 7);
    assert_eq!(report.plonkish_rows, 2);
    assert_eq!(report.plonkish_copies, 2);
    assert_eq!(report.plonkish_columns, 8);
    assert_eq!(report.cheaper(), Cheaper::Tie);
}

#[test]
fn a_wide_linear_sum_costs_r1cs_one_constraint() {
    let ir = ir_from_json(WIDESUM_IR).unwrap();
    let report = measure::<Fr>(&ir).unwrap();
    assert_eq!(report.r1cs_constraints, 1);
    assert_eq!(report.plonkish_rows_unfused, 6);
    assert_eq!(report.plonkish_rows, 5);
    assert_eq!(report.plonkish_copies, 4);
    assert_eq!(report.cheaper(), Cheaper::R1cs);
    let json = report.render_json();
    assert!(json.starts_with('{') && json.ends_with('}'));
    assert!(json.contains("\"name\":\"WideSum\""));
    assert!(json.contains("\"r1cs\":{\"constraints\":1"));
    assert!(json.contains("\"cheaper\":\"r1cs\""));
}

#[test]
fn an_unparsable_constant_fails_the_measurement() {
    let text = LINEAR_IR.replace("\"value\": \"3\"", "\"value\": \"3x\"");
    let ir = ir_from_json(&text).unwrap();
    assert!(measure::<Fr>(&ir).is_err());
    assert!(lower::<Fr>(&ir).is_err());
    assert!(lower_plonkish::<Fr>(&ir).is_err());
}

#[test]
fn cheaper_names_and_tags_each_outcome() {
    assert_eq!(Cheaper::R1cs.tag(), "r1cs");
    assert_eq!(Cheaper::Plonkish.tag(), "plonkish");
    assert_eq!(Cheaper::Tie.tag(), "tie");
    assert_eq!(Cheaper::R1cs.describe(), "R1CS (fewer constraints than Plonkish rows)");
    assert_eq!(Cheaper::Plonkish.describe(), "Plonkish (fewer rows than R1CS constraints)");
    assert_eq!(Cheaper::Tie.describe(), "tie (equal cost)");
}

// --- Errors the solver reports ------------------------------------------------

#[test]
fn an_inverse_hint_of_zero_is_refused() {
    let text = ISZERO_IR.replace("\"hint\": \"inv_or_zero\"", "\"hint\": \"inv\"");
    let ir = ir_from_json(&text).unwrap();
    let error = solve(&ir, &SolveInputs { inputs: &inputs(&[("x", "0"), ("out", "1")]), advice_overrides: &Vec::new() })
        .unwrap_err();
    assert!(error.contains("inv"), "{error}");
}

#[test]
fn bn254_arithmetic_matches_known_values() {
    let p_minus_one = "21888242871839275222246405745257275088548364400416034343698204186575808495616";
    assert_eq!(Fr::from_decimal("-1").unwrap().to_decimal(), p_minus_one);
    let two = Fr::from_u64(2);
    let half = two.inverse().unwrap();
    assert_eq!(half.mul(two), Fr::one());
    assert_eq!(Fr::from_u64(7).sub(Fr::from_u64(9)).add(Fr::from_u64(2)), Fr::zero());
    assert_eq!(Fr::from_u64(1 << 40).mul(Fr::from_u64(1 << 40)).to_decimal(), "1208925819614629174706176");
    assert!(Fr::zero().is_zero());
    assert_eq!(Fr::one().neg().add(Fr::one()), Fr::zero());
}

#[test]
fn plonkish_unfused_gives_every_arithmetic_node_a_row_and_hints_none() {
    // IsZero: 2 muls, 1 sub, 2 consts, 1 hint, 2 assertions. A hint imposes
    // no identity, so it gets no row.
    let ir = ir_from_json(ISZERO_IR).unwrap();
    let circuit = lower_plonkish_with::<Fr>(&ir, false).unwrap();
    let arithmetic = ir
        .nodes
        .iter()
        .filter(|n| !matches!(n.op, NodeOp::Hint { .. }))
        .count();
    assert_eq!(circuit.num_rows(), arithmetic + ir.assertions.len());
    // Width is fixed: three witness columns, five selectors.
    assert_eq!(circuit.num_columns(), 8);
}

#[test]
fn plonkish_unfused_costs_more_than_r1cs_and_that_is_what_fusion_is_for() {
    // The unoptimised baseline: a row per node, while R1CS's free linear
    // algebra wins here.
    let ir = ir_from_json(ISZERO_IR).unwrap();
    let r1cs = lower::<Fr>(&ir).unwrap();
    let plonkish = lower_plonkish_with::<Fr>(&ir, false).unwrap();
    assert!(plonkish.num_rows() > r1cs.constraints.len());
}

#[test]
fn the_plonkish_table_chains_each_wire_and_binds_public_inputs_to_their_first_cell() {
    let ir = ir_from_json(ISZERO_IR).unwrap();
    let circuit = lower_plonkish::<Fr>(&ir).unwrap();
    // Rows: mul(1,3)->4, const->5, sub(5,2)->6, mul(1,2)->7, const->8, then
    // the two assertions (4 = 6) and (7 = 8).
    assert_eq!(circuit.rows[0].cells, [Some(1), Some(3), Some(4)]);
    assert_eq!(circuit.rows[1].cells, [None, None, Some(5)]);
    assert_eq!(circuit.rows[5].cells, [Some(4), Some(6), None]);
    // Every wire held twice costs one copy: wires 1, 2, 4, 5, 6, 7 and 8.
    assert_eq!(circuit.copies.len(), 7);
    assert_eq!(circuit.copies[0], (Cell::new(0, Column::A), Cell::new(3, Column::A)));
    assert_eq!(circuit.copies[1], (Cell::new(2, Column::B), Cell::new(3, Column::B)));
    // `out` (wire 2) is public; its first cell is the `b` cell of the sub row.
    assert_eq!(circuit.public_cells, vec![(2, Cell::new(2, Column::B))]);
}

#[test]
fn a_public_input_no_row_mentions_gets_a_binding_row() {
    let input = |wire: u32, name: &str, visibility: Visibility| Input {
        wire,
        name: name.to_string(),
        visibility,
        line: 0,
    };
    let ir = Ir {
        schema_version: 2,
        name: "Unused".to_string(),
        field: "bn254".to_string(),
        const_one_wire: 0,
        inputs: vec![input(1, "x", Visibility::Private), input(2, "p", Visibility::Public)],
        nodes: vec![],
        assertions: vec![Assertion { lhs: 1, rhs: 1, label: "x == x".to_string(), line: 1 }],
        determinacy: Determinacy { proved: false, targets: vec![], branches: vec![] },
    };
    ir.validate().unwrap();
    let circuit = lower_plonkish::<Fr>(&ir).unwrap();
    assert_eq!(circuit.num_rows(), 2);
    assert_eq!(circuit.rows[1].cells, [Some(2), None, None]);
    assert_eq!(circuit.rows[1].q_l, Fr::zero());
    assert_eq!(measure::<Fr>(&ir).unwrap().plonkish_rows, 2);
}

#[test]
fn the_counts_are_the_same_over_goldilocks_and_bn254() {
    for text in [ISZERO_IR, WIDESUM_IR, LINEAR_IR] {
        let ir = ir_from_json(text).unwrap();
        let a = measure::<Fr>(&ir).unwrap();
        let b = measure::<zkc_core::goldilocks::Goldilocks>(&ir).unwrap();
        assert_eq!(a.r1cs_constraints, b.r1cs_constraints);
        assert_eq!(a.r1cs_constraints_unfused, b.r1cs_constraints_unfused);
        assert_eq!(a.r1cs_variables, b.r1cs_variables);
        assert_eq!(a.plonkish_rows, b.plonkish_rows);
        assert_eq!(a.plonkish_copies, b.plonkish_copies);
    }
}

// --- Plonkish gate fusion ----------------------------------------------------

/// Overwrite every cell holding `wire`, so the table stops describing the
/// solved witness.
fn falsify(circuit: &Plonkish<Fr>, assignment: &mut [[Fr; 3]], wire: u32, value: &str) {
    let lie = Fr::from_decimal(value).unwrap();
    for (row_index, row) in circuit.rows.iter().enumerate() {
        for (slot, held) in row.cells.iter().enumerate() {
            if *held == Some(wire) {
                assignment[row_index][slot] = lie;
            }
        }
    }
}

#[test]
fn fusion_folds_iszero_into_one_row_per_assertion() {
    let ir = ir_from_json(ISZERO_IR).unwrap();
    let base = lower_plonkish_with::<Fr>(&ir, false).unwrap();
    let fused = lower_plonkish_with::<Fr>(&ir, true).unwrap();
    assert_eq!(base.num_rows(), 7);
    assert_eq!(fused.num_rows(), 2); // one row per assertion, nothing else
    assert!(fused.copies.len() < base.copies.len());
}

#[test]
fn fusion_preserves_the_honest_witness() {
    let ir = ir_from_json(ISZERO_IR).unwrap();
    let wires = solve::<Fr>(
        &ir,
        &SolveInputs { inputs: &inputs(&[("x", "0"), ("out", "1")]), advice_overrides: &Vec::new() },
    )
    .unwrap();
    for fuse in [false, true] {
        let circuit = lower_plonkish_with::<Fr>(&ir, fuse).unwrap();
        let assignment = circuit.assignment(&wires);
        assert!(circuit.is_satisfied(&assignment), "honest witness rejected (fuse={fuse})");
    }
}

#[test]
fn fusion_still_catches_a_forged_output() {
    let ir = ir_from_json(ISZERO_IR).unwrap();
    let wires = solve::<Fr>(
        &ir,
        &SolveInputs { inputs: &inputs(&[("x", "0"), ("out", "1")]), advice_overrides: &Vec::new() },
    )
    .unwrap();
    let out = ir.inputs.iter().find(|i| i.name == "out").unwrap().wire;
    for fuse in [false, true] {
        let circuit = lower_plonkish_with::<Fr>(&ir, fuse).unwrap();
        let mut assignment = circuit.assignment(&wires);
        falsify(&circuit, &mut assignment, out, "0");
        assert!(!circuit.is_satisfied(&assignment), "forged output accepted (fuse={fuse})");
    }
}

#[test]
fn fusion_shares_a_value_used_twice_instead_of_recomputing_it() {
    let ir = ir_from_json(MULSQUARE_IR).unwrap();
    let fused = lower_plonkish_with::<Fr>(&ir, true).unwrap();
    let wires = solve::<Fr>(
        &ir,
        &SolveInputs { inputs: &inputs(&[("a", "2"), ("b", "3"), ("c", "36")]), advice_overrides: &Vec::new() },
    )
    .unwrap();
    assert!(fused.is_satisfied(&fused.assignment(&wires)));
    assert!(!fused.copies.is_empty());
}

#[test]
fn benchmark_plonkish_fusion_and_where_r1cs_still_wins() {
    let many = ir_from_json(&many_products_ir(8)).unwrap();
    let r1cs = lower::<Fr>(&many).unwrap();
    let base = lower_plonkish_with::<Fr>(&many, false).unwrap();
    let fused = lower_plonkish_with::<Fr>(&many, true).unwrap();
    assert_eq!(base.num_rows(), 16);
    assert_eq!(fused.num_rows(), 8);
    assert_eq!(fused.num_rows(), r1cs.constraints.len());
    assert_eq!(fused.copies.len(), 0);

    let wide = ir_from_json(WIDESUM_IR).unwrap();
    let r1cs = lower::<Fr>(&wide).unwrap();
    let base = lower_plonkish_with::<Fr>(&wide, false).unwrap();
    let fused = lower_plonkish_with::<Fr>(&wide, true).unwrap();
    assert_eq!(r1cs.constraints.len(), 1);
    assert_eq!(base.num_rows(), 6);
    assert_eq!(fused.num_rows(), 5);
}

#[test]
fn the_fused_iszero_gate_holds_a_product_a_linear_term_and_a_constant() {
    // `x * inv == 1 - out` as one gate: q_M·x·inv + q_O·out + q_C = 0 with
    // q_M = 1, q_O = 1, q_C = -1.
    let ir = ir_from_json(ISZERO_IR).unwrap();
    let fused = lower_plonkish_with::<Fr>(&ir, true).unwrap();
    let row = &fused.rows[0];
    assert_eq!(row.cells, [Some(1), Some(3), Some(2)]);
    assert_eq!(row.q_m, Fr::one());
    assert_eq!(row.q_o, Fr::one());
    assert_eq!(row.q_c, Fr::one().neg());
    assert_eq!(row.q_l, Fr::zero());
    assert_eq!(fused.rows[1].cells, [Some(1), Some(2), None]);
    assert_eq!(fused.public_cells, vec![(2, Cell::new(0, Column::C))]);
}

#[test]
fn measures_both_arithmetizations_from_one_ir() {
    let r = measure::<Fr>(&ir_from_json(ISZERO_IR).unwrap()).unwrap();
    assert_eq!(r.multiplications, 2);
    assert_eq!(r.hints, 1);
    assert_eq!(r.assertions, 2);
    assert_eq!(r.r1cs_constraints, 2);
    assert_eq!(r.plonkish_rows, 2);
    assert_eq!(r.r1cs_constraints_unfused, 4);
    assert_eq!(r.plonkish_rows_unfused, 7);
}

#[test]
fn multiplication_heavy_circuits_tie() {
    assert_eq!(measure::<Fr>(&ir_from_json(ISZERO_IR).unwrap()).unwrap().cheaper(), Cheaper::Tie);
    let r = measure::<Fr>(&ir_from_json(&many_products_ir(8)).unwrap()).unwrap();
    assert_eq!(r.r1cs_constraints, 8);
    assert_eq!(r.plonkish_rows, 8);
    assert_eq!(r.plonkish_copies, 0);
    assert_eq!(r.cheaper(), Cheaper::Tie);
}

#[test]
fn a_wide_linear_sum_is_where_r1cs_wins() {
    let r = measure::<Fr>(&ir_from_json(WIDESUM_IR).unwrap()).unwrap();
    assert_eq!(r.r1cs_constraints, 1);
    assert!(r.plonkish_rows > 1);
    assert_eq!(r.cheaper(), Cheaper::R1cs);
}

use zkc_core::r1cs::Lc;

#[test]
fn linear_combinations_add_any_two_and_scale_in_order() {
    let f = |v: u64| Fr::from_u64(v);
    // A left operand that repeats a variable is still summed correctly.
    let x = Lc { terms: vec![(1usize, f(2)), (1usize, f(3)), (2usize, f(5))] };
    let y = Lc { terms: vec![(2usize, Fr::zero().sub(f(5))), (3usize, f(7))] };
    let z = vec![f(1), f(10), f(100), f(1000)];
    let sum = x.add(&y);
    assert_eq!(sum.eval(&z), x.eval(&z).add(y.eval(&z)));
    assert!(sum.terms.iter().all(|(_, c)| !c.is_zero()));
    // Scaling keeps the terms in order, drops zeros, and by zero is empty.
    let w = Lc { terms: vec![(1usize, f(2)), (3usize, f(4))] };
    let scaled = w.scale(f(3));
    assert_eq!(scaled.terms, vec![(1usize, f(6)), (3usize, f(12))]);
    assert!(w.scale(Fr::zero()).terms.is_empty());
}
