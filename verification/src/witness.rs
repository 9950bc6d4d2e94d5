//! The witness solver: the "compute" half of the compute/constrain split.
//!
//! Given values for the circuit inputs, this evaluates every node in
//! topological order and produces a value for every wire. It only computes —
//! it has no idea whether the constraints will accept the result.
//!
//! Advice overrides model a dishonest prover: hints exist because some values
//! cannot be derived inside the constraint system, so the prover supplies
//! them, and nothing stops the prover from supplying something else.
use vstd::prelude::*;
use vstd::utf8::encode_utf8;

use crate::field::{is_decimal_text, lemma_basics, ZkField};
use crate::ir::{HintKind, Ir, NodeOp};

verus! {

/// Named values: inputs by declared name, advice by hint name. The first
/// entry with a name is the one that counts.
pub struct SolveInputs<'a, F> {
    /// Value for every declared input, by name.
    pub inputs: &'a Vec<(String, F)>,
    /// Optional replacements for hint-produced wires, by advice name.
    pub advice_overrides: &'a Vec<(String, F)>,
}

/// The value bound to `name`: that of the first entry carrying it.
pub open spec fn lookup<F>(entries: Seq<(String, F)>, name: Seq<char>) -> Option<F>
    decreases entries.len(),
{
    if entries.len() == 0 {
        None
    } else if entries[0].0@ == name {
        Some(entries[0].1)
    } else {
        lookup(entries.drop_first(), name)
    }
}

/// Wire values before any node runs: the constant one, each input's supplied
/// value, zero elsewhere; `None` when an input has no value.
pub open spec fn initial_values<F: ZkField>(ir: &Ir, inputs: Seq<(String, F)>) -> Option<Seq<F>> {
    if forall|i: int| 0 <= i < ir.inputs@.len() ==> #[trigger] lookup(inputs, ir.inputs@[i].name@) is Some {
        Some(
            Seq::new(
                ir.spec_wire_count(),
                |w: int|
                    if w == 0 {
                        F::spec_one()
                    } else if w <= ir.inputs@.len() {
                        lookup(inputs, ir.inputs@[w - 1].name@).unwrap()
                    } else {
                        F::spec_zero()
                    },
            ),
        )
    } else {
        None
    }
}

/// The value a node computes from the values of earlier wires; `None` when
/// its constant is not a decimal or an `inv` hint meets zero.
pub open spec fn node_value<F: ZkField>(op: NodeOp, values: Seq<F>, overrides: Seq<(String, F)>) -> Option<F> {
    let args = op.spec_args();
    match op {
        NodeOp::Const { value } => if is_decimal_text(encode_utf8(value@)) {
            Some(F::spec_decimal_value(encode_utf8(value@)))
        } else {
            None
        },
        NodeOp::Add { .. } => Some(values[args[0] as int].spec_add(values[args[1] as int])),
        NodeOp::Sub { .. } => Some(values[args[0] as int].spec_sub(values[args[1] as int])),
        NodeOp::Mul { .. } => Some(values[args[0] as int].spec_mul(values[args[1] as int])),
        NodeOp::Neg { .. } => Some(values[args[0] as int].spec_neg()),
        NodeOp::Hint { hint, name, .. } => match lookup(overrides, name@) {
            Some(v) => Some(v),
            None => match hint {
                HintKind::InvOrZero => match values[args[0] as int].spec_inverse() {
                    Some(v) => Some(v),
                    None => Some(F::spec_zero()),
                },
                HintKind::Inv => values[args[0] as int].spec_inverse(),
            },
        },
    }
}

/// The defining relation of a node between the values of its argument wires
/// and its output: arithmetic nodes compute, constants are their decimal
/// value, and a hint's output is the prover's free choice.
pub open spec fn node_relation<F: ZkField>(op: NodeOp, values: Seq<F>, out: F) -> bool {
    let args = op.spec_args();
    match op {
        NodeOp::Const { value } => out == F::spec_decimal_value(encode_utf8(value@)),
        NodeOp::Add { .. } => out == values[args[0] as int].spec_add(values[args[1] as int]),
        NodeOp::Sub { .. } => out == values[args[0] as int].spec_sub(values[args[1] as int]),
        NodeOp::Mul { .. } => out == values[args[0] as int].spec_mul(values[args[1] as int]),
        NodeOp::Neg { .. } => out == values[args[0] as int].spec_neg(),
        NodeOp::Hint { .. } => true,
    }
}

/// Wire values that obey the circuit's own meaning: one value per wire, all
/// canonical, the constant-one wire holding one, and every node's output
/// related to its arguments as the node defines. Inputs and hints are free.
pub open spec fn wire_values_ok<F: ZkField>(ir: &Ir, values: Seq<F>) -> bool {
    &&& values.len() == ir.spec_wire_count()
    &&& values[0] == F::spec_one()
    &&& forall|w: int| 0 <= w < values.len() ==> (#[trigger] values[w]).wf()
    &&& forall|i: int| 0 <= i < ir.nodes@.len() ==> #[trigger] node_relation(ir.nodes@[i].op, values, values[ir.nodes@[i].wire as int])
}

/// The first `n` assertions hold of the wire values.
pub open spec fn assertions_hold_upto<F: ZkField>(ir: &Ir, values: Seq<F>, n: int) -> bool {
    forall|k: int| 0 <= k < n ==> #[trigger] values[ir.assertions@[k].lhs as int] == values[ir.assertions@[k].rhs as int]
}

/// Every assertion holds of the wire values.
pub open spec fn assertions_hold<F: ZkField>(ir: &Ir, values: Seq<F>) -> bool {
    assertions_hold_upto(ir, values, ir.assertions@.len() as int)
}

/// Wire values after the first `k` nodes have run, in topological order.
pub open spec fn eval_nodes<F: ZkField>(
    ir: &Ir,
    inputs: Seq<(String, F)>,
    overrides: Seq<(String, F)>,
    k: nat,
) -> Option<Seq<F>>
    decreases k,
{
    if k == 0 {
        initial_values(ir, inputs)
    } else {
        match eval_nodes(ir, inputs, overrides, (k - 1) as nat) {
            None => None,
            Some(values) => match node_value(ir.nodes@[k - 1].op, values, overrides) {
                None => None,
                Some(x) => Some(values.update(ir.nodes@[k - 1].wire as int, x)),
            },
        }
    }
}

/// The solved value of every wire, if the inputs determine one.
pub open spec fn solved<F: ZkField>(ir: &Ir, inputs: Seq<(String, F)>, overrides: Seq<(String, F)>) -> Option<Seq<F>> {
    eval_nodes(ir, inputs, overrides, ir.nodes@.len())
}

/// The shape solving and lowering rely on: the constant-one wire is wire 0,
/// inputs occupy wires `1..=n` in order, and nodes continue densely, each
/// with its arity and reading only strictly earlier wires.
pub open spec fn well_formed(ir: &Ir) -> bool {
    &&& ir.const_one_wire == 0
    &&& ir.inputs_dense()
    &&& ir.nodes_ok()
    &&& ir.assertions_ok()
    &&& ir.fits_u32()
}

/// Every value an entry list binds is canonical.
pub open spec fn entries_wf<F: ZkField>(entries: Seq<(String, F)>) -> bool {
    forall|i: int| 0 <= i < entries.len() ==> (#[trigger] entries[i]).1.wf()
}

proof fn lemma_lookup_wf<F: ZkField>(entries: Seq<(String, F)>, name: Seq<char>)
    requires
        entries_wf(entries),
    ensures
        lookup(entries, name) matches Some(v) ==> v.wf(),
    decreases entries.len(),
{
    if entries.len() > 0 {
        assert(entries[0].1.wf());
        let rest = entries.drop_first();
        assert forall|i: int| 0 <= i < rest.len() implies (#[trigger] rest[i]).1.wf() by {
            assert(rest[i] == entries[i + 1]);
        }
        lemma_lookup_wf(rest, name);
    }
}

/// The wire values after `k` nodes: one per wire, the constant one first,
/// all canonical, and the first `k` nodes' relations holding.
spec fn evaluated_ok<F: ZkField>(ir: &Ir, values: Seq<F>, k: int) -> bool {
    &&& values.len() == ir.spec_wire_count()
    &&& values[0] == F::spec_one()
    &&& forall|w: int| 0 <= w < values.len() ==> (#[trigger] values[w]).wf()
    &&& forall|i: int| 0 <= i < k ==> #[trigger] node_relation(ir.nodes@[i].op, values, values[ir.nodes@[i].wire as int])
}

/// A node's relation reads only its arguments, which lie below `bound`.
proof fn lemma_relation_frame<F: ZkField>(op: NodeOp, v1: Seq<F>, v2: Seq<F>, out: F, bound: int)
    requires
        op.spec_args().len() == op.spec_arity(),
        forall|j: int| 0 <= j < op.spec_args().len() ==> #[trigger] op.spec_args()[j] < bound,
        forall|w: int| 0 <= w < bound ==> #[trigger] v1[w] == v2[w],
    ensures
        node_relation(op, v1, out) == node_relation(op, v2, out),
{
    let args = op.spec_args();
    if args.len() >= 1 {
        assert(args[0] < bound);
        assert(v1[args[0] as int] == v2[args[0] as int]);
    }
    if args.len() >= 2 {
        assert(args[1] < bound);
        assert(v1[args[1] as int] == v2[args[1] as int]);
    }
}

proof fn lemma_eval_ok<F: ZkField>(ir: &Ir, inputs: Seq<(String, F)>, overrides: Seq<(String, F)>, k: nat)
    requires
        well_formed(ir),
        k <= ir.nodes@.len(),
        entries_wf(inputs),
        entries_wf(overrides),
    ensures
        eval_nodes(ir, inputs, overrides, k) matches Some(values) ==> evaluated_ok(ir, values, k as int),
    decreases k,
{
    lemma_basics(F::spec_one(), F::spec_one());
    if k == 0 {
        if let Some(values) = initial_values(ir, inputs) {
            assert forall|w: int| 0 <= w < values.len() implies (#[trigger] values[w]).wf() by {
                if 1 <= w <= ir.inputs@.len() {
                    lemma_lookup_wf(inputs, ir.inputs@[w - 1].name@);
                }
            }
        }
    } else {
        lemma_eval_ok(ir, inputs, overrides, (k - 1) as nat);
        if let Some(values) = eval_nodes(ir, inputs, overrides, k) {
            let prev = eval_nodes(ir, inputs, overrides, (k - 1) as nat)->0;
            let node = ir.nodes@[k - 1];
            let x = node_value(node.op, prev, overrides)->0;
            assert(ir.node_ok(k - 1));
            let args = node.op.spec_args();
            assert(values == prev.update(node.wire as int, x));
            // The new value is canonical.
            match node.op {
                NodeOp::Const { value } => {
                    F::lemma_decimal_wf(encode_utf8(value@));
                },
                NodeOp::Hint { name, .. } => {
                    lemma_lookup_wf(overrides, name@);
                    F::lemma_inverse_wf(prev[args[0] as int]);
                },
                _ => {
                    lemma_basics(prev[args[0] as int], prev[args[args.len() - 1] as int]);
                },
            }
            assert(x.wf());
            // The new node's relation holds, and earlier ones keep holding.
            lemma_relation_frame(node.op, prev, values, x, node.wire as int);
            assert forall|i: int| 0 <= i < k implies #[trigger] node_relation(ir.nodes@[i].op, values, values[ir.nodes@[i].wire as int]) by {
                if i < k - 1 {
                    assert(ir.node_ok(i));
                    assert(node_relation(ir.nodes@[i].op, prev, prev[ir.nodes@[i].wire as int]));
                    lemma_relation_frame(ir.nodes@[i].op, prev, values, prev[ir.nodes@[i].wire as int], ir.nodes@[i].wire as int);
                }
            }
        }
    }
}

/// Solving yields wire values that obey the circuit's meaning, whenever the
/// supplied input and advice values are canonical.
pub proof fn lemma_solved_values_ok<F: ZkField>(ir: &Ir, inputs: Seq<(String, F)>, overrides: Seq<(String, F)>)
    requires
        well_formed(ir),
        entries_wf(inputs),
        entries_wf(overrides),
    ensures
        solved(ir, inputs, overrides) matches Some(values) ==> wire_values_ok(ir, values),
{
    lemma_eval_ok(ir, inputs, overrides, ir.nodes@.len());
}

/// Find the first value bound to `name`.
fn find_value<F: Copy>(entries: &Vec<(String, F)>, name: &String) -> (r: Option<F>)
    ensures
        r == lookup(entries@, name@),
{
    let mut i: usize = 0;
    assert(entries@.subrange(0, entries@.len() as int) =~= entries@);
    while i < entries.len()
        invariant
            i <= entries@.len(),
            lookup(entries@, name@) == lookup(entries@.subrange(i as int, entries@.len() as int), name@),
        decreases entries@.len() - i,
    {
        let ghost rest = entries@.subrange(i as int, entries@.len() as int);
        assert(rest.drop_first() =~= entries@.subrange(i as int + 1, entries@.len() as int));
        if entries[i].0 == *name {
            return Some(entries[i].1);
        }
        i = i + 1;
    }
    None
}

/// The message for an input that was given no value.
pub open spec fn missing_input_text(name: Seq<char>) -> Seq<char> {
    "no value supplied for input '"@ + name + "'"@
}

/// The message for an `inv` hint whose argument is zero.
pub open spec fn inverse_of_zero_text(name: Seq<char>) -> Seq<char> {
    "hint inv('"@ + name + "') is undefined: the argument is zero"@
}

/// The name of the first input, from the `i`-th on, that `inputs` gives no
/// value.
pub open spec fn first_missing_input<F: ZkField>(ir: &Ir, inputs: Seq<(String, F)>, i: nat) -> Option<Seq<char>>
    decreases ir.inputs@.len() - i,
{
    if i >= ir.inputs@.len() {
        None
    } else if lookup(inputs, ir.inputs@[i as int].name@) is None {
        Some(ir.inputs@[i as int].name@)
    } else {
        first_missing_input(ir, inputs, i + 1)
    }
}

/// With every input before the `i`-th given and the `i`-th missing, the
/// first missing one is the `i`-th; with every input given, none is.
proof fn lemma_first_missing<F: ZkField>(ir: &Ir, inputs: Seq<(String, F)>, s: nat, i: nat)
    requires
        s <= i <= ir.inputs@.len(),
        forall|j: int| s <= j < i ==> #[trigger] lookup(inputs, ir.inputs@[j].name@) is Some,
        i < ir.inputs@.len() ==> lookup(inputs, ir.inputs@[i as int].name@) is None,
    ensures
        first_missing_input(ir, inputs, s) == (if i < ir.inputs@.len() {
            Some(ir.inputs@[i as int].name@)
        } else {
            None
        }),
    decreases i - s,
{
    if s < i {
        assert(lookup(inputs, ir.inputs@[s as int].name@) is Some);
        lemma_first_missing(ir, inputs, s + 1, i);
    }
}

/// `format!` of the message for an input with no value: `std`'s formatting
/// writes the literal pieces and the name.
#[verifier::external_body]
fn msg_missing_input(name: &String) -> (r: String)
    ensures
        r@ == missing_input_text(name@),
{
    format!("no value supplied for input '{}'", name)
}

/// `format!` of the message for an `inv` hint of zero: `std`'s formatting
/// writes the literal pieces and the name.
#[verifier::external_body]
fn msg_inverse_of_zero(name: &String) -> (r: String)
    ensures
        r@ == inverse_of_zero_text(name@),
{
    format!("hint inv('{name}') is undefined: the argument is zero")
}

/// Evaluate all wires. Index `i` of the result is the value of wire `i`.
pub fn solve<F: ZkField>(ir: &Ir, args: &SolveInputs<F>) -> (r: Result<Vec<F>, String>)
    requires
        well_formed(ir),
    ensures
        r is Ok <==> solved(ir, args.inputs@, args.advice_overrides@) is Some,
        r matches Ok(values) ==> Some(values@) == solved(ir, args.inputs@, args.advice_overrides@),
        first_missing_input(ir, args.inputs@, 0) matches Some(name) ==> (r matches Err(e) && e@ == missing_input_text(
            name,
        )),
        forall|k: int|
            0 <= k < ir.nodes@.len() && eval_nodes(ir, args.inputs@, args.advice_overrides@, k as nat) is Some
                && #[trigger] eval_nodes(ir, args.inputs@, args.advice_overrides@, (k + 1) as nat) is None
                ==> (ir.nodes@[k].op matches NodeOp::Hint { hint: HintKind::Inv, name, .. } ==> (r matches Err(e)
                && e@ == inverse_of_zero_text(name@))),
        r matches Ok(values) ==> forall|k: int|
            0 <= k < ir.nodes@.len() && (#[trigger] ir.nodes@[k]).op is Hint && ir.nodes@[k].op->hint == HintKind::Inv
                && lookup(args.advice_overrides@, ir.nodes@[k].op->name@) is None ==> values@[ir.nodes@[k].op.spec_args()[0] as int].spec_inverse()
                == Some(values@[ir.nodes@[k].wire as int]),
{
    let ghost ins = args.inputs@;
    let ghost ovs = args.advice_overrides@;
    let count = ir.wire_count();
    let mut values: Vec<F> = Vec::new();
    let mut w: usize = 0;
    while w < count
        invariant
            count == ir.spec_wire_count(),
            w <= count,
            values@.len() == w,
            forall|j: int| 0 <= j < w ==> #[trigger] values@[j] == F::spec_zero(),
        decreases count - w,
    {
        values.push(F::zero());
        w = w + 1;
    }
    values.set(0, F::one());

    let mut i: usize = 0;
    while i < ir.inputs.len()
        invariant
            well_formed(ir),
            count == ir.spec_wire_count(),
            values@.len() == count,
            i <= ir.inputs@.len(),
            forall|j: int| 0 <= j < i ==> #[trigger] lookup(ins, ir.inputs@[j].name@) is Some,
            forall|w: int|
                0 <= w < count ==> #[trigger] values@[w] == (if w == 0 {
                    F::spec_one()
                } else if w <= i {
                    lookup(ins, ir.inputs@[w - 1].name@).unwrap()
                } else {
                    F::spec_zero()
                }),
            ins == args.inputs@,
            ovs == args.advice_overrides@,
        decreases ir.inputs@.len() - i,
    {
        let input = &ir.inputs[i];
        let found = find_value(args.inputs, &input.name);
        match found {
            None => {
                proof {
                    assert(!(lookup(ins, ir.inputs@[i as int].name@) is Some));
                    assert(initial_values(ir, ins) is None);
                    lemma_eval_none_propagates(ir, ins, ovs, ir.nodes@.len());
                    lemma_first_missing(ir, ins, 0, i as nat);
                    assert forall|j: nat| #[trigger] eval_nodes(ir, ins, ovs, j) is None by {
                        lemma_eval_none_propagates(ir, ins, ovs, j);
                    }
                }
                return Err(msg_missing_input(&input.name));
            },
            Some(value) => {
                values.set(input.wire as usize, value);
            },
        }
        i = i + 1;
    }
    proof {
        assert(initial_values(ir, ins) == Some(values@));
        lemma_first_missing(ir, ins, 0, ir.inputs@.len());
    }

    let mut k: usize = 0;
    while k < ir.nodes.len()
        invariant
            well_formed(ir),
            count == ir.spec_wire_count(),
            k <= ir.nodes@.len(),
            eval_nodes(ir, ins, ovs, k as nat) == Some(values@),
            values@.len() == count,
            ins == args.inputs@,
            ovs == args.advice_overrides@,
            first_missing_input(ir, ins, 0) is None,
        decreases ir.nodes@.len() - k,
    {
        let node = &ir.nodes[k];
        let a = node.op.args();
        proof {
            assert(ir.node_ok(k as int));
            assert(node.wire < count);
        }
        let value = match &node.op {
            NodeOp::Const { value } => {
                let parsed = F::from_decimal(value.as_str());
                match parsed {
                    Ok(v) => v,
                    Err(e) => {
                        proof {
                            lemma_eval_stays_none(ir, ins, ovs, (k + 1) as nat, ir.nodes@.len());
                            lemma_first_failure_unique(ir, ins, ovs, k as nat);
                        }
                        return Err(e);
                    },
                }
            },
            NodeOp::Add { .. } => values[a[0] as usize].add(values[a[1] as usize]),
            NodeOp::Sub { .. } => values[a[0] as usize].sub(values[a[1] as usize]),
            NodeOp::Mul { .. } => values[a[0] as usize].mul(values[a[1] as usize]),
            NodeOp::Neg { .. } => values[a[0] as usize].neg(),
            NodeOp::Hint { hint, name, .. } => match find_value(args.advice_overrides, name) {
                // A dishonest prover simply ignores the hint.
                Some(override_value) => override_value,
                None => match hint {
                    HintKind::InvOrZero => match values[a[0] as usize].inverse() {
                        Some(v) => v,
                        None => F::zero(),
                    },
                    HintKind::Inv => match values[a[0] as usize].inverse() {
                        Some(v) => v,
                        None => {
                            proof {
                                lemma_eval_stays_none(ir, ins, ovs, (k + 1) as nat, ir.nodes@.len());
                                lemma_first_failure_unique(ir, ins, ovs, k as nat);
                            }
                            return Err(msg_inverse_of_zero(name));
                        },
                    },
                },
            },
        };
        values.set(node.wire as usize, value);
        k = k + 1;
    }
    proof {
        assert forall|j: int| 0 <= j < ir.nodes@.len() implies !(#[trigger] eval_nodes(ir, ins, ovs, (j + 1) as nat) is None) by {
            if eval_nodes(ir, ins, ovs, (j + 1) as nat) is None {
                lemma_eval_stays_none(ir, ins, ovs, (j + 1) as nat, ir.nodes@.len());
            }
        }
        assert forall|j: int|
            0 <= j < ir.nodes@.len() && (#[trigger] ir.nodes@[j]).op is Hint && ir.nodes@[j].op->hint == HintKind::Inv
                && lookup(ovs, ir.nodes@[j].op->name@) is None implies values@[ir.nodes@[j].op.spec_args()[0] as int].spec_inverse() == Some(
            values@[ir.nodes@[j].wire as int],
        ) by {
            law_inverse_hint_is_inverse(ir, ins, ovs, j);
        }
    }
    Ok(values)
}

/// Solving fails at one node at most: the one whose prefix evaluates and
/// whose step does not.
proof fn lemma_first_failure_unique<F: ZkField>(ir: &Ir, inputs: Seq<(String, F)>, overrides: Seq<(String, F)>, k: nat)
    requires
        eval_nodes(ir, inputs, overrides, k) is Some,
        eval_nodes(ir, inputs, overrides, k + 1) is None,
    ensures
        forall|j: nat|
            eval_nodes(ir, inputs, overrides, j) is Some && #[trigger] eval_nodes(ir, inputs, overrides, j + 1) is None
                ==> j == k,
{
    assert forall|j: nat|
        eval_nodes(ir, inputs, overrides, j) is Some && #[trigger] eval_nodes(ir, inputs, overrides, j + 1) is None
            implies j == k by {
        if j < k {
            lemma_eval_stays_none(ir, inputs, overrides, j + 1, k);
        } else if j > k {
            lemma_eval_stays_none(ir, inputs, overrides, k + 1, j);
        }
    }
}

proof fn lemma_eval_none_propagates<F: ZkField>(
    ir: &Ir,
    inputs: Seq<(String, F)>,
    overrides: Seq<(String, F)>,
    k: nat,
)
    requires
        initial_values(ir, inputs) is None,
    ensures
        eval_nodes(ir, inputs, overrides, k) is None,
    decreases k,
{
    if k > 0 {
        lemma_eval_none_propagates(ir, inputs, overrides, (k - 1) as nat);
    }
}

proof fn lemma_eval_stays_none<F: ZkField>(
    ir: &Ir,
    inputs: Seq<(String, F)>,
    overrides: Seq<(String, F)>,
    k: nat,
    n: nat,
)
    requires
        k <= n,
        eval_nodes(ir, inputs, overrides, k) is None,
    ensures
        eval_nodes(ir, inputs, overrides, n) is None,
    decreases n - k,
{
    if k < n {
        lemma_eval_stays_none(ir, inputs, overrides, k + 1, n);
    }
}


/// Evaluation keeps one value per wire.
proof fn lemma_eval_len<F: ZkField>(ir: &Ir, inputs: Seq<(String, F)>, overrides: Seq<(String, F)>, k: nat)
    requires
        well_formed(ir),
        k <= ir.nodes@.len(),
    ensures
        eval_nodes(ir, inputs, overrides, k) is Some ==> eval_nodes(ir, inputs, overrides, k)->0.len() == ir.spec_wire_count(),
    decreases k,
{
    if k > 0 {
        lemma_eval_len(ir, inputs, overrides, (k - 1) as nat);
        if eval_nodes(ir, inputs, overrides, k) is Some {
            let prev = eval_nodes(ir, inputs, overrides, (k - 1) as nat)->0;
            let node = ir.nodes@[k - 1];
            assert(ir.node_ok(k - 1));
            let x = node_value(node.op, prev, overrides)->0;
            assert(eval_nodes(ir, inputs, overrides, k)->0 == prev.update(node.wire as int, x));
        }
    } else {
        if initial_values(ir, inputs) is Some {
            assert(initial_values(ir, inputs)->0.len() == ir.spec_wire_count());
        }
    }
}

/// Later nodes leave earlier wires alone: once `j >= k` nodes have run,
/// every wire below the `k`-th node's holds what it held after `k`.
proof fn lemma_eval_frame<F: ZkField>(ir: &Ir, inputs: Seq<(String, F)>, overrides: Seq<(String, F)>, k: nat, j: nat)
    requires
        well_formed(ir),
        k <= j <= ir.nodes@.len(),
        eval_nodes(ir, inputs, overrides, j) is Some,
    ensures
        eval_nodes(ir, inputs, overrides, k) is Some,
        eval_nodes(ir, inputs, overrides, j)->0.len() == eval_nodes(ir, inputs, overrides, k)->0.len(),
        forall|w: int|
            0 <= w < ir.inputs@.len() + 1 + k ==> #[trigger] eval_nodes(ir, inputs, overrides, j)->0[w]
                == eval_nodes(ir, inputs, overrides, k)->0[w],
    decreases j - k,
{
    lemma_eval_len(ir, inputs, overrides, j);
    lemma_eval_len(ir, inputs, overrides, k);
    if j > k {
        let prev = eval_nodes(ir, inputs, overrides, (j - 1) as nat);
        assert(prev is Some);
        lemma_eval_frame(ir, inputs, overrides, k, (j - 1) as nat);
        lemma_eval_len(ir, inputs, overrides, (j - 1) as nat);
        assert(ir.node_ok(j - 1));
        let node = ir.nodes@[j - 1];
        let x = node_value(node.op, prev->0, overrides)->0;
        assert(eval_nodes(ir, inputs, overrides, j)->0 == prev->0.update(node.wire as int, x));
        assert(node.wire == ir.inputs@.len() + 1 + (j - 1));
        assert forall|w: int| 0 <= w < ir.inputs@.len() + 1 + k implies #[trigger] eval_nodes(ir, inputs, overrides, j)->0[w]
            == eval_nodes(ir, inputs, overrides, k)->0[w] by {
            assert(prev->0[w] == eval_nodes(ir, inputs, overrides, k)->0[w]);
        }
    }
}

/// An `inv` hint the prover does not override solves to the field inverse
/// of its argument: the argument has an inverse, the hint's wire holds it,
/// and, where inverses are exact, the two multiply to one.
pub proof fn law_inverse_hint_is_inverse<F: ZkField>(
    ir: &Ir,
    inputs: Seq<(String, F)>,
    overrides: Seq<(String, F)>,
    k: int,
)
    requires
        well_formed(ir),
        0 <= k < ir.nodes@.len(),
        ir.nodes@[k].op is Hint,
        ir.nodes@[k].op->hint == HintKind::Inv,
        lookup(overrides, ir.nodes@[k].op->name@) is None,
        solved(ir, inputs, overrides) is Some,
    ensures
        ({
            let values = solved(ir, inputs, overrides)->0;
            let a = values[ir.nodes@[k].op.spec_args()[0] as int];
            let v = values[ir.nodes@[k].wire as int];
            &&& a.spec_inverse() == Some(v)
            &&& (entries_wf(inputs) && entries_wf(overrides)) ==> a != F::spec_zero()
            &&& (crate::fold::field_inverses_exact::<F>() && entries_wf(inputs) && entries_wf(overrides)) ==> (a.spec_mul(v)
                == F::spec_one() && v.spec_mul(a) == F::spec_one())
        }),
{
    let n = ir.nodes@.len();
    let node = ir.nodes@[k];
    let arg = node.op.spec_args()[0];
    lemma_eval_frame(ir, inputs, overrides, (k + 1) as nat, n);
    lemma_eval_frame(ir, inputs, overrides, k as nat, (k + 1) as nat);
    assert(ir.node_ok(k));
    assert(node.op.spec_args().len() == 1);
    let prev = eval_nodes(ir, inputs, overrides, k as nat)->0;
    let next = eval_nodes(ir, inputs, overrides, (k + 1) as nat)->0;
    lemma_eval_len(ir, inputs, overrides, k as nat);
    lemma_eval_len(ir, inputs, overrides, n);
    let values = solved(ir, inputs, overrides)->0;
    assert(node_value(node.op, prev, overrides) is Some);
    assert(next == prev.update(node.wire as int, node_value(node.op, prev, overrides)->0));
    assert(arg < node.wire);
    assert(values[node.wire as int] == next[node.wire as int]);
    assert(values[arg as int] == next[arg as int]);
    let a = values[arg as int];
    let v = values[node.wire as int];
    assert(a.spec_inverse() == Some(v));
    if entries_wf(inputs) && entries_wf(overrides) {
        lemma_eval_ok(ir, inputs, overrides, n);
        assert(a.wf());
        F::lemma_inverse_wf(a);
        if crate::fold::field_inverses_exact::<F>() {
            assert(crate::fold::inverse_exact(a));
            crate::field::lemma_mul_comm(a, v);
        }
    }
}

} // verus!
