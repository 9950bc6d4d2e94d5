//! Lowering: Core IR to R1CS.
//!
//! Each IR wire is mapped to a linear combination over R1CS variables, and
//! only operations that genuinely need a multiplication allocate a variable
//! and emit a constraint:
//!
//! | IR node          | cost in R1CS                                    |
//! |------------------|-------------------------------------------------|
//! | `const`          | free — a constant term on variable 0            |
//! | `add`/`sub`/`neg`| free — linear combinations fold together        |
//! | `mul`            | 1 new variable + 1 constraint                   |
//! | `hint`           | 1 new variable, no constraint                   |
//! | `assert l == r`  | 1 constraint: `(l - r) * 1 = 0`                 |
//!
//! Multiplicative-assertion fusion: when a `mul` wire feeds exactly one
//! assertion and nothing else, its intermediate variable is pure overhead, so
//! the assertion is emitted directly as the rank-1 constraint `a * b = c`.
use vstd::prelude::*;
use vstd::utf8::encode_utf8;

use crate::field::{
    is_decimal_text, lemma_basics, lemma_mul_comm, lemma_neg_is_times_minus_one, lemma_sub_zero_iff,
    ZkField,
};
use crate::ir::{Assertion, Ir, NodeOp};
use crate::r1cs::{
    all_hold, assignment_of, lemma_eval_push, lemma_eval_single, lemma_vars_below_union, terms_eval,
    vars_below, Constraint, Lc, R1cs,
};
use crate::witness::{
    assertions_hold, assertions_hold_upto, entries_wf, lemma_solved_values_ok, node_relation, solved,
    well_formed, wire_values_ok,
};

verus! {

/// How many assertion sides are the wire `w`.
pub open spec fn assertion_uses(assertions: Seq<Assertion>, w: u32) -> nat
    decreases assertions.len(),
{
    if assertions.len() == 0 {
        0
    } else {
        assertion_uses(assertions.drop_last(), w) + (if assertions.last().lhs == w {
            1nat
        } else {
            0nat
        }) + (if assertions.last().rhs == w {
            1nat
        } else {
            0nat
        })
    }
}

/// Whether some node takes the wire `w` as an argument.
pub open spec fn used_by_node(ir: &Ir, w: u32) -> bool {
    exists|i: int, j: int|
        0 <= i < ir.nodes@.len() && 0 <= j < ir.nodes@[i].op.spec_args().len()
            && #[trigger] ir.nodes@[i].op.spec_args()[j] == w
}

/// The node producing wire `w` (meaningful for node wires).
pub open spec fn node_index(ir: &Ir, w: u32) -> int {
    w - ir.inputs@.len() - 1
}

/// Whether wire `w` is produced by a multiplication.
pub open spec fn is_mul_wire(ir: &Ir, w: u32) -> bool {
    let i = node_index(ir, w);
    0 <= i < ir.nodes@.len() && ir.nodes@[i].op is Mul
}

/// A mul wire is fusible when exactly one assertion side and no node use it.
pub open spec fn fusible(ir: &Ir, w: u32) -> bool {
    &&& is_mul_wire(ir, w)
    &&& !used_by_node(ir, w)
    &&& assertion_uses(ir.assertions@, w) == 1
}

/// The fusion chosen for assertion `k`: `(fused mul wire, other side)`.
/// The left side is preferred; an assertion of a wire against itself is
/// never fused.
pub open spec fn fusion_choice(ir: &Ir, fuse: bool, k: int) -> Option<(u32, u32)> {
    let a = ir.assertions@[k];
    if !fuse || a.lhs == a.rhs {
        None
    } else if fusible(ir, a.lhs) {
        Some((a.lhs, a.rhs))
    } else if fusible(ir, a.rhs) {
        Some((a.rhs, a.lhs))
    } else {
        None
    }
}

/// Whether the mul wire `w` is folded into an assertion.
pub open spec fn is_fused(ir: &Ir, fuse: bool, w: u32) -> bool {
    exists|k: int| 0 <= k < ir.assertions@.len() && #[trigger] fused_at(ir, fuse, k, w)
}

/// Whether assertion `k` absorbs the mul wire `w`.
pub open spec fn fused_at(ir: &Ir, fuse: bool, k: int, w: u32) -> bool {
    match fusion_choice(ir, fuse, k) {
        Some((m, _)) => m == w,
        None => false,
    }
}

/// Every constant node's value is a decimal integer.
pub open spec fn consts_parse(ir: &Ir) -> bool {
    forall|i: int| 0 <= i < ir.nodes@.len() ==> (#[trigger] ir.nodes@[i].op matches NodeOp::Const {
        value,
    } ==> is_decimal_text(encode_utf8(value@)))
}

/// The result of the fusibility analysis: which mul wires are fused, the two
/// arguments of each, and, per assertion, which side (if any) was fused.
struct FusedMuls {
    /// wire -> the two argument wires of the fused mul at that wire.
    args: Vec<Option<(u32, u32)>>,
    /// assertion index -> (fused mul wire, the other side's wire).
    per_assertion: Vec<Option<(u32, u32)>>,
}

impl FusedMuls {
    spec fn matches(&self, ir: &Ir, fuse: bool) -> bool {
        &&& self.args@.len() == ir.spec_wire_count()
        &&& self.per_assertion@.len() == ir.assertions@.len()
        &&& forall|k: int| 0 <= k < ir.assertions@.len() ==> #[trigger] self.per_assertion@[k] == fusion_choice(ir, fuse, k)
        &&& forall|w: int| 0 <= w < self.args@.len() ==> (#[trigger] self.args@[w] is Some <==> is_fused(ir, fuse, w as u32))
        &&& forall|w: int| 0 <= w < self.args@.len() ==> (#[trigger] self.args@[w] matches Some((a0, a1)) ==> {
            &&& is_mul_wire(ir, w as u32)
            &&& a0 == ir.nodes@[node_index(ir, w as u32)].op.spec_args()[0]
            &&& a1 == ir.nodes@[node_index(ir, w as u32)].op.spec_args()[1]
        })
    }

    fn none(ir: &Ir) -> (r: Self)
        requires
            well_formed(ir),
        ensures
            r.matches(ir, false),
    {
        let count = ir.wire_count();
        let mut args: Vec<Option<(u32, u32)>> = Vec::new();
        let mut w: usize = 0;
        while w < count
            invariant
                w <= count,
                count == ir.spec_wire_count(),
                args@.len() == w,
                forall|j: int| 0 <= j < w ==> #[trigger] args@[j] is None,
            decreases count - w,
        {
            args.push(None);
            w = w + 1;
        }
        let mut per_assertion: Vec<Option<(u32, u32)>> = Vec::new();
        let mut k: usize = 0;
        while k < ir.assertions.len()
            invariant
                k <= ir.assertions@.len(),
                per_assertion@.len() == k,
                forall|j: int| 0 <= j < k ==> #[trigger] per_assertion@[j] is None,
            decreases ir.assertions@.len() - k,
        {
            per_assertion.push(None);
            k = k + 1;
        }
        let r = FusedMuls { args, per_assertion };
        assert forall|k: int| 0 <= k < ir.assertions@.len() implies #[trigger] r.per_assertion@[k] == fusion_choice(ir, false, k) by {}
        assert forall|w: int| 0 <= w < r.args@.len() implies (#[trigger] r.args@[w] is Some <==> is_fused(ir, false, w as u32)) by {
            if is_fused(ir, false, w as u32) {
                let k = choose|k: int| 0 <= k < ir.assertions@.len() && #[trigger] fused_at(ir, false, k, w as u32);
            }
        }
        r
    }

    fn contains(&self, wire: u32) -> (r: bool)
        requires
            wire < self.args@.len(),
        ensures
            r == self.args@[wire as int] is Some,
    {
        self.args[wire as usize].is_some()
    }

    fn side_for(&self, assertion_index: usize) -> (r: Option<(u32, u32)>)
        requires
            assertion_index < self.per_assertion@.len(),
        ensures
            r == self.per_assertion@[assertion_index as int],
    {
        self.per_assertion[assertion_index]
    }
}

/// Count the node uses and the assertion-side uses of every wire.
fn count_uses(ir: &Ir) -> (r: (Vec<bool>, Vec<usize>))
    requires
        well_formed(ir),
        ir.assertions@.len() * 2 <= usize::MAX,
    ensures
        r.0@.len() == ir.spec_wire_count(),
        r.1@.len() == ir.spec_wire_count(),
        forall|w: int| 0 <= w < ir.spec_wire_count() ==> (#[trigger] r.0@[w] <==> used_by_node(ir, w as u32)),
        forall|w: int| 0 <= w < ir.spec_wire_count() ==> #[trigger] r.1@[w] == assertion_uses(ir.assertions@, w as u32),
{
    let count = ir.wire_count();
    let mut node_used: Vec<bool> = Vec::new();
    let mut assert_uses: Vec<usize> = Vec::new();
    let mut w: usize = 0;
    while w < count
        invariant
            w <= count,
            count == ir.spec_wire_count(),
            node_used@.len() == w,
            assert_uses@.len() == w,
            forall|j: int| 0 <= j < w ==> !(#[trigger] node_used@[j]),
            forall|j: int| 0 <= j < w ==> #[trigger] assert_uses@[j] == 0,
        decreases count - w,
    {
        node_used.push(false);
        assert_uses.push(0);
        w = w + 1;
    }
    let mut i: usize = 0;
    while i < ir.nodes.len()
        invariant
            well_formed(ir),
            count == ir.spec_wire_count(),
            i <= ir.nodes@.len(),
            node_used@.len() == count,
            forall|v: int| 0 <= v < count ==> (#[trigger] node_used@[v] <==> exists|a: int, j: int|
                0 <= a < i && 0 <= j < ir.nodes@[a].op.spec_args().len()
                    && #[trigger] ir.nodes@[a].op.spec_args()[j] == v),
        decreases ir.nodes@.len() - i,
    {
        let args = ir.nodes[i].op.args();
        proof {
            assert(ir.node_ok(i as int));
        }
        let mut j: usize = 0;
        while j < args.len()
            invariant
                well_formed(ir),
                count == ir.spec_wire_count(),
                i < ir.nodes@.len(),
                args@ == ir.nodes@[i as int].op.spec_args(),
                ir.node_ok(i as int),
                j <= args@.len(),
                node_used@.len() == count,
                forall|v: int| 0 <= v < count ==> (#[trigger] node_used@[v] <==> (exists|a: int, m: int|
                    0 <= a < i && 0 <= m < ir.nodes@[a].op.spec_args().len()
                        && #[trigger] ir.nodes@[a].op.spec_args()[m] == v) || (exists|m: int|
                    0 <= m < j && #[trigger] args@[m] == v)),
            decreases args@.len() - j,
        {
            let a = args[j];
            assert(a < ir.nodes@[i as int].wire);
            node_used.set(a as usize, true);
            proof {
                assert forall|v: int| 0 <= v < count implies (#[trigger] node_used@[v] <==> (exists|b: int, m: int|
                    0 <= b < i && 0 <= m < ir.nodes@[b].op.spec_args().len()
                        && #[trigger] ir.nodes@[b].op.spec_args()[m] == v) || (exists|m: int|
                    0 <= m < j + 1 && #[trigger] args@[m] == v)) by {
                    if v == a {
                        assert(args@[j as int] == v);
                    }
                }
            }
            j = j + 1;
        }
        proof {
            assert forall|v: int| 0 <= v < count implies (#[trigger] node_used@[v] <==> exists|b: int, m: int|
                0 <= b < i + 1 && 0 <= m < ir.nodes@[b].op.spec_args().len()
                    && #[trigger] ir.nodes@[b].op.spec_args()[m] == v) by {
                if node_used@[v] {
                    if exists|m: int| 0 <= m < args@.len() && #[trigger] args@[m] == v {
                        let m = choose|m: int| 0 <= m < args@.len() && #[trigger] args@[m] == v;
                        assert(ir.nodes@[i as int].op.spec_args()[m] == v);
                    }
                }
                if exists|b: int, m: int| 0 <= b < i + 1 && 0 <= m < ir.nodes@[b].op.spec_args().len()
                    && #[trigger] ir.nodes@[b].op.spec_args()[m] == v {
                    let (b, m) = choose|b: int, m: int| 0 <= b < i + 1 && 0 <= m < ir.nodes@[b].op.spec_args().len()
                        && #[trigger] ir.nodes@[b].op.spec_args()[m] == v;
                    if b == i {
                        assert(args@[m] == v);
                    }
                }
            }
        }
        i = i + 1;
    }
    let mut k: usize = 0;
    while k < ir.assertions.len()
        invariant
            well_formed(ir),
            count == ir.spec_wire_count(),
            ir.assertions@.len() * 2 <= usize::MAX,
            k <= ir.assertions@.len(),
            assert_uses@.len() == count,
            forall|v: int| 0 <= v < count ==> #[trigger] assert_uses@[v] == assertion_uses(
                ir.assertions@.subrange(0, k as int),
                v as u32,
            ),
            forall|v: int| 0 <= v < count ==> #[trigger] assert_uses@[v] <= 2 * k,
        decreases ir.assertions@.len() - k,
    {
        let ghost prefix = ir.assertions@.subrange(0, k as int);
        let ghost next = ir.assertions@.subrange(0, k as int + 1);
        assert(next.drop_last() =~= prefix);
        let lhs = ir.assertions[k].lhs;
        let rhs = ir.assertions[k].rhs;
        let ghost before = assert_uses@;
        if (lhs as usize) < count {
            let old = assert_uses[lhs as usize];
            assert_uses.set(lhs as usize, old + 1);
        }
        if (rhs as usize) < count {
            let old = assert_uses[rhs as usize];
            assert_uses.set(rhs as usize, old + 1);
        }
        proof {
            assert forall|v: int| 0 <= v < count implies #[trigger] assert_uses@[v] == assertion_uses(next, v as u32) by {
                assert(next.last() == ir.assertions@[k as int]);
                assert(before[v] == assertion_uses(prefix, v as u32));
            }
        }
        k = k + 1;
    }
    assert(ir.assertions@.subrange(0, ir.assertions@.len() as int) =~= ir.assertions@);
    assert forall|w: int| 0 <= w < ir.spec_wire_count() implies (#[trigger] node_used@[w] <==> used_by_node(ir, w as u32)) by {
        if node_used@[w] {
            let (b, m) = choose|b: int, m: int| 0 <= b < ir.nodes@.len() && 0 <= m < ir.nodes@[b].op.spec_args().len()
                && #[trigger] ir.nodes@[b].op.spec_args()[m] == w;
            assert(ir.nodes@[b].op.spec_args()[m] == w as u32);
        }
        if used_by_node(ir, w as u32) {
            let (b, m) = choose|b: int, m: int| 0 <= b < ir.nodes@.len() && 0 <= m < ir.nodes@[b].op.spec_args().len()
                && #[trigger] ir.nodes@[b].op.spec_args()[m] == w as u32;
            assert(ir.nodes@[b].op.spec_args()[m] == w);
        }
    }
    (node_used, assert_uses)
}

/// A mul wire is fusible when it is referenced by exactly one assertion side
/// and by no node — then its intermediate variable is redundant. If an
/// assertion has a fusible mul on both sides only one can be fused (a rank-1
/// constraint has a single product), so the choice is made per assertion.
fn find_fusible(ir: &Ir) -> (r: FusedMuls)
    requires
        well_formed(ir),
        ir.assertions@.len() * 2 <= usize::MAX,
    ensures
        r.matches(ir, true),
{
    let count = ir.wire_count();
    let (node_used, assert_uses) = count_uses(ir);
    let first_node_wire = ir.inputs.len() + 1;
    let mut per_assertion: Vec<Option<(u32, u32)>> = Vec::new();
    let mut fused_args: Vec<Option<(u32, u32)>> = Vec::new();
    let mut w: usize = 0;
    while w < count
        invariant
            w <= count,
            count == ir.spec_wire_count(),
            fused_args@.len() == w,
            forall|j: int| 0 <= j < w ==> #[trigger] fused_args@[j] is None,
        decreases count - w,
    {
        fused_args.push(None);
        w = w + 1;
    }
    let mut k: usize = 0;
    while k < ir.assertions.len()
        invariant
            well_formed(ir),
            count == ir.spec_wire_count(),
            first_node_wire == ir.inputs@.len() + 1,
            node_used@.len() == count,
            assert_uses@.len() == count,
            forall|v: int| 0 <= v < count ==> (#[trigger] node_used@[v] <==> used_by_node(ir, v as u32)),
            forall|v: int| 0 <= v < count ==> #[trigger] assert_uses@[v] == assertion_uses(ir.assertions@, v as u32),
            k <= ir.assertions@.len(),
            per_assertion@.len() == k,
            fused_args@.len() == count,
            forall|j: int| 0 <= j < k ==> #[trigger] per_assertion@[j] == fusion_choice(ir, true, j),
            forall|v: int| 0 <= v < count ==> (#[trigger] fused_args@[v] is Some <==> exists|j: int|
                0 <= j < k && #[trigger] fused_at(ir, true, j, v as u32)),
            forall|v: int| 0 <= v < count ==> (#[trigger] fused_args@[v] matches Some((a0, a1)) ==> {
                &&& is_mul_wire(ir, v as u32)
                &&& a0 == ir.nodes@[node_index(ir, v as u32)].op.spec_args()[0]
                &&& a1 == ir.nodes@[node_index(ir, v as u32)].op.spec_args()[1]
            }),
        decreases ir.assertions@.len() - k,
    {
        let lhs = ir.assertions[k].lhs;
        let rhs = ir.assertions[k].rhs;
        let lhs_fusible = is_fusible(ir, &node_used, &assert_uses, first_node_wire, lhs);
        let rhs_fusible = is_fusible(ir, &node_used, &assert_uses, first_node_wire, rhs);
        let ghost before = fused_args@;
        // Prefer the left side; fall back to the right. Never fuse when both
        // sides are the same wire.
        if lhs != rhs && lhs_fusible {
            let node_args = ir.nodes[lhs as usize - first_node_wire].op.args();
            proof {
                assert(ir.node_ok(node_index(ir, lhs)));
            }
            per_assertion.push(Some((lhs, rhs)));
            fused_args.set(lhs as usize, Some((node_args[0], node_args[1])));
        } else if lhs != rhs && rhs_fusible {
            let node_args = ir.nodes[rhs as usize - first_node_wire].op.args();
            proof {
                assert(ir.node_ok(node_index(ir, rhs)));
            }
            per_assertion.push(Some((rhs, lhs)));
            fused_args.set(rhs as usize, Some((node_args[0], node_args[1])));
        } else {
            per_assertion.push(None);
        }
        proof {
            assert forall|v: int| 0 <= v < count implies (#[trigger] fused_args@[v] is Some <==> exists|j: int|
                0 <= j < k + 1 && #[trigger] fused_at(ir, true, j, v as u32)) by {
                if fused_args@[v] is Some && !(before[v] is Some) {
                    assert(fused_at(ir, true, k as int, v as u32));
                }
                if before[v] is Some {
                    let j = choose|j: int| 0 <= j < k && #[trigger] fused_at(ir, true, j, v as u32);
                    assert(0 <= j < k + 1);
                }
            }
        }
        k = k + 1;
    }
    FusedMuls { args: fused_args, per_assertion }
}

/// Whether `wire` is a fusible mul wire.
fn is_fusible(ir: &Ir, node_used: &Vec<bool>, assert_uses: &Vec<usize>, first_node_wire: usize, wire: u32) -> (r: bool)
    requires
        well_formed(ir),
        first_node_wire == ir.inputs@.len() + 1,
        node_used@.len() == ir.spec_wire_count(),
        assert_uses@.len() == ir.spec_wire_count(),
        forall|v: int| 0 <= v < ir.spec_wire_count() ==> (#[trigger] node_used@[v] <==> used_by_node(ir, v as u32)),
        forall|v: int| 0 <= v < ir.spec_wire_count() ==> #[trigger] assert_uses@[v] == assertion_uses(ir.assertions@, v as u32),
    ensures
        r == fusible(ir, wire),
{
    let w = wire as usize;
    if w < first_node_wire || w >= ir.wire_count() {
        return false;
    }
    let is_mul = match ir.nodes[w - first_node_wire].op {
        NodeOp::Mul { .. } => true,
        _ => false,
    };
    is_mul && !node_used[w] && assert_uses[w] == 1
}

/// Whether wire `w` is one of the two sides of assertion `k`.
pub open spec fn is_side(ir: &Ir, k: int, w: u32) -> bool {
    ir.assertions@[k].lhs == w || ir.assertions@[k].rhs == w
}

/// A wire that is a side of assertion `k` is used at least once.
proof fn lemma_uses_one(s: Seq<Assertion>, k: int, w: u32)
    requires
        0 <= k < s.len(),
        s[k].lhs == w || s[k].rhs == w,
    ensures
        assertion_uses(s, w) >= 1,
    decreases s.len(),
{
    if k < s.len() - 1 {
        assert(s.drop_last()[k] == s[k]);
        lemma_uses_one(s.drop_last(), k, w);
    }
}

/// A wire that is a side of two different assertions is used at least twice.
proof fn lemma_uses_two(s: Seq<Assertion>, k1: int, k2: int, w: u32)
    requires
        0 <= k1 < k2 < s.len(),
        s[k1].lhs == w || s[k1].rhs == w,
        s[k2].lhs == w || s[k2].rhs == w,
    ensures
        assertion_uses(s, w) >= 2,
    decreases s.len(),
{
    assert(s.drop_last()[k1] == s[k1]);
    if k2 == s.len() - 1 {
        lemma_uses_one(s.drop_last(), k1, w);
    } else {
        assert(s.drop_last()[k2] == s[k2]);
        lemma_uses_two(s.drop_last(), k1, k2, w);
    }
}

/// A folded wire is a fusible multiplication.
proof fn lemma_fused_fusible(ir: &Ir, fuse: bool, w: u32)
    requires
        is_fused(ir, fuse, w),
    ensures
        fusible(ir, w),
        exists|k: int| 0 <= k < ir.assertions@.len() && #[trigger] fused_at(ir, fuse, k, w) && is_side(ir, k, w),
{
    let k = choose|k: int| 0 <= k < ir.assertions@.len() && #[trigger] fused_at(ir, fuse, k, w);
    assert(fused_at(ir, fuse, k, w) && is_side(ir, k, w));
}

/// A folded wire that is a side of assertion `k` is folded into `k` itself:
/// it has exactly one use, so no other assertion can mention it.
proof fn lemma_fused_here(ir: &Ir, fuse: bool, k: int, w: u32)
    requires
        0 <= k < ir.assertions@.len(),
        is_side(ir, k, w),
        is_fused(ir, fuse, w),
    ensures
        fused_at(ir, fuse, k, w),
{
    lemma_fused_fusible(ir, fuse, w);
    let j = choose|j: int| 0 <= j < ir.assertions@.len() && #[trigger] fused_at(ir, fuse, j, w) && is_side(ir, j, w);
    if j < k {
        lemma_uses_two(ir.assertions@, j, k, w);
    } else if k < j {
        lemma_uses_two(ir.assertions@, k, j, w);
    }
}

/// No argument of a node is folded away: a fusible wire feeds no node.
proof fn lemma_arg_not_fused(ir: &Ir, fuse: bool, i: int, j: int)
    requires
        0 <= i < ir.nodes@.len(),
        0 <= j < ir.nodes@[i].op.spec_args().len(),
    ensures
        !is_fused(ir, fuse, ir.nodes@[i].op.spec_args()[j]),
{
    let w = ir.nodes@[i].op.spec_args()[j];
    if is_fused(ir, fuse, w) {
        lemma_fused_fusible(ir, fuse, w);
        assert(used_by_node(ir, w));
    }
}

/// Whether node `node` allocates a variable: every hint, and every
/// multiplication that is not folded into an assertion.
pub open spec fn allocates(ir: &Ir, fuse: bool, node: crate::ir::Node) -> bool {
    node.op is Hint || (node.op is Mul && !is_fused(ir, fuse, node.wire))
}

/// Variable 0 (the constant one) followed by one variable per input, in
/// declaration order.
pub open spec fn input_vars(ir: &Ir) -> Seq<Option<u32>> {
    Seq::new(
        ir.inputs@.len() + 1,
        |v: int|
            if v == 0 {
                None
            } else {
                Some(ir.inputs@[v - 1].wire)
            },
    )
}

/// The wires of the variables the first `n` nodes allocate, in node order.
pub open spec fn node_vars(ir: &Ir, fuse: bool, n: nat) -> Seq<Option<u32>>
    decreases n,
{
    if n == 0 {
        Seq::empty()
    } else {
        let rest = node_vars(ir, fuse, (n - 1) as nat);
        let node = ir.nodes@[n - 1];
        if allocates(ir, fuse, node) {
            rest.push(Some(node.wire))
        } else {
            rest
        }
    }
}

/// How many rank-1 constraints the first `n` nodes emit: one per
/// multiplication that is not folded into an assertion.
pub open spec fn mul_constraints(ir: &Ir, fuse: bool, n: nat) -> nat
    decreases n,
{
    if n == 0 {
        0
    } else {
        let node = ir.nodes@[n - 1];
        mul_constraints(ir, fuse, (n - 1) as nat) + (if node.op is Mul && !is_fused(ir, fuse, node.wire) {
            1nat
        } else {
            0nat
        })
    }
}

/// The variables of the public inputs, in declaration order (input `i` is
/// variable `i + 1`).
pub open spec fn public_var_indices(inputs: Seq<crate::ir::Input>) -> Seq<usize>
    decreases inputs.len(),
{
    if inputs.len() == 0 {
        Seq::empty()
    } else {
        let rest = public_var_indices(inputs.drop_last());
        if inputs.last().visibility.spec_is_public() {
            rest.push(inputs.len() as usize)
        } else {
            rest
        }
    }
}

/// The constraint system accepts the assignment induced by wire values that
/// obey the circuit's meaning exactly when every assertion holds of them.
pub open spec fn faithful<F: ZkField>(ir: &Ir, cs: R1cs<F>) -> bool {
    forall|values: Seq<F>| wire_values_ok(ir, values) ==> (#[trigger] cs.spec_is_satisfied(cs.spec_assignment(values))
        <==> assertions_hold(ir, values))
}

/// What a lowering produces: the variables (the constant one, the inputs in
/// order, then one per hint and per unfolded multiplication in node order),
/// the public variables, one constraint per unfolded multiplication plus one
/// per assertion, all reading allocated variables only, and a system that is
/// faithful to the circuit.
pub open spec fn lowered<F: ZkField>(ir: &Ir, fuse: bool, cs: R1cs<F>) -> bool {
    &&& cs.var_to_wire@ == input_vars(ir) + node_vars(ir, fuse, ir.nodes@.len())
    &&& cs.num_vars == cs.var_to_wire@.len()
    &&& cs.public_vars@ == public_var_indices(ir.inputs@)
    &&& cs.constraints@.len() == mul_constraints(ir, fuse, ir.nodes@.len()) + ir.assertions@.len()
    &&& cs.reads_within(cs.num_vars as nat)
    &&& faithful(ir, cs)
    &&& forall|k: int| 0 <= k < ir.assertions@.len() ==> (#[trigger] cs.constraints@[mul_constraints(ir, fuse, ir.nodes@.len()) + k]).origin@
        == assertion_origin(ir.assertions@[k])
}

/// Where an assertion's constraint comes from, in the user's words:
/// `line N: label`.
pub open spec fn assertion_origin(assertion: Assertion) -> Seq<char> {
    "line "@ + crate::goldilocks::nat_to_decimal(assertion.line as nat) + ": "@ + assertion.label@
}

/// Wires below `limit` that are not folded away hold combinations whose
/// value, under the induced assignment, is the wire's value.
spec fn lcs_track<F: ZkField>(ir: &Ir, fuse: bool, lcs: Seq<Lc<F>>, vtw: Seq<Option<u32>>, limit: int) -> bool {
    forall|values: Seq<F>, w: int|
        wire_values_ok(ir, values) && 0 <= w < limit && !is_fused(ir, fuse, w as u32)
            ==> #[trigger] lcs[w].spec_eval(assignment_of(vtw, values)) == values[w]
}

/// The constraints accept the induced assignment of lawful wire values
/// exactly when the first `n` assertions hold.
spec fn constraints_match<F: ZkField>(ir: &Ir, cs: Seq<Constraint<F>>, vtw: Seq<Option<u32>>, n: int) -> bool {
    forall|values: Seq<F>| wire_values_ok(ir, values) ==> (#[trigger] all_hold(cs, assignment_of(vtw, values))
        <==> assertions_hold_upto(ir, values, n))
}

proof fn lemma_assign_push<F: ZkField>(vtw: Seq<Option<u32>>, values: Seq<F>, w: u32)
    ensures
        assignment_of(vtw.push(Some(w)), values) == assignment_of(vtw, values).push(values[w as int]),
{
    assert(assignment_of(vtw.push(Some(w)), values) =~= assignment_of(vtw, values).push(values[w as int]));
}

/// Allocating a variable keeps every tracked combination's value.
proof fn lemma_track_push<F: ZkField>(ir: &Ir, fuse: bool, lcs: Seq<Lc<F>>, vtw: Seq<Option<u32>>, limit: int, w_new: u32)
    requires
        lcs_track(ir, fuse, lcs, vtw, limit),
        limit <= lcs.len(),
        forall|j: int| 0 <= j < lcs.len() ==> vars_below((#[trigger] lcs[j]).terms@, vtw.len()),
    ensures
        lcs_track(ir, fuse, lcs, vtw.push(Some(w_new)), limit),
{
    assert forall|values: Seq<F>, w: int|
        wire_values_ok(ir, values) && 0 <= w < limit && !is_fused(ir, fuse, w as u32)
        implies #[trigger] lcs[w].spec_eval(assignment_of(vtw.push(Some(w_new)), values)) == values[w] by {
        lemma_assign_push(vtw, values, w_new);
        assert(lcs[w].spec_eval(assignment_of(vtw, values)) == values[w]);
        lemma_eval_push(lcs[w].terms@, assignment_of(vtw, values), values[w_new as int]);
    }
}

/// Allocating a variable keeps every constraint's verdict.
proof fn lemma_match_push<F: ZkField>(ir: &Ir, cs: Seq<Constraint<F>>, vtw: Seq<Option<u32>>, n: int, w_new: u32)
    requires
        constraints_match(ir, cs, vtw, n),
        forall|j: int| 0 <= j < cs.len() ==> (#[trigger] cs[j]).reads_within(vtw.len()),
    ensures
        constraints_match(ir, cs, vtw.push(Some(w_new)), n),
{
    assert forall|values: Seq<F>| wire_values_ok(ir, values) implies (#[trigger] all_hold(cs, assignment_of(vtw.push(Some(w_new)), values))
        <==> assertions_hold_upto(ir, values, n)) by {
        let z = assignment_of(vtw, values);
        let x = values[w_new as int];
        lemma_assign_push(vtw, values, w_new);
        assert forall|j: int| 0 <= j < cs.len() implies (#[trigger] cs[j].holds(z.push(x)) == cs[j].holds(z)) by {
            assert(cs[j].reads_within(vtw.len()));
            lemma_eval_push(cs[j].a.terms@, z, x);
            lemma_eval_push(cs[j].b.terms@, z, x);
            lemma_eval_push(cs[j].c.terms@, z, x);
        }
        if all_hold(cs, z.push(x)) {
            assert forall|j: int| 0 <= j < cs.len() implies #[trigger] cs[j].holds(z) by {
                assert(cs[j].holds(z.push(x)));
            }
        }
        if all_hold(cs, z) {
            assert forall|j: int| 0 <= j < cs.len() implies #[trigger] cs[j].holds(z.push(x)) by {
                assert(cs[j].holds(z));
            }
        }
    }
}

/// Appending a constraint that `holds` exactly when `extra` does.
proof fn lemma_all_hold_push<F: ZkField>(cs: Seq<Constraint<F>>, c: Constraint<F>, z: Seq<F>)
    ensures
        all_hold(cs.push(c), z) <==> (all_hold(cs, z) && c.holds(z)),
{
    if all_hold(cs.push(c), z) {
        assert(cs.push(c)[cs.len() as int] == c);
        assert forall|j: int| 0 <= j < cs.len() implies #[trigger] cs[j].holds(z) by {
            assert(cs.push(c)[j] == cs[j]);
        }
    }
    if all_hold(cs, z) && c.holds(z) {
        assert forall|j: int| 0 <= j < cs.len() + 1 implies #[trigger] cs.push(c)[j].holds(z) by {
            if j < cs.len() {
                assert(cs.push(c)[j] == cs[j]);
            }
        }
    }
}

/// Setting the combination of wire `limit` extends the tracked range.
proof fn lemma_track_set<F: ZkField>(ir: &Ir, fuse: bool, lcs: Seq<Lc<F>>, vtw: Seq<Option<u32>>, limit: int, lc: Lc<F>)
    requires
        lcs_track(ir, fuse, lcs, vtw, limit),
        0 <= limit < lcs.len(),
        is_fused(ir, fuse, limit as u32) || forall|values: Seq<F>| wire_values_ok(ir, values)
            ==> #[trigger] lc.spec_eval(assignment_of(vtw, values)) == values[limit],
    ensures
        lcs_track(ir, fuse, lcs.update(limit, lc), vtw, limit + 1),
{
    assert forall|values: Seq<F>, w: int|
        wire_values_ok(ir, values) && 0 <= w < limit + 1 && !is_fused(ir, fuse, w as u32)
        implies #[trigger] lcs.update(limit, lc)[w].spec_eval(assignment_of(vtw, values)) == values[w] by {
        if w < limit {
            assert(lcs[w].spec_eval(assignment_of(vtw, values)) == values[w]);
        } else {
            assert(lc.spec_eval(assignment_of(vtw, values)) == values[limit]);
        }
    }
}

/// A fresh variable holding wire `w` evaluates to that wire's value.
proof fn lemma_var_value<F: ZkField>(ir: &Ir, vtw: Seq<Option<u32>>, values: Seq<F>, w: u32)
    requires
        wire_values_ok(ir, values),
        w < values.len(),
        vtw.len() < usize::MAX,
    ensures
        terms_eval(seq![(vtw.len() as usize, F::spec_one())], assignment_of(vtw.push(Some(w)), values)) == values[w as int],
{
    let z = assignment_of(vtw.push(Some(w)), values);
    assert(z[vtw.len() as int] == values[w as int]);
    lemma_basics(F::spec_one(), F::spec_one());
    lemma_eval_single(vtw.len() as usize, F::spec_one(), z);
    lemma_mul_comm(F::spec_one(), values[w as int]);
    lemma_basics(values[w as int], F::spec_one());
}

/// A constant combination evaluates to its constant when variable 0 is one.
proof fn lemma_constant_value<F: ZkField>(terms: Seq<(usize, F)>, c: F, z: Seq<F>)
    requires
        c.wf(),
        z.len() >= 1,
        z[0] == F::spec_one(),
        terms == (if c == F::spec_zero() {
            Seq::<(usize, F)>::empty()
        } else {
            seq![(0usize, c)]
        }),
    ensures
        terms_eval(terms, z) == c,
{
    lemma_basics(c, c);
    lemma_eval_single(0usize, c, z);
}

/// Lower with multiplicative-assertion fusion enabled (the default).
pub fn lower<F: ZkField>(ir: &Ir) -> (r: Result<R1cs<F>, String>)
    requires
        well_formed(ir),
        ir.assertions@.len() * 2 <= usize::MAX,
    ensures
        r is Ok <==> consts_parse(ir),
        r matches Ok(cs) ==> lowered(ir, true, cs),
{
    lower_with(ir, true)
}

/// Lower, optionally without fusion. `fuse = false` reproduces the unfused
/// lowering exactly, which is what pins the fusion win to a number.
#[verifier::rlimit(40)]
pub fn lower_with<F: ZkField>(ir: &Ir, fuse: bool) -> (r: Result<R1cs<F>, String>)
    requires
        well_formed(ir),
        ir.assertions@.len() * 2 <= usize::MAX,
    ensures
        r is Ok <==> consts_parse(ir),
        r matches Ok(cs) ==> lowered(ir, fuse, cs),
{
    let fused = if fuse {
        find_fusible(ir)
    } else {
        FusedMuls::none(ir)
    };
    let count = ir.wire_count();
    let mut lcs: Vec<Lc<F>> = Vec::new();
    let mut w: usize = 0;
    while w < count
        invariant
            w <= count,
            count == ir.spec_wire_count(),
            lcs@.len() == w,
            forall|j: int| 0 <= j < w ==> (#[trigger] lcs@[j]).normal() && lcs@[j].terms@.len() == 0,
        decreases count - w,
    {
        lcs.push(Lc::zero());
        w = w + 1;
    }
    let mut constraints: Vec<Constraint<F>> = Vec::new();
    let mut public_vars: Vec<usize> = Vec::new();
    // Variable 0 is the constant one and holds no wire.
    let mut var_to_wire: Vec<Option<u32>> = Vec::new();
    var_to_wire.push(None);
    proof {
        lemma_basics(F::spec_one(), F::spec_one());
    }
    let one_lc = Lc::constant(F::one());
    proof {
        assert forall|values: Seq<F>| wire_values_ok(ir, values)
            implies #[trigger] one_lc.spec_eval(assignment_of(var_to_wire@, values)) == values[0] by {
            lemma_constant_value(one_lc.terms@, F::spec_one(), assignment_of(var_to_wire@, values));
        }
        lemma_track_set(ir, fuse, lcs@, var_to_wire@, 0, one_lc);
    }
    lcs.set(0, one_lc);
    proof {
        assert forall|values: Seq<F>| wire_values_ok(ir, values) implies (#[trigger] all_hold(constraints@, assignment_of(var_to_wire@, values))
            <==> assertions_hold_upto(ir, values, 0)) by {}
    }

    let mut i: usize = 0;
    while i < ir.inputs.len()
        invariant
            well_formed(ir),
            count == ir.spec_wire_count(),
            lcs@.len() == count,
            i <= ir.inputs@.len(),
            var_to_wire@ == input_vars(ir).subrange(0, i as int + 1),
            public_vars@ == public_var_indices(ir.inputs@.subrange(0, i as int)),
            forall|j: int| 0 <= j < count ==> (#[trigger] lcs@[j]).normal() && vars_below(lcs@[j].terms@, var_to_wire@.len() as nat),
            lcs_track(ir, fuse, lcs@, var_to_wire@, i as int + 1),
            constraints@.len() == 0,
            constraints_match(ir, constraints@, var_to_wire@, 0),
        decreases ir.inputs@.len() - i,
    {
        let input = &ir.inputs[i];
        let var = var_to_wire.len();
        proof {
            lemma_track_push(ir, fuse, lcs@, var_to_wire@, i as int + 1, input.wire);
            lemma_match_push(ir, constraints@, var_to_wire@, 0, input.wire);
        }
        var_to_wire.push(Some(input.wire));
        let ghost prefix = ir.inputs@.subrange(0, i as int);
        let ghost next = ir.inputs@.subrange(0, i as int + 1);
        assert(next.drop_last() =~= prefix);
        assert(var_to_wire@ =~= input_vars(ir).subrange(0, i as int + 2));
        if input.visibility.is_public() {
            public_vars.push(var);
        }
        let lc = Lc::var(var);
        proof {
            assert forall|values: Seq<F>| wire_values_ok(ir, values)
                implies #[trigger] lc.spec_eval(assignment_of(var_to_wire@, values)) == values[i as int + 1] by {
                lemma_var_value(ir, var_to_wire@.drop_last(), values, input.wire);
                assert(var_to_wire@.drop_last().push(Some(input.wire)) == var_to_wire@);
            }
            lemma_track_set(ir, fuse, lcs@, var_to_wire@, i as int + 1, lc);
        }
        lcs.set(input.wire as usize, lc);
        i = i + 1;
    }
    assert(ir.inputs@.subrange(0, ir.inputs@.len() as int) =~= ir.inputs@);
    assert(input_vars(ir).subrange(0, ir.inputs@.len() as int + 1) =~= input_vars(ir));
    assert(node_vars(ir, fuse, 0) =~= Seq::<Option<u32>>::empty());
    assert(var_to_wire@ =~= input_vars(ir) + node_vars(ir, fuse, 0));

    let mut k: usize = 0;
    while k < ir.nodes.len()
        invariant
            well_formed(ir),
            count == ir.spec_wire_count(),
            fused.matches(ir, fuse),
            lcs@.len() == count,
            k <= ir.nodes@.len(),
            var_to_wire@ == input_vars(ir) + node_vars(ir, fuse, k as nat),
            var_to_wire@.len() <= 1 + ir.inputs@.len() + k,
            forall|v: int| 1 <= v < var_to_wire@.len() ==> (#[trigger] var_to_wire@[v] matches Some(w) && w < count),
            public_vars@ == public_var_indices(ir.inputs@),
            forall|j: int| 0 <= j < count ==> (#[trigger] lcs@[j]).normal() && vars_below(lcs@[j].terms@, var_to_wire@.len() as nat),
            forall|j: int| 0 <= j < constraints@.len() ==> (#[trigger] constraints@[j]).reads_within(var_to_wire@.len() as nat),
            constraints@.len() == mul_constraints(ir, fuse, k as nat),
            forall|j: int| 0 <= j < k ==> (#[trigger] ir.nodes@[j].op matches NodeOp::Const { value } ==> is_decimal_text(encode_utf8(value@))),
            lcs_track(ir, fuse, lcs@, var_to_wire@, ir.inputs@.len() + 1 + k),
            constraints_match(ir, constraints@, var_to_wire@, 0),
        decreases ir.nodes@.len() - k,
    {
        let node = &ir.nodes[k];
        let ghost limit: int = ir.inputs@.len() + 1 + k;
        proof {
            assert(ir.node_ok(k as int));
            assert(node.wire == limit);
        }
        let a = node.op.args();
        proof {
            assert forall|j: int| 0 <= j < a@.len() implies !is_fused(ir, fuse, #[trigger] a@[j]) && a@[j] < limit by {
                lemma_arg_not_fused(ir, fuse, k as int, j);
            }
        }
        let lc = match &node.op {
            NodeOp::Const { value } => {
                let parsed = F::from_decimal(value.as_str());
                match parsed {
                    Ok(c) => {
                        proof {
                            F::lemma_decimal_wf(encode_utf8(value@));
                        }
                        let r = Lc::constant(c);
                        proof {
                            assert forall|values: Seq<F>| wire_values_ok(ir, values)
                                implies #[trigger] r.spec_eval(assignment_of(var_to_wire@, values)) == values[limit] by {
                                assert(node_relation(ir.nodes@[k as int].op, values, values[ir.nodes@[k as int].wire as int]));
                                lemma_constant_value(r.terms@, c, assignment_of(var_to_wire@, values));
                            }
                        }
                        r
                    },
                    Err(e) => {
                        proof {
                            assert(!(ir.nodes@[k as int].op matches NodeOp::Const { value } ==> is_decimal_text(encode_utf8(value@))));
                        }
                        return Err(e);
                    },
                }
            },
            NodeOp::Add { .. } => {
                let r = lcs[a[0] as usize].add(&lcs[a[1] as usize]);
                proof {
                    lemma_vars_below_union(r.terms@, lcs@[a[0] as int].terms@, lcs@[a[1] as int].terms@, var_to_wire@.len() as nat);
                    assert forall|values: Seq<F>| wire_values_ok(ir, values)
                        implies #[trigger] r.spec_eval(assignment_of(var_to_wire@, values)) == values[limit] by {
                        let z = assignment_of(var_to_wire@, values);
                        assert(node_relation(ir.nodes@[k as int].op, values, values[ir.nodes@[k as int].wire as int]));
                        assert(lcs@[a@[0] as int].spec_eval(z) == values[a@[0] as int]);
                        assert(lcs@[a@[1] as int].spec_eval(z) == values[a@[1] as int]);
                    }
                }
                r
            },
            NodeOp::Sub { .. } => {
                let r = lcs[a[0] as usize].sub(&lcs[a[1] as usize]);
                proof {
                    lemma_vars_below_union(r.terms@, lcs@[a[0] as int].terms@, lcs@[a[1] as int].terms@, var_to_wire@.len() as nat);
                    assert forall|values: Seq<F>| wire_values_ok(ir, values)
                        implies #[trigger] r.spec_eval(assignment_of(var_to_wire@, values)) == values[limit] by {
                        let z = assignment_of(var_to_wire@, values);
                        assert(node_relation(ir.nodes@[k as int].op, values, values[ir.nodes@[k as int].wire as int]));
                        assert(lcs@[a@[0] as int].spec_eval(z) == values[a@[0] as int]);
                        assert(lcs@[a@[1] as int].spec_eval(z) == values[a@[1] as int]);
                    }
                }
                r
            },
            NodeOp::Neg { .. } => {
                proof {
                    lemma_basics(F::spec_one(), F::spec_one());
                }
                let r = lcs[a[0] as usize].scale(F::one().neg());
                proof {
                    lemma_vars_below_union(r.terms@, lcs@[a[0] as int].terms@, lcs@[a[0] as int].terms@, var_to_wire@.len() as nat);
                    assert forall|values: Seq<F>| wire_values_ok(ir, values)
                        implies #[trigger] r.spec_eval(assignment_of(var_to_wire@, values)) == values[limit] by {
                        let z = assignment_of(var_to_wire@, values);
                        let x = values[a@[0] as int];
                        assert(node_relation(ir.nodes@[k as int].op, values, values[ir.nodes@[k as int].wire as int]));
                        assert(lcs@[a@[0] as int].spec_eval(z) == x);
                        lemma_neg_is_times_minus_one(x);
                        lemma_mul_comm(F::spec_one().spec_neg(), x);
                    }
                }
                r
            },
            NodeOp::Mul { .. } => {
                if fused.contains(node.wire) {
                    // Fused: this mul feeds exactly one assertion and nothing
                    // else; the assertion emits `a * b = other_side` in its
                    // place, and the wire's combination is never read.
                    Lc::zero()
                } else {
                    // The only IR node that inherently costs a constraint.
                    let var = var_to_wire.len();
                    proof {
                        lemma_track_push(ir, fuse, lcs@, var_to_wire@, limit, node.wire);
                        lemma_match_push(ir, constraints@, var_to_wire@, 0, node.wire);
                    }
                    let ghost before = var_to_wire@;
                    var_to_wire.push(Some(node.wire));
                    let out = Lc::var(var);
                    let c = Constraint {
                        a: lcs[a[0] as usize].clone_lc(),
                        b: lcs[a[1] as usize].clone_lc(),
                        c: Lc::var(var),
                        origin: msg_multiplication(node.wire),
                    };
                    proof {
                        assert forall|values: Seq<F>| wire_values_ok(ir, values)
                            implies #[trigger] out.spec_eval(assignment_of(var_to_wire@, values)) == values[limit] by {
                            lemma_var_value(ir, before, values, node.wire);
                        }
                        assert forall|values: Seq<F>| wire_values_ok(ir, values)
                            implies #[trigger] c.holds(assignment_of(var_to_wire@, values)) by {
                            let z = assignment_of(var_to_wire@, values);
                            lemma_var_value(ir, before, values, node.wire);
                            assert(node_relation(ir.nodes@[k as int].op, values, values[ir.nodes@[k as int].wire as int]));
                            assert(lcs@[a@[0] as int].spec_eval(z) == values[a@[0] as int]);
                            assert(lcs@[a@[1] as int].spec_eval(z) == values[a@[1] as int]);
                        }
                        assert forall|values: Seq<F>| wire_values_ok(ir, values) implies (#[trigger] all_hold(constraints@.push(c), assignment_of(var_to_wire@, values))
                            <==> assertions_hold_upto(ir, values, 0)) by {
                            lemma_all_hold_push(constraints@, c, assignment_of(var_to_wire@, values));
                        }
                    }
                    constraints.push(c);
                    out
                }
            },
            NodeOp::Hint { .. } => {
                // A free variable: the prover picks it. No constraint here —
                // that is the whole point, and the whole danger.
                let var = var_to_wire.len();
                proof {
                    lemma_track_push(ir, fuse, lcs@, var_to_wire@, limit, node.wire);
                    lemma_match_push(ir, constraints@, var_to_wire@, 0, node.wire);
                }
                let ghost before = var_to_wire@;
                var_to_wire.push(Some(node.wire));
                let out = Lc::var(var);
                proof {
                    assert forall|values: Seq<F>| wire_values_ok(ir, values)
                        implies #[trigger] out.spec_eval(assignment_of(var_to_wire@, values)) == values[limit] by {
                        lemma_var_value(ir, before, values, node.wire);
                    }
                }
                out
            },
        };
        proof {
            lemma_track_set(ir, fuse, lcs@, var_to_wire@, limit, lc);
            assert(var_to_wire@ =~= input_vars(ir) + node_vars(ir, fuse, k as nat + 1));
        }
        lcs.set(node.wire as usize, lc);
        k = k + 1;
    }

    let mut index: usize = 0;
    while index < ir.assertions.len()
        invariant
            well_formed(ir),
            count == ir.spec_wire_count(),
            fused.matches(ir, fuse),
            lcs@.len() == count,
            index <= ir.assertions@.len(),
            var_to_wire@ == input_vars(ir) + node_vars(ir, fuse, ir.nodes@.len()),
            forall|v: int| 1 <= v < var_to_wire@.len() ==> (#[trigger] var_to_wire@[v] matches Some(w) && w < count),
            public_vars@ == public_var_indices(ir.inputs@),
            forall|j: int| 0 <= j < count ==> (#[trigger] lcs@[j]).normal() && vars_below(lcs@[j].terms@, var_to_wire@.len() as nat),
            forall|j: int| 0 <= j < constraints@.len() ==> (#[trigger] constraints@[j]).reads_within(var_to_wire@.len() as nat),
            consts_parse(ir),
            constraints@.len() == mul_constraints(ir, fuse, ir.nodes@.len()) + index,
            lcs_track(ir, fuse, lcs@, var_to_wire@, count as int),
            constraints_match(ir, constraints@, var_to_wire@, index as int),
            forall|k: int| 0 <= k < index ==> (#[trigger] constraints@[mul_constraints(ir, fuse, ir.nodes@.len()) + k]).origin@
                == assertion_origin(ir.assertions@[k]),
        decreases ir.assertions@.len() - index,
    {
        let assertion = &ir.assertions[index];
        let ghost lhs = assertion.lhs;
        let ghost rhs = assertion.rhs;
        proof {
            assert(lhs < count && rhs < count);
        }
        let c = match fused.side_for(index) {
            // One side is a fused mul: emit `a * b = other_side` directly.
            Some((mul_wire, other_wire)) => {
                proof {
                    assert(fused_at(ir, fuse, index as int, mul_wire));
                    assert(is_fused(ir, fuse, mul_wire));
                    if is_fused(ir, fuse, other_wire) {
                        lemma_fused_here(ir, fuse, index as int, other_wire);
                    }
                    assert(ir.node_ok(node_index(ir, mul_wire)));
                }
                let (arg0, arg1) = fused.args[mul_wire as usize].unwrap();
                proof {
                    lemma_arg_not_fused(ir, fuse, node_index(ir, mul_wire), 0);
                    lemma_arg_not_fused(ir, fuse, node_index(ir, mul_wire), 1);
                }
                let c = Constraint {
                    a: lcs[arg0 as usize].clone_lc(),
                    b: lcs[arg1 as usize].clone_lc(),
                    c: lcs[other_wire as usize].clone_lc(),
                    origin: msg_assertion(assertion.line, &assertion.label),
                };
                proof {
                    assert forall|values: Seq<F>| wire_values_ok(ir, values)
                        implies (#[trigger] c.holds(assignment_of(var_to_wire@, values)) <==> values[lhs as int] == values[rhs as int]) by {
                        let z = assignment_of(var_to_wire@, values);
                        let i = node_index(ir, mul_wire);
                        assert(node_relation(ir.nodes@[i].op, values, values[ir.nodes@[i].wire as int]));
                        assert(lcs@[arg0 as int].spec_eval(z) == values[arg0 as int]);
                        assert(lcs@[arg1 as int].spec_eval(z) == values[arg1 as int]);
                        assert(lcs@[other_wire as int].spec_eval(z) == values[other_wire as int]);
                        assert(ir.nodes@[i].op is Mul);
                        assert(ir.nodes@[i].wire == mul_wire);
                        assert(arg0 == ir.nodes@[i].op.spec_args()[0]);
                        assert(arg1 == ir.nodes@[i].op.spec_args()[1]);
                        assert(values[mul_wire as int] == values[arg0 as int].spec_mul(values[arg1 as int]));
                        assert(c.holds(z) <==> values[mul_wire as int] == values[other_wire as int]);
                        assert((mul_wire == lhs && other_wire == rhs) || (mul_wire == rhs && other_wire == lhs));
                    }
                }
                c
            },
            // No fusion: the honest `(l - r) * 1 = 0`.
            None => {
                proof {
                    if is_fused(ir, fuse, lhs) {
                        lemma_fused_here(ir, fuse, index as int, lhs);
                    }
                    if is_fused(ir, fuse, rhs) {
                        lemma_fused_here(ir, fuse, index as int, rhs);
                    }
                }
                let difference = lcs[assertion.lhs as usize].sub(&lcs[assertion.rhs as usize]);
                proof {
                    lemma_vars_below_union(difference.terms@, lcs@[lhs as int].terms@, lcs@[rhs as int].terms@, var_to_wire@.len() as nat);
                    lemma_basics(F::spec_one(), F::spec_one());
                }
                let c = Constraint {
                    a: difference,
                    b: Lc::constant(F::one()),
                    c: Lc::zero(),
                    origin: msg_assertion(assertion.line, &assertion.label),
                };
                proof {
                    assert forall|values: Seq<F>| wire_values_ok(ir, values)
                        implies (#[trigger] c.holds(assignment_of(var_to_wire@, values)) <==> values[lhs as int] == values[rhs as int]) by {
                        let z = assignment_of(var_to_wire@, values);
                        assert(lcs@[lhs as int].spec_eval(z) == values[lhs as int]);
                        assert(lcs@[rhs as int].spec_eval(z) == values[rhs as int]);
                        let d = values[lhs as int].spec_sub(values[rhs as int]);
                        assert(var_to_wire@[0] == input_vars(ir)[0]);
                        assert(z[0] == F::spec_one());
                        lemma_constant_value(c.b.terms@, F::spec_one(), z);
                        assert(c.a.spec_eval(z) == d);
                        assert(c.b.spec_eval(z) == F::spec_one());
                        assert(c.c.spec_eval(z) == F::spec_zero());
                        lemma_basics(values[lhs as int], values[rhs as int]);
                        lemma_basics(d, d);
                        lemma_sub_zero_iff(values[lhs as int], values[rhs as int]);
                    }
                }
                c
            },
        };
        proof {
            assert forall|values: Seq<F>| wire_values_ok(ir, values) implies (#[trigger] all_hold(constraints@.push(c), assignment_of(var_to_wire@, values))
                <==> assertions_hold_upto(ir, values, index as int + 1)) by {
                lemma_all_hold_push(constraints@, c, assignment_of(var_to_wire@, values));
                assert(c.holds(assignment_of(var_to_wire@, values)) <==> values[lhs as int] == values[rhs as int]);
                assert(all_hold(constraints@, assignment_of(var_to_wire@, values)) <==> assertions_hold_upto(ir, values, index as int));
                if assertions_hold_upto(ir, values, index as int + 1) {
                    assert(values[ir.assertions@[index as int].lhs as int] == values[ir.assertions@[index as int].rhs as int]);
                }
            }
        }
        let ghost before = constraints@;
        constraints.push(c);
        proof {
            let m0 = mul_constraints(ir, fuse, ir.nodes@.len());
            assert(c.origin@ == assertion_origin(ir.assertions@[index as int]));
            assert forall|k: int| 0 <= k < index + 1 implies (#[trigger] constraints@[m0 + k]).origin@ == assertion_origin(ir.assertions@[k]) by {
                if k < index {
                    assert(constraints@[m0 + k] == before[m0 + k]);
                }
            }
        }
        index = index + 1;
    }

    let cs = R1cs { num_vars: var_to_wire.len(), constraints, public_vars, var_to_wire };
    proof {
        assert forall|values: Seq<F>| wire_values_ok(ir, values) implies (#[trigger] cs.spec_is_satisfied(cs.spec_assignment(values))
            <==> assertions_hold(ir, values)) by {
            assert(all_hold(cs.constraints@, assignment_of(cs.var_to_wire@, values)) <==> assertions_hold_upto(ir, values, ir.assertions@.len() as int));
        }
    }
    Ok(cs)
}

/// Without fusion nothing is folded away.
proof fn lemma_unfused_none(ir: &Ir, w: u32)
    ensures
        !is_fused(ir, false, w),
{
    if is_fused(ir, false, w) {
        let k = choose|k: int| 0 <= k < ir.assertions@.len() && #[trigger] fused_at(ir, false, k, w);
    }
}

proof fn lemma_mul_constraints_le(ir: &Ir, n: nat)
    requires
        n <= ir.nodes@.len(),
    ensures
        mul_constraints(ir, true, n) <= mul_constraints(ir, false, n),
    decreases n,
{
    if n > 0 {
        lemma_mul_constraints_le(ir, (n - 1) as nat);
        lemma_unfused_none(ir, ir.nodes@[n - 1].wire);
    }
}

/// An honestly solved witness satisfies the lowered constraint system exactly
/// when every assertion of the circuit holds of it.
pub proof fn law_solved_witness_satisfies<F: ZkField>(
    ir: &Ir,
    fuse: bool,
    cs: R1cs<F>,
    inputs: Seq<(String, F)>,
    overrides: Seq<(String, F)>,
)
    requires
        well_formed(ir),
        lowered(ir, fuse, cs),
        entries_wf(inputs),
        entries_wf(overrides),
        solved(ir, inputs, overrides) is Some,
    ensures
        cs.spec_is_satisfied(cs.spec_assignment(solved(ir, inputs, overrides)->0))
            <==> assertions_hold(ir, solved(ir, inputs, overrides)->0),
{
    lemma_solved_values_ok(ir, inputs, overrides);
}

/// Fusion never changes an outcome: the fused and the unfused lowering of a
/// circuit accept exactly the same lawful wire values.
pub proof fn law_fusion_preserves_satisfiability<F: ZkField>(
    ir: &Ir,
    fused: R1cs<F>,
    unfused: R1cs<F>,
    values: Seq<F>,
)
    requires
        lowered(ir, true, fused),
        lowered(ir, false, unfused),
        wire_values_ok(ir, values),
    ensures
        fused.spec_is_satisfied(fused.spec_assignment(values)) <==> unfused.spec_is_satisfied(
            unfused.spec_assignment(values),
        ),
{
    assert(fused.spec_is_satisfied(fused.spec_assignment(values)) <==> assertions_hold(ir, values));
    assert(unfused.spec_is_satisfied(unfused.spec_assignment(values)) <==> assertions_hold(ir, values));
}

/// Fusion never costs a constraint or a variable.
pub proof fn law_fusion_never_costs_more<F: ZkField>(ir: &Ir, fused: R1cs<F>, unfused: R1cs<F>)
    requires
        lowered(ir, true, fused),
        lowered(ir, false, unfused),
    ensures
        fused.constraints@.len() <= unfused.constraints@.len(),
        fused.num_vars <= unfused.num_vars,
{
    lemma_mul_constraints_le(ir, ir.nodes@.len());
    lemma_node_vars_le(ir, ir.nodes@.len());
}

proof fn lemma_node_vars_le(ir: &Ir, n: nat)
    requires
        n <= ir.nodes@.len(),
    ensures
        node_vars(ir, true, n).len() <= node_vars(ir, false, n).len(),
    decreases n,
{
    if n > 0 {
        lemma_node_vars_le(ir, (n - 1) as nat);
        lemma_unfused_none(ir, ir.nodes@[n - 1].wire);
    }
}

/// `format!` of a multiplication constraint's origin; the text is not
/// specified.
#[verifier::external_body]
fn msg_multiplication(wire: u32) -> String {
    format!("multiplication at wire {}", wire)
}

/// `format!` of an assertion's origin, `line N: label`: `std`'s formatting
/// writes the literal pieces, the line in decimal and the label itself.
#[verifier::external_body]
fn msg_assertion(line: u32, label: &String) -> (r: String)
    ensures
        r@ == "line "@ + crate::goldilocks::nat_to_decimal(line as nat) + ": "@ + label@,
{
    format!("line {}: {}", line, label)
}


/// What the public variable list says of the inputs it comes from: each
/// entry is the variable `i + 1` of a public input `i`, in increasing order,
/// every public input has one, and the `k`-th holds the `k`-th public wire.
proof fn lemma_public_var_indices(inputs: Seq<crate::ir::Input>)
    requires
        inputs.len() <= usize::MAX,
    ensures
        ({
            let pv = public_var_indices(inputs);
            &&& pv.len() == crate::plonkish::public_wires(inputs).len()
            &&& forall|k: int|
                0 <= k < pv.len() ==> {
                    &&& 1 <= #[trigger] pv[k] <= inputs.len()
                    &&& inputs[pv[k] - 1].visibility.spec_is_public()
                    &&& inputs[pv[k] - 1].wire == crate::plonkish::public_wires(inputs)[k]
                }
            &&& forall|k1: int, k2: int| 0 <= k1 < k2 < pv.len() ==> #[trigger] pv[k1] < #[trigger] pv[k2]
            &&& forall|i: int|
                0 <= i < inputs.len() && (#[trigger] inputs[i]).visibility.spec_is_public() ==> pv.contains((i + 1) as usize)
        }),
    decreases inputs.len(),
{
    if inputs.len() > 0 {
        let init = inputs.drop_last();
        lemma_public_var_indices(init);
        let rest = public_var_indices(init);
        let pv = public_var_indices(inputs);
        assert forall|i: int| 0 <= i < inputs.len() && (#[trigger] inputs[i]).visibility.spec_is_public() implies pv.contains(
            (i + 1) as usize,
        ) by {
            if i < inputs.len() - 1 {
                assert(init[i] == inputs[i]);
                let k = choose|k: int| 0 <= k < rest.len() && rest[k] == (i + 1) as usize;
                assert(pv[k] == rest[k]);
            } else {
                assert(pv[pv.len() - 1] == inputs.len() as usize);
            }
        }
        assert forall|k: int| 0 <= k < pv.len() implies {
            &&& 1 <= #[trigger] pv[k] <= inputs.len()
            &&& inputs[pv[k] - 1].visibility.spec_is_public()
            &&& inputs[pv[k] - 1].wire == crate::plonkish::public_wires(inputs)[k]
        } by {
            if k < rest.len() {
                assert(pv[k] == rest[k]);
                assert(inputs[rest[k] - 1] == init[rest[k] - 1]);
            }
        }
    }
}

/// Each public variable of a lowering holds its public input's wire: the
/// public variables are exactly those of the public (and output) inputs,
/// in declaration order.
pub proof fn law_public_variables_hold_public_inputs<F: ZkField>(ir: &Ir, fuse: bool, cs: R1cs<F>)
    requires
        well_formed(ir),
        lowered(ir, fuse, cs),
    ensures
        cs.public_vars@.len() == crate::plonkish::public_wires(ir.inputs@).len(),
        forall|k: int|
            0 <= k < cs.public_vars@.len() ==> {
                let v = #[trigger] cs.public_vars@[k] as int;
                &&& 1 <= v <= ir.inputs@.len()
                &&& v < cs.var_to_wire@.len()
                &&& ir.inputs@[v - 1].visibility.spec_is_public()
                &&& cs.var_to_wire@[v] == Some(ir.inputs@[v - 1].wire)
                &&& cs.var_to_wire@[v] == Some(crate::plonkish::public_wires(ir.inputs@)[k])
            },
        forall|k1: int, k2: int|
            0 <= k1 < k2 < cs.public_vars@.len() ==> #[trigger] cs.public_vars@[k1] < #[trigger] cs.public_vars@[k2],
        forall|i: int|
            0 <= i < ir.inputs@.len() && (#[trigger] ir.inputs@[i]).visibility.spec_is_public() ==> cs.public_vars@.contains(
                (i + 1) as usize,
            ),
{
    lemma_public_var_indices(ir.inputs@);
    assert forall|k: int| 0 <= k < cs.public_vars@.len() implies {
        let v = #[trigger] cs.public_vars@[k] as int;
        &&& 1 <= v <= ir.inputs@.len()
        &&& v < cs.var_to_wire@.len()
        &&& ir.inputs@[v - 1].visibility.spec_is_public()
        &&& cs.var_to_wire@[v] == Some(ir.inputs@[v - 1].wire)
        &&& cs.var_to_wire@[v] == Some(crate::plonkish::public_wires(ir.inputs@)[k])
    } by {
        let v = cs.public_vars@[k] as int;
        assert(1 <= public_var_indices(ir.inputs@)[k] <= ir.inputs@.len());
        assert(cs.var_to_wire@[v] == input_vars(ir)[v]);
    }
}

} // verus!
