//! Plonkish gate fusion.
//!
//! A gate holds `q_L·a + q_R·b + q_O·c + q_M·a·b + q_C`: a product, three
//! linear terms and a constant at once. Lowering node by node spends a row on
//! every constant and every addition; fusion instead carries each wire's value
//! as a small expression over cells and folds it into the row that consumes
//! it. An expression that would overflow one row is *materialised*: given a
//! row of its own that defines its wire, after which consumers refer to the
//! wire by a single cell. A value used more than once is materialised as soon
//! as it is computed, so it is built once and wired to each use.
//!
//! Three expression shapes suffice:
//! - `Wire`: a bare wire, whose value sits in a cell of its own;
//! - `Lin`: at most two `coef·wire` terms plus a constant;
//! - `Mul`: `k·u·v + c`, the product of two wires, scaled and shifted.
//!
//! Every decision reads only which shape a value has and how many terms it
//! carries, never the field elements in it, so the layout is the same over
//! every field.
use vstd::prelude::*;

use crate::field::{lemma_basics, ZkField};
use crate::ir::{Assertion, Input, Ir, Node, NodeOp};
use crate::plonkish::{
    cells_holding, holds_wire, lemma_cells_holding_push, msg_binding, msg_node, one_wire, place_row, public_wires, row_cells_holding,
    rows_cells_below, wire_up, wiring, Cell, Plonkish, Row,
};
use crate::witness::well_formed;
use vstd::utf8::encode_utf8;

verus! {

/// `coef · wire`.
#[derive(Clone, Copy)]
pub struct Term<F> {
    pub wire: u32,
    pub coef: F,
}

/// A wire's value as the fused lowering carries it.
#[derive(Clone, Copy)]
pub enum Shape<F> {
    /// `Σ coef·wire + c` over at most two terms.
    Lin { a: Option<Term<F>>, b: Option<Term<F>>, c: F },
    /// `k·u·v + c`.
    Mul { u: u32, v: u32, k: F, c: F },
    /// The wire itself, in one cell.
    Wire { w: u32 },
}

/// A row's selectors and cells, as the specification speaks of them.
pub struct Gate<F> {
    pub q_l: F,
    pub q_r: F,
    pub q_o: F,
    pub q_m: F,
    pub q_c: F,
    pub cells: Seq<Option<u32>>,
}

/// The rows so far and each wire's current shape.
pub struct Fold<F> {
    pub shapes: Seq<Shape<F>>,
    pub gates: Seq<Gate<F>>,
}

/// A row carries exactly the selectors and cells.
pub open spec fn row_matches<F>(row: Row<F>, gate: Gate<F>) -> bool {
    &&& row.q_l == gate.q_l
    &&& row.q_r == gate.q_r
    &&& row.q_o == gate.q_o
    &&& row.q_m == gate.q_m
    &&& row.q_c == gate.q_c
    &&& row.cells@ == gate.cells
}

/// The wire itself, in one cell.
pub open spec fn plain<F: ZkField>(w: u32) -> Shape<F> {
    Shape::Wire { w }
}

pub open spec fn opt_terms<F>(o: Option<Term<F>>) -> Seq<Term<F>> {
    match o {
        Some(t) => seq![t],
        None => Seq::empty(),
    }
}

/// The linear terms of a shape; none for a product.
pub open spec fn terms<F: ZkField>(s: Shape<F>) -> Seq<Term<F>> {
    match s {
        Shape::Lin { a, b, .. } => opt_terms(a) + opt_terms(b),
        Shape::Mul { .. } => Seq::empty(),
        Shape::Wire { w } => seq![Term { wire: w, coef: F::spec_one() }],
    }
}

/// The cells a shape occupies; a product counts as too wide for any sum.
pub open spec fn width<F: ZkField>(s: Shape<F>) -> nat {
    match s {
        Shape::Mul { .. } => 3,
        _ => terms(s).len(),
    }
}

/// A shape's constant.
pub open spec fn constant<F: ZkField>(s: Shape<F>) -> F {
    match s {
        Shape::Lin { c, .. } => c,
        Shape::Mul { c, .. } => c,
        Shape::Wire { .. } => F::spec_zero(),
    }
}

/// A constant: a sum with no terms.
pub open spec fn is_const<F: ZkField>(s: Shape<F>) -> bool {
    s is Lin && terms(s).len() == 0
}

pub open spec fn neg_term<F: ZkField>(t: Term<F>) -> Term<F> {
    Term { wire: t.wire, coef: t.coef.spec_neg() }
}

pub open spec fn negs<F: ZkField>(t: Seq<Term<F>>) -> Seq<Term<F>> {
    Seq::new(t.len(), |i: int| neg_term(t[i]))
}

/// The sum built from its first two terms.
pub open spec fn lin_from<F>(t: Seq<Term<F>>, c: F) -> Shape<F> {
    Shape::Lin {
        a: if t.len() > 0 {
            Some(t[0])
        } else {
            None
        },
        b: if t.len() > 1 {
            Some(t[1])
        } else {
            None
        },
        c,
    }
}

/// `x + y`, or `x - y`, of two sums.
pub open spec fn lin_sum<F: ZkField>(x: Shape<F>, y: Shape<F>, subtract: bool) -> Shape<F> {
    if subtract {
        lin_from(terms(x) + negs(terms(y)), constant(x).spec_sub(constant(y)))
    } else {
        lin_from(terms(x) + terms(y), constant(x).spec_add(constant(y)))
    }
}

pub open spec fn scale_term<F: ZkField>(o: Option<Term<F>>, k: F) -> Option<Term<F>> {
    match o {
        Some(t) => Some(Term { wire: t.wire, coef: k.spec_mul(t.coef) }),
        None => None,
    }
}

/// `k · s`.
pub open spec fn scale<F: ZkField>(s: Shape<F>, k: F) -> Shape<F> {
    match s {
        Shape::Lin { a, b, c } => Shape::Lin { a: scale_term(a, k), b: scale_term(b, k), c: k.spec_mul(c) },
        Shape::Mul { u, v, k: m, c } => Shape::Mul { u, v, k: k.spec_mul(m), c: k.spec_mul(c) },
        Shape::Wire { w } => Shape::Lin { a: Some(Term { wire: w, coef: k }), b: None, c: F::spec_zero() },
    }
}

pub open spec fn coef_at<F: ZkField>(t: Seq<Term<F>>, i: int) -> F {
    if 0 <= i < t.len() {
        t[i].coef
    } else {
        F::spec_zero()
    }
}

pub open spec fn wire_at<F>(t: Seq<Term<F>>, i: int) -> Option<u32> {
    if 0 <= i < t.len() {
        Some(t[i].wire)
    } else {
        None
    }
}

/// The row that materialises wire `n` from its shape: `s - n = 0`, with `n`
/// in the `c` cell.
pub open spec fn def_gate<F: ZkField>(s: Shape<F>, n: u32) -> Gate<F> {
    let z = F::spec_zero();
    let m = F::spec_one().spec_neg();
    match s {
        Shape::Mul { u, v, k, c } => Gate { q_l: z, q_r: z, q_o: m, q_m: k, q_c: c, cells: seq![Some(u), Some(v), Some(n)] },
        _ => {
            let t = terms(s);
            Gate {
                q_l: coef_at(t, 0),
                q_r: coef_at(t, 1),
                q_o: m,
                q_m: z,
                q_c: constant(s),
                cells: seq![wire_at(t, 0), wire_at(t, 1), Some(n)],
            }
        },
    }
}

/// The row of an assertion `l == r`: `l - r = 0` in one gate. The two sides
/// are never both products.
pub open spec fn assert_gate<F: ZkField>(l: Shape<F>, r: Shape<F>) -> Gate<F> {
    let z = F::spec_zero();
    let c = constant(l).spec_sub(constant(r));
    match (l, r) {
        (Shape::Mul { u, v, k, .. }, _) => {
            let t = negs(terms(r));
            Gate { q_l: z, q_r: z, q_o: coef_at(t, 0), q_m: k, q_c: c, cells: seq![Some(u), Some(v), wire_at(t, 0)] }
        },
        (_, Shape::Mul { u, v, k, .. }) => {
            let t = terms(l);
            Gate { q_l: z, q_r: z, q_o: coef_at(t, 0), q_m: k.spec_neg(), q_c: c, cells: seq![Some(u), Some(v), wire_at(t, 0)] }
        },
        _ => {
            let t = terms(l) + negs(terms(r));
            Gate {
                q_l: coef_at(t, 0),
                q_r: coef_at(t, 1),
                q_o: coef_at(t, 2),
                q_m: z,
                q_c: c,
                cells: seq![wire_at(t, 0), wire_at(t, 1), wire_at(t, 2)],
            }
        },
    }
}

/// The all-zero row binding wire `w` to a cell.
pub open spec fn bind_gate<F: ZkField>(w: u32) -> Gate<F> {
    let z = F::spec_zero();
    Gate { q_l: z, q_r: z, q_o: z, q_m: z, q_c: z, cells: seq![Some(w), None, None] }
}

/// Give wire `w` a row of its own; from then on it is a bare wire.
pub open spec fn mat<F: ZkField>(st: Fold<F>, w: u32) -> Fold<F> {
    Fold { shapes: st.shapes.update(w as int, plain(w)), gates: st.gates.push(def_gate(st.shapes[w as int], w)) }
}

/// Materialise `w` when `cond` holds.
pub open spec fn mat_if<F: ZkField>(st: Fold<F>, w: u32, cond: bool) -> Fold<F> {
    if cond {
        mat(st, w)
    } else {
        st
    }
}

/// Set the shape of wire `w`.
pub open spec fn with_shape<F>(st: Fold<F>, w: u32, s: Shape<F>) -> Fold<F> {
    Fold { shapes: st.shapes.update(w as int, s), gates: st.gates }
}

/// An addition or subtraction: products and two-term sums are materialised
/// until the two sides fit two terms between them.
pub open spec fn fold_sum<F: ZkField>(st: Fold<F>, out: u32, x: u32, y: u32, subtract: bool) -> Fold<F> {
    let s1 = mat_if(st, x, st.shapes[x as int] is Mul);
    let s2 = mat_if(s1, y, s1.shapes[y as int] is Mul);
    let s3 = mat_if(s2, x, width(s2.shapes[x as int]) + width(s2.shapes[y as int]) > 2 && width(s2.shapes[x as int]) == 2);
    let s4 = mat_if(s3, y, width(s3.shapes[x as int]) + width(s3.shapes[y as int]) > 2);
    with_shape(s4, out, lin_sum(s4.shapes[x as int], s4.shapes[y as int], subtract))
}

/// The wire of a bare-wire shape.
pub open spec fn plain_wire<F: ZkField>(s: Shape<F>) -> u32 {
    terms(s)[0].wire
}

/// A product: a constant factor scales the other side; otherwise both sides
/// become bare wires and the product is kept whole.
pub open spec fn fold_product<F: ZkField>(st: Fold<F>, out: u32, x: u32, y: u32) -> Fold<F> {
    let sx = st.shapes[x as int];
    let sy = st.shapes[y as int];
    if is_const(sx) {
        with_shape(st, out, scale(sy, constant(sx)))
    } else if is_const(sy) {
        with_shape(st, out, scale(sx, constant(sy)))
    } else {
        let s1 = mat_if(st, x, !(st.shapes[x as int] is Wire));
        let s2 = mat_if(s1, y, !(s1.shapes[y as int] is Wire));
        with_shape(
            s2,
            out,
            Shape::Mul { u: plain_wire(s2.shapes[x as int]), v: plain_wire(s2.shapes[y as int]), k: F::spec_one(), c: F::spec_zero() },
        )
    }
}

/// A node's shape, folded into the state.
pub open spec fn fold_node_shape<F: ZkField>(st: Fold<F>, node: Node) -> Fold<F> {
    let a = node.op.spec_args();
    let w = node.wire;
    match node.op {
        NodeOp::Const { value } => with_shape(
            st,
            w,
            Shape::Lin { a: None, b: None, c: F::spec_decimal_value(encode_utf8(value@)) },
        ),
        NodeOp::Add { .. } => fold_sum(st, w, a[0], a[1], false),
        NodeOp::Sub { .. } => fold_sum(st, w, a[0], a[1], true),
        NodeOp::Mul { .. } => fold_product(st, w, a[0], a[1]),
        NodeOp::Neg { .. } => with_shape(st, w, scale(st.shapes[a[0] as int], F::spec_one().spec_neg())),
        NodeOp::Hint { .. } => with_shape(st, w, plain(w)),
    }
}

/// One node: its shape, then its own row if it is used more than once.
pub open spec fn fold_node<F: ZkField>(st: Fold<F>, node: Node, shared: bool) -> Fold<F> {
    let next = fold_node_shape(st, node);
    if shared && !(node.op is Hint) {
        mat(next, node.wire)
    } else {
        next
    }
}

/// One assertion: sides are materialised until `l - r` fits one gate.
pub open spec fn fold_assertion<F: ZkField>(st: Fold<F>, assertion: Assertion) -> Fold<F> {
    let l = assertion.lhs;
    let r = assertion.rhs;
    let s1 = mat_if(st, r, st.shapes[l as int] is Mul && st.shapes[r as int] is Mul);
    let s2 = mat_if(s1, r, s1.shapes[l as int] is Mul && width(s1.shapes[r as int]) == 2);
    let s3 = mat_if(s2, l, s2.shapes[r as int] is Mul && width(s2.shapes[l as int]) == 2);
    let s4 = mat_if(
        s3,
        r,
        !(s3.shapes[l as int] is Mul) && !(s3.shapes[r as int] is Mul) && width(s3.shapes[l as int]) + width(s3.shapes[r as int]) > 3,
    );
    Fold { shapes: s4.shapes, gates: s4.gates.push(assert_gate(s4.shapes[l as int], s4.shapes[r as int])) }
}

/// How many times wire `w` is an argument of a node.
pub open spec fn arg_uses(nodes: Seq<Node>, w: u32) -> nat
    decreases nodes.len(),
{
    if nodes.len() == 0 {
        0
    } else {
        let a = nodes.last().op.spec_args();
        arg_uses(nodes.drop_last(), w) + (if a.len() > 0 && a[0] == w {
            1nat
        } else {
            0
        }) + (if a.len() > 1 && a[1] == w {
            1nat
        } else {
            0
        })
    }
}

/// How many times wire `w` is a side of an assertion.
pub open spec fn side_uses(assertions: Seq<Assertion>, w: u32) -> nat
    decreases assertions.len(),
{
    if assertions.len() == 0 {
        0
    } else {
        let last = assertions.last();
        side_uses(assertions.drop_last(), w) + (if last.lhs == w {
            1nat
        } else {
            0
        }) + (if last.rhs == w {
            1nat
        } else {
            0
        })
    }
}

/// Wire `w` is consumed more than once.
pub open spec fn shared(ir: &Ir, w: u32) -> bool {
    arg_uses(ir.nodes@, w) + side_uses(ir.assertions@, w) > 1
}

/// Every wire a bare wire, no rows yet.
pub open spec fn fold_start<F: ZkField>(count: nat) -> Fold<F> {
    Fold { shapes: Seq::new(count, |w: int| plain(w as u32)), gates: Seq::empty() }
}

/// The state after the first `k` nodes.
pub open spec fn fold_nodes<F: ZkField>(ir: &Ir, k: nat) -> Fold<F>
    decreases k,
{
    if k == 0 {
        fold_start(ir.spec_wire_count())
    } else {
        let node = ir.nodes@[k - 1];
        fold_node(fold_nodes(ir, (k - 1) as nat), node, shared(ir, node.wire))
    }
}

/// The state after every node and the first `k` assertions.
pub open spec fn fold_assertions<F: ZkField>(ir: &Ir, k: nat) -> Fold<F>
    decreases k,
{
    if k == 0 {
        fold_nodes(ir, ir.nodes@.len())
    } else {
        fold_assertion(fold_assertions(ir, (k - 1) as nat), ir.assertions@[k - 1])
    }
}

/// Some cell of these gates holds wire `w`.
pub open spec fn gates_hold_wire<F>(gates: Seq<Gate<F>>, w: u32) -> bool {
    exists|i: int, j: int| 0 <= i < gates.len() && 0 <= j < 3 && #[trigger] gates[i].cells[j] == Some(w)
}

/// After the first `k` inputs: a binding row for each public input no
/// earlier row mentions.
pub open spec fn bind_inputs<F: ZkField>(gates: Seq<Gate<F>>, inputs: Seq<Input>, k: nat) -> Seq<Gate<F>>
    decreases k,
{
    if k == 0 {
        gates
    } else {
        let g = bind_inputs(gates, inputs, (k - 1) as nat);
        let input = inputs[k - 1];
        if input.visibility.spec_is_public() && !gates_hold_wire(g, input.wire) {
            g.push(bind_gate(input.wire))
        } else {
            g
        }
    }
}

/// The fused lowering's rows, in order.
pub open spec fn fused_gates<F: ZkField>(ir: &Ir) -> Seq<Gate<F>> {
    bind_inputs(fold_assertions::<F>(ir, ir.assertions@.len()).gates, ir.inputs@, ir.inputs@.len())
}

/// Every wire a shape mentions is below `count`.
pub open spec fn shape_below<F: ZkField>(s: Shape<F>, count: nat) -> bool {
    match s {
        Shape::Mul { u, v, .. } => u < count && v < count,
        _ => forall|i: int| 0 <= i < terms(s).len() ==> (#[trigger] terms(s)[i]).wire < count,
    }
}

/// The exec shapes and rows are the fold state `st`, every wire in range.
pub open spec fn holds_state<F: ZkField>(shapes: Seq<Shape<F>>, rows: Seq<Row<F>>, st: Fold<F>, count: nat) -> bool {
    &&& shapes == st.shapes
    &&& shapes.len() == count
    &&& rows.len() == st.gates.len()
    &&& forall|i: int| 0 <= i < rows.len() ==> row_matches(#[trigger] rows[i], st.gates[i])
    &&& forall|w: int| 0 <= w < count ==> shape_below(#[trigger] shapes[w], count)
    &&& crate::plonkish::rows_cells_below(rows, count)
}

fn terms_vec<F: ZkField>(s: Shape<F>) -> (r: Vec<Term<F>>)
    ensures
        r@ == terms(s),
        r@.len() <= 2,
{
    let mut v: Vec<Term<F>> = Vec::new();
    match s {
        Shape::Lin { a, b, .. } => {
            if let Some(t) = a {
                v.push(t);
            }
            if let Some(t) = b {
                v.push(t);
            }
            assert(v@ =~= opt_terms(a) + opt_terms(b));
        },
        Shape::Mul { .. } => {
            assert(v@ =~= Seq::<Term<F>>::empty());
        },
        Shape::Wire { w } => {
            v.push(Term { wire: w, coef: F::one() });
            assert(v@ =~= seq![Term { wire: w, coef: F::spec_one() }]);
        },
    }
    v
}

fn width_of<F: ZkField>(s: Shape<F>) -> (r: usize)
    ensures
        r == width(s),
{
    match s {
        Shape::Mul { .. } => 3,
        _ => terms_vec(s).len(),
    }
}

fn constant_of<F: ZkField>(s: Shape<F>) -> (r: F)
    ensures
        r == constant(s),
{
    match s {
        Shape::Lin { c, .. } => c,
        Shape::Mul { c, .. } => c,
        Shape::Wire { .. } => F::zero(),
    }
}

fn is_mul<F: ZkField>(s: Shape<F>) -> (r: bool)
    ensures
        r == (s is Mul),
{
    match s {
        Shape::Mul { .. } => true,
        _ => false,
    }
}

fn coef_at_exec<F: ZkField>(t: &Vec<Term<F>>, i: usize) -> (r: F)
    ensures
        r == coef_at(t@, i as int),
{
    if i < t.len() {
        t[i].coef
    } else {
        F::zero()
    }
}

fn wire_at_exec<F: ZkField>(t: &Vec<Term<F>>, i: usize) -> (r: Option<u32>)
    ensures
        r == wire_at(t@, i as int),
{
    if i < t.len() {
        Some(t[i].wire)
    } else {
        None
    }
}

fn lin_from_exec<F: ZkField>(t: &Vec<Term<F>>, c: F) -> (r: Shape<F>)
    ensures
        r == lin_from(t@, c),
{
    let a = if t.len() > 0 {
        Some(t[0])
    } else {
        None
    };
    let b = if t.len() > 1 {
        Some(t[1])
    } else {
        None
    };
    Shape::Lin { a, b, c }
}

fn negs_exec<F: ZkField>(t: &Vec<Term<F>>) -> (r: Vec<Term<F>>)
    ensures
        r@ == negs(t@),
{
    let mut out: Vec<Term<F>> = Vec::new();
    let mut i: usize = 0;
    while i < t.len()
        invariant
            i <= t@.len(),
            out@ == negs(t@).subrange(0, i as int),
        decreases t@.len() - i,
    {
        out.push(Term { wire: t[i].wire, coef: t[i].coef.neg() });
        assert(negs(t@).subrange(0, i as int + 1) =~= negs(t@).subrange(0, i as int).push(neg_term(t@[i as int])));
        i = i + 1;
    }
    assert(negs(t@).subrange(0, t@.len() as int) =~= negs(t@));
    out
}

fn concat<F: Copy>(x: &Vec<Term<F>>, y: &Vec<Term<F>>) -> (r: Vec<Term<F>>)
    ensures
        r@ == x@ + y@,
{
    let mut out: Vec<Term<F>> = Vec::new();
    let mut i: usize = 0;
    while i < x.len()
        invariant
            i <= x@.len(),
            out@ == x@.subrange(0, i as int),
        decreases x@.len() - i,
    {
        out.push(x[i]);
        assert(x@.subrange(0, i as int + 1) =~= x@.subrange(0, i as int).push(x@[i as int]));
        i = i + 1;
    }
    let mut j: usize = 0;
    while j < y.len()
        invariant
            j <= y@.len(),
            out@ == x@ + y@.subrange(0, j as int),
        decreases y@.len() - j,
    {
        out.push(y[j]);
        assert(y@.subrange(0, j as int + 1) =~= y@.subrange(0, j as int).push(y@[j as int]));
        j = j + 1;
    }
    assert(y@.subrange(0, y@.len() as int) =~= y@);
    out
}

fn lin_sum_exec<F: ZkField>(x: Shape<F>, y: Shape<F>, subtract: bool) -> (r: Shape<F>)
    ensures
        r == lin_sum(x, y, subtract),
{
    let tx = terms_vec(x);
    let ty = terms_vec(y);
    if subtract {
        let t = concat(&tx, &negs_exec(&ty));
        lin_from_exec(&t, constant_of(x).sub(constant_of(y)))
    } else {
        let t = concat(&tx, &ty);
        lin_from_exec(&t, constant_of(x).add(constant_of(y)))
    }
}

fn scale_exec<F: ZkField>(s: Shape<F>, k: F) -> (r: Shape<F>)
    ensures
        r == scale(s, k),
{
    match s {
        Shape::Lin { a, b, c } => {
            let a2 = match a {
                Some(t) => Some(Term { wire: t.wire, coef: k.mul(t.coef) }),
                None => None,
            };
            let b2 = match b {
                Some(t) => Some(Term { wire: t.wire, coef: k.mul(t.coef) }),
                None => None,
            };
            Shape::Lin { a: a2, b: b2, c: k.mul(c) }
        },
        Shape::Mul { u, v, k: m, c } => Shape::Mul { u, v, k: k.mul(m), c: k.mul(c) },
        Shape::Wire { w } => Shape::Lin { a: Some(Term { wire: w, coef: k }), b: None, c: F::zero() },
    }
}

/// The row materialising wire `n` from shape `s`.
fn def_row<F: ZkField>(s: Shape<F>, n: u32) -> (r: Row<F>)
    ensures
        row_matches(r, def_gate(s, n)),
{
    let minus_one = F::one().neg();
    match s {
        Shape::Lin { .. } | Shape::Wire { .. } => {
            let t = terms_vec(s);
            let row = Row {
                q_l: coef_at_exec(&t, 0),
                q_r: coef_at_exec(&t, 1),
                q_o: minus_one,
                q_m: F::zero(),
                q_c: constant_of(s),
                cells: [wire_at_exec(&t, 0), wire_at_exec(&t, 1), Some(n)],
                origin: msg_node("fused", n),
            };
            assert(row.cells@ =~= seq![wire_at(t@, 0), wire_at(t@, 1), Some(n)]);
            row
        },
        Shape::Mul { u, v, k, c } => {
            let row = Row {
                q_l: F::zero(),
                q_r: F::zero(),
                q_o: minus_one,
                q_m: k,
                q_c: c,
                cells: [Some(u), Some(v), Some(n)],
                origin: msg_node("fused", n),
            };
            assert(row.cells@ =~= seq![Some(u), Some(v), Some(n)]);
            row
        },
    }
}

/// The row of assertion `l == r`; the sides are not both products.
fn assert_row<F: ZkField>(l: Shape<F>, r: Shape<F>, origin: String) -> (row: Row<F>)
    ensures
        row_matches(row, assert_gate(l, r)),
{
    let c = constant_of(l).sub(constant_of(r));
    match (l, r) {
        (Shape::Mul { u, v, k, .. }, _) => {
            let t = negs_exec(&terms_vec(r));
            let row = Row {
                q_l: F::zero(),
                q_r: F::zero(),
                q_o: coef_at_exec(&t, 0),
                q_m: k,
                q_c: c,
                cells: [Some(u), Some(v), wire_at_exec(&t, 0)],
                origin,
            };
            assert(row.cells@ =~= seq![Some(u), Some(v), wire_at(t@, 0)]);
            row
        },
        (_, Shape::Mul { u, v, k, .. }) => {
            let t = terms_vec(l);
            let row = Row {
                q_l: F::zero(),
                q_r: F::zero(),
                q_o: coef_at_exec(&t, 0),
                q_m: k.neg(),
                q_c: c,
                cells: [Some(u), Some(v), wire_at_exec(&t, 0)],
                origin,
            };
            assert(row.cells@ =~= seq![Some(u), Some(v), wire_at(t@, 0)]);
            row
        },
        _ => {
            let t = concat(&terms_vec(l), &negs_exec(&terms_vec(r)));
            let row = Row {
                q_l: coef_at_exec(&t, 0),
                q_r: coef_at_exec(&t, 1),
                q_o: coef_at_exec(&t, 2),
                q_m: F::zero(),
                q_c: c,
                cells: [wire_at_exec(&t, 0), wire_at_exec(&t, 1), wire_at_exec(&t, 2)],
                origin,
            };
            assert(row.cells@ =~= seq![wire_at(t@, 0), wire_at(t@, 1), wire_at(t@, 2)]);
            row
        },
    }
}

fn plain_exec<F: ZkField>(w: u32) -> (r: Shape<F>)
    ensures
        r == plain::<F>(w),
{
    Shape::Wire { w }
}

proof fn lemma_plain_terms<F: ZkField>(w: u32)
    ensures
        terms(plain::<F>(w)) == seq![Term { wire: w, coef: F::spec_one() }],
{
}

/// Give wire `w` a row of its own.
fn materialise<F: ZkField>(shapes: &mut Vec<Shape<F>>, rows: &mut Vec<Row<F>>, w: u32, Ghost(st): Ghost<Fold<F>>)
    requires
        holds_state(old(shapes)@, old(rows)@, st, old(shapes)@.len()),
        w < old(shapes)@.len(),
    ensures
        holds_state(final(shapes)@, final(rows)@, mat(st, w), old(shapes)@.len()),
{
    let count = Ghost(shapes@.len());
    let s = shapes[w as usize];
    let row = def_row(s, w);
    let ghost before = rows@;
    proof {
        assert(shape_below(shapes@[w as int], count@));
        let t = terms(s);
        if !(s is Mul) {
            assert(forall|i: int| 0 <= i < t.len() ==> (#[trigger] t[i]).wire < count@);
            if t.len() > 0 {
                assert(t[0].wire < count@);
            }
            if t.len() > 1 {
                assert(t[1].wire < count@);
            }
        }
    }
    rows.push(row);
    shapes.set(w as usize, plain_exec(w));
    proof {
        lemma_plain_terms::<F>(w);
        let g = mat(st, w).gates;
        assert forall|i: int| 0 <= i < rows@.len() implies row_matches(#[trigger] rows@[i], g[i]) by {
            if i < before.len() {
                assert(rows@[i] == before[i]);
            }
        }
        assert forall|i: int, j: int| 0 <= i < rows@.len() && 0 <= j < 3 implies (#[trigger] rows@[i].cells@[j] matches Some(x) ==> x < count@) by {
            if i < before.len() {
                assert(rows@[i] == before[i]);
            }
        }
        assert forall|v: int| 0 <= v < count@ implies shape_below(#[trigger] shapes@[v], count@) by {
            if v == w {
                assert(terms(shapes@[v]) == seq![Term { wire: w, coef: F::spec_one() }]);
            } else {
                assert(shapes@[v] == st.shapes[v]);
            }
        }
    }
}

/// Materialise `w` when `cond` holds.
fn materialise_if<F: ZkField>(shapes: &mut Vec<Shape<F>>, rows: &mut Vec<Row<F>>, w: u32, cond: bool, Ghost(st): Ghost<Fold<F>>)
    requires
        holds_state(old(shapes)@, old(rows)@, st, old(shapes)@.len()),
        w < old(shapes)@.len(),
    ensures
        holds_state(final(shapes)@, final(rows)@, mat_if(st, w, cond), old(shapes)@.len()),
{
    if cond {
        materialise(shapes, rows, w, Ghost(st));
    }
}

proof fn lemma_with_shape<F: ZkField>(shapes: Seq<Shape<F>>, rows: Seq<Row<F>>, st: Fold<F>, w: u32, s: Shape<F>)
    requires
        holds_state(shapes, rows, st, shapes.len()),
        w < shapes.len(),
        shape_below(s, shapes.len()),
    ensures
        holds_state(shapes.update(w as int, s), rows, with_shape(st, w, s), shapes.len()),
{
    let count = shapes.len();
    assert forall|v: int| 0 <= v < count implies shape_below(#[trigger] shapes.update(w as int, s)[v], count) by {
        if v != w {
            assert(shapes.update(w as int, s)[v] == shapes[v]);
        }
    }
}

proof fn lemma_lin_from_below<F: ZkField>(t: Seq<Term<F>>, c: F, count: nat)
    requires
        forall|i: int| 0 <= i < t.len() ==> (#[trigger] t[i]).wire < count,
    ensures
        shape_below(lin_from(t, c), count),
{
    let s = lin_from(t, c);
    let u = terms(s);
    assert forall|i: int| 0 <= i < u.len() implies (#[trigger] u[i]).wire < count by {
        if t.len() > 0 {
            assert(t[0].wire < count);
        }
        if t.len() > 1 {
            assert(t[1].wire < count);
        }
        if t.len() == 0 {
            assert(u =~= Seq::<Term<F>>::empty());
        } else if t.len() == 1 {
            assert(u =~= seq![t[0]]);
        } else {
            assert(u =~= seq![t[0], t[1]]);
        }
    }
}

proof fn lemma_sum_below<F: ZkField>(x: Shape<F>, y: Shape<F>, subtract: bool, count: nat)
    requires
        shape_below(x, count),
        shape_below(y, count),
        !(x is Mul),
        !(y is Mul),
    ensures
        shape_below(lin_sum(x, y, subtract), count),
{
    let tx = terms(x);
    let ty = if subtract {
        negs(terms(y))
    } else {
        terms(y)
    };
    let t = tx + ty;
    assert forall|i: int| 0 <= i < t.len() implies (#[trigger] t[i]).wire < count by {
        if i < tx.len() {
            assert(t[i] == tx[i]);
        } else {
            assert(t[i] == ty[i - tx.len()]);
            assert(terms(y)[i - tx.len()].wire < count);
        }
    }
    lemma_lin_from_below(t, if subtract {
        constant(x).spec_sub(constant(y))
    } else {
        constant(x).spec_add(constant(y))
    }, count);
}

proof fn lemma_scale_below<F: ZkField>(s: Shape<F>, k: F, count: nat)
    requires
        shape_below(s, count),
    ensures
        shape_below(scale(s, k), count),
{
    if !(s is Mul) {
        let u = terms(scale(s, k));
        assert(u.len() == terms(s).len());
        assert forall|i: int| 0 <= i < u.len() implies (#[trigger] u[i]).wire < count by {
            assert(u[i].wire == terms(s)[i].wire);
            assert(terms(s)[i].wire < count);
        }
    }
}

/// An addition or subtraction node.
fn fold_sum_exec<F: ZkField>(
    shapes: &mut Vec<Shape<F>>,
    rows: &mut Vec<Row<F>>,
    out: u32,
    x: u32,
    y: u32,
    subtract: bool,
    Ghost(st): Ghost<Fold<F>>,
)
    requires
        holds_state(old(shapes)@, old(rows)@, st, old(shapes)@.len()),
        out < old(shapes)@.len(),
        x < old(shapes)@.len(),
        y < old(shapes)@.len(),
    ensures
        holds_state(final(shapes)@, final(rows)@, fold_sum(st, out, x, y, subtract), old(shapes)@.len()),
{
    let ghost count = shapes@.len();
    let ghost s1 = mat_if(st, x, st.shapes[x as int] is Mul);
    materialise_if(shapes, rows, x, is_mul(shapes[x as usize]), Ghost(st));
    let ghost s2 = mat_if(s1, y, s1.shapes[y as int] is Mul);
    materialise_if(shapes, rows, y, is_mul(shapes[y as usize]), Ghost(s1));
    let wx = width_of(shapes[x as usize]);
    let wy = width_of(shapes[y as usize]);
    let ghost s3 = mat_if(s2, x, width(s2.shapes[x as int]) + width(s2.shapes[y as int]) > 2 && width(s2.shapes[x as int]) == 2);
    materialise_if(shapes, rows, x, wx + wy > 2 && wx == 2, Ghost(s2));
    let wx = width_of(shapes[x as usize]);
    let wy = width_of(shapes[y as usize]);
    let ghost s4 = mat_if(s3, y, width(s3.shapes[x as int]) + width(s3.shapes[y as int]) > 2);
    materialise_if(shapes, rows, y, wx + wy > 2, Ghost(s3));
    let sum = lin_sum_exec(shapes[x as usize], shapes[y as usize], subtract);
    proof {
        assert(!(shapes@[x as int] is Mul));
        assert(!(shapes@[y as int] is Mul));
        assert(shape_below(shapes@[x as int], count));
        assert(shape_below(shapes@[y as int], count));
        lemma_sum_below(shapes@[x as int], shapes@[y as int], subtract, count);
        lemma_with_shape(shapes@, rows@, s4, out, sum);
    }
    shapes.set(out as usize, sum);
}

fn is_const_exec<F: ZkField>(s: Shape<F>) -> (r: bool)
    ensures
        r == is_const(s),
{
    match s {
        Shape::Lin { .. } => terms_vec(s).len() == 0,
        _ => false,
    }
}

fn is_wire<F: ZkField>(s: Shape<F>) -> (r: bool)
    ensures
        r == (s is Wire),
{
    match s {
        Shape::Wire { .. } => true,
        _ => false,
    }
}

/// A product node.
fn fold_product_exec<F: ZkField>(
    shapes: &mut Vec<Shape<F>>,
    rows: &mut Vec<Row<F>>,
    out: u32,
    x: u32,
    y: u32,
    Ghost(st): Ghost<Fold<F>>,
)
    requires
        holds_state(old(shapes)@, old(rows)@, st, old(shapes)@.len()),
        out < old(shapes)@.len(),
        x < old(shapes)@.len(),
        y < old(shapes)@.len(),
    ensures
        holds_state(final(shapes)@, final(rows)@, fold_product(st, out, x, y), old(shapes)@.len()),
{
    let ghost count = shapes@.len();
    let sx = shapes[x as usize];
    let sy = shapes[y as usize];
    if is_const_exec(sx) {
        let s = scale_exec(sy, constant_of(sx));
        proof {
            lemma_scale_below(sy, constant(sx), count);
            lemma_with_shape(shapes@, rows@, st, out, s);
        }
        shapes.set(out as usize, s);
    } else if is_const_exec(sy) {
        let s = scale_exec(sx, constant_of(sy));
        proof {
            lemma_scale_below(sx, constant(sy), count);
            lemma_with_shape(shapes@, rows@, st, out, s);
        }
        shapes.set(out as usize, s);
    } else {
        let ghost s1 = mat_if(st, x, !(st.shapes[x as int] is Wire));
        materialise_if(shapes, rows, x, !is_wire(shapes[x as usize]), Ghost(st));
        let ghost s2 = mat_if(s1, y, !(s1.shapes[y as int] is Wire));
        materialise_if(shapes, rows, y, !is_wire(shapes[y as usize]), Ghost(s1));
        let u = terms_vec(shapes[x as usize])[0].wire;
        let v = terms_vec(shapes[y as usize])[0].wire;
        let s = Shape::Mul { u, v, k: F::one(), c: F::zero() };
        proof {
            assert(shapes@[x as int] is Wire);
            assert(shapes@[y as int] is Wire);
            assert(shape_below(shapes@[x as int], count));
            assert(terms(shapes@[x as int])[0].wire < count);
            assert(shape_below(shapes@[y as int], count));
            assert(terms(shapes@[y as int])[0].wire < count);
            lemma_with_shape(shapes@, rows@, s2, out, s);
        }
        shapes.set(out as usize, s);
    }
}

/// One node of the IR. `Err` exactly where a constant is no decimal.
fn fold_node_exec<F: ZkField>(
    shapes: &mut Vec<Shape<F>>,
    rows: &mut Vec<Row<F>>,
    node: &Node,
    is_shared: bool,
    Ghost(st): Ghost<Fold<F>>,
) -> (r: Result<(), String>)
    requires
        holds_state(old(shapes)@, old(rows)@, st, old(shapes)@.len()),
        node.wire < old(shapes)@.len(),
        node.op.spec_args().len() == node.op.spec_arity(),
        forall|j: int| 0 <= j < node.op.spec_args().len() ==> #[trigger] node.op.spec_args()[j] < node.wire,
    ensures
        r is Ok <==> (node.op matches NodeOp::Const { value } ==> crate::field::is_decimal_text(encode_utf8(value@))),
        r is Ok ==> holds_state(final(shapes)@, final(rows)@, fold_node(st, *node, is_shared), old(shapes)@.len()),
{
    let ghost count = shapes@.len();
    let a = node.op.args();
    let w = node.wire;
    let ghost next = fold_node_shape(st, *node);
    match &node.op {
        NodeOp::Const { value } => {
            let v = match F::from_decimal(value.as_str()) {
                Ok(v) => v,
                Err(e) => {
                    return Err(e);
                },
            };
            let s = Shape::Lin { a: None, b: None, c: v };
            proof {
                assert(terms(s) =~= Seq::<Term<F>>::empty());
                lemma_with_shape(shapes@, rows@, st, w, s);
            }
            shapes.set(w as usize, s);
        },
        NodeOp::Add { .. } => {
            assert(a@[0] < w && a@[1] < w);
            fold_sum_exec(shapes, rows, w, a[0], a[1], false, Ghost(st));
        },
        NodeOp::Sub { .. } => {
            assert(a@[0] < w && a@[1] < w);
            fold_sum_exec(shapes, rows, w, a[0], a[1], true, Ghost(st));
        },
        NodeOp::Mul { .. } => {
            assert(a@[0] < w && a@[1] < w);
            fold_product_exec(shapes, rows, w, a[0], a[1], Ghost(st));
        },
        NodeOp::Neg { .. } => {
            assert(a@[0] < w);
            let s = scale_exec(shapes[a[0] as usize], F::one().neg());
            proof {
                lemma_scale_below(st.shapes[a@[0] as int], F::spec_one().spec_neg(), count);
                lemma_with_shape(shapes@, rows@, st, w, s);
            }
            shapes.set(w as usize, s);
        },
        NodeOp::Hint { .. } => {
            let s = plain_exec(w);
            proof {
                lemma_plain_terms::<F>(w);
                lemma_with_shape(shapes@, rows@, st, w, s);
            }
            shapes.set(w as usize, s);
        },
    }
    let is_hint = match &node.op {
        NodeOp::Hint { .. } => true,
        _ => false,
    };
    if is_shared && !is_hint {
        materialise(shapes, rows, w, Ghost(next));
    }
    Ok(())
}

/// One assertion of the IR.
fn fold_assertion_exec<F: ZkField>(
    shapes: &mut Vec<Shape<F>>,
    rows: &mut Vec<Row<F>>,
    assertion: &Assertion,
    Ghost(st): Ghost<Fold<F>>,
)
    requires
        holds_state(old(shapes)@, old(rows)@, st, old(shapes)@.len()),
        assertion.lhs < old(shapes)@.len(),
        assertion.rhs < old(shapes)@.len(),
    ensures
        holds_state(final(shapes)@, final(rows)@, fold_assertion(st, *assertion), old(shapes)@.len()),
{
    let ghost count = shapes@.len();
    let l = assertion.lhs;
    let r = assertion.rhs;
    let ghost s1 = mat_if(st, r, st.shapes[l as int] is Mul && st.shapes[r as int] is Mul);
    materialise_if(shapes, rows, r, is_mul(shapes[l as usize]) && is_mul(shapes[r as usize]), Ghost(st));
    let ghost s2 = mat_if(s1, r, s1.shapes[l as int] is Mul && width(s1.shapes[r as int]) == 2);
    materialise_if(shapes, rows, r, is_mul(shapes[l as usize]) && width_of(shapes[r as usize]) == 2, Ghost(s1));
    let ghost s3 = mat_if(s2, l, s2.shapes[r as int] is Mul && width(s2.shapes[l as int]) == 2);
    materialise_if(shapes, rows, l, is_mul(shapes[r as usize]) && width_of(shapes[l as usize]) == 2, Ghost(s2));
    let ghost s4 = mat_if(
        s3,
        r,
        !(s3.shapes[l as int] is Mul) && !(s3.shapes[r as int] is Mul) && width(s3.shapes[l as int]) + width(s3.shapes[r as int]) > 3,
    );
    let wide = !is_mul(shapes[l as usize]) && !is_mul(shapes[r as usize]) && width_of(shapes[l as usize]) + width_of(
        shapes[r as usize],
    ) > 3;
    materialise_if(shapes, rows, r, wide, Ghost(s3));
    let row = assert_row(shapes[l as usize], shapes[r as usize], crate::plonkish::msg_assertion(assertion.line, &assertion.label));
    let ghost before = rows@;
    proof {
        let sl = shapes@[l as int];
        let sr = shapes@[r as int];
        assert(shape_below(sl, count));
        assert(shape_below(sr, count));
        let tl = terms(sl);
        let tr = terms(sr);
        assert forall|i: int| 0 <= i < tl.len() implies (#[trigger] tl[i]).wire < count by {}
        assert forall|i: int| 0 <= i < tr.len() implies (#[trigger] tr[i]).wire < count by {}
        let t = tl + negs(tr);
        assert forall|i: int| 0 <= i < t.len() implies (#[trigger] t[i]).wire < count by {
            if i >= tl.len() {
                assert(t[i] == negs(tr)[i - tl.len()]);
                assert(tr[i - tl.len()].wire < count);
            }
        }
        if t.len() > 0 { assert(t[0].wire < count); }
        if t.len() > 1 { assert(t[1].wire < count); }
        if t.len() > 2 { assert(t[2].wire < count); }
        if tl.len() > 0 { assert(tl[0].wire < count); }
        if tr.len() > 0 { assert(tr[0].wire < count); assert(negs(tr)[0].wire < count); }
    }
    rows.push(row);
    proof {
        let g = fold_assertion(st, *assertion).gates;
        assert forall|i: int| 0 <= i < rows@.len() implies row_matches(#[trigger] rows@[i], g[i]) by {
            if i < before.len() {
                assert(rows@[i] == before[i]);
            }
        }
        assert forall|i: int, j: int| 0 <= i < rows@.len() && 0 <= j < 3 implies (#[trigger] rows@[i].cells@[j] matches Some(x) ==> x < count) by {
            if i < before.len() {
                assert(rows@[i] == before[i]);
            }
        }
    }
}

/// `n`, capped at two: all the fusion needs to know of a use count.
pub open spec fn capped(n: nat) -> nat {
    if n > 2 {
        2
    } else {
        n
    }
}

fn bump(counts: &mut Vec<u8>, w: u32)
    requires
        w < old(counts)@.len(),
        old(counts)@[w as int] <= 2,
    ensures
        final(counts)@.len() == old(counts)@.len(),
        final(counts)@[w as int] == capped((old(counts)@[w as int] + 1) as nat),
        forall|v: int| 0 <= v < old(counts)@.len() && v != w ==> #[trigger] final(counts)@[v] == old(counts)@[v],
{
    let c = counts[w as usize];
    let next: u8 = if c >= 2 { 2 } else { c + 1 };
    counts.set(w as usize, next);
}

/// Which wires are consumed more than once.
fn shared_wires(ir: &Ir) -> (r: Vec<bool>)
    requires
        well_formed(ir),
    ensures
        r@.len() == ir.spec_wire_count(),
        forall|w: int| 0 <= w < ir.spec_wire_count() ==> #[trigger] r@[w] == shared(ir, w as u32),
{
    let count = ir.wire_count();
    let mut counts: Vec<u8> = Vec::new();
    let mut w: usize = 0;
    while w < count
        invariant
            w <= count,
            counts@.len() == w,
            forall|v: int| 0 <= v < w ==> #[trigger] counts@[v] == 0,
        decreases count - w,
    {
        counts.push(0);
        w = w + 1;
    }
    let mut k: usize = 0;
    while k < ir.nodes.len()
        invariant
            well_formed(ir),
            count == ir.spec_wire_count(),
            k <= ir.nodes@.len(),
            counts@.len() == count,
            forall|v: int| 0 <= v < count ==> #[trigger] counts@[v] == capped(arg_uses(ir.nodes@.subrange(0, k as int), v as u32)),
        decreases ir.nodes@.len() - k,
    {
        let ghost sub = ir.nodes@.subrange(0, k as int);
        let ghost before = counts@;
        proof {
            assert(ir.node_ok(k as int));
        }
        let a = ir.nodes[k].op.args();
        if a.len() > 0 {
            bump(&mut counts, a[0]);
        }
        let ghost mid = counts@;
        if a.len() > 1 {
            bump(&mut counts, a[1]);
        }
        proof {
            let next = ir.nodes@.subrange(0, k as int + 1);
            assert(next.drop_last() =~= sub);
            assert(next.last() == ir.nodes@[k as int]);
            assert forall|v: int| 0 <= v < count implies #[trigger] counts@[v] == capped(arg_uses(next, v as u32)) by {
                assert(before[v] == capped(arg_uses(sub, v as u32)));
            }
        }
        k = k + 1;
    }
    proof {
        assert(ir.nodes@.subrange(0, ir.nodes@.len() as int) =~= ir.nodes@);
    }
    let mut k: usize = 0;
    while k < ir.assertions.len()
        invariant
            well_formed(ir),
            count == ir.spec_wire_count(),
            k <= ir.assertions@.len(),
            counts@.len() == count,
            forall|v: int| 0 <= v < count ==> #[trigger] counts@[v] == capped(
                arg_uses(ir.nodes@, v as u32) + side_uses(ir.assertions@.subrange(0, k as int), v as u32),
            ),
        decreases ir.assertions@.len() - k,
    {
        let ghost sub = ir.assertions@.subrange(0, k as int);
        let ghost before = counts@;
        let assertion = &ir.assertions[k];
        proof {
            assert(assertion.lhs < count && assertion.rhs < count);
        }
        bump(&mut counts, assertion.lhs);
        bump(&mut counts, assertion.rhs);
        proof {
            let next = ir.assertions@.subrange(0, k as int + 1);
            assert(next.drop_last() =~= sub);
            assert(next.last() == ir.assertions@[k as int]);
            assert forall|v: int| 0 <= v < count implies #[trigger] counts@[v] == capped(
                arg_uses(ir.nodes@, v as u32) + side_uses(next, v as u32),
            ) by {
                assert(before[v] == capped(arg_uses(ir.nodes@, v as u32) + side_uses(sub, v as u32)));
            }
        }
        k = k + 1;
    }
    proof {
        assert(ir.assertions@.subrange(0, ir.assertions@.len() as int) =~= ir.assertions@);
    }
    let mut out: Vec<bool> = Vec::new();
    let mut w: usize = 0;
    while w < count
        invariant
            w <= count,
            count == ir.spec_wire_count(),
            counts@.len() == count,
            out@.len() == w,
            forall|v: int| 0 <= v < count ==> #[trigger] counts@[v] == capped(arg_uses(ir.nodes@, v as u32) + side_uses(ir.assertions@, v as u32)),
            forall|v: int| 0 <= v < w ==> #[trigger] out@[v] == shared(ir, v as u32),
        decreases count - w,
    {
        out.push(counts[w] > 1);
        w = w + 1;
    }
    out
}

/// Rows carrying these gates hold a wire exactly when some gate cell does.
proof fn lemma_held<F>(rows: Seq<Row<F>>, gates: Seq<Gate<F>>, w: u32)
    requires
        rows.len() == gates.len(),
        forall|i: int| 0 <= i < rows.len() ==> row_matches(#[trigger] rows[i], gates[i]),
    ensures
        cells_holding(rows, w).len() > 0 <==> gates_hold_wire(gates, w),
    decreases rows.len(),
{
    if rows.len() > 0 {
        let n = rows.len() - 1;
        let rf = rows.drop_last();
        let gf = gates.drop_last();
        assert forall|i: int| 0 <= i < rf.len() implies row_matches(#[trigger] rf[i], gf[i]) by {
            assert(rf[i] == rows[i]);
        }
        lemma_held(rf, gf, w);
        let last = rows.last();
        assert(row_matches(rows[n], gates[n]));
        let tail = row_cells_holding(last, n, w);
        let here = last.cells@[0] == Some(w) || last.cells@[1] == Some(w) || last.cells@[2] == Some(w);
        assert(tail.len() > 0 <==> here);
        if gates_hold_wire(gates, w) {
            let (i, j) = choose|i: int, j: int| 0 <= i < gates.len() && 0 <= j < 3 && #[trigger] gates[i].cells[j] == Some(w);
            if i < n {
                assert(gf[i].cells[j] == Some(w));
            } else {
                assert(here);
            }
        }
        if gates_hold_wire(gf, w) {
            let (i, j) = choose|i: int, j: int| 0 <= i < gf.len() && 0 <= j < 3 && #[trigger] gf[i].cells[j] == Some(w);
            assert(gates[i].cells[j] == Some(w));
        }
        if here {
            if last.cells@[0] == Some(w) {
                assert(gates[n].cells[0] == Some(w));
            } else if last.cells@[1] == Some(w) {
                assert(gates[n].cells[1] == Some(w));
            } else {
                assert(gates[n].cells[2] == Some(w));
            }
        }
    }
}

/// What the fused lowering produces: exactly the rows of `fused_gates`;
/// for each wire in turn, copy constraints chaining its cells in table order;
/// the public inputs in order, each bound to the first cell holding it; and a
/// table whose honest filling satisfies every row and copy constraint exactly
/// when the circuit's assertions hold: fusion makes the circuit cheaper, never
/// weaker.
pub open spec fn fused_lowered<F: ZkField>(ir: &Ir, circuit: Plonkish<F>) -> bool {
    let gates = fused_gates::<F>(ir);
    &&& circuit.rows@.len() == gates.len()
    &&& forall|i: int| 0 <= i < gates.len() ==> row_matches(#[trigger] circuit.rows@[i], gates[i])
    &&& circuit.cells_below(ir.spec_wire_count())
    &&& circuit.copies_within(circuit.rows@.len())
    &&& circuit.copies@ == wiring(circuit.rows@, ir.spec_wire_count())
    &&& circuit.public_cells@.len() == public_wires(ir.inputs@).len()
    &&& forall|k: int| 0 <= k < circuit.public_cells@.len() ==> {
        &&& (#[trigger] circuit.public_cells@[k]).0 == public_wires(ir.inputs@)[k]
        &&& holds_wire(circuit.rows@, circuit.public_cells@[k].1, circuit.public_cells@[k].0)
        &&& circuit.public_cells@[k].1 == cells_holding(circuit.rows@, circuit.public_cells@[k].0)[0]
    }
    &&& forall|values: Seq<F>| crate::witness::wire_values_ok(ir, values) ==> (#[trigger] circuit.spec_is_satisfied(
        circuit.spec_assignment(values),
    ) <==> crate::witness::assertions_hold(ir, values))
}

/// The cells each wire occupies in `rows`.
fn record_cells<F>(rows: &Vec<Row<F>>, count: usize) -> (r: Vec<Vec<Cell>>)
    requires
        count <= u32::MAX,
        rows_cells_below(rows@, count as nat),
    ensures
        r@.len() == count,
        forall|v: int| 0 <= v < count ==> (#[trigger] r@[v])@ == cells_holding(rows@, v as u32),
{
    let mut wire_cells: Vec<Vec<Cell>> = Vec::new();
    let mut w: usize = 0;
    while w < count
        invariant
            w <= count,
            wire_cells@.len() == w,
            forall|v: int| 0 <= v < w ==> (#[trigger] wire_cells@[v])@.len() == 0,
        decreases count - w,
    {
        wire_cells.push(Vec::new());
        w = w + 1;
    }
    assert(rows@.subrange(0, 0) =~= Seq::<Row<F>>::empty());
    let mut i: usize = 0;
    while i < rows.len()
        invariant
            i <= rows@.len(),
            count <= u32::MAX,
            rows_cells_below(rows@, count as nat),
            wire_cells@.len() == count,
            forall|v: int| 0 <= v < count ==> (#[trigger] wire_cells@[v])@ == cells_holding(rows@.subrange(0, i as int), v as u32),
        decreases rows@.len() - i,
    {
        proof {
            assert forall|j: int| 0 <= j < 3 implies (#[trigger] rows@[i as int].cells@[j] matches Some(x) ==> x < wire_cells@.len()) by {}
        }
        place_row(&mut wire_cells, &rows[i], i);
        proof {
            let sub = rows@.subrange(0, i as int);
            assert(rows@.subrange(0, i as int + 1) =~= sub.push(rows@[i as int]));
            assert forall|v: int| 0 <= v < count implies (#[trigger] wire_cells@[v])@ == cells_holding(rows@.subrange(0, i as int + 1), v as u32) by {
                lemma_cells_holding_push(sub, rows@[i as int], v as u32);
            }
        }
        i = i + 1;
    }
    assert(rows@.subrange(0, rows@.len() as int) =~= rows@);
    wire_cells
}

/// Lower the Core IR to a fused Plonkish circuit: every node folded into its
/// consumer while it fits one row, materialised where it does not or where
/// it is used more than once; one row per assertion; a binding row for each
/// public input no row mentions.
pub(crate) fn lower_fused<F: ZkField>(ir: &Ir) -> (r: Result<Plonkish<F>, String>)
    requires
        well_formed(ir),
    ensures
        r is Ok <==> crate::lower::consts_parse(ir),
        r matches Ok(circuit) ==> fused_lowered(ir, circuit),
{
    let count = ir.wire_count();
    let ghost cnt = count as nat;
    let is_shared = shared_wires(ir);
    let mut shapes: Vec<Shape<F>> = Vec::new();
    let mut w: usize = 0;
    while w < count
        invariant
            w <= count,
            count == ir.spec_wire_count(),
            count <= u32::MAX,
            shapes@.len() == w,
            forall|v: int| 0 <= v < w ==> #[trigger] shapes@[v] == plain::<F>(v as u32),
        decreases count - w,
    {
        shapes.push(plain_exec(w as u32));
        w = w + 1;
    }
    let mut rows: Vec<Row<F>> = Vec::new();
    proof {
        assert(shapes@ =~= fold_start::<F>(cnt).shapes);
        assert forall|v: int| 0 <= v < cnt implies shape_below(#[trigger] shapes@[v], cnt) by {
            lemma_plain_terms::<F>(v as u32);
        }
        assert(holds_state(shapes@, rows@, fold_nodes::<F>(ir, 0), cnt));
    }
    let mut k: usize = 0;
    while k < ir.nodes.len()
        invariant
            well_formed(ir),
            count == ir.spec_wire_count(),
            cnt == count,
            k <= ir.nodes@.len(),
            is_shared@.len() == count,
            forall|v: int| 0 <= v < count ==> #[trigger] is_shared@[v] == shared(ir, v as u32),
            holds_state(shapes@, rows@, fold_nodes::<F>(ir, k as nat), cnt),
            forall|j: int| 0 <= j < k ==> (#[trigger] ir.nodes@[j].op matches NodeOp::Const { value } ==> crate::field::is_decimal_text(encode_utf8(value@))),
        decreases ir.nodes@.len() - k,
    {
        let node = &ir.nodes[k];
        proof {
            assert(ir.node_ok(k as int));
        }
        let ghost st = fold_nodes::<F>(ir, k as nat);
        match fold_node_exec(&mut shapes, &mut rows, node, is_shared[node.wire as usize], Ghost(st)) {
            Ok(()) => {},
            Err(e) => {
                proof {
                    assert(!(ir.nodes@[k as int].op matches NodeOp::Const { value } ==> crate::field::is_decimal_text(encode_utf8(value@))));
                }
                return Err(e);
            },
        }
        proof {
            assert(fold_nodes::<F>(ir, (k + 1) as nat) == fold_node(st, ir.nodes@[k as int], shared(ir, ir.nodes@[k as int].wire)));
        }
        k = k + 1;
    }
    let mut k: usize = 0;
    while k < ir.assertions.len()
        invariant
            well_formed(ir),
            count == ir.spec_wire_count(),
            cnt == count,
            k <= ir.assertions@.len(),
            holds_state(shapes@, rows@, fold_assertions::<F>(ir, k as nat), cnt),
        decreases ir.assertions@.len() - k,
    {
        let assertion = &ir.assertions[k];
        proof {
            assert(assertion.lhs < count && assertion.rhs < count);
        }
        let ghost st = fold_assertions::<F>(ir, k as nat);
        fold_assertion_exec(&mut shapes, &mut rows, assertion, Ghost(st));
        proof {
            assert(fold_assertions::<F>(ir, (k + 1) as nat) == fold_assertion(st, ir.assertions@[k as int]));
        }
        k = k + 1;
    }

    // A public input that no row mentions still has to be bound to a cell.
    let ghost folded = fold_assertions::<F>(ir, ir.assertions@.len()).gates;
    let mut wire_cells = record_cells(&rows, count);
    let mut i: usize = 0;
    while i < ir.inputs.len()
        invariant
            well_formed(ir),
            count == ir.spec_wire_count(),
            cnt == count,
            i <= ir.inputs@.len(),
            wire_cells@.len() == count,
            rows_cells_below(rows@, cnt),
            rows@.len() == bind_inputs(folded, ir.inputs@, i as nat).len(),
            forall|r: int| 0 <= r < rows@.len() ==> row_matches(#[trigger] rows@[r], bind_inputs(folded, ir.inputs@, i as nat)[r]),
            forall|v: int| 0 <= v < count ==> (#[trigger] wire_cells@[v])@ == cells_holding(rows@, v as u32),
            forall|j: int| 0 <= j < i && (#[trigger] ir.inputs@[j]).visibility.spec_is_public() ==> wire_cells@[ir.inputs@[j].wire as int]@.len() > 0,
        decreases ir.inputs@.len() - i,
    {
        let input = &ir.inputs[i];
        let ghost g = bind_inputs(folded, ir.inputs@, i as nat);
        let ghost before = rows@;
        let ghost before_cells = wire_cells@;
        proof {
            assert(input.wire == i + 1);
            lemma_held(rows@, g, input.wire);
        }
        if input.visibility.is_public() && wire_cells[input.wire as usize].len() == 0 {
            let row_index = rows.len();
            let row = Row {
                q_l: F::zero(),
                q_r: F::zero(),
                q_o: F::zero(),
                q_m: F::zero(),
                q_c: F::zero(),
                cells: [Some(input.wire), None, None],
                origin: msg_binding(&input.name),
            };
            assert(row.cells@ =~= seq![Some(input.wire), None, None]);
            proof {
                assert forall|j: int| 0 <= j < 3 implies (#[trigger] row.cells@[j] matches Some(x) ==> x < wire_cells@.len()) by {}
            }
            place_row(&mut wire_cells, &row, row_index);
            rows.push(row);
            proof {
                assert(rows@ =~= before.push(row));
                assert forall|v: int| 0 <= v < count implies (#[trigger] wire_cells@[v])@ == cells_holding(rows@, v as u32) by {
                    lemma_cells_holding_push(before, row, v as u32);
                }
                assert(row_cells_holding(row, row_index as int, input.wire).len() > 0);
            }
        }
        proof {
            assert(bind_inputs(folded, ir.inputs@, (i + 1) as nat) == (if input.visibility.spec_is_public() && !gates_hold_wire(g, input.wire) {
                g.push(bind_gate(input.wire))
            } else {
                g
            }));
            assert forall|r: int| 0 <= r < rows@.len() implies row_matches(#[trigger] rows@[r], bind_inputs(folded, ir.inputs@, (i + 1) as nat)[r]) by {
                if r < before.len() {
                    assert(rows@[r] == before[r]);
                }
            }
            assert forall|a: int, j: int| 0 <= a < rows@.len() && 0 <= j < 3 implies (#[trigger] rows@[a].cells@[j] matches Some(x) ==> x < cnt) by {
                if a < before.len() {
                    assert(rows@[a] == before[a]);
                }
            }
            assert forall|j: int| 0 <= j < i + 1 && (#[trigger] ir.inputs@[j]).visibility.spec_is_public() implies wire_cells@[ir.inputs@[j].wire as int]@.len() > 0 by {
                let x = ir.inputs@[j].wire;
                assert(x == j + 1);
                assert(wire_cells@[x as int]@.len() >= before_cells[x as int]@.len());
            }
        }
        i = i + 1;
    }
    let ghost laid = rows@;
    let circuit = wire_up(ir, rows, wire_cells);
    proof {
        assert(circuit.rows@ == laid);
        let gates = fused_gates::<F>(ir);
        assert(crate::lower::consts_parse(ir));
        assert forall|values: Seq<F>| crate::witness::wire_values_ok(ir, values) implies (#[trigger] circuit.spec_is_satisfied(
            circuit.spec_assignment(values),
        ) <==> crate::witness::assertions_hold(ir, values)) by {
            let table = circuit.spec_assignment(values);
            lemma_fused_meaning::<F>(ir, values);
            assert forall|k: int| 0 <= k < circuit.copies@.len() implies #[trigger] crate::plonkish::cell_value(table, circuit.copies@[k].0)
                == crate::plonkish::cell_value(table, circuit.copies@[k].1) by {
                let v = choose|v: u32| #[trigger] holds_wire(circuit.rows@, circuit.copies@[k].0, v) && holds_wire(circuit.rows@, circuit.copies@[k].1, v);
                assert(crate::plonkish::cell_value(table, circuit.copies@[k].0) == values[v as int]);
            }
            assert forall|r: int| 0 <= r < circuit.rows@.len() implies #[trigger] crate::plonkish::gate_value(circuit.rows@[r], table[r])
                == gate_eval(gates[r], values) by {
                assert(row_matches(circuit.rows@[r], gates[r]));
                let h = crate::plonkish::honest_row(circuit.rows@[r].cells@, values);
                assert(h[0] == cell_of(gates[r].cells[0], values));
                assert(h[1] == cell_of(gates[r].cells[1], values));
                assert(h[2] == cell_of(gates[r].cells[2], values));
            }
            if crate::witness::assertions_hold(ir, values) {
                assert forall|r: int| 0 <= r < circuit.rows@.len() implies #[trigger] crate::plonkish::gate_value(circuit.rows@[r], table[r])
                    == F::spec_zero() by {
                    assert(gate_eval(gates[r], values) == F::spec_zero());
                }
            }
            if circuit.spec_is_satisfied(table) {
                assert forall|r: int| 0 <= r < gates.len() implies gate_eval(#[trigger] gates[r], values) == F::spec_zero() by {
                    assert(crate::plonkish::gate_value(circuit.rows@[r], table[r]) == F::spec_zero());
                }
            }
        }
    }
    Ok(circuit)
}

/// The wires of a list of terms.
pub open spec fn wires_of<F>(t: Seq<Term<F>>) -> Seq<u32> {
    Seq::new(t.len(), |i: int| t[i].wire)
}

/// Two shapes, over possibly different fields, alike in all but their
/// field elements.
pub open spec fn same_skeleton<F: ZkField, G: ZkField>(a: Shape<F>, b: Shape<G>) -> bool {
    &&& (a is Mul) == (b is Mul)
    &&& (a is Wire) == (b is Wire)
    &&& (a is Lin) == (b is Lin)
    &&& wires_of(terms(a)) == wires_of(terms(b))
    &&& (a is Mul ==> a->u == b->u && a->v == b->v)
}

/// Two fold states alike in all but their field elements.
pub open spec fn same_fold<F: ZkField, G: ZkField>(x: Fold<F>, y: Fold<G>) -> bool {
    &&& x.shapes.len() == y.shapes.len()
    &&& forall|i: int| 0 <= i < x.shapes.len() ==> same_skeleton(#[trigger] x.shapes[i], y.shapes[i])
    &&& x.gates.len() == y.gates.len()
    &&& forall|i: int| 0 <= i < x.gates.len() ==> (#[trigger] x.gates[i]).cells == y.gates[i].cells
}

proof fn lemma_wire_at_same<F, G>(t: Seq<Term<F>>, u: Seq<Term<G>>, i: int)
    requires
        wires_of(t) == wires_of(u),
    ensures
        wire_at(t, i) == wire_at(u, i),
        t.len() == u.len(),
{
    assert(wires_of(t).len() == t.len());
    assert(wires_of(u).len() == u.len());
    if 0 <= i < t.len() {
        assert(wires_of(t)[i] == t[i].wire);
        assert(wires_of(u)[i] == u[i].wire);
    }
}

proof fn lemma_def_gate_same<F: ZkField, G: ZkField>(a: Shape<F>, b: Shape<G>, n: u32)
    requires
        same_skeleton(a, b),
    ensures
        def_gate(a, n).cells == def_gate(b, n).cells,
{
    lemma_wire_at_same(terms(a), terms(b), 0);
    lemma_wire_at_same(terms(a), terms(b), 1);
}

proof fn lemma_mat_same<F: ZkField, G: ZkField>(x: Fold<F>, y: Fold<G>, w: u32)
    requires
        same_fold(x, y),
        w < x.shapes.len(),
    ensures
        same_fold(mat(x, w), mat(y, w)),
{
    lemma_def_gate_same(x.shapes[w as int], y.shapes[w as int], w);
    let mx = mat(x, w);
    let my = mat(y, w);
    assert forall|i: int| 0 <= i < mx.shapes.len() implies same_skeleton(#[trigger] mx.shapes[i], my.shapes[i]) by {
        if i == w {
            assert(wires_of(terms(plain::<F>(w))) =~= wires_of(terms(plain::<G>(w))));
        }
    }
    assert forall|i: int| 0 <= i < mx.gates.len() implies (#[trigger] mx.gates[i]).cells == my.gates[i].cells by {
        if i < x.gates.len() {
            assert(mx.gates[i] == x.gates[i]);
            assert(my.gates[i] == y.gates[i]);
        }
    }
}

proof fn lemma_mat_if_same<F: ZkField, G: ZkField>(x: Fold<F>, y: Fold<G>, w: u32, cond: bool)
    requires
        same_fold(x, y),
        w < x.shapes.len(),
    ensures
        same_fold(mat_if(x, w, cond), mat_if(y, w, cond)),
{
    if cond {
        lemma_mat_same(x, y, w);
    }
}

proof fn lemma_with_shape_same<F: ZkField, G: ZkField>(x: Fold<F>, y: Fold<G>, w: u32, a: Shape<F>, b: Shape<G>)
    requires
        same_fold(x, y),
        same_skeleton(a, b),
        w < x.shapes.len(),
    ensures
        same_fold(with_shape(x, w, a), with_shape(y, w, b)),
{
    let mx = with_shape(x, w, a);
    let my = with_shape(y, w, b);
    assert forall|i: int| 0 <= i < mx.shapes.len() implies same_skeleton(#[trigger] mx.shapes[i], my.shapes[i]) by {
        if i != w {
            assert(mx.shapes[i] == x.shapes[i]);
            assert(my.shapes[i] == y.shapes[i]);
        }
    }
}

proof fn lemma_width_same<F: ZkField, G: ZkField>(a: Shape<F>, b: Shape<G>)
    requires
        same_skeleton(a, b),
    ensures
        width(a) == width(b),
        is_const(a) == is_const(b),
        terms(a).len() == terms(b).len(),
{
    assert(wires_of(terms(a)).len() == terms(a).len());
    assert(wires_of(terms(b)).len() == terms(b).len());
}

proof fn lemma_lin_from_same<F: ZkField, G: ZkField>(t: Seq<Term<F>>, u: Seq<Term<G>>, c: F, d: G)
    requires
        wires_of(t) == wires_of(u),
    ensures
        same_skeleton(lin_from(t, c), lin_from(u, d)),
{
    lemma_wire_at_same(t, u, 0);
    lemma_wire_at_same(t, u, 1);
    let a = lin_from(t, c);
    let b = lin_from(u, d);
    if t.len() == 0 {
        assert(terms(a) =~= Seq::<Term<F>>::empty());
        assert(terms(b) =~= Seq::<Term<G>>::empty());
    } else if t.len() == 1 {
        assert(terms(a) =~= seq![t[0]]);
        assert(terms(b) =~= seq![u[0]]);
    } else {
        assert(terms(a) =~= seq![t[0], t[1]]);
        assert(terms(b) =~= seq![u[0], u[1]]);
    }
    assert(wires_of(terms(a)) =~= wires_of(terms(b)));
}

proof fn lemma_negs_wires<F: ZkField>(t: Seq<Term<F>>)
    ensures
        wires_of(negs(t)) == wires_of(t),
{
    assert(wires_of(negs(t)) =~= wires_of(t));
}

proof fn lemma_concat_wires<F, G>(t: Seq<Term<F>>, u: Seq<Term<G>>, t2: Seq<Term<F>>, u2: Seq<Term<G>>)
    requires
        wires_of(t) == wires_of(u),
        wires_of(t2) == wires_of(u2),
    ensures
        wires_of(t + t2) == wires_of(u + u2),
{
    lemma_wire_at_same(t, u, 0);
    lemma_wire_at_same(t2, u2, 0);
    assert forall|i: int| 0 <= i < (t + t2).len() implies #[trigger] wires_of(t + t2)[i] == wires_of(u + u2)[i] by {
        assert(wires_of(t + t2)[i] == (t + t2)[i].wire);
        assert(wires_of(u + u2)[i] == (u + u2)[i].wire);
        if i < t.len() {
            assert(wires_of(t)[i] == wires_of(u)[i]);
            assert(wires_of(t)[i] == t[i].wire);
            assert(wires_of(u)[i] == u[i].wire);
            assert((t + t2)[i] == t[i]);
            assert((u + u2)[i] == u[i]);
        } else {
            assert(wires_of(t2)[i - t.len()] == wires_of(u2)[i - t.len()]);
            assert(wires_of(t2)[i - t.len()] == t2[i - t.len()].wire);
            assert(wires_of(u2)[i - t.len()] == u2[i - t.len()].wire);
            assert((t + t2)[i] == t2[i - t.len()]);
            assert((u + u2)[i] == u2[i - t.len()]);
        }
    }
    assert(wires_of(t + t2) =~= wires_of(u + u2));
}

proof fn lemma_sum_same<F: ZkField, G: ZkField>(a: Shape<F>, b: Shape<G>, a2: Shape<F>, b2: Shape<G>, subtract: bool)
    requires
        same_skeleton(a, b),
        same_skeleton(a2, b2),
    ensures
        same_skeleton(lin_sum(a, a2, subtract), lin_sum(b, b2, subtract)),
{
    lemma_negs_wires(terms(a2));
    lemma_negs_wires(terms(b2));
    if subtract {
        lemma_concat_wires(terms(a), terms(b), negs(terms(a2)), negs(terms(b2)));
        lemma_lin_from_same(terms(a) + negs(terms(a2)), terms(b) + negs(terms(b2)), constant(a).spec_sub(constant(a2)), constant(b).spec_sub(constant(b2)));
    } else {
        lemma_concat_wires(terms(a), terms(b), terms(a2), terms(b2));
        lemma_lin_from_same(terms(a) + terms(a2), terms(b) + terms(b2), constant(a).spec_add(constant(a2)), constant(b).spec_add(constant(b2)));
    }
}

proof fn lemma_scale_same<F: ZkField, G: ZkField>(a: Shape<F>, b: Shape<G>, k: F, m: G)
    requires
        same_skeleton(a, b),
    ensures
        same_skeleton(scale(a, k), scale(b, m)),
{
    let x = scale(a, k);
    let y = scale(b, m);
    lemma_width_same(a, b);
    if a is Lin {
        assert(terms(x).len() == terms(a).len());
        assert(terms(y).len() == terms(b).len());
        assert forall|i: int| 0 <= i < terms(x).len() implies #[trigger] wires_of(terms(x))[i] == wires_of(terms(y))[i] by {
            assert(terms(x)[i].wire == terms(a)[i].wire);
            assert(terms(y)[i].wire == terms(b)[i].wire);
            assert(wires_of(terms(a))[i] == wires_of(terms(b))[i]);
        }
        assert(wires_of(terms(x)) =~= wires_of(terms(y)));
    } else if a is Wire {
        assert(wires_of(terms(a))[0] == wires_of(terms(b))[0]);
        assert(wires_of(terms(x)) =~= wires_of(terms(y)));
    }
}

proof fn lemma_fold_sum_same<F: ZkField, G: ZkField>(x: Fold<F>, y: Fold<G>, out: u32, a: u32, b: u32, subtract: bool)
    requires
        same_fold(x, y),
        out < x.shapes.len(),
        a < x.shapes.len(),
        b < x.shapes.len(),
    ensures
        same_fold(fold_sum(x, out, a, b, subtract), fold_sum(y, out, a, b, subtract)),
{
    let x1 = mat_if(x, a, x.shapes[a as int] is Mul);
    let y1 = mat_if(y, a, y.shapes[a as int] is Mul);
    assert(same_skeleton(x.shapes[a as int], y.shapes[a as int]));
    lemma_mat_if_same(x, y, a, x.shapes[a as int] is Mul);
    let x2 = mat_if(x1, b, x1.shapes[b as int] is Mul);
    let y2 = mat_if(y1, b, y1.shapes[b as int] is Mul);
    assert(same_skeleton(x1.shapes[b as int], y1.shapes[b as int]));
    lemma_mat_if_same(x1, y1, b, x1.shapes[b as int] is Mul);
    assert(same_skeleton(x2.shapes[a as int], y2.shapes[a as int]));
    assert(same_skeleton(x2.shapes[b as int], y2.shapes[b as int]));
    lemma_width_same(x2.shapes[a as int], y2.shapes[a as int]);
    lemma_width_same(x2.shapes[b as int], y2.shapes[b as int]);
    let c3 = width(x2.shapes[a as int]) + width(x2.shapes[b as int]) > 2 && width(x2.shapes[a as int]) == 2;
    let x3 = mat_if(x2, a, c3);
    let y3 = mat_if(y2, a, c3);
    lemma_mat_if_same(x2, y2, a, c3);
    assert(same_skeleton(x3.shapes[a as int], y3.shapes[a as int]));
    assert(same_skeleton(x3.shapes[b as int], y3.shapes[b as int]));
    lemma_width_same(x3.shapes[a as int], y3.shapes[a as int]);
    lemma_width_same(x3.shapes[b as int], y3.shapes[b as int]);
    let c4 = width(x3.shapes[a as int]) + width(x3.shapes[b as int]) > 2;
    let x4 = mat_if(x3, b, c4);
    let y4 = mat_if(y3, b, c4);
    lemma_mat_if_same(x3, y3, b, c4);
    assert(same_skeleton(x4.shapes[a as int], y4.shapes[a as int]));
    assert(same_skeleton(x4.shapes[b as int], y4.shapes[b as int]));
    lemma_sum_same(x4.shapes[a as int], y4.shapes[a as int], x4.shapes[b as int], y4.shapes[b as int], subtract);
    lemma_with_shape_same(x4, y4, out, lin_sum(x4.shapes[a as int], x4.shapes[b as int], subtract), lin_sum(y4.shapes[a as int], y4.shapes[b as int], subtract));
}

proof fn lemma_fold_product_same<F: ZkField, G: ZkField>(x: Fold<F>, y: Fold<G>, out: u32, a: u32, b: u32)
    requires
        same_fold(x, y),
        out < x.shapes.len(),
        a < x.shapes.len(),
        b < x.shapes.len(),
    ensures
        same_fold(fold_product(x, out, a, b), fold_product(y, out, a, b)),
{
    let sa = x.shapes[a as int];
    let sb = x.shapes[b as int];
    let ta = y.shapes[a as int];
    let tb = y.shapes[b as int];
    assert(same_skeleton(sa, ta));
    assert(same_skeleton(sb, tb));
    lemma_width_same(sa, ta);
    lemma_width_same(sb, tb);
    if is_const(sa) {
        lemma_scale_same(sb, tb, constant(sa), constant(ta));
        lemma_with_shape_same(x, y, out, scale(sb, constant(sa)), scale(tb, constant(ta)));
    } else if is_const(sb) {
        lemma_scale_same(sa, ta, constant(sb), constant(tb));
        lemma_with_shape_same(x, y, out, scale(sa, constant(sb)), scale(ta, constant(tb)));
    } else {
        let x1 = mat_if(x, a, !(sa is Wire));
        let y1 = mat_if(y, a, !(ta is Wire));
        lemma_mat_if_same(x, y, a, !(sa is Wire));
        let x2 = mat_if(x1, b, !(x1.shapes[b as int] is Wire));
        let y2 = mat_if(y1, b, !(y1.shapes[b as int] is Wire));
        assert(same_skeleton(x1.shapes[b as int], y1.shapes[b as int]));
        lemma_mat_if_same(x1, y1, b, !(x1.shapes[b as int] is Wire));
        assert(same_skeleton(x2.shapes[a as int], y2.shapes[a as int]));
        assert(same_skeleton(x2.shapes[b as int], y2.shapes[b as int]));
        assert(wires_of(terms(x2.shapes[a as int]))[0] == wires_of(terms(y2.shapes[a as int]))[0]);
        assert(wires_of(terms(x2.shapes[b as int]))[0] == wires_of(terms(y2.shapes[b as int]))[0]);
        let mf = Shape::Mul { u: plain_wire(x2.shapes[a as int]), v: plain_wire(x2.shapes[b as int]), k: F::spec_one(), c: F::spec_zero() };
        let mg = Shape::Mul { u: plain_wire(y2.shapes[a as int]), v: plain_wire(y2.shapes[b as int]), k: G::spec_one(), c: G::spec_zero() };
        assert(wires_of(terms(mf)) =~= wires_of(terms(mg)));
        lemma_with_shape_same(x2, y2, out, mf, mg);
    }
}

proof fn lemma_fold_node_same<F: ZkField, G: ZkField>(x: Fold<F>, y: Fold<G>, node: Node, shared: bool)
    requires
        same_fold(x, y),
        node.wire < x.shapes.len(),
        node.op.spec_args().len() == node.op.spec_arity(),
        forall|j: int| 0 <= j < node.op.spec_args().len() ==> #[trigger] node.op.spec_args()[j] < node.wire,
    ensures
        same_fold(fold_node(x, node, shared), fold_node(y, node, shared)),
{
    let a = node.op.spec_args();
    let w = node.wire;
    match node.op {
        NodeOp::Const { value } => {
            let sf = Shape::<F>::Lin { a: None, b: None, c: F::spec_decimal_value(encode_utf8(value@)) };
            let sg = Shape::<G>::Lin { a: None, b: None, c: G::spec_decimal_value(encode_utf8(value@)) };
            assert(wires_of(terms(sf)) =~= wires_of(terms(sg)));
            lemma_with_shape_same(x, y, w, sf, sg);
        },
        NodeOp::Add { .. } => {
            assert(a[0] < w && a[1] < w);
            lemma_fold_sum_same(x, y, w, a[0], a[1], false);
        },
        NodeOp::Sub { .. } => {
            assert(a[0] < w && a[1] < w);
            lemma_fold_sum_same(x, y, w, a[0], a[1], true);
        },
        NodeOp::Mul { .. } => {
            assert(a[0] < w && a[1] < w);
            lemma_fold_product_same(x, y, w, a[0], a[1]);
        },
        NodeOp::Neg { .. } => {
            assert(a[0] < w);
            assert(same_skeleton(x.shapes[a[0] as int], y.shapes[a[0] as int]));
            lemma_scale_same(x.shapes[a[0] as int], y.shapes[a[0] as int], F::spec_one().spec_neg(), G::spec_one().spec_neg());
            lemma_with_shape_same(
                x,
                y,
                w,
                scale(x.shapes[a[0] as int], F::spec_one().spec_neg()),
                scale(y.shapes[a[0] as int], G::spec_one().spec_neg()),
            );
        },
        NodeOp::Hint { .. } => {
            assert(wires_of(terms(plain::<F>(w))) =~= wires_of(terms(plain::<G>(w))));
            lemma_with_shape_same(x, y, w, plain::<F>(w), plain::<G>(w));
        },
    }
    let nx = fold_node_shape(x, node);
    let ny = fold_node_shape(y, node);
    if shared && !(node.op is Hint) {
        lemma_mat_same(nx, ny, w);
    }
}

proof fn lemma_assert_gate_same<F: ZkField, G: ZkField>(l: Shape<F>, r: Shape<F>, l2: Shape<G>, r2: Shape<G>)
    requires
        same_skeleton(l, l2),
        same_skeleton(r, r2),
    ensures
        assert_gate(l, r).cells == assert_gate(l2, r2).cells,
{
    lemma_negs_wires(terms(r));
    lemma_negs_wires(terms(r2));
    lemma_wire_at_same(negs(terms(r)), negs(terms(r2)), 0);
    lemma_wire_at_same(terms(l), terms(l2), 0);
    lemma_concat_wires(terms(l), terms(l2), negs(terms(r)), negs(terms(r2)));
    let t = terms(l) + negs(terms(r));
    let u = terms(l2) + negs(terms(r2));
    lemma_wire_at_same(t, u, 0);
    lemma_wire_at_same(t, u, 1);
    lemma_wire_at_same(t, u, 2);
}

proof fn lemma_fold_assertion_same<F: ZkField, G: ZkField>(x: Fold<F>, y: Fold<G>, assertion: Assertion)
    requires
        same_fold(x, y),
        assertion.lhs < x.shapes.len(),
        assertion.rhs < x.shapes.len(),
    ensures
        same_fold(fold_assertion(x, assertion), fold_assertion(y, assertion)),
{
    let l = assertion.lhs;
    let r = assertion.rhs;
    assert(same_skeleton(x.shapes[l as int], y.shapes[l as int]));
    assert(same_skeleton(x.shapes[r as int], y.shapes[r as int]));
    let c1 = x.shapes[l as int] is Mul && x.shapes[r as int] is Mul;
    let x1 = mat_if(x, r, c1);
    let y1 = mat_if(y, r, c1);
    lemma_mat_if_same(x, y, r, c1);
    assert(same_skeleton(x1.shapes[l as int], y1.shapes[l as int]));
    assert(same_skeleton(x1.shapes[r as int], y1.shapes[r as int]));
    lemma_width_same(x1.shapes[r as int], y1.shapes[r as int]);
    let c2 = x1.shapes[l as int] is Mul && width(x1.shapes[r as int]) == 2;
    let x2 = mat_if(x1, r, c2);
    let y2 = mat_if(y1, r, c2);
    lemma_mat_if_same(x1, y1, r, c2);
    assert(same_skeleton(x2.shapes[l as int], y2.shapes[l as int]));
    assert(same_skeleton(x2.shapes[r as int], y2.shapes[r as int]));
    lemma_width_same(x2.shapes[l as int], y2.shapes[l as int]);
    let c3 = x2.shapes[r as int] is Mul && width(x2.shapes[l as int]) == 2;
    let x3 = mat_if(x2, l, c3);
    let y3 = mat_if(y2, l, c3);
    lemma_mat_if_same(x2, y2, l, c3);
    assert(same_skeleton(x3.shapes[l as int], y3.shapes[l as int]));
    assert(same_skeleton(x3.shapes[r as int], y3.shapes[r as int]));
    lemma_width_same(x3.shapes[l as int], y3.shapes[l as int]);
    lemma_width_same(x3.shapes[r as int], y3.shapes[r as int]);
    let c4 = !(x3.shapes[l as int] is Mul) && !(x3.shapes[r as int] is Mul) && width(x3.shapes[l as int]) + width(x3.shapes[r as int]) > 3;
    let x4 = mat_if(x3, r, c4);
    let y4 = mat_if(y3, r, c4);
    lemma_mat_if_same(x3, y3, r, c4);
    assert(same_skeleton(x4.shapes[l as int], y4.shapes[l as int]));
    assert(same_skeleton(x4.shapes[r as int], y4.shapes[r as int]));
    lemma_assert_gate_same(x4.shapes[l as int], x4.shapes[r as int], y4.shapes[l as int], y4.shapes[r as int]);
    let fx = fold_assertion(x, assertion);
    let fy = fold_assertion(y, assertion);
    assert forall|i: int| 0 <= i < fx.gates.len() implies (#[trigger] fx.gates[i]).cells == fy.gates[i].cells by {
        if i < x4.gates.len() {
            assert(fx.gates[i] == x4.gates[i]);
            assert(fy.gates[i] == y4.gates[i]);
        }
    }
}

proof fn lemma_fold_nodes_same<F: ZkField, G: ZkField>(ir: &Ir, k: nat)
    requires
        well_formed(ir),
        k <= ir.nodes@.len(),
    ensures
        same_fold(fold_nodes::<F>(ir, k), fold_nodes::<G>(ir, k)),
        fold_nodes::<F>(ir, k).shapes.len() == ir.spec_wire_count(),
    decreases k,
{
    if k == 0 {
        let x = fold_start::<F>(ir.spec_wire_count());
        let y = fold_start::<G>(ir.spec_wire_count());
        assert forall|i: int| 0 <= i < x.shapes.len() implies same_skeleton(#[trigger] x.shapes[i], y.shapes[i]) by {
            assert(wires_of(terms(plain::<F>(i as u32))) =~= wires_of(terms(plain::<G>(i as u32))));
        }
    } else {
        lemma_fold_nodes_same::<F, G>(ir, (k - 1) as nat);
        assert(ir.node_ok(k - 1));
        let node = ir.nodes@[k - 1];
        lemma_fold_node_same(fold_nodes::<F>(ir, (k - 1) as nat), fold_nodes::<G>(ir, (k - 1) as nat), node, shared(ir, node.wire));
        lemma_fold_node_len::<F>(fold_nodes::<F>(ir, (k - 1) as nat), node, shared(ir, node.wire));
    }
}

proof fn lemma_fold_node_len<F: ZkField>(x: Fold<F>, node: Node, shared: bool)
    requires
        node.wire < x.shapes.len(),
        node.op.spec_args().len() == node.op.spec_arity(),
        forall|j: int| 0 <= j < node.op.spec_args().len() ==> #[trigger] node.op.spec_args()[j] < node.wire,
    ensures
        fold_node(x, node, shared).shapes.len() == x.shapes.len(),
{
    let a = node.op.spec_args();
    if a.len() > 0 {
        assert(a[0] < node.wire);
    }
    if a.len() > 1 {
        assert(a[1] < node.wire);
    }
}

proof fn lemma_fold_assertions_same<F: ZkField, G: ZkField>(ir: &Ir, k: nat)
    requires
        well_formed(ir),
        k <= ir.assertions@.len(),
    ensures
        same_fold(fold_assertions::<F>(ir, k), fold_assertions::<G>(ir, k)),
        fold_assertions::<F>(ir, k).shapes.len() == ir.spec_wire_count(),
    decreases k,
{
    if k == 0 {
        lemma_fold_nodes_same::<F, G>(ir, ir.nodes@.len());
    } else {
        lemma_fold_assertions_same::<F, G>(ir, (k - 1) as nat);
        let a = ir.assertions@[k - 1];
        assert(a.lhs < ir.spec_wire_count() && a.rhs < ir.spec_wire_count());
        lemma_fold_assertion_same(fold_assertions::<F>(ir, (k - 1) as nat), fold_assertions::<G>(ir, (k - 1) as nat), a);
    }
}

proof fn lemma_bind_same<F: ZkField, G: ZkField>(x: Seq<Gate<F>>, y: Seq<Gate<G>>, inputs: Seq<Input>, k: nat)
    requires
        x.len() == y.len(),
        forall|i: int| 0 <= i < x.len() ==> (#[trigger] x[i]).cells == y[i].cells,
        k <= inputs.len(),
    ensures
        bind_inputs(x, inputs, k).len() == bind_inputs(y, inputs, k).len(),
        forall|i: int| 0 <= i < bind_inputs(x, inputs, k).len() ==> (#[trigger] bind_inputs(x, inputs, k)[i]).cells
            == bind_inputs(y, inputs, k)[i].cells,
    decreases k,
{
    if k > 0 {
        lemma_bind_same(x, y, inputs, (k - 1) as nat);
        let gx = bind_inputs(x, inputs, (k - 1) as nat);
        let gy = bind_inputs(y, inputs, (k - 1) as nat);
        let w = inputs[k - 1].wire;
        if gates_hold_wire(gx, w) {
            let (i, j) = choose|i: int, j: int| 0 <= i < gx.len() && 0 <= j < 3 && #[trigger] gx[i].cells[j] == Some(w);
            assert(gy[i].cells[j] == Some(w));
        }
        if gates_hold_wire(gy, w) {
            let (i, j) = choose|i: int, j: int| 0 <= i < gy.len() && 0 <= j < 3 && #[trigger] gy[i].cells[j] == Some(w);
            assert(gx[i].cells[j] == Some(w));
        }
        let bx = bind_inputs(x, inputs, k);
        let by = bind_inputs(y, inputs, k);
        assert forall|i: int| 0 <= i < bx.len() implies (#[trigger] bx[i]).cells == by[i].cells by {
            if i < gx.len() {
                assert(bx[i] == gx[i]);
                assert(by[i] == gy[i]);
            }
        }
    }
}

/// The fused layout reads no field element: over any two fields it has the
/// same rows holding the same cells.
pub proof fn lemma_fused_layout_field_free<F: ZkField, G: ZkField>(ir: &Ir)
    requires
        well_formed(ir),
    ensures
        fused_gates::<F>(ir).len() == fused_gates::<G>(ir).len(),
        forall|i: int| 0 <= i < fused_gates::<F>(ir).len() ==> (#[trigger] fused_gates::<F>(ir)[i]).cells == fused_gates::<G>(ir)[i].cells,
{
    let m = ir.assertions@.len();
    lemma_fold_assertions_same::<F, G>(ir, m);
    lemma_bind_same(fold_assertions::<F>(ir, m).gates, fold_assertions::<G>(ir, m).gates, ir.inputs@, ir.inputs@.len());
}

// ---------------------------------------------------------------------------
// What the fused rows mean: on lawful wire values, every row that defines a
// wire vanishes, and each assertion's row is `lhs - rhs`.

/// The honest value of a cell: its wire's value, zero when empty.
pub open spec fn cell_of<F: ZkField>(c: Option<u32>, v: Seq<F>) -> F {
    match c {
        Some(w) => v[w as int],
        None => F::spec_zero(),
    }
}

/// A gate at the honest values of its cells.
pub open spec fn gate_eval<F: ZkField>(g: Gate<F>, v: Seq<F>) -> F {
    let x = cell_of(g.cells[0], v);
    let y = cell_of(g.cells[1], v);
    let z = cell_of(g.cells[2], v);
    g.q_l.spec_mul(x).spec_add(g.q_r.spec_mul(y)).spec_add(g.q_o.spec_mul(z)).spec_add(g.q_m.spec_mul(x).spec_mul(y)).spec_add(
        g.q_c,
    )
}

/// The value of a list of terms.
pub open spec fn sum_val<F: ZkField>(t: Seq<Term<F>>, v: Seq<F>) -> F
    decreases t.len(),
{
    if t.len() == 0 {
        F::spec_zero()
    } else {
        sum_val(t.drop_last(), v).spec_add(t.last().coef.spec_mul(v[t.last().wire as int]))
    }
}

/// The value a shape stands for.
pub open spec fn shape_value<F: ZkField>(s: Shape<F>, v: Seq<F>) -> F {
    match s {
        Shape::Mul { u, v: w, k, c } => k.spec_mul(v[u as int]).spec_mul(v[w as int]).spec_add(c),
        _ => sum_val(terms(s), v).spec_add(constant(s)),
    }
}

/// A shape's field elements are canonical and a sum has at most two terms.
pub open spec fn shape_wf<F: ZkField>(s: Shape<F>) -> bool {
    match s {
        Shape::Mul { k, c, .. } => k.wf() && c.wf(),
        _ => constant(s).wf() && terms(s).len() <= 2 && forall|i: int| 0 <= i < terms(s).len() ==> (#[trigger] terms(s)[i]).coef.wf(),
    }
}

/// Every wire's shape stands for its value.
pub open spec fn fold_sound<F: ZkField>(st: Fold<F>, v: Seq<F>) -> bool {
    &&& st.shapes.len() == v.len()
    &&& forall|w: int| 0 <= w < v.len() ==> shape_wf(#[trigger] st.shapes[w])
    &&& forall|w: int| 0 <= w < v.len() ==> shape_value(#[trigger] st.shapes[w], v) == v[w]
    &&& forall|w: int| 0 <= w < v.len() ==> shape_below(#[trigger] st.shapes[w], v.len())
}

pub open spec fn values_wf<F: ZkField>(v: Seq<F>) -> bool {
    forall|w: int| 0 <= w < v.len() ==> (#[trigger] v[w]).wf()
}

proof fn lemma_sum_val_small<F: ZkField>(t: Seq<Term<F>>, v: Seq<F>)
    requires
        t.len() <= 3,
    ensures
        t.len() == 0 ==> sum_val(t, v) == F::spec_zero(),
        t.len() == 1 ==> sum_val(t, v) == F::spec_zero().spec_add(t[0].coef.spec_mul(v[t[0].wire as int])),
        t.len() == 2 ==> sum_val(t, v) == F::spec_zero().spec_add(t[0].coef.spec_mul(v[t[0].wire as int])).spec_add(
            t[1].coef.spec_mul(v[t[1].wire as int]),
        ),
        t.len() == 3 ==> sum_val(t, v) == F::spec_zero().spec_add(t[0].coef.spec_mul(v[t[0].wire as int])).spec_add(
            t[1].coef.spec_mul(v[t[1].wire as int]),
        ).spec_add(t[2].coef.spec_mul(v[t[2].wire as int])),
{
    reveal_with_fuel(sum_val, 4);
    if t.len() >= 1 {
        let d1 = t.drop_last();
        if t.len() >= 2 {
            let d2 = d1.drop_last();
            assert(d1.last() == t[t.len() - 2]);
            if t.len() == 3 {
                assert(d2.last() == t[0]);
                assert(d2.drop_last().len() == 0);
            } else {
                assert(d2.len() == 0);
            }
        } else {
            assert(d1.len() == 0);
        }
    }
}

proof fn lemma_sum_val_concat<F: ZkField>(a: Seq<Term<F>>, b: Seq<Term<F>>, v: Seq<F>)
    ensures
        sum_val(a + b, v) == sum_val(a, v).spec_add(sum_val(b, v)),
    decreases b.len(),
{
    lemma_basics(F::spec_zero(), F::spec_zero());
    if b.len() == 0 {
        assert(a + b =~= a);
        lemma_sum_val_wf(a, v);
        lemma_basics(sum_val(a, v), F::spec_zero());
    } else {
        lemma_sum_val_concat(a, b.drop_last(), v);
        assert((a + b).drop_last() =~= a + b.drop_last());
        assert((a + b).last() == b.last());
        crate::field::lemma_add_assoc(sum_val(a, v), sum_val(b.drop_last(), v), b.last().coef.spec_mul(v[b.last().wire as int]));
    }
}

proof fn lemma_sum_val_wf<F: ZkField>(t: Seq<Term<F>>, v: Seq<F>)
    ensures
        sum_val(t, v).wf(),
    decreases t.len(),
{
    lemma_basics(F::spec_zero(), F::spec_zero());
    if t.len() > 0 {
        lemma_sum_val_wf(t.drop_last(), v);
        lemma_basics(sum_val(t.drop_last(), v), t.last().coef.spec_mul(v[t.last().wire as int]));
    }
}

/// `-(a + b) = -a + -b`.
proof fn lemma_neg_add<F: ZkField>(a: F, b: F)
    requires
        a.wf(),
        b.wf(),
    ensures
        a.spec_add(b).spec_neg() == a.spec_neg().spec_add(b.spec_neg()),
{
    let s = a.spec_add(b);
    let m = a.spec_neg().spec_add(b.spec_neg());
    lemma_basics(a, b);
    lemma_basics(b, a);
    lemma_basics(s, m);
    lemma_basics(a.spec_neg(), b.spec_neg());
    // s + m = (a + b) + (-a + -b) = (a + -a) + (b + -b) = 0
    crate::field::lemma_add_assoc(a, b, m);
    crate::field::lemma_add_comm(a.spec_neg(), b.spec_neg());
    crate::field::lemma_add_assoc(b, b.spec_neg(), a.spec_neg());
    lemma_basics(b.spec_neg(), a);
    lemma_basics(a.spec_neg(), a);
    crate::field::lemma_add_cancel(s, m);
}

/// `(-c)·x = -(c·x)`.
proof fn lemma_neg_mul<F: ZkField>(c: F, x: F)
    requires
        c.wf(),
        x.wf(),
    ensures
        c.spec_neg().spec_mul(x) == c.spec_mul(x).spec_neg(),
{
    let one = F::spec_one();
    lemma_basics(c, x);
    lemma_basics(one, one);
    crate::field::lemma_neg_is_times_minus_one(c);
    crate::field::lemma_neg_is_times_minus_one(c.spec_mul(x));
    crate::field::lemma_mul_assoc(c, one.spec_neg(), x);
    crate::field::lemma_mul_comm(one.spec_neg(), x);
    crate::field::lemma_mul_assoc(c, x, one.spec_neg());
}

proof fn lemma_sum_val_negs<F: ZkField>(t: Seq<Term<F>>, v: Seq<F>)
    requires
        values_wf(v),
        forall|i: int| 0 <= i < t.len() ==> (#[trigger] t[i]).coef.wf() && 0 <= t[i].wire < v.len(),
    ensures
        sum_val(negs(t), v) == sum_val(t, v).spec_neg(),
    decreases t.len(),
{
    lemma_basics(F::spec_zero(), F::spec_zero());
    if t.len() == 0 {
        assert(negs(t).len() == 0);
        crate::field::lemma_add_cancel(F::spec_zero(), F::spec_zero());
    } else {
        let d = t.drop_last();
        assert(negs(t).drop_last() =~= negs(d));
        lemma_sum_val_negs(d, v);
        let last = t.last();
        assert(negs(t).last() == neg_term(last));
        assert(last.coef.wf());
        assert(v[last.wire as int].wf());
        lemma_neg_mul(last.coef, v[last.wire as int]);
        lemma_sum_val_wf(d, v);
        lemma_basics(last.coef, v[last.wire as int]);
        lemma_neg_add(sum_val(d, v), last.coef.spec_mul(v[last.wire as int]));
    }
}

pub open spec fn terms_ok<F: ZkField>(t: Seq<Term<F>>, n: nat) -> bool {
    forall|i: int| 0 <= i < t.len() ==> (#[trigger] t[i]).coef.wf() && t[i].wire < n
}

/// The `i`-th padded term's value: zero past the end.
pub open spec fn pad_val<F: ZkField>(t: Seq<Term<F>>, i: int, v: Seq<F>) -> F {
    coef_at(t, i).spec_mul(cell_of(wire_at(t, i), v))
}

proof fn lemma_pad_zero<F: ZkField>(t: Seq<Term<F>>, i: int, v: Seq<F>)
    requires
        i >= t.len(),
    ensures
        pad_val(t, i, v) == F::spec_zero(),
{
    lemma_basics(F::spec_zero(), F::spec_zero());
}

proof fn lemma_padded<F: ZkField>(t: Seq<Term<F>>, v: Seq<F>)
    requires
        t.len() <= 3,
        values_wf(v),
        terms_ok(t, v.len()),
    ensures
        t.len() <= 1 ==> pad_val(t, 0, v) == sum_val(t, v),
        t.len() <= 2 ==> pad_val(t, 0, v).spec_add(pad_val(t, 1, v)) == sum_val(t, v),
        pad_val(t, 0, v).spec_add(pad_val(t, 1, v)).spec_add(pad_val(t, 2, v)) == sum_val(t, v),
{
    let z = F::spec_zero();
    lemma_basics(z, z);
    lemma_sum_val_small(t, v);
    lemma_pad_zero(t, 3, v);
    if t.len() > 0 {
        assert(t[0].coef.wf() && v[t[0].wire as int].wf());
        lemma_basics(t[0].coef, v[t[0].wire as int]);
        lemma_basics(pad_val(t, 0, v), z);
    }
    if t.len() > 1 {
        assert(t[1].coef.wf() && v[t[1].wire as int].wf());
        lemma_basics(t[1].coef, v[t[1].wire as int]);
        lemma_basics(pad_val(t, 0, v), pad_val(t, 1, v));
        lemma_basics(pad_val(t, 0, v).spec_add(pad_val(t, 1, v)), z);
    }
    if t.len() > 2 {
        assert(t[2].coef.wf() && v[t[2].wire as int].wf());
        lemma_basics(t[2].coef, v[t[2].wire as int]);
    }
    if t.len() == 0 {
        lemma_pad_zero(t, 0, v);
        lemma_pad_zero(t, 1, v);
        lemma_pad_zero(t, 2, v);
    } else if t.len() == 1 {
        lemma_pad_zero(t, 1, v);
        lemma_pad_zero(t, 2, v);
        lemma_basics(z.spec_add(pad_val(t, 0, v)), z);
    } else if t.len() == 2 {
        lemma_pad_zero(t, 2, v);
        lemma_basics(pad_val(t, 0, v).spec_add(pad_val(t, 1, v)), z);
    }
}

/// `(a + b) + (c + d) = (a + c) + (b + d)`.
proof fn lemma_swap_middle<F: ZkField>(a: F, b: F, c: F, d: F)
    ensures
        a.spec_add(b).spec_add(c.spec_add(d)) == a.spec_add(c).spec_add(b.spec_add(d)),
{
    crate::field::lemma_add_assoc(a, b, c.spec_add(d));
    crate::field::lemma_add_assoc(b, c, d);
    crate::field::lemma_add_comm(b, c);
    crate::field::lemma_add_assoc(c, b, d);
    crate::field::lemma_add_assoc(a, c, b.spec_add(d));
}

/// The row defining wire `n` from shape `s` is `s - n`.
proof fn lemma_def_gate_eval<F: ZkField>(s: Shape<F>, n: u32, v: Seq<F>)
    requires
        values_wf(v),
        shape_wf(s),
        shape_below(s, v.len()),
        n < v.len(),
    ensures
        gate_eval(def_gate(s, n), v) == shape_value(s, v).spec_sub(v[n as int]),
{
    let z = F::spec_zero();
    let one = F::spec_one();
    let vn = v[n as int];
    lemma_basics(z, z);
    lemma_basics(one, one);
    lemma_basics(vn, vn);
    crate::field::lemma_neg_is_times_minus_one(vn);
    crate::field::lemma_mul_comm(one.spec_neg(), vn);
    let nvn = vn.spec_neg();
    let g = def_gate(s, n);
    match s {
        Shape::Mul { u, v: w, k, c } => {
            let x = v[u as int];
            let y = v[w as int];
            let p = k.spec_mul(x).spec_mul(y);
            assert(x.wf() && y.wf());
            lemma_basics(x, z);
            lemma_basics(y, z);
            crate::field::lemma_mul_comm(z, x);
            crate::field::lemma_mul_comm(z, y);
            lemma_basics(k, x);
            lemma_basics(k.spec_mul(x), y);
            lemma_basics(nvn, p);
            lemma_basics(p, c);
            // ((0 + 0) + -vn) + p + c = (p + c) + -vn
            lemma_basics(nvn, nvn);
            crate::field::lemma_add_comm(nvn, p);
            crate::field::lemma_add_assoc(p, nvn, c);
            crate::field::lemma_add_comm(nvn, c);
            crate::field::lemma_add_assoc(p, c, nvn);
            lemma_basics(p.spec_add(c), vn);
            assert(g.q_l.spec_mul(x) == z);
            assert(g.q_r.spec_mul(y) == z);
            assert(z.spec_add(z) == z);
            assert(g.q_o.spec_mul(vn) == nvn);
            assert(z.spec_add(nvn) == nvn);
            assert(g.q_m.spec_mul(x).spec_mul(y) == p);
            assert(gate_eval(g, v) == nvn.spec_add(p).spec_add(c));
            assert(nvn.spec_add(p) == p.spec_add(nvn));
            assert(p.spec_add(nvn).spec_add(c) == p.spec_add(nvn.spec_add(c)));
            assert(nvn.spec_add(c) == c.spec_add(nvn));
            assert(p.spec_add(c).spec_add(nvn) == p.spec_add(c.spec_add(nvn)));
            assert(shape_value(s, v) == p.spec_add(c));
            assert(p.spec_add(c).spec_sub(vn) == p.spec_add(c).spec_add(nvn));
            assert(gate_eval(def_gate(s, n), v) == shape_value(s, v).spec_sub(v[n as int]));
        },
        _ => {
            let t = terms(s);
            assert(terms_ok(t, v.len()));
            lemma_padded(t, v);
            let sv = sum_val(t, v);
            lemma_sum_val_wf(t, v);
            let c = constant(s);
            let x0 = cell_of(g.cells[0], v);
            let x1 = cell_of(g.cells[1], v);
            assert(g.cells[0] == wire_at(t, 0));
            assert(g.cells[1] == wire_at(t, 1));
            if t.len() > 0 {
                assert(v[t[0].wire as int].wf());
            }
            assert(x0.wf());
            lemma_basics(z, x0);
            lemma_basics(z.spec_mul(x0), x1);
            lemma_basics(sv, nvn);
            lemma_basics(sv.spec_add(nvn), z);
            // ((sv + -vn) + 0) + c = (sv + c) + -vn
            crate::field::lemma_add_assoc(sv, nvn, c);
            crate::field::lemma_add_comm(nvn, c);
            crate::field::lemma_add_assoc(sv, c, nvn);
            lemma_basics(sv.spec_add(c), vn);
            assert(g.q_l.spec_mul(x0) == pad_val(t, 0, v));
            assert(g.q_r.spec_mul(x1) == pad_val(t, 1, v));
            assert(g.q_l.spec_mul(x0).spec_add(g.q_r.spec_mul(x1)) == sv);
            assert(cell_of(g.cells[2], v) == vn);
            assert(g.q_o.spec_mul(vn) == nvn);
            lemma_basics(x0, x0);
            lemma_basics(x1, x1);
            assert(g.q_m.spec_mul(x0).spec_mul(x1) == z);
            assert(g.q_c == c);
            assert(gate_eval(g, v) == sv.spec_add(nvn).spec_add(z).spec_add(c));
            assert(sv.spec_add(nvn).spec_add(z) == sv.spec_add(nvn));
            assert(shape_value(s, v) == sv.spec_add(c));
            assert(gate_eval(def_gate(s, n), v) == shape_value(s, v).spec_sub(v[n as int]));
        },
    }
}

proof fn lemma_terms_ok<F: ZkField>(s: Shape<F>, n: nat)
    requires
        shape_wf(s),
        shape_below(s, n),
        !(s is Mul),
    ensures
        terms_ok(terms(s), n),
        terms_ok(negs(terms(s)), n),
        terms(s).len() <= 2,
{
    let t = terms(s);
    assert forall|i: int| 0 <= i < t.len() implies (#[trigger] negs(t)[i]).coef.wf() && negs(t)[i].wire < n by {
        lemma_basics(t[i].coef, t[i].coef);
    }
}

/// An assertion's row is `lhs - rhs`.
proof fn lemma_assert_gate_eval<F: ZkField>(l: Shape<F>, r: Shape<F>, v: Seq<F>)
    requires
        values_wf(v),
        shape_wf(l),
        shape_wf(r),
        shape_below(l, v.len()),
        shape_below(r, v.len()),
        !(l is Mul && r is Mul),
        l is Mul ==> terms(r).len() <= 1,
        r is Mul ==> terms(l).len() <= 1,
        !(l is Mul) && !(r is Mul) ==> terms(l).len() + terms(r).len() <= 3,
    ensures
        gate_eval(assert_gate(l, r), v) == shape_value(l, v).spec_sub(shape_value(r, v)),
{
    let z = F::spec_zero();
    lemma_basics(z, z);
    let g = assert_gate(l, r);
    let cl = constant(l);
    let cr = constant(r);
    lemma_basics(cl, cr);
    let cd = cl.spec_sub(cr);
    assert(g.q_c == cd);
    match l {
        Shape::Mul { u, v: w, k, .. } => {
            lemma_terms_ok(r, v.len());
            let t = negs(terms(r));
            lemma_padded(t, v);
            lemma_sum_val_negs(terms(r), v);
            let sr = sum_val(terms(r), v);
            lemma_sum_val_wf(terms(r), v);
            let tv = sum_val(t, v);
            let x = v[u as int];
            let y = v[w as int];
            assert(x.wf() && y.wf());
            lemma_basics(x, x);
            lemma_basics(y, y);
            lemma_basics(k, x);
            let p = k.spec_mul(x).spec_mul(y);
            lemma_basics(k.spec_mul(x), y);
            lemma_basics(sr, cr);
            lemma_basics(tv, p);
            assert(g.q_o.spec_mul(cell_of(g.cells[2], v)) == pad_val(t, 0, v));
            assert(pad_val(t, 0, v) == tv);
            assert(tv == sr.spec_neg());
            lemma_basics(sr, sr);
            assert(z.spec_add(tv) == tv);
            assert(gate_eval(g, v) == tv.spec_add(p).spec_add(cd));
            crate::field::lemma_add_comm(tv, p);
            lemma_swap_middle(p, tv, cl, cr.spec_neg());
            lemma_neg_add(sr, cr);
            lemma_basics(p, cl);
            lemma_basics(p.spec_add(cl), sr.spec_add(cr));
            assert(shape_value(l, v) == p.spec_add(cl));
            assert(shape_value(r, v) == sr.spec_add(cr));
        },
        _ => {
            match r {
                Shape::Mul { u, v: w, k, .. } => {
                    lemma_terms_ok(l, v.len());
                    let t = terms(l);
                    lemma_padded(t, v);
                    let sl = sum_val(t, v);
                    lemma_sum_val_wf(t, v);
                    let x = v[u as int];
                    let y = v[w as int];
                    assert(x.wf() && y.wf());
                    lemma_basics(x, x);
                    lemma_basics(y, y);
                    lemma_basics(k, x);
                    let p = k.spec_mul(x).spec_mul(y);
                    lemma_basics(k.spec_mul(x), y);
                    lemma_basics(k, k);
                    lemma_neg_mul(k, x);
                    lemma_neg_mul(k.spec_mul(x), y);
                    let np = p.spec_neg();
                    assert(k.spec_neg().spec_mul(x).spec_mul(y) == np);
                    lemma_basics(p, p);
                    lemma_basics(sl, np);
                    assert(g.q_o.spec_mul(cell_of(g.cells[2], v)) == pad_val(t, 0, v));
                    assert(pad_val(t, 0, v) == sl);
                    assert(z.spec_add(sl) == sl);
                    assert(gate_eval(g, v) == sl.spec_add(np).spec_add(cd));
                    lemma_swap_middle(sl, np, cl, cr.spec_neg());
                    lemma_neg_add(p, cr);
                    lemma_basics(sl, cl);
                    lemma_basics(sl.spec_add(cl), p.spec_add(cr));
                    assert(shape_value(l, v) == sl.spec_add(cl));
                    assert(shape_value(r, v) == p.spec_add(cr));
                },
                _ => {
                    lemma_terms_ok(l, v.len());
                    lemma_terms_ok(r, v.len());
                    let tl = terms(l);
                    let tr = terms(r);
                    let t = tl + negs(tr);
                    assert(terms_ok(t, v.len())) by {
                        assert forall|i: int| 0 <= i < t.len() implies (#[trigger] t[i]).coef.wf() && t[i].wire < v.len() by {
                            if i < tl.len() {
                                assert(t[i] == tl[i]);
                            } else {
                                assert(t[i] == negs(tr)[i - tl.len()]);
                            }
                        }
                    }
                    lemma_padded(t, v);
                    lemma_sum_val_concat(tl, negs(tr), v);
                    lemma_sum_val_negs(tr, v);
                    let sl = sum_val(tl, v);
                    let sr = sum_val(tr, v);
                    lemma_sum_val_wf(tl, v);
                    lemma_sum_val_wf(tr, v);
                    lemma_sum_val_wf(t, v);
                    let x0 = cell_of(g.cells[0], v);
                    let x1 = cell_of(g.cells[1], v);
                    if t.len() > 0 {
                        assert(v[t[0].wire as int].wf());
                    }
                    if t.len() > 1 {
                        assert(v[t[1].wire as int].wf());
                    }
                    assert(x0.wf() && x1.wf());
                    lemma_basics(x0, x0);
                    lemma_basics(x1, x1);
                    assert(g.q_m.spec_mul(x0).spec_mul(x1) == z);
                    assert(g.q_l.spec_mul(x0) == pad_val(t, 0, v));
                    assert(g.q_r.spec_mul(x1) == pad_val(t, 1, v));
                    assert(g.q_o.spec_mul(cell_of(g.cells[2], v)) == pad_val(t, 2, v));
                    let st = sum_val(t, v);
                    lemma_basics(st, z);
                    assert(gate_eval(g, v) == st.spec_add(cd));
                    assert(st == sl.spec_add(sr.spec_neg()));
                    lemma_swap_middle(sl, sr.spec_neg(), cl, cr.spec_neg());
                    lemma_neg_add(sr, cr);
                    lemma_basics(sl, cl);
                    lemma_basics(sl.spec_add(cl), sr.spec_add(cr));
                    assert(shape_value(l, v) == sl.spec_add(cl));
                    assert(shape_value(r, v) == sr.spec_add(cr));
                },
            }
        },
    }
}

proof fn lemma_plain_sound<F: ZkField>(w: u32, v: Seq<F>)
    requires
        values_wf(v),
        w < v.len(),
    ensures
        shape_wf(plain::<F>(w)),
        shape_value(plain::<F>(w), v) == v[w as int],
        shape_below(plain::<F>(w), v.len()),
{
    let t = terms(plain::<F>(w));
    lemma_basics(F::spec_one(), F::spec_one());
    lemma_sum_val_small(t, v);
    let x = v[w as int];
    assert(x.wf());
    lemma_basics(x, F::spec_one());
    crate::field::lemma_mul_comm(F::spec_one(), x);
    lemma_basics(F::spec_zero(), F::spec_zero());
}

/// Materialising keeps every shape's meaning, and its row vanishes.
proof fn lemma_mat_sound<F: ZkField>(st: Fold<F>, w: u32, v: Seq<F>)
    requires
        values_wf(v),
        fold_sound(st, v),
        w < v.len(),
    ensures
        fold_sound(mat(st, w), v),
        gate_eval(def_gate(st.shapes[w as int], w), v) == F::spec_zero(),
{
    lemma_def_gate_eval(st.shapes[w as int], w, v);
    lemma_basics(v[w as int], v[w as int]);
    lemma_plain_sound(w, v);
    let m = mat(st, w);
    assert forall|x: int| 0 <= x < v.len() implies shape_wf(#[trigger] m.shapes[x]) && shape_value(m.shapes[x], v) == v[x]
        && shape_below(m.shapes[x], v.len()) by {
        if x != w {
            assert(m.shapes[x] == st.shapes[x]);
        }
    }
}

proof fn lemma_mat_if_sound<F: ZkField>(st: Fold<F>, w: u32, cond: bool, v: Seq<F>)
    requires
        values_wf(v),
        fold_sound(st, v),
        w < v.len(),
    ensures
        fold_sound(mat_if(st, w, cond), v),
        forall|i: int| st.gates.len() <= i < mat_if(st, w, cond).gates.len() ==> gate_eval(#[trigger] mat_if(st, w, cond).gates[i], v) == F::spec_zero(),
        forall|i: int| 0 <= i < st.gates.len() ==> #[trigger] mat_if(st, w, cond).gates[i] == st.gates[i],
        mat_if(st, w, cond).gates.len() >= st.gates.len(),
{
    if cond {
        lemma_mat_sound(st, w, v);
    }
}

proof fn lemma_with_shape_sound<F: ZkField>(st: Fold<F>, w: u32, s: Shape<F>, v: Seq<F>)
    requires
        fold_sound(st, v),
        w < v.len(),
        shape_wf(s),
        shape_below(s, v.len()),
        shape_value(s, v) == v[w as int],
    ensures
        fold_sound(with_shape(st, w, s), v),
{
    let m = with_shape(st, w, s);
    assert forall|x: int| 0 <= x < v.len() implies shape_wf(#[trigger] m.shapes[x]) && shape_value(m.shapes[x], v) == v[x]
        && shape_below(m.shapes[x], v.len()) by {
        if x != w {
            assert(m.shapes[x] == st.shapes[x]);
        }
    }
}

/// `k · s` stands for `k` times what `s` stands for.
proof fn lemma_scale_sound<F: ZkField>(s: Shape<F>, k: F, v: Seq<F>)
    requires
        values_wf(v),
        k.wf(),
        shape_wf(s),
        shape_below(s, v.len()),
    ensures
        shape_wf(scale(s, k)),
        shape_below(scale(s, k), v.len()),
        shape_value(scale(s, k), v) == k.spec_mul(shape_value(s, v)),
{
    let z = F::spec_zero();
    lemma_basics(z, z);
    lemma_basics(k, z);
    lemma_scale_below(s, k, v.len());
    let r = scale(s, k);
    match s {
        Shape::Mul { u, v: w, k: m, c } => {
            let x = v[u as int];
            let y = v[w as int];
            lemma_basics(k, m);
            lemma_basics(k, c);
            lemma_basics(m, x);
            lemma_basics(m.spec_mul(x), y);
            crate::field::lemma_mul_assoc(k, m, x);
            crate::field::lemma_mul_assoc(k, m.spec_mul(x), y);
            crate::field::lemma_distrib(k, m.spec_mul(x).spec_mul(y), c);
            assert(shape_value(r, v) == k.spec_mul(m).spec_mul(x).spec_mul(y).spec_add(k.spec_mul(c)));
            assert(k.spec_mul(m).spec_mul(x) == k.spec_mul(m.spec_mul(x)));
            assert(k.spec_mul(m.spec_mul(x)).spec_mul(y) == k.spec_mul(m.spec_mul(x).spec_mul(y)));
        },
        Shape::Wire { w } => {
            assert(terms(s)[0].wire == w);
            let x = v[w as int];
            assert(x.wf());
            let t = terms(r);
            assert(t =~= seq![Term { wire: w, coef: k }]);
            lemma_sum_val_small(t, v);
            lemma_basics(k, x);
            lemma_basics(k.spec_mul(x), z);
            lemma_plain_sound(w, v);
            assert(shape_value(r, v) == z.spec_add(k.spec_mul(x)).spec_add(z));
        },
        Shape::Lin { a, b, c } => {
            let t = terms(s);
            let u = terms(r);
            assert(terms_ok(t, v.len()));
            assert(u.len() == t.len());
            assert forall|i: int| 0 <= i < u.len() implies (#[trigger] u[i]).coef == k.spec_mul(t[i].coef) && u[i].wire == t[i].wire by {}
            lemma_sum_val_small(t, v);
            lemma_sum_val_small(u, v);
            lemma_basics(k, c);
            assert forall|i: int| 0 <= i < u.len() implies (#[trigger] u[i]).coef.wf() by {
                lemma_basics(k, t[i].coef);
            }
            lemma_sum_val_wf(t, v);
            let st = sum_val(t, v);
            let su = sum_val(u, v);
            if t.len() == 0 {
                assert(su == z);
                assert(k.spec_mul(st) == z);
            } else {
                let x0 = v[t[0].wire as int];
                let p0 = t[0].coef.spec_mul(x0);
                lemma_basics(t[0].coef, x0);
                lemma_basics(k.spec_mul(t[0].coef), x0);
                lemma_basics(p0, z);
                crate::field::lemma_mul_assoc(k, t[0].coef, x0);
                lemma_basics(k, p0);
                lemma_basics(k.spec_mul(p0), z);
                if t.len() == 1 {
                    assert(st == p0);
                    assert(su == k.spec_mul(p0));
                } else {
                    let x1 = v[t[1].wire as int];
                    let p1 = t[1].coef.spec_mul(x1);
                    lemma_basics(t[1].coef, x1);
                    lemma_basics(k.spec_mul(t[1].coef), x1);
                    crate::field::lemma_mul_assoc(k, t[1].coef, x1);
                    crate::field::lemma_distrib(k, p0, p1);
                    assert(st == p0.spec_add(p1));
                    assert(su == k.spec_mul(p0).spec_add(k.spec_mul(p1)));
                }
            }
            assert(su == k.spec_mul(st));
            crate::field::lemma_distrib(k, st, c);
            assert(shape_value(r, v) == su.spec_add(k.spec_mul(c)));
        },
    }
}

proof fn lemma_lin_from_terms<F: ZkField>(t: Seq<Term<F>>, c: F)
    requires
        t.len() <= 2,
    ensures
        terms(lin_from(t, c)) == t,
        constant(lin_from(t, c)) == c,
{
    if t.len() == 0 {
        assert(terms(lin_from(t, c)) =~= t);
    } else if t.len() == 1 {
        assert(terms(lin_from(t, c)) =~= t);
    } else {
        assert(terms(lin_from(t, c)) =~= t);
    }
}

/// A sum or difference of two sums stands for the sum or difference.
proof fn lemma_lin_sum_sound<F: ZkField>(x: Shape<F>, y: Shape<F>, subtract: bool, v: Seq<F>)
    requires
        values_wf(v),
        shape_wf(x),
        shape_wf(y),
        shape_below(x, v.len()),
        shape_below(y, v.len()),
        !(x is Mul),
        !(y is Mul),
        terms(x).len() + terms(y).len() <= 2,
    ensures
        shape_wf(lin_sum(x, y, subtract)),
        shape_below(lin_sum(x, y, subtract), v.len()),
        shape_value(lin_sum(x, y, subtract), v) == (if subtract {
            shape_value(x, v).spec_sub(shape_value(y, v))
        } else {
            shape_value(x, v).spec_add(shape_value(y, v))
        }),
{
    lemma_terms_ok(x, v.len());
    lemma_terms_ok(y, v.len());
    lemma_sum_below(x, y, subtract, v.len());
    let tx = terms(x);
    let ty = if subtract {
        negs(terms(y))
    } else {
        terms(y)
    };
    let t = tx + ty;
    let cx = constant(x);
    let cy = constant(y);
    lemma_basics(cx, cy);
    let c = if subtract {
        cx.spec_sub(cy)
    } else {
        cx.spec_add(cy)
    };
    lemma_lin_from_terms(t, c);
    assert(lin_sum(x, y, subtract) == lin_from(t, c));
    assert forall|i: int| 0 <= i < t.len() implies (#[trigger] t[i]).coef.wf() by {
        if i < tx.len() {
            assert(t[i] == tx[i]);
        } else {
            assert(t[i] == ty[i - tx.len()]);
        }
    }
    lemma_sum_val_concat(tx, ty, v);
    let sx = sum_val(tx, v);
    let sy = sum_val(terms(y), v);
    lemma_sum_val_wf(tx, v);
    lemma_sum_val_wf(terms(y), v);
    if subtract {
        lemma_sum_val_negs(terms(y), v);
        lemma_swap_middle(sx, sy.spec_neg(), cx, cy.spec_neg());
        lemma_neg_add(sy, cy);
        lemma_basics(sx, cx);
        lemma_basics(sx.spec_add(cx), sy.spec_add(cy));
    } else {
        lemma_swap_middle(sx, sy, cx, cy);
    }
}

/// An addition or subtraction keeps the state's meaning and adds only rows
/// that vanish.
proof fn lemma_fold_sum_sound<F: ZkField>(st: Fold<F>, out: u32, x: u32, y: u32, subtract: bool, v: Seq<F>)
    requires
        values_wf(v),
        fold_sound(st, v),
        out < v.len(),
        x < v.len(),
        y < v.len(),
        v[out as int] == (if subtract {
            v[x as int].spec_sub(v[y as int])
        } else {
            v[x as int].spec_add(v[y as int])
        }),
    ensures
        fold_sound(fold_sum(st, out, x, y, subtract), v),
        fold_sum(st, out, x, y, subtract).gates.len() >= st.gates.len(),
        forall|i: int| 0 <= i < st.gates.len() ==> #[trigger] fold_sum(st, out, x, y, subtract).gates[i] == st.gates[i],
        forall|i: int| st.gates.len() <= i < fold_sum(st, out, x, y, subtract).gates.len() ==> gate_eval(
            #[trigger] fold_sum(st, out, x, y, subtract).gates[i],
            v,
        ) == F::spec_zero(),
{
    let s1 = mat_if(st, x, st.shapes[x as int] is Mul);
    lemma_mat_if_sound(st, x, st.shapes[x as int] is Mul, v);
    let s2 = mat_if(s1, y, s1.shapes[y as int] is Mul);
    lemma_mat_if_sound(s1, y, s1.shapes[y as int] is Mul, v);
    let c3 = width(s2.shapes[x as int]) + width(s2.shapes[y as int]) > 2 && width(s2.shapes[x as int]) == 2;
    let s3 = mat_if(s2, x, c3);
    lemma_mat_if_sound(s2, x, c3, v);
    let c4 = width(s3.shapes[x as int]) + width(s3.shapes[y as int]) > 2;
    let s4 = mat_if(s3, y, c4);
    lemma_mat_if_sound(s3, y, c4, v);
    let sx = s4.shapes[x as int];
    let sy = s4.shapes[y as int];
    assert(shape_wf(sx) && shape_wf(sy));
    lemma_plain_terms::<F>(x);
    lemma_plain_terms::<F>(y);
    assert(!(sx is Mul));
    assert(!(sy is Mul));
    assert(terms(sx).len() + terms(sy).len() <= 2);
    lemma_lin_sum_sound(sx, sy, subtract, v);
    lemma_with_shape_sound(s4, out, lin_sum(sx, sy, subtract), v);
}

proof fn lemma_wire_value<F: ZkField>(s: Shape<F>, v: Seq<F>)
    requires
        values_wf(v),
        s is Wire,
        shape_below(s, v.len()),
    ensures
        plain_wire(s) < v.len(),
        shape_value(s, v) == v[plain_wire(s) as int],
{
    let w = s->w;
    assert(terms(s)[0].wire == w);
    lemma_plain_sound(w, v);
}

/// A product keeps the state's meaning and adds only rows that vanish.
proof fn lemma_fold_product_sound<F: ZkField>(st: Fold<F>, out: u32, x: u32, y: u32, v: Seq<F>)
    requires
        values_wf(v),
        fold_sound(st, v),
        out < v.len(),
        x < v.len(),
        y < v.len(),
        v[out as int] == v[x as int].spec_mul(v[y as int]),
    ensures
        fold_sound(fold_product(st, out, x, y), v),
        fold_product(st, out, x, y).gates.len() >= st.gates.len(),
        forall|i: int| 0 <= i < st.gates.len() ==> #[trigger] fold_product(st, out, x, y).gates[i] == st.gates[i],
        forall|i: int| st.gates.len() <= i < fold_product(st, out, x, y).gates.len() ==> gate_eval(
            #[trigger] fold_product(st, out, x, y).gates[i],
            v,
        ) == F::spec_zero(),
{
    let z = F::spec_zero();
    lemma_basics(z, z);
    let sx = st.shapes[x as int];
    let sy = st.shapes[y as int];
    assert(shape_wf(sx) && shape_wf(sy) && shape_below(sx, v.len()) && shape_below(sy, v.len()));
    if is_const(sx) {
        lemma_sum_val_small(terms(sx), v);
        lemma_basics(constant(sx), z);
        assert(shape_value(sx, v) == constant(sx));
        lemma_scale_sound(sy, constant(sx), v);
        lemma_with_shape_sound(st, out, scale(sy, constant(sx)), v);
    } else if is_const(sy) {
        lemma_sum_val_small(terms(sy), v);
        lemma_basics(constant(sy), z);
        assert(shape_value(sy, v) == constant(sy));
        lemma_scale_sound(sx, constant(sy), v);
        crate::field::lemma_mul_comm(v[x as int], v[y as int]);
        lemma_with_shape_sound(st, out, scale(sx, constant(sy)), v);
    } else {
        let s1 = mat_if(st, x, !(sx is Wire));
        lemma_mat_if_sound(st, x, !(sx is Wire), v);
        let s2 = mat_if(s1, y, !(s1.shapes[y as int] is Wire));
        lemma_mat_if_sound(s1, y, !(s1.shapes[y as int] is Wire), v);
        let px = s2.shapes[x as int];
        let py = s2.shapes[y as int];
        assert(px is Wire);
        assert(py is Wire);
        assert(shape_below(px, v.len()) && shape_below(py, v.len()));
        lemma_wire_value(px, v);
        lemma_wire_value(py, v);
        let u = plain_wire(px);
        let w = plain_wire(py);
        let one = F::spec_one();
        let m = Shape::Mul { u, v: w, k: one, c: z };
        lemma_basics(one, one);
        let a = v[u as int];
        let b = v[w as int];
        assert(a == v[x as int]);
        assert(b == v[y as int]);
        lemma_basics(a, one);
        crate::field::lemma_mul_comm(one, a);
        lemma_basics(a, b);
        lemma_basics(a.spec_mul(b), z);
        assert(shape_value(m, v) == one.spec_mul(a).spec_mul(b).spec_add(z));
        lemma_with_shape_sound(s2, out, m, v);
    }
}

/// A node keeps the state's meaning and adds only rows that vanish.
proof fn lemma_fold_node_sound<F: ZkField>(st: Fold<F>, node: Node, shared: bool, v: Seq<F>)
    requires
        values_wf(v),
        fold_sound(st, v),
        node.wire < v.len(),
        node.op.spec_args().len() == node.op.spec_arity(),
        forall|j: int| 0 <= j < node.op.spec_args().len() ==> #[trigger] node.op.spec_args()[j] < node.wire,
        crate::witness::node_relation(node.op, v, v[node.wire as int]),
        node.op matches NodeOp::Const { value } ==> crate::field::is_decimal_text(encode_utf8(value@)),
    ensures
        fold_sound(fold_node(st, node, shared), v),
        fold_node(st, node, shared).gates.len() >= st.gates.len(),
        forall|i: int| 0 <= i < st.gates.len() ==> #[trigger] fold_node(st, node, shared).gates[i] == st.gates[i],
        forall|i: int| st.gates.len() <= i < fold_node(st, node, shared).gates.len() ==> gate_eval(
            #[trigger] fold_node(st, node, shared).gates[i],
            v,
        ) == F::spec_zero(),
{
    let a = node.op.spec_args();
    let w = node.wire;
    let z = F::spec_zero();
    lemma_basics(z, z);
    match node.op {
        NodeOp::Const { value } => {
            let c = F::spec_decimal_value(encode_utf8(value@));
            F::lemma_decimal_wf(encode_utf8(value@));
            let s = Shape::<F>::Lin { a: None, b: None, c };
            assert(terms(s) =~= Seq::<Term<F>>::empty());
            lemma_basics(c, z);
            lemma_with_shape_sound(st, w, s, v);
        },
        NodeOp::Add { .. } => {
            assert(a[0] < w && a[1] < w);
            lemma_fold_sum_sound(st, w, a[0], a[1], false, v);
        },
        NodeOp::Sub { .. } => {
            assert(a[0] < w && a[1] < w);
            lemma_fold_sum_sound(st, w, a[0], a[1], true, v);
        },
        NodeOp::Mul { .. } => {
            assert(a[0] < w && a[1] < w);
            lemma_fold_product_sound(st, w, a[0], a[1], v);
        },
        NodeOp::Neg { .. } => {
            assert(a[0] < w);
            let sx = st.shapes[a[0] as int];
            let one = F::spec_one();
            lemma_basics(one, one);
            lemma_scale_sound(sx, one.spec_neg(), v);
            let x = v[a[0] as int];
            crate::field::lemma_neg_is_times_minus_one(x);
            crate::field::lemma_mul_comm(one.spec_neg(), x);
            lemma_with_shape_sound(st, w, scale(sx, one.spec_neg()), v);
        },
        NodeOp::Hint { .. } => {
            lemma_plain_sound(w, v);
            lemma_with_shape_sound(st, w, plain(w), v);
        },
    }
    let next = fold_node_shape(st, node);
    if shared && !(node.op is Hint) {
        lemma_mat_sound(next, w, v);
    }
}

/// An assertion keeps the state's meaning; of the rows it adds, all vanish
/// but the last, which is `lhs - rhs`.
proof fn lemma_fold_assertion_sound<F: ZkField>(st: Fold<F>, assertion: Assertion, v: Seq<F>)
    requires
        values_wf(v),
        fold_sound(st, v),
        assertion.lhs < v.len(),
        assertion.rhs < v.len(),
    ensures
        fold_sound(fold_assertion(st, assertion), v),
        fold_assertion(st, assertion).gates.len() >= st.gates.len() + 1,
        forall|i: int| 0 <= i < st.gates.len() ==> #[trigger] fold_assertion(st, assertion).gates[i] == st.gates[i],
        forall|i: int| st.gates.len() <= i < fold_assertion(st, assertion).gates.len() - 1 ==> gate_eval(
            #[trigger] fold_assertion(st, assertion).gates[i],
            v,
        ) == F::spec_zero(),
        gate_eval(fold_assertion(st, assertion).gates.last(), v) == v[assertion.lhs as int].spec_sub(v[assertion.rhs as int]),
{
    let l = assertion.lhs;
    let r = assertion.rhs;
    let c1 = st.shapes[l as int] is Mul && st.shapes[r as int] is Mul;
    let s1 = mat_if(st, r, c1);
    lemma_mat_if_sound(st, r, c1, v);
    let c2 = s1.shapes[l as int] is Mul && width(s1.shapes[r as int]) == 2;
    let s2 = mat_if(s1, r, c2);
    lemma_mat_if_sound(s1, r, c2, v);
    let c3 = s2.shapes[r as int] is Mul && width(s2.shapes[l as int]) == 2;
    let s3 = mat_if(s2, l, c3);
    lemma_mat_if_sound(s2, l, c3, v);
    let c4 = !(s3.shapes[l as int] is Mul) && !(s3.shapes[r as int] is Mul) && width(s3.shapes[l as int]) + width(
        s3.shapes[r as int],
    ) > 3;
    let s4 = mat_if(s3, r, c4);
    lemma_mat_if_sound(s3, r, c4, v);
    lemma_plain_terms::<F>(l);
    lemma_plain_terms::<F>(r);
    let sl = s4.shapes[l as int];
    let sr = s4.shapes[r as int];
    assert(shape_wf(sl) && shape_wf(sr) && shape_below(sl, v.len()) && shape_below(sr, v.len()));
    lemma_assert_gate_eval(sl, sr, v);
    let f = fold_assertion(st, assertion);
    assert(f.gates.last() == assert_gate(sl, sr));
}

/// `lhs - rhs` of assertion `j`.
pub open spec fn assert_diff<F: ZkField>(ir: &Ir, v: Seq<F>, j: int) -> F {
    v[ir.assertions@[j].lhs as int].spec_sub(v[ir.assertions@[j].rhs as int])
}

/// Each gate vanishes or is `lhs - rhs` of one of the first `k` assertions.
pub open spec fn gates_explained<F: ZkField>(ir: &Ir, gates: Seq<Gate<F>>, v: Seq<F>, k: int) -> bool {
    forall|i: int|
        0 <= i < gates.len() ==> gate_eval(#[trigger] gates[i], v) == F::spec_zero() || exists|j: int|
            0 <= j < k && gate_eval(gates[i], v) == #[trigger] assert_diff(ir, v, j)
}

/// Some gate is `lhs - rhs` of assertion `j`.
pub open spec fn gate_for<F: ZkField>(ir: &Ir, gates: Seq<Gate<F>>, v: Seq<F>, j: int) -> bool {
    exists|i: int| 0 <= i < gates.len() && gate_eval(#[trigger] gates[i], v) == assert_diff(ir, v, j)
}

/// Each of the first `k` assertions has its `lhs - rhs` among the gates.
pub open spec fn assertions_present<F: ZkField>(ir: &Ir, gates: Seq<Gate<F>>, v: Seq<F>, k: int) -> bool {
    forall|j: int| 0 <= j < k ==> #[trigger] gate_for(ir, gates, v, j)
}

proof fn lemma_fold_nodes_sound<F: ZkField>(ir: &Ir, k: nat, v: Seq<F>)
    requires
        well_formed(ir),
        crate::lower::consts_parse(ir),
        crate::witness::wire_values_ok(ir, v),
        k <= ir.nodes@.len(),
    ensures
        fold_sound(fold_nodes::<F>(ir, k), v),
        forall|i: int| 0 <= i < fold_nodes::<F>(ir, k).gates.len() ==> gate_eval(#[trigger] fold_nodes::<F>(ir, k).gates[i], v)
            == F::spec_zero(),
    decreases k,
{
    assert(values_wf(v));
    if k == 0 {
        let st = fold_start::<F>(ir.spec_wire_count());
        assert forall|w: int| 0 <= w < v.len() implies shape_wf(#[trigger] st.shapes[w]) && shape_value(st.shapes[w], v) == v[w]
            && shape_below(st.shapes[w], v.len()) by {
            lemma_plain_sound(w as u32, v);
        }
    } else {
        lemma_fold_nodes_sound::<F>(ir, (k - 1) as nat, v);
        assert(ir.node_ok(k - 1));
        let node = ir.nodes@[k - 1];
        assert(crate::witness::node_relation(node.op, v, v[node.wire as int]));
        let prev = fold_nodes::<F>(ir, (k - 1) as nat);
        lemma_fold_node_sound(prev, node, shared(ir, node.wire), v);
        let next = fold_nodes::<F>(ir, k);
        assert forall|i: int| 0 <= i < next.gates.len() implies gate_eval(#[trigger] next.gates[i], v) == F::spec_zero() by {
            if i < prev.gates.len() {
                assert(next.gates[i] == prev.gates[i]);
            }
        }
    }
}

proof fn lemma_fold_assertions_sound<F: ZkField>(ir: &Ir, k: nat, v: Seq<F>)
    requires
        well_formed(ir),
        crate::lower::consts_parse(ir),
        crate::witness::wire_values_ok(ir, v),
        k <= ir.assertions@.len(),
    ensures
        fold_sound(fold_assertions::<F>(ir, k), v),
        gates_explained(ir, fold_assertions::<F>(ir, k).gates, v, k as int),
        assertions_present(ir, fold_assertions::<F>(ir, k).gates, v, k as int),
    decreases k,
{
    assert(values_wf(v));
    if k == 0 {
        lemma_fold_nodes_sound::<F>(ir, ir.nodes@.len(), v);
    } else {
        lemma_fold_assertions_sound::<F>(ir, (k - 1) as nat, v);
        let a = ir.assertions@[k - 1];
        assert(a.lhs < v.len() && a.rhs < v.len());
        let prev = fold_assertions::<F>(ir, (k - 1) as nat);
        lemma_fold_assertion_sound(prev, a, v);
        let next = fold_assertions::<F>(ir, k);
        let last = next.gates.len() - 1;
        assert(gate_eval(next.gates[last], v) == assert_diff(ir, v, k - 1));
        assert forall|i: int| 0 <= i < next.gates.len() implies gate_eval(#[trigger] next.gates[i], v) == F::spec_zero() || exists|j: int|
            0 <= j < k && gate_eval(next.gates[i], v) == #[trigger] assert_diff(ir, v, j) by {
            if i < prev.gates.len() {
                assert(next.gates[i] == prev.gates[i]);
                if gate_eval(prev.gates[i], v) != F::spec_zero() {
                    let j = choose|j: int| 0 <= j < k - 1 && gate_eval(prev.gates[i], v) == #[trigger] assert_diff(ir, v, j);
                    assert(gate_eval(next.gates[i], v) == assert_diff(ir, v, j));
                }
            } else if i == last {
                assert(gate_eval(next.gates[i], v) == assert_diff(ir, v, k - 1));
            }
        }
        assert forall|j: int| 0 <= j < k implies #[trigger] gate_for(ir, next.gates, v, j) by {
            if j < k - 1 {
                assert(gate_for(ir, prev.gates, v, j));
                let i = choose|i: int| 0 <= i < prev.gates.len() && gate_eval(#[trigger] prev.gates[i], v) == assert_diff(ir, v, j);
                assert(next.gates[i] == prev.gates[i]);
            } else {
                assert(gate_eval(next.gates[last], v) == assert_diff(ir, v, j));
            }
        }
    }
}

proof fn lemma_bind_keeps<F: ZkField>(gates: Seq<Gate<F>>, inputs: Seq<Input>, k: nat, v: Seq<F>)
    requires
        k <= inputs.len(),
    ensures
        bind_inputs(gates, inputs, k).len() >= gates.len(),
        forall|i: int| 0 <= i < gates.len() ==> #[trigger] bind_inputs(gates, inputs, k)[i] == gates[i],
        forall|i: int| gates.len() <= i < bind_inputs(gates, inputs, k).len() ==> gate_eval(#[trigger] bind_inputs(gates, inputs, k)[i], v)
            == F::spec_zero(),
    decreases k,
{
    if k > 0 {
        lemma_bind_keeps(gates, inputs, (k - 1) as nat, v);
        let g = bind_inputs(gates, inputs, (k - 1) as nat);
        let w = inputs[k - 1].wire;
        let z = F::spec_zero();
        lemma_basics(z, z);
        lemma_basics(v[w as int], v[w as int]);
        lemma_basics(z.spec_mul(v[w as int]), z);
        assert(gate_eval(bind_gate::<F>(w), v) == z);
        let b = bind_inputs(gates, inputs, k);
        assert forall|i: int| gates.len() <= i < b.len() implies gate_eval(#[trigger] b[i], v) == z by {
            if i < g.len() {
                assert(b[i] == g[i]);
            }
        }
        assert forall|i: int| 0 <= i < gates.len() implies #[trigger] b[i] == gates[i] by {
            assert(b[i] == g[i]);
        }
    }
}

/// What the fused rows mean: on lawful wire values, every row vanishes
/// exactly when every assertion holds.
pub proof fn lemma_fused_meaning<F: ZkField>(ir: &Ir, v: Seq<F>)
    requires
        well_formed(ir),
        crate::lower::consts_parse(ir),
        crate::witness::wire_values_ok(ir, v),
    ensures
        (forall|i: int| 0 <= i < fused_gates::<F>(ir).len() ==> gate_eval(#[trigger] fused_gates::<F>(ir)[i], v) == F::spec_zero())
            <==> crate::witness::assertions_hold(ir, v),
{
    let m = ir.assertions@.len();
    lemma_fold_assertions_sound::<F>(ir, m, v);
    let g0 = fold_assertions::<F>(ir, m).gates;
    lemma_bind_keeps(g0, ir.inputs@, ir.inputs@.len(), v);
    let g = fused_gates::<F>(ir);
    let z = F::spec_zero();
    if forall|i: int| 0 <= i < g.len() ==> gate_eval(#[trigger] g[i], v) == z {
        assert forall|j: int| 0 <= j < m implies #[trigger] v[ir.assertions@[j].lhs as int] == v[ir.assertions@[j].rhs as int] by {
            assert(gate_for(ir, g0, v, j));
            let i = choose|i: int| 0 <= i < g0.len() && gate_eval(#[trigger] g0[i], v) == assert_diff(ir, v, j);
            assert(g[i] == g0[i]);
            let a = ir.assertions@[j];
            assert(a.lhs < v.len() && a.rhs < v.len());
            crate::field::lemma_sub_zero_iff(v[a.lhs as int], v[a.rhs as int]);
        }
    }
    if crate::witness::assertions_hold(ir, v) {
        assert forall|i: int| 0 <= i < g.len() implies gate_eval(#[trigger] g[i], v) == z by {
            if i < g0.len() {
                assert(g[i] == g0[i]);
                if gate_eval(g0[i], v) != z {
                    let j = choose|j: int| 0 <= j < m && gate_eval(g0[i], v) == #[trigger] assert_diff(ir, v, j);
                    let a = ir.assertions@[j];
                    assert(v[a.lhs as int] == v[a.rhs as int]);
                    lemma_basics(v[a.lhs as int], v[a.rhs as int]);
                }
            }
        }
    }
}

/// Fusion makes a Plonkish circuit cheaper, never weaker: on lawful wire
/// values the fused and the unfused tables accept together, and both exactly
/// when the IR's assertions hold.
pub proof fn law_plonkish_fusion_preserves_satisfiability<F: ZkField>(
    ir: &Ir,
    fused: Plonkish<F>,
    unfused: Plonkish<F>,
    values: Seq<F>,
)
    requires
        fused_lowered(ir, fused),
        crate::plonkish::plonk_lowered(ir, unfused),
        crate::witness::wire_values_ok(ir, values),
    ensures
        fused.spec_is_satisfied(fused.spec_assignment(values)) <==> unfused.spec_is_satisfied(unfused.spec_assignment(values)),
        fused.spec_is_satisfied(fused.spec_assignment(values)) <==> crate::witness::assertions_hold(ir, values),
{
}

} // verus!
