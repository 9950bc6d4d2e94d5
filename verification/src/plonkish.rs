//! Plonkish arithmetization: rows, selectors, and copy constraints.
//!
//! A Plonkish circuit is a table. Each row carries three witness cells
//! (columns `a`, `b`, `c`) and five selector constants, and must satisfy one
//! identity:
//!
//! ```text
//!     q_L·a  +  q_R·b  +  q_O·c  +  q_M·a·b  +  q_C  =  0
//! ```
//!
//! Setting the selectors chooses what the row does: `q_M = 1, q_O = -1` makes
//! it a multiplication; `q_L = q_R = 1, q_O = -1` an addition; and so on.
//!
//! In R1CS a wire is a variable, so referring to it twice is free. In Plonkish
//! there are only cells, and a cell belongs to one row: a value produced in
//! row 3 and consumed in row 7 occupies two unrelated cells. So the wiring has
//! to be asserted, by copy constraints saying "these two cells hold the same
//! value". Here they are an explicit relation, checked directly.
//!
//! Nothing here is optimised: every node becomes its own row.
use vstd::prelude::*;

use vstd::utf8::encode_utf8;

use crate::field::{
    is_decimal_text, lemma_basics, lemma_mul_comm, lemma_neg_is_times_minus_one, lemma_sub_zero_iff,
    ZkField,
};
use crate::ir::{Assertion, Input, Ir, Node, NodeOp};
use crate::lower::{consts_parse, lowered};
use crate::witness::{assertions_hold, assertions_hold_upto, node_relation, well_formed, wire_values_ok};

verus! {

/// The three witness columns.
#[derive(Debug, Clone, Copy, PartialEq, Eq, Structural, Hash)]
pub enum Column {
    A,
    B,
    C,
}

impl Column {
    pub open spec fn spec_index(self) -> int {
        match self {
            Column::A => 0,
            Column::B => 1,
            Column::C => 2,
        }
    }

    pub fn index(self) -> (r: usize)
        ensures
            r == self.spec_index(),
    {
        match self {
            Column::A => 0,
            Column::B => 1,
            Column::C => 2,
        }
    }

    pub fn name(self) -> (r: &'static str)
        ensures
            r@ == (match self {
                Column::A => "a"@,
                Column::B => "b"@,
                Column::C => "c"@,
            }),
    {
        match self {
            Column::A => "a",
            Column::B => "b",
            Column::C => "c",
        }
    }
}

/// One witness cell: a column at a row. The unit a copy constraint relates.
#[derive(Debug, Clone, Copy, PartialEq, Eq, Structural, Hash)]
pub struct Cell {
    pub row: usize,
    pub column: Column,
}

impl Cell {
    pub fn new(row: usize, column: Column) -> (r: Self)
        ensures
            r == (Cell { row, column }),
    {
        Cell { row, column }
    }
}

/// A single row: the five selectors, plus which IR wire each cell holds.
///
/// A cell may be empty, in which case the selector multiplying it is zero and
/// its value is irrelevant; an empty cell is simply assigned zero.
#[derive(Debug, Clone)]
pub struct Row<F> {
    pub q_l: F,
    pub q_r: F,
    pub q_o: F,
    pub q_m: F,
    pub q_c: F,
    /// Which IR wire occupies each cell, indexed by `Column::index`.
    pub cells: [Option<u32>; 3],
    /// Where this row came from, in the user's own words.
    pub origin: String,
}

/// The row identity of `row` at cell values `v = [a, b, c]`:
/// `q_L·a + q_R·b + q_O·c + q_M·a·b + q_C`.
pub open spec fn gate_value<F: ZkField>(row: Row<F>, v: Seq<F>) -> F {
    row.q_l.spec_mul(v[0]).spec_add(row.q_r.spec_mul(v[1])).spec_add(row.q_o.spec_mul(v[2])).spec_add(
        row.q_m.spec_mul(v[0]).spec_mul(v[1]),
    ).spec_add(row.q_c)
}

impl<F: ZkField> Row<F> {
    fn empty(origin: String) -> (r: Self)
        ensures
            r.q_l == F::spec_zero(),
            r.q_r == F::spec_zero(),
            r.q_o == F::spec_zero(),
            r.q_m == F::spec_zero(),
            r.q_c == F::spec_zero(),
            r.cells@ == seq![None::<u32>, None, None],
            r.origin == origin,
    {
        let r = Row {
            q_l: F::zero(),
            q_r: F::zero(),
            q_o: F::zero(),
            q_m: F::zero(),
            q_c: F::zero(),
            cells: [None, None, None],
            origin,
        };
        assert(r.cells@ =~= seq![None::<u32>, None, None]);
        r
    }

    /// Evaluate the row identity. Zero means satisfied.
    pub fn evaluate(&self, values: &[F; 3]) -> (r: F)
        ensures
            r == gate_value(*self, values@),
    {
        let (a, b, c) = (values[0], values[1], values[2]);
        self.q_l.mul(a).add(self.q_r.mul(b)).add(self.q_o.mul(c)).add(self.q_m.mul(a).mul(b)).add(
            self.q_c,
        )
    }
}

pub struct Plonkish<F> {
    pub rows: Vec<Row<F>>,
    /// Cells that must agree. This is the wiring, made explicit.
    pub copies: Vec<(Cell, Cell)>,
    /// Public inputs, in declaration order: the wire and the cell that carries
    /// it. The ordering is part of the contract with the verifier.
    pub public_cells: Vec<(u32, Cell)>,
}

/// A failed check, in terms a circuit author can act on.
#[derive(Debug, Clone)]
pub enum Violation {
    /// A row's gate identity did not evaluate to zero.
    Gate { row: usize, origin: String, value: String },
    /// Two cells that must agree did not. Either the lowering wired the
    /// circuit wrongly, or the assignment was tampered with after the fact.
    Copy { left: Cell, right: Cell, left_value: String, right_value: String },
}

/// Every cell of every row holds a wire below `count`.
pub open spec fn rows_cells_below<F>(rows: Seq<Row<F>>, count: nat) -> bool {
    forall|i: int, j: int| 0 <= i < rows.len() && 0 <= j < 3 ==> (#[trigger] rows[i].cells@[j] matches Some(w) ==> w < count)
}

/// The value a table holds in `cell`.
pub open spec fn cell_value<F>(table: Seq<Seq<F>>, cell: Cell) -> F {
    table[cell.row as int][cell.column.spec_index()]
}

/// The cell values of one row under wire values: a wire's value in an
/// occupied cell, zero in an empty one.
pub open spec fn honest_row<F: ZkField>(cells: Seq<Option<u32>>, wire_values: Seq<F>) -> Seq<F> {
    Seq::new(
        3,
        |j: int|
            match cells[j] {
                Some(w) => wire_values[w as int],
                None => F::spec_zero(),
            },
    )
}

/// A table given as rows of three values, as a sequence of sequences.
pub open spec fn table_view<F>(assignment: Seq<[F; 3]>) -> Seq<Seq<F>> {
    Seq::new(assignment.len(), |i: int| assignment[i]@)
}

/// The indices of the rows whose gate does not vanish, in order.
pub open spec fn failing_gates<F: ZkField>(rows: Seq<Row<F>>, table: Seq<Seq<F>>) -> Seq<usize>
    decreases rows.len(),
{
    if rows.len() == 0 {
        Seq::empty()
    } else {
        let rest = failing_gates(rows.drop_last(), table);
        if gate_value(rows.last(), table[rows.len() - 1]) == F::spec_zero() {
            rest
        } else {
            rest.push((rows.len() - 1) as usize)
        }
    }
}

/// The indices of the copy constraints whose two cells disagree, in order.
pub open spec fn failing_copies<F>(copies: Seq<(Cell, Cell)>, table: Seq<Seq<F>>) -> Seq<usize>
    decreases copies.len(),
{
    if copies.len() == 0 {
        Seq::empty()
    } else {
        let rest = failing_copies(copies.drop_last(), table);
        if cell_value(table, copies.last().0) == cell_value(table, copies.last().1) {
            rest
        } else {
            rest.push((copies.len() - 1) as usize)
        }
    }
}

proof fn lemma_failing_gates_bounds<F: ZkField>(rows: Seq<Row<F>>, table: Seq<Seq<F>>)
    ensures
        forall|j: int| 0 <= j < failing_gates(rows, table).len() ==> #[trigger] failing_gates(rows, table)[j] < rows.len(),
        failing_gates(rows, table).len() == 0 <==> forall|i: int| 0 <= i < rows.len() ==> #[trigger] gate_value(rows[i], table[i]) == F::spec_zero(),
    decreases rows.len(),
{
    if rows.len() > 0 {
        let init = rows.drop_last();
        lemma_failing_gates_bounds(init, table);
        assert forall|i: int| 0 <= i < init.len() implies #[trigger] init[i] == rows[i] by {}
        if failing_gates(rows, table).len() == 0 {
            assert forall|i: int| 0 <= i < rows.len() implies #[trigger] gate_value(rows[i], table[i]) == F::spec_zero() by {
                if i < init.len() {
                    assert(gate_value(init[i], table[i]) == F::spec_zero());
                }
            }
        } else if forall|i: int| 0 <= i < rows.len() ==> #[trigger] gate_value(rows[i], table[i]) == F::spec_zero() {
            assert(gate_value(rows[rows.len() - 1], table[rows.len() - 1]) == F::spec_zero());
            assert forall|i: int| 0 <= i < init.len() implies #[trigger] gate_value(init[i], table[i]) == F::spec_zero() by {
                assert(gate_value(rows[i], table[i]) == F::spec_zero());
            }
        }
    }
}

proof fn lemma_failing_copies_bounds<F>(copies: Seq<(Cell, Cell)>, table: Seq<Seq<F>>)
    ensures
        forall|j: int| 0 <= j < failing_copies(copies, table).len() ==> #[trigger] failing_copies(copies, table)[j] < copies.len(),
        failing_copies(copies, table).len() == 0 <==> forall|k: int| 0 <= k < copies.len() ==> #[trigger] cell_value(table, copies[k].0) == cell_value(table, copies[k].1),
    decreases copies.len(),
{
    if copies.len() > 0 {
        let init = copies.drop_last();
        lemma_failing_copies_bounds(init, table);
        assert forall|k: int| 0 <= k < init.len() implies #[trigger] init[k] == copies[k] by {}
        if failing_copies(copies, table).len() == 0 {
            assert forall|k: int| 0 <= k < copies.len() implies #[trigger] cell_value(table, copies[k].0) == cell_value(table, copies[k].1) by {
                if k < init.len() {
                    assert(cell_value(table, init[k].0) == cell_value(table, init[k].1));
                }
            }
        } else if forall|k: int| 0 <= k < copies.len() ==> #[trigger] cell_value(table, copies[k].0) == cell_value(table, copies[k].1) {
            assert(cell_value(table, copies[copies.len() - 1].0) == cell_value(table, copies[copies.len() - 1].1));
            assert forall|k: int| 0 <= k < init.len() implies #[trigger] cell_value(table, init[k].0) == cell_value(table, init[k].1) by {
                assert(cell_value(table, copies[k].0) == cell_value(table, copies[k].1));
            }
        }
    }
}

impl<F: ZkField> Plonkish<F> {
    /// Every gate vanishes and every copy constraint holds.
    pub open spec fn spec_is_satisfied(&self, table: Seq<Seq<F>>) -> bool {
        &&& forall|i: int| 0 <= i < self.rows@.len() ==> #[trigger] gate_value(self.rows@[i], table[i]) == F::spec_zero()
        &&& forall|k: int| 0 <= k < self.copies@.len() ==> #[trigger] cell_value(table, self.copies@[k].0) == cell_value(
            table,
            self.copies@[k].1,
        )
    }

    /// The honest prover's table for the given wire values.
    pub open spec fn spec_assignment(&self, wire_values: Seq<F>) -> Seq<Seq<F>> {
        Seq::new(self.rows@.len(), |i: int| honest_row(self.rows@[i].cells@, wire_values))
    }

    /// Every cell of every row holds a wire below `count`.
    pub open spec fn cells_below(&self, count: nat) -> bool {
        rows_cells_below(self.rows@, count)
    }

    /// Every copy constraint names rows of a table with `rows` rows.
    pub open spec fn copies_within(&self, rows: nat) -> bool {
        forall|k: int| 0 <= k < self.copies@.len() ==> (#[trigger] self.copies@[k]).0.row < rows && self.copies@[k].1.row < rows
    }

    pub fn num_rows(&self) -> (r: usize)
        ensures
            r == self.rows@.len(),
    {
        self.rows.len()
    }

    /// Three witness columns and five selector columns, always. Width is fixed
    /// by the row constraint; it is the row count that varies with the circuit.
    pub fn num_columns(&self) -> (r: usize)
        ensures
            r == 8,
    {
        8
    }

    /// Fill every cell from solved wire values: the honest prover's table.
    /// Copy constraints hold of it by construction; `check` verifies them
    /// anyway, so that a table that did not come from here is still caught.
    pub fn assignment(&self, wire_values: &[F]) -> (r: Vec<[F; 3]>)
        requires
            self.cells_below(wire_values@.len()),
        ensures
            table_view(r@) == self.spec_assignment(wire_values@),
    {
        let mut out: Vec<[F; 3]> = Vec::new();
        let mut i: usize = 0;
        while i < self.rows.len()
            invariant
                i <= self.rows@.len(),
                self.cells_below(wire_values@.len()),
                out@.len() == i,
                forall|k: int| 0 <= k < i ==> (#[trigger] out@[k])@ == honest_row(self.rows@[k].cells@, wire_values@),
            decreases self.rows@.len() - i,
        {
            let row = &self.rows[i];
            let mut values: [F; 3] = [F::zero(), F::zero(), F::zero()];
            let mut j: usize = 0;
            while j < 3
                invariant
                    j <= 3,
                    i < self.rows@.len(),
                    *row == self.rows@[i as int],
                    self.cells_below(wire_values@.len()),
                    values@.len() == 3,
                    forall|t: int| 0 <= t < 3 ==> #[trigger] values@[t] == (if t < j {
                        honest_row(row.cells@, wire_values@)[t]
                    } else {
                        F::spec_zero()
                    }),
                decreases 3 - j,
            {
                if let Some(wire) = row.cells[j] {
                    assert(self.rows@[i as int].cells@[j as int] matches Some(w) ==> w < wire_values@.len());
                    values[j] = wire_values[wire as usize];
                }
                j = j + 1;
            }
            assert(values@ =~= honest_row(row.cells@, wire_values@));
            out.push(values);
            i = i + 1;
        }
        assert(table_view(out@) =~= self.spec_assignment(wire_values@));
        out
    }

    fn cell_value(&self, assignment: &[[F; 3]], cell: Cell) -> (r: F)
        requires
            cell.row < assignment@.len(),
        ensures
            r == cell_value(table_view(assignment@), cell),
    {
        assignment[cell.row][cell.column.index()]
    }

    /// Every failing gate, in row order, then every broken copy constraint,
    /// in order, with the offending values rendered in decimal.
    pub fn check(&self, assignment: &[[F; 3]]) -> (r: Vec<Violation>)
        requires
            self.rows@.len() <= assignment@.len(),
            self.copies_within(assignment@.len()),
        ensures
            ({
                let table = table_view(assignment@);
                let gates = failing_gates(self.rows@, table);
                let copies = failing_copies(self.copies@, table);
                &&& r@.len() == gates.len() + copies.len()
                &&& forall|j: int| #![trigger r@[j]] 0 <= j < gates.len() ==> {
                    let i = gates[j] as int;
                    r@[j] == Violation::Gate {
                        row: i as usize,
                        origin: self.rows@[i].origin,
                        value: r@[j]->Gate_value,
                    } && r@[j]->Gate_value@ == gate_value(self.rows@[i], table[i]).spec_to_decimal()
                }
                &&& forall|j: int| #![trigger r@[j]] gates.len() <= j < r@.len() ==> {
                    let c = self.copies@[copies[j - gates.len()] as int];
                    &&& r@[j] is Copy
                    &&& r@[j]->left == c.0
                    &&& r@[j]->right == c.1
                    &&& r@[j]->left_value@ == cell_value(table, c.0).spec_to_decimal()
                    &&& r@[j]->right_value@ == cell_value(table, c.1).spec_to_decimal()
                }
            }),
    {
        let ghost table = table_view(assignment@);
        let mut violations: Vec<Violation> = Vec::new();
        let mut index: usize = 0;
        while index < self.rows.len()
            invariant
                index <= self.rows@.len(),
                self.rows@.len() <= assignment@.len(),
                table == table_view(assignment@),
                violations@.len() == failing_gates(self.rows@.subrange(0, index as int), table).len(),
                forall|j: int| #![trigger violations@[j]] 0 <= j < violations@.len() ==> {
                    let i = failing_gates(self.rows@.subrange(0, index as int), table)[j] as int;
                    violations@[j] == Violation::Gate {
                        row: i as usize,
                        origin: self.rows@[i].origin,
                        value: violations@[j]->Gate_value,
                    } && violations@[j]->Gate_value@ == gate_value(self.rows@[i], table[i]).spec_to_decimal()
                },
            decreases self.rows@.len() - index,
        {
            let ghost prefix = self.rows@.subrange(0, index as int);
            let ghost next = self.rows@.subrange(0, index as int + 1);
            assert(next.drop_last() =~= prefix);
            proof {
                lemma_failing_gates_bounds(prefix, table);
            }
            let row = &self.rows[index];
            let value = row.evaluate(&assignment[index]);
            if !value.is_zero() {
                violations.push(Violation::Gate { row: index, origin: row.origin.clone(), value: value.to_decimal() });
                proof {
                    assert forall|j: int| 0 <= j < prefix.len() implies #[trigger] prefix[j] == self.rows@[j] by {}
                }
            }
            index = index + 1;
        }
        assert(self.rows@.subrange(0, self.rows@.len() as int) =~= self.rows@);
        let ghost gates = failing_gates(self.rows@, table);
        let mut k: usize = 0;
        while k < self.copies.len()
            invariant
                k <= self.copies@.len(),
                self.copies_within(assignment@.len()),
                table == table_view(assignment@),
                gates == failing_gates(self.rows@, table),
                violations@.len() == gates.len() + failing_copies(self.copies@.subrange(0, k as int), table).len(),
                forall|j: int| #![trigger violations@[j]] 0 <= j < gates.len() ==> {
                    let i = gates[j] as int;
                    violations@[j] == Violation::Gate {
                        row: i as usize,
                        origin: self.rows@[i].origin,
                        value: violations@[j]->Gate_value,
                    } && violations@[j]->Gate_value@ == gate_value(self.rows@[i], table[i]).spec_to_decimal()
                },
                forall|j: int| #![trigger violations@[j]] gates.len() <= j < violations@.len() ==> {
                    let c = self.copies@[failing_copies(self.copies@.subrange(0, k as int), table)[j - gates.len()] as int];
                    &&& violations@[j] is Copy
                    &&& violations@[j]->left == c.0
                    &&& violations@[j]->right == c.1
                    &&& violations@[j]->left_value@ == cell_value(table, c.0).spec_to_decimal()
                    &&& violations@[j]->right_value@ == cell_value(table, c.1).spec_to_decimal()
                },
            decreases self.copies@.len() - k,
        {
            let ghost prefix = self.copies@.subrange(0, k as int);
            let ghost next = self.copies@.subrange(0, k as int + 1);
            assert(next.drop_last() =~= prefix);
            proof {
                lemma_failing_copies_bounds(prefix, table);
            }
            let (left, right) = self.copies[k];
            let left_value = self.cell_value(assignment, left);
            let right_value = self.cell_value(assignment, right);
            if !left_value.equals(right_value) {
                violations.push(
                    Violation::Copy {
                        left,
                        right,
                        left_value: left_value.to_decimal(),
                        right_value: right_value.to_decimal(),
                    },
                );
                proof {
                    assert forall|j: int| 0 <= j < prefix.len() implies #[trigger] prefix[j] == self.copies@[j] by {}
                }
            }
            k = k + 1;
        }
        assert(self.copies@.subrange(0, self.copies@.len() as int) =~= self.copies@);
        violations
    }

    pub fn is_satisfied(&self, assignment: &[[F; 3]]) -> (r: bool)
        requires
            self.rows@.len() <= assignment@.len(),
            self.copies_within(assignment@.len()),
        ensures
            r == self.spec_is_satisfied(table_view(assignment@)),
    {
        let violations = self.check(assignment);
        proof {
            lemma_failing_gates_bounds(self.rows@, table_view(assignment@));
            lemma_failing_copies_bounds(self.copies@, table_view(assignment@));
        }
        violations.len() == 0
    }
}

/// `1 · x = x` and `(-1) · x = -x` for a canonical `x`, and `0 · x = 0`.
proof fn lemma_unit_products<F: ZkField>(x: F)
    requires
        x.wf(),
    ensures
        F::spec_one().spec_mul(x) == x,
        F::spec_one().spec_neg().spec_mul(x) == x.spec_neg(),
        F::spec_zero().spec_mul(x) == F::spec_zero(),
{
    lemma_basics(x, x);
    lemma_mul_comm(F::spec_one(), x);
    lemma_neg_is_times_minus_one(x);
    lemma_mul_comm(F::spec_one().spec_neg(), x);
}

/// The row constraint of `row` at the honest values of its cells.
pub open spec fn honest_gate<F: ZkField>(row: Row<F>, wire_values: Seq<F>) -> F {
    gate_value(row, honest_row(row.cells@, wire_values))
}

/// Every gate vanishes at the honest values of its cells.
pub open spec fn gates_hold<F: ZkField>(rows: Seq<Row<F>>, wire_values: Seq<F>) -> bool {
    forall|i: int| 0 <= i < rows.len() ==> #[trigger] honest_gate(rows[i], wire_values) == F::spec_zero()
}

/// The public inputs' wires, in declaration order.
pub open spec fn public_wires(inputs: Seq<crate::ir::Input>) -> Seq<u32>
    decreases inputs.len(),
{
    if inputs.len() == 0 {
        Seq::empty()
    } else {
        let rest = public_wires(inputs.drop_last());
        if inputs.last().visibility.spec_is_public() {
            rest.push(inputs.last().wire)
        } else {
            rest
        }
    }
}

/// Whether `cell` of the table holds wire `w`.
pub open spec fn holds_wire<F>(rows: Seq<Row<F>>, cell: Cell, w: u32) -> bool {
    &&& cell.row < rows.len()
    &&& rows[cell.row as int].cells@[cell.column.spec_index()] == Some(w)
}

/// Both cells of a copy constraint hold one and the same wire.
pub open spec fn one_wire<F>(rows: Seq<Row<F>>, pair: (Cell, Cell)) -> bool {
    exists|w: u32| #[trigger] holds_wire(rows, pair.0, w) && holds_wire(rows, pair.1, w)
}

/// What lowering to Plonkish produces: the rows of `rows_laid_out`, holding
/// wires of the circuit; for each wire in turn, copy constraints chaining its
/// cells in table order; the public inputs in order, each bound to the first
/// cell holding it; and a table whose honest filling satisfies every row and
/// copy constraint exactly when the circuit's assertions hold.
pub open spec fn plonk_lowered<F: ZkField>(ir: &Ir, circuit: Plonkish<F>) -> bool {
    &&& circuit.cells_below(ir.spec_wire_count())
    &&& circuit.copies_within(circuit.rows@.len())
    &&& forall|k: int| 0 <= k < circuit.copies@.len() ==> one_wire(circuit.rows@, #[trigger] circuit.copies@[k])
    &&& circuit.public_cells@.len() == public_wires(ir.inputs@).len()
    &&& forall|k: int| 0 <= k < circuit.public_cells@.len() ==> {
        &&& (#[trigger] circuit.public_cells@[k]).0 == public_wires(ir.inputs@)[k]
        &&& holds_wire(circuit.rows@, circuit.public_cells@[k].1, circuit.public_cells@[k].0)
        &&& circuit.public_cells@[k].1 == cells_holding(circuit.rows@, circuit.public_cells@[k].0)[0]
    }
    &&& circuit.copies@ == wiring(circuit.rows@, ir.spec_wire_count())
    &&& forall|values: Seq<F>| wire_values_ok(ir, values) ==> (#[trigger] circuit.spec_is_satisfied(circuit.spec_assignment(values))
        <==> assertions_hold(ir, values))
    &&& rows_laid_out(ir, circuit.rows@)
}

/// A row's five selectors and three cells, leaving out its origin text.
pub open spec fn row_is<F>(row: Row<F>, q_l: F, q_r: F, q_o: F, q_m: F, q_c: F, cells: Seq<Option<u32>>) -> bool {
    &&& row.q_l == q_l
    &&& row.q_r == q_r
    &&& row.q_o == q_o
    &&& row.q_m == q_m
    &&& row.q_c == q_c
    &&& row.cells@ == cells
}

/// The origin text of an arithmetic node's row: `"{kind} at wire {wire}"`.
pub open spec fn node_origin(node: Node) -> Seq<char> {
    let kind = match node.op {
        NodeOp::Const { .. } => "const"@,
        NodeOp::Add { .. } => "add"@,
        NodeOp::Sub { .. } => "sub"@,
        NodeOp::Mul { .. } => "mul"@,
        NodeOp::Neg { .. } => "neg"@,
        NodeOp::Hint { .. } => "hint"@,
    };
    kind + " at wire "@ + crate::goldilocks::nat_to_decimal(node.wire as nat)
}

/// The origin text of a binding row: `"binding for public input '{name}'"`.
pub open spec fn binding_origin(name: Seq<char>) -> Seq<char> {
    "binding for public input '"@ + name + "'"@
}

/// The row an arithmetic node becomes: its identity over the `(a, b, c)`
/// cells, with the node's output in `c`, and the node named as its origin.
pub open spec fn node_row<F: ZkField>(row: Row<F>, node: Node) -> bool {
    &&& node_row_shape(row, node)
    &&& row.origin@ == node_origin(node)
}

/// The selectors and cells of an arithmetic node's row.
pub open spec fn node_row_shape<F: ZkField>(row: Row<F>, node: Node) -> bool {
    let z = F::spec_zero();
    let one = F::spec_one();
    let m = one.spec_neg();
    let a = node.op.spec_args();
    let out = Some(node.wire);
    match node.op {
        NodeOp::Const { value } => row_is(
            row,
            z,
            z,
            one,
            z,
            F::spec_decimal_value(encode_utf8(value@)).spec_neg(),
            seq![None, None, out],
        ),
        NodeOp::Add { .. } => row_is(row, one, one, m, z, z, seq![Some(a[0]), Some(a[1]), out]),
        NodeOp::Sub { .. } => row_is(row, one, m, m, z, z, seq![Some(a[0]), Some(a[1]), out]),
        NodeOp::Mul { .. } => row_is(row, z, z, m, one, z, seq![Some(a[0]), Some(a[1]), out]),
        NodeOp::Neg { .. } => row_is(row, m, z, m, z, z, seq![Some(a[0]), None, out]),
        NodeOp::Hint { .. } => false,
    }
}

/// The row an assertion becomes: `lhs - rhs = 0` over the `a` and `b` cells,
/// with the assertion's `line N: label` as its origin.
pub open spec fn assertion_row<F: ZkField>(row: Row<F>, assertion: Assertion) -> bool {
    let z = F::spec_zero();
    let one = F::spec_one();
    &&& row_is(row, one, one.spec_neg(), z, z, z, seq![Some(assertion.lhs), Some(assertion.rhs), None])
    &&& row.origin@ == crate::lower::assertion_origin(assertion)
}

/// The all-zero row that binds wire `w` to a cell.
pub open spec fn binding_row<F: ZkField>(row: Row<F>, w: u32) -> bool {
    let z = F::spec_zero();
    row_is(row, z, z, z, z, z, seq![Some(w), None, None])
}

/// The nodes that get a row: all but the hints, in order.
pub open spec fn arithmetic_nodes(nodes: Seq<Node>) -> Seq<Node>
    decreases nodes.len(),
{
    if nodes.len() == 0 {
        Seq::empty()
    } else {
        let rest = arithmetic_nodes(nodes.drop_last());
        if nodes.last().op is Hint {
            rest
        } else {
            rest.push(nodes.last())
        }
    }
}

/// Wire `w` occupies a cell of some node row: as an argument or the output
/// of an arithmetic node.
pub open spec fn used_by_nodes(nodes: Seq<Node>, w: u32) -> bool
    decreases nodes.len(),
{
    if nodes.len() == 0 {
        false
    } else {
        let node = nodes.last();
        used_by_nodes(nodes.drop_last(), w) || (!(node.op is Hint) && (node.wire == w || node.op.spec_args().contains(w)))
    }
}

/// Wire `w` is a side of some assertion.
pub open spec fn used_by_assertions(assertions: Seq<Assertion>, w: u32) -> bool
    decreases assertions.len(),
{
    if assertions.len() == 0 {
        false
    } else {
        used_by_assertions(assertions.drop_last(), w) || assertions.last().lhs == w || assertions.last().rhs == w
    }
}

/// The public inputs, in order, whose wire no node row and no assertion row
/// mentions: each of these gets a binding row of its own.
pub open spec fn unbound_publics(inputs: Seq<Input>, nodes: Seq<Node>, assertions: Seq<Assertion>) -> Seq<u32>
    decreases inputs.len(),
{
    if inputs.len() == 0 {
        Seq::empty()
    } else {
        let rest = unbound_publics(inputs.drop_last(), nodes, assertions);
        let input = inputs.last();
        if input.visibility.spec_is_public() && !used_by_nodes(nodes, input.wire) && !used_by_assertions(
            assertions,
            input.wire,
        ) {
            rest.push(input.wire)
        } else {
            rest
        }
    }
}

/// The layout of the table: one row per arithmetic node in node order, one
/// row per assertion, none for a hint, and last a binding row for each public
/// input that no earlier row mentions.
pub open spec fn rows_laid_out<F: ZkField>(ir: &Ir, rows: Seq<Row<F>>) -> bool {
    let nodes = arithmetic_nodes(ir.nodes@);
    let n = nodes.len();
    let m = ir.assertions@.len();
    let bindings = unbound_publics(ir.inputs@, ir.nodes@, ir.assertions@);
    &&& rows.len() == n + m + bindings.len()
    &&& forall|i: int| 0 <= i < n ==> node_row(rows[i], #[trigger] nodes[i])
    &&& forall|k: int| 0 <= k < m ==> assertion_row(rows[n + k], #[trigger] ir.assertions@[k])
    &&& forall|b: int| 0 <= b < bindings.len() ==> binding_row(rows[n + m + b], #[trigger] bindings[b])
}

/// The cells of row `r` that hold wire `w`, left to right.
pub open spec fn row_cells_holding<F>(row: Row<F>, r: int, w: u32) -> Seq<Cell> {
    let at = |column: Column| Cell { row: r as usize, column };
    let a = if row.cells@[0] == Some(w) {
        seq![at(Column::A)]
    } else {
        Seq::empty()
    };
    let b = if row.cells@[1] == Some(w) {
        seq![at(Column::B)]
    } else {
        Seq::empty()
    };
    let c = if row.cells@[2] == Some(w) {
        seq![at(Column::C)]
    } else {
        Seq::empty()
    };
    a + b + c
}

/// Every cell that holds wire `w`, row by row and left to right.
pub open spec fn cells_holding<F>(rows: Seq<Row<F>>, w: u32) -> Seq<Cell>
    decreases rows.len(),
{
    if rows.len() == 0 {
        Seq::empty()
    } else {
        cells_holding(rows.drop_last(), w) + row_cells_holding(rows.last(), rows.len() - 1, w)
    }
}

/// Each cell paired with the next: the copy constraints that chain `cells`
/// together.
pub open spec fn chain(cells: Seq<Cell>) -> Seq<(Cell, Cell)> {
    if cells.len() == 0 {
        Seq::empty()
    } else {
        Seq::new((cells.len() - 1) as nat, |t: int| (cells[t], cells[t + 1]))
    }
}

/// The copy constraints of the wires below `w`, wire by wire: each wire's
/// cells chained in the order `cells_holding` lists them.
pub open spec fn wiring<F>(rows: Seq<Row<F>>, w: nat) -> Seq<(Cell, Cell)>
    decreases w,
{
    if w == 0 {
        Seq::empty()
    } else {
        wiring(rows, (w - 1) as nat) + chain(cells_holding(rows, (w - 1) as u32))
    }
}

pub(crate) proof fn lemma_cells_holding_push<F>(rows: Seq<Row<F>>, row: Row<F>, w: u32)
    ensures
        cells_holding(rows.push(row), w) == cells_holding(rows, w) + row_cells_holding(row, rows.len() as int, w),
{
    assert(rows.push(row).drop_last() =~= rows);
}

/// Tables whose rows hold the same cells list the same cells for each wire.
pub proof fn lemma_cells_holding_same<F, G>(a: Seq<Row<F>>, b: Seq<Row<G>>, w: u32)
    requires
        a.len() == b.len(),
        forall|i: int| 0 <= i < a.len() ==> (#[trigger] a[i]).cells@ == b[i].cells@,
    ensures
        cells_holding(a, w) == cells_holding(b, w),
    decreases a.len(),
{
    if a.len() > 0 {
        lemma_cells_holding_same(a.drop_last(), b.drop_last(), w);
        assert(a.last().cells@ == b.last().cells@);
    }
}

/// Tables whose rows hold the same cells are wired alike.
pub proof fn lemma_wiring_same<F, G>(a: Seq<Row<F>>, b: Seq<Row<G>>, w: nat)
    requires
        a.len() == b.len(),
        forall|i: int| 0 <= i < a.len() ==> (#[trigger] a[i]).cells@ == b[i].cells@,
    ensures
        wiring(a, w) == wiring(b, w),
    decreases w,
{
    if w > 0 {
        lemma_wiring_same(a, b, (w - 1) as nat);
        lemma_cells_holding_same(a, b, (w - 1) as u32);
    }
}

proof fn lemma_arithmetic_push(nodes: Seq<Node>, node: Node)
    ensures
        arithmetic_nodes(nodes.push(node)) == (if node.op is Hint {
            arithmetic_nodes(nodes)
        } else {
            arithmetic_nodes(nodes).push(node)
        }),
{
    assert(nodes.push(node).drop_last() =~= nodes);
}

proof fn lemma_used_push(nodes: Seq<Node>, node: Node, w: u32)
    ensures
        used_by_nodes(nodes.push(node), w) <==> (used_by_nodes(nodes, w) || (!(node.op is Hint) && (node.wire == w
            || node.op.spec_args().contains(w)))),
{
    assert(nodes.push(node).drop_last() =~= nodes);
}

proof fn lemma_asserted_push(assertions: Seq<Assertion>, assertion: Assertion, w: u32)
    ensures
        used_by_assertions(assertions.push(assertion), w) <==> (used_by_assertions(assertions, w) || assertion.lhs == w
            || assertion.rhs == w),
{
    assert(assertions.push(assertion).drop_last() =~= assertions);
}

/// The table's rows so far accept lawful wire values exactly when the first
/// `n` assertions hold.
spec fn rows_match<F: ZkField>(ir: &Ir, rows: Seq<Row<F>>, n: int) -> bool {
    forall|values: Seq<F>| wire_values_ok(ir, values) ==> (#[trigger] gates_hold(rows, values) <==> assertions_hold_upto(ir, values, n))
}

/// Every recorded cell of wire `w` holds `w`.
spec fn cells_recorded<F>(rows: Seq<Row<F>>, wire_cells: Seq<Vec<Cell>>) -> bool {
    forall|w: int, t: int| 0 <= w < wire_cells.len() && 0 <= t < wire_cells[w]@.len() ==> holds_wire(rows, #[trigger] wire_cells[w]@[t], w as u32)
}

proof fn lemma_gates_push<F: ZkField>(rows: Seq<Row<F>>, row: Row<F>, values: Seq<F>)
    ensures
        gates_hold(rows.push(row), values) <==> (gates_hold(rows, values) && honest_gate(row, values) == F::spec_zero()),
{
    if gates_hold(rows.push(row), values) {
        assert(rows.push(row)[rows.len() as int] == row);
        assert forall|i: int| 0 <= i < rows.len() implies #[trigger] honest_gate(rows[i], values) == F::spec_zero() by {
            assert(rows.push(row)[i] == rows[i]);
        }
    }
    if gates_hold(rows, values) && honest_gate(row, values) == F::spec_zero() {
        assert forall|i: int| 0 <= i < rows.len() + 1 implies #[trigger] honest_gate(rows.push(row)[i], values) == F::spec_zero() by {
            if i < rows.len() {
                assert(rows.push(row)[i] == rows[i]);
            }
        }
    }
}

/// Appending a row that holds of every lawful valuation.
proof fn lemma_rows_push_node<F: ZkField>(ir: &Ir, rows: Seq<Row<F>>, row: Row<F>, n: int)
    requires
        rows_match(ir, rows, n),
        forall|values: Seq<F>| wire_values_ok(ir, values) ==> #[trigger] honest_gate(row, values) == F::spec_zero(),
    ensures
        rows_match(ir, rows.push(row), n),
{
    assert forall|values: Seq<F>| wire_values_ok(ir, values) implies (#[trigger] gates_hold(rows.push(row), values)
        <==> assertions_hold_upto(ir, values, n)) by {
        lemma_gates_push(rows, row, values);
        assert(honest_gate(row, values) == F::spec_zero());
    }
}

/// A row whose gate holds exactly when assertion `n` does extends the match.
proof fn lemma_rows_push_assertion<F: ZkField>(ir: &Ir, rows: Seq<Row<F>>, row: Row<F>, n: int)
    requires
        0 <= n < ir.assertions@.len(),
        rows_match(ir, rows, n),
        forall|values: Seq<F>| wire_values_ok(ir, values) ==> (#[trigger] honest_gate(row, values) == F::spec_zero()
            <==> values[ir.assertions@[n].lhs as int] == values[ir.assertions@[n].rhs as int]),
    ensures
        rows_match(ir, rows.push(row), n + 1),
{
    assert forall|values: Seq<F>| wire_values_ok(ir, values) implies (#[trigger] gates_hold(rows.push(row), values)
        <==> assertions_hold_upto(ir, values, n + 1)) by {
        lemma_gates_push(rows, row, values);
        assert(gates_hold(rows, values) <==> assertions_hold_upto(ir, values, n));
        assert(honest_gate(row, values) == F::spec_zero() <==> values[ir.assertions@[n].lhs as int] == values[ir.assertions@[n].rhs as int]);
        if assertions_hold_upto(ir, values, n + 1) {
            assert(values[ir.assertions@[n].lhs as int] == values[ir.assertions@[n].rhs as int]);
        }
    }
}

/// Appending a row leaves every recorded cell in place.
proof fn lemma_recorded_push<F>(rows: Seq<Row<F>>, row: Row<F>, wire_cells: Seq<Vec<Cell>>)
    requires
        cells_recorded(rows, wire_cells),
    ensures
        cells_recorded(rows.push(row), wire_cells),
{
    assert forall|w: int, t: int| 0 <= w < wire_cells.len() && 0 <= t < wire_cells[w]@.len() implies holds_wire(rows.push(row), #[trigger] wire_cells[w]@[t], w as u32) by {
        assert(holds_wire(rows, wire_cells[w]@[t], w as u32));
        assert(rows.push(row)[wire_cells[w]@[t].row as int] == rows[wire_cells[w]@[t].row as int]);
    }
}

/// Every cell a row lists for `w` is in that row and holds `w`.
pub(crate) proof fn lemma_row_cells_hold<F>(row: Row<F>, r: int, w: u32)
    requires
        0 <= r <= usize::MAX,
    ensures
        forall|t: int| 0 <= t < row_cells_holding(row, r, w).len() ==> {
            &&& (#[trigger] row_cells_holding(row, r, w)[t]).row == r
            &&& row.cells@[row_cells_holding(row, r, w)[t].column.spec_index()] == Some(w)
        },
{
    let at = |column: Column| Cell { row: r as usize, column };
    let a = if row.cells@[0] == Some(w) {
        seq![at(Column::A)]
    } else {
        Seq::empty()
    };
    let b = if row.cells@[1] == Some(w) {
        seq![at(Column::B)]
    } else {
        Seq::empty()
    };
    let c = if row.cells@[2] == Some(w) {
        seq![at(Column::C)]
    } else {
        Seq::empty()
    };
    assert(row_cells_holding(row, r, w) == a + b + c);
    assert forall|t: int| 0 <= t < (a + b + c).len() implies {
        &&& (#[trigger] (a + b + c)[t]).row == r
        &&& row.cells@[(a + b + c)[t].column.spec_index()] == Some(w)
    } by {
        if t < a.len() {
            assert((a + b + c)[t] == a[t]);
        } else if t < a.len() + b.len() {
            assert((a + b + c)[t] == b[t - a.len()]);
        } else {
            assert((a + b + c)[t] == c[t - a.len() - b.len()]);
        }
    }
}

/// Every cell `cells_holding` lists does hold the wire.
proof fn lemma_cells_holding_hold<F>(rows: Seq<Row<F>>, w: u32)
    requires
        rows.len() <= usize::MAX,
    ensures
        forall|t: int| 0 <= t < cells_holding(rows, w).len() ==> holds_wire(rows, #[trigger] cells_holding(rows, w)[t], w),
    decreases rows.len(),
{
    if rows.len() > 0 {
        let front = rows.drop_last();
        let r = rows.len() - 1;
        lemma_cells_holding_hold(front, w);
        lemma_row_cells_hold(rows.last(), r, w);
        let head = cells_holding(front, w);
        let tail = row_cells_holding(rows.last(), r, w);
        assert forall|t: int| 0 <= t < cells_holding(rows, w).len() implies holds_wire(rows, #[trigger] cells_holding(rows, w)[t], w) by {
            if t < head.len() {
                assert(cells_holding(rows, w)[t] == head[t]);
                assert(holds_wire(front, head[t], w));
                assert(rows[head[t].row as int] == front[head[t].row as int]);
            } else {
                assert(cells_holding(rows, w)[t] == tail[t - head.len()]);
                assert(rows[r] == rows.last());
            }
        }
    }
}

/// Cells recorded as `cells_holding` lists them are recorded truthfully.
proof fn lemma_recorded_of_holding<F>(rows: Seq<Row<F>>, wire_cells: Seq<Vec<Cell>>)
    requires
        rows.len() <= usize::MAX,
        forall|v: int| 0 <= v < wire_cells.len() ==> (#[trigger] wire_cells[v])@ == cells_holding(rows, v as u32),
    ensures
        cells_recorded(rows, wire_cells),
{
    assert forall|w: int, t: int| 0 <= w < wire_cells.len() && 0 <= t < wire_cells[w]@.len() implies holds_wire(rows, #[trigger] wire_cells[w]@[t], w as u32) by {
        lemma_cells_holding_hold(rows, w as u32);
        assert(wire_cells[w]@ == cells_holding(rows, w as u32));
    }
}

/// A row mentions wire `v` exactly when one of its cells holds it.
proof fn lemma_row_cells_nonempty<F>(row: Row<F>, r: int, v: u32)
    requires
        row.cells@.len() == 3,
    ensures
        row_cells_holding(row, r, v).len() > 0 <==> (row.cells@[0] == Some(v) || row.cells@[1] == Some(v) || row.cells@[2]
            == Some(v)),
{
}

/// A node's row mentions exactly its output and its arguments.
proof fn lemma_node_row_cells<F: ZkField>(row: Row<F>, node: Node, r: int, v: u32)
    requires
        node_row(row, node),
        node.op.spec_args().len() == node.op.spec_arity(),
    ensures
        row_cells_holding(row, r, v).len() > 0 <==> (node.wire == v || node.op.spec_args().contains(v)),
{
    lemma_row_cells_nonempty(row, r, v);
    lemma_contains_args(node.op.spec_args(), v);
}

/// Record every occupied cell of row `index`, left to right, under its wire.
pub(crate) fn place_row<F>(wire_cells: &mut Vec<Vec<Cell>>, row: &Row<F>, index: usize)
    requires
        old(wire_cells)@.len() <= u32::MAX,
        forall|j: int| 0 <= j < 3 ==> (#[trigger] row.cells@[j] matches Some(w) ==> w < old(wire_cells)@.len()),
    ensures
        final(wire_cells)@.len() == old(wire_cells)@.len(),
        forall|v: int| 0 <= v < old(wire_cells)@.len() ==> (#[trigger] final(wire_cells)@[v])@ == old(wire_cells)@[v]@ + row_cells_holding(*row, index as int, v as u32),
{
    let ghost start = wire_cells@;
    let ghost at = |column: Column| Cell { row: index, column };
    if let Some(w) = row.cells[0] {
        place(wire_cells, Cell::new(index, Column::A), w);
    }
    let ghost first = wire_cells@;
    assert forall|v: int| 0 <= v < start.len() implies (#[trigger] first[v])@ =~= start[v]@ + (if row.cells@[0] == Some(v as u32) {
        seq![at(Column::A)]
    } else {
        Seq::empty()
    }) by {}
    if let Some(w) = row.cells[1] {
        place(wire_cells, Cell::new(index, Column::B), w);
    }
    let ghost second = wire_cells@;
    assert forall|v: int| 0 <= v < start.len() implies (#[trigger] second[v])@ =~= first[v]@ + (if row.cells@[1] == Some(v as u32) {
        seq![at(Column::B)]
    } else {
        Seq::empty()
    }) by {}
    if let Some(w) = row.cells[2] {
        place(wire_cells, Cell::new(index, Column::C), w);
    }
    assert forall|v: int| 0 <= v < start.len() implies (#[trigger] wire_cells@[v])@ == start[v]@ + row_cells_holding(*row, index as int, v as u32) by {
        assert(wire_cells@[v]@ =~= second[v]@ + (if row.cells@[2] == Some(v as u32) {
            seq![at(Column::C)]
        } else {
            Seq::empty()
        }));
        assert(start[v]@ + row_cells_holding(*row, index as int, v as u32) =~= start[v]@ + (if row.cells@[0] == Some(v as u32) {
            seq![at(Column::A)]
        } else {
            Seq::empty()
        }) + (if row.cells@[1] == Some(v as u32) {
            seq![at(Column::B)]
        } else {
            Seq::empty()
        }) + (if row.cells@[2] == Some(v as u32) {
            seq![at(Column::C)]
        } else {
            Seq::empty()
        }));
    }
}

/// Record `cell` as holding `wire`.
pub(crate) fn place(wire_cells: &mut Vec<Vec<Cell>>, cell: Cell, wire: u32)
    requires
        wire < old(wire_cells)@.len(),
    ensures
        final(wire_cells)@.len() == old(wire_cells)@.len(),
        final(wire_cells)@[wire as int]@ == old(wire_cells)@[wire as int]@.push(cell),
        forall|w: int| 0 <= w < old(wire_cells)@.len() && w != wire ==> #[trigger] final(wire_cells)@[w] == old(wire_cells)@[w],
{
    let mut cells = Vec::new();
    std::mem::swap(&mut cells, &mut wire_cells[wire as usize]);
    cells.push(cell);
    wire_cells.set(wire as usize, cells);
}

/// Membership in an argument list of at most two wires, spelled out.
proof fn lemma_contains_args(args: Seq<u32>, v: u32)
    requires
        args.len() <= 2,
    ensures
        args.contains(v) <==> ((args.len() > 0 && args[0] == v) || (args.len() > 1 && args[1] == v)),
{
    if args.len() > 0 && args[0] == v {
        assert(args[0] == v);
    }
    if args.len() > 1 && args[1] == v {
        assert(args[1] == v);
    }
}

/// Lower the Core IR to a Plonkish circuit.
///
/// One row per arithmetic node, one row per assertion, and no row at all for a
/// hint — a hint is an unconstrained value, so it occupies cells but imposes
/// no identity, exactly as it allocates a variable and no constraint in R1CS.
#[verifier::spinoff_prover]
#[verifier::rlimit(60)]
pub fn lower_plonkish<F: ZkField>(ir: &Ir) -> (r: Result<Plonkish<F>, String>)
    requires
        well_formed(ir),
    ensures
        r is Ok <==> consts_parse(ir),
        r matches Ok(circuit) ==> plonk_lowered(ir, circuit),
{
    let count = ir.wire_count();
    let mut rows: Vec<Row<F>> = Vec::new();
    // Every cell each wire occupies, so the wiring can be asserted afterwards.
    let mut wire_cells: Vec<Vec<Cell>> = Vec::new();
    let mut w: usize = 0;
    while w < count
        invariant
            w <= count,
            count == ir.spec_wire_count(),
            wire_cells@.len() == w,
            forall|v: int| 0 <= v < w ==> (#[trigger] wire_cells@[v])@.len() == 0,
        decreases count - w,
    {
        wire_cells.push(Vec::new());
        w = w + 1;
    }
    proof {
        lemma_basics(F::spec_one(), F::spec_one());
    }
    let one = F::one();
    let minus_one = one.neg();

    assert(ir.nodes@.subrange(0, 0) =~= Seq::<Node>::empty());
    let mut k: usize = 0;
    while k < ir.nodes.len()
        invariant
            well_formed(ir),
            count == ir.spec_wire_count(),
            k <= ir.nodes@.len(),
            one == F::spec_one(),
            minus_one == F::spec_one().spec_neg(),
            wire_cells@.len() == count,
            rows_cells_below(rows@, count as nat),
            forall|j: int| 0 <= j < k ==> (#[trigger] ir.nodes@[j].op matches NodeOp::Const { value } ==> is_decimal_text(encode_utf8(value@))),
            rows_match(ir, rows@, 0),
            rows@.len() == arithmetic_nodes(ir.nodes@.subrange(0, k as int)).len(),
            forall|i: int| 0 <= i < rows@.len() ==> node_row(#[trigger] rows@[i], arithmetic_nodes(ir.nodes@.subrange(0, k as int))[i]),
            forall|v: int| 0 <= v < count ==> (#[trigger] cells_holding(rows@, v as u32).len() > 0 <==> used_by_nodes(ir.nodes@.subrange(0, k as int), v as u32)),
            forall|v: int| 0 <= v < count ==> (#[trigger] wire_cells@[v])@ == cells_holding(rows@, v as u32),
        decreases ir.nodes@.len() - k,
    {
        let node = &ir.nodes[k];
        proof {
            assert(ir.node_ok(k as int));
        }
        let a = node.op.args();
        let index = rows.len();
        let ghost before = rows@;
        let ghost before_cells = wire_cells@;
        match &node.op {
            // A hint imposes no identity: the prover picks the value. It gets
            // no row; it will occupy cells wherever it is used.
            NodeOp::Hint { .. } => {},
            NodeOp::Const { value } => {
                // c = value, i.e. c - value = 0.
                let parsed = F::from_decimal(value.as_str());
                let v = match parsed {
                    Ok(v) => v,
                    Err(e) => {
                        proof {
                            assert(!(ir.nodes@[k as int].op matches NodeOp::Const { value } ==> is_decimal_text(encode_utf8(value@))));
                        }
                        return Err(e);
                    },
                };
                let mut row = Row::empty(msg_node("const", node.wire));
                row.q_o = one;
                row.q_c = v.neg();
                row.cells = [None, None, Some(node.wire)];
                proof {
                    F::lemma_decimal_wf(encode_utf8(value@));
                    assert forall|values: Seq<F>| wire_values_ok(ir, values) implies #[trigger] honest_gate(row, values) == F::spec_zero() by {
                        let c = values[node.wire as int];
                        assert(node_relation(ir.nodes@[k as int].op, values, values[ir.nodes@[k as int].wire as int]));
                        assert(honest_row(row.cells@, values) =~= seq![F::spec_zero(), F::spec_zero(), c]);
                        lemma_basics(F::spec_zero(), F::spec_zero());
                lemma_unit_products(F::spec_zero());
                        lemma_unit_products(c);
                        lemma_basics(F::spec_zero(), F::spec_zero());
                        lemma_basics(c, v);
                        lemma_basics(F::spec_zero(), c);
                        lemma_basics(c, F::spec_zero());
                        lemma_sub_zero_iff(c, v);
                    }
                    lemma_rows_push_node(ir, rows@, row, 0);
                    assert(row.cells@ =~= seq![None, None, Some(node.wire)]);
                    assert(node_row(row, ir.nodes@[k as int]));
                }
                place_row(&mut wire_cells, &row, index);
                rows.push(row);
            },
            NodeOp::Add { .. } => {
                // a + b - c = 0
                let mut row = Row::empty(msg_node("add", node.wire));
                row.q_l = one;
                row.q_r = one;
                row.q_o = minus_one;
                row.cells = [Some(a[0]), Some(a[1]), Some(node.wire)];
                proof {
                    assert forall|values: Seq<F>| wire_values_ok(ir, values) implies #[trigger] honest_gate(row, values) == F::spec_zero() by {
                        let (x, y) = (values[a@[0] as int], values[a@[1] as int]);
                        let c = values[node.wire as int];
                        assert(node_relation(ir.nodes@[k as int].op, values, values[ir.nodes@[k as int].wire as int]));
                        assert(honest_row(row.cells@, values) =~= seq![x, y, c]);
                        lemma_unit_products(x);
                        lemma_unit_products(y);
                        lemma_unit_products(c);
                        lemma_basics(x, y);
                        lemma_basics(c, c);
                        lemma_unit_products(F::spec_zero().spec_mul(x));
                        lemma_basics(F::spec_zero(), F::spec_zero());
                    }
                    lemma_rows_push_node(ir, rows@, row, 0);
                    assert(row.cells@ =~= seq![Some(a@[0]), Some(a@[1]), Some(node.wire)]);
                    assert(node_row(row, ir.nodes@[k as int]));
                }
                place_row(&mut wire_cells, &row, index);
                rows.push(row);
            },
            NodeOp::Sub { .. } => {
                // a - b - c = 0
                let mut row = Row::empty(msg_node("sub", node.wire));
                row.q_l = one;
                row.q_r = minus_one;
                row.q_o = minus_one;
                row.cells = [Some(a[0]), Some(a[1]), Some(node.wire)];
                proof {
                    assert forall|values: Seq<F>| wire_values_ok(ir, values) implies #[trigger] honest_gate(row, values) == F::spec_zero() by {
                        let (x, y) = (values[a@[0] as int], values[a@[1] as int]);
                        let c = values[node.wire as int];
                        assert(node_relation(ir.nodes@[k as int].op, values, values[ir.nodes@[k as int].wire as int]));
                        assert(honest_row(row.cells@, values) =~= seq![x, y, c]);
                        lemma_unit_products(x);
                        lemma_unit_products(y);
                        lemma_unit_products(c);
                        lemma_basics(x, y);
                        lemma_basics(c, c);
                        lemma_unit_products(F::spec_zero().spec_mul(x));
                        lemma_basics(F::spec_zero(), F::spec_zero());
                    }
                    lemma_rows_push_node(ir, rows@, row, 0);
                    assert(row.cells@ =~= seq![Some(a@[0]), Some(a@[1]), Some(node.wire)]);
                    assert(node_row(row, ir.nodes@[k as int]));
                }
                place_row(&mut wire_cells, &row, index);
                rows.push(row);
            },
            NodeOp::Mul { .. } => {
                // a·b - c = 0
                let mut row = Row::empty(msg_node("mul", node.wire));
                row.q_m = one;
                row.q_o = minus_one;
                row.cells = [Some(a[0]), Some(a[1]), Some(node.wire)];
                proof {
                    assert forall|values: Seq<F>| wire_values_ok(ir, values) implies #[trigger] honest_gate(row, values) == F::spec_zero() by {
                        let (x, y) = (values[a@[0] as int], values[a@[1] as int]);
                        let c = values[node.wire as int];
                        assert(node_relation(ir.nodes@[k as int].op, values, values[ir.nodes@[k as int].wire as int]));
                        assert(honest_row(row.cells@, values) =~= seq![x, y, c]);
                        lemma_unit_products(x);
                        lemma_unit_products(y);
                        lemma_unit_products(c);
                        lemma_basics(F::spec_zero(), F::spec_zero());
                        lemma_basics(c.spec_neg(), c);
                        lemma_basics(c, c);
                        crate::field::lemma_add_comm(c.spec_neg(), c);
                    }
                    lemma_rows_push_node(ir, rows@, row, 0);
                    assert(row.cells@ =~= seq![Some(a@[0]), Some(a@[1]), Some(node.wire)]);
                    assert(node_row(row, ir.nodes@[k as int]));
                }
                place_row(&mut wire_cells, &row, index);
                rows.push(row);
            },
            NodeOp::Neg { .. } => {
                // -a - c = 0
                let mut row = Row::empty(msg_node("neg", node.wire));
                row.q_l = minus_one;
                row.q_o = minus_one;
                row.cells = [Some(a[0]), None, Some(node.wire)];
                proof {
                    assert forall|values: Seq<F>| wire_values_ok(ir, values) implies #[trigger] honest_gate(row, values) == F::spec_zero() by {
                        let x = values[a@[0] as int];
                        let c = values[node.wire as int];
                        assert(node_relation(ir.nodes@[k as int].op, values, values[ir.nodes@[k as int].wire as int]));
                        assert(honest_row(row.cells@, values) =~= seq![x, F::spec_zero(), c]);
                        lemma_unit_products(x);
                        lemma_unit_products(c);
                        lemma_basics(F::spec_zero(), F::spec_zero());
                lemma_unit_products(F::spec_zero());
                        lemma_basics(x.spec_neg(), x);
                        lemma_basics(F::spec_zero(), F::spec_zero());
                        lemma_unit_products(F::spec_zero().spec_mul(x));
                    }
                    lemma_rows_push_node(ir, rows@, row, 0);
                    assert(row.cells@ =~= seq![Some(a@[0]), None, Some(node.wire)]);
                    assert(node_row(row, ir.nodes@[k as int]));
                }
                place_row(&mut wire_cells, &row, index);
                rows.push(row);
            },
        }
        proof {
            let ghost sub = ir.nodes@.subrange(0, k as int);
            let ghost nd = ir.nodes@[k as int];
            assert(ir.nodes@.subrange(0, k as int + 1) =~= sub.push(nd));
            lemma_arithmetic_push(sub, nd);
            if !(nd.op is Hint) {
                assert(rows@ =~= before.push(rows@[index as int]));
            }
            assert forall|v: int| 0 <= v < count implies (#[trigger] wire_cells@[v])@ == cells_holding(rows@, v as u32) by {
                if !(nd.op is Hint) {
                    lemma_cells_holding_push(before, rows@[index as int], v as u32);
                }
            }
            assert forall|v: int| 0 <= v < count implies (#[trigger] cells_holding(rows@, v as u32).len() > 0 <==> used_by_nodes(
                ir.nodes@.subrange(0, k as int + 1),
                v as u32,
            )) by {
                lemma_used_push(sub, nd, v as u32);
                if !(nd.op is Hint) {
                    lemma_cells_holding_push(before, rows@[index as int], v as u32);
                    lemma_node_row_cells(rows@[index as int], nd, index as int, v as u32);
                }
            }
            assert forall|i: int| 0 <= i < rows@.len() implies node_row(#[trigger] rows@[i], arithmetic_nodes(ir.nodes@.subrange(0, k as int + 1))[i]) by {
                if i < before.len() {
                    assert(rows@[i] == before[i]);
                }
            }
            assert forall|i: int, j: int| 0 <= i < rows@.len() && 0 <= j < 3 implies (#[trigger] rows@[i].cells@[j] matches Some(w) ==> w < count) by {
                if i < before.len() {
                    assert(before[i] == rows@[i]);
                }
            }
        }
        k = k + 1;
    }
    proof {
        assert(ir.nodes@.subrange(0, ir.nodes@.len() as int) =~= ir.nodes@);
        assert(rows@.len() == rows.len());
        lemma_recorded_of_holding(rows@, wire_cells@);
        assert forall|v: int| 0 <= v < count implies ((#[trigger] wire_cells@[v])@.len() > 0 <==> used_by_nodes(ir.nodes@, v as u32)) by {
            assert(wire_cells@[v]@ == cells_holding(rows@, v as u32));
        }
    }
    Ok(finish_plonkish(ir, rows, wire_cells, one, minus_one))
}

/// Lower with or without gate fusion. `fuse = false` is [`lower_plonkish`],
/// a row per node; `fuse = true` folds each node into the row that consumes
/// it while it fits (see [`crate::fusion`]).
pub fn lower_plonkish_with<F: ZkField>(ir: &Ir, fuse: bool) -> (r: Result<Plonkish<F>, String>)
    requires
        well_formed(ir),
    ensures
        r is Ok <==> consts_parse(ir),
        r matches Ok(circuit) ==> (if fuse {
            crate::fusion::fused_lowered(ir, circuit)
        } else {
            plonk_lowered(ir, circuit)
        }),
{
    if fuse {
        crate::fusion::lower_fused(ir)
    } else {
        lower_plonkish(ir)
    }
}

/// `format!` of a node row's origin: `std`'s formatting writes the kind,
/// the literal piece and the wire in decimal.
#[verifier::external_body]
pub(crate) fn msg_node(kind: &str, wire: u32) -> (r: String)
    ensures
        r@ == kind@ + " at wire "@ + crate::goldilocks::nat_to_decimal(wire as nat),
{
    format!("{} at wire {}", kind, wire)
}

/// The assertion rows, the bindings of public inputs no gate mentions, the
/// wiring, and the public cells, after the node rows.
fn finish_plonkish<F: ZkField>(
    ir: &Ir,
    rows: Vec<Row<F>>,
    wire_cells: Vec<Vec<Cell>>,
    one: F,
    minus_one: F,
) -> (circuit: Plonkish<F>)
    requires
        well_formed(ir),
        one == F::spec_one(),
        minus_one == F::spec_one().spec_neg(),
        wire_cells@.len() == ir.spec_wire_count(),
        cells_recorded(rows@, wire_cells@),
        rows_cells_below(rows@, ir.spec_wire_count()),
        rows_match(ir, rows@, 0),
        rows@.len() == arithmetic_nodes(ir.nodes@).len(),
        forall|i: int| 0 <= i < rows@.len() ==> node_row(#[trigger] rows@[i], arithmetic_nodes(ir.nodes@)[i]),
        forall|v: int| 0 <= v < ir.spec_wire_count() ==> ((#[trigger] wire_cells@[v])@.len() > 0 <==> used_by_nodes(ir.nodes@, v as u32)),
        forall|v: int| 0 <= v < ir.spec_wire_count() ==> (#[trigger] wire_cells@[v])@ == cells_holding(rows@, v as u32),
    ensures
        plonk_lowered(ir, circuit),
{
    let count = ir.wire_count();
    let mut rows = rows;
    let mut wire_cells = wire_cells;
    let ghost arith = arithmetic_nodes(ir.nodes@);
    let ghost n = arith.len();
    assert(ir.assertions@.subrange(0, 0) =~= Seq::<Assertion>::empty());
    let mut index: usize = 0;
    while index < ir.assertions.len()
        invariant
            well_formed(ir),
            count == ir.spec_wire_count(),
            index <= ir.assertions@.len(),
            one == F::spec_one(),
            minus_one == F::spec_one().spec_neg(),
            wire_cells@.len() == count,
            cells_recorded(rows@, wire_cells@),
            rows_cells_below(rows@, count as nat),
            rows_match(ir, rows@, index as int),
            arith == arithmetic_nodes(ir.nodes@),
            n == arith.len(),
            rows@.len() == n + index,
            forall|i: int| 0 <= i < n ==> node_row(#[trigger] rows@[i], arith[i]),
            forall|k: int| 0 <= k < index ==> assertion_row(rows@[n + k], #[trigger] ir.assertions@[k]),
            forall|v: int| 0 <= v < count ==> ((#[trigger] wire_cells@[v])@.len() > 0 <==> (used_by_nodes(ir.nodes@, v as u32)
                || used_by_assertions(ir.assertions@.subrange(0, index as int), v as u32))),
            forall|v: int| 0 <= v < count ==> (#[trigger] wire_cells@[v])@ == cells_holding(rows@, v as u32),
        decreases ir.assertions@.len() - index,
    {
        // lhs - rhs = 0. The `c` cell stays empty, and q_O is zero with it.
        let assertion = &ir.assertions[index];
        let row_index = rows.len();
        let ghost before = rows@;
        let ghost before_cells = wire_cells@;
        let mut row = Row::empty(msg_assertion(assertion.line, &assertion.label));
        row.q_l = one;
        row.q_r = minus_one;
        row.cells = [Some(assertion.lhs), Some(assertion.rhs), None];
        proof {
            assert(assertion.lhs < count && assertion.rhs < count);
            assert forall|values: Seq<F>| wire_values_ok(ir, values) implies (#[trigger] honest_gate(row, values) == F::spec_zero()
                <==> values[ir.assertions@[index as int].lhs as int] == values[ir.assertions@[index as int].rhs as int]) by {
                let (x, y) = (values[assertion.lhs as int], values[assertion.rhs as int]);
                assert(honest_row(row.cells@, values) =~= seq![x, y, F::spec_zero()]);
                lemma_unit_products(x);
                lemma_unit_products(y);
                lemma_basics(F::spec_zero(), F::spec_zero());
                lemma_unit_products(F::spec_zero());
                lemma_basics(x, y);
                lemma_basics(F::spec_zero(), F::spec_zero());
                lemma_basics(x.spec_sub(y), F::spec_zero());
                lemma_unit_products(F::spec_zero().spec_mul(x));
                lemma_sub_zero_iff(x, y);
            }
            lemma_rows_push_assertion(ir, rows@, row, index as int);
            lemma_recorded_push(rows@, row, wire_cells@);
            assert(row.cells@ =~= seq![Some(assertion.lhs), Some(assertion.rhs), None]);
            assert(assertion_row(row, ir.assertions@[index as int]));
        }
        rows.push(row);
        place(&mut wire_cells, Cell::new(row_index, Column::A), assertion.lhs);
        place(&mut wire_cells, Cell::new(row_index, Column::B), assertion.rhs);
        proof {
            let ghost sub = ir.assertions@.subrange(0, index as int);
            assert(ir.assertions@.subrange(0, index as int + 1) =~= sub.push(ir.assertions@[index as int]));
            assert forall|v: int| 0 <= v < count implies ((#[trigger] wire_cells@[v])@.len() > 0 <==> (used_by_nodes(ir.nodes@, v as u32)
                || used_by_assertions(ir.assertions@.subrange(0, index as int + 1), v as u32))) by {
                lemma_asserted_push(sub, ir.assertions@[index as int], v as u32);
            }
            assert forall|i: int| 0 <= i < n implies node_row(#[trigger] rows@[i], arith[i]) by {
                assert(rows@[i] == before[i]);
            }
            assert forall|v: int| 0 <= v < count implies (#[trigger] wire_cells@[v])@ == cells_holding(rows@, v as u32) by {
                lemma_cells_holding_push(before, rows@[row_index as int], v as u32);
                assert(rows@ =~= before.push(rows@[row_index as int]));
                assert(wire_cells@[v]@ =~= before_cells[v]@ + row_cells_holding(rows@[row_index as int], row_index as int, v as u32));
            }
            assert forall|k: int| 0 <= k < index + 1 implies assertion_row(rows@[n + k], #[trigger] ir.assertions@[k]) by {
                if k < index {
                    assert(rows@[n + k] == before[n + k]);
                }
            }
            assert forall|w: int, t: int| 0 <= w < wire_cells@.len() && 0 <= t < wire_cells@[w]@.len() implies holds_wire(rows@, #[trigger] wire_cells@[w]@[t], w as u32) by {
                assert(rows@.last().cells@.len() == 3);
            }
            assert forall|i: int, j: int| 0 <= i < rows@.len() && 0 <= j < 3 implies (#[trigger] rows@[i].cells@[j] matches Some(w) ==> w < count) by {
                if i < before.len() {
                    assert(before[i] == rows@[i]);
                }
            }
        }
        index = index + 1;
    }

    // A public input that no gate happens to mention still has to be bound to
    // a cell, or the verifier has nothing to point at. An all-zero row is
    // satisfied by any value, which is precisely what an unused input is.
    assert(ir.assertions@.subrange(0, ir.assertions@.len() as int) =~= ir.assertions@);
    assert(ir.inputs@.subrange(0, 0) =~= Seq::<Input>::empty());
    let mut i: usize = 0;
    while i < ir.inputs.len()
        invariant
            well_formed(ir),
            count == ir.spec_wire_count(),
            i <= ir.inputs@.len(),
            wire_cells@.len() == count,
            cells_recorded(rows@, wire_cells@),
            rows_cells_below(rows@, count as nat),
            rows_match(ir, rows@, ir.assertions@.len() as int),
            forall|j: int| 0 <= j < i && (#[trigger] ir.inputs@[j]).visibility.spec_is_public() ==> wire_cells@[ir.inputs@[j].wire as int]@.len() > 0,
            arith == arithmetic_nodes(ir.nodes@),
            n == arith.len(),
            rows@.len() == n + ir.assertions@.len() + unbound_publics(ir.inputs@.subrange(0, i as int), ir.nodes@, ir.assertions@).len(),
            forall|r: int| 0 <= r < n ==> node_row(#[trigger] rows@[r], arith[r]),
            forall|k: int| 0 <= k < ir.assertions@.len() ==> assertion_row(rows@[n + k], #[trigger] ir.assertions@[k]),
            forall|b: int| 0 <= b < unbound_publics(ir.inputs@.subrange(0, i as int), ir.nodes@, ir.assertions@).len() ==> binding_row(
                rows@[n + ir.assertions@.len() + b],
                #[trigger] unbound_publics(ir.inputs@.subrange(0, i as int), ir.nodes@, ir.assertions@)[b],
            ),
            forall|v: int| i < v < count ==> ((#[trigger] wire_cells@[v])@.len() > 0 <==> (used_by_nodes(ir.nodes@, v as u32)
                || used_by_assertions(ir.assertions@, v as u32))),
            forall|v: int| 0 <= v < count ==> (#[trigger] wire_cells@[v])@ == cells_holding(rows@, v as u32),
        decreases ir.inputs@.len() - i,
    {
        let input = &ir.inputs[i];
        let ghost before = rows@;
        let ghost before_cells = wire_cells@;
        let ghost sub = ir.inputs@.subrange(0, i as int);
        let ghost bound = unbound_publics(sub, ir.nodes@, ir.assertions@);
        proof {
            assert(input.wire == i + 1);
            assert(ir.inputs@.subrange(0, i as int + 1).drop_last() =~= sub);
            assert(ir.inputs@.subrange(0, i as int + 1).last() == ir.inputs@[i as int]);
        }
        if input.visibility.is_public() && wire_cells[input.wire as usize].len() == 0 {
            let row_index = rows.len();
            let mut row = Row::empty(msg_binding(&input.name));
            row.cells = [Some(input.wire), None, None];
            proof {
                assert forall|values: Seq<F>| wire_values_ok(ir, values) implies #[trigger] honest_gate(row, values) == F::spec_zero() by {
                    let x = values[input.wire as int];
                    assert(honest_row(row.cells@, values) =~= seq![x, F::spec_zero(), F::spec_zero()]);
                    lemma_unit_products(x);
                    lemma_basics(F::spec_zero(), F::spec_zero());
                lemma_unit_products(F::spec_zero());
                    lemma_basics(F::spec_zero(), F::spec_zero());
                }
                lemma_rows_push_node(ir, rows@, row, ir.assertions@.len() as int);
                lemma_recorded_push(rows@, row, wire_cells@);
                assert(row.cells@ =~= seq![Some(input.wire), None, None]);
                assert(binding_row(row, input.wire));
            }
            rows.push(row);
            place(&mut wire_cells, Cell::new(row_index, Column::A), input.wire);
            proof {
                assert forall|v: int| 0 <= v < count implies (#[trigger] wire_cells@[v])@ == cells_holding(rows@, v as u32) by {
                    lemma_cells_holding_push(before, rows@[row_index as int], v as u32);
                    assert(rows@ =~= before.push(rows@[row_index as int]));
                    assert(wire_cells@[v]@ =~= before_cells[v]@ + row_cells_holding(rows@[row_index as int], row_index as int, v as u32));
                }
                assert forall|w: int, t: int| 0 <= w < wire_cells@.len() && 0 <= t < wire_cells@[w]@.len() implies holds_wire(rows@, #[trigger] wire_cells@[w]@[t], w as u32) by {
                    assert(rows@.last().cells@.len() == 3);
                }
                assert forall|r: int, j: int| 0 <= r < rows@.len() && 0 <= j < 3 implies (#[trigger] rows@[r].cells@[j] matches Some(w) ==> w < count) by {
                    if r < before.len() {
                        assert(before[r] == rows@[r]);
                    }
                }
            }
        }
        proof {
            let ghost next = unbound_publics(ir.inputs@.subrange(0, i as int + 1), ir.nodes@, ir.assertions@);
            let m = ir.assertions@.len();
            assert(next == (if input.visibility.spec_is_public() && !used_by_nodes(ir.nodes@, input.wire) && !used_by_assertions(
                ir.assertions@,
                input.wire,
            ) {
                bound.push(input.wire)
            } else {
                bound
            }));
            assert forall|r: int| 0 <= r < n implies node_row(#[trigger] rows@[r], arith[r]) by {
                assert(rows@[r] == before[r]);
            }
            assert forall|k: int| 0 <= k < m implies assertion_row(rows@[n + k], #[trigger] ir.assertions@[k]) by {
                assert(rows@[n + k] == before[n + k]);
            }
            assert forall|b: int| 0 <= b < next.len() implies binding_row(rows@[n + m + b], #[trigger] next[b]) by {
                if b < bound.len() {
                    assert(rows@[n + m + b] == before[n + m + b]);
                    assert(next[b] == bound[b]);
                }
            }
        }
        i = i + 1;
    }

    proof {
        assert(ir.inputs@.subrange(0, ir.inputs@.len() as int) =~= ir.inputs@);
    }
    let ghost laid = rows@;
    let circuit = wire_up(ir, rows, wire_cells);
    assert(circuit.rows@ == laid);
    proof {
        assert forall|values: Seq<F>| wire_values_ok(ir, values) implies (#[trigger] circuit.spec_is_satisfied(circuit.spec_assignment(values))
            <==> assertions_hold(ir, values)) by {
            let table = circuit.spec_assignment(values);
            assert forall|k: int| 0 <= k < circuit.copies@.len() implies #[trigger] cell_value(table, circuit.copies@[k].0) == cell_value(table, circuit.copies@[k].1) by {
                let v = choose|v: u32| #[trigger] holds_wire(circuit.rows@, circuit.copies@[k].0, v) && holds_wire(circuit.rows@, circuit.copies@[k].1, v);
                assert(cell_value(table, circuit.copies@[k].0) == values[v as int]);
            }
            if gates_hold(circuit.rows@, values) {
                assert forall|r: int| 0 <= r < circuit.rows@.len() implies #[trigger] gate_value(circuit.rows@[r], table[r]) == F::spec_zero() by {
                    assert(honest_gate(circuit.rows@[r], values) == F::spec_zero());
                }
            }
            if circuit.spec_is_satisfied(table) {
                assert forall|r: int| 0 <= r < circuit.rows@.len() implies #[trigger] honest_gate(circuit.rows@[r], values) == F::spec_zero() by {
                    assert(gate_value(circuit.rows@[r], table[r]) == F::spec_zero());
                }
            }
        }
        assert forall|k: int| 0 <= k < circuit.copies@.len() implies (#[trigger] circuit.copies@[k]).0.row < circuit.rows@.len() && circuit.copies@[k].1.row < circuit.rows@.len() by {
            let v = choose|v: u32| #[trigger] holds_wire(circuit.rows@, circuit.copies@[k].0, v) && holds_wire(circuit.rows@, circuit.copies@[k].1, v);
        }
    }
    circuit
}

/// Wire a finished table: chain the cells of each wire in table order, and
/// bind each public input to the first cell holding it.
pub(crate) fn wire_up<F: ZkField>(ir: &Ir, rows: Vec<Row<F>>, wire_cells: Vec<Vec<Cell>>) -> (circuit: Plonkish<F>)
    requires
        well_formed(ir),
        wire_cells@.len() == ir.spec_wire_count(),
        rows_cells_below(rows@, ir.spec_wire_count()),
        forall|v: int| 0 <= v < ir.spec_wire_count() ==> (#[trigger] wire_cells@[v])@ == cells_holding(rows@, v as u32),
        forall|j: int| 0 <= j < ir.inputs@.len() && (#[trigger] ir.inputs@[j]).visibility.spec_is_public() ==> wire_cells@[ir.inputs@[j].wire as int]@.len() > 0,
    ensures
        circuit.rows@ == rows@,
        circuit.cells_below(ir.spec_wire_count()),
        circuit.copies_within(circuit.rows@.len()),
        forall|k: int| 0 <= k < circuit.copies@.len() ==> one_wire(circuit.rows@, #[trigger] circuit.copies@[k]),
        circuit.public_cells@.len() == public_wires(ir.inputs@).len(),
        forall|k: int| 0 <= k < circuit.public_cells@.len() ==> {
            &&& (#[trigger] circuit.public_cells@[k]).0 == public_wires(ir.inputs@)[k]
            &&& holds_wire(circuit.rows@, circuit.public_cells@[k].1, circuit.public_cells@[k].0)
            &&& circuit.public_cells@[k].1 == cells_holding(circuit.rows@, circuit.public_cells@[k].0)[0]
        },
        circuit.copies@ == wiring(circuit.rows@, ir.spec_wire_count()),
{
    let count = ir.wire_count();
    let ghost laid = rows@;
    proof {
        assert(rows@.len() == rows.len());
        lemma_recorded_of_holding(rows@, wire_cells@);
    }
    // Assert the wiring: every cell holding a given wire must agree with the
    // next. Chaining is enough — equality is transitive, and a chain costs
    // n-1 copies where relating every pair would cost n²/2.
    let mut copies: Vec<(Cell, Cell)> = Vec::new();
    let mut w: usize = 0;
    while w < count
        invariant
            count == ir.spec_wire_count(),
            w <= count,
            wire_cells@.len() == count,
            cells_recorded(rows@, wire_cells@),
            forall|k: int| 0 <= k < copies@.len() ==> one_wire(rows@, #[trigger] copies@[k]),
            rows@ == laid,
            forall|v: int| 0 <= v < count ==> (#[trigger] wire_cells@[v])@ == cells_holding(rows@, v as u32),
            copies@ == wiring(rows@, w as nat),
        decreases count - w,
    {
        let cells = &wire_cells[w];
        let ghost start = copies@;
        let pairs: usize = if cells.len() == 0 { 0 } else { cells.len() - 1 };
        let mut t: usize = 0;
        while t < pairs
            invariant
                pairs + 1 <= cells@.len() || pairs == 0,
                t <= pairs,
                count == ir.spec_wire_count(),
                w < count,
                wire_cells@.len() == count,
                *cells == wire_cells@[w as int],
                cells_recorded(rows@, wire_cells@),
                forall|k: int| 0 <= k < copies@.len() ==> one_wire(rows@, #[trigger] copies@[k]),
                pairs == chain(cells@).len(),
                copies@ == start + chain(cells@).subrange(0, t as int),
            decreases pairs - t,
        {
            proof {
                assert(holds_wire(rows@, wire_cells@[w as int]@[t as int], w as u32));
                assert(holds_wire(rows@, wire_cells@[w as int]@[t as int + 1], w as u32));
            }
            copies.push((cells[t], cells[t + 1]));
            proof {
                assert(holds_wire(rows@, copies@.last().0, w as u32));
                assert(chain(cells@)[t as int] == (cells@[t as int], cells@[t as int + 1]));
                assert(chain(cells@).subrange(0, t as int + 1) =~= chain(cells@).subrange(0, t as int).push(chain(cells@)[t as int]));
            }
            t = t + 1;
        }
        proof {
            assert(chain(cells@).subrange(0, pairs as int) =~= chain(cells@));
            assert(cells@ == cells_holding(rows@, w as u32));
        }
        w = w + 1;
    }

    let mut public_cells: Vec<(u32, Cell)> = Vec::new();
    let mut i: usize = 0;
    while i < ir.inputs.len()
        invariant
            well_formed(ir),
            count == ir.spec_wire_count(),
            i <= ir.inputs@.len(),
            wire_cells@.len() == count,
            cells_recorded(rows@, wire_cells@),
            forall|j: int| 0 <= j < ir.inputs@.len() && (#[trigger] ir.inputs@[j]).visibility.spec_is_public() ==> wire_cells@[ir.inputs@[j].wire as int]@.len() > 0,
            public_cells@.len() == public_wires(ir.inputs@.subrange(0, i as int)).len(),
            rows@ == laid,
            forall|v: int| 0 <= v < count ==> (#[trigger] wire_cells@[v])@ == cells_holding(rows@, v as u32),
            forall|k: int| 0 <= k < public_cells@.len() ==> {
                &&& (#[trigger] public_cells@[k]).0 == public_wires(ir.inputs@.subrange(0, i as int))[k]
                &&& holds_wire(rows@, public_cells@[k].1, public_cells@[k].0)
                &&& public_cells@[k].1 == cells_holding(rows@, public_cells@[k].0)[0]
            },
        decreases ir.inputs@.len() - i,
    {
        let input = &ir.inputs[i];
        let ghost prefix = ir.inputs@.subrange(0, i as int);
        let ghost next = ir.inputs@.subrange(0, i as int + 1);
        assert(next.drop_last() =~= prefix);
        proof {
            assert(input.wire == i + 1);
        }
        if input.visibility.is_public() {
            let cell = wire_cells[input.wire as usize][0];
            proof {
                assert(holds_wire(rows@, wire_cells@[input.wire as int]@[0], input.wire));
                assert(wire_cells@[input.wire as int]@ == cells_holding(rows@, input.wire));
            }
            public_cells.push((input.wire, cell));
        }
        i = i + 1;
    }
    assert(ir.inputs@.subrange(0, ir.inputs@.len() as int) =~= ir.inputs@);

    let circuit = Plonkish { rows, copies, public_cells };
    proof {
        assert forall|k: int| 0 <= k < circuit.copies@.len() implies (#[trigger] circuit.copies@[k]).0.row < circuit.rows@.len() && circuit.copies@[k].1.row < circuit.rows@.len() by {
            let v = choose|v: u32| #[trigger] holds_wire(circuit.rows@, circuit.copies@[k].0, v) && holds_wire(circuit.rows@, circuit.copies@[k].1, v);
        }
    }
    circuit
}

/// The wiring never objects to an honest table: where every copy constraint
/// joins two cells of one wire, filling each cell with its wire's value breaks
/// none of them, whatever the values.
pub proof fn law_honest_table_breaks_no_copy<F: ZkField>(circuit: Plonkish<F>, values: Seq<F>)
    requires
        forall|k: int| 0 <= k < circuit.copies@.len() ==> one_wire(circuit.rows@, #[trigger] circuit.copies@[k]),
    ensures
        failing_copies(circuit.copies@, circuit.spec_assignment(values)).len() == 0,
{
    let table = circuit.spec_assignment(values);
    lemma_failing_copies_bounds(circuit.copies@, table);
    assert forall|k: int| 0 <= k < circuit.copies@.len() implies #[trigger] cell_value(table, circuit.copies@[k].0) == cell_value(
        table,
        circuit.copies@[k].1,
    ) by {
        let v = choose|v: u32| #[trigger] holds_wire(circuit.rows@, circuit.copies@[k].0, v) && holds_wire(circuit.rows@, circuit.copies@[k].1, v);
        assert(cell_value(table, circuit.copies@[k].0) == values[v as int]);
    }
}

/// `format!` of an assertion's origin, `line N: label`: `std`'s formatting
/// writes the literal pieces, the line in decimal and the label itself.
#[verifier::external_body]
pub(crate) fn msg_assertion(line: u32, label: &String) -> (r: String)
    ensures
        r@ == "line "@ + crate::goldilocks::nat_to_decimal(line as nat) + ": "@ + label@,
{
    format!("line {}: {}", line, label)
}

/// `format!` of a binding row's origin: `std`'s formatting writes the
/// literal pieces and the name.
#[verifier::external_body]
pub(crate) fn msg_binding(name: &String) -> (r: String)
    ensures
        r@ == binding_origin(name@),
{
    format!("binding for public input '{}'", name)
}

/// The two arithmetizations agree: on lawful wire values, an R1CS lowering
/// (fused or not) accepts the induced assignment exactly when the Plonkish
/// lowering accepts its table — both exactly when the IR's assertions hold.
pub proof fn law_lowerings_agree<F: ZkField>(
    ir: &Ir,
    fuse: bool,
    cs: crate::r1cs::R1cs<F>,
    circuit: Plonkish<F>,
    values: Seq<F>,
)
    requires
        lowered(ir, fuse, cs),
        plonk_lowered(ir, circuit),
        wire_values_ok(ir, values),
    ensures
        cs.spec_is_satisfied(cs.spec_assignment(values)) <==> circuit.spec_is_satisfied(
            circuit.spec_assignment(values),
        ),
        circuit.spec_is_satisfied(circuit.spec_assignment(values)) <==> assertions_hold(ir, values),
{
}

} // verus!
