//! Arithmetization cost: the same IR lowered two ways, the two bills side by
//! side.
//!
//! The neutral IR earns its keep here: the same graph is lowered to R1CS and
//! to Plonkish and the counts are put next to each other. Nothing about this
//! is a preference — it is a measurement, answering "which arithmetization is
//! cheaper for *this* circuit" with a number.
use vstd::prelude::*;

use crate::field::ZkField;
use crate::goldilocks::nat_to_decimal;
use vstd::string::StringExecFns;
use crate::ir::{Input, Ir, Node, NodeOp};
use crate::witness::well_formed;
use crate::lower::{consts_parse, input_vars, lower, lower_with, mul_constraints, node_vars};
use crate::fusion::{fused_gates, fused_lowered, lemma_fused_layout_field_free};
use crate::plonkish::{
    arithmetic_nodes, lemma_wiring_same, lower_plonkish, lower_plonkish_with, plonk_lowered, unbound_publics, Plonkish,
};

verus! {

/// The cost of one arithmetization, fused and unfused, plus the structural
/// counts the two share.
pub struct Report {
    pub name: String,
    pub field: String,
    // Shared IR shape.
    pub inputs: usize,
    pub public_inputs: usize,
    pub nodes: usize,
    pub multiplications: usize,
    pub hints: usize,
    pub assertions: usize,
    // R1CS.
    pub r1cs_constraints_unfused: usize,
    pub r1cs_constraints: usize,
    pub r1cs_variables: usize,
    // Plonkish.
    pub plonkish_rows_unfused: usize,
    pub plonkish_rows: usize,
    pub plonkish_copies: usize,
    pub plonkish_columns: usize,
}

/// How many inputs are verifier-visible.
pub open spec fn count_public(inputs: Seq<Input>) -> nat
    decreases inputs.len(),
{
    if inputs.len() == 0 {
        0
    } else {
        count_public(inputs.drop_last()) + if inputs.last().visibility.spec_is_public() {
            1nat
        } else {
            0nat
        }
    }
}

/// How many nodes are multiplications.
pub open spec fn count_muls(nodes: Seq<Node>) -> nat
    decreases nodes.len(),
{
    if nodes.len() == 0 {
        0
    } else {
        count_muls(nodes.drop_last()) + if nodes.last().op is Mul {
            1nat
        } else {
            0nat
        }
    }
}

/// How many nodes are hints.
pub open spec fn count_hints(nodes: Seq<Node>) -> nat
    decreases nodes.len(),
{
    if nodes.len() == 0 {
        0
    } else {
        count_hints(nodes.drop_last()) + if nodes.last().op is Hint {
            1nat
        } else {
            0nat
        }
    }
}

/// A report of `ir`: its shape, both R1CS lowerings' constraint and variable
/// counts, the unfused Plonkish row count (one per arithmetic node, one per
/// assertion, one per public input no other row mentions), and the row and
/// copy counts of the fused Plonkish lowering.
pub open spec fn measured<F: ZkField>(ir: &Ir, report: Report) -> bool {
    &&& report.name@ == ir.name@
    &&& report.field@ == ir.field@
    &&& report.inputs == ir.inputs@.len()
    &&& report.public_inputs == count_public(ir.inputs@)
    &&& report.nodes == ir.nodes@.len()
    &&& report.multiplications == count_muls(ir.nodes@)
    &&& report.hints == count_hints(ir.nodes@)
    &&& report.assertions == ir.assertions@.len()
    &&& report.r1cs_constraints_unfused == mul_constraints(ir, false, ir.nodes@.len()) + ir.assertions@.len()
    &&& report.r1cs_constraints == mul_constraints(ir, true, ir.nodes@.len()) + ir.assertions@.len()
    &&& report.r1cs_variables == input_vars(ir).len() + node_vars(ir, true, ir.nodes@.len()).len()
    &&& report.plonkish_columns == 8
    &&& report.plonkish_rows_unfused == arithmetic_nodes(ir.nodes@).len() + ir.assertions@.len() + unbound_publics(
        ir.inputs@,
        ir.nodes@,
        ir.assertions@,
    ).len()
    &&& report.plonkish_rows == fused_gates::<F>(ir).len()
    &&& exists|circuit: Plonkish<F>| #[trigger] fused_lowered(ir, circuit) && report.plonkish_copies == circuit.copies@.len()
}

fn count_public_inputs(inputs: &Vec<Input>) -> (r: usize)
    ensures
        r == count_public(inputs@),
{
    let mut count: usize = 0;
    let mut i: usize = 0;
    while i < inputs.len()
        invariant
            i <= inputs@.len(),
            count <= i,
            count == count_public(inputs@.subrange(0, i as int)),
        decreases inputs@.len() - i,
    {
        let ghost before = inputs@.subrange(0, i as int);
        assert(inputs@.subrange(0, i as int + 1).drop_last() =~= before);
        if inputs[i].visibility.is_public() {
            count = count + 1;
        }
        i = i + 1;
    }
    assert(inputs@.subrange(0, inputs@.len() as int) =~= inputs@);
    count
}

fn count_ops(nodes: &Vec<Node>) -> (r: (usize, usize))
    ensures
        r.0 == count_muls(nodes@),
        r.1 == count_hints(nodes@),
{
    let mut muls: usize = 0;
    let mut hints: usize = 0;
    let mut i: usize = 0;
    while i < nodes.len()
        invariant
            i <= nodes@.len(),
            muls <= i,
            hints <= i,
            muls == count_muls(nodes@.subrange(0, i as int)),
            hints == count_hints(nodes@.subrange(0, i as int)),
        decreases nodes@.len() - i,
    {
        let ghost before = nodes@.subrange(0, i as int);
        assert(nodes@.subrange(0, i as int + 1).drop_last() =~= before);
        match &nodes[i].op {
            NodeOp::Mul { .. } => {
                muls = muls + 1;
            },
            NodeOp::Hint { .. } => {
                hints = hints + 1;
            },
            _ => {},
        }
        i = i + 1;
    }
    assert(nodes@.subrange(0, nodes@.len() as int) =~= nodes@);
    (muls, hints)
}

/// Measure both arithmetizations of an IR over the field `F`.
///
/// Lowering needs a concrete field even to count — a `const` node turns its
/// decimal into a field element — but the counts themselves do not depend on
/// which field. Each arithmetization is measured fused and unfused, so the
/// saving fusion buys is a real difference of two counts.
pub fn measure<F: ZkField>(ir: &Ir) -> (r: Result<Report, String>)
    requires
        well_formed(ir),
        ir.assertions@.len() * 2 <= usize::MAX,
    ensures
        r is Ok <==> consts_parse(ir),
        r matches Ok(report) ==> measured::<F>(ir, report),
{
    let r1cs_unfused = match lower_with::<F>(ir, false) {
        Ok(cs) => cs,
        Err(e) => {
            return Err(e);
        },
    };
    let r1cs = match lower::<F>(ir) {
        Ok(cs) => cs,
        Err(e) => {
            return Err(e);
        },
    };
    let plonk_unfused = match lower_plonkish_with::<F>(ir, false) {
        Ok(circuit) => circuit,
        Err(e) => {
            return Err(e);
        },
    };
    let plonk = match lower_plonkish_with::<F>(ir, true) {
        Ok(circuit) => circuit,
        Err(e) => {
            return Err(e);
        },
    };
    let (multiplications, hints) = count_ops(&ir.nodes);
    let public_inputs = count_public_inputs(&ir.inputs);
    let rows_unfused = plonk_unfused.num_rows();
    let rows = plonk.num_rows();
    let report = Report {
        name: ir.name.clone(),
        field: ir.field.clone(),
        inputs: ir.inputs.len(),
        public_inputs,
        nodes: ir.nodes.len(),
        multiplications,
        hints,
        assertions: ir.assertions.len(),
        r1cs_constraints_unfused: r1cs_unfused.constraints.len(),
        r1cs_constraints: r1cs.constraints.len(),
        r1cs_variables: r1cs.num_vars,
        plonkish_rows_unfused: rows_unfused,
        plonkish_rows: rows,
        plonkish_copies: plonk.copies.len(),
        plonkish_columns: plonk.num_columns(),
    };
    proof {
        assert(plonk_lowered(ir, plonk_unfused));
        assert(fused_lowered(ir, plonk));
    }
    Ok(report)
}

/// The counts are a property of the circuit, not of the field: measuring
/// one IR over two fields reports the same numbers.
pub proof fn law_counts_do_not_depend_on_the_field<F: ZkField, G: ZkField>(ir: &Ir, over_f: Report, over_g: Report)
    requires
        well_formed(ir),
        measured::<F>(ir, over_f),
        measured::<G>(ir, over_g),
    ensures
        over_f.inputs == over_g.inputs,
        over_f.public_inputs == over_g.public_inputs,
        over_f.nodes == over_g.nodes,
        over_f.multiplications == over_g.multiplications,
        over_f.hints == over_g.hints,
        over_f.assertions == over_g.assertions,
        over_f.r1cs_constraints_unfused == over_g.r1cs_constraints_unfused,
        over_f.r1cs_constraints == over_g.r1cs_constraints,
        over_f.r1cs_variables == over_g.r1cs_variables,
        over_f.plonkish_rows_unfused == over_g.plonkish_rows_unfused,
        over_f.plonkish_rows == over_g.plonkish_rows,
        over_f.plonkish_copies == over_g.plonkish_copies,
        over_f.plonkish_columns == over_g.plonkish_columns,
{
    let cf = choose|circuit: Plonkish<F>| #[trigger] fused_lowered(ir, circuit) && over_f.plonkish_copies
        == circuit.copies@.len();
    let cg = choose|circuit: Plonkish<G>| #[trigger] fused_lowered(ir, circuit) && over_g.plonkish_copies
        == circuit.copies@.len();
    lemma_fused_layout_field_free::<F, G>(ir);
    assert forall|i: int| 0 <= i < cf.rows@.len() implies (#[trigger] cf.rows@[i]).cells@ == cg.rows@[i].cells@ by {
        assert(crate::fusion::row_matches(cf.rows@[i], fused_gates::<F>(ir)[i]));
        assert(crate::fusion::row_matches(cg.rows@[i], fused_gates::<G>(ir)[i]));
    }
    lemma_wiring_same(cf.rows@, cg.rows@, ir.spec_wire_count());
}

/// Which arithmetization a pair of counts favours.
pub open spec fn spec_cheaper(r1cs_constraints: nat, plonkish_rows: nat) -> Cheaper {
    if r1cs_constraints < plonkish_rows {
        Cheaper::R1cs
    } else if r1cs_constraints > plonkish_rows {
        Cheaper::Plonkish
    } else {
        Cheaper::Tie
    }
}

/// The verdict follows the comparison: R1CS is cheaper exactly when it has
/// fewer constraints than Plonkish has rows, Plonkish exactly when it has
/// fewer rows, and they tie exactly when the counts are equal.
pub proof fn law_cheaper_follows_the_counts(r1cs_constraints: nat, plonkish_rows: nat)
    ensures
        spec_cheaper(r1cs_constraints, plonkish_rows) is R1cs <==> r1cs_constraints < plonkish_rows,
        spec_cheaper(r1cs_constraints, plonkish_rows) is Plonkish <==> plonkish_rows < r1cs_constraints,
        spec_cheaper(r1cs_constraints, plonkish_rows) is Tie <==> r1cs_constraints == plonkish_rows,
{
}

impl Report {
    /// Which arithmetization is cheaper on this circuit, if either.
    ///
    /// The whole point of the neutral IR is that this is a genuine question
    /// with a per-circuit answer, not a fixed property of the compiler.
    pub fn cheaper(&self) -> (r: Cheaper)
        ensures
            r == spec_cheaper(self.r1cs_constraints as nat, self.plonkish_rows as nat),
            r is R1cs <==> self.r1cs_constraints < self.plonkish_rows,
            r is Plonkish <==> self.r1cs_constraints > self.plonkish_rows,
            r is Tie <==> self.r1cs_constraints == self.plonkish_rows,
    {
        if self.r1cs_constraints < self.plonkish_rows {
            Cheaper::R1cs
        } else if self.r1cs_constraints > self.plonkish_rows {
            Cheaper::Plonkish
        } else {
            Cheaper::Tie
        }
    }

    /// A machine-readable line, for diffing across runs or against Circom.
    pub fn render_json(&self) -> (r: String)
        ensures
            r@ == report_json(*self),
    {
        let verdict = self.cheaper();
        let mut out = String::from_str("{\"name\":\"");
        out.append(self.name.as_str());
        out.append("\",\"field\":\"");
        out.append(self.field.as_str());
        out.append("\",\"inputs\":");
        out.append(decimal(self.inputs).as_str());
        out.append(",\"public_inputs\":");
        out.append(decimal(self.public_inputs).as_str());
        out.append(",\"nodes\":");
        out.append(decimal(self.nodes).as_str());
        out.append(",\"multiplications\":");
        out.append(decimal(self.multiplications).as_str());
        out.append(",\"hints\":");
        out.append(decimal(self.hints).as_str());
        out.append(",\"assertions\":");
        out.append(decimal(self.assertions).as_str());
        out.append(",\"r1cs\":{\"constraints\":");
        out.append(decimal(self.r1cs_constraints).as_str());
        out.append(",\"constraints_unfused\":");
        out.append(decimal(self.r1cs_constraints_unfused).as_str());
        out.append(",\"variables\":");
        out.append(decimal(self.r1cs_variables).as_str());
        out.append("},\"plonkish\":{\"rows\":");
        out.append(decimal(self.plonkish_rows).as_str());
        out.append(",\"rows_unfused\":");
        out.append(decimal(self.plonkish_rows_unfused).as_str());
        out.append(",\"copies\":");
        out.append(decimal(self.plonkish_copies).as_str());
        out.append(",\"columns\":");
        out.append(decimal(self.plonkish_columns).as_str());
        out.append("},\"cheaper\":\"");
        out.append(verdict.tag());
        out.append("\"}");
        out
    }
}

/// The report as one JSON object: its name and field, every count in
/// decimal, and the tag of the cheaper arithmetization.
pub open spec fn report_json(report: Report) -> Seq<char> {
    "{\"name\":\""@ + report.name@ + "\",\"field\":\""@ + report.field@ + "\",\"inputs\":"@ + nat_to_decimal(
        report.inputs as nat,
    ) + ",\"public_inputs\":"@ + nat_to_decimal(report.public_inputs as nat) + ",\"nodes\":"@ + nat_to_decimal(
        report.nodes as nat,
    ) + ",\"multiplications\":"@ + nat_to_decimal(report.multiplications as nat) + ",\"hints\":"@ + nat_to_decimal(
        report.hints as nat,
    ) + ",\"assertions\":"@ + nat_to_decimal(report.assertions as nat) + ",\"r1cs\":{\"constraints\":"@
        + nat_to_decimal(report.r1cs_constraints as nat) + ",\"constraints_unfused\":"@ + nat_to_decimal(
        report.r1cs_constraints_unfused as nat,
    ) + ",\"variables\":"@ + nat_to_decimal(report.r1cs_variables as nat) + "},\"plonkish\":{\"rows\":"@
        + nat_to_decimal(report.plonkish_rows as nat) + ",\"rows_unfused\":"@ + nat_to_decimal(
        report.plonkish_rows_unfused as nat,
    ) + ",\"copies\":"@ + nat_to_decimal(report.plonkish_copies as nat) + ",\"columns\":"@ + nat_to_decimal(
        report.plonkish_columns as nat,
    ) + "},\"cheaper\":\""@ + cheaper_tag(
        spec_cheaper(report.r1cs_constraints as nat, report.plonkish_rows as nat),
    ) + "\"}"@
}

/// The standard library's decimal rendering (`Display`) of a `usize`: its
/// digits, most significant first, with no sign or padding.
#[verifier::external_body]
fn decimal(value: usize) -> (r: String)
    ensures
        r@ == nat_to_decimal(value as nat),
{
    value.to_string()
}

/// The tag naming each outcome in JSON.
pub open spec fn cheaper_tag(c: Cheaper) -> Seq<char> {
    match c {
        Cheaper::R1cs => "r1cs"@,
        Cheaper::Plonkish => "plonkish"@,
        Cheaper::Tie => "tie"@,
    }
}

#[derive(Debug, Clone, Copy, PartialEq, Eq, Structural)]
pub enum Cheaper {
    R1cs,
    Plonkish,
    Tie,
}

impl Cheaper {
    pub fn tag(self) -> (r: &'static str)
        ensures
            r@ == cheaper_tag(self),
    {
        match self {
            Cheaper::R1cs => "r1cs",
            Cheaper::Plonkish => "plonkish",
            Cheaper::Tie => "tie",
        }
    }

    pub fn describe(self) -> (r: &'static str)
        ensures
            r@ == (match self {
                Cheaper::R1cs => "R1CS (fewer constraints than Plonkish rows)"@,
                Cheaper::Plonkish => "Plonkish (fewer rows than R1CS constraints)"@,
                Cheaper::Tie => "tie (equal cost)"@,
            }),
    {
        match self {
            Cheaper::R1cs => "R1CS (fewer constraints than Plonkish rows)",
            Cheaper::Plonkish => "Plonkish (fewer rows than R1CS constraints)",
            Cheaper::Tie => "tie (equal cost)",
        }
    }
}

/// One source line's share of the cost, in the unfused arithmetization
/// where every constraint and row maps 1:1 to the construct that produced it.
#[derive(Debug, Clone, PartialEq, Eq, Structural)]
pub struct LineCost {
    pub line: u32,
    pub r1cs: usize,
    pub plonkish: usize,
}

/// A circuit's cost attributed to its source lines, ranked by weight.
pub struct Profile {
    pub name: String,
    pub field: String,
    /// Per line, heaviest first (R1CS + Plonkish), ties broken by line.
    pub lines: Vec<LineCost>,
    /// Totals — equal to the *unfused* counts. Reproducing them by summing the
    /// per-line costs is the invariant the attribution must preserve.
    pub r1cs_total: usize,
    pub plonkish_total: usize,
}

impl Profile {
    /// The line carrying the most total cost, if any.
    pub fn hottest(&self) -> (r: Option<&LineCost>)
        ensures
            r == (if self.lines@.len() > 0 {
                Some(&self.lines@[0])
            } else {
                None
            }),
    {
        if self.lines.len() > 0 {
            Some(&self.lines[0])
        } else {
            None
        }
    }
}

} // verus!
