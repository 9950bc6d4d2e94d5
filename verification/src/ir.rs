//! The Core IR and its validation.
//!
//! This is the Haskell/Rust boundary. The format is versioned and its
//! invariants are checked here rather than assumed: a backend that trusts its
//! frontend blindly turns frontend bugs into miscompiled circuits, and in this
//! domain a miscompiled circuit is a security hole. Parsing the JSON text into
//! these types is the caller's step; [`Ir::validate`] is the check every IR
//! passes before it is solved or lowered.
use vstd::prelude::*;

use crate::goldilocks::nat_to_decimal;

verus! {

/// The IR schema version this backend speaks.
pub const SUPPORTED_SCHEMA_VERSION: u32 = 2;

#[derive(Debug, Clone, Copy, PartialEq, Eq, Structural)]
pub enum Visibility {
    Private,
    /// A verifier-visible *input*. The prover supplies it; nothing requires
    /// it to be determined by anything else.
    Public,
    /// A verifier-visible value the circuit *computes*. The frontend has
    /// proved it is a function of the inputs — see [`Determinacy`].
    Output,
}

impl Visibility {
    pub open spec fn spec_is_public(self) -> bool {
        self is Public || self is Output
    }

    /// Both `Public` and `Output` end up in the verifier's public input
    /// vector; they differ only in the proof obligation the frontend
    /// discharged.
    pub fn is_public(self) -> (r: bool)
        ensures
            r == self.spec_is_public(),
    {
        match self {
            Visibility::Public | Visibility::Output => true,
            Visibility::Private => false,
        }
    }
}

#[derive(Debug, Clone)]
pub struct Input {
    pub wire: u32,
    pub name: String,
    pub visibility: Visibility,
    pub line: u32,
}

#[derive(Debug, Clone, Copy, PartialEq, Eq, Structural)]
pub enum HintKind {
    InvOrZero,
    Inv,
}

#[derive(Debug, Clone)]
pub enum NodeOp {
    Const { value: String },
    Add { args: Vec<u32> },
    Sub { args: Vec<u32> },
    Mul { args: Vec<u32> },
    Neg { args: Vec<u32> },
    Hint {
        hint: HintKind,
        name: String,
        /// Which `gadget` block the advice was quarantined in.
        gadget: String,
        line: u32,
        args: Vec<u32>,
    },
}

impl NodeOp {
    /// The argument wires of a node.
    pub open spec fn spec_args(&self) -> Seq<u32> {
        match self {
            NodeOp::Const { .. } => Seq::empty(),
            NodeOp::Add { args } => args@,
            NodeOp::Sub { args } => args@,
            NodeOp::Mul { args } => args@,
            NodeOp::Neg { args } => args@,
            NodeOp::Hint { args, .. } => args@,
        }
    }

    /// How many arguments a node of this kind takes.
    pub open spec fn spec_arity(&self) -> nat {
        match self {
            NodeOp::Const { .. } => 0,
            NodeOp::Neg { .. } => 1,
            NodeOp::Hint { .. } => 1,
            NodeOp::Add { .. } => 2,
            NodeOp::Sub { .. } => 2,
            NodeOp::Mul { .. } => 2,
        }
    }

    pub fn args(&self) -> (r: &[u32])
        ensures
            r@ == self.spec_args(),
    {
        match self {
            NodeOp::Const { .. } => {
                let none: &[u32] = &[];
                assert(none@ =~= Seq::<u32>::empty());
                none
            },
            NodeOp::Add { args } => args.as_slice(),
            NodeOp::Sub { args } => args.as_slice(),
            NodeOp::Mul { args } => args.as_slice(),
            NodeOp::Neg { args } => args.as_slice(),
            NodeOp::Hint { args, .. } => args.as_slice(),
        }
    }

    pub fn expected_arity(&self) -> (r: usize)
        ensures
            r == self.spec_arity(),
    {
        match self {
            NodeOp::Const { .. } => 0,
            NodeOp::Neg { .. } | NodeOp::Hint { .. } => 1,
            NodeOp::Add { .. } | NodeOp::Sub { .. } | NodeOp::Mul { .. } => 2,
        }
    }
}

#[derive(Debug, Clone)]
pub struct Node {
    pub wire: u32,
    /// Whether this wire's value depends, transitively, on a hint: the
    /// frontend's syntactic taint, not a soundness verdict.
    pub advice_derived: bool,
    pub op: NodeOp,
}

/// The frontend's determinacy proof, carried inside the artifact. A
/// hand-written or tampered IR cannot skip the check by omitting the record:
/// `proved` defaults to false.
#[derive(Debug, Clone)]
pub struct Determinacy {
    pub proved: bool,
    pub targets: Vec<String>,
    /// The case splits the proof rested on, rendered for humans.
    pub branches: Vec<Vec<String>>,
}

#[derive(Debug, Clone)]
pub struct Assertion {
    pub lhs: u32,
    pub rhs: u32,
    pub label: String,
    pub line: u32,
}

#[derive(Debug, Clone)]
pub struct Ir {
    pub schema_version: u32,
    pub name: String,
    pub field: String,
    pub const_one_wire: u32,
    pub inputs: Vec<Input>,
    pub nodes: Vec<Node>,
    pub assertions: Vec<Assertion>,
    pub determinacy: Determinacy,
}

/// The message refusing an unsupported schema version.
pub open spec fn schema_text(found: u32) -> Seq<char> {
    "unsupported IR schema version "@ + nat_to_decimal(found as nat) + " (this backend speaks "@ + nat_to_decimal(
        SUPPORTED_SCHEMA_VERSION as nat,
    ) + ")"@
}

/// The message refusing outputs without a discharged determinacy proof.
pub open spec fn undischarged_text(name: Seq<char>) -> Seq<char> {
    "circuit '"@ + name + "' declares outputs but carries no discharged determinacy proof; refusing to prove it (recompile with a frontend that proves determinacy)"@
}

/// The message for an input on the wrong wire.
pub open spec fn input_wire_text(name: Seq<char>, wire: u32, expected: u32) -> Seq<char> {
    "input '"@ + name + "' has wire "@ + nat_to_decimal(wire as nat) + " but inputs must occupy wires 1..=n in order (expected "@
        + nat_to_decimal(expected as nat) + ")"@
}

/// The message for a node on the wrong wire.
pub open spec fn node_wire_text(index: usize, wire: u32, expected: u32) -> Seq<char> {
    "node "@ + nat_to_decimal(index as nat) + " has wire "@ + nat_to_decimal(wire as nat)
        + " but nodes must be dense and ordered (expected "@ + nat_to_decimal(expected as nat) + ")"@
}

/// The message for a node with the wrong number of arguments.
pub open spec fn arity_text(wire: u32, found: usize, expected: usize) -> Seq<char> {
    "node at wire "@ + nat_to_decimal(wire as nat) + " has "@ + nat_to_decimal(found as nat) + " arguments, expected "@
        + nat_to_decimal(expected as nat)
}

/// The message for a node reading a wire that is not strictly earlier.
pub open spec fn forward_text(wire: u32, arg: u32) -> Seq<char> {
    "node at wire "@ + nat_to_decimal(wire as nat) + " references wire "@ + nat_to_decimal(arg as nat)
        + ", which is not strictly earlier (the IR must be topologically ordered)"@
}

/// The message for an assertion on a wire that does not exist.
pub open spec fn unknown_wire_text(line: u32, wire: u32) -> Seq<char> {
    "assertion on line "@ + nat_to_decimal(line as nat) + " references unknown wire "@ + nat_to_decimal(wire as nat)
}

/// The message for a repeated input name.
pub open spec fn duplicate_text(name: Seq<char>) -> Seq<char> {
    "duplicate input name '"@ + name + "'"@
}

/// What is wrong with node `i`, checked in order: its wire, its arity, then
/// its arguments from the left.
pub open spec fn node_error(ir: Ir, i: int) -> Option<Seq<char>> {
    let node = ir.nodes@[i];
    let expected = (ir.inputs@.len() + 1 + i) as u32;
    let args = node.op.spec_args();
    if node.wire != expected {
        Some(node_wire_text(i as usize, node.wire, expected))
    } else if args.len() != node.op.spec_arity() {
        Some(arity_text(node.wire, args.len() as usize, node.op.spec_arity() as usize))
    } else if exists|j: int| 0 <= j < args.len() && #[trigger] args[j] >= node.wire {
        let j = choose|j: int| 0 <= j < args.len() && args[j] >= node.wire && forall|m: int| 0 <= m < j ==> #[trigger] args[m] < node.wire;
        Some(forward_text(node.wire, args[j]))
    } else {
        None
    }
}

/// Input `i` repeats the name of an earlier input.
pub open spec fn repeats_name(ir: Ir, i: int) -> bool {
    exists|a: int| 0 <= a < i && #[trigger] ir.inputs@[a].name@ == ir.inputs@[i].name@
}

/// The first input on the wrong wire, if any.
#[verifier::opaque]
pub open spec fn input_error(ir: Ir) -> Option<Seq<char>> {
    if exists|i: int| 0 <= i < ir.inputs@.len() && #[trigger] ir.inputs@[i].wire != i + 1 {
        let i = choose|i: int|
            0 <= i < ir.inputs@.len() && ir.inputs@[i].wire != i + 1 && forall|m: int| 0 <= m < i ==> #[trigger] ir.inputs@[m].wire
                == m + 1;
        Some(input_wire_text(ir.inputs@[i].name@, ir.inputs@[i].wire, (i + 1) as u32))
    } else {
        None
    }
}

/// What is wrong with the first bad node, if any.
#[verifier::opaque]
pub open spec fn nodes_error(ir: Ir) -> Option<Seq<char>> {
    if exists|i: int| 0 <= i < ir.nodes@.len() && #[trigger] node_error(ir, i) is Some {
        let i = choose|i: int|
            0 <= i < ir.nodes@.len() && node_error(ir, i) is Some && forall|m: int| 0 <= m < i ==> #[trigger] node_error(ir, m) is None;
        node_error(ir, i)
    } else {
        None
    }
}

/// Assertion `k` names a wire that does not exist.
pub open spec fn assertion_bad(ir: Ir, k: int) -> bool {
    ir.assertions@[k].lhs >= ir.spec_wire_count() || ir.assertions@[k].rhs >= ir.spec_wire_count()
}

/// The first assertion on a wire that does not exist, if any.
#[verifier::opaque]
pub open spec fn assertions_error(ir: Ir) -> Option<Seq<char>> {
    if exists|k: int| 0 <= k < ir.assertions@.len() && #[trigger] assertion_bad(ir, k) {
        let k = choose|k: int| 0 <= k < ir.assertions@.len() && assertion_bad(ir, k) && forall|m: int| 0 <= m < k ==> !#[trigger] assertion_bad(ir, m);
        let a = ir.assertions@[k];
        Some(unknown_wire_text(a.line, if a.lhs >= ir.spec_wire_count() {
            a.lhs
        } else {
            a.rhs
        }))
    } else {
        None
    }
}

/// The first input repeating an earlier name, if any.
#[verifier::opaque]
pub open spec fn names_error(ir: Ir) -> Option<Seq<char>> {
    if exists|i: int| 0 <= i < ir.inputs@.len() && #[trigger] repeats_name(ir, i) {
        let i = choose|i: int| 0 <= i < ir.inputs@.len() && repeats_name(ir, i) && forall|m: int| 0 <= m < i ==> !#[trigger] repeats_name(ir, m);
        Some(duplicate_text(ir.inputs@[i].name@))
    } else {
        None
    }
}

/// The message `validate` refuses an IR with: the first check that fails,
/// in the order they are made; `None` for a valid IR.
pub open spec fn validation_error(ir: Ir) -> Option<Seq<char>> {
    if ir.schema_version != SUPPORTED_SCHEMA_VERSION {
        Some(schema_text(ir.schema_version))
    } else if !ir.determinacy.proved && ir.declares_outputs() {
        Some(undischarged_text(ir.name@))
    } else if ir.const_one_wire != 0 {
        Some("const_one_wire must be 0"@)
    } else if input_error(ir) is Some {
        input_error(ir)
    } else if nodes_error(ir) is Some {
        nodes_error(ir)
    } else if assertions_error(ir) is Some {
        assertions_error(ir)
    } else {
        names_error(ir)
    }
}

proof fn lemma_input_error(ir: Ir, idx: int)
    requires
        0 <= idx <= ir.inputs@.len(),
        forall|k: int| 0 <= k < idx ==> #[trigger] ir.inputs@[k].wire == k + 1,
    ensures
        idx == ir.inputs@.len() ==> input_error(ir) is None,
        idx < ir.inputs@.len() && ir.inputs@[idx].wire != idx + 1 ==> input_error(ir) == Some(
            input_wire_text(ir.inputs@[idx].name@, ir.inputs@[idx].wire, (idx + 1) as u32),
        ),
{
    reveal(input_error);
    if idx < ir.inputs@.len() && ir.inputs@[idx].wire != idx + 1 {
        let i = choose|i: int|
            0 <= i < ir.inputs@.len() && ir.inputs@[i].wire != i + 1 && forall|m: int| 0 <= m < i ==> #[trigger] ir.inputs@[m].wire
                == m + 1;
        assert(i == idx);
    }
}

proof fn lemma_node_error_none(ir: Ir, i: int)
    requires
        0 <= i < ir.nodes@.len(),
        ir.node_ok(i),
    ensures
        node_error(ir, i) is None,
{
}

proof fn lemma_nodes_error(ir: Ir, idx: int)
    requires
        0 <= idx <= ir.nodes@.len(),
        forall|k: int| 0 <= k < idx ==> #[trigger] ir.node_ok(k),
    ensures
        idx == ir.nodes@.len() ==> nodes_error(ir) is None,
        idx < ir.nodes@.len() && node_error(ir, idx) is Some ==> nodes_error(ir) == node_error(ir, idx),
{
    reveal(nodes_error);
    assert forall|k: int| 0 <= k < idx implies #[trigger] node_error(ir, k) is None by {
        lemma_node_error_none(ir, k);
    }
    if idx < ir.nodes@.len() && node_error(ir, idx) is Some {
        let i = choose|i: int|
            0 <= i < ir.nodes@.len() && node_error(ir, i) is Some && forall|m: int| 0 <= m < i ==> #[trigger] node_error(ir, m) is None;
        assert(i == idx);
    }
}

proof fn lemma_assertions_error(ir: Ir, idx: int)
    requires
        0 <= idx <= ir.assertions@.len(),
        forall|m: int| 0 <= m < idx ==> !#[trigger] assertion_bad(ir, m),
    ensures
        idx == ir.assertions@.len() ==> assertions_error(ir) is None,
        idx < ir.assertions@.len() && assertion_bad(ir, idx) ==> assertions_error(ir) == Some(
            unknown_wire_text(ir.assertions@[idx].line, if ir.assertions@[idx].lhs >= ir.spec_wire_count() {
                ir.assertions@[idx].lhs
            } else {
                ir.assertions@[idx].rhs
            }),
        ),
{
    reveal(assertions_error);
    if idx < ir.assertions@.len() && assertion_bad(ir, idx) {
        let k = choose|k: int| 0 <= k < ir.assertions@.len() && assertion_bad(ir, k) && forall|m: int| 0 <= m < k ==> !#[trigger] assertion_bad(ir, m);
        assert(k == idx);
    }
}

proof fn lemma_names_error(ir: Ir, idx: int)
    requires
        0 <= idx <= ir.inputs@.len(),
        forall|m: int| 0 <= m < idx ==> !#[trigger] repeats_name(ir, m),
    ensures
        idx == ir.inputs@.len() ==> names_error(ir) is None,
        idx < ir.inputs@.len() && repeats_name(ir, idx) ==> names_error(ir) == Some(duplicate_text(ir.inputs@[idx].name@)),
{
    reveal(names_error);
    if idx < ir.inputs@.len() && repeats_name(ir, idx) {
        let i = choose|i: int| 0 <= i < ir.inputs@.len() && repeats_name(ir, i) && forall|m: int| 0 <= m < i ==> !#[trigger] repeats_name(ir, m);
        assert(i == idx);
    }
}

impl Ir {
    /// Total number of wires, including the constant-one wire.
    pub open spec fn spec_wire_count(&self) -> nat {
        1 + self.inputs@.len() + self.nodes@.len()
    }

    /// The wire counts fit the `u32` wire numbering.
    pub open spec fn fits_u32(&self) -> bool {
        self.spec_wire_count() <= u32::MAX
    }

    pub open spec fn declares_outputs(&self) -> bool {
        exists|i: int| 0 <= i < self.inputs@.len() && #[trigger] self.inputs@[i].visibility
            == Visibility::Output
    }

    pub open spec fn inputs_dense(&self) -> bool {
        forall|i: int| 0 <= i < self.inputs@.len() ==> #[trigger] self.inputs@[i].wire == i + 1
    }

    /// Node `i` occupies the next wire, has its arity, and reads only
    /// strictly earlier wires.
    pub open spec fn node_ok(&self, i: int) -> bool {
        let node = self.nodes@[i];
        &&& node.wire == self.inputs@.len() + 1 + i
        &&& node.op.spec_args().len() == node.op.spec_arity()
        &&& forall|j: int| 0 <= j < node.op.spec_args().len() ==> #[trigger] node.op.spec_args()[j] < node.wire
    }

    pub open spec fn nodes_ok(&self) -> bool {
        forall|i: int| 0 <= i < self.nodes@.len() ==> #[trigger] self.node_ok(i)
    }

    pub open spec fn assertions_ok(&self) -> bool {
        forall|k: int| 0 <= k < self.assertions@.len() ==> {
            &&& #[trigger] self.assertions@[k].lhs < self.spec_wire_count()
            &&& self.assertions@[k].rhs < self.spec_wire_count()
        }
    }

    pub open spec fn names_distinct(&self) -> bool {
        forall|i: int, j: int|
            0 <= i < j < self.inputs@.len() ==> #[trigger] self.inputs@[i].name@ != #[trigger] self.inputs@[j].name@
    }

    /// Every invariant the lowering and the solver rely on.
    pub open spec fn is_valid(&self) -> bool {
        &&& self.schema_version == SUPPORTED_SCHEMA_VERSION
        &&& (self.determinacy.proved || !self.declares_outputs())
        &&& self.const_one_wire == 0
        &&& self.inputs_dense()
        &&& self.nodes_ok()
        &&& self.assertions_ok()
        &&& self.names_distinct()
    }

    /// Total number of wires, including the constant-one wire.
    pub fn wire_count(&self) -> (r: usize)
        requires
            self.spec_wire_count() <= usize::MAX,
        ensures
            r == self.spec_wire_count(),
    {
        1 + self.inputs.len() + self.nodes.len()
    }

    /// Enforce every invariant the lowering and solver rely on: the schema
    /// version, the soundness gate (an IR declaring outputs must carry a
    /// discharged determinacy proof), the constant-one wire, dense ordered
    /// input and node wires, arities, topological order, assertion wires in
    /// range, and distinct input names.
    pub fn validate(&self) -> (r: Result<(), String>)
        requires
            self.fits_u32(),
        ensures
            r is Ok <==> self.is_valid(),
            r is Ok <==> validation_error(*self) is None,
            r matches Err(e) ==> Some(e@) == validation_error(*self),
    {
        broadcast use vstd::string::to_string_from_display_ensures_for_str;
        if self.schema_version != SUPPORTED_SCHEMA_VERSION {
            return Err(msg_schema_version(self.schema_version));
        }
        // The soundness gate. An IR whose outputs were not proved determined
        // describes a circuit where the prover may choose what to prove.
        if !self.determinacy.proved {
            let mut i: usize = 0;
            while i < self.inputs.len()
                invariant
                    !self.determinacy.proved,
                    self.schema_version == SUPPORTED_SCHEMA_VERSION,
                    i <= self.inputs@.len(),
                    forall|k: int| 0 <= k < i ==> #[trigger] self.inputs@[k].visibility
                        != Visibility::Output,
                decreases self.inputs@.len() - i,
            {
                if self.inputs[i].visibility == Visibility::Output {
                    assert(self.inputs@[i as int].visibility == Visibility::Output);
                    assert(self.declares_outputs());
                    return Err(msg_undischarged(&self.name));
                }
                i = i + 1;
            }
        }
        assert(self.determinacy.proved || !self.declares_outputs());
        if self.const_one_wire != 0 {
            return Err("const_one_wire must be 0".to_string());
        }
        // Inputs occupy wires 1..=n, in order.
        let mut index: usize = 0;
        while index < self.inputs.len()
            invariant
                self.fits_u32(),
                index <= self.inputs@.len(),
                forall|k: int| 0 <= k < index ==> #[trigger] self.inputs@[k].wire == k + 1,
                self.schema_version == SUPPORTED_SCHEMA_VERSION,
                self.determinacy.proved || !self.declares_outputs(),
                self.const_one_wire == 0,
            decreases self.inputs@.len() - index,
        {
            let expected = index as u32 + 1;
            if self.inputs[index].wire != expected {
                proof {
                    lemma_input_error(*self, index as int);
                }
                return Err(msg_input_wire(&self.inputs[index].name, self.inputs[index].wire, expected));
            }
            index = index + 1;
        }
        proof {
            lemma_input_error(*self, self.inputs@.len() as int);
        }
        // Nodes continue densely and in topological order: every argument
        // must refer to a strictly earlier wire.
        let first_node_wire = self.inputs.len() as u32 + 1;
        let mut index: usize = 0;
        while index < self.nodes.len()
            invariant
                self.fits_u32(),
                first_node_wire == self.inputs@.len() + 1,
                index <= self.nodes@.len(),
                forall|k: int| 0 <= k < index ==> #[trigger] self.node_ok(k),
                self.schema_version == SUPPORTED_SCHEMA_VERSION,
                self.determinacy.proved || !self.declares_outputs(),
                self.const_one_wire == 0,
                input_error(*self) is None,
            decreases self.nodes@.len() - index,
        {
            let node = &self.nodes[index];
            let expected = first_node_wire + index as u32;
            if node.wire != expected {
                assert(!self.node_ok(index as int));
                proof {
                    assert(node_error(*self, index as int) == Some(node_wire_text(index, node.wire, expected)));
                    lemma_nodes_error(*self, index as int);
                }
                return Err(msg_node_wire(index, node.wire, expected));
            }
            let args = node.op.args();
            if args.len() != node.op.expected_arity() {
                assert(!self.node_ok(index as int));
                let arity = node.op.expected_arity();
                proof {
                    assert(node_error(*self, index as int) == Some(arity_text(node.wire, args.len(), arity)));
                    lemma_nodes_error(*self, index as int);
                }
                return Err(msg_arity(node.wire, args.len(), arity));
            }
            let mut j: usize = 0;
            while j < args.len()
                invariant
                    args@ == node.op.spec_args(),
                    node == self.nodes@[index as int],
                    index < self.nodes@.len(),
                    j <= args@.len(),
                    forall|m: int| 0 <= m < j ==> #[trigger] args@[m] < node.wire,
                    forall|k: int| 0 <= k < index ==> #[trigger] self.node_ok(k),
                    node.wire == self.inputs@.len() + 1 + index,
                    args@.len() == node.op.spec_arity(),
                    self.schema_version == SUPPORTED_SCHEMA_VERSION,
                    self.determinacy.proved || !self.declares_outputs(),
                    self.const_one_wire == 0,
                    input_error(*self) is None,
                    self.fits_u32(),
                decreases args@.len() - j,
            {
                if args[j] >= node.wire {
                    assert(!self.node_ok(index as int));
                    proof {
                        let sa = self.nodes@[index as int].op.spec_args();
                        assert(sa[j as int] >= node.wire);
                        let jj = choose|jj: int| 0 <= jj < sa.len() && sa[jj] >= node.wire && forall|m: int| 0 <= m < jj ==> #[trigger] sa[m] < node.wire;
                        assert(jj == j);
                        assert(node_error(*self, index as int) == Some(forward_text(node.wire, args@[j as int])));
                        lemma_nodes_error(*self, index as int);
                    }
                    return Err(msg_forward_reference(node.wire, args[j]));
                }
                j = j + 1;
            }
            assert(self.node_ok(index as int));
            index = index + 1;
        }
        proof {
            lemma_nodes_error(*self, self.nodes@.len() as int);
        }
        let max_wire = self.wire_count() as u32;
        let mut k: usize = 0;
        while k < self.assertions.len()
            invariant
                self.fits_u32(),
                max_wire == self.spec_wire_count(),
                k <= self.assertions@.len(),
                forall|m: int| 0 <= m < k ==> {
                    &&& #[trigger] self.assertions@[m].lhs < self.spec_wire_count()
                    &&& self.assertions@[m].rhs < self.spec_wire_count()
                },
                self.schema_version == SUPPORTED_SCHEMA_VERSION,
                self.determinacy.proved || !self.declares_outputs(),
                self.const_one_wire == 0,
                input_error(*self) is None,
                nodes_error(*self) is None,
            decreases self.assertions@.len() - k,
        {
            let assertion = &self.assertions[k];
            proof {
                assert forall|m: int| 0 <= m < k implies !#[trigger] assertion_bad(*self, m) by {
                    assert(self.assertions@[m].lhs < self.spec_wire_count());
                }
            }
            if assertion.lhs >= max_wire {
                proof {
                    lemma_assertions_error(*self, k as int);
                }
                return Err(msg_unknown_wire(assertion.line, assertion.lhs));
            }
            if assertion.rhs >= max_wire {
                proof {
                    lemma_assertions_error(*self, k as int);
                }
                return Err(msg_unknown_wire(assertion.line, assertion.rhs));
            }
            k = k + 1;
        }
        proof {
            assert forall|m: int| 0 <= m < self.assertions@.len() implies !#[trigger] assertion_bad(*self, m) by {
                assert(self.assertions@[m].lhs < self.spec_wire_count());
            }
            lemma_assertions_error(*self, self.assertions@.len() as int);
        }
        let mut i: usize = 0;
        while i < self.inputs.len()
            invariant
                i <= self.inputs@.len(),
                forall|a: int, b: int|
                    0 <= a < b < i ==> #[trigger] self.inputs@[a].name@
                        != #[trigger] self.inputs@[b].name@,
                self.schema_version == SUPPORTED_SCHEMA_VERSION,
                self.determinacy.proved || !self.declares_outputs(),
                self.const_one_wire == 0,
                input_error(*self) is None,
                nodes_error(*self) is None,
                assertions_error(*self) is None,
            decreases self.inputs@.len() - i,
        {
            proof {
                assert forall|m: int| 0 <= m < i implies !#[trigger] repeats_name(*self, m) by {
                    if repeats_name(*self, m) {
                        let a = choose|a: int| 0 <= a < m && #[trigger] self.inputs@[a].name@ == self.inputs@[m].name@;
                        assert(self.inputs@[a].name@ != self.inputs@[m].name@);
                    }
                }
            }
            let mut j: usize = 0;
            while j < i
                invariant
                    i < self.inputs@.len(),
                    j <= i,
                    forall|a: int| 0 <= a < j ==> #[trigger] self.inputs@[a].name@
                        != self.inputs@[i as int].name@,
                    forall|m: int| 0 <= m < i ==> !#[trigger] repeats_name(*self, m),
                    self.schema_version == SUPPORTED_SCHEMA_VERSION,
                    self.determinacy.proved || !self.declares_outputs(),
                    self.const_one_wire == 0,
                    input_error(*self) is None,
                    nodes_error(*self) is None,
                    assertions_error(*self) is None,
                decreases i - j,
            {
                if self.inputs[j].name == self.inputs[i].name {
                    proof {
                        assert(self.inputs@[j as int].name@ == self.inputs@[i as int].name@);
                        assert(repeats_name(*self, i as int));
                        lemma_names_error(*self, i as int);
                    }
                    return Err(msg_duplicate_name(&self.inputs[i].name));
                }
                j = j + 1;
            }
            i = i + 1;
        }
        proof {
            assert forall|m: int| 0 <= m < self.inputs@.len() implies !#[trigger] repeats_name(*self, m) by {
                if repeats_name(*self, m) {
                    let a = choose|a: int| 0 <= a < m && #[trigger] self.inputs@[a].name@ == self.inputs@[m].name@;
                    assert(self.inputs@[a].name@ != self.inputs@[m].name@);
                }
            }
            lemma_names_error(*self, self.inputs@.len() as int);
        }
        Ok(())
    }

    /// The hint-produced wires, paired with their source-level names.
    pub open spec fn spec_advice_wires(nodes: Seq<Node>) -> Seq<(u32, Seq<char>)>
        decreases nodes.len(),
    {
        if nodes.len() == 0 {
            Seq::empty()
        } else {
            let rest = Self::spec_advice_wires(nodes.drop_last());
            match nodes.last().op {
                NodeOp::Hint { name, .. } => rest.push((nodes.last().wire, name@)),
                _ => rest,
            }
        }
    }

    /// Wires produced by hints, paired with their source-level names, in
    /// node order.
    pub fn advice_wires(&self) -> (r: Vec<(u32, &str)>)
        ensures
            r@.len() == Self::spec_advice_wires(self.nodes@).len(),
            forall|i: int| 0 <= i < r@.len() ==> (#[trigger] r@[i]).0 == Self::spec_advice_wires(
                self.nodes@,
            )[i].0 && r@[i].1@ == Self::spec_advice_wires(self.nodes@)[i].1,
    {
        let mut out: Vec<(u32, &str)> = Vec::new();
        let mut i: usize = 0;
        while i < self.nodes.len()
            invariant
                i <= self.nodes@.len(),
                out@.len() == Self::spec_advice_wires(self.nodes@.subrange(0, i as int)).len(),
                forall|k: int| 0 <= k < out@.len() ==> (#[trigger] out@[k]).0 == Self::spec_advice_wires(
                    self.nodes@.subrange(0, i as int),
                )[k].0 && out@[k].1@ == Self::spec_advice_wires(
                    self.nodes@.subrange(0, i as int),
                )[k].1,
            decreases self.nodes@.len() - i,
        {
            let ghost prefix = self.nodes@.subrange(0, i as int);
            let ghost next = self.nodes@.subrange(0, i as int + 1);
            assert(next.drop_last() =~= prefix);
            match &self.nodes[i].op {
                NodeOp::Hint { name, .. } => {
                    out.push((self.nodes[i].wire, name.as_str()));
                },
                _ => {},
            }
            i = i + 1;
        }
        assert(self.nodes@.subrange(0, self.nodes@.len() as int) =~= self.nodes@);
        out
    }
}

/// `format!` of the unsupported-schema message: `std`'s formatting writes the literal pieces
/// and each argument's `Display`, a number in decimal.
#[verifier::external_body]
fn msg_schema_version(found: u32) -> (r: String)
    ensures
        r@ == schema_text(found),
{
    format!(
        "unsupported IR schema version {} (this backend speaks {})",
        found,
        SUPPORTED_SCHEMA_VERSION
    )
}

/// `format!` of the message refusing an IR whose outputs carry no
/// determinacy proof: `std`'s formatting writes the literal pieces and each argument's
/// `Display`, a number in decimal.
#[verifier::external_body]
fn msg_undischarged(name: &String) -> (r: String)
    ensures
        r@ == undischarged_text(name@),
{
    format!(
        "circuit '{}' declares outputs but carries no discharged determinacy proof; \
         refusing to prove it (recompile with a frontend that proves determinacy)",
        name
    )
}

/// `format!` of the message for a misplaced input wire: `std`'s formatting writes the literal pieces
/// and each argument's `Display`, a number in decimal.
#[verifier::external_body]
fn msg_input_wire(name: &String, wire: u32, expected: u32) -> (r: String)
    ensures
        r@ == input_wire_text(name@, wire, expected),
{
    format!(
        "input '{}' has wire {} but inputs must occupy wires 1..=n in order (expected {})",
        name,
        wire,
        expected
    )
}

/// `format!` of the message for a misplaced node wire: `std`'s formatting writes the literal pieces
/// and each argument's `Display`, a number in decimal.
#[verifier::external_body]
fn msg_node_wire(index: usize, wire: u32, expected: u32) -> (r: String)
    ensures
        r@ == node_wire_text(index, wire, expected),
{
    format!("node {index} has wire {wire} but nodes must be dense and ordered (expected {expected})")
}

/// `format!` of the message for a node with the wrong number of
/// arguments: `std`'s formatting writes the literal pieces and each argument's
/// `Display`, a number in decimal.
#[verifier::external_body]
fn msg_arity(wire: u32, found: usize, expected: usize) -> (r: String)
    ensures
        r@ == arity_text(wire, found, expected),
{
    format!("node at wire {wire} has {found} arguments, expected {expected}")
}

/// `format!` of the message for a node reading a later wire: `std`'s
/// formatting writes the literal pieces and each argument's `Display`, a
/// number in decimal.
#[verifier::external_body]
fn msg_forward_reference(wire: u32, arg: u32) -> (r: String)
    ensures
        r@ == forward_text(wire, arg),
{
    format!(
        "node at wire {wire} references wire {arg}, which is not strictly earlier \
         (the IR must be topologically ordered)"
    )
}

/// `format!` of the message for an assertion on an unknown wire: `std`'s formatting writes the literal pieces
/// and each argument's `Display`, a number in decimal.
#[verifier::external_body]
fn msg_unknown_wire(line: u32, wire: u32) -> (r: String)
    ensures
        r@ == unknown_wire_text(line, wire),
{
    format!("assertion on line {line} references unknown wire {wire}")
}

/// `format!` of the message for a repeated input name: `std`'s formatting writes the literal pieces
/// and each argument's `Display`, a number in decimal.
#[verifier::external_body]
fn msg_duplicate_name(name: &String) -> (r: String)
    ensures
        r@ == duplicate_text(name@),
{
    format!("duplicate input name '{}'", name)
}

} // verus!
