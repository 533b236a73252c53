//! Rule expressions: the scalar and truth-valued expression trees that rules evaluate.

use vstd::prelude::*;
use crate::canonical_encoding::{
    emit, emits, expression_kind_tag, lemma_emits_then, lemma_emits_then_error,
    projection_kind_tag, scalar_emit, spec_expression_kind_tag, spec_projection_kind_tag,
    string_emit, then, CanonicalEncodingError, CanonicalField, CanonicalPayloadWriter, Emitted,
    be_u16, numerical_version_number, write_numerical_version,
};
use crate::rule_reference::{ForcingRef, InputRef, ParameterRef, ProjectionRef, TableRef};
use crate::versions::{NumericalSemanticsVersion, RuleIrVersion};

verus! {

/// A binary arithmetic operator.
#[derive(Clone, Copy, Debug, PartialEq, Eq, Structural)]
pub enum BinaryOp {
    Add,
    Subtract,
    Multiply,
    Divide,
    Power,
    Minimum,
    Maximum,
}

/// A comparison operator producing a truth value.
#[derive(Clone, Copy, Debug, PartialEq, Eq, Structural)]
pub enum ComparisonOp {
    Less,
    LessOrEqual,
    Greater,
    GreaterOrEqual,
    Equal,
    NotEqual,
}

/// One node of a rule expression tree. Literals are IEEE-754 binary64 bit patterns.
#[derive(Debug, PartialEq, Eq)]
#[allow(inconsistent_fields)]
pub enum ExprNode {
    Literal(u64),
    Parameter(ParameterRef),
    Forcing(ForcingRef),
    Projection(ProjectionRef),
    Input(InputRef),
    InterpolatedTable { table: TableRef, input: Box<ExprNode> },
    Binary { op: BinaryOp, lhs: Box<ExprNode>, rhs: Box<ExprNode> },
    Comparison { op: ComparisonOp, lhs: Box<ExprNode>, rhs: Box<ExprNode> },
    Clamp { value: Box<ExprNode>, lower: Box<ExprNode>, upper: Box<ExprNode> },
    Select { condition: Box<ExprNode>, when_true: Box<ExprNode>, when_false: Box<ExprNode> },
}

/// A rule expression with the protocol versions it was authored under.
#[derive(Debug, PartialEq, Eq)]
pub struct RuleExpr {
    pub rule_ir_version: RuleIrVersion,
    pub numerical_semantics_version: NumericalSemanticsVersion,
    pub node: ExprNode,
}

pub open spec fn binary_op_tag(op: BinaryOp) -> u8 {
    match op {
        BinaryOp::Add => 0,
        BinaryOp::Subtract => 1,
        BinaryOp::Multiply => 2,
        BinaryOp::Divide => 3,
        BinaryOp::Power => 4,
        BinaryOp::Minimum => 5,
        BinaryOp::Maximum => 6,
    }
}

pub open spec fn comparison_op_tag(op: ComparisonOp) -> u8 {
    match op {
        ComparisonOp::Less => 0,
        ComparisonOp::LessOrEqual => 1,
        ComparisonOp::Greater => 2,
        ComparisonOp::GreaterOrEqual => 3,
        ComparisonOp::Equal => 4,
        ComparisonOp::NotEqual => 5,
    }
}

fn write_binary_op_tag(op: BinaryOp) -> (r: u8)
    ensures
        r == binary_op_tag(op),
{
    match op {
        BinaryOp::Add => 0,
        BinaryOp::Subtract => 1,
        BinaryOp::Multiply => 2,
        BinaryOp::Divide => 3,
        BinaryOp::Power => 4,
        BinaryOp::Minimum => 5,
        BinaryOp::Maximum => 6,
    }
}

fn write_comparison_op_tag(op: ComparisonOp) -> (r: u8)
    ensures
        r == comparison_op_tag(op),
{
    match op {
        ComparisonOp::Less => 0,
        ComparisonOp::LessOrEqual => 1,
        ComparisonOp::Greater => 2,
        ComparisonOp::GreaterOrEqual => 3,
        ComparisonOp::Equal => 4,
        ComparisonOp::NotEqual => 5,
    }
}

/// The unframed canonical grammar of an expression node (pre-order).
pub open spec fn node_emit(n: ExprNode) -> Emitted
    decreases n,
{
    match n {
        ExprNode::Literal(bits) => then(emit(seq![0u8]), scalar_emit(CanonicalField::RuleLiteral, bits)),
        ExprNode::Parameter(r) => then(
            emit(seq![1u8, spec_expression_kind_tag(r.value_kind)]),
            string_emit(CanonicalField::RuleParameterIdentity, r.id@),
        ),
        ExprNode::Forcing(r) => then(
            emit(seq![2u8, spec_expression_kind_tag(r.value_kind)]),
            string_emit(CanonicalField::RuleForcingIdentity, r.id@),
        ),
        ExprNode::Projection(r) => then(
            emit(seq![3u8, spec_projection_kind_tag(r.value_kind)]),
            string_emit(CanonicalField::RuleProjectionIdentity, r.id@),
        ),
        ExprNode::Input(r) => then(
            emit(seq![4u8, spec_expression_kind_tag(r.value_kind)]),
            string_emit(CanonicalField::RuleInputIdentity, r.id@),
        ),
        ExprNode::InterpolatedTable { table, input } => then(
            then(emit(seq![5u8]), string_emit(CanonicalField::RuleTableIdentity, table.id@)),
            node_emit(*input),
        ),
        ExprNode::Binary { op, lhs, rhs } => then(
            then(emit(seq![6u8, binary_op_tag(op)]), node_emit(*lhs)),
            node_emit(*rhs),
        ),
        ExprNode::Comparison { op, lhs, rhs } => then(
            then(emit(seq![7u8, comparison_op_tag(op)]), node_emit(*lhs)),
            node_emit(*rhs),
        ),
        ExprNode::Clamp { value, lower, upper } => then(
            then(then(emit(seq![8u8]), node_emit(*value)), node_emit(*lower)),
            node_emit(*upper),
        ),
        ExprNode::Select { condition, when_true, when_false } => then(
            then(then(emit(seq![9u8]), node_emit(*condition)), node_emit(*when_true)),
            node_emit(*when_false),
        ),
    }
}

/// The number of nodes of a tree.
pub open spec fn node_size(n: ExprNode) -> nat
    decreases n,
{
    match n {
        ExprNode::InterpolatedTable { input, .. } => 1 + node_size(*input),
        ExprNode::Binary { lhs, rhs, .. } => 1 + node_size(*lhs) + node_size(*rhs),
        ExprNode::Comparison { lhs, rhs, .. } => 1 + node_size(*lhs) + node_size(*rhs),
        ExprNode::Clamp { value, lower, upper } => 1 + node_size(*value) + node_size(*lower)
            + node_size(*upper),
        ExprNode::Select { condition, when_true, when_false } => 1 + node_size(*condition)
            + node_size(*when_true) + node_size(*when_false),
        _ => 1,
    }
}

/// The framed canonical grammar of an expression: its versions, then its tree.
pub open spec fn expression_emit(e: RuleExpr) -> Emitted {
    then(
        emit(be_u16(1) + be_u16(numerical_version_number(e.numerical_semantics_version))),
        node_emit(e.node),
    )
}

fn write_prefix2(writer: &mut CanonicalPayloadWriter, a: u8, b: u8)
    ensures
        final(writer)@ == old(writer)@ + seq![a, b],
{
    writer.write_u8(a);
    writer.write_u8(b);
    proof {
        assert(old(writer)@ + seq![a] + seq![b] =~= old(writer)@ + seq![a, b]);
    }
}

/// Writes the unframed grammar of a node.
pub fn write_node(node: &ExprNode, writer: &mut CanonicalPayloadWriter) -> (r: Result<
    (),
    CanonicalEncodingError,
>)
    ensures
        emits(old(writer)@, final(writer)@, r, node_emit(*node)),
    decreases 4 * node_size(*node),
{
    let ghost before = writer@;
    match node {
        ExprNode::Literal(bits) => {
            writer.write_u8(0);
            let ghost mid = writer@;
            let r = writer.write_scalar(CanonicalField::RuleLiteral, *bits);
            proof {
                lemma_emits_then(before, mid, writer@, emit(seq![0u8]), scalar_emit(CanonicalField::RuleLiteral, *bits), r);
            }
            r
        },
        ExprNode::Parameter(p) => {
            write_prefix2(writer, 1, expression_kind_tag(p.value_kind));
            let ghost mid = writer@;
            let r = writer.write_ident(CanonicalField::RuleParameterIdentity, &p.id);
            proof {
                lemma_emits_then(before, mid, writer@, emit(seq![1u8, spec_expression_kind_tag(p.value_kind)]), string_emit(CanonicalField::RuleParameterIdentity, p.id@), r);
            }
            r
        },
        ExprNode::Forcing(p) => {
            write_prefix2(writer, 2, expression_kind_tag(p.value_kind));
            let ghost mid = writer@;
            let r = writer.write_ident(CanonicalField::RuleForcingIdentity, &p.id);
            proof {
                lemma_emits_then(before, mid, writer@, emit(seq![2u8, spec_expression_kind_tag(p.value_kind)]), string_emit(CanonicalField::RuleForcingIdentity, p.id@), r);
            }
            r
        },
        ExprNode::Projection(p) => {
            write_prefix2(writer, 3, projection_kind_tag(p.value_kind));
            let ghost mid = writer@;
            let r = writer.write_ident(CanonicalField::RuleProjectionIdentity, &p.id);
            proof {
                lemma_emits_then(before, mid, writer@, emit(seq![3u8, spec_projection_kind_tag(p.value_kind)]), string_emit(CanonicalField::RuleProjectionIdentity, p.id@), r);
            }
            r
        },
        ExprNode::Input(p) => {
            write_prefix2(writer, 4, expression_kind_tag(p.value_kind));
            let ghost mid = writer@;
            let r = writer.write_ident(CanonicalField::RuleInputIdentity, &p.id);
            proof {
                lemma_emits_then(before, mid, writer@, emit(seq![4u8, spec_expression_kind_tag(p.value_kind)]), string_emit(CanonicalField::RuleInputIdentity, p.id@), r);
            }
            r
        },
        ExprNode::InterpolatedTable { table, input } => {
            writer.write_u8(5);
            let ghost mid = writer@;
            let r1 = writer.write_ident(CanonicalField::RuleTableIdentity, &table.id);
            let ghost a = then(emit(seq![5u8]), string_emit(CanonicalField::RuleTableIdentity, table.id@));
            proof {
                lemma_emits_then(before, mid, writer@, emit(seq![5u8]), string_emit(CanonicalField::RuleTableIdentity, table.id@), r1);
            }
            if r1.is_err() {
                proof {
                    lemma_emits_then_error(before, writer@, r1, a, node_emit(**input));
                }
                return r1;
            }
            let ghost mid2 = writer@;
            let r = write_node(input, writer);
            proof {
                lemma_emits_then(before, mid2, writer@, a, node_emit(**input), r);
            }
            r
        },
        ExprNode::Binary { op, lhs, rhs } => {
            write_prefix2(writer, 6, write_binary_op_tag(*op));
            let ghost p = emit(seq![6u8, binary_op_tag(*op)]);
            write_pair(Ghost(before), Ghost(p), lhs, rhs, writer)
        },
        ExprNode::Comparison { op, lhs, rhs } => {
            write_prefix2(writer, 7, write_comparison_op_tag(*op));
            let ghost p = emit(seq![7u8, comparison_op_tag(*op)]);
            write_pair(Ghost(before), Ghost(p), lhs, rhs, writer)
        },
        ExprNode::Clamp { value, lower, upper } => {
            writer.write_u8(8);
            let ghost p = emit(seq![8u8]);
            write_triple(Ghost(before), Ghost(p), value, lower, upper, writer)
        },
        ExprNode::Select { condition, when_true, when_false } => {
            writer.write_u8(9);
            let ghost p = emit(seq![9u8]);
            write_triple(Ghost(before), Ghost(p), condition, when_true, when_false, writer)
        },
    }
}

/// Writes two subtrees after a prefix `p` already written since `before`.
fn write_pair(
    Ghost(before): Ghost<Seq<u8>>,
    Ghost(p): Ghost<Emitted>,
    first: &Box<ExprNode>,
    second: &Box<ExprNode>,
    writer: &mut CanonicalPayloadWriter,
) -> (r: Result<(), CanonicalEncodingError>)
    requires
        p.error is None,
        old(writer)@ == before + p.bytes,
    ensures
        emits(before, final(writer)@, r, then(then(p, node_emit(**first)), node_emit(**second))),
    decreases 4 * (node_size(**first) + node_size(**second)) + 2,
{
    let ghost mid = writer@;
    let r1 = write_node(first, writer);
    let ghost a = then(p, node_emit(**first));
    proof {
        lemma_emits_then(before, mid, writer@, p, node_emit(**first), r1);
    }
    if r1.is_err() {
        proof {
            lemma_emits_then_error(before, writer@, r1, a, node_emit(**second));
        }
        return r1;
    }
    let ghost mid2 = writer@;
    let r = write_node(second, writer);
    proof {
        lemma_emits_then(before, mid2, writer@, a, node_emit(**second), r);
    }
    r
}

fn write_triple(
    Ghost(before): Ghost<Seq<u8>>,
    Ghost(p): Ghost<Emitted>,
    first: &Box<ExprNode>,
    second: &Box<ExprNode>,
    third: &Box<ExprNode>,
    writer: &mut CanonicalPayloadWriter,
) -> (r: Result<(), CanonicalEncodingError>)
    requires
        p.error is None,
        old(writer)@ == before + p.bytes,
    ensures
        emits(
            before,
            final(writer)@,
            r,
            then(then(then(p, node_emit(**first)), node_emit(**second)), node_emit(**third)),
        ),
    decreases 4 * (node_size(**first) + node_size(**second) + node_size(**third)) + 3,
{
    let ghost mid = writer@;
    let r1 = write_node(first, writer);
    let ghost a = then(p, node_emit(**first));
    proof {
        lemma_emits_then(before, mid, writer@, p, node_emit(**first), r1);
    }
    if r1.is_err() {
        proof {
            lemma_emits_then_error(before, writer@, r1, a, node_emit(**second));
            lemma_emits_then_error(before, writer@, r1, then(a, node_emit(**second)), node_emit(**third));
        }
        return r1;
    }
    let ghost b = then(a, node_emit(**second));
    write_pair(Ghost(before), Ghost(a), second, third, writer)
}

impl RuleExpr {
    /// Writes the expression's framed payload: its versions, then its tree.
    pub fn encode_payload(&self, writer: &mut CanonicalPayloadWriter) -> (r: Result<
        (),
        CanonicalEncodingError,
    >)
        ensures
            emits(old(writer)@, final(writer)@, r, expression_emit(*self)),
    {
        let ghost before = writer@;
        match self.rule_ir_version {
            RuleIrVersion::V1 => writer.write_u16(1),
        }
        write_numerical_version(writer, self.numerical_semantics_version);
        let ghost mid = writer@;
        let ghost p = emit(be_u16(1) + be_u16(numerical_version_number(self.numerical_semantics_version)));
        proof {
            assert(mid =~= before + p.bytes);
        }
        let r = write_node(&self.node, writer);
        proof {
            lemma_emits_then(before, mid, writer@, p, node_emit(self.node), r);
        }
        r
    }

    /// Writes the expression's tree alone.
    pub fn encode_payload_unframed(&self, writer: &mut CanonicalPayloadWriter) -> (r: Result<
        (),
        CanonicalEncodingError,
    >)
        ensures
            emits(old(writer)@, final(writer)@, r, node_emit(self.node)),
    {
        write_node(&self.node, writer)
    }
}

} // verus!
