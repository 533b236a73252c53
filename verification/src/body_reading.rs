//! Reading the body of an artifact payload back from its bytes: rules, bindings and units.

use vstd::prelude::*;
use crate::artifact::{
    body_emit, catalogues_emit, header_emit, input_binding_emitter, input_source_emit, parameter_emitter, rule_emit,
    rule_entry_emitter, transfer_binding_emitter, unit_emitter, ModelArtifact,
};
use crate::canonical_encoding::{
    be_u16, canonical_scalar_bits, emit, emit_counted, envelope, numerical_version_number, scalar_emit,
    spec_encode, spec_expression_kind_tag, spec_projection_kind_tag, string_emit, then, CanonicalField,
    Emitted,
};
use crate::execution_bindings::{RuleInputBinding, RuleInputSource, TransferBranchBinding};
use crate::identity::{Ident, RuleCoordinate};
use crate::model_artifact::{RuleDefinition, SubstanceUnit};
use crate::partition_expression::{
    carrier_branch_emitter, expression_branch_emitter, fraction_branch_emitter, partition_emit,
    partition_view_emit, CarrierBranch, ExpressionBranch, FractionBranch, PartitionExpr, PartitionView,
};
use crate::reading::{
    lemma_cancel_tail, lemma_read_count, lemma_read_counted, lemma_read_head, lemma_read_node, lemma_read_scalar,
    lemma_read_string, lemma_read_header, lemma_split, lemma_then_bytes, readable,
};
use crate::rule_expression::{expression_emit, node_emit};

verus! {

/// The encoding an emitter gives a value.
pub open spec fn encoding_of<T>(f: spec_fn(T) -> Emitted) -> spec_fn(T) -> Seq<u8> {
    |x: T| f(x).bytes
}

/// An emitter whose successful emissions are prefix free is read back up to its encoding.
pub proof fn lemma_prefix_free_readable<T>(f: spec_fn(T) -> Emitted)
    requires
        forall|x: T, y: T, r1: Seq<u8>, r2: Seq<u8>|
            #![trigger f(x).bytes + r1, f(y).bytes + r2]
            f(x).error is None && f(y).error is None && f(x).bytes + r1 == f(y).bytes + r2 ==> r1 == r2,
    ensures
        readable(f, encoding_of(f)),
{
    assert forall|x: T, y: T, r1: Seq<u8>, r2: Seq<u8>|
        #![trigger f(x).bytes + r1, f(y).bytes + r2]
        f(x).error is None && f(y).error is None && f(x).bytes + r1 == f(y).bytes + r2 implies encoding_of(f)(x)
            == encoding_of(f)(y) && r1 == r2 by {
        lemma_cancel_tail(f(x).bytes, f(y).bytes, r1);
    }
}

// ---------------------------------------------------------------------------------------------
// Partitions
// ---------------------------------------------------------------------------------------------

proof fn lemma_fraction_branches_readable()
    ensures
        readable(fraction_branch_emitter(), encoding_of(fraction_branch_emitter())),
{
    let f = fraction_branch_emitter();
    assert forall|x: FractionBranch, y: FractionBranch, r1: Seq<u8>, r2: Seq<u8>|
        #![trigger f(x).bytes + r1, f(y).bytes + r2]
        f(x).error is None && f(y).error is None && f(x).bytes + r1 == f(y).bytes + r2 implies r1 == r2 by {
        let ax = string_emit(CanonicalField::PartitionBranchIdentity, x.branch@);
        let ay = string_emit(CanonicalField::PartitionBranchIdentity, y.branch@);
        let bx = scalar_emit(CanonicalField::PartitionFraction, x.fraction_bits);
        let by = scalar_emit(CanonicalField::PartitionFraction, y.fraction_bits);
        lemma_then_bytes(ax, bx, r1);
        lemma_then_bytes(ay, by, r2);
        lemma_read_string(CanonicalField::PartitionBranchIdentity, x.branch@, CanonicalField::PartitionBranchIdentity, y.branch@, bx.bytes + r1, by.bytes + r2);
        lemma_read_scalar(CanonicalField::PartitionFraction, x.fraction_bits, CanonicalField::PartitionFraction, y.fraction_bits, r1, r2);
    }
    lemma_prefix_free_readable(f);
}

proof fn lemma_expression_branches_readable()
    ensures
        readable(expression_branch_emitter(), encoding_of(expression_branch_emitter())),
{
    let f = expression_branch_emitter();
    assert forall|x: ExpressionBranch, y: ExpressionBranch, r1: Seq<u8>, r2: Seq<u8>|
        #![trigger f(x).bytes + r1, f(y).bytes + r2]
        f(x).error is None && f(y).error is None && f(x).bytes + r1 == f(y).bytes + r2 implies r1 == r2 by {
        let ax = string_emit(CanonicalField::PartitionBranchIdentity, x.branch@);
        let ay = string_emit(CanonicalField::PartitionBranchIdentity, y.branch@);
        let bx = node_emit(x.expression.node);
        let by = node_emit(y.expression.node);
        lemma_then_bytes(ax, bx, r1);
        lemma_then_bytes(ay, by, r2);
        lemma_read_string(CanonicalField::PartitionBranchIdentity, x.branch@, CanonicalField::PartitionBranchIdentity, y.branch@, bx.bytes + r1, by.bytes + r2);
        lemma_read_node(x.expression.node, y.expression.node, r1, r2);
    }
    lemma_prefix_free_readable(f);
}

proof fn lemma_carrier_branches_readable()
    ensures
        readable(carrier_branch_emitter(), encoding_of(carrier_branch_emitter())),
{
    let f = carrier_branch_emitter();
    assert forall|x: CarrierBranch, y: CarrierBranch, r1: Seq<u8>, r2: Seq<u8>|
        #![trigger f(x).bytes + r1, f(y).bytes + r2]
        f(x).error is None && f(y).error is None && f(x).bytes + r1 == f(y).bytes + r2 implies r1 == r2 by {
        let ax = string_emit(CanonicalField::PartitionBranchIdentity, x.branch@);
        let ay = string_emit(CanonicalField::PartitionBranchIdentity, y.branch@);
        let bx = string_emit(CanonicalField::PartitionBranchIdentity, x.carrier_branch@);
        let by = string_emit(CanonicalField::PartitionBranchIdentity, y.carrier_branch@);
        lemma_then_bytes(ax, bx, r1);
        lemma_then_bytes(ay, by, r2);
        lemma_read_string(CanonicalField::PartitionBranchIdentity, x.branch@, CanonicalField::PartitionBranchIdentity, y.branch@, bx.bytes + r1, by.bytes + r2);
        lemma_read_string(CanonicalField::PartitionBranchIdentity, x.carrier_branch@, CanonicalField::PartitionBranchIdentity, y.carrier_branch@, r1, r2);
    }
    lemma_prefix_free_readable(f);
}

/// The tag byte that opens the encoding of a partition's shape.
pub open spec fn partition_tag(v: PartitionView) -> u8 {
    match v {
        PartitionView::RetainAll => 0,
        PartitionView::ReleaseAll { .. } => 1,
        PartitionView::ExogenousSeries { .. } => 2,
        PartitionView::ConstantFractionTransfer { .. } => 3,
        PartitionView::FixedFractionSplit { .. } => 4,
        PartitionView::ExpressionPartition { .. } => 5,
        PartitionView::CarrierProportional { .. } => 6,
    }
}

/// The encoding of a partition's shape is its tag followed by the encoding of its content.
pub open spec fn partition_rest(v: PartitionView) -> Emitted {
    match v {
        PartitionView::RetainAll => emit(Seq::empty()),
        PartitionView::ReleaseAll { branch } => string_emit(CanonicalField::PartitionBranchIdentity, branch@),
        PartitionView::ExogenousSeries { branch, series } => then(
            string_emit(CanonicalField::PartitionBranchIdentity, branch@),
            then(
                emit(seq![spec_expression_kind_tag(series.value_kind)]),
                string_emit(CanonicalField::RuleForcingIdentity, series.id@),
            ),
        ),
        PartitionView::ConstantFractionTransfer { branch, fraction_bits } => then(
            string_emit(CanonicalField::PartitionBranchIdentity, branch@),
            scalar_emit(CanonicalField::PartitionFraction, fraction_bits),
        ),
        PartitionView::FixedFractionSplit { branches } => emit_counted(CanonicalField::PartitionBranches, branches@, fraction_branch_emitter()),
        PartitionView::ExpressionPartition { branches } => emit_counted(CanonicalField::PartitionBranches, branches@, expression_branch_emitter()),
        PartitionView::CarrierProportional { carrier, branches } => then(
            string_emit(CanonicalField::PartitionCarrierSubstance, carrier@),
            emit_counted(CanonicalField::PartitionBranches, branches@, carrier_branch_emitter()),
        ),
    }
}

proof fn lemma_partition_shape(v: PartitionView, r: Seq<u8>)
    requires
        partition_view_emit(v).error is None,
    ensures
        partition_rest(v).error is None,
        partition_view_emit(v).bytes + r == seq![partition_tag(v)] + (partition_rest(v).bytes + r),
{
    match v {
        PartitionView::RetainAll => {
            assert(partition_view_emit(v).bytes + r =~= seq![partition_tag(v)] + (partition_rest(v).bytes + r));
        },
        PartitionView::ReleaseAll { branch } => {
            lemma_then_bytes(emit(seq![1u8]), partition_rest(v), r);
        },
        PartitionView::ExogenousSeries { branch, series } => {
            let a = string_emit(CanonicalField::PartitionBranchIdentity, branch@);
            let b = emit(seq![spec_expression_kind_tag(series.value_kind)]);
            let c = string_emit(CanonicalField::RuleForcingIdentity, series.id@);
            lemma_then_bytes(then(emit(seq![2u8]), a), then(b, c), r);
            lemma_then_bytes(emit(seq![2u8]), a, then(b, c).bytes + r);
            lemma_then_bytes(a, then(b, c), r);
            assert(partition_view_emit(v).bytes + r =~= seq![partition_tag(v)] + (partition_rest(v).bytes + r));
        },
        PartitionView::ConstantFractionTransfer { branch, fraction_bits } => {
            let a = string_emit(CanonicalField::PartitionBranchIdentity, branch@);
            let b = scalar_emit(CanonicalField::PartitionFraction, fraction_bits);
            lemma_then_bytes(then(emit(seq![3u8]), a), b, r);
            lemma_then_bytes(emit(seq![3u8]), a, b.bytes + r);
            lemma_then_bytes(a, b, r);
            assert(partition_view_emit(v).bytes + r =~= seq![partition_tag(v)] + (partition_rest(v).bytes + r));
        },
        PartitionView::FixedFractionSplit { branches } => {
            let c = crate::canonical_encoding::count_emit(CanonicalField::PartitionBranches, branches@.len() as usize);
            let e = crate::canonical_encoding::emit_each(branches@, fraction_branch_emitter());
            lemma_then_bytes(then(emit(seq![4u8]), c), e, r);
            lemma_then_bytes(emit(seq![4u8]), c, e.bytes + r);
            lemma_then_bytes(c, e, r);
            assert(partition_view_emit(v).bytes + r =~= seq![partition_tag(v)] + (partition_rest(v).bytes + r));
        },
        PartitionView::ExpressionPartition { branches } => {
            let c = crate::canonical_encoding::count_emit(CanonicalField::PartitionBranches, branches@.len() as usize);
            let e = crate::canonical_encoding::emit_each(branches@, expression_branch_emitter());
            lemma_then_bytes(then(emit(seq![5u8]), c), e, r);
            lemma_then_bytes(emit(seq![5u8]), c, e.bytes + r);
            lemma_then_bytes(c, e, r);
            assert(partition_view_emit(v).bytes + r =~= seq![partition_tag(v)] + (partition_rest(v).bytes + r));
        },
        PartitionView::CarrierProportional { carrier, branches } => {
            let a = string_emit(CanonicalField::PartitionCarrierSubstance, carrier@);
            let c = crate::canonical_encoding::count_emit(CanonicalField::PartitionBranches, branches@.len() as usize);
            let e = crate::canonical_encoding::emit_each(branches@, carrier_branch_emitter());
            lemma_then_bytes(then(then(emit(seq![6u8]), a), c), e, r);
            lemma_then_bytes(then(emit(seq![6u8]), a), c, e.bytes + r);
            lemma_then_bytes(emit(seq![6u8]), a, c.bytes + (e.bytes + r));
            lemma_then_bytes(a, then(c, e), r);
            lemma_then_bytes(c, e, r);
            assert(partition_view_emit(v).bytes + r =~= seq![partition_tag(v)] + (partition_rest(v).bytes + r));
        },
    }
}

/// The encoding of a partition's shape is prefix free.
#[verifier::spinoff_prover]
#[verifier::rlimit(50)]
pub proof fn lemma_read_partition_view(x: PartitionView, y: PartitionView, r1: Seq<u8>, r2: Seq<u8>)
    requires
        partition_view_emit(x).error is None,
        partition_view_emit(y).error is None,
        partition_view_emit(x).bytes + r1 == partition_view_emit(y).bytes + r2,
    ensures
        r1 == r2,
{
    lemma_partition_shape(x, r1);
    lemma_partition_shape(y, r2);
    lemma_split(seq![partition_tag(x)], partition_rest(x).bytes + r1, seq![partition_tag(y)], partition_rest(y).bytes + r2);
    assert(seq![partition_tag(x)][0] == seq![partition_tag(y)][0]);
    let t1 = partition_rest(x).bytes + r1;
    let t2 = partition_rest(y).bytes + r2;
    match x {
        PartitionView::RetainAll => {
            assert(t1 =~= r1);
            assert(t2 =~= r2);
        },
        PartitionView::ReleaseAll { branch } => {
            lemma_read_string(CanonicalField::PartitionBranchIdentity, branch@, CanonicalField::PartitionBranchIdentity, y->ReleaseAll_branch@, r1, r2);
        },
        PartitionView::ExogenousSeries { branch, series } => {
            let b2 = y->ExogenousSeries_branch;
            let s2 = y->series;
            let bx = then(emit(seq![spec_expression_kind_tag(series.value_kind)]), string_emit(CanonicalField::RuleForcingIdentity, series.id@));
            let by = then(emit(seq![spec_expression_kind_tag(s2.value_kind)]), string_emit(CanonicalField::RuleForcingIdentity, s2.id@));
            lemma_then_bytes(string_emit(CanonicalField::PartitionBranchIdentity, branch@), bx, r1);
            lemma_then_bytes(string_emit(CanonicalField::PartitionBranchIdentity, b2@), by, r2);
            lemma_read_string(CanonicalField::PartitionBranchIdentity, branch@, CanonicalField::PartitionBranchIdentity, b2@, bx.bytes + r1, by.bytes + r2);
            lemma_read_head(
                seq![spec_expression_kind_tag(series.value_kind)],
                string_emit(CanonicalField::RuleForcingIdentity, series.id@),
                seq![spec_expression_kind_tag(s2.value_kind)],
                string_emit(CanonicalField::RuleForcingIdentity, s2.id@),
                r1,
                r2,
            );
            lemma_read_string(CanonicalField::RuleForcingIdentity, series.id@, CanonicalField::RuleForcingIdentity, s2.id@, r1, r2);
        },
        PartitionView::ConstantFractionTransfer { branch, fraction_bits } => {
            let b2 = y->ConstantFractionTransfer_branch;
            let f2 = y->ConstantFractionTransfer_fraction_bits;
            let bx = scalar_emit(CanonicalField::PartitionFraction, fraction_bits);
            let by = scalar_emit(CanonicalField::PartitionFraction, f2);
            lemma_then_bytes(string_emit(CanonicalField::PartitionBranchIdentity, branch@), bx, r1);
            lemma_then_bytes(string_emit(CanonicalField::PartitionBranchIdentity, b2@), by, r2);
            lemma_read_string(CanonicalField::PartitionBranchIdentity, branch@, CanonicalField::PartitionBranchIdentity, b2@, bx.bytes + r1, by.bytes + r2);
            lemma_read_scalar(CanonicalField::PartitionFraction, fraction_bits, CanonicalField::PartitionFraction, f2, r1, r2);
        },
        PartitionView::FixedFractionSplit { branches } => {
            let b2 = y->FixedFractionSplit_branches;
            lemma_fraction_branches_readable();
            assert(branches@.len() == branches.len() && b2@.len() == b2.len());
            lemma_read_counted(CanonicalField::PartitionBranches, branches@, CanonicalField::PartitionBranches, b2@, fraction_branch_emitter(), encoding_of(fraction_branch_emitter()), r1, r2);
        },
        PartitionView::ExpressionPartition { branches } => {
            let b2 = y->ExpressionPartition_branches;
            lemma_expression_branches_readable();
            assert(branches@.len() == branches.len() && b2@.len() == b2.len());
            lemma_read_counted(CanonicalField::PartitionBranches, branches@, CanonicalField::PartitionBranches, b2@, expression_branch_emitter(), encoding_of(expression_branch_emitter()), r1, r2);
        },
        PartitionView::CarrierProportional { carrier, branches } => {
            let c2 = y->carrier;
            let b2 = y->CarrierProportional_branches;
            let ex = emit_counted(CanonicalField::PartitionBranches, branches@, carrier_branch_emitter());
            let ey = emit_counted(CanonicalField::PartitionBranches, b2@, carrier_branch_emitter());
            lemma_then_bytes(string_emit(CanonicalField::PartitionCarrierSubstance, carrier@), ex, r1);
            lemma_then_bytes(string_emit(CanonicalField::PartitionCarrierSubstance, c2@), ey, r2);
            lemma_read_string(CanonicalField::PartitionCarrierSubstance, carrier@, CanonicalField::PartitionCarrierSubstance, c2@, ex.bytes + r1, ey.bytes + r2);
            lemma_carrier_branches_readable();
            assert(branches@.len() == branches.len() && b2@.len() == b2.len());
            lemma_read_counted(CanonicalField::PartitionBranches, branches@, CanonicalField::PartitionBranches, b2@, carrier_branch_emitter(), encoding_of(carrier_branch_emitter()), r1, r2);
        },
    }
}

// ---------------------------------------------------------------------------------------------
// Rules, bindings and units
// ---------------------------------------------------------------------------------------------

/// What the bytes of a rule parameter keep: its identity and its value up to the sign of zero.
pub open spec fn parameter_view() -> spec_fn((Ident, u64)) -> (Seq<u8>, u64) {
    |p: (Ident, u64)| (p.0@, canonical_scalar_bits(p.1))
}

/// What the bytes of a rule keep: its coordinate, the encodings of its expression and
/// partition, and its parameters.
pub open spec fn rule_view() -> spec_fn((RuleCoordinate, RuleDefinition)) -> (Seq<u8>, Seq<u8>, Seq<u8>, Seq<u8>, Seq<(Seq<u8>, u64)>) {
    |e: (RuleCoordinate, RuleDefinition)|
        (
            e.1.spec_compartment()@,
            e.1.spec_substance()@,
            expression_emit(e.1.spec_expression()).bytes,
            partition_emit(e.1.spec_disposition()).bytes,
            e.1.spec_parameters().map_values(parameter_view()),
        )
}

/// What the bytes of a transfer binding keep: its coordinate and destination.
pub open spec fn transfer_view() -> spec_fn(TransferBranchBinding) -> (Seq<u8>, Seq<u8>, Seq<u8>, Seq<u8>) {
    |b: TransferBranchBinding| (b.compartment@, b.substance@, b.branch@, b.destination@)
}

/// What the bytes of a unit declaration keep: its substance, unit identity and quantum up to the
/// sign of zero.
pub open spec fn unit_view() -> spec_fn((Ident, (Ident, SubstanceUnit))) -> (Seq<u8>, Seq<u8>, u64) {
    |e: (Ident, (Ident, SubstanceUnit))| (e.1.0@, e.1.1.spec_unit(), canonical_scalar_bits(e.1.1.spec_quantum().spec_bits()))
}

proof fn lemma_parameters_readable()
    ensures
        readable(parameter_emitter(), parameter_view()),
{
    let f = parameter_emitter();
    assert forall|x: (Ident, u64), y: (Ident, u64), r1: Seq<u8>, r2: Seq<u8>|
        #![trigger f(x).bytes + r1, f(y).bytes + r2]
        f(x).error is None && f(y).error is None && f(x).bytes + r1 == f(y).bytes + r2 implies parameter_view()(x)
            == parameter_view()(y) && r1 == r2 by {
        let bx = scalar_emit(CanonicalField::ArtifactParameterValue, x.1);
        let by = scalar_emit(CanonicalField::ArtifactParameterValue, y.1);
        lemma_then_bytes(string_emit(CanonicalField::ArtifactParameterIdentity, x.0@), bx, r1);
        lemma_then_bytes(string_emit(CanonicalField::ArtifactParameterIdentity, y.0@), by, r2);
        lemma_read_string(CanonicalField::ArtifactParameterIdentity, x.0@, CanonicalField::ArtifactParameterIdentity, y.0@, bx.bytes + r1, by.bytes + r2);
        lemma_read_scalar(CanonicalField::ArtifactParameterValue, x.1, CanonicalField::ArtifactParameterValue, y.1, r1, r2);
    }
}

/// The framed encoding of an expression is prefix free.
proof fn lemma_read_expression(x: crate::rule_expression::RuleExpr, y: crate::rule_expression::RuleExpr, r1: Seq<u8>, r2: Seq<u8>)
    requires
        expression_emit(x).error is None,
        expression_emit(y).error is None,
        expression_emit(x).bytes + r1 == expression_emit(y).bytes + r2,
    ensures
        expression_emit(x).bytes == expression_emit(y).bytes,
        r1 == r2,
{
    lemma_read_head(
        be_u16(1) + be_u16(numerical_version_number(x.numerical_semantics_version)),
        node_emit(x.node),
        be_u16(1) + be_u16(numerical_version_number(y.numerical_semantics_version)),
        node_emit(y.node),
        r1,
        r2,
    );
    lemma_read_node(x.node, y.node, r1, r2);
    lemma_cancel_tail(expression_emit(x).bytes, expression_emit(y).bytes, r1);
}

/// The framed encoding of a partition is prefix free.
proof fn lemma_read_partition(x: PartitionExpr, y: PartitionExpr, r1: Seq<u8>, r2: Seq<u8>)
    requires
        partition_emit(x).error is None,
        partition_emit(y).error is None,
        partition_emit(x).bytes + r1 == partition_emit(y).bytes + r2,
    ensures
        partition_emit(x).bytes == partition_emit(y).bytes,
        r1 == r2,
{
    lemma_read_head(
        be_u16(1) + be_u16(numerical_version_number(x.numerical_semantics_version)),
        partition_view_emit(x.view),
        be_u16(1) + be_u16(numerical_version_number(y.numerical_semantics_version)),
        partition_view_emit(y.view),
        r1,
        r2,
    );
    lemma_read_partition_view(x.view, y.view, r1, r2);
    lemma_cancel_tail(partition_emit(x).bytes, partition_emit(y).bytes, r1);
}

#[verifier::spinoff_prover]
#[verifier::rlimit(50)]
proof fn lemma_rules_readable()
    ensures
        readable(rule_entry_emitter(), rule_view()),
{
    let f = rule_entry_emitter();
    assert forall|x: (RuleCoordinate, RuleDefinition), y: (RuleCoordinate, RuleDefinition), r1: Seq<u8>, r2: Seq<u8>|
        #![trigger f(x).bytes + r1, f(y).bytes + r2]
        f(x).error is None && f(y).error is None && f(x).bytes + r1 == f(y).bytes + r2 implies rule_view()(x)
            == rule_view()(y) && r1 == r2 by {
        let a = x.1;
        let b = y.1;
        let pa = emit_counted(CanonicalField::ArtifactParameters, a.spec_parameters(), parameter_emitter());
        let pb = emit_counted(CanonicalField::ArtifactParameters, b.spec_parameters(), parameter_emitter());
        let da = then(partition_emit(a.spec_disposition()), pa);
        let db = then(partition_emit(b.spec_disposition()), pb);
        let ea = then(expression_emit(a.spec_expression()), da);
        let eb = then(expression_emit(b.spec_expression()), db);
        let sa = then(string_emit(CanonicalField::ArtifactRuleSubstance, a.spec_substance()@), ea);
        let sb = then(string_emit(CanonicalField::ArtifactRuleSubstance, b.spec_substance()@), eb);
        lemma_then_bytes(string_emit(CanonicalField::ArtifactRuleCompartment, a.spec_compartment()@), sa, r1);
        lemma_then_bytes(string_emit(CanonicalField::ArtifactRuleCompartment, b.spec_compartment()@), sb, r2);
        lemma_read_string(
            CanonicalField::ArtifactRuleCompartment,
            a.spec_compartment()@,
            CanonicalField::ArtifactRuleCompartment,
            b.spec_compartment()@,
            sa.bytes + r1,
            sb.bytes + r2,
        );
        lemma_then_bytes(string_emit(CanonicalField::ArtifactRuleSubstance, a.spec_substance()@), ea, r1);
        lemma_then_bytes(string_emit(CanonicalField::ArtifactRuleSubstance, b.spec_substance()@), eb, r2);
        lemma_read_string(
            CanonicalField::ArtifactRuleSubstance,
            a.spec_substance()@,
            CanonicalField::ArtifactRuleSubstance,
            b.spec_substance()@,
            ea.bytes + r1,
            eb.bytes + r2,
        );
        lemma_then_bytes(expression_emit(a.spec_expression()), da, r1);
        lemma_then_bytes(expression_emit(b.spec_expression()), db, r2);
        lemma_read_expression(a.spec_expression(), b.spec_expression(), da.bytes + r1, db.bytes + r2);
        lemma_then_bytes(partition_emit(a.spec_disposition()), pa, r1);
        lemma_then_bytes(partition_emit(b.spec_disposition()), pb, r2);
        lemma_read_partition(a.spec_disposition(), b.spec_disposition(), pa.bytes + r1, pb.bytes + r2);
        lemma_parameters_readable();
        a.lemma_parameters_fit();
        b.lemma_parameters_fit();
        lemma_read_counted(
            CanonicalField::ArtifactParameters,
            a.spec_parameters(),
            CanonicalField::ArtifactParameters,
            b.spec_parameters(),
            parameter_emitter(),
            parameter_view(),
            r1,
            r2,
        );
        assert(a.spec_parameters().map_values(parameter_view()) =~= b.spec_parameters().map_values(parameter_view()));
    }
}

proof fn lemma_transfers_readable()
    ensures
        readable(transfer_binding_emitter(), transfer_view()),
{
    let f = transfer_binding_emitter();
    assert forall|x: TransferBranchBinding, y: TransferBranchBinding, r1: Seq<u8>, r2: Seq<u8>|
        #![trigger f(x).bytes + r1, f(y).bytes + r2]
        f(x).error is None && f(y).error is None && f(x).bytes + r1 == f(y).bytes + r2 implies transfer_view()(x)
            == transfer_view()(y) && r1 == r2 by {
        let dx = string_emit(CanonicalField::ArtifactTransferBindingDestination, x.destination@);
        let dy = string_emit(CanonicalField::ArtifactTransferBindingDestination, y.destination@);
        let bx = then(string_emit(CanonicalField::ArtifactTransferBindingBranch, x.branch@), dx);
        let by = then(string_emit(CanonicalField::ArtifactTransferBindingBranch, y.branch@), dy);
        let sx = then(string_emit(CanonicalField::ArtifactTransferBindingSubstance, x.substance@), bx);
        let sy = then(string_emit(CanonicalField::ArtifactTransferBindingSubstance, y.substance@), by);
        lemma_then_bytes(string_emit(CanonicalField::ArtifactTransferBindingCompartment, x.compartment@), sx, r1);
        lemma_then_bytes(string_emit(CanonicalField::ArtifactTransferBindingCompartment, y.compartment@), sy, r2);
        lemma_read_string(CanonicalField::ArtifactTransferBindingCompartment, x.compartment@, CanonicalField::ArtifactTransferBindingCompartment, y.compartment@, sx.bytes + r1, sy.bytes + r2);
        lemma_then_bytes(string_emit(CanonicalField::ArtifactTransferBindingSubstance, x.substance@), bx, r1);
        lemma_then_bytes(string_emit(CanonicalField::ArtifactTransferBindingSubstance, y.substance@), by, r2);
        lemma_read_string(CanonicalField::ArtifactTransferBindingSubstance, x.substance@, CanonicalField::ArtifactTransferBindingSubstance, y.substance@, bx.bytes + r1, by.bytes + r2);
        lemma_then_bytes(string_emit(CanonicalField::ArtifactTransferBindingBranch, x.branch@), dx, r1);
        lemma_then_bytes(string_emit(CanonicalField::ArtifactTransferBindingBranch, y.branch@), dy, r2);
        lemma_read_string(CanonicalField::ArtifactTransferBindingBranch, x.branch@, CanonicalField::ArtifactTransferBindingBranch, y.branch@, dx.bytes + r1, dy.bytes + r2);
        lemma_read_string(CanonicalField::ArtifactTransferBindingDestination, x.destination@, CanonicalField::ArtifactTransferBindingDestination, y.destination@, r1, r2);
    }
}

/// The encoding of an input source is prefix free.
proof fn lemma_read_input_source(x: RuleInputSource, y: RuleInputSource, r1: Seq<u8>, r2: Seq<u8>)
    requires
        input_source_emit(x).error is None,
        input_source_emit(y).error is None,
        input_source_emit(x).bytes + r1 == input_source_emit(y).bytes + r2,
    ensures
        r1 == r2,
{
    let tx: u8 = match x {
        RuleInputSource::Forcing(_) => 0u8,
        RuleInputSource::InterpolationTable(_) => 1u8,
        RuleInputSource::Projection(_) => 2u8,
    };
    let ty: u8 = match y {
        RuleInputSource::Forcing(_) => 0u8,
        RuleInputSource::InterpolationTable(_) => 1u8,
        RuleInputSource::Projection(_) => 2u8,
    };
    let field = CanonicalField::ArtifactInputSourceIdentity;
    let rx = match x {
        RuleInputSource::Forcing(r) => string_emit(field, r.id@),
        RuleInputSource::InterpolationTable(r) => string_emit(field, r.id@),
        RuleInputSource::Projection(r) => then(string_emit(field, r.id@), emit(seq![spec_projection_kind_tag(r.value_kind)])),
    };
    let ry = match y {
        RuleInputSource::Forcing(r) => string_emit(field, r.id@),
        RuleInputSource::InterpolationTable(r) => string_emit(field, r.id@),
        RuleInputSource::Projection(r) => then(string_emit(field, r.id@), emit(seq![spec_projection_kind_tag(r.value_kind)])),
    };
    assert(input_source_emit(x) == then(emit(seq![tx]), rx));
    assert(input_source_emit(y) == then(emit(seq![ty]), ry));
    lemma_read_head(seq![tx], rx, seq![ty], ry, r1, r2);
    assert(seq![tx][0] == seq![ty][0]);
    match x {
        RuleInputSource::Forcing(a) => {
            lemma_read_string(field, a.id@, field, y->Forcing_0.id@, r1, r2);
        },
        RuleInputSource::InterpolationTable(a) => {
            lemma_read_string(field, a.id@, field, y->InterpolationTable_0.id@, r1, r2);
        },
        RuleInputSource::Projection(a) => {
            let b = y->Projection_0;
            let kx = emit(seq![spec_projection_kind_tag(a.value_kind)]);
            let ky = emit(seq![spec_projection_kind_tag(b.value_kind)]);
            lemma_then_bytes(string_emit(field, a.id@), kx, r1);
            lemma_then_bytes(string_emit(field, b.id@), ky, r2);
            lemma_read_string(field, a.id@, field, b.id@, kx.bytes + r1, ky.bytes + r2);
            lemma_split(kx.bytes, r1, ky.bytes, r2);
        },
    }
}

proof fn lemma_inputs_readable()
    ensures
        readable(input_binding_emitter(), encoding_of(input_binding_emitter())),
{
    let f = input_binding_emitter();
    assert forall|x: RuleInputBinding, y: RuleInputBinding, r1: Seq<u8>, r2: Seq<u8>|
        #![trigger f(x).bytes + r1, f(y).bytes + r2]
        f(x).error is None && f(y).error is None && f(x).bytes + r1 == f(y).bytes + r2 implies r1 == r2 by {
        let kx = then(emit(seq![spec_expression_kind_tag(x.reference.value_kind)]), input_source_emit(x.source));
        let ky = then(emit(seq![spec_expression_kind_tag(y.reference.value_kind)]), input_source_emit(y.source));
        let ix = then(string_emit(CanonicalField::ArtifactInputBindingIdentity, x.reference.id@), kx);
        let iy = then(string_emit(CanonicalField::ArtifactInputBindingIdentity, y.reference.id@), ky);
        let sx = then(string_emit(CanonicalField::ArtifactInputBindingSubstance, x.substance@), ix);
        let sy = then(string_emit(CanonicalField::ArtifactInputBindingSubstance, y.substance@), iy);
        lemma_then_bytes(string_emit(CanonicalField::ArtifactInputBindingCompartment, x.compartment@), sx, r1);
        lemma_then_bytes(string_emit(CanonicalField::ArtifactInputBindingCompartment, y.compartment@), sy, r2);
        lemma_read_string(CanonicalField::ArtifactInputBindingCompartment, x.compartment@, CanonicalField::ArtifactInputBindingCompartment, y.compartment@, sx.bytes + r1, sy.bytes + r2);
        lemma_then_bytes(string_emit(CanonicalField::ArtifactInputBindingSubstance, x.substance@), ix, r1);
        lemma_then_bytes(string_emit(CanonicalField::ArtifactInputBindingSubstance, y.substance@), iy, r2);
        lemma_read_string(CanonicalField::ArtifactInputBindingSubstance, x.substance@, CanonicalField::ArtifactInputBindingSubstance, y.substance@, ix.bytes + r1, iy.bytes + r2);
        lemma_then_bytes(string_emit(CanonicalField::ArtifactInputBindingIdentity, x.reference.id@), kx, r1);
        lemma_then_bytes(string_emit(CanonicalField::ArtifactInputBindingIdentity, y.reference.id@), ky, r2);
        lemma_read_string(CanonicalField::ArtifactInputBindingIdentity, x.reference.id@, CanonicalField::ArtifactInputBindingIdentity, y.reference.id@, kx.bytes + r1, ky.bytes + r2);
        lemma_read_head(
            seq![spec_expression_kind_tag(x.reference.value_kind)],
            input_source_emit(x.source),
            seq![spec_expression_kind_tag(y.reference.value_kind)],
            input_source_emit(y.source),
            r1,
            r2,
        );
        lemma_read_input_source(x.source, y.source, r1, r2);
    }
    lemma_prefix_free_readable(f);
}

proof fn lemma_units_readable()
    ensures
        readable(unit_emitter(), unit_view()),
{
    let f = unit_emitter();
    assert forall|x: (Ident, (Ident, SubstanceUnit)), y: (Ident, (Ident, SubstanceUnit)), r1: Seq<u8>, r2: Seq<u8>|
        #![trigger f(x).bytes + r1, f(y).bytes + r2]
        f(x).error is None && f(y).error is None && f(x).bytes + r1 == f(y).bytes + r2 implies unit_view()(x)
            == unit_view()(y) && r1 == r2 by {
        let qx = scalar_emit(CanonicalField::ArtifactUnitQuantum, x.1.1.spec_quantum().spec_bits());
        let qy = scalar_emit(CanonicalField::ArtifactUnitQuantum, y.1.1.spec_quantum().spec_bits());
        let ux = then(string_emit(CanonicalField::ArtifactUnitIdentity, x.1.1.spec_unit()), qx);
        let uy = then(string_emit(CanonicalField::ArtifactUnitIdentity, y.1.1.spec_unit()), qy);
        lemma_then_bytes(string_emit(CanonicalField::ArtifactUnitSubstance, x.1.0@), ux, r1);
        lemma_then_bytes(string_emit(CanonicalField::ArtifactUnitSubstance, y.1.0@), uy, r2);
        lemma_read_string(CanonicalField::ArtifactUnitSubstance, x.1.0@, CanonicalField::ArtifactUnitSubstance, y.1.0@, ux.bytes + r1, uy.bytes + r2);
        lemma_then_bytes(string_emit(CanonicalField::ArtifactUnitIdentity, x.1.1.spec_unit()), qx, r1);
        lemma_then_bytes(string_emit(CanonicalField::ArtifactUnitIdentity, y.1.1.spec_unit()), qy, r2);
        lemma_read_string(CanonicalField::ArtifactUnitIdentity, x.1.1.spec_unit(), CanonicalField::ArtifactUnitIdentity, y.1.1.spec_unit(), qx.bytes + r1, qy.bytes + r2);
        lemma_read_scalar(
            CanonicalField::ArtifactUnitQuantum,
            x.1.1.spec_quantum().spec_bits(),
            CanonicalField::ArtifactUnitQuantum,
            y.1.1.spec_quantum().spec_bits(),
            r1,
            r2,
        );
    }
}

/// Artifacts with the same canonical bytes hold the same body: rules with the same coordinates, expression and partition
/// encodings and parameters (values up to the sign of zero), in the same order; the same
/// transfer bindings; input bindings with the same encodings; and the same unit declarations,
/// quanta up to the sign of zero. So a changed quantum, parameter, partition or binding changes
/// the canonical bytes.
pub proof fn lemma_canonical_bytes_determine_body(a: ModelArtifact, b: ModelArtifact)
    requires
        a.wf(),
        b.wf(),
        a.spec_canonical_bytes() == b.spec_canonical_bytes(),
    ensures
        a.spec_rules().len() == b.spec_rules().len(),
        forall|q: int| 0 <= q < a.spec_rules().len() ==> rule_view()(#[trigger] a.spec_rules()[q]) == rule_view()(b.spec_rules()[q]),
        a.spec_execution_bindings().transfer_bindings@.map_values(transfer_view())
            == b.spec_execution_bindings().transfer_bindings@.map_values(transfer_view()),
        a.spec_execution_bindings().input_bindings@.len() == b.spec_execution_bindings().input_bindings@.len(),
        forall|i: int|
            0 <= i < a.spec_execution_bindings().input_bindings@.len() ==> input_binding_emitter()(
                #[trigger] a.spec_execution_bindings().input_bindings@[i],
            ).bytes == input_binding_emitter()(b.spec_execution_bindings().input_bindings@[i]).bytes,
        a.spec_units().map_values(unit_view()) == b.spec_units().map_values(unit_view()),
{
    crate::catalogue_reading::lemma_canonical_bytes_determine_catalogues(a, b);
    a.lemma_lengths_fit();
    b.lemma_lengths_fit();
    let ta = a.spec_execution_bindings().transfer_bindings;
    let tb = b.spec_execution_bindings().transfer_bindings;
    let ia = a.spec_execution_bindings().input_bindings;
    let ib = b.spec_execution_bindings().input_bindings;
    assert(ta@.len() == ta.len() && tb@.len() == tb.len() && ia@.len() == ia.len() && ib@.len() == ib.len());
    let ua = emit_counted(CanonicalField::ArtifactUnits, a.spec_units(), unit_emitter());
    let ub = emit_counted(CanonicalField::ArtifactUnits, b.spec_units(), unit_emitter());
    let na = then(emit_counted(CanonicalField::ArtifactInputBindings, ia@, input_binding_emitter()), ua);
    let nb = then(emit_counted(CanonicalField::ArtifactInputBindings, ib@, input_binding_emitter()), ub);
    let xa = then(emit_counted(CanonicalField::ArtifactTransferBindings, ta@, transfer_binding_emitter()), na);
    let xb = then(emit_counted(CanonicalField::ArtifactTransferBindings, tb@, transfer_binding_emitter()), nb);
    let ra = emit_counted(CanonicalField::ArtifactRules, a.spec_rules(), rule_entry_emitter());
    let rb = emit_counted(CanonicalField::ArtifactRules, b.spec_rules(), rule_entry_emitter());
    let empty = Seq::<u8>::empty();
    lemma_then_bytes(ra, xa, empty);
    lemma_then_bytes(rb, xb, empty);
    lemma_rules_readable();
    lemma_read_counted(
        CanonicalField::ArtifactRules,
        a.spec_rules(),
        CanonicalField::ArtifactRules,
        b.spec_rules(),
        rule_entry_emitter(),
        rule_view(),
        xa.bytes + empty,
        xb.bytes + empty,
    );
    lemma_then_bytes(emit_counted(CanonicalField::ArtifactTransferBindings, ta@, transfer_binding_emitter()), na, empty);
    lemma_then_bytes(emit_counted(CanonicalField::ArtifactTransferBindings, tb@, transfer_binding_emitter()), nb, empty);
    lemma_transfers_readable();
    lemma_read_counted(
        CanonicalField::ArtifactTransferBindings,
        ta@,
        CanonicalField::ArtifactTransferBindings,
        tb@,
        transfer_binding_emitter(),
        transfer_view(),
        na.bytes + empty,
        nb.bytes + empty,
    );
    assert(ta@.map_values(transfer_view()) =~= tb@.map_values(transfer_view()));
    lemma_then_bytes(emit_counted(CanonicalField::ArtifactInputBindings, ia@, input_binding_emitter()), ua, empty);
    lemma_then_bytes(emit_counted(CanonicalField::ArtifactInputBindings, ib@, input_binding_emitter()), ub, empty);
    lemma_inputs_readable();
    lemma_read_counted(
        CanonicalField::ArtifactInputBindings,
        ia@,
        CanonicalField::ArtifactInputBindings,
        ib@,
        input_binding_emitter(),
        encoding_of(input_binding_emitter()),
        ua.bytes + empty,
        ub.bytes + empty,
    );
    lemma_units_readable();
    lemma_read_counted(
        CanonicalField::ArtifactUnits,
        a.spec_units(),
        CanonicalField::ArtifactUnits,
        b.spec_units(),
        unit_emitter(),
        unit_view(),
        empty,
        empty,
    );
    assert(a.spec_units().map_values(unit_view()) =~= b.spec_units().map_values(unit_view()));
}

/// Artifacts with the same canonical bytes hold the same content: the same versions, calendar
/// and horizon; topology, registry and initial stocks with the same identities and amounts;
/// catalogues with the same encodings; and the same body, as
/// `lemma_canonical_bytes_determine_header`, `lemma_canonical_bytes_determine_catalogues` and
/// `lemma_canonical_bytes_determine_body` state part by part. Scalars (amounts, parameter values,
/// quanta) are recovered as their canonical bit patterns, so the two zeros are not told apart.
pub proof fn lemma_canonical_bytes_determine_content(a: ModelArtifact, b: ModelArtifact)
    requires
        a.wf(),
        b.wf(),
        a.spec_canonical_bytes() == b.spec_canonical_bytes(),
    ensures
        a.spec_versions() == b.spec_versions(),
        a.spec_calendar() == b.spec_calendar(),
        a.spec_horizon() == b.spec_horizon(),
        crate::reading::topology_view(a.spec_topology()) == crate::reading::topology_view(b.spec_topology()),
        crate::substance_registry::id_views(a.spec_registry().members@) == crate::substance_registry::id_views(b.spec_registry().members@),
        crate::reading::stocks_view(a.spec_initial_stocks()) == crate::reading::stocks_view(b.spec_initial_stocks()),
        a.spec_projections().specifications@.len() == b.spec_projections().specifications@.len(),
        forall|i: int|
            0 <= i < a.spec_projections().specifications@.len() ==> crate::component_encoding::projection_spec_emit(
                #[trigger] a.spec_projections().specifications@[i],
            ).bytes == crate::component_encoding::projection_spec_emit(b.spec_projections().specifications@[i]).bytes,
        a.spec_projections().initial_states@.len() == b.spec_projections().initial_states@.len(),
        forall|i: int|
            0 <= i < a.spec_projections().initial_states@.len() ==> crate::component_encoding::projector_state_emit(
                #[trigger] a.spec_projections().initial_states@[i],
            ).bytes == crate::component_encoding::projector_state_emit(b.spec_projections().initial_states@[i]).bytes,
        a.spec_forcings().len() == b.spec_forcings().len(),
        forall|i: int| 0 <= i < a.spec_forcings().len() ==> crate::forcing::forcing_emit((#[trigger] a.spec_forcings()[i]).1).bytes == crate::forcing::forcing_emit(b.spec_forcings()[i].1).bytes,
        a.spec_tables().len() == b.spec_tables().len(),
        forall|i: int| 0 <= i < a.spec_tables().len() ==> crate::interpolation_table::table_emit((#[trigger] a.spec_tables()[i]).1).bytes == crate::interpolation_table::table_emit(b.spec_tables()[i].1).bytes,
        a.spec_rules().len() == b.spec_rules().len(),
        forall|q: int| 0 <= q < a.spec_rules().len() ==> rule_view()(#[trigger] a.spec_rules()[q]) == rule_view()(b.spec_rules()[q]),
        a.spec_execution_bindings().transfer_bindings@.map_values(transfer_view())
            == b.spec_execution_bindings().transfer_bindings@.map_values(transfer_view()),
        a.spec_execution_bindings().input_bindings@.len() == b.spec_execution_bindings().input_bindings@.len(),
        forall|i: int|
            0 <= i < a.spec_execution_bindings().input_bindings@.len() ==> input_binding_emitter()(
                #[trigger] a.spec_execution_bindings().input_bindings@[i],
            ).bytes == input_binding_emitter()(b.spec_execution_bindings().input_bindings@[i]).bytes,
        a.spec_units().map_values(unit_view()) == b.spec_units().map_values(unit_view()),
{
    crate::reading::lemma_canonical_bytes_determine_header(a, b);
    crate::catalogue_reading::lemma_canonical_bytes_determine_catalogues(a, b);
    lemma_canonical_bytes_determine_body(a, b);
}

/// A changed unit precision or carrier mapping changes the identity's bytes: artifacts whose unit
/// declarations differ (in substance, unit identity or quantum bits, beyond the sign of zero),
/// or whose rules differ in coordinate, expression, partition or parameters, do not have the
/// same canonical bytes.
pub proof fn lemma_changed_precision_or_mapping_changes_bytes(a: ModelArtifact, b: ModelArtifact)
    requires
        a.wf(),
        b.wf(),
        a.spec_units().map_values(unit_view()) != b.spec_units().map_values(unit_view())
            || a.spec_rules().len() != b.spec_rules().len()
            || exists|q: int| 0 <= q < a.spec_rules().len() && rule_view()(#[trigger] a.spec_rules()[q]) != rule_view()(b.spec_rules()[q]),
    ensures
        a.spec_canonical_bytes() != b.spec_canonical_bytes(),
{
    if a.spec_canonical_bytes() == b.spec_canonical_bytes() {
        lemma_canonical_bytes_determine_body(a, b);
    }
}

} // verus!
