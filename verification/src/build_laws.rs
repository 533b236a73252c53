//! What a built artifact guarantees of the builder it was built from: every reference its rules,
//! bindings and projections make is to something the builder holds.

use vstd::prelude::*;
use crate::artifact::ModelArtifact;
use crate::artifact_builder::{
    arranges, build_outcome, early_outcome, final_holds, forcing_id, forcing_key, ids_of, keyed_by, late_holds,
    lemma_first_error_all_ok, listed_value, mapped_value, positions, projection_check, rule_check, rule_coordinate,
    rule_key, table_id, table_key, unit_key, unit_substance, ModelArtifactBuilder, QuantumCount,
};
use crate::binding_validation::{
    and_then, binding_stages_outcome, carrier_branch_check, carrier_check, entry_at, first_error, input_check,
    input_known, input_source_outcome, lemma_bound_input, lemma_coordinate_key, rule_binding_check,
};
use crate::canonical_order::{bytes_lt, lemma_bytes_lt_irreflexive, lemma_bytes_lt_total, lemma_bytes_lt_transitive};
use crate::execution_bindings::{binds_input, binds_transfer, bound_destination, bound_input, RuleInputSource};
use crate::forcing::ForcingSeries;
use crate::identity::{Ident, RuleCoordinate};
use crate::interpolation_table::InterpolationTable;
use crate::model_artifact::{RuleDefinition, SubstanceUnit};
use crate::partition_expression::PartitionView;
use crate::projection::{
    AuthoritativeFactSelector, ProjectionSource, ProjectionSpec, ProjectionSpecView, RecurrenceInputSource,
};
use crate::projection_validation::{recurrence_input_check, selector_outcome, selectors_outcome, source_outcome};
use crate::reference_validation::{missing_from, rule_reference_outcome};
use crate::reordering::lemma_positions_pass;
use crate::rule_expression::ExprNode;
use crate::rule_references::{branches_refs, first_failing, least_failing, node_refs, partition_refs, rule_refs, RefKind};

verus! {

/// The canonical arrangements a successful build made of the builder's lists, and the checks
/// they passed.
proof fn lemma_built_parts(b: ModelArtifactBuilder, counts: Seq<Seq<QuantumCount>>, a: ModelArtifact) -> (parts: (
    Seq<(Ident, ForcingSeries)>,
    Seq<(Ident, InterpolationTable)>,
    Seq<(RuleCoordinate, RuleDefinition)>,
))
    requires
        build_outcome(b, counts, Ok(a)),
    ensures
        early_outcome(b) is Ok,
        b.spec_projections() is Some,
        arranges(parts.2, b.spec_rules(), rule_key()),
        keyed_by(parts.2, rule_coordinate()),
        binding_stages_outcome(
            parts.2,
            b.spec_execution_bindings(),
            b.spec_topology(),
            ids_of(b.spec_forcings(), forcing_key()),
            ids_of(b.spec_tables(), table_key()),
            b.spec_projections()->Some_0.specifications@,
        ) is Ok,
        first_error(parts.2, carrier_check(b.spec_registry(), parts.2, b.spec_execution_bindings())) is Ok,
        a.spec_rules() == parts.2,
        a.spec_topology() == b.spec_topology(),
{
    assert(early_outcome(b) is Ok);
    let p = b.spec_projections()->Some_0;
    let (fm, tm, m) = choose|
        fm: Seq<(Ident, ForcingSeries)>,
        tm: Seq<(Ident, InterpolationTable)>,
        m: Seq<(RuleCoordinate, RuleDefinition)>,
    |
        arranges(fm, b.spec_forcings(), forcing_key()) && keyed_by(fm, forcing_id()) && arranges(
            tm,
            b.spec_tables(),
            table_key(),
        ) && keyed_by(tm, table_id()) && arranges(m, b.spec_rules(), rule_key()) && keyed_by(m, rule_coordinate())
            && #[trigger] late_holds(b, p, fm, tm, m, counts, Ok(a));
    assert(late_holds(b, p, fm, tm, m, counts, Ok(a)));
    let um = choose|um: Seq<(Ident, (Ident, SubstanceUnit))>|
        arranges(um, b.spec_units(), unit_key()) && keyed_by(um, unit_substance()) && #[trigger] final_holds(
            b,
            p,
            fm,
            tm,
            m,
            um,
            counts,
            Ok(a),
        );
    assert(final_holds(b, p, fm, tm, m, um, counts, Ok(a)));
    (fm, tm, m)
}

/// Every rule of the builder passed its own checks.
proof fn lemma_rule_checked(b: ModelArtifactBuilder, counts: Seq<Seq<QuantumCount>>, a: ModelArtifact, i: int)
    requires
        build_outcome(b, counts, Ok(a)),
        0 <= i < b.spec_rules().len(),
    ensures
        b.spec_projections() is Some,
        rule_check(
            b.spec_rules(),
            b.spec_topology(),
            b.spec_registry(),
            b.spec_versions(),
            ids_of(b.spec_forcings(), forcing_key()),
            ids_of(b.spec_tables(), table_key()),
            b.spec_projections()->Some_0.specifications@,
        )(i) is Ok,
{
    lemma_built_parts(b, counts, a);
    let check = rule_check(
        b.spec_rules(),
        b.spec_topology(),
        b.spec_registry(),
        b.spec_versions(),
        ids_of(b.spec_forcings(), forcing_key()),
        ids_of(b.spec_tables(), table_key()),
        b.spec_projections()->Some_0.specifications@,
    );
    lemma_positions_pass(b.spec_rules().len(), check);
    assert(check(i) is Ok);
}

/// A finite set holding a failing member holds a least failing member.
proof fn lemma_least_failing_exists(s: Set<Seq<u8>>, fails: spec_fn(Seq<u8>) -> bool, x: Seq<u8>)
    requires
        s.finite(),
        s.contains(x),
        fails(x),
    ensures
        exists|y: Seq<u8>| least_failing(s, fails, y),
    decreases s.len(),
{
    let rest = s.remove(x);
    if exists|z: Seq<u8>| rest.contains(z) && fails(z) {
        let z = choose|z: Seq<u8>| rest.contains(z) && fails(z);
        lemma_least_failing_exists(rest, fails, z);
        let y = choose|y: Seq<u8>| least_failing(rest, fails, y);
        lemma_bytes_lt_total(x, y);
        if bytes_lt(x, y) {
            assert forall|w: Seq<u8>| #[trigger] s.contains(w) && fails(w) implies w == x || bytes_lt(x, w) by {
                if w != x {
                    assert(rest.contains(w));
                    if w != y {
                        lemma_bytes_lt_transitive(x, y, w);
                    }
                }
            }
            assert(least_failing(s, fails, x));
        } else {
            assert forall|w: Seq<u8>| #[trigger] s.contains(w) && fails(w) implies w == y || bytes_lt(y, w) by {
                if w != x {
                    assert(rest.contains(w));
                }
            }
            assert(least_failing(s, fails, y));
        }
    } else {
        assert forall|w: Seq<u8>| #[trigger] s.contains(w) && fails(w) implies w == x || bytes_lt(x, w) by {
            if w != x {
                assert(rest.contains(w));
            }
        }
        assert(least_failing(s, fails, x));
    }
}

/// When no member of a finite set fails first, none fails at all.
proof fn lemma_none_failing(s: Set<Seq<u8>>, fails: spec_fn(Seq<u8>) -> bool, x: Seq<u8>)
    requires
        s.finite(),
        first_failing(s, fails) is None,
        s.contains(x),
    ensures
        !fails(x),
{
    if fails(x) {
        lemma_least_failing_exists(s, fails, x);
    }
}

/// The identities of one kind that an expression tree refers to are finitely many.
proof fn lemma_node_refs_finite(n: ExprNode, kind: RefKind)
    ensures
        node_refs(n, kind).finite(),
    decreases n,
{
    match n {
        ExprNode::InterpolatedTable { input, .. } => {
            lemma_node_refs_finite(*input, kind);
        },
        ExprNode::Binary { lhs, rhs, .. } => {
            lemma_node_refs_finite(*lhs, kind);
            lemma_node_refs_finite(*rhs, kind);
        },
        ExprNode::Comparison { lhs, rhs, .. } => {
            lemma_node_refs_finite(*lhs, kind);
            lemma_node_refs_finite(*rhs, kind);
        },
        ExprNode::Clamp { value, lower, upper } => {
            lemma_node_refs_finite(*value, kind);
            lemma_node_refs_finite(*lower, kind);
            lemma_node_refs_finite(*upper, kind);
        },
        ExprNode::Select { condition, when_true, when_false } => {
            lemma_node_refs_finite(*condition, kind);
            lemma_node_refs_finite(*when_true, kind);
            lemma_node_refs_finite(*when_false, kind);
        },
        _ => {},
    }
}

/// A built artifact reads only forcings the builder supplies: the series of every
/// exogenous-series partition of a rule is the identity of one of the builder's forcings.
pub proof fn lemma_built_exogenous_series_are_supplied(
    b: ModelArtifactBuilder,
    counts: Seq<Seq<QuantumCount>>,
    a: ModelArtifact,
    i: int,
)
    requires
        build_outcome(b, counts, Ok(a)),
        0 <= i < b.spec_rules().len(),
        b.spec_rules()[i].spec_disposition().view is ExogenousSeries,
    ensures
        exists|j: int|
            0 <= j < b.spec_forcings().len() && (#[trigger] b.spec_forcings()[j]).id@
                == b.spec_rules()[i].spec_disposition().view->ExogenousSeries_series.id@,
{
    lemma_rule_checked(b, counts, a, i);
    let r = b.spec_rules()[i];
    let view = r.spec_disposition().view;
    let series = view->ExogenousSeries_series;
    let forcing_ids = ids_of(b.spec_forcings(), forcing_key());
    let refs = rule_refs(r.spec_expression().node, view, RefKind::Forcing);
    lemma_node_refs_finite(r.spec_expression().node, RefKind::Forcing);
    assert(partition_refs(view, RefKind::Forcing) == set![series.id@]);
    assert(refs.contains(series.id@));
    assert(refs.finite());
    let specs = b.spec_projections()->Some_0.specifications@;
    assert(rule_reference_outcome(
        r.spec_compartment()@,
        r.spec_substance()@,
        r.spec_expression().node,
        view,
        crate::rule_references::id_keys(r.spec_parameters()),
        forcing_ids,
        ids_of(b.spec_tables(), table_key()),
        specs,
    ) is Ok);
    lemma_none_failing(refs, missing_from(forcing_ids), series.id@);
    assert(forcing_ids.contains(series.id@));
    let j = choose|j: int| 0 <= j < b.spec_forcings().len() && forcing_key()(#[trigger] b.spec_forcings()[j]) == seq![series.id@];
    assert(seq![b.spec_forcings()[j].id@][0] == seq![series.id@][0]);
}

/// Whether expression tree `n` names identity `id` as a reference of kind `kind`.
pub open spec fn expression_names(n: ExprNode, kind: RefKind, id: Seq<u8>) -> bool
    decreases n,
{
    match n {
        ExprNode::Parameter(r) => kind == RefKind::Parameter && r.id@ == id,
        ExprNode::Forcing(r) => kind == RefKind::Forcing && r.id@ == id,
        ExprNode::InterpolatedTable { table, input } => (kind == RefKind::Table && table.id@ == id) || expression_names(
            *input,
            kind,
            id,
        ),
        ExprNode::Binary { lhs, rhs, .. } => expression_names(*lhs, kind, id) || expression_names(*rhs, kind, id),
        ExprNode::Comparison { lhs, rhs, .. } => expression_names(*lhs, kind, id) || expression_names(*rhs, kind, id),
        ExprNode::Clamp { value, lower, upper } => expression_names(*value, kind, id) || expression_names(*lower, kind, id)
            || expression_names(*upper, kind, id),
        ExprNode::Select { condition, when_true, when_false } => expression_names(*condition, kind, id)
            || expression_names(*when_true, kind, id) || expression_names(*when_false, kind, id),
        _ => false,
    }
}

/// Whether rule `r` names identity `id` as a reference of kind `kind`: in its expression, in
/// the expression of a branch of an expression partition, or, for a forcing, as the series of
/// an exogenous-series partition.
pub open spec fn rule_names(r: RuleDefinition, kind: RefKind, id: Seq<u8>) -> bool {
    ||| expression_names(r.spec_expression().node, kind, id)
    ||| match r.spec_disposition().view {
        PartitionView::ExpressionPartition { branches } => exists|k: int|
            0 <= k < branches@.len() && expression_names((#[trigger] branches@[k]).expression.node, kind, id),
        PartitionView::ExogenousSeries { series, .. } => kind == RefKind::Forcing && series.id@ == id,
        _ => false,
    }
}

proof fn lemma_named_is_referenced(n: ExprNode, kind: RefKind, id: Seq<u8>)
    requires
        expression_names(n, kind, id),
    ensures
        node_refs(n, kind).contains(id),
    decreases n,
{
    match n {
        ExprNode::InterpolatedTable { table, input } => {
            if expression_names(*input, kind, id) {
                lemma_named_is_referenced(*input, kind, id);
            }
        },
        ExprNode::Binary { lhs, rhs, .. } => {
            if expression_names(*lhs, kind, id) {
                lemma_named_is_referenced(*lhs, kind, id);
            } else {
                lemma_named_is_referenced(*rhs, kind, id);
            }
        },
        ExprNode::Comparison { lhs, rhs, .. } => {
            if expression_names(*lhs, kind, id) {
                lemma_named_is_referenced(*lhs, kind, id);
            } else {
                lemma_named_is_referenced(*rhs, kind, id);
            }
        },
        ExprNode::Clamp { value, lower, upper } => {
            if expression_names(*value, kind, id) {
                lemma_named_is_referenced(*value, kind, id);
            } else if expression_names(*lower, kind, id) {
                lemma_named_is_referenced(*lower, kind, id);
            } else {
                lemma_named_is_referenced(*upper, kind, id);
            }
        },
        ExprNode::Select { condition, when_true, when_false } => {
            if expression_names(*condition, kind, id) {
                lemma_named_is_referenced(*condition, kind, id);
            } else if expression_names(*when_true, kind, id) {
                lemma_named_is_referenced(*when_true, kind, id);
            } else {
                lemma_named_is_referenced(*when_false, kind, id);
            }
        },
        _ => {},
    }
}

proof fn lemma_branch_named_is_referenced(bs: Seq<crate::partition_expression::ExpressionBranch>, kind: RefKind, id: Seq<u8>, k: int)
    requires
        0 <= k < bs.len(),
        expression_names(bs[k].expression.node, kind, id),
    ensures
        branches_refs(bs, kind).contains(id),
    decreases bs.len(),
{
    if k == bs.len() - 1 {
        lemma_named_is_referenced(bs[k].expression.node, kind, id);
    } else {
        assert(bs.drop_last()[k] == bs[k]);
        lemma_branch_named_is_referenced(bs.drop_last(), kind, id, k);
    }
}

proof fn lemma_branches_refs_finite(bs: Seq<crate::partition_expression::ExpressionBranch>, kind: RefKind)
    ensures
        branches_refs(bs, kind).finite(),
    decreases bs.len(),
{
    if bs.len() > 0 {
        lemma_branches_refs_finite(bs.drop_last(), kind);
        lemma_node_refs_finite(bs.last().expression.node, kind);
    }
}

/// The references of one kind a rule makes are finitely many, and include every identity it
/// names.
proof fn lemma_rule_refs_cover(r: RuleDefinition, kind: RefKind, id: Seq<u8>)
    ensures
        rule_refs(r.spec_expression().node, r.spec_disposition().view, kind).finite(),
        rule_names(r, kind, id) ==> rule_refs(r.spec_expression().node, r.spec_disposition().view, kind).contains(id),
{
    let view = r.spec_disposition().view;
    lemma_node_refs_finite(r.spec_expression().node, kind);
    match view {
        PartitionView::ExpressionPartition { branches } => {
            lemma_branches_refs_finite(branches@, kind);
            if exists|k: int| 0 <= k < branches@.len() && expression_names((#[trigger] branches@[k]).expression.node, kind, id) {
                let k = choose|k: int| 0 <= k < branches@.len() && expression_names((#[trigger] branches@[k]).expression.node, kind, id);
                lemma_branch_named_is_referenced(branches@, kind, id, k);
            }
        },
        PartitionView::ExogenousSeries { series, .. } => {
            assert(partition_refs(view, kind).finite());
        },
        _ => {
            assert(partition_refs(view, kind) =~= Set::empty());
        },
    }
    if expression_names(r.spec_expression().node, kind, id) {
        lemma_named_is_referenced(r.spec_expression().node, kind, id);
    }
}

/// A built artifact's rules refer only to what exists: every parameter a rule names is one the
/// rule declares, and every forcing or table it names, in its expression, in the branches of an
/// expression partition or as an exogenous series, is one of the builder's.
pub proof fn lemma_built_rule_references_are_supplied(
    b: ModelArtifactBuilder,
    counts: Seq<Seq<QuantumCount>>,
    a: ModelArtifact,
    i: int,
    id: Seq<u8>,
)
    requires
        build_outcome(b, counts, Ok(a)),
        0 <= i < b.spec_rules().len(),
    ensures
        rule_names(b.spec_rules()[i], RefKind::Parameter, id) ==> exists|t: int|
            0 <= t < b.spec_rules()[i].spec_parameters().len() && (#[trigger] b.spec_rules()[i].spec_parameters()[t]).0@ == id,
        rule_names(b.spec_rules()[i], RefKind::Forcing, id) ==> exists|j: int|
            0 <= j < b.spec_forcings().len() && (#[trigger] b.spec_forcings()[j]).id@ == id,
        rule_names(b.spec_rules()[i], RefKind::Table, id) ==> exists|j: int|
            0 <= j < b.spec_tables().len() && (#[trigger] b.spec_tables()[j]).id@ == id,
{
    lemma_rule_checked(b, counts, a, i);
    let r = b.spec_rules()[i];
    let view = r.spec_disposition().view;
    let node = r.spec_expression().node;
    let declared = crate::rule_references::id_keys(r.spec_parameters());
    let forcing_ids = ids_of(b.spec_forcings(), forcing_key());
    let table_ids = ids_of(b.spec_tables(), table_key());
    let specs = b.spec_projections()->Some_0.specifications@;
    assert(rule_reference_outcome(r.spec_compartment()@, r.spec_substance()@, node, view, declared, forcing_ids, table_ids, specs) is Ok);
    lemma_rule_refs_cover(r, RefKind::Parameter, id);
    lemma_rule_refs_cover(r, RefKind::Forcing, id);
    lemma_rule_refs_cover(r, RefKind::Table, id);
    if rule_names(r, RefKind::Parameter, id) {
        lemma_none_failing(rule_refs(node, view, RefKind::Parameter), missing_from(declared), id);
        assert(declared.contains(id));
    }
    if rule_names(r, RefKind::Forcing, id) {
        lemma_none_failing(rule_refs(node, view, RefKind::Forcing), missing_from(forcing_ids), id);
        assert(forcing_ids.contains(id));
        let j = choose|j: int| 0 <= j < b.spec_forcings().len() && forcing_key()(#[trigger] b.spec_forcings()[j]) == seq![id];
        assert(seq![b.spec_forcings()[j].id@][0] == seq![id][0]);
    }
    if rule_names(r, RefKind::Table, id) {
        lemma_none_failing(rule_refs(node, view, RefKind::Table), missing_from(table_ids), id);
        assert(table_ids.contains(id));
        let j = choose|j: int| 0 <= j < b.spec_tables().len() && table_key()(#[trigger] b.spec_tables()[j]) == seq![id];
        assert(seq![b.spec_tables()[j].id@][0] == seq![id][0]);
    }
}

/// Every rule of a built artifact sits at a finite compartment of its topology: a boundary
/// account owns no rule.
pub proof fn lemma_built_rules_sit_at_finite_compartments(
    b: ModelArtifactBuilder,
    counts: Seq<Seq<QuantumCount>>,
    a: ModelArtifact,
    q: int,
)
    requires
        build_outcome(b, counts, Ok(a)),
        0 <= q < a.spec_rules().len(),
    ensures
        exists|k: int|
            0 <= k < a.spec_topology().endpoints@.len() && (#[trigger] a.spec_topology().endpoints@[k]).spec_id()
                == a.spec_rules()[q].0.compartment@ && a.spec_topology().endpoints@[k] is Finite,
{
    let (fm, tm, m) = lemma_built_parts(b, counts, a);
    assert(listed_value(b.spec_rules(), m[q].1));
    let i = choose|i: int| 0 <= i < b.spec_rules().len() && b.spec_rules()[i] == m[q].1;
    lemma_rule_checked(b, counts, a, i);
    assert(m[q].0 == rule_coordinate()(m[q].1));
}

/// A built artifact binds inputs only to forcings the builder supplies: every input binding
/// whose source is a forcing names the identity of one of the builder's forcings, whatever its
/// tables are.
pub proof fn lemma_built_forcing_inputs_are_supplied(
    b: ModelArtifactBuilder,
    counts: Seq<Seq<QuantumCount>>,
    a: ModelArtifact,
    j: int,
)
    requires
        build_outcome(b, counts, Ok(a)),
        b.spec_execution_bindings().wf(),
        0 <= j < b.spec_execution_bindings().input_bindings@.len(),
        b.spec_execution_bindings().input_bindings@[j].source is Forcing,
    ensures
        exists|k: int|
            0 <= k < b.spec_forcings().len() && (#[trigger] b.spec_forcings()[k]).id@
                == b.spec_execution_bindings().input_bindings@[j].source->Forcing_0.id@,
{
    let (fm, tm, m) = lemma_built_parts(b, counts, a);
    let bindings = b.spec_execution_bindings();
    let bs = bindings.input_bindings@;
    let ib = bs[j];
    let c = ib.compartment@;
    let s = ib.substance@;
    let forcing_ids = ids_of(b.spec_forcings(), forcing_key());
    let table_ids = ids_of(b.spec_tables(), table_key());
    let specs = b.spec_projections()->Some_0.specifications@;
    let stages = binding_stages_outcome(m, bindings, b.spec_topology(), forcing_ids, table_ids, specs);
    let rcheck = rule_binding_check(bindings, b.spec_topology(), forcing_ids, table_ids, specs);
    assert(first_error(m, rcheck) is Ok);
    assert(first_error(bs, input_known(m)) is Ok);
    lemma_first_error_all_ok(bs, input_known(m), j);
    assert(input_known(m)(ib) is Ok);
    let i = entry_at(m, c, s)->Some_0;
    assert(entry_at(m, c, s) is Some);
    lemma_first_error_all_ok(m, rcheck, i);
    let rule = m[i].1;
    lemma_coordinate_key(m[i].0, c, s);
    let inputs = crate::rule_references::rule_inputs(rule.spec_expression().node, rule.spec_disposition().view);
    let k = choose|k: int| 0 <= k < inputs.len() && (#[trigger] inputs[k]).id@ == ib.reference.id@;
    let icheck = input_check(bindings, c, s, forcing_ids, table_ids, specs);
    assert(rcheck(m[i]) is Ok);
    assert(first_error(inputs, icheck) is Ok);
    lemma_first_error_all_ok(inputs, icheck, k);
    assert(icheck(inputs[k]) is Ok);
    lemma_bound_input(bs, j, c, s, ib.reference.id@);
    assert(input_source_outcome(c, s, inputs[k], ib.source, forcing_ids, table_ids, specs) is Ok);
    let f = ib.source->Forcing_0;
    assert(forcing_ids.contains(f.id@));
    let x = choose|x: int| 0 <= x < b.spec_forcings().len() && forcing_key()(#[trigger] b.spec_forcings()[x]) == seq![f.id@];
    assert(seq![b.spec_forcings()[x].id@][0] == seq![f.id@][0]);
}

/// A built artifact binds inputs only to tables the builder supplies: every input binding
/// whose source is an interpolation table names the identity of one of the builder's tables,
/// whatever its forcings are.
pub proof fn lemma_built_table_inputs_are_supplied(
    b: ModelArtifactBuilder,
    counts: Seq<Seq<QuantumCount>>,
    a: ModelArtifact,
    j: int,
)
    requires
        build_outcome(b, counts, Ok(a)),
        b.spec_execution_bindings().wf(),
        0 <= j < b.spec_execution_bindings().input_bindings@.len(),
        b.spec_execution_bindings().input_bindings@[j].source is InterpolationTable,
    ensures
        exists|k: int|
            0 <= k < b.spec_tables().len() && (#[trigger] b.spec_tables()[k]).id@
                == b.spec_execution_bindings().input_bindings@[j].source->InterpolationTable_0.id@,
{
    let (fm, tm, m) = lemma_built_parts(b, counts, a);
    let bindings = b.spec_execution_bindings();
    let bs = bindings.input_bindings@;
    let ib = bs[j];
    let c = ib.compartment@;
    let s = ib.substance@;
    let forcing_ids = ids_of(b.spec_forcings(), forcing_key());
    let table_ids = ids_of(b.spec_tables(), table_key());
    let specs = b.spec_projections()->Some_0.specifications@;
    let stages = binding_stages_outcome(m, bindings, b.spec_topology(), forcing_ids, table_ids, specs);
    let rcheck = rule_binding_check(bindings, b.spec_topology(), forcing_ids, table_ids, specs);
    assert(first_error(m, rcheck) is Ok);
    assert(first_error(bs, input_known(m)) is Ok);
    lemma_first_error_all_ok(bs, input_known(m), j);
    assert(input_known(m)(ib) is Ok);
    let i = entry_at(m, c, s)->Some_0;
    assert(entry_at(m, c, s) is Some);
    lemma_first_error_all_ok(m, rcheck, i);
    let rule = m[i].1;
    lemma_coordinate_key(m[i].0, c, s);
    let inputs = crate::rule_references::rule_inputs(rule.spec_expression().node, rule.spec_disposition().view);
    let k = choose|k: int| 0 <= k < inputs.len() && (#[trigger] inputs[k]).id@ == ib.reference.id@;
    let icheck = input_check(bindings, c, s, forcing_ids, table_ids, specs);
    assert(rcheck(m[i]) is Ok);
    assert(first_error(inputs, icheck) is Ok);
    lemma_first_error_all_ok(inputs, icheck, k);
    assert(icheck(inputs[k]) is Ok);
    lemma_bound_input(bs, j, c, s, ib.reference.id@);
    assert(input_source_outcome(c, s, inputs[k], ib.source, forcing_ids, table_ids, specs) is Ok);
    let f = ib.source->InterpolationTable_0;
    assert(table_ids.contains(f.id@));
    let x = choose|x: int| 0 <= x < b.spec_tables().len() && table_key()(#[trigger] b.spec_tables()[x]) == seq![f.id@];
    assert(seq![b.spec_tables()[x].id@][0] == seq![f.id@][0]);
}

/// In a built artifact every dependent branch of a carrier-proportional rule goes where its
/// mapped carrier branch goes: the dependent is bound at its branch, the carrier at the mapped
/// carrier branch, and both bindings name the same destination.
pub proof fn lemma_built_carrier_branches_share_destinations(
    b: ModelArtifactBuilder,
    counts: Seq<Seq<QuantumCount>>,
    a: ModelArtifact,
    q: int,
    k: int,
)
    requires
        build_outcome(b, counts, Ok(a)),
        0 <= q < b.spec_rules().len(),
        b.spec_rules()[q].spec_disposition().view is CarrierProportional,
        0 <= k < b.spec_rules()[q].spec_disposition().view->CarrierProportional_branches@.len(),
    ensures
        ({
            let r = b.spec_rules()[q];
            let carrier = r.spec_disposition().view->CarrierProportional_carrier;
            let mapping = r.spec_disposition().view->CarrierProportional_branches@[k];
            let ts = b.spec_execution_bindings().transfer_bindings@;
            exists|d: int, e: int|
                0 <= d < ts.len() && 0 <= e < ts.len() && (#[trigger] ts[d]).compartment@ == r.spec_compartment()@
                    && ts[d].substance@ == r.spec_substance()@ && ts[d].branch@ == mapping.branch@
                    && (#[trigger] ts[e]).compartment@ == r.spec_compartment()@ && ts[e].substance@ == carrier@
                    && ts[e].branch@ == mapping.carrier_branch@ && ts[d].destination@ == ts[e].destination@
        }),
{
    let (fm, tm, m) = lemma_built_parts(b, counts, a);
    let bindings = b.spec_execution_bindings();
    let r = b.spec_rules()[q];
    let view = r.spec_disposition().view;
    let carrier = view->CarrierProportional_carrier;
    let branches = view->CarrierProportional_branches@;
    let mapping = branches[k];
    let ts = bindings.transfer_bindings@;
    let c = r.spec_compartment()@;
    let s = r.spec_substance()@;
    assert(mapped_value(m, b.spec_rules()[q]));
    let p = choose|p: int| 0 <= p < m.len() && m[p].1 == b.spec_rules()[q];
    assert(m[p].0 == rule_coordinate()(m[p].1));
    let ccheck = carrier_check(b.spec_registry(), m, bindings);
    lemma_first_error_all_ok(m, ccheck, p);
    assert(ccheck(m[p]) is Ok);
    let i = entry_at(m, c, carrier@)->Some_0;
    let bcheck = carrier_branch_check(
        bindings,
        c,
        s,
        carrier@,
        crate::rule_references::partition_branch_set(m[i].1.spec_disposition().view),
    );
    assert(first_error(branches, bcheck) is Ok);
    lemma_first_error_all_ok(branches, bcheck, k);
    assert(bcheck(mapping) is Ok);
    assert(binds_transfer(ts, c, s, mapping.branch@));
    assert(binds_transfer(ts, c, carrier@, mapping.carrier_branch@));
    let d = choose|d: int| 0 <= d < ts.len() && crate::execution_bindings::transfer_matches(#[trigger] ts[d], c, s, mapping.branch@);
    let e = choose|e: int|
        0 <= e < ts.len() && crate::execution_bindings::transfer_matches(#[trigger] ts[e], c, carrier@, mapping.carrier_branch@);
    assert(bound_destination(ts, c, s, mapping.branch@) == ts[d].destination@);
    assert(bound_destination(ts, c, carrier@, mapping.carrier_branch@) == ts[e].destination@);
}

/// Whether `selector` is one of the authoritative fact selectors that projection `p` reads.
pub open spec fn reads_fact(p: ProjectionSpec, selector: AuthoritativeFactSelector) -> bool {
    match p.view {
        ProjectionSpecView::BoundedLag { source, .. } => source == ProjectionSource::AuthoritativeFact(selector),
        ProjectionSpecView::OrderedRollingAggregate { source, .. } => source == ProjectionSource::AuthoritativeFact(
            selector,
        ),
        ProjectionSpecView::FiniteRecurrence { inputs, .. } => exists|k: int|
            0 <= k < inputs@.len() && (#[trigger] inputs@[k]).input_source == RecurrenceInputSource::AuthoritativeFact(
                selector,
            ),
    }
}

/// The projections of a built artifact read only facts of the model: every authoritative fact
/// selector of every projection names an endpoint of the topology and a substance of the
/// registry.
pub proof fn lemma_built_projection_facts_are_modelled(
    b: ModelArtifactBuilder,
    counts: Seq<Seq<QuantumCount>>,
    a: ModelArtifact,
    i: int,
    selector: AuthoritativeFactSelector,
)
    requires
        build_outcome(b, counts, Ok(a)),
        b.spec_projections() is Some,
        0 <= i < b.spec_projections()->Some_0.specifications@.len(),
        reads_fact(b.spec_projections()->Some_0.specifications@[i], selector),
    ensures
        exists|k: int|
            0 <= k < b.spec_topology().endpoints@.len() && (#[trigger] b.spec_topology().endpoints@[k]).spec_id()
                == selector.spec_compartment(),
        exists|k: int|
            0 <= k < b.spec_registry().members@.len() && (#[trigger] b.spec_registry().members@[k])@
                == selector.spec_substance(),
{
    lemma_built_parts(b, counts, a);
    let specs = b.spec_projections()->Some_0.specifications@;
    let check = projection_check(b.spec_versions(), b.spec_topology(), b.spec_registry());
    assert(first_error(specs, check) is Ok);
    lemma_first_error_all_ok(specs, check, i);
    let p = specs[i];
    assert(check(p) is Ok);
    assert(selectors_outcome(p, b.spec_topology(), b.spec_registry()) is Ok);
    match p.view {
        ProjectionSpecView::FiniteRecurrence { inputs, .. } => {
            let k = choose|k: int|
                0 <= k < inputs@.len() && (#[trigger] inputs@[k]).input_source == RecurrenceInputSource::AuthoritativeFact(
                    selector,
                );
            let rcheck = recurrence_input_check(p.id@, b.spec_topology(), b.spec_registry());
            lemma_first_error_all_ok(inputs@, rcheck, k);
            assert(rcheck(inputs@[k]) is Ok);
        },
        _ => {},
    }
    assert(selector_outcome(p.id@, selector, b.spec_topology(), b.spec_registry()) is Ok);
}

} // verus!
