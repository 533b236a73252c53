//! Reading the catalogues of an artifact payload back from their bytes: projections, projector
//! states, forcings and tables.

use vstd::prelude::*;
use crate::artifact::{
    body_emit, catalogues_emit, forcing_entry_emitter, header_emit, projection_spec_emitter, projector_state_emitter,
    table_entry_emitter, ModelArtifact,
};
use crate::canonical_encoding::{envelope, spec_encode};
use crate::reading::lemma_read_header;
use crate::body_reading::{encoding_of, lemma_prefix_free_readable};
use crate::canonical_encoding::{
    be_u16, be_u64, count_emit, emit, emit_counted, emit_each, numerical_version_number, scalar_emit,
    scalar_emitter, spec_expression_kind_tag, spec_projection_kind_tag, string_emit, then, CanonicalField, Emitted,
};
use crate::component_encoding::{
    kind_emitter, projection_source_emit, projection_spec_emit, projection_value_emitter, projection_view_emit,
    projector_state_emit, recurrence_input_emitter, recurrence_parameter_emitter, recurrence_source_emit,
    selector_emit, update_emitter,
};
use crate::forcing::{forcing_emit, ForcingSeries};
use crate::identity::Ident;
use crate::interpolation_table::{point_emitter, table_emit, InterpolationTable, TablePoint};
use crate::projection::{
    AuthoritativeFactSelector, InitialProjectorState, ProjectionSource, ProjectionSpec, ProjectionSpecView,
    ProjectionValue, RecurrenceInputBinding, RecurrenceInputSource,
};
use crate::reading::{
    lemma_cancel_tail, lemma_read_count, lemma_read_counted, lemma_read_head, lemma_read_node, lemma_read_scalar,
    lemma_read_string, lemma_read_u64, lemma_split, lemma_then_bytes, readable,
};
use crate::rule_expression::RuleExpr;
use crate::rule_reference::{ParameterRef, ProjectionValueKind};

verus! {

/// The first byte of a fixed head followed by an emission is the head's first byte.
proof fn lemma_first_byte(h: Seq<u8>, b: Emitted, r: Seq<u8>)
    requires
        then(emit(h), b).error is None,
        h.len() > 0,
    ensures
        (then(emit(h), b).bytes + r).len() > 0,
        (then(emit(h), b).bytes + r)[0] == h[0],
{
    lemma_then_bytes(emit(h), b, r);
}

proof fn lemma_read_selector(x: AuthoritativeFactSelector, y: AuthoritativeFactSelector, r1: Seq<u8>, r2: Seq<u8>)
    requires
        selector_emit(x).error is None,
        selector_emit(y).error is None,
        selector_emit(x).bytes + r1 == selector_emit(y).bytes + r2,
    ensures
        r1 == r2,
{
    let sx = string_emit(CanonicalField::FactSubstanceIdentity, x.spec_substance());
    let sy = string_emit(CanonicalField::FactSubstanceIdentity, y.spec_substance());
    let cx = then(string_emit(CanonicalField::FactCompartmentIdentity, x.spec_compartment()), sx);
    let cy = then(string_emit(CanonicalField::FactCompartmentIdentity, y.spec_compartment()), sy);
    lemma_read_head(seq![if x is IncomingTransferAmount { 0u8 } else { 1u8 }], cx, seq![if y is IncomingTransferAmount { 0u8 } else { 1u8 }], cy, r1, r2);
    lemma_then_bytes(string_emit(CanonicalField::FactCompartmentIdentity, x.spec_compartment()), sx, r1);
    lemma_then_bytes(string_emit(CanonicalField::FactCompartmentIdentity, y.spec_compartment()), sy, r2);
    lemma_read_string(CanonicalField::FactCompartmentIdentity, x.spec_compartment(), CanonicalField::FactCompartmentIdentity, y.spec_compartment(), sx.bytes + r1, sy.bytes + r2);
    lemma_read_string(CanonicalField::FactSubstanceIdentity, x.spec_substance(), CanonicalField::FactSubstanceIdentity, y.spec_substance(), r1, r2);
}

proof fn lemma_read_projection_source(x: ProjectionSource, y: ProjectionSource, r1: Seq<u8>, r2: Seq<u8>)
    requires
        projection_source_emit(x).error is None,
        projection_source_emit(y).error is None,
        projection_source_emit(x).bytes + r1 == projection_source_emit(y).bytes + r2,
    ensures
        r1 == r2,
{
    match x {
        ProjectionSource::AuthoritativeFact(sx) => {
            lemma_first_byte(seq![0u8], selector_emit(sx), r1);
            match y {
                ProjectionSource::AuthoritativeFact(sy) => {
                    lemma_read_head(seq![0u8], selector_emit(sx), seq![0u8], selector_emit(sy), r1, r2);
                    lemma_read_selector(sx, sy, r1, r2);
                },
                ProjectionSource::Projection(ry) => {
                    let h = seq![1u8, spec_projection_kind_tag(ry.value_kind)];
                    lemma_first_byte(h, string_emit(CanonicalField::ProjectionReferenceIdentity, ry.id@), r2);
                },
            }
        },
        ProjectionSource::Projection(rx) => {
            let hx = seq![1u8, spec_projection_kind_tag(rx.value_kind)];
            lemma_first_byte(hx, string_emit(CanonicalField::ProjectionReferenceIdentity, rx.id@), r1);
            match y {
                ProjectionSource::AuthoritativeFact(sy) => {
                    lemma_first_byte(seq![0u8], selector_emit(sy), r2);
                },
                ProjectionSource::Projection(ry) => {
                    let hy = seq![1u8, spec_projection_kind_tag(ry.value_kind)];
                    lemma_read_head(hx, string_emit(CanonicalField::ProjectionReferenceIdentity, rx.id@), hy, string_emit(CanonicalField::ProjectionReferenceIdentity, ry.id@), r1, r2);
                    lemma_read_string(CanonicalField::ProjectionReferenceIdentity, rx.id@, CanonicalField::ProjectionReferenceIdentity, ry.id@, r1, r2);
                },
            }
        },
    }
}

proof fn lemma_read_recurrence_source(x: RecurrenceInputSource, y: RecurrenceInputSource, r1: Seq<u8>, r2: Seq<u8>)
    requires
        recurrence_source_emit(x).error is None,
        recurrence_source_emit(y).error is None,
        recurrence_source_emit(x).bytes + r1 == recurrence_source_emit(y).bytes + r2,
    ensures
        r1 == r2,
{
    match x {
        RecurrenceInputSource::AuthoritativeFact(sx) => {
            lemma_first_byte(seq![0u8], selector_emit(sx), r1);
            match y {
                RecurrenceInputSource::AuthoritativeFact(sy) => {
                    lemma_read_head(seq![0u8], selector_emit(sx), seq![0u8], selector_emit(sy), r1, r2);
                    lemma_read_selector(sx, sy, r1, r2);
                },
                RecurrenceInputSource::PreviousState { index, value_kind } => {
                    let b = then(count_emit(CanonicalField::ProjectionCount, index), emit(seq![spec_projection_kind_tag(value_kind)]));
                    lemma_first_byte(seq![1u8], b, r2);
                },
            }
        },
        RecurrenceInputSource::PreviousState { index: ix, value_kind: kx } => {
            let bx = then(count_emit(CanonicalField::ProjectionCount, ix), emit(seq![spec_projection_kind_tag(kx)]));
            lemma_first_byte(seq![1u8], bx, r1);
            match y {
                RecurrenceInputSource::AuthoritativeFact(sy) => {
                    lemma_first_byte(seq![0u8], selector_emit(sy), r2);
                },
                RecurrenceInputSource::PreviousState { index: iy, value_kind: ky } => {
                    let by = then(count_emit(CanonicalField::ProjectionCount, iy), emit(seq![spec_projection_kind_tag(ky)]));
                    lemma_read_head(seq![1u8], bx, seq![1u8], by, r1, r2);
                    let kex = emit(seq![spec_projection_kind_tag(kx)]);
                    let key = emit(seq![spec_projection_kind_tag(ky)]);
                    lemma_then_bytes(count_emit(CanonicalField::ProjectionCount, ix), kex, r1);
                    lemma_then_bytes(count_emit(CanonicalField::ProjectionCount, iy), key, r2);
                    lemma_read_count(CanonicalField::ProjectionCount, ix, CanonicalField::ProjectionCount, iy, kex.bytes + r1, key.bytes + r2);
                    lemma_split(kex.bytes, r1, key.bytes, r2);
                },
            }
        },
    }
}

proof fn lemma_kinds_readable()
    ensures
        readable(kind_emitter(), encoding_of(kind_emitter())),
{
    let f = kind_emitter();
    assert forall|x: ProjectionValueKind, y: ProjectionValueKind, r1: Seq<u8>, r2: Seq<u8>|
        #![trigger f(x).bytes + r1, f(y).bytes + r2]
        f(x).error is None && f(y).error is None && f(x).bytes + r1 == f(y).bytes + r2 implies r1 == r2 by {
        lemma_split(f(x).bytes, r1, f(y).bytes, r2);
    }
    lemma_prefix_free_readable(f);
}

proof fn lemma_recurrence_inputs_readable()
    ensures
        readable(recurrence_input_emitter(), encoding_of(recurrence_input_emitter())),
{
    let f = recurrence_input_emitter();
    assert forall|x: RecurrenceInputBinding, y: RecurrenceInputBinding, r1: Seq<u8>, r2: Seq<u8>|
        #![trigger f(x).bytes + r1, f(y).bytes + r2]
        f(x).error is None && f(y).error is None && f(x).bytes + r1 == f(y).bytes + r2 implies r1 == r2 by {
        let sx = recurrence_source_emit(x.input_source);
        let sy = recurrence_source_emit(y.input_source);
        let ix = then(string_emit(CanonicalField::ProjectionInputIdentity, x.reference.id@), sx);
        let iy = then(string_emit(CanonicalField::ProjectionInputIdentity, y.reference.id@), sy);
        lemma_read_head(seq![spec_expression_kind_tag(x.reference.value_kind)], ix, seq![spec_expression_kind_tag(y.reference.value_kind)], iy, r1, r2);
        lemma_then_bytes(string_emit(CanonicalField::ProjectionInputIdentity, x.reference.id@), sx, r1);
        lemma_then_bytes(string_emit(CanonicalField::ProjectionInputIdentity, y.reference.id@), sy, r2);
        lemma_read_string(CanonicalField::ProjectionInputIdentity, x.reference.id@, CanonicalField::ProjectionInputIdentity, y.reference.id@, sx.bytes + r1, sy.bytes + r2);
        lemma_read_recurrence_source(x.input_source, y.input_source, r1, r2);
    }
    lemma_prefix_free_readable(f);
}

proof fn lemma_recurrence_parameters_readable()
    ensures
        readable(recurrence_parameter_emitter(), encoding_of(recurrence_parameter_emitter())),
{
    let f = recurrence_parameter_emitter();
    assert forall|x: ParameterRef, y: ParameterRef, r1: Seq<u8>, r2: Seq<u8>|
        #![trigger f(x).bytes + r1, f(y).bytes + r2]
        f(x).error is None && f(y).error is None && f(x).bytes + r1 == f(y).bytes + r2 implies r1 == r2 by {
        let sx = string_emit(CanonicalField::ProjectionParameterIdentity, x.id@);
        let sy = string_emit(CanonicalField::ProjectionParameterIdentity, y.id@);
        lemma_read_head(seq![spec_expression_kind_tag(x.value_kind)], sx, seq![spec_expression_kind_tag(y.value_kind)], sy, r1, r2);
        lemma_read_string(CanonicalField::ProjectionParameterIdentity, x.id@, CanonicalField::ProjectionParameterIdentity, y.id@, r1, r2);
    }
    lemma_prefix_free_readable(f);
}

proof fn lemma_updates_readable()
    ensures
        readable(update_emitter(), encoding_of(update_emitter())),
{
    let f = update_emitter();
    assert forall|x: RuleExpr, y: RuleExpr, r1: Seq<u8>, r2: Seq<u8>|
        #![trigger f(x).bytes + r1, f(y).bytes + r2]
        f(x).error is None && f(y).error is None && f(x).bytes + r1 == f(y).bytes + r2 implies r1 == r2 by {
        lemma_read_node(x.node, y.node, r1, r2);
    }
    lemma_prefix_free_readable(f);
}

/// The tag byte that opens the encoding of a projection's shape.
pub open spec fn projection_view_tag(v: ProjectionSpecView) -> u8 {
    match v {
        ProjectionSpecView::BoundedLag { .. } => 0,
        ProjectionSpecView::OrderedRollingAggregate { .. } => 1,
        ProjectionSpecView::FiniteRecurrence { .. } => 2,
    }
}

/// What follows the tag in the encoding of a projection's shape.
pub open spec fn projection_view_rest(v: ProjectionSpecView) -> Emitted {
    match v {
        ProjectionSpecView::BoundedLag { source, steps } => then(
            projection_source_emit(source),
            count_emit(CanonicalField::ProjectionCount, steps),
        ),
        ProjectionSpecView::OrderedRollingAggregate { source, window, .. } => then(
            projection_source_emit(source),
            then(count_emit(CanonicalField::ProjectionCount, window), emit(seq![0u8])),
        ),
        ProjectionSpecView::FiniteRecurrence { state_kinds, inputs, parameters, updates, output_index } => then(
            emit_counted(CanonicalField::ProjectionCount, state_kinds@, kind_emitter()),
            then(
                emit_counted(CanonicalField::ProjectionCount, inputs@, recurrence_input_emitter()),
                then(
                    emit_counted(CanonicalField::ProjectionCount, parameters@, recurrence_parameter_emitter()),
                    then(
                        emit_counted(CanonicalField::ProjectionCount, updates@, update_emitter()),
                        count_emit(CanonicalField::ProjectionCount, output_index),
                    ),
                ),
            ),
        ),
    }
}

#[verifier::spinoff_prover]
#[verifier::rlimit(50)]
proof fn lemma_read_projection_view(x: ProjectionSpecView, y: ProjectionSpecView, r1: Seq<u8>, r2: Seq<u8>)
    requires
        projection_view_emit(x).error is None,
        projection_view_emit(y).error is None,
        projection_view_emit(x).bytes + r1 == projection_view_emit(y).bytes + r2,
    ensures
        r1 == r2,
{
    assert(projection_view_emit(x) == then(emit(seq![projection_view_tag(x)]), projection_view_rest(x)));
    assert(projection_view_emit(y) == then(emit(seq![projection_view_tag(y)]), projection_view_rest(y)));
    lemma_read_head(seq![projection_view_tag(x)], projection_view_rest(x), seq![projection_view_tag(y)], projection_view_rest(y), r1, r2);
    assert(seq![projection_view_tag(x)][0] == seq![projection_view_tag(y)][0]);
    match x {
        ProjectionSpecView::BoundedLag { source, steps } => {
            let s2 = y->BoundedLag_source;
            let n2 = y->steps;
            let cx = count_emit(CanonicalField::ProjectionCount, steps);
            let cy = count_emit(CanonicalField::ProjectionCount, n2);
            lemma_then_bytes(projection_source_emit(source), cx, r1);
            lemma_then_bytes(projection_source_emit(s2), cy, r2);
            lemma_read_projection_source(source, s2, cx.bytes + r1, cy.bytes + r2);
            lemma_read_count(CanonicalField::ProjectionCount, steps, CanonicalField::ProjectionCount, n2, r1, r2);
        },
        ProjectionSpecView::OrderedRollingAggregate { source, window, .. } => {
            let s2 = y->OrderedRollingAggregate_source;
            let w2 = y->window;
            let cx = then(count_emit(CanonicalField::ProjectionCount, window), emit(seq![0u8]));
            let cy = then(count_emit(CanonicalField::ProjectionCount, w2), emit(seq![0u8]));
            lemma_then_bytes(projection_source_emit(source), cx, r1);
            lemma_then_bytes(projection_source_emit(s2), cy, r2);
            lemma_read_projection_source(source, s2, cx.bytes + r1, cy.bytes + r2);
            lemma_then_bytes(count_emit(CanonicalField::ProjectionCount, window), emit(seq![0u8]), r1);
            lemma_then_bytes(count_emit(CanonicalField::ProjectionCount, w2), emit(seq![0u8]), r2);
            lemma_read_count(CanonicalField::ProjectionCount, window, CanonicalField::ProjectionCount, w2, emit(seq![0u8]).bytes + r1, emit(seq![0u8]).bytes + r2);
            lemma_split(emit(seq![0u8]).bytes, r1, emit(seq![0u8]).bytes, r2);
        },
        ProjectionSpecView::FiniteRecurrence { state_kinds, inputs, parameters, updates, output_index } => {
            let k2 = y->state_kinds;
            let i2 = y->inputs;
            let p2 = y->FiniteRecurrence_parameters;
            let u2 = y->updates;
            let o2 = y->output_index;
            let ox = count_emit(CanonicalField::ProjectionCount, output_index);
            let oy = count_emit(CanonicalField::ProjectionCount, o2);
            let ux = then(emit_counted(CanonicalField::ProjectionCount, updates@, update_emitter()), ox);
            let uy = then(emit_counted(CanonicalField::ProjectionCount, u2@, update_emitter()), oy);
            let px = then(emit_counted(CanonicalField::ProjectionCount, parameters@, recurrence_parameter_emitter()), ux);
            let py = then(emit_counted(CanonicalField::ProjectionCount, p2@, recurrence_parameter_emitter()), uy);
            let ix = then(emit_counted(CanonicalField::ProjectionCount, inputs@, recurrence_input_emitter()), px);
            let iy = then(emit_counted(CanonicalField::ProjectionCount, i2@, recurrence_input_emitter()), py);
            assert(state_kinds@.len() == state_kinds.len() && k2@.len() == k2.len());
            assert(inputs@.len() == inputs.len() && i2@.len() == i2.len());
            assert(parameters@.len() == parameters.len() && p2@.len() == p2.len());
            assert(updates@.len() == updates.len() && u2@.len() == u2.len());
            lemma_then_bytes(emit_counted(CanonicalField::ProjectionCount, state_kinds@, kind_emitter()), ix, r1);
            lemma_then_bytes(emit_counted(CanonicalField::ProjectionCount, k2@, kind_emitter()), iy, r2);
            lemma_kinds_readable();
            lemma_read_counted(CanonicalField::ProjectionCount, state_kinds@, CanonicalField::ProjectionCount, k2@, kind_emitter(), encoding_of(kind_emitter()), ix.bytes + r1, iy.bytes + r2);
            lemma_then_bytes(emit_counted(CanonicalField::ProjectionCount, inputs@, recurrence_input_emitter()), px, r1);
            lemma_then_bytes(emit_counted(CanonicalField::ProjectionCount, i2@, recurrence_input_emitter()), py, r2);
            lemma_recurrence_inputs_readable();
            lemma_read_counted(CanonicalField::ProjectionCount, inputs@, CanonicalField::ProjectionCount, i2@, recurrence_input_emitter(), encoding_of(recurrence_input_emitter()), px.bytes + r1, py.bytes + r2);
            lemma_then_bytes(emit_counted(CanonicalField::ProjectionCount, parameters@, recurrence_parameter_emitter()), ux, r1);
            lemma_then_bytes(emit_counted(CanonicalField::ProjectionCount, p2@, recurrence_parameter_emitter()), uy, r2);
            lemma_recurrence_parameters_readable();
            lemma_read_counted(CanonicalField::ProjectionCount, parameters@, CanonicalField::ProjectionCount, p2@, recurrence_parameter_emitter(), encoding_of(recurrence_parameter_emitter()), ux.bytes + r1, uy.bytes + r2);
            lemma_then_bytes(emit_counted(CanonicalField::ProjectionCount, updates@, update_emitter()), ox, r1);
            lemma_then_bytes(emit_counted(CanonicalField::ProjectionCount, u2@, update_emitter()), oy, r2);
            lemma_updates_readable();
            lemma_read_counted(CanonicalField::ProjectionCount, updates@, CanonicalField::ProjectionCount, u2@, update_emitter(), encoding_of(update_emitter()), ox.bytes + r1, oy.bytes + r2);
            lemma_read_count(CanonicalField::ProjectionCount, output_index, CanonicalField::ProjectionCount, o2, r1, r2);
        },
    }
}

proof fn lemma_projection_specs_readable()
    ensures
        readable(projection_spec_emitter(), encoding_of(projection_spec_emitter())),
{
    let f = projection_spec_emitter();
    assert forall|x: ProjectionSpec, y: ProjectionSpec, r1: Seq<u8>, r2: Seq<u8>|
        #![trigger f(x).bytes + r1, f(y).bytes + r2]
        f(x).error is None && f(y).error is None && f(x).bytes + r1 == f(y).bytes + r2 implies r1 == r2 by {
        let vx = then(emit(seq![spec_projection_kind_tag(x.value_kind)]), projection_view_emit(x.view));
        let vy = then(emit(seq![spec_projection_kind_tag(y.value_kind)]), projection_view_emit(y.view));
        let ix = then(string_emit(CanonicalField::ProjectionIdentity, x.id@), vx);
        let iy = then(string_emit(CanonicalField::ProjectionIdentity, y.id@), vy);
        let hx = be_u16(1) + be_u16(numerical_version_number(x.numerical_semantics_version)) + Seq::<u8>::empty();
        let hy = be_u16(1) + be_u16(numerical_version_number(y.numerical_semantics_version)) + Seq::<u8>::empty();
        assert(f(x) == projection_spec_emit(x));
        assert(f(y) == projection_spec_emit(y));
        lemma_read_head(hx, ix, hy, iy, r1, r2);
        lemma_then_bytes(string_emit(CanonicalField::ProjectionIdentity, x.id@), vx, r1);
        lemma_then_bytes(string_emit(CanonicalField::ProjectionIdentity, y.id@), vy, r2);
        lemma_read_string(CanonicalField::ProjectionIdentity, x.id@, CanonicalField::ProjectionIdentity, y.id@, vx.bytes + r1, vy.bytes + r2);
        lemma_read_head(seq![spec_projection_kind_tag(x.value_kind)], projection_view_emit(x.view), seq![spec_projection_kind_tag(y.value_kind)], projection_view_emit(y.view), r1, r2);
        lemma_read_projection_view(x.view, y.view, r1, r2);
    }
    lemma_prefix_free_readable(f);
}

proof fn lemma_projection_values_readable()
    ensures
        readable(projection_value_emitter(), encoding_of(projection_value_emitter())),
{
    let f = projection_value_emitter();
    assert forall|x: ProjectionValue, y: ProjectionValue, r1: Seq<u8>, r2: Seq<u8>|
        #![trigger f(x).bytes + r1, f(y).bytes + r2]
        f(x).error is None && f(y).error is None && f(x).bytes + r1 == f(y).bytes + r2 implies r1 == r2 by {
        let tx: u8 = match x { ProjectionValue::Extensive(_) => 0u8, ProjectionValue::Scalar(_) => 1u8, ProjectionValue::Truth(_) => 2u8 };
        let ty: u8 = match y { ProjectionValue::Extensive(_) => 0u8, ProjectionValue::Scalar(_) => 1u8, ProjectionValue::Truth(_) => 2u8 };
        let rx = match x {
            ProjectionValue::Extensive(b) => scalar_emit(CanonicalField::ProjectorStateValue, b),
            ProjectionValue::Scalar(b) => scalar_emit(CanonicalField::ProjectorStateValue, b),
            ProjectionValue::Truth(t) => emit(seq![if t { 1u8 } else { 0u8 }]),
        };
        let ry = match y {
            ProjectionValue::Extensive(b) => scalar_emit(CanonicalField::ProjectorStateValue, b),
            ProjectionValue::Scalar(b) => scalar_emit(CanonicalField::ProjectorStateValue, b),
            ProjectionValue::Truth(t) => emit(seq![if t { 1u8 } else { 0u8 }]),
        };
        assert(f(x).bytes =~= then(emit(seq![tx]), rx).bytes && f(x).error == then(emit(seq![tx]), rx).error);
        assert(f(y).bytes =~= then(emit(seq![ty]), ry).bytes && f(y).error == then(emit(seq![ty]), ry).error);
        lemma_read_head(seq![tx], rx, seq![ty], ry, r1, r2);
        assert(seq![tx][0] == seq![ty][0]);
        match x {
            ProjectionValue::Extensive(b) => {
                lemma_read_scalar(CanonicalField::ProjectorStateValue, b, CanonicalField::ProjectorStateValue, y->Extensive_0, r1, r2);
            },
            ProjectionValue::Scalar(b) => {
                lemma_read_scalar(CanonicalField::ProjectorStateValue, b, CanonicalField::ProjectorStateValue, y->Scalar_0, r1, r2);
            },
            ProjectionValue::Truth(_) => {
                lemma_split(rx.bytes, r1, ry.bytes, r2);
            },
        }
    }
    lemma_prefix_free_readable(f);
}

proof fn lemma_projector_states_readable()
    ensures
        readable(projector_state_emitter(), encoding_of(projector_state_emitter())),
{
    let f = projector_state_emitter();
    assert forall|x: InitialProjectorState, y: InitialProjectorState, r1: Seq<u8>, r2: Seq<u8>|
        #![trigger f(x).bytes + r1, f(y).bytes + r2]
        f(x).error is None && f(y).error is None && f(x).bytes + r1 == f(y).bytes + r2 implies r1 == r2 by {
        let vx = emit_counted(CanonicalField::ProjectorStateValues, x.values@, projection_value_emitter());
        let vy = emit_counted(CanonicalField::ProjectorStateValues, y.values@, projection_value_emitter());
        assert(f(x) == projector_state_emit(x));
        assert(f(y) == projector_state_emit(y));
        lemma_then_bytes(string_emit(CanonicalField::ProjectionIdentity, x.projection@), vx, r1);
        lemma_then_bytes(string_emit(CanonicalField::ProjectionIdentity, y.projection@), vy, r2);
        lemma_read_string(CanonicalField::ProjectionIdentity, x.projection@, CanonicalField::ProjectionIdentity, y.projection@, vx.bytes + r1, vy.bytes + r2);
        lemma_projection_values_readable();
        assert(x.values@.len() == x.values.len() && y.values@.len() == y.values.len());
        lemma_read_counted(CanonicalField::ProjectorStateValues, x.values@, CanonicalField::ProjectorStateValues, y.values@, projection_value_emitter(), encoding_of(projection_value_emitter()), r1, r2);
    }
    lemma_prefix_free_readable(f);
}

proof fn lemma_forcings_readable()
    ensures
        readable(forcing_entry_emitter(), encoding_of(forcing_entry_emitter())),
{
    let f = forcing_entry_emitter();
    assert forall|x: (Ident, ForcingSeries), y: (Ident, ForcingSeries), r1: Seq<u8>, r2: Seq<u8>|
        #![trigger f(x).bytes + r1, f(y).bytes + r2]
        f(x).error is None && f(y).error is None && f(x).bytes + r1 == f(y).bytes + r2 implies r1 == r2 by {
        let a = x.1;
        let b = y.1;
        let ha = emit(seq![spec_expression_kind_tag(a.value_kind)] + be_u64(a.horizon.first) + be_u64(a.horizon.last));
        let hb = emit(seq![spec_expression_kind_tag(b.value_kind)] + be_u64(b.horizon.first) + be_u64(b.horizon.last));
        let va = emit_counted(CanonicalField::ForcingSeriesValues, a.values@, scalar_emitter(CanonicalField::ForcingSeriesValue));
        let vb = emit_counted(CanonicalField::ForcingSeriesValues, b.values@, scalar_emitter(CanonicalField::ForcingSeriesValue));
        assert(f(x) == then(then(string_emit(CanonicalField::ForcingSeriesIdentity, a.id@), ha), va));
        assert(f(y) == then(then(string_emit(CanonicalField::ForcingSeriesIdentity, b.id@), hb), vb));
        lemma_then_bytes(then(string_emit(CanonicalField::ForcingSeriesIdentity, a.id@), ha), va, r1);
        lemma_then_bytes(then(string_emit(CanonicalField::ForcingSeriesIdentity, b.id@), hb), vb, r2);
        lemma_then_bytes(string_emit(CanonicalField::ForcingSeriesIdentity, a.id@), ha, va.bytes + r1);
        lemma_then_bytes(string_emit(CanonicalField::ForcingSeriesIdentity, b.id@), hb, vb.bytes + r2);
        lemma_read_string(CanonicalField::ForcingSeriesIdentity, a.id@, CanonicalField::ForcingSeriesIdentity, b.id@, ha.bytes + (va.bytes + r1), hb.bytes + (vb.bytes + r2));
        lemma_split(ha.bytes, va.bytes + r1, hb.bytes, vb.bytes + r2);
        let g = scalar_emitter(CanonicalField::ForcingSeriesValue);
        assert forall|p: u64, q: u64, s1: Seq<u8>, s2: Seq<u8>|
            #![trigger g(p).bytes + s1, g(q).bytes + s2]
            g(p).error is None && g(q).error is None && g(p).bytes + s1 == g(q).bytes + s2 implies s1 == s2 by {
            lemma_read_scalar(CanonicalField::ForcingSeriesValue, p, CanonicalField::ForcingSeriesValue, q, s1, s2);
        }
        lemma_prefix_free_readable(g);
        assert(a.values@.len() == a.values.len() && b.values@.len() == b.values.len());
        lemma_read_counted(CanonicalField::ForcingSeriesValues, a.values@, CanonicalField::ForcingSeriesValues, b.values@, g, encoding_of(g), r1, r2);
    }
    lemma_prefix_free_readable(f);
}

proof fn lemma_tables_readable()
    ensures
        readable(table_entry_emitter(), encoding_of(table_entry_emitter())),
{
    let f = table_entry_emitter();
    assert forall|x: (Ident, InterpolationTable), y: (Ident, InterpolationTable), r1: Seq<u8>, r2: Seq<u8>|
        #![trigger f(x).bytes + r1, f(y).bytes + r2]
        f(x).error is None && f(y).error is None && f(x).bytes + r1 == f(y).bytes + r2 implies r1 == r2 by {
        let a = x.1;
        let b = y.1;
        let ha = emit(be_u16(numerical_version_number(a.numerical_semantics_version)));
        let hb = emit(be_u16(numerical_version_number(b.numerical_semantics_version)));
        let pa = emit_counted(CanonicalField::InterpolationTablePoints, a.points@, point_emitter());
        let pb = emit_counted(CanonicalField::InterpolationTablePoints, b.points@, point_emitter());
        assert(f(x) == then(then(string_emit(CanonicalField::InterpolationTableIdentity, a.id@), ha), pa));
        assert(f(y) == then(then(string_emit(CanonicalField::InterpolationTableIdentity, b.id@), hb), pb));
        lemma_then_bytes(then(string_emit(CanonicalField::InterpolationTableIdentity, a.id@), ha), pa, r1);
        lemma_then_bytes(then(string_emit(CanonicalField::InterpolationTableIdentity, b.id@), hb), pb, r2);
        lemma_then_bytes(string_emit(CanonicalField::InterpolationTableIdentity, a.id@), ha, pa.bytes + r1);
        lemma_then_bytes(string_emit(CanonicalField::InterpolationTableIdentity, b.id@), hb, pb.bytes + r2);
        lemma_read_string(CanonicalField::InterpolationTableIdentity, a.id@, CanonicalField::InterpolationTableIdentity, b.id@, ha.bytes + (pa.bytes + r1), hb.bytes + (pb.bytes + r2));
        lemma_split(ha.bytes, pa.bytes + r1, hb.bytes, pb.bytes + r2);
        let g = point_emitter();
        assert forall|p: TablePoint, q: TablePoint, s1: Seq<u8>, s2: Seq<u8>|
            #![trigger g(p).bytes + s1, g(q).bytes + s2]
            g(p).error is None && g(q).error is None && g(p).bytes + s1 == g(q).bytes + s2 implies s1 == s2 by {
            let op = scalar_emit(CanonicalField::InterpolationTableOrdinate, p.ordinate_bits);
            let oq = scalar_emit(CanonicalField::InterpolationTableOrdinate, q.ordinate_bits);
            lemma_then_bytes(scalar_emit(CanonicalField::InterpolationTableAbscissa, p.abscissa_bits), op, s1);
            lemma_then_bytes(scalar_emit(CanonicalField::InterpolationTableAbscissa, q.abscissa_bits), oq, s2);
            lemma_read_scalar(CanonicalField::InterpolationTableAbscissa, p.abscissa_bits, CanonicalField::InterpolationTableAbscissa, q.abscissa_bits, op.bytes + s1, oq.bytes + s2);
            lemma_read_scalar(CanonicalField::InterpolationTableOrdinate, p.ordinate_bits, CanonicalField::InterpolationTableOrdinate, q.ordinate_bits, s1, s2);
        }
        lemma_prefix_free_readable(g);
        assert(a.points@.len() == a.points.len() && b.points@.len() == b.points.len());
        lemma_read_counted(CanonicalField::InterpolationTablePoints, a.points@, CanonicalField::InterpolationTablePoints, b.points@, g, encoding_of(g), r1, r2);
    }
    lemma_prefix_free_readable(f);
}

/// Artifacts with the same canonical bytes hold catalogues with the same encodings, element by
/// element and in the same order (projection specifications, projector states, forcings and
/// tables), and bodies with the same bytes.
#[verifier::spinoff_prover]
#[verifier::rlimit(80)]
pub proof fn lemma_canonical_bytes_determine_catalogues(a: ModelArtifact, b: ModelArtifact)
    requires
        a.wf(),
        b.wf(),
        a.spec_canonical_bytes() == b.spec_canonical_bytes(),
    ensures
        a.spec_projections().specifications@.len() == b.spec_projections().specifications@.len(),
        forall|i: int|
            0 <= i < a.spec_projections().specifications@.len() ==> projection_spec_emit(
                #[trigger] a.spec_projections().specifications@[i],
            ).bytes == projection_spec_emit(b.spec_projections().specifications@[i]).bytes,
        a.spec_projections().initial_states@.len() == b.spec_projections().initial_states@.len(),
        forall|i: int|
            0 <= i < a.spec_projections().initial_states@.len() ==> projector_state_emit(
                #[trigger] a.spec_projections().initial_states@[i],
            ).bytes == projector_state_emit(b.spec_projections().initial_states@[i]).bytes,
        a.spec_forcings().len() == b.spec_forcings().len(),
        forall|i: int| 0 <= i < a.spec_forcings().len() ==> forcing_emit((#[trigger] a.spec_forcings()[i]).1).bytes == forcing_emit(b.spec_forcings()[i].1).bytes,
        a.spec_tables().len() == b.spec_tables().len(),
        forall|i: int| 0 <= i < a.spec_tables().len() ==> table_emit((#[trigger] a.spec_tables()[i]).1).bytes == table_emit(b.spec_tables()[i].1).bytes,
        body_emit(a.spec_rules(), a.spec_execution_bindings(), a.spec_units()).error is None,
        body_emit(b.spec_rules(), b.spec_execution_bindings(), b.spec_units()).error is None,
        body_emit(a.spec_rules(), a.spec_execution_bindings(), a.spec_units()).bytes
            == body_emit(b.spec_rules(), b.spec_execution_bindings(), b.spec_units()).bytes,
{
    let pa = a.artifact_payload();
    let pb = b.artifact_payload();
    assert(spec_encode(0x0020, pa) == Ok::<Seq<u8>, crate::canonical_encoding::CanonicalEncodingError>(a.spec_canonical_bytes()));
    assert(spec_encode(0x0020, pb) == Ok::<Seq<u8>, crate::canonical_encoding::CanonicalEncodingError>(b.spec_canonical_bytes()));
    lemma_split(envelope(0x0020), pa.bytes, envelope(0x0020), pb.bytes);
    let ha = header_emit(a.spec_versions(), a.spec_topology(), a.spec_registry(), a.spec_initial_stocks(), a.spec_calendar(), a.spec_horizon());
    let hb = header_emit(b.spec_versions(), b.spec_topology(), b.spec_registry(), b.spec_initial_stocks(), b.spec_calendar(), b.spec_horizon());
    let ca = catalogues_emit(a.spec_projections(), a.spec_forcings(), a.spec_tables());
    let cb = catalogues_emit(b.spec_projections(), b.spec_forcings(), b.spec_tables());
    let ba = body_emit(a.spec_rules(), a.spec_execution_bindings(), a.spec_units());
    let bb = body_emit(b.spec_rules(), b.spec_execution_bindings(), b.spec_units());
    let empty = Seq::<u8>::empty();
    assert(pa.bytes + empty =~= pa.bytes);
    assert(pb.bytes + empty =~= pb.bytes);
    lemma_then_bytes(ha, then(ca, ba), empty);
    lemma_then_bytes(hb, then(cb, bb), empty);
    lemma_read_header(
        a.spec_versions(),
        a.spec_topology(),
        a.spec_registry(),
        a.spec_initial_stocks(),
        a.spec_calendar(),
        a.spec_horizon(),
        b.spec_versions(),
        b.spec_topology(),
        b.spec_registry(),
        b.spec_initial_stocks(),
        b.spec_calendar(),
        b.spec_horizon(),
        then(ca, ba).bytes + empty,
        then(cb, bb).bytes + empty,
    );
    lemma_then_bytes(ca, ba, empty);
    lemma_then_bytes(cb, bb, empty);
    let sa = a.spec_projections().specifications;
    let sb = b.spec_projections().specifications;
    let ia = a.spec_projections().initial_states;
    let ib = b.spec_projections().initial_states;
    assert(sa@.len() == sa.len() && sb@.len() == sb.len() && ia@.len() == ia.len() && ib@.len() == ib.len());
    a.lemma_lengths_fit();
    b.lemma_lengths_fit();
    let ta = emit_counted(CanonicalField::ArtifactTables, a.spec_tables(), table_entry_emitter());
    let tb = emit_counted(CanonicalField::ArtifactTables, b.spec_tables(), table_entry_emitter());
    let fa = then(emit_counted(CanonicalField::ArtifactForcings, a.spec_forcings(), forcing_entry_emitter()), ta);
    let fb = then(emit_counted(CanonicalField::ArtifactForcings, b.spec_forcings(), forcing_entry_emitter()), tb);
    let xa = then(emit_counted(CanonicalField::ArtifactProjectorStates, ia@, projector_state_emitter()), fa);
    let xb = then(emit_counted(CanonicalField::ArtifactProjectorStates, ib@, projector_state_emitter()), fb);
    let r1 = ba.bytes + empty;
    let r2 = bb.bytes + empty;
    lemma_then_bytes(emit_counted(CanonicalField::ArtifactProjections, sa@, projection_spec_emitter()), xa, r1);
    lemma_then_bytes(emit_counted(CanonicalField::ArtifactProjections, sb@, projection_spec_emitter()), xb, r2);
    lemma_projection_specs_readable();
    lemma_read_counted(CanonicalField::ArtifactProjections, sa@, CanonicalField::ArtifactProjections, sb@, projection_spec_emitter(), encoding_of(projection_spec_emitter()), xa.bytes + r1, xb.bytes + r2);
    lemma_then_bytes(emit_counted(CanonicalField::ArtifactProjectorStates, ia@, projector_state_emitter()), fa, r1);
    lemma_then_bytes(emit_counted(CanonicalField::ArtifactProjectorStates, ib@, projector_state_emitter()), fb, r2);
    lemma_projector_states_readable();
    lemma_read_counted(CanonicalField::ArtifactProjectorStates, ia@, CanonicalField::ArtifactProjectorStates, ib@, projector_state_emitter(), encoding_of(projector_state_emitter()), fa.bytes + r1, fb.bytes + r2);
    lemma_then_bytes(emit_counted(CanonicalField::ArtifactForcings, a.spec_forcings(), forcing_entry_emitter()), ta, r1);
    lemma_then_bytes(emit_counted(CanonicalField::ArtifactForcings, b.spec_forcings(), forcing_entry_emitter()), tb, r2);
    lemma_forcings_readable();
    lemma_read_counted(CanonicalField::ArtifactForcings, a.spec_forcings(), CanonicalField::ArtifactForcings, b.spec_forcings(), forcing_entry_emitter(), encoding_of(forcing_entry_emitter()), ta.bytes + r1, tb.bytes + r2);
    lemma_tables_readable();
    lemma_read_counted(CanonicalField::ArtifactTables, a.spec_tables(), CanonicalField::ArtifactTables, b.spec_tables(), table_entry_emitter(), encoding_of(table_entry_emitter()), r1, r2);
    assert(ba.bytes + empty =~= ba.bytes);
    assert(bb.bytes + empty =~= bb.bytes);
    assert forall|i: int| 0 <= i < sa@.len() implies projection_spec_emit(#[trigger] sa@[i]).bytes == projection_spec_emit(sb@[i]).bytes by {
        assert(encoding_of(projection_spec_emitter())(sa@[i]) == encoding_of(projection_spec_emitter())(sb@[i]));
    }
    assert forall|i: int| 0 <= i < ia@.len() implies projector_state_emit(#[trigger] ia@[i]).bytes == projector_state_emit(ib@[i]).bytes by {
        assert(encoding_of(projector_state_emitter())(ia@[i]) == encoding_of(projector_state_emitter())(ib@[i]));
    }
    assert forall|i: int| 0 <= i < a.spec_forcings().len() implies forcing_emit((#[trigger] a.spec_forcings()[i]).1).bytes == forcing_emit(b.spec_forcings()[i].1).bytes by {
        assert(encoding_of(forcing_entry_emitter())(a.spec_forcings()[i]) == encoding_of(forcing_entry_emitter())(b.spec_forcings()[i]));
    }
    assert forall|i: int| 0 <= i < a.spec_tables().len() implies table_emit((#[trigger] a.spec_tables()[i]).1).bytes == table_emit(b.spec_tables()[i].1).bytes by {
        assert(encoding_of(table_entry_emitter())(a.spec_tables()[i]) == encoding_of(table_entry_emitter())(b.spec_tables()[i]));
    }
}

} // verus!
