//! The immutable model artifact: every value that execution needs, its canonical bytes, and
//! the digest that addresses it.
//!
//! The digest is SHA-256 over the artifact's canonical V1 bytes.

use vstd::prelude::*;
use std::sync::Arc;
use crate::canonical_encoding::{
    be_i64, be_u16, be_u64, count_emit, emit, emit_counted, emit_each, emits, expression_kind_tag,
    lemma_chain, lemma_emit_each_error_prefix, lemma_emit_each_full, lemma_emit_each_step,
    lemma_emits_then, lemma_emits_then_error, numerical_version_number, projection_kind_tag,
    scalar_emit, spec_encode, spec_expression_kind_tag, spec_projection_kind_tag, string_emit,
    then, CanonicalEncode, CanonicalEncodingError, CanonicalField, CanonicalPayloadWriter,
    Emitted,
};
use crate::canonical_map::CanonicalMap;
use crate::component_encoding::{
    encode_registry_payload, encode_topology_payload, initial_stocks_emit, projection_spec_emit,
    projector_state_emit, registry_emit, topology_emit,
};
use crate::execution_bindings::{ExecutionBindings, RuleInputBinding, RuleInputSource, TransferBranchBinding};
use crate::forcing::{forcing_emit, ForcingSeries};
use crate::identity::{CanonicalKey, Ident, RuleCoordinate};
use crate::interpolation_table::{table_emit, InterpolationTable};
use crate::model_artifact::{sha256, spec_sha256, ModelDigest, ModelVersions, RuleDefinition, SubstanceUnit};
use crate::partition_expression::partition_emit;
use crate::projection::{InitialProjectorState, ProjectionSet, ProjectionSpec};
use crate::rule_expression::expression_emit;
use crate::substance_registry::{InitialStocks, SubstanceRegistry};
use crate::temporal::{FixedStepCalendar, RunHorizon};
use crate::topology::Topology;

verus! {

/// The digest of canonical artifact bytes: SHA-256 over the canonical V1 bytes.
pub open spec fn artifact_digest(bytes: Seq<u8>) -> Seq<u8> {
    spec_sha256(bytes)
}

// ---------------------------------------------------------------------------------------------
// The payload grammar of an artifact
// ---------------------------------------------------------------------------------------------

/// The four version payloads of a selection, in protocol order.
pub open spec fn versions_emit(v: ModelVersions) -> Emitted {
    emit(be_u16(1) + be_u16(1) + be_u16(numerical_version_number(v.spec_numerical_semantics())) + be_u16(1))
}

/// The header of an artifact payload: versions, topology, registry, initial stocks, calendar
/// and horizon.
pub open spec fn header_emit(
    versions: ModelVersions,
    topology: Topology,
    registry: SubstanceRegistry,
    stocks: InitialStocks,
    calendar: FixedStepCalendar,
    horizon: RunHorizon,
) -> Emitted {
    then(
        versions_emit(versions),
        then(
            topology_emit(topology),
            then(
                registry_emit(registry),
                then(
                    initial_stocks_emit(stocks),
                    emit(
                        be_i64(calendar.origin_unix_seconds) + be_u64(calendar.timestep_seconds) + be_u64(horizon.first)
                            + be_u64(horizon.last),
                    ),
                ),
            ),
        ),
    )
}

pub open spec fn projection_spec_emitter() -> spec_fn(ProjectionSpec) -> Emitted {
    |p: ProjectionSpec| projection_spec_emit(p)
}

pub open spec fn projector_state_emitter() -> spec_fn(InitialProjectorState) -> Emitted {
    |s: InitialProjectorState| projector_state_emit(s)
}

pub open spec fn forcing_entry_emitter() -> spec_fn((Ident, ForcingSeries)) -> Emitted {
    |e: (Ident, ForcingSeries)| forcing_emit(e.1)
}

pub open spec fn table_entry_emitter() -> spec_fn((Ident, InterpolationTable)) -> Emitted {
    |e: (Ident, InterpolationTable)| table_emit(e.1)
}

/// The catalogues of an artifact payload: projections, projector states, forcings and tables.
pub open spec fn catalogues_emit(
    projections: ProjectionSet,
    forcings: Seq<(Ident, ForcingSeries)>,
    tables: Seq<(Ident, InterpolationTable)>,
) -> Emitted {
    then(
        emit_counted(CanonicalField::ArtifactProjections, projections.specifications@, projection_spec_emitter()),
        then(
            emit_counted(CanonicalField::ArtifactProjectorStates, projections.initial_states@, projector_state_emitter()),
            then(
                emit_counted(CanonicalField::ArtifactForcings, forcings, forcing_entry_emitter()),
                emit_counted(CanonicalField::ArtifactTables, tables, table_entry_emitter()),
            ),
        ),
    )
}

/// The grammar of one rule parameter: its identity, then its binary64 value.
pub open spec fn parameter_emitter() -> spec_fn((Ident, u64)) -> Emitted {
    |p: (Ident, u64)|
        then(
            string_emit(CanonicalField::ArtifactParameterIdentity, p.0@),
            scalar_emit(CanonicalField::ArtifactParameterValue, p.1),
        )
}

/// The grammar of one rule: its coordinate, expression, partition and parameters.
pub open spec fn rule_emit(rule: RuleDefinition) -> Emitted {
    then(
        string_emit(CanonicalField::ArtifactRuleCompartment, rule.spec_compartment()@),
        then(
            string_emit(CanonicalField::ArtifactRuleSubstance, rule.spec_substance()@),
            then(
                expression_emit(rule.spec_expression()),
                then(
                    partition_emit(rule.spec_disposition()),
                    emit_counted(CanonicalField::ArtifactParameters, rule.spec_parameters(), parameter_emitter()),
                ),
            ),
        ),
    )
}

pub open spec fn rule_entry_emitter() -> spec_fn((RuleCoordinate, RuleDefinition)) -> Emitted {
    |e: (RuleCoordinate, RuleDefinition)| rule_emit(e.1)
}

/// The grammar of one transfer binding: compartment, substance, branch and destination.
pub open spec fn transfer_binding_emitter() -> spec_fn(TransferBranchBinding) -> Emitted {
    |b: TransferBranchBinding|
        then(
            string_emit(CanonicalField::ArtifactTransferBindingCompartment, b.compartment@),
            then(
                string_emit(CanonicalField::ArtifactTransferBindingSubstance, b.substance@),
                then(
                    string_emit(CanonicalField::ArtifactTransferBindingBranch, b.branch@),
                    string_emit(CanonicalField::ArtifactTransferBindingDestination, b.destination@),
                ),
            ),
        )
}

/// The grammar of the source of an input binding: forcing 0, table 1, projection 2 (with its
/// kind).
pub open spec fn input_source_emit(source: RuleInputSource) -> Emitted {
    match source {
        RuleInputSource::Forcing(r) => then(emit(seq![0u8]), string_emit(CanonicalField::ArtifactInputSourceIdentity, r.id@)),
        RuleInputSource::InterpolationTable(r) => then(
            emit(seq![1u8]),
            string_emit(CanonicalField::ArtifactInputSourceIdentity, r.id@),
        ),
        RuleInputSource::Projection(r) => then(
            emit(seq![2u8]),
            then(
                string_emit(CanonicalField::ArtifactInputSourceIdentity, r.id@),
                emit(seq![spec_projection_kind_tag(r.value_kind)]),
            ),
        ),
    }
}

/// The grammar of one input binding: compartment, substance, input, value kind and source.
pub open spec fn input_binding_emitter() -> spec_fn(RuleInputBinding) -> Emitted {
    |b: RuleInputBinding|
        then(
            string_emit(CanonicalField::ArtifactInputBindingCompartment, b.compartment@),
            then(
                string_emit(CanonicalField::ArtifactInputBindingSubstance, b.substance@),
                then(
                    string_emit(CanonicalField::ArtifactInputBindingIdentity, b.reference.id@),
                    then(emit(seq![spec_expression_kind_tag(b.reference.value_kind)]), input_source_emit(b.source)),
                ),
            ),
        )
}

/// The grammar of one unit declaration: substance, unit identity and quantum.
pub open spec fn unit_emitter() -> spec_fn((Ident, (Ident, SubstanceUnit))) -> Emitted {
    |e: (Ident, (Ident, SubstanceUnit))|
        then(
            string_emit(CanonicalField::ArtifactUnitSubstance, e.1.0@),
            then(
                string_emit(CanonicalField::ArtifactUnitIdentity, e.1.1.spec_unit()),
                scalar_emit(CanonicalField::ArtifactUnitQuantum, e.1.1.spec_quantum().spec_bits()),
            ),
        )
}

/// The rules, bindings and units of an artifact payload.
pub open spec fn body_emit(
    rules: Seq<(RuleCoordinate, RuleDefinition)>,
    bindings: ExecutionBindings,
    units: Seq<(Ident, (Ident, SubstanceUnit))>,
) -> Emitted {
    then(
        emit_counted(CanonicalField::ArtifactRules, rules, rule_entry_emitter()),
        then(
            emit_counted(CanonicalField::ArtifactTransferBindings, bindings.transfer_bindings@, transfer_binding_emitter()),
            then(
                emit_counted(CanonicalField::ArtifactInputBindings, bindings.input_bindings@, input_binding_emitter()),
                emit_counted(CanonicalField::ArtifactUnits, units, unit_emitter()),
            ),
        ),
    )
}

/// The canonical V1 payload grammar of artifact content.
pub open spec fn content_payload(
    versions: ModelVersions,
    topology: Topology,
    registry: SubstanceRegistry,
    stocks: InitialStocks,
    calendar: FixedStepCalendar,
    horizon: RunHorizon,
    projections: ProjectionSet,
    forcings: Seq<(Ident, ForcingSeries)>,
    tables: Seq<(Ident, InterpolationTable)>,
    rules: Seq<(RuleCoordinate, RuleDefinition)>,
    bindings: ExecutionBindings,
    units: Seq<(Ident, (Ident, SubstanceUnit))>,
) -> Emitted {
    then(
        header_emit(versions, topology, registry, stocks, calendar, horizon),
        then(catalogues_emit(projections, forcings, tables), body_emit(rules, bindings, units)),
    )
}

// ---------------------------------------------------------------------------------------------
// The artifact
// ---------------------------------------------------------------------------------------------

/// A complete immutable model value whose identity covers all execution inputs.
#[derive(Clone, Debug, PartialEq)]
pub struct ModelArtifact {
    topology: Arc<Topology>,
    registry: Arc<SubstanceRegistry>,
    initial_stocks: Arc<InitialStocks>,
    initial_quantum_counts: Arc<CanonicalMap<RuleCoordinate, u64>>,
    projections: Arc<ProjectionSet>,
    calendar: FixedStepCalendar,
    horizon: RunHorizon,
    forcings: Arc<CanonicalMap<Ident, ForcingSeries>>,
    tables: Arc<CanonicalMap<Ident, InterpolationTable>>,
    rules: CanonicalMap<RuleCoordinate, RuleDefinition>,
    execution_bindings: Arc<ExecutionBindings>,
    units: Arc<CanonicalMap<Ident, (Ident, SubstanceUnit)>>,
    versions: ModelVersions,
    canonical_bytes: Vec<u8>,
    digest: ModelDigest,
}

impl ModelArtifact {
    pub closed spec fn spec_topology(&self) -> Topology {
        *self.topology
    }

    pub closed spec fn spec_registry(&self) -> SubstanceRegistry {
        *self.registry
    }

    pub closed spec fn spec_initial_stocks(&self) -> InitialStocks {
        *self.initial_stocks
    }

    /// The whole-quantum count of each finite compartment's initial stock of each substance
    /// that has one, keyed by (compartment, substance).
    pub closed spec fn spec_initial_quantum_counts(&self) -> Seq<(RuleCoordinate, u64)> {
        self.initial_quantum_counts@
    }

    pub closed spec fn spec_projections(&self) -> ProjectionSet {
        *self.projections
    }

    pub closed spec fn spec_calendar(&self) -> FixedStepCalendar {
        self.calendar
    }

    pub closed spec fn spec_horizon(&self) -> RunHorizon {
        self.horizon
    }

    pub closed spec fn spec_forcings(&self) -> Seq<(Ident, ForcingSeries)> {
        self.forcings@
    }

    pub closed spec fn spec_tables(&self) -> Seq<(Ident, InterpolationTable)> {
        self.tables@
    }

    pub closed spec fn spec_rules(&self) -> Seq<(RuleCoordinate, RuleDefinition)> {
        self.rules@
    }

    pub closed spec fn spec_execution_bindings(&self) -> ExecutionBindings {
        *self.execution_bindings
    }

    /// The unit declarations keyed by substance, each with the substance it declares.
    pub closed spec fn spec_units(&self) -> Seq<(Ident, (Ident, SubstanceUnit))> {
        self.units@
    }

    pub closed spec fn spec_versions(&self) -> ModelVersions {
        self.versions
    }

    pub closed spec fn spec_canonical_bytes(&self) -> Seq<u8> {
        self.canonical_bytes@
    }

    pub closed spec fn spec_digest(&self) -> ModelDigest {
        self.digest
    }

    /// The maps of the artifact are canonical and its topology well formed.
    pub closed spec fn maps_wf(&self) -> bool {
        &&& self.topology.wf()
        &&& self.rules.wf()
        &&& self.forcings.wf()
        &&& self.tables.wf()
        &&& self.units.wf()
        &&& self.initial_quantum_counts.wf()
        &&& forall|i: int| 0 <= i < self.rules@.len() ==> (#[trigger] self.rules@[i]).1.wf()
    }

    /// The canonical V1 payload grammar of the artifact.
    pub open spec fn artifact_payload(&self) -> Emitted {
        content_payload(
            self.spec_versions(),
            self.spec_topology(),
            self.spec_registry(),
            self.spec_initial_stocks(),
            self.spec_calendar(),
            self.spec_horizon(),
            self.spec_projections(),
            self.spec_forcings(),
            self.spec_tables(),
            self.spec_rules(),
            self.spec_execution_bindings(),
            self.spec_units(),
        )
    }

    /// The artifact's bytes are its canonical encoding and its digest addresses them.
    pub open spec fn identity_holds(&self) -> bool {
        &&& spec_encode(0x0020, self.artifact_payload()) == Ok::<Seq<u8>, CanonicalEncodingError>(self.spec_canonical_bytes())
        &&& self.spec_digest().spec_bytes() == artifact_digest(self.spec_canonical_bytes())
    }

    /// Well-formed: canonical maps, and the identity derived from the content.
    pub open spec fn wf(&self) -> bool {
        self.maps_wf() && self.identity_holds()
    }
}


// ---------------------------------------------------------------------------------------------
// Writing the payload
// ---------------------------------------------------------------------------------------------

fn write_parameter(writer: &mut CanonicalPayloadWriter, p: &(Ident, u64)) -> (r: Result<(), CanonicalEncodingError>)
    ensures
        emits(old(writer)@, final(writer)@, r, parameter_emitter()(*p)),
{
    let ghost before = writer@;
    let r1 = writer.write_ident(CanonicalField::ArtifactParameterIdentity, &p.0);
    let ghost m = writer@;
    let r = writer.write_scalar(CanonicalField::ArtifactParameterValue, p.1);
    proof {
        lemma_chain(before, m, writer@, string_emit(CanonicalField::ArtifactParameterIdentity, p.0@), scalar_emit(CanonicalField::ArtifactParameterValue, p.1), r);
    }
    r
}

fn write_rule(writer: &mut CanonicalPayloadWriter, rule: &RuleDefinition) -> (r: Result<(), CanonicalEncodingError>)
    ensures
        emits(old(writer)@, final(writer)@, r, rule_emit(*rule)),
{
    let ghost before = writer@;
    let ghost a = string_emit(CanonicalField::ArtifactRuleCompartment, rule.spec_compartment()@);
    let ghost b = string_emit(CanonicalField::ArtifactRuleSubstance, rule.spec_substance()@);
    let ghost c = expression_emit(rule.spec_expression());
    let ghost d = partition_emit(rule.spec_disposition());
    let ghost e = emit_counted(CanonicalField::ArtifactParameters, rule.spec_parameters(), parameter_emitter());
    let r1 = writer.write_ident(CanonicalField::ArtifactRuleCompartment, rule.compartment());
    let ghost m1 = writer@;
    let r2 = writer.write_ident(CanonicalField::ArtifactRuleSubstance, rule.substance());
    let ghost m2 = writer@;
    let r3 = rule.expression().encode_payload(writer);
    if r3.is_err() {
        proof {
            lemma_emits_then_error(m2, writer@, r3, c, then(d, e));
            lemma_chain(m1, m2, writer@, b, then(c, then(d, e)), r3);
            lemma_chain(before, m1, writer@, a, then(b, then(c, then(d, e))), r3);
        }
        return r3;
    }
    let ghost m3 = writer@;
    let r4 = rule.disposition().encode_payload(writer);
    if r4.is_err() {
        proof {
            lemma_emits_then_error(m3, writer@, r4, d, e);
            lemma_chain(m2, m3, writer@, c, then(d, e), r4);
            lemma_chain(m1, m2, writer@, b, then(c, then(d, e)), r4);
            lemma_chain(before, m1, writer@, a, then(b, then(c, then(d, e))), r4);
        }
        return r4;
    }
    let ghost m4 = writer@;
    let parameters = rule.parameters();
    let r5 = writer.write_count(CanonicalField::ArtifactParameters, parameters.len());
    let ghost m5 = writer@;
    let r = write_parameters(writer, parameters);
    proof {
        lemma_chain(m4, m5, writer@, count_emit(CanonicalField::ArtifactParameters, parameters@.len() as usize), emit_each(parameters@, parameter_emitter()), r);
        lemma_chain(m3, m4, writer@, d, e, r);
        lemma_chain(m2, m3, writer@, c, then(d, e), r);
        lemma_chain(m1, m2, writer@, b, then(c, then(d, e)), r);
        lemma_chain(before, m1, writer@, a, then(b, then(c, then(d, e))), r);
    }
    r
}

fn write_transfer_binding(writer: &mut CanonicalPayloadWriter, b: &TransferBranchBinding) -> (r: Result<(), CanonicalEncodingError>)
    ensures
        emits(old(writer)@, final(writer)@, r, transfer_binding_emitter()(*b)),
        r is Ok,
{
    let ghost before = writer@;
    let r1 = writer.write_ident(CanonicalField::ArtifactTransferBindingCompartment, &b.compartment);
    let ghost m1 = writer@;
    let r2 = writer.write_ident(CanonicalField::ArtifactTransferBindingSubstance, &b.substance);
    let ghost m2 = writer@;
    let r3 = writer.write_ident(CanonicalField::ArtifactTransferBindingBranch, &b.branch);
    let ghost m3 = writer@;
    let r = writer.write_ident(CanonicalField::ArtifactTransferBindingDestination, &b.destination);
    proof {
        let x1 = string_emit(CanonicalField::ArtifactTransferBindingCompartment, b.compartment@);
        let x2 = string_emit(CanonicalField::ArtifactTransferBindingSubstance, b.substance@);
        let x3 = string_emit(CanonicalField::ArtifactTransferBindingBranch, b.branch@);
        let x4 = string_emit(CanonicalField::ArtifactTransferBindingDestination, b.destination@);
        lemma_chain(m2, m3, writer@, x3, x4, r);
        lemma_chain(m1, m2, writer@, x2, then(x3, x4), r);
        lemma_chain(before, m1, writer@, x1, then(x2, then(x3, x4)), r);
    }
    r
}

fn write_input_source(writer: &mut CanonicalPayloadWriter, source: &RuleInputSource) -> (r: Result<(), CanonicalEncodingError>)
    ensures
        emits(old(writer)@, final(writer)@, r, input_source_emit(*source)),
        r is Ok,
{
    let ghost before = writer@;
    match source {
        RuleInputSource::Forcing(reference) => {
            writer.write_u8(0);
            let ghost m = writer@;
            let r = writer.write_ident(CanonicalField::ArtifactInputSourceIdentity, &reference.id);
            proof {
                lemma_chain(before, m, writer@, emit(seq![0u8]), string_emit(CanonicalField::ArtifactInputSourceIdentity, reference.id@), r);
            }
            r
        },
        RuleInputSource::InterpolationTable(reference) => {
            writer.write_u8(1);
            let ghost m = writer@;
            let r = writer.write_ident(CanonicalField::ArtifactInputSourceIdentity, &reference.id);
            proof {
                lemma_chain(before, m, writer@, emit(seq![1u8]), string_emit(CanonicalField::ArtifactInputSourceIdentity, reference.id@), r);
            }
            r
        },
        RuleInputSource::Projection(reference) => {
            writer.write_u8(2);
            let ghost m = writer@;
            let r1 = writer.write_ident(CanonicalField::ArtifactInputSourceIdentity, &reference.id);
            let ghost m2 = writer@;
            writer.write_u8(projection_kind_tag(reference.value_kind));
            proof {
                let x = string_emit(CanonicalField::ArtifactInputSourceIdentity, reference.id@);
                let y = emit(seq![spec_projection_kind_tag(reference.value_kind)]);
                lemma_chain(m, m2, writer@, x, y, Ok(()));
                lemma_chain(before, m, writer@, emit(seq![2u8]), then(x, y), Ok(()));
            }
            Ok(())
        },
    }
}

fn write_input_binding(writer: &mut CanonicalPayloadWriter, b: &RuleInputBinding) -> (r: Result<(), CanonicalEncodingError>)
    ensures
        emits(old(writer)@, final(writer)@, r, input_binding_emitter()(*b)),
        r is Ok,
{
    let ghost before = writer@;
    let r1 = writer.write_ident(CanonicalField::ArtifactInputBindingCompartment, &b.compartment);
    let ghost m1 = writer@;
    let r2 = writer.write_ident(CanonicalField::ArtifactInputBindingSubstance, &b.substance);
    let ghost m2 = writer@;
    let r3 = writer.write_ident(CanonicalField::ArtifactInputBindingIdentity, &b.reference.id);
    let ghost m3 = writer@;
    writer.write_u8(expression_kind_tag(b.reference.value_kind));
    let ghost m4 = writer@;
    let r = write_input_source(writer, &b.source);
    proof {
        let x1 = string_emit(CanonicalField::ArtifactInputBindingCompartment, b.compartment@);
        let x2 = string_emit(CanonicalField::ArtifactInputBindingSubstance, b.substance@);
        let x3 = string_emit(CanonicalField::ArtifactInputBindingIdentity, b.reference.id@);
        let x4 = emit(seq![spec_expression_kind_tag(b.reference.value_kind)]);
        let x5 = input_source_emit(b.source);
        lemma_chain(m3, m4, writer@, x4, x5, r);
        lemma_chain(m2, m3, writer@, x3, then(x4, x5), r);
        lemma_chain(m1, m2, writer@, x2, then(x3, then(x4, x5)), r);
        lemma_chain(before, m1, writer@, x1, then(x2, then(x3, then(x4, x5))), r);
    }
    r
}

fn write_unit(writer: &mut CanonicalPayloadWriter, e: &(Ident, (Ident, SubstanceUnit))) -> (r: Result<(), CanonicalEncodingError>)
    ensures
        emits(old(writer)@, final(writer)@, r, unit_emitter()(*e)),
{
    let ghost before = writer@;
    let r1 = writer.write_ident(CanonicalField::ArtifactUnitSubstance, &e.1.0);
    let ghost m1 = writer@;
    let r2 = writer.write_string(CanonicalField::ArtifactUnitIdentity, e.1.1.unit().as_str());
    let ghost m2 = writer@;
    let r = writer.write_scalar(CanonicalField::ArtifactUnitQuantum, e.1.1.quantum().value_bits());
    proof {
        let x1 = string_emit(CanonicalField::ArtifactUnitSubstance, e.1.0@);
        let x2 = string_emit(CanonicalField::ArtifactUnitIdentity, e.1.1.spec_unit());
        let x3 = scalar_emit(CanonicalField::ArtifactUnitQuantum, e.1.1.spec_quantum().spec_bits());
        lemma_chain(m1, m2, writer@, x2, x3, r);
        lemma_chain(before, m1, writer@, x1, then(x2, x3), r);
    }
    r
}

fn write_projection_specs(writer: &mut CanonicalPayloadWriter, items: &Vec<ProjectionSpec>) -> (r: Result<(), CanonicalEncodingError>)
    ensures
        emits(old(writer)@, final(writer)@, r, emit_each(items@, projection_spec_emitter())),
{
    let ghost start = writer@;
    let ghost f = projection_spec_emitter();
    let mut i: usize = 0;
    proof {
        assert(items@.take(0) =~= Seq::<ProjectionSpec>::empty());
        assert(start + Seq::<u8>::empty() =~= start);
    }
    while i < items.len()
        invariant
            0 <= i <= items@.len(),
            f == projection_spec_emitter(),
            start == old(writer)@,
            writer@ == start + emit_each(items@.take(i as int), f).bytes,
            emit_each(items@.take(i as int), f).error is None,
        decreases items@.len() - i,
    {
        let ghost m = writer@;
        let r = items[i].encode_payload(writer);
        proof {
            lemma_emit_each_step(items@, f, i as int);
            lemma_emits_then(start, m, writer@, emit_each(items@.take(i as int), f), f(items@[i as int]), r);
        }
        if r.is_err() {
            proof {
                lemma_emit_each_error_prefix(items@, f, i + 1);
            }
            return r;
        }
        i = i + 1;
    }
    proof {
        lemma_emit_each_full(items@, f);
    }
    Ok(())
}

fn write_projector_states(writer: &mut CanonicalPayloadWriter, items: &Vec<InitialProjectorState>) -> (r: Result<(), CanonicalEncodingError>)
    ensures
        emits(old(writer)@, final(writer)@, r, emit_each(items@, projector_state_emitter())),
{
    let ghost start = writer@;
    let ghost f = projector_state_emitter();
    let mut i: usize = 0;
    proof {
        assert(items@.take(0) =~= Seq::<InitialProjectorState>::empty());
        assert(start + Seq::<u8>::empty() =~= start);
    }
    while i < items.len()
        invariant
            0 <= i <= items@.len(),
            f == projector_state_emitter(),
            start == old(writer)@,
            writer@ == start + emit_each(items@.take(i as int), f).bytes,
            emit_each(items@.take(i as int), f).error is None,
        decreases items@.len() - i,
    {
        let ghost m = writer@;
        let r = items[i].encode_payload(writer);
        proof {
            lemma_emit_each_step(items@, f, i as int);
            lemma_emits_then(start, m, writer@, emit_each(items@.take(i as int), f), f(items@[i as int]), r);
        }
        if r.is_err() {
            proof {
                lemma_emit_each_error_prefix(items@, f, i + 1);
            }
            return r;
        }
        i = i + 1;
    }
    proof {
        lemma_emit_each_full(items@, f);
    }
    Ok(())
}

fn write_forcing_entries(writer: &mut CanonicalPayloadWriter, items: &Vec<(Ident, ForcingSeries)>) -> (r: Result<(), CanonicalEncodingError>)
    ensures
        emits(old(writer)@, final(writer)@, r, emit_each(items@, forcing_entry_emitter())),
{
    let ghost start = writer@;
    let ghost f = forcing_entry_emitter();
    let mut i: usize = 0;
    proof {
        assert(items@.take(0) =~= Seq::<(Ident, ForcingSeries)>::empty());
        assert(start + Seq::<u8>::empty() =~= start);
    }
    while i < items.len()
        invariant
            0 <= i <= items@.len(),
            f == forcing_entry_emitter(),
            start == old(writer)@,
            writer@ == start + emit_each(items@.take(i as int), f).bytes,
            emit_each(items@.take(i as int), f).error is None,
        decreases items@.len() - i,
    {
        let ghost m = writer@;
        let r = items[i].1.encode_payload(writer);
        proof {
            lemma_emit_each_step(items@, f, i as int);
            lemma_emits_then(start, m, writer@, emit_each(items@.take(i as int), f), f(items@[i as int]), r);
        }
        if r.is_err() {
            proof {
                lemma_emit_each_error_prefix(items@, f, i + 1);
            }
            return r;
        }
        i = i + 1;
    }
    proof {
        lemma_emit_each_full(items@, f);
    }
    Ok(())
}

fn write_table_entries(writer: &mut CanonicalPayloadWriter, items: &Vec<(Ident, InterpolationTable)>) -> (r: Result<(), CanonicalEncodingError>)
    ensures
        emits(old(writer)@, final(writer)@, r, emit_each(items@, table_entry_emitter())),
{
    let ghost start = writer@;
    let ghost f = table_entry_emitter();
    let mut i: usize = 0;
    proof {
        assert(items@.take(0) =~= Seq::<(Ident, InterpolationTable)>::empty());
        assert(start + Seq::<u8>::empty() =~= start);
    }
    while i < items.len()
        invariant
            0 <= i <= items@.len(),
            f == table_entry_emitter(),
            start == old(writer)@,
            writer@ == start + emit_each(items@.take(i as int), f).bytes,
            emit_each(items@.take(i as int), f).error is None,
        decreases items@.len() - i,
    {
        let ghost m = writer@;
        let r = items[i].1.encode_payload(writer);
        proof {
            lemma_emit_each_step(items@, f, i as int);
            lemma_emits_then(start, m, writer@, emit_each(items@.take(i as int), f), f(items@[i as int]), r);
        }
        if r.is_err() {
            proof {
                lemma_emit_each_error_prefix(items@, f, i + 1);
            }
            return r;
        }
        i = i + 1;
    }
    proof {
        lemma_emit_each_full(items@, f);
    }
    Ok(())
}

fn write_parameters(writer: &mut CanonicalPayloadWriter, items: &Vec<(Ident, u64)>) -> (r: Result<(), CanonicalEncodingError>)
    ensures
        emits(old(writer)@, final(writer)@, r, emit_each(items@, parameter_emitter())),
{
    let ghost start = writer@;
    let ghost f = parameter_emitter();
    let mut i: usize = 0;
    proof {
        assert(items@.take(0) =~= Seq::<(Ident, u64)>::empty());
        assert(start + Seq::<u8>::empty() =~= start);
    }
    while i < items.len()
        invariant
            0 <= i <= items@.len(),
            f == parameter_emitter(),
            start == old(writer)@,
            writer@ == start + emit_each(items@.take(i as int), f).bytes,
            emit_each(items@.take(i as int), f).error is None,
        decreases items@.len() - i,
    {
        let ghost m = writer@;
        let r = write_parameter(writer, &items[i]);
        proof {
            lemma_emit_each_step(items@, f, i as int);
            lemma_emits_then(start, m, writer@, emit_each(items@.take(i as int), f), f(items@[i as int]), r);
        }
        if r.is_err() {
            proof {
                lemma_emit_each_error_prefix(items@, f, i + 1);
            }
            return r;
        }
        i = i + 1;
    }
    proof {
        lemma_emit_each_full(items@, f);
    }
    Ok(())
}

fn write_rule_entries(writer: &mut CanonicalPayloadWriter, items: &Vec<(RuleCoordinate, RuleDefinition)>) -> (r: Result<(), CanonicalEncodingError>)
    ensures
        emits(old(writer)@, final(writer)@, r, emit_each(items@, rule_entry_emitter())),
{
    let ghost start = writer@;
    let ghost f = rule_entry_emitter();
    let mut i: usize = 0;
    proof {
        assert(items@.take(0) =~= Seq::<(RuleCoordinate, RuleDefinition)>::empty());
        assert(start + Seq::<u8>::empty() =~= start);
    }
    while i < items.len()
        invariant
            0 <= i <= items@.len(),
            f == rule_entry_emitter(),
            start == old(writer)@,
            writer@ == start + emit_each(items@.take(i as int), f).bytes,
            emit_each(items@.take(i as int), f).error is None,
        decreases items@.len() - i,
    {
        let ghost m = writer@;
        let r = write_rule(writer, &items[i].1);
        proof {
            lemma_emit_each_step(items@, f, i as int);
            lemma_emits_then(start, m, writer@, emit_each(items@.take(i as int), f), f(items@[i as int]), r);
        }
        if r.is_err() {
            proof {
                lemma_emit_each_error_prefix(items@, f, i + 1);
            }
            return r;
        }
        i = i + 1;
    }
    proof {
        lemma_emit_each_full(items@, f);
    }
    Ok(())
}

fn write_transfer_bindings(writer: &mut CanonicalPayloadWriter, items: &Vec<TransferBranchBinding>) -> (r: Result<(), CanonicalEncodingError>)
    ensures
        emits(old(writer)@, final(writer)@, r, emit_each(items@, transfer_binding_emitter())),
{
    let ghost start = writer@;
    let ghost f = transfer_binding_emitter();
    let mut i: usize = 0;
    proof {
        assert(items@.take(0) =~= Seq::<TransferBranchBinding>::empty());
        assert(start + Seq::<u8>::empty() =~= start);
    }
    while i < items.len()
        invariant
            0 <= i <= items@.len(),
            f == transfer_binding_emitter(),
            start == old(writer)@,
            writer@ == start + emit_each(items@.take(i as int), f).bytes,
            emit_each(items@.take(i as int), f).error is None,
        decreases items@.len() - i,
    {
        let ghost m = writer@;
        let r = write_transfer_binding(writer, &items[i]);
        proof {
            lemma_emit_each_step(items@, f, i as int);
            lemma_emits_then(start, m, writer@, emit_each(items@.take(i as int), f), f(items@[i as int]), r);
        }
        if r.is_err() {
            proof {
                lemma_emit_each_error_prefix(items@, f, i + 1);
            }
            return r;
        }
        i = i + 1;
    }
    proof {
        lemma_emit_each_full(items@, f);
    }
    Ok(())
}

fn write_input_bindings(writer: &mut CanonicalPayloadWriter, items: &Vec<RuleInputBinding>) -> (r: Result<(), CanonicalEncodingError>)
    ensures
        emits(old(writer)@, final(writer)@, r, emit_each(items@, input_binding_emitter())),
{
    let ghost start = writer@;
    let ghost f = input_binding_emitter();
    let mut i: usize = 0;
    proof {
        assert(items@.take(0) =~= Seq::<RuleInputBinding>::empty());
        assert(start + Seq::<u8>::empty() =~= start);
    }
    while i < items.len()
        invariant
            0 <= i <= items@.len(),
            f == input_binding_emitter(),
            start == old(writer)@,
            writer@ == start + emit_each(items@.take(i as int), f).bytes,
            emit_each(items@.take(i as int), f).error is None,
        decreases items@.len() - i,
    {
        let ghost m = writer@;
        let r = write_input_binding(writer, &items[i]);
        proof {
            lemma_emit_each_step(items@, f, i as int);
            lemma_emits_then(start, m, writer@, emit_each(items@.take(i as int), f), f(items@[i as int]), r);
        }
        if r.is_err() {
            proof {
                lemma_emit_each_error_prefix(items@, f, i + 1);
            }
            return r;
        }
        i = i + 1;
    }
    proof {
        lemma_emit_each_full(items@, f);
    }
    Ok(())
}

fn write_units(writer: &mut CanonicalPayloadWriter, items: &Vec<(Ident, (Ident, SubstanceUnit))>) -> (r: Result<(), CanonicalEncodingError>)
    ensures
        emits(old(writer)@, final(writer)@, r, emit_each(items@, unit_emitter())),
{
    let ghost start = writer@;
    let ghost f = unit_emitter();
    let mut i: usize = 0;
    proof {
        assert(items@.take(0) =~= Seq::<(Ident, (Ident, SubstanceUnit))>::empty());
        assert(start + Seq::<u8>::empty() =~= start);
    }
    while i < items.len()
        invariant
            0 <= i <= items@.len(),
            f == unit_emitter(),
            start == old(writer)@,
            writer@ == start + emit_each(items@.take(i as int), f).bytes,
            emit_each(items@.take(i as int), f).error is None,
        decreases items@.len() - i,
    {
        let ghost m = writer@;
        let r = write_unit(writer, &items[i]);
        proof {
            lemma_emit_each_step(items@, f, i as int);
            lemma_emits_then(start, m, writer@, emit_each(items@.take(i as int), f), f(items@[i as int]), r);
        }
        if r.is_err() {
            proof {
                lemma_emit_each_error_prefix(items@, f, i + 1);
            }
            return r;
        }
        i = i + 1;
    }
    proof {
        lemma_emit_each_full(items@, f);
    }
    Ok(())
}


/// Writes a counted list: its length at `field`, then what `written` wrote.
proof fn lemma_counted<T>(
    before: Seq<u8>,
    mid: Seq<u8>,
    after: Seq<u8>,
    field: CanonicalField,
    items: Seq<T>,
    f: spec_fn(T) -> Emitted,
    r: Result<(), CanonicalEncodingError>,
)
    requires
        mid == before + count_emit(field, items.len() as usize).bytes,
        count_emit(field, items.len() as usize).error is None,
        emits(mid, after, r, emit_each(items, f)),
    ensures
        emits(before, after, r, emit_counted(field, items, f)),
{
    lemma_chain(before, mid, after, count_emit(field, items.len() as usize), emit_each(items, f), r);
}

impl ModelArtifact {
    fn write_header(&self, writer: &mut CanonicalPayloadWriter) -> (r: Result<(), CanonicalEncodingError>)
        ensures
            emits(
                old(writer)@,
                final(writer)@,
                r,
                header_emit(
                    self.spec_versions(),
                    self.spec_topology(),
                    self.spec_registry(),
                    self.spec_initial_stocks(),
                    self.spec_calendar(),
                    self.spec_horizon(),
                ),
            ),
    {
        let ghost before = writer@;
        let _ = self.versions.rule_ir().encode_payload(writer);
        let _ = self.versions.interpreter().encode_payload(writer);
        let _ = self.versions.numerical_semantics().encode_payload(writer);
        let _ = self.versions.canonical_encoding().encode_payload(writer);
        let ghost m1 = writer@;
        proof {
            assert(m1 =~= before + versions_emit(self.versions).bytes);
        }
        let _ = encode_topology_payload(&*self.topology, writer);
        let ghost m2 = writer@;
        let _ = encode_registry_payload(&*self.registry, writer);
        let ghost m3 = writer@;
        let r = (&*self.initial_stocks).encode_payload(writer);
        let ghost x1 = versions_emit(self.versions);
        let ghost x2 = topology_emit(self.spec_topology());
        let ghost x3 = registry_emit(self.spec_registry());
        let ghost x4 = initial_stocks_emit(self.spec_initial_stocks());
        let ghost x5 = emit(
            be_i64(self.calendar.origin_unix_seconds) + be_u64(self.calendar.timestep_seconds) + be_u64(self.horizon.first)
                + be_u64(self.horizon.last),
        );
        if r.is_err() {
            proof {
                lemma_emits_then_error(m3, writer@, r, x4, x5);
                lemma_chain(m2, m3, writer@, x3, then(x4, x5), r);
                lemma_chain(m1, m2, writer@, x2, then(x3, then(x4, x5)), r);
                lemma_chain(before, m1, writer@, x1, then(x2, then(x3, then(x4, x5))), r);
            }
            return r;
        }
        let ghost m4 = writer@;
        let _ = self.calendar.encode_payload(writer);
        let _ = self.horizon.encode_payload(writer);
        proof {
            assert(writer@ =~= m4 + x5.bytes);
            lemma_chain(m3, m4, writer@, x4, x5, Ok(()));
            lemma_chain(m2, m3, writer@, x3, then(x4, x5), Ok(()));
            lemma_chain(m1, m2, writer@, x2, then(x3, then(x4, x5)), Ok(()));
            lemma_chain(before, m1, writer@, x1, then(x2, then(x3, then(x4, x5))), Ok(()));
        }
        Ok(())
    }

    fn write_catalogues(&self, writer: &mut CanonicalPayloadWriter) -> (r: Result<(), CanonicalEncodingError>)
        ensures
            emits(
                old(writer)@,
                final(writer)@,
                r,
                catalogues_emit(self.spec_projections(), self.spec_forcings(), self.spec_tables()),
            ),
    {
        let ghost before = writer@;
        let specs = &self.projections.specifications;
        let states = &self.projections.initial_states;
        let forcings = self.forcings.entries();
        let tables = self.tables.entries();
        let ghost x1 = emit_counted(CanonicalField::ArtifactProjections, specs@, projection_spec_emitter());
        let ghost x2 = emit_counted(CanonicalField::ArtifactProjectorStates, states@, projector_state_emitter());
        let ghost x3 = emit_counted(CanonicalField::ArtifactForcings, forcings@, forcing_entry_emitter());
        let ghost x4 = emit_counted(CanonicalField::ArtifactTables, tables@, table_entry_emitter());
        let _ = writer.write_count(CanonicalField::ArtifactProjections, specs.len());
        let ghost c1 = writer@;
        let r1 = write_projection_specs(writer, specs);
        proof {
            lemma_counted(before, c1, writer@, CanonicalField::ArtifactProjections, specs@, projection_spec_emitter(), r1);
        }
        if r1.is_err() {
            proof {
                lemma_emits_then_error(before, writer@, r1, x1, then(x2, then(x3, x4)));
            }
            return r1;
        }
        let ghost m1 = writer@;
        let _ = writer.write_count(CanonicalField::ArtifactProjectorStates, states.len());
        let ghost c2 = writer@;
        let r2 = write_projector_states(writer, states);
        proof {
            lemma_counted(m1, c2, writer@, CanonicalField::ArtifactProjectorStates, states@, projector_state_emitter(), r2);
        }
        if r2.is_err() {
            proof {
                lemma_emits_then_error(m1, writer@, r2, x2, then(x3, x4));
                lemma_chain(before, m1, writer@, x1, then(x2, then(x3, x4)), r2);
            }
            return r2;
        }
        let ghost m2 = writer@;
        let _ = writer.write_count(CanonicalField::ArtifactForcings, forcings.len());
        let ghost c3 = writer@;
        let r3 = write_forcing_entries(writer, forcings);
        proof {
            lemma_counted(m2, c3, writer@, CanonicalField::ArtifactForcings, forcings@, forcing_entry_emitter(), r3);
        }
        if r3.is_err() {
            proof {
                lemma_emits_then_error(m2, writer@, r3, x3, x4);
                lemma_chain(m1, m2, writer@, x2, then(x3, x4), r3);
                lemma_chain(before, m1, writer@, x1, then(x2, then(x3, x4)), r3);
            }
            return r3;
        }
        let ghost m3 = writer@;
        let _ = writer.write_count(CanonicalField::ArtifactTables, tables.len());
        let ghost c4 = writer@;
        let r = write_table_entries(writer, tables);
        proof {
            lemma_counted(m3, c4, writer@, CanonicalField::ArtifactTables, tables@, table_entry_emitter(), r);
            lemma_chain(m2, m3, writer@, x3, x4, r);
            lemma_chain(m1, m2, writer@, x2, then(x3, x4), r);
            lemma_chain(before, m1, writer@, x1, then(x2, then(x3, x4)), r);
        }
        r
    }

    fn write_body(&self, writer: &mut CanonicalPayloadWriter) -> (r: Result<(), CanonicalEncodingError>)
        ensures
            emits(
                old(writer)@,
                final(writer)@,
                r,
                body_emit(self.spec_rules(), self.spec_execution_bindings(), self.spec_units()),
            ),
    {
        let ghost before = writer@;
        let rules = self.rules.entries();
        let transfers = &self.execution_bindings.transfer_bindings;
        let inputs = &self.execution_bindings.input_bindings;
        let units = self.units.entries();
        let ghost x1 = emit_counted(CanonicalField::ArtifactRules, rules@, rule_entry_emitter());
        let ghost x2 = emit_counted(CanonicalField::ArtifactTransferBindings, transfers@, transfer_binding_emitter());
        let ghost x3 = emit_counted(CanonicalField::ArtifactInputBindings, inputs@, input_binding_emitter());
        let ghost x4 = emit_counted(CanonicalField::ArtifactUnits, units@, unit_emitter());
        let _ = writer.write_count(CanonicalField::ArtifactRules, rules.len());
        let ghost c1 = writer@;
        let r1 = write_rule_entries(writer, rules);
        proof {
            lemma_counted(before, c1, writer@, CanonicalField::ArtifactRules, rules@, rule_entry_emitter(), r1);
        }
        if r1.is_err() {
            proof {
                lemma_emits_then_error(before, writer@, r1, x1, then(x2, then(x3, x4)));
            }
            return r1;
        }
        let ghost m1 = writer@;
        let _ = writer.write_count(CanonicalField::ArtifactTransferBindings, transfers.len());
        let ghost c2 = writer@;
        let r2 = write_transfer_bindings(writer, transfers);
        proof {
            lemma_counted(m1, c2, writer@, CanonicalField::ArtifactTransferBindings, transfers@, transfer_binding_emitter(), r2);
        }
        if r2.is_err() {
            proof {
                lemma_emits_then_error(m1, writer@, r2, x2, then(x3, x4));
                lemma_chain(before, m1, writer@, x1, then(x2, then(x3, x4)), r2);
            }
            return r2;
        }
        let ghost m2 = writer@;
        let _ = writer.write_count(CanonicalField::ArtifactInputBindings, inputs.len());
        let ghost c3 = writer@;
        let r3 = write_input_bindings(writer, inputs);
        proof {
            lemma_counted(m2, c3, writer@, CanonicalField::ArtifactInputBindings, inputs@, input_binding_emitter(), r3);
        }
        if r3.is_err() {
            proof {
                lemma_emits_then_error(m2, writer@, r3, x3, x4);
                lemma_chain(m1, m2, writer@, x2, then(x3, x4), r3);
                lemma_chain(before, m1, writer@, x1, then(x2, then(x3, x4)), r3);
            }
            return r3;
        }
        let ghost m3 = writer@;
        let _ = writer.write_count(CanonicalField::ArtifactUnits, units.len());
        let ghost c4 = writer@;
        let r = write_units(writer, units);
        proof {
            lemma_counted(m3, c4, writer@, CanonicalField::ArtifactUnits, units@, unit_emitter(), r);
            lemma_chain(m2, m3, writer@, x3, x4, r);
            lemma_chain(m1, m2, writer@, x2, then(x3, x4), r);
            lemma_chain(before, m1, writer@, x1, then(x2, then(x3, x4)), r);
        }
        r
    }
}

impl CanonicalEncode for ModelArtifact {
    open spec fn spec_root_tag(&self) -> u16 {
        0x0020
    }

    open spec fn spec_payload(&self) -> Emitted {
        self.artifact_payload()
    }

    fn root_tag(&self) -> (r: u16) {
        0x0020
    }

    fn encode_payload(&self, writer: &mut CanonicalPayloadWriter) -> (r: Result<
        (),
        CanonicalEncodingError,
    >) {
        let ghost before = writer@;
        let ghost h = header_emit(
            self.spec_versions(),
            self.spec_topology(),
            self.spec_registry(),
            self.spec_initial_stocks(),
            self.spec_calendar(),
            self.spec_horizon(),
        );
        let ghost c = catalogues_emit(self.spec_projections(), self.spec_forcings(), self.spec_tables());
        let ghost b = body_emit(self.spec_rules(), self.spec_execution_bindings(), self.spec_units());
        let r1 = self.write_header(writer);
        if r1.is_err() {
            proof {
                lemma_emits_then_error(before, writer@, r1, h, then(c, b));
            }
            return r1;
        }
        let ghost m1 = writer@;
        let r2 = self.write_catalogues(writer);
        if r2.is_err() {
            proof {
                lemma_emits_then_error(m1, writer@, r2, c, b);
                lemma_chain(before, m1, writer@, h, then(c, b), r2);
            }
            return r2;
        }
        let ghost m2 = writer@;
        let r = self.write_body(writer);
        proof {
            lemma_chain(m1, m2, writer@, c, b, r);
            lemma_chain(before, m1, writer@, h, then(c, b), r);
        }
        r
    }
}

impl ModelArtifact {
    /// Recomputes the canonical bytes and digest from the content.
    fn refresh_identity(&mut self) -> (r: Result<(), CanonicalEncodingError>)
        requires
            old(self).maps_wf(),
        ensures
            final(self).maps_wf(),
            final(self).artifact_payload() == old(self).artifact_payload(),
            final(self).same_content(&*old(self)),
            match r {
                Ok(()) => final(self).identity_holds(),
                Err(e) => spec_encode(0x0020, old(self).artifact_payload()) == Err::<Seq<u8>, CanonicalEncodingError>(e)
                    && final(self).spec_canonical_bytes() == old(self).spec_canonical_bytes()
                    && final(self).spec_digest() == old(self).spec_digest(),
            },
    {
        let bytes = match self.versions.canonical_encoding().encode(&*self) {
            Ok(bytes) => bytes,
            Err(e) => {
                return Err(e);
            },
        };
        let hash = sha256(bytes.as_slice());
        self.canonical_bytes = bytes;
        self.digest = ModelDigest::from_bytes(hash);
        Ok(())
    }

    /// Whether two artifacts hold the same content (everything but bytes and digest).
    pub open spec fn same_content(&self, other: &ModelArtifact) -> bool {
        &&& self.spec_topology() == other.spec_topology()
        &&& self.spec_registry() == other.spec_registry()
        &&& self.spec_initial_stocks() == other.spec_initial_stocks()
        &&& self.spec_initial_quantum_counts() == other.spec_initial_quantum_counts()
        &&& self.spec_projections() == other.spec_projections()
        &&& self.spec_calendar() == other.spec_calendar()
        &&& self.spec_horizon() == other.spec_horizon()
        &&& self.spec_forcings() == other.spec_forcings()
        &&& self.spec_tables() == other.spec_tables()
        &&& self.spec_rules() == other.spec_rules()
        &&& self.spec_execution_bindings() == other.spec_execution_bindings()
        &&& self.spec_units() == other.spec_units()
        &&& self.spec_versions() == other.spec_versions()
    }
}

impl ModelArtifact {
    /// Assembles an artifact from checked components and derives its identity.
    pub(crate) fn assemble(
        topology: Topology,
        registry: SubstanceRegistry,
        initial_stocks: InitialStocks,
        initial_quantum_counts: CanonicalMap<RuleCoordinate, u64>,
        projections: ProjectionSet,
        calendar: FixedStepCalendar,
        horizon: RunHorizon,
        forcings: CanonicalMap<Ident, ForcingSeries>,
        tables: CanonicalMap<Ident, InterpolationTable>,
        rules: CanonicalMap<RuleCoordinate, RuleDefinition>,
        execution_bindings: ExecutionBindings,
        units: CanonicalMap<Ident, (Ident, SubstanceUnit)>,
        versions: ModelVersions,
    ) -> (r: Result<ModelArtifact, CanonicalEncodingError>)
        requires
            topology.wf(),
            rules.wf(),
            forcings.wf(),
            tables.wf(),
            units.wf(),
            initial_quantum_counts.wf(),
            forall|i: int| 0 <= i < rules@.len() ==> (#[trigger] rules@[i]).1.wf(),
        ensures
            match r {
                Ok(a) => {
                    &&& a.wf()
                    &&& a.spec_topology() == topology
                    &&& a.spec_registry() == registry
                    &&& a.spec_initial_stocks() == initial_stocks
                    &&& a.spec_initial_quantum_counts() == initial_quantum_counts@
                    &&& a.spec_projections() == projections
                    &&& a.spec_calendar() == calendar
                    &&& a.spec_horizon() == horizon
                    &&& a.spec_forcings() == forcings@
                    &&& a.spec_tables() == tables@
                    &&& a.spec_rules() == rules@
                    &&& a.spec_execution_bindings() == execution_bindings
                    &&& a.spec_units() == units@
                    &&& a.spec_versions() == versions
                },
                Err(e) => spec_encode(
                    0x0020,
                    content_payload(
                        versions,
                        topology,
                        registry,
                        initial_stocks,
                        calendar,
                        horizon,
                        projections,
                        forcings@,
                        tables@,
                        rules@,
                        execution_bindings,
                        units@,
                    ),
                ) == Err::<Seq<u8>, CanonicalEncodingError>(e),
            },
    {
        let mut artifact = ModelArtifact {
            topology: Arc::new(topology),
            registry: Arc::new(registry),
            initial_stocks: Arc::new(initial_stocks),
            initial_quantum_counts: Arc::new(initial_quantum_counts),
            projections: Arc::new(projections),
            calendar,
            horizon,
            forcings: Arc::new(forcings),
            tables: Arc::new(tables),
            rules,
            execution_bindings: Arc::new(execution_bindings),
            units: Arc::new(units),
            versions,
            canonical_bytes: Vec::new(),
            digest: ModelDigest::from_bytes([0u8; 32]),
        };
        match artifact.refresh_identity() {
            Ok(()) => Ok(artifact),
            Err(e) => Err(e),
        }
    }
}

impl ModelArtifact {
    /// The content address of the artifact.
    pub fn digest(&self) -> (r: ModelDigest)
        ensures
            r == self.spec_digest(),
    {
        self.digest
    }

    /// The canonical V1 bytes of the artifact.
    pub fn canonical_bytes(&self) -> (r: &[u8])
        ensures
            r@ == self.spec_canonical_bytes(),
    {
        self.canonical_bytes.as_slice()
    }

    pub fn topology(&self) -> (r: &Topology)
        ensures
            *r == self.spec_topology(),
    {
        &*self.topology
    }

    pub fn registry(&self) -> (r: &SubstanceRegistry)
        ensures
            *r == self.spec_registry(),
    {
        &*self.registry
    }

    pub fn initial_stocks(&self) -> (r: &InitialStocks)
        ensures
            *r == self.spec_initial_stocks(),
    {
        &*self.initial_stocks
    }

    pub fn projections(&self) -> (r: &ProjectionSet)
        ensures
            *r == self.spec_projections(),
    {
        &*self.projections
    }

    pub fn calendar(&self) -> (r: FixedStepCalendar)
        ensures
            r == self.spec_calendar(),
    {
        self.calendar
    }

    pub fn horizon(&self) -> (r: RunHorizon)
        ensures
            r == self.spec_horizon(),
    {
        self.horizon
    }

    pub fn versions(&self) -> (r: ModelVersions)
        ensures
            r == self.spec_versions(),
    {
        self.versions
    }

    /// The forcing series keyed by identity, in canonical order.
    pub fn forcings(&self) -> (r: &CanonicalMap<Ident, ForcingSeries>)
        ensures
            r@ == self.spec_forcings(),
    {
        &*self.forcings
    }

    /// The interpolation tables keyed by identity, in canonical order.
    pub fn tables(&self) -> (r: &CanonicalMap<Ident, InterpolationTable>)
        ensures
            r@ == self.spec_tables(),
    {
        &*self.tables
    }

    /// The rules keyed by (compartment, substance), in canonical order.
    pub fn rules(&self) -> (r: &CanonicalMap<RuleCoordinate, RuleDefinition>)
        ensures
            r@ == self.spec_rules(),
    {
        &self.rules
    }

    pub fn execution_bindings(&self) -> (r: &ExecutionBindings)
        ensures
            *r == self.spec_execution_bindings(),
    {
        &*self.execution_bindings
    }

    /// The unit declarations keyed by substance, in canonical order.
    pub fn units(&self) -> (r: &CanonicalMap<Ident, (Ident, SubstanceUnit)>)
        ensures
            r@ == self.spec_units(),
    {
        &*self.units
    }

    /// The destination bound to a transfer branch of the rule at (compartment, substance).
    pub fn transfer_destination(&self, compartment: &Ident, substance: &Ident, branch: &Ident) -> (r: Option<&Ident>)
        requires
            self.spec_execution_bindings().wf(),
        ensures
            match r {
                Some(d) => crate::execution_bindings::binds_transfer(
                    self.spec_execution_bindings().transfer_bindings@,
                    compartment@,
                    substance@,
                    branch@,
                ) && d@ == crate::execution_bindings::bound_destination(
                    self.spec_execution_bindings().transfer_bindings@,
                    compartment@,
                    substance@,
                    branch@,
                ),
                None => !crate::execution_bindings::binds_transfer(
                    self.spec_execution_bindings().transfer_bindings@,
                    compartment@,
                    substance@,
                    branch@,
                ),
            },
    {
        let r = self.execution_bindings.destination(compartment, substance, branch);
        proof {
            if let Some(d) = r {
                let bs = self.execution_bindings.transfer_bindings@;
                let k = choose|k: int|
                    0 <= k < bs.len() && crate::execution_bindings::transfer_matches(#[trigger] bs[k], compartment@, substance@, branch@)
                        && bs[k].destination == *d;
                crate::binding_validation::lemma_bound_destination(bs, k, compartment@, substance@, branch@);
            }
        }
        r
    }

    /// The source bound to a generic input of the rule at (compartment, substance).
    pub fn rule_input_source(&self, compartment: &Ident, substance: &Ident, input: &Ident) -> (r: Option<&RuleInputSource>)
        requires
            self.spec_execution_bindings().wf(),
        ensures
            match r {
                Some(source) => crate::execution_bindings::binds_input(
                    self.spec_execution_bindings().input_bindings@,
                    compartment@,
                    substance@,
                    input@,
                ) && *source == crate::execution_bindings::bound_input(
                    self.spec_execution_bindings().input_bindings@,
                    compartment@,
                    substance@,
                    input@,
                ).source,
                None => !crate::execution_bindings::binds_input(
                    self.spec_execution_bindings().input_bindings@,
                    compartment@,
                    substance@,
                    input@,
                ),
            },
    {
        match self.execution_bindings.input_binding(compartment, substance, input) {
            Some(binding) => {
                proof {
                    let bs = self.execution_bindings.input_bindings@;
                    let k = choose|k: int|
                        0 <= k < bs.len() && crate::execution_bindings::input_matches(#[trigger] bs[k], compartment@, substance@, input@)
                            && bs[k] == *binding;
                    crate::binding_validation::lemma_bound_input(bs, k, compartment@, substance@, input@);
                }
                Some(&binding.source)
            },
            None => None,
        }
    }

    /// The declared arithmetic quantum of `substance`, if it has a unit.
    pub fn quantum(&self, substance: &Ident) -> (r: Option<crate::model_artifact::Quantum>)
        requires
            self.maps_wf(),
        ensures
            match r {
                Some(q) => exists|p: int|
                    0 <= p < self.spec_units().len() && #[trigger] self.spec_units()[p].0@ == substance@ && self.spec_units()[p].1.1.spec_quantum() == q,
                None => !crate::canonical_map::has_key(self.spec_units(), seq![substance@]),
            },
    {
        match self.units.get(substance) {
            Some(declaration) => {
                proof {
                    let p = choose|p: int|
                        0 <= p < self.units@.len() && #[trigger] self.units@[p].0.key() == substance.key() && self.units@[p].1 == *declaration;
                    crate::model_artifact::lemma_single_key(self.units@[p].0@, substance@);
                    assert(self.spec_units()[p].0@ == substance@);
                }
                Some(declaration.1.quantum())
            },
            None => None,
        }
    }

    /// The whole-quantum count of the initial stock of `substance` in `compartment`: none
    /// unless the compartment is a finite one of the topology and the substance is modelled;
    /// zero where no stock was declared.
    pub fn initial_quantum_count(&self, compartment: &Ident, substance: &Ident) -> (r: Option<u64>)
        requires
            self.maps_wf(),
        ensures
            match r {
                None => !crate::artifact_builder::finite_declared(self.spec_topology(), compartment@)
                    || !crate::substance_registry::lists(self.spec_registry().members@, substance@),
                Some(v) => crate::artifact_builder::finite_declared(self.spec_topology(), compartment@)
                    && crate::substance_registry::lists(self.spec_registry().members@, substance@) && if crate::canonical_map::has_key(
                    self.spec_initial_quantum_counts(),
                    seq![compartment@, substance@],
                ) {
                    exists|p: int|
                        0 <= p < self.spec_initial_quantum_counts().len()
                            && #[trigger] self.spec_initial_quantum_counts()[p].0.key() == seq![compartment@, substance@]
                            && self.spec_initial_quantum_counts()[p].1 == v
                } else {
                    v == 0
                },
            },
    {
        let finite = match self.topology.endpoint(compartment) {
            Some(endpoint) => {
                let f = endpoint.is_finite();
                proof {
                    let eps = self.topology.endpoints@;
                    let k = choose|k: int| 0 <= k < eps.len() && eps[k] == *endpoint && #[trigger] eps[k].spec_id() == compartment@;
                    if crate::artifact_builder::finite_declared(self.spec_topology(), compartment@) {
                        let j = choose|j: int| 0 <= j < eps.len() && #[trigger] eps[j].spec_id() == compartment@ && eps[j] is Finite;
                        assert(crate::topology::distinct_endpoints(eps));
                        if j != k {
                            assert(eps[j].spec_id() != eps[k].spec_id());
                        }
                    }
                }
                f
            },
            None => false,
        };
        if !finite || !self.registry.contains(substance) {
            return None;
        }
        let key = RuleCoordinate { compartment: compartment.clone(), substance: substance.clone() };
        match self.initial_quantum_counts.get(&key) {
            Some(v) => Some(*v),
            None => Some(0),
        }
    }
}

impl ModelArtifact {
    /// An artifact with this one's content but `rules`, with its identity derived anew.
    pub(crate) fn derive_with_rules(&self, rules: CanonicalMap<RuleCoordinate, RuleDefinition>) -> (r: Result<
        ModelArtifact,
        CanonicalEncodingError,
    >)
        requires
            self.maps_wf(),
            rules.wf(),
            forall|i: int| 0 <= i < rules@.len() ==> (#[trigger] rules@[i]).1.wf(),
        ensures
            match r {
                Ok(a) => {
                    &&& a.wf()
                    &&& a.spec_rules() == rules@
                    &&& a.spec_topology() == self.spec_topology()
                    &&& a.spec_registry() == self.spec_registry()
                    &&& a.spec_initial_stocks() == self.spec_initial_stocks()
                    &&& a.spec_initial_quantum_counts() == self.spec_initial_quantum_counts()
                    &&& a.spec_projections() == self.spec_projections()
                    &&& a.spec_calendar() == self.spec_calendar()
                    &&& a.spec_horizon() == self.spec_horizon()
                    &&& a.spec_forcings() == self.spec_forcings()
                    &&& a.spec_tables() == self.spec_tables()
                    &&& a.spec_execution_bindings() == self.spec_execution_bindings()
                    &&& a.spec_units() == self.spec_units()
                    &&& a.spec_versions() == self.spec_versions()
                },
                Err(e) => spec_encode(
                    0x0020,
                    content_payload(
                        self.spec_versions(),
                        self.spec_topology(),
                        self.spec_registry(),
                        self.spec_initial_stocks(),
                        self.spec_calendar(),
                        self.spec_horizon(),
                        self.spec_projections(),
                        self.spec_forcings(),
                        self.spec_tables(),
                        rules@,
                        self.spec_execution_bindings(),
                        self.spec_units(),
                    ),
                ) == Err::<Seq<u8>, CanonicalEncodingError>(e),
            },
    {
        let mut derived = ModelArtifact {
            topology: crate::model_artifact::share(&self.topology),
            registry: crate::model_artifact::share(&self.registry),
            initial_stocks: crate::model_artifact::share(&self.initial_stocks),
            initial_quantum_counts: crate::model_artifact::share(&self.initial_quantum_counts),
            projections: crate::model_artifact::share(&self.projections),
            calendar: self.calendar,
            horizon: self.horizon,
            forcings: crate::model_artifact::share(&self.forcings),
            tables: crate::model_artifact::share(&self.tables),
            rules,
            execution_bindings: crate::model_artifact::share(&self.execution_bindings),
            units: crate::model_artifact::share(&self.units),
            versions: self.versions,
            canonical_bytes: Vec::new(),
            digest: ModelDigest::from_bytes([0u8; 32]),
        };
        match derived.refresh_identity() {
            Ok(()) => Ok(derived),
            Err(e) => Err(e),
        }
    }
}

impl ModelArtifact {
    /// The catalogues and the body of an artifact have lengths that fit a `usize`.
    pub proof fn lemma_lengths_fit(&self)
        ensures
            self.spec_rules().len() <= usize::MAX,
            self.spec_units().len() <= usize::MAX,
            self.spec_forcings().len() <= usize::MAX,
            self.spec_tables().len() <= usize::MAX,
    {
        self.rules.lemma_len_fits();
        self.units.lemma_len_fits();
        self.forcings.lemma_len_fits();
        self.tables.lemma_len_fits();
    }

    /// The rules of a well-formed artifact are in canonical order and each well formed.
    pub proof fn lemma_rules_wf(&self)
        requires
            self.maps_wf(),
        ensures
            crate::canonical_map::sorted_keys(self.spec_rules()),
            forall|q: int| 0 <= q < self.spec_rules().len() ==> (#[trigger] self.spec_rules()[q]).1.wf(),
    {
    }
}

/// Two artifacts with the same content have the same canonical bytes and the same digest: the
/// identity of an artifact is a function of its content alone.
pub proof fn lemma_content_determines_identity(a: ModelArtifact, b: ModelArtifact)
    requires
        a.wf(),
        b.wf(),
        a.same_content(&b),
    ensures
        a.spec_canonical_bytes() == b.spec_canonical_bytes(),
        a.spec_digest().spec_bytes() == b.spec_digest().spec_bytes(),
{
    assert(a.artifact_payload() == b.artifact_payload());
}

} // verus!
