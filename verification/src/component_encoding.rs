//! Canonical payloads of the structural components of a model: registries, substance vectors,
//! topologies, initial stocks, calendars, horizons, projections and projector states.

use vstd::prelude::*;
use crate::canonical_encoding::{
    be_i64, be_u16, be_u64, count_emit, emit, emit_counted, emit_each, emits, expression_kind_tag,
    lemma_chain, lemma_emit_each_error_prefix, lemma_emit_each_full, lemma_emit_each_pointwise, lemma_emit_each_step,
    lemma_emits_then, lemma_emits_then_error, numerical_version_number, projection_kind_tag,
    scalar_emit, spec_expression_kind_tag, spec_projection_kind_tag, string_emit, then,
    write_numerical_version, CanonicalEncode, CanonicalEncodingError, CanonicalField,
    CanonicalPayloadWriter, Emitted,
};
use crate::identity::{Ident, SubstanceId};
use crate::artifact_builder::{canonical_order_of, lemma_canonical_order_ignores_listing_order, same_values};
use crate::substance_registry::{
    id_views, single_key, CompartmentStock, InitialStocks, SparseSubstanceVector, SubstanceAmount, SubstanceRegistry,
};
use crate::temporal::{FixedStepCalendar, RunHorizon};
use crate::projection::{
    AuthoritativeFactSelector, InitialProjectorState, ProjectionSource, ProjectionSpec,
    ProjectionSpecView, ProjectionValue, RecurrenceInputBinding, RecurrenceInputSource,
};
use crate::rule_expression::{node_emit, RuleExpr};
use crate::rule_reference::{ParameterRef, ProjectionValueKind};
use crate::topology::{Connection, Topology, TopologyEndpoint};

verus! {

/// The emitter of identities at `field`.
pub open spec fn ident_emitter(field: CanonicalField) -> spec_fn(Ident) -> Emitted {
    |id: Ident| string_emit(field, id@)
}

/// Writes every identity of `ids` at `field`.
pub(crate) fn write_idents(writer: &mut CanonicalPayloadWriter, field: CanonicalField, ids: &Vec<Ident>) -> (r: Result<
    (),
    CanonicalEncodingError,
>)
    ensures
        emits(old(writer)@, final(writer)@, r, emit_each(ids@, ident_emitter(field))),
        r is Ok,
{
    let ghost start = writer@;
    let ghost f = ident_emitter(field);
    let mut i: usize = 0;
    proof {
        assert(ids@.take(0) =~= Seq::<Ident>::empty());
        assert(start + Seq::<u8>::empty() =~= start);
    }
    while i < ids.len()
        invariant
            0 <= i <= ids@.len(),
            f == ident_emitter(field),
            start == old(writer)@,
            writer@ == start + emit_each(ids@.take(i as int), f).bytes,
            emit_each(ids@.take(i as int), f).error is None,
        decreases ids@.len() - i,
    {
        let ghost m = writer@;
        let r = writer.write_ident(field, &ids[i]);
        proof {
            lemma_emit_each_step(ids@, f, i as int);
            lemma_emits_then(start, m, writer@, emit_each(ids@.take(i as int), f), f(ids@[i as int]), r);
        }
        i = i + 1;
    }
    proof {
        lemma_emit_each_full(ids@, f);
    }
    Ok(())
}

// ---------------------------------------------------------------------------------------------
// Registries and substance vectors
// ---------------------------------------------------------------------------------------------

/// The payload grammar of a registry: its members in order.
pub open spec fn registry_emit(registry: SubstanceRegistry) -> Emitted {
    emit_counted(
        CanonicalField::RegistryMembers,
        registry.members@,
        ident_emitter(CanonicalField::RegistrySubstanceIdentity),
    )
}

/// A registry does not depend on the order in which its substances were listed: registries
/// whose members are canonical orders of lists naming the same substances name the same
/// substances in the same order, and encode the same.
pub proof fn lemma_substance_order_does_not_matter(
    r1: SubstanceRegistry,
    r2: SubstanceRegistry,
    listed1: Seq<SubstanceId>,
    listed2: Seq<SubstanceId>,
)
    requires
        canonical_order_of(id_views(r1.members@), id_views(listed1), single_key()),
        canonical_order_of(id_views(r2.members@), id_views(listed2), single_key()),
        same_values(id_views(listed1), id_views(listed2)),
    ensures
        id_views(r1.members@) == id_views(r2.members@),
        registry_emit(r1) == registry_emit(r2),
{
    let v1 = id_views(r1.members@);
    let v2 = id_views(r2.members@);
    lemma_canonical_order_ignores_listing_order(v1, v2, id_views(listed1), id_views(listed2), single_key());
    let f = ident_emitter(CanonicalField::RegistrySubstanceIdentity);
    assert(r1.members@.len() == v1.len() && r2.members@.len() == v2.len());
    assert forall|p: int| 0 <= p < r1.members@.len() implies f(#[trigger] r1.members@[p]) == f(r2.members@[p]) by {
        assert(v1[p] == r1.members@[p]@ && v2[p] == r2.members@[p]@);
    }
    lemma_emit_each_pointwise(r1.members@, r2.members@, f);
}

/// Writes the payload of a registry.
pub(crate) fn encode_registry_payload(registry: &SubstanceRegistry, writer: &mut CanonicalPayloadWriter) -> (r: Result<
    (),
    CanonicalEncodingError,
>)
    ensures
        emits(old(writer)@, final(writer)@, r, registry_emit(*registry)),
        r is Ok,
{
    let ghost before = writer@;
    let r1 = writer.write_count(CanonicalField::RegistryMembers, registry.members.len());
    let ghost mid = writer@;
    let r = write_idents(writer, CanonicalField::RegistrySubstanceIdentity, &registry.members);
    proof {
        lemma_chain(
            before,
            mid,
            writer@,
            count_emit(CanonicalField::RegistryMembers, registry.members@.len() as usize),
            emit_each(registry.members@, ident_emitter(CanonicalField::RegistrySubstanceIdentity)),
            r,
        );
    }
    r
}

impl CanonicalEncode for SubstanceRegistry {
    open spec fn spec_root_tag(&self) -> u16 {
        0x0010
    }

    open spec fn spec_payload(&self) -> Emitted {
        registry_emit(*self)
    }

    fn root_tag(&self) -> (r: u16) {
        0x0010
    }

    fn encode_payload(&self, writer: &mut CanonicalPayloadWriter) -> (r: Result<
        (),
        CanonicalEncodingError,
    >) {
        encode_registry_payload(self, writer)
    }
}

/// The grammar of one substance amount: its identity, then its binary64 value.
pub open spec fn amount_emitter() -> spec_fn(SubstanceAmount) -> Emitted {
    |a: SubstanceAmount|
        then(
            string_emit(CanonicalField::SparseSubstanceIdentity, a.substance@),
            scalar_emit(CanonicalField::SparseAmount, a.amount_bits),
        )
}

/// The payload grammar of a substance vector: its registry, then its entries in order.
pub open spec fn sparse_emit(v: SparseSubstanceVector) -> Emitted {
    then(registry_emit(v.registry), emit_counted(CanonicalField::SparseEntries, v.entries@, amount_emitter()))
}

fn write_amount(writer: &mut CanonicalPayloadWriter, a: &SubstanceAmount) -> (r: Result<(), CanonicalEncodingError>)
    ensures
        emits(old(writer)@, final(writer)@, r, amount_emitter()(*a)),
{
    let ghost before = writer@;
    let r1 = writer.write_ident(CanonicalField::SparseSubstanceIdentity, &a.substance);
    let ghost mid = writer@;
    let r = writer.write_scalar(CanonicalField::SparseAmount, a.amount_bits);
    proof {
        lemma_chain(
            before,
            mid,
            writer@,
            string_emit(CanonicalField::SparseSubstanceIdentity, a.substance@),
            scalar_emit(CanonicalField::SparseAmount, a.amount_bits),
            r,
        );
    }
    r
}

fn write_amounts(writer: &mut CanonicalPayloadWriter, amounts: &Vec<SubstanceAmount>) -> (r: Result<
    (),
    CanonicalEncodingError,
>)
    ensures
        emits(old(writer)@, final(writer)@, r, emit_each(amounts@, amount_emitter())),
{
    let ghost start = writer@;
    let ghost f = amount_emitter();
    let mut i: usize = 0;
    proof {
        assert(amounts@.take(0) =~= Seq::<SubstanceAmount>::empty());
        assert(start + Seq::<u8>::empty() =~= start);
    }
    while i < amounts.len()
        invariant
            0 <= i <= amounts@.len(),
            f == amount_emitter(),
            start == old(writer)@,
            writer@ == start + emit_each(amounts@.take(i as int), f).bytes,
            emit_each(amounts@.take(i as int), f).error is None,
        decreases amounts@.len() - i,
    {
        let ghost m = writer@;
        let r = write_amount(writer, &amounts[i]);
        proof {
            lemma_emit_each_step(amounts@, f, i as int);
            lemma_emits_then(start, m, writer@, emit_each(amounts@.take(i as int), f), f(amounts@[i as int]), r);
        }
        if r.is_err() {
            proof {
                lemma_emit_each_error_prefix(amounts@, f, i + 1);
            }
            return r;
        }
        i = i + 1;
    }
    proof {
        lemma_emit_each_full(amounts@, f);
    }
    Ok(())
}

/// Writes the payload of a substance vector.
pub(crate) fn encode_sparse_payload(v: &SparseSubstanceVector, writer: &mut CanonicalPayloadWriter) -> (r: Result<
    (),
    CanonicalEncodingError,
>)
    ensures
        emits(old(writer)@, final(writer)@, r, sparse_emit(*v)),
{
    let ghost before = writer@;
    let r1 = encode_registry_payload(&v.registry, writer);
    let ghost m1 = writer@;
    let r2 = writer.write_count(CanonicalField::SparseEntries, v.entries.len());
    let ghost m2 = writer@;
    let r = write_amounts(writer, &v.entries);
    proof {
        let c = count_emit(CanonicalField::SparseEntries, v.entries@.len() as usize);
        let d = emit_each(v.entries@, amount_emitter());
        lemma_chain(m1, m2, writer@, c, d, r);
        lemma_chain(before, m1, writer@, registry_emit(v.registry), then(c, d), r);
    }
    r
}

impl CanonicalEncode for SparseSubstanceVector {
    open spec fn spec_root_tag(&self) -> u16 {
        0x0011
    }

    open spec fn spec_payload(&self) -> Emitted {
        sparse_emit(*self)
    }

    fn root_tag(&self) -> (r: u16) {
        0x0011
    }

    fn encode_payload(&self, writer: &mut CanonicalPayloadWriter) -> (r: Result<
        (),
        CanonicalEncodingError,
    >) {
        encode_sparse_payload(self, writer)
    }
}

// ---------------------------------------------------------------------------------------------
// Topologies and initial stocks
// ---------------------------------------------------------------------------------------------

/// The grammar of one endpoint: its kind tag (finite 0, boundary 1), then its identity.
pub open spec fn endpoint_emitter() -> spec_fn(TopologyEndpoint) -> Emitted {
    |e: TopologyEndpoint|
        then(
            emit(seq![if e is Finite { 0u8 } else { 1u8 }]),
            string_emit(CanonicalField::TopologyEndpointIdentity, e.spec_id()),
        )
}

/// The grammar of one connection: its source, then its target.
pub open spec fn connection_emitter() -> spec_fn(Connection) -> Emitted {
    |c: Connection|
        then(
            string_emit(CanonicalField::ConnectionSourceIdentity, c.source@),
            string_emit(CanonicalField::ConnectionTargetIdentity, c.target@),
        )
}

/// The payload grammar of a topology: its endpoints, then its connections, each in order.
pub open spec fn topology_emit(t: Topology) -> Emitted {
    then(
        emit_counted(CanonicalField::TopologyEndpoints, t.endpoints@, endpoint_emitter()),
        emit_counted(CanonicalField::TopologyConnections, t.connections@, connection_emitter()),
    )
}

fn write_endpoints(writer: &mut CanonicalPayloadWriter, endpoints: &Vec<TopologyEndpoint>) -> (r: Result<
    (),
    CanonicalEncodingError,
>)
    ensures
        emits(old(writer)@, final(writer)@, r, emit_each(endpoints@, endpoint_emitter())),
        r is Ok,
{
    let ghost start = writer@;
    let ghost f = endpoint_emitter();
    let mut i: usize = 0;
    proof {
        assert(endpoints@.take(0) =~= Seq::<TopologyEndpoint>::empty());
        assert(start + Seq::<u8>::empty() =~= start);
    }
    while i < endpoints.len()
        invariant
            0 <= i <= endpoints@.len(),
            f == endpoint_emitter(),
            start == old(writer)@,
            writer@ == start + emit_each(endpoints@.take(i as int), f).bytes,
            emit_each(endpoints@.take(i as int), f).error is None,
        decreases endpoints@.len() - i,
    {
        let ghost m = writer@;
        let endpoint = &endpoints[i];
        writer.write_u8(
            match endpoint {
                TopologyEndpoint::Finite(_) => 0u8,
                TopologyEndpoint::Boundary(_) => 1u8,
            },
        );
        let ghost m1 = writer@;
        let r = writer.write_ident(CanonicalField::TopologyEndpointIdentity, endpoint.id());
        proof {
            let a = emit(seq![if *endpoint is Finite { 0u8 } else { 1u8 }]);
            lemma_chain(m, m1, writer@, a, string_emit(CanonicalField::TopologyEndpointIdentity, endpoint.spec_id()), r);
            lemma_emit_each_step(endpoints@, f, i as int);
            lemma_emits_then(start, m, writer@, emit_each(endpoints@.take(i as int), f), f(endpoints@[i as int]), r);
        }
        i = i + 1;
    }
    proof {
        lemma_emit_each_full(endpoints@, f);
    }
    Ok(())
}

fn write_connections(writer: &mut CanonicalPayloadWriter, connections: &Vec<Connection>) -> (r: Result<
    (),
    CanonicalEncodingError,
>)
    ensures
        emits(old(writer)@, final(writer)@, r, emit_each(connections@, connection_emitter())),
        r is Ok,
{
    let ghost start = writer@;
    let ghost f = connection_emitter();
    let mut i: usize = 0;
    proof {
        assert(connections@.take(0) =~= Seq::<Connection>::empty());
        assert(start + Seq::<u8>::empty() =~= start);
    }
    while i < connections.len()
        invariant
            0 <= i <= connections@.len(),
            f == connection_emitter(),
            start == old(writer)@,
            writer@ == start + emit_each(connections@.take(i as int), f).bytes,
            emit_each(connections@.take(i as int), f).error is None,
        decreases connections@.len() - i,
    {
        let ghost m = writer@;
        let c = &connections[i];
        let r1 = writer.write_ident(CanonicalField::ConnectionSourceIdentity, &c.source);
        let ghost m1 = writer@;
        let r = writer.write_ident(CanonicalField::ConnectionTargetIdentity, &c.target);
        proof {
            lemma_chain(
                m,
                m1,
                writer@,
                string_emit(CanonicalField::ConnectionSourceIdentity, c.source@),
                string_emit(CanonicalField::ConnectionTargetIdentity, c.target@),
                r,
            );
            lemma_emit_each_step(connections@, f, i as int);
            lemma_emits_then(start, m, writer@, emit_each(connections@.take(i as int), f), f(connections@[i as int]), r);
        }
        i = i + 1;
    }
    proof {
        lemma_emit_each_full(connections@, f);
    }
    Ok(())
}

/// Writes the payload of a topology.
pub(crate) fn encode_topology_payload(t: &Topology, writer: &mut CanonicalPayloadWriter) -> (r: Result<
    (),
    CanonicalEncodingError,
>)
    ensures
        emits(old(writer)@, final(writer)@, r, topology_emit(*t)),
        r is Ok,
{
    let ghost before = writer@;
    let r1 = writer.write_count(CanonicalField::TopologyEndpoints, t.endpoints.len());
    let ghost m1 = writer@;
    let r2 = write_endpoints(writer, &t.endpoints);
    let ghost m2 = writer@;
    let r3 = writer.write_count(CanonicalField::TopologyConnections, t.connections.len());
    let ghost m3 = writer@;
    let r = write_connections(writer, &t.connections);
    proof {
        let a = count_emit(CanonicalField::TopologyEndpoints, t.endpoints@.len() as usize);
        let b = emit_each(t.endpoints@, endpoint_emitter());
        let c = count_emit(CanonicalField::TopologyConnections, t.connections@.len() as usize);
        let d = emit_each(t.connections@, connection_emitter());
        lemma_chain(before, m1, m2, a, b, r2);
        lemma_chain(m2, m3, writer@, c, d, r);
        lemma_chain(before, m2, writer@, then(a, b), then(c, d), r);
    }
    r
}

impl CanonicalEncode for Topology {
    open spec fn spec_root_tag(&self) -> u16 {
        0x0012
    }

    open spec fn spec_payload(&self) -> Emitted {
        topology_emit(*self)
    }

    fn root_tag(&self) -> (r: u16) {
        0x0012
    }

    fn encode_payload(&self, writer: &mut CanonicalPayloadWriter) -> (r: Result<
        (),
        CanonicalEncodingError,
    >) {
        encode_topology_payload(self, writer)
    }
}

/// The grammar of the stock of one compartment: its identity, then its substance vector.
pub open spec fn stock_emitter() -> spec_fn(CompartmentStock) -> Emitted {
    |s: CompartmentStock|
        then(string_emit(CanonicalField::InitialStockCompartmentIdentity, s.compartment@), sparse_emit(s.stock))
}

/// The payload grammar of initial stocks: their topology, registry, then stocks in order.
pub open spec fn initial_stocks_emit(s: InitialStocks) -> Emitted {
    then(
        then(topology_emit(s.topology), registry_emit(s.registry)),
        emit_counted(CanonicalField::InitialStockEntries, s.entries@, stock_emitter()),
    )
}

fn write_stocks(writer: &mut CanonicalPayloadWriter, stocks: &Vec<CompartmentStock>) -> (r: Result<
    (),
    CanonicalEncodingError,
>)
    ensures
        emits(old(writer)@, final(writer)@, r, emit_each(stocks@, stock_emitter())),
{
    let ghost start = writer@;
    let ghost f = stock_emitter();
    let mut i: usize = 0;
    proof {
        assert(stocks@.take(0) =~= Seq::<CompartmentStock>::empty());
        assert(start + Seq::<u8>::empty() =~= start);
    }
    while i < stocks.len()
        invariant
            0 <= i <= stocks@.len(),
            f == stock_emitter(),
            start == old(writer)@,
            writer@ == start + emit_each(stocks@.take(i as int), f).bytes,
            emit_each(stocks@.take(i as int), f).error is None,
        decreases stocks@.len() - i,
    {
        let ghost m = writer@;
        let s = &stocks[i];
        let r1 = writer.write_ident(CanonicalField::InitialStockCompartmentIdentity, &s.compartment);
        let ghost m1 = writer@;
        let r = encode_sparse_payload(&s.stock, writer);
        proof {
            lemma_chain(m, m1, writer@, string_emit(CanonicalField::InitialStockCompartmentIdentity, s.compartment@), sparse_emit(s.stock), r);
            lemma_emit_each_step(stocks@, f, i as int);
            lemma_emits_then(start, m, writer@, emit_each(stocks@.take(i as int), f), f(stocks@[i as int]), r);
        }
        if r.is_err() {
            proof {
                lemma_emit_each_error_prefix(stocks@, f, i + 1);
            }
            return r;
        }
        i = i + 1;
    }
    proof {
        lemma_emit_each_full(stocks@, f);
    }
    Ok(())
}

impl CanonicalEncode for InitialStocks {
    open spec fn spec_root_tag(&self) -> u16 {
        0x0013
    }

    open spec fn spec_payload(&self) -> Emitted {
        initial_stocks_emit(*self)
    }

    fn root_tag(&self) -> (r: u16) {
        0x0013
    }

    fn encode_payload(&self, writer: &mut CanonicalPayloadWriter) -> (r: Result<
        (),
        CanonicalEncodingError,
    >) {
        let ghost before = writer@;
        let r1 = encode_topology_payload(&self.topology, writer);
        let ghost m1 = writer@;
        let r2 = encode_registry_payload(&self.registry, writer);
        let ghost m2 = writer@;
        let r3 = writer.write_count(CanonicalField::InitialStockEntries, self.entries.len());
        let ghost m3 = writer@;
        let r = write_stocks(writer, &self.entries);
        proof {
            let a = topology_emit(self.topology);
            let b = registry_emit(self.registry);
            let c = count_emit(CanonicalField::InitialStockEntries, self.entries@.len() as usize);
            let d = emit_each(self.entries@, stock_emitter());
            lemma_chain(before, m1, m2, a, b, r2);
            lemma_chain(m2, m3, writer@, c, d, r);
            lemma_chain(before, m2, writer@, then(a, b), then(c, d), r);
        }
        r
    }
}

// ---------------------------------------------------------------------------------------------
// Calendars and horizons
// ---------------------------------------------------------------------------------------------

impl CanonicalEncode for FixedStepCalendar {
    open spec fn spec_root_tag(&self) -> u16 {
        0x0014
    }

    open spec fn spec_payload(&self) -> Emitted {
        emit(be_i64(self.origin_unix_seconds) + be_u64(self.timestep_seconds))
    }

    fn root_tag(&self) -> (r: u16) {
        0x0014
    }

    fn encode_payload(&self, writer: &mut CanonicalPayloadWriter) -> (r: Result<
        (),
        CanonicalEncodingError,
    >) {
        let ghost before = writer@;
        writer.write_i64(self.origin_unix_seconds);
        writer.write_u64(self.timestep_seconds);
        proof {
            assert(writer@ =~= before + (be_i64(self.origin_unix_seconds) + be_u64(self.timestep_seconds)));
        }
        Ok(())
    }
}

impl CanonicalEncode for RunHorizon {
    open spec fn spec_root_tag(&self) -> u16 {
        0x0015
    }

    open spec fn spec_payload(&self) -> Emitted {
        emit(be_u64(self.first) + be_u64(self.last))
    }

    fn root_tag(&self) -> (r: u16) {
        0x0015
    }

    fn encode_payload(&self, writer: &mut CanonicalPayloadWriter) -> (r: Result<
        (),
        CanonicalEncodingError,
    >) {
        let ghost before = writer@;
        writer.write_u64(self.first);
        writer.write_u64(self.last);
        proof {
            assert(writer@ =~= before + (be_u64(self.first) + be_u64(self.last)));
        }
        Ok(())
    }
}

// ---------------------------------------------------------------------------------------------
// Projections
// ---------------------------------------------------------------------------------------------

/// The grammar of a fact selector: its direction (incoming 0, outgoing 1), compartment and
/// substance.
pub open spec fn selector_emit(selector: AuthoritativeFactSelector) -> Emitted {
    then(
        emit(seq![if selector is IncomingTransferAmount { 0u8 } else { 1u8 }]),
        then(
            string_emit(CanonicalField::FactCompartmentIdentity, selector.spec_compartment()),
            string_emit(CanonicalField::FactSubstanceIdentity, selector.spec_substance()),
        ),
    )
}

/// Writes a fact selector.
pub(crate) fn encode_selector(selector: &AuthoritativeFactSelector, writer: &mut CanonicalPayloadWriter) -> (r: Result<
    (),
    CanonicalEncodingError,
>)
    ensures
        emits(old(writer)@, final(writer)@, r, selector_emit(*selector)),
        r is Ok,
{
    let ghost before = writer@;
    writer.write_u8(
        match selector {
            AuthoritativeFactSelector::IncomingTransferAmount { .. } => 0u8,
            AuthoritativeFactSelector::OutgoingTransferAmount { .. } => 1u8,
        },
    );
    let ghost m1 = writer@;
    let r1 = writer.write_ident(CanonicalField::FactCompartmentIdentity, selector.compartment());
    let ghost m2 = writer@;
    let r = writer.write_ident(CanonicalField::FactSubstanceIdentity, selector.substance());
    proof {
        let a = emit(seq![if *selector is IncomingTransferAmount { 0u8 } else { 1u8 }]);
        let b = string_emit(CanonicalField::FactCompartmentIdentity, selector.spec_compartment());
        let c = string_emit(CanonicalField::FactSubstanceIdentity, selector.spec_substance());
        lemma_chain(m1, m2, writer@, b, c, r);
        lemma_chain(before, m1, writer@, a, then(b, c), r);
    }
    r
}

/// The grammar of the source of a lag or rolling aggregate.
pub open spec fn projection_source_emit(source: ProjectionSource) -> Emitted {
    match source {
        ProjectionSource::AuthoritativeFact(selector) => then(emit(seq![0u8]), selector_emit(selector)),
        ProjectionSource::Projection(reference) => then(
            emit(seq![1u8, spec_projection_kind_tag(reference.value_kind)]),
            string_emit(CanonicalField::ProjectionReferenceIdentity, reference.id@),
        ),
    }
}

/// Writes the source of a lag or rolling aggregate.
pub(crate) fn encode_projection_source(source: &ProjectionSource, writer: &mut CanonicalPayloadWriter) -> (r: Result<
    (),
    CanonicalEncodingError,
>)
    ensures
        emits(old(writer)@, final(writer)@, r, projection_source_emit(*source)),
        r is Ok,
{
    let ghost before = writer@;
    match source {
        ProjectionSource::AuthoritativeFact(selector) => {
            writer.write_u8(0);
            let ghost m1 = writer@;
            let r = encode_selector(selector, writer);
            proof {
                lemma_chain(before, m1, writer@, emit(seq![0u8]), selector_emit(*selector), r);
            }
            r
        },
        ProjectionSource::Projection(reference) => {
            writer.write_u8(1);
            writer.write_u8(projection_kind_tag(reference.value_kind));
            let ghost m1 = writer@;
            let r = writer.write_ident(CanonicalField::ProjectionReferenceIdentity, &reference.id);
            proof {
                let a = emit(seq![1u8, spec_projection_kind_tag(reference.value_kind)]);
                assert(m1 =~= before + a.bytes);
                lemma_chain(before, m1, writer@, a, string_emit(CanonicalField::ProjectionReferenceIdentity, reference.id@), r);
            }
            r
        },
    }
}

/// The grammar of a projection value kind.
pub open spec fn kind_emitter() -> spec_fn(ProjectionValueKind) -> Emitted {
    |k: ProjectionValueKind| emit(seq![spec_projection_kind_tag(k)])
}

/// The grammar of one recurrence input: its value kind, identity and source.
pub open spec fn recurrence_input_emitter() -> spec_fn(RecurrenceInputBinding) -> Emitted {
    |b: RecurrenceInputBinding|
        then(
            emit(seq![spec_expression_kind_tag(b.reference.value_kind)]),
            then(
                string_emit(CanonicalField::ProjectionInputIdentity, b.reference.id@),
                recurrence_source_emit(b.input_source),
            ),
        )
}

/// The grammar of the source of a recurrence input: a fact selector (0), or a previous state
/// index and kind (1).
pub open spec fn recurrence_source_emit(source: RecurrenceInputSource) -> Emitted {
    match source {
        RecurrenceInputSource::AuthoritativeFact(selector) => then(emit(seq![0u8]), selector_emit(selector)),
        RecurrenceInputSource::PreviousState { index, value_kind } => then(
            emit(seq![1u8]),
            then(count_emit(CanonicalField::ProjectionCount, index), emit(seq![spec_projection_kind_tag(value_kind)])),
        ),
    }
}

/// The grammar of one recurrence parameter: its value kind, then its identity.
pub open spec fn recurrence_parameter_emitter() -> spec_fn(ParameterRef) -> Emitted {
    |p: ParameterRef|
        then(
            emit(seq![spec_expression_kind_tag(p.value_kind)]),
            string_emit(CanonicalField::ProjectionParameterIdentity, p.id@),
        )
}

/// The grammar of one recurrence update: its tree alone.
pub open spec fn update_emitter() -> spec_fn(RuleExpr) -> Emitted {
    |u: RuleExpr| node_emit(u.node)
}

/// The grammar of the shape of a projection.
pub open spec fn projection_view_emit(view: ProjectionSpecView) -> Emitted {
    match view {
        ProjectionSpecView::BoundedLag { source, steps } => then(
            emit(seq![0u8]),
            then(projection_source_emit(source), count_emit(CanonicalField::ProjectionCount, steps)),
        ),
        ProjectionSpecView::OrderedRollingAggregate { source, window, .. } => then(
            emit(seq![1u8]),
            then(
                projection_source_emit(source),
                then(count_emit(CanonicalField::ProjectionCount, window), emit(seq![0u8])),
            ),
        ),
        ProjectionSpecView::FiniteRecurrence { state_kinds, inputs, parameters, updates, output_index } => then(
            emit(seq![2u8]),
            then(
                emit_counted(CanonicalField::ProjectionCount, state_kinds@, kind_emitter()),
                then(
                    emit_counted(CanonicalField::ProjectionCount, inputs@, recurrence_input_emitter()),
                    then(
                        emit_counted(CanonicalField::ProjectionCount, parameters@, recurrence_parameter_emitter()),
                        then(
                            emit_counted(CanonicalField::ProjectionCount, updates@, update_emitter()),
                            count_emit(CanonicalField::ProjectionCount, output_index),
                        ),
                    ),
                ),
            ),
        ),
    }
}

/// The payload grammar of a projection specification: its versions, identity, value kind and
/// shape.
pub open spec fn projection_spec_emit(p: ProjectionSpec) -> Emitted {
    then(
        emit(
            be_u16(1) + be_u16(numerical_version_number(p.numerical_semantics_version)) + Seq::<u8>::empty(),
        ),
        then(
            string_emit(CanonicalField::ProjectionIdentity, p.id@),
            then(emit(seq![spec_projection_kind_tag(p.value_kind)]), projection_view_emit(p.view)),
        ),
    )
}

fn write_kinds(writer: &mut CanonicalPayloadWriter, kinds: &Vec<ProjectionValueKind>)
    ensures
        emits(old(writer)@, final(writer)@, Ok(()), emit_each(kinds@, kind_emitter())),
{
    let ghost start = writer@;
    let ghost f = kind_emitter();
    let mut i: usize = 0;
    proof {
        assert(kinds@.take(0) =~= Seq::<ProjectionValueKind>::empty());
        assert(start + Seq::<u8>::empty() =~= start);
    }
    while i < kinds.len()
        invariant
            0 <= i <= kinds@.len(),
            f == kind_emitter(),
            start == old(writer)@,
            writer@ == start + emit_each(kinds@.take(i as int), f).bytes,
            emit_each(kinds@.take(i as int), f).error is None,
        decreases kinds@.len() - i,
    {
        let ghost m = writer@;
        writer.write_u8(projection_kind_tag(kinds[i]));
        proof {
            lemma_emit_each_step(kinds@, f, i as int);
            lemma_emits_then(start, m, writer@, emit_each(kinds@.take(i as int), f), f(kinds@[i as int]), Ok(()));
        }
        i = i + 1;
    }
    proof {
        lemma_emit_each_full(kinds@, f);
    }
}

fn write_recurrence_input(writer: &mut CanonicalPayloadWriter, b: &RecurrenceInputBinding) -> (r: Result<
    (),
    CanonicalEncodingError,
>)
    ensures
        emits(old(writer)@, final(writer)@, r, recurrence_input_emitter()(*b)),
        r is Ok,
{
    let ghost before = writer@;
    writer.write_u8(expression_kind_tag(b.reference.value_kind));
    let ghost m1 = writer@;
    let r1 = writer.write_ident(CanonicalField::ProjectionInputIdentity, &b.reference.id);
    let ghost m2 = writer@;
    let r = match &b.input_source {
        RecurrenceInputSource::AuthoritativeFact(selector) => {
            writer.write_u8(0);
            let ghost m3 = writer@;
            let r = encode_selector(selector, writer);
            proof {
                lemma_chain(m2, m3, writer@, emit(seq![0u8]), selector_emit(*selector), r);
            }
            r
        },
        RecurrenceInputSource::PreviousState { index, value_kind } => {
            writer.write_u8(1);
            let ghost m3 = writer@;
            let r2 = writer.write_count(CanonicalField::ProjectionCount, *index);
            let ghost m4 = writer@;
            writer.write_u8(projection_kind_tag(*value_kind));
            proof {
                let c = count_emit(CanonicalField::ProjectionCount, *index);
                let d = emit(seq![spec_projection_kind_tag(*value_kind)]);
                lemma_chain(m3, m4, writer@, c, d, Ok(()));
                lemma_chain(m2, m3, writer@, emit(seq![1u8]), then(c, d), Ok(()));
            }
            Ok(())
        },
    };
    proof {
        let a = emit(seq![spec_expression_kind_tag(b.reference.value_kind)]);
        let s = string_emit(CanonicalField::ProjectionInputIdentity, b.reference.id@);
        let t = recurrence_source_emit(b.input_source);
        lemma_chain(m1, m2, writer@, s, t, r);
        lemma_chain(before, m1, writer@, a, then(s, t), r);
    }
    r
}

fn write_recurrence_inputs(writer: &mut CanonicalPayloadWriter, inputs: &Vec<RecurrenceInputBinding>) -> (r: Result<
    (),
    CanonicalEncodingError,
>)
    ensures
        emits(old(writer)@, final(writer)@, r, emit_each(inputs@, recurrence_input_emitter())),
        r is Ok,
{
    let ghost start = writer@;
    let ghost f = recurrence_input_emitter();
    let mut i: usize = 0;
    proof {
        assert(inputs@.take(0) =~= Seq::<RecurrenceInputBinding>::empty());
        assert(start + Seq::<u8>::empty() =~= start);
    }
    while i < inputs.len()
        invariant
            0 <= i <= inputs@.len(),
            f == recurrence_input_emitter(),
            start == old(writer)@,
            writer@ == start + emit_each(inputs@.take(i as int), f).bytes,
            emit_each(inputs@.take(i as int), f).error is None,
        decreases inputs@.len() - i,
    {
        let ghost m = writer@;
        let r = write_recurrence_input(writer, &inputs[i]);
        proof {
            lemma_emit_each_step(inputs@, f, i as int);
            lemma_emits_then(start, m, writer@, emit_each(inputs@.take(i as int), f), f(inputs@[i as int]), r);
        }
        i = i + 1;
    }
    proof {
        lemma_emit_each_full(inputs@, f);
    }
    Ok(())
}

fn write_recurrence_parameters(writer: &mut CanonicalPayloadWriter, parameters: &Vec<ParameterRef>) -> (r: Result<
    (),
    CanonicalEncodingError,
>)
    ensures
        emits(old(writer)@, final(writer)@, r, emit_each(parameters@, recurrence_parameter_emitter())),
        r is Ok,
{
    let ghost start = writer@;
    let ghost f = recurrence_parameter_emitter();
    let mut i: usize = 0;
    proof {
        assert(parameters@.take(0) =~= Seq::<ParameterRef>::empty());
        assert(start + Seq::<u8>::empty() =~= start);
    }
    while i < parameters.len()
        invariant
            0 <= i <= parameters@.len(),
            f == recurrence_parameter_emitter(),
            start == old(writer)@,
            writer@ == start + emit_each(parameters@.take(i as int), f).bytes,
            emit_each(parameters@.take(i as int), f).error is None,
        decreases parameters@.len() - i,
    {
        let ghost m = writer@;
        let p = &parameters[i];
        writer.write_u8(expression_kind_tag(p.value_kind));
        let ghost m1 = writer@;
        let r = writer.write_ident(CanonicalField::ProjectionParameterIdentity, &p.id);
        proof {
            lemma_chain(m, m1, writer@, emit(seq![spec_expression_kind_tag(p.value_kind)]), string_emit(CanonicalField::ProjectionParameterIdentity, p.id@), r);
            lemma_emit_each_step(parameters@, f, i as int);
            lemma_emits_then(start, m, writer@, emit_each(parameters@.take(i as int), f), f(parameters@[i as int]), r);
        }
        i = i + 1;
    }
    proof {
        lemma_emit_each_full(parameters@, f);
    }
    Ok(())
}

fn write_updates(writer: &mut CanonicalPayloadWriter, updates: &Vec<RuleExpr>) -> (r: Result<
    (),
    CanonicalEncodingError,
>)
    ensures
        emits(old(writer)@, final(writer)@, r, emit_each(updates@, update_emitter())),
{
    let ghost start = writer@;
    let ghost f = update_emitter();
    let mut i: usize = 0;
    proof {
        assert(updates@.take(0) =~= Seq::<RuleExpr>::empty());
        assert(start + Seq::<u8>::empty() =~= start);
    }
    while i < updates.len()
        invariant
            0 <= i <= updates@.len(),
            f == update_emitter(),
            start == old(writer)@,
            writer@ == start + emit_each(updates@.take(i as int), f).bytes,
            emit_each(updates@.take(i as int), f).error is None,
        decreases updates@.len() - i,
    {
        let ghost m = writer@;
        let r = updates[i].encode_payload_unframed(writer);
        proof {
            lemma_emit_each_step(updates@, f, i as int);
            lemma_emits_then(start, m, writer@, emit_each(updates@.take(i as int), f), f(updates@[i as int]), r);
        }
        if r.is_err() {
            proof {
                lemma_emit_each_error_prefix(updates@, f, i + 1);
            }
            return r;
        }
        i = i + 1;
    }
    proof {
        lemma_emit_each_full(updates@, f);
    }
    Ok(())
}

/// Writes the shape of a projection.
fn encode_projection_view(view: &ProjectionSpecView, writer: &mut CanonicalPayloadWriter) -> (r: Result<
    (),
    CanonicalEncodingError,
>)
    ensures
        emits(old(writer)@, final(writer)@, r, projection_view_emit(*view)),
{
    let ghost before = writer@;
    match view {
        ProjectionSpecView::BoundedLag { source, steps } => {
            writer.write_u8(0);
            let ghost m1 = writer@;
            let r1 = encode_projection_source(source, writer);
            let ghost m2 = writer@;
            let r = writer.write_count(CanonicalField::ProjectionCount, *steps);
            proof {
                let b = projection_source_emit(*source);
                let c = count_emit(CanonicalField::ProjectionCount, *steps);
                lemma_chain(m1, m2, writer@, b, c, r);
                lemma_chain(before, m1, writer@, emit(seq![0u8]), then(b, c), r);
            }
            r
        },
        ProjectionSpecView::OrderedRollingAggregate { source, window, .. } => {
            writer.write_u8(1);
            let ghost m1 = writer@;
            let r1 = encode_projection_source(source, writer);
            let ghost m2 = writer@;
            let r2 = writer.write_count(CanonicalField::ProjectionCount, *window);
            let ghost m3 = writer@;
            writer.write_u8(0);
            proof {
                let b = projection_source_emit(*source);
                let c = count_emit(CanonicalField::ProjectionCount, *window);
                let d = emit(seq![0u8]);
                lemma_chain(m2, m3, writer@, c, d, Ok(()));
                lemma_chain(m1, m2, writer@, b, then(c, d), Ok(()));
                lemma_chain(before, m1, writer@, emit(seq![1u8]), then(b, then(c, d)), Ok(()));
            }
            Ok(())
        },
        ProjectionSpecView::FiniteRecurrence { state_kinds, inputs, parameters, updates, output_index } => {
            writer.write_u8(2);
            let ghost m1 = writer@;
            let r1 = writer.write_count(CanonicalField::ProjectionCount, state_kinds.len());
            let ghost m2 = writer@;
            write_kinds(writer, state_kinds);
            let ghost m3 = writer@;
            let r3 = writer.write_count(CanonicalField::ProjectionCount, inputs.len());
            let ghost m4 = writer@;
            let r4 = write_recurrence_inputs(writer, inputs);
            let ghost m5 = writer@;
            let r5 = writer.write_count(CanonicalField::ProjectionCount, parameters.len());
            let ghost m6 = writer@;
            let r6 = write_recurrence_parameters(writer, parameters);
            let ghost m7 = writer@;
            let r7 = writer.write_count(CanonicalField::ProjectionCount, updates.len());
            let ghost m8 = writer@;
            let r8 = write_updates(writer, updates);
            let ghost kinds_e = emit_counted(CanonicalField::ProjectionCount, state_kinds@, kind_emitter());
            let ghost inputs_e = emit_counted(CanonicalField::ProjectionCount, inputs@, recurrence_input_emitter());
            let ghost params_e = emit_counted(CanonicalField::ProjectionCount, parameters@, recurrence_parameter_emitter());
            let ghost updates_e = emit_counted(CanonicalField::ProjectionCount, updates@, update_emitter());
            let ghost out_e = count_emit(CanonicalField::ProjectionCount, *output_index);
            proof {
                lemma_chain(m1, m2, m3, count_emit(CanonicalField::ProjectionCount, state_kinds@.len() as usize), emit_each(state_kinds@, kind_emitter()), Ok(()));
                lemma_chain(m3, m4, m5, count_emit(CanonicalField::ProjectionCount, inputs@.len() as usize), emit_each(inputs@, recurrence_input_emitter()), r4);
                lemma_chain(m5, m6, m7, count_emit(CanonicalField::ProjectionCount, parameters@.len() as usize), emit_each(parameters@, recurrence_parameter_emitter()), r6);
                lemma_chain(m7, m8, writer@, count_emit(CanonicalField::ProjectionCount, updates@.len() as usize), emit_each(updates@, update_emitter()), r8);
            }
            if r8.is_err() {
                proof {
                    lemma_emits_then_error(m7, writer@, r8, updates_e, out_e);
                    lemma_chain(m5, m7, writer@, params_e, then(updates_e, out_e), r8);
                    lemma_chain(m3, m5, writer@, inputs_e, then(params_e, then(updates_e, out_e)), r8);
                    lemma_chain(m1, m3, writer@, kinds_e, then(inputs_e, then(params_e, then(updates_e, out_e))), r8);
                    lemma_chain(before, m1, writer@, emit(seq![2u8]), then(kinds_e, then(inputs_e, then(params_e, then(updates_e, out_e)))), r8);
                }
                return r8;
            }
            let ghost m9 = writer@;
            let r = writer.write_count(CanonicalField::ProjectionCount, *output_index);
            proof {
                lemma_chain(m7, m9, writer@, updates_e, out_e, r);
                lemma_chain(m5, m7, writer@, params_e, then(updates_e, out_e), r);
                lemma_chain(m3, m5, writer@, inputs_e, then(params_e, then(updates_e, out_e)), r);
                lemma_chain(m1, m3, writer@, kinds_e, then(inputs_e, then(params_e, then(updates_e, out_e))), r);
                lemma_chain(before, m1, writer@, emit(seq![2u8]), then(kinds_e, then(inputs_e, then(params_e, then(updates_e, out_e)))), r);
            }
            r
        },
    }
}

impl CanonicalEncode for ProjectionSpec {
    open spec fn spec_root_tag(&self) -> u16 {
        0x0018
    }

    open spec fn spec_payload(&self) -> Emitted {
        projection_spec_emit(*self)
    }

    fn root_tag(&self) -> (r: u16) {
        0x0018
    }

    fn encode_payload(&self, writer: &mut CanonicalPayloadWriter) -> (r: Result<
        (),
        CanonicalEncodingError,
    >) {
        let ghost before = writer@;
        writer.write_u16(1);
        write_numerical_version(writer, self.numerical_semantics_version);
        let ghost m1 = writer@;
        let r1 = writer.write_ident(CanonicalField::ProjectionIdentity, &self.id);
        let ghost m2 = writer@;
        writer.write_u8(projection_kind_tag(self.value_kind));
        let ghost m3 = writer@;
        let r = encode_projection_view(&self.view, writer);
        proof {
            let a = emit(be_u16(1) + be_u16(numerical_version_number(self.numerical_semantics_version)) + Seq::<u8>::empty());
            let b = string_emit(CanonicalField::ProjectionIdentity, self.id@);
            let c = emit(seq![spec_projection_kind_tag(self.value_kind)]);
            let d = projection_view_emit(self.view);
            assert(m1 =~= before + a.bytes);
            lemma_chain(m2, m3, writer@, c, d, r);
            lemma_chain(m1, m2, writer@, b, then(c, d), r);
            lemma_chain(before, m1, writer@, a, then(b, then(c, d)), r);
        }
        r
    }
}

/// The grammar of one projector state value: its kind tag, then its binary64 value or truth.
pub open spec fn projection_value_emitter() -> spec_fn(ProjectionValue) -> Emitted {
    |v: ProjectionValue|
        match v {
            ProjectionValue::Extensive(bits) => then(emit(seq![0u8]), scalar_emit(CanonicalField::ProjectorStateValue, bits)),
            ProjectionValue::Scalar(bits) => then(emit(seq![1u8]), scalar_emit(CanonicalField::ProjectorStateValue, bits)),
            ProjectionValue::Truth(t) => emit(seq![2u8, if t { 1u8 } else { 0u8 }]),
        }
}

/// The payload grammar of a projector state: its projection, then its values in order.
pub open spec fn projector_state_emit(s: InitialProjectorState) -> Emitted {
    then(
        string_emit(CanonicalField::ProjectionIdentity, s.projection@),
        emit_counted(CanonicalField::ProjectorStateValues, s.values@, projection_value_emitter()),
    )
}

fn write_projection_value(writer: &mut CanonicalPayloadWriter, v: &ProjectionValue) -> (r: Result<
    (),
    CanonicalEncodingError,
>)
    ensures
        emits(old(writer)@, final(writer)@, r, projection_value_emitter()(*v)),
{
    let ghost before = writer@;
    match v {
        ProjectionValue::Extensive(bits) => {
            writer.write_u8(0);
            let ghost m = writer@;
            let r = writer.write_scalar(CanonicalField::ProjectorStateValue, *bits);
            proof {
                lemma_chain(before, m, writer@, emit(seq![0u8]), scalar_emit(CanonicalField::ProjectorStateValue, *bits), r);
            }
            r
        },
        ProjectionValue::Scalar(bits) => {
            writer.write_u8(1);
            let ghost m = writer@;
            let r = writer.write_scalar(CanonicalField::ProjectorStateValue, *bits);
            proof {
                lemma_chain(before, m, writer@, emit(seq![1u8]), scalar_emit(CanonicalField::ProjectorStateValue, *bits), r);
            }
            r
        },
        ProjectionValue::Truth(t) => {
            writer.write_u8(2);
            writer.write_u8(if *t { 1u8 } else { 0u8 });
            proof {
                assert(writer@ =~= before + seq![2u8, if *t { 1u8 } else { 0u8 }]);
            }
            Ok(())
        },
    }
}

fn write_projection_values(writer: &mut CanonicalPayloadWriter, values: &Vec<ProjectionValue>) -> (r: Result<
    (),
    CanonicalEncodingError,
>)
    ensures
        emits(old(writer)@, final(writer)@, r, emit_each(values@, projection_value_emitter())),
{
    let ghost start = writer@;
    let ghost f = projection_value_emitter();
    let mut i: usize = 0;
    proof {
        assert(values@.take(0) =~= Seq::<ProjectionValue>::empty());
        assert(start + Seq::<u8>::empty() =~= start);
    }
    while i < values.len()
        invariant
            0 <= i <= values@.len(),
            f == projection_value_emitter(),
            start == old(writer)@,
            writer@ == start + emit_each(values@.take(i as int), f).bytes,
            emit_each(values@.take(i as int), f).error is None,
        decreases values@.len() - i,
    {
        let ghost m = writer@;
        let r = write_projection_value(writer, &values[i]);
        proof {
            lemma_emit_each_step(values@, f, i as int);
            lemma_emits_then(start, m, writer@, emit_each(values@.take(i as int), f), f(values@[i as int]), r);
        }
        if r.is_err() {
            proof {
                lemma_emit_each_error_prefix(values@, f, i + 1);
            }
            return r;
        }
        i = i + 1;
    }
    proof {
        lemma_emit_each_full(values@, f);
    }
    Ok(())
}

impl CanonicalEncode for InitialProjectorState {
    open spec fn spec_root_tag(&self) -> u16 {
        0x0019
    }

    open spec fn spec_payload(&self) -> Emitted {
        projector_state_emit(*self)
    }

    fn root_tag(&self) -> (r: u16) {
        0x0019
    }

    fn encode_payload(&self, writer: &mut CanonicalPayloadWriter) -> (r: Result<
        (),
        CanonicalEncodingError,
    >) {
        let ghost before = writer@;
        let r1 = writer.write_ident(CanonicalField::ProjectionIdentity, &self.projection);
        let ghost m1 = writer@;
        let r2 = writer.write_count(CanonicalField::ProjectorStateValues, self.values.len());
        let ghost m2 = writer@;
        let r = write_projection_values(writer, &self.values);
        proof {
            let a = string_emit(CanonicalField::ProjectionIdentity, self.projection@);
            let c = count_emit(CanonicalField::ProjectorStateValues, self.values@.len() as usize);
            let d = emit_each(self.values@, projection_value_emitter());
            lemma_chain(m1, m2, writer@, c, d, r);
            lemma_chain(before, m1, writer@, a, then(c, d), r);
        }
        r
    }
}

} // verus!
