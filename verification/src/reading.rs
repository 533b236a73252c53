//! What canonical bytes determine: successful emissions are read back from their bytes, so
//! artifacts with the same canonical bytes hold the same content, as far as it is read here.

use vstd::prelude::*;
use crate::artifact::{header_emit, versions_emit, ModelArtifact};
use crate::model_artifact::{lemma_versions_by_numerical, ModelVersions};
use crate::temporal::{FixedStepCalendar, RunHorizon};
use crate::canonical_encoding::{be_i64, numerical_version_number, spec_encode};
use crate::canonical_encoding::{
    be_u16, be_u64, canonical_scalar_bits, count_emit, emit, emit_counted, emit_each, envelope, scalar_emit,
    string_emit, then, CanonicalField, Emitted,
};
use crate::component_encoding::{
    amount_emitter, connection_emitter, endpoint_emitter, ident_emitter, initial_stocks_emit, registry_emit,
    sparse_emit, stock_emitter, topology_emit,
};
use crate::identity::Ident;
use crate::rule_expression::{expression_emit, node_emit, ExprNode, RuleExpr};
use crate::substance_registry::{
    id_views, CompartmentStock, InitialStocks, SparseSubstanceVector, SubstanceAmount, SubstanceRegistry,
};
use crate::topology::{Connection, Topology, TopologyEndpoint};

verus! {

// ---------------------------------------------------------------------------------------------
// Reading fixed and framed fields
// ---------------------------------------------------------------------------------------------

/// Whether emissions of `f` are read back from their bytes up to `v`: two successful emissions,
/// each followed by any bytes, give the same bytes only when the values agree under `v` and the
/// bytes that follow are the same.
pub open spec fn readable<T, V>(f: spec_fn(T) -> Emitted, v: spec_fn(T) -> V) -> bool {
    forall|x: T, y: T, r1: Seq<u8>, r2: Seq<u8>|
        #![trigger f(x).bytes + r1, f(y).bytes + r2]
        f(x).error is None && f(y).error is None && f(x).bytes + r1 == f(y).bytes + r2 ==> v(x) == v(y) && r1 == r2
}

/// Equal concatenations with equal-length heads have equal heads and tails.
pub proof fn lemma_split(a1: Seq<u8>, r1: Seq<u8>, a2: Seq<u8>, r2: Seq<u8>)
    requires
        a1 + r1 == a2 + r2,
        a1.len() == a2.len(),
    ensures
        a1 == a2,
        r1 == r2,
{
    assert(a1 =~= (a1 + r1).take(a1.len() as int));
    assert(a2 =~= (a2 + r2).take(a2.len() as int));
    assert(r1 =~= (a1 + r1).skip(a1.len() as int));
    assert(r2 =~= (a2 + r2).skip(a2.len() as int));
}

/// A sequential emission's bytes are its parts' bytes in order.
pub proof fn lemma_then_bytes(a: Emitted, b: Emitted, r: Seq<u8>)
    requires
        then(a, b).error is None,
    ensures
        a.error is None,
        b.error is None,
        then(a, b).bytes + r == a.bytes + (b.bytes + r),
{
    assert(then(a, b).bytes + r =~= a.bytes + (b.bytes + r));
}

/// Big-endian `u64` bytes are read back.
pub proof fn lemma_read_u64(a: u64, b: u64, r1: Seq<u8>, r2: Seq<u8>)
    requires
        be_u64(a) + r1 == be_u64(b) + r2,
    ensures
        a == b,
        r1 == r2,
{
    lemma_split(be_u64(a), r1, be_u64(b), r2);
    let x = be_u64(a);
    let y = be_u64(b);
    assert(x[0] == y[0] && x[1] == y[1] && x[2] == y[2] && x[3] == y[3]);
    assert(x[4] == y[4] && x[5] == y[5] && x[6] == y[6] && x[7] == y[7]);
    assert(a == b) by (bit_vector)
        requires
            (a >> 56u64) as u8 == (b >> 56u64) as u8,
            (a >> 48u64) as u8 == (b >> 48u64) as u8,
            (a >> 40u64) as u8 == (b >> 40u64) as u8,
            (a >> 32u64) as u8 == (b >> 32u64) as u8,
            (a >> 24u64) as u8 == (b >> 24u64) as u8,
            (a >> 16u64) as u8 == (b >> 16u64) as u8,
            (a >> 8u64) as u8 == (b >> 8u64) as u8,
            a as u8 == b as u8,
    ;
}

/// A length-framed byte string is read back.
pub proof fn lemma_read_string(f1: CanonicalField, s1: Seq<u8>, f2: CanonicalField, s2: Seq<u8>, r1: Seq<u8>, r2: Seq<u8>)
    requires
        string_emit(f1, s1).error is None,
        string_emit(f2, s2).error is None,
        string_emit(f1, s1).bytes + r1 == string_emit(f2, s2).bytes + r2,
    ensures
        s1 == s2,
        r1 == r2,
{
    assert(string_emit(f1, s1).bytes + r1 =~= be_u64(s1.len() as u64) + (s1 + r1));
    assert(string_emit(f2, s2).bytes + r2 =~= be_u64(s2.len() as u64) + (s2 + r2));
    lemma_read_u64(s1.len() as u64, s2.len() as u64, s1 + r1, s2 + r2);
    lemma_split(s1, r1, s2, r2);
}

/// A binary64 field is read back up to the sign of zero.
pub proof fn lemma_read_scalar(f1: CanonicalField, b1: u64, f2: CanonicalField, b2: u64, r1: Seq<u8>, r2: Seq<u8>)
    requires
        scalar_emit(f1, b1).error is None,
        scalar_emit(f2, b2).error is None,
        scalar_emit(f1, b1).bytes + r1 == scalar_emit(f2, b2).bytes + r2,
    ensures
        canonical_scalar_bits(b1) == canonical_scalar_bits(b2),
        r1 == r2,
{
    lemma_read_u64(canonical_scalar_bits(b1), canonical_scalar_bits(b2), r1, r2);
}

/// A count field is read back.
pub proof fn lemma_read_count(f1: CanonicalField, n1: usize, f2: CanonicalField, n2: usize, r1: Seq<u8>, r2: Seq<u8>)
    requires
        count_emit(f1, n1).error is None,
        count_emit(f2, n2).error is None,
        count_emit(f1, n1).bytes + r1 == count_emit(f2, n2).bytes + r2,
    ensures
        n1 == n2,
        r1 == r2,
{
    lemma_read_u64(n1 as u64, n2 as u64, r1, r2);
}

/// A successful emission of a list is its first element's emission, then the rest's.
pub proof fn lemma_emit_each_front<T>(s: Seq<T>, f: spec_fn(T) -> Emitted)
    requires
        s.len() > 0,
        emit_each(s, f).error is None,
    ensures
        f(s[0]).error is None,
        emit_each(s.drop_first(), f).error is None,
        emit_each(s, f).bytes == f(s[0]).bytes + emit_each(s.drop_first(), f).bytes,
    decreases s.len(),
{
    if s.len() == 1 {
        assert(s.drop_last() =~= Seq::<T>::empty());
        assert(s.drop_first() =~= Seq::<T>::empty());
        assert(emit_each(s, f).bytes =~= f(s[0]).bytes);
        assert(f(s[0]).bytes + emit_each(s.drop_first(), f).bytes =~= f(s[0]).bytes);
    } else {
        let init = s.drop_last();
        assert(emit_each(s, f) == then(emit_each(init, f), f(s.last())));
        lemma_emit_each_front(init, f);
        assert(init[0] == s[0]);
        assert(init.drop_first() =~= s.drop_first().drop_last());
        assert(s.drop_first().last() == s.last());
        assert(emit_each(s.drop_first(), f) == then(emit_each(s.drop_first().drop_last(), f), f(s.last())));
        assert(emit_each(s, f).bytes =~= f(s[0]).bytes + emit_each(s.drop_first(), f).bytes);
    }
}

/// Lists of the same length whose successful emissions, each followed by any bytes, give the same
/// bytes, agree element by element under `v`, and the bytes that follow are the same.
pub proof fn lemma_read_each<T, V>(
    s1: Seq<T>,
    s2: Seq<T>,
    f: spec_fn(T) -> Emitted,
    v: spec_fn(T) -> V,
    r1: Seq<u8>,
    r2: Seq<u8>,
)
    requires
        readable(f, v),
        s1.len() == s2.len(),
        emit_each(s1, f).error is None,
        emit_each(s2, f).error is None,
        emit_each(s1, f).bytes + r1 == emit_each(s2, f).bytes + r2,
    ensures
        forall|i: int| 0 <= i < s1.len() ==> v(#[trigger] s1[i]) == v(s2[i]),
        r1 == r2,
    decreases s1.len(),
{
    if s1.len() == 0 {
        assert(emit_each(s1, f).bytes + r1 =~= r1);
        assert(emit_each(s2, f).bytes + r2 =~= r2);
    } else {
        lemma_emit_each_front(s1, f);
        lemma_emit_each_front(s2, f);
        let t1 = emit_each(s1.drop_first(), f).bytes + r1;
        let t2 = emit_each(s2.drop_first(), f).bytes + r2;
        assert(f(s1[0]).bytes + t1 =~= emit_each(s1, f).bytes + r1);
        assert(f(s2[0]).bytes + t2 =~= emit_each(s2, f).bytes + r2);
        assert(f(s1[0]).bytes + t1 == f(s2[0]).bytes + t2);
        assert(v(s1[0]) == v(s2[0]) && t1 == t2);
        lemma_read_each(s1.drop_first(), s2.drop_first(), f, v, r1, r2);
        assert forall|i: int| 0 <= i < s1.len() implies v(#[trigger] s1[i]) == v(s2[i]) by {
            if i > 0 {
                assert(s1.drop_first()[i - 1] == s1[i] && s2.drop_first()[i - 1] == s2[i]);
            }
        }
    }
}

/// A counted list is read back element by element under `v`.
pub proof fn lemma_read_counted<T, V>(
    fd1: CanonicalField,
    s1: Seq<T>,
    fd2: CanonicalField,
    s2: Seq<T>,
    f: spec_fn(T) -> Emitted,
    v: spec_fn(T) -> V,
    r1: Seq<u8>,
    r2: Seq<u8>,
)
    requires
        readable(f, v),
        s1.len() <= usize::MAX,
        s2.len() <= usize::MAX,
        emit_counted(fd1, s1, f).error is None,
        emit_counted(fd2, s2, f).error is None,
        emit_counted(fd1, s1, f).bytes + r1 == emit_counted(fd2, s2, f).bytes + r2,
    ensures
        s1.len() == s2.len(),
        forall|i: int| 0 <= i < s1.len() ==> v(#[trigger] s1[i]) == v(s2[i]),
        r1 == r2,
{
    lemma_then_bytes(count_emit(fd1, s1.len() as usize), emit_each(s1, f), r1);
    lemma_then_bytes(count_emit(fd2, s2.len() as usize), emit_each(s2, f), r2);
    lemma_read_count(
        fd1,
        s1.len() as usize,
        fd2,
        s2.len() as usize,
        emit_each(s1, f).bytes + r1,
        emit_each(s2, f).bytes + r2,
    );
    lemma_read_each(s1, s2, f, v, r1, r2);
}

// ---------------------------------------------------------------------------------------------
// Reading the header of an artifact
// ---------------------------------------------------------------------------------------------

/// What the bytes of an identity keep: its bytes.
pub open spec fn ident_view() -> spec_fn(Ident) -> Seq<u8> {
    |i: Ident| i@
}

/// What the bytes of an endpoint keep: its kind and identity.
pub open spec fn endpoint_view() -> spec_fn(TopologyEndpoint) -> (bool, Seq<u8>) {
    |e: TopologyEndpoint| (e is Finite, e.spec_id())
}

/// What the bytes of a connection keep: its source and target identities.
pub open spec fn connection_view() -> spec_fn(Connection) -> (Seq<u8>, Seq<u8>) {
    |c: Connection| (c.source@, c.target@)
}

/// What the bytes of an amount keep: its substance and its value up to the sign of zero.
pub open spec fn amount_view() -> spec_fn(SubstanceAmount) -> (Seq<u8>, u64) {
    |a: SubstanceAmount| (a.substance@, canonical_scalar_bits(a.amount_bits))
}

/// What the bytes of a topology keep: its endpoints and connections.
pub open spec fn topology_view(t: Topology) -> (Seq<(bool, Seq<u8>)>, Seq<(Seq<u8>, Seq<u8>)>) {
    (t.endpoints@.map_values(endpoint_view()), t.connections@.map_values(connection_view()))
}

/// What the bytes of a substance vector keep: its registry and its amounts.
pub open spec fn sparse_view(v: SparseSubstanceVector) -> (Seq<Seq<u8>>, Seq<(Seq<u8>, u64)>) {
    (id_views(v.registry.members@), v.entries@.map_values(amount_view()))
}

/// What the bytes of a compartment stock keep: its compartment and its amounts.
pub open spec fn stock_view() -> spec_fn(CompartmentStock) -> (Seq<u8>, (Seq<Seq<u8>>, Seq<(Seq<u8>, u64)>)) {
    |s: CompartmentStock| (s.compartment@, sparse_view(s.stock))
}

/// What the bytes of initial stocks keep: their topology, registry and stocks.
pub open spec fn stocks_view(s: InitialStocks) -> (
    (Seq<(bool, Seq<u8>)>, Seq<(Seq<u8>, Seq<u8>)>),
    Seq<Seq<u8>>,
    Seq<(Seq<u8>, (Seq<Seq<u8>>, Seq<(Seq<u8>, u64)>))>,
) {
    (topology_view(s.topology), id_views(s.registry.members@), s.entries@.map_values(stock_view()))
}

proof fn lemma_ident_readable(field: CanonicalField)
    ensures
        readable(ident_emitter(field), ident_view()),
{
    let f = ident_emitter(field);
    assert forall|x: Ident, y: Ident, r1: Seq<u8>, r2: Seq<u8>|
        #![trigger f(x).bytes + r1, f(y).bytes + r2]
        f(x).error is None && f(y).error is None && f(x).bytes + r1 == f(y).bytes + r2 implies ident_view()(x)
            == ident_view()(y) && r1 == r2 by {
        lemma_read_string(field, x@, field, y@, r1, r2);
    }
}

proof fn lemma_endpoint_readable()
    ensures
        readable(endpoint_emitter(), endpoint_view()),
{
    let f = endpoint_emitter();
    assert forall|x: TopologyEndpoint, y: TopologyEndpoint, r1: Seq<u8>, r2: Seq<u8>|
        #![trigger f(x).bytes + r1, f(y).bytes + r2]
        f(x).error is None && f(y).error is None && f(x).bytes + r1 == f(y).bytes + r2 implies endpoint_view()(x)
            == endpoint_view()(y) && r1 == r2 by {
        let tx = emit(seq![if x is Finite { 0u8 } else { 1u8 }]);
        let ty = emit(seq![if y is Finite { 0u8 } else { 1u8 }]);
        let sx = string_emit(CanonicalField::TopologyEndpointIdentity, x.spec_id());
        let sy = string_emit(CanonicalField::TopologyEndpointIdentity, y.spec_id());
        lemma_then_bytes(tx, sx, r1);
        lemma_then_bytes(ty, sy, r2);
        lemma_split(tx.bytes, sx.bytes + r1, ty.bytes, sy.bytes + r2);
        assert(tx.bytes[0] == ty.bytes[0]);
        lemma_read_string(
            CanonicalField::TopologyEndpointIdentity,
            x.spec_id(),
            CanonicalField::TopologyEndpointIdentity,
            y.spec_id(),
            r1,
            r2,
        );
    }
}

proof fn lemma_connection_readable()
    ensures
        readable(connection_emitter(), connection_view()),
{
    let f = connection_emitter();
    assert forall|x: Connection, y: Connection, r1: Seq<u8>, r2: Seq<u8>|
        #![trigger f(x).bytes + r1, f(y).bytes + r2]
        f(x).error is None && f(y).error is None && f(x).bytes + r1 == f(y).bytes + r2 implies connection_view()(x)
            == connection_view()(y) && r1 == r2 by {
        let ax = string_emit(CanonicalField::ConnectionSourceIdentity, x.source@);
        let bx = string_emit(CanonicalField::ConnectionTargetIdentity, x.target@);
        let ay = string_emit(CanonicalField::ConnectionSourceIdentity, y.source@);
        let by = string_emit(CanonicalField::ConnectionTargetIdentity, y.target@);
        lemma_then_bytes(ax, bx, r1);
        lemma_then_bytes(ay, by, r2);
        lemma_read_string(
            CanonicalField::ConnectionSourceIdentity,
            x.source@,
            CanonicalField::ConnectionSourceIdentity,
            y.source@,
            bx.bytes + r1,
            by.bytes + r2,
        );
        lemma_read_string(
            CanonicalField::ConnectionTargetIdentity,
            x.target@,
            CanonicalField::ConnectionTargetIdentity,
            y.target@,
            r1,
            r2,
        );
    }
}

proof fn lemma_amount_readable()
    ensures
        readable(amount_emitter(), amount_view()),
{
    let f = amount_emitter();
    assert forall|x: SubstanceAmount, y: SubstanceAmount, r1: Seq<u8>, r2: Seq<u8>|
        #![trigger f(x).bytes + r1, f(y).bytes + r2]
        f(x).error is None && f(y).error is None && f(x).bytes + r1 == f(y).bytes + r2 implies amount_view()(x)
            == amount_view()(y) && r1 == r2 by {
        let ax = string_emit(CanonicalField::SparseSubstanceIdentity, x.substance@);
        let bx = scalar_emit(CanonicalField::SparseAmount, x.amount_bits);
        let ay = string_emit(CanonicalField::SparseSubstanceIdentity, y.substance@);
        let by = scalar_emit(CanonicalField::SparseAmount, y.amount_bits);
        lemma_then_bytes(ax, bx, r1);
        lemma_then_bytes(ay, by, r2);
        lemma_read_string(
            CanonicalField::SparseSubstanceIdentity,
            x.substance@,
            CanonicalField::SparseSubstanceIdentity,
            y.substance@,
            bx.bytes + r1,
            by.bytes + r2,
        );
        lemma_read_scalar(CanonicalField::SparseAmount, x.amount_bits, CanonicalField::SparseAmount, y.amount_bits, r1, r2);
    }
}

/// Lists agreeing element by element under `v` have equal images under `v`.
proof fn lemma_same_images<T, V>(s1: Seq<T>, s2: Seq<T>, v: spec_fn(T) -> V)
    requires
        s1.len() == s2.len(),
        forall|i: int| 0 <= i < s1.len() ==> v(#[trigger] s1[i]) == v(s2[i]),
    ensures
        s1.map_values(v) == s2.map_values(v),
{
    assert(s1.map_values(v) =~= s2.map_values(v));
}

/// A registry is read back.
pub proof fn lemma_read_registry(a: SubstanceRegistry, b: SubstanceRegistry, r1: Seq<u8>, r2: Seq<u8>)
    requires
        registry_emit(a).error is None,
        registry_emit(b).error is None,
        registry_emit(a).bytes + r1 == registry_emit(b).bytes + r2,
    ensures
        id_views(a.members@) == id_views(b.members@),
        r1 == r2,
{
    let field = CanonicalField::RegistrySubstanceIdentity;
    lemma_ident_readable(field);
    assert(a.members@.len() == a.members.len() && b.members@.len() == b.members.len());
    lemma_read_counted(
        CanonicalField::RegistryMembers,
        a.members@,
        CanonicalField::RegistryMembers,
        b.members@,
        ident_emitter(field),
        ident_view(),
        r1,
        r2,
    );
    lemma_same_images(a.members@, b.members@, ident_view());
    assert(id_views(a.members@) =~= a.members@.map_values(ident_view()));
    assert(id_views(b.members@) =~= b.members@.map_values(ident_view()));
}

/// A topology is read back.
pub proof fn lemma_read_topology(a: Topology, b: Topology, r1: Seq<u8>, r2: Seq<u8>)
    requires
        topology_emit(a).error is None,
        topology_emit(b).error is None,
        topology_emit(a).bytes + r1 == topology_emit(b).bytes + r2,
    ensures
        topology_view(a) == topology_view(b),
        r1 == r2,
{
    let ea = emit_counted(CanonicalField::TopologyEndpoints, a.endpoints@, endpoint_emitter());
    let ca = emit_counted(CanonicalField::TopologyConnections, a.connections@, connection_emitter());
    let eb = emit_counted(CanonicalField::TopologyEndpoints, b.endpoints@, endpoint_emitter());
    let cb = emit_counted(CanonicalField::TopologyConnections, b.connections@, connection_emitter());
    lemma_then_bytes(ea, ca, r1);
    lemma_then_bytes(eb, cb, r2);
    lemma_endpoint_readable();
    lemma_connection_readable();
    assert(a.endpoints@.len() == a.endpoints.len() && b.endpoints@.len() == b.endpoints.len());
    assert(a.connections@.len() == a.connections.len() && b.connections@.len() == b.connections.len());
    lemma_read_counted(
        CanonicalField::TopologyEndpoints,
        a.endpoints@,
        CanonicalField::TopologyEndpoints,
        b.endpoints@,
        endpoint_emitter(),
        endpoint_view(),
        ca.bytes + r1,
        cb.bytes + r2,
    );
    lemma_read_counted(
        CanonicalField::TopologyConnections,
        a.connections@,
        CanonicalField::TopologyConnections,
        b.connections@,
        connection_emitter(),
        connection_view(),
        r1,
        r2,
    );
    lemma_same_images(a.endpoints@, b.endpoints@, endpoint_view());
    lemma_same_images(a.connections@, b.connections@, connection_view());
}

/// A substance vector is read back.
pub proof fn lemma_read_sparse(a: SparseSubstanceVector, b: SparseSubstanceVector, r1: Seq<u8>, r2: Seq<u8>)
    requires
        sparse_emit(a).error is None,
        sparse_emit(b).error is None,
        sparse_emit(a).bytes + r1 == sparse_emit(b).bytes + r2,
    ensures
        sparse_view(a) == sparse_view(b),
        r1 == r2,
{
    let ea = emit_counted(CanonicalField::SparseEntries, a.entries@, amount_emitter());
    let eb = emit_counted(CanonicalField::SparseEntries, b.entries@, amount_emitter());
    lemma_then_bytes(registry_emit(a.registry), ea, r1);
    lemma_then_bytes(registry_emit(b.registry), eb, r2);
    lemma_read_registry(a.registry, b.registry, ea.bytes + r1, eb.bytes + r2);
    lemma_amount_readable();
    assert(a.entries@.len() == a.entries.len() && b.entries@.len() == b.entries.len());
    lemma_read_counted(
        CanonicalField::SparseEntries,
        a.entries@,
        CanonicalField::SparseEntries,
        b.entries@,
        amount_emitter(),
        amount_view(),
        r1,
        r2,
    );
    lemma_same_images(a.entries@, b.entries@, amount_view());
}

proof fn lemma_stock_readable()
    ensures
        readable(stock_emitter(), stock_view()),
{
    let f = stock_emitter();
    assert forall|x: CompartmentStock, y: CompartmentStock, r1: Seq<u8>, r2: Seq<u8>|
        #![trigger f(x).bytes + r1, f(y).bytes + r2]
        f(x).error is None && f(y).error is None && f(x).bytes + r1 == f(y).bytes + r2 implies stock_view()(x)
            == stock_view()(y) && r1 == r2 by {
        let ax = string_emit(CanonicalField::InitialStockCompartmentIdentity, x.compartment@);
        let ay = string_emit(CanonicalField::InitialStockCompartmentIdentity, y.compartment@);
        lemma_then_bytes(ax, sparse_emit(x.stock), r1);
        lemma_then_bytes(ay, sparse_emit(y.stock), r2);
        lemma_read_string(
            CanonicalField::InitialStockCompartmentIdentity,
            x.compartment@,
            CanonicalField::InitialStockCompartmentIdentity,
            y.compartment@,
            sparse_emit(x.stock).bytes + r1,
            sparse_emit(y.stock).bytes + r2,
        );
        lemma_read_sparse(x.stock, y.stock, r1, r2);
    }
}

/// Initial stocks are read back.
pub proof fn lemma_read_stocks(a: InitialStocks, b: InitialStocks, r1: Seq<u8>, r2: Seq<u8>)
    requires
        initial_stocks_emit(a).error is None,
        initial_stocks_emit(b).error is None,
        initial_stocks_emit(a).bytes + r1 == initial_stocks_emit(b).bytes + r2,
    ensures
        stocks_view(a) == stocks_view(b),
        r1 == r2,
{
    let ha = then(topology_emit(a.topology), registry_emit(a.registry));
    let hb = then(topology_emit(b.topology), registry_emit(b.registry));
    let ea = emit_counted(CanonicalField::InitialStockEntries, a.entries@, stock_emitter());
    let eb = emit_counted(CanonicalField::InitialStockEntries, b.entries@, stock_emitter());
    lemma_then_bytes(ha, ea, r1);
    lemma_then_bytes(hb, eb, r2);
    lemma_then_bytes(topology_emit(a.topology), registry_emit(a.registry), ea.bytes + r1);
    lemma_then_bytes(topology_emit(b.topology), registry_emit(b.registry), eb.bytes + r2);
    lemma_read_topology(
        a.topology,
        b.topology,
        registry_emit(a.registry).bytes + (ea.bytes + r1),
        registry_emit(b.registry).bytes + (eb.bytes + r2),
    );
    lemma_read_registry(a.registry, b.registry, ea.bytes + r1, eb.bytes + r2);
    lemma_stock_readable();
    assert(a.entries@.len() == a.entries.len() && b.entries@.len() == b.entries.len());
    lemma_read_counted(
        CanonicalField::InitialStockEntries,
        a.entries@,
        CanonicalField::InitialStockEntries,
        b.entries@,
        stock_emitter(),
        stock_view(),
        r1,
        r2,
    );
    lemma_same_images(a.entries@, b.entries@, stock_view());
}

/// Equal version payloads are equal selections.
proof fn lemma_read_versions(va: ModelVersions, vb: ModelVersions)
    requires
        versions_emit(va).bytes == versions_emit(vb).bytes,
    ensures
        va == vb,
{
    let xa = versions_emit(va).bytes;
    let xb = versions_emit(vb).bytes;
    assert(xa[4] == xb[4] && xa[5] == xb[5]);
    assert(numerical_version_number(va.spec_numerical_semantics()) == numerical_version_number(vb.spec_numerical_semantics())) by {
        let na = numerical_version_number(va.spec_numerical_semantics());
        let nb = numerical_version_number(vb.spec_numerical_semantics());
        assert(xa[4] == (na >> 8u16) as u8 && xa[5] == na as u8);
        assert(xb[4] == (nb >> 8u16) as u8 && xb[5] == nb as u8);
        assert(na == nb) by (bit_vector)
            requires
                (na >> 8u16) as u8 == (nb >> 8u16) as u8,
                na as u8 == nb as u8,
        ;
    }
    lemma_versions_by_numerical(va, vb);
}

/// The calendar and horizon fields are read back.
proof fn lemma_read_calendar(
    ca: FixedStepCalendar,
    ha: RunHorizon,
    cb: FixedStepCalendar,
    hb: RunHorizon,
    r1: Seq<u8>,
    r2: Seq<u8>,
)
    requires
        emit(be_i64(ca.origin_unix_seconds) + be_u64(ca.timestep_seconds) + be_u64(ha.first) + be_u64(ha.last)).bytes + r1
            == emit(be_i64(cb.origin_unix_seconds) + be_u64(cb.timestep_seconds) + be_u64(hb.first) + be_u64(hb.last)).bytes + r2,
    ensures
        ca == cb,
        ha == hb,
        r1 == r2,
{
    let fa = emit(be_i64(ca.origin_unix_seconds) + be_u64(ca.timestep_seconds) + be_u64(ha.first) + be_u64(ha.last));
    let fb = emit(be_i64(cb.origin_unix_seconds) + be_u64(cb.timestep_seconds) + be_u64(hb.first) + be_u64(hb.last));
    let o1 = ca.origin_unix_seconds as u64;
    let o2 = cb.origin_unix_seconds as u64;
    assert(fa.bytes + r1 =~= be_u64(o1) + (be_u64(ca.timestep_seconds) + (be_u64(ha.first) + (be_u64(ha.last) + r1))));
    assert(fb.bytes + r2 =~= be_u64(o2) + (be_u64(cb.timestep_seconds) + (be_u64(hb.first) + (be_u64(hb.last) + r2))));
    lemma_read_u64(o1, o2, be_u64(ca.timestep_seconds) + (be_u64(ha.first) + (be_u64(ha.last) + r1)), be_u64(cb.timestep_seconds) + (be_u64(hb.first) + (be_u64(hb.last) + r2)));
    lemma_read_u64(ca.timestep_seconds, cb.timestep_seconds, be_u64(ha.first) + (be_u64(ha.last) + r1), be_u64(hb.first) + (be_u64(hb.last) + r2));
    lemma_read_u64(ha.first, hb.first, be_u64(ha.last) + r1, be_u64(hb.last) + r2);
    lemma_read_u64(ha.last, hb.last, r1, r2);
    let x = ca.origin_unix_seconds;
    let y = cb.origin_unix_seconds;
    assert(x == y) by (bit_vector)
        requires
            x as u64 == y as u64,
    ;
}

/// The header of an artifact payload is read back: versions, topology, registry, initial stocks,
/// calendar and horizon.
#[verifier::spinoff_prover]
#[verifier::rlimit(50)]
pub proof fn lemma_read_header(
    va: ModelVersions,
    ta: Topology,
    ga: SubstanceRegistry,
    sa: InitialStocks,
    ca: FixedStepCalendar,
    ha: RunHorizon,
    vb: ModelVersions,
    tb: Topology,
    gb: SubstanceRegistry,
    sb: InitialStocks,
    cb: FixedStepCalendar,
    hb: RunHorizon,
    r1: Seq<u8>,
    r2: Seq<u8>,
)
    requires
        header_emit(va, ta, ga, sa, ca, ha).error is None,
        header_emit(vb, tb, gb, sb, cb, hb).error is None,
        header_emit(va, ta, ga, sa, ca, ha).bytes + r1 == header_emit(vb, tb, gb, sb, cb, hb).bytes + r2,
    ensures
        va == vb,
        topology_view(ta) == topology_view(tb),
        id_views(ga.members@) == id_views(gb.members@),
        stocks_view(sa) == stocks_view(sb),
        ca == cb,
        ha == hb,
        r1 == r2,
{
    let fa = emit(be_i64(ca.origin_unix_seconds) + be_u64(ca.timestep_seconds) + be_u64(ha.first) + be_u64(ha.last));
    let fb = emit(be_i64(cb.origin_unix_seconds) + be_u64(cb.timestep_seconds) + be_u64(hb.first) + be_u64(hb.last));
    let sta = then(initial_stocks_emit(sa), fa);
    let stb = then(initial_stocks_emit(sb), fb);
    let rga = then(registry_emit(ga), sta);
    let rgb = then(registry_emit(gb), stb);
    let tpa = then(topology_emit(ta), rga);
    let tpb = then(topology_emit(tb), rgb);
    lemma_then_bytes(versions_emit(va), tpa, r1);
    lemma_then_bytes(versions_emit(vb), tpb, r2);
    lemma_split(versions_emit(va).bytes, tpa.bytes + r1, versions_emit(vb).bytes, tpb.bytes + r2);
    lemma_read_versions(va, vb);
    lemma_then_bytes(topology_emit(ta), rga, r1);
    lemma_then_bytes(topology_emit(tb), rgb, r2);
    lemma_read_topology(ta, tb, rga.bytes + r1, rgb.bytes + r2);
    lemma_then_bytes(registry_emit(ga), sta, r1);
    lemma_then_bytes(registry_emit(gb), stb, r2);
    lemma_read_registry(ga, gb, sta.bytes + r1, stb.bytes + r2);
    lemma_then_bytes(initial_stocks_emit(sa), fa, r1);
    lemma_then_bytes(initial_stocks_emit(sb), fb, r2);
    lemma_read_stocks(sa, sb, fa.bytes + r1, fb.bytes + r2);
    lemma_read_calendar(ca, ha, cb, hb, r1, r2);
}

/// Artifacts with the same canonical bytes have the same header content: the same versions,
/// calendar and horizon, and the same topology, registry and initial stocks (identities by their
/// bytes, amounts up to the sign of zero). The catalogues and body that follow the header
/// (projections, forcings, tables, rules, bindings and units) are not read back here.
pub proof fn lemma_canonical_bytes_determine_header(a: ModelArtifact, b: ModelArtifact)
    requires
        a.wf(),
        b.wf(),
        a.spec_canonical_bytes() == b.spec_canonical_bytes(),
    ensures
        a.spec_versions() == b.spec_versions(),
        topology_view(a.spec_topology()) == topology_view(b.spec_topology()),
        id_views(a.spec_registry().members@) == id_views(b.spec_registry().members@),
        stocks_view(a.spec_initial_stocks()) == stocks_view(b.spec_initial_stocks()),
        a.spec_calendar() == b.spec_calendar(),
        a.spec_horizon() == b.spec_horizon(),
{
    let pa = a.artifact_payload();
    let pb = b.artifact_payload();
    assert(spec_encode(0x0020, pa) == Ok::<Seq<u8>, crate::canonical_encoding::CanonicalEncodingError>(a.spec_canonical_bytes()));
    assert(spec_encode(0x0020, pb) == Ok::<Seq<u8>, crate::canonical_encoding::CanonicalEncodingError>(b.spec_canonical_bytes()));
    assert(pa.error is None && pb.error is None);
    lemma_split(envelope(0x0020), pa.bytes, envelope(0x0020), pb.bytes);
    let ha = header_emit(a.spec_versions(), a.spec_topology(), a.spec_registry(), a.spec_initial_stocks(), a.spec_calendar(), a.spec_horizon());
    let hb = header_emit(b.spec_versions(), b.spec_topology(), b.spec_registry(), b.spec_initial_stocks(), b.spec_calendar(), b.spec_horizon());
    let empty = Seq::<u8>::empty();
    assert(pa.bytes + empty =~= pa.bytes);
    assert(pb.bytes + empty =~= pb.bytes);
    let ra = then(crate::artifact::catalogues_emit(a.spec_projections(), a.spec_forcings(), a.spec_tables()), crate::artifact::body_emit(a.spec_rules(), a.spec_execution_bindings(), a.spec_units()));
    let rb = then(crate::artifact::catalogues_emit(b.spec_projections(), b.spec_forcings(), b.spec_tables()), crate::artifact::body_emit(b.spec_rules(), b.spec_execution_bindings(), b.spec_units()));
    lemma_then_bytes(ha, ra, empty);
    lemma_then_bytes(hb, rb, empty);
    lemma_read_header(
        a.spec_versions(),
        a.spec_topology(),
        a.spec_registry(),
        a.spec_initial_stocks(),
        a.spec_calendar(),
        a.spec_horizon(),
        b.spec_versions(),
        b.spec_topology(),
        b.spec_registry(),
        b.spec_initial_stocks(),
        b.spec_calendar(),
        b.spec_horizon(),
        ra.bytes + empty,
        rb.bytes + empty,
    );
}

// ---------------------------------------------------------------------------------------------
// Reading expressions
// ---------------------------------------------------------------------------------------------

/// Equal concatenations with equal tails have equal heads.
pub proof fn lemma_cancel_tail(a: Seq<u8>, b: Seq<u8>, r: Seq<u8>)
    requires
        a + r == b + r,
    ensures
        a == b,
{
    assert((a + r).len() == a.len() + r.len());
    assert((b + r).len() == b.len() + r.len());
    lemma_split(a, r, b, r);
}

/// A fixed head followed by an emission is read back: heads of the same length are equal, and
/// what follows them is the same.
pub proof fn lemma_read_head(h1: Seq<u8>, b1: Emitted, h2: Seq<u8>, b2: Emitted, r1: Seq<u8>, r2: Seq<u8>)
    requires
        then(emit(h1), b1).error is None,
        then(emit(h2), b2).error is None,
        h1.len() == h2.len(),
        then(emit(h1), b1).bytes + r1 == then(emit(h2), b2).bytes + r2,
    ensures
        h1 == h2,
        b1.error is None,
        b2.error is None,
        b1.bytes + r1 == b2.bytes + r2,
{
    lemma_then_bytes(emit(h1), b1, r1);
    lemma_then_bytes(emit(h2), b2, r2);
    lemma_split(h1, b1.bytes + r1, h2, b2.bytes + r2);
}

/// The tag byte that opens the encoding of a node.
pub open spec fn node_tag(n: ExprNode) -> u8 {
    match n {
        ExprNode::Literal(_) => 0,
        ExprNode::Parameter(_) => 1,
        ExprNode::Forcing(_) => 2,
        ExprNode::Projection(_) => 3,
        ExprNode::Input(_) => 4,
        ExprNode::InterpolatedTable { .. } => 5,
        ExprNode::Binary { .. } => 6,
        ExprNode::Comparison { .. } => 7,
        ExprNode::Clamp { .. } => 8,
        ExprNode::Select { .. } => 9,
    }
}

proof fn lemma_node_first(n: ExprNode, r: Seq<u8>)
    requires
        node_emit(n).error is None,
    ensures
        (node_emit(n).bytes + r).len() > 0,
        (node_emit(n).bytes + r)[0] == node_tag(n),
{
    match n {
        ExprNode::InterpolatedTable { table, input } => {
            let h = then(emit(seq![5u8]), string_emit(CanonicalField::RuleTableIdentity, table.id@));
            lemma_then_bytes(h, node_emit(*input), r);
            lemma_then_bytes(emit(seq![5u8]), string_emit(CanonicalField::RuleTableIdentity, table.id@), node_emit(*input).bytes + r);
        },
        ExprNode::Binary { op, lhs, rhs } => {
            let h = then(emit(seq![6u8, crate::rule_expression::binary_op_tag(op)]), node_emit(*lhs));
            lemma_then_bytes(h, node_emit(*rhs), r);
            lemma_then_bytes(emit(seq![6u8, crate::rule_expression::binary_op_tag(op)]), node_emit(*lhs), node_emit(*rhs).bytes + r);
        },
        ExprNode::Comparison { op, lhs, rhs } => {
            let h = then(emit(seq![7u8, crate::rule_expression::comparison_op_tag(op)]), node_emit(*lhs));
            lemma_then_bytes(h, node_emit(*rhs), r);
            lemma_then_bytes(emit(seq![7u8, crate::rule_expression::comparison_op_tag(op)]), node_emit(*lhs), node_emit(*rhs).bytes + r);
        },
        ExprNode::Clamp { value, lower, upper } => {
            let h1 = then(emit(seq![8u8]), node_emit(*value));
            let h2 = then(h1, node_emit(*lower));
            lemma_then_bytes(h2, node_emit(*upper), r);
            lemma_then_bytes(h1, node_emit(*lower), node_emit(*upper).bytes + r);
            lemma_then_bytes(emit(seq![8u8]), node_emit(*value), node_emit(*lower).bytes + (node_emit(*upper).bytes + r));
        },
        ExprNode::Select { condition, when_true, when_false } => {
            let h1 = then(emit(seq![9u8]), node_emit(*condition));
            let h2 = then(h1, node_emit(*when_true));
            lemma_then_bytes(h2, node_emit(*when_false), r);
            lemma_then_bytes(h1, node_emit(*when_true), node_emit(*when_false).bytes + r);
            lemma_then_bytes(emit(seq![9u8]), node_emit(*condition), node_emit(*when_true).bytes + (node_emit(*when_false).bytes + r));
        },
        ExprNode::Literal(bits) => {
            lemma_then_bytes(emit(seq![0u8]), scalar_emit(CanonicalField::RuleLiteral, bits), r);
        },
        ExprNode::Parameter(x) => {
            lemma_then_bytes(emit(seq![1u8, crate::canonical_encoding::spec_expression_kind_tag(x.value_kind)]), string_emit(CanonicalField::RuleParameterIdentity, x.id@), r);
        },
        ExprNode::Forcing(x) => {
            lemma_then_bytes(emit(seq![2u8, crate::canonical_encoding::spec_expression_kind_tag(x.value_kind)]), string_emit(CanonicalField::RuleForcingIdentity, x.id@), r);
        },
        ExprNode::Projection(x) => {
            lemma_then_bytes(emit(seq![3u8, crate::canonical_encoding::spec_projection_kind_tag(x.value_kind)]), string_emit(CanonicalField::RuleProjectionIdentity, x.id@), r);
        },
        ExprNode::Input(x) => {
            lemma_then_bytes(emit(seq![4u8, crate::canonical_encoding::spec_expression_kind_tag(x.value_kind)]), string_emit(CanonicalField::RuleInputIdentity, x.id@), r);
        },
    }
}

/// The encoding of an expression tree is prefix free: two successful encodings, each followed by
/// any bytes, give the same bytes only when the encodings are the same and so are the bytes
/// that follow.
#[verifier::spinoff_prover]
#[verifier::rlimit(80)]
pub proof fn lemma_read_node(x: ExprNode, y: ExprNode, r1: Seq<u8>, r2: Seq<u8>)
    requires
        node_emit(x).error is None,
        node_emit(y).error is None,
        node_emit(x).bytes + r1 == node_emit(y).bytes + r2,
    ensures
        node_emit(x).bytes == node_emit(y).bytes,
        r1 == r2,
    decreases x,
{
    lemma_node_first(x, r1);
    lemma_node_first(y, r2);
    assert(node_tag(x) == node_tag(y));
    match x {
        ExprNode::Literal(b1) => {
            let b2 = y->Literal_0;
            lemma_read_head(seq![0u8], scalar_emit(CanonicalField::RuleLiteral, b1), seq![0u8], scalar_emit(CanonicalField::RuleLiteral, b2), r1, r2);
            lemma_read_scalar(CanonicalField::RuleLiteral, b1, CanonicalField::RuleLiteral, b2, r1, r2);
        },
        ExprNode::Parameter(p1) => {
            let p2 = y->Parameter_0;
            let k1 = crate::canonical_encoding::spec_expression_kind_tag(p1.value_kind);
            let k2 = crate::canonical_encoding::spec_expression_kind_tag(p2.value_kind);
            lemma_read_head(seq![1u8, k1], string_emit(CanonicalField::RuleParameterIdentity, p1.id@), seq![1u8, k2], string_emit(CanonicalField::RuleParameterIdentity, p2.id@), r1, r2);
            lemma_read_string(CanonicalField::RuleParameterIdentity, p1.id@, CanonicalField::RuleParameterIdentity, p2.id@, r1, r2);
        },
        ExprNode::Forcing(p1) => {
            let p2 = y->Forcing_0;
            let k1 = crate::canonical_encoding::spec_expression_kind_tag(p1.value_kind);
            let k2 = crate::canonical_encoding::spec_expression_kind_tag(p2.value_kind);
            lemma_read_head(seq![2u8, k1], string_emit(CanonicalField::RuleForcingIdentity, p1.id@), seq![2u8, k2], string_emit(CanonicalField::RuleForcingIdentity, p2.id@), r1, r2);
            lemma_read_string(CanonicalField::RuleForcingIdentity, p1.id@, CanonicalField::RuleForcingIdentity, p2.id@, r1, r2);
        },
        ExprNode::Projection(p1) => {
            let p2 = y->Projection_0;
            let k1 = crate::canonical_encoding::spec_projection_kind_tag(p1.value_kind);
            let k2 = crate::canonical_encoding::spec_projection_kind_tag(p2.value_kind);
            lemma_read_head(seq![3u8, k1], string_emit(CanonicalField::RuleProjectionIdentity, p1.id@), seq![3u8, k2], string_emit(CanonicalField::RuleProjectionIdentity, p2.id@), r1, r2);
            lemma_read_string(CanonicalField::RuleProjectionIdentity, p1.id@, CanonicalField::RuleProjectionIdentity, p2.id@, r1, r2);
        },
        ExprNode::Input(p1) => {
            let p2 = y->Input_0;
            let k1 = crate::canonical_encoding::spec_expression_kind_tag(p1.value_kind);
            let k2 = crate::canonical_encoding::spec_expression_kind_tag(p2.value_kind);
            lemma_read_head(seq![4u8, k1], string_emit(CanonicalField::RuleInputIdentity, p1.id@), seq![4u8, k2], string_emit(CanonicalField::RuleInputIdentity, p2.id@), r1, r2);
            lemma_read_string(CanonicalField::RuleInputIdentity, p1.id@, CanonicalField::RuleInputIdentity, p2.id@, r1, r2);
        },
        ExprNode::InterpolatedTable { table, input } => {
            let t2 = y->table;
            let i2 = y->input;
            let s1 = string_emit(CanonicalField::RuleTableIdentity, table.id@);
            let s2 = string_emit(CanonicalField::RuleTableIdentity, t2.id@);
            lemma_then_bytes(then(emit(seq![5u8]), s1), node_emit(*input), r1);
            lemma_then_bytes(then(emit(seq![5u8]), s2), node_emit(*i2), r2);
            lemma_read_head(seq![5u8], s1, seq![5u8], s2, node_emit(*input).bytes + r1, node_emit(*i2).bytes + r2);
            lemma_read_string(CanonicalField::RuleTableIdentity, table.id@, CanonicalField::RuleTableIdentity, t2.id@, node_emit(*input).bytes + r1, node_emit(*i2).bytes + r2);
            lemma_read_node(*input, *i2, r1, r2);
        },
        ExprNode::Binary { op, lhs, rhs } => {
            let o2 = y->Binary_op;
            let l2 = y->Binary_lhs;
            let q2 = y->Binary_rhs;
            let h1 = seq![6u8, crate::rule_expression::binary_op_tag(op)];
            let h2 = seq![6u8, crate::rule_expression::binary_op_tag(o2)];
            lemma_then_bytes(then(emit(h1), node_emit(*lhs)), node_emit(*rhs), r1);
            lemma_then_bytes(then(emit(h2), node_emit(*l2)), node_emit(*q2), r2);
            lemma_read_head(h1, node_emit(*lhs), h2, node_emit(*l2), node_emit(*rhs).bytes + r1, node_emit(*q2).bytes + r2);
            lemma_read_node(*lhs, *l2, node_emit(*rhs).bytes + r1, node_emit(*q2).bytes + r2);
            lemma_read_node(*rhs, *q2, r1, r2);
        },
        ExprNode::Comparison { op, lhs, rhs } => {
            let o2 = y->Comparison_op;
            let l2 = y->Comparison_lhs;
            let q2 = y->Comparison_rhs;
            let h1 = seq![7u8, crate::rule_expression::comparison_op_tag(op)];
            let h2 = seq![7u8, crate::rule_expression::comparison_op_tag(o2)];
            lemma_then_bytes(then(emit(h1), node_emit(*lhs)), node_emit(*rhs), r1);
            lemma_then_bytes(then(emit(h2), node_emit(*l2)), node_emit(*q2), r2);
            lemma_read_head(h1, node_emit(*lhs), h2, node_emit(*l2), node_emit(*rhs).bytes + r1, node_emit(*q2).bytes + r2);
            lemma_read_node(*lhs, *l2, node_emit(*rhs).bytes + r1, node_emit(*q2).bytes + r2);
            lemma_read_node(*rhs, *q2, r1, r2);
        },
        ExprNode::Clamp { value, lower, upper } => {
            let v2 = y->value;
            let lo2 = y->lower;
            let up2 = y->upper;
            let a1 = then(emit(seq![8u8]), node_emit(*value));
            let a2 = then(emit(seq![8u8]), node_emit(*v2));
            lemma_then_bytes(then(a1, node_emit(*lower)), node_emit(*upper), r1);
            lemma_then_bytes(then(a2, node_emit(*lo2)), node_emit(*up2), r2);
            lemma_then_bytes(a1, node_emit(*lower), node_emit(*upper).bytes + r1);
            lemma_then_bytes(a2, node_emit(*lo2), node_emit(*up2).bytes + r2);
            lemma_read_head(
                seq![8u8],
                node_emit(*value),
                seq![8u8],
                node_emit(*v2),
                node_emit(*lower).bytes + (node_emit(*upper).bytes + r1),
                node_emit(*lo2).bytes + (node_emit(*up2).bytes + r2),
            );
            lemma_read_node(*value, *v2, node_emit(*lower).bytes + (node_emit(*upper).bytes + r1), node_emit(*lo2).bytes + (node_emit(*up2).bytes + r2));
            lemma_read_node(*lower, *lo2, node_emit(*upper).bytes + r1, node_emit(*up2).bytes + r2);
            lemma_read_node(*upper, *up2, r1, r2);
        },
        ExprNode::Select { condition, when_true, when_false } => {
            let c2 = y->condition;
            let t2 = y->when_true;
            let f2 = y->when_false;
            let a1 = then(emit(seq![9u8]), node_emit(*condition));
            let a2 = then(emit(seq![9u8]), node_emit(*c2));
            lemma_then_bytes(then(a1, node_emit(*when_true)), node_emit(*when_false), r1);
            lemma_then_bytes(then(a2, node_emit(*t2)), node_emit(*f2), r2);
            lemma_then_bytes(a1, node_emit(*when_true), node_emit(*when_false).bytes + r1);
            lemma_then_bytes(a2, node_emit(*t2), node_emit(*f2).bytes + r2);
            lemma_read_head(
                seq![9u8],
                node_emit(*condition),
                seq![9u8],
                node_emit(*c2),
                node_emit(*when_true).bytes + (node_emit(*when_false).bytes + r1),
                node_emit(*t2).bytes + (node_emit(*f2).bytes + r2),
            );
            lemma_read_node(*condition, *c2, node_emit(*when_true).bytes + (node_emit(*when_false).bytes + r1), node_emit(*t2).bytes + (node_emit(*f2).bytes + r2));
            lemma_read_node(*when_true, *t2, node_emit(*when_false).bytes + r1, node_emit(*f2).bytes + r2);
            lemma_read_node(*when_false, *f2, r1, r2);
        },
    }
    lemma_cancel_tail(node_emit(x).bytes, node_emit(y).bytes, r1);
}

} // verus!
