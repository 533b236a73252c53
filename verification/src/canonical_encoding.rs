//! canonical_encoding : CanonicalEncodingVersion × CanonicalValue → Bytes ⊎ CanonicalEncodingError
//! (pure, deterministic).
//!
//! Every payload is described by a spec function returning an [`Emitted`] value: the bytes a
//! writer appends, and the error (if any) that stops the payload after those bytes.

use vstd::prelude::*;
use vstd::string::StringSliceAdditionalSpecFns;
use crate::identity::Ident;
use crate::rule_reference::{ExpressionValueKind, ProjectionValueKind};
use crate::versions::{
    CanonicalEncodingVersion, InterpreterVersion, NumericalSemanticsVersion, RuleIrVersion,
};

verus! {

/// A typed location within a canonical payload.
#[derive(Clone, Copy, Debug, PartialEq, Eq, Structural)]
pub enum CanonicalField {
    RegistryMembers,
    RegistrySubstanceIdentity,
    SparseEntries,
    SparseSubstanceIdentity,
    SparseAmount,
    TopologyEndpoints,
    TopologyEndpointIdentity,
    TopologyConnections,
    ConnectionSourceIdentity,
    ConnectionTargetIdentity,
    InitialStockEntries,
    InitialStockCompartmentIdentity,
    RuleInputIdentity,
    RuleParameterIdentity,
    RuleForcingIdentity,
    RuleProjectionIdentity,
    RuleTableIdentity,
    RuleLiteral,
    PartitionBranches,
    PartitionCarrierSubstance,
    PartitionBranchIdentity,
    PartitionFraction,
    ProjectionIdentity,
    FactCompartmentIdentity,
    FactSubstanceIdentity,
    ProjectionReferenceIdentity,
    ProjectionCount,
    ProjectionInputIdentity,
    ProjectionParameterIdentity,
    ProjectorStateValues,
    ProjectorStateValue,
    ScalarProbe,
    ForcingSeriesIdentity,
    ForcingSeriesValues,
    ForcingSeriesValue,
    InterpolationTableIdentity,
    InterpolationTablePoints,
    InterpolationTableAbscissa,
    InterpolationTableOrdinate,
    ArtifactProjections,
    ArtifactProjectorStates,
    ArtifactForcings,
    ArtifactTables,
    ArtifactRules,
    ArtifactRuleCompartment,
    ArtifactRuleSubstance,
    ArtifactParameters,
    ArtifactParameterIdentity,
    ArtifactParameterValue,
    ArtifactTransferBindings,
    ArtifactTransferBindingCompartment,
    ArtifactTransferBindingSubstance,
    ArtifactTransferBindingBranch,
    ArtifactTransferBindingDestination,
    ArtifactInputBindings,
    ArtifactInputBindingCompartment,
    ArtifactInputBindingSubstance,
    ArtifactInputBindingIdentity,
    ArtifactInputSourceIdentity,
    ArtifactUnits,
    ArtifactUnitSubstance,
    ArtifactUnitIdentity,
    ArtifactUnitQuantum,
}

/// A checked failure to produce canonical bytes.
#[derive(Clone, Copy, Debug, PartialEq, Eq, Structural)]
pub enum CanonicalEncodingError {
    /// Fires when a sequence or string length cannot be represented by the V1 unsigned 64-bit
    /// field.
    LengthOutOfRange { field: CanonicalField, length: usize },
    /// Fires when a binary64 field (given by its IEEE-754 bit pattern) is NaN or infinite.
    NonFiniteScalar { field: CanonicalField, bits: u64 },
}

// ---------------------------------------------------------------------------------------------
// The byte grammar
// ---------------------------------------------------------------------------------------------

/// The bytes a payload writer appends and the error, if any, that ends it.
pub struct Emitted {
    pub bytes: Seq<u8>,
    pub error: Option<CanonicalEncodingError>,
}

/// A successful emission of `bytes`.
pub open spec fn emit(bytes: Seq<u8>) -> Emitted {
    Emitted { bytes, error: None }
}

/// A failure before any byte of this step.
pub open spec fn fail(error: CanonicalEncodingError) -> Emitted {
    Emitted { bytes: Seq::empty(), error: Some(error) }
}

/// Sequential composition: `b` runs only when `a` succeeded.
pub open spec fn then(a: Emitted, b: Emitted) -> Emitted {
    if a.error is Some {
        a
    } else {
        Emitted { bytes: a.bytes + b.bytes, error: b.error }
    }
}

/// The result a writer method returns for an emission.
pub open spec fn outcome(e: Emitted) -> Result<(), CanonicalEncodingError> {
    match e.error {
        Some(err) => Err(err),
        None => Ok(()),
    }
}

/// A writer that held `before` now holds `after`, having performed emission `e` with result `r`.
pub open spec fn emits(
    before: Seq<u8>,
    after: Seq<u8>,
    r: Result<(), CanonicalEncodingError>,
    e: Emitted,
) -> bool {
    after == before + e.bytes && r == outcome(e)
}

/// Big-endian bytes of a `u16`.
pub open spec fn be_u16(v: u16) -> Seq<u8> {
    seq![(v >> 8u16) as u8, v as u8]
}

/// Big-endian bytes of a `u64`.
pub open spec fn be_u64(v: u64) -> Seq<u8> {
    seq![
        (v >> 56u64) as u8,
        (v >> 48u64) as u8,
        (v >> 40u64) as u8,
        (v >> 32u64) as u8,
        (v >> 24u64) as u8,
        (v >> 16u64) as u8,
        (v >> 8u64) as u8,
        v as u8,
    ]
}

/// Big-endian two's-complement bytes of an `i64`.
pub open spec fn be_i64(v: i64) -> Seq<u8> {
    be_u64(v as u64)
}

/// A length or count field.
pub open spec fn count_emit(field: CanonicalField, length: usize) -> Emitted {
    if length <= u64::MAX {
        emit(be_u64(length as u64))
    } else {
        fail(CanonicalEncodingError::LengthOutOfRange { field, length })
    }
}

/// A length-framed byte string.
pub open spec fn string_emit(field: CanonicalField, value: Seq<u8>) -> Emitted {
    if value.len() <= u64::MAX {
        emit(be_u64(value.len() as u64) + value)
    } else {
        fail(CanonicalEncodingError::LengthOutOfRange { field, length: value.len() as usize })
    }
}

/// Whether a binary64 bit pattern is finite (its exponent field is not all ones).
pub open spec fn finite_bits(bits: u64) -> bool {
    (bits >> 52u64) & 0x7ffu64 != 0x7ffu64
}

/// The canonical bit pattern of a finite binary64: both zeros encode as `+0.0`.
pub open spec fn canonical_scalar_bits(bits: u64) -> u64 {
    if bits & 0x7fff_ffff_ffff_ffffu64 == 0 {
        0
    } else {
        bits
    }
}

/// A binary64 field given by its bit pattern.
pub open spec fn scalar_emit(field: CanonicalField, bits: u64) -> Emitted {
    if finite_bits(bits) {
        emit(be_u64(canonical_scalar_bits(bits)))
    } else {
        fail(CanonicalEncodingError::NonFiniteScalar { field, bits })
    }
}

/// The emission of every element of `s` in order, stopping at the first error.
pub open spec fn emit_each<T>(s: Seq<T>, f: spec_fn(T) -> Emitted) -> Emitted
    decreases s.len(),
{
    if s.len() == 0 {
        emit(Seq::empty())
    } else {
        then(emit_each(s.drop_last(), f), f(s.last()))
    }
}

/// A count of `s.len()` followed by every element of `s`.
pub open spec fn emit_counted<T>(field: CanonicalField, s: Seq<T>, f: spec_fn(T) -> Emitted) -> Emitted {
    then(count_emit(field, s.len() as usize), emit_each(s, f))
}

/// Lists whose elements emit the same at every position emit the same.
pub proof fn lemma_emit_each_pointwise<T>(a: Seq<T>, b: Seq<T>, f: spec_fn(T) -> Emitted)
    requires
        a.len() == b.len(),
        forall|p: int| 0 <= p < a.len() ==> f(#[trigger] a[p]) == f(b[p]),
    ensures
        emit_each(a, f) == emit_each(b, f),
    decreases a.len(),
{
    if a.len() > 0 {
        let a0 = a.drop_last();
        let b0 = b.drop_last();
        assert forall|p: int| 0 <= p < a0.len() implies f(#[trigger] a0[p]) == f(b0[p]) by {
            assert(a0[p] == a[p] && b0[p] == b[p]);
        }
        lemma_emit_each_pointwise(a0, b0, f);
        assert(f(a[a.len() - 1]) == f(b[b.len() - 1]));
    }
}

/// Chains two emissions performed one after the other.
pub proof fn lemma_emits_then(
    before: Seq<u8>,
    mid: Seq<u8>,
    after: Seq<u8>,
    a: Emitted,
    b: Emitted,
    r: Result<(), CanonicalEncodingError>,
)
    requires
        mid == before + a.bytes,
        a.error is None,
        emits(mid, after, r, b),
    ensures
        emits(before, after, r, then(a, b)),
{
    assert(before + a.bytes + b.bytes =~= before + (a.bytes + b.bytes));
}

/// One more element extends `emit_each` of a prefix.
pub proof fn lemma_emit_each_step<T>(s: Seq<T>, f: spec_fn(T) -> Emitted, i: int)
    requires
        0 <= i < s.len(),
    ensures
        emit_each(s.take(i + 1), f) == then(emit_each(s.take(i), f), f(s[i])),
{
    assert(s.take(i + 1).drop_last() =~= s.take(i));
}

/// An error in the emission of a prefix is the error of the whole sequence.
pub proof fn lemma_emit_each_error_prefix<T>(s: Seq<T>, f: spec_fn(T) -> Emitted, i: int)
    requires
        0 <= i <= s.len(),
        emit_each(s.take(i), f).error is Some,
    ensures
        emit_each(s, f) == emit_each(s.take(i), f),
    decreases s.len() - i,
{
    if i < s.len() {
        lemma_emit_each_step(s, f, i);
        lemma_emit_each_error_prefix(s, f, i + 1);
    } else {
        assert(s.take(i) =~= s);
    }
}

/// The whole sequence is its full prefix.
pub proof fn lemma_emit_each_full<T>(s: Seq<T>, f: spec_fn(T) -> Emitted)
    ensures
        emit_each(s.take(s.len() as int), f) == emit_each(s, f),
{
    assert(s.take(s.len() as int) =~= s);
}

/// The canonical envelope that precedes a V1 root payload.
pub open spec fn envelope(root_tag: u16) -> Seq<u8> {
    seq![0x49u8, 0x4eu8, 0x43u8, 0x44u8] + be_u16(1) + be_u16(root_tag)
}

/// The canonical bytes of a root value with tag `root_tag` and payload emission `payload`.
pub open spec fn spec_encode(root_tag: u16, payload: Emitted) -> Result<Seq<u8>, CanonicalEncodingError> {
    match payload.error {
        Some(e) => Err(e),
        None => Ok(envelope(root_tag) + payload.bytes),
    }
}

// ---------------------------------------------------------------------------------------------
// The writer
// ---------------------------------------------------------------------------------------------

/// The payload sink available to canonical implementations.
///
/// Its unframed mutators are crate-private so callers cannot inject unframed bytes.
pub struct CanonicalPayloadWriter {
    bytes: Vec<u8>,
}

impl View for CanonicalPayloadWriter {
    type V = Seq<u8>;

    closed spec fn view(&self) -> Seq<u8> {
        self.bytes@
    }
}

impl CanonicalPayloadWriter {
    /// An empty writer.
    pub fn new() -> (r: Self)
        ensures
            r@ == Seq::<u8>::empty(),
    {
        CanonicalPayloadWriter { bytes: Vec::new() }
    }

    /// The bytes written so far.
    pub fn as_bytes(&self) -> (r: &[u8])
        ensures
            r@ == self@,
    {
        self.bytes.as_slice()
    }

    /// Consumes the writer, returning the bytes written.
    pub fn into_bytes(self) -> (r: Vec<u8>)
        ensures
            r@ == self@,
    {
        self.bytes
    }

    fn append(&mut self, data: &[u8])
        ensures
            final(self)@ == old(self)@ + data@,
    {
        let mut i: usize = 0;
        while i < data.len()
            invariant
                0 <= i <= data@.len(),
                self@ == old(self)@ + data@.take(i as int),
            decreases data@.len() - i,
        {
            self.bytes.push(data[i]);
            proof {
                assert(data@.take(i + 1) =~= data@.take(i as int).push(data@[i as int]));
                assert(old(self)@ + data@.take(i + 1) =~= (old(self)@ + data@.take(i as int)).push(
                    data@[i as int],
                ));
            }
            i = i + 1;
        }
        proof {
            assert(data@.take(data@.len() as int) =~= data@);
        }
    }

    pub(crate) fn write_u8(&mut self, value: u8)
        ensures
            final(self)@ == old(self)@ + seq![value],
    {
        self.bytes.push(value);
        proof {
            assert(old(self)@.push(value) =~= old(self)@ + seq![value]);
        }
    }

    pub(crate) fn write_u16(&mut self, value: u16)
        ensures
            final(self)@ == old(self)@ + be_u16(value),
    {
        self.bytes.push((value >> 8u16) as u8);
        self.bytes.push(value as u8);
        proof {
            assert(self@ =~= old(self)@ + be_u16(value));
        }
    }

    pub(crate) fn write_u64(&mut self, value: u64)
        ensures
            final(self)@ == old(self)@ + be_u64(value),
    {
        self.bytes.push((value >> 56u64) as u8);
        self.bytes.push((value >> 48u64) as u8);
        self.bytes.push((value >> 40u64) as u8);
        self.bytes.push((value >> 32u64) as u8);
        self.bytes.push((value >> 24u64) as u8);
        self.bytes.push((value >> 16u64) as u8);
        self.bytes.push((value >> 8u64) as u8);
        self.bytes.push(value as u8);
        proof {
            assert(self@ =~= old(self)@ + be_u64(value));
        }
    }

    pub(crate) fn write_i64(&mut self, value: i64)
        ensures
            final(self)@ == old(self)@ + be_i64(value),
    {
        self.write_u64(value as u64);
    }

    pub(crate) fn write_count(&mut self, field: CanonicalField, length: usize) -> (r: Result<
        (),
        CanonicalEncodingError,
    >)
        ensures
            emits(old(self)@, final(self)@, r, count_emit(field, length)),
            r is Ok,
    {
        if (length as u128) > (u64::MAX as u128) {
            proof {
                assert(old(self)@ + Seq::<u8>::empty() =~= old(self)@);
            }
            return Err(CanonicalEncodingError::LengthOutOfRange { field, length });
        }
        self.write_u64(length as u64);
        Ok(())
    }

    pub(crate) fn write_string(&mut self, field: CanonicalField, value: &str) -> (r: Result<
        (),
        CanonicalEncodingError,
    >)
        ensures
            emits(old(self)@, final(self)@, r, string_emit(field, value.spec_bytes())),
            r is Ok,
    {
        let bytes = value.as_bytes();
        if (bytes.len() as u128) > (u64::MAX as u128) {
            proof {
                assert(old(self)@ + Seq::<u8>::empty() =~= old(self)@);
            }
            return Err(CanonicalEncodingError::LengthOutOfRange { field, length: bytes.len() });
        }
        self.write_u64(bytes.len() as u64);
        self.append(bytes);
        proof {
            assert(old(self)@ + be_u64(bytes@.len() as u64) + bytes@ =~= old(self)@ + (be_u64(
                bytes@.len() as u64,
            ) + bytes@));
        }
        Ok(())
    }

    /// Writes a length-framed identity.
    pub(crate) fn write_ident(&mut self, field: CanonicalField, value: &Ident) -> (r: Result<
        (),
        CanonicalEncodingError,
    >)
        ensures
            emits(old(self)@, final(self)@, r, string_emit(field, value@)),
            r is Ok,
    {
        self.write_string(field, value.as_str())
    }

    /// Writes a binary64 field given by its IEEE-754 bit pattern: non-finite values are
    /// rejected and both zeros are written as `+0.0`.
    pub fn write_scalar(&mut self, field: CanonicalField, bits: u64) -> (r: Result<
        (),
        CanonicalEncodingError,
    >)
        ensures
            emits(old(self)@, final(self)@, r, scalar_emit(field, bits)),
    {
        if (bits >> 52u64) & 0x7ffu64 == 0x7ffu64 {
            proof {
                assert(old(self)@ + Seq::<u8>::empty() =~= old(self)@);
            }
            return Err(CanonicalEncodingError::NonFiniteScalar { field, bits });
        }
        if bits & 0x7fff_ffff_ffff_ffffu64 == 0 {
            self.write_u64(0);
        } else {
            self.write_u64(bits);
        }
        Ok(())
    }
}

// ---------------------------------------------------------------------------------------------
// Root values
// ---------------------------------------------------------------------------------------------

/// A value with a canonical root tag and deterministic V1 payload.
pub trait CanonicalEncode {
    /// The fixed V1 root type tag.
    spec fn spec_root_tag(&self) -> u16;

    /// The V1 payload grammar of the value.
    spec fn spec_payload(&self) -> Emitted;

    /// Returns the fixed V1 root type tag.
    fn root_tag(&self) -> (r: u16)
        ensures
            r == self.spec_root_tag(),
    ;

    /// Writes the value's framed, typed V1 payload.
    fn encode_payload(&self, writer: &mut CanonicalPayloadWriter) -> (r: Result<
        (),
        CanonicalEncodingError,
    >)
        ensures
            emits(old(writer)@, final(writer)@, r, self.spec_payload()),
    ;
}

impl CanonicalEncodingVersion {
    /// Encodes one root value using the selected canonical envelope and payload grammar.
    pub fn encode<T: CanonicalEncode>(self, value: &T) -> (r: Result<Vec<u8>, CanonicalEncodingError>)
        ensures
            match r {
                Ok(bytes) => spec_encode(value.spec_root_tag(), value.spec_payload()) == Ok::<
                    Seq<u8>,
                    CanonicalEncodingError,
                >(bytes@),
                Err(e) => spec_encode(value.spec_root_tag(), value.spec_payload()) == Err::<
                    Seq<u8>,
                    CanonicalEncodingError,
                >(e),
            },
    {
        let mut writer = CanonicalPayloadWriter::new();
        writer.write_u8(0x49);
        writer.write_u8(0x4e);
        writer.write_u8(0x43);
        writer.write_u8(0x44);
        match self {
            CanonicalEncodingVersion::V1 => writer.write_u16(1),
        }
        writer.write_u16(value.root_tag());
        let ghost head = writer@;
        proof {
            assert(head =~= envelope(value.spec_root_tag()));
        }
        match value.encode_payload(&mut writer) {
            Ok(()) => {},
            Err(e) => {
                return Err(e);
            },
        }
        Ok(writer.into_bytes())
    }
}

/// The payload of a single-version protocol selection.
pub open spec fn version_payload(number: u16) -> Emitted {
    emit(be_u16(number))
}

impl CanonicalEncode for RuleIrVersion {
    open spec fn spec_root_tag(&self) -> u16 {
        0x0001
    }

    open spec fn spec_payload(&self) -> Emitted {
        version_payload(1)
    }

    fn root_tag(&self) -> (r: u16) {
        0x0001
    }

    fn encode_payload(&self, writer: &mut CanonicalPayloadWriter) -> (r: Result<
        (),
        CanonicalEncodingError,
    >) {
        match self {
            RuleIrVersion::V1 => writer.write_u16(1),
        }
        Ok(())
    }
}

impl CanonicalEncode for InterpreterVersion {
    open spec fn spec_root_tag(&self) -> u16 {
        0x0002
    }

    open spec fn spec_payload(&self) -> Emitted {
        version_payload(1)
    }

    fn root_tag(&self) -> (r: u16) {
        0x0002
    }

    fn encode_payload(&self, writer: &mut CanonicalPayloadWriter) -> (r: Result<
        (),
        CanonicalEncodingError,
    >) {
        match self {
            InterpreterVersion::V1 => writer.write_u16(1),
        }
        Ok(())
    }
}

impl CanonicalEncode for CanonicalEncodingVersion {
    open spec fn spec_root_tag(&self) -> u16 {
        0x0003
    }

    open spec fn spec_payload(&self) -> Emitted {
        version_payload(1)
    }

    fn root_tag(&self) -> (r: u16) {
        0x0003
    }

    fn encode_payload(&self, writer: &mut CanonicalPayloadWriter) -> (r: Result<
        (),
        CanonicalEncodingError,
    >) {
        match self {
            CanonicalEncodingVersion::V1 => writer.write_u16(1),
        }
        Ok(())
    }
}

/// The number of a numerical semantics version.
pub open spec fn numerical_version_number(v: NumericalSemanticsVersion) -> u16 {
    match v {
        NumericalSemanticsVersion::V1 => 1,
        NumericalSemanticsVersion::V2 => 2,
    }
}

/// Writes the number of a numerical semantics version.
pub(crate) fn write_numerical_version(writer: &mut CanonicalPayloadWriter, v: NumericalSemanticsVersion)
    ensures
        final(writer)@ == old(writer)@ + be_u16(numerical_version_number(v)),
{
    writer.write_u16(
        match v {
            NumericalSemanticsVersion::V1 => 1,
            NumericalSemanticsVersion::V2 => 2,
        },
    );
}

impl CanonicalEncode for NumericalSemanticsVersion {
    open spec fn spec_root_tag(&self) -> u16 {
        0x0004
    }

    open spec fn spec_payload(&self) -> Emitted {
        version_payload(numerical_version_number(*self))
    }

    fn root_tag(&self) -> (r: u16) {
        0x0004
    }

    fn encode_payload(&self, writer: &mut CanonicalPayloadWriter) -> (r: Result<
        (),
        CanonicalEncodingError,
    >) {
        write_numerical_version(writer, *self);
        Ok(())
    }
}

/// An emission that failed is unchanged by what was to follow it.
pub proof fn lemma_emits_then_error(
    before: Seq<u8>,
    after: Seq<u8>,
    r: Result<(), CanonicalEncodingError>,
    a: Emitted,
    b: Emitted,
)
    requires
        emits(before, after, r, a),
        a.error is Some,
    ensures
        emits(before, after, r, then(a, b)),
{
}

/// The tag of a projection value kind.
pub open spec fn spec_projection_kind_tag(kind: ProjectionValueKind) -> u8 {
    match kind {
        ProjectionValueKind::Extensive => 0,
        ProjectionValueKind::Scalar => 1,
        ProjectionValueKind::Truth => 2,
    }
}

/// The tag of an expression value kind.
pub open spec fn spec_expression_kind_tag(kind: ExpressionValueKind) -> u8 {
    match kind {
        ExpressionValueKind::Scalar => 0,
        ExpressionValueKind::Truth => 1,
    }
}

pub fn projection_kind_tag(kind: ProjectionValueKind) -> (r: u8)
    ensures
        r == spec_projection_kind_tag(kind),
{
    match kind {
        ProjectionValueKind::Extensive => 0,
        ProjectionValueKind::Scalar => 1,
        ProjectionValueKind::Truth => 2,
    }
}

pub fn expression_kind_tag(kind: ExpressionValueKind) -> (r: u8)
    ensures
        r == spec_expression_kind_tag(kind),
{
    match kind {
        ExpressionValueKind::Scalar => 0,
        ExpressionValueKind::Truth => 1,
    }
}

/// The emitter of binary64 fields at `field`.
pub open spec fn scalar_emitter(field: CanonicalField) -> spec_fn(u64) -> Emitted {
    |bits: u64| scalar_emit(field, bits)
}

/// Writes every bit pattern of `values` as a binary64 field at `field`.
pub(crate) fn write_scalars(writer: &mut CanonicalPayloadWriter, field: CanonicalField, values: &Vec<u64>) -> (r: Result<
    (),
    CanonicalEncodingError,
>)
    ensures
        emits(old(writer)@, final(writer)@, r, emit_each(values@, scalar_emitter(field))),
{
    let ghost start = writer@;
    let ghost f = scalar_emitter(field);
    let mut i: usize = 0;
    proof {
        assert(values@.take(0) =~= Seq::<u64>::empty());
        assert(start + Seq::<u8>::empty() =~= start);
    }
    while i < values.len()
        invariant
            0 <= i <= values@.len(),
            f == scalar_emitter(field),
            start == old(writer)@,
            writer@ == start + emit_each(values@.take(i as int), f).bytes,
            emit_each(values@.take(i as int), f).error is None,
        decreases values@.len() - i,
    {
        let ghost m = writer@;
        let r = writer.write_scalar(field, values[i]);
        proof {
            lemma_emit_each_step(values@, f, i as int);
            lemma_emits_then(start, m, writer@, emit_each(values@.take(i as int), f), f(values@[i as int]), r);
        }
        if r.is_err() {
            proof {
                lemma_emit_each_error_prefix(values@, f, i + 1);
            }
            return r;
        }
        i = i + 1;
    }
    proof {
        lemma_emit_each_full(values@, f);
    }
    Ok(())
}

/// Writes `a` (already written since `before`, no error) followed by a step that produced `r`.
pub proof fn lemma_chain(
    before: Seq<u8>,
    mid: Seq<u8>,
    after: Seq<u8>,
    a: Emitted,
    b: Emitted,
    r: Result<(), CanonicalEncodingError>,
)
    requires
        mid == before + a.bytes,
        a.error is None,
        emits(mid, after, r, b),
    ensures
        emits(before, after, r, then(a, b)),
        r is Ok ==> after == before + then(a, b).bytes && then(a, b).error is None,
{
    lemma_emits_then(before, mid, after, a, b, r);
}

} // verus!
