//! Why a model artifact could not be constructed, and the identity-level view of each reason.

use vstd::prelude::*;
use crate::canonical_encoding::CanonicalEncodingError;
use crate::identity::{
    CompartmentId, ForcingId, Ident, InputId, ParameterId, ProjectionId, SubstanceId, TableId,
    TransferBranchId,
};
use crate::rule_reference::{ExpressionValueKind, ProjectionValueKind};

verus! {

/// The kind of catalogue a generic rule input source is looked up in.
#[derive(Clone, Copy, Debug, PartialEq, Eq, Structural)]
pub enum InputSourceKind {
    Forcing,
    InterpolationTable,
    Projection,
}

/// Reports why a complete model artifact could not be constructed.
///
/// binary64 diagnostics are carried as IEEE-754 bit patterns.
#[derive(Debug, PartialEq, Eq)]
#[allow(inconsistent_fields)]
pub enum ModelArtifactError {
    /// Fires when a dependent rule selects an unregistered carrier substance.
    UnknownCarrierSubstance { compartment: CompartmentId, substance: SubstanceId, carrier: SubstanceId },
    /// Fires when a dependent rule selects its own substance as carrier.
    SelfCarrier { compartment: CompartmentId, substance: SubstanceId },
    /// Fires when no rule exists for the carrier at this compartment.
    MissingCarrierRule { compartment: CompartmentId, substance: SubstanceId, carrier: SubstanceId },
    /// Fires when a carrier rule is itself carrier-proportional; chaining is unsupported.
    DependentCarrier { compartment: CompartmentId, substance: SubstanceId, carrier: SubstanceId },
    /// Fires when a mapping names a branch absent from its carrier partition.
    UnknownCarrierBranch {
        compartment: CompartmentId,
        substance: SubstanceId,
        carrier: SubstanceId,
        branch: TransferBranchId,
    },
    /// Fires when dependent and carrier branch destinations differ.
    CarrierDestinationMismatch {
        compartment: CompartmentId,
        substance: SubstanceId,
        branch: TransferBranchId,
        destination: CompartmentId,
        carrier_destination: CompartmentId,
    },
    /// Fires when an initial-stock value is bound to a different topology snapshot.
    InitialStocksTopologyMismatch,
    /// Fires when an initial-stock value is bound to a different registry snapshot.
    InitialStocksRegistryMismatch,
    /// Fires when no projection set (including an explicitly empty set) was supplied.
    MissingProjectionSet,
    /// Fires when a projection's rule IR version differs from the artifact selection.
    ProjectionRuleIrVersionMismatch { projection: ProjectionId },
    /// Fires when a projection's numerical version differs from the artifact selection.
    ProjectionNumericalVersionMismatch { projection: ProjectionId },
    /// Fires when a projection reads transfer facts for an endpoint absent from the topology.
    UnknownProjectionFactCompartment { projection: ProjectionId, compartment: CompartmentId },
    /// Fires when a projection reads transfer facts for a substance absent from the registry.
    UnknownProjectionFactSubstance { projection: ProjectionId, substance: SubstanceId },
    /// Fires when a forcing does not cover the artifact horizon exactly.
    ForcingHorizonMismatch { forcing: ForcingId },
    /// Fires when a forcing identity is repeated.
    DuplicateForcing { forcing: ForcingId },
    /// Fires when an interpolation-table identity is repeated.
    DuplicateTable { table: TableId },
    /// Fires when a table's numerical semantics version differs from the artifact selection.
    TableNumericalVersionMismatch { table: TableId },
    /// Fires when a rule names an endpoint absent from the topology.
    UnknownRuleCompartment { compartment: CompartmentId },
    /// Fires when a rule is assigned to a boundary account rather than a finite compartment.
    BoundaryAccountRule { account: CompartmentId },
    /// Fires when a rule names a substance absent from the registry.
    UnknownRuleSubstance { substance: SubstanceId },
    /// Fires when two rules name the same compartment-substance coordinate.
    DuplicateRule { compartment: CompartmentId, substance: SubstanceId },
    /// Fires when a rule's IR version differs from the artifact selection.
    RuleIrVersionMismatch { compartment: CompartmentId, substance: SubstanceId },
    /// Fires when a rule's numerical version differs from the artifact selection.
    RuleNumericalVersionMismatch { compartment: CompartmentId, substance: SubstanceId },
    /// Fires when one rule parameter identity occurs twice.
    DuplicateParameter { compartment: CompartmentId, substance: SubstanceId, parameter: ParameterId },
    /// Fires when a rule parameter is NaN or infinite.
    NonFiniteParameter {
        compartment: CompartmentId,
        substance: SubstanceId,
        parameter: ParameterId,
        bits: u64,
    },
    /// Fires when an expression refers to an undeclared rule parameter.
    MissingRuleParameter { compartment: CompartmentId, substance: SubstanceId, parameter: ParameterId },
    /// Fires when an expression or partition refers to an absent forcing series.
    MissingRuleForcing { compartment: CompartmentId, substance: SubstanceId, forcing: ForcingId },
    /// Fires when an expression refers to an absent interpolation table.
    MissingRuleTable { compartment: CompartmentId, substance: SubstanceId, table: TableId },
    /// Fires when an expression refers to an absent projection specification.
    MissingRuleProjection {
        compartment: CompartmentId,
        substance: SubstanceId,
        projection: ProjectionId,
    },
    /// Fires when an expression projection reference misstates the declared value kind.
    RuleProjectionKindMismatch {
        compartment: CompartmentId,
        substance: SubstanceId,
        projection: ProjectionId,
        expected: ProjectionValueKind,
        actual: ProjectionValueKind,
    },
    /// Fires when a partition branch has no declared destination.
    MissingTransferBranchBinding {
        compartment: CompartmentId,
        substance: SubstanceId,
        branch: TransferBranchId,
    },
    /// Fires when a transfer branch destination is absent from the topology.
    UnknownTransferDestination {
        compartment: CompartmentId,
        substance: SubstanceId,
        branch: TransferBranchId,
        destination: CompartmentId,
    },
    /// Fires when a transfer binding names no branch of the selected rule.
    UnknownTransferBranchBinding {
        compartment: CompartmentId,
        substance: SubstanceId,
        branch: TransferBranchId,
    },
    /// Fires when transfer bindings introduce a cycle into the execution graph.
    CyclicExecutionBindings { blocked_compartments: Vec<CompartmentId> },
    /// Fires when a generic input leaf has no declared source.
    MissingRuleInputBinding { compartment: CompartmentId, substance: SubstanceId, input: InputId },
    /// Fires when an input binding misstates the value kind declared by its rule leaf.
    RuleInputBindingKindMismatch {
        compartment: CompartmentId,
        substance: SubstanceId,
        input: InputId,
        expected: ExpressionValueKind,
        actual: ExpressionValueKind,
    },
    /// Fires when an input binding names no input leaf of the selected rule.
    UnknownRuleInputBinding { compartment: CompartmentId, substance: SubstanceId, input: InputId },
    /// Fires when a bound input source is absent from the artifact source catalogue.
    MissingRuleInputSource {
        compartment: CompartmentId,
        substance: SubstanceId,
        input: InputId,
        source_kind: InputSourceKind,
        source_identity: Ident,
    },
    /// Fires when an input leaf and its bound source have incompatible value kinds.
    RuleInputKindMismatch {
        compartment: CompartmentId,
        substance: SubstanceId,
        input: InputId,
        expected: ExpressionValueKind,
        actual: ExpressionValueKind,
    },
    /// Fires when a projection input source misstates the declared projection value kind.
    RuleInputProjectionKindMismatch {
        compartment: CompartmentId,
        substance: SubstanceId,
        input: InputId,
        projection: ProjectionId,
        expected: ProjectionValueKind,
        actual: ProjectionValueKind,
    },
    /// Fires when a unit identity is empty, non-ASCII, or padded with whitespace.
    InvalidUnitIdentity { value: String },
    /// Fires when a quantum is not strictly positive and finite.
    InvalidQuantum { value_bits: u64 },
    /// Fires when an initial stock value is the projection of more than one quantum count.
    AmbiguousInitialStock {
        compartment: CompartmentId,
        substance: SubstanceId,
        value_bits: u64,
        quantum_bits: u64,
    },
    /// Fires when an initial stock is not an exact whole multiple of its substance quantum.
    MisalignedInitialStock {
        compartment: CompartmentId,
        substance: SubstanceId,
        value_bits: u64,
        quantum_bits: u64,
    },
    /// Fires when a substance total has more whole quanta than binary64 can count exactly.
    UncountableInitialTotal { substance: SubstanceId, total_count: u128, quantum_bits: u64 },
    /// Fires when a unit names an unmodelled substance.
    UnknownUnitSubstance { substance: SubstanceId },
    /// Fires when a substance unit is declared more than once.
    DuplicateUnit { substance: SubstanceId },
    /// Fires when a modelled substance has no unit declaration.
    MissingUnit { substance: SubstanceId },
    /// Fires when canonical bytes cannot represent a field.
    CanonicalEncoding(CanonicalEncodingError),
}

/// The identity-level view of [`ModelArtifactError`]: every identity by its bytes.
#[allow(inconsistent_fields)]
pub enum ArtifactErrorModel {
    UnknownCarrierSubstance { compartment: Seq<u8>, substance: Seq<u8>, carrier: Seq<u8> },
    SelfCarrier { compartment: Seq<u8>, substance: Seq<u8> },
    MissingCarrierRule { compartment: Seq<u8>, substance: Seq<u8>, carrier: Seq<u8> },
    DependentCarrier { compartment: Seq<u8>, substance: Seq<u8>, carrier: Seq<u8> },
    UnknownCarrierBranch { compartment: Seq<u8>, substance: Seq<u8>, carrier: Seq<u8>, branch: Seq<u8> },
    CarrierDestinationMismatch {
        compartment: Seq<u8>,
        substance: Seq<u8>,
        branch: Seq<u8>,
        destination: Seq<u8>,
        carrier_destination: Seq<u8>,
    },
    InitialStocksTopologyMismatch,
    InitialStocksRegistryMismatch,
    MissingProjectionSet,
    ProjectionRuleIrVersionMismatch { projection: Seq<u8> },
    ProjectionNumericalVersionMismatch { projection: Seq<u8> },
    UnknownProjectionFactCompartment { projection: Seq<u8>, compartment: Seq<u8> },
    UnknownProjectionFactSubstance { projection: Seq<u8>, substance: Seq<u8> },
    ForcingHorizonMismatch { forcing: Seq<u8> },
    DuplicateForcing { forcing: Seq<u8> },
    DuplicateTable { table: Seq<u8> },
    TableNumericalVersionMismatch { table: Seq<u8> },
    UnknownRuleCompartment { compartment: Seq<u8> },
    BoundaryAccountRule { account: Seq<u8> },
    UnknownRuleSubstance { substance: Seq<u8> },
    DuplicateRule { compartment: Seq<u8>, substance: Seq<u8> },
    RuleIrVersionMismatch { compartment: Seq<u8>, substance: Seq<u8> },
    RuleNumericalVersionMismatch { compartment: Seq<u8>, substance: Seq<u8> },
    DuplicateParameter { compartment: Seq<u8>, substance: Seq<u8>, parameter: Seq<u8> },
    NonFiniteParameter { compartment: Seq<u8>, substance: Seq<u8>, parameter: Seq<u8>, bits: u64 },
    MissingRuleParameter { compartment: Seq<u8>, substance: Seq<u8>, parameter: Seq<u8> },
    MissingRuleForcing { compartment: Seq<u8>, substance: Seq<u8>, forcing: Seq<u8> },
    MissingRuleTable { compartment: Seq<u8>, substance: Seq<u8>, table: Seq<u8> },
    MissingRuleProjection { compartment: Seq<u8>, substance: Seq<u8>, projection: Seq<u8> },
    RuleProjectionKindMismatch {
        compartment: Seq<u8>,
        substance: Seq<u8>,
        projection: Seq<u8>,
        expected: ProjectionValueKind,
        actual: ProjectionValueKind,
    },
    MissingTransferBranchBinding { compartment: Seq<u8>, substance: Seq<u8>, branch: Seq<u8> },
    UnknownTransferDestination {
        compartment: Seq<u8>,
        substance: Seq<u8>,
        branch: Seq<u8>,
        destination: Seq<u8>,
    },
    UnknownTransferBranchBinding { compartment: Seq<u8>, substance: Seq<u8>, branch: Seq<u8> },
    CyclicExecutionBindings { blocked_compartments: Seq<Seq<u8>> },
    MissingRuleInputBinding { compartment: Seq<u8>, substance: Seq<u8>, input: Seq<u8> },
    RuleInputBindingKindMismatch {
        compartment: Seq<u8>,
        substance: Seq<u8>,
        input: Seq<u8>,
        expected: ExpressionValueKind,
        actual: ExpressionValueKind,
    },
    UnknownRuleInputBinding { compartment: Seq<u8>, substance: Seq<u8>, input: Seq<u8> },
    MissingRuleInputSource {
        compartment: Seq<u8>,
        substance: Seq<u8>,
        input: Seq<u8>,
        source_kind: InputSourceKind,
        source_identity: Seq<u8>,
    },
    RuleInputKindMismatch {
        compartment: Seq<u8>,
        substance: Seq<u8>,
        input: Seq<u8>,
        expected: ExpressionValueKind,
        actual: ExpressionValueKind,
    },
    RuleInputProjectionKindMismatch {
        compartment: Seq<u8>,
        substance: Seq<u8>,
        input: Seq<u8>,
        projection: Seq<u8>,
        expected: ProjectionValueKind,
        actual: ProjectionValueKind,
    },
    InvalidUnitIdentity { value: Seq<char> },
    InvalidQuantum { value_bits: u64 },
    AmbiguousInitialStock { compartment: Seq<u8>, substance: Seq<u8>, value_bits: u64, quantum_bits: u64 },
    MisalignedInitialStock { compartment: Seq<u8>, substance: Seq<u8>, value_bits: u64, quantum_bits: u64 },
    UncountableInitialTotal { substance: Seq<u8>, total_count: u128, quantum_bits: u64 },
    UnknownUnitSubstance { substance: Seq<u8> },
    DuplicateUnit { substance: Seq<u8> },
    MissingUnit { substance: Seq<u8> },
    CanonicalEncoding(CanonicalEncodingError),
}

/// The identities of a list, by their bytes.
pub open spec fn ids_view(ids: Seq<Ident>) -> Seq<Seq<u8>> {
    ids.map_values(|id: Ident| id@)
}

impl View for ModelArtifactError {
    type V = ArtifactErrorModel;

    open spec fn view(&self) -> ArtifactErrorModel {
        match self {
            ModelArtifactError::UnknownCarrierSubstance { compartment, substance, carrier } =>
                ArtifactErrorModel::UnknownCarrierSubstance { compartment: compartment@, substance: substance@, carrier: carrier@ },
            ModelArtifactError::SelfCarrier { compartment, substance } =>
                ArtifactErrorModel::SelfCarrier { compartment: compartment@, substance: substance@ },
            ModelArtifactError::MissingCarrierRule { compartment, substance, carrier } =>
                ArtifactErrorModel::MissingCarrierRule { compartment: compartment@, substance: substance@, carrier: carrier@ },
            ModelArtifactError::DependentCarrier { compartment, substance, carrier } =>
                ArtifactErrorModel::DependentCarrier { compartment: compartment@, substance: substance@, carrier: carrier@ },
            ModelArtifactError::UnknownCarrierBranch { compartment, substance, carrier, branch } =>
                ArtifactErrorModel::UnknownCarrierBranch { compartment: compartment@, substance: substance@, carrier: carrier@, branch: branch@ },
            ModelArtifactError::CarrierDestinationMismatch { compartment, substance, branch, destination, carrier_destination } =>
                ArtifactErrorModel::CarrierDestinationMismatch {
                    compartment: compartment@,
                    substance: substance@,
                    branch: branch@,
                    destination: destination@,
                    carrier_destination: carrier_destination@,
                },
            ModelArtifactError::InitialStocksTopologyMismatch => ArtifactErrorModel::InitialStocksTopologyMismatch,
            ModelArtifactError::InitialStocksRegistryMismatch => ArtifactErrorModel::InitialStocksRegistryMismatch,
            ModelArtifactError::MissingProjectionSet => ArtifactErrorModel::MissingProjectionSet,
            ModelArtifactError::ProjectionRuleIrVersionMismatch { projection } =>
                ArtifactErrorModel::ProjectionRuleIrVersionMismatch { projection: projection@ },
            ModelArtifactError::ProjectionNumericalVersionMismatch { projection } =>
                ArtifactErrorModel::ProjectionNumericalVersionMismatch { projection: projection@ },
            ModelArtifactError::UnknownProjectionFactCompartment { projection, compartment } =>
                ArtifactErrorModel::UnknownProjectionFactCompartment { projection: projection@, compartment: compartment@ },
            ModelArtifactError::UnknownProjectionFactSubstance { projection, substance } =>
                ArtifactErrorModel::UnknownProjectionFactSubstance { projection: projection@, substance: substance@ },
            ModelArtifactError::ForcingHorizonMismatch { forcing } =>
                ArtifactErrorModel::ForcingHorizonMismatch { forcing: forcing@ },
            ModelArtifactError::DuplicateForcing { forcing } => ArtifactErrorModel::DuplicateForcing { forcing: forcing@ },
            ModelArtifactError::DuplicateTable { table } => ArtifactErrorModel::DuplicateTable { table: table@ },
            ModelArtifactError::TableNumericalVersionMismatch { table } =>
                ArtifactErrorModel::TableNumericalVersionMismatch { table: table@ },
            ModelArtifactError::UnknownRuleCompartment { compartment } =>
                ArtifactErrorModel::UnknownRuleCompartment { compartment: compartment@ },
            ModelArtifactError::BoundaryAccountRule { account } =>
                ArtifactErrorModel::BoundaryAccountRule { account: account@ },
            ModelArtifactError::UnknownRuleSubstance { substance } =>
                ArtifactErrorModel::UnknownRuleSubstance { substance: substance@ },
            ModelArtifactError::DuplicateRule { compartment, substance } =>
                ArtifactErrorModel::DuplicateRule { compartment: compartment@, substance: substance@ },
            ModelArtifactError::RuleIrVersionMismatch { compartment, substance } =>
                ArtifactErrorModel::RuleIrVersionMismatch { compartment: compartment@, substance: substance@ },
            ModelArtifactError::RuleNumericalVersionMismatch { compartment, substance } =>
                ArtifactErrorModel::RuleNumericalVersionMismatch { compartment: compartment@, substance: substance@ },
            ModelArtifactError::DuplicateParameter { compartment, substance, parameter } =>
                ArtifactErrorModel::DuplicateParameter { compartment: compartment@, substance: substance@, parameter: parameter@ },
            ModelArtifactError::NonFiniteParameter { compartment, substance, parameter, bits } =>
                ArtifactErrorModel::NonFiniteParameter { compartment: compartment@, substance: substance@, parameter: parameter@, bits: *bits },
            ModelArtifactError::MissingRuleParameter { compartment, substance, parameter } =>
                ArtifactErrorModel::MissingRuleParameter { compartment: compartment@, substance: substance@, parameter: parameter@ },
            ModelArtifactError::MissingRuleForcing { compartment, substance, forcing } =>
                ArtifactErrorModel::MissingRuleForcing { compartment: compartment@, substance: substance@, forcing: forcing@ },
            ModelArtifactError::MissingRuleTable { compartment, substance, table } =>
                ArtifactErrorModel::MissingRuleTable { compartment: compartment@, substance: substance@, table: table@ },
            ModelArtifactError::MissingRuleProjection { compartment, substance, projection } =>
                ArtifactErrorModel::MissingRuleProjection { compartment: compartment@, substance: substance@, projection: projection@ },
            ModelArtifactError::RuleProjectionKindMismatch { compartment, substance, projection, expected, actual } =>
                ArtifactErrorModel::RuleProjectionKindMismatch {
                    compartment: compartment@,
                    substance: substance@,
                    projection: projection@,
                    expected: *expected,
                    actual: *actual,
                },
            ModelArtifactError::MissingTransferBranchBinding { compartment, substance, branch } =>
                ArtifactErrorModel::MissingTransferBranchBinding { compartment: compartment@, substance: substance@, branch: branch@ },
            ModelArtifactError::UnknownTransferDestination { compartment, substance, branch, destination } =>
                ArtifactErrorModel::UnknownTransferDestination {
                    compartment: compartment@,
                    substance: substance@,
                    branch: branch@,
                    destination: destination@,
                },
            ModelArtifactError::UnknownTransferBranchBinding { compartment, substance, branch } =>
                ArtifactErrorModel::UnknownTransferBranchBinding { compartment: compartment@, substance: substance@, branch: branch@ },
            ModelArtifactError::CyclicExecutionBindings { blocked_compartments } =>
                ArtifactErrorModel::CyclicExecutionBindings { blocked_compartments: ids_view(blocked_compartments@) },
            ModelArtifactError::MissingRuleInputBinding { compartment, substance, input } =>
                ArtifactErrorModel::MissingRuleInputBinding { compartment: compartment@, substance: substance@, input: input@ },
            ModelArtifactError::RuleInputBindingKindMismatch { compartment, substance, input, expected, actual } =>
                ArtifactErrorModel::RuleInputBindingKindMismatch {
                    compartment: compartment@,
                    substance: substance@,
                    input: input@,
                    expected: *expected,
                    actual: *actual,
                },
            ModelArtifactError::UnknownRuleInputBinding { compartment, substance, input } =>
                ArtifactErrorModel::UnknownRuleInputBinding { compartment: compartment@, substance: substance@, input: input@ },
            ModelArtifactError::MissingRuleInputSource { compartment, substance, input, source_kind, source_identity } =>
                ArtifactErrorModel::MissingRuleInputSource {
                    compartment: compartment@,
                    substance: substance@,
                    input: input@,
                    source_kind: *source_kind,
                    source_identity: source_identity@,
                },
            ModelArtifactError::RuleInputKindMismatch { compartment, substance, input, expected, actual } =>
                ArtifactErrorModel::RuleInputKindMismatch {
                    compartment: compartment@,
                    substance: substance@,
                    input: input@,
                    expected: *expected,
                    actual: *actual,
                },
            ModelArtifactError::RuleInputProjectionKindMismatch { compartment, substance, input, projection, expected, actual } =>
                ArtifactErrorModel::RuleInputProjectionKindMismatch {
                    compartment: compartment@,
                    substance: substance@,
                    input: input@,
                    projection: projection@,
                    expected: *expected,
                    actual: *actual,
                },
            ModelArtifactError::InvalidUnitIdentity { value } => ArtifactErrorModel::InvalidUnitIdentity { value: value@ },
            ModelArtifactError::InvalidQuantum { value_bits } => ArtifactErrorModel::InvalidQuantum { value_bits: *value_bits },
            ModelArtifactError::AmbiguousInitialStock { compartment, substance, value_bits, quantum_bits } =>
                ArtifactErrorModel::AmbiguousInitialStock {
                    compartment: compartment@,
                    substance: substance@,
                    value_bits: *value_bits,
                    quantum_bits: *quantum_bits,
                },
            ModelArtifactError::MisalignedInitialStock { compartment, substance, value_bits, quantum_bits } =>
                ArtifactErrorModel::MisalignedInitialStock {
                    compartment: compartment@,
                    substance: substance@,
                    value_bits: *value_bits,
                    quantum_bits: *quantum_bits,
                },
            ModelArtifactError::UncountableInitialTotal { substance, total_count, quantum_bits } =>
                ArtifactErrorModel::UncountableInitialTotal {
                    substance: substance@,
                    total_count: *total_count,
                    quantum_bits: *quantum_bits,
                },
            ModelArtifactError::UnknownUnitSubstance { substance } =>
                ArtifactErrorModel::UnknownUnitSubstance { substance: substance@ },
            ModelArtifactError::DuplicateUnit { substance } => ArtifactErrorModel::DuplicateUnit { substance: substance@ },
            ModelArtifactError::MissingUnit { substance } => ArtifactErrorModel::MissingUnit { substance: substance@ },
            ModelArtifactError::CanonicalEncoding(e) => ArtifactErrorModel::CanonicalEncoding(*e),
        }
    }
}

} // verus!
