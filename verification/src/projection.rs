//! Projection specifications: bounded lags, rolling aggregates and finite recurrences over
//! authoritative transfer facts, with their initial projector states.

use vstd::prelude::*;
use crate::identity::{CompartmentId, Ident, ProjectionId, SubstanceId};
use crate::rule_expression::RuleExpr;
use crate::rule_reference::{InputRef, ParameterRef, ProjectionRef, ProjectionValueKind};
use crate::versions::{NumericalSemanticsVersion, RuleIrVersion};

verus! {

/// Selects an authoritative transfer fact of one compartment and substance.
#[derive(Debug, PartialEq, Eq)]
#[allow(inconsistent_fields)]
pub enum AuthoritativeFactSelector {
    IncomingTransferAmount { compartment: CompartmentId, substance: SubstanceId },
    OutgoingTransferAmount { compartment: CompartmentId, substance: SubstanceId },
}

impl AuthoritativeFactSelector {
    pub open spec fn spec_compartment(&self) -> Seq<u8> {
        match self {
            AuthoritativeFactSelector::IncomingTransferAmount { compartment, .. } => compartment@,
            AuthoritativeFactSelector::OutgoingTransferAmount { compartment, .. } => compartment@,
        }
    }

    pub open spec fn spec_substance(&self) -> Seq<u8> {
        match self {
            AuthoritativeFactSelector::IncomingTransferAmount { substance, .. } => substance@,
            AuthoritativeFactSelector::OutgoingTransferAmount { substance, .. } => substance@,
        }
    }

    pub fn compartment(&self) -> (r: &Ident)
        ensures
            r@ == self.spec_compartment(),
    {
        match self {
            AuthoritativeFactSelector::IncomingTransferAmount { compartment, .. } => compartment,
            AuthoritativeFactSelector::OutgoingTransferAmount { compartment, .. } => compartment,
        }
    }

    pub fn substance(&self) -> (r: &Ident)
        ensures
            r@ == self.spec_substance(),
    {
        match self {
            AuthoritativeFactSelector::IncomingTransferAmount { substance, .. } => substance,
            AuthoritativeFactSelector::OutgoingTransferAmount { substance, .. } => substance,
        }
    }
}

/// The series a lag or rolling aggregate reads.
#[derive(Debug, PartialEq, Eq)]
pub enum ProjectionSource {
    AuthoritativeFact(AuthoritativeFactSelector),
    Projection(ProjectionRef),
}

/// The aggregate of a rolling window.
#[derive(Clone, Copy, Debug, PartialEq, Eq, Structural)]
pub enum RollingAggregate {
    SumOldestToNewest,
}

/// The source of one recurrence input.
#[derive(Debug, PartialEq, Eq)]
pub enum RecurrenceInputSource {
    AuthoritativeFact(AuthoritativeFactSelector),
    PreviousState { index: usize, value_kind: ProjectionValueKind },
}

/// One recurrence input leaf and its source.
#[derive(Debug, PartialEq, Eq)]
pub struct RecurrenceInputBinding {
    pub reference: InputRef,
    pub input_source: RecurrenceInputSource,
}

/// The shape of a projection.
#[derive(Debug, PartialEq, Eq)]
pub enum ProjectionSpecView {
    BoundedLag { source: ProjectionSource, steps: usize },
    OrderedRollingAggregate { source: ProjectionSource, window: usize, aggregate: RollingAggregate },
    FiniteRecurrence {
        state_kinds: Vec<ProjectionValueKind>,
        inputs: Vec<RecurrenceInputBinding>,
        parameters: Vec<ParameterRef>,
        updates: Vec<RuleExpr>,
        output_index: usize,
    },
}

/// A projection specification.
#[derive(Debug, PartialEq, Eq)]
pub struct ProjectionSpec {
    pub id: ProjectionId,
    pub value_kind: ProjectionValueKind,
    pub rule_ir_version: RuleIrVersion,
    pub numerical_semantics_version: NumericalSemanticsVersion,
    pub view: ProjectionSpecView,
}

/// One projector state value; amounts and scalars are binary64 bit patterns.
#[derive(Clone, Copy, Debug, PartialEq, Eq, Structural)]
pub enum ProjectionValue {
    Extensive(u64),
    Scalar(u64),
    Truth(bool),
}

/// The initial state of one projector.
#[derive(Debug, PartialEq, Eq)]
pub struct InitialProjectorState {
    pub projection: ProjectionId,
    pub values: Vec<ProjectionValue>,
}

/// The projections of a model and their initial states.
#[derive(Debug, PartialEq, Eq)]
pub struct ProjectionSet {
    pub specifications: Vec<ProjectionSpec>,
    pub initial_states: Vec<InitialProjectorState>,
}

impl ProjectionSet {
    /// The position of the specification named `id`, if any.
    pub fn find(&self, id: &Ident) -> (r: Option<usize>)
        ensures
            match r {
                Some(i) => i < self.specifications@.len() && self.specifications@[i as int].id@ == id@
                    && forall|j: int| 0 <= j < i ==> (#[trigger] self.specifications@[j]).id@ != id@,
                None => forall|j: int|
                    0 <= j < self.specifications@.len() ==> (#[trigger] self.specifications@[j]).id@
                        != id@,
            },
    {
        let mut i: usize = 0;
        while i < self.specifications.len()
            invariant
                0 <= i <= self.specifications@.len(),
                forall|j: int| 0 <= j < i ==> (#[trigger] self.specifications@[j]).id@ != id@,
            decreases self.specifications@.len() - i,
        {
            if self.specifications[i].id.same(id) {
                return Some(i);
            }
            i = i + 1;
        }
        None
    }
}

} // verus!
