//! Whether the authoritative facts that projections read name modelled endpoints and
//! substances.

use vstd::prelude::*;
use crate::artifact_error::{ArtifactErrorModel, ModelArtifactError};
use crate::binding_validation::{first_error, lemma_first_error_prefix, lemma_first_error_step};
use crate::identity::Ident;
use crate::projection::{
    AuthoritativeFactSelector, ProjectionSource, ProjectionSpec, ProjectionSpecView,
    RecurrenceInputBinding, RecurrenceInputSource,
};
use crate::reference_validation::outcome_view;
use crate::substance_registry::{lists, SubstanceRegistry};
use crate::topology::{declares, Topology};

verus! {

/// What checking a fact selector of projection `projection` gives: its compartment must be a
/// declared endpoint, then its substance a modelled one.
pub open spec fn selector_outcome(
    projection: Seq<u8>,
    selector: AuthoritativeFactSelector,
    topology: Topology,
    registry: SubstanceRegistry,
) -> Result<(), ArtifactErrorModel> {
    if !declares(topology.endpoints@, selector.spec_compartment()) {
        Err(ArtifactErrorModel::UnknownProjectionFactCompartment { projection, compartment: selector.spec_compartment() })
    } else if !lists(registry.members@, selector.spec_substance()) {
        Err(ArtifactErrorModel::UnknownProjectionFactSubstance { projection, substance: selector.spec_substance() })
    } else {
        Ok(())
    }
}

/// What checking the source of a lag or rolling aggregate gives.
pub open spec fn source_outcome(
    projection: Seq<u8>,
    source: ProjectionSource,
    topology: Topology,
    registry: SubstanceRegistry,
) -> Result<(), ArtifactErrorModel> {
    match source {
        ProjectionSource::AuthoritativeFact(selector) => selector_outcome(projection, selector, topology, registry),
        ProjectionSource::Projection(_) => Ok(()),
    }
}

/// What checking the source of one recurrence input gives.
pub open spec fn recurrence_input_check(
    projection: Seq<u8>,
    topology: Topology,
    registry: SubstanceRegistry,
) -> spec_fn(RecurrenceInputBinding) -> Result<(), ArtifactErrorModel> {
    |b: RecurrenceInputBinding|
        match b.input_source {
            RecurrenceInputSource::AuthoritativeFact(selector) => selector_outcome(projection, selector, topology, registry),
            RecurrenceInputSource::PreviousState { .. } => Ok(()),
        }
}

/// What checking every fact selector of a projection gives, recurrence inputs in order.
pub open spec fn selectors_outcome(specification: ProjectionSpec, topology: Topology, registry: SubstanceRegistry) -> Result<
    (),
    ArtifactErrorModel,
> {
    match specification.view {
        ProjectionSpecView::BoundedLag { source, .. } => source_outcome(specification.id@, source, topology, registry),
        ProjectionSpecView::OrderedRollingAggregate { source, .. } => source_outcome(
            specification.id@,
            source,
            topology,
            registry,
        ),
        ProjectionSpecView::FiniteRecurrence { inputs, .. } => first_error(
            inputs@,
            recurrence_input_check(specification.id@, topology, registry),
        ),
    }
}

/// Checks that a fact selector names a declared endpoint and a modelled substance.
pub fn validate_projection_fact_selector(
    projection: &Ident,
    selector: &AuthoritativeFactSelector,
    topology: &Topology,
    registry: &SubstanceRegistry,
) -> (r: Result<(), ModelArtifactError>)
    ensures
        outcome_view(r) == selector_outcome(projection@, *selector, *topology, *registry),
{
    if topology.endpoint(selector.compartment()).is_none() {
        return Err(ModelArtifactError::UnknownProjectionFactCompartment {
            projection: projection.clone(),
            compartment: selector.compartment().clone(),
        });
    }
    if !registry.contains(selector.substance()) {
        return Err(ModelArtifactError::UnknownProjectionFactSubstance {
            projection: projection.clone(),
            substance: selector.substance().clone(),
        });
    }
    Ok(())
}

/// Checks the fact selector of a lag or rolling-aggregate source, if it reads facts.
pub fn validate_projection_source(
    projection: &Ident,
    source: &ProjectionSource,
    topology: &Topology,
    registry: &SubstanceRegistry,
) -> (r: Result<(), ModelArtifactError>)
    ensures
        outcome_view(r) == source_outcome(projection@, *source, *topology, *registry),
{
    match source {
        ProjectionSource::AuthoritativeFact(selector) => validate_projection_fact_selector(projection, selector, topology, registry),
        ProjectionSource::Projection(_) => Ok(()),
    }
}

/// Checks every fact selector of a projection specification; recurrence inputs are checked in
/// order and the first failure is reported.
#[verifier::loop_isolation(false)]
pub fn validate_projection_fact_selectors(
    specification: &ProjectionSpec,
    topology: &Topology,
    registry: &SubstanceRegistry,
) -> (r: Result<(), ModelArtifactError>)
    ensures
        outcome_view(r) == selectors_outcome(*specification, *topology, *registry),
{
    match &specification.view {
        ProjectionSpecView::BoundedLag { source, .. } => validate_projection_source(&specification.id, source, topology, registry),
        ProjectionSpecView::OrderedRollingAggregate { source, .. } => validate_projection_source(
            &specification.id,
            source,
            topology,
            registry,
        ),
        ProjectionSpecView::FiniteRecurrence { inputs, .. } => {
            let ghost all = inputs@;
            let ghost check = recurrence_input_check(specification.id@, *topology, *registry);
            let mut i: usize = 0;
            proof {
                assert(all.take(0) =~= Seq::<RecurrenceInputBinding>::empty());
            }
            while i < inputs.len()
                invariant
                    0 <= i <= all.len(),
                    inputs@ == all,
                    check == recurrence_input_check(specification.id@, *topology, *registry),
                    first_error(all.take(i as int), check) == Ok::<(), ArtifactErrorModel>(()),
                decreases all.len() - i,
            {
                proof {
                    lemma_first_error_step(all, check, i as int);
                }
                match &inputs[i].input_source {
                    RecurrenceInputSource::AuthoritativeFact(selector) => {
                        match validate_projection_fact_selector(&specification.id, selector, topology, registry) {
                            Err(e) => {
                                proof {
                                    lemma_first_error_prefix(all, check, i + 1);
                                }
                                return Err(e);
                            },
                            Ok(()) => {},
                        }
                    },
                    RecurrenceInputSource::PreviousState { .. } => {},
                }
                i = i + 1;
            }
            proof {
                assert(all.take(all.len() as int) =~= all);
            }
            Ok(())
        },
    }
}

} // verus!
