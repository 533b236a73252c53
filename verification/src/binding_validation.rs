//! Whether the bindings of a model fit its rules: every transfer branch bound to a declared
//! destination, every generic input bound to an existing source of its kind, no binding for
//! what no rule has, and carrier-proportional partitions that follow their carriers.

use vstd::prelude::*;
use crate::artifact_error::{ArtifactErrorModel, InputSourceKind, ModelArtifactError};
use crate::canonical_map::{has_key, sorted_keys, CanonicalMap};
use crate::execution_bindings::{
    binds_input, binds_transfer, bound_destination, bound_input, distinct_input_bindings,
    distinct_transfer_bindings, input_matches, transfer_matches, ExecutionBindings, RuleInputBinding,
    RuleInputSource, TransferBranchBinding,
};
use crate::forcing::ForcingSeries;
use crate::graph_validation::{
    bindings_within, cyclic_report, sustaining_ids, validate_execution_graph_is_acyclic,
};
use crate::identity::{CanonicalKey, Ident, RuleCoordinate};
use crate::interpolation_table::InterpolationTable;
use crate::model_artifact::RuleDefinition;
use crate::partition_expression::PartitionView;
use crate::projection::{ProjectionSet, ProjectionSpec};
use crate::reference_validation::{first_projection, lemma_first_projection, lemma_has_id, outcome_view};
use crate::rule_reference::InputRef;
use crate::rule_references::{
    collect_rule_inputs, first_failing, id_keys, lemma_first_failing_found, lemma_first_failing_none,
    partition_branch_set, partition_branches, rule_inputs,
};
use crate::substance_registry::SubstanceRegistry;
use crate::topology::{declares, Topology};

verus! {

// ---------------------------------------------------------------------------------------------
// Checks in sequence
// ---------------------------------------------------------------------------------------------

/// The first error that checking the items of `s` in order gives, if any.
pub open spec fn first_error<T>(s: Seq<T>, check: spec_fn(T) -> Result<(), ArtifactErrorModel>) -> Result<
    (),
    ArtifactErrorModel,
>
    decreases s.len(),
{
    if s.len() == 0 {
        Ok(())
    } else {
        match first_error(s.drop_last(), check) {
            Ok(()) => check(s.last()),
            Err(e) => Err(e),
        }
    }
}

/// The outcome of `a`, then, if it passed, that of `b`.
pub open spec fn and_then(a: Result<(), ArtifactErrorModel>, b: Result<(), ArtifactErrorModel>) -> Result<
    (),
    ArtifactErrorModel,
> {
    match a {
        Ok(()) => b,
        Err(e) => Err(e),
    }
}

/// After a passing prefix, one more item is checked on its own.
pub proof fn lemma_first_error_step<T>(s: Seq<T>, check: spec_fn(T) -> Result<(), ArtifactErrorModel>, i: int)
    requires
        0 <= i < s.len(),
        first_error(s.take(i), check) is Ok,
    ensures
        first_error(s.take(i + 1), check) == check(s[i]),
{
    assert(s.take(i + 1).drop_last() =~= s.take(i));
    assert(s.take(i + 1).last() == s[i]);
}

/// An error in a prefix is the error of the whole sequence.
pub proof fn lemma_first_error_prefix<T>(s: Seq<T>, check: spec_fn(T) -> Result<(), ArtifactErrorModel>, i: int)
    requires
        0 <= i <= s.len(),
        first_error(s.take(i), check) is Err,
    ensures
        first_error(s, check) == first_error(s.take(i), check),
    decreases s.len(),
{
    if i == s.len() {
        assert(s.take(i) =~= s);
    } else {
        assert(s.drop_last().take(i) =~= s.take(i));
        lemma_first_error_prefix(s.drop_last(), check, i);
    }
}

// ---------------------------------------------------------------------------------------------
// Input sources
// ---------------------------------------------------------------------------------------------

/// What checking the bound source of a generic input gives: the source must exist (a
/// projection with the stated kind), then its value kind must be the input's.
pub open spec fn input_source_outcome(
    compartment: Seq<u8>,
    substance: Seq<u8>,
    reference: InputRef,
    source: RuleInputSource,
    forcing_ids: Set<Seq<u8>>,
    table_ids: Set<Seq<u8>>,
    specs: Seq<ProjectionSpec>,
) -> Result<(), ArtifactErrorModel> {
    let input = reference.id@;
    let found = match source {
        RuleInputSource::Forcing(f) => if forcing_ids.contains(f.id@) {
            Ok(())
        } else {
            Err(ArtifactErrorModel::MissingRuleInputSource {
                compartment,
                substance,
                input,
                source_kind: InputSourceKind::Forcing,
                source_identity: f.id@,
            })
        },
        RuleInputSource::InterpolationTable(t) => if table_ids.contains(t.id@) {
            Ok(())
        } else {
            Err(ArtifactErrorModel::MissingRuleInputSource {
                compartment,
                substance,
                input,
                source_kind: InputSourceKind::InterpolationTable,
                source_identity: t.id@,
            })
        },
        RuleInputSource::Projection(p) => match first_projection(specs, p.id@) {
            None => Err(ArtifactErrorModel::MissingRuleInputSource {
                compartment,
                substance,
                input,
                source_kind: InputSourceKind::Projection,
                source_identity: p.id@,
            }),
            Some(i) => if specs[i].value_kind != p.value_kind {
                Err(ArtifactErrorModel::RuleInputProjectionKindMismatch {
                    compartment,
                    substance,
                    input,
                    projection: p.id@,
                    expected: specs[i].value_kind,
                    actual: p.value_kind,
                })
            } else {
                Ok(())
            },
        },
    };
    and_then(
        found,
        if reference.value_kind != source.spec_value_kind() {
            Err(ArtifactErrorModel::RuleInputKindMismatch {
                compartment,
                substance,
                input,
                expected: reference.value_kind,
                actual: source.spec_value_kind(),
            })
        } else {
            Ok(())
        },
    )
}

/// Checks that the source bound to a generic input exists in the artifact's catalogues (a
/// projection with the value kind stated), and that it provides the input's value kind.
pub fn validate_input_source(
    compartment: &Ident,
    substance: &Ident,
    reference: &InputRef,
    source: &RuleInputSource,
    forcings: &CanonicalMap<Ident, ForcingSeries>,
    tables: &CanonicalMap<Ident, InterpolationTable>,
    projections: &ProjectionSet,
) -> (r: Result<(), ModelArtifactError>)
    ensures
        outcome_view(r) == input_source_outcome(
            compartment@,
            substance@,
            *reference,
            *source,
            id_keys(forcings@),
            id_keys(tables@),
            projections.specifications@,
        ),
{
    match source {
        RuleInputSource::Forcing(forcing) => {
            proof {
                lemma_has_id(forcings@, forcing.id@);
            }
            if !forcings.contains_key(&forcing.id) {
                return Err(ModelArtifactError::MissingRuleInputSource {
                    compartment: compartment.clone(),
                    substance: substance.clone(),
                    input: reference.id.clone(),
                    source_kind: InputSourceKind::Forcing,
                    source_identity: forcing.id.clone(),
                });
            }
        },
        RuleInputSource::InterpolationTable(table) => {
            proof {
                lemma_has_id(tables@, table.id@);
            }
            if !tables.contains_key(&table.id) {
                return Err(ModelArtifactError::MissingRuleInputSource {
                    compartment: compartment.clone(),
                    substance: substance.clone(),
                    input: reference.id.clone(),
                    source_kind: InputSourceKind::InterpolationTable,
                    source_identity: table.id.clone(),
                });
            }
        },
        RuleInputSource::Projection(projection) => {
            match projections.find(&projection.id) {
                None => {
                    return Err(ModelArtifactError::MissingRuleInputSource {
                        compartment: compartment.clone(),
                        substance: substance.clone(),
                        input: reference.id.clone(),
                        source_kind: InputSourceKind::Projection,
                        source_identity: projection.id.clone(),
                    });
                },
                Some(i) => {
                    proof {
                        lemma_first_projection(projections.specifications@, projection.id@, i as int);
                    }
                    let expected = projections.specifications[i].value_kind;
                    if expected != projection.value_kind {
                        return Err(ModelArtifactError::RuleInputProjectionKindMismatch {
                            compartment: compartment.clone(),
                            substance: substance.clone(),
                            input: reference.id.clone(),
                            projection: projection.id.clone(),
                            expected,
                            actual: projection.value_kind,
                        });
                    }
                },
            }
        },
    }
    let provided = source.value_kind();
    if reference.value_kind != provided {
        return Err(ModelArtifactError::RuleInputKindMismatch {
            compartment: compartment.clone(),
            substance: substance.clone(),
            input: reference.id.clone(),
            expected: reference.value_kind,
            actual: provided,
        });
    }
    Ok(())
}

// ---------------------------------------------------------------------------------------------
// Execution bindings
// ---------------------------------------------------------------------------------------------

/// A distinct binding that matches a coordinate is the one bound there.
pub proof fn lemma_bound_destination(bs: Seq<TransferBranchBinding>, i: int, c: Seq<u8>, s: Seq<u8>, branch: Seq<u8>)
    requires
        distinct_transfer_bindings(bs),
        0 <= i < bs.len(),
        transfer_matches(bs[i], c, s, branch),
    ensures
        bound_destination(bs, c, s, branch) == bs[i].destination@,
{
    let j = choose|j: int| 0 <= j < bs.len() && transfer_matches(#[trigger] bs[j], c, s, branch);
    if j != i {
        assert(!transfer_matches(bs[i], bs[j].compartment@, bs[j].substance@, bs[j].branch@));
    }
}

/// A distinct input binding that matches a coordinate is the one bound there.
pub proof fn lemma_bound_input(bs: Seq<RuleInputBinding>, i: int, c: Seq<u8>, s: Seq<u8>, input: Seq<u8>)
    requires
        distinct_input_bindings(bs),
        0 <= i < bs.len(),
        input_matches(bs[i], c, s, input),
    ensures
        bound_input(bs, c, s, input) == bs[i],
{
    let j = choose|j: int| 0 <= j < bs.len() && input_matches(#[trigger] bs[j], c, s, input);
    if j != i {
        assert(!input_matches(bs[i], bs[j].compartment@, bs[j].substance@, bs[j].reference.id@));
    }
}

/// Whether a transfer branch of the rule at (`c`, `s`) is unbound or bound to an undeclared
/// destination.
pub open spec fn branch_fails(bindings: ExecutionBindings, topology: Topology, c: Seq<u8>, s: Seq<u8>) -> spec_fn(Seq<u8>) -> bool {
    |b: Seq<u8>|
        !binds_transfer(bindings.transfer_bindings@, c, s, b) || !declares(
            topology.endpoints@,
            bound_destination(bindings.transfer_bindings@, c, s, b),
        )
}

/// The error a failing transfer branch is reported with.
pub open spec fn branch_error(bindings: ExecutionBindings, c: Seq<u8>, s: Seq<u8>, b: Seq<u8>) -> ArtifactErrorModel {
    if !binds_transfer(bindings.transfer_bindings@, c, s, b) {
        ArtifactErrorModel::MissingTransferBranchBinding { compartment: c, substance: s, branch: b }
    } else {
        ArtifactErrorModel::UnknownTransferDestination {
            compartment: c,
            substance: s,
            branch: b,
            destination: bound_destination(bindings.transfer_bindings@, c, s, b),
        }
    }
}

/// What checking the transfer branches of a rule gives: the least failing branch.
pub open spec fn branch_outcome(
    bindings: ExecutionBindings,
    topology: Topology,
    c: Seq<u8>,
    s: Seq<u8>,
    view: PartitionView,
) -> Result<(), ArtifactErrorModel> {
    match first_failing(partition_branch_set(view), branch_fails(bindings, topology, c, s)) {
        Some(b) => Err(branch_error(bindings, c, s, b)),
        None => Ok(()),
    }
}

/// Every transfer branch of a partition is bound to a declared destination.
pub open spec fn branches_pass(bindings: ExecutionBindings, topology: Topology, c: Seq<u8>, s: Seq<u8>, view: PartitionView) -> bool {
    forall|b: Seq<u8>| #[trigger] partition_branch_set(view).contains(b) ==> !branch_fails(bindings, topology, c, s)(b)
}

/// What checking one generic input of the rule at (`c`, `s`) gives: it must be bound, with the
/// value kind it declares, to an existing source of that kind.
pub open spec fn input_check(
    bindings: ExecutionBindings,
    c: Seq<u8>,
    s: Seq<u8>,
    forcing_ids: Set<Seq<u8>>,
    table_ids: Set<Seq<u8>>,
    specs: Seq<ProjectionSpec>,
) -> spec_fn(InputRef) -> Result<(), ArtifactErrorModel> {
    |r: InputRef|
        if !binds_input(bindings.input_bindings@, c, s, r.id@) {
            Err(ArtifactErrorModel::MissingRuleInputBinding { compartment: c, substance: s, input: r.id@ })
        } else if bound_input(bindings.input_bindings@, c, s, r.id@).reference.value_kind != r.value_kind {
            Err(ArtifactErrorModel::RuleInputBindingKindMismatch {
                compartment: c,
                substance: s,
                input: r.id@,
                expected: r.value_kind,
                actual: bound_input(bindings.input_bindings@, c, s, r.id@).reference.value_kind,
            })
        } else {
            input_source_outcome(
                c,
                s,
                r,
                bound_input(bindings.input_bindings@, c, s, r.id@).source,
                forcing_ids,
                table_ids,
                specs,
            )
        }
}

/// What checking one rule's bindings gives: its transfer branches, then its generic inputs in
/// order.
pub open spec fn rule_binding_check(
    bindings: ExecutionBindings,
    topology: Topology,
    forcing_ids: Set<Seq<u8>>,
    table_ids: Set<Seq<u8>>,
    specs: Seq<ProjectionSpec>,
) -> spec_fn((RuleCoordinate, RuleDefinition)) -> Result<(), ArtifactErrorModel> {
    |e: (RuleCoordinate, RuleDefinition)|
        and_then(
            branch_outcome(bindings, topology, e.0.compartment@, e.0.substance@, e.1.spec_disposition().view),
            first_error(
                rule_inputs(e.1.spec_expression().node, e.1.spec_disposition().view),
                input_check(bindings, e.0.compartment@, e.0.substance@, forcing_ids, table_ids, specs),
            ),
        )
}

/// The position of the rule at (`c`, `s`), if any.
pub open spec fn entry_at(rules: Seq<(RuleCoordinate, RuleDefinition)>, c: Seq<u8>, s: Seq<u8>) -> Option<int> {
    if exists|i: int| 0 <= i < rules.len() && #[trigger] rules[i].0.key() == seq![c, s] {
        Some(choose|i: int| 0 <= i < rules.len() && #[trigger] rules[i].0.key() == seq![c, s])
    } else {
        None
    }
}

/// In a canonical map the rule at a coordinate is the one whose key it is.
pub proof fn lemma_entry_at(rules: Seq<(RuleCoordinate, RuleDefinition)>, i: int, c: Seq<u8>, s: Seq<u8>)
    requires
        sorted_keys(rules),
        0 <= i < rules.len(),
        rules[i].0.key() == seq![c, s],
    ensures
        entry_at(rules, c, s) == Some(i),
{
    let j = choose|j: int| 0 <= j < rules.len() && #[trigger] rules[j].0.key() == seq![c, s];
    if j != i {
        crate::canonical_map::lemma_sorted_keys_distinct(rules, i, j);
    }
}

/// The key of a rule coordinate is its two identities.
pub proof fn lemma_coordinate_key(k: RuleCoordinate, c: Seq<u8>, s: Seq<u8>)
    ensures
        (k.key() == seq![c, s]) == (k.compartment@ == c && k.substance@ == s),
{
    if k.key() == seq![c, s] {
        assert(k.key()[0] == seq![c, s][0]);
        assert(k.key()[1] == seq![c, s][1]);
    }
}

/// A transfer binding must name a branch of the rule at its coordinate.
pub open spec fn transfer_known(rules: Seq<(RuleCoordinate, RuleDefinition)>) -> spec_fn(TransferBranchBinding) -> Result<
    (),
    ArtifactErrorModel,
> {
    |b: TransferBranchBinding|
        if (match entry_at(rules, b.compartment@, b.substance@) {
            Some(i) => partition_branch_set(rules[i].1.spec_disposition().view).contains(b.branch@),
            None => false,
        }) {
            Ok(())
        } else {
            Err(ArtifactErrorModel::UnknownTransferBranchBinding {
                compartment: b.compartment@,
                substance: b.substance@,
                branch: b.branch@,
            })
        }
}

/// Whether one of `inputs` has identity `id`.
pub open spec fn has_input(inputs: Seq<InputRef>, id: Seq<u8>) -> bool {
    exists|k: int| 0 <= k < inputs.len() && (#[trigger] inputs[k]).id@ == id
}

/// An input binding must name a generic input of the rule at its coordinate.
pub open spec fn input_known(rules: Seq<(RuleCoordinate, RuleDefinition)>) -> spec_fn(RuleInputBinding) -> Result<
    (),
    ArtifactErrorModel,
> {
    |b: RuleInputBinding|
        if (match entry_at(rules, b.compartment@, b.substance@) {
            Some(i) => has_input(
                rule_inputs(rules[i].1.spec_expression().node, rules[i].1.spec_disposition().view),
                b.reference.id@,
            ),
            None => false,
        }) {
            Ok(())
        } else {
            Err(ArtifactErrorModel::UnknownRuleInputBinding {
                compartment: b.compartment@,
                substance: b.substance@,
                input: b.reference.id@,
            })
        }
}

/// What checking bindings against rules gives, before the execution graph is checked: every
/// rule in canonical order, then every transfer binding, then every input binding, in order.
pub open spec fn binding_stages_outcome(
    rules: Seq<(RuleCoordinate, RuleDefinition)>,
    bindings: ExecutionBindings,
    topology: Topology,
    forcing_ids: Set<Seq<u8>>,
    table_ids: Set<Seq<u8>>,
    specs: Seq<ProjectionSpec>,
) -> Result<(), ArtifactErrorModel> {
    and_then(
        first_error(rules, rule_binding_check(bindings, topology, forcing_ids, table_ids, specs)),
        and_then(
            first_error(bindings.transfer_bindings@, transfer_known(rules)),
            first_error(bindings.input_bindings@, input_known(rules)),
        ),
    )
}

/// Checks that every transfer branch of a rule is bound to a declared destination, least
/// branch first.
fn check_rule_branches(
    compartment: &Ident,
    substance: &Ident,
    rule: &RuleDefinition,
    bindings: &ExecutionBindings,
    topology: &Topology,
) -> (r: Result<(), ModelArtifactError>)
    requires
        bindings.wf(),
    ensures
        outcome_view(r) == branch_outcome(*bindings, *topology, compartment@, substance@, rule.spec_disposition().view),
        r is Ok ==> branches_pass(*bindings, *topology, compartment@, substance@, rule.spec_disposition().view),
{
    let branches = partition_branches(rule.disposition());
    let entries = branches.entries();
    let ghost m = branches@;
    let ghost fails = branch_fails(*bindings, *topology, compartment@, substance@);
    let mut i: usize = 0;
    while i < entries.len()
        invariant
            0 <= i <= m.len(),
            entries@ == m,
            sorted_keys(m),
            id_keys(m) == partition_branch_set(rule.spec_disposition().view),
            bindings.wf(),
            fails == branch_fails(*bindings, *topology, compartment@, substance@),
            forall|j: int| 0 <= j < i ==> !fails(#[trigger] m[j].0@),
        decreases m.len() - i,
    {
        let branch = &entries[i].0;
        match bindings.destination(compartment, substance, branch) {
            None => {
                proof {
                    assert(fails(branch@));
                    lemma_first_failing_found(m, fails, i as int);
                }
                return Err(ModelArtifactError::MissingTransferBranchBinding {
                    compartment: compartment.clone(),
                    substance: substance.clone(),
                    branch: branch.clone(),
                });
            },
            Some(destination) => {
                proof {
                    let k = choose|k: int|
                        0 <= k < bindings.transfer_bindings@.len() && transfer_matches(
                            #[trigger] bindings.transfer_bindings@[k],
                            compartment@,
                            substance@,
                            branch@,
                        ) && bindings.transfer_bindings@[k].destination == *destination;
                    lemma_bound_destination(bindings.transfer_bindings@, k, compartment@, substance@, branch@);
                }
                match topology.endpoint(destination) {
                    None => {
                        proof {
                            assert(fails(branch@));
                            lemma_first_failing_found(m, fails, i as int);
                        }
                        return Err(ModelArtifactError::UnknownTransferDestination {
                            compartment: compartment.clone(),
                            substance: substance.clone(),
                            branch: branch.clone(),
                            destination: destination.clone(),
                        });
                    },
                    Some(_) => {},
                }
            },
        }
        i = i + 1;
    }
    proof {
        lemma_first_failing_none(m, fails);
        assert forall|b: Seq<u8>| #[trigger] partition_branch_set(rule.spec_disposition().view).contains(b) implies !fails(b) by {
            assert(id_keys(m).contains(b));
            let j = choose|j: int| 0 <= j < m.len() && (#[trigger] m[j]).0@ == b;
        }
    }
    Ok(())
}

/// Checks every generic input of a rule, in order: it must be bound, with the value kind it
/// declares, to an existing source of that kind.
fn check_rule_inputs(
    compartment: &Ident,
    substance: &Ident,
    rule: &RuleDefinition,
    bindings: &ExecutionBindings,
    forcings: &CanonicalMap<Ident, ForcingSeries>,
    tables: &CanonicalMap<Ident, InterpolationTable>,
    projections: &ProjectionSet,
) -> (r: Result<(), ModelArtifactError>)
    requires
        bindings.wf(),
    ensures
        outcome_view(r) == first_error(
            rule_inputs(rule.spec_expression().node, rule.spec_disposition().view),
            input_check(
                *bindings,
                compartment@,
                substance@,
                id_keys(forcings@),
                id_keys(tables@),
                projections.specifications@,
            ),
        ),
{
    let mut inputs: Vec<InputRef> = Vec::new();
    collect_rule_inputs(&rule.expression().node, rule.disposition(), &mut inputs);
    let ghost all = inputs@;
    let ghost check = input_check(
        *bindings,
        compartment@,
        substance@,
        id_keys(forcings@),
        id_keys(tables@),
        projections.specifications@,
    );
    proof {
        assert(all =~= rule_inputs(rule.spec_expression().node, rule.spec_disposition().view));
        assert(all.take(0) =~= Seq::<InputRef>::empty());
    }
    let mut i: usize = 0;
    while i < inputs.len()
        invariant
            0 <= i <= all.len(),
            inputs@ == all,
            all == rule_inputs(rule.spec_expression().node, rule.spec_disposition().view),
            bindings.wf(),
            check == input_check(
                *bindings,
                compartment@,
                substance@,
                id_keys(forcings@),
                id_keys(tables@),
                projections.specifications@,
            ),
            first_error(all.take(i as int), check) == Ok::<(), ArtifactErrorModel>(()),
        decreases all.len() - i,
    {
        let reference = &inputs[i];
        proof {
            lemma_first_error_step(all, check, i as int);
        }
        match bindings.input_binding(compartment, substance, &reference.id) {
            None => {
                proof {
                    lemma_first_error_prefix(all, check, i + 1);
                }
                return Err(ModelArtifactError::MissingRuleInputBinding {
                    compartment: compartment.clone(),
                    substance: substance.clone(),
                    input: reference.id.clone(),
                });
            },
            Some(binding) => {
                proof {
                    let k = choose|k: int|
                        0 <= k < bindings.input_bindings@.len() && input_matches(
                            #[trigger] bindings.input_bindings@[k],
                            compartment@,
                            substance@,
                            reference.id@,
                        ) && bindings.input_bindings@[k] == *binding;
                    lemma_bound_input(bindings.input_bindings@, k, compartment@, substance@, reference.id@);
                }
                if binding.reference.value_kind != reference.value_kind {
                    proof {
                        lemma_first_error_prefix(all, check, i + 1);
                    }
                    return Err(ModelArtifactError::RuleInputBindingKindMismatch {
                        compartment: compartment.clone(),
                        substance: substance.clone(),
                        input: reference.id.clone(),
                        expected: reference.value_kind,
                        actual: binding.reference.value_kind,
                    });
                }
                match validate_input_source(compartment, substance, reference, &binding.source, forcings, tables, projections) {
                    Err(e) => {
                        proof {
                            lemma_first_error_prefix(all, check, i + 1);
                        }
                        return Err(e);
                    },
                    Ok(()) => {},
                }
            },
        }
        i = i + 1;
    }
    proof {
        assert(all.take(all.len() as int) =~= all);
    }
    Ok(())
}

/// The position of the rule at a coordinate in a canonical rule map.
pub(crate) fn rule_position(rules: &CanonicalMap<RuleCoordinate, RuleDefinition>, compartment: &Ident, substance: &Ident) -> (r: Option<usize>)
    requires
        rules.wf(),
    ensures
        match r {
            Some(i) => i < rules@.len() && entry_at(rules@, compartment@, substance@) == Some(i as int)
                && rules@[i as int].0.compartment@ == compartment@ && rules@[i as int].0.substance@ == substance@,
            None => entry_at(rules@, compartment@, substance@) is None,
        },
{
    let coordinate = RuleCoordinate { compartment: compartment.clone(), substance: substance.clone() };
    match rules.position(&coordinate) {
        Some(i) => {
            proof {
                lemma_coordinate_key(rules@[i as int].0, compartment@, substance@);
                lemma_entry_at(rules@, i as int, compartment@, substance@);
            }
            Some(i)
        },
        None => {
            proof {
                if exists|i: int| 0 <= i < rules@.len() && #[trigger] rules@[i].0.key() == seq![compartment@, substance@] {
                    let i = choose|i: int| 0 <= i < rules@.len() && #[trigger] rules@[i].0.key() == seq![compartment@, substance@];
                    assert(has_key(rules@, coordinate.key()));
                }
            }
            None
        },
    }
}

/// Checks the bindings of a model against its rules, then its execution graph.
///
/// Every rule is checked in canonical order (its transfer branches, least first, then its
/// generic inputs in order); then every transfer binding must name a branch of its rule, and
/// every input binding an input of its rule, each list in order; the first failure is
/// reported. Then the execution graph must order (see
/// [`validate_execution_graph_is_acyclic`]).
#[verifier::loop_isolation(false)]
pub fn validate_execution_bindings(
    bindings: &ExecutionBindings,
    rules: &CanonicalMap<RuleCoordinate, RuleDefinition>,
    topology: &Topology,
    forcings: &CanonicalMap<Ident, ForcingSeries>,
    tables: &CanonicalMap<Ident, InterpolationTable>,
    projections: &ProjectionSet,
) -> (r: Result<(), ModelArtifactError>)
    requires
        topology.wf(),
        bindings.wf(),
        rules.wf(),
        forall|i: int| 0 <= i < rules@.len() ==> declares(topology.endpoints@, (#[trigger] rules@[i]).0.compartment@),
    ensures
        match binding_stages_outcome(
            rules@,
            *bindings,
            *topology,
            id_keys(forcings@),
            id_keys(tables@),
            projections.specifications@,
        ) {
            Err(e) => outcome_view(r) == Err::<(), ArtifactErrorModel>(e),
            Ok(()) => match r {
                Ok(()) => forall|s: Set<Seq<u8>>| #[trigger] sustaining_ids(*topology, *bindings, s) ==> s =~= Set::<Seq<u8>>::empty(),
                Err(e) => cyclic_report(*topology, *bindings, e@),
            },
        },
{
    let ghost fids = id_keys(forcings@);
    let ghost tids = id_keys(tables@);
    let ghost specs = projections.specifications@;
    let ghost rs = rules@;
    let ghost check = rule_binding_check(*bindings, *topology, fids, tids, specs);
    let entries = rules.entries();
    let mut i: usize = 0;
    proof {
        assert(rs.take(0) =~= Seq::<(RuleCoordinate, RuleDefinition)>::empty());
    }
    while i < entries.len()
        invariant
            0 <= i <= rs.len(),
            entries@ == rs,
            first_error(rs.take(i as int), check) == Ok::<(), ArtifactErrorModel>(()),
            forall|j: int|
                0 <= j < i ==> branches_pass(
                    *bindings,
                    *topology,
                    (#[trigger] rs[j]).0.compartment@,
                    rs[j].0.substance@,
                    rs[j].1.spec_disposition().view,
                ),
        decreases rs.len() - i,
    {
        let coordinate = &entries[i].0;
        let rule = &entries[i].1;
        proof {
            lemma_first_error_step(rs, check, i as int);
        }
        match check_rule_branches(&coordinate.compartment, &coordinate.substance, rule, bindings, topology) {
            Err(e) => {
                proof {
                    lemma_first_error_prefix(rs, check, i + 1);
                }
                return Err(e);
            },
            Ok(()) => {},
        }
        match check_rule_inputs(&coordinate.compartment, &coordinate.substance, rule, bindings, forcings, tables, projections) {
            Err(e) => {
                proof {
                    lemma_first_error_prefix(rs, check, i + 1);
                }
                return Err(e);
            },
            Ok(()) => {},
        }
        i = i + 1;
    }
    proof {
        assert(rs.take(rs.len() as int) =~= rs);
    }
    let ghost tbs = bindings.transfer_bindings@;
    let ghost tcheck = transfer_known(rs);
    let mut k: usize = 0;
    proof {
        assert(tbs.take(0) =~= Seq::<TransferBranchBinding>::empty());
    }
    while k < bindings.transfer_bindings.len()
        invariant
            0 <= k <= tbs.len(),
            tbs == bindings.transfer_bindings@,
            first_error(tbs.take(k as int), tcheck) == Ok::<(), ArtifactErrorModel>(()),
            forall|j: int| 0 <= j < k ==> #[trigger] tcheck(tbs[j]) == Ok::<(), ArtifactErrorModel>(()),
        decreases tbs.len() - k,
    {
        let binding = &bindings.transfer_bindings[k];
        proof {
            lemma_first_error_step(tbs, tcheck, k as int);
        }
        let known = match rule_position(rules, &binding.compartment, &binding.substance) {
            Some(p) => {
                let branches = partition_branches(entries[p].1.disposition());
                proof {
                    lemma_has_id(branches@, binding.branch@);
                }
                branches.contains_key(&binding.branch)
            },
            None => false,
        };
        if !known {
            proof {
                lemma_first_error_prefix(tbs, tcheck, k + 1);
            }
            return Err(ModelArtifactError::UnknownTransferBranchBinding {
                compartment: binding.compartment.clone(),
                substance: binding.substance.clone(),
                branch: binding.branch.clone(),
            });
        }
        k = k + 1;
    }
    proof {
        assert(tbs.take(tbs.len() as int) =~= tbs);
    }
    let ghost ibs = bindings.input_bindings@;
    let ghost icheck = input_known(rs);
    let mut k: usize = 0;
    proof {
        assert(ibs.take(0) =~= Seq::<RuleInputBinding>::empty());
    }
    while k < bindings.input_bindings.len()
        invariant
            0 <= k <= ibs.len(),
            ibs == bindings.input_bindings@,
            first_error(ibs.take(k as int), icheck) == Ok::<(), ArtifactErrorModel>(()),
        decreases ibs.len() - k,
    {
        let binding = &bindings.input_bindings[k];
        proof {
            lemma_first_error_step(ibs, icheck, k as int);
        }
        let known = match rule_position(rules, &binding.compartment, &binding.substance) {
            Some(p) => {
                let mut inputs: Vec<InputRef> = Vec::new();
                collect_rule_inputs(&entries[p].1.expression().node, entries[p].1.disposition(), &mut inputs);
                let ghost all = inputs@;
                proof {
                    assert(all =~= rule_inputs(rs[p as int].1.spec_expression().node, rs[p as int].1.spec_disposition().view));
                }
                let mut found = false;
                let mut q: usize = 0;
                while q < inputs.len()
                    invariant
                        0 <= q <= all.len(),
                        inputs@ == all,
                        found == exists|t: int| 0 <= t < q && (#[trigger] all[t]).id@ == binding.reference.id@,
                    decreases all.len() - q,
                {
                    if inputs[q].id.same(&binding.reference.id) {
                        found = true;
                    }
                    q = q + 1;
                }
                found
            },
            None => false,
        };
        if !known {
            proof {
                lemma_first_error_prefix(ibs, icheck, k + 1);
            }
            return Err(ModelArtifactError::UnknownRuleInputBinding {
                compartment: binding.compartment.clone(),
                substance: binding.substance.clone(),
                input: binding.reference.id.clone(),
            });
        }
        k = k + 1;
    }
    proof {
        assert(ibs.take(ibs.len() as int) =~= ibs);
        assert forall|j: int| 0 <= j < tbs.len() implies declares(topology.endpoints@, (#[trigger] tbs[j]).compartment@)
            && declares(topology.endpoints@, tbs[j].destination@) by {
            let b = tbs[j];
            assert(tcheck(b) == Ok::<(), ArtifactErrorModel>(()));
            let p = entry_at(rs, b.compartment@, b.substance@)->Some_0;
            assert(rs[p].0.key() == seq![b.compartment@, b.substance@]);
            lemma_coordinate_key(rs[p].0, b.compartment@, b.substance@);
            assert(branches_pass(*bindings, *topology, rs[p].0.compartment@, rs[p].0.substance@, rs[p].1.spec_disposition().view));
            assert(partition_branch_set(rs[p].1.spec_disposition().view).contains(b.branch@));
            assert(!branch_fails(*bindings, *topology, b.compartment@, b.substance@)(b.branch@));
            lemma_bound_destination(tbs, j, b.compartment@, b.substance@, b.branch@);
        }
        assert(bindings_within(*topology, *bindings));
    }
    validate_execution_graph_is_acyclic(bindings, topology)
}

// ---------------------------------------------------------------------------------------------
// Carrier-proportional partitions
// ---------------------------------------------------------------------------------------------

/// What checking one branch of a carrier-proportional partition gives: its carrier branch must
/// be a branch of the carrier's partition, both branches must be bound, to one destination.
pub open spec fn carrier_branch_check(
    bindings: ExecutionBindings,
    c: Seq<u8>,
    s: Seq<u8>,
    carrier: Seq<u8>,
    carrier_branches: Set<Seq<u8>>,
) -> spec_fn(crate::partition_expression::CarrierBranch) -> Result<(), ArtifactErrorModel> {
    |b: crate::partition_expression::CarrierBranch|
        if !carrier_branches.contains(b.carrier_branch@) {
            Err(ArtifactErrorModel::UnknownCarrierBranch { compartment: c, substance: s, carrier, branch: b.carrier_branch@ })
        } else if !binds_transfer(bindings.transfer_bindings@, c, s, b.branch@) {
            Err(ArtifactErrorModel::MissingTransferBranchBinding { compartment: c, substance: s, branch: b.branch@ })
        } else if !binds_transfer(bindings.transfer_bindings@, c, carrier, b.carrier_branch@) {
            Err(ArtifactErrorModel::MissingTransferBranchBinding {
                compartment: c,
                substance: carrier,
                branch: b.carrier_branch@,
            })
        } else if bound_destination(bindings.transfer_bindings@, c, s, b.branch@) != bound_destination(
            bindings.transfer_bindings@,
            c,
            carrier,
            b.carrier_branch@,
        ) {
            Err(ArtifactErrorModel::CarrierDestinationMismatch {
                compartment: c,
                substance: s,
                branch: b.branch@,
                destination: bound_destination(bindings.transfer_bindings@, c, s, b.branch@),
                carrier_destination: bound_destination(bindings.transfer_bindings@, c, carrier, b.carrier_branch@),
            })
        } else {
            Ok(())
        }
}

/// What checking one rule's partition against its carrier gives: a carrier-proportional rule
/// needs a registered carrier other than its own substance, with an own rule at the same
/// compartment that is not carrier-proportional itself; then each branch is checked in order.
pub open spec fn carrier_check(
    registry: SubstanceRegistry,
    rules: Seq<(RuleCoordinate, RuleDefinition)>,
    bindings: ExecutionBindings,
) -> spec_fn((RuleCoordinate, RuleDefinition)) -> Result<(), ArtifactErrorModel> {
    |e: (RuleCoordinate, RuleDefinition)|
        match e.1.spec_disposition().view {
            PartitionView::CarrierProportional { carrier, branches } => {
                let c = e.0.compartment@;
                let s = e.0.substance@;
                if !crate::substance_registry::lists(registry.members@, carrier@) {
                    Err(ArtifactErrorModel::UnknownCarrierSubstance { compartment: c, substance: s, carrier: carrier@ })
                } else if carrier@ == s {
                    Err(ArtifactErrorModel::SelfCarrier { compartment: c, substance: s })
                } else {
                    match entry_at(rules, c, carrier@) {
                        None => Err(ArtifactErrorModel::MissingCarrierRule { compartment: c, substance: s, carrier: carrier@ }),
                        Some(i) => if rules[i].1.spec_disposition().view is CarrierProportional {
                            Err(ArtifactErrorModel::DependentCarrier { compartment: c, substance: s, carrier: carrier@ })
                        } else {
                            first_error(
                                branches@,
                                carrier_branch_check(
                                    bindings,
                                    c,
                                    s,
                                    carrier@,
                                    partition_branch_set(rules[i].1.spec_disposition().view),
                                ),
                            )
                        },
                    }
                }
            },
            _ => Ok(()),
        }
}

/// The destination bound to a coordinate, in terms of the binding specification.
fn bound_destination_of<'a>(bindings: &'a ExecutionBindings, compartment: &Ident, substance: &Ident, branch: &Ident) -> (r: Option<&'a Ident>)
    requires
        bindings.wf(),
    ensures
        match r {
            Some(d) => binds_transfer(bindings.transfer_bindings@, compartment@, substance@, branch@) && d@
                == bound_destination(bindings.transfer_bindings@, compartment@, substance@, branch@),
            None => !binds_transfer(bindings.transfer_bindings@, compartment@, substance@, branch@),
        },
{
    let r = bindings.destination(compartment, substance, branch);
    proof {
        if let Some(d) = r {
            let k = choose|k: int|
                0 <= k < bindings.transfer_bindings@.len() && transfer_matches(
                    #[trigger] bindings.transfer_bindings@[k],
                    compartment@,
                    substance@,
                    branch@,
                ) && bindings.transfer_bindings@[k].destination == *d;
            lemma_bound_destination(bindings.transfer_bindings@, k, compartment@, substance@, branch@);
        }
    }
    r
}

/// Checks the branches of a carrier-proportional partition in order.
fn check_carrier_branches(
    compartment: &Ident,
    substance: &Ident,
    carrier: &Ident,
    branches: &Vec<crate::partition_expression::CarrierBranch>,
    carrier_branches: &CanonicalMap<Ident, ()>,
    bindings: &ExecutionBindings,
) -> (r: Result<(), ModelArtifactError>)
    requires
        bindings.wf(),
    ensures
        outcome_view(r) == first_error(
            branches@,
            carrier_branch_check(*bindings, compartment@, substance@, carrier@, id_keys(carrier_branches@)),
        ),
{
    let ghost all = branches@;
    let ghost check = carrier_branch_check(*bindings, compartment@, substance@, carrier@, id_keys(carrier_branches@));
    let mut i: usize = 0;
    proof {
        assert(all.take(0) =~= Seq::<crate::partition_expression::CarrierBranch>::empty());
    }
    while i < branches.len()
        invariant
            0 <= i <= all.len(),
            branches@ == all,
            bindings.wf(),
            check == carrier_branch_check(*bindings, compartment@, substance@, carrier@, id_keys(carrier_branches@)),
            first_error(all.take(i as int), check) == Ok::<(), ArtifactErrorModel>(()),
        decreases all.len() - i,
    {
        let branch = &branches[i];
        proof {
            lemma_first_error_step(all, check, i as int);
            lemma_has_id(carrier_branches@, branch.carrier_branch@);
        }
        if !carrier_branches.contains_key(&branch.carrier_branch) {
            proof {
                lemma_first_error_prefix(all, check, i + 1);
            }
            return Err(ModelArtifactError::UnknownCarrierBranch {
                compartment: compartment.clone(),
                substance: substance.clone(),
                carrier: carrier.clone(),
                branch: branch.carrier_branch.clone(),
            });
        }
        let destination = match bound_destination_of(bindings, compartment, substance, &branch.branch) {
            Some(d) => d,
            None => {
                proof {
                    lemma_first_error_prefix(all, check, i + 1);
                }
                return Err(ModelArtifactError::MissingTransferBranchBinding {
                    compartment: compartment.clone(),
                    substance: substance.clone(),
                    branch: branch.branch.clone(),
                });
            },
        };
        let carrier_destination = match bound_destination_of(bindings, compartment, carrier, &branch.carrier_branch) {
            Some(d) => d,
            None => {
                proof {
                    lemma_first_error_prefix(all, check, i + 1);
                }
                return Err(ModelArtifactError::MissingTransferBranchBinding {
                    compartment: compartment.clone(),
                    substance: carrier.clone(),
                    branch: branch.carrier_branch.clone(),
                });
            },
        };
        if !destination.same(carrier_destination) {
            proof {
                lemma_first_error_prefix(all, check, i + 1);
            }
            return Err(ModelArtifactError::CarrierDestinationMismatch {
                compartment: compartment.clone(),
                substance: substance.clone(),
                branch: branch.branch.clone(),
                destination: destination.clone(),
                carrier_destination: carrier_destination.clone(),
            });
        }
        i = i + 1;
    }
    proof {
        assert(all.take(all.len() as int) =~= all);
    }
    Ok(())
}

/// Checks every carrier-proportional rule against its carrier, rules in canonical order; the
/// first failure is reported.
pub fn validate_carrier_partitions(
    rules: &CanonicalMap<RuleCoordinate, RuleDefinition>,
    registry: &SubstanceRegistry,
    bindings: &ExecutionBindings,
) -> (r: Result<(), ModelArtifactError>)
    requires
        rules.wf(),
        bindings.wf(),
    ensures
        outcome_view(r) == first_error(rules@, carrier_check(*registry, rules@, *bindings)),
{
    let ghost rs = rules@;
    let ghost check = carrier_check(*registry, rs, *bindings);
    let entries = rules.entries();
    let mut i: usize = 0;
    proof {
        assert(rs.take(0) =~= Seq::<(RuleCoordinate, RuleDefinition)>::empty());
    }
    while i < entries.len()
        invariant
            0 <= i <= rs.len(),
            entries@ == rs,
            rs == rules@,
            rules.wf(),
            bindings.wf(),
            check == carrier_check(*registry, rs, *bindings),
            first_error(rs.take(i as int), check) == Ok::<(), ArtifactErrorModel>(()),
        decreases rs.len() - i,
    {
        let coordinate = &entries[i].0;
        let rule = &entries[i].1;
        proof {
            lemma_first_error_step(rs, check, i as int);
        }
        match &rule.disposition().view {
            PartitionView::CarrierProportional { carrier, branches } => {
                let compartment = &coordinate.compartment;
                let substance = &coordinate.substance;
                if !registry.contains(carrier) {
                    proof {
                        lemma_first_error_prefix(rs, check, i + 1);
                    }
                    return Err(ModelArtifactError::UnknownCarrierSubstance {
                        compartment: compartment.clone(),
                        substance: substance.clone(),
                        carrier: carrier.clone(),
                    });
                }
                if carrier.same(substance) {
                    proof {
                        lemma_first_error_prefix(rs, check, i + 1);
                    }
                    return Err(ModelArtifactError::SelfCarrier { compartment: compartment.clone(), substance: substance.clone() });
                }
                let position = rule_position(rules, compartment, carrier);
                match position {
                    None => {
                        proof {
                            lemma_first_error_prefix(rs, check, i + 1);
                        }
                        return Err(ModelArtifactError::MissingCarrierRule {
                            compartment: compartment.clone(),
                            substance: substance.clone(),
                            carrier: carrier.clone(),
                        });
                    },
                    Some(p) => {
                        let carrier_rule = &entries[p].1;
                        let dependent = match &carrier_rule.disposition().view {
                            PartitionView::CarrierProportional { .. } => true,
                            _ => false,
                        };
                        if dependent {
                            proof {
                                lemma_first_error_prefix(rs, check, i + 1);
                            }
                            return Err(ModelArtifactError::DependentCarrier {
                                compartment: compartment.clone(),
                                substance: substance.clone(),
                                carrier: carrier.clone(),
                            });
                        }
                        let carrier_branches = partition_branches(carrier_rule.disposition());
                        match check_carrier_branches(compartment, substance, carrier, branches, &carrier_branches, bindings) {
                            Err(e) => {
                                proof {
                                    lemma_first_error_prefix(rs, check, i + 1);
                                }
                                return Err(e);
                            },
                            Ok(()) => {},
                        }
                    },
                }
            },
            _ => {},
        }
        i = i + 1;
    }
    proof {
        assert(rs.take(rs.len() as int) =~= rs);
    }
    Ok(())
}

} // verus!
