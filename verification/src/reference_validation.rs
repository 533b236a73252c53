//! Whether what a rule refers to exists: its parameters, forcings, tables and projections.

use vstd::prelude::*;
use crate::artifact_error::{ArtifactErrorModel, ModelArtifactError};
use crate::canonical_map::{has_key, sorted_keys, CanonicalMap};
use crate::canonical_order::{key_lt, lemma_key_lt_irreflexive, lemma_key_lt_transitive};
use crate::forcing::ForcingSeries;
use crate::identity::{CanonicalKey, Ident};
use crate::interpolation_table::InterpolationTable;
use crate::model_artifact::{lemma_single_key, RuleDefinition};
use crate::partition_expression::PartitionView;
use crate::projection::{ProjectionSet, ProjectionSpec};
use crate::rule_expression::ExprNode;
use crate::rule_reference::ProjectionValueKind;
use crate::rule_references::{
    collect_rule_references, first_failing, id_keys, lemma_first_failing_found,
    lemma_first_failing_none, map_keys, projection_ref_key, rule_projection_refs, rule_refs,
    ProjectionKey, RefKind, ReferenceSets,
};

verus! {

/// `x` is the least member of `s` in the canonical key order for which `fails` holds.
pub open spec fn least_failing_key(
    s: Set<Seq<Seq<u8>>>,
    fails: spec_fn(Seq<Seq<u8>>) -> bool,
    x: Seq<Seq<u8>>,
) -> bool {
    s.contains(x) && fails(x) && forall|y: Seq<Seq<u8>>| #[trigger] s.contains(y) && fails(y) ==> y == x || key_lt(x, y)
}

/// The least key of `s` for which `fails` holds, if any.
pub open spec fn first_failing_key(s: Set<Seq<Seq<u8>>>, fails: spec_fn(Seq<Seq<u8>>) -> bool) -> Option<Seq<Seq<u8>>> {
    if exists|x: Seq<Seq<u8>>| least_failing_key(s, fails, x) {
        Some(choose|x: Seq<Seq<u8>>| least_failing_key(s, fails, x))
    } else {
        None
    }
}

/// Scanning a sorted map in order, the first failing key is the least failing one.
pub proof fn lemma_first_failing_key_found<K: CanonicalKey, V>(
    m: Seq<(K, V)>,
    fails: spec_fn(Seq<Seq<u8>>) -> bool,
    i: int,
)
    requires
        sorted_keys(m),
        0 <= i < m.len(),
        fails(m[i].0.key()),
        forall|j: int| 0 <= j < i ==> !fails(#[trigger] m[j].0.key()),
    ensures
        first_failing_key(map_keys(m), fails) == Some(m[i].0.key()),
{
    let x = m[i].0.key();
    let s = map_keys(m);
    assert(s.contains(x));
    assert forall|y: Seq<Seq<u8>>| #[trigger] s.contains(y) && fails(y) implies y == x || key_lt(x, y) by {
        let j = choose|j: int| 0 <= j < m.len() && (#[trigger] m[j]).0.key() == y;
        if j < i {
            assert(!fails(m[j].0.key()));
        }
    }
    assert(least_failing_key(s, fails, x));
    let c = choose|c: Seq<Seq<u8>>| least_failing_key(s, fails, c);
    if c != x {
        lemma_key_lt_transitive(x, c, x);
        lemma_key_lt_irreflexive(x);
    }
}

/// Scanning a whole map without failure leaves no failing key.
pub proof fn lemma_first_failing_key_none<K: CanonicalKey, V>(m: Seq<(K, V)>, fails: spec_fn(Seq<Seq<u8>>) -> bool)
    requires
        forall|j: int| 0 <= j < m.len() ==> !fails(#[trigger] m[j].0.key()),
    ensures
        first_failing_key(map_keys(m), fails) is None,
{
    if exists|x: Seq<Seq<u8>>| least_failing_key(map_keys(m), fails, x) {
        let x = choose|x: Seq<Seq<u8>>| least_failing_key(map_keys(m), fails, x);
        let j = choose|j: int| 0 <= j < m.len() && (#[trigger] m[j]).0.key() == x;
        assert(!fails(m[j].0.key()));
    }
}

/// An identity is a key of an identity-keyed map exactly when its one-component key is.
pub proof fn lemma_has_id<V>(m: Seq<(Ident, V)>, x: Seq<u8>)
    ensures
        has_key(m, seq![x]) == id_keys(m).contains(x),
{
    if has_key(m, seq![x]) {
        let i = choose|i: int| 0 <= i < m.len() && #[trigger] m[i].0.key() == seq![x];
        lemma_single_key(m[i].0@, x);
        assert(id_keys(m).contains(x));
    }
    if id_keys(m).contains(x) {
        let i = choose|i: int| 0 <= i < m.len() && (#[trigger] m[i]).0@ == x;
        assert(m[i].0.key() == seq![x]);
    }
}

/// The first specification of `specs` named `id`, if any.
pub open spec fn first_projection(specs: Seq<ProjectionSpec>, id: Seq<u8>) -> Option<int> {
    if exists|i: int| 0 <= i < specs.len() && (#[trigger] specs[i]).id@ == id {
        Some(
            choose|i: int|
                0 <= i < specs.len() && specs[i].id@ == id && forall|j: int| 0 <= j < i ==> (#[trigger] specs[j]).id@ != id,
        )
    } else {
        None
    }
}

/// The position the search for a projection finds is the first one named so.
pub proof fn lemma_first_projection(specs: Seq<ProjectionSpec>, id: Seq<u8>, i: int)
    requires
        0 <= i < specs.len(),
        specs[i].id@ == id,
        forall|j: int| 0 <= j < i ==> (#[trigger] specs[j]).id@ != id,
    ensures
        first_projection(specs, id) == Some(i),
{
    assert(specs[i].id@ == id);
    let c = choose|c: int|
        0 <= c < specs.len() && specs[c].id@ == id && forall|j: int| 0 <= j < c ==> (#[trigger] specs[j]).id@ != id;
    if c < i {
        assert(specs[c].id@ != id);
    } else if c > i {
        assert(specs[i].id@ != id);
    }
}

/// The projection value kind a key tag stands for.
pub open spec fn kind_of_tag(tag: u8) -> ProjectionValueKind {
    if tag == 0 {
        ProjectionValueKind::Extensive
    } else if tag == 1 {
        ProjectionValueKind::Scalar
    } else {
        ProjectionValueKind::Truth
    }
}

/// Whether a projection reference key names no specification, or misstates its value kind.
pub open spec fn projection_ref_fails(specs: Seq<ProjectionSpec>) -> spec_fn(Seq<Seq<u8>>) -> bool {
    |k: Seq<Seq<u8>>|
        match first_projection(specs, k[0]) {
            None => true,
            Some(i) => specs[i].value_kind != kind_of_tag(k[1][0]),
        }
}

/// The error a failing projection reference key is reported with.
pub open spec fn projection_ref_error(
    compartment: Seq<u8>,
    substance: Seq<u8>,
    specs: Seq<ProjectionSpec>,
    k: Seq<Seq<u8>>,
) -> ArtifactErrorModel {
    match first_projection(specs, k[0]) {
        None => ArtifactErrorModel::MissingRuleProjection { compartment, substance, projection: k[0] },
        Some(i) => ArtifactErrorModel::RuleProjectionKindMismatch {
            compartment,
            substance,
            projection: k[0],
            expected: specs[i].value_kind,
            actual: kind_of_tag(k[1][0]),
        },
    }
}

/// Whether an identity is absent from `s`.
pub open spec fn missing_from(s: Set<Seq<u8>>) -> spec_fn(Seq<u8>) -> bool {
    |x: Seq<u8>| !s.contains(x)
}

/// What checking the references of a rule gives: the least missing parameter, then the least
/// missing forcing, then the least missing table, then the least projection reference that
/// names no specification or misstates its kind.
pub open spec fn rule_reference_outcome(
    compartment: Seq<u8>,
    substance: Seq<u8>,
    expression: ExprNode,
    disposition: PartitionView,
    declared: Set<Seq<u8>>,
    forcing_ids: Set<Seq<u8>>,
    table_ids: Set<Seq<u8>>,
    specs: Seq<ProjectionSpec>,
) -> Result<(), ArtifactErrorModel> {
    match first_failing(rule_refs(expression, disposition, RefKind::Parameter), missing_from(declared)) {
        Some(p) => Err(ArtifactErrorModel::MissingRuleParameter { compartment, substance, parameter: p }),
        None => match first_failing(rule_refs(expression, disposition, RefKind::Forcing), missing_from(forcing_ids)) {
            Some(f) => Err(ArtifactErrorModel::MissingRuleForcing { compartment, substance, forcing: f }),
            None => match first_failing(rule_refs(expression, disposition, RefKind::Table), missing_from(table_ids)) {
                Some(t) => Err(ArtifactErrorModel::MissingRuleTable { compartment, substance, table: t }),
                None => match first_failing_key(rule_projection_refs(expression, disposition), projection_ref_fails(specs)) {
                    Some(k) => Err(projection_ref_error(compartment, substance, specs, k)),
                    None => Ok(()),
                },
            },
        },
    }
}

/// The outcome of a check, by its error's view.
pub open spec fn outcome_view(r: Result<(), ModelArtifactError>) -> Result<(), ArtifactErrorModel> {
    match r {
        Ok(()) => Ok(()),
        Err(e) => Err(e@),
    }
}

/// The first identity of `m` (in its order) absent from the forcing catalogue, or none.
fn first_absent_forcing(
    m: &CanonicalMap<Ident, ()>,
    catalogue: &CanonicalMap<Ident, ForcingSeries>,
) -> (r: Option<usize>)
    requires
        m.wf(),
    ensures
        match r {
            Some(i) => i < m@.len() && missing_from(id_keys(catalogue@))(m@[i as int].0@)
                && first_failing(id_keys(m@), missing_from(id_keys(catalogue@))) == Some(m@[i as int].0@),
            None => first_failing(id_keys(m@), missing_from(id_keys(catalogue@))) is None,
        },
{
    let entries = m.entries();
    let ghost fails = missing_from(id_keys(catalogue@));
    let mut i: usize = 0;
    while i < entries.len()
        invariant
            0 <= i <= entries@.len(),
            entries@ == m@,
            sorted_keys(m@),
            fails == missing_from(id_keys(catalogue@)),
            forall|j: int| 0 <= j < i ==> !fails(#[trigger] m@[j].0@),
        decreases entries@.len() - i,
    {
        let present = catalogue.contains_key(&entries[i].0);
        proof {
            lemma_has_id(catalogue@, m@[i as int].0@);
        }
        if !present {
            proof {
                lemma_first_failing_found(m@, fails, i as int);
            }
            return Some(i);
        }
        i = i + 1;
    }
    proof {
        lemma_first_failing_none(m@, fails);
    }
    None
}

/// The first identity of `m` (in its order) absent from the table catalogue, or none.
fn first_absent_table(
    m: &CanonicalMap<Ident, ()>,
    catalogue: &CanonicalMap<Ident, InterpolationTable>,
) -> (r: Option<usize>)
    requires
        m.wf(),
    ensures
        match r {
            Some(i) => i < m@.len() && missing_from(id_keys(catalogue@))(m@[i as int].0@)
                && first_failing(id_keys(m@), missing_from(id_keys(catalogue@))) == Some(m@[i as int].0@),
            None => first_failing(id_keys(m@), missing_from(id_keys(catalogue@))) is None,
        },
{
    let entries = m.entries();
    let ghost fails = missing_from(id_keys(catalogue@));
    let mut i: usize = 0;
    while i < entries.len()
        invariant
            0 <= i <= entries@.len(),
            entries@ == m@,
            sorted_keys(m@),
            fails == missing_from(id_keys(catalogue@)),
            forall|j: int| 0 <= j < i ==> !fails(#[trigger] m@[j].0@),
        decreases entries@.len() - i,
    {
        let present = catalogue.contains_key(&entries[i].0);
        proof {
            lemma_has_id(catalogue@, m@[i as int].0@);
        }
        if !present {
            proof {
                lemma_first_failing_found(m@, fails, i as int);
            }
            return Some(i);
        }
        i = i + 1;
    }
    proof {
        lemma_first_failing_none(m@, fails);
    }
    None
}

/// The first identity of `m` (in its order) that the rule does not declare as a parameter.
fn first_undeclared_parameter(m: &CanonicalMap<Ident, ()>, rule: &RuleDefinition) -> (r: Option<usize>)
    requires
        m.wf(),
        rule.wf(),
    ensures
        match r {
            Some(i) => i < m@.len() && first_failing(id_keys(m@), missing_from(id_keys(rule.spec_parameters())))
                == Some(m@[i as int].0@),
            None => first_failing(id_keys(m@), missing_from(id_keys(rule.spec_parameters()))) is None,
        },
{
    let entries = m.entries();
    let ghost fails = missing_from(id_keys(rule.spec_parameters()));
    let mut i: usize = 0;
    while i < entries.len()
        invariant
            0 <= i <= entries@.len(),
            entries@ == m@,
            sorted_keys(m@),
            fails == missing_from(id_keys(rule.spec_parameters())),
            forall|j: int| 0 <= j < i ==> !fails(#[trigger] m@[j].0@),
        decreases entries@.len() - i,
    {
        let present = rule.declares_parameter(&entries[i].0);
        if !present {
            proof {
                lemma_first_failing_found(m@, fails, i as int);
            }
            return Some(i);
        }
        i = i + 1;
    }
    proof {
        lemma_first_failing_none(m@, fails);
    }
    None
}

/// Checks that every parameter, forcing, table and projection a rule refers to exists, and
/// that each projection reference states the declared value kind.
///
/// Each kind is checked in canonical order of its identities: the least missing parameter is
/// reported first, then the least missing forcing, then the least missing table, then the
/// least projection reference (by identity, then kind) that names no specification or
/// misstates its kind.
#[verifier::loop_isolation(false)]
pub fn validate_rule_references(
    rule: &RuleDefinition,
    forcings: &CanonicalMap<Ident, ForcingSeries>,
    tables: &CanonicalMap<Ident, InterpolationTable>,
    projections: &ProjectionSet,
) -> (r: Result<(), ModelArtifactError>)
    requires
        rule.wf(),
    ensures
        outcome_view(r) == rule_reference_outcome(
            rule.spec_compartment()@,
            rule.spec_substance()@,
            rule.spec_expression().node,
            rule.spec_disposition().view,
            id_keys(rule.spec_parameters()),
            id_keys(forcings@),
            id_keys(tables@),
            projections.specifications@,
        ),
{
    let mut sets = ReferenceSets::new();
    collect_rule_references(&rule.expression().node, rule.disposition(), &mut sets);
    let ghost expression = rule.spec_expression().node;
    let ghost disposition = rule.spec_disposition().view;
    proof {
        assert(sets.refs(RefKind::Parameter) =~= rule_refs(expression, disposition, RefKind::Parameter));
        assert(sets.refs(RefKind::Forcing) =~= rule_refs(expression, disposition, RefKind::Forcing));
        assert(sets.refs(RefKind::Table) =~= rule_refs(expression, disposition, RefKind::Table));
        assert(map_keys(sets.projections@) =~= rule_projection_refs(expression, disposition));
    }
    match first_undeclared_parameter(&sets.parameters, rule) {
        Some(i) => {
            return Err(ModelArtifactError::MissingRuleParameter {
                compartment: rule.compartment().clone(),
                substance: rule.substance().clone(),
                parameter: sets.parameters.entries()[i].0.clone(),
            });
        },
        None => {},
    }
    match first_absent_forcing(&sets.forcings, forcings) {
        Some(i) => {
            return Err(ModelArtifactError::MissingRuleForcing {
                compartment: rule.compartment().clone(),
                substance: rule.substance().clone(),
                forcing: sets.forcings.entries()[i].0.clone(),
            });
        },
        None => {},
    }
    match first_absent_table(&sets.tables, tables) {
        Some(i) => {
            return Err(ModelArtifactError::MissingRuleTable {
                compartment: rule.compartment().clone(),
                substance: rule.substance().clone(),
                table: sets.tables.entries()[i].0.clone(),
            });
        },
        None => {},
    }
    let keys = sets.projections.entries();
    let ghost specs = projections.specifications@;
    let ghost fails = projection_ref_fails(specs);
    let mut i: usize = 0;
    while i < keys.len()
        invariant
            0 <= i <= keys@.len(),
            keys@ == sets.projections@,
            sorted_keys(sets.projections@),
            specs == projections.specifications@,
            fails == projection_ref_fails(specs),
            forall|j: int| 0 <= j < i ==> !fails(#[trigger] sets.projections@[j].0.key()),
        decreases keys@.len() - i,
    {
        let key = &keys[i].0;
        let ghost k = key.key();
        proof {
            assert(k[0] == key.id@);
            assert(k[1] == seq![crate::canonical_encoding::spec_projection_kind_tag(key.kind)]);
            assert(kind_of_tag(k[1][0]) == key.kind);
        }
        match projections.find(&key.id) {
            None => {
                proof {
                    assert(first_projection(specs, k[0]) is None);
                    lemma_first_failing_key_found(sets.projections@, fails, i as int);
                }
                return Err(ModelArtifactError::MissingRuleProjection {
                    compartment: rule.compartment().clone(),
                    substance: rule.substance().clone(),
                    projection: key.id.clone(),
                });
            },
            Some(p) => {
                proof {
                    lemma_first_projection(specs, k[0], p as int);
                }
                let expected = projections.specifications[p].value_kind;
                if expected != key.kind {
                    proof {
                        lemma_first_failing_key_found(sets.projections@, fails, i as int);
                    }
                    return Err(ModelArtifactError::RuleProjectionKindMismatch {
                        compartment: rule.compartment().clone(),
                        substance: rule.substance().clone(),
                        projection: key.id.clone(),
                        expected,
                        actual: key.kind,
                    });
                }
            },
        }
        i = i + 1;
    }
    proof {
        lemma_first_failing_key_none(sets.projections@, fails);
    }
    Ok(())
}

} // verus!
