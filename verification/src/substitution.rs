//! Deriving an artifact by replacing declared rule parameters, the only substitution a held
//! artifact allows.

use vstd::prelude::*;
use crate::artifact::{content_payload, rule_entry_emitter, ModelArtifact};
use crate::artifact_builder::{listed_value, reorders, same_values};
use crate::binding_validation::{entry_at, lemma_coordinate_key, lemma_entry_at, rule_position};
use crate::canonical_encoding::{emit_each, finite_bits, lemma_emit_each_pointwise, spec_encode, CanonicalEncodingError};
use crate::canonical_map::{has_key, sorted_keys, CanonicalMap};
use crate::identity::{CanonicalKey, CompartmentId, Ident, ParameterId, RuleCoordinate, SubstanceId};
use crate::model_artifact::{RuleDefinition, RuleParameterSubstitution};
use crate::rule_references::id_keys;

verus! {

/// Reports why a held artifact could not derive a parameter-substituted artifact.
#[derive(Debug, PartialEq, Eq)]
pub enum RuleParameterSubstitutionError {
    /// Fires when one substitution coordinate occurs more than once.
    DuplicateTarget { compartment: CompartmentId, substance: SubstanceId, parameter: ParameterId },
    /// Fires when the addressed compartment and substance do not own a rule.
    RuleNotFound { compartment: CompartmentId, substance: SubstanceId },
    /// Fires when the addressed rule does not declare the named parameter.
    ParameterNotDeclared { compartment: CompartmentId, substance: SubstanceId, parameter: ParameterId },
    /// Fires when a replacement is NaN or infinite.
    NonFiniteValue { compartment: CompartmentId, substance: SubstanceId, parameter: ParameterId, bits: u64 },
    /// Fires when the derived artifact cannot be represented by its canonical encoding.
    CanonicalEncoding { source: CanonicalEncodingError },
}

/// The identity-level view of [`RuleParameterSubstitutionError`].
pub enum SubstitutionErrorModel {
    DuplicateTarget { compartment: Seq<u8>, substance: Seq<u8>, parameter: Seq<u8> },
    RuleNotFound { compartment: Seq<u8>, substance: Seq<u8> },
    ParameterNotDeclared { compartment: Seq<u8>, substance: Seq<u8>, parameter: Seq<u8> },
    NonFiniteValue { compartment: Seq<u8>, substance: Seq<u8>, parameter: Seq<u8>, bits: u64 },
    CanonicalEncoding { source: CanonicalEncodingError },
}

impl View for RuleParameterSubstitutionError {
    type V = SubstitutionErrorModel;

    open spec fn view(&self) -> SubstitutionErrorModel {
        match self {
            RuleParameterSubstitutionError::DuplicateTarget { compartment, substance, parameter } =>
                SubstitutionErrorModel::DuplicateTarget { compartment: compartment@, substance: substance@, parameter: parameter@ },
            RuleParameterSubstitutionError::RuleNotFound { compartment, substance } =>
                SubstitutionErrorModel::RuleNotFound { compartment: compartment@, substance: substance@ },
            RuleParameterSubstitutionError::ParameterNotDeclared { compartment, substance, parameter } =>
                SubstitutionErrorModel::ParameterNotDeclared {
                    compartment: compartment@,
                    substance: substance@,
                    parameter: parameter@,
                },
            RuleParameterSubstitutionError::NonFiniteValue { compartment, substance, parameter, bits } =>
                SubstitutionErrorModel::NonFiniteValue {
                    compartment: compartment@,
                    substance: substance@,
                    parameter: parameter@,
                    bits: *bits,
                },
            RuleParameterSubstitutionError::CanonicalEncoding { source } =>
                SubstitutionErrorModel::CanonicalEncoding { source: *source },
        }
    }
}

/// Whether two substitutions address the same rule parameter.
pub open spec fn same_target(a: RuleParameterSubstitution, b: RuleParameterSubstitution) -> bool {
    a.compartment@ == b.compartment@ && a.substance@ == b.substance@ && a.parameter@ == b.parameter@
}

/// What checking substitution `i` gives: a target not addressed before, a rule at its
/// coordinate, a finite value, and a parameter the rule declares.
pub open spec fn substitution_check(
    rules: Seq<(RuleCoordinate, RuleDefinition)>,
    subs: Seq<RuleParameterSubstitution>,
    i: int,
) -> Option<SubstitutionErrorModel> {
    let x = subs[i];
    let c = x.compartment@;
    let s = x.substance@;
    let p = x.parameter@;
    if exists|j: int| 0 <= j < i && same_target(#[trigger] subs[j], x) {
        Some(SubstitutionErrorModel::DuplicateTarget { compartment: c, substance: s, parameter: p })
    } else {
        match entry_at(rules, c, s) {
            None => Some(SubstitutionErrorModel::RuleNotFound { compartment: c, substance: s }),
            Some(q) => if !finite_bits(x.value_bits) {
                Some(SubstitutionErrorModel::NonFiniteValue { compartment: c, substance: s, parameter: p, bits: x.value_bits })
            } else if !id_keys(rules[q].1.spec_parameters()).contains(p) {
                Some(SubstitutionErrorModel::ParameterNotDeclared { compartment: c, substance: s, parameter: p })
            } else {
                None
            },
        }
    }
}

/// The first failing substitution among the first `k`, in order.
pub open spec fn first_substitution_error(
    rules: Seq<(RuleCoordinate, RuleDefinition)>,
    subs: Seq<RuleParameterSubstitution>,
    k: int,
) -> Option<SubstitutionErrorModel>
    decreases k,
{
    if k <= 0 {
        None
    } else {
        match first_substitution_error(rules, subs, k - 1) {
            Some(e) => Some(e),
            None => substitution_check(rules, subs, k - 1),
        }
    }
}

proof fn lemma_substitution_error_prefix(
    rules: Seq<(RuleCoordinate, RuleDefinition)>,
    subs: Seq<RuleParameterSubstitution>,
    k: int,
    n: int,
)
    requires
        0 <= k <= n,
        first_substitution_error(rules, subs, k) is Some,
    ensures
        first_substitution_error(rules, subs, n) == first_substitution_error(rules, subs, k),
    decreases n - k,
{
    if n > k {
        lemma_substitution_error_prefix(rules, subs, k, n - 1);
    }
}

/// The value of parameter `p` of the rule at (`c`, `s`) after the first `k` substitutions:
/// the value of the one addressed to it, if any, else `original`.
pub open spec fn substituted_value(
    subs: Seq<RuleParameterSubstitution>,
    k: int,
    c: Seq<u8>,
    s: Seq<u8>,
    p: Seq<u8>,
    original: u64,
) -> u64 {
    if exists|j: int| 0 <= j < k && #[trigger] subs[j].compartment@ == c && subs[j].substance@ == s && subs[j].parameter@ == p {
        subs[choose|j: int| 0 <= j < k && #[trigger] subs[j].compartment@ == c && subs[j].substance@ == s && subs[j].parameter@ == p].value_bits
    } else {
        original
    }
}

/// `derived` is `rules` with the first `k` substitutions applied: the same coordinates,
/// expressions, partitions and parameter identities, and each parameter value substituted.
#[verifier::opaque]
pub open spec fn substituted_rules(
    derived: Seq<(RuleCoordinate, RuleDefinition)>,
    rules: Seq<(RuleCoordinate, RuleDefinition)>,
    subs: Seq<RuleParameterSubstitution>,
    k: int,
) -> bool {
    &&& derived.len() == rules.len()
    &&& forall|q: int| 0 <= q < rules.len() ==> #[trigger] same_rule_but_values(derived[q], rules[q], subs, k)
}

/// One rule entry with the first `k` substitutions applied.
pub open spec fn same_rule_but_values(
    d: (RuleCoordinate, RuleDefinition),
    o: (RuleCoordinate, RuleDefinition),
    subs: Seq<RuleParameterSubstitution>,
    k: int,
) -> bool {
    &&& d.0 == o.0
    &&& d.1.wf()
    &&& d.1.spec_compartment() == o.1.spec_compartment()
    &&& d.1.spec_substance() == o.1.spec_substance()
    &&& d.1.spec_expression() == o.1.spec_expression()
    &&& d.1.spec_disposition() == o.1.spec_disposition()
    &&& d.1.spec_parameters().len() == o.1.spec_parameters().len()
    &&& forall|t: int|
        0 <= t < o.1.spec_parameters().len() ==> (#[trigger] d.1.spec_parameters()[t]).0 == o.1.spec_parameters()[t].0
            && d.1.spec_parameters()[t].1 == substituted_value(
            subs,
            k,
            o.0.compartment@,
            o.0.substance@,
            o.1.spec_parameters()[t].0@,
            o.1.spec_parameters()[t].1,
        )
}

/// A rule entry whose parameters keep their identities keeps its declared identities.
proof fn lemma_same_parameter_ids(d: Seq<(Ident, u64)>, o: Seq<(Ident, u64)>)
    requires
        d.len() == o.len(),
        forall|t: int| 0 <= t < o.len() ==> (#[trigger] d[t]).0 == o[t].0,
    ensures
        id_keys(d) == id_keys(o),
{
    assert forall|x: Seq<u8>| id_keys(d).contains(x) <==> id_keys(o).contains(x) by {
        if id_keys(d).contains(x) {
            let t = choose|t: int| 0 <= t < d.len() && (#[trigger] d[t]).0@ == x;
            assert(o[t].0 == d[t].0);
        }
        if id_keys(o).contains(x) {
            let t = choose|t: int| 0 <= t < o.len() && (#[trigger] o[t]).0@ == x;
            assert(d[t].0 == o[t].0);
        }
    }
    assert(id_keys(d) =~= id_keys(o));
}

/// No two of the first `k` substitutions address the same target.
pub open spec fn distinct_targets(subs: Seq<RuleParameterSubstitution>, k: int) -> bool {
    forall|a: int, b: int| 0 <= a < b < k ==> !same_target(#[trigger] subs[a], #[trigger] subs[b])
}

/// One more substitution changes the value of exactly the parameter it addresses.
proof fn lemma_value_step(subs: Seq<RuleParameterSubstitution>, k: int, c: Seq<u8>, s: Seq<u8>, pid: Seq<u8>, v: u64)
    requires
        0 <= k < subs.len(),
        distinct_targets(subs, k + 1),
    ensures
        substituted_value(subs, k + 1, c, s, pid, v) == if subs[k].compartment@ == c && subs[k].substance@ == s
            && subs[k].parameter@ == pid {
            subs[k].value_bits
        } else {
            substituted_value(subs, k, c, s, pid, v)
        },
{
    if subs[k].compartment@ == c && subs[k].substance@ == s && subs[k].parameter@ == pid {
        assert(subs[k].compartment@ == c);
        let j = choose|j: int| 0 <= j < k + 1 && #[trigger] subs[j].compartment@ == c && subs[j].substance@ == s && subs[j].parameter@ == pid;
        if j < k {
            assert(same_target(subs[j], subs[k]));
        }
    } else {
        if exists|j: int| 0 <= j < k + 1 && #[trigger] subs[j].compartment@ == c && subs[j].substance@ == s && subs[j].parameter@ == pid {
            let j1 = choose|j: int| 0 <= j < k + 1 && #[trigger] subs[j].compartment@ == c && subs[j].substance@ == s && subs[j].parameter@ == pid;
            assert(j1 < k);
            assert(subs[j1].compartment@ == c);
            let j2 = choose|j: int| 0 <= j < k && #[trigger] subs[j].compartment@ == c && subs[j].substance@ == s && subs[j].parameter@ == pid;
            if j1 < j2 {
                assert(same_target(subs[j1], subs[j2]));
            } else if j2 < j1 {
                assert(same_target(subs[j2], subs[j1]));
            }
        }
    }
}

/// One more substitution, addressed to parameter `t` of rule `p`, updates exactly that value.
proof fn lemma_substitution_step(
    derived: Seq<(RuleCoordinate, RuleDefinition)>,
    derived2: Seq<(RuleCoordinate, RuleDefinition)>,
    rules: Seq<(RuleCoordinate, RuleDefinition)>,
    subs: Seq<RuleParameterSubstitution>,
    k: int,
    p: int,
    t: int,
)
    requires
        sorted_keys(rules),
        0 <= k < subs.len(),
        substituted_rules(derived, rules, subs, k),
        distinct_targets(subs, k + 1),
        0 <= p < rules.len(),
        rules[p].0.compartment@ == subs[k].compartment@,
        rules[p].0.substance@ == subs[k].substance@,
        0 <= t < rules[p].1.spec_parameters().len(),
        rules[p].1.spec_parameters()[t].0@ == subs[k].parameter@,
        sorted_keys(rules[p].1.spec_parameters()),
        derived2.len() == derived.len(),
        forall|q: int| 0 <= q < derived.len() && q != p ==> derived2[q] == derived[q],
        derived2[p].0 == derived[p].0,
        derived2[p].1.wf(),
        derived2[p].1.spec_compartment() == derived[p].1.spec_compartment(),
        derived2[p].1.spec_substance() == derived[p].1.spec_substance(),
        derived2[p].1.spec_expression() == derived[p].1.spec_expression(),
        derived2[p].1.spec_disposition() == derived[p].1.spec_disposition(),
        derived2[p].1.spec_parameters() == derived[p].1.spec_parameters().update(
            t,
            (derived[p].1.spec_parameters()[t].0, subs[k].value_bits),
        ),
    ensures
        substituted_rules(derived2, rules, subs, k + 1),
{
    reveal(substituted_rules);
    assert forall|q: int| 0 <= q < rules.len() implies #[trigger] same_rule_but_values(derived2[q], rules[q], subs, k + 1) by {
        assert(same_rule_but_values(derived[q], rules[q], subs, k));
        let o = rules[q];
        let c = o.0.compartment@;
        let s = o.0.substance@;
        let same_rule = subs[k].compartment@ == c && subs[k].substance@ == s;
        if same_rule && q != p {
            lemma_coordinate_key(rules[q].0, c, s);
            lemma_coordinate_key(rules[p].0, c, s);
            crate::canonical_map::lemma_sorted_keys_distinct(rules, p, q);
        }
        assert forall|u: int| 0 <= u < o.1.spec_parameters().len() implies (#[trigger] derived2[q].1.spec_parameters()[u]).0
            == o.1.spec_parameters()[u].0 && derived2[q].1.spec_parameters()[u].1 == substituted_value(
            subs,
            k + 1,
            c,
            s,
            o.1.spec_parameters()[u].0@,
            o.1.spec_parameters()[u].1,
        ) by {
            let pid = o.1.spec_parameters()[u].0@;
            lemma_value_step(subs, k, c, s, pid, o.1.spec_parameters()[u].1);
            assert(derived[q].1.spec_parameters()[u].0 == o.1.spec_parameters()[u].0);
            if q == p && u != t && subs[k].parameter@ == pid {
                crate::canonical_map::lemma_sorted_keys_distinct(rules[p].1.spec_parameters(), u, t);
                crate::model_artifact::lemma_single_key(rules[p].1.spec_parameters()[u].0@, rules[p].1.spec_parameters()[t].0@);
            }
        }
    }
}

/// Whether an earlier substitution than the `k`th addresses its target.
#[verifier::loop_isolation(false)]
fn repeats_target(subs: &Vec<RuleParameterSubstitution>, k: usize) -> (r: bool)
    requires
        k < subs@.len(),
    ensures
        r == exists|j: int| 0 <= j < k && same_target(#[trigger] subs@[j], subs@[k as int]),
{
    let target = &subs[k];
    let mut j: usize = 0;
    while j < k
        invariant
            0 <= j <= k,
            k < subs@.len(),
            forall|h: int| 0 <= h < j ==> !same_target(#[trigger] subs@[h], subs@[k as int]),
        decreases k - j,
    {
        let earlier = &subs[j];
        if earlier.compartment.same(&target.compartment) && earlier.substance.same(&target.substance)
            && earlier.parameter.same(&target.parameter) {
            proof {
                assert(same_target(subs@[j as int], subs@[k as int]));
            }
            return true;
        }
        j = j + 1;
    }
    false
}

/// A copy of every rule entry, values unchanged.
fn copy_rules(rules: &CanonicalMap<RuleCoordinate, RuleDefinition>, Ghost(subs): Ghost<Seq<RuleParameterSubstitution>>) -> (r: Vec<
    (RuleCoordinate, RuleDefinition),
>)
    requires
        forall|q: int| 0 <= q < rules@.len() ==> (#[trigger] rules@[q]).1.wf(),
    ensures
        substituted_rules(r@, rules@, subs, 0),
{
    reveal(substituted_rules);
    let entries = rules.entries();
    let ghost orig = entries@;
    let mut derived: Vec<(RuleCoordinate, RuleDefinition)> = Vec::new();
    let mut i: usize = 0;
    while i < entries.len()
        invariant
            0 <= i <= orig.len(),
            entries@ == orig,
            orig == rules@,
            forall|q: int| 0 <= q < orig.len() ==> (#[trigger] orig[q]).1.wf(),
            derived@.len() == i,
            forall|q: int| 0 <= q < i ==> #[trigger] same_rule_but_values(derived@[q], orig[q], subs, 0),
        decreases orig.len() - i,
    {
        let copy = entries[i].1.duplicate();
        derived.push((entries[i].0.clone(), copy));
        proof {
            let q = i as int;
            assert(derived@[q].0 == orig[q].0);
            assert(same_rule_but_values(derived@[q], orig[q], subs, 0));
        }
        i = i + 1;
    }
    derived
}

/// Substituted rules keep the canonical order and are well formed.
proof fn lemma_substituted_sorted(
    derived: Seq<(RuleCoordinate, RuleDefinition)>,
    rules: Seq<(RuleCoordinate, RuleDefinition)>,
    subs: Seq<RuleParameterSubstitution>,
    k: int,
)
    requires
        sorted_keys(rules),
        substituted_rules(derived, rules, subs, k),
    ensures
        sorted_keys(derived),
        forall|q: int| 0 <= q < derived.len() ==> (#[trigger] derived[q]).1.wf(),
{
    reveal(substituted_rules);
    assert forall|a: int, b: int| 0 <= a < b < derived.len() implies crate::canonical_order::key_lt(
        #[trigger] derived[a].0.key(),
        #[trigger] derived[b].0.key(),
    ) by {
        assert(same_rule_but_values(derived[a], rules[a], subs, k));
        assert(same_rule_but_values(derived[b], rules[b], subs, k));
    }
    assert forall|q: int| 0 <= q < derived.len() implies (#[trigger] derived[q]).1.wf() by {
        assert(same_rule_but_values(derived[q], rules[q], subs, k));
    }
}

/// Applies the substitutions in order to a copy of the rules, stopping at the first that fails.
#[verifier::loop_isolation(false)]
#[verifier::rlimit(50)]
fn apply_substitutions(
    rules: &CanonicalMap<RuleCoordinate, RuleDefinition>,
    substitutions: &Vec<RuleParameterSubstitution>,
) -> (r: Result<Vec<(RuleCoordinate, RuleDefinition)>, RuleParameterSubstitutionError>)
    requires
        rules.wf(),
        forall|q: int| 0 <= q < rules@.len() ==> (#[trigger] rules@[q]).1.wf(),
    ensures
        match r {
            Ok(d) => first_substitution_error(rules@, substitutions@, substitutions@.len() as int) is None
                && substituted_rules(d@, rules@, substitutions@, substitutions@.len() as int),
            Err(e) => first_substitution_error(rules@, substitutions@, substitutions@.len() as int) == Some(e@),
        },
{
    reveal(substituted_rules);
    let ghost subs = substitutions@;
    let ghost n = subs.len() as int;
    let ghost orig = rules@;
    let mut derived = copy_rules(rules, Ghost(subs));
        let mut k: usize = 0;
        while k < substitutions.len()
            invariant
                0 <= k <= n,
                n == subs.len(),
                subs == substitutions@,
                rules@ == orig,
                rules.wf(),
                substituted_rules(derived@, orig, subs, k as int),
                first_substitution_error(orig, subs, k as int) is None,
                distinct_targets(subs, k as int),
            decreases n - k,
        {
            let substitution = &substitutions[k];
            if repeats_target(&substitutions, k) {
                proof {
                    assert(substitution_check(orig, subs, k as int) is Some);
                    lemma_substitution_error_prefix(orig, subs, k + 1, n);
                }
                return Err(RuleParameterSubstitutionError::DuplicateTarget {
                    compartment: substitution.compartment.clone(),
                    substance: substitution.substance.clone(),
                    parameter: substitution.parameter.clone(),
                });
            }
            let p = match rule_position(rules, &substitution.compartment, &substitution.substance) {
                None => {
                    proof {
                        lemma_substitution_error_prefix(orig, subs, k + 1, n);
                    }
                    return Err(RuleParameterSubstitutionError::RuleNotFound {
                        compartment: substitution.compartment.clone(),
                        substance: substitution.substance.clone(),
                    });
                },
                Some(p) => p,
            };
            let bits = substitution.value_bits;
            if (bits >> 52u64) & 0x7ffu64 == 0x7ffu64 {
                proof {
                    lemma_substitution_error_prefix(orig, subs, k + 1, n);
                }
                return Err(RuleParameterSubstitutionError::NonFiniteValue {
                    compartment: substitution.compartment.clone(),
                    substance: substitution.substance.clone(),
                    parameter: substitution.parameter.clone(),
                    bits,
                });
            }
            proof {
                assert(same_rule_but_values(derived@[p as int], orig[p as int], subs, k as int));
                lemma_same_parameter_ids(derived@[p as int].1.spec_parameters(), orig[p as int].1.spec_parameters());
            }
            let (coordinate, mut rule) = derived.remove(p);
            let t = match rule.parameter_position(&substitution.parameter) {
                None => {
                    proof {
                        lemma_substitution_error_prefix(orig, subs, k + 1, n);
                    }
                    return Err(RuleParameterSubstitutionError::ParameterNotDeclared {
                        compartment: substitution.compartment.clone(),
                        substance: substitution.substance.clone(),
                        parameter: substitution.parameter.clone(),
                    });
                },
                Some(t) => t,
            };
            let ghost before = derived@;
            let ghost old_rule = rule;
            rule.set_parameter(t, bits);
            derived.insert(p, (coordinate, rule));
            proof {
                assert(substitution_check(orig, subs, k as int) is None);
                assert(distinct_targets(subs, k + 1)) by {
                    assert forall|a: int, b: int| 0 <= a < b < k + 1 implies !same_target(#[trigger] subs[a], #[trigger] subs[b]) by {
                        if b == k && same_target(subs[a], subs[b]) {
                            assert(exists|j: int| 0 <= j < k && same_target(#[trigger] subs[j], subs[k as int]));
                        }
                    }
                }
                let full_before = before.insert(p as int, (coordinate, old_rule));
                assert(orig[p as int].1.wf());
                lemma_substitution_step(full_before, derived@, orig, subs, k as int, p as int, t as int);
            }
            k = k + 1;
        }
        Ok(derived)
}

/// What deriving an artifact from `a` by `subs` gives: the first failing substitution, or an
/// artifact with the substituted rules and every other component of `a`, its identity derived
/// anew (or the encoding failure of that content).
pub open spec fn substitution_outcome(
    a: ModelArtifact,
    subs: Seq<RuleParameterSubstitution>,
    r: Result<ModelArtifact, RuleParameterSubstitutionError>,
) -> bool {
    match r {
        Ok(d) => {
            &&& first_substitution_error(a.spec_rules(), subs, subs.len() as int) is None
            &&& d.wf()
            &&& substituted_rules(d.spec_rules(), a.spec_rules(), subs, subs.len() as int)
            &&& d.spec_topology() == a.spec_topology()
            &&& d.spec_registry() == a.spec_registry()
            &&& d.spec_initial_stocks() == a.spec_initial_stocks()
            &&& d.spec_initial_quantum_counts() == a.spec_initial_quantum_counts()
            &&& d.spec_projections() == a.spec_projections()
            &&& d.spec_calendar() == a.spec_calendar()
            &&& d.spec_horizon() == a.spec_horizon()
            &&& d.spec_forcings() == a.spec_forcings()
            &&& d.spec_tables() == a.spec_tables()
            &&& d.spec_execution_bindings() == a.spec_execution_bindings()
            &&& d.spec_units() == a.spec_units()
            &&& d.spec_versions() == a.spec_versions()
        },
        Err(e) => match first_substitution_error(a.spec_rules(), subs, subs.len() as int) {
            Some(x) => e@ == x,
            None => exists|derived: Seq<(RuleCoordinate, RuleDefinition)>|
                #[trigger] substituted_rules(derived, a.spec_rules(), subs, subs.len() as int) && match e@ {
                    SubstitutionErrorModel::CanonicalEncoding { source } => spec_encode(
                        0x0020,
                        content_payload(
                            a.spec_versions(),
                            a.spec_topology(),
                            a.spec_registry(),
                            a.spec_initial_stocks(),
                            a.spec_calendar(),
                            a.spec_horizon(),
                            a.spec_projections(),
                            a.spec_forcings(),
                            a.spec_tables(),
                            derived,
                            a.spec_execution_bindings(),
                            a.spec_units(),
                        ),
                    ) == Err::<Seq<u8>, CanonicalEncodingError>(source),
                    _ => false,
                },
        },
    }
}

/// Rules derived by no substitution at all encode as the rules they were derived from.
proof fn lemma_unsubstituted_rules_encode_alike(
    d: Seq<(RuleCoordinate, RuleDefinition)>,
    rules: Seq<(RuleCoordinate, RuleDefinition)>,
    subs: Seq<RuleParameterSubstitution>,
)
    requires
        substituted_rules(d, rules, subs, 0),
    ensures
        d.len() == rules.len(),
        emit_each(d, rule_entry_emitter()) == emit_each(rules, rule_entry_emitter()),
{
    reveal(substituted_rules);
    assert forall|q: int| 0 <= q < d.len() implies rule_entry_emitter()(#[trigger] d[q]) == rule_entry_emitter()(rules[q]) by {
        assert(same_rule_but_values(d[q], rules[q], subs, 0));
        let dp = d[q].1.spec_parameters();
        let op = rules[q].1.spec_parameters();
        assert forall|t: int| 0 <= t < op.len() implies dp[t] == op[t] by {
            assert(dp[t].0 == op[t].0);
        }
        assert(dp =~= op);
    }
    lemma_emit_each_pointwise(d, rules, rule_entry_emitter());
}

/// Substituting nothing succeeds and derives an artifact with the same canonical bytes and the
/// same digest.
pub proof fn lemma_no_substitution_keeps_identity(
    a: ModelArtifact,
    r: Result<ModelArtifact, RuleParameterSubstitutionError>,
)
    requires
        a.wf(),
        substitution_outcome(a, Seq::<RuleParameterSubstitution>::empty(), r),
    ensures
        r is Ok,
        r->Ok_0.spec_canonical_bytes() == a.spec_canonical_bytes(),
        r->Ok_0.spec_digest().spec_bytes() == a.spec_digest().spec_bytes(),
{
    let subs = Seq::<RuleParameterSubstitution>::empty();
    assert(first_substitution_error(a.spec_rules(), subs, 0) is None);
    match r {
        Ok(d) => {
            lemma_unsubstituted_rules_encode_alike(d.spec_rules(), a.spec_rules(), subs);
            assert(d.artifact_payload() == a.artifact_payload());
        },
        Err(e) => {
            let derived = choose|derived: Seq<(RuleCoordinate, RuleDefinition)>|
                #[trigger] substituted_rules(derived, a.spec_rules(), subs, 0) && match e@ {
                    SubstitutionErrorModel::CanonicalEncoding { source } => spec_encode(
                        0x0020,
                        content_payload(
                            a.spec_versions(),
                            a.spec_topology(),
                            a.spec_registry(),
                            a.spec_initial_stocks(),
                            a.spec_calendar(),
                            a.spec_horizon(),
                            a.spec_projections(),
                            a.spec_forcings(),
                            a.spec_tables(),
                            derived,
                            a.spec_execution_bindings(),
                            a.spec_units(),
                        ),
                    ) == Err::<Seq<u8>, CanonicalEncodingError>(source),
                    _ => false,
                };
            lemma_unsubstituted_rules_encode_alike(derived, a.spec_rules(), subs);
            assert(content_payload(
                a.spec_versions(),
                a.spec_topology(),
                a.spec_registry(),
                a.spec_initial_stocks(),
                a.spec_calendar(),
                a.spec_horizon(),
                a.spec_projections(),
                a.spec_forcings(),
                a.spec_tables(),
                derived,
                a.spec_execution_bindings(),
                a.spec_units(),
            ) == a.artifact_payload());
        },
    }
}

/// Substitutions that pass their checks address distinct targets.
proof fn lemma_passing_targets_distinct(rules: Seq<(RuleCoordinate, RuleDefinition)>, subs: Seq<RuleParameterSubstitution>, k: int)
    requires
        0 <= k <= subs.len(),
        first_substitution_error(rules, subs, k) is None,
    ensures
        distinct_targets(subs, k),
    decreases k,
{
    if k > 0 {
        lemma_passing_targets_distinct(rules, subs, k - 1);
        assert(substitution_check(rules, subs, k - 1) is None);
        assert forall|a: int, b: int| 0 <= a < b < k implies !same_target(#[trigger] subs[a], #[trigger] subs[b]) by {
            if b == k - 1 && same_target(subs[a], subs[b]) {
                assert(same_target(subs[a], subs[k - 1]));
            }
        }
    }
}

/// Lists of substitutions with distinct targets holding the same substitutions give every
/// parameter the same value.
proof fn lemma_value_ignores_order(
    subs1: Seq<RuleParameterSubstitution>,
    subs2: Seq<RuleParameterSubstitution>,
    c: Seq<u8>,
    s: Seq<u8>,
    p: Seq<u8>,
    v: u64,
)
    requires
        distinct_targets(subs1, subs1.len() as int),
        distinct_targets(subs2, subs2.len() as int),
        same_values(subs1, subs2),
    ensures
        substituted_value(subs1, subs1.len() as int, c, s, p, v) == substituted_value(subs2, subs2.len() as int, c, s, p, v),
{
    let n1 = subs1.len() as int;
    let n2 = subs2.len() as int;
    if exists|j: int| 0 <= j < n1 && #[trigger] subs1[j].compartment@ == c && subs1[j].substance@ == s && subs1[j].parameter@ == p {
        let j1 = choose|j: int| 0 <= j < n1 && #[trigger] subs1[j].compartment@ == c && subs1[j].substance@ == s && subs1[j].parameter@ == p;
        assert(listed_value(subs2, subs1[j1]));
        let j2 = choose|j: int| 0 <= j < n2 && subs2[j] == subs1[j1];
        assert(subs2[j2].compartment@ == c && subs2[j2].substance@ == s && subs2[j2].parameter@ == p);
        let k2 = choose|j: int| 0 <= j < n2 && #[trigger] subs2[j].compartment@ == c && subs2[j].substance@ == s && subs2[j].parameter@ == p;
        if k2 != j2 {
            assert(same_target(subs2[k2], subs2[j2]));
            if k2 < j2 {
                assert(!same_target(subs2[k2], subs2[j2]));
            } else {
                assert(!same_target(subs2[j2], subs2[k2]));
            }
        }
    } else {
        if exists|j: int| 0 <= j < n2 && #[trigger] subs2[j].compartment@ == c && subs2[j].substance@ == s && subs2[j].parameter@ == p {
            let j2 = choose|j: int| 0 <= j < n2 && #[trigger] subs2[j].compartment@ == c && subs2[j].substance@ == s && subs2[j].parameter@ == p;
            assert(listed_value(subs1, subs2[j2]));
            let j1 = choose|j: int| 0 <= j < n1 && subs1[j] == subs2[j2];
            assert(subs1[j1].compartment@ == c && subs1[j1].substance@ == s && subs1[j1].parameter@ == p);
        }
    }
}

/// Substituted rules derived by two lists with distinct targets holding the same substitutions
/// encode alike.
proof fn lemma_reordered_rules_encode_alike(
    rules: Seq<(RuleCoordinate, RuleDefinition)>,
    subs1: Seq<RuleParameterSubstitution>,
    subs2: Seq<RuleParameterSubstitution>,
    r1: Seq<(RuleCoordinate, RuleDefinition)>,
    r2: Seq<(RuleCoordinate, RuleDefinition)>,
)
    requires
        distinct_targets(subs1, subs1.len() as int),
        distinct_targets(subs2, subs2.len() as int),
        same_values(subs1, subs2),
        substituted_rules(r1, rules, subs1, subs1.len() as int),
        substituted_rules(r2, rules, subs2, subs2.len() as int),
    ensures
        r1.len() == r2.len(),
        emit_each(r1, rule_entry_emitter()) == emit_each(r2, rule_entry_emitter()),
{
    let n1 = subs1.len() as int;
    let n2 = subs2.len() as int;
    reveal(substituted_rules);
    assert forall|q: int| 0 <= q < r1.len() implies rule_entry_emitter()(#[trigger] r1[q]) == rule_entry_emitter()(r2[q]) by {
        assert(same_rule_but_values(r1[q], rules[q], subs1, n1));
        assert(same_rule_but_values(r2[q], rules[q], subs2, n2));
        let p1 = r1[q].1.spec_parameters();
        let p2 = r2[q].1.spec_parameters();
        let op = rules[q].1.spec_parameters();
        assert forall|t: int| 0 <= t < op.len() implies p1[t] == p2[t] by {
            assert(p1[t].0 == op[t].0 && p2[t].0 == op[t].0);
            lemma_value_ignores_order(subs1, subs2, rules[q].0.compartment@, rules[q].0.substance@, op[t].0@, op[t].1);
        }
        assert(p1 =~= p2);
    }
    lemma_emit_each_pointwise(r1, r2, rule_entry_emitter());
}

/// The order of substitutions does not matter: two lists holding the same substitutions that
/// both succeed derive artifacts with the same canonical bytes and the same digest.
pub proof fn lemma_substitution_order_does_not_matter(
    a: ModelArtifact,
    subs1: Seq<RuleParameterSubstitution>,
    subs2: Seq<RuleParameterSubstitution>,
    d1: ModelArtifact,
    d2: ModelArtifact,
)
    requires
        a.wf(),
        same_values(subs1, subs2),
        substitution_outcome(a, subs1, Ok(d1)),
        substitution_outcome(a, subs2, Ok(d2)),
    ensures
        d1.spec_canonical_bytes() == d2.spec_canonical_bytes(),
        d1.spec_digest().spec_bytes() == d2.spec_digest().spec_bytes(),
{
    let rules = a.spec_rules();
    lemma_passing_targets_distinct(rules, subs1, subs1.len() as int);
    lemma_passing_targets_distinct(rules, subs2, subs2.len() as int);
    lemma_reordered_rules_encode_alike(rules, subs1, subs2, d1.spec_rules(), d2.spec_rules());
    assert(d1.artifact_payload() == d2.artifact_payload());
}

/// A list of substitutions passes exactly when each of its substitutions passes its check.
proof fn lemma_no_substitution_error(rules: Seq<(RuleCoordinate, RuleDefinition)>, subs: Seq<RuleParameterSubstitution>, k: int)
    requires
        0 <= k <= subs.len(),
    ensures
        (first_substitution_error(rules, subs, k) is None) <==> (forall|i: int|
            0 <= i < k ==> #[trigger] substitution_check(rules, subs, i) is None),
    decreases k,
{
    if k > 0 {
        lemma_no_substitution_error(rules, subs, k - 1);
    }
}

/// Reordering a list of substitutions that succeeds gives a list that succeeds too, deriving an
/// artifact with the same canonical bytes and the same digest.
pub proof fn lemma_reordered_substitutions_succeed(
    a: ModelArtifact,
    subs1: Seq<RuleParameterSubstitution>,
    subs2: Seq<RuleParameterSubstitution>,
    perm: Seq<int>,
    d1: ModelArtifact,
    r2: Result<ModelArtifact, RuleParameterSubstitutionError>,
)
    requires
        a.wf(),
        reorders(subs1, subs2, perm),
        substitution_outcome(a, subs1, Ok(d1)),
        substitution_outcome(a, subs2, r2),
    ensures
        r2 is Ok,
        r2->Ok_0.spec_canonical_bytes() == d1.spec_canonical_bytes(),
        r2->Ok_0.spec_digest().spec_bytes() == d1.spec_digest().spec_bytes(),
{
    let rules = a.spec_rules();
    let n = subs1.len() as int;
    lemma_passing_targets_distinct(rules, subs1, n);
    lemma_no_substitution_error(rules, subs1, n);
    lemma_no_substitution_error(rules, subs2, n);
    assert forall|i: int| 0 <= i < n implies #[trigger] substitution_check(rules, subs2, i) is None by {
        let pi = perm[i];
        assert(substitution_check(rules, subs1, pi) is None);
        if exists|j: int| 0 <= j < i && same_target(#[trigger] subs2[j], subs2[i]) {
            let j = choose|j: int| 0 <= j < i && same_target(#[trigger] subs2[j], subs2[i]);
            let pj = perm[j];
            assert(pj != pi);
            assert(subs2[j] == subs1[pj] && subs2[i] == subs1[pi]);
            if pj < pi {
                assert(!same_target(subs1[pj], subs1[pi]));
            } else {
                assert(!same_target(subs1[pi], subs1[pj]));
            }
        }
    }
    assert forall|i: int| 0 <= i < n implies #[trigger] listed_value(subs1, subs2[i]) by {
        assert(subs1[perm[i]] == subs2[i]);
    }
    assert forall|j: int| 0 <= j < n implies #[trigger] listed_value(subs2, subs1[j]) by {
        assert(subs1[j] == subs1[j]);
        let i = choose|i: int| 0 <= i < n && #[trigger] perm[i] == j && subs2[i] == subs1[j];
    }
    lemma_passing_targets_distinct(rules, subs2, n);
    match r2 {
        Ok(d2) => {
            lemma_substitution_order_does_not_matter(a, subs1, subs2, d1, d2);
        },
        Err(e) => {
            let derived = choose|derived: Seq<(RuleCoordinate, RuleDefinition)>|
                #[trigger] substituted_rules(derived, a.spec_rules(), subs2, n) && match e@ {
                    SubstitutionErrorModel::CanonicalEncoding { source } => spec_encode(
                        0x0020,
                        content_payload(
                            a.spec_versions(),
                            a.spec_topology(),
                            a.spec_registry(),
                            a.spec_initial_stocks(),
                            a.spec_calendar(),
                            a.spec_horizon(),
                            a.spec_projections(),
                            a.spec_forcings(),
                            a.spec_tables(),
                            derived,
                            a.spec_execution_bindings(),
                            a.spec_units(),
                        ),
                    ) == Err::<Seq<u8>, CanonicalEncodingError>(source),
                    _ => false,
                };
            lemma_reordered_rules_encode_alike(rules, subs1, subs2, d1.spec_rules(), derived);
            assert(content_payload(
                a.spec_versions(),
                a.spec_topology(),
                a.spec_registry(),
                a.spec_initial_stocks(),
                a.spec_calendar(),
                a.spec_horizon(),
                a.spec_projections(),
                a.spec_forcings(),
                a.spec_tables(),
                derived,
                a.spec_execution_bindings(),
                a.spec_units(),
            ) == d1.artifact_payload());
        },
    }
}

/// Rules substituted at one parameter and then substituted back to its original value encode
/// as the rules they started from.
proof fn lemma_back_rules_encode_alike(
    rules: Seq<(RuleCoordinate, RuleDefinition)>,
    mid: Seq<(RuleCoordinate, RuleDefinition)>,
    fin: Seq<(RuleCoordinate, RuleDefinition)>,
    there: RuleParameterSubstitution,
    back: RuleParameterSubstitution,
    q0: int,
    t0: int,
)
    requires
        sorted_keys(rules),
        forall|q: int| 0 <= q < rules.len() ==> (#[trigger] rules[q]).1.wf(),
        same_target(there, back),
        0 <= q0 < rules.len(),
        0 <= t0 < rules[q0].1.spec_parameters().len(),
        rules[q0].0.compartment@ == back.compartment@,
        rules[q0].0.substance@ == back.substance@,
        rules[q0].1.spec_parameters()[t0].0@ == back.parameter@,
        rules[q0].1.spec_parameters()[t0].1 == back.value_bits,
        substituted_rules(mid, rules, seq![there], 1),
        substituted_rules(fin, mid, seq![back], 1),
    ensures
        fin.len() == rules.len(),
        emit_each(fin, rule_entry_emitter()) == emit_each(rules, rule_entry_emitter()),
{
    let s1 = seq![there];
    let s2 = seq![back];
    reveal(substituted_rules);
    assert forall|q: int| 0 <= q < fin.len() implies rule_entry_emitter()(#[trigger] fin[q]) == rule_entry_emitter()(rules[q]) by {
        assert(same_rule_but_values(mid[q], rules[q], s1, 1));
        assert(same_rule_but_values(fin[q], mid[q], s2, 1));
        let op = rules[q].1.spec_parameters();
        let fp = fin[q].1.spec_parameters();
        let mp = mid[q].1.spec_parameters();
        let c = rules[q].0.compartment@;
        let sb = rules[q].0.substance@;
        assert forall|t: int| 0 <= t < op.len() implies fp[t] == op[t] by {
            assert(mp[t].0 == op[t].0 && fp[t].0 == mp[t].0);
            let pid = op[t].0@;
            assert(s1[0] == there && s2[0] == back);
            if c == back.compartment@ && sb == back.substance@ && pid == back.parameter@ {
                if q != q0 {
                    crate::canonical_map::lemma_sorted_keys_distinct(rules, q, q0);
                    assert(rules[q].0.key() =~= rules[q0].0.key());
                }
                assert(rules[q].1.wf());
                if t != t0 {
                    crate::canonical_map::lemma_sorted_keys_distinct(op, t, t0);
                    assert(op[t].0.key() =~= op[t0].0.key());
                }
                assert(substituted_value(s2, 1, c, sb, pid, mp[t].1) == back.value_bits);
            } else {
                assert(!(there.compartment@ == c && there.substance@ == sb && there.parameter@ == pid));
                assert(substituted_value(s1, 1, c, sb, pid, op[t].1) == op[t].1);
                assert(substituted_value(s2, 1, c, sb, pid, mp[t].1) == mp[t].1);
            }
        }
        assert(fp =~= op);
    }
    lemma_emit_each_pointwise(fin, rules, rule_entry_emitter());
}

/// Substituting back the original value of a parameter of substituted rules passes its check.
proof fn lemma_back_passes(
    rules: Seq<(RuleCoordinate, RuleDefinition)>,
    mid: Seq<(RuleCoordinate, RuleDefinition)>,
    there: RuleParameterSubstitution,
    back: RuleParameterSubstitution,
    q0: int,
    t0: int,
)
    requires
        sorted_keys(rules),
        forall|q: int| 0 <= q < rules.len() ==> (#[trigger] rules[q]).1.wf(),
        0 <= q0 < rules.len(),
        0 <= t0 < rules[q0].1.spec_parameters().len(),
        rules[q0].0.compartment@ == back.compartment@,
        rules[q0].0.substance@ == back.substance@,
        rules[q0].1.spec_parameters()[t0].0@ == back.parameter@,
        rules[q0].1.spec_parameters()[t0].1 == back.value_bits,
        substituted_rules(mid, rules, seq![there], 1),
    ensures
        first_substitution_error(mid, seq![back], 1) is None,
{
    let s1 = seq![there];
    let s2 = seq![back];
    reveal(substituted_rules);
    assert(same_rule_but_values(mid[q0], rules[q0], s1, 1));
    lemma_substituted_sorted(mid, rules, s1, 1);
    lemma_coordinate_key(mid[q0].0, back.compartment@, back.substance@);
    lemma_entry_at(mid, q0, back.compartment@, back.substance@);
    assert(rules[q0].1.wf());
    assert(finite_bits(rules[q0].1.spec_parameters()[t0].1));
    assert(mid[q0].1.spec_parameters()[t0].0 == rules[q0].1.spec_parameters()[t0].0);
    assert(id_keys(mid[q0].1.spec_parameters()).contains(back.parameter@));
    assert(s2[0] == back);
    assert(substitution_check(mid, s2, 0) is None);
    assert(first_substitution_error(mid, s2, 0) is None);
}

/// Substituting a parameter and then substituting back its original value restores the
/// artifact's identity: once the first derivation succeeds, the second succeeds too, and its
/// artifact has the canonical bytes and the digest of the first.
#[verifier::spinoff_prover]
pub proof fn lemma_substituting_back_restores_identity(
    a: ModelArtifact,
    there: RuleParameterSubstitution,
    back: RuleParameterSubstitution,
    d: ModelArtifact,
    r: Result<ModelArtifact, RuleParameterSubstitutionError>,
)
    requires
        a.wf(),
        same_target(there, back),
        exists|q: int, t: int|
            0 <= q < a.spec_rules().len() && 0 <= t < a.spec_rules()[q].1.spec_parameters().len()
                && #[trigger] a.spec_rules()[q].0.compartment@ == back.compartment@ && a.spec_rules()[q].0.substance@
                == back.substance@ && #[trigger] a.spec_rules()[q].1.spec_parameters()[t].0@ == back.parameter@
                && a.spec_rules()[q].1.spec_parameters()[t].1 == back.value_bits,
        substitution_outcome(a, seq![there], Ok(d)),
        substitution_outcome(d, seq![back], r),
    ensures
        r is Ok,
        r->Ok_0.spec_canonical_bytes() == a.spec_canonical_bytes(),
        r->Ok_0.spec_digest().spec_bytes() == a.spec_digest().spec_bytes(),
{
    let rules = a.spec_rules();
    let mid = d.spec_rules();
    let s1 = seq![there];
    let s2 = seq![back];
    a.lemma_rules_wf();
    let (q0, t0) = choose|q: int, t: int|
        0 <= q < a.spec_rules().len() && 0 <= t < a.spec_rules()[q].1.spec_parameters().len()
            && #[trigger] a.spec_rules()[q].0.compartment@ == back.compartment@ && a.spec_rules()[q].0.substance@
            == back.substance@ && #[trigger] a.spec_rules()[q].1.spec_parameters()[t].0@ == back.parameter@
            && a.spec_rules()[q].1.spec_parameters()[t].1 == back.value_bits;
    lemma_back_passes(rules, mid, there, back, q0, t0);
    match r {
        Ok(e) => {
            lemma_back_rules_encode_alike(rules, mid, e.spec_rules(), there, back, q0, t0);
            assert(e.artifact_payload() == a.artifact_payload());
        },
        Err(err) => {
            let derived = choose|derived: Seq<(RuleCoordinate, RuleDefinition)>|
                #[trigger] substituted_rules(derived, d.spec_rules(), s2, 1) && match err@ {
                    SubstitutionErrorModel::CanonicalEncoding { source } => spec_encode(
                        0x0020,
                        content_payload(
                            d.spec_versions(),
                            d.spec_topology(),
                            d.spec_registry(),
                            d.spec_initial_stocks(),
                            d.spec_calendar(),
                            d.spec_horizon(),
                            d.spec_projections(),
                            d.spec_forcings(),
                            d.spec_tables(),
                            derived,
                            d.spec_execution_bindings(),
                            d.spec_units(),
                        ),
                    ) == Err::<Seq<u8>, CanonicalEncodingError>(source),
                    _ => false,
                };
            lemma_back_rules_encode_alike(rules, mid, derived, there, back, q0, t0);
            assert(content_payload(
                d.spec_versions(),
                d.spec_topology(),
                d.spec_registry(),
                d.spec_initial_stocks(),
                d.spec_calendar(),
                d.spec_horizon(),
                d.spec_projections(),
                d.spec_forcings(),
                d.spec_tables(),
                derived,
                d.spec_execution_bindings(),
                d.spec_units(),
            ) == a.artifact_payload());
        },
    }
}

impl ModelArtifact {
    /// Derives an artifact by replacing declared rule parameters and recomputing its identity.
    ///
    /// The source artifact is never changed. This is the only supported substitution: forcings,
    /// topology, initial stocks, calendar and every other component are carried over as they
    /// are. Substitutions are checked in order: the first that repeats a target, names no
    /// rule, carries a non-finite value or names an undeclared parameter is reported. A finite
    /// replacement is stored as the bit pattern given, as `RuleDefinition::new` stores values.
    #[verifier::rlimit(100)]
    pub fn with_rule_parameter_substitutions(&self, substitutions: Vec<RuleParameterSubstitution>) -> (r: Result<
        ModelArtifact,
        RuleParameterSubstitutionError,
    >)
        requires
            self.wf(),
        ensures
            substitution_outcome(*self, substitutions@, r),
    {
        let ghost subs = substitutions@;
        let ghost n = subs.len() as int;
        let rules = self.rules();
        proof {
            self.lemma_rules_wf();
        }
        let derived = match apply_substitutions(rules, &substitutions) {
            Err(e) => {
                return Err(e);
            },
            Ok(d) => d,
        };
        proof {
            lemma_substituted_sorted(derived@, rules@, subs, n);
        }
        let ghost d = derived@;
        let map = CanonicalMap::from_sorted(derived);
        match self.derive_with_rules(map) {
            Ok(a) => Ok(a),
            Err(e) => {
                proof {
                    assert(substituted_rules(d, self.spec_rules(), subs, n));
                }
                Err(RuleParameterSubstitutionError::CanonicalEncoding { source: e })
            },
        }
    }
}

} // verus!
