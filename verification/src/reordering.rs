//! The checks on a builder's authored lists do not depend on the order in which the lists were
//! given.

use vstd::prelude::*;
use crate::artifact::{content_payload, ModelArtifact};
use crate::artifact_builder::{
    arranges, build_outcome, early_outcome, final_holds, forcing_check, forcing_id, forcing_key, ids_of, keyed_by,
    late_holds, lemma_arrangement_values, lemma_canonical_order_ignores_listing_order, lemma_first_error_all_ok,
    listed_value, positions, reorders, repeats_key, rule_check, rule_coordinate, rule_key, table_check, table_id,
    table_key, unit_check, unit_key, unit_substance, ModelArtifactBuilder, QuantumCount,
};
use crate::artifact_error::ModelArtifactError;
use crate::identity::{CanonicalKey, RuleCoordinate};
use crate::artifact_error::ArtifactErrorModel;
use crate::binding_validation::first_error;
use crate::forcing::ForcingSeries;
use crate::identity::Ident;
use crate::interpolation_table::InterpolationTable;
use crate::model_artifact::{ModelVersions, RuleDefinition, SubstanceUnit};
use crate::projection::ProjectionSpec;
use crate::substance_registry::SubstanceRegistry;
use crate::temporal::RunHorizon;
use crate::topology::Topology;
use crate::versions::NumericalSemanticsVersion;

verus! {

/// A sequence of checks passes when each of its checks passes.
pub proof fn lemma_first_error_passes<T>(s: Seq<T>, check: spec_fn(T) -> Result<(), ArtifactErrorModel>)
    requires
        forall|i: int| 0 <= i < s.len() ==> (#[trigger] check(s[i])) is Ok,
    ensures
        first_error(s, check) is Ok,
    decreases s.len(),
{
    if s.len() > 0 {
        let t = s.drop_last();
        assert forall|i: int| 0 <= i < t.len() implies (#[trigger] check(t[i])) is Ok by {
            assert(t[i] == s[i]);
        }
        lemma_first_error_passes(t, check);
        assert(check(s[s.len() - 1]) is Ok);
    }
}

/// Checks over the positions `0..n` pass exactly when the check at each position passes.
pub proof fn lemma_positions_pass(n: nat, check: spec_fn(int) -> Result<(), ArtifactErrorModel>)
    ensures
        (first_error(positions(n), check) is Ok) <==> (forall|i: int| 0 <= i < n ==> (#[trigger] check(i)) is Ok),
{
    let ps = positions(n);
    if first_error(ps, check) is Ok {
        assert forall|i: int| 0 <= i < n implies (#[trigger] check(i)) is Ok by {
            lemma_first_error_all_ok(ps, check, i);
            assert(ps[i] == i);
        }
    }
    if forall|i: int| 0 <= i < n ==> (#[trigger] check(i)) is Ok {
        assert forall|i: int| 0 <= i < ps.len() implies (#[trigger] check(ps[i])) is Ok by {
            assert(ps[i] == i);
        }
        lemma_first_error_passes(ps, check);
    }
}

/// Reordering a list whose values have distinct keys keeps them distinct.
pub proof fn lemma_reordered_keys_distinct<V>(src1: Seq<V>, src2: Seq<V>, perm: Seq<int>, key: spec_fn(V) -> Seq<Seq<u8>>)
    requires
        reorders(src1, src2, perm),
        forall|j: int| 0 <= j < src1.len() ==> !#[trigger] repeats_key(src1, key, j),
    ensures
        forall|i: int| 0 <= i < src2.len() ==> !#[trigger] repeats_key(src2, key, i),
{
    assert forall|i: int| 0 <= i < src2.len() implies !#[trigger] repeats_key(src2, key, i) by {
        if repeats_key(src2, key, i) {
            let j = choose|j: int| 0 <= j < i && key(#[trigger] src2[j]) == key(src2[i]);
            let pi = perm[i];
            let pj = perm[j];
            assert(pi != pj);
            assert(src2[i] == src1[pi] && src2[j] == src1[pj]);
            if pj < pi {
                assert(key(src1[pj]) == key(src1[pi]));
                assert(repeats_key(src1, key, pi));
            } else {
                assert(key(src1[pi]) == key(src1[pj]));
                assert(repeats_key(src1, key, pj));
            }
        }
    }
}

/// A reordered list keys the same identities.
pub proof fn lemma_reordered_ids<V>(src1: Seq<V>, src2: Seq<V>, perm: Seq<int>, key: spec_fn(V) -> Seq<Seq<u8>>)
    requires
        reorders(src1, src2, perm),
    ensures
        ids_of(src1, key) == ids_of(src2, key),
{
    assert forall|x: Seq<u8>| ids_of(src1, key).contains(x) <==> ids_of(src2, key).contains(x) by {
        if ids_of(src1, key).contains(x) {
            let j = choose|j: int| 0 <= j < src1.len() && key(#[trigger] src1[j]) == seq![x];
            let i = choose|i: int| 0 <= i < src2.len() && #[trigger] perm[i] == j && src2[i] == #[trigger] src1[j];
            assert(key(src2[i]) == seq![x]);
        }
        if ids_of(src2, key).contains(x) {
            let i = choose|i: int| 0 <= i < src2.len() && key(#[trigger] src2[i]) == seq![x];
            assert(src2[i] == src1[perm[i]]);
            assert(key(src1[perm[i]]) == seq![x]);
        }
    }
    assert(ids_of(src1, key) =~= ids_of(src2, key));
}

proof fn lemma_reordered_forcings_pass(fs1: Seq<ForcingSeries>, fs2: Seq<ForcingSeries>, perm: Seq<int>, h: RunHorizon)
    requires
        reorders(fs1, fs2, perm),
        first_error(positions(fs1.len()), forcing_check(fs1, h)) is Ok,
    ensures
        first_error(positions(fs2.len()), forcing_check(fs2, h)) is Ok,
{
    lemma_positions_pass(fs1.len(), forcing_check(fs1, h));
    lemma_positions_pass(fs2.len(), forcing_check(fs2, h));
    assert forall|j: int| 0 <= j < fs1.len() implies !#[trigger] repeats_key(fs1, forcing_key(), j) by {
        assert(forcing_check(fs1, h)(j) is Ok);
    }
    lemma_reordered_keys_distinct(fs1, fs2, perm, forcing_key());
    assert forall|i: int| 0 <= i < fs2.len() implies (#[trigger] forcing_check(fs2, h)(i)) is Ok by {
        assert(forcing_check(fs1, h)(perm[i]) is Ok);
        assert(fs2[i] == fs1[perm[i]]);
        assert(!repeats_key(fs2, forcing_key(), i));
    }
}

proof fn lemma_reordered_tables_pass(
    ts1: Seq<InterpolationTable>,
    ts2: Seq<InterpolationTable>,
    perm: Seq<int>,
    v: NumericalSemanticsVersion,
)
    requires
        reorders(ts1, ts2, perm),
        first_error(positions(ts1.len()), table_check(ts1, v)) is Ok,
    ensures
        first_error(positions(ts2.len()), table_check(ts2, v)) is Ok,
{
    lemma_positions_pass(ts1.len(), table_check(ts1, v));
    lemma_positions_pass(ts2.len(), table_check(ts2, v));
    assert forall|j: int| 0 <= j < ts1.len() implies !#[trigger] repeats_key(ts1, table_key(), j) by {
        assert(table_check(ts1, v)(j) is Ok);
    }
    lemma_reordered_keys_distinct(ts1, ts2, perm, table_key());
    assert forall|i: int| 0 <= i < ts2.len() implies (#[trigger] table_check(ts2, v)(i)) is Ok by {
        assert(table_check(ts1, v)(perm[i]) is Ok);
        assert(ts2[i] == ts1[perm[i]]);
        assert(!repeats_key(ts2, table_key(), i));
    }
}

proof fn lemma_reordered_rules_pass(
    rs1: Seq<RuleDefinition>,
    rs2: Seq<RuleDefinition>,
    perm: Seq<int>,
    topology: Topology,
    registry: SubstanceRegistry,
    versions: ModelVersions,
    forcing_ids: Set<Seq<u8>>,
    table_ids: Set<Seq<u8>>,
    specs: Seq<ProjectionSpec>,
)
    requires
        reorders(rs1, rs2, perm),
        first_error(
            positions(rs1.len()),
            rule_check(rs1, topology, registry, versions, forcing_ids, table_ids, specs),
        ) is Ok,
    ensures
        first_error(
            positions(rs2.len()),
            rule_check(rs2, topology, registry, versions, forcing_ids, table_ids, specs),
        ) is Ok,
{
    let c1 = rule_check(rs1, topology, registry, versions, forcing_ids, table_ids, specs);
    let c2 = rule_check(rs2, topology, registry, versions, forcing_ids, table_ids, specs);
    lemma_positions_pass(rs1.len(), c1);
    lemma_positions_pass(rs2.len(), c2);
    assert forall|j: int| 0 <= j < rs1.len() implies !#[trigger] repeats_key(rs1, rule_key(), j) by {
        assert(c1(j) is Ok);
    }
    lemma_reordered_keys_distinct(rs1, rs2, perm, rule_key());
    assert forall|i: int| 0 <= i < rs2.len() implies (#[trigger] c2(i)) is Ok by {
        assert(c1(perm[i]) is Ok);
        assert(rs2[i] == rs1[perm[i]]);
        assert(!repeats_key(rs2, rule_key(), i));
    }
}

proof fn lemma_reordered_units_pass(
    us1: Seq<(Ident, SubstanceUnit)>,
    us2: Seq<(Ident, SubstanceUnit)>,
    perm: Seq<int>,
    registry: SubstanceRegistry,
)
    requires
        reorders(us1, us2, perm),
        first_error(positions(us1.len()), unit_check(us1, registry)) is Ok,
    ensures
        first_error(positions(us2.len()), unit_check(us2, registry)) is Ok,
{
    lemma_positions_pass(us1.len(), unit_check(us1, registry));
    lemma_positions_pass(us2.len(), unit_check(us2, registry));
    assert forall|j: int| 0 <= j < us1.len() implies !#[trigger] repeats_key(us1, unit_key(), j) by {
        assert(unit_check(us1, registry)(j) is Ok);
    }
    lemma_reordered_keys_distinct(us1, us2, perm, unit_key());
    assert forall|i: int| 0 <= i < us2.len() implies (#[trigger] unit_check(us2, registry)(i)) is Ok by {
        assert(unit_check(us1, registry)(perm[i]) is Ok);
        assert(us2[i] == us1[perm[i]]);
        assert(!repeats_key(us2, unit_key(), i));
    }
}

/// The checks on a builder's authored lists do not depend on the order of the lists. Take a
/// builder whose forcings, tables, rules and unit declarations are reorderings of those of
/// another, with the same other components. When the first passes every check made before its
/// execution bindings are looked at, so does the second; when the first's unit declarations
/// pass their checks, so do the second's.
pub proof fn lemma_reordered_lists_pass_checks(
    b1: ModelArtifactBuilder,
    b2: ModelArtifactBuilder,
    pf: Seq<int>,
    pt: Seq<int>,
    pr: Seq<int>,
    pu: Seq<int>,
)
    requires
        b2.spec_topology() == b1.spec_topology(),
        b2.spec_registry() == b1.spec_registry(),
        b2.spec_initial_stocks() == b1.spec_initial_stocks(),
        b2.spec_projections() == b1.spec_projections(),
        b2.spec_horizon() == b1.spec_horizon(),
        b2.spec_versions() == b1.spec_versions(),
        reorders(b1.spec_forcings(), b2.spec_forcings(), pf),
        reorders(b1.spec_tables(), b2.spec_tables(), pt),
        reorders(b1.spec_rules(), b2.spec_rules(), pr),
        reorders(b1.spec_units(), b2.spec_units(), pu),
    ensures
        early_outcome(b1) is Ok ==> early_outcome(b2) is Ok,
        first_error(positions(b1.spec_units().len()), unit_check(b1.spec_units(), b1.spec_registry())) is Ok
            ==> first_error(positions(b2.spec_units().len()), unit_check(b2.spec_units(), b2.spec_registry())) is Ok,
{
    if first_error(positions(b1.spec_units().len()), unit_check(b1.spec_units(), b1.spec_registry())) is Ok {
        lemma_reordered_units_pass(b1.spec_units(), b2.spec_units(), pu, b1.spec_registry());
    }
    if early_outcome(b1) is Ok {
        let p = b1.spec_projections()->Some_0;
        lemma_reordered_forcings_pass(b1.spec_forcings(), b2.spec_forcings(), pf, b1.spec_horizon());
        lemma_reordered_tables_pass(
            b1.spec_tables(),
            b2.spec_tables(),
            pt,
            b1.spec_versions().spec_numerical_semantics(),
        );
        lemma_reordered_ids(b1.spec_forcings(), b2.spec_forcings(), pf, forcing_key());
        lemma_reordered_ids(b1.spec_tables(), b2.spec_tables(), pt, table_key());
        lemma_reordered_rules_pass(
            b1.spec_rules(),
            b2.spec_rules(),
            pr,
            b1.spec_topology(),
            b1.spec_registry(),
            b1.spec_versions(),
            ids_of(b1.spec_forcings(), forcing_key()),
            ids_of(b1.spec_tables(), table_key()),
            p.specifications@,
        );
    }
}

/// Arrangements of two lists that reorder each other, each entry keyed by its value, are the
/// same arrangement.
pub proof fn lemma_reordered_arrangements_equal<K: CanonicalKey, V>(
    m1: Seq<(K, V)>,
    m2: Seq<(K, V)>,
    src1: Seq<V>,
    src2: Seq<V>,
    perm: Seq<int>,
    key: spec_fn(V) -> Seq<Seq<u8>>,
    keyof: spec_fn(V) -> K,
)
    requires
        arranges(m1, src1, key),
        arranges(m2, src2, key),
        keyed_by(m1, keyof),
        keyed_by(m2, keyof),
        reorders(src1, src2, perm),
    ensures
        m1 == m2,
{
    let o1 = m1.map_values(|e: (K, V)| e.1);
    let o2 = m2.map_values(|e: (K, V)| e.1);
    lemma_arrangement_values(m1, o1, src1, key);
    lemma_arrangement_values(m2, o2, src2, key);
    assert forall|i: int| 0 <= i < src1.len() implies #[trigger] listed_value(src2, src1[i]) by {
        let j = choose|j: int| 0 <= j < src2.len() && #[trigger] perm[j] == i && src2[j] == #[trigger] src1[i];
    }
    assert forall|j: int| 0 <= j < src2.len() implies #[trigger] listed_value(src1, src2[j]) by {
        assert(src2[j] == src1[perm[j]]);
    }
    lemma_canonical_order_ignores_listing_order(o1, o2, src1, src2, key);
    assert forall|p: int| 0 <= p < m1.len() implies m1[p] == m2[p] by {
        assert(o1[p] == m1[p].1 && o2[p] == m2[p].1);
    }
    assert(m1 =~= m2);
}

/// The identity of a built artifact does not depend on the order in which its forcings, tables,
/// rules and unit declarations were authored, and neither does whether it builds. Take a
/// builder whose forcings, tables, rules and unit declarations are reorderings of those of
/// another, with the same other components and the same initial counts. When the first builds,
/// the second builds too, and its artifact has the same canonical bytes and the same digest.
#[verifier::spinoff_prover]
#[verifier::rlimit(80)]
pub proof fn lemma_reordered_builder_builds(
    b1: ModelArtifactBuilder,
    b2: ModelArtifactBuilder,
    counts: Seq<Seq<QuantumCount>>,
    pf: Seq<int>,
    pt: Seq<int>,
    pr: Seq<int>,
    pu: Seq<int>,
    a1: ModelArtifact,
    r2: Result<ModelArtifact, ModelArtifactError>,
)
    requires
        b2.spec_topology() == b1.spec_topology(),
        b2.spec_registry() == b1.spec_registry(),
        b2.spec_initial_stocks() == b1.spec_initial_stocks(),
        b2.spec_calendar() == b1.spec_calendar(),
        b2.spec_horizon() == b1.spec_horizon(),
        b2.spec_projections() == b1.spec_projections(),
        b2.spec_execution_bindings() == b1.spec_execution_bindings(),
        b2.spec_versions() == b1.spec_versions(),
        reorders(b1.spec_forcings(), b2.spec_forcings(), pf),
        reorders(b1.spec_tables(), b2.spec_tables(), pt),
        reorders(b1.spec_rules(), b2.spec_rules(), pr),
        reorders(b1.spec_units(), b2.spec_units(), pu),
        build_outcome(b1, counts, Ok(a1)),
        build_outcome(b2, counts, r2),
    ensures
        r2 is Ok,
        r2->Ok_0.spec_canonical_bytes() == a1.spec_canonical_bytes(),
        r2->Ok_0.spec_digest().spec_bytes() == a1.spec_digest().spec_bytes(),
{
    lemma_reordered_lists_pass_checks(b1, b2, pf, pt, pr, pu);
    assert(early_outcome(b1) is Ok);
    assert(early_outcome(b2) is Ok);
    let p = b1.spec_projections()->Some_0;
    let (fm1, tm1, m1) = choose|
        fm: Seq<(Ident, ForcingSeries)>,
        tm: Seq<(Ident, InterpolationTable)>,
        m: Seq<(RuleCoordinate, RuleDefinition)>,
    |
        arranges(fm, b1.spec_forcings(), forcing_key()) && keyed_by(fm, forcing_id()) && arranges(
            tm,
            b1.spec_tables(),
            table_key(),
        ) && keyed_by(tm, table_id()) && arranges(m, b1.spec_rules(), rule_key()) && keyed_by(m, rule_coordinate())
            && #[trigger] late_holds(b1, p, fm, tm, m, counts, Ok(a1));
    let (fm2, tm2, m2) = choose|
        fm: Seq<(Ident, ForcingSeries)>,
        tm: Seq<(Ident, InterpolationTable)>,
        m: Seq<(RuleCoordinate, RuleDefinition)>,
    |
        arranges(fm, b2.spec_forcings(), forcing_key()) && keyed_by(fm, forcing_id()) && arranges(
            tm,
            b2.spec_tables(),
            table_key(),
        ) && keyed_by(tm, table_id()) && arranges(m, b2.spec_rules(), rule_key()) && keyed_by(m, rule_coordinate())
            && #[trigger] late_holds(b2, p, fm, tm, m, counts, r2);
    lemma_reordered_arrangements_equal(fm1, fm2, b1.spec_forcings(), b2.spec_forcings(), pf, forcing_key(), forcing_id());
    lemma_reordered_arrangements_equal(tm1, tm2, b1.spec_tables(), b2.spec_tables(), pt, table_key(), table_id());
    lemma_reordered_arrangements_equal(m1, m2, b1.spec_rules(), b2.spec_rules(), pr, rule_key(), rule_coordinate());
    lemma_reordered_ids(b1.spec_forcings(), b2.spec_forcings(), pf, forcing_key());
    lemma_reordered_ids(b1.spec_tables(), b2.spec_tables(), pt, table_key());
    assert(late_holds(b1, p, fm1, tm1, m1, counts, Ok(a1)));
    assert(late_holds(b2, p, fm1, tm1, m1, counts, r2));
    let um1 = choose|um: Seq<(Ident, (Ident, SubstanceUnit))>|
        arranges(um, b1.spec_units(), unit_key()) && keyed_by(um, unit_substance()) && #[trigger] final_holds(
            b1,
            p,
            fm1,
            tm1,
            m1,
            um,
            counts,
            Ok(a1),
        );
    let um2 = choose|um: Seq<(Ident, (Ident, SubstanceUnit))>|
        arranges(um, b2.spec_units(), unit_key()) && keyed_by(um, unit_substance()) && #[trigger] final_holds(
            b2,
            p,
            fm1,
            tm1,
            m1,
            um,
            counts,
            r2,
        );
    lemma_reordered_arrangements_equal(um1, um2, b1.spec_units(), b2.spec_units(), pu, unit_key(), unit_substance());
    assert(final_holds(b1, p, fm1, tm1, m1, um1, counts, Ok(a1)));
    assert(final_holds(b2, p, fm1, tm1, m1, um1, counts, r2));
    match r2 {
        Ok(a2) => {
            assert(a2.artifact_payload() == a1.artifact_payload());
        },
        Err(x) => {
            assert(content_payload(
                b2.spec_versions(),
                b2.spec_topology(),
                b2.spec_registry(),
                b2.spec_initial_stocks(),
                b2.spec_calendar(),
                b2.spec_horizon(),
                p,
                fm1,
                tm1,
                m1,
                b2.spec_execution_bindings(),
                um1,
            ) == a1.artifact_payload());
        },
    }
}

} // verus!
