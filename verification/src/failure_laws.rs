//! What a refused build reports is so of the builder: a missing reference is missing, an
//! unbound branch is unbound, and a rule refused for sitting at a boundary sits there.

use vstd::prelude::*;
use crate::artifact::ModelArtifact;
use crate::artifact_builder::{
    arranges, build_outcome, count_check, early_outcome, fails_with, final_holds, forcing_check, forcing_id,
    forcing_key, graph_orders, ids_of, keyed_by, late_holds, positions, projection_check, rule_check,
    rule_coordinate, rule_key, stock_total, table_check, table_id, table_key, unit_check, unit_key, unit_substance,
    ModelArtifactBuilder, QuantumCount,
};
use crate::artifact_error::{ArtifactErrorModel, InputSourceKind, ModelArtifactError};
use crate::binding_validation::{
    binding_stages_outcome, branch_outcome, carrier_branch_check, carrier_check, first_error, input_check,
    input_known, input_source_outcome, rule_binding_check, transfer_known,
};
use crate::execution_bindings::{binds_input, binds_transfer, bound_destination, bound_input, transfer_matches, ExecutionBindings};
use crate::forcing::ForcingSeries;
use crate::identity::{Ident, RuleCoordinate};
use crate::interpolation_table::InterpolationTable;
use crate::model_artifact::{RuleDefinition, SubstanceUnit};
use crate::projection::{ProjectionSpec, ProjectionSpecView};
use crate::projection_validation::{recurrence_input_check, selector_outcome, selectors_outcome, source_outcome};
use crate::reference_validation::{missing_from, rule_reference_outcome};
use crate::rule_references::{first_failing, rule_inputs, rule_refs, RefKind};
use crate::substance_registry::CompartmentStock;
use crate::topology::Topology;

verus! {

/// Whether error `e` reports something that holds of builder `b`: a rule refused for sitting at
/// a boundary account sits at an identity that names no finite compartment; a missing forcing,
/// or the forcing or table a rule input is bound to, is not in the builder's catalogue; a
/// missing transfer binding is not among the builder's bindings; a carrier destination mismatch
/// names two different destinations, the first bound to the dependent's branch; a projection
/// fact substance reported unknown is not in the registry.
pub open spec fn reported_genuinely(b: ModelArtifactBuilder, e: ArtifactErrorModel) -> bool {
    let forcings = b.spec_forcings();
    let tables = b.spec_tables();
    let endpoints = b.spec_topology().endpoints@;
    let ts = b.spec_execution_bindings().transfer_bindings@;
    match e {
        ArtifactErrorModel::BoundaryAccountRule { account } => {
            &&& exists|i: int| 0 <= i < b.spec_rules().len() && (#[trigger] b.spec_rules()[i]).spec_compartment()@ == account
            &&& !exists|k: int| 0 <= k < endpoints.len() && (#[trigger] endpoints[k]).spec_id() == account && endpoints[k] is Finite
        },
        ArtifactErrorModel::MissingRuleForcing { forcing, .. } => !exists|j: int|
            0 <= j < forcings.len() && (#[trigger] forcings[j]).id@ == forcing,
        ArtifactErrorModel::MissingRuleInputSource { source_kind, source_identity, .. } => {
            &&& source_kind == InputSourceKind::Forcing ==> !exists|j: int|
                0 <= j < forcings.len() && (#[trigger] forcings[j]).id@ == source_identity
            &&& source_kind == InputSourceKind::InterpolationTable ==> !exists|j: int|
                0 <= j < tables.len() && (#[trigger] tables[j]).id@ == source_identity
        },
        ArtifactErrorModel::MissingTransferBranchBinding { compartment, substance, branch } => !exists|t: int|
            0 <= t < ts.len() && #[trigger] transfer_matches(ts[t], compartment, substance, branch),
        ArtifactErrorModel::CarrierDestinationMismatch { compartment, substance, branch, destination, carrier_destination } => {
            &&& destination != carrier_destination
            &&& exists|t: int|
                0 <= t < ts.len() && #[trigger] transfer_matches(ts[t], compartment, substance, branch)
                    && ts[t].destination@ == destination
            &&& carrier_branch_goes_to(b, compartment, substance, branch, carrier_destination)
        },
        ArtifactErrorModel::UnknownProjectionFactSubstance { substance, .. } => !exists|k: int|
            0 <= k < b.spec_registry().members@.len() && (#[trigger] b.spec_registry().members@[k])@ == substance,
        _ => true,
    }
}

/// Whether the rule of `b` at (`c`, `s`) is carrier-proportional with a mapping of `branch`
/// whose carrier branch the carrier is bound at, to destination `d`.
pub open spec fn carrier_branch_goes_to(b: ModelArtifactBuilder, c: Seq<u8>, s: Seq<u8>, branch: Seq<u8>, d: Seq<u8>) -> bool {
    let rules = b.spec_rules();
    let ts = b.spec_execution_bindings().transfer_bindings@;
    exists|i: int, k: int|
        0 <= i < rules.len() && rules[i].spec_compartment()@ == c && rules[i].spec_substance()@ == s
            && rules[i].spec_disposition().view is CarrierProportional && 0 <= k
            < rules[i].spec_disposition().view->CarrierProportional_branches@.len()
            && (#[trigger] rules[i].spec_disposition().view->CarrierProportional_branches@[k]).branch@ == branch
            && exists|t: int|
            0 <= t < ts.len() && #[trigger] transfer_matches(
                ts[t],
                c,
                rules[i].spec_disposition().view->CarrierProportional_carrier@,
                rules[i].spec_disposition().view->CarrierProportional_branches@[k].carrier_branch@,
            ) && ts[t].destination@ == d
}

/// A failing sequence of checks fails with the error of one of its checks.
proof fn lemma_first_error_witness<T>(s: Seq<T>, check: spec_fn(T) -> Result<(), ArtifactErrorModel>) -> (i: int)
    requires
        first_error(s, check) is Err,
    ensures
        0 <= i < s.len(),
        check(s[i]) == first_error(s, check),
    decreases s.len(),
{
    let t = s.drop_last();
    if first_error(t, check) is Err {
        let j = lemma_first_error_witness(t, check);
        assert(t[j] == s[j]);
        j
    } else {
        (s.len() - 1) as int
    }
}

/// A failing check over positions fails with the error of the check at one position.
proof fn lemma_position_witness(n: nat, check: spec_fn(int) -> Result<(), ArtifactErrorModel>) -> (i: int)
    requires
        first_error(positions(n), check) is Err,
    ensures
        0 <= i < n,
        check(i) == first_error(positions(n), check),
{
    let i = lemma_first_error_witness(positions(n), check);
    assert(positions(n)[i] == i);
    i
}

/// An identity absent from the identities of a list is the identity of none of its values.
proof fn lemma_absent_forcing(forcings: Seq<ForcingSeries>, x: Seq<u8>)
    requires
        !ids_of(forcings, forcing_key()).contains(x),
    ensures
        !exists|j: int| 0 <= j < forcings.len() && (#[trigger] forcings[j]).id@ == x,
{
    if exists|j: int| 0 <= j < forcings.len() && (#[trigger] forcings[j]).id@ == x {
        let j = choose|j: int| 0 <= j < forcings.len() && (#[trigger] forcings[j]).id@ == x;
        assert(forcing_key()(forcings[j]) == seq![x]);
    }
}

proof fn lemma_absent_table(tables: Seq<InterpolationTable>, x: Seq<u8>)
    requires
        !ids_of(tables, table_key()).contains(x),
    ensures
        !exists|j: int| 0 <= j < tables.len() && (#[trigger] tables[j]).id@ == x,
{
    if exists|j: int| 0 <= j < tables.len() && (#[trigger] tables[j]).id@ == x {
        let j = choose|j: int| 0 <= j < tables.len() && (#[trigger] tables[j]).id@ == x;
        assert(table_key()(tables[j]) == seq![x]);
    }
}

/// A stock total fails only on an ambiguous or misaligned initial stock.
proof fn lemma_stock_total_errors(stocks: Seq<CompartmentStock>, counts: Seq<Seq<QuantumCount>>, s: Seq<u8>, q: u64, k: int)
    ensures
        stock_total(stocks, counts, s, q, k) is Err ==> stock_total(stocks, counts, s, q, k)->Err_0 is AmbiguousInitialStock
            || stock_total(stocks, counts, s, q, k)->Err_0 is MisalignedInitialStock,
    decreases k,
{
    if k > 0 {
        lemma_stock_total_errors(stocks, counts, s, q, k - 1);
    }
}

/// The checks made before execution bindings are looked at report only what holds.
#[verifier::rlimit(50)]
proof fn lemma_early_errors_genuine(b: ModelArtifactBuilder, e: ArtifactErrorModel)
    requires
        early_outcome(b) == Err::<(), ArtifactErrorModel>(e),
    ensures
        reported_genuinely(b, e),
{
    if b.spec_initial_stocks().topology.same(&b.spec_topology()) && b.spec_initial_stocks().registry.same(&b.spec_registry())
        && b.spec_projections() is Some {
        let p = b.spec_projections()->Some_0;
        let specs = p.specifications@;
        let pcheck = projection_check(b.spec_versions(), b.spec_topology(), b.spec_registry());
        let fcheck = forcing_check(b.spec_forcings(), b.spec_horizon());
        let tcheck = table_check(b.spec_tables(), b.spec_versions().spec_numerical_semantics());
        let rcheck = rule_check(
            b.spec_rules(),
            b.spec_topology(),
            b.spec_registry(),
            b.spec_versions(),
            ids_of(b.spec_forcings(), forcing_key()),
            ids_of(b.spec_tables(), table_key()),
            specs,
        );
        if first_error(specs, pcheck) is Err {
            let i = lemma_first_error_witness(specs, pcheck);
            let ps = specs[i];
            assert(pcheck(ps) == Err::<(), ArtifactErrorModel>(e));
            if ps.rule_ir_version == b.spec_versions().spec_rule_ir()
                && ps.numerical_semantics_version == b.spec_versions().spec_numerical_semantics() {
                assert(selectors_outcome(ps, b.spec_topology(), b.spec_registry()) == Err::<(), ArtifactErrorModel>(e));
                match ps.view {
                    ProjectionSpecView::FiniteRecurrence { inputs, .. } => {
                        let ic = recurrence_input_check(ps.id@, b.spec_topology(), b.spec_registry());
                        let k = lemma_first_error_witness(inputs@, ic);
                        assert(ic(inputs@[k]) == Err::<(), ArtifactErrorModel>(e));
                    },
                    _ => {},
                }
            }
        } else if first_error(positions(b.spec_forcings().len()), fcheck) is Err {
            let i = lemma_position_witness(b.spec_forcings().len(), fcheck);
            assert(fcheck(i) == Err::<(), ArtifactErrorModel>(e));
        } else if first_error(positions(b.spec_tables().len()), tcheck) is Err {
            let i = lemma_position_witness(b.spec_tables().len(), tcheck);
            assert(tcheck(i) == Err::<(), ArtifactErrorModel>(e));
        } else {
            let i = lemma_position_witness(b.spec_rules().len(), rcheck);
            assert(rcheck(i) == Err::<(), ArtifactErrorModel>(e));
            let r = b.spec_rules()[i];
            let forcing_ids = ids_of(b.spec_forcings(), forcing_key());
            let refs = rule_refs(r.spec_expression().node, r.spec_disposition().view, RefKind::Forcing);
            if let Some(f) = first_failing(refs, missing_from(forcing_ids)) {
                assert(missing_from(forcing_ids)(f));
                lemma_absent_forcing(b.spec_forcings(), f);
            }
        }
    }
}

/// The checks of bindings against rules report only what holds.
#[verifier::rlimit(50)]
proof fn lemma_binding_errors_genuine(
    b: ModelArtifactBuilder,
    m: Seq<(RuleCoordinate, RuleDefinition)>,
    specs: Seq<ProjectionSpec>,
    e: ArtifactErrorModel,
)
    requires
        binding_stages_outcome(
            m,
            b.spec_execution_bindings(),
            b.spec_topology(),
            ids_of(b.spec_forcings(), forcing_key()),
            ids_of(b.spec_tables(), table_key()),
            specs,
        ) == Err::<(), ArtifactErrorModel>(e),
    ensures
        reported_genuinely(b, e),
{
    let bindings = b.spec_execution_bindings();
    let forcing_ids = ids_of(b.spec_forcings(), forcing_key());
    let table_ids = ids_of(b.spec_tables(), table_key());
    let rcheck = rule_binding_check(bindings, b.spec_topology(), forcing_ids, table_ids, specs);
    let ts = bindings.transfer_bindings@;
    if first_error(m, rcheck) is Err {
        let i = lemma_first_error_witness(m, rcheck);
        let c = m[i].0.compartment@;
        let s = m[i].0.substance@;
        let view = m[i].1.spec_disposition().view;
        assert(rcheck(m[i]) == Err::<(), ArtifactErrorModel>(e));
        if branch_outcome(bindings, b.spec_topology(), c, s, view) is Err {
            assert(branch_outcome(bindings, b.spec_topology(), c, s, view) == Err::<(), ArtifactErrorModel>(e));
        } else {
            let inputs = rule_inputs(m[i].1.spec_expression().node, view);
            let icheck = input_check(bindings, c, s, forcing_ids, table_ids, specs);
            let k = lemma_first_error_witness(inputs, icheck);
            let r = inputs[k];
            assert(icheck(r) == Err::<(), ArtifactErrorModel>(e));
            if binds_input(bindings.input_bindings@, c, s, r.id@) {
                let src = bound_input(bindings.input_bindings@, c, s, r.id@).source;
                match src {
                    crate::execution_bindings::RuleInputSource::Forcing(f) => {
                        if !forcing_ids.contains(f.id@) {
                            lemma_absent_forcing(b.spec_forcings(), f.id@);
                        }
                    },
                    crate::execution_bindings::RuleInputSource::InterpolationTable(t) => {
                        if !table_ids.contains(t.id@) {
                            lemma_absent_table(b.spec_tables(), t.id@);
                        }
                    },
                    _ => {},
                }
            }
        }
    } else if first_error(ts, transfer_known(m)) is Err {
        let i = lemma_first_error_witness(ts, transfer_known(m));
        assert(transfer_known(m)(ts[i]) == Err::<(), ArtifactErrorModel>(e));
    } else {
        let bs = bindings.input_bindings@;
        let i = lemma_first_error_witness(bs, input_known(m));
        assert(input_known(m)(bs[i]) == Err::<(), ArtifactErrorModel>(e));
    }
}

/// The checks of carrier-proportional partitions report only what holds.
#[verifier::rlimit(50)]
proof fn lemma_carrier_errors_genuine(b: ModelArtifactBuilder, m: Seq<(RuleCoordinate, RuleDefinition)>, e: ArtifactErrorModel)
    requires
        arranges(m, b.spec_rules(), rule_key()),
        keyed_by(m, rule_coordinate()),
        first_error(m, carrier_check(b.spec_registry(), m, b.spec_execution_bindings())) == Err::<(), ArtifactErrorModel>(e),
    ensures
        reported_genuinely(b, e),
{
    let bindings = b.spec_execution_bindings();
    let ts = bindings.transfer_bindings@;
    let ccheck = carrier_check(b.spec_registry(), m, bindings);
    let p = lemma_first_error_witness(m, ccheck);
    assert(ccheck(m[p]) == Err::<(), ArtifactErrorModel>(e));
    match m[p].1.spec_disposition().view {
        crate::partition_expression::PartitionView::CarrierProportional { carrier, branches } => {
            let c = m[p].0.compartment@;
            let s = m[p].0.substance@;
            if crate::substance_registry::lists(b.spec_registry().members@, carrier@) && carrier@ != s {
                if let Some(i) = crate::binding_validation::entry_at(m, c, carrier@) {
                    if !(m[i].1.spec_disposition().view is CarrierProportional) {
                        let bcheck = carrier_branch_check(
                            bindings,
                            c,
                            s,
                            carrier@,
                            crate::rule_references::partition_branch_set(m[i].1.spec_disposition().view),
                        );
                        let k = lemma_first_error_witness(branches@, bcheck);
                        let mapping = branches@[k];
                        assert(bcheck(mapping) == Err::<(), ArtifactErrorModel>(e));
                        if !binds_transfer(ts, c, s, mapping.branch@) {
                            assert(reported_genuinely(b, e));
                        } else if !binds_transfer(ts, c, carrier@, mapping.carrier_branch@) {
                            assert(reported_genuinely(b, e));
                        } else {
                            let t = choose|t: int| 0 <= t < ts.len() && transfer_matches(#[trigger] ts[t], c, s, mapping.branch@);
                            assert(bound_destination(ts, c, s, mapping.branch@) == ts[t].destination@);
                            if e is CarrierDestinationMismatch {
                                assert(e->CarrierDestinationMismatch_destination == ts[t].destination@);
                                assert(e->CarrierDestinationMismatch_compartment == c);
                                assert(e->CarrierDestinationMismatch_substance == s);
                                assert(e->CarrierDestinationMismatch_branch == mapping.branch@);
                                assert(transfer_matches(ts[t], c, s, mapping.branch@));
                                assert(e->CarrierDestinationMismatch_destination != e->CarrierDestinationMismatch_carrier_destination);
                                let t2 = choose|t2: int|
                                    0 <= t2 < ts.len() && transfer_matches(#[trigger] ts[t2], c, carrier@, mapping.carrier_branch@);
                                assert(bound_destination(ts, c, carrier@, mapping.carrier_branch@) == ts[t2].destination@);
                                assert(crate::artifact_builder::listed_value(b.spec_rules(), m[p].1));
                                let j = choose|j: int| 0 <= j < b.spec_rules().len() && b.spec_rules()[j] == m[p].1;
                                assert(m[p].0 == rule_coordinate()(m[p].1));
                                let rv = b.spec_rules()[j].spec_disposition().view;
                                assert(rv->CarrierProportional_branches@[k] == mapping);
                                assert(transfer_matches(
                                    ts[t2],
                                    c,
                                    rv->CarrierProportional_carrier@,
                                    rv->CarrierProportional_branches@[k].carrier_branch@,
                                ));
                                assert(carrier_branch_goes_to(b, c, s, mapping.branch@, ts[t2].destination@));
                            }
                            assert(reported_genuinely(b, e));
                        }
                    }
                }
            }
        },
        _ => {},
    }
}

/// The unit and initial-count checks report none of the errors examined here falsely.
proof fn lemma_count_errors_genuine(
    b: ModelArtifactBuilder,
    um: Seq<(Ident, (Ident, SubstanceUnit))>,
    counts: Seq<Seq<QuantumCount>>,
    e: ArtifactErrorModel,
)
    requires
        first_error(b.spec_registry().members@, count_check(um, b.spec_initial_stocks().entries@, counts))
            == Err::<(), ArtifactErrorModel>(e),
    ensures
        reported_genuinely(b, e),
{
    let members = b.spec_registry().members@;
    let check = count_check(um, b.spec_initial_stocks().entries@, counts);
    let i = lemma_first_error_witness(members, check);
    assert(check(members[i]) == Err::<(), ArtifactErrorModel>(e));
    let stocks = b.spec_initial_stocks().entries@;
    match crate::artifact_builder::unit_of(um, members[i]@) {
        Some(p) => {
            lemma_stock_total_errors(stocks, counts, members[i]@, um[p].1.1.spec_quantum().spec_bits(), stocks.len() as int);
        },
        None => {},
    }
}

/// What a refused build reports holds of the builder: a rule refused for sitting at a boundary
/// account is at an identity that names no finite compartment; a missing forcing, or a forcing
/// or table a rule input is bound to and reported missing, is in none of the builder's
/// catalogues; a transfer binding reported missing is not among its bindings; a carrier
/// destination mismatch names two different destinations, the first bound to the dependent's
/// branch; a projection fact substance reported unknown is not in its registry.
pub proof fn lemma_refused_build_reports_what_holds(
    b: ModelArtifactBuilder,
    counts: Seq<Seq<QuantumCount>>,
    x: ModelArtifactError,
)
    requires
        build_outcome(b, counts, Err(x)),
    ensures
        reported_genuinely(b, x@),
{
    match early_outcome(b) {
        Err(e) => {
            assert(fails_with(Err(x), e));
            lemma_early_errors_genuine(b, e);
        },
        Ok(()) => {
            let p = b.spec_projections()->Some_0;
            let r: Result<ModelArtifact, ModelArtifactError> = Err(x);
            let (fm, tm, m) = choose|
                fm: Seq<(Ident, ForcingSeries)>,
                tm: Seq<(Ident, InterpolationTable)>,
                m: Seq<(RuleCoordinate, RuleDefinition)>,
            |
                arranges(fm, b.spec_forcings(), forcing_key()) && keyed_by(fm, forcing_id()) && arranges(
                    tm,
                    b.spec_tables(),
                    table_key(),
                ) && keyed_by(tm, table_id()) && arranges(m, b.spec_rules(), rule_key()) && keyed_by(m, rule_coordinate())
                    && #[trigger] late_holds(b, p, fm, tm, m, counts, r);
            assert(late_holds(b, p, fm, tm, m, counts, r));
            let bindings = b.spec_execution_bindings();
            let stages = binding_stages_outcome(
                m,
                bindings,
                b.spec_topology(),
                ids_of(b.spec_forcings(), forcing_key()),
                ids_of(b.spec_tables(), table_key()),
                p.specifications@,
            );
            if stages is Err {
                lemma_binding_errors_genuine(b, m, p.specifications@, stages->Err_0);
            } else if !graph_orders(b.spec_topology(), bindings) {
            } else if first_error(m, carrier_check(b.spec_registry(), m, bindings)) is Err {
                lemma_carrier_errors_genuine(b, m, first_error(m, carrier_check(b.spec_registry(), m, bindings))->Err_0);
            } else if first_error(positions(b.spec_units().len()), unit_check(b.spec_units(), b.spec_registry())) is Err {
                let i = lemma_position_witness(b.spec_units().len(), unit_check(b.spec_units(), b.spec_registry()));
                assert(unit_check(b.spec_units(), b.spec_registry())(i) is Err);
            } else {
                let um = choose|um: Seq<(Ident, (Ident, SubstanceUnit))>|
                    arranges(um, b.spec_units(), unit_key()) && keyed_by(um, unit_substance()) && #[trigger] final_holds(
                        b,
                        p,
                        fm,
                        tm,
                        m,
                        um,
                        counts,
                        r,
                    );
                assert(final_holds(b, p, fm, tm, m, um, counts, r));
                let cc = first_error(b.spec_registry().members@, count_check(um, b.spec_initial_stocks().entries@, counts));
                if cc is Err {
                    lemma_count_errors_genuine(b, um, counts, cc->Err_0);
                }
            }
        },
    }
}

} // verus!
