use sha2::{Digest, Sha256};
use incidence_core::artifact_error::ModelArtifactError;
use incidence_core::execution_bindings::{ExecutionBindings, ExecutionBindingsError, TransferBranchBinding};
use incidence_core::forcing::ForcingSeries;
use incidence_core::interpolation_table::{InterpolationTable, TablePoint};
use incidence_core::rule_reference::ExpressionValueKind;
use incidence_core::identity::{Ident, RuleCoordinate};
use incidence_core::model_artifact::{
    ModelArtifact, ModelArtifactArchive, ModelArtifactBuilder, ModelDigest, ModelVersions, Quantum, QuantumCount,
    RuleDefinition, RuleParameterSubstitution, RuleParameterSubstitutionError, SubstanceUnit, UnitId,
};
use incidence_core::partition_expression::{
    CarrierBranch, ExpressionBranch, PartitionExpr, PartitionExprError, PartitionView,
};
use incidence_core::projection::ProjectionSet;
use incidence_core::rule_expression::{ExprNode, RuleExpr};
use incidence_core::substance_registry::{
    CompartmentStock, InitialStocks, SparseSubstanceVector, SubstanceAmount, SubstanceRegistry,
};
use incidence_core::temporal::{FixedStepCalendar, RunHorizon};
use incidence_core::topology::{Connection, Topology, TopologyEndpoint};
use incidence_core::versions::{
    CanonicalEncodingVersion, InterpreterVersion, NumericalSemanticsVersion, RuleIrVersion,
};

const R: RuleIrVersion = RuleIrVersion::V1;
const S: NumericalSemanticsVersion = NumericalSemanticsVersion::V1;

fn id(name: &str) -> Ident {
    Ident::new(name)
}

fn literal(value: f64) -> RuleExpr {
    RuleExpr { rule_ir_version: R, numerical_semantics_version: S, node: ExprNode::Literal(value.to_bits()) }
}

fn branch(name: &str) -> Ident {
    id(name)
}

fn substance(name: &str) -> Ident {
    id(name)
}

fn coupled(carrier: &str, names: &[&str]) -> PartitionExpr {
    PartitionExpr::carrier_proportional(
        R,
        S,
        substance(carrier),
        names.iter().map(|name| CarrierBranch::new(branch(name), branch(name))).collect(),
    )
    .expect("carrier partition")
}

/// The model of a carrier at `source` with dependents, as plain components.
#[derive(Clone)]
struct Model {
    finite: Vec<String>,
    connections: Vec<(String, String)>,
    substances: Vec<String>,
    stocks: Vec<(String, Vec<(String, u64)>)>,
    rules: Vec<(String, String, Disposition)>,
    transfer_bindings: Vec<(String, String, String, String)>,
    units: Vec<(String, f64)>,
}

#[derive(Clone)]
enum Disposition {
    Flows(Vec<(String, u64)>),
    Coupled(String, Vec<(String, String)>),
}

fn document(carrier: &str, water: u64, flows: [u64; 2], dependents: &[(&str, u64)]) -> Model {
    let names = ["left", "right"];
    let mut rules = vec![(
        "source".to_string(),
        carrier.to_string(),
        Disposition::Flows(names.iter().zip(flows).map(|(n, c)| (n.to_string(), c)).collect()),
    )];
    for (name, _) in dependents {
        rules.push((
            "source".to_string(),
            name.to_string(),
            Disposition::Coupled(carrier.to_string(), names.iter().map(|n| (n.to_string(), n.to_string())).collect()),
        ));
    }
    let stocks: Vec<(String, u64)> = std::iter::once((carrier.to_string(), water))
        .chain(dependents.iter().map(|(n, c)| (n.to_string(), *c)))
        .collect();
    Model {
        finite: vec!["source".to_string()],
        connections: names.iter().map(|n| ("source".to_string(), n.to_string())).collect(),
        substances: stocks.iter().map(|(n, _)| n.clone()).collect(),
        stocks: vec![("source".to_string(), stocks.clone())],
        rules,
        transfer_bindings: stocks
            .iter()
            .flat_map(|(name, _)| {
                names.iter().map(move |d| ("source".to_string(), name.clone(), d.to_string(), d.to_string()))
            })
            .collect(),
        units: stocks.iter().map(|(n, _)| (n.clone(), 1.0)).collect(),
    }
}

fn topology(model: &Model) -> Topology {
    let mut endpoints: Vec<TopologyEndpoint> =
        model.finite.iter().map(|n| TopologyEndpoint::Finite(id(n))).collect();
    endpoints.push(TopologyEndpoint::Boundary(id("left")));
    endpoints.push(TopologyEndpoint::Boundary(id("right")));
    let connections = model
        .connections
        .iter()
        .map(|(s, t)| Connection { source: id(s), target: id(t) })
        .collect();
    Topology::new(endpoints, connections).expect("topology")
}

fn registry(model: &Model) -> SubstanceRegistry {
    SubstanceRegistry::new(model.substances.iter().map(|n| id(n)).collect())
}

fn rule(compartment: &str, substance: &str, disposition: &Disposition) -> RuleDefinition {
    rule_with_parameters(compartment, substance, disposition, vec![])
}

fn rule_with_parameters(
    compartment: &str,
    substance: &str,
    disposition: &Disposition,
    parameters: Vec<(Ident, u64)>,
) -> RuleDefinition {
    let partition = match disposition {
        Disposition::Flows(flows) => PartitionExpr {
            rule_ir_version: R,
            numerical_semantics_version: S,
            view: PartitionView::ExpressionPartition {
                branches: flows
                    .iter()
                    .map(|(n, c)| ExpressionBranch { branch: id(n), expression: literal(*c as f64) })
                    .collect(),
            },
        },
        Disposition::Coupled(carrier, mapping) => PartitionExpr::carrier_proportional(
            R,
            S,
            id(carrier),
            mapping.iter().map(|(b, c)| CarrierBranch::new(id(b), id(c))).collect(),
        )
        .expect("carrier partition"),
    };
    RuleDefinition::new(id(compartment), id(substance), literal(0.0), partition, parameters).expect("rule")
}

fn stocks(model: &Model) -> InitialStocks {
    InitialStocks {
        topology: topology(model),
        registry: registry(model),
        entries: model
            .stocks
            .iter()
            .map(|(c, amounts)| CompartmentStock {
                compartment: id(c),
                stock: SparseSubstanceVector {
                    registry: registry(model),
                    entries: amounts
                        .iter()
                        .map(|(s, n)| SubstanceAmount { substance: id(s), amount_bits: (*n as f64).to_bits() })
                        .collect(),
                },
            })
            .collect(),
    }
}

fn builder(model: &Model) -> (ModelArtifactBuilder, Vec<Vec<QuantumCount>>) {
    let stocks = stocks(model);
    let counts = model
        .stocks
        .iter()
        .map(|(_, amounts)| amounts.iter().map(|(_, n)| QuantumCount::Whole(*n)).collect())
        .collect();
    let bindings = ExecutionBindings::new(
        model
            .transfer_bindings
            .iter()
            .map(|(c, s, b, d)| TransferBranchBinding {
                compartment: id(c),
                substance: id(s),
                branch: id(b),
                destination: id(d),
            })
            .collect(),
        vec![],
    )
    .expect("bindings");
    let units = model
        .units
        .iter()
        .map(|(s, q)| {
            (
                id(s),
                SubstanceUnit::new(
                    UnitId::parse("count").expect("unit"),
                    Quantum::try_from_bits(q.to_bits()).expect("quantum"),
                ),
            )
        })
        .collect();
    let builder = ModelArtifact::builder(
        topology(model),
        registry(model),
        stocks,
        FixedStepCalendar { origin_unix_seconds: 0, timestep_seconds: 1 },
        RunHorizon { first: 0, last: 0 },
    )
    .with_projections(ProjectionSet { specifications: vec![], initial_states: vec![] })
    .with_rules(model.rules.iter().map(|(c, s, d)| rule(c, s, d)).collect())
    .with_execution_bindings(bindings)
    .with_units(units);
    (builder, counts)
}

fn artifact(model: &Model) -> Result<ModelArtifact, ModelArtifactError> {
    let (builder, counts) = builder(model);
    builder.build(&counts)
}

#[test]
fn mapping_and_author_order_have_canonical_identity() {
    let original = document("water", 7, [2, 3], &[("salt", 11)]);
    let mut reordered = original.clone();
    reordered.rules[1].2 = Disposition::Coupled(
        "water".into(),
        vec![("right".into(), "right".into()), ("left".into(), "left".into())],
    );
    reordered.rules.reverse();
    reordered.transfer_bindings.reverse();
    reordered.substances.reverse();
    let partition = coupled("water", &["right", "left"]);
    match &partition.view {
        PartitionView::CarrierProportional { carrier, branches } => {
            assert_eq!(carrier, &substance("water"));
            assert_eq!(branches[0].branch, branch("left"));
            assert_eq!(branches[0].carrier_branch, branch("left"));
        },
        _ => panic!("not a carrier partition"),
    }
    assert_eq!(
        artifact(&original).expect("original").canonical_bytes(),
        artifact(&reordered).expect("decoded").canonical_bytes()
    );
}

#[test]
fn duplicate_carrier_branch_is_rejected_at_construction() {
    assert_eq!(
        PartitionExpr::carrier_proportional(
            R,
            S,
            substance("water"),
            vec![
                CarrierBranch::new(branch("left"), branch("left")),
                CarrierBranch::new(branch("right"), branch("left")),
            ]
        ),
        Err(PartitionExprError::DuplicateCarrierBranch { branch: branch("left") })
    );
}

#[test]
fn duplicate_dependent_branch_is_rejected_at_construction() {
    assert_eq!(
        PartitionExpr::carrier_proportional(
            R,
            S,
            substance("water"),
            vec![
                CarrierBranch::new(branch("left"), branch("left")),
                CarrierBranch::new(branch("left"), branch("right")),
            ]
        ),
        Err(PartitionExprError::DuplicateBranch { branch: branch("left") })
    );
}

#[test]
fn registry_and_bindings_are_held_in_canonical_order() {
    let registry = SubstanceRegistry::new(vec![id("salt"), id("water"), id("dye"), id("salt")]);
    let names: Vec<&str> = registry.members.iter().map(|m| m.as_str()).collect();
    assert_eq!(names, vec!["dye", "salt", "water"]);
    let binding = |substance: &str, branch: &str| TransferBranchBinding {
        compartment: id("source"),
        substance: id(substance),
        branch: id(branch),
        destination: id(branch),
    };
    let bindings = ExecutionBindings::new(
        vec![binding("water", "right"), binding("salt", "left"), binding("water", "left")],
        vec![],
    )
    .expect("bindings");
    let order: Vec<(&str, &str)> =
        bindings.transfer_bindings.iter().map(|b| (b.substance.as_str(), b.branch.as_str())).collect();
    assert_eq!(order, vec![("salt", "left"), ("water", "left"), ("water", "right")]);
}

#[test]
fn self_carrier_and_dependent_carrier_are_rejected() {
    let mut doc = document("water", 7, [2, 3], &[("dye", 11), ("salt", 17)]);
    doc.rules[1].2 = Disposition::Coupled("dye".into(), vec![("left".into(), "left".into()), ("right".into(), "right".into())]);
    assert_eq!(
        artifact(&doc).expect_err("self carrier"),
        ModelArtifactError::SelfCarrier { compartment: id("source"), substance: id("dye") }
    );
    doc.rules[1].2 = Disposition::Coupled("salt".into(), vec![("left".into(), "left".into()), ("right".into(), "right".into())]);
    assert_eq!(
        artifact(&doc).expect_err("dependent carrier"),
        ModelArtifactError::DependentCarrier { compartment: id("source"), substance: id("dye"), carrier: id("salt") }
    );
}

#[test]
fn missing_carrier_branch_and_mismatched_destination_are_rejected() {
    let mut doc = document("water", 7, [2, 3], &[("salt", 11)]);
    doc.rules[1].2 = Disposition::Coupled(
        "water".into(),
        vec![("left".into(), "missing".into()), ("right".into(), "right".into())],
    );
    assert_eq!(
        artifact(&doc).expect_err("unknown carrier branch"),
        ModelArtifactError::UnknownCarrierBranch {
            compartment: id("source"),
            substance: id("salt"),
            carrier: id("water"),
            branch: id("missing"),
        }
    );
    doc.rules[1].2 = Disposition::Coupled("water".into(), vec![("left".into(), "left".into()), ("right".into(), "right".into())]);
    doc.transfer_bindings
        .iter_mut()
        .find(|b| b.1 == "salt" && b.2 == "left")
        .expect("salt left binding")
        .3 = "right".into();
    assert_eq!(
        artifact(&doc).expect_err("destination mismatch"),
        ModelArtifactError::CarrierDestinationMismatch {
            compartment: id("source"),
            substance: id("salt"),
            branch: id("left"),
            destination: id("right"),
            carrier_destination: id("left"),
        }
    );
}

#[test]
fn unregistered_and_missing_same_compartment_carrier_are_rejected() {
    let mut doc = document("water", 7, [2, 3], &[("salt", 11)]);
    doc.rules[1].2 = Disposition::Coupled("missing".into(), vec![("left".into(), "left".into()), ("right".into(), "right".into())]);
    assert_eq!(
        artifact(&doc).expect_err("unregistered carrier"),
        ModelArtifactError::UnknownCarrierSubstance { compartment: id("source"), substance: id("salt"), carrier: id("missing") }
    );
    doc.rules[1].2 = Disposition::Coupled("water".into(), vec![("left".into(), "left".into()), ("right".into(), "right".into())]);
    doc.finite.push("other".into());
    doc.connections.extend(["left", "right"].map(|t| ("other".to_string(), t.to_string())));
    doc.rules[0].0 = "other".into();
    for binding in &mut doc.transfer_bindings {
        if binding.1 == "water" {
            binding.0 = "other".into();
        }
    }
    doc.stocks[0].1.retain(|(s, _)| s != "water");
    assert_eq!(
        artifact(&doc).expect_err("missing carrier rule"),
        ModelArtifactError::MissingCarrierRule { compartment: id("source"), substance: id("salt"), carrier: id("water") }
    );
}

#[test]
fn aggregate_initial_stock_one_count_above_ceiling_is_rejected() {
    let ceiling = 9_007_199_254_740_992_u64;
    let mut doc = document("water", ceiling, [1, 0], &[("salt", 11)]);
    doc.finite.push("extra".into());
    doc.stocks.push(("extra".into(), vec![("water".into(), 1)]));
    assert_eq!(
        artifact(&doc).expect_err("uncountable total"),
        ModelArtifactError::UncountableInitialTotal {
            substance: id("water"),
            total_count: u128::from(ceiling) + 1,
            quantum_bits: 1.0_f64.to_bits(),
        }
    );
}

#[test]
fn carrier_model_builds_with_counts_and_units() {
    let doc = document("water", 7, [2, 3], &[("salt", 11)]);
    let a = artifact(&doc).expect("artifact");
    assert_eq!(a.initial_quantum_count(&id("source"), &id("water")), Some(7));
    assert_eq!(a.initial_quantum_count(&id("source"), &id("salt")), Some(11));
    assert_eq!(a.initial_quantum_count(&id("left"), &id("water")), None);
    assert_eq!(a.initial_quantum_count(&id("source"), &id("gold")), None);
    assert_eq!(a.quantum(&id("salt")).map(|q| q.value_bits()), Some(1.0_f64.to_bits()));
    assert_eq!(a.transfer_destination(&id("source"), &id("salt"), &id("left")).map(|d| d.as_str()), Some("left"));
    assert_eq!(a.rules().len(), 2);
    assert_eq!(a.canonical_bytes()[0..4], [0x49, 0x4e, 0x43, 0x44]);
}

fn with_rate(model: &Model, rate: f64) -> Result<ModelArtifact, ModelArtifactError> {
    let (builder, counts) = builder(model);
    let mut rules: Vec<RuleDefinition> = model.rules.iter().map(|(c, s, d)| rule(c, s, d)).collect();
    let (c, s, d) = &model.rules[0];
    rules[0] = rule_with_parameters(c, s, d, vec![(id("rate"), rate.to_bits())]);
    builder.with_rules(rules).build(&counts)
}

fn substitution(compartment: &str, substance: &str, parameter: &str, value: f64) -> RuleParameterSubstitution {
    RuleParameterSubstitution::new(id(compartment), id(substance), id(parameter), value.to_bits())
}

#[test]
fn authored_order_of_rules_bindings_and_units_keeps_identity() {
    let original = document("water", 7, [2, 3], &[("dye", 5), ("salt", 11)]);
    let mut reordered = original.clone();
    reordered.rules.reverse();
    reordered.units.reverse();
    reordered.rules.swap(0, 1);
    let a = artifact(&original).expect("original");
    let b = artifact(&reordered).expect("reordered");
    assert_eq!(a.canonical_bytes(), b.canonical_bytes());
    assert_eq!(a.digest(), b.digest());
    let coordinates: Vec<(String, String)> = a
        .rules()
        .entries()
        .iter()
        .map(|(c, _)| (c.compartment.as_str().to_string(), c.substance.as_str().to_string()))
        .collect();
    assert_eq!(
        coordinates,
        vec![
            ("source".to_string(), "dye".to_string()),
            ("source".to_string(), "salt".to_string()),
            ("source".to_string(), "water".to_string()),
        ]
    );
}

#[test]
fn digest_is_sha256_of_canonical_bytes() {
    let a = artifact(&document("water", 7, [2, 3], &[("salt", 11)])).expect("artifact");
    let expected: [u8; 32] = Sha256::digest(a.canonical_bytes()).into();
    assert_eq!(a.digest().as_bytes(), &expected);
    assert_eq!(a.digest().to_hex().len(), 64);
}

#[test]
fn digest_hex_is_lower_case_pairs() {
    let mut bytes = [0u8; 32];
    bytes[0] = 0xab;
    bytes[31] = 0x0f;
    let hex = ModelDigest::from_bytes(bytes).to_hex();
    assert_eq!(&hex[0..2], "ab");
    assert_eq!(&hex[2..4], "00");
    assert_eq!(&hex[62..64], "0f");
    assert_eq!(hex.len(), 64);
    assert!(ModelDigest::from_bytes([0; 32]) < ModelDigest::from_bytes(bytes));
}

#[test]
fn unit_identities_are_parsed_canonically() {
    assert_eq!(UnitId::parse("kg").expect("unit").as_str(), "kg");
    assert_eq!(UnitId::parse("kg m").expect("inner space").as_str(), "kg m");
    assert_eq!(UnitId::parse("m\u{7f}s").expect("inner control byte").as_str(), "m\u{7f}s");
    let unit = UnitId::parse("mol l").expect("unit");
    assert_eq!(UnitId::parse(unit.as_str()), Ok(unit.clone()));
    for bad in ["", " kg", "kg ", "\tkg", "kg\n", "kğ"] {
        assert_eq!(
            UnitId::parse(bad),
            Err(ModelArtifactError::InvalidUnitIdentity { value: bad.to_string() })
        );
    }
}

#[test]
fn quanta_must_be_positive_and_finite() {
    assert!(Quantum::try_from_bits(0.25_f64.to_bits()).is_ok());
    for bad in [0.0_f64, -0.0, -1.0, f64::NAN, f64::INFINITY] {
        assert_eq!(
            Quantum::try_from_bits(bad.to_bits()),
            Err(ModelArtifactError::InvalidQuantum { value_bits: bad.to_bits() })
        );
    }
}

#[test]
fn archive_retains_each_content_once_and_returns_it() {
    let doc = document("water", 7, [2, 3], &[("salt", 11)]);
    let mut archive = ModelArtifactArchive::new();
    assert!(archive.is_empty());
    let first = archive.insert(artifact(&doc).expect("artifact")).expect("insert");
    let again = archive.insert(artifact(&doc).expect("artifact")).expect("insert again");
    assert_eq!(first, again);
    assert_eq!(archive.len(), 1);
    let other = archive.insert(artifact(&document("water", 8, [2, 3], &[("salt", 11)])).expect("other")).expect("insert other");
    assert_ne!(first, other);
    assert_eq!(archive.len(), 2);
    let held = archive.get(&first).expect("held");
    assert_eq!(held.canonical_bytes(), artifact(&doc).expect("artifact").canonical_bytes());
    assert!(archive.get(&ModelDigest::from_bytes([0; 32])).is_none());
}

#[test]
fn substituted_parameter_changes_identity_and_nothing_else() {
    let doc = document("water", 7, [2, 3], &[("salt", 11)]);
    let a = with_rate(&doc, 1.0).expect("artifact");
    let same = a.with_rule_parameter_substitutions(vec![substitution("source", "water", "rate", 1.0)]).expect("same");
    assert_eq!(same.digest(), a.digest());
    let none = a.with_rule_parameter_substitutions(vec![]).expect("none");
    assert_eq!(none.digest(), a.digest());
    let b = a.with_rule_parameter_substitutions(vec![substitution("source", "water", "rate", 2.5)]).expect("changed");
    assert_ne!(b.digest(), a.digest());
    assert_eq!(b.canonical_bytes().len(), a.canonical_bytes().len());
    let water = RuleCoordinate { compartment: id("source"), substance: id("water") };
    assert_eq!(b.rules().get(&water).expect("rule").parameters(), &vec![(id("rate"), 2.5_f64.to_bits())]);
    assert_eq!(a.rules().get(&water).expect("rule").parameters(), &vec![(id("rate"), 1.0_f64.to_bits())]);
}

#[test]
fn substitution_errors_name_the_offending_target() {
    let doc = document("water", 7, [2, 3], &[("salt", 11)]);
    let a = with_rate(&doc, 1.0).expect("artifact");
    assert_eq!(
        a.with_rule_parameter_substitutions(vec![
            substitution("source", "water", "rate", 2.0),
            substitution("source", "water", "rate", 3.0),
        ])
        .expect_err("duplicate"),
        RuleParameterSubstitutionError::DuplicateTarget { compartment: id("source"), substance: id("water"), parameter: id("rate") }
    );
    assert_eq!(
        a.with_rule_parameter_substitutions(vec![substitution("left", "water", "rate", 2.0)]).expect_err("no rule"),
        RuleParameterSubstitutionError::RuleNotFound { compartment: id("left"), substance: id("water") }
    );
    assert_eq!(
        a.with_rule_parameter_substitutions(vec![substitution("source", "salt", "rate", 2.0)]).expect_err("undeclared"),
        RuleParameterSubstitutionError::ParameterNotDeclared { compartment: id("source"), substance: id("salt"), parameter: id("rate") }
    );
    assert_eq!(
        a.with_rule_parameter_substitutions(vec![substitution("source", "water", "rate", f64::NAN)]).expect_err("nan"),
        RuleParameterSubstitutionError::NonFiniteValue {
            compartment: id("source"),
            substance: id("water"),
            parameter: id("rate"),
            bits: f64::NAN.to_bits(),
        }
    );
}

#[test]
fn builder_reports_missing_projections_and_duplicate_rules() {
    let doc = document("water", 7, [2, 3], &[("salt", 11)]);
    let (_, counts) = builder(&doc);
    let bare = ModelArtifact::builder(
        topology(&doc),
        registry(&doc),
        stocks(&doc),
        FixedStepCalendar { origin_unix_seconds: 0, timestep_seconds: 1 },
        RunHorizon { first: 0, last: 0 },
    );
    assert_eq!(bare.build(&counts).expect_err("no projections"), ModelArtifactError::MissingProjectionSet);

    let mut duplicated = doc.clone();
    duplicated.rules.push(duplicated.rules[1].clone());
    assert_eq!(
        artifact(&duplicated).expect_err("duplicate rule"),
        ModelArtifactError::DuplicateRule { compartment: id("source"), substance: id("salt") }
    );
}

#[test]
fn units_must_cover_the_registry_once() {
    let mut missing = document("water", 7, [2, 3], &[("salt", 11)]);
    missing.units.retain(|(s, _)| s != "salt");
    assert_eq!(artifact(&missing).expect_err("missing unit"), ModelArtifactError::MissingUnit { substance: id("salt") });
    let mut repeated = document("water", 7, [2, 3], &[("salt", 11)]);
    repeated.units.push(("salt".to_string(), 1.0));
    assert_eq!(artifact(&repeated).expect_err("duplicate unit"), ModelArtifactError::DuplicateUnit { substance: id("salt") });
}

#[test]
fn transfers_that_feed_each_other_are_a_cycle() {
    let model = Model {
        finite: vec!["a".to_string(), "b".to_string()],
        connections: vec![],
        substances: vec!["water".to_string()],
        stocks: vec![("a".to_string(), vec![("water".to_string(), 1)]), ("b".to_string(), vec![("water".to_string(), 1)])],
        rules: vec![
            ("b".to_string(), "water".to_string(), Disposition::Flows(vec![("y".to_string(), 1)])),
            ("a".to_string(), "water".to_string(), Disposition::Flows(vec![("x".to_string(), 1)])),
        ],
        transfer_bindings: vec![
            ("a".to_string(), "water".to_string(), "x".to_string(), "b".to_string()),
            ("b".to_string(), "water".to_string(), "y".to_string(), "a".to_string()),
        ],
        units: vec![("water".to_string(), 1.0)],
    };
    assert_eq!(
        artifact(&model).expect_err("cycle"),
        ModelArtifactError::CyclicExecutionBindings { blocked_compartments: vec![id("a"), id("b")] }
    );
    let mut acyclic = model.clone();
    acyclic.transfer_bindings[1].3 = "left".to_string();
    assert!(artifact(&acyclic).is_ok());
}

fn forcing(name: &str, last: u64) -> ForcingSeries {
    ForcingSeries {
        id: id(name),
        value_kind: ExpressionValueKind::Scalar,
        horizon: RunHorizon { first: 0, last },
        values: vec![1.0_f64.to_bits(); (last + 1) as usize],
    }
}

fn table(name: &str, version: NumericalSemanticsVersion) -> InterpolationTable {
    InterpolationTable {
        id: id(name),
        numerical_semantics_version: version,
        points: vec![
            TablePoint { abscissa_bits: 0.0_f64.to_bits(), ordinate_bits: 1.0_f64.to_bits() },
            TablePoint { abscissa_bits: 1.0_f64.to_bits(), ordinate_bits: 2.0_f64.to_bits() },
        ],
    }
}

#[test]
fn forcings_must_cover_the_horizon_once() {
    let doc = document("water", 7, [2, 3], &[("salt", 11)]);
    let (b, counts) = builder(&doc);
    let a = b.with_forcings(vec![forcing("rain", 0), forcing("inflow", 0)]).build(&counts).expect("artifact");
    let ids: Vec<&str> = a.forcings().entries().iter().map(|(k, _)| k.as_str()).collect();
    assert_eq!(ids, vec!["inflow", "rain"]);
    let (b, counts) = builder(&doc);
    assert_eq!(
        b.with_forcings(vec![forcing("rain", 0), forcing("rain", 0)]).build(&counts).expect_err("duplicate"),
        ModelArtifactError::DuplicateForcing { forcing: id("rain") }
    );
    let (b, counts) = builder(&doc);
    assert_eq!(
        b.with_forcings(vec![forcing("rain", 1)]).build(&counts).expect_err("horizon"),
        ModelArtifactError::ForcingHorizonMismatch { forcing: id("rain") }
    );
}

#[test]
fn tables_follow_the_artifact_numerical_semantics_once() {
    let doc = document("water", 7, [2, 3], &[("salt", 11)]);
    let (b, counts) = builder(&doc);
    assert_eq!(
        b.with_tables(vec![table("curve", S), table("curve", S)]).build(&counts).expect_err("duplicate"),
        ModelArtifactError::DuplicateTable { table: id("curve") }
    );
    let (b, counts) = builder(&doc);
    assert_eq!(
        b.with_tables(vec![table("curve", NumericalSemanticsVersion::V2)]).build(&counts).expect_err("version"),
        ModelArtifactError::TableNumericalVersionMismatch { table: id("curve") }
    );
    let (b, counts) = builder(&doc);
    let a = b.with_tables(vec![table("curve", S)]).build(&counts).expect("artifact");
    assert_eq!(a.tables().len(), 1);
}

#[test]
fn rules_follow_the_selected_versions() {
    let doc = document("water", 7, [2, 3], &[("salt", 11)]);
    let (b, counts) = builder(&doc);
    let versions = ModelVersions::new(R, InterpreterVersion::V1, NumericalSemanticsVersion::V2, CanonicalEncodingVersion::V1);
    assert_eq!(
        b.with_versions(versions).build(&counts).expect_err("numerical version"),
        ModelArtifactError::RuleNumericalVersionMismatch { compartment: id("source"), substance: id("water") }
    );
}

#[test]
fn a_transfer_coordinate_is_bound_once() {
    let doc = document("water", 7, [2, 3], &[("salt", 11)]);
    let (b, _) = builder(&doc);
    let binding = |branch: &str, destination: &str| TransferBranchBinding {
        compartment: id("source"),
        substance: id("water"),
        branch: id(branch),
        destination: id(destination),
    };
    match b.with_transfer_bindings(vec![binding("left", "left"), binding("left", "right")]) {
        Err(e) => assert_eq!(
            e,
            ExecutionBindingsError::DuplicateTransferBinding {
                compartment: id("source"),
                substance: id("water"),
                branch: id("left"),
            }
        ),
        Ok(_) => panic!("a repeated transfer coordinate was accepted"),
    }
    let (b, counts) = builder(&doc);
    let mut bindings: Vec<TransferBranchBinding> = doc
        .transfer_bindings
        .iter()
        .map(|(c, s, br, d)| TransferBranchBinding { compartment: id(c), substance: id(s), branch: id(br), destination: id(d) })
        .collect();
    bindings.reverse();
    let rebound = match b.with_transfer_bindings(bindings) {
        Ok(rebound) => rebound,
        Err(e) => panic!("distinct bindings were refused: {e:?}"),
    };
    assert!(rebound.build(&counts).is_ok());
}

#[test]
fn parameters_are_held_in_canonical_order() {
    let flows = Disposition::Flows(vec![("left".to_string(), 1)]);
    let a = rule_with_parameters("source", "water", &flows, vec![(id("rate"), 2.0_f64.to_bits()), (id("alpha"), 1.0_f64.to_bits())]);
    let b = rule_with_parameters("source", "water", &flows, vec![(id("alpha"), 1.0_f64.to_bits()), (id("rate"), 2.0_f64.to_bits())]);
    assert_eq!(a.parameters(), b.parameters());
    assert_eq!(a.parameters()[0].0, id("alpha"));
    assert_eq!(
        RuleDefinition::new(
            id("source"),
            id("water"),
            literal(0.0),
            coupled("water", &["left"]),
            vec![(id("rate"), 1.0_f64.to_bits()), (id("rate"), 2.0_f64.to_bits())],
        )
        .map(|_| ()),
        Err(ModelArtifactError::DuplicateParameter { compartment: id("source"), substance: id("water"), parameter: id("rate") })
    );
    assert_eq!(
        RuleDefinition::new(
            id("source"),
            id("water"),
            literal(0.0),
            coupled("water", &["left"]),
            vec![(id("rate"), f64::INFINITY.to_bits())],
        )
        .map(|_| ()),
        Err(ModelArtifactError::NonFiniteParameter {
            compartment: id("source"),
            substance: id("water"),
            parameter: id("rate"),
            bits: f64::INFINITY.to_bits(),
        })
    );
}

#[test]
fn changed_mapping_or_precision_changes_identity() {
    let doc = document("water", 7, [2, 3], &[("salt", 11)]);
    let a = artifact(&doc).expect("artifact");
    let mut finer = doc.clone();
    finer.units[1].1 = 0.5;
    let b = artifact(&finer).expect("finer quantum");
    assert_ne!(b.canonical_bytes(), a.canonical_bytes());
    assert_ne!(b.digest(), a.digest());
    let mut narrower = doc.clone();
    narrower.rules[1].2 = Disposition::Coupled("water".into(), vec![("left".into(), "left".into())]);
    narrower.transfer_bindings.retain(|(_, s, b, _)| !(s == "salt" && b == "right"));
    let c = artifact(&narrower).expect("narrower mapping");
    assert_ne!(c.canonical_bytes(), a.canonical_bytes());
    assert_ne!(c.digest(), a.digest());
}

#[test]
fn reordered_and_undone_substitutions_keep_identity() {
    let doc = document("water", 7, [2, 3], &[("salt", 11)]);
    let (builder, counts) = builder(&doc);
    let mut rules: Vec<RuleDefinition> = doc.rules.iter().map(|(c, s, d)| rule(c, s, d)).collect();
    let (c, s, d) = &doc.rules[0];
    rules[0] = rule_with_parameters(
        c,
        s,
        d,
        vec![(id("rate"), 1.0_f64.to_bits()), (id("decay"), 0.5_f64.to_bits())],
    );
    let a = builder.with_rules(rules).build(&counts).expect("artifact");
    let forward = vec![substitution("source", "water", "rate", 2.0), substitution("source", "water", "decay", 0.25)];
    let mut backward = forward.clone();
    backward.reverse();
    let d1 = a.with_rule_parameter_substitutions(forward).expect("forward");
    let d2 = a.with_rule_parameter_substitutions(backward).expect("backward");
    assert_eq!(d1.canonical_bytes(), d2.canonical_bytes());
    assert_eq!(d1.digest(), d2.digest());
    assert_ne!(d1.digest(), a.digest());
    let there = a.with_rule_parameter_substitutions(vec![substitution("source", "water", "rate", 3.0)]).expect("there");
    let back = there.with_rule_parameter_substitutions(vec![substitution("source", "water", "rate", 1.0)]).expect("back");
    assert_eq!(back.canonical_bytes(), a.canonical_bytes());
    assert_eq!(back.digest(), a.digest());
    assert_eq!(back, a);
}

#[test]
fn artifacts_and_digests_compare_by_content() {
    let doc = document("water", 7, [2, 3], &[("salt", 11)]);
    let a = artifact(&doc).expect("artifact");
    let b = artifact(&doc).expect("artifact again");
    assert_eq!(a, b);
    assert_eq!(ModelDigest::from_bytes(*a.digest().as_bytes()), a.digest());
    assert_ne!(artifact(&document("water", 8, [2, 3], &[("salt", 11)])).expect("other"), a);
}
