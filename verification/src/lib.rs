//! Canonical, content-addressed model artifacts for a count-native compartment engine.

pub mod versions;
pub mod canonical_order;
pub mod identity;
pub mod canonical_map;
pub mod canonical_encoding;
pub mod topology;
pub mod rule_reference;
pub mod substance_registry;
pub mod temporal;
pub mod rule_expression;
pub mod partition_expression;
pub mod forcing;
pub mod interpolation_table;
pub mod projection;
pub mod execution_bindings;
pub mod artifact_error;
pub mod execution_graph;
pub mod model_artifact;
pub mod rule_references;
pub mod reference_validation;
pub mod graph_validation;
pub mod binding_validation;
pub mod projection_validation;
pub mod component_encoding;
pub mod artifact;
pub mod artifact_builder;
pub mod substitution;
pub mod archive;
pub mod reading;
pub mod body_reading;
pub mod catalogue_reading;
pub mod reordering;
pub mod build_laws;
pub mod failure_laws;
