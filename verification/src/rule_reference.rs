//! Typed references from rule expressions to parameters, forcings, tables, projections and
//! generic inputs.

use vstd::prelude::*;
use crate::identity::{ForcingId, InputId, ParameterId, ProjectionId, TableId};

verus! {

/// The value kind of a projection.
#[derive(Clone, Copy, Debug, PartialEq, Eq, Structural)]
pub enum ProjectionValueKind {
    Extensive,
    Scalar,
    Truth,
}

/// The value kind of an expression leaf.
#[derive(Clone, Copy, Debug, PartialEq, Eq, Structural)]
pub enum ExpressionValueKind {
    Scalar,
    Truth,
}

/// A reference to a rule parameter.
#[derive(Debug, PartialEq, Eq)]
pub struct ParameterRef {
    pub id: ParameterId,
    pub value_kind: ExpressionValueKind,
}

/// A reference to a forcing series.
#[derive(Debug, PartialEq, Eq)]
pub struct ForcingRef {
    pub id: ForcingId,
    pub value_kind: ExpressionValueKind,
}

/// A reference to an interpolation table.
#[derive(Debug, PartialEq, Eq)]
pub struct TableRef {
    pub id: TableId,
}

/// A reference to a projection with its declared value kind.
#[derive(Debug, PartialEq, Eq)]
pub struct ProjectionRef {
    pub id: ProjectionId,
    pub value_kind: ProjectionValueKind,
}

/// A reference to a generic rule input with its declared value kind.
#[derive(Debug, PartialEq, Eq)]
pub struct InputRef {
    pub id: InputId,
    pub value_kind: ExpressionValueKind,
}

impl Clone for ParameterRef {
    fn clone(&self) -> (r: Self)
        ensures
            r == *self,
    {
        ParameterRef { id: self.id.clone(), value_kind: self.value_kind }
    }
}

impl Clone for ForcingRef {
    fn clone(&self) -> (r: Self)
        ensures
            r == *self,
    {
        ForcingRef { id: self.id.clone(), value_kind: self.value_kind }
    }
}

impl Clone for TableRef {
    fn clone(&self) -> (r: Self)
        ensures
            r == *self,
    {
        TableRef { id: self.id.clone() }
    }
}

impl Clone for ProjectionRef {
    fn clone(&self) -> (r: Self)
        ensures
            r == *self,
    {
        ProjectionRef { id: self.id.clone(), value_kind: self.value_kind }
    }
}

impl Clone for InputRef {
    fn clone(&self) -> (r: Self)
        ensures
            r == *self,
    {
        InputRef { id: self.id.clone(), value_kind: self.value_kind }
    }
}

/// The expression value kind that a projection of kind `kind` provides.
pub open spec fn projection_expression_kind(kind: ProjectionValueKind) -> ExpressionValueKind {
    match kind {
        ProjectionValueKind::Truth => ExpressionValueKind::Truth,
        _ => ExpressionValueKind::Scalar,
    }
}

/// The expression value kind that a projection of kind `kind` provides.
pub fn projection_provides(kind: ProjectionValueKind) -> (r: ExpressionValueKind)
    ensures
        r == projection_expression_kind(kind),
{
    match kind {
        ProjectionValueKind::Truth => ExpressionValueKind::Truth,
        _ => ExpressionValueKind::Scalar,
    }
}

} // verus!
