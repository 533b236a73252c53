use vstd::prelude::*;

verus! {

/// The rule intermediate-representation protocol version.
#[derive(Clone, Copy, Debug, PartialEq, Eq, Structural)]
pub enum RuleIrVersion {
    V1,
}

/// The interpreter protocol version.
#[derive(Clone, Copy, Debug, PartialEq, Eq, Structural)]
pub enum InterpreterVersion {
    V1,
}

/// The numerical semantics protocol version.
#[derive(Clone, Copy, Debug, PartialEq, Eq, Structural)]
pub enum NumericalSemanticsVersion {
    V1,
    V2,
}

/// The canonical byte-encoding protocol version.
#[derive(Clone, Copy, Debug, PartialEq, Eq, Structural)]
pub enum CanonicalEncodingVersion {
    V1,
}

} // verus!
