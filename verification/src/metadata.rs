//! Closed metadata vocabularies that target adapters attach to generated
//! symbols and operations.
use vstd::prelude::*;

verus! {

/// How a target operation reports failure.
#[derive(Clone, Copy, Debug, PartialEq, Eq, PartialOrd, Ord)]
pub enum FailureBehavior {
    Infallible,
    ReturnsSentinel,
    ReturnsResult,
    ThrowsChecked,
    ThrowsUnchecked,
    Aborts,
}

/// An effect that a target operation may have.
#[derive(Clone, Copy, Debug, PartialEq, Eq, PartialOrd, Ord)]
pub enum TargetEffect {
    Allocation,
    Mutation,
    InputOutput,
    Nondeterminism,
    MayBlock,
}

/// The variance of a target type parameter.
#[derive(Clone, Copy, Debug, PartialEq, Eq, PartialOrd, Ord)]
pub enum TypeParameterVariance {
    Invariant,
    Covariant,
    Contravariant,
}

/// The operand shape of an equality, as capability selection needs it.
#[derive(Clone, Copy, Debug, PartialEq, Eq, PartialOrd, Ord)]
pub enum EqualityOperandShape {
    GeneralValue,
    PayloadFreeEnum,
    PayloadEnum,
}

/// Whether a target class that inherits may itself be extended.
#[derive(Clone, Copy, Debug, PartialEq, Eq)]
pub enum TargetHeritageFinality {
    Final,
    Extensible,
}

/// Why a target-only inheritance edge is proposed.
#[derive(Clone, Copy, Debug, PartialEq, Eq)]
pub enum TargetHeritagePurpose {
    ExternalFrameworkAdapter,
    Representation,
    ImplementationReuse,
    InterfaceExtension,
    Mixin,
}

} // verus!
