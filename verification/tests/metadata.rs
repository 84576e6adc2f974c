use polyrust::{FailureBehavior, TargetEffect, TypeParameterVariance};

#[test]
fn closed_metadata_variants_remain_constructible_without_string_switches() {
    let failures = [
        FailureBehavior::Infallible,
        FailureBehavior::ReturnsSentinel,
        FailureBehavior::ReturnsResult,
        FailureBehavior::ThrowsChecked,
        FailureBehavior::ThrowsUnchecked,
        FailureBehavior::Aborts,
    ];
    let effects = [
        TargetEffect::Allocation,
        TargetEffect::Mutation,
        TargetEffect::InputOutput,
        TargetEffect::Nondeterminism,
        TargetEffect::MayBlock,
    ];
    let variances = [
        TypeParameterVariance::Invariant,
        TypeParameterVariance::Covariant,
        TypeParameterVariance::Contravariant,
    ];
    assert_eq!(failures.len(), 6);
    assert_eq!(effects.len(), 5);
    assert_eq!(variances.len(), 3);
}
