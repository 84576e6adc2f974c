use polyrust::{check_intrinsic, classify_intrinsic, Capability, Intrinsic, IntrinsicOutcome, NodeId, TypeRef};

fn list(t: TypeRef) -> TypeRef {
    TypeRef::List(Box::new(t))
}

#[test]
fn intrinsics_type_their_operands() {
    assert_eq!(
        classify_intrinsic(Intrinsic::BoolAnd, &vec![TypeRef::Bool, TypeRef::Bool]),
        IntrinsicOutcome::Typed(TypeRef::Bool)
    );
    assert_eq!(
        classify_intrinsic(Intrinsic::ListGetChecked, &vec![list(TypeRef::I64), TypeRef::I64]),
        IntrinsicOutcome::Typed(TypeRef::I64)
    );
    assert_eq!(
        classify_intrinsic(Intrinsic::BoolAnd, &vec![TypeRef::Bool]),
        IntrinsicOutcome::Invalid
    );
    assert_eq!(
        classify_intrinsic(Intrinsic::Equal, &vec![TypeRef::Contract(NodeId(4)), TypeRef::Contract(NodeId(4))]),
        IntrinsicOutcome::ContractEquality
    );
    assert_eq!(
        classify_intrinsic(Intrinsic::WidenI32ToI64, &vec![TypeRef::I32]),
        IntrinsicOutcome::Typed(TypeRef::I64)
    );
}

#[test]
fn rejected_intrinsics_are_reported_with_their_operand_types() {
    let mut diagnostics = Vec::new();
    let mut required = Vec::new();
    let arguments = vec![
        TypeRef::Result { ok: Box::new(TypeRef::I64), error: Box::new(TypeRef::String) },
        TypeRef::Named(NodeId(7)),
    ];
    let result = check_intrinsic(Intrinsic::IntAddChecked, &arguments, NodeId(3), &mut diagnostics, &mut required);
    assert_eq!(result, None);
    assert_eq!(diagnostics.len(), 1);
    assert_eq!(diagnostics[0].code, "InvalidInvocation");
    assert_eq!(
        diagnostics[0].message,
        format!("intrinsic {:?} does not accept operand types {:?}", Intrinsic::IntAddChecked, arguments)
    );
    assert_eq!(required, vec![(NodeId(3), Capability::CheckedIntegerArithmetic)]);
}

#[test]
fn contract_equality_is_refused_and_wrapping_arithmetic_is_required() {
    let mut diagnostics = Vec::new();
    let mut required = Vec::new();
    let arguments = vec![TypeRef::Contract(NodeId(1)), TypeRef::Contract(NodeId(1))];
    assert_eq!(
        check_intrinsic(Intrinsic::Equal, &arguments, NodeId(2), &mut diagnostics, &mut required),
        None
    );
    assert_eq!(diagnostics[0].code, "InvalidContractPosition");
    assert_eq!(diagnostics[0].message, "contract values cannot be compared for equality");
    assert!(required.is_empty());
    let ints = vec![TypeRef::I32, TypeRef::I32];
    assert_eq!(
        check_intrinsic(Intrinsic::IntAddWrapping, &ints, NodeId(5), &mut diagnostics, &mut required),
        Some(TypeRef::I32)
    );
    assert_eq!(diagnostics.len(), 1);
    assert_eq!(required, vec![(NodeId(5), Capability::WrappingIntegerArithmetic)]);
}

#[test]
fn string_replace_many_takes_pairs_of_strings() {
    let strings = |n: usize| (0..n).map(|_| TypeRef::String).collect::<Vec<_>>();
    assert_eq!(
        classify_intrinsic(Intrinsic::StringReplaceMany, &strings(3)),
        IntrinsicOutcome::Typed(TypeRef::String)
    );
    assert_eq!(classify_intrinsic(Intrinsic::StringReplaceMany, &strings(2)), IntrinsicOutcome::Invalid);
    assert_eq!(classify_intrinsic(Intrinsic::StringReplaceMany, &strings(1)), IntrinsicOutcome::Invalid);
}
