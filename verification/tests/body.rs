use polyrust::ir::{
    Block, DeclarationKind, EnumVariant, Expression, ExpressionField, FieldDeclaration, FunctionDeclaration, ImplementationDeclaration,
    Literal, MethodDispatch, MethodImplementation, MethodSignature, Parameter, Statement,
};
use polyrust::{
    check_block, check_contract, check_expression, check_function, check_implementation, check_record, Binding, Capability, CheckEvent, Diagnostic, Intrinsic, NodeId,
    TypeRef,
};

fn lit(node: u64, value: Literal) -> Expression {
    Expression::Literal { node: NodeId(node), value }
}

fn local(node: u64, name: &str) -> Expression {
    Expression::Local { node: NodeId(node), name: name.to_owned() }
}

fn block(node: u64, statements: Vec<Statement>, result: Option<Expression>) -> Block {
    Block { node: NodeId(node), statements, result: result.map(Box::new) }
}

fn reported(code: &'static str, message: &str) -> CheckEvent {
    CheckEvent::Reported(Diagnostic { code, message: message.to_owned() })
}

#[test]
fn let_bindings_are_typed_and_resolved() {
    let body = block(
        1,
        vec![Statement::Let {
            node: NodeId(2),
            name: "x".to_owned(),
            annotation: Some(TypeRef::I64),
            value: lit(3, Literal::I64(7)),
        }],
        Some(local(4, "x")),
    );
    let mut events = Vec::new();
    let flow = check_block(&vec![], &body, &vec![], &TypeRef::Unit, &None, 0, &mut events);
    assert_eq!(flow.ty, TypeRef::I64);
    assert!(!flow.always_returns);
    assert_eq!(
        events,
        vec![
            CheckEvent::Typed(NodeId(3), TypeRef::I64),
            CheckEvent::Resolved(NodeId(4), NodeId(2)),
            CheckEvent::Typed(NodeId(4), TypeRef::I64),
        ]
    );
}

#[test]
fn unknown_locals_and_self_outside_methods_are_unresolved() {
    let mut events = Vec::new();
    assert_eq!(check_expression(&vec![], &local(1, "y"), &vec![], &TypeRef::Unit, &None, 0, &mut events), None);
    assert_eq!(events, vec![reported("UnresolvedReference", "unknown local \"y\"")]);
    let mut events = Vec::new();
    let this = Expression::SelfValue { node: NodeId(2) };
    assert_eq!(check_expression(&vec![], &this, &vec![], &TypeRef::Unit, &None, 0, &mut events), None);
    assert_eq!(
        events,
        vec![reported("UnresolvedReference", "self is available only inside an implementation method")]
    );
    let mut events = Vec::new();
    let scope = vec![Binding { name: "s".to_owned(), symbol: NodeId(9), ty: TypeRef::String }];
    assert_eq!(
        check_expression(&vec![], &local(5, "s"), &scope, &TypeRef::Unit, &None, 0, &mut events),
        Some(TypeRef::String)
    );
    assert_eq!(
        events,
        vec![
            CheckEvent::Resolved(NodeId(5), NodeId(9)),
            CheckEvent::Typed(NodeId(5), TypeRef::String),
            CheckEvent::Required(NodeId(5), Capability::UnicodeScalar),
        ]
    );
}

#[test]
fn statements_after_a_return_are_unreachable() {
    let body = block(
        1,
        vec![
            Statement::Return { node: NodeId(2), value: Some(lit(3, Literal::Bool(true))) },
            Statement::Expression { node: NodeId(4), value: lit(5, Literal::Unit) },
        ],
        None,
    );
    let mut events = Vec::new();
    let flow = check_block(&vec![], &body, &vec![], &TypeRef::Bool, &None, 0, &mut events);
    assert!(flow.always_returns);
    assert_eq!(flow.ty, TypeRef::Bool);
    assert_eq!(
        events,
        vec![
            CheckEvent::Typed(NodeId(3), TypeRef::Bool),
            reported("InvalidControlFlow", "statement is unreachable after return"),
            CheckEvent::Typed(NodeId(5), TypeRef::Unit),
        ]
    );
}

#[test]
fn if_conditions_must_be_bool_and_branches_must_agree() {
    let expression = Expression::If {
        node: NodeId(1),
        condition: Box::new(lit(2, Literal::I32(1))),
        then_block: block(3, vec![], Some(lit(4, Literal::I64(1)))),
        else_block: block(5, vec![], Some(lit(6, Literal::Bool(false)))),
    };
    let mut events = Vec::new();
    assert_eq!(check_expression(&vec![], &expression, &vec![], &TypeRef::Unit, &None, 0, &mut events), None);
    assert_eq!(
        events,
        vec![
            CheckEvent::Typed(NodeId(2), TypeRef::I32),
            reported("TypeMismatch", "if condition has an incompatible portable type"),
            CheckEvent::Typed(NodeId(4), TypeRef::I64),
            CheckEvent::Typed(NodeId(6), TypeRef::Bool),
            reported("InvalidControlFlow", "branches produce incompatible types"),
        ]
    );
}

#[test]
fn a_returning_branch_gives_way_to_the_other() {
    let expression = Expression::If {
        node: NodeId(1),
        condition: Box::new(lit(2, Literal::Bool(true))),
        then_block: block(3, vec![Statement::Return { node: NodeId(4), value: None }], None),
        else_block: block(5, vec![], Some(lit(6, Literal::I64(3)))),
    };
    let mut events = Vec::new();
    assert_eq!(
        check_expression(&vec![], &expression, &vec![], &TypeRef::Unit, &None, 0, &mut events),
        Some(TypeRef::I64)
    );
    assert_eq!(events.last(), Some(&CheckEvent::Typed(NodeId(1), TypeRef::I64)));
}

#[test]
fn for_each_needs_a_list_and_requires_bounded_iteration() {
    let body = block(
        1,
        vec![Statement::ForEach {
            node: NodeId(2),
            binding: "item".to_owned(),
            iterable: lit(3, Literal::I64(1)),
            body: block(4, vec![], None),
        }],
        None,
    );
    let mut events = Vec::new();
    check_block(&vec![], &body, &vec![], &TypeRef::Unit, &None, 0, &mut events);
    assert_eq!(
        events,
        vec![
            CheckEvent::Required(NodeId(2), Capability::BoundedIteration),
            CheckEvent::Typed(NodeId(3), TypeRef::I64),
            reported("TypeMismatch", "for-each iterable has an incompatible portable type"),
        ]
    );
}

#[test]
fn literals_lists_and_types_are_checked() {
    let mut events = Vec::new();
    assert_eq!(
        check_expression(&vec![], &lit(1, Literal::Container), &vec![], &TypeRef::Unit, &None, 0, &mut events),
        None
    );
    assert_eq!(events, vec![reported("TypeMismatch", "container literals require an explicit expected type")]);

    let list = Expression::ConstructList {
        node: NodeId(2),
        element_type: TypeRef::I64,
        elements: vec![lit(3, Literal::I64(1)), lit(4, Literal::Bool(true))],
    };
    let mut events = Vec::new();
    assert_eq!(
        check_expression(&vec![], &list, &vec![], &TypeRef::Unit, &None, 0, &mut events),
        Some(TypeRef::List(Box::new(TypeRef::I64)))
    );
    assert_eq!(
        events,
        vec![
            CheckEvent::Typed(NodeId(3), TypeRef::I64),
            CheckEvent::Typed(NodeId(4), TypeRef::Bool),
            reported("TypeMismatch", "list element has an incompatible portable type"),
            CheckEvent::Typed(NodeId(2), TypeRef::List(Box::new(TypeRef::I64))),
            CheckEvent::Required(NodeId(2), Capability::ImmutableList),
        ]
    );

    let none = Expression::ConstructNone { node: NodeId(5), inner_type: TypeRef::Named(NodeId(99)) };
    let mut events = Vec::new();
    check_expression(&vec![], &none, &vec![], &TypeRef::Unit, &None, 0, &mut events);
    assert_eq!(events[0], reported("UnresolvedReference", "unresolved named type node 99"));
    let decls = vec![(NodeId(99), DeclarationKind::Record(vec![]))];
    let mut events = Vec::new();
    check_expression(&decls, &none, &vec![], &TypeRef::Unit, &None, 0, &mut events);
    assert_eq!(events[0], CheckEvent::Typed(NodeId(5), TypeRef::Option(Box::new(TypeRef::Named(NodeId(99))))));
}

#[test]
fn intrinsics_are_checked_on_their_operand_types() {
    let add = Expression::Intrinsic {
        node: NodeId(1),
        operation: Intrinsic::IntAddChecked,
        arguments: vec![lit(2, Literal::I64(1)), lit(3, Literal::I64(2))],
    };
    let mut events = Vec::new();
    assert_eq!(check_expression(&vec![], &add, &vec![], &TypeRef::Unit, &None, 0, &mut events), Some(TypeRef::I64));
    assert_eq!(
        events,
        vec![
            CheckEvent::Typed(NodeId(2), TypeRef::I64),
            CheckEvent::Typed(NodeId(3), TypeRef::I64),
            CheckEvent::Required(NodeId(1), Capability::CheckedIntegerArithmetic),
            CheckEvent::Typed(NodeId(1), TypeRef::I64),
        ]
    );
    let stops = Expression::Intrinsic {
        node: NodeId(4),
        operation: Intrinsic::BoolAnd,
        arguments: vec![local(5, "missing"), lit(6, Literal::Bool(true))],
    };
    let mut events = Vec::new();
    assert_eq!(check_expression(&vec![], &stops, &vec![], &TypeRef::Unit, &None, 0, &mut events), None);
    assert_eq!(events, vec![reported("UnresolvedReference", "unknown local \"missing\"")]);
}

#[test]
fn depth_is_limited() {
    let mut events = Vec::new();
    assert_eq!(
        check_expression(&vec![], &lit(1, Literal::Unit), &vec![], &TypeRef::Unit, &None, 65, &mut events),
        None
    );
    assert_eq!(events, vec![reported("ExcessiveComplexity", "expression exceeds the checker depth limit")]);
    let mut events = Vec::new();
    let flow = check_block(&vec![], &block(2, vec![], None), &vec![], &TypeRef::Unit, &None, 65, &mut events);
    assert_eq!(flow.ty, TypeRef::Unit);
    assert_eq!(events, vec![reported("ExcessiveComplexity", "block exceeds the checker depth limit")]);
    let mut events = Vec::new();
    assert_eq!(
        check_expression(&vec![], &lit(3, Literal::Unit), &vec![], &TypeRef::Unit, &None, 64, &mut events),
        None
    );
    assert_eq!(events, vec![reported("ExcessiveComplexity", "literal value exceeds the checker depth limit")]);
}

#[test]
fn records_return_where_their_contract_is_expected_only_when_implemented() {
    let decls = vec![
        (NodeId(10), DeclarationKind::Record(vec![])),
        (NodeId(11), DeclarationKind::Contract(vec![])),
        (NodeId(12), DeclarationKind::Implementation { record: NodeId(10), contract: NodeId(11), methods: vec![] }),
    ];
    let body = block(1, vec![Statement::Return { node: NodeId(2), value: Some(Expression::SelfValue { node: NodeId(3) }) }], None);
    let mut events = Vec::new();
    let flow = check_block(
        &decls,
        &body,
        &vec![],
        &TypeRef::Contract(NodeId(11)),
        &Some(TypeRef::Named(NodeId(10))),
        0,
        &mut events,
    );
    assert!(flow.always_returns);
    assert_eq!(events, vec![CheckEvent::Typed(NodeId(3), TypeRef::Named(NodeId(10)))]);
    let mut events = Vec::new();
    let unimplemented = vec![(NodeId(10), DeclarationKind::Record(vec![])), (NodeId(11), DeclarationKind::Contract(vec![]))];
    check_block(
        &unimplemented,
        &body,
        &vec![],
        &TypeRef::Contract(NodeId(11)),
        &Some(TypeRef::Named(NodeId(10))),
        0,
        &mut events,
    );
    assert_eq!(events[1], reported("TypeMismatch", "return value has an incompatible portable type"));
}

#[test]
fn functions_must_produce_their_return_type() {
    let function = FunctionDeclaration {
        node: NodeId(1),
        name: "f".to_owned(),
        parameters: vec![
            Parameter { node: NodeId(2), name: "a".to_owned(), ty: TypeRef::I64 },
            Parameter { node: NodeId(3), name: "a".to_owned(), ty: TypeRef::I64 },
        ],
        return_type: TypeRef::I64,
        body: block(4, vec![], Some(lit(5, Literal::Bool(true)))),
    };
    let mut events = Vec::new();
    check_function(&vec![], &function, &mut events);
    assert_eq!(
        events,
        vec![
            reported("DuplicateDeclaration", "duplicate parameter \"a\""),
            CheckEvent::Typed(NodeId(5), TypeRef::Bool),
            reported("InvalidControlFlow", "function \"f\" can finish without producing its return type"),
        ]
    );
    let good = FunctionDeclaration {
        node: NodeId(1),
        name: "g".to_owned(),
        parameters: vec![Parameter { node: NodeId(2), name: "a".to_owned(), ty: TypeRef::I64 }],
        return_type: TypeRef::I64,
        body: block(4, vec![], Some(local(5, "a"))),
    };
    let mut events = Vec::new();
    check_function(&vec![], &good, &mut events);
    assert_eq!(
        events,
        vec![CheckEvent::Resolved(NodeId(5), NodeId(2)), CheckEvent::Typed(NodeId(5), TypeRef::I64)]
    );
}

fn point() -> (NodeId, DeclarationKind) {
    (
        NodeId(20),
        DeclarationKind::Record(vec![
            FieldDeclaration { node: NodeId(21), name: "x".to_owned(), ty: TypeRef::I64 },
            FieldDeclaration { node: NodeId(22), name: "y".to_owned(), ty: TypeRef::I64 },
        ]),
    )
}

#[test]
fn records_are_constructed_with_every_field_once() {
    let decls = vec![point()];
    let good = Expression::ConstructRecord {
        node: NodeId(1),
        declaration: NodeId(20),
        fields: vec![
            ExpressionField { field: NodeId(21), value: lit(2, Literal::I64(1)) },
            ExpressionField { field: NodeId(22), value: lit(3, Literal::I64(2)) },
        ],
    };
    let mut events = Vec::new();
    assert_eq!(
        check_expression(&decls, &good, &vec![], &TypeRef::Unit, &None, 0, &mut events),
        Some(TypeRef::Named(NodeId(20)))
    );
    assert_eq!(
        events,
        vec![
            CheckEvent::Typed(NodeId(2), TypeRef::I64),
            CheckEvent::Typed(NodeId(3), TypeRef::I64),
            CheckEvent::Typed(NodeId(1), TypeRef::Named(NodeId(20))),
        ]
    );
    let bad = Expression::ConstructRecord {
        node: NodeId(1),
        declaration: NodeId(20),
        fields: vec![
            ExpressionField { field: NodeId(21), value: lit(2, Literal::Bool(true)) },
            ExpressionField { field: NodeId(21), value: lit(3, Literal::I64(2)) },
            ExpressionField { field: NodeId(29), value: lit(4, Literal::I64(2)) },
        ],
    };
    let mut events = Vec::new();
    check_expression(&decls, &bad, &vec![], &TypeRef::Unit, &None, 0, &mut events);
    let partial = Expression::ConstructRecord {
        node: NodeId(5),
        declaration: NodeId(20),
        fields: vec![ExpressionField { field: NodeId(21), value: lit(6, Literal::I64(1)) }],
    };
    let mut partial_events = Vec::new();
    check_expression(&decls, &partial, &vec![], &TypeRef::Unit, &None, 0, &mut partial_events);
    assert_eq!(
        partial_events[1],
        reported("InvalidInvocation", "aggregate constructor does not supply every field exactly once")
    );
    assert_eq!(
        events,
        vec![
            CheckEvent::Typed(NodeId(2), TypeRef::Bool),
            reported("TypeMismatch", "aggregate field expression has an incompatible portable type"),
            reported("DuplicateDeclaration", "duplicate expression field node 21"),
            CheckEvent::Typed(NodeId(3), TypeRef::I64),
            reported("UnresolvedReference", "unresolved aggregate field node 29"),
            CheckEvent::Typed(NodeId(1), TypeRef::Named(NodeId(20))),
        ]
    );
}

#[test]
fn fields_are_read_from_records() {
    let decls = vec![point()];
    let scope = vec![Binding { name: "p".to_owned(), symbol: NodeId(9), ty: TypeRef::Named(NodeId(20)) }];
    let read = Expression::Field { node: NodeId(1), base: Box::new(local(2, "p")), field: NodeId(22) };
    let mut events = Vec::new();
    assert_eq!(check_expression(&decls, &read, &scope, &TypeRef::Unit, &None, 0, &mut events), Some(TypeRef::I64));
    let wrong = Expression::Field { node: NodeId(1), base: Box::new(lit(2, Literal::I64(1))), field: NodeId(22) };
    let mut events = Vec::new();
    assert_eq!(check_expression(&decls, &wrong, &scope, &TypeRef::Unit, &None, 0, &mut events), None);
    assert_eq!(events[1], reported("TypeMismatch", "field receiver has an incompatible portable type"));
    let missing = Expression::Field { node: NodeId(1), base: Box::new(local(2, "p")), field: NodeId(23) };
    let mut events = Vec::new();
    assert_eq!(check_expression(&decls, &missing, &scope, &TypeRef::Unit, &None, 0, &mut events), None);
    assert_eq!(events.last(), Some(&reported("UnresolvedReference", "unresolved record field node 23")));
}

#[test]
fn calls_are_checked_against_their_function() {
    let decls = vec![(
        NodeId(30),
        DeclarationKind::Function {
            parameters: vec![Parameter { node: NodeId(31), name: "n".to_owned(), ty: TypeRef::I64 }],
            return_type: TypeRef::Bool,
        },
    )];
    let call = Expression::Call {
        node: NodeId(1),
        function: NodeId(30),
        arguments: vec![lit(2, Literal::Bool(true)), lit(3, Literal::I64(1))],
    };
    let mut events = Vec::new();
    assert_eq!(check_expression(&decls, &call, &vec![], &TypeRef::Unit, &None, 0, &mut events), Some(TypeRef::Bool));
    assert_eq!(
        events,
        vec![
            reported("InvalidInvocation", "invocation has 2 arguments but requires 1"),
            CheckEvent::Typed(NodeId(2), TypeRef::Bool),
            reported("InvalidInvocation", "argument for parameter \"n\" has the wrong type"),
            CheckEvent::Typed(NodeId(1), TypeRef::Bool),
        ]
    );
    let unknown = Expression::Call { node: NodeId(1), function: NodeId(40), arguments: vec![] };
    let mut events = Vec::new();
    assert_eq!(check_expression(&decls, &unknown, &vec![], &TypeRef::Unit, &None, 0, &mut events), None);
    assert_eq!(events, vec![reported("UnresolvedReference", "unresolved function node 40")]);
}

fn shape_contract() -> (NodeId, DeclarationKind) {
    (
        NodeId(50),
        DeclarationKind::Contract(vec![
            MethodSignature { node: NodeId(51), name: "area".to_owned(), parameters: vec![], return_type: TypeRef::I64 },
            MethodSignature { node: NodeId(52), name: "name".to_owned(), parameters: vec![], return_type: TypeRef::String },
        ]),
    )
}

fn area_method(node: u64, contract_method: u64, result: Expression) -> MethodImplementation {
    MethodImplementation {
        node: NodeId(node),
        name: "area".to_owned(),
        contract_method: NodeId(contract_method),
        parameters: vec![],
        return_type: TypeRef::I64,
        body: block(node + 1, vec![], Some(result)),
    }
}

#[test]
fn implementations_supply_each_contract_method_once() {
    let implementation = ImplementationDeclaration {
        node: NodeId(60),
        record: NodeId(20),
        contract: NodeId(50),
        methods: vec![
            area_method(61, 51, lit(63, Literal::I64(1))),
            area_method(64, 51, lit(66, Literal::Bool(true))),
        ],
    };
    let decls = vec![
        point(),
        shape_contract(),
        (NodeId(60), DeclarationKind::Implementation { record: NodeId(20), contract: NodeId(50), methods: vec![] }),
    ];
    let mut events = Vec::new();
    check_implementation(&decls, &implementation, &mut events);
    assert_eq!(
        events,
        vec![
            CheckEvent::Typed(NodeId(63), TypeRef::I64),
            reported("DuplicateDeclaration", "duplicate implemented method \"area\""),
            CheckEvent::Typed(NodeId(66), TypeRef::Bool),
            reported("InvalidControlFlow", "method \"area\" can finish without producing its return type"),
            reported("ContractNonconformance", "implementation is missing method \"name\""),
        ]
    );
}

#[test]
fn implementations_need_their_contract_record_and_a_first_place() {
    let implementation = ImplementationDeclaration { node: NodeId(61), record: NodeId(20), contract: NodeId(50), methods: vec![] };
    let mut events = Vec::new();
    check_implementation(&vec![point()], &implementation, &mut events);
    assert_eq!(events, vec![reported("UnresolvedReference", "unresolved implementation contract node 50")]);
    let mut events = Vec::new();
    check_implementation(&vec![shape_contract()], &implementation, &mut events);
    assert_eq!(events, vec![reported("UnresolvedReference", "unresolved implementation record node 20")]);
    let decls = vec![
        point(),
        shape_contract(),
        (NodeId(60), DeclarationKind::Implementation { record: NodeId(20), contract: NodeId(50), methods: vec![] }),
        (NodeId(61), DeclarationKind::Implementation { record: NodeId(20), contract: NodeId(50), methods: vec![] }),
    ];
    let mut events = Vec::new();
    check_implementation(&decls, &implementation, &mut events);
    assert_eq!(events[0], reported("DuplicateDeclaration", "duplicate implementation for the same record and contract"));
    let stranger = ImplementationDeclaration {
        node: NodeId(60),
        record: NodeId(20),
        contract: NodeId(50),
        methods: vec![area_method(70, 99, lit(72, Literal::I64(1)))],
    };
    let mut events = Vec::new();
    check_implementation(&decls, &stranger, &mut events);
    assert_eq!(
        events[0],
        reported("ContractNonconformance", "extra method \"area\" does not reference a required contract method")
    );
}

#[test]
fn method_calls_dispatch_on_contracts_and_implementations() {
    let decls = vec![
        point(),
        shape_contract(),
        (
            NodeId(60),
            DeclarationKind::Implementation {
                record: NodeId(20),
                contract: NodeId(50),
                methods: vec![MethodSignature {
                    node: NodeId(61),
                    name: "area".to_owned(),
                    parameters: vec![],
                    return_type: TypeRef::I64,
                }],
            },
        ),
    ];
    let scope = vec![Binding { name: "p".to_owned(), symbol: NodeId(9), ty: TypeRef::Named(NodeId(20)) }];
    let by_contract = Expression::MethodCall {
        node: NodeId(1),
        receiver: Box::new(local(2, "p")),
        dispatch: MethodDispatch::Contract { contract: NodeId(50), method: NodeId(51) },
        arguments: vec![],
    };
    let mut events = Vec::new();
    assert_eq!(
        check_expression(&decls, &by_contract, &scope, &TypeRef::Unit, &None, 0, &mut events),
        Some(TypeRef::I64)
    );
    assert_eq!(
        events,
        vec![
            CheckEvent::Resolved(NodeId(2), NodeId(9)),
            CheckEvent::Typed(NodeId(2), TypeRef::Named(NodeId(20))),
            CheckEvent::Required(NodeId(1), Capability::ContractDispatch),
            CheckEvent::Typed(NodeId(1), TypeRef::I64),
        ]
    );
    let concrete = Expression::MethodCall {
        node: NodeId(1),
        receiver: Box::new(lit(2, Literal::I64(3))),
        dispatch: MethodDispatch::Concrete { implementation: NodeId(60), method: NodeId(61) },
        arguments: vec![lit(3, Literal::Unit)],
    };
    let mut events = Vec::new();
    assert_eq!(
        check_expression(&decls, &concrete, &scope, &TypeRef::Unit, &None, 0, &mut events),
        Some(TypeRef::I64)
    );
    assert_eq!(
        events,
        vec![
            CheckEvent::Typed(NodeId(2), TypeRef::I64),
            CheckEvent::Required(NodeId(1), Capability::ContractDispatch),
            reported("InvalidInvocation", "concrete method receiver or dispatch owner does not match"),
            reported("InvalidInvocation", "invocation has 1 arguments but requires 0"),
            CheckEvent::Typed(NodeId(1), TypeRef::I64),
        ]
    );
    let unknown = Expression::MethodCall {
        node: NodeId(1),
        receiver: Box::new(local(2, "p")),
        dispatch: MethodDispatch::Concrete { implementation: NodeId(60), method: NodeId(51) },
        arguments: vec![],
    };
    let mut events = Vec::new();
    assert_eq!(check_expression(&decls, &unknown, &scope, &TypeRef::Unit, &None, 0, &mut events), None);
    assert_eq!(events.last(), Some(&reported("UnresolvedReference", "unresolved implementation method node 51")));
}

#[test]
fn enum_values_are_constructed_from_their_variants() {
    let decls = vec![(
        NodeId(70),
        DeclarationKind::Enum(vec![EnumVariant {
            node: NodeId(71),
            name: "Circle".to_owned(),
            fields: vec![FieldDeclaration { node: NodeId(72), name: "r".to_owned(), ty: TypeRef::I64 }],
        }]),
    )];
    let circle = |declaration: u64, variant: u64| Expression::ConstructEnum {
        node: NodeId(1),
        declaration: NodeId(declaration),
        variant: NodeId(variant),
        fields: vec![ExpressionField { field: NodeId(72), value: lit(2, Literal::I64(5)) }],
    };
    let mut events = Vec::new();
    assert_eq!(
        check_expression(&decls, &circle(70, 71), &vec![], &TypeRef::Unit, &None, 0, &mut events),
        Some(TypeRef::Named(NodeId(70)))
    );
    assert_eq!(
        events,
        vec![CheckEvent::Typed(NodeId(2), TypeRef::I64), CheckEvent::Typed(NodeId(1), TypeRef::Named(NodeId(70)))]
    );
    let mut events = Vec::new();
    assert_eq!(check_expression(&decls, &circle(20, 71), &vec![], &TypeRef::Unit, &None, 0, &mut events), None);
    assert_eq!(events, vec![reported("TypeMismatch", "enum variant declaration has an incompatible portable type")]);
    let mut events = Vec::new();
    assert_eq!(check_expression(&decls, &circle(70, 79), &vec![], &TypeRef::Unit, &None, 0, &mut events), None);
    assert_eq!(events, vec![reported("UnresolvedReference", "unresolved enum variant node 79")]);
    let none = Expression::ConstructNone { node: NodeId(3), inner_type: TypeRef::Named(NodeId(70)) };
    let mut events = Vec::new();
    assert_eq!(
        check_expression(&decls, &none, &vec![], &TypeRef::Unit, &None, 0, &mut events),
        Some(TypeRef::Option(Box::new(TypeRef::Named(NodeId(70)))))
    );
}

#[test]
fn block_flow_returns_exactly_when_every_path_returns() {
    let returning_if = Expression::If {
        node: NodeId(1),
        condition: Box::new(lit(2, Literal::Bool(true))),
        then_block: block(3, vec![Statement::Return { node: NodeId(4), value: None }], None),
        else_block: block(5, vec![Statement::Return { node: NodeId(6), value: None }], None),
    };
    let half_if = Expression::If {
        node: NodeId(1),
        condition: Box::new(lit(2, Literal::Bool(true))),
        then_block: block(3, vec![Statement::Return { node: NodeId(4), value: None }], None),
        else_block: block(5, vec![], None),
    };
    let blocks = vec![
        block(10, vec![], None),
        block(10, vec![Statement::Return { node: NodeId(11), value: None }], None),
        block(10, vec![Statement::Expression { node: NodeId(11), value: returning_if }], None),
        block(10, vec![Statement::Expression { node: NodeId(11), value: half_if }], None),
        block(
            10,
            vec![Statement::ForEach {
                node: NodeId(11),
                binding: "x".to_owned(),
                iterable: lit(12, Literal::Unit),
                body: block(13, vec![Statement::Return { node: NodeId(14), value: None }], None),
            }],
            None,
        ),
    ];
    let expected = [false, true, true, false, false];
    for (b, want) in blocks.iter().zip(expected) {
        let mut events = Vec::new();
        let flow = check_block(&vec![], b, &vec![], &TypeRef::Unit, &None, 0, &mut events);
        assert_eq!(flow.always_returns, want);
        assert_eq!(polyrust::block_always_returns(b), want);
    }
}

#[test]
fn records_and_contracts_declare_each_name_once() {
    let fields = vec![
        FieldDeclaration { node: NodeId(1), name: "x".to_owned(), ty: TypeRef::F64 },
        FieldDeclaration { node: NodeId(2), name: "x".to_owned(), ty: TypeRef::I64 },
        FieldDeclaration { node: NodeId(3), name: "9z".to_owned(), ty: TypeRef::Named(NodeId(40)) },
    ];
    let mut events = Vec::new();
    check_record(&vec![], "Point", &fields, &mut events);
    assert_eq!(
        events,
        vec![
            CheckEvent::Required(NodeId(1), Capability::F64),
            reported("DuplicateDeclaration", "duplicate field \"x\" in record \"Point\""),
            reported("InvalidIdentifier", "\"9z\" is not a portable identifier"),
            reported("UnresolvedReference", "unresolved named type node 40"),
        ]
    );
    let methods = vec![
        MethodSignature {
            node: NodeId(5),
            name: "area".to_owned(),
            parameters: vec![Parameter { node: NodeId(6), name: "other".to_owned(), ty: TypeRef::Contract(NodeId(50)) }],
            return_type: TypeRef::I64,
        },
        MethodSignature { node: NodeId(7), name: "area".to_owned(), parameters: vec![], return_type: TypeRef::Unit },
    ];
    let mut events = Vec::new();
    check_contract(&vec![shape_contract()], "Shape", &methods, &mut events);
    assert_eq!(
        events,
        vec![
            CheckEvent::Required(NodeId(6), Capability::ContractDispatch),
            reported("DuplicateDeclaration", "duplicate method \"area\" in contract \"Shape\""),
        ]
    );
}
