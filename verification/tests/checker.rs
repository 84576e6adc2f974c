use polyrust::{
    check_declared_types, check_top_level_names, Constant, Expression, Field, Function,
    Implementation, Interface, MethodSignature, Module, Parameter, Record, Type, Value,
};

fn empty_module() -> Module {
    Module {
        name: "demo".into(),
        constants: vec![],
        records: vec![],
        interfaces: vec![],
        implementations: vec![],
        functions: vec![],
        tests: vec![],
    }
}

fn codes_and_messages(diagnostics: &[polyrust::Diagnostic]) -> Vec<(&str, &str)> {
    diagnostics.iter().map(|d| (d.code, d.message.as_str())).collect()
}

#[test]
fn top_level_names_must_be_identifiers_and_unique() {
    let mut module = empty_module();
    module.constants.push(Constant {
        name: "limit".into(),
        ty: Type::I64,
        value: Value::I64(3),
    });
    module.records.push(Record { name: "limit".into(), fields: vec![] });
    module.functions.push(Function {
        name: "9lives".into(),
        parameters: vec![],
        return_type: Type::Bool,
        body: Expression::Value(Value::Bool(true)),
    });
    for _ in 0..2 {
        module.implementations.push(Implementation {
            interface: "Shape".into(),
            record: "Square".into(),
            methods: vec![],
        });
    }
    let mut diagnostics = Vec::new();
    check_top_level_names(&module, &mut diagnostics);
    assert_eq!(
        codes_and_messages(&diagnostics),
        vec![
            ("P0002", "duplicate top-level name `limit`"),
            ("P0001", "function name `9lives` is not a portable identifier"),
            ("P0003", "duplicate implementation of `Shape` for `Square`"),
        ]
    );
}

#[test]
fn declared_types_must_be_known_and_members_unique() {
    let mut module = empty_module();
    module.constants.push(Constant {
        name: "origin".into(),
        ty: Type::Named("Point".into()),
        value: Value::Bool(false),
    });
    module.records.push(Record {
        name: "Pair".into(),
        fields: vec![
            Field { name: "left".into(), ty: Type::I64 },
            Field { name: "left".into(), ty: Type::Named("Pair".into()) },
            Field { name: "bad name".into(), ty: Type::String },
        ],
    });
    module.interfaces.push(Interface {
        name: "Shape".into(),
        methods: vec![
            MethodSignature { name: "area".into(), parameters: vec![], return_type: Type::I64 },
            MethodSignature {
                name: "area".into(),
                parameters: vec![
                    Parameter { name: "x".into(), ty: Type::I64 },
                    Parameter { name: "x".into(), ty: Type::Named("Shape".into()) },
                ],
                return_type: Type::Named("Missing".into()),
            },
        ],
    });
    let mut diagnostics = Vec::new();
    check_declared_types(&module, &mut diagnostics);
    assert_eq!(
        codes_and_messages(&diagnostics),
        vec![
            ("P0100", "unknown type `Point`"),
            ("P0005", "duplicate field `left` in `Pair`"),
            ("P0001", "field name `bad name` is not a portable identifier"),
            ("P0004", "duplicate method `area` in `Shape`"),
            ("P0006", "duplicate parameter `x`"),
            ("P0100", "unknown type `Missing`"),
        ]
    );
    let mut clean = Vec::new();
    check_declared_types(&empty_module(), &mut clean);
    assert!(clean.is_empty());
}

#[test]
fn rejects_an_unresolved_local() {
    let mut module = empty_module();
    module.functions.push(Function {
        name: "broken".into(),
        parameters: vec![],
        return_type: Type::Bool,
        body: Expression::local("missing"),
    });
    let diagnostics = polyrust::check(module).unwrap_err();
    assert!(diagnostics.iter().any(|item| item.code == "P0401"));
}

fn shapes_module() -> Module {
    let mut module = empty_module();
    module.records.push(Record {
        name: "Square".into(),
        fields: vec![Field { name: "side".into(), ty: Type::I64 }],
    });
    module.interfaces.push(Interface {
        name: "Shape".into(),
        methods: vec![MethodSignature {
            name: "wide".into(),
            parameters: vec![Parameter { name: "limit".into(), ty: Type::I64 }],
            return_type: Type::Bool,
        }],
    });
    module.implementations.push(Implementation {
        interface: "Shape".into(),
        record: "Square".into(),
        methods: vec![Function {
            name: "wide".into(),
            parameters: vec![Parameter { name: "limit".into(), ty: Type::I64 }],
            return_type: Type::Bool,
            body: Expression::Compare {
                left: Box::new(Expression::SelfField("side".into())),
                right: Box::new(Expression::local("limit")),
            },
        }],
    });
    module.functions.push(Function {
        name: "check_wide".into(),
        parameters: vec![Parameter { name: "shape".into(), ty: Type::Named("Shape".into()) }],
        return_type: Type::Bool,
        body: Expression::MethodCall {
            receiver: Box::new(Expression::local("shape")),
            method: "wide".into(),
            arguments: vec![Expression::Value(Value::I64(3))],
        },
    });
    module.tests.push(polyrust::PortableTest {
        name: "square_is_wide".into(),
        function: "check_wide".into(),
        arguments: vec![Value::Record {
            name: "Square".into(),
            fields: vec![("side".into(), Value::I64(5))],
        }],
        expected: Value::Bool(true),
    });
    module
}

#[test]
fn a_well_formed_module_passes_and_is_kept() {
    let checked = polyrust::check(shapes_module()).unwrap();
    assert_eq!(checked.module().functions[0].name, "check_wide");
}

#[test]
fn ill_typed_bodies_values_and_tests_are_reported() {
    let mut module = shapes_module();
    module.constants.push(Constant {
        name: "unit".into(),
        ty: Type::Named("Square".into()),
        value: Value::Record {
            name: "Square".into(),
            fields: vec![
                ("side".into(), Value::Bool(true)),
                ("colour".into(), Value::String("red".into())),
            ],
        },
    });
    module.functions.push(Function {
        name: "bad".into(),
        parameters: vec![],
        return_type: Type::I64,
        body: Expression::Field {
            base: Box::new(Expression::Constant("unit".into())),
            field: "height".into(),
        },
    });
    module.tests.push(polyrust::PortableTest {
        name: "square_is_wide".into(),
        function: "nowhere".into(),
        arguments: vec![],
        expected: Value::Bool(true),
    });
    let diagnostics = polyrust::check(module).unwrap_err();
    assert_eq!(
        codes_and_messages(&diagnostics),
        vec![
            ("P0202", "record value `Square` has missing or duplicate fields"),
            ("P0203", "field `Square.side` has the wrong type"),
            ("P0204", "record value `Square` has unknown field `colour`"),
            ("P0405", "unknown field `height` on `Square`"),
            ("P0400", "body of `bad` does not match its return type"),
            ("P0500", "duplicate portable test name `square_is_wide`"),
            ("P0501", "test calls unknown function `nowhere`"),
        ]
    );
}

#[test]
fn implementations_must_match_their_interface() {
    let mut module = shapes_module();
    module.implementations[0].methods[0].return_type = Type::I64;
    module.implementations[0].methods.push(Function {
        name: "extra".into(),
        parameters: vec![],
        return_type: Type::Bool,
        body: Expression::Value(Value::Bool(true)),
    });
    module.implementations.push(Implementation {
        interface: "Drawable".into(),
        record: "Square".into(),
        methods: vec![],
    });
    let diagnostics = polyrust::check(module).unwrap_err();
    assert_eq!(
        codes_and_messages(&diagnostics),
        vec![
            ("P0303", "method `wide` does not match its interface"),
            ("P0400", "body of `wide` does not match its return type"),
            ("P0304", "extra method `extra` in interface implementation"),
            ("P0300", "unknown interface `Drawable`"),
        ]
    );
}
