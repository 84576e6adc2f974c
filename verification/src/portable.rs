//! The prototype portable model that the checker reads: a module of
//! constants, records, interfaces, implementations, functions and tests.
use vstd::prelude::*;

verus! {

/// A type of the portable model.
#[derive(Clone, Debug)]
pub enum Type {
    Bool,
    I64,
    String,
    Named(String),
}

/// A literal value.
#[derive(Debug)]
pub enum Value {
    Bool(bool),
    I64(i64),
    String(String),
    Record { name: String, fields: Vec<(String, Value)> },
}

/// An expression of a function body.
#[derive(Debug)]
pub enum Expression {
    Value(Value),
    Local(String),
    Constant(String),
    SelfField(String),
    Field { base: Box<Expression>, field: String },
    Compare { left: Box<Expression>, right: Box<Expression> },
    MethodCall { receiver: Box<Expression>, method: String, arguments: Vec<Expression> },
}

impl Expression {
    /// The local variable `name`.
    pub fn local(name: &str) -> (result: Self)
        ensures
            result matches Expression::Local(n) && n@ == name@,
    {
        Expression::Local(name.to_owned())
    }
}

#[derive(Clone, Debug)]
pub struct Parameter {
    pub name: String,
    pub ty: Type,
}

#[derive(Clone, Debug)]
pub struct Field {
    pub name: String,
    pub ty: Type,
}

#[derive(Clone, Debug)]
pub struct Record {
    pub name: String,
    pub fields: Vec<Field>,
}

#[derive(Clone, Debug)]
pub struct MethodSignature {
    pub name: String,
    pub parameters: Vec<Parameter>,
    pub return_type: Type,
}

#[derive(Clone, Debug)]
pub struct Interface {
    pub name: String,
    pub methods: Vec<MethodSignature>,
}

#[derive(Debug)]
pub struct Function {
    pub name: String,
    pub parameters: Vec<Parameter>,
    pub return_type: Type,
    pub body: Expression,
}

#[derive(Debug)]
pub struct Constant {
    pub name: String,
    pub ty: Type,
    pub value: Value,
}

#[derive(Debug)]
pub struct Implementation {
    pub interface: String,
    pub record: String,
    pub methods: Vec<Function>,
}

#[derive(Debug)]
pub struct PortableTest {
    pub name: String,
    pub function: String,
    pub arguments: Vec<Value>,
    pub expected: Value,
}

/// A module of the prototype portable model.
#[derive(Debug)]
pub struct Module {
    pub name: String,
    pub constants: Vec<Constant>,
    pub records: Vec<Record>,
    pub interfaces: Vec<Interface>,
    pub implementations: Vec<Implementation>,
    pub functions: Vec<Function>,
    pub tests: Vec<PortableTest>,
}

} // verus!
