//! The version-0 portable IR as the type checker reads it: node identities,
//! type references and the closed set of intrinsic operations.
use vstd::prelude::*;

verus! {

/// The identity of a node of the syntax tree.
#[derive(Clone, Copy, Debug, PartialEq, Eq, Structural)]
pub struct NodeId(pub u64);

/// A reference to a type.
#[derive(Debug, PartialEq, Eq)]
pub enum TypeRef {
    Unit,
    Bool,
    I32,
    I64,
    F64,
    Char,
    String,
    Bytes,
    List(Box<TypeRef>),
    Option(Box<TypeRef>),
    Result { ok: Box<TypeRef>, error: Box<TypeRef> },
    Named(NodeId),
    Contract(NodeId),
}

/// An intrinsic operation of the portable model.
#[derive(Clone, Copy, Debug, PartialEq, Eq, Structural)]
pub enum Intrinsic {
    BoolAnd,
    BoolNot,
    BoolOr,
    BytesConcat,
    BytesIsEmpty,
    BytesLength,
    Equal,
    FloatAdd,
    FloatDiv,
    FloatMul,
    FloatNeg,
    FloatRemTrunc,
    FloatSub,
    FloatTrunc,
    Greater,
    GreaterEqual,
    IntAddChecked,
    IntAddWrapping,
    IntBitAnd,
    IntBitNot,
    IntBitOr,
    IntBitXor,
    IntDivChecked,
    IntMulChecked,
    IntMulWrapping,
    IntNegChecked,
    IntNegWrapping,
    IntRemChecked,
    IntShiftLeftChecked,
    IntShiftRightChecked,
    IntSubChecked,
    IntSubWrapping,
    Less,
    LessEqual,
    ListAppend,
    ListConcat,
    ListContains,
    ListGetChecked,
    ListIsEmpty,
    ListLength,
    NarrowI64ToI32Checked,
    NotEqual,
    OptionIsNone,
    OptionIsSome,
    OptionUnwrapOr,
    ResultIsErr,
    ResultIsOk,
    StringConcat,
    StringContains,
    StringEndsWith,
    StringFromUtf8Checked,
    StringIsEmpty,
    StringReplaceAll,
    StringReplaceMany,
    StringScalarLength,
    StringStartsWith,
    StringStripPrefix,
    StringToUtf8,
    StringTrimEnd,
    StringTrimStart,
    StringTruncateUtf8Bytes,
    WidenI32ToI64,
}

/// A literal value as the type checker reads it: its kind, and the scalar it
/// holds where the kind has one. Container literals (lists, options, results)
/// carry no type of their own and are told apart from the rest only by kind.
pub enum Literal {
    Unit,
    Bool(bool),
    I32(i32),
    I64(i64),
    F64,
    Char(char),
    Text(String),
    Bytes(Vec<u8>),
    Container,
}

/// An expression of a function or method body.
pub enum Expression {
    Literal { node: NodeId, value: Literal },
    Local { node: NodeId, name: String },
    Constant { node: NodeId, declaration: NodeId },
    SelfValue { node: NodeId },
    ConstructSome { node: NodeId, value: Box<Expression> },
    ConstructNone { node: NodeId, inner_type: TypeRef },
    ConstructOk { node: NodeId, value: Box<Expression>, error_type: TypeRef },
    ConstructErr { node: NodeId, value: Box<Expression>, ok_type: TypeRef },
    ConstructRecord { node: NodeId, declaration: NodeId, fields: Vec<ExpressionField> },
    ConstructEnum { node: NodeId, declaration: NodeId, variant: NodeId, fields: Vec<ExpressionField> },
    ConstructList { node: NodeId, element_type: TypeRef, elements: Vec<Expression> },
    Field { node: NodeId, base: Box<Expression>, field: NodeId },
    Call { node: NodeId, function: NodeId, arguments: Vec<Expression> },
    MethodCall { node: NodeId, receiver: Box<Expression>, dispatch: MethodDispatch, arguments: Vec<Expression> },
    Intrinsic { node: NodeId, operation: Intrinsic, arguments: Vec<Expression> },
    If { node: NodeId, condition: Box<Expression>, then_block: Block, else_block: Block },
    Block(Block),
}

/// How a method call finds its method: a method of a given implementation,
/// or a method of a contract dispatched on the receiver.
pub enum MethodDispatch {
    Concrete { implementation: NodeId, method: NodeId },
    Contract { contract: NodeId, method: NodeId },
}

/// A field of a record construction: the declared field and its value.
pub struct ExpressionField {
    pub field: NodeId,
    pub value: Expression,
}

/// A statement of a block.
pub enum Statement {
    Let { node: NodeId, name: String, annotation: Option<TypeRef>, value: Expression },
    ForEach { node: NodeId, binding: String, iterable: Expression, body: Block },
    Return { node: NodeId, value: Option<Expression> },
    Expression { node: NodeId, value: Expression },
}

/// A block: statements, then an optional result expression.
pub struct Block {
    pub node: NodeId,
    pub statements: Vec<Statement>,
    pub result: Option<Box<Expression>>,
}

/// A field of a record.
pub struct FieldDeclaration {
    pub node: NodeId,
    pub name: String,
    pub ty: TypeRef,
}

/// A variant of an enum.
pub struct EnumVariant {
    pub node: NodeId,
    pub name: String,
    pub fields: Vec<FieldDeclaration>,
}

/// A parameter of a function or method.
pub struct Parameter {
    pub node: NodeId,
    pub name: String,
    pub ty: TypeRef,
}

/// A function declaration.
pub struct FunctionDeclaration {
    pub node: NodeId,
    pub name: String,
    pub parameters: Vec<Parameter>,
    pub return_type: TypeRef,
    pub body: Block,
}

/// A method that a contract requires.
pub struct MethodSignature {
    pub node: NodeId,
    pub name: String,
    pub parameters: Vec<Parameter>,
    pub return_type: TypeRef,
}

/// A method that an implementation supplies for a method of its contract.
pub struct MethodImplementation {
    pub node: NodeId,
    pub name: String,
    pub contract_method: NodeId,
    pub parameters: Vec<Parameter>,
    pub return_type: TypeRef,
    pub body: Block,
}

/// An implementation of a contract for a record.
pub struct ImplementationDeclaration {
    pub node: NodeId,
    pub record: NodeId,
    pub contract: NodeId,
    pub methods: Vec<MethodImplementation>,
}

/// What a module-level declaration is, as a body refers to it, with the
/// fields, variants, methods and types that bodies read of it. Type aliases
/// are not among the kinds: a named type resolves only to a record or an enum.
pub enum DeclarationKind {
    Record(Vec<FieldDeclaration>),
    Enum(Vec<EnumVariant>),
    Contract(Vec<MethodSignature>),
    Constant(TypeRef),
    Implementation { record: NodeId, contract: NodeId, methods: Vec<MethodSignature> },
    Function { parameters: Vec<Parameter>, return_type: TypeRef },
    Test,
}

/// The node of `e`.
pub open spec fn expression_node(e: Expression) -> NodeId {
    match e {
        Expression::Literal { node, .. } => node,
        Expression::Local { node, .. } => node,
        Expression::Constant { node, .. } => node,
        Expression::SelfValue { node } => node,
        Expression::ConstructSome { node, .. } => node,
        Expression::ConstructNone { node, .. } => node,
        Expression::ConstructOk { node, .. } => node,
        Expression::ConstructErr { node, .. } => node,
        Expression::ConstructRecord { node, .. } => node,
        Expression::ConstructEnum { node, .. } => node,
        Expression::ConstructList { node, .. } => node,
        Expression::Field { node, .. } => node,
        Expression::Call { node, .. } => node,
        Expression::MethodCall { node, .. } => node,
        Expression::Intrinsic { node, .. } => node,
        Expression::If { node, .. } => node,
        Expression::Block(b) => b.node,
    }
}

/// The name of `operation`, as its debug notation writes it.
pub open spec fn intrinsic_text(operation: Intrinsic) -> Seq<char> {
    match operation {
        Intrinsic::BoolAnd => "BoolAnd"@,
        Intrinsic::BoolNot => "BoolNot"@,
        Intrinsic::BoolOr => "BoolOr"@,
        Intrinsic::BytesConcat => "BytesConcat"@,
        Intrinsic::BytesIsEmpty => "BytesIsEmpty"@,
        Intrinsic::BytesLength => "BytesLength"@,
        Intrinsic::Equal => "Equal"@,
        Intrinsic::FloatAdd => "FloatAdd"@,
        Intrinsic::FloatDiv => "FloatDiv"@,
        Intrinsic::FloatMul => "FloatMul"@,
        Intrinsic::FloatNeg => "FloatNeg"@,
        Intrinsic::FloatRemTrunc => "FloatRemTrunc"@,
        Intrinsic::FloatSub => "FloatSub"@,
        Intrinsic::FloatTrunc => "FloatTrunc"@,
        Intrinsic::Greater => "Greater"@,
        Intrinsic::GreaterEqual => "GreaterEqual"@,
        Intrinsic::IntAddChecked => "IntAddChecked"@,
        Intrinsic::IntAddWrapping => "IntAddWrapping"@,
        Intrinsic::IntBitAnd => "IntBitAnd"@,
        Intrinsic::IntBitNot => "IntBitNot"@,
        Intrinsic::IntBitOr => "IntBitOr"@,
        Intrinsic::IntBitXor => "IntBitXor"@,
        Intrinsic::IntDivChecked => "IntDivChecked"@,
        Intrinsic::IntMulChecked => "IntMulChecked"@,
        Intrinsic::IntMulWrapping => "IntMulWrapping"@,
        Intrinsic::IntNegChecked => "IntNegChecked"@,
        Intrinsic::IntNegWrapping => "IntNegWrapping"@,
        Intrinsic::IntRemChecked => "IntRemChecked"@,
        Intrinsic::IntShiftLeftChecked => "IntShiftLeftChecked"@,
        Intrinsic::IntShiftRightChecked => "IntShiftRightChecked"@,
        Intrinsic::IntSubChecked => "IntSubChecked"@,
        Intrinsic::IntSubWrapping => "IntSubWrapping"@,
        Intrinsic::Less => "Less"@,
        Intrinsic::LessEqual => "LessEqual"@,
        Intrinsic::ListAppend => "ListAppend"@,
        Intrinsic::ListConcat => "ListConcat"@,
        Intrinsic::ListContains => "ListContains"@,
        Intrinsic::ListGetChecked => "ListGetChecked"@,
        Intrinsic::ListIsEmpty => "ListIsEmpty"@,
        Intrinsic::ListLength => "ListLength"@,
        Intrinsic::NarrowI64ToI32Checked => "NarrowI64ToI32Checked"@,
        Intrinsic::NotEqual => "NotEqual"@,
        Intrinsic::OptionIsNone => "OptionIsNone"@,
        Intrinsic::OptionIsSome => "OptionIsSome"@,
        Intrinsic::OptionUnwrapOr => "OptionUnwrapOr"@,
        Intrinsic::ResultIsErr => "ResultIsErr"@,
        Intrinsic::ResultIsOk => "ResultIsOk"@,
        Intrinsic::StringConcat => "StringConcat"@,
        Intrinsic::StringContains => "StringContains"@,
        Intrinsic::StringEndsWith => "StringEndsWith"@,
        Intrinsic::StringFromUtf8Checked => "StringFromUtf8Checked"@,
        Intrinsic::StringIsEmpty => "StringIsEmpty"@,
        Intrinsic::StringReplaceAll => "StringReplaceAll"@,
        Intrinsic::StringReplaceMany => "StringReplaceMany"@,
        Intrinsic::StringScalarLength => "StringScalarLength"@,
        Intrinsic::StringStartsWith => "StringStartsWith"@,
        Intrinsic::StringStripPrefix => "StringStripPrefix"@,
        Intrinsic::StringToUtf8 => "StringToUtf8"@,
        Intrinsic::StringTrimEnd => "StringTrimEnd"@,
        Intrinsic::StringTrimStart => "StringTrimStart"@,
        Intrinsic::StringTruncateUtf8Bytes => "StringTruncateUtf8Bytes"@,
        Intrinsic::WidenI32ToI64 => "WidenI32ToI64"@,
    }
}

/// The name of `operation`.
pub fn intrinsic_name(operation: Intrinsic) -> (result: &'static str)
    ensures
        result@ == intrinsic_text(operation),
{
    match operation {
        Intrinsic::BoolAnd => "BoolAnd",
        Intrinsic::BoolNot => "BoolNot",
        Intrinsic::BoolOr => "BoolOr",
        Intrinsic::BytesConcat => "BytesConcat",
        Intrinsic::BytesIsEmpty => "BytesIsEmpty",
        Intrinsic::BytesLength => "BytesLength",
        Intrinsic::Equal => "Equal",
        Intrinsic::FloatAdd => "FloatAdd",
        Intrinsic::FloatDiv => "FloatDiv",
        Intrinsic::FloatMul => "FloatMul",
        Intrinsic::FloatNeg => "FloatNeg",
        Intrinsic::FloatRemTrunc => "FloatRemTrunc",
        Intrinsic::FloatSub => "FloatSub",
        Intrinsic::FloatTrunc => "FloatTrunc",
        Intrinsic::Greater => "Greater",
        Intrinsic::GreaterEqual => "GreaterEqual",
        Intrinsic::IntAddChecked => "IntAddChecked",
        Intrinsic::IntAddWrapping => "IntAddWrapping",
        Intrinsic::IntBitAnd => "IntBitAnd",
        Intrinsic::IntBitNot => "IntBitNot",
        Intrinsic::IntBitOr => "IntBitOr",
        Intrinsic::IntBitXor => "IntBitXor",
        Intrinsic::IntDivChecked => "IntDivChecked",
        Intrinsic::IntMulChecked => "IntMulChecked",
        Intrinsic::IntMulWrapping => "IntMulWrapping",
        Intrinsic::IntNegChecked => "IntNegChecked",
        Intrinsic::IntNegWrapping => "IntNegWrapping",
        Intrinsic::IntRemChecked => "IntRemChecked",
        Intrinsic::IntShiftLeftChecked => "IntShiftLeftChecked",
        Intrinsic::IntShiftRightChecked => "IntShiftRightChecked",
        Intrinsic::IntSubChecked => "IntSubChecked",
        Intrinsic::IntSubWrapping => "IntSubWrapping",
        Intrinsic::Less => "Less",
        Intrinsic::LessEqual => "LessEqual",
        Intrinsic::ListAppend => "ListAppend",
        Intrinsic::ListConcat => "ListConcat",
        Intrinsic::ListContains => "ListContains",
        Intrinsic::ListGetChecked => "ListGetChecked",
        Intrinsic::ListIsEmpty => "ListIsEmpty",
        Intrinsic::ListLength => "ListLength",
        Intrinsic::NarrowI64ToI32Checked => "NarrowI64ToI32Checked",
        Intrinsic::NotEqual => "NotEqual",
        Intrinsic::OptionIsNone => "OptionIsNone",
        Intrinsic::OptionIsSome => "OptionIsSome",
        Intrinsic::OptionUnwrapOr => "OptionUnwrapOr",
        Intrinsic::ResultIsErr => "ResultIsErr",
        Intrinsic::ResultIsOk => "ResultIsOk",
        Intrinsic::StringConcat => "StringConcat",
        Intrinsic::StringContains => "StringContains",
        Intrinsic::StringEndsWith => "StringEndsWith",
        Intrinsic::StringFromUtf8Checked => "StringFromUtf8Checked",
        Intrinsic::StringIsEmpty => "StringIsEmpty",
        Intrinsic::StringReplaceAll => "StringReplaceAll",
        Intrinsic::StringReplaceMany => "StringReplaceMany",
        Intrinsic::StringScalarLength => "StringScalarLength",
        Intrinsic::StringStartsWith => "StringStartsWith",
        Intrinsic::StringStripPrefix => "StringStripPrefix",
        Intrinsic::StringToUtf8 => "StringToUtf8",
        Intrinsic::StringTrimEnd => "StringTrimEnd",
        Intrinsic::StringTrimStart => "StringTrimStart",
        Intrinsic::StringTruncateUtf8Bytes => "StringTruncateUtf8Bytes",
        Intrinsic::WidenI32ToI64 => "WidenI32ToI64",
    }
}

/// Whether two type references are the same.
pub fn same_type_ref(a: &TypeRef, b: &TypeRef) -> (result: bool)
    ensures
        result == (*a == *b),
    decreases a,
{
    match (a, b) {
        (TypeRef::Unit, TypeRef::Unit) => true,
        (TypeRef::Bool, TypeRef::Bool) => true,
        (TypeRef::I32, TypeRef::I32) => true,
        (TypeRef::I64, TypeRef::I64) => true,
        (TypeRef::F64, TypeRef::F64) => true,
        (TypeRef::Char, TypeRef::Char) => true,
        (TypeRef::String, TypeRef::String) => true,
        (TypeRef::Bytes, TypeRef::Bytes) => true,
        (TypeRef::List(x), TypeRef::List(y)) => same_type_ref(x, y),
        (TypeRef::Option(x), TypeRef::Option(y)) => same_type_ref(x, y),
        (TypeRef::Result { ok: o1, error: e1 }, TypeRef::Result { ok: o2, error: e2 }) => same_type_ref(o1, o2)
            && same_type_ref(e1, e2),
        (TypeRef::Named(x), TypeRef::Named(y)) => x.0 == y.0,
        (TypeRef::Contract(x), TypeRef::Contract(y)) => x.0 == y.0,
        _ => false,
    }
}

/// An equal, independent copy of `t`.
pub fn copy_type_ref(t: &TypeRef) -> (result: TypeRef)
    ensures
        result == *t,
    decreases t,
{
    match t {
        TypeRef::Unit => TypeRef::Unit,
        TypeRef::Bool => TypeRef::Bool,
        TypeRef::I32 => TypeRef::I32,
        TypeRef::I64 => TypeRef::I64,
        TypeRef::F64 => TypeRef::F64,
        TypeRef::Char => TypeRef::Char,
        TypeRef::String => TypeRef::String,
        TypeRef::Bytes => TypeRef::Bytes,
        TypeRef::List(inner) => TypeRef::List(Box::new(copy_type_ref(inner))),
        TypeRef::Option(inner) => TypeRef::Option(Box::new(copy_type_ref(inner))),
        TypeRef::Result { ok, error } => TypeRef::Result {
            ok: Box::new(copy_type_ref(ok)),
            error: Box::new(copy_type_ref(error)),
        },
        TypeRef::Named(id) => TypeRef::Named(*id),
        TypeRef::Contract(id) => TypeRef::Contract(*id),
    }
}

} // verus!
