//! Type checking of version-0 bodies: blocks, statements and expressions.
//! The checker walks a body once and records, in order, what it finds: each
//! diagnostic, the type of each expression it could type, the binding each
//! local reference resolves to, and each capability a node requires.
use vstd::prelude::*;

use crate::backend::{debug_text, quoted_message};
use crate::check::{is_identifier, valid_identifier, Capability, Diagnostic};
use crate::checker::same_text;
use crate::ir::{
    copy_type_ref, same_type_ref, Block, DeclarationKind, EnumVariant, Expression, ExpressionField, FieldDeclaration,
    FunctionDeclaration, ImplementationDeclaration, Intrinsic, Literal, MethodDispatch, MethodImplementation,
    MethodSignature, NodeId, Parameter, Statement, TypeRef,
};
use crate::text::{decimal, push_decimal, push_text, string_from_chars};
use crate::typing::{check_intrinsic, intrinsic_outcome, invalid_intrinsic_message, node_capabilities, IntrinsicOutcome};
use crate::checker::diagnostics_view;

verus! {

/// How deep the checker descends into nested expressions and blocks.
pub const MAX_DEPTH: usize = 64;

/// Something the checker records while it walks a body.
#[derive(Debug, PartialEq, Eq)]
pub enum CheckEvent {
    /// A diagnostic.
    Reported(Diagnostic),
    /// The type of the expression at a node.
    Typed(NodeId, TypeRef),
    /// The local reference at a node resolves to the binding made at another.
    Resolved(NodeId, NodeId),
    /// A node requires a capability of the backend.
    Required(NodeId, Capability),
}

/// An event as plain values: a diagnostic by its code and message.
pub enum EventView {
    Reported(Seq<char>, Seq<char>),
    Typed(NodeId, TypeRef),
    Resolved(NodeId, NodeId),
    Required(NodeId, Capability),
}

pub open spec fn event_view(e: CheckEvent) -> EventView {
    match e {
        CheckEvent::Reported(d) => EventView::Reported(d.code@, d.message@),
        CheckEvent::Typed(n, t) => EventView::Typed(n, t),
        CheckEvent::Resolved(n, s) => EventView::Resolved(n, s),
        CheckEvent::Required(n, c) => EventView::Required(n, c),
    }
}

pub open spec fn events_view(es: Seq<CheckEvent>) -> Seq<EventView> {
    es.map_values(|e: CheckEvent| event_view(e))
}

/// A name in scope: the node that bound it and its type.
pub struct Binding {
    pub name: String,
    pub symbol: NodeId,
    pub ty: TypeRef,
}

/// The scope as plain values.
pub type ScopeView = Seq<(Seq<char>, NodeId, TypeRef)>;

pub open spec fn scope_view(env: Seq<Binding>) -> ScopeView {
    env.map_values(|b: Binding| (b.name@, b.symbol, b.ty))
}

/// What a block makes of control flow: its type, and whether every path
/// through it returns.
pub struct Flow {
    pub ty: TypeRef,
    pub always_returns: bool,
}

/// The declarations a body may refer to, by node.
pub type DeclarationsView = Seq<(NodeId, DeclarationKind)>;

/// The index of the last declaration at node `id`, or -1.
pub open spec fn declaration_position(decls: DeclarationsView, id: NodeId) -> int
    decreases decls.len(),
{
    if decls.len() == 0 {
        -1
    } else if decls.last().0 == id {
        decls.len() - 1
    } else {
        declaration_position(decls.drop_last(), id)
    }
}

/// The index of the binding of `name`, or -1.
pub open spec fn binding_position(env: ScopeView, name: Seq<char>) -> int
    decreases env.len(),
{
    if env.len() == 0 {
        -1
    } else if env.last().0 == name {
        env.len() - 1
    } else {
        binding_position(env.drop_last(), name)
    }
}

/// Binds `name`, replacing a binding of the same name; and whether one was
/// replaced.
pub open spec fn bind(env: ScopeView, name: Seq<char>, symbol: NodeId, ty: TypeRef) -> (ScopeView, bool) {
    let k = binding_position(env, name);
    if k >= 0 {
        (env.update(k, (name, symbol, ty)), true)
    } else {
        (env.push((name, symbol, ty)), false)
    }
}

pub open spec fn report(code: Seq<char>, message: Seq<char>) -> Seq<EventView> {
    seq![EventView::Reported(code, message)]
}

pub open spec fn unresolved(kind: Seq<char>, id: NodeId) -> Seq<EventView> {
    report("UnresolvedReference"@, "unresolved "@ + kind + " node "@ + decimal(id.0 as nat))
}

pub open spec fn type_error(subject: Seq<char>) -> Seq<EventView> {
    report("TypeMismatch"@, subject + " has an incompatible portable type"@)
}

pub open spec fn identifier_events(name: Seq<char>) -> Seq<EventView> {
    if is_identifier(name) {
        seq![]
    } else {
        report("InvalidIdentifier"@, debug_text(name) + " is not a portable identifier"@)
    }
}

/// Whether a type written in a body refers only to what exists, and the
/// diagnostics that say where it does not. A contract type may stand only as
/// a direct parameter, never in a body.
pub open spec fn resolves(decls: DeclarationsView, t: TypeRef) -> (bool, Seq<EventView>)
    decreases t,
{
    match t {
        TypeRef::List(inner) => resolves(decls, *inner),
        TypeRef::Option(inner) => resolves(decls, *inner),
        TypeRef::Result { ok, error } => {
            let (a, da) = resolves(decls, *ok);
            if a {
                let (b, db) = resolves(decls, *error);
                (b, da + db)
            } else {
                (false, da)
            }
        },
        TypeRef::Named(id) => {
            let k = declaration_position(decls, id);
            if k >= 0 && (decls[k].1 is Record || decls[k].1 is Enum) {
                (true, seq![])
            } else {
                (false, unresolved("named type"@, id))
            }
        },
        TypeRef::Contract(id) => {
            let k = declaration_position(decls, id);
            if k >= 0 && decls[k].1 is Contract {
                (false, report("InvalidContractPosition"@, "contract types are allowed only as direct parameters"@))
            } else {
                (false, unresolved("contract type"@, id))
            }
        },
        _ => (true, seq![]),
    }
}

/// The capabilities that a value of type `t` at `node` requires.
pub open spec fn type_requirements(node: NodeId, t: TypeRef) -> Seq<EventView>
    decreases t,
{
    match t {
        TypeRef::F64 => seq![EventView::Required(node, Capability::F64)],
        TypeRef::Char => seq![EventView::Required(node, Capability::UnicodeScalar)],
        TypeRef::String => seq![EventView::Required(node, Capability::UnicodeScalar)],
        TypeRef::Bytes => seq![EventView::Required(node, Capability::Bytes)],
        TypeRef::List(inner) => seq![EventView::Required(node, Capability::ImmutableList)] + type_requirements(
            node,
            *inner,
        ),
        TypeRef::Option(inner) => seq![EventView::Required(node, Capability::Option)] + type_requirements(
            node,
            *inner,
        ),
        TypeRef::Result { ok, error } => seq![EventView::Required(node, Capability::Result)] + type_requirements(
            node,
            *ok,
        ) + type_requirements(node, *error),
        TypeRef::Contract(_) => seq![EventView::Required(node, Capability::ContractDispatch)],
        _ => seq![],
    }
}

/// Checking a type written at `node`: its resolution, then its capabilities.
pub open spec fn type_check_events(decls: DeclarationsView, t: TypeRef, node: NodeId) -> Seq<EventView> {
    resolves(decls, t).1 + type_requirements(node, t)
}

/// Whether two types are the same; where they differ, both are resolved
/// and what that reports is reported.
pub open spec fn same_type_outcome(decls: DeclarationsView, l: TypeRef, r: TypeRef) -> (bool, Seq<EventView>) {
    if l == r {
        (true, seq![])
    } else {
        (false, resolves(decls, l).1 + resolves(decls, r).1)
    }
}

/// Whether `kind` is an implementation of `contract` for `record`.
pub open spec fn is_implementation_of(kind: DeclarationKind, record: NodeId, contract: NodeId) -> bool {
    match kind {
        DeclarationKind::Implementation { record: r, contract: c, .. } => r == record && c == contract,
        _ => false,
    }
}

/// Whether the module implements contract `contract` for record `record`.
pub open spec fn implements(decls: DeclarationsView, record: NodeId, contract: NodeId) -> bool {
    exists|k: int| 0 <= k < decls.len() && is_implementation_of(#[trigger] decls[k].1, record, contract)
}

/// Whether a value of type `actual` may stand where `expected` is wanted: the
/// same type, or a record for a contract that the record implements.
pub open spec fn assignable_outcome(decls: DeclarationsView, actual: TypeRef, expected: TypeRef) -> (bool, Seq<EventView>) {
    if actual == expected {
        (true, seq![])
    } else {
        match (actual, expected) {
            (TypeRef::Named(record), TypeRef::Contract(contract)) => (implements(decls, record, contract), seq![]),
            (TypeRef::Contract(_), _) => (false, seq![]),
            (_, TypeRef::Contract(_)) => (false, seq![]),
            _ => same_type_outcome(decls, actual, expected),
        }
    }
}

/// The type of a literal.
pub open spec fn literal_outcome(value: Literal, depth: int) -> (Option<TypeRef>, Seq<EventView>) {
    if depth > MAX_DEPTH {
        (None, report("ExcessiveComplexity"@, "literal value exceeds the checker depth limit"@))
    } else {
        match value {
            Literal::Unit => (Some(TypeRef::Unit), seq![]),
            Literal::Bool(_) => (Some(TypeRef::Bool), seq![]),
            Literal::I32(_) => (Some(TypeRef::I32), seq![]),
            Literal::I64(_) => (Some(TypeRef::I64), seq![]),
            Literal::F64 => (Some(TypeRef::F64), seq![]),
            Literal::Char(_) => (Some(TypeRef::Char), seq![]),
            Literal::Text(_) => (Some(TypeRef::String), seq![]),
            Literal::Bytes(_) => (Some(TypeRef::Bytes), seq![]),
            Literal::Container => (
                None,
                report("TypeMismatch"@, "container literals require an explicit expected type"@),
            ),
        }
    }
}

/// What checking the intrinsic `operation` at `node` on operand types `a`
/// records.
pub open spec fn intrinsic_events(operation: Intrinsic, a: Seq<TypeRef>, node: NodeId) -> (Option<TypeRef>, Seq<EventView>) {
    let reqs = node_capabilities(node, operation).map_values(
        |p: (NodeId, Capability)| EventView::Required(p.0, p.1),
    );
    match intrinsic_outcome(operation, a) {
        IntrinsicOutcome::Typed(t) => (Some(t), reqs),
        IntrinsicOutcome::ContractEquality => (
            None,
            report("InvalidContractPosition"@, "contract values cannot be compared for equality"@) + reqs,
        ),
        IntrinsicOutcome::Invalid => (
            None,
            report("InvalidInvocation"@, invalid_intrinsic_message(operation, a)) + reqs,
        ),
    }
}

/// Whether every path through `e` returns.
pub open spec fn expression_returns(e: Expression) -> bool
    decreases e, 0int,
{
    match e {
        Expression::If { then_block, else_block, .. } => block_returns(then_block) && block_returns(
            else_block,
        ),
        Expression::Block(b) => block_returns(b),
        _ => false,
    }
}

/// Whether every path through `b` returns.
pub open spec fn block_returns(b: Block) -> bool
    decreases b, b.statements.len() + 1,
{
    statements_return(b, 0)
}

/// Whether the statements of `b` from the `i`-th on, then its result, return
/// on every path.
pub open spec fn statements_return(b: Block, i: int) -> bool
    decreases b, b.statements.len() - i,
{
    if i < 0 || i >= b.statements.len() {
        match b.result {
            Some(r) => expression_returns(*r),
            None => false,
        }
    } else {
        match b.statements[i] {
            Statement::Return { .. } => true,
            Statement::Let { value, .. } => expression_returns(value) || statements_return(b, i + 1),
            Statement::Expression { value, .. } => expression_returns(value) || statements_return(b, i + 1),
            Statement::ForEach { .. } => statements_return(b, i + 1),
        }
    }
}

/// What checking `e` yields and records.
pub open spec fn expression_outcome(
    decls: DeclarationsView,
    e: Expression,
    env: ScopeView,
    ret: TypeRef,
    self_type: Option<TypeRef>,
    depth: int,
) -> (Option<TypeRef>, Seq<EventView>)
    decreases e, 1int,
{
    if depth > MAX_DEPTH {
        (None, report("ExcessiveComplexity"@, "expression exceeds the checker depth limit"@))
    } else {
        let (ty, events) = expression_kind_outcome(decls, e, env, ret, self_type, depth);
        match ty {
            Some(t) => (
                Some(t),
                events + seq![EventView::Typed(crate::ir::expression_node(e), t)] + type_requirements(
                    crate::ir::expression_node(e),
                    t,
                ),
            ),
            None => (None, events),
        }
    }
}

/// What checking `e` by its kind yields and records, before its own type is
/// recorded.
pub open spec fn expression_kind_outcome(
    decls: DeclarationsView,
    e: Expression,
    env: ScopeView,
    ret: TypeRef,
    self_type: Option<TypeRef>,
    depth: int,
) -> (Option<TypeRef>, Seq<EventView>)
    decreases e, 0int,
{
    match e {
        Expression::Literal { value, .. } => literal_outcome(value, depth + 1),
        Expression::Local { node, name } => {
            let k = binding_position(env, name@);
            if k >= 0 {
                (Some(env[k].2), seq![EventView::Resolved(node, env[k].1)])
            } else {
                (None, report("UnresolvedReference"@, "unknown local "@ + debug_text(name@)))
            }
        },
        Expression::Constant { declaration, .. } => {
            let k = declaration_position(decls, declaration);
            match (k >= 0, decls[k].1) {
                (true, DeclarationKind::Constant(t)) => (Some(t), seq![]),
                _ => (None, unresolved("constant"@, declaration)),
            }
        },
        Expression::SelfValue { .. } => match self_type {
            Some(t) => (Some(t), seq![]),
            None => (
                None,
                report("UnresolvedReference"@, "self is available only inside an implementation method"@),
            ),
        },
        Expression::ConstructSome { value, .. } => {
            let (t, ev) = expression_outcome(decls, *value, env, ret, self_type, depth + 1);
            match t {
                Some(t) => (Some(TypeRef::Option(Box::new(t))), ev),
                None => (None, ev),
            }
        },
        Expression::ConstructNone { node, inner_type } => (
            Some(TypeRef::Option(Box::new(inner_type))),
            type_check_events(decls, inner_type, node),
        ),
        Expression::ConstructOk { node, value, error_type } => {
            let ev0 = type_check_events(decls, error_type, node);
            let (t, ev) = expression_outcome(decls, *value, env, ret, self_type, depth + 1);
            match t {
                Some(t) => (Some(TypeRef::Result { ok: Box::new(t), error: Box::new(error_type) }), ev0 + ev),
                None => (None, ev0 + ev),
            }
        },
        Expression::ConstructErr { node, value, ok_type } => {
            let ev0 = type_check_events(decls, ok_type, node);
            let (t, ev) = expression_outcome(decls, *value, env, ret, self_type, depth + 1);
            match t {
                Some(t) => (Some(TypeRef::Result { ok: Box::new(ok_type), error: Box::new(t) }), ev0 + ev),
                None => (None, ev0 + ev),
            }
        },
        Expression::ConstructList { node, element_type, elements } => (
            Some(TypeRef::List(Box::new(element_type))),
            type_check_events(decls, element_type, node) + elements_outcome(
                decls,
                elements,
                0,
                element_type,
                env,
                ret,
                self_type,
                depth + 1,
            ),
        ),
        Expression::ConstructRecord { declaration, fields, .. } => {
            let k = declaration_position(decls, declaration);
            match (k >= 0, decls[k].1) {
                (true, DeclarationKind::Record(expected)) => (
                    Some(TypeRef::Named(declaration)),
                    fields_outcome(decls, fields, 0, expected@, seq![], env, ret, self_type, depth + 2),
                ),
                _ => (None, unresolved("record"@, declaration)),
            }
        },
        Expression::Field { base, field, .. } => {
            let (b, ev) = expression_outcome(decls, *base, env, ret, self_type, depth + 1);
            match b {
                None => (None, ev),
                Some(bt) => {
                    let (ok, ev2) = resolves(decls, bt);
                    if !ok {
                        (None, ev + ev2)
                    } else {
                        match bt {
                            TypeRef::Named(record_id) => match record_field(decls, field) {
                                Some((owner, ty)) if owner == record_id => (Some(ty), ev + ev2),
                                _ => (None, ev + ev2 + unresolved("record field"@, field)),
                            },
                            _ => (None, ev + ev2 + type_error("field receiver"@)),
                        }
                    }
                },
            }
        },
        Expression::Call { function, arguments, .. } => {
            let k = declaration_position(decls, function);
            match (k >= 0, decls[k].1) {
                (true, DeclarationKind::Function { parameters, return_type }) => (
                    Some(return_type),
                    arity_events(arguments.len() as int, parameters.len() as int) + call_arguments_outcome(
                        decls,
                        arguments,
                        0,
                        parameters@,
                        env,
                        ret,
                        self_type,
                        depth + 2,
                    ),
                ),
                _ => (None, unresolved("function"@, function)),
            }
        },
        Expression::MethodCall { node, receiver, dispatch, arguments } => {
            let (r, ev) = expression_outcome(decls, *receiver, env, ret, self_type, depth + 2);
            match r {
                None => (None, ev),
                Some(rt) => {
                    let req = seq![EventView::Required(node, Capability::ContractDispatch)];
                    match dispatch {
                        MethodDispatch::Concrete { implementation, method } => {
                            let k = declaration_position(decls, implementation);
                            match (k >= 0, decls[k].1) {
                                (true, DeclarationKind::Implementation { record, .. }) => match implementation_method(
                                    decls,
                                    method,
                                ) {
                                    None => (None, ev + req + unresolved("implementation method"@, method)),
                                    Some((owner, sig)) => {
                                        let (fits, ev2) = if owner != implementation {
                                            (false, seq![])
                                        } else {
                                            assignable_outcome(decls, rt, TypeRef::Named(record))
                                        };
                                        let ev3 = if fits {
                                            seq![]
                                        } else {
                                            report(
                                                "InvalidInvocation"@,
                                                "concrete method receiver or dispatch owner does not match"@,
                                            )
                                        };
                                        (
                                            Some(sig.return_type),
                                            ev + req + ev2 + ev3 + arity_events(
                                                arguments.len() as int,
                                                sig.parameters.len() as int,
                                            ) + call_arguments_outcome(
                                                decls,
                                                arguments,
                                                0,
                                                sig.parameters@,
                                                env,
                                                ret,
                                                self_type,
                                                depth + 2,
                                            ),
                                        )
                                    },
                                },
                                _ => (None, ev + req + unresolved("implementation"@, implementation)),
                            }
                        },
                        MethodDispatch::Contract { contract, method } => match contract_method(decls, method) {
                            None => (None, ev + req + unresolved("contract method"@, method)),
                            Some((owner, sig)) => {
                                let (fits, ev2) = if owner != contract {
                                    (false, seq![])
                                } else {
                                    assignable_outcome(decls, rt, TypeRef::Contract(contract))
                                };
                                let ev3 = if fits {
                                    seq![]
                                } else {
                                    report(
                                        "InvalidInvocation"@,
                                        "contract method receiver or dispatch owner does not match"@,
                                    )
                                };
                                (
                                    Some(sig.return_type),
                                    ev + req + ev2 + ev3 + arity_events(
                                        arguments.len() as int,
                                        sig.parameters.len() as int,
                                    ) + call_arguments_outcome(
                                        decls,
                                        arguments,
                                        0,
                                        sig.parameters@,
                                        env,
                                        ret,
                                        self_type,
                                        depth + 2,
                                    ),
                                )
                            },
                        },
                    }
                },
            }
        },
        Expression::ConstructEnum { node, declaration, variant, fields } => match enum_variant(decls, variant) {
            None => (None, unresolved("enum variant"@, variant)),
            Some((owner, declared)) => if owner != declaration {
                (None, type_error("enum variant declaration"@))
            } else {
                (
                    Some(TypeRef::Named(declaration)),
                    fields_outcome(decls, fields, 0, declared.fields@, seq![], env, ret, self_type, depth + 2),
                )
            },
        },
        Expression::Intrinsic { node, operation, arguments } => {
            let (types, ev) = arguments_outcome(decls, arguments, 0, env, ret, self_type, depth + 1);
            match types {
                Some(ts) => {
                    let (r, ev2) = intrinsic_events(operation, ts, node);
                    (r, ev + ev2)
                },
                None => (None, ev),
            }
        },
        Expression::If { condition, then_block, else_block, .. } => {
            let (c, ev1) = expression_outcome(decls, *condition, env, ret, self_type, depth + 1);
            let ev2 = if c == Some(TypeRef::Bool) {
                seq![]
            } else {
                type_error("if condition"@)
            };
            let (tf, ev3) = block_outcome(decls, then_block, env, ret, self_type, depth + 1);
            let (ef, ev4) = block_outcome(decls, else_block, env, ret, self_type, depth + 1);
            let (r, ev5) = branches_outcome(decls, tf, ef);
            (r, ev1 + ev2 + ev3 + ev4 + ev5)
        },
        Expression::Block(b) => {
            let (f, ev) = block_outcome(decls, b, env, ret, self_type, depth + 1);
            (Some(f.ty), ev)
        },
    }
}

/// The index of the last field at node `id`, or -1.
pub open spec fn field_position(fields: Seq<FieldDeclaration>, id: NodeId) -> int
    decreases fields.len(),
{
    if fields.len() == 0 {
        -1
    } else if fields.last().node == id {
        fields.len() - 1
    } else {
        field_position(fields.drop_last(), id)
    }
}

/// The index of the first field at node `id` from the `j`-th on, or -1.
pub open spec fn first_field_from(fields: Seq<FieldDeclaration>, id: NodeId, j: int) -> int
    decreases fields.len() - j,
{
    if j < 0 || j >= fields.len() {
        -1
    } else if fields[j].node == id {
        j
    } else {
        first_field_from(fields, id, j + 1)
    }
}

/// The record field at node `id`, with the node of its record: the last
/// such field of the module.
pub open spec fn record_field(decls: DeclarationsView, id: NodeId) -> Option<(NodeId, TypeRef)>
    decreases decls.len(),
{
    if decls.len() == 0 {
        None
    } else {
        match decls.last().1 {
            DeclarationKind::Record(fs) if field_position(fs@, id) >= 0 => Some(
                (decls.last().0, fs@[field_position(fs@, id)].ty),
            ),
            _ => record_field(decls.drop_last(), id),
        }
    }
}

/// A call's number of arguments against its number of parameters.
pub open spec fn arity_events(arguments: int, parameters: int) -> Seq<EventView> {
    if arguments != parameters {
        report(
            "InvalidInvocation"@,
            "invocation has "@ + decimal(arguments as nat) + " arguments but requires "@ + decimal(
                parameters as nat,
            ),
        )
    } else {
        seq![]
    }
}

/// Checking the arguments of a call from the `i`-th on against the
/// parameters they are paired with.
pub open spec fn call_arguments_outcome(
    decls: DeclarationsView,
    args: Vec<Expression>,
    i: int,
    params: Seq<Parameter>,
    env: ScopeView,
    ret: TypeRef,
    self_type: Option<TypeRef>,
    depth: int,
) -> Seq<EventView>
    decreases args, args.len() - i,
{
    if i < 0 || i >= args.len() || i >= params.len() {
        seq![]
    } else {
        let (a, ev) = expression_outcome(decls, args[i], env, ret, self_type, depth);
        let ev2 = match a {
            Some(x) => {
                let (ok, evs) = assignable_outcome(decls, x, params[i].ty);
                evs + if ok {
                    seq![]
                } else {
                    report(
                        "InvalidInvocation"@,
                        "argument for parameter "@ + debug_text(params[i].name@) + " has the wrong type"@,
                    )
                }
            },
            None => seq![],
        };
        ev + ev2 + call_arguments_outcome(decls, args, i + 1, params, env, ret, self_type, depth)
    }
}

/// Checking the fields of a record construction from the `i`-th on against
/// the declared fields, with the fields supplied so far: each at most once,
/// each declared, each of a fitting type, and in the end all of them.
pub open spec fn fields_outcome(
    decls: DeclarationsView,
    supplied: Vec<ExpressionField>,
    i: int,
    expected: Seq<FieldDeclaration>,
    seen: Seq<NodeId>,
    env: ScopeView,
    ret: TypeRef,
    self_type: Option<TypeRef>,
    depth: int,
) -> Seq<EventView>
    decreases supplied, supplied.len() - i,
{
    if i < 0 || i >= supplied.len() {
        if seen.len() != expected.len() {
            report("InvalidInvocation"@, "aggregate constructor does not supply every field exactly once"@)
        } else {
            seq![]
        }
    } else {
        let f = supplied[i];
        let (seen2, ev1) = if seen.contains(f.field) {
            (seen, report("DuplicateDeclaration"@, "duplicate expression field node "@ + decimal(f.field.0 as nat)))
        } else {
            (seen.push(f.field), seq![])
        };
        let j = first_field_from(expected, f.field, 0);
        if j < 0 {
            ev1 + unresolved("aggregate field"@, f.field) + fields_outcome(
                decls,
                supplied,
                i + 1,
                expected,
                seen2,
                env,
                ret,
                self_type,
                depth,
            )
        } else {
            let (a, ev2) = expression_outcome(decls, f.value, env, ret, self_type, depth);
            let ev3 = match a {
                Some(x) => {
                    let (ok, evs) = assignable_outcome(decls, x, expected[j].ty);
                    evs + if ok {
                        seq![]
                    } else {
                        type_error("aggregate field expression"@)
                    }
                },
                None => seq![],
            };
            ev1 + ev2 + ev3 + fields_outcome(decls, supplied, i + 1, expected, seen2, env, ret, self_type, depth)
        }
    }
}

/// The type of an `if` from the flows of its branches: a branch that always
/// returns gives way to the other; two that do not must agree.
pub open spec fn branches_outcome(decls: DeclarationsView, left: Flow, right: Flow) -> (Option<TypeRef>, Seq<EventView>) {
    if left.always_returns && right.always_returns {
        (Some(left.ty), seq![])
    } else if left.always_returns {
        (Some(right.ty), seq![])
    } else if right.always_returns {
        (Some(left.ty), seq![])
    } else {
        let (same, ev) = same_type_outcome(decls, left.ty, right.ty);
        if same {
            (Some(left.ty), ev)
        } else {
            (None, ev + report("InvalidControlFlow"@, "branches produce incompatible types"@))
        }
    }
}

/// Checking the operands of an intrinsic from the `i`-th on: their types,
/// or none from the first that has none (the rest are then not checked).
pub open spec fn arguments_outcome(
    decls: DeclarationsView,
    args: Vec<Expression>,
    i: int,
    env: ScopeView,
    ret: TypeRef,
    self_type: Option<TypeRef>,
    depth: int,
) -> (Option<Seq<TypeRef>>, Seq<EventView>)
    decreases args, args.len() - i,
{
    if i < 0 || i >= args.len() {
        (Some(seq![]), seq![])
    } else {
        let (t, ev) = expression_outcome(decls, args[i], env, ret, self_type, depth);
        match t {
            Some(t) => {
                let (rest, ev2) = arguments_outcome(decls, args, i + 1, env, ret, self_type, depth);
                match rest {
                    Some(ts) => (Some(seq![t] + ts), ev + ev2),
                    None => (None, ev + ev2),
                }
            },
            None => (None, ev),
        }
    }
}

/// Checking the elements of a list from the `i`-th on against its element
/// type.
pub open spec fn elements_outcome(
    decls: DeclarationsView,
    elements: Vec<Expression>,
    i: int,
    element_type: TypeRef,
    env: ScopeView,
    ret: TypeRef,
    self_type: Option<TypeRef>,
    depth: int,
) -> Seq<EventView>
    decreases elements, elements.len() - i,
{
    if i < 0 || i >= elements.len() {
        seq![]
    } else {
        let (a, ev) = expression_outcome(decls, elements[i], env, ret, self_type, depth);
        let ev2 = match a {
            Some(x) => {
                let (same, evs) = same_type_outcome(decls, x, element_type);
                evs + if same {
                    seq![]
                } else {
                    type_error("list element"@)
                }
            },
            None => seq![],
        };
        ev + ev2 + elements_outcome(decls, elements, i + 1, element_type, env, ret, self_type, depth)
    }
}

/// What checking `b` in scope `outer` yields and records.
pub open spec fn block_outcome(
    decls: DeclarationsView,
    b: Block,
    outer: ScopeView,
    ret: TypeRef,
    self_type: Option<TypeRef>,
    depth: int,
) -> (Flow, Seq<EventView>)
    decreases b, b.statements.len() + 1,
{
    if depth > MAX_DEPTH {
        (
            Flow { ty: TypeRef::Unit, always_returns: false },
            report("ExcessiveComplexity"@, "block exceeds the checker depth limit"@),
        )
    } else {
        let (env, always, ev) = statements_outcome(decls, b, 0, outer, false, ret, self_type, depth);
        match b.result {
            Some(r) => {
                let ev2 = if always {
                    report("InvalidControlFlow"@, "block result is unreachable after return"@)
                } else {
                    seq![]
                };
                let (t, ev3) = expression_outcome(decls, *r, env, ret, self_type, depth + 1);
                (
                    Flow {
                        ty: match t {
                            Some(t) => t,
                            None => TypeRef::Unit,
                        },
                        always_returns: always || expression_returns(*r),
                    },
                    ev + ev2 + ev3,
                )
            },
            None => (Flow { ty: if always { ret } else { TypeRef::Unit }, always_returns: always }, ev),
        }
    }
}

/// Checking the statements of `b` from the `i`-th on: the scope after them,
/// whether a return has been passed, and what they record.
pub open spec fn statements_outcome(
    decls: DeclarationsView,
    b: Block,
    i: int,
    env: ScopeView,
    always: bool,
    ret: TypeRef,
    self_type: Option<TypeRef>,
    depth: int,
) -> (ScopeView, bool, Seq<EventView>)
    decreases b, b.statements.len() - i,
{
    if i < 0 || i >= b.statements.len() {
        (env, always, seq![])
    } else {
        let (env2, always2, ev) = statement_outcome(decls, b.statements[i], env, always, ret, self_type, depth);
        let (env3, always3, ev2) = statements_outcome(decls, b, i + 1, env2, always2, ret, self_type, depth);
        (env3, always3, ev + ev2)
    }
}

/// Checking one statement.
pub open spec fn statement_outcome(
    decls: DeclarationsView,
    s: Statement,
    env: ScopeView,
    always: bool,
    ret: TypeRef,
    self_type: Option<TypeRef>,
    depth: int,
) -> (ScopeView, bool, Seq<EventView>)
    decreases s, 1int,
{
    let unreachable = if always {
        report("InvalidControlFlow"@, "statement is unreachable after return"@)
    } else {
        seq![]
    };
    let (env2, always2, ev) = statement_kind_outcome(decls, s, env, always, ret, self_type, depth);
    (env2, always2, unreachable + ev)
}

/// Checking one statement by its kind, after a report of it being
/// unreachable, if it is.
pub open spec fn statement_kind_outcome(
    decls: DeclarationsView,
    s: Statement,
    env: ScopeView,
    always: bool,
    ret: TypeRef,
    self_type: Option<TypeRef>,
    depth: int,
) -> (ScopeView, bool, Seq<EventView>)
    decreases s, 0int,
{
    match s {
        Statement::Let { node, name, annotation, value } => {
            let ev1 = identifier_events(name@);
            let (actual, ev2) = expression_outcome(decls, value, env, ret, self_type, depth + 1);
            let ty = match annotation {
                Some(a) => a,
                None => match actual {
                    Some(t) => t,
                    None => TypeRef::Unit,
                },
            };
            let ev3 = match annotation {
                Some(a) => type_check_events(decls, a, node) + match actual {
                    Some(x) => {
                        let (same, evs) = same_type_outcome(decls, x, a);
                        evs + if same {
                            seq![]
                        } else {
                            type_error("let binding"@)
                        }
                    },
                    None => seq![],
                },
                None => seq![],
            };
            let (env2, existed) = bind(env, name@, node, ty);
            let ev4 = if existed {
                report("DuplicateDeclaration"@, "local binding "@ + debug_text(name@) + " shadows an existing name"@)
            } else {
                seq![]
            };
            (env2, always || expression_returns(value), ev1 + ev2 + ev3 + ev4)
        },
        Statement::ForEach { node, binding, iterable, body } => {
            let ev1 = identifier_events(binding@);
            let ev2 = seq![EventView::Required(node, Capability::BoundedIteration)];
            let (it, ev3) = expression_outcome(decls, iterable, env, ret, self_type, depth + 1);
            match it {
                Some(TypeRef::List(element)) => {
                    let (benv, existed) = bind(env, binding@, node, *element);
                    let ev4 = if existed {
                        report(
                            "DuplicateDeclaration"@,
                            "for-each binding "@ + debug_text(binding@) + " shadows an existing name"@,
                        )
                    } else {
                        seq![]
                    };
                    let (flow, ev5) = block_outcome(decls, body, benv, ret, self_type, depth + 1);
                    let ev6 = if flow.ty != TypeRef::Unit && !flow.always_returns {
                        type_error("for-each body"@)
                    } else {
                        seq![]
                    };
                    (env, always, ev1 + ev2 + ev3 + ev4 + ev5 + ev6)
                },
                _ => (env, always, ev1 + ev2 + ev3 + type_error("for-each iterable"@)),
            }
        },
        Statement::Return { value, .. } => {
            let (actual, ev1) = match value {
                Some(v) => expression_outcome(decls, v, env, ret, self_type, depth + 1),
                None => (Some(TypeRef::Unit), seq![]),
            };
            let ev2 = match actual {
                Some(a) => {
                    let (ok, evs) = assignable_outcome(decls, a, ret);
                    evs + if ok {
                        seq![]
                    } else {
                        type_error("return value"@)
                    }
                },
                None => seq![],
            };
            (env, true, ev1 + ev2)
        },
        Statement::Expression { value, .. } => {
            let (_, ev1) = expression_outcome(decls, value, env, ret, self_type, depth + 1);
            (env, always || expression_returns(value), ev1)
        },
    }
}


/// Resolving the type of a parameter, where a contract type may stand.
pub open spec fn parameter_resolution(decls: DeclarationsView, t: TypeRef) -> (bool, Seq<EventView>) {
    match t {
        TypeRef::Contract(id) => {
            let k = declaration_position(decls, id);
            if k >= 0 && decls[k].1 is Contract {
                (true, seq![])
            } else {
                (false, unresolved("contract type"@, id))
            }
        },
        _ => resolves(decls, t),
    }
}

/// Checking the parameters from the `i`-th on and binding them in `env`.
pub open spec fn parameters_outcome(decls: DeclarationsView, ps: Seq<Parameter>, i: int, env: ScopeView) -> (ScopeView, Seq<EventView>)
    decreases ps.len() - i,
{
    if i < 0 || i >= ps.len() {
        (env, seq![])
    } else {
        let p = ps[i];
        let ev1 = identifier_events(p.name@);
        let ev2 = parameter_resolution(decls, p.ty).1 + type_requirements(p.node, p.ty);
        let (env2, existed) = bind(env, p.name@, p.node, p.ty);
        let ev3 = if existed {
            report("DuplicateDeclaration"@, "duplicate parameter "@ + debug_text(p.name@))
        } else {
            seq![]
        };
        let (env3, ev4) = parameters_outcome(decls, ps, i + 1, env2);
        (env3, ev1 + ev2 + ev3 + ev4)
    }
}

/// What checking a function declaration records: its parameters, its
/// return type, its body, and a body that can finish without a value of the
/// return type.
pub open spec fn function_outcome(decls: DeclarationsView, f: FunctionDeclaration) -> Seq<EventView> {
    let (env, ev1) = parameters_outcome(decls, f.parameters@, 0, seq![]);
    let ev2 = type_check_events(decls, f.return_type, f.node);
    let (flow, ev3) = block_outcome(decls, f.body, env, f.return_type, None, 0);
    let ev4 = if flow.always_returns {
        seq![]
    } else {
        let (same, evs) = same_type_outcome(decls, flow.ty, f.return_type);
        evs + if same {
            seq![]
        } else {
            report(
                "InvalidControlFlow"@,
                "function "@ + debug_text(f.name@) + " can finish without producing its return type"@,
            )
        }
    };
    ev1 + ev2 + ev3 + ev4
}


/// The index of the last method at node `id`, or -1.
pub open spec fn method_position(methods: Seq<MethodSignature>, id: NodeId) -> int
    decreases methods.len(),
{
    if methods.len() == 0 {
        -1
    } else if methods.last().node == id {
        methods.len() - 1
    } else {
        method_position(methods.drop_last(), id)
    }
}

/// The implemented method at node `id`, with the node of its
/// implementation: the last such method of the module.
pub open spec fn implementation_method(decls: DeclarationsView, id: NodeId) -> Option<(NodeId, MethodSignature)>
    decreases decls.len(),
{
    if decls.len() == 0 {
        None
    } else {
        match decls.last().1 {
            DeclarationKind::Implementation { methods, .. } if method_position(methods@, id) >= 0 => Some(
                (decls.last().0, methods@[method_position(methods@, id)]),
            ),
            _ => implementation_method(decls.drop_last(), id),
        }
    }
}

/// The index of the last variant at node `id`, or -1.
pub open spec fn variant_position(variants: Seq<EnumVariant>, id: NodeId) -> int
    decreases variants.len(),
{
    if variants.len() == 0 {
        -1
    } else if variants.last().node == id {
        variants.len() - 1
    } else {
        variant_position(variants.drop_last(), id)
    }
}

/// The enum variant at node `id`, with the node of its enum: the last such
/// variant of the module.
pub open spec fn enum_variant(decls: DeclarationsView, id: NodeId) -> Option<(NodeId, EnumVariant)>
    decreases decls.len(),
{
    if decls.len() == 0 {
        None
    } else {
        match decls.last().1 {
            DeclarationKind::Enum(vs) if variant_position(vs@, id) >= 0 => Some(
                (decls.last().0, vs@[variant_position(vs@, id)]),
            ),
            _ => enum_variant(decls.drop_last(), id),
        }
    }
}

/// The contract method at node `id`, with the node of the contract that
/// declares it: the last such method of the module.
pub open spec fn contract_method(decls: DeclarationsView, id: NodeId) -> Option<(NodeId, MethodSignature)>
    decreases decls.len(),
{
    if decls.len() == 0 {
        None
    } else {
        match decls.last().1 {
            DeclarationKind::Contract(ms) if method_position(ms@, id) >= 0 => Some(
                (decls.last().0, ms@[method_position(ms@, id)]),
            ),
            _ => contract_method(decls.drop_last(), id),
        }
    }
}

/// The nodes of the implementations of `contract` for `record`, in module
/// order.
pub open spec fn matching_implementations(decls: DeclarationsView, record: NodeId, contract: NodeId) -> Seq<NodeId>
    decreases decls.len(),
{
    if decls.len() == 0 {
        seq![]
    } else {
        let rest = matching_implementations(decls.drop_last(), record, contract);
        if is_implementation_of(decls.last().1, record, contract) {
            rest.push(decls.last().0)
        } else {
            rest
        }
    }
}

/// Comparing parameter types from the `i`-th on, up to the first that differs.
pub open spec fn parameters_match(decls: DeclarationsView, actual: Seq<Parameter>, expected: Seq<Parameter>, i: int) -> (bool, Seq<EventView>)
    decreases actual.len() - i,
{
    if i < 0 || i >= actual.len() {
        (true, seq![])
    } else {
        let (same, ev) = same_type_outcome(decls, actual[i].ty, expected[i].ty);
        if same {
            let (rest, ev2) = parameters_match(decls, actual, expected, i + 1);
            (rest, ev + ev2)
        } else {
            (false, ev)
        }
    }
}

/// Whether an implemented method has the signature its contract requires.
pub open spec fn signatures_match(decls: DeclarationsView, m: MethodImplementation, required: MethodSignature) -> (bool, Seq<EventView>) {
    if m.parameters.len() != required.parameters.len() {
        (false, seq![])
    } else {
        let (a, ev) = parameters_match(decls, m.parameters@, required.parameters@, 0);
        if a {
            let (b, ev2) = same_type_outcome(decls, m.return_type, required.return_type);
            (b, ev + ev2)
        } else {
            (false, ev)
        }
    }
}

pub open spec fn nonconformance(prefix: Seq<char>, name: Seq<char>, suffix: Seq<char>) -> Seq<EventView> {
    report("ContractNonconformance"@, prefix + debug_text(name) + suffix)
}

/// Checking one method of the implementation of contract `contract` for
/// record `record`, with the contract methods supplied so far.
pub open spec fn method_outcome(
    decls: DeclarationsView,
    record: NodeId,
    contract: NodeId,
    m: MethodImplementation,
    supplied: Seq<NodeId>,
) -> (Seq<NodeId>, Seq<EventView>) {
    let ev1 = identifier_events(m.name@);
    let (supplied2, ev2) = if supplied.contains(m.contract_method) {
        (supplied, report("DuplicateDeclaration"@, "duplicate implemented method "@ + debug_text(m.name@)))
    } else {
        (supplied.push(m.contract_method), seq![])
    };
    match contract_method(decls, m.contract_method) {
        None => (
            supplied2,
            ev1 + ev2 + nonconformance("extra method "@, m.name@, " does not reference a required contract method"@),
        ),
        Some((owner, required)) => if owner != contract {
            (supplied2, ev1 + ev2 + nonconformance("method "@, m.name@, " belongs to a different contract"@))
        } else {
            (supplied2, ev1 + ev2 + conforming_method_events(decls, record, m, required))
        },
    }
}

/// Checking a method that implements `required`: its signature, its
/// parameters, its return type and its body, where `self` is a `record`.
pub open spec fn conforming_method_events(
    decls: DeclarationsView,
    record: NodeId,
    m: MethodImplementation,
    required: MethodSignature,
) -> Seq<EventView> {
    let (matches, ev3) = signatures_match(decls, m, required);
    let ev4 = if matches {
        seq![]
    } else {
        nonconformance("method "@, m.name@, " does not match its contract signature"@)
    };
    let (env, ev5) = parameters_outcome(decls, m.parameters@, 0, seq![]);
    let ev6 = type_check_events(decls, m.return_type, m.node);
    let (flow, ev7) = block_outcome(decls, m.body, env, m.return_type, Some(TypeRef::Named(record)), 0);
    let ev8 = if flow.always_returns {
        seq![]
    } else {
        let (same, evs) = same_type_outcome(decls, flow.ty, m.return_type);
        evs + if same {
            seq![]
        } else {
            report(
                "InvalidControlFlow"@,
                "method "@ + debug_text(m.name@) + " can finish without producing its return type"@,
            )
        }
    };
    ev3 + ev4 + ev5 + ev6 + ev7 + ev8
}

/// Checking the methods of an implementation from the `i`-th on.
pub open spec fn methods_outcome(
    decls: DeclarationsView,
    implementation: ImplementationDeclaration,
    i: int,
    supplied: Seq<NodeId>,
) -> (Seq<NodeId>, Seq<EventView>)
    decreases implementation.methods.len() - i,
{
    if i < 0 || i >= implementation.methods.len() {
        (supplied, seq![])
    } else {
        let (s2, ev) = method_outcome(
            decls,
            implementation.record,
            implementation.contract,
            implementation.methods[i],
            supplied,
        );
        let (s3, ev2) = methods_outcome(decls, implementation, i + 1, s2);
        (s3, ev + ev2)
    }
}

/// Reporting the required methods from the `j`-th on that were not supplied.
pub open spec fn missing_outcome(required: Seq<MethodSignature>, j: int, supplied: Seq<NodeId>) -> Seq<EventView>
    decreases required.len() - j,
{
    if j < 0 || j >= required.len() {
        seq![]
    } else {
        let ev = if supplied.contains(required[j].node) {
            seq![]
        } else {
            nonconformance("implementation is missing method "@, required[j].name@, ""@)
        };
        ev + missing_outcome(required, j + 1, supplied)
    }
}

/// What checking an implementation records: its contract and record must
/// exist, it must be the first for them, and its methods must supply each
/// method of the contract once, with the contract's signature, in bodies that
/// produce their return type.
pub open spec fn implementation_outcome(decls: DeclarationsView, implementation: ImplementationDeclaration) -> Seq<EventView> {
    let kc = declaration_position(decls, implementation.contract);
    let kr = declaration_position(decls, implementation.record);
    if !(kc >= 0 && decls[kc].1 is Contract) {
        unresolved("implementation contract"@, implementation.contract)
    } else if !(kr >= 0 && decls[kr].1 is Record) {
        unresolved("implementation record"@, implementation.record)
    } else {
        let ids = matching_implementations(decls, implementation.record, implementation.contract);
        let ev0 = if ids.len() > 1 && ids[0] != implementation.node {
            report("DuplicateDeclaration"@, "duplicate implementation for the same record and contract"@)
        } else {
            seq![]
        };
        let (supplied, ev1) = methods_outcome(decls, implementation, 0, seq![]);
        let required = match decls[kc].1 {
            DeclarationKind::Contract(ms) => ms@,
            _ => seq![],
        };
        ev0 + ev1 + missing_outcome(required, 0, supplied)
    }
}

/// Checking the fields of record `record` from the `i`-th on, with the
/// names seen so far: portable names, each once, of types that resolve.
pub open spec fn record_fields_outcome(
    decls: DeclarationsView,
    record: Seq<char>,
    fields: Seq<FieldDeclaration>,
    i: int,
    seen: Seq<Seq<char>>,
) -> Seq<EventView>
    decreases fields.len() - i,
{
    if i < 0 || i >= fields.len() {
        seq![]
    } else {
        let f = fields[i];
        let ev1 = identifier_events(f.name@);
        let (seen2, ev2) = if seen.contains(f.name@) {
            (
                seen,
                report(
                    "DuplicateDeclaration"@,
                    "duplicate field "@ + debug_text(f.name@) + " in record "@ + debug_text(record),
                ),
            )
        } else {
            (seen.push(f.name@), seq![])
        };
        ev1 + ev2 + type_check_events(decls, f.ty, f.node) + record_fields_outcome(decls, record, fields, i + 1, seen2)
    }
}

/// Checking the methods of contract `contract` from the `i`-th on, with the
/// names seen so far: portable names, each once, with checked parameters and
/// return types.
pub open spec fn contract_methods_outcome(
    decls: DeclarationsView,
    contract: Seq<char>,
    methods: Seq<MethodSignature>,
    i: int,
    seen: Seq<Seq<char>>,
) -> Seq<EventView>
    decreases methods.len() - i,
{
    if i < 0 || i >= methods.len() {
        seq![]
    } else {
        let m = methods[i];
        let ev1 = identifier_events(m.name@);
        let (seen2, ev2) = if seen.contains(m.name@) {
            (
                seen,
                report(
                    "DuplicateDeclaration"@,
                    "duplicate method "@ + debug_text(m.name@) + " in contract "@ + debug_text(contract),
                ),
            )
        } else {
            (seen.push(m.name@), seq![])
        };
        ev1 + ev2 + parameters_outcome(decls, m.parameters@, 0, seq![]).1 + type_check_events(
            decls,
            m.return_type,
            m.node,
        ) + contract_methods_outcome(decls, contract, methods, i + 1, seen2)
    }
}

/// Whether the result of `b`, if it has one, returns on every path.
pub open spec fn result_returns(b: Block) -> bool {
    match b.result {
        Some(r) => expression_returns(*r),
        None => false,
    }
}

proof fn lemma_statements_return(
    decls: DeclarationsView,
    b: Block,
    i: int,
    env: ScopeView,
    always: bool,
    ret: TypeRef,
    self_type: Option<TypeRef>,
    depth: int,
)
    requires
        0 <= i <= b.statements.len(),
    ensures
        (statements_outcome(decls, b, i, env, always, ret, self_type, depth).1 || result_returns(b)) == (always
            || statements_return(b, i)),
    decreases b.statements.len() - i,
{
    if i < b.statements.len() {
        let (env2, always2, _) = statement_outcome(decls, b.statements[i], env, always, ret, self_type, depth);
        lemma_statements_return(decls, b, i + 1, env2, always2, ret, self_type, depth);
    }
}

/// The flow of a checked block always returns exactly when every path
/// through the block returns: the checker's flow and the syntactic test
/// agree, within the depth limit.
pub proof fn law_block_flow_returns(
    decls: DeclarationsView,
    b: Block,
    env: ScopeView,
    ret: TypeRef,
    self_type: Option<TypeRef>,
    depth: int,
)
    requires
        depth <= MAX_DEPTH,
    ensures
        block_outcome(decls, b, env, ret, self_type, depth).0.always_returns == block_returns(b),
{
    lemma_statements_return(decls, b, 0, env, false, ret, self_type, depth);
}

/// Records one event.
fn record(events: &mut Vec<CheckEvent>, e: CheckEvent)
    ensures
        events_view(final(events)@) == events_view(old(events)@) + seq![event_view(e)],
{
    let ghost v = event_view(e);
    events.push(e);
    assert(events_view(events@) =~= events_view(old(events)@) + seq![v]);
}

/// Records a diagnostic.
fn report_error(events: &mut Vec<CheckEvent>, code: &'static str, message: String)
    ensures
        events_view(final(events)@) == events_view(old(events)@) + report(code@, message@),
{
    record(events, CheckEvent::Reported(Diagnostic { code, message }));
}

/// Reports a reference to a node that holds no declaration of the kind wanted.
fn report_unresolved(events: &mut Vec<CheckEvent>, kind: &str, id: NodeId)
    ensures
        events_view(final(events)@) == events_view(old(events)@) + unresolved(kind@, id),
{
    let mut message: Vec<char> = Vec::new();
    push_text(&mut message, "unresolved ");
    push_text(&mut message, kind);
    push_text(&mut message, " node ");
    push_decimal(&mut message, id.0);
    let text = string_from_chars(&message);
    report_error(events, "UnresolvedReference", text);
    assert(text@ =~= "unresolved "@ + kind@ + " node "@ + decimal(id.0 as nat));
}

/// Reports a value whose type does not fit.
fn report_type_error(events: &mut Vec<CheckEvent>, subject: &str)
    ensures
        events_view(final(events)@) == events_view(old(events)@) + type_error(subject@),
{
    let mut message: Vec<char> = Vec::new();
    push_text(&mut message, subject);
    push_text(&mut message, " has an incompatible portable type");
    let text = string_from_chars(&message);
    report_error(events, "TypeMismatch", text);
}

/// Reports a name that is no portable identifier.
fn check_identifier(events: &mut Vec<CheckEvent>, name: &str)
    ensures
        events_view(final(events)@) == events_view(old(events)@) + identifier_events(name@),
{
    if !valid_identifier(name) {
        let text = quoted_message("", name, " is not a portable identifier");
        proof {
            reveal_strlit("");
            assert(""@ + debug_text(name@) =~= debug_text(name@));
        }
        report_error(events, "InvalidIdentifier", text);
    } else {
        assert(events_view(events@) =~= events_view(old(events)@) + identifier_events(name@));
    }
}

/// The position of the last declaration at node `id`.
fn find_declaration(decls: &Vec<(NodeId, DeclarationKind)>, id: NodeId) -> (result: Option<usize>)
    ensures
        match result {
            Some(k) => k < decls.len() && k as int == declaration_position(decls@, id),
            None => declaration_position(decls@, id) == -1,
        },
{
    let mut i = decls.len();
    assert(decls@.take(i as int) =~= decls@);
    while i > 0
        invariant
            i <= decls.len(),
            declaration_position(decls@, id) == declaration_position(decls@.take(i as int), id),
        decreases i,
    {
        if decls[i - 1].0.0 == id.0 {
            assert(decls@.take(i as int).last().0 == id);
            return Some(i - 1);
        }
        assert(decls@.take(i as int).drop_last() =~= decls@.take(i - 1));
        i -= 1;
    }
    None
}

/// The position of the binding of `name`.
fn find_binding(env: &Vec<Binding>, name: &str) -> (result: Option<usize>)
    ensures
        match result {
            Some(k) => k < env.len() && k as int == binding_position(scope_view(env@), name@),
            None => binding_position(scope_view(env@), name@) == -1,
        },
{
    let ghost view = scope_view(env@);
    let mut i = env.len();
    assert(view.take(i as int) =~= view);
    while i > 0
        invariant
            i <= env.len(),
            view == scope_view(env@),
            binding_position(view, name@) == binding_position(view.take(i as int), name@),
        decreases i,
    {
        if same_text(env[i - 1].name.as_str(), name) {
            assert(view.take(i as int).last().0 == name@);
            return Some(i - 1);
        }
        assert(view.take(i as int).drop_last() =~= view.take(i - 1));
        i -= 1;
    }
    None
}

/// An equal, independent copy of a scope.
fn copy_scope(env: &Vec<Binding>) -> (result: Vec<Binding>)
    ensures
        scope_view(result@) == scope_view(env@),
{
    let mut out: Vec<Binding> = Vec::new();
    let mut i: usize = 0;
    while i < env.len()
        invariant
            i <= env.len(),
            scope_view(out@) == scope_view(env@).take(i as int),
        decreases env.len() - i,
    {
        let b = Binding { name: env[i].name.as_str().to_owned(), symbol: env[i].symbol, ty: copy_type_ref(&env[i].ty) };
        let ghost prev = out@;
        let ghost entry = (b.name@, b.symbol, b.ty);
        assert(entry == scope_view(env@)[i as int]);
        out.push(b);
        assert(scope_view(out@) =~= scope_view(prev).push(entry));
        assert(scope_view(env@).take(i + 1) =~= scope_view(env@).take(i as int).push(entry));
        i += 1;
    }
    assert(scope_view(env@).take(i as int) =~= scope_view(env@));
    out
}

/// Binds `name` in `env`; whether a binding of that name was replaced.
fn bind_name(env: &mut Vec<Binding>, name: &str, symbol: NodeId, ty: TypeRef) -> (existed: bool)
    ensures
        (scope_view(final(env)@), existed) == bind(scope_view(old(env)@), name@, symbol, ty),
{
    let ghost t = ty;
    match find_binding(env, name) {
        Some(k) => {
            env.set(k, Binding { name: name.to_owned(), symbol, ty });
            assert(scope_view(env@) =~= scope_view(old(env)@).update(k as int, (name@, symbol, t)));
            true
        },
        None => {
            env.push(Binding { name: name.to_owned(), symbol, ty });
            assert(scope_view(env@) =~= scope_view(old(env)@).push((name@, symbol, t)));
            false
        },
    }
}

/// Resolves a type written in a body.
fn resolve_type(decls: &Vec<(NodeId, DeclarationKind)>, t: &TypeRef, events: &mut Vec<CheckEvent>) -> (result: bool)
    ensures
        result == resolves(decls@, *t).0,
        events_view(final(events)@) == events_view(old(events)@) + resolves(decls@, *t).1,
    decreases t,
{
    let ghost start = events_view(events@);
    match t {
        TypeRef::List(inner) => resolve_type(decls, inner, events),
        TypeRef::Option(inner) => resolve_type(decls, inner, events),
        TypeRef::Result { ok, error } => {
            let a = resolve_type(decls, ok, events);
            if a {
                let b = resolve_type(decls, error, events);
                assert(events_view(events@) =~= start + resolves(decls@, *t).1);
                b
            } else {
                false
            }
        },
        TypeRef::Named(id) => {
            let found = match find_declaration(decls, *id) {
                Some(k) => match &decls[k].1 {
                    DeclarationKind::Record(_) => true,
                    DeclarationKind::Enum(_) => true,
                    _ => false,
                },
                None => false,
            };
            if !found {
                report_unresolved(events, "named type", *id);
            } else {
                assert(events_view(events@) =~= start + resolves(decls@, *t).1);
            }
            found
        },
        TypeRef::Contract(id) => {
            let found = match find_declaration(decls, *id) {
                Some(k) => match &decls[k].1 {
                    DeclarationKind::Contract(_) => true,
                    _ => false,
                },
                None => false,
            };
            if found {
                report_error(
                    events,
                    "InvalidContractPosition",
                    "contract types are allowed only as direct parameters".to_owned(),
                );
            } else {
                report_unresolved(events, "contract type", *id);
            }
            false
        },
        _ => {
            assert(events_view(events@) =~= start + resolves(decls@, *t).1);
            true
        },
    }
}

/// Records the capabilities a value of type `t` at `node` requires.
fn require_type(events: &mut Vec<CheckEvent>, node: NodeId, t: &TypeRef)
    ensures
        events_view(final(events)@) == events_view(old(events)@) + type_requirements(node, *t),
    decreases t,
{
    let ghost start = events_view(events@);
    match t {
        TypeRef::F64 => record(events, CheckEvent::Required(node, Capability::F64)),
        TypeRef::Char => record(events, CheckEvent::Required(node, Capability::UnicodeScalar)),
        TypeRef::String => record(events, CheckEvent::Required(node, Capability::UnicodeScalar)),
        TypeRef::Bytes => record(events, CheckEvent::Required(node, Capability::Bytes)),
        TypeRef::List(inner) => {
            record(events, CheckEvent::Required(node, Capability::ImmutableList));
            require_type(events, node, inner);
            assert(events_view(events@) =~= start + type_requirements(node, *t));
        },
        TypeRef::Option(inner) => {
            record(events, CheckEvent::Required(node, Capability::Option));
            require_type(events, node, inner);
            assert(events_view(events@) =~= start + type_requirements(node, *t));
        },
        TypeRef::Result { ok, error } => {
            record(events, CheckEvent::Required(node, Capability::Result));
            require_type(events, node, ok);
            require_type(events, node, error);
            assert(events_view(events@) =~= start + type_requirements(node, *t));
        },
        TypeRef::Contract(_) => record(events, CheckEvent::Required(node, Capability::ContractDispatch)),
        _ => {
            assert(events_view(events@) =~= start + type_requirements(node, *t));
        },
    }
}

/// Checks a type written at `node`.
fn check_type(decls: &Vec<(NodeId, DeclarationKind)>, t: &TypeRef, node: NodeId, events: &mut Vec<CheckEvent>)
    ensures
        events_view(final(events)@) == events_view(old(events)@) + type_check_events(decls@, *t, node),
{
    let ghost start = events_view(events@);
    resolve_type(decls, t, events);
    require_type(events, node, t);
    assert(events_view(events@) =~= start + type_check_events(decls@, *t, node));
}

/// Whether two types are the same.
fn same_type(decls: &Vec<(NodeId, DeclarationKind)>, l: &TypeRef, r: &TypeRef, events: &mut Vec<CheckEvent>) -> (result: bool)
    ensures
        result == same_type_outcome(decls@, *l, *r).0,
        events_view(final(events)@) == events_view(old(events)@) + same_type_outcome(decls@, *l, *r).1,
{
    let ghost start = events_view(events@);
    if same_type_ref(l, r) {
        assert(events_view(events@) =~= start + same_type_outcome(decls@, *l, *r).1);
        true
    } else {
        resolve_type(decls, l, events);
        resolve_type(decls, r, events);
        assert(events_view(events@) =~= start + same_type_outcome(decls@, *l, *r).1);
        false
    }
}

/// Whether the module implements `contract` for `record`.
fn implements_contract(decls: &Vec<(NodeId, DeclarationKind)>, record: NodeId, contract: NodeId) -> (result: bool)
    ensures
        result == implements(decls@, record, contract),
{
    let mut k: usize = 0;
    while k < decls.len()
        invariant
            k <= decls.len(),
            forall|j: int| 0 <= j < k ==> !is_implementation_of(#[trigger] decls@[j].1, record, contract),
        decreases decls.len() - k,
    {
        let found = match &decls[k].1 {
            DeclarationKind::Implementation { record: r, contract: c, .. } => r.0 == record.0 && c.0 == contract.0,
            _ => false,
        };
        if found {
            assert(is_implementation_of(decls@[k as int].1, record, contract));
            return true;
        }
        k += 1;
    }
    false
}

/// Whether a value of type `actual` may stand where `expected` is wanted.
fn is_assignable(
    decls: &Vec<(NodeId, DeclarationKind)>,
    actual: &TypeRef,
    expected: &TypeRef,
    events: &mut Vec<CheckEvent>,
) -> (result: bool)
    ensures
        result == assignable_outcome(decls@, *actual, *expected).0,
        events_view(final(events)@) == events_view(old(events)@) + assignable_outcome(decls@, *actual, *expected).1,
{
    if same_type_ref(actual, expected) {
        assert(events_view(events@) =~= events_view(old(events)@) + assignable_outcome(decls@, *actual, *expected).1);
        return true;
    }
    match (actual, expected) {
        (TypeRef::Named(record), TypeRef::Contract(contract)) => {
            assert(events_view(events@) =~= events_view(old(events)@) + assignable_outcome(decls@, *actual, *expected).1);
            implements_contract(decls, *record, *contract)
        },
        (TypeRef::Contract(_), _) => {
            assert(events_view(events@) =~= events_view(old(events)@) + assignable_outcome(decls@, *actual, *expected).1);
            false
        },
        (_, TypeRef::Contract(_)) => {
            assert(events_view(events@) =~= events_view(old(events)@) + assignable_outcome(decls@, *actual, *expected).1);
            false
        },
        _ => same_type(decls, actual, expected, events),
    }
}

/// The type of a literal.
fn infer_literal(value: &Literal, depth: usize, events: &mut Vec<CheckEvent>) -> (result: Option<TypeRef>)
    ensures
        result == literal_outcome(*value, depth as int).0,
        events_view(final(events)@) == events_view(old(events)@) + literal_outcome(*value, depth as int).1,
{
    if depth > MAX_DEPTH {
        report_error(events, "ExcessiveComplexity", "literal value exceeds the checker depth limit".to_owned());
        return None;
    }
    assert(events_view(events@) =~= events_view(old(events)@) + seq![]);
    match value {
        Literal::Unit => Some(TypeRef::Unit),
        Literal::Bool(_) => Some(TypeRef::Bool),
        Literal::I32(_) => Some(TypeRef::I32),
        Literal::I64(_) => Some(TypeRef::I64),
        Literal::F64 => Some(TypeRef::F64),
        Literal::Char(_) => Some(TypeRef::Char),
        Literal::Text(_) => Some(TypeRef::String),
        Literal::Bytes(_) => Some(TypeRef::Bytes),
        Literal::Container => {
            report_error(events, "TypeMismatch", "container literals require an explicit expected type".to_owned());
            None
        },
    }
}

/// The node of an expression.
fn node_of(e: &Expression) -> (result: NodeId)
    ensures
        result == crate::ir::expression_node(*e),
{
    match e {
        Expression::Literal { node, .. } => *node,
        Expression::Local { node, .. } => *node,
        Expression::Constant { node, .. } => *node,
        Expression::SelfValue { node } => *node,
        Expression::ConstructSome { node, .. } => *node,
        Expression::ConstructNone { node, .. } => *node,
        Expression::ConstructOk { node, .. } => *node,
        Expression::ConstructErr { node, .. } => *node,
        Expression::ConstructRecord { node, .. } => *node,
        Expression::ConstructEnum { node, .. } => *node,
        Expression::ConstructList { node, .. } => *node,
        Expression::Field { node, .. } => *node,
        Expression::Call { node, .. } => *node,
        Expression::MethodCall { node, .. } => *node,
        Expression::Intrinsic { node, .. } => *node,
        Expression::If { node, .. } => *node,
        Expression::Block(b) => b.node,
    }
}

/// Whether every path through `e` returns.
pub fn expression_always_returns(e: &Expression) -> (result: bool)
    ensures
        result == expression_returns(*e),
    decreases e, 0int,
{
    match e {
        Expression::If { then_block, else_block, .. } => block_always_returns(then_block) && block_always_returns(
            else_block,
        ),
        Expression::Block(b) => block_always_returns(b),
        _ => false,
    }
}

/// Whether every path through `b` returns.
pub fn block_always_returns(b: &Block) -> (result: bool)
    ensures
        result == block_returns(*b),
    decreases b, b.statements.len() + 1,
{
    statements_always_return(b, 0)
}

fn statements_always_return(b: &Block, i: usize) -> (result: bool)
    ensures
        result == statements_return(*b, i as int),
    decreases b, b.statements.len() - i,
{
    if i >= b.statements.len() {
        match &b.result {
            Some(r) => expression_always_returns(r),
            None => false,
        }
    } else {
        match &b.statements[i] {
            Statement::Return { .. } => true,
            Statement::Let { value, .. } => expression_always_returns(value) || statements_always_return(b, i + 1),
            Statement::Expression { value, .. } => expression_always_returns(value) || statements_always_return(b, i + 1),
            Statement::ForEach { .. } => statements_always_return(b, i + 1),
        }
    }
}

/// Checks the intrinsic `operation` at `node` on operand types `types`.
fn run_intrinsic(operation: Intrinsic, types: &Vec<TypeRef>, node: NodeId, events: &mut Vec<CheckEvent>) -> (result: Option<TypeRef>)
    ensures
        result == intrinsic_events(operation, types@, node).0,
        events_view(final(events)@) == events_view(old(events)@) + intrinsic_events(operation, types@, node).1,
{
    let ghost start = events_view(events@);
    let mut diagnostics: Vec<Diagnostic> = Vec::new();
    let mut required: Vec<(NodeId, Capability)> = Vec::new();
    assert(diagnostics_view(diagnostics@) =~= Seq::<(Seq<char>, Seq<char>)>::empty());
    let result = check_intrinsic(operation, types, node, &mut diagnostics, &mut required);
    let ghost first = diagnostics_view(diagnostics@);
    let ghost diag_events = match intrinsic_outcome(operation, types@) {
        IntrinsicOutcome::Typed(_) => Seq::<EventView>::empty(),
        IntrinsicOutcome::ContractEquality => report(
            "InvalidContractPosition"@,
            "contract values cannot be compared for equality"@,
        ),
        IntrinsicOutcome::Invalid => report("InvalidInvocation"@, invalid_intrinsic_message(operation, types@)),
    };
    assert(diagnostics_view(diagnostics@).len() == diagnostics@.len());
    if diagnostics.len() > 0 {
        let d = diagnostics.pop().unwrap();
        assert(first[0] == (d.code@, d.message@));
        record(events, CheckEvent::Reported(d));
        assert(events_view(events@) =~= start + diag_events);
    } else {
        assert(events_view(events@) =~= start + diag_events);
    }
    let ghost mid = events_view(events@);
    let ghost reqs = required@.map_values(|p: (NodeId, Capability)| EventView::Required(p.0, p.1));
    let mut j: usize = 0;
    while j < required.len()
        invariant
            j <= required.len(),
            events_view(events@) == mid + reqs.take(j as int),
            reqs == required@.map_values(|p: (NodeId, Capability)| EventView::Required(p.0, p.1)),
        decreases required.len() - j,
    {
        let p = required[j];
        record(events, CheckEvent::Required(p.0, p.1));
        assert(reqs.take(j + 1) =~= reqs.take(j as int).push(EventView::Required(p.0, p.1)));
        j += 1;
    }
    assert(reqs.take(j as int) =~= reqs);
    assert(required@ =~= node_capabilities(node, operation));
    assert(reqs =~= node_capabilities(node, operation).map_values(
        |p: (NodeId, Capability)| EventView::Required(p.0, p.1),
    ));
    assert(events_view(events@) =~= start + diag_events + reqs);
    assert(intrinsic_events(operation, types@, node).1 =~= diag_events + reqs);
    result
}

/// The position of the last field at node `id`.
fn find_field(fields: &Vec<FieldDeclaration>, id: NodeId) -> (result: Option<usize>)
    ensures
        match result {
            Some(j) => j < fields.len() && j as int == field_position(fields@, id),
            None => field_position(fields@, id) == -1,
        },
{
    let mut i = fields.len();
    assert(fields@.take(i as int) =~= fields@);
    while i > 0
        invariant
            i <= fields.len(),
            field_position(fields@, id) == field_position(fields@.take(i as int), id),
        decreases i,
    {
        if fields[i - 1].node.0 == id.0 {
            assert(fields@.take(i as int).last().node == id);
            return Some(i - 1);
        }
        assert(fields@.take(i as int).drop_last() =~= fields@.take(i - 1));
        i -= 1;
    }
    None
}

/// The position of the first field at node `id`.
fn find_first_field(fields: &Vec<FieldDeclaration>, id: NodeId) -> (result: Option<usize>)
    ensures
        match result {
            Some(j) => j < fields.len() && j as int == first_field_from(fields@, id, 0),
            None => first_field_from(fields@, id, 0) == -1,
        },
{
    let mut j: usize = 0;
    while j < fields.len()
        invariant
            j <= fields.len(),
            first_field_from(fields@, id, 0) == first_field_from(fields@, id, j as int),
        decreases fields.len() - j,
    {
        if fields[j].node.0 == id.0 {
            assert(fields@[j as int].node == id);
            return Some(j);
        }
        j += 1;
    }
    None
}

/// Where the record field at node `id` is declared: the declaration and the
/// field's position in it.
fn find_record_field(decls: &Vec<(NodeId, DeclarationKind)>, id: NodeId) -> (result: Option<(usize, usize)>)
    ensures
        match result {
            Some((k, j)) => k < decls.len() && match decls@[k as int].1 {
                DeclarationKind::Record(fs) => j < fs.len() && record_field(decls@, id) == Some(
                    (decls@[k as int].0, fs@[j as int].ty),
                ),
                _ => false,
            },
            None => record_field(decls@, id) is None,
        },
{
    let mut i = decls.len();
    assert(decls@.take(i as int) =~= decls@);
    while i > 0
        invariant
            i <= decls.len(),
            record_field(decls@, id) == record_field(decls@.take(i as int), id),
        decreases i,
    {
        let found = match &decls[i - 1].1 {
            DeclarationKind::Record(fs) => find_field(fs, id),
            _ => None,
        };
        assert(decls@.take(i as int).last() == decls@[i - 1]);
        match found {
            Some(j) => {
                return Some((i - 1, j));
            },
            None => {},
        }
        assert(decls@.take(i as int).drop_last() =~= decls@.take(i - 1));
        i -= 1;
    }
    None
}

/// Reports a call whose number of arguments differs from its number of
/// parameters.
fn report_arity(events: &mut Vec<CheckEvent>, arguments: usize, parameters: usize)
    ensures
        events_view(final(events)@) == events_view(old(events)@) + arity_events(arguments as int, parameters as int),
{
    if arguments != parameters {
        let mut message: Vec<char> = Vec::new();
        push_text(&mut message, "invocation has ");
        push_decimal(&mut message, arguments as u64);
        push_text(&mut message, " arguments but requires ");
        push_decimal(&mut message, parameters as u64);
        let text = string_from_chars(&message);
        report_error(events, "InvalidInvocation", text);
        assert(text@ =~= "invocation has "@ + decimal(arguments as nat) + " arguments but requires "@ + decimal(
            parameters as nat,
        ));
    } else {
        assert(events_view(events@) =~= events_view(old(events)@) + arity_events(arguments as int, parameters as int));
    }
}

/// Checks the arguments of a call from the `i`-th on against their parameters.
fn check_call_arguments(
    decls: &Vec<(NodeId, DeclarationKind)>,
    args: &Vec<Expression>,
    i: usize,
    params: &Vec<Parameter>,
    environment: &Vec<Binding>,
    expected_return: &TypeRef,
    self_type: &Option<TypeRef>,
    depth: usize,
    events: &mut Vec<CheckEvent>,
)
    requires
        i <= args.len(),
    ensures
        events_view(final(events)@) == events_view(old(events)@) + call_arguments_outcome(
            decls@,
            *args,
            i as int,
            params@,
            scope_view(environment@),
            *expected_return,
            *self_type,
            depth as int,
        ),
    decreases args, args.len() - i,
{
    let ghost start = events_view(events@);
    if i >= args.len() || i >= params.len() {
        assert(events_view(events@) =~= start + seq![]);
        return;
    }
    let actual = check_expression(decls, &args[i], environment, expected_return, self_type, depth, events);
    match &actual {
        Some(x) => {
            if !is_assignable(decls, x, &params[i].ty, events) {
                let text = quoted_message("argument for parameter ", params[i].name.as_str(), " has the wrong type");
                report_error(events, "InvalidInvocation", text);
            }
        },
        None => {},
    }
    check_call_arguments(decls, args, i + 1, params, environment, expected_return, self_type, depth, events);
    assert(events_view(events@) =~= start + call_arguments_outcome(
        decls@,
        *args,
        i as int,
        params@,
        scope_view(environment@),
        *expected_return,
        *self_type,
        depth as int,
    ));
}

/// Checks the fields of a record construction from the `i`-th on.
fn check_fields(
    decls: &Vec<(NodeId, DeclarationKind)>,
    supplied: &Vec<ExpressionField>,
    i: usize,
    expected: &Vec<FieldDeclaration>,
    seen: &mut Vec<NodeId>,
    environment: &Vec<Binding>,
    expected_return: &TypeRef,
    self_type: &Option<TypeRef>,
    depth: usize,
    events: &mut Vec<CheckEvent>,
)
    requires
        i <= supplied.len(),
    ensures
        events_view(final(events)@) == events_view(old(events)@) + fields_outcome(
            decls@,
            *supplied,
            i as int,
            expected@,
            old(seen)@,
            scope_view(environment@),
            *expected_return,
            *self_type,
            depth as int,
        ),
    decreases supplied, supplied.len() - i,
{
    let ghost start = events_view(events@);
    if i >= supplied.len() {
        if seen.len() != expected.len() {
            report_error(
                events,
                "InvalidInvocation",
                "aggregate constructor does not supply every field exactly once".to_owned(),
            );
        } else {
            assert(events_view(events@) =~= start + seq![]);
        }
        return;
    }
    let f = &supplied[i];
    if contains_node(seen, f.field) {
        let mut message: Vec<char> = Vec::new();
        push_text(&mut message, "duplicate expression field node ");
        push_decimal(&mut message, f.field.0);
        let text = string_from_chars(&message);
        report_error(events, "DuplicateDeclaration", text);
        assert(text@ =~= "duplicate expression field node "@ + decimal(f.field.0 as nat));
    } else {
        seen.push(f.field);
    }
    match find_first_field(expected, f.field) {
        None => {
            report_unresolved(events, "aggregate field", f.field);
        },
        Some(j) => {
            let actual = check_expression(decls, &f.value, environment, expected_return, self_type, depth, events);
            match &actual {
                Some(x) => {
                    if !is_assignable(decls, x, &expected[j].ty, events) {
                        report_type_error(events, "aggregate field expression");
                    }
                },
                None => {},
            }
        },
    }
    check_fields(decls, supplied, i + 1, expected, seen, environment, expected_return, self_type, depth, events);
    assert(events_view(events@) =~= start + fields_outcome(
        decls@,
        *supplied,
        i as int,
        expected@,
        old(seen)@,
        scope_view(environment@),
        *expected_return,
        *self_type,
        depth as int,
    ));
}

/// The type of an `if` from the flows of its branches.
fn combine_branches(decls: &Vec<(NodeId, DeclarationKind)>, left: &Flow, right: &Flow, events: &mut Vec<CheckEvent>) -> (result: Option<TypeRef>)
    ensures
        result == branches_outcome(decls@, *left, *right).0,
        events_view(final(events)@) == events_view(old(events)@) + branches_outcome(decls@, *left, *right).1,
{
    let ghost start = events_view(events@);
    if left.always_returns && right.always_returns {
        assert(events_view(events@) =~= start + branches_outcome(decls@, *left, *right).1);
        Some(copy_type_ref(&left.ty))
    } else if left.always_returns {
        assert(events_view(events@) =~= start + branches_outcome(decls@, *left, *right).1);
        Some(copy_type_ref(&right.ty))
    } else if right.always_returns {
        assert(events_view(events@) =~= start + branches_outcome(decls@, *left, *right).1);
        Some(copy_type_ref(&left.ty))
    } else if same_type(decls, &left.ty, &right.ty, events) {
        Some(copy_type_ref(&left.ty))
    } else {
        report_error(events, "InvalidControlFlow", "branches produce incompatible types".to_owned());
        assert(events_view(events@) =~= start + branches_outcome(decls@, *left, *right).1);
        None
    }
}

/// Checks the operands of an intrinsic from the `i`-th on.
fn check_arguments(
    decls: &Vec<(NodeId, DeclarationKind)>,
    args: &Vec<Expression>,
    i: usize,
    environment: &Vec<Binding>,
    expected_return: &TypeRef,
    self_type: &Option<TypeRef>,
    depth: usize,
    events: &mut Vec<CheckEvent>,
) -> (result: Option<Vec<TypeRef>>)
    requires
        i <= args.len(),
    ensures
        match result {
            Some(v) => arguments_outcome(
                decls@,
                *args,
                i as int,
                scope_view(environment@),
                *expected_return,
                *self_type,
                depth as int,
            ).0 == Some(v@),
            None => arguments_outcome(
                decls@,
                *args,
                i as int,
                scope_view(environment@),
                *expected_return,
                *self_type,
                depth as int,
            ).0 is None,
        },
        events_view(final(events)@) == events_view(old(events)@) + arguments_outcome(
            decls@,
            *args,
            i as int,
            scope_view(environment@),
            *expected_return,
            *self_type,
            depth as int,
        ).1,
    decreases args, args.len() - i,
{
    let ghost start = events_view(events@);
    if i >= args.len() {
        assert(events_view(events@) =~= start + seq![]);
        let empty: Vec<TypeRef> = Vec::new();
        assert(empty@ =~= Seq::<TypeRef>::empty());
        return Some(empty);
    }
    let t = check_expression(decls, &args[i], environment, expected_return, self_type, depth, events);
    match t {
        Some(t) => {
            let ghost tv = t;
            let rest = check_arguments(decls, args, i + 1, environment, expected_return, self_type, depth, events);
            assert(events_view(events@) =~= start + arguments_outcome(
                decls@,
                *args,
                i as int,
                scope_view(environment@),
                *expected_return,
                *self_type,
                depth as int,
            ).1);
            match rest {
                Some(mut v) => {
                    let ghost before = v@;
                    v.insert(0, t);
                    assert(v@ =~= seq![tv] + before);
                    Some(v)
                },
                None => None,
            }
        },
        None => None,
    }
}

/// Checks the elements of a list from the `i`-th on against its element type.
fn check_elements(
    decls: &Vec<(NodeId, DeclarationKind)>,
    elements: &Vec<Expression>,
    i: usize,
    element_type: &TypeRef,
    environment: &Vec<Binding>,
    expected_return: &TypeRef,
    self_type: &Option<TypeRef>,
    depth: usize,
    events: &mut Vec<CheckEvent>,
)
    requires
        i <= elements.len(),
    ensures
        events_view(final(events)@) == events_view(old(events)@) + elements_outcome(
            decls@,
            *elements,
            i as int,
            *element_type,
            scope_view(environment@),
            *expected_return,
            *self_type,
            depth as int,
        ),
    decreases elements, elements.len() - i,
{
    let ghost start = events_view(events@);
    if i >= elements.len() {
        assert(events_view(events@) =~= start + seq![]);
        return;
    }
    let actual = check_expression(decls, &elements[i], environment, expected_return, self_type, depth, events);
    match &actual {
        Some(x) => {
            if !same_type(decls, x, element_type, events) {
                report_type_error(events, "list element");
            }
        },
        None => {},
    }
    check_elements(decls, elements, i + 1, element_type, environment, expected_return, self_type, depth, events);
    assert(events_view(events@) =~= start + elements_outcome(
        decls@,
        *elements,
        i as int,
        *element_type,
        scope_view(environment@),
        *expected_return,
        *self_type,
        depth as int,
    ));
}

/// Type checks an expression in scope `environment`, in a body whose
/// returns must fit `expected_return` and where `self` has type `self_type`
/// if any, `depth` levels down. Returns its type, if it has one, and records
/// what the check finds in `events`: the diagnostics, the type of each
/// expression typed (this one last), the binding each local resolves to and
/// the capabilities each node requires.
pub fn check_expression(
    decls: &Vec<(NodeId, DeclarationKind)>,
    expression: &Expression,
    environment: &Vec<Binding>,
    expected_return: &TypeRef,
    self_type: &Option<TypeRef>,
    depth: usize,
    events: &mut Vec<CheckEvent>,
) -> (result: Option<TypeRef>)
    ensures
        result == expression_outcome(
            decls@,
            *expression,
            scope_view(environment@),
            *expected_return,
            *self_type,
            depth as int,
        ).0,
        events_view(final(events)@) == events_view(old(events)@) + expression_outcome(
            decls@,
            *expression,
            scope_view(environment@),
            *expected_return,
            *self_type,
            depth as int,
        ).1,
    decreases expression, 2int,
{
    let ghost start = events_view(events@);
    if depth > MAX_DEPTH {
        report_error(events, "ExcessiveComplexity", "expression exceeds the checker depth limit".to_owned());
        return None;
    }
    let ty = check_expression_kind(decls, expression, environment, expected_return, self_type, depth, events);
    match ty {
        Some(t) => {
            let node = node_of(expression);
            record(events, CheckEvent::Typed(node, copy_type_ref(&t)));
            require_type(events, node, &t);
            assert(events_view(events@) =~= start + expression_outcome(
                decls@,
                *expression,
                scope_view(environment@),
                *expected_return,
                *self_type,
                depth as int,
            ).1);
            Some(t)
        },
        None => None,
    }
}

#[verifier::rlimit(100)]
#[verifier::spinoff_prover]
fn check_expression_kind(
    decls: &Vec<(NodeId, DeclarationKind)>,
    expression: &Expression,
    environment: &Vec<Binding>,
    expected_return: &TypeRef,
    self_type: &Option<TypeRef>,
    depth: usize,
    events: &mut Vec<CheckEvent>,
) -> (result: Option<TypeRef>)
    requires
        depth <= MAX_DEPTH,
    ensures
        result == expression_kind_outcome(
            decls@,
            *expression,
            scope_view(environment@),
            *expected_return,
            *self_type,
            depth as int,
        ).0,
        events_view(final(events)@) == events_view(old(events)@) + expression_kind_outcome(
            decls@,
            *expression,
            scope_view(environment@),
            *expected_return,
            *self_type,
            depth as int,
        ).1,
    decreases expression, 1int,
{
    let ghost start = events_view(events@);
    let ghost env = scope_view(environment@);
    match expression {
        Expression::Literal { value, .. } => infer_literal(value, depth + 1, events),
        Expression::Local { node, name } => match find_binding(environment, name.as_str()) {
            Some(k) => {
                record(events, CheckEvent::Resolved(*node, environment[k].symbol));
                Some(copy_type_ref(&environment[k].ty))
            },
            None => {
                let text = quoted_message("unknown local ", name.as_str(), "");
                proof {
                    reveal_strlit("");
                    assert("unknown local "@ + debug_text(name@) + ""@ =~= "unknown local "@ + debug_text(name@));
                }
                report_error(events, "UnresolvedReference", text);
                None
            },
        },
        Expression::Constant { declaration, .. } => {
            let found = match find_declaration(decls, *declaration) {
                Some(k) => match &decls[k].1 {
                    DeclarationKind::Constant(t) => Some(copy_type_ref(t)),
                    _ => None,
                },
                None => None,
            };
            match found {
                Some(t) => {
                    assert(events_view(events@) =~= start + seq![]);
                    Some(t)
                },
                None => {
                    report_unresolved(events, "constant", *declaration);
                    None
                },
            }
        },
        Expression::SelfValue { .. } => match self_type {
            Some(t) => {
                assert(events_view(events@) =~= start + seq![]);
                Some(copy_type_ref(t))
            },
            None => {
                report_error(
                    events,
                    "UnresolvedReference",
                    "self is available only inside an implementation method".to_owned(),
                );
                None
            },
        },
        Expression::ConstructSome { value, .. } => {
            match check_expression(decls, value, environment, expected_return, self_type, depth + 1, events) {
                Some(t) => Some(TypeRef::Option(Box::new(t))),
                None => None,
            }
        },
        Expression::ConstructNone { node, inner_type } => {
            check_type(decls, inner_type, *node, events);
            Some(TypeRef::Option(Box::new(copy_type_ref(inner_type))))
        },
        Expression::ConstructOk { node, value, error_type } => {
            check_type(decls, error_type, *node, events);
            let t = check_expression(decls, value, environment, expected_return, self_type, depth + 1, events);
            assert(events_view(events@) =~= start + expression_kind_outcome(
                decls@,
                *expression,
                env,
                *expected_return,
                *self_type,
                depth as int,
            ).1);
            match t {
                Some(t) => Some(TypeRef::Result { ok: Box::new(t), error: Box::new(copy_type_ref(error_type)) }),
                None => None,
            }
        },
        Expression::ConstructErr { node, value, ok_type } => {
            check_type(decls, ok_type, *node, events);
            let t = check_expression(decls, value, environment, expected_return, self_type, depth + 1, events);
            assert(events_view(events@) =~= start + expression_kind_outcome(
                decls@,
                *expression,
                env,
                *expected_return,
                *self_type,
                depth as int,
            ).1);
            match t {
                Some(t) => Some(TypeRef::Result { ok: Box::new(copy_type_ref(ok_type)), error: Box::new(t) }),
                None => None,
            }
        },
        Expression::ConstructList { node, element_type, elements } => {
            check_type(decls, element_type, *node, events);
            check_elements(
                decls,
                elements,
                0,
                element_type,
                environment,
                expected_return,
                self_type,
                depth + 1,
                events,
            );
            assert(events_view(events@) =~= start + expression_kind_outcome(
                decls@,
                *expression,
                env,
                *expected_return,
                *self_type,
                depth as int,
            ).1);
            Some(TypeRef::List(Box::new(copy_type_ref(element_type))))
        },
        Expression::Intrinsic { node, operation, arguments } => {
            match check_arguments(decls, arguments, 0, environment, expected_return, self_type, depth + 1, events) {
                Some(types) => {
                    let r = run_intrinsic(*operation, &types, *node, events);
                    assert(events_view(events@) =~= start + expression_kind_outcome(
                        decls@,
                        *expression,
                        env,
                        *expected_return,
                        *self_type,
                        depth as int,
                    ).1);
                    r
                },
                None => None,
            }
        },
        Expression::ConstructRecord { .. } => check_record_construction(decls, expression, environment, expected_return, self_type, depth, events),
        Expression::Field { .. } => check_field_access(decls, expression, environment, expected_return, self_type, depth, events),
        Expression::Call { .. } => check_call(decls, expression, environment, expected_return, self_type, depth, events),
        Expression::ConstructEnum { .. } => check_enum_construction(
            decls,
            expression,
            environment,
            expected_return,
            self_type,
            depth,
            events,
        ),
        Expression::MethodCall { .. } => check_method_call(
            decls,
            expression,
            environment,
            expected_return,
            self_type,
            depth,
            events,
        ),
        Expression::If { .. } => check_if(decls, expression, environment, expected_return, self_type, depth, events),
        Expression::Block(b) => {
            let flow = check_block(decls, b, environment, expected_return, self_type, depth + 1, events);
            Some(flow.ty)
        },
    }
}

#[verifier::rlimit(100)]
#[verifier::spinoff_prover]
fn check_record_construction(
    decls: &Vec<(NodeId, DeclarationKind)>,
    expression: &Expression,
    environment: &Vec<Binding>,
    expected_return: &TypeRef,
    self_type: &Option<TypeRef>,
    depth: usize,
    events: &mut Vec<CheckEvent>,
) -> (result: Option<TypeRef>)
    requires
        depth <= MAX_DEPTH,
        expression is ConstructRecord,
    ensures
        result == expression_kind_outcome(
            decls@,
            *expression,
            scope_view(environment@),
            *expected_return,
            *self_type,
            depth as int,
        ).0,
        events_view(final(events)@) == events_view(old(events)@) + expression_kind_outcome(
            decls@,
            *expression,
            scope_view(environment@),
            *expected_return,
            *self_type,
            depth as int,
        ).1,
    decreases expression, 0int,
{
    let ghost start = events_view(events@);
    let ghost env = scope_view(environment@);
    match expression {
        Expression::ConstructRecord { declaration, fields, .. } => {
            let found = match find_declaration(decls, *declaration) {
                Some(k) => match &decls[k].1 {
                    DeclarationKind::Record(expected) => Some(k),
                    _ => None,
                },
                None => None,
            };
            match found {
                Some(k) => {
                    match &decls[k].1 {
                        DeclarationKind::Record(expected) => {
                            let mut seen: Vec<NodeId> = Vec::new();
                            assert(seen@ =~= Seq::<NodeId>::empty());
                            check_fields(
                                decls,
                                fields,
                                0,
                                expected,
                                &mut seen,
                                environment,
                                expected_return,
                                self_type,
                                depth + 2,
                                events,
                            );
                        },
                        _ => {},
                    }
                    assert(events_view(events@) =~= start + expression_kind_outcome(
                        decls@,
                        *expression,
                        env,
                        *expected_return,
                        *self_type,
                        depth as int,
                    ).1);
                    Some(TypeRef::Named(*declaration))
                },
                None => {
                    report_unresolved(events, "record", *declaration);
                    None
                },
            }
        },
        _ => None,
    }
}

#[verifier::rlimit(100)]
#[verifier::spinoff_prover]
fn check_field_access(
    decls: &Vec<(NodeId, DeclarationKind)>,
    expression: &Expression,
    environment: &Vec<Binding>,
    expected_return: &TypeRef,
    self_type: &Option<TypeRef>,
    depth: usize,
    events: &mut Vec<CheckEvent>,
) -> (result: Option<TypeRef>)
    requires
        depth <= MAX_DEPTH,
        expression is Field,
    ensures
        result == expression_kind_outcome(
            decls@,
            *expression,
            scope_view(environment@),
            *expected_return,
            *self_type,
            depth as int,
        ).0,
        events_view(final(events)@) == events_view(old(events)@) + expression_kind_outcome(
            decls@,
            *expression,
            scope_view(environment@),
            *expected_return,
            *self_type,
            depth as int,
        ).1,
    decreases expression, 0int,
{
    let ghost start = events_view(events@);
    let ghost env = scope_view(environment@);
    match expression {
        Expression::Field { base, field, .. } => {
            let b = check_expression(decls, base, environment, expected_return, self_type, depth + 1, events);
            match b {
                None => None,
                Some(bt) => {
                    let ok = resolve_type(decls, &bt, events);
                    if !ok {
                        assert(events_view(events@) =~= start + expression_kind_outcome(
                            decls@,
                            *expression,
                            env,
                            *expected_return,
                            *self_type,
                            depth as int,
                        ).1);
                        None
                    } else {
                        let r = match &bt {
                            TypeRef::Named(record_id) => {
                                let found = match find_record_field(decls, *field) {
                                    Some((k, j)) => if decls[k].0.0 == record_id.0 {
                                        match &decls[k].1 {
                                            DeclarationKind::Record(fs) => Some(copy_type_ref(&fs[j].ty)),
                                            _ => None,
                                        }
                                    } else {
                                        None
                                    },
                                    None => None,
                                };
                                if found.is_none() {
                                    report_unresolved(events, "record field", *field);
                                }
                                found
                            },
                            _ => {
                                report_type_error(events, "field receiver");
                                None
                            },
                        };
                        assert(events_view(events@) =~= start + expression_kind_outcome(
                            decls@,
                            *expression,
                            env,
                            *expected_return,
                            *self_type,
                            depth as int,
                        ).1);
                        r
                    }
                },
            }
        },
        _ => None,
    }
}

#[verifier::rlimit(100)]
#[verifier::spinoff_prover]
fn check_call(
    decls: &Vec<(NodeId, DeclarationKind)>,
    expression: &Expression,
    environment: &Vec<Binding>,
    expected_return: &TypeRef,
    self_type: &Option<TypeRef>,
    depth: usize,
    events: &mut Vec<CheckEvent>,
) -> (result: Option<TypeRef>)
    requires
        depth <= MAX_DEPTH,
        expression is Call,
    ensures
        result == expression_kind_outcome(
            decls@,
            *expression,
            scope_view(environment@),
            *expected_return,
            *self_type,
            depth as int,
        ).0,
        events_view(final(events)@) == events_view(old(events)@) + expression_kind_outcome(
            decls@,
            *expression,
            scope_view(environment@),
            *expected_return,
            *self_type,
            depth as int,
        ).1,
    decreases expression, 0int,
{
    let ghost start = events_view(events@);
    let ghost env = scope_view(environment@);
    match expression {
        Expression::Call { function, arguments, .. } => {
            let found = match find_declaration(decls, *function) {
                Some(k) => match &decls[k].1 {
                    DeclarationKind::Function { .. } => Some(k),
                    _ => None,
                },
                None => None,
            };
            match found {
                Some(k) => match &decls[k].1 {
                    DeclarationKind::Function { parameters, return_type } => {
                        report_arity(events, arguments.len(), parameters.len());
                        check_call_arguments(
                            decls,
                            arguments,
                            0,
                            parameters,
                            environment,
                            expected_return,
                            self_type,
                            depth + 2,
                            events,
                        );
                        assert(events_view(events@) =~= start + expression_kind_outcome(
                            decls@,
                            *expression,
                            env,
                            *expected_return,
                            *self_type,
                            depth as int,
                        ).1);
                        Some(copy_type_ref(return_type))
                    },
                    _ => None,
                },
                None => {
                    report_unresolved(events, "function", *function);
                    None
                },
            }
        },
        _ => None,
    }
}

#[verifier::rlimit(100)]
#[verifier::spinoff_prover]
fn check_if(
    decls: &Vec<(NodeId, DeclarationKind)>,
    expression: &Expression,
    environment: &Vec<Binding>,
    expected_return: &TypeRef,
    self_type: &Option<TypeRef>,
    depth: usize,
    events: &mut Vec<CheckEvent>,
) -> (result: Option<TypeRef>)
    requires
        depth <= MAX_DEPTH,
        expression is If,
    ensures
        result == expression_kind_outcome(
            decls@,
            *expression,
            scope_view(environment@),
            *expected_return,
            *self_type,
            depth as int,
        ).0,
        events_view(final(events)@) == events_view(old(events)@) + expression_kind_outcome(
            decls@,
            *expression,
            scope_view(environment@),
            *expected_return,
            *self_type,
            depth as int,
        ).1,
    decreases expression, 0int,
{
    let ghost start = events_view(events@);
    let ghost env = scope_view(environment@);
    match expression {
        Expression::If { condition, then_block, else_block, .. } => {
            let c = check_expression(decls, condition, environment, expected_return, self_type, depth + 1, events);
            let is_bool = match &c {
                Some(TypeRef::Bool) => true,
                _ => false,
            };
            if !is_bool {
                report_type_error(events, "if condition");
            }
            let then_flow = check_block(decls, then_block, environment, expected_return, self_type, depth + 1, events);
            let else_flow = check_block(decls, else_block, environment, expected_return, self_type, depth + 1, events);
            let r = combine_branches(decls, &then_flow, &else_flow, events);
            assert(events_view(events@) =~= start + expression_kind_outcome(
                decls@,
                *expression,
                env,
                *expected_return,
                *self_type,
                depth as int,
            ).1);
            r
        },
        _ => None,
    }
}

/// Where the implemented method at node `id` is declared: the declaration
/// and the method's position in it.
fn find_implementation_method(decls: &Vec<(NodeId, DeclarationKind)>, id: NodeId) -> (result: Option<(usize, usize)>)
    ensures
        match result {
            Some((k, j)) => k < decls.len() && match decls@[k as int].1 {
                DeclarationKind::Implementation { methods, .. } => j < methods.len() && implementation_method(
                    decls@,
                    id,
                ) == Some((decls@[k as int].0, methods@[j as int])),
                _ => false,
            },
            None => implementation_method(decls@, id) is None,
        },
{
    let mut i = decls.len();
    assert(decls@.take(i as int) =~= decls@);
    while i > 0
        invariant
            i <= decls.len(),
            implementation_method(decls@, id) == implementation_method(decls@.take(i as int), id),
        decreases i,
    {
        let found = match &decls[i - 1].1 {
            DeclarationKind::Implementation { methods, .. } => find_method(methods, id),
            _ => None,
        };
        assert(decls@.take(i as int).last() == decls@[i - 1]);
        match found {
            Some(j) => {
                return Some((i - 1, j));
            },
            None => {},
        }
        assert(decls@.take(i as int).drop_last() =~= decls@.take(i - 1));
        i -= 1;
    }
    None
}

/// Checks a call of `sig` with `arguments`, after its receiver was checked.
fn check_dispatched_arguments(
    decls: &Vec<(NodeId, DeclarationKind)>,
    arguments: &Vec<Expression>,
    sig: &MethodSignature,
    environment: &Vec<Binding>,
    expected_return: &TypeRef,
    self_type: &Option<TypeRef>,
    depth: usize,
    events: &mut Vec<CheckEvent>,
) -> (result: TypeRef)
    ensures
        result == sig.return_type,
        events_view(final(events)@) == events_view(old(events)@) + arity_events(
            arguments.len() as int,
            sig.parameters.len() as int,
        ) + call_arguments_outcome(
            decls@,
            *arguments,
            0,
            sig.parameters@,
            scope_view(environment@),
            *expected_return,
            *self_type,
            depth as int,
        ),
    decreases arguments, arguments.len() + 1,
{
    let ghost start = events_view(events@);
    report_arity(events, arguments.len(), sig.parameters.len());
    check_call_arguments(decls, arguments, 0, &sig.parameters, environment, expected_return, self_type, depth, events);
    assert(events_view(events@) =~= start + arity_events(arguments.len() as int, sig.parameters.len() as int)
        + call_arguments_outcome(
        decls@,
        *arguments,
        0,
        sig.parameters@,
        scope_view(environment@),
        *expected_return,
        *self_type,
        depth as int,
    ));
    copy_type_ref(&sig.return_type)
}

#[verifier::rlimit(100)]
#[verifier::spinoff_prover]
fn check_method_call(
    decls: &Vec<(NodeId, DeclarationKind)>,
    expression: &Expression,
    environment: &Vec<Binding>,
    expected_return: &TypeRef,
    self_type: &Option<TypeRef>,
    depth: usize,
    events: &mut Vec<CheckEvent>,
) -> (result: Option<TypeRef>)
    requires
        depth <= MAX_DEPTH,
        expression is MethodCall,
    ensures
        result == expression_kind_outcome(
            decls@,
            *expression,
            scope_view(environment@),
            *expected_return,
            *self_type,
            depth as int,
        ).0,
        events_view(final(events)@) == events_view(old(events)@) + expression_kind_outcome(
            decls@,
            *expression,
            scope_view(environment@),
            *expected_return,
            *self_type,
            depth as int,
        ).1,
    decreases expression, 0int,
{
    let ghost start = events_view(events@);
    let ghost env = scope_view(environment@);
    match expression {
        Expression::MethodCall { node, receiver, dispatch, arguments } => {
            let rt = match check_expression(decls, receiver, environment, expected_return, self_type, depth + 2, events) {
                Some(t) => t,
                None => {
                    return None;
                },
            };
            record(events, CheckEvent::Required(*node, Capability::ContractDispatch));
            let r = match dispatch {
                MethodDispatch::Concrete { implementation, method } => {
                    let record_of = match find_declaration(decls, *implementation) {
                        Some(k) => match &decls[k].1 {
                            DeclarationKind::Implementation { record, .. } => Some(*record),
                            _ => None,
                        },
                        None => None,
                    };
                    match record_of {
                        None => {
                            report_unresolved(events, "implementation", *implementation);
                            None
                        },
                        Some(record) => match find_implementation_method(decls, *method) {
                            None => {
                                report_unresolved(events, "implementation method", *method);
                                None
                            },
                            Some((k, j)) => {
                                let fits = if decls[k].0.0 != implementation.0 {
                                    false
                                } else {
                                    is_assignable(decls, &rt, &TypeRef::Named(record), events)
                                };
                                if !fits {
                                    report_error(
                                        events,
                                        "InvalidInvocation",
                                        "concrete method receiver or dispatch owner does not match".to_owned(),
                                    );
                                }
                                match &decls[k].1 {
                                    DeclarationKind::Implementation { methods, .. } => Some(
                                        check_dispatched_arguments(
                                            decls,
                                            arguments,
                                            &methods[j],
                                            environment,
                                            expected_return,
                                            self_type,
                                            depth + 2,
                                            events,
                                        ),
                                    ),
                                    _ => None,
                                }
                            },
                        },
                    }
                },
                MethodDispatch::Contract { contract, method } => match find_contract_method(decls, *method) {
                    None => {
                        report_unresolved(events, "contract method", *method);
                        None
                    },
                    Some((k, j)) => {
                        let fits = if decls[k].0.0 != contract.0 {
                            false
                        } else {
                            is_assignable(decls, &rt, &TypeRef::Contract(*contract), events)
                        };
                        if !fits {
                            report_error(
                                events,
                                "InvalidInvocation",
                                "contract method receiver or dispatch owner does not match".to_owned(),
                            );
                        }
                        match &decls[k].1 {
                            DeclarationKind::Contract(ms) => Some(
                                check_dispatched_arguments(
                                    decls,
                                    arguments,
                                    &ms[j],
                                    environment,
                                    expected_return,
                                    self_type,
                                    depth + 2,
                                    events,
                                ),
                            ),
                            _ => None,
                        }
                    },
                },
            };
            assert(events_view(events@) =~= start + expression_kind_outcome(
                decls@,
                *expression,
                env,
                *expected_return,
                *self_type,
                depth as int,
            ).1);
            r
        },
        _ => None,
    }
}

/// The position of the last variant at node `id`.
fn find_variant(variants: &Vec<EnumVariant>, id: NodeId) -> (result: Option<usize>)
    ensures
        match result {
            Some(j) => j < variants.len() && j as int == variant_position(variants@, id),
            None => variant_position(variants@, id) == -1,
        },
{
    let mut i = variants.len();
    assert(variants@.take(i as int) =~= variants@);
    while i > 0
        invariant
            i <= variants.len(),
            variant_position(variants@, id) == variant_position(variants@.take(i as int), id),
        decreases i,
    {
        if variants[i - 1].node.0 == id.0 {
            assert(variants@.take(i as int).last().node == id);
            return Some(i - 1);
        }
        assert(variants@.take(i as int).drop_last() =~= variants@.take(i - 1));
        i -= 1;
    }
    None
}

/// Where the enum variant at node `id` is declared: the declaration and the
/// variant's position in it.
fn find_enum_variant(decls: &Vec<(NodeId, DeclarationKind)>, id: NodeId) -> (result: Option<(usize, usize)>)
    ensures
        match result {
            Some((k, j)) => k < decls.len() && match decls@[k as int].1 {
                DeclarationKind::Enum(vs) => j < vs.len() && enum_variant(decls@, id) == Some(
                    (decls@[k as int].0, vs@[j as int]),
                ),
                _ => false,
            },
            None => enum_variant(decls@, id) is None,
        },
{
    let mut i = decls.len();
    assert(decls@.take(i as int) =~= decls@);
    while i > 0
        invariant
            i <= decls.len(),
            enum_variant(decls@, id) == enum_variant(decls@.take(i as int), id),
        decreases i,
    {
        let found = match &decls[i - 1].1 {
            DeclarationKind::Enum(vs) => find_variant(vs, id),
            _ => None,
        };
        assert(decls@.take(i as int).last() == decls@[i - 1]);
        match found {
            Some(j) => {
                return Some((i - 1, j));
            },
            None => {},
        }
        assert(decls@.take(i as int).drop_last() =~= decls@.take(i - 1));
        i -= 1;
    }
    None
}

#[verifier::rlimit(100)]
#[verifier::spinoff_prover]
fn check_enum_construction(
    decls: &Vec<(NodeId, DeclarationKind)>,
    expression: &Expression,
    environment: &Vec<Binding>,
    expected_return: &TypeRef,
    self_type: &Option<TypeRef>,
    depth: usize,
    events: &mut Vec<CheckEvent>,
) -> (result: Option<TypeRef>)
    requires
        depth <= MAX_DEPTH,
        expression is ConstructEnum,
    ensures
        result == expression_kind_outcome(
            decls@,
            *expression,
            scope_view(environment@),
            *expected_return,
            *self_type,
            depth as int,
        ).0,
        events_view(final(events)@) == events_view(old(events)@) + expression_kind_outcome(
            decls@,
            *expression,
            scope_view(environment@),
            *expected_return,
            *self_type,
            depth as int,
        ).1,
    decreases expression, 0int,
{
    match expression {
        Expression::ConstructEnum { declaration, variant, fields, .. } => match find_enum_variant(decls, *variant) {
            None => {
                report_unresolved(events, "enum variant", *variant);
                None
            },
            Some((k, j)) => {
                if decls[k].0.0 != declaration.0 {
                    report_type_error(events, "enum variant declaration");
                    None
                } else {
                    match &decls[k].1 {
                        DeclarationKind::Enum(vs) => {
                            let mut seen: Vec<NodeId> = Vec::new();
                            assert(seen@ =~= Seq::<NodeId>::empty());
                            check_fields(
                                decls,
                                fields,
                                0,
                                &vs[j].fields,
                                &mut seen,
                                environment,
                                expected_return,
                                self_type,
                                depth + 2,
                                events,
                            );
                        },
                        _ => {},
                    }
                    Some(TypeRef::Named(*declaration))
                }
            },
        },
        _ => None,
    }
}

/// Type checks a block in scope `outer`, in a body whose returns must fit
/// `expected_return`, `depth` levels down: its type and whether every path
/// through it returns, and in `events` what the check finds.
pub fn check_block(
    decls: &Vec<(NodeId, DeclarationKind)>,
    block: &Block,
    outer: &Vec<Binding>,
    expected_return: &TypeRef,
    self_type: &Option<TypeRef>,
    depth: usize,
    events: &mut Vec<CheckEvent>,
) -> (result: Flow)
    ensures
        result == block_outcome(decls@, *block, scope_view(outer@), *expected_return, *self_type, depth as int).0,
        events_view(final(events)@) == events_view(old(events)@) + block_outcome(
            decls@,
            *block,
            scope_view(outer@),
            *expected_return,
            *self_type,
            depth as int,
        ).1,
    decreases block, block.statements.len() + 1,
{
    let ghost start = events_view(events@);
    if depth > MAX_DEPTH {
        report_error(events, "ExcessiveComplexity", "block exceeds the checker depth limit".to_owned());
        return Flow { ty: TypeRef::Unit, always_returns: false };
    }
    let mut environment = copy_scope(outer);
    let always = check_statements(
        decls,
        block,
        0,
        &mut environment,
        false,
        expected_return,
        self_type,
        depth,
        events,
    );
    match &block.result {
        Some(r) => {
            if always {
                report_error(events, "InvalidControlFlow", "block result is unreachable after return".to_owned());
            }
            let t = check_expression(decls, r, &environment, expected_return, self_type, depth + 1, events);
            let result_ends_in_return = expression_always_returns(r);
            assert(events_view(events@) =~= start + block_outcome(
                decls@,
                *block,
                scope_view(outer@),
                *expected_return,
                *self_type,
                depth as int,
            ).1);
            Flow {
                ty: match t {
                    Some(t) => t,
                    None => TypeRef::Unit,
                },
                always_returns: always || result_ends_in_return,
            }
        },
        None => Flow {
            ty: if always {
                copy_type_ref(expected_return)
            } else {
                TypeRef::Unit
            },
            always_returns: always,
        },
    }
}

/// Checks the statements of `block` from the `i`-th on; whether a return
/// has been passed.
fn check_statements(
    decls: &Vec<(NodeId, DeclarationKind)>,
    block: &Block,
    i: usize,
    environment: &mut Vec<Binding>,
    always: bool,
    expected_return: &TypeRef,
    self_type: &Option<TypeRef>,
    depth: usize,
    events: &mut Vec<CheckEvent>,
) -> (result: bool)
    requires
        i <= block.statements.len(),
        depth <= MAX_DEPTH,
    ensures
        scope_view(final(environment)@) == statements_outcome(decls@, *block, i as int, scope_view(old(environment)@), always, *expected_return, *self_type, depth as int).0,
        result == statements_outcome(decls@, *block, i as int, scope_view(old(environment)@), always, *expected_return, *self_type, depth as int).1,
        events_view(final(events)@) == events_view(old(events)@) + statements_outcome(decls@, *block, i as int, scope_view(old(environment)@), always, *expected_return, *self_type, depth as int).2,
    decreases block, block.statements.len() - i,
{
    let ghost start = events_view(events@);
    if i >= block.statements.len() {
        assert(events_view(events@) =~= start + seq![]);
        return always;
    }
    let next = check_statement(decls, &block.statements[i], environment, always, expected_return, self_type, depth, events);
    let result = check_statements(decls, block, i + 1, environment, next, expected_return, self_type, depth, events);
    assert(events_view(events@) =~= start + statements_outcome(
        decls@,
        *block,
        i as int,
        scope_view(old(environment)@),
        always,
        *expected_return,
        *self_type,
        depth as int,
    ).2);
    result
}

/// Checks one statement; whether a return has been passed after it.
/// Checks one statement; whether a return has been passed after it.
#[verifier::rlimit(100)]
#[verifier::spinoff_prover]
fn check_statement(
    decls: &Vec<(NodeId, DeclarationKind)>,
    statement: &Statement,
    environment: &mut Vec<Binding>,
    always: bool,
    expected_return: &TypeRef,
    self_type: &Option<TypeRef>,
    depth: usize,
    events: &mut Vec<CheckEvent>,
) -> (result: bool)
    requires
        depth <= MAX_DEPTH,
    ensures
        scope_view(final(environment)@) == statement_outcome(decls@, *statement, scope_view(old(environment)@), always, *expected_return, *self_type, depth as int).0,
        result == statement_outcome(decls@, *statement, scope_view(old(environment)@), always, *expected_return, *self_type, depth as int).1,
        events_view(final(events)@) == events_view(old(events)@) + statement_outcome(decls@, *statement, scope_view(old(environment)@), always, *expected_return, *self_type, depth as int).2,
    decreases statement, 1int,
{
    let ghost start = events_view(events@);
    if always {
        report_error(events, "InvalidControlFlow", "statement is unreachable after return".to_owned());
    }
    let ghost mid = events_view(events@);
    let result = match statement {
        Statement::Let { .. } => check_let(decls, statement, environment, always, expected_return, self_type, depth, events),
        Statement::ForEach { .. } => check_for_each(decls, statement, environment, always, expected_return, self_type, depth, events),
        Statement::Return { .. } => check_return(decls, statement, environment, always, expected_return, self_type, depth, events),
        Statement::Expression { value, .. } => {
            check_expression(decls, value, environment, expected_return, self_type, depth + 1, events);
            always || expression_always_returns(value)
        },
    };
    assert(events_view(events@) =~= start + statement_outcome(
        decls@,
        *statement,
        scope_view(old(environment)@),
        always,
        *expected_return,
        *self_type,
        depth as int,
    ).2);
    result
}

#[verifier::rlimit(100)]
#[verifier::spinoff_prover]
fn check_let(
    decls: &Vec<(NodeId, DeclarationKind)>,
    statement: &Statement,
    environment: &mut Vec<Binding>,
    always: bool,
    expected_return: &TypeRef,
    self_type: &Option<TypeRef>,
    depth: usize,
    events: &mut Vec<CheckEvent>,
) -> (result: bool)
    requires
        depth <= MAX_DEPTH,
        statement is Let,
    ensures
        scope_view(final(environment)@) == statement_kind_outcome(decls@, *statement, scope_view(old(environment)@), always, *expected_return, *self_type, depth as int).0,
        result == statement_kind_outcome(decls@, *statement, scope_view(old(environment)@), always, *expected_return, *self_type, depth as int).1,
        events_view(final(events)@) == events_view(old(events)@) + statement_kind_outcome(decls@, *statement, scope_view(old(environment)@), always, *expected_return, *self_type, depth as int).2,
    decreases statement, 0int,
{
    let ghost start = events_view(events@);
    match statement {
        Statement::Let { node, name, annotation, value } => {
            check_identifier(events, name.as_str());
            let actual = check_expression(decls, value, environment, expected_return, self_type, depth + 1, events);
            let ty = match annotation {
                Some(a) => copy_type_ref(a),
                None => match &actual {
                    Some(t) => copy_type_ref(t),
                    None => TypeRef::Unit,
                },
            };
            match annotation {
                Some(a) => {
                    check_type(decls, a, *node, events);
                    match &actual {
                        Some(x) => {
                            if !same_type(decls, x, a, events) {
                                report_type_error(events, "let binding");
                            }
                        },
                        None => {},
                    }
                },
                None => {},
            }
            let existed = bind_name(environment, name.as_str(), *node, ty);
            if existed {
                let text = quoted_message("local binding ", name.as_str(), " shadows an existing name");
                report_error(events, "DuplicateDeclaration", text);
            }
            assert(events_view(events@) =~= start + statement_kind_outcome(
                decls@,
                *statement,
                scope_view(old(environment)@),
                always,
                *expected_return,
                *self_type,
                depth as int,
            ).2);
            always || expression_always_returns(value)
        },
        _ => always,
    }
}

#[verifier::rlimit(100)]
#[verifier::spinoff_prover]
fn check_for_each(
    decls: &Vec<(NodeId, DeclarationKind)>,
    statement: &Statement,
    environment: &mut Vec<Binding>,
    always: bool,
    expected_return: &TypeRef,
    self_type: &Option<TypeRef>,
    depth: usize,
    events: &mut Vec<CheckEvent>,
) -> (result: bool)
    requires
        depth <= MAX_DEPTH,
        statement is ForEach,
    ensures
        scope_view(final(environment)@) == statement_kind_outcome(decls@, *statement, scope_view(old(environment)@), always, *expected_return, *self_type, depth as int).0,
        result == statement_kind_outcome(decls@, *statement, scope_view(old(environment)@), always, *expected_return, *self_type, depth as int).1,
        events_view(final(events)@) == events_view(old(events)@) + statement_kind_outcome(decls@, *statement, scope_view(old(environment)@), always, *expected_return, *self_type, depth as int).2,
    decreases statement, 0int,
{
    let ghost start = events_view(events@);
    match statement {
        Statement::ForEach { node, binding, iterable, body } => {
            check_identifier(events, binding.as_str());
            record(events, CheckEvent::Required(*node, Capability::BoundedIteration));
            let it = check_expression(decls, iterable, environment, expected_return, self_type, depth + 1, events);
            match it {
                Some(TypeRef::List(element)) => {
                    let mut body_environment = copy_scope(environment);
                    let existed = bind_name(&mut body_environment, binding.as_str(), *node, *element);
                    if existed {
                        let text = quoted_message("for-each binding ", binding.as_str(), " shadows an existing name");
                        report_error(events, "DuplicateDeclaration", text);
                    }
                    let flow = check_block(
                        decls,
                        body,
                        &body_environment,
                        expected_return,
                        self_type,
                        depth + 1,
                        events,
                    );
                    let is_unit = match flow.ty {
                        TypeRef::Unit => true,
                        _ => false,
                    };
                    if !is_unit && !flow.always_returns {
                        report_type_error(events, "for-each body");
                    }
                },
                _ => {
                    report_type_error(events, "for-each iterable");
                },
            }
            assert(events_view(events@) =~= start + statement_kind_outcome(
                decls@,
                *statement,
                scope_view(old(environment)@),
                always,
                *expected_return,
                *self_type,
                depth as int,
            ).2);
            always
        },
        _ => always,
    }
}

fn check_return(
    decls: &Vec<(NodeId, DeclarationKind)>,
    statement: &Statement,
    environment: &mut Vec<Binding>,
    always: bool,
    expected_return: &TypeRef,
    self_type: &Option<TypeRef>,
    depth: usize,
    events: &mut Vec<CheckEvent>,
) -> (result: bool)
    requires
        depth <= MAX_DEPTH,
        statement is Return,
    ensures
        scope_view(final(environment)@) == statement_kind_outcome(decls@, *statement, scope_view(old(environment)@), always, *expected_return, *self_type, depth as int).0,
        result == statement_kind_outcome(decls@, *statement, scope_view(old(environment)@), always, *expected_return, *self_type, depth as int).1,
        events_view(final(events)@) == events_view(old(events)@) + statement_kind_outcome(decls@, *statement, scope_view(old(environment)@), always, *expected_return, *self_type, depth as int).2,
    decreases statement, 0int,
{
    let ghost start = events_view(events@);
    match statement {
        Statement::Return { value, .. } => {
            let actual = match value {
                Some(v) => check_expression(decls, v, environment, expected_return, self_type, depth + 1, events),
                None => Some(TypeRef::Unit),
            };
            match &actual {
                Some(a) => {
                    if !is_assignable(decls, a, expected_return, events) {
                        report_type_error(events, "return value");
                    }
                },
                None => {},
            }
            assert(events_view(events@) =~= start + statement_kind_outcome(
                decls@,
                *statement,
                scope_view(old(environment)@),
                always,
                *expected_return,
                *self_type,
                depth as int,
            ).2);
            true
        },
        _ => always,
    }
}
/// Checks the parameters from the `i`-th on and binds them in `environment`.
fn check_parameters(
    decls: &Vec<(NodeId, DeclarationKind)>,
    parameters: &Vec<Parameter>,
    i: usize,
    environment: &mut Vec<Binding>,
    events: &mut Vec<CheckEvent>,
)
    requires
        i <= parameters.len(),
    ensures
        scope_view(final(environment)@) == parameters_outcome(decls@, parameters@, i as int, scope_view(old(environment)@)).0,
        events_view(final(events)@) == events_view(old(events)@) + parameters_outcome(
            decls@,
            parameters@,
            i as int,
            scope_view(old(environment)@),
        ).1,
    decreases parameters.len() - i,
{
    let ghost start = events_view(events@);
    if i >= parameters.len() {
        assert(events_view(events@) =~= start + seq![]);
        return;
    }
    let p = &parameters[i];
    check_identifier(events, p.name.as_str());
    let is_contract = match &p.ty {
        TypeRef::Contract(id) => {
            let found = match find_declaration(decls, *id) {
                Some(k) => match &decls[k].1 {
                    DeclarationKind::Contract(_) => true,
                    _ => false,
                },
                None => false,
            };
            if !found {
                report_unresolved(events, "contract type", *id);
            }
            true
        },
        _ => false,
    };
    if !is_contract {
        resolve_type(decls, &p.ty, events);
    }
    require_type(events, p.node, &p.ty);
    let existed = bind_name(environment, p.name.as_str(), p.node, copy_type_ref(&p.ty));
    if existed {
        let text = quoted_message("duplicate parameter ", p.name.as_str(), "");
        proof {
            reveal_strlit("");
            assert("duplicate parameter "@ + debug_text(p.name@) + ""@ =~= "duplicate parameter "@ + debug_text(p.name@));
        }
        report_error(events, "DuplicateDeclaration", text);
    }
    check_parameters(decls, parameters, i + 1, environment, events);
    assert(events_view(events@) =~= start + parameters_outcome(
        decls@,
        parameters@,
        i as int,
        scope_view(old(environment)@),
    ).1);
}

/// Type checks a function declaration: its parameters, its return type and
/// its body, which must not finish without a value of the return type.
pub fn check_function(decls: &Vec<(NodeId, DeclarationKind)>, function: &FunctionDeclaration, events: &mut Vec<CheckEvent>)
    ensures
        events_view(final(events)@) == events_view(old(events)@) + function_outcome(decls@, *function),
{
    let ghost start = events_view(events@);
    let mut environment: Vec<Binding> = Vec::new();
    assert(scope_view(environment@) =~= Seq::<(Seq<char>, NodeId, TypeRef)>::empty());
    check_parameters(decls, &function.parameters, 0, &mut environment, events);
    check_type(decls, &function.return_type, function.node, events);
    let flow = check_block(decls, &function.body, &environment, &function.return_type, &None, 0, events);
    if !flow.always_returns {
        if !same_type(decls, &flow.ty, &function.return_type, events) {
            let text = quoted_message("function ", function.name.as_str(), " can finish without producing its return type");
            report_error(events, "InvalidControlFlow", text);
        }
    }
    assert(events_view(events@) =~= start + function_outcome(decls@, *function));
}

/// The position of the last method at node `id`.
fn find_method(methods: &Vec<MethodSignature>, id: NodeId) -> (result: Option<usize>)
    ensures
        match result {
            Some(j) => j < methods.len() && j as int == method_position(methods@, id),
            None => method_position(methods@, id) == -1,
        },
{
    let mut i = methods.len();
    assert(methods@.take(i as int) =~= methods@);
    while i > 0
        invariant
            i <= methods.len(),
            method_position(methods@, id) == method_position(methods@.take(i as int), id),
        decreases i,
    {
        if methods[i - 1].node.0 == id.0 {
            assert(methods@.take(i as int).last().node == id);
            return Some(i - 1);
        }
        assert(methods@.take(i as int).drop_last() =~= methods@.take(i - 1));
        i -= 1;
    }
    None
}

/// Where the contract method at node `id` is declared: the declaration and
/// the method's position in it.
fn find_contract_method(decls: &Vec<(NodeId, DeclarationKind)>, id: NodeId) -> (result: Option<(usize, usize)>)
    ensures
        match result {
            Some((k, j)) => k < decls.len() && match decls@[k as int].1 {
                DeclarationKind::Contract(ms) => j < ms.len() && contract_method(decls@, id) == Some(
                    (decls@[k as int].0, ms@[j as int]),
                ),
                _ => false,
            },
            None => contract_method(decls@, id) is None,
        },
{
    let mut i = decls.len();
    assert(decls@.take(i as int) =~= decls@);
    while i > 0
        invariant
            i <= decls.len(),
            contract_method(decls@, id) == contract_method(decls@.take(i as int), id),
        decreases i,
    {
        let found = match &decls[i - 1].1 {
            DeclarationKind::Contract(ms) => find_method(ms, id),
            _ => None,
        };
        assert(decls@.take(i as int).last() == decls@[i - 1]);
        match found {
            Some(j) => {
                return Some((i - 1, j));
            },
            None => {},
        }
        assert(decls@.take(i as int).drop_last() =~= decls@.take(i - 1));
        i -= 1;
    }
    None
}

/// The nodes of the implementations of `contract` for `record`.
fn find_implementations(decls: &Vec<(NodeId, DeclarationKind)>, record: NodeId, contract: NodeId) -> (result: Vec<NodeId>)
    ensures
        result@ == matching_implementations(decls@, record, contract),
{
    let mut out: Vec<NodeId> = Vec::new();
    let mut i: usize = 0;
    while i < decls.len()
        invariant
            i <= decls.len(),
            out@ == matching_implementations(decls@.take(i as int), record, contract),
        decreases decls.len() - i,
    {
        let matches = match &decls[i].1 {
            DeclarationKind::Implementation { record: r, contract: c, .. } => r.0 == record.0 && c.0 == contract.0,
            _ => false,
        };
        assert(decls@.take(i + 1).drop_last() =~= decls@.take(i as int));
        assert(decls@.take(i + 1).last() == decls@[i as int]);
        if matches {
            assert(is_implementation_of(decls@[i as int].1, record, contract));
            out.push(decls[i].0);
        }
        i += 1;
    }
    assert(decls@.take(i as int) =~= decls@);
    out
}

/// Whether `id` is among `ids`.
fn contains_node(ids: &Vec<NodeId>, id: NodeId) -> (result: bool)
    ensures
        result == ids@.contains(id),
{
    let mut k: usize = 0;
    while k < ids.len()
        invariant
            k <= ids.len(),
            forall|j: int| 0 <= j < k ==> ids@[j] != id,
        decreases ids.len() - k,
    {
        if ids[k].0 == id.0 {
            assert(ids@[k as int] == id);
            return true;
        }
        k += 1;
    }
    false
}

/// Compares parameter types from the `i`-th on, up to the first that differs.
fn check_parameters_match(
    decls: &Vec<(NodeId, DeclarationKind)>,
    actual: &Vec<Parameter>,
    expected: &Vec<Parameter>,
    i: usize,
    events: &mut Vec<CheckEvent>,
) -> (result: bool)
    requires
        actual.len() == expected.len(),
        i <= actual.len(),
    ensures
        result == parameters_match(decls@, actual@, expected@, i as int).0,
        events_view(final(events)@) == events_view(old(events)@) + parameters_match(decls@, actual@, expected@, i as int).1,
    decreases actual.len() - i,
{
    let ghost start = events_view(events@);
    if i >= actual.len() {
        assert(events_view(events@) =~= start + seq![]);
        return true;
    }
    if same_type(decls, &actual[i].ty, &expected[i].ty, events) {
        let r = check_parameters_match(decls, actual, expected, i + 1, events);
        assert(events_view(events@) =~= start + parameters_match(decls@, actual@, expected@, i as int).1);
        r
    } else {
        false
    }
}

/// Whether an implemented method has the signature its contract requires.
fn check_signatures(
    decls: &Vec<(NodeId, DeclarationKind)>,
    m: &MethodImplementation,
    required: &MethodSignature,
    events: &mut Vec<CheckEvent>,
) -> (result: bool)
    ensures
        result == signatures_match(decls@, *m, *required).0,
        events_view(final(events)@) == events_view(old(events)@) + signatures_match(decls@, *m, *required).1,
{
    let ghost start = events_view(events@);
    if m.parameters.len() != required.parameters.len() {
        assert(events_view(events@) =~= start + seq![]);
        return false;
    }
    if check_parameters_match(decls, &m.parameters, &required.parameters, 0, events) {
        let r = same_type(decls, &m.return_type, &required.return_type, events);
        assert(events_view(events@) =~= start + signatures_match(decls@, *m, *required).1);
        r
    } else {
        false
    }
}

/// Checks a method that implements `required`.
#[verifier::rlimit(100)]
fn check_conforming_method(
    decls: &Vec<(NodeId, DeclarationKind)>,
    record: NodeId,
    m: &MethodImplementation,
    required: &MethodSignature,
    events: &mut Vec<CheckEvent>,
)
    ensures
        events_view(final(events)@) == events_view(old(events)@) + conforming_method_events(decls@, record, *m, *required),
{
    let ghost start = events_view(events@);
    let matches = check_signatures(decls, m, required, events);
    if !matches {
        let text = quoted_message("method ", m.name.as_str(), " does not match its contract signature");
        report_error(events, "ContractNonconformance", text);
    }
    let mut environment: Vec<Binding> = Vec::new();
    assert(scope_view(environment@) =~= Seq::<(Seq<char>, NodeId, TypeRef)>::empty());
    check_parameters(decls, &m.parameters, 0, &mut environment, events);
    check_type(decls, &m.return_type, m.node, events);
    let self_type = Some(TypeRef::Named(record));
    let flow = check_block(decls, &m.body, &environment, &m.return_type, &self_type, 0, events);
    if !flow.always_returns {
        if !same_type(decls, &flow.ty, &m.return_type, events) {
            let text = quoted_message("method ", m.name.as_str(), " can finish without producing its return type");
            report_error(events, "InvalidControlFlow", text);
        }
    }
    assert(events_view(events@) =~= start + conforming_method_events(decls@, record, *m, *required));
}

/// Checks one implemented method of the implementation of `contract` for
/// `record`, given the contract methods supplied so far.
#[verifier::rlimit(100)]
#[verifier::spinoff_prover]
fn check_method(
    decls: &Vec<(NodeId, DeclarationKind)>,
    record: NodeId,
    contract: NodeId,
    m: &MethodImplementation,
    supplied: &mut Vec<NodeId>,
    events: &mut Vec<CheckEvent>,
)
    ensures
        final(supplied)@ == method_outcome(decls@, record, contract, *m, old(supplied)@).0,
        events_view(final(events)@) == events_view(old(events)@) + method_outcome(
            decls@,
            record,
            contract,
            *m,
            old(supplied)@,
        ).1,
{
    let ghost start = events_view(events@);
    check_identifier(events, m.name.as_str());
    if contains_node(supplied, m.contract_method) {
        let text = quoted_message("duplicate implemented method ", m.name.as_str(), "");
        proof {
            reveal_strlit("");
            assert("duplicate implemented method "@ + debug_text(m.name@) + ""@ =~= "duplicate implemented method "@
                + debug_text(m.name@));
        }
        report_error(events, "DuplicateDeclaration", text);
    } else {
        supplied.push(m.contract_method);
    }
    let ghost after_supply = events_view(events@);
    match find_contract_method(decls, m.contract_method) {
        None => {
            let text = quoted_message("extra method ", m.name.as_str(), " does not reference a required contract method");
            report_error(events, "ContractNonconformance", text);
            assert(events_view(events@) =~= start + method_outcome(decls@, record, contract, *m, old(supplied)@).1);
        },
        Some((k, j)) => {
            if decls[k].0.0 != contract.0 {
                let text = quoted_message("method ", m.name.as_str(), " belongs to a different contract");
                report_error(events, "ContractNonconformance", text);
                assert(events_view(events@) =~= start + method_outcome(decls@, record, contract, *m, old(supplied)@).1);
            } else {
                match &decls[k].1 {
                    DeclarationKind::Contract(ms) => check_conforming_method(decls, record, m, &ms[j], events),
                    _ => {},
                }
                assert(events_view(events@) =~= start + method_outcome(decls@, record, contract, *m, old(supplied)@).1);
            }
        },
    }
}

/// Checks the methods of an implementation from the `i`-th on.
fn check_methods(
    decls: &Vec<(NodeId, DeclarationKind)>,
    implementation: &ImplementationDeclaration,
    i: usize,
    supplied: &mut Vec<NodeId>,
    events: &mut Vec<CheckEvent>,
)
    requires
        i <= implementation.methods.len(),
    ensures
        final(supplied)@ == methods_outcome(decls@, *implementation, i as int, old(supplied)@).0,
        events_view(final(events)@) == events_view(old(events)@) + methods_outcome(
            decls@,
            *implementation,
            i as int,
            old(supplied)@,
        ).1,
    decreases implementation.methods.len() - i,
{
    let ghost start = events_view(events@);
    if i >= implementation.methods.len() {
        assert(events_view(events@) =~= start + seq![]);
        return;
    }
    check_method(decls, implementation.record, implementation.contract, &implementation.methods[i], supplied, events);
    check_methods(decls, implementation, i + 1, supplied, events);
    assert(events_view(events@) =~= start + methods_outcome(decls@, *implementation, i as int, old(supplied)@).1);
}

/// Reports the required methods from the `j`-th on that were not supplied.
fn report_missing(required: &Vec<MethodSignature>, j: usize, supplied: &Vec<NodeId>, events: &mut Vec<CheckEvent>)
    requires
        j <= required.len(),
    ensures
        events_view(final(events)@) == events_view(old(events)@) + missing_outcome(required@, j as int, supplied@),
    decreases required.len() - j,
{
    let ghost start = events_view(events@);
    if j >= required.len() {
        assert(events_view(events@) =~= start + seq![]);
        return;
    }
    if !contains_node(supplied, required[j].node) {
        let text = quoted_message("implementation is missing method ", required[j].name.as_str(), "");
        report_error(events, "ContractNonconformance", text);
    }
    report_missing(required, j + 1, supplied, events);
    assert(events_view(events@) =~= start + missing_outcome(required@, j as int, supplied@));
}

/// Type checks an implementation of a contract for a record: the contract
/// and the record must exist, the implementation must be the first for
/// them, and its methods must supply each method of the contract once, with
/// the contract's signature, in bodies that produce their return type.
pub fn check_implementation(
    decls: &Vec<(NodeId, DeclarationKind)>,
    implementation: &ImplementationDeclaration,
    events: &mut Vec<CheckEvent>,
)
    ensures
        events_view(final(events)@) == events_view(old(events)@) + implementation_outcome(decls@, *implementation),
{
    let ghost start = events_view(events@);
    let contract_at = match find_declaration(decls, implementation.contract) {
        Some(k) => match &decls[k].1 {
            DeclarationKind::Contract(_) => Some(k),
            _ => None,
        },
        None => None,
    };
    let kc = match contract_at {
        Some(k) => k,
        None => {
            report_unresolved(events, "implementation contract", implementation.contract);
            return;
        },
    };
    let record_found = match find_declaration(decls, implementation.record) {
        Some(k) => match &decls[k].1 {
            DeclarationKind::Record(_) => true,
            _ => false,
        },
        None => false,
    };
    if !record_found {
        report_unresolved(events, "implementation record", implementation.record);
        return;
    }
    let ids = find_implementations(decls, implementation.record, implementation.contract);
    if ids.len() > 1 && ids[0].0 != implementation.node.0 {
        report_error(
            events,
            "DuplicateDeclaration",
            "duplicate implementation for the same record and contract".to_owned(),
        );
    }
    let mut supplied: Vec<NodeId> = Vec::new();
    assert(supplied@ =~= Seq::<NodeId>::empty());
    check_methods(decls, implementation, 0, &mut supplied, events);
    match &decls[kc].1 {
        DeclarationKind::Contract(ms) => report_missing(ms, 0, &supplied, events),
        _ => {},
    }
    assert(events_view(events@) =~= start + implementation_outcome(decls@, *implementation));
}

/// Whether `name` is among `names`.
fn contains_name(names: &Vec<String>, name: &str) -> (result: bool)
    ensures
        result == names@.map_values(|n: String| n@).contains(name@),
{
    let ghost view = names@.map_values(|n: String| n@);
    let mut k: usize = 0;
    while k < names.len()
        invariant
            k <= names.len(),
            view == names@.map_values(|n: String| n@),
            forall|j: int| 0 <= j < k ==> view[j] != name@,
        decreases names.len() - k,
    {
        if same_text(names[k].as_str(), name) {
            assert(view[k as int] == name@);
            return true;
        }
        k += 1;
    }
    false
}

/// `prefix`, the debug notation of `first`, `middle`, the debug notation of
/// `second`.
fn two_names_message(prefix: &str, first: &str, middle: &str, second: &str) -> (result: String)
    ensures
        result@ == prefix@ + debug_text(first@) + middle@ + debug_text(second@),
{
    let a = quoted_message(prefix, first, middle);
    let b = quoted_message("", second, "");
    let mut chars: Vec<char> = Vec::new();
    push_text(&mut chars, a.as_str());
    push_text(&mut chars, b.as_str());
    proof {
        reveal_strlit("");
    }
    let text = string_from_chars(&chars);
    assert(text@ =~= prefix@ + debug_text(first@) + middle@ + debug_text(second@));
    text
}

fn check_record_fields(
    decls: &Vec<(NodeId, DeclarationKind)>,
    record: &str,
    fields: &Vec<FieldDeclaration>,
    i: usize,
    seen: &mut Vec<String>,
    events: &mut Vec<CheckEvent>,
)
    requires
        i <= fields.len(),
    ensures
        events_view(final(events)@) == events_view(old(events)@) + record_fields_outcome(
            decls@,
            record@,
            fields@,
            i as int,
            old(seen)@.map_values(|n: String| n@),
        ),
    decreases fields.len() - i,
{
    let ghost start = events_view(events@);
    let ghost seen0 = seen@.map_values(|n: String| n@);
    if i >= fields.len() {
        assert(events_view(events@) =~= start + seq![]);
        return;
    }
    let f = &fields[i];
    check_identifier(events, f.name.as_str());
    if contains_name(seen, f.name.as_str()) {
        let text = two_names_message("duplicate field ", f.name.as_str(), " in record ", record);
        report_error(events, "DuplicateDeclaration", text);
    } else {
        seen.push(f.name.as_str().to_owned());
        assert(seen@.map_values(|n: String| n@) =~= seen0.push(f.name@));
    }
    check_type(decls, &f.ty, f.node, events);
    check_record_fields(decls, record, fields, i + 1, seen, events);
    assert(events_view(events@) =~= start + record_fields_outcome(decls@, record@, fields@, i as int, seen0));
}

/// Checks a record declaration: its fields have portable names, each used
/// once, and types that resolve.
pub fn check_record(
    decls: &Vec<(NodeId, DeclarationKind)>,
    record: &str,
    fields: &Vec<FieldDeclaration>,
    events: &mut Vec<CheckEvent>,
)
    ensures
        events_view(final(events)@) == events_view(old(events)@) + record_fields_outcome(
            decls@,
            record@,
            fields@,
            0,
            seq![],
        ),
{
    let mut seen: Vec<String> = Vec::new();
    assert(seen@.map_values(|n: String| n@) =~= Seq::<Seq<char>>::empty());
    check_record_fields(decls, record, fields, 0, &mut seen, events);
}

fn check_contract_methods(
    decls: &Vec<(NodeId, DeclarationKind)>,
    contract: &str,
    methods: &Vec<MethodSignature>,
    i: usize,
    seen: &mut Vec<String>,
    events: &mut Vec<CheckEvent>,
)
    requires
        i <= methods.len(),
    ensures
        events_view(final(events)@) == events_view(old(events)@) + contract_methods_outcome(
            decls@,
            contract@,
            methods@,
            i as int,
            old(seen)@.map_values(|n: String| n@),
        ),
    decreases methods.len() - i,
{
    let ghost start = events_view(events@);
    let ghost seen0 = seen@.map_values(|n: String| n@);
    if i >= methods.len() {
        assert(events_view(events@) =~= start + seq![]);
        return;
    }
    let m = &methods[i];
    check_identifier(events, m.name.as_str());
    if contains_name(seen, m.name.as_str()) {
        let text = two_names_message("duplicate method ", m.name.as_str(), " in contract ", contract);
        report_error(events, "DuplicateDeclaration", text);
    } else {
        seen.push(m.name.as_str().to_owned());
        assert(seen@.map_values(|n: String| n@) =~= seen0.push(m.name@));
    }
    let mut environment: Vec<Binding> = Vec::new();
    assert(scope_view(environment@) =~= Seq::<(Seq<char>, NodeId, TypeRef)>::empty());
    check_parameters(decls, &m.parameters, 0, &mut environment, events);
    check_type(decls, &m.return_type, m.node, events);
    check_contract_methods(decls, contract, methods, i + 1, seen, events);
    assert(events_view(events@) =~= start + contract_methods_outcome(decls@, contract@, methods@, i as int, seen0));
}

/// Checks a contract declaration: its methods have portable names, each
/// used once, and checked parameters and return types.
pub fn check_contract(
    decls: &Vec<(NodeId, DeclarationKind)>,
    contract: &str,
    methods: &Vec<MethodSignature>,
    events: &mut Vec<CheckEvent>,
)
    ensures
        events_view(final(events)@) == events_view(old(events)@) + contract_methods_outcome(
            decls@,
            contract@,
            methods@,
            0,
            seq![],
        ),
{
    let mut seen: Vec<String> = Vec::new();
    assert(seen@.map_values(|n: String| n@) =~= Seq::<Seq<char>>::empty());
    check_contract_methods(decls, contract, methods, 0, &mut seen, events);
}

} // verus!
