//! Typing of the intrinsic operations of the version-0 portable IR: which
//! operand types each operation accepts, what it yields, and which
//! capabilities it requires of a backend.
use vstd::prelude::*;

use crate::check::{Capability, Diagnostic};
use crate::checker::diagnostics_view;
use crate::ir::{copy_type_ref, intrinsic_name, intrinsic_text, same_type_ref, Intrinsic, NodeId, TypeRef};
use crate::text::{decimal, push_decimal, push_text, string_from_chars};

verus! {

/// The debug notation of a type reference.
pub open spec fn type_text(t: TypeRef) -> Seq<char>
    decreases t,
{
    match t {
        TypeRef::Unit => "Unit"@,
        TypeRef::Bool => "Bool"@,
        TypeRef::I32 => "I32"@,
        TypeRef::I64 => "I64"@,
        TypeRef::F64 => "F64"@,
        TypeRef::Char => "Char"@,
        TypeRef::String => "String"@,
        TypeRef::Bytes => "Bytes"@,
        TypeRef::List(inner) => "List("@ + type_text(*inner) + ")"@,
        TypeRef::Option(inner) => "Option("@ + type_text(*inner) + ")"@,
        TypeRef::Result { ok, error } => "Result { ok: "@ + type_text(*ok) + ", error: "@ + type_text(*error) + " }"@,
        TypeRef::Named(id) => "Named(NodeId("@ + decimal(id.0 as nat) + "))"@,
        TypeRef::Contract(id) => "Contract(NodeId("@ + decimal(id.0 as nat) + "))"@,
    }
}

/// The debug notations of `ts`, separated by commas.
pub open spec fn types_list_text(ts: Seq<TypeRef>) -> Seq<char>
    decreases ts.len(),
{
    if ts.len() == 0 {
        Seq::empty()
    } else if ts.len() == 1 {
        type_text(ts[0])
    } else {
        types_list_text(ts.drop_last()) + ", "@ + type_text(ts.last())
    }
}

/// The debug notation of a list of type references.
pub open spec fn types_text(ts: Seq<TypeRef>) -> Seq<char> {
    "["@ + types_list_text(ts) + "]"@
}

fn push_type_text(out: &mut Vec<char>, t: &TypeRef)
    ensures
        final(out)@ == old(out)@ + type_text(*t),
    decreases t,
{
    let ghost start = out@;
    match t {
        TypeRef::Unit => push_text(out, "Unit"),
        TypeRef::Bool => push_text(out, "Bool"),
        TypeRef::I32 => push_text(out, "I32"),
        TypeRef::I64 => push_text(out, "I64"),
        TypeRef::F64 => push_text(out, "F64"),
        TypeRef::Char => push_text(out, "Char"),
        TypeRef::String => push_text(out, "String"),
        TypeRef::Bytes => push_text(out, "Bytes"),
        TypeRef::List(inner) => {
            push_text(out, "List(");
            push_type_text(out, inner);
            push_text(out, ")");
        },
        TypeRef::Option(inner) => {
            push_text(out, "Option(");
            push_type_text(out, inner);
            push_text(out, ")");
        },
        TypeRef::Result { ok, error } => {
            push_text(out, "Result { ok: ");
            push_type_text(out, ok);
            push_text(out, ", error: ");
            push_type_text(out, error);
            push_text(out, " }");
        },
        TypeRef::Named(id) => {
            push_text(out, "Named(NodeId(");
            push_decimal(out, id.0);
            push_text(out, "))");
        },
        TypeRef::Contract(id) => {
            push_text(out, "Contract(NodeId(");
            push_decimal(out, id.0);
            push_text(out, "))");
        },
    }
    assert(out@ =~= start + type_text(*t));
}

fn push_types_text(out: &mut Vec<char>, ts: &Vec<TypeRef>)
    ensures
        final(out)@ == old(out)@ + types_text(ts@),
{
    let ghost start = out@;
    push_text(out, "[");
    let ghost base = out@;
    let mut k: usize = 0;
    while k < ts.len()
        invariant
            k <= ts@.len(),
            out@ == base + types_list_text(ts@.take(k as int)),
        decreases ts.len() - k,
    {
        proof {
            assert(ts@.take(k + 1).drop_last() =~= ts@.take(k as int));
            assert(ts@.take(k + 1).last() == ts@[k as int]);
            assert(ts@.take(k + 1).len() == k + 1);
        }
        if k == 0 {
            push_type_text(out, &ts[k]);
            assert(ts@.take(1)[0] == ts@[0]);
            assert(types_list_text(ts@.take(0)) =~= Seq::<char>::empty());
            assert(out@ =~= base + types_list_text(ts@.take(k + 1)));
        } else {
            push_text(out, ", ");
            push_type_text(out, &ts[k]);
            assert(out@ =~= base + types_list_text(ts@.take(k + 1)));
        }
        k += 1;
    }
    assert(ts@.take(k as int) =~= ts@);
    push_text(out, "]");
    assert(out@ =~= start + types_text(ts@));
}

/// What an intrinsic operation makes of its operand types.
#[derive(Debug, PartialEq, Eq)]
pub enum IntrinsicOutcome {
    /// The operation accepts the operands and yields this type.
    Typed(TypeRef),
    /// Contract values compared for equality.
    ContractEquality,
    /// The operation does not accept these operand types.
    Invalid,
}

pub open spec fn is_integer(t: TypeRef) -> bool {
    t is I32 || t is I64
}

pub open spec fn typed_if(accepted: bool, t: TypeRef) -> IntrinsicOutcome {
    if accepted {
        IntrinsicOutcome::Typed(t)
    } else {
        IntrinsicOutcome::Invalid
    }
}

/// Which operand types each intrinsic accepts and what it yields.
pub open spec fn intrinsic_outcome(operation: Intrinsic, a: Seq<TypeRef>) -> IntrinsicOutcome {
    match operation {
        Intrinsic::BoolNot => typed_if(a == seq![TypeRef::Bool], TypeRef::Bool),
        Intrinsic::BoolAnd | Intrinsic::BoolOr => typed_if(a == seq![TypeRef::Bool, TypeRef::Bool], TypeRef::Bool),
        Intrinsic::Equal | Intrinsic::NotEqual => if a.len() == 2 && a[0] == a[1] {
            if a[0] is Contract {
                IntrinsicOutcome::ContractEquality
            } else {
                IntrinsicOutcome::Typed(TypeRef::Bool)
            }
        } else {
            IntrinsicOutcome::Invalid
        },
        Intrinsic::Less | Intrinsic::LessEqual | Intrinsic::Greater | Intrinsic::GreaterEqual => typed_if(
            a.len() == 2 && a[0] == a[1] && (a[0] is I32 || a[0] is I64 || a[0] is F64 || a[0] is Char || a[0] is String),
            TypeRef::Bool,
        ),
        Intrinsic::IntNegChecked | Intrinsic::IntNegWrapping | Intrinsic::IntBitNot => if a.len() == 1 && is_integer(
            a[0],
        ) {
            IntrinsicOutcome::Typed(a[0])
        } else {
            IntrinsicOutcome::Invalid
        },
        Intrinsic::IntAddChecked | Intrinsic::IntSubChecked | Intrinsic::IntMulChecked | Intrinsic::IntDivChecked
        | Intrinsic::IntRemChecked | Intrinsic::IntAddWrapping | Intrinsic::IntSubWrapping
        | Intrinsic::IntMulWrapping | Intrinsic::IntBitAnd | Intrinsic::IntBitOr | Intrinsic::IntBitXor
        | Intrinsic::IntShiftLeftChecked | Intrinsic::IntShiftRightChecked => if a.len() == 2 && a[0] == a[1]
            && is_integer(a[0]) {
            IntrinsicOutcome::Typed(a[0])
        } else {
            IntrinsicOutcome::Invalid
        },
        Intrinsic::FloatNeg | Intrinsic::FloatTrunc => typed_if(a == seq![TypeRef::F64], TypeRef::F64),
        Intrinsic::FloatAdd | Intrinsic::FloatSub | Intrinsic::FloatMul | Intrinsic::FloatDiv
        | Intrinsic::FloatRemTrunc => typed_if(a == seq![TypeRef::F64, TypeRef::F64], TypeRef::F64),
        Intrinsic::StringConcat => typed_if(a == seq![TypeRef::String, TypeRef::String], TypeRef::String),
        Intrinsic::StringScalarLength => typed_if(a == seq![TypeRef::String], TypeRef::I64),
        Intrinsic::StringIsEmpty => typed_if(a == seq![TypeRef::String], TypeRef::Bool),
        Intrinsic::StringContains | Intrinsic::StringStartsWith | Intrinsic::StringEndsWith => typed_if(
            a == seq![TypeRef::String, TypeRef::String],
            TypeRef::Bool,
        ),
        Intrinsic::StringReplaceAll => typed_if(
            a == seq![TypeRef::String, TypeRef::String, TypeRef::String],
            TypeRef::String,
        ),
        Intrinsic::StringReplaceMany => typed_if(
            a.len() >= 3 && a.len() % 2 == 1 && forall|k: int| 0 <= k < a.len() ==> #[trigger] a[k] == TypeRef::String,
            TypeRef::String,
        ),
        Intrinsic::StringTruncateUtf8Bytes => typed_if(a == seq![TypeRef::String, TypeRef::F64], TypeRef::String),
        Intrinsic::StringStripPrefix | Intrinsic::StringTrimStart | Intrinsic::StringTrimEnd => typed_if(
            a == seq![TypeRef::String, TypeRef::String],
            TypeRef::String,
        ),
        Intrinsic::BytesConcat => typed_if(a == seq![TypeRef::Bytes, TypeRef::Bytes], TypeRef::Bytes),
        Intrinsic::BytesLength => typed_if(a == seq![TypeRef::Bytes], TypeRef::I64),
        Intrinsic::BytesIsEmpty => typed_if(a == seq![TypeRef::Bytes], TypeRef::Bool),
        Intrinsic::ListLength => typed_if(a.len() == 1 && a[0] is List, TypeRef::I64),
        Intrinsic::ListIsEmpty => typed_if(a.len() == 1 && a[0] is List, TypeRef::Bool),
        Intrinsic::ListGetChecked => match (a.len() == 2, a[0]) {
            (true, TypeRef::List(element)) if a[1] == TypeRef::I64 => IntrinsicOutcome::Typed(*element),
            _ => IntrinsicOutcome::Invalid,
        },
        Intrinsic::ListAppend => match (a.len() == 2, a[0]) {
            (true, TypeRef::List(element)) if *element == a[1] => IntrinsicOutcome::Typed(a[0]),
            _ => IntrinsicOutcome::Invalid,
        },
        Intrinsic::ListConcat => typed_if(a.len() == 2 && a[0] == a[1] && a[0] is List, a[0]),
        Intrinsic::ListContains => match (a.len() == 2, a[0]) {
            (true, TypeRef::List(element)) if *element == a[1] => IntrinsicOutcome::Typed(TypeRef::Bool),
            _ => IntrinsicOutcome::Invalid,
        },
        Intrinsic::OptionIsSome | Intrinsic::OptionIsNone => typed_if(a.len() == 1 && a[0] is Option, TypeRef::Bool),
        Intrinsic::OptionUnwrapOr => match (a.len() == 2, a[0]) {
            (true, TypeRef::Option(inner)) if *inner == a[1] => IntrinsicOutcome::Typed(a[1]),
            _ => IntrinsicOutcome::Invalid,
        },
        Intrinsic::ResultIsOk | Intrinsic::ResultIsErr => typed_if(a.len() == 1 && a[0] is Result, TypeRef::Bool),
        Intrinsic::WidenI32ToI64 => typed_if(a == seq![TypeRef::I32], TypeRef::I64),
        Intrinsic::NarrowI64ToI32Checked => typed_if(a == seq![TypeRef::I64], TypeRef::I32),
        Intrinsic::StringToUtf8 => typed_if(a == seq![TypeRef::String], TypeRef::Bytes),
        Intrinsic::StringFromUtf8Checked => typed_if(a == seq![TypeRef::Bytes], TypeRef::String),
    }
}

/// The capabilities an intrinsic requires whatever its operands: checked or
/// wrapping integer arithmetic.
pub open spec fn intrinsic_capabilities(operation: Intrinsic) -> Seq<Capability> {
    match operation {
        Intrinsic::IntNegChecked | Intrinsic::IntAddChecked | Intrinsic::IntSubChecked | Intrinsic::IntMulChecked
        | Intrinsic::IntDivChecked | Intrinsic::IntRemChecked | Intrinsic::IntShiftLeftChecked
        | Intrinsic::IntShiftRightChecked | Intrinsic::NarrowI64ToI32Checked => seq![Capability::CheckedIntegerArithmetic],
        Intrinsic::IntNegWrapping | Intrinsic::IntAddWrapping | Intrinsic::IntSubWrapping
        | Intrinsic::IntMulWrapping => seq![Capability::WrappingIntegerArithmetic],
        _ => Seq::empty(),
    }
}

/// The message that refuses `operation` on the operand types `a`.
pub open spec fn invalid_intrinsic_message(operation: Intrinsic, a: Seq<TypeRef>) -> Seq<char> {
    "intrinsic "@ + intrinsic_text(operation) + " does not accept operand types "@ + types_text(a)
}

fn one(a: TypeRef) -> (result: Vec<TypeRef>)
    ensures
        result@ == seq![a],
{
    let mut v: Vec<TypeRef> = Vec::new();
    v.push(a);
    assert(v@ =~= seq![a]);
    v
}

fn two(a: TypeRef, b: TypeRef) -> (result: Vec<TypeRef>)
    ensures
        result@ == seq![a, b],
{
    let mut v: Vec<TypeRef> = Vec::new();
    v.push(a);
    v.push(b);
    assert(v@ =~= seq![a, b]);
    v
}

fn three(a: TypeRef, b: TypeRef, c: TypeRef) -> (result: Vec<TypeRef>)
    ensures
        result@ == seq![a, b, c],
{
    let mut v: Vec<TypeRef> = Vec::new();
    v.push(a);
    v.push(b);
    v.push(c);
    assert(v@ =~= seq![a, b, c]);
    v
}

/// Whether `args` are exactly `expected`.
fn args_are(args: &Vec<TypeRef>, expected: &Vec<TypeRef>) -> (result: bool)
    ensures
        result == (args@ == expected@),
{
    if args.len() != expected.len() {
        return false;
    }
    let mut k: usize = 0;
    while k < args.len()
        invariant
            k <= args@.len(),
            args@.len() == expected@.len(),
            forall|q: int| 0 <= q < k ==> args@[q] == expected@[q],
        decreases args.len() - k,
    {
        if !same_type_ref(&args[k], &expected[k]) {
            return false;
        }
        k += 1;
    }
    assert(args@ =~= expected@);
    true
}

fn typed_when(accepted: bool, t: TypeRef) -> (result: IntrinsicOutcome)
    ensures
        result == typed_if(accepted, t),
{
    if accepted {
        IntrinsicOutcome::Typed(t)
    } else {
        IntrinsicOutcome::Invalid
    }
}

fn is_integer_type(t: &TypeRef) -> (result: bool)
    ensures
        result == is_integer(*t),
{
    match t {
        TypeRef::I32 => true,
        TypeRef::I64 => true,
        _ => false,
    }
}

/// What `operation` makes of the operand types `a`.
#[verifier::rlimit(60)]
pub fn classify_intrinsic(operation: Intrinsic, a: &Vec<TypeRef>) -> (result: IntrinsicOutcome)
    ensures
        result == intrinsic_outcome(operation, a@),
{
    match operation {
        Intrinsic::BoolNot => typed_when(args_are(a, &one(TypeRef::Bool)), TypeRef::Bool),
        Intrinsic::BoolAnd | Intrinsic::BoolOr => typed_when(args_are(a, &two(TypeRef::Bool, TypeRef::Bool)), TypeRef::Bool),
        Intrinsic::Equal | Intrinsic::NotEqual => {
            if a.len() == 2 && same_type_ref(&a[0], &a[1]) {
                if matches!(a[0], TypeRef::Contract(_)) {
                    IntrinsicOutcome::ContractEquality
                } else {
                    IntrinsicOutcome::Typed(TypeRef::Bool)
                }
            } else {
                IntrinsicOutcome::Invalid
            }
        },
        Intrinsic::Less | Intrinsic::LessEqual | Intrinsic::Greater | Intrinsic::GreaterEqual => {
            let accepted = a.len() == 2 && same_type_ref(&a[0], &a[1]) && matches!(
                a[0],
                TypeRef::I32 | TypeRef::I64 | TypeRef::F64 | TypeRef::Char | TypeRef::String
            );
            typed_when(accepted, TypeRef::Bool)
        },
        Intrinsic::IntNegChecked | Intrinsic::IntNegWrapping | Intrinsic::IntBitNot => {
            if a.len() == 1 && is_integer_type(&a[0]) {
                IntrinsicOutcome::Typed(copy_type_ref(&a[0]))
            } else {
                IntrinsicOutcome::Invalid
            }
        },
        Intrinsic::IntAddChecked | Intrinsic::IntSubChecked | Intrinsic::IntMulChecked | Intrinsic::IntDivChecked
        | Intrinsic::IntRemChecked | Intrinsic::IntAddWrapping | Intrinsic::IntSubWrapping
        | Intrinsic::IntMulWrapping | Intrinsic::IntBitAnd | Intrinsic::IntBitOr | Intrinsic::IntBitXor
        | Intrinsic::IntShiftLeftChecked | Intrinsic::IntShiftRightChecked => {
            if a.len() == 2 && same_type_ref(&a[0], &a[1]) && is_integer_type(&a[0]) {
                IntrinsicOutcome::Typed(copy_type_ref(&a[0]))
            } else {
                IntrinsicOutcome::Invalid
            }
        },
        Intrinsic::FloatNeg | Intrinsic::FloatTrunc => typed_when(args_are(a, &one(TypeRef::F64)), TypeRef::F64),
        Intrinsic::FloatAdd | Intrinsic::FloatSub | Intrinsic::FloatMul | Intrinsic::FloatDiv
        | Intrinsic::FloatRemTrunc => typed_when(args_are(a, &two(TypeRef::F64, TypeRef::F64)), TypeRef::F64),
        Intrinsic::StringConcat => typed_when(args_are(a, &two(TypeRef::String, TypeRef::String)), TypeRef::String),
        Intrinsic::StringScalarLength => typed_when(args_are(a, &one(TypeRef::String)), TypeRef::I64),
        Intrinsic::StringIsEmpty => typed_when(args_are(a, &one(TypeRef::String)), TypeRef::Bool),
        Intrinsic::StringContains | Intrinsic::StringStartsWith | Intrinsic::StringEndsWith => typed_when(
            args_are(a, &two(TypeRef::String, TypeRef::String)),
            TypeRef::Bool,
        ),
        Intrinsic::StringReplaceAll => typed_when(
            args_are(a, &three(TypeRef::String, TypeRef::String, TypeRef::String)),
            TypeRef::String,
        ),
        Intrinsic::StringReplaceMany => {
            let mut all = true;
            let mut k: usize = 0;
            while k < a.len()
                invariant
                    k <= a@.len(),
                    all == forall|q: int| 0 <= q < k ==> #[trigger] a@[q] == TypeRef::String,
                decreases a.len() - k,
            {
                let is_string = matches!(a[k], TypeRef::String);
                proof {
                    if !is_string {
                        assert(a@[k as int] != TypeRef::String);
                    }
                }
                all = all && is_string;
                k += 1;
            }
            typed_when(a.len() >= 3 && a.len() % 2 == 1 && all, TypeRef::String)
        },
        Intrinsic::StringTruncateUtf8Bytes => typed_when(args_are(a, &two(TypeRef::String, TypeRef::F64)), TypeRef::String),
        Intrinsic::StringStripPrefix | Intrinsic::StringTrimStart | Intrinsic::StringTrimEnd => typed_when(
            args_are(a, &two(TypeRef::String, TypeRef::String)),
            TypeRef::String,
        ),
        Intrinsic::BytesConcat => typed_when(args_are(a, &two(TypeRef::Bytes, TypeRef::Bytes)), TypeRef::Bytes),
        Intrinsic::BytesLength => typed_when(args_are(a, &one(TypeRef::Bytes)), TypeRef::I64),
        Intrinsic::BytesIsEmpty => typed_when(args_are(a, &one(TypeRef::Bytes)), TypeRef::Bool),
        Intrinsic::ListLength => typed_when(a.len() == 1 && matches!(a[0], TypeRef::List(_)), TypeRef::I64),
        Intrinsic::ListIsEmpty => typed_when(a.len() == 1 && matches!(a[0], TypeRef::List(_)), TypeRef::Bool),
        Intrinsic::ListGetChecked => {
            if a.len() == 2 {
                match &a[0] {
                    TypeRef::List(element) => {
                        if matches!(a[1], TypeRef::I64) {
                            return IntrinsicOutcome::Typed(copy_type_ref(element));
                        }
                    },
                    _ => {},
                }
            }
            IntrinsicOutcome::Invalid
        },
        Intrinsic::ListAppend => {
            if a.len() == 2 {
                match &a[0] {
                    TypeRef::List(element) => {
                        if same_type_ref(element, &a[1]) {
                            return IntrinsicOutcome::Typed(copy_type_ref(&a[0]));
                        }
                    },
                    _ => {},
                }
            }
            IntrinsicOutcome::Invalid
        },
        Intrinsic::ListConcat => {
            if a.len() == 2 && same_type_ref(&a[0], &a[1]) && matches!(a[0], TypeRef::List(_)) {
                IntrinsicOutcome::Typed(copy_type_ref(&a[0]))
            } else {
                IntrinsicOutcome::Invalid
            }
        },
        Intrinsic::ListContains => {
            if a.len() == 2 {
                match &a[0] {
                    TypeRef::List(element) => {
                        if same_type_ref(element, &a[1]) {
                            return IntrinsicOutcome::Typed(TypeRef::Bool);
                        }
                    },
                    _ => {},
                }
            }
            IntrinsicOutcome::Invalid
        },
        Intrinsic::OptionIsSome | Intrinsic::OptionIsNone => typed_when(
            a.len() == 1 && matches!(a[0], TypeRef::Option(_)),
            TypeRef::Bool,
        ),
        Intrinsic::OptionUnwrapOr => {
            if a.len() == 2 {
                match &a[0] {
                    TypeRef::Option(inner) => {
                        if same_type_ref(inner, &a[1]) {
                            return IntrinsicOutcome::Typed(copy_type_ref(&a[1]));
                        }
                    },
                    _ => {},
                }
            }
            IntrinsicOutcome::Invalid
        },
        Intrinsic::ResultIsOk | Intrinsic::ResultIsErr => typed_when(
            a.len() == 1 && matches!(a[0], TypeRef::Result { .. }),
            TypeRef::Bool,
        ),
        Intrinsic::WidenI32ToI64 => typed_when(args_are(a, &one(TypeRef::I32)), TypeRef::I64),
        Intrinsic::NarrowI64ToI32Checked => typed_when(args_are(a, &one(TypeRef::I64)), TypeRef::I32),
        Intrinsic::StringToUtf8 => typed_when(args_are(a, &one(TypeRef::String)), TypeRef::Bytes),
        Intrinsic::StringFromUtf8Checked => typed_when(args_are(a, &one(TypeRef::Bytes)), TypeRef::String),
    }
}

/// The capabilities `operation` requires, each with the node that requires it.
pub open spec fn node_capabilities(node: NodeId, operation: Intrinsic) -> Seq<(NodeId, Capability)> {
    intrinsic_capabilities(operation).map_values(|c: Capability| (node, c))
}

/// Types the intrinsic `operation` at `node` on the operand types
/// `arguments`: its result type, or a diagnostic when it does not accept
/// them (contract values may not be compared for equality); and the
/// capabilities it requires of a backend, whatever the operands.
pub fn check_intrinsic(
    operation: Intrinsic,
    arguments: &Vec<TypeRef>,
    node: NodeId,
    diagnostics: &mut Vec<Diagnostic>,
    required: &mut Vec<(NodeId, Capability)>,
) -> (result: Option<TypeRef>)
    ensures
        match intrinsic_outcome(operation, arguments@) {
            IntrinsicOutcome::Typed(t) => result == Some(t) && diagnostics_view(final(diagnostics)@)
                == diagnostics_view(old(diagnostics)@),
            IntrinsicOutcome::ContractEquality => result is None && diagnostics_view(final(diagnostics)@)
                == diagnostics_view(old(diagnostics)@).push(
                ("InvalidContractPosition"@, "contract values cannot be compared for equality"@),
            ),
            IntrinsicOutcome::Invalid => result is None && diagnostics_view(final(diagnostics)@) == diagnostics_view(
                old(diagnostics)@,
            ).push(("InvalidInvocation"@, invalid_intrinsic_message(operation, arguments@))),
        },
        final(required)@ == old(required)@ + node_capabilities(node, operation),
{
    let ghost before = diagnostics@;
    let result = match classify_intrinsic(operation, arguments) {
        IntrinsicOutcome::Typed(t) => Some(t),
        IntrinsicOutcome::ContractEquality => {
            diagnostics.push(
                Diagnostic {
                    code: "InvalidContractPosition",
                    message: "contract values cannot be compared for equality".to_owned(),
                },
            );
            assert(diagnostics_view(diagnostics@) =~= diagnostics_view(before).push(
                ("InvalidContractPosition"@, "contract values cannot be compared for equality"@),
            ));
            None
        },
        IntrinsicOutcome::Invalid => {
            let mut message: Vec<char> = Vec::new();
            push_text(&mut message, "intrinsic ");
            push_text(&mut message, intrinsic_name(operation));
            push_text(&mut message, " does not accept operand types ");
            push_types_text(&mut message, arguments);
            diagnostics.push(Diagnostic { code: "InvalidInvocation", message: string_from_chars(&message) });
            assert(message@ =~= invalid_intrinsic_message(operation, arguments@));
            assert(diagnostics_view(diagnostics@) =~= diagnostics_view(before).push(
                ("InvalidInvocation"@, invalid_intrinsic_message(operation, arguments@)),
            ));
            None
        },
    };
    let ghost start = required@;
    match operation {
        Intrinsic::IntNegChecked | Intrinsic::IntAddChecked | Intrinsic::IntSubChecked | Intrinsic::IntMulChecked
        | Intrinsic::IntDivChecked | Intrinsic::IntRemChecked | Intrinsic::IntShiftLeftChecked
        | Intrinsic::IntShiftRightChecked | Intrinsic::NarrowI64ToI32Checked => {
            required.push((node, Capability::CheckedIntegerArithmetic));
        },
        Intrinsic::IntNegWrapping | Intrinsic::IntAddWrapping | Intrinsic::IntSubWrapping
        | Intrinsic::IntMulWrapping => {
            required.push((node, Capability::WrappingIntegerArithmetic));
        },
        _ => {},
    }
    assert(required@ =~= start + node_capabilities(node, operation));
    result
}


/// The length intrinsics yield `I64`: the scalar length of one string, the
/// length of one byte string and the length of one list of any element type
/// are each typed `I64`, and whatever operands they accept, the type they
/// give is `I64`.
pub proof fn law_lengths_are_i64(a: Seq<TypeRef>, element: TypeRef)
    ensures
        intrinsic_outcome(Intrinsic::StringScalarLength, seq![TypeRef::String]) == IntrinsicOutcome::Typed(TypeRef::I64),
        intrinsic_outcome(Intrinsic::BytesLength, seq![TypeRef::Bytes]) == IntrinsicOutcome::Typed(TypeRef::I64),
        intrinsic_outcome(Intrinsic::ListLength, seq![TypeRef::List(Box::new(element))])
            == IntrinsicOutcome::Typed(TypeRef::I64),
        intrinsic_outcome(Intrinsic::StringScalarLength, a) is Typed ==> intrinsic_outcome(
            Intrinsic::StringScalarLength,
            a,
        ) == IntrinsicOutcome::Typed(TypeRef::I64),
        intrinsic_outcome(Intrinsic::BytesLength, a) is Typed ==> intrinsic_outcome(Intrinsic::BytesLength, a)
            == IntrinsicOutcome::Typed(TypeRef::I64),
        intrinsic_outcome(Intrinsic::ListLength, a) is Typed ==> intrinsic_outcome(Intrinsic::ListLength, a)
            == IntrinsicOutcome::Typed(TypeRef::I64),
{
}

} // verus!
