//! The declaration checks of the prototype portable model: names are
//! portable identifiers and unique where they must be, and every named type
//! refers to a record or an interface of the module.
use vstd::prelude::*;

use crate::check::{check_module_name, is_identifier, module_name_message, valid_identifier, Diagnostic};
use crate::order::{compare_text, Comparison, TextSet};
use crate::language::{lemma_sorted_unique, sorted_texts};
use crate::order::{strictly_sorted, NameMap};
use crate::portable::{
    Constant, Expression, Field, Function, Implementation, Interface, MethodSignature, Module, Parameter,
    PortableTest, Record, Type, Value,
};
use crate::text::{push_text, string_from_chars};

verus! {

/// A diagnostic as its code and message.
pub type DiagnosticView = (Seq<char>, Seq<char>);

pub open spec fn diagnostic_view(d: Diagnostic) -> DiagnosticView {
    (d.code@, d.message@)
}

pub open spec fn diagnostics_view(ds: Seq<Diagnostic>) -> Seq<DiagnosticView> {
    ds.map_values(|d: Diagnostic| diagnostic_view(d))
}

/// Whether two texts are equal.
pub(crate) fn same_text(a: &str, b: &str) -> (result: bool)
    ensures
        result == (a@ == b@),
{
    match compare_text(a, b) {
        Comparison::Equal => true,
        Comparison::Less => {
            proof {
                crate::order::lemma_text_less_irreflexive(a@);
            }
            false
        },
        Comparison::Greater => {
            proof {
                crate::order::lemma_text_less_irreflexive(a@);
            }
            false
        },
    }
}

/// `a`, `b` and `c` one after the other.
fn join3(a: &str, b: &str, c: &str) -> (result: String)
    ensures
        result@ == a@ + b@ + c@,
{
    let mut out: Vec<char> = Vec::new();
    push_text(&mut out, a);
    push_text(&mut out, b);
    push_text(&mut out, c);
    string_from_chars(&out)
}

/// `a` to `e` one after the other.
fn join5(a: &str, b: &str, c: &str, d: &str, e: &str) -> (result: String)
    ensures
        result@ == a@ + b@ + c@ + d@ + e@,
{
    let mut out: Vec<char> = Vec::new();
    push_text(&mut out, a);
    push_text(&mut out, b);
    push_text(&mut out, c);
    push_text(&mut out, d);
    push_text(&mut out, e);
    string_from_chars(&out)
}

/// Appends the diagnostic `code`, `message`.
fn report(diagnostics: &mut Vec<Diagnostic>, code: &'static str, message: String)
    ensures
        diagnostics_view(final(diagnostics)@) == diagnostics_view(old(diagnostics)@).push((code@, message@)),
{
    let ghost before = diagnostics@;
    diagnostics.push(Diagnostic { code, message });
    assert(diagnostics_view(diagnostics@) =~= diagnostics_view(before).push((code@, message@)));
}

/// The top-level declarations of `m`, each as its kind and name: constants,
/// records, interfaces, then functions.
pub open spec fn top_items(m: Module) -> Seq<(Seq<char>, Seq<char>)> {
    m.constants@.map_values(|c: crate::portable::Constant| ("constant"@, c.name@)) + m.records@.map_values(
        |r: Record| ("record"@, r.name@),
    ) + m.interfaces@.map_values(|i: Interface| ("interface"@, i.name@)) + m.functions@.map_values(
        |f: Function| ("function"@, f.name@),
    )
}

proof fn lemma_top_items(m: Module)
    ensures
        top_items(m).len() == m.constants@.len() + m.records@.len() + m.interfaces@.len() + m.functions@.len(),
        forall|q: int| 0 <= q < m.constants@.len() ==> #[trigger] top_items(m)[q] == ("constant"@, m.constants@[q].name@),
        forall|q: int|
            0 <= q < m.records@.len() ==> #[trigger] top_items(m)[m.constants@.len() + q] == ("record"@, m.records@[q].name@),
        forall|q: int|
            0 <= q < m.interfaces@.len() ==> #[trigger] top_items(m)[m.constants@.len() + m.records@.len() + q] == (
                "interface"@,
                m.interfaces@[q].name@,
            ),
        forall|q: int|
            0 <= q < m.functions@.len() ==> #[trigger] top_items(m)[m.constants@.len() + m.records@.len()
                + m.interfaces@.len() + q] == ("function"@, m.functions@[q].name@),
{
    let c = m.constants@.map_values(|c: crate::portable::Constant| ("constant"@, c.name@));
    let r = m.records@.map_values(|r: Record| ("record"@, r.name@));
    let i = m.interfaces@.map_values(|i: Interface| ("interface"@, i.name@));
    let f = m.functions@.map_values(|f: Function| ("function"@, f.name@));
    assert(top_items(m) == c + r + i + f);
    assert forall|q: int| 0 <= q < m.records@.len() implies #[trigger] top_items(m)[m.constants@.len() + q] == (
        "record"@,
        m.records@[q].name@,
    ) by {
        assert((c + r)[c.len() + q] == r[q]);
    }
    assert forall|q: int| 0 <= q < m.interfaces@.len() implies #[trigger] top_items(m)[m.constants@.len()
        + m.records@.len() + q] == ("interface"@, m.interfaces@[q].name@) by {
        assert((c + r + i)[(c + r).len() + q] == i[q]);
    }
    assert forall|q: int| 0 <= q < m.functions@.len() implies #[trigger] top_items(m)[m.constants@.len()
        + m.records@.len() + m.interfaces@.len() + q] == ("function"@, m.functions@[q].name@) by {
        assert((c + r + i + f)[(c + r + i).len() + q] == f[q]);
    }
}

pub open spec fn items_view(items: Seq<(&str, &str)>) -> Seq<(Seq<char>, Seq<char>)> {
    items.map_values(|x: (&str, &str)| (x.0@, x.1@))
}

pub open spec fn item_names(items: Seq<(Seq<char>, Seq<char>)>) -> Seq<Seq<char>> {
    items.map_values(|x: (Seq<char>, Seq<char>)| x.1)
}

/// What the names of `items` report, in order: each that is no portable
/// identifier, and each that an earlier item already has.
pub open spec fn name_diagnostics(items: Seq<(Seq<char>, Seq<char>)>) -> Seq<DiagnosticView>
    decreases items.len(),
{
    if items.len() == 0 {
        Seq::empty()
    } else {
        let init = items.drop_last();
        let kind = items.last().0;
        let name = items.last().1;
        name_diagnostics(init) + (if is_identifier(name) {
            Seq::empty()
        } else {
            seq![("P0001"@, kind + " name `"@ + name + "` is not a portable identifier"@)]
        }) + (if item_names(init).contains(name) {
            seq![("P0002"@, "duplicate top-level name `"@ + name + "`"@)]
        } else {
            Seq::empty()
        })
    }
}

/// The implementations of `m`, each as its interface and record.
pub open spec fn implementation_keys(m: Module) -> Seq<(Seq<char>, Seq<char>)> {
    m.implementations@.map_values(|i: crate::portable::Implementation| (i.interface@, i.record@))
}

/// Each implementation of an interface for a record that an earlier one
/// already implements.
pub open spec fn implementation_diagnostics(keys: Seq<(Seq<char>, Seq<char>)>) -> Seq<DiagnosticView>
    decreases keys.len(),
{
    if keys.len() == 0 {
        Seq::empty()
    } else {
        let init = keys.drop_last();
        let key = keys.last();
        implementation_diagnostics(init) + if init.contains(key) {
            seq![("P0003"@, "duplicate implementation of `"@ + key.0 + "` for `"@ + key.1 + "`"@)]
        } else {
            Seq::empty()
        }
    }
}

/// Reports top-level names that are no portable identifiers or that occur
/// twice, then interfaces implemented twice for the same record.
pub fn check_top_level_names(module: &Module, diagnostics: &mut Vec<Diagnostic>)
    ensures
        diagnostics_view(final(diagnostics)@) == diagnostics_view(old(diagnostics)@) + name_diagnostics(
            top_items(*module),
        ) + implementation_diagnostics(implementation_keys(*module)),
{
    proof {
        lemma_top_items(*module);
    }
    let mut items: Vec<(&str, &str)> = Vec::new();
    let mut i: usize = 0;
    while i < module.constants.len()
        invariant
            i <= module.constants@.len(),
            items_view(items@) == top_items(*module).take(i as int),
        decreases module.constants.len() - i,
    {
        proof {
            lemma_top_items(*module);
        }
        let ghost before = items@;
        items.push(("constant", module.constants[i].name.as_str()));
        proof {
            assert(items_view(items@) =~= items_view(before).push(("constant"@, module.constants@[i as int].name@)));
            assert(top_items(*module).take(i as int + 1) =~= top_items(*module).take(i as int).push(
                top_items(*module)[i as int],
            ));
        }
        i += 1;
    }
    let ghost a = module.constants@.len() as int;
    let mut i: usize = 0;
    while i < module.records.len()
        invariant
            i <= module.records@.len(),
            a == module.constants@.len(),
            items_view(items@) == top_items(*module).take(a + i),
        decreases module.records.len() - i,
    {
        proof {
            lemma_top_items(*module);
        }
        let ghost before = items@;
        items.push(("record", module.records[i].name.as_str()));
        proof {
            assert(items_view(items@) =~= items_view(before).push(("record"@, module.records@[i as int].name@)));
            assert(top_items(*module).take(a + i + 1) =~= top_items(*module).take(a + i).push(
                top_items(*module)[a + i],
            ));
        }
        i += 1;
    }
    let ghost b = a + module.records@.len();
    let mut i: usize = 0;
    while i < module.interfaces.len()
        invariant
            i <= module.interfaces@.len(),
            b == module.constants@.len() + module.records@.len(),
            items_view(items@) == top_items(*module).take(b + i),
        decreases module.interfaces.len() - i,
    {
        proof {
            lemma_top_items(*module);
        }
        let ghost before = items@;
        items.push(("interface", module.interfaces[i].name.as_str()));
        proof {
            assert(items_view(items@) =~= items_view(before).push(("interface"@, module.interfaces@[i as int].name@)));
            assert(top_items(*module).take(b + i + 1) =~= top_items(*module).take(b + i).push(
                top_items(*module)[b + i],
            ));
        }
        i += 1;
    }
    let ghost c = b + module.interfaces@.len();
    let mut i: usize = 0;
    while i < module.functions.len()
        invariant
            i <= module.functions@.len(),
            c == module.constants@.len() + module.records@.len() + module.interfaces@.len(),
            items_view(items@) == top_items(*module).take(c + i),
        decreases module.functions.len() - i,
    {
        proof {
            lemma_top_items(*module);
        }
        let ghost before = items@;
        items.push(("function", module.functions[i].name.as_str()));
        proof {
            assert(items_view(items@) =~= items_view(before).push(("function"@, module.functions@[i as int].name@)));
            assert(top_items(*module).take(c + i + 1) =~= top_items(*module).take(c + i).push(
                top_items(*module)[c + i],
            ));
        }
        i += 1;
    }
    let ghost all = top_items(*module);
    assert(all.take(all.len() as int) =~= all);
    let ghost start = diagnostics_view(diagnostics@);
    let mut names = TextSet::new();
    let mut k: usize = 0;
    while k < items.len()
        invariant
            items_view(items@) == all,
            k <= items@.len(),
            names.wf(),
            names@ == item_names(all.take(k as int)).to_set(),
            diagnostics_view(diagnostics@) == start + name_diagnostics(all.take(k as int)),
        decreases items.len() - k,
    {
        let (kind, name) = items[k];
        let ghost prefix = all.take(k as int);
        proof {
            assert(all[k as int] == (kind@, name@));
            assert(all.take(k + 1).drop_last() =~= prefix);
            assert(all.take(k + 1).last() == (kind@, name@));
        }
        if !valid_identifier(name) {
            report(diagnostics, "P0001", join5(kind, " name `", name, "` is not a portable identifier", ""));
            proof {
                reveal_strlit("");
            }
        }
        let ghost after_first = diagnostics_view(diagnostics@);
        let fresh = names.insert(name.to_owned());
        if !fresh {
            report(diagnostics, "P0002", join3("duplicate top-level name `", name, "`"));
        }
        proof {
            assert(item_names(all.take(k + 1)) =~= item_names(prefix).push(name@));
            item_names(prefix).lemma_push_to_set_commute(name@);
            let expected = name_diagnostics(all.take(k + 1));
            assert(expected == name_diagnostics(prefix) + (if is_identifier(name@) {
                Seq::empty()
            } else {
                seq![("P0001"@, kind@ + " name `"@ + name@ + "` is not a portable identifier"@)]
            }) + (if item_names(prefix).contains(name@) {
                seq![("P0002"@, "duplicate top-level name `"@ + name@ + "`"@)]
            } else {
                Seq::empty()
            }));
            assert(diagnostics_view(diagnostics@) =~= start + expected);
        }
        k += 1;
    }
    assert(all.take(k as int) =~= all);
    let ghost keys = implementation_keys(*module);
    let ghost middle = diagnostics_view(diagnostics@);
    let mut k: usize = 0;
    while k < module.implementations.len()
        invariant
            keys == implementation_keys(*module),
            k <= module.implementations@.len(),
            diagnostics_view(diagnostics@) == middle + implementation_diagnostics(keys.take(k as int)),
        decreases module.implementations.len() - k,
    {
        let current = &module.implementations[k];
        let mut seen = false;
        let mut j: usize = 0;
        while j < k
            invariant
                keys == implementation_keys(*module),
                j <= k < module.implementations@.len(),
                current == module.implementations@[k as int],
                seen == keys.take(j as int).contains(keys[k as int]),
            decreases k - j,
        {
            let other = &module.implementations[j];
            let same = same_text(other.interface.as_str(), current.interface.as_str()) && same_text(
                other.record.as_str(),
                current.record.as_str(),
            );
            proof {
                assert(keys.take(j + 1) =~= keys.take(j as int).push(keys[j as int]));
                assert(keys[j as int] == (other.interface@, other.record@));
                assert(keys[k as int] == (current.interface@, current.record@));
            }
            proof {
                let kk = keys[k as int];
                if same {
                    assert(keys.take(j + 1)[j as int] == kk);
                }
                if keys.take(j as int).contains(kk) {
                    let w = choose|w: int| 0 <= w < keys.take(j as int).len() && #[trigger] keys.take(j as int)[w] == kk;
                    assert(keys.take(j + 1)[w] == kk);
                }
                if keys.take(j + 1).contains(kk) {
                    let w = choose|w: int| 0 <= w < keys.take(j + 1).len() && #[trigger] keys.take(j + 1)[w] == kk;
                    if w < j {
                        assert(keys.take(j as int)[w] == kk);
                    }
                }
            }
            seen = seen || same;
            j += 1;
        }
        proof {
            assert(keys.take(k + 1).drop_last() =~= keys.take(k as int));
            assert(keys.take(k + 1).last() == keys[k as int]);
        }
        if seen {
            report(
                diagnostics,
                "P0003",
                join5(
                    "duplicate implementation of `",
                    current.interface.as_str(),
                    "` for `",
                    current.record.as_str(),
                    "`",
                ),
            );
        }
        proof {
            let expected = implementation_diagnostics(keys.take(k + 1));
            assert(diagnostics_view(diagnostics@) =~= middle + expected);
        }
        k += 1;
    }
    assert(keys.take(k as int) =~= keys);
}

/// Whether `name` names a record or an interface of `m`.
pub open spec fn declares_type(m: Module, name: Seq<char>) -> bool {
    (exists|q: int| 0 <= q < m.records@.len() && #[trigger] m.records@[q].name@ == name) || (exists|q: int|
        0 <= q < m.interfaces@.len() && #[trigger] m.interfaces@[q].name@ == name)
}

/// What a type reports: a named type that is no record or interface of `m`.
pub open spec fn type_diagnostics(m: Module, t: Type) -> Seq<DiagnosticView> {
    match t {
        Type::Named(name) => if declares_type(m, name@) {
            Seq::empty()
        } else {
            seq![("P0100"@, "unknown type `"@ + name@ + "`"@)]
        },
        _ => Seq::empty(),
    }
}

pub open spec fn parameter_names(ps: Seq<Parameter>) -> Seq<Seq<char>> {
    ps.map_values(|p: Parameter| p.name@)
}

/// What parameters report, in order: a name that is no portable
/// identifier, a name an earlier parameter has, and the parameter's type.
pub open spec fn parameter_diagnostics(m: Module, ps: Seq<Parameter>) -> Seq<DiagnosticView>
    decreases ps.len(),
{
    if ps.len() == 0 {
        Seq::empty()
    } else {
        let p = ps.last();
        parameter_diagnostics(m, ps.drop_last()) + (if is_identifier(p.name@) {
            Seq::empty()
        } else {
            seq![("P0001"@, "parameter name `"@ + p.name@ + "` is not a portable identifier"@)]
        }) + (if parameter_names(ps.drop_last()).contains(p.name@) {
            seq![("P0006"@, "duplicate parameter `"@ + p.name@ + "`"@)]
        } else {
            Seq::empty()
        }) + type_diagnostics(m, p.ty)
    }
}

pub open spec fn field_names(fs: Seq<Field>) -> Seq<Seq<char>> {
    fs.map_values(|f: Field| f.name@)
}

/// What the fields of the record `record` report, in order.
pub open spec fn field_diagnostics(m: Module, record: Seq<char>, fs: Seq<Field>) -> Seq<DiagnosticView>
    decreases fs.len(),
{
    if fs.len() == 0 {
        Seq::empty()
    } else {
        let f = fs.last();
        field_diagnostics(m, record, fs.drop_last()) + (if is_identifier(f.name@) {
            Seq::empty()
        } else {
            seq![("P0001"@, "field name `"@ + f.name@ + "` is not a portable identifier"@)]
        }) + (if field_names(fs.drop_last()).contains(f.name@) {
            seq![("P0005"@, "duplicate field `"@ + f.name@ + "` in `"@ + record + "`"@)]
        } else {
            Seq::empty()
        }) + type_diagnostics(m, f.ty)
    }
}

pub open spec fn method_names(ms: Seq<MethodSignature>) -> Seq<Seq<char>> {
    ms.map_values(|s: MethodSignature| s.name@)
}

/// What the methods of the interface `interface` report, in order: a name
/// an earlier method has, then the method's parameters and return type.
pub open spec fn method_diagnostics(m: Module, interface: Seq<char>, ms: Seq<MethodSignature>) -> Seq<
    DiagnosticView,
>
    decreases ms.len(),
{
    if ms.len() == 0 {
        Seq::empty()
    } else {
        let s = ms.last();
        method_diagnostics(m, interface, ms.drop_last()) + (if method_names(ms.drop_last()).contains(s.name@) {
            seq![("P0004"@, "duplicate method `"@ + s.name@ + "` in `"@ + interface + "`"@)]
        } else {
            Seq::empty()
        }) + parameter_diagnostics(m, s.parameters@) + type_diagnostics(m, s.return_type)
    }
}

pub open spec fn constant_type_diagnostics(m: Module, cs: Seq<crate::portable::Constant>) -> Seq<DiagnosticView>
    decreases cs.len(),
{
    if cs.len() == 0 {
        Seq::empty()
    } else {
        constant_type_diagnostics(m, cs.drop_last()) + type_diagnostics(m, cs.last().ty)
    }
}

pub open spec fn record_diagnostics(m: Module, rs: Seq<Record>) -> Seq<DiagnosticView>
    decreases rs.len(),
{
    if rs.len() == 0 {
        Seq::empty()
    } else {
        record_diagnostics(m, rs.drop_last()) + field_diagnostics(m, rs.last().name@, rs.last().fields@)
    }
}

pub open spec fn interface_diagnostics(m: Module, is: Seq<Interface>) -> Seq<DiagnosticView>
    decreases is.len(),
{
    if is.len() == 0 {
        Seq::empty()
    } else {
        interface_diagnostics(m, is.drop_last()) + method_diagnostics(m, is.last().name@, is.last().methods@)
    }
}

pub open spec fn signature_diagnostics(m: Module, fs: Seq<Function>) -> Seq<DiagnosticView>
    decreases fs.len(),
{
    if fs.len() == 0 {
        Seq::empty()
    } else {
        signature_diagnostics(m, fs.drop_last()) + parameter_diagnostics(m, fs.last().parameters@)
            + type_diagnostics(m, fs.last().return_type)
    }
}

/// What the declared types of `m` report: the constants' types, the
/// records' fields, the interfaces' methods, then the functions' signatures.
pub open spec fn declared_type_diagnostics(m: Module) -> Seq<DiagnosticView> {
    constant_type_diagnostics(m, m.constants@) + record_diagnostics(m, m.records@) + interface_diagnostics(
        m,
        m.interfaces@,
    ) + signature_diagnostics(m, m.functions@)
}

/// Whether `name` names a record or an interface of `module`.
fn is_declared_type(module: &Module, name: &str) -> (result: bool)
    ensures
        result == declares_type(*module, name@),
{
    let mut i: usize = 0;
    while i < module.records.len()
        invariant
            i <= module.records@.len(),
            forall|q: int| 0 <= q < i ==> #[trigger] module.records@[q].name@ != name@,
        decreases module.records.len() - i,
    {
        if same_text(module.records[i].name.as_str(), name) {
            return true;
        }
        i += 1;
    }
    let mut i: usize = 0;
    while i < module.interfaces.len()
        invariant
            i <= module.interfaces@.len(),
            forall|q: int| 0 <= q < module.records@.len() ==> #[trigger] module.records@[q].name@ != name@,
            forall|q: int| 0 <= q < i ==> #[trigger] module.interfaces@[q].name@ != name@,
        decreases module.interfaces.len() - i,
    {
        if same_text(module.interfaces[i].name.as_str(), name) {
            return true;
        }
        i += 1;
    }
    false
}

fn check_type(module: &Module, ty: &Type, diagnostics: &mut Vec<Diagnostic>)
    ensures
        diagnostics_view(final(diagnostics)@) == diagnostics_view(old(diagnostics)@) + type_diagnostics(
            *module,
            *ty,
        ),
{
    match ty {
        Type::Named(name) => {
            if !is_declared_type(module, name.as_str()) {
                report(diagnostics, "P0100", join3("unknown type `", name.as_str(), "`"));
                assert(diagnostics_view(diagnostics@) =~= diagnostics_view(old(diagnostics)@) + type_diagnostics(
                    *module,
                    *ty,
                ));
            } else {
                assert(diagnostics_view(diagnostics@) =~= diagnostics_view(old(diagnostics)@) + type_diagnostics(
                    *module,
                    *ty,
                ));
            }
        },
        _ => {
            assert(diagnostics_view(diagnostics@) =~= diagnostics_view(old(diagnostics)@) + type_diagnostics(
                *module,
                *ty,
            ));
        },
    }
}

fn check_parameters(module: &Module, parameters: &Vec<Parameter>, diagnostics: &mut Vec<Diagnostic>)
    ensures
        diagnostics_view(final(diagnostics)@) == diagnostics_view(old(diagnostics)@) + parameter_diagnostics(
            *module,
            parameters@,
        ),
{
    let ghost start = diagnostics_view(diagnostics@);
    let ghost ps = parameters@;
    let mut names = TextSet::new();
    let mut i: usize = 0;
    while i < parameters.len()
        invariant
            ps == parameters@,
            i <= ps.len(),
            names.wf(),
            names@ == parameter_names(ps.take(i as int)).to_set(),
            diagnostics_view(diagnostics@) == start + parameter_diagnostics(*module, ps.take(i as int)),
        decreases parameters.len() - i,
    {
        let parameter = &parameters[i];
        let ghost prefix = ps.take(i as int);
        let ghost mid0 = diagnostics_view(diagnostics@);
        proof {
            assert(ps.take(i + 1).drop_last() =~= prefix);
            assert(ps.take(i + 1).last() == *parameter);
            assert(parameter_names(ps.take(i + 1)) =~= parameter_names(prefix).push(parameter.name@));
            parameter_names(prefix).lemma_push_to_set_commute(parameter.name@);
            reveal_strlit("");
        }
        if !valid_identifier(parameter.name.as_str()) {
            report(
                diagnostics,
                "P0001",
                join5("parameter name `", parameter.name.as_str(), "` is not a portable identifier", "", ""),
            );
        }
        let ghost mid1 = diagnostics_view(diagnostics@);
        if !names.insert(parameter.name.clone()) {
            report(diagnostics, "P0006", join3("duplicate parameter `", parameter.name.as_str(), "`"));
        }
        let ghost mid2 = diagnostics_view(diagnostics@);
        check_type(module, &parameter.ty, diagnostics);
        proof {
            let a = if is_identifier(parameter.name@) {
                Seq::empty()
            } else {
                seq![("P0001"@, "parameter name `"@ + parameter.name@ + "` is not a portable identifier"@)]
            };
            let b = if parameter_names(prefix).contains(parameter.name@) {
                seq![("P0006"@, "duplicate parameter `"@ + parameter.name@ + "`"@)]
            } else {
                Seq::<DiagnosticView>::empty()
            };
            assert(mid1 =~= mid0 + a);
            assert(mid2 =~= mid1 + b);
            assert(diagnostics_view(diagnostics@) =~= start + parameter_diagnostics(*module, ps.take(i + 1)));
        }
        i += 1;
    }
    assert(ps.take(i as int) =~= ps);
}


fn check_fields(module: &Module, record: &Record, diagnostics: &mut Vec<Diagnostic>)
    ensures
        diagnostics_view(final(diagnostics)@) == diagnostics_view(old(diagnostics)@) + field_diagnostics(
            *module,
            record.name@,
            record.fields@,
        ),
{
    let ghost start = diagnostics_view(diagnostics@);
    let ghost fs = record.fields@;
    let mut names = TextSet::new();
    let mut i: usize = 0;
    while i < record.fields.len()
        invariant
            fs == record.fields@,
            i <= fs.len(),
            names.wf(),
            names@ == field_names(fs.take(i as int)).to_set(),
            diagnostics_view(diagnostics@) == start + field_diagnostics(*module, record.name@, fs.take(i as int)),
        decreases record.fields.len() - i,
    {
        let field = &record.fields[i];
        let ghost prefix = fs.take(i as int);
        let ghost mid0 = diagnostics_view(diagnostics@);
        proof {
            assert(fs.take(i + 1).drop_last() =~= prefix);
            assert(fs.take(i + 1).last() == *field);
            assert(field_names(fs.take(i + 1)) =~= field_names(prefix).push(field.name@));
            field_names(prefix).lemma_push_to_set_commute(field.name@);
            reveal_strlit("");
        }
        if !valid_identifier(field.name.as_str()) {
            report(
                diagnostics,
                "P0001",
                join5("field name `", field.name.as_str(), "` is not a portable identifier", "", ""),
            );
        }
        let ghost mid1 = diagnostics_view(diagnostics@);
        if !names.insert(field.name.clone()) {
            report(
                diagnostics,
                "P0005",
                join5("duplicate field `", field.name.as_str(), "` in `", record.name.as_str(), "`"),
            );
        }
        let ghost mid2 = diagnostics_view(diagnostics@);
        check_type(module, &field.ty, diagnostics);
        proof {
            let a = if is_identifier(field.name@) {
                Seq::empty()
            } else {
                seq![("P0001"@, "field name `"@ + field.name@ + "` is not a portable identifier"@)]
            };
            let b = if field_names(prefix).contains(field.name@) {
                seq![("P0005"@, "duplicate field `"@ + field.name@ + "` in `"@ + record.name@ + "`"@)]
            } else {
                Seq::<DiagnosticView>::empty()
            };
            assert(mid1 =~= mid0 + a);
            assert(mid2 =~= mid1 + b);
            assert(diagnostics_view(diagnostics@) =~= start + field_diagnostics(*module, record.name@, fs.take(i + 1)));
        }
        i += 1;
    }
    assert(fs.take(i as int) =~= fs);
}

fn check_methods(module: &Module, interface: &Interface, diagnostics: &mut Vec<Diagnostic>)
    ensures
        diagnostics_view(final(diagnostics)@) == diagnostics_view(old(diagnostics)@) + method_diagnostics(
            *module,
            interface.name@,
            interface.methods@,
        ),
{
    let ghost start = diagnostics_view(diagnostics@);
    let ghost ms = interface.methods@;
    let mut names = TextSet::new();
    let mut i: usize = 0;
    while i < interface.methods.len()
        invariant
            ms == interface.methods@,
            i <= ms.len(),
            names.wf(),
            names@ == method_names(ms.take(i as int)).to_set(),
            diagnostics_view(diagnostics@) == start + method_diagnostics(*module, interface.name@, ms.take(i as int)),
        decreases interface.methods.len() - i,
    {
        let method = &interface.methods[i];
        let ghost prefix = ms.take(i as int);
        let ghost mid0 = diagnostics_view(diagnostics@);
        proof {
            assert(ms.take(i + 1).drop_last() =~= prefix);
            assert(ms.take(i + 1).last() == *method);
            assert(method_names(ms.take(i + 1)) =~= method_names(prefix).push(method.name@));
            method_names(prefix).lemma_push_to_set_commute(method.name@);
        }
        if !names.insert(method.name.clone()) {
            report(
                diagnostics,
                "P0004",
                join5("duplicate method `", method.name.as_str(), "` in `", interface.name.as_str(), "`"),
            );
        }
        let ghost mid1 = diagnostics_view(diagnostics@);
        check_parameters(module, &method.parameters, diagnostics);
        let ghost mid2 = diagnostics_view(diagnostics@);
        check_type(module, &method.return_type, diagnostics);
        proof {
            let b = if method_names(prefix).contains(method.name@) {
                seq![("P0004"@, "duplicate method `"@ + method.name@ + "` in `"@ + interface.name@ + "`"@)]
            } else {
                Seq::<DiagnosticView>::empty()
            };
            assert(mid1 =~= mid0 + b);
            assert(diagnostics_view(diagnostics@) =~= start + method_diagnostics(
                *module,
                interface.name@,
                ms.take(i + 1),
            ));
        }
        i += 1;
    }
    assert(ms.take(i as int) =~= ms);
}

/// Reports the declared types of `module`: unknown named types of the
/// constants, the records' fields, the interfaces' methods and the
/// functions' signatures; field, method and parameter names that are no
/// portable identifiers or occur twice where they must be unique.
pub fn check_declared_types(module: &Module, diagnostics: &mut Vec<Diagnostic>)
    ensures
        diagnostics_view(final(diagnostics)@) == diagnostics_view(old(diagnostics)@) + declared_type_diagnostics(
            *module,
        ),
{
    let ghost start = diagnostics_view(diagnostics@);
    let mut i: usize = 0;
    while i < module.constants.len()
        invariant
            i <= module.constants@.len(),
            diagnostics_view(diagnostics@) == start + constant_type_diagnostics(*module, module.constants@.take(i as int)),
        decreases module.constants.len() - i,
    {
        proof {
            assert(module.constants@.take(i + 1).drop_last() =~= module.constants@.take(i as int));
        }
        check_type(module, &module.constants[i].ty, diagnostics);
        assert(diagnostics_view(diagnostics@) =~= start + constant_type_diagnostics(
            *module,
            module.constants@.take(i + 1),
        ));
        i += 1;
    }
    assert(module.constants@.take(i as int) =~= module.constants@);
    let ghost s1 = diagnostics_view(diagnostics@);
    let mut i: usize = 0;
    while i < module.records.len()
        invariant
            i <= module.records@.len(),
            diagnostics_view(diagnostics@) == s1 + record_diagnostics(*module, module.records@.take(i as int)),
        decreases module.records.len() - i,
    {
        proof {
            assert(module.records@.take(i + 1).drop_last() =~= module.records@.take(i as int));
        }
        check_fields(module, &module.records[i], diagnostics);
        assert(diagnostics_view(diagnostics@) =~= s1 + record_diagnostics(*module, module.records@.take(i + 1)));
        i += 1;
    }
    assert(module.records@.take(i as int) =~= module.records@);
    let ghost s2 = diagnostics_view(diagnostics@);
    let mut i: usize = 0;
    while i < module.interfaces.len()
        invariant
            i <= module.interfaces@.len(),
            diagnostics_view(diagnostics@) == s2 + interface_diagnostics(*module, module.interfaces@.take(i as int)),
        decreases module.interfaces.len() - i,
    {
        proof {
            assert(module.interfaces@.take(i + 1).drop_last() =~= module.interfaces@.take(i as int));
        }
        check_methods(module, &module.interfaces[i], diagnostics);
        assert(diagnostics_view(diagnostics@) =~= s2 + interface_diagnostics(*module, module.interfaces@.take(i + 1)));
        i += 1;
    }
    assert(module.interfaces@.take(i as int) =~= module.interfaces@);
    let ghost s3 = diagnostics_view(diagnostics@);
    let mut i: usize = 0;
    while i < module.functions.len()
        invariant
            i <= module.functions@.len(),
            diagnostics_view(diagnostics@) == s3 + signature_diagnostics(*module, module.functions@.take(i as int)),
        decreases module.functions.len() - i,
    {
        proof {
            assert(module.functions@.take(i + 1).drop_last() =~= module.functions@.take(i as int));
        }
        check_parameters(module, &module.functions[i].parameters, diagnostics);
        check_type(module, &module.functions[i].return_type, diagnostics);
        assert(diagnostics_view(diagnostics@) =~= s3 + signature_diagnostics(*module, module.functions@.take(i + 1)));
        i += 1;
    }
    assert(module.functions@.take(i as int) =~= module.functions@);
    assert(diagnostics_view(diagnostics@) =~= start + declared_type_diagnostics(*module));
}

/// The content of a [`Type`].
pub enum TypeView {
    Bool,
    I64,
    Text,
    Named(Seq<char>),
}

pub open spec fn type_view(t: Type) -> TypeView {
    match t {
        Type::Bool => TypeView::Bool,
        Type::I64 => TypeView::I64,
        Type::String => TypeView::Text,
        Type::Named(name) => TypeView::Named(name@),
    }
}

pub open spec fn option_type_view(t: Option<Type>) -> Option<TypeView> {
    match t {
        Some(t) => Some(type_view(t)),
        None => None,
    }
}

/// The first record of `rs` named `name`.
pub open spec fn first_record(rs: Seq<Record>, name: Seq<char>) -> Option<Record>
    decreases rs.len(),
{
    if rs.len() == 0 {
        None
    } else if rs[0].name@ == name {
        Some(rs[0])
    } else {
        first_record(rs.drop_first(), name)
    }
}

/// For each field name a record value supplies, the position of its last
/// occurrence.
pub open spec fn field_slots(fields: Seq<(String, Value)>) -> Map<Seq<char>, usize>
    decreases fields.len(),
{
    if fields.len() == 0 {
        Map::empty()
    } else {
        field_slots(fields.drop_last()).insert(fields.last().0@, (fields.len() - 1) as usize)
    }
}

pub open spec fn has_field(r: Record, name: Seq<char>) -> bool {
    exists|q: int| 0 <= q < r.fields@.len() && #[trigger] r.fields@[q].name@ == name
}

/// The supplied field names, in increasing order, that the record `r` lacks.
pub open spec fn unknown_fields(value_name: Seq<char>, keys: Seq<Seq<char>>, r: Record) -> Seq<DiagnosticView>
    decreases keys.len(),
{
    if keys.len() == 0 {
        Seq::empty()
    } else {
        unknown_fields(value_name, keys.drop_last(), r) + if has_field(r, keys.last()) {
            Seq::empty()
        } else {
            seq![("P0204"@, "record value `"@ + value_name + "` has unknown field `"@ + keys.last() + "`"@)]
        }
    }
}

/// The type of a value and what it reports: a record value must construct
/// a record of `m`, supply each of its fields once with a value of the
/// field's type, and no other field.
pub open spec fn value_check(m: Module, v: Value) -> (Option<TypeView>, Seq<DiagnosticView>)
    decreases v, 1int, 0int,
{
    match v {
        Value::Bool(_) => (Some(TypeView::Bool), Seq::empty()),
        Value::I64(_) => (Some(TypeView::I64), Seq::empty()),
        Value::String(_) => (Some(TypeView::Text), Seq::empty()),
        Value::Record { name, fields } => match first_record(m.records@, name@) {
            None => (None, seq![("P0201"@, "value constructs unknown record `"@ + name@ + "`"@)]),
            Some(record) => {
                let keys = sorted_texts(field_slots(fields@).dom());
                (
                    Some(TypeView::Named(name@)),
                    (if keys.len() != fields@.len() || keys.len() != record.fields@.len() {
                        seq![("P0202"@, "record value `"@ + name@ + "` has missing or duplicate fields"@)]
                    } else {
                        Seq::empty()
                    }) + member_check(m, v, record.fields@) + unknown_fields(name@, keys, record),
                )
            },
        },
    }
}

/// What the fields `rfs` of the record that `v` constructs report, in
/// order: each that `v` does not supply, the report of the value supplied
/// last for it, and a value of the wrong type.
pub open spec fn member_check(m: Module, v: Value, rfs: Seq<Field>) -> Seq<DiagnosticView>
    decreases v, 0int, rfs.len(),
{
    if rfs.len() == 0 {
        Seq::empty()
    } else {
        match v {
            Value::Record { name, fields } => {
                let f = rfs.last();
                let slots = field_slots(fields@);
                member_check(m, v, rfs.drop_last()) + if !slots.contains_key(f.name@) {
                    seq![("P0202"@, "record value `"@ + name@ + "` is missing field `"@ + f.name@ + "`"@)]
                } else {
                    let k = slots[f.name@] as int;
                    if 0 <= k < fields@.len() {
                        let r = value_check(m, fields@[k].1);
                        r.1 + if r.0 != Some(type_view(f.ty)) {
                            seq![("P0203"@, "field `"@ + name@ + "."@ + f.name@ + "` has the wrong type"@)]
                        } else {
                            Seq::empty()
                        }
                    } else {
                        Seq::empty()
                    }
                }
            },
            _ => Seq::empty(),
        }
    }
}

proof fn lemma_field_slots(fields: Seq<(String, Value)>)
    requires
        fields.len() <= usize::MAX,
    ensures
        forall|key: Seq<char>|
            #[trigger] field_slots(fields).contains_key(key) ==> (field_slots(fields)[key] as int) < fields.len()
                && fields[field_slots(fields)[key] as int].0@ == key,
    decreases fields.len(),
{
    if fields.len() > 0 {
        lemma_field_slots(fields.drop_last());
        assert forall|key: Seq<char>| #[trigger] field_slots(fields).contains_key(key) implies (
        field_slots(fields)[key] as int) < fields.len() && fields[field_slots(fields)[key] as int].0@ == key by {
            if key != fields.last().0@ {
                assert(field_slots(fields.drop_last()).contains_key(key));
                assert(field_slots(fields)[key] == field_slots(fields.drop_last())[key]);
                assert(fields.drop_last()[field_slots(fields.drop_last())[key] as int] == fields[field_slots(
                    fields.drop_last(),
                )[key] as int]);
            }
        }
    }
}

/// The names of a map's entries, in order, are the sorted names of its keys.
proof fn lemma_sorted_keys<V>(map: NameMap<V>)
    requires
        map.wf(),
    ensures
        map.sequence().map_values(|e: (Seq<char>, V)| e.0) == sorted_texts(map@.dom()),
        map.sequence().len() == sorted_texts(map@.dom()).len(),
{
    map.lemma_view();
    let names = map.sequence().map_values(|e: (Seq<char>, V)| e.0);
    assert(names.to_set() =~= map@.dom()) by {
        assert forall|k: Seq<char>| names.to_set().contains(k) implies map@.dom().contains(k) by {
            let i = names.index_of(k);
            assert(map@.contains_key(map.sequence()[i].0));
        }
        assert forall|k: Seq<char>| map@.dom().contains(k) implies names.to_set().contains(k) by {
            let i = choose|i: int| 0 <= i < map.sequence().len() && map.sequence()[i].0 == k;
            assert(names[i] == k);
        }
    }
    let chosen = sorted_texts(map@.dom());
    assert(strictly_sorted(chosen) && chosen.to_set() == map@.dom());
    lemma_sorted_unique(names, chosen);
}

/// The position of the first record of `module` named `name`.
fn find_record(module: &Module, name: &str) -> (result: Option<usize>)
    ensures
        match first_record(module.records@, name@) {
            Some(r) => result matches Some(i) && i < module.records@.len() && module.records@[i as int] == r,
            None => result is None,
        },
{
    let mut i: usize = 0;
    assert(module.records@.skip(0) =~= module.records@);
    while i < module.records.len()
        invariant
            i <= module.records@.len(),
            first_record(module.records@, name@) == first_record(module.records@.skip(i as int), name@),
        decreases module.records.len() - i,
    {
        assert(module.records@.skip(i as int)[0] == module.records@[i as int]);
        if same_text(module.records[i].name.as_str(), name) {
            return Some(i);
        }
        assert(module.records@.skip(i as int).drop_first() =~= module.records@.skip(i + 1));
        i += 1;
    }
    None
}

fn has_record_field(record: &Record, name: &str) -> (result: bool)
    ensures
        result == has_field(*record, name@),
{
    let mut i: usize = 0;
    while i < record.fields.len()
        invariant
            i <= record.fields@.len(),
            forall|q: int| 0 <= q < i ==> #[trigger] record.fields@[q].name@ != name@,
        decreases record.fields.len() - i,
    {
        if same_text(record.fields[i].name.as_str(), name) {
            return true;
        }
        i += 1;
    }
    false
}

/// Whether `actual` is the type `expected`.
fn type_matches(actual: &Option<Type>, expected: &Type) -> (result: bool)
    ensures
        result == (option_type_view(*actual) == Some(type_view(*expected))),
{
    match (actual, expected) {
        (Some(Type::Bool), Type::Bool) => true,
        (Some(Type::I64), Type::I64) => true,
        (Some(Type::String), Type::String) => true,
        (Some(Type::Named(a)), Type::Named(b)) => same_text(a.as_str(), b.as_str()),
        _ => false,
    }
}

/// The type of `value`, reporting what is wrong with it.
fn value_type(module: &Module, value: &Value, diagnostics: &mut Vec<Diagnostic>) -> (result: Option<Type>)
    ensures
        option_type_view(result) == value_check(*module, *value).0,
        diagnostics_view(final(diagnostics)@) == diagnostics_view(old(diagnostics)@) + value_check(
            *module,
            *value,
        ).1,
    decreases value,
{
    match value {
        Value::Bool(_) => {
            assert(diagnostics_view(diagnostics@) =~= diagnostics_view(old(diagnostics)@) + Seq::<DiagnosticView>::empty());
            Some(Type::Bool)
        },
        Value::I64(_) => {
            assert(diagnostics_view(diagnostics@) =~= diagnostics_view(old(diagnostics)@) + Seq::<DiagnosticView>::empty());
            Some(Type::I64)
        },
        Value::String(_) => {
            assert(diagnostics_view(diagnostics@) =~= diagnostics_view(old(diagnostics)@) + Seq::<DiagnosticView>::empty());
            Some(Type::String)
        },
        Value::Record { name, fields } => {
            let found = find_record(module, name.as_str());
            if found.is_none() {
                report(diagnostics, "P0201", join3("value constructs unknown record `", name.as_str(), "`"));
                assert(diagnostics_view(diagnostics@) =~= diagnostics_view(old(diagnostics)@) + value_check(
                    *module,
                    *value,
                ).1);
                return None;
            }
            let record = &module.records[found.unwrap()];
            let ghost start = diagnostics_view(diagnostics@);
            let mut pairs: Vec<(String, usize)> = Vec::new();
            let mut k: usize = 0;
            while k < fields.len()
                invariant
                    k <= fields@.len(),
                    pairs@.len() == k,
                    crate::order::pairs_map(pairs@) == field_slots(fields@.take(k as int)),
                decreases fields.len() - k,
            {
                let ghost before = pairs@;
                pairs.push((fields[k].0.clone(), k));
                proof {
                    assert(pairs@.drop_last() =~= before);
                    assert(fields@.take(k + 1).drop_last() =~= fields@.take(k as int));
                }
                k += 1;
            }
            assert(fields@.take(k as int) =~= fields@);
            let supplied = NameMap::new(pairs);
            let ghost keys = sorted_texts(field_slots(fields@).dom());
            proof {
                lemma_sorted_keys(supplied);
                lemma_field_slots(fields@);
            }
            if supplied.len() != fields.len() || supplied.len() != record.fields.len() {
                report(
                    diagnostics,
                    "P0202",
                    join3("record value `", name.as_str(), "` has missing or duplicate fields"),
                );
            }
            let ghost after_count = diagnostics_view(diagnostics@);
            let mut j: usize = 0;
            while j < record.fields.len()
                invariant
                    supplied.wf(),
                    supplied@ == field_slots(fields@),
                    *value == (Value::Record { name: *name, fields: *fields }),
                    j <= record.fields@.len(),
                    forall|key: Seq<char>|
                        #[trigger] field_slots(fields@).contains_key(key) ==> (field_slots(fields@)[key] as int)
                            < fields@.len() && fields@[field_slots(fields@)[key] as int].0@ == key,
                    diagnostics_view(diagnostics@) == after_count + member_check(
                        *module,
                        *value,
                        record.fields@.take(j as int),
                    ),
                decreases record.fields.len() - j,
            {
                let field = &record.fields[j];
                let ghost mid = diagnostics_view(diagnostics@);
                proof {
                    assert(record.fields@.take(j + 1).drop_last() =~= record.fields@.take(j as int));
                    assert(record.fields@.take(j + 1).last() == *field);
                }
                match supplied.get(field.name.as_str()) {
                    None => {
                        report(
                            diagnostics,
                            "P0202",
                            join5("record value `", name.as_str(), "` is missing field `", field.name.as_str(), "`"),
                        );
                    },
                    Some(slot) => {
                        let slot = *slot;
                        let actual = value_type(module, &fields[slot].1, diagnostics);
                        if !type_matches(&actual, &field.ty) {
                            let mut message: Vec<char> = Vec::new();
                            push_text(&mut message, "field `");
                            push_text(&mut message, name.as_str());
                            push_text(&mut message, ".");
                            push_text(&mut message, field.name.as_str());
                            push_text(&mut message, "` has the wrong type");
                            report(diagnostics, "P0203", string_from_chars(&message));
                        }
                    },
                }
                assert(diagnostics_view(diagnostics@) =~= after_count + member_check(
                    *module,
                    *value,
                    record.fields@.take(j + 1),
                ));
                j += 1;
            }
            assert(record.fields@.take(j as int) =~= record.fields@);
            let ghost after_members = diagnostics_view(diagnostics@);
            let entries = supplied.iter();
            let mut q: usize = 0;
            while q < entries.len()
                invariant
                    q <= entries@.len(),
                    entries@.len() == keys.len(),
                    forall|t: int| 0 <= t < entries@.len() ==> (#[trigger] entries@[t]).0@ == keys[t],
                    diagnostics_view(diagnostics@) == after_members + unknown_fields(
                        name@,
                        keys.take(q as int),
                        *record,
                    ),
                decreases entries.len() - q,
            {
                let key = entries[q].0;
                proof {
                    assert(keys.take(q + 1).drop_last() =~= keys.take(q as int));
                    assert(keys.take(q + 1).last() == key@);
                }
                if !has_record_field(record, key) {
                    report(
                        diagnostics,
                        "P0204",
                        join5("record value `", name.as_str(), "` has unknown field `", key, "`"),
                    );
                }
                assert(diagnostics_view(diagnostics@) =~= after_members + unknown_fields(
                    name@,
                    keys.take(q + 1),
                    *record,
                ));
                q += 1;
            }
            assert(keys.take(q as int) =~= keys);
            assert(diagnostics_view(diagnostics@) =~= diagnostics_view(old(diagnostics)@) + value_check(
                *module,
                *value,
            ).1);
            Some(Type::Named(name.clone()))
        },
    }
}

/// What the constants report, in order: their values, and a value whose
/// type is not the constant's.
pub open spec fn constant_diagnostics(m: Module, cs: Seq<Constant>) -> Seq<DiagnosticView>
    decreases cs.len(),
{
    if cs.len() == 0 {
        Seq::empty()
    } else {
        let c = cs.last();
        let r = value_check(m, c.value);
        constant_diagnostics(m, cs.drop_last()) + r.1 + if r.0 != Some(type_view(c.ty)) {
            seq![("P0200"@, "constant `"@ + c.name@ + "` has the wrong value type"@)]
        } else {
            Seq::empty()
        }
    }
}

/// Reports each constant whose value is ill-formed or of another type than
/// the constant's.
pub fn check_constants(module: &Module, diagnostics: &mut Vec<Diagnostic>)
    ensures
        diagnostics_view(final(diagnostics)@) == diagnostics_view(old(diagnostics)@) + constant_diagnostics(
            *module,
            module.constants@,
        ),
{
    let ghost start = diagnostics_view(diagnostics@);
    let mut i: usize = 0;
    while i < module.constants.len()
        invariant
            i <= module.constants@.len(),
            diagnostics_view(diagnostics@) == start + constant_diagnostics(*module, module.constants@.take(i as int)),
        decreases module.constants.len() - i,
    {
        let constant = &module.constants[i];
        proof {
            assert(module.constants@.take(i + 1).drop_last() =~= module.constants@.take(i as int));
            assert(module.constants@.take(i + 1).last() == *constant);
        }
        let actual = value_type(module, &constant.value, diagnostics);
        if !type_matches(&actual, &constant.ty) {
            report(diagnostics, "P0200", join3("constant `", constant.name.as_str(), "` has the wrong value type"));
        }
        assert(diagnostics_view(diagnostics@) =~= start + constant_diagnostics(
            *module,
            module.constants@.take(i + 1),
        ));
        i += 1;
    }
    assert(module.constants@.take(i as int) =~= module.constants@);
}

/// Whether a value of type `actual` may stand where `expected` is asked: the
/// same type, or a record that implements the interface asked for.
pub open spec fn assignable(m: Module, actual: Option<TypeView>, expected: TypeView) -> bool {
    actual == Some(expected) || (actual matches Some(TypeView::Named(record)) && expected matches TypeView::Named(
        interface,
    ) && exists|q: int|
        0 <= q < m.implementations@.len() && #[trigger] m.implementations@[q].record@ == record
            && m.implementations@[q].interface@ == interface)
}

fn is_assignable(module: &Module, actual: &Option<Type>, expected: &Type) -> (result: bool)
    ensures
        result == assignable(*module, option_type_view(*actual), type_view(*expected)),
{
    if type_matches(actual, expected) {
        return true;
    }
    match actual {
        Some(Type::Named(record)) => match expected {
            Type::Named(interface) => {
                let ghost r = record@;
                let ghost n = interface@;
                assert(option_type_view(*actual) == Some(TypeView::Named(r)));
                assert(type_view(*expected) == TypeView::Named(n));
                let mut i: usize = 0;
                while i < module.implementations.len()
                    invariant
                        i <= module.implementations@.len(),
                        r == record@,
                        n == interface@,
                        option_type_view(*actual) == Some(TypeView::Named(r)),
                        type_view(*expected) == TypeView::Named(n),
                        forall|q: int|
                            0 <= q < i ==> !(#[trigger] module.implementations@[q].record@ == r
                                && module.implementations@[q].interface@ == n),
                    decreases module.implementations.len() - i,
                {
                    let item = &module.implementations[i];
                    if same_text(item.record.as_str(), record.as_str()) && same_text(
                        item.interface.as_str(),
                        interface.as_str(),
                    ) {
                        assert(module.implementations@[i as int].record@ == r
                            && module.implementations@[i as int].interface@ == n);
                        return true;
                    }
                    i += 1;
                }
                false
            },
            _ => false,
        },
        _ => false,
    }
}

/// The first function of `fs` named `name`.
pub open spec fn first_function(fs: Seq<Function>, name: Seq<char>) -> Option<Function>
    decreases fs.len(),
{
    if fs.len() == 0 {
        None
    } else if fs[0].name@ == name {
        Some(fs[0])
    } else {
        first_function(fs.drop_first(), name)
    }
}

fn find_function(module: &Module, name: &str) -> (result: Option<usize>)
    ensures
        match first_function(module.functions@, name@) {
            Some(f) => result matches Some(i) && i < module.functions@.len() && module.functions@[i as int] == f,
            None => result is None,
        },
{
    let mut i: usize = 0;
    assert(module.functions@.skip(0) =~= module.functions@);
    while i < module.functions.len()
        invariant
            i <= module.functions@.len(),
            first_function(module.functions@, name@) == first_function(module.functions@.skip(i as int), name@),
        decreases module.functions.len() - i,
    {
        assert(module.functions@.skip(i as int)[0] == module.functions@[i as int]);
        if same_text(module.functions[i].name.as_str(), name) {
            return Some(i);
        }
        assert(module.functions@.skip(i as int).drop_first() =~= module.functions@.skip(i + 1));
        i += 1;
    }
    None
}

/// What the arguments of a test report against the parameters they are
/// for, in order: their values, and a value that may not stand for its
/// parameter.
pub open spec fn argument_diagnostics(m: Module, args: Seq<Value>, ps: Seq<Parameter>) -> Seq<DiagnosticView>
    decreases args.len(),
{
    if args.len() == 0 || ps.len() == 0 {
        Seq::empty()
    } else {
        let r = value_check(m, args.last());
        argument_diagnostics(m, args.drop_last(), ps.drop_last()) + r.1 + if assignable(
            m,
            r.0,
            type_view(ps.last().ty),
        ) {
            Seq::empty()
        } else {
            seq![("P0503"@, "test argument for `"@ + ps.last().name@ + "` has the wrong type"@)]
        }
    }
}

pub open spec fn test_names(ts: Seq<PortableTest>) -> Seq<Seq<char>> {
    ts.map_values(|t: PortableTest| t.name@)
}

/// What one test reports: a name an earlier test has; then an unknown
/// function, or a wrong number of arguments, or else its arguments and its
/// expectation.
pub open spec fn one_test_diagnostics(m: Module, earlier: Seq<PortableTest>, t: PortableTest) -> Seq<DiagnosticView> {
    (if test_names(earlier).contains(t.name@) {
        seq![("P0500"@, "duplicate portable test name `"@ + t.name@ + "`"@)]
    } else {
        Seq::empty()
    }) + match first_function(m.functions@, t.function@) {
        None => seq![("P0501"@, "test calls unknown function `"@ + t.function@ + "`"@)],
        Some(f) => if t.arguments@.len() != f.parameters@.len() {
            seq![("P0502"@, "wrong test argument count"@)]
        } else {
            let r = value_check(m, t.expected);
            argument_diagnostics(m, t.arguments@, f.parameters@) + r.1 + if r.0 != Some(type_view(f.return_type)) {
                seq![("P0504"@, "test expectation has the wrong type"@)]
            } else {
                Seq::empty()
            }
        },
    }
}

pub open spec fn test_diagnostics(m: Module, ts: Seq<PortableTest>) -> Seq<DiagnosticView>
    decreases ts.len(),
{
    if ts.len() == 0 {
        Seq::empty()
    } else {
        test_diagnostics(m, ts.drop_last()) + one_test_diagnostics(m, ts.drop_last(), ts.last())
    }
}

fn check_test_arguments(
    module: &Module,
    arguments: &Vec<Value>,
    parameters: &Vec<Parameter>,
    diagnostics: &mut Vec<Diagnostic>,
)
    requires
        arguments@.len() == parameters@.len(),
    ensures
        diagnostics_view(final(diagnostics)@) == diagnostics_view(old(diagnostics)@) + argument_diagnostics(
            *module,
            arguments@,
            parameters@,
        ),
{
    let ghost start = diagnostics_view(diagnostics@);
    let mut i: usize = 0;
    while i < arguments.len()
        invariant
            arguments@.len() == parameters@.len(),
            i <= arguments@.len(),
            diagnostics_view(diagnostics@) == start + argument_diagnostics(
                *module,
                arguments@.take(i as int),
                parameters@.take(i as int),
            ),
        decreases arguments.len() - i,
    {
        proof {
            assert(arguments@.take(i + 1).drop_last() =~= arguments@.take(i as int));
            assert(parameters@.take(i + 1).drop_last() =~= parameters@.take(i as int));
            assert(arguments@.take(i + 1).last() == arguments@[i as int]);
            assert(parameters@.take(i + 1).last() == parameters@[i as int]);
        }
        let actual = value_type(module, &arguments[i], diagnostics);
        if !is_assignable(module, &actual, &parameters[i].ty) {
            report(
                diagnostics,
                "P0503",
                join3("test argument for `", parameters[i].name.as_str(), "` has the wrong type"),
            );
        }
        assert(diagnostics_view(diagnostics@) =~= start + argument_diagnostics(
            *module,
            arguments@.take(i + 1),
            parameters@.take(i + 1),
        ));
        i += 1;
    }
    assert(arguments@.take(i as int) =~= arguments@);
    assert(parameters@.take(i as int) =~= parameters@);
}

/// Reports test names that occur twice, tests of unknown functions or with
/// the wrong number of arguments, and arguments and expectations of the
/// wrong type.
#[verifier::rlimit(60)]
pub fn check_tests(module: &Module, diagnostics: &mut Vec<Diagnostic>)
    ensures
        diagnostics_view(final(diagnostics)@) == diagnostics_view(old(diagnostics)@) + test_diagnostics(
            *module,
            module.tests@,
        ),
{
    let ghost start = diagnostics_view(diagnostics@);
    let ghost ts = module.tests@;
    let mut names = TextSet::new();
    let mut i: usize = 0;
    while i < module.tests.len()
        invariant
            ts == module.tests@,
            i <= ts.len(),
            names.wf(),
            names@ == test_names(ts.take(i as int)).to_set(),
            diagnostics_view(diagnostics@) == start + test_diagnostics(*module, ts.take(i as int)),
        decreases module.tests.len() - i,
    {
        let test = &module.tests[i];
        let ghost prefix = ts.take(i as int);
        let ghost mid0 = diagnostics_view(diagnostics@);
        proof {
            assert(ts.take(i + 1).drop_last() =~= prefix);
            assert(ts.take(i + 1).last() == *test);
            assert(test_names(ts.take(i + 1)) =~= test_names(prefix).push(test.name@));
            test_names(prefix).lemma_push_to_set_commute(test.name@);
        }
        if !names.insert(test.name.clone()) {
            report(diagnostics, "P0500", join3("duplicate portable test name `", test.name.as_str(), "`"));
        }
        let ghost mid1 = diagnostics_view(diagnostics@);
        proof {
            let a = if test_names(prefix).contains(test.name@) {
                seq![("P0500"@, "duplicate portable test name `"@ + test.name@ + "`"@)]
            } else {
                Seq::<DiagnosticView>::empty()
            };
            assert(mid1 =~= mid0 + a);
        }
        match find_function(module, test.function.as_str()) {
            None => {
                report(diagnostics, "P0501", join3("test calls unknown function `", test.function.as_str(), "`"));
            },
            Some(index) => {
                let function = &module.functions[index];
                if test.arguments.len() != function.parameters.len() {
                    report(diagnostics, "P0502", "wrong test argument count".to_owned());
                } else {
                    check_test_arguments(module, &test.arguments, &function.parameters, diagnostics);
                    let expected = value_type(module, &test.expected, diagnostics);
                    if !type_matches(&expected, &function.return_type) {
                        report(diagnostics, "P0504", "test expectation has the wrong type".to_owned());
                    }
                }
            },
        }
        assert(diagnostics_view(diagnostics@) =~= start + test_diagnostics(*module, ts.take(i + 1)));
        i += 1;
    }
    assert(ts.take(i as int) =~= ts);
}

/// The first constant of `s` named `name`.
pub open spec fn first_constant(s: Seq<Constant>, name: Seq<char>) -> Option<Constant>
    decreases s.len(),
{
    if s.len() == 0 {
        None
    } else if s[0].name@ == name {
        Some(s[0])
    } else {
        first_constant(s.drop_first(), name)
    }
}

fn find_constant(items: &Vec<Constant>, name: &str) -> (result: Option<usize>)
    ensures
        match first_constant(items@, name@) {
            Some(x) => result matches Some(i) && i < items@.len() && items@[i as int] == x,
            None => result is None,
        },
{
    let mut i: usize = 0;
    assert(items@.skip(0) =~= items@);
    while i < items.len()
        invariant
            i <= items@.len(),
            first_constant(items@, name@) == first_constant(items@.skip(i as int), name@),
        decreases items.len() - i,
    {
        assert(items@.skip(i as int)[0] == items@[i as int]);
        if same_text(items[i].name.as_str(), name) {
            return Some(i);
        }
        assert(items@.skip(i as int).drop_first() =~= items@.skip(i + 1));
        i += 1;
    }
    None
}

/// The first field of `s` named `name`.
pub open spec fn first_field(s: Seq<Field>, name: Seq<char>) -> Option<Field>
    decreases s.len(),
{
    if s.len() == 0 {
        None
    } else if s[0].name@ == name {
        Some(s[0])
    } else {
        first_field(s.drop_first(), name)
    }
}

fn find_field(items: &Vec<Field>, name: &str) -> (result: Option<usize>)
    ensures
        match first_field(items@, name@) {
            Some(x) => result matches Some(i) && i < items@.len() && items@[i as int] == x,
            None => result is None,
        },
{
    let mut i: usize = 0;
    assert(items@.skip(0) =~= items@);
    while i < items.len()
        invariant
            i <= items@.len(),
            first_field(items@, name@) == first_field(items@.skip(i as int), name@),
        decreases items.len() - i,
    {
        assert(items@.skip(i as int)[0] == items@[i as int]);
        if same_text(items[i].name.as_str(), name) {
            return Some(i);
        }
        assert(items@.skip(i as int).drop_first() =~= items@.skip(i + 1));
        i += 1;
    }
    None
}

/// The first interface of `s` named `name`.
pub open spec fn first_interface(s: Seq<Interface>, name: Seq<char>) -> Option<Interface>
    decreases s.len(),
{
    if s.len() == 0 {
        None
    } else if s[0].name@ == name {
        Some(s[0])
    } else {
        first_interface(s.drop_first(), name)
    }
}

fn find_interface(items: &Vec<Interface>, name: &str) -> (result: Option<usize>)
    ensures
        match first_interface(items@, name@) {
            Some(x) => result matches Some(i) && i < items@.len() && items@[i as int] == x,
            None => result is None,
        },
{
    let mut i: usize = 0;
    assert(items@.skip(0) =~= items@);
    while i < items.len()
        invariant
            i <= items@.len(),
            first_interface(items@, name@) == first_interface(items@.skip(i as int), name@),
        decreases items.len() - i,
    {
        assert(items@.skip(i as int)[0] == items@[i as int]);
        if same_text(items[i].name.as_str(), name) {
            return Some(i);
        }
        assert(items@.skip(i as int).drop_first() =~= items@.skip(i + 1));
        i += 1;
    }
    None
}

/// The first methodsignature of `s` named `name`.
pub open spec fn first_signature(s: Seq<MethodSignature>, name: Seq<char>) -> Option<MethodSignature>
    decreases s.len(),
{
    if s.len() == 0 {
        None
    } else if s[0].name@ == name {
        Some(s[0])
    } else {
        first_signature(s.drop_first(), name)
    }
}

fn find_signature(items: &Vec<MethodSignature>, name: &str) -> (result: Option<usize>)
    ensures
        match first_signature(items@, name@) {
            Some(x) => result matches Some(i) && i < items@.len() && items@[i as int] == x,
            None => result is None,
        },
{
    let mut i: usize = 0;
    assert(items@.skip(0) =~= items@);
    while i < items.len()
        invariant
            i <= items@.len(),
            first_signature(items@, name@) == first_signature(items@.skip(i as int), name@),
        decreases items.len() - i,
    {
        assert(items@.skip(i as int)[0] == items@[i as int]);
        if same_text(items[i].name.as_str(), name) {
            return Some(i);
        }
        assert(items@.skip(i as int).drop_first() =~= items@.skip(i + 1));
        i += 1;
    }
    None
}

/// The type of the last parameter of `ps` named `name`: a later parameter
/// of the same name hides an earlier one.
pub open spec fn local_type(ps: Seq<Parameter>, name: Seq<char>) -> Option<TypeView>
    decreases ps.len(),
{
    if ps.len() == 0 {
        None
    } else if ps.last().name@ == name {
        Some(type_view(ps.last().ty))
    } else {
        local_type(ps.drop_last(), name)
    }
}

fn find_local(locals: &Vec<Parameter>, name: &str) -> (result: Option<usize>)
    ensures
        match local_type(locals@, name@) {
            Some(t) => result matches Some(i) && i < locals@.len() && type_view(locals@[i as int].ty) == t,
            None => result is None,
        },
{
    let mut i: usize = locals.len();
    assert(locals@.take(i as int) =~= locals@);
    while i > 0
        invariant
            i <= locals@.len(),
            local_type(locals@, name@) == local_type(locals@.take(i as int), name@),
        decreases i,
    {
        assert(locals@.take(i as int).last() == locals@[i - 1]);
        if same_text(locals[i - 1].name.as_str(), name) {
            return Some(i - 1);
        }
        assert(locals@.take(i as int).drop_last() =~= locals@.take(i - 1));
        i -= 1;
    }
    None
}

/// The type of an expression in a body whose parameters are `locals`, and
/// what it reports; `self_record` is the record whose method the body is.
pub open spec fn expression_check(
    m: Module,
    e: Expression,
    locals: Seq<Parameter>,
    self_record: Option<Record>,
) -> (Option<TypeView>, Seq<DiagnosticView>)
    decreases e, 1int, 0int,
{
    match e {
        Expression::Value(v) => value_check(m, v),
        Expression::Local(name) => match local_type(locals, name@) {
            Some(t) => (Some(t), Seq::empty()),
            None => (None, seq![("P0401"@, "unknown local `"@ + name@ + "`"@)]),
        },
        Expression::Constant(name) => match first_constant(m.constants@, name@) {
            Some(c) => (Some(type_view(c.ty)), Seq::empty()),
            None => (None, seq![("P0402"@, "unknown constant `"@ + name@ + "`"@)]),
        },
        Expression::SelfField(name) => match self_record {
            Some(r) => match first_field(r.fields@, name@) {
                Some(f) => (Some(type_view(f.ty)), Seq::empty()),
                None => (None, seq![("P0403"@, "unknown self field `"@ + name@ + "`"@)]),
            },
            None => (None, seq![("P0403"@, "unknown self field `"@ + name@ + "`"@)]),
        },
        Expression::Field { base, field } => {
            let b = expression_check(m, *base, locals, self_record);
            match b.0 {
                None => (None, b.1),
                Some(TypeView::Named(record_name)) => match first_record(m.records@, record_name) {
                    Some(r) => match first_field(r.fields@, field@) {
                        Some(f) => (Some(type_view(f.ty)), b.1),
                        None => (
                            None,
                            b.1.push(("P0405"@, "unknown field `"@ + field@ + "` on `"@ + record_name + "`"@)),
                        ),
                    },
                    None => (
                        None,
                        b.1.push(("P0405"@, "unknown field `"@ + field@ + "` on `"@ + record_name + "`"@)),
                    ),
                },
                Some(_) => (None, b.1.push(("P0404"@, "field access requires a record"@))),
            }
        },
        Expression::Compare { left, right } => {
            let l = expression_check(m, *left, locals, self_record);
            let r = expression_check(m, *right, locals, self_record);
            if l.0 == Some(TypeView::I64) && r.0 == Some(TypeView::I64) {
                (Some(TypeView::Bool), l.1 + r.1)
            } else {
                (None, (l.1 + r.1).push(("P0406"@, "ordered comparison currently requires two I64 operands"@)))
            }
        },
        Expression::MethodCall { receiver, method, arguments } => {
            let rc = expression_check(m, *receiver, locals, self_record);
            match rc.0 {
                None => (None, rc.1),
                Some(TypeView::Named(interface_name)) => match first_interface(m.interfaces@, interface_name) {
                    None => (
                        None,
                        rc.1.push(("P0407"@, "`"@ + interface_name + "` is not a interface receiver"@)),
                    ),
                    Some(i) => match first_signature(i.methods@, method@) {
                        None => (
                            None,
                            rc.1.push(
                                ("P0408"@, "interface `"@ + interface_name + "` has no method `"@ + method@ + "`"@),
                            ),
                        ),
                        Some(sig) => (
                            Some(type_view(sig.return_type)),
                            rc.1 + if arguments@.len() != sig.parameters@.len() {
                                seq![("P0410"@, "wrong method argument count"@)]
                            } else {
                                call_arguments_check(m, e, locals, self_record, sig.parameters@, arguments@.len())
                            },
                        ),
                    },
                },
                Some(_) => (None, rc.1.push(("P0407"@, "method receiver must have a named interface type"@))),
            }
        },
    }
}

/// What the first `k` arguments of the method call `e` report against the
/// parameters `ps`, in order: their own reports, and an argument of another
/// type than its parameter's.
pub open spec fn call_arguments_check(
    m: Module,
    e: Expression,
    locals: Seq<Parameter>,
    self_record: Option<Record>,
    ps: Seq<Parameter>,
    k: nat,
) -> Seq<DiagnosticView>
    decreases e, 0int, k,
{
    if k == 0 {
        Seq::empty()
    } else {
        match e {
            Expression::MethodCall { arguments, .. } => if k <= arguments@.len() && k <= ps.len() {
                let a = expression_check(m, arguments@[k - 1], locals, self_record);
                call_arguments_check(m, e, locals, self_record, ps, (k - 1) as nat) + a.1 + if a.0 != Some(
                    type_view(ps[k - 1].ty),
                ) {
                    seq![("P0411"@, "argument for `"@ + ps[k - 1].name@ + "` has the wrong type"@)]
                } else {
                    Seq::empty()
                }
            } else {
                Seq::empty()
            },
            _ => Seq::empty(),
        }
    }
}

pub open spec fn record_option(r: Option<&Record>) -> Option<Record> {
    match r {
        Some(r) => Some(*r),
        None => None,
    }
}

/// An equal, independent copy of `t`.
fn copy_type(t: &Type) -> (result: Type)
    ensures
        type_view(result) == type_view(*t),
{
    match t {
        Type::Bool => Type::Bool,
        Type::I64 => Type::I64,
        Type::String => Type::String,
        Type::Named(name) => Type::Named(name.clone()),
    }
}

/// The type of `expression` in a body whose parameters are `locals`,
/// reporting what is wrong with it.
#[verifier::rlimit(100)]
fn expression_type(
    module: &Module,
    expression: &Expression,
    locals: &Vec<Parameter>,
    self_record: Option<&Record>,
    diagnostics: &mut Vec<Diagnostic>,
) -> (result: Option<Type>)
    ensures
        option_type_view(result) == expression_check(*module, *expression, locals@, record_option(self_record)).0,
        diagnostics_view(final(diagnostics)@) == diagnostics_view(old(diagnostics)@) + expression_check(
            *module,
            *expression,
            locals@,
            record_option(self_record),
        ).1,
    decreases expression,
{
    let ghost start = diagnostics_view(diagnostics@);
    let ghost sr = record_option(self_record);
    proof {
        assert(start + Seq::<DiagnosticView>::empty() =~= start);
    }
    match expression {
        Expression::Value(v) => value_type(module, v, diagnostics),
        Expression::Local(name) => match find_local(locals, name.as_str()) {
            Some(i) => Some(copy_type(&locals[i].ty)),
            None => {
                report(diagnostics, "P0401", join3("unknown local `", name.as_str(), "`"));
                None
            },
        },
        Expression::Constant(name) => match find_constant(&module.constants, name.as_str()) {
            Some(i) => Some(copy_type(&module.constants[i].ty)),
            None => {
                report(diagnostics, "P0402", join3("unknown constant `", name.as_str(), "`"));
                None
            },
        },
        Expression::SelfField(name) => {
            match self_record {
                Some(record) => match find_field(&record.fields, name.as_str()) {
                    Some(i) => {
                        return Some(copy_type(&record.fields[i].ty));
                    },
                    None => {},
                },
                None => {},
            }
            report(diagnostics, "P0403", join3("unknown self field `", name.as_str(), "`"));
            None
        },
        Expression::Field { base, field } => {
            let base_type = expression_type(module, base, locals, self_record, diagnostics);
            match base_type {
                None => None,
                Some(Type::Named(record_name)) => {
                    match find_record(module, record_name.as_str()) {
                        Some(ri) => match find_field(&module.records[ri].fields, field.as_str()) {
                            Some(fi) => {
                                return Some(copy_type(&module.records[ri].fields[fi].ty));
                            },
                            None => {},
                        },
                        None => {},
                    }
                    report(
                        diagnostics,
                        "P0405",
                        join5("unknown field `", field.as_str(), "` on `", record_name.as_str(), "`"),
                    );
                    None
                },
                Some(_) => {
                    report(diagnostics, "P0404", "field access requires a record".to_owned());
                    None
                },
            }
        },
        Expression::Compare { left, right } => {
            let l = expression_type(module, left, locals, self_record, diagnostics);
            let r = expression_type(module, right, locals, self_record, diagnostics);
            let both = match (&l, &r) {
                (Some(Type::I64), Some(Type::I64)) => true,
                _ => false,
            };
            if both {
                Some(Type::Bool)
            } else {
                report(diagnostics, "P0406", "ordered comparison currently requires two I64 operands".to_owned());
                None
            }
        },
        Expression::MethodCall { receiver, method, arguments } => {
            let receiver_type = expression_type(module, receiver, locals, self_record, diagnostics);
            let ghost after_receiver = diagnostics_view(diagnostics@);
            match receiver_type {
                None => None,
                Some(Type::Named(interface_name)) => {
                    let found = find_interface(&module.interfaces, interface_name.as_str());
                    if found.is_none() {
                        report(
                            diagnostics,
                            "P0407",
                            join3("`", interface_name.as_str(), "` is not a interface receiver"),
                        );
                        return None;
                    }
                    let interface = &module.interfaces[found.unwrap()];
                    let found_method = find_signature(&interface.methods, method.as_str());
                    if found_method.is_none() {
                        report(
                            diagnostics,
                            "P0408",
                            join5("interface `", interface_name.as_str(), "` has no method `", method.as_str(), "`"),
                        );
                        return None;
                    }
                    let signature = &interface.methods[found_method.unwrap()];
                    if arguments.len() != signature.parameters.len() {
                        report(diagnostics, "P0410", "wrong method argument count".to_owned());
                    } else {
                        let mut k: usize = 0;
                        while k < arguments.len()
                            invariant
                                k <= arguments@.len(),
                                arguments@.len() == signature.parameters@.len(),
                                *expression == (Expression::MethodCall {
                                    receiver: *receiver,
                                    method: *method,
                                    arguments: *arguments,
                                }),
                                sr == record_option(self_record),
                                diagnostics_view(diagnostics@) == after_receiver + call_arguments_check(
                                    *module,
                                    *expression,
                                    locals@,
                                    sr,
                                    signature.parameters@,
                                    k as nat,
                                ),
                            decreases arguments.len() - k,
                        {
                            let actual = expression_type(module, &arguments[k], locals, self_record, diagnostics);
                            if !type_matches(&actual, &signature.parameters[k].ty) {
                                report(
                                    diagnostics,
                                    "P0411",
                                    join3("argument for `", signature.parameters[k].name.as_str(), "` has the wrong type"),
                                );
                            }
                            assert(diagnostics_view(diagnostics@) =~= after_receiver + call_arguments_check(
                                *module,
                                *expression,
                                locals@,
                                sr,
                                signature.parameters@,
                                (k + 1) as nat,
                            ));
                            k += 1;
                        }
                    }
                    Some(copy_type(&signature.return_type))
                },
                Some(_) => {
                    report(diagnostics, "P0407", "method receiver must have a named interface type".to_owned());
                    None
                },
            }
        },
    }
}

/// What a body reports: its expression's reports, and a type other than
/// the function's return type.
pub open spec fn body_diagnostics(m: Module, f: Function, self_record: Option<Record>) -> Seq<DiagnosticView> {
    let r = expression_check(m, f.body, f.parameters@, self_record);
    r.1 + if r.0 != Some(type_view(f.return_type)) {
        seq![("P0400"@, "body of `"@ + f.name@ + "` does not match its return type"@)]
    } else {
        Seq::empty()
    }
}

fn check_body(module: &Module, function: &Function, self_record: Option<&Record>, diagnostics: &mut Vec<Diagnostic>)
    ensures
        diagnostics_view(final(diagnostics)@) == diagnostics_view(old(diagnostics)@) + body_diagnostics(
            *module,
            *function,
            record_option(self_record),
        ),
{
    let actual = expression_type(module, &function.body, &function.parameters, self_record, diagnostics);
    if !type_matches(&actual, &function.return_type) {
        report(
            diagnostics,
            "P0400",
            join3("body of `", function.name.as_str(), "` does not match its return type"),
        );
    }
    assert(diagnostics_view(diagnostics@) =~= diagnostics_view(old(diagnostics)@) + body_diagnostics(
        *module,
        *function,
        record_option(self_record),
    ));
}

pub open spec fn function_body_diagnostics(m: Module, fs: Seq<Function>) -> Seq<DiagnosticView>
    decreases fs.len(),
{
    if fs.len() == 0 {
        Seq::empty()
    } else {
        function_body_diagnostics(m, fs.drop_last()) + body_diagnostics(m, fs.last(), None)
    }
}

/// Reports each function whose body is ill-typed or of another type than
/// the function returns.
pub fn check_functions(module: &Module, diagnostics: &mut Vec<Diagnostic>)
    ensures
        diagnostics_view(final(diagnostics)@) == diagnostics_view(old(diagnostics)@) + function_body_diagnostics(
            *module,
            module.functions@,
        ),
{
    let ghost start = diagnostics_view(diagnostics@);
    let mut i: usize = 0;
    while i < module.functions.len()
        invariant
            i <= module.functions@.len(),
            diagnostics_view(diagnostics@) == start + function_body_diagnostics(*module, module.functions@.take(i as int)),
        decreases module.functions.len() - i,
    {
        proof {
            assert(module.functions@.take(i + 1).drop_last() =~= module.functions@.take(i as int));
            assert(module.functions@.take(i + 1).last() == module.functions@[i as int]);
        }
        check_body(module, &module.functions[i], None, diagnostics);
        assert(diagnostics_view(diagnostics@) =~= start + function_body_diagnostics(
            *module,
            module.functions@.take(i + 1),
        ));
        i += 1;
    }
    assert(module.functions@.take(i as int) =~= module.functions@);
}

pub open spec fn same_parameter(a: Parameter, b: Parameter) -> bool {
    a.name@ == b.name@ && type_view(a.ty) == type_view(b.ty)
}

/// Whether two parameter lists are equal: the same names and types, in order.
pub open spec fn same_parameters(a: Seq<Parameter>, b: Seq<Parameter>) -> bool {
    &&& a.len() == b.len()
    &&& forall|q: int| 0 <= q < a.len() ==> #[trigger] same_parameter(a[q], b[q])
}

fn parameters_equal(a: &Vec<Parameter>, b: &Vec<Parameter>) -> (result: bool)
    ensures
        result == same_parameters(a@, b@),
{
    if a.len() != b.len() {
        return false;
    }
    let mut i: usize = 0;
    while i < a.len()
        invariant
            a@.len() == b@.len(),
            i <= a@.len(),
            forall|q: int| 0 <= q < i ==> #[trigger] same_parameter(a@[q], b@[q]),
        decreases a.len() - i,
    {
        let copied = Some(copy_type(&a[i].ty));
        let same_type = type_matches(&copied, &b[i].ty);
        assert(same_type == (type_view(a@[i as int].ty) == type_view(b@[i as int].ty)));
        if !same_text(a[i].name.as_str(), b[i].name.as_str()) || !same_type {
            assert(!same_parameter(a@[i as int], b@[i as int]));
            return false;
        }
        assert(same_parameter(a@[i as int], b@[i as int]));
        i += 1;
    }
    true
}

fn find_method(items: &Vec<Function>, name: &str) -> (result: Option<usize>)
    ensures
        match first_function(items@, name@) {
            Some(x) => result matches Some(i) && i < items@.len() && items@[i as int] == x,
            None => result is None,
        },
{
    let mut i: usize = 0;
    assert(items@.skip(0) =~= items@);
    while i < items.len()
        invariant
            i <= items@.len(),
            first_function(items@, name@) == first_function(items@.skip(i as int), name@),
        decreases items.len() - i,
    {
        assert(items@.skip(i as int)[0] == items@[i as int]);
        if same_text(items[i].name.as_str(), name) {
            return Some(i);
        }
        assert(items@.skip(i as int).drop_first() =~= items@.skip(i + 1));
        i += 1;
    }
    None
}

pub open spec fn declares_method(i: Interface, name: Seq<char>) -> bool {
    exists|q: int| 0 <= q < i.methods@.len() && #[trigger] i.methods@[q].name@ == name
}

fn has_method(interface: &Interface, name: &str) -> (result: bool)
    ensures
        result == declares_method(*interface, name@),
{
    let mut i: usize = 0;
    while i < interface.methods.len()
        invariant
            i <= interface.methods@.len(),
            forall|q: int| 0 <= q < i ==> #[trigger] interface.methods@[q].name@ != name@,
        decreases interface.methods.len() - i,
    {
        if same_text(interface.methods[i].name.as_str(), name) {
            return true;
        }
        i += 1;
    }
    false
}

/// What the methods that the interface `i` requires report for the
/// implementation `imp` on the record `r`: a missing method, or else one
/// whose signature differs, then its body.
pub open spec fn required_diagnostics(
    m: Module,
    imp: Implementation,
    i: Interface,
    r: Record,
    required: Seq<MethodSignature>,
) -> Seq<DiagnosticView>
    decreases required.len(),
{
    if required.len() == 0 {
        Seq::empty()
    } else {
        let s = required.last();
        required_diagnostics(m, imp, i, r, required.drop_last()) + match first_function(imp.methods@, s.name@) {
            None => seq![
                (
                    "P0302"@,
                    "implementation `"@ + imp.interface@ + "` for `"@ + imp.record@ + "` is missing method `"@
                        + s.name@ + "`"@,
                ),
            ],
            Some(f) => (if !same_parameters(f.parameters@, s.parameters@) || type_view(f.return_type) != type_view(
                s.return_type,
            ) {
                seq![("P0303"@, "method `"@ + f.name@ + "` does not match its interface"@)]
            } else {
                Seq::empty()
            }) + body_diagnostics(m, f, Some(r)),
        }
    }
}

/// The methods of an implementation that its interface does not declare.
pub open spec fn extra_diagnostics(i: Interface, methods: Seq<Function>) -> Seq<DiagnosticView>
    decreases methods.len(),
{
    if methods.len() == 0 {
        Seq::empty()
    } else {
        extra_diagnostics(i, methods.drop_last()) + if declares_method(i, methods.last().name@) {
            Seq::empty()
        } else {
            seq![("P0304"@, "extra method `"@ + methods.last().name@ + "` in interface implementation"@)]
        }
    }
}

/// What one implementation reports: an unknown interface or record, or
/// else its required methods, then its extra methods.
pub open spec fn one_implementation_diagnostics(m: Module, imp: Implementation) -> Seq<DiagnosticView> {
    match first_interface(m.interfaces@, imp.interface@) {
        None => seq![("P0300"@, "unknown interface `"@ + imp.interface@ + "`"@)],
        Some(i) => match first_record(m.records@, imp.record@) {
            None => seq![("P0301"@, "unknown implementation record `"@ + imp.record@ + "`"@)],
            Some(r) => required_diagnostics(m, imp, i, r, i.methods@) + extra_diagnostics(i, imp.methods@),
        },
    }
}

pub open spec fn implementations_diagnostics(m: Module, imps: Seq<Implementation>) -> Seq<DiagnosticView>
    decreases imps.len(),
{
    if imps.len() == 0 {
        Seq::empty()
    } else {
        implementations_diagnostics(m, imps.drop_last()) + one_implementation_diagnostics(m, imps.last())
    }
}

fn check_implementation(module: &Module, implementation: &Implementation, diagnostics: &mut Vec<Diagnostic>)
    ensures
        diagnostics_view(final(diagnostics)@) == diagnostics_view(old(diagnostics)@)
            + one_implementation_diagnostics(*module, *implementation),
{
    let ghost start = diagnostics_view(diagnostics@);
    let found = find_interface(&module.interfaces, implementation.interface.as_str());
    if found.is_none() {
        report(diagnostics, "P0300", join3("unknown interface `", implementation.interface.as_str(), "`"));
        return;
    }
    let interface = &module.interfaces[found.unwrap()];
    let found_record = find_record(module, implementation.record.as_str());
    if found_record.is_none() {
        report(
            diagnostics,
            "P0301",
            join3("unknown implementation record `", implementation.record.as_str(), "`"),
        );
        return;
    }
    let receiver = &module.records[found_record.unwrap()];
    let mut k: usize = 0;
    while k < interface.methods.len()
        invariant
            k <= interface.methods@.len(),
            diagnostics_view(diagnostics@) == start + required_diagnostics(
                *module,
                *implementation,
                *interface,
                *receiver,
                interface.methods@.take(k as int),
            ),
        decreases interface.methods.len() - k,
    {
        let required = &interface.methods[k];
        proof {
            assert(interface.methods@.take(k + 1).drop_last() =~= interface.methods@.take(k as int));
            assert(interface.methods@.take(k + 1).last() == *required);
            reveal_strlit("");
        }
        match find_method(&implementation.methods, required.name.as_str()) {
            None => {
                let mut message: Vec<char> = Vec::new();
                push_text(&mut message, "implementation `");
                push_text(&mut message, implementation.interface.as_str());
                push_text(&mut message, "` for `");
                push_text(&mut message, implementation.record.as_str());
                push_text(&mut message, "` is missing method `");
                push_text(&mut message, required.name.as_str());
                push_text(&mut message, "`");
                report(diagnostics, "P0302", string_from_chars(&message));
            },
            Some(index) => {
                let method = &implementation.methods[index];
                let returned = Some(copy_type(&method.return_type));
                let same_signature = parameters_equal(&method.parameters, &required.parameters) && type_matches(
                    &returned,
                    &required.return_type,
                );
                if !same_signature {
                    report(diagnostics, "P0303", join3("method `", method.name.as_str(), "` does not match its interface"));
                }
                check_body(module, method, Some(receiver), diagnostics);
            },
        }
        assert(diagnostics_view(diagnostics@) =~= start + required_diagnostics(
            *module,
            *implementation,
            *interface,
            *receiver,
            interface.methods@.take(k + 1),
        ));
        k += 1;
    }
    assert(interface.methods@.take(k as int) =~= interface.methods@);
    let ghost middle = diagnostics_view(diagnostics@);
    let mut k: usize = 0;
    while k < implementation.methods.len()
        invariant
            k <= implementation.methods@.len(),
            diagnostics_view(diagnostics@) == middle + extra_diagnostics(*interface, implementation.methods@.take(k as int)),
        decreases implementation.methods.len() - k,
    {
        proof {
            assert(implementation.methods@.take(k + 1).drop_last() =~= implementation.methods@.take(k as int));
            assert(implementation.methods@.take(k + 1).last() == implementation.methods@[k as int]);
        }
        if !has_method(interface, implementation.methods[k].name.as_str()) {
            report(
                diagnostics,
                "P0304",
                join3("extra method `", implementation.methods[k].name.as_str(), "` in interface implementation"),
            );
        }
        assert(diagnostics_view(diagnostics@) =~= middle + extra_diagnostics(
            *interface,
            implementation.methods@.take(k + 1),
        ));
        k += 1;
    }
    assert(implementation.methods@.take(k as int) =~= implementation.methods@);
}

/// Reports, for each implementation: an unknown interface or record; each
/// required method that is missing, has another signature or an ill-typed
/// body; and each method the interface does not declare.
pub fn check_implementations(module: &Module, diagnostics: &mut Vec<Diagnostic>)
    ensures
        diagnostics_view(final(diagnostics)@) == diagnostics_view(old(diagnostics)@) + implementations_diagnostics(
            *module,
            module.implementations@,
        ),
{
    let ghost start = diagnostics_view(diagnostics@);
    let mut i: usize = 0;
    while i < module.implementations.len()
        invariant
            i <= module.implementations@.len(),
            diagnostics_view(diagnostics@) == start + implementations_diagnostics(
                *module,
                module.implementations@.take(i as int),
            ),
        decreases module.implementations.len() - i,
    {
        proof {
            assert(module.implementations@.take(i + 1).drop_last() =~= module.implementations@.take(i as int));
            assert(module.implementations@.take(i + 1).last() == module.implementations@[i as int]);
        }
        check_implementation(module, &module.implementations[i], diagnostics);
        assert(diagnostics_view(diagnostics@) =~= start + implementations_diagnostics(
            *module,
            module.implementations@.take(i + 1),
        ));
        i += 1;
    }
    assert(module.implementations@.take(i as int) =~= module.implementations@);
}

pub open spec fn module_name_diagnostics(name: Seq<char>) -> Seq<DiagnosticView> {
    if is_identifier(name) {
        Seq::empty()
    } else {
        seq![("P0001"@, module_name_message(name))]
    }
}

/// Everything that checking `m` reports, in order: its name, its top-level
/// names and implementations, its declared types, its constants, its
/// implementations' methods, its functions' bodies, then its tests.
pub open spec fn check_diagnostics(m: Module) -> Seq<DiagnosticView> {
    module_name_diagnostics(m.name@) + name_diagnostics(top_items(m)) + implementation_diagnostics(
        implementation_keys(m),
    ) + declared_type_diagnostics(m) + constant_diagnostics(m, m.constants@) + implementations_diagnostics(
        m,
        m.implementations@,
    ) + function_body_diagnostics(m, m.functions@) + test_diagnostics(m, m.tests@)
}

/// A module that passed [`check`]: the only input the prototype emitters
/// accept.
#[derive(Debug)]
pub struct CheckedModule {
    module: Module,
}

impl CheckedModule {
    /// The module that passed the check.
    pub closed spec fn checked(&self) -> Module {
        self.module
    }

    pub fn module(&self) -> (result: &Module)
        ensures
            *result == self.checked(),
    {
        &self.module
    }
}

/// Checks a module of the prototype portable model; it passes exactly when
/// nothing is reported, and otherwise every report comes back.
pub fn check(module: Module) -> (result: Result<CheckedModule, Vec<Diagnostic>>)
    ensures
        result is Ok <==> check_diagnostics(module).len() == 0,
        result matches Ok(checked) ==> checked.checked() == module,
        result matches Err(diagnostics) ==> diagnostics_view(diagnostics@) == check_diagnostics(module),
{
    let mut diagnostics: Vec<Diagnostic> = Vec::new();
    check_module_name(module.name.as_str(), &mut diagnostics);
    proof {
        if is_identifier(module.name@) {
            assert(diagnostics_view(diagnostics@) =~= Seq::<DiagnosticView>::empty());
        } else {
            assert(diagnostics@.drop_last() =~= Seq::<Diagnostic>::empty());
            assert(diagnostics_view(diagnostics@) =~= module_name_diagnostics(module.name@));
        }
    }
    check_top_level_names(&module, &mut diagnostics);
    check_declared_types(&module, &mut diagnostics);
    check_constants(&module, &mut diagnostics);
    check_implementations(&module, &mut diagnostics);
    check_functions(&module, &mut diagnostics);
    check_tests(&module, &mut diagnostics);
    assert(diagnostics_view(diagnostics@) =~= check_diagnostics(module));
    if diagnostics.len() == 0 {
        Ok(CheckedModule { module })
    } else {
        Err(diagnostics)
    }
}


/// A method call whose number of arguments differs from the number of
/// parameters of the interface method it names, fewer or more, is reported
/// as `P0410`, wherever the call stands.
pub proof fn law_method_arity_is_reported(
    m: Module,
    e: Expression,
    locals: Seq<Parameter>,
    self_record: Option<Record>,
    interface_name: Seq<char>,
    interface: Interface,
    signature: MethodSignature,
)
    requires
        e is MethodCall,
        expression_check(m, *e->receiver, locals, self_record).0 == Some(TypeView::Named(interface_name)),
        first_interface(m.interfaces@, interface_name) == Some(interface),
        first_signature(interface.methods@, e->method@) == Some(signature),
        e->arguments.len() != signature.parameters.len(),
    ensures
        expression_check(m, e, locals, self_record).1.contains(("P0410"@, "wrong method argument count"@)),
{
    let rc = expression_check(m, *e->receiver, locals, self_record);
    let out = expression_check(m, e, locals, self_record).1;
    assert(out == rc.1 + seq![("P0410"@, "wrong method argument count"@)]);
    assert(out[rc.1.len() as int] == ("P0410"@, "wrong method argument count"@));
}

proof fn lemma_function_body_diagnostics_contain(m: Module, fs: Seq<Function>, k: int, d: DiagnosticView)
    requires
        0 <= k < fs.len(),
        body_diagnostics(m, fs[k], None).contains(d),
    ensures
        function_body_diagnostics(m, fs).contains(d),
    decreases fs.len(),
{
    let before = function_body_diagnostics(m, fs.drop_last());
    let last = body_diagnostics(m, fs.last(), None);
    assert(function_body_diagnostics(m, fs) == before + last);
    if k == fs.len() - 1 {
        let j = choose|j: int| 0 <= j < last.len() && last[j] == d;
        assert((before + last)[before.len() + j] == d);
    } else {
        assert(fs.drop_last()[k] == fs[k]);
        lemma_function_body_diagnostics_contain(m, fs.drop_last(), k, d);
        let j = choose|j: int| 0 <= j < before.len() && before[j] == d;
        assert((before + last)[j] == d);
    }
}

/// A module with a function whose body calls an interface method with the
/// wrong number of arguments does not pass [`check`]: its diagnostics hold
/// `P0410`.
pub proof fn law_module_method_arity_is_reported(
    m: Module,
    k: int,
    interface_name: Seq<char>,
    interface: Interface,
    signature: MethodSignature,
)
    requires
        0 <= k < m.functions.len(),
        m.functions@[k].body is MethodCall,
        expression_check(m, *m.functions@[k].body->receiver, m.functions@[k].parameters@, None).0 == Some(
            TypeView::Named(interface_name),
        ),
        first_interface(m.interfaces@, interface_name) == Some(interface),
        first_signature(interface.methods@, m.functions@[k].body->method@) == Some(signature),
        m.functions@[k].body->arguments.len() != signature.parameters.len(),
    ensures
        check_diagnostics(m).contains(("P0410"@, "wrong method argument count"@)),
        check_diagnostics(m).len() > 0,
{
    let f = m.functions@[k];
    let d = ("P0410"@, "wrong method argument count"@);
    law_method_arity_is_reported(m, f.body, f.parameters@, None, interface_name, interface, signature);
    let r = expression_check(m, f.body, f.parameters@, None);
    let body = body_diagnostics(m, f, None);
    let j = choose|j: int| 0 <= j < r.1.len() && r.1[j] == d;
    assert(body[j] == d);
    lemma_function_body_diagnostics_contain(m, m.functions@, k, d);
    let fb = function_body_diagnostics(m, m.functions@);
    let jj = choose|jj: int| 0 <= jj < fb.len() && fb[jj] == d;
    let prefix = module_name_diagnostics(m.name@) + name_diagnostics(top_items(m)) + implementation_diagnostics(
        implementation_keys(m),
    ) + declared_type_diagnostics(m) + constant_diagnostics(m, m.constants@) + implementations_diagnostics(
        m,
        m.implementations@,
    );
    let all = check_diagnostics(m);
    assert(all == prefix + fb + test_diagnostics(m, m.tests@));
    assert(all[prefix.len() + jj] == d);
}

} // verus!
