//! Diagnostics of the portable model's checker and the rules for portable
//! identifiers.
use vstd::prelude::*;

use crate::text::{chars_of, push_text, string_from_chars};

verus! {

/// A checker finding: a stable code and a message.
#[derive(Clone, Debug, PartialEq, Eq)]
pub struct Diagnostic {
    pub code: &'static str,
    pub message: String,
}

/// Target-independent semantic features that a checked program requires.
#[derive(Clone, Copy, Debug, PartialEq, Eq, PartialOrd, Ord, Hash)]
pub enum Capability {
    Bytes,
    CheckedIntegerArithmetic,
    ContractDispatch,
    F64,
    ImmutableList,
    Option,
    Result,
    UnicodeScalar,
    WrappingIntegerArithmetic,
    BoundedIteration,
}

/// An underscore or an ASCII letter.
pub open spec fn identifier_start(c: char) -> bool {
    c == '_' || ('a' <= c && c <= 'z') || ('A' <= c && c <= 'Z')
}

/// An underscore, an ASCII letter or an ASCII digit.
pub open spec fn identifier_char(c: char) -> bool {
    identifier_start(c) || ('0' <= c && c <= '9')
}

/// A portable identifier: an underscore or letter, then underscores,
/// letters and digits, all ASCII.
pub open spec fn is_identifier(s: Seq<char>) -> bool {
    &&& s.len() > 0
    &&& identifier_start(s[0])
    &&& forall|i: int| 1 <= i < s.len() ==> identifier_char(#[trigger] s[i])
}

/// Whether `name` is a portable identifier.
pub fn valid_identifier(name: &str) -> (result: bool)
    ensures
        result == is_identifier(name@),
{
    let chars = chars_of(name);
    if chars.len() == 0 {
        return false;
    }
    let first = chars[0];
    if !(first == '_' || ('a' <= first && first <= 'z') || ('A' <= first && first <= 'Z')) {
        return false;
    }
    let mut i: usize = 1;
    while i < chars.len()
        invariant
            chars@ == name@,
            1 <= i <= chars.len(),
            forall|j: int| 1 <= j < i ==> identifier_char(#[trigger] chars@[j]),
        decreases chars.len() - i,
    {
        let c = chars[i];
        if !(c == '_' || ('a' <= c && c <= 'z') || ('A' <= c && c <= 'Z') || ('0' <= c && c <= '9')) {
            return false;
        }
        i += 1;
    }
    true
}

pub open spec fn module_name_message(name: Seq<char>) -> Seq<char> {
    "module name `"@ + name + "` is not a portable identifier"@
}

/// Reports a module name that is no portable identifier.
pub fn check_module_name(name: &str, diagnostics: &mut Vec<Diagnostic>)
    ensures
        is_identifier(name@) ==> final(diagnostics)@ == old(diagnostics)@,
        !is_identifier(name@) ==> {
            &&& final(diagnostics)@.len() == old(diagnostics)@.len() + 1
            &&& final(diagnostics)@.drop_last() == old(diagnostics)@
            &&& final(diagnostics)@.last().code@ == "P0001"@
            &&& final(diagnostics)@.last().message@ == module_name_message(name@)
        },
{
    if !valid_identifier(name) {
        let mut message: Vec<char> = Vec::new();
        push_text(&mut message, "module name `");
        push_text(&mut message, name);
        push_text(&mut message, "` is not a portable identifier");
        let diagnostic = Diagnostic { code: "P0001", message: string_from_chars(&message) };
        diagnostics.push(diagnostic);
        assert(diagnostics@.drop_last() =~= old(diagnostics)@);
    }
}

} // verus!
