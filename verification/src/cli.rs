//! The command line's decisions: which command runs, what its arguments
//! mean, and how option pairs and versions are read and written.
use vstd::prelude::*;

use crate::backend::{debug_text, quoted_message, BackendOptions, BackendVersion, OptionValue};
use crate::order::{compare_text, lemma_text_less_irreflexive, pairs_map, Comparison};
use crate::text::{chars_of, decimal, push_decimal, push_text, string_from_chars};

verus! {

/// Why writing a manifest to disk failed.
#[derive(Clone, Debug, PartialEq, Eq)]
pub struct MaterializeError {
    pub message: String,
}

/// Whether `a` is the text `b`.
fn same_text(a: &str, b: &str) -> (result: bool)
    ensures
        result == (a@ == b@),
{
    let c = compare_text(a, b);
    proof {
        if a@ == b@ {
            if !matches!(c, Comparison::Equal) {
                lemma_text_less_irreflexive(a@);
            }
        }
    }
    matches!(c, Comparison::Equal)
}

/// The position of the first `=` in `s`, if any.
pub open spec fn first_equals(s: Seq<char>) -> Option<int>
    decreases s.len(),
{
    if s.len() == 0 {
        None
    } else if s[0] == '=' {
        Some(0)
    } else {
        match first_equals(s.drop_first()) {
            Some(i) => Some(i + 1),
            None => None,
        }
    }
}

proof fn lemma_first_equals(s: Seq<char>, i: int)
    requires
        0 <= i <= s.len(),
        forall|j: int| 0 <= j < i ==> s[j] != '=',
    ensures
        i < s.len() && s[i] == '=' ==> first_equals(s) == Some(i),
        i == s.len() ==> first_equals(s) is None,
    decreases i,
{
    if i > 0 {
        let rest = s.drop_first();
        assert forall|j: int| 0 <= j < i - 1 implies rest[j] != '=' by {
            assert(rest[j] == s[j + 1]);
        }
        if i < s.len() && s[i] == '=' {
            assert(rest[i - 1] == s[i]);
        }
        lemma_first_equals(rest, i - 1);
    }
}

/// `s` split at its first `=`.
fn split_once_equals(s: &str) -> (result: Option<(String, String)>)
    ensures
        match first_equals(s@) {
            None => result is None,
            Some(i) => result matches Some(parts) && parts.0@ == s@.take(i) && parts.1@ == s@.skip(i + 1),
        },
{
    let chars = chars_of(s);
    let mut i: usize = 0;
    while i < chars.len()
        invariant
            chars@ == s@,
            i <= chars.len(),
            forall|j: int| 0 <= j < i ==> chars@[j] != '=',
        decreases chars.len() - i,
    {
        if chars[i] == '=' {
            let mut name: Vec<char> = Vec::new();
            let mut value: Vec<char> = Vec::new();
            let mut k: usize = 0;
            while k < i
                invariant
                    i < chars.len(),
                    k <= i,
                    name@ == chars@.take(k as int),
                decreases i - k,
            {
                name.push(chars[k]);
                k += 1;
                assert(name@ =~= chars@.take(k as int));
            }
            let mut k: usize = i + 1;
            while k < chars.len()
                invariant
                    i < k <= chars.len() || k == i + 1,
                    i < chars.len(),
                    value@ == chars@.subrange(i + 1, k as int),
                decreases chars.len() - k,
            {
                value.push(chars[k]);
                k += 1;
                assert(value@ =~= chars@.subrange(i + 1, k as int));
            }
            proof {
                lemma_first_equals(s@, i as int);
                assert(chars@.subrange(i + 1, k as int) =~= s@.skip(i + 1));
            }
            return Some((string_from_chars(&name), string_from_chars(&value)));
        }
        i += 1;
    }
    proof {
        lemma_first_equals(s@, i as int);
    }
    None
}

pub open spec fn pair_message(pair: Seq<char>) -> Seq<char> {
    "option "@ + debug_text(pair) + " must be name=value"@
}

pub open spec fn name_message(name: Seq<char>) -> Seq<char> {
    "option name "@ + debug_text(name) + " is empty or duplicated"@
}

/// The name and value of each `name=value` pair, in order; or the message
/// for the first pair that has no `=`, an empty name or a name seen before.
pub open spec fn option_pairs(pairs: Seq<Seq<char>>) -> Result<Seq<(Seq<char>, Seq<char>)>, Seq<char>>
    decreases pairs.len(),
{
    if pairs.len() == 0 {
        Ok(Seq::empty())
    } else {
        match option_pairs(pairs.drop_last()) {
            Err(m) => Err(m),
            Ok(done) => {
                let pair = pairs.last();
                match first_equals(pair) {
                    None => Err(pair_message(pair)),
                    Some(i) => {
                        let name = pair.take(i);
                        if name.len() == 0 || exists|k: int| 0 <= k < done.len() && #[trigger] done[k].0 == name {
                            Err(name_message(name))
                        } else {
                            Ok(done.push((name, pair.skip(i + 1))))
                        }
                    },
                }
            },
        }
    }
}

pub open spec fn strings_of(v: Seq<String>) -> Seq<Seq<char>> {
    v.map_values(|s: String| s@)
}

pub open spec fn text_entries(v: Seq<(String, OptionValue)>) -> Seq<(Seq<char>, Seq<char>)> {
    v.map_values(
        |e: (String, OptionValue)|
            (
                e.0@,
                match e.1 {
                    OptionValue::Text(t) => t@,
                    _ => Seq::empty(),
                },
            ),
    )
}

proof fn lemma_pairs_map_distinct(v: Seq<(String, OptionValue)>)
    requires
        forall|i: int, j: int| 0 <= i < j < v.len() ==> #[trigger] v[i].0@ != #[trigger] v[j].0@,
    ensures
        forall|k: int|
            0 <= k < v.len() ==> #[trigger] pairs_map(v).contains_key(v[k].0@) && pairs_map(v)[v[k].0@]
                == v[k].1,
        forall|n: Seq<char>|
            #[trigger] pairs_map(v).contains_key(n) ==> exists|k: int| 0 <= k < v.len() && v[k].0@ == n,
    decreases v.len(),
{
    if v.len() > 0 {
        let init = v.drop_last();
        assert forall|i: int, j: int| 0 <= i < j < init.len() implies #[trigger] init[i].0@ != #[trigger] init[j].0@ by {
            assert(init[i] == v[i] && init[j] == v[j]);
        }
        lemma_pairs_map_distinct(init);
        assert(init =~= v.drop_last());
        assert(pairs_map(v) == pairs_map(init).insert(v.last().0@, v.last().1));
        assert forall|k: int| 0 <= k < v.len() implies #[trigger] pairs_map(v).contains_key(v[k].0@)
            && pairs_map(v)[v[k].0@] == v[k].1 by {
            if k < v.len() - 1 {
                assert(init[k] == v[k]);
                assert(v[k].0@ != v.last().0@);
            }
        }
        assert forall|n: Seq<char>| #[trigger] pairs_map(v).contains_key(n) implies exists|k: int|
            0 <= k < v.len() && v[k].0@ == n by {
            if n != v.last().0@ {
                assert(pairs_map(init).contains_key(n));
                let k = choose|k: int| 0 <= k < init.len() && init[k].0@ == n;
                assert(v[k] == init[k]);
            } else {
                assert(v[v.len() - 1].0@ == n);
            }
        }
    }
}

proof fn lemma_option_pairs_error_stays(all: Seq<Seq<char>>, i: int)
    requires
        0 <= i <= all.len(),
        option_pairs(all.take(i)) is Err,
    ensures
        option_pairs(all) == option_pairs(all.take(i)),
    decreases all.len() - i,
{
    if i == all.len() {
        assert(all.take(i) =~= all);
    } else {
        assert(all.take(i + 1).drop_last() =~= all.take(i));
        lemma_option_pairs_error_stays(all, i + 1);
    }
}

/// Reads `name=value` pairs into text options, refusing a pair without `=`
/// and an empty or repeated name.
pub fn parse_options(pairs: Vec<String>) -> (result: Result<BackendOptions, String>)
    ensures
        match option_pairs(strings_of(pairs@)) {
            Err(m) => result matches Err(message) && message@ == m,
            Ok(entries) => result matches Ok(options) && {
                &&& options.wf()
                &&& forall|n: Seq<char>|
                    #[trigger] options@.contains_key(n) <==> exists|k: int|
                        0 <= k < entries.len() && entries[k].0 == n
                &&& forall|k: int|
                    0 <= k < entries.len() ==> (options@[#[trigger] entries[k].0] matches OptionValue::Text(
                        t,
                    ) && t@ == entries[k].1)
            },
        },
{
    let ghost all = strings_of(pairs@);
    let mut values: Vec<(String, OptionValue)> = Vec::new();
    let mut i: usize = 0;
    assert(all.take(0) =~= Seq::<Seq<char>>::empty());
    assert(text_entries(values@) =~= Seq::<(Seq<char>, Seq<char>)>::empty());
    while i < pairs.len()
        invariant
            i <= pairs@.len(),
            all == strings_of(pairs@),
            option_pairs(all.take(i as int)) == Ok::<Seq<(Seq<char>, Seq<char>)>, Seq<char>>(
                text_entries(values@),
            ),
            forall|k: int| 0 <= k < values@.len() ==> values@[k].1 is Text,
            forall|a: int, b: int| 0 <= a < b < values@.len() ==> #[trigger] values@[a].0@ != #[trigger] values@[b].0@,
        decreases pairs.len() - i,
    {
        let pair = pairs[i].as_str();
        let ghost done = text_entries(values@);
        proof {
            assert(all.take(i + 1).drop_last() =~= all.take(i as int));
            assert(all.take(i + 1).last() == pair@);
        }
        match split_once_equals(pair) {
            None => {
                proof {
                    lemma_option_pairs_error_stays(all, i + 1);
                }
                return Err(quoted_message("option ", pair, " must be name=value"));
            },
            Some((name, value)) => {
                let mut duplicate = false;
                let mut k: usize = 0;
                while k < values.len()
                    invariant
                        k <= values@.len(),
                        done == text_entries(values@),
                        duplicate <==> exists|q: int| 0 <= q < k && #[trigger] done[q].0 == name@,
                    decreases values.len() - k,
                {
                    assert(done[k as int].0 == values@[k as int].0@);
                    if same_text(values[k].0.as_str(), name.as_str()) {
                        duplicate = true;
                    }
                    k += 1;
                }
                if name.as_str().is_empty() || duplicate {
                    proof {
                        lemma_option_pairs_error_stays(all, i + 1);
                    }
                    return Err(quoted_message("option name ", name.as_str(), " is empty or duplicated"));
                }
                let ghost before = values@;
                values.push((name, OptionValue::Text(value)));
                proof {
                    assert(text_entries(values@) =~= done.push((name@, value@)));
                    assert forall|a: int, b: int| 0 <= a < b < values@.len() implies #[trigger] values@[a].0@
                        != #[trigger] values@[b].0@ by {
                        if b == values@.len() - 1 {
                            assert(done[a].0 == values@[a].0@);
                            assert(done[a].0 != name@);
                            assert(values@[b].0@ == name@);
                        } else {
                            assert(values@[a] == before[a] && values@[b] == before[b]);
                            assert(before[a].0@ != before[b].0@);
                        }
                    }
                }
            },
        }
        i += 1;
    }
    proof {
        assert(all.take(i as int) =~= all);
        lemma_pairs_map_distinct(values@);
    }
    let ghost entries = text_entries(values@);
    let options = BackendOptions::new(values);
    proof {
        assert forall|n: Seq<char>| #[trigger] options@.contains_key(n) <==> exists|k: int|
            0 <= k < entries.len() && entries[k].0 == n by {
            if exists|k: int| 0 <= k < entries.len() && entries[k].0 == n {
                let k = choose|k: int| 0 <= k < entries.len() && entries[k].0 == n;
                assert(entries[k].0 == values@[k].0@);
            }
            if options@.contains_key(n) {
                let k = choose|k: int| 0 <= k < values@.len() && values@[k].0@ == n;
                assert(entries[k].0 == n);
            }
        }
        assert forall|k: int| 0 <= k < entries.len() implies (options@[#[trigger] entries[k].0] matches OptionValue::Text(
            t,
        ) && t@ == entries[k].1) by {
            assert(entries[k].0 == values@[k].0@);
            assert(pairs_map(values@).contains_key(values@[k].0@));
            assert(options@[values@[k].0@] == values@[k].1);
            assert(values@[k].1 is Text);
        }
    }
    Ok(options)
}

/// `major.minor.patch`.
pub open spec fn version_text(v: BackendVersion) -> Seq<char> {
    decimal(v.major as nat) + "."@ + decimal(v.minor as nat) + "."@ + decimal(v.patch as nat)
}

pub fn format_version(version: BackendVersion) -> (result: String)
    ensures
        result@ == version_text(version),
{
    let mut out: Vec<char> = Vec::new();
    push_decimal(&mut out, version.major as u64);
    push_text(&mut out, ".");
    push_decimal(&mut out, version.minor as u64);
    push_text(&mut out, ".");
    push_decimal(&mut out, version.patch as u64);
    string_from_chars(&out)
}

/// The command that the first argument names.
#[derive(Clone, Debug, PartialEq, Eq)]
pub enum Command {
    /// No argument at all.
    Missing,
    Help,
    Check,
    Emit,
    Targets,
    Explain,
    /// An unknown command, with its usage message.
    Unknown(String),
}

/// Whether `result` is the command that the first argument `first` names.
pub open spec fn names_command(first: Option<Seq<char>>, result: Command) -> bool {
    match first {
        None => result is Missing,
        Some(c) => if c == "--help"@ || c == "-h"@ || c == "help"@ {
            result is Help
        } else if c == "check"@ {
            result is Check
        } else if c == "emit"@ {
            result is Emit
        } else if c == "targets"@ {
            result is Targets
        } else if c == "explain"@ {
            result is Explain
        } else {
            result matches Command::Unknown(m) && m@ == "unknown command "@ + debug_text(c)
        },
    }
}

pub open spec fn text_option(o: Option<&str>) -> Option<Seq<char>> {
    match o {
        Some(s) => Some(s@),
        None => None,
    }
}

/// Names the command of a command line from its first argument.
pub fn parse_command(first: Option<&str>) -> (result: Command)
    ensures
        names_command(text_option(first), result),
{
    match first {
        None => Command::Missing,
        Some(c) => {
            if same_text(c, "--help") || same_text(c, "-h") || same_text(c, "help") {
                Command::Help
            } else if same_text(c, "check") {
                Command::Check
            } else if same_text(c, "emit") {
                Command::Emit
            } else if same_text(c, "targets") {
                Command::Targets
            } else if same_text(c, "explain") {
                Command::Explain
            } else {
                let message = quoted_message("unknown command ", c, "");
                proof {
                    assert("unknown command "@ + debug_text(c@) + ""@ =~= "unknown command "@ + debug_text(c@)) by {
                        reveal_strlit("");
                    }
                }
                Command::Unknown(message)
            }
        },
    }
}

pub open spec fn starts_with_dash(a: Seq<char>) -> bool {
    a.len() > 0 && a[0] == '-'
}

fn dash_first(a: &str) -> (result: bool)
    ensures
        result == starts_with_dash(a@),
{
    let chars = chars_of(a);
    chars.len() > 0 && chars[0] == '-'
}

/// What `check` was asked: its one input, the target to preflight, and
/// whether to answer in JSON.
#[derive(Clone, Debug, PartialEq, Eq)]
pub struct CheckRequest {
    pub input: String,
    pub target: Option<String>,
    pub json: bool,
}

/// The state of reading `check` arguments: positional arguments, target,
/// JSON flag.
pub struct CheckScan {
    pub positional: Seq<Seq<char>>,
    pub target: Option<Seq<char>>,
    pub json: bool,
}

/// Reads the `check` arguments from position `i` on.
pub open spec fn scan_check(args: Seq<Seq<char>>, i: int, state: CheckScan) -> Result<CheckScan, Seq<char>>
    decreases args.len() - i,
{
    if i < 0 || i >= args.len() {
        Ok(state)
    } else {
        let a = args[i];
        if a == "--json"@ {
            scan_check(args, i + 1, CheckScan { json: true, ..state })
        } else if a == "--target"@ {
            if i + 1 >= args.len() {
                Err("--target requires a value"@)
            } else {
                scan_check(args, i + 2, CheckScan { target: Some(args[i + 1]), ..state })
            }
        } else if starts_with_dash(a) {
            Err("unknown check option "@ + debug_text(a))
        } else {
            scan_check(args, i + 1, CheckScan { positional: state.positional.push(a), ..state })
        }
    }
}

/// The request that the `check` arguments make, or the usage message.
pub open spec fn check_request(args: Seq<Seq<char>>) -> Result<(Seq<char>, Option<Seq<char>>, bool), Seq<char>> {
    match scan_check(args, 0, CheckScan { positional: Seq::empty(), target: None, json: false }) {
        Err(m) => Err(m),
        Ok(state) => if state.positional.len() != 1 {
            Err("check requires exactly one input path"@)
        } else {
            Ok((state.positional[0], state.target, state.json))
        },
    }
}

pub open spec fn args_view(args: Seq<String>) -> Seq<Seq<char>> {
    args.map_values(|a: String| a@)
}

pub open spec fn string_option(o: Option<String>) -> Option<Seq<char>> {
    match o {
        Some(s) => Some(s@),
        None => None,
    }
}

/// Reads the arguments that follow `check`.
pub fn parse_check_arguments(args: &[String]) -> (result: Result<CheckRequest, String>)
    ensures
        match check_request(args_view(args@)) {
            Err(m) => result matches Err(message) && message@ == m,
            Ok((input, target, json)) => result matches Ok(request) && request.input@ == input
                && string_option(request.target) == target && request.json == json,
        },
{
    let ghost all = args_view(args@);
    let mut positional: Vec<String> = Vec::new();
    let mut target: Option<String> = None;
    let mut json = false;
    let mut i: usize = 0;
    assert(args_view(positional@) =~= Seq::<Seq<char>>::empty());
    while i < args.len()
        invariant
            all == args_view(args@),
            i <= args@.len(),
            scan_check(all, 0, CheckScan { positional: Seq::empty(), target: None, json: false })
                == scan_check(
                all,
                i as int,
                CheckScan { positional: args_view(positional@), target: string_option(target), json },
            ),
        decreases args.len() - i,
    {
        let a = args[i].as_str();
        proof {
            assert(all[i as int] == a@);
        }
        if same_text(a, "--json") {
            json = true;
            i += 1;
        } else if same_text(a, "--target") {
            if i + 1 >= args.len() {
                return Err(string_from_chars(&chars_of("--target requires a value")));
            }
            proof {
                assert(all[i + 1] == args@[i + 1]@);
            }
            target = Some(args[i + 1].clone());
            i += 2;
        } else if dash_first(a) {
            proof {
                assert("unknown check option "@ + debug_text(a@) + ""@ =~= "unknown check option "@ + debug_text(a@)) by {
                    reveal_strlit("");
                }
            }
            return Err(quoted_message("unknown check option ", a, ""));
        } else {
            let ghost before = positional@;
            positional.push(args[i].clone());
            assert(args_view(positional@) =~= args_view(before).push(a@));
            i += 1;
        }
    }
    if positional.len() != 1 {
        return Err(string_from_chars(&chars_of("check requires exactly one input path")));
    }
    proof {
        assert(args_view(positional@)[0] == positional@[0]@);
    }
    let input = positional.pop().unwrap();
    Ok(CheckRequest { input, target, json })
}

/// What `emit` was asked.
#[derive(Clone, Debug, PartialEq, Eq)]
pub struct EmitRequest {
    pub input: String,
    pub target: String,
    pub output: String,
    pub dry_run: bool,
    pub json: bool,
    pub options: Vec<String>,
}

/// The state of reading `emit` arguments.
pub struct EmitScan {
    pub input: Option<Seq<char>>,
    pub target: Option<Seq<char>>,
    pub output: Option<Seq<char>>,
    pub dry_run: bool,
    pub json: bool,
    pub options: Seq<Seq<char>>,
}

/// Reads the `emit` arguments from position `i` on.
pub open spec fn scan_emit(args: Seq<Seq<char>>, i: int, state: EmitScan) -> Result<EmitScan, Seq<char>>
    decreases args.len() - i,
{
    if i < 0 || i >= args.len() {
        Ok(state)
    } else {
        let a = args[i];
        if a == "--target"@ || a == "--out"@ || a == "--option"@ {
            if i + 1 >= args.len() {
                Err(a + " requires a value"@)
            } else {
                let v = args[i + 1];
                if a == "--target"@ {
                    scan_emit(args, i + 2, EmitScan { target: Some(v), ..state })
                } else if a == "--out"@ {
                    scan_emit(args, i + 2, EmitScan { output: Some(v), ..state })
                } else {
                    scan_emit(args, i + 2, EmitScan { options: state.options.push(v), ..state })
                }
            }
        } else if a == "--dry-run"@ {
            scan_emit(args, i + 1, EmitScan { dry_run: true, ..state })
        } else if a == "--json"@ {
            scan_emit(args, i + 1, EmitScan { json: true, ..state })
        } else if starts_with_dash(a) {
            Err("unknown emit option "@ + debug_text(a))
        } else if state.input is None {
            scan_emit(args, i + 1, EmitScan { input: Some(a), ..state })
        } else {
            Err("unexpected argument "@ + debug_text(a))
        }
    }
}

/// The request that the `emit` arguments make, or the usage message.
pub open spec fn emit_request(args: Seq<Seq<char>>) -> Result<EmitScan, Seq<char>> {
    match scan_emit(
        args,
        0,
        EmitScan {
            input: None,
            target: None,
            output: None,
            dry_run: false,
            json: false,
            options: Seq::empty(),
        },
    ) {
        Err(m) => Err(m),
        Ok(state) => if state.input is Some && state.target is Some && state.output is Some {
            Ok(state)
        } else {
            Err("emit requires input, --target, and --out"@)
        },
    }
}

/// Reads the arguments that follow `emit`.
pub fn parse_emit_arguments(args: &[String]) -> (result: Result<EmitRequest, String>)
    ensures
        match emit_request(args_view(args@)) {
            Err(m) => result matches Err(message) && message@ == m,
            Ok(state) => result matches Ok(request) && {
                &&& state.input == Some(request.input@)
                &&& state.target == Some(request.target@)
                &&& state.output == Some(request.output@)
                &&& state.dry_run == request.dry_run
                &&& state.json == request.json
                &&& state.options == args_view(request.options@)
            },
        },
{
    let ghost all = args_view(args@);
    let mut input: Option<String> = None;
    let mut target: Option<String> = None;
    let mut output: Option<String> = None;
    let mut dry_run = false;
    let mut json = false;
    let mut options: Vec<String> = Vec::new();
    let mut i: usize = 0;
    assert(args_view(options@) =~= Seq::<Seq<char>>::empty());
    while i < args.len()
        invariant
            all == args_view(args@),
            i <= args@.len(),
            scan_emit(
                all,
                0,
                EmitScan {
                    input: None,
                    target: None,
                    output: None,
                    dry_run: false,
                    json: false,
                    options: Seq::empty(),
                },
            ) == scan_emit(
                all,
                i as int,
                EmitScan {
                    input: string_option(input),
                    target: string_option(target),
                    output: string_option(output),
                    dry_run,
                    json,
                    options: args_view(options@),
                },
            ),
        decreases args.len() - i,
    {
        let a = args[i].as_str();
        proof {
            assert(all[i as int] == a@);
        }
        if same_text(a, "--target") || same_text(a, "--out") || same_text(a, "--option") {
            if i + 1 >= args.len() {
                let mut out: Vec<char> = Vec::new();
                push_text(&mut out, a);
                push_text(&mut out, " requires a value");
                return Err(string_from_chars(&out));
            }
            proof {
                assert(all[i + 1] == args@[i + 1]@);
            }
            let value = args[i + 1].clone();
            if same_text(a, "--target") {
                target = Some(value);
            } else if same_text(a, "--out") {
                output = Some(value);
            } else {
                let ghost before = options@;
                options.push(value);
                assert(args_view(options@) =~= args_view(before).push(all[i + 1]));
            }
            i += 2;
        } else if same_text(a, "--dry-run") {
            dry_run = true;
            i += 1;
        } else if same_text(a, "--json") {
            json = true;
            i += 1;
        } else if dash_first(a) {
            proof {
                assert("unknown emit option "@ + debug_text(a@) + ""@ =~= "unknown emit option "@ + debug_text(a@)) by {
                    reveal_strlit("");
                }
            }
            return Err(quoted_message("unknown emit option ", a, ""));
        } else if input.is_none() {
            input = Some(args[i].clone());
            i += 1;
        } else {
            proof {
                assert("unexpected argument "@ + debug_text(a@) + ""@ =~= "unexpected argument "@ + debug_text(a@)) by {
                    reveal_strlit("");
                }
            }
            return Err(quoted_message("unexpected argument ", a, ""));
        }
    }
    match (input, target, output) {
        (Some(input), Some(target), Some(output)) => Ok(EmitRequest { input, target, output, dry_run, json, options }),
        _ => Err(string_from_chars(&chars_of("emit requires input, --target, and --out"))),
    }
}

/// Whether `targets` answers in JSON, or the usage message.
pub open spec fn targets_request(args: Seq<Seq<char>>) -> Result<bool, Seq<char>> {
    if args.len() == 0 {
        Ok(false)
    } else if args.len() == 1 && args[0] == "--json"@ {
        Ok(true)
    } else {
        Err("targets accepts only --json"@)
    }
}

/// Reads the arguments that follow `targets`.
pub fn parse_targets_arguments(args: &[String]) -> (result: Result<bool, String>)
    ensures
        match targets_request(args_view(args@)) {
            Err(m) => result matches Err(message) && message@ == m,
            Ok(json) => result == Ok::<bool, String>(json),
        },
{
    if args.len() == 0 {
        return Ok(false);
    }
    proof {
        assert(args_view(args@)[0] == args@[0]@);
    }
    if args.len() == 1 && same_text(args[0].as_str(), "--json") {
        return Ok(true);
    }
    Err(string_from_chars(&chars_of("targets accepts only --json")))
}

/// The code that `explain` asks about and whether it answers in JSON, or the
/// usage message.
pub open spec fn explain_request(args: Seq<Seq<char>>) -> Result<(Seq<char>, bool), Seq<char>> {
    if args.len() == 1 {
        Ok((args[0], false))
    } else if args.len() == 2 && args[1] == "--json"@ {
        Ok((args[0], true))
    } else {
        Err("explain requires one diagnostic code and optional --json"@)
    }
}

/// Reads the arguments that follow `explain`.
pub fn parse_explain_arguments(args: &[String]) -> (result: Result<(String, bool), String>)
    ensures
        match explain_request(args_view(args@)) {
            Err(m) => result matches Err(message) && message@ == m,
            Ok((code, json)) => result matches Ok(answer) && answer.0@ == code && answer.1 == json,
        },
{
    if args.len() == 1 {
        proof {
            assert(args_view(args@)[0] == args@[0]@);
        }
        return Ok((args[0].clone(), false));
    }
    if args.len() == 2 {
        proof {
            assert(args_view(args@)[0] == args@[0]@);
            assert(args_view(args@)[1] == args@[1]@);
        }
        if same_text(args[1].as_str(), "--json") {
            return Ok((args[0].clone(), true));
        }
    }
    Err(string_from_chars(&chars_of("explain requires one diagnostic code and optional --json")))
}


/// Reading arguments that read to their end without an error, then one
/// more, is reading that one from the state they left.
proof fn lemma_scan_emit_push(args: Seq<Seq<char>>, x: Seq<char>, i: int, state: EmitScan)
    requires
        0 <= i <= args.len(),
        scan_emit(args, i, state) is Ok,
    ensures
        scan_emit(args.push(x), i, state) == scan_emit(args.push(x), args.len() as int, scan_emit(args, i, state)->Ok_0),
    decreases args.len() - i,
{
    let longer = args.push(x);
    if i < args.len() {
        let a = args[i];
        assert(longer[i] == a);
        if a == "--target"@ || a == "--out"@ || a == "--option"@ {
            assert(longer[i + 1] == args[i + 1]);
            let v = args[i + 1];
            if a == "--target"@ {
                lemma_scan_emit_push(args, x, i + 2, EmitScan { target: Some(v), ..state });
            } else if a == "--out"@ {
                lemma_scan_emit_push(args, x, i + 2, EmitScan { output: Some(v), ..state });
            } else {
                lemma_scan_emit_push(args, x, i + 2, EmitScan { options: state.options.push(v), ..state });
            }
        } else if a == "--dry-run"@ {
            lemma_scan_emit_push(args, x, i + 1, EmitScan { dry_run: true, ..state });
        } else if a == "--json"@ {
            lemma_scan_emit_push(args, x, i + 1, EmitScan { json: true, ..state });
        } else if starts_with_dash(a) {
        } else if state.input is None {
            lemma_scan_emit_push(args, x, i + 1, EmitScan { input: Some(a), ..state });
        } else {
        }
    }
}

/// A JSON flag read is one that stood among the arguments.
proof fn lemma_scan_emit_json(args: Seq<Seq<char>>, i: int, state: EmitScan)
    requires
        0 <= i,
        !state.json,
        scan_emit(args, i, state) matches Ok(s) && s.json,
    ensures
        args.contains("--json"@),
    decreases args.len() - i,
{
    if i < args.len() {
        let a = args[i];
        if a == "--target"@ || a == "--out"@ || a == "--option"@ {
            let v = args[i + 1];
            if a == "--target"@ {
                lemma_scan_emit_json(args, i + 2, EmitScan { target: Some(v), ..state });
            } else if a == "--out"@ {
                lemma_scan_emit_json(args, i + 2, EmitScan { output: Some(v), ..state });
            } else {
                lemma_scan_emit_json(args, i + 2, EmitScan { options: state.options.push(v), ..state });
            }
        } else if a == "--dry-run"@ {
            lemma_scan_emit_json(args, i + 1, EmitScan { dry_run: true, ..state });
        } else if a == "--json"@ {
            assert(args[i] == "--json"@);
        } else if starts_with_dash(a) {
        } else if state.input is None {
            lemma_scan_emit_json(args, i + 1, EmitScan { input: Some(a), ..state });
        } else {
        }
    }
}

/// `--json` asks `emit` for JSON output and nothing else: complete `emit`
/// arguments followed by `--json` make the same request with the JSON flag
/// set, and a request has the flag only where `--json` was given.
pub proof fn law_emit_json_flag(args: Seq<Seq<char>>)
    ensures
        emit_request(args) matches Ok(s) ==> emit_request(args.push("--json"@)) == Ok::<EmitScan, Seq<char>>(
            EmitScan { json: true, ..s },
        ),
        emit_request(args) matches Ok(s) && s.json ==> args.contains("--json"@),
{
    let start = EmitScan {
        input: None,
        target: None,
        output: None,
        dry_run: false,
        json: false,
        options: Seq::empty(),
    };
    if scan_emit(args, 0, start) is Ok {
        let s = scan_emit(args, 0, start)->Ok_0;
        lemma_scan_emit_push(args, "--json"@, 0, start);
        let longer = args.push("--json"@);
        reveal_strlit("--json");
        reveal_strlit("--target");
        reveal_strlit("--out");
        reveal_strlit("--option");
        reveal_strlit("--dry-run");
        assert(longer[args.len() as int] == "--json"@);
        assert("--json"@ != "--target"@);
        assert("--json"@ != "--out"@);
        assert("--json"@ != "--option"@);
        assert("--json"@ != "--dry-run"@);
        assert(scan_emit(longer, args.len() + 1int, EmitScan { json: true, ..s }) == Ok::<EmitScan, Seq<char>>(
            EmitScan { json: true, ..s },
        ));
        assert(scan_emit(longer, args.len() as int, s) == Ok::<EmitScan, Seq<char>>(EmitScan { json: true, ..s }));
        if s.json {
            lemma_scan_emit_json(args, 0, start);
        }
    }
}

} // verus!
