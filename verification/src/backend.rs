//! Backend identities, versions, option schemas and the errors a backend
//! request can end in.
use vstd::prelude::*;

use crate::check::{Capability, Diagnostic};
use crate::order::{NameMap, TextSet};
use crate::text::{chars_of, push_text};

verus! {

/// The pieces of `s` between dots, in order (as `str::split('.')` gives them).
pub open spec fn segments(s: Seq<char>) -> Seq<Seq<char>>
    decreases s.len(),
{
    if s.len() == 0 {
        seq![Seq::<char>::empty()]
    } else {
        let init = segments(s.drop_last());
        if s.last() == '.' {
            init.push(Seq::<char>::empty())
        } else {
            init.update(init.len() - 1, init.last().push(s.last()))
        }
    }
}

pub open spec fn is_lower_or_digit(c: char) -> bool {
    ('a' <= c && c <= 'z') || ('0' <= c && c <= '9')
}

/// A lowercase letter, a digit or a hyphen.
pub open spec fn segment_char(c: char) -> bool {
    is_lower_or_digit(c) || c == '-'
}

/// One to 63 of lowercase letters, digits and hyphens, starting and ending
/// with a letter or digit.
pub open spec fn valid_segment(seg: Seq<char>) -> bool {
    &&& 1 <= seg.len() <= 63
    &&& forall|i: int| 0 <= i < seg.len() ==> segment_char(#[trigger] seg[i])
    &&& is_lower_or_digit(seg[0])
    &&& is_lower_or_digit(seg.last())
}

/// At most 255 characters in at least two valid dot-separated segments.
pub open spec fn valid_target_id(s: Seq<char>) -> bool {
    &&& s.len() <= 255
    &&& segments(s).len() >= 2
    &&& forall|k: int| 0 <= k < segments(s).len() ==> valid_segment(#[trigger] segments(s)[k])
}

proof fn lemma_segments_nonempty(s: Seq<char>)
    ensures
        segments(s).len() >= 1,
    decreases s.len(),
{
    if s.len() > 0 {
        lemma_segments_nonempty(s.drop_last());
    }
}

/// Open, namespaced backend identity such as `org.example.language`.
#[derive(Clone, Debug, PartialEq, Eq, PartialOrd, Ord, Hash)]
pub struct TargetId(String);

impl View for TargetId {
    type V = Seq<char>;

    closed spec fn view(&self) -> Seq<char> {
        self.0@
    }
}

/// A text that is no valid target ID.
#[derive(Clone, Debug, PartialEq, Eq)]
pub struct TargetIdError {
    pub input: String,
}

impl TargetIdError {
    /// The error as text.
    pub fn message(&self) -> (result: String)
        ensures
            result@ == "invalid namespaced target ID "@ + debug_text(self.input@),
    {
        proof {
            reveal_strlit("");
        }
        let text = quoted_message("invalid namespaced target ID ", self.input.as_str(), "");
        assert(text@ =~= "invalid namespaced target ID "@ + debug_text(self.input@));
        text
    }
}

impl TargetId {
    pub closed spec fn wf(&self) -> bool {
        valid_target_id(self.0@)
    }

    /// Accepts `text` when it is a valid target ID.
    pub fn parse(text: &str) -> (result: Result<Self, TargetIdError>)
        ensures
            result is Ok <==> valid_target_id(text@),
            result matches Ok(id) ==> id@ == text@ && id.wf(),
            result matches Err(e) ==> e.input@ == text@,
    {
        let chars = chars_of(text);
        if chars.len() > 255 {
            return Err(TargetIdError { input: text.to_owned() });
        }
        let n = chars.len();
        let mut count: usize = 1;
        let mut done_ok = true;
        let mut seg_len: usize = 0;
        let mut charset_ok = true;
        let mut first = ' ';
        let mut last = ' ';
        let mut i: usize = 0;
        proof {
            assert(chars@.take(0) =~= Seq::<char>::empty());
        }
        while i < n
            invariant
                n == chars@.len(),
                n <= 255,
                chars@ == text@,
                i <= n,
                count == segments(chars@.take(i as int)).len(),
                count >= 1,
                count <= i + 1,
                done_ok <==> forall|k: int|
                    0 <= k < count - 1 ==> valid_segment(#[trigger] segments(chars@.take(i as int))[k]),
                seg_len == segments(chars@.take(i as int)).last().len(),
                seg_len <= i,
                seg_len > 0 ==> first == segments(chars@.take(i as int)).last()[0],
                seg_len > 0 ==> last == segments(chars@.take(i as int)).last().last(),
                charset_ok <==> forall|j: int|
                    0 <= j < seg_len ==> segment_char(
                        #[trigger] segments(chars@.take(i as int)).last()[j],
                    ),
            decreases n - i,
        {
            let c = chars[i];
            let ghost prefix = chars@.take(i as int);
            let ghost segs = segments(prefix);
            proof {
                lemma_segments_nonempty(prefix);
                assert(chars@.take(i + 1).drop_last() =~= prefix);
                assert(chars@.take(i + 1).last() == c);
            }
            let ghost next = segments(chars@.take(i + 1));
            if c == '.' {
                let current_ok = seg_len >= 1 && seg_len <= 63 && charset_ok && (('a' <= first && first
                    <= 'z') || ('0' <= first && first <= '9')) && (('a' <= last && last <= 'z') || (
                '0' <= last && last <= '9'));
                proof {
                    assert(next == segs.push(Seq::<char>::empty()));
                    assert(current_ok == valid_segment(segs.last()));
                    assert forall|k: int| 0 <= k < count implies next[k] == segs[k] by {}
                }
                done_ok = done_ok && current_ok;
                count = count + 1;
                seg_len = 0;
                charset_ok = true;
                proof {
                    assert(next.last() =~= Seq::<char>::empty());
                }
            } else {
                let is_ok = ('a' <= c && c <= 'z') || ('0' <= c && c <= '9') || c == '-';
                proof {
                    assert(next == segs.update(segs.len() - 1, segs.last().push(c)));
                    assert forall|k: int| 0 <= k < count - 1 implies next[k] == segs[k] by {}
                    assert(next.last() == segs.last().push(c));
                    assert forall|j: int| 0 <= j < seg_len implies next.last()[j] == segs.last()[j] by {}
                    assert(next.last()[seg_len as int] == c);
                    assert((charset_ok && is_ok) <==> forall|j: int|
                        0 <= j < seg_len + 1 ==> segment_char(#[trigger] next.last()[j])) by {
                        if charset_ok && is_ok {
                            assert forall|j: int| 0 <= j < seg_len + 1 implies segment_char(#[trigger] next.last()[j]) by {
                                if j < seg_len {
                                    assert(segment_char(segs.last()[j]));
                                }
                            }
                        }
                        if forall|j: int| 0 <= j < seg_len + 1 ==> segment_char(#[trigger] next.last()[j]) {
                            assert(segment_char(next.last()[seg_len as int]));
                            assert forall|j: int| 0 <= j < seg_len implies segment_char(#[trigger] segs.last()[j]) by {
                                assert(segment_char(next.last()[j]));
                            }
                        }
                    }
                }
                if seg_len == 0 {
                    first = c;
                }
                last = c;
                charset_ok = charset_ok && is_ok;
                seg_len = seg_len + 1;
            }
            i += 1;
        }
        proof {
            assert(chars@.take(n as int) =~= chars@);
        }
        let current_ok = seg_len >= 1 && seg_len <= 63 && charset_ok && (('a' <= first && first <= 'z')
            || ('0' <= first && first <= '9')) && (('a' <= last && last <= 'z') || ('0' <= last && last
            <= '9'));
        if done_ok && current_ok && count >= 2 {
            proof {
                let segs = segments(text@);
                assert forall|k: int| 0 <= k < segs.len() implies valid_segment(#[trigger] segs[k]) by {
                    if k < count - 1 {
                    } else {
                        assert(k == segs.len() - 1);
                    }
                }
            }
            Ok(TargetId(text.to_owned()))
        } else {
            proof {
                let segs = segments(text@);
                if count >= 2 && done_ok {
                    assert(!valid_segment(segs[segs.len() - 1]));
                }
            }
            Err(TargetIdError { input: text.to_owned() })
        }
    }

    pub fn as_str(&self) -> (result: &str)
        ensures
            result@ == self@,
    {
        self.0.as_str()
    }
}

/// A backend's own semantic version.
#[derive(Clone, Copy, Debug, PartialEq, Eq, PartialOrd, Ord)]
pub struct BackendVersion {
    pub major: u16,
    pub minor: u16,
    pub patch: u16,
}

impl BackendVersion {
    pub fn new(major: u16, minor: u16, patch: u16) -> (result: Self)
        ensures
            result == (BackendVersion { major, minor, patch }),
    {
        BackendVersion { major, minor, patch }
    }
}

/// A version of the portable IR.
#[derive(Clone, Copy, Debug, PartialEq, Eq, PartialOrd, Ord)]
pub struct IrVersion {
    pub major: u16,
    pub minor: u16,
    pub patch: u16,
}

impl IrVersion {
    pub fn new(major: u16, minor: u16, patch: u16) -> (result: Self)
        ensures
            result == (IrVersion { major, minor, patch }),
    {
        IrVersion { major, minor, patch }
    }
}

/// Whether `a` is no later than `b` by minor version, then patch.
pub open spec fn minor_patch_le(a: IrVersion, b: IrVersion) -> bool {
    a.minor < b.minor || (a.minor == b.minor && a.patch <= b.patch)
}

/// The IR versions a backend accepts: one major version, from a minimum to a
/// maximum.
#[derive(Clone, Copy, Debug, PartialEq, Eq)]
pub struct IrVersionRange {
    pub minimum: IrVersion,
    pub maximum: IrVersion,
}

impl IrVersionRange {
    /// The range that holds `version` alone.
    pub fn exact(version: IrVersion) -> (result: Self)
        ensures
            result == (IrVersionRange { minimum: version, maximum: version }),
    {
        IrVersionRange { minimum: version, maximum: version }
    }

    /// Whether `version` has the range's major version and lies between its
    /// minimum and maximum.
    pub fn contains(self, version: IrVersion) -> (result: bool)
        ensures
            result == (version.major == self.minimum.major && version.major == self.maximum.major
                && minor_patch_le(self.minimum, version) && minor_patch_le(version, self.maximum)),
    {
        version.major == self.minimum.major && version.major == self.maximum.major && version.minor
            >= self.minimum.minor && version.minor <= self.maximum.minor && (version.minor
            != self.minimum.minor || version.patch >= self.minimum.patch) && (version.minor
            != self.maximum.minor || version.patch <= self.maximum.patch)
    }
}

/// How a backend supports a capability.
#[derive(Clone, Debug, PartialEq, Eq)]
pub enum CapabilitySupport {
    Native,
    Helper { helper: String },
    Unsupported { reason: String },
}

/// The kind of value an option takes.
#[derive(Clone, Debug, PartialEq, Eq)]
pub enum OptionKind {
    Boolean,
    Integer,
    Text,
    Choice(TextSet),
}

/// One option that a backend accepts.
#[derive(Clone, Debug, PartialEq, Eq)]
pub struct OptionSpec {
    pub kind: OptionKind,
    pub required: bool,
    pub description: String,
}

/// The options a backend accepts, by name.
pub type OptionsSchema = NameMap<OptionSpec>;

/// A value given for an option.
#[derive(Clone, Debug, PartialEq, Eq)]
pub enum OptionValue {
    Boolean(bool),
    Integer(i64),
    Text(String),
}

/// The option values of one request, by name.
#[derive(Clone, Debug, PartialEq, Eq)]
pub struct BackendOptions(NameMap<OptionValue>);

impl Default for BackendOptions {
    fn default() -> (result: Self)
        ensures
            result.wf(),
            result@ == Map::<Seq<char>, OptionValue>::empty(),
    {
        BackendOptions(NameMap::empty())
    }
}

impl View for BackendOptions {
    type V = Map<Seq<char>, OptionValue>;

    closed spec fn view(&self) -> Map<Seq<char>, OptionValue> {
        self.0@
    }
}

impl BackendOptions {
    pub closed spec fn wf(&self) -> bool {
        self.0.wf()
    }

    /// The entries in increasing order of name.
    pub closed spec fn sequence(&self) -> Seq<(Seq<char>, OptionValue)> {
        self.0.sequence()
    }

    /// The entries are the options, each once, in strictly increasing order
    /// of name.
    pub proof fn lemma_view(&self)
        requires
            self.wf(),
        ensures
            crate::order::strictly_sorted(self.sequence().map_values(|e: (Seq<char>, OptionValue)| e.0)),
            forall|i: int|
                0 <= i < self.sequence().len() ==> #[trigger] self@.contains_key(self.sequence()[i].0)
                    && self@[self.sequence()[i].0] == self.sequence()[i].1,
            forall|k: Seq<char>|
                #[trigger] self@.contains_key(k) ==> exists|i: int|
                    0 <= i < self.sequence().len() && self.sequence()[i].0 == k,
    {
        self.0.lemma_view();
    }

    /// The options of `values`; a later value replaces an earlier one of the
    /// same name.
    pub fn new(values: Vec<(String, OptionValue)>) -> (result: Self)
        ensures
            result.wf(),
            result@ == crate::order::pairs_map(values@),
    {
        BackendOptions(NameMap::new(values))
    }

    pub fn get(&self, name: &str) -> (result: Option<&OptionValue>)
        requires
            self.wf(),
        ensures
            self@.contains_key(name@) ==> (result matches Some(v) && *v == self@[name@]),
            !self@.contains_key(name@) ==> result is None,
    {
        self.0.get(name)
    }

    /// The options in increasing order of name.
    pub fn iter(&self) -> (result: Vec<(&str, &OptionValue)>)
        ensures
            result@.len() == self.sequence().len(),
            forall|i: int|
                0 <= i < result@.len() ==> (#[trigger] result@[i]).0@ == self.sequence()[i].0
                    && *result@[i].1 == self.sequence()[i].1,
    {
        self.0.iter()
    }
}

/// Why a backend registry refused a request.
#[derive(Clone, Debug, PartialEq, Eq)]
pub enum RegistryError {
    DuplicateTarget(TargetId),
    UnknownTarget(TargetId),
}

/// Why a backend request failed.
#[derive(Clone, Debug, PartialEq, Eq)]
pub enum BackendError {
    InvalidOptions(Vec<String>),
    IncompatibleIr { actual: IrVersion, supported: IrVersionRange },
    Generation { message: String },
    UnsupportedCapabilities(Vec<Diagnostic>),
}

/// What `format!("{:?}", s)` gives for the text `s`: Rust's debug notation of
/// a string literal.
pub uninterp spec fn debug_text(s: Seq<char>) -> Seq<char>;

/// `<str as Debug>::fmt` through `format!`. Trusted: the result is
/// [`debug_text`] of the argument, a function of the text alone; nothing more
/// of the notation is stated.
#[verifier::external_body]
fn debug_quoted(s: &str) -> (result: String)
    ensures
        result@ == debug_text(s@),
{
    format!("{:?}", s)
}

/// `prefix`, the debug notation of `name`, then `suffix`.
pub(crate) fn quoted_message(prefix: &str, name: &str, suffix: &str) -> (result: String)
    ensures
        result@ == prefix@ + debug_text(name@) + suffix@,
{
    let mut out: Vec<char> = Vec::new();
    push_text(&mut out, prefix);
    let quoted = debug_quoted(name);
    push_text(&mut out, quoted.as_str());
    push_text(&mut out, suffix);
    crate::text::string_from_chars(&out)
}

pub open spec fn missing_message(name: Seq<char>) -> Seq<char> {
    "required option "@ + debug_text(name) + " is missing"@
}

pub open spec fn unknown_message(name: Seq<char>) -> Seq<char> {
    "unknown option "@ + debug_text(name) + ""@
}

pub open spec fn invalid_message(name: Seq<char>) -> Seq<char> {
    "option "@ + debug_text(name) + " has an invalid value"@
}

/// Whether `value` is of the kind `kind` asks for.
pub open spec fn value_fits(kind: OptionKind, value: OptionValue) -> bool {
    match (kind, value) {
        (OptionKind::Boolean, OptionValue::Boolean(_)) => true,
        (OptionKind::Integer, OptionValue::Integer(_)) => true,
        (OptionKind::Text, OptionValue::Text(_)) => true,
        (OptionKind::Choice(values), OptionValue::Text(text)) => values@.contains(text@),
        _ => false,
    }
}

/// One message for each required option of `schema`, in order, that
/// `options` lacks.
pub open spec fn missing_errors(
    schema: Seq<(Seq<char>, OptionSpec)>,
    options: Map<Seq<char>, OptionValue>,
) -> Seq<Seq<char>>
    decreases schema.len(),
{
    if schema.len() == 0 {
        Seq::empty()
    } else {
        let (name, spec) = schema.last();
        missing_errors(schema.drop_last(), options) + if spec.required && !options.contains_key(name) {
            seq![missing_message(name)]
        } else {
            Seq::empty()
        }
    }
}

/// One message for each option of `options`, in order, that `schema` does
/// not know or whose value is of the wrong kind.
pub open spec fn value_errors(
    options: Seq<(Seq<char>, OptionValue)>,
    schema: Map<Seq<char>, OptionSpec>,
) -> Seq<Seq<char>>
    decreases options.len(),
{
    if options.len() == 0 {
        Seq::empty()
    } else {
        let (name, value) = options.last();
        value_errors(options.drop_last(), schema) + if !schema.contains_key(name) {
            seq![unknown_message(name)]
        } else if !value_fits(schema[name].kind, value) {
            seq![invalid_message(name)]
        } else {
            Seq::empty()
        }
    }
}

pub open spec fn strings_view(v: Seq<String>) -> Seq<Seq<char>> {
    v.map_values(|s: String| s@)
}

/// Checks `options` against `schema`: first the missing required options in
/// order of name, then the unknown options and the options whose value is of
/// the wrong kind, in order of name.
pub fn validate_options(schema: &OptionsSchema, options: &BackendOptions) -> (result: Vec<String>)
    requires
        schema.wf(),
        options.wf(),
    ensures
        strings_view(result@) == missing_errors(schema.sequence(), options@) + value_errors(
            options.sequence(),
            schema@,
        ),
{
    let mut errors: Vec<String> = Vec::new();
    let specs = schema.iter();
    let mut i: usize = 0;
    while i < specs.len()
        invariant
            options.wf(),
            i <= specs@.len(),
            specs@.len() == schema.sequence().len(),
            forall|k: int|
                0 <= k < specs@.len() ==> (#[trigger] specs@[k]).0@ == schema.sequence()[k].0
                    && *specs@[k].1 == schema.sequence()[k].1,
            strings_view(errors@) == missing_errors(schema.sequence().take(i as int), options@),
        decreases specs.len() - i,
    {
        let (name, spec) = specs[i];
        let ghost before = errors@;
        proof {
            assert(schema.sequence().take(i + 1).drop_last() =~= schema.sequence().take(i as int));
            assert(schema.sequence().take(i + 1).last() == schema.sequence()[i as int]);
        }
        if spec.required && options.get(name).is_none() {
            errors.push(quoted_message("required option ", name, " is missing"));
            assert(strings_view(errors@) =~= strings_view(before).push(missing_message(name@)));
        } else {
            assert(strings_view(errors@) =~= strings_view(before) + Seq::<Seq<char>>::empty());
        }
        i += 1;
    }
    assert(schema.sequence().take(i as int) =~= schema.sequence());
    let ghost missing = strings_view(errors@);
    let values = options.iter();
    let mut j: usize = 0;
    assert(options.sequence().take(0) =~= Seq::<(Seq<char>, OptionValue)>::empty());
    assert(missing + value_errors(options.sequence().take(0), schema@) =~= missing);
    while j < values.len()
        invariant
            schema.wf(),
            j <= values@.len(),
            values@.len() == options.sequence().len(),
            forall|k: int|
                0 <= k < values@.len() ==> (#[trigger] values@[k]).0@ == options.sequence()[k].0
                    && *values@[k].1 == options.sequence()[k].1,
            strings_view(errors@) == missing + value_errors(options.sequence().take(j as int), schema@),
        decreases values.len() - j,
    {
        let (name, value) = values[j];
        let ghost before = errors@;
        let ghost prefix = options.sequence().take(j as int);
        proof {
            assert(options.sequence().take(j + 1).drop_last() =~= prefix);
            assert(options.sequence().take(j + 1).last() == options.sequence()[j as int]);
        }
        match schema.get(name) {
            None => {
                errors.push(quoted_message("unknown option ", name, ""));
                assert(strings_view(errors@) =~= strings_view(before).push(unknown_message(name@)));
                assert(missing + value_errors(options.sequence().take(j + 1), schema@) =~= missing
                    + value_errors(prefix, schema@) + seq![unknown_message(name@)]);
            },
            Some(spec) => {
                let fits = match (&spec.kind, value) {
                    (OptionKind::Boolean, OptionValue::Boolean(_)) => true,
                    (OptionKind::Integer, OptionValue::Integer(_)) => true,
                    (OptionKind::Text, OptionValue::Text(_)) => true,
                    (OptionKind::Choice(choices), OptionValue::Text(text)) => choices.contains(
                        text.as_str(),
                    ),
                    _ => false,
                };
                if !fits {
                    errors.push(quoted_message("option ", name, " has an invalid value"));
                    assert(strings_view(errors@) =~= strings_view(before).push(invalid_message(name@)));
                    assert(missing + value_errors(options.sequence().take(j + 1), schema@) =~= missing
                        + value_errors(prefix, schema@) + seq![invalid_message(name@)]);
                } else {
                    assert(missing + value_errors(options.sequence().take(j + 1), schema@) =~= missing
                        + value_errors(prefix, schema@));
                }
            },
        }
        j += 1;
    }
    assert(options.sequence().take(j as int) =~= options.sequence());
    errors
}

pub open spec fn backend_error_is_invalid_options(e: BackendError, errors: Seq<Seq<char>>) -> bool {
    e matches BackendError::InvalidOptions(messages) && strings_view(messages@) == errors
}

/// Checks a request against what a backend accepts: the IR version first,
/// then the options.
pub fn validate_request(
    supported: IrVersionRange,
    version: IrVersion,
    schema: &OptionsSchema,
    options: &BackendOptions,
) -> (result: Result<(), BackendError>)
    requires
        schema.wf(),
        options.wf(),
    ensures
        !(version.major == supported.minimum.major && version.major == supported.maximum.major
            && minor_patch_le(supported.minimum, version) && minor_patch_le(version, supported.maximum))
            ==> result == Err::<(), BackendError>(BackendError::IncompatibleIr { actual: version, supported }),
        (version.major == supported.minimum.major && version.major == supported.maximum.major
            && minor_patch_le(supported.minimum, version) && minor_patch_le(version, supported.maximum))
            ==> {
            let errors = missing_errors(schema.sequence(), options@) + value_errors(options.sequence(), schema@);
            &&& errors.len() == 0 ==> result is Ok
            &&& errors.len() > 0 ==> (result matches Err(e) && backend_error_is_invalid_options(e, errors))
        },
{
    if !supported.contains(version) {
        return Err(BackendError::IncompatibleIr { actual: version, supported });
    }
    let errors = validate_options(schema, options);
    if errors.len() > 0 {
        return Err(BackendError::InvalidOptions(errors));
    }
    Ok(())
}

/// Backends by target.
pub struct BackendRegistry<B> {
    backends: NameMap<B>,
}

impl<B> View for BackendRegistry<B> {
    type V = Map<Seq<char>, B>;

    closed spec fn view(&self) -> Map<Seq<char>, B> {
        self.backends@
    }
}

pub open spec fn not_registered_message(target: Seq<char>) -> Seq<char> {
    "backend "@ + target + " is not registered"@
}

impl<B> BackendRegistry<B> {
    pub closed spec fn wf(&self) -> bool {
        self.backends.wf()
    }

    /// The targets in increasing order.
    pub closed spec fn targets_in_order(&self) -> Seq<Seq<char>> {
        self.backends.sequence().map_values(|e: (Seq<char>, B)| e.0)
    }

    /// A registry without backends.
    pub fn new() -> (result: Self)
        ensures
            result.wf(),
            result@ == Map::<Seq<char>, B>::empty(),
    {
        BackendRegistry { backends: NameMap::empty() }
    }

    /// Adds `backend` for `target`; a second backend for one target is
    /// refused and the registry stays as it was.
    pub fn register(&mut self, target: TargetId, backend: B) -> (result: Result<(), RegistryError>)
        requires
            old(self).wf(),
        ensures
            final(self).wf(),
            old(self)@.contains_key(target@) ==> (result matches Err(RegistryError::DuplicateTarget(t))
                && t@ == target@ && final(self)@ == old(self)@),
            !old(self)@.contains_key(target@) ==> result is Ok && final(self)@ == old(self)@.insert(
                target@,
                backend,
            ),
    {
        if self.backends.get(target.as_str()).is_some() {
            return Err(RegistryError::DuplicateTarget(target));
        }
        self.backends.insert(target.0, backend);
        Ok(())
    }

    /// The backend registered for `target`.
    pub fn get(&self, target: &TargetId) -> (result: Option<&B>)
        requires
            self.wf(),
        ensures
            self@.contains_key(target@) ==> (result matches Some(b) && *b == self@[target@]),
            !self@.contains_key(target@) ==> result is None,
    {
        self.backends.get(target.as_str())
    }

    /// The backend registered for `target`, or the generation error that
    /// names the missing target.
    pub fn backend_for(&self, target: &TargetId) -> (result: Result<&B, BackendError>)
        requires
            self.wf(),
        ensures
            self@.contains_key(target@) ==> (result matches Ok(b) && *b == self@[target@]),
            !self@.contains_key(target@) ==> (result matches Err(BackendError::Generation { message })
                && message@ == not_registered_message(target@)),
    {
        match self.backends.get(target.as_str()) {
            Some(backend) => Ok(backend),
            None => {
                let mut out: Vec<char> = Vec::new();
                push_text(&mut out, "backend ");
                push_text(&mut out, target.as_str());
                push_text(&mut out, " is not registered");
                Err(BackendError::Generation { message: crate::text::string_from_chars(&out) })
            },
        }
    }

    /// The registered targets in increasing order.
    pub fn targets(&self) -> (result: Vec<TargetId>)
        ensures
            result@.len() == self.targets_in_order().len(),
            forall|i: int| 0 <= i < result@.len() ==> (#[trigger] result@[i])@ == self.targets_in_order()[i],
    {
        let entries = self.backends.iter();
        let mut result: Vec<TargetId> = Vec::new();
        let mut i: usize = 0;
        while i < entries.len()
            invariant
                i <= entries@.len(),
                entries@.len() == self.backends.sequence().len(),
                forall|k: int|
                    0 <= k < entries@.len() ==> (#[trigger] entries@[k]).0@ == self.backends.sequence()[k].0,
                result@.len() == i,
                forall|k: int| 0 <= k < i ==> (#[trigger] result@[k])@ == self.targets_in_order()[k],
            decreases entries.len() - i,
        {
            let name = entries[i].0;
            result.push(TargetId(name.to_owned()));
            i += 1;
        }
        result
    }
}


/// The name of `capability`, as its debug notation writes it.
pub open spec fn capability_text(capability: Capability) -> Seq<char> {
    match capability {
        Capability::Bytes => "Bytes"@,
        Capability::CheckedIntegerArithmetic => "CheckedIntegerArithmetic"@,
        Capability::ContractDispatch => "ContractDispatch"@,
        Capability::F64 => "F64"@,
        Capability::ImmutableList => "ImmutableList"@,
        Capability::Option => "Option"@,
        Capability::Result => "Result"@,
        Capability::UnicodeScalar => "UnicodeScalar"@,
        Capability::WrappingIntegerArithmetic => "WrappingIntegerArithmetic"@,
        Capability::BoundedIteration => "BoundedIteration"@,
    }
}

/// The name of `capability`.
pub fn capability_name(capability: Capability) -> (result: &'static str)
    ensures
        result@ == capability_text(capability),
{
    match capability {
        Capability::Bytes => "Bytes",
        Capability::CheckedIntegerArithmetic => "CheckedIntegerArithmetic",
        Capability::ContractDispatch => "ContractDispatch",
        Capability::F64 => "F64",
        Capability::ImmutableList => "ImmutableList",
        Capability::Option => "Option",
        Capability::Result => "Result",
        Capability::UnicodeScalar => "UnicodeScalar",
        Capability::WrappingIntegerArithmetic => "WrappingIntegerArithmetic",
        Capability::BoundedIteration => "BoundedIteration",
    }
}

/// The message that refuses `capability` on the backend `target`.
pub open spec fn unsupported_message(target: Seq<char>, capability: Capability, reason: Seq<char>) -> Seq<char> {
    "backend "@ + target + " does not support "@ + capability_text(capability) + ": "@ + reason
}

/// The refusals, in order, of the capabilities that the backend `target`
/// does not support; `support[k]` is its support of `capabilities[k]`.
pub open spec fn unsupported_messages(
    capabilities: Seq<Capability>,
    support: Seq<CapabilitySupport>,
    target: Seq<char>,
) -> Seq<Seq<char>>
    decreases capabilities.len(),
{
    if capabilities.len() == 0 || support.len() == 0 {
        Seq::empty()
    } else {
        let init = unsupported_messages(capabilities.drop_last(), support.drop_last(), target);
        match support.last() {
            CapabilitySupport::Unsupported { reason } => init.push(
                unsupported_message(target, capabilities.last(), reason@),
            ),
            _ => init,
        }
    }
}

/// Checks a program's capabilities against a backend before generation: one
/// `UnsupportedCapability` diagnostic for each capability, in order, that
/// the backend `target` does not support, with the backend's reason.
pub fn preflight(capabilities: &Vec<Capability>, support: &Vec<CapabilitySupport>, target: &TargetId) -> (result:
    Vec<Diagnostic>)
    requires
        capabilities@.len() == support@.len(),
    ensures
        result@.len() == unsupported_messages(capabilities@, support@, target@).len(),
        forall|k: int|
            0 <= k < result@.len() ==> (#[trigger] result@[k]).code@ == "UnsupportedCapability"@
                && result@[k].message@ == unsupported_messages(capabilities@, support@, target@)[k],
{
    let mut diagnostics: Vec<Diagnostic> = Vec::new();
    let mut i: usize = 0;
    while i < capabilities.len()
        invariant
            i <= capabilities@.len(),
            capabilities@.len() == support@.len(),
            diagnostics@.len() == unsupported_messages(
                capabilities@.take(i as int),
                support@.take(i as int),
                target@,
            ).len(),
            forall|k: int|
                0 <= k < diagnostics@.len() ==> (#[trigger] diagnostics@[k]).code@ == "UnsupportedCapability"@
                    && diagnostics@[k].message@ == unsupported_messages(
                    capabilities@.take(i as int),
                    support@.take(i as int),
                    target@,
                )[k],
        decreases capabilities.len() - i,
    {
        let ghost before = diagnostics@;
        let ghost caps = capabilities@.take(i + 1);
        let ghost sup = support@.take(i + 1);
        proof {
            assert(caps.drop_last() =~= capabilities@.take(i as int));
            assert(sup.drop_last() =~= support@.take(i as int));
            assert(caps.last() == capabilities@[i as int]);
            assert(sup.last() == support@[i as int]);
        }
        match &support[i] {
            CapabilitySupport::Unsupported { reason } => {
                let mut message: Vec<char> = Vec::new();
                push_text(&mut message, "backend ");
                push_text(&mut message, target.as_str());
                push_text(&mut message, " does not support ");
                push_text(&mut message, capability_name(capabilities[i]));
                push_text(&mut message, ": ");
                push_text(&mut message, reason.as_str());
                diagnostics.push(
                    Diagnostic { code: "UnsupportedCapability", message: crate::text::string_from_chars(&message) },
                );
                proof {
                    let u = unsupported_messages(caps, sup, target@);
                    assert(u == unsupported_messages(capabilities@.take(i as int), support@.take(i as int), target@).push(
                        unsupported_message(target@, capabilities@[i as int], reason@),
                    ));
                    assert(message@ =~= unsupported_message(target@, capabilities@[i as int], reason@));
                    assert forall|k: int| 0 <= k < diagnostics@.len() implies (#[trigger] diagnostics@[k]).code@
                        == "UnsupportedCapability"@ && diagnostics@[k].message@ == u[k] by {
                        if k < before.len() {
                            assert(diagnostics@[k] == before[k]);
                        }
                    }
                }
            },
            _ => {},
        }
        i += 1;
    }
    proof {
        assert(capabilities@.take(i as int) =~= capabilities@);
        assert(support@.take(i as int) =~= support@);
    }
    diagnostics
}

/// Whether `diagnostics` are the refusals of the capabilities that the
/// backend `target` does not support.
pub open spec fn refuses_unsupported(
    diagnostics: Seq<Diagnostic>,
    capabilities: Seq<Capability>,
    support: Seq<CapabilitySupport>,
    target: Seq<char>,
) -> bool {
    &&& diagnostics.len() == unsupported_messages(capabilities, support, target).len()
    &&& forall|k: int|
        0 <= k < diagnostics.len() ==> (#[trigger] diagnostics[k]).code@ == "UnsupportedCapability"@
            && diagnostics[k].message@ == unsupported_messages(capabilities, support, target)[k]
}

/// Checks a whole request against a backend, in this order: the IR version,
/// the options, then every capability the program needs (`support[k]` is
/// the backend's support of `capabilities[k]`).
pub fn validate_backend_request(
    supported: IrVersionRange,
    version: IrVersion,
    schema: &OptionsSchema,
    options: &BackendOptions,
    capabilities: &Vec<Capability>,
    support: &Vec<CapabilitySupport>,
    target: &TargetId,
) -> (result: Result<(), BackendError>)
    requires
        schema.wf(),
        options.wf(),
        capabilities@.len() == support@.len(),
    ensures
        !(version.major == supported.minimum.major && version.major == supported.maximum.major
            && minor_patch_le(supported.minimum, version) && minor_patch_le(version, supported.maximum))
            ==> result == Err::<(), BackendError>(BackendError::IncompatibleIr { actual: version, supported }),
        (version.major == supported.minimum.major && version.major == supported.maximum.major
            && minor_patch_le(supported.minimum, version) && minor_patch_le(version, supported.maximum))
            ==> {
            let errors = missing_errors(schema.sequence(), options@) + value_errors(options.sequence(), schema@);
            let refusals = unsupported_messages(capabilities@, support@, target@);
            &&& errors.len() > 0 ==> (result matches Err(e) && backend_error_is_invalid_options(e, errors))
            &&& errors.len() == 0 && refusals.len() > 0 ==> (result matches Err(
                BackendError::UnsupportedCapabilities(ds),
            ) && refuses_unsupported(ds@, capabilities@, support@, target@))
            &&& errors.len() == 0 && refusals.len() == 0 ==> result is Ok
        },
{
    match validate_request(supported, version, schema, options) {
        Err(e) => Err(e),
        Ok(()) => {
            let diagnostics = preflight(capabilities, support, target);
            if diagnostics.len() > 0 {
                Err(BackendError::UnsupportedCapabilities(diagnostics))
            } else {
                Ok(())
            }
        },
    }
}


/// Each supplied option whose value is not of the kind its schema entry
/// asks for is reported as having an invalid value: a text or a choice
/// option takes only text, a boolean option only a boolean, an integer
/// option only an integer.
pub proof fn law_values_must_fit_their_kind(
    options: Seq<(Seq<char>, OptionValue)>,
    schema: Map<Seq<char>, OptionSpec>,
    k: int,
)
    requires
        0 <= k < options.len(),
        schema.contains_key(options[k].0),
        match schema[options[k].0].kind {
            OptionKind::Text => !(options[k].1 is Text),
            OptionKind::Choice(_) => !(options[k].1 is Text),
            OptionKind::Boolean => !(options[k].1 is Boolean),
            OptionKind::Integer => !(options[k].1 is Integer),
        },
    ensures
        value_errors(options, schema).contains(invalid_message(options[k].0)),
    decreases options.len(),
{
    let last = options.len() - 1;
    if k == last {
        let tail = value_errors(options, schema);
        let before = value_errors(options.drop_last(), schema);
        assert(tail == before + seq![invalid_message(options[k].0)]);
        assert(tail[before.len() as int] == invalid_message(options[k].0));
    } else {
        law_values_must_fit_their_kind(options.drop_last(), schema, k);
        let before = value_errors(options.drop_last(), schema);
        let j = choose|j: int| 0 <= j < before.len() && before[j] == invalid_message(options[k].0);
        let (name, value) = options.last();
        let extra = if !schema.contains_key(name) {
            seq![unknown_message(name)]
        } else if !value_fits(schema[name].kind, value) {
            seq![invalid_message(name)]
        } else {
            Seq::empty()
        };
        assert(value_errors(options, schema) == before + extra);
        assert((before + extra)[j] == before[j]);
    }
}

} // verus!
