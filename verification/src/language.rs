//! Target-language fragments, files, file groups and packages: the layer
//! between translated target syntax and rendered output files.
use vstd::prelude::*;

use crate::document::{
    concat_view, docs_view, interleave, lemma_docs_view, lemma_docs_view_push, normal, DocView,
    Document,
};
use crate::order::{
    compare_chars, compare_text, compares_as, lemma_insert_to_set, lemma_text_less_asymmetric,
    lemma_text_less_irreflexive, lemma_text_less_total, lemma_text_less_transitive, text_less, Comparison, TextSet,
};
use crate::backend::{debug_text, quoted_message};
use crate::text::chars_of;

verus! {

/// Whether `c` is a lowercase ASCII letter or an ASCII digit.
pub open spec fn is_lower_alnum(c: char) -> bool {
    ('a' <= c && c <= 'z') || ('0' <= c && c <= '9')
}

/// The rule for file group identities: non-empty; lowercase ASCII letters,
/// digits, `-` and `.` only; neither first nor last character is `-` or `.`.
pub open spec fn valid_group_id(s: Seq<char>) -> bool {
    &&& s.len() > 0
    &&& forall|i: int| 0 <= i < s.len() ==> is_lower_alnum(#[trigger] s[i]) || s[i] == '-' || s[i] == '.'
    &&& s[0] != '-' && s[0] != '.'
    &&& s.last() != '-' && s.last() != '.'
}

/// The rule for import group names: non-empty; lowercase ASCII letters,
/// digits and `-` only.
pub open spec fn valid_import_group_name(s: Seq<char>) -> bool {
    &&& s.len() > 0
    &&& forall|i: int| 0 <= i < s.len() ==> is_lower_alnum(#[trigger] s[i]) || s[i] == '-'
}

fn lower_alnum(c: char) -> (result: bool)
    ensures
        result == is_lower_alnum(c),
{
    ('a' <= c && c <= 'z') || ('0' <= c && c <= '9')
}

#[derive(Clone, Debug, PartialEq, Eq)]
pub enum LanguagePackageError {
    InvalidGroupId(String),
    InvalidImportGroup(String),
    EmptyGroup(FileGroupId),
    DuplicateGroup(FileGroupId),
    DuplicatePath { path: String, first_group: FileGroupId, second_group: FileGroupId },
    ImportRendering(String),
    DocumentRendering(String),
}

/// Stable identity for a group of related generated files.
#[derive(Clone, Debug, PartialEq, Eq, PartialOrd, Ord, Hash)]
pub struct FileGroupId(String);

impl View for FileGroupId {
    type V = Seq<char>;

    closed spec fn view(&self) -> Seq<char> {
        self.0@
    }
}

impl FileGroupId {
    pub fn parse(value: &str) -> (result: Result<Self, LanguagePackageError>)
        ensures
            result is Ok <==> valid_group_id(value@),
            result matches Ok(id) ==> id@ == value@,
            result matches Err(e) ==> e matches LanguagePackageError::InvalidGroupId(v) && v@
                == value@,
    {
        let chars = chars_of(value);
        let n = chars.len();
        let mut valid = n > 0;
        let mut i: usize = 0;
        while i < n
            invariant
                chars@ == value@,
                n == chars.len(),
                i <= n,
                valid == (n > 0 && forall|j: int|
                    0 <= j < i ==> is_lower_alnum(#[trigger] chars@[j]) || chars@[j] == '-'
                        || chars@[j] == '.'),
            decreases n - i,
        {
            let c = chars[i];
            if !(lower_alnum(c) || c == '-' || c == '.') {
                valid = false;
            }
            i += 1;
        }
        if valid && (chars[0] == '-' || chars[0] == '.' || chars[n - 1] == '-' || chars[n - 1]
            == '.') {
            valid = false;
        }
        if valid {
            Ok(FileGroupId(value.to_owned()))
        } else {
            Err(LanguagePackageError::InvalidGroupId(value.to_owned()))
        }
    }

    pub fn as_str(&self) -> (result: &str)
        ensures
            result@ == self@,
    {
        self.0.as_str()
    }

    /// An equal identity.
    pub fn duplicate(&self) -> (result: Self)
        ensures
            result@ == self@,
    {
        FileGroupId(self.0.clone())
    }
}

/// Why a file exists in a generated package.
#[derive(Clone, Copy, Debug, PartialEq, Eq, PartialOrd, Ord, Hash)]
pub enum FileRole {
    Source,
    Runtime,
    Test,
    Conformance,
    NegativeTest,
    Metadata,
    Documentation,
    Asset,
}

/// Roles whose contents must be assembled from closed target-language units.
#[derive(Clone, Copy, Debug, PartialEq, Eq, PartialOrd, Ord, Hash)]
pub enum SourceFileRole {
    Source,
    Runtime,
    Test,
    Conformance,
    NegativeTest,
}

/// Roles allowed to bypass target-language rendering because they are not
/// generated source code.
#[derive(Clone, Copy, Debug, PartialEq, Eq, PartialOrd, Ord, Hash)]
pub enum TextFileRole {
    Metadata,
    Documentation,
    Asset,
}

pub open spec fn source_role(role: SourceFileRole) -> FileRole {
    match role {
        SourceFileRole::Source => FileRole::Source,
        SourceFileRole::Runtime => FileRole::Runtime,
        SourceFileRole::Test => FileRole::Test,
        SourceFileRole::Conformance => FileRole::Conformance,
        SourceFileRole::NegativeTest => FileRole::NegativeTest,
    }
}

pub open spec fn text_role(role: TextFileRole) -> FileRole {
    match role {
        TextFileRole::Metadata => FileRole::Metadata,
        TextFileRole::Documentation => FileRole::Documentation,
        TextFileRole::Asset => FileRole::Asset,
    }
}

/// Source roles and text roles never meet: no file role is both.
pub proof fn law_roles_disjoint(source: SourceFileRole, text: TextFileRole)
    ensures
        source_role(source) != text_role(text),
{
}

impl From<SourceFileRole> for FileRole {
    fn from(role: SourceFileRole) -> (result: Self) {
        match role {
            SourceFileRole::Source => FileRole::Source,
            SourceFileRole::Runtime => FileRole::Runtime,
            SourceFileRole::Test => FileRole::Test,
            SourceFileRole::Conformance => FileRole::Conformance,
            SourceFileRole::NegativeTest => FileRole::NegativeTest,
        }
    }
}

impl vstd::std_specs::convert::FromSpecImpl<SourceFileRole> for FileRole {
    open spec fn obeys_from_spec() -> bool {
        true
    }

    open spec fn from_spec(role: SourceFileRole) -> FileRole {
        source_role(role)
    }
}

impl From<TextFileRole> for FileRole {
    fn from(role: TextFileRole) -> (result: Self) {
        match role {
            TextFileRole::Metadata => FileRole::Metadata,
            TextFileRole::Documentation => FileRole::Documentation,
            TextFileRole::Asset => FileRole::Asset,
        }
    }
}

impl vstd::std_specs::convert::FromSpecImpl<TextFileRole> for FileRole {
    open spec fn obeys_from_spec() -> bool {
        true
    }

    open spec fn from_spec(role: TextFileRole) -> FileRole {
        text_role(role)
    }
}

/// Target-owned ordering bucket for imports, such as future, standard-library,
/// package, and relative imports.
#[derive(Clone, Debug, PartialEq, Eq, PartialOrd, Ord, Hash)]
pub struct ImportGroup {
    order: u16,
    name: String,
}

impl View for ImportGroup {
    type V = (u16, Seq<char>);

    closed spec fn view(&self) -> (u16, Seq<char>) {
        (self.order, self.name@)
    }
}

impl ImportGroup {
    pub fn new(order: u16, name: &str) -> (result: Result<Self, LanguagePackageError>)
        ensures
            result is Ok <==> valid_import_group_name(name@),
            result matches Ok(group) ==> group@ == (order, name@),
            result matches Err(e) ==> e matches LanguagePackageError::InvalidImportGroup(v)
                && v@ == name@,
    {
        let chars = chars_of(name);
        let mut valid = chars.len() > 0;
        let mut i: usize = 0;
        while i < chars.len()
            invariant
                chars@ == name@,
                i <= chars.len(),
                valid == (chars.len() > 0 && forall|j: int|
                    0 <= j < i ==> is_lower_alnum(#[trigger] chars@[j]) || chars@[j] == '-'),
            decreases chars.len() - i,
        {
            let c = chars[i];
            if !(lower_alnum(c) || c == '-') {
                valid = false;
            }
            i += 1;
        }
        if valid {
            Ok(ImportGroup { order, name: name.to_owned() })
        } else {
            Err(LanguagePackageError::InvalidImportGroup(name.to_owned()))
        }
    }

    pub fn order(&self) -> (result: u16)
        ensures
            result == self@.0,
    {
        self.order
    }

    pub fn name(&self) -> (result: &str)
        ensures
            result@ == self@.1,
    {
        self.name.as_str()
    }

    pub fn duplicate(&self) -> (result: Self)
        ensures
            result@ == self@,
    {
        ImportGroup { order: self.order, name: self.name.clone() }
    }
}

/// An import requirement: its group's order and name, and the import itself.
pub type ImportKey = (u16, Seq<char>, Seq<char>);

/// The order of import requirements: by group order, then group name, then
/// import.
pub open spec fn key_less(a: ImportKey, b: ImportKey) -> bool {
    a.0 < b.0 || (a.0 == b.0 && (text_less(a.1, b.1) || (a.1 == b.1 && text_less(a.2, b.2))))
}

pub proof fn lemma_key_less_irreflexive(a: ImportKey)
    ensures
        !key_less(a, a),
{
    lemma_text_less_irreflexive(a.1);
    lemma_text_less_irreflexive(a.2);
}

pub proof fn lemma_key_less_transitive(a: ImportKey, b: ImportKey, c: ImportKey)
    requires
        key_less(a, b),
        key_less(b, c),
    ensures
        key_less(a, c),
{
    lemma_text_less_irreflexive(a.1);
    lemma_text_less_irreflexive(b.1);
    if a.0 == b.0 && b.0 == c.0 {
        if text_less(a.1, b.1) && text_less(b.1, c.1) {
            lemma_text_less_transitive(a.1, b.1, c.1);
        }
        if a.1 == b.1 && b.1 == c.1 {
            lemma_text_less_transitive(a.2, b.2, c.2);
        }
    }
}

/// Any two import keys are ordered one way or the other, or are equal.
pub proof fn lemma_key_less_total(a: ImportKey, b: ImportKey)
    ensures
        key_less(a, b) || key_less(b, a) || a == b,
{
    lemma_text_less_total(a.1, b.1);
    lemma_text_less_total(a.2, b.2);
}

pub open spec fn keys_sorted(keys: Seq<ImportKey>) -> bool {
    forall|i: int, j: int| 0 <= i < j < keys.len() ==> key_less(#[trigger] keys[i], #[trigger] keys[j])
}

pub open spec fn entry_key(entry: (ImportGroup, String)) -> ImportKey {
    (entry.0@.0, entry.0@.1, entry.1@)
}

pub open spec fn entry_keys(entries: Seq<(ImportGroup, String)>) -> Seq<ImportKey> {
    entries.map_values(|e: (ImportGroup, String)| entry_key(e))
}

fn compare_entry(entry: &(ImportGroup, String), group: &ImportGroup, import: &str) -> (result:
    Comparison)
    ensures
        match result {
            Comparison::Less => key_less(entry_key(*entry), (group@.0, group@.1, import@)),
            Comparison::Equal => entry_key(*entry) == (group@.0, group@.1, import@),
            Comparison::Greater => key_less((group@.0, group@.1, import@), entry_key(*entry)),
        },
{
    if entry.0.order < group.order {
        return Comparison::Less;
    }
    if entry.0.order > group.order {
        return Comparison::Greater;
    }
    match compare_text(entry.0.name.as_str(), group.name.as_str()) {
        Comparison::Less => Comparison::Less,
        Comparison::Greater => Comparison::Greater,
        Comparison::Equal => compare_text(entry.1.as_str(), import),
    }
}

/// Sorted, deduplicated import requirements collected during target lowering.
#[derive(Clone, Debug, PartialEq, Eq, Default)]
pub struct ImportSet {
    entries: Vec<(ImportGroup, String)>,
}

impl View for ImportSet {
    type V = Set<ImportKey>;

    closed spec fn view(&self) -> Set<ImportKey> {
        entry_keys(self.entries@).to_set()
    }
}

/// Groups as they come out of [`ImportSet::groups`], flattened back into
/// requirements.
pub open spec fn flatten_groups(groups: Seq<((u16, Seq<char>), Seq<Seq<char>>)>) -> Seq<ImportKey>
    decreases groups.len(),
{
    if groups.len() == 0 {
        Seq::empty()
    } else {
        let last = groups.last();
        flatten_groups(groups.drop_last()) + last.1.map_values(
            |import: Seq<char>| (last.0.0, last.0.1, import),
        )
    }
}

/// The order of import groups: by order, then by name.
pub open spec fn group_key_less(a: (u16, Seq<char>), b: (u16, Seq<char>)) -> bool {
    a.0 < b.0 || (a.0 == b.0 && text_less(a.1, b.1))
}

proof fn lemma_keys_sorted_split(a: Seq<ImportKey>, b: Seq<ImportKey>)
    requires
        keys_sorted(a + b),
    ensures
        keys_sorted(a),
        keys_sorted(b),
        forall|i: int, j: int| 0 <= i < a.len() && 0 <= j < b.len() ==> key_less(#[trigger] a[i], #[trigger] b[j]),
{
    assert forall|i: int, j: int| 0 <= i < j < a.len() implies key_less(#[trigger] a[i], #[trigger] a[j]) by {
        assert((a + b)[i] == a[i] && (a + b)[j] == a[j]);
    }
    assert forall|i: int, j: int| 0 <= i < j < b.len() implies key_less(#[trigger] b[i], #[trigger] b[j]) by {
        assert((a + b)[a.len() + i] == b[i] && (a + b)[a.len() + j] == b[j]);
    }
    assert forall|i: int, j: int| 0 <= i < a.len() && 0 <= j < b.len() implies key_less(#[trigger] a[i], #[trigger] b[j]) by {
        assert((a + b)[i] == a[i] && (a + b)[a.len() + j] == b[j]);
    }
}

/// Groups whose requirements, read in order, are strictly increasing, each
/// group non-empty and no two neighbours alike, come in strictly increasing
/// order of group, and each group's imports are strictly increasing.
pub proof fn law_groups_ascending(groups: Seq<((u16, Seq<char>), Seq<Seq<char>>)>)
    requires
        keys_sorted(flatten_groups(groups)),
        forall|i: int| 0 <= i < groups.len() ==> #[trigger] groups[i].1.len() > 0,
        forall|i: int| 0 < i < groups.len() ==> #[trigger] groups[i].0 != groups[i - 1].0,
    ensures
        forall|i: int, j: int| 0 <= i < j < groups.len() ==> group_key_less(#[trigger] groups[i].0, #[trigger] groups[j].0),
        forall|k: int, a: int, b: int|
            0 <= k < groups.len() && 0 <= a < b < groups[k].1.len() ==> text_less(
                #[trigger] groups[k].1[a],
                #[trigger] groups[k].1[b],
            ),
    decreases groups.len(),
{
    if groups.len() > 0 {
        let init = groups.drop_last();
        let last = groups.last();
        let tail = last.1.map_values(|import: Seq<char>| (last.0.0, last.0.1, import));
        lemma_keys_sorted_split(flatten_groups(init), tail);
        assert forall|i: int| 0 <= i < init.len() implies #[trigger] init[i].1.len() > 0 by {
            assert(init[i] == groups[i]);
        }
        assert forall|i: int| 0 < i < init.len() implies #[trigger] init[i].0 != init[i - 1].0 by {
            assert(init[i] == groups[i] && init[i - 1] == groups[i - 1]);
        }
        law_groups_ascending(init);
        assert forall|a: int, b: int| 0 <= a < b < last.1.len() implies text_less(
            #[trigger] last.1[a],
            #[trigger] last.1[b],
        ) by {
            assert(key_less(tail[a], tail[b]));
            lemma_text_less_irreflexive(last.0.1);
        }
        if init.len() > 0 {
            let prev = init.last();
            let pf = flatten_groups(init);
            let ptail = prev.1.map_values(|import: Seq<char>| (prev.0.0, prev.0.1, import));
            assert(pf == flatten_groups(init.drop_last()) + ptail);
            assert(pf.last() == ptail.last());
            assert(key_less(pf[pf.len() - 1], tail[0]));
            assert(groups[groups.len() - 1].0 != groups[groups.len() - 2].0);
            assert(group_key_less(prev.0, last.0));
            assert forall|i: int| 0 <= i < init.len() implies group_key_less(#[trigger] init[i].0, last.0) by {
                if i < init.len() - 1 {
                    assert(group_key_less(init[i].0, init[init.len() - 1].0));
                    if init[i].0.0 == prev.0.0 && prev.0.0 == last.0.0 {
                        if text_less(init[i].0.1, prev.0.1) && text_less(prev.0.1, last.0.1) {
                            lemma_text_less_transitive(init[i].0.1, prev.0.1, last.0.1);
                        }
                    }
                }
            }
        }
        assert forall|i: int, j: int| 0 <= i < j < groups.len() implies group_key_less(
            #[trigger] groups[i].0,
            #[trigger] groups[j].0,
        ) by {
            assert(groups[i] == init[i]);
            if j < groups.len() - 1 {
                assert(groups[j] == init[j]);
            }
        }
        assert forall|k: int, a: int, b: int|
            0 <= k < groups.len() && 0 <= a < b < groups[k].1.len() implies text_less(
                #[trigger] groups[k].1[a],
                #[trigger] groups[k].1[b],
            ) by {
            if k < groups.len() - 1 {
                assert(groups[k] == init[k]);
            }
        }
    }
}

pub open spec fn group_views(groups: Seq<(ImportGroup, Vec<String>)>) -> Seq<
    ((u16, Seq<char>), Seq<Seq<char>>),
> {
    groups.map_values(
        |g: (ImportGroup, Vec<String>)| (g.0@, g.1@.map_values(|s: String| s@)),
    )
}

impl ImportSet {
    /// The requirements in increasing order.
    pub closed spec fn sequence(&self) -> Seq<ImportKey> {
        entry_keys(self.entries@)
    }

    pub closed spec fn wf(&self) -> bool {
        keys_sorted(entry_keys(self.entries@))
    }

    pub proof fn lemma_view(&self)
        requires
            self.wf(),
        ensures
            self@ == self.sequence().to_set(),
            keys_sorted(self.sequence()),
            self@.finite(),
            self@.len() == self.sequence().len(),
    {
        let s = self.sequence();
        assert forall|i: int, j: int| 0 <= i < s.len() && 0 <= j < s.len() && i != j implies s[i]
            != s[j] by {
            if i < j {
                lemma_key_less_irreflexive(s[i]);
            } else {
                lemma_key_less_irreflexive(s[j]);
            }
        }
        s.unique_seq_to_set();
    }

    pub fn new() -> (result: Self)
        ensures
            result.wf(),
            result@ == Set::<ImportKey>::empty(),
    {
        let result = ImportSet { entries: Vec::new() };
        assert(result.sequence() =~= Seq::<ImportKey>::empty());
        result
    }

    /// Requires `import` in `group`; returns whether it was new.
    pub fn require(&mut self, group: ImportGroup, import: String) -> (result: bool)
        requires
            old(self).wf(),
        ensures
            final(self).wf(),
            final(self)@ == old(self)@.insert((group@.0, group@.1, import@)),
            result == !old(self)@.contains((group@.0, group@.1, import@)),
    {
        let ghost key: ImportKey = (group@.0, group@.1, import@);
        let ghost before = self.sequence();
        let mut i: usize = 0;
        while i < self.entries.len()
            invariant
                i <= self.entries.len(),
                self.entries@ == old(self).entries@,
                before == self.sequence(),
                keys_sorted(before),
                key == (group@.0, group@.1, import@),
                forall|j: int| 0 <= j < i ==> key_less(#[trigger] before[j], key),
            decreases self.entries.len() - i,
        {
            let ghost current = before[i as int];
            assert(current == entry_key(self.entries@[i as int]));
            match compare_entry(&self.entries[i], &group, import.as_str()) {
                Comparison::Less => {},
                Comparison::Equal => {
                    assert(before.contains(key));
                    assert(before.to_set().insert(key) =~= before.to_set());
                    return false;
                },
                Comparison::Greater => {
                    proof {
                        assert forall|j: int| i <= j < before.len() implies key_less(
                            key,
                            #[trigger] before[j],
                        ) by {
                            if j > i {
                                lemma_key_less_transitive(key, before[i as int], before[j]);
                            }
                        }
                        assert(!before.contains(key)) by {
                            if before.contains(key) {
                                let k = before.index_of(key);
                                lemma_key_less_irreflexive(key);
                            }
                        }
                    }
                    self.entries.insert(i, (group, import));
                    proof {
                        let after = self.sequence();
                        assert(after =~= before.insert(i as int, key));
                        lemma_insert_to_set(before, i as int, key);
                    }
                    return true;
                },
            }
            i += 1;
        }
        proof {
            assert(!before.contains(key)) by {
                if before.contains(key) {
                    let k = before.index_of(key);
                    lemma_key_less_irreflexive(key);
                }
            }
        }
        self.entries.push((group, import));
        proof {
            let after = self.sequence();
            assert(after =~= before.insert(before.len() as int, key));
            lemma_insert_to_set(before, before.len() as int, key);
        }
        true
    }

    pub fn is_empty(&self) -> (result: bool)
        requires
            self.wf(),
        ensures
            result == (self@.len() == 0),
    {
        proof {
            self.lemma_view();
        }
        self.entries.len() == 0
    }

    /// The number of requirements.
    pub fn len(&self) -> (result: usize)
        requires
            self.wf(),
        ensures
            result == self@.len(),
    {
        proof {
            self.lemma_view();
        }
        self.entries.len()
    }

    /// Every requirement of `other` is added.
    pub fn merge(&mut self, other: &ImportSet)
        requires
            old(self).wf(),
        ensures
            final(self).wf(),
            final(self)@ == old(self)@.union(other@),
    {
        let mut i: usize = 0;
        while i < other.entries.len()
            invariant
                self.wf(),
                i <= other.entries.len(),
                self@ == old(self)@.union(entry_keys(other.entries@).take(i as int).to_set()),
            decreases other.entries.len() - i,
        {
            let entry = &other.entries[i];
            let ghost added = entry_key(other.entries@[i as int]);
            self.require(entry.0.duplicate(), entry.1.clone());
            proof {
                assert(entry_keys(other.entries@).take(i + 1) =~= entry_keys(other.entries@).take(
                    i as int,
                ).push(added));
                let prefix = entry_keys(other.entries@).take(i as int);
                assert(prefix.push(added) =~= prefix.insert(i as int, added));
                lemma_insert_to_set(prefix, i as int, added);
            }
            i += 1;
            assert(self@ =~= old(self)@.union(entry_keys(other.entries@).take(i as int).to_set()));
        }
        assert(entry_keys(other.entries@).take(i as int) =~= entry_keys(other.entries@));
    }

    /// The non-empty groups in increasing order, each with its imports in
    /// increasing order.
    #[verifier::rlimit(100)]
    #[verifier::spinoff_prover]
    pub fn groups(&self) -> (result: Vec<(ImportGroup, Vec<String>)>)
        requires
            self.wf(),
        ensures
            flatten_groups(group_views(result@)) == self.sequence(),
            forall|i: int| 0 <= i < result@.len() ==> #[trigger] result@[i].1@.len() > 0,
            forall|i: int|
                0 < i < result@.len() ==> #[trigger] result@[i].0@ != result@[i - 1].0@,
            forall|i: int, j: int|
                0 <= i < j < result@.len() ==> group_key_less(#[trigger] result@[i].0@, #[trigger] result@[j].0@),
            forall|k: int, a: int, b: int|
                0 <= k < result@.len() && 0 <= a < b < result@[k].1@.len() ==> text_less(
                    #[trigger] result@[k].1@[a]@,
                    #[trigger] result@[k].1@[b]@,
                ),
    {
        let mut result: Vec<(ImportGroup, Vec<String>)> = Vec::new();
        let mut i: usize = 0;
        while i < self.entries.len()
            invariant
                i <= self.entries.len(),
                flatten_groups(group_views(result@)) == self.sequence().take(i as int),
                forall|k: int| 0 <= k < result@.len() ==> #[trigger] result@[k].1@.len() > 0,
                forall|k: int|
                    0 < k < result@.len() ==> #[trigger] result@[k].0@ != result@[k - 1].0@,
                i > 0 <==> result@.len() > 0,
                i > 0 ==> result@.last().0@ == (self.sequence()[i - 1].0, self.sequence()[i - 1].1),
            decreases self.entries.len() - i,
        {
            let entry = &self.entries[i];
            let ghost before = result@;
            let ghost key = self.sequence()[i as int];
            assert(key == entry_key(self.entries@[i as int]));
            let same = if result.len() > 0 {
                let last = result.len() - 1;
                result[last].0.order == entry.0.order && matches!(
                    compare_text(result[last].0.name.as_str(), entry.0.name.as_str()),
                    Comparison::Equal
                )
            } else {
                false
            };
            if same {
                let last = result.len() - 1;
                let (group, mut imports) = result.remove(last);
                let ghost previous = imports@;
                imports.push(entry.1.clone());
                proof {
                    assert(previous.push(entry.1).map_values(|s: String| s@) =~= previous.map_values(
                        |s: String| s@,
                    ).push(entry.1@));
                }
                result.push((group, imports));
                assert(forall|k: int| 0 <= k < before.len() - 1 ==> result@[k] == before[k]);
                proof {
                    let gv = group_views(result@);
                    assert(gv.drop_last() =~= group_views(before.drop_last()));
                    assert(group_views(before).drop_last() =~= group_views(before.drop_last()));
                    assert(self.sequence().take(i + 1) =~= self.sequence().take(i as int).push(key));
                    let lb = group_views(before).last();
                    assert(lb.1.push(key.2).map_values(|import: Seq<char>| (lb.0.0, lb.0.1, import))
                        =~= lb.1.map_values(|import: Seq<char>| (lb.0.0, lb.0.1, import)).push(key));
                    assert(flatten_groups(gv) =~= self.sequence().take(i + 1));
                }
            } else {
                proof {
                    if before.len() > 0 {
                        lemma_text_less_irreflexive(entry.0@.1);
                        assert(before.last().0@ != entry.0@);
                    }
                }
                let mut imports: Vec<String> = Vec::new();
                imports.push(entry.1.clone());
                result.push((entry.0.duplicate(), imports));
                proof {
                    let gv = group_views(result@);
                    assert(gv.drop_last() =~= group_views(before));
                    assert(self.sequence().take(i + 1) =~= self.sequence().take(i as int).push(key));
                    assert(gv.last().1.map_values(|import: Seq<char>| (gv.last().0.0, gv.last().0.1, import))
                        =~= seq![key]);
                    assert(flatten_groups(gv) =~= self.sequence().take(i + 1));
                }
            }
            i += 1;
        }
        assert(self.sequence().take(i as int) =~= self.sequence());
        proof {
            self.lemma_view();
            let gv = group_views(result@);
            assert forall|k: int| 0 <= k < gv.len() implies #[trigger] gv[k].1.len() > 0 by {
                assert(result@[k].1@.len() > 0);
            }
            assert forall|k: int| 0 < k < gv.len() implies #[trigger] gv[k].0 != gv[k - 1].0 by {
                assert(result@[k].0@ != result@[k - 1].0@);
            }
            law_groups_ascending(gv);
            assert forall|a: int, b: int| 0 <= a < b < result@.len() implies group_key_less(
                #[trigger] result@[a].0@,
                #[trigger] result@[b].0@,
            ) by {
                assert(gv[a].0 == result@[a].0@ && gv[b].0 == result@[b].0@);
            }
            assert forall|k: int, a: int, b: int|
                0 <= k < result@.len() && 0 <= a < b < result@[k].1@.len() implies text_less(
                    #[trigger] result@[k].1@[a]@,
                    #[trigger] result@[k].1@[b]@,
                ) by {
                assert(gv[k].1[a] == result@[k].1@[a]@ && gv[k].1[b] == result@[k].1@[b]@);
            }
        }
        result
    }

    pub fn duplicate(&self) -> (result: Self)
        requires
            self.wf(),
        ensures
            result.wf(),
            result@ == self@,
            result.sequence() == self.sequence(),
    {
        let mut entries: Vec<(ImportGroup, String)> = Vec::new();
        let mut i: usize = 0;
        while i < self.entries.len()
            invariant
                i <= self.entries.len(),
                entry_keys(entries@) == entry_keys(self.entries@).take(i as int),
            decreases self.entries.len() - i,
        {
            let entry = &self.entries[i];
            let ghost before = entries@;
            let copy = (entry.0.duplicate(), entry.1.clone());
            assert(entry_key(copy) == entry_key(self.entries@[i as int]));
            entries.push(copy);
            assert(entry_keys(entries@) =~= entry_keys(before).push(entry_key(copy)));
            assert(entry_keys(self.entries@).take(i + 1) =~= entry_keys(self.entries@).take(i as int).push(entry_key(copy)));
            i += 1;
        }
        assert(entry_keys(self.entries@).take(i as int) =~= entry_keys(self.entries@));
        ImportSet { entries }
    }
}

/// The mathematical content of a fragment.
pub struct FragmentView {
    pub document: DocView,
    pub imports: Set<ImportKey>,
    pub helper_roots: Set<Seq<char>>,
}

/// The smallest dependency-complete target-language mapping.
///
/// A fragment keeps target syntax, structured imports, and runtime-helper roots
/// inseparable while mappings are composed. Transforming or joining fragments
/// preserves every requirement by construction.
#[derive(Clone, Debug, PartialEq, Eq)]
pub struct LanguageFragment {
    document: Document,
    imports: ImportSet,
    helper_roots: TextSet,
}

impl View for LanguageFragment {
    type V = FragmentView;

    closed spec fn view(&self) -> FragmentView {
        FragmentView {
            document: self.document@,
            imports: self.imports@,
            helper_roots: self.helper_roots@,
        }
    }
}

pub open spec fn fragments_view(fragments: Seq<LanguageFragment>) -> Seq<FragmentView> {
    fragments.map_values(|f: LanguageFragment| f@)
}

pub open spec fn imports_union(fragments: Seq<FragmentView>) -> Set<ImportKey>
    decreases fragments.len(),
{
    if fragments.len() == 0 {
        Set::empty()
    } else {
        imports_union(fragments.drop_last()).union(fragments.last().imports)
    }
}

pub open spec fn roots_union(fragments: Seq<FragmentView>) -> Set<Seq<char>>
    decreases fragments.len(),
{
    if fragments.len() == 0 {
        Set::empty()
    } else {
        roots_union(fragments.drop_last()).union(fragments.last().helper_roots)
    }
}

/// The composition of fragments in order: documents concatenated, imports and
/// helper roots united.
pub open spec fn sequence_view(fragments: Seq<FragmentView>) -> FragmentView {
    FragmentView {
        document: concat_view(fragments.map_values(|f: FragmentView| f.document)),
        imports: imports_union(fragments),
        helper_roots: roots_union(fragments),
    }
}

proof fn lemma_union_append(a: Seq<FragmentView>, b: Seq<FragmentView>)
    ensures
        imports_union(a + b) == imports_union(a).union(imports_union(b)),
        roots_union(a + b) == roots_union(a).union(roots_union(b)),
    decreases b.len(),
{
    if b.len() == 0 {
        assert(a + b =~= a);
        assert(imports_union(a).union(imports_union(b)) =~= imports_union(a));
        assert(roots_union(a).union(roots_union(b)) =~= roots_union(a));
    } else {
        lemma_union_append(a, b.drop_last());
        assert((a + b).drop_last() =~= a + b.drop_last());
        assert((a + b).last() == b.last());
        assert(imports_union(a + b) =~= imports_union(a).union(imports_union(b)));
        assert(roots_union(a + b) =~= roots_union(a).union(roots_union(b)));
    }
}

proof fn lemma_union_single(f: FragmentView)
    ensures
        imports_union(seq![f]) == f.imports,
        roots_union(seq![f]) == f.helper_roots,
{
    assert(seq![f].drop_last() =~= Seq::<FragmentView>::empty());
    assert(seq![f].last() == f);
    assert(imports_union(Seq::<FragmentView>::empty()) == Set::<ImportKey>::empty());
    assert(roots_union(Seq::<FragmentView>::empty()) == Set::<Seq<char>>::empty());
    assert(imports_union(seq![f]) =~= f.imports);
    assert(roots_union(seq![f]) =~= f.helper_roots);
}

/// Composing fragments is associative: grouping a composition differently
/// changes neither the document nor the requirements.
pub proof fn law_sequence_associative(a: FragmentView, b: FragmentView, c: FragmentView)
    requires
        normal(a.document),
        normal(b.document),
        normal(c.document),
    ensures
        sequence_view(seq![sequence_view(seq![a, b]), c]) == sequence_view(
            seq![a, sequence_view(seq![b, c])],
        ),
{
    let ab = sequence_view(seq![a, b]);
    let bc = sequence_view(seq![b, c]);
    assert(seq![a, b].map_values(|f: FragmentView| f.document) =~= seq![a.document, b.document]);
    assert(seq![b, c].map_values(|f: FragmentView| f.document) =~= seq![b.document, c.document]);
    assert(seq![ab, c].map_values(|f: FragmentView| f.document) =~= seq![ab.document, c.document]);
    assert(seq![a, bc].map_values(|f: FragmentView| f.document) =~= seq![a.document, bc.document]);
    crate::document::law_concat_associative(a.document, b.document, c.document);
    lemma_union_append(seq![a], seq![b]);
    lemma_union_append(seq![b], seq![c]);
    lemma_union_append(seq![a, b], seq![c]);
    lemma_union_append(seq![a], seq![b, c]);
    lemma_union_append(seq![ab], seq![c]);
    lemma_union_append(seq![a], seq![bc]);
    lemma_union_single(a);
    lemma_union_single(b);
    lemma_union_single(c);
    lemma_union_single(ab);
    lemma_union_single(bc);
    assert(seq![a] + seq![b] =~= seq![a, b]);
    assert(seq![b] + seq![c] =~= seq![b, c]);
    assert(seq![ab] + seq![c] =~= seq![ab, c]);
    assert(seq![a] + seq![bc] =~= seq![a, bc]);
    assert(imports_union(seq![ab, c]) =~= imports_union(seq![a, bc]));
    assert(roots_union(seq![ab, c]) =~= roots_union(seq![a, bc]));
}

/// A composition keeps every requirement of its parts and adds none.
pub proof fn law_sequence_keeps_requirements(fragments: Seq<FragmentView>)
    ensures
        forall|i: int|
            0 <= i < fragments.len() ==> (#[trigger] fragments[i]).imports.subset_of(
                sequence_view(fragments).imports,
            ) && fragments[i].helper_roots.subset_of(sequence_view(fragments).helper_roots),
        forall|k: ImportKey|
            #[trigger] sequence_view(fragments).imports.contains(k) ==> exists|i: int|
                0 <= i < fragments.len() && fragments[i].imports.contains(k),
        forall|r: Seq<char>|
            #[trigger] sequence_view(fragments).helper_roots.contains(r) ==> exists|i: int|
                0 <= i < fragments.len() && fragments[i].helper_roots.contains(r),
    decreases fragments.len(),
{
    if fragments.len() > 0 {
        let init = fragments.drop_last();
        law_sequence_keeps_requirements(init);
        assert forall|i: int| 0 <= i < fragments.len() implies (#[trigger] fragments[i]).imports.subset_of(
            sequence_view(fragments).imports,
        ) && fragments[i].helper_roots.subset_of(sequence_view(fragments).helper_roots) by {
            if i < init.len() {
                assert(init[i] == fragments[i]);
            }
        }
        assert forall|k: ImportKey| #[trigger] sequence_view(fragments).imports.contains(k) implies exists|
            i: int,
        | 0 <= i < fragments.len() && fragments[i].imports.contains(k) by {
            if sequence_view(init).imports.contains(k) {
                let i = choose|i: int| 0 <= i < init.len() && init[i].imports.contains(k);
                assert(fragments[i] == init[i]);
            } else {
                assert(fragments[fragments.len() - 1].imports.contains(k));
            }
        }
        assert forall|r: Seq<char>| #[trigger] sequence_view(fragments).helper_roots.contains(
            r,
        ) implies exists|i: int| 0 <= i < fragments.len() && fragments[i].helper_roots.contains(r) by {
            if sequence_view(init).helper_roots.contains(r) {
                let i = choose|i: int| 0 <= i < init.len() && init[i].helper_roots.contains(r);
                assert(fragments[i] == init[i]);
            } else {
                assert(fragments[fragments.len() - 1].helper_roots.contains(r));
            }
        }
    }
}

impl LanguageFragment {
    pub closed spec fn wf(&self) -> bool {
        self.imports.wf() && self.helper_roots.wf() && normal(self.document@)
    }

    /// The document of a well-formed fragment is normal.
    pub proof fn lemma_normal(&self)
        requires
            self.wf(),
        ensures
            normal(self@.document),
    {
    }

    /// The fragment's document itself.
    pub closed spec fn document_value(&self) -> Document {
        self.document
    }

    /// The fragment's document is the document of its view.
    pub proof fn lemma_document_value(&self)
        ensures
            self.document_value()@ == self@.document,
    {
    }

    pub fn new(document: Document) -> (result: Self)
        ensures
            result.wf(),
            result@ == (FragmentView {
                document: document@,
                imports: Set::empty(),
                helper_roots: Set::empty(),
            }),
    {
        proof {
            use_type_invariant(&document);
        }
        LanguageFragment { document, imports: ImportSet::new(), helper_roots: TextSet::new() }
    }

    pub fn with_import(self, group: ImportGroup, import: String) -> (result: Self)
        requires
            self.wf(),
        ensures
            result.wf(),
            result@ == (FragmentView {
                imports: self@.imports.insert((group@.0, group@.1, import@)),
                ..self@
            }),
    {
        let mut fragment = self;
        fragment.imports.require(group, import);
        fragment
    }

    /// Requires `import` in `group`; returns whether it was new.
    pub fn require_import(&mut self, group: ImportGroup, import: String) -> (result: bool)
        requires
            old(self).wf(),
        ensures
            final(self).wf(),
            final(self)@ == (FragmentView {
                imports: old(self)@.imports.insert((group@.0, group@.1, import@)),
                ..old(self)@
            }),
            result == !old(self)@.imports.contains((group@.0, group@.1, import@)),
    {
        self.imports.require(group, import)
    }

    pub fn with_helper_root(self, helper: &str) -> (result: Self)
        requires
            self.wf(),
        ensures
            result.wf(),
            result@ == (FragmentView { helper_roots: self@.helper_roots.insert(helper@), ..self@ }),
    {
        let mut fragment = self;
        fragment.helper_roots.insert(helper.to_owned());
        fragment
    }

    pub fn imports(&self) -> (result: &ImportSet)
        ensures
            result@ == self@.imports,
            self.wf() ==> result.wf(),
    {
        &self.imports
    }

    pub fn helper_roots(&self) -> (result: &TextSet)
        ensures
            result@ == self@.helper_roots,
            self.wf() ==> result.wf(),
    {
        &self.helper_roots
    }

    pub fn document(&self) -> (result: &Document)
        ensures
            result@ == self@.document,
    {
        &self.document
    }

    /// Replaces the document by `map` of it; the requirements stay.
    pub fn map_document<F: FnOnce(Document) -> Document>(self, map: F) -> (result: Self)
        requires
            self.wf(),
            call_requires(map, (self.document_value(),)),
        ensures
            result.wf(),
            call_ensures(map, (self.document_value(),), result.document_value()),
            result@.imports == self@.imports,
            result@.helper_roots == self@.helper_roots,
    {
        let document = map(self.document);
        proof {
            use_type_invariant(&document);
        }
        LanguageFragment { document, imports: self.imports, helper_roots: self.helper_roots }
    }

    pub fn indent(self, spaces: usize) -> (result: Self)
        requires
            self.wf(),
        ensures
            result.wf(),
            result@ == (FragmentView {
                document: DocView::Indent { spaces, document: Box::new(self@.document) },
                ..self@
            }),
    {
        LanguageFragment {
            document: self.document.indent(spaces),
            imports: self.imports,
            helper_roots: self.helper_roots,
        }
    }

    pub fn group(self) -> (result: Self)
        requires
            self.wf(),
        ensures
            result.wf(),
            result@ == (FragmentView {
                document: DocView::Group(Box::new(self@.document)),
                ..self@
            }),
    {
        LanguageFragment {
            document: self.document.group(),
            imports: self.imports,
            helper_roots: self.helper_roots,
        }
    }

    /// The composition of `fragments` in order.
    pub fn sequence(fragments: Vec<Self>) -> (result: Self)
        requires
            forall|i: int| 0 <= i < fragments@.len() ==> (#[trigger] fragments@[i]).wf(),
        ensures
            result.wf(),
            result@ == sequence_view(fragments_view(fragments@)),
    {
        let ghost original = fragments@;
        let ghost views = fragments_view(original);
        let mut fragments = fragments;
        let mut documents: Vec<Document> = Vec::new();
        let mut imports = ImportSet::new();
        let mut helper_roots = TextSet::new();
        let ghost mut taken: int = 0;
        proof {
            lemma_docs_view(documents@);
        }
        assert(docs_view(documents@) =~= views.take(0).map_values(|f: FragmentView| f.document));
        while fragments.len() > 0
            invariant
                0 <= taken <= original.len(),
                fragments@ == original.skip(taken),
                views == fragments_view(original),
                forall|i: int| 0 <= i < original.len() ==> (#[trigger] original[i]).wf(),
                imports.wf(),
                helper_roots.wf(),
                docs_view(documents@) == views.take(taken).map_values(|f: FragmentView| f.document),
                imports@ == imports_union(views.take(taken)),
                helper_roots@ == roots_union(views.take(taken)),
            decreases fragments.len(),
        {
            let fragment = fragments.remove(0);
            proof {
                assert(fragment == original[taken]);
                assert(original.skip(taken + 1) =~= original.skip(taken).drop_first());
                assert(views.take(taken + 1).drop_last() =~= views.take(taken));
                assert(views.take(taken + 1).last() == fragment@);
                lemma_docs_view_push(documents@, fragment.document);
                assert(views.take(taken + 1).map_values(|f: FragmentView| f.document) =~= views.take(
                    taken,
                ).map_values(|f: FragmentView| f.document).push(fragment@.document));
            }
            imports.merge(&fragment.imports);
            helper_roots.merge(&fragment.helper_roots);
            documents.push(fragment.document);
            proof {
                taken = taken + 1;
            }
        }
        proof {
            assert(original.take(taken) =~= original);
            assert(views.take(taken) =~= views);
        }
        LanguageFragment { document: Document::concat(documents), imports, helper_roots }
    }

    /// The given fragment, or an empty one.
    pub fn optional(fragment: Option<Self>) -> (result: Self)
        requires
            fragment matches Some(f) ==> f.wf(),
        ensures
            result.wf(),
            result@ == match fragment {
                Some(f) => f@,
                None => FragmentView {
                    document: DocView::Empty,
                    imports: Set::empty(),
                    helper_roots: Set::empty(),
                },
            },
    {
        match fragment {
            Some(f) => f,
            None => Self::new(Document::empty()),
        }
    }

    pub fn into_unit(self) -> (result: LanguageUnit)
        requires
            self.wf(),
        ensures
            result.wf(),
            result@ == self@,
    {
        LanguageUnit { fragment: self }
    }

    /// An equal, independent fragment.
    pub fn duplicate(&self) -> (result: Self)
        requires
            self.wf(),
        ensures
            result.wf(),
            result@ == self@,
    {
        LanguageFragment {
            document: self.document.duplicate(),
            imports: self.imports.duplicate(),
            helper_roots: self.helper_roots.duplicate(),
        }
    }

    /// `fragments` with a copy of `separator` between each adjacent pair,
    /// composed in order.
    pub fn joined(separator: Self, fragments: Vec<Self>) -> (result: Self)
        requires
            separator.wf(),
            forall|i: int| 0 <= i < fragments@.len() ==> (#[trigger] fragments@[i]).wf(),
        ensures
            result.wf(),
            result@ == sequence_view(interleave(separator@, fragments_view(fragments@))),
    {
        let ghost original = fragments@;
        let mut fragments = fragments;
        let mut parts: Vec<Self> = Vec::new();
        let ghost mut taken: int = 0;
        while fragments.len() > 0
            invariant
                0 <= taken <= original.len(),
                fragments@ == original.skip(taken),
                separator.wf(),
                (taken == 0) == (parts@.len() == 0),
                forall|i: int| 0 <= i < original.len() ==> (#[trigger] original[i]).wf(),
                forall|i: int| 0 <= i < parts@.len() ==> (#[trigger] parts@[i]).wf(),
                fragments_view(parts@) == interleave(separator@, fragments_view(original.take(taken))),
            decreases fragments.len(),
        {
            let fragment = fragments.remove(0);
            let ghost before = parts@;
            proof {
                assert(fragment == original[taken]);
                assert(original.skip(taken + 1) =~= original.skip(taken).drop_first());
                assert(fragments_view(original.take(taken + 1)) =~= fragments_view(original.take(taken)).push(fragment@));
                assert(fragments_view(original.take(taken + 1)).drop_last() =~= fragments_view(original.take(taken)));
            }
            if parts.len() > 0 {
                let copy = separator.duplicate();
                parts.push(copy);
                parts.push(fragment);
                assert(fragments_view(parts@) =~= fragments_view(before).push(separator@).push(fragment@));
            } else {
                parts.push(fragment);
                assert(fragments_view(parts@) =~= seq![fragment@]);
                assert(taken == 0);
                assert(fragments_view(original.take(1)) =~= seq![fragment@]);
            }
            proof {
                taken = taken + 1;
            }
        }
        proof {
            assert(original.take(taken) =~= original);
        }
        Self::sequence(parts)
    }
}

/// A closed target-language file section. Units can only be created from
/// dependency-complete fragments and expose no mutation path.
#[derive(Clone, Debug, PartialEq, Eq)]
pub struct LanguageUnit {
    fragment: LanguageFragment,
}

impl View for LanguageUnit {
    type V = FragmentView;

    closed spec fn view(&self) -> FragmentView {
        self.fragment@
    }
}

impl LanguageUnit {
    pub closed spec fn wf(&self) -> bool {
        self.fragment.wf()
    }

    pub fn imports(&self) -> (result: &ImportSet)
        ensures
            result@ == self@.imports,
            self.wf() ==> result.wf(),
    {
        self.fragment.imports()
    }

    pub fn helper_roots(&self) -> (result: &TextSet)
        ensures
            result@ == self@.helper_roots,
            self.wf() ==> result.wf(),
    {
        self.fragment.helper_roots()
    }

    pub fn document(&self) -> (result: &Document)
        ensures
            result@ == self@.document,
    {
        self.fragment.document()
    }
}

impl From<LanguageFragment> for LanguageUnit {
    fn from(fragment: LanguageFragment) -> (result: Self) {
        LanguageUnit { fragment }
    }
}

impl vstd::std_specs::convert::FromSpecImpl<LanguageFragment> for LanguageUnit {
    open spec fn obeys_from_spec() -> bool {
        true
    }

    open spec fn from_spec(fragment: LanguageFragment) -> LanguageUnit {
        unit_of(fragment)
    }
}

/// The unit that closes `fragment`.
pub closed spec fn unit_of(fragment: LanguageFragment) -> LanguageUnit {
    LanguageUnit { fragment }
}

/// A unit keeps its fragment's content and well-formedness.
pub proof fn lemma_unit_of(fragment: LanguageFragment)
    ensures
        unit_of(fragment)@ == fragment@,
        unit_of(fragment).wf() == fragment.wf(),
{
}

#[derive(Clone, Debug, PartialEq, Eq)]
pub struct RuntimeHelper {
    id: String,
    order: u16,
    fragment: LanguageFragment,
}

/// The mathematical content of a runtime helper.
pub struct HelperView {
    pub id: Seq<char>,
    pub order: u16,
    pub fragment: FragmentView,
}

impl View for RuntimeHelper {
    type V = HelperView;

    closed spec fn view(&self) -> HelperView {
        HelperView { id: self.id@, order: self.order, fragment: self.fragment@ }
    }
}

pub open spec fn helpers_view(helpers: Seq<RuntimeHelper>) -> Seq<HelperView> {
    helpers.map_values(|h: RuntimeHelper| h@)
}

impl RuntimeHelper {
    pub closed spec fn wf(&self) -> bool {
        self.fragment.wf()
    }

    pub fn new(id: &str, order: u16, fragment: LanguageFragment) -> (result: Self)
        requires
            fragment.wf(),
        ensures
            result.wf(),
            result@ == (HelperView { id: id@, order, fragment: fragment@ }),
    {
        RuntimeHelper { id: id.to_owned(), order, fragment }
    }

    pub fn id(&self) -> (result: &str)
        ensures
            result@ == self@.id,
    {
        self.id.as_str()
    }
}

#[derive(Clone, Debug, PartialEq, Eq)]
pub enum HelperGraphError {
    InvalidId(String),
    DuplicateId(String),
    MissingId { id: String, required_by: Option<String> },
    Cycle(Vec<String>),
}

/// Appends `prefix`, the debug notation of `name`, then `suffix`.
fn push_quoted(out: &mut Vec<char>, prefix: &str, name: &str, suffix: &str)
    ensures
        final(out)@ == old(out)@ + prefix@ + debug_text(name@) + suffix@,
{
    let quoted = quoted_message(prefix, name, suffix);
    crate::text::push_text(out, quoted.as_str());
    assert(out@ =~= old(out)@ + prefix@ + debug_text(name@) + suffix@);
}

impl LanguagePackageError {
    /// The text of the error.
    pub open spec fn text(&self) -> Seq<char> {
        match self {
            LanguagePackageError::InvalidGroupId(value) => "invalid file group ID "@ + debug_text(value@),
            LanguagePackageError::InvalidImportGroup(value) => "invalid import group name "@ + debug_text(value@),
            LanguagePackageError::EmptyGroup(id) => "file group "@ + debug_text(id@) + " is empty"@,
            LanguagePackageError::DuplicateGroup(id) => "duplicate file group "@ + debug_text(id@),
            LanguagePackageError::DuplicatePath { path, first_group, second_group } => "duplicate language-package path "@
                + debug_text(path@) + " in groups "@ + debug_text(first_group@) + " and "@ + debug_text(
                second_group@,
            ),
            LanguagePackageError::ImportRendering(message) => "cannot render language imports: "@ + message@,
            LanguagePackageError::DocumentRendering(message) => "cannot render language document: "@ + message@,
        }
    }

    /// The error as text.
    pub fn message(&self) -> (result: String)
        ensures
            result@ == self.text(),
    {
        let mut out: Vec<char> = Vec::new();
        proof {
            reveal_strlit("");
        }
        match self {
            LanguagePackageError::InvalidGroupId(value) => {
                push_quoted(&mut out, "invalid file group ID ", value.as_str(), "");
            },
            LanguagePackageError::InvalidImportGroup(value) => {
                push_quoted(&mut out, "invalid import group name ", value.as_str(), "");
            },
            LanguagePackageError::EmptyGroup(id) => {
                push_quoted(&mut out, "file group ", id.as_str(), " is empty");
            },
            LanguagePackageError::DuplicateGroup(id) => {
                push_quoted(&mut out, "duplicate file group ", id.as_str(), "");
            },
            LanguagePackageError::DuplicatePath { path, first_group, second_group } => {
                push_quoted(&mut out, "duplicate language-package path ", path.as_str(), "");
                push_quoted(&mut out, " in groups ", first_group.as_str(), "");
                push_quoted(&mut out, " and ", second_group.as_str(), "");
            },
            LanguagePackageError::ImportRendering(message) => {
                crate::text::push_text(&mut out, "cannot render language imports: ");
                crate::text::push_text(&mut out, message.as_str());
            },
            LanguagePackageError::DocumentRendering(message) => {
                crate::text::push_text(&mut out, "cannot render language document: ");
                crate::text::push_text(&mut out, message.as_str());
            },
        }
        assert(out@ =~= self.text());
        crate::text::string_from_chars(&out)
    }
}

/// The debug notations of `ids`, separated by commas.
pub open spec fn quoted_list(ids: Seq<Seq<char>>) -> Seq<char>
    decreases ids.len(),
{
    if ids.len() == 0 {
        Seq::empty()
    } else if ids.len() == 1 {
        debug_text(ids[0])
    } else {
        quoted_list(ids.drop_last()) + ", "@ + debug_text(ids.last())
    }
}

impl HelperGraphError {
    /// The text of the error.
    pub open spec fn text(&self) -> Seq<char> {
        match self {
            HelperGraphError::InvalidId(id) => "invalid empty runtime helper ID "@ + debug_text(id@),
            HelperGraphError::DuplicateId(id) => "duplicate runtime helper ID "@ + debug_text(id@),
            HelperGraphError::MissingId { id, required_by } => match required_by {
                Some(by) => "runtime helper "@ + debug_text(by@) + " requires missing helper "@ + debug_text(id@),
                None => "missing runtime helper root "@ + debug_text(id@),
            },
            HelperGraphError::Cycle(ids) => "runtime helper dependency cycle among "@ + quoted_list(
                ids@.map_values(|id: String| id@),
            ),
        }
    }

    /// The error as text.
    pub fn message(&self) -> (result: String)
        ensures
            result@ == self.text(),
    {
        let mut out: Vec<char> = Vec::new();
        proof {
            reveal_strlit("");
        }
        match self {
            HelperGraphError::InvalidId(id) => {
                push_quoted(&mut out, "invalid empty runtime helper ID ", id.as_str(), "");
            },
            HelperGraphError::DuplicateId(id) => {
                push_quoted(&mut out, "duplicate runtime helper ID ", id.as_str(), "");
            },
            HelperGraphError::MissingId { id, required_by } => match required_by {
                Some(by) => {
                    push_quoted(&mut out, "runtime helper ", by.as_str(), "");
                    push_quoted(&mut out, " requires missing helper ", id.as_str(), "");
                },
                None => {
                    push_quoted(&mut out, "missing runtime helper root ", id.as_str(), "");
                },
            },
            HelperGraphError::Cycle(ids) => {
                crate::text::push_text(&mut out, "runtime helper dependency cycle among ");
                let ghost base = out@;
                let ghost names = ids@.map_values(|id: String| id@);
                let mut k: usize = 0;
                while k < ids.len()
                    invariant
                        k <= ids@.len(),
                        names == ids@.map_values(|id: String| id@),
                        out@ == base + quoted_list(names.take(k as int)),
                    decreases ids.len() - k,
                {
                    proof {
                        reveal_strlit("");
                        assert(names.take(k + 1).drop_last() =~= names.take(k as int));
                        assert(names.take(k + 1).last() == ids@[k as int]@);
                    }
                    if k == 0 {
                        push_quoted(&mut out, "", ids[k].as_str(), "");
                        assert(names.take(1).len() == 1 && names.take(1)[0] == ids@[0]@);
                        assert(quoted_list(names.take(0)) =~= Seq::<char>::empty());
                        assert(quoted_list(names.take(1)) == debug_text(ids@[0]@));
                        assert(out@ =~= base + quoted_list(names.take(k + 1)));
                    } else {
                        push_quoted(&mut out, ", ", ids[k].as_str(), "");
                        assert(names.take(k + 1).len() == k + 1);
                        assert(quoted_list(names.take(k + 1)) == quoted_list(names.take(k as int)) + ", "@ + debug_text(
                            ids@[k as int]@,
                        ));
                        assert(out@ =~= base + quoted_list(names.take(k + 1)));
                    }
                    k += 1;
                }
                assert(names.take(k as int) =~= names);
            },
        }
        assert(out@ =~= self.text());
        crate::text::string_from_chars(&out)
    }
}

/// Whether helper `k` of `ids` is refused: its ID is empty or repeats an
/// earlier one.
pub open spec fn refused_at(ids: Seq<Seq<char>>, k: int) -> bool {
    ids[k].len() == 0 || exists|j: int| 0 <= j < k && ids[j] == ids[k]
}

/// Whether helper `k` is the first one refused.
pub open spec fn first_refusal(ids: Seq<Seq<char>>, k: int) -> bool {
    &&& 0 <= k < ids.len()
    &&& forall|j: int| 0 <= j < k ==> !refused_at(ids, j)
    &&& refused_at(ids, k)
}

/// The error that refusing helper `k` gives.
pub open spec fn refusal_error(ids: Seq<Seq<char>>, k: int, e: HelperGraphError) -> bool {
    if ids[k].len() == 0 {
        e matches HelperGraphError::InvalidId(id) && id@ == ids[k]
    } else {
        e matches HelperGraphError::DuplicateId(id) && id@ == ids[k]
    }
}

pub open spec fn helper_ids(helpers: Seq<HelperView>) -> Seq<Seq<char>> {
    helpers.map_values(|h: HelperView| h.id)
}

/// Whether the helpers are in strictly increasing order of ID.
pub open spec fn ids_sorted(helpers: Seq<HelperView>) -> bool {
    forall|i: int, j: int|
        0 <= i < j < helpers.len() ==> text_less(#[trigger] helpers[i].id, #[trigger] helpers[j].id)
}


/// Whether the graph has a helper with ID `id`.
pub open spec fn graph_has(g: Seq<HelperView>, id: Seq<char>) -> bool {
    exists|i: int| 0 <= i < g.len() && g[i].id == id
}

/// The position of the helper with ID `id`.
pub open spec fn graph_index(g: Seq<HelperView>, id: Seq<char>) -> int {
    choose|i: int| 0 <= i < g.len() && g[i].id == id
}

/// The helpers that helper `id` requires.
pub open spec fn helper_deps(g: Seq<HelperView>, id: Seq<char>) -> Set<Seq<char>> {
    g[graph_index(g, id)].fragment.helper_roots
}

/// Whether `s` holds the roots and, with each helper of the graph in it, that
/// helper's own roots.
pub open spec fn closed_selection(g: Seq<HelperView>, roots: Set<Seq<char>>, s: Set<Seq<char>>) -> bool {
    &&& roots.subset_of(s)
    &&& forall|p: Seq<char>| #[trigger] s.contains(p) && graph_has(g, p) ==> helper_deps(g, p).subset_of(s)
}

/// Whether `x` is required by `roots`: it belongs to every closed selection.
pub open spec fn required(g: Seq<HelperView>, roots: Set<Seq<char>>, x: Seq<char>) -> bool {
    forall|s: Set<Seq<char>>| #[trigger] closed_selection(g, roots, s) ==> s.contains(x)
}

/// The helper order: order number first, then ID.
pub open spec fn helper_before(g: Seq<HelperView>, a: Seq<char>, b: Seq<char>) -> bool {
    let oa = g[graph_index(g, a)].order;
    let ob = g[graph_index(g, b)].order;
    oa < ob || (oa == ob && text_less(a, b))
}

/// The helpers of `remaining` whose required helpers are all in `done`.
pub open spec fn ready_ids(g: Seq<HelperView>, remaining: Set<Seq<char>>, done: Set<Seq<char>>) -> Set<
    Seq<char>,
> {
    remaining.filter(|v: Seq<char>| helper_deps(g, v).subset_of(done))
}

pub open spec fn is_least(g: Seq<HelperView>, ready: Set<Seq<char>>, v: Seq<char>) -> bool {
    ready.contains(v) && forall|w: Seq<char>|
        #[trigger] ready.contains(w) && w != v ==> helper_before(g, v, w)
}

/// The first ready helper in helper order.
pub open spec fn least_ready(g: Seq<HelperView>, ready: Set<Seq<char>>) -> Seq<char> {
    if exists|v: Seq<char>| is_least(g, ready, v) {
        choose|v: Seq<char>| is_least(g, ready, v)
    } else {
        ready.choose()
    }
}

/// Emits, one at a time, the first ready helper in helper order until none
/// remains; `Err` holds the helpers left when none is ready.
pub open spec fn topo_order(
    g: Seq<HelperView>,
    remaining: Set<Seq<char>>,
    done: Seq<Seq<char>>,
) -> Result<Seq<Seq<char>>, Set<Seq<char>>>
    decreases remaining.len(),
{
    if !remaining.finite() || remaining.len() == 0 {
        Ok(done)
    } else {
        let ready = ready_ids(g, remaining, done.to_set());
        if ready.len() == 0 {
            Err(remaining)
        } else {
            let v = least_ready(g, ready);
            if remaining.contains(v) {
                topo_order(g, remaining.remove(v), done.push(v))
            } else {
                Ok(done)
            }
        }
    }
}

/// The fragment that resolving `order` gives: the helpers' fragments composed
/// in that order, with no roots left.
pub open spec fn resolved_view(g: Seq<HelperView>, order: Seq<Seq<char>>) -> FragmentView {
    FragmentView {
        helper_roots: Set::empty(),
        ..sequence_view(order.map_values(|id: Seq<char>| g[graph_index(g, id)].fragment))
    }
}

pub open spec fn pending_view(pending: Seq<(String, Option<String>)>) -> Seq<(Seq<char>, Option<Seq<char>>)> {
    pending.map_values(
        |p: (String, Option<String>)|
            (
                p.0@,
                match p.1 {
                    Some(r) => Some(r@),
                    None => None,
                },
            ),
    )
}

/// A pending request is required; a root when nobody requires it, else
/// required by a marked helper.
pub open spec fn pending_ok(
    g: Seq<HelperView>,
    roots: Set<Seq<char>>,
    marks: Seq<bool>,
    p: (Seq<char>, Option<Seq<char>>),
) -> bool {
    &&& required(g, roots, p.0)
    &&& match p.1 {
        None => roots.contains(p.0),
        Some(parent) => marked_ids(g, marks).contains(parent) && graph_has(g, parent) && helper_deps(
            g,
            parent,
        ).contains(p.0),
    }
}

/// A missing helper that `roots` require, with the helper that requires it.
pub open spec fn missing_error(g: Seq<HelperView>, roots: Set<Seq<char>>, e: HelperGraphError) -> bool {
    match e {
        HelperGraphError::MissingId { id, required_by } => {
            &&& required(g, roots, id@)
            &&& !graph_has(g, id@)
            &&& match required_by {
                None => roots.contains(id@),
                Some(parent) => graph_has(g, parent@) && required(g, roots, parent@) && helper_deps(
                    g,
                    parent@,
                ).contains(id@),
            }
        },
        _ => false,
    }
}

pub open spec fn roots_view(roots: Seq<&str>) -> Set<Seq<char>> {
    roots.map_values(|r: &str| r@).to_set()
}


/// The helpers that `roots` require.
pub open spec fn required_ids(g: Seq<HelperView>, roots: Set<Seq<char>>) -> Set<Seq<char>> {
    Set::new(|x: Seq<char>| required(g, roots, x))
}

/// Whether every helper that `roots` require is in the graph.
pub open spec fn all_present(g: Seq<HelperView>, roots: Set<Seq<char>>) -> bool {
    forall|x: Seq<char>| required(g, roots, x) ==> graph_has(g, x)
}

/// A dependency cycle: the required helpers are all present, and `e` lists
/// in increasing order the helpers left when none can be emitted.
pub open spec fn cycle_error(g: Seq<HelperView>, roots: Set<Seq<char>>, e: HelperGraphError) -> bool {
    match e {
        HelperGraphError::Cycle(ids) => {
            &&& all_present(g, roots)
            &&& topo_order(g, required_ids(g, roots), seq![]) == Err::<Seq<Seq<char>>, Set<Seq<char>>>(
                crate::order::texts_view(ids@).to_set(),
            )
            &&& crate::order::strictly_sorted(crate::order::texts_view(ids@))
        },
        _ => false,
    }
}

/// The IDs of the helpers marked in `marks`.
pub open spec fn marked_ids(g: Seq<HelperView>, marks: Seq<bool>) -> Set<Seq<char>> {
    Set::new(|x: Seq<char>| exists|i: int| 0 <= i < g.len() && i < marks.len() && marks[i] && g[i].id == x)
}

pub open spec fn count_unmarked(marks: Seq<bool>) -> nat
    decreases marks.len(),
{
    if marks.len() == 0 {
        0
    } else {
        count_unmarked(marks.drop_last()) + if marks.last() {
            0nat
        } else {
            1nat
        }
    }
}

proof fn lemma_count_unmarked_mark(marks: Seq<bool>, i: int)
    requires
        0 <= i < marks.len(),
        !marks[i],
    ensures
        count_unmarked(marks.update(i, true)) < count_unmarked(marks),
    decreases marks.len(),
{
    let updated = marks.update(i, true);
    if i == marks.len() - 1 {
        assert(updated.drop_last() =~= marks.drop_last());
    } else {
        assert(updated.drop_last() =~= marks.drop_last().update(i, true));
        lemma_count_unmarked_mark(marks.drop_last(), i);
    }
}

proof fn lemma_graph_index(g: Seq<HelperView>, i: int)
    requires
        ids_sorted(g),
        0 <= i < g.len(),
    ensures
        graph_has(g, g[i].id),
        graph_index(g, g[i].id) == i,
{
    assert(graph_has(g, g[i].id));
    let k = graph_index(g, g[i].id);
    if k != i {
        if k < i {
            lemma_text_less_irreflexive(g[i].id);
        } else {
            lemma_text_less_irreflexive(g[i].id);
        }
    }
}

proof fn lemma_marked_finite(g: Seq<HelperView>, marks: Seq<bool>)
    ensures
        marked_ids(g, marks).finite(),
        marked_ids(g, marks).subset_of(helper_ids(g).to_set()),
{
    let all = helper_ids(g).to_set();
    assert forall|x: Seq<char>| marked_ids(g, marks).contains(x) implies all.contains(x) by {
        let i = choose|i: int| 0 <= i < g.len() && i < marks.len() && marks[i] && g[i].id == x;
        assert(helper_ids(g)[i] == x);
    }
    vstd::seq_lib::seq_to_set_is_finite(helper_ids(g));
    vstd::set_lib::lemma_len_subset(marked_ids(g, marks), all);
}

proof fn lemma_marked_update(g: Seq<HelperView>, marks: Seq<bool>, i: int, value: bool)
    requires
        ids_sorted(g),
        marks.len() == g.len(),
        0 <= i < g.len(),
    ensures
        value ==> marked_ids(g, marks.update(i, value)) == marked_ids(g, marks).insert(g[i].id),
        !value ==> marked_ids(g, marks.update(i, value)) == marked_ids(g, marks).remove(g[i].id),
{
    let after = marks.update(i, value);
    if value {
        assert forall|x: Seq<char>| #[trigger] marked_ids(g, after).contains(x) <==> marked_ids(g, marks).insert(
            g[i].id,
        ).contains(x) by {
            if marked_ids(g, marks).contains(x) {
                let k = choose|k: int| 0 <= k < g.len() && k < marks.len() && marks[k] && g[k].id == x;
                assert(after[k]);
            }
            if x == g[i].id {
                assert(after[i]);
            }
            if marked_ids(g, after).contains(x) {
                let k = choose|k: int| 0 <= k < g.len() && k < after.len() && after[k] && g[k].id == x;
                if k != i {
                    assert(marks[k]);
                }
            }
        }
        assert(marked_ids(g, after) =~= marked_ids(g, marks).insert(g[i].id));
    } else {
        assert forall|x: Seq<char>| #[trigger] marked_ids(g, after).contains(x) <==> marked_ids(g, marks).remove(
            g[i].id,
        ).contains(x) by {
            if marked_ids(g, after).contains(x) {
                let k = choose|k: int| 0 <= k < g.len() && k < after.len() && after[k] && g[k].id == x;
                assert(k != i);
                assert(marks[k]);
                lemma_graph_index(g, k);
                lemma_graph_index(g, i);
            }
            if marked_ids(g, marks).contains(x) && x != g[i].id {
                let k = choose|k: int| 0 <= k < g.len() && k < marks.len() && marks[k] && g[k].id == x;
                assert(after[k]);
            }
        }
        assert(marked_ids(g, after) =~= marked_ids(g, marks).remove(g[i].id));
    }
}

proof fn lemma_least_unique(g: Seq<HelperView>, ready: Set<Seq<char>>, v: Seq<char>)
    requires
        is_least(g, ready, v),
    ensures
        least_ready(g, ready) == v,
{
    let w = least_ready(g, ready);
    assert(is_least(g, ready, w));
    if w != v {
        assert(helper_before(g, v, w));
        assert(helper_before(g, w, v));
        if g[graph_index(g, v)].order == g[graph_index(g, w)].order {
            lemma_text_less_asymmetric(v, w);
        }
    }
}

/// Emitting helpers in the ready order lists each remaining helper exactly
/// once, after what was already done, and each after every helper it
/// requires.
pub proof fn law_topo_order(g: Seq<HelperView>, remaining: Set<Seq<char>>, done: Seq<Seq<char>>)
    requires
        remaining.finite(),
        done.no_duplicates(),
        remaining.disjoint(done.to_set()),
    ensures
        topo_order(g, remaining, done) matches Ok(order) ==> {
            &&& order.no_duplicates()
            &&& order.to_set() == done.to_set().union(remaining)
            &&& order.len() == done.len() + remaining.len()
            &&& done.is_prefix_of(order)
            &&& forall|i: int|
                done.len() <= i < order.len() ==> helper_deps(g, #[trigger] order[i]).subset_of(
                    order.take(i).to_set(),
                )
        },
    decreases remaining.len(),
{
    if remaining.len() == 0 {
        assert(remaining =~= Set::<Seq<char>>::empty());
        assert(done.to_set().union(remaining) =~= done.to_set());
        assert(done.subrange(0, done.len() as int) =~= done);
    } else {
        let ready = ready_ids(g, remaining, done.to_set());
        vstd::set_lib::lemma_len_subset(ready, remaining);
        if ready.len() != 0 {
            let v = least_ready(g, ready);
            assert(ready.contains(v)) by {
                if !(exists|w: Seq<char>| is_least(g, ready, w)) {
                    assert(ready.contains(ready.choose()));
                }
            }
            assert(remaining.contains(v));
            let rest = remaining.remove(v);
            let next = done.push(v);
            assert(!done.to_set().contains(v));
            assert(!done.contains(v));
            assert(next.no_duplicates()) by {
                assert forall|i: int, j: int| 0 <= i < j < next.len() implies next[i] != next[j] by {
                    if j == next.len() - 1 {
                        assert(next[i] == done[i]);
                        assert(done.contains(done[i]));
                    } else {
                        assert(next[i] == done[i] && next[j] == done[j]);
                    }
                }
            }
            assert(next.to_set() =~= done.to_set().insert(v)) by {
                assert forall|x: Seq<char>| next.to_set().contains(x) <==> done.to_set().insert(v).contains(x) by {
                    if next.contains(x) {
                        let q = next.index_of(x);
                        if q < done.len() {
                            assert(done[q] == x);
                        }
                    }
                    if done.contains(x) {
                        let q = done.index_of(x);
                        assert(next[q] == x);
                    }
                    if x == v {
                        assert(next[next.len() - 1] == x);
                    }
                }
            }
            assert(rest.disjoint(next.to_set()));
            law_topo_order(g, rest, next);
            match topo_order(g, rest, next) {
                Ok(order) => {
                    assert(topo_order(g, remaining, done) == topo_order(g, rest, next));
                    assert(next.to_set().union(rest) =~= done.to_set().union(remaining));
                    assert(order.subrange(0, next.len() as int) == next);
                    assert(order.subrange(0, done.len() as int) =~= done) by {
                        assert forall|q: int| 0 <= q < done.len() implies order.subrange(0, done.len() as int)[q] == done[q] by {
                            assert(order.subrange(0, next.len() as int)[q] == next[q]);
                        }
                    }
                    assert forall|i: int| done.len() <= i < order.len() implies helper_deps(
                        g,
                        #[trigger] order[i],
                    ).subset_of(order.take(i).to_set()) by {
                        if i == done.len() {
                            assert(order[i] == order.subrange(0, next.len() as int)[i]);
                            assert(order[i] == v);
                            assert(order.take(i) =~= done) by {
                                assert forall|q: int| 0 <= q < i implies order.take(i)[q] == done[q] by {
                                    assert(order.subrange(0, next.len() as int)[q] == next[q]);
                                }
                            }
                        }
                    }
                },
                Err(_) => {},
            }
        }
    }
}

/// The helpers that `roots` require: the roots, and every helper that a
/// required helper of the graph requires.
pub proof fn law_required_closed(g: Seq<HelperView>, roots: Set<Seq<char>>)
    ensures
        roots.subset_of(required_ids(g, roots)),
        forall|x: Seq<char>|
            #[trigger] required_ids(g, roots).contains(x) && graph_has(g, x) ==> helper_deps(g, x).subset_of(
                required_ids(g, roots),
            ),
{
    let req = required_ids(g, roots);
    assert forall|x: Seq<char>| roots.contains(x) implies req.contains(x) by {
        assert forall|s: Set<Seq<char>>| #[trigger] closed_selection(g, roots, s) implies s.contains(x) by {}
    }
    assert forall|x: Seq<char>| #[trigger] req.contains(x) && graph_has(g, x) implies helper_deps(g, x).subset_of(req) by {
        assert forall|d: Seq<char>| helper_deps(g, x).contains(d) implies req.contains(d) by {
            assert forall|s: Set<Seq<char>>| #[trigger] closed_selection(g, roots, s) implies s.contains(d) by {
                assert(s.contains(x));
            }
        }
    }
}

/// When every required helper is in the graph, a successful resolution lists
/// each required helper exactly once, each after every helper it requires.
pub proof fn law_resolve_order(g: Seq<HelperView>, roots: Set<Seq<char>>)
    requires
        all_present(g, roots),
    ensures
        topo_order(g, required_ids(g, roots), seq![]) matches Ok(order) ==> {
            &&& order.no_duplicates()
            &&& order.to_set() == required_ids(g, roots)
            &&& forall|i: int|
                0 <= i < order.len() ==> helper_deps(g, #[trigger] order[i]).subset_of(
                    order.take(i).to_set(),
                )
        },
{
    let req = required_ids(g, roots);
    let all = helper_ids(g).to_set();
    assert forall|x: Seq<char>| req.contains(x) implies all.contains(x) by {
        assert(graph_has(g, x));
        let i = choose|i: int| 0 <= i < g.len() && g[i].id == x;
        assert(helper_ids(g)[i] == x);
    }
    vstd::seq_lib::seq_to_set_is_finite(helper_ids(g));
    vstd::set_lib::lemma_len_subset(req, all);
    let none = Seq::<Seq<char>>::empty();
    assert(none.to_set() =~= Set::<Seq<char>>::empty());
    law_topo_order(g, req, none);
    assert(none.to_set().union(req) =~= req);
}

/// The strictly increasing sequence of the texts of `s`.
pub open spec fn sorted_texts(s: Set<Seq<char>>) -> Seq<Seq<char>> {
    choose|q: Seq<Seq<char>>| crate::order::strictly_sorted(q) && q.to_set() == s
}

pub(crate) proof fn lemma_sorted_unique(a: Seq<Seq<char>>, b: Seq<Seq<char>>)
    requires
        crate::order::strictly_sorted(a),
        crate::order::strictly_sorted(b),
        a.to_set() == b.to_set(),
    ensures
        a == b,
    decreases a.len(),
{
    if a.len() == 0 {
        if b.len() > 0 {
            assert(b.to_set().contains(b[0]));
        }
        assert(a =~= b);
    } else {
        assert(a.to_set().contains(a[0]));
        assert(b.len() > 0);
        assert(b.to_set().contains(b[0]));
        let p = b.index_of(a[0]);
        let q = a.index_of(b[0]);
        if a[0] != b[0] {
            assert(p > 0 && q > 0);
            assert(text_less(b[0], b[p]));
            assert(text_less(a[0], a[q]));
            lemma_text_less_asymmetric(b[0], a[0]);
        }
        let ra = a.drop_first();
        let rb = b.drop_first();
        assert(crate::order::strictly_sorted(ra)) by {
            assert forall|i: int, j: int| 0 <= i < j < ra.len() implies text_less(#[trigger] ra[i], #[trigger] ra[j]) by {
                assert(ra[i] == a[i + 1] && ra[j] == a[j + 1]);
            }
        }
        assert(crate::order::strictly_sorted(rb)) by {
            assert forall|i: int, j: int| 0 <= i < j < rb.len() implies text_less(#[trigger] rb[i], #[trigger] rb[j]) by {
                assert(rb[i] == b[i + 1] && rb[j] == b[j + 1]);
            }
        }
        assert(ra.to_set() =~= rb.to_set()) by {
            assert forall|x: Seq<char>| ra.to_set().contains(x) implies rb.to_set().contains(x) by {
                let i = ra.index_of(x);
                assert(a[i + 1] == x);
                assert(b.to_set().contains(x));
                let j = b.index_of(x);
                if j == 0 {
                    assert(text_less(a[0], a[i + 1]));
                    lemma_text_less_irreflexive(x);
                }
                assert(rb[j - 1] == x);
            }
            assert forall|x: Seq<char>| rb.to_set().contains(x) implies ra.to_set().contains(x) by {
                let j = rb.index_of(x);
                assert(b[j + 1] == x);
                assert(a.to_set().contains(x));
                let i = a.index_of(x);
                if i == 0 {
                    assert(text_less(b[0], b[j + 1]));
                    lemma_text_less_irreflexive(x);
                }
                assert(ra[i - 1] == x);
            }
        }
        lemma_sorted_unique(ra, rb);
        assert(a =~= seq![a[0]] + ra);
        assert(b =~= seq![b[0]] + rb);
    }
}

/// The number of helpers of the graph whose ID is not in `marked`.
pub open spec fn unmarked(g: Seq<HelperView>, marked: Set<Seq<char>>) -> nat
    decreases g.len(),
{
    if g.len() == 0 {
        0
    } else {
        unmarked(g.drop_last(), marked) + if marked.contains(g.last().id) {
            0nat
        } else {
            1nat
        }
    }
}

pub proof fn lemma_unmarked_insert(g: Seq<HelperView>, marked: Set<Seq<char>>, id: Seq<char>)
    ensures
        unmarked(g, marked.insert(id)) <= unmarked(g, marked),
        graph_has(g, id) && !marked.contains(id) ==> unmarked(g, marked.insert(id)) < unmarked(g, marked),
    decreases g.len(),
{
    if g.len() > 0 {
        lemma_unmarked_insert(g.drop_last(), marked, id);
        if graph_has(g, id) && !marked.contains(id) && g.last().id != id {
            let i = choose|i: int| 0 <= i < g.len() && g[i].id == id;
            assert(g.drop_last()[i] == g[i]);
            assert(graph_has(g.drop_last(), id));
        }
    }
}

/// The requests for what helper `id` requires, as the search pushes them: in
/// decreasing order, so that the least is taken first.
pub open spec fn dep_requests(g: Seq<HelperView>, id: Seq<char>) -> Seq<(Seq<char>, Option<Seq<char>>)> {
    sorted_texts(helper_deps(g, id)).reverse().map_values(|d: Seq<char>| (d, Some(id)))
}

/// The requests for the roots, in order.
pub open spec fn root_requests(roots: Seq<&str>) -> Seq<(Seq<char>, Option<Seq<char>>)> {
    roots.map_values(|r: &str| (r@, None::<Seq<char>>))
}

/// The depth-first search for the required helpers: takes the last pending
/// request; a helper missing from the graph ends it with that request; a new
/// helper is marked and its own requirements are pushed.
pub open spec fn search_required(
    g: Seq<HelperView>,
    pending: Seq<(Seq<char>, Option<Seq<char>>)>,
    marked: Set<Seq<char>>,
) -> Result<Set<Seq<char>>, (Seq<char>, Option<Seq<char>>)>
    decreases unmarked(g, marked), pending.len(),
{
    if pending.len() == 0 {
        Ok(marked)
    } else {
        let request = pending.last();
        let rest = pending.drop_last();
        if !graph_has(g, request.0) {
            Err(request)
        } else if marked.contains(request.0) {
            search_required(g, rest, marked)
        } else {
            proof {
                lemma_unmarked_insert(g, marked, request.0);
            }
            search_required(g, rest + dep_requests(g, request.0), marked.insert(request.0))
        }
    }
}

pub open spec fn text_option_of(o: Option<String>) -> Option<Seq<char>> {
    match o {
        Some(s) => Some(s@),
        None => None,
    }
}

/// Runtime helpers indexed by ID.
#[derive(Clone, Debug, PartialEq, Eq)]
pub struct RuntimeHelperGraph {
    helpers: Vec<RuntimeHelper>,
}

impl View for RuntimeHelperGraph {
    type V = Seq<HelperView>;

    /// The helpers in increasing order of ID.
    closed spec fn view(&self) -> Seq<HelperView> {
        helpers_view(self.helpers@)
    }
}

impl RuntimeHelperGraph {
    pub closed spec fn wf(&self) -> bool {
        &&& ids_sorted(self@)
        &&& forall|i: int| 0 <= i < self.helpers@.len() ==> (#[trigger] self.helpers@[i]).wf()
    }

    /// Indexes `helpers` by ID. The first helper, in the given order, whose ID
    /// is empty or repeats an earlier ID is refused.
    pub fn new(helpers: Vec<RuntimeHelper>) -> (result: Result<Self, HelperGraphError>)
        requires
            forall|i: int| 0 <= i < helpers@.len() ==> (#[trigger] helpers@[i]).wf(),
        ensures
            result is Ok <==> forall|k: int|
                0 <= k < helpers@.len() ==> !refused_at(helper_ids(helpers_view(helpers@)), k),
            result matches Ok(graph) ==> {
                &&& graph.wf()
                &&& graph@.to_set() == helpers_view(helpers@).to_set()
            },
            result matches Err(e) ==> exists|k: int|
                #[trigger] first_refusal(helper_ids(helpers_view(helpers@)), k) && refusal_error(
                    helper_ids(helpers_view(helpers@)),
                    k,
                    e,
                ),
    {
        let ghost original = helpers@;
        let ghost views = helpers_view(original);
        let ghost ids = helper_ids(views);
        let mut pending = helpers;
        let mut indexed: Vec<RuntimeHelper> = Vec::new();
        let ghost mut taken: int = 0;
        while pending.len() > 0
            invariant
                0 <= taken <= original.len(),
                pending@ == original.skip(taken),
                original == helpers@,
                views == helpers_view(original),
                ids == helper_ids(views),
                forall|i: int| 0 <= i < original.len() ==> (#[trigger] original[i]).wf(),
                forall|i: int| 0 <= i < indexed@.len() ==> (#[trigger] indexed@[i]).wf(),
                ids_sorted(helpers_view(indexed@)),
                helpers_view(indexed@).to_set() == views.take(taken).to_set(),
                forall|k: int| 0 <= k < taken ==> !refused_at(ids, k),
            decreases pending.len(),
        {
            let helper = pending.remove(0);
            let ghost indexed_view = helpers_view(indexed@);
            proof {
                assert(helper == original[taken]);
                assert(original.skip(taken + 1) =~= original.skip(taken).drop_first());
                assert(views[taken] == helper@);
                assert(ids[taken] == helper@.id);
            }
            if helper.id.as_str().is_empty() {
                proof {
                    assert(first_refusal(ids, taken));
                }
                return Err(HelperGraphError::InvalidId(helper.id));
            }
            let mut i: usize = 0;
            let mut stop = false;
            while i < indexed.len() && !stop
                invariant
                    i <= indexed.len(),
                    stop ==> i < indexed.len() && text_less(helper@.id, indexed_view[i as int].id),
                    original == helpers@,
                    indexed_view == helpers_view(indexed@),
                    ids_sorted(indexed_view),
                    indexed_view.to_set() == views.take(taken).to_set(),
                    views == helpers_view(original),
                    ids == helper_ids(views),
                    0 <= taken < original.len(),
                    helper@ == views[taken],
                    helper@.id.len() > 0,
                    forall|k: int| 0 <= k < taken ==> !refused_at(ids, k),
                    forall|j: int| 0 <= j < i ==> text_less(#[trigger] indexed_view[j].id, helper@.id),
                decreases indexed.len() + 1 - i - (if stop { 1int } else { 0int }),
            {
                match compare_text(indexed[i].id.as_str(), helper.id.as_str()) {
                    Comparison::Less => {
                        i += 1;
                    },
                    Comparison::Equal => {
                        proof {
                            assert(indexed_view[i as int].id == helper@.id);
                            assert(indexed_view.to_set().contains(indexed_view[i as int]));
                            assert(views.take(taken).to_set().contains(indexed_view[i as int]));
                            let j = views.take(taken).index_of(indexed_view[i as int]);
                            assert(views.take(taken)[j] == views[j]);
                            assert(ids[j] == ids[taken]);
                            assert(refused_at(ids, taken));
                            assert(first_refusal(ids, taken));
                        }
                        return Err(HelperGraphError::DuplicateId(helper.id));
                    },
                    Comparison::Greater => {
                        stop = true;
                    },
                }
            }
            proof {
                assert forall|j: int| i <= j < indexed_view.len() implies text_less(
                    helper@.id,
                    #[trigger] indexed_view[j].id,
                ) by {
                    if j == i {
                    } else {
                        lemma_text_less_transitive(helper@.id, indexed_view[i as int].id, indexed_view[j].id);
                    }
                }
                assert(!refused_at(ids, taken)) by {
                    if exists|j: int| 0 <= j < taken && ids[j] == ids[taken] {
                        let j = choose|j: int| 0 <= j < taken && ids[j] == ids[taken];
                        assert(views.take(taken)[j] == views[j]);
                        assert(views.take(taken).to_set().contains(views[j]));
                        assert(indexed_view.to_set().contains(views[j]));
                        let m = indexed_view.index_of(views[j]);
                        lemma_text_less_irreflexive(helper@.id);
                    }
                }
            }
            let ghost helper_view = helper@;
            indexed.insert(i, helper);
            proof {
                let after = helpers_view(indexed@);
                assert(after =~= indexed_view.insert(i as int, helper_view));
                lemma_insert_to_set(indexed_view, i as int, helper_view);
                assert(views.take(taken + 1) =~= views.take(taken).push(helper_view));
                assert(views.take(taken).push(helper_view) =~= views.take(taken).insert(taken, helper_view));
                lemma_insert_to_set(views.take(taken), taken, helper_view);
                taken = taken + 1;
            }
        }
        proof {
            assert(original.take(taken) =~= original);
            assert(views.take(taken) =~= views);
        }
        Ok(RuntimeHelperGraph { helpers: indexed })
    }

    /// The position of the helper with ID `id`, if any.
    fn find(&self, id: &str) -> (result: Option<usize>)
        requires
            self.wf(),
        ensures
            result matches Some(i) ==> i < self@.len() && self@[i as int].id == id@ && graph_index(
                self@,
                id@,
            ) == i,
            result is None ==> !graph_has(self@, id@),
    {
        let mut i: usize = 0;
        while i < self.helpers.len()
            invariant
                self.wf(),
                i <= self.helpers.len(),
                forall|j: int| 0 <= j < i ==> (#[trigger] self@[j]).id != id@,
            decreases self.helpers.len() - i,
        {
            assert(self@[i as int] == self.helpers@[i as int]@);
            let c = compare_text(self.helpers[i].id.as_str(), id);
            if matches!(c, Comparison::Equal) {
                proof {
                    lemma_graph_index(self@, i as int);
                }
                return Some(i);
            }
            proof {
                if self@[i as int].id == id@ {
                    lemma_text_less_irreflexive(id@);
                }
            }
            i += 1;
        }
        None
    }

    /// Marks every helper that `roots` require, depth first.
    #[verifier::rlimit(80)]
    fn select(&self, roots: &[&str]) -> (result: Result<Vec<bool>, HelperGraphError>)
        requires
            self.wf(),
        ensures
            result matches Ok(marks) ==> {
                &&& marks@.len() == self@.len()
                &&& forall|i: int|
                    0 <= i < self@.len() ==> (marks@[i] <==> required(
                        self@,
                        roots_view(roots@),
                        #[trigger] self@[i].id,
                    ))
                &&& forall|x: Seq<char>| required(self@, roots_view(roots@), x) ==> graph_has(self@, x)
            },
            result matches Err(e) ==> missing_error(self@, roots_view(roots@), e),
            result matches Ok(marks) ==> search_required(self@, root_requests(roots@), Set::empty()) == Ok::<
                Set<Seq<char>>,
                (Seq<char>, Option<Seq<char>>),
            >(marked_ids(self@, marks@)),
            result matches Err(e) ==> (e matches HelperGraphError::MissingId { id, required_by }
                && search_required(self@, root_requests(roots@), Set::empty()) == Err::<
                Set<Seq<char>>,
                (Seq<char>, Option<Seq<char>>),
            >((id@, text_option_of(required_by)))),
    {
        let ghost g = self@;
        let ghost rs = roots_view(roots@);
        let ghost init = root_requests(roots@);
        let n = self.helpers.len();
        let mut marks: Vec<bool> = Vec::new();
        while marks.len() < n
            invariant
                marks@.len() <= n,
                n == self.helpers.len(),
                forall|i: int| 0 <= i < marks@.len() ==> !marks@[i],
            decreases n - marks.len(),
        {
            marks.push(false);
        }
        let mut pending: Vec<(String, Option<String>)> = Vec::new();
        let mut r: usize = 0;
        while r < roots.len()
            invariant
                r <= roots.len(),
                rs == roots_view(roots@),
                pending_view(pending@).len() == r,
                forall|k: int| 0 <= k < r ==> #[trigger] pending_view(pending@)[k] == (roots@[k]@, None::<Seq<char>>),
            decreases roots.len() - r,
        {
            let ghost before = pending@;
            pending.push((roots[r].to_owned(), None));
            assert(pending_view(pending@) =~= pending_view(before).push((roots@[r as int]@, None::<Seq<char>>)));
            r += 1;
        }
        proof {
            let names = roots@.map_values(|r: &str| r@);
            assert forall|k: int| 0 <= k < pending@.len() implies pending_ok(
                g,
                rs,
                marks@,
                #[trigger] pending_view(pending@)[k],
            ) by {
                let x = roots@[k]@;
                assert(names[k] == x);
                assert(rs.contains(x));
                assert forall|s: Set<Seq<char>>| #[trigger] closed_selection(g, rs, s) implies s.contains(x) by {}
            }
            assert forall|x: Seq<char>| #[trigger] rs.contains(x) implies (marked_ids(g, marks@).contains(x) || exists|k: int|
                0 <= k < pending@.len() && #[trigger] pending_view(pending@)[k].0 == x) by {
                let k = names.index_of(x);
                assert(pending_view(pending@)[k].0 == x);
            }
            assert(pending_view(pending@) =~= init);
            assert(marked_ids(g, marks@) =~= Set::<Seq<char>>::empty());
        }
        while pending.len() > 0
            invariant
                self.wf(),
                g == self@,
                init == root_requests(roots@),
                search_required(g, init, Set::empty()) == search_required(
                    g,
                    pending_view(pending@),
                    marked_ids(g, marks@),
                ),
                rs == roots_view(roots@),
                marks@.len() == g.len(),
                forall|k: int|
                    0 <= k < pending@.len() ==> pending_ok(g, rs, marks@, #[trigger] pending_view(pending@)[k]),
                forall|i: int|
                    0 <= i < g.len() && marks@[i] ==> required(g, rs, #[trigger] g[i].id),
                forall|i: int, d: Seq<char>|
                    0 <= i < g.len() && marks@[i] && #[trigger] helper_deps(g, g[i].id).contains(d) ==> (
                    marked_ids(g, marks@).contains(d) || exists|k: int|
                        0 <= k < pending@.len() && #[trigger] pending_view(pending@)[k].0 == d),
                forall|x: Seq<char>|
                    #[trigger] rs.contains(x) ==> (marked_ids(g, marks@).contains(x) || exists|k: int|
                        0 <= k < pending@.len() && #[trigger] pending_view(pending@)[k].0 == x),
            decreases count_unmarked(marks@), pending@.len(),
        {
            let ghost before_pending = pending_view(pending@);
            let (id, required_by) = pending.pop().unwrap();
            let ghost popped = pending_view(pending@);
            let ghost request = (
                id@,
                match &required_by {
                    Some(r) => Some(r@),
                    None => None::<Seq<char>>,
                },
            );
            proof {
                assert(before_pending.drop_last() =~= popped);
                assert(before_pending.last() == request);
                assert(pending_ok(g, rs, marks@, request));
            }
            match self.find(id.as_str()) {
                None => {
                    proof {
                        match &required_by {
                            Some(r) => {
                                let k = choose|k: int| 0 <= k < g.len() && k < marks@.len() && marks@[k] && g[k].id == r@;
                                assert(required(g, rs, g[k].id));
                            },
                            None => {},
                        }
                        assert(text_option_of(required_by) == request.1);
                        assert(search_required(g, before_pending, marked_ids(g, marks@)) == Err::<
                            Set<Seq<char>>,
                            (Seq<char>, Option<Seq<char>>),
                        >(request));
                    }
                    return Err(HelperGraphError::MissingId { id, required_by });
                },
                Some(i) => {
                    if marks[i] {
                        proof {
                            assert(marked_ids(g, marks@).contains(id@));
                            assert(search_required(g, before_pending, marked_ids(g, marks@)) == search_required(
                                g,
                                popped,
                                marked_ids(g, marks@),
                            ));
                            assert forall|x: Seq<char>| #[trigger] rs.contains(x) implies (marked_ids(g, marks@).contains(x) || exists|k: int|
                                0 <= k < pending@.len() && #[trigger] pending_view(pending@)[k].0 == x) by {
                                if !marked_ids(g, marks@).contains(x) {
                                    let k = choose|k: int| 0 <= k < before_pending.len() && before_pending[k].0 == x;
                                    assert(k != before_pending.len() - 1);
                                    assert(pending_view(pending@)[k] == before_pending[k]);
                                }
                            }
                            assert forall|m: int, d: Seq<char>|
                                0 <= m < g.len() && marks@[m] && #[trigger] helper_deps(g, g[m].id).contains(d) implies (
                                marked_ids(g, marks@).contains(d) || exists|k: int|
                                    0 <= k < pending@.len() && #[trigger] pending_view(pending@)[k].0 == d) by {
                                if !marked_ids(g, marks@).contains(d) {
                                    let k = choose|k: int| 0 <= k < before_pending.len() && before_pending[k].0 == d;
                                    assert(k != before_pending.len() - 1);
                                    assert(pending_view(pending@)[k] == before_pending[k]);
                                }
                            }
                            assert forall|k: int| 0 <= k < pending@.len() implies pending_ok(g, rs, marks@, #[trigger] pending_view(pending@)[k]) by {
                                assert(pending_view(pending@)[k] == before_pending[k]);
                            }
                        }
                    } else {
                        let ghost old_marks = marks@;
                        proof {
                            if marked_ids(g, old_marks).contains(id@) {
                                let k = choose|k: int| 0 <= k < g.len() && k < old_marks.len() && old_marks[k] && g[k].id == id@;
                                lemma_graph_index(g, k);
                                lemma_graph_index(g, i as int);
                            }
                            assert(graph_has(g, id@));
                            assert(search_required(g, before_pending, marked_ids(g, old_marks)) == search_required(
                                g,
                                popped + dep_requests(g, id@),
                                marked_ids(g, old_marks).insert(id@),
                            ));
                        }
                        marks.set(i, true);
                        proof {
                            lemma_count_unmarked_mark(old_marks, i as int);
                            assert(marks@ == old_marks.update(i as int, true));
                            assert(marked_ids(g, old_marks).subset_of(marked_ids(g, marks@))) by {
                                assert forall|x: Seq<char>| marked_ids(g, old_marks).contains(x) implies marked_ids(g, marks@).contains(x) by {
                                    let k = choose|k: int| 0 <= k < g.len() && k < old_marks.len() && old_marks[k] && g[k].id == x;
                                    assert(marks@[k]);
                                }
                            }
                            assert(marks@[i as int] && g[i as int].id == id@);
                            assert(marked_ids(g, marks@).contains(id@));
                            assert forall|k: int| 0 <= k < pending@.len() implies pending_ok(g, rs, marks@, #[trigger] pending_view(pending@)[k]) by {
                                assert(pending_view(pending@)[k] == before_pending[k]);
                                assert(pending_ok(g, rs, old_marks, before_pending[k]));
                            }
                        }
                        let helper = &self.helpers[i];
                        let deps = helper.fragment.helper_roots.items();
                        let ghost dep_view = crate::order::texts_view(deps@);
                        proof {
                            assert(self.helpers@[i as int].wf());
                            helper.fragment.helper_roots.lemma_view();
                            assert(helper@ == g[i as int]);
                            assert(dep_view.to_set() == helper_deps(g, id@));
                        }
                        let ghost base = pending_view(pending@);
                        let mut j = deps.len();
                        while j > 0
                            invariant
                                j <= deps.len(),
                                dep_view == crate::order::texts_view(deps@),
                                dep_view.to_set() == helper_deps(g, id@),
                                required(g, rs, id@),
                                graph_has(g, id@),
                                marked_ids(g, marks@).contains(id@),
                                base.len() <= pending_view(pending@).len(),
                                forall|k: int| 0 <= k < base.len() ==> #[trigger] pending_view(pending@)[k] == base[k],
                                pending_view(pending@).len() == base.len() + (deps.len() - j),
                                forall|k: int| base.len() <= k < pending_view(pending@).len() ==> #[trigger] pending_view(pending@)[k] == (
                                    dep_view[deps.len() - 1 - (k - base.len())], Some(id@)),
                            decreases j,
                        {
                            j = j - 1;
                            let ghost prior = pending@;
                            pending.push((deps[j].clone(), Some(id.clone())));
                            assert(pending_view(pending@) =~= pending_view(prior).push((dep_view[j as int], Some(id@))));
                        }
                        proof {
                            let pv = pending_view(pending@);
                            lemma_marked_update(g, old_marks, i as int, true);
                            assert(crate::order::strictly_sorted(dep_view)) by {
                                helper.fragment.helper_roots.lemma_view();
                            }
                            assert(crate::order::strictly_sorted(dep_view) && dep_view.to_set() == helper_deps(g, id@));
                            let chosen = sorted_texts(helper_deps(g, id@));
                            lemma_sorted_unique(chosen, dep_view);
                            assert(pv =~= popped + dep_requests(g, id@)) by {
                                assert(base == popped);
                                assert forall|k: int| 0 <= k < pv.len() implies #[trigger] pv[k] == (popped + dep_requests(g, id@))[k] by {
                                    if k >= base.len() {
                                        assert(dep_requests(g, id@)[k - base.len()] == (dep_view.reverse()[k - base.len()], Some(id@)));
                                    }
                                }
                            }
                            assert forall|k: int| 0 <= k < pv.len() implies pending_ok(g, rs, marks@, #[trigger] pv[k]) by {
                                if k >= base.len() {
                                    let d = dep_view[deps.len() - 1 - (k - base.len())];
                                    assert(dep_view.to_set().contains(d));
                                    assert forall|s: Set<Seq<char>>| #[trigger] closed_selection(g, rs, s) implies s.contains(d) by {
                                        assert(s.contains(id@));
                                    }
                                } else {
                                    assert(pv[k] == base[k]);
                                }
                            }
                            assert forall|x: Seq<char>| #[trigger] rs.contains(x) implies (marked_ids(g, marks@).contains(x) || exists|k: int|
                                0 <= k < pending@.len() && #[trigger] pending_view(pending@)[k].0 == x) by {
                                if !marked_ids(g, marks@).contains(x) {
                                    assert(!marked_ids(g, old_marks).contains(x));
                                    let k = choose|k: int| 0 <= k < before_pending.len() && before_pending[k].0 == x;
                                    assert(k != before_pending.len() - 1);
                                    assert(pv[k] == before_pending[k]);
                                }
                            }
                            assert forall|m: int, d: Seq<char>|
                                0 <= m < g.len() && marks@[m] && #[trigger] helper_deps(g, g[m].id).contains(d) implies (
                                marked_ids(g, marks@).contains(d) || exists|k: int|
                                    0 <= k < pending@.len() && #[trigger] pending_view(pending@)[k].0 == d) by {
                                if !marked_ids(g, marks@).contains(d) {
                                    if m == i {
                                        assert(dep_view.to_set().contains(d));
                                        let q = dep_view.index_of(d);
                                        let k = base.len() + (deps.len() - 1 - q);
                                        assert(pv[k].0 == d);
                                    } else {
                                        assert(old_marks[m]);
                                        assert(!marked_ids(g, old_marks).contains(d));
                                        let k = choose|k: int| 0 <= k < before_pending.len() && before_pending[k].0 == d;
                                        assert(k != before_pending.len() - 1);
                                        assert(pv[k] == before_pending[k]);
                                    }
                                }
                            }
                        }
                    }
                },
            }
        }
        proof {
            let sel = marked_ids(g, marks@);
            assert forall|p: Seq<char>| #[trigger] sel.contains(p) && graph_has(g, p) implies helper_deps(g, p).subset_of(sel) by {
                let m = choose|m: int| 0 <= m < g.len() && m < marks@.len() && marks@[m] && g[m].id == p;
                assert(helper_deps(g, g[m].id).contains(p) ==> true);
                assert forall|d: Seq<char>| helper_deps(g, p).contains(d) implies sel.contains(d) by {
                    assert(helper_deps(g, g[m].id).contains(d));
                }
            }
            assert(rs.subset_of(sel));
            assert(closed_selection(g, rs, sel));
            assert forall|x: Seq<char>| required(g, rs, x) implies graph_has(g, x) by {
                assert(sel.contains(x));
            }
            assert forall|i: int| 0 <= i < g.len() implies (marks@[i] <==> required(g, rs, #[trigger] g[i].id)) by {
                if required(g, rs, g[i].id) {
                    assert(sel.contains(g[i].id));
                    let m = choose|m: int| 0 <= m < g.len() && m < marks@.len() && marks@[m] && g[m].id == g[i].id;
                    lemma_graph_index(g, i);
                    lemma_graph_index(g, m);
                }
            }
        }
        Ok(marks)
    }

    /// Whether every helper that helper `i` requires is marked in `emitted`.
    fn requirements_emitted(&self, i: usize, emitted: &Vec<bool>) -> (result: bool)
        requires
            self.wf(),
            i < self@.len(),
            emitted@.len() == self@.len(),
        ensures
            result == helper_deps(self@, self@[i as int].id).subset_of(marked_ids(self@, emitted@)),
    {
        let ghost g = self@;
        let helper = &self.helpers[i];
        let deps = helper.fragment.helper_roots.items();
        let ghost dep_view = crate::order::texts_view(deps@);
        proof {
            assert(self.helpers@[i as int].wf());
            helper.fragment.helper_roots.lemma_view();
            assert(helper@ == g[i as int]);
            lemma_graph_index(g, i as int);
            assert(dep_view.to_set() == helper_deps(g, g[i as int].id));
        }
        let mut k: usize = 0;
        while k < deps.len()
            invariant
                self.wf(),
                g == self@,
                emitted@.len() == g.len(),
                i < g.len(),
                k <= deps.len(),
                dep_view == crate::order::texts_view(deps@),
                dep_view.to_set() == helper_deps(g, g[i as int].id),
                forall|q: int| 0 <= q < k ==> marked_ids(g, emitted@).contains(#[trigger] dep_view[q]),
            decreases deps.len() - k,
        {
            match self.find(deps[k].as_str()) {
                None => {
                    proof {
                        assert(dep_view.to_set().contains(dep_view[k as int]));
                        if marked_ids(g, emitted@).contains(dep_view[k as int]) {
                            let m = choose|m: int| 0 <= m < g.len() && m < emitted@.len() && emitted@[m] && g[m].id == dep_view[k as int];
                        }
                    }
                    return false;
                },
                Some(j) => {
                    if !emitted[j] {
                        proof {
                            assert(dep_view.to_set().contains(dep_view[k as int]));
                            if marked_ids(g, emitted@).contains(dep_view[k as int]) {
                                let m = choose|m: int| 0 <= m < g.len() && m < emitted@.len() && emitted@[m] && g[m].id == dep_view[k as int];
                                lemma_graph_index(g, m);
                            }
                        }
                        return false;
                    }
                    proof {
                        assert(marked_ids(g, emitted@).contains(g[j as int].id));
                    }
                },
            }
            k += 1;
        }
        proof {
            assert forall|d: Seq<char>| dep_view.to_set().contains(d) implies marked_ids(g, emitted@).contains(d) by {
                let q = dep_view.index_of(d);
            }
        }
        true
    }

    /// Emits the marked helpers, each once all the helpers it requires are
    /// out, picking the smallest order number and then the smallest ID; the
    /// helpers left when none can go form the cycle.
    #[verifier::rlimit(40)]
    fn order_helpers(&self, selected: &Vec<bool>) -> (result: Result<Vec<usize>, HelperGraphError>)
        requires
            self.wf(),
            selected@.len() == self@.len(),
        ensures
            result is Ok <==> topo_order(self@, marked_ids(self@, selected@), seq![]) is Ok,
            result matches Ok(order) ==> {
                &&& forall|k: int| 0 <= k < order@.len() ==> #[trigger] order@[k] < self@.len()
                &&& topo_order(self@, marked_ids(self@, selected@), seq![]) == Ok::<
                    Seq<Seq<char>>,
                    Set<Seq<char>>,
                >(order@.map_values(|j: usize| self@[j as int].id))
            },
            result matches Err(e) ==> e matches HelperGraphError::Cycle(ids) && topo_order(
                self@,
                marked_ids(self@, selected@),
                seq![],
            ) == Err::<Seq<Seq<char>>, Set<Seq<char>>>(crate::order::texts_view(ids@).to_set())
                && crate::order::strictly_sorted(crate::order::texts_view(ids@)),
    {
        let ghost g = self@;
        let ghost start = marked_ids(g, selected@);
        let n = self.helpers.len();
        let mut waiting: Vec<bool> = Vec::new();
        let mut emitted: Vec<bool> = Vec::new();
        while waiting.len() < n
            invariant
                n == g.len(),
                g == self@,
                waiting@.len() <= n,
                emitted@.len() == waiting@.len(),
                selected@.len() == n,
                forall|k: int| 0 <= k < waiting@.len() ==> waiting@[k] == selected@[k],
                forall|k: int| 0 <= k < emitted@.len() ==> !emitted@[k],
            decreases n - waiting.len(),
        {
            let k = waiting.len();
            waiting.push(selected[k]);
            emitted.push(false);
        }
        assert(waiting@ =~= selected@);
        let mut order: Vec<usize> = Vec::new();
        proof {
            assert(marked_ids(g, emitted@) =~= Set::<Seq<char>>::empty());
            assert(order@.map_values(|j: usize| g[j as int].id) =~= Seq::<Seq<char>>::empty());
        }
        loop
            invariant
                self.wf(),
                g == self@,
                n == g.len(),
                waiting@.len() == n,
                emitted@.len() == n,
                forall|k: int| 0 <= k < n ==> #[trigger] waiting@[k] ==> !emitted@[k],
                forall|k: int| 0 <= k < order@.len() ==> #[trigger] order@[k] < n,
                marked_ids(g, emitted@) == order@.map_values(|j: usize| g[j as int].id).to_set(),
                topo_order(g, start, seq![]) == topo_order(
                    g,
                    marked_ids(g, waiting@),
                    order@.map_values(|j: usize| g[j as int].id),
                ),
                start == marked_ids(g, selected@),
            decreases count_unmarked(emitted@),
        {
            let ghost done = order@.map_values(|j: usize| g[j as int].id);
            let ghost remaining = marked_ids(g, waiting@);
            let ghost ready = ready_ids(g, remaining, done.to_set());
            let mut best: Option<usize> = None;
            let mut i: usize = 0;
            while i < n
                invariant
                    self.wf(),
                    g == self@,
                    n == g.len(),
                    i <= n,
                    waiting@.len() == n,
                    emitted@.len() == n,
                    best matches Some(b) ==> b < i && waiting@[b as int] && helper_deps(
                        g,
                        g[b as int].id,
                    ).subset_of(marked_ids(g, emitted@)) && forall|j: int|
                        0 <= j < i && j != b && waiting@[j] && helper_deps(g, g[j].id).subset_of(
                            marked_ids(g, emitted@),
                        ) ==> (g[b as int].order < #[trigger] g[j].order || (g[b as int].order == g[j].order
                            && b < j)),
                    best is None ==> forall|j: int|
                        0 <= j < i && #[trigger] waiting@[j] ==> !helper_deps(g, g[j].id).subset_of(
                            marked_ids(g, emitted@),
                        ),
                decreases n - i,
            {
                if waiting[i] && self.requirements_emitted(i, &emitted) {
                    match best {
                        None => {
                            best = Some(i);
                        },
                        Some(b) => {
                            assert(self@[i as int] == self.helpers@[i as int]@);
                            assert(self@[b as int] == self.helpers@[b as int]@);
                            if self.helpers[i].order < self.helpers[b].order {
                                best = Some(i);
                            }
                        },
                    }
                }
                i += 1;
            }
            proof {
                lemma_marked_finite(g, waiting@);
                lemma_marked_finite(g, emitted@);
            }
            match best {
                None => {
                    let mut ids: Vec<String> = Vec::new();
                    let mut k: usize = 0;
                    while k < n
                        invariant
                            self.wf(),
                            g == self@,
                            n == g.len(),
                            k <= n,
                            waiting@.len() == n,
                            crate::order::strictly_sorted(crate::order::texts_view(ids@)),
                            forall|q: int| 0 <= q < ids@.len() ==> exists|m: int| 0 <= m < k && waiting@[m] && #[trigger] crate::order::texts_view(ids@)[q] == g[m].id,
                            forall|m: int| 0 <= m < k && waiting@[m] ==> crate::order::texts_view(ids@).contains(#[trigger] g[m].id),
                            ids@.len() > 0 ==> exists|m: int| 0 <= m < k && waiting@[m] && crate::order::texts_view(ids@).last() == g[m].id && forall|m2: int| m < m2 < k ==> !#[trigger] waiting@[m2],
                        decreases n - k,
                    {
                        if waiting[k] {
                            let ghost before = crate::order::texts_view(ids@);
                            assert(self@[k as int] == self.helpers@[k as int]@);
                            ids.push(self.helpers[k].id.clone());
                            proof {
                                let after = crate::order::texts_view(ids@);
                                assert(after =~= before.push(g[k as int].id));
                                if before.len() > 0 {
                                    let m = choose|m: int| 0 <= m < k && waiting@[m] && before.last() == g[m].id && forall|m2: int| m < m2 < k ==> !#[trigger] waiting@[m2];
                                    assert(text_less(g[m].id, g[k as int].id));
                                    assert forall|a: int, b: int| 0 <= a < b < after.len() implies text_less(#[trigger] after[a], #[trigger] after[b]) by {
                                        if b == after.len() - 1 && a < before.len() - 1 {
                                            lemma_text_less_transitive(after[a], before.last(), g[k as int].id);
                                        }
                                    }
                                }
                                assert forall|q: int| 0 <= q < after.len() implies exists|m: int| 0 <= m < k + 1 && waiting@[m] && #[trigger] after[q] == g[m].id by {
                                    if q < before.len() {
                                        assert(after[q] == before[q]);
                                    } else {
                                        assert(after[q] == g[k as int].id);
                                    }
                                }
                                assert forall|m: int| 0 <= m < k + 1 && waiting@[m] implies after.contains(#[trigger] g[m].id) by {
                                    if m < k {
                                        let q = before.index_of(g[m].id);
                                        assert(after[q] == g[m].id);
                                    } else {
                                        assert(after[after.len() - 1] == g[m].id);
                                    }
                                }
                            }
                        }
                        k += 1;
                    }
                    proof {
                        let idv = crate::order::texts_view(ids@);
                        assert(ready =~= Set::<Seq<char>>::empty()) by {
                            assert forall|v: Seq<char>| !ready.contains(v) by {
                                if ready.contains(v) {
                                    let m = choose|m: int| 0 <= m < g.len() && m < waiting@.len() && waiting@[m] && g[m].id == v;
                                    lemma_graph_index(g, m);
                                }
                            }
                        }
                        assert(idv.to_set() =~= remaining) by {
                            assert forall|x: Seq<char>| idv.to_set().contains(x) implies remaining.contains(x) by {
                                let q = idv.index_of(x);
                                let m = choose|m: int| 0 <= m < k && waiting@[m] && #[trigger] idv[q] == g[m].id;
                            }
                            assert forall|x: Seq<char>| remaining.contains(x) implies idv.to_set().contains(x) by {
                                let m = choose|m: int| 0 <= m < g.len() && m < waiting@.len() && waiting@[m] && g[m].id == x;
                                assert(idv.contains(g[m].id));
                            }
                        }
                        if ids@.len() > 0 {
                            assert(remaining.contains(idv[0]));
                            assert(remaining.len() != 0);
                        } else {
                            assert(remaining =~= Set::<Seq<char>>::empty());
                        }
                    }
                    if ids.len() > 0 {
                        return Err(HelperGraphError::Cycle(ids));
                    }
                    return Ok(order);
                },
                Some(b) => {
                    proof {
                        let v = g[b as int].id;
                        lemma_graph_index(g, b as int);
                        assert(remaining.contains(v));
                        assert(ready.contains(v));
                        assert forall|w: Seq<char>| #[trigger] ready.contains(w) && w != v implies helper_before(g, v, w) by {
                            let m = choose|m: int| 0 <= m < g.len() && m < waiting@.len() && waiting@[m] && g[m].id == w;
                            lemma_graph_index(g, m);
                            assert(m != b);
                            if g[b as int].order == g[m].order {
                                assert(b < m);
                            }
                        }
                        assert(is_least(g, ready, v));
                        lemma_least_unique(g, ready, v);
                        assert(remaining.len() != 0);
                    }
                    let ghost old_waiting = waiting@;
                    let ghost old_emitted = emitted@;
                    waiting.set(b, false);
                    emitted.set(b, true);
                    order.push(b);
                    proof {
                        lemma_marked_update(g, old_waiting, b as int, false);
                        lemma_marked_update(g, old_emitted, b as int, true);
                        lemma_count_unmarked_mark(old_emitted, b as int);
                        let after = order@.map_values(|j: usize| g[j as int].id);
                        assert(after =~= done.push(g[b as int].id));
                        let v = g[b as int].id;
                        assert forall|x: Seq<char>| #[trigger] after.to_set().contains(x) <==> done.to_set().insert(v).contains(x) by {
                            if done.contains(x) {
                                let q = done.index_of(x);
                                assert(after[q] == x);
                            }
                            if x == v {
                                assert(after[after.len() - 1] == x);
                            }
                            if after.contains(x) {
                                let q = after.index_of(x);
                                if q < done.len() {
                                    assert(done[q] == x);
                                }
                            }
                        }
                        assert(after.to_set() =~= done.to_set().insert(v));
                    }
                },
            }
        }
    }

    /// The fragments of every helper that `roots` require, composed so that
    /// each helper follows the helpers it requires and, among helpers free to
    /// go, by order number and then ID; each helper appears once and the
    /// result has no helper roots left.
    pub fn resolve(&self, roots: &[&str]) -> (result: Result<LanguageFragment, HelperGraphError>)
        requires
            self.wf(),
        ensures
            result is Ok <==> all_present(self@, roots_view(roots@)) && topo_order(
                self@,
                required_ids(self@, roots_view(roots@)),
                seq![],
            ) is Ok,
            result matches Ok(fragment) ==> {
                &&& fragment.wf()
                &&& topo_order(self@, required_ids(self@, roots_view(roots@)), seq![]) matches Ok(order)
                    && fragment@ == resolved_view(self@, order)
            },
            result matches Err(e) ==> missing_error(self@, roots_view(roots@), e) || cycle_error(
                self@,
                roots_view(roots@),
                e,
            ),
            match search_required(self@, root_requests(roots@), Set::empty()) {
                Err(request) => result matches Err(HelperGraphError::MissingId { id, required_by }) && id@
                    == request.0 && text_option_of(required_by) == request.1,
                Ok(_) => !(result matches Err(HelperGraphError::MissingId { .. })),
            },
    {
        let ghost g = self@;
        let ghost rs = roots_view(roots@);
        let marks = match self.select(roots) {
            Ok(marks) => marks,
            Err(e) => {
                return Err(e);
            },
        };
        proof {
            assert(marked_ids(g, marks@) =~= required_ids(g, rs)) by {
                assert forall|x: Seq<char>| required_ids(g, rs).contains(x) implies marked_ids(g, marks@).contains(x) by {
                    assert(graph_has(g, x));
                    let i = choose|i: int| 0 <= i < g.len() && g[i].id == x;
                    assert(marks@[i]);
                }
            }
        }
        let order = self.order_helpers(&marks)?;
        let ghost done = order@.map_values(|j: usize| g[j as int].id);
        let mut fragments: Vec<LanguageFragment> = Vec::new();
        let mut k: usize = 0;
        while k < order.len()
            invariant
                self.wf(),
                g == self@,
                k <= order@.len(),
                forall|q: int| 0 <= q < order@.len() ==> #[trigger] order@[q] < g.len(),
                fragments@.len() == k,
                forall|q: int| 0 <= q < k ==> (#[trigger] fragments@[q]).wf(),
                forall|q: int| 0 <= q < k ==> #[trigger] fragments@[q]@ == g[order@[q] as int].fragment,
            decreases order.len() - k,
        {
            let j = order[k];
            proof {
                assert(order@[k as int] < g.len());
                assert(self.helpers@[j as int].wf());
                assert(g[j as int] == self.helpers@[j as int]@);
            }
            fragments.push(self.helpers[j].fragment.duplicate());
            k += 1;
        }
        proof {
            let views = fragments_view(fragments@);
            let wanted = done.map_values(|id: Seq<char>| g[graph_index(g, id)].fragment);
            assert forall|q: int| 0 <= q < views.len() implies #[trigger] views[q] == wanted[q] by {
                lemma_graph_index(g, order@[q] as int);
            }
            assert(views =~= wanted);
        }
        let composed = LanguageFragment::sequence(fragments);
        Ok(LanguageFragment {
            document: composed.document,
            imports: composed.imports,
            helper_roots: TextSet::new(),
        })
    }
}

} // verus!
