//! In-memory output artifacts: files with their contents, the manifest that
//! lists them, and the declared dependencies and injected helpers that travel
//! with it.
use vstd::prelude::*;

use crate::backend::{debug_text, quoted_message};
use crate::check::Diagnostic;
use crate::text::chars_of;
use crate::order::{
    compare_text, insert_sorted, insertion_sort, lemma_insert_sorted_at, lemma_text_less_asymmetric,
    lemma_text_less_irreflexive, list_less, text_less, texts_less, texts_view, Comparison,
};

verus! {

/// The contents of an output file.
#[derive(Clone, Debug, PartialEq, Eq)]
pub enum OutputContents {
    Text(String),
    Bytes(Vec<u8>),
}

/// The mathematical content of [`OutputContents`].
pub enum ContentsView {
    Text(Seq<char>),
    Bytes(Seq<u8>),
}

impl View for OutputContents {
    type V = ContentsView;

    open spec fn view(&self) -> ContentsView {
        match self {
            OutputContents::Text(text) => ContentsView::Text(text@),
            OutputContents::Bytes(bytes) => ContentsView::Bytes(bytes@),
        }
    }
}

/// One output file: a relative path and its contents.
#[derive(Clone, Debug, PartialEq, Eq)]
pub struct OutputFile {
    path: String,
    contents: OutputContents,
}

/// The mathematical content of an [`OutputFile`].
pub struct OutputFileView {
    pub path: Seq<char>,
    pub contents: ContentsView,
}

impl View for OutputFile {
    type V = OutputFileView;

    closed spec fn view(&self) -> OutputFileView {
        OutputFileView { path: self.path@, contents: self.contents@ }
    }
}

impl OutputFile {
    /// A text file.
    pub fn text(path: &str, contents: &str) -> (result: Self)
        ensures
            result@.path == path@,
            result@.contents == ContentsView::Text(contents@),
    {
        OutputFile { path: path.to_owned(), contents: OutputContents::Text(contents.to_owned()) }
    }

    /// A binary file.
    pub fn bytes(path: &str, contents: Vec<u8>) -> (result: Self)
        ensures
            result@.path == path@,
            result@.contents == ContentsView::Bytes(contents@),
    {
        OutputFile { path: path.to_owned(), contents: OutputContents::Bytes(contents) }
    }

    pub fn path(&self) -> (result: &str)
        ensures
            result@ == self@.path,
    {
        self.path.as_str()
    }

    pub fn contents(&self) -> (result: &OutputContents)
        ensures
            result@ == self@.contents,
    {
        &self.contents
    }
}

pub open spec fn output_views(files: Seq<OutputFile>) -> Seq<OutputFileView> {
    files.map_values(|f: OutputFile| f@)
}

/// A package dependency that generated code declares.
#[derive(Clone, Debug, PartialEq, Eq, PartialOrd, Ord)]
pub struct DeclaredDependency {
    pub ecosystem: String,
    pub name: String,
    pub requirement: String,
    pub features: Vec<String>,
}

/// A runtime helper injected into the output, with the files it occupies.
#[derive(Clone, Debug, PartialEq, Eq, PartialOrd, Ord)]
pub struct InjectedHelper {
    pub id: String,
    pub capability: String,
    pub files: Vec<String>,
}

/// The mathematical content of a [`DeclaredDependency`].
pub struct DependencyView {
    pub ecosystem: Seq<char>,
    pub name: Seq<char>,
    pub requirement: Seq<char>,
    pub features: Seq<Seq<char>>,
}

pub open spec fn texts(v: Seq<String>) -> Seq<Seq<char>> {
    v.map_values(|s: String| s@)
}

pub open spec fn dependency_view(d: DeclaredDependency) -> DependencyView {
    DependencyView {
        ecosystem: d.ecosystem@,
        name: d.name@,
        requirement: d.requirement@,
        features: texts(d.features@),
    }
}

pub open spec fn dependency_views(v: Seq<DeclaredDependency>) -> Seq<DependencyView> {
    v.map_values(|d: DeclaredDependency| dependency_view(d))
}

/// The mathematical content of an [`InjectedHelper`].
pub struct InjectedView {
    pub id: Seq<char>,
    pub capability: Seq<char>,
    pub files: Seq<Seq<char>>,
}

pub open spec fn helper_view(h: InjectedHelper) -> InjectedView {
    InjectedView { id: h.id@, capability: h.capability@, files: texts(h.files@) }
}

pub open spec fn helper_views(v: Seq<InjectedHelper>) -> Seq<InjectedView> {
    v.map_values(|h: InjectedHelper| helper_view(h))
}

fn duplicate_texts(v: &Vec<String>) -> (result: Vec<String>)
    ensures
        texts(result@) == texts(v@),
{
    let mut result: Vec<String> = Vec::new();
    let mut i: usize = 0;
    while i < v.len()
        invariant
            i <= v@.len(),
            texts(result@) == texts(v@).take(i as int),
        decreases v.len() - i,
    {
        let ghost before = result@;
        result.push(v[i].clone());
        assert(texts(result@) =~= texts(before).push(v@[i as int]@));
        assert(texts(v@).take(i + 1) =~= texts(v@).take(i as int).push(v@[i as int]@));
        i += 1;
    }
    assert(texts(v@).take(i as int) =~= texts(v@));
    result
}

/// An equal, independent copy of `v`.
pub fn duplicate_dependencies(v: &Vec<DeclaredDependency>) -> (result: Vec<DeclaredDependency>)
    ensures
        dependency_views(result@) == dependency_views(v@),
{
    let mut result: Vec<DeclaredDependency> = Vec::new();
    let mut i: usize = 0;
    while i < v.len()
        invariant
            i <= v@.len(),
            dependency_views(result@) == dependency_views(v@).take(i as int),
        decreases v.len() - i,
    {
        let d = &v[i];
        let ghost before = result@;
        result.push(
            DeclaredDependency {
                ecosystem: d.ecosystem.clone(),
                name: d.name.clone(),
                requirement: d.requirement.clone(),
                features: duplicate_texts(&d.features),
            },
        );
        assert(dependency_views(result@) =~= dependency_views(before).push(dependency_view(v@[i as int])));
        assert(dependency_views(v@).take(i + 1) =~= dependency_views(v@).take(i as int).push(
            dependency_view(v@[i as int]),
        ));
        i += 1;
    }
    assert(dependency_views(v@).take(i as int) =~= dependency_views(v@));
    result
}

/// An equal, independent copy of `v`.
pub fn duplicate_helpers(v: &Vec<InjectedHelper>) -> (result: Vec<InjectedHelper>)
    ensures
        helper_views(result@) == helper_views(v@),
{
    let mut result: Vec<InjectedHelper> = Vec::new();
    let mut i: usize = 0;
    while i < v.len()
        invariant
            i <= v@.len(),
            helper_views(result@) == helper_views(v@).take(i as int),
        decreases v.len() - i,
    {
        let h = &v[i];
        let ghost before = result@;
        result.push(
            InjectedHelper {
                id: h.id.clone(),
                capability: h.capability.clone(),
                files: duplicate_texts(&h.files),
            },
        );
        assert(helper_views(result@) =~= helper_views(before).push(helper_view(v@[i as int])));
        assert(helper_views(v@).take(i + 1) =~= helper_views(v@).take(i as int).push(
            helper_view(v@[i as int]),
        ));
        i += 1;
    }
    assert(helper_views(v@).take(i as int) =~= helper_views(v@));
    result
}

/// The files of a generated package, with its dependencies and helpers.
#[derive(Clone, Debug, PartialEq, Eq)]
pub struct OutputManifest {
    files: Vec<OutputFile>,
    dependencies: Vec<DeclaredDependency>,
    helpers: Vec<InjectedHelper>,
}

impl View for OutputManifest {
    type V = Seq<OutputFileView>;

    /// The files, in order.
    closed spec fn view(&self) -> Seq<OutputFileView> {
        output_views(self.files@)
    }
}

/// The position of the first file of `files` at `path`, if any.
pub open spec fn first_at(files: Seq<OutputFileView>, path: Seq<char>) -> Option<int> {
    if exists|i: int| 0 <= i < files.len() && files[i].path == path {
        Some(
            choose|i: int|
                0 <= i < files.len() && files[i].path == path && forall|j: int|
                    0 <= j < i ==> files[j].path != path,
        )
    } else {
        None
    }
}

/// Whether two slashes stand together at `i`.
pub open spec fn double_slash_at(p: Seq<char>, i: int) -> bool {
    0 <= i < p.len() - 1 && p[i] == '/' && p[i + 1] == '/'
}

/// Whether a name `.` or `..` starts at `i`.
pub open spec fn dot_name_at(p: Seq<char>, i: int) -> bool {
    &&& 0 <= i < p.len()
    &&& i == 0 || p[i - 1] == '/'
    &&& p[i] == '.'
    &&& i + 1 == p.len() || p[i + 1] == '/' || (p[i + 1] == '.' && (i + 2 == p.len() || p[i + 2] == '/'))
}

/// A relative output path: one or more names separated by single slashes,
/// none of them `.` or `..`; so it neither is absolute nor leaves the
/// output directory.
pub open spec fn plain_relative_path(p: Seq<char>) -> bool {
    &&& p.len() > 0
    &&& p[0] != '/'
    &&& p[p.len() - 1] != '/'
    &&& forall|i: int| !(#[trigger] double_slash_at(p, i))
    &&& forall|i: int| !(#[trigger] dot_name_at(p, i))
}

/// Whether `path` is a plain relative output path.
pub fn plain_path(path: &str) -> (result: bool)
    ensures
        result == plain_relative_path(path@),
{
    let c = chars_of(path);
    let n = c.len();
    if n == 0 {
        return false;
    }
    if c[0] == '/' || c[n - 1] == '/' {
        return false;
    }
    let mut i: usize = 0;
    while i < n
        invariant
            c@ == path@,
            n == c@.len(),
            n > 0,
            c@[0] != '/',
            c@[n - 1] != '/',
            i <= n,
            forall|j: int| j < i ==> !(#[trigger] double_slash_at(c@, j)),
            forall|j: int| j < i ==> !(#[trigger] dot_name_at(c@, j)),
        decreases n - i,
    {
        if i + 1 < n && c[i] == '/' && c[i + 1] == '/' {
            assert(double_slash_at(c@, i as int));
            return false;
        }
        if c[i] == '.' && (i == 0 || c[i - 1] == '/') {
            if i + 1 == n || c[i + 1] == '/' {
                assert(dot_name_at(c@, i as int));
                return false;
            }
            if c[i + 1] == '.' && (i + 2 == n || c[i + 2] == '/') {
                assert(dot_name_at(c@, i as int));
                return false;
            }
        }
        i += 1;
    }
    assert forall|j: int| !(#[trigger] double_slash_at(c@, j)) by {
        if j >= n as int {
        }
    }
    assert forall|j: int| !(#[trigger] dot_name_at(c@, j)) by {
        if j >= n as int {
        }
    }
    true
}

/// The message that refuses the output path `p`.
pub open spec fn unsafe_path_message(p: Seq<char>) -> Seq<char> {
    "unsafe relative output path "@ + debug_text(p)
}

/// The paths of `paths`, in order, that are not plain relative paths.
pub open spec fn unsafe_paths(paths: Seq<Seq<char>>) -> Seq<Seq<char>>
    decreases paths.len(),
{
    if paths.len() == 0 {
        Seq::empty()
    } else {
        let init = unsafe_paths(paths.drop_last());
        if plain_relative_path(paths.last()) {
            init
        } else {
            init.push(paths.last())
        }
    }
}

/// No path of `paths` is unsafe exactly when every one is plain.
pub proof fn lemma_unsafe_paths_empty(paths: Seq<Seq<char>>)
    ensures
        (unsafe_paths(paths).len() == 0) == (forall|i: int|
            0 <= i < paths.len() ==> plain_relative_path(#[trigger] paths[i])),
    decreases paths.len(),
{
    if paths.len() > 0 {
        lemma_unsafe_paths_empty(paths.drop_last());
        if unsafe_paths(paths).len() == 0 {
            assert forall|i: int| 0 <= i < paths.len() implies plain_relative_path(#[trigger] paths[i]) by {
                if i < paths.len() - 1 {
                    assert(paths.drop_last()[i] == paths[i]);
                }
            }
        } else {
            if forall|i: int| 0 <= i < paths.len() ==> plain_relative_path(#[trigger] paths[i]) {
                assert forall|i: int| 0 <= i < paths.drop_last().len() implies plain_relative_path(
                    #[trigger] paths.drop_last()[i],
                ) by {
                    assert(paths.drop_last()[i] == paths[i]);
                }
                assert(plain_relative_path(paths[paths.len() - 1]));
            }
        }
    }
}

/// Whether `diagnostics` refuse exactly the unsafe paths of `paths`, one
/// each, in order.
pub open spec fn reports_unsafe(diagnostics: Seq<Diagnostic>, paths: Seq<Seq<char>>) -> bool {
    &&& diagnostics.len() == unsafe_paths(paths).len()
    &&& forall|i: int|
        0 <= i < diagnostics.len() ==> (#[trigger] diagnostics[i]).code@ == "UnsafeOutputPath"@
            && diagnostics[i].message@ == unsafe_path_message(unsafe_paths(paths)[i])
}

pub open spec fn file_paths(files: Seq<OutputFileView>) -> Seq<Seq<char>> {
    files.map_values(|f: OutputFileView| f.path)
}

/// Whether `result` is the manifest of `files`, `dependencies` and `helpers`
/// when every path is a plain relative path, and otherwise the refusal of
/// each unsafe path.
pub open spec fn manifest_outcome(
    result: Result<OutputManifest, Vec<Diagnostic>>,
    files: Seq<OutputFileView>,
    dependencies: Seq<DependencyView>,
    helpers: Seq<InjectedView>,
) -> bool {
    &&& result is Ok <==> forall|i: int| 0 <= i < files.len() ==> plain_relative_path(#[trigger] files[i].path)
    &&& match result {
        Ok(manifest) => manifest@ == files && manifest.declared() == dependencies && manifest.injected() == helpers,
        Err(diagnostics) => reports_unsafe(diagnostics@, file_paths(files)),
    }
}

impl OutputManifest {
    /// A manifest of `files`, `dependencies` and `helpers` as given; refused,
    /// with one diagnostic for each, when a file's path is absolute or leaves
    /// the output directory.
    pub fn new(
        files: Vec<OutputFile>,
        dependencies: Vec<DeclaredDependency>,
        helpers: Vec<InjectedHelper>,
    ) -> (result: Result<Self, Vec<Diagnostic>>)
        ensures
            manifest_outcome(
                result,
                output_views(files@),
                dependency_views(dependencies@),
                helper_views(helpers@),
            ),
    {
        let ghost paths = file_paths(output_views(files@));
        let mut diagnostics: Vec<Diagnostic> = Vec::new();
        let mut i: usize = 0;
        while i < files.len()
            invariant
                i <= files@.len(),
                paths == file_paths(output_views(files@)),
                reports_unsafe(diagnostics@, paths.take(i as int)),
            decreases files.len() - i,
        {
            let path = files[i].path();
            proof {
                assert(paths.take(i + 1).drop_last() =~= paths.take(i as int));
                assert(paths.take(i + 1).last() == path@);
                reveal_strlit("");
            }
            if !plain_path(path) {
                let message = quoted_message("unsafe relative output path ", path, "");
                let ghost before = diagnostics@;
                diagnostics.push(Diagnostic { code: "UnsafeOutputPath", message });
                proof {
                    assert(message@ =~= unsafe_path_message(path@));
                    let u = unsafe_paths(paths.take(i + 1));
                    assert(u == unsafe_paths(paths.take(i as int)).push(path@));
                    assert forall|k: int| 0 <= k < diagnostics@.len() implies (
                    #[trigger] diagnostics@[k]).code@ == "UnsafeOutputPath"@ && diagnostics@[k].message@
                        == unsafe_path_message(u[k]) by {
                        if k < before.len() {
                            assert(diagnostics@[k] == before[k]);
                        }
                    }
                }
            }
            i += 1;
        }
        proof {
            assert(paths.take(i as int) =~= paths);
            lemma_unsafe_paths_empty(paths);
            let views = output_views(files@);
            assert(paths.len() == views.len());
            assert forall|k: int| 0 <= k < paths.len() implies #[trigger] paths[k] == views[k].path by {}
            if forall|k: int| 0 <= k < paths.len() ==> plain_relative_path(#[trigger] paths[k]) {
                assert forall|k: int| 0 <= k < views.len() implies plain_relative_path(#[trigger] views[k].path) by {
                    assert(paths[k] == views[k].path);
                }
            } else {
                let k = choose|k: int| 0 <= k < paths.len() && !plain_relative_path(#[trigger] paths[k]);
                assert(!plain_relative_path(views[k].path));
            }
        }
        if diagnostics.len() > 0 {
            Err(diagnostics)
        } else {
            Ok(OutputManifest { files, dependencies, helpers })
        }
    }

    /// The declared dependencies.
    pub closed spec fn declared(&self) -> Seq<DependencyView> {
        dependency_views(self.dependencies@)
    }

    /// The injected helpers.
    pub closed spec fn injected(&self) -> Seq<InjectedView> {
        helper_views(self.helpers@)
    }

    pub fn dependencies(&self) -> (result: &[DeclaredDependency])
        ensures
            dependency_views(result@) == self.declared(),
    {
        self.dependencies.as_slice()
    }

    pub fn helpers(&self) -> (result: &[InjectedHelper])
        ensures
            helper_views(result@) == self.injected(),
    {
        self.helpers.as_slice()
    }

    pub fn files(&self) -> (result: &[OutputFile])
        ensures
            output_views(result@) == self@,
    {
        self.files.as_slice()
    }

    /// The first file at `path`.
    pub fn file(&self, path: &str) -> (result: Option<&OutputFile>)
        ensures
            match first_at(self@, path@) {
                Some(i) => result matches Some(f) && f@ == self@[i],
                None => result is None,
            },
    {
        let mut i: usize = 0;
        while i < self.files.len()
            invariant
                i <= self.files.len(),
                forall|j: int| 0 <= j < i ==> (#[trigger] self@[j]).path != path@,
            decreases self.files.len() - i,
        {
            assert(self@[i as int] == self.files@[i as int]@);
            if matches!(compare_text(self.files[i].path.as_str(), path), Comparison::Equal) {
                proof {
                    assert(0 <= i < self@.len() && self@[i as int].path == path@ && forall|j: int|
                        0 <= j < i ==> self@[j].path != path@);
                    let k = choose|k: int|
                        0 <= k < self@.len() && self@[k].path == path@ && forall|j: int|
                            0 <= j < k ==> self@[j].path != path@;
                    assert(k == i) by {
                        if k < i {
                        } else if k > i {
                        }
                    }
                }
                return Some(&self.files[i]);
            }
            proof {
                if self@[i as int].path == path@ {
                    crate::order::lemma_text_less_irreflexive(path@);
                }
            }
            i += 1;
        }
        None
    }
}

/// Assembles a manifest for the prototype emitters: [`OutputManifest::new`].
pub fn assemble_output_manifest(
    files: Vec<OutputFile>,
    dependencies: Vec<DeclaredDependency>,
    helpers: Vec<InjectedHelper>,
) -> (result: Result<OutputManifest, Vec<Diagnostic>>)
    ensures
        manifest_outcome(result, output_views(files@), dependency_views(dependencies@), helper_views(helpers@)),
{
    OutputManifest::new(files, dependencies, helpers)
}

/// A file of the prototype emitters.
#[derive(Clone, Debug, PartialEq, Eq)]
pub struct GeneratedFile {
    pub path: String,
    pub contents: String,
}

/// A package of the prototype emitters.
#[derive(Clone, Debug, PartialEq, Eq)]
pub struct GeneratedPackage {
    pub files: Vec<GeneratedFile>,
}

impl GeneratedPackage {
    /// The contents of the first file at `path`.
    pub fn file(&self, path: &str) -> (result: Option<&str>)
        ensures
            match first_generated(self.files@, path@) {
                Some(i) => result matches Some(text) && text@ == self.files@[i].contents@,
                None => result is None,
            },
    {
        let mut i: usize = 0;
        while i < self.files.len()
            invariant
                i <= self.files.len(),
                forall|j: int| 0 <= j < i ==> (#[trigger] self.files@[j]).path@ != path@,
            decreases self.files.len() - i,
        {
            let c = compare_text(self.files[i].path.as_str(), path);
            if matches!(c, Comparison::Equal) {
                proof {
                    assert(0 <= i < self.files@.len() && self.files@[i as int].path@ == path@ && forall|j: int|
                        0 <= j < i ==> self.files@[j].path@ != path@);
                    let k = choose|k: int|
                        0 <= k < self.files@.len() && self.files@[k].path@ == path@ && forall|j: int|
                            0 <= j < k ==> self.files@[j].path@ != path@;
                    assert(k == i) by {
                        if k < i {
                        } else if k > i {
                        }
                    }
                }
                return Some(self.files[i].contents.as_str());
            }
            proof {
                if self.files@[i as int].path@ == path@ {
                    crate::order::lemma_text_less_irreflexive(path@);
                }
            }
            i += 1;
        }
        None
    }
}

/// The position of the first generated file at `path`, if any.
pub open spec fn first_generated(files: Seq<GeneratedFile>, path: Seq<char>) -> Option<int> {
    if exists|i: int| 0 <= i < files.len() && files[i].path@ == path {
        Some(
            choose|i: int|
                0 <= i < files.len() && files[i].path@ == path && forall|j: int|
                    0 <= j < i ==> files[j].path@ != path,
        )
    } else {
        None
    }
}

/// Whether text `a` is less than text `b`, as `String`'s order says.
pub open spec fn by_text() -> spec_fn(Seq<char>, Seq<char>) -> bool {
    |a: Seq<char>, b: Seq<char>| text_less(a, b)
}

/// The order of dependencies: by ecosystem, name, requirement, then features.
pub open spec fn dependency_less(a: DependencyView, b: DependencyView) -> bool {
    text_less(a.ecosystem, b.ecosystem) || (a.ecosystem == b.ecosystem && (text_less(a.name, b.name) || (
    a.name == b.name && (text_less(a.requirement, b.requirement) || (a.requirement == b.requirement
        && list_less(a.features, b.features))))))
}

pub open spec fn by_dependency() -> spec_fn(DependencyView, DependencyView) -> bool {
    |a: DependencyView, b: DependencyView| dependency_less(a, b)
}

/// The order of injected helpers: by ID, capability, then files.
pub open spec fn helper_less(a: InjectedView, b: InjectedView) -> bool {
    text_less(a.id, b.id) || (a.id == b.id && (text_less(a.capability, b.capability) || (a.capability
        == b.capability && list_less(a.files, b.files))))
}

pub open spec fn by_helper() -> spec_fn(InjectedView, InjectedView) -> bool {
    |a: InjectedView, b: InjectedView| helper_less(a, b)
}

/// Whether text `a` comes before text `b`: `Less` exactly when it does.
fn less_text(a: &str, b: &str) -> (result: bool)
    ensures
        result == text_less(a@, b@),
{
    match compare_text(a, b) {
        Comparison::Less => true,
        Comparison::Equal => {
            proof {
                lemma_text_less_irreflexive(a@);
            }
            false
        },
        Comparison::Greater => {
            proof {
                lemma_text_less_asymmetric(b@, a@);
            }
            false
        },
    }
}

fn same_text(a: &str, b: &str) -> (result: bool)
    ensures
        result == (a@ == b@),
{
    let c = compare_text(a, b);
    proof {
        if a@ == b@ && !matches!(c, Comparison::Equal) {
            lemma_text_less_irreflexive(a@);
        }
    }
    matches!(c, Comparison::Equal)
}

fn less_dependency(a: &DeclaredDependency, b: &DeclaredDependency) -> (result: bool)
    ensures
        result == dependency_less(dependency_view(*a), dependency_view(*b)),
{
    if less_text(a.ecosystem.as_str(), b.ecosystem.as_str()) {
        return true;
    }
    if !same_text(a.ecosystem.as_str(), b.ecosystem.as_str()) {
        return false;
    }
    if less_text(a.name.as_str(), b.name.as_str()) {
        return true;
    }
    if !same_text(a.name.as_str(), b.name.as_str()) {
        return false;
    }
    if less_text(a.requirement.as_str(), b.requirement.as_str()) {
        return true;
    }
    if !same_text(a.requirement.as_str(), b.requirement.as_str()) {
        return false;
    }
    proof {
        assert(texts(a.features@) == texts_view(a.features@));
        assert(texts(b.features@) == texts_view(b.features@));
    }
    texts_less(&a.features, &b.features)
}

fn less_helper(a: &InjectedHelper, b: &InjectedHelper) -> (result: bool)
    ensures
        result == helper_less(helper_view(*a), helper_view(*b)),
{
    if less_text(a.id.as_str(), b.id.as_str()) {
        return true;
    }
    if !same_text(a.id.as_str(), b.id.as_str()) {
        return false;
    }
    if less_text(a.capability.as_str(), b.capability.as_str()) {
        return true;
    }
    if !same_text(a.capability.as_str(), b.capability.as_str()) {
        return false;
    }
    proof {
        assert(texts(a.files@) == texts_view(a.files@));
        assert(texts(b.files@) == texts_view(b.files@));
    }
    texts_less(&a.files, &b.files)
}

/// `v` in increasing order of text; equal texts keep their order.
pub fn sort_texts(v: Vec<String>) -> (result: Vec<String>)
    ensures
        texts(result@) == insertion_sort(texts(v@), by_text()),
{
    let ghost original = v@;
    let ghost views = texts(original);
    let mut pending = v;
    let mut sorted: Vec<String> = Vec::new();
    let ghost mut taken: int = 0;
    assert(views.take(0) =~= Seq::<Seq<char>>::empty());
    while pending.len() > 0
        invariant
            0 <= taken <= original.len(),
            pending@ == original.skip(taken),
            views == texts(original),
            texts(sorted@) == insertion_sort(views.take(taken), by_text()),
        decreases pending.len(),
    {
        let item = pending.remove(0);
        proof {
            assert(item == original[taken]);
            assert(original.skip(taken + 1) =~= original.skip(taken).drop_first());
            assert(views.take(taken + 1).drop_last() =~= views.take(taken));
            assert(views.take(taken + 1).last() == item@);
        }
        let ghost current = texts(sorted@);
        let mut p: usize = 0;
        while p < sorted.len() && !less_text(item.as_str(), sorted[p].as_str())
            invariant
                p <= sorted@.len(),
                current == texts(sorted@),
                forall|j: int| 0 <= j < p ==> !(by_text())(item@, #[trigger] current[j]),
            decreases sorted.len() - p,
        {
            p += 1;
        }
        proof {
            lemma_insert_sorted_at(current, item@, by_text(), p as int);
        }
        sorted.insert(p, item);
        proof {
            assert(texts(sorted@) =~= current.insert(p as int, views[taken]));
            taken = taken + 1;
        }
    }
    assert(views.take(taken) =~= views);
    sorted
}

/// `v` in increasing dependency order.
pub fn sort_dependencies(v: Vec<DeclaredDependency>) -> (result: Vec<DeclaredDependency>)
    ensures
        dependency_views(result@) == insertion_sort(dependency_views(v@), by_dependency()),
{
    let ghost original = v@;
    let ghost views = dependency_views(original);
    let mut pending = v;
    let mut sorted: Vec<DeclaredDependency> = Vec::new();
    let ghost mut taken: int = 0;
    assert(views.take(0) =~= Seq::<DependencyView>::empty());
    while pending.len() > 0
        invariant
            0 <= taken <= original.len(),
            pending@ == original.skip(taken),
            views == dependency_views(original),
            dependency_views(sorted@) == insertion_sort(views.take(taken), by_dependency()),
        decreases pending.len(),
    {
        let item = pending.remove(0);
        proof {
            assert(item == original[taken]);
            assert(original.skip(taken + 1) =~= original.skip(taken).drop_first());
            assert(views.take(taken + 1).drop_last() =~= views.take(taken));
            assert(views.take(taken + 1).last() == dependency_view(item));
        }
        let ghost current = dependency_views(sorted@);
        let mut p: usize = 0;
        while p < sorted.len() && !less_dependency(&item, &sorted[p])
            invariant
                p <= sorted@.len(),
                current == dependency_views(sorted@),
                forall|j: int| 0 <= j < p ==> !(by_dependency())(dependency_view(item), #[trigger] current[j]),
            decreases sorted.len() - p,
        {
            p += 1;
        }
        proof {
            lemma_insert_sorted_at(current, dependency_view(item), by_dependency(), p as int);
        }
        sorted.insert(p, item);
        proof {
            assert(dependency_views(sorted@) =~= current.insert(p as int, views[taken]));
            taken = taken + 1;
        }
    }
    assert(views.take(taken) =~= views);
    sorted
}

/// A helper with its files in increasing order.
pub open spec fn files_sorted(h: InjectedView) -> InjectedView {
    InjectedView { files: insertion_sort(h.files, by_text()), ..h }
}

/// `v` with each helper's files sorted, in increasing helper order.
pub fn sort_helpers(v: Vec<InjectedHelper>) -> (result: Vec<InjectedHelper>)
    ensures
        helper_views(result@) == insertion_sort(
            helper_views(v@).map_values(|h: InjectedView| files_sorted(h)),
            by_helper(),
        ),
{
    let ghost original = v@;
    let ghost views = helper_views(original).map_values(|h: InjectedView| files_sorted(h));
    let mut pending = v;
    let mut sorted: Vec<InjectedHelper> = Vec::new();
    let ghost mut taken: int = 0;
    assert(views.take(0) =~= Seq::<InjectedView>::empty());
    while pending.len() > 0
        invariant
            0 <= taken <= original.len(),
            pending@ == original.skip(taken),
            views == helper_views(original).map_values(|h: InjectedView| files_sorted(h)),
            helper_views(sorted@) == insertion_sort(views.take(taken), by_helper()),
        decreases pending.len(),
    {
        let helper = pending.remove(0);
        proof {
            assert(helper == original[taken]);
            assert(original.skip(taken + 1) =~= original.skip(taken).drop_first());
        }
        let InjectedHelper { id, capability, files } = helper;
        let item = InjectedHelper { id, capability, files: sort_texts(files) };
        proof {
            assert(helper_view(item) == views[taken]);
            assert(views.take(taken + 1).drop_last() =~= views.take(taken));
            assert(views.take(taken + 1).last() == helper_view(item));
        }
        let ghost current = helper_views(sorted@);
        let mut p: usize = 0;
        while p < sorted.len() && !less_helper(&item, &sorted[p])
            invariant
                p <= sorted@.len(),
                current == helper_views(sorted@),
                forall|j: int| 0 <= j < p ==> !(by_helper())(helper_view(item), #[trigger] current[j]),
            decreases sorted.len() - p,
        {
            p += 1;
        }
        proof {
            lemma_insert_sorted_at(current, helper_view(item), by_helper(), p as int);
        }
        sorted.insert(p, item);
        proof {
            assert(helper_views(sorted@) =~= current.insert(p as int, views[taken]));
            taken = taken + 1;
        }
    }
    assert(views.take(taken) =~= views);
    sorted
}

} // verus!
