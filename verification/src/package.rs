//! Language source files, file groups and packages, and their rendering into
//! output files.
use vstd::prelude::*;

use crate::backend::BackendError;
use crate::document::{
    render, render_error_text, spec_render, trim_newlines, DocView, Document, FinalNewline,
    RenderError, RenderOptions,
};
use crate::language::{
    FileGroupId, FileRole, FragmentView, ImportKey, ImportSet, LanguageFragment,
    LanguagePackageError, LanguageUnit, SourceFileRole, TextFileRole, source_role, text_role,
};
use crate::order::{
    compare_text, insert_sorted, insertion_sort, lemma_text_less_irreflexive, lemma_text_less_total,
    text_less, Comparison,
};
use crate::output::{
    by_dependency, by_helper, dependency_views, duplicate_dependencies, duplicate_helpers, files_sorted,
    helper_views, output_views, sort_dependencies, sort_helpers, ContentsView, DeclaredDependency,
    DependencyView, InjectedHelper, InjectedView, OutputFile, OutputFileView, OutputManifest,
    file_paths, lemma_unsafe_paths_empty, plain_relative_path, reports_unsafe,
};
use crate::text::{push_text, string_from_chars};

verus! {

pub open spec fn unit_view(unit: Option<LanguageUnit>) -> Option<FragmentView> {
    match unit {
        Some(u) => Some(u@),
        None => None,
    }
}

pub open spec fn unit_wf(unit: Option<LanguageUnit>) -> bool {
    match unit {
        Some(u) => u.wf(),
        None => true,
    }
}

/// The mathematical content of a [`LanguageSourceFile`].
pub struct SourceView {
    pub path: Seq<char>,
    pub role: SourceFileRole,
    pub preamble: Option<FragmentView>,
    pub body: Option<FragmentView>,
    pub epilogue: Option<FragmentView>,
    pub options: RenderOptions,
}

/// A source file after target translation but before syntax rendering: an
/// optional preamble, body and epilogue, each a closed unit.
#[derive(Clone, Debug, PartialEq, Eq)]
pub struct LanguageSourceFile {
    path: String,
    role: SourceFileRole,
    preamble: Option<LanguageUnit>,
    body: Option<LanguageUnit>,
    epilogue: Option<LanguageUnit>,
    render_options: RenderOptions,
}

impl View for LanguageSourceFile {
    type V = SourceView;

    closed spec fn view(&self) -> SourceView {
        SourceView {
            path: self.path@,
            role: self.role,
            preamble: unit_view(self.preamble),
            body: unit_view(self.body),
            epilogue: unit_view(self.epilogue),
            options: self.render_options,
        }
    }
}

/// The imports of a section, if it is there.
pub open spec fn unit_imports(unit: Option<FragmentView>) -> Set<ImportKey> {
    match unit {
        Some(f) => f.imports,
        None => Set::empty(),
    }
}

/// The imports that the sections of `file` require together.
pub open spec fn source_imports(file: SourceView) -> Set<ImportKey> {
    unit_imports(file.preamble).union(unit_imports(file.body)).union(unit_imports(file.epilogue))
}

/// The default rendering options: width 100, a final newline, and the default
/// limits.
pub open spec fn default_options(o: RenderOptions) -> bool {
    &&& o.width == 100
    &&& o.final_newline == FinalNewline::Always
    &&& o.limits.max_depth == 4096
    &&& o.limits.max_nodes == 1_000_000
    &&& o.limits.max_output_bytes == 16 * 1024 * 1024
}

impl LanguageSourceFile {
    pub closed spec fn wf(&self) -> bool {
        unit_wf(self.preamble) && unit_wf(self.body) && unit_wf(self.epilogue)
    }

    /// An empty source file at `path`, rendered with the default options.
    pub fn new(path: &str, role: SourceFileRole) -> (result: Self)
        ensures
            result.wf(),
            result@.path == path@,
            result@.role == role,
            result@.preamble is None,
            result@.body is None,
            result@.epilogue is None,
            default_options(result@.options),
    {
        LanguageSourceFile {
            path: path.to_owned(),
            role,
            preamble: None,
            body: None,
            epilogue: None,
            render_options: RenderOptions::default(),
        }
    }

    pub fn path(&self) -> (result: &str)
        ensures
            result@ == self@.path,
    {
        self.path.as_str()
    }

    pub fn role(&self) -> (result: FileRole)
        ensures
            result == source_role(self@.role),
    {
        FileRole::from(self.role)
    }

    /// Sets the section rendered first.
    pub fn set_preamble(&mut self, unit: LanguageFragment)
        requires
            old(self).wf(),
            unit.wf(),
        ensures
            final(self).wf(),
            final(self)@ == (SourceView { preamble: Some(unit@), ..old(self)@ }),
    {
        self.preamble = Some(unit.into_unit());
    }

    /// Sets the section rendered after the imports.
    pub fn set_body(&mut self, unit: LanguageFragment)
        requires
            old(self).wf(),
            unit.wf(),
        ensures
            final(self).wf(),
            final(self)@ == (SourceView { body: Some(unit@), ..old(self)@ }),
    {
        self.body = Some(unit.into_unit());
    }

    /// Sets the section rendered last.
    pub fn set_epilogue(&mut self, unit: LanguageFragment)
        requires
            old(self).wf(),
            unit.wf(),
        ensures
            final(self).wf(),
            final(self)@ == (SourceView { epilogue: Some(unit@), ..old(self)@ }),
    {
        self.epilogue = Some(unit.into_unit());
    }

    pub fn set_render_options(&mut self, options: RenderOptions)
        ensures
            final(self)@ == (SourceView { options, ..old(self)@ }),
            old(self).wf() ==> final(self).wf(),
    {
        self.render_options = options;
    }

    /// The imports of all sections.
    pub fn imports(&self) -> (result: ImportSet)
        requires
            self.wf(),
        ensures
            result.wf(),
            result@ == source_imports(self@),
    {
        let mut imports = ImportSet::new();
        if let Some(unit) = &self.preamble {
            imports.merge(unit.imports());
        }
        if let Some(unit) = &self.body {
            imports.merge(unit.imports());
        }
        if let Some(unit) = &self.epilogue {
            imports.merge(unit.imports());
        }
        assert(imports@ =~= source_imports(self@));
        imports
    }
}

/// The options a section is rendered with: those of its file, with no
/// final newline.
pub open spec fn section_options(o: RenderOptions) -> RenderOptions {
    RenderOptions { final_newline: FinalNewline::Never, ..o }
}

pub open spec fn document_message(e: RenderError) -> Seq<char> {
    "cannot render language document: "@ + render_error_text(e)
}

pub open spec fn imports_message(m: Seq<char>) -> Seq<char> {
    "cannot render language imports: "@ + m
}

/// One rendered section, or the message of the render error.
pub open spec fn section_text(d: DocView, o: RenderOptions) -> Result<Seq<Seq<char>>, Seq<char>> {
    match spec_render(d, section_options(o)) {
        Ok(t) => Ok(seq![t.out]),
        Err(e) => Err(document_message(e)),
    }
}

pub open spec fn unit_section(unit: Option<FragmentView>, o: RenderOptions) -> Result<
    Seq<Seq<char>>,
    Seq<char>,
> {
    match unit {
        Some(f) => section_text(f.document, o),
        None => Ok(Seq::empty()),
    }
}

/// The import section from the renderer's reply (`None`: no imports).
pub open spec fn import_section(reply: Option<Result<DocView, Seq<char>>>, o: RenderOptions) -> Result<
    Seq<Seq<char>>,
    Seq<char>,
> {
    match reply {
        None => Ok(Seq::empty()),
        Some(Err(m)) => Err(imports_message(m)),
        Some(Ok(d)) => section_text(d, o),
    }
}

/// The sections of `a` then those of `b`; the first error wins.
pub open spec fn then_sections(
    a: Result<Seq<Seq<char>>, Seq<char>>,
    b: Result<Seq<Seq<char>>, Seq<char>>,
) -> Result<Seq<Seq<char>>, Seq<char>> {
    match a {
        Err(m) => Err(m),
        Ok(x) => match b {
            Err(m) => Err(m),
            Ok(y) => Ok(x + y),
        },
    }
}

/// Preamble, imports, body, epilogue.
pub open spec fn source_sections(file: SourceView, reply: Option<Result<DocView, Seq<char>>>) -> Result<
    Seq<Seq<char>>,
    Seq<char>,
> {
    then_sections(
        then_sections(
            then_sections(unit_section(file.preamble, file.options), import_section(reply, file.options)),
            unit_section(file.body, file.options),
        ),
        unit_section(file.epilogue, file.options),
    )
}

pub open spec fn is_nonempty() -> spec_fn(Seq<char>) -> bool {
    |s: Seq<char>| s.len() > 0
}

/// `sections` joined by blank lines.
pub open spec fn join_sections(sections: Seq<Seq<char>>) -> Seq<char>
    decreases sections.len(),
{
    if sections.len() == 0 {
        Seq::empty()
    } else if sections.len() == 1 {
        sections[0]
    } else {
        join_sections(sections.drop_last()) + seq!['\n', '\n'] + sections.last()
    }
}

/// The final-newline policy applied to a whole file.
pub open spec fn apply_final_newline(policy: FinalNewline, text: Seq<char>) -> Seq<char> {
    match policy {
        FinalNewline::Preserve => text,
        FinalNewline::Always => trim_newlines(text).push('\n'),
        FinalNewline::Never => trim_newlines(text),
    }
}

/// The text of a source file: its non-empty sections joined by blank lines,
/// under the file's final-newline policy; or the first error message.
pub open spec fn source_text(file: SourceView, reply: Option<Result<DocView, Seq<char>>>) -> Result<
    Seq<char>,
    Seq<char>,
> {
    match source_sections(file, reply) {
        Err(m) => Err(m),
        Ok(sections) => Ok(
            apply_final_newline(
                file.options.final_newline,
                join_sections(sections.filter(is_nonempty())),
            ),
        ),
    }
}

pub open spec fn reply_view(reply: Option<Result<Document, String>>) -> Option<Result<DocView, Seq<char>>> {
    match reply {
        None => None,
        Some(Ok(d)) => Some(Ok(d@)),
        Some(Err(m)) => Some(Err(m@)),
    }
}

/// Whether `result` is the text, or the generation error, that `expected`
/// says.
pub open spec fn outcome_is(result: Result<String, BackendError>, expected: Result<Seq<char>, Seq<char>>) -> bool {
    match expected {
        Ok(t) => result matches Ok(s) && s@ == t,
        Err(m) => result matches Err(BackendError::Generation { message }) && message@ == m,
    }
}

fn generation_error(prefix: &str, message: &str) -> (result: BackendError)
    ensures
        result matches BackendError::Generation { message: m } && m@ == prefix@ + message@,
{
    let mut out: Vec<char> = Vec::new();
    push_text(&mut out, prefix);
    push_text(&mut out, message);
    BackendError::Generation { message: string_from_chars(&out) }
}

/// Renders one section with its file's options and no final newline.
fn render_section(document: &Document, options: RenderOptions) -> (result: Result<String, BackendError>)
    ensures
        match section_text(document@, options) {
            Ok(s) => result matches Ok(t) && seq![t@] == s,
            Err(m) => result matches Err(BackendError::Generation { message }) && message@ == m,
        },
{
    let section = RenderOptions { final_newline: FinalNewline::Never, ..options };
    match render(document, section) {
        Ok(text) => Ok(text),
        Err(e) => {
            let message = e.message();
            Err(generation_error("cannot render language document: ", message.as_str()))
        },
    }
}

/// Appends the section of `unit`, if any, unless an error came first.
fn push_unit_section(
    sections: &mut Vec<String>,
    unit: &Option<LanguageUnit>,
    options: RenderOptions,
) -> (result: Result<(), BackendError>)
    ensures
        match unit_section(unit_view(*unit), options) {
            Ok(s) => result is Ok && strings(final(sections)@) == strings(old(sections)@) + s,
            Err(m) => result matches Err(BackendError::Generation { message }) && message@ == m,
        },
{
    match unit {
        Some(u) => {
            let text = render_section(u.document(), options)?;
            let ghost before = sections@;
            sections.push(text);
            assert(strings(sections@) =~= strings(before) + seq![sections@.last()@]);
            Ok(())
        },
        None => {
            assert(strings(sections@) =~= strings(sections@) + Seq::<Seq<char>>::empty());
            Ok(())
        },
    }
}

pub open spec fn strings(v: Seq<String>) -> Seq<Seq<char>> {
    v.map_values(|s: String| s@)
}

/// Joins the non-empty `sections` with blank lines.
fn join_nonempty(sections: &Vec<String>) -> (result: Vec<char>)
    ensures
        result@ == join_sections(strings(sections@).filter(is_nonempty())),
{
    let mut out: Vec<char> = Vec::new();
    let mut any = false;
    let mut i: usize = 0;
    while i < sections.len()
        invariant
            i <= sections@.len(),
            out@ == join_sections(strings(sections@).take(i as int).filter(is_nonempty())),
            any <==> strings(sections@).take(i as int).filter(is_nonempty()).len() > 0,
        decreases sections.len() - i,
    {
        let ghost prefix = strings(sections@).take(i as int);
        let ghost next = strings(sections@).take(i + 1);
        proof {
            assert(next.drop_last() =~= prefix);
            assert(next.last() == sections@[i as int]@);
            assert(next.filter(is_nonempty()) == if next.last().len() > 0 {
                prefix.filter(is_nonempty()).push(next.last())
            } else {
                prefix.filter(is_nonempty())
            }) by {
                assert(next =~= prefix.push(next.last()));
                prefix.lemma_filter_push(next.last(), is_nonempty());
            }
        }
        let text = sections[i].as_str();
        if !text.is_empty() {
            if any {
                out.push('\n');
                out.push('\n');
            }
            let ghost before = out@;
            push_text(&mut out, text);
            proof {
                let f = prefix.filter(is_nonempty());
                let g = next.filter(is_nonempty());
                assert(g.drop_last() =~= f);
                if f.len() == 0 {
                    assert(g.len() == 1);
                }
            }
            any = true;
        }
        i += 1;
    }
    assert(strings(sections@).take(i as int) =~= strings(sections@));
    out
}

/// Assembles a source file from its sections, given what the renderer
/// answered for its imports (`None` when the file has no imports).
pub fn assemble_source(file: &LanguageSourceFile, imports: Option<Result<Document, String>>) -> (result:
    Result<String, BackendError>)
    requires
        file.wf(),
    ensures
        outcome_is(result, source_text(file@, reply_view(imports))),
{
    let options = file.render_options;
    let ghost fv = file@;
    let ghost reply = reply_view(imports);
    let mut sections: Vec<String> = Vec::new();
    match push_unit_section(&mut sections, &file.preamble, options) {
        Err(e) => {
            return Err(e);
        },
        Ok(()) => {},
    }
    let ghost after_preamble = strings(sections@);
    assert(after_preamble =~= Seq::<Seq<char>>::empty() + after_preamble);
    match &imports {
        None => {},
        Some(Err(message)) => {
            return Err(generation_error("cannot render language imports: ", message.as_str()));
        },
        Some(Ok(document)) => {
            match render_section(document, options) {
                Err(e) => {
                    return Err(e);
                },
                Ok(text) => {
                    sections.push(text);
                },
            }
        },
    }
    let ghost after_imports = strings(sections@);
    proof {
        match imports {
            None => {
                assert(after_imports =~= after_preamble + Seq::<Seq<char>>::empty());
            },
            Some(Ok(d)) => {
                assert(after_imports =~= after_preamble + seq![sections@.last()@]);
            },
            Some(Err(m)) => {},
        }
        assert(then_sections(unit_section(fv.preamble, options), import_section(reply, options)) == Ok::<
            Seq<Seq<char>>,
            Seq<char>,
        >(after_imports));
    }
    match push_unit_section(&mut sections, &file.body, options) {
        Err(e) => {
            return Err(e);
        },
        Ok(()) => {},
    }
    match push_unit_section(&mut sections, &file.epilogue, options) {
        Err(e) => {
            return Err(e);
        },
        Ok(()) => {},
    }
    assert(source_sections(fv, reply) == Ok::<Seq<Seq<char>>, Seq<char>>(strings(sections@)));
    let mut out = join_nonempty(&sections);
    match options.final_newline {
        FinalNewline::Preserve => {},
        FinalNewline::Always => {
            trim_trailing_newlines(&mut out);
            out.push('\n');
        },
        FinalNewline::Never => {
            trim_trailing_newlines(&mut out);
        },
    }
    Ok(string_from_chars(&out))
}

fn trim_trailing_newlines(out: &mut Vec<char>)
    ensures
        final(out)@ == trim_newlines(old(out)@),
{
    while out.len() > 0 && out[out.len() - 1] == '\n'
        invariant
            trim_newlines(out@) == trim_newlines(old(out)@),
        decreases out.len(),
    {
        out.pop();
    }
}

pub open spec fn answer_view(reply: Result<Document, String>) -> Result<DocView, Seq<char>> {
    match reply {
        Ok(d) => Ok(d@),
        Err(m) => Err(m@),
    }
}

/// Syntax-only half of a language plugin: renders the imports that a source
/// file collected.
pub trait LanguageRenderer {
    /// The import section for `imports`, or why it cannot be written.
    fn render_imports(&self, imports: &ImportSet) -> Result<Document, String>;
}

/// Whether `answer` is an answer of `renderer` to a call of `render_imports`
/// on the imports `imports`.
pub open spec fn answers<R: LanguageRenderer>(
    renderer: &R,
    imports: Set<ImportKey>,
    answer: Result<DocView, Seq<char>>,
) -> bool {
    exists|set: ImportSet, reply: Result<Document, String>|
        set@ == imports && #[trigger] call_ensures(R::render_imports, (renderer, &set), reply) && answer_view(
            reply,
        ) == answer
}

/// Asks `renderer` for the import section of `imports`.
fn ask_renderer<R: LanguageRenderer>(renderer: &R, imports: &ImportSet) -> (result: Result<Document, String>)
    ensures
        call_ensures(R::render_imports, (renderer, imports), result),
{
    let ask = R::render_imports;
    ask(renderer, imports)
}

/// Renders a source file: its preamble first; then, when the file has
/// imports, the renderer's answer to all of them; then the sections
/// assembled.
pub fn render_source<R: LanguageRenderer>(file: &LanguageSourceFile, renderer: &R) -> (result: Result<
    String,
    BackendError,
>)
    requires
        file.wf(),
    ensures
        match result {
            Ok(text) => source_renders_to(renderer, file@, Ok(text@)),
            Err(BackendError::Generation { message }) => source_renders_to(renderer, file@, Err(message@)),
            Err(_) => false,
        },
{
    let mut scratch: Vec<String> = Vec::new();
    match push_unit_section(&mut scratch, &file.preamble, file.render_options) {
        Err(e) => {
            return Err(e);
        },
        Ok(()) => {},
    }
    let imports = file.imports();
    let reply = if imports.is_empty() {
        None
    } else {
        Some(ask_renderer(renderer, &imports))
    };
    let ghost asked = reply;
    let result = assemble_source(file, reply);
    proof {
        let r = reply_view(asked);
        assert(r is None <==> source_imports(file@).len() == 0);
        match asked {
            Some(answer) => {
                assert(r == Some(answer_view(answer)));
                assert(call_ensures(R::render_imports, (renderer, &imports), answer));
                assert(answers(renderer, source_imports(file@), answer_view(answer)));
            },
            None => {},
        }
        match source_text(file@, r) {
            Ok(t) => {
                assert(source_text(file@, r) == Ok::<Seq<char>, Seq<char>>(t));
            },
            Err(m) => {
                assert(source_text(file@, r) == Err::<Seq<char>, Seq<char>>(m));
            },
        }
    }
    result
}

/// Whether `outcome` is what rendering `file` gives: the preamble's error
/// if its preamble cannot be rendered; otherwise the file assembled with no
/// answer when it has no imports, and else with an answer of `renderer` to
/// all of its imports (the rendered imports or the renderer's message).
pub open spec fn source_renders_to<R: LanguageRenderer>(
    renderer: &R,
    file: SourceView,
    outcome: Result<Seq<char>, Seq<char>>,
) -> bool {
    match unit_section(file.preamble, file.options) {
        Err(m) => outcome == Err::<Seq<char>, Seq<char>>(m),
        Ok(_) => if source_imports(file).len() == 0 {
            source_text(file, None) == outcome
        } else {
            exists|answer: Result<DocView, Seq<char>>|
                #[trigger] answers(renderer, source_imports(file), answer) && source_text(file, Some(answer))
                    == outcome
        },
    }
}

#[derive(Clone, Debug, PartialEq, Eq)]
enum FileKind {
    Source(LanguageSourceFile),
    Text { path: String, role: FileRole, contents: String },
    Bytes { path: String, role: FileRole, contents: Vec<u8> },
}

/// The mathematical content of a [`LanguageFile`].
pub enum FileView {
    Source(SourceView),
    Text { path: Seq<char>, role: FileRole, contents: Seq<char> },
    Bytes { path: Seq<char>, role: FileRole, contents: Seq<u8> },
}

pub open spec fn file_path(f: FileView) -> Seq<char> {
    match f {
        FileView::Source(s) => s.path,
        FileView::Text { path, .. } => path,
        FileView::Bytes { path, .. } => path,
    }
}

pub open spec fn file_role(f: FileView) -> FileRole {
    match f {
        FileView::Source(s) => source_role(s.role),
        FileView::Text { role, .. } => role,
        FileView::Bytes { role, .. } => role,
    }
}

/// A role-safe generated package file: a source file to be rendered, or text
/// or bytes with a non-source role.
#[derive(Clone, Debug, PartialEq, Eq)]
pub struct LanguageFile {
    kind: FileKind,
}

impl View for LanguageFile {
    type V = FileView;

    closed spec fn view(&self) -> FileView {
        match self.kind {
            FileKind::Source(f) => FileView::Source(f@),
            FileKind::Text { path, role, contents } => FileView::Text {
                path: path@,
                role,
                contents: contents@,
            },
            FileKind::Bytes { path, role, contents } => FileView::Bytes {
                path: path@,
                role,
                contents: contents@,
            },
        }
    }
}

impl LanguageFile {
    pub closed spec fn wf(&self) -> bool {
        match self.kind {
            FileKind::Source(f) => f.wf(),
            _ => true,
        }
    }

    pub fn source(file: LanguageSourceFile) -> (result: Self)
        ensures
            result@ == FileView::Source(file@),
            result.wf() == file.wf(),
    {
        LanguageFile { kind: FileKind::Source(file) }
    }

    pub fn text(path: &str, role: TextFileRole, contents: &str) -> (result: Self)
        ensures
            result@ == (FileView::Text { path: path@, role: text_role(role), contents: contents@ }),
            result.wf(),
    {
        LanguageFile {
            kind: FileKind::Text {
                path: path.to_owned(),
                role: FileRole::from(role),
                contents: contents.to_owned(),
            },
        }
    }

    /// A binary asset.
    pub fn bytes(path: &str, contents: Vec<u8>) -> (result: Self)
        ensures
            result@ == (FileView::Bytes { path: path@, role: FileRole::Asset, contents: contents@ }),
            result.wf(),
    {
        LanguageFile { kind: FileKind::Bytes { path: path.to_owned(), role: FileRole::Asset, contents } }
    }

    pub fn path(&self) -> (result: &str)
        ensures
            result@ == file_path(self@),
    {
        match &self.kind {
            FileKind::Source(file) => file.path(),
            FileKind::Text { path, .. } => path.as_str(),
            FileKind::Bytes { path, .. } => path.as_str(),
        }
    }

    pub fn role(&self) -> (result: FileRole)
        ensures
            result == file_role(self@),
    {
        match &self.kind {
            FileKind::Source(file) => file.role(),
            FileKind::Text { role, .. } => *role,
            FileKind::Bytes { role, .. } => *role,
        }
    }
}

pub open spec fn files_view(files: Seq<LanguageFile>) -> Seq<FileView> {
    files.map_values(|f: LanguageFile| f@)
}

/// `x` placed into `s` after every file whose path is not greater.
pub open spec fn insert_by_path(s: Seq<FileView>, x: FileView) -> Seq<FileView>
    decreases s.len(),
{
    if s.len() == 0 {
        seq![x]
    } else if text_less(file_path(x), file_path(s[0])) {
        seq![x] + s
    } else {
        seq![s[0]] + insert_by_path(s.drop_first(), x)
    }
}

/// `files` in order of path; files with equal paths keep their order.
pub open spec fn sort_by_path(files: Seq<FileView>) -> Seq<FileView>
    decreases files.len(),
{
    if files.len() == 0 {
        Seq::empty()
    } else {
        insert_by_path(sort_by_path(files.drop_last()), files.last())
    }
}

proof fn lemma_insert_by_path(s: Seq<FileView>, x: FileView, p: int)
    requires
        0 <= p <= s.len(),
        forall|j: int| 0 <= j < p ==> !text_less(file_path(x), #[trigger] file_path(s[j])),
        p < s.len() ==> text_less(file_path(x), file_path(s[p])),
    ensures
        insert_by_path(s, x) == s.insert(p, x),
    decreases s.len(),
{
    if s.len() == 0 {
        assert(s.insert(p, x) =~= seq![x]);
    } else if p == 0 {
        assert(s.insert(0, x) =~= seq![x] + s);
    } else {
        let rest = s.drop_first();
        assert forall|j: int| 0 <= j < p - 1 implies !text_less(file_path(x), #[trigger] file_path(rest[j])) by {
            assert(rest[j] == s[j + 1]);
        }
        if p < s.len() {
            assert(rest[p - 1] == s[p]);
        }
        lemma_insert_by_path(rest, x, p - 1);
        assert(seq![s[0]] + rest.insert(p - 1, x) =~= s.insert(p, x));
    }
}

/// Whether `files` are in order of path.
pub open spec fn path_sorted(files: Seq<FileView>) -> bool {
    forall|i: int, j: int|
        0 <= i < j < files.len() ==> !text_less(#[trigger] file_path(files[j]), #[trigger] file_path(files[i]))
}

proof fn lemma_insert_by_path_sorted(s: Seq<FileView>, x: FileView)
    requires
        path_sorted(s),
    ensures
        path_sorted(insert_by_path(s, x)),
        insert_by_path(s, x).len() == s.len() + 1,
        forall|k: int|
            0 <= k < insert_by_path(s, x).len() ==> #[trigger] insert_by_path(s, x)[k] == x || s.contains(
                insert_by_path(s, x)[k],
            ),
    decreases s.len(),
{
    let r = insert_by_path(s, x);
    if s.len() == 0 {
    } else if text_less(file_path(x), file_path(s[0])) {
        assert forall|i: int, j: int| 0 <= i < j < r.len() implies !text_less(
            #[trigger] file_path(r[j]),
            #[trigger] file_path(r[i]),
        ) by {
            if i == 0 {
                assert(r[j] == s[j - 1]);
                if text_less(file_path(s[j - 1]), file_path(x)) {
                    crate::order::lemma_text_less_transitive(file_path(s[j - 1]), file_path(x), file_path(s[0]));
                    if j - 1 == 0 {
                        lemma_text_less_irreflexive(file_path(s[0]));
                    }
                }
            } else {
                assert(r[i] == s[i - 1] && r[j] == s[j - 1]);
            }
        }
        assert forall|k: int| 0 <= k < r.len() implies #[trigger] r[k] == x || s.contains(r[k]) by {
            if k > 0 {
                assert(r[k] == s[k - 1]);
            }
        }
    } else {
        let rest = s.drop_first();
        assert(path_sorted(rest)) by {
            assert forall|i: int, j: int| 0 <= i < j < rest.len() implies !text_less(
                #[trigger] file_path(rest[j]),
                #[trigger] file_path(rest[i]),
            ) by {
                assert(rest[i] == s[i + 1] && rest[j] == s[j + 1]);
            }
        }
        lemma_insert_by_path_sorted(rest, x);
        let inner = insert_by_path(rest, x);
        assert forall|i: int, j: int| 0 <= i < j < r.len() implies !text_less(
            #[trigger] file_path(r[j]),
            #[trigger] file_path(r[i]),
        ) by {
            if i == 0 {
                assert(r[j] == inner[j - 1]);
                if inner[j - 1] != x {
                    assert(rest.contains(inner[j - 1]));
                    let q = rest.index_of(inner[j - 1]);
                    assert(s[q + 1] == inner[j - 1]);
                }
            } else {
                assert(r[i] == inner[i - 1] && r[j] == inner[j - 1]);
            }
        }
        assert forall|k: int| 0 <= k < r.len() implies #[trigger] r[k] == x || s.contains(r[k]) by {
            if k > 0 {
                assert(r[k] == inner[k - 1]);
                if inner[k - 1] != x {
                    let q = rest.index_of(inner[k - 1]);
                    assert(s[q + 1] == inner[k - 1]);
                }
            } else {
                assert(r[0] == s[0]);
            }
        }
    }
}

pub open spec fn by_path() -> spec_fn(FileView, FileView) -> bool {
    |a: FileView, b: FileView| text_less(file_path(a), file_path(b))
}

proof fn lemma_insert_by_path_generic(s: Seq<FileView>, x: FileView)
    ensures
        insert_by_path(s, x) == insert_sorted(s, x, by_path()),
    decreases s.len(),
{
    if s.len() > 0 {
        lemma_insert_by_path_generic(s.drop_first(), x);
    }
}

proof fn lemma_sort_by_path_generic(files: Seq<FileView>)
    ensures
        sort_by_path(files) == insertion_sort(files, by_path()),
    decreases files.len(),
{
    if files.len() > 0 {
        lemma_sort_by_path_generic(files.drop_last());
        lemma_insert_by_path_generic(sort_by_path(files.drop_last()), files.last());
    }
}

proof fn lemma_files_sorted(files: Seq<FileView>)
    ensures
        path_sorted(sort_by_path(files)),
    decreases files.len(),
{
    if files.len() > 0 {
        lemma_files_sorted(files.drop_last());
        lemma_insert_by_path_sorted(sort_by_path(files.drop_last()), files.last());
    }
}

/// The files of `files` at path `q`, in order.
pub open spec fn files_at(files: Seq<FileView>, q: Seq<char>) -> Seq<FileView>
    decreases files.len(),
{
    if files.len() == 0 {
        Seq::empty()
    } else {
        let init = files_at(files.drop_last(), q);
        if file_path(files.last()) == q {
            init.push(files.last())
        } else {
            init
        }
    }
}

proof fn lemma_files_at_concat(a: Seq<FileView>, b: Seq<FileView>, q: Seq<char>)
    ensures
        files_at(a + b, q) == files_at(a, q) + files_at(b, q),
    decreases b.len(),
{
    if b.len() == 0 {
        assert(a + b =~= a);
        assert(files_at(a, q) + files_at(b, q) =~= files_at(a, q));
    } else {
        lemma_files_at_concat(a, b.drop_last(), q);
        assert((a + b).drop_last() =~= a + b.drop_last());
        assert((a + b).last() == b.last());
        if file_path(b.last()) == q {
            assert(files_at(a, q) + files_at(b.drop_last(), q).push(b.last()) =~= (files_at(a, q)
                + files_at(b.drop_last(), q)).push(b.last()));
        }
    }
}

proof fn lemma_files_at_none(s: Seq<FileView>, q: Seq<char>)
    requires
        forall|k: int| 0 <= k < s.len() ==> file_path(#[trigger] s[k]) != q,
    ensures
        files_at(s, q) == Seq::<FileView>::empty(),
    decreases s.len(),
{
    if s.len() > 0 {
        assert forall|k: int| 0 <= k < s.drop_last().len() implies file_path(#[trigger] s.drop_last()[k]) != q by {
            assert(s.drop_last()[k] == s[k]);
        }
        lemma_files_at_none(s.drop_last(), q);
        assert(file_path(s[s.len() - 1]) != q);
    }
}

proof fn lemma_files_at_single(x: FileView, q: Seq<char>)
    ensures
        files_at(seq![x], q) == (if file_path(x) == q {
            seq![x]
        } else {
            Seq::<FileView>::empty()
        }),
{
    assert(seq![x].drop_last() =~= Seq::<FileView>::empty());
    assert(files_at(Seq::<FileView>::empty(), q) =~= Seq::<FileView>::empty());
    assert(seq![x].last() == x);
    assert(Seq::<FileView>::empty().push(x) =~= seq![x]);
}

proof fn lemma_files_at_insert(s: Seq<FileView>, x: FileView, q: Seq<char>)
    requires
        path_sorted(s),
    ensures
        files_at(insert_by_path(s, x), q) == (if file_path(x) == q {
            files_at(s, q).push(x)
        } else {
            files_at(s, q)
        }),
    decreases s.len(),
{
    lemma_files_at_single(x, q);
    if s.len() == 0 {
        assert(files_at(s, q) =~= Seq::<FileView>::empty());
        assert(Seq::<FileView>::empty().push(x) =~= seq![x]);
    } else if text_less(file_path(x), file_path(s[0])) {
        lemma_files_at_concat(seq![x], s, q);
        if file_path(x) == q {
            assert forall|k: int| 0 <= k < s.len() implies file_path(#[trigger] s[k]) != q by {
                lemma_text_less_irreflexive(q);
                if k > 0 {
                    assert(!text_less(file_path(s[k]), file_path(s[0])));
                }
            }
            lemma_files_at_none(s, q);
            assert(seq![x] + Seq::<FileView>::empty() =~= Seq::<FileView>::empty().push(x));
        } else {
            assert(Seq::<FileView>::empty() + files_at(s, q) =~= files_at(s, q));
        }
    } else {
        let rest = s.drop_first();
        assert(path_sorted(rest)) by {
            assert forall|i: int, j: int| 0 <= i < j < rest.len() implies !text_less(
                #[trigger] file_path(rest[j]),
                #[trigger] file_path(rest[i]),
            ) by {
                assert(rest[i] == s[i + 1] && rest[j] == s[j + 1]);
            }
        }
        lemma_files_at_insert(rest, x, q);
        lemma_files_at_single(s[0], q);
        lemma_files_at_concat(seq![s[0]], insert_by_path(rest, x), q);
        assert(s =~= seq![s[0]] + rest);
        lemma_files_at_concat(seq![s[0]], rest, q);
        if file_path(x) == q {
            assert(files_at(seq![s[0]], q) + files_at(rest, q).push(x) =~= (files_at(seq![s[0]], q)
                + files_at(rest, q)).push(x));
        }
    }
}

proof fn lemma_sort_by_path_stable(files: Seq<FileView>, q: Seq<char>)
    ensures
        files_at(sort_by_path(files), q) == files_at(files, q),
    decreases files.len(),
{
    if files.len() > 0 {
        lemma_sort_by_path_stable(files.drop_last(), q);
        lemma_files_sorted(files.drop_last());
        lemma_files_at_insert(sort_by_path(files.drop_last()), files.last(), q);
    }
}

/// A file group lists all of its files, each as often as given, in order of
/// path; files with the same path keep the order they were given in.
pub proof fn law_files_sorted_by_path(files: Seq<FileView>)
    ensures
        path_sorted(sort_by_path(files)),
        sort_by_path(files).to_multiset() == files.to_multiset(),
        sort_by_path(files).len() == files.len(),
        forall|q: Seq<char>| #[trigger] files_at(sort_by_path(files), q) == files_at(files, q),
{
    assert forall|q: Seq<char>| #[trigger] files_at(sort_by_path(files), q) == files_at(files, q) by {
        lemma_sort_by_path_stable(files, q);
    }
    lemma_files_sorted(files);
    lemma_sort_by_path_generic(files);
    crate::order::law_insertion_sort_permutes(files, by_path());
}

/// A group of related generated files, kept in order of path.
#[derive(Clone, Debug, PartialEq, Eq)]
pub struct FileGroup {
    id: FileGroupId,
    files: Vec<LanguageFile>,
}

/// The mathematical content of a [`FileGroup`].
pub struct GroupView {
    pub id: Seq<char>,
    pub files: Seq<FileView>,
}

impl View for FileGroup {
    type V = GroupView;

    closed spec fn view(&self) -> GroupView {
        GroupView { id: self.id@, files: files_view(self.files@) }
    }
}

impl FileGroup {
    pub closed spec fn wf(&self) -> bool {
        forall|i: int| 0 <= i < self.files@.len() ==> (#[trigger] self.files@[i]).wf()
    }

    /// The group `id` of `files` sorted by path; an empty group is refused.
    pub fn new(id: FileGroupId, files: Vec<LanguageFile>) -> (result: Result<Self, LanguagePackageError>)
        requires
            forall|i: int| 0 <= i < files@.len() ==> (#[trigger] files@[i]).wf(),
        ensures
            result is Ok <==> files@.len() > 0,
            result matches Ok(group) ==> group.wf() && group@.id == id@ && group@.files == sort_by_path(
                files_view(files@),
            ),
            result matches Err(e) ==> e matches LanguagePackageError::EmptyGroup(g) && g@ == id@,
    {
        if files.len() == 0 {
            return Err(LanguagePackageError::EmptyGroup(id));
        }
        let ghost original = files@;
        let ghost views = files_view(original);
        let mut pending = files;
        let mut sorted: Vec<LanguageFile> = Vec::new();
        let ghost mut taken: int = 0;
        assert(views.take(0) =~= Seq::<FileView>::empty());
        while pending.len() > 0
            invariant
                0 <= taken <= original.len(),
                pending@ == original.skip(taken),
                views == files_view(original),
                forall|i: int| 0 <= i < original.len() ==> (#[trigger] original[i]).wf(),
                forall|i: int| 0 <= i < sorted@.len() ==> (#[trigger] sorted@[i]).wf(),
                files_view(sorted@) == sort_by_path(views.take(taken)),
            decreases pending.len(),
        {
            let file = pending.remove(0);
            proof {
                assert(file == original[taken]);
                assert(original.skip(taken + 1) =~= original.skip(taken).drop_first());
                assert(views.take(taken + 1).drop_last() =~= views.take(taken));
                assert(views.take(taken + 1).last() == file@);
            }
            let ghost current = files_view(sorted@);
            let mut p: usize = 0;
            let mut stop = false;
            while p < sorted.len() && !stop
                invariant
                    p <= sorted@.len(),
                    current == files_view(sorted@),
                    stop ==> p < sorted@.len() && text_less(file_path(file@), file_path(current[p as int])),
                    forall|j: int| 0 <= j < p ==> !text_less(file_path(file@), #[trigger] file_path(current[j])),
                decreases sorted.len() + 1 - p - (if stop { 1int } else { 0int }),
            {
                match compare_text(file.path(), sorted[p].path()) {
                    Comparison::Less => {
                        stop = true;
                    },
                    Comparison::Equal => {
                        proof {
                            lemma_text_less_irreflexive(file_path(file@));
                        }
                        p += 1;
                    },
                    Comparison::Greater => {
                        proof {
                            crate::order::lemma_text_less_asymmetric(file_path(current[p as int]), file_path(file@));
                        }
                        p += 1;
                    },
                }
            }
            proof {
                lemma_insert_by_path(current, file@, p as int);
            }
            sorted.insert(p, file);
            proof {
                assert(files_view(sorted@) =~= current.insert(p as int, views[taken]));
                taken = taken + 1;
            }
        }
        assert(original.take(taken) =~= original);
        assert(views.take(taken) =~= views);
        Ok(FileGroup { id, files: sorted })
    }

    pub fn id(&self) -> (result: &FileGroupId)
        ensures
            result@ == self@.id,
    {
        &self.id
    }

    pub fn files(&self) -> (result: &[LanguageFile])
        ensures
            files_view(result@) == self@.files,
    {
        self.files.as_slice()
    }
}

pub open spec fn groups_view(groups: Seq<FileGroup>) -> Seq<GroupView> {
    groups.map_values(|g: FileGroup| g@)
}

/// `x` placed into `s` after every group whose ID is not greater.
pub open spec fn insert_by_id(s: Seq<GroupView>, x: GroupView) -> Seq<GroupView>
    decreases s.len(),
{
    if s.len() == 0 {
        seq![x]
    } else if text_less(x.id, s[0].id) {
        seq![x] + s
    } else {
        seq![s[0]] + insert_by_id(s.drop_first(), x)
    }
}

/// `groups` in order of ID; groups with equal IDs keep their order.
pub open spec fn sort_by_id(groups: Seq<GroupView>) -> Seq<GroupView>
    decreases groups.len(),
{
    if groups.len() == 0 {
        Seq::empty()
    } else {
        insert_by_id(sort_by_id(groups.drop_last()), groups.last())
    }
}

proof fn lemma_insert_by_id(s: Seq<GroupView>, x: GroupView, p: int)
    requires
        0 <= p <= s.len(),
        forall|j: int| 0 <= j < p ==> !text_less(x.id, #[trigger] s[j].id),
        p < s.len() ==> text_less(x.id, s[p].id),
    ensures
        insert_by_id(s, x) == s.insert(p, x),
    decreases s.len(),
{
    if s.len() == 0 {
        assert(s.insert(p, x) =~= seq![x]);
    } else if p == 0 {
        assert(s.insert(0, x) =~= seq![x] + s);
    } else {
        let rest = s.drop_first();
        assert forall|j: int| 0 <= j < p - 1 implies !text_less(x.id, #[trigger] rest[j].id) by {
            assert(rest[j] == s[j + 1]);
        }
        if p < s.len() {
            assert(rest[p - 1] == s[p]);
        }
        lemma_insert_by_id(rest, x, p - 1);
        assert(seq![s[0]] + rest.insert(p - 1, x) =~= s.insert(p, x));
    }
}

/// Whether `groups` are in order of ID.
pub open spec fn id_sorted(groups: Seq<GroupView>) -> bool {
    forall|i: int, j: int| 0 <= i < j < groups.len() ==> !text_less(#[trigger] groups[j].id, #[trigger] groups[i].id)
}

proof fn lemma_insert_by_id_sorted(s: Seq<GroupView>, x: GroupView)
    requires
        id_sorted(s),
    ensures
        id_sorted(insert_by_id(s, x)),
        insert_by_id(s, x).len() == s.len() + 1,
        forall|k: int|
            0 <= k < insert_by_id(s, x).len() ==> #[trigger] insert_by_id(s, x)[k] == x || s.contains(
                insert_by_id(s, x)[k],
            ),
    decreases s.len(),
{
    let r = insert_by_id(s, x);
    if s.len() == 0 {
    } else if text_less(x.id, s[0].id) {
        assert forall|i: int, j: int| 0 <= i < j < r.len() implies !text_less(
            #[trigger] r[j].id,
            #[trigger] r[i].id,
        ) by {
            if i == 0 {
                assert(r[j] == s[j - 1]);
                if text_less(s[j - 1].id, x.id) {
                    crate::order::lemma_text_less_transitive(s[j - 1].id, x.id, s[0].id);
                    if j - 1 == 0 {
                        lemma_text_less_irreflexive(s[0].id);
                    }
                }
            } else {
                assert(r[i] == s[i - 1] && r[j] == s[j - 1]);
            }
        }
        assert forall|k: int| 0 <= k < r.len() implies #[trigger] r[k] == x || s.contains(r[k]) by {
            if k > 0 {
                assert(r[k] == s[k - 1]);
            }
        }
    } else {
        let rest = s.drop_first();
        assert(id_sorted(rest)) by {
            assert forall|i: int, j: int| 0 <= i < j < rest.len() implies !text_less(
                #[trigger] rest[j].id,
                #[trigger] rest[i].id,
            ) by {
                assert(rest[i] == s[i + 1] && rest[j] == s[j + 1]);
            }
        }
        lemma_insert_by_id_sorted(rest, x);
        let inner = insert_by_id(rest, x);
        assert forall|i: int, j: int| 0 <= i < j < r.len() implies !text_less(
            #[trigger] r[j].id,
            #[trigger] r[i].id,
        ) by {
            if i == 0 {
                assert(r[j] == inner[j - 1]);
                if inner[j - 1] != x {
                    assert(rest.contains(inner[j - 1]));
                    let q = rest.index_of(inner[j - 1]);
                    assert(s[q + 1] == inner[j - 1]);
                }
            } else {
                assert(r[i] == inner[i - 1] && r[j] == inner[j - 1]);
            }
        }
        assert forall|k: int| 0 <= k < r.len() implies #[trigger] r[k] == x || s.contains(r[k]) by {
            if k > 0 {
                assert(r[k] == inner[k - 1]);
                if inner[k - 1] != x {
                    let q = rest.index_of(inner[k - 1]);
                    assert(s[q + 1] == inner[k - 1]);
                }
            } else {
                assert(r[0] == s[0]);
            }
        }
    }
}

proof fn lemma_sort_by_id_sorted(groups: Seq<GroupView>)
    ensures
        id_sorted(sort_by_id(groups)),
        sort_by_id(groups).len() == groups.len(),
    decreases groups.len(),
{
    if groups.len() > 0 {
        lemma_sort_by_id_sorted(groups.drop_last());
        lemma_insert_by_id_sorted(sort_by_id(groups.drop_last()), groups.last());
    }
}

pub open spec fn by_id() -> spec_fn(GroupView, GroupView) -> bool {
    |a: GroupView, b: GroupView| text_less(a.id, b.id)
}

proof fn lemma_insert_by_id_generic(s: Seq<GroupView>, x: GroupView)
    ensures
        insert_by_id(s, x) == insert_sorted(s, x, by_id()),
    decreases s.len(),
{
    if s.len() > 0 {
        lemma_insert_by_id_generic(s.drop_first(), x);
    }
}

proof fn lemma_sort_by_id_generic(groups: Seq<GroupView>)
    ensures
        sort_by_id(groups) == insertion_sort(groups, by_id()),
    decreases groups.len(),
{
    if groups.len() > 0 {
        lemma_sort_by_id_generic(groups.drop_last());
        lemma_insert_by_id_generic(sort_by_id(groups.drop_last()), groups.last());
    }
}

/// The groups of a package are all the given groups, in strictly increasing
/// order of ID.
pub proof fn law_package_groups_strictly_sorted(groups: Seq<GroupView>)
    requires
        !has_adjacent_duplicate(sort_by_id(groups)),
    ensures
        sort_by_id(groups).to_multiset() == groups.to_multiset(),
        forall|i: int, j: int|
            0 <= i < j < sort_by_id(groups).len() ==> text_less(
                #[trigger] sort_by_id(groups)[i].id,
                #[trigger] sort_by_id(groups)[j].id,
            ),
{
    lemma_sort_by_id_sorted(groups);
    lemma_sort_by_id_generic(groups);
    crate::order::law_insertion_sort_permutes(groups, by_id());
    let s = sort_by_id(groups);
    assert forall|i: int| 0 <= i < s.len() - 1 implies text_less(#[trigger] s[i].id, s[i + 1].id) by {
        assert(!text_less(s[i + 1].id, s[i].id));
        lemma_text_less_total(s[i].id, s[i + 1].id);
        assert(s[i].id != s[i + 1].id);
    }
    assert forall|i: int, j: int| 0 <= i < j < s.len() implies text_less(#[trigger] s[i].id, #[trigger] s[j].id) by {
        lemma_adjacent_chain(s, i, j);
    }
}

proof fn lemma_adjacent_chain(s: Seq<GroupView>, i: int, j: int)
    requires
        0 <= i < j < s.len(),
        forall|k: int| 0 <= k < s.len() - 1 ==> text_less(#[trigger] s[k].id, s[k + 1].id),
    ensures
        text_less(s[i].id, s[j].id),
    decreases j - i,
{
    if j > i + 1 {
        lemma_adjacent_chain(s, i, j - 1);
        assert(text_less(s[j - 1].id, s[j].id));
        crate::order::lemma_text_less_transitive(s[i].id, s[j - 1].id, s[j].id);
    }
}

/// Whether neighbours `k` and `k + 1` of `groups` share an ID, and no earlier
/// neighbours do.
pub open spec fn first_adjacent_duplicate(groups: Seq<GroupView>, k: int) -> bool {
    &&& 0 <= k < groups.len() - 1
    &&& groups[k].id == groups[k + 1].id
    &&& forall|j: int| 0 <= j < k ==> #[trigger] groups[j].id != groups[j + 1].id
}

pub open spec fn has_adjacent_duplicate(groups: Seq<GroupView>) -> bool {
    exists|k: int| 0 <= k < groups.len() - 1 && #[trigger] groups[k].id == groups[k + 1].id
}

/// Every file's path with its group's ID, group by group.
pub open spec fn path_entries(groups: Seq<GroupView>) -> Seq<(Seq<char>, Seq<char>)>
    decreases groups.len(),
{
    if groups.len() == 0 {
        Seq::empty()
    } else {
        path_entries(groups.drop_last()) + groups.last().files.map_values(
            |f: FileView| (file_path(f), groups.last().id),
        )
    }
}

/// Whether entry `k` repeats the path of an earlier entry.
pub open spec fn repeats(entries: Seq<(Seq<char>, Seq<char>)>, k: int) -> bool {
    exists|j: int| 0 <= j < k && #[trigger] entries[j].0 == entries[k].0
}

/// Whether entry `k` is the first to repeat an earlier path.
pub open spec fn first_repeat(entries: Seq<(Seq<char>, Seq<char>)>, k: int) -> bool {
    &&& 0 <= k < entries.len()
    &&& repeats(entries, k)
    &&& forall|m: int| 0 <= m < k ==> !#[trigger] repeats(entries, m)
}

/// The error for a package whose groups, sorted by ID, are `sorted`.
pub open spec fn package_error(sorted: Seq<GroupView>, e: LanguagePackageError) -> bool {
    if has_adjacent_duplicate(sorted) {
        e matches LanguagePackageError::DuplicateGroup(id) && exists|k: int|
            #[trigger] first_adjacent_duplicate(sorted, k) && id@ == sorted[k].id
    } else {
        let entries = path_entries(sorted);
        e matches LanguagePackageError::DuplicatePath { path, first_group, second_group } && exists|
            k: int,
            j: int,
        |
            #[trigger] first_repeat(entries, k) && 0 <= j < k && #[trigger] entries[j].0 == entries[k].0
                && path@ == entries[k].0 && first_group@ == entries[j].1 && second_group@ == entries[k].1
    }
}

/// The mathematical content of a [`LanguagePackage`].
pub struct PackageView {
    pub groups: Seq<GroupView>,
    pub dependencies: Seq<DependencyView>,
    pub helpers: Seq<InjectedView>,
}

/// A target-language package: file groups in order of ID, no path twice.
#[derive(Clone, Debug, PartialEq, Eq)]
pub struct LanguagePackage {
    groups: Vec<FileGroup>,
    dependencies: Vec<DeclaredDependency>,
    helpers: Vec<InjectedHelper>,
}

impl View for LanguagePackage {
    type V = PackageView;

    closed spec fn view(&self) -> PackageView {
        PackageView {
            groups: groups_view(self.groups@),
            dependencies: dependency_views(self.dependencies@),
            helpers: helper_views(self.helpers@),
        }
    }
}

impl LanguagePackage {
    pub closed spec fn wf(&self) -> bool {
        forall|i: int| 0 <= i < self.groups@.len() ==> (#[trigger] self.groups@[i]).wf()
    }

    /// The package of `groups` sorted by ID, with its dependencies sorted and
    /// its helpers sorted, each with its files sorted. Two groups with one ID,
    /// or two files at one path, are refused.
    #[verifier::rlimit(30)]
    pub fn new(
        groups: Vec<FileGroup>,
        dependencies: Vec<DeclaredDependency>,
        helpers: Vec<InjectedHelper>,
    ) -> (result: Result<Self, LanguagePackageError>)
        requires
            forall|i: int| 0 <= i < groups@.len() ==> (#[trigger] groups@[i]).wf(),
        ensures
            result is Ok <==> !has_adjacent_duplicate(sort_by_id(groups_view(groups@))) && forall|k: int|
                0 <= k < path_entries(sort_by_id(groups_view(groups@))).len() ==> !#[trigger] repeats(
                    path_entries(sort_by_id(groups_view(groups@))),
                    k,
                ),
            result matches Ok(package) ==> {
                &&& package.wf()
                &&& package@.groups == sort_by_id(groups_view(groups@))
                &&& package@.dependencies == insertion_sort(dependency_views(dependencies@), by_dependency())
                &&& package@.helpers == insertion_sort(
                    helper_views(helpers@).map_values(|h: InjectedView| files_sorted(h)),
                    by_helper(),
                )
            },
            result matches Err(e) ==> package_error(sort_by_id(groups_view(groups@)), e),
    {
        let ghost original = groups@;
        let ghost views = groups_view(original);
        let mut pending = groups;
        let mut sorted: Vec<FileGroup> = Vec::new();
        let ghost mut taken: int = 0;
        assert(views.take(0) =~= Seq::<GroupView>::empty());
        while pending.len() > 0
            invariant
                0 <= taken <= original.len(),
                pending@ == original.skip(taken),
                views == groups_view(original),
                forall|i: int| 0 <= i < original.len() ==> (#[trigger] original[i]).wf(),
                forall|i: int| 0 <= i < sorted@.len() ==> (#[trigger] sorted@[i]).wf(),
                groups_view(sorted@) == sort_by_id(views.take(taken)),
            decreases pending.len(),
        {
            let group = pending.remove(0);
            proof {
                assert(group == original[taken]);
                assert(original.skip(taken + 1) =~= original.skip(taken).drop_first());
                assert(views.take(taken + 1).drop_last() =~= views.take(taken));
                assert(views.take(taken + 1).last() == group@);
            }
            let ghost current = groups_view(sorted@);
            let mut p: usize = 0;
            let mut stop = false;
            while p < sorted.len() && !stop
                invariant
                    p <= sorted@.len(),
                    current == groups_view(sorted@),
                    stop ==> p < sorted@.len() && text_less(group@.id, current[p as int].id),
                    forall|j: int| 0 <= j < p ==> !text_less(group@.id, #[trigger] current[j].id),
                decreases sorted.len() + 1 - p - (if stop { 1int } else { 0int }),
            {
                match compare_text(group.id.as_str(), sorted[p].id.as_str()) {
                    Comparison::Less => {
                        stop = true;
                    },
                    Comparison::Equal => {
                        proof {
                            lemma_text_less_irreflexive(group@.id);
                        }
                        p += 1;
                    },
                    Comparison::Greater => {
                        proof {
                            crate::order::lemma_text_less_asymmetric(current[p as int].id, group@.id);
                        }
                        p += 1;
                    },
                }
            }
            proof {
                lemma_insert_by_id(current, group@, p as int);
            }
            sorted.insert(p, group);
            proof {
                assert(groups_view(sorted@) =~= current.insert(p as int, views[taken]));
                taken = taken + 1;
            }
        }
        assert(original.take(taken) =~= original);
        assert(views.take(taken) =~= views);
        let ghost sv = groups_view(sorted@);
        let mut k: usize = 0;
        while sorted.len() > 0 && k < sorted.len() - 1
            invariant
                sv == groups_view(sorted@),
                sv == sort_by_id(groups_view(groups@)),
                k <= sorted@.len(),
                forall|j: int| 0 <= j < k ==> #[trigger] sv[j].id != sv[j + 1].id,
            decreases sorted.len() - k,
        {
            if matches!(compare_text(sorted[k].id.as_str(), sorted[k + 1].id.as_str()), Comparison::Equal) {
                let id = sorted[k].id.duplicate();
                proof {
                    assert(sv[k as int] == sorted@[k as int]@);
                    assert(sv[k + 1] == sorted@[k + 1]@);
                    assert(first_adjacent_duplicate(sv, k as int));
                    assert(has_adjacent_duplicate(sv));
                    assert(id@ == sv[k as int].id);
                }
                return Err(LanguagePackageError::DuplicateGroup(id));
            }
            proof {
                if sv[k as int].id == sv[k + 1].id {
                    lemma_text_less_irreflexive(sv[k as int].id);
                }
            }
            k += 1;
        }
        proof {
            assert(!has_adjacent_duplicate(sv)) by {
                if has_adjacent_duplicate(sv) {
                    let m = choose|m: int| 0 <= m < sv.len() - 1 && #[trigger] sv[m].id == sv[m + 1].id;
                }
            }
        }
        match check_paths(&sorted) {
            Err(e) => Err(e),
            Ok(()) => Ok(
                LanguagePackage {
                    groups: sorted,
                    dependencies: sort_dependencies(dependencies),
                    helpers: sort_helpers(helpers),
                },
            ),
        }
    }

    pub fn groups(&self) -> (result: &[FileGroup])
        ensures
            groups_view(result@) == self@.groups,
    {
        self.groups.as_slice()
    }
}

/// Refuses the first file whose path an earlier file already has.
#[verifier::rlimit(40)]
fn check_paths(groups: &Vec<FileGroup>) -> (result: Result<(), LanguagePackageError>)
    requires
        !has_adjacent_duplicate(groups_view(groups@)),
    ensures
        result is Ok <==> forall|k: int|
            0 <= k < path_entries(groups_view(groups@)).len() ==> !#[trigger] repeats(
                path_entries(groups_view(groups@)),
                k,
            ),
        result matches Err(e) ==> package_error(groups_view(groups@), e),
{
    let ghost gv = groups_view(groups@);
    let ghost all = path_entries(gv);
    let mut seen: Vec<(String, FileGroupId)> = Vec::new();
    let mut g: usize = 0;
    assert(gv.take(0) =~= Seq::<GroupView>::empty());
    while g < groups.len()
        invariant
            gv == groups_view(groups@),
            !has_adjacent_duplicate(gv),
            all == path_entries(gv),
            g <= groups@.len(),
            seen_view(seen@) == path_entries(gv.take(g as int)),
            forall|m: int| 0 <= m < seen@.len() ==> !#[trigger] repeats(seen_view(seen@), m),
            path_entries(gv.take(g as int)).len() <= all.len(),
            all.take(path_entries(gv.take(g as int)).len() as int) == path_entries(gv.take(g as int)),
        decreases groups.len() - g,
    {
        let group = &groups[g];
        let ghost before = seen_view(seen@);
        let ghost gview = gv[g as int];
        let ghost mapped = gview.files.map_values(|f: FileView| (file_path(f), gview.id));
        proof {
            assert(gv.take(g + 1).drop_last() =~= gv.take(g as int));
            assert(gv.take(g + 1).last() == gview);
            assert(path_entries(gv.take(g + 1)) == before + mapped);
            lemma_path_entries_prefix(gv, g as int + 1);
            assert(group@ == gview);
        }
        let mut f: usize = 0;
        while f < group.files.len()
            invariant
                gv == groups_view(groups@),
                !has_adjacent_duplicate(gv),
                all == path_entries(gv),
                g < groups@.len(),
                group == &groups@[g as int],
                gview == gv[g as int],
                gview == group@,
                mapped == gview.files.map_values(|f: FileView| (file_path(f), gview.id)),
                f <= group.files@.len(),
                seen_view(seen@) == before + mapped.take(f as int),
                forall|m: int| 0 <= m < seen@.len() ==> !#[trigger] repeats(seen_view(seen@), m),
                all.take((before + mapped).len() as int) == before + mapped,
                (before + mapped).len() <= all.len(),
            decreases group.files.len() - f,
        {
            let path = group.files[f].path();
            let ghost current = seen_view(seen@);
            proof {
                assert(group.files@[f as int]@ == gview.files[f as int]);
                assert(mapped[f as int] == (path@, gview.id));
            }
            if let Some(j) = find_path(&seen, path) {
                proof {
                    let k: int = current.len() as int;
                    let ext = current.push((path@, gview.id));
                    assert(mapped.take(f + 1) =~= mapped.take(f as int).push(mapped[f as int]));
                    assert((before + mapped).take(k + 1) =~= before + mapped.take(f + 1));
                    assert(ext == (before + mapped).take(k + 1));
                    assert(all.take(k + 1) =~= (before + mapped).take(k + 1));
                    assert(all[k] == ext[k]);
                    assert(all[j as int] == ext[j as int]);
                    assert(repeats(all, k));
                    assert forall|q: int| 0 <= q <= k implies #[trigger] all[q] == ext[q] by {
                        assert(all.take(k + 1)[q] == all[q]);
                    }
                    assert forall|m: int| 0 <= m < k implies !#[trigger] repeats(all, m) by {
                        if repeats(all, m) {
                            let w = choose|w: int| 0 <= w < m && #[trigger] all[w].0 == all[m].0;
                            assert(all[w] == ext[w]);
                            assert(all[m] == ext[m]);
                            assert(current[w].0 == current[m].0);
                            assert(repeats(current, m));
                        }
                    }
                    assert(first_repeat(all, k));
                    assert(seen@[j as int].0@ == all[j as int].0);
                    assert(seen@[j as int].1@ == all[j as int].1);
                    assert(all[k].1 == group.id@);
                }
                let first = seen[j].1.duplicate();
                let error = LanguagePackageError::DuplicatePath {
                    path: path.to_owned(),
                    first_group: first,
                    second_group: group.id.duplicate(),
                };
                proof {
                    let k: int = current.len() as int;
                    assert(first_repeat(all, k) && 0 <= j < k && all[j as int].0 == all[k].0);
                    assert(package_error(gv, error));
                }
                return Err(error);
            }
            seen.push((path.to_owned(), group.id.duplicate()));
            proof {
                let ext = seen_view(seen@);
                assert(ext =~= current.push((path@, gview.id)));
                assert(mapped.take(f + 1) =~= mapped.take(f as int).push(mapped[f as int]));
                assert(ext =~= before + mapped.take(f + 1));
                assert forall|m: int| 0 <= m < ext.len() implies !#[trigger] repeats(ext, m) by {
                    if m < current.len() {
                        if repeats(ext, m) {
                            let w = choose|w: int| 0 <= w < m && #[trigger] ext[w].0 == ext[m].0;
                            assert(repeats(current, m));
                        }
                    } else {
                        if repeats(ext, m) {
                            let w = choose|w: int| 0 <= w < m && #[trigger] ext[w].0 == ext[m].0;
                            assert(current[w].0 == path@);
                        }
                    }
                }
            }
            f += 1;
        }
        proof {
            assert(mapped.take(f as int) =~= mapped);
        }
        g += 1;
    }
    proof {
        assert(gv.take(g as int) =~= gv);
    }
    Ok(())
}

fn find_path(seen: &Vec<(String, FileGroupId)>, path: &str) -> (result: Option<usize>)
    ensures
        result matches Some(j) ==> j < seen@.len() && seen_view(seen@)[j as int].0 == path@,
        result is None ==> forall|q: int| 0 <= q < seen@.len() ==> (#[trigger] seen_view(seen@)[q]).0 != path@,
{
    let mut j: usize = 0;
    while j < seen.len()
        invariant
            j <= seen@.len(),
            forall|q: int| 0 <= q < j ==> (#[trigger] seen_view(seen@)[q]).0 != path@,
        decreases seen.len() - j,
    {
        if matches!(compare_text(seen[j].0.as_str(), path), Comparison::Equal) {
            return Some(j);
        }
        proof {
            if seen_view(seen@)[j as int].0 == path@ {
                lemma_text_less_irreflexive(path@);
            }
        }
        j += 1;
    }
    None
}

pub open spec fn seen_view(seen: Seq<(String, FileGroupId)>) -> Seq<(Seq<char>, Seq<char>)> {
    seen.map_values(|e: (String, FileGroupId)| (e.0@, e.1@))
}

proof fn lemma_path_entries_prefix(groups: Seq<GroupView>, n: int)
    requires
        0 <= n <= groups.len(),
    ensures
        path_entries(groups.take(n)).len() <= path_entries(groups).len(),
        path_entries(groups).take(path_entries(groups.take(n)).len() as int) == path_entries(groups.take(n)),
    decreases groups.len() - n,
{
    if n == groups.len() {
        assert(groups.take(n) =~= groups);
        assert(path_entries(groups).take(path_entries(groups).len() as int) =~= path_entries(groups));
    } else {
        lemma_path_entries_prefix(groups, n + 1);
        let small = path_entries(groups.take(n));
        let big = path_entries(groups.take(n + 1));
        assert(groups.take(n + 1).drop_last() =~= groups.take(n));
        assert(big.take(small.len() as int) =~= small);
        assert(path_entries(groups).take(small.len() as int) =~= big.take(small.len() as int));
    }
}

/// The files of `groups`, group by group.
pub open spec fn package_files(groups: Seq<GroupView>) -> Seq<FileView>
    decreases groups.len(),
{
    if groups.len() == 0 {
        Seq::empty()
    } else {
        package_files(groups.drop_last()) + groups.last().files
    }
}

/// Whether `out` is what `file` becomes in the output: text and bytes as
/// they are, a source file rendered.
pub open spec fn rendered_as<R: LanguageRenderer>(renderer: &R, file: FileView, out: OutputFileView) -> bool {
    &&& out.path == file_path(file)
    &&& match file {
        FileView::Text { contents, .. } => out.contents == ContentsView::Text(contents),
        FileView::Bytes { contents, .. } => out.contents == ContentsView::Bytes(contents),
        FileView::Source(source) => out.contents matches ContentsView::Text(text) && source_renders_to(
            renderer,
            source,
            Ok(text),
        ),
    }
}

/// Whether `file` is a source file whose rendering can fail with `message`.
pub open spec fn failed_at<R: LanguageRenderer>(renderer: &R, file: FileView, message: Seq<char>) -> bool {
    match file {
        FileView::Source(source) => source_renders_to(renderer, source, Err(message)),
        _ => false,
    }
}

/// Renders every file of `package`, group by group, into an output manifest
/// with the package's dependencies and helpers; the first source file that
/// fails to render ends it.
pub fn render_language_package<R: LanguageRenderer>(package: &LanguagePackage, renderer: &R) -> (result:
    Result<OutputManifest, BackendError>)
    requires
        package.wf(),
    ensures
        result matches Ok(manifest) ==> {
            &&& manifest@.len() == package_files(package@.groups).len()
            &&& forall|k: int|
                0 <= k < manifest@.len() ==> rendered_as(
                    renderer, #[trigger] package_files(package@.groups)[k],
                    manifest@[k],
                )
            &&& manifest.declared() == package@.dependencies
            &&& manifest.injected() == package@.helpers
        },
        result matches Ok(manifest) ==> forall|k: int|
            0 <= k < package_files(package@.groups).len() ==> plain_relative_path(
                file_path(#[trigger] package_files(package@.groups)[k]),
            ),
        result matches Err(e) ==> match e {
            BackendError::Generation { message } => exists|k: int|
                0 <= k < package_files(package@.groups).len() && failed_at(
                    renderer, #[trigger] package_files(package@.groups)[k],
                    message@,
                ),
            BackendError::UnsupportedCapabilities(diagnostics) => diagnostics@.len() > 0 && reports_unsafe(
                diagnostics@,
                package_paths(package@.groups),
            ),
            _ => false,
        },
{
    let ghost gv = package@.groups;
    let ghost all = package_files(gv);
    let mut output: Vec<OutputFile> = Vec::new();
    let mut g: usize = 0;
    assert(gv.take(0) =~= Seq::<GroupView>::empty());
    while g < package.groups.len()
        invariant
            package.wf(),
            gv == package@.groups,
            all == package_files(gv),
            g <= gv.len(),
            output_views(output@).len() == package_files(gv.take(g as int)).len(),
            package_files(gv.take(g as int)).len() <= all.len(),
            forall|q: int| 0 <= q < output@.len() ==> rendered_as(renderer, #[trigger] all[q], output_views(output@)[q]),
            all.take(package_files(gv.take(g as int)).len() as int) == package_files(gv.take(g as int)),
        decreases package.groups.len() - g,
    {
        let group = &package.groups[g];
        let ghost base = output@.len();
        proof {
            assert(gv.take(g + 1).drop_last() =~= gv.take(g as int));
            assert(gv.take(g + 1).last() == gv[g as int]);
            lemma_package_files_prefix(gv, g as int + 1);
            assert(package.groups@[g as int].wf());
            assert(group@ == gv[g as int]);
            let next = package_files(gv.take(g + 1));
            assert(next == package_files(gv.take(g as int)) + gv[g as int].files);
            assert forall|q: int| 0 <= q < group.files@.len() implies #[trigger] all[base + q] == group@.files[q] by {
                assert(all.take(next.len() as int)[base + q] == all[base + q]);
                assert(next[base + q] == gv[g as int].files[q]);
                assert(group.files@.len() == group@.files.len());
            }
        }
        let mut f: usize = 0;
        while f < group.files.len()
            invariant
                gv == package@.groups,
                all == package_files(gv),
                g < gv.len(),
                group.wf(),
                group@ == gv[g as int],
                f <= group.files@.len(),
                output@.len() == base + f,
                base + group.files@.len() <= all.len(),
                forall|q: int| 0 <= q < f ==> all[base + q] == #[trigger] group@.files[q],
                forall|q: int| 0 <= q < group.files@.len() ==> #[trigger] all[base + q] == group@.files[q],
                forall|q: int| 0 <= q < output@.len() ==> rendered_as(renderer, #[trigger] all[q], output_views(output@)[q]),
            decreases group.files.len() - f,
        {
            let file = &group.files[f];
            proof {
                assert(group.files@[f as int].wf());
                assert(file@ == group@.files[f as int]);
                assert(all[base + f] == file@);
            }
            let ghost before = output@;
            match &file.kind {
                FileKind::Source(source) => {
                    match render_source(source, renderer) {
                        Ok(text) => {
                            output.push(OutputFile::text(source.path(), text.as_str()));
                        },
                        Err(e) => {
                            proof {
                                assert(all[base + f] == FileView::Source(source@));
                                assert(failed_at(renderer, all[base + f], e->message@));
                            }
                            return Err(e);
                        },
                    }
                },
                FileKind::Text { path, contents, .. } => {
                    output.push(OutputFile::text(path.as_str(), contents.as_str()));
                },
                FileKind::Bytes { path, contents, .. } => {
                    output.push(OutputFile::bytes(path.as_str(), contents.clone()));
                },
            }
            proof {
                assert forall|q: int| 0 <= q < output@.len() implies rendered_as(
                    renderer, #[trigger] all[q],
                    output_views(output@)[q],
                ) by {
                    if q < before.len() {
                        assert(output@[q] == before[q]);
                        assert(output_views(before)[q] == output_views(output@)[q]);
                    }
                }
            }
            f += 1;
        }
        g += 1;
        proof {
            assert(package_files(gv.take(g as int)) =~= package_files(gv.take(g - 1)) + gv[g - 1].files);
        }
    }
    assert(gv.take(g as int) =~= gv);
    proof {
        assert(file_paths(output_views(output@)) =~= package_paths(gv)) by {
            assert forall|q: int| 0 <= q < output@.len() implies file_paths(output_views(output@))[q]
                == package_paths(gv)[q] by {
                assert(rendered_as(renderer, all[q], output_views(output@)[q]));
            }
        }
        lemma_unsafe_paths_empty(package_paths(gv));
        assert forall|k: int| 0 <= k < all.len() implies #[trigger] package_paths(gv)[k] == file_path(all[k]) by {}
    }
    let dependencies = duplicate_dependencies(&package.dependencies);
    let helpers = duplicate_helpers(&package.helpers);
    match OutputManifest::new(output, dependencies, helpers) {
        Ok(manifest) => {
            proof {
                assert forall|k: int| 0 <= k < all.len() implies plain_relative_path(
                    file_path(#[trigger] all[k]),
                ) by {
                    assert(output_views(output@)[k].path == file_path(all[k]));
                }
            }
            Ok(manifest)
        },
        Err(diagnostics) => {
            proof {
                let views = output_views(output@);
                let k = choose|k: int| 0 <= k < views.len() && !plain_relative_path(#[trigger] views[k].path);
                assert(file_paths(views)[k] == package_paths(gv)[k]);
                assert(!plain_relative_path(package_paths(gv)[k]));
            }
            Err(BackendError::UnsupportedCapabilities(diagnostics))
        },
    }
}

/// The paths of the files of `groups`, in order.
pub open spec fn package_paths(groups: Seq<GroupView>) -> Seq<Seq<char>> {
    package_files(groups).map_values(|f: FileView| file_path(f))
}

proof fn lemma_package_files_prefix(groups: Seq<GroupView>, n: int)
    requires
        0 <= n <= groups.len(),
    ensures
        package_files(groups.take(n)).len() <= package_files(groups).len(),
        package_files(groups).take(package_files(groups.take(n)).len() as int) == package_files(groups.take(n)),
    decreases groups.len() - n,
{
    if n == groups.len() {
        assert(groups.take(n) =~= groups);
        assert(package_files(groups).take(package_files(groups).len() as int) =~= package_files(groups));
    } else {
        lemma_package_files_prefix(groups, n + 1);
        let small = package_files(groups.take(n));
        let big = package_files(groups.take(n + 1));
        assert(groups.take(n + 1).drop_last() =~= groups.take(n));
        assert(big.take(small.len() as int) =~= small);
        assert(package_files(groups).take(small.len() as int) =~= big.take(small.len() as int));
    }
}


/// `trim_newlines(s)` ends in no newline, and `s` is it followed by newlines
/// only.
proof fn lemma_trim_newlines(s: Seq<char>)
    ensures
        !(trim_newlines(s).len() > 0 && trim_newlines(s).last() == '\n'),
        trim_newlines(s).len() <= s.len(),
        trim_newlines(s) == s.take(trim_newlines(s).len() as int),
        forall|i: int| trim_newlines(s).len() <= i < s.len() ==> s[i] == '\n',
    decreases s.len(),
{
    if s.len() > 0 && s.last() == '\n' {
        lemma_trim_newlines(s.drop_last());
        let t = trim_newlines(s.drop_last());
        assert(s.drop_last().take(t.len() as int) =~= s.take(t.len() as int));
        assert forall|i: int| t.len() <= i < s.len() implies s[i] == '\n' by {
            if i < s.len() - 1 {
                assert(s.drop_last()[i] == s[i]);
            }
        }
    } else {
        assert(s.take(s.len() as int) =~= s);
    }
}

/// `text` is `joined` with only newlines taken off its end.
pub open spec fn newline_trimmed_from(text: Seq<char>, joined: Seq<char>) -> bool {
    &&& text.len() <= joined.len()
    &&& text == joined.take(text.len() as int)
    &&& forall|i: int| text.len() <= i < joined.len() ==> joined[i] == '\n'
}

/// A source file's final-newline policy holds of its text: under `Never`
/// the text is the joined sections with the newlines taken off their end,
/// and ends in no newline; under `Always` it is that and exactly one
/// newline; under `Preserve` it is the joined sections as they are.
pub proof fn law_source_final_newline(file: SourceView, reply: Option<Result<DocView, Seq<char>>>)
    ensures
        source_text(file, reply) matches Ok(t) ==> (source_sections(file, reply) matches Ok(sections) && match file.options.final_newline {
            FinalNewline::Never => newline_trimmed_from(t, join_sections(sections.filter(is_nonempty())))
                && !(t.len() > 0 && t.last() == '\n'),
            FinalNewline::Always => t.len() > 0 && t.last() == '\n' && newline_trimmed_from(
                t.drop_last(),
                join_sections(sections.filter(is_nonempty())),
            ) && !(t.drop_last().len() > 0 && t.drop_last().last() == '\n'),
            FinalNewline::Preserve => t == join_sections(sections.filter(is_nonempty())),
        }),
{
    match source_sections(file, reply) {
        Ok(sections) => {
            let joined = join_sections(sections.filter(is_nonempty()));
            lemma_trim_newlines(joined);
            let trimmed = trim_newlines(joined);
            assert(trimmed.push('\n').drop_last() =~= trimmed);
        },
        Err(_) => {},
    }
}

} // verus!
