use polyrust::{
    render, render_language_package, BackendError, Document, FileGroup, FileGroupId, FileRole,
    HelperGraphError, ImportGroup, ImportSet, LanguageFile, LanguageFragment, LanguagePackage,
    LanguagePackageError, LanguageRenderer, LanguageSourceFile, OutputContents, RawText,
    RenderOptions, RuntimeHelper, RuntimeHelperGraph, SourceFileRole, TextFileRole,
};

struct TestRenderer;

impl LanguageRenderer for TestRenderer {
    fn render_imports(&self, imports: &ImportSet) -> Result<Document, String> {
        let mut lines = Vec::new();
        for (_, group) in imports.groups() {
            lines.extend(group.iter().map(|import| format!("use {};", import)));
        }
        Ok(Document::raw_text(RawText::new(&lines.join("\n"))))
    }
}

struct BrokenRenderer;

impl LanguageRenderer for BrokenRenderer {
    fn render_imports(&self, _imports: &ImportSet) -> Result<Document, String> {
        Err("unsupported import".into())
    }
}

fn id(value: &str) -> FileGroupId {
    FileGroupId::parse(value).unwrap()
}

fn import_group(order: u16, value: &str) -> ImportGroup {
    ImportGroup::new(order, value).unwrap()
}

fn fragment(text: &'static str, import: &'static str, helper: &'static str) -> LanguageFragment {
    LanguageFragment::new(Document::raw_text(RawText::new(text)))
        .with_import(import_group(10, "standard"), import.to_owned())
        .with_helper_root(helper)
}

#[test]
fn fragment_composition_is_associative_and_preserves_requirements() {
    let alpha = fragment("a", "alpha", "helper.alpha");
    let beta = fragment("b", "beta", "helper.beta");
    let gamma = fragment("c", "alpha", "helper.alpha");
    let left = LanguageFragment::sequence(vec![
        LanguageFragment::sequence(vec![alpha.clone(), beta.clone()]),
        gamma.clone(),
    ]);
    let right = LanguageFragment::sequence(vec![alpha, LanguageFragment::sequence(vec![beta, gamma])]);
    assert_eq!(left, right);
    assert_eq!(left.imports().len(), 2);
    assert_eq!(
        left.helper_roots()
            .items()
            .iter()
            .map(String::as_str)
            .collect::<Vec<_>>(),
        ["helper.alpha", "helper.beta"]
    );
    assert_eq!(
        render(left.document(), RenderOptions::default()).unwrap(),
        "abc\n"
    );
}

#[test]
fn optional_joined_grouped_and_indented_fragments_keep_dependencies() {
    let separator = fragment("|", "separator", "helper.separator");
    let joined = LanguageFragment::joined(
        separator,
        vec![
            fragment("a", "alpha", "helper.alpha"),
            fragment("b", "beta", "helper.beta"),
        ],
    )
    .indent(2)
    .group();
    assert_eq!(joined.imports().len(), 3);
    assert_eq!(joined.helper_roots().len(), 3);
    assert_eq!(
        render(joined.document(), RenderOptions::default()).unwrap(),
        "a|b\n"
    );

    let empty = LanguageFragment::optional(None);
    assert!(empty.imports().is_empty());
    assert!(empty.helper_roots().is_empty());
    assert_eq!(
        render(empty.document(), RenderOptions::default()).unwrap(),
        "\n"
    );

    let unit = joined.into_unit();
    assert_eq!(unit.imports().len(), 3);
    assert_eq!(unit.helper_roots().len(), 3);
}

#[test]
fn helper_graph_resolves_stable_dependency_order_and_deduplicates() {
    let dependency = RuntimeHelper::new(
        "dependency",
        5,
        LanguageFragment::new(Document::raw_text(RawText::new("a")))
            .with_import(import_group(10, "standard"), "alpha".to_owned()),
    );
    let root = RuntimeHelper::new("root", 10, fragment("b", "beta", "dependency"));
    let independent = RuntimeHelper::new(
        "independent",
        20,
        LanguageFragment::new(Document::raw_text(RawText::new("c"))),
    );
    let graph = RuntimeHelperGraph::new(vec![root, independent, dependency]).unwrap();
    let resolved = graph.resolve(&["root", "independent", "root"]).unwrap();
    assert_eq!(
        render(resolved.document(), RenderOptions::default()).unwrap(),
        "abc\n"
    );
    assert_eq!(resolved.imports().len(), 2);
    assert!(resolved.helper_roots().is_empty());
}

#[test]
fn helper_graph_rejects_invalid_duplicate_missing_and_cyclic_nodes() {
    let empty = RuntimeHelper::new("", 0, LanguageFragment::new(Document::empty()));
    assert!(matches!(
        RuntimeHelperGraph::new(vec![empty]),
        Err(HelperGraphError::InvalidId(_))
    ));

    let one = RuntimeHelper::new("same", 0, LanguageFragment::new(Document::empty()));
    let two = one.clone();
    assert!(matches!(
        RuntimeHelperGraph::new(vec![one, two]),
        Err(HelperGraphError::DuplicateId(id)) if id == "same"
    ));

    let graph = RuntimeHelperGraph::new(vec![]).unwrap();
    assert!(matches!(
        graph.resolve(&["missing"]),
        Err(HelperGraphError::MissingId { id, required_by: None }) if id == "missing"
    ));

    let missing_dependency = RuntimeHelper::new(
        "root",
        0,
        LanguageFragment::new(Document::empty()).with_helper_root("missing"),
    );
    let graph = RuntimeHelperGraph::new(vec![missing_dependency]).unwrap();
    assert!(matches!(
        graph.resolve(&["root"]),
        Err(HelperGraphError::MissingId { id, required_by: Some(parent) })
            if id == "missing" && parent == "root"
    ));

    let left = RuntimeHelper::new(
        "left",
        0,
        LanguageFragment::new(Document::empty()).with_helper_root("right"),
    );
    let right = RuntimeHelper::new(
        "right",
        0,
        LanguageFragment::new(Document::empty()).with_helper_root("left"),
    );
    let graph = RuntimeHelperGraph::new(vec![left, right]).unwrap();
    assert!(matches!(
        graph.resolve(&["left"]),
        Err(HelperGraphError::Cycle(ids)) if ids == ["left", "right"]
    ));
}

#[test]
fn groups_files_and_imports_are_sorted_and_deduplicated() {
    let mut source = LanguageSourceFile::new("src/lib.test", SourceFileRole::Source);
    let mut preamble = LanguageFragment::new(Document::raw_text(RawText::new("// preamble")));
    assert!(preamble.require_import(import_group(10, "standard"), "zeta".to_owned()));
    let mut body = LanguageFragment::new(Document::raw_text(RawText::new("body")));
    assert!(body.require_import(import_group(10, "standard"), "alpha".to_owned()));
    assert!(!body.require_import(import_group(10, "standard"), "alpha".to_owned()));
    let mut epilogue = LanguageFragment::new(Document::empty());
    assert!(epilogue.require_import(import_group(10, "standard"), "alpha".to_owned()));
    source.set_preamble(preamble);
    source.set_body(body);
    source.set_epilogue(epilogue);
    let source_group = FileGroup::new(id("source"), vec![LanguageFile::source(source)]).unwrap();
    let metadata_group = FileGroup::new(
        id("metadata"),
        vec![LanguageFile::text(
            "project.toml",
            TextFileRole::Metadata,
            "meta\n",
        )],
    )
    .unwrap();
    let package =
        LanguagePackage::new(vec![source_group, metadata_group], vec![], vec![]).unwrap();
    assert_eq!(package.groups()[0].id().as_str(), "metadata");
    let manifest = render_language_package(&package, &TestRenderer).unwrap();
    assert_eq!(
        manifest.file("src/lib.test").unwrap().contents(),
        &OutputContents::Text("// preamble\n\nuse alpha;\nuse zeta;\n\nbody\n".into())
    );
}

#[test]
fn a_file_without_import_requirements_has_no_import_section() {
    let mut source = LanguageSourceFile::new("src/empty.test", SourceFileRole::Source);
    source.set_body(LanguageFragment::new(Document::raw_text(RawText::new(
        "body",
    ))));
    let package = LanguagePackage::new(
        vec![FileGroup::new(id("source"), vec![LanguageFile::source(source)]).unwrap()],
        vec![],
        vec![],
    )
    .unwrap();
    let manifest = render_language_package(&package, &TestRenderer).unwrap();
    assert_eq!(
        manifest.file("src/empty.test").unwrap().contents(),
        &OutputContents::Text("body\n".into())
    );
}

#[test]
fn file_constructors_preserve_disjoint_source_and_raw_roles() {
    let source = LanguageFile::source(LanguageSourceFile::new(
        "src/lib.test",
        SourceFileRole::Source,
    ));
    let metadata = LanguageFile::text(
        "project.toml",
        TextFileRole::Metadata,
        "name = 'example'",
    );
    let asset = LanguageFile::bytes("icon.bin", vec![0_u8, 1_u8]);
    assert_eq!(source.role(), FileRole::Source);
    assert_eq!(metadata.role(), FileRole::Metadata);
    assert_eq!(asset.role(), FileRole::Asset);
}

#[test]
fn invalid_empty_duplicate_groups_and_duplicate_paths_are_rejected() {
    assert!(FileGroupId::parse("Bad Group").is_err());
    assert!(ImportGroup::new(0, "Bad Group").is_err());
    assert_eq!(
        FileGroup::new(id("empty"), vec![]).unwrap_err(),
        LanguagePackageError::EmptyGroup(id("empty"))
    );
    let first = FileGroup::new(
        id("first"),
        vec![LanguageFile::text("same", TextFileRole::Metadata, "a")],
    )
    .unwrap();
    let second = FileGroup::new(
        id("second"),
        vec![LanguageFile::text("same", TextFileRole::Metadata, "b")],
    )
    .unwrap();
    assert!(matches!(
        LanguagePackage::new(vec![first, second], vec![], vec![]),
        Err(LanguagePackageError::DuplicatePath { .. })
    ));
    let one = FileGroup::new(
        id("same"),
        vec![LanguageFile::text("one", TextFileRole::Metadata, "a")],
    )
    .unwrap();
    let two = FileGroup::new(
        id("same"),
        vec![LanguageFile::text("two", TextFileRole::Metadata, "b")],
    )
    .unwrap();
    assert_eq!(
        LanguagePackage::new(vec![one, two], vec![], vec![]).unwrap_err(),
        LanguagePackageError::DuplicateGroup(id("same"))
    );
}

#[test]
fn renderer_failures_are_not_hidden() {
    let mut source = LanguageSourceFile::new("src/lib.test", SourceFileRole::Source);
    let mut body = LanguageFragment::new(Document::empty());
    body.require_import(import_group(10, "standard"), "alpha".to_owned());
    source.set_body(body);
    let package = LanguagePackage::new(
        vec![FileGroup::new(id("source"), vec![LanguageFile::source(source)]).unwrap()],
        vec![],
        vec![],
    )
    .unwrap();
    let error = render_language_package(&package, &BrokenRenderer).unwrap_err();
    assert!(matches!(
        error,
        BackendError::Generation { message }
            if message.contains("unsupported import")
    ));
}

#[test]
fn packages_with_escaping_paths_are_refused_as_unsupported() {
    let package = LanguagePackage::new(
        vec![FileGroup::new(
            id("metadata"),
            vec![LanguageFile::text("../outside.toml", TextFileRole::Metadata, "x\n")],
        )
        .unwrap()],
        vec![],
        vec![],
    )
    .unwrap();
    match render_language_package(&package, &TestRenderer).unwrap_err() {
        BackendError::UnsupportedCapabilities(diagnostics) => {
            assert_eq!(diagnostics.len(), 1);
            assert_eq!(
                diagnostics[0].message,
                "unsafe relative output path \"../outside.toml\""
            );
        }
        other => panic!("unexpected error {other:?}"),
    }
}

#[test]
fn errors_read_as_text() {
    assert_eq!(
        HelperGraphError::Cycle(vec!["left".to_owned(), "right".to_owned()]).message(),
        "runtime helper dependency cycle among \"left\", \"right\""
    );
    assert_eq!(
        HelperGraphError::MissingId { id: "x".to_owned(), required_by: Some("root".to_owned()) }.message(),
        "runtime helper \"root\" requires missing helper \"x\""
    );
    assert_eq!(
        HelperGraphError::MissingId { id: "x".to_owned(), required_by: None }.message(),
        "missing runtime helper root \"x\""
    );
    assert_eq!(
        LanguagePackageError::DuplicatePath {
            path: "a".to_owned(),
            first_group: FileGroupId::parse("one").unwrap(),
            second_group: FileGroupId::parse("two").unwrap(),
        }
        .message(),
        "duplicate language-package path \"a\" in groups \"one\" and \"two\""
    );
    assert_eq!(
        LanguagePackageError::EmptyGroup(FileGroupId::parse("empty").unwrap()).message(),
        "file group \"empty\" is empty"
    );
    assert_eq!(
        polyrust::TargetId::parse("Bad").unwrap_err().message(),
        "invalid namespaced target ID \"Bad\""
    );
}
