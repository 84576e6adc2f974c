use polyrust::{
    assemble_output_manifest, plain_path, assemble_source, Document, FinalNewline, GeneratedFile, GeneratedPackage, LanguageFragment,
    LanguageSourceFile, OutputContents, OutputFile, OutputManifest, RawText, RenderLimits,
    RenderOptions, SourceFileRole, BackendError,
};

#[test]
fn manifests_find_the_first_file_at_a_path() {
    let manifest = OutputManifest::new(
        vec![
            OutputFile::text("a.txt", "one"),
            OutputFile::bytes("b.bin", vec![1, 2]),
            OutputFile::text("a.txt", "two"),
        ],
        vec![],
        vec![],
    )
    .unwrap();
    assert_eq!(
        manifest.file("a.txt").unwrap().contents(),
        &OutputContents::Text("one".to_owned())
    );
    assert_eq!(
        manifest.file("b.bin").unwrap().contents(),
        &OutputContents::Bytes(vec![1, 2])
    );
    assert!(manifest.file("c").is_none());
    assert_eq!(manifest.files().len(), 3);
    let package = GeneratedPackage {
        files: vec![
            GeneratedFile { path: "x".to_owned(), contents: "1".to_owned() },
            GeneratedFile { path: "x".to_owned(), contents: "2".to_owned() },
        ],
    };
    assert_eq!(package.file("x"), Some("1"));
    assert_eq!(package.file("y"), None);
}

fn body(text: &str) -> LanguageFragment {
    LanguageFragment::new(Document::raw_text(RawText::new(text)))
}

#[test]
fn sources_join_non_empty_sections_with_blank_lines() {
    let mut file = LanguageSourceFile::new("src/x", SourceFileRole::Source);
    file.set_preamble(body("head\n\n"));
    file.set_body(LanguageFragment::new(Document::empty()));
    file.set_epilogue(body("tail"));
    assert_eq!(assemble_source(&file, None), Ok("head\n\ntail\n".to_owned()));
    assert_eq!(
        assemble_source(&file, Some(Ok(Document::raw_text(RawText::new("use x;"))))),
        Ok("head\n\nuse x;\n\ntail\n".to_owned())
    );
    file.set_render_options(RenderOptions {
        final_newline: FinalNewline::Preserve,
        ..RenderOptions::default()
    });
    assert_eq!(assemble_source(&file, None), Ok("head\n\ntail".to_owned()));
    assert_eq!(
        assemble_source(&file, Some(Err("no".to_owned()))),
        Err(BackendError::Generation {
            message: "cannot render language imports: no".to_owned()
        })
    );
    file.set_render_options(RenderOptions {
        limits: RenderLimits {
            max_depth: 4096,
            max_nodes: 1_000_000,
            max_output_bytes: 2,
        },
        ..RenderOptions::default()
    });
    assert_eq!(
        assemble_source(&file, None),
        Err(BackendError::Generation {
            message: "cannot render language document: rendered document exceeds 2 bytes".to_owned()
        })
    );
    let empty = LanguageSourceFile::new("src/e", SourceFileRole::Test);
    assert_eq!(assemble_source(&empty, None), Ok("\n".to_owned()));
    assert_eq!(empty.path(), "src/e");
}

use polyrust::{
    render_language_package, DeclaredDependency, FileGroup, FileGroupId, ImportSet, InjectedHelper,
    LanguageFile, LanguagePackage, LanguageRenderer, TextFileRole,
};

struct NoImports;

impl LanguageRenderer for NoImports {
    fn render_imports(&self, _imports: &ImportSet) -> Result<Document, String> {
        Ok(Document::empty())
    }
}

fn dependency(ecosystem: &str, name: &str, requirement: &str, features: &[&str]) -> DeclaredDependency {
    DeclaredDependency {
        ecosystem: ecosystem.to_owned(),
        name: name.to_owned(),
        requirement: requirement.to_owned(),
        features: features.iter().map(|f| (*f).to_owned()).collect(),
    }
}

#[test]
fn packages_sort_dependencies_and_helpers_into_the_manifest() {
    let group = FileGroup::new(
        FileGroupId::parse("meta").unwrap(),
        vec![LanguageFile::text("a.txt", TextFileRole::Metadata, "x")],
    )
    .unwrap();
    let package = LanguagePackage::new(
        vec![group],
        vec![
            dependency("npm", "a", "1", &[]),
            dependency("cargo", "serde", "1", &["std"]),
            dependency("cargo", "serde", "1", &["derive"]),
            dependency("cargo", "anyhow", "2", &[]),
        ],
        vec![
            InjectedHelper {
                id: "b".to_owned(),
                capability: "x".to_owned(),
                files: vec!["z.rs".to_owned(), "a.rs".to_owned()],
            },
            InjectedHelper {
                id: "a".to_owned(),
                capability: "y".to_owned(),
                files: vec![],
            },
        ],
    )
    .unwrap();
    let manifest = render_language_package(&package, &NoImports).unwrap();
    let names: Vec<String> = manifest
        .dependencies()
        .iter()
        .map(|d| format!("{}/{}/{}", d.ecosystem, d.name, d.features.join("+")))
        .collect();
    assert_eq!(
        names,
        ["cargo/anyhow/", "cargo/serde/derive", "cargo/serde/std", "npm/a/"]
    );
    let helpers: Vec<&str> = manifest.helpers().iter().map(|h| h.id.as_str()).collect();
    assert_eq!(helpers, ["a", "b"]);
    assert_eq!(manifest.helpers()[1].files, ["a.rs", "z.rs"]);
    assert_eq!(
        manifest.file("a.txt").unwrap().contents(),
        &OutputContents::Text("x".to_owned())
    );
}

#[test]
fn manifests_refuse_paths_that_leave_the_output_directory() {
    assert!(
        OutputManifest::new(vec![OutputFile::text("../invalid", "bad")], vec![], vec![])
            .is_err()
    );
    let diagnostics = OutputManifest::new(
        vec![
            OutputFile::text("ok/file.txt", "fine"),
            OutputFile::text("/etc/passwd", "bad"),
            OutputFile::bytes("a/../b", vec![0]),
        ],
        vec![],
        vec![],
    )
    .unwrap_err();
    assert_eq!(diagnostics.len(), 2);
    assert_eq!(diagnostics[0].code, "UnsafeOutputPath");
    assert_eq!(diagnostics[0].message, "unsafe relative output path \"/etc/passwd\"");
    assert_eq!(diagnostics[1].message, "unsafe relative output path \"a/../b\"");
    assert!(assemble_output_manifest(vec![OutputFile::text("x/..", "bad")], vec![], vec![]).is_err());
    let manifest =
        assemble_output_manifest(vec![OutputFile::text("src/lib.rs", "ok")], vec![], vec![])
            .unwrap();
    assert_eq!(manifest.files().len(), 1);
}

#[test]
fn plain_paths_are_relative_names_without_dots_or_empty_parts() {
    for good in ["a", "src/lib.rs", ".hidden", "a/..b", "...", "a.b/c"] {
        assert!(plain_path(good), "refused {good:?}");
    }
    for bad in ["", "/a", "a/", "a//b", ".", "..", "./a", "a/.", "a/../b", "../x"] {
        assert!(!plain_path(bad), "accepted {bad:?}");
    }
}
