use polyrust::{
    render, render_with_stats, Document, FileGroup, FileGroupId, FinalNewline, ImportGroup,
    LanguageFile, LanguageFragment, LanguagePackage, RawText, RenderError, RenderLimits,
    RenderOptions, RuntimeHelper, RuntimeHelperGraph, TextFileRole,
};

fn word(value: &str) -> Document {
    Document::text(value).unwrap()
}

fn never(width: usize) -> RenderOptions {
    RenderOptions {
        width,
        final_newline: FinalNewline::Never,
        ..RenderOptions::default()
    }
}

#[test]
fn concatenation_is_associative_and_empty_is_its_unit() {
    let left = Document::concat(vec![
        Document::concat(vec![word("a"), word("b")]),
        word("c"),
    ]);
    let right = Document::concat(vec![
        word("a"),
        Document::concat(vec![word("b"), word("c")]),
    ]);
    assert_eq!(left, right);
    assert_eq!(
        Document::concat(vec![Document::empty(), word("x")]),
        word("x")
    );
    assert_eq!(
        Document::concat(vec![word("x"), Document::empty()]),
        word("x")
    );
    assert_eq!(render(&left, never(80)), Ok("abc".to_owned()));
}

#[test]
fn final_newline_policies_leave_exactly_one_or_no_newline() {
    let document = Document::concat(vec![
        word("x"),
        Document::hard_line(),
        Document::hard_line(),
    ]);
    let always = RenderOptions {
        final_newline: FinalNewline::Always,
        ..RenderOptions::default()
    };
    assert_eq!(render(&document, always), Ok("x\n".to_owned()));
    assert_eq!(render(&document, never(80)), Ok("x".to_owned()));
    let preserve = RenderOptions {
        final_newline: FinalNewline::Preserve,
        ..RenderOptions::default()
    };
    assert_eq!(render(&document, preserve), Ok("x\n\n".to_owned()));
}

#[test]
fn render_limits_report_their_limit() {
    let limits = RenderLimits {
        max_depth: 4096,
        max_nodes: 1_000_000,
        max_output_bytes: 3,
    };
    let options = RenderOptions {
        limits,
        ..never(80)
    };
    let error = render(&word("long text"), options).unwrap_err();
    assert_eq!(error, RenderError::OutputLimit { limit: 3 });
    assert_eq!(error.message(), "rendered document exceeds 3 bytes");
    assert_eq!(
        RenderError::DepthLimit { limit: 12 }.message(),
        "document depth exceeds limit 12"
    );
    assert_eq!(
        RenderError::NodeLimit { limit: 0 }.message(),
        "document traversal exceeds node limit 0"
    );
}

#[test]
fn render_statistics_count_bytes_and_capacity() {
    let rendered = render_with_stats(&word("héllo"), never(80)).unwrap();
    assert_eq!(rendered.text, "héllo");
    assert_eq!(rendered.stats.output_bytes, 6);
    assert!(rendered.stats.peak_output_capacity_bytes >= 6);
}

fn fragment(text: &str, import: &str, helper: &str) -> LanguageFragment {
    LanguageFragment::new(Document::raw_text(RawText::new(text)))
        .with_import(ImportGroup::new(10, "standard").unwrap(), import.to_owned())
        .with_helper_root(helper)
}

#[test]
fn composition_keeps_every_requirement_of_its_parts() {
    let composed = LanguageFragment::sequence(vec![
        fragment("a", "alpha", "one"),
        fragment("b", "beta", "two"),
        fragment("c", "alpha", "one"),
    ]);
    assert_eq!(composed.imports().len(), 2);
    assert_eq!(
        composed.helper_roots().items().clone(),
        vec!["one".to_owned(), "two".to_owned()]
    );
    let groups = composed.imports().groups();
    assert_eq!(groups.len(), 1);
    assert_eq!(groups[0].0.name(), "standard");
    assert_eq!(groups[0].1, vec!["alpha".to_owned(), "beta".to_owned()]);
}

#[test]
fn resolution_places_each_helper_once_after_what_it_requires() {
    let c = RuntimeHelper::new("c", 30, LanguageFragment::new(Document::raw_text(RawText::new("c"))));
    let b = RuntimeHelper::new(
        "b",
        20,
        LanguageFragment::new(Document::raw_text(RawText::new("b"))).with_helper_root("c"),
    );
    let a = RuntimeHelper::new(
        "a",
        10,
        LanguageFragment::new(Document::raw_text(RawText::new("a")))
            .with_helper_root("b")
            .with_helper_root("c"),
    );
    let unused = RuntimeHelper::new("z", 0, LanguageFragment::new(Document::raw_text(RawText::new("z"))));
    let graph = RuntimeHelperGraph::new(vec![a, b, c, unused]).unwrap();
    let resolved = graph.resolve(&["a", "a"]).unwrap();
    assert_eq!(render(resolved.document(), never(80)), Ok("cba".to_owned()));
    let nothing = graph.resolve(&[]).unwrap();
    assert_eq!(render(nothing.document(), never(80)), Ok(String::new()));
}

#[test]
fn among_free_helpers_order_number_then_id_decides() {
    let make = |id: &str, order: u16| {
        RuntimeHelper::new(id, order, LanguageFragment::new(Document::raw_text(RawText::new(id))))
    };
    let graph = RuntimeHelperGraph::new(vec![make("y", 1), make("x", 1), make("w", 0)]).unwrap();
    let resolved = graph.resolve(&["x", "y", "w"]).unwrap();
    assert_eq!(render(resolved.document(), never(80)), Ok("wxy".to_owned()));
}

#[test]
fn group_files_come_in_path_order_and_keep_ties_in_order() {
    let group = FileGroup::new(
        FileGroupId::parse("docs").unwrap(),
        vec![
            LanguageFile::text("b.md", TextFileRole::Documentation, "1"),
            LanguageFile::text("a.md", TextFileRole::Documentation, "2"),
            LanguageFile::text("b.md", TextFileRole::Documentation, "3"),
            LanguageFile::bytes("a.bin", vec![7]),
        ],
    )
    .unwrap();
    let paths: Vec<&str> = group.files().iter().map(|file| file.path()).collect();
    assert_eq!(paths, ["a.bin", "a.md", "b.md", "b.md"]);
}

#[test]
fn package_groups_come_in_strictly_increasing_id_order() {
    let group = |id: &str, path: &str| {
        FileGroup::new(
            FileGroupId::parse(id).unwrap(),
            vec![LanguageFile::text(path, TextFileRole::Metadata, "x")],
        )
        .unwrap()
    };
    let package = LanguagePackage::new(
        vec![group("gamma", "g"), group("alpha", "a"), group("beta", "b")],
        vec![],
        vec![],
    )
    .unwrap();
    let ids: Vec<&str> = package.groups().iter().map(|g| g.id().as_str()).collect();
    assert_eq!(ids, ["alpha", "beta", "gamma"]);
}

use polyrust::find_file_cycle;

#[test]
fn file_cycles_are_found_exactly_when_they_exist() {
    let acyclic = vec![(1, vec![2, 3]), (2, vec![3, 9]), (3, vec![])];
    assert_eq!(find_file_cycle(&acyclic), None);
    let cyclic = vec![(1, vec![2]), (2, vec![3]), (3, vec![1]), (4, vec![])];
    assert_eq!(find_file_cycle(&cyclic), Some(vec![1, 2, 3]));
    let self_loop = vec![(5, vec![5])];
    assert_eq!(find_file_cycle(&self_loop), Some(vec![5]));
    let later = vec![(1, vec![]), (2, vec![4]), (4, vec![2])];
    assert_eq!(find_file_cycle(&later), Some(vec![2, 4]));
    assert_eq!(find_file_cycle(&vec![]), None);
}

#[test]
fn final_newline_policies_only_change_the_end() {
    let document = Document::concat(vec![
        Document::text("a").unwrap(),
        Document::hard_line(),
        Document::raw_text(RawText::new("b\n\n")),
    ]);
    let with = |policy| RenderOptions { final_newline: policy, ..RenderOptions::default() };
    let preserve = render(&document, with(FinalNewline::Preserve)).unwrap();
    let always = render(&document, with(FinalNewline::Always)).unwrap();
    let never = render(&document, with(FinalNewline::Never)).unwrap();
    assert_eq!(preserve, "a\nb\n\n");
    assert_eq!(always, preserve.trim_end_matches('\n').to_owned() + "\n");
    assert_eq!(never, preserve.trim_end_matches('\n'));
}

#[test]
fn successful_renders_stay_within_their_limits() {
    let document = Document::join(
        Document::line(),
        (0..30).map(|i| Document::text(&format!("word{i}")).unwrap()).collect(),
    )
    .group();
    let options = RenderOptions {
        width: 20,
        limits: RenderLimits { max_depth: 10, max_nodes: 200, max_output_bytes: 1000 },
        ..RenderOptions::default()
    };
    let rendered = render_with_stats(&document, options).unwrap();
    assert!(rendered.stats.output_bytes <= 1000);
    assert_eq!(rendered.stats.output_bytes, rendered.text.len());
    assert!(rendered.stats.nodes_visited <= 200);
    assert!(rendered.stats.peak_output_capacity_bytes >= rendered.text.len());
}

#[test]
fn fragment_indent_and_group_are_document_maps() {
    let base = || {
        LanguageFragment::new(Document::text("x").unwrap())
            .with_import(ImportGroup::new(1, "std").unwrap(), "io".to_owned())
            .with_helper_root("helper.x")
    };
    let indented = base().indent(4);
    let mapped = base().map_document(|d| d.indent(4));
    assert_eq!(indented, mapped);
    assert_eq!(base().group(), base().map_document(|d| d.group()));
    assert_eq!(mapped.imports(), base().imports());
    assert_eq!(mapped.helper_roots(), base().helper_roots());
}

#[test]
fn file_groups_keep_the_order_of_files_with_the_same_path() {
    let group = FileGroup::new(
        FileGroupId::parse("meta").unwrap(),
        vec![
            LanguageFile::text("b", TextFileRole::Metadata, "1"),
            LanguageFile::text("a", TextFileRole::Documentation, "2"),
            LanguageFile::text("b", TextFileRole::Documentation, "3"),
            LanguageFile::text("a", TextFileRole::Metadata, "4"),
        ],
    )
    .unwrap();
    let order: Vec<(String, polyrust::FileRole)> = group
        .files()
        .iter()
        .map(|f| (f.path().to_owned(), f.role()))
        .collect();
    assert_eq!(
        order,
        vec![
            ("a".to_owned(), polyrust::FileRole::Documentation),
            ("a".to_owned(), polyrust::FileRole::Metadata),
            ("b".to_owned(), polyrust::FileRole::Metadata),
            ("b".to_owned(), polyrust::FileRole::Documentation),
        ]
    );
}

#[test]
fn import_groups_come_out_strictly_ascending() {
    let mut set = polyrust::ImportSet::new();
    set.require(ImportGroup::new(2, "b").unwrap(), "z".to_owned());
    set.require(ImportGroup::new(1, "a").unwrap(), "y".to_owned());
    set.require(ImportGroup::new(2, "a").unwrap(), "x".to_owned());
    set.require(ImportGroup::new(2, "b").unwrap(), "a".to_owned());
    set.require(ImportGroup::new(2, "b").unwrap(), "a".to_owned());
    let groups = set.groups();
    let keys: Vec<(u16, String, Vec<String>)> = groups
        .iter()
        .map(|(g, imports)| (g.order(), g.name().to_owned(), imports.clone()))
        .collect();
    assert_eq!(
        keys,
        vec![
            (1, "a".to_owned(), vec!["y".to_owned()]),
            (2, "a".to_owned(), vec!["x".to_owned()]),
            (2, "b".to_owned(), vec!["a".to_owned(), "z".to_owned()]),
        ]
    );
}

#[test]
fn grouped_words_fit_the_width_or_take_a_line_each() {
    let words = ["a", "bb", "ccc", "dddd"];
    for width in 1..=20usize {
        let document = Document::join(
            Document::line(),
            words.iter().map(|w| Document::text(w).unwrap()).collect(),
        )
        .group();
        let options = RenderOptions {
            width,
            final_newline: FinalNewline::Never,
            ..RenderOptions::default()
        };
        let text = render(&document, options).unwrap();
        let flat = words.join(" ");
        if flat.chars().count() <= width {
            assert_eq!(text, flat);
        } else {
            assert_eq!(text, words.join("\n"));
        }
        for line in text.lines() {
            assert!(line.chars().count() <= width || words.iter().any(|w| w.len() > width));
        }
    }
}
