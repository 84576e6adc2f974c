use polyrust::{
    render, render_with_stats, Document, FinalNewline, RawText, RenderError, RenderLimits,
    RenderOptions, TextError,
};

fn text(value: &str) -> Document {
    Document::text(value).unwrap()
}

fn options(width: usize) -> RenderOptions {
    RenderOptions {
        width,
        final_newline: FinalNewline::Never,
        ..RenderOptions::default()
    }
}

#[test]
fn document_golden_flat_and_broken_groups() {
    let document = Document::concat(vec![text("alpha"), Document::line(), text("beta")]).group();
    assert_eq!(render(&document, options(10)), Ok("alpha beta".to_owned()));
    assert_eq!(render(&document, options(9)), Ok("alpha\nbeta".to_owned()));

    let conditional = Document::concat(vec![
        text("item"),
        Document::if_break(text(","), text(";")),
        Document::line(),
        text("next"),
    ])
    .group();
    assert_eq!(render(&conditional, options(20)), Ok("item; next".to_owned()));
    assert_eq!(render(&conditional, options(5)), Ok("item,\nnext".to_owned()));
}

#[test]
fn nested_indentation_empty_join_long_tokens_and_unicode_are_golden() {
    let body = Document::concat(vec![
        Document::hard_line(),
        Document::join(Document::hard_line(), vec![text("first"), text("second")]),
    ])
    .indent(4);
    let document = Document::concat(vec![text("header"), body]);
    assert_eq!(
        render(&document, options(80)),
        Ok("header\n    first\n    second".to_owned())
    );
    assert_eq!(
        render(&Document::join(text(","), vec![]), options(80)),
        Ok(String::new())
    );
    assert_eq!(
        render(&text("extraordinary"), options(3)),
        Ok("extraordinary".to_owned())
    );
    assert_eq!(
        render(
            &Document::concat(vec![text("🦀"), Document::line(), text("e\u{301}")]).group(),
            options(4)
        ),
        Ok("🦀 e\u{301}".to_owned())
    );
}

#[test]
fn line_endings_and_final_newline_policies_are_exact() {
    let raw = Document::raw_text(RawText::new("a\r\nb\rc\n"));
    assert_eq!(
        render(
            &raw,
            RenderOptions {
                final_newline: FinalNewline::Preserve,
                ..options(80)
            }
        ),
        Ok("a\nb\nc\n".to_owned())
    );
    assert_eq!(
        render(
            &raw,
            RenderOptions {
                final_newline: FinalNewline::Always,
                ..options(80)
            }
        ),
        Ok("a\nb\nc\n".to_owned())
    );
    assert_eq!(
        render(
            &raw,
            RenderOptions {
                final_newline: FinalNewline::Never,
                ..options(80)
            }
        ),
        Ok("a\nb\nc".to_owned())
    );
    assert_eq!(
        render(
            &Document::empty(),
            RenderOptions {
                final_newline: FinalNewline::Always,
                ..options(80)
            }
        ),
        Ok("\n".to_owned())
    );
}

#[test]
fn normal_text_rejects_raw_controls_explicitly() {
    assert_eq!(
        Document::text("a\tb").unwrap_err(),
        TextError {
            character: '\t',
            scalar_index: 1,
        }
    );
    assert!(Document::text("plain 🦀").is_ok());
    assert_eq!(
        render(&Document::raw_text(RawText::new("a\tb")), options(80)),
        Ok("a\tb".to_owned())
    );
}

#[test]
fn width_boundaries_follow_flat_scalar_width() {
    let document = Document::concat(vec![text("a"), Document::line(), text("b")]).group();
    assert_eq!(render(&document, options(3)), Ok("a b".to_owned()));
    assert_eq!(render(&document, options(2)), Ok("a\nb".to_owned()));

    let tokens = ["a", "bb", "ccc", "dddd"];
    let joined = Document::join(
        Document::line(),
        tokens.iter().copied().map(text).collect::<Vec<_>>(),
    )
    .group();
    for width in 1..=20 {
        let rendered = render(&joined, options(width)).unwrap();
        for line in rendered.lines() {
            assert!(
                line.chars().count() <= width
                    || tokens.iter().any(|token| token.chars().count() > width),
                "width {width}, line {line:?}"
            );
        }
    }
}

#[test]
fn repeated_rendering_is_deterministic_including_stats() {
    let document = Document::join(
        Document::line(),
        (0..100)
            .map(|index| text(&format!("item_{index}")))
            .collect::<Vec<_>>(),
    )
    .group();
    let first = render_with_stats(&document, options(40)).unwrap();
    for _ in 0..20 {
        assert_eq!(render_with_stats(&document, options(40)).unwrap(), first);
    }
    assert!(first.stats.nodes_visited > 100);
    assert!(first.stats.peak_output_capacity_bytes >= first.text.len());
}

#[test]
fn depth_node_and_output_limits_are_structured_without_recursion() {
    let mut deep = text("leaf");
    for _ in 0..4_095 {
        deep = deep.indent(1);
    }
    assert_eq!(render(&deep, options(80)), Ok("leaf".to_owned()));
    assert_eq!(
        render(
            &deep,
            RenderOptions {
                limits: RenderLimits {
                    max_depth: 4_095,
                    ..RenderLimits::default()
                },
                ..options(80)
            }
        ),
        Err(RenderError::DepthLimit { limit: 4_095 })
    );

    let nodes = Document::concat((0..10).map(|_| text("x")).collect::<Vec<_>>());
    assert_eq!(
        render(
            &nodes,
            RenderOptions {
                limits: RenderLimits {
                    max_nodes: 5,
                    ..RenderLimits::default()
                },
                ..options(80)
            }
        ),
        Err(RenderError::NodeLimit { limit: 5 })
    );
    assert_eq!(
        render(
            &text("12345"),
            RenderOptions {
                limits: RenderLimits {
                    max_output_bytes: 4,
                    ..RenderLimits::default()
                },
                ..options(80)
            }
        ),
        Err(RenderError::OutputLimit { limit: 4 })
    );
}

#[test]
fn toy_indentation_sensitive_and_delimited_layouts_share_the_writer() {
    let indentation_sensitive = Document::concat(vec![
        text("section:"),
        Document::concat(vec![Document::hard_line(), text("item")]).indent(2),
    ]);
    assert_eq!(
        render(&indentation_sensitive, options(80)),
        Ok("section:\n  item".to_owned())
    );

    let delimited = Document::concat(vec![
        text("section {"),
        Document::concat(vec![Document::line(), text("item")]).indent(2),
        Document::line(),
        text("}"),
    ])
    .group();
    assert_eq!(
        render(&delimited, options(80)),
        Ok("section { item }".to_owned())
    );
    assert_eq!(
        render(&delimited, options(10)),
        Ok("section {\n  item\n}".to_owned())
    );
}
