use typmark::{
    accept_pdf_scale, emit_html_with_math, math_sources, parse, parse_list_marker, pdf_base_choice, prefix_svg_ids, PdfBase,
    read_pdf_settings, resolve, AttrList, BlockKind, HtmlEmitOptions, PdfBackend, PdfSettings, Renderer,
    Theme,
};

#[test]
fn list_marker_widths_follow_the_columns_after_the_marker() {
    let m = parse_list_marker(b"-   foo").unwrap();
    assert_eq!(m.marker_col, 1);
    assert_eq!(m.post_cols, 3);
    assert_eq!(m.content_indent, 4);
    assert_eq!(m.marker_len, 4);
    assert_eq!(m.content_start, 4);
    assert!(!m.empty);

    let m = parse_list_marker(b"1.\tfoo").unwrap();
    assert_eq!(m.marker_col, 2);
    assert_eq!(m.post_cols, 2);
    assert_eq!(m.content_indent, 4);
    assert_eq!(m.marker_len, 3);

    let m = parse_list_marker(b"-      foo").unwrap();
    assert_eq!(m.post_cols, 6);
    assert_eq!(m.content_indent, 5);
    assert_eq!(m.marker_len, 5);

    let m = parse_list_marker(b"-").unwrap();
    assert!(m.empty);
    assert_eq!(m.content_indent, 2);
    assert_eq!(m.marker_len, 1);
}

#[test]
fn setting_a_variable_again_replaces_it_in_the_stylesheet() {
    let twice = Renderer::new(Theme::Auto).with_var("--a", "1").with_var("--b", "x").with_var("--a", "2");
    let once = Renderer::new(Theme::Auto).with_var("--b", "x").with_var("--a", "2");
    assert_eq!(twice.stylesheet(), once.stylesheet());
    assert!(once.stylesheet().contains(":root {\n  --a: 2;\n  --b: x;\n}\n"));
}

#[test]
fn a_section_ends_at_the_next_heading_of_its_level_or_higher() {
    let src = "## A\nx\n# B\ny\n### C\nz\n";
    let p = parse(src);
    let r = resolve(p.document, src, &p.source_map, p.diagnostics, &p.link_defs);
    let blocks = &r.document.blocks;
    assert_eq!(blocks.len(), 2);
    match &blocks[0].kind {
        BlockKind::Section { level, children, .. } => {
            assert_eq!(*level, 2);
            assert_eq!(children.len(), 1);
            assert!(matches!(children[0].kind, BlockKind::Paragraph { .. }));
        }
        other => panic!("expected a section, got {:?}", other),
    }
    match &blocks[1].kind {
        BlockKind::Section { level, children, .. } => {
            assert_eq!(*level, 1);
            assert_eq!(children.len(), 2);
            assert!(matches!(children[1].kind, BlockKind::Section { level: 3, .. }));
        }
        other => panic!("expected a section, got {:?}", other),
    }
}

#[test]
fn math_nodes_are_numbered_in_order() {
    let src = "Inline $a$ and $b$.\n";
    let p = parse(src);
    let r = resolve(p.document, src, &p.source_map, p.diagnostics, &p.link_defs);
    let options = HtmlEmitOptions::default();
    let sources = math_sources(&r.document.blocks, &options);
    assert_eq!(sources, vec![("a".to_string(), false), ("b".to_string(), false)]);
    let svg = "<svg><symbol id=\"g1\"></symbol><use xlink:href=\"#g1\"/></svg>".to_string();
    let html = emit_html_with_math(&r.document.blocks, &options, &[Some(svg.clone()), None]);
    let numbered = prefix_svg_ids(&svg, "tm-m1");
    assert_ne!(numbered, svg);
    assert!(html.contains(&format!(
        "<span class=\"TypMark-math-inline\"><span class=\"TypMark-math-inline-strut\"></span>{}</span>",
        numbered
    )));
    assert!(html.contains("<span class=\"TypMark-math-inline--error\">b</span>"));
}

fn pdf_item(key: &str, raw: &str) -> typmark::AttrItem {
    typmark::AttrItem {
        key: key.to_string(),
        value: typmark::AttrValue { raw: raw.to_string(), span: typmark::Span { start: 0, end: 0 }, quoted: true },
    }
}

#[test]
fn pdf_settings_are_read_up_to_each_scale() {
    let settings = AttrList {
        span: None,
        label: None,
        items: vec![
            pdf_item("pdf-page", " A4 "),
            pdf_item("pdf-scale", "0.8"),
            pdf_item("pdf-margin", "1cm 2cm"),
            pdf_item("pdf-page", ""),
            pdf_item("pdf-backend", "chrome"),
        ],
    };
    let mut pdf = PdfSettings::defaults();
    assert_eq!(read_pdf_settings(&settings, &mut pdf, 0), Ok(Some(1)));
    assert_eq!(pdf.page.as_deref(), Some("A4"));
    assert_eq!(pdf.scale, None);
    accept_pdf_scale(&settings, &mut pdf, 1);
    assert_eq!(pdf.scale.as_deref(), Some("0.8"));
    assert_eq!(read_pdf_settings(&settings, &mut pdf, 2), Ok(None));
    let margin = pdf.margin.clone().unwrap();
    assert_eq!((margin.top.as_str(), margin.right.as_str()), ("1cm", "2cm"));
    assert_eq!((margin.bottom.as_str(), margin.left.as_str()), ("1cm", "2cm"));
    assert_eq!(pdf.page.as_deref(), Some("A4"));
    assert_eq!(pdf.backend, PdfBackend::Chromium);

    let bad = AttrList { span: None, label: None, items: vec![pdf_item("pdf-backend", "lynx")] };
    let mut pdf = PdfSettings::defaults();
    assert!(read_pdf_settings(&bad, &mut pdf, 0).is_err());
    assert_eq!(pdf.backend, PdfBackend::Auto);
}

#[test]
fn code_line_attributes_report_each_malformed_entry_and_each_overflow() {
    let src = "```rs {hl=\"0,x,1\" diff_add=9}\nlet a = 1;\n```\n";
    let p = parse(src);
    let codes: Vec<&str> = p.diagnostics.iter().map(|d| d.code).collect();
    assert_eq!(codes, vec!["E_ATTR_SYNTAX", "E_ATTR_SYNTAX", "W_CODE_RANGE_OOB"]);

    let src = "```rs {hl=1 diff_add=1}\nlet a = 1;\n```\n";
    let p = parse(src);
    let codes: Vec<&str> = p.diagnostics.iter().map(|d| d.code).collect();
    assert_eq!(codes, vec!["E_CODE_CONFLICT"]);
}

#[test]
fn attribute_lists_give_label_and_items_with_their_spans() {
    let src = "{#lbl k=v q=\"a b\"}";
    let mut parser = typmark::Parser {
        src_len: src.len(),
        diagnostics: Vec::new(),
        source_map: typmark::SourceMap::new(src),
        link_defs: Vec::new(),
    };
    let attrs = parser.parse_attr_list_text(src.as_bytes(), 0);
    let label = attrs.label.unwrap();
    assert_eq!(label.name, "lbl");
    assert_eq!((label.span.start, label.span.end), (2, 5));
    assert_eq!(attrs.items.len(), 2);
    assert_eq!(attrs.items[0].key, "k");
    assert_eq!(attrs.items[0].value.raw, "v");
    assert_eq!((attrs.items[0].value.span.start, attrs.items[0].value.span.end), (8, 9));
    assert!(!attrs.items[0].value.quoted);
    assert_eq!(attrs.items[1].key, "q");
    assert_eq!(attrs.items[1].value.raw, "a b");
    assert_eq!((attrs.items[1].value.span.start, attrs.items[1].value.span.end), (13, 16));
    assert!(attrs.items[1].value.quoted);
    assert!(parser.diagnostics.is_empty());
}

#[test]
fn display_and_inline_math_are_numbered_in_document_order() {
    let src = "# Title $t$\n\nText $a$.\n\n$$\nx^2\n$$\n";
    let p = parse(src);
    let r = resolve(p.document, src, &p.source_map, p.diagnostics, &p.link_defs);
    let options = HtmlEmitOptions::default();
    let sources = math_sources(&r.document.blocks, &options);
    assert_eq!(
        sources,
        vec![("t".to_string(), false), ("a".to_string(), false), ("x^2".to_string(), true)]
    );
    let svg = "<svg><symbol id=\"g1\"></symbol></svg>".to_string();
    let html = emit_html_with_math(&r.document.blocks, &options, &[None, None, Some(svg.clone())]);
    let numbered = prefix_svg_ids(&svg, "tm-m3");
    assert!(html.contains(&format!("<div class=\"TypMark-math-block\">{}</div>", numbered)));
    assert!(html.contains("<span class=\"TypMark-math-inline--error\">a</span>"));
}

#[test]
fn pdf_base_setting_chooses_where_links_resolve() {
    assert_eq!(pdf_base_choice(None), Ok(PdfBase::Input));
    assert_eq!(pdf_base_choice(Some("  ")), Ok(PdfBase::Off));
    assert!(pdf_base_choice(Some("https://x.org/")).is_err());
    assert_eq!(pdf_base_choice(Some(" file:///tmp/a ")), Ok(PdfBase::Url("file:///tmp/a/".to_string())));
    assert_eq!(pdf_base_choice(Some("assets")), Ok(PdfBase::Dir("assets".to_string())));
}

#[test]
fn a_list_item_interrupts_a_paragraph_and_a_link_takes_its_tail() {
    let p = parse("para [x](/u \"t\")\n- item\n");
    assert_eq!(p.document.blocks.len(), 2);
    match &p.document.blocks[0].kind {
        BlockKind::Paragraph { content } => {
            assert!(content.iter().any(|n| matches!(&n.kind,
                typmark::InlineKind::Link { url, title, .. } if url == "/u" && title.as_deref() == Some("t"))));
        }
        other => panic!("expected a paragraph, got {:?}", other),
    }
    assert!(matches!(p.document.blocks[1].kind, BlockKind::List(_)));
}

#[test]
fn a_position_line_counts_the_line_feeds_before_it() {
    let map = typmark::SourceMap::new("a\nb\n\ncd");
    assert_eq!(map.position(0).line, 0);
    assert_eq!(map.position(2).line, 1);
    assert_eq!(map.position(5).line, 3);
    assert_eq!(map.position(7).line, 3);
    assert_eq!(map.position(99).line, 3);
}

#[test]
fn box_closes_on_its_own_fence_and_not_inside_code() {
    let src = "::: box\n```\n:::\n```\n:::\nAfter.\n";
    let p = parse(src);
    assert_eq!(p.document.blocks.len(), 2);
    match &p.document.blocks[0].kind {
        BlockKind::Box(bx) => {
            assert_eq!(bx.blocks.len(), 1);
            match &bx.blocks[0].kind {
                BlockKind::CodeBlock(code) => assert_eq!(code.text, ":::"),
                _ => panic!("expected a code block inside the box"),
            }
        }
        _ => panic!("expected a box"),
    }
    assert!(matches!(p.document.blocks[1].kind, BlockKind::Paragraph { .. }));

    let src = ":::: box\n::: box\ninner\n:::\nstill outer\n::::\n";
    let p = parse(src);
    assert_eq!(p.document.blocks.len(), 1);
    match &p.document.blocks[0].kind {
        BlockKind::Box(bx) => {
            assert_eq!(bx.blocks.len(), 2);
            assert!(matches!(bx.blocks[0].kind, BlockKind::Box(_)));
            assert!(matches!(bx.blocks[1].kind, BlockKind::Paragraph { .. }));
        }
        _ => panic!("expected a box"),
    }
}

#[test]
fn html_blocks_and_quotes_end_where_their_rules_say() {
    let src = "<div>\n<p>x</p>\n\nText\n";
    let p = parse(src);
    assert_eq!(p.document.blocks.len(), 2);
    match &p.document.blocks[0].kind {
        BlockKind::HtmlBlock { raw } => assert_eq!(raw, "<div>\n<p>x</p>"),
        _ => panic!("expected an HTML block"),
    }

    let src = "> a\nlazy\n\nb\n";
    let p = parse(src);
    assert_eq!(p.document.blocks.len(), 2);
    match &p.document.blocks[0].kind {
        BlockKind::BlockQuote { blocks } => assert_eq!(blocks.len(), 1),
        _ => panic!("expected a block quote"),
    }
}

#[test]
fn top_level_blocks_come_in_source_order() {
    let src = "Para one.\n\n# Head\n\n- a\n- b\n\n> quote\n\n```\ncode\n```\n";
    let p = parse(src);
    assert_eq!(p.document.blocks.len(), 5);
    for pair in p.document.blocks.windows(2) {
        assert!(pair[0].span.end <= pair[1].span.start);
    }
    assert_eq!(p.document.blocks[0].span.start, 0);
}
