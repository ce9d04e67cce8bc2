use typmark::{
    build_sections, clamp_ranges, diagnostic_to_pretty, diagnostics_to_json, emit_html,
    escape_json, escape_text, escape_url_attr, normalize_svg_with_limit, parse, parse_pdf_backend,
    parse_pdf_margin, parse_u32, pdf_extra_css, policy_is_safe, ranges_overlap, resolve,
    sanitize_html, sanitize_policy, typst_source_with_preamble, BlockKind, Diagnostic,
    DiagnosticSeverity, LineRange, PdfBackend, PdfMargin, PdfOptions, Position, Range, Renderer,
    SourceMap, Span, SpanError, Theme, E_REF_OMIT, W_REF_MISSING,
};

#[test]
fn span_new_rejects_inverted_ranges() {
    assert_eq!(Span::new(3, 1), Err(SpanError::Inverted { start: 3, end: 1 }));
    let span = Span::new(2, 5).unwrap();
    assert_eq!(span.len(), 3);
    assert!(!span.is_empty());
    assert!(Span::new(4, 4).unwrap().is_empty());
}

#[test]
fn source_map_counts_columns_in_bytes() {
    let map = SourceMap::new("ab\ncd");
    assert_eq!(map.line_count(), 2);
    assert_eq!(map.position(4), Position { line: 1, character: 1 });
    let range = map.range(Span { start: 1, end: 5 });
    assert_eq!(range.start, Position { line: 0, character: 1 });
    assert_eq!(range.end, Position { line: 1, character: 2 });
}

#[test]
fn renderer_reads_back_what_was_written() {
    let renderer = Renderer::new(Theme::Dark)
        .with_var("--b", "2")
        .with_var("--a", "1")
        .with_var("--b", "3");
    assert_eq!(renderer.var("--b"), Some("3".to_string()));
    assert_eq!(renderer.var("--a"), Some("1".to_string()));
    assert_eq!(renderer.var("--c"), None);
}

#[test]
fn stylesheet_lists_custom_variables_in_key_order() {
    let renderer = Renderer::new(Theme::Light).with_var("--b", "2").with_var("--a", "1");
    let css = renderer.stylesheet();
    assert!(css.starts_with(":root {\n  color-scheme: light dark;\n  --typmark-accent: #2b6cb0;\n"));
    assert!(css.contains(":root {\n  --a: 1;\n  --b: 2;\n}\n"));
}

#[test]
fn auto_theme_adds_a_dark_media_block() {
    let css = Renderer::new(Theme::Auto).stylesheet();
    assert!(css.contains("@media (prefers-color-scheme: dark) {\n  :root {\n"));
    assert!(css.contains("    --typmark-bg: #0e1116;\n"));
}

#[test]
fn embed_html_wraps_the_fragment() {
    let page = Renderer::new(Theme::Light).embed_html("<p>x</p>", false, false);
    assert!(page.starts_with("<!DOCTYPE html>\n<html lang=\"en\">\n<head>\n"));
    assert!(page.contains("<p>x</p>"));
    assert!(page.ends_with("</body>\n</html>\n"));
}

#[test]
fn escape_text_escapes_markup_bytes() {
    assert_eq!(escape_text("a<b>&\"c'"), b"a&lt;b&gt;&amp;&quot;c'".to_vec());
}

#[test]
fn escape_url_attr_percent_encodes() {
    assert_eq!(escape_url_attr("a b\"c\\d"), b"a%20b%22c%5Cd".to_vec());
    assert_eq!(escape_url_attr("\u{e9}"), b"%C3%A9".to_vec());
}

#[test]
fn parse_u32_reads_decimal_literals() {
    assert_eq!(parse_u32(b"42"), Some(42));
    assert_eq!(parse_u32(b"+7"), Some(7));
    assert_eq!(parse_u32(b"4294967295"), Some(4294967295));
    assert_eq!(parse_u32(b"4294967296"), None);
    assert_eq!(parse_u32(b""), None);
    assert_eq!(parse_u32(b"+"), None);
    assert_eq!(parse_u32(b"12a"), None);
}

#[test]
fn line_ranges_overlap_and_clamp() {
    let a = [LineRange { start: 1, end: 3 }];
    let b = [LineRange { start: 3, end: 4 }];
    let c = [LineRange { start: 5, end: 6 }];
    assert!(ranges_overlap(&a, &b));
    assert!(!ranges_overlap(&a, &c));
    let kept = clamp_ranges(
        vec![
            LineRange { start: 0, end: 2 },
            LineRange { start: 2, end: 3 },
            LineRange { start: 3, end: 9 },
            LineRange { start: 4, end: 4 },
        ],
        4,
    );
    assert_eq!(
        kept,
        vec![LineRange { start: 2, end: 3 }, LineRange { start: 4, end: 4 }]
    );
}

#[test]
fn pdf_backend_names() {
    assert_eq!(parse_pdf_backend("auto"), Ok(PdfBackend::Auto));
    assert_eq!(parse_pdf_backend("chrome"), Ok(PdfBackend::Chromium));
    assert_eq!(parse_pdf_backend("wkhtml"), Ok(PdfBackend::Wkhtmltopdf));
    assert_eq!(
        parse_pdf_backend("pdf"),
        Err("unsupported pdf-backend: pdf (expected auto|chromium|wkhtmltopdf)".to_string())
    );
}

#[test]
fn pdf_margin_follows_css_shorthand() {
    let m = parse_pdf_margin("1cm, 2cm").unwrap();
    assert_eq!(
        (m.top.as_str(), m.right.as_str(), m.bottom.as_str(), m.left.as_str()),
        ("1cm", "2cm", "1cm", "2cm")
    );
    let m = parse_pdf_margin("1 2 3").unwrap();
    assert_eq!(
        (m.top.as_str(), m.right.as_str(), m.bottom.as_str(), m.left.as_str()),
        ("1", "2", "3", "2")
    );
    assert_eq!(
        parse_pdf_margin("").unwrap_err(),
        "pdf-margin expects 1 to 4 values, got 0"
    );
    assert_eq!(
        parse_pdf_margin("1 2 3 4 5").unwrap_err(),
        "pdf-margin expects 1 to 4 values, got 5"
    );
}

#[test]
fn pdf_options_builders_set_fields() {
    let options = PdfOptions::new(PdfBackend::Chromium)
        .with_page("A4")
        .with_scale("0.9")
        .with_base_url("file:///tmp/")
        .with_margin(PdfMargin::new("1", "2", "3", "4"));
    assert_eq!(options.backend, PdfBackend::Chromium);
    assert_eq!(options.page.as_deref(), Some("A4"));
    assert_eq!(options.scale.as_deref(), Some("0.9"));
    assert_eq!(options.base_url.as_deref(), Some("file:///tmp/"));
    assert_eq!(options.margin.unwrap().left, "4");
    assert!(pdf_extra_css(None).contains("@page { margin: 0; }"));
    assert!(pdf_extra_css(Some(&PdfMargin::new("1", "2", "3", "4"))).contains("@page { margin: 1 2 3 4; }"));
}

#[test]
fn json_escape_of_control_bytes() {
    assert_eq!(escape_json("a\"b\\c\nd\te"), b"a\\\"b\\\\c\\nd\\te".to_vec());
}

#[test]
fn typst_preamble_is_prepended_when_not_blank() {
    assert_eq!(typst_source_with_preamble("x", ""), "x");
    assert_eq!(typst_source_with_preamble("x", "  \n"), "x");
    assert_eq!(typst_source_with_preamble("x", "#set text(1pt)  \n"), "#set text(1pt)\nx");
}

#[test]
fn small_svg_is_kept() {
    assert!(normalize_svg_with_limit("<svg></svg>".to_string()).is_ok());
}

#[test]
fn sanitizer_drops_scripts_and_styles() {
    assert_eq!(sanitize_html("<p onclick=\"x()\">a<script>b()</script></p>"), "<p>a</p>");
    assert_eq!(
        sanitize_html("<p data-x=\"1\" style=\"color: red\">t</p>"),
        "<p data-x=\"1\">t</p>"
    );
    assert!(policy_is_safe(&sanitize_policy()));
}

#[test]
fn sanitized_emission_removes_raw_scripts() {
    let source = "<script>alert(1)</script>\n\nText.\n";
    let parsed = parse(source);
    let html = typmark::emit_html_sanitized(&parsed.document.blocks);
    assert!(!html.contains("<script>"));
    assert!(html.contains("<p>Text.</p>"));
    assert!(emit_html(&parsed.document.blocks).contains("<script>"));
}

#[test]
fn resolve_keeps_given_diagnostics_first() {
    let source = "@missing[link]\n";
    let parsed = parse(source);
    let start = Position { line: 0, character: 0 };
    let given = Diagnostic::new(Range { start, end: start }, DiagnosticSeverity::Error, E_REF_OMIT, "given");
    let mut diagnostics = parsed.diagnostics;
    diagnostics.insert(0, given);
    let resolved = resolve(parsed.document, source, &parsed.source_map, diagnostics, &parsed.link_defs);
    assert_eq!(resolved.diagnostics[0].message, "given");
    assert!(resolved.diagnostics.iter().any(|d| d.code == W_REF_MISSING));
}

#[test]
fn reference_to_untitled_target_needs_text() {
    let source = "{#p}\nParagraph.\n\n@p\n";
    let parsed = parse(source);
    let resolved = resolve(parsed.document, source, &parsed.source_map, parsed.diagnostics, &parsed.link_defs);
    let omit = resolved.diagnostics.iter().find(|d| d.code == E_REF_OMIT).expect("E_REF_OMIT");
    assert_eq!(omit.severity, DiagnosticSeverity::Error);
    assert!(diagnostic_to_pretty(omit).contains("error E_REF_OMIT"));
    assert!(diagnostics_to_json(&resolved.diagnostics).contains("\"code\": \"E_REF_OMIT\""));
    assert_eq!(diagnostics_to_json(&[]), "[]");
}

#[test]
fn sections_nest_by_heading_level() {
    let source = "# A\ntext\n## B\nmore\n# C\n";
    let parsed = parse(source);
    let blocks = build_sections(parsed.document.blocks);
    assert_eq!(blocks.len(), 2);
    match &blocks[0].kind {
        BlockKind::Section { level, children, .. } => {
            assert_eq!(*level, 1);
            assert_eq!(children.len(), 2);
            assert!(matches!(children[1].kind, BlockKind::Section { level: 2, .. }));
        }
        other => panic!("expected a section, got {:?}", other),
    }
    assert!(blocks[1].span.end <= source.len());
}
