use typmark::{
    block_ranges, build_sections, choose_pdf_program, chromium_args, extract_language, file_url,
    first_page_outcome, math_settings_from, math_typst_source, parse, strip_font_weight,
    unescape_html_code, wkhtmltopdf_args, MathSettings, PdfBackend, PdfOptions, PdfProgram,
    Renderer, Theme, TypstResourceLimit, MAX_TYPST_SOURCE_BYTES,
};

#[test]
fn highlight_preserves_line_wrappers() {
    let renderer = Renderer::new(Theme::Light);
    let html = "<figure class=\"TypMark-codeblock\" data-typmark=\"codeblock\"><pre class=\"TypMark-pre\"><code class=\"language-rust\"><span class=\"line\" data-line=\"1\">let x = 1;</span></code></pre></figure>";
    let highlighted = renderer.highlight_html(html);
    assert!(highlighted.contains("class=\"line\""));
    assert!(highlighted.contains("style=\""));
}

#[test]
fn highlight_leaves_other_html_alone() {
    let renderer = Renderer::new(Theme::Dark);
    let html = "<p>No code here.</p>";
    assert_eq!(renderer.highlight_html(html), html);
}

#[test]
fn code_escapes_are_undone() {
    assert_eq!(unescape_html_code(b"&amp;&lt;&gt;&quot;&x"), b"&<>\"&x".to_vec());
}

#[test]
fn font_weights_are_dropped() {
    assert_eq!(
        strip_font_weight(b"<span style=\"color:#fff;font-weight:bold;\">x</span>"),
        b"<span style=\"color:#fff;\">x</span>".to_vec()
    );
    assert_eq!(strip_font_weight(b"a font-weight:bold"), b"a ".to_vec());
}

#[test]
fn language_comes_from_the_class() {
    assert_eq!(extract_language(b"<code class=\"x language-rs\">"), Some(b"rs".to_vec()));
    assert_eq!(extract_language(b"<code class=\"language-\">"), None);
    assert_eq!(extract_language(b"<code>"), None);
}

#[test]
fn math_source_wraps_the_snippet() {
    let source = math_typst_source("x^2", false, &MathSettings::default()).unwrap();
    let text = String::from_utf8(source).unwrap();
    assert!(text.starts_with("#show math.equation: set text(top-edge: \"bounds\", bottom-edge: \"bounds\")\n"));
    assert!(text.contains("#set text(size: 13pt)\n"));
    assert!(text.ends_with("#math.equation(block: false, $ x^2 $)"));
    let settings = MathSettings {
        inline_size: None,
        block_size: Some("20pt".to_string()),
        font: Some("Noto".to_string()),
    };
    let text = String::from_utf8(math_typst_source("y", true, &settings).unwrap()).unwrap();
    assert!(text.contains("#set text(font: \"Noto\")\n"));
    assert!(text.contains("#set text(size: 20pt)\n"));
    assert!(text.ends_with("#math.equation(block: true, $ y $)"));
    assert!(math_typst_source(&"x".repeat(MAX_TYPST_SOURCE_BYTES + 1), false, &MathSettings::default()).is_none());
}

#[test]
fn page_limits_of_compiled_math() {
    assert_eq!(first_page_outcome(17, None), Err(TypstResourceLimit::Pages));
    assert_eq!(first_page_outcome(1, None), Ok(None));
    assert!(matches!(first_page_outcome(1, Some("<svg></svg>".to_string())), Ok(Some(_))));
}

#[test]
fn pdf_program_choice() {
    assert_eq!(choose_pdf_program(PdfBackend::Auto, true, true), Ok(PdfProgram::Chromium));
    assert_eq!(choose_pdf_program(PdfBackend::Auto, false, true), Ok(PdfProgram::Wkhtmltopdf));
    assert_eq!(
        choose_pdf_program(PdfBackend::Chromium, false, true),
        Err("chromium backend not found in PATH".to_string())
    );
    assert!(choose_pdf_program(PdfBackend::Auto, false, false).is_err());
}

#[test]
fn pdf_program_arguments() {
    let options = PdfOptions::new(PdfBackend::Wkhtmltopdf).with_page("A4");
    assert_eq!(
        wkhtmltopdf_args(&options, "in.html", "out.pdf"),
        vec![
            "--quiet", "--enable-local-file-access", "--page-size", "A4", "--margin-top", "0",
            "--margin-right", "0", "--margin-bottom", "0", "--margin-left", "0", "in.html", "out.pdf",
        ]
    );
    assert_eq!(
        chromium_args("file:///tmp/p.html", "out.pdf"),
        vec![
            "--headless", "--disable-gpu", "--allow-file-access-from-files", "--print-to-pdf-no-header",
            "--no-pdf-header-footer", "--print-to-pdf=out.pdf", "file:///tmp/p.html",
        ]
    );
}

#[test]
fn file_urls_encode_paths() {
    assert_eq!(file_url("/tmp/a b", true), "file:///tmp/a%20b/");
    assert_eq!(file_url("C:\\x", false), "file:///C%3A/x");
}

#[test]
fn block_ranges_list_nested_blocks_first() {
    let source = "# A\n\ntext\n";
    let parsed = parse(source);
    let blocks = build_sections(parsed.document.blocks);
    let ranges = block_ranges(&blocks, &parsed.source_map);
    assert_eq!(ranges.len(), 2);
    assert_eq!(ranges[0].start.line, 0);
    assert_eq!(ranges[1].start.line, 2);
}

#[test]
fn math_settings_come_from_document_settings() {
    let source = "{ math-inline-size=12pt math-font=\"Noto Sans\" }\n\ntext\n";
    let parsed = parse(source);
    let settings = math_settings_from(parsed.document.settings.as_ref());
    assert_eq!(settings.inline_size.as_deref(), Some("12pt"));
    assert_eq!(settings.font.as_deref(), Some("Noto Sans"));
    assert_eq!(settings.block_size, None);
}
