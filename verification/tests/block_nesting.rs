use typmark::{emit_html, emit_html_with_options, parse, resolve, HtmlEmitOptions};

fn resolved_blocks(source: &str) -> Vec<typmark::Block> {
    let parsed = parse(source);
    let resolved = resolve(
        parsed.document,
        source,
        &parsed.source_map,
        parsed.diagnostics,
        &parsed.link_defs,
    );
    resolved.document.blocks
}

fn render(source: &str) -> String {
    emit_html(&resolved_blocks(source))
}

#[test]
fn quote_holds_a_tight_list() {
    assert_eq!(
        render("> - a\n> - b\n"),
        "<blockquote>\n  <ul>\n    <li>a</li>\n    <li>b</li>\n  </ul>\n</blockquote>"
    );
}

#[test]
fn loose_list_wraps_paragraphs() {
    assert_eq!(
        render("- a\n\n- b\n"),
        "<ul>\n  <li>\n    <p>a</p>\n  </li>\n  <li>\n    <p>b</p>\n  </li>\n</ul>"
    );
}

#[test]
fn tight_item_with_nested_list() {
    assert_eq!(
        render("- a\n  - b\n"),
        "<ul>\n  <li>a\n    <ul>\n      <li>b</li>\n    </ul>\n  </li>\n</ul>"
    );
}

#[test]
fn ordered_list_keeps_its_start() {
    assert_eq!(
        render("3. x\n4. y\n"),
        "<ol start=\"3\">\n  <li>x</li>\n  <li>y</li>\n</ol>"
    );
}

#[test]
fn indented_code_is_one_pre_element() {
    assert_eq!(render("    x < y\n"), "<pre><code>x &lt; y\n</code></pre>");
}

#[test]
fn unwrapped_sections_are_headings() {
    let options = HtmlEmitOptions { wrap_sections: false, simple_code_blocks: false };
    assert_eq!(
        emit_html_with_options(&resolved_blocks("# T\n\ntext\n"), &options),
        "<h1>T</h1>\n<p>text</p>"
    );
}

#[test]
fn thematic_break_and_raw_html() {
    assert_eq!(render("***\n\n<div>raw</div>\n"), "<hr />\n<div>raw</div>");
}
