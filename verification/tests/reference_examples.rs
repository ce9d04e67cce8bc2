use typmark::{emit_html, parse, resolve};

fn render(source: &str) -> String {
    let parsed = parse(source);
    let resolved = resolve(
        parsed.document,
        source,
        &parsed.source_map,
        parsed.diagnostics,
        &parsed.link_defs,
    );
    emit_html(&resolved.document.blocks)
}

#[test]
fn heading_groups_a_section() {
    assert_eq!(
        render("# Title\nText.\n").trim_end(),
        "<section>\n  <h1>Title</h1>\n  <p>Text.</p>\n</section>"
    );
}

#[test]
fn paragraph_keeps_line_breaks() {
    assert_eq!(
        render("First line\nsecond line\n").trim_end(),
        "<p>First line\nsecond line</p>"
    );
}

#[test]
fn emphasis_strong_and_strike() {
    assert_eq!(
        render("*em* **strong** ~~strike~~\n").trim_end(),
        "<p><em>em</em> <strong>strong</strong> <del>strike</del></p>"
    );
}

#[test]
fn code_span_is_escaped_code() {
    assert_eq!(
        render("`let x = 1;`\n").trim_end(),
        "<p><code>let x = 1;</code></p>"
    );
}

#[test]
fn links_and_images() {
    assert_eq!(
        render("[site](https://example.com) ![alt](img.png)\n").trim_end(),
        "<p><a href=\"https://example.com\">site</a> <img src=\"img.png\" alt=\"alt\" /></p>"
    );
}

#[test]
fn reference_takes_section_title() {
    assert_eq!(
        render("{#intro}\n# Introduction\n\nSee @intro.\n").trim_end(),
        "<section id=\"intro\">\n  <h1>Introduction</h1>\n  <p>See <a class=\"TypMark-ref\" href=\"#intro\">Introduction</a>.</p>\n</section>"
    );
}

#[test]
fn reference_with_bracket_text() {
    assert_eq!(
        render("{#p}\nParagraph.\n\nSee @p[text].\n").trim_end(),
        "<p id=\"p\">Paragraph.</p>\n<p>See <a class=\"TypMark-ref\" href=\"#p\">text</a>.</p>"
    );
}

#[test]
fn reference_text_delinks_title() {
    let html = render(
        "{#sec}\n# Title with [link](https://example.com) and ![img alt](img.png)\n\nSee @sec.\n",
    );
    assert!(
        html.contains(
            "<p>See <a class=\"TypMark-ref\" href=\"#sec\">Title with <span class=\"TypMark-delink\">link</span> and img alt</a>.</p>"
        ),
        "{}",
        html
    );
}

#[test]
fn missing_reference_is_a_span() {
    let html = render("See @missing.\n");
    assert!(html.contains(
        "<span class=\"TypMark-ref ref-unresolved\" data-ref-label=\"missing\">missing</span>"
    ));
}

#[test]
fn target_line_attaches_label_and_data() {
    assert_eq!(
        render("{#note level=high}\nParagraph.\n").trim_end(),
        "<p id=\"note\" data-level=\"high\">Paragraph.</p>"
    );
}

#[test]
fn box_block_with_title() {
    assert_eq!(
        render("{#box1 bg=\"#f8f8f8\"}\n::: box Note\nBody.\n:::\n").trim_end(),
        "<div class=\"TypMark-box\" data-typmark=\"box\" id=\"box1\" data-bg=\"#f8f8f8\">\n  <div class=\"TypMark-box-title\">Note</div>\n  <div class=\"TypMark-box-body\">\n    <p>Body.</p>\n  </div>\n</div>"
    );
}

#[test]
fn fenced_code_block_lines() {
    let source = "```rs {#code note=keep hl=\"2:printf\" diff_del=\"3\"}\nlet a = 1;\nprintf(\"hi\");\nlet b = 2;\n```\n";
    assert_eq!(
        render(source).trim_end(),
        "<figure class=\"TypMark-codeblock\" data-typmark=\"codeblock\" id=\"code\" data-note=\"keep\" data-hl=\"2:printf\" data-diff_del=\"3\" data-lang=\"rs\">\n  <pre class=\"TypMark-pre\"><code class=\"language-rs\"><span class=\"line\" data-line=\"1\">let a = 1;</span><span class=\"line highlighted\" data-line=\"2\" data-highlighted-line id=\"printf\" data-line-label=\"printf\">printf(&quot;hi&quot;);</span><span class=\"line diff del\" data-diff=\"del\">let b = 2;</span></code></pre>\n</figure>"
    );
}

#[test]
fn table_with_alignment() {
    assert_eq!(
        render("| a | b |\n| --- | :---: |\n| 1 | 2 |\n").trim_end(),
        "<table>\n  <thead>\n    <tr>\n      <th>a</th>\n      <th align=\"center\">b</th>\n    </tr>\n  </thead>\n  <tbody>\n    <tr>\n      <td>1</td>\n      <td align=\"center\">2</td>\n    </tr>\n  </tbody>\n</table>"
    );
}

#[test]
fn task_list_items() {
    assert_eq!(
        render("- item\n- [ ] task\n- [x] done\n").trim_end(),
        "<ul class=\"task-list\">\n  <li>item</li>\n  <li class=\"task-list-item\"><input type=\"checkbox\" disabled=\"\" /> task</li>\n  <li class=\"task-list-item\"><input type=\"checkbox\" disabled=\"\" checked=\"\" /> done</li>\n</ul>"
    );
}

#[test]
fn block_quote() {
    assert_eq!(
        render("> Quote\n").trim_end(),
        "<blockquote>\n  <p>Quote</p>\n</blockquote>"
    );
}

#[test]
fn raw_html_with_attributes_is_wrapped() {
    assert_eq!(
        render("{#raw note=keep}\n<div>Raw</div>\n").trim_end(),
        "<div class=\"TypMark-html\" data-typmark=\"html\" id=\"raw\" data-note=\"keep\">\n  <div>Raw</div>\n</div>"
    );
}

#[test]
fn unrendered_math_shows_its_source_as_an_error() {
    let html = render("Inline $a^2$ here.\n");
    assert!(html.contains("TypMark-math-inline"));
    assert!(html.contains("a^2"));
}
