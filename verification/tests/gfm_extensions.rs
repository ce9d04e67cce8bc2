use typmark::{emit_html, parse, resolve};

fn render(source: &str) -> String {
    let parsed = parse(source);
    let resolved = resolve(
        parsed.document,
        source,
        &parsed.source_map,
        parsed.diagnostics,
        &parsed.link_defs,
    );
    emit_html(&resolved.document.blocks)
}

#[test]
fn table_cells_are_padded_and_truncated() {
    let html = render("| a | b |\n| - | - |\n| 1 |\n| 1 | 2 | 3 |\n");
    assert!(html.contains("<td>1</td>\n      <td></td>"), "{}", html);
    assert!(!html.contains("<td>3</td>"), "{}", html);
}

#[test]
fn table_cells_hold_inlines_and_escaped_pipes() {
    let html = render("| a | b |\n| :- | -: |\n| *x* | `c|d` \\| e |\n");
    assert!(html.contains("<td align=\"left\"><em>x</em></td>"), "{}", html);
    assert!(html.contains("<td align=\"right\"><code>c|d</code> | e</td>"), "{}", html);
}

#[test]
fn delimiter_row_must_match_the_header() {
    let html = render("| a | b |\n| - |\n");
    assert!(!html.contains("<table>"), "{}", html);
}

#[test]
fn task_marker_only_at_the_start() {
    let html = render("- a [ ] b\n- [x] [link](u)\n");
    assert!(html.contains("<li>a [ ] b</li>"), "{}", html);
    assert!(html.contains("checked=\"\" /> <a href=\"u\">link</a></li>"), "{}", html);
}

#[test]
fn strikethrough_next_to_text() {
    assert_eq!(render("~~foo~~bar\n").trim_end(), "<p><del>foo</del>bar</p>");
    assert_eq!(render("~foo~ ~~~x~~~\n").trim_end(), "<p>~foo~ ~~~x~~~</p>");
}

#[test]
fn bare_urls_become_links() {
    assert_eq!(
        render("Visit https://example.com/a_b.\n").trim_end(),
        "<p>Visit <a href=\"https://example.com/a_b\">https://example.com/a_b</a>.</p>"
    );
    assert_eq!(
        render("(www.example.com/x)\n").trim_end(),
        "<p>(<a href=\"http://www.example.com/x\">www.example.com/x</a>)</p>"
    );
    assert_eq!(render("awww.example.com\n").trim_end(), "<p>awww.example.com</p>");
}

#[test]
fn email_addresses_become_links() {
    assert_eq!(
        render("Mail foo.bar@example.com now\n").trim_end(),
        "<p>Mail <a href=\"mailto:foo.bar@example.com\">foo.bar@example.com</a> now</p>"
    );
}

#[test]
fn angle_autolinks_still_work() {
    assert_eq!(
        render("<https://example.com>\n").trim_end(),
        "<p><a href=\"https://example.com\">https://example.com</a></p>"
    );
}
