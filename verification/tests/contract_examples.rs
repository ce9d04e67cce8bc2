use typmark::{
    apply_renderer_settings, diagnostics_to_json, math_settings_from, normalize_svg_ids, prefix_svg_ids,
    AttrItem, AttrList, AttrValue, Diagnostic, DiagnosticSeverity, Position, Range, RelatedDiagnostic,
    Renderer, Span, Theme, E_LABEL_DUP,
};

fn setting(key: &str, raw: &str) -> AttrItem {
    AttrItem {
        key: key.to_string(),
        value: AttrValue { raw: raw.to_string(), span: Span { start: 0, end: 0 }, quoted: true },
    }
}

fn settings(items: Vec<AttrItem>) -> AttrList {
    AttrList { span: None, label: None, items }
}

fn range(l0: usize, c0: usize, l1: usize, c1: usize) -> Range {
    Range {
        start: Position { line: l0, character: c0 },
        end: Position { line: l1, character: c1 },
    }
}

#[test]
fn diagnostics_json_lists_related_locations() {
    let mut d = Diagnostic::new(range(1, 2, 1, 5), DiagnosticSeverity::Error, E_LABEL_DUP, "dup \"x\"");
    d.related.push(RelatedDiagnostic::new(range(0, 0, 0, 3), Some("first".to_string())));
    let expected = "[\n  {\n    \"code\": \"E_LABEL_DUP\",\n    \"severity\": \"error\",\n    \"message\": \"dup \\\"x\\\"\",\n    \"range\": {\n      \"start\": { \"line\": 1, \"character\": 2 },\n      \"end\": { \"line\": 1, \"character\": 5 }\n    },\n    \"related\": [\n      {\n        \"range\": {\n          \"start\": { \"line\": 0, \"character\": 0 },\n          \"end\": { \"line\": 0, \"character\": 3 }\n        },\n        \"message\": \"first\"\n      }\n    ]\n  }\n]";
    assert_eq!(diagnostics_to_json(&[d]), expected);
}

#[test]
fn later_settings_win_and_auto_width_is_none() {
    let list = settings(vec![
        setting("font-size", "12px"),
        setting("font-size", "  14px "),
        setting("page-width", "auto"),
        setting("line-height", "   "),
        setting("unknown", "1"),
    ]);
    let r = apply_renderer_settings(Renderer::new(Theme::Light), Some(&list));
    assert_eq!(r.var("--typmark-font-size"), Some("14px".to_string()));
    assert_eq!(r.var("--typmark-page-width"), Some("none".to_string()));
    assert_eq!(r.var("--typmark-line-height"), None);
    assert_eq!(r.theme(), Theme::Light);
}

#[test]
fn math_settings_take_the_last_non_blank_value() {
    let list = settings(vec![
        setting("math-font", "A"),
        setting("math-font", " B "),
        setting("math-inline-size", ""),
        setting("math-block-size", "12pt"),
    ]);
    let m = math_settings_from(Some(&list));
    assert_eq!(m.font, Some("B".to_string()));
    assert_eq!(m.inline_size, None);
    assert_eq!(m.block_size, Some("12pt".to_string()));
}

#[test]
fn symbol_ids_get_the_prefix() {
    let svg = "<svg><symbol id=\"a\"/><use xlink:href=\"#a\"/></svg>";
    assert_eq!(
        prefix_svg_ids(svg, "p"),
        "<svg><symbol id=\"p-a\"/><use xlink:href=\"#p-a\"/></svg>"
    );
}

#[test]
fn symbol_ids_are_numbered() {
    let svg = "<svg><symbol id=\"glyph1\"/><use href=\"#glyph1\"/></svg>";
    assert_eq!(normalize_svg_ids(svg), "<svg><symbol id=\"g1\"/><use href=\"#g1\"/></svg>");
    assert_eq!(normalize_svg_ids("<svg/>"), "<svg/>");
}

#[test]
fn remove_indent_columns_expands_tab_from_its_column() {
    // The tab spans columns 1..4; removing one column leaves three spaces.
    assert_eq!(typmark::remove_indent_columns(b" \tx", 1), b"   x".to_vec());
    // Removing four columns of "  x\ty": the tab stands at column 3 and reaches column 4.
    assert_eq!(typmark::remove_indent_columns(b"  x\ty", 4), b"x y".to_vec());
    // A tab that reaches past the removed columns leaves the spaces beyond them.
    assert_eq!(typmark::remove_indent_columns(b"\t\tfoo", 2), b"      foo".to_vec());
}
