use typmark::{normalize_svg_with_limit, prefix_typst_svg_ids, TypstResourceLimit, MAX_TYPST_SVG_BYTES};

#[test]
fn prefix_typst_svg_ids_rewrites_definitions_and_references() {
    let svg = r##"<svg><defs id="glyph"><linearGradient id="paint"/></defs><path fill="url(#paint)"/><use href="#glyph" xlink:href="#glyph"/></svg>"##;
    let prefixed = prefix_typst_svg_ids(svg, "tm-t1");

    assert!(prefixed.contains("id=\"tm-t1-glyph\""));
    assert!(prefixed.contains("id=\"tm-t1-paint\""));
    assert!(prefixed.contains("url(#tm-t1-paint)"));
    assert!(prefixed.contains("href=\"#tm-t1-glyph\""));
    assert!(prefixed.contains("xlink:href=\"#tm-t1-glyph\""));
}

#[test]
fn oversized_svg_output_is_rejected() {
    let svg = "x".repeat(MAX_TYPST_SVG_BYTES + 1);
    assert_eq!(
        normalize_svg_with_limit(svg),
        Err(TypstResourceLimit::SvgBytes)
    );
}
