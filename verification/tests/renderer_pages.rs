use typmark::{Renderer, Theme};

#[test]
fn embed_html_includes_css_and_js() {
    let renderer = Renderer::new(Theme::Light);
    let html = renderer.embed_html("<p>Hi</p>", true, true);
    assert!(html.contains("<style>"));
    assert!(html.contains("<script>"));
    assert!(html.contains("<p>Hi</p>"));
}

#[test]
fn embed_html_can_skip_assets() {
    let renderer = Renderer::new(Theme::Light);
    let html = renderer.embed_html("<p>Hi</p>", false, false);
    assert!(!html.contains("<style>"));
    assert!(!html.contains("<script>"));
    assert!(html.contains("<p>Hi</p>"));
}
