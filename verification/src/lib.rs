mod ast;
mod span;
mod source_map;
mod text;
mod scan;
mod html;
mod links;
mod diagnostic;
mod attrs;
mod parser;
mod inline;
mod table;
mod autolink;
mod math;
mod emit;
mod block_html;
mod utf8_text;
mod section;
mod resolver;
mod sanitize;
mod renderer;
mod highlight;
mod pdf;
mod cli;

pub use ast::{
    AttrItem, AttrList, AttrValue, Block, BlockKind, BoxBlock, CodeBlock, CodeBlockKind, CodeMeta,
    Document, Inline, InlineKind, InlineSeq, Label, LineLabel, LineRange, LinkDefinition,
    LinkRefMeta, List, ListItem, NodeId, ResolvedRef, Table, TableAlign,
};
pub use span::{Span, SpanError};
pub use source_map::{Position, Range, SourceMap};
pub use diagnostic::{
    Diagnostic, DiagnosticSeverity, RelatedDiagnostic, E_ATTR_SYNTAX, E_CODE_CONFLICT, E_LABEL_DUP,
    E_MATH_INLINE_NL, E_REF_BRACKET_NL, E_REF_DEPTH, E_REF_OMIT, E_REF_SELF_TITLE, E_TARGET_ORPHAN,
    W_BOX_STYLE_INVALID, W_CODE_RANGE_OOB, W_REF_MISSING,
};
pub use parser::{parse, ParseResult, Parser};
pub use resolver::{resolve, ResolveResult};
pub use section::{block_ranges, block_spans, build_sections, spans_kept};
pub use emit::{
    emit_blocks, emit_html, emit_html_document_sanitized_with_options,
    emit_html_document_sanitized_with_options_and_source_map, emit_html_document_with_options,
    emit_html_document_with_options_and_source_map, emit_html_sanitized,
    emit_html_sanitized_with_options, emit_html_with_math, emit_html_with_options, escape_text,
    escape_url_attr, math_sources, HtmlEmitOptions,
};
pub use math::{
    first_page_outcome, math_typst_source, normalize_svg_ids, normalize_svg_with_limit,
    prefix_svg_ids, prefix_typst_svg_ids, replace_all, typst_source_with_preamble, MathSettings,
    TypstResourceLimit, MAX_TYPST_PAGES,
    MAX_TYPST_SOURCE_BYTES, MAX_TYPST_SVG_BYTES,
};
pub use sanitize::{policy_is_safe, sanitize_html, sanitize_policy, sanitize_with_policy, SanitizePolicy};
pub use renderer::{Renderer, Theme, BASE_CSS, BASE_JS};
pub use pdf::{
    pdf_base_choice, PdfBase,
    choose_pdf_program, chromium_args, chromium_ignores_options, file_url, pdf_extra_css,
    wkhtmltopdf_args, PdfBackend, PdfMargin, PdfOptions, PdfProgram,
};
pub use cli::{
    accept_pdf_scale, apply_renderer_settings, diagnostic_to_pretty, diagnostics_to_json, escape_json,
    margin_words, math_settings_from, parse_pdf_backend, parse_pdf_margin, read_pdf_settings,
    setting_var, severity_label, PdfSettings,
};
pub use attrs::{clamp_ranges, parse_u32, ranges_overlap};
pub use scan::{parse_list_marker, remove_indent_columns, ListMarker};
pub use highlight::{extract_language, strip_font_weight, unescape_html_code};
