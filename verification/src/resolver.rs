use vstd::prelude::*;
use vstd::string::StringSliceAdditionalSpecFns;
use crate::ast::{
    Block, BlockKind, BoxBlock, Document, Inline, InlineKind, InlineSeq, Label, LinkDefinition,
    LinkRefMeta, List, ListItem, ResolvedRef, span_in, inline_in, inlines_in, block_in, blocks_in,
    item_in, document_in, meta_in, label_in,
};
use crate::diagnostic::{
    Diagnostic, DiagnosticSeverity, RelatedDiagnostic, E_LABEL_DUP, E_REF_DEPTH, E_REF_OMIT,
    E_REF_SELF_TITLE, W_REF_MISSING,
};
use crate::links::{normalize_link_label, unescape_backslash_punct};
use crate::parser::find_link_def;
use crate::section::{
    build_sections, grouped, lemma_frames_closed, lemma_frames_outline, no_sections, outline, same_frame,
    same_frames, sections_closed,
};
use crate::source_map::SourceMap;
use crate::span::Span;
use crate::text::{copy_range, string_bytes, string_from_bytes};

verus! {

/// What `resolve` returns: the document with link references, sections and references
/// resolved, and the diagnostics (those given, then those found).
pub struct ResolveResult {
    pub document: Document,
    pub diagnostics: Vec<Diagnostic>,
}

/// What a label names: a block with a title, another block, or a line of code.
#[derive(Clone, Copy, PartialEq, Eq, Structural)]
pub enum LabelKind {
    Title,
    Block,
    CodeLine,
}

/// A label: its name, where it is defined, what it names and the title of that target.
pub struct LabelInfo {
    pub name: String,
    pub span: Span,
    pub kind: LabelKind,
    pub title: Option<InlineSeq>,
}

/// `new` is `old` with more diagnostics after it.
pub open spec fn appended(old: Seq<Diagnostic>, new: Seq<Diagnostic>) -> bool {
    old.len() <= new.len() && forall|k: int| 0 <= k < old.len() ==> new[k] == old[k]
}

/// No link or image reference is left, at any depth that resolution looks into (emphasis,
/// strong emphasis, links, images and the bracketed text of references).
pub open spec fn refs_resolved_at(x: Inline) -> bool
    decreases x,
{
    match x.kind {
        InlineKind::LinkRef { .. } => false,
        InlineKind::ImageRef { .. } => false,
        InlineKind::Emph(c) => refs_resolved(c@),
        InlineKind::Strong(c) => refs_resolved(c@),
        InlineKind::Link { children, .. } => refs_resolved(children@),
        InlineKind::Image { alt, .. } => refs_resolved(alt@),
        InlineKind::Ref { bracket, .. } => match bracket {
            Some(b) => refs_resolved(b@),
            None => true,
        },
        _ => true,
    }
}

pub open spec fn refs_resolved(xs: Seq<Inline>) -> bool
    decreases xs,
{
    forall|i: int| 0 <= i < xs.len() ==> refs_resolved_at(#[trigger] xs[i])
}

/// No link or image reference is left in the inline content of the blocks (paragraphs,
/// headings, section and box titles) or of the blocks nested in them.
pub open spec fn blocks_resolved(bs: Seq<Block>) -> bool
    decreases bs,
{
    forall|i: int| 0 <= i < bs.len() ==> block_resolved(#[trigger] bs[i])
}

pub open spec fn block_resolved(b: Block) -> bool
    decreases b,
{
    match b.kind {
        BlockKind::Paragraph { content } => refs_resolved(content@),
        BlockKind::Heading { title, .. } => refs_resolved(title@),
        BlockKind::Section { title, children, .. } => refs_resolved(title@) && blocks_resolved(
            children@,
        ),
        BlockKind::BlockQuote { blocks } => blocks_resolved(blocks@),
        BlockKind::List(l) => items_resolved(l.items@),
        BlockKind::Box(bx) => (match bx.title {
            Some(t) => refs_resolved(t@),
            None => true,
        }) && blocks_resolved(bx.blocks@),
        _ => true,
    }
}

pub open spec fn items_resolved(items: Seq<ListItem>) -> bool
    decreases items,
{
    forall|i: int| 0 <= i < items.len() ==> blocks_resolved((#[trigger] items[i]).blocks@)
}

/// Every reference whose label is in the table has been resolved, at any depth that
/// resolution looks into (emphasis, strong emphasis, strikethrough, links, images and link and
/// image references).
pub open spec fn refs_bound_at(x: Inline, labels: Seq<LabelInfo>) -> bool
    decreases x,
{
    match x.kind {
        InlineKind::Ref { label, resolved, .. } => has_label(labels, label.name@) ==> resolved is Some,
        InlineKind::Emph(c) => refs_bound(c@, labels),
        InlineKind::Strong(c) => refs_bound(c@, labels),
        InlineKind::Strikethrough(c) => refs_bound(c@, labels),
        InlineKind::Link { children, .. } => refs_bound(children@, labels),
        InlineKind::LinkRef { children, .. } => refs_bound(children@, labels),
        InlineKind::Image { alt, .. } => refs_bound(alt@, labels),
        InlineKind::ImageRef { alt, .. } => refs_bound(alt@, labels),
        _ => true,
    }
}

pub open spec fn refs_bound(xs: Seq<Inline>, labels: Seq<LabelInfo>) -> bool
    decreases xs,
{
    forall|i: int| 0 <= i < xs.len() ==> refs_bound_at(#[trigger] xs[i], labels)
}

/// `refs_bound` for the inline content of the blocks and of the blocks nested in them.
pub open spec fn blocks_bound(bs: Seq<Block>, labels: Seq<LabelInfo>) -> bool
    decreases bs,
{
    forall|i: int| 0 <= i < bs.len() ==> block_bound(#[trigger] bs[i], labels)
}

pub open spec fn block_bound(b: Block, labels: Seq<LabelInfo>) -> bool
    decreases b,
{
    match b.kind {
        BlockKind::Paragraph { content } => refs_bound(content@, labels),
        BlockKind::Heading { title, .. } => refs_bound(title@, labels),
        BlockKind::Section { title, children, .. } => refs_bound(title@, labels) && blocks_bound(
            children@,
            labels,
        ),
        BlockKind::BlockQuote { blocks } => blocks_bound(blocks@, labels),
        BlockKind::List(l) => items_bound(l.items@, labels),
        BlockKind::Box(bx) => (match bx.title {
            Some(t) => refs_bound(t@, labels),
            None => true,
        }) && blocks_bound(bx.blocks@, labels),
        _ => true,
    }
}

pub open spec fn items_bound(items: Seq<ListItem>, labels: Seq<LabelInfo>) -> bool
    decreases items,
{
    forall|i: int| 0 <= i < items.len() ==> blocks_bound((#[trigger] items[i]).blocks@, labels)
}

proof fn lemma_resolved_push(xs: Seq<Inline>, x: Inline)
    requires
        refs_resolved(xs),
        refs_resolved_at(x),
    ensures
        refs_resolved(xs.push(x)),
{
    assert forall|k: int| 0 <= k < xs.len() + 1 implies refs_resolved_at(#[trigger] xs.push(x)[k]) by {
        if k < xs.len() {
            assert(xs.push(x)[k] == xs[k]);
        }
    }
}

proof fn lemma_resolved_concat(xs: Seq<Inline>, ys: Seq<Inline>)
    requires
        refs_resolved(xs),
        refs_resolved(ys),
    ensures
        refs_resolved(xs + ys),
{
    assert forall|k: int| 0 <= k < xs.len() + ys.len() implies refs_resolved_at(#[trigger] (xs + ys)[k]) by {
        if k < xs.len() {
            assert((xs + ys)[k] == xs[k]);
        } else {
            assert((xs + ys)[k] == ys[k - xs.len()]);
        }
    }
}

proof fn lemma_inlines_push(xs: Seq<Inline>, x: Inline, len: nat)
    requires
        inlines_in(xs, len),
        inline_in(x, len),
    ensures
        inlines_in(xs.push(x), len),
{
    assert forall|k: int| 0 <= k < xs.len() + 1 implies inline_in(#[trigger] xs.push(x)[k], len) by {
        if k < xs.len() {
            assert(xs.push(x)[k] == xs[k]);
        }
    }
}

proof fn lemma_inlines_concat(xs: Seq<Inline>, ys: Seq<Inline>, len: nat)
    requires
        inlines_in(xs, len),
        inlines_in(ys, len),
    ensures
        inlines_in(xs + ys, len),
{
    assert forall|k: int| 0 <= k < xs.len() + ys.len() implies inline_in(#[trigger] (xs + ys)[k], len) by {
        if k < xs.len() {
            assert((xs + ys)[k] == xs[k]);
        } else {
            assert((xs + ys)[k] == ys[k - xs.len()]);
        }
    }
}

proof fn lemma_blocks_push(s: Seq<Block>, b: Block, len: nat)
    requires
        blocks_in(s, len),
        block_in(b, len),
    ensures
        blocks_in(s.push(b), len),
{
    assert forall|k: int| 0 <= k < s.len() + 1 implies block_in(#[trigger] s.push(b)[k], len) by {
        if k < s.len() {
            assert(s.push(b)[k] == s[k]);
        }
    }
}

/// A deep copy of an inline node.
pub fn clone_inline(x: &Inline) -> (r: Inline)
    ensures
        r.span == x.span,
        (x.kind is Text || x.kind is CodeSpan || x.kind is MathInline || x.kind is SoftBreak
            || x.kind is HardBreak) ==> r.kind == x.kind,
    decreases *x,
{
    let kind = match &x.kind {
        InlineKind::Text(t) => InlineKind::Text(t.clone()),
        InlineKind::Emph(c) => InlineKind::Emph(clone_inlines(c.as_slice())),
        InlineKind::Strong(c) => InlineKind::Strong(clone_inlines(c.as_slice())),
        InlineKind::Strikethrough(c) => InlineKind::Strikethrough(clone_inlines(c.as_slice())),
        InlineKind::CodeSpan(t) => InlineKind::CodeSpan(t.clone()),
        InlineKind::SoftBreak => InlineKind::SoftBreak,
        InlineKind::HardBreak => InlineKind::HardBreak,
        InlineKind::Link { url, title, children } => InlineKind::Link {
            url: url.clone(),
            title: match title {
                Some(t) => Some(t.clone()),
                None => None,
            },
            children: clone_inlines(children.as_slice()),
        },
        InlineKind::Image { url, title, alt } => InlineKind::Image {
            url: url.clone(),
            title: match title {
                Some(t) => Some(t.clone()),
                None => None,
            },
            alt: clone_inlines(alt.as_slice()),
        },
        InlineKind::LinkRef { label, children, meta } => InlineKind::LinkRef {
            label: label.clone(),
            children: clone_inlines(children.as_slice()),
            meta: *meta,
        },
        InlineKind::ImageRef { label, alt, meta } => InlineKind::ImageRef {
            label: label.clone(),
            alt: clone_inlines(alt.as_slice()),
            meta: *meta,
        },
        InlineKind::Ref { label, bracket, resolved } => InlineKind::Ref {
            label: Label { name: label.name.clone(), span: label.span },
            bracket: match bracket {
                Some(b) => Some(clone_inlines(b.as_slice())),
                None => None,
            },
            resolved: match resolved {
                Some(ResolvedRef::Block { label, display }) => Some(
                    ResolvedRef::Block {
                        label: label.clone(),
                        display: match display {
                            Some(d) => Some(clone_inlines(d.as_slice())),
                            None => None,
                        },
                    },
                ),
                Some(ResolvedRef::CodeLine { label }) => Some(
                    ResolvedRef::CodeLine { label: label.clone() },
                ),
                None => None,
            },
        },
        InlineKind::MathInline { typst_src } => InlineKind::MathInline { typst_src: typst_src.clone() },
        InlineKind::HtmlSpan { raw } => InlineKind::HtmlSpan { raw: raw.clone() },
    };
    Inline { span: x.span, kind }
}

/// A deep copy of inline nodes.
pub fn clone_inlines(xs: &[Inline]) -> (r: InlineSeq)
    ensures
        r@.len() == xs@.len(),
    decreases xs@,
{
    let mut out: InlineSeq = Vec::new();
    let mut i: usize = 0;
    while i < xs.len()
        invariant
            i <= xs@.len(),
            out@.len() == i,
        decreases xs.len() - i,
    {
        out.push(clone_inline(&xs[i]));
        i = i + 1;
    }
    out
}

/// A text node.
pub fn text_inline(span: Span, text: &[u8]) -> (r: Inline)
    ensures
        r.span == span,
        r.kind is Text,
{
    Inline { span, kind: InlineKind::Text(string_from_bytes(text)) }
}

/// Each byte as the character of the same number, in UTF-8.
pub fn bytes_as_chars(bytes: &[u8]) -> (r: Vec<u8>)
    ensures
        r@.len() >= bytes@.len(),
{
    let mut out: Vec<u8> = Vec::new();
    let mut i: usize = 0;
    while i < bytes.len()
        invariant
            i <= bytes@.len(),
            out@.len() >= i,
        decreases bytes.len() - i,
    {
        let b = bytes[i];
        if b < 128u8 {
            out.push(b);
        } else {
            out.push(0xC0u8 | (b >> 6u8));
            out.push(0x80u8 | (b & 0x3Fu8));
        }
        i = i + 1;
    }
    out
}

/// What an unresolved link reference shows: its brackets and text as they were written.
pub fn build_link_ref_fallback(meta: &LinkRefMeta, children: InlineSeq, image: bool, source: &[u8], Ghost(len): Ghost<nat>) -> (r:
    InlineSeq)
    requires
        meta_in(*meta, len),
        inlines_in(children@, len),
        len == source@.len(),
    ensures
        inlines_in(r@, len),
        r@.len() == children@.len() + 2 + (if meta.label_open_span is Some
            && meta.label_close_span is Some {
            2 + (if meta.label_span is Some { 1int } else { 0int })
        } else {
            0int
        }),
        r@[0].span == meta.opener_span,
        r@[0].kind matches InlineKind::Text(t) && t@ == (if image { "!["@ } else { "["@ }),
        r@.subrange(1, children@.len() as int + 1) == children@,
        r@[children@.len() as int + 1].span == meta.closer_span,
        r@[children@.len() as int + 1].kind matches InlineKind::Text(t) && t@ == "]"@,
        refs_resolved(children@) ==> refs_resolved(r@),
{
    let mut out: InlineSeq = Vec::new();
    let ghost ch = children@;
    assert(refs_resolved(out@));
    let opener: &str = if image { "![" } else { "[" };
    let first = Inline { span: meta.opener_span, kind: InlineKind::Text(opener.to_string()) };
    proof {
        lemma_inlines_push(out@, first, len);
        if refs_resolved(ch) {
            lemma_resolved_push(out@, first);
        }
    }
    out.push(first);
    let mut children = children;
    proof {
        lemma_inlines_concat(out@, children@, len);
        if refs_resolved(ch) {
            lemma_resolved_concat(out@, children@);
        }
    }
    out.append(&mut children);
    let close = Inline { span: meta.closer_span, kind: InlineKind::Text("]".to_string()) };
    proof {
        lemma_inlines_push(out@, close, len);
        if refs_resolved(ch) {
            lemma_resolved_push(out@, close);
        }
    }
    out.push(close);
    let ghost head = out@;
    assert(head.len() == ch.len() + 2);
    assert(head.subrange(1, ch.len() as int + 1) =~= ch);
    if let (Some(open_span), Some(close_span)) = (meta.label_open_span, meta.label_close_span) {
        let o = Inline { span: open_span, kind: InlineKind::Text("[".to_string()) };
        proof {
            lemma_inlines_push(out@, o, len);
        if refs_resolved(ch) {
            lemma_resolved_push(out@, o);
        }
        }
        out.push(o);
        if let Some(label_span) = meta.label_span {
            let raw = copy_range(source, label_span.start, label_span.end);
            let text = unescape_backslash_punct(bytes_as_chars(raw.as_slice()).as_slice());
            let l = text_inline(label_span, text.as_slice());
            proof {
                lemma_inlines_push(out@, l, len);
        if refs_resolved(ch) {
            lemma_resolved_push(out@, l);
        }
            }
            out.push(l);
        }
        let c = Inline { span: close_span, kind: InlineKind::Text("]".to_string()) };
        proof {
            lemma_inlines_push(out@, c, len);
        if refs_resolved(ch) {
            lemma_resolved_push(out@, c);
        }
        }
        out.push(c);
    }
    assert(out@.subrange(0, head.len() as int) =~= head);
    assert(out@.subrange(1, ch.len() as int + 1) =~= head.subrange(1, ch.len() as int + 1));
    out
}

/// Resolves the link references `[text][label]` of inline nodes against the definitions:
/// a defined label gives a link (or image), an undefined one its text as written.
pub fn resolve_link_refs_inlines(inlines: InlineSeq, source: &[u8], link_defs: &[(String, LinkDefinition)], Ghost(len): Ghost<nat>) -> (r:
    InlineSeq)
    requires
        inlines_in(inlines@, len),
        len == source@.len(),
    ensures
        inlines_in(r@, len),
        refs_resolved(r@),
    decreases inlines,
{
    let mut rest = inlines;
    let mut out: InlineSeq = Vec::new();
    let ghost n = inlines@.len();
    while rest.len() > 0
        invariant
            inlines_in(rest@, len),
            inlines_in(out@, len),
            refs_resolved(out@),
            len == source@.len(),
            rest@.len() <= n,
            n == inlines@.len(),
            rest@ == inlines@.subrange(n - rest@.len(), n as int),
        decreases rest@.len(),
    {
        let ghost k = n - rest@.len();
        proof {
            assert(rest@[0] == inlines@[k]);
            assert(inline_in(rest@[0], len));
        }
        let x = rest.remove(0);
        proof {
            assert(rest@ =~= inlines@.subrange(n - rest@.len(), n as int));
            assert(decreases_to!(inlines => x));
            assert forall|j: int| 0 <= j < rest@.len() implies inline_in(#[trigger] rest@[j], len) by {
                assert(rest@[j] == inlines@[k + 1 + j]);
            }
        }
        let Inline { span, kind } = x;
        match kind {
            InlineKind::LinkRef { label, children, meta } => {
                let children = resolve_link_refs_inlines(children, source, link_defs, Ghost(len));
                let key = normalize_link_label(string_bytes(&label));
                match find_link_def(link_defs, &key) {
                    Some(def) => {
                        let node = Inline {
                            span,
                            kind: InlineKind::Link {
                                url: def.url.clone(),
                                title: match &def.title {
                                    Some(t) => Some(t.clone()),
                                    None => None,
                                },
                                children,
                            },
                        };
                        proof {
                            lemma_inlines_push(out@, node, len);
                            lemma_resolved_push(out@, node);
                        }
                        out.push(node);
                    },
                    None => {
                        let mut fallback = build_link_ref_fallback(&meta, children, false, source, Ghost(len));
                        proof {
                            lemma_inlines_concat(out@, fallback@, len);
                            lemma_resolved_concat(out@, fallback@);
                        }
                        out.append(&mut fallback);
                    },
                }
            },
            InlineKind::ImageRef { label, alt, meta } => {
                let alt = resolve_link_refs_inlines(alt, source, link_defs, Ghost(len));
                let key = normalize_link_label(string_bytes(&label));
                match find_link_def(link_defs, &key) {
                    Some(def) => {
                        let node = Inline {
                            span,
                            kind: InlineKind::Image {
                                url: def.url.clone(),
                                title: match &def.title {
                                    Some(t) => Some(t.clone()),
                                    None => None,
                                },
                                alt,
                            },
                        };
                        proof {
                            lemma_inlines_push(out@, node, len);
                            lemma_resolved_push(out@, node);
                        }
                        out.push(node);
                    },
                    None => {
                        let mut fallback = build_link_ref_fallback(&meta, alt, true, source, Ghost(len));
                        proof {
                            lemma_inlines_concat(out@, fallback@, len);
                            lemma_resolved_concat(out@, fallback@);
                        }
                        out.append(&mut fallback);
                    },
                }
            },
            InlineKind::Emph(c) => {
                let node = Inline { span, kind: InlineKind::Emph(resolve_link_refs_inlines(c, source, link_defs, Ghost(len))) };
                proof {
                    lemma_inlines_push(out@, node, len);
                            lemma_resolved_push(out@, node);
                }
                out.push(node);
            },
            InlineKind::Strong(c) => {
                let node = Inline { span, kind: InlineKind::Strong(resolve_link_refs_inlines(c, source, link_defs, Ghost(len))) };
                proof {
                    lemma_inlines_push(out@, node, len);
                            lemma_resolved_push(out@, node);
                }
                out.push(node);
            },
            InlineKind::Link { url, title, children } => {
                let node = Inline {
                    span,
                    kind: InlineKind::Link {
                        url,
                        title,
                        children: resolve_link_refs_inlines(children, source, link_defs, Ghost(len)),
                    },
                };
                proof {
                    lemma_inlines_push(out@, node, len);
                            lemma_resolved_push(out@, node);
                }
                out.push(node);
            },
            InlineKind::Image { url, title, alt } => {
                let node = Inline {
                    span,
                    kind: InlineKind::Image {
                        url,
                        title,
                        alt: resolve_link_refs_inlines(alt, source, link_defs, Ghost(len)),
                    },
                };
                proof {
                    lemma_inlines_push(out@, node, len);
                            lemma_resolved_push(out@, node);
                }
                out.push(node);
            },
            InlineKind::Ref { label, bracket, resolved } => {
                let bracket = match bracket {
                    Some(b) => Some(resolve_link_refs_inlines(b, source, link_defs, Ghost(len))),
                    None => None,
                };
                let node = Inline { span, kind: InlineKind::Ref { label, bracket, resolved } };
                proof {
                    lemma_inlines_push(out@, node, len);
                            lemma_resolved_push(out@, node);
                }
                out.push(node);
            },
            other => {
                let node = Inline { span, kind: other };
                proof {
                    lemma_inlines_push(out@, node, len);
                            lemma_resolved_push(out@, node);
                }
                out.push(node);
            },
        }
    }
    out
}

/// Resolves the link references of blocks and of the blocks nested in them.
pub fn resolve_link_refs_in_blocks(blocks: Vec<Block>, source: &[u8], link_defs: &[(String, LinkDefinition)], Ghost(len): Ghost<nat>) -> (r:
    Vec<Block>)
    requires
        blocks_in(blocks@, len),
        len == source@.len(),
    ensures
        blocks_in(r@, len),
        r@.len() == blocks@.len(),
        blocks_resolved(r@),
        same_frames(r@, blocks@),
    decreases blocks,
{
    let mut rest = blocks;
    let mut out: Vec<Block> = Vec::new();
    let ghost n = blocks@.len();
    while rest.len() > 0
        invariant
            blocks_in(rest@, len),
            blocks_in(out@, len),
            blocks_resolved(out@),
            len == source@.len(),
            rest@.len() <= n,
            n == blocks@.len(),
            out@.len() + rest@.len() == n,
            rest@ == blocks@.subrange(n - rest@.len(), n as int),
            forall|j: int| 0 <= j < out@.len() ==> same_frame(#[trigger] out@[j], blocks@[j]),
        decreases rest@.len(),
    {
        let ghost k = n - rest@.len();
        proof {
            assert(rest@[0] == blocks@[k]);
            assert(block_in(rest@[0], len));
        }
        let b = rest.remove(0);
        let ghost ob = b;
        proof {
            assert(rest@ =~= blocks@.subrange(n - rest@.len(), n as int));
            assert(decreases_to!(blocks => b));
            assert forall|j: int| 0 <= j < rest@.len() implies block_in(#[trigger] rest@[j], len) by {
                assert(rest@[j] == blocks@[k + 1 + j]);
            }
        }
        let Block { span, attrs, kind } = b;
        let kind = match kind {
            BlockKind::Paragraph { content } => BlockKind::Paragraph {
                content: resolve_link_refs_inlines(content, source, link_defs, Ghost(len)),
            },
            BlockKind::Heading { level, title } => BlockKind::Heading {
                level,
                title: resolve_link_refs_inlines(title, source, link_defs, Ghost(len)),
            },
            BlockKind::Section { level, title, label, children } => BlockKind::Section {
                level,
                title: resolve_link_refs_inlines(title, source, link_defs, Ghost(len)),
                label,
                children: resolve_link_refs_in_blocks(children, source, link_defs, Ghost(len)),
            },
            BlockKind::BlockQuote { blocks: inner } => BlockKind::BlockQuote {
                blocks: resolve_link_refs_in_blocks(inner, source, link_defs, Ghost(len)),
            },
            BlockKind::List(List { ordered, start, tight, items }) => {
                let mut irest = items;
                let mut new_items: Vec<ListItem> = Vec::new();
                let ghost m = items@.len();
                while irest.len() > 0
                    invariant
                        forall|j: int| 0 <= j < irest@.len() ==> item_in(#[trigger] irest@[j], len),
                        forall|j: int| 0 <= j < new_items@.len() ==> item_in(#[trigger] new_items@[j], len),
                        items_resolved(new_items@),
                        len == source@.len(),
                        irest@.len() <= m,
                        m == items@.len(),
                        irest@ == items@.subrange(m - irest@.len(), m as int),
                        decreases_to!(blocks => items),
                    decreases irest@.len(),
                {
                    let ghost q = m - irest@.len();
                    proof {
                        assert(irest@[0] == items@[q]);
                        assert(item_in(irest@[0], len));
                    }
                    let it = irest.remove(0);
                    proof {
                        assert(irest@ =~= items@.subrange(m - irest@.len(), m as int));
                        assert(decreases_to!(items => items@));
                        assert(decreases_to!(blocks => it.blocks));
                    }
                    let ListItem { span: ispan, blocks: iblocks, task } = it;
                    let iblocks = resolve_link_refs_in_blocks(iblocks, source, link_defs, Ghost(len));
                    let ghost before_items = new_items@;
                    new_items.push(ListItem { span: ispan, blocks: iblocks, task });
                    proof {
                        assert forall|j: int| 0 <= j < new_items@.len() implies blocks_resolved(
                            (#[trigger] new_items@[j]).blocks@,
                        ) by {
                            if j < before_items.len() {
                                assert(new_items@[j] == before_items[j]);
                            }
                        }
                    }
                }
                BlockKind::List(List { ordered, start, tight, items: new_items })
            },
            BlockKind::Box(BoxBlock { title, blocks: inner }) => {
                let title = match title {
                    Some(t) => Some(resolve_link_refs_inlines(t, source, link_defs, Ghost(len))),
                    None => None,
                };
                BlockKind::Box(
                    BoxBlock { title, blocks: resolve_link_refs_in_blocks(inner, source, link_defs, Ghost(len)) },
                )
            },
            other => other,
        };
        let nb = Block { span, attrs, kind };
        proof {
            lemma_blocks_push(out@, nb, len);
            assert(ob == blocks@[k]);
            assert(same_frame(nb, ob));
        }
        let ghost before_out = out@;
        out.push(nb);
        proof {
            assert forall|j: int| 0 <= j < out@.len() implies same_frame(#[trigger] out@[j], blocks@[j]) by {
                if j < before_out.len() {
                    assert(out@[j] == before_out[j]);
                }
            }
        }
        proof {
            assert forall|j: int| 0 <= j < out@.len() implies block_resolved(#[trigger] out@[j]) by {
                if j < before_out.len() {
                    assert(out@[j] == before_out[j]);
                }
            }
        }
    }
    out
}

/// The index of the label named `name`.
pub fn find_label(labels: &[LabelInfo], name: &String) -> (r: Option<usize>)
    ensures
        r matches Some(i) ==> i < labels@.len() && labels@[i as int].name@ == name@,
        r is None ==> forall|i: int| 0 <= i < labels@.len() ==> (#[trigger] labels@[i]).name@ != name@,
        r matches Some(i) ==> first_named(labels@, name@, i as int),
{
    let mut i: usize = 0;
    while i < labels.len()
        invariant
            i <= labels@.len(),
            forall|k: int| 0 <= k < i ==> (#[trigger] labels@[k]).name@ != name@,
        decreases labels.len() - i,
    {
        if labels[i].name == *name {
            return Some(i);
        }
        i = i + 1;
    }
    None
}

/// Records a label, or reports it as a duplicate (pointing at the first definition).
pub fn insert_label(
    labels: &mut Vec<LabelInfo>,
    label: &Label,
    kind: LabelKind,
    title: Option<InlineSeq>,
    diagnostics: &mut Vec<Diagnostic>,
    source_map: &SourceMap,
)
    ensures
        appended(old(diagnostics)@, final(diagnostics)@),
        kept_labels(old(labels)@, final(labels)@),
        (exists|i: int| 0 <= i < old(labels)@.len() && (#[trigger] old(labels)@[i]).name@ == label.name@) ==> final(labels)@
            == old(labels)@ && final(diagnostics)@.len() == old(diagnostics)@.len() + 1 && ({
            let d = final(diagnostics)@.last();
            &&& d.code == E_LABEL_DUP
            &&& d.severity == DiagnosticSeverity::Error
            &&& d.range.start == source_map.spec_position(label.span.start)
            &&& d.range.end == source_map.spec_position(label.span.end)
            &&& d.related@.len() == 1
            &&& exists|i: int|
                0 <= i < old(labels)@.len() && (#[trigger] old(labels)@[i]).name@ == label.name@
                    && d.related@[0].range.start == source_map.spec_position(old(labels)@[i].span.start)
                    && d.related@[0].range.end == source_map.spec_position(old(labels)@[i].span.end)
        }),
        !(exists|i: int| 0 <= i < old(labels)@.len() && (#[trigger] old(labels)@[i]).name@ == label.name@) ==> final(labels)@.len()
            == old(labels)@.len() + 1 && final(labels)@.last().name@ == label.name@ && final(labels)@.last().span
            == label.span && final(labels)@.last().kind == kind && final(diagnostics)@ == old(diagnostics)@,
{
    match find_label(labels.as_slice(), &label.name) {
        Some(i) => {
            let mut diag = Diagnostic::new(
                source_map.range(label.span),
                DiagnosticSeverity::Error,
                E_LABEL_DUP,
                "duplicate label",
            );
            diag.related.push(RelatedDiagnostic::new(source_map.range(labels[i].span), None));
            diagnostics.push(diag);
        },
        None => {
            labels.push(LabelInfo { name: label.name.clone(), span: label.span, kind, title });
        },
    }
}

/// Builds the label table of the blocks (in document order), reporting duplicates.
pub fn collect_labels(
    blocks: &[Block],
    labels: &mut Vec<LabelInfo>,
    diagnostics: &mut Vec<Diagnostic>,
    source_map: &SourceMap,
)
    ensures
        appended(old(diagnostics)@, final(diagnostics)@),
        kept_labels(old(labels)@, final(labels)@),
        forall|j: int|
            0 <= j < blocks@.len() && (#[trigger] blocks@[j]).attrs.label is Some ==> has_label(
                final(labels)@,
                blocks@[j].attrs.label->0.name@,
            ),
    decreases blocks@,
{
    let mut i: usize = 0;
    while i < blocks.len()
        invariant
            appended(old(diagnostics)@, diagnostics@),
            i <= blocks@.len(),
            kept_labels(old(labels)@, labels@),
            forall|j: int|
                0 <= j < i && (#[trigger] blocks@[j]).attrs.label is Some ==> has_label(
                    labels@,
                    blocks@[j].attrs.label->0.name@,
                ),
        decreases blocks.len() - i,
    {
        let block = &blocks[i];
        let ghost before = labels@;
        if let Some(label) = &block.attrs.label {
            let (kind, title) = match &block.kind {
                BlockKind::Section { title, .. } => (LabelKind::Title, Some(clone_inlines(title.as_slice()))),
                BlockKind::Box(BoxBlock { title: Some(t), .. }) => (
                    LabelKind::Title,
                    Some(clone_inlines(t.as_slice())),
                ),
                _ => (LabelKind::Block, None),
            };
            insert_label(labels, label, kind, title, diagnostics, source_map);
            proof {
                if exists|q: int| 0 <= q < before.len() && (#[trigger] before[q]).name@ == label.name@ {
                } else {
                    assert(labels@[labels@.len() - 1].name@ == label.name@);
                }
                assert(has_label(labels@, label.name@));
            }
        }
        proof {
            lemma_kept_labels_trans(old(labels)@, before, labels@);
            assert forall|j: int|
                0 <= j <= i && (#[trigger] blocks@[j]).attrs.label is Some implies has_label(
                    labels@,
                    blocks@[j].attrs.label->0.name@,
                ) by {
                if j < i {
                    lemma_has_label_kept(before, labels@, blocks@[j].attrs.label->0.name@);
                }
            }
        }
        let ghost mid = labels@;
        if let BlockKind::CodeBlock(code) = &block.kind {
            let mut k: usize = 0;
            while k < code.meta.line_labels.len()
                invariant
                    appended(old(diagnostics)@, diagnostics@),
                    k <= code.meta.line_labels@.len(),
                    kept_labels(mid, labels@),
                decreases code.meta.line_labels.len() - k,
            {
                let ghost b2 = labels@;
                insert_label(
                    labels,
                    &code.meta.line_labels[k].label,
                    LabelKind::CodeLine,
                    None,
                    diagnostics,
                    source_map,
                );
                proof {
                    lemma_kept_labels_trans(mid, b2, labels@);
                }
                k = k + 1;
            }
        }
        match &block.kind {
            BlockKind::List(list) => {
                let mut k: usize = 0;
                while k < list.items.len()
                    invariant
                        appended(old(diagnostics)@, diagnostics@),
                        k <= list.items@.len(),
                        i < blocks@.len(),
                        block == &blocks@[i as int],
                        block.kind == BlockKind::List(*list),
                        kept_labels(mid, labels@),
                    decreases list.items.len() - k,
                {
                    let ghost b2 = labels@;
                    proof {
                        assert(decreases_to!(blocks@ => blocks@[i as int]));
                        assert(decreases_to!(blocks@[i as int] => blocks@[i as int].kind));
                        assert(decreases_to!(block.kind => block.kind->List_0));
                        assert(decreases_to!(*list => list.items));
                        assert(decreases_to!(list.items => list.items@));
                        assert(decreases_to!(list.items@ => list.items@[k as int]));
                        assert(decreases_to!(list.items@[k as int] => list.items@[k as int].blocks));
                        assert(decreases_to!(list.items@[k as int].blocks => list.items@[k as int].blocks@));
                    }
                    collect_labels(list.items[k].blocks.as_slice(), labels, diagnostics, source_map);
                    proof {
                        lemma_kept_labels_trans(mid, b2, labels@);
                    }
                    k = k + 1;
                }
            },
            BlockKind::BlockQuote { blocks: inner } => {
                collect_labels(inner.as_slice(), labels, diagnostics, source_map);
            },
            BlockKind::Box(bx) => {
                collect_labels(bx.blocks.as_slice(), labels, diagnostics, source_map);
            },
            BlockKind::Section { children, .. } => {
                collect_labels(children.as_slice(), labels, diagnostics, source_map);
            },
            _ => {},
        }
        proof {
            lemma_kept_labels_trans(old(labels)@, mid, labels@);
            assert forall|j: int|
                0 <= j < i + 1 && (#[trigger] blocks@[j]).attrs.label is Some implies has_label(
                    labels@,
                    blocks@[j].attrs.label->0.name@,
                ) by {
                lemma_has_label_kept(mid, labels@, blocks@[j].attrs.label->0.name@);
            }
        }
        i = i + 1;
    }
}

/// The labels of `a` stay, in their places, at the front of `b`.
pub open spec fn kept_labels(a: Seq<LabelInfo>, b: Seq<LabelInfo>) -> bool {
    a.len() <= b.len() && forall|k: int| 0 <= k < a.len() ==> b[k] == a[k]
}

/// Some label of the table has this name.
pub open spec fn has_label(ls: Seq<LabelInfo>, name: Seq<char>) -> bool {
    exists|q: int| 0 <= q < ls.len() && (#[trigger] ls[q]).name@ == name
}

proof fn lemma_kept_labels_trans(a: Seq<LabelInfo>, b: Seq<LabelInfo>, c: Seq<LabelInfo>)
    requires
        kept_labels(a, b),
        kept_labels(b, c),
    ensures
        kept_labels(a, c),
{
}

proof fn lemma_has_label_kept(a: Seq<LabelInfo>, b: Seq<LabelInfo>, name: Seq<char>)
    requires
        kept_labels(a, b),
        has_label(a, name),
    ensures
        has_label(b, name),
{
    let q = choose|q: int| 0 <= q < a.len() && (#[trigger] a[q]).name@ == name;
    assert(b[q] == a[q]);
}

/// The span of the first reference to `name` in the inline nodes, depth first, looking into
/// emphasis, strong emphasis, links, images, link and image references and the bracketed
/// text of references.
pub open spec fn self_ref_in(s: Seq<Inline>, name: Seq<char>) -> Option<Span>
    decreases s,
{
    if s.len() == 0 {
        None
    } else {
        match self_ref_at(s[0], name) {
            Some(sp) => Some(sp),
            None => self_ref_in(s.drop_first(), name),
        }
    }
}

/// The span of the first reference to `name` in an inline node or what it holds.
pub open spec fn self_ref_at(x: Inline, name: Seq<char>) -> Option<Span>
    decreases x,
{
    match x.kind {
        InlineKind::Ref { label, bracket, .. } => if label.name@ == name {
            Some(x.span)
        } else {
            match bracket {
                Some(b) => self_ref_in(b@, name),
                None => None,
            }
        },
        InlineKind::Emph(c) => self_ref_in(c@, name),
        InlineKind::Strong(c) => self_ref_in(c@, name),
        InlineKind::Link { children, .. } => self_ref_in(children@, name),
        InlineKind::LinkRef { children, .. } => self_ref_in(children@, name),
        InlineKind::Image { alt, .. } => self_ref_in(alt@, name),
        InlineKind::ImageRef { alt, .. } => self_ref_in(alt@, name),
        _ => None,
    }
}

/// The first reference to `label` in the inline nodes (looking into emphasis, links, images
/// and bracketed reference text).
pub fn find_self_ref(inlines: &[Inline], label: &String) -> (r: Option<Span>)
    ensures
        r == self_ref_in(inlines@, label@),
    decreases inlines@,
{
    let mut i: usize = 0;
    proof {
        assert(inlines@.subrange(0, inlines@.len() as int) =~= inlines@);
    }
    while i < inlines.len()
        invariant
            i <= inlines@.len(),
            self_ref_in(inlines@.subrange(i as int, inlines@.len() as int), label@) == self_ref_in(
                inlines@,
                label@,
            ),
        decreases inlines.len() - i,
    {
        proof {
            let t = inlines@.subrange(i as int, inlines@.len() as int);
            assert(t[0] == inlines@[i as int]);
            assert(t.drop_first() =~= inlines@.subrange(i + 1, inlines@.len() as int));
        }
        let x = &inlines[i];
        match &x.kind {
            InlineKind::Ref { label: ref_label, bracket, .. } => {
                let same = ref_label.name == *label;
                proof {
                    assert(same == (ref_label.name@ == label@));
                    assert(self_ref_at(inlines@[i as int], label@) == (if same {
                        Some(x.span)
                    } else {
                        match *bracket {
                            Some(b) => self_ref_in(b@, label@),
                            None => None,
                        }
                    }));
                }
                if same {
                    return Some(x.span);
                }
                if let Some(b) = bracket {
                    if let Some(span) = find_self_ref(b.as_slice(), label) {
                        return Some(span);
                    }
                }
            },
            InlineKind::Emph(c) => {
                if let Some(span) = find_self_ref(c.as_slice(), label) {
                    return Some(span);
                }
            },
            InlineKind::Strong(c) => {
                if let Some(span) = find_self_ref(c.as_slice(), label) {
                    return Some(span);
                }
            },
            InlineKind::Link { children, .. } => {
                if let Some(span) = find_self_ref(children.as_slice(), label) {
                    return Some(span);
                }
            },
            InlineKind::LinkRef { children, .. } => {
                if let Some(span) = find_self_ref(children.as_slice(), label) {
                    return Some(span);
                }
            },
            InlineKind::Image { alt, .. } => {
                if let Some(span) = find_self_ref(alt.as_slice(), label) {
                    return Some(span);
                }
            },
            InlineKind::ImageRef { alt, .. } => {
                if let Some(span) = find_self_ref(alt.as_slice(), label) {
                    return Some(span);
                }
            },
            _ => {},
        }
        i = i + 1;
    }
    proof {
        assert(inlines@.subrange(i as int, inlines@.len() as int) =~= Seq::<Inline>::empty());
    }
    None
}

/// The number of titles, among the blocks and the blocks nested in them, of a labelled section
/// or box that refer to their own label.
pub open spec fn self_titles(bs: Seq<Block>) -> nat
    decreases bs,
{
    if bs.len() == 0 {
        0
    } else {
        self_titles_at(bs[0]) + self_titles(bs.drop_first())
    }
}

/// 1 when the block's own title refers to its label.
pub open spec fn own_self_title(b: Block) -> nat {
    match b.kind {
        BlockKind::Section { title, label, .. } => if label is Some && self_ref_in(
            title@,
            label->0.name@,
        ) is Some {
            1
        } else {
            0
        },
        BlockKind::Box(bx) => if bx.title is Some && b.attrs.label is Some && self_ref_in(
            bx.title->0@,
            b.attrs.label->0.name@,
        ) is Some {
            1
        } else {
            0
        },
        _ => 0,
    }
}

pub open spec fn self_titles_at(b: Block) -> nat
    decreases b,
{
    own_self_title(b) + match b.kind {
        BlockKind::List(l) => item_self_titles(l.items@),
        BlockKind::BlockQuote { blocks } => self_titles(blocks@),
        BlockKind::Box(bx) => self_titles(bx.blocks@),
        BlockKind::Section { children, .. } => self_titles(children@),
        _ => 0,
    }
}

pub open spec fn item_self_titles(items: Seq<ListItem>) -> nat
    decreases items,
{
    if items.len() == 0 {
        0
    } else {
        self_titles(items[0].blocks@) + item_self_titles(items.drop_first())
    }
}

/// Every diagnostic after the first `n` is a self-reference error.
pub open spec fn self_title_errors(d: Seq<Diagnostic>, n: int) -> bool {
    forall|k: int| n <= k < d.len() ==> (#[trigger] d[k]).code == E_REF_SELF_TITLE
        && d[k].severity == DiagnosticSeverity::Error
}

/// Reports titles (of labelled sections and boxes) that refer to their own label.
pub fn check_self_reference_titles(blocks: &[Block], diagnostics: &mut Vec<Diagnostic>, source_map: &SourceMap)
    ensures
        appended(old(diagnostics)@, final(diagnostics)@),
        final(diagnostics)@.len() == old(diagnostics)@.len() + self_titles(blocks@),
        self_title_errors(final(diagnostics)@, old(diagnostics)@.len() as int),
    decreases blocks@,
{
    let mut i: usize = 0;
    proof {
        assert(blocks@.subrange(0, blocks@.len() as int) =~= blocks@);
    }
    while i < blocks.len()
        invariant
            appended(old(diagnostics)@, diagnostics@),
            i <= blocks@.len(),
            diagnostics@.len() + self_titles(blocks@.subrange(i as int, blocks@.len() as int))
                == old(diagnostics)@.len() + self_titles(blocks@),
            self_title_errors(diagnostics@, old(diagnostics)@.len() as int),
        decreases blocks.len() - i,
    {
        proof {
            let t = blocks@.subrange(i as int, blocks@.len() as int);
            assert(t[0] == blocks@[i as int]);
            assert(t.drop_first() =~= blocks@.subrange(i + 1, blocks@.len() as int));
        }
        let ghost d0 = diagnostics@.len();
        let block = &blocks[i];
        match &block.kind {
            BlockKind::Section { title, label: Some(l), .. } => {
                if let Some(span) = find_self_ref(title.as_slice(), &l.name) {
                    diagnostics.push(
                        Diagnostic::new(
                            source_map.range(span),
                            DiagnosticSeverity::Error,
                            E_REF_SELF_TITLE,
                            "self-reference in title",
                        ),
                    );
                }
            },
            BlockKind::Box(BoxBlock { title: Some(t), .. }) => {
                if let Some(l) = &block.attrs.label {
                    if let Some(span) = find_self_ref(t.as_slice(), &l.name) {
                        diagnostics.push(
                            Diagnostic::new(
                                source_map.range(span),
                                DiagnosticSeverity::Error,
                                E_REF_SELF_TITLE,
                                "self-reference in title",
                            ),
                        );
                    }
                }
            },
            _ => {},
        }
        assert(diagnostics@.len() == d0 + own_self_title(blocks@[i as int]));
        let ghost d1 = diagnostics@.len();
        match &block.kind {
            BlockKind::List(list) => {
                let mut k: usize = 0;
                proof {
                    assert(list.items@.subrange(0, list.items@.len() as int) =~= list.items@);
                }
                while k < list.items.len()
                    invariant
                        appended(old(diagnostics)@, diagnostics@),
                        k <= list.items@.len(),
                        i < blocks@.len(),
                        block == &blocks@[i as int],
                        block.kind == BlockKind::List(*list),
                        diagnostics@.len() + item_self_titles(list.items@.subrange(k as int, list.items@.len() as int))
                            == d1 + item_self_titles(list.items@),
                        self_title_errors(diagnostics@, old(diagnostics)@.len() as int),
                    decreases list.items.len() - k,
                {
                    proof {
                        let t = list.items@.subrange(k as int, list.items@.len() as int);
                        assert(t[0] == list.items@[k as int]);
                        assert(t.drop_first() =~= list.items@.subrange(k + 1, list.items@.len() as int));
                    }
                    proof {
                        assert(decreases_to!(blocks@ => blocks@[i as int]));
                        assert(decreases_to!(blocks@[i as int] => blocks@[i as int].kind));
                        assert(decreases_to!(block.kind => block.kind->List_0));
                        assert(decreases_to!(*list => list.items));
                        assert(decreases_to!(list.items => list.items@));
                        assert(decreases_to!(list.items@ => list.items@[k as int]));
                        assert(decreases_to!(list.items@[k as int] => list.items@[k as int].blocks));
                        assert(decreases_to!(list.items@[k as int].blocks => list.items@[k as int].blocks@));
                    }
                    check_self_reference_titles(list.items[k].blocks.as_slice(), diagnostics, source_map);
                    k = k + 1;
                }
            },
            BlockKind::BlockQuote { blocks: inner } => {
                check_self_reference_titles(inner.as_slice(), diagnostics, source_map);
            },
            BlockKind::Box(bx) => {
                check_self_reference_titles(bx.blocks.as_slice(), diagnostics, source_map);
            },
            BlockKind::Section { children, .. } => {
                check_self_reference_titles(children.as_slice(), diagnostics, source_map);
            },
            _ => {},
        }
        proof {
            if let BlockKind::List(l) = blocks@[i as int].kind {
                assert(l.items@.subrange(l.items@.len() as int, l.items@.len() as int) =~= Seq::<ListItem>::empty());
            }
            assert(diagnostics@.len() == d0 + self_titles_at(blocks@[i as int]));
            let t = blocks@.subrange(i as int, blocks@.len() as int);
            assert(self_titles(t) == self_titles_at(t[0]) + self_titles(t.drop_first()));
        }
        i = i + 1;
    }
    proof {
        assert(blocks@.subrange(i as int, blocks@.len() as int) =~= Seq::<Block>::empty());
    }
}

/// Whether `name` is in the set.
fn contains_name(set: &Vec<String>, name: &String) -> (r: bool)
    ensures
        r == exists|i: int| 0 <= i < set@.len() && (#[trigger] set@[i])@ == name@,
{
    let mut i: usize = 0;
    while i < set.len()
        invariant
            i <= set@.len(),
            forall|k: int| 0 <= k < i ==> (#[trigger] set@[k])@ != name@,
        decreases set.len() - i,
    {
        if set[i] == *name {
            return true;
        }
        i = i + 1;
    }
    false
}

/// Removes `name` from the set.
fn remove_name(set: &mut Vec<String>, name: &String)
    ensures
        (exists|i: int|
            0 <= i < old(set)@.len() && (#[trigger] old(set)@[i])@ == name@ && (forall|j: int|
                0 <= j < i ==> old(set)@[j]@ != name@) && final(set)@ == old(set)@.remove(i)) || (
        (forall|i: int| 0 <= i < old(set)@.len() ==> (#[trigger] old(set)@[i])@ != name@)
            && final(set)@ == old(set)@),
{
    let mut i: usize = 0;
    while i < set.len()
        invariant
            i <= set@.len(),
            set@ == old(set)@,
            forall|j: int| 0 <= j < i ==> (#[trigger] set@[j])@ != name@,
        decreases set.len() - i,
    {
        if set[i] == *name {
            set.remove(i);
            return;
        }
        i = i + 1;
    }
}

/// The text pieces that a reader sees of inline nodes, in order: each text, code span and
/// inline math (tagged by its kind), each line break, and raw HTML shown as text; emphasis,
/// links, images and bracketed references give the pieces of what they hold. A reference
/// without bracketed text gives none here: its text comes from another target.
pub open spec fn text_leaves(xs: Seq<Inline>) -> Seq<(u8, Seq<char>)>
    decreases xs,
{
    if xs.len() == 0 {
        Seq::empty()
    } else {
        text_leaves(xs.drop_last()) + inline_leaves(xs.last())
    }
}

pub open spec fn inline_leaves(x: Inline) -> Seq<(u8, Seq<char>)>
    decreases x,
{
    match x.kind {
        InlineKind::Text(t) => seq![(0u8, t@)],
        InlineKind::CodeSpan(t) => seq![(1u8, t@)],
        InlineKind::MathInline { typst_src } => seq![(2u8, typst_src@)],
        InlineKind::SoftBreak => seq![(3u8, Seq::<char>::empty())],
        InlineKind::HardBreak => seq![(4u8, Seq::<char>::empty())],
        InlineKind::HtmlSpan { raw } => seq![(0u8, raw@)],
        InlineKind::Emph(c) => text_leaves(c@),
        InlineKind::Strong(c) => text_leaves(c@),
        InlineKind::Strikethrough(c) => text_leaves(c@),
        InlineKind::Link { children, .. } => text_leaves(children@),
        InlineKind::LinkRef { children, .. } => text_leaves(children@),
        InlineKind::Image { alt, .. } => text_leaves(alt@),
        InlineKind::ImageRef { alt, .. } => text_leaves(alt@),
        InlineKind::Ref { bracket, .. } => match bracket {
            Some(b) => text_leaves(b@),
            None => Seq::empty(),
        },
    }
}

/// No reference without bracketed text stands in the nodes, at any depth.
pub open spec fn no_bare_refs(xs: Seq<Inline>) -> bool
    decreases xs,
{
    forall|i: int| 0 <= i < xs.len() ==> no_bare_ref_at(#[trigger] xs[i])
}

pub open spec fn no_bare_ref_at(x: Inline) -> bool
    decreases x,
{
    match x.kind {
        InlineKind::Emph(c) => no_bare_refs(c@),
        InlineKind::Strong(c) => no_bare_refs(c@),
        InlineKind::Strikethrough(c) => no_bare_refs(c@),
        InlineKind::Link { children, .. } => no_bare_refs(children@),
        InlineKind::LinkRef { children, .. } => no_bare_refs(children@),
        InlineKind::Image { alt, .. } => no_bare_refs(alt@),
        InlineKind::ImageRef { alt, .. } => no_bare_refs(alt@),
        InlineKind::Ref { bracket, .. } => match bracket {
            Some(b) => no_bare_refs(b@),
            None => false,
        },
        _ => true,
    }
}

/// The pieces of joined nodes are the pieces of each part, joined.
pub proof fn lemma_text_leaves_add(a: Seq<Inline>, b: Seq<Inline>)
    ensures
        text_leaves(a + b) == text_leaves(a) + text_leaves(b),
    decreases b.len(),
{
    if b.len() == 0 {
        assert(a + b =~= a);
    } else {
        lemma_text_leaves_add(a, b.drop_last());
        assert((a + b).drop_last() =~= a + b.drop_last());
        assert((a + b).last() == b.last());
    }
}

/// The pieces of the first `i + 1` nodes: those of the first `i`, then those of node `i`.
pub proof fn lemma_text_leaves_step(xs: Seq<Inline>, i: int)
    requires
        0 <= i < xs.len(),
    ensures
        text_leaves(xs.subrange(0, i + 1)) == text_leaves(xs.subrange(0, i)) + inline_leaves(xs[i]),
{
    assert(xs.subrange(0, i + 1).drop_last() =~= xs.subrange(0, i));
}

/// `q` is the first entry of the table with the name.
pub open spec fn first_named(labels: Seq<LabelInfo>, name: Seq<char>, q: int) -> bool {
    &&& 0 <= q < labels.len()
    &&& labels[q].name@ == name
    &&& forall|p: int| 0 <= p < q ==> (#[trigger] labels[p]).name@ != name
}

/// The display text of a reference to a titled target: its title, with references in it
/// replaced by their own display text. Gives whether the nesting went deeper than 100 levels
/// or looped.
pub fn build_reference_text(label: &String, labels: &[LabelInfo], fallback_span: Span) -> (r: (InlineSeq, bool))
    ensures
        !has_label(labels@, label@) ==> !r.1 && r.0@.len() == 1 && r.0@[0].kind is Text
            && r.0@[0].span == fallback_span,
        forall|q: int|
            #[trigger] first_named(labels@, label@, q) ==> (labels@[q].title matches Some(t) ==> (no_bare_refs(
                t@,
            ) ==> text_leaves(r.0@) == text_leaves(t@))),
{
    let mut visited: Vec<String> = Vec::new();
    build_reference_text_inner(label, labels, 0, &mut visited, fallback_span)
}

fn build_reference_text_inner(
    label: &String,
    labels: &[LabelInfo],
    depth: usize,
    visited: &mut Vec<String>,
    fallback_span: Span,
) -> (r: (InlineSeq, bool))
    requires
        depth <= 102,
    ensures
        final(visited)@ == old(visited)@,
        depth > 100 ==> r.1 && r.0@.len() == 1 && r.0@[0].kind is Text,
        depth <= 100 && (exists|i: int| 0 <= i < old(visited)@.len() && (#[trigger] old(visited)@[i])@
            == label@) ==> r.1 && r.0@.len() == 1 && r.0@[0].kind is Text,
        depth <= 100 && !(exists|i: int| 0 <= i < old(visited)@.len() && (#[trigger] old(visited)@[i])@
            == label@) && !has_label(labels@, label@) ==> !r.1 && r.0@.len() == 1 && r.0@[0].kind is Text
            && r.0@[0].span == fallback_span,
        depth <= 100 && !(exists|i: int| 0 <= i < old(visited)@.len() && (#[trigger] old(visited)@[i])@
            == label@) ==> forall|q: int|
            #[trigger] first_named(labels@, label@, q) ==> (labels@[q].title matches Some(t) ==> (no_bare_refs(
                t@,
            ) ==> text_leaves(r.0@) == text_leaves(t@))),
    decreases 102 - depth, Seq::<Inline>::empty(),
{
    let found = find_label(labels, label);
    let span = match found {
        Some(i) => labels[i].span,
        None => fallback_span,
    };
    let mut single: InlineSeq = Vec::new();
    single.push(text_inline(span, string_bytes(label)));
    if depth > 100 {
        return (single, true);
    }
    if contains_name(visited, label) {
        return (single, true);
    }
    let ghost v0 = visited@;
    let copy = label.clone();
    assert(copy@ == label@);
    visited.push(copy);
    proof {
        assert(visited@[v0.len() as int]@ == label@);
        assert(visited@.remove(v0.len() as int) =~= v0);
        assert forall|j: int| 0 <= j < v0.len() implies visited@[j]@ != label@ by {
            assert(visited@[j] == v0[j]);
        }
    }
    let title = match found {
        Some(i) => match &labels[i].title {
            Some(t) => t,
            None => {
                remove_name(visited, label);
                return (single, false);
            },
        },
        None => {
            proof {
                assert(!has_label(labels@, label@));
            }
            remove_name(visited, label);
            return (single, false);
        },
    };
    let (result, exceeded) = build_reference_text_from_inlines(title.as_slice(), labels, depth + 1, visited);
    remove_name(visited, label);
    (result, exceeded)
}

fn build_reference_text_from_inlines(
    inlines: &[Inline],
    labels: &[LabelInfo],
    depth: usize,
    visited: &mut Vec<String>,
) -> (r: (InlineSeq, bool))
    requires
        depth <= 101,
    ensures
        final(visited)@ == old(visited)@,
        no_bare_refs(inlines@) ==> text_leaves(r.0@) == text_leaves(inlines@),
    decreases 102 - depth, inlines@,
{
    let mut out: InlineSeq = Vec::new();
    let mut exceeded = false;
    let mut i: usize = 0;
    while i < inlines.len()
        invariant
            i <= inlines@.len(),
            depth <= 101,
            visited@ == old(visited)@,
            no_bare_refs(inlines@) ==> text_leaves(out@) == text_leaves(inlines@.subrange(0, i as int)),
        decreases inlines.len() - i,
    {
        let x = &inlines[i];
        let ghost before = out@;
        let ghost nb = no_bare_refs(inlines@);
        proof {
            if nb {
                assert(no_bare_ref_at(inlines@[i as int]));
            }
        }
        match &x.kind {
            InlineKind::Text(_) | InlineKind::CodeSpan(_) | InlineKind::MathInline { .. }
            | InlineKind::SoftBreak | InlineKind::HardBreak => {
                out.push(clone_inline(x));
            },
            InlineKind::Emph(c) => {
                let (inner, e) = build_reference_text_from_inlines(c.as_slice(), labels, depth, visited);
                exceeded = exceeded || e;
                out.push(Inline { span: x.span, kind: InlineKind::Emph(inner) });
                proof {
                    assert(out@.drop_last() =~= before);
                    assert(text_leaves(out@) == text_leaves(before) + inline_leaves(out@.last()));
                    assert(nb ==> inline_leaves(out@.last()) == inline_leaves(inlines@[i as int]));
                }
            },
            InlineKind::Strikethrough(c) => {
                let (inner, e) = build_reference_text_from_inlines(c.as_slice(), labels, depth, visited);
                exceeded = exceeded || e;
                out.push(Inline { span: x.span, kind: InlineKind::Strikethrough(inner) });
                proof {
                    assert(out@.drop_last() =~= before);
                    assert(text_leaves(out@) == text_leaves(before) + inline_leaves(out@.last()));
                    assert(nb ==> inline_leaves(out@.last()) == inline_leaves(inlines@[i as int]));
                }
            },
            InlineKind::Strong(c) => {
                let (inner, e) = build_reference_text_from_inlines(c.as_slice(), labels, depth, visited);
                exceeded = exceeded || e;
                out.push(Inline { span: x.span, kind: InlineKind::Strong(inner) });
                proof {
                    assert(out@.drop_last() =~= before);
                    assert(text_leaves(out@) == text_leaves(before) + inline_leaves(out@.last()));
                    assert(nb ==> inline_leaves(out@.last()) == inline_leaves(inlines@[i as int]));
                }
            },
            InlineKind::Link { url, title, children } => {
                // The link stays, to be shown as text marked as a former link.
                let (inner, e) = build_reference_text_from_inlines(
                    children.as_slice(),
                    labels,
                    depth,
                    visited,
                );
                exceeded = exceeded || e;
                out.push(Inline { span: x.span, kind: InlineKind::Link { url: url.clone(), title: title.clone(), children: inner } });
                proof {
                    assert(out@.drop_last() =~= before);
                    assert(text_leaves(out@) == text_leaves(before) + inline_leaves(out@.last()));
                    assert(nb ==> inline_leaves(out@.last()) == inline_leaves(inlines@[i as int]));
                }
            },
            InlineKind::LinkRef { children, .. } => {
                let (mut inner, e) = build_reference_text_from_inlines(
                    children.as_slice(),
                    labels,
                    depth,
                    visited,
                );
                exceeded = exceeded || e;
                let ghost ib = inner@;
                out.append(&mut inner);
                proof {
                    lemma_text_leaves_add(before, ib);
                    assert(nb ==> text_leaves(ib) == inline_leaves(inlines@[i as int]));
                }
            },
            InlineKind::Image { alt, .. } => {
                let (mut inner, e) = build_reference_text_from_inlines(alt.as_slice(), labels, depth, visited);
                exceeded = exceeded || e;
                let ghost ib = inner@;
                out.append(&mut inner);
                proof {
                    lemma_text_leaves_add(before, ib);
                    assert(nb ==> text_leaves(ib) == inline_leaves(inlines@[i as int]));
                }
            },
            InlineKind::ImageRef { alt, .. } => {
                let (mut inner, e) = build_reference_text_from_inlines(alt.as_slice(), labels, depth, visited);
                exceeded = exceeded || e;
                let ghost ib = inner@;
                out.append(&mut inner);
                proof {
                    lemma_text_leaves_add(before, ib);
                    assert(nb ==> text_leaves(ib) == inline_leaves(inlines@[i as int]));
                }
            },
            InlineKind::Ref { label, bracket, .. } => {
                match bracket {
                    Some(b) => {
                        let (mut inner, e) = build_reference_text_from_inlines(
                            b.as_slice(),
                            labels,
                            depth,
                            visited,
                        );
                        exceeded = exceeded || e;
                        let ghost ib = inner@;
                        out.append(&mut inner);
                        proof {
                            lemma_text_leaves_add(before, ib);
                            assert(nb ==> text_leaves(ib) == inline_leaves(inlines@[i as int]));
                        }
                    },
                    None => {
                        let (mut inner, e) = build_reference_text_inner(
                            &label.name,
                            labels,
                            depth + 1,
                            visited,
                            x.span,
                        );
                        exceeded = exceeded || e;
                        let ghost ib = inner@;
                        out.append(&mut inner);
                        proof {
                            lemma_text_leaves_add(before, ib);
                            assert(nb ==> text_leaves(ib) == inline_leaves(inlines@[i as int]));
                        }
                    },
                }
            },
            InlineKind::HtmlSpan { raw } => {
                out.push(Inline { span: x.span, kind: InlineKind::Text(raw.clone()) });
                proof {
                    assert(out@.drop_last() =~= before);
                    assert(text_leaves(out@) == text_leaves(before) + inline_leaves(out@.last()));
                    assert(nb ==> inline_leaves(out@.last()) == inline_leaves(inlines@[i as int]));
                }
            },
        }
        proof {
            if x.kind is Text || x.kind is CodeSpan || x.kind is MathInline || x.kind is SoftBreak
                || x.kind is HardBreak {
                assert(out@.drop_last() =~= before);
                assert(text_leaves(out@) == text_leaves(before) + inline_leaves(out@.last()));
                assert(inline_leaves(out@.last()) == inline_leaves(inlines@[i as int]));
            }
            if nb {
                lemma_text_leaves_step(inlines@, i as int);
                assert(text_leaves(out@) == text_leaves(before) + inline_leaves(inlines@[i as int]));
            }
        }
        i = i + 1;
    }
    proof {
        assert(inlines@.subrange(0, inlines@.len() as int) =~= inlines@);
    }
    (out, exceeded)
}

/// Display text `d` for a reference to `name` shows the title of the first target with that
/// name, piece by piece, when that title holds no reference without bracketed text.
pub open spec fn shows_title(d: Seq<Inline>, labels: Seq<LabelInfo>, name: Seq<char>) -> bool {
    forall|q: int|
        #[trigger] first_named(labels, name, q) ==> (labels[q].title matches Some(t) ==> (no_bare_refs(t@)
            ==> text_leaves(d) == text_leaves(t@)))
}

/// `out` is what resolving gives for the node `inp`, when that is a reference: the same label
/// and text; when the table has the label, resolved to it (a code line, or a block with its
/// display text only for a title without bracketed text, that text showing the title as
/// `shows_title` says); else resolved as it was.
pub open spec fn ref_resolved(out: Inline, inp: Inline, labels: Seq<LabelInfo>) -> bool {
    match inp.kind {
        InlineKind::Ref { label, bracket, resolved } => out.span == inp.span && match out.kind {
            InlineKind::Ref { label: l2, bracket: b2, resolved: r2 } => l2 == label && b2 == bracket && (if has_label(
                labels,
                label.name@,
            ) {
                exists|q: int|
                    0 <= q < labels.len() && (#[trigger] labels[q]).name@ == label.name@ && match r2 {
                        Some(ResolvedRef::CodeLine { label: n }) => labels[q].kind == LabelKind::CodeLine && n@
                            == label.name@,
                        Some(ResolvedRef::Block { label: n, display }) => labels[q].kind != LabelKind::CodeLine
                            && n@ == label.name@ && (display is Some <==> (bracket is None && labels[q].kind
                            == LabelKind::Title)) && (display matches Some(d) ==> shows_title(d@, labels, label.name@)),
                        None => false,
                    }
            } else {
                r2 == resolved
            }),
            _ => false,
        },
        _ => true,
    }
}

/// Resolves the references `@label` of inline nodes against the label table, reporting
/// missing targets, omitted text for targets without a title and too deep display text.
pub fn resolve_inlines(
    inlines: InlineSeq,
    labels: &[LabelInfo],
    diagnostics: &mut Vec<Diagnostic>,
    source_map: &SourceMap,
    Ghost(len): Ghost<nat>,
) -> (r: InlineSeq)
    requires
        inlines_in(inlines@, len),
    ensures
        appended(old(diagnostics)@, final(diagnostics)@),
        inlines_in(r@, len),
        r@.len() == inlines@.len(),
        refs_bound(r@, labels@),
        forall|k: int| 0 <= k < r@.len() ==> ref_resolved(#[trigger] r@[k], inlines@[k], labels@),
    decreases inlines,
{
    let mut rest = inlines;
    let mut out: InlineSeq = Vec::new();
    let ghost n = inlines@.len();
    while rest.len() > 0
        invariant
            appended(old(diagnostics)@, diagnostics@),
            inlines_in(rest@, len),
            inlines_in(out@, len),
            refs_bound(out@, labels@),
            out@.len() + rest@.len() == n,
            rest@.len() <= n,
            n == inlines@.len(),
            rest@ == inlines@.subrange(n - rest@.len(), n as int),
            forall|j: int| 0 <= j < out@.len() ==> ref_resolved(#[trigger] out@[j], inlines@[j], labels@),
        decreases rest@.len(),
    {
        let ghost k = n - rest@.len();
        proof {
            assert(rest@[0] == inlines@[k]);
            assert(inline_in(rest@[0], len));
        }
        let x = rest.remove(0);
        let ghost ox = x;
        proof {
            assert(rest@ =~= inlines@.subrange(n - rest@.len(), n as int));
            assert(decreases_to!(inlines => x));
            assert forall|j: int| 0 <= j < rest@.len() implies inline_in(#[trigger] rest@[j], len) by {
                assert(rest@[j] == inlines@[k + 1 + j]);
            }
        }
        let Inline { span, kind } = x;
        let kind = match kind {
            InlineKind::Ref { label, bracket, resolved } => {
                match find_label(labels, &label.name) {
                    None => {
                        proof {
                            assert(!has_label(labels@, label.name@));
                        }
                        diagnostics.push(
                            Diagnostic::new(
                                source_map.range(span),
                                DiagnosticSeverity::Warning,
                                W_REF_MISSING,
                                "reference target not found",
                            ),
                        );
                        InlineKind::Ref { label, bracket, resolved }
                    },
                    Some(idx) => {
                        let info_kind = labels[idx].kind;
                        if bracket.is_none() && info_kind != LabelKind::Title {
                            diagnostics.push(
                                Diagnostic::new(
                                    source_map.range(span),
                                    DiagnosticSeverity::Error,
                                    E_REF_OMIT,
                                    "missing reference text for non-title target",
                                ),
                            );
                        }
                        let mut display: Option<InlineSeq> = None;
                        if bracket.is_none() && info_kind == LabelKind::Title {
                            let (text, exceeded) = build_reference_text(&label.name, labels, labels[idx].span);
                            display = Some(text);
                            if exceeded {
                                diagnostics.push(
                                    Diagnostic::new(
                                        source_map.range(span),
                                        DiagnosticSeverity::Error,
                                        E_REF_DEPTH,
                                        "reference display text depth exceeded",
                                    ),
                                );
                            }
                        }
                        let new_resolved = if info_kind == LabelKind::CodeLine {
                            ResolvedRef::CodeLine { label: label.name.clone() }
                        } else {
                            ResolvedRef::Block { label: label.name.clone(), display }
                        };
                        InlineKind::Ref { label, bracket, resolved: Some(new_resolved) }
                    },
                }
            },
            InlineKind::Emph(c) => InlineKind::Emph(resolve_inlines(c, labels, diagnostics, source_map, Ghost(len))),
            InlineKind::Strong(c) => InlineKind::Strong(resolve_inlines(c, labels, diagnostics, source_map, Ghost(len))),
            InlineKind::Strikethrough(c) => InlineKind::Strikethrough(
                resolve_inlines(c, labels, diagnostics, source_map, Ghost(len)),
            ),
            InlineKind::Link { url, title, children } => InlineKind::Link {
                url,
                title,
                children: resolve_inlines(children, labels, diagnostics, source_map, Ghost(len)),
            },
            InlineKind::LinkRef { label, children, meta } => InlineKind::LinkRef {
                label,
                children: resolve_inlines(children, labels, diagnostics, source_map, Ghost(len)),
                meta,
            },
            InlineKind::Image { url, title, alt } => InlineKind::Image {
                url,
                title,
                alt: resolve_inlines(alt, labels, diagnostics, source_map, Ghost(len)),
            },
            InlineKind::ImageRef { label, alt, meta } => InlineKind::ImageRef {
                label,
                alt: resolve_inlines(alt, labels, diagnostics, source_map, Ghost(len)),
                meta,
            },
            other => other,
        };
        let node = Inline { span, kind };
        proof {
            lemma_inlines_push(out@, node, len);
            assert(ox == inlines@[k]);
            assert(ref_resolved(node, ox, labels@));
        }
        let ghost before_out = out@;
        out.push(node);
        proof {
            assert forall|j: int| 0 <= j < out@.len() implies refs_bound_at(#[trigger] out@[j], labels@) by {
                if j < before_out.len() {
                    assert(out@[j] == before_out[j]);
                }
            }
            assert forall|j: int| 0 <= j < out@.len() implies ref_resolved(#[trigger] out@[j], inlines@[j], labels@) by {
                if j < before_out.len() {
                    assert(out@[j] == before_out[j]);
                }
            }
        }
    }
    out
}

/// Resolves the references of blocks and of the blocks nested in them.
pub fn resolve_refs(
    blocks: Vec<Block>,
    labels: &[LabelInfo],
    diagnostics: &mut Vec<Diagnostic>,
    source_map: &SourceMap,
    Ghost(len): Ghost<nat>,
) -> (r: Vec<Block>)
    requires
        blocks_in(blocks@, len),
    ensures
        appended(old(diagnostics)@, final(diagnostics)@),
        blocks_in(r@, len),
        r@.len() == blocks@.len(),
        blocks_bound(r@, labels@),
        same_frames(r@, blocks@),
        forall|j: int| 0 <= j < r@.len() ==> (#[trigger] r@[j]).attrs == blocks@[j].attrs,
    decreases blocks,
{
    let mut rest = blocks;
    let mut out: Vec<Block> = Vec::new();
    let ghost n = blocks@.len();
    while rest.len() > 0
        invariant
            appended(old(diagnostics)@, diagnostics@),
            blocks_in(rest@, len),
            blocks_in(out@, len),
            blocks_bound(out@, labels@),
            out@.len() + rest@.len() == n,
            rest@.len() <= n,
            n == blocks@.len(),
            rest@ == blocks@.subrange(n - rest@.len(), n as int),
            forall|j: int| 0 <= j < out@.len() ==> same_frame(#[trigger] out@[j], blocks@[j]),
            forall|j: int| 0 <= j < out@.len() ==> (#[trigger] out@[j]).attrs == blocks@[j].attrs,
        decreases rest@.len(),
    {
        let ghost k = n - rest@.len();
        proof {
            assert(rest@[0] == blocks@[k]);
            assert(block_in(rest@[0], len));
        }
        let b = rest.remove(0);
        let ghost ob = b;
        proof {
            assert(rest@ =~= blocks@.subrange(n - rest@.len(), n as int));
            assert(decreases_to!(blocks => b));
            assert forall|j: int| 0 <= j < rest@.len() implies block_in(#[trigger] rest@[j], len) by {
                assert(rest@[j] == blocks@[k + 1 + j]);
            }
        }
        let Block { span, attrs, kind } = b;
        let kind = match kind {
            BlockKind::Paragraph { content } => BlockKind::Paragraph {
                content: resolve_inlines(content, labels, diagnostics, source_map, Ghost(len)),
            },
            BlockKind::Heading { level, title } => BlockKind::Heading {
                level,
                title: resolve_inlines(title, labels, diagnostics, source_map, Ghost(len)),
            },
            BlockKind::Section { level, title, label, children } => BlockKind::Section {
                level,
                title: resolve_inlines(title, labels, diagnostics, source_map, Ghost(len)),
                label,
                children: resolve_refs(children, labels, diagnostics, source_map, Ghost(len)),
            },
            BlockKind::BlockQuote { blocks: inner } => BlockKind::BlockQuote {
                blocks: resolve_refs(inner, labels, diagnostics, source_map, Ghost(len)),
            },
            BlockKind::List(List { ordered, start, tight, items }) => {
                let mut irest = items;
                let mut new_items: Vec<ListItem> = Vec::new();
                let ghost m = items@.len();
                while irest.len() > 0
                    invariant
                        appended(old(diagnostics)@, diagnostics@),
                        forall|j: int| 0 <= j < irest@.len() ==> item_in(#[trigger] irest@[j], len),
                        forall|j: int| 0 <= j < new_items@.len() ==> item_in(#[trigger] new_items@[j], len),
                        items_bound(new_items@, labels@),
                        irest@.len() <= m,
                        m == items@.len(),
                        irest@ == items@.subrange(m - irest@.len(), m as int),
                        decreases_to!(blocks => items),
                    decreases irest@.len(),
                {
                    let ghost q = m - irest@.len();
                    proof {
                        assert(irest@[0] == items@[q]);
                        assert(item_in(irest@[0], len));
                    }
                    let it = irest.remove(0);
                    proof {
                        assert(irest@ =~= items@.subrange(m - irest@.len(), m as int));
                        assert(decreases_to!(items => items@));
                        assert(decreases_to!(blocks => it.blocks));
                    }
                    let ListItem { span: ispan, blocks: iblocks, task } = it;
                    let iblocks = resolve_refs(iblocks, labels, diagnostics, source_map, Ghost(len));
                    let ghost before_items = new_items@;
                    new_items.push(ListItem { span: ispan, blocks: iblocks, task });
                    proof {
                        assert forall|j: int| 0 <= j < new_items@.len() implies blocks_bound(
                            (#[trigger] new_items@[j]).blocks@,
                            labels@,
                        ) by {
                            if j < before_items.len() {
                                assert(new_items@[j] == before_items[j]);
                            }
                        }
                    }
                }
                BlockKind::List(List { ordered, start, tight, items: new_items })
            },
            BlockKind::Box(BoxBlock { title, blocks: inner }) => {
                let title = match title {
                    Some(t) => Some(resolve_inlines(t, labels, diagnostics, source_map, Ghost(len))),
                    None => None,
                };
                BlockKind::Box(
                    BoxBlock { title, blocks: resolve_refs(inner, labels, diagnostics, source_map, Ghost(len)) },
                )
            },
            other => other,
        };
        let nb = Block { span, attrs, kind };
        proof {
            lemma_blocks_push(out@, nb, len);
            assert(ob == blocks@[k]);
            assert(same_frame(nb, ob));
        }
        let ghost before_out = out@;
        out.push(nb);
        proof {
            assert forall|j: int| 0 <= j < out@.len() implies same_frame(#[trigger] out@[j], blocks@[j]) by {
                if j < before_out.len() {
                    assert(out@[j] == before_out[j]);
                }
            }
            assert forall|j: int| 0 <= j < out@.len() implies (#[trigger] out@[j]).attrs == blocks@[j].attrs by {
                if j < before_out.len() {
                    assert(out@[j] == before_out[j]);
                }
            }
        }
        proof {
            assert forall|j: int| 0 <= j < out@.len() implies block_bound(#[trigger] out@[j], labels@) by {
                if j < before_out.len() {
                    assert(out@[j] == before_out[j]);
                }
            }
        }
    }
    out
}

/// Every block of `bs` that carries a label names an entry of `table`.
pub open spec fn labels_listed(bs: Seq<Block>, table: Seq<LabelInfo>) -> bool {
    forall|j: int|
        0 <= j < bs.len() && (#[trigger] bs[j]).attrs.label is Some ==> has_label(table, bs[j].attrs.label->0.name@)
}

/// Resolves a parsed document: link references against the definitions, then sections, then
/// the label table (duplicates and self-references in titles reported) and the references.
/// The diagnostics given come first in the result; every span still lies in the source.
pub fn resolve(
    document: Document,
    source: &str,
    source_map: &SourceMap,
    diagnostics: Vec<Diagnostic>,
    link_defs: &[(String, LinkDefinition)],
) -> (r: ResolveResult)
    requires
        document_in(document, source.spec_bytes().len()),
    ensures
        document_in(r.document, source.spec_bytes().len()),
        r.document.span == document.span,
        r.document.settings == document.settings,
        r.diagnostics@.len() >= diagnostics@.len(),
        forall|k: int| 0 <= k < diagnostics@.len() ==> r.diagnostics@[k] == diagnostics@[k],
        no_sections(document.blocks@) ==> outline(r.document.blocks@) == outline(document.blocks@),
        no_sections(document.blocks@) ==> grouped(r.document.blocks@),
        no_sections(document.blocks@) ==> sections_closed(r.document.blocks@),
        exists|table: Seq<LabelInfo>|
            #[trigger] labels_listed(r.document.blocks@, table) && blocks_bound(r.document.blocks@, table),
{
    let ghost len = source.spec_bytes().len();
    let Document { span, settings, blocks } = document;
    let mut diagnostics = diagnostics;
    let ghost given = diagnostics@;
    let ghost given_blocks = blocks@;
    let blocks = resolve_link_refs_in_blocks(blocks, source.as_bytes(), link_defs, Ghost(len));
    proof {
        lemma_frames_outline(blocks@, given_blocks);
        lemma_frames_closed(blocks@, given_blocks);
    }
    let blocks = build_sections(blocks);
    let ghost sectioned = blocks@;
    let mut labels: Vec<LabelInfo> = Vec::new();
    collect_labels(blocks.as_slice(), &mut labels, &mut diagnostics, source_map);
    check_self_reference_titles(blocks.as_slice(), &mut diagnostics, source_map);
    let ghost table = labels@;
    let blocks = resolve_refs(blocks, labels.as_slice(), &mut diagnostics, source_map, Ghost(len));
    proof {
        lemma_frames_outline(blocks@, sectioned);
        lemma_frames_closed(blocks@, sectioned);
        assert forall|j: int|
            0 <= j < blocks@.len() && (#[trigger] blocks@[j]).attrs.label is Some implies has_label(
                table,
                blocks@[j].attrs.label->0.name@,
            ) by {
            assert(blocks@[j].attrs == sectioned[j].attrs);
        }
        assert(labels_listed(blocks@, table));
    }
    ResolveResult { document: Document { span, settings, blocks }, diagnostics }
}

} // verus!
