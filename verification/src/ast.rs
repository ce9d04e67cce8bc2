use vstd::prelude::*;
use crate::span::Span;

verus! {

/// A sequence of inline nodes.
pub type InlineSeq = Vec<Inline>;

#[derive(Clone, Copy, Debug, PartialEq, Eq, Structural)]
pub struct NodeId(pub u32);

/// A parsed document: its span, the optional document settings line and the top-level blocks.
#[derive(Debug)]
pub struct Document {
    pub span: Span,
    pub settings: Option<AttrList>,
    pub blocks: Vec<Block>,
}

#[derive(Debug)]
pub struct Block {
    pub span: Span,
    pub attrs: AttrList,
    pub kind: BlockKind,
}

#[derive(Debug)]
pub enum BlockKind {
    Paragraph { content: InlineSeq },
    Heading { level: u8, title: InlineSeq },
    Section { level: u8, title: InlineSeq, label: Option<Label>, children: Vec<Block> },
    List(List),
    BlockQuote { blocks: Vec<Block> },
    CodeBlock(CodeBlock),
    Box(BoxBlock),
    MathBlock { typst_src: String },
    ThematicBreak,
    HtmlBlock { raw: String },
    Table(Table),
}

#[derive(Debug)]
pub struct List {
    pub ordered: bool,
    pub start: Option<u64>,
    pub tight: bool,
    pub items: Vec<ListItem>,
}

#[derive(Debug)]
pub struct ListItem {
    pub span: Span,
    pub blocks: Vec<Block>,
    pub task: Option<bool>,
}

#[derive(Debug)]
pub struct Table {
    pub headers: Vec<InlineSeq>,
    pub aligns: Vec<TableAlign>,
    pub rows: Vec<Vec<InlineSeq>>,
}

#[derive(Clone, Copy, Debug, PartialEq, Eq, Structural)]
pub enum TableAlign {
    Unaligned,
    Left,
    Center,
    Right,
}

#[derive(Clone, Debug)]
pub struct CodeBlock {
    pub kind: CodeBlockKind,
    pub lang: Option<String>,
    pub info_attrs: AttrList,
    pub meta: CodeMeta,
    pub text: String,
}

#[derive(Clone, Copy, Debug, PartialEq, Eq, Structural)]
pub enum CodeBlockKind {
    Fenced,
    Indented,
}

/// Line metadata of a code block; line numbers are 1-based and count blank lines.
#[derive(Clone, Debug)]
pub struct CodeMeta {
    pub hl: Vec<LineRange>,
    pub diff_add: Vec<LineRange>,
    pub diff_del: Vec<LineRange>,
    pub line_labels: Vec<LineLabel>,
}

#[derive(Clone, Copy, Debug, PartialEq, Eq, Structural)]
pub struct LineRange {
    pub start: u32,
    pub end: u32,
}

#[derive(Clone, Debug)]
pub struct LineLabel {
    pub line: u32,
    pub label: Label,
}

#[derive(Debug)]
pub struct BoxBlock {
    pub title: Option<InlineSeq>,
    pub blocks: Vec<Block>,
}

#[derive(Debug)]
pub struct Inline {
    pub span: Span,
    pub kind: InlineKind,
}

#[derive(Debug)]
pub enum InlineKind {
    Text(String),
    Emph(InlineSeq),
    Strong(InlineSeq),
    Strikethrough(InlineSeq),
    CodeSpan(String),
    SoftBreak,
    HardBreak,
    Link { url: String, title: Option<String>, children: InlineSeq },
    Image { url: String, title: Option<String>, alt: InlineSeq },
    LinkRef { label: String, children: InlineSeq, meta: LinkRefMeta },
    ImageRef { label: String, alt: InlineSeq, meta: LinkRefMeta },
    Ref { label: Label, bracket: Option<InlineSeq>, resolved: Option<ResolvedRef> },
    MathInline { typst_src: String },
    HtmlSpan { raw: String },
}

#[derive(Clone, Debug)]
pub struct LinkDefinition {
    pub url: String,
    pub title: Option<String>,
}

#[derive(Clone, Copy, Debug)]
pub struct LinkRefMeta {
    pub opener_span: Span,
    pub closer_span: Span,
    pub label_open_span: Option<Span>,
    pub label_span: Option<Span>,
    pub label_close_span: Option<Span>,
}

#[derive(Debug)]
pub enum ResolvedRef {
    Block { label: String, display: Option<InlineSeq> },
    CodeLine { label: String },
}

/// An attribute list: its span, an optional `#label` and `key=value` items.
#[derive(Clone, Debug)]
pub struct AttrList {
    pub span: Option<Span>,
    pub label: Option<Label>,
    pub items: Vec<AttrItem>,
}

impl AttrList {
    pub fn empty() -> (a: AttrList)
        ensures
            a.span is None,
            a.label is None,
            a.items@.len() == 0,
    {
        AttrList { span: None, label: None, items: Vec::new() }
    }
}

impl Default for AttrList {
    fn default() -> (a: AttrList)
        ensures
            a.span is None,
            a.label is None,
            a.items@.len() == 0,
    {
        AttrList::empty()
    }
}

#[derive(Clone, Debug)]
pub struct AttrItem {
    pub key: String,
    pub value: AttrValue,
}

#[derive(Clone, Debug)]
pub struct AttrValue {
    pub raw: String,
    pub span: Span,
    pub quoted: bool,
}

#[derive(Clone, Debug)]
pub struct Label {
    pub name: String,
    pub span: Span,
}

/// The span is not inverted and ends within a text of `len` bytes.
pub open spec fn span_in(s: Span, len: nat) -> bool {
    s.start <= s.end && s.end <= len
}

pub open spec fn label_in(l: Label, len: nat) -> bool {
    span_in(l.span, len)
}

/// Every span of the attribute list (its own, its label's, its values') lies in the text.
pub open spec fn attrs_in(a: AttrList, len: nat) -> bool {
    &&& (a.span matches Some(s) ==> span_in(s, len))
    &&& (a.label matches Some(l) ==> label_in(l, len))
    &&& forall|i: int| 0 <= i < a.items@.len() ==> span_in(#[trigger] a.items@[i].value.span, len)
}

pub open spec fn opt_span_in(s: Option<Span>, len: nat) -> bool {
    s matches Some(x) ==> span_in(x, len)
}

/// The spans of a link reference's brackets and label lie in the text.
pub open spec fn meta_in(m: LinkRefMeta, len: nat) -> bool {
    &&& span_in(m.opener_span, len)
    &&& span_in(m.closer_span, len)
    &&& opt_span_in(m.label_open_span, len)
    &&& opt_span_in(m.label_span, len)
    &&& opt_span_in(m.label_close_span, len)
}

/// Every span of the inline node and of the nodes nested in it lies in the text.
pub open spec fn inline_in(x: Inline, len: nat) -> bool
    decreases x,
{
    &&& span_in(x.span, len)
    &&& match x.kind {
        InlineKind::Emph(c) => inlines_in(c@, len),
        InlineKind::Strong(c) => inlines_in(c@, len),
        InlineKind::Strikethrough(c) => inlines_in(c@, len),
        InlineKind::Link { children, .. } => inlines_in(children@, len),
        InlineKind::Image { alt, .. } => inlines_in(alt@, len),
        InlineKind::LinkRef { children, meta, .. } => inlines_in(children@, len) && meta_in(meta, len),
        InlineKind::ImageRef { alt, meta, .. } => inlines_in(alt@, len) && meta_in(meta, len),
        InlineKind::Ref { label, bracket, .. } => label_in(label, len) && match bracket {
            Some(b) => inlines_in(b@, len),
            None => true,
        },
        _ => true,
    }
}

pub open spec fn inlines_in(xs: Seq<Inline>, len: nat) -> bool
    decreases xs,
{
    forall|i: int| 0 <= i < xs.len() ==> inline_in(#[trigger] xs[i], len)
}

pub open spec fn item_in(it: ListItem, len: nat) -> bool
    decreases it,
{
    span_in(it.span, len) && blocks_in(it.blocks@, len)
}

pub open spec fn cells_in(cells: Seq<InlineSeq>, len: nat) -> bool {
    forall|i: int| 0 <= i < cells.len() ==> inlines_in((#[trigger] cells[i])@, len)
}

/// Every span of the block, of its attributes and of what is nested in it lies in the text.
pub open spec fn block_in(b: Block, len: nat) -> bool
    decreases b,
{
    &&& span_in(b.span, len)
    &&& attrs_in(b.attrs, len)
    &&& match b.kind {
        BlockKind::Paragraph { content } => inlines_in(content@, len),
        BlockKind::Heading { title, .. } => inlines_in(title@, len),
        BlockKind::Section { title, label, children, .. } => inlines_in(title@, len) && (
        label matches Some(l) ==> label_in(l, len)) && blocks_in(children@, len),
        BlockKind::List(l) => forall|i: int|
            0 <= i < l.items@.len() ==> item_in(#[trigger] l.items@[i], len),
        BlockKind::BlockQuote { blocks } => blocks_in(blocks@, len),
        BlockKind::CodeBlock(c) => attrs_in(c.info_attrs, len) && forall|i: int|
            0 <= i < c.meta.line_labels@.len() ==> label_in(
                (#[trigger] c.meta.line_labels@[i]).label,
                len,
            ),
        BlockKind::Box(bx) => (match bx.title {
            Some(t) => inlines_in(t@, len),
            None => true,
        }) && blocks_in(bx.blocks@, len),
        BlockKind::Table(t) => cells_in(t.headers@, len) && forall|i: int|
            0 <= i < t.rows@.len() ==> cells_in((#[trigger] t.rows@[i])@, len),
        _ => true,
    }
}

pub open spec fn blocks_in(bs: Seq<Block>, len: nat) -> bool
    decreases bs,
{
    forall|i: int| 0 <= i < bs.len() ==> block_in(#[trigger] bs[i], len)
}

/// Every span of the document lies in a text of `len` bytes.
pub open spec fn document_in(d: Document, len: nat) -> bool {
    &&& span_in(d.span, len)
    &&& (d.settings matches Some(a) ==> attrs_in(a, len))
    &&& blocks_in(d.blocks@, len)
}

} // verus!
