use vstd::prelude::*;
use crate::block_html::{
    close_li, item_html, items_html, list_open, list_tag, loose_blocks, start_attr, task_input, task_part,
    tight_ended, tight_html, tight_seq, has_tasks, code_attrs, code_block_html, code_figure_html, code_line_html, code_pre_html, line_head_html, line_label_attrs, line_marks_html, code_lines_html, diff_kind, display_before, in_ranges, lang_attr, line_label,
    line_number, next_display, lemma_blocks_html_valid, cell_html, cells_html, column_align, rows_html, table_html, table_plain, align_attr,
    attrs_html, block_html, blocks_html, data_attr, data_attrs, deeper, heading_html, id_attr, line_at,
    plain_block, plain_blocks, range_part, spaces,
};
use crate::ast::{
    AttrItem, Block, BlockKind, BoxBlock, CodeBlock, CodeBlockKind, CodeMeta, Document, Inline,
    InlineKind, InlineSeq, Label, LineRange, LinkRefMeta, List, ListItem, ResolvedRef, Table, TableAlign,
};
use crate::math::{prefix_svg_ids, prefixed_ids, symbol_ids_from};
use crate::sanitize::{sanitize_html, sanitized};
use crate::source_map::{Position, SourceMap};
use crate::span::Span;
use crate::text::{push_all, push_str, string_bytes, string_from_bytes, lossy_decode, lemma_str_valid, lemma_ascii_valid, lemma_cat};
use vstd::utf8::{decode_utf8, encode_utf8, valid_utf8};
use vstd::string::StringSliceAdditionalSpecFns;

verus! {

/// Options for HTML emission.
#[derive(Clone, Copy, Debug)]
pub struct HtmlEmitOptions {
    /// Whether to opts sections in `<section>` tags; if false, only the heading is emitted.
    pub wrap_sections: bool,
    /// Whether to emit code blocks as plain `<pre><code>`; if false, fenced code blocks get a
    /// figure with one span per line.
    pub simple_code_blocks: bool,
}

impl Default for HtmlEmitOptions {
    fn default() -> (o: HtmlEmitOptions)
        ensures
            o.wrap_sections,
            !o.simple_code_blocks,
            o == default_options(),
    {
        HtmlEmitOptions { wrap_sections: true, simple_code_blocks: false }
    }
}

/// The default options: sections wrapped, fenced code as figures.
pub open spec fn default_options() -> HtmlEmitOptions {
    HtmlEmitOptions { wrap_sections: true, simple_code_blocks: false }
}

/// `b` starts with `a`.
pub open spec fn grows(a: Seq<u8>, b: Seq<u8>) -> bool {
    a.len() <= b.len() && forall|k: int| 0 <= k < a.len() ==> a[k] == b[k]
}

/// The escape of one byte in text and attribute values: `&`, `<`, `>` and `"` become
/// entities, every other byte stays.
pub open spec fn escape_byte(b: u8) -> Seq<u8> {
    if b == 38u8 {
        seq![38u8, 97u8, 109u8, 112u8, 59u8]
    } else if b == 60u8 {
        seq![38u8, 108u8, 116u8, 59u8]
    } else if b == 62u8 {
        seq![38u8, 103u8, 116u8, 59u8]
    } else if b == 34u8 {
        seq![38u8, 113u8, 117u8, 111u8, 116u8, 59u8]
    } else {
        seq![b]
    }
}

/// The HTML escape of a text.
pub open spec fn escaped(s: Seq<u8>) -> Seq<u8>
    decreases s.len(),
{
    if s.len() == 0 {
        Seq::empty()
    } else {
        escaped(s.drop_last()) + escape_byte(s.last())
    }
}

/// An upper-case hexadecimal digit.
pub open spec fn hex_digit(n: u8) -> u8 {
    if n < 10 {
        (48 + n) as u8
    } else {
        (55 + n) as u8
    }
}

/// The percent-encoding of one byte of a URL: space, backtick, backslash, double quote,
/// control bytes and bytes from 0x7F up are encoded.
pub open spec fn url_byte(b: u8) -> Seq<u8> {
    if b == 32u8 {
        seq![37u8, 50u8, 48u8]
    } else if b == 96u8 {
        seq![37u8, 54u8, 48u8]
    } else if b == 92u8 {
        seq![37u8, 53u8, 67u8]
    } else if b == 34u8 {
        seq![37u8, 50u8, 50u8]
    } else if b < 32u8 || b >= 127u8 {
        seq![37u8, hex_digit(b / 16), hex_digit(b % 16)]
    } else {
        seq![b]
    }
}

pub open spec fn url_encoded(s: Seq<u8>) -> Seq<u8>
    decreases s.len(),
{
    if s.len() == 0 {
        Seq::empty()
    } else {
        url_encoded(s.drop_last()) + url_byte(s.last())
    }
}

/// Appends the HTML escape of `s`.
pub fn push_escaped(out: &mut Vec<u8>, s: &[u8])
    ensures
        final(out)@ == old(out)@ + escaped(s@),
{
    let ghost base = out@;
    let mut i: usize = 0;
    while i < s.len()
        invariant
            i <= s@.len(),
            out@ == base + escaped(s@.take(i as int)),
        decreases s.len() - i,
    {
        let b = s[i];
        proof {
            assert(s@.take(i + 1).drop_last() == s@.take(i as int));
        }
        if b == 38u8 {
            out.push(38u8);
            out.push(97u8);
            out.push(109u8);
            out.push(112u8);
            out.push(59u8);
        } else if b == 60u8 {
            out.push(38u8);
            out.push(108u8);
            out.push(116u8);
            out.push(59u8);
        } else if b == 62u8 {
            out.push(38u8);
            out.push(103u8);
            out.push(116u8);
            out.push(59u8);
        } else if b == 34u8 {
            out.push(38u8);
            out.push(113u8);
            out.push(117u8);
            out.push(111u8);
            out.push(116u8);
            out.push(59u8);
        } else {
            out.push(b);
        }
        i = i + 1;
    }
    proof {
        assert(s@.take(s@.len() as int) == s@);
    }
}

/// The HTML escape of a string (for text, code and attribute values alike).
pub fn escape_text(text: &str) -> (r: Vec<u8>)
    ensures
        r@ == escaped(text.spec_bytes()),
{
    let mut out: Vec<u8> = Vec::new();
    push_escaped(&mut out, text.as_bytes());
    out
}

fn hex_digit_exec(n: u8) -> (r: u8)
    requires
        n < 16,
    ensures
        r == hex_digit(n),
{
    if n < 10 {
        48 + n
    } else {
        55 + n
    }
}

/// Appends the percent-encoding of a URL.
pub fn push_url_encoded(out: &mut Vec<u8>, s: &[u8])
    ensures
        final(out)@ == old(out)@ + url_encoded(s@),
{
    let ghost base = out@;
    let mut i: usize = 0;
    while i < s.len()
        invariant
            i <= s@.len(),
            out@ == base + url_encoded(s@.take(i as int)),
        decreases s.len() - i,
    {
        let b = s[i];
        proof {
            assert(s@.take(i + 1).drop_last() == s@.take(i as int));
        }
        if b == 32u8 {
            out.push(37u8);
            out.push(50u8);
            out.push(48u8);
        } else if b == 96u8 {
            out.push(37u8);
            out.push(54u8);
            out.push(48u8);
        } else if b == 92u8 {
            out.push(37u8);
            out.push(53u8);
            out.push(67u8);
        } else if b == 34u8 {
            out.push(37u8);
            out.push(50u8);
            out.push(50u8);
        } else if b < 32u8 || b >= 127u8 {
            out.push(37u8);
            out.push(hex_digit_exec(b / 16));
            out.push(hex_digit_exec(b % 16));
        } else {
            out.push(b);
        }
        i = i + 1;
    }
    proof {
        assert(s@.take(s@.len() as int) == s@);
    }
}

/// A URL for an attribute value: percent-encoded, then HTML-escaped.
pub fn escape_url_attr(url: &str) -> (r: Vec<u8>)
    ensures
        r@ == escaped(url_encoded(url.spec_bytes())),
{
    let mut encoded: Vec<u8> = Vec::new();
    push_url_encoded(&mut encoded, url.as_bytes());
    let mut out: Vec<u8> = Vec::new();
    push_escaped(&mut out, encoded.as_slice());
    out
}

/// The decimal digits of a number.
pub open spec fn decimal(n: nat) -> Seq<u8>
    decreases n,
{
    if n < 10 {
        seq![(48 + n) as u8]
    } else {
        decimal(n / 10).push((48 + n % 10) as u8)
    }
}

/// Appends the decimal digits of `n`.
pub fn push_decimal(out: &mut Vec<u8>, n: u64)
    ensures
        final(out)@ == old(out)@ + decimal(n as nat),
        grows(old(out)@, final(out)@),
        final(out)@.len() > old(out)@.len(),
    decreases n,
{
    if n >= 10 {
        push_decimal(out, n / 10);
    }
    out.push(48u8 + (n % 10) as u8);
    assert(out@ =~= old(out)@ + decimal(n as nat));
}

/// ` id="label"` for a label, nothing otherwise.
pub fn push_id_attr(out: &mut Vec<u8>, label: Option<&Label>)
    ensures
        label is None ==> final(out)@ == old(out)@,
        label matches Some(l) ==> final(out)@ == old(out)@ + seq![32u8, 105u8, 100u8, 61u8, 34u8]
            + escaped(encode_utf8(l.name@)) + seq![34u8],
        grows(old(out)@, final(out)@),
{
    if let Some(l) = label {
        out.push(32u8);
        out.push(105u8);
        out.push(100u8);
        out.push(61u8);
        out.push(34u8);
        push_escaped(out, string_bytes(&l.name));
        out.push(34u8);
    }
}

/// ` data-key="value"` for each item.
pub fn push_data_attrs(out: &mut Vec<u8>, items: &[AttrItem])
    ensures
        final(out)@ == old(out)@ + data_attrs(items@),
        items@.len() == 0 ==> final(out)@ == old(out)@,
        grows(old(out)@, final(out)@),
{
    let ghost base = out@;
    let mut i: usize = 0;
    proof {
        assert(items@.take(0) =~= Seq::<AttrItem>::empty());
    }
    while i < items.len()
        invariant
            i <= items@.len(),
            out@ == base + data_attrs(items@.take(i as int)),
        decreases items.len() - i,
    {
        let ghost before = out@;
        push_str(out, " data-");
        push_escaped(out, string_bytes(&items[i].key));
        out.push(61u8);
        out.push(34u8);
        push_escaped(out, string_bytes(&items[i].value.raw));
        out.push(34u8);
        proof {
            assert(items@.take(i + 1).drop_last() =~= items@.take(i as int));
            assert(items@.take(i + 1).last() == items@[i as int]);
            assert(out@ =~= before + data_attr(items@[i as int]));
        }
        i = i + 1;
    }
    proof {
        assert(items@.take(items@.len() as int) =~= items@);
    }
}

/// The id attribute of the label followed by the data attributes of the items.
pub fn push_block_attrs(out: &mut Vec<u8>, label: Option<&Label>, items: &[AttrItem])
    ensures
        label is None ==> final(out)@ == old(out)@ + data_attrs(items@),
        label matches Some(l) ==> final(out)@ == old(out)@ + id_attr(*l) + data_attrs(items@),
        label is None && items@.len() == 0 ==> final(out)@ == old(out)@,
        final(out)@ == old(out)@ + attrs_html(deref_label(label), items@),
        grows(old(out)@, final(out)@),
{
    push_id_attr(out, label);
    push_data_attrs(out, items);
}

/// Whether a line number falls in one of the ranges.
pub fn line_in_ranges(line: u32, ranges: &[LineRange]) -> (r: bool)
    ensures
        r == exists|k: int| 0 <= k < ranges@.len() && #[trigger] ranges@[k].start <= line
            && line <= ranges@[k].end,
{
    let mut i: usize = 0;
    while i < ranges.len()
        invariant
            i <= ranges@.len(),
            forall|k: int| 0 <= k < i ==> !(#[trigger] ranges@[k].start <= line && line
                <= ranges@[k].end),
        decreases ranges.len() - i,
    {
        if ranges[i].start <= line && line <= ranges[i].end {
            return true;
        }
        i = i + 1;
    }
    false
}

/// A text split at its newlines (a text without any is one line, maybe empty).
pub open spec fn raw_lines(s: Seq<u8>) -> Seq<Seq<u8>>
    decreases s.len(),
{
    if s.len() == 0 {
        seq![Seq::empty()]
    } else {
        let r = raw_lines(s.drop_last());
        if s.last() == 10u8 {
            r.push(Seq::empty())
        } else {
            r.update(r.len() - 1, r.last().push(s.last()))
        }
    }
}

/// A line without its last carriage return.
pub open spec fn drop_cr(l: Seq<u8>) -> Seq<u8> {
    if l.len() > 0 && l.last() == 13u8 {
        l.drop_last()
    } else {
        l
    }
}

/// The lines of a code block's text, each without a carriage return at its end.
pub open spec fn code_lines(s: Seq<u8>) -> Seq<Seq<u8>> {
    raw_lines(s).map_values(|l: Seq<u8>| drop_cr(l))
}

proof fn lemma_raw_lines_len(s: Seq<u8>)
    ensures
        raw_lines(s).len() >= 1,
    decreases s.len(),
{
    if s.len() > 0 {
        lemma_raw_lines_len(s.drop_last());
    }
}

/// The lines of a text split at newlines, a carriage return before each newline (and at the
/// very end) dropped; an empty text is one empty line.
pub fn split_lines_preserve(text: &[u8]) -> (r: Vec<Vec<u8>>)
    ensures
        r@.len() >= 1,
        r@.len() == code_lines(text@).len(),
        forall|k: int| 0 <= k < r@.len() ==> #[trigger] r@[k]@ == code_lines(text@)[k],
{
    let mut lines: Vec<Vec<u8>> = Vec::new();
    let mut start: usize = 0;
    let mut idx: usize = 0;
    proof {
        assert(text@.take(0) =~= Seq::<u8>::empty());
    }
    while idx < text.len()
        invariant
            start <= idx <= text@.len(),
            raw_lines(text@.take(idx as int)).len() == lines@.len() + 1,
            forall|k: int| 0 <= k < lines@.len() ==> #[trigger] lines@[k]@ == drop_cr(raw_lines(text@.take(idx as int))[k]),
            raw_lines(text@.take(idx as int)).last() == text@.subrange(start as int, idx as int),
        decreases text.len() - idx,
    {
        let ghost prev = raw_lines(text@.take(idx as int));
        proof {
            assert(text@.take(idx + 1).drop_last() =~= text@.take(idx as int));
            assert(text@.take(idx + 1).last() == text@[idx as int]);
            lemma_raw_lines_len(text@.take(idx as int));
        }
        if text[idx] == 10u8 {
            let mut e = idx;
            if e > start && text[e - 1] == 13u8 {
                e = e - 1;
            }
            let piece = crate::text::copy_range(text, start, e);
            proof {
                let seg = text@.subrange(start as int, idx as int);
                if idx > start && text@[idx - 1] == 13u8 {
                    assert(seg.drop_last() =~= text@.subrange(start as int, e as int));
                } else {
                    assert(seg =~= text@.subrange(start as int, e as int));
                }
                assert(piece@ == drop_cr(seg));
            }
            lines.push(piece);
            start = idx + 1;
            proof {
                assert(text@.subrange(start as int, idx + 1) =~= Seq::<u8>::empty());
            }
        } else {
            proof {
                assert(text@.subrange(start as int, idx + 1) =~= text@.subrange(start as int, idx as int).push(text@[idx as int]));
            }
        }
        idx = idx + 1;
    }
    proof {
        assert(text@.take(text@.len() as int) =~= text@);
        lemma_raw_lines_len(text@);
    }
    let mut e = text.len();
    if e > start && text[e - 1] == 13u8 {
        e = e - 1;
    }
    let piece = crate::text::copy_range(text, start, e);
    proof {
        let seg = text@.subrange(start as int, text@.len() as int);
        if text@.len() > start && text@[text@.len() - 1] == 13u8 {
            assert(seg.drop_last() =~= text@.subrange(start as int, e as int));
        } else {
            assert(seg =~= text@.subrange(start as int, e as int));
        }
        assert(piece@ == drop_cr(seg));
    }
    lines.push(piece);
    lines
}

/// The `align` attribute of a table column.
pub fn table_align_attr(align: Option<TableAlign>) -> (r: &'static str)
    ensures
        r.spec_bytes() == align_attr(align),
{
    match align {
        Some(TableAlign::Left) => " align=\"left\"",
        Some(TableAlign::Center) => " align=\"center\"",
        Some(TableAlign::Right) => " align=\"right\"",
        _ => "",
    }
}

/// The checkbox that starts a task list item.
pub fn task_input_html(checked: bool) -> (r: &'static str)
    ensures
        r.spec_bytes() == task_input(checked),
{
    if checked {
        "<input type=\"checkbox\" disabled=\"\" checked=\"\" /> "
    } else {
        "<input type=\"checkbox\" disabled=\"\" /> "
    }
}


/// The bytes of a string.
pub open spec fn sbytes(s: String) -> Seq<u8> {
    encode_utf8(s@)
}

/// The plain text of inline nodes (see `render_inlines_text`).
pub open spec fn inlines_text(xs: Seq<Inline>) -> Seq<u8>
    decreases xs,
{
    if xs.len() == 0 {
        Seq::empty()
    } else {
        inlines_text(xs.drop_last()) + inline_text(xs.last())
    }
}

pub open spec fn inline_text(x: Inline) -> Seq<u8>
    decreases x,
{
    match x.kind {
        InlineKind::Text(t) => sbytes(t),
        InlineKind::CodeSpan(t) => sbytes(t),
        InlineKind::MathInline { typst_src } => sbytes(typst_src),
        InlineKind::SoftBreak => seq![10u8],
        InlineKind::HardBreak => seq![10u8],
        InlineKind::Ref { label, bracket, .. } => match bracket {
            Some(b) => inlines_text(b@),
            None => sbytes(label.name),
        },
        InlineKind::Emph(c) => inlines_text(c@),
        InlineKind::Strong(c) => inlines_text(c@),
        InlineKind::Strikethrough(c) => inlines_text(c@),
        InlineKind::Link { children, .. } => inlines_text(children@),
        InlineKind::LinkRef { children, .. } => inlines_text(children@),
        InlineKind::Image { alt, .. } => inlines_text(alt@),
        InlineKind::ImageRef { alt, .. } => inlines_text(alt@),
        InlineKind::HtmlSpan { raw } => sbytes(raw),
    }
}

/// No math node is among the inline nodes or nested in them (in references' text too).
pub open spec fn math_free(xs: Seq<Inline>) -> bool
    decreases xs,
{
    forall|i: int| 0 <= i < xs.len() ==> math_free_one(#[trigger] xs[i])
}

pub open spec fn math_free_one(x: Inline) -> bool
    decreases x,
{
    match x.kind {
        InlineKind::MathInline { .. } => false,
        InlineKind::Ref { bracket, resolved, .. } => (match bracket {
            Some(b) => math_free(b@),
            None => true,
        }) && (match resolved {
            Some(ResolvedRef::Block { display: Some(d), .. }) => math_free(d@),
            _ => true,
        }),
        InlineKind::Emph(c) => math_free(c@),
        InlineKind::Strong(c) => math_free(c@),
        InlineKind::Strikethrough(c) => math_free(c@),
        InlineKind::Link { children, .. } => math_free(children@),
        InlineKind::LinkRef { children, .. } => math_free(children@),
        InlineKind::Image { alt, .. } => math_free(alt@),
        InlineKind::ImageRef { alt, .. } => math_free(alt@),
        _ => true,
    }
}

/// The math nodes that rendering `x` in `ctx` meets, in the order in which it numbers them:
/// source and whether it is display math. A reference counts the math of the text it shows;
/// an image outside reference text shows its alternative text as plain text.
pub open spec fn inline_maths(x: Inline, ctx: RenderContext) -> Seq<(Seq<char>, bool)>
    decreases x,
{
    match x.kind {
        InlineKind::MathInline { typst_src } => seq![(typst_src@, false)],
        InlineKind::Ref { bracket, resolved, .. } => match bracket {
            Some(b) => inlines_maths(b@, RenderContext::ReferenceText),
            None => match resolved {
                Some(ResolvedRef::Block { display: Some(d), .. }) => inlines_maths(d@, RenderContext::ReferenceText),
                _ => Seq::empty(),
            },
        },
        InlineKind::Emph(c) => inlines_maths(c@, ctx),
        InlineKind::Strong(c) => inlines_maths(c@, ctx),
        InlineKind::Strikethrough(c) => inlines_maths(c@, ctx),
        InlineKind::Link { children, .. } => inlines_maths(children@, ctx),
        InlineKind::LinkRef { children, .. } => inlines_maths(children@, ctx),
        InlineKind::Image { alt, .. } => if ctx == RenderContext::ReferenceText {
            inlines_maths(alt@, ctx)
        } else {
            Seq::empty()
        },
        InlineKind::ImageRef { alt, .. } => inlines_maths(alt@, ctx),
        _ => Seq::empty(),
    }
}

/// The math nodes that rendering inline nodes in `ctx` meets, in order.
pub open spec fn inlines_maths(xs: Seq<Inline>, ctx: RenderContext) -> Seq<(Seq<char>, bool)>
    decreases xs,
{
    if xs.len() == 0 {
        Seq::empty()
    } else {
        inlines_maths(xs.drop_last(), ctx) + inline_maths(xs.last(), ctx)
    }
}

/// The math sources a writer has met, as text and display flag.
pub open spec fn sources_view(s: Seq<(String, bool)>) -> Seq<(Seq<char>, bool)> {
    s.map_values(|p: (String, bool)| (p.0@, p.1))
}

/// A math number after `k` more math nodes from `c`: it stops at the largest `usize`.
pub open spec fn count_on(c: int, k: int) -> int {
    if c + k > usize::MAX {
        usize::MAX as int
    } else {
        c + k
    }
}

/// The math nodes that emitting blocks meets, in order: source and display flag.
pub open spec fn blocks_maths(bs: Seq<Block>) -> Seq<(Seq<char>, bool)>
    decreases bs,
{
    if bs.len() == 0 {
        Seq::empty()
    } else {
        blocks_maths(bs.drop_last()) + block_maths(bs.last())
    }
}

/// The math nodes of a block in document order: a heading's title (a section's before its
/// blocks), a paragraph's content, a box's title and blocks, a table's cells row by row, the
/// blocks of list items and quotes, and display math.
pub open spec fn block_maths(b: Block) -> Seq<(Seq<char>, bool)>
    decreases b,
{
    match b.kind {
        BlockKind::Section { title, children, .. } => inlines_maths(title@, RenderContext::Title) + blocks_maths(
            children@,
        ),
        BlockKind::Heading { title, .. } => inlines_maths(title@, RenderContext::Title),
        BlockKind::Paragraph { content } => inlines_maths(content@, RenderContext::Normal),
        BlockKind::BlockQuote { blocks } => blocks_maths(blocks@),
        BlockKind::Box(bx) => (match bx.title {
            Some(t) => inlines_maths(t@, RenderContext::Title),
            None => Seq::empty(),
        }) + blocks_maths(bx.blocks@),
        BlockKind::Table(t) => cells_maths(t.headers@) + rows_maths(t.rows@),
        BlockKind::List(l) => items_maths(l.items@),
        BlockKind::MathBlock { typst_src } => seq![(typst_src@, true)],
        _ => Seq::empty(),
    }
}

/// The math nodes of list items, item by item.
pub open spec fn items_maths(items: Seq<ListItem>) -> Seq<(Seq<char>, bool)>
    decreases items,
{
    if items.len() == 0 {
        Seq::empty()
    } else {
        items_maths(items.drop_last()) + blocks_maths(items.last().blocks@)
    }
}

/// The math nodes of table cells, cell by cell.
pub open spec fn cells_maths(cells: Seq<Vec<Inline>>) -> Seq<(Seq<char>, bool)>
    decreases cells.len(),
{
    if cells.len() == 0 {
        Seq::empty()
    } else {
        cells_maths(cells.drop_last()) + inlines_maths(cells.last()@, RenderContext::Normal)
    }
}

/// The math nodes of table rows, row by row.
pub open spec fn rows_maths(rows: Seq<Vec<Vec<Inline>>>) -> Seq<(Seq<char>, bool)>
    decreases rows.len(),
{
    if rows.len() == 0 {
        Seq::empty()
    } else {
        rows_maths(rows.drop_last()) + cells_maths(rows.last()@)
    }
}

/// From `w0` to `w`, the writer met the math nodes `ms`: its counter went on by as many, and
/// their sources were added in order.
pub open spec fn met<'a>(w: HtmlWriter<'a>, w0: HtmlWriter<'a>, ms: Seq<(Seq<char>, bool)>) -> bool {
    &&& w.math_counter == count_on(w0.math_counter as int, ms.len() as int)
    &&& sources_view(w.math_sources@) == sources_view(w0.math_sources@) + ms
}

/// The math of blocks, read from the front.
proof fn lemma_blocks_maths_front(bs: Seq<Block>)
    requires
        bs.len() > 0,
    ensures
        blocks_maths(bs) == block_maths(bs[0]) + blocks_maths(bs.skip(1)),
    decreases bs.len(),
{
    if bs.len() == 1 {
        assert(bs.skip(1) =~= Seq::<Block>::empty());
        assert(bs.drop_last() =~= Seq::<Block>::empty());
        assert(blocks_maths(bs) =~= block_maths(bs[0]) + blocks_maths(bs.skip(1)));
    } else {
        lemma_blocks_maths_front(bs.drop_last());
        assert(bs.drop_last().skip(1) =~= bs.skip(1).drop_last());
        assert(bs.drop_last()[0] == bs[0]);
        assert(bs.skip(1).last() == bs.last());
        assert(blocks_maths(bs) =~= block_maths(bs[0]) + blocks_maths(bs.skip(1)));
    }
}

/// Meeting `a` and then `b` is meeting `a + b`.
proof fn lemma_met_then<'a>(
    w0: HtmlWriter<'a>,
    w1: HtmlWriter<'a>,
    w2: HtmlWriter<'a>,
    a: Seq<(Seq<char>, bool)>,
    b: Seq<(Seq<char>, bool)>,
)
    requires
        met(w1, w0, a),
        met(w2, w1, b),
    ensures
        met(w2, w0, a + b),
{
    assert(sources_view(w0.math_sources@) + a + b =~= sources_view(w0.math_sources@) + (a + b));
}

/// A writer whose math is untouched met no math.
proof fn lemma_met_none<'a>(w0: HtmlWriter<'a>, w1: HtmlWriter<'a>)
    requires
        w1.math_counter == w0.math_counter,
        w1.math_sources@ == w0.math_sources@,
    ensures
        met(w1, w0, Seq::empty()),
{
    assert(sources_view(w0.math_sources@) + Seq::<(Seq<char>, bool)>::empty() =~= sources_view(w0.math_sources@));
}

/// The SVG that the `n`-th math node (from one) shows: the rendered SVG with the ids of its
/// symbols, and the references to them, prefixed `tm-m<n>`.
pub open spec fn numbered_svg(svg: String, n: nat) -> Seq<char> {
    lossy_decode(
        prefixed_ids(
            sbytes(svg),
            "tm-m".spec_bytes() + decimal(n),
            symbol_ids_from(sbytes(svg), 0, " id=\"".spec_bytes(), false),
        ),
    )
}

/// The digits of a number are ASCII.
proof fn lemma_decimal_ascii(n: nat)
    ensures
        forall|k: int| 0 <= k < decimal(n).len() ==> decimal(n)[k] < 128,
    decreases n,
{
    if n >= 10 {
        lemma_decimal_ascii(n / 10);
        let d = decimal(n / 10).push((48 + n % 10) as u8);
        assert(decimal(n) == d);
        assert forall|k: int| 0 <= k < d.len() implies d[k] < 128 by {
            if k < d.len() - 1 {
                assert(d[k] == decimal(n / 10)[k]);
            }
        }
    } else {
        assert(decimal(n) == seq![(48 + n) as u8]);
    }
}

/// The HTML of inline nodes in a context, with `data-tm-range` attributes on text when a
/// source map is given; math shows its source as an error (no rendered SVG is given).
pub open spec fn inlines_html(xs: Seq<Inline>, ctx: RenderContext, map: Option<&SourceMap>) -> Seq<u8>
    decreases xs,
{
    if xs.len() == 0 {
        Seq::empty()
    } else {
        inlines_html(xs.drop_last(), ctx, map) + inline_html_spec(xs.last(), ctx, map)
    }
}

/// The optional ` title="..."` attribute.
pub open spec fn title_attr(title: Option<String>) -> Seq<u8> {
    match title {
        Some(t) => " title=\"".spec_bytes() + escaped(sbytes(t)) + "\"".spec_bytes(),
        None => Seq::empty(),
    }
}

/// A link with a title opens with its address and then its title, escaped, as the `title`
/// attribute; without a title nothing stands between the address and the link text.
pub proof fn law_link_title_emitted(
    span: Span,
    url: String,
    title: Option<String>,
    children: InlineSeq,
    ctx: RenderContext,
    map: Option<&SourceMap>,
)
    requires
        ctx != RenderContext::ReferenceText,
    ensures
        ({
            let html = inline_html_spec(Inline { span, kind: InlineKind::Link { url, title, children } }, ctx, map);
            let head = "<a href=\"".spec_bytes() + escaped(url_encoded(sbytes(url))) + "\"".spec_bytes();
            match title {
                Some(t) => {
                    let opening = head + " title=\"".spec_bytes() + escaped(sbytes(t)) + "\"".spec_bytes() + ">".spec_bytes();
                    opening.len() <= html.len() && html.subrange(0, opening.len() as int) == opening
                },
                None => {
                    let opening = head + ">".spec_bytes();
                    opening.len() <= html.len() && html.subrange(0, opening.len() as int) == opening
                },
            }
        }),
{
    let html = inline_html_spec(Inline { span, kind: InlineKind::Link { url, title, children } }, ctx, map);
    let head = "<a href=\"".spec_bytes() + escaped(url_encoded(sbytes(url))) + "\"".spec_bytes();
    let rest = inlines_html(children@, ctx, map) + "</a>".spec_bytes();
    match title {
        Some(t) => {
            let opening = head + " title=\"".spec_bytes() + escaped(sbytes(t)) + "\"".spec_bytes() + ">".spec_bytes();
            assert(html =~= opening + rest);
        },
        None => {
            let opening = head + ">".spec_bytes();
            assert(html =~= opening + rest);
        },
    }
}

/// An image with a title carries it, escaped, as the `title` attribute after its `alt` text.
pub proof fn law_image_title_emitted(
    span: Span,
    url: String,
    t: String,
    alt: InlineSeq,
    ctx: RenderContext,
    map: Option<&SourceMap>,
)
    requires
        ctx != RenderContext::ReferenceText,
    ensures
        ({
            let html = inline_html_spec(Inline { span, kind: InlineKind::Image { url, title: Some(t), alt } }, ctx, map);
            let opening = "<img src=\"".spec_bytes() + escaped(url_encoded(sbytes(url))) + "\" alt=\"".spec_bytes()
                + escaped(inlines_text(alt@)) + "\"".spec_bytes() + " title=\"".spec_bytes() + escaped(sbytes(t))
                + "\"".spec_bytes() + " />".spec_bytes();
            html == opening
        }),
{
    let html = inline_html_spec(Inline { span, kind: InlineKind::Image { url, title: Some(t), alt } }, ctx, map);
    assert(html =~= "<img src=\"".spec_bytes() + escaped(url_encoded(sbytes(url))) + "\" alt=\"".spec_bytes()
        + escaped(inlines_text(alt@)) + "\"".spec_bytes() + " title=\"".spec_bytes() + escaped(sbytes(t))
        + "\"".spec_bytes() + " />".spec_bytes());
}

/// The `[label]` after a full reference link.
pub open spec fn ref_label_part(label: String, meta: LinkRefMeta) -> Seq<u8> {
    if meta.label_open_span is Some {
        "[".spec_bytes() + escaped(sbytes(label)) + "]".spec_bytes()
    } else {
        Seq::empty()
    }
}

pub open spec fn inline_html_spec(x: Inline, ctx: RenderContext, map: Option<&SourceMap>) -> Seq<u8>
    decreases x,
{
    match x.kind {
        InlineKind::Text(t) => match map {
            Some(m) => "<span".spec_bytes() + range_attr(m.spec_position(x.span.start), m.spec_position(x.span.end))
                + ">".spec_bytes() + escaped(sbytes(t)) + "</span>".spec_bytes(),
            None => escaped(sbytes(t)),
        },
        InlineKind::CodeSpan(t) => "<code>".spec_bytes() + escaped(sbytes(t)) + "</code>".spec_bytes(),
        InlineKind::SoftBreak => seq![10u8],
        InlineKind::HardBreak => "<br />\n".spec_bytes(),
        InlineKind::Ref { label, bracket, resolved } => {
            let name = escaped(sbytes(label.name));
            let display = match bracket {
                Some(b) => inlines_html(b@, RenderContext::ReferenceText, map),
                None => match resolved {
                    Some(ResolvedRef::Block { display: Some(d), .. }) => inlines_html(d@, RenderContext::ReferenceText, map),
                    _ => name,
                },
            };
            if ctx == RenderContext::ReferenceText {
                if resolved is Some {
                    "<span class=\"TypMark-delink\">".spec_bytes() + display + "</span>".spec_bytes()
                } else {
                    "<span class=\"TypMark-delink ref-unresolved\" data-ref-label=\"".spec_bytes() + name
                        + "\">".spec_bytes() + display + "</span>".spec_bytes()
                }
            } else if resolved is Some {
                "<a class=\"TypMark-ref\" href=\"#".spec_bytes() + name + "\">".spec_bytes() + display
                    + "</a>".spec_bytes()
            } else {
                "<span class=\"TypMark-ref ref-unresolved\" data-ref-label=\"".spec_bytes() + name
                    + "\">".spec_bytes() + display + "</span>".spec_bytes()
            }
        },
        InlineKind::Emph(c) => "<em>".spec_bytes() + inlines_html(c@, ctx, map) + "</em>".spec_bytes(),
        InlineKind::Strong(c) => "<strong>".spec_bytes() + inlines_html(c@, ctx, map) + "</strong>".spec_bytes(),
        InlineKind::Strikethrough(c) => "<del>".spec_bytes() + inlines_html(c@, ctx, map) + "</del>".spec_bytes(),
        InlineKind::Link { url, title, children } => if ctx == RenderContext::ReferenceText {
            "<span class=\"TypMark-delink\">".spec_bytes() + inlines_html(children@, RenderContext::ReferenceText, map)
                + "</span>".spec_bytes()
        } else {
            "<a href=\"".spec_bytes() + escaped(url_encoded(sbytes(url))) + "\"".spec_bytes() + title_attr(title)
                + ">".spec_bytes() + inlines_html(children@, ctx, map) + "</a>".spec_bytes()
        },
        InlineKind::LinkRef { label, children, meta } => "[".spec_bytes() + inlines_html(children@, ctx, map)
            + "]".spec_bytes() + ref_label_part(label, meta),
        InlineKind::Image { url, title, alt } => if ctx == RenderContext::ReferenceText {
            inlines_html(alt@, RenderContext::ReferenceText, map)
        } else {
            "<img src=\"".spec_bytes() + escaped(url_encoded(sbytes(url))) + "\" alt=\"".spec_bytes()
                + escaped(inlines_text(alt@)) + "\"".spec_bytes() + title_attr(title) + " />".spec_bytes()
        },
        InlineKind::ImageRef { label, alt, meta } => if ctx == RenderContext::ReferenceText {
            inlines_html(alt@, RenderContext::ReferenceText, map)
        } else {
            "![".spec_bytes() + inlines_html(alt@, ctx, map) + "]".spec_bytes() + ref_label_part(label, meta)
        },
        InlineKind::HtmlSpan { raw } => sbytes(raw),
        InlineKind::MathInline { typst_src } => "<span class=\"TypMark-math-inline--error\">".spec_bytes() + escaped(
            sbytes(typst_src),
        ) + "</span>".spec_bytes(),
    }
}

/// The HTML of inline nodes with rendered math, the counter at `cnt` before them.
pub open spec fn inlines_html_math(
    xs: Seq<Inline>,
    ctx: RenderContext,
    map: Option<&SourceMap>,
    mv: Seq<Option<String>>,
    cnt: int,
) -> Seq<u8>
    decreases xs,
{
    if xs.len() == 0 {
        Seq::empty()
    } else {
        inlines_html_math(xs.drop_last(), ctx, map, mv, cnt) + inline_html_math(
            xs.last(),
            ctx,
            map,
            mv,
            count_on(cnt, inlines_maths(xs.drop_last(), ctx).len() as int),
        )
    }
}

/// The HTML of an inline node in a context when the writer's math counter stands at `cnt` and
/// `mv` holds the rendered math: as `inline_html_spec`, but the `n`-th math node (from one)
/// shows its numbered SVG when `mv[n - 1]` is given, else its source as an error.
pub open spec fn inline_html_math(
    x: Inline,
    ctx: RenderContext,
    map: Option<&SourceMap>,
    mv: Seq<Option<String>>,
    cnt: int,
) -> Seq<u8>
    decreases x,
{
    match x.kind {
        InlineKind::Text(t) => match map {
            Some(m) => "<span".spec_bytes() + range_attr(m.spec_position(x.span.start), m.spec_position(x.span.end))
                + ">".spec_bytes() + escaped(sbytes(t)) + "</span>".spec_bytes(),
            None => escaped(sbytes(t)),
        },
        InlineKind::CodeSpan(t) => "<code>".spec_bytes() + escaped(sbytes(t)) + "</code>".spec_bytes(),
        InlineKind::SoftBreak => seq![10u8],
        InlineKind::HardBreak => "<br />\n".spec_bytes(),
        InlineKind::Ref { label, bracket, resolved } => {
            let name = escaped(sbytes(label.name));
            let display = match bracket {
                Some(b) => inlines_html_math(b@, RenderContext::ReferenceText, map, mv, cnt),
                None => match resolved {
                    Some(ResolvedRef::Block { display: Some(d), .. }) => inlines_html_math(d@, RenderContext::ReferenceText, map, mv, cnt),
                    _ => name,
                },
            };
            if ctx == RenderContext::ReferenceText {
                if resolved is Some {
                    "<span class=\"TypMark-delink\">".spec_bytes() + display + "</span>".spec_bytes()
                } else {
                    "<span class=\"TypMark-delink ref-unresolved\" data-ref-label=\"".spec_bytes() + name
                        + "\">".spec_bytes() + display + "</span>".spec_bytes()
                }
            } else if resolved is Some {
                "<a class=\"TypMark-ref\" href=\"#".spec_bytes() + name + "\">".spec_bytes() + display
                    + "</a>".spec_bytes()
            } else {
                "<span class=\"TypMark-ref ref-unresolved\" data-ref-label=\"".spec_bytes() + name
                    + "\">".spec_bytes() + display + "</span>".spec_bytes()
            }
        },
        InlineKind::Emph(c) => "<em>".spec_bytes() + inlines_html_math(c@, ctx, map, mv, cnt) + "</em>".spec_bytes(),
        InlineKind::Strong(c) => "<strong>".spec_bytes() + inlines_html_math(c@, ctx, map, mv, cnt) + "</strong>".spec_bytes(),
        InlineKind::Strikethrough(c) => "<del>".spec_bytes() + inlines_html_math(c@, ctx, map, mv, cnt) + "</del>".spec_bytes(),
        InlineKind::Link { url, title, children } => if ctx == RenderContext::ReferenceText {
            "<span class=\"TypMark-delink\">".spec_bytes() + inlines_html_math(children@, RenderContext::ReferenceText, map, mv, cnt)
                + "</span>".spec_bytes()
        } else {
            "<a href=\"".spec_bytes() + escaped(url_encoded(sbytes(url))) + "\"".spec_bytes() + title_attr(title)
                + ">".spec_bytes() + inlines_html_math(children@, ctx, map, mv, cnt) + "</a>".spec_bytes()
        },
        InlineKind::LinkRef { label, children, meta } => "[".spec_bytes() + inlines_html_math(children@, ctx, map, mv, cnt)
            + "]".spec_bytes() + ref_label_part(label, meta),
        InlineKind::Image { url, title, alt } => if ctx == RenderContext::ReferenceText {
            inlines_html_math(alt@, RenderContext::ReferenceText, map, mv, cnt)
        } else {
            "<img src=\"".spec_bytes() + escaped(url_encoded(sbytes(url))) + "\" alt=\"".spec_bytes()
                + escaped(inlines_text(alt@)) + "\"".spec_bytes() + title_attr(title) + " />".spec_bytes()
        },
        InlineKind::ImageRef { label, alt, meta } => if ctx == RenderContext::ReferenceText {
            inlines_html_math(alt@, RenderContext::ReferenceText, map, mv, cnt)
        } else {
            "![".spec_bytes() + inlines_html_math(alt@, ctx, map, mv, cnt) + "]".spec_bytes() + ref_label_part(label, meta)
        },
        InlineKind::HtmlSpan { raw } => sbytes(raw),
        InlineKind::MathInline { typst_src } => {
            let n = count_on(cnt, 1);
            if 1 <= n <= mv.len() && mv[n - 1] is Some {
                math_inline_html(numbered_svg(mv[n - 1]->0, n as nat))
            } else {
                math_inline_error_html(typst_src@)
            }
        },
    }
}

/// The plain text of inline nodes, as an `alt` text: text, code and math source, a newline
/// for a break, the display text of references and the text inside other nodes.
pub fn render_inlines_text(inlines: &[Inline], out: &mut Vec<u8>)
    ensures
        final(out)@ == old(out)@ + inlines_text(inlines@),
        grows(old(out)@, final(out)@),
    decreases inlines@,
{
    let mut i: usize = 0;
    proof {
        assert(inlines@.take(0) =~= Seq::<Inline>::empty());
    }
    while i < inlines.len()
        invariant
            i <= inlines@.len(),
            out@ == old(out)@ + inlines_text(inlines@.take(i as int)),
        decreases inlines.len() - i,
    {
        let x = &inlines[i];
        let ghost before = out@;
        match &x.kind {
            InlineKind::Text(t) => push_all(out, string_bytes(t)),
            InlineKind::CodeSpan(t) => push_all(out, string_bytes(t)),
            InlineKind::MathInline { typst_src } => push_all(out, string_bytes(typst_src)),
            InlineKind::SoftBreak => out.push(10u8),
            InlineKind::HardBreak => out.push(10u8),
            InlineKind::Ref { label, bracket, .. } => match bracket {
                Some(b) => render_inlines_text(b.as_slice(), out),
                None => push_all(out, string_bytes(&label.name)),
            },
            InlineKind::Emph(c) => render_inlines_text(c.as_slice(), out),
            InlineKind::Strong(c) => render_inlines_text(c.as_slice(), out),
            InlineKind::Strikethrough(c) => render_inlines_text(c.as_slice(), out),
            InlineKind::Link { children, .. } => render_inlines_text(children.as_slice(), out),
            InlineKind::LinkRef { children, .. } => render_inlines_text(children.as_slice(), out),
            InlineKind::Image { alt, .. } => render_inlines_text(alt.as_slice(), out),
            InlineKind::ImageRef { alt, .. } => render_inlines_text(alt.as_slice(), out),
            InlineKind::HtmlSpan { raw } => push_all(out, string_bytes(raw)),
        }
        proof {
            assert(out@ == before + inline_text(*x));
            assert(inlines@.take(i + 1).drop_last() == inlines@.take(i as int));
            assert(inlines@.take(i + 1).last() == *x);
        }
        i = i + 1;
    }
    proof {
        assert(inlines@.take(inlines@.len() as int) == inlines@);
    }
}

/// The rendering context of inline nodes: reference text drops links.
#[derive(Clone, Copy, PartialEq, Eq, Structural)]
pub enum RenderContext {
    Normal,
    Title,
    ReferenceText,
}

/// The output being built, with its indentation, the options, the math nodes seen so far (and
/// the rendered SVG of each, where given) and the source map for `data-tm-range` attributes.
pub struct HtmlWriter<'a> {
    pub out: Vec<u8>,
    pub indent: usize,
    pub options: HtmlEmitOptions,
    pub math_counter: usize,
    pub math: &'a [Option<String>],
    pub math_sources: Vec<(String, bool)>,
    pub source_map: Option<&'a SourceMap>,
}

impl<'a> HtmlWriter<'a> {
    /// What the writer carries over from `before`: its output so far, its options, its
    /// rendered math and its source map; and math numbers only grow.
    pub open spec fn extends(&self, before: HtmlWriter<'a>) -> bool {
        &&& grows(before.out@, self.out@)
        &&& self.options == before.options
        &&& self.math == before.math
        &&& self.source_map == before.source_map
        &&& self.math_counter >= before.math_counter
    }

    pub fn new(options: HtmlEmitOptions, math: &'a [Option<String>], source_map: Option<&'a SourceMap>) -> (w:
        HtmlWriter<'a>)
        ensures
            w.out@.len() == 0,
            w.indent == 0,
            w.options == options,
            w.math_counter == 0,
            w.math == math,
            w.source_map == source_map,
            w.math_sources@.len() == 0,
    {
        HtmlWriter {
            out: Vec::new(),
            indent: 0,
            options,
            math_counter: 0,
            math,
            math_sources: Vec::new(),
            source_map,
        }
    }

    /// Two spaces per level of indentation.
    pub fn push_indent(&mut self)
        ensures
            final(self).extends(*old(self)),
            final(self).indent == old(self).indent,
            final(self).math_counter == old(self).math_counter,
            final(self).math_sources@ == old(self).math_sources@,
            final(self).out@ == old(self).out@ + spaces(old(self).indent as nat),
    {
        let mut k: usize = 0;
        while k < self.indent
            invariant
                k <= self.indent,
                self.extends(*old(self)),
                self.indent == old(self).indent,
                self.math_counter == old(self).math_counter,
                self.math_sources@ == old(self).math_sources@,
                self.out@ == old(self).out@ + spaces(k as nat),
            decreases self.indent - k,
        {
            self.out.push(32u8);
            self.out.push(32u8);
            k = k + 1;
        }
    }

    /// An indented line.
    pub fn line(&mut self, line: &[u8])
        ensures
            final(self).extends(*old(self)),
            final(self).indent == old(self).indent,
            final(self).math_counter == old(self).math_counter,
            final(self).math_sources@ == old(self).math_sources@,
            final(self).out@ == old(self).out@ + line_at(old(self).indent, line@),
    {
        self.push_indent();
        push_all(&mut self.out, line);
        self.out.push(10u8);
    }

    /// The output, without its last newline.
    pub fn finish(self) -> (s: String)
        ensures
            s@ == lossy_decode(trim_line_end(self.out@)),
    {
        let mut out = self.out;
        if out.len() > 0 && out[out.len() - 1] == 10u8 {
            out.pop();
        }
        string_from_bytes(out.as_slice())
    }

    /// ` data-tm-range="l:c-l:c"` for a span, when a source map is given.
    pub fn push_range_attr(&self, buf: &mut Vec<u8>, span: Span)
        ensures
            grows(old(buf)@, final(buf)@),
            final(buf)@ == old(buf)@ + range_part(self.source_map, span),
            self.source_map is None ==> final(buf)@ == old(buf)@,
            self.source_map matches Some(m) ==> final(buf)@ == old(buf)@ + range_attr(
                m.spec_position(span.start),
                m.spec_position(span.end),
            ),
    {
        if let Some(map) = self.source_map {
            let r = map.range(span);
            let ghost o = buf@;
            push_str(buf, " data-tm-range=\"");
            push_decimal(buf, r.start.line as u64);
            push_str(buf, ":");
            push_decimal(buf, r.start.character as u64);
            push_str(buf, "-");
            push_decimal(buf, r.end.line as u64);
            push_str(buf, ":");
            push_decimal(buf, r.end.character as u64);
            push_str(buf, "\"");
            assert(buf@ =~= o + range_attr(r.start, r.end));
        }
    }

    /// The next math node: its SVG (rendered elsewhere, ids prefixed with `tm-m<n>`) or, when
    /// none was rendered, its source as the error text.
    pub fn next_math(&mut self, typst_src: &String, display: bool) -> (r: Result<String, String>)
        ensures
            final(self).extends(*old(self)),
            final(self).indent == old(self).indent,
            final(self).out@ == old(self).out@,
            old(self).math@.len() == 0 ==> (r matches Err(e) && e@ == typst_src@),
            final(self).math_counter == count_on(old(self).math_counter as int, 1),
            sources_view(final(self).math_sources@) == sources_view(old(self).math_sources@).push(
                (typst_src@, display),
            ),
            ({
                let n = final(self).math_counter as int;
                if 1 <= n <= old(self).math@.len() && old(self).math@[n - 1] is Some {
                    r matches Ok(t) && t@ == numbered_svg(old(self).math@[n - 1]->0, n as nat)
                } else {
                    r matches Err(e) && e@ == typst_src@
                }
            }),
    {
        self.math_counter = self.math_counter.saturating_add(1);
        let ghost before = self.math_sources@;
        self.math_sources.push((typst_src.clone(), display));
        proof {
            assert(sources_view(self.math_sources@) =~= sources_view(before).push((typst_src@, display)));
        }
        let n = self.math_counter;
        if n >= 1 && n - 1 < self.math.len() {
            if let Some(svg) = &self.math[n - 1] {
                let mut prefix: Vec<u8> = Vec::new();
                push_str(&mut prefix, "tm-m");
                push_decimal(&mut prefix, n as u64);
                proof {
                    lemma_str_valid("tm-m");
                    lemma_decimal_ascii(n as nat);
                    lemma_ascii_valid(decimal(n as nat));
                    lemma_cat("tm-m".spec_bytes(), decimal(n as nat));
                    vstd::utf8::decode_utf8_encode_utf8(prefix@);
                }
                let p = string_from_bytes(prefix.as_slice());
                return Ok(prefix_svg_ids(svg.as_str(), p.as_str()));
            }
        }
        Err(typst_src.clone())
    }
}

/// ` data-tm-range="l:c-l:c"`: zero-based lines and byte columns of a range.
pub open spec fn range_attr(start: Position, end: Position) -> Seq<u8> {
    " data-tm-range=\"".spec_bytes() + decimal(start.line as nat) + ":".spec_bytes() + decimal(start.character as nat)
        + "-".spec_bytes() + decimal(end.line as nat) + ":".spec_bytes() + decimal(end.character as nat)
        + "\"".spec_bytes()
}

/// Renders inline nodes to HTML in a context. Without math among them, the HTML is
/// `inlines_html`.
pub fn render_inlines_with_context(
    writer: &mut HtmlWriter,
    inlines: &[Inline],
    context: RenderContext,
    out: &mut Vec<u8>,
)
    ensures
        final(writer).extends(*old(writer)),
        final(writer).indent == old(writer).indent,
        final(writer).out@ == old(writer).out@,
        grows(old(out)@, final(out)@),
        (math_free(inlines@) || old(writer).math@.len() == 0) ==> final(out)@ == old(out)@ + inlines_html(inlines@, context, old(writer).source_map),
        final(writer).math_counter == count_on(
            old(writer).math_counter as int,
            inlines_maths(inlines@, context).len() as int,
        ),
        sources_view(final(writer).math_sources@) == sources_view(old(writer).math_sources@) + inlines_maths(
            inlines@,
            context,
        ),
        final(out)@ == old(out)@ + inlines_html_math(
            inlines@,
            context,
            old(writer).source_map,
            old(writer).math@,
            old(writer).math_counter as int,
        ),
    decreases inlines@, 1nat,
{
    let ghost map = writer.source_map;
    let mut i: usize = 0;
    proof {
        assert(inlines@.take(0) =~= Seq::<Inline>::empty());
        assert(sources_view(old(writer).math_sources@) + Seq::<(Seq<char>, bool)>::empty() =~= sources_view(
            old(writer).math_sources@,
        ));
    }
    while i < inlines.len()
        invariant
            i <= inlines@.len(),
            writer.math_counter == count_on(
                old(writer).math_counter as int,
                inlines_maths(inlines@.take(i as int), context).len() as int,
            ),
            sources_view(writer.math_sources@) == sources_view(old(writer).math_sources@) + inlines_maths(
                inlines@.take(i as int),
                context,
            ),
            out@ == old(out)@ + inlines_html_math(
                inlines@.take(i as int),
                context,
                old(writer).source_map,
                old(writer).math@,
                old(writer).math_counter as int,
            ),
            writer.extends(*old(writer)),
            writer.indent == old(writer).indent,
            writer.out@ == old(writer).out@,
            grows(old(out)@, out@),
            map == old(writer).source_map,
            (math_free(inlines@) || old(writer).math@.len() == 0) ==> out@ == old(out)@ + inlines_html(inlines@.take(i as int), context, map),
        decreases inlines.len() - i,
    {
        proof {
            assert(decreases_to!(inlines@ => inlines@[i as int]));
            assert(math_free(inlines@) ==> math_free_one(inlines@[i as int]));
        }
        let ghost before = out@;
        render_inline(writer, &inlines[i], context, out);
        proof {
            assert(inlines@.take(i + 1).drop_last() == inlines@.take(i as int));
            assert(inlines@.take(i + 1).last() == inlines@[i as int]);
            assert(sources_view(old(writer).math_sources@) + inlines_maths(inlines@.take(i + 1), context)
                =~= sources_view(old(writer).math_sources@) + inlines_maths(inlines@.take(i as int), context)
                + inline_maths(inlines@[i as int], context));
            assert(out@ =~= old(out)@ + inlines_html_math(
                inlines@.take(i + 1),
                context,
                old(writer).source_map,
                old(writer).math@,
                old(writer).math_counter as int,
            ));
        }
        i = i + 1;
    }
    proof {
        assert(inlines@.take(inlines@.len() as int) == inlines@);
    }
}

/// Renders one inline node to HTML in a context; without math in it, the HTML is
/// `inline_html_spec`.
#[verifier::spinoff_prover]
#[verifier::rlimit(100)]
fn render_inline(writer: &mut HtmlWriter, x: &Inline, context: RenderContext, out: &mut Vec<u8>)
    ensures
        final(writer).extends(*old(writer)),
        final(writer).indent == old(writer).indent,
        final(writer).out@ == old(writer).out@,
        grows(old(out)@, final(out)@),
        (math_free_one(*x) || old(writer).math@.len() == 0) ==> final(out)@ == old(out)@ + inline_html_spec(*x, context, old(writer).source_map),
        final(writer).math_counter == count_on(
            old(writer).math_counter as int,
            inline_maths(*x, context).len() as int,
        ),
        sources_view(final(writer).math_sources@) == sources_view(old(writer).math_sources@) + inline_maths(
            *x,
            context,
        ),
        final(out)@ == old(out)@ + inline_html_math(
            *x,
            context,
            old(writer).source_map,
            old(writer).math@,
            old(writer).math_counter as int,
        ),
    decreases *x, 1nat,
{
    let ghost map = writer.source_map;
    let ghost o = out@;
    let ghost mv = writer.math@;
    let ghost c0 = writer.math_counter as int;
    proof {
        assert(sources_view(old(writer).math_sources@) + Seq::<(Seq<char>, bool)>::empty() =~= sources_view(
            old(writer).math_sources@,
        ));
    }
    match &x.kind {
        InlineKind::Text(text) => {
            if writer.source_map.is_some() {
                push_str(out, "<span");
                writer.push_range_attr(out, x.span);
                push_str(out, ">");
                push_escaped(out, string_bytes(text));
                push_str(out, "</span>");
            } else {
                push_escaped(out, string_bytes(text));
            }
            assert(out@ =~= o + inline_html_spec(*x, context, map));
            assert(out@ =~= o + inline_html_math(*x, context, map, mv, c0));
        },
        InlineKind::CodeSpan(text) => {
            push_str(out, "<code>");
            push_escaped(out, string_bytes(text));
            push_str(out, "</code>");
            assert(out@ =~= o + inline_html_spec(*x, context, map));
            assert(out@ =~= o + inline_html_math(*x, context, map, mv, c0));
        },
        InlineKind::MathInline { typst_src } => {
            render_math_inline(writer, typst_src, out);
            proof {
                assert(sources_view(old(writer).math_sources@).push((typst_src@, false)) =~= sources_view(
                    old(writer).math_sources@,
                ) + seq![(typst_src@, false)]);
                if old(writer).math@.len() == 0 {
                    assert(out@ =~= o + inline_html_spec(*x, context, map));
            assert(out@ =~= o + inline_html_math(*x, context, map, mv, c0));
                }
            }
        },
        InlineKind::SoftBreak => {
            out.push(10u8);
            assert(out@ =~= o + inline_html_spec(*x, context, map));
            assert(out@ =~= o + inline_html_math(*x, context, map, mv, c0));
        },
        InlineKind::HardBreak => {
            push_str(out, "<br />\n");
            assert(out@ =~= o + inline_html_spec(*x, context, map));
            assert(out@ =~= o + inline_html_math(*x, context, map, mv, c0));
        },
        InlineKind::Ref { .. } => {
            render_ref(writer, x, context, out);
        },
        InlineKind::Emph(_) | InlineKind::Strong(_) | InlineKind::Strikethrough(_) => {
            render_emphasis(writer, x, context, out);
        },
        InlineKind::Link { .. } | InlineKind::LinkRef { .. } => {
            render_link(writer, x, context, out);
        },
        InlineKind::Image { .. } | InlineKind::ImageRef { .. } => {
            render_image(writer, x, context, out);
        },
        InlineKind::HtmlSpan { raw } => {
            push_all(out, string_bytes(raw));
            assert(out@ =~= o + inline_html_spec(*x, context, map));
            assert(out@ =~= o + inline_html_math(*x, context, map, mv, c0));
        },
    }
}

/// The HTML of a rendered inline math SVG: the SVG in a wrapper, after an empty strut span.
pub open spec fn math_inline_html(svg: Seq<char>) -> Seq<u8> {
    "<span class=\"TypMark-math-inline\"><span class=\"TypMark-math-inline-strut\"></span>".spec_bytes()
        + encode_utf8(svg) + "</span>".spec_bytes()
}

/// The HTML of inline math whose SVG is missing: its source, escaped, marked as an error.
pub open spec fn math_inline_error_html(source: Seq<char>) -> Seq<u8> {
    "<span class=\"TypMark-math-inline--error\">".spec_bytes() + escaped(encode_utf8(source))
        + "</span>".spec_bytes()
}

/// Renders inline math as the next math node: its numbered SVG when one was rendered for it,
/// else its source as an error.
fn render_math_inline(writer: &mut HtmlWriter, typst_src: &String, out: &mut Vec<u8>)
    ensures
        final(writer).extends(*old(writer)),
        final(writer).indent == old(writer).indent,
        final(writer).out@ == old(writer).out@,
        grows(old(out)@, final(out)@),
        final(writer).math_counter == count_on(old(writer).math_counter as int, 1),
        sources_view(final(writer).math_sources@) == sources_view(old(writer).math_sources@).push(
            (typst_src@, false),
        ),
        ({
            let n = final(writer).math_counter as int;
            if 1 <= n <= old(writer).math@.len() && old(writer).math@[n - 1] is Some {
                final(out)@ == old(out)@ + math_inline_html(numbered_svg(old(writer).math@[n - 1]->0, n as nat))
            } else {
                final(out)@ == old(out)@ + math_inline_error_html(typst_src@)
            }
        }),
{
    let ghost o = out@;
    match writer.next_math(typst_src, false) {
        Ok(svg) => {
            push_str(out, "<span class=\"TypMark-math-inline\"><span class=\"TypMark-math-inline-strut\"></span>");
            push_all(out, string_bytes(&svg));
            push_str(out, "</span>");
            assert(out@ =~= o + math_inline_html(svg@));
        },
        Err(source) => {
            push_str(out, "<span class=\"TypMark-math-inline--error\">");
            push_escaped(out, string_bytes(&source));
            push_str(out, "</span>");
            assert(out@ =~= o + math_inline_error_html(source@));
        },
    }
}

/// Renders emphasis, strong emphasis or struck-through text.
#[verifier::spinoff_prover]
#[verifier::rlimit(100)]
fn render_emphasis(writer: &mut HtmlWriter, x: &Inline, context: RenderContext, out: &mut Vec<u8>)
    requires
        x.kind is Emph || x.kind is Strong || x.kind is Strikethrough,
    ensures
        final(writer).extends(*old(writer)),
        final(writer).indent == old(writer).indent,
        final(writer).out@ == old(writer).out@,
        grows(old(out)@, final(out)@),
        (math_free_one(*x) || old(writer).math@.len() == 0) ==> final(out)@ == old(out)@ + inline_html_spec(*x, context, old(writer).source_map),
        final(writer).math_counter == count_on(
            old(writer).math_counter as int,
            inline_maths(*x, context).len() as int,
        ),
        sources_view(final(writer).math_sources@) == sources_view(old(writer).math_sources@) + inline_maths(
            *x,
            context,
        ),
        final(out)@ == old(out)@ + inline_html_math(
            *x,
            context,
            old(writer).source_map,
            old(writer).math@,
            old(writer).math_counter as int,
        ),
    decreases *x, 0nat,
{
    let ghost map = writer.source_map;
    let ghost o = out@;
    let ghost mv = writer.math@;
    let ghost c0 = writer.math_counter as int;
    proof {
        assert(sources_view(old(writer).math_sources@) + Seq::<(Seq<char>, bool)>::empty() =~= sources_view(
            old(writer).math_sources@,
        ));
    }
    match &x.kind {
        InlineKind::Emph(children) => {
            push_str(out, "<em>");
            render_inlines_with_context(writer, children.as_slice(), context, out);
            push_str(out, "</em>");
            assert((math_free_one(*x) || old(writer).math@.len() == 0) ==> out@ =~= o + inline_html_spec(*x, context, map));
            assert(out@ =~= o + inline_html_math(*x, context, map, mv, c0));
        },
        InlineKind::Strong(children) => {
            push_str(out, "<strong>");
            render_inlines_with_context(writer, children.as_slice(), context, out);
            push_str(out, "</strong>");
            assert((math_free_one(*x) || old(writer).math@.len() == 0) ==> out@ =~= o + inline_html_spec(*x, context, map));
            assert(out@ =~= o + inline_html_math(*x, context, map, mv, c0));
        },
        InlineKind::Strikethrough(children) => {
            push_str(out, "<del>");
            render_inlines_with_context(writer, children.as_slice(), context, out);
            push_str(out, "</del>");
            assert((math_free_one(*x) || old(writer).math@.len() == 0) ==> out@ =~= o + inline_html_spec(*x, context, map));
            assert(out@ =~= o + inline_html_math(*x, context, map, mv, c0));
        },
        _ => {},
    }
}

/// Renders a link or a reference link.
#[verifier::spinoff_prover]
#[verifier::rlimit(100)]
fn render_link(writer: &mut HtmlWriter, x: &Inline, context: RenderContext, out: &mut Vec<u8>)
    requires
        x.kind is Link || x.kind is LinkRef,
    ensures
        final(writer).extends(*old(writer)),
        final(writer).indent == old(writer).indent,
        final(writer).out@ == old(writer).out@,
        grows(old(out)@, final(out)@),
        (math_free_one(*x) || old(writer).math@.len() == 0) ==> final(out)@ == old(out)@ + inline_html_spec(*x, context, old(writer).source_map),
        final(writer).math_counter == count_on(
            old(writer).math_counter as int,
            inline_maths(*x, context).len() as int,
        ),
        sources_view(final(writer).math_sources@) == sources_view(old(writer).math_sources@) + inline_maths(
            *x,
            context,
        ),
        final(out)@ == old(out)@ + inline_html_math(
            *x,
            context,
            old(writer).source_map,
            old(writer).math@,
            old(writer).math_counter as int,
        ),
    decreases *x, 0nat,
{
    let ghost map = writer.source_map;
    let ghost o = out@;
    let ghost mv = writer.math@;
    let ghost c0 = writer.math_counter as int;
    proof {
        assert(sources_view(old(writer).math_sources@) + Seq::<(Seq<char>, bool)>::empty() =~= sources_view(
            old(writer).math_sources@,
        ));
    }
    match &x.kind {
        InlineKind::Link { url, title, children } => {
            if context == RenderContext::ReferenceText {
                push_str(out, "<span class=\"TypMark-delink\">");
                render_inlines_with_context(writer, children.as_slice(), RenderContext::ReferenceText, out);
                push_str(out, "</span>");
            } else {
                push_str(out, "<a href=\"");
                push_all(out, escape_url_attr(url.as_str()).as_slice());
                push_str(out, "\"");
                push_title_attr(out, title);
                push_str(out, ">");
                render_inlines_with_context(writer, children.as_slice(), context, out);
                push_str(out, "</a>");
            }
            assert((math_free_one(*x) || old(writer).math@.len() == 0) ==> out@ =~= o + inline_html_spec(*x, context, map));
            assert(out@ =~= o + inline_html_math(*x, context, map, mv, c0));
        },
        InlineKind::LinkRef { label, children, meta } => {
            push_str(out, "[");
            render_inlines_with_context(writer, children.as_slice(), context, out);
            push_str(out, "]");
            push_ref_label_part(out, label, meta);
            assert((math_free_one(*x) || old(writer).math@.len() == 0) ==> out@ =~= o + inline_html_spec(*x, context, map));
            assert(out@ =~= o + inline_html_math(*x, context, map, mv, c0));
        },
        _ => {},
    }
}

/// Renders an image or a reference image.
#[verifier::spinoff_prover]
#[verifier::rlimit(100)]
fn render_image(writer: &mut HtmlWriter, x: &Inline, context: RenderContext, out: &mut Vec<u8>)
    requires
        x.kind is Image || x.kind is ImageRef,
    ensures
        final(writer).extends(*old(writer)),
        final(writer).indent == old(writer).indent,
        final(writer).out@ == old(writer).out@,
        grows(old(out)@, final(out)@),
        (math_free_one(*x) || old(writer).math@.len() == 0) ==> final(out)@ == old(out)@ + inline_html_spec(*x, context, old(writer).source_map),
        final(writer).math_counter == count_on(
            old(writer).math_counter as int,
            inline_maths(*x, context).len() as int,
        ),
        sources_view(final(writer).math_sources@) == sources_view(old(writer).math_sources@) + inline_maths(
            *x,
            context,
        ),
        final(out)@ == old(out)@ + inline_html_math(
            *x,
            context,
            old(writer).source_map,
            old(writer).math@,
            old(writer).math_counter as int,
        ),
    decreases *x, 0nat,
{
    let ghost map = writer.source_map;
    let ghost o = out@;
    let ghost mv = writer.math@;
    let ghost c0 = writer.math_counter as int;
    proof {
        assert(sources_view(old(writer).math_sources@) + Seq::<(Seq<char>, bool)>::empty() =~= sources_view(
            old(writer).math_sources@,
        ));
    }
    match &x.kind {
        InlineKind::Image { url, title, alt } => {
            if context == RenderContext::ReferenceText {
                render_inlines_with_context(writer, alt.as_slice(), RenderContext::ReferenceText, out);
            } else {
                push_str(out, "<img src=\"");
                push_all(out, escape_url_attr(url.as_str()).as_slice());
                push_str(out, "\" alt=\"");
                let mut alt_text: Vec<u8> = Vec::new();
                render_inlines_text(alt.as_slice(), &mut alt_text);
                push_escaped(out, alt_text.as_slice());
                push_str(out, "\"");
                push_title_attr(out, title);
                push_str(out, " />");
            }
            assert((math_free_one(*x) || old(writer).math@.len() == 0) ==> out@ =~= o + inline_html_spec(*x, context, map));
            assert(out@ =~= o + inline_html_math(*x, context, map, mv, c0));
        },
        InlineKind::ImageRef { label, alt, meta } => {
            if context == RenderContext::ReferenceText {
                render_inlines_with_context(writer, alt.as_slice(), RenderContext::ReferenceText, out);
            } else {
                push_str(out, "![");
                render_inlines_with_context(writer, alt.as_slice(), context, out);
                push_str(out, "]");
                push_ref_label_part(out, label, meta);
            }
            assert((math_free_one(*x) || old(writer).math@.len() == 0) ==> out@ =~= o + inline_html_spec(*x, context, map));
            assert(out@ =~= o + inline_html_math(*x, context, map, mv, c0));
        },
        _ => {},
    }
}

/// Appends ` title="..."` when there is a title.
fn push_title_attr(out: &mut Vec<u8>, title: &Option<String>)
    ensures
        final(out)@ == old(out)@ + title_attr(*title),
        *title matches Some(t) ==> final(out)@ == old(out)@ + " title=\"".spec_bytes() + escaped(sbytes(t))
            + "\"".spec_bytes(),
        *title is None ==> final(out)@ == old(out)@,
{
    if let Some(t) = title {
        push_str(out, " title=\"");
        push_escaped(out, string_bytes(t));
        push_str(out, "\"");
    } else {
        assert(out@ =~= old(out)@ + title_attr(*title));
    }
}

/// Appends the `[label]` of a full reference link.
fn push_ref_label_part(out: &mut Vec<u8>, label: &String, meta: &LinkRefMeta)
    ensures
        final(out)@ == old(out)@ + ref_label_part(*label, *meta),
{
    if meta.label_open_span.is_some() {
        push_str(out, "[");
        push_escaped(out, string_bytes(label));
        push_str(out, "]");
    } else {
        assert(out@ =~= old(out)@ + ref_label_part(*label, *meta));
    }
}

/// A reference: a link to its target when resolved, a marked span otherwise; its display is
/// the bracketed text, else the resolved display text, else the label.
#[verifier::spinoff_prover]
#[verifier::rlimit(100)]
pub fn render_ref(writer: &mut HtmlWriter, node: &Inline, context: RenderContext, out: &mut Vec<u8>)
    ensures
        final(writer).extends(*old(writer)),
        final(writer).indent == old(writer).indent,
        final(writer).out@ == old(writer).out@,
        grows(old(out)@, final(out)@),
        node.kind is Ref && (math_free_one(*node) || old(writer).math@.len() == 0) ==> final(out)@ == old(out)@ + inline_html_spec(
            *node,
            context,
            old(writer).source_map,
        ),
        node.kind is Ref ==> final(writer).math_counter == count_on(
            old(writer).math_counter as int,
            inline_maths(*node, context).len() as int,
        ),
        node.kind is Ref ==> sources_view(final(writer).math_sources@) == sources_view(old(writer).math_sources@)
            + inline_maths(*node, context),
        node.kind is Ref ==> final(out)@ == old(out)@ + inline_html_math(
            *node,
            context,
            old(writer).source_map,
            old(writer).math@,
            old(writer).math_counter as int,
        ),
    decreases *node, 0nat,
{
    let ghost map = writer.source_map;
    proof {
        assert(sources_view(old(writer).math_sources@) + Seq::<(Seq<char>, bool)>::empty() =~= sources_view(
            old(writer).math_sources@,
        ));
    }
    if let InlineKind::Ref { label, bracket, resolved } = &node.kind {
        let mut display: Vec<u8> = Vec::new();
        match bracket {
            Some(b) => render_inlines_with_context(
                writer,
                b.as_slice(),
                RenderContext::ReferenceText,
                &mut display,
            ),
            None => match resolved {
                Some(ResolvedRef::Block { display: Some(text), .. }) => render_inlines_with_context(
                    writer,
                    text.as_slice(),
                    RenderContext::ReferenceText,
                    &mut display,
                ),
                _ => push_escaped(&mut display, string_bytes(&label.name)),
            },
        }
        let ghost o = out@;
        if context == RenderContext::ReferenceText {
            if resolved.is_some() {
                push_str(out, "<span class=\"TypMark-delink\">");
            } else {
                push_str(out, "<span class=\"TypMark-delink ref-unresolved\" data-ref-label=\"");
                push_escaped(out, string_bytes(&label.name));
                push_str(out, "\">");
            }
            push_all(out, display.as_slice());
            push_str(out, "</span>");
        } else if resolved.is_some() {
            push_str(out, "<a class=\"TypMark-ref\" href=\"#");
            push_escaped(out, string_bytes(&label.name));
            push_str(out, "\">");
            push_all(out, display.as_slice());
            push_str(out, "</a>");
        } else {
            push_str(out, "<span class=\"TypMark-ref ref-unresolved\" data-ref-label=\"");
            push_escaped(out, string_bytes(&label.name));
            push_str(out, "\">");
            push_all(out, display.as_slice());
            push_str(out, "</span>");
        }
        proof {
            if math_free_one(*node) || old(writer).math@.len() == 0 {
                assert(out@ =~= o + inline_html_spec(*node, context, map));
            }
            assert(out@ =~= o + inline_html_math(*node, context, map, old(writer).math@, old(writer).math_counter as int));
        }
    }
}

/// Renders inline nodes of a block (Normal or Title context) into a fresh buffer.
fn inline_html(writer: &mut HtmlWriter, inlines: &[Inline], context: RenderContext) -> (r: Vec<u8>)
    ensures
        final(writer).extends(*old(writer)),
        final(writer).indent == old(writer).indent,
        met(*final(writer), *old(writer), inlines_maths(inlines@, context)),
        final(writer).out@ == old(writer).out@,
        (math_free(inlines@) || old(writer).math@.len() == 0) ==> r@ == inlines_html(inlines@, context, old(writer).source_map),
        r@ == inlines_html_math(
            inlines@,
            context,
            old(writer).source_map,
            old(writer).math@,
            old(writer).math_counter as int,
        ),
{
    let mut buf: Vec<u8> = Vec::new();
    render_inlines_with_context(writer, inlines, context, &mut buf);
    assert(buf@ =~= Seq::<u8>::empty() + inlines_html_math(
        inlines@,
        context,
        writer.source_map,
        old(writer).math@,
        old(writer).math_counter as int,
    ));
    buf
}

/// The HTML line of a paragraph with rendered math, the writer's counter at `c` before it.
pub open spec fn paragraph_html_math(
    b: Block,
    indent: usize,
    map: Option<&SourceMap>,
    mv: Seq<Option<String>>,
    c: int,
) -> Seq<u8> {
    line_at(
        indent,
        "<p".spec_bytes() + attrs_html(b.attrs.label, b.attrs.items@) + range_part(map, b.span) + seq![62u8]
            + inlines_html_math(b.kind->Paragraph_content@, RenderContext::Normal, map, mv, c) + "</p>".spec_bytes(),
    )
}

/// The HTML line of a display math block, the writer's counter at `c` before it: the `n`-th
/// math node's numbered SVG when `mv[n - 1]` is given, else its source as an error.
pub open spec fn math_block_html_math(
    b: Block,
    indent: usize,
    map: Option<&SourceMap>,
    mv: Seq<Option<String>>,
    c: int,
) -> Seq<u8> {
    let n = count_on(c, 1);
    let attrs = attrs_html(b.attrs.label, b.attrs.items@) + range_part(map, b.span);
    if 1 <= n <= mv.len() && mv[n - 1] is Some {
        line_at(
            indent,
            "<div class=\"TypMark-math-block\"".spec_bytes() + attrs + seq![62u8] + encode_utf8(
                numbered_svg(mv[n - 1]->0, n as nat),
            ) + "</div>".spec_bytes(),
        )
    } else {
        line_at(
            indent,
            "<div class=\"TypMark-math-block--error\"".spec_bytes() + attrs + seq![62u8] + escaped(
                sbytes(b.kind->MathBlock_typst_src),
            ) + "</div>".spec_bytes(),
        )
    }
}

/// The label a reference points to.
pub open spec fn deref_label(label: Option<&Label>) -> Option<Label> {
    match label {
        Some(l) => Some(*l),
        None => None,
    }
}

/// `<hN attrs>title</hN>` as one line.
fn heading_line(writer: &mut HtmlWriter, level: u8, block: &Block, label: Option<&Label>, title: &[Inline], with_attrs: bool)
    ensures
        final(writer).extends(*old(writer)),
        final(writer).indent == old(writer).indent,
        met(*final(writer), *old(writer), inlines_maths(title@, RenderContext::Title)),
        (math_free(title@) || old(writer).math@.len() == 0) ==> final(writer).out@ == old(writer).out@ + line_at(
            old(writer).indent,
            heading_html(
                level,
                if with_attrs {
                    attrs_html(deref_label(label), block.attrs.items@) + range_part(old(writer).source_map, block.span)
                } else {
                    Seq::empty()
                },
                title@,
                old(writer).source_map,
            ),
        ),
{
    let title_html = inline_html(writer, title, RenderContext::Title);
    let mut buf: Vec<u8> = Vec::new();
    push_str(&mut buf, "<h");
    push_decimal(&mut buf, level as u64);
    if with_attrs {
        push_block_attrs(&mut buf, label, block.attrs.items.as_slice());
        writer.push_range_attr(&mut buf, block.span);
    }
    buf.push(62u8);
    push_all(&mut buf, title_html.as_slice());
    push_str(&mut buf, "</h");
    push_decimal(&mut buf, level as u64);
    buf.push(62u8);
    writer.line(buf.as_slice());
}

/// `<tag attrs>` as one line, the block's label and items as attributes.
fn open_tag_line(writer: &mut HtmlWriter, tag: &str, block: &Block)
    ensures
        final(writer).extends(*old(writer)),
        final(writer).indent == old(writer).indent,
        met(*final(writer), *old(writer), Seq::empty()),
        final(writer).out@ == old(writer).out@ + line_at(
            old(writer).indent,
            seq![60u8] + tag.spec_bytes() + attrs_html(block.attrs.label, block.attrs.items@) + range_part(
                old(writer).source_map,
                block.span,
            ) + seq![62u8],
        ),
{
    let mut buf: Vec<u8> = Vec::new();
    buf.push(60u8);
    push_str(&mut buf, tag);
    push_block_attrs(&mut buf, block.attrs.label.as_ref(), block.attrs.items.as_slice());
    writer.push_range_attr(&mut buf, block.span);
    buf.push(62u8);
    writer.line(buf.as_slice());
}

/// The blocks nested directly in a section, a quote or a box.
pub open spec fn nested_blocks(b: Block) -> Seq<Block> {
    match b.kind {
        BlockKind::Section { children, .. } => children@,
        BlockKind::BlockQuote { blocks } => blocks@,
        BlockKind::Box(bx) => bx.blocks@,
        _ => Seq::empty(),
    }
}

proof fn lemma_nested_decreases(block: Block, i: int)
    requires
        0 <= i < nested_blocks(block).len(),
    ensures
        decreases_to!(block => nested_blocks(block)[i]),
{
    assert(decreases_to!(block => block.kind));
    match block.kind {
        BlockKind::Section { children, .. } => {
            assert(decreases_to!(block.kind => children));
            assert(decreases_to!(children => children@));
            assert(decreases_to!(children@ => children@[i]));
        },
        BlockKind::BlockQuote { blocks } => {
            assert(decreases_to!(block.kind => blocks));
            assert(decreases_to!(blocks => blocks@));
            assert(decreases_to!(blocks@ => blocks@[i]));
        },
        BlockKind::Box(bx) => {
            assert(decreases_to!(block.kind => bx));
            assert(decreases_to!(bx => bx.blocks));
            assert(decreases_to!(bx.blocks => bx.blocks@));
            assert(decreases_to!(bx.blocks@ => bx.blocks@[i]));
        },
        _ => {},
    }
}

/// The HTML of the first `i + 1` blocks is that of the first `i` and then the next one.
proof fn lemma_blocks_html_step(bs: Seq<Block>, i: int, indent: usize, opts: HtmlEmitOptions, map: Option<&SourceMap>)
    requires
        0 <= i < bs.len(),
    ensures
        blocks_html(bs.take(i + 1), indent, opts, map) == blocks_html(bs.take(i), indent, opts, map) + block_html(
            bs[i],
            indent,
            opts,
            map,
        ),
{
    assert(bs.take(i + 1).drop_last() =~= bs.take(i));
    assert(bs.take(i + 1).last() == bs[i]);
}

/// Emits the blocks nested in a section, a quote or a box, one level deeper than `indent0`
/// (two for a box).
#[verifier::loop_isolation(false)]
#[verifier::spinoff_prover]
#[verifier::rlimit(100)]
fn emit_nested(writer: &mut HtmlWriter, block: &Block, blocks: &Vec<Block>)
    requires
        blocks@ == nested_blocks(*block),
    ensures
        final(writer).extends(*old(writer)),
        final(writer).indent == old(writer).indent,
        met(*final(writer), *old(writer), blocks_maths(blocks@)),
        (plain_blocks(blocks@) || old(writer).math@.len() == 0) ==> final(writer).out@ == old(writer).out@ + blocks_html(
            blocks@,
            old(writer).indent,
            old(writer).options,
            old(writer).source_map,
        ),
    decreases *block, 0nat,
{
    let mut i: usize = 0;
    proof {
        lemma_met_none(*old(writer), *writer);
        assert(blocks@.take(0) =~= Seq::<Block>::empty());
    }
    while i < blocks.len()
        invariant
            i <= blocks@.len(),
            met(*writer, *old(writer), blocks_maths(blocks@.take(i as int))),
            writer.extends(*old(writer)),
            writer.indent == old(writer).indent,
            (plain_blocks(blocks@) || old(writer).math@.len() == 0) ==> writer.out@ == old(writer).out@ + blocks_html(
                blocks@.take(i as int),
                old(writer).indent,
                old(writer).options,
                old(writer).source_map,
            ),
        decreases blocks.len() - i,
    {
        proof {
            lemma_nested_decreases(*block, i as int);
            lemma_blocks_html_step(
                blocks@,
                i as int,
                old(writer).indent,
                old(writer).options,
                old(writer).source_map,
            );
            if plain_blocks(blocks@) || old(writer).math@.len() == 0 {
                assert(plain_block(blocks@[i as int]) || old(writer).math@.len() == 0);
            }
        }
        let ghost w1 = *writer;
        emit_block(writer, &blocks[i]);
        proof {
            lemma_met_then(*old(writer), w1, *writer, blocks_maths(blocks@.take(i as int)), block_maths(blocks@[i as int]));
            assert(blocks@.take(i + 1).drop_last() =~= blocks@.take(i as int));
        }
        i = i + 1;
    }
    proof {
        assert(blocks@.take(blocks@.len() as int) =~= blocks@);
    }
}

/// Emits a section: wrapped in `<section>` with its heading inside, or its heading (with the
/// section's label and attributes) followed by its blocks.
#[verifier::spinoff_prover]
#[verifier::rlimit(60)]
fn emit_section(writer: &mut HtmlWriter, block: &Block)
    requires
        block.kind is Section,
    ensures
        final(writer).extends(*old(writer)),
        final(writer).indent == old(writer).indent,
        met(*final(writer), *old(writer), block_maths(*block)),
        (plain_block(*block) || old(writer).math@.len() == 0) ==> final(writer).out@ == old(writer).out@ + block_html(
            *block,
            old(writer).indent,
            old(writer).options,
            old(writer).source_map,
        ),
    decreases *block, 5nat,
{
    let indent0 = writer.indent;
    let ghost map = writer.source_map;
    let ghost opts = writer.options;
    let ghost o0 = writer.out@;
    if let BlockKind::Section { level, title, label, children } = &block.kind {
        let lref = label.as_ref();
        proof {
            assert(deref_label(lref) == *label);
        }
        if writer.options.wrap_sections {
            let mut buf: Vec<u8> = Vec::new();
            push_str(&mut buf, "<section");
            push_block_attrs(&mut buf, lref, block.attrs.items.as_slice());
            writer.push_range_attr(&mut buf, block.span);
            buf.push(62u8);
            proof {
                assert(buf@ =~= "<section".spec_bytes() + attrs_html(*label, block.attrs.items@) + range_part(
                    map,
                    block.span,
                ) + seq![62u8]);
            }
            writer.line(buf.as_slice());
            let ghost o1 = writer.out@;
            writer.indent = indent0.saturating_add(1);
            let ghost wa = *writer;
            heading_line(writer, *level, block, None, title.as_slice(), false);
            let ghost o2 = writer.out@;
            let ghost wb = *writer;
            emit_nested(writer, block, children);
            let ghost o3 = writer.out@;
            proof {
                assert(met(wb, *old(writer), inlines_maths(title@, RenderContext::Title)));
                lemma_met_then(*old(writer), wb, *writer, inlines_maths(title@, RenderContext::Title), blocks_maths(children@));
            }
            writer.indent = indent0;
            writer.line("</section>".as_bytes());
            proof {
                if plain_block(*block) || old(writer).math@.len() == 0 {
                    let h = line_at(deeper(indent0), heading_html(*level, Seq::empty(), title@, map));
                    let c = blocks_html(children@, deeper(indent0), opts, map);
                    assert(o2 == o1 + h);
                    assert(o3 == o2 + c);
                    assert(writer.out@ =~= o0 + (line_at(indent0, buf@) + h + c + line_at(
                        indent0,
                        "</section>".spec_bytes(),
                    )));
                }
            }
        } else {
            heading_line(writer, *level, block, lref, title.as_slice(), true);
            let ghost o1 = writer.out@;
            let ghost wb = *writer;
            emit_nested(writer, block, children);
            proof {
                lemma_met_then(*old(writer), wb, *writer, inlines_maths(title@, RenderContext::Title), blocks_maths(children@));
            }
            proof {
                if plain_block(*block) || old(writer).math@.len() == 0 {
                    let h = line_at(
                        indent0,
                        heading_html(
                            *level,
                            attrs_html(*label, block.attrs.items@) + range_part(map, block.span),
                            title@,
                            map,
                        ),
                    );
                    assert(o1 == o0 + h);
                    assert(writer.out@ =~= o0 + (h + blocks_html(children@, indent0, opts, map)));
                }
            }
        }
    }
}

/// Emits a block quote around its blocks.
fn emit_quote(writer: &mut HtmlWriter, block: &Block)
    requires
        block.kind is BlockQuote,
    ensures
        final(writer).extends(*old(writer)),
        final(writer).indent == old(writer).indent,
        met(*final(writer), *old(writer), block_maths(*block)),
        (plain_block(*block) || old(writer).math@.len() == 0) ==> final(writer).out@ == old(writer).out@ + block_html(
            *block,
            old(writer).indent,
            old(writer).options,
            old(writer).source_map,
        ),
    decreases *block, 5nat,
{
    let indent0 = writer.indent;
    if let BlockKind::BlockQuote { blocks } = &block.kind {
        open_tag_line(writer, "blockquote", block);
        writer.indent = indent0.saturating_add(1);
        emit_nested(writer, block, blocks);
        writer.indent = indent0;
        writer.line("</blockquote>".as_bytes());
    }
}

/// Emits a box: its optional title, then its body.
#[verifier::spinoff_prover]
#[verifier::rlimit(100)]
fn emit_box(writer: &mut HtmlWriter, block: &Block)
    requires
        block.kind is Box,
    ensures
        final(writer).extends(*old(writer)),
        final(writer).indent == old(writer).indent,
        met(*final(writer), *old(writer), block_maths(*block)),
        (plain_block(*block) || old(writer).math@.len() == 0) ==> final(writer).out@ == old(writer).out@ + block_html(
            *block,
            old(writer).indent,
            old(writer).options,
            old(writer).source_map,
        ),
    decreases *block, 5nat,
{
    let indent0 = writer.indent;
    let ghost map = writer.source_map;
    let ghost opts = writer.options;
    let ghost o0 = writer.out@;
    let ghost w0 = *writer;
    if let BlockKind::Box(bx) = &block.kind {
        let lref = block.attrs.label.as_ref();
        proof {
            assert(deref_label(lref) == block.attrs.label);
        }
        let mut buf: Vec<u8> = Vec::new();
        push_str(&mut buf, "<div class=\"TypMark-box\" data-typmark=\"box\"");
        push_block_attrs(&mut buf, lref, block.attrs.items.as_slice());
        writer.push_range_attr(&mut buf, block.span);
        buf.push(62u8);
        proof {
            assert(buf@ =~= "<div class=\"TypMark-box\" data-typmark=\"box\"".spec_bytes() + attrs_html(
                block.attrs.label,
                block.attrs.items@,
            ) + range_part(map, block.span) + seq![62u8]);
        }
        writer.line(buf.as_slice());
        let ghost o1 = writer.out@;
        writer.indent = indent0.saturating_add(1);
        let ghost title_part: Seq<u8> = Seq::empty();
        if let Some(title) = &bx.title {
            let title_html = inline_html(writer, title.as_slice(), RenderContext::Title);
            let mut t: Vec<u8> = Vec::new();
            push_str(&mut t, "<div class=\"TypMark-box-title\">");
            push_all(&mut t, title_html.as_slice());
            push_str(&mut t, "</div>");
            proof {
                if plain_block(*block) || old(writer).math@.len() == 0 {
                    assert(t@ =~= "<div class=\"TypMark-box-title\">".spec_bytes() + inlines_html(
                        title@,
                        RenderContext::Title,
                        map,
                    ) + "</div>".spec_bytes());
                }
                title_part = line_at(deeper(indent0), t@);
            }
            writer.line(t.as_slice());
        }
        let ghost o2 = writer.out@;
        let ghost wt = *writer;
        let ghost tm: Seq<(Seq<char>, bool)> = if bx.title is Some {
            inlines_maths(bx.title->0@, RenderContext::Title)
        } else {
            Seq::empty()
        };
        proof {
            if bx.title is None {
                lemma_met_none(w0, wt);
            }
            assert(met(wt, w0, tm));
        }
        writer.line("<div class=\"TypMark-box-body\">".as_bytes());
        let ghost o3 = writer.out@;
        writer.indent = indent0.saturating_add(1).saturating_add(1);
        let ghost wb = *writer;
        emit_nested(writer, block, &bx.blocks);
        let ghost o4 = writer.out@;
        proof {
            let wn = *writer;
            assert(met(wb, w0, tm));
            lemma_met_then(w0, wb, wn, tm, blocks_maths(bx.blocks@));
        }
        writer.indent = indent0.saturating_add(1);
        writer.line("</div>".as_bytes());
        writer.indent = indent0;
        writer.line("</div>".as_bytes());
        proof {
            if plain_block(*block) || old(writer).math@.len() == 0 {
                let tp = if bx.title is Some {
                    line_at(
                        deeper(indent0),
                        "<div class=\"TypMark-box-title\">".spec_bytes() + inlines_html(
                            bx.title->0@,
                            RenderContext::Title,
                            map,
                        ) + "</div>".spec_bytes(),
                    )
                } else {
                    Seq::empty()
                };
                assert(title_part == tp);
                assert(o2 =~= o1 + tp);
                let body = line_at(deeper(indent0), "<div class=\"TypMark-box-body\">".spec_bytes());
                assert(o3 == o2 + body);
                let inner = blocks_html(bx.blocks@, deeper(deeper(indent0)), opts, map);
                assert(o4 == o3 + inner);
                assert(writer.out@ =~= o0 + (line_at(indent0, buf@) + tp + body + inner + line_at(
                    deeper(indent0),
                    "</div>".spec_bytes(),
                ) + line_at(indent0, "</div>".spec_bytes())));
            }
        }
    }
}

/// Emits a heading with the block's label and attributes.
fn emit_heading(writer: &mut HtmlWriter, block: &Block)
    requires
        block.kind is Heading,
    ensures
        final(writer).extends(*old(writer)),
        final(writer).indent == old(writer).indent,
        met(*final(writer), *old(writer), block_maths(*block)),
        (plain_block(*block) || old(writer).math@.len() == 0) ==> final(writer).out@ == old(writer).out@ + block_html(
            *block,
            old(writer).indent,
            old(writer).options,
            old(writer).source_map,
        ),
{
    if let BlockKind::Heading { level, title } = &block.kind {
        let label = block.attrs.label.as_ref();
        proof {
            assert(deref_label(label) == block.attrs.label);
        }
        heading_line(writer, *level, block, label, title.as_slice(), true);
    }
}

/// Emits a paragraph as one line.
fn emit_paragraph(writer: &mut HtmlWriter, block: &Block)
    requires
        block.kind is Paragraph,
    ensures
        final(writer).extends(*old(writer)),
        final(writer).indent == old(writer).indent,
        met(*final(writer), *old(writer), block_maths(*block)),
        (plain_block(*block) || old(writer).math@.len() == 0) ==> final(writer).out@ == old(writer).out@ + block_html(
            *block,
            old(writer).indent,
            old(writer).options,
            old(writer).source_map,
        ),
        final(writer).out@ == old(writer).out@ + paragraph_html_math(
            *block,
            old(writer).indent,
            old(writer).source_map,
            old(writer).math@,
            old(writer).math_counter as int,
        ),
{
    if let BlockKind::Paragraph { content } = &block.kind {
        let ghost map = writer.source_map;
        let inline = inline_html(writer, content.as_slice(), RenderContext::Normal);
        let label = block.attrs.label.as_ref();
        proof {
            assert(deref_label(label) == block.attrs.label);
        }
        let mut buf: Vec<u8> = Vec::new();
        push_str(&mut buf, "<p");
        push_block_attrs(&mut buf, label, block.attrs.items.as_slice());
        writer.push_range_attr(&mut buf, block.span);
        buf.push(62u8);
        push_all(&mut buf, inline.as_slice());
        push_str(&mut buf, "</p>");
        proof {
            if plain_block(*block) || old(writer).math@.len() == 0 {
                assert(buf@ =~= "<p".spec_bytes() + attrs_html(block.attrs.label, block.attrs.items@)
                    + range_part(map, block.span) + seq![62u8] + inlines_html(content@, RenderContext::Normal, map)
                    + "</p>".spec_bytes());
            }
            assert(buf@ =~= "<p".spec_bytes() + attrs_html(block.attrs.label, block.attrs.items@)
                + range_part(map, block.span) + seq![62u8] + inlines_html_math(
                content@,
                RenderContext::Normal,
                map,
                old(writer).math@,
                old(writer).math_counter as int,
            ) + "</p>".spec_bytes());
        }
        writer.line(buf.as_slice());
    }
}

/// Emits a thematic break.
fn emit_rule(writer: &mut HtmlWriter, block: &Block)
    requires
        block.kind is ThematicBreak,
    ensures
        final(writer).extends(*old(writer)),
        final(writer).indent == old(writer).indent,
        met(*final(writer), *old(writer), Seq::empty()),
        final(writer).out@ == old(writer).out@ + block_html(
            *block,
            old(writer).indent,
            old(writer).options,
            old(writer).source_map,
        ),
{
    let ghost map = writer.source_map;
    let label = block.attrs.label.as_ref();
    proof {
        assert(deref_label(label) == block.attrs.label);
    }
    let mut buf: Vec<u8> = Vec::new();
    push_str(&mut buf, "<hr");
    push_block_attrs(&mut buf, label, block.attrs.items.as_slice());
    writer.push_range_attr(&mut buf, block.span);
    push_str(&mut buf, " />");
    proof {
        assert(buf@ =~= "<hr".spec_bytes() + attrs_html(block.attrs.label, block.attrs.items@) + range_part(
            map,
            block.span,
        ) + " />".spec_bytes());
    }
    writer.line(buf.as_slice());
}

/// Emits a raw HTML block as it is, or wrapped in a `<div>` that carries its attributes.
fn emit_html_block(writer: &mut HtmlWriter, block: &Block)
    requires
        block.kind is HtmlBlock,
    ensures
        final(writer).extends(*old(writer)),
        final(writer).indent == old(writer).indent,
        met(*final(writer), *old(writer), Seq::empty()),
        final(writer).out@ == old(writer).out@ + block_html(
            *block,
            old(writer).indent,
            old(writer).options,
            old(writer).source_map,
        ),
{
    let indent0 = writer.indent;
    let ghost map = writer.source_map;
    if let BlockKind::HtmlBlock { raw } = &block.kind {
        let label = block.attrs.label.as_ref();
        proof {
            assert(deref_label(label) == block.attrs.label);
        }
        let mut attrs: Vec<u8> = Vec::new();
        push_block_attrs(&mut attrs, label, block.attrs.items.as_slice());
        proof {
            assert(attrs@ =~= attrs_html(block.attrs.label, block.attrs.items@));
        }
        if attrs.len() == 0 {
            writer.line(string_bytes(raw));
        } else {
            let mut buf: Vec<u8> = Vec::new();
            push_str(&mut buf, "<div class=\"TypMark-html\" data-typmark=\"html\"");
            push_all(&mut buf, attrs.as_slice());
            writer.push_range_attr(&mut buf, block.span);
            buf.push(62u8);
            let ghost o0 = writer.out@;
            writer.line(buf.as_slice());
            let ghost o1 = writer.out@;
            writer.indent = indent0.saturating_add(1);
            writer.line(string_bytes(raw));
            let ghost o2 = writer.out@;
            writer.indent = indent0;
            writer.line("</div>".as_bytes());
            proof {
                assert(o1 == o0 + line_at(indent0, buf@));
                assert(o2 == o1 + line_at(deeper(indent0), sbytes(*raw)));
                assert(writer.out@ =~= o0 + (line_at(indent0, buf@) + line_at(deeper(indent0), sbytes(*raw))
                    + line_at(indent0, "</div>".spec_bytes())));
            }
        }
    }
}

/// Emits a math block: its SVG when one was rendered, else its source as an error.
fn emit_math_block(writer: &mut HtmlWriter, block: &Block, typst_src: &String)
    requires
        block.kind == (BlockKind::MathBlock { typst_src: *typst_src }),
    ensures
        final(writer).extends(*old(writer)),
        final(writer).indent == old(writer).indent,
        met(*final(writer), *old(writer), block_maths(*block)),
        old(writer).math@.len() == 0 ==> final(writer).out@ == old(writer).out@ + block_html(
            *block,
            old(writer).indent,
            old(writer).options,
            old(writer).source_map,
        ),
        final(writer).out@ == old(writer).out@ + math_block_html_math(
            *block,
            old(writer).indent,
            old(writer).source_map,
            old(writer).math@,
            old(writer).math_counter as int,
        ),
{
    let ghost map = writer.source_map;
    let lref = block.attrs.label.as_ref();
    proof {
        assert(deref_label(lref) == block.attrs.label);
    }
    let mut buf: Vec<u8> = Vec::new();
    let ghost w0 = *writer;
    match writer.next_math(typst_src, true) {
        Ok(svg) => {
            push_str(&mut buf, "<div class=\"TypMark-math-block\"");
            push_block_attrs(&mut buf, block.attrs.label.as_ref(), block.attrs.items.as_slice());
            writer.push_range_attr(&mut buf, block.span);
            buf.push(62u8);
            push_all(&mut buf, string_bytes(&svg));
            push_str(&mut buf, "</div>");
            proof {
                assert(buf@ =~= "<div class=\"TypMark-math-block\"".spec_bytes() + attrs_html(
                    block.attrs.label,
                    block.attrs.items@,
                ) + range_part(map, block.span) + seq![62u8] + encode_utf8(svg@) + "</div>".spec_bytes());
            }
        },
        Err(source) => {
            push_str(&mut buf, "<div class=\"TypMark-math-block--error\"");
            push_block_attrs(&mut buf, lref, block.attrs.items.as_slice());
            writer.push_range_attr(&mut buf, block.span);
            buf.push(62u8);
            push_escaped(&mut buf, string_bytes(&source));
            push_str(&mut buf, "</div>");
            proof {
                assert(buf@ =~= "<div class=\"TypMark-math-block--error\"".spec_bytes() + attrs_html(
                    block.attrs.label,
                    block.attrs.items@,
                ) + range_part(map, block.span) + seq![62u8] + escaped(sbytes(*typst_src)) + "</div>".spec_bytes());
            }
        },
    }
    proof {
        assert(sources_view(w0.math_sources@).push((typst_src@, true)) =~= sources_view(w0.math_sources@) + seq![
            (typst_src@, true),
        ]);
        if old(writer).math@.len() == 0 {
            assert(buf@ =~= "<div class=\"TypMark-math-block--error\"".spec_bytes() + attrs_html(
                block.attrs.label,
                block.attrs.items@,
            ) + range_part(map, block.span) + seq![62u8] + escaped(sbytes(*typst_src)) + "</div>".spec_bytes());
        }
    }
    writer.line(buf.as_slice());
}

/// Emits one block; the HTML of a plain block is `block_html`.
pub fn emit_block(writer: &mut HtmlWriter, block: &Block)
    ensures
        final(writer).extends(*old(writer)),
        final(writer).indent == old(writer).indent,
        met(*final(writer), *old(writer), block_maths(*block)),
        (plain_block(*block) || old(writer).math@.len() == 0) ==> final(writer).out@ == old(writer).out@ + block_html(
            *block,
            old(writer).indent,
            old(writer).options,
            old(writer).source_map,
        ),
        block.kind is Paragraph ==> final(writer).out@ == old(writer).out@ + paragraph_html_math(
            *block,
            old(writer).indent,
            old(writer).source_map,
            old(writer).math@,
            old(writer).math_counter as int,
        ),
        block.kind is MathBlock ==> final(writer).out@ == old(writer).out@ + math_block_html_math(
            *block,
            old(writer).indent,
            old(writer).source_map,
            old(writer).math@,
            old(writer).math_counter as int,
        ),
    decreases *block, 6nat,
{
    match &block.kind {
        BlockKind::Section { .. } => emit_section(writer, block),
        BlockKind::BlockQuote { .. } => emit_quote(writer, block),
        BlockKind::Box(_) => emit_box(writer, block),
        BlockKind::List(list) => emit_list(writer, block, list),
        BlockKind::Table(table) => emit_table(writer, block, table),
        BlockKind::CodeBlock(code) => emit_code_block(writer, block, code),
        BlockKind::MathBlock { typst_src } => emit_math_block(writer, block, typst_src),
        BlockKind::Heading { .. } => emit_heading(writer, block),
        BlockKind::Paragraph { .. } => emit_paragraph(writer, block),
        BlockKind::ThematicBreak => emit_rule(writer, block),
        BlockKind::HtmlBlock { .. } => emit_html_block(writer, block),
    }
}

/// Emits a block inside a tight list item; a paragraph is its inline content with no line
/// end. Gives whether the output ends a line.
pub fn emit_block_tight(writer: &mut HtmlWriter, block: &Block) -> (ended: bool)
    ensures
        final(writer).extends(*old(writer)),
        final(writer).indent == old(writer).indent,
        met(*final(writer), *old(writer), block_maths(*block)),
        ended == tight_ended(*block, old(writer).options),
        (plain_block(*block) || old(writer).math@.len() == 0) ==> final(writer).out@ == old(writer).out@ + tight_html(
            *block,
            old(writer).indent,
            old(writer).options,
            old(writer).source_map,
        ),
    decreases *block, 7nat,
{
    match &block.kind {
        BlockKind::Paragraph { content } => {
            let ghost map = writer.source_map;
            let inline = inline_html(writer, content.as_slice(), RenderContext::Normal);
            writer.push_indent();
            push_all(&mut writer.out, inline.as_slice());
            false
        },
        BlockKind::Section { .. } => emit_section_tight(writer, block),
        _ => {
            emit_block(writer, block);
            true
        },
    }
}

/// Emits a section inside a tight list item, its blocks tight.
#[verifier::spinoff_prover]
#[verifier::rlimit(100)]
fn emit_section_tight(writer: &mut HtmlWriter, block: &Block) -> (ended: bool)
    requires
        block.kind is Section,
    ensures
        final(writer).extends(*old(writer)),
        final(writer).indent == old(writer).indent,
        met(*final(writer), *old(writer), block_maths(*block)),
        ended == tight_ended(*block, old(writer).options),
        (plain_block(*block) || old(writer).math@.len() == 0) ==> final(writer).out@ == old(writer).out@ + tight_html(
            *block,
            old(writer).indent,
            old(writer).options,
            old(writer).source_map,
        ),
    decreases *block, 2nat,
{
    let indent0 = writer.indent;
    let ghost map = writer.source_map;
    let ghost opts = writer.options;
    let ghost o0 = writer.out@;
    if let BlockKind::Section { level, title, label, children } = &block.kind {
        proof {
            assert forall|j: int| 0 <= j < children@.len() implies decreases_to!(*block => #[trigger] children@[j]) by {
                lemma_nested_decreases(*block, j);
            }
            assert(children@.skip(0) =~= children@);
        }
        let lref = label.as_ref();
        proof {
            assert(deref_label(lref) == *label);
        }
        if writer.options.wrap_sections {
            let mut buf: Vec<u8> = Vec::new();
            push_str(&mut buf, "<section");
            push_block_attrs(&mut buf, lref, block.attrs.items.as_slice());
            writer.push_range_attr(&mut buf, block.span);
            buf.push(62u8);
            proof {
                assert(buf@ =~= "<section".spec_bytes() + attrs_html(*label, block.attrs.items@) + range_part(
                    map,
                    block.span,
                ) + seq![62u8]);
            }
            writer.line(buf.as_slice());
            let ghost o1 = writer.out@;
            writer.indent = indent0.saturating_add(1);
            heading_line(writer, *level, block, None, title.as_slice(), false);
            let ghost o2 = writer.out@;
            let ghost wb = *writer;
            emit_tight_blocks(writer, block, children, 0);
            proof {
                assert(met(wb, *old(writer), inlines_maths(title@, RenderContext::Title)));
                lemma_met_then(*old(writer), wb, *writer, inlines_maths(title@, RenderContext::Title), blocks_maths(children@));
            }
            let ghost o3 = writer.out@;
            writer.indent = indent0;
            writer.line("</section>".as_bytes());
            proof {
                if plain_block(*block) || old(writer).math@.len() == 0 {
                    let h = line_at(deeper(indent0), heading_html(*level, Seq::empty(), title@, map));
                    let c = tight_seq(children@, deeper(indent0), opts, map);
                    assert(o2 == o1 + h);
                    assert(o3 == o2 + c);
                    assert(writer.out@ =~= o0 + (line_at(indent0, buf@) + h + c + line_at(
                        indent0,
                        "</section>".spec_bytes(),
                    )));
                }
            }
            true
        } else {
            heading_line(writer, *level, block, lref, title.as_slice(), true);
            let ghost o1 = writer.out@;
            let ghost wb = *writer;
            let ended = emit_tight_blocks(writer, block, children, 0);
            proof {
                lemma_met_then(*old(writer), wb, *writer, inlines_maths(title@, RenderContext::Title), blocks_maths(children@));
            }
            proof {
                if plain_block(*block) || old(writer).math@.len() == 0 {
                    let h = line_at(
                        indent0,
                        heading_html(
                            *level,
                            attrs_html(*label, block.attrs.items@) + range_part(map, block.span),
                            title@,
                            map,
                        ),
                    );
                    assert(o1 == o0 + h);
                    assert(writer.out@ =~= o0 + (h + tight_seq(children@, indent0, opts, map)));
                }
            }
            ended
        }
    } else {
        proof {
            lemma_met_none(*old(writer), *writer);
        }
        true
    }
}

/// Emits blocks of a tight item from `from` on, a line end between a block that did not end
/// its line and the next. Gives whether the last one ended its line (true when none).
#[verifier::spinoff_prover]
fn emit_tight_blocks(writer: &mut HtmlWriter, parent: &Block, blocks: &Vec<Block>, from: usize) -> (ended: bool)
    requires
        from <= blocks@.len(),
        forall|j: int| from <= j < blocks@.len() ==> decreases_to!(*parent => #[trigger] blocks@[j]),
    ensures
        final(writer).extends(*old(writer)),
        final(writer).indent == old(writer).indent,
        met(*final(writer), *old(writer), blocks_maths(blocks@.skip(from as int))),
        ended == (from == blocks@.len() || tight_ended(blocks@.last(), old(writer).options)),
        (plain_blocks(blocks@.skip(from as int)) || old(writer).math@.len() == 0) ==> final(writer).out@ == old(writer).out@ + tight_seq(
            blocks@.skip(from as int),
            old(writer).indent,
            old(writer).options,
            old(writer).source_map,
        ),
    decreases *parent, 1nat,
{
    let ghost s = blocks@.skip(from as int);
    let ghost opts = writer.options;
    let ghost map = writer.source_map;
    let mut last_ended = true;
    let mut j: usize = from;
    proof {
        assert(s.take(0) =~= Seq::<Block>::empty());
        lemma_met_none(*old(writer), *writer);
    }
    while j < blocks.len()
        invariant
            from <= j <= blocks@.len(),
            met(*writer, *old(writer), blocks_maths(s.take(j - from))),
            s == blocks@.skip(from as int),
            forall|j: int| from <= j < blocks@.len() ==> decreases_to!(*parent => #[trigger] blocks@[j]),
            writer.extends(*old(writer)),
            writer.indent == old(writer).indent,
            opts == old(writer).options,
            map == old(writer).source_map,
            last_ended == (j == from || tight_ended(s[j - from - 1], opts)),
            (plain_blocks(s) || old(writer).math@.len() == 0) ==> writer.out@ == old(writer).out@ + tight_seq(s.take(j - from), old(writer).indent, opts, map),
        decreases blocks.len() - j,
    {
        let ghost k = j - from;
        let ghost before = writer.out@;
        if j > from && !last_ended {
            writer.out.push(10u8);
        }
        proof {
            assert(s[k] == blocks@[j as int]);
            assert(decreases_to!(*parent => blocks@[j as int]));
        }
        let ghost w1 = *writer;
        let ended = emit_block_tight(writer, &blocks[j]);
        proof {
            let t = s.take(k + 1);
            assert(t.drop_last() =~= s.take(k));
            assert(t.last() == s[k]);
            lemma_met_then(*old(writer), w1, *writer, blocks_maths(s.take(k)), block_maths(s[k]));
            if k >= 1 {
                assert(t[t.len() - 2] == s[k - 1]);
            }
            if plain_blocks(s) || old(writer).math@.len() == 0 {
                assert(plain_block(s[k]) || old(writer).math@.len() == 0);
                let sep = if t.len() >= 2 && !tight_ended(t[t.len() - 2], opts) {
                    seq![10u8]
                } else {
                    Seq::<u8>::empty()
                };
                assert(writer.out@ =~= old(writer).out@ + (tight_seq(s.take(k), old(writer).indent, opts, map) + sep
                    + tight_html(s[k], old(writer).indent, opts, map)));
            }
        }
        last_ended = ended;
        j = j + 1;
    }
    proof {
        assert(s.take(s.len() as int) =~= s);
        if j > from {
            assert(s[j - from - 1] == blocks@.last());
        }
    }
    last_ended
}

/// Closes a list item after its blocks: on a line of its own when the last block ended a
/// line, else right after it.
fn close_item(writer: &mut HtmlWriter, last_ended: bool)
    ensures
        final(writer).extends(*old(writer)),
        final(writer).indent == old(writer).indent,
        met(*final(writer), *old(writer), Seq::empty()),
        final(writer).out@ == old(writer).out@ + close_li(last_ended, old(writer).indent),
{
    if last_ended {
        writer.line("</li>".as_bytes());
    } else {
        push_str(&mut writer.out, "</li>\n");
    }
}

proof fn lemma_item_block_decreases(block: Block, list: List, k: int, j: int)
    requires
        block.kind == BlockKind::List(list),
        0 <= k < list.items@.len(),
        0 <= j < list.items@[k].blocks@.len(),
    ensures
        decreases_to!(block => list.items@[k].blocks@[j]),
{
    let it = list.items@[k];
    assert(decreases_to!(block => block.kind));
    assert(decreases_to!(block.kind => block.kind->List_0));
    assert(decreases_to!(list => list.items));
    assert(decreases_to!(list.items => list.items@));
    assert(decreases_to!(list.items@ => list.items@[k]));
    assert(decreases_to!(it => it.blocks));
    assert(decreases_to!(it.blocks => it.blocks@));
    assert(decreases_to!(it.blocks@ => it.blocks@[j]));
}

/// Emits a list: tight items unwrap their first paragraph; task items get a checkbox.
#[verifier::spinoff_prover]
fn emit_list(writer: &mut HtmlWriter, block: &Block, list: &List)
    requires
        block.kind == BlockKind::List(*list),
    ensures
        final(writer).extends(*old(writer)),
        final(writer).indent == old(writer).indent,
        met(*final(writer), *old(writer), block_maths(*block)),
        (plain_block(*block) || old(writer).math@.len() == 0) ==> final(writer).out@ == old(writer).out@ + block_html(
            *block,
            old(writer).indent,
            old(writer).options,
            old(writer).source_map,
        ),
    decreases *block, 5nat,
{
    let indent0 = writer.indent;
    let ghost map = writer.source_map;
    let ghost opts = writer.options;
    let ghost o0 = writer.out@;
    let tag = if list.ordered { "ol" } else { "ul" };
    let mut any_task = false;
    let mut t: usize = 0;
    while t < list.items.len()
        invariant
            t <= list.items@.len(),
            any_task == exists|k: int| 0 <= k < t && (#[trigger] list.items@[k]).task is Some,
        decreases list.items.len() - t,
    {
        if list.items[t].task.is_some() {
            any_task = true;
        }
        t = t + 1;
    }
    let lref = block.attrs.label.as_ref();
    proof {
        assert(deref_label(lref) == block.attrs.label);
    }
    let mut buf: Vec<u8> = Vec::new();
    buf.push(60u8);
    push_str(&mut buf, tag);
    push_block_attrs(&mut buf, lref, block.attrs.items.as_slice());
    let ghost b1 = buf@;
    if list.ordered {
        if let Some(start) = list.start {
            if start != 1 {
                push_str(&mut buf, " start=\"");
                push_decimal(&mut buf, start);
                buf.push(34u8);
            }
        }
    }
    let ghost b2 = buf@;
    if any_task {
        push_str(&mut buf, " class=\"task-list\"");
    }
    let ghost b3 = buf@;
    writer.push_range_attr(&mut buf, block.span);
    buf.push(62u8);
    proof {
        assert(b2 =~= b1 + start_attr(*list));
        let tasks = if has_tasks(list.items@) {
            " class=\"task-list\"".spec_bytes()
        } else {
            Seq::<u8>::empty()
        };
        assert(b3 =~= b2 + tasks);
        assert(buf@ =~= list_open(*block, *list, map));
    }
    writer.line(buf.as_slice());
    let ghost o1 = writer.out@;
    let inner = indent0.saturating_add(1);
    writer.indent = inner;
    let mut k: usize = 0;
    proof {
        lemma_met_none(*old(writer), *writer);
        assert(list.items@.take(0) =~= Seq::<ListItem>::empty());
    }
    while k < list.items.len()
        invariant
            k <= list.items@.len(),
            block.kind == BlockKind::List(*list),
            met(*writer, *old(writer), items_maths(list.items@.take(k as int))),
            writer.extends(*old(writer)),
            writer.indent == inner,
            inner == deeper(indent0),
            opts == old(writer).options,
            map == old(writer).source_map,
            (plain_block(*block) || old(writer).math@.len() == 0) ==> writer.out@ == o1 + items_html(list.items@.take(k as int), list.tight, inner, opts, map),
        decreases list.items.len() - k,
    {
        proof {
            let its = list.items@;
            assert(its.take(k + 1).drop_last() =~= its.take(k as int));
            assert(its.take(k + 1).last() == its[k as int]);
            if plain_block(*block) || old(writer).math@.len() == 0 {
                assert(plain_blocks(its[k as int].blocks@) || old(writer).math@.len() == 0);
            }
        }
        let ghost w1 = *writer;
        emit_item(writer, block, list, k);
        proof {
            lemma_met_then(*old(writer), w1, *writer, items_maths(list.items@.take(k as int)), blocks_maths(list.items@[k as int].blocks@));
        }
        k = k + 1;
    }
    proof {
        assert(list.items@.take(list.items@.len() as int) =~= list.items@);
    }
    let ghost o2 = writer.out@;
    writer.indent = indent0;
    let mut close: Vec<u8> = Vec::new();
    push_str(&mut close, "</");
    push_str(&mut close, tag);
    close.push(62u8);
    writer.line(close.as_slice());
    proof {
        if plain_block(*block) || old(writer).math@.len() == 0 {
            assert(close@ =~= "</".spec_bytes() + list_tag(list.ordered) + seq![62u8]);
            assert(writer.out@ =~= o0 + (line_at(indent0, list_open(*block, *list, map)) + items_html(
                list.items@,
                list.tight,
                inner,
                opts,
                map,
            ) + line_at(indent0, "</".spec_bytes() + list_tag(list.ordered) + seq![62u8])));
        }
    }
}

/// Emits item `k` of a list at the writer's level.
fn emit_item(writer: &mut HtmlWriter, block: &Block, list: &List, k: usize)
    requires
        block.kind == BlockKind::List(*list),
        k < list.items@.len(),
    ensures
        final(writer).extends(*old(writer)),
        final(writer).indent == old(writer).indent,
        met(*final(writer), *old(writer), blocks_maths(list.items@[k as int].blocks@)),
        (plain_blocks(list.items@[k as int].blocks@) || old(writer).math@.len() == 0) ==> final(writer).out@ == old(writer).out@ + item_html(
            list.items@[k as int],
            list.tight,
            old(writer).indent,
            old(writer).options,
            old(writer).source_map,
        ),
    decreases *block, 4nat,
{
    let item = &list.items[k];
    proof {
        assert forall|j: int| 0 <= j < item.blocks@.len() implies decreases_to!(*block => #[trigger] item.blocks@[j]) by {
            lemma_item_block_decreases(*block, *list, k as int, j);
        }
    }
    if item.blocks.len() == 0 {
        let task_class = if item.task.is_some() { " class=\"task-list-item\"" } else { "" };
        let mut li: Vec<u8> = Vec::new();
        push_str(&mut li, "<li");
        push_str(&mut li, task_class);
        push_str(&mut li, "></li>");
        writer.line(li.as_slice());
    } else if list.tight {
        if let BlockKind::Paragraph { .. } = &item.blocks[0].kind {
            emit_item_tight_para(writer, block, item);
        } else {
            emit_item_tight(writer, block, item);
        }
    } else {
        emit_item_loose(writer, block, item);
    }
}

/// A tight item whose first block is a paragraph: the paragraph's content on the `<li>`
/// line, the other blocks tight after it.
#[verifier::spinoff_prover]
#[verifier::rlimit(100)]
fn emit_item_tight_para(writer: &mut HtmlWriter, block: &Block, item: &ListItem)
    requires
        item.blocks@.len() > 0,
        item.blocks@[0].kind is Paragraph,
        forall|j: int| 0 <= j < item.blocks@.len() ==> decreases_to!(*block => #[trigger] item.blocks@[j]),
    ensures
        final(writer).extends(*old(writer)),
        final(writer).indent == old(writer).indent,
        met(*final(writer), *old(writer), blocks_maths(item.blocks@)),
        (plain_blocks(item.blocks@) || old(writer).math@.len() == 0) ==> final(writer).out@ == old(writer).out@ + item_html(
            *item,
            true,
            old(writer).indent,
            old(writer).options,
            old(writer).source_map,
        ),
    decreases *block, 3nat,
{
    let inner = writer.indent;
    let ghost map = writer.source_map;
    let ghost opts = writer.options;
    let ghost o0 = writer.out@;
    let ghost bs = item.blocks@;
    if let BlockKind::Paragraph { content } = &item.blocks[0].kind {
        let task_class = if item.task.is_some() { " class=\"task-list-item\"" } else { "" };
        let ghost w0 = *writer;
        let inline_content = inline_html(writer, content.as_slice(), RenderContext::Normal);
        writer.push_indent();
        push_str(&mut writer.out, "<li");
        push_str(&mut writer.out, task_class);
        writer.out.push(62u8);
        let ghost o1 = writer.out@;
        if let Some(checked) = item.task {
            push_str(&mut writer.out, task_input_html(checked));
        }
        let ghost o2 = writer.out@;
        push_all(&mut writer.out, inline_content.as_slice());
        let ghost o3 = writer.out@;
        proof {
            assert(o2 =~= o1 + task_part(item.task));
            if plain_blocks(bs) {
                assert(plain_block(bs[0]));
            }
        }
        let ghost w1 = *writer;
        emit_item_tail(writer, block, item);
        proof {
            lemma_blocks_maths_front(bs);
            assert(met(w1, w0, block_maths(bs[0])));
            lemma_met_then(w0, w1, *writer, block_maths(bs[0]), blocks_maths(bs.skip(1)));
            if plain_blocks(bs) || old(writer).math@.len() == 0 {
                let rest = if bs.len() > 1 {
                    seq![10u8] + tight_seq(bs.skip(1), deeper(inner), opts, map) + close_li(tight_ended(bs.last(), opts), inner)
                } else {
                    "</li>\n".spec_bytes()
                };
                assert(writer.out@ == o3 + rest);
                assert(writer.out@ =~= o0 + item_html(*item, true, inner, opts, map));
            }
        }
    }
}

/// After the first paragraph of a tight item: its other blocks tight, then `</li>`.
#[verifier::spinoff_prover]
fn emit_item_tail(writer: &mut HtmlWriter, block: &Block, item: &ListItem)
    requires
        item.blocks@.len() > 0,
        forall|j: int| 0 <= j < item.blocks@.len() ==> decreases_to!(*block => #[trigger] item.blocks@[j]),
    ensures
        final(writer).extends(*old(writer)),
        final(writer).indent == old(writer).indent,
        met(*final(writer), *old(writer), blocks_maths(item.blocks@.skip(1))),
        (plain_blocks(item.blocks@) || old(writer).math@.len() == 0) ==> final(writer).out@ == old(writer).out@ + (
        if item.blocks@.len() > 1 {
            seq![10u8] + tight_seq(item.blocks@.skip(1), deeper(old(writer).indent), old(writer).options, old(writer).source_map)
                + close_li(tight_ended(item.blocks@.last(), old(writer).options), old(writer).indent)
        } else {
            "</li>\n".spec_bytes()
        }),
    decreases *block, 2nat,
{
    let inner = writer.indent;
    let ghost bs = item.blocks@;
    if item.blocks.len() > 1 {
        let ghost o3 = writer.out@;
        writer.out.push(10u8);
        writer.indent = inner.saturating_add(1);
        let ghost o4 = writer.out@;
        let last_ended = emit_tight_blocks(writer, block, &item.blocks, 1);
        let ghost o5 = writer.out@;
        writer.indent = inner;
        close_item(writer, last_ended);
        proof {
            if plain_blocks(bs) || old(writer).math@.len() == 0 {
                if plain_blocks(bs) {
                    assert forall|i: int| 0 <= i < bs.skip(1).len() implies plain_block(#[trigger] bs.skip(1)[i]) by {
                        assert(bs.skip(1)[i] == bs[i + 1]);
                    }
                }
                assert(writer.out@ =~= o3 + (seq![10u8] + tight_seq(bs.skip(1), deeper(inner), old(writer).options, old(writer).source_map) + close_li(
                    tight_ended(bs.last(), old(writer).options),
                    inner,
                )));
            }
        }
    } else {
        push_str(&mut writer.out, "</li>\n");
    }
}

/// A tight item whose first block is not a paragraph: the `<li>` line, the checkbox line of a
/// task, then the blocks tight.
#[verifier::spinoff_prover]
#[verifier::rlimit(100)]
fn emit_item_tight(writer: &mut HtmlWriter, block: &Block, item: &ListItem)
    requires
        item.blocks@.len() > 0,
        !(item.blocks@[0].kind is Paragraph),
        forall|j: int| 0 <= j < item.blocks@.len() ==> decreases_to!(*block => #[trigger] item.blocks@[j]),
    ensures
        final(writer).extends(*old(writer)),
        final(writer).indent == old(writer).indent,
        met(*final(writer), *old(writer), blocks_maths(item.blocks@)),
        (plain_blocks(item.blocks@) || old(writer).math@.len() == 0) ==> final(writer).out@ == old(writer).out@ + item_html(
            *item,
            true,
            old(writer).indent,
            old(writer).options,
            old(writer).source_map,
        ),
    decreases *block, 3nat,
{
    let inner = writer.indent;
    let ghost map = writer.source_map;
    let ghost opts = writer.options;
    let ghost o0 = writer.out@;
    let ghost bs = item.blocks@;
    let task_class = if item.task.is_some() { " class=\"task-list-item\"" } else { "" };
    let mut li: Vec<u8> = Vec::new();
    push_str(&mut li, "<li");
    push_str(&mut li, task_class);
    li.push(62u8);
    writer.line(li.as_slice());
    let ghost o1 = writer.out@;
    writer.indent = inner.saturating_add(1);
    if let Some(checked) = item.task {
        writer.line(task_input_html(checked).as_bytes());
    }
    let ghost o2 = writer.out@;
    proof {
        assert(bs.skip(0) =~= bs);
    }
    let last_ended = emit_tight_blocks(writer, block, &item.blocks, 0);
    let ghost o3 = writer.out@;
    writer.indent = inner;
    close_item(writer, last_ended);
    proof {
        let tl = match item.task {
            Some(c) => line_at(deeper(inner), task_input(c)),
            None => Seq::<u8>::empty(),
        };
        assert(o2 =~= o1 + tl);
        if plain_blocks(bs) || old(writer).math@.len() == 0 {
            assert(o3 == o2 + tight_seq(bs, deeper(inner), opts, map));
            assert(writer.out@ =~= o0 + (line_at(inner, li@) + tl + tight_seq(bs, deeper(inner), opts, map) + close_li(
                tight_ended(bs.last(), opts),
                inner,
            )));
        }
    }
}

/// A loose item: the `<li>` line, its blocks (a task's first paragraph carrying the
/// checkbox), the `</li>` line.
#[verifier::spinoff_prover]
fn emit_item_loose(writer: &mut HtmlWriter, block: &Block, item: &ListItem)
    requires
        item.blocks@.len() > 0,
        forall|j: int| 0 <= j < item.blocks@.len() ==> decreases_to!(*block => #[trigger] item.blocks@[j]),
    ensures
        final(writer).extends(*old(writer)),
        final(writer).indent == old(writer).indent,
        met(*final(writer), *old(writer), blocks_maths(item.blocks@)),
        (plain_blocks(item.blocks@) || old(writer).math@.len() == 0) ==> final(writer).out@ == old(writer).out@ + item_html(
            *item,
            false,
            old(writer).indent,
            old(writer).options,
            old(writer).source_map,
        ),
    decreases *block, 3nat,
{
    let inner = writer.indent;
    let ghost map = writer.source_map;
    let ghost opts = writer.options;
    let ghost o0 = writer.out@;
    let ghost bs = item.blocks@;
    let task_class = if item.task.is_some() { " class=\"task-list-item\"" } else { "" };
    let mut li: Vec<u8> = Vec::new();
    push_str(&mut li, "<li");
    push_str(&mut li, task_class);
    li.push(62u8);
    writer.line(li.as_slice());
    let ghost o1 = writer.out@;
    let deep = inner.saturating_add(1);
    writer.indent = deep;
    let mut j: usize = 0;
    proof {
        assert(bs.take(0) =~= Seq::<Block>::empty());
        lemma_met_none(*old(writer), *writer);
    }
    while j < item.blocks.len()
        invariant
            j <= bs.len(),
            met(*writer, *old(writer), blocks_maths(bs.take(j as int))),
            bs == item.blocks@,
            forall|j: int| 0 <= j < item.blocks@.len() ==> decreases_to!(*block => #[trigger] item.blocks@[j]),
            writer.extends(*old(writer)),
            writer.indent == deep,
            deep == deeper(inner),
            opts == old(writer).options,
            map == old(writer).source_map,
            (plain_blocks(bs) || old(writer).math@.len() == 0) ==> writer.out@ == o1 + loose_blocks(bs.take(j as int), item.task, deep, opts, map),
        decreases item.blocks.len() - j,
    {
        let child = &item.blocks[j];
        let ghost before = writer.out@;
        let ghost w1 = *writer;
        let mut done = false;
        if j == 0 {
            if let Some(checked) = item.task {
                if let BlockKind::Paragraph { content } = &child.kind {
                    let inline = inline_html(writer, content.as_slice(), RenderContext::Normal);
                    writer.push_indent();
                    push_str(&mut writer.out, "<p>");
                    push_str(&mut writer.out, task_input_html(checked));
                    push_all(&mut writer.out, inline.as_slice());
                    push_str(&mut writer.out, "</p>\n");
                    done = true;
                }
            }
        }
        if !done {
            proof {
                assert(decreases_to!(*block => bs[j as int]));
            }
            emit_block(writer, child);
        }
        proof {
            let t = bs.take(j + 1);
            assert(t.drop_last() =~= bs.take(j as int));
            assert(t.last() == bs[j as int]);
            assert(met(*writer, w1, block_maths(bs[j as int])));
            lemma_met_then(*old(writer), w1, *writer, blocks_maths(bs.take(j as int)), block_maths(bs[j as int]));
            if plain_blocks(bs) || old(writer).math@.len() == 0 {
                assert(plain_block(bs[j as int]) || old(writer).math@.len() == 0);
                assert(writer.out@ =~= o1 + loose_blocks(t, item.task, deep, opts, map));
            }
        }
        j = j + 1;
    }
    proof {
        assert(bs.take(bs.len() as int) =~= bs);
    }
    let ghost o2 = writer.out@;
    writer.indent = inner;
    writer.line("</li>".as_bytes());
    proof {
        if plain_blocks(bs) || old(writer).math@.len() == 0 {
            assert(writer.out@ =~= o0 + (line_at(inner, li@) + loose_blocks(bs, item.task, deep, opts, map) + line_at(
                inner,
                "</li>".spec_bytes(),
            )));
        }
    }
}

/// Emits the cells of a table row, one line each.
fn emit_cells(writer: &mut HtmlWriter, cells: &Vec<InlineSeq>, aligns: &Vec<TableAlign>, header: bool)
    ensures
        final(writer).extends(*old(writer)),
        final(writer).indent == old(writer).indent,
        met(*final(writer), *old(writer), cells_maths(cells@)),
        ((forall|c: int| 0 <= c < cells@.len() ==> math_free(#[trigger] cells@[c]@)) || old(writer).math@.len() == 0) ==> final(writer).out@
            == old(writer).out@ + cells_html(cells@, aligns@, old(writer).indent, header, old(writer).source_map),
{
    let ghost map = writer.source_map;
    let ghost plain = (forall|c: int| 0 <= c < cells@.len() ==> math_free(#[trigger] cells@[c]@)) || writer.math@.len() == 0;
    let mut c: usize = 0;
    proof {
        lemma_met_none(*old(writer), *writer);
        assert(cells@.take(0) =~= Seq::<InlineSeq>::empty());
    }
    while c < cells.len()
        invariant
            c <= cells@.len(),
            met(*writer, *old(writer), cells_maths(cells@.take(c as int))),
            writer.extends(*old(writer)),
            writer.indent == old(writer).indent,
            map == old(writer).source_map,
            plain == ((forall|c: int| 0 <= c < cells@.len() ==> math_free(#[trigger] cells@[c]@)) || old(writer).math@.len() == 0),
            plain ==> writer.out@ == old(writer).out@ + cells_html(cells@.take(c as int), aligns@, old(writer).indent, header, map),
        decreases cells.len() - c,
    {
        let align = if c < aligns.len() { Some(aligns[c]) } else { None };
        let ghost w1 = *writer;
        let inline = inline_html(writer, cells[c].as_slice(), RenderContext::Normal);
        proof {
            lemma_met_then(*old(writer), w1, *writer, cells_maths(cells@.take(c as int)), inlines_maths(cells@[c as int]@, RenderContext::Normal));
        }
        let mut buf: Vec<u8> = Vec::new();
        if header {
            push_str(&mut buf, "<th");
        } else {
            push_str(&mut buf, "<td");
        }
        push_str(&mut buf, table_align_attr(align));
        buf.push(62u8);
        push_all(&mut buf, inline.as_slice());
        if header {
            push_str(&mut buf, "</th>");
        } else {
            push_str(&mut buf, "</td>");
        }
        let ghost before = writer.out@;
        writer.line(buf.as_slice());
        proof {
            assert(cells@.take(c + 1).drop_last() =~= cells@.take(c as int));
            assert(cells@.take(c + 1).last() == cells@[c as int]);
            assert(align == column_align(aligns@, c as int));
            if plain {
                assert(math_free(cells@[c as int]@) || old(writer).math@.len() == 0);
                assert(buf@ =~= cell_html(cells@[c as int]@, align, header, map));
            }
        }
        c = c + 1;
    }
    proof {
        assert(cells@.take(cells@.len() as int) =~= cells@);
    }
}

/// No cell of the rows holds math.
pub open spec fn rows_plain(rows: Seq<Vec<InlineSeq>>) -> bool {
    forall|r: int, c: int| 0 <= r < rows.len() && 0 <= c < rows[r]@.len() ==> math_free(#[trigger] rows[r]@[c]@)
}

/// Emits the body rows of a table, each `<tr>` at the writer's level and its cells one level
/// deeper.
fn emit_rows(writer: &mut HtmlWriter, rows: &Vec<Vec<InlineSeq>>, aligns: &Vec<TableAlign>)
    ensures
        final(writer).extends(*old(writer)),
        final(writer).indent == old(writer).indent,
        met(*final(writer), *old(writer), rows_maths(rows@)),
        (rows_plain(rows@) || old(writer).math@.len() == 0) ==> final(writer).out@ == old(writer).out@ + rows_html(
            rows@,
            aligns@,
            old(writer).indent,
            old(writer).source_map,
        ),
{
    let ghost map = writer.source_map;
    let indent0 = writer.indent;
    let inner = indent0.saturating_add(1);
    let mut r: usize = 0;
    proof {
        lemma_met_none(*old(writer), *writer);
        assert(rows@.take(0) =~= Seq::<Vec<InlineSeq>>::empty());
    }
    while r < rows.len()
        invariant
            r <= rows@.len(),
            met(*writer, *old(writer), rows_maths(rows@.take(r as int))),
            writer.extends(*old(writer)),
            writer.indent == indent0,
            indent0 == old(writer).indent,
            inner == deeper(indent0),
            map == old(writer).source_map,
            (rows_plain(rows@) || old(writer).math@.len() == 0) ==> writer.out@ == old(writer).out@ + rows_html(rows@.take(r as int), aligns@, indent0, map),
        decreases rows.len() - r,
    {
        let ghost before = writer.out@;
        writer.line("<tr>".as_bytes());
        writer.indent = inner;
        let ghost mid = writer.out@;
        let ghost w1 = *writer;
        emit_cells(writer, &rows[r], aligns, false);
        proof {
            lemma_met_then(*old(writer), w1, *writer, rows_maths(rows@.take(r as int)), cells_maths(rows@[r as int]@));
        }
        let ghost mid2 = writer.out@;
        writer.indent = indent0;
        writer.line("</tr>".as_bytes());
        proof {
            assert(rows@.take(r + 1).drop_last() =~= rows@.take(r as int));
            assert(rows@.take(r + 1).last() == rows@[r as int]);
            if rows_plain(rows@) || old(writer).math@.len() == 0 {
                if rows_plain(rows@) {
                    assert forall|c: int| 0 <= c < rows@[r as int]@.len() implies math_free(#[trigger] rows@[r as int]@[c]@) by {
                        assert(math_free(rows@[r as int]@[c]@));
                    }
                }
                assert(mid2 == mid + cells_html(rows@[r as int]@, aligns@, inner, false, map));
                assert(writer.out@ =~= old(writer).out@ + rows_html(rows@.take(r + 1), aligns@, indent0, map));
            }
        }
        r = r + 1;
    }
    proof {
        assert(rows@.take(rows@.len() as int) =~= rows@);
    }
}

/// Emits a table: a header row, then the body rows when there are any.
#[verifier::spinoff_prover]
#[verifier::rlimit(100)]
fn emit_table(writer: &mut HtmlWriter, block: &Block, table: &Table)
    requires
        block.kind == BlockKind::Table(*table),
    ensures
        final(writer).extends(*old(writer)),
        final(writer).indent == old(writer).indent,
        met(*final(writer), *old(writer), block_maths(*block)),
        (table_plain(*table) || old(writer).math@.len() == 0) ==> final(writer).out@ == old(writer).out@ + table_html(
            *block,
            *table,
            old(writer).indent,
            old(writer).source_map,
        ),
{
    let indent0 = writer.indent;
    let ghost map = writer.source_map;
    let ghost o0 = writer.out@;
    let d1 = indent0.saturating_add(1);
    let d2 = d1.saturating_add(1);
    let d3 = d2.saturating_add(1);
    open_tag_line(writer, "table", block);
    let ghost oa = writer.out@;
    writer.indent = d1;
    writer.line("<thead>".as_bytes());
    writer.indent = d2;
    writer.line("<tr>".as_bytes());
    writer.indent = d3;
    let ghost o1 = writer.out@;
    emit_cells(writer, &table.headers, &table.aligns, true);
    let ghost o2 = writer.out@;
    writer.indent = d2;
    writer.line("</tr>".as_bytes());
    writer.indent = d1;
    writer.line("</thead>".as_bytes());
    let ghost o3 = writer.out@;
    let ghost body: Seq<u8> = if table.rows@.len() > 0 {
        line_at(d1, "<tbody>".spec_bytes()) + rows_html(table.rows@, table.aligns@, d2, map) + line_at(
            d1,
            "</tbody>".spec_bytes(),
        )
    } else {
        Seq::empty()
    };
    let ghost wh = *writer;
    proof {
        assert(met(wh, *old(writer), cells_maths(table.headers@)));
        if table_plain(*table) {
            assert(rows_plain(table.rows@));
        }
    }
    emit_table_body(writer, table);
    proof {
        lemma_met_then(*old(writer), wh, *writer, cells_maths(table.headers@), rows_maths(table.rows@));
    }
    let ghost o6 = writer.out@;
    writer.indent = indent0;
    writer.line("</table>".as_bytes());
    proof {
        if table_plain(*table) || old(writer).math@.len() == 0 {
            let head = line_at(
                indent0,
                seq![60u8] + "table".spec_bytes() + attrs_html(block.attrs.label, block.attrs.items@) + range_part(
                    map,
                    block.span,
                ) + seq![62u8],
            );
            assert(oa == o0 + head);
            assert(o2 == o1 + cells_html(table.headers@, table.aligns@, d3, true, map));
            let tail = if table.rows@.len() > 0 {
                line_at(d1, "<tbody>".spec_bytes()) + rows_html(table.rows@, table.aligns@, d2, map) + line_at(
                    d1,
                    "</tbody>".spec_bytes(),
                )
            } else {
                Seq::empty()
            };
            assert(o6 =~= o3 + tail);
            assert(writer.out@ =~= o0 + (head + line_at(d1, "<thead>".spec_bytes()) + line_at(d2, "<tr>".spec_bytes())
                + cells_html(table.headers@, table.aligns@, d3, true, map) + line_at(d2, "</tr>".spec_bytes())
                + line_at(d1, "</thead>".spec_bytes()) + tail + line_at(indent0, "</table>".spec_bytes())));
        }
    }
}

/// Emits the body of a table, when it has rows: `<tbody>` at the writer's level, the rows one
/// level deeper.
fn emit_table_body(writer: &mut HtmlWriter, table: &Table)
    ensures
        final(writer).extends(*old(writer)),
        final(writer).indent == old(writer).indent,
        met(*final(writer), *old(writer), rows_maths(table.rows@)),
        (rows_plain(table.rows@) || old(writer).math@.len() == 0) ==> final(writer).out@ == old(writer).out@ + (
        if table.rows@.len() > 0 {
            line_at(old(writer).indent, "<tbody>".spec_bytes()) + rows_html(
                table.rows@,
                table.aligns@,
                deeper(old(writer).indent),
                old(writer).source_map,
            ) + line_at(old(writer).indent, "</tbody>".spec_bytes())
        } else {
            Seq::empty()
        }),
{
    let d1 = writer.indent;
    if table.rows.len() > 0 {
        writer.line("<tbody>".as_bytes());
        writer.indent = d1.saturating_add(1);
        emit_rows(writer, &table.rows, &table.aligns);
        writer.indent = d1;
        writer.line("</tbody>".as_bytes());
    } else {
        proof {
            lemma_met_none(*old(writer), *writer);
            assert(table.rows@ =~= Seq::<Vec<InlineSeq>>::empty());
        }
    }
}

/// The first label given to a line.
fn find_line_label(labels: &Vec<crate::ast::LineLabel>, line_no: u32) -> (r: Option<&Label>)
    ensures
        deref_label(r) == line_label(labels@, line_no),
{
    let mut m: usize = 0;
    proof {
        assert(labels@.skip(0) =~= labels@);
    }
    while m < labels.len()
        invariant
            m <= labels@.len(),
            line_label(labels@, line_no) == line_label(labels@.skip(m as int), line_no),
        decreases labels.len() - m,
    {
        proof {
            let rest = labels@.skip(m as int);
            assert(rest[0] == labels@[m as int]);
            assert(rest.drop_first() =~= labels@.skip(m + 1));
        }
        if labels[m].line == line_no {
            return Some(&labels[m].label);
        }
        m = m + 1;
    }
    proof {
        assert(labels@.skip(m as int) =~= Seq::<crate::ast::LineLabel>::empty());
    }
    None
}

/// The start of a code line's span.
fn push_line_head(out: &mut Vec<u8>, highlighted: bool, diff: u8, display: u64)
    ensures
        final(out)@ == old(out)@ + line_head_html(highlighted, diff, display),
{
    let ghost o0 = out@;
    push_str(out, "<span class=\"line");
    let ghost o1 = out@;
    if highlighted {
        push_str(out, " highlighted");
    }
    let ghost o2 = out@;
    if diff == 1 {
        push_str(out, " diff add");
    } else if diff == 2 {
        push_str(out, " diff del");
    }
    let ghost o3 = out@;
    out.push(34u8);
    let ghost o4 = out@;
    if diff != 2 {
        push_str(out, " data-line=\"");
        push_decimal(out, display);
        out.push(34u8);
    }
    proof {
        let p_hl = if highlighted {
            " highlighted".spec_bytes()
        } else {
            Seq::<u8>::empty()
        };
        let p_diff = if diff == 1 {
            " diff add".spec_bytes()
        } else if diff == 2 {
            " diff del".spec_bytes()
        } else {
            Seq::<u8>::empty()
        };
        let p_no = if diff != 2 {
            " data-line=\"".spec_bytes() + decimal(display as nat) + seq![34u8]
        } else {
            Seq::<u8>::empty()
        };
        assert(o2 =~= o1 + p_hl);
        assert(o3 =~= o2 + p_diff);
        assert(out@ =~= o4 + p_no);
        assert(out@ =~= o0 + ("<span class=\"line".spec_bytes() + p_hl + p_diff + seq![34u8] + p_no));
    }
}

/// The marks and label of a code line.
fn push_line_marks(out: &mut Vec<u8>, highlighted: bool, diff: u8, label: Option<&Label>)
    ensures
        final(out)@ == old(out)@ + line_marks_html(highlighted, diff, deref_label(label)),
{
    let ghost o0 = out@;
    if highlighted {
        push_str(out, " data-highlighted-line");
    }
    let ghost o1 = out@;
    if diff == 1 {
        push_str(out, " data-diff=\"add\"");
    } else if diff == 2 {
        push_str(out, " data-diff=\"del\"");
    }
    let ghost o2 = out@;
    push_line_label_attrs(out, label);
    proof {
        let p_hl = if highlighted {
            " data-highlighted-line".spec_bytes()
        } else {
            Seq::<u8>::empty()
        };
        let p_d = if diff == 1 {
            " data-diff=\"add\"".spec_bytes()
        } else if diff == 2 {
            " data-diff=\"del\"".spec_bytes()
        } else {
            Seq::<u8>::empty()
        };
        assert(o1 =~= o0 + p_hl);
        assert(o2 =~= o1 + p_d);
        assert(out@ =~= o0 + (p_hl + p_d + line_label_attrs(deref_label(label))));
    }
}

/// The id and `data-line-label` of a labelled code line.
fn push_line_label_attrs(out: &mut Vec<u8>, label: Option<&Label>)
    ensures
        final(out)@ == old(out)@ + line_label_attrs(deref_label(label)),
{
    let ghost o0 = out@;
    if let Some(l) = label {
        push_str(out, " id=\"");
        push_escaped(out, string_bytes(&l.name));
        push_str(out, "\" data-line-label=\"");
        push_escaped(out, string_bytes(&l.name));
        out.push(34u8);
        proof {
            assert(out@ =~= o0 + line_label_attrs(deref_label(label)));
        }
    }
}

/// One line of a fenced code block: a span with its classes, its displayed number (deleted
/// lines have none), its highlight and diff marks and its label. Gives the next displayed
/// number.
fn emit_code_line(writer: &mut HtmlWriter, line: &[u8], line_no: u32, meta: &CodeMeta, display_line_no: u64) -> (next: u64)
    ensures
        final(writer).extends(*old(writer)),
        final(writer).indent == old(writer).indent,
        met(*final(writer), *old(writer), Seq::empty()),
        final(writer).out@ == old(writer).out@ + code_line_html(line@, line_no, *meta, display_line_no),
        next == next_display(line_no, *meta, display_line_no),
{
    let ghost o0 = writer.out@;
    let highlighted = line_in_ranges(line_no, meta.hl.as_slice());
    let diff: u8 = if line_in_ranges(line_no, meta.diff_add.as_slice()) {
        1
    } else if line_in_ranges(line_no, meta.diff_del.as_slice()) {
        2
    } else {
        0
    };
    proof {
        assert(highlighted == in_ranges(line_no, meta.hl@));
        assert(diff == diff_kind(line_no, *meta));
    }
    let label = find_line_label(&meta.line_labels, line_no);
    push_line_head(&mut writer.out, highlighted, diff, display_line_no);
    push_line_marks(&mut writer.out, highlighted, diff, label);
    writer.out.push(62u8);
    push_escaped(&mut writer.out, line);
    push_str(&mut writer.out, "</span>");
    proof {
        assert(writer.out@ =~= o0 + code_line_html(line@, line_no, *meta, display_line_no));
    }
    if diff != 2 {
        display_line_no.saturating_add(1)
    } else {
        display_line_no
    }
}

/// The lines of a fenced code block, one span each.
fn emit_code_lines(writer: &mut HtmlWriter, lines: &Vec<Vec<u8>>, meta: &CodeMeta, Ghost(spec_lines): Ghost<Seq<Seq<u8>>>)
    requires
        lines@.len() == spec_lines.len(),
        forall|k: int| 0 <= k < lines@.len() ==> #[trigger] lines@[k]@ == spec_lines[k],
    ensures
        final(writer).extends(*old(writer)),
        final(writer).indent == old(writer).indent,
        met(*final(writer), *old(writer), Seq::empty()),
        final(writer).out@ == old(writer).out@ + code_lines_html(spec_lines, *meta, spec_lines.len()),
{
    let mut display_line_no: u64 = 1;
    let mut idx: usize = 0;
    proof {
        lemma_met_none(*old(writer), *writer);
    }
    while idx < lines.len()
        invariant
            idx <= lines@.len(),
            lines@.len() == spec_lines.len(),
            forall|k: int| 0 <= k < lines@.len() ==> #[trigger] lines@[k]@ == spec_lines[k],
            writer.extends(*old(writer)),
            writer.indent == old(writer).indent,
            display_line_no == display_before(*meta, idx as nat),
            met(*writer, *old(writer), Seq::empty()),
            writer.out@ == old(writer).out@ + code_lines_html(spec_lines, *meta, idx as nat),
        decreases lines.len() - idx,
    {
        let line_no: u32 = if idx < 0xFFFF_FFFFusize { (idx + 1) as u32 } else { 0xFFFF_FFFFu32 };
        proof {
            assert(line_no == line_number(idx as int));
            assert(lines@[idx as int]@ == spec_lines[idx as int]);
        }
        let ghost before = writer.out@;
        let ghost w1 = *writer;
        display_line_no = emit_code_line(writer, lines[idx].as_slice(), line_no, meta, display_line_no);
        proof {
            assert(writer.out@ =~= old(writer).out@ + code_lines_html(spec_lines, *meta, (idx + 1) as nat));
            lemma_met_then(*old(writer), w1, *writer, Seq::empty(), Seq::empty());
            assert(Seq::<(Seq<char>, bool)>::empty() + Seq::<(Seq<char>, bool)>::empty() =~= Seq::<(Seq<char>, bool)>::empty());
        }
        idx = idx + 1;
    }
}

/// Emits code as one `<pre><code>` element.
#[verifier::spinoff_prover]
fn emit_code_pre(writer: &mut HtmlWriter, code: &CodeBlock, attrs: &Vec<u8>)
    ensures
        final(writer).extends(*old(writer)),
        final(writer).indent == old(writer).indent,
        met(*final(writer), *old(writer), Seq::empty()),
        final(writer).out@ == old(writer).out@ + code_pre_html(*code, attrs@, old(writer).options.simple_code_blocks),
{
    let ghost o0 = writer.out@;
    let text = string_bytes(&code.text);
    let mut esc: Vec<u8> = Vec::new();
    push_escaped(&mut esc, text);
    push_str(&mut writer.out, "<pre");
    push_all(&mut writer.out, attrs.as_slice());
    push_str(&mut writer.out, "><code");
    let ghost o1 = writer.out@;
    if writer.options.simple_code_blocks {
        if let Some(lang) = &code.lang {
            push_str(&mut writer.out, " class=\"language-");
            push_escaped(&mut writer.out, string_bytes(lang));
            writer.out.push(34u8);
        }
    }
    let ghost o2 = writer.out@;
    writer.out.push(62u8);
    push_all(&mut writer.out, esc.as_slice());
    let ghost o3 = writer.out@;
    if esc.len() > 0 && esc[esc.len() - 1] != 10u8 {
        writer.out.push(10u8);
    }
    let ghost o4 = writer.out@;
    push_str(&mut writer.out, "</code></pre>\n");
    proof {
        let cls = if writer.options.simple_code_blocks && code.lang is Some {
            " class=\"language-".spec_bytes() + escaped(sbytes(code.lang->0)) + seq![34u8]
        } else {
            Seq::<u8>::empty()
        };
        assert(o2 =~= o1 + cls);
        let t = escaped(sbytes(code.text));
        let nl = if t.len() > 0 && t.last() != 10u8 {
            seq![10u8]
        } else {
            Seq::<u8>::empty()
        };
        assert(o4 =~= o3 + nl);
        assert(writer.out@ =~= o0 + code_pre_html(*code, attrs@, writer.options.simple_code_blocks));
    }
}

/// Emits code as a figure with one span per line.
#[verifier::spinoff_prover]
fn emit_code_figure(writer: &mut HtmlWriter, code: &CodeBlock, attrs: &Vec<u8>)
    ensures
        final(writer).extends(*old(writer)),
        final(writer).indent == old(writer).indent,
        met(*final(writer), *old(writer), Seq::empty()),
        final(writer).out@ == old(writer).out@ + code_figure_html(*code, attrs@, old(writer).indent),
{
    let indent0 = writer.indent;
    let ghost o0 = writer.out@;
    let text = string_bytes(&code.text);
    let mut head: Vec<u8> = Vec::new();
    push_str(&mut head, "<figure class=\"TypMark-codeblock\" data-typmark=\"codeblock\"");
    push_all(&mut head, attrs.as_slice());
    let ghost h1 = head@;
    if let Some(lang) = &code.lang {
        push_str(&mut head, " data-lang=\"");
        push_escaped(&mut head, string_bytes(lang));
        head.push(34u8);
    }
    proof {
        assert(head@ =~= h1 + lang_attr(code.lang));
    }
    head.push(62u8);
    let ghost hd = head@;
    writer.line(head.as_slice());
    let ghost o1 = writer.out@;
    writer.indent = indent0.saturating_add(1);
    writer.push_indent();
    let ghost o1b = writer.out@;
    push_str(&mut writer.out, "<pre class=\"TypMark-pre\"><code class=\"language-");
    let ghost o2 = writer.out@;
    if let Some(lang) = &code.lang {
        push_escaped(&mut writer.out, string_bytes(lang));
    }
    let ghost o3 = writer.out@;
    push_str(&mut writer.out, "\">");
    let ghost o3b = writer.out@;
    let lines = split_lines_preserve(text);
    let ghost spec_lines = code_lines(sbytes(code.text));
    emit_code_lines(writer, &lines, &code.meta, Ghost(spec_lines));
    let ghost o4 = writer.out@;
    push_str(&mut writer.out, "</code></pre>\n");
    let ghost o5 = writer.out@;
    writer.indent = indent0;
    writer.line("</figure>".as_bytes());
    proof {
        let lang_esc = if code.lang is Some {
            escaped(sbytes(code.lang->0))
        } else {
            Seq::<u8>::empty()
        };
        let first = line_at(indent0, hd);
        assert(o1 == o0 + first);
        assert(o1b == o1 + spaces(deeper(indent0) as nat));
        assert(o2 == o1b + "<pre class=\"TypMark-pre\"><code class=\"language-".spec_bytes());
        assert(o3 =~= o2 + lang_esc);
        assert(o3b == o3 + "\">".spec_bytes());
        let body = code_lines_html(spec_lines, code.meta, spec_lines.len());
        assert(o4 == o3b + body);
        assert(o5 == o4 + "</code></pre>\n".spec_bytes());
        let last = line_at(indent0, "</figure>".spec_bytes());
        assert(writer.out@ == o5 + last);
        assert(hd =~= "<figure class=\"TypMark-codeblock\" data-typmark=\"codeblock\"".spec_bytes() + attrs@ + lang_attr(
            code.lang,
        ) + seq![62u8]);
        assert(writer.out@ =~= o0 + (first + spaces(deeper(indent0) as nat)
            + "<pre class=\"TypMark-pre\"><code class=\"language-".spec_bytes() + lang_esc + "\">".spec_bytes() + body
            + "</code></pre>\n".spec_bytes() + last));
    }
}

/// Emits a code block: plain `<pre><code>` for simple output and indented code, else a figure
/// with one span per line carrying its number, highlight, diff and label.
fn emit_code_block(writer: &mut HtmlWriter, block: &Block, code: &CodeBlock)
    requires
        block.kind == BlockKind::CodeBlock(*code),
    ensures
        final(writer).extends(*old(writer)),
        final(writer).indent == old(writer).indent,
        met(*final(writer), *old(writer), Seq::empty()),
        final(writer).out@ == old(writer).out@ + code_block_html(
            *block,
            *code,
            old(writer).indent,
            old(writer).options,
            old(writer).source_map,
        ),
{
    let ghost map = writer.source_map;
    let lref = block.attrs.label.as_ref();
    proof {
        assert(deref_label(lref) == block.attrs.label);
    }
    let mut attrs: Vec<u8> = Vec::new();
    push_block_attrs(&mut attrs, lref, block.attrs.items.as_slice());
    push_data_attrs(&mut attrs, code.info_attrs.items.as_slice());
    writer.push_range_attr(&mut attrs, block.span);
    proof {
        assert(attrs@ =~= code_attrs(*block, *code, map));
    }
    if writer.options.simple_code_blocks || code.kind == CodeBlockKind::Indented {
        emit_code_pre(writer, code, &attrs);
    } else {
        emit_code_figure(writer, code, &attrs);
    }
}

/// The output without its last line end.
pub open spec fn trim_line_end(s: Seq<u8>) -> Seq<u8> {
    if s.len() > 0 && s.last() == 10u8 {
        s.drop_last()
    } else {
        s
    }
}

/// The HTML text of plain top-level blocks: their lines, without the last line end.
pub open spec fn document_html(bs: Seq<Block>, opts: HtmlEmitOptions, map: Option<&SourceMap>) -> Seq<char> {
    decode_utf8(trim_line_end(blocks_html(bs, 0, opts, map)))
}

/// Dropping a last line end keeps UTF-8.
proof fn lemma_trim_valid(s: Seq<u8>)
    requires
        valid_utf8(s),
    ensures
        valid_utf8(trim_line_end(s)),
{
    if s.len() > 0 && s.last() == 10u8 {
        let i = s.len() - 1;
        vstd::utf8::is_char_boundary_iff_not_is_continuation_byte(s, i);
        vstd::utf8::valid_utf8_split(s, i);
        assert(s.subrange(0, i) =~= s.drop_last());
    }
}

/// Emits the blocks into a fresh writer; gives the HTML and the math sources met (in order,
/// with whether each is display math). Without rendered math, or for blocks without math, the
/// HTML is `document_html`.
pub fn emit_blocks(
    blocks: &[Block],
    options: &HtmlEmitOptions,
    math: &[Option<String>],
    source_map: Option<&SourceMap>,
) -> (r: (String, Vec<(String, bool)>))
    ensures
        (plain_blocks(blocks@) || math@.len() == 0) ==> r.0@ == document_html(blocks@, *options, source_map),
        sources_view(r.1@) == blocks_maths(blocks@),
{
    let mut writer = HtmlWriter::new(*options, math, source_map);
    let ghost w0 = writer;
    let ghost opts = *options;
    let mut i: usize = 0;
    proof {
        assert(blocks@.take(0) =~= Seq::<Block>::empty());
        lemma_met_none(w0, writer);
    }
    while i < blocks.len()
        invariant
            i <= blocks@.len(),
            met(writer, w0, blocks_maths(blocks@.take(i as int))),
            w0.math_sources@.len() == 0,
            writer.indent == 0,
            writer.options == *options,
            opts == *options,
            writer.source_map == source_map,
            writer.math == math,
            (plain_blocks(blocks@) || math@.len() == 0) ==> writer.out@ == blocks_html(blocks@.take(i as int), 0, opts, source_map),
        decreases blocks.len() - i,
    {
        proof {
            lemma_blocks_html_step(blocks@, i as int, 0, opts, source_map);
            if plain_blocks(blocks@) {
                assert(plain_block(blocks@[i as int]));
            }
        }
        let ghost before = writer.out@;
        let ghost w1 = writer;
        emit_block(&mut writer, &blocks[i]);
        proof {
            lemma_met_then(w0, w1, writer, blocks_maths(blocks@.take(i as int)), block_maths(blocks@[i as int]));
            assert(blocks@.take(i + 1).drop_last() =~= blocks@.take(i as int));
            assert(blocks@.take(i + 1).last() == blocks@[i as int]);
            if plain_blocks(blocks@) || math@.len() == 0 {
                assert(writer.out@ == before + block_html(blocks@[i as int], 0, opts, source_map));
            }
        }
        i = i + 1;
    }
    proof {
        assert(blocks@.take(blocks@.len() as int) =~= blocks@);
    }
    proof {
        assert(sources_view(w0.math_sources@) =~= Seq::<(Seq<char>, bool)>::empty());
        assert(sources_view(writer.math_sources@) =~= blocks_maths(blocks@));
    }
    let sources = writer.math_sources;
    let mut out = writer.out;
    if out.len() > 0 && out[out.len() - 1] == 10u8 {
        out.pop();
    }
    proof {
        if plain_blocks(blocks@) || math@.len() == 0 {
            lemma_blocks_html_valid(blocks@, 0, opts, source_map);
            lemma_trim_valid(blocks_html(blocks@, 0, opts, source_map));
            assert(out@ =~= trim_line_end(blocks_html(blocks@, 0, opts, source_map)));
        }
    }
    (string_from_bytes(out.as_slice()), sources)
}

/// Raw HTML of the blocks with the default options; math that was not rendered shows its
/// source as an error.
pub fn emit_html(blocks: &[Block]) -> (r: String)
    ensures
        r@ == document_html(blocks@, default_options(), None),
{
    emit_html_with_options(blocks, &HtmlEmitOptions::default())
}

/// Raw HTML of the blocks with the given options.
pub fn emit_html_with_options(blocks: &[Block], options: &HtmlEmitOptions) -> (r: String)
    ensures
        r@ == document_html(blocks@, *options, None),
{
    let empty: Vec<Option<String>> = Vec::new();
    emit_blocks(blocks, options, empty.as_slice(), None).0
}

/// Raw HTML of the blocks, the `n`-th math node (from one) taking its SVG from `math[n - 1]`
/// when that is given (its ids prefixed with `tm-m<n>`).
pub fn emit_html_with_math(blocks: &[Block], options: &HtmlEmitOptions, math: &[Option<String>]) -> (r: String)
    ensures
        (plain_blocks(blocks@) || math@.len() == 0) ==> r@ == document_html(blocks@, *options, None),
{
    emit_blocks(blocks, options, math, None).0
}

/// The math nodes of the blocks in the order in which emission numbers them: source and
/// whether it is display math.
pub fn math_sources(blocks: &[Block], options: &HtmlEmitOptions) -> (r: Vec<(String, bool)>)
    ensures
        sources_view(r@) == blocks_maths(blocks@),
{
    let empty: Vec<Option<String>> = Vec::new();
    emit_blocks(blocks, options, empty.as_slice(), None).1
}

/// Raw HTML of a document's blocks.
pub fn emit_html_document_with_options(document: &Document, options: &HtmlEmitOptions) -> (r: String)
    ensures
        r@ == document_html(document.blocks@, *options, None),
{
    emit_html_with_options(document.blocks.as_slice(), options)
}

/// Raw HTML of a document's blocks, blocks and text carrying their source range as a
/// `data-tm-range="line:col-line:col"` attribute.
pub fn emit_html_document_with_options_and_source_map(
    document: &Document,
    options: &HtmlEmitOptions,
    source_map: &SourceMap,
) -> (r: String)
    ensures
        r@ == document_html(
            document.blocks@,
            *options,
            Some(source_map),
        ),
{
    let empty: Vec<Option<String>> = Vec::new();
    emit_blocks(document.blocks.as_slice(), options, empty.as_slice(), Some(source_map)).0
}

/// Sanitized HTML of the blocks with the default options.
pub fn emit_html_sanitized(blocks: &[Block]) -> (r: String)
    ensures
        r@ == sanitized(document_html(blocks@, default_options(), None)),
{
    let raw = emit_html(blocks);
    sanitize_html(raw.as_str())
}

/// Sanitized HTML of the blocks with the given options.
pub fn emit_html_sanitized_with_options(blocks: &[Block], options: &HtmlEmitOptions) -> (r: String)
    ensures
        r@ == sanitized(document_html(blocks@, *options, None)),
{
    let raw = emit_html_with_options(blocks, options);
    sanitize_html(raw.as_str())
}

/// Sanitized HTML of a document's blocks.
pub fn emit_html_document_sanitized_with_options(document: &Document, options: &HtmlEmitOptions) -> (r: String)
    ensures
        r@ == sanitized(
            document_html(document.blocks@, *options, None),
        ),
{
    let raw = emit_html_document_with_options(document, options);
    sanitize_html(raw.as_str())
}

/// Sanitized HTML of a document's blocks with source ranges (`data-` attributes are kept).
pub fn emit_html_document_sanitized_with_options_and_source_map(
    document: &Document,
    options: &HtmlEmitOptions,
    source_map: &SourceMap,
) -> (r: String)
    ensures
        r@ == sanitized(
            document_html(document.blocks@, *options, Some(source_map)),
        ),
{
    let raw = emit_html_document_with_options_and_source_map(document, options, source_map);
    sanitize_html(raw.as_str())
}

} // verus!
