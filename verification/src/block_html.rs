use vstd::prelude::*;
use crate::ast::{AttrItem, Block, BlockKind, List, ListItem, CodeBlock, CodeBlockKind, CodeMeta, Inline, Label, LineLabel, LineRange, Table, TableAlign};
use crate::emit::{HtmlEmitOptions, code_lines, decimal, drop_cr, raw_lines, escaped, inlines_html, math_free, range_attr, sbytes, RenderContext};
use crate::source_map::SourceMap;
use crate::span::Span;
use vstd::string::StringSliceAdditionalSpecFns;
use vstd::utf8::valid_utf8;
use crate::text::{lemma_ascii_valid, lemma_cat, lemma_empty_valid, lemma_str_valid};
use crate::utf8_text::{
    ascii, lemma_ascii_cat, lemma_decimal_ascii, lemma_drop_cr_valid, lemma_raw_lines_valid, lemma_escaped_valid, lemma_escaped_string_valid, lemma_inlines_html_valid,
    lemma_range_attr_valid, lemma_sbytes_valid, lemma_valid_cat3, lemma_valid_cat4, lemma_valid_cat5,
};

verus! {

/// Two spaces per level of indentation.
pub open spec fn spaces(n: nat) -> Seq<u8>
    decreases n,
{
    if n == 0 {
        Seq::empty()
    } else {
        spaces((n - 1) as nat) + seq![32u8, 32u8]
    }
}

/// A line of output at an indentation level, with its line end.
pub open spec fn line_at(indent: usize, l: Seq<u8>) -> Seq<u8> {
    spaces(indent as nat) + l + seq![10u8]
}

/// One level deeper (the level saturates at the largest `usize`).
pub open spec fn deeper(indent: usize) -> usize {
    if indent < usize::MAX {
        (indent + 1) as usize
    } else {
        indent
    }
}

/// ` id="name"` for a label.
pub open spec fn id_attr(label: Label) -> Seq<u8> {
    seq![32u8, 105u8, 100u8, 61u8, 34u8] + escaped(sbytes(label.name)) + seq![34u8]
}

/// ` data-key="value"` for an attribute item.
pub open spec fn data_attr(item: AttrItem) -> Seq<u8> {
    " data-".spec_bytes() + escaped(sbytes(item.key)) + seq![61u8, 34u8] + escaped(sbytes(item.value.raw))
        + seq![34u8]
}

/// The data attributes of the items, in order.
pub open spec fn data_attrs(items: Seq<AttrItem>) -> Seq<u8>
    decreases items.len(),
{
    if items.len() == 0 {
        Seq::empty()
    } else {
        data_attrs(items.drop_last()) + data_attr(items.last())
    }
}

/// The id of an optional label followed by the data attributes of the items.
pub open spec fn attrs_html(label: Option<Label>, items: Seq<AttrItem>) -> Seq<u8> {
    match label {
        Some(l) => id_attr(l) + data_attrs(items),
        None => data_attrs(items),
    }
}

/// The `data-tm-range` attribute of a span when there is a source map, nothing otherwise.
pub open spec fn range_part(map: Option<&SourceMap>, span: Span) -> Seq<u8> {
    match map {
        Some(m) => range_attr(m.spec_position(span.start), m.spec_position(span.end)),
        None => Seq::empty(),
    }
}

/// `<hN attrs>title</hN>`.
pub open spec fn heading_html(level: u8, attrs: Seq<u8>, title: Seq<Inline>, map: Option<&SourceMap>) -> Seq<u8> {
    "<h".spec_bytes() + decimal(level as nat) + attrs + seq![62u8] + inlines_html(title, RenderContext::Title, map)
        + "</h".spec_bytes() + decimal(level as nat) + seq![62u8]
}

/// The `align` attribute of a column's cells.
pub open spec fn align_attr(align: Option<TableAlign>) -> Seq<u8> {
    match align {
        Some(TableAlign::Left) => " align=\"left\"".spec_bytes(),
        Some(TableAlign::Center) => " align=\"center\"".spec_bytes(),
        Some(TableAlign::Right) => " align=\"right\"".spec_bytes(),
        _ => "".spec_bytes(),
    }
}

/// The alignment of column `c`, if the delimiter row gave one.
pub open spec fn column_align(aligns: Seq<TableAlign>, c: int) -> Option<TableAlign> {
    if 0 <= c < aligns.len() {
        Some(aligns[c])
    } else {
        None
    }
}

/// A header (`th`) or body (`td`) cell.
pub open spec fn cell_html(cell: Seq<Inline>, align: Option<TableAlign>, header: bool, map: Option<&SourceMap>) -> Seq<u8> {
    (if header {
        "<th".spec_bytes()
    } else {
        "<td".spec_bytes()
    }) + align_attr(align) + seq![62u8] + inlines_html(cell, RenderContext::Normal, map) + (if header {
        "</th>".spec_bytes()
    } else {
        "</td>".spec_bytes()
    })
}

/// The cells of a row, one line each.
pub open spec fn cells_html(
    cells: Seq<Vec<Inline>>,
    aligns: Seq<TableAlign>,
    indent: usize,
    header: bool,
    map: Option<&SourceMap>,
) -> Seq<u8>
    decreases cells.len(),
{
    if cells.len() == 0 {
        Seq::empty()
    } else {
        cells_html(cells.drop_last(), aligns, indent, header, map) + line_at(
            indent,
            cell_html(cells.last()@, column_align(aligns, cells.len() - 1), header, map),
        )
    }
}

/// The body rows of a table.
pub open spec fn rows_html(rows: Seq<Vec<Vec<Inline>>>, aligns: Seq<TableAlign>, indent: usize, map: Option<&SourceMap>) -> Seq<u8>
    decreases rows.len(),
{
    if rows.len() == 0 {
        Seq::empty()
    } else {
        rows_html(rows.drop_last(), aligns, indent, map) + line_at(indent, "<tr>".spec_bytes()) + cells_html(
            rows.last()@,
            aligns,
            deeper(indent),
            false,
            map,
        ) + line_at(indent, "</tr>".spec_bytes())
    }
}

/// No cell of the table holds math.
pub open spec fn table_plain(t: Table) -> bool {
    &&& forall|c: int| 0 <= c < t.headers@.len() ==> math_free(#[trigger] t.headers@[c]@)
    &&& forall|r: int, c: int|
        0 <= r < t.rows@.len() && 0 <= c < t.rows@[r]@.len() ==> math_free(#[trigger] t.rows@[r]@[c]@)
}

/// A table: its header row in `<thead>`, then its body rows in `<tbody>` when there are any.
pub open spec fn table_html(b: Block, t: Table, indent: usize, map: Option<&SourceMap>) -> Seq<u8> {
    let d1 = deeper(indent);
    let d2 = deeper(d1);
    line_at(
        indent,
        seq![60u8] + "table".spec_bytes() + attrs_html(b.attrs.label, b.attrs.items@) + range_part(map, b.span)
            + seq![62u8],
    ) + line_at(d1, "<thead>".spec_bytes()) + line_at(d2, "<tr>".spec_bytes()) + cells_html(
        t.headers@,
        t.aligns@,
        deeper(d2),
        true,
        map,
    ) + line_at(d2, "</tr>".spec_bytes()) + line_at(d1, "</thead>".spec_bytes()) + (if t.rows@.len() > 0 {
        line_at(d1, "<tbody>".spec_bytes()) + rows_html(t.rows@, t.aligns@, d2, map) + line_at(
            d1,
            "</tbody>".spec_bytes(),
        )
    } else {
        Seq::empty()
    }) + line_at(indent, "</table>".spec_bytes())
}

/// A line number falls in one of the ranges.
pub open spec fn in_ranges(line: u32, ranges: Seq<LineRange>) -> bool {
    exists|k: int| 0 <= k < ranges.len() && #[trigger] ranges[k].start <= line && line <= ranges[k].end
}

/// How a line is marked in a diff: 1 added, 2 deleted, 0 neither (added wins).
pub open spec fn diff_kind(line: u32, meta: CodeMeta) -> u8 {
    if in_ranges(line, meta.diff_add@) {
        1
    } else if in_ranges(line, meta.diff_del@) {
        2
    } else {
        0
    }
}

/// The first label given to a line.
pub open spec fn line_label(labels: Seq<LineLabel>, line: u32) -> Option<Label>
    decreases labels.len(),
{
    if labels.len() == 0 {
        None
    } else if labels[0].line == line {
        Some(labels[0].label)
    } else {
        line_label(labels.drop_first(), line)
    }
}

/// The number shown for the next line: deleted lines show none and take none.
pub open spec fn next_display(line: u32, meta: CodeMeta, display: u64) -> u64 {
    if diff_kind(line, meta) != 2 {
        if display < u64::MAX {
            (display + 1) as u64
        } else {
            display
        }
    } else {
        display
    }
}

/// The start of a code line's span: its classes and its number.
pub open spec fn line_head_html(hl: bool, d: u8, display: u64) -> Seq<u8> {
    "<span class=\"line".spec_bytes() + (if hl {
        " highlighted".spec_bytes()
    } else {
        Seq::empty()
    }) + (if d == 1 {
        " diff add".spec_bytes()
    } else if d == 2 {
        " diff del".spec_bytes()
    } else {
        Seq::empty()
    }) + seq![34u8] + (if d != 2 {
        " data-line=\"".spec_bytes() + decimal(display as nat) + seq![34u8]
    } else {
        Seq::empty()
    })
}

/// The data attributes of a code line's marks and its label.
pub open spec fn line_marks_html(hl: bool, d: u8, label: Option<Label>) -> Seq<u8> {
    (if hl {
        " data-highlighted-line".spec_bytes()
    } else {
        Seq::empty()
    }) + (if d == 1 {
        " data-diff=\"add\"".spec_bytes()
    } else if d == 2 {
        " data-diff=\"del\"".spec_bytes()
    } else {
        Seq::empty()
    }) + line_label_attrs(label)
}

/// The id and `data-line-label` of a labelled code line.
pub open spec fn line_label_attrs(label: Option<Label>) -> Seq<u8> {
    match label {
        Some(l) => " id=\"".spec_bytes() + escaped(sbytes(l.name)) + "\" data-line-label=\"".spec_bytes() + escaped(
            sbytes(l.name),
        ) + seq![34u8],
        None => Seq::empty(),
    }
}

/// One line of a fenced code block: a span with its classes, its number, its marks and its
/// label.
pub open spec fn code_line_html(line: Seq<u8>, line_no: u32, meta: CodeMeta, display: u64) -> Seq<u8> {
    let hl = in_ranges(line_no, meta.hl@);
    let d = diff_kind(line_no, meta);
    line_head_html(hl, d, display) + line_marks_html(hl, d, line_label(meta.line_labels@, line_no)) + seq![62u8]
        + escaped(line) + "</span>".spec_bytes()
}

/// The number of the line at index `k` (from one, at most `u32::MAX`).
pub open spec fn line_number(k: int) -> u32 {
    if k < 0xFFFF_FFFF {
        (k + 1) as u32
    } else {
        0xFFFF_FFFFu32
    }
}

/// The number shown for the line at index `k`.
pub open spec fn display_before(meta: CodeMeta, k: nat) -> u64
    decreases k,
{
    if k == 0 {
        1
    } else {
        next_display(line_number(k - 1), meta, display_before(meta, (k - 1) as nat))
    }
}

/// The first `n` lines of a fenced code block.
pub open spec fn code_lines_html(lines: Seq<Seq<u8>>, meta: CodeMeta, n: nat) -> Seq<u8>
    decreases n,
{
    if n == 0 || n > lines.len() {
        Seq::empty()
    } else {
        code_lines_html(lines, meta, (n - 1) as nat) + code_line_html(
            lines[n - 1],
            line_number(n - 1),
            meta,
            display_before(meta, (n - 1) as nat),
        )
    }
}

/// ` data-lang="lang"` when the block names a language.
pub open spec fn lang_attr(lang: Option<String>) -> Seq<u8> {
    match lang {
        Some(l) => " data-lang=\"".spec_bytes() + escaped(sbytes(l)) + seq![34u8],
        None => Seq::empty(),
    }
}

/// Code as one `<pre><code>` element, the language as a class with simple output.
pub open spec fn code_pre_html(code: CodeBlock, attrs: Seq<u8>, simple: bool) -> Seq<u8> {
    let text = escaped(sbytes(code.text));
    "<pre".spec_bytes() + attrs + "><code".spec_bytes() + (if simple && code.lang is Some {
        " class=\"language-".spec_bytes() + escaped(sbytes(code.lang->0)) + seq![34u8]
    } else {
        Seq::empty()
    }) + seq![62u8] + text + (if text.len() > 0 && text.last() != 10u8 {
        seq![10u8]
    } else {
        Seq::empty()
    }) + "</code></pre>\n".spec_bytes()
}

/// Code as a figure with one span per line.
pub open spec fn code_figure_html(code: CodeBlock, attrs: Seq<u8>, indent: usize) -> Seq<u8> {
    let lines = code_lines(sbytes(code.text));
    line_at(
        indent,
        "<figure class=\"TypMark-codeblock\" data-typmark=\"codeblock\"".spec_bytes() + attrs + lang_attr(code.lang)
            + seq![62u8],
    ) + spaces(deeper(indent) as nat) + "<pre class=\"TypMark-pre\"><code class=\"language-".spec_bytes() + (
    match code.lang {
        Some(l) => escaped(sbytes(l)),
        None => Seq::empty(),
    }) + "\">".spec_bytes() + code_lines_html(lines, code.meta, lines.len()) + "</code></pre>\n".spec_bytes()
        + line_at(indent, "</figure>".spec_bytes())
}

/// The attributes of a code block: its label and items, those of its info string, its range.
pub open spec fn code_attrs(b: Block, code: CodeBlock, map: Option<&SourceMap>) -> Seq<u8> {
    attrs_html(b.attrs.label, b.attrs.items@) + data_attrs(code.info_attrs.items@) + range_part(map, b.span)
}

/// A code block: plain `<pre><code>` with simple output or for indented code, else a figure
/// with one span per line.
pub open spec fn code_block_html(b: Block, code: CodeBlock, indent: usize, opts: HtmlEmitOptions, map: Option<&SourceMap>) -> Seq<u8> {
    if opts.simple_code_blocks || code.kind == CodeBlockKind::Indented {
        code_pre_html(code, code_attrs(b, code, map), opts.simple_code_blocks)
    } else {
        code_figure_html(code, code_attrs(b, code, map), indent)
    }
}

/// `ol` or `ul`.
pub open spec fn list_tag(ordered: bool) -> Seq<u8> {
    if ordered {
        "ol".spec_bytes()
    } else {
        "ul".spec_bytes()
    }
}

/// Some item of the list is a task.
pub open spec fn has_tasks(items: Seq<ListItem>) -> bool {
    exists|k: int| 0 <= k < items.len() && (#[trigger] items[k]).task is Some
}

/// ` start="n"` for an ordered list that does not start at one.
pub open spec fn start_attr(l: List) -> Seq<u8> {
    if l.ordered && l.start is Some && l.start->0 != 1 {
        " start=\"".spec_bytes() + decimal(l.start->0 as nat) + seq![34u8]
    } else {
        Seq::empty()
    }
}

/// The opening tag of a list.
pub open spec fn list_open(b: Block, l: List, map: Option<&SourceMap>) -> Seq<u8> {
    seq![60u8] + list_tag(l.ordered) + attrs_html(b.attrs.label, b.attrs.items@) + start_attr(l) + (if has_tasks(l.items@) {
        " class=\"task-list\"".spec_bytes()
    } else {
        Seq::empty()
    }) + range_part(map, b.span) + seq![62u8]
}

/// The checkbox that starts a task item.
pub open spec fn task_input(checked: bool) -> Seq<u8> {
    if checked {
        "<input type=\"checkbox\" disabled=\"\" checked=\"\" /> ".spec_bytes()
    } else {
        "<input type=\"checkbox\" disabled=\"\" /> ".spec_bytes()
    }
}

/// The class of a task item.
pub open spec fn task_class(task: Option<bool>) -> Seq<u8> {
    if task is Some {
        " class=\"task-list-item\"".spec_bytes()
    } else {
        "".spec_bytes()
    }
}

/// The checkbox of an item, if it is a task.
pub open spec fn task_part(task: Option<bool>) -> Seq<u8> {
    match task {
        Some(c) => task_input(c),
        None => Seq::empty(),
    }
}

/// `</li>` on a line of its own after a block that ended its line, else right after it.
pub open spec fn close_li(ended: bool, indent: usize) -> Seq<u8> {
    if ended {
        line_at(indent, "</li>".spec_bytes())
    } else {
        "</li>\n".spec_bytes()
    }
}

/// Whether a block emitted in a tight item ends its line: a paragraph does not, a section
/// without its wrapper ends as its last block does.
pub open spec fn tight_ended(b: Block, opts: HtmlEmitOptions) -> bool
    decreases b,
{
    match b.kind {
        BlockKind::Paragraph { .. } => false,
        BlockKind::Section { children, .. } => if opts.wrap_sections || children@.len() == 0 {
            true
        } else {
            tight_ended(children@.last(), opts)
        },
        _ => true,
    }
}

/// Blocks of a tight item one after the other, a line end after a block that did not end its
/// line when another follows.
pub open spec fn tight_seq(bs: Seq<Block>, indent: usize, opts: HtmlEmitOptions, map: Option<&SourceMap>) -> Seq<u8>
    decreases bs, 0nat,
{
    if bs.len() == 0 {
        Seq::empty()
    } else {
        tight_seq(bs.drop_last(), indent, opts, map) + (if bs.len() >= 2 && !tight_ended(bs[bs.len() - 2], opts) {
            seq![10u8]
        } else {
            Seq::empty()
        }) + tight_html(bs.last(), indent, opts, map)
    }
}

/// A block in a tight item: a paragraph is its inline content alone, a section holds tight
/// blocks, any other block is as usual.
pub open spec fn tight_html(b: Block, indent: usize, opts: HtmlEmitOptions, map: Option<&SourceMap>) -> Seq<u8>
    decreases b, 1nat,
{
    match b.kind {
        BlockKind::Paragraph { content } => spaces(indent as nat) + inlines_html(content@, RenderContext::Normal, map),
        BlockKind::Section { level, title, label, children } => if opts.wrap_sections {
            line_at(indent, "<section".spec_bytes() + attrs_html(label, b.attrs.items@) + range_part(map, b.span) + seq![62u8])
                + line_at(deeper(indent), heading_html(level, Seq::empty(), title@, map)) + tight_seq(
                children@,
                deeper(indent),
                opts,
                map,
            ) + line_at(indent, "</section>".spec_bytes())
        } else {
            line_at(
                indent,
                heading_html(level, attrs_html(label, b.attrs.items@) + range_part(map, b.span), title@, map),
            ) + tight_seq(children@, indent, opts, map)
        },
        _ => block_html(b, indent, opts, map),
    }
}

/// The blocks of a loose item; a task's first paragraph carries its checkbox.
pub open spec fn loose_blocks(
    bs: Seq<Block>,
    task: Option<bool>,
    indent: usize,
    opts: HtmlEmitOptions,
    map: Option<&SourceMap>,
) -> Seq<u8>
    decreases bs, 0nat,
{
    if bs.len() == 0 {
        Seq::empty()
    } else {
        loose_blocks(bs.drop_last(), task, indent, opts, map) + (if bs.len() == 1 && task is Some
            && bs.last().kind is Paragraph {
            spaces(indent as nat) + "<p>".spec_bytes() + task_input(task->0) + inlines_html(
                bs.last().kind->Paragraph_content@,
                RenderContext::Normal,
                map,
            ) + "</p>\n".spec_bytes()
        } else {
            block_html(bs.last(), indent, opts, map)
        })
    }
}

/// A list item: empty, tight (its first paragraph inline in the `<li>` line) or loose.
pub open spec fn item_html(item: ListItem, tight: bool, indent: usize, opts: HtmlEmitOptions, map: Option<&SourceMap>) -> Seq<u8>
    decreases item, 0nat,
{
    let tc = task_class(item.task);
    let bs = item.blocks@;
    if bs.len() == 0 {
        line_at(indent, "<li".spec_bytes() + tc + "></li>".spec_bytes())
    } else if tight {
        if bs[0].kind is Paragraph {
            spaces(indent as nat) + "<li".spec_bytes() + tc + seq![62u8] + task_part(item.task) + inlines_html(
                bs[0].kind->Paragraph_content@,
                RenderContext::Normal,
                map,
            ) + (if bs.len() > 1 {
                seq![10u8] + tight_seq(bs.skip(1), deeper(indent), opts, map) + close_li(tight_ended(bs.last(), opts), indent)
            } else {
                "</li>\n".spec_bytes()
            })
        } else {
            line_at(indent, "<li".spec_bytes() + tc + seq![62u8]) + (match item.task {
                Some(c) => line_at(deeper(indent), task_input(c)),
                None => Seq::empty(),
            }) + tight_seq(bs, deeper(indent), opts, map) + close_li(tight_ended(bs.last(), opts), indent)
        }
    } else {
        line_at(indent, "<li".spec_bytes() + tc + seq![62u8]) + loose_blocks(bs, item.task, deeper(indent), opts, map)
            + line_at(indent, "</li>".spec_bytes())
    }
}

/// The items of a list, one after the other.
pub open spec fn items_html(items: Seq<ListItem>, tight: bool, indent: usize, opts: HtmlEmitOptions, map: Option<&SourceMap>) -> Seq<u8>
    decreases items, 0nat,
{
    if items.len() == 0 {
        Seq::empty()
    } else {
        items_html(items.drop_last(), tight, indent, opts, map) + item_html(items.last(), tight, indent, opts, map)
    }
}

/// Blocks without math (no math block, no inline math): their HTML is `block_html` whatever
/// math was rendered.
pub open spec fn plain_block(b: Block) -> bool
    decreases b,
{
    match b.kind {
        BlockKind::Paragraph { content } => math_free(content@),
        BlockKind::Heading { title, .. } => math_free(title@),
        BlockKind::Section { title, children, .. } => math_free(title@) && plain_blocks(children@),
        BlockKind::BlockQuote { blocks } => plain_blocks(blocks@),
        BlockKind::Box(bx) => (match bx.title {
            Some(t) => math_free(t@),
            None => true,
        }) && plain_blocks(bx.blocks@),
        BlockKind::ThematicBreak => true,
        BlockKind::HtmlBlock { .. } => true,
        BlockKind::Table(t) => table_plain(t),
        BlockKind::CodeBlock(_) => true,
        BlockKind::List(l) => forall|k: int| 0 <= k < l.items@.len() ==> plain_blocks(#[trigger] l.items@[k].blocks@),
        _ => false,
    }
}

pub open spec fn plain_blocks(bs: Seq<Block>) -> bool
    decreases bs,
{
    forall|i: int| 0 <= i < bs.len() ==> plain_block(#[trigger] bs[i])
}

/// The HTML of blocks, one after the other, at an indentation level.
pub open spec fn blocks_html(bs: Seq<Block>, indent: usize, opts: HtmlEmitOptions, map: Option<&SourceMap>) -> Seq<u8>
    decreases bs, 0nat,
{
    if bs.len() == 0 {
        Seq::empty()
    } else {
        blocks_html(bs.drop_last(), indent, opts, map) + block_html(bs.last(), indent, opts, map)
    }
}

/// The HTML of a block at an indentation level, sections wrapped or not, with source ranges
/// when a source map is given; math shows its source as an error (no rendered SVG is given).
pub open spec fn block_html(b: Block, indent: usize, opts: HtmlEmitOptions, map: Option<&SourceMap>) -> Seq<u8>
    decreases b, 0nat,
{
    let attrs = attrs_html(b.attrs.label, b.attrs.items@);
    let range = range_part(map, b.span);
    match b.kind {
        BlockKind::Section { level, title, label, children } => if opts.wrap_sections {
            line_at(indent, "<section".spec_bytes() + attrs_html(label, b.attrs.items@) + range + seq![62u8])
                + line_at(deeper(indent), heading_html(level, Seq::empty(), title@, map))
                + blocks_html(children@, deeper(indent), opts, map)
                + line_at(indent, "</section>".spec_bytes())
        } else {
            line_at(indent, heading_html(level, attrs_html(label, b.attrs.items@) + range, title@, map))
                + blocks_html(children@, indent, opts, map)
        },
        BlockKind::Heading { level, title } => line_at(indent, heading_html(level, attrs + range, title@, map)),
        BlockKind::Paragraph { content } => line_at(
            indent,
            "<p".spec_bytes() + attrs + range + seq![62u8] + inlines_html(content@, RenderContext::Normal, map)
                + "</p>".spec_bytes(),
        ),
        BlockKind::BlockQuote { blocks } => line_at(indent, seq![60u8] + "blockquote".spec_bytes() + attrs + range + seq![62u8])
            + blocks_html(blocks@, deeper(indent), opts, map) + line_at(indent, "</blockquote>".spec_bytes()),
        BlockKind::Box(bx) => line_at(
            indent,
            "<div class=\"TypMark-box\" data-typmark=\"box\"".spec_bytes() + attrs + range + seq![62u8],
        ) + (match bx.title {
            Some(t) => line_at(
                deeper(indent),
                "<div class=\"TypMark-box-title\">".spec_bytes() + inlines_html(t@, RenderContext::Title, map)
                    + "</div>".spec_bytes(),
            ),
            None => Seq::empty(),
        }) + line_at(deeper(indent), "<div class=\"TypMark-box-body\">".spec_bytes()) + blocks_html(
            bx.blocks@,
            deeper(deeper(indent)),
            opts,
            map,
        ) + line_at(deeper(indent), "</div>".spec_bytes()) + line_at(indent, "</div>".spec_bytes()),
        BlockKind::ThematicBreak => line_at(indent, "<hr".spec_bytes() + attrs + range + " />".spec_bytes()),
        BlockKind::Table(t) => table_html(b, t, indent, map),
        BlockKind::CodeBlock(code) => code_block_html(b, code, indent, opts, map),
        BlockKind::List(l) => line_at(indent, list_open(b, l, map)) + items_html(l.items@, l.tight, deeper(indent), opts, map)
            + line_at(indent, "</".spec_bytes() + list_tag(l.ordered) + seq![62u8]),
        BlockKind::MathBlock { typst_src } => line_at(
            indent,
            "<div class=\"TypMark-math-block--error\"".spec_bytes() + attrs + range + seq![62u8] + escaped(sbytes(typst_src))
                + "</div>".spec_bytes(),
        ),
        BlockKind::HtmlBlock { raw } => if attrs.len() == 0 {
            line_at(indent, sbytes(raw))
        } else {
            line_at(indent, "<div class=\"TypMark-html\" data-typmark=\"html\"".spec_bytes() + attrs + range + seq![62u8])
                + line_at(deeper(indent), sbytes(raw)) + line_at(indent, "</div>".spec_bytes())
        },
        _ => Seq::empty(),
    }
}


/// Indentation is ASCII.
pub proof fn lemma_spaces_ascii(n: nat)
    ensures
        ascii(spaces(n)),
    decreases n,
{
    if n > 0 {
        lemma_spaces_ascii((n - 1) as nat);
        assert(ascii(seq![32u8, 32u8]));
        lemma_ascii_cat(spaces((n - 1) as nat), seq![32u8, 32u8]);
    }
}

/// A line of UTF-8 is UTF-8.
pub proof fn lemma_line_valid(indent: usize, l: Seq<u8>)
    requires
        valid_utf8(l),
    ensures
        valid_utf8(line_at(indent, l)),
{
    lemma_spaces_ascii(indent as nat);
    lemma_ascii_valid(spaces(indent as nat));
    assert(ascii(seq![10u8]));
    lemma_ascii_valid(seq![10u8]);
    lemma_valid_cat3(spaces(indent as nat), l, seq![10u8]);
}

/// Attributes are UTF-8.
pub proof fn lemma_data_attrs_valid(items: Seq<AttrItem>)
    ensures
        valid_utf8(data_attrs(items)),
    decreases items.len(),
{
    if items.len() == 0 {
        lemma_empty_valid();
    } else {
        lemma_data_attrs_valid(items.drop_last());
        let it = items.last();
        lemma_str_valid(" data-");
        lemma_escaped_string_valid(it.key);
        lemma_escaped_string_valid(it.value.raw);
        assert(ascii(seq![61u8, 34u8]));
        lemma_ascii_valid(seq![61u8, 34u8]);
        assert(ascii(seq![34u8]));
        lemma_ascii_valid(seq![34u8]);
        lemma_valid_cat5(
            " data-".spec_bytes(),
            escaped(sbytes(it.key)),
            seq![61u8, 34u8],
            escaped(sbytes(it.value.raw)),
            seq![34u8],
        );
        lemma_cat(data_attrs(items.drop_last()), data_attr(it));
    }
}

pub proof fn lemma_attrs_valid(label: Option<Label>, items: Seq<AttrItem>)
    ensures
        valid_utf8(attrs_html(label, items)),
{
    lemma_data_attrs_valid(items);
    match label {
        Some(l) => {
            assert(ascii(seq![32u8, 105u8, 100u8, 61u8, 34u8]));
            lemma_ascii_valid(seq![32u8, 105u8, 100u8, 61u8, 34u8]);
            assert(ascii(seq![34u8]));
            lemma_ascii_valid(seq![34u8]);
            lemma_escaped_string_valid(l.name);
            lemma_valid_cat3(seq![32u8, 105u8, 100u8, 61u8, 34u8], escaped(sbytes(l.name)), seq![34u8]);
            lemma_cat(id_attr(l), data_attrs(items));
        },
        None => {},
    }
}

pub proof fn lemma_range_part_valid(map: Option<&SourceMap>, span: Span)
    ensures
        valid_utf8(range_part(map, span)),
{
    match map {
        Some(m) => lemma_range_attr_valid(m.spec_position(span.start), m.spec_position(span.end)),
        None => lemma_empty_valid(),
    }
}

pub proof fn lemma_heading_valid(level: u8, attrs: Seq<u8>, title: Seq<Inline>, map: Option<&SourceMap>)
    requires
        valid_utf8(attrs),
    ensures
        valid_utf8(heading_html(level, attrs, title, map)),
{
    lemma_str_valid("<h");
    lemma_str_valid("</h");
    lemma_decimal_ascii(level as nat);
    lemma_ascii_valid(decimal(level as nat));
    assert(ascii(seq![62u8]));
    lemma_ascii_valid(seq![62u8]);
    lemma_inlines_html_valid(title, RenderContext::Title, map);
    lemma_valid_cat4("<h".spec_bytes(), decimal(level as nat), attrs, seq![62u8]);
    let a = "<h".spec_bytes() + decimal(level as nat) + attrs + seq![62u8];
    lemma_valid_cat5(a, inlines_html(title, RenderContext::Title, map), "</h".spec_bytes(), decimal(level as nat), seq![62u8]);
}

pub proof fn lemma_align_attr_valid(align: Option<TableAlign>)
    ensures
        valid_utf8(align_attr(align)),
{
    lemma_str_valid(" align=\"left\"");
    lemma_str_valid(" align=\"center\"");
    lemma_str_valid(" align=\"right\"");
    lemma_str_valid("");
}

pub proof fn lemma_cells_valid(
    cells: Seq<Vec<Inline>>,
    aligns: Seq<TableAlign>,
    indent: usize,
    header: bool,
    map: Option<&SourceMap>,
)
    ensures
        valid_utf8(cells_html(cells, aligns, indent, header, map)),
    decreases cells.len(),
{
    if cells.len() == 0 {
        lemma_empty_valid();
    } else {
        lemma_cells_valid(cells.drop_last(), aligns, indent, header, map);
        let cell = cells.last()@;
        let align = column_align(aligns, cells.len() - 1);
        lemma_str_valid("<th");
        lemma_str_valid("<td");
        lemma_str_valid("</th>");
        lemma_str_valid("</td>");
        lemma_align_attr_valid(align);
        assert(ascii(seq![62u8]));
        lemma_ascii_valid(seq![62u8]);
        lemma_inlines_html_valid(cell, RenderContext::Normal, map);
        let open = if header {
            "<th".spec_bytes()
        } else {
            "<td".spec_bytes()
        };
        let close = if header {
            "</th>".spec_bytes()
        } else {
            "</td>".spec_bytes()
        };
        lemma_valid_cat5(open, align_attr(align), seq![62u8], inlines_html(cell, RenderContext::Normal, map), close);
        lemma_line_valid(indent, cell_html(cell, align, header, map));
        lemma_cat(cells_html(cells.drop_last(), aligns, indent, header, map), line_at(indent, cell_html(cell, align, header, map)));
    }
}

pub proof fn lemma_rows_valid(rows: Seq<Vec<Vec<Inline>>>, aligns: Seq<TableAlign>, indent: usize, map: Option<&SourceMap>)
    ensures
        valid_utf8(rows_html(rows, aligns, indent, map)),
    decreases rows.len(),
{
    if rows.len() == 0 {
        lemma_empty_valid();
    } else {
        lemma_rows_valid(rows.drop_last(), aligns, indent, map);
        lemma_str_valid("<tr>");
        lemma_str_valid("</tr>");
        lemma_line_valid(indent, "<tr>".spec_bytes());
        lemma_line_valid(indent, "</tr>".spec_bytes());
        lemma_cells_valid(rows.last()@, aligns, deeper(indent), false, map);
        lemma_valid_cat4(
            rows_html(rows.drop_last(), aligns, indent, map),
            line_at(indent, "<tr>".spec_bytes()),
            cells_html(rows.last()@, aligns, deeper(indent), false, map),
            line_at(indent, "</tr>".spec_bytes()),
        );
    }
}

pub proof fn lemma_table_valid(b: Block, t: Table, indent: usize, map: Option<&SourceMap>)
    ensures
        valid_utf8(table_html(b, t, indent, map)),
{
    let d1 = deeper(indent);
    let d2 = deeper(d1);
    let attrs = attrs_html(b.attrs.label, b.attrs.items@);
    let range = range_part(map, b.span);
    lemma_attrs_valid(b.attrs.label, b.attrs.items@);
    lemma_range_part_valid(map, b.span);
    assert(ascii(seq![62u8]));
    lemma_ascii_valid(seq![62u8]);
    assert(ascii(seq![60u8]));
    lemma_ascii_valid(seq![60u8]);
    lemma_str_valid("table");
    lemma_valid_cat5(seq![60u8], "table".spec_bytes(), attrs, range, seq![62u8]);
    let head = line_at(indent, seq![60u8] + "table".spec_bytes() + attrs + range + seq![62u8]);
    lemma_line_valid(indent, seq![60u8] + "table".spec_bytes() + attrs + range + seq![62u8]);
    lemma_str_valid("<thead>");
    lemma_str_valid("</thead>");
    lemma_str_valid("<tr>");
    lemma_str_valid("</tr>");
    lemma_str_valid("<tbody>");
    lemma_str_valid("</tbody>");
    lemma_str_valid("</table>");
    lemma_line_valid(d1, "<thead>".spec_bytes());
    lemma_line_valid(d1, "</thead>".spec_bytes());
    lemma_line_valid(d2, "<tr>".spec_bytes());
    lemma_line_valid(d2, "</tr>".spec_bytes());
    lemma_line_valid(d1, "<tbody>".spec_bytes());
    lemma_line_valid(d1, "</tbody>".spec_bytes());
    lemma_line_valid(indent, "</table>".spec_bytes());
    lemma_cells_valid(t.headers@, t.aligns@, deeper(d2), true, map);
    lemma_rows_valid(t.rows@, t.aligns@, d2, map);
    let body = if t.rows@.len() > 0 {
        line_at(d1, "<tbody>".spec_bytes()) + rows_html(t.rows@, t.aligns@, d2, map) + line_at(d1, "</tbody>".spec_bytes())
    } else {
        Seq::empty()
    };
    lemma_valid_cat3(
        line_at(d1, "<tbody>".spec_bytes()),
        rows_html(t.rows@, t.aligns@, d2, map),
        line_at(d1, "</tbody>".spec_bytes()),
    );
    lemma_empty_valid();
    assert(valid_utf8(body));
    lemma_valid_cat4(
        head,
        line_at(d1, "<thead>".spec_bytes()),
        line_at(d2, "<tr>".spec_bytes()),
        cells_html(t.headers@, t.aligns@, deeper(d2), true, map),
    );
    let a = head + line_at(d1, "<thead>".spec_bytes()) + line_at(d2, "<tr>".spec_bytes()) + cells_html(
        t.headers@,
        t.aligns@,
        deeper(d2),
        true,
        map,
    );
    lemma_valid_cat5(
        a,
        line_at(d2, "</tr>".spec_bytes()),
        line_at(d1, "</thead>".spec_bytes()),
        body,
        line_at(indent, "</table>".spec_bytes()),
    );
}

pub proof fn lemma_code_line_valid(line: Seq<u8>, line_no: u32, meta: CodeMeta, display: u64)
    requires
        valid_utf8(line),
    ensures
        valid_utf8(code_line_html(line, line_no, meta, display)),
{
    let hl = in_ranges(line_no, meta.hl@);
    let d = diff_kind(line_no, meta);
    lemma_empty_valid();
    lemma_str_valid("<span class=\"line");
    lemma_str_valid(" highlighted");
    lemma_str_valid(" diff add");
    lemma_str_valid(" diff del");
    lemma_str_valid(" data-line=\"");
    lemma_str_valid(" data-highlighted-line");
    lemma_str_valid(" data-diff=\"add\"");
    lemma_str_valid(" data-diff=\"del\"");
    lemma_str_valid(" id=\"");
    lemma_str_valid("\" data-line-label=\"");
    lemma_str_valid("</span>");
    assert(ascii(seq![34u8]));
    lemma_ascii_valid(seq![34u8]);
    assert(ascii(seq![62u8]));
    lemma_ascii_valid(seq![62u8]);
    lemma_decimal_ascii(display as nat);
    lemma_ascii_valid(decimal(display as nat));
    lemma_escaped_valid(line);
    let p_hl = if hl {
        " highlighted".spec_bytes()
    } else {
        Seq::<u8>::empty()
    };
    let p_diff = if d == 1 {
        " diff add".spec_bytes()
    } else if d == 2 {
        " diff del".spec_bytes()
    } else {
        Seq::<u8>::empty()
    };
    lemma_valid_cat3(" data-line=\"".spec_bytes(), decimal(display as nat), seq![34u8]);
    let p_no = if d != 2 {
        " data-line=\"".spec_bytes() + decimal(display as nat) + seq![34u8]
    } else {
        Seq::<u8>::empty()
    };
    let p_hl2 = if hl {
        " data-highlighted-line".spec_bytes()
    } else {
        Seq::<u8>::empty()
    };
    let p_d2 = if d == 1 {
        " data-diff=\"add\"".spec_bytes()
    } else if d == 2 {
        " data-diff=\"del\"".spec_bytes()
    } else {
        Seq::<u8>::empty()
    };
    let p_label = match line_label(meta.line_labels@, line_no) {
        Some(l) => " id=\"".spec_bytes() + escaped(sbytes(l.name)) + "\" data-line-label=\"".spec_bytes() + escaped(
            sbytes(l.name),
        ) + seq![34u8],
        None => Seq::empty(),
    };
    match line_label(meta.line_labels@, line_no) {
        Some(l) => {
            lemma_escaped_string_valid(l.name);
            lemma_valid_cat5(
                " id=\"".spec_bytes(),
                escaped(sbytes(l.name)),
                "\" data-line-label=\"".spec_bytes(),
                escaped(sbytes(l.name)),
                seq![34u8],
            );
        },
        None => {},
    }
    assert(valid_utf8(p_hl));
    assert(valid_utf8(p_diff));
    assert(valid_utf8(p_no));
    assert(valid_utf8(p_hl2));
    assert(valid_utf8(p_d2));
    assert(valid_utf8(p_label));
    lemma_valid_cat5("<span class=\"line".spec_bytes(), p_hl, p_diff, seq![34u8], p_no);
    let a = "<span class=\"line".spec_bytes() + p_hl + p_diff + seq![34u8] + p_no;
    assert(a == line_head_html(hl, d, display));
    lemma_valid_cat3(p_hl2, p_d2, p_label);
    let m = p_hl2 + p_d2 + p_label;
    assert(m == line_marks_html(hl, d, line_label(meta.line_labels@, line_no)));
    lemma_valid_cat5(a, m, seq![62u8], escaped(line), "</span>".spec_bytes());
}

pub proof fn lemma_code_lines_valid(lines: Seq<Seq<u8>>, meta: CodeMeta, n: nat)
    requires
        forall|k: int| 0 <= k < lines.len() ==> valid_utf8(#[trigger] lines[k]),
    ensures
        valid_utf8(code_lines_html(lines, meta, n)),
    decreases n,
{
    if n == 0 || n > lines.len() {
        lemma_empty_valid();
    } else {
        lemma_code_lines_valid(lines, meta, (n - 1) as nat);
        lemma_code_line_valid(lines[n - 1], line_number(n - 1), meta, display_before(meta, (n - 1) as nat));
        lemma_cat(
            code_lines_html(lines, meta, (n - 1) as nat),
            code_line_html(lines[n - 1], line_number(n - 1), meta, display_before(meta, (n - 1) as nat)),
        );
    }
}

pub proof fn lemma_code_block_valid(b: Block, code: CodeBlock, indent: usize, opts: HtmlEmitOptions, map: Option<&SourceMap>)
    ensures
        valid_utf8(code_block_html(b, code, indent, opts, map)),
{
    lemma_empty_valid();
    lemma_attrs_valid(b.attrs.label, b.attrs.items@);
    lemma_data_attrs_valid(code.info_attrs.items@);
    lemma_range_part_valid(map, b.span);
    let attrs = attrs_html(b.attrs.label, b.attrs.items@) + data_attrs(code.info_attrs.items@) + range_part(map, b.span);
    lemma_valid_cat3(attrs_html(b.attrs.label, b.attrs.items@), data_attrs(code.info_attrs.items@), range_part(map, b.span));
    lemma_escaped_string_valid(code.text);
    let text = escaped(sbytes(code.text));
    assert(ascii(seq![62u8]));
    lemma_ascii_valid(seq![62u8]);
    assert(ascii(seq![34u8]));
    lemma_ascii_valid(seq![34u8]);
    assert(ascii(seq![10u8]));
    lemma_ascii_valid(seq![10u8]);
    if opts.simple_code_blocks || code.kind == CodeBlockKind::Indented {
        lemma_str_valid("<pre");
        lemma_str_valid("><code");
        lemma_str_valid(" class=\"language-");
        lemma_str_valid("</code></pre>\n");
        let cls = if opts.simple_code_blocks && code.lang is Some {
            " class=\"language-".spec_bytes() + escaped(sbytes(code.lang->0)) + seq![34u8]
        } else {
            Seq::<u8>::empty()
        };
        if code.lang is Some {
            lemma_escaped_string_valid(code.lang->0);
            lemma_valid_cat3(" class=\"language-".spec_bytes(), escaped(sbytes(code.lang->0)), seq![34u8]);
        }
        let nl = if text.len() > 0 && text.last() != 10u8 {
            seq![10u8]
        } else {
            Seq::<u8>::empty()
        };
        lemma_valid_cat4("<pre".spec_bytes(), attrs, "><code".spec_bytes(), cls);
        let a = "<pre".spec_bytes() + attrs + "><code".spec_bytes() + cls;
        lemma_valid_cat5(a, seq![62u8], text, nl, "</code></pre>\n".spec_bytes());
    } else {
        let lines = code_lines(sbytes(code.text));
        lemma_sbytes_valid(code.text);
        lemma_raw_lines_valid(sbytes(code.text));
        assert forall|k: int| 0 <= k < lines.len() implies valid_utf8(#[trigger] lines[k]) by {
            lemma_drop_cr_valid(raw_lines(sbytes(code.text))[k]);
        }
        lemma_code_lines_valid(lines, code.meta, lines.len());
        lemma_str_valid("<figure class=\"TypMark-codeblock\" data-typmark=\"codeblock\"");
        lemma_str_valid(" data-lang=\"");
        lemma_str_valid("<pre class=\"TypMark-pre\"><code class=\"language-");
        lemma_str_valid("\">");
        lemma_str_valid("</code></pre>\n");
        lemma_str_valid("</figure>");
        let lang_esc = match code.lang {
            Some(l) => escaped(sbytes(l)),
            None => Seq::empty(),
        };
        match code.lang {
            Some(l) => {
                lemma_escaped_string_valid(l);
                lemma_valid_cat3(" data-lang=\"".spec_bytes(), escaped(sbytes(l)), seq![34u8]);
            },
            None => {},
        }
        lemma_valid_cat4(
            "<figure class=\"TypMark-codeblock\" data-typmark=\"codeblock\"".spec_bytes(),
            attrs,
            lang_attr(code.lang),
            seq![62u8],
        );
        let head = line_at(
            indent,
            "<figure class=\"TypMark-codeblock\" data-typmark=\"codeblock\"".spec_bytes() + attrs + lang_attr(code.lang)
                + seq![62u8],
        );
        lemma_line_valid(
            indent,
            "<figure class=\"TypMark-codeblock\" data-typmark=\"codeblock\"".spec_bytes() + attrs + lang_attr(code.lang)
                + seq![62u8],
        );
        lemma_spaces_ascii(deeper(indent) as nat);
        lemma_ascii_valid(spaces(deeper(indent) as nat));
        lemma_valid_cat5(
            head,
            spaces(deeper(indent) as nat),
            "<pre class=\"TypMark-pre\"><code class=\"language-".spec_bytes(),
            lang_esc,
            "\">".spec_bytes(),
        );
        let a = head + spaces(deeper(indent) as nat) + "<pre class=\"TypMark-pre\"><code class=\"language-".spec_bytes()
            + lang_esc + "\">".spec_bytes();
        lemma_line_valid(indent, "</figure>".spec_bytes());
        lemma_valid_cat4(
            a,
            code_lines_html(lines, code.meta, lines.len()),
            "</code></pre>\n".spec_bytes(),
            line_at(indent, "</figure>".spec_bytes()),
        );
    }
}

pub proof fn lemma_list_open_valid(b: Block, l: List, map: Option<&SourceMap>)
    ensures
        valid_utf8(list_open(b, l, map)),
{
    lemma_empty_valid();
    assert(ascii(seq![62u8]));
    lemma_ascii_valid(seq![62u8]);
    assert(ascii(seq![60u8]));
    lemma_ascii_valid(seq![60u8]);
    assert(ascii(seq![34u8]));
    lemma_ascii_valid(seq![34u8]);
    lemma_str_valid("ol");
    lemma_str_valid("ul");
    lemma_str_valid(" start=\"");
    lemma_str_valid(" class=\"task-list\"");
    lemma_attrs_valid(b.attrs.label, b.attrs.items@);
    lemma_range_part_valid(map, b.span);
    if l.ordered && l.start is Some && l.start->0 != 1 {
        lemma_decimal_ascii(l.start->0 as nat);
        lemma_ascii_valid(decimal(l.start->0 as nat));
        lemma_valid_cat3(" start=\"".spec_bytes(), decimal(l.start->0 as nat), seq![34u8]);
    }
    let tasks = if has_tasks(l.items@) {
        " class=\"task-list\"".spec_bytes()
    } else {
        Seq::<u8>::empty()
    };
    lemma_valid_cat4(seq![60u8], list_tag(l.ordered), attrs_html(b.attrs.label, b.attrs.items@), start_attr(l));
    let a = seq![60u8] + list_tag(l.ordered) + attrs_html(b.attrs.label, b.attrs.items@) + start_attr(l);
    lemma_valid_cat4(a, tasks, range_part(map, b.span), seq![62u8]);
}

proof fn lemma_task_lits_valid()
    ensures
        valid_utf8(task_input(true)),
        valid_utf8(task_input(false)),
        valid_utf8(" class=\"task-list-item\"".spec_bytes()),
        valid_utf8("".spec_bytes()),
        valid_utf8("<li".spec_bytes()),
        valid_utf8("></li>".spec_bytes()),
        valid_utf8("</li>".spec_bytes()),
        valid_utf8("</li>\n".spec_bytes()),
        valid_utf8("<p>".spec_bytes()),
        valid_utf8("</p>\n".spec_bytes()),
        valid_utf8(seq![62u8]),
        valid_utf8(seq![10u8]),
{
    lemma_str_valid("<input type=\"checkbox\" disabled=\"\" checked=\"\" /> ");
    lemma_str_valid("<input type=\"checkbox\" disabled=\"\" /> ");
    lemma_str_valid(" class=\"task-list-item\"");
    lemma_str_valid("");
    lemma_str_valid("<li");
    lemma_str_valid("></li>");
    lemma_str_valid("</li>");
    lemma_str_valid("</li>\n");
    lemma_str_valid("<p>");
    lemma_str_valid("</p>\n");
    assert(ascii(seq![62u8]));
    lemma_ascii_valid(seq![62u8]);
    assert(ascii(seq![10u8]));
    lemma_ascii_valid(seq![10u8]);
}

pub proof fn lemma_items_valid(items: Seq<ListItem>, tight: bool, indent: usize, opts: HtmlEmitOptions, map: Option<&SourceMap>)
    ensures
        valid_utf8(items_html(items, tight, indent, opts, map)),
    decreases items, 0nat,
{
    if items.len() == 0 {
        lemma_empty_valid();
    } else {
        lemma_items_valid(items.drop_last(), tight, indent, opts, map);
        lemma_item_valid(items.last(), tight, indent, opts, map);
        lemma_cat(items_html(items.drop_last(), tight, indent, opts, map), item_html(items.last(), tight, indent, opts, map));
    }
}

pub proof fn lemma_item_valid(item: ListItem, tight: bool, indent: usize, opts: HtmlEmitOptions, map: Option<&SourceMap>)
    ensures
        valid_utf8(item_html(item, tight, indent, opts, map)),
    decreases item, 0nat,
{
    lemma_task_lits_valid();
    lemma_empty_valid();
    let tc = task_class(item.task);
    let bs = item.blocks@;
    let tp = task_part(item.task);
    assert(valid_utf8(tc));
    assert(valid_utf8(tp));
    lemma_spaces_ascii(indent as nat);
    lemma_ascii_valid(spaces(indent as nat));
    if bs.len() == 0 {
        lemma_valid_cat3("<li".spec_bytes(), tc, "></li>".spec_bytes());
        lemma_line_valid(indent, "<li".spec_bytes() + tc + "></li>".spec_bytes());
    } else {
        lemma_valid_cat3("<li".spec_bytes(), tc, seq![62u8]);
        lemma_line_valid(indent, "<li".spec_bytes() + tc + seq![62u8]);
        lemma_line_valid(indent, "</li>".spec_bytes());
        let ended = tight_ended(bs.last(), opts);
        lemma_line_valid(indent, "</li>".spec_bytes());
        assert(valid_utf8(close_li(ended, indent)));
        if tight {
            if bs[0].kind is Paragraph {
                let content = bs[0].kind->Paragraph_content@;
                lemma_inlines_html_valid(content, RenderContext::Normal, map);
                assert(decreases_to!(item => item.blocks));
                assert(decreases_to!(item.blocks => item.blocks@));
                lemma_tight_seq_valid(bs.skip(1), deeper(indent), opts, map);
                lemma_valid_cat3(seq![10u8], tight_seq(bs.skip(1), deeper(indent), opts, map), close_li(ended, indent));
                let rest = if bs.len() > 1 {
                    seq![10u8] + tight_seq(bs.skip(1), deeper(indent), opts, map) + close_li(ended, indent)
                } else {
                    "</li>\n".spec_bytes()
                };
                lemma_valid_cat5(spaces(indent as nat), "<li".spec_bytes(), tc, seq![62u8], tp);
                let a = spaces(indent as nat) + "<li".spec_bytes() + tc + seq![62u8] + tp;
                lemma_valid_cat3(a, inlines_html(content, RenderContext::Normal, map), rest);
            } else {
                let tl = match item.task {
                    Some(c) => line_at(deeper(indent), task_input(c)),
                    None => Seq::<u8>::empty(),
                };
                match item.task {
                    Some(c) => lemma_line_valid(deeper(indent), task_input(c)),
                    None => {},
                }
                assert(decreases_to!(item => item.blocks));
                assert(decreases_to!(item.blocks => item.blocks@));
                lemma_tight_seq_valid(bs, deeper(indent), opts, map);
                lemma_valid_cat4(
                    line_at(indent, "<li".spec_bytes() + tc + seq![62u8]),
                    tl,
                    tight_seq(bs, deeper(indent), opts, map),
                    close_li(ended, indent),
                );
            }
        } else {
            assert(decreases_to!(item => item.blocks));
            assert(decreases_to!(item.blocks => item.blocks@));
            lemma_loose_valid(bs, item.task, deeper(indent), opts, map);
            lemma_valid_cat3(
                line_at(indent, "<li".spec_bytes() + tc + seq![62u8]),
                loose_blocks(bs, item.task, deeper(indent), opts, map),
                line_at(indent, "</li>".spec_bytes()),
            );
        }
    }
}

pub proof fn lemma_loose_valid(bs: Seq<Block>, task: Option<bool>, indent: usize, opts: HtmlEmitOptions, map: Option<&SourceMap>)
    ensures
        valid_utf8(loose_blocks(bs, task, indent, opts, map)),
    decreases bs, 0nat,
{
    if bs.len() == 0 {
        lemma_empty_valid();
    } else {
        lemma_loose_valid(bs.drop_last(), task, indent, opts, map);
        lemma_block_html_valid(bs.last(), indent, opts, map);
        lemma_task_lits_valid();
        if bs.len() == 1 && task is Some && bs.last().kind is Paragraph {
            let content = bs.last().kind->Paragraph_content@;
            lemma_inlines_html_valid(content, RenderContext::Normal, map);
            lemma_spaces_ascii(indent as nat);
            lemma_ascii_valid(spaces(indent as nat));
            lemma_valid_cat5(
                spaces(indent as nat),
                "<p>".spec_bytes(),
                task_input(task->0),
                inlines_html(content, RenderContext::Normal, map),
                "</p>\n".spec_bytes(),
            );
        }
        let last = if bs.len() == 1 && task is Some && bs.last().kind is Paragraph {
            spaces(indent as nat) + "<p>".spec_bytes() + task_input(task->0) + inlines_html(
                bs.last().kind->Paragraph_content@,
                RenderContext::Normal,
                map,
            ) + "</p>\n".spec_bytes()
        } else {
            block_html(bs.last(), indent, opts, map)
        };
        lemma_cat(loose_blocks(bs.drop_last(), task, indent, opts, map), last);
    }
}

pub proof fn lemma_tight_seq_valid(bs: Seq<Block>, indent: usize, opts: HtmlEmitOptions, map: Option<&SourceMap>)
    ensures
        valid_utf8(tight_seq(bs, indent, opts, map)),
    decreases bs, 0nat,
{
    if bs.len() == 0 {
        lemma_empty_valid();
    } else {
        lemma_tight_seq_valid(bs.drop_last(), indent, opts, map);
        lemma_tight_valid(bs.last(), indent, opts, map);
        lemma_task_lits_valid();
        lemma_empty_valid();
        let sep = if bs.len() >= 2 && !tight_ended(bs[bs.len() - 2], opts) {
            seq![10u8]
        } else {
            Seq::<u8>::empty()
        };
        lemma_valid_cat3(tight_seq(bs.drop_last(), indent, opts, map), sep, tight_html(bs.last(), indent, opts, map));
    }
}

pub proof fn lemma_tight_valid(b: Block, indent: usize, opts: HtmlEmitOptions, map: Option<&SourceMap>)
    ensures
        valid_utf8(tight_html(b, indent, opts, map)),
    decreases b, 1nat,
{
    match b.kind {
        BlockKind::Paragraph { content } => {
            lemma_spaces_ascii(indent as nat);
            lemma_ascii_valid(spaces(indent as nat));
            lemma_inlines_html_valid(content@, RenderContext::Normal, map);
            lemma_cat(spaces(indent as nat), inlines_html(content@, RenderContext::Normal, map));
        },
        BlockKind::Section { level, title, label, children } => {
            let range = range_part(map, b.span);
            lemma_attrs_valid(label, b.attrs.items@);
            lemma_range_part_valid(map, b.span);
            assert(ascii(seq![62u8]));
            lemma_ascii_valid(seq![62u8]);
            lemma_str_valid("<section");
            lemma_str_valid("</section>");
            lemma_empty_valid();
            lemma_valid_cat4("<section".spec_bytes(), attrs_html(label, b.attrs.items@), range, seq![62u8]);
            lemma_line_valid(indent, "<section".spec_bytes() + attrs_html(label, b.attrs.items@) + range + seq![62u8]);
            lemma_heading_valid(level, Seq::empty(), title@, map);
            lemma_line_valid(deeper(indent), heading_html(level, Seq::empty(), title@, map));
            lemma_tight_seq_valid(children@, deeper(indent), opts, map);
            lemma_line_valid(indent, "</section>".spec_bytes());
            lemma_valid_cat4(
                line_at(indent, "<section".spec_bytes() + attrs_html(label, b.attrs.items@) + range + seq![62u8]),
                line_at(deeper(indent), heading_html(level, Seq::empty(), title@, map)),
                tight_seq(children@, deeper(indent), opts, map),
                line_at(indent, "</section>".spec_bytes()),
            );
            lemma_cat(attrs_html(label, b.attrs.items@), range);
            lemma_heading_valid(level, attrs_html(label, b.attrs.items@) + range, title@, map);
            lemma_line_valid(indent, heading_html(level, attrs_html(label, b.attrs.items@) + range, title@, map));
            lemma_tight_seq_valid(children@, indent, opts, map);
            lemma_cat(
                line_at(indent, heading_html(level, attrs_html(label, b.attrs.items@) + range, title@, map)),
                tight_seq(children@, indent, opts, map),
            );
        },
        _ => lemma_block_html_valid(b, indent, opts, map),
    }
}

/// The HTML of blocks is UTF-8.
pub proof fn lemma_blocks_html_valid(bs: Seq<Block>, indent: usize, opts: HtmlEmitOptions, map: Option<&SourceMap>)
    ensures
        valid_utf8(blocks_html(bs, indent, opts, map)),
    decreases bs, 0nat,
{
    if bs.len() == 0 {
        lemma_empty_valid();
    } else {
        lemma_blocks_html_valid(bs.drop_last(), indent, opts, map);
        lemma_block_html_valid(bs.last(), indent, opts, map);
        lemma_cat(blocks_html(bs.drop_last(), indent, opts, map), block_html(bs.last(), indent, opts, map));
    }
}

pub proof fn lemma_block_html_valid(b: Block, indent: usize, opts: HtmlEmitOptions, map: Option<&SourceMap>)
    ensures
        valid_utf8(block_html(b, indent, opts, map)),
    decreases b, 0nat,
{
    let attrs = attrs_html(b.attrs.label, b.attrs.items@);
    let range = range_part(map, b.span);
    lemma_attrs_valid(b.attrs.label, b.attrs.items@);
    lemma_range_part_valid(map, b.span);
    assert(ascii(seq![62u8]));
    lemma_ascii_valid(seq![62u8]);
    assert(ascii(seq![60u8]));
    lemma_ascii_valid(seq![60u8]);
    lemma_str_valid("</div>");
    lemma_line_valid(indent, "</div>".spec_bytes());
    lemma_line_valid(deeper(indent), "</div>".spec_bytes());
    match b.kind {
        BlockKind::Section { level, title, label, children } => {
            lemma_attrs_valid(label, b.attrs.items@);
            lemma_str_valid("<section");
            lemma_str_valid("</section>");
            lemma_valid_cat4("<section".spec_bytes(), attrs_html(label, b.attrs.items@), range, seq![62u8]);
            lemma_line_valid(indent, "<section".spec_bytes() + attrs_html(label, b.attrs.items@) + range + seq![62u8]);
            lemma_empty_valid();
            lemma_heading_valid(level, Seq::empty(), title@, map);
            lemma_line_valid(deeper(indent), heading_html(level, Seq::empty(), title@, map));
            lemma_blocks_html_valid(children@, deeper(indent), opts, map);
            lemma_line_valid(indent, "</section>".spec_bytes());
            lemma_valid_cat4(
                line_at(indent, "<section".spec_bytes() + attrs_html(label, b.attrs.items@) + range + seq![62u8]),
                line_at(deeper(indent), heading_html(level, Seq::empty(), title@, map)),
                blocks_html(children@, deeper(indent), opts, map),
                line_at(indent, "</section>".spec_bytes()),
            );
            lemma_cat(attrs_html(label, b.attrs.items@), range);
            lemma_heading_valid(level, attrs_html(label, b.attrs.items@) + range, title@, map);
            lemma_line_valid(indent, heading_html(level, attrs_html(label, b.attrs.items@) + range, title@, map));
            lemma_blocks_html_valid(children@, indent, opts, map);
            lemma_cat(
                line_at(indent, heading_html(level, attrs_html(label, b.attrs.items@) + range, title@, map)),
                blocks_html(children@, indent, opts, map),
            );
        },
        BlockKind::Heading { level, title } => {
            lemma_cat(attrs, range);
            lemma_heading_valid(level, attrs + range, title@, map);
            lemma_line_valid(indent, heading_html(level, attrs + range, title@, map));
        },
        BlockKind::Paragraph { content } => {
            lemma_str_valid("<p");
            lemma_str_valid("</p>");
            lemma_inlines_html_valid(content@, RenderContext::Normal, map);
            lemma_valid_cat4("<p".spec_bytes(), attrs, range, seq![62u8]);
            lemma_valid_cat3(
                "<p".spec_bytes() + attrs + range + seq![62u8],
                inlines_html(content@, RenderContext::Normal, map),
                "</p>".spec_bytes(),
            );
            lemma_line_valid(
                indent,
                "<p".spec_bytes() + attrs + range + seq![62u8] + inlines_html(content@, RenderContext::Normal, map)
                    + "</p>".spec_bytes(),
            );
        },
        BlockKind::BlockQuote { blocks } => {
            lemma_str_valid("blockquote");
            lemma_str_valid("</blockquote>");
            lemma_valid_cat5(seq![60u8], "blockquote".spec_bytes(), attrs, range, seq![62u8]);
            lemma_line_valid(indent, seq![60u8] + "blockquote".spec_bytes() + attrs + range + seq![62u8]);
            lemma_blocks_html_valid(blocks@, deeper(indent), opts, map);
            lemma_line_valid(indent, "</blockquote>".spec_bytes());
            lemma_valid_cat3(
                line_at(indent, seq![60u8] + "blockquote".spec_bytes() + attrs + range + seq![62u8]),
                blocks_html(blocks@, deeper(indent), opts, map),
                line_at(indent, "</blockquote>".spec_bytes()),
            );
        },
        BlockKind::Box(bx) => {
            lemma_str_valid("<div class=\"TypMark-box\" data-typmark=\"box\"");
            lemma_valid_cat4("<div class=\"TypMark-box\" data-typmark=\"box\"".spec_bytes(), attrs, range, seq![62u8]);
            let open = line_at(indent, "<div class=\"TypMark-box\" data-typmark=\"box\"".spec_bytes() + attrs + range + seq![62u8]);
            lemma_line_valid(indent, "<div class=\"TypMark-box\" data-typmark=\"box\"".spec_bytes() + attrs + range + seq![62u8]);
            let tp = match bx.title {
                Some(t) => line_at(
                    deeper(indent),
                    "<div class=\"TypMark-box-title\">".spec_bytes() + inlines_html(t@, RenderContext::Title, map)
                        + "</div>".spec_bytes(),
                ),
                None => Seq::empty(),
            };
            match bx.title {
                Some(t) => {
                    lemma_str_valid("<div class=\"TypMark-box-title\">");
                    lemma_inlines_html_valid(t@, RenderContext::Title, map);
                    lemma_valid_cat3(
                        "<div class=\"TypMark-box-title\">".spec_bytes(),
                        inlines_html(t@, RenderContext::Title, map),
                        "</div>".spec_bytes(),
                    );
                    lemma_line_valid(
                        deeper(indent),
                        "<div class=\"TypMark-box-title\">".spec_bytes() + inlines_html(t@, RenderContext::Title, map)
                            + "</div>".spec_bytes(),
                    );
                },
                None => lemma_empty_valid(),
            }
            lemma_str_valid("<div class=\"TypMark-box-body\">");
            let body = line_at(deeper(indent), "<div class=\"TypMark-box-body\">".spec_bytes());
            lemma_line_valid(deeper(indent), "<div class=\"TypMark-box-body\">".spec_bytes());
            let inner = blocks_html(bx.blocks@, deeper(deeper(indent)), opts, map);
            lemma_blocks_html_valid(bx.blocks@, deeper(deeper(indent)), opts, map);
            lemma_valid_cat4(open, tp, body, inner);
            lemma_valid_cat3(
                open + tp + body + inner,
                line_at(deeper(indent), "</div>".spec_bytes()),
                line_at(indent, "</div>".spec_bytes()),
            );
        },
        BlockKind::ThematicBreak => {
            lemma_str_valid("<hr");
            lemma_str_valid(" />");
            lemma_valid_cat4("<hr".spec_bytes(), attrs, range, " />".spec_bytes());
            lemma_line_valid(indent, "<hr".spec_bytes() + attrs + range + " />".spec_bytes());
        },
        BlockKind::HtmlBlock { raw } => {
            lemma_sbytes_valid(raw);
            lemma_line_valid(indent, sbytes(raw));
            lemma_line_valid(deeper(indent), sbytes(raw));
            lemma_str_valid("<div class=\"TypMark-html\" data-typmark=\"html\"");
            lemma_valid_cat4("<div class=\"TypMark-html\" data-typmark=\"html\"".spec_bytes(), attrs, range, seq![62u8]);
            lemma_line_valid(
                indent,
                "<div class=\"TypMark-html\" data-typmark=\"html\"".spec_bytes() + attrs + range + seq![62u8],
            );
            lemma_valid_cat3(
                line_at(indent, "<div class=\"TypMark-html\" data-typmark=\"html\"".spec_bytes() + attrs + range + seq![62u8]),
                line_at(deeper(indent), sbytes(raw)),
                line_at(indent, "</div>".spec_bytes()),
            );
        },
        BlockKind::Table(t) => lemma_table_valid(b, t, indent, map),
        BlockKind::CodeBlock(code) => lemma_code_block_valid(b, code, indent, opts, map),
        BlockKind::List(l) => {
            lemma_list_open_valid(b, l, map);
            lemma_line_valid(indent, list_open(b, l, map));
            lemma_items_valid(l.items@, l.tight, deeper(indent), opts, map);
            lemma_str_valid("</");
            lemma_str_valid("ol");
            lemma_str_valid("ul");
            lemma_valid_cat3("</".spec_bytes(), list_tag(l.ordered), seq![62u8]);
            lemma_line_valid(indent, "</".spec_bytes() + list_tag(l.ordered) + seq![62u8]);
            lemma_valid_cat3(
                line_at(indent, list_open(b, l, map)),
                items_html(l.items@, l.tight, deeper(indent), opts, map),
                line_at(indent, "</".spec_bytes() + list_tag(l.ordered) + seq![62u8]),
            );
        },
        BlockKind::MathBlock { typst_src } => {
            lemma_str_valid("<div class=\"TypMark-math-block--error\"");
            lemma_escaped_string_valid(typst_src);
            lemma_valid_cat4("<div class=\"TypMark-math-block--error\"".spec_bytes(), attrs, range, seq![62u8]);
            lemma_valid_cat3(
                "<div class=\"TypMark-math-block--error\"".spec_bytes() + attrs + range + seq![62u8],
                escaped(sbytes(typst_src)),
                "</div>".spec_bytes(),
            );
            lemma_line_valid(
                indent,
                "<div class=\"TypMark-math-block--error\"".spec_bytes() + attrs + range + seq![62u8] + escaped(
                    sbytes(typst_src),
                ) + "</div>".spec_bytes(),
            );
        },
        _ => lemma_empty_valid(),
    }
}

} // verus!
