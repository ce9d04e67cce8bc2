use vstd::prelude::*;
use vstd::string::StringSliceAdditionalSpecFns;
use crate::ast::{
    AttrList, Block, BlockKind, BoxBlock, CodeBlock, CodeBlockKind, CodeMeta, Document, InlineSeq,
    LinkDefinition, List, ListItem, span_in, attrs_in, block_in, blocks_in, inlines_in, label_in,
    item_in, document_in, Label,
};
use crate::diagnostic::{Diagnostic, DiagnosticSeverity, E_ATTR_SYNTAX, E_TARGET_ORPHAN};
use crate::html::{match_html_block_start, html_block_end, HtmlBlockKind, html_start, ends_html_block};
use crate::links::{parse_reference_destination, find_bracket_end, normalize_definition_label, title_closer};
use crate::scan::{
    parse_fence_open, is_fence_close, strip_leading_spaces, setext_underline_level,
    parse_atx_heading, is_thematic_break_line, blockquote_prefix_len, indent_prefix_len,
    remove_indent_columns, parse_list_marker, skip_spaces_tabs, trailing_spaces_tabs_only,
    is_title_delim, thematic_break, atx_level, opens_fence, prefix_end, list_marker_at, is_bullet,
    indent_removed, setext_level, digit_end,
};
use crate::source_map::SourceMap;
use crate::attrs::digits_value;
use crate::span::Span;
use crate::section::no_sections;
use crate::text::{
    is_blank, trim_range, trim_start_from, copy_range, string_from_bytes, bytes_start_with,
    push_all, space_tab, ascii_punct, ascii_ws, trimmed, byte_run, lemma_byte_run_bounds, starts_at,
    trim_start_at, trim_end_at, first_index, lemma_first_index_bound, lemma_first_index_is,
    lemma_first_index_absent, lossy_decode, is_space_tab, is_punct,
};

verus! {

/// What `parse` returns: the document, the diagnostics found, the source map and the link
/// reference definitions (label key and definition, first definition of a key kept).
pub struct ParseResult {
    pub document: Document,
    pub diagnostics: Vec<Diagnostic>,
    pub source_map: SourceMap,
    pub link_defs: Vec<(String, LinkDefinition)>,
}

/// One line of input: its text without the newline, its byte range in the source, and whether
/// a newline ended it.
pub struct Line {
    pub text: Vec<u8>,
    pub start: usize,
    pub end: usize,
    pub has_newline: bool,
}

/// The line's text fits inside its range, which lies in a source of `len` bytes; a newline
/// after it is a byte of the source too.
pub open spec fn line_in(l: Line, len: nat) -> bool {
    &&& l.start + l.text@.len() <= l.end
    &&& l.end <= len
    &&& (l.has_newline ==> l.end < len)
}

/// Every line lies in the source, and the lines come in source order without touching.
pub open spec fn lines_in(ls: Seq<Line>, len: nat) -> bool {
    &&& forall|i: int| 0 <= i < ls.len() ==> line_in(#[trigger] ls[i], len)
    &&& forall|i: int, j: int| 0 <= i < j < ls.len() ==> #[trigger] ls[i].end < #[trigger] ls[j].start
}

/// Every line of `q` ends before each line of `ls` from index `i` on starts.
pub open spec fn ends_before(q: Seq<Line>, ls: Seq<Line>, i: int) -> bool {
    forall|k: int, j: int|
        0 <= k < q.len() && i <= j < ls.len() ==> #[trigger] q[k].end < #[trigger] ls[j].start
}

/// Source offsets of the bytes of an inline buffer: inside the source and strictly increasing.
pub open spec fn offsets_ok(o: Seq<usize>, len: nat) -> bool {
    &&& forall|k: int| 0 <= k < o.len() ==> #[trigger] o[k] < len
    &&& forall|i: int, j: int| 0 <= i < j < o.len() ==> #[trigger] o[i] < #[trigger] o[j]
}

/// The total number of text bytes of the lines; every nested parse works on fewer.
pub open spec fn text_total(ls: Seq<Line>) -> nat
    decreases ls.len(),
{
    if ls.len() == 0 {
        0
    } else {
        text_total(ls.drop_last()) + ls.last().text@.len()
    }
}

pub proof fn lemma_text_total_push(ls: Seq<Line>, l: Line)
    ensures
        text_total(ls.push(l)) == text_total(ls) + l.text@.len(),
{
    assert(ls.push(l).drop_last() == ls);
}

pub proof fn lemma_text_total_sub(ls: Seq<Line>, a: int, b: int)
    requires
        0 <= a <= b < ls.len(),
    ensures
        text_total(ls.subrange(a, b + 1)) == text_total(ls.subrange(a, b)) + ls[b].text@.len(),
{
    assert(ls.subrange(a, b + 1).drop_last() == ls.subrange(a, b));
}

pub proof fn lemma_text_total_le(ls: Seq<Line>, a: int, b: int)
    requires
        0 <= a <= b <= ls.len(),
    ensures
        text_total(ls.subrange(a, b)) <= text_total(ls),
    decreases ls.len(),
{
    if b < ls.len() {
        assert(ls.drop_last().subrange(a, b) == ls.subrange(a, b));
        lemma_text_total_le(ls.drop_last(), a, b);
    } else if a < b {
        lemma_text_total_sub(ls, a, b - 1);
        assert(ls.drop_last().subrange(a, b - 1) == ls.subrange(a, b - 1));
        lemma_text_total_le(ls.drop_last(), a, b - 1);
    } else {
        assert(ls.subrange(a, b) == Seq::<Line>::empty());
    }
}

/// A block that starts at line `a` and ends at line `b` has a span inside the source.
pub proof fn lemma_line_span(ls: Seq<Line>, a: int, b: int, len: nat)
    requires
        lines_in(ls, len),
        0 <= a <= b < ls.len(),
    ensures
        span_in(Span { start: ls[a].start, end: ls[b].end }, len),
{
    assert(line_in(ls[a], len));
    assert(line_in(ls[b], len));
    if a < b {
        assert(ls[a].end < ls[b].start);
    }
}

/// The block's span lies between the start of line `a` and the end of line `b - 1`.
pub open spec fn block_within(blk: Block, ls: Seq<Line>, a: int, b: int) -> bool {
    ls[a].start <= blk.span.start && blk.span.end <= ls[b - 1].end
}

/// Blocks side by side come in order and do not overlap.
pub open spec fn blocks_ordered(bs: Seq<Block>) -> bool {
    forall|a: int, b: int| 0 <= a < b < bs.len() ==> #[trigger] bs[a].span.end <= #[trigger] bs[b].span.start
}

/// Line ends grow with the index.
pub proof fn lemma_line_end_mono(ls: Seq<Line>, a: int, b: int, len: nat)
    requires
        lines_in(ls, len),
        0 <= a <= b < ls.len(),
    ensures
        ls[a].end <= ls[b].end,
{
    assert(line_in(ls[a], len));
    assert(line_in(ls[b], len));
    if a < b {
        assert(ls[a].end < ls[b].start);
    }
}

/// A block taken from lines `i..next` after blocks that end before line `i` keeps them in
/// order, and all of them end before line `next`.
pub proof fn lemma_ordered_push(bs: Seq<Block>, nb: Block, ls: Seq<Line>, i: int, next: int, len: nat)
    requires
        lines_in(ls, len),
        0 <= i < next <= ls.len(),
        blocks_ordered(bs),
        forall|k: int, j: int|
            0 <= k < bs.len() && i <= j < ls.len() ==> #[trigger] bs[k].span.end < #[trigger] ls[j].start,
        block_within(nb, ls, i, next),
    ensures
        blocks_ordered(bs.push(nb)),
        forall|k: int, j: int|
            0 <= k < bs.push(nb).len() && next <= j < ls.len() ==> #[trigger] bs.push(nb)[k].span.end
                < #[trigger] ls[j].start,
{
    let q = bs.push(nb);
    assert forall|a: int, b: int| 0 <= a < b < q.len() implies #[trigger] q[a].span.end <= #[trigger] q[b].span.start by {
        if b < bs.len() {
            assert(q[a] == bs[a] && q[b] == bs[b]);
        } else {
            assert(q[a] == bs[a]);
            assert(bs[a].span.end < ls[i].start);
        }
    }
    assert forall|k: int, j: int| 0 <= k < q.len() && next <= j < ls.len() implies #[trigger] q[k].span.end
        < #[trigger] ls[j].start by {
        if k < bs.len() {
            assert(q[k] == bs[k]);
            assert(bs[k].span.end < ls[j].start);
        } else {
            assert(q[k] == nb);
            if next - 1 < j {
                assert(ls[next - 1].end < ls[j].start);
            }
        }
    }
}

/// Pushing a line cut from `ls[i]` (same end, later start) keeps the lines in order.
pub proof fn lemma_push_derived(q: Seq<Line>, ls: Seq<Line>, i: int, l: Line, len: nat)
    requires
        lines_in(q, len),
        lines_in(ls, len),
        0 <= i < ls.len(),
        ends_before(q, ls, i),
        line_in(l, len),
        l.start >= ls[i].start,
        l.end == ls[i].end,
    ensures
        lines_in(q.push(l), len),
        ends_before(q.push(l), ls, i + 1),
{
    let q2 = q.push(l);
    assert forall|a: int| 0 <= a < q2.len() implies line_in(#[trigger] q2[a], len) by {
        if a < q.len() {
            assert(q2[a] == q[a]);
        }
    }
    assert forall|a: int, b: int| 0 <= a < b < q2.len() implies #[trigger] q2[a].end
        < #[trigger] q2[b].start by {
        if b < q.len() {
            assert(q2[a] == q[a] && q2[b] == q[b]);
        } else {
            assert(q2[a] == q[a]);
            assert(q[a].end < ls[i].start);
        }
    }
    assert forall|k: int, j: int| 0 <= k < q2.len() && i + 1 <= j < ls.len() implies #[trigger] q2[k].end
        < #[trigger] ls[j].start by {
        if k < q.len() {
            assert(q2[k] == q[k]);
            assert(q[k].end < ls[j].start);
        } else {
            assert(ls[i].end < ls[j].start);
        }
    }
}

/// `ends_before` for an index also holds for every later index.
pub proof fn lemma_ends_before_mono(q: Seq<Line>, ls: Seq<Line>, i: int, j: int)
    requires
        ends_before(q, ls, i),
        i <= j,
    ensures
        ends_before(q, ls, j),
{
}

/// Whether a line starts a block other than a paragraph: a code fence, a `$$` line, a box,
/// HTML, a block quote, a thematic break, a list item, an ATX heading or a target line.
pub open spec fn block_start(t: Seq<u8>) -> bool {
    ||| opens_fence(t)
    ||| trimmed(t) == seq![36u8, 36u8]
    ||| (starts_at(t, 0, ":::".spec_bytes()) && starts_at(
        t,
        trim_start_at(t, byte_run(t, 0, 58u8), t.len() as int),
        "box".spec_bytes(),
    ))
    ||| html_start(t) is Some
    ||| ({
        let sp = byte_run(t, 0, 32u8);
        sp <= 3 && sp < t.len() && t[sp] == 62u8
    })
    ||| thematic_break(t)
    ||| list_marker_at(t)
    ||| atx_level(t) is Some
    ||| (trimmed(t).len() >= 2 && trimmed(t)[0] == 123u8 && trimmed(t).last() == 125u8)
}

/// Whether a list item marker starts a list that may interrupt a paragraph: it has content,
/// and it is a bullet or the number 1.
pub open spec fn interrupting_marker(t: Seq<u8>) -> bool {
    let sp = byte_run(t, 0, 32u8);
    let de = digit_end(t, sp);
    let bullet = sp < t.len() && is_bullet(t[sp]);
    let me = if bullet { sp + 1 } else { de + 1 };
    !(forall|k: int| me <= k < t.len() ==> is_space_tab(#[trigger] t[k])) && (bullet || (
    digits_value(t.subrange(sp, de)) as u64) == 1u64)
}

/// Whether a line may continue a paragraph: it is not blank, not a setext underline, and
/// starts no block that interrupts a paragraph (HTML of kind 7 and list markers that do not
/// interrupt one may continue it).
pub open spec fn continues_paragraph(t: Seq<u8>) -> bool {
    trimmed(t).len() != 0 && setext_level(t) is None && match html_start(t) {
        Some(k) => k == HtmlBlockKind::Type7,
        None => if list_marker_at(t) {
            !interrupting_marker(t)
        } else {
            !block_start(t)
        },
    }
}

pub fn copy_line(l: &Line) -> (r: Line)
    ensures
        r.text@ == l.text@,
        r.start == l.start,
        r.end == l.end,
        r.has_newline == l.has_newline,
{
    let text = l.text.clone();
    assert(text@ =~= l.text@);
    Line { text, start: l.start, end: l.end, has_newline: l.has_newline }
}

/// The parser state shared by block and inline parsing.
pub struct Parser {
    pub src_len: usize,
    pub diagnostics: Vec<Diagnostic>,
    pub source_map: SourceMap,
    pub link_defs: Vec<(String, LinkDefinition)>,
}

/// Parses a TypMark source into a document, diagnostics, a source map and the link reference
/// definitions. Parsing never fails: malformed constructs become diagnostics, every span
/// of the document lies inside the source, and the top-level blocks come in source order
/// without overlapping.
pub fn parse(source: &str) -> (r: ParseResult)
    requires
        source.spec_bytes().len() < usize::MAX,
    ensures
        r.document.span == (Span { start: 0, end: source.spec_bytes().len() as usize }),
        document_in(r.document, source.spec_bytes().len()),
        r.source_map.spec_len() == source.spec_bytes().len(),
        r.source_map.spec_starts() == crate::source_map::line_starts_of(source.spec_bytes()),
        no_sections(r.document.blocks@),
        blocks_ordered(r.document.blocks@),
{
    let bytes = source.as_bytes();
    let source_map = SourceMap::new(source);
    let lines = split_lines(bytes);
    let mut parser = Parser {
        src_len: bytes.len(),
        diagnostics: Vec::new(),
        source_map,
        link_defs: Vec::new(),
    };
    let document = parser.parse_document(lines);
    ParseResult {
        document,
        diagnostics: parser.diagnostics,
        source_map: parser.source_map,
        link_defs: parser.link_defs,
    }
}

/// Splits the source at newlines; the last line is the text after the last newline (possibly
/// empty).
pub fn split_lines(source: &[u8]) -> (lines: Vec<Line>)
    requires
        source@.len() < usize::MAX,
    ensures
        lines_in(lines@, source@.len()),
        lines@.len() >= 1,
        forall|i: int|
            0 <= i < lines@.len() ==> (#[trigger] lines@[i]).text@ == source@.subrange(
                lines@[i].start as int,
                lines@[i].end as int,
            ) && (lines@[i].has_newline <==> i + 1 < lines@.len()),
{
    let mut lines: Vec<Line> = Vec::new();
    let mut start: usize = 0;
    let mut idx: usize = 0;
    let n = source.len();
    while idx < n
        invariant
            start <= idx <= n,
            n == source@.len(),
            n < usize::MAX,
            lines_in(lines@, n as nat),
            forall|k: int| 0 <= k < lines@.len() ==> (#[trigger] lines@[k]).end < start,
            forall|i: int|
                0 <= i < lines@.len() ==> (#[trigger] lines@[i]).text@ == source@.subrange(
                    lines@[i].start as int,
                    lines@[i].end as int,
                ) && lines@[i].has_newline,
        decreases n - idx,
    {
        if source[idx] == 10u8 {
            let text = copy_range(source, start, idx);
            let ghost old_lines = lines@;
            lines.push(Line { text, start, end: idx, has_newline: true });
            proof {
                assert forall|a: int, b: int| 0 <= a < b < lines@.len() implies #[trigger] lines@[a].end
                    < #[trigger] lines@[b].start by {
                    assert(lines@[a] == old_lines[a] || b < old_lines.len());
                }
            }
            start = idx + 1;
        }
        idx = idx + 1;
    }
    let text = copy_range(source, start, n);
    let ghost old_lines = lines@;
    lines.push(Line { text, start, end: n, has_newline: false });
    proof {
        assert forall|a: int, b: int| 0 <= a < b < lines@.len() implies #[trigger] lines@[a].end
            < #[trigger] lines@[b].start by {
            assert(lines@[a] == old_lines[a] || b < old_lines.len());
        }
    }
    lines
}

/// Inserts a link definition unless its key is already defined.
pub fn insert_link_def(defs: &mut Vec<(String, LinkDefinition)>, key: String, def: LinkDefinition)
    ensures
        (exists|i: int| 0 <= i < old(defs)@.len() && (#[trigger] old(defs)@[i]).0@ == key@) ==> final(defs)@
            == old(defs)@,
        !(exists|i: int| 0 <= i < old(defs)@.len() && (#[trigger] old(defs)@[i]).0@ == key@) ==> final(defs)@
            == old(defs)@.push((key, def)),
{
    let mut i: usize = 0;
    while i < defs.len()
        invariant
            i <= defs@.len(),
            defs@ == old(defs)@,
            forall|k: int| 0 <= k < i ==> (#[trigger] defs@[k]).0@ != key@,
        decreases defs.len() - i,
    {
        if defs[i].0 == key {
            return;
        }
        i = i + 1;
    }
    defs.push((key, def));
}

/// The definition stored under `key`, if any.
pub fn find_link_def<'a>(defs: &'a [(String, LinkDefinition)], key: &String) -> (r: Option<
    &'a LinkDefinition,
>)
    ensures
        r matches Some(d) ==> exists|i: int|
            0 <= i < defs@.len() && (#[trigger] defs@[i]).0@ == key@ && defs@[i].1 == *d,
        r is None ==> forall|i: int| 0 <= i < defs@.len() ==> (#[trigger] defs@[i]).0@ != key@,
{
    let mut i: usize = 0;
    while i < defs.len()
        invariant
            i <= defs@.len(),
            forall|k: int| 0 <= k < i ==> (#[trigger] defs@[k]).0@ != key@,
        decreases defs.len() - i,
    {
        if defs[i].0 == *key {
            return Some(&defs[i].1);
        }
        i = i + 1;
    }
    None
}

/// Whether the trimmed text equals `$$`.
pub fn is_math_fence(text: &[u8]) -> (r: bool)
    ensures
        r == (trimmed(text@) == seq![36u8, 36u8]),
{
    let (a, b) = trim_range(text, 0, text.len());
    let r = b - a == 2 && text[a] == 36u8 && text[a + 1] == 36u8;
    proof {
        let t = trimmed(text@);
        assert(t == text@.subrange(a as int, b as int));
        if t == seq![36u8, 36u8] {
            assert(t.len() == 2 && t[0] == 36u8 && t[1] == 36u8);
        }
        if r {
            assert(t =~= seq![36u8, 36u8]);
        }
    }
    r
}

/// The number of `:` bytes from `start` on.
pub fn count_colons(text: &[u8], start: usize) -> (r: usize)
    requires
        start <= text@.len(),
    ensures
        start + r == byte_run(text@, start as int, 58u8),
        start + r <= text@.len(),
{
    let mut i = start;
    while i < text.len() && text[i] == 58u8
        invariant
            start <= i <= text@.len(),
            byte_run(text@, i as int, 58u8) == byte_run(text@, start as int, 58u8),
        decreases text.len() - i,
    {
        i = i + 1;
    }
    proof {
        lemma_byte_run_bounds(text@, start as int, 58u8);
    }
    i - start
}

/// Whether the text opens a box: `:::` colons then (after whitespace) `box`.
pub fn is_box_open(text: &[u8]) -> (r: bool)
    ensures
        r == (starts_at(text@, 0, ":::".spec_bytes()) && starts_at(
            text@,
            trim_start_at(text@, byte_run(text@, 0, 58u8), text@.len() as int),
            "box".spec_bytes(),
        )),
{
    if !bytes_start_with(text, 0, ":::".as_bytes()) {
        return false;
    }
    let fence_len = count_colons(text, 0);
    let rest = trim_start_from(text, fence_len, text.len());
    bytes_start_with(text, rest, "box".as_bytes())
}

/// Whether the trimmed text is `{...}`.
pub fn is_target_line_text(text: &[u8]) -> (r: bool)
    ensures
        r == (trimmed(text@).len() >= 2 && trimmed(text@)[0] == 123u8 && trimmed(text@).last()
            == 125u8),
{
    let (a, b) = trim_range(text, 0, text.len());
    b - a >= 2 && text[a] == 123u8 && text[b - 1] == 125u8
}

/// The number of backticks that start the trimmed text, and whether the trimmed text is
/// made of backticks only.
pub fn backtick_line(text: &[u8]) -> (r: (usize, bool))
    ensures
        r.0 == byte_run(trimmed(text@), 0, 96u8),
        r.1 == (r.0 == trimmed(text@).len()),
{
    let (a, b) = trim_range(text, 0, text.len());
    let ghost t = text@.subrange(a as int, b as int);
    let mut i = a;
    while i < b && text[i] == 96u8
        invariant
            a <= i <= b <= text@.len(),
            t == text@.subrange(a as int, b as int),
            byte_run(t, i - a, 96u8) == byte_run(t, 0, 96u8),
        decreases b - i,
    {
        i = i + 1;
    }
    proof {
        lemma_byte_run_bounds(t, 0, 96u8);
    }
    (i - a, i == b)
}

/// The number of colons that start the trimmed text, and whether the trimmed text is made of
/// colons only.
pub fn colon_line(text: &[u8]) -> (r: (usize, bool))
    ensures
        r.0 == byte_run(trimmed(text@), 0, 58u8),
        r.1 == (r.0 == trimmed(text@).len()),
{
    let (a, b) = trim_range(text, 0, text.len());
    let ghost t = text@.subrange(a as int, b as int);
    let mut i = a;
    while i < b && text[i] == 58u8
        invariant
            a <= i <= b <= text@.len(),
            t == text@.subrange(a as int, b as int),
            byte_run(t, i - a, 58u8) == byte_run(t, 0, 58u8),
        decreases b - i,
    {
        i = i + 1;
    }
    proof {
        lemma_byte_run_bounds(t, 0, 58u8);
    }
    (i - a, i == b)
}

/// The index of the first `b` in the text.
pub fn find_byte(text: &[u8], b: u8) -> (r: Option<usize>)
    ensures
        r matches Some(p) ==> p < text@.len() && text@[p as int] == b && forall|k: int|
            0 <= k < p ==> text@[k] != b,
        r is None ==> forall|k: int| 0 <= k < text@.len() ==> text@[k] != b,
{
    let mut i: usize = 0;
    while i < text.len()
        invariant
            i <= text@.len(),
            forall|k: int| 0 <= k < i ==> text@[k] != b,
        decreases text.len() - i,
    {
        if text[i] == b {
            return Some(i);
        }
        i = i + 1;
    }
    None
}

/// The index of the last `b` in the text.
pub fn rfind_byte(text: &[u8], b: u8) -> (r: Option<usize>)
    ensures
        r matches Some(p) ==> p < text@.len() && text@[p as int] == b && forall|k: int|
            p < k < text@.len() ==> text@[k] != b,
        r is None ==> forall|k: int| 0 <= k < text@.len() ==> text@[k] != b,
{
    let mut i: usize = text.len();
    while i > 0
        invariant
            i <= text@.len(),
            forall|k: int| i <= k < text@.len() ==> text@[k] != b,
        decreases i,
    {
        if text[i - 1] == b {
            return Some(i - 1);
        }
        i = i - 1;
    }
    None
}

/// The lines `q` were taken, in order, from `ls[start..i]`, each no longer than the line it
/// came from and all of them together shorter than those lines.
pub open spec fn collected(q: Seq<Line>, ls: Seq<Line>, start: int, i: int, len: nat) -> bool {
    &&& lines_in(q, len)
    &&& ends_before(q, ls, i)
    &&& 0 <= start <= i <= ls.len()
    &&& text_total(q) + 1 <= text_total(ls.subrange(start, i))
}

pub proof fn lemma_collect_push(q: Seq<Line>, ls: Seq<Line>, start: int, i: int, l: Line, len: nat)
    requires
        collected(q, ls, start, i, len),
        lines_in(ls, len),
        i < ls.len(),
        line_in(l, len),
        l.start >= ls[i].start,
        l.end == ls[i].end,
        l.text@.len() <= ls[i].text@.len(),
    ensures
        collected(q.push(l), ls, start, i + 1, len),
{
    lemma_push_derived(q, ls, i, l, len);
    lemma_text_total_push(q, l);
    lemma_text_total_sub(ls, start, i);
}

pub proof fn lemma_collect_skip(q: Seq<Line>, ls: Seq<Line>, start: int, i: int, len: nat)
    requires
        collected(q, ls, start, i, len),
        i < ls.len(),
    ensures
        collected(q, ls, start, i + 1, len),
{
    lemma_text_total_sub(ls, start, i);
}

/// The first line cut to a strictly shorter line starts a collection.
pub proof fn lemma_collect_first(ls: Seq<Line>, start: int, l: Line, len: nat)
    requires
        lines_in(ls, len),
        0 <= start < ls.len(),
        line_in(l, len),
        l.start >= ls[start].start,
        l.end == ls[start].end,
        l.text@.len() < ls[start].text@.len(),
    ensures
        collected(seq![l], ls, start, start + 1, len),
{
    lemma_push_derived(Seq::<Line>::empty(), ls, start, l, len);
    assert(Seq::<Line>::empty().push(l) == seq![l]);
    lemma_text_total_push(Seq::<Line>::empty(), l);
    lemma_text_total_sub(ls, start, start);
    assert(ls.subrange(start, start) == Seq::<Line>::empty());
}

/// Skipping the first line (of at least one byte) starts an empty collection.
pub proof fn lemma_collect_skip_first(ls: Seq<Line>, start: int, len: nat)
    requires
        0 <= start < ls.len(),
        ls[start].text@.len() >= 1,
    ensures
        collected(Seq::<Line>::empty(), ls, start, start + 1, len),
{
    lemma_text_total_sub(ls, start, start);
    assert(ls.subrange(start, start) == Seq::<Line>::empty());
}

/// A finished collection is shorter than the whole sequence of lines.
pub proof fn lemma_collect_done(q: Seq<Line>, ls: Seq<Line>, start: int, i: int, len: nat)
    requires
        collected(q, ls, start, i, len),
    ensures
        text_total(q) < text_total(ls),
        lines_in(q, len),
{
    lemma_text_total_le(ls, start, i);
}

pub fn clone_label(l: &Label) -> (r: Label)
    ensures
        r.span == l.span,
        r.name@ == l.name@,
{
    Label { name: l.name.clone(), span: l.span }
}

/// Where a box ends, scanning from line `i` with the colon counts of the boxes still open in
/// `stack` (innermost last): the index after the line that closes the outermost one, or the
/// number of lines. `code` holds the backtick count of an open code fence and `math` tells
/// whether a math block is open; inside either, no line opens or closes a box.
pub open spec fn box_scan(ls: Seq<Line>, i: int, stack: Seq<usize>, code: Option<usize>, math: bool) -> int
    decreases ls.len() - i,
{
    if i < 0 || i >= ls.len() {
        ls.len() as int
    } else {
        let t = ls[i].text@;
        let tt = trimmed(t);
        match code {
            Some(f) => {
                let ticks = byte_run(tt, 0, 96u8);
                box_scan(ls, i + 1, stack, if ticks >= f && ticks == tt.len() { None } else { Some(f) }, false)
            },
            None => if math {
                box_scan(ls, i + 1, stack, None, !(tt == seq![36u8, 36u8]))
            } else if opens_fence(t) {
                let ind = byte_run(t, 0, 32u8);
                box_scan(ls, i + 1, stack, Some((byte_run(t, ind, 96u8) - ind) as usize), false)
            } else if tt == seq![36u8, 36u8] {
                box_scan(ls, i + 1, stack, None, true)
            } else if starts_at(t, 0, ":::".spec_bytes()) && starts_at(
                t,
                trim_start_at(t, byte_run(t, 0, 58u8), t.len() as int),
                "box".spec_bytes(),
            ) {
                box_scan(ls, i + 1, stack.push(byte_run(t, 0, 58u8) as usize), None, false)
            } else if byte_run(tt, 0, 58u8) >= 3 && byte_run(tt, 0, 58u8) == tt.len() && stack.len() > 0
                && byte_run(tt, 0, 58u8) >= stack.last() {
                if stack.len() == 1 {
                    i + 1
                } else {
                    box_scan(ls, i + 1, stack.drop_last(), None, false)
                }
            } else {
                box_scan(ls, i + 1, stack, None, false)
            },
        }
    }
}

/// The texts of `ls[a..b]`, joined with newlines.
pub open spec fn joined_lines(ls: Seq<Line>, a: int, b: int) -> Seq<u8>
    decreases b - a,
{
    if b <= a {
        Seq::empty()
    } else if b == a + 1 {
        ls[a].text@
    } else {
        joined_lines(ls, a, b - 1) + seq![10u8] + ls[b - 1].text@
    }
}

/// A line of a block quote: at most three spaces, then `>`.
pub open spec fn quote_line(t: Seq<u8>) -> bool {
    let sp = byte_run(t, 0, 32u8);
    sp <= 3 && sp < t.len() && t[sp] == 62u8
}

/// Whether a line ends a paragraph before it: a blank line; the start of an HTML block of a
/// kind other than the seventh; a list item with content whose marker is a bullet or starts
/// at 1; or, for a line that is no list item, the start of another block.
pub open spec fn interrupts_paragraph(t: Seq<u8>) -> bool {
    let sp = byte_run(t, 0, 32u8);
    let de = digit_end(t, sp);
    let bullet = sp < t.len() && is_bullet(t[sp]);
    let me = if bullet { sp + 1 } else { de + 1 };
    if trimmed(t).len() == 0 {
        true
    } else if html_start(t) is Some {
        html_start(t) != Some(HtmlBlockKind::Type7)
    } else if list_marker_at(t) {
        !(forall|k: int| me <= k < t.len() ==> is_space_tab(#[trigger] t[k])) && (bullet || digits_value(
            t.subrange(sp, de),
        ) == 1)
    } else {
        block_start(t)
    }
}

/// Pushing a block that is not a section keeps a sequence free of sections.
proof fn lemma_no_sections_push(s: Seq<Block>, b: Block)
    requires
        no_sections(s),
        !(b.kind is Section),
    ensures
        no_sections(s.push(b)),
{
    assert forall|i: int| 0 <= i < s.push(b).len() implies !((#[trigger] s.push(b)[i]).kind is Section) by {
        if i < s.len() {
            assert(s.push(b)[i] == s[i]);
        }
    }
}

impl Parser {
    /// The source length and the source map are those of `before`, and the diagnostics and
    /// link reference definitions of `before` are still there, in their places: parsing only
    /// adds to them.
    pub open spec fn keeps(&self, before: Parser) -> bool {
        &&& self.src_len == before.src_len
        &&& self.source_map == before.source_map
        &&& self.diagnostics@.len() >= before.diagnostics@.len()
        &&& forall|k: int|
            0 <= k < before.diagnostics@.len() ==> #[trigger] self.diagnostics@[k] == before.diagnostics@[k]
        &&& self.link_defs@.len() >= before.link_defs@.len()
        &&& forall|k: int|
            0 <= k < before.link_defs@.len() ==> #[trigger] self.link_defs@[k] == before.link_defs@[k]
    }

    /// Ready to parse `ls`: the source length leaves room for one more offset and the lines
    /// lie in the source in order.
    pub open spec fn ready(&self, ls: Seq<Line>) -> bool {
        self.src_len < usize::MAX && lines_in(ls, self.src_len as nat)
    }

    pub fn push_diag(&mut self, span: Span, severity: DiagnosticSeverity, code: &'static str, message: &str)
        ensures
            final(self).keeps(*old(self)),
            final(self).diagnostics@.len() == old(self).diagnostics@.len() + 1,
            final(self).diagnostics@.drop_last() == old(self).diagnostics@,
            final(self).diagnostics@.last().code == code,
            final(self).diagnostics@.last().severity == severity,
    {
        let range = self.source_map.range(span);
        self.diagnostics.push(Diagnostic::new(range, severity, code, message));
    }

    /// Parses the settings line (if any) and the blocks.
    pub fn parse_document(&mut self, lines: Vec<Line>) -> (doc: Document)
        requires
            old(self).ready(lines@),
        ensures
            doc.span == (Span { start: 0, end: old(self).src_len }),
            document_in(doc, old(self).src_len as nat),
            final(self).keeps(*old(self)),
            no_sections(doc.blocks@),
            blocks_ordered(doc.blocks@),
    {
        let span = Span { start: 0, end: self.src_len };
        // The settings line is the first non-blank line when it is an attribute list with no
        // label and at least one item; it applies to the document and is not a target line.
        let mut first: usize = 0;
        while first < lines.len() && is_blank(lines[first].text.as_slice())
            invariant
                first <= lines@.len(),
            decreases lines.len() - first,
        {
            first = first + 1;
        }
        let mut settings: Option<AttrList> = None;
        if first < lines.len() && is_target_line_text(lines[first].text.as_slice()) {
            assert(line_in(lines@[first as int], self.src_len as nat));
            let mark = self.diagnostics.len();
            let attrs = self.try_parse_target_line(&lines[first]);
            let is_settings = match &attrs {
                Some(a) => a.label.is_none() && a.items.len() > 0,
                None => false,
            };
            if is_settings {
                settings = attrs;
            } else {
                self.diagnostics.truncate(mark);
            }
        }
        let blocks = if settings.is_some() {
            let mut rest: Vec<Line> = Vec::new();
            let mut i: usize = 0;
            let ghost len = self.src_len as nat;
            while i < lines.len()
                invariant
                    i <= lines@.len(),
                    self.ready(lines@),
                    len == self.src_len as nat,
                    lines_in(rest@, len),
                    ends_before(rest@, lines@, i as int),
                decreases lines.len() - i,
            {
                if i != first {
                    let l = copy_line(&lines[i]);
                    proof {
                        assert(line_in(lines@[i as int], len));
                        lemma_push_derived(rest@, lines@, i as int, l, len);
                    }
                    rest.push(l);
                } else {
                    proof {
                        lemma_ends_before_mono(rest@, lines@, i as int, i + 1);
                    }
                }
                i = i + 1;
            }
            self.parse_blocks(rest.as_slice())
        } else {
            self.parse_blocks(lines.as_slice())
        };
        Document { span, settings, blocks }
    }

    /// Parses a sequence of lines into blocks. Target lines attach to the next block in the
    /// same sequence. Each block covers lines after those of the block before it.
    pub fn parse_blocks(&mut self, lines: &[Line]) -> (blocks: Vec<Block>)
        requires
            old(self).ready(lines@),
        ensures
            final(self).keeps(*old(self)),
            blocks_in(blocks@, old(self).src_len as nat),
            no_sections(blocks@),
            blocks_ordered(blocks@),
        decreases text_total(lines@), 1nat,
    {
        let ghost len = self.src_len as nat;
        let mut blocks: Vec<Block> = Vec::new();
        let mut i: usize = 0;
        let mut pending: Option<AttrList> = None;
        while i < lines.len()
            invariant
                no_sections(blocks@),
                i <= lines@.len(),
                self.ready(lines@),
                self.keeps(*old(self)),
                len == self.src_len as nat,
                blocks_in(blocks@, len),
                pending matches Some(a) ==> attrs_in(a, len),
                blocks_ordered(blocks@),
                forall|k: int, j: int|
                    0 <= k < blocks@.len() && i <= j < lines@.len() ==> #[trigger] blocks@[k].span.end
                        < #[trigger] lines@[j].start,
            decreases lines.len() - i,
        {
            let line = &lines[i];
            assert(line_in(lines@[i as int], len));
            if is_blank(line.text.as_slice()) {
                i = i + 1;
                continue;
            }
            if let Some(attrs) = self.try_parse_target_line(line) {
                if let Some(prev) = pending {
                    if let Some(span) = prev.span {
                        self.push_diag(
                            span,
                            DiagnosticSeverity::Error,
                            E_TARGET_ORPHAN,
                            "target line has no following block",
                        );
                    }
                }
                pending = Some(attrs);
                i = i + 1;
                continue;
            }
            let mut parsed: Option<(Block, usize)> = self.parse_code_block(lines, i);
            if parsed.is_none() {
                parsed = self.parse_indented_code_block(lines, i);
            }
            if parsed.is_none() {
                parsed = self.parse_math_block(lines, i);
            }
            if parsed.is_none() {
                parsed = self.parse_box_block(lines, i);
            }
            if parsed.is_none() {
                parsed = self.parse_html_block(lines, i);
            }
            if parsed.is_none() {
                parsed = self.parse_thematic_break(lines, i);
            }
            if parsed.is_none() {
                parsed = self.parse_block_quote(lines, i);
            }
            if parsed.is_none() {
                parsed = self.parse_list(lines, i);
            }
            if parsed.is_none() {
                parsed = self.parse_heading(lines, i);
            }
            if parsed.is_none() {
                parsed = self.parse_table(lines, i);
            }
            match parsed {
                Some((block, next)) => {
                    let mut block = block;
                    self.finalize_block(&mut block, &mut pending);
                    proof {
                        lemma_no_sections_push(blocks@, block);
                        lemma_ordered_push(blocks@, block, lines@, i as int, next as int, len);
                    }
                    blocks.push(block);
                    i = next;
                },
                None => {
                    let (block, next) = self.parse_paragraph(lines, i);
                    if let Some(block) = block {
                        let mut block = block;
                        self.finalize_block(&mut block, &mut pending);
                        proof {
                            lemma_no_sections_push(blocks@, block);
                            lemma_ordered_push(blocks@, block, lines@, i as int, next as int, len);
                        }
                        blocks.push(block);
                    }
                    i = next;
                },
            }
        }
        if let Some(attrs) = pending {
            if let Some(span) = attrs.span {
                self.push_diag(
                    span,
                    DiagnosticSeverity::Error,
                    E_TARGET_ORPHAN,
                    "target line has no following block",
                );
            }
        }
        blocks
    }

    /// Moves the pending target-line attributes onto the block.
    pub fn apply_pending_attrs(&mut self, block: &mut Block, pending: &mut Option<AttrList>)
        requires
            block_in(*old(block), old(self).src_len as nat),
            *old(pending) matches Some(a) ==> attrs_in(a, old(self).src_len as nat),
        ensures
            final(self).keeps(*old(self)),
            *final(pending) is None,
            final(block).span == old(block).span,
            final(block).kind == old(block).kind,
            block_in(*final(block), old(self).src_len as nat),
    {
        let ghost len = self.src_len as nat;
        if let Some(attrs) = pending.take() {
            let mut attrs = attrs;
            let ghost kind = block.kind;
            if let Some(label) = attrs.label.take() {
                if block.attrs.label.is_some() {
                    self.push_diag(label.span, DiagnosticSeverity::Error, E_ATTR_SYNTAX, "duplicate label");
                } else {
                    block.attrs.label = Some(label);
                }
            }
            if let Some(span) = attrs.span {
                block.attrs.span = Some(span);
            }
            if attrs.items.len() > 0 {
                let ghost before = block.attrs.items@;
                let ghost added = attrs.items@;
                block.attrs.items.append(&mut attrs.items);
                assert(block.attrs.items@ == before + added);
                assert forall|i: int| 0 <= i < block.attrs.items@.len() implies span_in(
                    #[trigger] block.attrs.items@[i].value.span,
                    len,
                ) by {
                    if i < before.len() {
                        assert(block.attrs.items@[i] == before[i]);
                    } else {
                        assert(block.attrs.items@[i] == added[i - before.len()]);
                    }
                }
            }
            assert(block.kind == kind);
        }
    }

    pub fn finalize_block(&mut self, block: &mut Block, pending: &mut Option<AttrList>)
        requires
            block_in(*old(block), old(self).src_len as nat),
            *old(pending) matches Some(a) ==> attrs_in(a, old(self).src_len as nat),
        ensures
            final(self).keeps(*old(self)),
            *final(pending) is None,
            final(block).span == old(block).span,
            final(block).kind == old(block).kind,
            block_in(*final(block), old(self).src_len as nat),
    {
        self.apply_pending_attrs(block, pending);
        if let BlockKind::Box(_) = block.kind {
            self.validate_box_styles(&block.attrs);
        }
    }

    pub fn parse_heading(&mut self, lines: &[Line], i: usize) -> (r: Option<(Block, usize)>)
        requires
            i < lines@.len(),
            old(self).ready(lines@),
        ensures
            r matches Some((b, next)) ==> block_within(b, lines@, i as int, next as int),
            r matches Some((b, _)) ==> b.kind is Heading,
            final(self).keeps(*old(self)),
            r matches Some((b, next)) ==> i < next <= lines@.len() && block_in(b, old(self).src_len as nat),
            r is Some <==> atx_level(lines@[i as int].text@) is Some,
            r matches Some((b, next)) ==> next == i + 1 && b.span == (Span {
                start: lines@[i as int].start,
                end: lines@[i as int].end,
            }) && (b.kind matches BlockKind::Heading { level, .. } && level == atx_level(
                lines@[i as int].text@,
            )->0),
    {
        let line = &lines[i];
        assert(line_in(lines@[i as int], self.src_len as nat));
        let (level, cs, ce) = match parse_atx_heading(line.text.as_slice()) {
            Some(h) => h,
            None => return None,
        };
        let rest = copy_range(line.text.as_slice(), cs, ce);
        let title = self.parse_inline(rest.as_slice(), line.start + cs);
        let span = Span { start: line.start, end: line.end };
        Some(
            (
                Block { span, attrs: AttrList::empty(), kind: BlockKind::Heading { level, title } },
                i + 1,
            ),
        )
    }

    pub fn parse_thematic_break(&self, lines: &[Line], start: usize) -> (r: Option<(Block, usize)>)
        requires
            start < lines@.len(),
            self.ready(lines@),
        ensures
            r matches Some((b, next)) ==> block_within(b, lines@, start as int, next as int),
            r matches Some((b, _)) ==> b.kind is ThematicBreak,
            r matches Some((b, next)) ==> next == start + 1 && block_in(b, self.src_len as nat),
            r is Some <==> thematic_break(lines@[start as int].text@),
            r matches Some((b, next)) ==> b.kind is ThematicBreak && b.span == (Span {
                start: lines@[start as int].start,
                end: lines@[start as int].end,
            }),
    {
        let line = &lines[start];
        assert(line_in(lines@[start as int], self.src_len as nat));
        if !is_thematic_break_line(line.text.as_slice()) {
            return None;
        }
        let span = Span { start: line.start, end: line.end };
        Some((Block { span, attrs: AttrList::empty(), kind: BlockKind::ThematicBreak }, start + 1))
    }

    /// A paragraph (or a setext heading): consecutive non-blank lines that do not start another
    /// block; link reference definitions among them are recorded and dropped.
    pub fn parse_paragraph(&mut self, lines: &[Line], start: usize) -> (r: (Option<Block>, usize))
        requires
            start < lines@.len(),
            old(self).ready(lines@),
        ensures
            r.0 matches Some(b) ==> block_within(b, lines@, start as int, r.1 as int),
            r.0 matches Some(b) ==> b.kind is Paragraph || b.kind is Heading,
            final(self).keeps(*old(self)),
            start < r.1 <= lines@.len(),
            r.0 matches Some(b) ==> block_in(b, old(self).src_len as nat),
            (4 * lines@[start as int].text@.len() + 8 < usize::MAX && interrupts_paragraph(
                lines@[start as int].text@,
            )) ==> r.0 is None && r.1 == start + 1,
            r.0 matches Some(b) ==> (b.kind is Paragraph ==> r.1 == lines@.len() || (4 * lines@[r.1 as int].text@.len()
                + 8 < usize::MAX ==> interrupts_paragraph(lines@[r.1 as int].text@))),
            r.0 matches Some(b) ==> (b.kind matches BlockKind::Heading { level, .. } ==> start < r.1 - 1
                && setext_level(lines@[r.1 - 1].text@) == Some(level)),
    {
        let ghost len = self.src_len as nat;
        let n_lines = lines.len();
        let mut i = start;
        let mut content: Vec<Line> = Vec::new();
        let mut setext_level: Option<u8> = None;
        let mut setext_end = start;
        let ghost mut first_idx: int = start as int;
        let ghost mut last_idx: int = start as int;
        while i < lines.len() && setext_level.is_none()
            invariant
                start <= i <= lines@.len(),
                self.ready(lines@),
                len == self.src_len as nat,
                self.keeps(*old(self)),
                lines_in(content@, len),
                ends_before(content@, lines@, i as int),
                content@.len() > 0 ==> start <= first_idx <= last_idx < i && content@[0].start
                    == lines@[first_idx].start && content@.last().end == lines@[last_idx].end,
                setext_level is Some ==> content@.len() > 0 && last_idx < setext_end < lines@.len()
                    && setext_end == i,
                n_lines == lines@.len(),
                i == start ==> content@.len() == 0,
                setext_level matches Some(l) ==> crate::scan::setext_level(lines@[i as int].text@) == Some(l),
                i > start ==> !(4 * lines@[start as int].text@.len() + 8 < usize::MAX && interrupts_paragraph(
                    lines@[start as int].text@,
                )),
            ensures
                start <= i <= lines@.len(),
                self.ready(lines@),
                len == self.src_len as nat,
                self.keeps(*old(self)),
                lines_in(content@, len),
                ends_before(content@, lines@, i as int),
                content@.len() > 0 ==> start <= first_idx <= last_idx < i && content@[0].start
                    == lines@[first_idx].start && content@.last().end == lines@[last_idx].end,
                setext_level is Some ==> content@.len() > 0 && last_idx < setext_end < lines@.len()
                    && setext_end == i,
                n_lines == lines@.len(),
                i == start ==> content@.len() == 0,
                setext_level matches Some(l) ==> crate::scan::setext_level(lines@[i as int].text@) == Some(l),
                i > start ==> !(4 * lines@[start as int].text@.len() + 8 < usize::MAX && interrupts_paragraph(
                    lines@[start as int].text@,
                )),
                i == lines@.len() || setext_level is Some || (4 * lines@[i as int].text@.len() + 8 < usize::MAX
                    ==> interrupts_paragraph(lines@[i as int].text@)),
            decreases lines.len() - i,
        {
            let line = &lines[i];
            assert(line_in(lines@[i as int], len));
            if is_blank(line.text.as_slice()) {
                break;
            }
            if let Some(kind) = match_html_block_start(line.text.as_slice()) {
                if kind != HtmlBlockKind::Type7 {
                    break;
                }
            } else if let Some(marker) = parse_list_marker(line.text.as_slice()) {
                if !marker.empty && (!marker.ordered || marker.start == Some(1u64)) {
                    break;
                }
            } else if self.is_block_start(line) {
                break;
            }
            proof {
                assert(!(4 * lines@[i as int].text@.len() + 8 < usize::MAX && interrupts_paragraph(lines@[i as int].text@)));
            }
            if let Some((label, definition, next)) = parse_link_reference_definition_lines(lines, i) {
                insert_link_def(&mut self.link_defs, label, definition);
                proof {
                    lemma_ends_before_mono(content@, lines@, i as int, next as int);
                }
                i = next;
                continue;
            }
            let l = copy_line(line);
            proof {
                lemma_push_derived(content@, lines@, i as int, l, len);
                if content@.len() == 0 {
                    first_idx = i as int;
                }
                last_idx = i as int;
            }
            content.push(l);
            if i + 1 < lines.len() {
                if let Some(level) = setext_underline_level(lines[i + 1].text.as_slice()) {
                    setext_level = Some(level);
                    setext_end = i + 1;
                }
            }
            i = i + 1;
        }
        if content.len() == 0 {
            let next = if i > start { i } else { start + 1 };
            return (None, next);
        }
        let span_start = content[0].start;
        let span_end = content[content.len() - 1].end;
        if let Some(level) = setext_level {
            let (buffer, offsets) = build_heading_buffer(content.as_slice(), Ghost(len));
            let title = self.parse_inline_buffer(buffer.as_slice(), offsets.as_slice());
            let span = Span { start: span_start, end: lines[setext_end].end };
            proof {
                lemma_line_span(lines@, first_idx, setext_end as int, len);
            }
            return (
                Some(Block { span, attrs: AttrList::empty(), kind: BlockKind::Heading { level, title } }),
                setext_end + 1,
            );
        }
        let (buffer, offsets) = build_inline_buffer(content.as_slice(), Ghost(len));
        let inlines = self.parse_inline_buffer(buffer.as_slice(), offsets.as_slice());
        proof {
            lemma_line_span(lines@, first_idx, last_idx, len);
        }
        let block = Block {
            span: Span { start: span_start, end: span_end },
            attrs: AttrList::empty(),
            kind: BlockKind::Paragraph { content: inlines },
        };
        let next = if i > start { i } else { start + 1 };
        (Some(block), next)
    }

    /// A fenced code block opened by three or more backticks.
    pub fn parse_code_block(&mut self, lines: &[Line], start: usize) -> (r: Option<(Block, usize)>)
        requires
            start < lines@.len(),
            old(self).ready(lines@),
        ensures
            r matches Some((b, next)) ==> block_within(b, lines@, start as int, next as int),
            r matches Some((b, _)) ==> b.kind is CodeBlock,
            final(self).keeps(*old(self)),
            r matches Some((b, next)) ==> start < next <= lines@.len() && block_in(b, old(self).src_len as nat),
            r is Some <==> opens_fence(lines@[start as int].text@),
            r matches Some((b, next)) ==> (b.kind matches BlockKind::CodeBlock(c) && c.kind is Fenced),
    {
        let ghost len = self.src_len as nat;
        let line = &lines[start];
        assert(line_in(lines@[start as int], len));
        let fence = match parse_fence_open(line.text.as_slice()) {
            Some(f) => f,
            None => return None,
        };
        let info = copy_range(line.text.as_slice(), fence.info_start, fence.info_end);
        let (lang, info_attrs) = self.parse_fence_info(line, info.as_slice());
        let mut text: Vec<u8> = Vec::new();
        let mut first = true;
        let mut i = start + 1;
        while i < lines.len()
            invariant
                start < i <= lines@.len(),
                self.keeps(*old(self)),
            decreases lines.len() - i,
        {
            let candidate = &lines[i];
            if is_fence_close(candidate.text.as_slice(), fence.fence_len) {
                i = i + 1;
                break;
            }
            let skip = strip_leading_spaces(candidate.text.as_slice(), fence.indent);
            if !first {
                text.push(10u8);
            }
            first = false;
            let n = candidate.text.len();
            let part = copy_range(candidate.text.as_slice(), skip, n);
            push_all(&mut text, part.as_slice());
            i = i + 1;
        }
        let meta = self.parse_code_meta(&info_attrs, text.as_slice(), line.start, line.end);
        let mut block_attrs = AttrList::empty();
        if let Some(label) = &info_attrs.label {
            block_attrs.span = info_attrs.span;
            block_attrs.label = Some(clone_label(label));
        }
        let span = Span { start: line.start, end: lines[i - 1].end };
        proof {
            lemma_line_span(lines@, start as int, i - 1, len);
        }
        Some(
            (
                Block {
                    span,
                    attrs: block_attrs,
                    kind: BlockKind::CodeBlock(
                        CodeBlock {
                            kind: CodeBlockKind::Fenced,
                            lang,
                            info_attrs,
                            meta,
                            text: string_from_bytes(text.as_slice()),
                        },
                    ),
                },
                i,
            ),
        )
    }

    /// An indented code block: lines indented by four or more columns; blank lines inside it
    /// are kept.
    pub fn parse_indented_code_block(&self, lines: &[Line], start: usize) -> (r: Option<
        (Block, usize),
    >)
        requires
            start < lines@.len(),
            self.ready(lines@),
        ensures
            r matches Some((b, next)) ==> block_within(b, lines@, start as int, next as int),
            r matches Some((b, _)) ==> b.kind is CodeBlock,
            r matches Some((b, next)) ==> start < next <= lines@.len() && block_in(b, self.src_len as nat),
            r is Some <==> prefix_end(lines@[start as int].text@, 0, 0, 4) is Some,
            r matches Some((b, next)) ==> (b.kind matches BlockKind::CodeBlock(c) && c.kind is Indented
                && c.lang is None),
    {
        let line = &lines[start];
        if indent_prefix_len(line.text.as_slice(), 4).is_none() {
            return None;
        }
        let mut text: Vec<u8> = Vec::new();
        let mut count: usize = 0;
        let mut pending_blank: usize = 0;
        let mut i = start;
        let mut last = start;
        while i < lines.len()
            invariant
                start <= i <= lines@.len(),
                start <= last < lines@.len(),
                last <= i,
                i > start ==> last < i,
            decreases lines.len() - i,
        {
            let current = &lines[i];
            if is_blank(current.text.as_slice()) {
                pending_blank = pending_blank.saturating_add(1);
                i = i + 1;
                continue;
            }
            if indent_prefix_len(current.text.as_slice(), 4).is_none() {
                break;
            }
            while pending_blank > 0
                invariant
                    true,
                decreases pending_blank,
            {
                if count > 0 {
                    text.push(10u8);
                }
                count = count.saturating_add(1);
                pending_blank = pending_blank - 1;
            }
            let content = remove_indent_columns(current.text.as_slice(), 4);
            if count > 0 {
                text.push(10u8);
            }
            count = count.saturating_add(1);
            push_all(&mut text, content.as_slice());
            last = i;
            i = i + 1;
        }
        let next = if i > start { i } else { start + 1 };
        let span = Span { start: line.start, end: lines[last].end };
        proof {
            lemma_line_span(lines@, start as int, last as int, self.src_len as nat);
            lemma_line_end_mono(lines@, last as int, next - 1, self.src_len as nat);
        }
        let meta = CodeMeta {
            hl: Vec::new(),
            diff_add: Vec::new(),
            diff_del: Vec::new(),
            line_labels: Vec::new(),
        };
        Some(
            (
                Block {
                    span,
                    attrs: AttrList::empty(),
                    kind: BlockKind::CodeBlock(
                        CodeBlock {
                            kind: CodeBlockKind::Indented,
                            lang: None,
                            info_attrs: AttrList::empty(),
                            meta,
                            text: string_from_bytes(text.as_slice()),
                        },
                    ),
                },
                next,
            ),
        )
    }

    /// A math block between two `$$` lines.
    pub fn parse_math_block(&mut self, lines: &[Line], start: usize) -> (r: Option<(Block, usize)>)
        requires
            start < lines@.len(),
            old(self).ready(lines@),
        ensures
            r matches Some((b, next)) ==> block_within(b, lines@, start as int, next as int),
            r matches Some((b, _)) ==> b.kind is MathBlock,
            final(self).keeps(*old(self)),
            r matches Some((b, next)) ==> start < next <= lines@.len() && block_in(b, old(self).src_len as nat),
            r is Some <==> trimmed(lines@[start as int].text@) == seq![36u8, 36u8],
            r matches Some((b, next)) ==> b.kind is MathBlock,
    {
        let line = &lines[start];
        if !is_math_fence(line.text.as_slice()) {
            return None;
        }
        let mut i = start + 1;
        let mut body: Vec<u8> = Vec::new();
        let mut first = true;
        while i < lines.len()
            invariant
                start < i <= lines@.len(),
            decreases lines.len() - i,
        {
            let candidate = &lines[i];
            if is_math_fence(candidate.text.as_slice()) {
                i = i + 1;
                break;
            }
            if !first {
                body.push(10u8);
            }
            first = false;
            push_all(&mut body, candidate.text.as_slice());
            i = i + 1;
        }
        let span = Span { start: line.start, end: lines[i - 1].end };
        proof {
            lemma_line_span(lines@, start as int, i - 1, self.src_len as nat);
        }
        Some(
            (
                Block {
                    span,
                    attrs: AttrList::empty(),
                    kind: BlockKind::MathBlock { typst_src: string_from_bytes(body.as_slice()) },
                },
                i,
            ),
        )
    }

    /// A box: `:::` (three or more colons) `box` and an optional title, up to a line of at
    /// least as many colons; fenced code, math blocks and nested boxes inside it are skipped
    /// over whole.
    pub fn parse_box_block(&mut self, lines: &[Line], start: usize) -> (r: Option<(Block, usize)>)
        requires
            start < lines@.len(),
            old(self).ready(lines@),
        ensures
            r matches Some((b, next)) ==> block_within(b, lines@, start as int, next as int),
            r matches Some((b, _)) ==> b.kind is Box,
            final(self).keeps(*old(self)),
            r matches Some((b, next)) ==> start < next <= lines@.len() && block_in(b, old(self).src_len as nat),
            r is Some <==> ({
                let t = lines@[start as int].text@;
                byte_run(t, 0, 58u8) >= 3 && starts_at(
                    t,
                    trim_start_at(t, byte_run(t, 0, 58u8), t.len() as int),
                    "box".spec_bytes(),
                )
            }),
            r matches Some((b, next)) ==> next == box_scan(
                lines@,
                start + 1,
                seq![byte_run(lines@[start as int].text@, 0, 58u8) as usize],
                None,
                false,
            ),
            r matches Some((b, next)) ==> b.span.start == lines@[start as int].start,
            r matches Some((b, _)) ==> (b.kind matches BlockKind::Box(bx) && (bx.title is Some <==> ({
                let t = lines@[start as int].text@;
                let rest = trim_start_at(t, byte_run(t, 0, 58u8), t.len() as int);
                let after = if t.len() - rest >= 3 { rest + 3 } else { t.len() as int };
                trim_start_at(t, after, t.len() as int) < t.len()
            }))),
        decreases text_total(lines@), 0nat,
    {
        let ghost len = self.src_len as nat;
        let line = &lines[start];
        assert(line_in(lines@[start as int], len));
        let n = line.text.len();
        let fence_len = count_colons(line.text.as_slice(), 0);
        if fence_len < 3 {
            return None;
        }
        let rest = trim_start_from(line.text.as_slice(), fence_len, n);
        if !bytes_start_with(line.text.as_slice(), rest, "box".as_bytes()) {
            return None;
        }
        let after_box: usize = if n - rest >= 3 { rest + 3 } else { n };
        let title_start = trim_start_from(line.text.as_slice(), after_box, n);
        let title = if title_start >= n {
            None
        } else {
            let title_text = copy_range(line.text.as_slice(), title_start, n);
            Some(self.parse_inline(title_text.as_slice(), line.start + title_start))
        };
        let mut i = start + 1;
        let mut inner_lines: Vec<Line> = Vec::new();
        let mut fence_stack: Vec<usize> = Vec::new();
        fence_stack.push(fence_len);
        let ghost end = box_scan(lines@, i as int, fence_stack@, None, false);
        proof {
            lemma_collect_skip_first(lines@, start as int, len);
        }
        while i < lines.len()
            invariant_except_break
                fence_stack@.len() > 0,
                box_scan(lines@, i as int, fence_stack@, None, false) == end,
            invariant
                start < i <= lines@.len(),
                self.ready(lines@),
                len == self.src_len as nat,
                self.keeps(*old(self)),
                collected(inner_lines@, lines@, start as int, i as int, len),
            ensures
                i == end,
            decreases lines.len() - i,
        {
            let candidate = &lines[i];
            assert(line_in(lines@[i as int], len));
            let ghost outer_i = i;
            if let Some(fence) = parse_fence_open(candidate.text.as_slice()) {
                let l = copy_line(candidate);
                proof {
                    lemma_collect_push(inner_lines@, lines@, start as int, i as int, l, len);
                }
                inner_lines.push(l);
                i = i + 1;
                while i < lines.len()
                    invariant_except_break
                        box_scan(lines@, i as int, fence_stack@, Some(fence.fence_len), false) == end,
                    invariant
                        start < i <= lines@.len(),
                        outer_i < i,
                        self.ready(lines@),
                        len == self.src_len as nat,
                        collected(inner_lines@, lines@, start as int, i as int, len),
                        fence_stack@.len() > 0,
                    ensures
                        box_scan(lines@, i as int, fence_stack@, None, false) == end,
                    decreases lines.len() - i,
                {
                    let inner = &lines[i];
                    assert(line_in(lines@[i as int], len));
                    let l = copy_line(inner);
                    proof {
                        lemma_collect_push(inner_lines@, lines@, start as int, i as int, l, len);
                    }
                    inner_lines.push(l);
                    let (ticks, all_ticks) = backtick_line(inner.text.as_slice());
                    i = i + 1;
                    if ticks >= fence.fence_len && all_ticks {
                        break;
                    }
                }
                continue;
            }
            if is_math_fence(candidate.text.as_slice()) {
                let l = copy_line(candidate);
                proof {
                    lemma_collect_push(inner_lines@, lines@, start as int, i as int, l, len);
                }
                inner_lines.push(l);
                i = i + 1;
                while i < lines.len()
                    invariant_except_break
                        box_scan(lines@, i as int, fence_stack@, None, true) == end,
                    invariant
                        start < i <= lines@.len(),
                        outer_i < i,
                        self.ready(lines@),
                        len == self.src_len as nat,
                        collected(inner_lines@, lines@, start as int, i as int, len),
                        fence_stack@.len() > 0,
                    ensures
                        box_scan(lines@, i as int, fence_stack@, None, false) == end,
                    decreases lines.len() - i,
                {
                    let inner = &lines[i];
                    assert(line_in(lines@[i as int], len));
                    let l = copy_line(inner);
                    proof {
                        lemma_collect_push(inner_lines@, lines@, start as int, i as int, l, len);
                    }
                    inner_lines.push(l);
                    i = i + 1;
                    if is_math_fence(inner.text.as_slice()) {
                        break;
                    }
                }
                continue;
            }
            if is_box_open(candidate.text.as_slice()) {
                let nested_len = count_colons(candidate.text.as_slice(), 0);
                fence_stack.push(nested_len);
                let l = copy_line(candidate);
                proof {
                    lemma_collect_push(inner_lines@, lines@, start as int, i as int, l, len);
                }
                inner_lines.push(l);
                i = i + 1;
                continue;
            }
            let (colons, all_colons) = colon_line(candidate.text.as_slice());
            if colons >= 3 && all_colons && fence_stack.len() > 0 {
                let top = fence_stack[fence_stack.len() - 1];
                if colons >= top {
                    fence_stack.pop();
                    if fence_stack.len() == 0 {
                        proof {
                            lemma_collect_skip(inner_lines@, lines@, start as int, i as int, len);
                        }
                        i = i + 1;
                        break;
                    }
                    let l = copy_line(candidate);
                    proof {
                        lemma_collect_push(inner_lines@, lines@, start as int, i as int, l, len);
                    }
                    inner_lines.push(l);
                    i = i + 1;
                    continue;
                }
            }
            let l = copy_line(candidate);
            proof {
                lemma_collect_push(inner_lines@, lines@, start as int, i as int, l, len);
            }
            inner_lines.push(l);
            i = i + 1;
        }
        proof {
            lemma_collect_done(inner_lines@, lines@, start as int, i as int, len);
        }
        let blocks = self.parse_blocks(inner_lines.as_slice());
        let span = Span { start: line.start, end: lines[i - 1].end };
        proof {
            lemma_line_span(lines@, start as int, i - 1, len);
        }
        Some(
            (
                Block {
                    span,
                    attrs: AttrList::empty(),
                    kind: BlockKind::Box(BoxBlock { title, blocks }),
                },
                i,
            ),
        )
    }

    /// An HTML block: for kinds 1 to 5 up to the line that ends it, for kinds 6 and 7 up to a
    /// blank line.
    pub fn parse_html_block(&mut self, lines: &[Line], start: usize) -> (r: Option<(Block, usize)>)
        requires
            start < lines@.len(),
            old(self).ready(lines@),
        ensures
            r matches Some((b, next)) ==> block_within(b, lines@, start as int, next as int),
            r matches Some((b, _)) ==> b.kind is HtmlBlock,
            final(self).keeps(*old(self)),
            r matches Some((b, next)) ==> start < next <= lines@.len() && block_in(b, old(self).src_len as nat),
            r is Some <==> html_start(lines@[start as int].text@) is Some,
            r matches Some((b, next)) ==> (b.kind matches BlockKind::HtmlBlock { raw } && raw@ == lossy_decode(
                joined_lines(lines@, start as int, next as int),
            )),
            r matches Some((b, next)) ==> b.span.start == lines@[start as int].start,
            r matches Some((b, next)) ==> (html_start(lines@[start as int].text@) matches Some(kind) && if kind
                is Type6 || kind is Type7 {
                &&& next == lines@.len() || trimmed(lines@[next as int].text@).len() == 0
                &&& forall|k: int| start < k < next ==> trimmed(#[trigger] lines@[k].text@).len() > 0
            } else {
                &&& next == lines@.len() || ends_html_block(kind, lines@[next - 1].text@)
                &&& forall|k: int| start <= k < next - 1 ==> !ends_html_block(kind, #[trigger] lines@[k].text@)
            }),
    {
        let line = &lines[start];
        let kind = match match_html_block_start(line.text.as_slice()) {
            Some(k) => k,
            None => return None,
        };
        let mut raw: Vec<u8> = Vec::new();
        push_all(&mut raw, line.text.as_slice());
        let mut i = start + 1;
        let open_ended = kind == HtmlBlockKind::Type6 || kind == HtmlBlockKind::Type7;
        if !open_ended && html_block_end(kind, line.text.as_slice()) {
            let span = Span { start: line.start, end: line.end };
            proof {
                lemma_line_span(lines@, start as int, start as int, self.src_len as nat);
            }
            return Some(
                (
                    Block {
                        span,
                        attrs: AttrList::empty(),
                        kind: BlockKind::HtmlBlock { raw: string_from_bytes(raw.as_slice()) },
                    },
                    i,
                ),
            );
        }
        if open_ended {
            while i < lines.len()
                invariant
                    start < i <= lines@.len(),
                    raw@ == joined_lines(lines@, start as int, i as int),
                    forall|k: int| start < k < i ==> trimmed(#[trigger] lines@[k].text@).len() > 0,
                ensures
                    i == lines@.len() || trimmed(lines@[i as int].text@).len() == 0,
                decreases lines.len() - i,
            {
                let next = &lines[i];
                if is_blank(next.text.as_slice()) {
                    break;
                }
                raw.push(10u8);
                push_all(&mut raw, next.text.as_slice());
                i = i + 1;
            }
        } else {
            while i < lines.len()
                invariant_except_break
                    forall|k: int| start <= k < i ==> !ends_html_block(kind, #[trigger] lines@[k].text@),
                invariant
                    start < i <= lines@.len(),
                    raw@ == joined_lines(lines@, start as int, i as int),
                ensures
                    start < i <= lines@.len(),
                    raw@ == joined_lines(lines@, start as int, i as int),
                    i == lines@.len() || ends_html_block(kind, lines@[i - 1].text@),
                    forall|k: int| start <= k < i - 1 ==> !ends_html_block(kind, #[trigger] lines@[k].text@),
                decreases lines.len() - i,
            {
                let next = &lines[i];
                raw.push(10u8);
                push_all(&mut raw, next.text.as_slice());
                if html_block_end(kind, next.text.as_slice()) {
                    i = i + 1;
                    break;
                }
                i = i + 1;
            }
        }
        let span = Span { start: line.start, end: lines[i - 1].end };
        proof {
            lemma_line_span(lines@, start as int, i - 1, self.src_len as nat);
        }
        Some(
            (
                Block {
                    span,
                    attrs: AttrList::empty(),
                    kind: BlockKind::HtmlBlock { raw: string_from_bytes(raw.as_slice()) },
                },
                i,
            ),
        )
    }

    /// A block quote: lines starting with `>` (the prefix removed) and lazy continuation lines
    /// of a paragraph.
    pub fn parse_block_quote(&mut self, lines: &[Line], start: usize) -> (r: Option<(Block, usize)>)
        requires
            start < lines@.len(),
            old(self).ready(lines@),
        ensures
            r matches Some((b, next)) ==> block_within(b, lines@, start as int, next as int),
            r matches Some((b, _)) ==> b.kind is BlockQuote,
            final(self).keeps(*old(self)),
            r matches Some((b, next)) ==> start < next <= lines@.len() && block_in(b, old(self).src_len as nat),
            r is Some <==> quote_line(lines@[start as int].text@),
            r matches Some((b, next)) ==> next == lines@.len() || !quote_line(lines@[next as int].text@),
            r matches Some((b, next)) ==> forall|k: int|
                start < k < next ==> quote_line(lines@[k].text@) || trimmed(#[trigger] lines@[k].text@).len()
                    > 0,
            r matches Some((b, next)) ==> b.span.start == lines@[start as int].start,
        decreases text_total(lines@), 0nat,
    {
        let ghost len = self.src_len as nat;
        let line = &lines[start];
        assert(line_in(lines@[start as int], len));
        let first_prefix = match blockquote_prefix_len(line.text.as_slice()) {
            Some(p) => p,
            None => return None,
        };
        let mut quote_lines: Vec<Line> = Vec::new();
        let first = Line {
            text: copy_range(line.text.as_slice(), first_prefix, line.text.len()),
            start: line.start + first_prefix,
            end: line.end,
            has_newline: line.has_newline,
        };
        proof {
            lemma_collect_first(lines@, start as int, first, len);
        }
        let mut can_lazy = self.line_can_continue_paragraph(&first);
        quote_lines.push(first);
        assert(quote_lines@ == seq![first]);
        let mut i = start + 1;
        while i < lines.len()
            invariant
                start < i <= lines@.len(),
                self.ready(lines@),
                len == self.src_len as nat,
                self.keeps(*old(self)),
                collected(quote_lines@, lines@, start as int, i as int, len),
                forall|k: int|
                    start < k < i ==> quote_line(lines@[k].text@) || trimmed(#[trigger] lines@[k].text@).len()
                        > 0,
            ensures
                i == lines@.len() || !quote_line(lines@[i as int].text@),
            decreases lines.len() - i,
        {
            let candidate = &lines[i];
            assert(line_in(lines@[i as int], len));
            if let Some(prefix) = blockquote_prefix_len(candidate.text.as_slice()) {
                let l = Line {
                    text: copy_range(candidate.text.as_slice(), prefix, candidate.text.len()),
                    start: candidate.start + prefix,
                    end: candidate.end,
                    has_newline: candidate.has_newline,
                };
                can_lazy = self.line_can_continue_paragraph(&l);
                proof {
                    lemma_collect_push(quote_lines@, lines@, start as int, i as int, l, len);
                }
                quote_lines.push(l);
                i = i + 1;
                continue;
            }
            if is_blank(candidate.text.as_slice()) {
                break;
            }
            if can_lazy && setext_underline_level(candidate.text.as_slice()).is_none()
                && self.line_can_continue_paragraph(candidate) {
                let l = copy_line(candidate);
                proof {
                    lemma_collect_push(quote_lines@, lines@, start as int, i as int, l, len);
                }
                quote_lines.push(l);
                can_lazy = true;
                i = i + 1;
                continue;
            }
            break;
        }
        proof {
            lemma_collect_done(quote_lines@, lines@, start as int, i as int, len);
        }
        let blocks = self.parse_blocks(quote_lines.as_slice());
        let span = Span { start: line.start, end: lines[i - 1].end };
        proof {
            lemma_line_span(lines@, start as int, i - 1, len);
        }
        Some(
            (
                Block { span, attrs: AttrList::empty(), kind: BlockKind::BlockQuote { blocks } },
                i,
            ),
        )
    }

    /// A list: items with the same kind of marker; each item holds its first line after the
    /// marker, the lines indented to its content column, blank lines between them, and lazy
    /// continuation lines. The list is loose when a blank line separates items or blocks of an
    /// item.
    pub fn parse_list(&mut self, lines: &[Line], start: usize) -> (r: Option<(Block, usize)>)
        requires
            start < lines@.len(),
            old(self).ready(lines@),
        ensures
            r matches Some((b, next)) ==> block_within(b, lines@, start as int, next as int),
            r matches Some((b, _)) ==> b.kind is List,
            final(self).keeps(*old(self)),
            r matches Some((b, next)) ==> start < next <= lines@.len() && block_in(b, old(self).src_len as nat),
            r is Some <==> list_marker_at(lines@[start as int].text@),
            r matches Some((b, next)) ==> (b.kind matches BlockKind::List(l) && l.ordered == !({
                let t = lines@[start as int].text@;
                let sp = byte_run(t, 0, 32u8);
                sp < t.len() && is_bullet(t[sp])
            })),
        r matches Some((b, next)) ==> (b.kind matches BlockKind::List(l) && l.start == ({
                let t = lines@[start as int].text@;
                let sp = byte_run(t, 0, 32u8);
                let de = digit_end(t, sp);
                if sp < t.len() && is_bullet(t[sp]) {
                    None
                } else {
                    Some(digits_value(t.subrange(sp, de)) as u64)
                }
            })),
        r matches Some((b, next)) ==> (b.kind matches BlockKind::List(l) && l.items@.len() >= 1
            && l.items@[0].span.start == lines@[start as int].start && b.span.start
            == lines@[start as int].start),
        decreases text_total(lines@), 0nat,
    {
        let ghost len = self.src_len as nat;
        let line = &lines[start];
        let marker = match parse_list_marker(line.text.as_slice()) {
            Some(m) => m,
            None => return None,
        };
        let mut i = start;
        let mut items: Vec<ListItem> = Vec::new();
        let mut item_blanks: Vec<bool> = Vec::new();
        let mut list_has_blank = false;
        let list_start = marker.start;
        while i < lines.len()
            invariant
                start <= i <= lines@.len(),
                self.ready(lines@),
                len == self.src_len as nat,
                self.keeps(*old(self)),
                forall|k: int| 0 <= k < items@.len() ==> item_in(#[trigger] items@[k], len),
                items@.len() > 0 ==> i > start,
                i == start ==> items@.len() == 0,
                start < lines@.len(),
                i > start ==> items@.len() > 0 && items@[0].span.start == lines@[start as int].start,
                list_marker_at(lines@[start as int].text@),
                ({
                    let t = lines@[start as int].text@;
                    let sp = byte_run(t, 0, 32u8);
                    let de = digit_end(t, sp);
                    if sp < t.len() && is_bullet(t[sp]) {
                        !marker.ordered && marker.marker == t[sp]
                    } else {
                        marker.ordered && marker.marker == t[de]
                    }
                }),
            ensures
                i > start,
            decreases lines.len() - i,
        {
            let current = &lines[i];
            assert(line_in(lines@[i as int], len));
            let current_marker = match parse_list_marker(current.text.as_slice()) {
                Some(m) => m,
                None => break,
            };
            if current_marker.ordered != marker.ordered || current_marker.marker != marker.marker {
                break;
            }
            let marker_len = current_marker.marker_len;
            let ctext = current.text.len();
            // Five or more columns of whitespace after the marker: the item's text starts one
            // column after the marker, and its first line is an indented code block holding
            // the rest of the whitespace (tab stops counted from the item's column).
            let padded = !current_marker.empty && current_marker.post_cols >= 5;
            let content_indent = if padded {
                current_marker.marker_col.saturating_add(1)
            } else {
                current_marker.content_indent
            };
            let mut item_lines: Vec<Line> = Vec::new();
            let mut first_code: Option<Block> = None;
            let mut task: Option<bool> = None;
            let mut seen_content;
            let mut initial_blank_lines: usize;
            let mut can_lazy;
            if padded {
                let code = first_line_code(current.text.as_slice(), current_marker.post_cols - 1, current_marker.content_start);
                let meta = CodeMeta {
                    hl: Vec::new(),
                    diff_add: Vec::new(),
                    diff_del: Vec::new(),
                    line_labels: Vec::new(),
                };
                first_code = Some(Block {
                    span: Span { start: current.start, end: current.end },
                    attrs: AttrList::empty(),
                    kind: BlockKind::CodeBlock(
                        CodeBlock {
                            kind: CodeBlockKind::Indented,
                            lang: None,
                            info_attrs: AttrList::empty(),
                            meta,
                            text: string_from_bytes(code.as_slice()),
                        },
                    ),
                });
                seen_content = true;
                initial_blank_lines = 0;
                can_lazy = false;
                proof {
                    lemma_collect_skip_first(lines@, i as int, len);
                    assert(item_lines@ == Seq::<Line>::empty());
                }
            } else {
                // `[ ]`, `[x]` or `[X]` and a space or tab before the item's text mark a task.
                let ct = current.text.as_slice();
                let mut text_from = marker_len;
                if marker_len < ctext && ctext - marker_len > 3 && ct[marker_len] == 91u8 && (ct[marker_len + 1] == 32u8
                    || ct[marker_len + 1] == 120u8 || ct[marker_len + 1] == 88u8) && ct[marker_len + 2] == 93u8
                    && (ct[marker_len + 3] == 32u8 || ct[marker_len + 3] == 9u8) && !is_blank(
                    copy_range(ct, marker_len + 4, ctext).as_slice(),
                ) {
                    task = Some(ct[marker_len + 1] != 32u8);
                    text_from = marker_len + 4;
                }
                let first = Line {
                    text: copy_range(ct, text_from, ctext),
                    start: current.start + text_from,
                    end: current.end,
                    has_newline: current.has_newline,
                };
                seen_content = !is_blank(first.text.as_slice());
                initial_blank_lines = if seen_content { 0 } else { 1 };
                proof {
                    lemma_collect_first(lines@, i as int, first, len);
                }
                can_lazy = self.line_can_continue_paragraph(&first);
                item_lines.push(first);
                assert(item_lines@ == seq![first]);
            }
            let mut last_line_idx = i;
            let mut j = i + 1;
            // Blank lines seen since the last line taken: `lines[pending_from..j]`.
            let mut pending_from: usize = j;
            while j < lines.len()
                invariant
                    i < pending_from <= j <= lines@.len(),
                    i <= last_line_idx < j,
                    self.ready(lines@),
                    len == self.src_len as nat,
                    self.keeps(*old(self)),
                    collected(item_lines@, lines@, i as int, pending_from as int, len),
                decreases lines.len() - j,
            {
                let next = &lines[j];
                assert(line_in(lines@[j as int], len));
                if is_blank(next.text.as_slice()) {
                    if !seen_content {
                        if initial_blank_lines >= 1 {
                            break;
                        }
                        initial_blank_lines = initial_blank_lines + 1;
                    }
                    can_lazy = false;
                    j = j + 1;
                    continue;
                }
                if let Some(prefix_len) = indent_prefix_len(next.text.as_slice(), content_indent) {
                    while pending_from < j
                        invariant
                            i < pending_from <= j < lines@.len(),
                            self.ready(lines@),
                            len == self.src_len as nat,
                            collected(item_lines@, lines@, i as int, pending_from as int, len),
                        decreases j - pending_from,
                    {
                        let blank = &lines[pending_from];
                        assert(line_in(lines@[pending_from as int], len));
                        let l = Line {
                            text: Vec::new(),
                            start: blank.start,
                            end: blank.end,
                            has_newline: blank.has_newline,
                        };
                        proof {
                            lemma_collect_push(item_lines@, lines@, i as int, pending_from as int, l, len);
                        }
                        item_lines.push(l);
                        pending_from = pending_from + 1;
                    }
                    let l = Line {
                        text: copy_range(next.text.as_slice(), prefix_len, next.text.len()),
                        start: next.start + prefix_len,
                        end: next.end,
                        has_newline: next.has_newline,
                    };
                    can_lazy = self.line_can_continue_paragraph(&l);
                    proof {
                        lemma_collect_push(item_lines@, lines@, i as int, j as int, l, len);
                    }
                    item_lines.push(l);
                    seen_content = true;
                    last_line_idx = j;
                    j = j + 1;
                    pending_from = j;
                    continue;
                }
                if let Some(next_marker) = parse_list_marker(next.text.as_slice()) {
                    if next_marker.ordered == marker.ordered && next_marker.marker == marker.marker {
                        if pending_from < j {
                            list_has_blank = true;
                        }
                    }
                    break;
                }
                if pending_from == j && can_lazy && setext_underline_level(next.text.as_slice()).is_none()
                    && self.line_can_continue_paragraph(next) {
                    let l = copy_line(next);
                    proof {
                        lemma_collect_push(item_lines@, lines@, i as int, j as int, l, len);
                    }
                    item_lines.push(l);
                    seen_content = true;
                    can_lazy = true;
                    last_line_idx = j;
                    j = j + 1;
                    pending_from = j;
                    continue;
                }
                break;
            }
            proof {
                lemma_collect_done(item_lines@, lines@, i as int, pending_from as int, len);
            }
            let rest_blocks = self.parse_blocks(item_lines.as_slice());
            let item_has_blank = item_has_blank_between_blocks(item_lines.as_slice(), rest_blocks.as_slice());
            let blocks = match first_code {
                Some(code) => prepend_block(code, rest_blocks, Ghost(len)),
                None => rest_blocks,
            };
            let span = Span { start: current.start, end: lines[last_line_idx].end };
            proof {
                lemma_line_span(lines@, i as int, last_line_idx as int, len);
            }
            let ghost before_items = items@;
            items.push(ListItem { span, blocks, task });
            item_blanks.push(item_has_blank);
            proof {
                if before_items.len() > 0 {
                    assert(items@[0] == before_items[0]);
                }
            }
            i = j;
        }
        let mut tight = !list_has_blank;
        if tight {
            let mut k: usize = 0;
            while k < item_blanks.len()
                invariant
                    k <= item_blanks@.len(),
                decreases item_blanks.len() - k,
            {
                if item_blanks[k] {
                    tight = false;
                    break;
                }
                k = k + 1;
            }
        }
        let last = if i > start { i - 1 } else { start };
        let span = Span { start: lines[start].start, end: lines[last].end };
        proof {
            lemma_line_span(lines@, start as int, last as int, len);
        }
        let next = if i > start { i } else { start + 1 };
        Some(
            (
                Block {
                    span,
                    attrs: AttrList::empty(),
                    kind: BlockKind::List(
                        List { ordered: marker.ordered, start: list_start, tight, items },
                    ),
                },
                next,
            ),
        )
    }

    /// Whether the line starts some block other than a paragraph.
    pub fn is_block_start(&self, line: &Line) -> (r: bool)
        ensures
            r == block_start(line.text@),
    {
        let t = line.text.as_slice();
        parse_fence_open(t).is_some() || is_math_fence(t) || is_box_open(t)
            || match_html_block_start(t).is_some() || blockquote_prefix_len(t).is_some()
            || is_thematic_break_line(t) || parse_list_marker(t).is_some()
            || parse_atx_heading(t).is_some() || is_target_line_text(t)
    }

    /// Whether the line may continue a paragraph (lazily, inside a quote or an item).
    pub fn line_can_continue_paragraph(&self, line: &Line) -> (r: bool)
        ensures
            4 * line.text@.len() + 8 < usize::MAX ==> r == continues_paragraph(line.text@),
    {
        let t = line.text.as_slice();
        if is_blank(t) {
            return false;
        }
        if setext_underline_level(t).is_some() {
            return false;
        }
        if let Some(kind) = match_html_block_start(t) {
            if kind != HtmlBlockKind::Type7 {
                return false;
            }
        } else if let Some(marker) = parse_list_marker(t) {
            if !marker.empty && (!marker.ordered || marker.start == Some(1u64)) {
                return false;
            }
        } else if self.is_block_start(line) {
            return false;
        }
        true
    }

    /// A target line `{...}`: the attribute list between its first `{` and its last `}`.
    pub fn try_parse_target_line(&mut self, line: &Line) -> (r: Option<AttrList>)
        requires
            line_in(*line, old(self).src_len as nat),
            old(self).src_len < usize::MAX,
        ensures
            final(self).keeps(*old(self)),
            r matches Some(a) ==> attrs_in(a, old(self).src_len as nat),
            r is Some <==> (trimmed(line.text@).len() >= 2 && trimmed(line.text@)[0] == 123u8
                && trimmed(line.text@).last() == 125u8),
    {
        let t = line.text.as_slice();
        if !is_target_line_text(t) {
            return None;
        }
        let n = t.len();
        let open_idx = match find_byte(t, 123u8) {
            Some(p) => p,
            None => 0,
        };
        let close_idx = match rfind_byte(t, 125u8) {
            Some(p) => p,
            None => if n > 0 { n - 1 } else { 0 },
        };
        if n == 0 || close_idx < open_idx {
            self.push_diag(
                Span { start: line.start, end: line.end },
                DiagnosticSeverity::Error,
                E_ATTR_SYNTAX,
                "invalid attribute list",
            );
            return Some(AttrList::empty());
        }
        let part = copy_range(t, open_idx, close_idx + 1);
        Some(self.parse_attr_list_text(part.as_slice(), line.start + open_idx))
    }

    /// The language and the attribute list of a fence's info string; the list runs from the
    /// first `{` of the line to its last `}`.
    pub fn parse_fence_info(&mut self, line: &Line, info: &[u8]) -> (r: (Option<String>, AttrList))
        requires
            line_in(*line, old(self).src_len as nat),
            old(self).src_len < usize::MAX,
        ensures
            final(self).keeps(*old(self)),
            attrs_in(r.1, old(self).src_len as nat),
            match first_index(info@, 123u8) {
                Some(bi) => {
                    let a = trim_start_at(info@, 0, bi);
                    let e = trim_end_at(info@, a, bi);
                    if a >= e {
                        r.0 is None
                    } else {
                        r.0 matches Some(l) && l@ == lossy_decode(info@.subrange(a, e))
                    }
                },
                None => (if info@.len() == 0 {
                    r.0 is None
                } else {
                    r.0 matches Some(l) && l@ == lossy_decode(info@)
                }) && r.1.items@.len() == 0 && r.1.label is None,
            },
    {
        proof {
            lemma_first_index_bound(info@, 123u8);
        }
        match find_byte(info, 123u8) {
            Some(brace_idx) => {
                proof {
                    lemma_first_index_is(info@, 123u8, brace_idx as int);
                }
                let (a, b) = trim_range(info, 0, brace_idx);
                let lang = if a >= b {
                    None
                } else {
                    Some(string_from_bytes(copy_range(info, a, b).as_slice()))
                };
                let t = line.text.as_slice();
                let n = t.len();
                let open_idx = match find_byte(t, 123u8) {
                    Some(p) => p,
                    None => n,
                };
                let close_idx = match rfind_byte(t, 125u8) {
                    Some(p) => p,
                    None => if n > 0 { n - 1 } else { 0 },
                };
                // The list reaches the end of the line when no `}` follows its `{`.
                let stop = if open_idx < n && close_idx >= open_idx { close_idx + 1 } else { n };
                let from = if open_idx <= stop { open_idx } else { stop };
                let part = copy_range(t, from, stop);
                let attrs = self.parse_attr_list_text(part.as_slice(), line.start + from);
                (lang, attrs)
            },
            None => {
                proof {
                    lemma_first_index_absent(info@, 123u8);
                }
                let lang = if info.len() == 0 {
                    None
                } else {
                    Some(string_from_bytes(info))
                };
                (lang, AttrList::empty())
            },
        }
    }
}

/// A link reference definition `[label]: destination "title"` starting at line `start`; the
/// label and the title may run over several lines. Gives the normalized label, the definition
/// and the index of the line after it.
pub fn parse_link_reference_definition_lines(lines: &[Line], start: usize) -> (r: Option<
    (String, LinkDefinition, usize),
>)
    ensures
        r matches Some((_, _, next)) ==> start < next <= lines@.len(),
{
    if start >= lines.len() {
        return None;
    }
    let line = &lines[start];
    let bytes = line.text.as_slice();
    let mut i: usize = 0;
    let mut spaces: usize = 0;
    while i < bytes.len() && bytes[i] == 32u8 && spaces < 4
        invariant
            i == spaces,
            i <= bytes@.len(),
            spaces <= 4,
        decreases 4 - spaces,
    {
        i = i + 1;
        spaces = spaces + 1;
    }
    if spaces > 3 {
        return None;
    }
    if i >= bytes.len() || bytes[i] != 91u8 {
        return None;
    }
    let (label_bytes, label_end_line, label_end_pos) = match find_bracket_end(
        bytes,
        i + 1,
        bytes.len(),
    ) {
        Some((label_end, had_newline)) => {
            if had_newline {
                return None;
            }
            (copy_range(bytes, i + 1, label_end), start, label_end)
        },
        None => match parse_link_label_multiline(lines, start, i + 1) {
            Some(v) => v,
            None => return None,
        },
    };
    let label = normalize_definition_label(label_bytes.as_slice());
    if crate::text::string_bytes(&label).len() == 0 {
        return None;
    }
    if label_end_line >= lines.len() {
        return None;
    }
    let end_bytes = lines[label_end_line].text.as_slice();
    if label_end_pos >= end_bytes.len() {
        return None;
    }
    let mut pos = label_end_pos + 1;
    if pos >= end_bytes.len() || end_bytes[pos] != 58u8 {
        return None;
    }
    pos = pos + 1;
    let mut line_idx = label_end_line;
    while pos < end_bytes.len() && space_tab(end_bytes[pos])
        invariant
            pos <= end_bytes@.len(),
        decreases end_bytes.len() - pos,
    {
        pos = pos + 1;
    }
    if pos >= end_bytes.len() {
        line_idx = line_idx + 1;
        if line_idx >= lines.len() {
            return None;
        }
        pos = skip_spaces_tabs(lines[line_idx].text.as_slice(), 0);
    }
    let dest_bytes = lines[line_idx].text.as_slice();
    if pos >= dest_bytes.len() {
        return None;
    }
    let (url_bytes, next_pos) = match parse_reference_destination(dest_bytes, pos, dest_bytes.len()) {
        Some(v) => v,
        None => return None,
    };
    pos = next_pos;
    let mut had_space_after_dest = false;
    while pos < dest_bytes.len() && space_tab(dest_bytes[pos])
        invariant
            pos <= dest_bytes@.len(),
        decreases dest_bytes.len() - pos,
    {
        had_space_after_dest = true;
        pos = pos + 1;
    }
    let mut title: Option<String> = None;
    let mut end_line_idx = line_idx;
    if pos < dest_bytes.len() {
        let first = dest_bytes[pos];
        if is_title_delim(first) {
            if !had_space_after_dest {
                return None;
            }
            let (parsed, title_end_line, title_end_pos) = match parse_link_title_multiline(
                lines,
                line_idx,
                pos,
            ) {
                Some(v) => v,
                None => return None,
            };
            if !trailing_spaces_tabs_only(lines[title_end_line].text.as_slice(), title_end_pos) {
                return None;
            }
            title = Some(parsed);
            end_line_idx = title_end_line;
        } else {
            return None;
        }
    } else {
        let peek_idx = line_idx + 1;
        if peek_idx < lines.len() {
            let peek_text = lines[peek_idx].text.as_slice();
            let peek_pos = skip_spaces_tabs(peek_text, 0);
            if peek_pos < peek_text.len() {
                let first = peek_text[peek_pos];
                if is_title_delim(first) {
                    let (parsed, title_end_line, title_end_pos) = match parse_link_title_multiline(
                        lines,
                        peek_idx,
                        peek_pos,
                    ) {
                        Some(v) => v,
                        None => return None,
                    };
                    if !trailing_spaces_tabs_only(
                        lines[title_end_line].text.as_slice(),
                        title_end_pos,
                    ) {
                        return None;
                    }
                    title = Some(parsed);
                    end_line_idx = title_end_line;
                }
            }
        }
    }
    let url = string_from_bytes(url_bytes.as_slice());
    Some((label, LinkDefinition { url, title }, end_line_idx + 1))
}

/// A link title that may run over several lines: from the delimiter at `pos` of line
/// `line_idx` to its closing delimiter; a blank line ends it unclosed. Gives the title, the
/// line of the closing delimiter and the position after it.
/// A title read from byte `p` of line `li` up to its closing byte `close`, over lines that
/// are not blank (each line end becoming a newline), with the backslash of an escaped
/// punctuation byte removed: its bytes, and the line and the index after the closing byte.
pub open spec fn title_lines(ls: Seq<Line>, li: int, p: int, close: u8, escaped: bool) -> Option<
    (Seq<u8>, int, int),
>
    decreases ls.len() - li, if 0 <= li < ls.len() && 0 <= p { ls[li].text@.len() - p } else { 0 },
{
    if li < 0 || li >= ls.len() || p < 0 {
        None
    } else if p >= ls[li].text@.len() {
        if li + 1 >= ls.len() || trimmed(ls[li + 1].text@).len() == 0 {
            None
        } else {
            match title_lines(ls, li + 1, 0, close, false) {
                Some((o, l, q)) => Some((seq![10u8] + o, l, q)),
                None => None,
            }
        }
    } else {
        let t = ls[li].text@;
        if escaped {
            match title_lines(ls, li, p + 1, close, false) {
                Some((o, l, q)) => Some((seq![t[p]] + o, l, q)),
                None => None,
            }
        } else if t[p] == 92u8 && p + 1 < t.len() && is_punct(t[p + 1]) {
            title_lines(ls, li, p + 1, close, true)
        } else if t[p] == close {
            Some((Seq::empty(), li, p + 1))
        } else {
            match title_lines(ls, li, p + 1, close, false) {
                Some((o, l, q)) => Some((seq![t[p]] + o, l, q)),
                None => None,
            }
        }
    }
}

pub fn parse_link_title_multiline(lines: &[Line], line_idx: usize, pos: usize) -> (r: Option<
    (String, usize, usize),
>)
    ensures
        r matches Some((_, l, p)) ==> line_idx <= l < lines@.len() && p <= lines@[l as int].text@.len(),
        ({
            let ok = line_idx < lines@.len() && pos < lines@[line_idx as int].text@.len();
            let c = if ok { title_closer(lines@[line_idx as int].text@[pos as int]) } else { None };
            match c {
                Some(cl) => match title_lines(lines@, line_idx as int, pos + 1, cl, false) {
                    Some((o, l, q)) => r matches Some((t, rl, rq)) && t@ == lossy_decode(o) && rl == l
                        && rq == q,
                    None => r is None,
                },
                None => r is None,
            }
        }),
{
    if line_idx >= lines.len() {
        return None;
    }
    let bytes = lines[line_idx].text.as_slice();
    if pos >= bytes.len() {
        return None;
    }
    let open = bytes[pos];
    let close: u8 = if open == 34u8 {
        34u8
    } else if open == 39u8 {
        39u8
    } else if open == 40u8 {
        41u8
    } else {
        return None;
    };
    let mut li = line_idx;
    let mut p = pos + 1;
    let mut out: Vec<u8> = Vec::new();
    let mut escaped = false;
    let ghost whole = title_lines(lines@, line_idx as int, pos + 1, close, false);
    assert(title_closer(open) == Some(close));
    loop
        invariant
            line_idx <= li < lines@.len(),
            line_idx < lines@.len() && pos < lines@[line_idx as int].text@.len() && title_closer(
                lines@[line_idx as int].text@[pos as int],
            ) == Some(close),
            whole == title_lines(lines@, line_idx as int, pos + 1, close, false),
            title_lines(lines@, li as int, p as int, close, escaped) matches Some((o, l, q)) ==> whole
                == Some((out@ + o, l, q)),
            title_lines(lines@, li as int, p as int, close, escaped) is None ==> whole is None,
            escaped ==> p < lines@[li as int].text@.len(),
        decreases lines@.len() - li,
    {
        let text = lines[li].text.as_slice();
        while p < text.len()
            invariant
                line_idx <= li < lines@.len(),
                text@ == lines@[li as int].text@,
                line_idx < lines@.len() && pos < lines@[line_idx as int].text@.len() && title_closer(
                    lines@[line_idx as int].text@[pos as int],
                ) == Some(close),
                whole == title_lines(lines@, line_idx as int, pos + 1, close, false),
                title_lines(lines@, li as int, p as int, close, escaped) matches Some((o, l, q)) ==> whole
                    == Some((out@ + o, l, q)),
                title_lines(lines@, li as int, p as int, close, escaped) is None ==> whole is None,
                escaped ==> p < text@.len(),
            decreases text.len() - p,
        {
            let b = text[p];
            let ghost o0 = out@;
            if escaped {
                out.push(b);
                proof {
                    if let Some((o, l, q)) = title_lines(lines@, li as int, p + 1, close, false) {
                        assert(o0 + (seq![b] + o) =~= out@ + o);
                    }
                }
                escaped = false;
                p = p + 1;
                continue;
            }
            if b == 92u8 {
                if p + 1 < text.len() && ascii_punct(text[p + 1]) {
                    assert(title_lines(lines@, li as int, p as int, close, false) == title_lines(
                        lines@,
                        li as int,
                        p + 1,
                        close,
                        true,
                    ));
                    escaped = true;
                    p = p + 1;
                    continue;
                }
                out.push(92u8);
                proof {
                    if let Some((o, l, q)) = title_lines(lines@, li as int, p + 1, close, false) {
                        assert(o0 + (seq![b] + o) =~= out@ + o);
                    }
                }
                p = p + 1;
                continue;
            }
            if b == close {
                proof {
                    assert(out@ + Seq::<u8>::empty() =~= out@);
                }
                return Some((string_from_bytes(out.as_slice()), li, p + 1));
            }
            out.push(b);
            proof {
                if let Some((o, l, q)) = title_lines(lines@, li as int, p + 1, close, false) {
                    assert(o0 + (seq![b] + o) =~= out@ + o);
                }
            }
            p = p + 1;
        }
        let ghost o1 = out@;
        let ghost li0 = li as int;
        proof {
            assert(!escaped);
            assert(p >= lines@[li as int].text@.len());
            assert(title_lines(lines@, li as int, p as int, close, escaped) == (if li + 1 >= lines@.len()
                || trimmed(lines@[li + 1].text@).len() == 0 {
                None
            } else {
                match title_lines(lines@, li + 1, 0, close, false) {
                    Some((o, l, q)) => Some((seq![10u8] + o, l, q)),
                    None => None,
                }
            }));
        }
        li = li + 1;
        if li >= lines.len() {
            return None;
        }
        if is_blank(lines[li].text.as_slice()) {
            return None;
        }
        out.push(10u8);
        proof {
            if let Some((o, l, q)) = title_lines(lines@, li as int, 0, close, false) {
                assert(o1 + (seq![10u8] + o) =~= out@ + o);
            }
        }
        p = 0;
    }
}

/// A link label that may run over several lines: the bytes up to the `]` that closes it
/// (nested brackets balanced, escapes honoured); a blank line ends it unclosed. Gives the
/// label bytes, the line of the `]` and its position.
/// A label read from byte `p` of line `li` (`depth` brackets open inside it) up to the `]`
/// that closes it, over lines that are not blank (each line end becoming a newline), with the
/// backslash of an escaped punctuation byte removed: its bytes, and the line and the index of
/// the `]`.
pub open spec fn label_lines(ls: Seq<Line>, li: int, p: int, depth: int, escaped: bool) -> Option<
    (Seq<u8>, int, int),
>
    decreases ls.len() - li, if 0 <= li < ls.len() && 0 <= p { ls[li].text@.len() - p } else { 0 },
{
    if li < 0 || li >= ls.len() || p < 0 {
        None
    } else if p >= ls[li].text@.len() {
        if li + 1 >= ls.len() || trimmed(ls[li + 1].text@).len() == 0 {
            None
        } else {
            match label_lines(ls, li + 1, 0, depth, false) {
                Some((o, l, q)) => Some((seq![10u8] + o, l, q)),
                None => None,
            }
        }
    } else {
        let t = ls[li].text@;
        if escaped {
            match label_lines(ls, li, p + 1, depth, false) {
                Some((o, l, q)) => Some((seq![t[p]] + o, l, q)),
                None => None,
            }
        } else if t[p] == 92u8 && p + 1 < t.len() && is_punct(t[p + 1]) {
            label_lines(ls, li, p + 1, depth, true)
        } else if t[p] == 93u8 && depth == 0 {
            Some((Seq::empty(), li, p))
        } else {
            let d2 = if t[p] == 91u8 {
                if depth + 1 > usize::MAX { usize::MAX as int } else { depth + 1 }
            } else if t[p] == 93u8 {
                depth - 1
            } else {
                depth
            };
            match label_lines(ls, li, p + 1, d2, false) {
                Some((o, l, q)) => Some((seq![t[p]] + o, l, q)),
                None => None,
            }
        }
    }
}

pub fn parse_link_label_multiline(lines: &[Line], line_idx: usize, pos: usize) -> (r: Option<
    (Vec<u8>, usize, usize),
>)
    ensures
        r matches Some((_, l, _)) ==> line_idx <= l < lines@.len(),
        match label_lines(lines@, line_idx as int, pos as int, 0, false) {
            Some((o, l, q)) => r matches Some((b, rl, rq)) && b@ == o && rl == l && rq == q,
            None => r is None,
        },
{
    let mut out: Vec<u8> = Vec::new();
    let mut depth: usize = 0;
    let mut escaped = false;
    let mut li = line_idx;
    let mut p = pos;
    if li >= lines.len() {
        return None;
    }
    let ghost whole = label_lines(lines@, line_idx as int, pos as int, 0, false);
    loop
        invariant
            line_idx <= li < lines@.len(),
            whole == label_lines(lines@, line_idx as int, pos as int, 0, false),
            label_lines(lines@, li as int, p as int, depth as int, escaped) matches Some((o, l, q))
                ==> whole == Some((out@ + o, l, q)),
            label_lines(lines@, li as int, p as int, depth as int, escaped) is None ==> whole is None,
            escaped ==> p < lines@[li as int].text@.len(),
        decreases lines@.len() - li,
    {
        let text = lines[li].text.as_slice();
        while p < text.len()
            invariant
                line_idx <= li < lines@.len(),
                text@ == lines@[li as int].text@,
                whole == label_lines(lines@, line_idx as int, pos as int, 0, false),
                label_lines(lines@, li as int, p as int, depth as int, escaped) matches Some((o, l, q))
                    ==> whole == Some((out@ + o, l, q)),
                label_lines(lines@, li as int, p as int, depth as int, escaped) is None ==> whole is None,
                escaped ==> p < text@.len(),
            decreases text.len() - p,
        {
            let b = text[p];
            let ghost o0 = out@;
            let ghost d0 = depth as int;
            if escaped {
                out.push(b);
                proof {
                    if let Some((o, l, q)) = label_lines(lines@, li as int, p + 1, d0, false) {
                        assert(o0 + (seq![b] + o) =~= out@ + o);
                    }
                }
                escaped = false;
                p = p + 1;
                continue;
            }
            if b == 92u8 {
                if p + 1 < text.len() && ascii_punct(text[p + 1]) {
                    assert(label_lines(lines@, li as int, p as int, d0, false) == label_lines(
                        lines@,
                        li as int,
                        p + 1,
                        d0,
                        true,
                    ));
                    escaped = true;
                    p = p + 1;
                    continue;
                }
                out.push(92u8);
                proof {
                    if let Some((o, l, q)) = label_lines(lines@, li as int, p + 1, d0, false) {
                        assert(o0 + (seq![b] + o) =~= out@ + o);
                    }
                }
                p = p + 1;
                continue;
            }
            if b == 91u8 {
                depth = depth.saturating_add(1);
                out.push(b);
                proof {
                    if let Some((o, l, q)) = label_lines(lines@, li as int, p + 1, depth as int, false) {
                        assert(o0 + (seq![b] + o) =~= out@ + o);
                    }
                }
                p = p + 1;
                continue;
            }
            if b == 93u8 {
                if depth == 0 {
                    proof {
                        assert(out@ + Seq::<u8>::empty() =~= out@);
                    }
                    return Some((out, li, p));
                }
                depth = depth - 1;
                out.push(b);
                proof {
                    if let Some((o, l, q)) = label_lines(lines@, li as int, p + 1, depth as int, false) {
                        assert(o0 + (seq![b] + o) =~= out@ + o);
                    }
                }
                p = p + 1;
                continue;
            }
            out.push(b);
            proof {
                if let Some((o, l, q)) = label_lines(lines@, li as int, p + 1, d0, false) {
                    assert(o0 + (seq![b] + o) =~= out@ + o);
                }
            }
            p = p + 1;
        }
        let ghost o1 = out@;
        proof {
            assert(!escaped);
            assert(label_lines(lines@, li as int, p as int, depth as int, escaped) == (if li + 1
                >= lines@.len() || trimmed(lines@[li + 1].text@).len() == 0 {
                None
            } else {
                match label_lines(lines@, li + 1, 0, depth as int, false) {
                    Some((o, l, q)) => Some((seq![10u8] + o, l, q)),
                    None => None,
                }
            }));
        }
        li = li + 1;
        if li >= lines.len() {
            return None;
        }
        if is_blank(lines[li].text.as_slice()) {
            return None;
        }
        out.push(10u8);
        proof {
            if let Some((o, l, q)) = label_lines(lines@, li as int, 0, depth as int, false) {
                assert(o1 + (seq![10u8] + o) =~= out@ + o);
            }
        }
        p = 0;
    }
}

/// The first line from `i` on that ends at or after `x`.
pub open spec fn first_line_to(ls: Seq<Line>, i: int, x: usize) -> Option<int>
    decreases ls.len() - i,
{
    if i < 0 || i >= ls.len() {
        None
    } else if x <= ls[i].end {
        Some(i)
    } else {
        first_line_to(ls, i + 1, x)
    }
}

/// The first and last lines of a span: the first line that ends at or after its start and the
/// first that ends at or after its end, when both exist in that order.
pub open spec fn line_range_of(ls: Seq<Line>, span: Span) -> Option<(int, int)> {
    match first_line_to(ls, 0, span.end) {
        Some(b) => match first_line_to(ls, 0, span.start) {
            Some(a) => if a <= b {
                Some((a, b))
            } else {
                None
            },
            None => None,
        },
        None => None,
    }
}

proof fn lemma_first_line_skip(ls: Seq<Line>, i: int, x: usize)
    requires
        0 <= i <= ls.len(),
        forall|j: int| 0 <= j < i ==> ls[j].end < x,
    ensures
        first_line_to(ls, 0, x) == first_line_to(ls, i, x),
    decreases i,
{
    if i > 0 {
        lemma_first_line_skip(ls, i - 1, x);
    }
}

proof fn lemma_first_line_after(ls: Seq<Line>, i: int, x: usize)
    requires
        0 <= i,
    ensures
        first_line_to(ls, i, x) matches Some(a) ==> i <= a < ls.len() && x <= ls[a].end,
    decreases ls.len() - i,
{
    if i < ls.len() && !(x <= ls[i].end) {
        lemma_first_line_after(ls, i + 1, x);
    }
}

/// The indices of the first and last lines that a span covers.
pub fn block_line_range(lines: &[Line], span: Span) -> (r: Option<(usize, usize)>)
    ensures
        match line_range_of(lines@, span) {
            Some((a, b)) => 0 <= a <= b < lines@.len() && r == Some((a as usize, b as usize)),
            None => r is None,
        },
        r matches Some((a, b)) ==> a < lines@.len() && b < lines@.len(),
        match r {
            Some((a, b)) => a <= b && span.end <= lines@[b as int].end && (forall|j: int|
                0 <= j < b ==> lines@[j].end < span.end) && span.start <= lines@[a as int].end && (
            forall|j: int| 0 <= j < a ==> lines@[j].end < span.start),
            None => forall|b: int|
                0 <= b < lines@.len() && span.end <= lines@[b].end && (forall|j: int|
                    0 <= j < b ==> lines@[j].end < span.end) ==> forall|j: int|
                    0 <= j <= b ==> lines@[j].end < span.start,
        },
{
    let mut start_idx: Option<usize> = None;
    let mut idx: usize = 0;
    while idx < lines.len()
        invariant
            idx <= lines@.len(),
            start_idx matches Some(a) ==> a < idx && span.start <= lines@[a as int].end && (forall|
                j: int,
            |
                0 <= j < a ==> lines@[j].end < span.start),
            start_idx is None ==> forall|j: int| 0 <= j < idx ==> lines@[j].end < span.start,
            forall|j: int| 0 <= j < idx ==> lines@[j].end < span.end,
        decreases lines.len() - idx,
    {
        let line = &lines[idx];
        proof {
            lemma_first_line_skip(lines@, idx as int, span.end);
            if start_idx is None {
                lemma_first_line_skip(lines@, idx as int, span.start);
            }
        }
        if start_idx.is_none() && span.start <= line.end {
            start_idx = Some(idx);
        }
        proof {
            if let Some(a) = start_idx {
                lemma_first_line_skip(lines@, a as int, span.start);
            }
        }
        if span.end <= line.end {
            proof {
                assert(first_line_to(lines@, idx as int, span.end) == Some(idx as int));
                if start_idx is None {
                    assert forall|j: int| 0 <= j < idx + 1 implies lines@[j].end < span.start by {
                    }
                    lemma_first_line_skip(lines@, idx + 1, span.start);
                    lemma_first_line_after(lines@, idx + 1, span.start);
                } else {
                    let a = start_idx->0;
                    assert(first_line_to(lines@, a as int, span.start) == Some(a as int));
                }
            }
            return match start_idx {
                Some(a) => Some((a, idx)),
                None => None,
            };
        }
        idx = idx + 1;
    }
    proof {
        lemma_first_line_skip(lines@, idx as int, span.end);
    }
    None
}

/// A blank line or a target line.
pub open spec fn blank_or_target(t: Seq<u8>) -> bool {
    trimmed(t).len() == 0 || (trimmed(t).len() >= 2 && trimmed(t)[0] == 123u8 && trimmed(t).last()
        == 125u8)
}

/// Whether block `k` shows a blank line before it: its lines cannot be found, or a blank or
/// target line lies between the last line of block `k - 1` and its first line.
pub open spec fn blank_before_block(ls: Seq<Line>, bs: Seq<Block>, k: int) -> bool {
    match line_range_of(ls, bs[k].span) {
        None => true,
        Some((s, _)) => k > 0 && match line_range_of(ls, bs[k - 1].span) {
            Some((_, pe)) => exists|m: int| pe < m < s && blank_or_target(#[trigger] ls[m].text@),
            None => false,
        },
    }
}

/// Whether a blank line (or a target line) lies between two blocks of a list item.
pub fn item_has_blank_between_blocks(lines: &[Line], blocks: &[Block]) -> (r: bool)
    ensures
        r == (blocks@.len() >= 2 && exists|k: int|
            0 <= k < blocks@.len() && blank_before_block(lines@, blocks@, k)),
{
    if blocks.len() < 2 {
        return false;
    }
    let mut prev_end: Option<usize> = None;
    let mut k: usize = 0;
    while k < blocks.len()
        invariant
            k <= blocks@.len(),
            blocks@.len() >= 2,
            prev_end matches Some(e) ==> e < lines@.len(),
            k == 0 ==> prev_end is None,
            k > 0 ==> (line_range_of(lines@, blocks@[k - 1].span) matches Some((_, pe)) && 0 <= pe
                < lines@.len() && prev_end == Some(pe as usize)),
            lines@.len() == lines.len(),
            forall|j: int| 0 <= j < k ==> !blank_before_block(lines@, blocks@, j),
        decreases blocks.len() - k,
    {
        let range = block_line_range(lines, blocks[k].span);
        let (start_idx, end_idx) = match range {
            Some(v) => v,
            None => {
                assert(blank_before_block(lines@, blocks@, k as int));
                return true;
            },
        };
        proof {
            let lr = line_range_of(lines@, blocks@[k as int].span);
            assert(lr is Some);
            let (a, b) = lr->0;
            assert(range == Some((a as usize, b as usize)));
            assert(0 <= a <= b < lines@.len());
            assert(lines@.len() == lines.len());
            assert(start_idx == a as usize);
            assert(a == start_idx);
            assert(b == end_idx);
        }
        if let Some(pe) = prev_end {
            if start_idx > pe && start_idx - pe > 1 {
                let mut m = pe + 1;
                while m < start_idx
                    invariant
                        pe + 1 <= m <= start_idx < lines@.len(),
                        forall|q: int| pe < q < m ==> !blank_or_target(#[trigger] lines@[q].text@),
                        k > 0,
                        k < blocks@.len(),
                        line_range_of(lines@, blocks@[k as int].span) == Some((start_idx as int, end_idx as int)),
                        line_range_of(lines@, blocks@[k - 1].span) matches Some((_, p)) && p == pe,
                    decreases start_idx - m,
                {
                    let t = lines[m].text.as_slice();
                    if is_blank(t) || is_target_line_text(t) {
                        assert(blank_or_target(lines@[m as int].text@));
                        assert(blank_before_block(lines@, blocks@, k as int));
                        return true;
                    }
                    m = m + 1;
                }
            }
        }
        proof {
            if k > 0 {
                let pe = prev_end->0;
                assert forall|m: int| pe < m < start_idx implies !blank_or_target(
                    #[trigger] lines@[m].text@,
                ) by {
                }
            }
            assert(!blank_before_block(lines@, blocks@, k as int));
        }
        prev_end = Some(end_idx);
        k = k + 1;
    }
    false
}

/// The text of an indented code line that follows `pad` columns of whitespace and then the
/// bytes of `text` from `content_start`: tabs expand to the next multiple of four columns,
/// counted from where the whitespace starts.
fn first_line_code(text: &[u8], pad: usize, content_start: usize) -> (r: Vec<u8>)
    requires
        content_start <= text@.len(),
    ensures
        r@ == indent_removed(
            Seq::new((pad / 4) as nat, |_k: int| 9u8) + Seq::new((pad % 4) as nat, |_k: int| 32u8)
                + text@.subrange(content_start as int, text@.len() as int),
            4,
        ),
{
    let mut t: Vec<u8> = Vec::new();
    let mut k: usize = 0;
    while k < pad / 4
        invariant
            k <= pad / 4,
            t@ =~= Seq::new(k as nat, |_k: int| 9u8),
        decreases pad / 4 - k,
    {
        t.push(9u8);
        k = k + 1;
    }
    let mut k2: usize = 0;
    while k2 < pad % 4
        invariant
            k2 <= pad % 4,
            t@ =~= Seq::new((pad / 4) as nat, |_k: int| 9u8) + Seq::new(k2 as nat, |_k: int| 32u8),
        decreases pad % 4 - k2,
    {
        t.push(32u8);
        k2 = k2 + 1;
    }
    push_all(&mut t, copy_range(text, content_start, text.len()).as_slice());
    remove_indent_columns(t.as_slice(), 4)
}

/// A block followed by blocks.
fn prepend_block(first: Block, rest: Vec<Block>, Ghost(len): Ghost<nat>) -> (r: Vec<Block>)
    requires
        block_in(first, len),
        blocks_in(rest@, len),
    ensures
        blocks_in(r@, len),
        r@ == seq![first] + rest@,
{
    let mut out = rest;
    let ghost before = out@;
    out.insert(0, first);
    proof {
        assert forall|k: int| 0 <= k < out@.len() implies block_in(#[trigger] out@[k], len) by {
            if k > 0 {
                assert(out@[k] == before[k - 1]);
            }
        }
        assert(out@ =~= seq![first] + before);
    }
    out
}

/// The texts of the lines, with a newline after each line that ends in one and is not the last.
pub open spec fn joined(ls: Seq<Line>) -> Seq<u8>
    decreases ls.len(),
{
    if ls.len() == 0 {
        Seq::empty()
    } else {
        ls[0].text@ + (if ls[0].has_newline && ls.len() > 1 {
            seq![10u8]
        } else {
            Seq::<u8>::empty()
        }) + joined(ls.drop_first())
    }
}

/// The end of the spaces and tabs that start at `i`.
pub open spec fn blank_run(s: Seq<u8>, i: int) -> int
    decreases s.len() - i,
{
    if 0 <= i < s.len() && (s[i] == 32u8 || s[i] == 9u8) {
        blank_run(s, i + 1)
    } else {
        i
    }
}

/// The start of the spaces and tabs that end at `e`, no lower than `lo`.
pub open spec fn blank_back(s: Seq<u8>, lo: int, e: int) -> int
    decreases e - lo,
{
    if lo < e && e <= s.len() && (s[e - 1] == 32u8 || s[e - 1] == 9u8) {
        blank_back(s, lo, e - 1)
    } else {
        e
    }
}

/// Flattens lines into one buffer joined by newlines, with the source offset of every byte.
fn build_inline_buffer(lines: &[Line], Ghost(len): Ghost<nat>) -> (r: (Vec<u8>, Vec<usize>))
    requires
        lines_in(lines@, len),
        len < usize::MAX,
    ensures
        r.0@.len() == r.1@.len(),
        offsets_ok(r.1@, len),
        r.0@ == joined(lines@),
{
    let mut buffer: Vec<u8> = Vec::new();
    let mut offsets: Vec<usize> = Vec::new();
    let mut idx: usize = 0;
    let ghost mut bound: int = 0;
    proof {
        assert(lines@.subrange(0, lines@.len() as int) =~= lines@);
    }
    while idx < lines.len()
        invariant
            idx <= lines@.len(),
            buffer@ + joined(lines@.subrange(idx as int, lines@.len() as int)) == joined(lines@),
            lines_in(lines@, len),
            len < usize::MAX,
            buffer@.len() == offsets@.len(),
            offsets_ok(offsets@, len),
            forall|k: int| 0 <= k < offsets@.len() ==> offsets@[k] < bound,
            idx < lines@.len() ==> bound <= lines@[idx as int].start,
        decreases lines.len() - idx,
    {
        let line = &lines[idx];
        assert(line_in(lines@[idx as int], len));
        let n = line.text.len();
        let mut b: usize = 0;
        let ghost before = buffer@;
        proof {
            let t = lines@.subrange(idx as int, lines@.len() as int);
            assert(t[0] == lines@[idx as int]);
            assert(t.drop_first() =~= lines@.subrange(idx + 1, lines@.len() as int));
        }
        while b < n
            invariant
                b <= n,
                n == line.text@.len(),
                line_in(*line, len),
                len < usize::MAX,
                buffer@ == before + line.text@.subrange(0, b as int),
                buffer@.len() == offsets@.len(),
                offsets_ok(offsets@, len),
                forall|k: int| 0 <= k < offsets@.len() ==> offsets@[k] < line.start + b,
            decreases n - b,
        {
            buffer.push(line.text[b]);
            proof {
                assert(line.text@.subrange(0, b + 1) =~= line.text@.subrange(0, b as int).push(
                    line.text@[b as int],
                ));
            }
            let ghost old_off = offsets@;
            offsets.push(line.start + b);
            proof {
                assert forall|i: int, j: int| 0 <= i < j < offsets@.len() implies #[trigger] offsets@[i]
                    < #[trigger] offsets@[j] by {
                    if j < old_off.len() {
                        assert(offsets@[i] == old_off[i] && offsets@[j] == old_off[j]);
                    } else {
                        assert(offsets@[i] == old_off[i]);
                    }
                }
            }
            b = b + 1;
        }
        proof {
            bound = line.start + n;
            assert(line.text@.subrange(0, n as int) =~= line.text@);
        }
        if line.has_newline && idx + 1 < lines.len() {
            buffer.push(10u8);
            let ghost old_off = offsets@;
            offsets.push(line.end);
            proof {
                assert forall|i: int, j: int| 0 <= i < j < offsets@.len() implies #[trigger] offsets@[i]
                    < #[trigger] offsets@[j] by {
                    if j < old_off.len() {
                        assert(offsets@[i] == old_off[i] && offsets@[j] == old_off[j]);
                    } else {
                        assert(offsets@[i] == old_off[i]);
                    }
                }
                bound = line.end + 1;
            }
        }
        proof {
            if idx + 1 < lines@.len() {
                assert(lines@[idx as int].end < lines@[idx + 1].start);
            }
            let t = lines@.subrange(idx as int, lines@.len() as int);
            assert(joined(t) == t[0].text@ + (if t[0].has_newline && t.len() > 1 {
                seq![10u8]
            } else {
                Seq::<u8>::empty()
            }) + joined(t.drop_first()));
            assert(buffer@ == before + t[0].text@ + (if t[0].has_newline && t.len() > 1 {
                seq![10u8]
            } else {
                Seq::<u8>::empty()
            }));
        }
        idx = idx + 1;
    }
    proof {
        assert(joined(lines@.subrange(idx as int, lines@.len() as int)) =~= Seq::<u8>::empty());
        assert(buffer@ + Seq::<u8>::empty() =~= buffer@);
    }
    (buffer, offsets)
}

/// The inline buffer of a setext heading, with spaces and tabs trimmed from both ends.
fn build_heading_buffer(lines: &[Line], Ghost(len): Ghost<nat>) -> (r: (Vec<u8>, Vec<usize>))
    requires
        lines_in(lines@, len),
        len < usize::MAX,
    ensures
        r.0@.len() == r.1@.len(),
        offsets_ok(r.1@, len),
        r.0@ == joined(lines@).subrange(
            blank_run(joined(lines@), 0),
            blank_back(joined(lines@), blank_run(joined(lines@), 0), joined(lines@).len() as int),
        ),
{
    let (buffer, offsets) = build_inline_buffer(lines, Ghost(len));
    let n = buffer.len();
    let mut start: usize = 0;
    while start < n && (buffer[start] == 32u8 || buffer[start] == 9u8)
        invariant
            start <= n,
            n == buffer@.len(),
            blank_run(buffer@, start as int) == blank_run(buffer@, 0),
        decreases n - start,
    {
        start = start + 1;
    }
    assert(blank_run(buffer@, start as int) == start);
    let mut end = n;
    while end > start && (buffer[end - 1] == 32u8 || buffer[end - 1] == 9u8)
        invariant
            start <= end <= n,
            n == buffer@.len(),
            blank_back(buffer@, start as int, end as int) == blank_back(buffer@, start as int, n as int),
        decreases end - start,
    {
        end = end - 1;
    }
    assert(blank_back(buffer@, start as int, end as int) == end);
    if start >= end {
        assert(buffer@.subrange(start as int, end as int) =~= Seq::<u8>::empty());
        return (Vec::new(), Vec::new());
    }
    let b = copy_range(buffer.as_slice(), start, end);
    let o = copy_range_usize(offsets.as_slice(), start, end);
    proof {
        let s = offsets@.subrange(start as int, end as int);
        assert forall|i: int, j: int| 0 <= i < j < s.len() implies #[trigger] s[i] < #[trigger] s[j] by {
            assert(s[i] == offsets@[start + i] && s[j] == offsets@[start + j]);
        }
        assert forall|k: int| 0 <= k < s.len() implies #[trigger] s[k] < len by {
            assert(s[k] == offsets@[start + k]);
        }
    }
    (b, o)
}

fn copy_range_usize(s: &[usize], start: usize, end: usize) -> (r: Vec<usize>)
    requires
        start <= end <= s@.len(),
    ensures
        r@ == s@.subrange(start as int, end as int),
{
    let mut out: Vec<usize> = Vec::new();
    let mut i = start;
    while i < end
        invariant
            start <= i <= end <= s@.len(),
            out@ == s@.subrange(start as int, i as int),
        decreases end - i,
    {
        out.push(s[i]);
        i = i + 1;
    }
    out
}

} // verus!
