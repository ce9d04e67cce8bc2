use vstd::prelude::*;
use crate::ast::{AttrList, Block, BlockKind, InlineSeq, Table, TableAlign, block_in, cells_in, inlines_in};
use crate::parser::{Line, Parser, line_in, lemma_line_span, offsets_ok, block_within};
use crate::scan::count_run;
use crate::span::Span;
use crate::text::{contains_byte, is_blank, trim_range};

verus! {

/// Every cell range lies in a text of `n` bytes.
pub open spec fn cells_within(cells: Seq<(usize, usize)>, n: nat) -> bool {
    forall|k: int| 0 <= k < cells.len() ==> (#[trigger] cells[k]).0 <= cells[k].1 && cells[k].1 <= n
}

/// The byte ranges of the cells of a table row, each trimmed of whitespace: the row is
/// trimmed, a leading and an unescaped trailing `|` dropped, and the rest split at each `|`
/// that is neither escaped by a backslash nor inside a code span.
pub fn split_cells(text: &[u8]) -> (r: Vec<(usize, usize)>)
    ensures
        r@.len() >= 1,
        cells_within(r@, text@.len() as nat),
{
    let (s, e) = trim_range(text, 0, text.len());
    let mut p = s;
    if p < e && text[p] == 124u8 {
        p = p + 1;
    }
    let mut q = e;
    if q > p && text[q - 1] == 124u8 && !(q - 1 > p && text[q - 2] == 92u8) {
        q = q - 1;
    }
    let mut cells: Vec<(usize, usize)> = Vec::new();
    let mut cell_start = p;
    let mut i = p;
    while i < q
        invariant
            p <= cell_start <= q,
            cell_start <= i,
            p <= i,
            q <= text@.len(),
            cells_within(cells@, text@.len() as nat),
        decreases q - i,
    {
        let b = text[i];
        if b == 92u8 && i + 1 < q {
            i = i + 2;
            continue;
        }
        if b == 96u8 {
            let run = count_run(text, i, q, 96u8);
            // A code span: the next run of as many backticks closes it.
            let mut j = i + run;
            let mut close: Option<usize> = None;
            while j < q
                invariant
                    i + run <= j,
                    j <= q,
                    q <= text@.len(),
                    run >= 1,
                    close matches Some(c) ==> i < c <= q,
                decreases q - j,
            {
                if text[j] == 96u8 {
                    let r2 = count_run(text, j, q, 96u8);
                    if r2 == run {
                        close = Some(j + r2);
                        break;
                    }
                    j = j + r2;
                } else {
                    j = j + 1;
                }
            }
            i = match close {
                Some(c) => c,
                None => i + run,
            };
            if i > q {
                i = q;
            }
            continue;
        }
        if b == 124u8 {
            let (a, z) = trim_range(text, cell_start, i);
            cells.push((a, z));
            cell_start = i + 1;
        }
        i = i + 1;
    }
    let last_end = if cell_start <= q { q } else { cell_start };
    let (a, z) = trim_range(text, cell_start, last_end);
    cells.push((a, z));
    cells
}

/// The alignment that a delimiter cell sets: dashes, with a colon on the left for left, on
/// the right for right, on both sides for center; `None` when the cell is not one.
pub open spec fn cell_align(c: Seq<u8>) -> Option<TableAlign> {
    let left = c.len() > 0 && c[0] == 58u8;
    let right = c.len() >= 2 && c[c.len() - 1] == 58u8;
    let from: int = if left { 1 } else { 0 };
    let to: int = if right { c.len() - 1 } else { c.len() as int };
    if c.len() == 0 || from >= to || exists|k: int| from <= k < to && c[k] != 45u8 {
        None
    } else {
        Some(
            if left && right {
                TableAlign::Center
            } else if left {
                TableAlign::Left
            } else if right {
                TableAlign::Right
            } else {
                TableAlign::Unaligned
            },
        )
    }
}

/// The alignment that a cell of a delimiter row sets: `:?-+:?`, with a colon on the left for
/// left, on the right for right, on both sides for center; `None` when the cell is not one.
pub fn delimiter_cell(text: &[u8], a: usize, b: usize) -> (r: Option<TableAlign>)
    requires
        a <= b <= text@.len(),
    ensures
        r == cell_align(text@.subrange(a as int, b as int)),
{
    let ghost c = text@.subrange(a as int, b as int);
    if a >= b {
        return None;
    }
    let left = text[a] == 58u8;
    let right = b - a >= 2 && text[b - 1] == 58u8;
    let from = if left { a + 1 } else { a };
    let to = if right { b - 1 } else { b };
    if from >= to {
        return None;
    }
    let mut k = from;
    while k < to
        invariant
            from <= k <= to,
            to <= text@.len(),
            a <= from,
            to <= b,
            a < b <= text@.len(),
            c == text@.subrange(a as int, b as int),
            from - a == (if c.len() > 0 && c[0] == 58u8 { 1int } else { 0int }),
            b - to == (if c.len() >= 2 && c[c.len() - 1] == 58u8 { 1int } else { 0int }),
            forall|q: int| from - a <= q < k - a ==> c[q] == 45u8,
        decreases to - k,
    {
        if text[k] != 45u8 {
            assert(c[k - a] != 45u8);
            return None;
        }
        k = k + 1;
    }
    Some(
        if left && right {
            TableAlign::Center
        } else if left {
            TableAlign::Left
        } else if right {
            TableAlign::Right
        } else {
            TableAlign::Unaligned
        },
    )
}

/// The bytes of `s[k..b]`, less each backslash that stands right before a `|` within it.
pub open spec fn unescaped_pipes(s: Seq<u8>, k: int, b: int) -> Seq<u8>
    decreases b - k,
{
    if k >= b || k < 0 {
        Seq::empty()
    } else if s[k] == 92u8 && k + 1 < b && s[k + 1] == 124u8 {
        unescaped_pipes(s, k + 1, b)
    } else {
        seq![s[k]] + unescaped_pipes(s, k + 1, b)
    }
}

/// The bytes of a cell with their source offsets; a backslash before `|` is dropped.
fn cell_buffer(text: &[u8], base: usize, a: usize, b: usize, Ghost(len): Ghost<nat>) -> (r: (Vec<u8>, Vec<usize>))
    requires
        a <= b <= text@.len(),
        base + text@.len() <= len,
        len < usize::MAX,
    ensures
        r.0@.len() == r.1@.len(),
        offsets_ok(r.1@, len),
        r.0@ == unescaped_pipes(text@, a as int, b as int),
{
    let mut buf: Vec<u8> = Vec::new();
    let mut offs: Vec<usize> = Vec::new();
    let mut k = a;
    while k < b
        invariant
            a <= k <= b,
            b <= text@.len(),
            base + text@.len() <= len,
            len < usize::MAX,
            buf@ + unescaped_pipes(text@, k as int, b as int) == unescaped_pipes(text@, a as int, b as int),
            buf@.len() == offs@.len(),
            forall|j: int| 0 <= j < offs@.len() ==> #[trigger] offs@[j] < base + k,
            offsets_ok(offs@, len),
        decreases b - k,
    {
        if text[k] == 92u8 && k + 1 < b && text[k + 1] == 124u8 {
            k = k + 1;
            continue;
        }
        let ghost before = offs@;
        let ghost b0 = buf@;
        buf.push(text[k]);
        proof {
            assert(b0 + (seq![text@[k as int]] + unescaped_pipes(text@, k + 1, b as int)) =~= buf@
                + unescaped_pipes(text@, k + 1, b as int));
        }
        offs.push(base + k);
        proof {
            assert forall|i: int, j: int| 0 <= i < j < offs@.len() implies #[trigger] offs@[i] < #[trigger] offs@[j] by {
                if j == offs@.len() - 1 {
                    assert(offs@[i] == before[i]);
                }
            }
        }
        k = k + 1;
    }
    proof {
        assert(buf@ + Seq::<u8>::empty() =~= buf@);
    }
    (buf, offs)
}

impl Parser {
    /// The inline content of the cell `a..b` of a line.
    fn cell_inlines(&mut self, line: &Line, a: usize, b: usize) -> (r: InlineSeq)
        requires
            line_in(*line, old(self).src_len as nat),
            old(self).src_len < usize::MAX,
            a <= b <= line.text@.len(),
        ensures
            final(self).keeps(*old(self)),
            inlines_in(r@, old(self).src_len as nat),
    {
        let (buf, offs) = cell_buffer(line.text.as_slice(), line.start, a, b, Ghost(self.src_len as nat));
        self.parse_inline_buffer(buf.as_slice(), offs.as_slice())
    }

    /// The inline contents of a row's cells, as many as the header has: missing cells are
    /// empty, cells past them are dropped.
    fn row_cells(&mut self, line: &Line, count: usize) -> (r: Vec<InlineSeq>)
        requires
            line_in(*line, old(self).src_len as nat),
            old(self).src_len < usize::MAX,
        ensures
            final(self).keeps(*old(self)),
            r@.len() == count,
            cells_in(r@, old(self).src_len as nat),
    {
        let cells = split_cells(line.text.as_slice());
        let mut row: Vec<InlineSeq> = Vec::new();
        let mut c: usize = 0;
        while c < count
            invariant
                c <= count,
                row@.len() == c,
                self.keeps(*old(self)),
                line_in(*line, self.src_len as nat),
                self.src_len < usize::MAX,
                cells_within(cells@, line.text@.len() as nat),
                cells_in(row@, self.src_len as nat),
            decreases count - c,
        {
            let cell = if c < cells.len() {
                let (a, b) = cells[c];
                self.cell_inlines(line, a, b)
            } else {
                Vec::new()
            };
            let ghost before = row@;
            row.push(cell);
            proof {
                assert forall|k: int| 0 <= k < row@.len() implies inlines_in((#[trigger] row@[k])@, self.src_len as nat) by {
                    if k < before.len() {
                        assert(row@[k] == before[k]);
                    }
                }
            }
            c = c + 1;
        }
        row
    }

    /// A table: a header row, a delimiter row with as many cells that sets each column's
    /// alignment (both rows holding a `|`), then body rows up to a blank line or another block.
    pub fn parse_table(&mut self, lines: &[Line], start: usize) -> (r: Option<(Block, usize)>)
        requires
            start < lines@.len(),
            old(self).ready(lines@),
        ensures
            r matches Some((b, _)) ==> b.kind is Table,
            final(self).keeps(*old(self)),
            r matches Some((b, next)) ==> start < next <= lines@.len() && block_in(b, old(self).src_len as nat),
            r matches Some((b, next)) ==> block_within(b, lines@, start as int, next as int),
    {
        let ghost len = self.src_len as nat;
        if lines.len() - start < 2 {
            return None;
        }
        let header = &lines[start];
        let delim = &lines[start + 1];
        assert(line_in(lines@[start as int], len));
        assert(line_in(lines@[start + 1], len));
        if !contains_byte(header.text.as_slice(), 0, header.text.len(), 124u8)
            || !contains_byte(delim.text.as_slice(), 0, delim.text.len(), 124u8) {
            return None;
        }
        let hcells = split_cells(header.text.as_slice());
        let dcells = split_cells(delim.text.as_slice());
        if hcells.len() != dcells.len() {
            return None;
        }
        let mut aligns: Vec<TableAlign> = Vec::new();
        let mut c: usize = 0;
        while c < dcells.len()
            invariant
                c <= dcells@.len(),
                cells_within(dcells@, delim.text@.len() as nat),
            decreases dcells.len() - c,
        {
            let (a, b) = dcells[c];
            match delimiter_cell(delim.text.as_slice(), a, b) {
                Some(al) => aligns.push(al),
                None => return None,
            }
            c = c + 1;
        }
        let count = hcells.len();
        let headers = self.row_cells(header, count);
        let mut rows: Vec<Vec<InlineSeq>> = Vec::new();
        let mut i = start + 2;
        while i < lines.len()
            invariant
                start + 2 <= i <= lines@.len(),
                self.ready(lines@),
                self.keeps(*old(self)),
                len == self.src_len as nat,
                forall|k: int| 0 <= k < rows@.len() ==> cells_in((#[trigger] rows@[k])@, len),
            decreases lines.len() - i,
        {
            let line = &lines[i];
            assert(line_in(lines@[i as int], len));
            if is_blank(line.text.as_slice()) || self.is_block_start(line) {
                break;
            }
            let row = self.row_cells(line, count);
            let ghost before = rows@;
            rows.push(row);
            proof {
                assert forall|k: int| 0 <= k < rows@.len() implies cells_in((#[trigger] rows@[k])@, len) by {
                    if k < before.len() {
                        assert(rows@[k] == before[k]);
                    }
                }
            }
            i = i + 1;
        }
        let span = Span { start: header.start, end: lines[i - 1].end };
        proof {
            lemma_line_span(lines@, start as int, i - 1, len);
        }
        Some(
            (
                Block {
                    span,
                    attrs: AttrList::empty(),
                    kind: BlockKind::Table(Table { headers, aligns, rows }),
                },
                i,
            ),
        )
    }
}

} // verus!
