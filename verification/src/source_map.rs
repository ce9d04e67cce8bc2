use vstd::prelude::*;
use crate::span::Span;
use vstd::string::StringSliceAdditionalSpecFns;

verus! {

/// A zero-based line and byte column.
#[derive(Clone, Copy, Debug, PartialEq, Eq, Structural)]
pub struct Position {
    pub line: usize,
    pub character: usize,
}

/// A pair of positions.
#[derive(Clone, Copy, Debug, PartialEq, Eq, Structural)]
pub struct Range {
    pub start: Position,
    pub end: Position,
}

/// Maps byte offsets to line/column positions.
#[derive(Debug)]
pub struct SourceMap {
    source_len: usize,
    line_starts: Vec<usize>,
}

/// Offsets just after each newline, preceded by zero: the byte offsets at which lines start.
pub open spec fn line_starts_of(bytes: Seq<u8>) -> Seq<usize>
    decreases bytes.len(),
{
    if bytes.len() == 0 {
        seq![0usize]
    } else if bytes.last() == 10u8 {
        line_starts_of(bytes.drop_last()).push(bytes.len() as usize)
    } else {
        line_starts_of(bytes.drop_last())
    }
}

/// The number of line starts that are at most `offset`.
pub open spec fn count_le(starts: Seq<usize>, offset: int) -> nat
    decreases starts.len(),
{
    if starts.len() == 0 {
        0
    } else if starts.last() <= offset {
        count_le(starts.drop_last(), offset) + 1
    } else {
        count_le(starts.drop_last(), offset)
    }
}

/// The number of line feeds among bytes.
pub open spec fn newlines(s: Seq<u8>) -> nat
    decreases s.len(),
{
    if s.len() == 0 {
        0
    } else {
        newlines(s.drop_last()) + if s.last() == 10u8 { 1nat } else { 0nat }
    }
}

/// Every line start of bytes lies within them, and the first is zero.
proof fn lemma_starts_within(s: Seq<u8>)
    requires
        s.len() <= usize::MAX,
    ensures
        line_starts_of(s).len() >= 1,
        line_starts_of(s)[0] == 0,
        forall|i: int| 0 <= i < line_starts_of(s).len() ==> #[trigger] line_starts_of(s)[i] <= s.len(),
    decreases s.len(),
{
    if s.len() > 0 {
        lemma_starts_within(s.drop_last());
    }
}

/// Past every start, counting at two offsets gives the same.
proof fn lemma_count_le_past(starts: Seq<usize>, x: int, y: int)
    requires
        forall|i: int| 0 <= i < starts.len() ==> starts[i] <= x,
        x <= y,
    ensures
        count_le(starts, x) == count_le(starts, y),
        count_le(starts, x) == starts.len(),
    decreases starts.len(),
{
    if starts.len() > 0 {
        lemma_count_le_past(starts.drop_last(), x, y);
    }
}

/// The line starts at or before an offset are one more than the line feeds before it.
proof fn lemma_count_newlines(s: Seq<u8>, off: int)
    requires
        0 <= off <= s.len(),
        s.len() <= usize::MAX,
    ensures
        count_le(line_starts_of(s), off) == newlines(s.subrange(0, off)) + 1,
    decreases s.len(),
{
    let st = line_starts_of(s);
    if s.len() == 0 {
        assert(s.subrange(0, off) =~= Seq::<u8>::empty());
        assert(st == seq![0usize]);
        assert(st.drop_last() =~= Seq::<usize>::empty());
        assert(count_le(st.drop_last(), off) == 0);
        assert(count_le(st, off) == 1);
        assert(newlines(Seq::<u8>::empty()) == 0);
    } else {
        let sp = s.drop_last();
        let n = s.len() as int;
        lemma_starts_within(sp);
        if off < n {
            lemma_count_newlines(sp, off);
            assert(sp.subrange(0, off) =~= s.subrange(0, off));
            if s.last() == 10u8 {
                assert(st == line_starts_of(sp).push(n as usize));
                assert(st.drop_last() =~= line_starts_of(sp));
                assert(st.last() == n);
                assert(count_le(st, off) == count_le(line_starts_of(sp), off));
            } else {
                assert(st == line_starts_of(sp));
            }
        } else {
            lemma_count_newlines(sp, n - 1);
            assert(sp.subrange(0, n - 1) =~= sp);
            assert(s.subrange(0, off) =~= s);
            assert(s.drop_last() == sp);
            lemma_count_le_past(line_starts_of(sp), n - 1, off);
            assert(newlines(s) == newlines(sp) + if s.last() == 10u8 { 1nat } else { 0nat });
            if s.last() == 10u8 {
                assert(st == line_starts_of(sp).push(n as usize));
                assert(st.drop_last() =~= line_starts_of(sp));
                assert(count_le(st, off) == count_le(line_starts_of(sp), off) + 1);
            } else {
                assert(st == line_starts_of(sp));
            }
        }
    }
}

/// Strictly increasing, starting at zero, bounded by `len`.
pub open spec fn starts_ok(starts: Seq<usize>, len: nat) -> bool {
    &&& starts.len() >= 1
    &&& starts[0] == 0
    &&& forall|i: int, j: int| 0 <= i < j < starts.len() ==> starts[i] < starts[j]
    &&& forall|i: int| 0 <= i < starts.len() ==> starts[i] <= len
}

impl Clone for SourceMap {
    /// A copy with the same source length and line starts.
    fn clone(&self) -> (r: SourceMap)
        ensures
            r.spec_len() == self.spec_len(),
            r.spec_starts() == self.spec_starts(),
    {
        proof {
            use_type_invariant(self);
        }
        let mut starts: Vec<usize> = Vec::new();
        let mut i: usize = 0;
        while i < self.line_starts.len()
            invariant
                i <= self.line_starts@.len(),
                starts@ == self.line_starts@.take(i as int),
            decreases self.line_starts.len() - i,
        {
            starts.push(self.line_starts[i]);
            proof {
                assert(self.line_starts@.take(i + 1) == self.line_starts@.take(i as int).push(self.line_starts@[i as int]));
            }
            i = i + 1;
        }
        proof {
            assert(self.line_starts@.take(self.line_starts@.len() as int) == self.line_starts@);
        }
        SourceMap { source_len: self.source_len, line_starts: starts }
    }
}

impl SourceMap {
    pub closed spec fn spec_len(self) -> nat {
        self.source_len as nat
    }

    pub closed spec fn spec_starts(self) -> Seq<usize> {
        self.line_starts@
    }

    /// The line starts are strictly increasing from zero and lie in the source.
    #[verifier::type_invariant]
    spec fn starts_valid(self) -> bool {
        starts_ok(self.line_starts@, self.source_len as nat)
    }

    /// The position of `offset` (clamped to the source length): the line is the index of the
    /// last line start at or before it, the column the distance from that start.
    pub open spec fn spec_position(self, offset: usize) -> Position {
        let off = if offset < self.spec_len() { offset as int } else { self.spec_len() as int };
        let line = count_le(self.spec_starts(), off) - 1;
        Position { line: line as usize, character: (off - self.spec_starts()[line]) as usize }
    }

    pub fn new(source: &str) -> (map: SourceMap)
        ensures
            map.spec_len() == source.spec_bytes().len(),
            map.spec_starts() == line_starts_of(source.spec_bytes()),
    {
        let bytes = source.as_bytes();
        let mut line_starts: Vec<usize> = Vec::new();
        line_starts.push(0);
        let mut idx: usize = 0;
        while idx < bytes.len()
            invariant
                0 <= idx <= bytes.len(),
                line_starts@ == line_starts_of(bytes@.take(idx as int)),
                starts_ok(line_starts@, idx as nat),
            decreases bytes.len() - idx,
        {
            assert(bytes@.take(idx + 1).drop_last() == bytes@.take(idx as int));
            if bytes[idx] == 10u8 {
                line_starts.push(idx + 1);
            }
            idx = idx + 1;
        }
        assert(bytes@.take(bytes@.len() as int) == bytes@);
        SourceMap { source_len: bytes.len(), line_starts }
    }

    pub fn line_count(&self) -> (n: usize)
        ensures
            n == self.spec_starts().len(),
    {
        self.line_starts.len()
    }

    pub fn position(&self, offset: usize) -> (p: Position)
        ensures
            p == self.spec_position(offset),
            p.line < self.spec_starts().len(),
    {
        proof {
            use_type_invariant(self);
        }
        let off = if offset < self.source_len { offset } else { self.source_len };
        // Binary search for the number of starts that are <= off.
        let mut lo: usize = 0;
        let mut hi: usize = self.line_starts.len();
        while lo < hi
            invariant
                0 <= lo <= hi <= self.line_starts@.len(),
                starts_ok(self.line_starts@, self.source_len as nat),
                forall|i: int| 0 <= i < lo ==> self.line_starts@[i] <= off,
                forall|i: int| hi <= i < self.line_starts@.len() ==> self.line_starts@[i] > off,
            decreases hi - lo,
        {
            let mid = lo + (hi - lo) / 2;
            if self.line_starts[mid] <= off {
                lo = mid + 1;
            } else {
                hi = mid;
            }
        }
        if lo == 0 {
            return Position { line: 0, character: off };
        }
        proof {
            lemma_count_le_split(self.line_starts@, off as int, lo as int);
        }
        let line = lo - 1;
        let line_start = self.line_starts[line];
        Position { line, character: off.saturating_sub(line_start) }
    }

    pub fn range(&self, span: Span) -> (r: Range)
        ensures
            r.start == self.spec_position(span.start),
            r.end == self.spec_position(span.end),
    {
        Range { start: self.position(span.start), end: self.position(span.end) }
    }
}

/// When every start below `k` is at most `off` and every start from `k` on is above it,
/// exactly `k` starts are at most `off`.
proof fn lemma_count_le_split(starts: Seq<usize>, off: int, k: int)
    requires
        0 <= k <= starts.len(),
        forall|i: int| 0 <= i < k ==> starts[i] <= off,
        forall|i: int| k <= i < starts.len() ==> starts[i] > off,
    ensures
        count_le(starts, off) == k,
    decreases starts.len(),
{
    if starts.len() > 0 {
        if k == starts.len() {
            lemma_count_le_split(starts.drop_last(), off, k - 1);
        } else {
            lemma_count_le_split(starts.drop_last(), off, k);
        }
    }
}

/// A position's line is the number of line feeds before its offset (an offset past the end
/// counts as the end), for the source map of a source.
pub proof fn law_line_counts_newlines(map: SourceMap, source: Seq<u8>, offset: usize)
    requires
        map.spec_len() == source.len(),
        map.spec_starts() == line_starts_of(source),
        source.len() <= usize::MAX,
    ensures
        map.spec_position(offset).line == newlines(
            source.subrange(0, if offset < source.len() { offset as int } else { source.len() as int }),
        ),
{
    let off = if offset < source.len() { offset as int } else { source.len() as int };
    lemma_count_newlines(source, off);
    lemma_starts_within(source);
    assert(newlines(source.subrange(0, off)) <= off) by {
        lemma_newlines_le(source.subrange(0, off));
    }
}

/// There are no more line feeds than bytes.
proof fn lemma_newlines_le(s: Seq<u8>)
    ensures
        newlines(s) <= s.len(),
    decreases s.len(),
{
    if s.len() > 0 {
        lemma_newlines_le(s.drop_last());
    }
}

} // verus!
