use vstd::prelude::*;
use vstd::string::StringSliceAdditionalSpecFns;
use crate::ast::{Inline, InlineKind, InlineSeq, Label, LinkRefMeta, span_in, inline_in, inlines_in};
use crate::diagnostic::{DiagnosticSeverity, E_MATH_INLINE_NL, E_REF_BRACKET_NL};
use crate::links::{
    bracket_close, link_tail, parse_label, find_bracket_end, parse_inline_link_destination, decode_entity, is_autolink_scheme,
    is_autolink_email, autolink_scheme, autolink_email,
};
use crate::parser::{Parser, offsets_ok};
use crate::autolink::{email_domain_end, email_local_byte, url_boundary, url_literal_end, tail_matches};
use crate::scan::count_run;
use crate::span::Span;
use crate::text::{
    string_from_bytes, copy_range, push_all, ascii_punct, ascii_ws, ascii_alpha, ascii_alnum, lossy_decode,
    is_ascii_ws, is_punct, is_alnum, is_alpha,
};

verus! {

/// A run of `*` or `_` (or two `~`) that may open or close emphasis (or strikethrough); `node_index` is the text node that
/// holds the run.
#[derive(Clone, Copy, Debug)]
pub struct Delimiter {
    pub ch: u8,
    pub len: usize,
    pub node_index: usize,
    pub can_open: bool,
    pub can_close: bool,
}

/// An opening `[` or `![`: the text node that holds it and its position in the buffer.
#[derive(Clone, Copy, Debug)]
pub struct BracketEntry {
    pub node_index: usize,
    pub start: usize,
    pub image: bool,
    pub active: bool,
}

/// The nodes that a link or image holds (its text, or its alternative text).
pub open spec fn link_children(x: Inline) -> Seq<Inline> {
    match x.kind {
        InlineKind::Link { children, .. } => children@,
        InlineKind::LinkRef { children, .. } => children@,
        InlineKind::Image { alt, .. } => alt@,
        InlineKind::ImageRef { alt, .. } => alt@,
        _ => Seq::empty(),
    }
}

/// Where the text of a bracket opened at `start` begins: after `[`, or after `![` for an image.
pub open spec fn bracket_text_start(o: BracketEntry) -> int {
    if o.start <= usize::MAX - 2 {
        o.start + (if o.image { 2int } else { 1int })
    } else {
        usize::MAX as int
    }
}

/// The reference label after a `]` at `current` whose text began at `text_start`, when no
/// inline destination follows: the label in a `[...]` right after it (without a line end),
/// or, when that is empty or absent, the bracketed text itself; `None` when the `[...]` is not
/// closed or holds a line end, or when the label found is empty.
pub open spec fn ref_label_after(b: Seq<u8>, current: int, end: int, text_start: int) -> Option<(Seq<u8>, int)> {
    let next = current + 1;
    let text = if current >= text_start {
        b.subrange(text_start, current)
    } else {
        Seq::<u8>::empty()
    };
    if next < end && b[next] == 91u8 {
        match bracket_close(b, next + 1, end, 0, false) {
            Some(p) => if exists|k: int| next + 1 <= k <= p && b[k] == 10u8 {
                None
            } else if p > next + 1 {
                Some((b.subrange(next + 1, p), p))
            } else if text.len() > 0 {
                Some((text, p))
            } else {
                None
            },
            None => None,
        }
    } else if text.len() > 0 {
        Some((text, current))
    } else {
        None
    }
}

/// The index of the last active bracket, or -1 when none is active.
pub open spec fn last_active(bs: Seq<BracketEntry>) -> int
    decreases bs.len(),
{
    if bs.len() == 0 {
        -1
    } else if bs.last().active {
        bs.len() - 1
    } else {
        last_active(bs.drop_last())
    }
}

/// The brackets that open before node `n`, in order.
pub open spec fn brackets_before(bs: Seq<BracketEntry>, n: usize) -> Seq<BracketEntry>
    decreases bs.len(),
{
    if bs.len() == 0 {
        bs
    } else if bs.last().node_index < n {
        brackets_before(bs.drop_last(), n).push(bs.last())
    } else {
        brackets_before(bs.drop_last(), n)
    }
}

/// The delimiters at node `n` or before, in order.
pub open spec fn delims_upto(ds: Seq<Delimiter>, n: usize) -> Seq<Delimiter>
    decreases ds.len(),
{
    if ds.len() == 0 {
        ds
    } else if ds.last().node_index <= n {
        delims_upto(ds.drop_last(), n).push(ds.last())
    } else {
        delims_upto(ds.drop_last(), n)
    }
}

/// What follows a closing `]`: an inline destination, or a reference label.
enum LinkTarget {
    Direct { url: Vec<u8>, title: Option<Vec<u8>>, close: usize },
    Reference { label: Vec<u8>, meta: LinkRefMeta, close: usize },
}

/// The total length of the delimiter runs.
pub open spec fn dsum(s: Seq<Delimiter>) -> nat
    decreases s.len(),
{
    if s.len() == 0 {
        0
    } else {
        dsum(s.drop_last()) + s.last().len as nat
    }
}

/// The number of delimiter runs that may still close.
pub open spec fn ccount(s: Seq<Delimiter>) -> nat
    decreases s.len(),
{
    if s.len() == 0 {
        0
    } else {
        ccount(s.drop_last()) + if s.last().can_close { 1nat } else { 0nat }
    }
}

/// Every delimiter run is non-empty.
pub open spec fn delims_ok(s: Seq<Delimiter>) -> bool {
    forall|k: int| 0 <= k < s.len() ==> (#[trigger] s[k]).len >= 1
}

proof fn lemma_dsum_push(s: Seq<Delimiter>, d: Delimiter)
    ensures
        dsum(s.push(d)) == dsum(s) + d.len,
        ccount(s.push(d)) == ccount(s) + if d.can_close { 1nat } else { 0nat },
{
    assert(s.push(d).drop_last() == s);
}

proof fn lemma_dsum_update(s: Seq<Delimiter>, i: int, d: Delimiter)
    requires
        0 <= i < s.len(),
    ensures
        dsum(s.update(i, d)) == dsum(s) - s[i].len + d.len,
        ccount(s.update(i, d)) == ccount(s) - (if s[i].can_close { 1int } else { 0int }) + (
        if d.can_close { 1int } else { 0int }),
    decreases s.len(),
{
    let t = s.update(i, d);
    if i == s.len() - 1 {
        assert(t.drop_last() == s.drop_last());
    } else {
        lemma_dsum_update(s.drop_last(), i, d);
        assert(t.drop_last() == s.drop_last().update(i, d));
    }
}

proof fn lemma_dsum_take(s: Seq<Delimiter>, i: int)
    requires
        0 <= i < s.len(),
    ensures
        dsum(s.take(i + 1)) == dsum(s.take(i)) + s[i].len,
{
    assert(s.take(i + 1).drop_last() == s.take(i));
}

/// A span inside a source of `len` bytes: `start..end` itself when that already is one.
pub fn clamp_span(start: usize, end: usize, len: usize) -> (s: Span)
    ensures
        span_in(s, len as nat),
        start <= end <= len ==> s == (Span { start, end }),
{
    let e = if end <= len { end } else { len };
    let s = if start <= e { start } else { e };
    Span { start: s, end: e }
}

proof fn lemma_offsets_ge_index(o: Seq<usize>, len: nat, k: int)
    requires
        offsets_ok(o, len),
        0 <= k < o.len(),
    ensures
        o[k] >= k,
    decreases k,
{
    if k > 0 {
        lemma_offsets_ge_index(o, len, k - 1);
        assert(o[k - 1] < o[k]);
    }
}

/// An inline buffer is no longer than the source it comes from.
proof fn lemma_offsets_len(o: Seq<usize>, len: nat)
    requires
        offsets_ok(o, len),
    ensures
        o.len() <= len,
{
    if o.len() > 0 {
        lemma_offsets_ge_index(o, len, o.len() - 1);
    }
}

proof fn lemma_inlines_sub(xs: Seq<Inline>, a: int, b: int, len: nat)
    requires
        inlines_in(xs, len),
        0 <= a <= b <= xs.len(),
    ensures
        inlines_in(xs.subrange(a, b), len),
{
    assert forall|k: int| 0 <= k < b - a implies inline_in(#[trigger] xs.subrange(a, b)[k], len) by {
        assert(xs.subrange(a, b)[k] == xs[a + k]);
    }
}

proof fn lemma_inlines_push(xs: Seq<Inline>, x: Inline, len: nat)
    requires
        inlines_in(xs, len),
        inline_in(x, len),
    ensures
        inlines_in(xs.push(x), len),
{
    assert forall|k: int| 0 <= k < xs.len() + 1 implies inline_in(#[trigger] xs.push(x)[k], len) by {
        if k < xs.len() {
            assert(xs.push(x)[k] == xs[k]);
        }
    }
}

proof fn lemma_inlines_concat(xs: Seq<Inline>, ys: Seq<Inline>, len: nat)
    requires
        inlines_in(xs, len),
        inlines_in(ys, len),
    ensures
        inlines_in(xs + ys, len),
{
    assert forall|k: int| 0 <= k < xs.len() + ys.len() implies inline_in(#[trigger] (xs + ys)[k], len) by {
        if k < xs.len() {
            assert((xs + ys)[k] == xs[k]);
        } else {
            assert((xs + ys)[k] == ys[k - xs.len()]);
        }
    }
}

/// Whether a run of `delim` at `pos` may open and may close emphasis (left- and
/// right-flanking rules; `_` is stricter inside words).
pub fn delimiter_properties(bytes: &[u8], start: usize, end: usize, pos: usize, run_len: usize, delim: u8) -> (r: (
    bool,
    bool,
))
    requires
        start <= pos,
        pos + run_len <= end <= bytes@.len(),
    ensures
        ({
            let bw = !(pos > start) || is_ascii_ws(bytes@[pos - 1]);
            let aw = !(pos + run_len < end) || is_ascii_ws(bytes@[pos + run_len]);
            let bp = pos > start && is_punct(bytes@[pos - 1]);
            let ap = pos + run_len < end && is_punct(bytes@[pos + run_len]);
            let left = !aw && (!ap || bw || bp);
            let right = !bw && (!bp || aw || ap);
            if delim == 95u8 {
                r == (left && (!right || bp), right && (!left || ap))
            } else {
                r == (left, right)
            }
        }),
{
    let has_before = pos > start;
    let before: u8 = if has_before { bytes[pos - 1] } else { 0u8 };
    let after_pos = pos + run_len;
    let has_after = after_pos < end;
    let after: u8 = if has_after { bytes[after_pos] } else { 0u8 };
    let before_is_whitespace = !has_before || ascii_ws(before);
    let after_is_whitespace = !has_after || ascii_ws(after);
    let before_is_punctuation = has_before && ascii_punct(before);
    let after_is_punctuation = has_after && ascii_punct(after);
    let left_flanking = !after_is_whitespace && (!after_is_punctuation || before_is_whitespace
        || before_is_punctuation);
    let right_flanking = !before_is_whitespace && (!before_is_punctuation || after_is_whitespace
        || after_is_punctuation);
    if delim == 95u8 {
        let can_open = left_flanking && (!right_flanking || before_is_punctuation);
        let can_close = right_flanking && (!left_flanking || after_is_punctuation);
        (can_open, can_close)
    } else {
        (left_flanking, right_flanking)
    }
}

/// The "multiple of three" rule: a run that can both open and close does not match another
/// such run when their lengths add up to a multiple of three (unless both are).
pub fn delimiter_blocked(opener: &Delimiter, closer: &Delimiter) -> (r: bool)
    ensures
        r == (opener.ch == closer.ch && opener.can_open && opener.can_close && closer.can_open
            && closer.can_close && (opener.len % 3 == 0 || closer.len % 3 == 0) && (opener.len
            + closer.len) % 3 == 0),
{
    if opener.ch != closer.ch {
        return false;
    }
    if !(opener.can_open && opener.can_close && closer.can_open && closer.can_close) {
        return false;
    }
    if opener.len % 3 == 0 || closer.len % 3 == 0 {
        (opener.len % 3 + closer.len % 3) % 3 == 0
    } else {
        false
    }
}

/// `n` copies of a byte, as a string.
#[verifier::loop_isolation(false)]
fn repeat_byte(b: u8, n: usize) -> (r: String)
    ensures
        r@ == lossy_decode(Seq::new(n as nat, |_k: int| b)),
{
    let mut v: Vec<u8> = Vec::new();
    let mut k: usize = 0;
    while k < n
        invariant
            k <= n,
            v@ =~= Seq::new(k as nat, |_k: int| b),
        decreases n - k,
    {
        v.push(b);
        k = k + 1;
    }
    string_from_bytes(v.as_slice())
}

/// The end of the run of `b` bytes from `i`, stopping at `end`.
pub open spec fn bounded_run(s: Seq<u8>, i: int, end: int, b: u8) -> int
    decreases end - i,
{
    if 0 <= i < end && s[i] == b {
        bounded_run(s, i + 1, end, b)
    } else {
        i
    }
}

pub proof fn lemma_bounded_run(s: Seq<u8>, i: int, end: int, b: u8)
    requires
        0 <= i <= end,
    ensures
        i <= bounded_run(s, i, end, b) <= end,
    decreases end - i,
{
    if i < end && s[i] == b {
        lemma_bounded_run(s, i + 1, end, b);
    }
}

/// Where the `>` that ends an autolink stands, from `i` on before `end`; whitespace or `<`
/// first means there is none.
pub open spec fn autolink_end(s: Seq<u8>, i: int, end: int) -> Option<int>
    decreases end - i,
{
    if i >= end || i < 0 {
        None
    } else if s[i] == 62u8 {
        Some(i)
    } else if is_ascii_ws(s[i]) || s[i] == 60u8 {
        None
    } else {
        autolink_end(s, i + 1, end)
    }
}

/// The index after the first `abc` from `i` on, before `end`; `None` at a newline first.
pub open spec fn ends3(s: Seq<u8>, i: int, end: int, a: u8, b: u8, c: u8) -> Option<int>
    decreases end - i,
{
    if i < 0 || i >= end || end - i <= 2 {
        None
    } else if s[i] == 10u8 {
        None
    } else if s[i] == a && s[i + 1] == b && s[i + 2] == c {
        Some(i + 3)
    } else {
        ends3(s, i + 1, end, a, b, c)
    }
}

/// The index after the first `ab` from `i` on, before `end`; `None` at a newline first.
pub open spec fn ends2(s: Seq<u8>, i: int, end: int, a: u8, b: u8) -> Option<int>
    decreases end - i,
{
    if i < 0 || i >= end || end - i <= 1 {
        None
    } else if s[i] == 10u8 {
        None
    } else if s[i] == a && s[i + 1] == b {
        Some(i + 2)
    } else {
        ends2(s, i + 1, end, a, b)
    }
}

/// The index after the first `>` from `i` on, before `end`; `None` at a newline first.
pub open spec fn tag_close(s: Seq<u8>, i: int, end: int) -> Option<int>
    decreases end - i,
{
    if i < 0 || i >= end {
        None
    } else if s[i] == 10u8 {
        None
    } else if s[i] == 62u8 {
        Some(i + 1)
    } else {
        tag_close(s, i + 1, end)
    }
}

/// The end of the letters, digits and hyphens of a tag name from `i` on, before `end`.
pub open spec fn name_stop(s: Seq<u8>, i: int, end: int) -> int
    decreases end - i,
{
    if 0 <= i < end && (is_alnum(s[i]) || s[i] == 45u8) {
        name_stop(s, i + 1, end)
    } else {
        i
    }
}

/// The end of inline raw HTML at `start` (a `<`): a comment `<!--...-->`, CDATA
/// `<![CDATA[...]]>`, a declaration `<!X...>`, a processing instruction `<?...?>`, or an
/// opening or closing tag, none of them running over a newline.
pub open spec fn html_span_end(s: Seq<u8>, start: int, end: int) -> Option<int> {
    if start + 1 >= end {
        None
    } else if s[start + 1] == 33u8 {
        if start + 3 < end && s[start + 2] == 45u8 && s[start + 3] == 45u8 {
            ends3(s, start + 4, end, 45u8, 45u8, 62u8)
        } else if end - start > 8 && s[start + 2] == 91u8 && s[start + 3] == 67u8 && s[start + 4]
            == 68u8 && s[start + 5] == 65u8 && s[start + 6] == 84u8 && s[start + 7] == 65u8
            && s[start + 8] == 91u8 {
            ends3(s, start + 9, end, 93u8, 93u8, 62u8)
        } else if start + 2 < end && is_alpha(s[start + 2]) {
            tag_close(s, start + 2, end)
        } else {
            None
        }
    } else if s[start + 1] == 63u8 {
        ends2(s, start + 2, end, 63u8, 62u8)
    } else {
        let closing = s[start + 1] == 47u8;
        let n0: int = if closing { start + 2 } else { start + 1 };
        if n0 >= end || !is_alpha(s[n0]) {
            None
        } else {
            let ne = name_stop(s, n0 + 1, end);
            if ne >= end {
                None
            } else if !(is_ascii_ws(s[ne]) || s[ne] == 47u8 || s[ne] == 62u8) {
                None
            } else if closing && s[ne] == 47u8 {
                None
            } else {
                tag_close(s, ne, end)
            }
        }
    }
}

/// Where a backtick run of exactly `n` bytes starts, from `i` on before `end`.
pub open spec fn code_close(s: Seq<u8>, i: int, end: int, n: int) -> Option<int>
    decreases end - i,
{
    if i >= end || i < 0 {
        None
    } else if s[i] == 96u8 {
        let cl = bounded_run(s, i, end, 96u8) - i;
        if cl == n {
            Some(i)
        } else if cl >= 1 {
            proof {
                lemma_bounded_run(s, i, end, 96u8);
            }
            code_close(s, i + cl, end, n)
        } else {
            None
        }
    } else {
        code_close(s, i + 1, end, n)
    }
}

/// Where the `$` that closes inline math stands, from `i` on before `end`; a backslash skips
/// the byte after it.
pub open spec fn math_close(s: Seq<u8>, i: int, end: int) -> Option<int>
    decreases end - i,
{
    if i >= end || i < 0 {
        None
    } else if s[i] == 92u8 {
        math_close(s, if end - i >= 2 { i + 2 } else { end }, end)
    } else if s[i] == 36u8 {
        Some(i)
    } else {
        math_close(s, i + 1, end)
    }
}

/// The text of a code span: newlines become spaces, and one space is removed from each end
/// when both ends are spaces and some byte is not.
#[verifier::loop_isolation(false)]
pub fn code_span_text(raw: &[u8]) -> (r: Vec<u8>)
    ensures
        ({
            let c = raw@.map_values(|b: u8| if b == 10u8 { 32u8 } else { b });
            r@ == if c.len() >= 2 && c[0] == 32u8 && c[c.len() - 1] == 32u8 && exists|k: int|
                0 <= k < c.len() && c[k] != 32u8 {
                c.subrange(1, c.len() - 1)
            } else {
                c
            }
        }),
{
    let mut content: Vec<u8> = Vec::new();
    let mut k: usize = 0;
    let mut has_non_space = false;
    let ghost c = raw@.map_values(|b: u8| if b == 10u8 { 32u8 } else { b });
    while k < raw.len()
        invariant
            k <= raw@.len(),
            content@.len() == k,
            c == raw@.map_values(|b: u8| if b == 10u8 { 32u8 } else { b }),
            content@ == c.subrange(0, k as int),
            has_non_space <==> exists|q: int| 0 <= q < k && c[q] != 32u8,
        decreases raw.len() - k,
    {
        let b = if raw[k] == 10u8 { 32u8 } else { raw[k] };
        if b != 32u8 {
            has_non_space = true;
        }
        content.push(b);
        proof {
            assert(c[k as int] == b);
            assert(content@ =~= c.subrange(0, k + 1));
            if exists|q: int| 0 <= q < k + 1 && c[q] != 32u8 {
                let q = choose|q: int| 0 <= q < k + 1 && c[q] != 32u8;
                if q < k {
                    assert(exists|q2: int| 0 <= q2 < k && c[q2] != 32u8);
                }
            }
        }
        k = k + 1;
    }
    assert(content@ =~= c);
    let n = content.len();
    if n >= 2 && content[0] == 32u8 && content[n - 1] == 32u8 && has_non_space {
        copy_range(content.as_slice(), 1, n - 1)
    } else {
        content
    }
}

impl Parser {
    /// The span of `buffer[start..end]` in the source, from the offsets of its bytes: a
    /// position past the buffer maps to one past its last byte (or to the end of the source
    /// when the buffer is empty). A span that would come out inverted is cut at its start.
    pub fn span_from_offsets(&self, offsets: &[usize], start: usize, end: usize) -> (s: Span)
        requires
            offsets_ok(offsets@, self.src_len as nat),
        ensures
            span_in(s, self.src_len as nat),
            start <= end <= offsets@.len() ==> s == (Span {
                start: if start < offsets@.len() {
                    offsets@[start as int]
                } else if offsets@.len() > 0 {
                    (offsets@.last() + 1) as usize
                } else {
                    self.src_len
                },
                end: if end < offsets@.len() {
                    offsets@[end as int]
                } else if offsets@.len() > 0 {
                    (offsets@.last() + 1) as usize
                } else {
                    self.src_len
                },
            }),
    {
        let n = offsets.len();
        let source_end = self.src_len;
        let start_off = if start < n {
            offsets[start]
        } else if n > 0 {
            offsets[n - 1] + 1
        } else {
            source_end
        };
        let end_off = if end < n {
            offsets[end]
        } else if n > 0 {
            offsets[n - 1] + 1
        } else {
            source_end
        };
        proof {
            if start <= end && end <= n {
                if start < n && end < n && start < end {
                    assert(offsets@[start as int] < offsets@[end as int]);
                }
                if start < n && end >= n && n > 0 && start < n - 1 {
                    assert(offsets@[start as int] < offsets@[n - 1]);
                }
            }
            if n > 0 {
                assert(offsets@[n - 1] < self.src_len);
            }
            if start < n {
                assert(offsets@[start as int] < self.src_len);
            }
            if end < n {
                assert(offsets@[end as int] < self.src_len);
            }
        }
        clamp_span(start_off, end_off, source_end)
    }

    /// Parses the inline content of `text`, whose first byte lies at `start_offset`.
    pub fn parse_inline(&mut self, text: &[u8], start_offset: usize) -> (r: InlineSeq)
        requires
            start_offset + text@.len() <= old(self).src_len,
            old(self).src_len < usize::MAX,
        ensures
            final(self).keeps(*old(self)),
            inlines_in(r@, old(self).src_len as nat),
    {
        if text.len() == 0 {
            return Vec::new();
        }
        let mut offsets: Vec<usize> = Vec::new();
        let mut idx: usize = 0;
        while idx < text.len()
            invariant
                idx <= text@.len(),
                offsets@.len() == idx,
                start_offset + text@.len() <= self.src_len,
                forall|k: int| 0 <= k < idx ==> offsets@[k] == start_offset + k,
            decreases text.len() - idx,
        {
            offsets.push(start_offset + idx);
            idx = idx + 1;
        }
        self.parse_inline_buffer(text, offsets.as_slice())
    }

    /// Parses an inline buffer whose bytes lie at the given source offsets.
    pub fn parse_inline_buffer(&mut self, buffer: &[u8], offsets: &[usize]) -> (r: InlineSeq)
        requires
            buffer@.len() == offsets@.len(),
            offsets_ok(offsets@, old(self).src_len as nat),
            old(self).src_len < usize::MAX,
        ensures
            final(self).keeps(*old(self)),
            inlines_in(r@, old(self).src_len as nat),
    {
        proof {
            lemma_offsets_len(offsets@, self.src_len as nat);
        }
        self.parse_inline_range(buffer, offsets, 0, buffer.len())
    }

    /// Parses `buffer[start..end]` into inline nodes: escapes, code spans, math, autolinks,
    /// raw HTML, entities, references, links and images (with a bracket stack), emphasis (with
    /// a delimiter stack) and line breaks.
    pub fn parse_inline_range(&mut self, buffer: &[u8], offsets: &[usize], start: usize, end: usize) -> (r:
        InlineSeq)
        requires
            start <= end <= buffer@.len(),
            buffer@.len() == offsets@.len(),
            buffer@.len() < usize::MAX,
            offsets_ok(offsets@, old(self).src_len as nat),
            old(self).src_len < usize::MAX,
        ensures
            final(self).keeps(*old(self)),
            inlines_in(r@, old(self).src_len as nat),
        decreases end - start, 2nat,
    {
        let ghost len = self.src_len as nat;
        let bytes = buffer;
        let mut out: InlineSeq = Vec::new();
        let mut delims: Vec<Delimiter> = Vec::new();
        let mut brackets: Vec<BracketEntry> = Vec::new();
        let mut text_buf: Vec<u8> = Vec::new();
        let mut text_start = start;
        let mut i = start;
        while i < end
            invariant
                start <= i <= end <= buffer@.len(),
                start <= text_start <= i,
                bytes@ == buffer@,
                buffer@.len() == offsets@.len(),
                buffer@.len() < usize::MAX,
                offsets_ok(offsets@, len),
                len == self.src_len as nat,
                self.src_len < usize::MAX,
                self.keeps(*old(self)),
                inlines_in(out@, len),
                delims_ok(delims@),
            decreases end - i,
        {
            let b = bytes[i];
            if b == 92u8 {
                if i + 1 < end {
                    let next = bytes[i + 1];
                    if next == 10u8 {
                        self.flush_text_buf(&mut out, offsets, &mut text_buf, &mut text_start, i);
                        let span = self.span_from_offsets(offsets, i, i + 2);
                        let node = Inline { span, kind: InlineKind::HardBreak };
                        proof {
                            lemma_inlines_push(out@, node, len);
                        }
                        out.push(node);
                        i = i + 2;
                        text_start = i;
                        continue;
                    }
                    if ascii_punct(next) {
                        if text_buf.len() == 0 {
                            text_start = i;
                        }
                        text_buf.push(next);
                        i = i + 2;
                        continue;
                    }
                }
                if text_buf.len() == 0 {
                    text_start = i;
                }
                text_buf.push(92u8);
                i = i + 1;
                continue;
            }
            if b == 96u8 {
                if let Some((node, next)) = self.parse_code_span(buffer, offsets, i, end) {
                    self.flush_text_buf(&mut out, offsets, &mut text_buf, &mut text_start, i);
                    proof {
                        lemma_inlines_push(out@, node, len);
                    }
                    out.push(node);
                    i = next;
                    text_start = i;
                    continue;
                }
            }
            if b == 36u8 {
                if let Some((node, next)) = self.parse_inline_math(buffer, offsets, i, end) {
                    self.flush_text_buf(&mut out, offsets, &mut text_buf, &mut text_start, i);
                    proof {
                        lemma_inlines_push(out@, node, len);
                    }
                    out.push(node);
                    i = next;
                    text_start = i;
                    continue;
                }
            }
            if b == 60u8 {
                if let Some((node, next)) = self.parse_autolink(buffer, offsets, i, end) {
                    self.flush_text_buf(&mut out, offsets, &mut text_buf, &mut text_start, i);
                    proof {
                        lemma_inlines_push(out@, node, len);
                    }
                    out.push(node);
                    i = next;
                    text_start = i;
                    continue;
                }
                if let Some((node, next)) = self.parse_html_span(buffer, offsets, i, end) {
                    self.flush_text_buf(&mut out, offsets, &mut text_buf, &mut text_start, i);
                    proof {
                        lemma_inlines_push(out@, node, len);
                    }
                    out.push(node);
                    i = next;
                    text_start = i;
                    continue;
                }
            }
            if b == 38u8 {
                if let Some((decoded, next)) = decode_entity(bytes, i, end) {
                    if text_buf.len() == 0 {
                        text_start = i;
                    }
                    push_all(&mut text_buf, decoded.as_slice());
                    i = next;
                    continue;
                }
            }
            if b == 64u8 && i > text_start && email_local_byte(bytes[i - 1]) {
                // An e-mail address: the local part is the end of the pending text.
                let mut k = i;
                while k > text_start && email_local_byte(bytes[k - 1])
                    invariant
                        text_start <= k <= i,
                        i < end <= bytes@.len(),
                    decreases k,
                {
                    k = k - 1;
                }
                let t = i - k;
                if t <= text_buf.len() && tail_matches(text_buf.as_slice(), bytes, k, i) {
                    if let Some(e) = email_domain_end(bytes, i, end) {
                        let keep = text_buf.len() - t;
                        text_buf.truncate(keep);
                        self.flush_text_buf(&mut out, offsets, &mut text_buf, &mut text_start, k);
                        let node = self.url_link_node(buffer, offsets, k, e, true);
                        proof {
                            lemma_inlines_push(out@, node, len);
                        }
                        out.push(node);
                        i = e;
                        text_start = i;
                        continue;
                    }
                }
            }
            if (b == 104u8 || b == 119u8) && (i == start || url_boundary(bytes[i - 1])) {
                if let Some(e) = url_literal_end(bytes, i, end) {
                    self.flush_text_buf(&mut out, offsets, &mut text_buf, &mut text_start, i);
                    let node = self.url_link_node(buffer, offsets, i, e, false);
                    proof {
                        lemma_inlines_push(out@, node, len);
                    }
                    out.push(node);
                    i = e;
                    text_start = i;
                    continue;
                }
            }
            if b == 64u8 {
                if let Some((node, next)) = self.parse_reference_inline(buffer, offsets, i, end) {
                    self.flush_text_buf(&mut out, offsets, &mut text_buf, &mut text_start, i);
                    proof {
                        lemma_inlines_push(out@, node, len);
                    }
                    out.push(node);
                    i = next;
                    text_start = i;
                    continue;
                }
            }
            if b == 33u8 && i + 1 < end && bytes[i + 1] == 91u8 {
                self.flush_text_buf(&mut out, offsets, &mut text_buf, &mut text_start, i);
                self.push_text_node(&mut out, offsets, i, i + 2, "![");
                let node_index = out.len() - 1;
                brackets.push(BracketEntry { node_index, start: i, image: true, active: true });
                i = i + 2;
                text_start = i;
                continue;
            }
            if b == 91u8 {
                self.flush_text_buf(&mut out, offsets, &mut text_buf, &mut text_start, i);
                self.push_text_node(&mut out, offsets, i, i + 1, "[");
                let node_index = out.len() - 1;
                brackets.push(BracketEntry { node_index, start: i, image: false, active: true });
                i = i + 1;
                text_start = i;
                continue;
            }
            if b == 93u8 {
                self.flush_text_buf(&mut out, offsets, &mut text_buf, &mut text_start, i);
                if let Some(next) = self.try_close_link(
                    buffer,
                    offsets,
                    end,
                    i,
                    &mut out,
                    &mut delims,
                    &mut brackets,
                ) {
                    i = next;
                    text_start = i;
                    continue;
                }
                if text_buf.len() == 0 {
                    text_start = i;
                }
                text_buf.push(93u8);
                i = i + 1;
                continue;
            }
            if b == 126u8 && count_run(bytes, i, end, b) != 2 {
                // Only a run of exactly two tildes can strike text through.
                let run_len = count_run(bytes, i, end, b);
                if text_buf.len() == 0 {
                    text_start = i;
                }
                let mut k: usize = 0;
                while k < run_len
                    invariant
                        k <= run_len,
                    decreases run_len - k,
                {
                    text_buf.push(b);
                    k = k + 1;
                }
                i = i + run_len;
                continue;
            }
            if b == 42u8 || b == 95u8 || b == 126u8 {
                let run_len = count_run(bytes, i, end, b);
                let (can_open, can_close) = delimiter_properties(bytes, start, end, i, run_len, b);
                self.flush_text_buf(&mut out, offsets, &mut text_buf, &mut text_start, i);
                let text = repeat_byte(b, run_len);
                let span = self.span_from_offsets(offsets, i, i + run_len);
                let node = Inline { span, kind: InlineKind::Text(text) };
                proof {
                    lemma_inlines_push(out@, node, len);
                }
                out.push(node);
                if can_open || can_close {
                    let d = Delimiter {
                        ch: b,
                        len: run_len,
                        node_index: out.len() - 1,
                        can_open,
                        can_close,
                    };
                    delims.push(d);
                }
                i = i + run_len;
                text_start = i;
                continue;
            }
            if b == 10u8 {
                let mut trailing: usize = 0;
                while trailing < text_buf.len() && text_buf[text_buf.len() - 1 - trailing] == 32u8
                    invariant
                        trailing <= text_buf@.len(),
                    decreases text_buf@.len() - trailing,
                {
                    trailing = trailing + 1;
                }
                let hard_break = trailing >= 2;
                if hard_break {
                    let keep = text_buf.len() - trailing;
                    text_buf.truncate(keep);
                }
                self.flush_text_buf(&mut out, offsets, &mut text_buf, &mut text_start, i);
                let span = self.span_from_offsets(offsets, i, i + 1);
                let node = Inline {
                    span,
                    kind: if hard_break {
                        InlineKind::HardBreak
                    } else {
                        InlineKind::SoftBreak
                    },
                };
                proof {
                    lemma_inlines_push(out@, node, len);
                }
                out.push(node);
                i = i + 1;
                text_start = i;
                continue;
            }
            if text_buf.len() == 0 {
                text_start = i;
            }
            text_buf.push(b);
            i = i + 1;
        }
        self.flush_text_buf(&mut out, offsets, &mut text_buf, &mut text_start, end);
        self.process_emphasis(&mut out, &mut delims);
        out
    }

    /// Turns the pending text bytes (if any) into a text node spanning `text_start..current`.
    pub fn flush_text_buf(
        &self,
        out: &mut InlineSeq,
        offsets: &[usize],
        text_buf: &mut Vec<u8>,
        text_start: &mut usize,
        current: usize,
    )
        requires
            offsets_ok(offsets@, self.src_len as nat),
            inlines_in(old(out)@, self.src_len as nat),
        ensures
            inlines_in(final(out)@, self.src_len as nat),
            final(text_buf)@.len() == 0,
            *final(text_start) == current,
            old(out)@.len() <= final(out)@.len() <= old(out)@.len() + 1,
    {
        if text_buf.len() == 0 {
            *text_start = current;
            return;
        }
        let span = self.span_from_offsets(offsets, *text_start, current);
        let text = string_from_bytes(text_buf.as_slice());
        text_buf.clear();
        let node = Inline { span, kind: InlineKind::Text(text) };
        proof {
            lemma_inlines_push(old(out)@, node, self.src_len as nat);
        }
        out.push(node);
        *text_start = current;
    }

    /// Pushes a text node for `buffer[start..end]`.
    pub fn push_text_node(&self, out: &mut InlineSeq, offsets: &[usize], start: usize, end: usize, text: &str)
        requires
            offsets_ok(offsets@, self.src_len as nat),
            inlines_in(old(out)@, self.src_len as nat),
        ensures
            inlines_in(final(out)@, self.src_len as nat),
            final(out)@.len() == old(out)@.len() + 1,
    {
        let span = self.span_from_offsets(offsets, start, end);
        let node = Inline { span, kind: InlineKind::Text(text.to_string()) };
        proof {
            lemma_inlines_push(old(out)@, node, self.src_len as nat);
        }
        out.push(node);
    }

    /// A code span: a run of backticks, then everything up to a run of the same length.
    #[verifier::loop_isolation(false)]
    pub fn parse_code_span(&self, buffer: &[u8], offsets: &[usize], start: usize, end: usize) -> (r: Option<
        (Inline, usize),
    >)
        requires
            start < end <= buffer@.len(),
            buffer@.len() == offsets@.len(),
            buffer@.len() < usize::MAX,
            offsets_ok(offsets@, self.src_len as nat),
        ensures
            r matches Some((x, next)) ==> start < next <= end && inline_in(x, self.src_len as nat),
            ({
                let n = bounded_run(buffer@, start as int, end as int, 96u8) - start;
                match code_close(buffer@, start + n, end as int, n) {
                    Some(c) => r matches Some((x, next)) && next == c + n && x.kind is CodeSpan,
                    None => r is None,
                }
            }),
    {
        let run_len = count_run(buffer, start, end, 96u8);
        let ghost n = run_len as int;
        let mut i = start + run_len;
        while i < end
            invariant
                start + run_len <= i <= end <= buffer@.len(),
                n == run_len,
                n == bounded_run(buffer@, start as int, end as int, 96u8) - start,
                code_close(buffer@, i as int, end as int, n) == code_close(
                    buffer@,
                    start + n,
                    end as int,
                    n,
                ),
            decreases end - i,
        {
            if buffer[i] == 96u8 {
                let close_len = count_run(buffer, i, end, 96u8);
                if close_len == run_len {
                    let raw = copy_range(buffer, start + run_len, i);
                    let content = code_span_text(raw.as_slice());
                    let span = self.span_from_offsets(offsets, start, i + run_len);
                    return Some(
                        (
                            Inline {
                                span,
                                kind: InlineKind::CodeSpan(string_from_bytes(content.as_slice())),
                            },
                            i + run_len,
                        ),
                    );
                }
                i = i + close_len;
                continue;
            }
            i = i + 1;
        }
        None
    }

    /// Inline math between two `$`; a newline inside it is an error but the math is kept.
    #[verifier::loop_isolation(false)]
    pub fn parse_inline_math(&mut self, buffer: &[u8], offsets: &[usize], start: usize, end: usize) -> (r:
        Option<(Inline, usize)>)
        requires
            start < end <= buffer@.len(),
            buffer@.len() == offsets@.len(),
            buffer@.len() < usize::MAX,
            offsets_ok(offsets@, old(self).src_len as nat),
        ensures
            final(self).keeps(*old(self)),
            r matches Some((x, next)) ==> start < next <= end && inline_in(x, old(self).src_len as nat),
            match math_close(buffer@, start + 1, end as int) {
                Some(c) => r matches Some((x, next)) && next == c + 1 && (x.kind matches InlineKind::MathInline {
                    typst_src,
                } && typst_src@ == lossy_decode(buffer@.subrange(start + 1, c))),
                None => r is None,
            },
    {
        let mut i = start + 1;
        while i < end
            invariant
                start < i,
                end <= buffer@.len(),
                buffer@.len() < usize::MAX,
                self.keeps(*old(self)),
                math_close(buffer@, i as int, end as int) == math_close(buffer@, start + 1, end as int),
            decreases end - i,
        {
            let b = buffer[i];
            if b == 92u8 {
                i = if end - i >= 2 { i + 2 } else { end };
                continue;
            }
            if b == 36u8 {
                let mut has_newline = false;
                let mut k = start + 1;
                while k < i
                    invariant
                        start < k <= i < end,
                    decreases i - k,
                {
                    if buffer[k] == 10u8 {
                        has_newline = true;
                    }
                    k = k + 1;
                }
                if has_newline {
                    let span = self.span_from_offsets(offsets, start, i + 1);
                    self.push_diag(span, DiagnosticSeverity::Error, E_MATH_INLINE_NL, "newline in inline math");
                }
                let content = copy_range(buffer, start + 1, i);
                let span = self.span_from_offsets(offsets, start, i + 1);
                return Some(
                    (
                        Inline {
                            span,
                            kind: InlineKind::MathInline { typst_src: string_from_bytes(content.as_slice()) },
                        },
                        i + 1,
                    ),
                );
            }
            i = i + 1;
        }
        None
    }

    /// An autolink `<scheme:...>` or `<user@host>`.
    #[verifier::loop_isolation(false)]
    pub fn parse_autolink(&self, buffer: &[u8], offsets: &[usize], start: usize, end: usize) -> (r: Option<
        (Inline, usize),
    >)
        requires
            start < end <= buffer@.len(),
            buffer@.len() == offsets@.len(),
            buffer@.len() < usize::MAX,
            offsets_ok(offsets@, self.src_len as nat),
        ensures
            r matches Some((x, next)) ==> start < next <= end && inline_in(x, self.src_len as nat),
            match (if start + 2 < end { autolink_end(buffer@, start + 1, end as int) } else { None }) {
                Some(g) => {
                    let inner = buffer@.subrange(start + 1, g);
                    if autolink_scheme(inner) {
                        r matches Some((x, next)) && next == g + 1 && (x.kind matches InlineKind::Link {
                            url,
                            ..
                        } && url@ == lossy_decode(inner))
                    } else if autolink_email(inner) {
                        r matches Some((x, next)) && next == g + 1 && (x.kind matches InlineKind::Link {
                            url,
                            ..
                        } && url@ == lossy_decode("mailto:".spec_bytes() + inner))
                    } else {
                        r is None
                    }
                },
                None => r is None,
            },
    {
        if start + 2 >= end {
            return None;
        }
        let mut i = start + 1;
        while i < end
            invariant
                start < i <= end <= buffer@.len(),
                autolink_end(buffer@, i as int, end as int) == autolink_end(buffer@, start + 1, end as int),
            decreases end - i,
        {
            let b = buffer[i];
            if b == 62u8 {
                break;
            }
            if ascii_ws(b) || b == 60u8 {
                return None;
            }
            i = i + 1;
        }
        if i >= end || buffer[i] != 62u8 {
            return None;
        }
        let inner = copy_range(buffer, start + 1, i);
        let (url, display) = if is_autolink_scheme(inner.as_slice()) {
            (string_from_bytes(inner.as_slice()), string_from_bytes(inner.as_slice()))
        } else if is_autolink_email(inner.as_slice()) {
            let mut u: Vec<u8> = Vec::new();
            crate::text::push_str(&mut u, "mailto:");
            push_all(&mut u, inner.as_slice());
            assert(u@ =~= "mailto:".spec_bytes() + inner@);
            (string_from_bytes(u.as_slice()), string_from_bytes(inner.as_slice()))
        } else {
            return None;
        };
        let span = self.span_from_offsets(offsets, start, i + 1);
        let child_span = self.span_from_offsets(offsets, start + 1, i);
        let child = Inline { span: child_span, kind: InlineKind::Text(display) };
        let mut children: InlineSeq = Vec::new();
        children.push(child);
        proof {
            lemma_inlines_push(Seq::<Inline>::empty(), child, self.src_len as nat);
            assert(children@ == Seq::<Inline>::empty().push(child));
        }
        Some((Inline { span, kind: InlineKind::Link { url, title: None, children } }, i + 1))
    }

    /// The raw HTML node for `buffer[start..stop]`.
    fn html_node(&self, buffer: &[u8], offsets: &[usize], start: usize, stop: usize) -> (r: (Inline, usize))
        requires
            start < stop <= buffer@.len(),
            offsets_ok(offsets@, self.src_len as nat),
        ensures
            r.1 == stop,
            inline_in(r.0, self.src_len as nat),
            r.0.kind matches InlineKind::HtmlSpan { raw } && raw@ == lossy_decode(buffer@.subrange(
                start as int,
                stop as int,
            )),
    {
        let raw = copy_range(buffer, start, stop);
        let span = self.span_from_offsets(offsets, start, stop);
        (Inline { span, kind: InlineKind::HtmlSpan { raw: string_from_bytes(raw.as_slice()) } }, stop)
    }

    /// Raw inline HTML on one line: a comment, CDATA, a declaration, a processing instruction,
    /// or an opening or closing tag.
    #[verifier::loop_isolation(false)]
    pub fn parse_html_span(&self, buffer: &[u8], offsets: &[usize], start: usize, end: usize) -> (r: Option<
        (Inline, usize),
    >)
        requires
            start < end <= buffer@.len(),
            buffer@.len() == offsets@.len(),
            buffer@.len() < usize::MAX,
            offsets_ok(offsets@, self.src_len as nat),
        ensures
            r matches Some((x, next)) ==> start < next <= end && inline_in(x, self.src_len as nat),
            match html_span_end(buffer@, start as int, end as int) {
                Some(n) => r matches Some((x, next)) && next == n && (x.kind matches InlineKind::HtmlSpan {
                    raw,
                } && raw@ == lossy_decode(buffer@.subrange(start as int, n))),
                None => r is None,
            },
    {
        let bytes = buffer;
        if start + 1 >= end {
            return None;
        }
        if bytes[start + 1] == 33u8 {
            if start + 3 < end && bytes[start + 2] == 45u8 && bytes[start + 3] == 45u8 {
                let mut i = start + 4;
                while i < end && end - i > 2
                    invariant
                        start + 4 <= i,
                        end <= bytes@.len(),
                        ends3(bytes@, i as int, end as int, 45u8, 45u8, 62u8) == ends3(bytes@, start + 4, end as int, 45u8, 45u8, 62u8),
                    decreases end - i,
                {
                    let b = bytes[i];
                    if b == 10u8 {
                        return None;
                    }
                    if b == 45u8 && bytes[i + 1] == 45u8 && bytes[i + 2] == 62u8 {
                        return Some(self.html_node(buffer, offsets, start, i + 3));
                    }
                    i = i + 1;
                }
                return None;
            }
            if end - start > 8 && bytes[start + 2] == 91u8 && bytes[start + 3] == 67u8 && bytes[start
                + 4] == 68u8 && bytes[start + 5] == 65u8 && bytes[start + 6] == 84u8 && bytes[start
                + 7] == 65u8 && bytes[start + 8] == 91u8 {
                let mut i = start + 9;
                while i < end && end - i > 2
                    invariant
                        start + 9 <= i,
                        end <= bytes@.len(),
                        ends3(bytes@, i as int, end as int, 93u8, 93u8, 62u8) == ends3(bytes@, start + 9, end as int, 93u8, 93u8, 62u8),
                    decreases end - i,
                {
                    let b = bytes[i];
                    if b == 10u8 {
                        return None;
                    }
                    if b == 93u8 && bytes[i + 1] == 93u8 && bytes[i + 2] == 62u8 {
                        return Some(self.html_node(buffer, offsets, start, i + 3));
                    }
                    i = i + 1;
                }
                return None;
            }
            if start + 2 < end && ascii_alpha(bytes[start + 2]) {
                let mut i = start + 2;
                while i < end
                    invariant
                        start + 2 <= i <= end,
                        end <= bytes@.len(),
                        tag_close(bytes@, i as int, end as int) == tag_close(bytes@, start + 2, end as int),
                    decreases end - i,
                {
                    let b = bytes[i];
                    if b == 10u8 {
                        return None;
                    }
                    if b == 62u8 {
                        return Some(self.html_node(buffer, offsets, start, i + 1));
                    }
                    i = i + 1;
                }
                return None;
            }
            return None;
        }
        if bytes[start + 1] == 63u8 {
            let mut i = start + 2;
            while i < end && end - i > 1
                invariant
                    start + 2 <= i,
                    end <= bytes@.len(),
                    ends2(bytes@, i as int, end as int, 63u8, 62u8) == ends2(bytes@, start + 2, end as int, 63u8, 62u8),
                decreases end - i,
            {
                let b = bytes[i];
                if b == 10u8 {
                    return None;
                }
                if b == 63u8 && bytes[i + 1] == 62u8 {
                    return Some(self.html_node(buffer, offsets, start, i + 2));
                }
                i = i + 1;
            }
            return None;
        }
        let mut i = start + 1;
        let mut closing = false;
        if bytes[i] == 47u8 {
            closing = true;
            i = i + 1;
        }
        if i >= end || !ascii_alpha(bytes[i]) {
            return None;
        }
        i = i + 1;
        let ghost n0 = i as int;
        while i < end && (ascii_alnum(bytes[i]) || bytes[i] == 45u8)
            invariant
                start < i <= end <= bytes@.len(),
                name_stop(bytes@, i as int, end as int) == name_stop(bytes@, n0, end as int),
            decreases end - i,
        {
            i = i + 1;
        }
        assert(name_stop(bytes@, i as int, end as int) == i);
        let ghost ne = i as int;
        if i >= end {
            return None;
        }
        let after_name = bytes[i];
        if !(ascii_ws(after_name) || after_name == 47u8 || after_name == 62u8) {
            return None;
        }
        if closing && after_name == 47u8 {
            return None;
        }
        while i < end
            invariant
                start < i <= end <= bytes@.len(),
                tag_close(bytes@, i as int, end as int) == tag_close(bytes@, ne, end as int),
            decreases end - i,
        {
            let b = bytes[i];
            if b == 10u8 {
                return None;
            }
            if b == 62u8 {
                return Some(self.html_node(buffer, offsets, start, i + 1));
            }
            i = i + 1;
        }
        None
    }

    /// A reference `@label`, optionally followed by bracketed display text `[...]`.
    pub fn parse_reference_inline(&mut self, buffer: &[u8], offsets: &[usize], start: usize, end: usize) -> (r:
        Option<(Inline, usize)>)
        requires
            start < end <= buffer@.len(),
            buffer@.len() == offsets@.len(),
            buffer@.len() < usize::MAX,
            offsets_ok(offsets@, old(self).src_len as nat),
            old(self).src_len < usize::MAX,
        ensures
            final(self).keeps(*old(self)),
            r matches Some((x, next)) ==> start < next <= end && inline_in(x, old(self).src_len as nat),
            r is Some <==> (start + 1 < end && (is_alnum(buffer@[start + 1]) || buffer@[start + 1] == 95u8
                || buffer@[start + 1] == 45u8)),
            r matches Some((x, next)) ==> (x.kind matches InlineKind::Ref { resolved, .. }
                && resolved is None),
        decreases end - start, 1nat,
    {
        let bytes = buffer;
        let (label, label_end) = match parse_label(bytes, start + 1, end) {
            Some(v) => v,
            None => return None,
        };
        let label_span = self.span_from_offsets(offsets, start + 1, label_end);
        let mut bracket: Option<InlineSeq> = None;
        let mut next = label_end;
        if label_end < end && bytes[label_end] == 91u8 {
            if let Some((close, had_newline)) = find_bracket_end(bytes, label_end + 1, end) {
                let content_start = label_end + 1;
                let content_end = close;
                let (content, bracket_newline) = self.parse_bracket_inlines(
                    buffer,
                    offsets,
                    content_start,
                    content_end,
                );
                if had_newline || bracket_newline {
                    let span = self.span_from_offsets(offsets, start, close + 1);
                    self.push_diag(span, DiagnosticSeverity::Error, E_REF_BRACKET_NL, "newline in reference text");
                }
                bracket = Some(content);
                next = close + 1;
            }
        }
        let span = self.span_from_offsets(offsets, start, next);
        Some(
            (
                Inline {
                    span,
                    kind: InlineKind::Ref {
                        label: Label { name: string_from_bytes(label.as_slice()), span: label_span },
                        bracket,
                        resolved: None,
                    },
                },
                next,
            ),
        )
    }

    /// The inlines of a reference's bracketed text, and whether it holds a newline.
    #[verifier::loop_isolation(false)]
    pub fn parse_bracket_inlines(&mut self, buffer: &[u8], offsets: &[usize], start: usize, end: usize) -> (r:
        (InlineSeq, bool))
        requires
            start <= end <= buffer@.len(),
            buffer@.len() == offsets@.len(),
            buffer@.len() < usize::MAX,
            offsets_ok(offsets@, old(self).src_len as nat),
            old(self).src_len < usize::MAX,
        ensures
            final(self).keeps(*old(self)),
            inlines_in(r.0@, old(self).src_len as nat),
        decreases end - start, 3nat,
    {
        let mut had_newline = false;
        let mut k = start;
        while k < end
            invariant
                start <= k <= end <= buffer@.len(),
            decreases end - k,
        {
            if buffer[k] == 10u8 {
                had_newline = true;
            }
            k = k + 1;
        }
        let inlines = self.parse_inline_range(buffer, offsets, start, end);
        (inlines, had_newline)
    }

    /// At a closing `]`: matches the last active opener and, when an inline destination or a
    /// reference label (explicit, or the bracketed text itself) follows, replaces the opener
    /// and everything after it by a link or image node. Gives the position after the link.
    #[verifier::loop_isolation(false)]
    pub fn try_close_link(
        &mut self,
        buffer: &[u8],
        offsets: &[usize],
        end: usize,
        current: usize,
        out: &mut InlineSeq,
        delims: &mut Vec<Delimiter>,
        brackets: &mut Vec<BracketEntry>,
    ) -> (r: Option<usize>)
        requires
            current < end <= buffer@.len(),
            buffer@.len() == offsets@.len(),
            buffer@.len() < usize::MAX,
            offsets_ok(offsets@, old(self).src_len as nat),
            old(self).src_len < usize::MAX,
            inlines_in(old(out)@, old(self).src_len as nat),
            delims_ok(old(delims)@),
        ensures
            final(self).keeps(*old(self)),
            inlines_in(final(out)@, old(self).src_len as nat),
            delims_ok(final(delims)@),
            r matches Some(n) ==> current < n <= end,
            last_active(old(brackets)@) < 0 ==> r is None,
            r is None ==> *final(out) == *old(out) && *final(delims) == *old(delims) && *final(brackets)
                == *old(brackets),
            r is Some <==> ({
                let o = old(brackets)@[last_active(old(brackets)@)];
                &&& 0 <= last_active(old(brackets)@)
                &&& o.node_index < old(out)@.len()
                &&& (link_tail(buffer@, current + 1, end as int) is Some || ref_label_after(
                    buffer@,
                    current as int,
                    end as int,
                    bracket_text_start(o),
                ) is Some)
            }),
            r is Some ==> ({
                let o = old(brackets)@[last_active(old(brackets)@)];
                let x = final(out)@.last();
                match link_tail(buffer@, current + 1, end as int) {
                    Some((u, t, c)) => r == Some((c + 1) as usize) && (if o.image {
                        x.kind matches InlineKind::Image { url, title, .. } && url@ == lossy_decode(u) && match t {
                            Some(tt) => title matches Some(tx) && tx@ == lossy_decode(tt),
                            None => title is None,
                        }
                    } else {
                        x.kind matches InlineKind::Link { url, title, .. } && url@ == lossy_decode(u) && match t {
                            Some(tt) => title matches Some(tx) && tx@ == lossy_decode(tt),
                            None => title is None,
                        }
                    }),
                    None => ref_label_after(buffer@, current as int, end as int, bracket_text_start(o)) matches Some(
                        (l, c),
                    ) && r == Some((c + 1) as usize) && (if o.image {
                        x.kind matches InlineKind::ImageRef { label, .. } && label@ == lossy_decode(l)
                    } else {
                        x.kind matches InlineKind::LinkRef { label, .. } && label@ == lossy_decode(l)
                    }),
                }
            }),
            r is Some ==> ({
                let o = old(brackets)@[last_active(old(brackets)@)];
                &&& 0 <= last_active(old(brackets)@)
                &&& o.node_index < old(out)@.len()
                &&& final(out)@.len() == o.node_index + 1
                &&& final(out)@.subrange(0, o.node_index as int) == old(out)@.subrange(0, o.node_index as int)
                &&& (o.image ==> (final(out)@.last().kind is Image || final(out)@.last().kind is ImageRef))
                &&& (!o.image ==> (final(out)@.last().kind is Link || final(out)@.last().kind is LinkRef))
                &&& final(brackets)@ == brackets_before(old(brackets)@, o.node_index)
                &&& final(delims)@ == delims_upto(old(delims)@, o.node_index)
                &&& (forall|k: int| 0 <= k < old(delims)@.len() ==> (#[trigger] old(delims)@[k]).node_index
                    <= o.node_index) ==> link_children(final(out)@.last()) == old(out)@.subrange(
                    o.node_index + 1,
                    old(out)@.len() as int,
                )
            }),
    {
        let ghost len = self.src_len as nat;
        let bytes = buffer;
        let mut pos = brackets.len();
        proof {
            assert(brackets@.take(pos as int) =~= brackets@);
        }
        while pos > 0 && !brackets[pos - 1].active
            invariant
                pos <= brackets@.len(),
                last_active(brackets@) == last_active(brackets@.take(pos as int)),
            decreases pos,
        {
            proof {
                assert(brackets@.take(pos as int).drop_last() =~= brackets@.take(pos - 1));
                assert(brackets@.take(pos as int).last() == brackets@[pos - 1]);
            }
            pos = pos - 1;
        }
        proof {
            if pos > 0 {
                assert(brackets@.take(pos as int).last() == brackets@[pos - 1]);
            }
        }
        if pos == 0 {
            return None;
        }
        let opener = brackets[pos - 1];
        let target = match parse_inline_link_destination(bytes, current + 1, end) {
            Some((url, title, close)) => LinkTarget::Direct { url, title, close },
            None => {
                let mut next = current + 1;
                let mut label: Option<Vec<u8>> = None;
                let mut label_open_span: Option<crate::span::Span> = None;
                let mut label_span: Option<crate::span::Span> = None;
                let mut label_close_span: Option<crate::span::Span> = None;
                if next < end && bytes[next] == 91u8 {
                    let label_start = next + 1;
                    match find_bracket_end(bytes, label_start, end) {
                        Some((label_end, had_newline)) => {
                            if had_newline {
                                return None;
                            }
                            label_open_span = Some(self.span_from_offsets(offsets, next, next + 1));
                            label_close_span = Some(
                                self.span_from_offsets(offsets, label_end, label_end + 1),
                            );
                            if label_end > label_start {
                                label_span = Some(
                                    self.span_from_offsets(offsets, label_start, label_end),
                                );
                            }
                            let raw = copy_range(bytes, label_start, label_end);
                            if raw.len() > 0 {
                                label = Some(raw);
                            }
                            next = label_end + 1;
                        },
                        None => return None,
                    }
                }
                let opener_len: usize = if opener.image { 2 } else { 1 };
                let content_start = if opener.start <= usize::MAX - 2 { opener.start + opener_len } else { usize::MAX };
                let text_label = if current >= content_start {
                    copy_range(bytes, content_start, current)
                } else {
                    Vec::new()
                };
                let lookup = match label {
                    Some(value) => value,
                    None => text_label,
                };
                if lookup.len() == 0 {
                    return None;
                }
                let opener_end = if opener.start <= usize::MAX - 2 { opener.start + opener_len } else { opener.start };
                let meta = LinkRefMeta {
                    opener_span: self.span_from_offsets(offsets, opener.start, opener_end),
                    closer_span: self.span_from_offsets(offsets, current, current + 1),
                    label_open_span,
                    label_span,
                    label_close_span,
                };
                LinkTarget::Reference { label: lookup, meta, close: next - 1 }
            },
        };
        if opener.node_index >= out.len() {
            return None;
        }
        let close = match &target {
            LinkTarget::Direct { close, .. } => *close,
            LinkTarget::Reference { close, .. } => *close,
        };
        let span = self.span_from_offsets(offsets, opener.start, close + 1);
        let ghost before = out@;
        let mut children = out.split_off(opener.node_index + 1);
        out.pop();
        proof {
            lemma_inlines_sub(before, opener.node_index + 1, before.len() as int, len);
            lemma_inlines_sub(before, 0, opener.node_index as int, len);
            assert(out@ == before.subrange(0, opener.node_index as int));
        }
        let mut child_delims: Vec<Delimiter> = Vec::new();
        let mut remaining: Vec<Delimiter> = Vec::new();
        let mut k: usize = 0;
        while k < delims.len()
            invariant
                k <= delims@.len(),
                delims_ok(delims@),
                delims_ok(child_delims@),
                delims_ok(remaining@),
                remaining@ == delims_upto(delims@.take(k as int), opener.node_index),
                child_delims@.len() == 0 <==> forall|q: int| 0 <= q < k ==> (#[trigger] delims@[q]).node_index
                    <= opener.node_index,
            decreases delims.len() - k,
        {
            proof {
                assert(delims@.take(k + 1).drop_last() =~= delims@.take(k as int));
                assert(delims@.take(k + 1).last() == delims@[k as int]);
            }
            let d = delims[k];
            if d.node_index > opener.node_index {
                let shifted = Delimiter {
                    ch: d.ch,
                    len: d.len,
                    node_index: d.node_index - (opener.node_index + 1),
                    can_open: d.can_open,
                    can_close: d.can_close,
                };
                child_delims.push(shifted);
            } else {
                remaining.push(d);
            }
            k = k + 1;
        }
        proof {
            assert(delims@.take(delims@.len() as int) =~= delims@);
        }
        *delims = remaining;
        if child_delims.len() > 0 {
            self.process_emphasis(&mut children, &mut child_delims);
        }
        let kind = match target {
            LinkTarget::Direct { url, title, .. } => {
                let url = string_from_bytes(url.as_slice());
                let title = match title {
                    Some(t) => Some(string_from_bytes(t.as_slice())),
                    None => None,
                };
                if opener.image {
                    InlineKind::Image { url, title, alt: children }
                } else {
                    InlineKind::Link { url, title, children }
                }
            },
            LinkTarget::Reference { label, meta, .. } => {
                let label = string_from_bytes(label.as_slice());
                if opener.image {
                    InlineKind::ImageRef { label, alt: children, meta }
                } else {
                    InlineKind::LinkRef { label, children, meta }
                }
            },
        };
        let node = Inline { span, kind };
        proof {
            lemma_inlines_push(out@, node, len);
        }
        out.push(node);
        let mut kept: Vec<BracketEntry> = Vec::new();
        let mut m: usize = 0;
        while m < brackets.len()
            invariant
                m <= brackets@.len(),
                kept@ == brackets_before(brackets@.take(m as int), opener.node_index),
            decreases brackets.len() - m,
        {
            proof {
                assert(brackets@.take(m + 1).drop_last() =~= brackets@.take(m as int));
                assert(brackets@.take(m + 1).last() == brackets@[m as int]);
            }
            if brackets[m].node_index < opener.node_index {
                kept.push(brackets[m]);
            }
            m = m + 1;
        }
        proof {
            assert(brackets@.take(brackets@.len() as int) =~= brackets@);
        }
        *brackets = kept;
        Some(close + 1)
    }

    /// Matches delimiter runs into emphasis, closers from left to right, each with the nearest
    /// opener of the same character that the "multiple of three" rule allows.
    pub fn process_emphasis(&self, out: &mut InlineSeq, delims: &mut Vec<Delimiter>)
        requires
            inlines_in(old(out)@, self.src_len as nat),
            delims_ok(old(delims)@),
        ensures
            inlines_in(final(out)@, self.src_len as nat),
            delims_ok(final(delims)@),
    {
        loop
            invariant
                inlines_in(out@, self.src_len as nat),
                delims_ok(delims@),
            decreases dsum(delims@), ccount(delims@),
        {
            let mut closer_index: usize = 0;
            let mut found = false;
            while closer_index < delims.len() && !found
                invariant
                    closer_index <= delims@.len(),
                    found ==> closer_index < delims@.len() && delims@[closer_index as int].can_close,
                decreases delims@.len() - closer_index, if found { 0int } else { 1int },
            {
                if delims[closer_index].can_close {
                    found = true;
                } else {
                    closer_index = closer_index + 1;
                }
            }
            if !found {
                break;
            }
            let closer = delims[closer_index];
            let mut opener_index: usize = closer_index;
            let mut use_len: usize = 1;
            let mut matched = false;
            while opener_index > 0 && !matched
                invariant
                    opener_index <= closer_index < delims@.len(),
                    matched ==> opener_index < closer_index,
                    1 <= use_len <= 2,
                    closer == delims@[closer_index as int],
                    delims_ok(delims@),
                    matched ==> delims@[opener_index as int].len >= use_len && closer.len >= use_len,
                decreases opener_index, if matched { 0int } else { 1int },
            {
                let idx = opener_index - 1;
                let opener = delims[idx];
                if opener.ch == closer.ch && opener.can_open {
                    let candidate: usize = if opener.len >= 2 && closer.len >= 2 { 2 } else { 1 };
                    if closer.ch == 126u8 {
                        // Strikethrough takes two tildes from each side.
                        if candidate == 2 {
                            matched = true;
                            use_len = 2;
                        }
                    } else if !(candidate == 1 && delimiter_blocked(&opener, &closer)) {
                        matched = true;
                        use_len = candidate;
                    }
                }
                if !matched {
                    opener_index = idx;
                } else {
                    opener_index = idx;
                }
            }
            let on = delims[opener_index].node_index;
            if !matched || !(on < closer.node_index && closer.node_index < out.len()) {
                // No opener for this closer: it stays text.
                let updated = Delimiter {
                    ch: closer.ch,
                    len: closer.len,
                    node_index: closer.node_index,
                    can_open: closer.can_open,
                    can_close: false,
                };
                proof {
                    lemma_dsum_update(delims@, closer_index as int, updated);
                }
                delims.set(closer_index, updated);
                continue;
            }
            self.apply_emphasis(out, delims, opener_index, closer_index, use_len);
        }
    }

    /// Replaces the nodes from the opener's to the closer's by emphasis (`use_len` 1) or strong
    /// emphasis (2) around the nodes between them; what remains of either run stays text and
    /// stays a delimiter.
    #[verifier::spinoff_prover]
    #[verifier::rlimit(60)]
    pub fn apply_emphasis(
        &self,
        out: &mut InlineSeq,
        delims: &mut Vec<Delimiter>,
        opener_index: usize,
        closer_index: usize,
        use_len: usize,
    )
        requires
            inlines_in(old(out)@, self.src_len as nat),
            delims_ok(old(delims)@),
            opener_index < closer_index < old(delims)@.len(),
            1 <= use_len <= 2,
            old(delims)@[opener_index as int].len >= use_len,
            old(delims)@[closer_index as int].len >= use_len,
            old(delims)@[opener_index as int].node_index < old(delims)@[closer_index as int].node_index,
            old(delims)@[closer_index as int].node_index < old(out)@.len(),
        ensures
            inlines_in(final(out)@, self.src_len as nat),
            delims_ok(final(delims)@),
            dsum(final(delims)@) < dsum(old(delims)@),
    {
        let ghost len = self.src_len as nat;
        let opener = delims[opener_index];
        let closer = delims[closer_index];
        let on = opener.node_index;
        let cn = closer.node_index;
        let ghost before = out@;
        let out_len = out.len();
        assert(cn < out_len);
        let mut tail = out.split_off(cn + 1);
        let closer_node = out.pop().unwrap();
        let children = out.split_off(on + 1);
        let opener_node = out.pop().unwrap();
        proof {
            assert(out@ == before.subrange(0, on as int));
            assert(children@ == before.subrange(on + 1, cn as int));
            assert(tail@ == before.subrange(cn + 1, before.len() as int));
            lemma_inlines_sub(before, 0, on as int, len);
            lemma_inlines_sub(before, on + 1, cn as int, len);
            lemma_inlines_sub(before, cn + 1, before.len() as int, len);
        }
        let removed_len = cn + 1 - on;
        let opener_remain = opener.len - use_len;
        let closer_remain = closer.len - use_len;
        let mut replacement_len: usize = 0;
        if opener_remain > 0 {
            let span = clamp_span(
                opener_node.span.start,
                opener_node.span.start.saturating_add(opener_remain),
                self.src_len,
            );
            let node = Inline { span, kind: InlineKind::Text(repeat_byte(opener.ch, opener_remain)) };
            proof {
                lemma_inlines_push(out@, node, len);
            }
            out.push(node);
            replacement_len = replacement_len + 1;
        }
        let emph_span = clamp_span(
            opener_node.span.start.saturating_add(opener_remain),
            closer_node.span.end.saturating_sub(closer_remain),
            self.src_len,
        );
        let emph_kind = if closer.ch == 126u8 {
            InlineKind::Strikethrough(children)
        } else if use_len == 2 {
            InlineKind::Strong(children)
        } else {
            InlineKind::Emph(children)
        };
        let emph = Inline { span: emph_span, kind: emph_kind };
        proof {
            lemma_inlines_push(out@, emph, len);
        }
        out.push(emph);
        replacement_len = replacement_len + 1;
        if closer_remain > 0 {
            let span = clamp_span(
                closer_node.span.end.saturating_sub(closer_remain),
                closer_node.span.end,
                self.src_len,
            );
            let node = Inline { span, kind: InlineKind::Text(repeat_byte(closer.ch, closer_remain)) };
            proof {
                lemma_inlines_push(out@, node, len);
            }
            out.push(node);
            replacement_len = replacement_len + 1;
        }
        proof {
            lemma_inlines_concat(out@, tail@, len);
        }
        out.append(&mut tail);
        // The delimiters before the opener keep their nodes; those after the closer move by
        // the change in the number of nodes; those between them are gone.
        let mut before_list: Vec<Delimiter> = Vec::new();
        let mut after_list: Vec<Delimiter> = Vec::new();
        let ghost mut skipped: nat = 0;
        let mut k: usize = 0;
        while k < delims.len()
            invariant
                k <= delims@.len(),
                delims_ok(delims@),
                delims_ok(before_list@),
                delims_ok(after_list@),
                opener_index < closer_index < delims@.len(),
                delims@[opener_index as int] == opener,
                delims@[closer_index as int] == closer,
                removed_len == cn + 1 - on,
                on < cn,
                1 <= replacement_len <= 3,
                dsum(before_list@) + dsum(after_list@) + skipped == dsum(delims@.take(k as int)),
                skipped >= (if k > opener_index { opener.len as int } else { 0int }) + (if k
                    > closer_index { closer.len as int } else { 0int }),
            decreases delims.len() - k,
        {
            let d = delims[k];
            proof {
                lemma_dsum_take(delims@, k as int);
            }
            if k == opener_index || k == closer_index {
                proof {
                    skipped = skipped + d.len as nat;
                }
            } else if d.node_index < on {
                proof {
                    lemma_dsum_push(before_list@, d);
                }
                before_list.push(d);
            } else if d.node_index > cn {
                let shifted = Delimiter {
                    ch: d.ch,
                    len: d.len,
                    node_index: if replacement_len >= removed_len {
                        d.node_index.saturating_add(replacement_len - removed_len)
                    } else {
                        d.node_index.saturating_sub(removed_len - replacement_len)
                    },
                    can_open: d.can_open,
                    can_close: d.can_close,
                };
                proof {
                    lemma_dsum_push(after_list@, shifted);
                }
                after_list.push(shifted);
            } else {
                proof {
                    skipped = skipped + d.len as nat;
                }
            }
            k = k + 1;
        }
        let mut updated = before_list;
        let mut next_index = on;
        if opener_remain > 0 {
            let d = Delimiter {
                ch: opener.ch,
                len: opener_remain,
                node_index: next_index,
                can_open: opener.can_open,
                can_close: opener.can_close,
            };
            proof {
                lemma_dsum_push(updated@, d);
            }
            updated.push(d);
            next_index = next_index + 1;
        }
        next_index = next_index + 1;
        if closer_remain > 0 {
            let d = Delimiter {
                ch: closer.ch,
                len: closer_remain,
                node_index: next_index,
                can_open: closer.can_open,
                can_close: closer.can_close,
            };
            proof {
                lemma_dsum_push(updated@, d);
            }
            updated.push(d);
        }
        let mut m: usize = 0;
        let ghost base = dsum(updated@);
        while m < after_list.len()
            invariant
                m <= after_list@.len(),
                delims_ok(after_list@),
                delims_ok(updated@),
                dsum(updated@) == base + dsum(after_list@.take(m as int)),
            decreases after_list.len() - m,
        {
            let d = after_list[m];
            proof {
                lemma_dsum_take(after_list@, m as int);
                lemma_dsum_push(updated@, d);
            }
            updated.push(d);
            m = m + 1;
        }
        proof {
            assert(delims@.take(delims@.len() as int) == delims@);
            assert(after_list@.take(after_list@.len() as int) == after_list@);
        }
        *delims = updated;
    }
}

} // verus!
