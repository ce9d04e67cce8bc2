use vstd::prelude::*;
use vstd::string::StringSliceAdditionalSpecFns;
use crate::text::{
    is_digit, is_alnum, is_space_tab, ascii_digit, ascii_alnum, ascii_hex, space_tab, contains_byte,
    trim_range, copy_range, bytes_eq, trimmed, is_hex, byte_run, lemma_byte_run_bounds,
    lemma_byte_run_skip,
};
use crate::attrs::{digits_value, all_digits};

verus! {

/// The column after `byte` when it is a space or tab, starting at `columns`; tab stops every 4.
pub open spec fn spec_advance(columns: int, byte: u8) -> Option<int> {
    if byte == 32u8 {
        Some(columns + 1)
    } else if byte == 9u8 {
        Some(columns + (4 - columns % 4))
    } else {
        None
    }
}

pub fn advance_column(columns: usize, byte: u8) -> (r: Option<usize>)
    ensures
        columns < usize::MAX - 4 ==> (match spec_advance(columns as int, byte) {
            Some(c) => r == Some(c as usize),
            None => r is None,
        }),
{
    if byte == 32u8 {
        columns.checked_add(1)
    } else if byte == 9u8 {
        columns.checked_add(4 - columns % 4)
    } else {
        None
    }
}

/// Where the text begins after its indentation, reading from byte `pos` at column `cols`:
/// the first byte that is neither a space nor a tab (or the end), or `None` once the
/// indentation passes `max` columns.
pub open spec fn indent_end(s: Seq<u8>, pos: int, cols: int, max: int) -> Option<int>
    decreases s.len() - pos,
{
    if pos < 0 || pos >= s.len() {
        Some(pos)
    } else {
        match spec_advance(cols, s[pos]) {
            None => Some(pos),
            Some(c) => if c > max {
                None
            } else {
                indent_end(s, pos + 1, c, max)
            },
        }
    }
}

/// Where the indentation ends lies between the starting byte and the end of the text.
pub proof fn lemma_indent_end_bounds(s: Seq<u8>, pos: int, cols: int, max: int)
    requires
        0 <= pos <= s.len(),
    ensures
        indent_end(s, pos, cols, max) matches Some(i) ==> pos <= i <= s.len(),
    decreases s.len() - pos,
{
    if pos < s.len() {
        if let Some(c) = spec_advance(cols, s[pos]) {
            if c <= max {
                lemma_indent_end_bounds(s, pos + 1, c, max);
            }
        }
    }
}

/// Where the indentation ends inside the text, there stands neither a space nor a tab.
pub proof fn lemma_indent_end_stops(s: Seq<u8>, pos: int, cols: int, max: int)
    requires
        0 <= pos <= s.len(),
    ensures
        indent_end(s, pos, cols, max) matches Some(i) ==> pos <= i <= s.len() && (i < s.len()
            ==> !is_space_tab(s[i])),
    decreases s.len() - pos,
{
    if pos < s.len() {
        if let Some(c) = spec_advance(cols, s[pos]) {
            if c <= max {
                lemma_indent_end_stops(s, pos + 1, c, max);
            }
        }
    }
}

/// Where the text begins after at most `max_cols` columns of indentation, or `None` when the
/// indentation is wider.
pub fn strip_indent_up_to(text: &[u8], max_cols: usize) -> (r: Option<usize>)
    ensures
        r matches Some(i) ==> i <= text@.len(),
        max_cols < usize::MAX - 4 ==> (match indent_end(text@, 0, 0, max_cols as int) {
            Some(i) => 0 <= i <= text@.len() && r == Some(i as usize),
            None => r is None,
        }),
{
    proof {
        lemma_indent_end_bounds(text@, 0, 0, max_cols as int);
    }
    let mut cols: usize = 0;
    let mut idx: usize = 0;
    let mut pos: usize = 0;
    while pos < text.len()
        invariant
            0 <= pos <= text@.len(),
            idx <= text@.len(),
            idx == pos,
            cols <= max_cols,
            max_cols < usize::MAX - 4 ==> indent_end(text@, pos as int, cols as int, max_cols as int)
                == indent_end(text@, 0, 0, max_cols as int),
        decreases text.len() - pos,
    {
        match advance_column(cols, text[pos]) {
            Some(next) => {
                cols = next;
            },
            None => {
                return Some(pos);
            },
        }
        idx = pos + 1;
        if cols > max_cols {
            return None;
        }
        pos = pos + 1;
    }
    Some(idx)
}

/// An opening code fence: indentation, fence length, and the trimmed info range.
pub struct FenceOpen {
    pub indent: usize,
    pub fence_len: usize,
    pub info_start: usize,
    pub info_end: usize,
}

/// An opening code fence: at most three spaces, at least three backticks, and no backtick
/// after them.
pub open spec fn opens_fence(s: Seq<u8>) -> bool {
    let sp = byte_run(s, 0, 32u8);
    let e = byte_run(s, sp, 96u8);
    sp <= 3 && e - sp >= 3 && forall|k: int| e <= k < s.len() ==> s[k] != 96u8
}

pub fn parse_fence_open(text: &[u8]) -> (r: Option<FenceOpen>)
    ensures
        r matches Some(f) ==> f.indent <= 3 && f.fence_len >= 3 && f.indent + f.fence_len
            <= f.info_start && f.info_start <= f.info_end && f.info_end <= text@.len() && (forall|
            k: int| f.info_start <= k < f.info_end ==> text@[k] != 96u8),
        r is Some <==> opens_fence(text@),
        r matches Some(f) ==> {
            &&& f.indent == byte_run(text@, 0, 32u8)
            &&& f.indent + f.fence_len == byte_run(text@, f.indent as int, 96u8)
            &&& forall|k: int| f.indent + f.fence_len <= k < f.info_start ==> is_space_tab(
                #[trigger] text@[k])
            &&& forall|k: int| f.info_end <= k < text@.len() ==> is_space_tab(#[trigger] text@[k])
            &&& f.info_start < f.info_end ==> !is_space_tab(text@[f.info_start as int])
                && !is_space_tab(text@[f.info_end - 1])
        },
{
    let mut idx: usize = 0;
    while idx < text.len() && idx < 3 && text[idx] == 32u8
        invariant
            idx <= 3,
            idx <= text@.len(),
            forall|k: int| 0 <= k < idx ==> text@[k] == 32u8,
        decreases 3 - idx,
    {
        idx = idx + 1;
    }
    proof {
        lemma_leading_spaces(text@, idx as int);
    }
    if idx < text.len() && text[idx] == 32u8 {
        return None;
    }
    let mut fence_len: usize = 0;
    while idx + fence_len < text.len() && text[idx + fence_len] == 96u8
        invariant
            idx + fence_len <= text@.len(),
            byte_run(text@, idx + fence_len, 96u8) == byte_run(text@, idx as int, 96u8),
        decreases text.len() - (idx + fence_len),
    {
        fence_len = fence_len + 1;
    }
    assert(byte_run(text@, idx + fence_len, 96u8) == idx + fence_len);
    if fence_len < 3 {
        return None;
    }
    let mut a = idx + fence_len;
    let mut b = text.len();
    while a < b && (text[a] == 32u8 || text[a] == 9u8)
        invariant
            idx + fence_len <= a <= b <= text@.len(),
            b == text@.len(),
            forall|k: int| idx + fence_len <= k < a ==> is_space_tab(#[trigger] text@[k]),
        decreases b - a,
    {
        a = a + 1;
    }
    while b > a && (text[b - 1] == 32u8 || text[b - 1] == 9u8)
        invariant
            idx + fence_len <= a <= b <= text@.len(),
            forall|k: int| b <= k < text@.len() ==> is_space_tab(#[trigger] text@[k]),
        decreases b - a,
    {
        b = b - 1;
    }
    proof {
        if exists|k: int| idx + fence_len <= k < text@.len() && text@[k] == 96u8 {
            let k = choose|k: int| idx + fence_len <= k < text@.len() && text@[k] == 96u8;
            assert(a <= k < b);
        }
    }
    if contains_byte(text, a, b, 96u8) {
        return None;
    }
    Some(FenceOpen { indent: idx, fence_len, info_start: a, info_end: b })
}

/// A closing fence: at most three spaces, at least `fence_len` backticks, then only spaces
/// and tabs.
pub open spec fn closes_fence(s: Seq<u8>, fence_len: int) -> bool {
    let sp = byte_run(s, 0, 32u8);
    let e = byte_run(s, sp, 96u8);
    sp <= 3 && e - sp >= fence_len && forall|k: int| e <= k < s.len() ==> is_space_tab(s[k])
}

/// The end of the leading spaces when there are at most three of them; otherwise `None`.
pub proof fn lemma_leading_spaces(s: Seq<u8>, idx: int)
    requires
        0 <= idx <= 3,
        idx <= s.len(),
        forall|k: int| 0 <= k < idx ==> s[k] == 32u8,
        idx < 3 ==> idx == s.len() || s[idx] != 32u8,
    ensures
        (idx < s.len() && s[idx] == 32u8) ==> byte_run(s, 0, 32u8) > 3,
        !(idx < s.len() && s[idx] == 32u8) ==> byte_run(s, 0, 32u8) == idx,
{
    lemma_byte_run_skip(s, 0, idx, 32u8);
    lemma_byte_run_bounds(s, idx, 32u8);
}

pub fn is_fence_close(text: &[u8], fence_len: usize) -> (r: bool)
    ensures
        r == closes_fence(text@, fence_len as int),
{
    let mut idx: usize = 0;
    while idx < text.len() && idx < 3 && text[idx] == 32u8
        invariant
            idx <= 3,
            idx <= text@.len(),
            forall|k: int| 0 <= k < idx ==> text@[k] == 32u8,
        decreases 3 - idx,
    {
        idx = idx + 1;
    }
    proof {
        lemma_leading_spaces(text@, idx as int);
    }
    if idx < text.len() && text[idx] == 32u8 {
        return false;
    }
    let mut count: usize = 0;
    while idx + count < text.len() && text[idx + count] == 96u8
        invariant
            idx + count <= text@.len(),
            byte_run(text@, idx + count, 96u8) == byte_run(text@, idx as int, 96u8),
        decreases text.len() - (idx + count),
    {
        count = count + 1;
    }
    assert(byte_run(text@, idx + count, 96u8) == idx + count);
    assert(byte_run(text@, 0, 32u8) == idx);
    assert(byte_run(text@, idx as int, 96u8) == idx + count);
    if count < fence_len {
        assert(!closes_fence(text@, fence_len as int));
        return false;
    }
    let mut k = idx + count;
    while k < text.len()
        invariant
            idx + count <= k <= text@.len(),
            idx <= 3,
            count >= fence_len,
            byte_run(text@, 0, 32u8) == idx,
            byte_run(text@, idx as int, 96u8) == idx + count,
            forall|j: int| idx + count <= j < k ==> is_space_tab(text@[j]),
        decreases text.len() - k,
    {
        if text[k] != 32u8 && text[k] != 9u8 {
            return false;
        }
        k = k + 1;
    }
    true
}

/// Skips at most `max` leading spaces.
pub fn strip_leading_spaces(text: &[u8], max: usize) -> (r: usize)
    ensures
        r <= max,
        r <= text@.len(),
        forall|k: int| 0 <= k < r ==> text@[k] == 32u8,
        r < max && r < text@.len() ==> text@[r as int] != 32u8,
{
    let mut idx: usize = 0;
    while idx < text.len() && idx < max && text[idx] == 32u8
        invariant
            idx <= max,
            idx <= text@.len(),
            forall|k: int| 0 <= k < idx ==> text@[k] == 32u8,
        decreases text.len() - idx,
    {
        idx = idx + 1;
    }
    idx
}

/// A setext underline: after at most three columns of indentation, a run of `=` (level 1) or
/// `-` (level 2), then only spaces and tabs.
pub open spec fn setext_level(s: Seq<u8>) -> Option<u8> {
    match indent_end(s, 0, 0, 3) {
        Some(st) => if 0 <= st < s.len() && (s[st] == 61u8 || s[st] == 45u8) && forall|k: int|
            byte_run(s, st, s[st]) <= k < s.len() ==> is_space_tab(#[trigger] s[k]) {
            Some(if s[st] == 61u8 { 1u8 } else { 2u8 })
        } else {
            None
        },
        None => None,
    }
}

pub fn setext_underline_level(text: &[u8]) -> (r: Option<u8>)
    ensures
        r matches Some(l) ==> l == 1 || l == 2,
        r == setext_level(text@),
{
    let start = match strip_indent_up_to(text, 3) {
        Some(s) => s,
        None => return None,
    };
    if start >= text.len() {
        return None;
    }
    let ch = text[start];
    if ch != 61u8 && ch != 45u8 {
        return None;
    }
    let mut i = start;
    while i < text.len() && text[i] == ch
        invariant
            start <= i <= text@.len(),
            byte_run(text@, i as int, ch) == byte_run(text@, start as int, ch),
        decreases text.len() - i,
    {
        i = i + 1;
    }
    let ghost e = i;
    assert(byte_run(text@, i as int, ch) == i);
    while i < text.len()
        invariant
            e <= i <= text@.len(),
            e == byte_run(text@, start as int, ch),
            indent_end(text@, 0, 0, 3) == Some(start as int),
            start < text@.len() && text@[start as int] == ch && (ch == 61u8 || ch == 45u8),
            forall|k: int| e <= k < i ==> is_space_tab(#[trigger] text@[k]),
        decreases text.len() - i,
    {
        if text[i] != 32u8 && text[i] != 9u8 {
            return None;
        }
        i = i + 1;
    }
    Some(if ch == 61u8 { 1u8 } else { 2u8 })
}

/// The level of an ATX heading line: after at most three columns of indentation, one to six
/// `#`, then a space, a tab or the end of the line.
pub open spec fn atx_level(s: Seq<u8>) -> Option<int> {
    match indent_end(s, 0, 0, 3) {
        Some(st) => {
            let h = byte_run(s, st, 35u8) - st;
            if 0 <= st < s.len() && 1 <= h <= 6 && (st + h == s.len() || is_space_tab(s[st + h])) {
                Some(h)
            } else {
                None
            }
        },
        None => None,
    }
}

/// A closing sequence of an ATX heading whose content starts at `cs`: a space or tab, then the
/// `#` run `t[h..e]` after the content's start, then only spaces and tabs to the end.
pub open spec fn closing_run(t: Seq<u8>, cs: int, h: int, e: int) -> bool {
    &&& cs < h < e <= t.len()
    &&& is_space_tab(t[h - 1])
    &&& forall|k: int| h <= k < e ==> #[trigger] t[k] == 35u8
    &&& forall|k: int| e <= k < t.len() ==> is_space_tab(#[trigger] t[k])
}

/// Whether the heading line has a closing sequence after the content's start `cs`.
pub open spec fn has_closing_run(t: Seq<u8>, cs: int) -> bool {
    exists|h: int, e: int| closing_run(t, cs, h, e)
}

/// An ATX heading line: level, and the content byte range. The content has no trailing space
/// or tab; a closing sequence (`closing_run`) and the spaces before it are left out, and
/// without one only the trailing spaces and tabs are.
pub fn parse_atx_heading(text: &[u8]) -> (r: Option<(u8, usize, usize)>)
    ensures
        r matches Some((level, cs, ce)) ==> (ce > cs ==> !is_space_tab(text@[ce - 1])),
        r matches Some((level, cs, ce)) ==> forall|h: int, e: int|
            closing_run(text@, cs as int, h, e) ==> ce < h && forall|k: int|
                ce <= k < h ==> is_space_tab(#[trigger] text@[k]),
        r matches Some((level, cs, ce)) ==> (!has_closing_run(text@, cs as int) ==> (forall|k: int|
            ce <= k < text@.len() ==> is_space_tab(#[trigger] text@[k]))),
        r matches Some((level, s, e)) ==> 1 <= level <= 6 && s <= e <= text@.len(),
        match atx_level(text@) {
            Some(h) => r matches Some((level, cs, ce)) && level == h && (forall|k: int|
                byte_run(text@, indent_end(text@, 0, 0, 3)->0, 35u8) <= k < cs ==> is_space_tab(
                #[trigger] text@[k])) && byte_run(text@, indent_end(text@, 0, 0, 3)->0, 35u8) <= cs
                && (cs < text@.len() ==> !is_space_tab(text@[cs as int])),
            None => r is None,
        },
{
    let indent = match strip_indent_up_to(text, 3) {
        Some(s) => s,
        None => return None,
    };
    let n = text.len();
    if indent >= n {
        return None;
    }
    let mut level: usize = 0;
    while indent + level < n && text[indent + level] == 35u8
        invariant
            indent + level <= n,
            n == text@.len(),
            byte_run(text@, indent + level, 35u8) == byte_run(text@, indent as int, 35u8),
        decreases n - (indent + level),
    {
        level = level + 1;
    }
    assert(byte_run(text@, indent + level, 35u8) == indent + level);
    if level == 0 || level > 6 {
        return None;
    }
    let lv = indent + level;
    if lv < n && !space_tab(text[lv]) {
        return None;
    }
    let mut content_start = lv;
    while content_start < n && space_tab(text[content_start])
        invariant
            lv <= content_start <= n,
            n == text@.len(),
            forall|k: int| lv <= k < content_start ==> is_space_tab(#[trigger] text@[k]),
        decreases n - content_start,
    {
        content_start = content_start + 1;
    }
    let mut content_end = n;
    while content_end > content_start && space_tab(text[content_end - 1])
        invariant
            content_start <= content_end <= n,
            n == text@.len(),
            forall|k: int| content_end <= k < n ==> is_space_tab(#[trigger] text@[k]),
        decreases content_end - content_start,
    {
        content_end = content_end - 1;
    }
    let ghost cs = content_start as int;
    let ghost e0 = content_end as int;
    assert(e0 > cs ==> !is_space_tab(text@[e0 - 1]));
    assert(forall|k: int| e0 <= k < n ==> is_space_tab(#[trigger] text@[k]));
    let ghost mut closed = false;
    let ghost mut wh: int = 0;
    if content_end > content_start {
        let mut hash_start = content_end;
        while hash_start > content_start && text[hash_start - 1] == 35u8
            invariant
                content_start <= hash_start <= content_end,
                content_end <= n,
                n == text@.len(),
                forall|k: int| hash_start <= k < content_end ==> #[trigger] text@[k] == 35u8,
            decreases hash_start - content_start,
        {
            hash_start = hash_start - 1;
        }
        let ghost hs = hash_start as int;
        assert(hs > cs ==> text@[hs - 1] != 35u8);
        if hash_start < content_end && hash_start > content_start {
            if space_tab(text[hash_start - 1]) {
                let mut pre = hash_start - 1;
                while pre > content_start && space_tab(text[pre - 1])
                    invariant
                        content_start <= pre < hash_start,
                        hash_start <= n,
                        n == text@.len(),
                        forall|k: int| pre <= k < hash_start ==> is_space_tab(#[trigger] text@[k]),
                    decreases pre - content_start,
                {
                    pre = pre - 1;
                }
                content_end = pre;
                proof {
                    closed = true;
                    wh = hs;
                    assert(closing_run(text@, cs, hs, e0));
                    assert forall|h: int, e: int| closing_run(text@, cs, h, e) implies h == hs && e == e0 by {
                        if e > e0 {
                            assert(text@[e - 1] == 35u8);
                        }
                        if e < e0 {
                            assert(text@[e0 - 1] == 35u8);
                            assert(is_space_tab(text@[e0 - 1]));
                        }
                        if h < hs {
                            assert(text@[hs - 1] == 35u8);
                        }
                        if h > hs {
                            assert(text@[h - 1] == 35u8);
                        }
                    }
                }
            }
        }
        proof {
            if !closed {
                assert forall|h: int, e: int| !closing_run(text@, cs, h, e) by {
                    if closing_run(text@, cs, h, e) {
                        if e > e0 {
                            assert(text@[e - 1] == 35u8);
                        }
                        if e < e0 {
                            assert(text@[e0 - 1] == 35u8);
                            assert(is_space_tab(text@[e0 - 1]));
                        }
                        assert(e == e0);
                        if h < hs {
                            assert(text@[hs - 1] == 35u8);
                        }
                        if h > hs {
                            assert(text@[h - 1] == 35u8);
                        }
                    }
                }
            }
        }
    } else {
        proof {
            assert forall|h: int, e: int| !closing_run(text@, cs, h, e) by {
                if closing_run(text@, cs, h, e) {
                    assert(text@[e - 1] == 35u8);
                }
            }
        }
    }
    assert(closed ==> closing_run(text@, cs, wh, e0));
    assert(!closed ==> content_end == e0);
    let ghost ce0 = content_end as int;
    while content_end > content_start && space_tab(text[content_end - 1])
        invariant
            content_start <= content_end <= ce0,
            ce0 <= n,
            n == text@.len(),
            forall|k: int| content_end <= k < ce0 ==> is_space_tab(#[trigger] text@[k]),
        decreases content_end - content_start,
    {
        content_end = content_end - 1;
    }
    proof {
        if !closed {
            assert forall|k: int| content_end <= k < n implies is_space_tab(#[trigger] text@[k]) by {
                if k >= ce0 {
                    assert(e0 <= k);
                }
            }
        }
        if closed {
            assert(closing_run(text@, content_start as int, wh, e0));
            assert(has_closing_run(text@, content_start as int));
        }
    }
    Some((level as u8, content_start, content_end))
}

/// The number of `b` bytes in `s`.
pub open spec fn count_byte(s: Seq<u8>, b: u8) -> nat
    decreases s.len(),
{
    if s.len() == 0 {
        0
    } else {
        count_byte(s.drop_last(), b) + if s.last() == b { 1nat } else { 0nat }
    }
}

/// A thematic break: after at most three columns of indentation, one of `-`, `*`, `_`
/// repeated at least three times, with only spaces and tabs between and after them.
pub open spec fn thematic_break(s: Seq<u8>) -> bool {
    match indent_end(s, 0, 0, 3) {
        Some(st) => 0 <= st < s.len() && (s[st] == 45u8 || s[st] == 42u8 || s[st] == 95u8) && (
        forall|k: int| st <= k < s.len() ==> is_space_tab(#[trigger] s[k]) || s[k] == s[st])
            && count_byte(s.subrange(st, s.len() as int), s[st]) >= 3,
        None => false,
    }
}

pub fn is_thematic_break_line(text: &[u8]) -> (r: bool)
    ensures
        r == thematic_break(text@),
{
    let start = match strip_indent_up_to(text, 3) {
        Some(s) => s,
        None => return false,
    };
    if start >= text.len() {
        return false;
    }
    proof {
        lemma_indent_end_stops(text@, 0, 0, 3);
    }
    let mut marker: u8 = 0;
    let mut count: usize = 0;
    let mut i = start;
    while i < text.len()
        invariant
            start <= i <= text@.len(),
            count <= i,
            start < text@.len(),
            indent_end(text@, 0, 0, 3) == Some(start as int),
            !is_space_tab(text@[start as int]),
            i == start ==> marker == 0 && count == 0,
            i > start ==> marker == text@[start as int] && (marker == 45u8 || marker == 42u8
                || marker == 95u8) && (forall|k: int|
                start <= k < i ==> is_space_tab(#[trigger] text@[k]) || text@[k] == marker)
                && count == count_byte(text@.subrange(start as int, i as int), marker),
        decreases text.len() - i,
    {
        let b = text[i];
        proof {
            assert(text@.subrange(start as int, i + 1).drop_last() =~= text@.subrange(
                start as int,
                i as int,
            ));
        }
        if b == 32u8 || b == 9u8 {
            i = i + 1;
            continue;
        }
        if marker == 0 {
            if b != 45u8 && b != 42u8 && b != 95u8 {
                return false;
            }
            proof {
                assert(i == start);
                assert(count_byte(text@.subrange(start as int, i as int), b) == 0);
                assert(count_byte(text@.subrange(start as int, i + 1), b) == 1);
            }
            marker = b;
            count = count + 1;
            i = i + 1;
            continue;
        }
        if marker == b {
            count = count + 1;
            i = i + 1;
            continue;
        }
        assert(!(is_space_tab(text@[i as int]) || text@[i as int] == text@[start as int]));
        return false;
    }
    assert(text@.subrange(start as int, text@.len() as int) == text@.subrange(start as int, i as int));
    count >= 3
}

/// The length of a block quote prefix (`>` with up to three spaces before it and one space or
/// tab after it).
pub fn blockquote_prefix_len(text: &[u8]) -> (r: Option<usize>)
    ensures
        r matches Some(n) ==> 1 <= n <= text@.len(),
        r == ({
            let sp = byte_run(text@, 0, 32u8);
            if sp <= 3 && sp < text@.len() && text@[sp] == 62u8 {
                Some(
                    if sp + 1 < text@.len() && is_space_tab(text@[sp + 1]) {
                        (sp + 2) as usize
                    } else {
                        (sp + 1) as usize
                    },
                )
            } else {
                None
            }
        }),
{
    let mut idx: usize = 0;
    while idx < text.len() && idx < 3 && text[idx] == 32u8
        invariant
            idx <= 3,
            idx <= text@.len(),
            forall|k: int| 0 <= k < idx ==> text@[k] == 32u8,
        decreases 3 - idx,
    {
        idx = idx + 1;
    }
    proof {
        lemma_leading_spaces(text@, idx as int);
    }
    if idx < text.len() && text[idx] == 32u8 {
        return None;
    }
    if idx >= text.len() || text[idx] != 62u8 {
        return None;
    }
    idx = idx + 1;
    if idx < text.len() && (text[idx] == 32u8 || text[idx] == 9u8) {
        idx = idx + 1;
    }
    Some(idx)
}

pub fn skip_spaces_tabs(text: &[u8], pos: usize) -> (r: usize)
    ensures
        r >= pos,
        pos <= text@.len() ==> r <= text@.len(),
        forall|k: int| pos <= k < r ==> is_space_tab(text@[k]),
        r < text@.len() ==> !is_space_tab(text@[r as int]),
{
    let mut p = pos;
    while p < text.len() && (text[p] == 32u8 || text[p] == 9u8)
        invariant
            p >= pos,
            pos <= text@.len() ==> p <= text@.len(),
            forall|k: int| pos <= k < p ==> is_space_tab(text@[k]),
        decreases text.len() - p,
    {
        p = p + 1;
    }
    p
}

pub fn trailing_spaces_tabs_only(text: &[u8], pos: usize) -> (r: bool)
    ensures
        r == (forall|k: int| pos <= k < text@.len() ==> is_space_tab(text@[k])),
{
    let mut p = pos;
    while p < text.len()
        invariant
            p >= pos,
            forall|k: int| pos <= k < p ==> is_space_tab(text@[k]),
        decreases text.len() - p,
    {
        if !space_tab(text[p]) {
            return false;
        }
        p = p + 1;
    }
    true
}

pub fn is_title_delim(byte: u8) -> (r: bool)
    ensures
        r == (byte == 34u8 || byte == 39u8 || byte == 40u8),
{
    byte == 34u8 || byte == 39u8 || byte == 40u8
}

/// The bytes of indentation, read from byte `pos` at column `cols`, after which `req`
/// columns are reached; `None` when a byte other than a space or tab, or the end, comes first.
pub open spec fn prefix_end(s: Seq<u8>, pos: int, cols: int, req: int) -> Option<int>
    decreases s.len() - pos,
{
    if pos < 0 || pos >= s.len() {
        None
    } else {
        match spec_advance(cols, s[pos]) {
            None => None,
            Some(c) => if c >= req {
                Some(pos + 1)
            } else {
                prefix_end(s, pos + 1, c, req)
            },
        }
    }
}

/// The indentation found ends inside the text.
pub proof fn lemma_prefix_end_bounds(s: Seq<u8>, pos: int, cols: int, req: int)
    requires
        0 <= pos,
    ensures
        prefix_end(s, pos, cols, req) matches Some(i) ==> pos < i <= s.len(),
    decreases s.len() - pos,
{
    if pos < s.len() {
        if let Some(c) = spec_advance(cols, s[pos]) {
            if c < req {
                lemma_prefix_end_bounds(s, pos + 1, c, req);
            }
        }
    }
}

/// The number of columns of indentation needed to reach `required`, in bytes, or `None`.
pub fn indent_prefix_len(text: &[u8], required: usize) -> (r: Option<usize>)
    ensures
        r matches Some(n) ==> n <= text@.len(),
        required == 0 ==> r == Some(0usize),
        0 < required < usize::MAX - 4 ==> (match prefix_end(text@, 0, 0, required as int) {
            Some(i) => r == Some(i as usize),
            None => r is None,
        }),
{
    if required == 0 {
        return Some(0);
    }
    proof {
        lemma_prefix_end_bounds(text@, 0, 0, required as int);
    }
    let mut columns: usize = 0;
    let mut idx: usize = 0;
    while idx < text.len()
        invariant
            idx <= text@.len(),
            columns < required,
            required < usize::MAX - 4 ==> prefix_end(text@, idx as int, columns as int, required as int)
                == prefix_end(text@, 0, 0, required as int),
        decreases text.len() - idx,
    {
        match advance_column(columns, text[idx]) {
            Some(next) => {
                columns = next;
            },
            None => {
                return None;
            },
        }
        if columns >= required {
            return Some(idx + 1);
        }
        idx = idx + 1;
    }
    None
}

/// A column count that stops at `usize::MAX`.
pub open spec fn sat_col(x: int) -> int {
    if x > usize::MAX {
        usize::MAX as int
    } else {
        x
    }
}

/// The byte and column where the removed indentation ends: spaces and whole tabs are taken
/// while fewer than `columns` columns are, and no tab that would pass `columns`.
pub open spec fn indent_taken(s: Seq<u8>, pos: int, col: int, columns: int) -> (int, int)
    decreases s.len() - pos,
{
    if 0 <= pos < s.len() && col < columns {
        if s[pos] == 32u8 {
            indent_taken(s, pos + 1, col + 1, columns)
        } else if s[pos] == 9u8 {
            let next = sat_col(col + (4 - col % 4));
            if next > columns {
                (pos, col)
            } else {
                indent_taken(s, pos + 1, next, columns)
            }
        } else {
            (pos, col)
        }
    } else {
        (pos, col)
    }
}

/// `n` spaces.
pub open spec fn spaces(n: int) -> Seq<u8> {
    Seq::new(if n > 0 { n as nat } else { 0 }, |_k: int| 32u8)
}

/// The bytes from `i` on with tabs expanded to the next multiple of four columns, starting at
/// column `cc`; a byte other than CR, LF or a UTF-8 continuation byte takes one column.
pub open spec fn expand_tabs(s: Seq<u8>, i: int, cc: int) -> Seq<u8>
    decreases s.len() - i,
{
    if i >= s.len() || i < 0 {
        Seq::empty()
    } else if s[i] == 9u8 {
        let nt = sat_col(cc + (4 - cc % 4));
        spaces(nt - cc) + expand_tabs(s, i + 1, nt)
    } else {
        seq![s[i]] + expand_tabs(
            s,
            i + 1,
            if s[i] != 13u8 && s[i] != 10u8 && (s[i] < 0x80u8 || s[i] >= 0xC0u8) {
                sat_col(cc + 1)
            } else {
                cc
            },
        )
    }
}

/// A line less `columns` columns of indentation, with tabs expanded: a tab that reaches past
/// the indentation leaves the spaces beyond it, and every later tab reaches the next tab stop
/// of the column where it stands in the line.
pub open spec fn indent_removed(s: Seq<u8>, columns: int) -> Seq<u8> {
    let (p, c) = indent_taken(s, 0, 0, columns);
    if c < columns && p < s.len() && s[p] == 9u8 {
        let tab_end = sat_col(c + (4 - c % 4));
        spaces(tab_end - columns) + expand_tabs(s, p + 1, tab_end)
    } else {
        expand_tabs(s, p, c)
    }
}

/// Removes `columns` columns of indentation, expanding tabs (tab stops every 4) in what follows.
pub fn remove_indent_columns(text: &[u8], columns: usize) -> (r: Vec<u8>)
    ensures
        r@ == indent_removed(text@, columns as int),
{
    let mut col: usize = 0;
    let mut byte_pos: usize = 0;
    while byte_pos < text.len() && col < columns
        invariant
            byte_pos <= text@.len(),
            col <= columns,
            indent_taken(text@, byte_pos as int, col as int, columns as int) == indent_taken(
                text@,
                0,
                0,
                columns as int,
            ),
        ensures
            byte_pos <= text@.len(),
            col <= columns,
            indent_taken(text@, 0, 0, columns as int) == (byte_pos as int, col as int),
        decreases text.len() - byte_pos,
    {
        let b = text[byte_pos];
        if b == 32u8 {
            col = col + 1;
        } else if b == 9u8 {
            let next_col = col.saturating_add(4 - (col % 4));
            if next_col > columns {
                break;
            }
            col = next_col;
        } else {
            break;
        }
        byte_pos = byte_pos + 1;
    }
    let mut result: Vec<u8> = Vec::new();
    let ghost p0 = byte_pos as int;
    let ghost c0 = col as int;
    // Tabs further on expand from the column where they stand in the line.
    let mut current_col = col;
    if col < columns && byte_pos < text.len() && text[byte_pos] == 9u8 {
        let tab_end = col.saturating_add(4 - (col % 4));
        let spaces_after = tab_end.saturating_sub(columns);
        let mut k: usize = 0;
        while k < spaces_after
            invariant
                k <= spaces_after,
                result@ =~= Seq::new(k as nat, |_k: int| 32u8),
            decreases spaces_after - k,
        {
            result.push(32u8);
            k = k + 1;
        }
        assert(result@ =~= spaces(sat_col(c0 + (4 - c0 % 4)) - columns));
        byte_pos = byte_pos + 1;
        current_col = tab_end;
    }
    let ghost head = result@;
    let mut i = byte_pos;
    proof {
        assert(head + expand_tabs(text@, i as int, current_col as int) == indent_removed(text@, columns as int));
    }
    while i < text.len()
        invariant
            i <= text@.len(),
            result@ + expand_tabs(text@, i as int, current_col as int) == indent_removed(
                text@,
                columns as int,
            ),
        decreases text.len() - i,
    {
        let b = text[i];
        let ghost r0 = result@;
        if b == 9u8 {
            let next_tab = current_col.saturating_add(4 - (current_col % 4));
            let mut c = current_col;
            while c < next_tab
                invariant
                    current_col <= c <= next_tab,
                    result@ =~= r0 + Seq::new((c - current_col) as nat, |_k: int| 32u8),
                decreases next_tab - c,
            {
                result.push(32u8);
                c = c + 1;
            }
            proof {
                assert(result@ =~= r0 + spaces(next_tab - current_col));
                assert(r0 + (spaces(next_tab - current_col) + expand_tabs(text@, i + 1, next_tab as int))
                    =~= result@ + expand_tabs(text@, i + 1, next_tab as int));
            }
            current_col = next_tab;
        } else {
            result.push(b);
            let ghost cc0 = current_col as int;
            // Columns count characters: continuation bytes of a multi-byte character add nothing.
            if b != 13u8 && b != 10u8 && (b < 0x80u8 || b >= 0xC0u8) {
                current_col = current_col.saturating_add(1);
            }
            proof {
                assert(r0 + (seq![b] + expand_tabs(text@, i + 1, current_col as int)) =~= result@
                    + expand_tabs(text@, i + 1, current_col as int));
            }
        }
        i = i + 1;
    }
    proof {
        assert(result@ + Seq::<u8>::empty() =~= result@);
    }
    result
}

/// A list item marker: `marker_len` bytes precede the item's text and `content_indent`
/// columns its continuation lines; `post_cols` columns of whitespace follow the marker, which
/// ends at column `marker_col`, and the item's text proper starts at byte `content_start`.
pub struct ListMarker {
    pub ordered: bool,
    pub start: Option<u64>,
    pub marker_len: usize,
    pub content_indent: usize,
    pub empty: bool,
    pub marker: u8,
    pub post_cols: usize,
    pub marker_col: usize,
    pub content_start: usize,
}

/// The column after a space (one column on) or a tab (to the next stop of four) at `c`.
pub open spec fn ws_step(c: int, b: u8) -> int {
    if b == 9u8 {
        c + (4 - c % 4)
    } else {
        c + 1
    }
}

/// The column reached after the spaces and tabs `s[i..j]`, read from column `c`.
pub open spec fn ws_col(s: Seq<u8>, i: int, j: int, c: int) -> int
    decreases j - i,
{
    if j <= i {
        c
    } else {
        ws_step(ws_col(s, i, j - 1, c), s[j - 1])
    }
}

/// Of the first `k` whitespace bytes after a marker at `s[i]` (column `c`), how many belong
/// to the marker: the longest prefix that ends within four columns of `c`.
pub open spec fn marker_ws(s: Seq<u8>, i: int, k: int, c: int) -> int
    decreases k,
{
    if k <= 0 {
        0
    } else if ws_col(s, i, i + k, c) - c <= 4 {
        k
    } else {
        marker_ws(s, i, k - 1, c)
    }
}

/// Each space or tab moves the column on by at least one.
proof fn lemma_ws_col_grows(s: Seq<u8>, i: int, j: int, c: int)
    requires
        i <= j,
    ensures
        ws_col(s, i, j, c) >= c + (j - i),
    decreases j - i,
{
    if j > i {
        lemma_ws_col_grows(s, i, j - 1, c);
    }
}

/// Scans the spaces and tabs after a list marker: (columns, bytes, content bytes, has content).
pub fn scan_post_marker(bytes: &[u8], start: usize, start_col: usize) -> (r: (
    usize,
    usize,
    usize,
    bool,
))
    requires
        start <= bytes@.len(),
    ensures
        r.2 <= r.1,
        start + r.1 <= bytes@.len(),
        r.3 == (start + r.1 < bytes@.len()),
        start_col < usize::MAX - 4 ==> (r.0 == 0 <==> !(start < bytes@.len() && is_space_tab(
            bytes@[start as int],
        ))),
        start_col < usize::MAX - 4 ==> (r.0 == 0 <==> r.1 == 0),
        start_col + 4 * (bytes@.len() - start) + 4 < usize::MAX ==> (forall|k: int|
            start <= k < start + r.1 ==> is_space_tab(#[trigger] bytes@[k])) && (start + r.1
            < bytes@.len() ==> !is_space_tab(bytes@[start + r.1])),
        start_col + 4 * (bytes@.len() - start) + 4 < usize::MAX ==> r.0 == ws_col(
            bytes@,
            start as int,
            start + r.1,
            start_col as int,
        ) - start_col && r.2 == marker_ws(bytes@, start as int, r.1 as int, start_col as int),
{
    let mut idx = start;
    let mut col = start_col;
    let mut bytes_len: usize = 0;
    let mut content_bytes: usize = 0;
    let mut content_done = false;
    while idx < bytes.len()
        invariant
            start <= idx <= bytes@.len(),
            idx == start + bytes_len,
            content_bytes <= bytes_len,
            col >= start_col,
            bytes_len == 0 ==> col == start_col,
            start_col < usize::MAX - 4 ==> (bytes_len > 0 ==> col > start_col && is_space_tab(
                bytes@[start as int],
            )),
            col <= start_col + 4 * bytes_len,
            start_col + 4 * (bytes@.len() - start) + 4 < usize::MAX ==> forall|k: int|
                start <= k < idx ==> is_space_tab(#[trigger] bytes@[k]),
            start_col + 4 * (bytes@.len() - start) + 4 < usize::MAX ==> col == ws_col(
                bytes@,
                start as int,
                idx as int,
                start_col as int,
            ),
            start_col + 4 * (bytes@.len() - start) + 4 < usize::MAX ==> content_bytes == marker_ws(
                bytes@,
                start as int,
                bytes_len as int,
                start_col as int,
            ),
            content_done == (col - start_col >= 4),
        ensures
            start_col + 4 * (bytes@.len() - start) + 4 < usize::MAX ==> col == ws_col(
                bytes@,
                start as int,
                idx as int,
                start_col as int,
            ),
            start_col + 4 * (bytes@.len() - start) + 4 < usize::MAX ==> content_bytes == marker_ws(
                bytes@,
                start as int,
                bytes_len as int,
                start_col as int,
            ),
            col <= start_col + 4 * bytes_len,
            start_col + 4 * (bytes@.len() - start) + 4 < usize::MAX ==> forall|k: int|
                start <= k < idx ==> is_space_tab(#[trigger] bytes@[k]),
            start_col + 4 * (bytes@.len() - start) + 4 < usize::MAX ==> (idx < bytes@.len()
                ==> !is_space_tab(bytes@[idx as int])),
            start <= idx <= bytes@.len(),
            idx == start + bytes_len,
            content_bytes <= bytes_len,
            col >= start_col,
            bytes_len == 0 ==> col == start_col,
            start_col < usize::MAX - 4 ==> (bytes_len > 0 ==> col > start_col && is_space_tab(
                bytes@[start as int],
            )),
            start_col < usize::MAX - 4 ==> (bytes_len == 0 ==> !(start < bytes@.len()
                && is_space_tab(bytes@[start as int]))),
        decreases bytes.len() - idx,
    {
        let next_col = match advance_column(col, bytes[idx]) {
            Some(next) => next,
            None => break,
        };
        if next_col < col {
            break;
        }
        col = next_col;
        bytes_len = bytes_len + 1;
        if !content_done {
            // A whitespace byte belongs to the marker only while it keeps within four columns.
            if col - start_col <= 4 {
                content_bytes = bytes_len;
            }
            if col - start_col >= 4 {
                content_done = true;
            }
        }
        idx = idx + 1;
    }
    let has_nonspace = idx < bytes.len();
    (col - start_col, bytes_len, content_bytes, has_nonspace)
}

/// Parses a decimal number of at most 9 digits.
pub fn parse_small_decimal(bytes: &[u8], start: usize, end: usize) -> (r: u64)
    requires
        start <= end <= bytes@.len(),
        end - start <= 9,
        forall|k: int| start <= k < end ==> is_digit(bytes@[k]),
    ensures
        r == digits_value(bytes@.subrange(start as int, end as int)),
{
    let mut v: u64 = 0;
    let mut i = start;
    while i < end
        invariant
            start <= i <= end,
            end <= bytes@.len(),
            end - start <= 9,
            v < pow10((i - start) as nat),
            v == digits_value(bytes@.subrange(start as int, i as int)),
            forall|k: int| start <= k < end ==> is_digit(bytes@[k]),
        decreases end - i,
    {
        let d = (bytes[i] - 48u8) as u64;
        proof {
            lemma_pow10_bound((i - start) as nat);
            assert(bytes@.subrange(start as int, i + 1).drop_last() =~= bytes@.subrange(
                start as int,
                i as int,
            ));
        }
        v = v * 10 + d;
        i = i + 1;
    }
    v
}

pub open spec fn pow10(n: nat) -> nat
    decreases n,
{
    if n == 0 {
        1
    } else {
        10 * pow10((n - 1) as nat)
    }
}

proof fn lemma_pow10_bound(n: nat)
    requires
        n <= 8,
    ensures
        pow10(n) <= 100000000,
    decreases n,
{
    if n > 0 {
        lemma_pow10_bound((n - 1) as nat);
        reveal_with_fuel(pow10, 9);
    }
}

/// The end of the run of ASCII digits that starts at `i`.
pub open spec fn digit_end(s: Seq<u8>, i: int) -> int
    decreases s.len() - i,
{
    if 0 <= i < s.len() && is_digit(s[i]) {
        digit_end(s, i + 1)
    } else {
        i
    }
}

pub proof fn lemma_digit_end_bounds(s: Seq<u8>, i: int)
    requires
        0 <= i <= s.len(),
    ensures
        i <= digit_end(s, i) <= s.len(),
        forall|k: int| i <= k < digit_end(s, i) ==> is_digit(s[k]),
    decreases s.len() - i,
{
    if i < s.len() && is_digit(s[i]) {
        lemma_digit_end_bounds(s, i + 1);
    }
}

/// A bullet list marker byte: `-`, `+` or `*`.
pub open spec fn is_bullet(b: u8) -> bool {
    b == 45u8 || b == 43u8 || b == 42u8
}

/// Whether a marker that ends at byte `e` is followed by a space, a tab or the end.
pub open spec fn marker_ends(s: Seq<u8>, e: int) -> bool {
    e == s.len() || (e < s.len() && is_space_tab(s[e]))
}

/// A list item marker: not a thematic break; at most three spaces; then a bullet, or one to
/// nine digits and `.` or `)`; then a space, a tab or the end of the line.
pub open spec fn list_marker_at(s: Seq<u8>) -> bool {
    let sp = byte_run(s, 0, 32u8);
    let de = digit_end(s, sp);
    &&& !thematic_break(s)
    &&& s.len() > 0
    &&& sp <= 3
    &&& if sp < s.len() && is_bullet(s[sp]) {
        marker_ends(s, sp + 1)
    } else {
        1 <= de - sp <= 9 && de < s.len() && (s[de] == 46u8 || s[de] == 41u8) && marker_ends(
            s,
            de + 1,
        )
    }
}

pub fn parse_list_marker(text: &[u8]) -> (r: Option<ListMarker>)
    ensures
        r matches Some(m) ==> 1 <= m.marker_len <= text@.len() && m.content_start <= text@.len(),
        r is Some <==> list_marker_at(text@),
        r matches Some(m) ==> ({
            let sp = byte_run(text@, 0, 32u8);
            let de = digit_end(text@, sp);
            let me = if sp < text@.len() && is_bullet(text@[sp]) { sp + 1 } else { de + 1 };
            4 * text@.len() + 8 < usize::MAX ==> (m.empty <==> forall|k: int|
                me <= k < text@.len() ==> is_space_tab(#[trigger] text@[k]))
        }),
        r matches Some(m) ==> ({
            let sp = byte_run(text@, 0, 32u8);
            let de = digit_end(text@, sp);
            if sp < text@.len() && is_bullet(text@[sp]) {
                !m.ordered && m.marker == text@[sp] && m.start is None
            } else {
                m.ordered && m.marker == text@[de] && m.start == Some(
                    digits_value(text@.subrange(sp, de)) as u64,
                ) && m.start->0 == digits_value(text@.subrange(sp, de))
            }
        }),
        r matches Some(m) ==> ({
            let sp = byte_run(text@, 0, 32u8);
            let de = digit_end(text@, sp);
            let me = if sp < text@.len() && is_bullet(text@[sp]) { sp + 1 } else { de + 1 };
            let ce = m.content_start as int;
            4 * text@.len() + 8 < usize::MAX ==> {
                &&& me <= ce
                &&& forall|k: int| me <= k < ce ==> is_space_tab(#[trigger] text@[k])
                &&& ce < text@.len() ==> !is_space_tab(text@[ce])
                &&& m.empty == (ce == text@.len())
                &&& m.marker_col == me
                &&& m.post_cols == ws_col(text@, me, ce, me) - me
                &&& m.content_indent == me + (if m.empty {
                    1
                } else if m.post_cols < 4 {
                    m.post_cols as int
                } else {
                    4
                })
                &&& m.marker_len == (if m.empty {
                    ce
                } else {
                    me + marker_ws(text@, me, ce - me, me)
                })
            }
        }),
{
    if is_thematic_break_line(text) {
        return None;
    }
    let n = text.len();
    if n == 0 {
        return None;
    }
    let mut idx: usize = 0;
    while idx < n && idx < 3 && text[idx] == 32u8
        invariant
            idx <= 3,
            idx <= n,
            n == text@.len(),
            forall|k: int| 0 <= k < idx ==> text@[k] == 32u8,
        decreases 3 - idx,
    {
        idx = idx + 1;
    }
    proof {
        lemma_leading_spaces(text@, idx as int);
        lemma_digit_end_bounds(text@, idx as int);
    }
    let indent_cols = idx;
    if idx < n && text[idx] == 32u8 {
        return None;
    }
    if idx < n {
        let ch = text[idx];
        if ch == 45u8 || ch == 43u8 || ch == 42u8 {
            let marker_pos = idx;
            idx = idx + 1;
            let start_col = indent_cols + 1;
            let (post_cols, post_bytes, content_ws_bytes, has_nonspace) = scan_post_marker(
                text,
                idx,
                start_col,
            );
            if post_cols == 0 && has_nonspace {
                return None;
            }
            let empty_item = !has_nonspace;
            let extra: usize = if empty_item {
                1
            } else if post_cols < 4 {
                post_cols
            } else {
                4
            };
            let content_indent = indent_cols + 1 + extra;
            let marker_len = if empty_item {
                marker_pos + 1 + post_bytes
            } else {
                marker_pos + 1 + content_ws_bytes
            };
            return Some(
                ListMarker {
                    ordered: false,
                    start: None,
                    marker_len,
                    content_indent,
                    empty: empty_item,
                    marker: ch,
                    post_cols,
                    marker_col: start_col,
                    content_start: idx + post_bytes,
                },
            );
        }
    }
    let digit_start = idx;
    while idx < n && ascii_digit(text[idx])
        invariant
            digit_start <= idx <= n,
            n == text@.len(),
            forall|k: int| digit_start <= k < idx ==> is_digit(text@[k]),
            digit_end(text@, idx as int) == digit_end(text@, digit_start as int),
        decreases n - idx,
    {
        idx = idx + 1;
    }
    assert(digit_end(text@, idx as int) == idx);
    let digits_len = idx - digit_start;
    if digits_len == 0 || digits_len > 9 || idx >= n {
        return None;
    }
    let delimiter = text[idx];
    if delimiter != 46u8 && delimiter != 41u8 {
        return None;
    }
    let marker_end = idx + 1;
    let marker_width = marker_end - digit_start;
    let start_col = indent_cols + marker_width;
    let (post_cols, post_bytes, content_ws_bytes, has_nonspace) = scan_post_marker(
        text,
        marker_end,
        start_col,
    );
    if post_cols == 0 && has_nonspace {
        return None;
    }
    let empty_item = !has_nonspace;
    let extra: usize = if empty_item {
        1
    } else if post_cols < 4 {
        post_cols
    } else {
        4
    };
    let content_indent = indent_cols + marker_width + extra;
    let marker_len = if empty_item {
        marker_end + post_bytes
    } else {
        marker_end + content_ws_bytes
    };
    let start_num = parse_small_decimal(text, digit_start, idx);
    Some(
        ListMarker {
            ordered: true,
            start: Some(start_num),
            marker_len,
            content_indent,
            empty: empty_item,
            marker: delimiter,
            post_cols,
            marker_col: start_col,
            content_start: marker_end + post_bytes,
        },
    )
}

/// The number of lines of a code text: zero when empty, else one more than its newlines.
pub open spec fn spec_count_lines(s: Seq<u8>) -> nat
    decreases s.len(),
{
    if s.len() == 0 {
        0
    } else if s.len() == 1 {
        if s[0] == 10u8 { 2 } else { 1 }
    } else {
        spec_count_lines(s.drop_last()) + if s.last() == 10u8 { 1nat } else { 0nat }
    }
}

/// The number of lines of a code text, at most `u32::MAX`.
pub open spec fn line_total(s: Seq<u8>) -> u32 {
    if spec_count_lines(s) <= u32::MAX {
        spec_count_lines(s) as u32
    } else {
        u32::MAX
    }
}

pub fn count_lines(text: &[u8]) -> (r: u32)
    ensures
        r == line_total(text@),
        spec_count_lines(text@) <= u32::MAX ==> r == spec_count_lines(text@),
{
    if text.len() == 0 {
        return 0;
    }
    let mut count: u32 = 1;
    let mut i: usize = 0;
    while i < text.len()
        invariant
            0 <= i <= text@.len(),
            text@.len() > 0,
            i > 0 ==> count == line_total(text@.take(i as int)),
            i == 0 ==> count == 1,
        decreases text.len() - i,
    {
        proof {
            assert(text@.take(i + 1).drop_last() == text@.take(i as int));
            if i == 0 {
                assert(text@.take(1).len() == 1);
                assert(text@.take(1)[0] == text@[0]);
            }
        }
        if text[i] == 10u8 {
            count = count.saturating_add(1);
        }
        i = i + 1;
    }
    proof {
        assert(text@.take(text@.len() as int) == text@);
    }
    count
}

/// Label names are non-empty and made of ASCII letters, digits, `_` and `-`.
pub open spec fn spec_valid_label(s: Seq<u8>) -> bool {
    s.len() > 0 && forall|k: int| 0 <= k < s.len() ==> (is_alnum(#[trigger] s[k]) || s[k] == 95u8
        || s[k] == 45u8)
}

pub fn is_valid_label(name: &[u8]) -> (r: bool)
    ensures
        r == spec_valid_label(name@),
{
    if name.len() == 0 {
        return false;
    }
    let mut i: usize = 0;
    while i < name.len()
        invariant
            0 <= i <= name@.len(),
            forall|k: int| 0 <= k < i ==> (is_alnum(#[trigger] name@[k]) || name@[k] == 95u8
                || name@[k] == 45u8),
        decreases name.len() - i,
    {
        let b = name[i];
        if !(ascii_alnum(b) || b == 95u8 || b == 45u8) {
            return false;
        }
        i = i + 1;
    }
    true
}

/// `#` followed by exactly 3 or 6 hex digits, after trimming.
pub open spec fn hex_color(value: Seq<u8>) -> bool {
    let t = trimmed(value);
    (t.len() == 4 || t.len() == 7) && t[0] == 35u8 && forall|k: int|
        1 <= k < t.len() ==> is_hex(#[trigger] t[k])
}

/// One of the border styles, after trimming.
pub open spec fn border_style(value: Seq<u8>) -> bool {
    let t = trimmed(value);
    t == "solid".spec_bytes() || t == "dashed".spec_bytes() || t == "dotted".spec_bytes()
        || t == "double".spec_bytes() || t == "none".spec_bytes()
}

/// Digits, optionally followed by `px`, after trimming.
pub open spec fn border_width(value: Seq<u8>) -> bool {
    width_digits(trimmed(value)).len() > 0 && all_digits(width_digits(trimmed(value)))
}

/// `#` followed by exactly 3 or 6 hex digits, after trimming.
pub fn is_hex_color(value: &[u8]) -> (r: bool)
    ensures
        r == hex_color(value@),
{
    let (a, b) = trim_range(value, 0, value.len());
    let ghost t = value@.subrange(a as int, b as int);
    assert(t == trimmed(value@));
    if a >= b || value[a] != 35u8 {
        return false;
    }
    let len = b - a - 1;
    if len != 3 && len != 6 {
        return false;
    }
    let mut i = a + 1;
    while i < b
        invariant
            a < i <= b <= value@.len(),
            t == value@.subrange(a as int, b as int),
            t == trimmed(value@),
            (t.len() == 4 || t.len() == 7) && t[0] == 35u8,
            forall|k: int| 1 <= k < i - a ==> is_hex(#[trigger] t[k]),
        decreases b - i,
    {
        if !ascii_hex(value[i]) {
            assert(is_hex(t[i - a]) == false);
            return false;
        }
        i = i + 1;
    }
    true
}

pub fn is_border_style(value: &[u8]) -> (r: bool)
    ensures
        r == border_style(value@),
{
    let (a, b) = trim_range(value, 0, value.len());
    let v = copy_range(value, a, b);
    let v = v.as_slice();
    bytes_eq(v, "solid".as_bytes()) || bytes_eq(v, "dashed".as_bytes()) || bytes_eq(
        v,
        "dotted".as_bytes(),
    ) || bytes_eq(v, "double".as_bytes()) || bytes_eq(v, "none".as_bytes())
}

/// The number part of a border width: the text without a final `px`.
pub open spec fn width_digits(t: Seq<u8>) -> Seq<u8> {
    if t.len() >= 2 && t[t.len() - 2] == 112u8 && t[t.len() - 1] == 120u8 {
        t.subrange(0, t.len() - 2)
    } else {
        t
    }
}

/// Digits, optionally followed by `px`, after trimming.
pub fn is_border_width(value: &[u8]) -> (r: bool)
    ensures
        r == border_width(value@),
{
    let (a, b) = trim_range(value, 0, value.len());
    let ghost t = value@.subrange(a as int, b as int);
    assert(t == trimmed(value@));
    if a >= b {
        return false;
    }
    let mut e = b;
    if b - a >= 2 && value[b - 2] == 112u8 && value[b - 1] == 120u8 {
        e = b - 2;
    }
    let ghost d = value@.subrange(a as int, e as int);
    assert(d =~= width_digits(t));
    if e == a {
        return false;
    }
    let mut i = a;
    while i < e
        invariant
            a <= i <= e <= value@.len(),
            d == value@.subrange(a as int, e as int),
            t == trimmed(value@),
            d == width_digits(t),
            d.len() > 0,
            forall|k: int| 0 <= k < i - a ==> is_digit(#[trigger] d[k]),
        decreases e - i,
    {
        if !ascii_digit(value[i]) {
            assert(is_digit(d[i - a]) == false);
            return false;
        }
        i = i + 1;
    }
    true
}

/// The length of the run of `needle` bytes at `start`, stopping at `end`.
pub fn count_run(bytes: &[u8], start: usize, end: usize, needle: u8) -> (r: usize)
    requires
        end <= bytes@.len(),
    ensures
        start <= end ==> start + r <= end,
        start > end ==> r == 0,
        start <= end ==> start + r == crate::inline::bounded_run(bytes@, start as int, end as int, needle),
        forall|k: int| start <= k < start + r ==> bytes@[k] == needle,
        start + r < end ==> bytes@[start + r] != needle,
{
    let mut i = start;
    while i < end && bytes[i] == needle
        invariant
            i >= start,
            end <= bytes@.len(),
            start <= end ==> i <= end,
            start > end ==> i == start,
            forall|k: int| start <= k < i ==> bytes@[k] == needle,
            start <= end ==> crate::inline::bounded_run(bytes@, i as int, end as int, needle)
                == crate::inline::bounded_run(bytes@, start as int, end as int, needle),
        decreases end - i,
    {
        i = i + 1;
    }
    i - start
}

} // verus!
