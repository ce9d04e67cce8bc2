use vstd::prelude::*;
use vstd::utf8::encode_utf8;
use vstd::string::StringSliceAdditionalSpecFns;
use crate::ast::{
    AttrItem, AttrList, AttrValue, Label, LineRange, LineLabel, CodeMeta, span_in, attrs_in, label_in,
};
use crate::diagnostic::{
    Diagnostic, DiagnosticSeverity, E_ATTR_SYNTAX, E_CODE_CONFLICT, W_BOX_STYLE_INVALID, W_CODE_RANGE_OOB,
};
use crate::parser::Parser;
use crate::scan::{
    is_valid_label, is_hex_color, is_border_style, is_border_width, line_total, spec_valid_label,
    hex_color, border_style, border_width,
};
use crate::span::Span;
use crate::text::{
    is_digit, ascii_digit, copy_range, string_from_bytes, string_bytes, trim_range, unicode_ws_at,
    bytes_eq, contains_byte, first_index, lemma_first_index_bound, lossy_decode, trimmed, trim_start_at,
    trim_end_at,
};

verus! {

/// Whether a box style attribute holds a value that its key does not allow: a colour for `bg`,
/// `title-bg` and `border-color`, a style for `border-style`, a width for `border-width`.
pub open spec fn style_invalid(item: AttrItem) -> bool {
    let key = encode_utf8(item.key@);
    let v = trimmed(encode_utf8(item.value.raw@));
    if key == "bg".spec_bytes() || key == "title-bg".spec_bytes() || key
        == "border-color".spec_bytes() {
        !hex_color(v)
    } else if key == "border-style".spec_bytes() {
        !border_style(v)
    } else if key == "border-width".spec_bytes() {
        !border_width(v)
    } else {
        false
    }
}

/// The number of items whose box style value is invalid.
pub open spec fn invalid_styles(items: Seq<AttrItem>) -> nat
    decreases items.len(),
{
    if items.len() == 0 {
        0
    } else {
        invalid_styles(items.drop_last()) + if style_invalid(items.last()) { 1nat } else { 0nat }
    }
}

/// The value of a decimal `u32` literal as `str::parse::<u32>` reads it: an optional `+`, then
/// one or more digits, and no overflow.
pub open spec fn digits_value(s: Seq<u8>) -> int
    decreases s.len(),
{
    if s.len() == 0 {
        0
    } else {
        digits_value(s.drop_last()) * 10 + (s.last() - 48)
    }
}

/// The digits part of a `u32` literal: the text after an optional leading `+`.
pub open spec fn unsigned_part(s: Seq<u8>) -> Seq<u8> {
    if s.len() > 0 && s[0] == 43u8 {
        s.subrange(1, s.len() as int)
    } else {
        s
    }
}

pub open spec fn all_digits(d: Seq<u8>) -> bool {
    forall|k: int| 0 <= k < d.len() ==> is_digit(#[trigger] d[k])
}

pub open spec fn spec_parse_u32(s: Seq<u8>) -> Option<u32> {
    let d = unsigned_part(s);
    if d.len() > 0 && all_digits(d) && digits_value(d) <= u32::MAX {
        Some(digits_value(d) as u32)
    } else {
        None
    }
}

proof fn lemma_digits_value_nonneg(s: Seq<u8>)
    requires
        forall|k: int| 0 <= k < s.len() ==> is_digit(#[trigger] s[k]),
    ensures
        digits_value(s) >= 0,
    decreases s.len(),
{
    if s.len() > 0 {
        lemma_digits_value_nonneg(s.drop_last());
    }
}

proof fn lemma_digits_value_mono(s: Seq<u8>, i: int)
    requires
        0 <= i <= s.len(),
        forall|k: int| 0 <= k < s.len() ==> is_digit(#[trigger] s[k]),
    ensures
        digits_value(s.take(i)) <= digits_value(s),
    decreases s.len() - i,
{
    if i < s.len() {
        lemma_digits_value_mono(s, i + 1);
        assert(s.take(i + 1).drop_last() == s.take(i));
        lemma_digits_value_nonneg(s.take(i));
    } else {
        assert(s.take(i) == s);
    }
}

/// `str::parse::<u32>` on bytes.
pub fn parse_u32(s: &[u8]) -> (r: Option<u32>)
    ensures
        r == spec_parse_u32(s@),
{
    let mut start: usize = 0;
    if s.len() > 0 && s[0] == 43u8 {
        start = 1;
    }
    let ghost d = s@.subrange(start as int, s@.len() as int);
    proof {
        if start == 0 {
            assert(d == s@);
        }
    }
    if start >= s.len() {
        return None;
    }
    let mut v: u32 = 0;
    let mut i = start;
    while i < s.len()
        invariant
            start <= i <= s@.len(),
            start <= 1,
            (start == 1) == (s@.len() > 0 && s@[0] == 43u8),
            d == s@.subrange(start as int, s@.len() as int),
            forall|k: int| start <= k < i ==> is_digit(#[trigger] s@[k]),
            v == digits_value(d.take(i - start)),
        decreases s.len() - i,
    {
        let b = s[i];
        if !ascii_digit(b) {
            proof {
                assert(!is_digit(d[i - start]));
                lemma_parse_u32_none(s@, d, start as int, (i - start) as int);
            }
            return None;
        }
        proof {
            assert(d.take(i - start + 1).drop_last() == d.take(i - start));
        }
        let m = match v.checked_mul(10) {
            Some(m) => m,
            None => {
                proof {
                    assert(d[i - start] == b);
                    assert forall|k: int| 0 <= k < i - start + 1 implies is_digit(#[trigger] d[k]) by {
                        if k < i - start {
                            assert(d[k] == s@[start + k]);
                        }
                    }
                    lemma_prefix_too_big(d, (i - start + 1) as int);
                    lemma_parse_u32_big(s@, d, start as int);
                }
                return None;
            },
        };
        let n = match m.checked_add((b - 48u8) as u32) {
            Some(n) => n,
            None => {
                proof {
                    assert(d[i - start] == b);
                    assert forall|k: int| 0 <= k < i - start + 1 implies is_digit(#[trigger] d[k]) by {
                        if k < i - start {
                            assert(d[k] == s@[start + k]);
                        }
                    }
                    lemma_prefix_too_big(d, (i - start + 1) as int);
                    lemma_parse_u32_big(s@, d, start as int);
                }
                return None;
            },
        };
        v = n;
        i = i + 1;
    }
    proof {
        assert(d.take(d.len() as int) == d);
    }
    Some(v)
}

/// When a prefix of `d` made of digits already exceeds `u32::MAX`, so does the whole (or the
/// whole is not all digits).
proof fn lemma_prefix_too_big(d: Seq<u8>, i: int)
    requires
        0 < i <= d.len(),
        forall|k: int| 0 <= k < i ==> is_digit(#[trigger] d[k]),
        digits_value(d.take(i)) > u32::MAX,
    ensures
        !(all_digits(d) && digits_value(d) <= u32::MAX),
{
    if all_digits(d) {
        lemma_digits_value_mono(d, i);
    }
}

proof fn lemma_parse_u32_none(s: Seq<u8>, d: Seq<u8>, start: int, k: int)
    requires
        0 <= start <= 1,
        (start == 1) == (s.len() > 0 && s[0] == 43u8),
        start <= s.len(),
        d == s.subrange(start, s.len() as int),
        0 <= k < d.len(),
        !is_digit(d[k]),
    ensures
        spec_parse_u32(s) is None,
{
    if start == 0 {
        assert(d =~= s);
    }
    assert(unsigned_part(s) == d);
    assert(!all_digits(d));
}

proof fn lemma_parse_u32_big(s: Seq<u8>, d: Seq<u8>, start: int)
    requires
        0 <= start <= 1,
        (start == 1) == (s.len() > 0 && s[0] == 43u8),
        start <= s.len(),
        d == s.subrange(start, s.len() as int),
        !(all_digits(d) && digits_value(d) <= u32::MAX),
    ensures
        spec_parse_u32(s) is None,
{
    if start == 0 {
        assert(d =~= s);
    }
    assert(unsigned_part(s) == d);
    assert(!(all_digits(d) && digits_value(d) <= u32::MAX));
}

/// With no `b` before `i`, the first `b` is at `i` when `s[i]` is one, and there is none when
/// `i` is the end.
proof fn lemma_first_index_at(s: Seq<u8>, b: u8, i: int)
    requires
        0 <= i <= s.len(),
        forall|k: int| 0 <= k < i ==> s[k] != b,
    ensures
        i < s.len() && s[i] == b ==> first_index(s, b) == Some(i),
        i == s.len() ==> first_index(s, b) is None,
    decreases i,
{
    if i > 0 {
        let rest = s.subrange(1, s.len() as int);
        assert forall|k: int| 0 <= k < i - 1 implies rest[k] != b by {
            assert(rest[k] == s[k + 1]);
        }
        lemma_first_index_at(rest, b, i - 1);
        if i < s.len() {
            assert(rest[i - 1] == s[i]);
        }
    }
}

/// Splits at the first occurrence of `sep`.
pub fn split_once(s: &[u8], sep: u8) -> (r: Option<(Vec<u8>, Vec<u8>)>)
    ensures
        match first_index(s@, sep) {
            None => r is None,
            Some(p) => r matches Some((a, b)) && a@ == s@.subrange(0, p) && b@ == s@.subrange(p + 1, s@.len() as int),
        },
        r matches Some((a, b)) ==> exists|p: int| 0 <= p < s@.len() && s@[p] == sep && a@
            == s@.subrange(0, p) && b@ == s@.subrange(p + 1, s@.len() as int) && (forall|k: int|
            0 <= k < p ==> s@[k] != sep),
        r is None ==> forall|k: int| 0 <= k < s@.len() ==> s@[k] != sep,
{
    let mut i: usize = 0;
    while i < s.len()
        invariant
            i <= s@.len(),
            forall|k: int| 0 <= k < i ==> s@[k] != sep,
        decreases s.len() - i,
    {
        if s[i] == sep {
            proof {
                lemma_first_index_at(s@, sep, i as int);
            }
            let a = copy_range(s, 0, i);
            let b = copy_range(s, i + 1, s.len());
            return Some((a, b));
        }
        i = i + 1;
    }
    proof {
        lemma_first_index_at(s@, sep, i as int);
    }
    None
}

/// A text split at its commas (a text without any is one piece, maybe empty).
pub open spec fn comma_pieces(s: Seq<u8>) -> Seq<Seq<u8>>
    decreases s.len(),
{
    if s.len() == 0 {
        seq![Seq::empty()]
    } else {
        let r = comma_pieces(s.drop_last());
        if s.last() == 44u8 {
            r.push(Seq::empty())
        } else {
            r.update(r.len() - 1, r.last().push(s.last()))
        }
    }
}

proof fn lemma_comma_pieces_len(s: Seq<u8>)
    ensures
        comma_pieces(s).len() >= 1,
    decreases s.len(),
{
    if s.len() > 0 {
        lemma_comma_pieces_len(s.drop_last());
    }
}

/// Without a comma in `s[pos..stop]`, the pieces up to `stop` end with that text added to the
/// last piece up to `pos`.
proof fn lemma_comma_pieces_run(s: Seq<u8>, pos: int, stop: int)
    requires
        0 <= pos <= stop <= s.len(),
        forall|k: int| pos <= k < stop ==> s[k] != 44u8,
    ensures
        comma_pieces(s.take(stop)) == comma_pieces(s.take(pos)).update(
            comma_pieces(s.take(pos)).len() - 1,
            comma_pieces(s.take(pos)).last() + s.subrange(pos, stop),
        ),
    decreases stop - pos,
{
    lemma_comma_pieces_len(s.take(pos));
    let r = comma_pieces(s.take(pos));
    if stop == pos {
        assert(r.last() + s.subrange(pos, stop) =~= r.last());
        assert(r.update(r.len() - 1, r.last()) =~= r);
    } else {
        lemma_comma_pieces_run(s, pos, stop - 1);
        lemma_comma_pieces_len(s.take(stop - 1));
        assert(s.take(stop).drop_last() =~= s.take(stop - 1));
        assert(s.take(stop).last() == s[stop - 1]);
        let q = comma_pieces(s.take(stop - 1));
        assert(q.len() == r.len());
        assert(q.last() == r.last() + s.subrange(pos, stop - 1));
        assert(q.last().push(s[stop - 1]) =~= r.last() + s.subrange(pos, stop));
        assert(comma_pieces(s.take(stop)) =~= r.update(r.len() - 1, r.last() + s.subrange(pos, stop)));
    }
}

/// The entries read so far: all of them when done, else those before the one that starts at
/// `pos`.
pub open spec fn pieces_read(s: Seq<u8>, pos: int, done: bool) -> Seq<Seq<u8>> {
    if done {
        comma_pieces(s)
    } else {
        comma_pieces(s.take(pos)).drop_last()
    }
}

/// What one entry of a line-range list gives: its ranges (none or one), its labels (none or
/// one, with its line) and whether it was out of bounds. `N:label` entries are read only when
/// labels are allowed; malformed entries, zero lines and invalid labels give nothing.
pub open spec fn entry_outcome(t: Seq<u8>, max: u32, allow: bool) -> (Seq<LineRange>, Seq<(u32, Seq<u8>)>, bool) {
    let none = (Seq::<LineRange>::empty(), Seq::<(u32, Seq<u8>)>::empty(), false);
    let oob = (Seq::<LineRange>::empty(), Seq::<(u32, Seq<u8>)>::empty(), true);
    let colon = first_index(t, 58u8);
    let dash = first_index(t, 45u8);
    if t.len() == 0 {
        none
    } else if colon is Some && !allow {
        none
    } else if colon is Some {
        let p = colon->0;
        let lp = t.subrange(p + 1, t.len() as int);
        match spec_parse_u32(t.subrange(0, p)) {
            Some(line) => if line == 0 {
                none
            } else if max == 0 || line > max {
                oob
            } else if !spec_valid_label(lp) {
                none
            } else {
                (seq![LineRange { start: line, end: line }], seq![(line, lp)], false)
            },
            None => none,
        }
    } else if dash is Some {
        let p = dash->0;
        match (spec_parse_u32(t.subrange(0, p)), spec_parse_u32(t.subrange(p + 1, t.len() as int))) {
            (Some(a), Some(b)) => if a == 0 || b == 0 || b < a {
                none
            } else if max == 0 || a > max || b > max {
                oob
            } else {
                (seq![LineRange { start: a, end: b }], Seq::empty(), false)
            },
            _ => none,
        }
    } else {
        match spec_parse_u32(t) {
            Some(line) => if line == 0 {
                none
            } else if max == 0 || line > max {
                oob
            } else {
                (seq![LineRange { start: line, end: line }], Seq::empty(), false)
            },
            None => none,
        }
    }
}

/// Whether an entry (trimmed) is malformed: it is not empty and gives neither a range nor the
/// out-of-bounds flag. Each malformed entry is reported.
pub open spec fn entry_malformed(t: Seq<u8>, max: u32, allow: bool) -> bool {
    let o = entry_outcome(t, max, allow);
    t.len() > 0 && o.0.len() == 0 && !o.2
}

/// How many of the trimmed entries are malformed.
pub open spec fn malformed_entries(pieces: Seq<Seq<u8>>, max: u32, allow: bool) -> nat
    decreases pieces.len(),
{
    if pieces.len() == 0 {
        0
    } else {
        malformed_entries(pieces.drop_last(), max, allow) + (if entry_malformed(trimmed(pieces.last()), max, allow) {
            1nat
        } else {
            0nat
        })
    }
}

/// The diagnostics from `from` on are syntax errors.
pub open spec fn syntax_errors_from(ds: Seq<Diagnostic>, from: int) -> bool {
    forall|k: int| from <= k < ds.len() ==> (#[trigger] ds[k]).code == E_ATTR_SYNTAX && ds[k].severity
        == DiagnosticSeverity::Error
}

/// The ranges, labels and out-of-bounds flag of the trimmed entries, in order.
pub open spec fn entries_outcome(pieces: Seq<Seq<u8>>, max: u32, allow: bool) -> (Seq<LineRange>, Seq<(u32, Seq<u8>)>, bool)
    decreases pieces.len(),
{
    if pieces.len() == 0 {
        (Seq::empty(), Seq::empty(), false)
    } else {
        let prev = entries_outcome(pieces.drop_last(), max, allow);
        let cur = entry_outcome(trimmed(pieces.last()), max, allow);
        (prev.0 + cur.0, prev.1 + cur.1, prev.2 || cur.2)
    }
}

/// The tokens of an attribute list's inner text from `idx` on, as (start, end): runs
/// separated by Unicode whitespace outside quotes (each `"` opens or closes a quote), given
/// whether a quote is open and where the current token began.
pub open spec fn attr_tokens_from(s: Seq<u8>, idx: int, in_quotes: bool, start: Option<int>) -> Seq<(int, int)>
    decreases s.len() - idx,
{
    if idx >= s.len() || idx < 0 {
        match start {
            Some(st) => seq![(st, s.len() as int)],
            None => Seq::empty(),
        }
    } else {
        let q = if s[idx] == 34u8 {
            !in_quotes
        } else {
            in_quotes
        };
        let ws = crate::text::ws_len_at(s, idx);
        if ws > 0 && !q {
            let next = if ws <= s.len() - idx {
                idx + ws
            } else {
                s.len() as int
            };
            match start {
                Some(st) => seq![(st, idx)] + attr_tokens_from(s, next, q, None),
                None => attr_tokens_from(s, next, q, None),
            }
        } else {
            attr_tokens_from(s, idx + 1, q, if start is None { Some(idx) } else { start })
        }
    }
}

/// What the tokens of an attribute list's inner text `s` give, read in order (the list's first
/// byte at `base`): the label, from the first valid `#name` token, with its span; and the
/// items, one per `key=value` token with a key, the value unquoted when it is wrapped in `"`,
/// each as (key, value, value start, value end, quoted). Other tokens are errors and give
/// nothing.
pub open spec fn attr_read(s: Seq<u8>, toks: Seq<(int, int)>, base: int) -> (
    Option<(Seq<u8>, int, int)>,
    Seq<(Seq<u8>, Seq<u8>, int, int, bool)>,
)
    decreases toks.len(),
{
    if toks.len() == 0 {
        (None, Seq::empty())
    } else {
        let prev = attr_read(s, toks.drop_last(), base);
        let st = toks.last().0;
        let en = toks.last().1;
        let tok = s.subrange(st, en);
        if tok.len() > 0 && tok[0] == 35u8 {
            let name = tok.subrange(1, tok.len() as int);
            if prev.0 is Some || name.len() == 0 || !spec_valid_label(name) {
                prev
            } else {
                (Some((name, base + 1 + st + 1, base + 1 + en)), prev.1)
            }
        } else {
            match first_index(tok, 61u8) {
                None => prev,
                Some(p) => {
                    let key = tok.subrange(0, p);
                    let value = tok.subrange(p + 1, tok.len() as int);
                    let vlen = value.len() as int;
                    if key.len() == 0 {
                        prev
                    } else if vlen >= 2 && value[0] == 34u8 && value[vlen - 1] == 34u8 {
                        (prev.0, prev.1.push((key, value.subrange(1, vlen - 1), base + 1 + st + p + 2, base + 1 + en - 1, true)))
                    } else {
                        (prev.0, prev.1.push((key, value, base + 1 + st + p + 1, base + 1 + en, false)))
                    }
                },
            }
        }
    }
}

/// The label read, as a label.
pub open spec fn label_read(l: Option<Label>, r: Option<(Seq<u8>, int, int)>) -> bool {
    match r {
        Some(x) => l matches Some(lb) && lb.name@ == lossy_decode(x.0) && lb.span.start == x.1 && lb.span.end == x.2,
        None => l is None,
    }
}

/// An item as read.
pub open spec fn item_read(it: AttrItem, e: (Seq<u8>, Seq<u8>, int, int, bool)) -> bool {
    &&& it.key@ == lossy_decode(e.0)
    &&& it.value.raw@ == lossy_decode(e.1)
    &&& it.value.span.start == e.2
    &&& it.value.span.end == e.3
    &&& it.value.quoted == e.4
}

/// Items as read, place by place.
pub open spec fn items_read(its: Seq<AttrItem>, es: Seq<(Seq<u8>, Seq<u8>, int, int, bool)>) -> bool {
    its.len() == es.len() && forall|k: int| 0 <= k < its.len() ==> item_read(#[trigger] its[k], es[k])
}

/// Token bounds as integers.
pub open spec fn bounds_view(t: Seq<(usize, usize)>) -> Seq<(int, int)> {
    t.map_values(|p: (usize, usize)| (p.0 as int, p.1 as int))
}

impl Parser {
    /// Parses an attribute list `{#label key=value key="quoted value"}` whose first byte lies
    /// at `base_offset` in the source.
    pub fn parse_attr_list_text(&mut self, text: &[u8], base_offset: usize) -> (attrs: AttrList)
        requires
            base_offset + text@.len() <= old(self).src_len,
            old(self).src_len < usize::MAX,
        ensures
            attrs.span == Some(Span { start: base_offset, end: (base_offset + text@.len()) as usize }),
            attrs_in(attrs, old(self).src_len as nat),
            final(self).keeps(*old(self)),
            !braced(trimmed(text@)) ==> attrs.label is None && attrs.items@.len() == 0
                && final(self).diagnostics@.len() > 0 && final(self).diagnostics@.last().code == E_ATTR_SYNTAX,
            braced(trimmed(text@)) ==> ({
                let a = trim_start_at(text@, 0, text@.len() as int);
                let inner = text@.subrange(a + 1, trim_end_at(text@, a, text@.len() as int) - 1);
                let rd = attr_read(inner, attr_tokens_from(inner, 0, false, None), base_offset as int);
                label_read(attrs.label, rd.0) && items_read(attrs.items@, rd.1)
            }),
    {
        let ghost len = self.src_len as nat;
        let span = Span { start: base_offset, end: base_offset + text.len() };
        let mut attrs = AttrList { span: Some(span), label: None, items: Vec::new() };
        let (a, b) = trim_range(text, 0, text.len());
        proof {
            assert(trimmed(text@) =~= text@.subrange(a as int, b as int));
        }
        if a >= b || text[a] != 123u8 || text[b - 1] != 125u8 {
            self.push_diag(span, DiagnosticSeverity::Error, E_ATTR_SYNTAX, "invalid attribute list");
            return attrs;
        }
        // `inner` holds what lies between the braces; offsets below are relative to it.
        let inner_end: usize = if b - a >= 2 { b - 1 } else { a + 1 };
        let inner = copy_range(text, a + 1, inner_end);
        let n = inner.len();
        let mut tokens: Vec<(usize, usize)> = Vec::new();
        let mut in_quotes = false;
        let mut token_start: Option<usize> = None;
        let mut idx: usize = 0;
        proof {
            assert(bounds_view(tokens@) =~= Seq::<(int, int)>::empty());
            assert(bounds_view(tokens@) + attr_tokens_from(inner@, 0, false, None) =~= attr_tokens_from(
                inner@,
                0,
                false,
                None,
            ));
        }
        while idx < n
            invariant
                idx <= n,
                n == inner@.len(),
                forall|t: int| 0 <= t < tokens@.len() ==> (#[trigger] tokens@[t]).0 <= tokens@[t].1 <= n,
                token_start matches Some(s) ==> s <= idx,
                bounds_view(tokens@) + attr_tokens_from(
                    inner@,
                    idx as int,
                    in_quotes,
                    match token_start {
                        Some(s) => Some(s as int),
                        None => None,
                    },
                ) == attr_tokens_from(inner@, 0, false, None),
            decreases n - idx,
        {
            let ghost t0 = bounds_view(tokens@);
            let ghost st0: Option<int> = match token_start {
                Some(s) => Some(s as int),
                None => None,
            };
            let ghost q0 = in_quotes;
            let ghost i0 = idx as int;
            let ch = inner[idx];
            if ch == 34u8 {
                in_quotes = !in_quotes;
            }
            let ws = unicode_ws_at(inner.as_slice(), idx);
            if ws > 0 && !in_quotes {
                if let Some(s) = token_start {
                    tokens.push((s, idx));
                    token_start = None;
                    proof {
                        assert(bounds_view(tokens@) =~= t0.push((s as int, i0)));
                    }
                }
                idx = if ws <= n - idx { idx + ws } else { n };
            } else {
                if token_start.is_none() {
                    token_start = Some(idx);
                }
                idx = idx + 1;
            }
            proof {
                let rest = attr_tokens_from(
                    inner@,
                    idx as int,
                    in_quotes,
                    match token_start {
                        Some(s) => Some(s as int),
                        None => None,
                    },
                );
                assert(attr_tokens_from(inner@, i0, q0, st0) == (if st0 is Some && ws > 0 && !in_quotes {
                    seq![(st0->0, i0)] + rest
                } else {
                    rest
                }));
                assert(bounds_view(tokens@) + rest =~= t0 + attr_tokens_from(inner@, i0, q0, st0));
            }
        }
        if let Some(s) = token_start {
            let ghost t0 = bounds_view(tokens@);
            tokens.push((s, n));
            proof {
                assert(bounds_view(tokens@) =~= t0.push((s as int, n as int)));
            }
        }
        proof {
            assert(bounds_view(tokens@) =~= attr_tokens_from(inner@, 0, false, None));
        }
        let mut t: usize = 0;
        while t < tokens.len()
            invariant
                t <= tokens@.len(),
                n == inner@.len(),
                n + 2 <= text@.len(),
                base_offset + text@.len() <= len,
                len == self.src_len as nat,
                self.keeps(*old(self)),
                attrs_in(attrs, len),
                forall|q: int| 0 <= q < tokens@.len() ==> (#[trigger] tokens@[q]).0 <= tokens@[q].1 <= n,
                attrs.span == Some(span),
                span == (Span { start: base_offset, end: (base_offset + text@.len()) as usize }),
                bounds_view(tokens@) == attr_tokens_from(inner@, 0, false, None),
                label_read(attrs.label, attr_read(inner@, bounds_view(tokens@).take(t as int), base_offset as int).0),
                items_read(attrs.items@, attr_read(inner@, bounds_view(tokens@).take(t as int), base_offset as int).1),
            decreases tokens.len() - t,
        {
            proof {
                let bv = bounds_view(tokens@);
                assert(bv.take(t + 1).drop_last() =~= bv.take(t as int));
                assert(bv.take(t + 1).last() == bv[t as int]);
            }
            let ghost prev = attr_read(inner@, bounds_view(tokens@).take(t as int), base_offset as int);
            let ghost items_before = attrs.items@;
            let (start, end) = tokens[t];
            t = t + 1;
            let tok_span = Span { start: base_offset + 1 + start, end: base_offset + 1 + end };
            let token = copy_range(inner.as_slice(), start, end);
            if token.len() > 0 && token[0] == 35u8 {
                if attrs.label.is_some() {
                    self.push_diag(tok_span, DiagnosticSeverity::Error, E_ATTR_SYNTAX, "duplicate label");
                    continue;
                }
                let name = copy_range(token.as_slice(), 1, token.len());
                if name.len() == 0 || !is_valid_label(name.as_slice()) {
                    self.push_diag(
                        tok_span,
                        DiagnosticSeverity::Error,
                        E_ATTR_SYNTAX,
                        "invalid label syntax",
                    );
                    continue;
                }
                let label_span = Span { start: base_offset + 1 + start + 1, end: base_offset + 1 + end };
                attrs.label = Some(Label { name: string_from_bytes(name.as_slice()), span: label_span });
                continue;
            }
            let (key, value) = match split_once(token.as_slice(), 61u8) {
                Some(kv) => kv,
                None => {
                    self.push_diag(
                        tok_span,
                        DiagnosticSeverity::Error,
                        E_ATTR_SYNTAX,
                        "invalid attribute item",
                    );
                    continue;
                },
            };
            if key.len() == 0 {
                self.push_diag(tok_span, DiagnosticSeverity::Error, E_ATTR_SYNTAX, "invalid attribute item");
                continue;
            }
            let klen = key.len();
            let vlen = value.len();
            assert(klen + 1 + vlen == end - start);
            let (raw, quoted, value_span) = if vlen >= 2 && value[0] == 34u8 && value[vlen - 1]
                == 34u8 {
                (
                    copy_range(value.as_slice(), 1, vlen - 1),
                    true,
                    Span { start: base_offset + 1 + start + klen + 2, end: base_offset + 1 + end - 1 },
                )
            } else {
                (
                    value,
                    false,
                    Span { start: base_offset + 1 + start + klen + 1, end: base_offset + 1 + end },
                )
            };
            proof {
                let tokv = inner@.subrange(start as int, end as int);
                assert(token@ == tokv);
                lemma_first_index_bound(tokv, 61u8);
                assert(first_index(tokv, 61u8) == Some(klen as int));
                let rd = attr_read(inner@, bounds_view(tokens@).take(t as int), base_offset as int);
                assert(bounds_view(tokens@).take(t as int).last() == (start as int, end as int));
                assert(rd.1 == prev.1.push((key@, raw@, value_span.start as int, value_span.end as int, quoted)));
            }
            attrs.items.push(
                AttrItem {
                    key: string_from_bytes(key.as_slice()),
                    value: AttrValue {
                        raw: string_from_bytes(raw.as_slice()),
                        span: value_span,
                        quoted,
                    },
                },
            );
            proof {
                let rd = attr_read(inner@, bounds_view(tokens@).take(t as int), base_offset as int);
                assert forall|k: int| 0 <= k < attrs.items@.len() implies item_read(#[trigger] attrs.items@[k], rd.1[k]) by {
                    if k < items_before.len() {
                        assert(attrs.items@[k] == items_before[k]);
                    }
                }
            }
        }
        proof {
            assert(bounds_view(tokens@).take(tokens@.len() as int) =~= bounds_view(tokens@));
        }
        attrs
    }

    /// Warns about box style attributes whose values are not valid.
    pub fn validate_box_styles(&mut self, attrs: &AttrList)
        ensures
            final(self).keeps(*old(self)),
            final(self).diagnostics@.len() == old(self).diagnostics@.len() + invalid_styles(
                attrs.items@,
            ),
            final(self).diagnostics@.subrange(0, old(self).diagnostics@.len() as int)
                == old(self).diagnostics@,
    {
        let mut i: usize = 0;
        let ghost d0 = self.diagnostics@;
        while i < attrs.items.len()
            invariant
                i <= attrs.items@.len(),
                self.keeps(*old(self)),
                d0 == old(self).diagnostics@,
                self.diagnostics@.len() == d0.len() + invalid_styles(attrs.items@.take(i as int)),
                self.diagnostics@.subrange(0, d0.len() as int) == d0,
            decreases attrs.items.len() - i,
        {
            proof {
                assert(attrs.items@.take(i + 1).drop_last() =~= attrs.items@.take(i as int));
            }
            let ghost dbefore = self.diagnostics@;
            let item = &attrs.items[i];
            let key = string_bytes(&item.key);
            let raw = string_bytes(&item.value.raw);
            let (a, b) = trim_range(raw, 0, raw.len());
            let value = copy_range(raw, a, b);
            let v = value.as_slice();
            let invalid = if bytes_eq(key, "bg".as_bytes()) || bytes_eq(key, "title-bg".as_bytes())
                || bytes_eq(key, "border-color".as_bytes()) {
                !is_hex_color(v)
            } else if bytes_eq(key, "border-style".as_bytes()) {
                !is_border_style(v)
            } else if bytes_eq(key, "border-width".as_bytes()) {
                !is_border_width(v)
            } else {
                false
            };
            assert(invalid == style_invalid(attrs.items@[i as int]));
            if invalid {
                self.push_diag(
                    item.value.span,
                    DiagnosticSeverity::Warning,
                    W_BOX_STYLE_INVALID,
                    "invalid box style value",
                );
                proof {
                    assert(self.diagnostics@.subrange(0, d0.len() as int) =~= dbefore.subrange(
                        0,
                        d0.len() as int,
                    ));
                }
            }
            i = i + 1;
        }
        proof {
            assert(attrs.items@.take(i as int) =~= attrs.items@);
        }
    }

    /// Reads the `hl`, `diff_add` and `diff_del` attributes of a code block into line metadata:
    /// the last attribute of each key counts, and ranges outside the code's lines are dropped.
    pub fn parse_code_meta(
        &mut self,
        attrs: &AttrList,
        code_text: &[u8],
        line_start: usize,
        line_end: usize,
    ) -> (meta: CodeMeta)
        requires
            attrs_in(*attrs, old(self).src_len as nat),
        ensures
            final(self).keeps(*old(self)),
            forall|k: int| 0 <= k < meta.line_labels@.len() ==> label_in(
                (#[trigger] meta.line_labels@[k]).label,
                old(self).src_len as nat,
            ),
            forall|k: int| 0 <= k < meta.hl@.len() ==> 1 <= (#[trigger] meta.hl@[k]).start
                <= meta.hl@[k].end,
            forall|k: int| 0 <= k < meta.diff_add@.len() ==> 1 <= (#[trigger] meta.diff_add@[k]).start
                <= meta.diff_add@[k].end,
            forall|k: int| 0 <= k < meta.diff_del@.len() ==> 1 <= (#[trigger] meta.diff_del@[k]).start
                <= meta.diff_del@[k].end,
            overlap(meta.hl@, meta.diff_add@) || overlap(meta.hl@, meta.diff_del@) || overlap(
                meta.diff_add@,
                meta.diff_del@,
            ) ==> final(self).diagnostics@.len() > 0 && final(self).diagnostics@.last().code == E_CODE_CONFLICT
                && final(self).diagnostics@.last().severity == DiagnosticSeverity::Error,
            ({
                let total = line_total(code_text@);
                let hl = last_entries(attrs.items@, "hl".spec_bytes(), total, true);
                &&& meta.hl@ == kept_ranges(hl.0, total)
                &&& meta.diff_add@ == kept_ranges(last_entries(attrs.items@, "diff_add".spec_bytes(), total, false).0, total)
                &&& meta.diff_del@ == kept_ranges(last_entries(attrs.items@, "diff_del".spec_bytes(), total, false).0, total)
                &&& meta.line_labels@.len() == hl.1.len()
                &&& forall|k: int| 0 <= k < meta.line_labels@.len() ==> (#[trigger] meta.line_labels@[k]).line
                    == hl.1[k].0 && meta.line_labels@[k].label.name@ == lossy_decode(hl.1[k].1)
            }),
            ({
                let total = line_total(code_text@);
                let h = last_entries(attrs.items@, "hl".spec_bytes(), total, true).0;
                let a = last_entries(attrs.items@, "diff_add".spec_bytes(), total, false).0;
                let d = last_entries(attrs.items@, "diff_del".spec_bytes(), total, false).0;
                reports(final(self).diagnostics@) == reports(old(self).diagnostics@) + meta_reports(attrs.items@, total)
                    + (if overlap(h, a) || overlap(h, d) || overlap(a, d) {
                    seq![(E_CODE_CONFLICT, DiagnosticSeverity::Error)]
                } else {
                    Seq::empty()
                })
            }),
    {
        let total_lines = crate::scan::count_lines(code_text);
        proof {
            lemma_meta_keys_differ();
            assert(attrs.items@.take(0) =~= Seq::<AttrItem>::empty());
        }
        let mut meta = CodeMeta {
            hl: Vec::new(),
            diff_add: Vec::new(),
            diff_del: Vec::new(),
            line_labels: Vec::new(),
        };
        let mut i: usize = 0;
        while i < attrs.items.len()
            invariant
                i <= attrs.items@.len(),
                self.keeps(*old(self)),
                reports(self.diagnostics@) == reports(old(self).diagnostics@) + meta_reports(
                    attrs.items@.take(i as int),
                    total_lines,
                ),
                attrs_in(*attrs, self.src_len as nat),
                forall|k: int| 0 <= k < meta.line_labels@.len() ==> label_in(
                    (#[trigger] meta.line_labels@[k]).label,
                    self.src_len as nat,
                ),
                total_lines == line_total(code_text@),
                "hl".spec_bytes() != "diff_add".spec_bytes(),
                "hl".spec_bytes() != "diff_del".spec_bytes(),
                "diff_add".spec_bytes() != "diff_del".spec_bytes(),
                meta.hl@ == last_entries(attrs.items@.take(i as int), "hl".spec_bytes(), total_lines, true).0,
                meta.diff_add@ == last_entries(attrs.items@.take(i as int), "diff_add".spec_bytes(), total_lines, false).0,
                meta.diff_del@ == last_entries(attrs.items@.take(i as int), "diff_del".spec_bytes(), total_lines, false).0,
                ({
                    let hl = last_entries(attrs.items@.take(i as int), "hl".spec_bytes(), total_lines, true);
                    &&& meta.line_labels@.len() == hl.1.len()
                    &&& forall|k: int| 0 <= k < meta.line_labels@.len() ==> (#[trigger] meta.line_labels@[k]).line
                        == hl.1[k].0 && meta.line_labels@[k].label.name@ == lossy_decode(hl.1[k].1)
                }),
            decreases attrs.items.len() - i,
        {
            let item = &attrs.items[i];
            proof {
                let items = attrs.items@;
                assert(items.take(i + 1).drop_last() =~= items.take(i as int));
                assert(items.take(i + 1).last() == items[i as int]);
            }
            let key = string_bytes(&item.key);
            let ghost d0 = self.diagnostics@;
            let ghost items = attrs.items@;
            if bytes_eq(key, "hl".as_bytes()) {
                let (ranges, labels, oob) = self.parse_line_ranges(item, total_lines, true);
                let ghost d1 = self.diagnostics@;
                proof {
                    lemma_reports_errors(d0, d1, malformed_entries(comma_pieces(encode_utf8(item.value.raw@)), total_lines, true));
                }
                meta.hl = ranges;
                meta.line_labels = labels;
                if oob {
                    self.push_diag(
                        item.value.span,
                        DiagnosticSeverity::Warning,
                        W_CODE_RANGE_OOB,
                        "code line range out of bounds",
                    );
                    proof {
                        lemma_reports_push(d1, self.diagnostics@);
                    }
                }
                proof {
                    assert(reports(self.diagnostics@) =~= reports(old(self).diagnostics@) + meta_reports(
                        items.take(i + 1),
                        total_lines,
                    ));
                }
            } else if bytes_eq(key, "diff_add".as_bytes()) {
                let (ranges, _labels, oob) = self.parse_line_ranges(item, total_lines, false);
                let ghost d1 = self.diagnostics@;
                proof {
                    lemma_reports_errors(d0, d1, malformed_entries(comma_pieces(encode_utf8(item.value.raw@)), total_lines, false));
                }
                meta.diff_add = ranges;
                if oob {
                    self.push_diag(
                        item.value.span,
                        DiagnosticSeverity::Warning,
                        W_CODE_RANGE_OOB,
                        "code line range out of bounds",
                    );
                    proof {
                        lemma_reports_push(d1, self.diagnostics@);
                    }
                }
                proof {
                    assert(reports(self.diagnostics@) =~= reports(old(self).diagnostics@) + meta_reports(
                        items.take(i + 1),
                        total_lines,
                    ));
                }
            } else if bytes_eq(key, "diff_del".as_bytes()) {
                let (ranges, _labels, oob) = self.parse_line_ranges(item, total_lines, false);
                let ghost d1 = self.diagnostics@;
                proof {
                    lemma_reports_errors(d0, d1, malformed_entries(comma_pieces(encode_utf8(item.value.raw@)), total_lines, false));
                }
                meta.diff_del = ranges;
                if oob {
                    self.push_diag(
                        item.value.span,
                        DiagnosticSeverity::Warning,
                        W_CODE_RANGE_OOB,
                        "code line range out of bounds",
                    );
                    proof {
                        lemma_reports_push(d1, self.diagnostics@);
                    }
                }
                proof {
                    assert(reports(self.diagnostics@) =~= reports(old(self).diagnostics@) + meta_reports(
                        items.take(i + 1),
                        total_lines,
                    ));
                }
            }
            i = i + 1;
        }
        proof {
            assert(attrs.items@.take(attrs.items@.len() as int) =~= attrs.items@);
        }
        if ranges_overlap(meta.hl.as_slice(), meta.diff_add.as_slice()) || ranges_overlap(
            meta.hl.as_slice(),
            meta.diff_del.as_slice(),
        ) || ranges_overlap(meta.diff_add.as_slice(), meta.diff_del.as_slice()) {
            let span = match attrs.span {
                Some(s) => s,
                None => Span { start: line_start, end: line_end },
            };
            let ghost d2 = self.diagnostics@;
            self.push_diag(span, DiagnosticSeverity::Error, E_CODE_CONFLICT, "code line meta conflicts");
            proof {
                lemma_reports_push(d2, self.diagnostics@);
            }
        }
        let ghost (h0, a0, d0) = (meta.hl@, meta.diff_add@, meta.diff_del@);
        let hl = clamp_ranges(meta.hl, total_lines);
        let add = clamp_ranges(meta.diff_add, total_lines);
        let del = clamp_ranges(meta.diff_del, total_lines);
        proof {
            lemma_kept_overlap(h0, a0, total_lines);
            lemma_kept_overlap(h0, d0, total_lines);
            lemma_kept_overlap(a0, d0, total_lines);
        }
        CodeMeta { hl, diff_add: add, diff_del: del, line_labels: meta.line_labels }
    }

    /// One entry of a line-range list (already trimmed): its range, its label and whether it
    /// was out of bounds; malformed entries are reported.
    fn line_entry(&mut self, entry: &[u8], max_lines: u32, allow_labels: bool, vspan: Span) -> (r: (
        Option<LineRange>,
        Option<LineLabel>,
        bool,
    ))
        requires
            span_in(vspan, old(self).src_len as nat),
        ensures
            final(self).keeps(*old(self)),
            ({
                let o = entry_outcome(entry@, max_lines, allow_labels);
                &&& o.0 == match r.0 {
                    Some(x) => seq![x],
                    None => Seq::empty(),
                }
                &&& o.1.len() == (if r.1 is Some { 1int } else { 0int })
                &&& (r.1 matches Some(l) ==> o.1[0].0 == l.line && l.label.name@ == lossy_decode(o.1[0].1)
                    && l.label.span == vspan)
                &&& r.2 == o.2
            }),
            r.0 matches Some(x) ==> 1 <= x.start <= x.end <= max_lines,
            r.1 matches Some(l) ==> 1 <= l.line <= max_lines && label_in(l.label, old(self).src_len as nat),
            final(self).diagnostics@.len() == old(self).diagnostics@.len() + (if entry_malformed(
                entry@,
                max_lines,
                allow_labels,
            ) {
                1int
            } else {
                0int
            }),
            syntax_errors_from(final(self).diagnostics@, old(self).diagnostics@.len() as int),
    {
        let none = (None, None, false);
        if entry.len() == 0 {
            return none;
        }
        let has_colon = contains_byte(entry, 0, entry.len(), 58u8);
        let colon = split_once(entry, 58u8);
        proof {
            lemma_first_index_bound(entry@, 58u8);
            if first_index(entry@, 58u8) is None {
                lemma_first_index_none(entry@, 58u8);
            }
        }
        if !allow_labels && has_colon {
            self.push_diag(vspan, DiagnosticSeverity::Error, E_ATTR_SYNTAX, "unexpected label in code range");
            return none;
        }
        if allow_labels {
            if let Some((range_part, label_part)) = colon {
                match parse_u32(range_part.as_slice()) {
                    Some(line) => {
                        if line == 0 {
                            self.push_diag(vspan, DiagnosticSeverity::Error, E_ATTR_SYNTAX, "invalid line number");
                            return none;
                        }
                        if max_lines == 0 || line > max_lines {
                            return (None, None, true);
                        }
                        if !is_valid_label(label_part.as_slice()) {
                            self.push_diag(vspan, DiagnosticSeverity::Error, E_ATTR_SYNTAX, "invalid label syntax");
                            return none;
                        }
                        let label = LineLabel {
                            line,
                            label: Label { name: string_from_bytes(label_part.as_slice()), span: vspan },
                        };
                        return (Some(LineRange { start: line, end: line }), Some(label), false);
                    },
                    None => {
                        self.push_diag(vspan, DiagnosticSeverity::Error, E_ATTR_SYNTAX, "invalid line range");
                        return none;
                    },
                }
            }
        }
        let dash = split_once(entry, 45u8);
        if let Some((s_part, e_part)) = dash {
            match (parse_u32(s_part.as_slice()), parse_u32(e_part.as_slice())) {
                (Some(s), Some(e)) => {
                    if s == 0 || e == 0 || e < s {
                        self.push_diag(vspan, DiagnosticSeverity::Error, E_ATTR_SYNTAX, "invalid line range");
                        return none;
                    }
                    if max_lines == 0 || s > max_lines || e > max_lines {
                        return (None, None, true);
                    }
                    return (Some(LineRange { start: s, end: e }), None, false);
                },
                _ => {
                    self.push_diag(vspan, DiagnosticSeverity::Error, E_ATTR_SYNTAX, "invalid line range");
                    return none;
                },
            }
        }
        match parse_u32(entry) {
            Some(line) => {
                if line == 0 {
                    self.push_diag(vspan, DiagnosticSeverity::Error, E_ATTR_SYNTAX, "invalid line number");
                    return none;
                }
                if max_lines == 0 || line > max_lines {
                    return (None, None, true);
                }
                (Some(LineRange { start: line, end: line }), None, false)
            },
            None => {
                self.push_diag(vspan, DiagnosticSeverity::Error, E_ATTR_SYNTAX, "invalid line range");
                none
            },
        }
    }

    /// Parses a comma separated list of line numbers, `a-b` ranges and (when allowed)
    /// `line:label` entries; the flag tells whether some entry was out of bounds. The result
    /// is `entries_outcome` of the trimmed entries, each label named by its text.
    pub fn parse_line_ranges(&mut self, item: &AttrItem, max_lines: u32, allow_labels: bool) -> (r: (
        Vec<LineRange>,
        Vec<LineLabel>,
        bool,
    ))
        requires
            span_in(item.value.span, old(self).src_len as nat),
        ensures
            final(self).keeps(*old(self)),
            ({
                let o = entries_outcome(comma_pieces(encode_utf8(item.value.raw@)), max_lines, allow_labels);
                &&& r.0@ == o.0
                &&& r.1@.len() == o.1.len()
                &&& forall|k: int| 0 <= k < r.1@.len() ==> (#[trigger] r.1@[k]).line == o.1[k].0
                    && r.1@[k].label.name@ == lossy_decode(o.1[k].1) && r.1@[k].label.span == item.value.span
                &&& r.2 == o.2
            }),
            forall|k: int| 0 <= k < r.1@.len() ==> label_in((#[trigger] r.1@[k]).label, old(self).src_len as nat),
            forall|k: int| 0 <= k < r.0@.len() ==> 1 <= (#[trigger] r.0@[k]).start <= r.0@[k].end
                <= max_lines,
            forall|k: int| 0 <= k < r.1@.len() ==> 1 <= (#[trigger] r.1@[k]).line <= max_lines,
            final(self).diagnostics@.len() == old(self).diagnostics@.len() + malformed_entries(
                comma_pieces(encode_utf8(item.value.raw@)),
                max_lines,
                allow_labels,
            ),
            syntax_errors_from(final(self).diagnostics@, old(self).diagnostics@.len() as int),
    {
        let mut ranges: Vec<LineRange> = Vec::new();
        let mut labels: Vec<LineLabel> = Vec::new();
        let mut out_of_bounds = false;
        let raw = string_bytes(&item.value.raw);
        let vspan = item.value.span;
        let mut pos: usize = 0;
        let total = raw.len();
        let mut done = false;
        proof {
            assert(raw@.take(0) =~= Seq::<u8>::empty());
            assert(comma_pieces(raw@.take(0)).drop_last() =~= Seq::<Seq<u8>>::empty());
        }
        while !done
            invariant
                pos <= total,
                total == raw@.len(),
                !done ==> comma_pieces(raw@.take(pos as int)).len() >= 1 && comma_pieces(raw@.take(pos as int)).last()
                    == Seq::<u8>::empty(),
                ({
                    let o = entries_outcome(pieces_read(raw@, pos as int, done), max_lines, allow_labels);
                    &&& ranges@ == o.0
                    &&& labels@.len() == o.1.len()
                    &&& forall|k: int| 0 <= k < labels@.len() ==> (#[trigger] labels@[k]).line == o.1[k].0
                        && labels@[k].label.name@ == lossy_decode(o.1[k].1) && labels@[k].label.span == vspan
                    &&& out_of_bounds == o.2
                }),
                forall|k: int| 0 <= k < ranges@.len() ==> 1 <= (#[trigger] ranges@[k]).start
                    <= ranges@[k].end <= max_lines,
                forall|k: int| 0 <= k < labels@.len() ==> 1 <= (#[trigger] labels@[k]).line
                    <= max_lines,
                forall|k: int| 0 <= k < labels@.len() ==> label_in((#[trigger] labels@[k]).label, self.src_len as nat),
                self.keeps(*old(self)),
                self.diagnostics@.len() == old(self).diagnostics@.len() + malformed_entries(
                    pieces_read(raw@, pos as int, done),
                    max_lines,
                    allow_labels,
                ),
                syntax_errors_from(self.diagnostics@, old(self).diagnostics@.len() as int),
                vspan == item.value.span,
                span_in(vspan, self.src_len as nat),
            decreases total - pos, if done { 0int } else { 1int },
        {
            // The next comma-separated entry is raw[pos..stop].
            let mut stop = pos;
            while stop < total && raw[stop] != 44u8
                invariant
                    pos <= stop <= total,
                    total == raw@.len(),
                    forall|k: int| pos <= k < stop ==> raw@[k] != 44u8,
                decreases total - stop,
            {
                stop = stop + 1;
            }
            let ghost prev = entries_outcome(pieces_read(raw@, pos as int, done), max_lines, allow_labels);
            let ghost prev_bad = malformed_entries(pieces_read(raw@, pos as int, done), max_lines, allow_labels);
            let ghost d_before = self.diagnostics@;
            let piece = copy_range(raw, pos, stop);
            proof {
                lemma_comma_pieces_run(raw@, pos as int, stop as int);
                let r0 = comma_pieces(raw@.take(pos as int));
                let r1 = comma_pieces(raw@.take(stop as int));
                assert(r0.last() + piece@ =~= piece@);
                assert(r1.drop_last() =~= r0.drop_last());
                assert(r1.last() == piece@);
            }
            let (a, b) = trim_range(piece.as_slice(), 0, piece.len());
            let entry = copy_range(piece.as_slice(), a, b);
            proof {
                assert(entry@ =~= trimmed(piece@));
            }
            let ghost old_pos = pos;
            if stop < total {
                pos = stop + 1;
                proof {
                    assert(raw@.take(stop + 1).drop_last() =~= raw@.take(stop as int));
                    assert(raw@.take(stop + 1).last() == 44u8);
                    let r1 = comma_pieces(raw@.take(stop as int));
                    assert(comma_pieces(raw@.take(pos as int)) == r1.push(Seq::<u8>::empty()));
                    assert(comma_pieces(raw@.take(pos as int)).drop_last() =~= r1);
                    assert(r1 =~= comma_pieces(raw@.take(old_pos as int)).drop_last().push(piece@));
                }
            } else {
                pos = total;
                done = true;
                proof {
                    assert(raw@.take(total as int) =~= raw@);
                    let r1 = comma_pieces(raw@.take(stop as int));
                    assert(r1 =~= comma_pieces(raw@.take(old_pos as int)).drop_last().push(piece@));
                }
            }
            let ghost d_mid = self.diagnostics@;
            let (range, label, oob) = self.line_entry(entry.as_slice(), max_lines, allow_labels, vspan);
            let ghost cur = entry_outcome(entry@, max_lines, allow_labels);
            proof {
                let ps = pieces_read(raw@, pos as int, done);
                assert(ps.drop_last() == pieces_read(raw@, old_pos as int, false));
                assert(ps.last() == piece@);
                assert(malformed_entries(ps, max_lines, allow_labels) == prev_bad + (if entry_malformed(
                    entry@,
                    max_lines,
                    allow_labels,
                ) {
                    1nat
                } else {
                    0nat
                }));
                assert forall|k: int| old(self).diagnostics@.len() <= k < self.diagnostics@.len() implies (
                #[trigger] self.diagnostics@[k]).code == E_ATTR_SYNTAX && self.diagnostics@[k].severity
                    == DiagnosticSeverity::Error by {
                    if k < d_mid.len() {
                        assert(self.diagnostics@[k] == d_mid[k]);
                    }
                }
            }
            if let Some(x) = range {
                ranges.push(x);
            }
            if let Some(l) = label {
                labels.push(l);
            }
            if oob {
                out_of_bounds = true;
            }
            proof {
                let o = entries_outcome(pieces_read(raw@, pos as int, done), max_lines, allow_labels);
                assert(o == (prev.0 + cur.0, prev.1 + cur.1, prev.2 || cur.2));
                assert(ranges@ =~= o.0);
                assert forall|k: int| 0 <= k < labels@.len() implies (#[trigger] labels@[k]).line == o.1[k].0
                    && labels@[k].label.name@ == lossy_decode(o.1[k].1) && labels@[k].label.span == vspan by {
                    if k < prev.1.len() {
                        assert(o.1[k] == prev.1[k]);
                    } else {
                        assert(o.1[k] == cur.1[0]);
                    }
                }
            }
        }
        (ranges, labels, out_of_bounds)
    }
}

/// Whether some range of `left` shares a line with some range of `right`.
pub fn ranges_overlap(left: &[LineRange], right: &[LineRange]) -> (r: bool)
    ensures
        r == exists|i: int, j: int|
            0 <= i < left@.len() && 0 <= j < right@.len() && #[trigger] left@[i].start
                <= #[trigger] right@[j].end && right@[j].start <= left@[i].end,
{
    let mut i: usize = 0;
    while i < left.len()
        invariant
            i <= left@.len(),
            forall|p: int, q: int|
                0 <= p < i && 0 <= q < right@.len() ==> !(#[trigger] left@[p].start
                    <= #[trigger] right@[q].end && right@[q].start <= left@[p].end),
        decreases left.len() - i,
    {
        let mut j: usize = 0;
        while j < right.len()
            invariant
                i < left@.len(),
                j <= right@.len(),
                forall|p: int, q: int|
                    0 <= p < i && 0 <= q < right@.len() ==> !(#[trigger] left@[p].start
                        <= #[trigger] right@[q].end && right@[q].start <= left@[p].end),
                forall|q: int|
                    0 <= q < j ==> !(left@[i as int].start <= #[trigger] right@[q].end
                        && right@[q].start <= left@[i as int].end),
            decreases right.len() - j,
        {
            let a = left[i];
            let b = right[j];
            if a.start <= b.end && b.start <= a.end {
                return true;
            }
            j = j + 1;
        }
        i = i + 1;
    }
    false
}

/// A range is kept when it is non-empty and lies within `1..=max_lines`.
pub open spec fn range_kept(x: LineRange, max_lines: u32) -> bool {
    x.start >= 1 && x.end >= x.start && x.start <= max_lines && x.end <= max_lines
}

/// The ranges that are kept, in order.
pub open spec fn kept_ranges(s: Seq<LineRange>, max_lines: u32) -> Seq<LineRange>
    decreases s.len(),
{
    if s.len() == 0 {
        s
    } else if range_kept(s.last(), max_lines) {
        kept_ranges(s.drop_last(), max_lines).push(s.last())
    } else {
        kept_ranges(s.drop_last(), max_lines)
    }
}

proof fn lemma_kept_ranges(s: Seq<LineRange>, max_lines: u32)
    ensures
        forall|k: int| 0 <= k < kept_ranges(s, max_lines).len() ==> range_kept(
            #[trigger] kept_ranges(s, max_lines)[k],
            max_lines,
        ),
    decreases s.len(),
{
    if s.len() > 0 {
        lemma_kept_ranges(s.drop_last(), max_lines);
        let prev = kept_ranges(s.drop_last(), max_lines);
        let cur = kept_ranges(s, max_lines);
        assert forall|k: int| 0 <= k < cur.len() implies range_kept(#[trigger] cur[k], max_lines) by {
            if k < prev.len() {
                assert(cur[k] == prev[k]);
            }
        }
    }
}

/// Keeps the ranges that are non-empty and lie within `1..=max_lines`, in order.
pub fn clamp_ranges(ranges: Vec<LineRange>, max_lines: u32) -> (r: Vec<LineRange>)
    ensures
        r@ == kept_ranges(ranges@, max_lines),
        forall|k: int| 0 <= k < r@.len() ==> range_kept(#[trigger] r@[k], max_lines),
{
    let mut out: Vec<LineRange> = Vec::new();
    let mut i: usize = 0;
    while i < ranges.len()
        invariant
            i <= ranges@.len(),
            out@ == kept_ranges(ranges@.take(i as int), max_lines),
        decreases ranges.len() - i,
    {
        let x = ranges[i];
        proof {
            assert(ranges@.take(i + 1).drop_last() == ranges@.take(i as int));
        }
        if x.start >= 1 && x.end >= x.start && x.start <= max_lines && x.end <= max_lines {
            out.push(x);
        }
        i = i + 1;
    }
    proof {
        assert(ranges@.take(ranges@.len() as int) == ranges@);
        lemma_kept_ranges(ranges@, max_lines);
    }
    out
}


/// Some range of `left` shares a line with some range of `right`.
pub open spec fn overlap(left: Seq<LineRange>, right: Seq<LineRange>) -> bool {
    exists|i: int, j: int|
        0 <= i < left.len() && 0 <= j < right.len() && #[trigger] left[i].start <= #[trigger] right[j].end
            && right[j].start <= left[i].end
}

/// Every range kept is one of the ranges.
proof fn lemma_kept_from(s: Seq<LineRange>, max_lines: u32)
    ensures
        forall|k: int| 0 <= k < kept_ranges(s, max_lines).len() ==> exists|m: int| 0 <= m < s.len()
            && s[m] == #[trigger] kept_ranges(s, max_lines)[k],
    decreases s.len(),
{
    if s.len() > 0 {
        lemma_kept_from(s.drop_last(), max_lines);
        let prev = kept_ranges(s.drop_last(), max_lines);
        let cur = kept_ranges(s, max_lines);
        assert forall|k: int| 0 <= k < cur.len() implies exists|m: int| 0 <= m < s.len() && s[m] == #[trigger] cur[k] by {
            if k < prev.len() {
                assert(cur[k] == prev[k]);
                let m = choose|m: int| 0 <= m < s.drop_last().len() && s.drop_last()[m] == #[trigger] prev[k];
                assert(s[m] == cur[k]);
            } else {
                assert(cur[k] == s.last());
                assert(s[s.len() - 1] == cur[k]);
            }
        }
    }
}

/// Kept ranges that overlap come from ranges that overlap.
proof fn lemma_kept_overlap(a: Seq<LineRange>, b: Seq<LineRange>, max_lines: u32)
    ensures
        overlap(kept_ranges(a, max_lines), kept_ranges(b, max_lines)) ==> overlap(a, b),
{
    lemma_kept_from(a, max_lines);
    lemma_kept_from(b, max_lines);
    let ka = kept_ranges(a, max_lines);
    let kb = kept_ranges(b, max_lines);
    if overlap(ka, kb) {
        let (i, j) = choose|i: int, j: int|
            0 <= i < ka.len() && 0 <= j < kb.len() && #[trigger] ka[i].start <= #[trigger] kb[j].end && kb[j].start
                <= ka[i].end;
        let mi = choose|m: int| 0 <= m < a.len() && a[m] == #[trigger] ka[i];
        let mj = choose|m: int| 0 <= m < b.len() && b[m] == #[trigger] kb[j];
        assert(a[mi].start <= b[mj].end && b[mj].start <= a[mi].end);
    }
}


/// Without the byte in `s`, there is no first index of it; with it, there is.
proof fn lemma_first_index_none(s: Seq<u8>, b: u8)
    ensures
        first_index(s, b) is None <==> forall|k: int| 0 <= k < s.len() ==> s[k] != b,
    decreases s.len(),
{
    if s.len() > 0 {
        let rest = s.subrange(1, s.len() as int);
        lemma_first_index_none(rest, b);
        if first_index(s, b) is None {
            assert forall|k: int| 0 <= k < s.len() implies s[k] != b by {
                if k > 0 {
                    assert(s[k] == rest[k - 1]);
                }
            }
        }
        if forall|k: int| 0 <= k < s.len() ==> s[k] != b {
            assert forall|k: int| 0 <= k < rest.len() implies rest[k] != b by {
                assert(rest[k] == s[k + 1]);
            }
        }
    }
}


/// The entries of the last attribute with the key (none when no attribute has it).
pub open spec fn last_entries(items: Seq<AttrItem>, key: Seq<u8>, max: u32, allow: bool) -> (
    Seq<LineRange>,
    Seq<(u32, Seq<u8>)>,
    bool,
)
    decreases items.len(),
{
    if items.len() == 0 {
        (Seq::empty(), Seq::empty(), false)
    } else if encode_utf8(items.last().key@) == key {
        entries_outcome(comma_pieces(encode_utf8(items.last().value.raw@)), max, allow)
    } else {
        last_entries(items.drop_last(), key, max, allow)
    }
}

/// The codes and severities of diagnostics, in order.
pub open spec fn reports(ds: Seq<Diagnostic>) -> Seq<(&'static str, DiagnosticSeverity)> {
    ds.map_values(|d: Diagnostic| (d.code, d.severity))
}

/// What the line attributes of a code block report, in order: for each `hl`, `diff_add` and
/// `diff_del` attribute, a syntax error per malformed entry, then a warning when some entry is
/// out of bounds.
pub open spec fn meta_reports(items: Seq<AttrItem>, total: u32) -> Seq<(&'static str, DiagnosticSeverity)>
    decreases items.len(),
{
    if items.len() == 0 {
        Seq::empty()
    } else {
        let k = encode_utf8(items.last().key@);
        let prev = meta_reports(items.drop_last(), total);
        if k == "hl".spec_bytes() || k == "diff_add".spec_bytes() || k == "diff_del".spec_bytes() {
            let pieces = comma_pieces(encode_utf8(items.last().value.raw@));
            let allow = k == "hl".spec_bytes();
            prev + Seq::new(malformed_entries(pieces, total, allow), |i: int| (E_ATTR_SYNTAX, DiagnosticSeverity::Error))
                + (if entries_outcome(pieces, total, allow).2 {
                seq![(W_CODE_RANGE_OOB, DiagnosticSeverity::Warning)]
            } else {
                Seq::empty()
            })
        } else {
            prev
        }
    }
}

/// Diagnostics that keep `a` and add `n` syntax errors report those.
proof fn lemma_reports_errors(a: Seq<Diagnostic>, b: Seq<Diagnostic>, n: nat)
    requires
        b.len() == a.len() + n,
        forall|k: int| 0 <= k < a.len() ==> #[trigger] b[k] == a[k],
        syntax_errors_from(b, a.len() as int),
    ensures
        reports(b) == reports(a) + Seq::new(n, |i: int| (E_ATTR_SYNTAX, DiagnosticSeverity::Error)),
{
    assert forall|k: int| 0 <= k < b.len() implies #[trigger] reports(b)[k] == (reports(a) + Seq::new(
        n,
        |i: int| (E_ATTR_SYNTAX, DiagnosticSeverity::Error),
    ))[k] by {
        if k < a.len() {
            assert(b[k] == a[k]);
        } else {
            assert(b[k].code == E_ATTR_SYNTAX);
        }
    }
    assert(reports(b) =~= reports(a) + Seq::new(n, |i: int| (E_ATTR_SYNTAX, DiagnosticSeverity::Error)));
}

/// Adding a diagnostic adds its report.
proof fn lemma_reports_push(a: Seq<Diagnostic>, b: Seq<Diagnostic>)
    requires
        b.len() == a.len() + 1,
        b.drop_last() == a,
    ensures
        reports(b) == reports(a).push((b.last().code, b.last().severity)),
{
    assert(b == a.push(b.last()));
    assert(reports(b) =~= reports(a).push((b.last().code, b.last().severity)));
}

/// The three code meta keys are different texts.
proof fn lemma_meta_keys_differ()
    ensures
        "hl".spec_bytes() != "diff_add".spec_bytes(),
        "hl".spec_bytes() != "diff_del".spec_bytes(),
        "diff_add".spec_bytes() != "diff_del".spec_bytes(),
{
    reveal_strlit("hl");
    reveal_strlit("diff_add");
    reveal_strlit("diff_del");
    assert(vstd::string::is_ascii("hl"));
    assert(vstd::string::is_ascii("diff_add"));
    assert(vstd::string::is_ascii("diff_del"));
    vstd::string::is_ascii_spec_bytes("hl");
    vstd::string::is_ascii_spec_bytes("diff_add");
    vstd::string::is_ascii_spec_bytes("diff_del");
    assert("diff_add".spec_bytes()[5] != "diff_del".spec_bytes()[5]);
}


/// A text that starts with `{` and ends with `}`.
pub open spec fn braced(t: Seq<u8>) -> bool {
    t.len() > 0 && t[0] == 123u8 && t.last() == 125u8
}

} // verus!
