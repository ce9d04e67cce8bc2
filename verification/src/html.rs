use vstd::prelude::*;
use vstd::string::StringSliceAdditionalSpecFns;
use crate::text::{
    ascii_alpha, ascii_alnum, ascii_ws, ascii_lower, bytes_start_with, eq_ignore_ascii_case, find_from,
    contains_byte, is_alpha, is_alnum, is_ascii_ws, is_space_tab, lower, starts_at, find_at,
};
use crate::scan::{strip_indent_up_to, indent_end};

verus! {

/// The seven kinds of HTML block start conditions; `Type1` carries the tag that ends it
/// (0 `pre`, 1 `script`, 2 `style`, 3 `textarea`).
#[derive(Clone, Copy, Debug, PartialEq, Eq, Structural)]
pub enum HtmlBlockKind {
    Type1(u8),
    Type2,
    Type3,
    Type4,
    Type5,
    Type6,
    Type7,
}

/// A tag name found at the start of a text: its byte range and whether it is a closing tag.
pub struct HtmlTag {
    pub name_start: usize,
    pub after: usize,
    pub closing: bool,
}

/// The end of a tag name's letters, digits and hyphens from byte `i` on.
pub open spec fn name_end(s: Seq<u8>, i: int) -> int
    decreases s.len() - i,
{
    if 0 <= i < s.len() && (is_alnum(s[i]) || s[i] == 45u8) {
        name_end(s, i + 1)
    } else {
        i
    }
}

/// A tag at the start of a text: `<` or `</`, then a letter and more letters, digits or
/// hyphens; the name's range and whether the tag closes.
pub open spec fn html_tag(s: Seq<u8>) -> Option<(int, int, bool)> {
    if s.len() == 0 || s[0] != 60u8 {
        None
    } else {
        let closing = s.len() > 1 && s[1] == 47u8;
        let st: int = if closing { 2 } else { 1 };
        if st >= s.len() || !is_alpha(s[st]) {
            None
        } else {
            Some((st, name_end(s, st + 1), closing))
        }
    }
}

/// What may follow a tag name: the end of the text, ASCII whitespace, `>` or `/`.
pub open spec fn tag_boundary(s: Seq<u8>, i: int) -> bool {
    i >= s.len() || is_ascii_ws(s[i]) || s[i] == 62u8 || s[i] == 47u8
}

/// Two byte strings that are equal when ASCII letters are lowercased.
pub open spec fn same_ignoring_case(a: Seq<u8>, b: Seq<u8>) -> bool {
    a.len() == b.len() && forall|k: int| 0 <= k < a.len() ==> lower(a[k]) == lower(b[k])
}

/// The ending tag code of a type-1 tag name.
pub open spec fn type1_code(name: Seq<u8>) -> Option<u8> {
    if same_ignoring_case(name, "pre".spec_bytes()) {
        Some(0u8)
    } else if same_ignoring_case(name, "script".spec_bytes()) {
        Some(1u8)
    } else if same_ignoring_case(name, "style".spec_bytes()) {
        Some(2u8)
    } else if same_ignoring_case(name, "textarea".spec_bytes()) {
        Some(3u8)
    } else {
        None
    }
}

pub proof fn lemma_name_end_bounds(s: Seq<u8>, i: int)
    requires
        0 <= i <= s.len(),
    ensures
        i <= name_end(s, i) <= s.len(),
    decreases s.len() - i,
{
    if i < s.len() && (is_alnum(s[i]) || s[i] == 45u8) {
        lemma_name_end_bounds(s, i + 1);
    }
}

pub fn parse_html_tag_name(text: &[u8]) -> (r: Option<HtmlTag>)
    ensures
        r matches Some(t) ==> 1 <= t.name_start < t.after <= text@.len(),
        match html_tag(text@) {
            Some((st, e, c)) => r matches Some(t) && t.name_start == st && t.after == e
                && t.closing == c,
            None => r is None,
        },
{
    if text.len() == 0 || text[0] != 60u8 {
        return None;
    }
    let mut idx: usize = 1;
    let mut closing = false;
    if idx < text.len() && text[idx] == 47u8 {
        closing = true;
        idx = idx + 1;
    }
    if idx >= text.len() || !ascii_alpha(text[idx]) {
        return None;
    }
    let start = idx;
    idx = idx + 1;
    while idx < text.len() && (ascii_alnum(text[idx]) || text[idx] == 45u8)
        invariant
            start < idx <= text@.len(),
            name_end(text@, idx as int) == name_end(text@, start + 1),
        decreases text.len() - idx,
    {
        idx = idx + 1;
    }
    Some(HtmlTag { name_start: start, after: idx, closing })
}

pub fn is_html_tag_boundary(bytes: &[u8], idx: usize) -> (r: bool)
    ensures
        r == tag_boundary(bytes@, idx as int),
{
    if idx >= bytes.len() {
        return true;
    }
    let b = bytes[idx];
    ascii_ws(b) || b == 62u8 || b == 47u8
}

/// The ending tag code of a type-1 HTML block tag name.
pub fn type1_tag_name(name: &[u8]) -> (r: Option<u8>)
    ensures
        r matches Some(c) ==> c < 4,
        r == type1_code(name@),
{
    if eq_ignore_ascii_case(name, "pre".as_bytes()) {
        Some(0)
    } else if eq_ignore_ascii_case(name, "script".as_bytes()) {
        Some(1)
    } else if eq_ignore_ascii_case(name, "style".as_bytes()) {
        Some(2)
    } else if eq_ignore_ascii_case(name, "textarea".as_bytes()) {
        Some(3)
    } else {
        None
    }
}

pub fn type1_tag_text(code: u8) -> (r: &'static str)
    ensures
        r.spec_bytes() == (if code == 0 {
            "pre".spec_bytes()
        } else if code == 1 {
            "script".spec_bytes()
        } else if code == 2 {
            "style".spec_bytes()
        } else {
            "textarea".spec_bytes()
        }),
{
    if code == 0 {
        "pre"
    } else if code == 1 {
        "script"
    } else if code == 2 {
        "style"
    } else {
        "textarea"
    }
}

pub fn is_type1_tag_name(name: &[u8]) -> (r: bool)
    ensures
        r == type1_code(name@) is Some,
{
    type1_tag_name(name).is_some()
}

fn slice_of(text: &[u8], start: usize, end: usize) -> (r: Vec<u8>)
    requires
        start <= end <= text@.len(),
    ensures
        r@ == text@.subrange(start as int, end as int),
{
    crate::text::copy_range(text, start, end)
}

/// A type-1 start: an opening `pre`, `script`, `style` or `textarea` tag.
pub open spec fn html_type1(s: Seq<u8>) -> Option<u8> {
    match html_tag(s) {
        Some((st, e, c)) => if !c && tag_boundary(s, e) {
            type1_code(s.subrange(st, e))
        } else {
            None
        },
        None => None,
    }
}

pub fn match_html_type1(text: &[u8]) -> (r: Option<u8>)
    ensures
        r matches Some(c) ==> c < 4,
        r == html_type1(text@),
{
    let tag = match parse_html_tag_name(text) {
        Some(t) => t,
        None => return None,
    };
    if tag.closing {
        return None;
    }
    if !is_html_tag_boundary(text, tag.after) {
        return None;
    }
    let name = slice_of(text, tag.name_start, tag.after);
    type1_tag_name(name.as_slice())
}

/// The block-level tag names of the HTML block start condition 6.
pub open spec fn block_tag_names() -> Seq<&'static str> {
    seq![
        "address", "article", "aside", "base", "basefont", "blockquote", "body", "caption",
        "center", "col", "colgroup", "dd", "details", "dialog", "dir", "div", "dl", "dt",
        "fieldset", "figcaption", "figure", "footer", "form", "frame", "frameset", "h1", "h2",
        "h3", "h4", "h5", "h6", "head", "header", "hr", "html", "iframe", "legend", "li", "link",
        "main", "menu", "menuitem", "nav", "noframes", "ol", "optgroup", "option", "p", "param",
        "search", "section", "source", "summary", "table", "tbody", "td", "tfoot", "th", "thead",
        "title", "tr", "track", "ul",
    ]
}

pub fn html_block_tags() -> (r: Vec<&'static str>)
    ensures
        r@ == block_tag_names(),
{
    vec![
        "address", "article", "aside", "base", "basefont", "blockquote", "body", "caption",
        "center", "col", "colgroup", "dd", "details", "dialog", "dir", "div", "dl", "dt",
        "fieldset", "figcaption", "figure", "footer", "form", "frame", "frameset", "h1", "h2",
        "h3", "h4", "h5", "h6", "head", "header", "hr", "html", "iframe", "legend", "li", "link",
        "main", "menu", "menuitem", "nav", "noframes", "ol", "optgroup", "option", "p", "param",
        "search", "section", "source", "summary", "table", "tbody", "td", "tfoot", "th", "thead",
        "title", "tr", "track", "ul",
    ]
}

/// A type-6 start: a tag, opening or closing, whose name is one of the block-level names.
pub open spec fn html_block_tag(s: Seq<u8>) -> bool {
    match html_tag(s) {
        Some((st, e, c)) => tag_boundary(s, e) && exists|k: int|
            0 <= k < block_tag_names().len() && same_ignoring_case(
                s.subrange(st, e),
                #[trigger] block_tag_names()[k].spec_bytes(),
            ),
        None => false,
    }
}

pub fn match_html_block_tag(text: &[u8]) -> (r: bool)
    ensures
        r == html_block_tag(text@),
{
    let tag = match parse_html_tag_name(text) {
        Some(t) => t,
        None => return false,
    };
    if !is_html_tag_boundary(text, tag.after) {
        return false;
    }
    let name = slice_of(text, tag.name_start, tag.after);
    let tags = html_block_tags();
    let mut i: usize = 0;
    while i < tags.len()
        invariant
            i <= tags@.len(),
            tags@ == block_tag_names(),
            tag.name_start <= tag.after <= text@.len(),
            html_tag(text@) == Some((tag.name_start as int, tag.after as int, tag.closing)),
            tag_boundary(text@, tag.after as int),
            name@ == text@.subrange(tag.name_start as int, tag.after as int),
            forall|k: int| 0 <= k < i ==> !same_ignoring_case(name@, #[trigger] block_tag_names()[k].spec_bytes()),
        decreases tags.len() - i,
    {
        if eq_ignore_ascii_case(name.as_slice(), tags[i].as_bytes()) {
            return true;
        }
        i = i + 1;
    }
    false
}

/// A type-7 start: a tag whose name is not of type 1, ending at its first `>` with only spaces
/// and tabs after it.
pub open spec fn html_any_tag(s: Seq<u8>) -> bool {
    match html_tag(s) {
        Some((st, e, c)) => tag_boundary(s, e) && type1_code(s.subrange(st, e)) is None && exists|
            g: int,
        |
            e <= g < s.len() && s[g] == 62u8 && (forall|k: int| e <= k < g ==> s[k] != 62u8) && (
            forall|k: int| g < k < s.len() ==> is_space_tab(#[trigger] s[k])),
        None => false,
    }
}

pub fn match_html_any_tag(text: &[u8]) -> (r: bool)
    ensures
        r == html_any_tag(text@),
{
    let tag = match parse_html_tag_name(text) {
        Some(t) => t,
        None => return false,
    };
    if !is_html_tag_boundary(text, tag.after) {
        return false;
    }
    let name = slice_of(text, tag.name_start, tag.after);
    if is_type1_tag_name(name.as_slice()) {
        return false;
    }
    let mut idx = tag.after;
    while idx < text.len() && text[idx] != 62u8
        invariant
            tag.after <= idx <= text@.len(),
            forall|k: int| tag.after <= k < idx ==> text@[k] != 62u8,
            html_tag(text@) == Some((tag.name_start as int, tag.after as int, tag.closing)),
            tag_boundary(text@, tag.after as int),
            type1_code(text@.subrange(tag.name_start as int, tag.after as int)) is None,
        decreases text.len() - idx,
    {
        idx = idx + 1;
    }
    if idx >= text.len() {
        return false;
    }
    let mut k = idx + 1;
    while k < text.len()
        invariant
            idx < k <= text@.len(),
            tag.after <= idx < text@.len(),
            text@[idx as int] == 62u8,
            forall|j: int| tag.after <= j < idx ==> text@[j] != 62u8,
            forall|j: int| idx < j < k ==> is_space_tab(#[trigger] text@[j]),
            html_tag(text@) == Some((tag.name_start as int, tag.after as int, tag.closing)),
            tag_boundary(text@, tag.after as int),
            type1_code(text@.subrange(tag.name_start as int, tag.after as int)) is None,
        decreases text.len() - k,
    {
        if text[k] != 32u8 && text[k] != 9u8 {
            proof {
                assert forall|g: int|
                    tag.after <= g < text@.len() && text@[g] == 62u8 && (forall|j: int|
                        tag.after <= j < g ==> text@[j] != 62u8) implies !(forall|j: int|
                    g < j < text@.len() ==> is_space_tab(#[trigger] text@[j])) by {
                    if g < idx {
                        assert(text@[g] != 62u8);
                    }
                    if g > idx {
                        assert(text@[idx as int] != 62u8);
                    }
                    assert(!is_space_tab(text@[k as int]));
                }
            }
            return false;
        }
        k = k + 1;
    }
    true
}

/// Which HTML block, if any, a line starts: after at most three columns of indentation, the
/// seven start conditions in order.
pub open spec fn html_start(s: Seq<u8>) -> Option<HtmlBlockKind> {
    match indent_end(s, 0, 0, 3) {
        Some(st) => if 0 <= st < s.len() {
            let t = s.subrange(st, s.len() as int);
            if html_type1(t) is Some {
                Some(HtmlBlockKind::Type1(html_type1(t)->0))
            } else if starts_at(t, 0, "<!--".spec_bytes()) {
                Some(HtmlBlockKind::Type2)
            } else if starts_at(t, 0, "<?".spec_bytes()) {
                Some(HtmlBlockKind::Type3)
            } else if starts_at(t, 0, "<![CDATA[".spec_bytes()) {
                Some(HtmlBlockKind::Type5)
            } else if starts_at(t, 0, "<!".spec_bytes()) && t.len() > 2 && is_alpha(t[2]) {
                Some(HtmlBlockKind::Type4)
            } else if html_block_tag(t) {
                Some(HtmlBlockKind::Type6)
            } else if html_any_tag(t) {
                Some(HtmlBlockKind::Type7)
            } else {
                None
            }
        } else {
            None
        },
        None => None,
    }
}

pub fn match_html_block_start(text: &[u8]) -> (r: Option<HtmlBlockKind>)
    ensures
        r == html_start(text@),
{
    let start = match strip_indent_up_to(text, 3) {
        Some(s) => s,
        None => return None,
    };
    if start >= text.len() {
        return None;
    }
    let trimmed = slice_of(text, start, text.len());
    let t = trimmed.as_slice();
    if let Some(code) = match_html_type1(t) {
        return Some(HtmlBlockKind::Type1(code));
    }
    if bytes_start_with(t, 0, "<!--".as_bytes()) {
        return Some(HtmlBlockKind::Type2);
    }
    if bytes_start_with(t, 0, "<?".as_bytes()) {
        return Some(HtmlBlockKind::Type3);
    }
    if bytes_start_with(t, 0, "<![CDATA[".as_bytes()) {
        return Some(HtmlBlockKind::Type5);
    }
    if bytes_start_with(t, 0, "<!".as_bytes()) {
        if t.len() > 2 && ascii_alpha(t[2]) {
            return Some(HtmlBlockKind::Type4);
        }
    }
    if match_html_block_tag(t) {
        return Some(HtmlBlockKind::Type6);
    }
    if match_html_any_tag(t) {
        return Some(HtmlBlockKind::Type7);
    }
    None
}

/// Whether a line ends an HTML block of the given kind.
pub open spec fn ends_html_block(kind: HtmlBlockKind, line: Seq<u8>) -> bool {
    match kind {
        HtmlBlockKind::Type1(code) => closing_tag_in(
            line,
            if code == 0 {
                "pre".spec_bytes()
            } else if code == 1 {
                "script".spec_bytes()
            } else if code == 2 {
                "style".spec_bytes()
            } else {
                "textarea".spec_bytes()
            },
        ),
        HtmlBlockKind::Type2 => find_at(line, 0, "-->".spec_bytes()) is Some,
        HtmlBlockKind::Type3 => find_at(line, 0, "?>".spec_bytes()) is Some,
        HtmlBlockKind::Type4 => exists|k: int| 0 <= k < line.len() && line[k] == 62u8,
        HtmlBlockKind::Type5 => find_at(line, 0, "]]>".spec_bytes()) is Some,
        HtmlBlockKind::Type6 | HtmlBlockKind::Type7 => false,
    }
}

/// Whether the lowercased line holds, at the first occurrence of `</tag`, a tag that ends
/// there: `>`, ASCII whitespace or the end of the line follows.
pub open spec fn closing_tag_in(line: Seq<u8>, tag: Seq<u8>) -> bool {
    let l = line.map_values(|b: u8| lower(b));
    let needle = seq![60u8, 47u8] + tag;
    match find_at(l, 0, needle) {
        Some(p) => p + needle.len() >= l.len() || l[p + needle.len()] == 62u8 || is_ascii_ws(
            l[p + needle.len()],
        ),
        None => false,
    }
}

/// Whether the line ends an HTML block of the given kind.
pub fn html_block_end(kind: HtmlBlockKind, line: &[u8]) -> (r: bool)
    ensures
        r == ends_html_block(kind, line@),
{
    match kind {
        HtmlBlockKind::Type1(code) => contains_html_closing_tag(line, type1_tag_text(code).as_bytes()),
        HtmlBlockKind::Type2 => find_from(line, 0, "-->".as_bytes()).is_some(),
        HtmlBlockKind::Type3 => find_from(line, 0, "?>".as_bytes()).is_some(),
        HtmlBlockKind::Type4 => contains_byte(line, 0, line.len(), 62u8),
        HtmlBlockKind::Type5 => find_from(line, 0, "]]>".as_bytes()).is_some(),
        HtmlBlockKind::Type6 | HtmlBlockKind::Type7 => false,
    }
}

/// Whether the lowercased line holds `</tag` followed by `>`, whitespace or the end of the line
/// (only the first occurrence is looked at).
pub fn contains_html_closing_tag(line: &[u8], tag: &[u8]) -> (r: bool)
    ensures
        r == closing_tag_in(line@, tag@),
{
    let mut lower: Vec<u8> = Vec::with_capacity(line.len());
    let mut i: usize = 0;
    while i < line.len()
        invariant
            i <= line@.len(),
            lower@ =~= line@.subrange(0, i as int).map_values(|b: u8| crate::text::lower(b)),
        decreases line.len() - i,
    {
        lower.push(ascii_lower(line[i]));
        i = i + 1;
    }
    assert(line@.subrange(0, line@.len() as int) =~= line@);
    let mut needle: Vec<u8> = Vec::new();
    needle.push(60u8);
    needle.push(47u8);
    crate::text::push_all(&mut needle, tag);
    assert(needle@ =~= seq![60u8, 47u8] + tag@);
    let total = lower.len();
    match find_from(lower.as_slice(), 0, needle.as_slice()) {
        Some(pos) => {
            let after = pos + needle.len();
            if after >= total {
                return true;
            }
            let b = lower[after];
            b == 62u8 || ascii_ws(b)
        },
        None => false,
    }
}

} // verus!
