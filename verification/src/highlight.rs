use vstd::prelude::*;
use vstd::string::StringSliceAdditionalSpecFns;
use crate::emit::push_escaped;
use crate::renderer::{Renderer, Theme};
use crate::text::{
    bytes_start_with, copy_range, find_at, find_from, first_index, is_ascii_ws, lemma_first_index_bound,
    lemma_first_index_clear, push_all, push_str, starts_at, string_from_bytes, lemma_find_at_bounds,
};
use syntect::easy::HighlightLines;
use syntect::highlighting::Style;
use syntect::highlighting::ThemeSet;
use syntect::highlighting::Theme as ColorScheme;
use syntect::parsing::{SyntaxReference, SyntaxSet};

verus! {

#[verifier::external_type_specification]
#[verifier::external_body]
pub struct ExSyntaxSet(SyntaxSet);

#[verifier::external_type_specification]
#[verifier::external_body]
pub struct ExSyntaxReference(SyntaxReference);

#[verifier::external_type_specification]
#[verifier::external_body]
pub struct ExThemeSet(ThemeSet);

#[verifier::external_type_specification]
#[verifier::external_body]
pub struct ExSyntectTheme(ColorScheme);

#[verifier::external_type_specification]
#[verifier::external_body]
pub struct ExStyle(Style);

#[verifier::external_type_specification]
#[verifier::external_body]
pub struct ExHighlightLines<'a>(HighlightLines<'a>);

/// syntect's default syntaxes (`SyntaxSet::load_defaults_newlines`).
#[verifier::external_body]
fn default_syntaxes() -> SyntaxSet {
    SyntaxSet::load_defaults_newlines()
}

/// syntect's default themes (`ThemeSet::load_defaults`).
#[verifier::external_body]
fn default_themes() -> ThemeSet {
    ThemeSet::load_defaults()
}

/// The theme of a set with the given name (a lookup in `ThemeSet::themes`), copied.
#[verifier::external_body]
fn theme_named(set: &ThemeSet, name: &str) -> Option<ColorScheme> {
    set.themes.get(name).cloned()
}

/// The first theme of a set in name order (the first of `ThemeSet::themes`), copied.
#[verifier::external_body]
fn first_theme(set: &ThemeSet) -> Option<ColorScheme> {
    set.themes.values().next().cloned()
}

/// The syntax for a language token (`SyntaxSet::find_syntax_by_token`).
#[verifier::external_body]
fn syntax_by_token<'s>(set: &'s SyntaxSet, token: &str) -> Option<&'s SyntaxReference> {
    set.find_syntax_by_token(token)
}

/// The syntax of a set with the given name, if the set has one (`SyntaxSet::find_syntax_by_name`).
#[verifier::external_body]
fn syntax_by_name<'s>(set: &'s SyntaxSet, name: &str) -> Option<&'s SyntaxReference> {
    set.find_syntax_by_name(name)
}

/// A line highlighter for a syntax and a theme (`HighlightLines::new`).
#[verifier::external_body]
fn line_highlighter<'t>(syntax: &SyntaxReference, theme: &'t ColorScheme) -> HighlightLines<'t> {
    HighlightLines::new(syntax, theme)
}

/// The styled pieces of the next line (`HighlightLines::highlight_line`); `None` when syntect
/// reports an error. The pieces depend on the lines highlighted before.
#[verifier::external_body]
fn styled_line<'b>(
    highlighter: &mut HighlightLines,
    line: &'b str,
    set: &SyntaxSet,
) -> Option<Vec<(Style, &'b str)>> {
    match highlighter.highlight_line(line, set) {
        Ok(v) => Some(v),
        Err(_) => None,
    }
}

/// The HTML of styled pieces without background colors
/// (`styled_line_to_highlighted_html` with `IncludeBackground::No`); `None` on an error.
#[verifier::external_body]
fn styled_html(pieces: &[(Style, &str)]) -> Option<String> {
    match syntect::html::styled_line_to_highlighted_html(pieces, syntect::html::IncludeBackground::No) {
        Ok(s) => Some(s),
        Err(_) => None,
    }
}

/// The bytes of `s` with HTML code escapes undone: `&amp;`, `&lt;`, `&gt;` and `&quot;`
/// become `&`, `<`, `>` and `"`; any other `&` stays.
pub open spec fn unescaped(s: Seq<u8>) -> Seq<u8>
    decreases s.len(),
{
    if s.len() == 0 {
        Seq::empty()
    } else if s.len() >= 5 && s[0] == 38u8 && s[1] == 97u8 && s[2] == 109u8 && s[3] == 112u8 && s[4] == 59u8 {
        seq![38u8] + unescaped(s.subrange(5, s.len() as int))
    } else if s.len() >= 4 && s[0] == 38u8 && s[1] == 108u8 && s[2] == 116u8 && s[3] == 59u8 {
        seq![60u8] + unescaped(s.subrange(4, s.len() as int))
    } else if s.len() >= 4 && s[0] == 38u8 && s[1] == 103u8 && s[2] == 116u8 && s[3] == 59u8 {
        seq![62u8] + unescaped(s.subrange(4, s.len() as int))
    } else if s.len() >= 6 && s[0] == 38u8 && s[1] == 113u8 && s[2] == 117u8 && s[3] == 111u8 && s[4] == 116u8
        && s[5] == 59u8 {
        seq![34u8] + unescaped(s.subrange(6, s.len() as int))
    } else {
        seq![s[0]] + unescaped(s.subrange(1, s.len() as int))
    }
}

/// Undoes the HTML escapes of code text.
pub fn unescape_html_code(s: &[u8]) -> (r: Vec<u8>)
    ensures
        r@ == unescaped(s@),
{
    let mut out: Vec<u8> = Vec::new();
    let n = s.len();
    let mut i: usize = 0;
    proof {
        assert(s@.subrange(0, n as int) == s@);
    }
    while i < n
        invariant
            i <= n,
            n == s@.len(),
            out@ + unescaped(s@.subrange(i as int, n as int)) == unescaped(s@),
        decreases n - i,
    {
        let ghost rest = s@.subrange(i as int, n as int);
        let (b, step): (u8, usize) = if s[i] == 38u8 && n - i >= 5 && s[i + 1] == 97u8 && s[i + 2] == 109u8 && s[i + 3]
            == 112u8 && s[i + 4] == 59u8 {
            (38u8, 5)
        } else if s[i] == 38u8 && n - i >= 4 && s[i + 1] == 108u8 && s[i + 2] == 116u8 && s[i + 3] == 59u8 {
            (60u8, 4)
        } else if s[i] == 38u8 && n - i >= 4 && s[i + 1] == 103u8 && s[i + 2] == 116u8 && s[i + 3] == 59u8 {
            (62u8, 4)
        } else if s[i] == 38u8 && n - i >= 6 && s[i + 1] == 113u8 && s[i + 2] == 117u8 && s[i + 3] == 111u8 && s[i
            + 4] == 116u8 && s[i + 5] == 59u8 {
            (34u8, 6)
        } else {
            (s[i], 1)
        };
        proof {
            assert(rest.subrange(step as int, rest.len() as int) == s@.subrange(i + step, n as int));
            assert(unescaped(rest) == seq![b] + unescaped(rest.subrange(step as int, rest.len() as int)));
            assert(out@.push(b) + unescaped(s@.subrange(i + step, n as int)) == out@ + (seq![b] + unescaped(
                s@.subrange(i + step, n as int),
            )));
        }
        out.push(b);
        i = i + step;
    }
    proof {
        assert(s@.subrange(n as int, n as int) == Seq::<u8>::empty());
    }
    out
}

/// `s` without its `font-weight:` declarations: each one is dropped up to and with the next
/// `;`, and everything after one with no `;` is dropped.
pub open spec fn weights_dropped(s: Seq<u8>, pat: Seq<u8>) -> Seq<u8>
    decreases s.len(),
{
    if pat.len() == 0 || s.len() < pat.len() {
        s
    } else if s.subrange(0, pat.len() as int) == pat {
        match first_index(s.subrange(pat.len() as int, s.len() as int), 59u8) {
            Some(k) => {
                proof {
                    lemma_first_index_bound(s.subrange(pat.len() as int, s.len() as int), 59u8);
                }
                weights_dropped(s.subrange(pat.len() + k + 1, s.len() as int), pat)
            },
            None => Seq::empty(),
        }
    } else {
        seq![s[0]] + weights_dropped(s.subrange(1, s.len() as int), pat)
    }
}

/// The first `b` at or after `from`.
fn find_byte_from(s: &[u8], from: usize, b: u8) -> (r: Option<usize>)
    requires
        from <= s@.len(),
    ensures
        match first_index(s@.subrange(from as int, s@.len() as int), b) {
            Some(k) => r matches Some(p) && p == from + k,
            None => r is None,
        },
        r matches Some(p) ==> from <= p < s@.len() && s@[p as int] == b,
{
    let n = s.len();
    let mut i = from;
    while i < n
        invariant
            from <= i <= n,
            n == s@.len(),
            first_index(s@.subrange(from as int, n as int), b) == (match first_index(
                s@.subrange(i as int, n as int),
                b,
            ) {
                Some(k) => Some(k + (i - from)),
                None => None::<int>,
            }),
        decreases n - i,
    {
        proof {
            assert(s@.subrange(i as int, n as int).subrange(1, n - i) == s@.subrange(i + 1, n as int));
        }
        if s[i] == b {
            return Some(i);
        }
        i = i + 1;
    }
    None
}

/// Drops the `font-weight:` declarations from styled HTML.
fn strip_weights(s: &[u8], pat: &[u8]) -> (r: Vec<u8>)
    requires
        pat@.len() > 0,
    ensures
        r@ == weights_dropped(s@, pat@),
{
    let mut out: Vec<u8> = Vec::new();
    let n = s.len();
    let mut i: usize = 0;
    proof {
        assert(s@.subrange(0, n as int) == s@);
    }
    while i < n
        invariant
            i <= n,
            n == s@.len(),
            pat@.len() > 0,
            out@ + weights_dropped(s@.subrange(i as int, n as int), pat@) == weights_dropped(s@, pat@),
        decreases n - i,
    {
        let ghost rest = s@.subrange(i as int, n as int);
        if bytes_start_with(s, i, pat) {
            let from = i + pat.len();
            proof {
                assert(rest.subrange(0, pat@.len() as int) == pat@);
                assert(rest.subrange(pat@.len() as int, rest.len() as int) == s@.subrange(from as int, n as int));
            }
            match find_byte_from(s, from, 59u8) {
                Some(k) => {
                    proof {
                        assert(rest.len() >= pat@.len());
                        let tail = rest.subrange(pat@.len() as int, rest.len() as int);
                        assert(tail == s@.subrange(from as int, n as int));
                        assert(first_index(tail, 59u8) == Some((k - from) as int));
                        assert(rest.subrange(pat@.len() + (k - from) + 1, rest.len() as int) == s@.subrange(k + 1, n as int));
                        assert(weights_dropped(rest, pat@) == weights_dropped(s@.subrange(k + 1, n as int), pat@));
                    }
                    i = k + 1;
                },
                None => {
                    proof {
                        assert(weights_dropped(rest, pat@) == Seq::<u8>::empty());
                        assert(out@ + Seq::<u8>::empty() == out@);
                    }
                    return out;
                },
            }
        } else {
            proof {
                if rest.len() >= pat@.len() {
                    assert(rest.subrange(0, pat@.len() as int) == s@.subrange(i as int, i + pat@.len()));
                }
                assert(rest.subrange(1, rest.len() as int) == s@.subrange(i + 1, n as int));
                if rest.len() < pat@.len() {
                    assert(weights_dropped(rest.subrange(1, rest.len() as int), pat@) == rest.subrange(1, rest.len() as int));
                    assert(rest == seq![rest[0]] + rest.subrange(1, rest.len() as int));
                }
                assert(out@.push(s@[i as int]) + weights_dropped(rest.subrange(1, rest.len() as int), pat@)
                    == out@ + (seq![rest[0]] + weights_dropped(rest.subrange(1, rest.len() as int), pat@)));
            }
            out.push(s[i]);
            i = i + 1;
        }
    }
    proof {
        assert(s@.subrange(n as int, n as int) == Seq::<u8>::empty());
    }
    out
}

/// Drops the `font-weight:` declarations from styled HTML.
pub fn strip_font_weight(html: &[u8]) -> (r: Vec<u8>)
    ensures
        r@ == weights_dropped(html@, "font-weight:".spec_bytes()),
{
    proof {
        reveal_strlit("font-weight:");
    }
    strip_weights(html, "font-weight:".as_bytes())
}

/// Where the value of the attribute `name` lies in a tag: from after the first `name="` to
/// the next `"`.
pub open spec fn attr_bounds(tag: Seq<u8>, name: Seq<u8>) -> Option<(int, int)> {
    let needle = name + seq![61u8, 34u8];
    match find_at(tag, 0, needle) {
        None => None,
        Some(p) => {
            let start = p + needle.len();
            match first_index(tag.subrange(start, tag.len() as int), 34u8) {
                None => None,
                Some(k) => Some((start, start + k)),
            }
        },
    }
}

/// The value of the attribute `name` in a tag: what follows the first `name="` up to the next
/// `"`.
pub fn extract_attr(tag: &[u8], name: &str) -> (r: Option<(usize, usize)>)
    ensures
        match attr_bounds(tag@, name.spec_bytes()) {
            None => r is None,
            Some((a, b)) => r matches Some((x, y)) && x == a && y == b,
        },
        r matches Some((a, b)) ==> a <= b <= tag@.len() && (forall|k: int| a <= k < b ==> tag@[k] != 34u8)
            && b < tag@.len() && tag@[b as int] == 34u8,
{
    let mut needle: Vec<u8> = Vec::new();
    push_str(&mut needle, name);
    needle.push(61u8);
    needle.push(34u8);
    proof {
        assert(needle@ =~= name.spec_bytes() + seq![61u8, 34u8]);
    }
    let found = find_from(tag, 0, needle.as_slice());
    if found.is_none() {
        return None;
    }
    let p = found.unwrap();
    proof {
        assert(starts_at(tag@, p as int, needle@));
        assert(p + needle@.len() <= tag@.len());
        assert(needle@.len() == needle.len());
        assert(tag@.len() == tag.len());
    }
    let start = p + needle.len();
    match find_byte_from(tag, start, 34u8) {
        Some(e) => {
            proof {
                lemma_first_index_clear(tag@.subrange(start as int, tag@.len() as int), 34u8, e - start);
                assert forall|k: int| start <= k < e implies tag@[k] != 34u8 by {
                    assert(tag@.subrange(start as int, tag@.len() as int)[k - start] == tag@[k]);
                }
            }
            Some((start, e))
        },
        None => None,
    }
}

/// Where the word that starts at `i` ends: the first ASCII whitespace before `b`, else `b`.
pub open spec fn word_end(s: Seq<u8>, i: int, b: int) -> int
    decreases b - i,
{
    if i >= b || is_ascii_ws(s[i]) {
        i
    } else {
        word_end(s, i + 1, b)
    }
}

/// The language named by the words of `s[i..b]`: after the first word `language-x` (with a
/// non-empty `x`), `x`.
pub open spec fn language_from(s: Seq<u8>, i: int, b: int) -> Option<Seq<u8>>
    decreases b - i,
{
    if i >= b {
        None
    } else if is_ascii_ws(s[i]) {
        language_from(s, i + 1, b)
    } else {
        let j = word_end(s, i, b);
        if starts_at(s, i, "language-".spec_bytes()) && j - i > "language-".spec_bytes().len() {
            Some(s.subrange(i + "language-".spec_bytes().len(), j))
        } else if i < j <= b {
            language_from(s, j, b)
        } else {
            None
        }
    }
}

proof fn lemma_word_end(s: Seq<u8>, i: int, b: int)
    ensures
        i <= b ==> i <= word_end(s, i, b) <= b,
        i < b && !is_ascii_ws(s[i]) ==> word_end(s, i, b) > i,
    decreases b - i,
{
    if i < b && !is_ascii_ws(s[i]) {
        lemma_word_end(s, i + 1, b);
    }
}

/// The language of a code tag: the first class `language-x` (with a non-empty `x`) of its
/// `class` attribute.
pub fn extract_language(tag: &[u8]) -> (r: Option<Vec<u8>>)
    ensures
        match attr_bounds(tag@, "class".spec_bytes()) {
            None => r is None,
            Some((a, b)) => match language_from(tag@, a, b) {
                None => r is None,
                Some(l) => r matches Some(v) && v@ == l,
            },
        },
{
    let found = extract_attr(tag, "class");
    if found.is_none() {
        return None;
    }
    let (a, b) = found.unwrap();
    proof {
        assert(attr_bounds(tag@, "class".spec_bytes()) == Some((a as int, b as int)));
    }
    let mut i = a;
    while i < b
        invariant
            a <= i <= b,
            b <= tag@.len(),
            language_from(tag@, i as int, b as int) == language_from(tag@, a as int, b as int),
            attr_bounds(tag@, "class".spec_bytes()) == Some((a as int, b as int)),
        decreases b - i,
    {
        if crate::text::ascii_ws(tag[i]) {
            i = i + 1;
            continue;
        }
        let mut j = i;
        while j < b && !crate::text::ascii_ws(tag[j])
            invariant
                a <= i <= j <= b,
                i < b,
                b <= tag@.len(),
                !is_ascii_ws(tag@[i as int]),
                language_from(tag@, i as int, b as int) == language_from(tag@, a as int, b as int),
                attr_bounds(tag@, "class".spec_bytes()) == Some((a as int, b as int)),
                word_end(tag@, j as int, b as int) == word_end(tag@, i as int, b as int),
            decreases b - j,
        {
            j = j + 1;
        }
        proof {
            lemma_word_end(tag@, i as int, b as int);
        }
        let prefix = "language-".as_bytes();
        proof {
            assert(word_end(tag@, j as int, b as int) == j);
            assert(j == word_end(tag@, i as int, b as int));
        }
        if bytes_start_with(tag, i, prefix) && j - i > prefix.len() {
            proof {
                assert(language_from(tag@, i as int, b as int) == Some(tag@.subrange(i + prefix@.len(), j as int)));
            }
            let v = copy_range(tag, i + prefix.len(), j);
            proof {
                assert(v@ == tag@.subrange(i + prefix@.len(), j as int));
                assert(language_from(tag@, a as int, b as int) == Some(v@));
            }
            return Some(v);
        }
        i = j;
    }
    None
}

/// The highlighting of one line of code: syntect's HTML without font weights, or the line
/// escaped when syntect fails.
fn highlight_line(line: &[u8], highlighter: &mut HighlightLines, set: &SyntaxSet) -> Vec<u8> {
    let text = string_from_bytes(line);
    let html = match styled_line(highlighter, text.as_str(), set) {
        Some(pieces) => styled_html(pieces.as_slice()),
        None => None,
    };
    match html {
        Some(h) => strip_font_weight(h.as_str().as_bytes()),
        None => {
            let mut out: Vec<u8> = Vec::new();
            push_escaped(&mut out, line);
            out
        },
    }
}

/// The escaped code lines of the `<span ...>...</span>` line wrappers of code, from `pos` on,
/// in order: what stands between the end of each opening tag and the next `</span>`.
pub open spec fn wrapped_lines(code: Seq<u8>, pos: int) -> Seq<Seq<u8>>
    decreases code.len() - pos,
{
    if pos < 0 || pos > code.len() {
        Seq::empty()
    } else {
        match find_at(code, pos, "<span ".spec_bytes()) {
            None => Seq::empty(),
            Some(s) => match first_index(code.subrange(s, code.len() as int), 62u8) {
                None => Seq::empty(),
                Some(k) => match find_at(code, s + k + 1, "</span>".spec_bytes()) {
                    None => Seq::empty(),
                    Some(e) => {
                        proof {
                            lemma_find_at_bounds(code, pos, "<span ".spec_bytes());
                            lemma_first_index_bound(code.subrange(s, code.len() as int), 62u8);
                            lemma_find_at_bounds(code, s + k + 1, "</span>".spec_bytes());
                        }
                        seq![code.subrange(s + k + 1, e)] + wrapped_lines(code, e + "</span>".spec_bytes().len())
                    },
                },
            },
        }
    }
}

/// Highlights the content of each `<span ...>...</span>` line wrapper of the code; everything
/// else stays. Code with no line wrapper is unchanged. The second result is the lines given
/// to the highlighter: each wrapper's code line with its HTML escapes undone.
fn highlight_code_lines(code: &[u8], syntax: &SyntaxReference, theme: &ColorScheme, set: &SyntaxSet) -> (r: (
    Vec<u8>,
    Ghost<Seq<Seq<u8>>>,
))
    ensures
        (forall|q: int| 0 <= q ==> !starts_at(code@, q, "<span ".spec_bytes())) ==> r.0@ == code@,
        r.1@.len() == wrapped_lines(code@, 0).len(),
        forall|k: int| 0 <= k < r.1@.len() ==> #[trigger] r.1@[k] == unescaped(wrapped_lines(code@, 0)[k]),
{
    let mut highlighter = line_highlighter(syntax, theme);
    let mut out: Vec<u8> = Vec::new();
    let n = code.len();
    let mut pos: usize = 0;
    let ghost mut given: Seq<Seq<u8>> = Seq::empty();
    let ghost mut seen: Seq<Seq<u8>> = Seq::empty();
    loop
        invariant
            pos <= n,
            n == code@.len(),
            (forall|q: int| 0 <= q ==> !starts_at(code@, q, "<span ".spec_bytes())) ==> out@ == code@.subrange(0, pos as int),
            seen + wrapped_lines(code@, pos as int) == wrapped_lines(code@, 0),
            given.len() == seen.len(),
            forall|k: int| 0 <= k < given.len() ==> #[trigger] given[k] == unescaped(seen[k]),
        ensures
            pos <= n,
            (forall|q: int| 0 <= q ==> !starts_at(code@, q, "<span ".spec_bytes())) ==> out@ == code@.subrange(0, pos as int),
            seen == wrapped_lines(code@, 0),
            given.len() == seen.len(),
            forall|k: int| 0 <= k < given.len() ==> #[trigger] given[k] == unescaped(seen[k]),
        decreases n - pos,
    {
        let s = match find_from(code, pos, "<span ".as_bytes()) {
            Some(s) => s,
            None => {
                proof {
                    assert(wrapped_lines(code@, pos as int) =~= Seq::<Seq<u8>>::empty());
                    assert(seen =~= wrapped_lines(code@, 0));
                }
                break;
            },
        };
        push_all(&mut out, copy_range(code, pos, s).as_slice());
        let open_end = match find_byte_from(code, s, 62u8) {
            Some(e) => e,
            None => {
                push_all(&mut out, copy_range(code, s, n).as_slice());
                proof {
                    assert(wrapped_lines(code@, pos as int) =~= Seq::<Seq<u8>>::empty());
                    assert(seen =~= wrapped_lines(code@, 0));
                }
                return (out, Ghost(given));
            },
        };
        let content_start = open_end + 1;
        let close = "</span>".as_bytes();
        let content_end = match find_from(code, content_start, close) {
            Some(e) => e,
            None => {
                push_all(&mut out, copy_range(code, s, n).as_slice());
                proof {
                    assert(wrapped_lines(code@, pos as int) =~= Seq::<Seq<u8>>::empty());
                    assert(seen =~= wrapped_lines(code@, 0));
                }
                return (out, Ghost(given));
            },
        };
        let line = unescape_html_code(copy_range(code, content_start, content_end).as_slice());
        let ghost content = code@.subrange(content_start as int, content_end as int);
        let highlighted = highlight_line(line.as_slice(), &mut highlighter, set);
        push_all(&mut out, copy_range(code, s, content_start).as_slice());
        push_all(&mut out, highlighted.as_slice());
        push_all(&mut out, close);
        proof {
            let wl = wrapped_lines(code@, pos as int);
            assert(wl =~= seq![content] + wrapped_lines(code@, content_end + close@.len()));
            assert(seen.push(content) + wrapped_lines(code@, content_end + close@.len()) =~= seen + wl);
            given = given.push(line@);
            seen = seen.push(content);
        }
        pos = content_end + close.len();
    }
    push_all(&mut out, copy_range(code, pos, n).as_slice());
    proof {
        assert(code@.subrange(0, pos as int) + code@.subrange(pos as int, n as int) == code@);
    }
    (out, Ghost(given))
}

/// Highlights the code of a code block figure; a figure without a complete `<code ...>`
/// element is unchanged.
fn highlight_figure(fig: &[u8], themes: &ColorScheme, set: &SyntaxSet) -> (r: Vec<u8>)
    ensures
        find_at(fig@, 0, "<code".spec_bytes()) is None ==> r@ == fig@,
        (forall|q: int| 0 <= q ==> !starts_at(fig@, q, "<span ".spec_bytes())) ==> r@ == fig@,
{
    let code_start = match find_from(fig, 0, "<code".as_bytes()) {
        Some(p) => p,
        None => return copy_range(fig, 0, fig.len()),
    };
    let fig_len = fig.len();
    assert(code_start <= fig@.len());
    let code_tag_end = match find_byte_from(fig, code_start, 62u8) {
        Some(p) => p,
        None => return copy_range(fig, 0, fig.len()),
    };
    assert(code_tag_end < fig@.len());
    let code_close = match find_from(fig, code_tag_end + 1, "</code>".as_bytes()) {
        Some(p) => p,
        None => return copy_range(fig, 0, fig.len()),
    };
    let tag = copy_range(fig, code_start, code_tag_end + 1);
    let found = match extract_language(tag.as_slice()) {
        Some(lang) => {
            let token = string_from_bytes(lang.as_slice());
            match syntax_by_token(set, token.as_str()) {
                Some(s) => Some(s),
                None => syntax_by_name(set, "Plain Text"),
            }
        },
        None => syntax_by_name(set, "Plain Text"),
    };
    // Without a syntax for the code, the figure keeps its escaped code as it is.
    let syntax = match found {
        Some(s) => s,
        None => return copy_range(fig, 0, fig.len()),
    };
    let inner = copy_range(fig, code_tag_end + 1, code_close);
    proof {
        if forall|q: int| 0 <= q ==> !starts_at(fig@, q, "<span ".spec_bytes()) {
            assert forall|q: int| 0 <= q implies !starts_at(inner@, q, "<span ".spec_bytes()) by {
                if starts_at(inner@, q, "<span ".spec_bytes()) {
                    assert forall|j: int| 0 <= j < "<span ".spec_bytes().len() implies fig@[q + code_tag_end + 1 + j]
                        == "<span ".spec_bytes()[j] by {
                        assert(inner@[q + j] == fig@[q + code_tag_end + 1 + j]);
                    }
                    let pat = "<span ".spec_bytes();
                    assert(fig@.subrange(q + code_tag_end + 1, q + code_tag_end + 1 + pat.len()) =~= pat);
                    assert(starts_at(fig@, q + code_tag_end + 1, pat));
                }
            }
        }
    }
    let (highlighted, _) = highlight_code_lines(inner.as_slice(), syntax, themes, set);
    let mut out = copy_range(fig, 0, code_tag_end + 1);
    push_all(&mut out, highlighted.as_slice());
    push_all(&mut out, copy_range(fig, code_close, fig.len()).as_slice());
    proof {
        assert(fig@.subrange(0, code_tag_end + 1) + fig@.subrange(code_tag_end + 1, code_close as int)
            + fig@.subrange(code_close as int, fig@.len() as int) =~= fig@);
    }
    out
}

/// The code block figures of HTML highlighted with a theme; the HTML around them stays, and
/// HTML without a code block figure is unchanged.
pub fn highlight_figures(html: &[u8], theme: &ColorScheme, set: &SyntaxSet) -> (r: Vec<u8>)
    ensures
        (forall|q: int| 0 <= q ==> !starts_at(html@, q, "<figure class=\"TypMark-codeblock\"".spec_bytes()))
            ==> r@ == html@,
{
    let figure_tag = "<figure class=\"TypMark-codeblock\"".as_bytes();
    let n = html.len();
    let mut out: Vec<u8> = Vec::new();
    let mut pos: usize = 0;
    loop
        invariant
            pos <= n,
            n == html@.len(),
            figure_tag@ == "<figure class=\"TypMark-codeblock\"".spec_bytes(),
            (forall|q: int| 0 <= q ==> !starts_at(html@, q, figure_tag@)) ==> out@ == html@.subrange(0, pos as int),
        decreases n - pos,
    {
        let start = match find_from(html, pos, figure_tag) {
            Some(s) => s,
            None => break,
        };
        push_all(&mut out, copy_range(html, pos, start).as_slice());
        let close = "</figure>".as_bytes();
        let end = match find_from(html, start, close) {
            Some(e) => e + close.len(),
            None => {
                push_all(&mut out, copy_range(html, start, n).as_slice());
                return out;
            },
        };
        if end <= pos {
            push_all(&mut out, copy_range(html, start, n).as_slice());
            return out;
        }
        let fig = copy_range(html, start, end);
        push_all(&mut out, highlight_figure(fig.as_slice(), theme, set).as_slice());
        pos = end;
    }
    push_all(&mut out, copy_range(html, pos, n).as_slice());
    proof {
        assert(html@.subrange(0, pos as int) + html@.subrange(pos as int, n as int) == html@);
    }
    out
}

/// The names of the syntect themes tried for a page theme, in order.
pub fn theme_candidates(theme: Theme) -> (r: Vec<&'static str>)
    ensures
        r@.len() == 3,
{
    match theme {
        Theme::Dark => vec!["Monokai Extended Bright", "Monokai Extended", "base16-ocean.dark"],
        Theme::Light => vec!["InspiredGitHub", "Solarized (light)", "base16-ocean.light"],
        Theme::Auto => vec!["InspiredGitHub", "Solarized (light)", "base16-ocean.light"],
    }
}

impl Renderer {
    /// Highlights the code of the code block figures of HTML with syntect, with a theme that
    /// suits the page theme (the first of its candidates that syntect has, else its first
    /// theme); HTML without a code block figure is unchanged.
    pub fn highlight_html(&self, html: &str) -> (r: String)
        ensures
            (forall|q: int| 0 <= q ==> !starts_at(html.spec_bytes(), q, "<figure class=\"TypMark-codeblock\"".spec_bytes()))
                ==> r@ == html@,
    {
        let set = default_syntaxes();
        let themes = default_themes();
        let names = theme_candidates(self.theme());
        let mut chosen: Option<ColorScheme> = None;
        let mut i: usize = 0;
        while i < names.len() && chosen.is_none()
            invariant
                i <= names@.len(),
            decreases names.len() - i,
        {
            chosen = theme_named(&themes, names[i]);
            i = i + 1;
        }
        if chosen.is_none() {
            chosen = first_theme(&themes);
        }
        match chosen {
            Some(t) => {
                let out = highlight_figures(html.as_bytes(), &t, &set);
                proof {
                    vstd::utf8::encode_utf8_decode_utf8(html@);
                    vstd::utf8::encode_utf8_valid_utf8(html@);
                }
                string_from_bytes(out.as_slice())
            },
            None => html.to_owned(),
        }
    }
}

} // verus!
