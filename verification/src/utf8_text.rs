use vstd::prelude::*;
use vstd::utf8::{
    is_leading_byte_width_1, length_of_first_scalar, pop_first_scalar, valid_first_scalar, valid_utf8,
};
use crate::ast::{Inline, InlineKind, ResolvedRef};
use crate::emit::{
    decimal, drop_cr, escape_byte, escaped, hex_digit, raw_lines, inline_html_spec, inline_text, inlines_html, inlines_text, range_attr,
    ref_label_part, sbytes, title_attr, url_byte, url_encoded, RenderContext,
};
use crate::source_map::SourceMap;
use crate::source_map::Position;
use crate::text::{lemma_ascii_valid, lemma_cat, lemma_empty_valid, lemma_str_valid};
use vstd::string::StringSliceAdditionalSpecFns;

verus! {

/// Every byte is below 0x80.
pub open spec fn ascii(s: Seq<u8>) -> bool {
    forall|k: int| 0 <= k < s.len() ==> #[trigger] s[k] < 128
}

/// Two ASCII texts one after the other are ASCII.
pub proof fn lemma_ascii_cat(a: Seq<u8>, b: Seq<u8>)
    requires
        ascii(a),
        ascii(b),
    ensures
        ascii(a + b),
{
    assert forall|k: int| 0 <= k < (a + b).len() implies #[trigger] (a + b)[k] < 128 by {
        if k < a.len() {
            assert((a + b)[k] == a[k]);
        } else {
            assert((a + b)[k] == b[k - a.len()]);
        }
    }
}

/// The escape of two texts one after the other is the escape of each.
pub proof fn lemma_escaped_concat(a: Seq<u8>, b: Seq<u8>)
    ensures
        escaped(a + b) == escaped(a) + escaped(b),
    decreases b.len(),
{
    if b.len() == 0 {
        assert(a + b =~= a);
        assert(escaped(a) + escaped(b) =~= escaped(a));
    } else {
        lemma_escaped_concat(a, b.drop_last());
        assert((a + b).drop_last() =~= a + b.drop_last());
        assert((a + b).last() == b.last());
        assert(escaped(a + b) =~= escaped(a) + escaped(b));
    }
}

/// Bytes from 0x80 up are their own escape.
proof fn lemma_escaped_high(s: Seq<u8>)
    requires
        forall|k: int| 0 <= k < s.len() ==> #[trigger] s[k] >= 128,
    ensures
        escaped(s) == s,
    decreases s.len(),
{
    if s.len() > 0 {
        lemma_escaped_high(s.drop_last());
        assert(s.drop_last().push(s.last()) =~= s);
        assert(escape_byte(s.last()) =~= seq![s.last()]);
    }
}

/// The escape of ASCII is ASCII.
pub proof fn lemma_escaped_ascii(s: Seq<u8>)
    requires
        ascii(s),
    ensures
        ascii(escaped(s)),
    decreases s.len(),
{
    if s.len() > 0 {
        lemma_escaped_ascii(s.drop_last());
        assert(ascii(escape_byte(s.last())));
        lemma_ascii_cat(escaped(s.drop_last()), escape_byte(s.last()));
    }
}

/// The escape of UTF-8 is UTF-8: only ASCII bytes are replaced, by ASCII.
pub proof fn lemma_escaped_valid(s: Seq<u8>)
    requires
        valid_utf8(s),
    ensures
        valid_utf8(escaped(s)),
    decreases s.len(),
{
    if s.len() > 0 {
        let l = length_of_first_scalar(s);
        let t = s.subrange(0, l);
        let rest = pop_first_scalar(s);
        assert(s =~= t + rest);
        lemma_escaped_concat(t, rest);
        lemma_escaped_valid(rest);
        if is_leading_byte_width_1(s[0]) {
            assert(t =~= seq![s[0]]);
            assert(t.drop_last() =~= Seq::<u8>::empty());
            assert(t.last() == s[0]);
            assert(escaped(t.drop_last()) == Seq::<u8>::empty());
            assert(escaped(t) =~= escape_byte(s[0]));
            assert(ascii(escape_byte(s[0])));
            lemma_ascii_valid(escape_byte(s[0]));
            lemma_cat(escaped(t), escaped(rest));
        } else {
            lemma_escaped_high(t);
            let u = t + escaped(rest);
            assert(u[0] == s[0]);
            assert(l >= 2 ==> u[1] == s[1]);
            assert(l >= 3 ==> u[2] == s[2]);
            assert(l >= 4 ==> u[3] == s[3]);
            assert(valid_first_scalar(u));
            assert(length_of_first_scalar(u) == l);
            assert(pop_first_scalar(u) =~= escaped(rest));
        }
    }
}

/// Decimal digits are ASCII.
pub proof fn lemma_decimal_ascii(n: nat)
    ensures
        ascii(decimal(n)),
    decreases n,
{
    if n >= 10 {
        lemma_decimal_ascii(n / 10);
        lemma_ascii_cat(decimal(n / 10), seq![(48 + n % 10) as u8]);
        assert(decimal(n) =~= decimal(n / 10) + seq![(48 + n % 10) as u8]);
    }
}

/// A percent-encoded URL is ASCII.
pub proof fn lemma_url_ascii(s: Seq<u8>)
    ensures
        ascii(url_encoded(s)),
    decreases s.len(),
{
    if s.len() > 0 {
        lemma_url_ascii(s.drop_last());
        let b = s.last();
        assert(hex_digit(b / 16) < 128);
        assert(hex_digit(b % 16) < 128);
        assert(ascii(url_byte(b)));
        lemma_ascii_cat(url_encoded(s.drop_last()), url_byte(b));
    }
}

/// A literal's bytes are UTF-8, and so are their joins.
pub proof fn lemma_valid_cat3(a: Seq<u8>, b: Seq<u8>, c: Seq<u8>)
    requires
        valid_utf8(a),
        valid_utf8(b),
        valid_utf8(c),
    ensures
        valid_utf8(a + b + c),
{
    lemma_cat(a, b);
    lemma_cat(a + b, c);
}

/// A `data-tm-range` attribute is UTF-8.
pub proof fn lemma_range_attr_valid(start: Position, end: Position)
    ensures
        valid_utf8(range_attr(start, end)),
{
    lemma_str_valid(" data-tm-range=\"");
    lemma_str_valid(":");
    lemma_str_valid("-");
    lemma_str_valid("\"");
    lemma_decimal_ascii(start.line as nat);
    lemma_decimal_ascii(start.character as nat);
    lemma_decimal_ascii(end.line as nat);
    lemma_decimal_ascii(end.character as nat);
    lemma_ascii_valid(decimal(start.line as nat));
    lemma_ascii_valid(decimal(start.character as nat));
    lemma_ascii_valid(decimal(end.line as nat));
    lemma_ascii_valid(decimal(end.character as nat));
    let p1 = " data-tm-range=\"".spec_bytes() + decimal(start.line as nat);
    lemma_cat(" data-tm-range=\"".spec_bytes(), decimal(start.line as nat));
    lemma_valid_cat3(p1, ":".spec_bytes(), decimal(start.character as nat));
    let p2 = p1 + ":".spec_bytes() + decimal(start.character as nat);
    lemma_valid_cat3(p2, "-".spec_bytes(), decimal(end.line as nat));
    let p3 = p2 + "-".spec_bytes() + decimal(end.line as nat);
    lemma_valid_cat3(p3, ":".spec_bytes(), decimal(end.character as nat));
    let p4 = p3 + ":".spec_bytes() + decimal(end.character as nat);
    lemma_cat(p4, "\"".spec_bytes());
}


/// Four UTF-8 texts joined are UTF-8.
pub proof fn lemma_valid_cat4(a: Seq<u8>, b: Seq<u8>, c: Seq<u8>, d: Seq<u8>)
    requires
        valid_utf8(a),
        valid_utf8(b),
        valid_utf8(c),
        valid_utf8(d),
    ensures
        valid_utf8(a + b + c + d),
{
    lemma_valid_cat3(a, b, c);
    lemma_cat(a + b + c, d);
}

/// Five UTF-8 texts joined are UTF-8.
pub proof fn lemma_valid_cat5(a: Seq<u8>, b: Seq<u8>, c: Seq<u8>, d: Seq<u8>, e: Seq<u8>)
    requires
        valid_utf8(a),
        valid_utf8(b),
        valid_utf8(c),
        valid_utf8(d),
        valid_utf8(e),
    ensures
        valid_utf8(a + b + c + d + e),
{
    lemma_valid_cat4(a, b, c, d);
    lemma_cat(a + b + c + d, e);
}

/// A string's bytes are UTF-8.
pub proof fn lemma_sbytes_valid(s: String)
    ensures
        valid_utf8(sbytes(s)),
{
    vstd::utf8::encode_utf8_valid_utf8(s@);
}

/// The escape of a string's bytes is UTF-8.
pub proof fn lemma_escaped_string_valid(s: String)
    ensures
        valid_utf8(escaped(sbytes(s))),
{
    lemma_sbytes_valid(s);
    lemma_escaped_valid(sbytes(s));
}

/// The escape of a percent-encoded URL is UTF-8.
pub proof fn lemma_url_attr_valid(s: String)
    ensures
        valid_utf8(escaped(url_encoded(sbytes(s)))),
{
    lemma_url_ascii(sbytes(s));
    lemma_escaped_ascii(url_encoded(sbytes(s)));
    lemma_ascii_valid(escaped(url_encoded(sbytes(s))));
}

/// The plain text of inline nodes is UTF-8.
pub proof fn lemma_inlines_text_valid(xs: Seq<Inline>)
    ensures
        valid_utf8(inlines_text(xs)),
    decreases xs,
{
    if xs.len() == 0 {
        lemma_empty_valid();
    } else {
        lemma_inlines_text_valid(xs.drop_last());
        lemma_inline_text_valid(xs.last());
        lemma_cat(inlines_text(xs.drop_last()), inline_text(xs.last()));
    }
}

pub proof fn lemma_inline_text_valid(x: Inline)
    ensures
        valid_utf8(inline_text(x)),
    decreases x,
{
    match x.kind {
        InlineKind::Text(t) => lemma_sbytes_valid(t),
        InlineKind::CodeSpan(t) => lemma_sbytes_valid(t),
        InlineKind::MathInline { typst_src } => lemma_sbytes_valid(typst_src),
        InlineKind::HtmlSpan { raw } => lemma_sbytes_valid(raw),
        InlineKind::SoftBreak => {
            assert(ascii(seq![10u8]));
            lemma_ascii_valid(seq![10u8]);
        },
        InlineKind::HardBreak => {
            assert(ascii(seq![10u8]));
            lemma_ascii_valid(seq![10u8]);
        },
        InlineKind::Ref { label, bracket, .. } => match bracket {
            Some(b) => lemma_inlines_text_valid(b@),
            None => lemma_sbytes_valid(label.name),
        },
        InlineKind::Emph(c) => lemma_inlines_text_valid(c@),
        InlineKind::Strong(c) => lemma_inlines_text_valid(c@),
        InlineKind::Strikethrough(c) => lemma_inlines_text_valid(c@),
        InlineKind::Link { children, .. } => lemma_inlines_text_valid(children@),
        InlineKind::LinkRef { children, .. } => lemma_inlines_text_valid(children@),
        InlineKind::Image { alt, .. } => lemma_inlines_text_valid(alt@),
        InlineKind::ImageRef { alt, .. } => lemma_inlines_text_valid(alt@),
    }
}

/// A title attribute is UTF-8.
pub proof fn lemma_title_attr_valid(title: Option<String>)
    ensures
        valid_utf8(title_attr(title)),
{
    match title {
        Some(t) => {
            lemma_str_valid(" title=\"");
            lemma_str_valid("\"");
            lemma_escaped_string_valid(t);
            lemma_valid_cat3(" title=\"".spec_bytes(), escaped(sbytes(t)), "\"".spec_bytes());
        },
        None => lemma_empty_valid(),
    }
}

/// The label part of a full reference link is UTF-8.
pub proof fn lemma_ref_label_part_valid(label: String, meta: crate::ast::LinkRefMeta)
    ensures
        valid_utf8(ref_label_part(label, meta)),
{
    if meta.label_open_span is Some {
        lemma_str_valid("[");
        lemma_str_valid("]");
        lemma_escaped_string_valid(label);
        lemma_valid_cat3("[".spec_bytes(), escaped(sbytes(label)), "]".spec_bytes());
    } else {
        lemma_empty_valid();
    }
}

/// The HTML of inline nodes is UTF-8.
pub proof fn lemma_inlines_html_valid(xs: Seq<Inline>, ctx: RenderContext, map: Option<&SourceMap>)
    ensures
        valid_utf8(inlines_html(xs, ctx, map)),
    decreases xs,
{
    if xs.len() == 0 {
        lemma_empty_valid();
    } else {
        lemma_inlines_html_valid(xs.drop_last(), ctx, map);
        lemma_inline_html_valid(xs.last(), ctx, map);
        lemma_cat(inlines_html(xs.drop_last(), ctx, map), inline_html_spec(xs.last(), ctx, map));
    }
}

pub proof fn lemma_inline_html_valid(x: Inline, ctx: RenderContext, map: Option<&SourceMap>)
    ensures
        valid_utf8(inline_html_spec(x, ctx, map)),
    decreases x,
{
    match x.kind {
        InlineKind::Text(t) => {
            lemma_escaped_string_valid(t);
            match map {
                Some(m) => {
                    lemma_str_valid("<span");
                    lemma_str_valid(">");
                    lemma_str_valid("</span>");
                    lemma_range_attr_valid(m.spec_position(x.span.start), m.spec_position(x.span.end));
                    lemma_valid_cat5(
                        "<span".spec_bytes(),
                        range_attr(m.spec_position(x.span.start), m.spec_position(x.span.end)),
                        ">".spec_bytes(),
                        escaped(sbytes(t)),
                        "</span>".spec_bytes(),
                    );
                },
                None => {},
            }
        },
        InlineKind::CodeSpan(t) => {
            lemma_escaped_string_valid(t);
            lemma_str_valid("<code>");
            lemma_str_valid("</code>");
            lemma_valid_cat3("<code>".spec_bytes(), escaped(sbytes(t)), "</code>".spec_bytes());
        },
        InlineKind::SoftBreak => {
            assert(ascii(seq![10u8]));
            lemma_ascii_valid(seq![10u8]);
        },
        InlineKind::HardBreak => lemma_str_valid("<br />\n"),
        InlineKind::Ref { label, bracket, resolved } => {
            let name = escaped(sbytes(label.name));
            lemma_escaped_string_valid(label.name);
            let display = match bracket {
                Some(b) => inlines_html(b@, RenderContext::ReferenceText, map),
                None => match resolved {
                    Some(ResolvedRef::Block { display: Some(d), .. }) => inlines_html(
                        d@,
                        RenderContext::ReferenceText,
                        map,
                    ),
                    _ => name,
                },
            };
            match bracket {
                Some(b) => lemma_inlines_html_valid(b@, RenderContext::ReferenceText, map),
                None => match resolved {
                    Some(ResolvedRef::Block { display: Some(d), .. }) => lemma_inlines_html_valid(
                        d@,
                        RenderContext::ReferenceText,
                        map,
                    ),
                    _ => {},
                },
            }
            assert(valid_utf8(display));
            lemma_str_valid("<span class=\"TypMark-delink\">");
            lemma_str_valid("</span>");
            lemma_str_valid("<span class=\"TypMark-delink ref-unresolved\" data-ref-label=\"");
            lemma_str_valid("\">");
            lemma_str_valid("<a class=\"TypMark-ref\" href=\"#");
            lemma_str_valid("</a>");
            lemma_str_valid("<span class=\"TypMark-ref ref-unresolved\" data-ref-label=\"");
            lemma_valid_cat3("<span class=\"TypMark-delink\">".spec_bytes(), display, "</span>".spec_bytes());
            lemma_valid_cat5(
                "<span class=\"TypMark-delink ref-unresolved\" data-ref-label=\"".spec_bytes(),
                name,
                "\">".spec_bytes(),
                display,
                "</span>".spec_bytes(),
            );
            lemma_valid_cat5(
                "<a class=\"TypMark-ref\" href=\"#".spec_bytes(),
                name,
                "\">".spec_bytes(),
                display,
                "</a>".spec_bytes(),
            );
            lemma_valid_cat5(
                "<span class=\"TypMark-ref ref-unresolved\" data-ref-label=\"".spec_bytes(),
                name,
                "\">".spec_bytes(),
                display,
                "</span>".spec_bytes(),
            );
        },
        InlineKind::Emph(c) => {
            lemma_inlines_html_valid(c@, ctx, map);
            lemma_str_valid("<em>");
            lemma_str_valid("</em>");
            lemma_valid_cat3("<em>".spec_bytes(), inlines_html(c@, ctx, map), "</em>".spec_bytes());
        },
        InlineKind::Strong(c) => {
            lemma_inlines_html_valid(c@, ctx, map);
            lemma_str_valid("<strong>");
            lemma_str_valid("</strong>");
            lemma_valid_cat3("<strong>".spec_bytes(), inlines_html(c@, ctx, map), "</strong>".spec_bytes());
        },
        InlineKind::Strikethrough(c) => {
            lemma_inlines_html_valid(c@, ctx, map);
            lemma_str_valid("<del>");
            lemma_str_valid("</del>");
            lemma_valid_cat3("<del>".spec_bytes(), inlines_html(c@, ctx, map), "</del>".spec_bytes());
        },
        InlineKind::Link { url, title, children } => {
            lemma_inlines_html_valid(children@, ctx, map);
            lemma_inlines_html_valid(children@, RenderContext::ReferenceText, map);
            lemma_str_valid("<span class=\"TypMark-delink\">");
            lemma_str_valid("</span>");
            lemma_valid_cat3(
                "<span class=\"TypMark-delink\">".spec_bytes(),
                inlines_html(children@, RenderContext::ReferenceText, map),
                "</span>".spec_bytes(),
            );
            lemma_str_valid("<a href=\"");
            lemma_str_valid("\"");
            lemma_str_valid(">");
            lemma_str_valid("</a>");
            lemma_url_attr_valid(url);
            lemma_title_attr_valid(title);
            lemma_valid_cat4(
                "<a href=\"".spec_bytes(),
                escaped(url_encoded(sbytes(url))),
                "\"".spec_bytes(),
                title_attr(title),
            );
            let head = "<a href=\"".spec_bytes() + escaped(url_encoded(sbytes(url))) + "\"".spec_bytes() + title_attr(
                title,
            );
            lemma_valid_cat4(head, ">".spec_bytes(), inlines_html(children@, ctx, map), "</a>".spec_bytes());
        },
        InlineKind::LinkRef { label, children, meta } => {
            lemma_inlines_html_valid(children@, ctx, map);
            lemma_str_valid("[");
            lemma_str_valid("]");
            lemma_ref_label_part_valid(label, meta);
            lemma_valid_cat4(
                "[".spec_bytes(),
                inlines_html(children@, ctx, map),
                "]".spec_bytes(),
                ref_label_part(label, meta),
            );
        },
        InlineKind::Image { url, title, alt } => {
            lemma_inlines_html_valid(alt@, RenderContext::ReferenceText, map);
            lemma_str_valid("<img src=\"");
            lemma_str_valid("\" alt=\"");
            lemma_str_valid("\"");
            lemma_str_valid(" />");
            lemma_url_attr_valid(url);
            lemma_title_attr_valid(title);
            lemma_inlines_text_valid(alt@);
            lemma_escaped_valid(inlines_text(alt@));
            lemma_valid_cat4(
                "<img src=\"".spec_bytes(),
                escaped(url_encoded(sbytes(url))),
                "\" alt=\"".spec_bytes(),
                escaped(inlines_text(alt@)),
            );
            let head = "<img src=\"".spec_bytes() + escaped(url_encoded(sbytes(url))) + "\" alt=\"".spec_bytes()
                + escaped(inlines_text(alt@));
            lemma_valid_cat4(head, "\"".spec_bytes(), title_attr(title), " />".spec_bytes());
        },
        InlineKind::ImageRef { label, alt, meta } => {
            lemma_inlines_html_valid(alt@, RenderContext::ReferenceText, map);
            lemma_inlines_html_valid(alt@, ctx, map);
            lemma_str_valid("![");
            lemma_str_valid("]");
            lemma_ref_label_part_valid(label, meta);
            lemma_valid_cat4("![".spec_bytes(), inlines_html(alt@, ctx, map), "]".spec_bytes(), ref_label_part(label, meta));
        },
        InlineKind::HtmlSpan { raw } => lemma_sbytes_valid(raw),
        InlineKind::MathInline { typst_src } => {
            lemma_escaped_string_valid(typst_src);
            lemma_str_valid("<span class=\"TypMark-math-inline--error\">");
            lemma_str_valid("</span>");
            lemma_valid_cat3(
                "<span class=\"TypMark-math-inline--error\">".spec_bytes(),
                escaped(sbytes(typst_src)),
                "</span>".spec_bytes(),
            );
        },
    }
}


/// Splitting two texts one after the other at newlines: the last line of the first and the
/// first line of the second join.
pub proof fn lemma_raw_lines_concat(a: Seq<u8>, b: Seq<u8>)
    ensures
        raw_lines(a).len() >= 1,
        raw_lines(b).len() >= 1,
        raw_lines(a + b) == raw_lines(a).drop_last() + seq![raw_lines(a).last() + raw_lines(b)[0]]
            + raw_lines(b).drop_first(),
    decreases b.len(),
{
    lemma_raw_lines_nonempty(a);
    lemma_raw_lines_nonempty(b);
    let ra = raw_lines(a);
    if b.len() == 0 {
        assert(a + b =~= a);
        assert(raw_lines(b) =~= seq![Seq::<u8>::empty()]);
        assert(ra.last() + Seq::<u8>::empty() =~= ra.last());
        assert(ra.drop_last() + seq![ra.last()] =~= ra);
        assert(raw_lines(b).drop_first() =~= Seq::<Seq<u8>>::empty());
        assert(ra.drop_last() + seq![ra.last() + raw_lines(b)[0]] + raw_lines(b).drop_first() =~= ra);
    } else {
        let b1 = b.drop_last();
        let x = b.last();
        lemma_raw_lines_concat(a, b1);
        lemma_raw_lines_nonempty(b1);
        let rb1 = raw_lines(b1);
        let ih = raw_lines(a + b1);
        assert((a + b).drop_last() =~= a + b1);
        assert((a + b).last() == x);
        let rb = raw_lines(b);
        if x == 10u8 {
            assert(raw_lines(a + b) == ih.push(Seq::empty()));
            assert(rb == rb1.push(Seq::empty()));
            assert(rb[0] == rb1[0]);
            assert(rb.drop_first() =~= rb1.drop_first().push(Seq::empty()));
            assert(raw_lines(a + b) =~= ra.drop_last() + seq![ra.last() + rb[0]] + rb.drop_first());
        } else {
            assert(raw_lines(a + b) == ih.update(ih.len() - 1, ih.last().push(x)));
            assert(rb == rb1.update(rb1.len() - 1, rb1.last().push(x)));
            if rb1.len() == 1 {
                assert(rb[0] == rb1[0].push(x));
                assert(ih.last() == ra.last() + rb1[0]);
                assert((ra.last() + rb1[0]).push(x) =~= ra.last() + rb1[0].push(x));
                assert(rb.drop_first() =~= Seq::<Seq<u8>>::empty());
                assert(rb1.drop_first() =~= Seq::<Seq<u8>>::empty());
                assert(raw_lines(a + b) =~= ra.drop_last() + seq![ra.last() + rb[0]] + rb.drop_first());
            } else {
                assert(rb[0] == rb1[0]);
                assert(ih.last() == rb1.last());
                assert(rb.drop_first() =~= rb1.drop_first().update(rb1.len() - 2, rb1.last().push(x)));
                assert(raw_lines(a + b) =~= ra.drop_last() + seq![ra.last() + rb[0]] + rb.drop_first());
            }
        }
    }
}

pub proof fn lemma_raw_lines_nonempty(s: Seq<u8>)
    ensures
        raw_lines(s).len() >= 1,
    decreases s.len(),
{
    if s.len() > 0 {
        lemma_raw_lines_nonempty(s.drop_last());
    }
}

/// A text without newlines is one line.
proof fn lemma_raw_lines_single(s: Seq<u8>)
    requires
        forall|k: int| 0 <= k < s.len() ==> #[trigger] s[k] != 10u8,
    ensures
        raw_lines(s) == seq![s],
    decreases s.len(),
{
    if s.len() > 0 {
        lemma_raw_lines_single(s.drop_last());
        assert(s.drop_last().push(s.last()) =~= s);
        assert(raw_lines(s) =~= seq![s]);
    } else {
        assert(s =~= Seq::<u8>::empty());
    }
}

/// The lines of UTF-8 text are UTF-8.
pub proof fn lemma_raw_lines_valid(s: Seq<u8>)
    requires
        valid_utf8(s),
    ensures
        forall|k: int| 0 <= k < raw_lines(s).len() ==> valid_utf8(#[trigger] raw_lines(s)[k]),
    decreases s.len(),
{
    lemma_raw_lines_nonempty(s);
    if s.len() == 0 {
        assert(raw_lines(s) =~= seq![Seq::<u8>::empty()]);
        lemma_empty_valid();
    } else {
        let l = length_of_first_scalar(s);
        let t = s.subrange(0, l);
        let rest = pop_first_scalar(s);
        assert(s =~= t + rest);
        lemma_raw_lines_valid(rest);
        lemma_raw_lines_concat(t, rest);
        let rr = raw_lines(rest);
        if t == seq![10u8] {
            assert(raw_lines(t) =~= seq![Seq::<u8>::empty(), Seq::<u8>::empty()]) by {
                assert(t.drop_last() =~= Seq::<u8>::empty());
                assert(raw_lines(t.drop_last()) =~= seq![Seq::<u8>::empty()]);
                assert(t.last() == 10u8);
                assert(seq![Seq::<u8>::empty()].push(Seq::<u8>::empty()) =~= seq![Seq::<u8>::empty(), Seq::<u8>::empty()]);
            }
            lemma_empty_valid();
            assert(Seq::<u8>::empty() + rr[0] =~= rr[0]);
            assert forall|k: int| 0 <= k < raw_lines(s).len() implies valid_utf8(#[trigger] raw_lines(s)[k]) by {
                if k == 0 {
                } else if k == 1 {
                    assert(raw_lines(s)[k] == rr[0]);
                } else {
                    assert(raw_lines(s)[k] == rr[k - 1]);
                }
            }
        } else {
            assert forall|k: int| 0 <= k < t.len() implies #[trigger] t[k] != 10u8 by {
                if is_leading_byte_width_1(s[0]) {
                    assert(t.len() == 1);
                    assert(t[0] == s[0]);
                    if s[0] == 10u8 {
                        assert(t =~= seq![10u8]);
                    }
                } else {
                    assert(t[k] == s[k]);
                }
            }
            lemma_raw_lines_single(t);
            assert(valid_first_scalar(t + rest));
            assert(valid_utf8(t)) by {
                assert(valid_first_scalar(t));
                assert(pop_first_scalar(t) =~= Seq::<u8>::empty());
                lemma_empty_valid();
            }
            lemma_cat(t, rr[0]);
            assert forall|k: int| 0 <= k < raw_lines(s).len() implies valid_utf8(#[trigger] raw_lines(s)[k]) by {
                if k == 0 {
                    assert(raw_lines(s)[k] == t + rr[0]);
                } else {
                    assert(raw_lines(s)[k] == rr[k]);
                }
            }
        }
    }
}

/// Dropping a last carriage return keeps UTF-8.
pub proof fn lemma_drop_cr_valid(l: Seq<u8>)
    requires
        valid_utf8(l),
    ensures
        valid_utf8(drop_cr(l)),
{
    if l.len() > 0 && l.last() == 13u8 {
        let i = l.len() - 1;
        vstd::utf8::is_char_boundary_iff_not_is_continuation_byte(l, i);
        vstd::utf8::valid_utf8_split(l, i);
        assert(l.subrange(0, i) =~= l.drop_last());
    }
}

} // verus!
