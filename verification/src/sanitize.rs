use vstd::prelude::*;
use vstd::string::StringSliceAdditionalSpecFns;
use crate::text::bytes_eq;
use crate::ast::{AttrItem, Block, BlockKind, CodeBlockKind, Inline, InlineKind, Label, ResolvedRef, Table, TableAlign};
use crate::block_html::{
    align_attr, attrs_html, block_html, cell_html, code_attrs, code_figure_html, code_pre_html, data_attr, data_attrs, id_attr,
    lang_attr, line_at, list_open, list_tag, range_part, spaces, start_attr, table_html, heading_html,
};
use crate::emit::{decimal, inline_html_spec, range_attr, HtmlEmitOptions, RenderContext};
use crate::source_map::SourceMap;
use std::collections::{HashMap, HashSet};

verus! {

/// What the HTML sanitizer (ammonia's `Builder::clean`, then `to_string`) gives for a text and
/// an allow-list: the tags, the attributes allowed on every tag, the attributes allowed per
/// tag and the allowed attribute-name prefixes (each name by its bytes).
pub uninterp spec fn ammonia_cleaned(
    raw: Seq<char>,
    tags: Seq<Seq<u8>>,
    generic: Seq<Seq<u8>>,
    tag_attrs: Seq<(Seq<u8>, Seq<Seq<u8>>)>,
    prefixes: Seq<Seq<u8>>,
) -> Seq<char>;

/// An allow-list for the HTML sanitizer.
pub struct SanitizePolicy {
    pub tags: Vec<&'static str>,
    pub generic_attributes: Vec<&'static str>,
    pub tag_attributes: Vec<(&'static str, Vec<&'static str>)>,
    pub generic_attribute_prefixes: Vec<&'static str>,
}

pub open spec fn names_view(s: Seq<&'static str>) -> Seq<Seq<u8>> {
    s.map_values(|t: &'static str| t.spec_bytes())
}

pub open spec fn tag_attrs_view(s: Seq<(&'static str, Vec<&'static str>)>) -> Seq<(Seq<u8>, Seq<Seq<u8>>)> {
    s.map_values(|e: (&'static str, Vec<&'static str>)| (e.0.spec_bytes(), names_view(e.1@)))
}

/// The sanitizer panics when a tag it empties (`script`, `style`) is also allowed, or when
/// `rel` is allowed on links while it sets `rel` itself; an allow-list that does neither is
/// safe.
pub open spec fn policy_safe(
    tags: Seq<&'static str>,
    generic: Seq<&'static str>,
    tag_attrs: Seq<(&'static str, Vec<&'static str>)>,
) -> bool {
    &&& forall|i: int| 0 <= i < tags.len() ==> (#[trigger] tags[i]).spec_bytes() != "script".spec_bytes()
        && tags[i].spec_bytes() != "style".spec_bytes()
    &&& forall|i: int| 0 <= i < tag_attrs.len() ==> (#[trigger] tag_attrs[i]).0.spec_bytes()
        != "script".spec_bytes() && tag_attrs[i].0.spec_bytes() != "style".spec_bytes()
    &&& forall|i: int| 0 <= i < generic.len() ==> (#[trigger] generic[i]).spec_bytes() != "rel".spec_bytes()
    &&& forall|i: int, j: int|
        0 <= i < tag_attrs.len() && tag_attrs[i].0.spec_bytes() == "a".spec_bytes() && 0 <= j
            < tag_attrs[i].1@.len() ==> (#[trigger] tag_attrs[i].1@[j]).spec_bytes() != "rel".spec_bytes()
}

/// ammonia's `Builder::new()` with the allow-list set by `tags`, `generic_attributes`,
/// `tag_attributes` and `generic_attribute_prefixes`, then `clean` and `to_string`. The result
/// is named by `ammonia_cleaned`; the call is made only with a safe policy, for which ammonia
/// does not panic.
#[verifier::external_body]
fn ammonia_clean(
    raw: &str,
    tags: &[&'static str],
    generic: &[&'static str],
    tag_attrs: &[(&'static str, Vec<&'static str>)],
    prefixes: &[&'static str],
) -> (r: String)
    requires
        policy_safe(tags@, generic@, tag_attrs@),
    ensures
        r@ == ammonia_cleaned(raw@, names_view(tags@), names_view(generic@), tag_attrs_view(tag_attrs@), names_view(prefixes@)),
{
    let t: HashSet<&str> = tags.iter().copied().collect();
    let g: HashSet<&str> = generic.iter().copied().collect();
    let a: HashMap<&str, HashSet<&str>> = tag_attrs.iter().map(|e| (e.0, e.1.iter().copied().collect())).collect();
    let p: HashSet<&str> = prefixes.iter().copied().collect();
    ammonia::Builder::new().tags(t).generic_attributes(g).tag_attributes(a).generic_attribute_prefixes(p).clean(raw).to_string()
}

/// Whether a name is one of two given names.
fn is_one_of(name: &str, a: &str, b: &str) -> (r: bool)
    ensures
        r == (name.spec_bytes() == a.spec_bytes() || name.spec_bytes() == b.spec_bytes()),
{
    bytes_eq(name.as_bytes(), a.as_bytes()) || bytes_eq(name.as_bytes(), b.as_bytes())
}

/// Whether the allow-list is safe for the sanitizer.
pub fn policy_is_safe(p: &SanitizePolicy) -> (r: bool)
    ensures
        r == policy_safe(p.tags@, p.generic_attributes@, p.tag_attributes@),
{
    let mut i: usize = 0;
    while i < p.tags.len()
        invariant
            i <= p.tags@.len(),
            forall|k: int| 0 <= k < i ==> (#[trigger] p.tags@[k]).spec_bytes() != "script".spec_bytes()
                && p.tags@[k].spec_bytes() != "style".spec_bytes(),
        decreases p.tags.len() - i,
    {
        if is_one_of(p.tags[i], "script", "style") {
            return false;
        }
        i = i + 1;
    }
    let mut i: usize = 0;
    while i < p.generic_attributes.len()
        invariant
            i <= p.generic_attributes@.len(),
            forall|k: int| 0 <= k < i ==> (#[trigger] p.generic_attributes@[k]).spec_bytes() != "rel".spec_bytes(),
        decreases p.generic_attributes.len() - i,
    {
        if bytes_eq(p.generic_attributes[i].as_bytes(), "rel".as_bytes()) {
            return false;
        }
        i = i + 1;
    }
    let mut i: usize = 0;
    while i < p.tag_attributes.len()
        invariant
            i <= p.tag_attributes@.len(),
            forall|k: int| 0 <= k < i ==> (#[trigger] p.tag_attributes@[k]).0.spec_bytes()
                != "script".spec_bytes() && p.tag_attributes@[k].0.spec_bytes() != "style".spec_bytes(),
            forall|k: int, j: int|
                0 <= k < i && p.tag_attributes@[k].0.spec_bytes() == "a".spec_bytes() && 0 <= j
                    < p.tag_attributes@[k].1@.len() ==> (#[trigger] p.tag_attributes@[k].1@[j]).spec_bytes()
                    != "rel".spec_bytes(),
        decreases p.tag_attributes.len() - i,
    {
        let (tag, attrs) = &p.tag_attributes[i];
        if is_one_of(*tag, "script", "style") {
            return false;
        }
        if bytes_eq(tag.as_bytes(), "a".as_bytes()) {
            let mut j: usize = 0;
            while j < attrs.len()
                invariant
                    j <= attrs@.len(),
                    i < p.tag_attributes@.len(),
                    *attrs == p.tag_attributes@[i as int].1,
                    *tag == p.tag_attributes@[i as int].0,
                    tag.spec_bytes() == "a".spec_bytes(),
                    forall|q: int| 0 <= q < j ==> (#[trigger] attrs@[q]).spec_bytes() != "rel".spec_bytes(),
                decreases attrs.len() - j,
            {
                if bytes_eq(attrs[j].as_bytes(), "rel".as_bytes()) {
                    assert(p.tag_attributes@[i as int].0.spec_bytes() == "a".spec_bytes());
                    assert(p.tag_attributes@[i as int].1@[j as int].spec_bytes() == "rel".spec_bytes());
                    return false;
                }
                j = j + 1;
            }
        }
        i = i + 1;
    }
    true
}

/// Sanitizes HTML with an allow-list: `None` when the allow-list is not safe for the
/// sanitizer, else what it gives.
pub fn sanitize_with_policy(raw: &str, p: &SanitizePolicy) -> (r: Option<String>)
    ensures
        r is None <==> !policy_safe(p.tags@, p.generic_attributes@, p.tag_attributes@),
        r matches Some(s) ==> s@ == ammonia_cleaned(
            raw@,
            names_view(p.tags@),
            names_view(p.generic_attributes@),
            tag_attrs_view(p.tag_attributes@),
            names_view(p.generic_attribute_prefixes@),
        ),
{
    if !policy_is_safe(p) {
        return None;
    }
    Some(
        ammonia_clean(
            raw,
            p.tags.as_slice(),
            p.generic_attributes.as_slice(),
            p.tag_attributes.as_slice(),
            p.generic_attribute_prefixes.as_slice(),
        ),
    )
}

/// Whether an allow-list, by its names' bytes, is safe for the sanitizer (see `policy_safe`).
pub open spec fn views_safe(
    tags: Seq<Seq<u8>>,
    generic: Seq<Seq<u8>>,
    tag_attrs: Seq<(Seq<u8>, Seq<Seq<u8>>)>,
) -> bool {
    &&& forall|i: int| 0 <= i < tags.len() ==> #[trigger] tags[i] != "script".spec_bytes() && tags[i] != "style".spec_bytes()
    &&& forall|i: int| 0 <= i < tag_attrs.len() ==> (#[trigger] tag_attrs[i]).0 != "script".spec_bytes()
        && tag_attrs[i].0 != "style".spec_bytes()
    &&& forall|i: int| 0 <= i < generic.len() ==> #[trigger] generic[i] != "rel".spec_bytes()
    &&& forall|i: int, j: int|
        0 <= i < tag_attrs.len() && tag_attrs[i].0 == "a".spec_bytes() && 0 <= j < tag_attrs[i].1.len()
            ==> #[trigger] tag_attrs[i].1[j] != "rel".spec_bytes()
}

proof fn lemma_views_safe(
    tags: Seq<&'static str>,
    generic: Seq<&'static str>,
    tag_attrs: Seq<(&'static str, Vec<&'static str>)>,
)
    ensures
        policy_safe(tags, generic, tag_attrs) == views_safe(names_view(tags), names_view(generic), tag_attrs_view(tag_attrs)),
{
    let t = names_view(tags);
    let g = names_view(generic);
    let ta = tag_attrs_view(tag_attrs);
    assert forall|i: int| 0 <= i < tags.len() implies #[trigger] t[i] == tags[i].spec_bytes() by {}
    assert forall|i: int| 0 <= i < generic.len() implies #[trigger] g[i] == generic[i].spec_bytes() by {}
    assert forall|i: int| 0 <= i < tag_attrs.len() implies #[trigger] ta[i] == (tag_attrs[i].0.spec_bytes(), names_view(tag_attrs[i].1@)) by {}
    let p1 = forall|i: int| 0 <= i < tags.len() ==> (#[trigger] tags[i]).spec_bytes() != "script".spec_bytes()
        && tags[i].spec_bytes() != "style".spec_bytes();
    let q1 = forall|i: int| 0 <= i < t.len() ==> #[trigger] t[i] != "script".spec_bytes() && t[i] != "style".spec_bytes();
    assert(p1 == q1) by {
        if p1 {
            assert forall|i: int| 0 <= i < t.len() implies #[trigger] t[i] != "script".spec_bytes() && t[i] != "style".spec_bytes() by {
                assert(t[i] == tags[i].spec_bytes());
            }
        }
        if q1 {
            assert forall|i: int| 0 <= i < tags.len() implies (#[trigger] tags[i]).spec_bytes() != "script".spec_bytes()
                && tags[i].spec_bytes() != "style".spec_bytes() by {
                assert(t[i] == tags[i].spec_bytes());
            }
        }
    }
    let p2 = forall|i: int| 0 <= i < tag_attrs.len() ==> (#[trigger] tag_attrs[i]).0.spec_bytes()
        != "script".spec_bytes() && tag_attrs[i].0.spec_bytes() != "style".spec_bytes();
    let q2 = forall|i: int| 0 <= i < ta.len() ==> (#[trigger] ta[i]).0 != "script".spec_bytes()
        && ta[i].0 != "style".spec_bytes();
    assert(p2 == q2) by {
        if p2 {
            assert forall|i: int| 0 <= i < ta.len() implies (#[trigger] ta[i]).0 != "script".spec_bytes()
                && ta[i].0 != "style".spec_bytes() by {
                assert(ta[i].0 == tag_attrs[i].0.spec_bytes());
            }
        }
        if q2 {
            assert forall|i: int| 0 <= i < tag_attrs.len() implies (#[trigger] tag_attrs[i]).0.spec_bytes()
                != "script".spec_bytes() && tag_attrs[i].0.spec_bytes() != "style".spec_bytes() by {
                assert(ta[i].0 == tag_attrs[i].0.spec_bytes());
            }
        }
    }
    let p3 = forall|i: int| 0 <= i < generic.len() ==> (#[trigger] generic[i]).spec_bytes() != "rel".spec_bytes();
    let q3 = forall|i: int| 0 <= i < g.len() ==> #[trigger] g[i] != "rel".spec_bytes();
    assert(p3 == q3) by {
        if p3 {
            assert forall|i: int| 0 <= i < g.len() implies #[trigger] g[i] != "rel".spec_bytes() by {
                assert(g[i] == generic[i].spec_bytes());
            }
        }
        if q3 {
            assert forall|i: int| 0 <= i < generic.len() implies (#[trigger] generic[i]).spec_bytes() != "rel".spec_bytes() by {
                assert(g[i] == generic[i].spec_bytes());
            }
        }
    }
    let p4 = forall|i: int, j: int|
        0 <= i < tag_attrs.len() && tag_attrs[i].0.spec_bytes() == "a".spec_bytes() && 0 <= j
            < tag_attrs[i].1@.len() ==> (#[trigger] tag_attrs[i].1@[j]).spec_bytes() != "rel".spec_bytes();
    let q4 = forall|i: int, j: int|
        0 <= i < ta.len() && ta[i].0 == "a".spec_bytes() && 0 <= j < ta[i].1.len()
            ==> #[trigger] ta[i].1[j] != "rel".spec_bytes();
    assert(p4 == q4) by {
        if p4 {
            assert forall|i: int, j: int|
                0 <= i < ta.len() && ta[i].0 == "a".spec_bytes() && 0 <= j < ta[i].1.len() implies #[trigger] ta[i].1[j]
                    != "rel".spec_bytes() by {
                assert(ta[i] == (tag_attrs[i].0.spec_bytes(), names_view(tag_attrs[i].1@)));
                assert(ta[i].1[j] == tag_attrs[i].1@[j].spec_bytes());
            }
        }
        if q4 {
            assert forall|i: int, j: int|
                0 <= i < tag_attrs.len() && tag_attrs[i].0.spec_bytes() == "a".spec_bytes() && 0 <= j
                    < tag_attrs[i].1@.len() implies (#[trigger] tag_attrs[i].1@[j]).spec_bytes() != "rel".spec_bytes() by {
                assert(ta[i] == (tag_attrs[i].0.spec_bytes(), names_view(tag_attrs[i].1@)));
                assert(ta[i].1[j] == tag_attrs[i].1@[j].spec_bytes());
            }
        }
    }
}

/// `h` opens the element `name`: `<`, then the name (a word without spaces or `>`), then a
/// space or `>`.
pub open spec fn opens_element(h: Seq<u8>, name: Seq<u8>) -> bool {
    &&& h.len() > name.len() + 1
    &&& h[0] == 60u8
    &&& h.subrange(1, name.len() + 1int) == name
    &&& forall|k: int| 0 <= k < name.len() ==> #[trigger] name[k] != 32u8 && name[k] != 62u8
    &&& (h[name.len() + 1int] == 32u8 || h[name.len() + 1int] == 62u8)
}

/// From `off` on, `h` opens an element, and every element name it opens there is kept.
pub open spec fn opens_kept_at(h: Seq<u8>, off: int) -> bool {
    let body = h.subrange(off, h.len() as int);
    &&& exists|name: Seq<u8>| #[trigger] opens_element(body, name)
    &&& forall|name: Seq<u8>| #[trigger] opens_element(body, name) ==> kept_tags().contains(name)
}

/// The line that opens a table.
pub open spec fn table_open_line(b: Block, indent: usize, map: Option<&SourceMap>) -> Seq<u8> {
    crate::block_html::line_at(
        indent,
        seq![60u8] + "table".spec_bytes() + attrs_html(b.attrs.label, b.attrs.items@) + range_part(map, b.span)
            + seq![62u8],
    )
}

/// A known word opened at the start of `h`, with a space or `>` after it, is the only
/// element name `h` opens.
proof fn lemma_opens_only(h: Seq<u8>, word: Seq<u8>, name: Seq<u8>)
    requires
        opens_element(h, word),
        opens_element(h, name),
    ensures
        name == word,
{
    if name.len() < word.len() {
        assert(h[name.len() + 1int] == word[name.len() as int]);
    } else if name.len() > word.len() {
        assert(h[word.len() + 1int] == name[word.len() as int]);
    } else {
        assert(name =~= word);
    }
}

/// An ASCII literal's bytes are its characters.
proof fn lemma_lit(s: &str)
    requires
        vstd::string::is_ascii(s),
    ensures
        s.spec_bytes() =~= Seq::new(s@.len(), |i| s@.index(i) as u8),
{
    vstd::string::is_ascii_spec_bytes(s);
}

/// The attributes of a block's element, and the range attribute, start with a space.
proof fn lemma_attrs_lead_space(label: Option<Label>, items: Seq<AttrItem>, map: Option<&SourceMap>, span: crate::span::Span)
    ensures
        ({
            let a = attrs_html(label, items) + range_part(map, span) + seq![62u8];
            a.len() > 0 && (a[0] == 32u8 || a[0] == 62u8)
        }),
{
    reveal_strlit(" data-tm-range=\"");
    assert(vstd::string::is_ascii(" data-tm-range=\""));
    lemma_lit(" data-tm-range=\"");
    lemma_data_attrs_lead_space(items);
    let rp = range_part(map, span);
    match map {
        Some(m) => {
            let r = range_attr(m.spec_position(span.start), m.spec_position(span.end));
            assert(r[0] == " data-tm-range=\"".spec_bytes()[0]);
            assert(rp[0] == 32u8);
        },
        None => {
            assert(rp.len() == 0);
        },
    }
    let at = attrs_html(label, items);
    match label {
        Some(l) => {
            assert(id_attr(l)[0] == 32u8);
            assert(at[0] == 32u8);
        },
        None => {},
    }
    let a = at + rp + seq![62u8];
    if at.len() > 0 {
        assert(a[0] == at[0]);
    } else if rp.len() > 0 {
        assert(a[0] == rp[0]);
    } else {
        assert(a[0] == 62u8);
    }
}

proof fn lemma_data_attrs_lead_space(items: Seq<AttrItem>)
    ensures
        data_attrs(items).len() > 0 ==> data_attrs(items)[0] == 32u8,
    decreases items.len(),
{
    reveal_strlit(" data-");
    assert(vstd::string::is_ascii(" data-"));
    lemma_lit(" data-");
    if items.len() > 0 {
        lemma_data_attrs_lead_space(items.drop_last());
        let d = data_attr(items.last());
        assert(d[0] == " data-".spec_bytes()[0]);
        let all = data_attrs(items);
        if data_attrs(items.drop_last()).len() > 0 {
            assert(all[0] == data_attrs(items.drop_last())[0]);
        } else {
            assert(all[0] == d[0]);
        }
    }
}

/// Joining keeps the bytes of the first part.
proof fn lemma_add_prefix(x: Seq<u8>, y: Seq<u8>)
    ensures
        (x + y).len() >= x.len(),
        forall|j: int| 0 <= j < x.len() ==> #[trigger] (x + y)[j] == x[j],
{
}

/// A table's HTML begins with the line that opens the table.
proof fn lemma_table_first_line(b: Block, t: Table, indent: usize, map: Option<&SourceMap>)
    ensures
        ({
            let h = table_html(b, t, indent, map);
            let l0 = crate::block_html::line_at(
                indent,
                seq![60u8] + "table".spec_bytes() + attrs_html(b.attrs.label, b.attrs.items@) + range_part(map, b.span)
                    + seq![62u8],
            );
            h.len() >= l0.len() && forall|j: int| 0 <= j < l0.len() ==> h[j] == l0[j]
        }),
        ({
            let h = table_html(b, t, indent, map);
            let d1 = crate::block_html::deeper(indent);
            let d2 = crate::block_html::deeper(d1);
            let p2 = table_open_line(b, indent, map) + crate::block_html::line_at(d1, "<thead>".spec_bytes())
                + crate::block_html::line_at(d2, "<tr>".spec_bytes());
            h.len() >= p2.len() && forall|j: int| 0 <= j < p2.len() ==> h[j] == p2[j]
        }),
        ({
            let h = table_html(b, t, indent, map);
            let d1 = crate::block_html::deeper(indent);
            let d2 = crate::block_html::deeper(d1);
            let p6 = table_open_line(b, indent, map) + crate::block_html::line_at(d1, "<thead>".spec_bytes())
                + crate::block_html::line_at(d2, "<tr>".spec_bytes()) + crate::block_html::cells_html(
                t.headers@,
                t.aligns@,
                crate::block_html::deeper(d2),
                true,
                map,
            ) + crate::block_html::line_at(d2, "</tr>".spec_bytes()) + crate::block_html::line_at(
                d1,
                "</thead>".spec_bytes(),
            ) + crate::block_html::line_at(d1, "<tbody>".spec_bytes());
            t.rows@.len() > 0 ==> h.len() >= p6.len() && forall|j: int| 0 <= j < p6.len() ==> h[j] == p6[j]
        }),
{
    let d1 = crate::block_html::deeper(indent);
    let d2 = crate::block_html::deeper(d1);
    let l0 = crate::block_html::line_at(
        indent,
        seq![60u8] + "table".spec_bytes() + attrs_html(b.attrs.label, b.attrs.items@) + range_part(map, b.span)
            + seq![62u8],
    );
    let p1 = l0 + crate::block_html::line_at(d1, "<thead>".spec_bytes());
    let p2 = p1 + crate::block_html::line_at(d2, "<tr>".spec_bytes());
    let p3 = p2 + crate::block_html::cells_html(t.headers@, t.aligns@, crate::block_html::deeper(d2), true, map);
    let p4 = p3 + crate::block_html::line_at(d2, "</tr>".spec_bytes());
    let p5 = p4 + crate::block_html::line_at(d1, "</thead>".spec_bytes());
    let body = if t.rows@.len() > 0 {
        crate::block_html::line_at(d1, "<tbody>".spec_bytes()) + crate::block_html::rows_html(t.rows@, t.aligns@, d2, map)
            + crate::block_html::line_at(d1, "</tbody>".spec_bytes())
    } else {
        Seq::empty()
    };
    let p6 = p5 + body;
    let p7 = p6 + crate::block_html::line_at(indent, "</table>".spec_bytes());
    assert(table_html(b, t, indent, map) == p7);
    lemma_add_prefix(l0, crate::block_html::line_at(d1, "<thead>".spec_bytes()));
    lemma_add_prefix(p1, crate::block_html::line_at(d2, "<tr>".spec_bytes()));
    lemma_add_prefix(p2, crate::block_html::cells_html(t.headers@, t.aligns@, crate::block_html::deeper(d2), true, map));
    lemma_add_prefix(p3, crate::block_html::line_at(d2, "</tr>".spec_bytes()));
    lemma_add_prefix(p4, crate::block_html::line_at(d1, "</thead>".spec_bytes()));
    lemma_add_prefix(p5, body);
    lemma_add_prefix(p6, crate::block_html::line_at(indent, "</table>".spec_bytes()));
    if t.rows@.len() > 0 {
        let tb = crate::block_html::line_at(d1, "<tbody>".spec_bytes());
        let rh = crate::block_html::rows_html(t.rows@, t.aligns@, d2, map);
        let te = crate::block_html::line_at(d1, "</tbody>".spec_bytes());
        lemma_add_prefix(p5 + tb, rh);
        lemma_add_prefix(p5 + tb + rh, te);
        assert(p6 =~= p5 + tb + rh + te);
    }
}

/// A text that has, at `off`, `<`, the kept tag name `kept_tags()[k]`, and then a space or
/// `>`, opens from there a kept element and no other.
proof fn lemma_opens_kept(h: Seq<u8>, off: int, k: int, a: Seq<u8>)
    requires
        0 <= k < kept_tags().len(),
        0 <= off,
        a.len() > 0,
        a[0] == 32u8 || a[0] == 62u8,
        h.len() >= off + 1 + kept_tags()[k].len() + a.len(),
        forall|j: int|
            0 <= j < 1 + kept_tags()[k].len() + a.len() ==> h[off + j] == (seq![60u8] + kept_tags()[k] + a)[j],
        forall|j: int| 0 <= j < kept_tags()[k].len() ==> #[trigger] kept_tags()[k][j] != 32u8 && kept_tags()[k][j] != 62u8,
    ensures
        ({
            let body = h.subrange(off, h.len() as int);
            &&& exists|name: Seq<u8>| #[trigger] opens_element(body, name)
            &&& forall|name: Seq<u8>| #[trigger] opens_element(body, name) ==> kept_tags().contains(name)
        }),
{
    let word = kept_tags()[k];
    let first = seq![60u8] + word + a;
    let body = h.subrange(off, h.len() as int);
    assert forall|j: int| 0 <= j < first.len() implies #[trigger] body[j] == first[j] by {
        assert(body[j] == h[off + j]);
    }
    assert(body[0] == 60u8);
    assert(body.subrange(1, word.len() + 1int) =~= word) by {
        assert forall|j: int| 0 <= j < word.len() implies body.subrange(1, word.len() + 1int)[j] == word[j] by {
            assert(body[1 + j] == first[1 + j]);
        }
    }
    assert(body[word.len() + 1int] == first[word.len() + 1int]);
    assert(opens_element(body, word));
    assert forall|name: Seq<u8>| #[trigger] opens_element(body, name) implies kept_tags().contains(name) by {
        lemma_opens_only(body, word, name);
    }
}

/// The kept tag names the table's lines open: `table`, `thead`, `tbody` and `tr`.
proof fn lemma_table_words()
    ensures
        kept_tags()[34] == "table".spec_bytes(),
        kept_tags()[35] == "thead".spec_bytes(),
        kept_tags()[36] == "tbody".spec_bytes(),
        kept_tags()[37] == "tr".spec_bytes(),
        "table".spec_bytes() =~= seq![116u8, 97u8, 98u8, 108u8, 101u8],
        "thead".spec_bytes() =~= seq![116u8, 104u8, 101u8, 97u8, 100u8],
        "tbody".spec_bytes() =~= seq![116u8, 98u8, 111u8, 100u8, 121u8],
        "tr".spec_bytes() =~= seq![116u8, 114u8],
        "<thead>".spec_bytes() =~= seq![60u8] + "thead".spec_bytes() + seq![62u8],
        "<tbody>".spec_bytes() =~= seq![60u8] + "tbody".spec_bytes() + seq![62u8],
        "<tr>".spec_bytes() =~= seq![60u8] + "tr".spec_bytes() + seq![62u8],
{
    reveal_strlit("table");
    reveal_strlit("thead");
    reveal_strlit("tbody");
    reveal_strlit("tr");
    reveal_strlit("<thead>");
    reveal_strlit("<tbody>");
    reveal_strlit("<tr>");
    assert(vstd::string::is_ascii("table"));
    assert(vstd::string::is_ascii("thead"));
    assert(vstd::string::is_ascii("tbody"));
    assert(vstd::string::is_ascii("tr"));
    assert(vstd::string::is_ascii("<thead>"));
    assert(vstd::string::is_ascii("<tbody>"));
    assert(vstd::string::is_ascii("<tr>"));
    lemma_lit("table");
    lemma_lit("thead");
    lemma_lit("tbody");
    lemma_lit("tr");
    lemma_lit("<thead>");
    lemma_lit("<tbody>");
    lemma_lit("<tr>");
}

/// The element a table's HTML opens, after its indentation, survives sanitizing.
#[verifier::spinoff_prover]
#[verifier::rlimit(100)]
pub proof fn law_table_element_kept(b: Block, t: Table, indent: usize, map: Option<&SourceMap>)
    ensures
        ({
            let h = table_html(b, t, indent, map);
            let body = h.subrange(spaces(indent as nat).len() as int, h.len() as int);
            &&& exists|name: Seq<u8>| #[trigger] opens_element(body, name)
            &&& forall|name: Seq<u8>| #[trigger] opens_element(body, name) ==> kept_tags().contains(name)
        }),
{
    reveal_strlit("table");
    assert(vstd::string::is_ascii("table"));
    lemma_lit("table");
    let h = table_html(b, t, indent, map);
    let sp = spaces(indent as nat);
    let a = attrs_html(b.attrs.label, b.attrs.items@) + range_part(map, b.span) + seq![62u8];
    lemma_attrs_lead_space(b.attrs.label, b.attrs.items@, map, b.span);
    let first0 = seq![60u8] + "table".spec_bytes() + attrs_html(b.attrs.label, b.attrs.items@) + range_part(map, b.span)
        + seq![62u8];
    assert(first0 =~= seq![60u8] + "table".spec_bytes() + a);
    let l0 = crate::block_html::line_at(indent, first0);
    lemma_table_first_line(b, t, indent, map);
    assert(l0 == sp + first0 + seq![10u8]);
    assert(l0.len() == sp.len() + 6 + a.len() + 1);
    assert forall|j: int| 0 <= j < 6 + a.len() implies h[sp.len() + j] == (seq![60u8] + "table".spec_bytes() + a)[j] by {
        assert(h[sp.len() + j] == l0[sp.len() + j]);
    }
    lemma_table_words();
    let w = kept_tags()[34];
    assert(w == "table".spec_bytes());
    assert forall|j: int| 0 <= j < w.len() implies #[trigger] w[j] != 32u8 && w[j] != 62u8 by {}
    assert forall|j: int| 0 <= j < 1 + w.len() + a.len() implies h[sp.len() + j] == (seq![60u8] + w + a)[j] by {
        assert(h[sp.len() + j] == (seq![60u8] + "table".spec_bytes() + a)[j]);
    }
    lemma_opens_kept(h, sp.len() as int, 34, a);
}

/// The head, its row and the body of a table's HTML open elements that survive sanitizing:
/// the line after the table's opening line, the line after that, and, when the table has
/// body rows, the line after the head.
#[verifier::spinoff_prover]
#[verifier::rlimit(100)]
pub proof fn law_table_parts_kept(b: Block, t: Table, indent: usize, map: Option<&SourceMap>)
    ensures
        ({
            let h = table_html(b, t, indent, map);
            let d1 = crate::block_html::deeper(indent);
            let d2 = crate::block_html::deeper(d1);
            let o1 = table_open_line(b, indent, map).len() as int;
            let o2 = o1 + crate::block_html::line_at(d1, "<thead>".spec_bytes()).len();
            let o5 = o2 + crate::block_html::line_at(d2, "<tr>".spec_bytes()).len() + crate::block_html::cells_html(
                t.headers@,
                t.aligns@,
                crate::block_html::deeper(d2),
                true,
                map,
            ).len() + crate::block_html::line_at(d2, "</tr>".spec_bytes()).len() + crate::block_html::line_at(
                d1,
                "</thead>".spec_bytes(),
            ).len();
            &&& opens_kept_at(h, o1 + spaces(d1 as nat).len())
            &&& opens_kept_at(h, o2 + spaces(d2 as nat).len())
            &&& t.rows@.len() > 0 ==> opens_kept_at(h, o5 + spaces(d1 as nat).len())
        }),
{
    lemma_table_first_line(b, t, indent, map);
    lemma_table_words();
    let h = table_html(b, t, indent, map);
    let d1 = crate::block_html::deeper(indent);
    let d2 = crate::block_html::deeper(d1);
    let l0 = table_open_line(b, indent, map);
    let lh = crate::block_html::line_at(d1, "<thead>".spec_bytes());
    let lr = crate::block_html::line_at(d2, "<tr>".spec_bytes());
    let o1 = l0.len() as int;
    let o2 = o1 + lh.len();
    let gt = seq![62u8];
    // thead
    let w1 = kept_tags()[35];
    assert forall|j: int| 0 <= j < w1.len() implies #[trigger] w1[j] != 32u8 && w1[j] != 62u8 by {}
    let s1 = spaces(d1 as nat).len() as int;
    assert forall|j: int| 0 <= j < 1 + w1.len() + gt.len() implies h[o1 + s1 + j] == (seq![60u8] + w1 + gt)[j] by {
        assert(h[o1 + s1 + j] == (l0 + lh + lr)[o1 + s1 + j]);
        assert((l0 + lh + lr)[o1 + s1 + j] == lh[s1 + j]);
        assert(lh[s1 + j] == "<thead>".spec_bytes()[j]);
    }
    lemma_opens_kept(h, o1 + s1, 35, gt);
    // tr
    let w2 = kept_tags()[37];
    assert forall|j: int| 0 <= j < w2.len() implies #[trigger] w2[j] != 32u8 && w2[j] != 62u8 by {}
    let s2 = spaces(d2 as nat).len() as int;
    assert forall|j: int| 0 <= j < 1 + w2.len() + gt.len() implies h[o2 + s2 + j] == (seq![60u8] + w2 + gt)[j] by {
        assert(h[o2 + s2 + j] == (l0 + lh + lr)[o2 + s2 + j]);
        assert((l0 + lh + lr)[o2 + s2 + j] == lr[s2 + j]);
        assert(lr[s2 + j] == "<tr>".spec_bytes()[j]);
    }
    lemma_opens_kept(h, o2 + s2, 37, gt);
    // tbody
    if t.rows@.len() > 0 {
        let cells = crate::block_html::cells_html(t.headers@, t.aligns@, crate::block_html::deeper(d2), true, map);
        let lre = crate::block_html::line_at(d2, "</tr>".spec_bytes());
        let lhe = crate::block_html::line_at(d1, "</thead>".spec_bytes());
        let lb = crate::block_html::line_at(d1, "<tbody>".spec_bytes());
        let p5 = l0 + lh + lr + cells + lre + lhe;
        let o5 = p5.len() as int;
        let w3 = kept_tags()[36];
        assert forall|j: int| 0 <= j < w3.len() implies #[trigger] w3[j] != 32u8 && w3[j] != 62u8 by {}
        assert forall|j: int| 0 <= j < 1 + w3.len() + gt.len() implies h[o5 + s1 + j] == (seq![60u8] + w3 + gt)[j] by {
            assert(h[o5 + s1 + j] == (p5 + lb)[o5 + s1 + j]);
            assert((p5 + lb)[o5 + s1 + j] == lb[s1 + j]);
            assert(lb[s1 + j] == "<tbody>".spec_bytes()[j]);
        }
        lemma_opens_kept(h, o5 + s1, 36, gt);
    }
}

/// The element a table cell's HTML opens (a header or a body cell) survives sanitizing.
pub proof fn law_cell_element_kept(cell: Seq<Inline>, align: Option<TableAlign>, header: bool, map: Option<&SourceMap>)
    ensures
        ({
            let h = cell_html(cell, align, header, map);
            &&& exists|name: Seq<u8>| #[trigger] opens_element(h, name)
            &&& forall|name: Seq<u8>| #[trigger] opens_element(h, name) ==> kept_tags().contains(name)
        }),
{
    reveal_strlit("<th");
    reveal_strlit("<td");
    reveal_strlit("th");
    reveal_strlit("td");
    reveal_strlit(" align=\"left\"");
    reveal_strlit(" align=\"center\"");
    reveal_strlit(" align=\"right\"");
    reveal_strlit("");
    assert(vstd::string::is_ascii("<th"));
    assert(vstd::string::is_ascii("<td"));
    assert(vstd::string::is_ascii("th"));
    assert(vstd::string::is_ascii("td"));
    assert(vstd::string::is_ascii(" align=\"left\""));
    assert(vstd::string::is_ascii(" align=\"center\""));
    assert(vstd::string::is_ascii(" align=\"right\""));
    assert(vstd::string::is_ascii(""));
    lemma_lit("<th");
    lemma_lit("<td");
    lemma_lit("th");
    lemma_lit("td");
    lemma_lit(" align=\"left\"");
    lemma_lit(" align=\"center\"");
    lemma_lit(" align=\"right\"");
    lemma_lit("");
    let h = cell_html(cell, align, header, map);
    let open = if header { "<th".spec_bytes() } else { "<td".spec_bytes() };
    let word = if header { "th".spec_bytes() } else { "td".spec_bytes() };
    let al = align_attr(align);
    assert(al.len() == 0 || al[0] == 32u8);
    let a = al + seq![62u8];
    assert(a[0] == 32u8 || a[0] == 62u8);
    let rest = h.subrange((open.len() + a.len()) as int, h.len() as int);
    assert(h =~= open + a + rest);
    assert(h[0] == 60u8);
    assert(h.subrange(1, 3) =~= word);
    assert(h[3] == a[0]);
    assert(opens_element(h, word));
    if header {
        assert(kept_tags()[38] == word);
    } else {
        assert(kept_tags()[39] == word);
    }
    assert forall|name: Seq<u8>| #[trigger] opens_element(h, name) implies kept_tags().contains(name) by {
        lemma_opens_only(h, word, name);
    }
}

/// HTML that starts with `pre`, itself `<`, the kept tag name `kept_tags()[k]` and a space or
/// `>`, opens a kept element and no other.
proof fn lemma_prefix_opens(h: Seq<u8>, pre: Seq<u8>, k: int)
    requires
        0 <= k < kept_tags().len(),
        pre.len() >= kept_tags()[k].len() + 2,
        h.len() >= pre.len(),
        forall|j: int| 0 <= j < pre.len() ==> h[j] == pre[j],
        pre[0] == 60u8,
        forall|j: int|
            0 <= j < kept_tags()[k].len() ==> pre[1 + j] == #[trigger] kept_tags()[k][j] && kept_tags()[k][j] != 32u8
                && kept_tags()[k][j] != 62u8,
        pre[1int + kept_tags()[k].len()] == 32u8 || pre[1int + kept_tags()[k].len()] == 62u8,
    ensures
        opens_kept_at(h, 0),
{
    let w = kept_tags()[k];
    let a = h.subrange(1int + w.len(), h.len() as int);
    assert forall|j: int| 0 <= j < 1 + w.len() + a.len() implies h[0 + j] == (seq![60u8] + w + a)[j] by {
        if j == 0 {
        } else if j < 1 + w.len() {
            assert(h[j] == pre[j]);
            assert(pre[1 + (j - 1)] == w[j - 1]);
        }
    }
    assert(a[0] == pre[1int + w.len()]);
    lemma_opens_kept(h, 0, k, a);
}

/// The element that the HTML of an inline node opens survives sanitizing: emphasis, strong
/// emphasis, strikethrough, code spans, line breaks, links, images, references and inline
/// math. (Text, soft breaks, raw HTML and unresolved link references open no element of
/// their own; nor does an image shown as its alt text in a reference's text.)
#[verifier::spinoff_prover]
#[verifier::rlimit(100)]
pub proof fn law_inline_element_kept(x: Inline, ctx: RenderContext, map: Option<&SourceMap>)
    requires
        !(x.kind is Text || x.kind is SoftBreak || x.kind is HtmlSpan || x.kind is LinkRef || x.kind is ImageRef),
        x.kind is Image ==> ctx != RenderContext::ReferenceText,
    ensures
        opens_kept_at(inline_html_spec(x, ctx, map), 0),
{
    let h = inline_html_spec(x, ctx, map);
    match x.kind {
        InlineKind::Emph(c) => {
            reveal_strlit("<em>");
            reveal_strlit("em");
            assert(vstd::string::is_ascii("<em>"));
            assert(vstd::string::is_ascii("em"));
            lemma_lit("<em>");
            lemma_lit("em");
            assert(kept_tags()[12] == "em".spec_bytes());
            lemma_prefix_opens(h, "<em>".spec_bytes(), 12);
        },
        InlineKind::Strong(c) => {
            reveal_strlit("<strong>");
            reveal_strlit("strong");
            assert(vstd::string::is_ascii("<strong>"));
            assert(vstd::string::is_ascii("strong"));
            lemma_lit("<strong>");
            lemma_lit("strong");
            assert(kept_tags()[28] == "strong".spec_bytes());
            lemma_prefix_opens(h, "<strong>".spec_bytes(), 28);
        },
        InlineKind::Strikethrough(c) => {
            reveal_strlit("<del>");
            reveal_strlit("del");
            assert(vstd::string::is_ascii("<del>"));
            assert(vstd::string::is_ascii("del"));
            lemma_lit("<del>");
            lemma_lit("del");
            assert(kept_tags()[7] == "del".spec_bytes());
            lemma_prefix_opens(h, "<del>".spec_bytes(), 7);
        },
        InlineKind::CodeSpan(t) => {
            reveal_strlit("<code>");
            reveal_strlit("code");
            assert(vstd::string::is_ascii("<code>"));
            assert(vstd::string::is_ascii("code"));
            lemma_lit("<code>");
            lemma_lit("code");
            assert(kept_tags()[5] == "code".spec_bytes());
            lemma_prefix_opens(h, "<code>".spec_bytes(), 5);
        },
        InlineKind::HardBreak => {
            reveal_strlit("<br />\n");
            reveal_strlit("br");
            assert(vstd::string::is_ascii("<br />\n"));
            assert(vstd::string::is_ascii("br"));
            lemma_lit("<br />\n");
            lemma_lit("br");
            assert(kept_tags()[4] == "br".spec_bytes());
            lemma_prefix_opens(h, "<br />\n".spec_bytes(), 4);
        },
        InlineKind::MathInline { typst_src } => {
            lemma_span_lits();
            lemma_prefix_opens(h, "<span class=\"TypMark-math-inline--error\">".spec_bytes(), 42);
        },
        InlineKind::Link { .. } => {
            lemma_span_lits();
            lemma_a_lits();
            if ctx == RenderContext::ReferenceText {
                lemma_prefix_opens(h, "<span class=\"TypMark-delink\">".spec_bytes(), 42);
            } else {
                lemma_prefix_opens(h, "<a href=\"".spec_bytes(), 0);
            }
        },
        InlineKind::Image { .. } => {
            reveal_strlit("<img src=\"");
            reveal_strlit("img");
            assert(vstd::string::is_ascii("<img src=\""));
            assert(vstd::string::is_ascii("img"));
            lemma_lit("<img src=\"");
            lemma_lit("img");
            assert(kept_tags()[21] == "img".spec_bytes());
            lemma_prefix_opens(h, "<img src=\"".spec_bytes(), 21);
        },
        InlineKind::Ref { resolved, .. } => {
            lemma_span_lits();
            lemma_a_lits();
            if ctx == RenderContext::ReferenceText {
                if resolved is Some {
                    lemma_prefix_opens(h, "<span class=\"TypMark-delink\">".spec_bytes(), 42);
                } else {
                    lemma_prefix_opens(h, "<span class=\"TypMark-delink ref-unresolved\" data-ref-label=\"".spec_bytes(), 42);
                }
            } else if resolved is Some {
                lemma_prefix_opens(h, "<a class=\"TypMark-ref\" href=\"#".spec_bytes(), 0);
            } else {
                lemma_prefix_opens(h, "<span class=\"TypMark-ref ref-unresolved\" data-ref-label=\"".spec_bytes(), 42);
            }
        },
        _ => {},
    }
}

proof fn lemma_span_lits()
    ensures
        kept_tags()[42] == "span".spec_bytes(),
        "span".spec_bytes() =~= seq![115u8, 112u8, 97u8, 110u8],
        "<span class=\"TypMark-math-inline--error\">".spec_bytes().len() > 6,
        "<span class=\"TypMark-math-inline--error\">".spec_bytes().subrange(0, 6) =~= seq![60u8, 115u8, 112u8, 97u8, 110u8, 32u8],
        "<span class=\"TypMark-delink\">".spec_bytes().len() > 6,
        "<span class=\"TypMark-delink\">".spec_bytes().subrange(0, 6) =~= seq![60u8, 115u8, 112u8, 97u8, 110u8, 32u8],
        "<span class=\"TypMark-delink ref-unresolved\" data-ref-label=\"".spec_bytes().len() > 6,
        "<span class=\"TypMark-delink ref-unresolved\" data-ref-label=\"".spec_bytes().subrange(0, 6) =~= seq![60u8, 115u8, 112u8, 97u8, 110u8, 32u8],
        "<span class=\"TypMark-ref ref-unresolved\" data-ref-label=\"".spec_bytes().len() > 6,
        "<span class=\"TypMark-ref ref-unresolved\" data-ref-label=\"".spec_bytes().subrange(0, 6) =~= seq![60u8, 115u8, 112u8, 97u8, 110u8, 32u8],
{
    reveal_strlit("span");
    reveal_strlit("<span class=\"TypMark-math-inline--error\">");
    reveal_strlit("<span class=\"TypMark-delink\">");
    reveal_strlit("<span class=\"TypMark-delink ref-unresolved\" data-ref-label=\"");
    reveal_strlit("<span class=\"TypMark-ref ref-unresolved\" data-ref-label=\"");
    assert(vstd::string::is_ascii("span"));
    assert(vstd::string::is_ascii("<span class=\"TypMark-math-inline--error\">"));
    assert(vstd::string::is_ascii("<span class=\"TypMark-delink\">"));
    assert(vstd::string::is_ascii("<span class=\"TypMark-delink ref-unresolved\" data-ref-label=\""));
    assert(vstd::string::is_ascii("<span class=\"TypMark-ref ref-unresolved\" data-ref-label=\""));
    lemma_lit("span");
    lemma_lit("<span class=\"TypMark-math-inline--error\">");
    lemma_lit("<span class=\"TypMark-delink\">");
    lemma_lit("<span class=\"TypMark-delink ref-unresolved\" data-ref-label=\"");
    lemma_lit("<span class=\"TypMark-ref ref-unresolved\" data-ref-label=\"");
}

proof fn lemma_a_lits()
    ensures
        kept_tags()[0] == "a".spec_bytes(),
        "a".spec_bytes() =~= seq![97u8],
        "<a href=\"".spec_bytes().len() > 3,
        "<a href=\"".spec_bytes().subrange(0, 3) =~= seq![60u8, 97u8, 32u8],
        "<a class=\"TypMark-ref\" href=\"#".spec_bytes().len() > 3,
        "<a class=\"TypMark-ref\" href=\"#".spec_bytes().subrange(0, 3) =~= seq![60u8, 97u8, 32u8],
{
    reveal_strlit("a");
    reveal_strlit("<a href=\"");
    reveal_strlit("<a class=\"TypMark-ref\" href=\"#");
    assert(vstd::string::is_ascii("a"));
    assert(vstd::string::is_ascii("<a href=\""));
    assert(vstd::string::is_ascii("<a class=\"TypMark-ref\" href=\"#"));
    lemma_lit("a");
    lemma_lit("<a href=\"");
    lemma_lit("<a class=\"TypMark-ref\" href=\"#");
}

/// A text that has at `off` the line `l` — `<`, the kept tag name `kept_tags()[k]`, then a
/// space or `>` — opens from there a kept element and no other.
proof fn lemma_line_opens(h: Seq<u8>, off: int, l: Seq<u8>, k: int)
    requires
        0 <= k < kept_tags().len(),
        0 <= off,
        l.len() > 1 + kept_tags()[k].len(),
        h.len() >= off + l.len(),
        forall|j: int| 0 <= j < l.len() ==> h[off + j] == l[j],
        l[0] == 60u8,
        forall|j: int|
            0 <= j < kept_tags()[k].len() ==> l[1 + j] == #[trigger] kept_tags()[k][j] && kept_tags()[k][j] != 32u8
                && kept_tags()[k][j] != 62u8,
        l[1int + kept_tags()[k].len()] == 32u8 || l[1int + kept_tags()[k].len()] == 62u8,
    ensures
        opens_kept_at(h, off),
{
    let w = kept_tags()[k];
    let a = l.subrange(1int + w.len(), l.len() as int);
    assert forall|j: int| 0 <= j < 1 + w.len() + a.len() implies h[off + j] == (seq![60u8] + w + a)[j] by {
        if 0 < j < 1 + w.len() {
            assert(l[1 + (j - 1)] == w[j - 1]);
        }
    }
    lemma_opens_kept(h, off, k, a);
}

/// A line of output starts, after its indentation, with its text.
proof fn lemma_line_text(h: Seq<u8>, indent: usize, l: Seq<u8>)
    requires
        h.len() >= line_at(indent, l).len(),
        forall|j: int| 0 <= j < line_at(indent, l).len() ==> h[j] == line_at(indent, l)[j],
    ensures
        h.len() >= spaces(indent as nat).len() + l.len(),
        forall|j: int| 0 <= j < l.len() ==> h[spaces(indent as nat).len() + j] == l[j],
{
    assert forall|j: int| 0 <= j < l.len() implies h[spaces(indent as nat).len() + j] == l[j] by {
        assert(line_at(indent, l)[spaces(indent as nat).len() + j] == l[j]);
    }
}

/// The tag names of block elements, as bytes.
proof fn lemma_block_words()
    ensures
        kept_tags()[25] == "p".spec_bytes(),
        "p".spec_bytes() =~= seq![112u8],
        "<p".spec_bytes() =~= seq![60u8, 112u8],
        kept_tags()[3] == "blockquote".spec_bytes(),
        "blockquote".spec_bytes() =~= seq![98u8, 108u8, 111u8, 99u8, 107u8, 113u8, 117u8, 111u8, 116u8, 101u8],
        kept_tags()[19] == "hr".spec_bytes(),
        "hr".spec_bytes() =~= seq![104u8, 114u8],
        "<hr".spec_bytes() =~= seq![60u8, 104u8, 114u8],
        " />".spec_bytes() =~= seq![32u8, 47u8, 62u8],
        kept_tags()[9] == "div".spec_bytes(),
        "div".spec_bytes() =~= seq![100u8, 105u8, 118u8],
        "<div class=\"TypMark-box\" data-typmark=\"box\"".spec_bytes().subrange(0, 5) =~= seq![60u8, 100u8, 105u8, 118u8, 32u8],
        "<div class=\"TypMark-math-block--error\"".spec_bytes().subrange(0, 5) =~= seq![60u8, 100u8, 105u8, 118u8, 32u8],
        "<div class=\"TypMark-html\" data-typmark=\"html\"".spec_bytes().subrange(0, 5) =~= seq![60u8, 100u8, 105u8, 118u8, 32u8],
        "<div class=\"TypMark-box\" data-typmark=\"box\"".spec_bytes().len() > 5,
        "<div class=\"TypMark-math-block--error\"".spec_bytes().len() > 5,
        "<div class=\"TypMark-html\" data-typmark=\"html\"".spec_bytes().len() > 5,
        kept_tags()[41] == "figure".spec_bytes(),
        "figure".spec_bytes() =~= seq![102u8, 105u8, 103u8, 117u8, 114u8, 101u8],
        "<figure class=\"TypMark-codeblock\" data-typmark=\"codeblock\"".spec_bytes().len() > 8,
        "<figure class=\"TypMark-codeblock\" data-typmark=\"codeblock\"".spec_bytes().subrange(0, 8) =~= seq![60u8, 102u8, 105u8, 103u8, 117u8, 114u8, 101u8, 32u8],
        kept_tags()[26] == "pre".spec_bytes(),
        "pre".spec_bytes() =~= seq![112u8, 114u8, 101u8],
        "<pre".spec_bytes() =~= seq![60u8, 112u8, 114u8, 101u8],
        "><code".spec_bytes().len() > 0 && "><code".spec_bytes()[0] == 62u8,
        kept_tags()[24] == "ol".spec_bytes(),
        kept_tags()[33] == "ul".spec_bytes(),
        "ol".spec_bytes() =~= seq![111u8, 108u8],
        "ul".spec_bytes() =~= seq![117u8, 108u8],
        " start=\"".spec_bytes().len() > 0 && " start=\"".spec_bytes()[0] == 32u8,
        " class=\"task-list\"".spec_bytes().len() > 0 && " class=\"task-list\"".spec_bytes()[0] == 32u8,
        kept_tags()[13] == "h1".spec_bytes(),
        kept_tags()[14] == "h2".spec_bytes(),
        kept_tags()[15] == "h3".spec_bytes(),
        kept_tags()[16] == "h4".spec_bytes(),
        kept_tags()[17] == "h5".spec_bytes(),
        kept_tags()[18] == "h6".spec_bytes(),
        "h1".spec_bytes() =~= seq![104u8, 49u8],
        "h2".spec_bytes() =~= seq![104u8, 50u8],
        "h3".spec_bytes() =~= seq![104u8, 51u8],
        "h4".spec_bytes() =~= seq![104u8, 52u8],
        "h5".spec_bytes() =~= seq![104u8, 53u8],
        "h6".spec_bytes() =~= seq![104u8, 54u8],
        "<h".spec_bytes() =~= seq![60u8, 104u8],
        " data-".spec_bytes().len() > 0 && " data-".spec_bytes()[0] == 32u8,
{
    reveal_strlit("p");
    reveal_strlit("<p");
    reveal_strlit("blockquote");
    reveal_strlit("hr");
    reveal_strlit("<hr");
    reveal_strlit(" />");
    reveal_strlit("div");
    reveal_strlit("<div class=\"TypMark-box\" data-typmark=\"box\"");
    reveal_strlit("<div class=\"TypMark-math-block--error\"");
    reveal_strlit("<div class=\"TypMark-html\" data-typmark=\"html\"");
    reveal_strlit("figure");
    reveal_strlit("<figure class=\"TypMark-codeblock\" data-typmark=\"codeblock\"");
    reveal_strlit("pre");
    reveal_strlit("<pre");
    reveal_strlit("><code");
    reveal_strlit("ol");
    reveal_strlit("ul");
    reveal_strlit(" start=\"");
    reveal_strlit(" class=\"task-list\"");
    reveal_strlit("h1");
    reveal_strlit("h2");
    reveal_strlit("h3");
    reveal_strlit("h4");
    reveal_strlit("h5");
    reveal_strlit("h6");
    reveal_strlit("<h");
    reveal_strlit(" data-");
    assert(vstd::string::is_ascii("p"));
    assert(vstd::string::is_ascii("<p"));
    assert(vstd::string::is_ascii("blockquote"));
    assert(vstd::string::is_ascii("hr"));
    assert(vstd::string::is_ascii("<hr"));
    assert(vstd::string::is_ascii(" />"));
    assert(vstd::string::is_ascii("div"));
    assert(vstd::string::is_ascii("<div class=\"TypMark-box\" data-typmark=\"box\""));
    assert(vstd::string::is_ascii("<div class=\"TypMark-math-block--error\""));
    assert(vstd::string::is_ascii("<div class=\"TypMark-html\" data-typmark=\"html\""));
    assert(vstd::string::is_ascii("figure"));
    assert(vstd::string::is_ascii("<figure class=\"TypMark-codeblock\" data-typmark=\"codeblock\""));
    assert(vstd::string::is_ascii("pre"));
    assert(vstd::string::is_ascii("<pre"));
    assert(vstd::string::is_ascii("><code"));
    assert(vstd::string::is_ascii("ol"));
    assert(vstd::string::is_ascii("ul"));
    assert(vstd::string::is_ascii(" start=\""));
    assert(vstd::string::is_ascii(" class=\"task-list\""));
    assert(vstd::string::is_ascii("h1"));
    assert(vstd::string::is_ascii("h2"));
    assert(vstd::string::is_ascii("h3"));
    assert(vstd::string::is_ascii("h4"));
    assert(vstd::string::is_ascii("h5"));
    assert(vstd::string::is_ascii("h6"));
    assert(vstd::string::is_ascii("<h"));
    assert(vstd::string::is_ascii(" data-"));
    lemma_lit("p");
    lemma_lit("<p");
    lemma_lit("blockquote");
    lemma_lit("hr");
    lemma_lit("<hr");
    lemma_lit(" />");
    lemma_lit("div");
    lemma_lit("<div class=\"TypMark-box\" data-typmark=\"box\"");
    lemma_lit("<div class=\"TypMark-math-block--error\"");
    lemma_lit("<div class=\"TypMark-html\" data-typmark=\"html\"");
    lemma_lit("figure");
    lemma_lit("<figure class=\"TypMark-codeblock\" data-typmark=\"codeblock\"");
    lemma_lit("pre");
    lemma_lit("<pre");
    lemma_lit("><code");
    lemma_lit("ol");
    lemma_lit("ul");
    lemma_lit(" start=\"");
    lemma_lit(" class=\"task-list\"");
    lemma_lit("h1");
    lemma_lit("h2");
    lemma_lit("h3");
    lemma_lit("h4");
    lemma_lit("h5");
    lemma_lit("h6");
    lemma_lit("<h");
    lemma_lit(" data-");
}

/// The label and data attributes, and the range attribute, each start with a space.
proof fn lemma_attr_parts(label: Option<Label>, items: Seq<AttrItem>, map: Option<&SourceMap>, span: crate::span::Span)
    ensures
        attrs_html(label, items).len() > 0 ==> attrs_html(label, items)[0] == 32u8,
        range_part(map, span).len() > 0 ==> range_part(map, span)[0] == 32u8,
        data_attrs(items).len() > 0 ==> data_attrs(items)[0] == 32u8,
{
    reveal_strlit(" data-tm-range=\"");
    assert(vstd::string::is_ascii(" data-tm-range=\""));
    lemma_lit(" data-tm-range=\"");
    lemma_data_attrs_lead_space(items);
    match map {
        Some(m) => {
            let r = range_attr(m.spec_position(span.start), m.spec_position(span.end));
            assert(r[0] == " data-tm-range=\"".spec_bytes()[0]);
        },
        None => {},
    }
    match label {
        Some(l) => {
            assert(id_attr(l)[0] == 32u8);
        },
        None => {},
    }
}

/// Text that is empty or starts with a space, then text that starts with a space or `>`,
/// starts with a space or `>`.
proof fn lemma_lead(x: Seq<u8>, rest: Seq<u8>)
    requires
        x.len() == 0 || x[0] == 32u8,
        rest.len() > 0,
        rest[0] == 32u8 || rest[0] == 62u8,
    ensures
        (x + rest).len() > 0,
        (x + rest)[0] == 32u8 || (x + rest)[0] == 62u8,
{
}

#[verifier::spinoff_prover]
#[verifier::rlimit(100)]
proof fn lemma_para_element_kept(b: Block, indent: usize, opts: HtmlEmitOptions, map: Option<&SourceMap>)
    requires
        b.kind is Paragraph,
    ensures
        opens_kept_at(
            block_html(b, indent, opts, map),
            spaces(indent as nat).len() as int,
        ),
{
    lemma_block_words();
    lemma_attr_parts(b.attrs.label, b.attrs.items@, map, b.span);
    let h = block_html(b, indent, opts, map);
    let sp = spaces(indent as nat).len() as int;
    let at = attrs_html(b.attrs.label, b.attrs.items@);
    let rg = range_part(map, b.span);
    let gt = seq![62u8];
    lemma_lead(rg, gt);
    lemma_lead(at, rg + gt);
    assert(at + rg + gt =~= at + (rg + gt));
    match b.kind {
        BlockKind::Paragraph { content } => {
            let l = "<p".spec_bytes() + at + rg + gt + crate::emit::inlines_html(content@, RenderContext::Normal, map)
                + "</p>".spec_bytes();
            assert(h == line_at(indent, l));
            lemma_line_text(h, indent, l);
            assert(l[2] == (at + rg + gt)[0]);
            lemma_line_opens(h, sp, l, 25);
        },
        _ => {},
    }
}

#[verifier::spinoff_prover]
#[verifier::rlimit(100)]
proof fn lemma_heading_element_kept(b: Block, indent: usize, opts: HtmlEmitOptions, map: Option<&SourceMap>)
    requires
        b.kind matches BlockKind::Heading { level, .. } && 1 <= level <= 6,
    ensures
        opens_kept_at(
            block_html(b, indent, opts, map),
            spaces(indent as nat).len() as int,
        ),
{
    lemma_block_words();
    lemma_attr_parts(b.attrs.label, b.attrs.items@, map, b.span);
    let h = block_html(b, indent, opts, map);
    let sp = spaces(indent as nat).len() as int;
    let at = attrs_html(b.attrs.label, b.attrs.items@);
    let rg = range_part(map, b.span);
    let gt = seq![62u8];
    lemma_lead(rg, gt);
    lemma_lead(at, rg + gt);
    assert(at + rg + gt =~= at + (rg + gt));
    match b.kind {
        BlockKind::Heading { level, title } => {
            let l = heading_html(level, at + rg, title@, map);
            assert(h == line_at(indent, l));
            lemma_line_text(h, indent, l);
            assert(decimal(level as nat) == seq![(48 + level) as u8]);
            assert(l[2] == (48 + level) as u8);
            assert(l[3] == (at + rg + gt)[0]);
            let k = 12 + level as int;
            assert(kept_tags()[k] =~= seq![104u8, (48 + level) as u8]);
            lemma_line_opens(h, sp, l, k);
        },
        _ => {},
    }
}

#[verifier::spinoff_prover]
#[verifier::rlimit(100)]
proof fn lemma_quote_element_kept(b: Block, indent: usize, opts: HtmlEmitOptions, map: Option<&SourceMap>)
    requires
        b.kind is BlockQuote,
    ensures
        opens_kept_at(
            block_html(b, indent, opts, map),
            spaces(indent as nat).len() as int,
        ),
{
    lemma_block_words();
    lemma_attr_parts(b.attrs.label, b.attrs.items@, map, b.span);
    let h = block_html(b, indent, opts, map);
    let sp = spaces(indent as nat).len() as int;
    let at = attrs_html(b.attrs.label, b.attrs.items@);
    let rg = range_part(map, b.span);
    let gt = seq![62u8];
    lemma_lead(rg, gt);
    lemma_lead(at, rg + gt);
    assert(at + rg + gt =~= at + (rg + gt));
    match b.kind {
        BlockKind::BlockQuote { blocks } => {
            let l = seq![60u8] + "blockquote".spec_bytes() + at + rg + gt;
            let l0 = line_at(indent, l);
            let x = crate::block_html::blocks_html(blocks@, crate::block_html::deeper(indent), opts, map);
            lemma_add_prefix(l0, x);
            lemma_add_prefix(l0 + x, line_at(indent, "</blockquote>".spec_bytes()));
            lemma_line_text(h, indent, l);
            assert(l[11] == (at + rg + gt)[0]);
            lemma_line_opens(h, sp, l, 3);
        },
        _ => {},
    }
}

#[verifier::spinoff_prover]
#[verifier::rlimit(100)]
proof fn lemma_rule_element_kept(b: Block, indent: usize, opts: HtmlEmitOptions, map: Option<&SourceMap>)
    requires
        b.kind is ThematicBreak,
    ensures
        opens_kept_at(
            block_html(b, indent, opts, map),
            spaces(indent as nat).len() as int,
        ),
{
    lemma_block_words();
    lemma_attr_parts(b.attrs.label, b.attrs.items@, map, b.span);
    let h = block_html(b, indent, opts, map);
    let sp = spaces(indent as nat).len() as int;
    let at = attrs_html(b.attrs.label, b.attrs.items@);
    let rg = range_part(map, b.span);
    let gt = seq![62u8];
    lemma_lead(rg, gt);
    lemma_lead(at, rg + gt);
    assert(at + rg + gt =~= at + (rg + gt));
    match b.kind {
        BlockKind::ThematicBreak => {
            let end = " />".spec_bytes();
            lemma_lead(rg, end);
            lemma_lead(at, rg + end);
            let l = "<hr".spec_bytes() + at + rg + end;
            assert(h == line_at(indent, l));
            lemma_line_text(h, indent, l);
            assert(l[3] == (at + (rg + end))[0]);
            lemma_line_opens(h, sp, l, 19);
        },
        _ => {},
    }
}

#[verifier::spinoff_prover]
#[verifier::rlimit(100)]
proof fn lemma_table_element_kept(b: Block, indent: usize, opts: HtmlEmitOptions, map: Option<&SourceMap>)
    requires
        b.kind is Table,
    ensures
        opens_kept_at(
            block_html(b, indent, opts, map),
            spaces(indent as nat).len() as int,
        ),
{
    lemma_block_words();
    lemma_attr_parts(b.attrs.label, b.attrs.items@, map, b.span);
    let h = block_html(b, indent, opts, map);
    let sp = spaces(indent as nat).len() as int;
    let at = attrs_html(b.attrs.label, b.attrs.items@);
    let rg = range_part(map, b.span);
    let gt = seq![62u8];
    lemma_lead(rg, gt);
    lemma_lead(at, rg + gt);
    assert(at + rg + gt =~= at + (rg + gt));
    match b.kind {
        BlockKind::Table(t) => {
            law_table_element_kept(b, t, indent, map);
        },
        _ => {},
    }
}

#[verifier::spinoff_prover]
#[verifier::rlimit(100)]
proof fn lemma_math_element_kept(b: Block, indent: usize, opts: HtmlEmitOptions, map: Option<&SourceMap>)
    requires
        b.kind is MathBlock,
    ensures
        opens_kept_at(
            block_html(b, indent, opts, map),
            spaces(indent as nat).len() as int,
        ),
{
    lemma_block_words();
    lemma_attr_parts(b.attrs.label, b.attrs.items@, map, b.span);
    let h = block_html(b, indent, opts, map);
    let sp = spaces(indent as nat).len() as int;
    let at = attrs_html(b.attrs.label, b.attrs.items@);
    let rg = range_part(map, b.span);
    let gt = seq![62u8];
    lemma_lead(rg, gt);
    lemma_lead(at, rg + gt);
    assert(at + rg + gt =~= at + (rg + gt));
    match b.kind {
        BlockKind::MathBlock { typst_src } => {
            let l = "<div class=\"TypMark-math-block--error\"".spec_bytes() + at + rg + gt + crate::emit::escaped(
                crate::emit::sbytes(typst_src),
            ) + "</div>".spec_bytes();
            assert(h == line_at(indent, l));
            lemma_line_text(h, indent, l);
            assert(l[4] == 32u8);
            lemma_line_opens(h, sp, l, 9);
        },
        _ => {},
    }
}

#[verifier::spinoff_prover]
#[verifier::rlimit(100)]
proof fn lemma_box_element_kept(b: Block, indent: usize, opts: HtmlEmitOptions, map: Option<&SourceMap>)
    requires
        b.kind is Box,
    ensures
        opens_kept_at(
            block_html(b, indent, opts, map),
            spaces(indent as nat).len() as int,
        ),
{
    lemma_block_words();
    lemma_attr_parts(b.attrs.label, b.attrs.items@, map, b.span);
    let h = block_html(b, indent, opts, map);
    let sp = spaces(indent as nat).len() as int;
    let at = attrs_html(b.attrs.label, b.attrs.items@);
    let rg = range_part(map, b.span);
    let gt = seq![62u8];
    lemma_lead(rg, gt);
    lemma_lead(at, rg + gt);
    assert(at + rg + gt =~= at + (rg + gt));
    match b.kind {
        BlockKind::Box(bx) => {
            let l = "<div class=\"TypMark-box\" data-typmark=\"box\"".spec_bytes() + at + rg + gt;
            let l0 = line_at(indent, l);
            assert forall|j: int| 0 <= j < l0.len() implies h[j] == l0[j] by {}
            lemma_line_text(h, indent, l);
            assert(l[4] == 32u8);
            lemma_line_opens(h, sp, l, 9);
        },
        _ => {},
    }
}

#[verifier::spinoff_prover]
#[verifier::rlimit(100)]
proof fn lemma_html_element_kept(b: Block, indent: usize, opts: HtmlEmitOptions, map: Option<&SourceMap>)
    requires
        b.kind is HtmlBlock,
        attrs_html(b.attrs.label, b.attrs.items@).len() > 0,
    ensures
        opens_kept_at(
            block_html(b, indent, opts, map),
            spaces(indent as nat).len() as int,
        ),
{
    lemma_block_words();
    lemma_attr_parts(b.attrs.label, b.attrs.items@, map, b.span);
    let h = block_html(b, indent, opts, map);
    let sp = spaces(indent as nat).len() as int;
    let at = attrs_html(b.attrs.label, b.attrs.items@);
    let rg = range_part(map, b.span);
    let gt = seq![62u8];
    lemma_lead(rg, gt);
    lemma_lead(at, rg + gt);
    assert(at + rg + gt =~= at + (rg + gt));
    match b.kind {
        BlockKind::HtmlBlock { raw } => {
            let l = "<div class=\"TypMark-html\" data-typmark=\"html\"".spec_bytes() + at + rg + gt;
            let l0 = line_at(indent, l);
            let x = line_at(crate::block_html::deeper(indent), crate::emit::sbytes(raw));
            lemma_add_prefix(l0, x);
            lemma_add_prefix(l0 + x, line_at(indent, "</div>".spec_bytes()));
            lemma_line_text(h, indent, l);
            assert(l[4] == 32u8);
            lemma_line_opens(h, sp, l, 9);
        },
        _ => {},
    }
}

#[verifier::spinoff_prover]
#[verifier::rlimit(100)]
proof fn lemma_list_element_kept(b: Block, indent: usize, opts: HtmlEmitOptions, map: Option<&SourceMap>)
    requires
        b.kind is List,
    ensures
        opens_kept_at(
            block_html(b, indent, opts, map),
            spaces(indent as nat).len() as int,
        ),
{
    lemma_block_words();
    lemma_attr_parts(b.attrs.label, b.attrs.items@, map, b.span);
    let h = block_html(b, indent, opts, map);
    let sp = spaces(indent as nat).len() as int;
    let at = attrs_html(b.attrs.label, b.attrs.items@);
    let rg = range_part(map, b.span);
    let gt = seq![62u8];
    lemma_lead(rg, gt);
    lemma_lead(at, rg + gt);
    assert(at + rg + gt =~= at + (rg + gt));
    match b.kind {
        BlockKind::List(li) => {
            let tasks = if crate::block_html::has_tasks(li.items@) {
                " class=\"task-list\"".spec_bytes()
            } else {
                Seq::<u8>::empty()
            };
            let st = start_attr(li);
            assert(st.len() > 0 ==> st[0] == 32u8);
            lemma_lead(tasks, rg + gt);
            lemma_lead(st, tasks + (rg + gt));
            lemma_lead(at, st + (tasks + (rg + gt)));
            let l = list_open(b, li, map);
            assert(l =~= seq![60u8] + list_tag(li.ordered) + (at + (st + (tasks + (rg + gt)))));
            let l0 = line_at(indent, l);
            let x = crate::block_html::items_html(li.items@, li.tight, crate::block_html::deeper(indent), opts, map);
            lemma_add_prefix(l0, x);
            lemma_add_prefix(l0 + x, line_at(indent, "</".spec_bytes() + list_tag(li.ordered) + seq![62u8]));
            lemma_line_text(h, indent, l);
            assert(l[3] == (at + (st + (tasks + (rg + gt))))[0]);
            if li.ordered {
                lemma_line_opens(h, sp, l, 24);
            } else {
                lemma_line_opens(h, sp, l, 33);
            }
        },
        _ => {},
    }
}

#[verifier::spinoff_prover]
#[verifier::rlimit(100)]
proof fn lemma_code_element_kept(b: Block, indent: usize, opts: HtmlEmitOptions, map: Option<&SourceMap>)
    requires
        b.kind is CodeBlock,
    ensures
        opens_kept_at(
            block_html(b, indent, opts, map),
            if b.kind matches BlockKind::CodeBlock(c) && (opts.simple_code_blocks || c.kind == CodeBlockKind::Indented) {
                0
            } else {
                spaces(indent as nat).len() as int
            },
        ),
{
    lemma_block_words();
    lemma_attr_parts(b.attrs.label, b.attrs.items@, map, b.span);
    let h = block_html(b, indent, opts, map);
    let sp = spaces(indent as nat).len() as int;
    let at = attrs_html(b.attrs.label, b.attrs.items@);
    let rg = range_part(map, b.span);
    let gt = seq![62u8];
    lemma_lead(rg, gt);
    lemma_lead(at, rg + gt);
    assert(at + rg + gt =~= at + (rg + gt));
    match b.kind {
        BlockKind::CodeBlock(code) => {
            let ca = code_attrs(b, code, map);
            let di = data_attrs(code.info_attrs.items@);
            lemma_attr_parts(b.attrs.label, code.info_attrs.items@, map, b.span);
            if opts.simple_code_blocks || code.kind == CodeBlockKind::Indented {
                let rest = "><code".spec_bytes();
                lemma_lead(rg, rest);
                lemma_lead(di, rg + rest);
                lemma_lead(at, di + (rg + rest));
                assert(ca + rest =~= at + (di + (rg + rest)));
                assert(h == code_pre_html(code, ca, opts.simple_code_blocks));
                assert(h[4] == (ca + rest)[0]);
                lemma_line_opens(h, 0, h, 26);
            } else {
                let l = "<figure class=\"TypMark-codeblock\" data-typmark=\"codeblock\"".spec_bytes() + ca + lang_attr(code.lang)
                    + gt;
                let l0 = line_at(indent, l);
                assert forall|j: int| 0 <= j < l0.len() implies h[j] == l0[j] by {}
                lemma_line_text(h, indent, l);
                assert(l[7] == 32u8);
                lemma_line_opens(h, sp, l, 41);
            }
        },
        _ => {},
    }
}

/// The element a block's HTML opens, after its indentation, survives sanitizing: paragraphs,
/// headings, block quotes, lists, code blocks (plain or as figures), thematic breaks, tables,
/// boxes, math blocks and HTML blocks with attributes. A section is left out: sanitizing
/// drops the `section` element and keeps what it holds; so is raw HTML without attributes,
/// which is written as it stands.
#[verifier::spinoff_prover]
#[verifier::rlimit(100)]
pub proof fn law_block_element_kept(b: Block, indent: usize, opts: HtmlEmitOptions, map: Option<&SourceMap>)
    requires
        !(b.kind is Section),
        b.kind is HtmlBlock ==> attrs_html(b.attrs.label, b.attrs.items@).len() > 0,
        b.kind matches BlockKind::Heading { level, .. } ==> 1 <= level <= 6,
    ensures
        opens_kept_at(
            block_html(b, indent, opts, map),
            if b.kind matches BlockKind::CodeBlock(c) && (opts.simple_code_blocks || c.kind == CodeBlockKind::Indented) {
                0
            } else {
                spaces(indent as nat).len() as int
            },
        ),
{
    match b.kind {
        BlockKind::Paragraph { .. } => lemma_para_element_kept(b, indent, opts, map),
        BlockKind::Heading { .. } => lemma_heading_element_kept(b, indent, opts, map),
        BlockKind::BlockQuote { .. } => lemma_quote_element_kept(b, indent, opts, map),
        BlockKind::ThematicBreak => lemma_rule_element_kept(b, indent, opts, map),
        BlockKind::Table(..) => lemma_table_element_kept(b, indent, opts, map),
        BlockKind::MathBlock { .. } => lemma_math_element_kept(b, indent, opts, map),
        BlockKind::Box(..) => lemma_box_element_kept(b, indent, opts, map),
        BlockKind::HtmlBlock { .. } => lemma_html_element_kept(b, indent, opts, map),
        BlockKind::List(..) => lemma_list_element_kept(b, indent, opts, map),
        BlockKind::CodeBlock(..) => lemma_code_element_kept(b, indent, opts, map),
        _ => {},
    }
}

/// The names of the tags that sanitized output keeps.
pub open spec fn kept_tag_names() -> Seq<&'static str> {
    seq!["a", "abbr", "b", "blockquote", "br", "code", "dd", "del", "details", "div", "dl", "dt", "em", "h1", "h2", "h3", "h4", "h5", "h6", "hr", "i", "img", "kbd", "li", "ol", "p", "pre", "s", "strong", "sub", "summary", "sup", "u", "ul", "table", "thead", "tbody", "tr", "th", "td", "input", "figure", "span", "svg", "g", "defs", "path", "symbol", "use"]
}

/// The tags that sanitized output keeps.
pub open spec fn kept_tags() -> Seq<Seq<u8>> {
    names_view(kept_tag_names())
}

/// The attributes kept on every tag.
pub open spec fn kept_generic() -> Seq<Seq<u8>> {
    seq!["class".spec_bytes(), "id".spec_bytes()]
}

/// The attributes kept per tag.
pub open spec fn kept_tag_attrs() -> Seq<(Seq<u8>, Seq<Seq<u8>>)> {
    seq![
        ("a".spec_bytes(), names_view(seq!["href", "title"])),
        ("abbr".spec_bytes(), names_view(seq!["title"])),
        ("img".spec_bytes(), names_view(seq!["alt", "src", "title"])),
        ("ol".spec_bytes(), names_view(seq!["start"])),
        ("th".spec_bytes(), names_view(seq!["align"])),
        ("td".spec_bytes(), names_view(seq!["align"])),
        ("input".spec_bytes(), names_view(seq!["type", "checked", "disabled"])),
        ("span".spec_bytes(), names_view(seq!["class", "data-line", "data-highlighted-line", "data-diff", "data-line-label", "id"])),
        ("figure".spec_bytes(), names_view(seq!["class", "data-typmark", "data-lang", "id"])),
        ("svg".spec_bytes(), names_view(seq!["viewBox", "width", "height", "class"])),
        ("g".spec_bytes(), names_view(seq!["transform", "class"])),
        ("path".spec_bytes(), names_view(seq!["d", "fill", "fill-rule", "stroke", "stroke-linecap", "stroke-linejoin", "stroke-miterlimit", "stroke-width", "transform", "class"])),
        ("defs".spec_bytes(), names_view(seq!["id"])),
        ("symbol".spec_bytes(), names_view(seq!["id", "overflow"])),
        ("use".spec_bytes(), names_view(seq!["href", "x", "y", "fill", "fill-rule"])),
        ("div".spec_bytes(), names_view(seq!["class", "data-typmark", "id", "data-bg", "data-title-bg", "data-border-color", "data-border-style", "data-border-width"])),
    ]
}

/// The attribute name prefixes kept.
pub open spec fn kept_prefixes() -> Seq<Seq<u8>> {
    seq!["data-".spec_bytes()]
}

/// The tags and attributes that sanitized output keeps: common formatting tags, tables, task
/// checkboxes, code block figures and line spans, boxes, and the SVG of rendered math;
/// `class`, `id` and every `data-` attribute.
pub fn sanitize_policy() -> (r: SanitizePolicy)
    ensures
        names_view(r.tags@) == kept_tags(),
        names_view(r.generic_attributes@) == kept_generic(),
        tag_attrs_view(r.tag_attributes@) == kept_tag_attrs(),
        names_view(r.generic_attribute_prefixes@) == kept_prefixes(),
{
    let generic_attributes: Vec<&'static str> = vec!["class", "id"];
    let generic_attribute_prefixes: Vec<&'static str> = vec!["data-"];
    assert(names_view(generic_attributes@) =~= kept_generic());
    assert(names_view(generic_attribute_prefixes@) =~= kept_prefixes());
    SanitizePolicy {
        tags: kept_tags_vec(),
        generic_attributes,
        tag_attributes: kept_tag_attrs_vec(),
        generic_attribute_prefixes,
    }
}

fn kept_tags_vec() -> (v: Vec<&'static str>)
    ensures
        v@ == kept_tag_names(),
{
    let tags: Vec<&'static str> = vec![
        "a", "abbr", "b", "blockquote", "br", "code", "dd", "del", "details", "div", "dl", "dt", "em", "h1", "h2", "h3", "h4", "h5", "h6", "hr", "i", "img", "kbd", "li", "ol", "p", "pre", "s", "strong", "sub", "summary", "sup", "u", "ul", "table", "thead", "tbody", "tr", "th", "td", "input", "figure", "span", "svg", "g", "defs", "path", "symbol", "use",
    ];
    assert(tags@ =~= kept_tag_names());
    tags
}

fn push_tag_attrs(v: &mut Vec<(&'static str, Vec<&'static str>)>, tag: &'static str, attrs: Vec<&'static str>)
    ensures
        tag_attrs_view(final(v)@) == tag_attrs_view(old(v)@).push((tag.spec_bytes(), names_view(attrs@))),
{
    let ghost before = v@;
    v.push((tag, attrs));
    assert(tag_attrs_view(v@) =~= tag_attrs_view(before).push((tag.spec_bytes(), names_view(attrs@))));
}

#[verifier::spinoff_prover]
#[verifier::rlimit(100)]
fn kept_tag_attrs_vec() -> (v: Vec<(&'static str, Vec<&'static str>)>)
    ensures
        tag_attrs_view(v@) == kept_tag_attrs(),
{
    let mut v: Vec<(&'static str, Vec<&'static str>)> = Vec::new();
    assert(tag_attrs_view(v@) =~= Seq::<(Seq<u8>, Seq<Seq<u8>>)>::empty());
    let a0: Vec<&'static str> = vec!["href", "title"];
    assert(a0@ =~= seq!["href", "title"]);
    push_tag_attrs(&mut v, "a", a0);
    let a1: Vec<&'static str> = vec!["title"];
    assert(a1@ =~= seq!["title"]);
    push_tag_attrs(&mut v, "abbr", a1);
    let a2: Vec<&'static str> = vec!["alt", "src", "title"];
    assert(a2@ =~= seq!["alt", "src", "title"]);
    push_tag_attrs(&mut v, "img", a2);
    let a3: Vec<&'static str> = vec!["start"];
    assert(a3@ =~= seq!["start"]);
    push_tag_attrs(&mut v, "ol", a3);
    let a4: Vec<&'static str> = vec!["align"];
    assert(a4@ =~= seq!["align"]);
    push_tag_attrs(&mut v, "th", a4);
    let a5: Vec<&'static str> = vec!["align"];
    assert(a5@ =~= seq!["align"]);
    push_tag_attrs(&mut v, "td", a5);
    let a6: Vec<&'static str> = vec!["type", "checked", "disabled"];
    assert(a6@ =~= seq!["type", "checked", "disabled"]);
    push_tag_attrs(&mut v, "input", a6);
    let a7: Vec<&'static str> = vec!["class", "data-line", "data-highlighted-line", "data-diff", "data-line-label", "id"];
    assert(a7@ =~= seq!["class", "data-line", "data-highlighted-line", "data-diff", "data-line-label", "id"]);
    push_tag_attrs(&mut v, "span", a7);
    let a8: Vec<&'static str> = vec!["class", "data-typmark", "data-lang", "id"];
    assert(a8@ =~= seq!["class", "data-typmark", "data-lang", "id"]);
    push_tag_attrs(&mut v, "figure", a8);
    let a9: Vec<&'static str> = vec!["viewBox", "width", "height", "class"];
    assert(a9@ =~= seq!["viewBox", "width", "height", "class"]);
    push_tag_attrs(&mut v, "svg", a9);
    let a10: Vec<&'static str> = vec!["transform", "class"];
    assert(a10@ =~= seq!["transform", "class"]);
    push_tag_attrs(&mut v, "g", a10);
    let a11: Vec<&'static str> = vec!["d", "fill", "fill-rule", "stroke", "stroke-linecap", "stroke-linejoin", "stroke-miterlimit", "stroke-width", "transform", "class"];
    assert(a11@ =~= seq!["d", "fill", "fill-rule", "stroke", "stroke-linecap", "stroke-linejoin", "stroke-miterlimit", "stroke-width", "transform", "class"]);
    push_tag_attrs(&mut v, "path", a11);
    let a12: Vec<&'static str> = vec!["id"];
    assert(a12@ =~= seq!["id"]);
    push_tag_attrs(&mut v, "defs", a12);
    let a13: Vec<&'static str> = vec!["id", "overflow"];
    assert(a13@ =~= seq!["id", "overflow"]);
    push_tag_attrs(&mut v, "symbol", a13);
    let a14: Vec<&'static str> = vec!["href", "x", "y", "fill", "fill-rule"];
    assert(a14@ =~= seq!["href", "x", "y", "fill", "fill-rule"]);
    push_tag_attrs(&mut v, "use", a14);
    let a15: Vec<&'static str> = vec!["class", "data-typmark", "id", "data-bg", "data-title-bg", "data-border-color", "data-border-style", "data-border-width"];
    assert(a15@ =~= seq!["class", "data-typmark", "id", "data-bg", "data-title-bg", "data-border-color", "data-border-style", "data-border-width"]);
    push_tag_attrs(&mut v, "div", a15);
    assert(tag_attrs_view(v@) =~= kept_tag_attrs());
    v
}

/// What `sanitize_html` gives for a text.
pub open spec fn sanitized(raw: Seq<char>) -> Seq<char> {
    if views_safe(kept_tags(), kept_generic(), kept_tag_attrs()) {
        ammonia_cleaned(raw, kept_tags(), kept_generic(), kept_tag_attrs(), kept_prefixes())
    } else {
        Seq::empty()
    }
}

/// Sanitizes HTML with the library's allow-list: what the sanitizer gives for it (nothing
/// when the allow-list were not safe for the sanitizer).
pub fn sanitize_html(raw: &str) -> (r: String)
    ensures
        r@ == sanitized(raw@),
        views_safe(kept_tags(), kept_generic(), kept_tag_attrs()) ==> r@ == ammonia_cleaned(
            raw@,
            kept_tags(),
            kept_generic(),
            kept_tag_attrs(),
            kept_prefixes(),
        ),
        !views_safe(kept_tags(), kept_generic(), kept_tag_attrs()) ==> r@.len() == 0,
{
    let p = sanitize_policy();
    proof {
        lemma_views_safe(p.tags@, p.generic_attributes@, p.tag_attributes@);
    }
    match sanitize_with_policy(raw, &p) {
        Some(s) => s,
        None => String::new(),
    }
}

} // verus!
