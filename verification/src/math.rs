use vstd::prelude::*;
use vstd::string::StringSliceAdditionalSpecFns;
use crate::text::{
    bytes_start_with, find_at, find_from, lemma_find_at_bounds, lossy_decode, push_all, push_str, starts_at, string_bytes,
    string_from_bytes, trim_end_at, trim_range, trim_end_from, trimmed, copy_range,
};
use crate::emit::decimal;

verus! {

/// The largest Typst source that is compiled, in bytes.
pub const MAX_TYPST_SOURCE_BYTES: usize = 262144;

/// The most pages a compiled Typst snippet may have.
pub const MAX_TYPST_PAGES: usize = 16;

/// The largest SVG output that is kept, in bytes.
pub const MAX_TYPST_SVG_BYTES: usize = 8388608;

/// A resource limit that stopped a Typst rendering.
#[derive(Clone, Copy, Debug, PartialEq, Eq, Structural)]
pub enum TypstResourceLimit {
    SourceBytes,
    Pages,
    SvgBytes,
}

/// Typst settings of math rendering: inline and block text sizes and the font.
#[derive(Clone, Debug)]
pub struct MathSettings {
    pub inline_size: Option<String>,
    pub block_size: Option<String>,
    pub font: Option<String>,
}

impl Default for MathSettings {
    fn default() -> (s: MathSettings)
        ensures
            s.inline_size is None,
            s.block_size is None,
            s.font is None,
    {
        MathSettings { inline_size: None, block_size: None, font: None }
    }
}

/// `s` with every occurrence of `pat` (leftmost first, not overlapping) replaced by `rep`, as
/// `str::replace` does.
pub open spec fn replaced(s: Seq<u8>, pat: Seq<u8>, rep: Seq<u8>) -> Seq<u8>
    decreases s.len(),
{
    if pat.len() == 0 || s.len() < pat.len() {
        s
    } else if s.subrange(0, pat.len() as int) == pat {
        rep + replaced(s.subrange(pat.len() as int, s.len() as int), pat, rep)
    } else {
        seq![s[0]] + replaced(s.subrange(1, s.len() as int), pat, rep)
    }
}

/// Replaces every occurrence of a non-empty `pat` by `rep`.
pub fn replace_all(s: &[u8], pat: &[u8], rep: &[u8]) -> (r: Vec<u8>)
    requires
        pat@.len() > 0,
    ensures
        r@ == replaced(s@, pat@, rep@),
{
    let mut out: Vec<u8> = Vec::new();
    let mut i: usize = 0;
    proof {
        assert(s@.subrange(0, s@.len() as int) == s@);
    }
    while i < s.len()
        invariant
            i <= s@.len(),
            pat@.len() > 0,
            out@ + replaced(s@.subrange(i as int, s@.len() as int), pat@, rep@) == replaced(s@, pat@, rep@),
        decreases s.len() - i,
    {
        let ghost rest = s@.subrange(i as int, s@.len() as int);
        if bytes_start_with(s, i, pat) {
            proof {
                assert(rest.subrange(0, pat@.len() as int) == pat@);
                assert(rest.subrange(pat@.len() as int, rest.len() as int) == s@.subrange(i + pat@.len(), s@.len() as int));
                assert(out@ + rep@ + replaced(rest.subrange(pat@.len() as int, rest.len() as int), pat@, rep@)
                    == out@ + (rep@ + replaced(rest.subrange(pat@.len() as int, rest.len() as int), pat@, rep@)));
            }
            push_all(&mut out, rep);
            i = i + pat.len();
        } else {
            proof {
                if rest.len() >= pat@.len() {
                    assert(rest.subrange(0, pat@.len() as int) == s@.subrange(i as int, i + pat@.len()));
                    assert(rest.subrange(0, pat@.len() as int) != pat@);
                }
                assert(rest.subrange(1, rest.len() as int) == s@.subrange(i + 1, s@.len() as int));
                if rest.len() < pat@.len() {
                    assert(replaced(rest, pat@, rep@) == rest);
                    assert(replaced(rest.subrange(1, rest.len() as int), pat@, rep@) == rest.subrange(1, rest.len() as int));
                    assert(rest == seq![rest[0]] + rest.subrange(1, rest.len() as int));
                }
                assert(out@.push(s@[i as int]) + replaced(rest.subrange(1, rest.len() as int), pat@, rep@)
                    == out@ + (seq![rest[0]] + replaced(rest.subrange(1, rest.len() as int), pat@, rep@)));
            }
            out.push(s[i]);
            i = i + 1;
        }
    }
    proof {
        assert(s@.subrange(s@.len() as int, s@.len() as int) == Seq::<u8>::empty());
    }
    out
}

/// The bytes of `a` then those of `b`.
fn concat(a: &[u8], b: &[u8]) -> (r: Vec<u8>)
    ensures
        r@ == a@ + b@,
{
    let mut out: Vec<u8> = Vec::new();
    push_all(&mut out, a);
    push_all(&mut out, b);
    out
}

/// `open id close` replaced by `open new close` everywhere (nothing to replace when the
/// pattern is empty).
pub open spec fn wrapped_replaced(s: Seq<u8>, open: Seq<u8>, id: Seq<u8>, new: Seq<u8>, close: Seq<u8>) -> Seq<u8> {
    if (open + id + close).len() == 0 {
        s
    } else {
        replaced(s, open + id + close, open + new + close)
    }
}

/// An id renamed in its definitions (`id="…"`) and references (`xlink:href="#…"`,
/// `href="#…"` and, when `urls`, `url(#…)`).
pub open spec fn rename_id(s: Seq<u8>, id: Seq<u8>, new: Seq<u8>, urls: bool) -> Seq<u8> {
    let a = wrapped_replaced(s, "id=\"".spec_bytes(), id, new, "\"".spec_bytes());
    let b = wrapped_replaced(a, "xlink:href=\"#".spec_bytes(), id, new, "\"".spec_bytes());
    let c = wrapped_replaced(b, "href=\"#".spec_bytes(), id, new, "\"".spec_bytes());
    if urls {
        wrapped_replaced(c, "url(#".spec_bytes(), id, new, ")".spec_bytes())
    } else {
        c
    }
}

/// The ids renamed in turn, each to `prefix-id`.
pub open spec fn prefixed_ids(s: Seq<u8>, prefix: Seq<u8>, ids: Seq<Seq<u8>>) -> Seq<u8>
    decreases ids.len(),
{
    if ids.len() == 0 {
        s
    } else {
        rename_id(prefixed_ids(s, prefix, ids.drop_last()), ids.last(), prefix + seq![45u8] + ids.last(), true)
    }
}

/// The first `n` ids renamed in turn, the `k`-th (from one) to `gk`.
pub open spec fn numbered_ids(s: Seq<u8>, ids: Seq<Seq<u8>>, n: nat) -> Seq<u8>
    decreases n,
{
    if n == 0 || n > ids.len() {
        s
    } else {
        rename_id(numbered_ids(s, ids, (n - 1) as nat), ids[n - 1], seq![103u8] + decimal(n), false)
    }
}

/// The ids of the `<symbol>` elements of an SVG from `search` on: after each `<symbol`, the
/// text between the first `attr` and the next `"`; after an id the search goes on from its
/// closing quote (`skip`) or past it.
pub open spec fn symbol_ids_from(s: Seq<u8>, search: int, attr: Seq<u8>, skip: bool) -> Seq<Seq<u8>>
    decreases s.len() - search,
{
    let n = s.len() as int;
    if search < 0 || search >= n {
        Seq::empty()
    } else {
        match find_at(s, search, "<symbol".spec_bytes()) {
            None => Seq::empty(),
            Some(ss) => if ss >= n || ss < search {
                Seq::empty()
            } else {
                match find_at(s, ss, attr) {
                    None => symbol_ids_from(s, if n - ss > 7 { ss + 7 } else { n }, attr, skip),
                    Some(ap) => if ap >= n || n - ap < attr.len() {
                        Seq::empty()
                    } else {
                        let id_start = ap + attr.len();
                        match find_at(s, id_start, "\"".spec_bytes()) {
                            None => Seq::empty(),
                            Some(ie) => if ie >= n || ie < id_start {
                                Seq::empty()
                            } else {
                                let next = if skip { ie } else { ie + 1 };
                                seq![s.subrange(id_start, ie)] + (if next <= search {
                                    Seq::empty()
                                } else {
                                    symbol_ids_from(s, next, attr, skip)
                                })
                            },
                        }
                    },
                }
            },
        }
    }
}

/// The distinct values of `id="…"` attributes of an SVG from `search` on, in order of first
/// definition, `seen` being those met before.
pub open spec fn typst_ids_from(s: Seq<u8>, search: int, seen: Seq<Seq<u8>>) -> Seq<Seq<u8>>
    decreases s.len() - search,
{
    let n = s.len() as int;
    if search < 0 || search >= n {
        Seq::empty()
    } else {
        match find_at(s, search, " id=\"".spec_bytes()) {
            None => Seq::empty(),
            Some(rel) => if rel >= n || n - rel < 5 {
                Seq::empty()
            } else {
                match find_at(s, rel + 5, "\"".spec_bytes()) {
                    None => Seq::empty(),
                    Some(ie) => if ie >= n || ie < rel + 5 {
                        Seq::empty()
                    } else {
                        let id = s.subrange(rel + 5, ie);
                        let fresh = !seen.contains(id);
                        (if fresh {
                            seq![id]
                        } else {
                            Seq::empty()
                        }) + (if ie + 1 <= search {
                            Seq::empty()
                        } else {
                            typst_ids_from(s, ie + 1, if fresh { seen.push(id) } else { seen })
                        })
                    },
                }
            },
        }
    }
}

/// The views of byte vectors.
pub open spec fn views(v: Seq<Vec<u8>>) -> Seq<Seq<u8>> {
    v.map_values(|x: Vec<u8>| x@)
}

/// The SVG with each id renamed to `prefix-id` in its definitions and references.
fn rewrite_svg_ids(svg: &str, prefix: &str, ids: &Vec<Vec<u8>>) -> (r: String)
    ensures
        r@ == lossy_decode(prefixed_ids(svg.spec_bytes(), prefix.spec_bytes(), views(ids@))),
{
    let mut out: Vec<u8> = Vec::new();
    push_all(&mut out, svg.as_bytes());
    let mut k: usize = 0;
    proof {
        assert(views(ids@).take(0) =~= Seq::<Seq<u8>>::empty());
    }
    while k < ids.len()
        invariant
            k <= ids@.len(),
            out@ == prefixed_ids(svg.spec_bytes(), prefix.spec_bytes(), views(ids@).take(k as int)),
        decreases ids.len() - k,
    {
        let id = ids[k].as_slice();
        let mut new_id: Vec<u8> = Vec::new();
        push_str(&mut new_id, prefix);
        new_id.push(45u8);
        push_all(&mut new_id, id);
        out = replace_wrapped(out.as_slice(), "id=\"", id, new_id.as_slice(), "\"");
        out = replace_wrapped(out.as_slice(), "xlink:href=\"#", id, new_id.as_slice(), "\"");
        out = replace_wrapped(out.as_slice(), "href=\"#", id, new_id.as_slice(), "\"");
        out = replace_wrapped(out.as_slice(), "url(#", id, new_id.as_slice(), ")");
        proof {
            assert(new_id@ =~= prefix.spec_bytes() + seq![45u8] + id@);
            let v = views(ids@);
            assert(v.take(k + 1).drop_last() =~= v.take(k as int));
            assert(v.take(k + 1).last() == ids@[k as int]@);
        }
        k = k + 1;
    }
    proof {
        assert(views(ids@).take(ids@.len() as int) =~= views(ids@));
    }
    string_from_bytes(out.as_slice())
}

/// Replaces `open id close` by `open new_id close`.
fn replace_wrapped(s: &[u8], open: &str, id: &[u8], new_id: &[u8], close: &str) -> (r: Vec<u8>)
    ensures
        r@ == wrapped_replaced(s@, open.spec_bytes(), id@, new_id@, close.spec_bytes()),
{
    let mut pat: Vec<u8> = Vec::new();
    push_str(&mut pat, open);
    push_all(&mut pat, id);
    push_str(&mut pat, close);
    let mut rep: Vec<u8> = Vec::new();
    push_str(&mut rep, open);
    push_all(&mut rep, new_id);
    push_str(&mut rep, close);
    if pat.len() == 0 {
        return copy_range(s, 0, s.len());
    }
    replace_all(s, pat.as_slice(), rep.as_slice())
}

/// The ids of the `<symbol ... id="...">` elements of an SVG, in order.
fn symbol_ids(svg: &[u8], attr: &str, skip_to_end: bool) -> (r: Vec<Vec<u8>>)
    ensures
        views(r@) == symbol_ids_from(svg@, 0, attr.spec_bytes(), skip_to_end),
{
    let mut ids: Vec<Vec<u8>> = Vec::new();
    let mut search: usize = 0;
    let n = svg.len();
    let ghost total = symbol_ids_from(svg@, 0, attr.spec_bytes(), skip_to_end);
    while search < n
        invariant_except_break
            n == svg@.len(),
            views(ids@) + symbol_ids_from(svg@, search as int, attr.spec_bytes(), skip_to_end) == total,
        ensures
            views(ids@) == total,
        decreases n - search,
    {
        let ghost rest = symbol_ids_from(svg@, search as int, attr.spec_bytes(), skip_to_end);
        let symbol_start = match find_from(svg, search, "<symbol".as_bytes()) {
            Some(p) => p,
            None => {
                proof {
                    assert(rest =~= Seq::<Seq<u8>>::empty());
                    assert(views(ids@) + rest =~= views(ids@));
                }
                break;
            },
        };
        if symbol_start >= n {
            proof {
                assert(rest =~= Seq::<Seq<u8>>::empty());
                assert(views(ids@) + rest =~= views(ids@));
            }
            break;
        }
        proof {
            lemma_find_at_bounds(svg@, search as int, "<symbol".spec_bytes());
        }
        let attr_pos = match find_from(svg, symbol_start, attr.as_bytes()) {
            Some(p) => p,
            None => {
                search = if n - symbol_start > 7 { symbol_start + 7 } else { n };
                continue;
            },
        };
        let alen = attr.as_bytes().len();
        if attr_pos >= n || n - attr_pos < alen {
            proof {
                assert(rest =~= Seq::<Seq<u8>>::empty());
                assert(views(ids@) + rest =~= views(ids@));
            }
            break;
        }
        let id_start = attr_pos + alen;
        let id_end = match find_from(svg, id_start, "\"".as_bytes()) {
            Some(p) => p,
            None => {
                proof {
                    assert(rest =~= Seq::<Seq<u8>>::empty());
                    assert(views(ids@) + rest =~= views(ids@));
                }
                break;
            },
        };
        if id_end >= n || id_end < id_start {
            proof {
                assert(rest =~= Seq::<Seq<u8>>::empty());
                assert(views(ids@) + rest =~= views(ids@));
            }
            break;
        }
        let ghost before = views(ids@);
        let piece = copy_range(svg, id_start, id_end);
        ids.push(piece);
        proof {
            assert(views(ids@) =~= before.push(svg@.subrange(id_start as int, id_end as int)));
        }
        let next = if skip_to_end { id_end } else { id_end + 1 };
        if next <= search {
            proof {
                assert(rest =~= seq![svg@.subrange(id_start as int, id_end as int)]);
                assert(before + rest =~= views(ids@));
            }
            break;
        }
        proof {
            let tail = symbol_ids_from(svg@, next as int, attr.spec_bytes(), skip_to_end);
            assert(rest =~= seq![svg@.subrange(id_start as int, id_end as int)] + tail);
            assert(views(ids@) + tail =~= before + rest);
        }
        search = next;
    }
    ids
}

/// Prefixes the ids of the `<symbol>` elements of an SVG, and the references to them.
pub fn prefix_svg_ids(svg: &str, prefix: &str) -> (r: String)
    ensures
        r@ == lossy_decode(
            prefixed_ids(svg.spec_bytes(), prefix.spec_bytes(), symbol_ids_from(svg.spec_bytes(), 0, " id=\"".spec_bytes(), false)),
        ),
{
    let found = symbol_ids(svg.as_bytes(), " id=\"", false);
    rewrite_svg_ids(svg, prefix, &found)
}

/// Prefixes every id of an SVG (each distinct id once, in order of first definition), and the
/// references to them.
pub fn prefix_typst_svg_ids(svg: &str, prefix: &str) -> (r: String)
    ensures
        r@ == lossy_decode(
            prefixed_ids(svg.spec_bytes(), prefix.spec_bytes(), typst_ids_from(svg.spec_bytes(), 0, Seq::empty())),
        ),
{
    let s = svg.as_bytes();
    let n = s.len();
    let mut ids: Vec<Vec<u8>> = Vec::new();
    let mut search: usize = 0;
    let ghost total = typst_ids_from(s@, 0, Seq::empty());
    proof {
        assert(views(ids@) =~= Seq::<Seq<u8>>::empty());
    }
    while search < n
        invariant_except_break
            n == s@.len(),
            views(ids@) + typst_ids_from(s@, search as int, views(ids@)) == total,
        ensures
            views(ids@) == total,
        decreases n - search,
    {
        let ghost rest = typst_ids_from(s@, search as int, views(ids@));
        let rel = match find_from(s, search, " id=\"".as_bytes()) {
            Some(p) => p,
            None => {
                proof {
                    assert(rest =~= Seq::<Seq<u8>>::empty());
                    assert(views(ids@) + rest =~= views(ids@));
                }
                break;
            },
        };
        if rel >= n || n - rel < 5 {
            proof {
                assert(rest =~= Seq::<Seq<u8>>::empty());
                assert(views(ids@) + rest =~= views(ids@));
            }
            break;
        }
        let id_start = rel + 5;
        let id_end = match find_from(s, id_start, "\"".as_bytes()) {
            Some(p) => p,
            None => {
                proof {
                    assert(rest =~= Seq::<Seq<u8>>::empty());
                    assert(views(ids@) + rest =~= views(ids@));
                }
                break;
            },
        };
        if id_end >= n || id_end < id_start {
            proof {
                assert(rest =~= Seq::<Seq<u8>>::empty());
                assert(views(ids@) + rest =~= views(ids@));
            }
            break;
        }
        let id = copy_range(s, id_start, id_end);
        let ghost before = views(ids@);
        let mut dup = false;
        let mut j: usize = 0;
        while j < ids.len()
            invariant
                j <= ids@.len(),
                dup == exists|q: int| 0 <= q < j && ids@[q]@ == id@,
            decreases ids.len() - j,
        {
            if crate::text::bytes_eq(ids[j].as_slice(), id.as_slice()) {
                dup = true;
            }
            j = j + 1;
        }
        proof {
            if dup {
                let q = choose|q: int| 0 <= q < j && ids@[q]@ == id@;
                assert(before[q] == id@);
                assert(before.contains(id@));
            } else {
                assert forall|q: int| 0 <= q < before.len() implies before[q] != id@ by {
                    assert(before[q] == ids@[q]@);
                }
                assert(!before.contains(id@));
            }
        }
        if !dup {
            ids.push(id);
            proof {
                assert(views(ids@) =~= before.push(s@.subrange(id_start as int, id_end as int)));
            }
        }
        if id_end + 1 <= search {
            proof {
                let head = if !dup {
                    seq![s@.subrange(id_start as int, id_end as int)]
                } else {
                    Seq::<Seq<u8>>::empty()
                };
                assert(rest =~= head);
                assert(before + rest =~= views(ids@));
            }
            break;
        }
        proof {
            let head = if !dup {
                seq![s@.subrange(id_start as int, id_end as int)]
            } else {
                Seq::<Seq<u8>>::empty()
            };
            let tail = typst_ids_from(s@, id_end + 1, views(ids@));
            assert(rest =~= head + tail);
            assert(views(ids@) + tail =~= before + rest);
        }
        search = id_end + 1;
    }
    rewrite_svg_ids(svg, prefix, &ids)
}

/// Renames the `<symbol>` ids of an SVG to `g1`, `g2`, ... in order, with their references.
/// An SVG with its symbol ids renumbered (unchanged when it has none).
pub open spec fn normalized_svg(svg: Seq<char>) -> Seq<char> {
    let b = vstd::utf8::encode_utf8(svg);
    let found = symbol_ids_from(b, 0, "id=\"".spec_bytes(), true);
    if found.len() == 0 {
        svg
    } else {
        lossy_decode(numbered_ids(b, found, found.len()))
    }
}

pub fn normalize_svg_ids(svg: &str) -> (r: String)
    ensures
        r@ == normalized_svg(svg@),
        ({
            let found = symbol_ids_from(svg.spec_bytes(), 0, "id=\"".spec_bytes(), true);
            &&& found.len() == 0 ==> r@ == svg@
            &&& found.len() > 0 ==> r@ == lossy_decode(numbered_ids(svg.spec_bytes(), found, found.len()))
        }),
{
    let found = symbol_ids(svg.as_bytes(), "id=\"", true);
    if found.len() == 0 {
        proof {
            crate::text::lemma_str_valid(svg);
            vstd::utf8::encode_utf8_decode_utf8(svg@);
        }
        return string_from_bytes(svg.as_bytes());
    }
    let ghost ids = views(found@);
    let mut out: Vec<u8> = Vec::new();
    push_all(&mut out, svg.as_bytes());
    let mut k: usize = 0;
    while k < found.len()
        invariant
            k <= found@.len(),
            ids == views(found@),
            out@ == numbered_ids(svg.spec_bytes(), ids, k as nat),
        decreases found.len() - k,
    {
        let mut new_id: Vec<u8> = Vec::new();
        new_id.push(103u8);
        crate::emit::push_decimal(&mut new_id, (k as u64) + 1);
        let id = found[k].as_slice();
        proof {
            assert(ids[k as int] == id@);
        }
        out = replace_wrapped(out.as_slice(), "id=\"", id, new_id.as_slice(), "\"");
        out = replace_wrapped(out.as_slice(), "xlink:href=\"#", id, new_id.as_slice(), "\"");
        out = replace_wrapped(out.as_slice(), "href=\"#", id, new_id.as_slice(), "\"");
        k = k + 1;
    }
    string_from_bytes(out.as_slice())
}

/// Rejects an SVG over the size limit; otherwise normalizes its symbol ids.
pub fn normalize_svg_with_limit(svg: String) -> (r: Result<String, TypstResourceLimit>)
    ensures
        string_bytes_len(svg) > MAX_TYPST_SVG_BYTES ==> r == Err::<String, TypstResourceLimit>(
            TypstResourceLimit::SvgBytes,
        ),
        string_bytes_len(svg) <= MAX_TYPST_SVG_BYTES ==> (r matches Ok(t) && t@ == normalized_svg(svg@)),
{
    if string_bytes(&svg).len() > MAX_TYPST_SVG_BYTES {
        return Err(TypstResourceLimit::SvgBytes);
    }
    Ok(normalize_svg_ids(svg.as_str()))
}

/// The length of a string in bytes.
pub open spec fn string_bytes_len(s: String) -> nat {
    vstd::utf8::encode_utf8(s@).len()
}

/// A Typst source with a preamble before it: the source itself when the preamble is blank,
/// else the preamble without trailing whitespace, a newline and the source.
pub fn typst_source_with_preamble(source: &str, preamble: &str) -> (r: String)
    ensures
        trimmed(preamble.spec_bytes()).len() == 0 ==> r@ == source@,
        trimmed(preamble.spec_bytes()).len() > 0 ==> r@ == vstd::utf8::decode_utf8(
            preamble.spec_bytes().subrange(0, trim_end_at(preamble.spec_bytes(), 0, preamble.spec_bytes().len() as int))
                + seq![10u8] + source.spec_bytes(),
        ),
{
    let p = preamble.as_bytes();
    let (a, b) = trim_range(p, 0, p.len());
    proof {
        assert(trimmed(p@) =~= p@.subrange(a as int, b as int));
    }
    if a >= b {
        return source.to_owned();
    }
    let e = trim_end_from(p, 0, p.len());
    let mut out: Vec<u8> = Vec::new();
    push_all(&mut out, copy_range(p, 0, e).as_slice());
    out.push(10u8);
    push_all(&mut out, source.as_bytes());
    proof {
        assert(out@ =~= p@.subrange(0, e as int) + seq![10u8] + source.spec_bytes());
        crate::text::lemma_str_valid(preamble);
        crate::text::lemma_str_valid(source);
        crate::text::lemma_trim_end_cut(p@, 0, p@.len() as int);
        if (e as int) < p@.len() {
            vstd::utf8::is_char_boundary_iff_not_is_continuation_byte(p@, e as int);
        } else {
            vstd::utf8::is_char_boundary_start_end_of_seq(p@);
        }
        vstd::utf8::valid_utf8_split(p@, e as int);
        crate::text::lemma_ascii_valid(seq![10u8]);
        crate::text::lemma_cat(p@.subrange(0, e as int), seq![10u8]);
        crate::text::lemma_cat(p@.subrange(0, e as int) + seq![10u8], source.spec_bytes());
    }
    string_from_bytes(out.as_slice())
}


/// The bytes of an optional string (none when absent).
pub open spec fn opt_bytes(s: Option<String>) -> Seq<u8> {
    match s {
        Some(x) => vstd::utf8::encode_utf8(x@),
        None => Seq::empty(),
    }
}

/// The size setting that applies: the block size for display math, else the inline size.
pub open spec fn size_setting(display: bool, settings: MathSettings) -> Option<String> {
    if display {
        settings.block_size
    } else {
        settings.inline_size
    }
}

/// The font line of the math preamble.
pub open spec fn font_part(font: Option<String>) -> Seq<u8> {
    match font {
        Some(f) => "#set text(font: \"".spec_bytes() + vstd::utf8::encode_utf8(f@) + "\")\n".spec_bytes(),
        None => Seq::empty(),
    }
}

/// The page and text size lines of the math preamble: 14.5pt for display math and 13pt
/// inline unless a size is set.
pub open spec fn page_part(display: bool, settings: MathSettings) -> Seq<u8> {
    if display {
        "#set page(width: auto, height: auto, margin: 0.5em)\n#set block(spacing: 0.5em)\n#set text(size: ".spec_bytes()
            + (match settings.block_size {
            Some(z) => vstd::utf8::encode_utf8(z@),
            None => "14.5pt".spec_bytes(),
        }) + ")\n".spec_bytes()
    } else {
        "#set page(width: auto, height: auto, margin: (top: 0.35em, bottom: 0.35em, left: 0.2em, right: 0.2em))\n#set text(size: ".spec_bytes()
            + (match settings.inline_size {
            Some(z) => vstd::utf8::encode_utf8(z@),
            None => "13pt".spec_bytes(),
        }) + ")\n".spec_bytes()
    }
}

/// The snippet in a math equation.
pub open spec fn equation_part(source: Seq<u8>, display: bool) -> Seq<u8> {
    "#math.equation(block: ".spec_bytes() + (if display { "true".spec_bytes() } else { "false".spec_bytes() })
        + ", $ ".spec_bytes() + source + " $)".spec_bytes()
}

/// The Typst source compiled for a math snippet: a preamble (equation edges, the font when
/// set, the page and the text size), then the snippet in a math equation.
pub open spec fn math_source_spec(source: Seq<u8>, display: bool, settings: MathSettings) -> Seq<u8> {
    "#show math.equation: set text(top-edge: \"bounds\", bottom-edge: \"bounds\")\n".spec_bytes()
        + font_part(settings.font) + page_part(display, settings) + equation_part(source, display)
}

fn push_font_part(out: &mut Vec<u8>, font: &Option<String>)
    ensures
        final(out)@ == old(out)@ + font_part(*font),
{
    if let Some(f) = font {
        let ghost o = out@;
        push_str(out, "#set text(font: \"");
        push_all(out, string_bytes(f));
        push_str(out, "\")\n");
        assert(out@ =~= o + font_part(*font));
    } else {
        assert(out@ =~= old(out)@ + font_part(*font));
    }
}

fn push_page_part(out: &mut Vec<u8>, display: bool, settings: &MathSettings)
    ensures
        final(out)@ == old(out)@ + page_part(display, *settings),
{
    let ghost o = out@;
    if display {
        push_str(out, "#set page(width: auto, height: auto, margin: 0.5em)\n#set block(spacing: 0.5em)\n#set text(size: ");
        match &settings.block_size {
            Some(z) => push_all(out, string_bytes(z)),
            None => push_str(out, "14.5pt"),
        }
        push_str(out, ")\n");
    } else {
        push_str(out, "#set page(width: auto, height: auto, margin: (top: 0.35em, bottom: 0.35em, left: 0.2em, right: 0.2em))\n#set text(size: ");
        match &settings.inline_size {
            Some(z) => push_all(out, string_bytes(z)),
            None => push_str(out, "13pt"),
        }
        push_str(out, ")\n");
    }
    assert(out@ =~= o + page_part(display, *settings));
}

fn push_equation_part(out: &mut Vec<u8>, source: &str, display: bool)
    ensures
        final(out)@ == old(out)@ + equation_part(source.spec_bytes(), display),
{
    let ghost o = out@;
    push_str(out, "#math.equation(block: ");
    if display {
        push_str(out, "true");
    } else {
        push_str(out, "false");
    }
    push_str(out, ", $ ");
    push_all(out, source.as_bytes());
    push_str(out, " $)");
    assert(out@ =~= o + equation_part(source.spec_bytes(), display));
}

/// The Typst source to compile for a math snippet, or `None` when the snippet with its
/// settings, or the whole source, is over the size limit.
pub fn math_typst_source(source: &str, display: bool, settings: &MathSettings) -> (r: Option<Vec<u8>>)
    ensures
        r is None <==> (source.spec_bytes().len() + opt_bytes(settings.font).len() + opt_bytes(
            size_setting(display, *settings),
        ).len() > MAX_TYPST_SOURCE_BYTES || math_source_spec(source.spec_bytes(), display, *settings).len()
            > MAX_TYPST_SOURCE_BYTES),
        r matches Some(b) ==> b@ == math_source_spec(source.spec_bytes(), display, *settings),
{
    let size = if display { &settings.block_size } else { &settings.inline_size };
    let font_len: usize = match &settings.font {
        Some(f) => string_bytes(f).len(),
        None => 0,
    };
    let size_len: usize = match size {
        Some(z) => string_bytes(z).len(),
        None => 0,
    };
    let n = source.as_bytes().len();
    if n > MAX_TYPST_SOURCE_BYTES || font_len > MAX_TYPST_SOURCE_BYTES || size_len > MAX_TYPST_SOURCE_BYTES
        || n + font_len + size_len > MAX_TYPST_SOURCE_BYTES {
        return None;
    }
    let mut out: Vec<u8> = Vec::new();
    push_str(&mut out, "#show math.equation: set text(top-edge: \"bounds\", bottom-edge: \"bounds\")\n");
    push_font_part(&mut out, &settings.font);
    push_page_part(&mut out, display, settings);
    push_equation_part(&mut out, source, display);
    if out.len() > MAX_TYPST_SOURCE_BYTES {
        return None;
    }
    Some(out)
}

/// What a compiled snippet gives: too many pages is a limit hit, else the first page's SVG
/// (if there is a page), kept when it is within the SVG size limit.
pub fn first_page_outcome(page_count: usize, first_page_svg: Option<String>) -> (r: Result<
    Option<String>,
    TypstResourceLimit,
>)
    ensures
        page_count > MAX_TYPST_PAGES ==> r == Err::<Option<String>, TypstResourceLimit>(TypstResourceLimit::Pages),
        page_count <= MAX_TYPST_PAGES ==> match first_page_svg {
            None => r == Ok::<Option<String>, TypstResourceLimit>(None),
            Some(svg) => (string_bytes_len(svg) > MAX_TYPST_SVG_BYTES <==> r == Err::<
                Option<String>,
                TypstResourceLimit,
            >(TypstResourceLimit::SvgBytes)) && (string_bytes_len(svg) <= MAX_TYPST_SVG_BYTES
                ==> r matches Ok(Some(_))),
        },
{
    if page_count > MAX_TYPST_PAGES {
        return Err(TypstResourceLimit::Pages);
    }
    match first_page_svg {
        None => Ok(None),
        Some(svg) => match normalize_svg_with_limit(svg) {
            Ok(s) => Ok(Some(s)),
            Err(e) => Err(e),
        },
    }
}

} // verus!
