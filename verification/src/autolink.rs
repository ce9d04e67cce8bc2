use vstd::prelude::*;
use crate::ast::{Inline, InlineKind, inline_in, inlines_in};
use crate::parser::{Parser, offsets_ok};
use vstd::string::StringSliceAdditionalSpecFns;
use crate::text::{
    ascii_alnum, ascii_ws, bytes_start_with, copy_range, push_all, push_str, string_from_bytes, is_alnum,
    lossy_decode, starts_at,
};

verus! {

/// A byte before which a bare URL may start: whitespace, `*`, `_`, `~` or `(`.
pub open spec fn is_url_boundary(b: u8) -> bool {
    b == 32u8 || b == 9u8 || b == 10u8 || b == 13u8 || b == 12u8 || b == 11u8 || b == 42u8 || b == 95u8
        || b == 126u8 || b == 40u8
}

pub fn url_boundary(b: u8) -> (r: bool)
    ensures
        r == is_url_boundary(b),
{
    b == 32u8 || b == 9u8 || b == 10u8 || b == 13u8 || b == 12u8 || b == 11u8 || b == 42u8 || b == 95u8
        || b == 126u8 || b == 40u8
}

/// A byte that may end a bare URL only when more of the URL follows it.
pub open spec fn is_trailing_punct(b: u8) -> bool {
    b == 63u8 || b == 33u8 || b == 46u8 || b == 44u8 || b == 58u8 || b == 42u8 || b == 95u8 || b == 126u8
        || b == 39u8 || b == 34u8
}

fn trailing_punct(b: u8) -> (r: bool)
    ensures
        r == is_trailing_punct(b),
{
    b == 63u8 || b == 33u8 || b == 46u8 || b == 44u8 || b == 58u8 || b == 42u8 || b == 95u8 || b == 126u8
        || b == 39u8 || b == 34u8
}

/// A byte of a domain name: a letter, a digit, `-` or `_`.
pub open spec fn is_domain_byte(b: u8) -> bool {
    is_alnum(b) || b == 45u8 || b == 95u8
}

/// A byte of a domain name: a letter, a digit, `-` or `_`.
fn domain_byte(b: u8) -> (r: bool)
    ensures
        r == is_domain_byte(b),
{
    ascii_alnum(b) || b == 45u8 || b == 95u8
}

/// Where a domain that started at `i` and has been read up to `k` ends: letters, digits, `-`
/// and `_`, and single dots between them.
pub open spec fn domain_stop(s: Seq<u8>, i: int, k: int, end: int) -> int
    decreases end - k,
{
    if k < i || k >= end {
        k
    } else if is_domain_byte(s[k]) {
        domain_stop(s, i, k + 1, end)
    } else if s[k] == 46u8 && k > i && k + 1 < end && is_domain_byte(s[k + 1]) && s[k - 1] != 46u8 {
        domain_stop(s, i, k + 1, end)
    } else {
        k
    }
}

/// The end of a domain that starts at `i`: labels of letters, digits, `-` and `_` joined by
/// single dots; `None` when there is not at least one label.
fn domain_end(bytes: &[u8], i: usize, end: usize) -> (r: Option<(usize, usize)>)
    requires
        i <= end <= bytes@.len(),
    ensures
        r matches Some((e, dots)) ==> i < e <= end,
        r is Some <==> (i < end && is_domain_byte(bytes@[i as int])),
        r matches Some((e, dots)) ==> forall|k: int| i <= k < e ==> is_domain_byte(
            #[trigger] bytes@[k],
        ) || bytes@[k] == 46u8,
        r matches Some((e, dots)) ==> e == domain_stop(bytes@, i as int, i as int, end as int) && (
        dots > 0 <==> exists|k: int| i <= k < e && bytes@[k] == 46u8),
{
    let mut k = i;
    let mut dots: usize = 0;
    while k < end
        invariant
            i <= k <= end,
            end <= bytes@.len(),
            k > i ==> is_domain_byte(bytes@[i as int]),
            forall|j: int| i <= j < k ==> is_domain_byte(#[trigger] bytes@[j]) || bytes@[j] == 46u8,
            domain_stop(bytes@, i as int, k as int, end as int) == domain_stop(bytes@, i as int, i as int, end as int),
            dots > 0 <==> exists|j: int| i <= j < k && bytes@[j] == 46u8,
        ensures
            domain_stop(bytes@, i as int, k as int, end as int) == k,
            domain_stop(bytes@, i as int, k as int, end as int) == domain_stop(bytes@, i as int, i as int, end as int),
            dots > 0 <==> exists|j: int| i <= j < k && bytes@[j] == 46u8,
            i <= k <= end,
            k > i ==> is_domain_byte(bytes@[i as int]),
            k == i ==> !(i < end && is_domain_byte(bytes@[i as int])),
            forall|j: int| i <= j < k ==> is_domain_byte(#[trigger] bytes@[j]) || bytes@[j] == 46u8,
        decreases end - k,
    {
        if domain_byte(bytes[k]) {
            proof {
                if exists|j: int| i <= j < k + 1 && bytes@[j] == 46u8 {
                    let j = choose|j: int| i <= j < k + 1 && bytes@[j] == 46u8;
                    assert(j < k);
                }
            }
            k = k + 1;
        } else if bytes[k] == 46u8 && k > i && k + 1 < end && domain_byte(bytes[k + 1]) && bytes[k - 1] != 46u8 {
            dots = dots.saturating_add(1);
            proof {
                assert(bytes@[k as int] == 46u8);
            }
            k = k + 1;
        } else {
            break;
        }
    }
    if k > i {
        Some((k, dots))
    } else {
        None
    }
}

/// The end of a bare URL that starts at `i` with `http://`, `https://` or `www.`: a domain (with
/// a dot after `www.`), then everything up to whitespace or `<`, less trailing punctuation and
/// unbalanced closing parentheses.
pub fn url_literal_end(bytes: &[u8], i: usize, end: usize) -> (r: Option<usize>)
    requires
        i < end <= bytes@.len(),
    ensures
        r matches Some(e) ==> i < e <= end,
        ({
            let p: int = if starts_at(bytes@, i as int, "https://".spec_bytes()) {
                8
            } else if starts_at(bytes@, i as int, "http://".spec_bytes()) {
                7
            } else if starts_at(bytes@, i as int, "www.".spec_bytes()) {
                4
            } else {
                0
            };
            let d = domain_stop(bytes@, i + p, i + p, end as int);
            &&& r is Some <==> (p > 0 && end - i > p && is_domain_byte(bytes@[i + p]) && (p == 4
                ==> exists|k: int| i + p <= k < d && bytes@[k] == 46u8))
            &&& r matches Some(e) ==> d <= e
        }),
{
    let prefix: usize = if bytes_start_with(bytes, i, "https://".as_bytes()) {
        8
    } else if bytes_start_with(bytes, i, "http://".as_bytes()) {
        7
    } else if bytes_start_with(bytes, i, "www.".as_bytes()) {
        4
    } else {
        return None;
    };
    if end - i <= prefix {
        return None;
    }
    let (dom_end, dots) = match domain_end(bytes, i + prefix, end) {
        Some(d) => d,
        None => return None,
    };
    if prefix == 4 && dots == 0 {
        return None;
    }
    let mut e = dom_end;
    while e < end && !ascii_ws(bytes[e]) && bytes[e] != 60u8
        invariant
            dom_end <= e <= end,
            end <= bytes@.len(),
        decreases end - e,
    {
        e = e + 1;
    }
    // Trailing punctuation is not part of the URL, nor is a `)` that no `(` in it opens.
    loop
        invariant
            dom_end <= e <= end,
            end <= bytes@.len(),
            i < dom_end,
        decreases e,
    {
        if e <= dom_end {
            break;
        }
        let last = bytes[e - 1];
        if trailing_punct(last) {
            e = e - 1;
            continue;
        }
        if last == 41u8 {
            let mut opens: usize = 0;
            let mut closes: usize = 0;
            let mut k = i;
            while k < e
                invariant
                    i <= k <= e,
                    e <= bytes@.len(),
                    opens <= k,
                    closes <= k,
                decreases e - k,
            {
                if bytes[k] == 40u8 {
                    opens = opens + 1;
                } else if bytes[k] == 41u8 {
                    closes = closes + 1;
                }
                k = k + 1;
            }
            if closes > opens {
                e = e - 1;
                continue;
            }
        }
        break;
    }
    if e > i {
        Some(e)
    } else {
        None
    }
}

/// A byte of the local part of an e-mail address.
pub fn email_local_byte(b: u8) -> (r: bool)
    ensures
        r == (is_alnum(b) || b == 46u8 || b == 43u8 || b == 45u8 || b == 95u8),
{
    ascii_alnum(b) || b == 46u8 || b == 43u8 || b == 45u8 || b == 95u8
}

/// The end of the domain of an e-mail address whose `@` is at `at`: at least one dot, and it
/// does not end in `-` or `_`.
pub fn email_domain_end(bytes: &[u8], at: usize, end: usize) -> (r: Option<usize>)
    requires
        at < end <= bytes@.len(),
    ensures
        r matches Some(e) ==> at + 1 < e <= end,
        r == ({
            let e = domain_stop(bytes@, at + 1, at + 1, end as int);
            if e > at + 1 && (exists|k: int| at + 1 <= k < e && bytes@[k] == 46u8) && bytes@[e - 1]
                != 45u8 && bytes@[e - 1] != 95u8 {
                Some(e as usize)
            } else {
                None
            }
        }),
{
    let (e, dots) = match domain_end(bytes, at + 1, end) {
        Some(d) => d,
        None => return None,
    };
    if dots == 0 {
        return None;
    }
    let last = bytes[e - 1];
    if last == 45u8 || last == 95u8 {
        return None;
    }
    Some(e)
}

/// Whether `buf` ends with the bytes `bytes[k..i]`.
pub fn tail_matches(buf: &[u8], bytes: &[u8], k: usize, i: usize) -> (r: bool)
    requires
        k <= i <= bytes@.len(),
    ensures
        r == (i - k <= buf@.len() && buf@.subrange(buf@.len() - (i - k), buf@.len() as int)
            == bytes@.subrange(k as int, i as int)),
{
    let t = i - k;
    if t > buf.len() {
        return false;
    }
    let base = buf.len() - t;
    let mut j: usize = 0;
    while j < t
        invariant
            j <= t,
            base + t == buf@.len(),
            k + t == i,
            buf@.len() <= usize::MAX,
            i <= bytes@.len(),
            forall|q: int| 0 <= q < j ==> #[trigger] buf@[base + q] == bytes@[k + q],
        decreases t - j,
    {
        if buf[base + j] != bytes[k + j] {
            assert(buf@.subrange(base as int, buf@.len() as int)[j as int] != bytes@.subrange(
                k as int,
                i as int,
            )[j as int]);
            return false;
        }
        j = j + 1;
    }
    assert forall|q: int| 0 <= q < t implies buf@.subrange(base as int, buf@.len() as int)[q]
        == bytes@.subrange(k as int, i as int)[q] by {
        assert(buf@[base + q] == bytes@[k + q]);
    }
    assert(buf@.subrange(base as int, buf@.len() as int) =~= bytes@.subrange(k as int, i as int));
    true
}

impl Parser {
    /// A link node for a bare URL `buffer[start..end]`; `www.` gets `http://` in front of it.
    pub fn url_link_node(&self, buffer: &[u8], offsets: &[usize], start: usize, end: usize, mailto: bool) -> (r: Inline)
        requires
            start <= end <= buffer@.len(),
            offsets_ok(offsets@, self.src_len as nat),
        ensures
            inline_in(r, self.src_len as nat),
            (r.kind matches InlineKind::Link { url, title, children } && title is None
                && url@ == lossy_decode(
                (if mailto {
                    "mailto:".spec_bytes()
                } else if starts_at(buffer@, start as int, "www.".spec_bytes()) {
                    "http://".spec_bytes()
                } else {
                    Seq::<u8>::empty()
                }) + buffer@.subrange(start as int, end as int),
            ) && children@.len() == 1 && (children@[0].kind matches InlineKind::Text(t) && t@
                == lossy_decode(buffer@.subrange(start as int, end as int)))),
    {
        let text = copy_range(buffer, start, end);
        let mut url: Vec<u8> = Vec::new();
        if mailto {
            push_str(&mut url, "mailto:");
        } else if bytes_start_with(buffer, start, "www.".as_bytes()) {
            push_str(&mut url, "http://");
        }
        push_all(&mut url, text.as_slice());
        let span = self.span_from_offsets(offsets, start, end);
        let child = Inline { span, kind: InlineKind::Text(string_from_bytes(text.as_slice())) };
        let children = vec![child];
        proof {
            assert(inlines_in(children@, self.src_len as nat)) by {
                assert(children@[0] == child);
            }
        }
        Inline {
            span,
            kind: InlineKind::Link { url: string_from_bytes(url.as_slice()), title: None, children },
        }
    }
}

} // verus!
