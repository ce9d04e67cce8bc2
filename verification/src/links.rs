use vstd::prelude::*;
use crate::text::{
    is_alnum, is_punct, ascii_alnum, ascii_alpha, ascii_ws, ascii_punct, ascii_hex, ascii_lower,
    ascii_digit, string_from_bytes, to_lowercase, string_bytes, copy_range, bytes_eq, push_str,
    is_alpha, is_digit, is_ascii_ws, lower, lossy_decode, spec_to_lowercase, is_hex,
};
use vstd::utf8::encode_utf8;
use vstd::string::StringSliceAdditionalSpecFns;

verus! {

/// A reference label after `@`: ASCII letters, digits, `_` and `-`.
pub fn parse_label(bytes: &[u8], start: usize, end: usize) -> (r: Option<(Vec<u8>, usize)>)
    requires
        end <= bytes@.len(),
    ensures
        r matches Some((label, next)) ==> start < next <= end && label@ == bytes@.subrange(
            start as int,
            next as int,
        ) && (forall|k: int| start <= k < next ==> (is_alnum(#[trigger] bytes@[k]) || bytes@[k]
            == 95u8 || bytes@[k] == 45u8)) && (next < end ==> !(is_alnum(bytes@[next as int])
            || bytes@[next as int] == 95u8 || bytes@[next as int] == 45u8)),
        r is None ==> start >= end || !(is_alnum(bytes@[start as int]) || bytes@[start as int]
            == 95u8 || bytes@[start as int] == 45u8),
{
    if start >= end {
        return None;
    }
    let mut i = start;
    while i < end && (ascii_alnum(bytes[i]) || bytes[i] == 95u8 || bytes[i] == 45u8)
        invariant
            start <= i <= end <= bytes@.len(),
            forall|k: int| start <= k < i ==> (is_alnum(#[trigger] bytes@[k]) || bytes@[k] == 95u8
                || bytes@[k] == 45u8),
        decreases end - i,
    {
        i = i + 1;
    }
    if i == start {
        None
    } else {
        Some((copy_range(bytes, start, i), i))
    }
}

/// Where the `]` that closes the brackets open at `i` (`depth` of them nested, and the
/// byte at `i` escaped or not) stands before `end`: `[` and `]` nest, a backslash escapes
/// the next byte.
pub open spec fn bracket_close(s: Seq<u8>, i: int, end: int, depth: nat, escaped: bool) -> Option<int>
    decreases end - i,
{
    if i >= end || i < 0 {
        None
    } else if escaped {
        bracket_close(s, i + 1, end, depth, false)
    } else if s[i] == 92u8 {
        bracket_close(s, i + 1, end, depth, true)
    } else if s[i] == 91u8 {
        bracket_close(s, i + 1, end, depth + 1, false)
    } else if s[i] == 93u8 {
        if depth == 0 {
            Some(i)
        } else {
            bracket_close(s, i + 1, end, (depth - 1) as nat, false)
        }
    } else {
        bracket_close(s, i + 1, end, depth, false)
    }
}

/// The closing `]` that matches an opening bracket before `start`, and whether a newline was
/// seen on the way; backslash escapes the next byte.
pub fn find_bracket_end(bytes: &[u8], start: usize, end: usize) -> (r: Option<(usize, bool)>)
    requires
        end <= bytes@.len(),
    ensures
        r matches Some((p, _)) ==> start <= p < end && bytes@[p as int] == 93u8,
        match r {
            Some((p, nl)) => bracket_close(bytes@, start as int, end as int, 0, false) == Some(
                p as int,
            ) && nl == exists|k: int| start <= k <= p && bytes@[k] == 10u8,
            None => bracket_close(bytes@, start as int, end as int, 0, false) is None,
        },
{
    let mut i = start;
    let mut depth: usize = 0;
    let mut escaped = false;
    let mut had_newline = false;
    while i < end
        invariant
            i >= start,
            end <= bytes@.len(),
            depth <= i - start,
            bracket_close(bytes@, i as int, end as int, depth as nat, escaped) == bracket_close(
                bytes@,
                start as int,
                end as int,
                0,
                false,
            ),
            had_newline == exists|k: int| start <= k < i && bytes@[k] == 10u8,
        decreases end - i,
    {
        let b = bytes[i];
        if b == 10u8 {
            had_newline = true;
        }
        proof {
            if b == 10u8 {
                assert(bytes@[i as int] == 10u8);
            }
            if exists|k: int| start <= k < i + 1 && bytes@[k] == 10u8 {
                let k = choose|k: int| start <= k < i + 1 && bytes@[k] == 10u8;
                if k < i {
                    assert(exists|k2: int| start <= k2 < i && bytes@[k2] == 10u8);
                }
            }
        }
        if escaped {
            escaped = false;
            i = i + 1;
            continue;
        }
        if b == 92u8 {
            escaped = true;
            i = i + 1;
            continue;
        }
        if b == 91u8 {
            depth = depth + 1;
        } else if b == 93u8 {
            if depth == 0 {
                return Some((i, had_newline));
            }
            depth = depth - 1;
        }
        i = i + 1;
    }
    None
}

/// The text of a title read from `i` up to its closing byte `close` before `end`, with the
/// backslash of an escaped punctuation byte removed, and the index after the closing byte;
/// `None` at a newline or when it does not close.
pub open spec fn title_from(s: Seq<u8>, i: int, end: int, close: u8, escaped: bool) -> Option<(Seq<u8>, int)>
    decreases end - i,
{
    if i >= end || i < 0 {
        None
    } else if s[i] == 10u8 {
        None
    } else if escaped {
        match title_from(s, i + 1, end, close, false) {
            Some((o, n)) => Some((seq![s[i]] + o, n)),
            None => None,
        }
    } else if s[i] == 92u8 && i + 1 < end && is_punct(s[i + 1]) {
        title_from(s, i + 1, end, close, true)
    } else if s[i] == close {
        Some((Seq::empty(), i + 1))
    } else {
        match title_from(s, i + 1, end, close, false) {
            Some((o, n)) => Some((seq![s[i]] + o, n)),
            None => None,
        }
    }
}

/// The closing byte of a title opened by `open`: `"`, `'`, or `)` for `(`.
pub open spec fn title_closer(open: u8) -> Option<u8> {
    if open == 34u8 {
        Some(34u8)
    } else if open == 39u8 {
        Some(39u8)
    } else if open == 40u8 {
        Some(41u8)
    } else {
        None
    }
}

/// A link title delimited by `"`, `'` or `(`..`)` on one line, with backslash escapes removed.
pub fn parse_link_title(bytes: &[u8], start: usize, end: usize) -> (r: Option<(Vec<u8>, usize)>)
    requires
        end <= bytes@.len(),
    ensures
        r matches Some((_, next)) ==> start < next <= end,
        match (if start < end { title_closer(bytes@[start as int]) } else { None }) {
            Some(c) => match title_from(bytes@, start + 1, end as int, c, false) {
                Some((o, n)) => r matches Some((t, next)) && t@ == o && next == n,
                None => r is None,
            },
            None => r is None,
        },
{
    if start >= end {
        return None;
    }
    let open = bytes[start];
    let close: u8 = if open == 34u8 {
        34u8
    } else if open == 39u8 {
        39u8
    } else if open == 40u8 {
        41u8
    } else {
        return None;
    };
    let mut i = start + 1;
    let mut out: Vec<u8> = Vec::new();
    let mut escaped = false;
    let ghost whole = title_from(bytes@, start + 1, end as int, close, false);
    while i < end
        invariant
            start < i,
            end <= bytes@.len(),
            whole == title_from(bytes@, start + 1, end as int, close, false),
            start < end,
            title_closer(bytes@[start as int]) == Some(close),
            title_from(bytes@, i as int, end as int, close, escaped) matches Some((o, n)) ==> whole
                == Some((out@ + o, n)),
            title_from(bytes@, i as int, end as int, close, escaped) is None ==> whole is None,
            escaped ==> i < end,
        decreases end - i,
    {
        let b = bytes[i];
        proof {
            if let Some((o, n)) = title_from(bytes@, i + 1, end as int, close, false) {
                assert(out@ + (seq![b] + o) =~= out@.push(b) + o);
            }
        }
        if b == 10u8 {
            return None;
        }
        if escaped {
            out.push(b);
            escaped = false;
            i = i + 1;
            continue;
        }
        if b == 92u8 {
            if i + 1 < end && ascii_punct(bytes[i + 1]) {
                escaped = true;
                i = i + 1;
                continue;
            }
            out.push(92u8);
            i = i + 1;
            continue;
        }
        if b == close {
            proof {
                assert(out@ + Seq::<u8>::empty() =~= out@);
            }
            return Some((out, i + 1));
        }
        out.push(b);
        i = i + 1;
    }
    None
}

/// Appends a destination byte, or the byte after a backslash when it escapes punctuation;
/// returns how many bytes were consumed.
fn take_dest_byte(bytes: &[u8], i: usize, end: usize, out: &mut Vec<u8>) -> (n: usize)
    requires
        i < end <= bytes@.len(),
    ensures
        1 <= n <= 2,
        i + n <= end,
        if bytes@[i as int] == 92u8 && i + 1 < end && is_punct(bytes@[i + 1]) {
            n == 2 && final(out)@ == old(out)@.push(bytes@[i + 1])
        } else {
            n == 1 && final(out)@ == old(out)@.push(bytes@[i as int])
        },
{
    if bytes[i] == 92u8 {
        if i + 1 < end && ascii_punct(bytes[i + 1]) {
            out.push(bytes[i + 1]);
            return 2;
        }
        out.push(92u8);
        return 1;
    }
    out.push(bytes[i]);
    1
}

/// Where ASCII whitespace from `i` on ends before `end`; `None` when it holds a newline.
pub open spec fn skip_ws_line(s: Seq<u8>, i: int, end: int) -> Option<int>
    decreases end - i,
{
    if 0 <= i < end && is_ascii_ws(s[i]) {
        if s[i] == 10u8 {
            None
        } else {
            skip_ws_line(s, i + 1, end)
        }
    } else {
        Some(i)
    }
}

/// A bare inline link destination from `i` on: up to whitespace or a `)` that no `(` in it
/// opened (`depth` are open), with the backslash of an escaped punctuation byte removed; the
/// bytes and where they stop. `None` at a newline or when a `(` is left open.
pub open spec fn bare_link_dest(s: Seq<u8>, i: int, end: int, depth: int) -> Option<(Seq<u8>, int)>
    decreases end - i,
{
    if i < 0 || i >= end || is_ascii_ws(s[i]) && s[i] != 10u8 || (s[i] == 41u8 && depth == 0) {
        if depth > 0 {
            None
        } else {
            Some((Seq::empty(), i))
        }
    } else if s[i] == 10u8 {
        None
    } else if s[i] == 40u8 || s[i] == 41u8 {
        match bare_link_dest(s, i + 1, end, if s[i] == 40u8 { depth + 1 } else { depth - 1 }) {
            Some((o, n)) => Some((seq![s[i]] + o, n)),
            None => None,
        }
    } else if s[i] == 92u8 && i + 1 < end && is_punct(s[i + 1]) {
        match bare_link_dest(s, i + 2, end, depth) {
            Some((o, n)) => Some((seq![s[i + 1]] + o, n)),
            None => None,
        }
    } else {
        match bare_link_dest(s, i + 1, end, depth) {
            Some((o, n)) => Some((seq![s[i]] + o, n)),
            None => None,
        }
    }
}

/// An inline link tail `(dest "title")` at `start`: the destination, the title, and the
/// index of the closing `)`.
pub open spec fn link_tail(s: Seq<u8>, start: int, end: int) -> Option<(Seq<u8>, Option<Seq<u8>>, int)> {
    match skip_ws_line(s, start, end) {
        None => None,
        Some(a) => if a >= end || s[a] != 40u8 {
            None
        } else {
            match skip_ws_line(s, a + 1, end) {
                None => None,
                Some(b) => if b >= end {
                    None
                } else {
                    let dest = if s[b] == 60u8 {
                        angle_dest(s, b + 1, end)
                    } else {
                        bare_link_dest(s, b, end, 0)
                    };
                    match dest {
                        None => None,
                        Some((u, c)) => match skip_ws_line(s, c, end) {
                            None => None,
                            Some(d) => if d >= end {
                                None
                            } else if s[d] == 41u8 {
                                Some((u, None, d))
                            } else if d == c {
                                None
                            } else {
                                match title_closer(s[d]) {
                                    None => None,
                                    Some(cl) => match title_from(s, d + 1, end, cl, false) {
                                        None => None,
                                        Some((t, n)) => match skip_ws_line(s, n, end) {
                                            Some(e) => if e < end && s[e] == 41u8 {
                                                Some((u, Some(t), e))
                                            } else {
                                                None
                                            },
                                            None => None,
                                        },
                                    },
                                }
                            },
                        },
                    }
                },
            }
        },
    }
}

/// An inline link tail `(dest "title")` starting at `start`: the destination, the title, and
/// the index of the closing `)`.
pub fn parse_inline_link_destination(bytes: &[u8], start: usize, end: usize) -> (r: Option<
    (Vec<u8>, Option<Vec<u8>>, usize),
>)
    requires
        end <= bytes@.len(),
    ensures
        r matches Some((_, _, close)) ==> start <= close < end && bytes@[close as int] == 41u8,
        match link_tail(bytes@, start as int, end as int) {
            Some((u, t, c)) => r matches Some((ru, rt, rc)) && ru@ == u && rc == c && match t {
                Some(tt) => rt matches Some(x) && x@ == tt,
                None => rt is None,
            },
            None => r is None,
        },
{
    let mut i = start;
    while i < end && ascii_ws(bytes[i])
        invariant
            start <= i,
            end <= bytes@.len(),
            skip_ws_line(bytes@, i as int, end as int) == skip_ws_line(bytes@, start as int, end as int),
        decreases end - i,
    {
        if bytes[i] == 10u8 {
            return None;
        }
        i = i + 1;
    }
    let ghost a = i as int;
    assert(skip_ws_line(bytes@, start as int, end as int) == Some(a));
    if i >= end || bytes[i] != 40u8 {
        return None;
    }
    i = i + 1;
    while i < end && ascii_ws(bytes[i])
        invariant
            start < i,
            end <= bytes@.len(),
            skip_ws_line(bytes@, i as int, end as int) == skip_ws_line(bytes@, a + 1, end as int),
            skip_ws_line(bytes@, start as int, end as int) == Some(a),
            a < end && bytes@[a] == 40u8,
        decreases end - i,
    {
        if bytes[i] == 10u8 {
            return None;
        }
        i = i + 1;
    }
    let ghost b = i as int;
    assert(skip_ws_line(bytes@, a + 1, end as int) == Some(b));
    if i >= end {
        return None;
    }
    let mut url: Vec<u8> = Vec::new();
    let ghost dest = if bytes@[b] == 60u8 {
        angle_dest(bytes@, b + 1, end as int)
    } else {
        bare_link_dest(bytes@, b, end as int, 0)
    };
    if bytes[i] == 60u8 {
        i = i + 1;
        let mut closed = false;
        while i < end
            invariant_except_break
                !closed,
                angle_dest(bytes@, i as int, end as int) matches Some((o, n)) ==> dest == Some(
                    (url@ + o, n),
                ),
                angle_dest(bytes@, i as int, end as int) is None ==> dest is None,
            invariant
                start < i,
                end <= bytes@.len(),
                dest == angle_dest(bytes@, b + 1, end as int),
                bytes@[b] == 60u8,
                skip_ws_line(bytes@, start as int, end as int) == Some(a),
                a < end && bytes@[a] == 40u8,
                skip_ws_line(bytes@, a + 1, end as int) == Some(b),
                b < end,
                dest == (if bytes@[b] == 60u8 {
                    angle_dest(bytes@, b + 1, end as int)
                } else {
                    bare_link_dest(bytes@, b, end as int, 0)
                }),
            ensures
                !closed ==> dest is None,
                closed ==> dest == Some((url@, i as int)),
                start < i,
            decreases end - i,
        {
            let c = bytes[i];
            if c == 10u8 {
                return None;
            }
            if c == 62u8 {
                proof {
                    assert(angle_dest(bytes@, i as int, end as int) == Some((Seq::<u8>::empty(), i + 1)));
                    assert(url@ + Seq::<u8>::empty() =~= url@);
                }
                closed = true;
                i = i + 1;
                break;
            }
            let ghost u0 = url@;
            let n = take_dest_byte(bytes, i, end, &mut url);
            proof {
                if let Some((o, m)) = angle_dest(bytes@, i + n, end as int) {
                    if n == 2 {
                        assert(u0 + (seq![bytes@[i + 1]] + o) =~= url@ + o);
                    } else {
                        assert(u0 + (seq![bytes@[i as int]] + o) =~= url@ + o);
                    }
                }
            }
            i = i + n;
        }
        if !closed {
            return None;
        }
    } else {
        let mut depth: usize = 0;
        while i < end
            invariant_except_break
                bare_link_dest(bytes@, i as int, end as int, depth as int) matches Some((o, n))
                    ==> dest == Some((url@ + o, n)),
                bare_link_dest(bytes@, i as int, end as int, depth as int) is None ==> dest is None,
            invariant
                start < i,
                end <= bytes@.len(),
                depth <= i,
                dest == bare_link_dest(bytes@, b, end as int, 0),
                bytes@[b] != 60u8,
                skip_ws_line(bytes@, start as int, end as int) == Some(a),
                a < end && bytes@[a] == 40u8,
                skip_ws_line(bytes@, a + 1, end as int) == Some(b),
                b < end,
                dest == (if bytes@[b] == 60u8 {
                    angle_dest(bytes@, b + 1, end as int)
                } else {
                    bare_link_dest(bytes@, b, end as int, 0)
                }),
            ensures
                start < i,
                depth > 0 ==> dest is None,
                depth == 0 ==> dest == Some((url@, i as int)),
            decreases end - i,
        {
            let c = bytes[i];
            if c == 10u8 {
                return None;
            }
            if ascii_ws(c) {
                proof {
                    assert(url@ + Seq::<u8>::empty() =~= url@);
                }
                break;
            }
            let ghost u0 = url@;
            if c == 40u8 {
                depth = depth + 1;
                url.push(c);
                proof {
                    if let Some((o, m)) = bare_link_dest(bytes@, i + 1, end as int, depth as int) {
                        assert(u0 + (seq![c] + o) =~= url@ + o);
                    }
                }
                i = i + 1;
                continue;
            }
            if c == 41u8 {
                if depth == 0 {
                    proof {
                        assert(url@ + Seq::<u8>::empty() =~= url@);
                    }
                    break;
                }
                depth = depth - 1;
                url.push(c);
                proof {
                    if let Some((o, m)) = bare_link_dest(bytes@, i + 1, end as int, depth as int) {
                        assert(u0 + (seq![c] + o) =~= url@ + o);
                    }
                }
                i = i + 1;
                continue;
            }
            let n = take_dest_byte(bytes, i, end, &mut url);
            proof {
                if let Some((o, m)) = bare_link_dest(bytes@, i + n, end as int, depth as int) {
                    if n == 2 {
                        assert(u0 + (seq![bytes@[i + 1]] + o) =~= url@ + o);
                    } else {
                        assert(u0 + (seq![bytes@[i as int]] + o) =~= url@ + o);
                    }
                }
            }
            i = i + n;
        }
        proof {
            if i >= end {
                assert(url@ + Seq::<u8>::empty() =~= url@);
            }
        }
        if depth > 0 {
            return None;
        }
    }
    let ghost c = i as int;
    assert(dest == Some((url@, c)));
    let mut had_space = false;
    while i < end && ascii_ws(bytes[i])
        invariant
            start < i,
            c <= i,
            end <= bytes@.len(),
            had_space == (i > c),
            skip_ws_line(bytes@, i as int, end as int) == skip_ws_line(bytes@, c, end as int),
            skip_ws_line(bytes@, start as int, end as int) == Some(a),
            a < end && bytes@[a] == 40u8,
            skip_ws_line(bytes@, a + 1, end as int) == Some(b),
            b < end,
            dest == (if bytes@[b] == 60u8 {
                angle_dest(bytes@, b + 1, end as int)
            } else {
                bare_link_dest(bytes@, b, end as int, 0)
            }),
            dest == Some((url@, c)),
        decreases end - i,
    {
        if bytes[i] == 10u8 {
            return None;
        }
        had_space = true;
        i = i + 1;
    }
    let ghost d = i as int;
    assert(skip_ws_line(bytes@, c, end as int) == Some(d));
    if i >= end {
        return None;
    }
    if bytes[i] == 41u8 {
        return Some((url, None, i));
    }
    if !had_space {
        return None;
    }
    let (title, next) = match parse_link_title(bytes, i, end) {
        Some(t) => t,
        None => return None,
    };
    i = next;
    let ghost n0 = next as int;
    while i < end && ascii_ws(bytes[i])
        invariant
            start < i,
            end <= bytes@.len(),
            skip_ws_line(bytes@, i as int, end as int) == skip_ws_line(bytes@, n0, end as int),
            skip_ws_line(bytes@, start as int, end as int) == Some(a),
            a < end && bytes@[a] == 40u8,
            skip_ws_line(bytes@, a + 1, end as int) == Some(b),
            b < end,
            dest == (if bytes@[b] == 60u8 {
                angle_dest(bytes@, b + 1, end as int)
            } else {
                bare_link_dest(bytes@, b, end as int, 0)
            }),
            dest == Some((url@, c)),
            skip_ws_line(bytes@, c, end as int) == Some(d),
            d < end && bytes@[d] != 41u8 && d != c,
            title_closer(bytes@[d]) is Some,
            title_from(bytes@, d + 1, end as int, title_closer(bytes@[d])->0, false) == Some((title@, n0)),
        decreases end - i,
    {
        if bytes[i] == 10u8 {
            return None;
        }
        i = i + 1;
    }
    if i < end && bytes[i] == 41u8 {
        return Some((url, Some(title), i));
    }
    None
}

/// The destination bytes read from `i` up to the closing `>` before `end`, with the backslash
/// of an escaped punctuation byte removed, and the index after the `>`; `None` at a newline or
/// when it does not close.
pub open spec fn angle_dest(s: Seq<u8>, i: int, end: int) -> Option<(Seq<u8>, int)>
    decreases end - i,
{
    if i >= end || i < 0 {
        None
    } else if s[i] == 10u8 {
        None
    } else if s[i] == 62u8 {
        Some((Seq::empty(), i + 1))
    } else if s[i] == 92u8 && i + 1 < end && is_punct(s[i + 1]) {
        match angle_dest(s, i + 2, end) {
            Some((o, n)) => Some((seq![s[i + 1]] + o, n)),
            None => None,
        }
    } else {
        match angle_dest(s, i + 1, end) {
            Some((o, n)) => Some((seq![s[i]] + o, n)),
            None => None,
        }
    }
}

/// The destination bytes read from `i` up to whitespace or `end`, with the backslash of an
/// escaped punctuation byte removed, and where they stop.
pub open spec fn bare_dest(s: Seq<u8>, i: int, end: int) -> (Seq<u8>, int)
    decreases end - i,
{
    if i >= end || i < 0 || is_ascii_ws(s[i]) {
        (Seq::empty(), i)
    } else if s[i] == 92u8 && i + 1 < end && is_punct(s[i + 1]) {
        let (o, n) = bare_dest(s, i + 2, end);
        (seq![s[i + 1]] + o, n)
    } else {
        let (o, n) = bare_dest(s, i + 1, end);
        (seq![s[i]] + o, n)
    }
}

/// A link reference definition destination: angle-bracketed or up to whitespace.
pub fn parse_reference_destination(bytes: &[u8], start: usize, end: usize) -> (r: Option<
    (Vec<u8>, usize),
>)
    requires
        start <= end <= bytes@.len(),
    ensures
        r matches Some((_, next)) ==> start <= next <= end,
        if start < end && bytes@[start as int] == 60u8 {
            match angle_dest(bytes@, start + 1, end as int) {
                Some((o, n)) => r matches Some((u, next)) && u@ == o && next == n,
                None => r is None,
            }
        } else {
            let (o, n) = bare_dest(bytes@, start as int, end as int);
            if o.len() == 0 {
                r is None
            } else {
                r matches Some((u, next)) && u@ == o && next == n
            }
        },
{
    let mut i = start;
    let mut url: Vec<u8> = Vec::new();
    let mut angle = false;
    if i < end && bytes[i] == 60u8 {
        angle = true;
        i = i + 1;
        let mut closed = false;
        let ghost whole = angle_dest(bytes@, start + 1, end as int);
        while i < end
            invariant_except_break
                !closed,
                angle_dest(bytes@, i as int, end as int) matches Some((o, n)) ==> whole
                    == Some((url@ + o, n)),
                angle_dest(bytes@, i as int, end as int) is None ==> whole is None,
            invariant
                start <= i <= end,
                end <= bytes@.len(),
                whole == angle_dest(bytes@, start + 1, end as int),
                start < end && bytes@[start as int] == 60u8,
            ensures
                !closed ==> whole is None,
                closed ==> whole == Some((url@, i as int)),
                start <= i <= end,
            decreases end - i,
        {
            let b = bytes[i];
            if b == 10u8 {
                return None;
            }
            if b == 62u8 {
                proof {
                    assert(angle_dest(bytes@, i as int, end as int) == Some((Seq::<u8>::empty(), i + 1)));
                    assert(url@ + Seq::<u8>::empty() =~= url@);
                    assert(whole == Some((url@, i + 1)));
                }
                closed = true;
                i = i + 1;
                break;
            }
            let ghost u0 = url@;
            let n = take_dest_byte(bytes, i, end, &mut url);
            proof {
                if let Some((o, m)) = angle_dest(bytes@, i + n, end as int) {
                    if n == 2 {
                        assert(u0 + (seq![bytes@[i + 1]] + o) =~= url@ + o);
                    } else {
                        assert(u0 + (seq![bytes@[i as int]] + o) =~= url@ + o);
                    }
                }
            }
            i = i + n;
        }
        if !closed {
            return None;
        }
    } else {
        let ghost whole = bare_dest(bytes@, start as int, end as int);
        while i < end
            invariant
                start <= i <= end,
                end <= bytes@.len(),
                whole == bare_dest(bytes@, start as int, end as int),
                whole == (url@ + bare_dest(bytes@, i as int, end as int).0, bare_dest(
                    bytes@,
                    i as int,
                    end as int,
                ).1),
            ensures
                start <= i <= end,
                whole == (url@, i as int),
            decreases end - i,
        {
            let b = bytes[i];
            if ascii_ws(b) {
                proof {
                    assert(url@ + Seq::<u8>::empty() =~= url@);
                }
                break;
            }
            let ghost u0 = url@;
            let n = take_dest_byte(bytes, i, end, &mut url);
            proof {
                let (o, m) = bare_dest(bytes@, i + n, end as int);
                if n == 2 {
                    assert(u0 + (seq![bytes@[i + 1]] + o) =~= url@ + o);
                } else {
                    assert(u0 + (seq![bytes@[i as int]] + o) =~= url@ + o);
                }
            }
            i = i + n;
        }
        proof {
            if i >= end {
                assert(url@ + Seq::<u8>::empty() =~= url@);
            }
        }
    }
    if url.len() == 0 && !angle {
        return None;
    }
    Some((url, i))
}

/// The collapsed bytes of a label from `i` on, in the state reached there: whether the byte
/// at `i` is escaped, whether a space was just written, whether anything was written.
pub open spec fn collapse_from(
    s: Seq<u8>,
    i: int,
    brackets_only: bool,
    escaped: bool,
    last_space: bool,
    nonempty: bool,
) -> Seq<u8>
    decreases s.len() - i,
{
    if i >= s.len() || i < 0 {
        if escaped {
            seq![92u8]
        } else {
            Seq::empty()
        }
    } else if escaped {
        seq![lower(s[i])] + collapse_from(s, i + 1, brackets_only, false, false, true)
    } else if s[i] == 92u8 {
        if i + 1 < s.len() && (if brackets_only {
            s[i + 1] == 91u8 || s[i + 1] == 93u8 || s[i + 1] == 92u8
        } else {
            is_punct(s[i + 1])
        }) {
            collapse_from(s, i + 1, brackets_only, true, last_space, nonempty)
        } else {
            seq![92u8] + collapse_from(s, i + 1, brackets_only, false, false, true)
        }
    } else if is_ascii_ws(s[i]) {
        if nonempty && !last_space {
            seq![32u8] + collapse_from(s, i + 1, brackets_only, false, true, true)
        } else {
            collapse_from(s, i + 1, brackets_only, false, last_space, nonempty)
        }
    } else {
        seq![lower(s[i])] + collapse_from(s, i + 1, brackets_only, false, false, true)
    }
}

/// A collapsed label: `collapse_from` over the whole text, less a final space.
pub open spec fn collapsed(s: Seq<u8>, brackets_only: bool) -> Seq<u8> {
    let o = collapse_from(s, 0, brackets_only, false, false, false);
    if o.len() > 0 && o.last() == 32u8 {
        o.drop_last()
    } else {
        o
    }
}

/// Collapses whitespace runs of a link label to one space, drops leading and trailing
/// whitespace, lowercases ASCII letters and removes the backslash of an escape that
/// `is_escape` accepts.
pub fn collapse_label(bytes: &[u8], brackets_only: bool) -> (r: Vec<u8>)
    ensures
        r@ == collapsed(bytes@, brackets_only),
{
    let mut out: Vec<u8> = Vec::new();
    let mut escaped = false;
    let mut last_space = false;
    let mut idx: usize = 0;
    let ghost whole = collapse_from(bytes@, 0, brackets_only, false, false, false);
    while idx < bytes.len()
        invariant
            idx <= bytes@.len(),
            whole == collapse_from(bytes@, 0, brackets_only, false, false, false),
            out@ + collapse_from(bytes@, idx as int, brackets_only, escaped, last_space, out@.len()
                > 0) == whole,
            escaped ==> idx < bytes@.len(),
            last_space ==> out@.len() > 0 && out@.last() == 32u8,
        decreases bytes.len() - idx,
    {
        let ghost o0 = out@;
        let b = bytes[idx];
        if escaped {
            out.push(ascii_lower(b));
            proof {
                assert(o0 + (seq![lower(b)] + collapse_from(bytes@, idx + 1, brackets_only, false, false, true))
                    =~= out@ + collapse_from(bytes@, idx + 1, brackets_only, false, false, true));
            }
            escaped = false;
            last_space = false;
            idx = idx + 1;
            continue;
        }
        if b == 92u8 {
            if idx + 1 < bytes.len() {
                let next = bytes[idx + 1];
                let escapes = if brackets_only {
                    is_label_escape(next)
                } else {
                    ascii_punct(next)
                };
                if escapes {
                    escaped = true;
                    idx = idx + 1;
                    continue;
                }
            }
            out.push(92u8);
            proof {
                assert(o0 + (seq![92u8] + collapse_from(bytes@, idx + 1, brackets_only, false, false, true))
                    =~= out@ + collapse_from(bytes@, idx + 1, brackets_only, false, false, true));
            }
            last_space = false;
            idx = idx + 1;
            continue;
        }
        if ascii_ws(b) {
            if out.len() > 0 && !last_space {
                out.push(32u8);
                proof {
                    assert(o0 + (seq![32u8] + collapse_from(bytes@, idx + 1, brackets_only, false, true, true))
                        =~= out@ + collapse_from(bytes@, idx + 1, brackets_only, false, true, true));
                }
                last_space = true;
            }
            idx = idx + 1;
            continue;
        }
        last_space = false;
        out.push(ascii_lower(b));
        proof {
            assert(o0 + (seq![lower(b)] + collapse_from(bytes@, idx + 1, brackets_only, false, false, true))
                =~= out@ + collapse_from(bytes@, idx + 1, brackets_only, false, false, true));
        }
        idx = idx + 1;
    }
    proof {
        assert(out@ + Seq::<u8>::empty() =~= out@);
    }
    if escaped {
        out.push(92u8);
    }
    if out.len() > 0 && out[out.len() - 1] == 32u8 {
        out.pop();
    }
    out
}

/// The key under which a link reference definition is stored: the collapsed label, lowercased.
pub fn normalize_definition_label(bytes: &[u8]) -> (r: String)
    ensures
        r@ == spec_to_lowercase(lossy_decode(collapsed(bytes@, false))),
{
    let collapsed = collapse_label(bytes, false);
    let s = string_from_bytes(collapsed.as_slice());
    to_lowercase(s.as_str())
}

/// The bytes with each `ß` (C3 9F) and `ẞ` (E1 BA 9E) replaced by `ss`, reading from `i`.
pub open spec fn fold_sharp_s(s: Seq<u8>, i: int) -> Seq<u8>
    decreases s.len() - i,
{
    if i >= s.len() || i < 0 {
        Seq::empty()
    } else if s.len() - i >= 2 && s[i] == 0xC3u8 && s[i + 1] == 0x9Fu8 {
        seq![115u8, 115u8] + fold_sharp_s(s, i + 2)
    } else if s.len() - i >= 3 && s[i] == 0xE1u8 && s[i + 1] == 0xBAu8 && s[i + 2] == 0x9Eu8 {
        seq![115u8, 115u8] + fold_sharp_s(s, i + 3)
    } else {
        seq![s[i]] + fold_sharp_s(s, i + 1)
    }
}

/// The key under which a link reference is looked up: the collapsed label, lowercased, with
/// `ß` and `ẞ` folded to `ss`.
pub fn normalize_link_label(bytes: &[u8]) -> (r: String)
    ensures
        r@ == lossy_decode(
            fold_sharp_s(encode_utf8(spec_to_lowercase(lossy_decode(collapsed(bytes@, true)))), 0),
        ),
{
    let collapsed = collapse_label(bytes, true);
    let s = string_from_bytes(collapsed.as_slice());
    let lowered = to_lowercase(s.as_str());
    let lb = string_bytes(&lowered);
    let mut out: Vec<u8> = Vec::new();
    let mut i: usize = 0;
    while i < lb.len()
        invariant
            i <= lb@.len(),
            out@ + fold_sharp_s(lb@, i as int) == fold_sharp_s(lb@, 0),
        decreases lb.len() - i,
    {
        let ghost o0 = out@;
        if lb.len() - i >= 2 && lb[i] == 0xC3u8 && lb[i + 1] == 0x9Fu8 {
            out.push(115u8);
            out.push(115u8);
            proof {
                assert(o0 + (seq![115u8, 115u8] + fold_sharp_s(lb@, i + 2)) =~= out@ + fold_sharp_s(lb@, i + 2));
            }
            i = i + 2;
        } else if lb.len() - i >= 3 && lb[i] == 0xE1u8 && lb[i + 1] == 0xBAu8 && lb[i + 2]
            == 0x9Eu8 {
            out.push(115u8);
            out.push(115u8);
            proof {
                assert(o0 + (seq![115u8, 115u8] + fold_sharp_s(lb@, i + 3)) =~= out@ + fold_sharp_s(lb@, i + 3));
            }
            i = i + 3;
        } else {
            out.push(lb[i]);
            proof {
                assert(o0 + (seq![lb@[i as int]] + fold_sharp_s(lb@, i + 1)) =~= out@ + fold_sharp_s(lb@, i + 1));
            }
            i = i + 1;
        }
    }
    proof {
        assert(out@ + Seq::<u8>::empty() =~= out@);
    }
    string_from_bytes(out.as_slice())
}

pub fn is_label_escape(byte: u8) -> (r: bool)
    ensures
        r == (byte == 91u8 || byte == 93u8 || byte == 92u8),
{
    byte == 91u8 || byte == 93u8 || byte == 92u8
}

/// Removes the backslash before escaped ASCII punctuation.
pub open spec fn spec_unescape(s: Seq<u8>) -> Seq<u8>
    decreases s.len(),
{
    if s.len() == 0 {
        seq![]
    } else if s.len() >= 2 && s[0] == 92u8 && is_punct(s[1]) {
        seq![s[1]] + spec_unescape(s.subrange(2, s.len() as int))
    } else {
        seq![s[0]] + spec_unescape(s.subrange(1, s.len() as int))
    }
}

pub fn unescape_backslash_punct(text: &[u8]) -> (r: Vec<u8>)
    ensures
        r@ == spec_unescape(text@),
{
    let mut out: Vec<u8> = Vec::new();
    let mut i: usize = 0;
    assert(text@.subrange(0, text@.len() as int) == text@);
    while i < text.len()
        invariant
            i <= text@.len(),
            out@ + spec_unescape(text@.subrange(i as int, text@.len() as int)) == spec_unescape(
                text@,
            ),
        decreases text.len() - i,
    {
        let ghost rest = text@.subrange(i as int, text@.len() as int);
        if text[i] == 92u8 && i + 1 < text.len() && ascii_punct(text[i + 1]) {
            assert(rest.subrange(2, rest.len() as int) == text@.subrange(i + 2, text@.len() as int));
            out.push(text[i + 1]);
            i = i + 2;
            continue;
        }
        assert(rest.subrange(1, rest.len() as int) == text@.subrange(i + 1, text@.len() as int));
        out.push(text[i]);
        i = i + 1;
    }
    assert(text@.subrange(0, text@.len() as int) == text@);
    out
}

/// The names of the character references that this library decodes.
pub open spec fn entity_names() -> Seq<&'static str> {
    seq![
        "amp", "lt", "gt", "quot", "apos", "nbsp", "copy", "reg", "trade", "hellip", "mdash",
        "ndash", "lsquo", "rsquo", "ldquo", "rdquo", "laquo", "raquo", "middot", "bull", "deg",
        "plusmn", "times", "divide", "frac12", "frac14", "frac34", "sect", "para", "euro",
        "pound", "yen", "cent", "AElig", "aelig", "Dcaron", "szlig", "auml", "ouml", "uuml",
        "Auml", "Ouml", "Uuml", "eacute", "egrave", "agrave", "ccedil", "larr", "rarr", "uarr",
        "darr", "harr", "HilbertSpace", "DifferentialD", "ClockwiseContourIntegral", "ngE",
        "infin", "ne", "le", "ge", "alpha", "beta", "gamma", "delta", "pi", "sigma", "omega",
        "lambda", "mu", "theta", "check", "cross", "hearts",
    ]
}

/// What each of `entity_names` decodes to, in the same order.
pub open spec fn entity_values() -> Seq<&'static str> {
    seq![
        "&", "<", ">", "\"", "'", "\u{a0}", "\u{a9}", "\u{ae}", "\u{2122}", "\u{2026}",
        "\u{2014}", "\u{2013}", "\u{2018}", "\u{2019}", "\u{201c}", "\u{201d}", "\u{ab}",
        "\u{bb}", "\u{b7}", "\u{2022}", "\u{b0}", "\u{b1}", "\u{d7}", "\u{f7}", "\u{bd}",
        "\u{bc}", "\u{be}", "\u{a7}", "\u{b6}", "\u{20ac}", "\u{a3}", "\u{a5}", "\u{a2}",
        "\u{c6}", "\u{e6}", "\u{10e}", "\u{df}", "\u{e4}", "\u{f6}", "\u{fc}", "\u{c4}",
        "\u{d6}", "\u{dc}", "\u{e9}", "\u{e8}", "\u{e0}", "\u{e7}", "\u{2190}", "\u{2192}",
        "\u{2191}", "\u{2193}", "\u{2194}", "\u{210b}", "\u{2146}", "\u{2232}", "\u{2267}\u{338}",
        "\u{221e}", "\u{2260}", "\u{2264}", "\u{2265}", "\u{3b1}", "\u{3b2}", "\u{3b3}",
        "\u{3b4}", "\u{3c0}", "\u{3c3}", "\u{3c9}", "\u{3bb}", "\u{3bc}", "\u{3b8}", "\u{2713}",
        "\u{2717}", "\u{2665}",
    ]
}

/// Named character references that this library decodes.
pub fn lookup_named_entity(name: &[u8]) -> (r: Option<&'static str>)
    ensures
        match r {
            Some(v) => exists|k: int|
                0 <= k < entity_names().len() && (#[trigger] entity_names()[k]).spec_bytes()
                    == name@ && v == entity_values()[k],
            None => forall|k: int|
                0 <= k < entity_names().len() ==> (#[trigger] entity_names()[k]).spec_bytes()
                    != name@,
        },
{
    let names: Vec<&'static str> = vec![
        "amp", "lt", "gt", "quot", "apos", "nbsp", "copy", "reg", "trade", "hellip", "mdash",
        "ndash", "lsquo", "rsquo", "ldquo", "rdquo", "laquo", "raquo", "middot", "bull", "deg",
        "plusmn", "times", "divide", "frac12", "frac14", "frac34", "sect", "para", "euro",
        "pound", "yen", "cent", "AElig", "aelig", "Dcaron", "szlig", "auml", "ouml", "uuml",
        "Auml", "Ouml", "Uuml", "eacute", "egrave", "agrave", "ccedil", "larr", "rarr", "uarr",
        "darr", "harr", "HilbertSpace", "DifferentialD", "ClockwiseContourIntegral", "ngE",
        "infin", "ne", "le", "ge", "alpha", "beta", "gamma", "delta", "pi", "sigma", "omega",
        "lambda", "mu", "theta", "check", "cross", "hearts",
    ];
    let values: Vec<&'static str> = vec![
        "&", "<", ">", "\"", "'", "\u{a0}", "\u{a9}", "\u{ae}", "\u{2122}", "\u{2026}",
        "\u{2014}", "\u{2013}", "\u{2018}", "\u{2019}", "\u{201c}", "\u{201d}", "\u{ab}",
        "\u{bb}", "\u{b7}", "\u{2022}", "\u{b0}", "\u{b1}", "\u{d7}", "\u{f7}", "\u{bd}",
        "\u{bc}", "\u{be}", "\u{a7}", "\u{b6}", "\u{20ac}", "\u{a3}", "\u{a5}", "\u{a2}",
        "\u{c6}", "\u{e6}", "\u{10e}", "\u{df}", "\u{e4}", "\u{f6}", "\u{fc}", "\u{c4}",
        "\u{d6}", "\u{dc}", "\u{e9}", "\u{e8}", "\u{e0}", "\u{e7}", "\u{2190}", "\u{2192}",
        "\u{2191}", "\u{2193}", "\u{2194}", "\u{210b}", "\u{2146}", "\u{2232}", "\u{2267}\u{338}",
        "\u{221e}", "\u{2260}", "\u{2264}", "\u{2265}", "\u{3b1}", "\u{3b2}", "\u{3b3}",
        "\u{3b4}", "\u{3c0}", "\u{3c3}", "\u{3c9}", "\u{3bb}", "\u{3bc}", "\u{3b8}", "\u{2713}",
        "\u{2717}", "\u{2665}",
    ];
    assert(names@ == entity_names());
    assert(values@ == entity_values());
    assert(names@.len() == values@.len());
    let mut i: usize = 0;
    while i < names.len() && i < values.len()
        invariant
            i <= names@.len(),
            names@ == entity_names(),
            values@ == entity_values(),
            forall|k: int| 0 <= k < i ==> (#[trigger] entity_names()[k]).spec_bytes() != name@,
        decreases names.len() - i,
    {
        if bytes_eq(name, names[i].as_bytes()) {
            return Some(values[i]);
        }
        i = i + 1;
    }
    None
}

/// The UTF-8 encoding of a Unicode scalar value.
pub fn encode_scalar(v: u32) -> (r: Vec<u8>)
    requires
        v <= 0x10FFFF,
    ensures
        1 <= r@.len() <= 4,
{
    let mut out: Vec<u8> = Vec::new();
    if v < 0x80 {
        out.push(v as u8);
    } else if v < 0x800 {
        out.push((0xC0u32 | (v >> 6)) as u8);
        out.push((0x80u32 | (v & 0x3F)) as u8);
    } else if v < 0x10000 {
        out.push((0xE0u32 | (v >> 12)) as u8);
        out.push((0x80u32 | ((v >> 6) & 0x3F)) as u8);
        out.push((0x80u32 | (v & 0x3F)) as u8);
    } else {
        out.push((0xF0u32 | (v >> 18)) as u8);
        out.push((0x80u32 | ((v >> 12) & 0x3F)) as u8);
        out.push((0x80u32 | ((v >> 6) & 0x3F)) as u8);
        out.push((0x80u32 | (v & 0x3F)) as u8);
    }
    out
}

/// The value of a digit in base 16 (`hex`) or 10.
pub open spec fn digit_value(b: u8, hex: bool) -> Option<int> {
    if is_digit(b) {
        Some(b - 48)
    } else if hex && 97u8 <= b && b <= 102u8 {
        Some(b - 87)
    } else if hex && 65u8 <= b && b <= 70u8 {
        Some(b - 55)
    } else {
        None
    }
}

/// Whether every byte is a digit of the base.
pub open spec fn radix_digits(s: Seq<u8>, hex: bool) -> bool {
    forall|k: int| 0 <= k < s.len() ==> (#[trigger] digit_value(s[k], hex)) is Some
}

/// The value of the digits in base 16 (`hex`) or 10.
pub open spec fn radix_value(s: Seq<u8>, hex: bool) -> int
    decreases s.len(),
{
    if s.len() == 0 {
        0
    } else {
        radix_value(s.drop_last(), hex) * (if hex { 16int } else { 10int }) + digit_value(
            s.last(),
            hex,
        )->0
    }
}

/// Reading more digits never lowers the value.
pub proof fn lemma_radix_value_grows(s: Seq<u8>, hex: bool, k: int)
    requires
        0 <= k <= s.len(),
        radix_digits(s, hex),
    ensures
        0 <= radix_value(s.subrange(0, k), hex) <= radix_value(s, hex),
    decreases s.len() - k,
{
    lemma_radix_value_nonneg(s, hex);
    if k < s.len() {
        lemma_radix_value_grows(s, hex, k + 1);
        let t = s.subrange(0, k + 1);
        assert(t.drop_last() =~= s.subrange(0, k));
        lemma_radix_value_nonneg(t, hex);
        assert(digit_value(t.last(), hex) is Some);
        assert(digit_value(s[k], hex) is Some);
    } else {
        assert(s.subrange(0, k) =~= s);
    }
}

pub proof fn lemma_radix_value_nonneg(s: Seq<u8>, hex: bool)
    requires
        radix_digits(s, hex),
    ensures
        radix_value(s, hex) >= 0,
    decreases s.len(),
{
    if s.len() > 0 {
        assert(radix_digits(s.drop_last(), hex)) by {
            assert forall|k: int| 0 <= k < s.drop_last().len() implies (#[trigger] digit_value(
                s.drop_last()[k],
                hex,
            )) is Some by {
                assert(s.drop_last()[k] == s[k]);
            }
        }
        lemma_radix_value_nonneg(s.drop_last(), hex);
        assert(digit_value(s[s.len() - 1], hex) is Some);
    }
}

/// The value of the digits `bytes[start..end]` in base 10 or 16, or `None` on a digit that the
/// base does not have or on overflow of `u32`.
pub fn parse_radix_u32(bytes: &[u8], start: usize, end: usize, hex: bool) -> (r: Option<u32>)
    requires
        start <= end <= bytes@.len(),
    ensures
        r == ({
            let d = bytes@.subrange(start as int, end as int);
            if d.len() > 0 && radix_digits(d, hex) && radix_value(d, hex) <= u32::MAX {
                Some(radix_value(d, hex) as u32)
            } else {
                None
            }
        }),
{
    let ghost ds = bytes@.subrange(start as int, end as int);
    if start == end {
        return None;
    }
    let mut v: u32 = 0;
    let mut i = start;
    while i < end
        invariant
            start <= i <= end <= bytes@.len(),
            ds == bytes@.subrange(start as int, end as int),
            start < end,
            forall|k: int| 0 <= k < i - start ==> (#[trigger] digit_value(ds[k], hex)) is Some,
            v == radix_value(ds.subrange(0, i - start), hex),
        decreases end - i,
    {
        proof {
            assert(ds.subrange(0, i - start + 1).drop_last() =~= ds.subrange(0, i - start));
            assert(ds[i - start] == bytes@[i as int]);
        }
        let b = bytes[i];
        let d: u32 = if ascii_digit(b) {
            (b - 48u8) as u32
        } else if hex && 97u8 <= b && b <= 102u8 {
            (b - 87u8) as u32
        } else if hex && 65u8 <= b && b <= 70u8 {
            (b - 55u8) as u32
        } else {
            proof {
                assert(digit_value(ds[i - start], hex) is None);
                assert(!radix_digits(ds, hex));
            }
            return None;
        };
        let base: u32 = if hex { 16 } else { 10 };
        let m = match v.checked_mul(base) {
            Some(m) => m,
            None => {
                proof {
                    lemma_radix_overflow(ds, hex, i - start + 1);
                }
                return None;
            },
        };
        v = match m.checked_add(d) {
            Some(x) => x,
            None => {
                proof {
                    lemma_radix_overflow(ds, hex, i - start + 1);
                }
                return None;
            },
        };
        i = i + 1;
    }
    assert(ds.subrange(0, i - start) =~= ds);
    Some(v)
}

/// Once a prefix of the digits exceeds `u32::MAX`, either a later byte is no digit of the
/// base or the whole value exceeds it too.
proof fn lemma_radix_overflow(d: Seq<u8>, hex: bool, k: int)
    requires
        0 < k <= d.len(),
        forall|j: int| 0 <= j < k ==> (#[trigger] digit_value(d[j], hex)) is Some,
        radix_value(d.subrange(0, k), hex) > u32::MAX,
    ensures
        !(radix_digits(d, hex) && radix_value(d, hex) <= u32::MAX),
{
    if radix_digits(d, hex) {
        lemma_radix_value_grows(d, hex, k);
    }
}

/// The end of the run of hex digits (`hex`) or of letters and digits from `i`, before `end`.
pub open spec fn class_end(s: Seq<u8>, i: int, end: int, hex: bool) -> int
    decreases end - i,
{
    if 0 <= i < end && (if hex { is_hex(s[i]) } else { is_alnum(s[i]) }) {
        class_end(s, i + 1, end, hex)
    } else {
        i
    }
}

/// The index after the `;` of a character reference at `start` that this library decodes:
/// `&#` and decimal digits, or `&#x`/`&#X` and hex digits, naming a Unicode scalar value; or `&`,
/// one of `entity_names`, and `;`.
pub open spec fn entity_next(s: Seq<u8>, start: int, end: int) -> Option<int> {
    if start >= end || end - start <= 2 || s[start] != 38u8 {
        None
    } else if s[start + 1] == 35u8 {
        let hex = start + 2 < end && (s[start + 2] == 120u8 || s[start + 2] == 88u8);
        let ns: int = if hex { start + 3 } else { start + 2 };
        let ne = class_end(s, ns, end, true);
        let d = s.subrange(ns, ne);
        if ne > ns && ne < end && s[ne] == 59u8 && radix_digits(d, hex) && radix_value(d, hex)
            <= 0x10FFFF && !(0xD800 <= radix_value(d, hex) <= 0xDFFF) {
            Some(ne + 1)
        } else {
            None
        }
    } else {
        let ne = class_end(s, start + 1, end, false);
        if ne > start + 1 && ne < end && s[ne] == 59u8 && exists|k: int|
            0 <= k < entity_names().len() && (#[trigger] entity_names()[k]).spec_bytes()
                == s.subrange(start + 1, ne) {
            Some(ne + 1)
        } else {
            None
        }
    }
}

/// Decodes a character reference `&name;`, `&#ddd;` or `&#xhh;` at `start`: the decoded bytes
/// and the index after the `;`.
pub fn decode_entity(bytes: &[u8], start: usize, end: usize) -> (r: Option<(Vec<u8>, usize)>)
    requires
        end <= bytes@.len(),
    ensures
        r matches Some((_, next)) ==> start < next <= end,
        match r {
            Some((_, next)) => entity_next(bytes@, start as int, end as int) == Some(next as int),
            None => entity_next(bytes@, start as int, end as int) is None,
        },
{
    if start >= end || end - start <= 2 {
        return None;
    }
    if bytes[start] != 38u8 {
        return None;
    }
    let mut i = start + 1;
    if bytes[i] == 35u8 {
        i = i + 1;
        let mut hex = false;
        if i < end && (bytes[i] == 120u8 || bytes[i] == 88u8) {
            hex = true;
            i = i + 1;
        }
        let num_start = i;
        while i < end && ascii_hex(bytes[i])
            invariant
                num_start <= i <= end <= bytes@.len(),
                class_end(bytes@, i as int, end as int, true) == class_end(bytes@, num_start as int, end as int, true),
            decreases end - i,
        {
            i = i + 1;
        }
        assert(class_end(bytes@, i as int, end as int, true) == i);
        if i == num_start || i >= end || bytes[i] != 59u8 {
            return None;
        }
        let value = match parse_radix_u32(bytes, num_start, i, hex) {
            Some(v) => v,
            None => return None,
        };
        proof {
            let d = bytes@.subrange(num_start as int, i as int);
            lemma_radix_value_nonneg(d, hex);
            assert(radix_value(d, hex) == value);
        }
        if value > 0x10FFFF || (0xD800 <= value && value <= 0xDFFF) {
            assert(entity_next(bytes@, start as int, end as int) is None);
            return None;
        }
        return Some((encode_scalar(value), i + 1));
    }
    let name_start = i;
    while i < end && ascii_alnum(bytes[i])
        invariant
            name_start <= i <= end <= bytes@.len(),
            class_end(bytes@, i as int, end as int, false) == class_end(bytes@, name_start as int, end as int, false),
        decreases end - i,
    {
        i = i + 1;
    }
    assert(class_end(bytes@, i as int, end as int, false) == i);
    if i == name_start || i >= end || bytes[i] != 59u8 {
        return None;
    }
    let name = copy_range(bytes, name_start, i);
    match lookup_named_entity(name.as_slice()) {
        Some(decoded) => {
            let mut out: Vec<u8> = Vec::new();
            push_str(&mut out, decoded);
            Some((out, i + 1))
        },
        None => None,
    }
}

/// A byte of an autolink scheme: a letter, a digit, `+`, `-` or `.`.
pub open spec fn scheme_byte(b: u8) -> bool {
    is_alnum(b) || b == 43u8 || b == 45u8 || b == 46u8
}

/// An autolink scheme: a letter, then scheme bytes up to the first `:`, which is neither the
/// first nor the last byte.
pub open spec fn autolink_scheme(v: Seq<u8>) -> bool {
    v.len() > 0 && is_alpha(v[0]) && exists|c: int|
        0 < c && c + 1 < v.len() && v[c] == 58u8 && forall|k: int|
            0 <= k < c ==> #[trigger] v[k] != 58u8 && scheme_byte(v[k])
}

/// An autolink scheme: a letter, then letters, digits, `+`, `-` or `.`, a `:` and something
/// after it.
pub fn is_autolink_scheme(value: &[u8]) -> (r: bool)
    ensures
        r == autolink_scheme(value@),
{
    if value.len() == 0 || !ascii_alpha(value[0]) {
        return false;
    }
    let mut i: usize = 0;
    while i < value.len()
        invariant
            i <= value@.len(),
            value@.len() > 0 && is_alpha(value@[0]),
            forall|k: int| 0 <= k < i ==> #[trigger] value@[k] != 58u8 && scheme_byte(value@[k]),
        decreases value.len() - i,
    {
        let b = value[i];
        if b == 58u8 {
            proof {
                assert forall|c: int|
                    0 < c && c + 1 < value@.len() && value@[c] == 58u8 && (forall|k: int|
                        0 <= k < c ==> #[trigger] value@[k] != 58u8 && scheme_byte(value@[k]))
                    implies c == i by {
                    if c < i {
                        assert(value@[c] != 58u8);
                    }
                    if c > i {
                        assert(value@[i as int] != 58u8);
                    }
                }
            }
            return i > 0 && i + 1 < value.len();
        }
        let ok = ascii_alnum(b) || b == 43u8 || b == 45u8 || b == 46u8;
        if !ok {
            proof {
                assert forall|c: int|
                    0 < c && c + 1 < value@.len() && value@[c] == 58u8 implies !(forall|k: int|
                        0 <= k < c ==> #[trigger] value@[k] != 58u8 && scheme_byte(value@[k])) by {
                    if c <= i {
                        assert(value@[c] == 58u8);
                    }
                    if c > i {
                        assert(!scheme_byte(value@[i as int]));
                    }
                }
            }
            return false;
        }
        i = i + 1;
    }
    false
}

/// A byte allowed in the local part of an autolink e-mail address.
pub open spec fn email_local(b: u8) -> bool {
    is_alnum(b) || b == 33u8 || b == 35u8 || b == 36u8 || b == 37u8 || b == 38u8 || b == 39u8
        || b == 42u8 || b == 43u8 || b == 45u8 || b == 47u8 || b == 61u8 || b == 63u8 || b
        == 94u8 || b == 95u8 || b == 96u8 || b == 123u8 || b == 124u8 || b == 125u8 || b == 126u8
        || b == 46u8
}

fn is_email_local_byte(b: u8) -> (r: bool)
    ensures
        r == email_local(b),
{
    ascii_alnum(b) || b == 33u8 || b == 35u8 || b == 36u8 || b == 37u8 || b == 38u8 || b == 39u8
        || b == 42u8 || b == 43u8 || b == 45u8 || b == 47u8 || b == 61u8 || b == 63u8 || b
        == 94u8 || b == 95u8 || b == 96u8 || b == 123u8 || b == 124u8 || b == 125u8 || b == 126u8
        || b == 46u8
}

/// A byte of an autolink e-mail domain: a letter, a digit, `.` or `-`.
pub open spec fn email_domain_byte(b: u8) -> bool {
    is_alnum(b) || b == 46u8 || b == 45u8
}

/// An autolink e-mail address: exactly one `@`, neither first nor last; allowed bytes before
/// it; after it letters, digits, `.` and `-`, at least one `.`, and no `.` first or last.
pub open spec fn autolink_email(v: Seq<u8>) -> bool {
    exists|a: int|
        0 < a < v.len() - 1 && #[trigger] v[a] == 64u8 && (forall|k: int|
            0 <= k < v.len() && k != a ==> v[k] != 64u8) && (forall|k: int|
            0 <= k < a ==> email_local(#[trigger] v[k])) && (forall|k: int|
            a < k < v.len() ==> email_domain_byte(#[trigger] v[k])) && v[a + 1] != 46u8 && (exists|
            k: int,
        |
            a < k < v.len() && #[trigger] v[k] == 46u8) && v[v.len() - 1] != 46u8
}

/// An autolink email: exactly one `@`, a non-empty local part of allowed bytes, and a domain of
/// letters, digits, `.` and `-` that holds a dot, does not start with one and does not end with
/// one.
pub fn is_autolink_email(value: &[u8]) -> (r: bool)
    ensures
        r == autolink_email(value@),
{
    let mut at: usize = 0;
    let mut ats: usize = 0;
    let mut i: usize = 0;
    while i < value.len()
        invariant
            i <= value@.len(),
            at <= i,
            ats <= i,
            ats == 0 ==> forall|k: int| 0 <= k < i ==> value@[k] != 64u8,
            ats >= 1 ==> at < i && value@[at as int] == 64u8 && forall|k: int|
                0 <= k < at ==> value@[k] != 64u8,
            ats == 1 ==> forall|k: int| at < k < i ==> value@[k] != 64u8,
            ats >= 2 ==> exists|k: int| at < k < i && #[trigger] value@[k] == 64u8,
        decreases value.len() - i,
    {
        if value[i] == 64u8 {
            if ats == 0 {
                at = i;
            }
            ats = ats + 1;
        }
        i = i + 1;
    }
    if ats != 1 || at == 0 || value.len() - at <= 1 {
        proof {
            assert forall|a: int|
                0 < a < value@.len() - 1 && #[trigger] value@[a] == 64u8 implies !(forall|k: int|
                0 <= k < value@.len() && k != a ==> value@[k] != 64u8) by {
                if ats >= 2 {
                    let k2 = choose|k: int| at < k < i && #[trigger] value@[k] == 64u8;
                    if a != at {
                        assert(value@[at as int] == 64u8);
                    } else {
                        assert(value@[k2] == 64u8);
                    }
                } else if ats == 1 {
                    if a != at {
                        assert(value@[at as int] == 64u8);
                    }
                } else {
                    assert(value@[a] != 64u8);
                }
            }
        }
        return false;
    }
    let mut k: usize = 0;
    while k < at
        invariant
            k <= at,
            at < value@.len(),
            value@[at as int] == 64u8,
            forall|j: int| 0 <= j < k ==> email_local(#[trigger] value@[j]),
        decreases at - k,
    {
        if !is_email_local_byte(value[k]) {
            proof {
                assert forall|a: int|
                    0 < a < value@.len() - 1 && #[trigger] value@[a] == 64u8 && (forall|q: int|
                        0 <= q < value@.len() && q != a ==> value@[q] != 64u8) implies !(forall|
                    q: int,
                |
                    0 <= q < a ==> email_local(#[trigger] value@[q])) by {
                    if a != at {
                        assert(value@[at as int] == 64u8);
                    }
                    assert(!email_local(value@[k as int]));
                }
            }
            return false;
        }
        k = k + 1;
    }
    let mut dot = false;
    let mut j = at + 1;
    while j < value.len()
        invariant
            at < j <= value@.len(),
            0 < at,
            at + 1 < value@.len(),
            value@[at as int] == 64u8,
            forall|q: int| 0 <= q < at ==> email_local(#[trigger] value@[q]),
            forall|q: int| at < q < j ==> email_domain_byte(#[trigger] value@[q]),
            j > at + 1 ==> value@[at + 1] != 46u8,
            dot <==> exists|q: int| at < q < j && #[trigger] value@[q] == 46u8,
        decreases value.len() - j,
    {
        let b = value[j];
        if !(ascii_alnum(b) || b == 46u8 || b == 45u8) {
            proof {
                assert forall|a: int|
                    0 < a < value@.len() - 1 && #[trigger] value@[a] == 64u8 && (forall|q: int|
                        0 <= q < value@.len() && q != a ==> value@[q] != 64u8) implies !(forall|
                    q: int,
                |
                    a < q < value@.len() ==> email_domain_byte(#[trigger] value@[q])) by {
                    if a != at {
                        assert(value@[at as int] == 64u8);
                    }
                    assert(!email_domain_byte(value@[j as int]));
                }
            }
            return false;
        }
        if b == 46u8 {
            if j == at + 1 {
                proof {
                    assert forall|a: int|
                        0 < a < value@.len() - 1 && #[trigger] value@[a] == 64u8 && (forall|q: int|
                            0 <= q < value@.len() && q != a ==> value@[q] != 64u8) implies !(
                    value@[a + 1] != 46u8) by {
                        if a != at {
                        assert(value@[at as int] == 64u8);
                    }
                    }
                }
                return false;
            }
            dot = true;
        }
        j = j + 1;
    }
    let r = dot && value[value.len() - 1] != 46u8;
    proof {
        assert forall|a: int|
            0 < a < value@.len() - 1 && #[trigger] value@[a] == 64u8 && (forall|q: int|
                0 <= q < value@.len() && q != a ==> value@[q] != 64u8) implies a == at by {
            if a != at {
                assert(value@[at as int] == 64u8);
            }
        }
        if r {
            assert(value@[at as int] == 64u8);
        }
    }
    r
}

} // verus!
