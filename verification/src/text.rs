use vstd::prelude::*;
use vstd::utf8::{valid_utf8, decode_utf8, encode_utf8};
use vstd::string::StringSliceAdditionalSpecFns;

verus! {

pub open spec fn is_ascii_ws(b: u8) -> bool {
    b == 32u8 || b == 9u8 || b == 10u8 || b == 12u8 || b == 13u8
}

pub open spec fn is_alpha(b: u8) -> bool {
    (65u8 <= b && b <= 90u8) || (97u8 <= b && b <= 122u8)
}

pub open spec fn is_digit(b: u8) -> bool {
    48u8 <= b && b <= 57u8
}

pub open spec fn is_alnum(b: u8) -> bool {
    is_alpha(b) || is_digit(b)
}

pub open spec fn is_hex(b: u8) -> bool {
    is_digit(b) || (65u8 <= b && b <= 70u8) || (97u8 <= b && b <= 102u8)
}

pub open spec fn is_punct(b: u8) -> bool {
    (33u8 <= b && b <= 47u8) || (58u8 <= b && b <= 64u8) || (91u8 <= b && b <= 96u8) || (123u8
        <= b && b <= 126u8)
}

pub open spec fn is_upper(b: u8) -> bool {
    65u8 <= b && b <= 90u8
}

pub open spec fn lower(b: u8) -> u8 {
    if is_upper(b) {
        (b + 32) as u8
    } else {
        b
    }
}

pub open spec fn is_space_tab(b: u8) -> bool {
    b == 32u8 || b == 9u8
}

pub fn ascii_ws(b: u8) -> (r: bool)
    ensures
        r == is_ascii_ws(b),
{
    b == 32u8 || b == 9u8 || b == 10u8 || b == 12u8 || b == 13u8
}

pub fn ascii_alpha(b: u8) -> (r: bool)
    ensures
        r == is_alpha(b),
{
    (65u8 <= b && b <= 90u8) || (97u8 <= b && b <= 122u8)
}

pub fn ascii_digit(b: u8) -> (r: bool)
    ensures
        r == is_digit(b),
{
    48u8 <= b && b <= 57u8
}

pub fn ascii_alnum(b: u8) -> (r: bool)
    ensures
        r == is_alnum(b),
{
    ascii_alpha(b) || ascii_digit(b)
}

pub fn ascii_hex(b: u8) -> (r: bool)
    ensures
        r == is_hex(b),
{
    ascii_digit(b) || (65u8 <= b && b <= 70u8) || (97u8 <= b && b <= 102u8)
}

pub fn ascii_punct(b: u8) -> (r: bool)
    ensures
        r == is_punct(b),
{
    (33u8 <= b && b <= 47u8) || (58u8 <= b && b <= 64u8) || (91u8 <= b && b <= 96u8) || (123u8
        <= b && b <= 126u8)
}

pub fn ascii_lower(b: u8) -> (r: u8)
    ensures
        r == lower(b),
{
    if 65u8 <= b && b <= 90u8 {
        b + 32
    } else {
        b
    }
}

pub fn space_tab(b: u8) -> (r: bool)
    ensures
        r == is_space_tab(b),
{
    b == 32u8 || b == 9u8
}

/// The byte length of the Unicode whitespace character that starts at `i`, or zero.
pub open spec fn ws_len_at(s: Seq<u8>, i: int) -> int {
    if i < 0 || i >= s.len() {
        0
    } else if (9u8 <= s[i] && s[i] <= 13u8) || s[i] == 32u8 {
        1
    } else if i + 1 < s.len() && s[i] == 0xC2u8 && (s[i + 1] == 0x85u8 || s[i + 1] == 0xA0u8) {
        2
    } else if i + 2 < s.len() && ((s[i] == 0xE1u8 && s[i + 1] == 0x9Au8 && s[i + 2] == 0x80u8)
        || (s[i] == 0xE2u8 && s[i + 1] == 0x80u8 && ((0x80u8 <= s[i + 2] && s[i + 2] <= 0x8Au8)
        || s[i + 2] == 0xA8u8 || s[i + 2] == 0xA9u8 || s[i + 2] == 0xAFu8)) || (s[i] == 0xE2u8
        && s[i + 1] == 0x81u8 && s[i + 2] == 0x9Fu8) || (s[i] == 0xE3u8 && s[i + 1] == 0x80u8
        && s[i + 2] == 0x80u8)) {
        3
    } else {
        0
    }
}

/// The byte length of the Unicode whitespace character that ends just before `end`, or zero.
pub open spec fn ws_len_before(s: Seq<u8>, start: int, end: int) -> int {
    if end - 1 >= start && ws_len_at(s, end - 1) == 1 {
        1
    } else if end - 2 >= start && ws_len_at(s, end - 2) == 2 {
        2
    } else if end - 3 >= start && ws_len_at(s, end - 3) == 3 {
        3
    } else {
        0
    }
}

pub fn unicode_ws_at(s: &[u8], i: usize) -> (n: usize)
    ensures
        n == ws_len_at(s@, i as int),
{
    if i >= s.len() {
        return 0;
    }
    let b = s[i];
    if (9u8 <= b && b <= 13u8) || b == 32u8 {
        return 1;
    }
    if i + 1 < s.len() && b == 0xC2u8 && (s[i + 1] == 0x85u8 || s[i + 1] == 0xA0u8) {
        return 2;
    }
    if s.len() - i > 2 {
        let b1 = s[i + 1];
        let b2 = s[i + 2];
        if (b == 0xE1u8 && b1 == 0x9Au8 && b2 == 0x80u8) || (b == 0xE2u8 && b1 == 0x80u8 && ((
        0x80u8 <= b2 && b2 <= 0x8Au8) || b2 == 0xA8u8 || b2 == 0xA9u8 || b2 == 0xAFu8)) || (b
            == 0xE2u8 && b1 == 0x81u8 && b2 == 0x9Fu8) || (b == 0xE3u8 && b1 == 0x80u8 && b2
            == 0x80u8) {
            return 3;
        }
    }
    0
}

pub fn unicode_ws_before(s: &[u8], start: usize, end: usize) -> (n: usize)
    requires
        start <= end <= s@.len(),
    ensures
        n == ws_len_before(s@, start as int, end as int),
        n <= end - start,
{
    if end - start >= 1 && unicode_ws_at(s, end - 1) == 1 {
        1
    } else if end - start >= 2 && unicode_ws_at(s, end - 2) == 2 {
        2
    } else if end - start >= 3 && unicode_ws_at(s, end - 3) == 3 {
        3
    } else {
        0
    }
}

/// Where trimming leading whitespace of `s[start..end]` stops.
pub open spec fn trim_start_at(s: Seq<u8>, start: int, end: int) -> int
    decreases end - start,
{
    if start >= end {
        start
    } else {
        let n = ws_len_at(s, start);
        if n == 0 || n > end - start {
            start
        } else {
            trim_start_at(s, start + n, end)
        }
    }
}

/// Where trimming trailing whitespace of `s[start..end]` stops.
pub open spec fn trim_end_at(s: Seq<u8>, start: int, end: int) -> int
    decreases end - start,
{
    if end <= start {
        end
    } else {
        let n = ws_len_before(s, start, end);
        if n == 0 || n > end - start {
            end
        } else {
            trim_end_at(s, start, end - n)
        }
    }
}

/// Trimming trailing whitespace cuts where a whitespace character begins: at the end, or
/// before a byte that continues no character.
pub proof fn lemma_trim_end_cut(s: Seq<u8>, start: int, end: int)
    requires
        0 <= start <= end <= s.len(),
    ensures
        ({
            let r = trim_end_at(s, start, end);
            r == end || (start <= r < end && !vstd::utf8::is_continuation_byte(s[r]))
        }),
    decreases end - start,
{
    if end > start {
        let n = ws_len_before(s, start, end);
        if n > 0 && n <= end - start {
            lemma_trim_end_cut(s, start, end - n);
            assert(ws_len_at(s, end - n) == n);
        }
    }
}

/// A text without its leading and trailing Unicode whitespace.
pub open spec fn trimmed(s: Seq<u8>) -> Seq<u8> {
    let a = trim_start_at(s, 0, s.len() as int);
    s.subrange(a, trim_end_at(s, a, s.len() as int))
}

/// Skips Unicode whitespace forward from `start`, staying below `end`.
pub fn trim_start_from(s: &[u8], start: usize, end: usize) -> (r: usize)
    requires
        start <= end <= s@.len(),
    ensures
        start <= r <= end,
        r == trim_start_at(s@, start as int, end as int),
        r < end ==> ws_len_at(s@, r as int) == 0 || r + ws_len_at(s@, r as int) > end,
{
    let mut i = start;
    while i < end
        invariant
            start <= i <= end <= s@.len(),
            trim_start_at(s@, i as int, end as int) == trim_start_at(s@, start as int, end as int),
        decreases end - i,
    {
        let n = unicode_ws_at(s, i);
        if n == 0 || n > end - i {
            return i;
        }
        i = i + n;
    }
    i
}

/// Skips Unicode whitespace backward from `end`, staying above `start`.
pub fn trim_end_from(s: &[u8], start: usize, end: usize) -> (r: usize)
    requires
        start <= end <= s@.len(),
    ensures
        start <= r <= end,
        r == trim_end_at(s@, start as int, end as int),
        ws_len_before(s@, start as int, r as int) == 0,
{
    let mut e = end;
    while e > start
        invariant
            start <= e <= end <= s@.len(),
            trim_end_at(s@, start as int, e as int) == trim_end_at(s@, start as int, end as int),
        decreases e - start,
    {
        let n = unicode_ws_before(s, start, e);
        if n == 0 {
            return e;
        }
        e = e - n;
    }
    e
}

/// The bounds of `s[start..end]` with Unicode whitespace removed from both ends.
pub fn trim_range(s: &[u8], start: usize, end: usize) -> (r: (usize, usize))
    requires
        start <= end <= s@.len(),
    ensures
        start <= r.0 <= r.1 <= end,
        r.0 == trim_start_at(s@, start as int, end as int),
        r.1 == trim_end_at(s@, r.0 as int, end as int),
{
    let a = trim_start_from(s, start, end);
    let b = trim_end_from(s, a, end);
    (a, b)
}

/// The end of the run of `b` bytes that starts at `start`.
pub open spec fn byte_run(s: Seq<u8>, start: int, b: u8) -> int
    decreases s.len() - start,
{
    if 0 <= start < s.len() && s[start] == b {
        byte_run(s, start + 1, b)
    } else {
        start
    }
}

/// A run ends no earlier than it starts, and no later than the text where it starts inside.
pub proof fn lemma_byte_run_bounds(s: Seq<u8>, start: int, b: u8)
    requires
        0 <= start <= s.len(),
    ensures
        start <= byte_run(s, start, b) <= s.len(),
        forall|k: int| start <= k < byte_run(s, start, b) ==> s[k] == b,
        byte_run(s, start, b) < s.len() ==> s[byte_run(s, start, b)] != b,
    decreases s.len() - start,
{
    if start < s.len() && s[start] == b {
        lemma_byte_run_bounds(s, start + 1, b);
    }
}

/// A run that starts inside a stretch of `b` bytes ends where the run from the stretch's end does.
pub proof fn lemma_byte_run_skip(s: Seq<u8>, start: int, n: int, b: u8)
    requires
        0 <= start <= n <= s.len(),
        forall|k: int| start <= k < n ==> s[k] == b,
    ensures
        byte_run(s, start, b) == byte_run(s, n, b),
    decreases n - start,
{
    if start < n {
        lemma_byte_run_skip(s, start + 1, n, b);
    }
}

/// Whether the bytes are empty after trimming Unicode whitespace.
pub fn is_blank(s: &[u8]) -> (r: bool)
    ensures
        r == (trimmed(s@).len() == 0),
{
    let (a, b) = trim_range(s, 0, s.len());
    a == b
}

/// A copy of `s[start..end]`.
pub fn copy_range(s: &[u8], start: usize, end: usize) -> (r: Vec<u8>)
    requires
        start <= end <= s@.len(),
    ensures
        r@ == s@.subrange(start as int, end as int),
{
    let mut out: Vec<u8> = Vec::with_capacity(end - start);
    let mut i = start;
    while i < end
        invariant
            start <= i <= end <= s@.len(),
            out@ == s@.subrange(start as int, i as int),
        decreases end - i,
    {
        out.push(s[i]);
        i = i + 1;
    }
    out
}

/// Appends all of `src` to `out`.
pub fn push_all(out: &mut Vec<u8>, src: &[u8])
    ensures
        final(out)@ == old(out)@ + src@,
{
    let mut i: usize = 0;
    let ghost base = out@;
    while i < src.len()
        invariant
            0 <= i <= src@.len(),
            out@ == base + src@.subrange(0, i as int),
        decreases src.len() - i,
    {
        out.push(src[i]);
        i = i + 1;
        assert(src@.subrange(0, i as int) == src@.subrange(0, i - 1).push(src@[i - 1]));
    }
    assert(src@.subrange(0, src@.len() as int) == src@);
}

/// Appends the bytes of a string slice.
pub fn push_str(out: &mut Vec<u8>, s: &str)
    ensures
        final(out)@ == old(out)@ + s.spec_bytes(),
{
    push_all(out, s.as_bytes());
}

/// Whether `s[i..]` starts with `pat`.
pub open spec fn starts_at(s: Seq<u8>, i: int, pat: Seq<u8>) -> bool {
    0 <= i && i + pat.len() <= s.len() && s.subrange(i, i + pat.len()) == pat
}

pub fn bytes_start_with(s: &[u8], i: usize, pat: &[u8]) -> (r: bool)
    ensures
        r == starts_at(s@, i as int, pat@),
{
    if i > s.len() || pat.len() > s.len() - i {
        return false;
    }
    let mut k: usize = 0;
    while k < pat.len()
        invariant
            0 <= k <= pat@.len(),
            i + pat@.len() <= s@.len() <= usize::MAX,
            forall|j: int| 0 <= j < k ==> s@[i + j] == pat@[j],
        decreases pat.len() - k,
    {
        if s[i + k] != pat[k] {
            assert(s@.subrange(i as int, i + pat@.len())[k as int] != pat@[k as int]);
            return false;
        }
        k = k + 1;
    }
    assert(s@.subrange(i as int, i + pat@.len()) =~= pat@);
    true
}

/// The first index at or after `from` (and at most the length) where `pat` occurs in `s`.
pub open spec fn find_at(s: Seq<u8>, from: int, pat: Seq<u8>) -> Option<int>
    decreases s.len() + 1 - from,
{
    if from < 0 || from > s.len() {
        None
    } else if starts_at(s, from, pat) {
        Some(from)
    } else {
        find_at(s, from + 1, pat)
    }
}

/// A match that `find_at` finds lies at or after where the search starts, within `s`.
pub proof fn lemma_find_at_bounds(s: Seq<u8>, from: int, pat: Seq<u8>)
    ensures
        find_at(s, from, pat) matches Some(p) ==> from <= p <= s.len() && starts_at(s, p, pat),
    decreases s.len() + 1 - from,
{
    if 0 <= from <= s.len() && !starts_at(s, from, pat) {
        lemma_find_at_bounds(s, from + 1, pat);
    }
}

/// The first index at or after `from` where `pat` occurs in `s`.
pub fn find_from(s: &[u8], from: usize, pat: &[u8]) -> (r: Option<usize>)
    ensures
        r matches Some(p) ==> from <= p && starts_at(s@, p as int, pat@) && (forall|q: int|
            from <= q < p ==> !starts_at(s@, q, pat@)),
        r is None ==> forall|q: int| from <= q ==> !starts_at(s@, q, pat@),
        match r {
            Some(p) => find_at(s@, from as int, pat@) == Some(p as int),
            None => find_at(s@, from as int, pat@) is None,
        },
{
    let mut i = from;
    while i < s.len()
        invariant
            from <= i,
            forall|q: int| from <= q < i ==> !starts_at(s@, q, pat@),
            find_at(s@, i as int, pat@) == find_at(s@, from as int, pat@),
        decreases s.len() - i,
    {
        if bytes_start_with(s, i, pat) {
            return Some(i);
        }
        i = i + 1;
    }
    if bytes_start_with(s, i, pat) {
        return Some(i);
    }
    assert forall|q: int| from <= q implies !starts_at(s@, q, pat@) by {
        if q > i {
            assert(q + pat@.len() > s@.len());
        }
    }
    proof {
        assert(find_at(s@, i + 1, pat@) is None);
    }
    None
}

/// Whether the byte occurs in `s[start..end]`.
pub fn contains_byte(s: &[u8], start: usize, end: usize, b: u8) -> (r: bool)
    requires
        start <= end <= s@.len(),
    ensures
        r == exists|k: int| start <= k < end && s@[k] == b,
{
    let mut i = start;
    while i < end
        invariant
            start <= i <= end <= s@.len(),
            forall|k: int| start <= k < i ==> s@[k] != b,
        decreases end - i,
    {
        if s[i] == b {
            return true;
        }
        i = i + 1;
    }
    false
}

/// Whether the two byte slices are equal.
pub fn bytes_eq(a: &[u8], b: &[u8]) -> (r: bool)
    ensures
        r == (a@ == b@),
{
    if a.len() != b.len() {
        return false;
    }
    let r = bytes_start_with(a, 0, b);
    proof {
        if r {
            assert(a@.subrange(0, b@.len() as int) == a@);
        } else {
            assert(a@.subrange(0, b@.len() as int) == a@);
        }
    }
    r
}

/// ASCII case-insensitive equality.
pub fn eq_ignore_ascii_case(a: &[u8], b: &[u8]) -> (r: bool)
    ensures
        r == (a@.len() == b@.len() && forall|k: int| 0 <= k < a@.len() ==> lower(a@[k]) == lower(
            b@[k],
        )),
{
    if a.len() != b.len() {
        return false;
    }
    let mut i: usize = 0;
    while i < a.len()
        invariant
            0 <= i <= a@.len(),
            a@.len() == b@.len(),
            forall|k: int| 0 <= k < i ==> lower(a@[k]) == lower(b@[k]),
        decreases a.len() - i,
    {
        if ascii_lower(a[i]) != ascii_lower(b[i]) {
            return false;
        }
        i = i + 1;
    }
    true
}

/// What `String::from_utf8_lossy` gives for bytes: their UTF-8 decoding, each invalid
/// sequence replaced by U+FFFD.
pub uninterp spec fn lossy_decode(bytes: Seq<u8>) -> Seq<char>;

/// Builds a `String` from bytes with `String::from_utf8_lossy`: the bytes are decoded as
/// UTF-8, and any invalid sequence becomes U+FFFD. The result is named by `lossy_decode`;
/// for valid UTF-8 it is the decoding.
#[verifier::external_body]
pub(crate) fn string_from_bytes(bytes: &[u8]) -> (s: String)
    ensures
        s@ == lossy_decode(bytes@),
        valid_utf8(bytes@) ==> s@ == decode_utf8(bytes@),
{
    String::from_utf8_lossy(bytes).into_owned()
}

/// What `str::to_lowercase` returns for a string (full Unicode lowercase mapping).
pub uninterp spec fn spec_to_lowercase(s: Seq<char>) -> Seq<char>;

/// `str::to_lowercase`; its result is named by `spec_to_lowercase`.
#[verifier::external_body]
pub(crate) fn to_lowercase(s: &str) -> (r: String)
    ensures
        r@ == spec_to_lowercase(s@),
{
    s.to_lowercase()
}

/// The bytes of a string.
pub fn string_bytes(s: &String) -> (b: &[u8])
    ensures
        b@ == encode_utf8(s@),
{
    s.as_str().as_bytes()
}

/// A string's bytes are UTF-8.
pub proof fn lemma_str_valid(s: &str)
    ensures
        valid_utf8(s.spec_bytes()),
{
    vstd::utf8::encode_utf8_valid_utf8(s@);
}

/// Joins two UTF-8 texts.
pub proof fn lemma_cat(a: Seq<u8>, b: Seq<u8>)
    requires
        valid_utf8(a),
        valid_utf8(b),
    ensures
        valid_utf8(a + b),
{
    vstd::utf8::valid_utf8_concat(a, b);
}

/// No bytes are UTF-8.
pub proof fn lemma_empty_valid()
    ensures
        valid_utf8(Seq::<u8>::empty()),
{
}


/// Bytes below 0x80 are UTF-8.
pub proof fn lemma_ascii_valid(s: Seq<u8>)
    requires
        forall|k: int| 0 <= k < s.len() ==> s[k] < 128,
    ensures
        valid_utf8(s),
    decreases s.len(),
{
    if s.len() > 0 {
        let rest = s.subrange(1, s.len() as int);
        assert(vstd::utf8::is_leading_byte_width_1(s[0]));
        assert(vstd::utf8::length_of_first_scalar(s) == 1);
        assert(vstd::utf8::pop_first_scalar(s) == rest);
        lemma_ascii_valid(rest);
    }
}

/// The bytes of two texts one after the other are the bytes of each.
pub proof fn lemma_encode_concat(a: Seq<char>, b: Seq<char>)
    ensures
        encode_utf8(a + b) == encode_utf8(a) + encode_utf8(b),
    decreases a.len(),
{
    if a.len() > 0 {
        lemma_encode_concat(a.drop_first(), b);
        assert((a + b).drop_first() == a.drop_first() + b);
    } else {
        assert(a + b == b);
    }
}
/// The index of the first `b` in `s`.
pub open spec fn first_index(s: Seq<u8>, b: u8) -> Option<int>
    decreases s.len(),
{
    if s.len() == 0 {
        None
    } else if s[0] == b {
        Some(0)
    } else {
        match first_index(s.subrange(1, s.len() as int), b) {
            Some(k) => Some(k + 1),
            None => None,
        }
    }
}

pub proof fn lemma_first_index_bound(s: Seq<u8>, b: u8)
    ensures
        first_index(s, b) matches Some(k) ==> 0 <= k < s.len() && s[k] == b,
    decreases s.len(),
{
    if s.len() > 0 && s[0] != b {
        lemma_first_index_bound(s.subrange(1, s.len() as int), b);
        if let Some(k) = first_index(s.subrange(1, s.len() as int), b) {
            assert(s.subrange(1, s.len() as int)[k] == s[k + 1]);
        }
    }
}

/// The first occurrence of a byte is where it occurs with none before it.
pub proof fn lemma_first_index_is(s: Seq<u8>, b: u8, p: int)
    requires
        0 <= p < s.len(),
        s[p] == b,
        forall|k: int| 0 <= k < p ==> s[k] != b,
    ensures
        first_index(s, b) == Some(p),
    decreases s.len(),
{
    if p > 0 {
        let rest = s.subrange(1, s.len() as int);
        assert forall|k: int| 0 <= k < p - 1 implies rest[k] != b by {
            assert(rest[k] == s[k + 1]);
        }
        lemma_first_index_is(rest, b, p - 1);
    }
}

/// A byte that does not occur has no first occurrence.
pub proof fn lemma_first_index_absent(s: Seq<u8>, b: u8)
    requires
        forall|k: int| 0 <= k < s.len() ==> s[k] != b,
    ensures
        first_index(s, b) is None,
    decreases s.len(),
{
    if s.len() > 0 {
        let rest = s.subrange(1, s.len() as int);
        assert forall|k: int| 0 <= k < rest.len() implies rest[k] != b by {
            assert(rest[k] == s[k + 1]);
        }
        lemma_first_index_absent(rest, b);
    }
}

/// Before the first occurrence of a byte, the byte does not occur.
pub proof fn lemma_first_index_clear(s: Seq<u8>, b: u8, k: int)
    requires
        first_index(s, b) == Some(k),
    ensures
        0 <= k < s.len(),
        forall|j: int| 0 <= j < k ==> s[j] != b,
    decreases s.len(),
{
    if s.len() > 0 && s[0] != b {
        let rest = s.subrange(1, s.len() as int);
        lemma_first_index_clear(rest, b, k - 1);
        assert forall|j: int| 0 <= j < k implies s[j] != b by {
            if j > 0 {
                assert(s[j] == rest[j - 1]);
            }
        }
    }
}

} // verus!
